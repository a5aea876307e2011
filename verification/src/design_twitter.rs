//! A miniature social feed: users post tweets, follow each other, and read a news feed of
//! the ten most recent tweets by themselves and the users they follow.

use std::collections::HashMap;
use vstd::prelude::*;

verus! {

broadcast use vstd::std_specs::hash::group_hash_axioms;

pub type UserId = i32;

pub type TweetId = i32;

/// Maximum number of tweets in a news feed.
pub const FEED_LIMIT: usize = 10;

/// The users whose tweets appear in `user`'s feed.
pub open spec fn feed_sources(follows: Map<i32, Seq<i32>>, user: i32) -> Set<i32> {
    Set::new(|u: i32| u == user || (follows.contains_key(user) && follows[user].contains(u)))
}

/// The ids of the `limit` most recent tweets in `log` (oldest first) by authors in `srcs`,
/// most recent first.
pub open spec fn recent_by(log: Seq<(i32, i32)>, srcs: Set<i32>, limit: nat) -> Seq<i32>
    decreases log.len(),
{
    if log.len() == 0 || limit == 0 {
        Seq::empty()
    } else if srcs.contains(log.last().0) {
        seq![log.last().1] + recent_by(log.drop_last(), srcs, (limit - 1) as nat)
    } else {
        recent_by(log.drop_last(), srcs, limit)
    }
}

/// A news feed never holds more than the limit, and every tweet in it is by one of the sources.
pub proof fn lemma_feed_bounded(log: Seq<(i32, i32)>, srcs: Set<i32>, limit: nat)
    ensures
        recent_by(log, srcs, limit).len() <= limit,
        recent_by(log, srcs, limit).len() <= log.len(),
    decreases log.len(),
{
    if log.len() > 0 && limit > 0 {
        if srcs.contains(log.last().0) {
            lemma_feed_bounded(log.drop_last(), srcs, (limit - 1) as nat);
        } else {
            lemma_feed_bounded(log.drop_last(), srcs, limit);
        }
    }
}

/// The observable state: every tweet as (author, tweet id) in posting order, and who follows whom.
pub struct TwitterView {
    pub tweets: Seq<(i32, i32)>,
    pub follows: Map<i32, Seq<i32>>,
}

pub struct Twitter {
    tweets: Vec<(UserId, TweetId)>,
    follows: HashMap<UserId, Vec<UserId>>,
}

impl View for Twitter {
    type V = TwitterView;

    closed spec fn view(&self) -> TwitterView {
        TwitterView { tweets: self.tweets@, follows: self.follows@.map_values(|v: Vec<i32>| v@) }
    }
}

impl Twitter {
    pub fn new() -> (r: Self)
        ensures
            r@.tweets == Seq::<(i32, i32)>::empty(),
            r@.follows == Map::<i32, Seq<i32>>::empty(),
    {
        let r = Self { tweets: Vec::new(), follows: HashMap::new() };
        assert(r@.follows =~= Map::<i32, Seq<i32>>::empty());
        r
    }

    /// Records that `user_id` posted `tweet_id`; it is the most recent tweet from now on.
    pub fn post_tweet(&mut self, user_id: UserId, tweet_id: TweetId)
        ensures
            final(self)@.tweets == old(self)@.tweets.push((user_id, tweet_id)),
            final(self)@.follows == old(self)@.follows,
    {
        self.tweets.push((user_id, tweet_id));
    }

    fn followees(&self, user_id: UserId) -> (r: Vec<UserId>)
        ensures
            self@.follows.contains_key(user_id) ==> r@ == self@.follows[user_id],
            !self@.follows.contains_key(user_id) ==> r@ == Seq::<i32>::empty(),
    {
        match self.follows.get(&user_id) {
            Some(v) => {
                let mut out: Vec<UserId> = Vec::new();
                let mut i: usize = 0;
                while i < v.len()
                    invariant
                        i <= v@.len(),
                        out@ == v@.subrange(0, i as int),
                    decreases v@.len() - i,
                {
                    out.push(v[i]);
                    i = i + 1;
                }
                proof {
                    assert(v@.subrange(0, v@.len() as int) =~= v@);
                }
                out
            },
            None => Vec::new(),
        }
    }

    /// The ten most recent tweets by `user_id` and the users it follows, most recent first.
    pub fn get_news_feed(&self, user_id: UserId) -> (feed: Vec<TweetId>)
        ensures
            feed@ == recent_by(self@.tweets, feed_sources(self@.follows, user_id), FEED_LIMIT as nat),
    {
        let followees = self.followees(user_id);
        let ghost srcs = feed_sources(self@.follows, user_id);
        let mut feed: Vec<TweetId> = Vec::new();
        let mut i: usize = self.tweets.len();
        assert(self@.tweets.subrange(0, i as int) =~= self@.tweets);
        assert(feed@ + recent_by(self@.tweets, srcs, FEED_LIMIT as nat) =~= recent_by(self@.tweets, srcs, FEED_LIMIT as nat));
        while i > 0 && feed.len() < FEED_LIMIT
            invariant
                i <= self.tweets@.len(),
                feed@.len() <= FEED_LIMIT,
                followees@ == (if self@.follows.contains_key(user_id) { self@.follows[user_id] } else { Seq::<i32>::empty() }),
                srcs == feed_sources(self@.follows, user_id),
                feed@ + recent_by(self@.tweets.subrange(0, i as int), srcs, (FEED_LIMIT - feed@.len()) as nat)
                    == recent_by(self@.tweets, srcs, FEED_LIMIT as nat),
            decreases i,
        {
            let (author, tid) = self.tweets[i - 1];
            let mut is_src = author == user_id;
            let mut j: usize = 0;
            while j < followees.len() && !is_src
                invariant
                    j <= followees@.len(),
                    is_src ==> (author == user_id || followees@.contains(author)),
                    !is_src ==> author != user_id && forall|q: int| 0 <= q < j ==> followees@[q] != author,
                decreases followees@.len() - j,
            {
                if followees[j] == author {
                    is_src = true;
                }
                j = j + 1;
            }
            proof {
                let pre = self@.tweets.subrange(0, i as int);
                assert(pre.last() == (author, tid));
                assert(pre.drop_last() =~= self@.tweets.subrange(0, i - 1));
                assert(is_src == srcs.contains(author));
            }
            if is_src {
                feed.push(tid);
                proof {
                    assert(feed@ =~= feed@.drop_last() + seq![tid]);
                }
            }
            i = i - 1;
        }
        proof {
            let rest = recent_by(self@.tweets.subrange(0, i as int), srcs, (FEED_LIMIT - feed@.len()) as nat);
            assert(rest =~= Seq::<i32>::empty());
            assert(self@.tweets.subrange(0, self@.tweets.len() as int) =~= self@.tweets);
        }
        feed
    }

    /// `follower_id` starts following `followee_id`; following oneself is ignored.
    pub fn follow(&mut self, follower_id: UserId, followee_id: UserId)
        ensures
            final(self)@.tweets == old(self)@.tweets,
            follower_id == followee_id ==> final(self)@.follows == old(self)@.follows,
            follower_id != followee_id ==> final(self)@.follows == old(self)@.follows.insert(
                follower_id,
                if !old(self)@.follows.contains_key(follower_id) {
                    seq![followee_id]
                } else if old(self)@.follows[follower_id].contains(followee_id) {
                    old(self)@.follows[follower_id]
                } else {
                    old(self)@.follows[follower_id].push(followee_id)
                },
            ),
    {
        if follower_id == followee_id {
            return;
        }
        let mut list = self.followees(follower_id);
        let mut found = false;
        let mut j: usize = 0;
        while j < list.len()
            invariant
                j <= list@.len(),
                found == list@.subrange(0, j as int).contains(followee_id),
            decreases list@.len() - j,
        {
            if list[j] == followee_id {
                found = true;
            }
            proof {
                let a = list@.subrange(0, j as int);
                let b = list@.subrange(0, j + 1);
                assert(b =~= a.push(list@[j as int]));
                if a.contains(followee_id) {
                    let q = choose|q: int| 0 <= q < a.len() && a[q] == followee_id;
                    assert(b[q] == followee_id);
                }
                if list@[j as int] == followee_id {
                    assert(b[j as int] == followee_id);
                }
                if b.contains(followee_id) {
                    let q = choose|q: int| 0 <= q < b.len() && b[q] == followee_id;
                    if q < j {
                        assert(a[q] == followee_id);
                    }
                }
            }
            j = j + 1;
        }
        proof {
            assert(list@.subrange(0, list@.len() as int) =~= list@);
        }
        if !found {
            list.push(followee_id);
        }
        self.follows.insert(follower_id, list);
        proof {
            assert(self@.follows =~= old(self)@.follows.insert(follower_id, list@));
        }
    }

    /// `follower_id` stops following `followee_id`.
    pub fn unfollow(&mut self, follower_id: UserId, followee_id: UserId)
        ensures
            final(self)@.tweets == old(self)@.tweets,
            !old(self)@.follows.contains_key(follower_id) ==> final(self)@.follows == old(self)@.follows,
            old(self)@.follows.contains_key(follower_id) ==> final(self)@.follows == old(self)@.follows.insert(
                follower_id,
                old(self)@.follows[follower_id].filter(|u: i32| u != followee_id),
            ),
    {
        if !self.follows.contains_key(&follower_id) {
            return;
        }
        let list = self.followees(follower_id);
        let mut kept: Vec<UserId> = Vec::new();
        let mut j: usize = 0;
        while j < list.len()
            invariant
                j <= list@.len(),
                kept@ == list@.subrange(0, j as int).filter(|u: i32| u != followee_id),
            decreases list@.len() - j,
        {
            proof {
                assert(list@.subrange(0, j + 1).drop_last() =~= list@.subrange(0, j as int));
                reveal(Seq::filter);
            }
            if list[j] != followee_id {
                kept.push(list[j]);
            }
            j = j + 1;
        }
        proof {
            assert(list@.subrange(0, list@.len() as int) =~= list@);
        }
        self.follows.insert(follower_id, kept);
        proof {
            assert(self@.follows =~= old(self)@.follows.insert(follower_id, kept@));
        }
    }
}

} // verus!
