use systems::design_twitter::Twitter;

#[test]
fn test_basic_flow() {
    let mut twitter = Twitter::new();
    twitter.post_tweet(1, 5);
    let feed = twitter.get_news_feed(1);
    assert_eq!(feed, vec![5]);
}

#[test]
fn test_follow_system() {
    let mut twitter = Twitter::new();
    twitter.post_tweet(1, 5);
    twitter.post_tweet(2, 6);
    twitter.follow(1, 2);
    let feed = twitter.get_news_feed(1);
    assert_eq!(feed, vec![6, 5]);
    let feed_2 = twitter.get_news_feed(2);
    assert_eq!(feed_2, vec![6]);
}

#[test]
fn test_unfollow_system() {
    let mut twitter = Twitter::new();
    twitter.post_tweet(1, 5);
    twitter.post_tweet(2, 6);
    twitter.follow(1, 2);
    assert_eq!(twitter.get_news_feed(1), vec![6, 5]);
    twitter.unfollow(1, 2);
    assert_eq!(twitter.get_news_feed(1), vec![5]);
}

#[test]
fn test_feed_ordering_complex() {
    let mut twitter = Twitter::new();
    twitter.post_tweet(1, 10);
    twitter.post_tweet(2, 20);
    twitter.post_tweet(1, 11);
    twitter.post_tweet(2, 21);
    twitter.follow(1, 2);
    let feed = twitter.get_news_feed(1);
    assert_eq!(feed, vec![21, 11, 20, 10]);
}

#[test]
fn test_limit_10() {
    let mut twitter = Twitter::new();
    for i in 1..=15 {
        twitter.post_tweet(1, i);
    }
    let feed = twitter.get_news_feed(1);
    assert_eq!(feed.len(), 10);
    assert_eq!(feed, vec![15, 14, 13, 12, 11, 10, 9, 8, 7, 6]);
}

#[test]
fn twitter_self_follow_ignored_and_double_follow_once() {
    let mut twitter = Twitter::new();
    twitter.follow(1, 1);
    twitter.post_tweet(2, 7);
    twitter.follow(1, 2);
    twitter.follow(1, 2);
    assert_eq!(twitter.get_news_feed(1), vec![7]);
    twitter.unfollow(1, 2);
    assert_eq!(twitter.get_news_feed(1), Vec::<i32>::new());
}
