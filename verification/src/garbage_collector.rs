//! The mark phase of a mark-and-sweep collector, on the heap seen as a graph: objects are
//! numbered `0..n`, `children[i]` lists the objects that object `i` holds handles to, and
//! `rooted[i]` says whether a root keeps object `i` alive. An object survives a collection
//! exactly when a chain of handles leads to it from a rooted object; the sweep frees the rest.

use vstd::prelude::*;

verus! {

/// Object `a` holds a handle to object `b`.
pub open spec fn holds(children: Seq<Vec<usize>>, a: int, b: int) -> bool {
    0 <= a < children.len() && exists|j: int| 0 <= j < children[a]@.len() && children[a]@[j] == b
}

/// `p` is a chain of objects, each holding a handle to the next.
pub open spec fn is_chain(children: Seq<Vec<usize>>, p: Seq<int>) -> bool {
    &&& p.len() >= 1
    &&& forall|k: int| 0 <= k < p.len() ==> 0 <= #[trigger] p[k] < children.len()
    &&& forall|k: int| 0 <= k < p.len() - 1 ==> holds(children, #[trigger] p[k], p[k + 1])
}

/// Object `x` can be reached from a rooted object by following handles.
pub open spec fn reachable(children: Seq<Vec<usize>>, rooted: Seq<bool>, x: int) -> bool {
    exists|p: Seq<int>| #[trigger] is_chain(children, p) && rooted[p[0]] && p.last() == x
}

/// Every handle in the graph names an object of the graph.
pub open spec fn well_formed(children: Seq<Vec<usize>>, rooted: Seq<bool>) -> bool {
    &&& children.len() == rooted.len()
    &&& forall|i: int, j: int|
        0 <= i < children.len() && 0 <= j < children[i]@.len() ==> #[trigger] children[i]@[j] < children.len()
}

/// A set of objects that holds every rooted object and everything its members hold a
/// handle to holds everything reachable.
proof fn lemma_closed_holds_reachable(children: Seq<Vec<usize>>, rooted: Seq<bool>, marked: Seq<bool>, p: Seq<int>)
    requires
        children.len() == rooted.len() == marked.len(),
        forall|i: int| 0 <= i < rooted.len() && #[trigger] rooted[i] ==> marked[i],
        forall|a: int, b: int| #[trigger] holds(children, a, b) && marked[a] ==> marked[b],
        is_chain(children, p),
        rooted[p[0]],
    ensures
        marked[p.last()],
    decreases p.len(),
{
    if p.len() > 1 {
        let q = p.drop_last();
        assert(is_chain(children, q)) by {
            assert forall|k: int| 0 <= k < q.len() - 1 implies holds(children, #[trigger] q[k], q[k + 1]) by {
                assert(q[k] == p[k] && q[k + 1] == p[k + 1]);
            }
        }
        lemma_closed_holds_reachable(children, rooted, marked, q);
        assert(holds(children, p[p.len() - 2], p[p.len() - 1]));
    }
}

/// A chain to `a` followed by a handle from `a` to `b` is a chain to `b`.
proof fn lemma_extend(children: Seq<Vec<usize>>, rooted: Seq<bool>, a: int, b: int)
    requires
        reachable(children, rooted, a),
        holds(children, a, b),
        0 <= b < children.len(),
    ensures
        reachable(children, rooted, b),
{
    let p = choose|p: Seq<int>| #[trigger] is_chain(children, p) && rooted[p[0]] && p.last() == a;
    let q = p.push(b);
    assert forall|k: int| 0 <= k < q.len() - 1 implies holds(children, #[trigger] q[k], q[k + 1]) by {
        if k < p.len() - 1 {
            assert(q[k] == p[k] && q[k + 1] == p[k + 1]);
        } else {
            assert(q[k] == a && q[k + 1] == b);
        }
    }
    assert forall|k: int| 0 <= k < q.len() implies 0 <= #[trigger] q[k] < children.len() by {
        if k < p.len() {
            assert(q[k] == p[k]);
        }
    }
    assert(is_chain(children, q));
    assert(q[0] == p[0]);
}

/// The objects that survive a collection: `marked[i]` holds exactly when object `i` is
/// reachable from a rooted object.
pub fn mark_reachable(children: &Vec<Vec<usize>>, rooted: &Vec<bool>) -> (marked: Vec<bool>)
    requires
        well_formed(children@, rooted@),
    ensures
        marked@.len() == rooted@.len(),
        forall|i: int| 0 <= i < marked@.len() ==> (#[trigger] marked@[i] <==> reachable(children@, rooted@, i)),
{
    let n = rooted.len();
    let ghost g = children@;
    let ghost r = rooted@;
    let mut marked: Vec<bool> = Vec::new();
    let mut i: usize = 0;
    while i < n
        invariant
            n == r.len(),
            i <= n,
            marked@.len() == i,
            forall|k: int| 0 <= k < i ==> !#[trigger] marked@[k],
        decreases n - i,
    {
        marked.push(false);
        i = i + 1;
    }
    // Every rooted object is marked and waits on the stack for its handles to be followed.
    let mut stack: Vec<usize> = Vec::new();
    let mut i: usize = 0;
    while i < n
        invariant
            g == children@,
            r == rooted@,
            well_formed(g, r),
            n == r.len(),
            i <= n,
            marked@.len() == n,
            forall|k: int| 0 <= k < n ==> (#[trigger] marked@[k] <==> (k < i && r[k])),
            forall|k: int| 0 <= k < n && #[trigger] marked@[k] ==> stack@.contains(k as usize),
            forall|k: int| 0 <= k < stack@.len() ==> #[trigger] stack@[k] < n,
            forall|k: int| 0 <= k < stack@.len() ==> marked@[#[trigger] stack@[k] as int],
        decreases n - i,
    {
        if rooted[i] {
            let ghost old_stack = stack@;
            marked.set(i, true);
            stack.push(i);
            proof {
                assert(stack@[stack@.len() - 1] == i);
                assert forall|k: int| 0 <= k < n && #[trigger] marked@[k] implies stack@.contains(k as usize) by {
                    if k != i {
                        let w = choose|w: int| 0 <= w < old_stack.len() && old_stack[w] == k as usize;
                        assert(stack@[w] == old_stack[w]);
                    }
                }
            }
        }
        i = i + 1;
    }
    proof {
        assert forall|k: int| 0 <= k < n && #[trigger] marked@[k] implies reachable(g, r, k) by {
            let p = seq![k];
            assert(is_chain(g, p));
        }
        lemma_count_bound(marked@, n as int);
    }
    // Follow handles until every marked object off the stack has all its children marked.
    while stack.len() > 0
        invariant
            g == children@,
            r == rooted@,
            well_formed(g, r),
            n == r.len(),
            marked@.len() == n,
            count_marked(marked@, n as int) <= n,
            forall|k: int| 0 <= k < n && #[trigger] r[k] ==> marked@[k],
            forall|k: int| 0 <= k < n && #[trigger] marked@[k] ==> reachable(g, r, k),
            forall|k: int| 0 <= k < stack@.len() ==> #[trigger] stack@[k] < n,
            forall|k: int| 0 <= k < stack@.len() ==> marked@[#[trigger] stack@[k] as int],
            forall|a: int, b: int|
                #[trigger] holds(g, a, b) && marked@[a] && !stack@.contains(a as usize) ==> marked@[b],
        decreases n - count_marked(marked@, n as int), stack@.len(),
    {
        let ghost popped_from = stack@;
        let cur = stack.pop().unwrap();
        let ghost rest = stack@;
        proof {
            assert(popped_from == rest.push(cur));
            assert forall|a: int, b: int|
                #[trigger] holds(g, a, b) && marked@[a] && a != cur && !rest.contains(a as usize)
                    implies marked@[b] by {
                if popped_from.contains(a as usize) {
                    let w = choose|w: int| 0 <= w < popped_from.len() && popped_from[w] == a as usize;
                    if w < rest.len() {
                        assert(rest[w] == popped_from[w]);
                    }
                }
            }
            assert(marked@[popped_from[popped_from.len() - 1] as int]);
            assert(rest.is_prefix_of(stack@));
        }
        let kids = &children[cur];
        let m = kids.len();
        let mut j: usize = 0;
        let ghost before = count_marked(marked@, n as int);
        while j < m
            invariant
                g == children@,
                r == rooted@,
                well_formed(g, r),
                n == r.len(),
                cur < n,
                kids@ == g[cur as int]@,
                m == kids@.len(),
                j <= m,
                marked@.len() == n,
                marked@[cur as int],
                reachable(g, r, cur as int),
                rest.is_prefix_of(stack@),
                count_marked(marked@, n as int) >= before,
                count_marked(marked@, n as int) <= n,
                rest.len() + 1 == popped_from.len(),
                count_marked(marked@, n as int) == before ==> stack@ == rest,
                forall|k: int| 0 <= k < n && #[trigger] r[k] ==> marked@[k],
                forall|k: int| 0 <= k < n && #[trigger] marked@[k] ==> reachable(g, r, k),
                forall|k: int| 0 <= k < stack@.len() ==> #[trigger] stack@[k] < n,
                forall|k: int| 0 <= k < stack@.len() ==> marked@[#[trigger] stack@[k] as int],
                forall|t: int| 0 <= t < j ==> marked@[#[trigger] kids@[t] as int],
                forall|a: int, b: int|
                    #[trigger] holds(g, a, b) && marked@[a] && a != cur && !stack@.contains(a as usize)
                        ==> marked@[b],
            decreases m - j,
        {
            let c = kids[j];
            assert(c < n);
            if !marked[c] {
                proof {
                    assert(holds(g, cur as int, c as int));
                    lemma_extend(g, r, cur as int, c as int);
                    lemma_count_set(marked@, n as int, c as int);
                }
                let ghost old_stack = stack@;
                marked.set(c, true);
                stack.push(c);
                proof {
                    assert(stack@[stack@.len() - 1] == c);
                    assert forall|a: int, b: int|
                        #[trigger] holds(g, a, b) && marked@[a] && a != cur && !stack@.contains(a as usize)
                            implies marked@[b] by {
                        assert(a != c);
                        if old_stack.contains(a as usize) {
                            let w = choose|w: int| 0 <= w < old_stack.len() && old_stack[w] == a as usize;
                            assert(stack@[w] == old_stack[w]);
                        }
                    }
                    assert(rest.is_prefix_of(stack@)) by {
                        assert forall|k: int| 0 <= k < rest.len() implies rest[k] == stack@[k] by {
                            assert(rest[k] == old_stack[k]);
                        }
                    }
                }
            }
            j = j + 1;
        }
        proof {
            assert forall|a: int, b: int|
                #[trigger] holds(g, a, b) && marked@[a] && !stack@.contains(a as usize) implies marked@[b] by {
                if a == cur {
                    let t = choose|t: int| 0 <= t < g[a]@.len() && g[a]@[t] == b;
                    assert(marked@[kids@[t] as int]);
                }
            }
        }
    }
    proof {
        assert forall|i: int| 0 <= i < n implies (#[trigger] marked@[i] <==> reachable(g, r, i)) by {
            if reachable(g, r, i) {
                let p = choose|p: Seq<int>| #[trigger] is_chain(g, p) && r[p[0]] && p.last() == i;
                lemma_closed_holds_reachable(g, r, marked@, p);
            }
        }
    }
    marked
}

/// How many of the first `n` objects are marked.
spec fn count_marked(marked: Seq<bool>, n: int) -> int
    decreases n,
{
    if n <= 0 {
        0
    } else {
        count_marked(marked, n - 1) + if marked[n - 1] { 1int } else { 0int }
    }
}

/// Marking an unmarked object raises the count by one, and the count never passes `n`.
proof fn lemma_count_set(marked: Seq<bool>, n: int, c: int)
    requires
        0 <= c < n <= marked.len(),
        !marked[c],
    ensures
        count_marked(marked.update(c, true), n) == count_marked(marked, n) + 1,
        count_marked(marked.update(c, true), n) <= n,
    decreases n,
{
    lemma_count_bound(marked.update(c, true), n);
    if n - 1 > c {
        lemma_count_set(marked, n - 1, c);
    } else {
        lemma_count_same(marked, marked.update(c, true), n - 1);
    }
}

/// The count of the first `n` objects is at most `n`.
proof fn lemma_count_bound(marked: Seq<bool>, n: int)
    requires
        0 <= n <= marked.len(),
    ensures
        0 <= count_marked(marked, n) <= n,
    decreases n,
{
    if n > 0 {
        lemma_count_bound(marked, n - 1);
    }
}

/// Two markings that agree on the first `n` objects count the same.
proof fn lemma_count_same(a: Seq<bool>, b: Seq<bool>, n: int)
    requires
        0 <= n <= a.len(),
        n <= b.len(),
        forall|k: int| 0 <= k < n ==> a[k] == b[k],
    ensures
        count_marked(a, n) == count_marked(b, n),
    decreases n,
{
    if n > 0 {
        lemma_count_same(a, b, n - 1);
    }
}

} // verus!
