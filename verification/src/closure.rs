//! Reachability in a graph that is given by the successors of each node.
//!
//! The nodes are the numbers below the length of the graph. The closure of
//! some roots is built breadth first: the nodes found so far form a queue,
//! and a node is added to it when it is met for the first time.

use vstd::prelude::*;
use vstd::seq_lib::*;
use vstd::set_lib::*;

verus! {

/// The successors of a node; a number that is no node has none.
pub open spec fn successors(g: Seq<Seq<usize>>, node: usize) -> Seq<usize> {
    if node < g.len() {
        g[node as int]
    } else {
        Seq::empty()
    }
}

/// `found`, followed by those numbers of `more` that are below `limit` and
/// were not met before, in the order of `more`.
pub open spec fn add_new(limit: nat, found: Seq<usize>, more: Seq<usize>) -> Seq<usize>
    decreases more.len(),
{
    if more.len() == 0 {
        found
    } else {
        let before = add_new(limit, found, more.drop_last());
        if more.last() < limit && !before.contains(more.last()) {
            before.push(more.last())
        } else {
            before
        }
    }
}

/// The nodes found once every node from position `head` of the queue on
/// was expanded: its successors were added to the queue.
pub open spec fn bfs(g: Seq<Seq<usize>>, found: Seq<usize>, head: int) -> Seq<usize>
    decreases g.len() - head,
{
    if head < 0 || head >= found.len() || head >= g.len() {
        found
    } else {
        bfs(g, add_new(g.len(), found, successors(g, found[head])), head + 1)
    }
}

/// The nodes that can be reached from `roots`, each once, in the order in
/// which a breadth-first search meets them.
pub open spec fn closure(g: Seq<Seq<usize>>, roots: Seq<usize>) -> Seq<usize> {
    bfs(g, add_new(g.len(), Seq::empty(), roots), 0)
}

/// Every element is below `limit`.
pub open spec fn bounded(s: Seq<usize>, limit: nat) -> bool {
    forall|k: int| 0 <= k < s.len() ==> #[trigger] s[k] < limit
}

/// `b` starts with `a`.
pub open spec fn is_prefix(a: Seq<usize>, b: Seq<usize>) -> bool {
    a.len() <= b.len() && forall|k: int| 0 <= k < a.len() ==> #[trigger] b[k] == a[k]
}

/// The set holds, with each of its nodes, the successors that are nodes.
pub open spec fn closed(g: Seq<Seq<usize>>, s: Set<usize>) -> bool {
    forall|x: usize, j: int|
        s.contains(x) && 0 <= j < successors(g, x).len() && successors(g, x)[j] < g.len()
            ==> s.contains(#[trigger] successors(g, x)[j])
}

/// The first `head` nodes of the queue have their successors in the queue.
pub open spec fn expanded(g: Seq<Seq<usize>>, found: Seq<usize>, head: int) -> bool {
    forall|k: int, j: int|
        0 <= k < head && k < found.len() && 0 <= j < successors(g, found[k]).len() && successors(
            g,
            found[k],
        )[j] < g.len() ==> found.contains(#[trigger] successors(g, found[k])[j])
}

/// The numbers below `n`.
pub open spec fn below(n: nat) -> Set<usize> {
    Set::new(|x: usize| x < n)
}

/// There are at most `n` numbers below `n`.
pub proof fn lemma_below(n: nat)
    ensures
        below(n).finite(),
        below(n).len() <= n,
    decreases n,
{
    if n == 0 {
        assert(below(0) =~= Set::empty());
    } else {
        lemma_below((n - 1) as nat);
        if n - 1 <= usize::MAX {
            assert(below(n) =~= below((n - 1) as nat).insert((n - 1) as usize));
        } else {
            assert(below(n) =~= below((n - 1) as nat));
        }
    }
}

/// A sequence of different numbers below `n` has at most `n` elements.
pub proof fn lemma_pigeonhole(s: Seq<usize>, n: nat)
    requires
        s.no_duplicates(),
        bounded(s, n),
    ensures
        s.len() <= n,
{
    lemma_below(n);
    s.unique_seq_to_set();
    assert forall|x: usize| s.to_set().contains(x) implies below(n).contains(x) by {
        let i = choose|i: int| 0 <= i < s.len() && s[i] == x;
        assert(s[i] < n);
    }
    lemma_len_subset(s.to_set(), below(n));
}

/// What `add_new` keeps and what it adds.
pub proof fn lemma_add_new(limit: nat, found: Seq<usize>, more: Seq<usize>)
    ensures
        is_prefix(found, add_new(limit, found, more)),
        forall|y: usize| #[trigger]
            add_new(limit, found, more).contains(y) <==> (found.contains(y) || (more.contains(y)
                && y < limit)),
        found.no_duplicates() ==> add_new(limit, found, more).no_duplicates(),
        bounded(found, limit) ==> bounded(add_new(limit, found, more), limit),
    decreases more.len(),
{
    let r = add_new(limit, found, more);
    if more.len() == 0 {
    } else {
        let init = more.drop_last();
        let x = more.last();
        let before = add_new(limit, found, init);
        lemma_add_new(limit, found, init);
        assert(more =~= init.push(x));
        assert forall|y: usize| more.contains(y) <==> (init.contains(y) || y == x) by {
            lemma_seq_contains_after_push(init, x, y);
        }
        if x < limit && !before.contains(x) {
            assert(r == before.push(x));
            assert forall|y: usize| r.contains(y) <==> (before.contains(y) || y == x) by {
                lemma_seq_contains_after_push(before, x, y);
            }
            if found.no_duplicates() {
                assert forall|i: int, j: int|
                    0 <= i < r.len() && 0 <= j < r.len() && i != j implies r[i] != r[j] by {
                    if i < before.len() && j < before.len() {
                    } else if i < before.len() {
                        assert(before.contains(before[i]));
                    } else {
                        assert(before.contains(before[j]));
                    }
                }
            }
        } else {
            assert(r == before);
        }
    }
}

/// What the search keeps and what it reaches: the queue it starts from is
/// kept, and in the end every node of the queue has its successors in it.
pub proof fn lemma_bfs(g: Seq<Seq<usize>>, found: Seq<usize>, head: int)
    requires
        found.no_duplicates(),
        bounded(found, g.len()),
        0 <= head <= found.len(),
        expanded(g, found, head),
    ensures
        bfs(g, found, head).no_duplicates(),
        bounded(bfs(g, found, head), g.len()),
        is_prefix(found, bfs(g, found, head)),
        expanded(g, bfs(g, found, head), bfs(g, found, head).len() as int),
    decreases g.len() - head,
{
    lemma_pigeonhole(found, g.len());
    if head >= found.len() {
    } else {
        let node = found[head];
        let succ = successors(g, node);
        let next = add_new(g.len(), found, succ);
        lemma_add_new(g.len(), found, succ);
        assert forall|k: int, j: int|
            0 <= k < head + 1 && k < next.len() && 0 <= j < successors(g, next[k]).len()
                && successors(g, next[k])[j] < g.len() implies next.contains(
            #[trigger] successors(g, next[k])[j],
        ) by {
            assert(next[k] == found[k]);
            let target = successors(g, found[k])[j];
            if k < head {
                assert(found.contains(target));
            } else {
                assert(succ[j] == target);
                assert(succ.contains(target));
            }
        }
        lemma_bfs(g, next, head + 1);
    }
}

/// The search stays inside every closed set that holds its queue.
pub proof fn lemma_bfs_within(g: Seq<Seq<usize>>, found: Seq<usize>, head: int, t: Set<usize>)
    requires
        closed(g, t),
        forall|y: usize| found.contains(y) ==> t.contains(y),
    ensures
        forall|y: usize| bfs(g, found, head).contains(y) ==> t.contains(y),
    decreases g.len() - head,
{
    if head < 0 || head >= found.len() || head >= g.len() {
    } else {
        let node = found[head];
        let succ = successors(g, node);
        let next = add_new(g.len(), found, succ);
        lemma_add_new(g.len(), found, succ);
        assert(found.contains(node));
        assert forall|y: usize| next.contains(y) implies t.contains(y) by {
            if !found.contains(y) {
                let j = choose|j: int| 0 <= j < succ.len() && succ[j] == y;
                assert(t.contains(successors(g, node)[j]));
            }
        }
        lemma_bfs_within(g, next, head + 1, t);
    }
}

/// The closure holds every root that is a node, holds no node twice, and is
/// closed.
pub proof fn closure_is_closed(g: Seq<Seq<usize>>, roots: Seq<usize>)
    ensures
        closure(g, roots).no_duplicates(),
        bounded(closure(g, roots), g.len()),
        forall|r: usize| roots.contains(r) && r < g.len() ==> closure(g, roots).contains(r),
        closed(g, closure(g, roots).to_set()),
{
    let start = add_new(g.len(), Seq::empty(), roots);
    let c = closure(g, roots);
    lemma_add_new(g.len(), Seq::empty(), roots);
    lemma_bfs(g, start, 0);
    assert forall|r: usize| roots.contains(r) && r < g.len() implies c.contains(r) by {
        assert(start.contains(r));
        let i = choose|i: int| 0 <= i < start.len() && start[i] == r;
        assert(c[i] == r);
    }
    assert forall|x: usize, j: int|
        c.to_set().contains(x) && 0 <= j < successors(g, x).len() && successors(g, x)[j]
            < g.len() implies c.to_set().contains(#[trigger] successors(g, x)[j]) by {
        let k = choose|k: int| 0 <= k < c.len() && c[k] == x;
        assert(c.contains(successors(g, c[k])[j]));
    }
}

/// The closure is the least closed set that holds the roots: it lies inside
/// every closed set that holds the roots that are nodes.
pub proof fn closure_is_least(g: Seq<Seq<usize>>, roots: Seq<usize>, t: Set<usize>)
    requires
        closed(g, t),
        forall|r: usize| roots.contains(r) && r < g.len() ==> t.contains(r),
    ensures
        closure(g, roots).to_set().subset_of(t),
{
    let start = add_new(g.len(), Seq::empty(), roots);
    lemma_add_new(g.len(), Seq::empty(), roots);
    lemma_bfs_within(g, start, 0, t);
}

/// Nothing is added where everything was met before.
pub proof fn lemma_add_nothing(limit: nat, found: Seq<usize>, more: Seq<usize>)
    requires
        forall|k: int| 0 <= k < more.len() && more[k] < limit ==> found.contains(#[trigger] more[k]),
    ensures
        add_new(limit, found, more) == found,
    decreases more.len(),
{
    if more.len() > 0 {
        let init = more.drop_last();
        assert forall|k: int| 0 <= k < init.len() && init[k] < limit implies found.contains(
            #[trigger] init[k],
        ) by {
            assert(init[k] == more[k]);
        }
        lemma_add_nothing(limit, found, init);
        assert(more.last() == more[more.len() - 1]);
    }
}

/// Different nodes are all added to an empty queue, in their order.
pub proof fn lemma_add_all(limit: nat, nodes: Seq<usize>)
    requires
        nodes.no_duplicates(),
        bounded(nodes, limit),
    ensures
        add_new(limit, Seq::empty(), nodes) == nodes,
    decreases nodes.len(),
{
    if nodes.len() == 0 {
        assert(nodes =~= Seq::empty());
    } else {
        let init = nodes.drop_last();
        lemma_add_all(limit, init);
        assert(nodes.last() == nodes[nodes.len() - 1]);
        assert(!init.contains(nodes.last())) by {
            if init.contains(nodes.last()) {
                let i = choose|i: int| 0 <= i < init.len() && init[i] == nodes.last();
                assert(nodes[i] == nodes[nodes.len() - 1]);
            }
        }
        assert(init.push(nodes.last()) =~= nodes);
    }
}

/// The search adds nothing to a queue that is closed.
pub proof fn lemma_bfs_settled(g: Seq<Seq<usize>>, found: Seq<usize>, head: int)
    requires
        closed(g, found.to_set()),
    ensures
        bfs(g, found, head) == found,
    decreases g.len() - head,
{
    if !(head < 0 || head >= found.len() || head >= g.len()) {
        let succ = successors(g, found[head]);
        assert(found.to_set().contains(found[head]));
        assert forall|k: int| 0 <= k < succ.len() && succ[k] < g.len() implies found.contains(
            #[trigger] succ[k],
        ) by {
            assert(found.to_set().contains(successors(g, found[head])[k]));
        }
        lemma_add_nothing(g.len(), found, succ);
        lemma_bfs_settled(g, found, head + 1);
    }
}

/// Computing the closure of a closure changes nothing: it gives the same
/// nodes in the same order.
pub proof fn closure_idempotent(g: Seq<Seq<usize>>, roots: Seq<usize>)
    ensures
        closure(g, closure(g, roots)) == closure(g, roots),
        closure(g, closure(g, roots)).to_set() == closure(g, roots).to_set(),
{
    let c = closure(g, roots);
    closure_is_closed(g, roots);
    lemma_add_all(g.len(), c);
    lemma_bfs_settled(g, c, 0);
}

/// More roots reach at least as much: where every root of `small` is among
/// those of `large`, the closure of `small` lies inside that of `large` and
/// has at most as many nodes.
pub proof fn closure_monotone(g: Seq<Seq<usize>>, small: Seq<usize>, large: Seq<usize>)
    requires
        forall|r: usize| small.contains(r) ==> large.contains(r),
    ensures
        closure(g, small).to_set().subset_of(closure(g, large).to_set()),
        closure(g, small).len() <= closure(g, large).len(),
{
    let cs = closure(g, small);
    let cl = closure(g, large);
    closure_is_closed(g, small);
    closure_is_closed(g, large);
    assert forall|r: usize| small.contains(r) && r < g.len() implies cl.to_set().contains(r) by {
        assert(large.contains(r));
    }
    closure_is_least(g, small, cl.to_set());
    cs.unique_seq_to_set();
    cl.unique_seq_to_set();
    seq_to_set_is_finite(cl);
    lemma_len_subset(cs.to_set(), cl.to_set());
}

} // verus!
