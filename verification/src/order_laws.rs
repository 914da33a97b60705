//! The search under a renaming of the nodes: where one graph is another
//! with its nodes renamed, the search meets the renamed nodes in the same
//! order.

use crate::closure::{add_new, bfs, bounded, lemma_add_new, lemma_pigeonhole, successors};
use vstd::prelude::*;

verus! {

/// The new names of the nodes, one for one.
pub open spec fn mapped(s: Seq<usize>, m: Seq<usize>) -> Seq<usize> {
    Seq::new(s.len(), |i: int| m[s[i] as int])
}

/// Whether `m` gives the nodes of `dom` different names below `limit`.
pub open spec fn renames(m: Seq<usize>, dom: Set<usize>, limit: nat) -> bool {
    &&& forall|x: usize| #[trigger] dom.contains(x) ==> x < m.len() && m[x as int] < limit
    &&& forall|x: usize, y: usize|
        #[trigger] dom.contains(x) && #[trigger] dom.contains(y) && m[x as int] == m[y as int]
            ==> x == y
}

/// Whether all the nodes are in `dom`.
pub open spec fn inside(s: Seq<usize>, dom: Set<usize>) -> bool {
    forall|i: int| 0 <= i < s.len() ==> dom.contains(#[trigger] s[i])
}

/// A node is among the nodes just where its new name is among their new
/// names.
pub proof fn lemma_mapped_contains(m: Seq<usize>, dom: Set<usize>, limit: nat, s: Seq<usize>, x: usize)
    requires
        renames(m, dom, limit),
        inside(s, dom),
        dom.contains(x),
    ensures
        s.contains(x) <==> mapped(s, m).contains(m[x as int]),
{
    if s.contains(x) {
        let i = choose|i: int| 0 <= i < s.len() && s[i] == x;
        assert(mapped(s, m)[i] == m[x as int]);
    }
    if mapped(s, m).contains(m[x as int]) {
        let i = choose|i: int| 0 <= i < mapped(s, m).len() && mapped(s, m)[i] == m[x as int];
        assert(dom.contains(s[i]));
        assert(s[i] == x);
    }
}

/// Adding renamed nodes to a renamed queue gives the renamed queue.
pub proof fn lemma_add_new_mapped(
    m: Seq<usize>,
    dom: Set<usize>,
    limit: nat,
    found: Seq<usize>,
    more: Seq<usize>,
)
    requires
        renames(m, dom, limit),
        inside(found, dom),
        inside(more, dom),
    ensures
        add_new(limit, mapped(found, m), mapped(more, m)) == mapped(
            add_new(m.len(), found, more),
            m,
        ),
        inside(add_new(m.len(), found, more), dom),
    decreases more.len(),
{
    if more.len() > 0 {
        let init = more.drop_last();
        let x = more.last();
        assert(x == more[more.len() - 1]);
        assert forall|i: int| 0 <= i < init.len() implies dom.contains(#[trigger] init[i]) by {
            assert(init[i] == more[i]);
        }
        lemma_add_new_mapped(m, dom, limit, found, init);
        let before = add_new(m.len(), found, init);
        assert(mapped(more, m).drop_last() =~= mapped(init, m));
        assert(mapped(more, m).last() == m[x as int]);
        assert(dom.contains(x));
        lemma_mapped_contains(m, dom, limit, before, x);
        if !before.contains(x) {
            assert(mapped(before.push(x), m) =~= mapped(before, m).push(m[x as int]));
            assert forall|i: int| 0 <= i < before.push(x).len() implies dom.contains(
                #[trigger] before.push(x)[i],
            ) by {
                if i < before.len() {
                    assert(before.push(x)[i] == before[i]);
                }
            }
        }
    } else {
        assert(mapped(more, m) =~= Seq::empty());
    }
}

/// Nodes that are in the queue already add nothing behind others.
pub proof fn lemma_add_known(limit: nat, found: Seq<usize>, more: Seq<usize>, known: Seq<usize>)
    requires
        forall|i: int| 0 <= i < known.len() ==> found.contains(#[trigger] known[i]),
    ensures
        add_new(limit, found, more + known) == add_new(limit, found, more),
    decreases known.len(),
{
    if known.len() == 0 {
        assert(more + known =~= more);
    } else {
        let init = known.drop_last();
        assert forall|i: int| 0 <= i < init.len() implies found.contains(#[trigger] init[i]) by {
            assert(init[i] == known[i]);
        }
        lemma_add_known(limit, found, more, init);
        assert((more + known).drop_last() =~= more + init);
        assert((more + known).last() == known[known.len() - 1]);
        let before = add_new(limit, found, more + init);
        lemma_add_new(limit, found, more + init);
        assert(found.contains(known[known.len() - 1]));
    }
}

/// Whether the node `x` leads, under its new name, to the new names of the
/// nodes that it leads to, in their order, and behind them only to nodes of
/// `base`.
pub open spec fn agrees(
    g: Seq<Seq<usize>>,
    h: Seq<Seq<usize>>,
    m: Seq<usize>,
    x: usize,
    base: Seq<usize>,
) -> bool {
    let a = mapped(successors(g, x), m);
    let b = successors(h, m[x as int]);
    &&& a.len() <= b.len()
    &&& b.subrange(0, a.len() as int) == a
    &&& forall|i: int| a.len() <= i < b.len() ==> base.contains(#[trigger] b[i])
}

/// The search in the renamed graph meets the renamed nodes in the same
/// order.
pub proof fn lemma_bfs_mapped(
    g: Seq<Seq<usize>>,
    h: Seq<Seq<usize>>,
    m: Seq<usize>,
    dom: Set<usize>,
    base: Seq<usize>,
    found: Seq<usize>,
    head: int,
)
    requires
        m.len() == g.len(),
        renames(m, dom, h.len() as nat),
        forall|x: usize| #[trigger] dom.contains(x) ==> inside(successors(g, x), dom),
        forall|x: usize| #[trigger] dom.contains(x) ==> agrees(g, h, m, x, base),
        inside(found, dom),
        found.no_duplicates(),
        0 <= head <= found.len(),
        forall|e: usize| base.contains(e) ==> mapped(found, m).contains(e),
    ensures
        bfs(h, mapped(found, m), head) == mapped(bfs(g, found, head), m),
    decreases g.len() - head,
{
    let renamed = mapped(found, m);
    assert(bounded(found, g.len() as nat)) by {
        assert forall|k: int| 0 <= k < found.len() implies #[trigger] found[k] < g.len() by {
            assert(dom.contains(found[k]));
        }
    }
    lemma_pigeonhole(found, g.len() as nat);
    assert(bounded(renamed, h.len() as nat)) by {
        assert forall|k: int| 0 <= k < renamed.len() implies #[trigger] renamed[k] < h.len() by {
            assert(dom.contains(found[k]));
        }
    }
    assert(renamed.no_duplicates()) by {
        assert forall|i: int, j: int|
            0 <= i < renamed.len() && 0 <= j < renamed.len() && i != j implies renamed[i]
            != renamed[j] by {
            assert(dom.contains(found[i]) && dom.contains(found[j]));
            assert(found[i] != found[j]);
        }
    }
    lemma_pigeonhole(renamed, h.len() as nat);
    if head < found.len() {
        let node = found[head];
        assert(dom.contains(node));
        assert(renamed[head] == m[node as int]);
        let succ = successors(g, node);
        let a = mapped(succ, m);
        let b = successors(h, m[node as int]);
        assert(agrees(g, h, m, node, base));
        let extra = b.subrange(a.len() as int, b.len() as int);
        assert(b =~= a + extra);
        assert forall|i: int| 0 <= i < extra.len() implies renamed.contains(
            #[trigger] extra[i],
        ) by {
            assert(extra[i] == b[a.len() + i]);
            assert(base.contains(b[a.len() + i]));
        }
        lemma_add_known(h.len() as nat, renamed, a, extra);
        lemma_add_new_mapped(m, dom, h.len() as nat, found, succ);
        let next = add_new(g.len() as nat, found, succ);
        lemma_add_new(g.len() as nat, found, succ);
        assert(add_new(h.len() as nat, renamed, b) == mapped(next, m));
        assert forall|e: usize| base.contains(e) implies mapped(next, m).contains(e) by {
            let i = choose|i: int| 0 <= i < renamed.len() && renamed[i] == e;
            assert(next[i] == found[i]);
            assert(mapped(next, m)[i] == e);
        }
        lemma_bfs_mapped(g, h, m, dom, base, next, head + 1);
    }
}

} // verus!
