//! The subset of a document that a sequence of pages needs: the pages and
//! everything they refer to, directly or through other objects.
//!
//! The objects of a document form a graph whose nodes are the object
//! numbers. An object leads to every object that a reference inside it
//! resolves to. There are two exceptions. The `Parent` entry of a page leads
//! up the page tree and so to every other page, and is never followed. The
//! `Length` entry of a stream is never followed either: a new document
//! names the length of a payload in place.

use crate::closure::{add_new, bfs, closure, closure_monotone, successors};
use crate::document::{Document, DocumentView};
use crate::lexer::text;
use crate::object::{
    bytes_equal, collect_refs, entries_of, entries_view, get, lookup, refs, Object, ObjectId,
    Value,
};
use crate::pages::Page;
use vstd::prelude::*;
use vstd::seq_lib::*;

verus! {

/// Whether a dictionary with these entries is a page.
pub open spec fn is_page(entries: Seq<(Seq<u8>, Value)>) -> bool {
    lookup(entries, text("Type")) == Some(Value::Name(text("Page")))
}

/// The references inside the values of the entries, but for the entries
/// under `key`.
pub open spec fn links_but(entries: Seq<(Seq<u8>, Value)>, key: Seq<u8>) -> Seq<ObjectId>
    decreases entries.len(),
{
    if entries.len() == 0 {
        Seq::empty()
    } else if entries.last().0 == key {
        links_but(entries.drop_last(), key)
    } else {
        links_but(entries.drop_last(), key) + refs(entries.last().1)
    }
}

/// The references that lead on from a value: all of them, but for the
/// parent of a page and the length of a stream. The parent leads up the
/// page tree. The length of a stream is written in place in a new
/// document, so that an object that holds it is needed no more.
pub open spec fn links(v: Value) -> Seq<ObjectId> {
    match v {
        Value::Dictionary(entries) => if is_page(entries) {
            links_but(entries, text("Parent"))
        } else {
            refs(v)
        },
        Value::Stream(entries, _) => links_but(entries, text("Length")),
        _ => refs(v),
    }
}

/// Whether a dictionary is a page.
pub fn check_page(entries: &Vec<(Vec<u8>, Object)>) -> (r: bool)
    ensures
        r == is_page(entries_view(entries@)),
{
    match get(entries, "Type".as_bytes()) {
        Some(Object::Name(name)) => bytes_equal(name.as_slice(), "Page".as_bytes()),
        _ => false,
    }
}

/// Appends to `out` the references inside the values of the entries, but
/// for the entries under `key`.
pub fn collect_links_but(entries: &Vec<(Vec<u8>, Object)>, key: &[u8], out: &mut Vec<ObjectId>)
    ensures
        final(out)@ == old(out)@ + links_but(entries_view(entries@), key@),
{
    let ghost view = entries_view(entries@);
    let mut i: usize = 0;
    assert(view.take(0) =~= Seq::empty());
    assert(out@ =~= old(out)@ + links_but(view.take(0), key@));
    while i < entries.len()
        invariant
            view == entries_view(entries@),
            i <= entries.len(),
            out@ == old(out)@ + links_but(view.take(i as int), key@),
        decreases entries.len() - i,
    {
        proof {
            assert(view.take(i + 1).drop_last() =~= view.take(i as int));
            assert(view.take(i + 1).last() == view[i as int]);
        }
        if !bytes_equal(entries[i].0.as_slice(), key) {
            collect_refs(&entries[i].1, out);
        }
        i += 1;
        assert(out@ =~= old(out)@ + links_but(view.take(i as int), key@));
    }
    assert(view.take(entries.len() as int) =~= view);
}

/// Appends to `out` the references that lead on from `o`.
pub fn collect_links(o: &Object, out: &mut Vec<ObjectId>)
    ensures
        final(out)@ == old(out)@ + links(o@),
{
    match o {
        Object::Dictionary(entries) => {
            if check_page(entries) {
                collect_links_but(entries, "Parent".as_bytes(), out);
            } else {
                collect_refs(o, out);
            }
        },
        Object::Stream(entries, _) => {
            collect_links_but(entries, "Length".as_bytes(), out);
        },
        _ => {
            collect_refs(o, out);
        },
    }
}

impl DocumentView {
    /// The numbers of the objects that the references resolve to, in
    /// order; a reference that resolves to nothing gives none.
    ///
    /// Such a reference stands for `null`: it leads nowhere, and it is no
    /// fault of the subset. The subset is made, and the reference is
    /// written as `null`.
    pub open spec fn resolved(self, ids: Seq<ObjectId>) -> Seq<usize>
        decreases ids.len(),
    {
        if ids.len() == 0 {
            Seq::empty()
        } else if self.resolve(ids.last()) is Some {
            self.resolved(ids.drop_last()).push(ids.last().number as usize)
        } else {
            self.resolved(ids.drop_last())
        }
    }

    /// The objects that the object of this number leads to.
    pub open spec fn node_successors(self, node: int) -> Seq<usize> {
        if 0 <= node < self.objects.len() {
            match self.objects[node] {
                Some(v) => self.resolved(links(v)),
                None => Seq::empty(),
            }
        } else {
            Seq::empty()
        }
    }

    /// The graph of the document's objects.
    pub open spec fn graph(self) -> Seq<Seq<usize>> {
        Seq::new(self.objects.len(), |i: int| self.node_successors(i))
    }

    /// What the object of number `source` defines under `key`.
    pub open spec fn attribute(self, source: u32, key: Seq<u8>) -> Option<Value> {
        if source < self.objects.len() {
            match self.objects[source as int] {
                Some(v) => lookup(entries_of(v), key),
                None => None,
            }
        } else {
            None
        }
    }

    /// The objects that an attribute of a page leads to, given the node
    /// that defines the attribute.
    pub open spec fn attribute_roots(self, source: Option<u32>, key: Seq<u8>) -> Seq<usize> {
        match source {
            Some(n) => match self.attribute(n, key) {
                Some(v) => self.resolved(refs(v)),
                None => Seq::empty(),
            },
            None => Seq::empty(),
        }
    }

    /// The objects from which the subset of one page is reached: the page
    /// itself and what its attributes lead to, also where they are
    /// inherited.
    pub open spec fn page_roots(self, page: Page) -> Seq<usize> {
        self.resolved(seq![page.id]) + self.attribute_roots(page.resources, text("Resources"))
            + self.attribute_roots(Some(page.media_box), text("MediaBox"))
            + self.attribute_roots(page.rotate, text("Rotate"))
    }

    /// The roots of all the pages, page after page.
    pub open spec fn roots(self, pages: Seq<Page>) -> Seq<usize>
        decreases pages.len(),
    {
        if pages.len() == 0 {
            Seq::empty()
        } else {
            self.roots(pages.drop_last()) + self.page_roots(pages.last())
        }
    }

    /// The numbers of the objects that the pages need, each once, in the
    /// order in which they are met.
    pub open spec fn extract(self, pages: Seq<Page>) -> Seq<usize> {
        closure(self.graph(), self.roots(pages))
    }
}

/// The marks say which numbers are in the queue.
pub open spec fn marked(marks: Seq<bool>, found: Seq<usize>) -> bool {
    forall|x: usize| x < marks.len() ==> (#[trigger] marks[x as int] <==> found.contains(x))
}

/// Adds to the queue the numbers of `more` that are not marked, and marks
/// them.
pub fn add_nodes(found: &mut Vec<usize>, marks: &mut Vec<bool>, more: &Vec<usize>)
    requires
        marked(old(marks)@, old(found)@),
    ensures
        final(found)@ == add_new(old(marks).len() as nat, old(found)@, more@),
        final(marks).len() == old(marks).len(),
        marked(final(marks)@, final(found)@),
{
    let limit = marks.len();
    let mut k: usize = 0;
    assert(more@.take(0) =~= Seq::empty());
    while k < more.len()
        invariant
            k <= more.len(),
            marks.len() == limit,
            found@ == add_new(limit as nat, old(found)@, more@.take(k as int)),
            marked(marks@, found@),
        decreases more.len() - k,
    {
        let x = more[k];
        proof {
            assert(more@.take(k + 1).drop_last() =~= more@.take(k as int));
            assert(more@.take(k + 1).last() == x);
        }
        if x < limit && !marks[x] {
            let ghost before = found@;
            found.push(x);
            marks.set(x, true);
            proof {
                assert forall|y: usize| y < marks.len() implies (#[trigger] marks@[y as int]
                    <==> found@.contains(y)) by {
                    lemma_seq_contains_after_push(before, x, y);
                }
            }
        }
        k += 1;
    }
    assert(more@.take(more.len() as int) =~= more@);
}

impl Document {
    /// Appends to `out` the numbers of the objects that the references
    /// resolve to.
    pub fn resolve_all(&self, ids: &Vec<ObjectId>, out: &mut Vec<usize>)
        ensures
            final(out)@ == old(out)@ + self@.resolved(ids@),
    {
        let mut k: usize = 0;
        assert(ids@.take(0) =~= Seq::empty());
        assert(out@ =~= old(out)@ + self@.resolved(ids@.take(0)));
        while k < ids.len()
            invariant
                k <= ids.len(),
                out@ == old(out)@ + self@.resolved(ids@.take(k as int)),
            decreases ids.len() - k,
        {
            proof {
                assert(ids@.take(k + 1).drop_last() =~= ids@.take(k as int));
                assert(ids@.take(k + 1).last() == ids@[k as int]);
            }
            if self.resolve(ids[k]).is_some() {
                out.push(ids[k].number as usize);
            }
            k += 1;
            assert(out@ =~= old(out)@ + self@.resolved(ids@.take(k as int)));
        }
        assert(ids@.take(ids.len() as int) =~= ids@);
    }

    /// The objects that the object of this number leads to.
    pub fn node_successors(&self, node: usize) -> (r: Vec<usize>)
        ensures
            r@ == self@.node_successors(node as int),
    {
        let mut out: Vec<usize> = Vec::new();
        if node < self.objects.len() {
            match &self.objects[node] {
                Some(o) => {
                    let mut ids: Vec<ObjectId> = Vec::new();
                    collect_links(o, &mut ids);
                    assert(ids@ =~= links(o@));
                    self.resolve_all(&ids, &mut out);
                    assert(out@ =~= self@.resolved(ids@));
                },
                None => {},
            }
        }
        out
    }

    /// Appends to `out` the objects that an attribute of a page leads to.
    pub fn attribute_roots(&self, source: Option<u32>, key: &[u8], out: &mut Vec<usize>)
        ensures
            final(out)@ == old(out)@ + self@.attribute_roots(source, key@),
    {
        let mut ids: Vec<ObjectId> = Vec::new();
        match source {
            Some(n) => {
                if (n as usize) < self.objects.len() {
                    match &self.objects[n as usize] {
                        Some(Object::Dictionary(entries)) => match get(entries, key) {
                            Some(v) => {
                                collect_refs(v, &mut ids);
                            },
                            None => {},
                        },
                        Some(Object::Stream(entries, _)) => match get(entries, key) {
                            Some(v) => {
                                collect_refs(v, &mut ids);
                            },
                            None => {},
                        },
                        _ => {},
                    }
                }
            },
            None => {},
        }
        if ids.len() == 0 {
            assert(self@.resolved(ids@) =~= Seq::empty());
            assert(self@.attribute_roots(source, key@) =~= Seq::empty()) by {
                match source {
                    Some(n) => match self@.attribute(n, key@) {
                        Some(v) => {
                            assert(refs(v) =~= ids@);
                        },
                        None => {},
                    },
                    None => {},
                }
            }
            assert(out@ =~= old(out)@ + self@.attribute_roots(source, key@));
        } else {
            assert(ids@ =~= refs(self@.attribute(source->0, key@)->0));
            self.resolve_all(&ids, out);
        }
    }

    /// Appends to `out` the objects from which the subset of one page is
    /// reached.
    pub fn page_roots(&self, page: &Page, out: &mut Vec<usize>)
        ensures
            final(out)@ == old(out)@ + self@.page_roots(*page),
    {
        let mut own: Vec<ObjectId> = Vec::new();
        own.push(page.id);
        assert(own@ =~= seq![page.id]);
        self.resolve_all(&own, out);
        self.attribute_roots(page.resources, "Resources".as_bytes(), out);
        self.attribute_roots(Some(page.media_box), "MediaBox".as_bytes(), out);
        self.attribute_roots(page.rotate, "Rotate".as_bytes(), out);
        assert(out@ =~= old(out)@ + self@.page_roots(*page));
    }

    /// The numbers of the objects that the pages need, each once, in the
    /// order in which they are met.
    pub fn extract(&self, pages: &Vec<Page>) -> (r: Vec<usize>)
        ensures
            r@ == self@.extract(pages@),
    {
        let mut roots: Vec<usize> = Vec::new();
        let mut k: usize = 0;
        assert(pages@.take(0) =~= Seq::empty());
        while k < pages.len()
            invariant
                k <= pages.len(),
                roots@ == self@.roots(pages@.take(k as int)),
            decreases pages.len() - k,
        {
            proof {
                assert(pages@.take(k + 1).drop_last() =~= pages@.take(k as int));
                assert(pages@.take(k + 1).last() == pages@[k as int]);
            }
            self.page_roots(&pages[k], &mut roots);
            k += 1;
        }
        assert(pages@.take(pages.len() as int) =~= pages@);
        self.reach(&roots)
    }

    /// The numbers of the objects that can be reached from `roots`, each
    /// once, in the order in which a breadth-first search meets them.
    pub fn reach(&self, roots: &Vec<usize>) -> (r: Vec<usize>)
        ensures
            r@ == closure(self@.graph(), roots@),
    {
        let count = self.objects.len();
        let mut marks: Vec<bool> = Vec::new();
        while marks.len() < count
            invariant
                marks.len() <= count,
                forall|i: int| 0 <= i < marks.len() ==> !marks@[i],
            decreases count - marks.len(),
        {
            marks.push(false);
        }
        let mut found: Vec<usize> = Vec::new();
        add_nodes(&mut found, &mut marks, roots);
        let ghost g = self@.graph();
        let mut head: usize = 0;
        while head < found.len() && head < count
            invariant
                count == self.objects.len(),
                marks.len() == count,
                g == self@.graph(),
                marked(marks@, found@),
                closure(g, roots@) == bfs(g, found@, head as int),
            decreases count - head,
        {
            let node = found[head];
            let more = self.node_successors(node);
            assert(more@ == successors(g, node));
            add_nodes(&mut found, &mut marks, &more);
            head += 1;
        }
        found
    }
}

/// A sequence of pages whose pages are all among those of another has its
/// roots among the roots of the other.
pub proof fn lemma_roots_subset(doc: DocumentView, small: Seq<Page>, large: Seq<Page>)
    requires
        forall|p: Page| small.contains(p) ==> large.contains(p),
    ensures
        forall|r: usize| doc.roots(small).contains(r) ==> doc.roots(large).contains(r),
    decreases small.len(),
{
    if small.len() > 0 {
        let init = small.drop_last();
        let page = small.last();
        assert forall|p: Page| init.contains(p) implies large.contains(p) by {
            let i = choose|i: int| 0 <= i < init.len() && init[i] == p;
            assert(small[i] == p);
        }
        lemma_roots_subset(doc, init, large);
        assert(small.contains(page)) by {
            assert(small[small.len() - 1] == page);
        }
        lemma_roots_hold(doc, large, page);
        assert forall|r: usize| doc.roots(small).contains(r) implies doc.roots(large).contains(
            r,
        ) by {
            let i = choose|i: int| 0 <= i < doc.roots(small).len() && doc.roots(small)[i] == r;
            if i < doc.roots(init).len() {
                assert(doc.roots(init)[i] == r);
            } else {
                assert(doc.page_roots(page)[i - doc.roots(init).len()] == r);
            }
        }
    }
}

/// The roots of a sequence of pages hold the roots of each of its pages.
pub proof fn lemma_roots_hold(doc: DocumentView, pages: Seq<Page>, page: Page)
    requires
        pages.contains(page),
    ensures
        forall|r: usize| doc.page_roots(page).contains(r) ==> doc.roots(pages).contains(r),
    decreases pages.len(),
{
    let init = pages.drop_last();
    let at = choose|i: int| 0 <= i < pages.len() && pages[i] == page;
    let all = doc.roots(pages);
    assert(all == doc.roots(init) + doc.page_roots(pages.last()));
    if at == pages.len() - 1 {
        assert forall|r: usize| doc.page_roots(page).contains(r) implies all.contains(r) by {
            let i = choose|i: int| 0 <= i < doc.page_roots(page).len() && doc.page_roots(page)[i]
                == r;
            assert(all[doc.roots(init).len() + i] == r);
        }
    } else {
        assert(init[at] == page);
        lemma_roots_hold(doc, init, page);
        assert forall|r: usize| doc.page_roots(page).contains(r) implies all.contains(r) by {
            let i = choose|i: int| 0 <= i < doc.roots(init).len() && doc.roots(init)[i] == r;
            assert(all[i] == r);
        }
    }
}

/// The subset grows with the pages: where every page of `small` is among
/// those of `large`, the subset of `small` lies inside the subset of `large`
/// and has at most as many objects.
pub proof fn extract_monotone(doc: DocumentView, small: Seq<Page>, large: Seq<Page>)
    requires
        forall|p: Page| small.contains(p) ==> large.contains(p),
    ensures
        doc.extract(small).to_set().subset_of(doc.extract(large).to_set()),
        doc.extract(small).len() <= doc.extract(large).len(),
{
    lemma_roots_subset(doc, small, large);
    closure_monotone(doc.graph(), doc.roots(small), doc.roots(large));
}

} // verus!
