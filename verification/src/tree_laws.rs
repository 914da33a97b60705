//! What holds of the pages that walking a page tree yields.

use crate::document::DocumentView;
use crate::lexer::text;
use crate::object::{entries_of, lookup, Value};
use crate::pages::{inherit, kid_frames, nothing_inherited, Frame, Inherited, Page};
use vstd::prelude::*;

verus! {

/// Whether the object named as the source of an attribute defines it.
pub open spec fn defines(doc: DocumentView, source: Option<u32>, key: Seq<u8>) -> bool {
    source matches Some(n) ==> doc.attribute(n, key) is Some
}

/// Whether every attribute that is handed down has a source that defines
/// it.
pub open spec fn sourced(doc: DocumentView, inherited: Inherited) -> bool {
    &&& defines(doc, inherited.resources, text("Resources"))
    &&& defines(doc, inherited.media_box, text("MediaBox"))
    &&& defines(doc, inherited.rotate, text("Rotate"))
}

/// Whether a page is the source of every attribute that its own entries
/// define.
pub open spec fn own_first(page: Page, entries: Seq<(Seq<u8>, Value)>) -> bool {
    &&& lookup(entries, text("Resources")) is Some ==> page.resources == Some(page.id.number)
    &&& lookup(entries, text("MediaBox")) is Some ==> page.media_box == page.id.number
    &&& lookup(entries, text("Rotate")) is Some ==> page.rotate == Some(page.id.number)
}

/// Whether a page is what the walk promises: it resolves to a dictionary of
/// type `Page`, each of its attributes has a source that defines it, and
/// the page itself is the source of what it defines.
pub open spec fn well_formed_page(doc: DocumentView, page: Page) -> bool {
    &&& doc.resolve(page.id) matches Some(Value::Dictionary(entries)) && lookup(
        entries,
        text("Type"),
    ) == Some(Value::Name(text("Page"))) && own_first(page, entries)
    &&& defines(doc, page.resources, text("Resources"))
    &&& defines(doc, Some(page.media_box), text("MediaBox"))
    &&& defines(doc, page.rotate, text("Rotate"))
}

/// Whether all pages are well formed and no object is a page twice.
pub open spec fn well_formed_pages(doc: DocumentView, pages: Seq<Page>) -> bool {
    &&& forall|i: int| 0 <= i < pages.len() ==> well_formed_page(doc, #[trigger] pages[i])
    &&& forall|i: int, j: int|
        0 <= i < j < pages.len() ==> (#[trigger] pages[i]).id.number != (
        #[trigger] pages[j]).id.number
}

/// Whether the objects of all pages found so far are marked.
pub open spec fn pages_marked(pages: Seq<Page>, visited: Seq<bool>) -> bool {
    forall|i: int|
        0 <= i < pages.len() ==> (#[trigger] pages[i]).id.number < visited.len()
            && visited[pages[i].id.number as int]
}

/// Whether every frame hands down sourced attributes.
pub open spec fn frames_sourced(doc: DocumentView, stack: Seq<Frame>) -> bool {
    forall|i: int| 0 <= i < stack.len() ==> sourced(doc, (#[trigger] stack[i]).inherited)
}

/// The frames of the children all hand down what their parent does.
pub proof fn lemma_kid_frames(kids: Seq<Value>, inherited: Inherited)
    requires
        kid_frames(kids, inherited) is Some,
    ensures
        forall|i: int|
            0 <= i < kid_frames(kids, inherited)->0.len() ==> (#[trigger] kid_frames(
                kids,
                inherited,
            )->0[i]).inherited == inherited,
    decreases kids.len(),
{
    if kids.len() > 0 {
        lemma_kid_frames(kids.drop_first(), inherited);
    }
}

/// What a node hands down is sourced where what it inherited is.
pub proof fn lemma_inherit_sourced(
    doc: DocumentView,
    frame: Frame,
    entries: Seq<(Seq<u8>, Value)>,
)
    requires
        sourced(doc, frame.inherited),
        doc.resolve(frame.node) == Some(Value::Dictionary(entries)),
    ensures
        sourced(doc, inherit(frame.inherited, entries, frame.node.number)),
{
    assert(doc.objects[frame.node.number as int] == Some(Value::Dictionary(entries)));
    assert(entries_of(Value::Dictionary(entries)) == entries);
}

/// Walking keeps what holds of the pages found so far: they are well
/// formed, and no object is a page twice.
pub proof fn lemma_walk(
    doc: DocumentView,
    stack: Seq<Frame>,
    visited: Seq<bool>,
    out: Seq<Page>,
    fuel: nat,
)
    requires
        frames_sourced(doc, stack),
        well_formed_pages(doc, out),
        pages_marked(out, visited),
        doc.walk(stack, visited, out, fuel) is Ok,
    ensures
        well_formed_pages(doc, doc.walk(stack, visited, out, fuel)->Ok_0),
        doc.walk(stack, visited, out, fuel)->Ok_0.len() >= out.len(),
    decreases fuel,
{
    if stack.len() > 0 {
        let frame = stack.last();
        let number = frame.node.number as int;
        let entries = doc.resolve(frame.node)->0->Dictionary_0;
        let inherited = inherit(frame.inherited, entries, frame.node.number);
        let marked = visited.update(number, true);
        assert(sourced(doc, stack[stack.len() - 1].inherited));
        lemma_inherit_sourced(doc, frame, entries);
        let kind = lookup(entries, text("Type"))->0->Name_0;
        if kind == text("Pages") {
            let kids = doc.kids_of(entries)->0;
            let frames = kid_frames(kids, inherited)->0;
            lemma_kid_frames(kids, inherited);
            let next = stack.drop_last() + frames;
            assert forall|i: int| 0 <= i < next.len() implies sourced(
                doc,
                (#[trigger] next[i]).inherited,
            ) by {
                if i < stack.len() - 1 {
                    assert(next[i] == stack[i]);
                } else {
                    assert(next[i] == frames[i - (stack.len() - 1)]);
                }
            }
            assert(pages_marked(out, marked));
            lemma_walk(doc, next, marked, out, (fuel - 1) as nat);
        } else {
            let page = Page {
                id: frame.node,
                resources: inherited.resources,
                media_box: inherited.media_box->0,
                rotate: inherited.rotate,
            };
            let more = out.push(page);
            assert(well_formed_page(doc, page));
            assert forall|i: int| 0 <= i < more.len() implies well_formed_page(
                doc,
                #[trigger] more[i],
            ) by {
                if i < out.len() {
                    assert(more[i] == out[i]);
                }
            }
            assert forall|i: int, j: int| 0 <= i < j < more.len() implies (#[trigger] more[i]).id.number
                != (#[trigger] more[j]).id.number by {
                if j < out.len() {
                    assert(more[i] == out[i] && more[j] == out[j]);
                } else {
                    assert(more[i] == out[i]);
                    assert(visited[out[i].id.number as int]);
                }
            }
            assert forall|i: int| 0 <= i < more.len() implies (#[trigger] more[i]).id.number
                < marked.len() && marked[more[i].id.number as int] by {
                if i < out.len() {
                    assert(more[i] == out[i]);
                }
            }
            let rest = stack.drop_last();
            assert forall|i: int| 0 <= i < rest.len() implies sourced(
                doc,
                (#[trigger] rest[i]).inherited,
            ) by {
                assert(rest[i] == stack[i]);
            }
            lemma_walk(doc, rest, marked, more, (fuel - 1) as nat);
        }
    }
}

/// The pages of a document are well formed: each resolves to a dictionary
/// of type `Page`, each attribute has a source that defines it, and no
/// object is a page twice.
pub proof fn pages_well_formed(doc: DocumentView)
    requires
        doc.pages() is Ok,
    ensures
        well_formed_pages(doc, doc.pages()->Ok_0),
{
    let root = doc.page_root()->Ok_0;
    let stack = seq![Frame { node: root, inherited: nothing_inherited() }];
    lemma_walk(
        doc,
        stack,
        Seq::new(doc.objects.len(), |i: int| false),
        Seq::empty(),
        doc.objects.len(),
    );
}

/// A part of well-formed pages is well formed.
pub proof fn lemma_subrange_well_formed(doc: DocumentView, pages: Seq<Page>, from: int, to: int)
    requires
        well_formed_pages(doc, pages),
        0 <= from <= to <= pages.len(),
    ensures
        well_formed_pages(doc, pages.subrange(from, to)),
{
    let part = pages.subrange(from, to);
    assert forall|i: int| 0 <= i < part.len() implies well_formed_page(doc, #[trigger] part[i]) by {
        assert(part[i] == pages[from + i]);
    }
    assert forall|i: int, j: int| 0 <= i < j < part.len() implies (#[trigger] part[i]).id.number
        != (#[trigger] part[j]).id.number by {
        assert(part[i] == pages[from + i] && part[j] == pages[from + j]);
    }
}

} // verus!
