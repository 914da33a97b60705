//! The page tree: from the root catalog to the pages in document order.
//!
//! The tree is walked with an explicit stack and a mark for every object
//! number, so that a node that is reached twice is reported instead of
//! being walked again.

use crate::document::{Document, DocumentView};
use crate::lexer::text;
use crate::object::{bytes_equal, entries_view, get, items_view, lookup, Object, ObjectId, Value};
use crate::tree_laws::{pages_well_formed, well_formed_pages};
use vstd::prelude::*;

verus! {

/// Why the structure of a document does not yield its pages.
#[derive(Clone, Copy, Debug, PartialEq, Eq, Structural)]
pub enum StructuralError {
    /// The trailer names no root, or the root is no dictionary that refers
    /// to a page tree.
    UnresolvableRoot,
    /// The node was reached a second time.
    CyclicPageTree(ObjectId),
    /// The reference to a node resolves to nothing.
    DanglingReference(ObjectId),
    /// The node is neither a page nor a well-formed inner node.
    NotAPageNode(ObjectId),
    /// Neither the page nor any of its ancestors has a media box.
    MissingMediaBox(ObjectId),
}

/// For each inheritable attribute, the number of the nearest node, from the
/// current one upwards, that defines it.
#[derive(Clone, Copy, Debug, PartialEq, Eq)]
pub struct Inherited {
    pub resources: Option<u32>,
    pub media_box: Option<u32>,
    pub rotate: Option<u32>,
}

/// A node that waits to be walked, with what its ancestors define.
#[derive(Clone, Copy, Debug, PartialEq, Eq)]
pub struct Frame {
    pub node: ObjectId,
    pub inherited: Inherited,
}

/// A page with its attributes resolved: for each attribute the number of
/// the object that defines it, the page itself or its nearest ancestor that
/// does. Resources and rotation may be left undefined; a media box is
/// required.
#[derive(Clone, Copy, Debug, PartialEq, Eq)]
pub struct Page {
    pub id: ObjectId,
    pub resources: Option<u32>,
    pub media_box: u32,
    pub rotate: Option<u32>,
}

/// Nothing inherited.
pub open spec fn nothing_inherited() -> Inherited {
    Inherited { resources: None, media_box: None, rotate: None }
}

/// What a node with these entries hands down: its own definition of an
/// attribute where it has one, otherwise what it inherited.
pub open spec fn inherit(above: Inherited, entries: Seq<(Seq<u8>, Value)>, number: u32) -> Inherited {
    Inherited {
        resources: if lookup(entries, text("Resources")) is Some {
            Some(number)
        } else {
            above.resources
        },
        media_box: if lookup(entries, text("MediaBox")) is Some {
            Some(number)
        } else {
            above.media_box
        },
        rotate: if lookup(entries, text("Rotate")) is Some {
            Some(number)
        } else {
            above.rotate
        },
    }
}

/// Computes what a node hands down.
pub fn merge_inherited(above: Inherited, entries: &Vec<(Vec<u8>, Object)>, number: u32) -> (r:
    Inherited)
    ensures
        r == inherit(above, entries_view(entries@), number),
{
    Inherited {
        resources: if get(entries, "Resources".as_bytes()).is_some() {
            Some(number)
        } else {
            above.resources
        },
        media_box: if get(entries, "MediaBox".as_bytes()).is_some() {
            Some(number)
        } else {
            above.media_box
        },
        rotate: if get(entries, "Rotate".as_bytes()).is_some() {
            Some(number)
        } else {
            above.rotate
        },
    }
}

impl DocumentView {
    /// The value itself, or what it resolves to where it is a reference.
    pub open spec fn follow(self, v: Value) -> Option<Value> {
        match v {
            Value::Reference(id) => self.resolve(id),
            _ => Some(v),
        }
    }

    /// The children of a node with these entries: the items of the array
    /// under `Kids`.
    pub open spec fn kids_of(self, entries: Seq<(Seq<u8>, Value)>) -> Option<Seq<Value>> {
        match lookup(entries, text("Kids")) {
            Some(v) => match self.follow(v) {
                Some(Value::Array(items)) => Some(items),
                _ => None,
            },
            None => None,
        }
    }

    /// The root of the page tree: what the root catalog refers to under
    /// `Pages`.
    pub open spec fn page_root(self) -> Result<ObjectId, StructuralError> {
        match self.trailer.root {
            None => Err(StructuralError::UnresolvableRoot),
            Some(root) => match self.resolve(root) {
                Some(Value::Dictionary(entries)) => match lookup(entries, text("Pages")) {
                    Some(Value::Reference(id)) => Ok(id),
                    _ => Err(StructuralError::UnresolvableRoot),
                },
                _ => Err(StructuralError::UnresolvableRoot),
            },
        }
    }

    /// The pages that walking the tree yields, given the nodes that wait on
    /// `stack` (the next one last), the marks of the numbers that were
    /// walked, and the pages `out` that were found so far.
    ///
    /// A node is taken from the stack. It must resolve to a dictionary
    /// whose number is not marked yet. A node of type `Pages` puts its
    /// children on the stack, the first one on top; a node of type `Page`
    /// is added to the pages. `fuel` bounds the number of nodes: with one
    /// unit for each object it runs out only where a node would be reached
    /// again.
    pub open spec fn walk(
        self,
        stack: Seq<Frame>,
        visited: Seq<bool>,
        out: Seq<Page>,
        fuel: nat,
    ) -> Result<Seq<Page>, StructuralError>
        decreases fuel,
    {
        if stack.len() == 0 {
            Ok(out)
        } else {
            let frame = stack.last();
            let number = frame.node.number as int;
            if fuel == 0 {
                Err(StructuralError::CyclicPageTree(frame.node))
            } else {
                match self.resolve(frame.node) {
                    None => Err(StructuralError::DanglingReference(frame.node)),
                    Some(v) => if !(number < visited.len()) || visited[number] {
                        Err(StructuralError::CyclicPageTree(frame.node))
                    } else {
                        match v {
                            Value::Dictionary(entries) => {
                                let inherited = inherit(
                                    frame.inherited,
                                    entries,
                                    frame.node.number,
                                );
                                let marked = visited.update(number, true);
                                match lookup(entries, text("Type")) {
                                    Some(Value::Name(kind)) => if kind == text("Pages") {
                                        match self.kids_of(entries) {
                                            Some(kids) => match kid_frames(kids, inherited) {
                                                Some(frames) => self.walk(
                                                    stack.drop_last() + frames,
                                                    marked,
                                                    out,
                                                    (fuel - 1) as nat,
                                                ),
                                                None => Err(
                                                    StructuralError::NotAPageNode(frame.node),
                                                ),
                                            },
                                            None => Err(
                                                StructuralError::NotAPageNode(frame.node),
                                            ),
                                        }
                                    } else if kind == text("Page") {
                                        match inherited.media_box {
                                            Some(media_box) => self.walk(
                                                stack.drop_last(),
                                                marked,
                                                out.push(
                                                    Page {
                                                        id: frame.node,
                                                        resources: inherited.resources,
                                                        media_box,
                                                        rotate: inherited.rotate,
                                                    },
                                                ),
                                                (fuel - 1) as nat,
                                            ),
                                            None => Err(
                                                StructuralError::MissingMediaBox(frame.node),
                                            ),
                                        }
                                    } else {
                                        Err(StructuralError::NotAPageNode(frame.node))
                                    },
                                    _ => Err(StructuralError::NotAPageNode(frame.node)),
                                }
                            },
                            _ => Err(StructuralError::NotAPageNode(frame.node)),
                        }
                    },
                }
            }
        }
    }

    /// The pages of the document, in document order.
    pub open spec fn pages(self) -> Result<Seq<Page>, StructuralError> {
        match self.page_root() {
            Err(e) => Err(e),
            Ok(root) => self.walk(
                seq![Frame { node: root, inherited: nothing_inherited() }],
                Seq::new(self.objects.len(), |i: int| false),
                Seq::empty(),
                self.objects.len(),
            ),
        }
    }
}

/// The frames of the children `kids`, in reverse order, so that the first
/// child is walked first. `None` where a child is not a reference.
pub open spec fn kid_frames(kids: Seq<Value>, inherited: Inherited) -> Option<Seq<Frame>>
    decreases kids.len(),
{
    if kids.len() == 0 {
        Some(Seq::empty())
    } else {
        match (kids.first(), kid_frames(kids.drop_first(), inherited)) {
            (Value::Reference(id), Some(frames)) => Some(
                frames.push(Frame { node: id, inherited }),
            ),
            _ => None,
        }
    }
}

/// A child that is not a reference spoils the whole list.
pub proof fn lemma_bad_kid(kids: Seq<Value>, inherited: Inherited, from: int)
    requires
        0 <= from <= kids.len(),
        kid_frames(kids.subrange(from, kids.len() as int), inherited) is None,
    ensures
        kid_frames(kids, inherited) is None,
    decreases from,
{
    if from == 0 {
        assert(kids.subrange(0, kids.len() as int) =~= kids);
    } else {
        assert(kids.subrange(from - 1, kids.len() as int).drop_first() =~= kids.subrange(
            from,
            kids.len() as int,
        ));
        lemma_bad_kid(kids, inherited, from - 1);
    }
}

/// Puts the frames of the children on the stack. Returns whether every
/// child is a reference; the stack is of no use where one is not.
pub fn push_kid_frames(kids: &Vec<Object>, inherited: Inherited, stack: &mut Vec<Frame>) -> (ok:
    bool)
    ensures
        match kid_frames(items_view(kids@), inherited) {
            Some(frames) => ok && final(stack)@ == old(stack)@ + frames,
            None => !ok,
        },
{
    let ghost view = items_view(kids@);
    let ghost mut frames: Seq<Frame> = Seq::empty();
    let mut j: usize = kids.len();
    assert(view.subrange(j as int, view.len() as int) =~= Seq::empty());
    while j > 0
        invariant
            j <= kids.len(),
            view == items_view(kids@),
            kid_frames(view.subrange(j as int, view.len() as int), inherited) == Some(frames),
            stack@ == old(stack)@ + frames,
        decreases j,
    {
        j -= 1;
        proof {
            assert(view.subrange(j as int, view.len() as int).drop_first() =~= view.subrange(
                j + 1,
                view.len() as int,
            ));
            assert(view.subrange(j as int, view.len() as int).first() == kids[j as int]@);
        }
        match &kids[j] {
            Object::Reference(id) => {
                stack.push(Frame { node: *id, inherited });
                proof {
                    frames = frames.push(Frame { node: *id, inherited });
                    assert(stack@ =~= old(stack)@ + frames);
                }
            },
            _ => {
                proof {
                    lemma_bad_kid(view, inherited, j as int);
                }
                return false;
            },
        }
    }
    assert(view.subrange(0, view.len() as int) =~= view);
    true
}

impl Document {
    /// The object itself, or what it resolves to where it is a reference.
    pub fn follow<'a>(&'a self, o: &'a Object) -> (r: Option<&'a Object>)
        ensures
            match r {
                Some(target) => self@.follow(o@) == Some(target@),
                None => self@.follow(o@) is None,
            },
    {
        match o {
            Object::Reference(id) => self.resolve(*id),
            _ => Some(o),
        }
    }

    /// The root of the page tree.
    pub fn page_root(&self) -> (r: Result<ObjectId, StructuralError>)
        ensures
            r == self@.page_root(),
    {
        match self.trailer.root {
            None => Err(StructuralError::UnresolvableRoot),
            Some(root) => match self.resolve(root) {
                Some(Object::Dictionary(entries)) => match get(entries, "Pages".as_bytes()) {
                    Some(Object::Reference(id)) => Ok(*id),
                    _ => Err(StructuralError::UnresolvableRoot),
                },
                _ => Err(StructuralError::UnresolvableRoot),
            },
        }
    }

    /// The pages of the document, in document order.
    pub fn pages(&self) -> (r: Result<Vec<Page>, StructuralError>)
        ensures
            match r {
                Ok(pages) => self@.pages() == Ok::<Seq<Page>, StructuralError>(pages@),
                Err(e) => self@.pages() == Err::<Seq<Page>, StructuralError>(e),
            },
            r matches Ok(pages) ==> well_formed_pages(self@, pages@),
    {
        let root = match self.page_root() {
            Ok(root) => root,
            Err(e) => {
                return Err(e);
            },
        };
        let count = self.objects.len();
        let mut visited: Vec<bool> = Vec::new();
        while visited.len() < count
            invariant
                visited.len() <= count,
                forall|i: int| 0 <= i < visited.len() ==> !visited@[i],
            decreases count - visited.len(),
        {
            visited.push(false);
        }
        assert(visited@ =~= Seq::new(self@.objects.len(), |i: int| false));
        let mut stack: Vec<Frame> = Vec::new();
        stack.push(
            Frame {
                node: root,
                inherited: Inherited { resources: None, media_box: None, rotate: None },
            },
        );
        assert(stack@ =~= seq![Frame { node: root, inherited: nothing_inherited() }]);
        let mut out: Vec<Page> = Vec::new();
        let mut fuel: usize = count;
        loop
            invariant
                visited.len() == self.objects.len(),
                self@.pages() == self@.walk(stack@, visited@, out@, fuel as nat),
            decreases fuel,
        {
            let frame = match stack.pop() {
                None => {
                    proof {
                        pages_well_formed(self@);
                    }
                    return Ok(out);
                },
                Some(frame) => frame,
            };
            let ghost rest = stack@;
            if fuel == 0 {
                return Err(StructuralError::CyclicPageTree(frame.node));
            }
            let node = match self.resolve(frame.node) {
                None => {
                    return Err(StructuralError::DanglingReference(frame.node));
                },
                Some(node) => node,
            };
            let number = frame.node.number as usize;
            if visited[number] {
                return Err(StructuralError::CyclicPageTree(frame.node));
            }
            let entries = match node {
                Object::Dictionary(entries) => entries,
                _ => {
                    return Err(StructuralError::NotAPageNode(frame.node));
                },
            };
            let inherited = merge_inherited(frame.inherited, entries, frame.node.number);
            let kind = match get(entries, "Type".as_bytes()) {
                Some(Object::Name(kind)) => kind,
                _ => {
                    return Err(StructuralError::NotAPageNode(frame.node));
                },
            };
            if bytes_equal(kind.as_slice(), "Pages".as_bytes()) {
                let kids = match get(entries, "Kids".as_bytes()) {
                    Some(v) => match self.follow(v) {
                        Some(Object::Array(items)) => items,
                        _ => {
                            return Err(StructuralError::NotAPageNode(frame.node));
                        },
                    },
                    None => {
                        return Err(StructuralError::NotAPageNode(frame.node));
                    },
                };
                if !push_kid_frames(kids, inherited, &mut stack) {
                    return Err(StructuralError::NotAPageNode(frame.node));
                }
            } else if bytes_equal(kind.as_slice(), "Page".as_bytes()) {
                match inherited.media_box {
                    Some(media_box) => {
                        out.push(
                            Page {
                                id: frame.node,
                                resources: inherited.resources,
                                media_box,
                                rotate: inherited.rotate,
                            },
                        );
                    },
                    None => {
                        return Err(StructuralError::MissingMediaBox(frame.node));
                    },
                }
            } else {
                return Err(StructuralError::NotAPageNode(frame.node));
            }
            visited.set(number, true);
            fuel -= 1;
        }
    }
}

impl DocumentView {
    /// The page with the given position, counted from 1; `None` where the
    /// document has no such page.
    pub open spec fn page_at(self, index: int) -> Result<Option<Page>, StructuralError> {
        match self.pages() {
            Err(e) => Err(e),
            Ok(pages) => if 1 <= index <= pages.len() {
                Ok(Some(pages[index - 1]))
            } else {
                Ok(None)
            },
        }
    }

    /// The pages from position `start` to position `end`, both counted from
    /// 1 and included, in document order; `None` where the document has no
    /// such range of pages.
    pub open spec fn page_range(self, start: int, end: int) -> Result<
        Option<Seq<Page>>,
        StructuralError,
    > {
        match self.pages() {
            Err(e) => Err(e),
            Ok(pages) => if 1 <= start <= end <= pages.len() {
                Ok(Some(pages.subrange(start - 1, end)))
            } else {
                Ok(None)
            },
        }
    }

    /// What the object of number `source` defines under `key`, or `default`
    /// where no object is named or it defines nothing there.
    pub open spec fn attribute_or(self, source: Option<u32>, key: Seq<u8>, default: Value) -> Value {
        match source {
            Some(n) => match self.attribute(n, key) {
                Some(v) => v,
                None => default,
            },
            None => default,
        }
    }

    /// The resources of a page: its own or the nearest inherited ones, or
    /// an empty dictionary where none are defined.
    pub open spec fn resources_of(self, page: Page) -> Value {
        self.attribute_or(page.resources, text("Resources"), Value::Dictionary(Seq::empty()))
    }

    /// The media box of a page: its own or the nearest inherited one.
    pub open spec fn media_box_of(self, page: Page) -> Value {
        self.attribute_or(Some(page.media_box), text("MediaBox"), Value::Null)
    }

    /// The rotation of a page: its own or the nearest inherited one, or 0
    /// where none is defined.
    pub open spec fn rotation_of(self, page: Page) -> Value {
        self.attribute_or(page.rotate, text("Rotate"), Value::Integer(0))
    }
}

impl Document {
    /// The page with the given position, counted from 1.
    pub fn page_at(&self, index: usize) -> (r: Result<Option<Page>, StructuralError>)
        ensures
            r == self@.page_at(index as int),
    {
        match self.pages() {
            Err(e) => Err(e),
            Ok(pages) => {
                if 1 <= index && index <= pages.len() {
                    Ok(Some(pages[index - 1]))
                } else {
                    Ok(None)
                }
            },
        }
    }

    /// The pages from position `start` to position `end`, both counted from
    /// 1 and included, in document order.
    pub fn page_range(&self, start: usize, end: usize) -> (r: Result<
        Option<Vec<Page>>,
        StructuralError,
    >)
        ensures
            match r {
                Ok(Some(pages)) => self@.page_range(start as int, end as int) == Ok::<
                    Option<Seq<Page>>,
                    StructuralError,
                >(Some(pages@)),
                Ok(None) => self@.page_range(start as int, end as int) == Ok::<
                    Option<Seq<Page>>,
                    StructuralError,
                >(None),
                Err(e) => self@.page_range(start as int, end as int) == Err::<
                    Option<Seq<Page>>,
                    StructuralError,
                >(e),
            },
    {
        match self.pages() {
            Err(e) => Err(e),
            Ok(pages) => {
                if 1 <= start && start <= end && end <= pages.len() {
                    let mut out: Vec<Page> = Vec::new();
                    let mut i: usize = start - 1;
                    while i < end
                        invariant
                            1 <= start,
                            start - 1 <= i <= end <= pages.len(),
                            out@ == pages@.subrange(start - 1, i as int),
                        decreases end - i,
                    {
                        out.push(pages[i]);
                        i += 1;
                        assert(out@ =~= pages@.subrange(start - 1, i as int));
                    }
                    Ok(Some(out))
                } else {
                    Ok(None)
                }
            },
        }
    }

    /// What the object of number `source` defines under `key`.
    pub fn attribute(&self, source: u32, key: &[u8]) -> (r: Option<&Object>)
        ensures
            match r {
                Some(o) => self@.attribute(source, key@) == Some(o@),
                None => self@.attribute(source, key@) is None,
            },
    {
        if (source as usize) < self.objects.len() {
            match &self.objects[source as usize] {
                Some(Object::Dictionary(entries)) => get(entries, key),
                Some(Object::Stream(entries, _)) => get(entries, key),
                _ => None,
            }
        } else {
            None
        }
    }

    /// The resources of a page, resolved through its ancestors.
    pub fn resources_of(&self, page: &Page) -> (r: Object)
        ensures
            r@ == self@.resources_of(*page),
    {
        let found = match page.resources {
            Some(n) => self.attribute(n, "Resources".as_bytes()),
            None => None,
        };
        match found {
            Some(o) => o.deep_copy(),
            None => {
                let empty: Vec<(Vec<u8>, Object)> = Vec::new();
                assert(entries_view(empty@) =~= Seq::empty());
                Object::Dictionary(empty)
            },
        }
    }

    /// The media box of a page, resolved through its ancestors.
    pub fn media_box_of(&self, page: &Page) -> (r: Object)
        ensures
            r@ == self@.media_box_of(*page),
    {
        match self.attribute(page.media_box, "MediaBox".as_bytes()) {
            Some(o) => o.deep_copy(),
            None => Object::Null,
        }
    }

    /// The rotation of a page, resolved through its ancestors.
    pub fn rotation_of(&self, page: &Page) -> (r: Object)
        ensures
            r@ == self@.rotation_of(*page),
    {
        let found = match page.rotate {
            Some(n) => self.attribute(n, "Rotate".as_bytes()),
            None => None,
        };
        match found {
            Some(o) => o.deep_copy(),
            None => Object::Integer(0),
        }
    }
}

} // verus!
