//! The structural checks on a document.
//!
//! The validator never fails: what is wrong with a document is what it
//! reports.

use crate::document::{header_version, parse_document, read_header_version, Document, DocumentView};
use crate::object::ObjectId;
use crate::pages::StructuralError;
use crate::table::{entry_at, XrefEntry};
use crate::xref::ParseError;
use vstd::prelude::*;

verus! {

/// The category of a violation.
#[derive(Clone, Copy, Debug, PartialEq, Eq, Structural)]
pub enum ViolationKind {
    /// The bytes do not start with the header's signature.
    MissingHeader,
    /// The bytes could not be read as a document at all.
    Unreadable(ParseError),
    /// There is no root catalog that leads to a page tree.
    UnresolvableRoot,
    /// A node of the page tree is reached twice.
    CyclicPageTree,
    /// A node of the page tree refers to an object that is not there.
    DanglingReference,
    /// A node of the page tree is neither a page nor a well-formed inner
    /// node.
    MalformedPageTree,
    /// A page has no media box, not even an inherited one.
    MissingMediaBox,
    /// The page tree has no page.
    EmptyPageTree,
    /// The cross-reference table places an object where none of that
    /// number and generation starts.
    DanglingXrefEntry,
}

/// One thing that is wrong with a document, and the object it is about.
#[derive(Clone, Copy, Debug, PartialEq, Eq)]
pub struct Violation {
    pub kind: ViolationKind,
    pub object: Option<ObjectId>,
}

/// The violation that an error of the page tree stands for.
pub open spec fn spec_tree_violation(e: StructuralError, root: Option<ObjectId>) -> Violation {
    match e {
        StructuralError::UnresolvableRoot => Violation {
            kind: ViolationKind::UnresolvableRoot,
            object: root,
        },
        StructuralError::CyclicPageTree(id) => Violation {
            kind: ViolationKind::CyclicPageTree,
            object: Some(id),
        },
        StructuralError::DanglingReference(id) => Violation {
            kind: ViolationKind::DanglingReference,
            object: Some(id),
        },
        StructuralError::NotAPageNode(id) => Violation {
            kind: ViolationKind::MalformedPageTree,
            object: Some(id),
        },
        StructuralError::MissingMediaBox(id) => Violation {
            kind: ViolationKind::MissingMediaBox,
            object: Some(id),
        },
    }
}

#[verifier::when_used_as_spec(spec_tree_violation)]
pub fn tree_violation(e: StructuralError, root: Option<ObjectId>) -> (r: Violation)
    ensures
        r == spec_tree_violation(e, root),
{
    match e {
        StructuralError::UnresolvableRoot => Violation {
            kind: ViolationKind::UnresolvableRoot,
            object: root,
        },
        StructuralError::CyclicPageTree(id) => Violation {
            kind: ViolationKind::CyclicPageTree,
            object: Some(id),
        },
        StructuralError::DanglingReference(id) => Violation {
            kind: ViolationKind::DanglingReference,
            object: Some(id),
        },
        StructuralError::NotAPageNode(id) => Violation {
            kind: ViolationKind::MalformedPageTree,
            object: Some(id),
        },
        StructuralError::MissingMediaBox(id) => Violation {
            kind: ViolationKind::MissingMediaBox,
            object: Some(id),
        },
    }
}

impl DocumentView {
    /// What is wrong with the header: it is missing, or nothing.
    pub open spec fn header_violations(self) -> Seq<Violation> {
        if self.version is None {
            seq![Violation { kind: ViolationKind::MissingHeader, object: None }]
        } else {
            Seq::empty()
        }
    }

    /// What is wrong with the page tree: the error that walking it meets,
    /// or that it has no page, or nothing.
    pub open spec fn tree_violations(self) -> Seq<Violation> {
        match self.pages() {
            Err(e) => seq![spec_tree_violation(e, self.trailer.root)],
            Ok(pages) => if pages.len() == 0 {
                seq![Violation { kind: ViolationKind::EmptyPageTree, object: self.trailer.root }]
            } else {
                Seq::empty()
            },
        }
    }

    /// What is wrong with the table's entry for `number`: it is in use, but
    /// no object of that number and generation starts at its offset.
    pub open spec fn entry_violations(self, number: int) -> Seq<Violation> {
        match entry_at(self.xref, number) {
            XrefEntry::InUse { offset, generation } => if number > u32::MAX || (number
                < self.objects.len() && self.objects[number] is Some) {
                Seq::empty()
            } else {
                seq![
                    Violation {
                        kind: ViolationKind::DanglingXrefEntry,
                        object: Some(ObjectId { number: number as u32, generation }),
                    },
                ]
            },
            _ => Seq::empty(),
        }
    }

    /// What is wrong with the table's entries for the numbers below `upto`,
    /// in the order of the numbers.
    pub open spec fn xref_violations(self, upto: int) -> Seq<Violation>
        decreases upto,
    {
        if upto <= 0 {
            Seq::empty()
        } else {
            self.xref_violations(upto - 1) + self.entry_violations(upto - 1)
        }
    }

    /// Everything that is wrong with the document: with its header, with
    /// its page tree, and with its cross-reference table, in this order.
    pub open spec fn violations(self) -> Seq<Violation> {
        self.header_violations() + self.tree_violations() + self.xref_violations(
            self.xref.len() as int,
        )
    }
}

impl Document {
    /// Checks the structure of the document. An empty result means that
    /// the document is sound.
    pub fn validate(&self) -> (r: Vec<Violation>)
        ensures
            r@ == self@.violations(),
    {
        let mut out: Vec<Violation> = Vec::new();
        if self.version.is_none() {
            out.push(Violation { kind: ViolationKind::MissingHeader, object: None });
        }
        assert(out@ =~= self@.header_violations());
        match self.pages() {
            Err(e) => {
                out.push(tree_violation(e, self.trailer.root));
            },
            Ok(pages) => {
                if pages.len() == 0 {
                    out.push(
                        Violation {
                            kind: ViolationKind::EmptyPageTree,
                            object: self.trailer.root,
                        },
                    );
                }
            },
        }
        assert(out@ =~= self@.header_violations() + self@.tree_violations());
        let ghost before = out@;
        let mut i: usize = 0;
        assert(out@ =~= before + self@.xref_violations(0));
        while i < self.xref.len()
            invariant
                i <= self.xref.len(),
                out@ == before + self@.xref_violations(i as int),
            decreases self.xref.len() - i,
        {
            match self.xref[i] {
                XrefEntry::InUse { offset, generation } => {
                    let present = i < self.objects.len() && self.objects[i].is_some();
                    if i <= u32::MAX as usize && !present {
                        out.push(
                            Violation {
                                kind: ViolationKind::DanglingXrefEntry,
                                object: Some(ObjectId { number: i as u32, generation }),
                            },
                        );
                    }
                },
                _ => {},
            }
            i += 1;
            assert(out@ =~= before + self@.xref_violations(i as int));
        }
        out
    }
}

/// Everything that is wrong with the bytes of a document. Where they cannot
/// be read as a document, that is reported, together with the missing
/// header, if it is missing, and the missing root.
pub open spec fn violations_of(b: Seq<u8>) -> Seq<Violation> {
    match parse_document(b) {
        Ok(doc) => doc.violations(),
        Err(e) => (if header_version(b) is None {
            seq![Violation { kind: ViolationKind::MissingHeader, object: None }]
        } else {
            Seq::empty()
        }) + seq![
            Violation { kind: ViolationKind::Unreadable(e), object: None },
            Violation { kind: ViolationKind::UnresolvableRoot, object: None },
        ],
    }
}

/// Checks the structure of the document that the bytes hold.
pub fn validate_bytes(b: &[u8]) -> (r: Vec<Violation>)
    ensures
        r@ == violations_of(b@),
{
    match Document::parse(b) {
        Ok(doc) => doc.validate(),
        Err(e) => {
            let mut out: Vec<Violation> = Vec::new();
            if read_header_version(b).is_none() {
                out.push(Violation { kind: ViolationKind::MissingHeader, object: None });
            }
            out.push(Violation { kind: ViolationKind::Unreadable(e), object: None });
            out.push(Violation { kind: ViolationKind::UnresolvableRoot, object: None });
            assert(out@ =~= violations_of(b@));
            out
        },
    }
}

} // verus!
