//! The document model and how it is built from bytes.
//!
//! A document is read through the chain of cross-reference sections that its
//! end points to. Where that fails the bytes are searched for object headers
//! instead, and the document says that it was recovered.

use crate::indirect::{object_header, parse_indirect, read_indirect, read_object_header};
use crate::lexer::{
    is_regular, read_unsigned, scan_word, skip, skip_space, spec_is_regular, text,
    unsigned_word, word_end, word_is,
};
use crate::object::{bytes_equal, get, lookup, Object, ObjectId, Value};
use crate::syntax::{copy_range, parse_value, read_value, MAX_DEPTH};
use crate::table::{entry_at, lookup_entry, record, record_entry, XrefEntry};
use crate::xref::{
    empty_trailer, parse_section, read_section, read_trailer, trailer_of, ParseError, Trailer,
    MAX_REVISIONS,
};
use vstd::prelude::*;

verus! {

/// A document in memory: the version its header names, the cross-reference
/// table, the objects, and the trailer. The table and the objects are
/// indexed by object number.
#[derive(Debug)]
pub struct Document {
    /// The version behind the header's signature; `None` without a header.
    pub version: Option<Vec<u8>>,
    /// What is known of each object number.
    pub xref: Vec<XrefEntry>,
    /// The object of each number, where the table's entry leads to one.
    pub objects: Vec<Option<Object>>,
    /// The most recent trailer.
    pub trailer: Trailer,
    /// Whether the table was rebuilt by searching the bytes.
    pub recovered: bool,
}

/// The mathematical model of a `Document`.
pub struct DocumentView {
    pub version: Option<Seq<u8>>,
    pub xref: Seq<XrefEntry>,
    pub objects: Seq<Option<Value>>,
    pub trailer: Trailer,
    pub recovered: bool,
}

/// The value in a slot of the object table.
pub open spec fn slot_view(slot: Option<Object>) -> Option<Value> {
    match slot {
        Some(o) => Some(o@),
        None => None,
    }
}

/// The values in the slots of the object table.
pub open spec fn slots_view(slots: Seq<Option<Object>>) -> Seq<Option<Value>> {
    Seq::new(slots.len(), |i: int| slot_view(slots[i]))
}

impl View for Document {
    type V = DocumentView;

    open spec fn view(&self) -> DocumentView {
        DocumentView {
            version: match self.version {
                Some(v) => Some(v@),
                None => None,
            },
            xref: self.xref@,
            objects: slots_view(self.objects@),
            trailer: self.trailer,
            recovered: self.recovered,
        }
    }
}

impl DocumentView {
    /// The value that a reference to `id` resolves to: that of the object
    /// with this number, where the table has it in use with this
    /// generation. `None` for every other reference.
    pub open spec fn resolve(self, id: ObjectId) -> Option<Value> {
        match entry_at(self.xref, id.number as int) {
            XrefEntry::InUse { offset, generation } => if generation == id.generation
                && id.number < self.objects.len() {
                self.objects[id.number as int]
            } else {
                None
            },
            _ => None,
        }
    }
}

impl Document {
    /// The object that a reference to `id` resolves to.
    pub fn resolve(&self, id: ObjectId) -> (r: Option<&Object>)
        ensures
            match r {
                Some(o) => self@.resolve(id) == Some(o@),
                None => self@.resolve(id) is None,
            },
    {
        match lookup_entry(&self.xref, id.number as usize) {
            XrefEntry::InUse { offset, generation } => {
                if generation == id.generation && (id.number as usize) < self.objects.len() {
                    self.objects[id.number as usize].as_ref()
                } else {
                    None
                }
            },
            _ => None,
        }
    }

    /// Reads a document from its bytes.
    pub fn parse(b: &[u8]) -> (r: Result<Document, ParseError>)
        ensures
            match r {
                Ok(doc) => parse_document(b@) == Ok::<DocumentView, ParseError>(doc@),
                Err(e) => parse_document(b@) == Err::<DocumentView, ParseError>(e),
            },
    {
        match read_tables(b) {
            Err(e) => Err(e),
            Ok((table, trailer, recovered)) => {
                let objects = load_objects(b, &table);
                match find_first_fault(&objects) {
                    Some(e) => Err(e),
                    None => Ok(
                        Document {
                            version: read_header_version(b),
                            xref: table,
                            objects,
                            trailer,
                            recovered,
                        },
                    ),
                }
            },
        }
    }
}

/// The version that the header names: what follows `%PDF-` at the very
/// start, up to the next white space. `None` without that signature.
pub open spec fn header_version(b: Seq<u8>) -> Option<Seq<u8>> {
    let marker = text("%PDF-");
    if marker.len() <= b.len() && b.subrange(0, marker.len() as int) == marker {
        Some(b.subrange(marker.len() as int, word_end(b, marker.len() as int)))
    } else {
        None
    }
}

/// Reads the version that the header names.
pub fn read_header_version(b: &[u8]) -> (r: Option<Vec<u8>>)
    ensures
        match r {
            Some(v) => header_version(b@) == Some(v@),
            None => header_version(b@) is None,
        },
{
    let marker = "%PDF-".as_bytes();
    if marker.len() <= b.len() && word_is(b, 0, marker.len(), marker) {
        let end = scan_word(b, marker.len());
        Some(copy_range(b, marker.len(), end))
    } else {
        None
    }
}

/// The last position at or before `pos` where `word` is written, or -1
/// where it is written nowhere there.
pub open spec fn find_last(b: Seq<u8>, pos: int, word: Seq<u8>) -> int
    decreases pos + 1,
{
    if pos < 0 {
        -1
    } else if pos + word.len() <= b.len() && b.subrange(pos, pos + word.len()) == word {
        pos
    } else {
        find_last(b, pos - 1, word)
    }
}

/// Finds where `word` is written last.
pub fn find_last_word(b: &[u8], word: &[u8]) -> (r: Option<usize>)
    ensures
        match r {
            Some(k) => find_last(b@, b.len() as int, word@) == k && k + word.len() <= b.len(),
            None => find_last(b@, b.len() as int, word@) == -1,
        },
{
    let mut i: usize = b.len();
    loop
        invariant
            i <= b.len(),
            find_last(b@, b.len() as int, word@) == find_last(b@, i as int, word@),
        decreases i,
    {
        if b.len() - i >= word.len() && word_is(b, i, i + word.len(), word) {
            return Some(i);
        }
        if i == 0 {
            assert(find_last(b@, -1, word@) == -1);
            return None;
        }
        i -= 1;
    }
}

/// The offset written behind the last `startxref`.
pub open spec fn start_offset(b: Seq<u8>) -> Option<int> {
    let word = text("startxref");
    let k = find_last(b, b.len() as int, word);
    let p = skip_space(b, k + word.len(), false);
    if k < 0 {
        None
    } else {
        match unsigned_word(b, p, word_end(b, p), usize::MAX as nat) {
            Some(n) => Some(n as int),
            None => None,
        }
    }
}

/// Reads the offset written behind the last `startxref`.
pub fn read_start_offset(b: &[u8]) -> (r: Option<usize>)
    ensures
        match r {
            Some(n) => start_offset(b@) == Some(n as int),
            None => start_offset(b@) is None,
        },
{
    let word = "startxref".as_bytes();
    match find_last_word(b, word) {
        None => None,
        Some(k) => {
            let p = skip(b, k + word.len());
            let end = scan_word(b, p);
            match read_unsigned(b, p, end, usize::MAX as u64) {
                Some(n) => Some(n as usize),
                None => None,
            }
        },
    }
}

/// The table and the trailer that the chain of sections from `pos` on gives,
/// on top of the entries in `table`. `newest` is the trailer of the first
/// section of the chain, once it was read: it is the document's trailer.
/// `fuel` bounds the number of sections.
pub open spec fn parse_chain(
    b: Seq<u8>,
    pos: int,
    table: Seq<XrefEntry>,
    newest: Option<Trailer>,
    fuel: nat,
) -> Result<(Seq<XrefEntry>, Trailer), ParseError>
    decreases fuel,
{
    if fuel == 0 {
        Err(ParseError::TooManyRevisions)
    } else if object_header(b, pos) is Some {
        Err(ParseError::CompressedXref)
    } else {
        match parse_section(b, pos, table) {
            None => Err(ParseError::MalformedXref),
            Some((next, trailer, encrypted)) => {
                let kept = match newest {
                    Some(t) => t,
                    None => trailer,
                };
                if encrypted {
                    Err(ParseError::Encrypted)
                } else {
                    match trailer.prev {
                        Some(prev) => parse_chain(
                            b,
                            prev as int,
                            next,
                            Some(kept),
                            (fuel - 1) as nat,
                        ),
                        None => Ok((next, kept)),
                    }
                }
            },
        }
    }
}

/// Follows the chain of sections that starts at `start`.
pub fn read_chain(b: &[u8], start: usize) -> (r: Result<(Vec<XrefEntry>, Trailer), ParseError>)
    ensures
        match r {
            Ok((table, trailer)) => parse_chain(
                b@,
                start as int,
                Seq::empty(),
                None,
                MAX_REVISIONS as nat,
            ) == Ok::<(Seq<XrefEntry>, Trailer), ParseError>((table@, trailer)),
            Err(e) => parse_chain(b@, start as int, Seq::empty(), None, MAX_REVISIONS as nat)
                == Err::<(Seq<XrefEntry>, Trailer), ParseError>(e),
        },
{
    let mut table: Vec<XrefEntry> = Vec::new();
    let mut newest: Option<Trailer> = None;
    let mut pos: usize = start;
    let mut fuel: usize = MAX_REVISIONS;
    while fuel > 0
        invariant
            parse_chain(b@, start as int, Seq::empty(), None, MAX_REVISIONS as nat)
                == parse_chain(b@, pos as int, table@, newest, fuel as nat),
        decreases fuel,
    {
        if read_object_header(b, pos).is_some() {
            return Err(ParseError::CompressedXref);
        }
        match read_section(b, pos, &mut table) {
            None => {
                return Err(ParseError::MalformedXref);
            },
            Some((trailer, encrypted)) => {
                let kept = match newest {
                    Some(t) => t,
                    None => trailer,
                };
                if encrypted {
                    return Err(ParseError::Encrypted);
                }
                match trailer.prev {
                    Some(prev) => {
                        newest = Some(kept);
                        pos = prev;
                        fuel -= 1;
                    },
                    None => {
                        return Ok((table, kept));
                    },
                }
            },
        }
    }
    Err(ParseError::TooManyRevisions)
}

/// The identity in the object header at `at`, where one starts there: at
/// the start of the bytes or behind a byte that is not regular.
pub open spec fn marker_at(b: Seq<u8>, at: int) -> Option<ObjectId> {
    if at == 0 || (0 < at <= b.len() && !spec_is_regular(b[at - 1])) {
        match object_header(b, at) {
            Some((id, _)) => Some(id),
            None => None,
        }
    } else {
        None
    }
}

/// The table that searching the bytes for object headers gives, for the
/// positions below `pos` and on top of `table`. The positions are visited
/// from the end, so of two objects with one number the later one is kept.
pub open spec fn scan_objects(b: Seq<u8>, pos: int, table: Seq<XrefEntry>) -> Seq<XrefEntry>
    decreases pos,
{
    if pos <= 0 || pos > b.len() {
        table
    } else {
        scan_objects(
            b,
            pos - 1,
            match marker_at(b, pos - 1) {
                Some(id) => record(
                    table,
                    id.number as int,
                    XrefEntry::InUse { offset: (pos - 1) as usize, generation: id.generation },
                ),
                None => table,
            },
        )
    }
}

/// Rebuilds the table by searching the bytes for object headers.
pub fn recover_table(b: &[u8]) -> (r: Vec<XrefEntry>)
    ensures
        r@ == scan_objects(b@, b.len() as int, Seq::empty()),
{
    let mut table: Vec<XrefEntry> = Vec::new();
    let mut pos: usize = b.len();
    while pos > 0
        invariant
            pos <= b.len(),
            scan_objects(b@, b.len() as int, Seq::empty()) == scan_objects(
                b@,
                pos as int,
                table@,
            ),
        decreases pos,
    {
        let at = pos - 1;
        if at == 0 || !is_regular(b[at - 1]) {
            match read_object_header(b, at) {
                Some((id, _)) => {
                    record_entry(
                        &mut table,
                        id.number as usize,
                        XrefEntry::InUse { offset: at, generation: id.generation },
                    );
                },
                None => {},
            }
        }
        pos = at;
    }
    table
}

/// Whether the table has any object in use.
pub open spec fn has_in_use(table: Seq<XrefEntry>) -> bool {
    exists|i: int| 0 <= i < table.len() && (#[trigger] table[i]) is InUse
}

/// Whether the table has any object in use.
pub fn any_in_use(table: &Vec<XrefEntry>) -> (r: bool)
    ensures
        r == has_in_use(table@),
{
    let mut i: usize = 0;
    while i < table.len()
        invariant
            i <= table.len(),
            forall|j: int| 0 <= j < i ==> !((#[trigger] table@[j]) is InUse),
        decreases table.len() - i,
    {
        match table[i] {
            XrefEntry::InUse { offset, generation } => {
                return true;
            },
            _ => {},
        }
        i += 1;
    }
    false
}

/// The trailer of a recovered document, and whether it names an encryption
/// dictionary: what the dictionary behind the last `trailer` says, or
/// nothing where there is none.
pub open spec fn recovered_trailer(b: Seq<u8>) -> (Trailer, bool) {
    let word = text("trailer");
    let k = find_last(b, b.len() as int, word);
    if k < 0 {
        (empty_trailer(), false)
    } else {
        match parse_value(b, skip_space(b, k + word.len(), false), MAX_DEPTH as nat) {
            Some((Value::Dictionary(entries), _)) => (
                trailer_of(entries),
                lookup(entries, text("Encrypt")) is Some,
            ),
            _ => (empty_trailer(), false),
        }
    }
}

/// Reads the trailer of a recovered document.
pub fn recover_trailer(b: &[u8]) -> (r: (Trailer, bool))
    ensures
        r == recovered_trailer(b@),
{
    let word = "trailer".as_bytes();
    let nothing = Trailer { root: None, size: 0, prev: None, info: None };
    match find_last_word(b, word) {
        None => (nothing, false),
        Some(k) => match read_value(b, skip(b, k + word.len()), MAX_DEPTH) {
            Some((Object::Dictionary(entries), _)) => {
                let encrypted = get(&entries, "Encrypt".as_bytes()).is_some();
                (read_trailer(&entries), encrypted)
            },
            _ => (nothing, false),
        },
    }
}

/// The table and the trailer that the chain of sections gives.
pub open spec fn chained_tables(b: Seq<u8>) -> Result<(Seq<XrefEntry>, Trailer), ParseError> {
    match start_offset(b) {
        Some(pos) => parse_chain(b, pos, Seq::empty(), None, MAX_REVISIONS as nat),
        None => Err(ParseError::MissingStartXref),
    }
}

/// The table and the trailer of a document, and whether they were
/// recovered. The chain of sections decides where it can be read. Where it
/// cannot, for another reason than encryption or cross-reference data in a
/// stream, the bytes are searched for objects: if any is found, the table
/// holds them; if none is found, the chain's error stands.
#[verifier::opaque]
pub open spec fn tables(b: Seq<u8>) -> Result<(Seq<XrefEntry>, Trailer, bool), ParseError> {
    match chained_tables(b) {
        Ok((table, trailer)) => Ok((table, trailer, false)),
        Err(e) => {
            let table = scan_objects(b, b.len() as int, Seq::empty());
            let (trailer, encrypted) = recovered_trailer(b);
            if e == ParseError::Encrypted || e == ParseError::CompressedXref {
                Err(e)
            } else if !has_in_use(table) {
                Err(e)
            } else if encrypted {
                Err(ParseError::Encrypted)
            } else {
                Ok((table, trailer, true))
            }
        },
    }
}

/// Reads the table and the trailer of a document.
pub fn read_tables(b: &[u8]) -> (r: Result<(Vec<XrefEntry>, Trailer, bool), ParseError>)
    ensures
        match r {
            Ok((table, trailer, recovered)) => tables(b@) == Ok::<
                (Seq<XrefEntry>, Trailer, bool),
                ParseError,
            >((table@, trailer, recovered)),
            Err(e) => tables(b@) == Err::<(Seq<XrefEntry>, Trailer, bool), ParseError>(e),
        },
{
    proof {
        reveal(tables);
    }
    let chained = match read_start_offset(b) {
        Some(pos) => read_chain(b, pos),
        None => Err(ParseError::MissingStartXref),
    };
    match chained {
        Ok((table, trailer)) => Ok((table, trailer, false)),
        Err(e) => {
            if e == ParseError::Encrypted || e == ParseError::CompressedXref {
                return Err(e);
            }
            let table = recover_table(b);
            if !any_in_use(&table) {
                return Err(e);
            }
            let (trailer, encrypted) = recover_trailer(b);
            if encrypted {
                Err(ParseError::Encrypted)
            } else {
                Ok((table, trailer, true))
            }
        },
    }
}

/// The object of the given number: what is written at the offset that the
/// table gives for it, where an object of that number and generation is
/// written there.
pub open spec fn object_at(b: Seq<u8>, table: Seq<XrefEntry>, number: int) -> Option<Value> {
    match entry_at(table, number) {
        XrefEntry::InUse { offset, generation } => match parse_indirect(b, offset as int, table) {
            Some((id, v, _)) => if id.number == number && id.generation == generation {
                Some(v)
            } else {
                None
            },
            None => None,
        },
        _ => None,
    }
}

/// The objects of all numbers of the table.
pub open spec fn loaded(b: Seq<u8>, table: Seq<XrefEntry>) -> Seq<Option<Value>> {
    Seq::new(table.len(), |i: int| object_at(b, table, i))
}

/// Reads the object of the given number.
pub fn load_object(b: &[u8], table: &Vec<XrefEntry>, number: usize) -> (r: Option<Object>)
    ensures
        slot_view(r) == object_at(b@, table@, number as int),
{
    match lookup_entry(table, number) {
        XrefEntry::InUse { offset, generation } => match read_indirect(b, offset, table) {
            Some((id, o, _)) => {
                if id.number as usize == number && id.generation == generation {
                    Some(o)
                } else {
                    None
                }
            },
            None => None,
        },
        _ => None,
    }
}

/// Reads the objects of all numbers of the table.
pub fn load_objects(b: &[u8], table: &Vec<XrefEntry>) -> (r: Vec<Option<Object>>)
    ensures
        slots_view(r@) == loaded(b@, table@),
{
    let mut out: Vec<Option<Object>> = Vec::new();
    let mut i: usize = 0;
    while i < table.len()
        invariant
            i <= table.len(),
            out.len() == i,
            forall|j: int| 0 <= j < i ==> slot_view(#[trigger] out@[j]) == object_at(b@, table@, j),
        decreases table.len() - i,
    {
        let slot = load_object(b, table, i);
        out.push(slot);
        i += 1;
    }
    assert(slots_view(out@) =~= loaded(b@, table@));
    out
}

/// What makes an object a sign of a layout that is not supported: the
/// parameters of a linearized document, an object stream, or a stream of
/// cross-reference data.
pub open spec fn fault_of(v: Value) -> Option<ParseError> {
    match v {
        Value::Dictionary(entries) => if lookup(entries, text("Linearized")) is Some {
            Some(ParseError::Linearized)
        } else {
            None
        },
        Value::Stream(entries, _) => match lookup(entries, text("Type")) {
            Some(Value::Name(name)) => if name == text("ObjStm") {
                Some(ParseError::CompressedObjects)
            } else if name == text("XRef") {
                Some(ParseError::CompressedXref)
            } else {
                None
            },
            _ => None,
        },
        _ => None,
    }
}

/// The fault of the first object, from number `from` on, that has one.
pub open spec fn first_fault(objects: Seq<Option<Value>>, from: int) -> Option<ParseError>
    decreases objects.len() - from,
{
    if from < 0 || from >= objects.len() {
        None
    } else {
        match objects[from] {
            Some(v) => match fault_of(v) {
                Some(e) => Some(e),
                None => first_fault(objects, from + 1),
            },
            None => first_fault(objects, from + 1),
        }
    }
}

/// Looks for the sign of a layout that is not supported.
pub fn find_fault(o: &Object) -> (r: Option<ParseError>)
    ensures
        r == fault_of(o@),
{
    match o {
        Object::Dictionary(entries) => {
            if get(entries, "Linearized".as_bytes()).is_some() {
                Some(ParseError::Linearized)
            } else {
                None
            }
        },
        Object::Stream(entries, _) => match get(entries, "Type".as_bytes()) {
            Some(Object::Name(name)) => {
                if bytes_equal(name.as_slice(), "ObjStm".as_bytes()) {
                    Some(ParseError::CompressedObjects)
                } else if bytes_equal(name.as_slice(), "XRef".as_bytes()) {
                    Some(ParseError::CompressedXref)
                } else {
                    None
                }
            },
            _ => None,
        },
        _ => None,
    }
}

/// Looks for the first object with a fault.
pub fn find_first_fault(objects: &Vec<Option<Object>>) -> (r: Option<ParseError>)
    ensures
        r == first_fault(slots_view(objects@), 0),
{
    let mut i: usize = 0;
    while i < objects.len()
        invariant
            i <= objects.len(),
            first_fault(slots_view(objects@), 0) == first_fault(slots_view(objects@), i as int),
        decreases objects.len() - i,
    {
        match &objects[i] {
            Some(o) => match find_fault(o) {
                Some(e) => {
                    return Some(e);
                },
                None => {},
            },
            None => {},
        }
        i += 1;
    }
    None
}

/// The document that the bytes hold: its table and trailer, the objects
/// that the table leads to, and the version named by the header. An object
/// with a fault makes the whole document unreadable.
pub open spec fn parse_document(b: Seq<u8>) -> Result<DocumentView, ParseError> {
    match tables(b) {
        Err(e) => Err(e),
        Ok((table, trailer, recovered)) => match first_fault(loaded(b, table), 0) {
            Some(e) => Err(e),
            None => Ok(
                DocumentView {
                    version: header_version(b),
                    xref: table,
                    objects: loaded(b, table),
                    trailer,
                    recovered,
                },
            ),
        },
    }
}

} // verus!
