//! Splitting a document into one document for each chapter.
//!
//! The splitter works on bytes: it is handed the bytes of the source
//! document and hands back the bytes of each chapter's document. Reading
//! and writing files is left to the caller.

use crate::chapter::{
    check_ranges, first_fault, first_out_of_range, validate_chapters, ChapterDefinition,
    ChapterDefinitionError, ProcessResult,
};
use crate::document::{parse_document, Document, DocumentView};
use crate::laws::split_is_sound;
use crate::lexer::text;
use crate::message::{
    append_number, chapter_message, describe_chapter_error, describe_parse_error,
    describe_structural_error, describe_unstored, describe_unwritten, number_text,
    parse_message, structure_message, unstored_message, unwritten_message,
};
use crate::pages::{Page, StructuralError};
use crate::rewrite::{fits, output_values};
use crate::validator::violations_of;
use crate::writer::{document_bytes, writable, write_document};
use crate::xref::ParseError;
use vstd::prelude::*;
use vstd::string::*;

verus! {

/// The splitter and its policy on chapters that cannot be written.
#[derive(Clone, Copy, Debug, PartialEq, Eq)]
pub struct PdfSplitter {
    /// Whether the first chapter that cannot be written ends the run.
    /// Otherwise every chapter is tried.
    pub fail_fast: bool,
}

/// Why nothing was split.
#[derive(Clone, Copy, Debug, PartialEq, Eq, Structural)]
pub enum SplitError {
    /// A chapter definition was rejected.
    Chapter(ChapterDefinitionError),
    /// The bytes could not be read as a document.
    Parse(ParseError),
    /// The document does not yield its pages.
    Structure(StructuralError),
}

/// The document of one chapter.
#[derive(Debug, PartialEq, Eq)]
pub struct ChapterFile {
    /// The position of the chapter in the sequence, counted from 1.
    pub index: usize,
    /// The number of pages of the document.
    pub page_count: u32,
    /// The document.
    pub bytes: Vec<u8>,
}

/// The mathematical model of a `ChapterFile`.
pub struct FileView {
    pub index: usize,
    pub page_count: u32,
    pub bytes: Seq<u8>,
}

impl View for ChapterFile {
    type V = FileView;

    open spec fn view(&self) -> FileView {
        FileView { index: self.index, page_count: self.page_count, bytes: self.bytes@ }
    }
}

/// What a run produced: the documents of the chapters that were written,
/// the positions of those that could not be written, and the number of
/// pages of the source.
#[derive(Debug)]
pub struct SplitOutput {
    pub files: Vec<ChapterFile>,
    pub failed: Vec<usize>,
    pub total_pages: u32,
}

/// The mathematical model of a `SplitOutput`.
pub struct OutputView {
    pub files: Seq<FileView>,
    pub failed: Seq<usize>,
    pub total_pages: u32,
}

impl OutputView {
    /// Whether the run succeeded: no chapter failed.
    pub open spec fn success(self) -> bool {
        self.failed.len() == 0
    }

    /// The number of files that the result record of the run names.
    pub open spec fn files_processed(self) -> u32 {
        clip(self.files.len())
    }
}

/// The models of the files.
pub open spec fn files_view(files: Seq<ChapterFile>) -> Seq<FileView> {
    Seq::new(files.len(), |i: int| files[i]@)
}

impl View for SplitOutput {
    type V = OutputView;

    open spec fn view(&self) -> OutputView {
        OutputView {
            files: files_view(self.files@),
            failed: self.failed@,
            total_pages: self.total_pages,
        }
    }
}

/// A count as a `u32`, or the largest one where it is too large.
pub open spec fn clip(n: nat) -> u32 {
    if n > u32::MAX {
        u32::MAX
    } else {
        n as u32
    }
}

/// The version that the new documents name: that of the source, or 1.4
/// where the source names none.
pub open spec fn output_version(doc: DocumentView) -> Seq<u8> {
    match doc.version {
        Some(v) => v,
        None => text("1.4"),
    }
}

/// The pages of a chapter: those from its start page to its end page.
pub open spec fn chapter_pages(pages: Seq<Page>, chapter: ChapterDefinition) -> Seq<Page> {
    pages.subrange(chapter.start_page - 1, chapter.end_page as int)
}

/// The bytes of the document of a chapter: its pages and what they need,
/// renumbered and written. `None` where that document cannot be written.
#[verifier::opaque]
pub open spec fn chapter_bytes(doc: DocumentView, pages: Seq<Page>, chapter: ChapterDefinition) -> Option<
    Seq<u8>,
> {
    let selected = chapter_pages(pages, chapter);
    let found = doc.extract(selected);
    let values = output_values(doc, selected, found);
    if fits(selected, found) && writable(output_version(doc), values) {
        Some(document_bytes(output_version(doc), values))
    } else {
        None
    }
}

/// Whether a file is a sound document: the validator finds nothing wrong
/// with its bytes, and the pages that are read from them are as many as
/// the file says.
#[verifier::opaque]
pub open spec fn sound(file: FileView) -> bool {
    &&& violations_of(file.bytes) =~= Seq::empty()
    &&& parse_document(file.bytes) matches Ok(doc) && doc.pages() matches Ok(pages) && pages.len()
        == file.page_count
}

/// What the chapters from position `at` on add to the files and failures
/// that the chapters before them gave. A chapter that cannot be written is
/// recorded as failed; under the fail-fast policy the run ends there.
pub open spec fn run(
    doc: DocumentView,
    pages: Seq<Page>,
    chapters: Seq<ChapterDefinition>,
    fail_fast: bool,
    at: int,
    files: Seq<FileView>,
    failed: Seq<usize>,
) -> (Seq<FileView>, Seq<usize>)
    decreases chapters.len() - at,
{
    if at < 0 || at >= chapters.len() {
        (files, failed)
    } else {
        match chapter_bytes(doc, pages, chapters[at]) {
            Some(bytes) => run(
                doc,
                pages,
                chapters,
                fail_fast,
                at + 1,
                files.push(
                    FileView {
                        index: (at + 1) as usize,
                        page_count: chapters[at].page_count() as u32,
                        bytes,
                    },
                ),
                failed,
            ),
            None => if fail_fast {
                (files, failed.push((at + 1) as usize))
            } else {
                run(doc, pages, chapters, fail_fast, at + 1, files, failed.push((at + 1) as usize))
            },
        }
    }
}

/// What splitting the bytes `b` into the chapters gives.
///
/// The chapter definitions are checked first; then the document is read
/// and its pages are found; then the ranges are checked against the number
/// of pages. Only then are the chapters written, one after the other.
pub open spec fn split(b: Seq<u8>, chapters: Seq<ChapterDefinition>, fail_fast: bool) -> Result<
    OutputView,
    SplitError,
> {
    match first_fault(chapters, 0) {
        Some(e) => Err(SplitError::Chapter(e)),
        None => match parse_document(b) {
            Err(e) => Err(SplitError::Parse(e)),
            Ok(doc) => match doc.pages() {
                Err(e) => Err(SplitError::Structure(e)),
                Ok(pages) => match first_out_of_range(chapters, pages.len() as int, 0) {
                    Some(e) => Err(SplitError::Chapter(e)),
                    None => {
                        let (files, failed) = run(
                            doc,
                            pages,
                            chapters,
                            fail_fast,
                            0,
                            Seq::empty(),
                            Seq::empty(),
                        );
                        Ok(OutputView { files, failed, total_pages: clip(pages.len()) })
                    },
                },
            },
        },
    }
}

/// A copy of the pages from position `from` up to position `to`.
pub fn select_pages(pages: &Vec<Page>, from: usize, to: usize) -> (r: Vec<Page>)
    requires
        from <= to <= pages.len(),
    ensures
        r@ == pages@.subrange(from as int, to as int),
{
    let mut out: Vec<Page> = Vec::new();
    let mut i: usize = from;
    while i < to
        invariant
            from <= i <= to <= pages.len(),
            out@ == pages@.subrange(from as int, i as int),
        decreases to - i,
    {
        out.push(pages[i]);
        i += 1;
        assert(out@ =~= pages@.subrange(from as int, i as int));
    }
    out
}

/// Writes the document of one chapter.
pub fn write_chapter(doc: &Document, pages: &Vec<Page>, chapter: &ChapterDefinition) -> (r: Option<
    Vec<u8>,
>)
    requires
        chapter.valid(),
        chapter.end_page <= pages.len(),
    ensures
        match r {
            Some(bytes) => chapter_bytes(doc@, pages@, *chapter) == Some(bytes@),
            None => chapter_bytes(doc@, pages@, *chapter) is None,
        },
{
    proof {
        reveal(chapter_bytes);
    }
    let selected = select_pages(pages, chapter.start_page as usize - 1, chapter.end_page as usize);
    let found = doc.extract(&selected);
    match doc.build_output(&selected, &found) {
        Some(objects) => {
            match &doc.version {
                Some(version) => write_document(version.as_slice(), &objects),
                None => write_document("1.4".as_bytes(), &objects),
            }
        },
        None => None,
    }
}

impl PdfSplitter {
    /// A splitter that ends the run at the first chapter that cannot be
    /// written.
    pub fn new() -> (r: Self)
        ensures
            r.fail_fast,
    {
        PdfSplitter { fail_fast: true }
    }

    /// Splits the document held by `input` into one document for each
    /// chapter.
    pub fn split_pdf(&self, input: &[u8], chapters: &Vec<ChapterDefinition>) -> (r: Result<
        SplitOutput,
        SplitError,
    >)
        ensures
            match r {
                Ok(out) => split(input@, chapters@, self.fail_fast) == Ok::<
                    OutputView,
                    SplitError,
                >(out@),
                Err(e) => split(input@, chapters@, self.fail_fast) == Err::<
                    OutputView,
                    SplitError,
                >(e),
            },
            r matches Ok(out) ==> forall|i: int|
                0 <= i < out.files.len() ==> sound(#[trigger] out@.files[i]),
    {
        match validate_chapters(chapters) {
            Err(e) => {
                return Err(SplitError::Chapter(e));
            },
            Ok(_) => {},
        }
        let doc = match Document::parse(input) {
            Err(e) => {
                return Err(SplitError::Parse(e));
            },
            Ok(doc) => doc,
        };
        let pages = match doc.pages() {
            Err(e) => {
                return Err(SplitError::Structure(e));
            },
            Ok(pages) => pages,
        };
        match check_ranges(chapters, pages.len()) {
            Err(e) => {
                return Err(SplitError::Chapter(e));
            },
            Ok(_) => {},
        }
        let total: u32 = if pages.len() > u32::MAX as usize {
            u32::MAX
        } else {
            pages.len() as u32
        };
        let (files, failed) = self.write_chapters(&doc, &pages, chapters);
        let out = SplitOutput { files, failed, total_pages: total };
        proof {
            let wanted = split(input@, chapters@, self.fail_fast);
            assert(wanted == Ok::<OutputView, SplitError>(out@));
            assert forall|i: int| 0 <= i < wanted->Ok_0.files.len() implies (
            #[trigger] wanted->Ok_0.files[i]).bytes.len() <= usize::MAX by {
                assert(wanted->Ok_0.files[i].bytes == out.files[i].bytes@);
                assert(out.files[i].bytes.len() <= usize::MAX);
                assert(out.files[i].bytes@.len() == out.files[i].bytes.len());
            }
            split_is_sound(input@, chapters@, self.fail_fast);
            assert forall|i: int| 0 <= i < out.files.len() implies sound(
                #[trigger] out@.files[i],
            ) by {
                assert(out@.files[i] == wanted->Ok_0.files[i]);
            }
        }
        Ok(out)
    }

    /// Writes the documents of the chapters, one after the other.
    pub fn write_chapters(
        &self,
        doc: &Document,
        pages: &Vec<Page>,
        chapters: &Vec<ChapterDefinition>,
    ) -> (r: (Vec<ChapterFile>, Vec<usize>))
        requires
            forall|j: int| 0 <= j < chapters.len() ==> (#[trigger] chapters[j]).valid(),
            forall|j: int|
                0 <= j < chapters.len() ==> (#[trigger] chapters[j]).end_page <= pages.len(),
        ensures
            (files_view(r.0@), r.1@) == run(
                doc@,
                pages@,
                chapters@,
                self.fail_fast,
                0,
                Seq::empty(),
                Seq::empty(),
            ),
    {
        let ghost wanted = run(
            doc@,
            pages@,
            chapters@,
            self.fail_fast,
            0,
            Seq::empty(),
            Seq::empty(),
        );
        let mut files: Vec<ChapterFile> = Vec::new();
        let mut failed: Vec<usize> = Vec::new();
        let mut i: usize = 0;
        assert(files_view(files@) =~= Seq::empty());
        while i < chapters.len()
            invariant_except_break
                wanted == run(
                    doc@,
                    pages@,
                    chapters@,
                    self.fail_fast,
                    i as int,
                    files_view(files@),
                    failed@,
                ),
            invariant
                i <= chapters.len(),
                forall|j: int| 0 <= j < chapters.len() ==> (#[trigger] chapters[j]).valid(),
                forall|j: int|
                    0 <= j < chapters.len() ==> (#[trigger] chapters[j]).end_page <= pages.len(),
            ensures
                wanted == (files_view(files@), failed@),
            decreases chapters.len() - i,
        {
            let chapter = &chapters[i];
            match write_chapter(doc, pages, chapter) {
                Some(bytes) => {
                    let ghost before = files_view(files@);
                    let file = ChapterFile {
                        index: i + 1,
                        page_count: chapter.end_page - chapter.start_page + 1,
                        bytes,
                    };
                    let ghost added = file@;
                    files.push(file);
                    assert(files_view(files@) =~= before.push(added));
                },
                None => {
                    failed.push(i + 1);
                    if self.fail_fast {
                        break;
                    }
                },
            }
            i += 1;
        }
        (files, failed)
    }
}

impl Default for PdfSplitter {
    fn default() -> (r: Self)
        ensures
            r.fail_fast,
    {
        PdfSplitter::new()
    }
}

/// The name of the file for the chapter at position `index`: `chapter_`,
/// the position, and `.pdf`.
pub open spec fn file_name_text(index: usize) -> Seq<char> {
    "chapter_"@ + number_text(index as nat) + ".pdf"@
}

impl ChapterFile {
    /// The name under which this document is to be stored. It depends on the
    /// position of the chapter alone.
    pub fn file_name(&self) -> (r: String)
        ensures
            r@ == file_name_text(self.index),
    {
        let mut name = String::from_str("chapter_");
        append_number(&mut name, self.index as u64);
        name.append(".pdf");
        name
    }
}

impl SplitError {
    /// The message that describes this error.
    pub open spec fn message(self) -> Seq<char> {
        match self {
            SplitError::Chapter(e) => chapter_message(e),
            SplitError::Parse(e) => parse_message(e),
            SplitError::Structure(e) => structure_message(e),
        }
    }

    /// Describes this error.
    pub fn describe(&self) -> (r: String)
        ensures
            r@ == self.message(),
    {
        match self {
            SplitError::Chapter(e) => describe_chapter_error(*e),
            SplitError::Parse(e) => describe_parse_error(*e),
            SplitError::Structure(e) => describe_structural_error(*e),
        }
    }

    /// The result record of a run that ended with this error: nothing was
    /// written, and the message says why.
    pub fn result(&self) -> (r: ProcessResult)
        ensures
            !r.success,
            r.error_message matches Some(m) && m@ == self.message(),
            r.files_processed == 0,
            r.total_pages == 0,
    {
        ProcessResult::failed(self.describe(), 0, 0)
    }
}

impl SplitOutput {
    /// The result record of this run. The run succeeded where no chapter
    /// failed; otherwise the message names the first chapter that did.
    pub fn result(&self) -> (r: ProcessResult)
        ensures
            r.success == self@.success(),
            r.files_processed == self@.files_processed(),
            r.total_pages == self@.total_pages,
            r.success ==> r.error_message is None,
            !r.success ==> (r.error_message matches Some(m) && m@ == unwritten_message(
                self.failed[0],
            )),
    {
        let files: u32 = if self.files.len() > u32::MAX as usize {
            u32::MAX
        } else {
            self.files.len() as u32
        };
        if self.failed.len() == 0 {
            ProcessResult::completed(files, self.total_pages)
        } else {
            ProcessResult::failed(describe_unwritten(self.failed[0]), files, self.total_pages)
        }
    }
}

/// What has become of the files of a run so far: how many of them were
/// stored, and the chapter whose file was the first that could not be.
#[derive(Clone, Copy, Debug, PartialEq, Eq)]
pub struct Stored {
    pub files: u32,
    pub first_failed: Option<usize>,
}

impl Stored {
    /// The state once the file of the chapter at position `index` was
    /// stored, or could not be: a file that was stored is counted, and the
    /// first chapter whose file could not be stored is kept.
    pub open spec fn after(self, index: usize, ok: bool) -> Stored {
        if ok {
            Stored { files: clip(self.files as nat + 1), first_failed: self.first_failed }
        } else if self.first_failed is Some {
            self
        } else {
            Stored { files: self.files, first_failed: Some(index) }
        }
    }

    /// The state before any file was stored.
    pub fn new() -> (r: Stored)
        ensures
            r.files == 0,
            r.first_failed is None,
    {
        Stored { files: 0, first_failed: None }
    }

    /// Records what became of the file of the chapter at position `index`,
    /// and says whether the run ends here: it does where the file could
    /// not be stored and the first failure is to end the run.
    pub fn record(self, index: usize, ok: bool, fail_fast: bool) -> (r: (Stored, bool))
        ensures
            r.0 == self.after(index, ok),
            r.1 == (!ok && fail_fast),
    {
        if ok {
            let files: u32 = if self.files == u32::MAX {
                u32::MAX
            } else {
                self.files + 1
            };
            (Stored { files, first_failed: self.first_failed }, false)
        } else {
            match self.first_failed {
                Some(_) => (self, fail_fast),
                None => (Stored { files: self.files, first_failed: Some(index) }, fail_fast),
            }
        }
    }
}

impl SplitOutput {
    /// The result record of this run once its files were handed on to be
    /// stored. Where every file was stored, it is the record of the run.
    /// Where one could not be, the run failed: the message names the first
    /// such chapter, and the record counts the files that were stored.
    pub fn stored_result(&self, stored: Stored) -> (r: ProcessResult)
        ensures
            r.total_pages == self.total_pages,
            r.success <==> self.failed.len() == 0 && stored.first_failed is None,
            r.success ==> r.error_message is None,
            match stored.first_failed {
                Some(index) => r.files_processed == stored.files && (r.error_message matches Some(m)
                    && m@ == unstored_message(index)),
                None => r.files_processed == clip(self.files.len() as nat) && (self.failed.len() > 0
                    ==> (r.error_message matches Some(m) && m@ == unwritten_message(
                    self.failed[0],
                ))),
            },
    {
        match stored.first_failed {
            Some(index) => ProcessResult::failed(
                describe_unstored(index),
                stored.files,
                self.total_pages,
            ),
            None => self.result(),
        }
    }
}

} // verus!
