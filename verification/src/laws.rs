//! What holds of every run of the splitter.

use crate::chapter::{first_fault, first_out_of_range, ChapterDefinition};
use crate::closure::{closure, closure_is_closed, lemma_pigeonhole};
use crate::document::{
    chained_tables, find_last, parse_document, recovered_trailer, tables, DocumentView,
};
use crate::document_laws::written_is_read;
use crate::fixed_laws::written_is_fixed;
use crate::lexer::{lemma_skip_space_bounds, name_scan, skip_space, text};
use crate::lexer_laws::all_regular;
use crate::names::lemma_end_words;
use crate::object::{ObjectId, Value};
use crate::output_laws::{subset_is_sound, written_document};
use crate::pages::Page;
use crate::parse_laws::{as_read, parsed_is_as_read, read, read_end};
use crate::resplit_laws::{lemma_written_count, written_subset, written_subset_is_reached};
use crate::rewrite::{fits, output_values};
use crate::splitter::{
    chapter_bytes, chapter_pages, clip, output_version, run, sound, split, FileView, SplitError,
};
use crate::subset_laws::lemma_output_readable;
use crate::syntax::{parse_entries, parse_value, MAX_DEPTH};
use crate::table::MAX_OBJECT_NUMBER;
use crate::tree_laws::{
    lemma_subrange_well_formed, pages_well_formed, well_formed_page, well_formed_pages,
};
use crate::validator::{violations_of, ViolationKind};
use crate::writer::{document_bytes, writable};
use crate::xref::{ParseError, Trailer};
use vstd::prelude::*;
use vstd::set_lib::*;

verus! {

/// Whether page `p` lies in the range of the chapter.
pub open spec fn covers(chapter: ChapterDefinition, p: int) -> bool {
    chapter.start_page <= p <= chapter.end_page
}

/// Whether page `p` lies in the range of one of the first `upto` chapters.
pub open spec fn covered_by(chapters: Seq<ChapterDefinition>, upto: int, p: int) -> bool {
    exists|i: int| 0 <= i < upto && covers(#[trigger] chapters[i], p)
}

/// Whether the ranges of the chapters partition the pages from 1 to `n`:
/// every range lies within them, every page lies in a range, and no page
/// lies in two.
pub open spec fn partitions(chapters: Seq<ChapterDefinition>, n: int) -> bool {
    &&& forall|i: int|
        0 <= i < chapters.len() ==> 1 <= (#[trigger] chapters[i]).start_page
            <= chapters[i].end_page <= n
    &&& forall|p: int| 1 <= p <= n ==> #[trigger] covered_by(chapters, chapters.len() as int, p)
    &&& forall|i: int, j: int, p: int|
        0 <= i < chapters.len() && 0 <= j < chapters.len() && i != j && #[trigger] covers(
            chapters[i],
            p,
        ) ==> !#[trigger] covers(chapters[j], p)
}

/// The pages in the ranges of the first `upto` chapters, counted range by
/// range.
pub open spec fn pages_in(chapters: Seq<ChapterDefinition>, upto: int) -> int
    decreases upto,
{
    if upto <= 0 {
        0
    } else {
        pages_in(chapters, upto - 1) + chapters[upto - 1].page_count()
    }
}

/// The pages that lie in the range of one of the first `upto` chapters.
pub open spec fn covered(chapters: Seq<ChapterDefinition>, upto: int) -> Set<int> {
    Set::new(|p: int| covered_by(chapters, upto, p))
}

/// Ranges that do not overlap cover as many pages as they hold together.
pub proof fn lemma_covered(chapters: Seq<ChapterDefinition>, n: int, upto: int)
    requires
        partitions(chapters, n),
        0 <= upto <= chapters.len(),
    ensures
        covered(chapters, upto).finite(),
        covered(chapters, upto).len() == pages_in(chapters, upto),
    decreases upto,
{
    if upto == 0 {
        assert(covered(chapters, 0) =~= Set::empty());
    } else {
        lemma_covered(chapters, n, upto - 1);
        let last = chapters[upto - 1];
        let range = set_int_range(last.start_page as int, last.end_page + 1);
        let before = covered(chapters, upto - 1);
        lemma_int_range(last.start_page as int, last.end_page + 1);
        assert forall|p: int| covered(chapters, upto).contains(p) implies (before + range).contains(
            p,
        ) by {
            let i = choose|i: int| 0 <= i < upto && covers(#[trigger] chapters[i], p);
            if i < upto - 1 {
                assert(covers(chapters[i], p));
            }
        }
        assert forall|p: int| (before + range).contains(p) implies covered(chapters, upto).contains(
            p,
        ) by {
            if before.contains(p) {
                let i = choose|i: int| 0 <= i < upto - 1 && covers(#[trigger] chapters[i], p);
                assert(covers(chapters[i], p));
            } else {
                assert(covers(chapters[upto - 1], p));
            }
        }
        assert(covered(chapters, upto) =~= before + range);
        assert(before.disjoint(range)) by {
            assert forall|p: int| before.contains(p) implies !range.contains(p) by {
                let i = choose|i: int| 0 <= i < upto - 1 && covers(#[trigger] chapters[i], p);
                assert(covers(chapters[i], p));
                assert(!covers(chapters[upto - 1], p));
            }
        }
        lemma_set_disjoint_lens(before, range);
    }
}

/// The ranges of chapters that partition the pages from 1 to `n` hold `n`
/// pages together.
pub proof fn partition_counts(chapters: Seq<ChapterDefinition>, n: int)
    requires
        n >= 0,
        partitions(chapters, n),
    ensures
        pages_in(chapters, chapters.len() as int) == n,
{
    lemma_covered(chapters, n, chapters.len() as int);
    lemma_int_range(1, n + 1);
    assert forall|p: int| covered(chapters, chapters.len() as int).contains(p) implies set_int_range(
        1,
        n + 1,
    ).contains(p) by {
        let i = choose|i: int| 0 <= i < chapters.len() && covers(#[trigger] chapters[i], p);
        assert(1 <= chapters[i].start_page);
    }
    assert(covered(chapters, chapters.len() as int) =~= set_int_range(1, n + 1));
}

/// The pages of the files, counted file by file.
pub open spec fn pages_written(files: Seq<FileView>) -> int
    decreases files.len(),
{
    if files.len() == 0 {
        0
    } else {
        pages_written(files.drop_last()) + files.last().page_count
    }
}

/// Where no definition breaks a rule, every definition is valid.
pub proof fn lemma_all_valid(chapters: Seq<ChapterDefinition>, from: int)
    requires
        0 <= from,
        first_fault(chapters, from) is None,
    ensures
        forall|i: int| from <= i < chapters.len() ==> (#[trigger] chapters[i]).valid(),
    decreases chapters.len() - from,
{
    if from < chapters.len() {
        lemma_all_valid(chapters, from + 1);
    }
}

/// A definition that breaks a rule is found.
pub proof fn lemma_fault_found(chapters: Seq<ChapterDefinition>, from: int, at: int)
    requires
        0 <= from <= at < chapters.len() <= usize::MAX,
        !chapters[at].valid(),
    ensures
        first_fault(chapters, from) matches Some(e) && from < e.index <= at + 1,
    decreases at - from,
{
    if from < at && chapters[from].valid() {
        lemma_fault_found(chapters, from + 1, at);
    }
}

/// A run without failures writes a file for every chapter, with as many
/// pages as the range of the chapter holds.
pub proof fn lemma_run_complete(
    doc: DocumentView,
    pages: Seq<Page>,
    chapters: Seq<ChapterDefinition>,
    fail_fast: bool,
    at: int,
    files: Seq<FileView>,
    failed: Seq<usize>,
)
    requires
        0 <= at <= chapters.len(),
        forall|i: int| 0 <= i < chapters.len() ==> (#[trigger] chapters[i]).valid(),
    ensures
        run(doc, pages, chapters, fail_fast, at, files, failed).1.len() >= failed.len(),
        run(doc, pages, chapters, fail_fast, at, files, failed).1.len() == 0 ==> {
            let written = run(doc, pages, chapters, fail_fast, at, files, failed).0;
            &&& written.len() == files.len() + chapters.len() - at
            &&& pages_written(written) == pages_written(files) + pages_in(
                chapters,
                chapters.len() as int,
            ) - pages_in(chapters, at)
        },
    decreases chapters.len() - at,
{
    if at < chapters.len() {
        assert(chapters[at].valid());
        match chapter_bytes(doc, pages, chapters[at]) {
            Some(bytes) => {
                let file = FileView {
                    index: (at + 1) as usize,
                    page_count: chapters[at].page_count() as u32,
                    bytes,
                };
                assert(files.push(file).drop_last() =~= files);
                lemma_run_complete(doc, pages, chapters, fail_fast, at + 1, files.push(file), failed);
            },
            None => {
                if !fail_fast {
                    lemma_run_complete(
                        doc,
                        pages,
                        chapters,
                        fail_fast,
                        at + 1,
                        files,
                        failed.push((at + 1) as usize),
                    );
                }
            },
        }
    }
}

/// Chapters that partition the pages of a document are split into files
/// that hold as many pages together as the document has: where a run
/// succeeds for all chapters, there is one file for each chapter, and the
/// page counts of the files add up to the number of pages of the source.
pub proof fn split_partition(b: Seq<u8>, chapters: Seq<ChapterDefinition>, fail_fast: bool)
    requires
        split(b, chapters, fail_fast) is Ok,
        split(b, chapters, fail_fast)->Ok_0.failed.len() == 0,
        partitions(chapters, split(b, chapters, fail_fast)->Ok_0.total_pages as int),
    ensures
        split(b, chapters, fail_fast)->Ok_0.files.len() == chapters.len(),
        pages_written(split(b, chapters, fail_fast)->Ok_0.files) == split(
            b,
            chapters,
            fail_fast,
        )->Ok_0.total_pages,
{
    let out = split(b, chapters, fail_fast)->Ok_0;
    let doc = parse_document(b)->Ok_0;
    let pages = doc.pages()->Ok_0;
    lemma_all_valid(chapters, 0);
    lemma_run_complete(doc, pages, chapters, fail_fast, 0, Seq::empty(), Seq::empty());
    partition_counts(chapters, out.total_pages as int);
}

/// A single chapter that spans the whole document gives one file with as
/// many pages as the document has, where the run succeeds.
pub proof fn split_whole(b: Seq<u8>, chapter: ChapterDefinition, fail_fast: bool)
    requires
        split(b, seq![chapter], fail_fast) is Ok,
        split(b, seq![chapter], fail_fast)->Ok_0.failed.len() == 0,
        chapter.start_page == 1,
        chapter.end_page == split(b, seq![chapter], fail_fast)->Ok_0.total_pages,
    ensures
        split(b, seq![chapter], fail_fast)->Ok_0.files.len() == 1,
        split(b, seq![chapter], fail_fast)->Ok_0.files[0].page_count == split(
            b,
            seq![chapter],
            fail_fast,
        )->Ok_0.total_pages,
{
    let chapters = seq![chapter];
    let out = split(b, chapters, fail_fast)->Ok_0;
    assert(partitions(chapters, out.total_pages as int)) by {
        assert forall|p: int| 1 <= p <= out.total_pages implies #[trigger] covered_by(
            chapters,
            chapters.len() as int,
            p,
        ) by {
            assert(covers(chapters[0], p));
        }
    }
    split_partition(b, chapters, fail_fast);
    assert(out.files.drop_last().len() == 0);
    assert(pages_written(out.files.drop_last()) == 0);
}

/// A chapter definition that breaks a rule makes the splitter reject the
/// whole request, whatever the bytes of the document are: no file is
/// produced, and the error names a definition at or before that one.
pub proof fn invalid_chapter_rejected(
    b: Seq<u8>,
    chapters: Seq<ChapterDefinition>,
    fail_fast: bool,
    at: int,
)
    requires
        0 <= at < chapters.len() <= usize::MAX,
        !chapters[at].valid(),
    ensures
        split(b, chapters, fail_fast) matches Err(SplitError::Chapter(e)) && 1 <= e.index <= at
            + 1,
{
    lemma_fault_found(chapters, 0, at);
}

/// The document of a chapter is sound. Where the document of a chapter can
/// be written, its bytes are those of a document that has nothing wrong
/// with it and whose pages are as many as the range of the chapter holds.
pub proof fn chapter_is_sound(doc: DocumentView, chapter: ChapterDefinition)
    requires
        doc.pages() is Ok,
        chapter.valid(),
        chapter.end_page <= doc.pages()->Ok_0.len(),
        chapter_bytes(doc, doc.pages()->Ok_0, chapter) is Some,
    ensures
        ({
            let selected = chapter_pages(doc.pages()->Ok_0, chapter);
            let values = output_values(doc, selected, doc.extract(selected));
            let written = written_document(output_version(doc), values);
            &&& chapter_bytes(doc, doc.pages()->Ok_0, chapter) == Some(
                document_bytes(output_version(doc), values),
            )
            &&& written.pages() is Ok
            &&& written.pages()->Ok_0.len() == chapter.page_count()
            &&& written.violations() =~= Seq::empty()
        }),
{
    reveal(chapter_bytes);
    let pages = doc.pages()->Ok_0;
    pages_well_formed(doc);
    lemma_subrange_well_formed(doc, pages, chapter.start_page - 1, chapter.end_page as int);
    subset_is_sound(doc, chapter_pages(pages, chapter), output_version(doc));
}

/// Where no range ends behind the last page, every range ends within the
/// pages.
pub proof fn lemma_all_in_range(chapters: Seq<ChapterDefinition>, total: int, from: int)
    requires
        0 <= from,
        first_out_of_range(chapters, total, from) is None,
    ensures
        forall|i: int| from <= i < chapters.len() ==> (#[trigger] chapters[i]).end_page <= total,
    decreases chapters.len() - from,
{
    if from < chapters.len() {
        lemma_all_in_range(chapters, total, from + 1);
    }
}

/// The version that the new documents name is a word.
pub proof fn lemma_version_regular(doc: DocumentView)
    requires
        as_read(doc),
    ensures
        all_regular(output_version(doc)),
{
    lemma_end_words();
}

/// What is written for a chapter, where it can be written.
pub proof fn lemma_chapter_bytes(doc: DocumentView, pages: Seq<Page>, chapter: ChapterDefinition)
    requires
        chapter_bytes(doc, pages, chapter) is Some,
    ensures
        ({
            let selected = chapter_pages(pages, chapter);
            let values = output_values(doc, selected, doc.extract(selected));
            &&& fits(selected, doc.extract(selected))
            &&& writable(output_version(doc), values)
            &&& chapter_bytes(doc, pages, chapter) == Some(
                document_bytes(output_version(doc), values),
            )
        }),
{
    reveal(chapter_bytes);
}

/// What is written for a subset of a document as it is read is read back
/// as a document with nothing wrong, and with as many pages as the subset
/// was made for.
pub proof fn subset_is_read_back(doc: DocumentView, selected: Seq<Page>, version: Seq<u8>)
    requires
        as_read(doc),
        well_formed_pages(doc, selected),
        selected.len() >= 1,
        fits(selected, doc.extract(selected)),
        all_regular(version),
        writable(version, output_values(doc, selected, doc.extract(selected))),
        document_bytes(version, output_values(doc, selected, doc.extract(selected))).len()
            <= usize::MAX,
    ensures
        ({
            let bytes = document_bytes(
                version,
                output_values(doc, selected, doc.extract(selected)),
            );
            &&& parse_document(bytes) is Ok
            &&& parse_document(bytes)->Ok_0.pages() is Ok
            &&& parse_document(bytes)->Ok_0.pages()->Ok_0.len() == selected.len()
            &&& parse_document(bytes)->Ok_0.violations() =~= Seq::empty()
        }),
{
    lemma_output_readable(doc, selected, version);
    written_is_read(version, output_values(doc, selected, doc.extract(selected)));
    subset_is_sound(doc, selected, version);
}

/// The document of a chapter is read back. Where a chapter of a document
/// that was read is written, what is written is read as a document with
/// nothing wrong: the validator finds no violation in the bytes, and the
/// pages that are read from them are as many as the range of the chapter
/// holds.
pub proof fn chapter_is_read_back(source: Seq<u8>, chapter: ChapterDefinition)
    requires
        parse_document(source) is Ok,
        parse_document(source)->Ok_0.pages() is Ok,
        1 <= chapter.start_page <= chapter.end_page,
        chapter.end_page <= parse_document(source)->Ok_0.pages()->Ok_0.len(),
        chapter_bytes(
            parse_document(source)->Ok_0,
            parse_document(source)->Ok_0.pages()->Ok_0,
            chapter,
        ) is Some,
        chapter_bytes(
            parse_document(source)->Ok_0,
            parse_document(source)->Ok_0.pages()->Ok_0,
            chapter,
        )->0.len() <= usize::MAX,
    ensures
        ({
            let doc = parse_document(source)->Ok_0;
            let bytes = chapter_bytes(doc, doc.pages()->Ok_0, chapter)->0;
            &&& parse_document(bytes) is Ok
            &&& parse_document(bytes)->Ok_0.pages() is Ok
            &&& parse_document(bytes)->Ok_0.pages()->Ok_0.len() == chapter.page_count()
            &&& violations_of(bytes) =~= Seq::empty()
        }),
{
    let doc = parse_document(source)->Ok_0;
    let pages = doc.pages()->Ok_0;
    let selected = chapter_pages(pages, chapter);
    let version = output_version(doc);
    parsed_is_as_read(source);
    pages_well_formed(doc);
    lemma_subrange_well_formed(doc, pages, chapter.start_page - 1, chapter.end_page as int);
    lemma_version_regular(doc);
    lemma_chapter_bytes(doc, pages, chapter);
    subset_is_read_back(doc, selected, version);
}

/// Every file that a run wrote is the document of a chapter: it holds the
/// bytes that are written for that chapter, and it counts the pages of the
/// range of that chapter.
pub proof fn lemma_run_files(
    doc: DocumentView,
    pages: Seq<Page>,
    chapters: Seq<ChapterDefinition>,
    fail_fast: bool,
    at: int,
    files: Seq<FileView>,
    failed: Seq<usize>,
    i: int,
)
    requires
        0 <= at <= chapters.len(),
        files.len() <= i < run(doc, pages, chapters, fail_fast, at, files, failed).0.len(),
    ensures
        exists|j: int|
            at <= j < chapters.len() && chapter_bytes(doc, pages, #[trigger] chapters[j]) == Some(
                run(doc, pages, chapters, fail_fast, at, files, failed).0[i].bytes,
            ) && run(doc, pages, chapters, fail_fast, at, files, failed).0[i].page_count
                == chapters[j].page_count() as u32,
    decreases chapters.len() - at,
{
    if at < chapters.len() {
        match chapter_bytes(doc, pages, chapters[at]) {
            Some(bytes) => {
                let file = FileView {
                    index: (at + 1) as usize,
                    page_count: chapters[at].page_count() as u32,
                    bytes,
                };
                if i == files.len() {
                    lemma_run_keeps(doc, pages, chapters, fail_fast, at + 1, files.push(file), failed);
                    assert(files.push(file)[i] == file);
                    assert(chapter_bytes(doc, pages, chapters[at]) == Some(file.bytes));
                } else {
                    lemma_run_files(
                        doc,
                        pages,
                        chapters,
                        fail_fast,
                        at + 1,
                        files.push(file),
                        failed,
                        i,
                    );
                }
            },
            None => {
                if !fail_fast {
                    lemma_run_files(
                        doc,
                        pages,
                        chapters,
                        fail_fast,
                        at + 1,
                        files,
                        failed.push((at + 1) as usize),
                        i,
                    );
                }
            },
        }
    }
}

/// A run keeps the files that were written before it.
pub proof fn lemma_run_keeps(
    doc: DocumentView,
    pages: Seq<Page>,
    chapters: Seq<ChapterDefinition>,
    fail_fast: bool,
    at: int,
    files: Seq<FileView>,
    failed: Seq<usize>,
)
    requires
        0 <= at <= chapters.len(),
    ensures
        run(doc, pages, chapters, fail_fast, at, files, failed).0.len() >= files.len(),
        forall|k: int|
            0 <= k < files.len() ==> run(doc, pages, chapters, fail_fast, at, files, failed).0[k]
                == #[trigger] files[k],
    decreases chapters.len() - at,
{
    if at < chapters.len() {
        match chapter_bytes(doc, pages, chapters[at]) {
            Some(bytes) => {
                let file = FileView {
                    index: (at + 1) as usize,
                    page_count: chapters[at].page_count() as u32,
                    bytes,
                };
                lemma_run_keeps(doc, pages, chapters, fail_fast, at + 1, files.push(file), failed);
                assert forall|k: int| 0 <= k < files.len() implies run(
                    doc,
                    pages,
                    chapters,
                    fail_fast,
                    at,
                    files,
                    failed,
                ).0[k] == #[trigger] files[k] by {
                    assert(files.push(file)[k] == files[k]);
                }
            },
            None => {
                if !fail_fast {
                    lemma_run_keeps(
                        doc,
                        pages,
                        chapters,
                        fail_fast,
                        at + 1,
                        files,
                        failed.push((at + 1) as usize),
                    );
                }
            },
        }
    }
}

/// Every file that the splitter hands out is a sound document. What is
/// read from its bytes has nothing wrong, and it has as many pages as the
/// file says.
pub proof fn split_files_are_sound(
    b: Seq<u8>,
    chapters: Seq<ChapterDefinition>,
    fail_fast: bool,
    i: int,
)
    requires
        split(b, chapters, fail_fast) is Ok,
        0 <= i < split(b, chapters, fail_fast)->Ok_0.files.len(),
        split(b, chapters, fail_fast)->Ok_0.files[i].bytes.len() <= usize::MAX,
    ensures
        ({
            let file = split(b, chapters, fail_fast)->Ok_0.files[i];
            &&& violations_of(file.bytes) =~= Seq::empty()
            &&& parse_document(file.bytes) is Ok
            &&& parse_document(file.bytes)->Ok_0.pages() is Ok
            &&& parse_document(file.bytes)->Ok_0.pages()->Ok_0.len() == file.page_count
        }),
{
    let doc = parse_document(b)->Ok_0;
    let pages = doc.pages()->Ok_0;
    lemma_all_valid(chapters, 0);
    lemma_all_in_range(chapters, pages.len() as int, 0);
    lemma_run_files(doc, pages, chapters, fail_fast, 0, Seq::empty(), Seq::empty(), i);
    let files = run(doc, pages, chapters, fail_fast, 0, Seq::empty(), Seq::empty()).0;
    let j = choose|j: int|
        0 <= j < chapters.len() && chapter_bytes(doc, pages, #[trigger] chapters[j]) == Some(
            files[i].bytes,
        ) && files[i].page_count == chapters[j].page_count() as u32;
    assert(chapters[j].valid());
    chapter_is_read_back(b, chapters[j]);
}

/// How a run counts its chapters: where every chapter is tried, each one
/// is written or recorded as failed; where the first failure ends the run,
/// at most one more chapter is recorded as failed.
pub proof fn lemma_run_counts(
    doc: DocumentView,
    pages: Seq<Page>,
    chapters: Seq<ChapterDefinition>,
    fail_fast: bool,
    at: int,
    files: Seq<FileView>,
    failed: Seq<usize>,
)
    requires
        0 <= at <= chapters.len(),
    ensures
        !fail_fast ==> run(doc, pages, chapters, fail_fast, at, files, failed).0.len() + run(
            doc,
            pages,
            chapters,
            fail_fast,
            at,
            files,
            failed,
        ).1.len() == files.len() + failed.len() + chapters.len() - at,
        fail_fast ==> run(doc, pages, chapters, fail_fast, at, files, failed).1.len()
            <= failed.len() + 1,
    decreases chapters.len() - at,
{
    if at < chapters.len() {
        match chapter_bytes(doc, pages, chapters[at]) {
            Some(bytes) => {
                let file = FileView {
                    index: (at + 1) as usize,
                    page_count: chapters[at].page_count() as u32,
                    bytes,
                };
                lemma_run_counts(doc, pages, chapters, fail_fast, at + 1, files.push(file), failed);
            },
            None => {
                if !fail_fast {
                    lemma_run_counts(
                        doc,
                        pages,
                        chapters,
                        fail_fast,
                        at + 1,
                        files,
                        failed.push((at + 1) as usize),
                    );
                }
            },
        }
    }
}

/// The two policies on chapters that cannot be written. Where every
/// chapter is tried, each chapter gives a file or is recorded as failed.
/// Where the first failure ends the run, at most one chapter is recorded
/// as failed, and without a failure each chapter gives a file.
pub proof fn split_follows_policy(b: Seq<u8>, chapters: Seq<ChapterDefinition>, fail_fast: bool)
    requires
        split(b, chapters, fail_fast) is Ok,
    ensures
        !fail_fast ==> split(b, chapters, fail_fast)->Ok_0.files.len() + split(
            b,
            chapters,
            fail_fast,
        )->Ok_0.failed.len() == chapters.len(),
        fail_fast ==> split(b, chapters, fail_fast)->Ok_0.failed.len() <= 1,
        split(b, chapters, fail_fast)->Ok_0.failed.len() == 0 ==> split(
            b,
            chapters,
            fail_fast,
        )->Ok_0.files.len() == chapters.len(),
{
    let doc = parse_document(b)->Ok_0;
    let pages = doc.pages()->Ok_0;
    lemma_all_valid(chapters, 0);
    lemma_run_counts(doc, pages, chapters, fail_fast, 0, Seq::empty(), Seq::empty());
    lemma_run_complete(doc, pages, chapters, fail_fast, 0, Seq::empty(), Seq::empty());
}

/// Every file that the splitter hands out is sound.
pub proof fn split_is_sound(b: Seq<u8>, chapters: Seq<ChapterDefinition>, fail_fast: bool)
    requires
        split(b, chapters, fail_fast) is Ok,
        forall|i: int|
            0 <= i < split(b, chapters, fail_fast)->Ok_0.files.len() ==> (#[trigger] split(
                b,
                chapters,
                fail_fast,
            )->Ok_0.files[i]).bytes.len() <= usize::MAX,
    ensures
        forall|i: int|
            0 <= i < split(b, chapters, fail_fast)->Ok_0.files.len() ==> sound(
                #[trigger] split(b, chapters, fail_fast)->Ok_0.files[i],
            ),
{
    reveal(sound);
    let files = split(b, chapters, fail_fast)->Ok_0.files;
    assert forall|i: int| 0 <= i < files.len() implies sound(#[trigger] files[i]) by {
        split_files_are_sound(b, chapters, fail_fast, i);
    }
}

/// A list of chapter definitions is rejected exactly where one of them
/// has a page number 0, a range that starts behind its end, or an empty
/// title.
pub proof fn chapters_rejected_exactly(chapters: Seq<ChapterDefinition>, from: int)
    requires
        0 <= from,
    ensures
        first_fault(chapters, from) is Some <==> exists|i: int|
            from <= i < chapters.len() && ((#[trigger] chapters[i]).start_page == 0
                || chapters[i].end_page == 0 || chapters[i].start_page > chapters[i].end_page
                || chapters[i].title@.len() == 0),
    decreases chapters.len() - from,
{
    if from < chapters.len() {
        chapters_rejected_exactly(chapters, from + 1);
        if chapters[from].fault() is None {
            if first_fault(chapters, from + 1) is Some {
                let i = choose|i: int|
                    from + 1 <= i < chapters.len() && ((#[trigger] chapters[i]).start_page == 0
                        || chapters[i].end_page == 0 || chapters[i].start_page
                        > chapters[i].end_page || chapters[i].title@.len() == 0);
                assert(from <= i);
            }
        }
    }
}

/// Valid definitions are not rejected.
pub proof fn lemma_none_rejected(chapters: Seq<ChapterDefinition>, from: int)
    requires
        0 <= from,
        forall|i: int| 0 <= i < chapters.len() ==> (#[trigger] chapters[i]).valid(),
    ensures
        first_fault(chapters, from) is None,
    decreases chapters.len() - from,
{
    if from < chapters.len() {
        lemma_none_rejected(chapters, from + 1);
    }
}

/// Ranges that end within the pages are not rejected.
pub proof fn lemma_none_out_of_range(chapters: Seq<ChapterDefinition>, total: int, from: int)
    requires
        0 <= from,
        forall|i: int| 0 <= i < chapters.len() ==> (#[trigger] chapters[i]).end_page <= total,
    ensures
        first_out_of_range(chapters, total, from) is None,
    decreases chapters.len() - from,
{
    if from < chapters.len() {
        lemma_none_out_of_range(chapters, total, from + 1);
    }
}

/// A run in which every chapter can be written records no failure.
pub proof fn lemma_run_succeeds(
    doc: DocumentView,
    pages: Seq<Page>,
    chapters: Seq<ChapterDefinition>,
    fail_fast: bool,
    at: int,
    files: Seq<FileView>,
    failed: Seq<usize>,
)
    requires
        0 <= at <= chapters.len(),
        forall|i: int|
            0 <= i < chapters.len() ==> chapter_bytes(doc, pages, #[trigger] chapters[i]) is Some,
    ensures
        run(doc, pages, chapters, fail_fast, at, files, failed).1 == failed,
    decreases chapters.len() - at,
{
    if at < chapters.len() {
        let bytes = chapter_bytes(doc, pages, chapters[at])->0;
        let file = FileView {
            index: (at + 1) as usize,
            page_count: chapters[at].page_count() as u32,
            bytes,
        };
        lemma_run_succeeds(doc, pages, chapters, fail_fast, at + 1, files.push(file), failed);
    }
}

/// Whether the document of a chapter stays within the limits of the
/// format: its objects can be numbered, and its bytes can be addressed by
/// the table.
pub open spec fn within_limits(doc: DocumentView, pages: Seq<Page>, chapter: ChapterDefinition) -> bool {
    let selected = chapter_pages(pages, chapter);
    fits(selected, doc.extract(selected)) && writable(
        output_version(doc),
        output_values(doc, selected, doc.extract(selected)),
    )
}

/// The objects of a chapter can be numbered where those of the source
/// can, with two numbers to spare for the new catalog and the new page
/// tree node: a subset holds no object twice, and no page twice.
pub proof fn small_document_fits(doc: DocumentView, selected: Seq<Page>)
    requires
        well_formed_pages(doc, selected),
        doc.objects.len() + 2 <= MAX_OBJECT_NUMBER,
    ensures
        fits(selected, doc.extract(selected)),
{
    let limit = doc.objects.len();
    closure_is_closed(doc.graph(), doc.roots(selected));
    lemma_pigeonhole(doc.extract(selected), limit);
    let numbers = Seq::new(selected.len(), |i: int| selected[i].id.number as usize);
    assert forall|i: int, j: int|
        0 <= i < numbers.len() && 0 <= j < numbers.len() && i != j implies numbers[i]
        != numbers[j] by {
        if i < j {
            assert(selected[i].id.number != selected[j].id.number);
        } else {
            assert(selected[j].id.number != selected[i].id.number);
        }
    }
    assert forall|k: int| 0 <= k < numbers.len() implies #[trigger] numbers[k] < limit by {
        assert(well_formed_page(doc, selected[k]));
    }
    lemma_pigeonhole(numbers, limit);
}

/// When the splitter succeeds for every chapter. Where the source is read
/// and yields its pages, every chapter definition is valid and ends within
/// the pages, and the document of every chapter stays within the limits of
/// the format, the split succeeds, no chapter fails, and every chapter
/// gives a file: the result record says success, and it names the number
/// of the chapters and of the pages of the source.
pub proof fn split_succeeds(b: Seq<u8>, chapters: Seq<ChapterDefinition>, fail_fast: bool)
    requires
        parse_document(b) is Ok,
        parse_document(b)->Ok_0.pages() is Ok,
        forall|i: int| 0 <= i < chapters.len() ==> (#[trigger] chapters[i]).valid(),
        forall|i: int|
            0 <= i < chapters.len() ==> (#[trigger] chapters[i]).end_page <= parse_document(
                b,
            )->Ok_0.pages()->Ok_0.len(),
        forall|i: int|
            0 <= i < chapters.len() ==> within_limits(
                parse_document(b)->Ok_0,
                parse_document(b)->Ok_0.pages()->Ok_0,
                #[trigger] chapters[i],
            ),
    ensures
        split(b, chapters, fail_fast) is Ok,
        split(b, chapters, fail_fast)->Ok_0.failed.len() == 0,
        split(b, chapters, fail_fast)->Ok_0.files.len() == chapters.len(),
        split(b, chapters, fail_fast)->Ok_0.success(),
        split(b, chapters, fail_fast)->Ok_0.files_processed() == clip(chapters.len()),
        split(b, chapters, fail_fast)->Ok_0.total_pages == clip(
            parse_document(b)->Ok_0.pages()->Ok_0.len(),
        ),
{
    let doc = parse_document(b)->Ok_0;
    let pages = doc.pages()->Ok_0;
    lemma_none_rejected(chapters, 0);
    lemma_none_out_of_range(chapters, pages.len() as int, 0);
    assert forall|i: int| 0 <= i < chapters.len() implies chapter_bytes(
        doc,
        pages,
        #[trigger] chapters[i],
    ) is Some by {
        reveal(chapter_bytes);
        assert(within_limits(doc, pages, chapters[i]));
    }
    lemma_run_succeeds(doc, pages, chapters, fail_fast, 0, Seq::empty(), Seq::empty());
    lemma_run_complete(doc, pages, chapters, fail_fast, 0, Seq::empty(), Seq::empty());
}

/// Chapters that partition the pages of a document are split completely.
/// Where the source is read and yields `n` pages, the chapters are valid
/// and partition the pages from 1 to `n`, and the document of every chapter
/// stays within the limits of the format, the split succeeds with one file
/// for each chapter, and the page counts of the files add up to `n`.
pub proof fn split_partition_complete(
    b: Seq<u8>,
    chapters: Seq<ChapterDefinition>,
    fail_fast: bool,
)
    requires
        parse_document(b) is Ok,
        parse_document(b)->Ok_0.pages() is Ok,
        forall|i: int| 0 <= i < chapters.len() ==> (#[trigger] chapters[i]).valid(),
        partitions(chapters, parse_document(b)->Ok_0.pages()->Ok_0.len() as int),
        forall|i: int|
            0 <= i < chapters.len() ==> within_limits(
                parse_document(b)->Ok_0,
                parse_document(b)->Ok_0.pages()->Ok_0,
                #[trigger] chapters[i],
            ),
    ensures
        split(b, chapters, fail_fast) is Ok,
        split(b, chapters, fail_fast)->Ok_0.failed.len() == 0,
        split(b, chapters, fail_fast)->Ok_0.files.len() == chapters.len(),
        pages_written(split(b, chapters, fail_fast)->Ok_0.files) == parse_document(
            b,
        )->Ok_0.pages()->Ok_0.len(),
        split(b, chapters, fail_fast)->Ok_0.total_pages == parse_document(
            b,
        )->Ok_0.pages()->Ok_0.len(),
        split(b, chapters, fail_fast)->Ok_0.success(),
        split(b, chapters, fail_fast)->Ok_0.files_processed() == clip(chapters.len()),
{
    let doc = parse_document(b)->Ok_0;
    let n = doc.pages()->Ok_0.len() as int;
    split_succeeds(b, chapters, fail_fast);
    if n >= 1 {
        assert(covered_by(chapters, chapters.len() as int, n));
        let i = choose|i: int| 0 <= i < chapters.len() && covers(#[trigger] chapters[i], n);
        assert(n <= chapters[i].end_page);
    }
    split_partition(b, chapters, fail_fast);
}

/// A single chapter over all pages of a document is split completely.
/// Where the source is read and yields `n` pages, the chapter is valid and
/// runs from page 1 to page `n`, and its document stays within the limits
/// of the format, the split succeeds with one file; the file counts `n`
/// pages, and the validator finds nothing wrong with its bytes.
pub proof fn split_whole_complete(b: Seq<u8>, chapter: ChapterDefinition, fail_fast: bool)
    requires
        parse_document(b) is Ok,
        parse_document(b)->Ok_0.pages() is Ok,
        chapter.valid(),
        chapter.start_page == 1,
        chapter.end_page == parse_document(b)->Ok_0.pages()->Ok_0.len(),
        within_limits(parse_document(b)->Ok_0, parse_document(b)->Ok_0.pages()->Ok_0, chapter),
        chapter_bytes(parse_document(b)->Ok_0, parse_document(b)->Ok_0.pages()->Ok_0, chapter)
            matches Some(bytes) ==> bytes.len() <= usize::MAX,
    ensures
        split(b, seq![chapter], fail_fast) is Ok,
        split(b, seq![chapter], fail_fast)->Ok_0.failed.len() == 0,
        split(b, seq![chapter], fail_fast)->Ok_0.files.len() == 1,
        split(b, seq![chapter], fail_fast)->Ok_0.files[0].page_count == parse_document(
            b,
        )->Ok_0.pages()->Ok_0.len(),
        violations_of(split(b, seq![chapter], fail_fast)->Ok_0.files[0].bytes) =~= Seq::empty(),
        split(b, seq![chapter], fail_fast)->Ok_0.success(),
        split(b, seq![chapter], fail_fast)->Ok_0.files_processed() == 1,
        split(b, seq![chapter], fail_fast)->Ok_0.total_pages == parse_document(
            b,
        )->Ok_0.pages()->Ok_0.len(),
{
    let doc = parse_document(b)->Ok_0;
    let pages = doc.pages()->Ok_0;
    let chapters = seq![chapter];
    assert(chapters[0] == chapter);
    split_succeeds(b, chapters, fail_fast);
    split_whole(b, chapter, fail_fast);
    lemma_run_files(doc, pages, chapters, fail_fast, 0, Seq::empty(), Seq::empty(), 0);
    split_files_are_sound(b, chapters, fail_fast, 0);
}

/// The trailer that reading the tables gave, where it gave one.
pub open spec fn trailer_read(b: Seq<u8>) -> Option<Trailer> {
    match tables(b) {
        Ok((_, trailer, _)) => Some(trailer),
        Err(_) => None,
    }
}

/// Where the chain of cross-reference sections cannot be read, the
/// trailer of a document is the one that is read from behind the last
/// `trailer`.
pub proof fn lemma_trailer_recovered(b: Seq<u8>)
    requires
        chained_tables(b) is Err,
    ensures
        trailer_read(b) matches Some(trailer) ==> trailer == recovered_trailer(b).0,
{
    reveal(tables);
}

/// A document without a root is reported to have none.
pub proof fn lemma_no_root(doc: DocumentView)
    requires
        doc.trailer.root is None,
    ensures
        exists|i: int|
            0 <= i < doc.violations().len() && (#[trigger] doc.violations()[i]).kind
                == ViolationKind::UnresolvableRoot,
{
    let at = doc.header_violations().len() as int;
    assert(doc.tree_violations().len() == 1);
    assert(doc.tree_violations()[0].kind == ViolationKind::UnresolvableRoot);
    assert(doc.violations()[at] == doc.tree_violations()[0]);
}

/// Bytes from which no root can be read are reported. Where the chain of
/// cross-reference sections cannot be read and no root is read from behind
/// the last `trailer`, as in a document whose end was cut off within its
/// trailer, the validator reports that the root cannot be resolved.
pub proof fn missing_root_is_reported(b: Seq<u8>)
    requires
        chained_tables(b) is Err,
        recovered_trailer(b).0.root is None,
    ensures
        exists|i: int|
            0 <= i < violations_of(b).len() && (#[trigger] violations_of(b)[i]).kind
                == ViolationKind::UnresolvableRoot,
{
    let found = violations_of(b);
    lemma_trailer_recovered(b);
    match parse_document(b) {
        Ok(doc) => {
            assert(trailer_read(b) == Some(doc.trailer));
            lemma_no_root(doc);
        },
        Err(e) => {
            let at = found.len() - 1;
            assert(found[at].kind == ViolationKind::UnresolvableRoot);
        },
    }
}

/// Whether `word` is written somewhere in `b`.
pub open spec fn written_in(b: Seq<u8>, word: Seq<u8>) -> bool {
    exists|k: int|
        0 <= k && k + word.len() <= b.len() && #[trigger] b.subrange(k, k + word.len()) == word
}

/// A word that is written nowhere is found nowhere.
pub proof fn lemma_word_absent(b: Seq<u8>, pos: int, word: Seq<u8>)
    requires
        !written_in(b, word),
    ensures
        find_last(b, pos, word) == -1,
    decreases pos + 1,
{
    if pos >= 0 {
        lemma_word_absent(b, pos - 1, word);
    }
}

/// No chain of cross-reference sections is read from bytes that hold no
/// `startxref`.
pub proof fn lemma_no_chain(b: Seq<u8>)
    requires
        !written_in(b, text("startxref")),
    ensures
        chained_tables(b) is Err,
{
    lemma_word_absent(b, b.len() as int, text("startxref"));
}

/// A document that was cut off ahead of its trailer is reported. Bytes
/// that hold neither the word `startxref` nor the word `trailer` make the
/// validator report that the root cannot be resolved.
pub proof fn cut_document_is_reported(b: Seq<u8>)
    requires
        !written_in(b, text("startxref")),
        !written_in(b, text("trailer")),
    ensures
        exists|i: int|
            0 <= i < violations_of(b).len() && (#[trigger] violations_of(b)[i]).kind
                == ViolationKind::UnresolvableRoot,
{
    lemma_no_chain(b);
    lemma_word_absent(b, b.len() as int, text("trailer"));
    missing_root_is_reported(b);
}

/// Whether a dictionary is closed somewhere from `from` on: whether `>>`
/// is written there.
pub open spec fn closed_from(b: Seq<u8>, from: int) -> bool {
    exists|k: int| from <= k && k + 1 < b.len() && #[trigger] b[k] == 62 && b[k + 1] == 62
}

/// The entries of a dictionary are read only where the dictionary is
/// closed.
pub proof fn lemma_entries_closed(
    b: Seq<u8>,
    pos: int,
    depth: nat,
    acc: Seq<(Seq<u8>, Value)>,
)
    requires
        parse_entries(b, pos, depth, acc) is Some,
    ensures
        closed_from(b, pos),
    decreases b.len() - pos,
{
    let p = skip_space(b, pos, false);
    if b[p] == 62 {
        assert(b[p] == 62 && b[p + 1] == 62);
    } else {
        let key_end = name_scan(b, p + 1, Seq::empty()).1;
        let v_start = skip_space(b, key_end, false);
        let end = read_end(parse_value(b, v_start, depth));
        let v = read(parse_value(b, v_start, depth));
        let key = name_scan(b, p + 1, Seq::empty()).0;
        lemma_entries_closed(b, end, depth, acc.push((key, v)));
        let k = choose|k: int| end <= k && k + 1 < b.len() && #[trigger] b[k] == 62 && b[k + 1] == 62;
        assert(pos <= k && b[k] == 62);
    }
}

/// A document that was cut off within its trailer is reported. Where the
/// chain of cross-reference sections cannot be read and the dictionary
/// behind the last `trailer` is not closed, the validator reports that the
/// root cannot be resolved.
pub proof fn cut_trailer_is_reported(b: Seq<u8>)
    requires
        chained_tables(b) is Err,
        !closed_from(b, find_last(b, b.len() as int, text("trailer"))),
    ensures
        exists|i: int|
            0 <= i < violations_of(b).len() && (#[trigger] violations_of(b)[i]).kind
                == ViolationKind::UnresolvableRoot,
{
    let word = text("trailer");
    let k = find_last(b, b.len() as int, word);
    if k >= 0 {
        let q = skip_space(b, k + word.len(), false);
        lemma_skip_space_bounds(b, k + word.len(), false);
        if parse_value(b, q, MAX_DEPTH as nat) is Some && read(
            parse_value(b, q, MAX_DEPTH as nat),
        ) is Dictionary {
            lemma_entries_closed(b, q + 2, (MAX_DEPTH - 1) as nat, Seq::empty());
            let at = choose|at: int|
                q + 2 <= at && at + 1 < b.len() && #[trigger] b[at] == 62 && b[at + 1] == 62;
            assert(k <= at && b[at] == 62);
        }
    }
    missing_root_is_reported(b);
}

/// The document of a chapter is read back as the document that was
/// written.
pub proof fn lemma_chapter_read(source: Seq<u8>, chapter: ChapterDefinition)
    requires
        parse_document(source) is Ok,
        parse_document(source)->Ok_0.pages() is Ok,
        1 <= chapter.start_page <= chapter.end_page,
        chapter.end_page <= parse_document(source)->Ok_0.pages()->Ok_0.len(),
        chapter_bytes(
            parse_document(source)->Ok_0,
            parse_document(source)->Ok_0.pages()->Ok_0,
            chapter,
        ) is Some,
        chapter_bytes(
            parse_document(source)->Ok_0,
            parse_document(source)->Ok_0.pages()->Ok_0,
            chapter,
        )->0.len() <= usize::MAX,
    ensures
        ({
            let doc = parse_document(source)->Ok_0;
            let pages = doc.pages()->Ok_0;
            let selected = chapter_pages(pages, chapter);
            &&& as_read(doc)
            &&& well_formed_pages(doc, selected)
            &&& selected.len() == chapter.page_count()
            &&& fits(selected, doc.extract(selected))
            &&& parse_document(chapter_bytes(doc, pages, chapter)->0) == Ok::<
                DocumentView,
                ParseError,
            >(written_subset(doc, selected, output_version(doc)))
        }),
{
    let doc = parse_document(source)->Ok_0;
    let pages = doc.pages()->Ok_0;
    let selected = chapter_pages(pages, chapter);
    let version = output_version(doc);
    parsed_is_as_read(source);
    pages_well_formed(doc);
    lemma_subrange_well_formed(doc, pages, chapter.start_page - 1, chapter.end_page as int);
    lemma_version_regular(doc);
    lemma_chapter_bytes(doc, pages, chapter);
    lemma_output_readable(doc, selected, version);
    written_is_read(version, output_values(doc, selected, doc.extract(selected)));
}

/// Every object of the document of a chapter is reached from its root.
/// What is read from the bytes of the chapter names object 1 as its root,
/// and every object of it is met on the way from there: the document
/// holds no object that nothing in it leads to.
pub proof fn chapter_objects_are_reached(source: Seq<u8>, chapter: ChapterDefinition)
    requires
        parse_document(source) is Ok,
        parse_document(source)->Ok_0.pages() is Ok,
        1 <= chapter.start_page <= chapter.end_page,
        chapter.end_page <= parse_document(source)->Ok_0.pages()->Ok_0.len(),
        chapter_bytes(
            parse_document(source)->Ok_0,
            parse_document(source)->Ok_0.pages()->Ok_0,
            chapter,
        ) is Some,
        chapter_bytes(
            parse_document(source)->Ok_0,
            parse_document(source)->Ok_0.pages()->Ok_0,
            chapter,
        )->0.len() <= usize::MAX,
    ensures
        ({
            let doc = parse_document(source)->Ok_0;
            let bytes = chapter_bytes(doc, doc.pages()->Ok_0, chapter)->0;
            let written = parse_document(bytes)->Ok_0;
            &&& parse_document(bytes) is Ok
            &&& written.trailer.root == Some(ObjectId { number: 1, generation: 0 })
            &&& forall|n: usize|
                1 <= n < written.objects.len() ==> closure(written.graph(), seq![1usize]).contains(
                    n,
                )
        }),
{
    let doc = parse_document(source)->Ok_0;
    let selected = chapter_pages(doc.pages()->Ok_0, chapter);
    lemma_chapter_read(source, chapter);
    written_subset_is_reached(doc, selected, output_version(doc));
}

/// Splitting what was split changes nothing. Where the document of a
/// chapter is split again, with a single chapter over all of its pages,
/// the split succeeds with one file, and that file holds the bytes of the
/// document that was split: the same objects under the same numbers.
pub proof fn resplit_is_fixed(
    source: Seq<u8>,
    chapter: ChapterDefinition,
    whole: ChapterDefinition,
    fail_fast: bool,
)
    requires
        parse_document(source) is Ok,
        parse_document(source)->Ok_0.pages() is Ok,
        1 <= chapter.start_page <= chapter.end_page,
        chapter.end_page <= parse_document(source)->Ok_0.pages()->Ok_0.len(),
        chapter_bytes(
            parse_document(source)->Ok_0,
            parse_document(source)->Ok_0.pages()->Ok_0,
            chapter,
        ) is Some,
        chapter_bytes(
            parse_document(source)->Ok_0,
            parse_document(source)->Ok_0.pages()->Ok_0,
            chapter,
        )->0.len() <= usize::MAX,
        whole.valid(),
        whole.start_page == 1,
        whole.end_page == chapter.page_count(),
    ensures
        ({
            let doc = parse_document(source)->Ok_0;
            let bytes = chapter_bytes(doc, doc.pages()->Ok_0, chapter)->0;
            let out = split(bytes, seq![whole], fail_fast)->Ok_0;
            &&& split(bytes, seq![whole], fail_fast) is Ok
            &&& out.failed.len() == 0
            &&& out.files.len() == 1
            &&& out.files[0].bytes == bytes
            &&& out.files[0].page_count == chapter.page_count()
            &&& out.total_pages == chapter.page_count()
        }),
{
    let doc = parse_document(source)->Ok_0;
    let bytes = chapter_bytes(doc, doc.pages()->Ok_0, chapter)->0;
    let written = parse_document(bytes)->Ok_0;
    let chapters = seq![whole];
    lemma_chapter_read(source, chapter);
    lemma_chapter_again(source, chapter, whole);
    assert(chapters[0] == whole);
    assert(within_limits(written, written.pages()->Ok_0, whole)) by {
        reveal(chapter_bytes);
    }
    split_succeeds(bytes, chapters, fail_fast);
    split_whole(bytes, whole, fail_fast);
    lemma_run_files(
        written,
        written.pages()->Ok_0,
        chapters,
        fail_fast,
        0,
        Seq::empty(),
        Seq::empty(),
        0,
    );
}

/// The document of a chapter, read and written again for all of its pages,
/// is written as it was.
pub proof fn lemma_chapter_again(
    source: Seq<u8>,
    chapter: ChapterDefinition,
    whole: ChapterDefinition,
)
    requires
        parse_document(source) is Ok,
        parse_document(source)->Ok_0.pages() is Ok,
        1 <= chapter.start_page <= chapter.end_page,
        chapter.end_page <= parse_document(source)->Ok_0.pages()->Ok_0.len(),
        chapter_bytes(
            parse_document(source)->Ok_0,
            parse_document(source)->Ok_0.pages()->Ok_0,
            chapter,
        ) is Some,
        chapter_bytes(
            parse_document(source)->Ok_0,
            parse_document(source)->Ok_0.pages()->Ok_0,
            chapter,
        )->0.len() <= usize::MAX,
        whole.start_page == 1,
        whole.end_page == chapter.page_count(),
    ensures
        ({
            let doc = parse_document(source)->Ok_0;
            let bytes = chapter_bytes(doc, doc.pages()->Ok_0, chapter)->0;
            let written = parse_document(bytes)->Ok_0;
            &&& parse_document(bytes) is Ok
            &&& written.pages() is Ok
            &&& written.pages()->Ok_0.len() == chapter.page_count()
            &&& chapter_bytes(written, written.pages()->Ok_0, whole) == Some(bytes)
        }),
{
    let doc = parse_document(source)->Ok_0;
    let selected = chapter_pages(doc.pages()->Ok_0, chapter);
    let version = output_version(doc);
    let written = written_subset(doc, selected, version);
    lemma_chapter_read(source, chapter);
    lemma_chapter_bytes(doc, doc.pages()->Ok_0, chapter);
    written_is_fixed(doc, selected, version);
    lemma_written_count(doc, selected, version);
    let pages = written.pages()->Ok_0;
    assert(chapter_pages(pages, whole) =~= pages);
    assert(output_version(written) == version);
    reveal(chapter_bytes);
}

/// Splitting what was split keeps its pages and its objects. The file of
/// a second split over all pages is read as a document with as many pages
/// and as many objects as the document that was split.
pub proof fn resplit_keeps_objects(
    source: Seq<u8>,
    chapter: ChapterDefinition,
    whole: ChapterDefinition,
    fail_fast: bool,
)
    requires
        parse_document(source) is Ok,
        parse_document(source)->Ok_0.pages() is Ok,
        1 <= chapter.start_page <= chapter.end_page,
        chapter.end_page <= parse_document(source)->Ok_0.pages()->Ok_0.len(),
        chapter_bytes(
            parse_document(source)->Ok_0,
            parse_document(source)->Ok_0.pages()->Ok_0,
            chapter,
        ) is Some,
        chapter_bytes(
            parse_document(source)->Ok_0,
            parse_document(source)->Ok_0.pages()->Ok_0,
            chapter,
        )->0.len() <= usize::MAX,
        whole.valid(),
        whole.start_page == 1,
        whole.end_page == chapter.page_count(),
    ensures
        ({
            let doc = parse_document(source)->Ok_0;
            let bytes = chapter_bytes(doc, doc.pages()->Ok_0, chapter)->0;
            let out = split(bytes, seq![whole], fail_fast)->Ok_0;
            &&& parse_document(bytes) is Ok
            &&& split(bytes, seq![whole], fail_fast) is Ok
            &&& out.files.len() == 1
            &&& parse_document(out.files[0].bytes) is Ok
            &&& parse_document(out.files[0].bytes)->Ok_0.objects.len() == parse_document(
                bytes,
            )->Ok_0.objects.len()
            &&& parse_document(out.files[0].bytes)->Ok_0.pages() == parse_document(
                bytes,
            )->Ok_0.pages()
        }),
{
    resplit_is_fixed(source, chapter, whole, fail_fast);
    lemma_chapter_read(source, chapter);
}

} // verus!
