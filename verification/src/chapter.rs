//! Chapter definitions, the rules they must meet, and the result record.

use vstd::prelude::*;
use vstd::string::*;

verus! {

/// A chapter: a title and a range of pages, counted from 1, both ends
/// included.
#[derive(Debug, Clone, PartialEq, Eq)]
pub struct ChapterDefinition {
    pub title: String,
    pub start_page: u32,
    pub end_page: u32,
}

/// What went wrong and how much was done.
#[derive(Debug, Clone, PartialEq, Eq)]
pub struct ProcessResult {
    pub success: bool,
    pub error_message: Option<String>,
    pub files_processed: u32,
    pub total_pages: u32,
}

/// What is wrong with a chapter definition.
#[derive(Clone, Copy, Debug, PartialEq, Eq, Structural)]
pub enum ChapterFault {
    /// A page number is 0.
    ZeroPage,
    /// The range starts behind its end.
    InvertedRange,
    /// The title is empty.
    EmptyTitle,
    /// The range ends behind the last page of the document.
    OutOfRange,
}

/// A chapter definition that was rejected: its position in the sequence,
/// counted from 1, and what is wrong with it.
#[derive(Clone, Copy, Debug, PartialEq, Eq, Structural)]
pub struct ChapterDefinitionError {
    pub index: usize,
    pub fault: ChapterFault,
}

/// What is wrong with a chapter of this title and range, if anything: the
/// first of a page number 0, a range that starts behind its end, and an
/// empty title.
pub open spec fn fault_of(title: Seq<char>, start_page: u32, end_page: u32) -> Option<
    ChapterFault,
> {
    if start_page == 0 || end_page == 0 {
        Some(ChapterFault::ZeroPage)
    } else if start_page > end_page {
        Some(ChapterFault::InvertedRange)
    } else if title.len() == 0 {
        Some(ChapterFault::EmptyTitle)
    } else {
        None
    }
}

impl ChapterDefinition {
    /// What is wrong with this definition, if anything.
    pub open spec fn fault(self) -> Option<ChapterFault> {
        fault_of(self.title@, self.start_page, self.end_page)
    }

    /// Whether this definition meets the rules.
    pub open spec fn valid(self) -> bool {
        self.fault() is None
    }

    /// The number of pages in the range of a valid definition.
    pub open spec fn page_count(self) -> int {
        self.end_page - self.start_page + 1
    }

    /// Checks this definition against the rules.
    pub fn check(&self) -> (r: Option<ChapterFault>)
        ensures
            r == self.fault(),
    {
        if self.start_page == 0 || self.end_page == 0 {
            Some(ChapterFault::ZeroPage)
        } else if self.start_page > self.end_page {
            Some(ChapterFault::InvertedRange)
        } else if self.title.as_str().is_empty() {
            Some(ChapterFault::EmptyTitle)
        } else {
            None
        }
    }
}

/// The first definition, from position `from` on, that breaks a rule.
pub open spec fn first_fault(chapters: Seq<ChapterDefinition>, from: int) -> Option<
    ChapterDefinitionError,
>
    decreases chapters.len() - from,
{
    if from < 0 || from >= chapters.len() {
        None
    } else {
        match chapters[from].fault() {
            Some(fault) => Some(ChapterDefinitionError { index: (from + 1) as usize, fault }),
            None => first_fault(chapters, from + 1),
        }
    }
}

/// The first definition, from position `from` on, whose range ends behind
/// the `total` pages of a document.
pub open spec fn first_out_of_range(chapters: Seq<ChapterDefinition>, total: int, from: int) -> Option<
    ChapterDefinitionError,
>
    decreases chapters.len() - from,
{
    if from < 0 || from >= chapters.len() {
        None
    } else if chapters[from].end_page > total {
        Some(ChapterDefinitionError { index: (from + 1) as usize, fault: ChapterFault::OutOfRange })
    } else {
        first_out_of_range(chapters, total, from + 1)
    }
}

/// Checks every definition against the rules. The error names the first
/// definition that breaks one.
pub fn validate_chapters(chapters: &Vec<ChapterDefinition>) -> (r: Result<
    (),
    ChapterDefinitionError,
>)
    ensures
        r is Err <==> first_fault(chapters@, 0) is Some,
        r matches Err(e) ==> first_fault(chapters@, 0) == Some(e),
        match r {
            Ok(_) => forall|i: int| 0 <= i < chapters.len() ==> (#[trigger] chapters[i]).valid(),
            Err(e) => 1 <= e.index <= chapters.len() && chapters[e.index - 1].fault() == Some(
                e.fault,
            ) && forall|i: int| 0 <= i < e.index - 1 ==> (#[trigger] chapters[i]).valid(),
        },
{
    let mut i: usize = 0;
    while i < chapters.len()
        invariant
            i <= chapters.len(),
            forall|j: int| 0 <= j < i ==> (#[trigger] chapters[j]).valid(),
            first_fault(chapters@, 0) == first_fault(chapters@, i as int),
        decreases chapters.len() - i,
    {
        match chapters[i].check() {
            Some(fault) => {
                return Err(ChapterDefinitionError { index: i + 1, fault });
            },
            None => {},
        }
        i += 1;
    }
    Ok(())
}

/// Checks that every range ends within the `total` pages of a document.
/// The error names the first definition whose range does not.
pub fn check_ranges(chapters: &Vec<ChapterDefinition>, total: usize) -> (r: Result<
    (),
    ChapterDefinitionError,
>)
    ensures
        r is Err <==> first_out_of_range(chapters@, total as int, 0) is Some,
        r matches Err(e) ==> first_out_of_range(chapters@, total as int, 0) == Some(e),
        match r {
            Ok(_) => forall|i: int|
                0 <= i < chapters.len() ==> (#[trigger] chapters[i]).end_page <= total,
            Err(e) => 1 <= e.index <= chapters.len() && e.fault == ChapterFault::OutOfRange
                && chapters[e.index - 1].end_page > total && forall|i: int|
                0 <= i < e.index - 1 ==> (#[trigger] chapters[i]).end_page <= total,
        },
{
    let mut i: usize = 0;
    while i < chapters.len()
        invariant
            i <= chapters.len(),
            forall|j: int| 0 <= j < i ==> (#[trigger] chapters[j]).end_page <= total,
            first_out_of_range(chapters@, total as int, 0) == first_out_of_range(
                chapters@,
                total as int,
                i as int,
            ),
        decreases chapters.len() - i,
    {
        if chapters[i].end_page as u64 > total as u64 {
            return Err(ChapterDefinitionError { index: i + 1, fault: ChapterFault::OutOfRange });
        }
        i += 1;
    }
    Ok(())
}

impl ProcessResult {
    /// The record of a run that wrote `files` files from a document of
    /// `total` pages.
    pub fn completed(files: u32, total: u32) -> (r: ProcessResult)
        ensures
            r.success,
            r.error_message is None,
            r.files_processed == files,
            r.total_pages == total,
    {
        ProcessResult { success: true, error_message: None, files_processed: files, total_pages: total }
    }

    /// The record of a run that failed with `message` after it wrote
    /// `files` files from a document of `total` pages.
    pub fn failed(message: String, files: u32, total: u32) -> (r: ProcessResult)
        ensures
            !r.success,
            r.error_message == Some(message),
            r.files_processed == files,
            r.total_pages == total,
    {
        ProcessResult {
            success: false,
            error_message: Some(message),
            files_processed: files,
            total_pages: total,
        }
    }
}

} // verus!
