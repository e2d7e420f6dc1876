//! A whole document: formatting it, finishing the text that is written out,
//! and deciding what happens to the file.

use vstd::prelude::*;
use crate::config::{GenericConfig, Ranks, Rules};
use crate::model::{Document, DocumentView};
use crate::table::formatted_table;
use crate::text::{same_text, trim_end, trimmed_end, CharClass};
use crate::valid::table_ok;

verus! {

/// What became of a file.
#[derive(Clone, Copy, Debug, PartialEq, Eq)]
pub enum Outcome {
    /// The file was formatted already and is left alone.
    Unchanged,
    /// The file gets the formatted text.
    Overwritten,
    /// Only checked, and formatted already.
    CheckPassed,
    /// Only checked, and not formatted.
    CheckFailed,
}

impl Outcome {
    /// Whether the file is written. It is written only when it is
    /// overwritten, so never when it is only checked.
    pub fn writes(&self) -> (r: bool)
        ensures
            r == (*self is Overwritten),
    {
        match self {
            Outcome::Overwritten => true,
            _ => false,
        }
    }
}

/// Why a file, or the whole run, failed.
#[derive(Clone, Copy, Debug, PartialEq, Eq)]
pub enum Failure {
    /// The file could not be read or written.
    Io,
    /// The file is not a valid document.
    Parse,
    /// The settings are malformed. This ends the run before any file is
    /// touched.
    Config,
}

/// What is known of a file at the end: what became of it, or why it failed.
pub type FileResult = Result<Outcome, Failure>;

/// The exit status that stands for a result: 0 where nothing is wrong, 2 for
/// a file that a check found unformatted, 3 for a file that could not be
/// read or written, 1 for a file that is no valid document, 4 for malformed
/// settings.
pub open spec fn status_of(result: FileResult) -> u8 {
    match result {
        Ok(Outcome::CheckFailed) => 2,
        Ok(_) => 0,
        Err(Failure::Io) => 3,
        Err(Failure::Parse) => 1,
        Err(Failure::Config) => 4,
    }
}

/// The exit status of a run: that of the first file that is not in order,
/// or 0 if all are.
pub open spec fn run_status(results: Seq<FileResult>) -> u8
    decreases results.len(),
{
    if results.len() == 0 {
        0
    } else if status_of(results[0]) != 0 {
        status_of(results[0])
    } else {
        run_status(results.skip(1))
    }
}

/// The exit status that stands for a result.
pub fn exit_status(result: &FileResult) -> (r: u8)
    ensures
        r == status_of(*result),
{
    match result {
        Ok(Outcome::CheckFailed) => 2,
        Ok(_) => 0,
        Err(Failure::Io) => 3,
        Err(Failure::Parse) => 1,
        Err(Failure::Config) => 4,
    }
}

/// The exit status of a run over several files. A failure of one file does
/// not keep the others from being looked at: the status is found when all
/// results are in.
pub fn exit_status_of_run(results: &Vec<FileResult>) -> (r: u8)
    ensures
        r == run_status(results@),
        r == 0 <==> forall|i: int| 0 <= i < results.len() ==> status_of(#[trigger] results[i]) == 0,
{
    let mut i: usize = 0;
    proof {
        assert(results@.skip(0) =~= results@);
    }
    while i < results.len()
        invariant
            i <= results.len(),
            run_status(results@) == run_status(results@.skip(i as int)),
            forall|j: int| 0 <= j < i ==> status_of(#[trigger] results[j]) == 0,
        decreases results.len() - i,
    {
        let code = exit_status(&results[i]);
        proof {
            assert(results@.skip(i as int)[0] == results[i as int]);
            assert(results@.skip(i as int).skip(1) =~= results@.skip(i + 1));
        }
        if code != 0 {
            return code;
        }
        i += 1;
    }
    0
}

/// The formatted document: its root table formatted, and the text after the
/// last entry as it was.
pub open spec fn formatted_document(rules: Rules, d: DocumentView) -> DocumentView {
    DocumentView { root: formatted_table(rules, d.root), trailing: d.trailing }
}

/// The text that is written out: the rendered document without white space
/// at its end, and one line break.
pub open spec fn finished(rendered: Seq<char>) -> Seq<char> {
    trim_end(rendered, CharClass::Whitespace).push('\n')
}

/// What becomes of a file that holds `current` and formats to `formatted`.
pub open spec fn outcome_of(current: Seq<char>, formatted: Seq<char>, check: bool) -> Outcome {
    if check {
        if current == formatted {
            Outcome::CheckPassed
        } else {
            Outcome::CheckFailed
        }
    } else {
        if current == formatted {
            Outcome::Unchanged
        } else {
            Outcome::Overwritten
        }
    }
}

/// A finished text is left as it is when it is finished again.
pub proof fn law_finished_once(rendered: Seq<char>)
    ensures
        finished(finished(rendered)) == finished(rendered),
{
    let ws = CharClass::Whitespace;
    let x = trim_end(rendered, ws);
    crate::text::lemma_trim_end_props(rendered, ws);
    assert(ws.has('\n'));
    let y = x.push('\n');
    if x.len() > 0 {
        assert(y[y.len() - 2] == x.last());
    }
    crate::text::lemma_trailing_is(y, ws, 1);
    assert(trim_end(y, ws) =~= x);
}

/// Finishes the rendered document for writing.
pub fn finish(rendered: &str) -> (r: String)
    ensures
        r@ == finished(rendered@),
{
    let mut r = trimmed_end(rendered, CharClass::Whitespace);
    r.push('\n');
    r
}

/// Decides what becomes of a file, by comparing its text with the formatted
/// text character by character. A check never leads to a write, and a file
/// that is formatted already is never written.
pub fn outcome(current: &str, formatted: &str, check: bool) -> (r: Outcome)
    ensures
        r == outcome_of(current@, formatted@, check),
        check ==> !(r is Overwritten),
        current@ == formatted@ ==> !(r is Overwritten),
{
    let same = same_text(current, formatted);
    if check {
        if same {
            Outcome::CheckPassed
        } else {
            Outcome::CheckFailed
        }
    } else {
        if same {
            Outcome::Unchanged
        } else {
            Outcome::Overwritten
        }
    }
}

impl GenericConfig<Ranks> {
    /// Formats a document.
    pub fn format_document(&self, doc: &Document) -> (r: Document)
        ensures
            r@ == formatted_document(self@, doc@),
            table_ok(doc@.root) ==> table_ok(r@.root),
    {
        Document { root: self.format_table(&doc.root), trailing: doc.trailing.clone() }
    }
}

} // verus!
