//! Which files of a scanned directory are formatted.

use vstd::prelude::*;
use crate::config::CONFIG_FILE;
use crate::text::same_text;

verus! {

/// Whether `pattern` is a valid glob.
pub uninterp spec fn glob_valid(pattern: Seq<char>) -> bool;

/// Whether the valid glob `pattern` matches `path`.
pub uninterp spec fn glob_matches(pattern: Seq<char>, path: Seq<char>) -> bool;

/// The answer of a pattern on a path: whether it matches, or nothing where
/// the pattern is not a valid glob.
pub open spec fn glob_answer(pattern: Seq<char>, path: Seq<char>) -> Option<bool> {
    if glob_valid(pattern) {
        Some(glob_matches(pattern, path))
    } else {
        None
    }
}

/// Compiles `pattern` with `glob::Pattern::new`, which fails exactly on an
/// invalid pattern, and matches `path` against the compiled pattern with
/// `Pattern::matches`, under the default options. `glob` reads which
/// characters separate the parts of a path from the target that the library
/// is built for, so the two names stand for what `glob` decides on that
/// target: the same in every run and on every machine that runs the build.
#[verifier::external_body]
fn pattern_matches(pattern: &str, path: &str) -> (r: Option<bool>)
    ensures
        r == (if glob_valid(pattern@) {
            Some(glob_matches(pattern@, path@))
        } else {
            None
        }),
{
    match glob::Pattern::new(pattern) {
        Ok(p) => Some(p.matches(path)),
        Err(_) => None,
    }
}

/// Why a scan cannot start.
#[derive(Clone, Copy, Debug, PartialEq, Eq)]
pub enum ScanError {
    /// The pattern at this place of the list is not a valid glob.
    InvalidPattern(usize),
}

/// Whether one of the answers is missing, that is, one of the patterns is
/// invalid.
pub open spec fn any_invalid(answers: Seq<Option<bool>>) -> bool {
    exists|i: int| 0 <= i < answers.len() && #[trigger] answers[i] is None
}

/// Whether one of the patterns matched.
pub open spec fn any_match(answers: Seq<Option<bool>>) -> bool {
    exists|i: int| 0 <= i < answers.len() && #[trigger] answers[i] == Some(true)
}

/// The verdict on a path, given the answer of each pattern: an error at the
/// first invalid pattern, else whether any pattern matched.
pub open spec fn verdict(answers: Seq<Option<bool>>) -> Result<bool, ScanError> {
    if any_invalid(answers) {
        Err(ScanError::InvalidPattern(first_invalid(answers, 0) as usize))
    } else {
        Ok(any_match(answers))
    }
}

/// The place of the first missing answer at or after `i`.
pub open spec fn first_invalid(answers: Seq<Option<bool>>, i: int) -> int
    decreases answers.len() - i,
{
    if i >= answers.len() || answers[i] is None {
        i
    } else {
        first_invalid(answers, i + 1)
    }
}

/// The answers of the patterns `excludes` on `path`.
pub open spec fn answers_of(excludes: Seq<String>, path: Seq<char>) -> Seq<Option<bool>> {
    Seq::new(excludes.len(), |i: int| glob_answer(excludes[i]@, path))
}

/// Whether a path is left out. A path without text is matched as the empty
/// path, to find an invalid pattern, and is never left out.
pub open spec fn exclusion(excludes: Seq<String>, path: Option<Seq<char>>) -> Result<bool, ScanError> {
    match path {
        Some(p) => verdict(answers_of(excludes, p)),
        None => match verdict(answers_of(excludes, Seq::empty())) {
            Ok(_) => Ok(false),
            Err(e) => Err(e),
        },
    }
}

/// Whether a pattern is valid does not depend on the path: a list of patterns
/// with an invalid one gives the same error on every path.
pub proof fn law_invalid_on_every_path(excludes: Seq<String>, a: Seq<char>, b: Seq<char>)
    ensures
        verdict(answers_of(excludes, a)) is Err <==> verdict(answers_of(excludes, b)) is Err,
        verdict(answers_of(excludes, a)) is Err ==> verdict(answers_of(excludes, a)) == verdict(
            answers_of(excludes, b),
        ),
{
    let x = answers_of(excludes, a);
    let y = answers_of(excludes, b);
    assert forall|i: int| 0 <= i < x.len() implies (#[trigger] x[i] is None) == (y[i] is None) by {}
    if any_invalid(x) {
        let i = choose|i: int| 0 <= i < x.len() && #[trigger] x[i] is None;
        assert(y[i] is None);
    }
    if any_invalid(y) {
        let i = choose|i: int| 0 <= i < y.len() && #[trigger] y[i] is None;
        assert(x[i] is None);
    }
    lemma_same_first_invalid(x, y, 0);
}

/// Lists of answers that are missing at the same places have their first
/// missing answer at the same place.
proof fn lemma_same_first_invalid(x: Seq<Option<bool>>, y: Seq<Option<bool>>, i: int)
    requires
        x.len() == y.len(),
        0 <= i,
        forall|j: int| 0 <= j < x.len() ==> (#[trigger] x[j] is None) == (y[j] is None),
    ensures
        first_invalid(x, i) == first_invalid(y, i),
    decreases x.len() - i,
{
    if i < x.len() && x[i] is Some {
        lemma_same_first_invalid(x, y, i + 1);
    }
}

/// Whether a path is left out, given the answer of each pattern on it.
pub fn excluded_by(answers: &Vec<Option<bool>>) -> (r: Result<bool, ScanError>)
    ensures
        r == verdict(answers@),
{
    let mut matched = false;
    let mut i: usize = 0;
    while i < answers.len()
        invariant
            i <= answers.len(),
            forall|j: int| 0 <= j < i ==> #[trigger] answers@[j] is Some,
            first_invalid(answers@, 0) == first_invalid(answers@, i as int),
            matched == (exists|j: int| 0 <= j < i && #[trigger] answers@[j] == Some(true)),
        decreases answers.len() - i,
    {
        match answers[i] {
            None => {
                assert(answers@[i as int] is None);
                return Err(ScanError::InvalidPattern(i));
            },
            Some(m) => {
                if m {
                    matched = true;
                }
            },
        }
        i += 1;
    }
    Ok(matched)
}

/// Whether a scan leaves out the file at `path`, a path relative to the
/// scanned directory: it does if one of the patterns matches the path. A path
/// that is not valid Unicode has no text and matches nothing. An invalid
/// pattern is an error, whatever the path.
pub fn is_excluded(excludes: &Vec<String>, path: Option<&str>) -> (r: Result<bool, ScanError>)
    ensures
        r == exclusion(excludes@, crate::model::text_view_of(path)),
{
    let (text, known) = match path {
        Some(p) => (p, true),
        None => {
            proof {
                reveal_strlit("");
                assert(""@ =~= Seq::<char>::empty());
            }
            ("", false)
        },
    };
    let mut answers: Vec<Option<bool>> = Vec::new();
    let mut i: usize = 0;
    while i < excludes.len()
        invariant
            i <= excludes.len(),
            answers.len() == i,
            forall|j: int|
                0 <= j < i ==> #[trigger] answers@[j] == glob_answer(excludes@[j]@, text@),
        decreases excludes.len() - i,
    {
        answers.push(pattern_matches(excludes[i].as_str(), text));
        i += 1;
    }
    assert(answers@ =~= answers_of(excludes@, text@));
    match excluded_by(&answers) {
        Ok(m) => Ok(m && known),
        Err(e) => Err(e),
    }
}

/// Whether a file that a scan found is formatted: a file, not a directory,
/// with the wanted extension, and not the file that holds the configuration.
pub fn is_wanted(is_dir: bool, extension: Option<&str>, file_name: Option<&str>, wanted: &str) -> (r:
    bool)
    ensures
        r == (!is_dir && (extension matches Some(e) && e@ == wanted@) && !(file_name matches Some(
            f,
        ) && f@ == CONFIG_FILE@)),
{
    if is_dir {
        return false;
    }
    let fits = match extension {
        Some(e) => same_text(e, wanted),
        None => false,
    };
    let is_config = match file_name {
        Some(f) => same_text(f, CONFIG_FILE),
        None => false,
    };
    fits && !is_config
}

} // verus!
