//! The regex engine behind a thin trusted contract. Everything the parser
//! knows about oniguruma is stated here; all other modules are verified
//! against these contracts alone.

use vstd::prelude::*;
use vstd::string::StringSliceAdditionalSpecFns;

verus! {

#[verifier::external_type_specification]
#[verifier::external_body]
pub struct ExRegex(onig::Regex);

/// The UTF-8 pattern text that a compiled regex was built from.
pub uninterp spec fn regex_pattern(rx: onig::Regex) -> Seq<u8>;

/// Whether the engine accepts a pattern: true exactly when the bytes are
/// UTF-8 and oniguruma (fixed options and syntax) compiles them. A function
/// of the bytes alone; an out-of-memory failure inside the engine would
/// abort the compile rather than vary the answer between runs.
pub uninterp spec fn compiles(pat: Seq<u8>) -> bool;

/// What one oniguruma search reports for a pattern over a line, scanning from
/// byte offset `start`: `None` when nothing matches (an engine failure such
/// as a backtracking limit counts as no match), otherwise one byte-position
/// pair per capture group, group 0 (the whole match) first. The result is a
/// function of the three arguments alone.
pub uninterp spec fn search_found(pat: Seq<u8>, line: Seq<u8>, start: int) -> Option<
    Seq<Option<(usize, usize)>>,
>;

/// Relies on onig's `Regex::with_options` (capture-group option, default
/// syntax) to compile `pattern`. Bytes that are not UTF-8, or a pattern the
/// engine rejects, yield `None`.
#[verifier::external_body]
pub(crate) fn compile_pattern(pattern: &Vec<u8>) -> (r: Option<onig::Regex>)
    ensures
        r is Some <==> compiles(pattern@),
        r matches Some(rx) ==> regex_pattern(rx) == pattern@,
{
    match std::str::from_utf8(pattern) {
        Ok(text) => onig::Regex::with_options(
            text,
            onig::RegexOptions::REGEX_OPTION_CAPTURE_GROUP,
            onig::Syntax::default(),
        ).ok(),
        Err(_) => None,
    }
}

/// Relies on onig's `Regex::search_with_param`: it scans `line` from byte
/// offset `start` to the end of the line and fills a region with byte
/// positions, one pair per capture group, group 0 being the whole match,
/// which begins at or after `start` and ends within the line; every reported
/// group is a well-formed byte range within the line. An engine error is
/// reported as no match, like a pattern that does not match.
#[verifier::external_body]
pub(crate) fn search_pattern(rx: &onig::Regex, line: &str, start: usize) -> (r: Option<
    Vec<Option<(usize, usize)>>,
>)
    requires
        start <= line.spec_bytes().len(),
    ensures
        r matches Some(v) ==> search_found(regex_pattern(*rx), line.spec_bytes(), start as int)
            == Some(v@),
        r is None ==> search_found(regex_pattern(*rx), line.spec_bytes(), start as int) is None,
        r matches Some(v) ==> v@.len() >= 1 && (v@[0] matches Some(p) && start <= p.0 && p.0 <= p.1
            && p.1 <= line.spec_bytes().len()),
        r matches Some(v) ==> forall|i: int|
            0 <= i < v@.len() ==> (#[trigger] v@[i] matches Some(q) ==> q.0 <= q.1 && q.1
                <= line.spec_bytes().len()),
{
    let mut region = onig::Region::new();
    let outcome = rx.search_with_param(
        line,
        start,
        line.len(),
        onig::SearchOptions::SEARCH_OPTION_NONE,
        Some(&mut region),
        onig::MatchParam::default(),
    );
    match outcome {
        Ok(Some(_)) => Some((0..region.len()).map(|i| region.pos(i)).collect()),
        _ => None,
    }
}

} // verus!
