//! Parsers for the header line, each proved to recognise what the grammar says.

use vstd::prelude::*;
use crate::data::{view_of, Branch, BranchInfo, Distance, Remote};
use crate::grammar::{
    ahead, ahead_behind, behind, bracketed_count, branch_name, branch_segment, count,
    display_name, distance, header, lemma_display_name_trimmed, lemma_trimmed_is_trimmed,
    literal, remote_info, ParseError,
};
use crate::text::{
    decimal_i32, leading, lemma_leading_run, split_before, split_run, starts_with, strip_prefix,
    trim, CharClass,
};

verus! {

/// What a parser returned, with the remaining text as a sequence of characters.
pub open spec fn outcome<T>(r: Result<(&str, T), ParseError>) -> Result<
    (Seq<char>, T),
    ParseError,
> {
    match r {
        Ok((rest, value)) => Ok((rest@, value)),
        Err(e) => Err(e),
    }
}

/// What a parser returned, with the remaining text and the value by their views.
pub open spec fn viewed<T: View>(r: Result<(&str, T), ParseError>) -> Result<
    (Seq<char>, T::V),
    ParseError,
> {
    match r {
        Ok((rest, value)) => Ok((rest@, value@)),
        Err(e) => Err(e),
    }
}

/// Demands the literal `lit` at the front of `input`.
fn expect<'a>(input: &'a str, lit: &str) -> (r: Result<&'a str, ParseError>)
    ensures
        match r {
            Ok(rest) => literal(input@, lit@) == Ok::<Seq<char>, ParseError>(rest@),
            Err(e) => literal(input@, lit@) == Err::<Seq<char>, ParseError>(e),
        },
{
    match strip_prefix(input, lit) {
        Some(rest) => Ok(rest),
        None => Err(ParseError::MissingLiteral),
    }
}

/// Reads a count at the front of `input`.
fn read_count(input: &str) -> (r: Result<(&str, i32), ParseError>)
    ensures
        outcome(r) == count(input@),
{
    let (digits, rest) = split_run(input, CharClass::Digit);
    proof {
        lemma_leading_run(input@, CharClass::Digit, leading(input@, CharClass::Digit) as int);
    }
    if digits.is_empty() {
        return Err(ParseError::MissingCount);
    }
    match decimal_i32(digits) {
        Some(n) => Ok((rest, n)),
        None => Err(ParseError::CountOutOfRange),
    }
}

/// Reads a count enclosed by the literals `open` and `close`.
fn read_bracketed_count<'a>(input: &'a str, open: &str, close: &str) -> (r: Result<
    (&'a str, i32),
    ParseError,
>)
    ensures
        outcome(r) == bracketed_count(input@, open@, close@),
{
    let rest = expect(input, open)?;
    let (rest, n) = read_count(rest)?;
    let rest = expect(rest, close)?;
    Ok((rest, n))
}

/// Parses `[ahead <count>, behind <count>]`.
pub fn parse_ahead_behind(input: &str) -> (r: Result<(&str, Distance), ParseError>)
    ensures
        outcome(r) == ahead_behind(input@),
        r matches Ok((_, d)) ==> d.well_formed(),
{
    let (rest, a) = read_bracketed_count(input, "[ahead ", ", behind ")?;
    let (rest, b) = read_count(rest)?;
    let rest = expect(rest, "]")?;
    Ok((rest, Distance::AheadBehind(a, b)))
}

/// Parses `[ahead <count>]`.
pub fn parse_ahead(input: &str) -> (r: Result<(&str, Distance), ParseError>)
    ensures
        outcome(r) == ahead(input@),
        r matches Ok((_, d)) ==> d.well_formed(),
{
    let (rest, n) = read_bracketed_count(input, "[ahead ", "]")?;
    Ok((rest, Distance::Ahead(n)))
}

/// Parses `[behind <count>]`.
pub fn parse_behind(input: &str) -> (r: Result<(&str, Distance), ParseError>)
    ensures
        outcome(r) == behind(input@),
        r matches Ok((_, d)) ==> d.well_formed(),
{
    let (rest, n) = read_bracketed_count(input, "[behind ", "]")?;
    Ok((rest, Distance::Behind(n)))
}

/// Parses a distance in any of its three forms, the most specific first.
pub fn parse_distance(input: &str) -> (r: Result<(&str, Distance), ParseError>)
    ensures
        outcome(r) == distance(input@),
        r matches Ok((_, d)) ==> d.well_formed(),
{
    match parse_ahead_behind(input) {
        Ok(found) => Ok(found),
        Err(_) => match parse_ahead(input) {
            Ok(found) => Ok(found),
            Err(_) => parse_behind(input),
        },
    }
}

/// The name shown for the raw branch segment `raw`.
fn shown_name(raw: &str) -> (r: Branch)
    ensures
        r@ == display_name(raw@),
        r.well_formed(),
{
    proof {
        lemma_display_name_trimmed(raw@);
    }
    let name = trim(raw);
    let name = match strip_prefix(name, "Initial commit on ") {
        Some(rest) => trim(rest),
        None => match strip_prefix(name, "No commits yet on ") {
            Some(rest) => trim(rest),
            None => name,
        },
    };
    Branch(name.to_owned())
}

/// Parses the branch segment of a header, the text between the marker and the first
/// `...`, or the end of the line where there is no `...`. Returns the text from the
/// `...` on and the branch.
pub fn parse_branch_segment(input: &str) -> (r: (&str, Branch))
    ensures
        r.0@ == branch_segment(input@).0,
        r.1@ == branch_segment(input@).1,
        r.1.well_formed(),
{
    match split_before(input, "...") {
        Some((raw, rest)) => (rest, shown_name(raw)),
        None => {
            proof {
                reveal_strlit("");
            }
            let rest = "";
            assert(rest@ =~= Seq::<char>::empty());
            (rest, shown_name(input))
        },
    }
}

/// Parses the branch segment of a header that may still carry leading whitespace
/// and the marker `"## "`. Never fails.
pub fn parse_branch_name(input: &str) -> (r: Result<(&str, Branch), ParseError>)
    ensures
        viewed(r) == Ok::<_, ParseError>(branch_name(input@)),
        r matches Ok((_, branch)) && branch.well_formed(),
{
    let (_, body) = split_run(input, CharClass::Whitespace);
    let body = match strip_prefix(body, "## ") {
        Some(rest) => rest,
        None => body,
    };
    Ok(parse_branch_segment(body))
}

/// Parses the remote section that may follow the branch segment. Never fails: text
/// that does not open with `...` is handed back with no remote.
pub fn parse_remote_info(input: &str) -> (r: Result<(&str, Option<Remote>), ParseError>)
    ensures
        r matches Ok((rest, remote)) && (rest@, view_of(remote)) == remote_info(input@),
        r matches Ok((_, Some(remote))) ==> remote.well_formed(),
{
    match strip_prefix(input, "...") {
        None => Ok((input, None)),
        Some(section) => {
            let (name, after_name) = split_run(section, CharClass::NonSpace);
            let (_, tail) = split_run(after_name, CharClass::Space);
            let (rest, found) = match parse_distance(tail) {
                Ok((rest, d)) => (rest, Some(d)),
                Err(_) => (tail, None),
            };
            if section.is_empty() {
                Ok((rest, None))
            } else {
                proof {
                    lemma_trimmed_is_trimmed(name@);
                }
                let branch = Branch(trim(name).to_owned());
                Ok((rest, Some(Remote { branch, distance: found })))
            }
        },
    }
}

/// Parses a whole header line. Fails with [`ParseError::MissingMarker`] where the
/// line does not open with `"## "`, and on no other line.
pub fn branch_parser(input: &str) -> (r: Result<(&str, BranchInfo), ParseError>)
    ensures
        viewed(r) == header(input@),
        r matches Ok((_, info)) ==> info.well_formed(),
{
    let body = match strip_prefix(input, "## ") {
        Some(body) => body,
        None => {
            return Err(ParseError::MissingMarker);
        },
    };
    let (after_name, branch) = parse_branch_segment(body);
    let (rest, remote) = parse_remote_info(after_name)?;
    Ok((rest, BranchInfo { branch, remote }))
}

/// Parses a header line into its branch and remote; `None` where the line does not
/// open with `"## "`.
pub fn parse_branch(input: &str) -> (r: Option<BranchInfo>)
    ensures
        r is Some <==> starts_with(input@, "## "@),
        view_of(r) == match header(input@) {
            Ok((_, info)) => Some(info),
            Err(_) => None,
        },
        r matches Some(info) ==> info.well_formed(),
{
    match branch_parser(input) {
        Ok((_, info)) => Some(info),
        Err(_) => None,
    }
}

} // verus!
