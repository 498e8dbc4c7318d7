//! The grammar of the header line, `## <branch>[...<remote>[ <distance>]]`, as
//! spec functions. Each takes the text at the cursor and yields what was
//! recognised together with the text that follows it.

use vstd::prelude::*;
use crate::data::{BranchInfoView, Distance, RemoteView};
use crate::text::{
    decimal, decimal_value, first_occurrence, is_digit, is_trimmed, leading,
    lemma_decimal_round_trip, lemma_first_occurrence_extend, lemma_first_occurrence_from,
    lemma_leading_run, lemma_trailing_run, occurs_at, starts_with, trailing, trimmed, CharClass,
};

verus! {

/// Why a piece of text is not what the grammar asks for.
#[derive(Clone, Copy, Debug, PartialEq, Eq, Structural)]
pub enum ParseError {
    /// The line does not open with `"## "`.
    MissingMarker,
    /// A literal of the distance bracket is not where it belongs.
    MissingLiteral,
    /// No digit stands where a count belongs.
    MissingCount,
    /// A count is larger than an `i32` can hold.
    CountOutOfRange,
}

/// The literal `lit`: what follows it.
pub open spec fn literal(s: Seq<char>, lit: Seq<char>) -> Result<Seq<char>, ParseError> {
    if starts_with(s, lit) {
        Ok(s.skip(lit.len() as int))
    } else {
        Err(ParseError::MissingLiteral)
    }
}

/// A count: the longest run of digits, read in base 10.
pub open spec fn count(s: Seq<char>) -> Result<(Seq<char>, i32), ParseError> {
    let n = leading(s, CharClass::Digit) as int;
    if n == 0 {
        Err(ParseError::MissingCount)
    } else if decimal_value(s.take(n)) > i32::MAX {
        Err(ParseError::CountOutOfRange)
    } else {
        Ok((s.skip(n), decimal_value(s.take(n)) as i32))
    }
}

/// A count enclosed by the literals `open` and `close`.
pub open spec fn bracketed_count(s: Seq<char>, open: Seq<char>, close: Seq<char>) -> Result<
    (Seq<char>, i32),
    ParseError,
> {
    match literal(s, open) {
        Err(e) => Err(e),
        Ok(s1) => match count(s1) {
            Err(e) => Err(e),
            Ok((s2, n)) => match literal(s2, close) {
                Err(e) => Err(e),
                Ok(s3) => Ok((s3, n)),
            },
        },
    }
}

/// `[ahead <count>, behind <count>]`.
pub open spec fn ahead_behind(s: Seq<char>) -> Result<(Seq<char>, Distance), ParseError> {
    match bracketed_count(s, "[ahead "@, ", behind "@) {
        Err(e) => Err(e),
        Ok((s1, a)) => match count(s1) {
            Err(e) => Err(e),
            Ok((s2, b)) => match literal(s2, "]"@) {
                Err(e) => Err(e),
                Ok(s3) => Ok((s3, Distance::AheadBehind(a, b))),
            },
        },
    }
}

/// `[ahead <count>]`.
pub open spec fn ahead(s: Seq<char>) -> Result<(Seq<char>, Distance), ParseError> {
    match bracketed_count(s, "[ahead "@, "]"@) {
        Err(e) => Err(e),
        Ok((rest, n)) => Ok((rest, Distance::Ahead(n))),
    }
}

/// `[behind <count>]`.
pub open spec fn behind(s: Seq<char>) -> Result<(Seq<char>, Distance), ParseError> {
    match bracketed_count(s, "[behind "@, "]"@) {
        Err(e) => Err(e),
        Ok((rest, n)) => Ok((rest, Distance::Behind(n))),
    }
}

/// A distance: the first of [`ahead_behind`], [`ahead`] and [`behind`] that the text
/// satisfies, and the failure of the last where it satisfies none.
pub open spec fn distance(s: Seq<char>) -> Result<(Seq<char>, Distance), ParseError> {
    if ahead_behind(s) is Ok {
        ahead_behind(s)
    } else if ahead(s) is Ok {
        ahead(s)
    } else {
        behind(s)
    }
}

/// The name shown for the raw branch segment `raw`: trimmed, and freed of the
/// sentence in which git wraps the branch of a repository without commits.
pub open spec fn display_name(raw: Seq<char>) -> Seq<char> {
    let name = trimmed(raw);
    if starts_with(name, "Initial commit on "@) {
        trimmed(name.skip("Initial commit on "@.len() as int))
    } else if starts_with(name, "No commits yet on "@) {
        trimmed(name.skip("No commits yet on "@.len() as int))
    } else {
        name
    }
}

/// The branch segment, which ends before the first `...` or with the line: the text
/// from that `...` on, and the name shown for the segment.
pub open spec fn branch_segment(s: Seq<char>) -> (Seq<char>, Seq<char>) {
    match first_occurrence(s, "..."@) {
        Some(k) => (s.skip(k), display_name(s.take(k))),
        None => (Seq::empty(), display_name(s)),
    }
}

/// A branch segment that may come with leading whitespace and with the marker `"## "`
/// still in front of it.
pub open spec fn branch_name(s: Seq<char>) -> (Seq<char>, Seq<char>) {
    let body = s.skip(leading(s, CharClass::Whitespace) as int);
    if starts_with(body, "## "@) {
        branch_segment(body.skip("## "@.len() as int))
    } else {
        branch_segment(body)
    }
}

/// The remote section, which opens with `...`: the remote's name is the run of
/// characters up to the first space, trimmed; spaces follow, then a distance or
/// none. Text that does not open with `...` holds no remote section and is left as
/// it is; a `...` which nothing follows names no remote.
pub open spec fn remote_info(s: Seq<char>) -> (Seq<char>, Option<RemoteView>) {
    if starts_with(s, "..."@) {
        let section = s.skip("..."@.len() as int);
        let n = leading(section, CharClass::NonSpace) as int;
        let after_name = section.skip(n);
        let tail = after_name.skip(leading(after_name, CharClass::Space) as int);
        let (rest, found) = match distance(tail) {
            Ok((rest, d)) => (rest, Some(d)),
            Err(_) => (tail, None),
        };
        if section.len() == 0 {
            (rest, None)
        } else {
            (rest, Some(RemoteView { branch: trimmed(section.take(n)), distance: found }))
        }
    } else {
        (s, None)
    }
}

/// The header line: the marker `"## "`, the branch segment, the remote section.
pub open spec fn header(s: Seq<char>) -> Result<(Seq<char>, BranchInfoView), ParseError> {
    if starts_with(s, "## "@) {
        let (after_name, name) = branch_segment(s.skip("## "@.len() as int));
        let (rest, remote) = remote_info(after_name);
        Ok((rest, BranchInfoView { branch: name, remote }))
    } else {
        Err(ParseError::MissingMarker)
    }
}

/// A literal is recognised in front of any text, which is then what follows it.
pub proof fn lemma_literal(lit: Seq<char>, rest: Seq<char>)
    ensures
        literal(lit + rest, lit) == Ok::<Seq<char>, ParseError>(rest),
{
    assert((lit + rest).subrange(0, lit.len() as int) =~= lit);
    assert((lit + rest).skip(lit.len() as int) =~= rest);
}

/// A literal is not recognised in front of text that opens with another character.
pub proof fn lemma_literal_mismatch(s: Seq<char>, lit: Seq<char>)
    requires
        lit.len() > 0,
        s.len() > 0 ==> s[0] != lit[0],
    ensures
        literal(s, lit) is Err,
{
    if starts_with(s, lit) {
        assert(s.subrange(0, lit.len() as int)[0] == s[0]);
    }
}

/// The writing of a number that an `i32` holds is read back as that number, up to
/// the first character that is no digit.
pub proof fn lemma_count(n: nat, rest: Seq<char>)
    requires
        n <= i32::MAX,
        rest.len() > 0 ==> !is_digit(rest[0]),
    ensures
        count(decimal(n) + rest) == Ok::<(Seq<char>, i32), ParseError>((rest, n as i32)),
{
    let digits = decimal(n);
    let s = digits + rest;
    lemma_decimal_round_trip(n);
    assert forall|i: int| 0 <= i < digits.len() implies CharClass::Digit.contains(
        #[trigger] s[i],
    ) by {
        assert(s[i] == digits[i]);
    }
    assert(digits.len() < s.len() ==> s[digits.len() as int] == rest[0]);
    lemma_leading_run(s, CharClass::Digit, digits.len() as int);
    assert(s.take(digits.len() as int) =~= digits);
    assert(s.skip(digits.len() as int) =~= rest);
}

/// A count written between two literals is read back, where the closing literal
/// does not open with a digit.
pub proof fn lemma_bracketed_count(open: Seq<char>, n: nat, close: Seq<char>, rest: Seq<char>)
    requires
        n <= i32::MAX,
        close.len() > 0,
        !is_digit(close[0]),
    ensures
        bracketed_count(open + decimal(n) + close + rest, open, close) == Ok::<
            (Seq<char>, i32),
            ParseError,
        >((rest, n as i32)),
{
    let s = open + decimal(n) + close + rest;
    assert(s =~= open + (decimal(n) + (close + rest)));
    lemma_literal(open, decimal(n) + (close + rest));
    lemma_count(n, close + rest);
    lemma_literal(close, rest);
}

/// What [`Distance::text`] writes for a distance without negative counts is parsed
/// back into that distance, whatever text follows the bracket; that text is what
/// remains. So `[ahead a, behind b]` gives `AheadBehind(a, b)`, `[ahead a]` gives
/// `Ahead(a)` and `[behind b]` gives `Behind(b)`, for all counts `a` and `b` from 0 on.
pub proof fn lemma_distance_round_trip(d: Distance, rest: Seq<char>)
    requires
        d.well_formed(),
    ensures
        distance(d.text() + rest) == Ok::<(Seq<char>, Distance), ParseError>((rest, d)),
{
    reveal_strlit("[ahead ");
    reveal_strlit("[behind ");
    reveal_strlit(", behind ");
    reveal_strlit("]");
    let s = d.text() + rest;
    match d {
        Distance::AheadBehind(a, b) => {
            let tail = decimal(b as nat) + ("]"@ + rest);
            assert(s =~= "[ahead "@ + decimal(a as nat) + ", behind "@ + tail);
            lemma_bracketed_count("[ahead "@, a as nat, ", behind "@, tail);
            lemma_count(b as nat, "]"@ + rest);
            lemma_literal("]"@, rest);
        },
        Distance::Ahead(n) => {
            assert(s =~= "[ahead "@ + decimal(n as nat) + "]"@ + rest);
            assert(s =~= "[ahead "@ + (decimal(n as nat) + ("]"@ + rest)));
            lemma_literal("[ahead "@, decimal(n as nat) + ("]"@ + rest));
            lemma_count(n as nat, "]"@ + rest);
            lemma_literal_mismatch("]"@ + rest, ", behind "@);
            assert(ahead_behind(s) is Err);
            lemma_bracketed_count("[ahead "@, n as nat, "]"@, rest);
        },
        Distance::Behind(n) => {
            assert(s =~= "[behind "@ + decimal(n as nat) + "]"@ + rest);
            assert(s[1] == 'b');
            if starts_with(s, "[ahead "@) {
                assert(s.subrange(0, 7)[1] == s[1]);
            }
            assert(literal(s, "[ahead "@) is Err);
            lemma_bracketed_count("[behind "@, n as nat, "]"@, rest);
        },
    }
}

/// No count of a parsed distance is negative.
pub proof fn lemma_distance_well_formed(s: Seq<char>)
    ensures
        distance(s) matches Ok((_, d)) ==> d.well_formed(),
{
}

/// What trimming leaves has no whitespace at either end.
pub proof fn lemma_trimmed_is_trimmed(s: Seq<char>)
    ensures
        is_trimmed(trimmed(s)),
{
    let lead = leading(s, CharClass::Whitespace) as int;
    lemma_leading_run(s, CharClass::Whitespace, lead);
    let inner = s.skip(lead);
    let trail = trailing(inner, CharClass::Whitespace) as int;
    lemma_trailing_run(inner, CharClass::Whitespace, trail);
}

/// The name shown for a branch segment is trimmed.
pub proof fn lemma_display_name_trimmed(raw: Seq<char>)
    ensures
        is_trimmed(display_name(raw)),
{
    let name = trimmed(raw);
    lemma_trimmed_is_trimmed(raw);
    lemma_trimmed_is_trimmed(name.skip("Initial commit on "@.len() as int));
    lemma_trimmed_is_trimmed(name.skip("No commits yet on "@.len() as int));
}

/// Every name in a parsed header is trimmed, and no count is negative.
pub proof fn lemma_header_well_formed(s: Seq<char>)
    ensures
        header(s) matches Ok((_, info)) ==> info.well_formed(),
{
    if header(s) is Ok {
        let body = s.skip("## "@.len() as int);
        match first_occurrence(body, "..."@) {
            Some(k) => lemma_display_name_trimmed(body.take(k)),
            None => lemma_display_name_trimmed(body),
        }
        let after_name = branch_segment(body).0;
        if starts_with(after_name, "..."@) {
            let section = after_name.skip("..."@.len() as int);
            let n = leading(section, CharClass::NonSpace) as int;
            lemma_trimmed_is_trimmed(section.take(n));
            let after = section.skip(n);
            lemma_distance_well_formed(after.skip(leading(after, CharClass::Space) as int));
        }
    }
}

/// A line that does not open with `"## "` is no header, and every line that does is one.
pub proof fn lemma_header_needs_marker(s: Seq<char>)
    ensures
        header(s) is Ok <==> starts_with(s, "## "@),
        header(s) is Err ==> header(s) == Err::<(Seq<char>, BranchInfoView), ParseError>(
            ParseError::MissingMarker,
        ),
{
}

/// The text after the first `...` of `body`; empty where `body` holds no `...`.
pub open spec fn remote_section(body: Seq<char>) -> Seq<char> {
    match first_occurrence(body, "..."@) {
        Some(k) => body.skip(k + "..."@.len() as int),
        None => Seq::empty(),
    }
}

/// `x...y` names a remote and nothing more: after its first `...` comes a run of
/// characters other than space, and behind that run nothing but spaces.
pub open spec fn names_remote(x: Seq<char>, y: Seq<char>) -> bool {
    let section = remote_section(x + "..."@ + y);
    forall|i: int|
        leading(section, CharClass::NonSpace) <= i < section.len() ==> section[i] == ' '
}

/// Names without a space name a remote: every `x...y` of two such names meets
/// [`names_remote`].
pub proof fn lemma_spaceless_names_remote(x: Seq<char>, y: Seq<char>)
    requires
        !x.contains(' '),
        !y.contains(' '),
    ensures
        names_remote(x, y),
{
    reveal_strlit("...");
    let body = x + "..."@ + y;
    let section = remote_section(body);
    assert forall|i: int| 0 <= i < body.len() implies body[i] != ' ' by {
        if i < x.len() {
            assert(x.contains(body[i]));
        } else if i >= x.len() + 3 {
            assert(y[i - x.len() - 3] == body[i]);
            assert(y.contains(body[i]));
        }
    }
    assert forall|i: int| 0 <= i < section.len() implies CharClass::NonSpace.contains(
        #[trigger] section[i],
    ) by {
        let k = first_occurrence(body, "..."@)->0;
        lemma_first_occurrence_from(body, "..."@, 0);
        assert(section[i] == body[k + 3 + i]);
    }
    lemma_leading_run(section, CharClass::NonSpace, section.len() as int);
}

/// The remote's name in `body`: the run of characters other than space behind the
/// first `...`, trimmed.
pub open spec fn remote_name(body: Seq<char>) -> Seq<char> {
    let section = remote_section(body);
    trimmed(section.take(leading(section, CharClass::NonSpace) as int))
}

/// The line `## x...y <distance>`, with the distance written as git writes it.
pub open spec fn line_with_distance(x: Seq<char>, y: Seq<char>, d: Distance) -> Seq<char> {
    "## "@ + x + "..."@ + y + " "@ + d.text()
}

/// The bracket that writes a distance opens with `[`.
proof fn lemma_text_opens_with_bracket(d: Distance)
    ensures
        d.text().len() > 0,
        d.text()[0] == '[',
{
    reveal_strlit("[ahead ");
    reveal_strlit("[behind ");
}

/// A remote section made of a name, spaces and a written distance parses into the
/// name, trimmed, and that distance, and nothing remains.
proof fn lemma_remote_info_with_distance(name_and_spaces: Seq<char>, d: Distance)
    requires
        d.well_formed(),
        forall|i: int|
            leading(name_and_spaces, CharClass::NonSpace) <= i < name_and_spaces.len()
                ==> name_and_spaces[i] == ' ',
    ensures
        remote_info("..."@ + name_and_spaces + " "@ + d.text()) == (
            Seq::<char>::empty(),
            Some(
                RemoteView {
                    branch: trimmed(
                        name_and_spaces.take(
                            leading(name_and_spaces, CharClass::NonSpace) as int,
                        ),
                    ),
                    distance: Some(d),
                },
            ),
        ),
{
    reveal_strlit(" ");
    let pat = "..."@;
    let more = " "@ + d.text();
    let s = pat + name_and_spaces + " "@ + d.text();
    assert(s.subrange(0, pat.len() as int) =~= pat);
    let section = s.skip(pat.len() as int);
    assert(section =~= name_and_spaces + more);
    let n = leading(name_and_spaces, CharClass::NonSpace) as int;
    lemma_leading_run(name_and_spaces, CharClass::NonSpace, n);
    assert forall|i: int| 0 <= i < n implies CharClass::NonSpace.contains(
        #[trigger] section[i],
    ) by {
        assert(section[i] == name_and_spaces[i]);
    }
    assert(section[n] == ' ') by {
        if n < name_and_spaces.len() {
            assert(section[n] == name_and_spaces[n]);
        } else {
            assert(section[n] == more[0]);
        }
    }
    lemma_leading_run(section, CharClass::NonSpace, n);
    assert(section.take(n) =~= name_and_spaces.take(n));

    let after = section.skip(n);
    let spaces = name_and_spaces.len() - n + 1;
    lemma_text_opens_with_bracket(d);
    assert forall|i: int| 0 <= i < spaces implies CharClass::Space.contains(
        #[trigger] after[i],
    ) by {
        if i < spaces - 1 {
            assert(after[i] == name_and_spaces[n + i]);
        } else {
            assert(after[i] == more[0]);
        }
    }
    assert(after[spaces] == d.text()[0]);
    lemma_leading_run(after, CharClass::Space, spaces);
    assert(after.skip(spaces) =~= d.text() + Seq::<char>::empty());
    lemma_distance_round_trip(d, Seq::empty());
}

/// Text added behind a body that holds a `...` leaves the branch segment as it is.
proof fn lemma_branch_segment_extend(body: Seq<char>, more: Seq<char>)
    requires
        first_occurrence(body, "..."@) is Some,
    ensures
        branch_segment(body + more) == (
            "..."@ + remote_section(body) + more,
            branch_segment(body).1,
        ),
{
    let pat = "..."@;
    let k = first_occurrence(body, pat)->0;
    lemma_first_occurrence_from(body, pat, 0);
    lemma_first_occurrence_extend(body, more, pat, 0);
    assert((body + more).take(k) =~= body.take(k));
    assert((body + more).skip(k) =~= body.subrange(k, k + pat.len()) + body.skip(
        k + pat.len() as int,
    ) + more);
}

/// The header `## x...y <distance>` parses to the end of the line, into a remote
/// with exactly that distance. In particular `## x...y [ahead a, behind b]` gives
/// `AheadBehind(a, b)`, `## x...y [ahead a]` gives `Ahead(a)` and
/// `## x...y [behind b]` gives `Behind(b)`, for all counts from 0 on and, among
/// others, all `x` and `y` without a space.
pub proof fn lemma_header_distance(x: Seq<char>, y: Seq<char>, d: Distance)
    requires
        d.well_formed(),
        names_remote(x, y),
    ensures
        header(line_with_distance(x, y, d)) == Ok::<(Seq<char>, BranchInfoView), ParseError>(
            (
                Seq::empty(),
                BranchInfoView {
                    branch: branch_segment(x + "..."@ + y).1,
                    remote: Some(
                        RemoteView { branch: remote_name(x + "..."@ + y), distance: Some(d) },
                    ),
                },
            ),
        ),
{
    let pat = "..."@;
    let body = x + pat + y;
    let more = " "@ + d.text();
    let line = line_with_distance(x, y, d);
    assert(line.subrange(0, "## "@.len() as int) =~= "## "@);
    assert(line.skip("## "@.len() as int) =~= body + more);
    assert(body.subrange(x.len() as int, x.len() as int + pat.len()) =~= pat);
    assert(occurs_at(body, pat, x.len() as int));
    lemma_first_occurrence_from(body, pat, 0);
    lemma_branch_segment_extend(body, more);
    lemma_remote_info_with_distance(remote_section(body), d);
    assert(pat + remote_section(body) + more =~= pat + remote_section(body) + " "@ + d.text());
}

} // verus!
