//! Character-level vocabulary shared by the parsers: character classes, runs,
//! prefixes, first occurrences, trimming and decimal numbers. Each notion is a
//! spec function over `Seq<char>` with a verified executable counterpart on
//! `&str`.

use vstd::prelude::*;
use vstd::std_specs::iter::IteratorSpec;

verus! {

/// The sets of characters the grammar distinguishes.
#[derive(Clone, Copy, Debug, PartialEq, Eq, Structural)]
pub enum CharClass {
    /// Characters with the Unicode `White_Space` property.
    Whitespace,
    /// The space character `' '` alone.
    Space,
    /// Everything but the space character.
    NonSpace,
    /// The ASCII decimal digits.
    Digit,
}

/// Whether `c` has the Unicode `White_Space` property.
pub open spec fn is_whitespace(c: char) -> bool {
    ||| '\u{9}' <= c <= '\u{d}'
    ||| c == ' '
    ||| c == '\u{85}'
    ||| c == '\u{a0}'
    ||| c == '\u{1680}'
    ||| '\u{2000}' <= c <= '\u{200a}'
    ||| c == '\u{2028}'
    ||| c == '\u{2029}'
    ||| c == '\u{202f}'
    ||| c == '\u{205f}'
    ||| c == '\u{3000}'
}

/// Whether `c` is one of `'0'..='9'`.
pub open spec fn is_digit(c: char) -> bool {
    '0' <= c <= '9'
}

impl CharClass {
    /// Membership of `c` in the class.
    pub open spec fn contains(self, c: char) -> bool {
        match self {
            CharClass::Whitespace => is_whitespace(c),
            CharClass::Space => c == ' ',
            CharClass::NonSpace => c != ' ',
            CharClass::Digit => is_digit(c),
        }
    }

    /// Tests membership of `c` in the class.
    pub fn holds(self, c: char) -> (r: bool)
        ensures
            r == self.contains(c),
    {
        match self {
            CharClass::Whitespace => {
                ('\u{9}' <= c && c <= '\u{d}') || c == ' ' || c == '\u{85}' || c == '\u{a0}'
                    || c == '\u{1680}' || ('\u{2000}' <= c && c <= '\u{200a}') || c == '\u{2028}'
                    || c == '\u{2029}' || c == '\u{202f}' || c == '\u{205f}' || c == '\u{3000}'
            },
            CharClass::Space => c == ' ',
            CharClass::NonSpace => c != ' ',
            CharClass::Digit => '0' <= c && c <= '9',
        }
    }
}

/// Length of the longest prefix of `s` made of characters of `class`.
pub open spec fn leading(s: Seq<char>, class: CharClass) -> nat
    decreases s.len(),
{
    if s.len() > 0 && class.contains(s[0]) {
        1 + leading(s.skip(1), class)
    } else {
        0
    }
}

/// Length of the longest suffix of `s` made of characters of `class`.
pub open spec fn trailing(s: Seq<char>, class: CharClass) -> nat
    decreases s.len(),
{
    if s.len() > 0 && class.contains(s.last()) {
        1 + trailing(s.drop_last(), class)
    } else {
        0
    }
}

/// `n` characters of `class` open `s`, and the one after them, if any, is not of `class`.
pub open spec fn is_leading_run(s: Seq<char>, class: CharClass, n: int) -> bool {
    &&& 0 <= n <= s.len()
    &&& forall|i: int| 0 <= i < n ==> class.contains(#[trigger] s[i])
    &&& n < s.len() ==> !class.contains(s[n])
}

/// `n` characters of `class` close `s`, and the one before them, if any, is not of `class`.
pub open spec fn is_trailing_run(s: Seq<char>, class: CharClass, n: int) -> bool {
    &&& 0 <= n <= s.len()
    &&& forall|i: int| s.len() - n <= i < s.len() ==> class.contains(#[trigger] s[i])
    &&& n < s.len() ==> !class.contains(s[s.len() - n - 1])
}

/// `leading` is the one length that [`is_leading_run`] accepts.
pub proof fn lemma_leading_run(s: Seq<char>, class: CharClass, n: int)
    ensures
        is_leading_run(s, class, n) <==> n == leading(s, class),
    decreases s.len(),
{
    if s.len() > 0 && class.contains(s[0]) {
        let t = s.skip(1);
        lemma_leading_run(t, class, n - 1);
        if is_leading_run(s, class, n) {
            assert(n >= 1) by {
                if n == 0 {
                    assert(!class.contains(s[0]));
                }
            }
            assert forall|i: int| 0 <= i < n - 1 implies class.contains(#[trigger] t[i]) by {
                assert(t[i] == s[i + 1]);
            }
            assert(n - 1 < t.len() ==> t[n - 1] == s[n]);
            assert(is_leading_run(t, class, n - 1));
        }
        if n == leading(s, class) {
            assert(is_leading_run(t, class, n - 1));
            assert forall|i: int| 0 <= i < n implies class.contains(#[trigger] s[i]) by {
                if i > 0 {
                    assert(s[i] == t[i - 1]);
                }
            }
            assert(n < s.len() ==> s[n] == t[n - 1]);
        }
    } else {
        if is_leading_run(s, class, n) && n > 0 {
            assert(class.contains(s[0]));
        }
    }
}

/// `trailing` is the one length that [`is_trailing_run`] accepts.
pub proof fn lemma_trailing_run(s: Seq<char>, class: CharClass, n: int)
    ensures
        is_trailing_run(s, class, n) <==> n == trailing(s, class),
    decreases s.len(),
{
    if s.len() > 0 && class.contains(s.last()) {
        let t = s.drop_last();
        lemma_trailing_run(t, class, n - 1);
        if is_trailing_run(s, class, n) {
            assert(n >= 1) by {
                if n == 0 {
                    assert(!class.contains(s[s.len() - 1]));
                }
            }
            assert forall|i: int| t.len() - (n - 1) <= i < t.len() implies class.contains(
                #[trigger] t[i],
            ) by {
                assert(t[i] == s[i]);
            }
            assert(n - 1 < t.len() ==> t[t.len() - (n - 1) - 1] == s[s.len() - n - 1]);
            assert(is_trailing_run(t, class, n - 1));
        }
        if n == trailing(s, class) {
            assert(is_trailing_run(t, class, n - 1));
            assert forall|i: int| s.len() - n <= i < s.len() implies class.contains(
                #[trigger] s[i],
            ) by {
                if i < s.len() - 1 {
                    assert(s[i] == t[i]);
                }
            }
            assert(n < s.len() ==> s[s.len() - n - 1] == t[t.len() - (n - 1) - 1]);
        }
    } else {
        if is_trailing_run(s, class, n) && n > 0 {
            assert(class.contains(s[s.len() - 1]));
        }
    }
}

/// `s` without its leading and trailing whitespace.
pub open spec fn trimmed(s: Seq<char>) -> Seq<char> {
    let t = s.skip(leading(s, CharClass::Whitespace) as int);
    t.take(t.len() - trailing(t, CharClass::Whitespace))
}

/// Neither end of `s` is whitespace.
pub open spec fn is_trimmed(s: Seq<char>) -> bool {
    s.len() > 0 ==> !is_whitespace(s.first()) && !is_whitespace(s.last())
}

/// `pat` stands in `s` at index `i`.
pub open spec fn occurs_at(s: Seq<char>, pat: Seq<char>, i: int) -> bool {
    0 <= i && i + pat.len() <= s.len() && s.subrange(i, i + pat.len()) =~= pat
}

/// `pat` opens `s`.
pub open spec fn starts_with(s: Seq<char>, pat: Seq<char>) -> bool {
    occurs_at(s, pat, 0)
}

/// Index of the first occurrence of `pat` in `s` at or after `from`.
pub open spec fn first_occurrence_from(s: Seq<char>, pat: Seq<char>, from: int) -> Option<int>
    decreases s.len() - from,
{
    if from < 0 || from + pat.len() > s.len() {
        None
    } else if occurs_at(s, pat, from) {
        Some(from)
    } else {
        first_occurrence_from(s, pat, from + 1)
    }
}

/// Index of the first occurrence of `pat` in `s`.
pub open spec fn first_occurrence(s: Seq<char>, pat: Seq<char>) -> Option<int> {
    first_occurrence_from(s, pat, 0)
}

/// What [`first_occurrence_from`] finds is an occurrence with none between `from` and
/// it, and it finds nothing only where there is none.
pub proof fn lemma_first_occurrence_from(s: Seq<char>, pat: Seq<char>, from: int)
    requires
        0 <= from,
    ensures
        match first_occurrence_from(s, pat, from) {
            Some(k) => from <= k && occurs_at(s, pat, k) && forall|j: int|
                from <= j < k ==> !occurs_at(s, pat, j),
            None => forall|j: int| from <= j ==> !occurs_at(s, pat, j),
        },
    decreases s.len() - from,
{
    if from + pat.len() <= s.len() && !occurs_at(s, pat, from) {
        lemma_first_occurrence_from(s, pat, from + 1);
    }
}

/// Text added behind `s` does not move the first occurrence that `s` holds.
pub proof fn lemma_first_occurrence_extend(
    s: Seq<char>,
    more: Seq<char>,
    pat: Seq<char>,
    from: int,
)
    requires
        0 <= from,
        first_occurrence_from(s, pat, from) is Some,
    ensures
        first_occurrence_from(s + more, pat, from) == first_occurrence_from(s, pat, from),
    decreases s.len() - from,
{
    if from + pat.len() <= s.len() {
        assert((s + more).subrange(from, from + pat.len()) =~= s.subrange(
            from,
            from + pat.len(),
        ));
        if !occurs_at(s, pat, from) {
            lemma_first_occurrence_extend(s, more, pat, from + 1);
        }
    }
}

/// Every character of `s` is a decimal digit.
pub open spec fn all_digits(s: Seq<char>) -> bool {
    forall|i: int| 0 <= i < s.len() ==> is_digit(#[trigger] s[i])
}

/// Value of the digit `c`.
pub open spec fn digit_value(c: char) -> nat
    recommends
        is_digit(c),
{
    (c as int - '0' as int) as nat
}

/// Value of the digits `s` read as a base-10 number; the empty sequence reads as 0.
pub open spec fn decimal_value(s: Seq<char>) -> nat
    decreases s.len(),
{
    if s.len() == 0 {
        0
    } else {
        decimal_value(s.drop_last()) * 10 + digit_value(s.last())
    }
}

/// A prefix of a digit sequence reads as no more than the whole.
pub proof fn lemma_decimal_value_prefix(s: Seq<char>, n: int)
    requires
        0 <= n <= s.len(),
    ensures
        decimal_value(s.take(n)) <= decimal_value(s),
    decreases s.len(),
{
    if n == s.len() {
        assert(s.take(n) =~= s);
    } else {
        lemma_decimal_value_prefix(s.drop_last(), n);
        assert(s.drop_last().take(n) =~= s.take(n));
    }
}

/// The character that writes the digit `d`.
pub open spec fn digit_char(d: nat) -> char
    recommends
        d < 10,
{
    ('0' as u8 + d) as char
}

/// The base-10 writing of `n`, without leading zeros.
pub open spec fn decimal(n: nat) -> Seq<char>
    decreases n,
{
    if n < 10 {
        seq![digit_char(n)]
    } else {
        decimal(n / 10).push(digit_char(n % 10))
    }
}

/// The base-10 writing of `n`, with a minus sign where `n` is negative.
pub open spec fn signed_decimal(n: int) -> Seq<char> {
    if n < 0 {
        seq!['-'] + decimal((-n) as nat)
    } else {
        decimal(n as nat)
    }
}

/// Writing a number and reading it back gives the number.
pub proof fn lemma_decimal_round_trip(n: nat)
    ensures
        decimal(n).len() > 0,
        all_digits(decimal(n)),
        decimal_value(decimal(n)) == n,
    decreases n,
{
    if n < 10 {
        assert(decimal(n).drop_last() =~= Seq::<char>::empty());
        reveal_with_fuel(decimal_value, 2);
    } else {
        lemma_decimal_round_trip(n / 10);
        assert(decimal(n).drop_last() =~= decimal(n / 10));
    }
}

/// Whether `c` is a decimal digit, and which.
pub fn digit_of(c: char) -> (d: Option<i32>)
    ensures
        d is Some <==> is_digit(c),
        d is Some ==> d->0 == digit_value(c),
{
    match c {
        '0' => Some(0),
        '1' => Some(1),
        '2' => Some(2),
        '3' => Some(3),
        '4' => Some(4),
        '5' => Some(5),
        '6' => Some(6),
        '7' => Some(7),
        '8' => Some(8),
        '9' => Some(9),
        _ => None,
    }
}

/// Removes `prefix` from the front of `s`, if it stands there.
pub fn strip_prefix<'a>(s: &'a str, prefix: &str) -> (r: Option<&'a str>)
    ensures
        match r {
            Some(rest) => starts_with(s@, prefix@) && rest@ == s@.skip(prefix@.len() as int),
            None => !starts_with(s@, prefix@),
        },
{
    let total = s.unicode_len();
    let mut text = s.chars();
    let mut pat = prefix.chars();
    let mut n: usize = 0;
    loop
        invariant_except_break
            text.remaining() == s@.skip(n as int),
            pat.remaining() == prefix@.skip(n as int),
        invariant
            total == s@.len(),
            n <= total,
            n <= prefix@.len(),
            forall|i: int| 0 <= i < n ==> s@[i] == prefix@[i],
        ensures
            n == prefix@.len(),
        decreases prefix@.len() - n,
    {
        match pat.next() {
            None => {
                break ;
            },
            Some(wanted) => {
                match text.next() {
                    Some(found) => {
                        if found != wanted {
                            proof {
                                if starts_with(s@, prefix@) {
                                    assert(s@.subrange(0, prefix@.len() as int)[n as int]
                                        == s@[n as int]);
                                }
                            }
                            return None;
                        }
                    },
                    None => {
                        return None;
                    },
                }
            },
        }
        n += 1;
    }
    Some(s.substring_char(n, total))
}

/// Splits `s` after its leading run of characters of `class`.
pub fn split_run<'a>(s: &'a str, class: CharClass) -> (r: (&'a str, &'a str))
    ensures
        r.0@ == s@.take(leading(s@, class) as int),
        r.1@ == s@.skip(leading(s@, class) as int),
{
    let total = s.unicode_len();
    let mut rest = s.chars();
    let mut n: usize = 0;
    loop
        invariant_except_break
            rest.remaining() == s@.skip(n as int),
        invariant
            total == s@.len(),
            n <= total,
            forall|i: int| 0 <= i < n ==> class.contains(#[trigger] s@[i]),
        ensures
            is_leading_run(s@, class, n as int),
        decreases total - n,
    {
        match rest.next() {
            Some(c) => {
                if !class.holds(c) {
                    break ;
                }
            },
            None => {
                break ;
            },
        }
        n += 1;
    }
    proof {
        lemma_leading_run(s@, class, n as int);
    }
    (s.substring_char(0, n), s.substring_char(n, total))
}

/// `s` without its leading and trailing whitespace.
pub fn trim(s: &str) -> (r: &str)
    ensures
        r@ == trimmed(s@),
{
    let total = s.unicode_len();
    let mut start: usize = 0;
    let mut end: usize = 0;
    let mut n: usize = 0;
    for c in it: s.chars()
        invariant
            it.seq() == s@,
            n == it.index(),
            total == s@.len(),
            start <= end <= n,
            forall|i: int| 0 <= i < start ==> is_whitespace(#[trigger] s@[i]),
            forall|i: int| end <= i < n ==> is_whitespace(#[trigger] s@[i]),
            start < end ==> !is_whitespace(s@[start as int]) && !is_whitespace(s@[end - 1]),
            start == end ==> end == n,
    {
        if !CharClass::Whitespace.holds(c) {
            if start == end {
                start = n;
            }
            end = n + 1;
        } else if start == end {
            start = n + 1;
            end = n + 1;
        }
        n += 1;
    }
    proof {
        let inner = s@.skip(start as int);
        lemma_leading_run(s@, CharClass::Whitespace, start as int);
        lemma_trailing_run(inner, CharClass::Whitespace, total - end);
        assert(s@.subrange(start as int, end as int) =~= inner.take(end - start));
    }
    s.substring_char(start, end)
}

/// Reads `s` as a base-10 number: `Some` where `s` is one or more digits whose value
/// fits an `i32`.
pub fn decimal_i32(s: &str) -> (r: Option<i32>)
    ensures
        r is Some <==> s@.len() > 0 && all_digits(s@) && decimal_value(s@) <= i32::MAX,
        r is Some ==> r->0 == decimal_value(s@),
{
    let mut acc: i32 = 0;
    let mut any = false;
    for c in it: s.chars()
        invariant
            it.seq() == s@,
            any == (it.index() > 0),
            all_digits(s@.take(it.index())),
            acc == decimal_value(s@.take(it.index())),
    {
        proof {
            assert(s@.take(it.index() + 1).drop_last() =~= s@.take(it.index()));
            lemma_decimal_value_prefix(s@, it.index() + 1);
        }
        match digit_of(c) {
            Some(d) => {
                if acc > (i32::MAX - d) / 10 {
                    return None;
                }
                acc = acc * 10 + d;
                any = true;
            },
            None => {
                return None;
            },
        }
    }
    assert(s@.take(s@.len() as int) =~= s@);
    if any {
        Some(acc)
    } else {
        None
    }
}

/// The characters of `s`, for constant-time indexing.
pub fn chars_of(s: &str) -> (v: Vec<char>)
    ensures
        v@ == s@,
{
    let mut v: Vec<char> = Vec::new();
    for c in it: s.chars()
        invariant
            v@ == it.seq().take(it.index()),
            it.seq() == s@,
    {
        v.push(c);
    }
    v
}

/// Whether `pat` stands in `text` at index `at`.
fn matches_at(text: &Vec<char>, pat: &Vec<char>, at: usize) -> (r: bool)
    requires
        at + pat.len() <= text.len(),
    ensures
        r == occurs_at(text@, pat@, at as int),
{
    let mut j: usize = 0;
    while j < pat.len()
        invariant
            j <= pat.len(),
            at + pat.len() <= text.len(),
            forall|i: int| 0 <= i < j ==> text@[at + i] == pat@[i],
        decreases pat.len() - j,
    {
        if text[at + j] != pat[j] {
            assert(text@.subrange(at as int, at + pat.len())[j as int] == text@[at + j]);
            return false;
        }
        j += 1;
    }
    true
}

/// Splits `s` before the first occurrence of `pat`; `None` where `pat` does not occur.
pub fn split_before<'a>(s: &'a str, pat: &str) -> (r: Option<(&'a str, &'a str)>)
    ensures
        match r {
            Some((head, tail)) => first_occurrence(s@, pat@) is Some && head@ == s@.take(
                first_occurrence(s@, pat@)->0,
            ) && tail@ == s@.skip(first_occurrence(s@, pat@)->0),
            None => first_occurrence(s@, pat@) is None,
        },
{
    let text = chars_of(s);
    let needle = chars_of(pat);
    if needle.len() > text.len() {
        return None;
    }
    let last: usize = text.len() - needle.len();
    let mut k: usize = 0;
    while k <= last
        invariant
            last + needle.len() == text.len(),
            k <= last + 1,
            text@ == s@,
            needle@ == pat@,
            first_occurrence(s@, pat@) == first_occurrence_from(s@, pat@, k as int),
        decreases last + 1 - k,
    {
        if matches_at(&text, &needle, k) {
            return Some((s.substring_char(0, k), s.substring_char(k, text.len())));
        }
        k += 1;
    }
    None
}

/// The one-character text that writes the digit `d`.
fn digit_text(d: u32) -> (r: &'static str)
    requires
        d < 10,
    ensures
        r@ == seq![digit_char(d as nat)],
{
    proof {
        reveal_strlit("0");
        reveal_strlit("1");
        reveal_strlit("2");
        reveal_strlit("3");
        reveal_strlit("4");
        reveal_strlit("5");
        reveal_strlit("6");
        reveal_strlit("7");
        reveal_strlit("8");
        reveal_strlit("9");
    }
    let r = match d {
        0 => "0",
        1 => "1",
        2 => "2",
        3 => "3",
        4 => "4",
        5 => "5",
        6 => "6",
        7 => "7",
        8 => "8",
        _ => "9",
    };
    assert(r@ =~= seq![digit_char(d as nat)]);
    r
}

/// Appends the base-10 writing of `n` to `out`.
fn push_decimal(out: &mut String, n: u32)
    ensures
        final(out)@ == old(out)@ + decimal(n as nat),
    decreases n,
{
    if n >= 10 {
        push_decimal(out, n / 10);
    }
    out.append(digit_text(n % 10));
    assert(out@ =~= old(out)@ + decimal(n as nat));
}

/// Appends the base-10 writing of `n` to `out`, with a minus sign where `n` is negative.
pub fn push_signed_decimal(out: &mut String, n: i32)
    ensures
        final(out)@ == old(out)@ + signed_decimal(n as int),
{
    if n < 0 {
        proof {
            reveal_strlit("-");
        }
        out.append("-");
        let m: i64 = -(n as i64);
        push_decimal(out, m as u32);
        assert(out@ =~= old(out)@ + signed_decimal(n as int));
    } else {
        push_decimal(out, n as u32);
    }
}

} // verus!
