use gitstatus::text::{decimal_i32, split_before, split_run, strip_prefix, CharClass};
use nom::bytes::complete::{tag, take_until};
use nom::character::complete::digit1;
use nom::combinator::map_res;
use nom::error::Error;

const INPUTS: [&str; 24] = [
    "",
    "#",
    "## ",
    "## main",
    "## main...origin/main [ahead 3, behind 2]",
    "main...origin/main",
    "...",
    "....",
    "a..b...c",
    "..",
    "[ahead 3]",
    "[ahead 3, behind 2]",
    "[behind 12]tail",
    ", behind 2]",
    "]",
    "3]",
    "0042, behind 7]",
    "2147483647]",
    "2147483648]",
    "٣٤]",
    "é...ü",
    " [ahead 1]",
    "12",
    "x12",
];

const LITERALS: [&str; 7] = ["## ", "...", "[ahead ", "[behind ", ", behind ", "]", " "];

#[test]
fn strip_prefix_is_nom_tag() {
    for input in INPUTS {
        for lit in LITERALS {
            let expected = tag::<&str, &str, Error<&str>>(lit)(input).ok().map(|(rest, _)| rest);
            assert_eq!(strip_prefix(input, lit), expected, "{:?} {:?}", input, lit);
        }
    }
}

#[test]
fn split_before_is_nom_take_until() {
    for input in INPUTS {
        for pat in ["...", " ", "]"] {
            let expected = take_until::<&str, &str, Error<&str>>(pat)(input)
                .ok()
                .map(|(rest, head)| (head, rest));
            assert_eq!(split_before(input, pat), expected, "{:?} {:?}", input, pat);
        }
    }
}

#[test]
fn digit_run_is_nom_digit1() {
    for input in INPUTS {
        let (digits, rest) = split_run(input, CharClass::Digit);
        match digit1::<&str, Error<&str>>(input) {
            Ok((expected_rest, expected_digits)) => {
                assert_eq!((digits, rest), (expected_digits, expected_rest), "{:?}", input);
            }
            Err(_) => assert_eq!((digits, rest), ("", input), "{:?}", input),
        }
    }
}

#[test]
fn count_is_nom_digit1_then_parse() {
    for input in INPUTS {
        let (digits, rest) = split_run(input, CharClass::Digit);
        let ours = decimal_i32(digits).map(|n| (rest, n));
        let theirs = map_res(digit1::<&str, Error<&str>>, |s: &str| s.parse::<i32>())(input).ok();
        assert_eq!(ours, theirs, "{:?}", input);
    }
}
