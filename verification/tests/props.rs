use simple_combinators::combinator::{attempt, many, many1, optional, preview, satisfy, FlatMap};
use simple_combinators::cursor::Cursor;
use simple_combinators::numeric::{DecimalI64, PlainI64};
use simple_combinators::parser::{
    alpha, char, digit, number_i64, one_of, quoted_string, string, NumericChar,
};
use simple_combinators::{slice_some, IntoParseError, ParseError, Parser, ParserExt};

fn cursor_of(s: &str) -> Cursor {
    Cursor::new(s.chars().collect())
}

fn to_chars(s: &str) -> Vec<char> {
    s.chars().collect()
}

fn remaining_of(c: &Cursor) -> String {
    c.input[c.pos..].iter().collect()
}

// A failing primitive leaves the cursor byte-for-byte unchanged.
#[test]
fn primitive_failure_keeps_cursor() {
    let mut buf = cursor_of("xyz");
    assert!(digit().parse(&mut buf).is_err());
    assert_eq!(buf.pos, 0);
    assert_eq!(remaining_of(&buf), "xyz");

    let mut buf = cursor_of("xylophone");
    assert!(string(to_chars("xyz")).parse(&mut buf).is_err());
    assert_eq!(buf.pos, 0);
    assert_eq!(remaining_of(&buf), "xylophone");
}

// `attempt` restores the cursor even when the inner parser consumed part of
// the input before failing.
#[test]
fn attempt_restores_after_partial_consumption() {
    let mut buf = cursor_of("abX");
    let p = attempt(char('a').with(char('b')).with(char('c')));
    assert!(p.parse(&mut buf).is_err());
    assert_eq!(buf.pos, 0);
}

// `preview` restores the cursor on success as well as on failure.
#[test]
fn preview_restores_on_both_outcomes() {
    let mut buf = cursor_of("word");
    assert_eq!(preview(alpha().with(alpha())).parse(&mut buf).unwrap(), 'o');
    assert_eq!(buf.pos, 0);
    assert!(preview(digit()).parse(&mut buf).is_err());
    assert_eq!(buf.pos, 0);
}

// `many` of an always-failing parser yields the empty collection and never
// fails; `many1` fails without consuming.
#[test]
fn many_of_failing_parser_is_empty() {
    let mut buf = cursor_of("abc");
    assert_eq!(many(digit()).parse(&mut buf).unwrap(), Vec::<char>::new());
    assert_eq!(buf.pos, 0);
    assert!(many1(digit()).parse(&mut buf).is_err());
    assert_eq!(buf.pos, 0);
}

// A collection round that stops consuming ends the repetition instead of
// spinning forever.
#[test]
fn many_stops_on_empty_progress() {
    let mut buf = cursor_of("xyz");
    let collected = many(optional(digit())).parse(&mut buf).unwrap();
    assert_eq!(collected, Vec::<Option<char>>::new());
    assert_eq!(buf.pos, 0);
}

// Ordered choice: a left branch that fails after consuming does not shift
// the right branch's starting position.
#[test]
fn or_never_mixes_branches() {
    let mut buf = cursor_of("ax");
    let p = char('a').with(char('b')).or(char('a').with(char('x')));
    assert_eq!(p.parse(&mut buf).unwrap(), 'x');
    assert_eq!(buf.pos, 2);
}

// `repeat` that falls short rolls back to the pre-call cursor.
#[test]
fn repeat_rolls_back_fully() {
    let mut buf = cursor_of("aaaa");
    assert!(char('a').repeat(5).parse(&mut buf).is_err());
    assert_eq!(buf.pos, 0);
    assert_eq!(remaining_of(&buf), "aaaa");
}

// A trailing separator is consumed and the collected values are the same.
#[test]
fn sep_by_tolerates_trailing_separator() {
    let mut with_trailing = cursor_of("a,a,a,");
    let mut without = cursor_of("a,a,a");
    let collected1 = alpha().sep_by(char(',')).parse(&mut with_trailing).unwrap();
    let collected2 = alpha().sep_by(char(',')).parse(&mut without).unwrap();
    assert_eq!(collected1, to_chars("aaa"));
    assert_eq!(collected2, to_chars("aaa"));
    assert_eq!(remaining_of(&with_trailing), "");
    assert_eq!(remaining_of(&without), "");
}

// `satisfy` of a vowel test on "ocean" yields 'o' and leaves "cean".
#[test]
fn satisfy_vowel_on_ocean() {
    let mut buf = cursor_of("ocean");
    let vowel = satisfy(simple_combinators::parser::OneOf { set: to_chars("aeiou") });
    assert_eq!(vowel.parse(&mut buf).unwrap(), 'o');
    assert_eq!(remaining_of(&buf), "cean");
}

// A verbatim match consumes exactly its own length.
#[test]
fn literal_love_consumes_exactly() {
    let mut buf = cursor_of("love you");
    assert_eq!(string(to_chars("love")).parse(&mut buf).unwrap(), to_chars("love"));
    assert_eq!(remaining_of(&buf), " you");
}

// `many1(digit)` on empty input fails at the start with an empty remainder
// in the diagnostic.
#[test]
fn many1_digit_on_empty_fails_at_start() {
    let mut buf = cursor_of("");
    let err = many1(digit()).parse(&mut buf).unwrap_err();
    assert_eq!(buf.pos, 0);
    assert_eq!(err.position, Vec::<char>::new());
}

// The diagnostic excerpt is cut at the next line break.
#[test]
fn error_excerpt_stops_at_line_break() {
    let mut buf = cursor_of("oops\nrest");
    let err = digit().parse(&mut buf).unwrap_err();
    assert_eq!(err.position, to_chars("oops"));
    assert_eq!(err, ParseError { position: to_chars("oops") });
}

// The numeric parser accepts a scientific literal that denotes an integer
// exactly; without the plain-integer fallback, a fractional value is
// rejected by the round-trip check.
#[test]
fn number_round_trip_policy() {
    let mut buf = cursor_of("1.432e10");
    assert_eq!(number_i64().parse(&mut buf).unwrap(), 14320000000);

    let strict: FlatMap<_, DecimalI64> = many1(satisfy(NumericChar)).flat_map(DecimalI64);
    let mut buf = cursor_of("-1242.31");
    assert!(strict.parse(&mut buf).is_err());
}

// The numeric parser at the edges of the signed 64-bit range.
#[test]
fn number_at_the_64_bit_edges() {
    assert_eq!(number_i64().parse(&mut cursor_of("9223372036854775807")).unwrap(), i64::MAX);
    assert_eq!(number_i64().parse(&mut cursor_of("-9223372036854775808")).unwrap(), i64::MIN);
    assert!(number_i64().parse(&mut cursor_of("9223372036854775808")).is_err());
    assert_eq!(number_i64().parse(&mut cursor_of("92233720368547758070e-1")).unwrap(), i64::MAX);
    assert_eq!(number_i64().parse(&mut cursor_of("1e3")).unwrap(), 1000);
    assert_eq!(number_i64().parse(&mut cursor_of("0.5")).unwrap(), 0);
    assert_eq!(number_i64().parse(&mut cursor_of("0e99999999999999999999")).unwrap(), 0);
    // an astronomical exponent fails the strict form; the fallback then
    // takes the leading plain integer
    assert_eq!(number_i64().parse(&mut cursor_of("1e99999999999999999999")).unwrap(), 1);
    assert_eq!(number_i64().parse(&mut cursor_of("1200e-2")).unwrap(), 12);
}

// The plain integer form takes a sign and digits only.
#[test]
fn plain_integer_literal() {
    let plain = many1(one_of(to_chars("-0123456789"))).flat_map(PlainI64);
    assert_eq!(plain.parse(&mut cursor_of("-42")).unwrap(), -42);
    assert!(plain.parse(&mut cursor_of("4-2")).is_err());
}

// The escape sequences of a quoted string decode one by one.
#[test]
fn quoted_string_escapes() {
    let mut buf = cursor_of("\"a\\nb\\tc\\rd\\\\e\"");
    assert_eq!(quoted_string().parse(&mut buf).unwrap(), to_chars("a\nb\tc\rd\\e"));
    assert!(quoted_string().parse(&mut cursor_of("\"\"")).is_err());
    assert!(quoted_string().parse(&mut cursor_of("\"unterminated")).is_err());
}

// The result-carrying iteration yields the terminating failure once.
#[test]
fn result_iter_reports_the_failure() {
    let mut buf = cursor_of("12x");
    let mut it = digit().iter().with_result();
    assert_eq!(it.next(&mut buf).unwrap().unwrap(), '1');
    assert_eq!(it.next(&mut buf).unwrap().unwrap(), '2');
    assert!(it.next(&mut buf).unwrap().is_err());
    assert!(it.next(&mut buf).is_none());
}

// `into_if_err` substitutes the given error for any failure.
#[test]
fn into_if_err_substitutes() {
    let err = ParseError { position: to_chars("here") };
    let ok: Result<u32, ParseError> = Some(7).into_if_err(err.clone());
    assert_eq!(ok.unwrap(), 7);
    let none: Option<u32> = None;
    assert_eq!(none.into_if_err(err.clone()).unwrap_err(), err);
    let failed: Result<u32, &str> = Err("cause");
    assert_eq!(failed.into_if_err(err.clone()).unwrap_err(), err);
}

// `slice_some` takes the unconsumed text up to the next line break.
#[test]
fn slice_some_cuts_at_line_break() {
    let mut buf = cursor_of("first\nsecond");
    buf.pos = 2;
    assert_eq!(slice_some(&buf), to_chars("rst"));
    let buf2 = cursor_of("no break");
    assert_eq!(slice_some(&buf2), to_chars("no break"));
}

// Malformed or non-integral scientific forms fall back exactly as far as
// the plain-integer branches allow.
#[test]
fn number_syntax_edges() {
    // a trailing point is a valid literal
    assert_eq!(number_i64().parse(&mut cursor_of("1.")).unwrap(), 1);
    // a bare fraction is not an integer and no fallback matches
    assert!(number_i64().parse(&mut cursor_of(".5")).is_err());
    // an exponent mark without digits is malformed; the fallback takes "1"
    assert_eq!(number_i64().parse(&mut cursor_of("1e")).unwrap(), 1);
    // a minus sign inside the digits stops the plain form after "5"
    assert_eq!(number_i64().parse(&mut cursor_of("5-3")).unwrap(), 5);
    // two points are malformed; the fallback takes "1"
    assert_eq!(number_i64().parse(&mut cursor_of("1.2.3")).unwrap(), 1);
    // the whole match must be a literal, so consumption stops at the point
    let mut buf = cursor_of("12cm");
    assert_eq!(number_i64().parse(&mut buf).unwrap(), 12);
    assert_eq!(remaining_of(&buf), "cm");
}
