//! The primitive parsers: character and string matchers built directly on
//! the cursor, and the words they are derived from.

use core::marker::PhantomData;
use vstd::prelude::*;
use crate::combinator::{
    ignore, many, many1, satisfy, DiscardFn, FlatMap, Many, Many1, Mapped, Or, Satisfy, Skip, With,
};
use crate::cursor::Cursor;
use crate::numeric::{DecimalI64, DecimalUsize, PlainI64, PlainUsize};
use crate::{CharPred, MapFn, ParseError, Parser, ParserExt};

verus! {

/// Holds of exactly one expected character.
#[derive(Clone, Copy)]
pub struct EqChar {
    /// The expected character.
    pub expected: char,
}

impl CharPred for EqChar {
    open spec fn spec_pred(&self, c: char) -> bool {
        c == self.expected
    }

    fn test(&self, c: char) -> (r: bool) {
        c == self.expected
    }
}

/// Holds of every character.
#[derive(Clone, Copy)]
pub struct AnyChar;

impl CharPred for AnyChar {
    open spec fn spec_pred(&self, c: char) -> bool {
        true
    }

    fn test(&self, c: char) -> (r: bool) {
        true
    }
}

/// Holds of every character but one.
#[derive(Clone, Copy)]
pub struct NotChar {
    /// The excluded character.
    pub excluded: char,
}

impl CharPred for NotChar {
    open spec fn spec_pred(&self, c: char) -> bool {
        c != self.excluded
    }

    fn test(&self, c: char) -> (r: bool) {
        c != self.excluded
    }
}

/// Holds of the decimal digits.
#[derive(Clone, Copy)]
pub struct IsDigit;

impl CharPred for IsDigit {
    open spec fn spec_pred(&self, c: char) -> bool {
        '0' <= c <= '9'
    }

    fn test(&self, c: char) -> (r: bool) {
        '0' <= c && c <= '9'
    }
}

/// Holds of the Latin letters.
#[derive(Clone, Copy)]
pub struct IsAlpha;

impl CharPred for IsAlpha {
    open spec fn spec_pred(&self, c: char) -> bool {
        ('a' <= c <= 'z') || ('A' <= c <= 'Z')
    }

    fn test(&self, c: char) -> (r: bool) {
        ('a' <= c && c <= 'z') || ('A' <= c && c <= 'Z')
    }
}

/// Whether `c` has the Unicode white-space property.
pub open spec fn is_whitespace_char(c: char) -> bool {
    ||| '\u{0009}' <= c <= '\u{000D}'
    ||| c == ' '
    ||| c == '\u{0085}'
    ||| c == '\u{00A0}'
    ||| c == '\u{1680}'
    ||| '\u{2000}' <= c <= '\u{200A}'
    ||| c == '\u{2028}'
    ||| c == '\u{2029}'
    ||| c == '\u{202F}'
    ||| c == '\u{205F}'
    ||| c == '\u{3000}'
}

/// Holds of white space.
#[derive(Clone, Copy)]
pub struct IsSpace;

impl CharPred for IsSpace {
    open spec fn spec_pred(&self, c: char) -> bool {
        is_whitespace_char(c)
    }

    fn test(&self, c: char) -> (r: bool) {
        ('\u{0009}' <= c && c <= '\u{000D}') || c == ' ' || c == '\u{0085}' || c == '\u{00A0}'
            || c == '\u{1680}' || ('\u{2000}' <= c && c <= '\u{200A}') || c == '\u{2028}'
            || c == '\u{2029}' || c == '\u{202F}' || c == '\u{205F}' || c == '\u{3000}'
    }
}

/// Holds of the characters of a given set.
#[derive(Clone)]
pub struct OneOf {
    /// The accepted characters.
    pub set: Vec<char>,
}

impl CharPred for OneOf {
    open spec fn spec_pred(&self, c: char) -> bool {
        self.set@.contains(c)
    }

    fn test(&self, c: char) -> (r: bool) {
        let mut i: usize = 0;
        while i < self.set.len()
            invariant
                i <= self.set@.len(),
                forall|j: int| 0 <= j < i ==> self.set@[j] != c,
            decreases self.set@.len() - i,
        {
            if self.set[i] == c {
                return true;
            }
            i = i + 1;
        }
        false
    }
}

/// Matches one specific character.
pub fn char(expected: char) -> (p: Satisfy<EqChar>)
    ensures
        p == (Satisfy { satisfy_func: EqChar { expected } }),
{
    satisfy(EqChar { expected })
}

/// Matches any one character; fails only on empty input.
pub fn any() -> (p: Satisfy<AnyChar>)
    ensures
        p == (Satisfy { satisfy_func: AnyChar }),
{
    satisfy(AnyChar)
}

/// Matches one decimal digit, returned as a character.
pub fn digit() -> (p: Satisfy<IsDigit>)
    ensures
        p == (Satisfy { satisfy_func: IsDigit }),
{
    satisfy(IsDigit)
}

/// Matches one Latin letter.
pub fn alpha() -> (p: Satisfy<IsAlpha>)
    ensures
        p == (Satisfy { satisfy_func: IsAlpha }),
{
    satisfy(IsAlpha)
}

/// Matches one white-space character.
pub fn space() -> (p: Satisfy<IsSpace>)
    ensures
        p == (Satisfy { satisfy_func: IsSpace }),
{
    satisfy(IsSpace)
}

/// Consumes any number of white-space characters and discards them.
pub fn spaces() -> (p: Mapped<Many<Satisfy<IsSpace>>, DiscardFn<Vec<char>>>)
    ensures
        p == (Mapped {
            parser: Many { many: Satisfy { satisfy_func: IsSpace } },
            callback: DiscardFn::<Vec<char>> { marker: PhantomData },
        }),
{
    ignore(many(space()))
}

/// Matches any one character of the given set.
pub fn one_of(set: Vec<char>) -> (p: Satisfy<OneOf>)
    ensures
        p == (Satisfy { satisfy_func: OneOf { set } }),
{
    satisfy(OneOf { set })
}

/// Matches one expected string verbatim: it succeeds and consumes exactly
/// that many characters iff they equal the expected text, and otherwise
/// fails without consuming.
#[derive(Clone)]
pub struct Str {
    /// The expected text.
    pub string: Vec<char>,
}

impl Parser for Str {
    type Output = Vec<char>;

    open spec fn spec_parse(&self, s: Seq<char>) -> Option<(int, Seq<char>)> {
        if self.string@.len() <= s.len() && s.take(self.string@.len() as int) == self.string@ {
            Some((self.string@.len() as int, self.string@))
        } else {
            None
        }
    }

    open spec fn no_consume_on_err(&self) -> bool {
        true
    }

    proof fn lemma_parse_len(&self, s: Seq<char>) {
    }

    fn parse(&self, buf: &mut Cursor) -> (r: Result<Vec<char>, ParseError>) {
        let ghost s = buf.rem();
        let n = self.string.len();
        if buf.remaining() < n {
            return Err(ParseError::at(buf));
        }
        let total = buf.input.len();
        let mut i: usize = 0;
        while i < n
            invariant
                buf.wf(),
                buf == old(buf),
                s == buf.rem(),
                total == buf.input@.len(),
                buf.pos + n <= total,
                n == self.string@.len() <= s.len(),
                i <= n,
                forall|j: int| 0 <= j < i ==> s[j] == self.string@[j],
            decreases n - i,
        {
            if buf.input[buf.pos + i] != self.string[i] {
                proof {
                    assert(s[i as int] == buf.input@[buf.pos + i]);
                    assert(s.take(n as int)[i as int] != self.string@[i as int]);
                }
                return Err(ParseError::at(buf));
            }
            proof {
                assert(s[i as int] == buf.input@[buf.pos + i]);
            }
            i = i + 1;
        }
        proof {
            assert(s.take(n as int) =~= self.string@);
        }
        buf.advance_by(n);
        let res = self.string.clone();
        proof {
            assert(res.deep_view() =~= self.string@);
        }
        Ok(res)
    }
}

/// Matches the expected string verbatim.
pub fn string(expected: Vec<char>) -> (p: Str)
    ensures
        p == (Str { string: expected }),
{
    Str { string: expected }
}

/// Matches a word: one or more Latin letters.
pub fn word() -> (p: Many1<Satisfy<IsAlpha>>)
    ensures
        p == (Many1 { many1: Satisfy { satisfy_func: IsAlpha } }),
{
    many1(alpha())
}

/// Replaces any value with one fixed character; used to decode an escape
/// sequence into the character it stands for.
#[derive(Clone, Copy)]
pub struct ReplaceWith {
    /// The decoded character.
    pub replacement: char,
}

impl MapFn for ReplaceWith {
    type In = char;

    type Out = char;

    open spec fn spec_map(&self, v: char) -> char {
        self.replacement
    }

    fn call(&self, v: char) -> (r: char) {
        self.replacement
    }
}

/// One backslash escape sequence: a backslash, then the given code
/// character, decoded to the character the sequence stands for.
pub type EscapeSeq = Mapped<With<Satisfy<EqChar>, Satisfy<EqChar>>, ReplaceWith>;

/// Matches a backslash followed by `code` and yields `replacement`.
pub fn escape_seq(code: char, replacement: char) -> (p: EscapeSeq)
    ensures
        p == (Mapped {
            parser: With {
                skip: Satisfy { satisfy_func: EqChar { expected: '\\' } },
                with: Satisfy { satisfy_func: EqChar { expected: code } },
            },
            callback: ReplaceWith { replacement },
        }),
{
    char('\\').with(char(code)).map(ReplaceWith { replacement })
}

/// One character of a quoted string's body: an escape sequence for the
/// quote, newline, carriage-return, tab or backslash, or else any character
/// other than the closing quote.
pub type QuotedChar = Or<
    Or<Or<Or<Or<EscapeSeq, EscapeSeq>, EscapeSeq>, EscapeSeq>, EscapeSeq>,
    Satisfy<NotChar>,
>;

/// The whole quoted string: one or more body characters between two quotes.
pub type QuotedString = Skip<With<Satisfy<EqChar>, Many1<QuotedChar>>, Satisfy<EqChar>>;

/// The exact parser value [`quoted_string`] returns.
pub open spec fn quoted_string_model() -> QuotedString {
    Skip {
        with: With {
            skip: Satisfy { satisfy_func: EqChar { expected: '"' } },
            with: Many1 {
                many1: Or {
                    branch1: Or {
                        branch1: Or {
                            branch1: Or {
                                branch1: Or {
                                    branch1: Mapped {
                                        parser: With {
                                            skip: Satisfy { satisfy_func: EqChar { expected: '\\' } },
                                            with: Satisfy { satisfy_func: EqChar { expected: '"' } },
                                        },
                                        callback: ReplaceWith { replacement: '"' },
                                    },
                                    branch2: Mapped {
                                        parser: With {
                                            skip: Satisfy { satisfy_func: EqChar { expected: '\\' } },
                                            with: Satisfy { satisfy_func: EqChar { expected: 'n' } },
                                        },
                                        callback: ReplaceWith { replacement: '\n' },
                                    },
                                },
                                branch2: Mapped {
                                    parser: With {
                                        skip: Satisfy { satisfy_func: EqChar { expected: '\\' } },
                                        with: Satisfy { satisfy_func: EqChar { expected: 'r' } },
                                    },
                                    callback: ReplaceWith { replacement: '\r' },
                                },
                            },
                            branch2: Mapped {
                                parser: With {
                                    skip: Satisfy { satisfy_func: EqChar { expected: '\\' } },
                                    with: Satisfy { satisfy_func: EqChar { expected: 't' } },
                                },
                                callback: ReplaceWith { replacement: '\t' },
                            },
                        },
                        branch2: Mapped {
                            parser: With {
                                skip: Satisfy { satisfy_func: EqChar { expected: '\\' } },
                                with: Satisfy { satisfy_func: EqChar { expected: '\\' } },
                            },
                            callback: ReplaceWith { replacement: '\\' },
                        },
                    },
                    branch2: Satisfy { satisfy_func: NotChar { excluded: '"' } },
                },
            },
        },
        skip: Satisfy { satisfy_func: EqChar { expected: '"' } },
    }
}

/// Holds of the characters of one inclusive range.
#[derive(Clone, Copy)]
pub struct CharRange {
    /// The least accepted character.
    pub lo: char,
    /// The greatest accepted character.
    pub hi: char,
}

impl CharPred for CharRange {
    open spec fn spec_pred(&self, c: char) -> bool {
        self.lo <= c <= self.hi
    }

    fn test(&self, c: char) -> (r: bool) {
        self.lo <= c && c <= self.hi
    }
}

/// Maps a Latin small letter to the corresponding capital and leaves every
/// other character alone.
#[derive(Clone, Copy)]
pub struct ToAsciiUppercase;

impl MapFn for ToAsciiUppercase {
    type In = char;

    type Out = char;

    open spec fn spec_map(&self, c: char) -> char {
        if 'a' <= c <= 'z' {
            ((c as u8) - 0x20) as char
        } else {
            c
        }
    }

    fn call(&self, c: char) -> (r: char) {
        if 'a' <= c && c <= 'z' {
            ((c as u8) - 0x20) as char
        } else {
            c
        }
    }
}

/// Accepts a decimal digit and yields its numeric value.
#[derive(Clone, Copy)]
pub struct DigitVal;

impl crate::ValidateFn for DigitVal {
    type In = char;

    type Out = u32;

    open spec fn spec_validate(&self, c: char) -> Option<u32> {
        if '0' <= c <= '9' {
            Some((c as u32 - '0' as u32) as u32)
        } else {
            None
        }
    }

    fn call(&self, c: char) -> (r: Option<u32>) {
        if '0' <= c && c <= '9' {
            Some(c as u32 - '0' as u32)
        } else {
            None
        }
    }
}

/// Holds of the characters a decimal scientific literal is made of.
#[derive(Clone, Copy)]
pub struct NumericChar;

impl CharPred for NumericChar {
    open spec fn spec_pred(&self, c: char) -> bool {
        ('0' <= c <= '9') || c == 'e' || c == 'E' || c == '-' || c == '.'
    }

    fn test(&self, c: char) -> (r: bool) {
        ('0' <= c && c <= '9') || c == 'e' || c == 'E' || c == '-' || c == '.'
    }
}

/// Holds of the characters a plain signed integer literal is made of.
#[derive(Clone, Copy)]
pub struct SignDigitChar;

impl CharPred for SignDigitChar {
    open spec fn spec_pred(&self, c: char) -> bool {
        ('0' <= c <= '9') || c == '-'
    }

    fn test(&self, c: char) -> (r: bool) {
        ('0' <= c && c <= '9') || c == '-'
    }
}

/// The numeric parser: first the characters a decimal scientific literal is
/// made of, accepted only when they denote an integer exactly; failing
/// that, a plain signed integer; failing that, digits alone.
pub type NumberI64 = Or<
    Or<
        FlatMap<Many1<Satisfy<NumericChar>>, DecimalI64>,
        FlatMap<Many1<Satisfy<SignDigitChar>>, PlainI64>,
    >,
    FlatMap<Many1<Satisfy<IsDigit>>, PlainI64>,
>;

/// Like [`NumberI64`], for `usize` values.
pub type NumberUsize = Or<
    Or<
        FlatMap<Many1<Satisfy<NumericChar>>, DecimalUsize>,
        FlatMap<Many1<Satisfy<SignDigitChar>>, PlainUsize>,
    >,
    FlatMap<Many1<Satisfy<IsDigit>>, PlainUsize>,
>;

/// Matches a number in decimal scientific notation that denotes a signed
/// 64-bit integer exactly — no truncation loss; where the round-trip check
/// fails, it falls back to the leading plain integer literal.
pub fn number_i64() -> (p: NumberI64)
    ensures
        p == (Or {
            branch1: Or {
                branch1: FlatMap {
                    parser: Many1 { many1: Satisfy { satisfy_func: NumericChar } },
                    callback: DecimalI64,
                },
                branch2: FlatMap {
                    parser: Many1 { many1: Satisfy { satisfy_func: SignDigitChar } },
                    callback: PlainI64,
                },
            },
            branch2: FlatMap {
                parser: Many1 { many1: Satisfy { satisfy_func: IsDigit } },
                callback: PlainI64,
            },
        }),
{
    many1(satisfy(NumericChar)).flat_map(DecimalI64).or(
        many1(satisfy(SignDigitChar)).flat_map(PlainI64),
    ).or(many1(satisfy(IsDigit)).flat_map(PlainI64))
}

/// Like [`number_i64`], for `usize` values.
pub fn number_usize() -> (p: NumberUsize)
    ensures
        p == (Or {
            branch1: Or {
                branch1: FlatMap {
                    parser: Many1 { many1: Satisfy { satisfy_func: NumericChar } },
                    callback: DecimalUsize,
                },
                branch2: FlatMap {
                    parser: Many1 { many1: Satisfy { satisfy_func: SignDigitChar } },
                    callback: PlainUsize,
                },
            },
            branch2: FlatMap {
                parser: Many1 { many1: Satisfy { satisfy_func: IsDigit } },
                callback: PlainUsize,
            },
        }),
{
    many1(satisfy(NumericChar)).flat_map(DecimalUsize).or(
        many1(satisfy(SignDigitChar)).flat_map(PlainUsize),
    ).or(many1(satisfy(IsDigit)).flat_map(PlainUsize))
}

/// Matches a string enclosed in double quotes, decoding the backslash
/// escapes for quote, newline, carriage-return, tab and backslash.
pub fn quoted_string() -> (p: QuotedString)
    ensures
        p == quoted_string_model(),
{
    many1(
        escape_seq('"', '"')
            .or(escape_seq('n', '\n'))
            .or(escape_seq('r', '\r'))
            .or(escape_seq('t', '\t'))
            .or(escape_seq('\\', '\\'))
            .or(satisfy(NotChar { excluded: '"' })),
    ).between(char('"'), char('"'))
}

} // verus!


