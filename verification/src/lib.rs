//! A parser-combinator engine over in-memory text.
//!
//! The library offers a small algebra of composable parsers: a parser
//! consumes a prefix of a [`cursor::Cursor`] and yields a typed value or a
//! [`ParseError`].  Sequencing, choice, backtracking and repetition are all
//! ordinary combinators, so grammars are built by plain composition.

pub mod combinator;
pub mod cursor;
pub mod numeric;
pub mod parser;

use vstd::prelude::*;
use crate::combinator::{And, FlatMap, Mapped, Or, Repeat, SepBy, Skip, With};
use crate::cursor::Cursor;

verus! {

/// The abstract value a parser of output type `T` yields, e.g. `Seq<char>`
/// for a parser that returns a `Vec<char>`.
pub type ValOf<P> = <<P as Parser>::Output as DeepView>::V;

/// A character predicate handed to [`combinator::satisfy`]: one exec test
/// together with its specification.
pub trait CharPred: Sized {
    /// What the predicate holds of.
    spec fn spec_pred(&self, c: char) -> bool;

    /// Decide the predicate on one character.
    fn test(&self, c: char) -> (r: bool)
        ensures
            r == self.spec_pred(c),
    ;
}

/// A total transformation handed to [`Parser::map`]: one exec function
/// together with its specification.
pub trait MapFn: Sized {
    /// The argument type.
    type In: DeepView;

    /// The result type.
    type Out: DeepView;

    /// What the transformation computes, on abstract values.
    spec fn spec_map(&self, v: <Self::In as DeepView>::V) -> <Self::Out as DeepView>::V;

    /// Apply the transformation.
    fn call(&self, v: Self::In) -> (r: Self::Out)
        ensures
            r.deep_view() == self.spec_map(v.deep_view()),
    ;
}

/// A semantic validation handed to [`Parser::flat_map`]: it may accept the
/// syntactically parsed value or reject it.
pub trait ValidateFn: Sized {
    /// The argument type.
    type In: DeepView;

    /// The result type on acceptance.
    type Out: DeepView;

    /// What the validation accepts, and with which value, on abstract values.
    spec fn spec_validate(&self, v: <Self::In as DeepView>::V) -> Option<<Self::Out as DeepView>::V>;

    /// Run the validation.
    fn call(&self, v: Self::In) -> (r: Option<Self::Out>)
        ensures
            match r {
                Some(w) => self.spec_validate(v.deep_view()) == Some(w.deep_view()),
                None => self.spec_validate(v.deep_view()) is None,
            },
    ;
}

/// The one capability every building block implements: attempt to consume a
/// prefix of the cursor, producing a typed value or a failure.
///
/// A parser is a stateless value; [`Parser::spec_parse`] is its whole
/// meaning, and `parse` is proved to follow it exactly.  On success the
/// cursor is advanced exactly past the consumed prefix.  On failure a parser
/// with [`Parser::no_consume_on_err`] leaves the cursor where it stood;
/// sequencing combinators make no such promise, and rollback across steps
/// belongs to the explicit backtracking combinators.
pub trait Parser: Sized {
    /// The typed value a successful parse yields.
    type Output: DeepView;

    /// The meaning of this parser on the unconsumed text `s`: either
    /// `Some((n, v))` — consume exactly the first `n` characters and yield a
    /// value whose abstract form is `v` — or `None`, failure.
    spec fn spec_parse(&self, s: Seq<char>) -> Option<(int, ValOf<Self>)>;

    /// Whether this parser promises to leave the cursor byte-for-byte
    /// unchanged whenever it fails.  True of every primitive and of the
    /// backtracking combinators.
    spec fn no_consume_on_err(&self) -> bool;

    /// A successful parse never consumes more than the input holds.
    proof fn lemma_parse_len(&self, s: Seq<char>)
        ensures
            self.spec_parse(s) matches Some((n, _)) ==> 0 <= n <= s.len(),
    ;

    /// Attempt to consume a prefix of `buf`.
    fn parse(&self, buf: &mut Cursor) -> (r: Result<Self::Output, ParseError>)
        requires
            old(buf).wf(),
        ensures
            final(buf).wf(),
            final(buf).input@ == old(buf).input@,
            old(buf).pos <= final(buf).pos,
            (match r {
                Ok(v) => self.spec_parse(old(buf).rem()) == Some(
                    (final(buf).pos - old(buf).pos, v.deep_view()),
                ),
                Err(_) => self.spec_parse(old(buf).rem()) is None && (self.no_consume_on_err()
                    ==> final(buf).pos == old(buf).pos),
            }),
    ;

}

/// The builder methods every parser carries: each one composes `self` with
/// further parsers into a new combinator value.  They are split from
/// [`Parser`] so that one blanket implementation serves every parser.
pub trait ParserExt: Parser {
    /// The silent iteration handle for this parser.
    fn iter(self) -> (r: ParserIter<Self>)
        ensures
            r == (ParserIter { parser: self }),
    ;

    /// Collect exactly `times` successes of `self`, or fail rolled back.
    fn repeat(self, times: usize) -> (r: Repeat<Self>)
        ensures
            r == (Repeat { repeat: self, times }),
    ;

    /// Run `self`, discard its value, then run `other` and return its value.
    fn with<P: Parser>(self, other: P) -> (r: With<Self, P>)
        ensures
            r == (With { skip: self, with: other }),
    ;

    /// Run `self`, keep its value, then run `other` and discard its value.
    fn skip<P: Parser>(self, other: P) -> (r: Skip<Self, P>)
        ensures
            r == (Skip { with: self, skip: other }),
    ;

    /// Run `self` and `other` in order and return the pair of values.
    fn and<P: Parser>(self, other: P) -> (r: And<Self, P>)
        ensures
            r == (And { and1: self, and2: other }),
    ;

    /// Run `left`, then `self`, then `right`, keeping only `self`'s value.
    fn between<L: Parser, R: Parser>(self, left: L, right: R) -> (r: Skip<With<L, Self>, R>)
        ensures
            r == (Skip { with: With { skip: left, with: self }, skip: right }),
    ;

    /// Run `self` and apply a total transformation to its value.
    fn map<F: MapFn<In = Self::Output>>(self, callback: F) -> (r: Mapped<Self, F>)
        ensures
            r == (Mapped { parser: self, callback }),
    ;

    /// Run `self`, then apply a validation that may reject the value.
    fn flat_map<F: ValidateFn<In = Self::Output>>(self, callback: F) -> (r: FlatMap<Self, F>)
        ensures
            r == (FlatMap { parser: self, callback }),
    ;

    /// One or more `self` separated by `sep`, one trailing `sep` tolerated.
    fn sep_by<P: Parser>(self, sep: P) -> (r: SepBy<Self, P>)
        ensures
            r == (SepBy { parser: self, sep }),
    ;

    /// Ordered choice between `self` and `other`.
    fn or<P: Parser<Output = Self::Output>>(self, other: P) -> (r: Or<Self, P>)
        ensures
            r == (Or { branch1: self, branch2: other }),
    ;
}

impl<T: Parser> ParserExt for T {
    fn iter(self) -> (r: ParserIter<Self>) {
        ParserIter { parser: self }
    }

    fn repeat(self, times: usize) -> (r: Repeat<Self>) {
        Repeat { repeat: self, times }
    }

    fn with<P: Parser>(self, other: P) -> (r: With<Self, P>) {
        With { skip: self, with: other }
    }

    fn skip<P: Parser>(self, other: P) -> (r: Skip<Self, P>) {
        Skip { with: self, skip: other }
    }

    fn and<P: Parser>(self, other: P) -> (r: And<Self, P>) {
        And { and1: self, and2: other }
    }

    fn between<L: Parser, R: Parser>(self, left: L, right: R) -> (r: Skip<With<L, Self>, R>) {
        left.with(self).skip(right)
    }

    fn map<F: MapFn<In = Self::Output>>(self, callback: F) -> (r: Mapped<Self, F>) {
        Mapped { parser: self, callback }
    }

    fn flat_map<F: ValidateFn<In = Self::Output>>(self, callback: F) -> (r: FlatMap<Self, F>) {
        FlatMap { parser: self, callback }
    }

    fn sep_by<P: Parser>(self, sep: P) -> (r: SepBy<Self, P>) {
        SepBy { parser: self, sep }
    }

    fn or<P: Parser<Output = Self::Output>>(self, other: P) -> (r: Or<Self, P>) {
        Or { branch1: self, branch2: other }
    }
}

/// The silent form of the lazy iteration protocol: each round yields one
/// success of the parser, and the first failure — rolled back — reads as
/// the end of the sequence.
pub struct ParserIter<P> {
    /// The iterated parser.
    pub parser: P,
}

impl<P: Parser> ParserIter<P> {
    /// One round: a success yields its value and keeps the advanced cursor;
    /// a failure is rolled back and yields nothing.
    pub fn next(&self, buf: &mut Cursor) -> (r: Option<P::Output>)
        requires
            old(buf).wf(),
        ensures
            final(buf).wf(),
            final(buf).input@ == old(buf).input@,
            old(buf).pos <= final(buf).pos,
            (match r {
                Some(v) => self.parser.spec_parse(old(buf).rem()) == Some(
                    (final(buf).pos - old(buf).pos, v.deep_view()),
                ),
                None => self.parser.spec_parse(old(buf).rem()) is None && final(buf).pos == old(
                    buf,
                ).pos,
            }),
    {
        let backup = buf.save();
        match self.parser.parse(buf) {
            Ok(v) => Some(v),
            Err(_) => {
                buf.restore(backup);
                None
            },
        }
    }

    /// Switch to the result-carrying form of the protocol.
    pub fn with_result(self) -> (r: ParseResultIter<P>)
        ensures
            r == (ParseResultIter { parser: self.parser, end: false }),
    {
        ParseResultIter { parser: self.parser, end: false }
    }
}

/// The result-carrying form of the lazy iteration protocol: it yields the
/// terminating failure as an inspectable value, so a caller can distinguish
/// "no more elements" from "a real syntax error occurred here".
pub struct ParseResultIter<P> {
    /// The iterated parser.
    pub parser: P,
    /// Whether a failure has already been yielded.
    pub end: bool,
}

impl<P: Parser> ParseResultIter<P> {
    /// One round: before the first failure each round hands out the parse
    /// result as-is (a failing round is not rolled back); the round after a
    /// failure reports the end.
    pub fn next(&mut self, buf: &mut Cursor) -> (r: Option<Result<P::Output, ParseError>>)
        requires
            old(buf).wf(),
        ensures
            final(buf).wf(),
            final(buf).input@ == old(buf).input@,
            old(buf).pos <= final(buf).pos,
            final(self).parser == old(self).parser,
            old(self).end ==> r is None && final(self).end && final(buf).pos == old(buf).pos,
            !old(self).end ==> (match r {
                Some(res) => (match res {
                    Ok(v) => old(self).parser.spec_parse(old(buf).rem()) == Some(
                        (final(buf).pos - old(buf).pos, v.deep_view()),
                    ) && !final(self).end,
                    Err(_) => old(self).parser.spec_parse(old(buf).rem()) is None
                        && final(self).end,
                }),
                None => false,
            }),
    {
        if self.end {
            return None;
        }
        let res = self.parser.parse(buf);
        if res.is_err() {
            self.end = true;
        }
        Some(res)
    }
}

/// Conversion of a fallible value into a parse result, substituting a
/// positioned [`ParseError`] for whatever failure the value carried.
pub trait IntoParseError<T>: Sized {
    /// The successful value, when there is one.
    spec fn spec_value(self) -> Option<T>;

    /// Convert, substituting `err` for any failure.
    fn into_if_err(self, err: ParseError) -> (r: Result<T, ParseError>)
        ensures
            match r {
                Ok(v) => self.spec_value() == Some(v),
                Err(e) => self.spec_value() is None && e == err,
            },
    ;
}

impl<T> IntoParseError<T> for Option<T> {
    open spec fn spec_value(self) -> Option<T> {
        self
    }

    fn into_if_err(self, err: ParseError) -> (r: Result<T, ParseError>) {
        match self {
            Some(v) => Ok(v),
            None => Err(err),
        }
    }
}

impl<T, E> IntoParseError<T> for Result<T, E> {
    open spec fn spec_value(self) -> Option<T> {
        match self {
            Ok(v) => Some(v),
            Err(_) => None,
        }
    }

    fn into_if_err(self, err: ParseError) -> (r: Result<T, ParseError>) {
        match self {
            Ok(v) => Ok(v),
            Err(_) => Err(err),
        }
    }
}

/// Length of the leading line of `s`: the number of characters before the
/// first line break, or all of `s` when it has none.
pub open spec fn line_len(s: Seq<char>) -> int
    decreases s.len(),
{
    if s.len() == 0 {
        0
    } else if s[0] == '\n' {
        0
    } else {
        1 + line_len(s.skip(1))
    }
}

/// The leading line of `s`: everything before the first line break.
pub open spec fn line_excerpt(s: Seq<char>) -> Seq<char> {
    s.take(line_len(s))
}

pub proof fn lemma_line_len_bounds(s: Seq<char>)
    ensures
        0 <= line_len(s) <= s.len(),
        forall|j: int| 0 <= j < line_len(s) ==> s[j] != '\n',
        line_len(s) < s.len() ==> s[line_len(s)] == '\n',
    decreases s.len(),
{
    if s.len() != 0 && s[0] != '\n' {
        lemma_line_len_bounds(s.skip(1));
        assert forall|j: int| 0 <= j < line_len(s) implies s[j] != '\n' by {
            if j >= 1 {
                assert(s.skip(1)[j - 1] == s[j]);
            }
        }
    }
}

/// `line_len` is the index of the first line break (or the length when
/// there is none).
proof fn lemma_line_len_at(s: Seq<char>, k: int)
    requires
        0 <= k <= s.len(),
        forall|j: int| 0 <= j < k ==> s[j] != '\n',
        k == s.len() || s[k] == '\n',
    ensures
        line_len(s) == k,
    decreases k,
{
    if s.len() == 0 {
    } else if k == 0 {
    } else {
        assert(forall|j: int| 0 <= j < k - 1 ==> s.skip(1)[j] != '\n');
        lemma_line_len_at(s.skip(1), k - 1);
    }
}

/// The bounded diagnostic snapshot taken when a parse fails: the unconsumed
/// text up to (not including) the next line break.
pub fn slice_some(buf: &Cursor) -> (r: Vec<char>)
    requires
        buf.wf(),
    ensures
        r@ == line_excerpt(buf.rem()),
{
    let ghost s = buf.rem();
    let mut r: Vec<char> = Vec::new();
    let mut i: usize = buf.pos;
    proof {
        lemma_line_len_bounds(s);
    }
    while i < buf.input.len() && buf.input[i] != '\n'
        invariant
            buf.wf(),
            s == buf.rem(),
            buf.pos <= i <= buf.input@.len(),
            r@ == s.take(i - buf.pos),
            forall|j: int| 0 <= j < i - buf.pos ==> s[j] != '\n',
        decreases buf.input@.len() - i,
    {
        let c = buf.input[i];
        r.push(c);
        proof {
            assert(s.take(i + 1 - buf.pos) =~= s.take(i - buf.pos).push(s[i - buf.pos]));
        }
        i = i + 1;
    }
    proof {
        lemma_line_len_at(s, i - buf.pos);
    }
    r
}

/// The failure value of a parse attempt: a diagnostic snapshot of the
/// unconsumed input at the moment of failure.  It is a report, not a
/// recoverable payload.
#[derive(Clone, Debug, PartialEq, Eq)]
pub struct ParseError {
    /// Excerpt of the text at which the failure happened, cut at the next
    /// line break.
    pub position: Vec<char>,
}

impl ParseError {
    /// The error that reports a failure at the current position of `buf`.
    pub fn at(buf: &Cursor) -> (e: ParseError)
        requires
            buf.wf(),
        ensures
            e.position@ == line_excerpt(buf.rem()),
    {
        ParseError { position: slice_some(buf) }
    }
}

} // verus!
