//! The combinators: primitives, sequencing, choice, backtracking and
//! repetition.  Every combinator is itself a parser, so expression trees of
//! arbitrary depth are ordinary composition.

use core::marker::PhantomData;
use vstd::prelude::*;
use crate::cursor::Cursor;
use crate::{CharPred, MapFn, ParseError, Parser, ValOf, ValidateFn};

verus! {

/// Matches one character for which the predicate holds.
#[derive(Clone, Copy)]
pub struct Satisfy<F> {
    /// The predicate the consumed character must satisfy.
    pub satisfy_func: F,
}

impl<F: CharPred> Parser for Satisfy<F> {
    type Output = char;

    open spec fn spec_parse(&self, s: Seq<char>) -> Option<(int, char)> {
        if s.len() > 0 && self.satisfy_func.spec_pred(s[0]) {
            Some((1, s[0]))
        } else {
            None
        }
    }

    open spec fn no_consume_on_err(&self) -> bool {
        true
    }

    proof fn lemma_parse_len(&self, s: Seq<char>) {
    }

    fn parse(&self, buf: &mut Cursor) -> (r: Result<char, ParseError>) {
        match buf.peek() {
            Some(c) => {
                if self.satisfy_func.test(c) {
                    buf.advance();
                    Ok(c)
                } else {
                    Err(ParseError::at(buf))
                }
            },
            None => Err(ParseError::at(buf)),
        }
    }
}

/// Inspect the next character; if the predicate holds, consume and return
/// it, otherwise fail without consuming.  Fails on empty input.
pub fn satisfy<F: CharPred>(satisfy_func: F) -> (p: Satisfy<F>)
    ensures
        p == (Satisfy { satisfy_func }),
{
    Satisfy { satisfy_func }
}

/// Runs the first parser, discards its value, then runs the second and
/// returns its value.
#[derive(Clone, Copy)]
pub struct With<P1, P2> {
    /// The parser whose value is discarded.
    pub skip: P1,
    /// The parser whose value is returned.
    pub with: P2,
}

impl<P1: Parser, P2: Parser> Parser for With<P1, P2> {
    type Output = P2::Output;

    open spec fn spec_parse(&self, s: Seq<char>) -> Option<(int, ValOf<P2>)> {
        match self.skip.spec_parse(s) {
            Some((n1, _)) => match self.with.spec_parse(s.skip(n1)) {
                Some((n2, v)) => Some((n1 + n2, v)),
                None => None,
            },
            None => None,
        }
    }

    open spec fn no_consume_on_err(&self) -> bool {
        false
    }

    proof fn lemma_parse_len(&self, s: Seq<char>) {
        self.skip.lemma_parse_len(s);
        if let Some((n1, _)) = self.skip.spec_parse(s) {
            self.with.lemma_parse_len(s.skip(n1));
        }
    }

    fn parse(&self, buf: &mut Cursor) -> (r: Result<P2::Output, ParseError>) {
        let ghost s0 = old(buf).rem();
        let ghost p0 = old(buf).pos;
        self.skip.parse(buf)?;
        proof {
            assert(buf.rem() =~= s0.skip(buf.pos - p0));
        }
        let res = self.with.parse(buf)?;
        Ok(res)
    }
}

/// Runs the first parser, keeps its value, then runs the second and
/// discards its value.
#[derive(Clone, Copy)]
pub struct Skip<P1, P2> {
    /// The parser whose value is returned.
    pub with: P1,
    /// The parser whose value is discarded.
    pub skip: P2,
}

impl<P1: Parser, P2: Parser> Parser for Skip<P1, P2> {
    type Output = P1::Output;

    open spec fn spec_parse(&self, s: Seq<char>) -> Option<(int, ValOf<P1>)> {
        match self.with.spec_parse(s) {
            Some((n1, v)) => match self.skip.spec_parse(s.skip(n1)) {
                Some((n2, _)) => Some((n1 + n2, v)),
                None => None,
            },
            None => None,
        }
    }

    open spec fn no_consume_on_err(&self) -> bool {
        false
    }

    proof fn lemma_parse_len(&self, s: Seq<char>) {
        self.with.lemma_parse_len(s);
        if let Some((n1, _)) = self.with.spec_parse(s) {
            self.skip.lemma_parse_len(s.skip(n1));
        }
    }

    fn parse(&self, buf: &mut Cursor) -> (r: Result<P1::Output, ParseError>) {
        let ghost s0 = old(buf).rem();
        let ghost p0 = old(buf).pos;
        let res = self.with.parse(buf)?;
        proof {
            assert(buf.rem() =~= s0.skip(buf.pos - p0));
        }
        self.skip.parse(buf)?;
        Ok(res)
    }
}

/// Runs both parsers in order and returns the pair of their values.
#[derive(Clone, Copy)]
pub struct And<P1, P2> {
    /// The first parser.
    pub and1: P1,
    /// The second parser.
    pub and2: P2,
}

impl<P1: Parser, P2: Parser> Parser for And<P1, P2> {
    type Output = (P1::Output, P2::Output);

    open spec fn spec_parse(&self, s: Seq<char>) -> Option<(int, (ValOf<P1>, ValOf<P2>))> {
        match self.and1.spec_parse(s) {
            Some((n1, v1)) => match self.and2.spec_parse(s.skip(n1)) {
                Some((n2, v2)) => Some((n1 + n2, (v1, v2))),
                None => None,
            },
            None => None,
        }
    }

    open spec fn no_consume_on_err(&self) -> bool {
        false
    }

    proof fn lemma_parse_len(&self, s: Seq<char>) {
        self.and1.lemma_parse_len(s);
        if let Some((n1, _)) = self.and1.spec_parse(s) {
            self.and2.lemma_parse_len(s.skip(n1));
        }
    }

    fn parse(&self, buf: &mut Cursor) -> (r: Result<(P1::Output, P2::Output), ParseError>) {
        let ghost s0 = old(buf).rem();
        let ghost p0 = old(buf).pos;
        let res1 = self.and1.parse(buf)?;
        proof {
            assert(buf.rem() =~= s0.skip(buf.pos - p0));
        }
        let res2 = self.and2.parse(buf)?;
        Ok((res1, res2))
    }
}

/// Runs a parser and applies a total transformation to its value.
#[derive(Clone, Copy)]
pub struct Mapped<P, F> {
    /// The parser whose value is transformed.
    pub parser: P,
    /// The transformation.
    pub callback: F,
}

impl<P: Parser, F: MapFn<In = P::Output>> Parser for Mapped<P, F> {
    type Output = F::Out;

    open spec fn spec_parse(&self, s: Seq<char>) -> Option<(int, <F::Out as DeepView>::V)> {
        match self.parser.spec_parse(s) {
            Some((n, v)) => Some((n, self.callback.spec_map(v))),
            None => None,
        }
    }

    open spec fn no_consume_on_err(&self) -> bool {
        self.parser.no_consume_on_err()
    }

    proof fn lemma_parse_len(&self, s: Seq<char>) {
        self.parser.lemma_parse_len(s);
    }

    fn parse(&self, buf: &mut Cursor) -> (r: Result<F::Out, ParseError>) {
        let raw = self.parser.parse(buf)?;
        Ok(self.callback.call(raw))
    }
}

/// Runs a parser, then applies a validation that may itself reject the
/// value.  A rejection becomes a failure positioned at the cursor after the
/// parser's consumption.
#[derive(Clone, Copy)]
pub struct FlatMap<P, F> {
    /// The parser whose value is validated.
    pub parser: P,
    /// The validation.
    pub callback: F,
}

impl<P: Parser, F: ValidateFn<In = P::Output>> Parser for FlatMap<P, F> {
    type Output = F::Out;

    open spec fn spec_parse(&self, s: Seq<char>) -> Option<(int, <F::Out as DeepView>::V)> {
        match self.parser.spec_parse(s) {
            Some((n, v)) => match self.callback.spec_validate(v) {
                Some(w) => Some((n, w)),
                None => None,
            },
            None => None,
        }
    }

    open spec fn no_consume_on_err(&self) -> bool {
        false
    }

    proof fn lemma_parse_len(&self, s: Seq<char>) {
        self.parser.lemma_parse_len(s);
    }

    fn parse(&self, buf: &mut Cursor) -> (r: Result<F::Out, ParseError>) {
        let raw = self.parser.parse(buf)?;
        match self.callback.call(raw) {
            Some(w) => Ok(w),
            None => Err(ParseError::at(buf)),
        }
    }
}

/// Runs a parser and restores the cursor to its pre-call position whenever
/// the parser fails.
#[derive(Clone, Copy)]
pub struct Attempt<P> {
    /// The parser whose failure is rolled back.
    pub attempt: P,
}

impl<P: Parser> Parser for Attempt<P> {
    type Output = P::Output;

    open spec fn spec_parse(&self, s: Seq<char>) -> Option<(int, ValOf<P>)> {
        self.attempt.spec_parse(s)
    }

    open spec fn no_consume_on_err(&self) -> bool {
        true
    }

    proof fn lemma_parse_len(&self, s: Seq<char>) {
        self.attempt.lemma_parse_len(s);
    }

    fn parse(&self, buf: &mut Cursor) -> (r: Result<P::Output, ParseError>) {
        let backup = buf.save();
        let res = self.attempt.parse(buf);
        if res.is_err() {
            buf.restore(backup);
        }
        res
    }
}

/// Snapshot the cursor before running the parser; on failure restore the
/// snapshot, on success keep the advanced cursor.
pub fn attempt<P: Parser>(parser: P) -> (p: Attempt<P>)
    ensures
        p == (Attempt { attempt: parser }),
{
    Attempt { attempt: parser }
}

/// Like [`Attempt`], but a failure of the parser becomes a successful
/// "absent" result: this combinator itself never fails.
#[derive(Clone, Copy)]
pub struct Optional<P> {
    /// The parser whose failure becomes an absent result.
    pub optional: P,
}

impl<P: Parser> Parser for Optional<P> {
    type Output = Option<P::Output>;

    open spec fn spec_parse(&self, s: Seq<char>) -> Option<(int, Option<ValOf<P>>)> {
        match self.optional.spec_parse(s) {
            Some((n, v)) => Some((n, Some(v))),
            None => Some((0, None)),
        }
    }

    open spec fn no_consume_on_err(&self) -> bool {
        true
    }

    proof fn lemma_parse_len(&self, s: Seq<char>) {
        self.optional.lemma_parse_len(s);
    }

    fn parse(&self, buf: &mut Cursor) -> (r: Result<Option<P::Output>, ParseError>) {
        let backup = buf.save();
        match self.optional.parse(buf) {
            Ok(v) => Ok(Some(v)),
            Err(_) => {
                buf.restore(backup);
                Ok(None)
            },
        }
    }
}

/// Snapshot the cursor before running the parser; on failure restore the
/// snapshot, on success keep the advanced cursor and wrap the value in
/// `Some`; absence is `Ok(None)`, never an error.
pub fn optional<P: Parser>(parser: P) -> (p: Optional<P>)
    ensures
        p == (Optional { optional: parser }),
{
    Optional { optional: parser }
}

/// Pure lookahead: runs the parser and unconditionally restores the cursor,
/// while still propagating the parser's value or failure.
#[derive(Clone, Copy)]
pub struct Preview<P> {
    /// The parser run for inspection only.
    pub preview: P,
}

impl<P: Parser> Parser for Preview<P> {
    type Output = P::Output;

    open spec fn spec_parse(&self, s: Seq<char>) -> Option<(int, ValOf<P>)> {
        match self.preview.spec_parse(s) {
            Some((_, v)) => Some((0, v)),
            None => None,
        }
    }

    open spec fn no_consume_on_err(&self) -> bool {
        true
    }

    proof fn lemma_parse_len(&self, s: Seq<char>) {
    }

    fn parse(&self, buf: &mut Cursor) -> (r: Result<P::Output, ParseError>) {
        let backup = buf.save();
        let res = self.preview.parse(buf);
        buf.restore(backup);
        res
    }
}

/// Run the parser purely to inspect upcoming input: the cursor comes back to
/// its pre-call position whatever the outcome.
pub fn preview<P: Parser>(parser: P) -> (p: Preview<P>)
    ensures
        p == (Preview { preview: parser }),
{
    Preview { preview: parser }
}

/// Ordered choice: try the first branch; if it fails, try the second from
/// the original cursor position.
///
/// The left branch is snapshot-protected, so a partially consuming failure
/// in it never leaks into the right branch's starting position; only one of
/// the two branches ever consumes input on a given call.  The right branch
/// is tried with no special protection: its failure propagates as this
/// combinator's failure, and the losing branch's error is discarded.
#[derive(Clone, Copy)]
pub struct Or<P1, P2> {
    /// The branch tried first.
    pub branch1: P1,
    /// The branch tried when the first fails.
    pub branch2: P2,
}

impl<P1: Parser, P2: Parser<Output = P1::Output>> Parser for Or<P1, P2> {
    type Output = P1::Output;

    open spec fn spec_parse(&self, s: Seq<char>) -> Option<(int, ValOf<P1>)> {
        match self.branch1.spec_parse(s) {
            Some((n, v)) => Some((n, v)),
            None => self.branch2.spec_parse(s),
        }
    }

    open spec fn no_consume_on_err(&self) -> bool {
        self.branch2.no_consume_on_err()
    }

    proof fn lemma_parse_len(&self, s: Seq<char>) {
        self.branch1.lemma_parse_len(s);
        self.branch2.lemma_parse_len(s);
    }

    fn parse(&self, buf: &mut Cursor) -> (r: Result<P1::Output, ParseError>) {
        let backup = buf.save();
        match self.branch1.parse(buf) {
            Ok(v) => Ok(v),
            Err(_) => {
                buf.restore(backup);
                self.branch2.parse(buf)
            },
        }
    }
}

/// Lookahead leaves the cursor where it stood whatever the outcome: on
/// failure by [`Parser::no_consume_on_err`], and on success because a
/// preview consumes nothing, so the cursor after the call equals the cursor
/// before it for every parser and every input.
pub proof fn lemma_preview_consumes_nothing<P: Parser>(p: Preview<P>, s: Seq<char>)
    ensures
        p.spec_parse(s) matches Some((n, _)) ==> n == 0,
        p.no_consume_on_err(),
{
}

/// Ordered choice never mixes its branches: when the first fails, the
/// second is tried from the original position, and the whole behaves as the
/// second alone; when the first succeeds, the second plays no part.
pub proof fn lemma_or_second_from_start<P1: Parser, P2: Parser<Output = P1::Output>>(
    p: Or<P1, P2>,
    s: Seq<char>,
)
    ensures
        p.branch1.spec_parse(s) is None ==> p.spec_parse(s) == p.branch2.spec_parse(s),
        p.branch1.spec_parse(s) is Some ==> p.spec_parse(s) == p.branch1.spec_parse(s),
{
}

/// Discards a value, turning any parser into one that yields `()`.
pub struct DiscardFn<T> {
    /// Marks the discarded type.
    pub marker: PhantomData<T>,
}

impl<T: DeepView> MapFn for DiscardFn<T> {
    type In = T;

    type Out = ();

    open spec fn spec_map(&self, v: T::V) -> () {
        ()
    }

    fn call(&self, v: T) -> (r: ()) {
        ()
    }
}

/// Runs a parser and discards its value, yielding `()`.
pub fn ignore<P: Parser>(parser: P) -> (p: Mapped<P, DiscardFn<P::Output>>)
    ensures
        p == (Mapped { parser, callback: DiscardFn::<P::Output> { marker: PhantomData } }),
{
    Mapped { parser, callback: DiscardFn { marker: PhantomData } }
}

/// The lazy iteration protocol, in the model: the values `p` yields when it
/// is invoked repeatedly against one advancing suffix, together with the
/// total consumption.  The first failure ends the sequence; so does a
/// success that consumes nothing, which otherwise could repeat forever.
pub open spec fn many_rec<P: Parser>(p: P, s: Seq<char>) -> (int, Seq<ValOf<P>>)
    decreases s.len(),
{
    match p.spec_parse(s) {
        Some((n, v)) => {
            if 0 < n <= s.len() {
                let (m, vs) = many_rec(p, s.skip(n));
                (n + m, seq![v] + vs)
            } else {
                (0, Seq::empty())
            }
        },
        None => (0, Seq::empty()),
    }
}

/// The iteration never consumes more than the input holds.
pub proof fn lemma_many_rec_len<P: Parser>(p: P, s: Seq<char>)
    ensures
        0 <= many_rec(p, s).0 <= s.len(),
    decreases s.len(),
{
    if let Some((n, v)) = p.spec_parse(s) {
        if 0 < n <= s.len() {
            lemma_many_rec_len(p, s.skip(n));
        }
    }
}

/// Collects zero or more successes of a parser until its first failure.
/// It never fails itself; the cursor ends at the position of the last
/// success.
#[derive(Clone, Copy)]
pub struct Many<P> {
    /// The repeated parser.
    pub many: P,
}

impl<P: Parser> Parser for Many<P> {
    type Output = Vec<P::Output>;

    open spec fn spec_parse(&self, s: Seq<char>) -> Option<(int, Seq<ValOf<P>>)> {
        Some(many_rec(self.many, s))
    }

    open spec fn no_consume_on_err(&self) -> bool {
        true
    }

    proof fn lemma_parse_len(&self, s: Seq<char>) {
        lemma_many_rec_len(self.many, s);
    }

    fn parse(&self, buf: &mut Cursor) -> (r: Result<Vec<P::Output>, ParseError>) {
        let mut collection: Vec<P::Output> = Vec::new();
        collect_many(&self.many, buf, &mut collection);
        proof {
            assert(collection.deep_view() =~= many_rec(self.many, old(buf).rem()).1);
        }
        Ok(collection)
    }
}

/// Collecting with `many` never fails, and a parser that fails immediately
/// yields the empty collection with nothing consumed; under the same
/// condition `many1` fails, and by its contract it then consumes nothing.
pub proof fn lemma_many_never_fails<P: Parser>(p: Many<P>, q: Many1<P>, s: Seq<char>)
    requires
        p.many == q.many1,
    ensures
        p.spec_parse(s) is Some,
        p.many.spec_parse(s) is None ==> p.spec_parse(s) == Some(
            (0int, Seq::<ValOf<P>>::empty()),
        ),
        p.many.spec_parse(s) is None ==> q.spec_parse(s) is None,
{
}

/// Collect zero or more successes until the first failure; never fails.
pub fn many<P: Parser>(parser: P) -> (p: Many<P>)
    ensures
        p == (Many { many: parser }),
{
    Many { many: parser }
}

/// The shared exec form of the lazy iteration protocol: keeps invoking `p`
/// against `buf`, pushing every success onto `collection`, and rolls the
/// failed final attempt back so the cursor ends at the last success.
fn collect_many<P: Parser>(p: &P, buf: &mut Cursor, collection: &mut Vec<P::Output>)
    requires
        old(buf).wf(),
    ensures
        final(buf).wf(),
        final(buf).input@ == old(buf).input@,
        old(buf).pos <= final(buf).pos,
        final(buf).pos - old(buf).pos == many_rec(*p, old(buf).rem()).0,
        final(collection).deep_view() == old(collection).deep_view() + many_rec(
            *p,
            old(buf).rem(),
        ).1,
{
    let ghost s0 = old(buf).rem();
    let ghost p0 = old(buf).pos;
    let ghost olen = old(collection).deep_view().len() as int;
    loop
        invariant_except_break
            buf.wf(),
            buf.input@ == old(buf).input@,
            p0 == old(buf).pos,
            s0 == old(buf).rem(),
            olen == old(collection).deep_view().len(),
            p0 <= buf.pos <= buf.input@.len(),
            olen <= collection.deep_view().len(),
            collection.deep_view().take(olen) == old(collection).deep_view(),
            many_rec(*p, s0).0 == (buf.pos - p0) + many_rec(*p, buf.rem()).0,
            many_rec(*p, s0).1 == collection.deep_view().skip(olen) + many_rec(*p, buf.rem()).1,
        ensures
            buf.wf(),
            buf.input@ == old(buf).input@,
            p0 <= buf.pos <= buf.input@.len(),
            many_rec(*p, s0).0 == buf.pos - p0,
            olen <= collection.deep_view().len(),
            collection.deep_view().take(olen) == old(collection).deep_view(),
            many_rec(*p, s0).1 == collection.deep_view().skip(olen),
        decreases buf.input@.len() - buf.pos,
    {
        let backup = buf.save();
        let ghost rcur = buf.rem();
        let ghost dv0 = collection.deep_view();
        match p.parse(buf) {
            Ok(v) => {
                if buf.pos == backup {
                    // A success that consumed nothing would repeat forever:
                    // treat it as the end of the sequence.
                    proof {
                        assert(many_rec(*p, rcur) == (0int, Seq::<ValOf<P>>::empty()));
                        assert(dv0.skip(olen) + Seq::<ValOf<P>>::empty() =~= dv0.skip(olen));
                    }
                    break;
                }
                collection.push(v);
                proof {
                    let n = buf.pos - backup;
                    assert(buf.rem() =~= rcur.skip(n));
                    assert(many_rec(*p, rcur).0 == n + many_rec(*p, rcur.skip(n)).0);
                    assert(many_rec(*p, rcur).1 == seq![v.deep_view()] + many_rec(
                        *p,
                        rcur.skip(n),
                    ).1);
                    assert(collection.deep_view() =~= dv0.push(v.deep_view()));
                    assert(collection.deep_view().take(olen) =~= dv0.take(olen));
                    assert(dv0.skip(olen) + (seq![v.deep_view()] + many_rec(*p, rcur.skip(n)).1)
                        =~= dv0.push(v.deep_view()).skip(olen) + many_rec(*p, rcur.skip(n)).1);
                }
            },
            Err(_) => {
                buf.restore(backup);
                proof {
                    assert(many_rec(*p, rcur) == (0int, Seq::<ValOf<P>>::empty()));
                    assert(dv0.skip(olen) + Seq::<ValOf<P>>::empty() =~= dv0.skip(olen));
                }
                break;
            },
        }
    }
    proof {
        assert(collection.deep_view() =~= collection.deep_view().take(olen)
            + collection.deep_view().skip(olen));
    }
}

/// Like [`Many`], but requires at least one success; with none it fails at
/// the original position without consuming.
#[derive(Clone, Copy)]
pub struct Many1<P> {
    /// The repeated parser.
    pub many1: P,
}

impl<P: Parser> Parser for Many1<P> {
    type Output = Vec<P::Output>;

    open spec fn spec_parse(&self, s: Seq<char>) -> Option<(int, Seq<ValOf<P>>)> {
        match self.many1.spec_parse(s) {
            None => None,
            Some((n, v)) => {
                if 0 < n <= s.len() {
                    let (m, vs) = many_rec(self.many1, s.skip(n));
                    Some((n + m, seq![v] + vs))
                } else {
                    Some((0, seq![v]))
                }
            },
        }
    }

    open spec fn no_consume_on_err(&self) -> bool {
        true
    }

    proof fn lemma_parse_len(&self, s: Seq<char>) {
        self.many1.lemma_parse_len(s);
        if let Some((n, _)) = self.many1.spec_parse(s) {
            if 0 < n <= s.len() {
                lemma_many_rec_len(self.many1, s.skip(n));
            }
        }
    }

    fn parse(&self, buf: &mut Cursor) -> (r: Result<Vec<P::Output>, ParseError>) {
        let backup = buf.save();
        let ghost s0 = old(buf).rem();
        let first = match self.many1.parse(buf) {
            Ok(v) => v,
            Err(e) => {
                buf.restore(backup);
                return Err(e);
            },
        };
        let ghost fdv = first.deep_view();
        let ghost n0 = buf.pos - backup;
        let mut collection: Vec<P::Output> = Vec::new();
        collection.push(first);
        proof {
            assert(collection.deep_view() =~= seq![fdv]);
        }
        if buf.pos == backup {
            return Ok(collection);
        }
        proof {
            assert(buf.rem() =~= s0.skip(n0));
        }
        collect_many(&self.many1, buf, &mut collection);
        proof {
            assert(seq![fdv] + many_rec(self.many1, s0.skip(n0)).1 =~= seq![fdv] + many_rec(
                self.many1,
                s0.skip(n0),
            ).1);
        }
        Ok(collection)
    }
}

/// Require at least one success, then collect as [`Many`] does.
pub fn many1<P: Parser>(parser: P) -> (p: Many1<P>)
    ensures
        p == (Many1 { many1: parser }),
{
    Many1 { many1: parser }
}

/// The model of [`Repeat`]: exactly `times` successes in a row, or failure.
pub open spec fn repeat_rec<P: Parser>(p: P, times: nat, s: Seq<char>) -> Option<
    (int, Seq<ValOf<P>>),
>
    decreases times,
{
    if times == 0 {
        Some((0, Seq::empty()))
    } else {
        match p.spec_parse(s) {
            None => None,
            Some((n, v)) => match repeat_rec(p, (times - 1) as nat, s.skip(n)) {
                None => None,
                Some((m, vs)) => Some((n + m, seq![v] + vs)),
            },
        }
    }
}

/// Bounded repetition never consumes more than the input holds.
pub proof fn lemma_repeat_rec_len<P: Parser>(p: P, times: nat, s: Seq<char>)
    ensures
        repeat_rec(p, times, s) matches Some((n, _)) ==> 0 <= n <= s.len(),
    decreases times,
{
    if times != 0 {
        p.lemma_parse_len(s);
        if let Some((n, _)) = p.spec_parse(s) {
            lemma_repeat_rec_len(p, (times - 1) as nat, s.skip(n));
        }
    }
}

/// Exact repetition that succeeds has collected exactly as many values as
/// were asked for.
pub proof fn lemma_repeat_rec_count<P: Parser>(p: P, times: nat, s: Seq<char>)
    ensures
        repeat_rec(p, times, s) matches Some((_, vs)) ==> vs.len() == times,
    decreases times,
{
    if times != 0 {
        if let Some((n, _)) = p.spec_parse(s) {
            lemma_repeat_rec_count(p, (times - 1) as nat, s.skip(n));
        }
    }
}

/// A successful `repeat` has collected exactly `times` values.
pub proof fn lemma_repeat_count<P: Parser>(p: Repeat<P>, s: Seq<char>)
    ensures
        p.spec_parse(s) matches Some((_, vs)) ==> vs.len() == p.times,
{
    lemma_repeat_rec_count(p.repeat, p.times as nat, s);
}

/// Collects exactly `times` successes of a parser.  On any earlier failure
/// it rolls back fully to the pre-call cursor: a partial collection is
/// discarded, never returned.
#[derive(Clone, Copy)]
pub struct Repeat<P> {
    /// The repeated parser.
    pub repeat: P,
    /// How many successes are required.
    pub times: usize,
}

impl<P: Parser> Parser for Repeat<P> {
    type Output = Vec<P::Output>;

    open spec fn spec_parse(&self, s: Seq<char>) -> Option<(int, Seq<ValOf<P>>)> {
        repeat_rec(self.repeat, self.times as nat, s)
    }

    open spec fn no_consume_on_err(&self) -> bool {
        true
    }

    proof fn lemma_parse_len(&self, s: Seq<char>) {
        lemma_repeat_rec_len(self.repeat, self.times as nat, s);
    }

    fn parse(&self, buf: &mut Cursor) -> (r: Result<Vec<P::Output>, ParseError>) {
        let ghost s0 = old(buf).rem();
        let ghost p0 = old(buf).pos;
        let start = buf.save();
        let mut collection: Vec<P::Output> = Vec::new();
        let mut i: usize = 0;
        while i < self.times
            invariant
                buf.wf(),
                buf.input@ == old(buf).input@,
                p0 == old(buf).pos,
                s0 == old(buf).rem(),
                start == p0,
                i <= self.times,
                p0 <= buf.pos <= buf.input@.len(),
                (match repeat_rec(self.repeat, (self.times - i) as nat, buf.rem()) {
                    Some((m, vs)) => repeat_rec(self.repeat, self.times as nat, s0) == Some(
                        ((buf.pos - p0) + m, collection.deep_view() + vs),
                    ),
                    None => repeat_rec(self.repeat, self.times as nat, s0) is None,
                }),
            decreases self.times - i,
        {
            let ghost rcur = buf.rem();
            let ghost dv0 = collection.deep_view();
            let ghost backup = buf.pos;
            match self.repeat.parse(buf) {
                Ok(v) => {
                    collection.push(v);
                    proof {
                        let n = buf.pos - backup;
                        assert(buf.rem() =~= rcur.skip(n));
                        assert(collection.deep_view() =~= dv0.push(v.deep_view()));
                        if let Some((m, vs)) = repeat_rec(
                            self.repeat,
                            (self.times - i - 1) as nat,
                            buf.rem(),
                        ) {
                            assert(dv0 + (seq![v.deep_view()] + vs) =~= dv0.push(v.deep_view())
                                + vs);
                        }
                    }
                    i = i + 1;
                },
                Err(e) => {
                    buf.restore(start);
                    return Err(e);
                },
            }
        }
        proof {
            assert(collection.deep_view() + Seq::<ValOf<P>>::empty() =~= collection.deep_view());
        }
        Ok(collection)
    }
}

/// The model of the separated tail of [`SepBy`]: zero or more rounds of
/// separator-then-item, collected through the iteration protocol of the
/// composed parser.
pub open spec fn sep_tail<P1: Parser, P2: Parser>(parser: P1, sep: P2, s: Seq<char>) -> (
    int,
    Seq<ValOf<P1>>,
) {
    many_rec(With { skip: sep, with: parser }, s)
}

/// One or more items separated by a separator; after the final item one
/// trailing separator is tolerated and consumed without requiring another
/// item to follow.
#[derive(Clone, Copy)]
pub struct SepBy<P1, P2> {
    /// The item parser.
    pub parser: P1,
    /// The separator parser.
    pub sep: P2,
}

impl<P1: Parser, P2: Parser> Parser for SepBy<P1, P2> {
    type Output = Vec<P1::Output>;

    open spec fn spec_parse(&self, s: Seq<char>) -> Option<(int, Seq<ValOf<P1>>)> {
        match self.parser.spec_parse(s) {
            None => None,
            Some((n0, v0)) => {
                let tail = sep_tail(self.parser, self.sep, s.skip(n0));
                let n1 = n0 + tail.0;
                let vs = seq![v0] + tail.1;
                match self.sep.spec_parse(s.skip(n1)) {
                    Some((m, _)) => Some((n1 + m, vs)),
                    None => Some((n1, vs)),
                }
            },
        }
    }

    open spec fn no_consume_on_err(&self) -> bool {
        true
    }

    proof fn lemma_parse_len(&self, s: Seq<char>) {
        self.parser.lemma_parse_len(s);
        if let Some((n0, _)) = self.parser.spec_parse(s) {
            lemma_many_rec_len(With { skip: self.sep, with: self.parser }, s.skip(n0));
            let n1 = n0 + sep_tail(self.parser, self.sep, s.skip(n0)).0;
            self.sep.lemma_parse_len(s.skip(n1));
        }
    }

    fn parse(&self, buf: &mut Cursor) -> (r: Result<Vec<P1::Output>, ParseError>) {
        let ghost s0 = old(buf).rem();
        let ghost w = (With { skip: self.sep, with: self.parser });
        let backup0 = buf.save();
        let first = match self.parser.parse(buf) {
            Ok(v) => v,
            Err(e) => {
                buf.restore(backup0);
                return Err(e);
            },
        };
        let ghost fdv = first.deep_view();
        let ghost n0 = buf.pos - backup0;
        let mut collection: Vec<P1::Output> = Vec::new();
        collection.push(first);
        proof {
            assert(collection.deep_view() =~= seq![fdv]);
            assert(buf.rem() =~= s0.skip(n0));
        }
        let ghost smid = buf.rem();
        let ghost pmid = buf.pos;
        loop
            invariant_except_break
                buf.wf(),
                buf.input@ == old(buf).input@,
                w == (With { skip: self.sep, with: self.parser }),
                smid == s0.skip(n0),
                pmid <= buf.pos <= buf.input@.len(),
                collection.deep_view().len() >= 1,
                collection.deep_view()[0] == fdv,
                many_rec(w, smid).0 == (buf.pos - pmid) + many_rec(w, buf.rem()).0,
                many_rec(w, smid).1 == collection.deep_view().skip(1) + many_rec(w, buf.rem()).1,
            ensures
                buf.wf(),
                buf.input@ == old(buf).input@,
                pmid <= buf.pos <= buf.input@.len(),
                collection.deep_view().len() >= 1,
                collection.deep_view()[0] == fdv,
                many_rec(w, smid).0 == buf.pos - pmid,
                many_rec(w, smid).1 == collection.deep_view().skip(1),
            decreases buf.input@.len() - buf.pos,
        {
            let backup = buf.save();
            let ghost rcur = buf.rem();
            let ghost dv0 = collection.deep_view();
            match self.sep.parse(buf) {
                Ok(_) => {},
                Err(_) => {
                    buf.restore(backup);
                    proof {
                        assert(many_rec(w, rcur) == (0int, Seq::<ValOf<P1>>::empty()));
                        assert(dv0.skip(1) + Seq::<ValOf<P1>>::empty() =~= dv0.skip(1));
                    }
                    break;
                },
            }
            proof {
                assert(buf.rem() =~= rcur.skip(buf.pos - backup));
            }
            match self.parser.parse(buf) {
                Ok(v) => {
                    proof {
                        let n = buf.pos - backup;
                        assert(w.spec_parse(rcur) == Some((n, v.deep_view())));
                    }
                    if buf.pos == backup {
                        // A round that consumed nothing would repeat
                        // forever: treat it as the end of the sequence.
                        proof {
                            assert(many_rec(w, rcur) == (0int, Seq::<ValOf<P1>>::empty()));
                            assert(dv0.skip(1) + Seq::<ValOf<P1>>::empty() =~= dv0.skip(1));
                        }
                        buf.restore(backup);
                        break;
                    }
                    collection.push(v);
                    proof {
                        let n = buf.pos - backup;
                        assert(buf.rem() =~= rcur.skip(n));
                        assert(many_rec(w, rcur).0 == n + many_rec(w, rcur.skip(n)).0);
                        assert(many_rec(w, rcur).1 == seq![v.deep_view()] + many_rec(
                            w,
                            rcur.skip(n),
                        ).1);
                        assert(collection.deep_view() =~= dv0.push(v.deep_view()));
                        assert(collection.deep_view()[0] == fdv);
                        assert(dv0.skip(1) + (seq![v.deep_view()] + many_rec(w, rcur.skip(n)).1)
                            =~= dv0.push(v.deep_view()).skip(1) + many_rec(w, rcur.skip(n)).1);
                    }
                },
                Err(_) => {
                    buf.restore(backup);
                    proof {
                        assert(many_rec(w, rcur) == (0int, Seq::<ValOf<P1>>::empty()));
                        assert(dv0.skip(1) + Seq::<ValOf<P1>>::empty() =~= dv0.skip(1));
                    }
                    break;
                },
            }
        }
        // one trailing separator is tolerated
        let backup = buf.save();
        let ghost rtail = buf.rem();
        proof {
            assert(rtail =~= s0.skip(n0 + many_rec(w, smid).0));
        }
        match self.sep.parse(buf) {
            Ok(_) => {},
            Err(_) => {
                buf.restore(backup);
            },
        }
        proof {
            assert(collection.deep_view() =~= seq![fdv] + collection.deep_view().skip(1));
        }
        Ok(collection)
    }
}

} // verus!
