//! The combinators: primitive matchers, structure, transforms and diagnostics.
use vstd::prelude::*;
use vstd::slice::slice_to_vec;

use crate::error::{Error, HardError};
use crate::parse::{
    failure, into_single, lemma_views, lemma_views_concat, lemma_views_one, outcome_of, single,
    success, Mapper, Outcome, ParseImpl, PartialMapper, Predicate, TryMapper,
};
use crate::source::{window, Source, SourceBase};
use crate::value::{views, Concat, Val, Value};

verus! {

/// What matching one item with `pred` does: when an item is left and `pred`
/// accepts it, that item is consumed and produced; else nothing is consumed.
pub open spec fn item_outcome<A: View, P: Predicate<A>>(pred: P, input: Seq<u8>, pos: nat, arg: A::V) -> Outcome {
    if pos < input.len() && pred.spec_is(input[pos as int], arg) {
        success(seq![Val::Item(input[pos as int])], pos + 1)
    } else {
        failure(Error::Mismatch, pos)
    }
}

fn parse_item<A: View, P: Predicate<A>, S: Source>(pred: &P, input: &mut S, arg: &A) -> (r: Result<Vec<Value>, Error>)
    requires
        old(input).wf(),
    ensures
        final(input).wf(),
        final(input).input() == old(input).input(),
        outcome_of(r, final(input).pos()) == item_outcome(*pred, old(input).input(), old(input).pos(), arg@),
{
    proof {
        input.lemma_wf();
    }
    let head = input.read(1);
    if head.len() == 1 {
        let item = head[0];
        if pred.is(&item, arg) {
            input.consume(1);
            let out = vec![Value::Item(item)];
            proof {
                lemma_views(out@);
                assert(views(out@) =~= seq![Val::Item(item)]);
            }
            return Ok(out);
        }
    }
    Err(Error::Mismatch)
}

/// Matches one item that the predicate accepts.
pub struct Is<P> {
    pub pred: P,
}

impl<A: View, P: Predicate<A>> Predicate<A> for Is<P> {
    open spec fn spec_is(&self, v: u8, arg: A::V) -> bool {
        self.pred.spec_is(v, arg)
    }

    fn is(&self, v: &u8, arg: &A) -> (r: bool) {
        self.pred.is(v, arg)
    }
}

impl<A: View, P: Predicate<A>> ParseImpl<A> for Is<P> {
    open spec fn spec_parse(&self, input: Seq<u8>, pos: nat, arg: A::V) -> Outcome {
        item_outcome::<A, _>(self.pred, input, pos, arg)
    }

    proof fn lemma_parse_bounds(&self, input: Seq<u8>, pos: nat, arg: A::V) {
    }

    fn parse<S: Source>(&self, input: &mut S, arg: &A) -> (r: Result<Vec<Value>, Error>) {
        parse_item(&self.pred, input, arg)
    }
}

/// Matches one item that the predicate rejects.
pub struct Not<P> {
    pub pred: P,
}

impl<A: View, P: Predicate<A>> Predicate<A> for Not<P> {
    open spec fn spec_is(&self, v: u8, arg: A::V) -> bool {
        !self.pred.spec_is(v, arg)
    }

    fn is(&self, v: &u8, arg: &A) -> (r: bool) {
        !self.pred.is(v, arg)
    }
}

impl<A: View, P: Predicate<A>> ParseImpl<A> for Not<P> {
    open spec fn spec_parse(&self, input: Seq<u8>, pos: nat, arg: A::V) -> Outcome {
        item_outcome::<A, _>(*self, input, pos, arg)
    }

    proof fn lemma_parse_bounds(&self, input: Seq<u8>, pos: nat, arg: A::V) {
    }

    fn parse<S: Source>(&self, input: &mut S, arg: &A) -> (r: Result<Vec<Value>, Error>) {
        parse_item(self, input, arg)
    }
}

/// Matches one item equal to a member of a fixed set.
pub struct AnyOf {
    pub set: Vec<u8>,
}

impl<A: View> Predicate<A> for AnyOf {
    open spec fn spec_is(&self, v: u8, arg: A::V) -> bool {
        self.set@.contains(v)
    }

    fn is(&self, v: &u8, arg: &A) -> (r: bool) {
        let mut i: usize = 0;
        while i < self.set.len()
            invariant
                i <= self.set@.len(),
                forall|j: int| 0 <= j < i ==> self.set@[j] != *v,
            decreases self.set@.len() - i,
        {
            if self.set[i] == *v {
                return true;
            }
            i = i + 1;
        }
        false
    }
}

impl<A: View> ParseImpl<A> for AnyOf {
    open spec fn spec_parse(&self, input: Seq<u8>, pos: nat, arg: A::V) -> Outcome {
        item_outcome::<A, _>(*self, input, pos, arg)
    }

    proof fn lemma_parse_bounds(&self, input: Seq<u8>, pos: nat, arg: A::V) {
    }

    fn parse<S: Source>(&self, input: &mut S, arg: &A) -> (r: Result<Vec<Value>, Error>) {
        parse_item(self, input, arg)
    }
}

/// Matches a fixed run of items exactly, consuming nothing unless all match.
pub struct Literal {
    pub literal: Vec<u8>,
}

impl<A: View> ParseImpl<A> for Literal {
    open spec fn spec_parse(&self, input: Seq<u8>, pos: nat, arg: A::V) -> Outcome {
        let n = self.literal@.len();
        if pos + n <= input.len() && input.subrange(pos as int, (pos + n) as int) == self.literal@ {
            success(seq![Val::Bytes(self.literal@)], pos + n)
        } else {
            failure(Error::Mismatch, pos)
        }
    }

    proof fn lemma_parse_bounds(&self, input: Seq<u8>, pos: nat, arg: A::V) {
    }

    fn parse<S: Source>(&self, input: &mut S, arg: &A) -> (r: Result<Vec<Value>, Error>) {
        proof {
            input.lemma_wf();
        }
        let n = self.literal.len();
        let ahead = input.read(n);
        if ahead.len() < n {
            return Err(Error::Mismatch);
        }
        let mut i: usize = 0;
        while i < n
            invariant
                n == self.literal@.len(),
                ahead@.len() == n,
                ahead@ == window(input.input(), input.pos(), n as nat),
                input.wf(),
                input.input() == old(input).input(),
                input.pos() == old(input).pos(),
                i <= n,
                ahead@.subrange(0, i as int) == self.literal@.subrange(0, i as int),
            decreases n - i,
        {
            if ahead[i] != self.literal[i] {
                proof {
                    assert(ahead@.subrange(0, n as int)[i as int] == ahead@[i as int]);
                }
                return Err(Error::Mismatch);
            }
            i = i + 1;
            proof {
                assert(ahead@.subrange(0, i as int) =~= self.literal@.subrange(0, i as int));
            }
        }
        let matched = slice_to_vec(ahead);
        proof {
            assert(ahead@.subrange(0, n as int) =~= ahead@);
            assert(self.literal@.subrange(0, n as int) =~= self.literal@);
        }
        input.consume(n);
        let out = vec![Value::Bytes(matched)];
        proof {
            lemma_views(out@);
            assert(views(out@) =~= seq![Val::Bytes(self.literal@)]);
        }
        Ok(out)
    }
}

} // verus!

verus! {

/// Runs `first`, then `second` where `first` left the cursor, and joins
/// their outputs in that order. A failure of either is returned as it is,
/// with no rollback of what `first` consumed.
pub struct And<T0, T1> {
    pub first: T0,
    pub second: T1,
}

impl<A: View, T0: ParseImpl<A>, T1: ParseImpl<A>> ParseImpl<A> for And<T0, T1> {
    open spec fn spec_parse(&self, input: Seq<u8>, pos: nat, arg: A::V) -> Outcome {
        let o0 = self.first.spec_parse(input, pos, arg);
        match o0.result {
            Err(_) => o0,
            Ok(v0) => {
                let o1 = self.second.spec_parse(input, o0.end, arg);
                match o1.result {
                    Err(_) => o1,
                    Ok(v1) => success(v0 + v1, o1.end),
                }
            },
        }
    }

    proof fn lemma_parse_bounds(&self, input: Seq<u8>, pos: nat, arg: A::V) {
        self.first.lemma_parse_bounds(input, pos, arg);
        let o0 = self.first.spec_parse(input, pos, arg);
        self.second.lemma_parse_bounds(input, o0.end, arg);
    }

    fn parse<S: Source>(&self, input: &mut S, arg: &A) -> (r: Result<Vec<Value>, Error>) {
        let v0 = match self.first.parse(input, arg) {
            Ok(v) => v,
            Err(e) => return Err(e),
        };
        let v1 = match self.second.parse(input, arg) {
            Ok(v) => v,
            Err(e) => return Err(e),
        };
        proof {
            lemma_views_concat(v0@, v1@);
        }
        Ok(v0.concat(v1))
    }
}

/// Ordered choice: tries `first`, then `second`, each on its own fork.
///
/// The first alternative that succeeds is committed. One that fails hard is
/// committed too and ends the choice. One that mismatches is rolled back.
/// When both mismatch, the result is a plain mismatch at the start.
pub struct Or<T0, T1> {
    pub first: T0,
    pub second: T1,
}

impl<A: View, T0: ParseImpl<A>, T1: ParseImpl<A>> ParseImpl<A> for Or<T0, T1> {
    open spec fn spec_parse(&self, input: Seq<u8>, pos: nat, arg: A::V) -> Outcome {
        let o0 = self.first.spec_parse(input, pos, arg);
        match o0.result {
            Err(e0) if e0.is_recoverable() => {
                let o1 = self.second.spec_parse(input, pos, arg);
                match o1.result {
                    Err(e1) if e1.is_recoverable() => failure(Error::Mismatch, pos),
                    _ => o1,
                }
            },
            _ => o0,
        }
    }

    proof fn lemma_parse_bounds(&self, input: Seq<u8>, pos: nat, arg: A::V) {
        self.first.lemma_parse_bounds(input, pos, arg);
        self.second.lemma_parse_bounds(input, pos, arg);
    }

    fn parse<S: Source>(&self, input: &mut S, arg: &A) -> (r: Result<Vec<Value>, Error>) {
        proof {
            input.lemma_wf();
            self.lemma_parse_bounds(input.input(), input.pos(), arg@);
        }
        let mut fork = input.fork();
        match self.first.parse(&mut fork, arg) {
            Ok(v) => {
                input.join(fork);
                return Ok(v);
            },
            Err(e) => {
                if e.is_hard() {
                    input.join(fork);
                    return Err(e);
                }
            },
        }
        let mut fork = input.fork();
        match self.second.parse(&mut fork, arg) {
            Ok(v) => {
                input.join(fork);
                Ok(v)
            },
            Err(e) => {
                if e.is_hard() {
                    input.join(fork);
                    Err(e)
                } else {
                    Err(Error::Mismatch)
                }
            },
        }
    }
}

} // verus!

verus! {

/// Where a repetition gets to: the values it collected, where it stopped,
/// and the error that stopped it (`None` when it reached its bound).
pub struct Run {
    pub items: Seq<Val>,
    pub end: nat,
    pub stop: Option<Error>,
}

/// Runs `rule` from `pos` again and again, at most `left` times, until it fails.
pub open spec fn repeat_run<A: View, T: ParseImpl<A>>(
    rule: T,
    input: Seq<u8>,
    pos: nat,
    arg: A::V,
    left: nat,
) -> Run
    decreases left,
{
    if left == 0 {
        Run { items: seq![], end: pos, stop: None }
    } else {
        let o = rule.spec_parse(input, pos, arg);
        match o.result {
            Ok(vs) => {
                let rest = repeat_run(rule, input, o.end, arg, (left - 1) as nat);
                Run { items: seq![single(vs)] + rest.items, end: rest.end, stop: rest.stop }
            },
            Err(e) => Run { items: seq![], end: o.end, stop: Some(e) },
        }
    }
}

pub proof fn lemma_repeat_run_bounds<A: View, T: ParseImpl<A>>(
    rule: T,
    input: Seq<u8>,
    pos: nat,
    arg: A::V,
    left: nat,
)
    requires
        pos <= input.len(),
    ensures
        pos <= repeat_run(rule, input, pos, arg, left).end <= input.len(),
        repeat_run(rule, input, pos, arg, left).items.len() <= left,
    decreases left,
{
    if left > 0 {
        rule.lemma_parse_bounds(input, pos, arg);
        let o = rule.spec_parse(input, pos, arg);
        lemma_repeat_run_bounds(rule, input, o.end, arg, (left - 1) as nat);
    }
}

/// Bounded repetition of a rule with one output value.
///
/// Collects the values of at most `max` successive matches into a list. A
/// hard failure is returned at once. A recoverable failure ends the loop,
/// keeping what was collected; the result is then a success when at least
/// `min` values were collected, else that failure (or a plain mismatch).
pub struct Repeat<T> {
    pub rule: T,
    pub min: usize,
    pub max: usize,
}

impl<A: View, T: ParseImpl<A>> ParseImpl<A> for Repeat<T> {
    open spec fn spec_parse(&self, input: Seq<u8>, pos: nat, arg: A::V) -> Outcome {
        let run = repeat_run(self.rule, input, pos, arg, self.max as nat);
        match run.stop {
            Some(e) if !e.is_recoverable() => failure(e, run.end),
            _ => if run.items.len() < self.min {
                failure(
                    match run.stop {
                        Some(e) => e,
                        None => Error::Mismatch,
                    },
                    run.end,
                )
            } else {
                success(seq![Val::List(run.items)], run.end)
            },
        }
    }

    proof fn lemma_parse_bounds(&self, input: Seq<u8>, pos: nat, arg: A::V) {
        lemma_repeat_run_bounds(self.rule, input, pos, arg, self.max as nat);
    }

    fn parse<S: Source>(&self, input: &mut S, arg: &A) -> (r: Result<Vec<Value>, Error>) {
        let ghost whole = repeat_run(self.rule, input.input(), input.pos(), arg@, self.max as nat);
        let mut result: Vec<Value> = Vec::new();
        let mut last: Option<Error> = None;
        let mut i: usize = 0;
        proof {
            lemma_views(result@);
            assert(views(result@) + whole.items =~= whole.items);
        }
        while i < self.max && last.is_none()
            invariant
                input.wf(),
                input.input() == old(input).input(),
                i <= self.max,
                whole == repeat_run(self.rule, old(input).input(), old(input).pos(), arg@, self.max as nat),
                match last {
                    None => {
                        let rest = repeat_run(self.rule, input.input(), input.pos(), arg@, (self.max - i) as nat);
                        &&& whole.items == views(result@) + rest.items
                        &&& whole.end == rest.end
                        &&& whole.stop == rest.stop
                    },
                    Some(e) => {
                        &&& whole.items == views(result@)
                        &&& whole.end == input.pos()
                        &&& whole.stop == Some(e)
                        &&& e.is_recoverable()
                    },
                },
            decreases self.max - i,
        {
            let ghost before = input.pos();
            match self.rule.parse(input, arg) {
                Ok(vs) => {
                    let item = into_single(vs);
                    let ghost prev = result@;
                    result.push(item);
                    proof {
                        let o = self.rule.spec_parse(input.input(), before, arg@);
                        let rest = repeat_run(self.rule, input.input(), input.pos(), arg@, (self.max - i - 1) as nat);
                        assert(result@ == prev + seq![item]);
                        lemma_views_concat(prev, seq![item]);
                        lemma_views_one(item);
                        assert(whole.items =~= views(result@) + rest.items);
                    }
                },
                Err(e) => {
                    if e.is_hard() {
                        return Err(e);
                    }
                    proof {
                        assert(whole.items =~= views(result@));
                    }
                    last = Some(e);
                },
            }
            i = i + 1;
        }
        if result.len() < self.min {
            proof {
                lemma_views(result@);
            }
            return Err(
                match last {
                    Some(e) => e,
                    None => Error::Mismatch,
                },
            );
        }
        proof {
            lemma_views(result@);
            if last.is_none() {
                assert(whole.items =~= views(result@));
            }
        }
        let out = vec![Value::List(result)];
        proof {
            lemma_views_one(Value::List(result));
            assert(out@ == seq![Value::List(result)]);
        }
        Ok(out)
    }
}

} // verus!

verus! {

/// Where the separator-then-item rounds of a punctuated list get to.
pub struct PunctRun {
    pub items: Seq<Val>,
    pub puncts: Seq<Val>,
    pub end: nat,
    pub stop: Option<Error>,
}

/// Runs at most `left` rounds of `punct` then `item` from `pos`. A round
/// that fails in either part is dropped whole and ends the run where that
/// round started.
pub open spec fn punct_run<A: View, T: ParseImpl<A>, P: ParseImpl<A>>(
    item: T,
    punct: P,
    input: Seq<u8>,
    pos: nat,
    arg: A::V,
    left: nat,
) -> PunctRun
    decreases left,
{
    if left == 0 {
        PunctRun { items: seq![], puncts: seq![], end: pos, stop: None }
    } else {
        let p = punct.spec_parse(input, pos, arg);
        match p.result {
            Err(e) => PunctRun { items: seq![], puncts: seq![], end: pos, stop: Some(e) },
            Ok(ps) => {
                let q = item.spec_parse(input, p.end, arg);
                match q.result {
                    Err(e) => PunctRun { items: seq![], puncts: seq![], end: pos, stop: Some(e) },
                    Ok(vs) => {
                        let rest = punct_run(item, punct, input, q.end, arg, (left - 1) as nat);
                        PunctRun {
                            items: seq![single(vs)] + rest.items,
                            puncts: seq![single(ps)] + rest.puncts,
                            end: rest.end,
                            stop: rest.stop,
                        }
                    },
                }
            },
        }
    }
}

pub proof fn lemma_punct_run_bounds<A: View, T: ParseImpl<A>, P: ParseImpl<A>>(
    item: T,
    punct: P,
    input: Seq<u8>,
    pos: nat,
    arg: A::V,
    left: nat,
)
    requires
        pos <= input.len(),
    ensures
        pos <= punct_run(item, punct, input, pos, arg, left).end <= input.len(),
        punct_run(item, punct, input, pos, arg, left).items.len()
            == punct_run(item, punct, input, pos, arg, left).puncts.len(),
    decreases left,
{
    if left > 0 {
        punct.lemma_parse_bounds(input, pos, arg);
        let p = punct.spec_parse(input, pos, arg);
        item.lemma_parse_bounds(input, p.end, arg);
        let q = item.spec_parse(input, p.end, arg);
        lemma_punct_run_bounds(item, punct, input, q.end, arg, (left - 1) as nat);
    }
}

/// A list of at most `max` items with separators between them.
///
/// After the first item each round runs on a fork: a separator, then an
/// item. A round that fails is dropped whole, so a trailing separator with
/// no item after it is neither consumed nor part of the result. Hard
/// failures are returned at once. The output is the list of items and the
/// list of separators; fewer than `min` items is a failure.
pub struct Punctuated<T, P> {
    pub item: T,
    pub punct: P,
    pub min: usize,
    pub max: usize,
}

impl<T, P> Punctuated<T, P> {
    /// How many separator-then-item rounds may follow the first item.
    pub open spec fn rounds(&self) -> nat {
        if self.max > 0 {
            (self.max - 1) as nat
        } else {
            0
        }
    }
}

impl<A: View, T: ParseImpl<A>, P: ParseImpl<A>> ParseImpl<A> for Punctuated<T, P> {
    open spec fn spec_parse(&self, input: Seq<u8>, pos: nat, arg: A::V) -> Outcome {
        let o = self.item.spec_parse(input, pos, arg);
        match o.result {
            Err(e) => if !e.is_recoverable() || 0 < self.min {
                failure(e, o.end)
            } else {
                success(seq![Val::List(seq![]), Val::List(seq![])], o.end)
            },
            Ok(vs) => {
                let run = punct_run(self.item, self.punct, input, o.end, arg, self.rounds());
                let items = seq![single(vs)] + run.items;
                match run.stop {
                    Some(e) if !e.is_recoverable() => failure(e, run.end),
                    _ => if items.len() < self.min {
                        failure(
                            match run.stop {
                                Some(e) => e,
                                None => Error::Mismatch,
                            },
                            run.end,
                        )
                    } else {
                        success(seq![Val::List(items), Val::List(run.puncts)], run.end)
                    },
                }
            },
        }
    }

    proof fn lemma_parse_bounds(&self, input: Seq<u8>, pos: nat, arg: A::V) {
        self.item.lemma_parse_bounds(input, pos, arg);
        let o = self.item.spec_parse(input, pos, arg);
        lemma_punct_run_bounds(self.item, self.punct, input, o.end, arg, self.rounds());
    }

    fn parse<S: Source>(&self, input: &mut S, arg: &A) -> (r: Result<Vec<Value>, Error>) {
        let first = match self.item.parse(input, arg) {
            Ok(v) => v,
            Err(e) => {
                if e.is_hard() || 0 < self.min {
                    return Err(e);
                }
                let out = vec![Value::List(Vec::new()), Value::List(Vec::new())];
                proof {
                    lemma_views(out@);
                    lemma_views(out@[0]->List_0@);
                    assert(views(out@) =~= seq![Val::List(seq![]), Val::List(seq![])]);
                }
                return Ok(out);
            },
        };
        let ghost start = input.pos();
        let ghost first_vs = views(first@);
        let ghost first_val = single(first_vs);
        let rounds: usize = if self.max > 0 {
            self.max - 1
        } else {
            0
        };
        let ghost whole = punct_run(self.item, self.punct, input.input(), start, arg@, rounds as nat);
        let mut items: Vec<Value> = Vec::new();
        items.push(into_single(first));
        let mut puncts: Vec<Value> = Vec::new();
        let mut last: Option<Error> = None;
        let mut i: usize = 0;
        proof {
            lemma_views(items@);
            lemma_views(puncts@);
            assert(views(items@) =~= seq![first_val]);
            assert(views(puncts@) + whole.puncts =~= whole.puncts);
        }
        while i < rounds && last.is_none()
            invariant
                input.wf(),
                input.input() == old(input).input(),
                i <= rounds,
                rounds as nat == self.rounds(),
                self.item.spec_parse(old(input).input(), old(input).pos(), arg@) == success(first_vs, start),
                first_val == single(first_vs),
                whole == punct_run(self.item, self.punct, input.input(), start, arg@, rounds as nat),
                match last {
                    None => {
                        let rest = punct_run(self.item, self.punct, input.input(), input.pos(), arg@, (rounds - i) as nat);
                        &&& seq![first_val] + whole.items == views(items@) + rest.items
                        &&& whole.puncts == views(puncts@) + rest.puncts
                        &&& whole.end == rest.end
                        &&& whole.stop == rest.stop
                    },
                    Some(e) => {
                        &&& seq![first_val] + whole.items == views(items@)
                        &&& whole.puncts == views(puncts@)
                        &&& whole.end == input.pos()
                        &&& whole.stop == Some(e)
                        &&& e.is_recoverable()
                    },
                },
            decreases rounds - i,
        {
            let ghost here = input.pos();
            proof {
                input.lemma_wf();
            }
            let mut fork = input.fork();
            match self.punct.parse(&mut fork, arg) {
                Err(e) => {
                    if e.is_hard() {
                        return Err(e);
                    }
                    proof {
                        assert(seq![first_val] + whole.items =~= views(items@));
                        assert(whole.puncts =~= views(puncts@));
                    }
                    last = Some(e);
                },
                Ok(ps) => {
                    let ghost mid = fork.pos();
                    proof {
                        self.punct.lemma_parse_bounds(input.input(), here, arg@);
                        self.item.lemma_parse_bounds(input.input(), mid, arg@);
                    }
                    match self.item.parse(&mut fork, arg) {
                        Err(e) => {
                            if e.is_hard() {
                                return Err(e);
                            }
                            proof {
                                assert(seq![first_val] + whole.items =~= views(items@));
                                assert(whole.puncts =~= views(puncts@));
                            }
                            last = Some(e);
                        },
                        Ok(vs) => {
                            let it = into_single(vs);
                            let pu = into_single(ps);
                            let ghost prev_items = items@;
                            let ghost prev_puncts = puncts@;
                            items.push(it);
                            puncts.push(pu);
                            input.join(fork);
                            proof {
                                let rest = punct_run(self.item, self.punct, input.input(), input.pos(), arg@, (rounds - i - 1) as nat);
                                assert(items@ == prev_items + seq![it]);
                                assert(puncts@ == prev_puncts + seq![pu]);
                                lemma_views_concat(prev_items, seq![it]);
                                lemma_views_concat(prev_puncts, seq![pu]);
                                lemma_views_one(it);
                                lemma_views_one(pu);
                                assert(seq![first_val] + whole.items =~= views(items@) + rest.items);
                                assert(whole.puncts =~= views(puncts@) + rest.puncts);
                            }
                        },
                    }
                },
            }
            i = i + 1;
        }
        proof {
            lemma_views(items@);
            lemma_views(puncts@);
            if last.is_none() {
                assert(seq![first_val] + whole.items =~= views(items@));
                assert(whole.puncts =~= views(puncts@));
            }
        }
        if items.len() < self.min {
            return Err(
                match last {
                    Some(e) => e,
                    None => Error::Mismatch,
                },
            );
        }
        let out = vec![Value::List(items), Value::List(puncts)];
        proof {
            lemma_views(out@);
            assert(views(out@) =~= seq![Val::List(views(items@)), Val::List(views(puncts@))]);
        }
        Ok(out)
    }
}

} // verus!

verus! {

/// Runs a rule with one output value and reports whether it matched: a
/// recoverable failure gives `Absent`, a hard one is returned.
pub struct Optional<T> {
    pub rule: T,
}

impl<A: View, T: ParseImpl<A>> ParseImpl<A> for Optional<T> {
    open spec fn spec_parse(&self, input: Seq<u8>, pos: nat, arg: A::V) -> Outcome {
        let o = self.rule.spec_parse(input, pos, arg);
        match o.result {
            Ok(vs) => success(seq![Val::Present(Box::new(single(vs)))], o.end),
            Err(e) => if e.is_recoverable() {
                success(seq![Val::Absent], o.end)
            } else {
                o
            },
        }
    }

    proof fn lemma_parse_bounds(&self, input: Seq<u8>, pos: nat, arg: A::V) {
        self.rule.lemma_parse_bounds(input, pos, arg);
    }

    fn parse<S: Source>(&self, input: &mut S, arg: &A) -> (r: Result<Vec<Value>, Error>) {
        match self.rule.parse(input, arg) {
            Ok(vs) => {
                let v = Value::Present(Box::new(into_single(vs)));
                let out = vec![v];
                proof {
                    assert(out@ == seq![v]);
                    lemma_views_one(v);
                }
                Ok(out)
            },
            Err(e) => {
                if e.is_hard() {
                    Err(e)
                } else {
                    let out = vec![Value::Absent];
                    proof {
                        assert(out@ == seq![Value::Absent]);
                        lemma_views_one(Value::Absent);
                    }
                    Ok(out)
                }
            },
        }
    }
}

/// Runs a rule and drops its output.
pub struct Discard<T> {
    pub rule: T,
}

impl<A: View, T: ParseImpl<A>> ParseImpl<A> for Discard<T> {
    open spec fn spec_parse(&self, input: Seq<u8>, pos: nat, arg: A::V) -> Outcome {
        let o = self.rule.spec_parse(input, pos, arg);
        match o.result {
            Ok(_) => success(seq![], o.end),
            Err(_) => o,
        }
    }

    proof fn lemma_parse_bounds(&self, input: Seq<u8>, pos: nat, arg: A::V) {
        self.rule.lemma_parse_bounds(input, pos, arg);
    }

    fn parse<S: Source>(&self, input: &mut S, arg: &A) -> (r: Result<Vec<Value>, Error>) {
        match self.rule.parse(input, arg) {
            Ok(_) => {
                let out: Vec<Value> = Vec::new();
                proof {
                    lemma_views(out@);
                    assert(views(out@) =~= seq![]);
                }
                Ok(out)
            },
            Err(e) => Err(e),
        }
    }
}

/// As a rule, matches the empty input with no output; as a mapper, hands on
/// the one value of its input.
pub struct NoOp;

impl<A: View> ParseImpl<A> for NoOp {
    open spec fn spec_parse(&self, input: Seq<u8>, pos: nat, arg: A::V) -> Outcome {
        success(seq![], pos)
    }

    proof fn lemma_parse_bounds(&self, input: Seq<u8>, pos: nat, arg: A::V) {
    }

    fn parse<S: Source>(&self, input: &mut S, arg: &A) -> (r: Result<Vec<Value>, Error>) {
        let out: Vec<Value> = Vec::new();
        proof {
            lemma_views(out@);
            assert(views(out@) =~= seq![]);
        }
        Ok(out)
    }
}

impl<A: View> Mapper<A> for NoOp {
    open spec fn spec_map(&self, vs: Seq<Val>, arg: A::V) -> Val {
        single(vs)
    }

    fn map(&self, vs: Vec<Value>, arg: &A) -> (r: Value) {
        into_single(vs)
    }
}

impl<A: View> TryMapper<A> for NoOp {
    open spec fn spec_try_map(&self, vs: Seq<Val>, arg: A::V) -> Result<Val, Error> {
        Ok(single(vs))
    }

    fn try_map(&self, vs: Vec<Value>, arg: &A) -> (r: Result<Value, Error>) {
        Ok(into_single(vs))
    }
}

impl<A: View> PartialMapper<A> for NoOp {
    open spec fn spec_map_partial(&self, vs: Seq<Val>, arg: A::V) -> Option<Val> {
        Some(single(vs))
    }

    fn map_partial(&self, vs: Vec<Value>, arg: &A) -> (r: Option<Value>) {
        Some(into_single(vs))
    }
}

/// A rule that never matches.
pub struct Never;

impl<A: View> ParseImpl<A> for Never {
    open spec fn spec_parse(&self, input: Seq<u8>, pos: nat, arg: A::V) -> Outcome {
        failure(Error::Mismatch, pos)
    }

    proof fn lemma_parse_bounds(&self, input: Seq<u8>, pos: nat, arg: A::V) {
    }

    fn parse<S: Source>(&self, input: &mut S, arg: &A) -> (r: Result<Vec<Value>, Error>) {
        Err(Error::Mismatch)
    }
}

/// Maps the output of a successful rule, with the argument, to one value.
pub struct MapWith<P, M> {
    pub rule: P,
    pub mapper: M,
}

impl<A: View, P: ParseImpl<A>, M: Mapper<A>> ParseImpl<A> for MapWith<P, M> {
    open spec fn spec_parse(&self, input: Seq<u8>, pos: nat, arg: A::V) -> Outcome {
        let o = self.rule.spec_parse(input, pos, arg);
        match o.result {
            Ok(vs) => success(seq![self.mapper.spec_map(vs, arg)], o.end),
            Err(_) => o,
        }
    }

    proof fn lemma_parse_bounds(&self, input: Seq<u8>, pos: nat, arg: A::V) {
        self.rule.lemma_parse_bounds(input, pos, arg);
    }

    fn parse<S: Source>(&self, input: &mut S, arg: &A) -> (r: Result<Vec<Value>, Error>) {
        match self.rule.parse(input, arg) {
            Ok(vs) => {
                let v = self.mapper.map(vs, arg);
                let out = vec![v];
                proof {
                    assert(out@ == seq![v]);
                    lemma_views_one(v);
                }
                Ok(out)
            },
            Err(e) => Err(e),
        }
    }
}

/// Like [`MapWith`], with a mapping that may fail; its error is returned as it is.
pub struct TryMap<P, M> {
    pub rule: P,
    pub mapper: M,
}

impl<A: View, P: ParseImpl<A>, M: TryMapper<A>> ParseImpl<A> for TryMap<P, M> {
    open spec fn spec_parse(&self, input: Seq<u8>, pos: nat, arg: A::V) -> Outcome {
        let o = self.rule.spec_parse(input, pos, arg);
        match o.result {
            Ok(vs) => match self.mapper.spec_try_map(vs, arg) {
                Ok(v) => success(seq![v], o.end),
                Err(e) => failure(e, o.end),
            },
            Err(_) => o,
        }
    }

    proof fn lemma_parse_bounds(&self, input: Seq<u8>, pos: nat, arg: A::V) {
        self.rule.lemma_parse_bounds(input, pos, arg);
    }

    fn parse<S: Source>(&self, input: &mut S, arg: &A) -> (r: Result<Vec<Value>, Error>) {
        match self.rule.parse(input, arg) {
            Ok(vs) => match self.mapper.try_map(vs, arg) {
                Ok(v) => {
                    let out = vec![v];
                    proof {
                        assert(out@ == seq![v]);
                        lemma_views_one(v);
                    }
                    Ok(out)
                },
                Err(e) => Err(e),
            },
            Err(e) => Err(e),
        }
    }
}

/// Maps the output of a successful rule to a value when the mapping gives
/// one; when it gives none, the result is a plain mismatch.
pub struct IsMap<P, M> {
    pub rule: P,
    pub mapper: M,
}

impl<A: View, P: ParseImpl<A>, M: PartialMapper<A>> ParseImpl<A> for IsMap<P, M> {
    open spec fn spec_parse(&self, input: Seq<u8>, pos: nat, arg: A::V) -> Outcome {
        let o = self.rule.spec_parse(input, pos, arg);
        match o.result {
            Ok(vs) => match self.mapper.spec_map_partial(vs, arg) {
                Some(v) => success(seq![v], o.end),
                None => failure(Error::Mismatch, o.end),
            },
            Err(_) => o,
        }
    }

    proof fn lemma_parse_bounds(&self, input: Seq<u8>, pos: nat, arg: A::V) {
        self.rule.lemma_parse_bounds(input, pos, arg);
    }

    fn parse<S: Source>(&self, input: &mut S, arg: &A) -> (r: Result<Vec<Value>, Error>) {
        match self.rule.parse(input, arg) {
            Ok(vs) => match self.mapper.map_partial(vs, arg) {
                Some(v) => {
                    let out = vec![v];
                    proof {
                        assert(out@ == seq![v]);
                        lemma_views_one(v);
                    }
                    Ok(out)
                },
                None => Err(Error::Mismatch),
            },
            Err(e) => Err(e),
        }
    }
}

/// Chaining: runs `first`, then `second` where `first` left the cursor,
/// with the value that the output of `first` stands for as the argument of
/// `second`. The output is that value followed by the output of `second`.
pub struct AndWithArg<T0, T1> {
    pub first: T0,
    pub second: T1,
}

impl<A: View, T0: ParseImpl<A>, T1: ParseImpl<Value>> ParseImpl<A> for AndWithArg<T0, T1> {
    open spec fn spec_parse(&self, input: Seq<u8>, pos: nat, arg: A::V) -> Outcome {
        let o0 = self.first.spec_parse(input, pos, arg);
        match o0.result {
            Err(_) => o0,
            Ok(v0) => {
                let head = single(v0);
                let o1 = self.second.spec_parse(input, o0.end, head);
                match o1.result {
                    Err(_) => o1,
                    Ok(v1) => success(seq![head] + v1, o1.end),
                }
            },
        }
    }

    proof fn lemma_parse_bounds(&self, input: Seq<u8>, pos: nat, arg: A::V) {
        self.first.lemma_parse_bounds(input, pos, arg);
        let o0 = self.first.spec_parse(input, pos, arg);
        if o0.result is Ok {
            self.second.lemma_parse_bounds(input, o0.end, single(o0.result->Ok_0));
        }
    }

    fn parse<S: Source>(&self, input: &mut S, arg: &A) -> (r: Result<Vec<Value>, Error>) {
        let v0 = match self.first.parse(input, arg) {
            Ok(v) => v,
            Err(e) => return Err(e),
        };
        let head = into_single(v0);
        let v1 = match self.second.parse(input, &head) {
            Ok(v) => v,
            Err(e) => return Err(e),
        };
        let first_part = vec![head];
        proof {
            assert(first_part@ == seq![head]);
            lemma_views_one(head);
            lemma_views_concat(first_part@, v1@);
        }
        Ok(first_part.concat(v1))
    }
}

/// Commits to a rule: its plain mismatch becomes a hard `Incomplete` error,
/// and a named one a hard `NamedIncomplete`, both at the position the rule
/// left the cursor.
pub struct Expected<T> {
    pub rule: T,
    pub name: &'static str,
}

impl<A: View, T: ParseImpl<A>> ParseImpl<A> for Expected<T> {
    open spec fn spec_parse(&self, input: Seq<u8>, pos: nat, arg: A::V) -> Outcome {
        let o = self.rule.spec_parse(input, pos, arg);
        match o.result {
            Err(Error::Mismatch) => failure(
                Error::Hard(HardError::Incomplete { position: o.end as usize, name: self.name }),
                o.end,
            ),
            Err(Error::NamedMismatch(component_name)) => failure(
                Error::Hard(
                    HardError::NamedIncomplete {
                        position: o.end as usize,
                        name: self.name,
                        component_name,
                    },
                ),
                o.end,
            ),
            _ => o,
        }
    }

    proof fn lemma_parse_bounds(&self, input: Seq<u8>, pos: nat, arg: A::V) {
        self.rule.lemma_parse_bounds(input, pos, arg);
    }

    fn parse<S: Source>(&self, input: &mut S, arg: &A) -> (r: Result<Vec<Value>, Error>) {
        match self.rule.parse(input, arg) {
            Err(Error::Mismatch) => Err(
                Error::Hard(HardError::Incomplete { position: input.position(), name: self.name }),
            ),
            Err(Error::NamedMismatch(component_name)) => Err(
                Error::Hard(
                    HardError::NamedIncomplete {
                        position: input.position(),
                        name: self.name,
                        component_name,
                    },
                ),
            ),
            other => other,
        }
    }
}

/// Labels a rule's plain mismatch for the diagnostics of an enclosing [`Expected`].
pub struct Name<T> {
    pub rule: T,
    pub name: &'static str,
}

impl<A: View, T: ParseImpl<A>> ParseImpl<A> for Name<T> {
    open spec fn spec_parse(&self, input: Seq<u8>, pos: nat, arg: A::V) -> Outcome {
        let o = self.rule.spec_parse(input, pos, arg);
        match o.result {
            Err(Error::Mismatch) => failure(Error::NamedMismatch(self.name), o.end),
            _ => o,
        }
    }

    proof fn lemma_parse_bounds(&self, input: Seq<u8>, pos: nat, arg: A::V) {
        self.rule.lemma_parse_bounds(input, pos, arg);
    }

    fn parse<S: Source>(&self, input: &mut S, arg: &A) -> (r: Result<Vec<Value>, Error>) {
        match self.rule.parse(input, arg) {
            Err(Error::Mismatch) => Err(Error::NamedMismatch(self.name)),
            other => other,
        }
    }
}

/// Look-ahead: runs a rule on a fork that is always dropped, and returns
/// its result without consuming anything.
pub struct Peek<T> {
    pub rule: T,
}

impl<A: View, T: ParseImpl<A>> ParseImpl<A> for Peek<T> {
    open spec fn spec_parse(&self, input: Seq<u8>, pos: nat, arg: A::V) -> Outcome {
        Outcome { result: self.rule.spec_parse(input, pos, arg).result, end: pos }
    }

    proof fn lemma_parse_bounds(&self, input: Seq<u8>, pos: nat, arg: A::V) {
    }

    fn parse<S: Source>(&self, input: &mut S, arg: &A) -> (r: Result<Vec<Value>, Error>) {
        let mut fork = input.fork();
        self.rule.parse(&mut fork, arg)
    }
}

/// Maps the output of a successful rule together with the span of
/// positions it consumed.
pub struct MapRange<T, M> {
    pub rule: T,
    pub mapper: M,
}

impl<A: View, T: ParseImpl<A>, M: Mapper<(usize, usize)>> ParseImpl<A> for MapRange<T, M> {
    open spec fn spec_parse(&self, input: Seq<u8>, pos: nat, arg: A::V) -> Outcome {
        let o = self.rule.spec_parse(input, pos, arg);
        match o.result {
            Ok(vs) => success(seq![self.mapper.spec_map(vs, (pos as usize, o.end as usize))], o.end),
            Err(_) => o,
        }
    }

    proof fn lemma_parse_bounds(&self, input: Seq<u8>, pos: nat, arg: A::V) {
        self.rule.lemma_parse_bounds(input, pos, arg);
    }

    fn parse<S: Source>(&self, input: &mut S, arg: &A) -> (r: Result<Vec<Value>, Error>) {
        let start = input.position();
        match self.rule.parse(input, arg) {
            Ok(vs) => {
                let end = input.position();
                let v = self.mapper.map(vs, &(start, end));
                let out = vec![v];
                proof {
                    assert(out@ == seq![v]);
                    lemma_views_one(v);
                }
                Ok(out)
            },
            Err(e) => Err(e),
        }
    }
}

/// A mapper that appends its argument, a span of positions, to the values.
pub struct ConcatArg;

impl Mapper<(usize, usize)> for ConcatArg {
    open spec fn spec_map(&self, vs: Seq<Val>, arg: (usize, usize)) -> Val {
        Val::List(vs.push(Val::Range(arg.0, arg.1)))
    }

    fn map(&self, vs: Vec<Value>, arg: &(usize, usize)) -> (r: Value) {
        let mut vs = vs;
        let ghost prev = vs@;
        vs.push(Value::Range(arg.0, arg.1));
        proof {
            assert(vs@ == prev + seq![Value::Range(arg.0, arg.1)]);
            lemma_views_concat(prev, seq![Value::Range(arg.0, arg.1)]);
            lemma_views_one(Value::Range(arg.0, arg.1));
            assert(views(vs@) =~= views(prev).push(Val::Range(arg.0, arg.1)));
        }
        Value::List(vs)
    }
}

/// Matches only at the very start of the input, consuming nothing.
pub struct Start;

impl<A: View> ParseImpl<A> for Start {
    open spec fn spec_parse(&self, input: Seq<u8>, pos: nat, arg: A::V) -> Outcome {
        if pos == 0 {
            success(seq![], pos)
        } else {
            failure(Error::Mismatch, pos)
        }
    }

    proof fn lemma_parse_bounds(&self, input: Seq<u8>, pos: nat, arg: A::V) {
    }

    fn parse<S: Source>(&self, input: &mut S, arg: &A) -> (r: Result<Vec<Value>, Error>) {
        if input.position() == 0 {
            let out: Vec<Value> = Vec::new();
            proof {
                lemma_views(out@);
                assert(views(out@) =~= seq![]);
            }
            Ok(out)
        } else {
            Err(Error::Mismatch)
        }
    }
}

/// Matches only where no item is left, consuming nothing.
pub struct End;

impl<A: View> ParseImpl<A> for End {
    open spec fn spec_parse(&self, input: Seq<u8>, pos: nat, arg: A::V) -> Outcome {
        if pos >= input.len() {
            success(seq![], pos)
        } else {
            failure(Error::Mismatch, pos)
        }
    }

    proof fn lemma_parse_bounds(&self, input: Seq<u8>, pos: nat, arg: A::V) {
    }

    fn parse<S: Source>(&self, input: &mut S, arg: &A) -> (r: Result<Vec<Value>, Error>) {
        proof {
            input.lemma_wf();
        }
        if input.read(1).len() == 0 {
            let out: Vec<Value> = Vec::new();
            proof {
                lemma_views(out@);
                assert(views(out@) =~= seq![]);
            }
            Ok(out)
        } else {
            Err(Error::Mismatch)
        }
    }
}

} // verus!
