//! Properties of cursors and combinators that hold for every input.
use vstd::prelude::*;

use crate::error::Error;
use crate::ops::{
    lemma_punct_run_bounds, punct_run, repeat_run, And, Discard, Expected, MapWith, Name, Optional,
    Or, Peek, Punctuated, Repeat,
};
use crate::parse::{single, Mapper, Outcome, ParseImpl};
use crate::source::{is_consumed, is_fork, is_joined, SourceBase};
use crate::value::Val;

verus! {

/// Forking a cursor and joining the fork at once leaves the position as it was.
pub proof fn lemma_fork_join_unchanged<S: SourceBase>(parent: S, fork: S, joined: S)
    requires
        parent.wf(),
        is_fork(fork, parent),
        is_joined(joined, parent, fork),
    ensures
        joined.pos() == parent.pos(),
        joined.input() == parent.input(),
{
}

/// A fork that consumes `n` available items moves by `n` on its own. The
/// parent is untouched by both calls (`fork` reads it through a shared
/// reference and `consume` acts on the fork), so dropping the fork leaves the
/// parent where it was; joining it instead moves the parent by exactly `n`.
pub proof fn lemma_fork_advances_alone<S: SourceBase>(parent: S, fork: S, advanced: S, n: nat, joined: S)
    requires
        parent.wf(),
        parent.pos() + n <= parent.input().len(),
        is_fork(fork, parent),
        is_consumed(advanced, fork, n),
        is_joined(joined, parent, advanced),
    ensures
        advanced.pos() == parent.pos() + n,
        advanced.input() == parent.input(),
        joined.pos() == parent.pos() + n,
{
}

/// Rollback in ordered choice: when both alternatives fail recoverably,
/// whatever they consumed is discarded and the choice mismatches at the
/// position it started from.
pub proof fn lemma_or_rolls_back<A: View, T0: ParseImpl<A>, T1: ParseImpl<A>>(
    first: T0,
    second: T1,
    input: Seq<u8>,
    pos: nat,
    arg: A::V,
)
    requires
        first.spec_parse(input, pos, arg).result is Err,
        first.spec_parse(input, pos, arg).result->Err_0.is_recoverable(),
        second.spec_parse(input, pos, arg).result is Err,
        second.spec_parse(input, pos, arg).result->Err_0.is_recoverable(),
    ensures
        (Or { first, second }).spec_parse(input, pos, arg) == (Outcome {
            result: Err(Error::Mismatch),
            end: pos,
        }),
{
}

/// Look-ahead gives the rule's own result and never moves the cursor.
pub proof fn lemma_peek_consumes_nothing<A: View, T: ParseImpl<A>>(rule: T, input: Seq<u8>, pos: nat, arg: A::V)
    ensures
        (Peek { rule }).spec_parse(input, pos, arg).result == rule.spec_parse(input, pos, arg).result,
        (Peek { rule }).spec_parse(input, pos, arg).end == pos,
{
}

/// Ordered choice takes the first alternative that matches: the first one
/// when it succeeds, else, after a recoverable failure of the first, the
/// second one evaluated from the same starting position.
pub proof fn lemma_or_first_match<A: View, T0: ParseImpl<A>, T1: ParseImpl<A>>(
    first: T0,
    second: T1,
    input: Seq<u8>,
    pos: nat,
    arg: A::V,
)
    ensures
        first.spec_parse(input, pos, arg).result is Ok ==> (Or { first, second }).spec_parse(
            input,
            pos,
            arg,
        ) == first.spec_parse(input, pos, arg),
        ({
            let o0 = first.spec_parse(input, pos, arg);
            let o1 = second.spec_parse(input, pos, arg);
            o0.result is Err && o0.result->Err_0.is_recoverable() && o1.result is Ok
        }) ==> (Or { first, second }).spec_parse(input, pos, arg) == second.spec_parse(
            input,
            pos,
            arg,
        ),
{
}

/// Ordered choice stops at a hard failure: the outcome is that failure, at
/// the position where it happened, whatever alternative comes after it.
pub proof fn lemma_or_hard_short_circuit<A: View, T0: ParseImpl<A>, T1: ParseImpl<A>, T2: ParseImpl<A>>(
    first: T0,
    second: T1,
    other: T2,
    input: Seq<u8>,
    pos: nat,
    arg: A::V,
)
    requires
        first.spec_parse(input, pos, arg).result is Err,
        !first.spec_parse(input, pos, arg).result->Err_0.is_recoverable(),
    ensures
        (Or { first, second }).spec_parse(input, pos, arg) == first.spec_parse(input, pos, arg),
        (Or { first, second }).spec_parse(input, pos, arg) == (Or { first, second: other }).spec_parse(
            input,
            pos,
            arg,
        ),
{
}

/// `rule` matches exactly `k` times in a row from `pos`, and then fails
/// recoverably.
pub open spec fn matches_exactly<A: View, T: ParseImpl<A>>(rule: T, input: Seq<u8>, pos: nat, arg: A::V, k: nat) -> bool
    decreases k,
{
    let o = rule.spec_parse(input, pos, arg);
    if k == 0 {
        o.result is Err && o.result->Err_0.is_recoverable()
    } else {
        o.result is Ok && matches_exactly(rule, input, o.end, arg, (k - 1) as nat)
    }
}

proof fn lemma_repeat_run_exact<A: View, T: ParseImpl<A>>(rule: T, input: Seq<u8>, pos: nat, arg: A::V, k: nat, left: nat)
    requires
        matches_exactly(rule, input, pos, arg, k),
        k <= left,
    ensures
        repeat_run(rule, input, pos, arg, left).items.len() == k,
        repeat_run(rule, input, pos, arg, left).stop matches Some(e) ==> e.is_recoverable(),
    decreases k,
{
    if k > 0 {
        let o = rule.spec_parse(input, pos, arg);
        lemma_repeat_run_exact(rule, input, o.end, arg, (k - 1) as nat, (left - 1) as nat);
    }
}

/// Over input where the rule matches exactly `k` times in a row, with `k`
/// at most `max`, a repetition succeeds if and only if `min <= k`, and then
/// with a list of exactly `k` values.
pub proof fn lemma_repeat_exact_count<A: View, T: ParseImpl<A>>(
    rule: T,
    min: usize,
    max: usize,
    input: Seq<u8>,
    pos: nat,
    arg: A::V,
    k: nat,
)
    requires
        matches_exactly(rule, input, pos, arg, k),
        k <= max,
    ensures
        ({
            let o = (Repeat { rule, min, max }).spec_parse(input, pos, arg);
            &&& (o.result is Ok <==> min <= k)
            &&& o.result is Ok ==> exists|items: Seq<Val>|
                items.len() == k && o.result == Ok::<Seq<Val>, Error>(seq![Val::List(items)])
        }),
{
    lemma_repeat_run_exact(rule, input, pos, arg, k, max as nat);
    let run = repeat_run(rule, input, pos, arg, max as nat);
    let o = (Repeat { rule, min, max }).spec_parse(input, pos, arg);
    if o.result is Ok {
        assert(o.result == Ok::<Seq<Val>, Error>(seq![Val::List(run.items)]));
    }
}

/// A punctuated list has a separator only between two items: on success the
/// items and separators come as two lists, and unless there are no items at
/// all there is one separator fewer than items.
pub proof fn lemma_punctuated_separators_between<A: View, T: ParseImpl<A>, P: ParseImpl<A>>(
    list: Punctuated<T, P>,
    input: Seq<u8>,
    pos: nat,
    arg: A::V,
)
    requires
        pos <= input.len(),
    ensures
        list.spec_parse(input, pos, arg).result is Ok ==> exists|items: Seq<Val>, puncts: Seq<Val>|
            {
                &&& list.spec_parse(input, pos, arg).result == Ok::<Seq<Val>, Error>(
                    seq![Val::List(items), Val::List(puncts)],
                )
                &&& (items.len() == 0 && puncts.len() == 0 || puncts.len() + 1 == items.len())
            },
{
    let o = list.item.spec_parse(input, pos, arg);
    list.item.lemma_parse_bounds(input, pos, arg);
    if o.result is Ok {
        let run = punct_run(list.item, list.punct, input, o.end, arg, list.rounds());
        lemma_punct_run_bounds(list.item, list.punct, input, o.end, arg, list.rounds());
        let items = seq![single(o.result->Ok_0)] + run.items;
        if list.spec_parse(input, pos, arg).result is Ok {
            assert(list.spec_parse(input, pos, arg).result == Ok::<Seq<Val>, Error>(
                seq![Val::List(items), Val::List(run.puncts)],
            ));
        }
    } else if list.spec_parse(input, pos, arg).result is Ok {
        assert(list.spec_parse(input, pos, arg).result == Ok::<Seq<Val>, Error>(
            seq![Val::List(seq![]), Val::List(seq![])],
        ));
    }
}

/// Sequencing is associative: grouping a sequence of three rules either way
/// gives the same outcome, with the outputs in declaration order.
pub proof fn lemma_and_associative<A: View, T0: ParseImpl<A>, T1: ParseImpl<A>, T2: ParseImpl<A>>(
    a: T0,
    b: T1,
    c: T2,
    input: Seq<u8>,
    pos: nat,
    arg: A::V,
)
    ensures
        (And { first: And { first: a, second: b }, second: c }).spec_parse(input, pos, arg) == (And {
            first: a,
            second: And { first: b, second: c },
        }).spec_parse(input, pos, arg),
{
    let oa = a.spec_parse(input, pos, arg);
    if oa.result is Ok {
        let ob = b.spec_parse(input, oa.end, arg);
        if ob.result is Ok {
            let oc = c.spec_parse(input, ob.end, arg);
            if oc.result is Ok {
                assert(oa.result->Ok_0 + ob.result->Ok_0 + oc.result->Ok_0 =~= oa.result->Ok_0 + (
                ob.result->Ok_0 + oc.result->Ok_0));
            }
        }
    }
}

/// A hard failure is terminal: every combinator that wraps a rule, or tries
/// it first, fails with the same error at the same position.
pub proof fn lemma_hard_is_terminal<A: View, T: ParseImpl<A>, U: ParseImpl<A>, M: Mapper<A>>(
    rule: T,
    other: U,
    mapper: M,
    name: &'static str,
    min: usize,
    max: usize,
    input: Seq<u8>,
    pos: nat,
    arg: A::V,
)
    requires
        rule.spec_parse(input, pos, arg).result is Err,
        !rule.spec_parse(input, pos, arg).result->Err_0.is_recoverable(),
        max > 0,
    ensures
        ({
            let o = rule.spec_parse(input, pos, arg);
            &&& (Optional { rule }).spec_parse(input, pos, arg) == o
            &&& (Discard { rule }).spec_parse(input, pos, arg) == o
            &&& (Name { rule, name }).spec_parse(input, pos, arg) == o
            &&& (Expected { rule, name }).spec_parse(input, pos, arg) == o
            &&& (MapWith { rule, mapper }).spec_parse(input, pos, arg) == o
            &&& (Repeat { rule, min, max }).spec_parse(input, pos, arg) == o
            &&& (Or { first: rule, second: other }).spec_parse(input, pos, arg) == o
            &&& (And { first: rule, second: other }).spec_parse(input, pos, arg) == o
        }),
{
    let o = rule.spec_parse(input, pos, arg);
    let run = repeat_run(rule, input, pos, arg, max as nat);
    assert(run.stop == Some(o.result->Err_0) && run.end == o.end);
}

} // verus!
