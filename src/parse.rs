//! The rule protocol: what it means to evaluate a rule against a cursor.
use vstd::prelude::*;

use crate::error::Error;
use crate::source::{Source, SourceBase};
use crate::value::{views, Val, Value};

verus! {

/// What evaluating a rule at a position gives: its output values or its
/// error, and the position the cursor is left at.
pub struct Outcome {
    pub result: Result<Seq<Val>, Error>,
    pub end: nat,
}

/// A successful outcome.
pub open spec fn success(vs: Seq<Val>, end: nat) -> Outcome {
    Outcome { result: Ok(vs), end }
}

/// A failed outcome.
pub open spec fn failure(e: Error, end: nat) -> Outcome {
    Outcome { result: Err(e), end }
}

/// The model of an executable result, with the cursor's final position.
pub open spec fn outcome_of(r: Result<Vec<Value>, Error>, end: nat) -> Outcome {
    match r {
        Ok(v) => success(views(v@), end),
        Err(e) => failure(e, end),
    }
}

/// The one value an output stands for: itself when it has exactly one
/// value, else the whole output as a list.
pub open spec fn single(vs: Seq<Val>) -> Val {
    if vs.len() == 1 {
        vs[0]
    } else {
        Val::List(vs)
    }
}

/// A parsing rule, evaluated with an external argument of type `A` that it
/// reads but never changes.
pub trait ParseImpl<A: View> {
    /// What the rule does on `input` from `pos` with argument `arg`.
    spec fn spec_parse(&self, input: Seq<u8>, pos: nat, arg: A::V) -> Outcome;

    /// The rule never moves backwards and never past the end of the input.
    proof fn lemma_parse_bounds(&self, input: Seq<u8>, pos: nat, arg: A::V)
        requires
            pos <= input.len(),
        ensures
            pos <= self.spec_parse(input, pos, arg).end <= input.len(),
    ;

    fn parse<S: Source>(&self, input: &mut S, arg: &A) -> (r: Result<Vec<Value>, Error>)
        requires
            old(input).wf(),
        ensures
            final(input).wf(),
            final(input).input() == old(input).input(),
            outcome_of(r, final(input).pos()) == self.spec_parse(
                old(input).input(),
                old(input).pos(),
                arg@,
            ),
    ;
}

/// Evaluation of a rule with no external argument, its output returned as
/// one value: the value itself when there is exactly one, else a list.
pub trait Parse {
    /// What the rule does on `input` from `pos`.
    spec fn spec_outcome(&self, input: Seq<u8>, pos: nat) -> Outcome;

    fn parse<S: Source>(&self, input: &mut S) -> (r: Result<Value, Error>)
        requires
            old(input).wf(),
        ensures
            final(input).wf(),
            final(input).input() == old(input).input(),
            final(input).pos() == self.spec_outcome(old(input).input(), old(input).pos()).end,
            match (r, self.spec_outcome(old(input).input(), old(input).pos()).result) {
                (Ok(v), Ok(vs)) => v@ == single(vs),
                (Err(e), Err(f)) => e == f,
                _ => false,
            },
    ;
}

impl<T: ParseImpl<()>> Parse for T {
    open spec fn spec_outcome(&self, input: Seq<u8>, pos: nat) -> Outcome {
        self.spec_parse(input, pos, ())
    }

    fn parse<S: Source>(&self, input: &mut S) -> (r: Result<Value, Error>) {
        match ParseImpl::parse(self, input, &()) {
            Ok(vs) => Ok(into_single(vs)),
            Err(e) => Err(e),
        }
    }
}

/// A test on one item, with the external argument.
pub trait Predicate<A: View> {
    spec fn spec_is(&self, v: u8, arg: A::V) -> bool;

    fn is(&self, v: &u8, arg: &A) -> (r: bool)
        ensures
            r == self.spec_is(*v, arg@),
    ;
}

/// A total mapping from a rule's output values, with the external argument,
/// to one value.
pub trait Mapper<A: View> {
    spec fn spec_map(&self, vs: Seq<Val>, arg: A::V) -> Val;

    fn map(&self, vs: Vec<Value>, arg: &A) -> (r: Value)
        ensures
            r@ == self.spec_map(views(vs@), arg@),
    ;
}

/// A mapping that may fail, such as reading a number out of digits.
pub trait TryMapper<A: View> {
    spec fn spec_try_map(&self, vs: Seq<Val>, arg: A::V) -> Result<Val, Error>;

    fn try_map(&self, vs: Vec<Value>, arg: &A) -> (r: Result<Value, Error>)
        ensures
            match (r, self.spec_try_map(views(vs@), arg@)) {
                (Ok(v), Ok(w)) => v@ == w,
                (Err(e), Err(f)) => e == f,
                _ => false,
            },
    ;
}

/// A mapping that either gives a value or says that there is none.
pub trait PartialMapper<A: View> {
    spec fn spec_map_partial(&self, vs: Seq<Val>, arg: A::V) -> Option<Val>;

    fn map_partial(&self, vs: Vec<Value>, arg: &A) -> (r: Option<Value>)
        ensures
            match (r, self.spec_map_partial(views(vs@), arg@)) {
                (Some(v), Some(w)) => v@ == w,
                (None, None) => true,
                _ => false,
            },
    ;
}

/// The models of a vector's elements.
pub proof fn lemma_views(s: Seq<Value>)
    ensures
        views(s).len() == s.len(),
        forall|i: int| 0 <= i < s.len() ==> #[trigger] views(s)[i] == s[i]@,
    decreases s.len(),
{
    if s.len() > 0 {
        let init = s.drop_last();
        lemma_views(init);
        assert(views(s) == views(init).push(s.last()@));
        assert forall|i: int| 0 <= i < s.len() implies #[trigger] views(s)[i] == s[i]@ by {
            if i < s.len() - 1 {
                assert(init[i] == s[i]);
            }
        }
    }
}

/// Models distribute over concatenation.
pub proof fn lemma_views_concat(a: Seq<Value>, b: Seq<Value>)
    ensures
        views(a + b) == views(a) + views(b),
{
    lemma_views(a);
    lemma_views(b);
    lemma_views(a + b);
    assert(views(a + b) =~= views(a) + views(b));
}

/// The output of one value.
pub proof fn lemma_views_one(v: Value)
    ensures
        views(seq![v]) == seq![v@],
{
    lemma_views(seq![v]);
    assert(views(seq![v]) =~= seq![v@]);
}

/// Turns an output into the one value it stands for.
pub fn into_single(vs: Vec<Value>) -> (r: Value)
    ensures
        r@ == single(views(vs@)),
{
    proof {
        lemma_views(vs@);
    }
    let mut vs = vs;
    if vs.len() == 1 {
        let v = vs.pop().unwrap();
        proof {
            assert(vs@.len() == 0);
        }
        v
    } else {
        Value::List(vs)
    }
}

} // verus!
