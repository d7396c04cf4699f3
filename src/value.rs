//! The values that rules produce, and their mathematical model.
use vstd::prelude::*;

verus! {

/// One value produced by a rule. A rule's output is an ordered list of them.
#[derive(Debug, PartialEq, Eq)]
pub enum Value {
    /// One input item.
    Item(u8),
    /// A run of input items matched as a literal.
    Bytes(Vec<u8>),
    /// The values collected by a repetition, or a grouped output.
    List(Vec<Value>),
    /// An optional rule that did not match.
    Absent,
    /// An optional rule that matched.
    Present(Box<Value>),
    /// A span of positions, start inclusive and end exclusive.
    Range(usize, usize),
}

/// The model of a [`Value`]: the same shape with sequences in place of vectors.
pub enum Val {
    Item(u8),
    Bytes(Seq<u8>),
    List(Seq<Val>),
    Absent,
    Present(Box<Val>),
    Range(usize, usize),
}

impl View for Value {
    type V = Val;

    open spec fn view(&self) -> Val
        decreases self,
    {
        match self {
            Value::Item(b) => Val::Item(*b),
            Value::Bytes(v) => Val::Bytes(v@),
            Value::List(v) => Val::List(views(v@)),
            Value::Absent => Val::Absent,
            Value::Present(b) => Val::Present(Box::new((**b).view())),
            Value::Range(s, e) => Val::Range(*s, *e),
        }
    }
}

/// The models of a sequence of values, element by element.
pub open spec fn views(s: Seq<Value>) -> Seq<Val>
    decreases s,
{
    if s.len() == 0 {
        Seq::empty()
    } else {
        views(s.drop_last()).push(s.last().view())
    }
}

} // verus!

verus! {

/// Joins two outputs into one, left values first.
pub trait Concat<Rhs>: Sized {
    type Output;

    fn concat(self, r: Rhs) -> Self::Output;
}

impl Concat<Vec<Value>> for Vec<Value> {
    type Output = Vec<Value>;

    fn concat(self, r: Vec<Value>) -> (out: Vec<Value>)
        ensures
            out@ == self@ + r@,
    {
        let mut out = self;
        let mut r = r;
        out.append(&mut r);
        out
    }
}

} // verus!

