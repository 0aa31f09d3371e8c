//! The query vector, before its components are rounded to machine numbers.

use vstd::prelude::*;

verus! {

/// The number of components of a vector.
pub const D: usize = 14;

/// The positions `start..end` of a byte string.
#[derive(Clone, Copy, Debug, PartialEq, Eq, Structural)]
pub struct Span {
    pub start: usize,
    pub end: usize,
}

/// One component of a query vector, as the exact expression of which it is the value. A number
/// stands for itself as the span of its decimal text in the payload.
#[derive(Clone, Copy, Debug, PartialEq, Eq, Structural)]
pub enum Feature {
    /// `number / limit`, cut to the range from 0 to 1.
    Scaled { number: Span, limit: u32 },
    /// `number / base / limit`, cut to the range from 0 to 1; a base below a millionth counts as
    /// a millionth.
    Ratio { number: Span, base: Span, limit: u32 },
    /// `seconds / 60 / limit`, cut to the range from 0 to 1.
    Elapsed { seconds: i64, limit: u32 },
    /// `part / whole`.
    Fraction { part: u32, whole: u32 },
    /// The sentinel -1: there is nothing to measure.
    Missing,
}

/// A query vector.
#[derive(Clone, Copy, Debug)]
pub struct Query {
    pub v: [Feature; D],
    /// The customer has no earlier transaction: components 5 and 6 are the sentinel.
    pub no_history: bool,
}

impl Query {
    /// The sentinel stands in components 5 and 6 of a query without history, and nowhere else.
    pub open spec fn wf(&self) -> bool {
        forall|k: int|
            0 <= k < D ==> (#[trigger] self.v@[k] is Missing <==> self.no_history && (k == 5 || k
                == 6))
    }
}

impl Default for Query {
    fn default() -> (q: Self)
        ensures
            q.v@ == Seq::new(D as nat, |k: int| (Feature::Fraction { part: 0, whole: 1 })),
            !q.no_history,
            q.wf(),
    {
        let q = Query { v: [Feature::Fraction { part: 0, whole: 1 };D], no_history: false };
        assert(q.v@ =~= Seq::new(D as nat, |k: int| (Feature::Fraction { part: 0, whole: 1 })));
        q
    }
}

} // verus!
