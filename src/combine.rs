//! Combiners for reduce: each is associative and has an identity element.
use vstd::prelude::*;

verus! {

/// A combiner of two values, as reduce applies it.
#[derive(Clone, Copy, Debug, PartialEq, Eq, Structural)]
pub enum ReduceOp {
    /// Sum, wrapping around at `2^64`.
    Sum,
    /// The smaller of the two.
    Min,
    /// The larger of the two.
    Max,
}

impl ReduceOp {
    /// The combined value of `a` and `b`.
    pub open spec fn apply(self, a: u64, b: u64) -> u64 {
        match self {
            ReduceOp::Sum => {
                if a + b > u64::MAX {
                    (a + b - u64::MAX - 1) as u64
                } else {
                    (a + b) as u64
                }
            },
            ReduceOp::Min => {
                if a <= b {
                    a
                } else {
                    b
                }
            },
            ReduceOp::Max => {
                if a >= b {
                    a
                } else {
                    b
                }
            },
        }
    }

    /// `e` leaves every value unchanged, on either side.
    pub open spec fn is_identity(self, e: u64) -> bool {
        forall|a: u64|
            #![trigger self.apply(e, a)]
            #![trigger self.apply(a, e)]
            self.apply(e, a) == a && self.apply(a, e) == a
    }

    /// The identity element of the combiner.
    pub open spec fn identity_spec(self) -> u64 {
        match self {
            ReduceOp::Sum => 0,
            ReduceOp::Min => u64::MAX,
            ReduceOp::Max => 0,
        }
    }

    /// Combines `a` and `b`.
    pub fn combine(&self, a: u64, b: u64) -> (r: u64)
        ensures
            r == self.apply(a, b),
    {
        match self {
            ReduceOp::Sum => {
                if a <= u64::MAX - b {
                    a + b
                } else {
                    a - (u64::MAX - b) - 1
                }
            },
            ReduceOp::Min => {
                if a <= b {
                    a
                } else {
                    b
                }
            },
            ReduceOp::Max => {
                if a >= b {
                    a
                } else {
                    b
                }
            },
        }
    }

    /// The identity element of the combiner.
    pub fn identity(&self) -> (e: u64)
        ensures
            e == self.identity_spec(),
            self.is_identity(e),
    {
        match self {
            ReduceOp::Sum => 0,
            ReduceOp::Min => u64::MAX,
            ReduceOp::Max => 0,
        }
    }
}

/// Every combiner is associative.
pub proof fn lemma_apply_associative(op: ReduceOp, a: u64, b: u64, c: u64)
    ensures
        op.apply(op.apply(a, b), c) == op.apply(a, op.apply(b, c)),
{
}

/// Folds `s` from the left into `acc` with `op`.
pub open spec fn fold_items(op: ReduceOp, acc: u64, s: Seq<u64>) -> u64
    decreases s.len(),
{
    if s.len() == 0 {
        acc
    } else {
        op.apply(fold_items(op, acc, s.drop_last()), s.last())
    }
}

/// Folding from any start equals combining that start with the fold from the identity.
proof fn lemma_fold_from(op: ReduceOp, e: u64, a: u64, s: Seq<u64>)
    requires
        op.is_identity(e),
    ensures
        fold_items(op, a, s) == op.apply(a, fold_items(op, e, s)),
    decreases s.len(),
{
    if s.len() == 0 {
        assert(op.apply(a, e) == a);
    } else {
        lemma_fold_from(op, e, a, s.drop_last());
        lemma_apply_associative(op, a, fold_items(op, e, s.drop_last()), s.last());
    }
}

proof fn lemma_fold_concat_acc(op: ReduceOp, acc: u64, s: Seq<u64>, t: Seq<u64>)
    ensures
        fold_items(op, acc, s + t) == fold_items(op, fold_items(op, acc, s), t),
    decreases t.len(),
{
    if t.len() == 0 {
        assert(s + t =~= s);
    } else {
        assert((s + t).drop_last() =~= s + t.drop_last());
        assert((s + t).last() == t.last());
        lemma_fold_concat_acc(op, acc, s, t.drop_last());
    }
}

/// The fold of two joined sequences combines the folds of each, when the
/// start is an identity.
pub proof fn lemma_fold_concat(op: ReduceOp, e: u64, s: Seq<u64>, t: Seq<u64>)
    requires
        op.is_identity(e),
    ensures
        fold_items(op, e, s + t) == op.apply(fold_items(op, e, s), fold_items(op, e, t)),
{
    lemma_fold_concat_acc(op, e, s, t);
    lemma_fold_from(op, e, fold_items(op, e, s), t);
}

/// Folds `s` from the left into `init` with `op`.
pub fn fold_slice(op: ReduceOp, init: u64, s: &[u64]) -> (r: u64)
    ensures
        r == fold_items(op, init, s@),
{
    let mut acc = init;
    let mut i: usize = 0;
    while i < s.len()
        invariant
            i <= s@.len(),
            acc == fold_items(op, init, s@.subrange(0, i as int)),
        decreases s.len() - i,
    {
        assert(s@.subrange(0, i + 1).drop_last() =~= s@.subrange(0, i as int));
        acc = op.combine(acc, s[i]);
        i = i + 1;
    }
    assert(s@.subrange(0, i as int) =~= s@);
    acc
}

} // verus!
