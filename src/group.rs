//! What the whole group computes when every rank runs the same collective:
//! the ranks' states after each round, where a rank that receives takes what
//! its partner sent in that round. The laws of the collectives are proved here.
use vstd::prelude::*;
use vstd::arithmetic::div_mod::{lemma_small_mod, lemma_fundamental_div_mod_converse};
use crate::combine::{ReduceOp, fold_items, lemma_fold_concat};
use crate::topology::{
    Action, fanin_action, fanout_action, is_depth, lemma_multiple_step, lemma_pairing_matches,
    lemma_pow2_grows, lemma_pow2_mono, pow2,
};

verus! {

/// The values held after `d` rounds of broadcast, where rank `r` started with `x[r]`.
pub open spec fn broadcast_after(x: Seq<u64>, depth: nat, d: nat) -> Seq<u64>
    decreases d,
{
    if d == 0 {
        x
    } else {
        let prev = broadcast_after(x, depth, (d - 1) as nat);
        Seq::new(
            x.len(),
            |r: int|
                match fanout_action(x.len(), r as nat, depth, (d - 1) as nat) {
                    Action::Recv(p) => prev[p as int],
                    _ => prev[r],
                },
        )
    }
}

proof fn lemma_double_multiple(r: nat, k: nat)
    requires
        k > 0,
        r % (2 * k) == 0,
    ensures
        r % k == 0,
{
    let j = r / (2 * k);
    vstd::arithmetic::div_mod::lemma_fundamental_div_mod(r as int, (2 * k) as int);
    assert(r == (2 * j) * k) by (nonlinear_arith)
        requires
            r == (2 * k) * j + 0,
    ;
    lemma_fundamental_div_mod_converse(r as int, k as int, (2 * j) as int, 0);
}

proof fn lemma_first_round_root_only(r: nat, n: nat, depth: nat)
    requires
        r < n,
        n <= pow2(depth),
        r % pow2(depth) == 0,
    ensures
        r == 0,
{
    lemma_pow2_grows(depth);
    lemma_small_mod(r, pow2(depth));
}

/// After `d` rounds of broadcast every multiple of `2^(depth - d)` holds the root's value.
proof fn lemma_broadcast_spreads(x: Seq<u64>, depth: nat, d: nat)
    requires
        1 <= x.len() <= usize::MAX,
        is_depth(x.len(), depth),
        d <= depth,
    ensures
        broadcast_after(x, depth, d).len() == x.len(),
        forall|r: nat|
            r < x.len() && #[trigger] (r % pow2((depth - d) as nat)) == 0 ==> broadcast_after(
                x,
                depth,
                d,
            )[r as int] == x[0],
    decreases d,
{
    if d == 0 {
        assert forall|r: nat|
            r < x.len() && #[trigger] (r % pow2((depth - d) as nat)) == 0 implies broadcast_after(
            x,
            depth,
            d,
        )[r as int] == x[0] by {
            lemma_first_round_root_only(r, x.len(), depth);
        }
    } else {
        lemma_broadcast_spreads(x, depth, (d - 1) as nat);
        let prev = broadcast_after(x, depth, (d - 1) as nat);
        let k = pow2((depth - d) as nat);
        lemma_pow2_grows((depth - d) as nat);
        assert(pow2((depth - (d - 1)) as nat) == 2 * k);
        assert forall|r: nat|
            r < x.len() && #[trigger] (r % k) == 0 implies broadcast_after(x, depth, d)[r as int]
            == x[0] by {
            lemma_multiple_step(r, k);
            assert((depth - 1 - (d - 1)) as nat == (depth - d) as nat);
            if (r / k) % 2 == 1 {
                let p = (r - k) as nat;
                lemma_multiple_step(p, k);
                assert(p % (2 * k) == 0);
            }
        }
    }
}

/// Broadcast delivers the root's value: after all rounds every rank holds
/// what rank 0 held at the start.
pub proof fn lemma_broadcast_fidelity(x: Seq<u64>, depth: nat)
    requires
        1 <= x.len() <= usize::MAX,
        is_depth(x.len(), depth),
    ensures
        broadcast_after(x, depth, depth).len() == x.len(),
        forall|r: int| 0 <= r < x.len() ==> #[trigger] broadcast_after(x, depth, depth)[r] == x[0],
{
    lemma_broadcast_spreads(x, depth, depth);
    assert forall|r: int| 0 <= r < x.len() implies #[trigger] broadcast_after(x, depth, depth)[r]
        == x[0] by {
        assert(pow2((depth - depth) as nat) == 1);
        assert((r as nat) % pow2((depth - depth) as nat) == 0);
    }
}


/// The blocks of `s`, joined in order.
pub open spec fn concat(s: Seq<Seq<u64>>) -> Seq<u64>
    decreases s.len(),
{
    if s.len() == 0 {
        Seq::empty()
    } else {
        concat(s.drop_last()) + s.last()
    }
}

/// Joining the blocks of two sequences of blocks joins their joined blocks.
pub proof fn lemma_concat_append(a: Seq<Seq<u64>>, b: Seq<Seq<u64>>)
    ensures
        concat(a + b) == concat(a) + concat(b),
    decreases b.len(),
{
    if b.len() == 0 {
        assert(a + b =~= a);
        assert(concat(a) + concat(b) =~= concat(a));
    } else {
        assert((a + b).drop_last() =~= a + b.drop_last());
        assert((a + b).last() == b.last());
        lemma_concat_append(a, b.drop_last());
        assert(concat(a) + concat(b.drop_last()) + b.last() =~= concat(a) + (concat(
            b.drop_last(),
        ) + b.last()));
    }
}

/// The smaller of `a` and `n`.
pub open spec fn upto(a: nat, n: nat) -> nat {
    if a < n {
        a
    } else {
        n
    }
}

/// The buffers held after `d` rounds of gather, where rank `r` started with `blocks[r]`.
pub open spec fn gather_after(blocks: Seq<Seq<u64>>, d: nat) -> Seq<Seq<u64>>
    decreases d,
{
    if d == 0 {
        blocks
    } else {
        let prev = gather_after(blocks, (d - 1) as nat);
        Seq::new(
            blocks.len(),
            |r: int|
                match fanin_action(blocks.len(), r as nat, (d - 1) as nat) {
                    Action::Recv(c) => prev[r] + prev[c as int],
                    _ => prev[r],
                },
        )
    }
}

/// After `d` rounds of gather every multiple `r` of `2^d` holds the blocks of
/// the ranks from `r` up to `r + 2^d`, in rank order.
pub proof fn lemma_gather_collects(blocks: Seq<Seq<u64>>, d: nat)
    requires
        blocks.len() <= usize::MAX,
    ensures
        gather_after(blocks, d).len() == blocks.len(),
        forall|r: nat|
            r < blocks.len() && #[trigger] (r % pow2(d)) == 0 ==> gather_after(blocks, d)[r as int]
                == concat(blocks.subrange(r as int, upto(r + pow2(d), blocks.len()) as int)),
    decreases d,
{
    let n = blocks.len();
    if d == 0 {
        assert forall|r: nat| r < n && #[trigger] (r % pow2(d)) == 0 implies gather_after(
            blocks,
            d,
        )[r as int] == concat(blocks.subrange(r as int, upto(r + pow2(d), n) as int)) by {
            let s = blocks.subrange(r as int, r + 1 as int);
            assert(pow2(0) == 1);
            assert(s.drop_last() =~= Seq::<Seq<u64>>::empty());
            assert(concat(s.drop_last()) =~= Seq::<u64>::empty());
            assert(concat(s) =~= blocks[r as int]);
        }
    } else {
        lemma_gather_collects(blocks, (d - 1) as nat);
        let prev = gather_after(blocks, (d - 1) as nat);
        let k = pow2((d - 1) as nat);
        lemma_pow2_grows((d - 1) as nat);
        assert forall|r: nat| r < n && #[trigger] (r % pow2(d)) == 0 implies gather_after(
            blocks,
            d,
        )[r as int] == concat(blocks.subrange(r as int, upto(r + pow2(d), n) as int)) by {
            lemma_double_multiple(r, k);
            lemma_multiple_step(r, k);
            if r + k < n {
                lemma_multiple_step(r, k);
                assert((r + k) % k == 0);
                let c = (r + k) as nat;
                assert(prev[c as int] == concat(blocks.subrange(c as int, upto(c + k, n) as int)));
                assert(blocks.subrange(r as int, upto(r + pow2(d), n) as int) =~= blocks.subrange(
                    r as int,
                    c as int,
                ) + blocks.subrange(c as int, upto(c + k, n) as int));
                lemma_concat_append(
                    blocks.subrange(r as int, c as int),
                    blocks.subrange(c as int, upto(c + k, n) as int),
                );
            }
        }
    }
}

/// Gather collects every rank's block at rank 0, in rank order.
pub proof fn lemma_gather_at_root(blocks: Seq<Seq<u64>>, depth: nat)
    requires
        1 <= blocks.len() <= usize::MAX,
        is_depth(blocks.len(), depth),
    ensures
        gather_after(blocks, depth).len() == blocks.len(),
        gather_after(blocks, depth)[0] == concat(blocks),
{
    lemma_gather_collects(blocks, depth);
    lemma_pow2_grows(depth);
    assert((0nat) % pow2(depth) == 0);
    assert(blocks.subrange(0, upto(0 + pow2(depth), blocks.len()) as int) =~= blocks);
}

/// The partial results held after `d` rounds of reduce with `op`, where rank
/// `r` started with `vals[r]`.
pub open spec fn reduce_after(op: ReduceOp, vals: Seq<u64>, d: nat) -> Seq<u64>
    decreases d,
{
    if d == 0 {
        vals
    } else {
        let prev = reduce_after(op, vals, (d - 1) as nat);
        Seq::new(
            vals.len(),
            |r: int|
                match fanin_action(vals.len(), r as nat, (d - 1) as nat) {
                    Action::Recv(c) => op.apply(prev[r], prev[c as int]),
                    _ => prev[r],
                },
        )
    }
}

/// Each rank's local fold of its own items, the start of reduce.
pub open spec fn local_folds(op: ReduceOp, init: u64, items: Seq<Seq<u64>>) -> Seq<u64> {
    Seq::new(items.len(), |r: int| fold_items(op, init, items[r]))
}

proof fn lemma_reduce_follows_gather(op: ReduceOp, init: u64, items: Seq<Seq<u64>>, d: nat)
    requires
        op.is_identity(init),
        items.len() <= usize::MAX,
    ensures
        reduce_after(op, local_folds(op, init, items), d).len() == items.len(),
        gather_after(items, d).len() == items.len(),
        forall|r: int|
            0 <= r < items.len() ==> #[trigger] reduce_after(op, local_folds(op, init, items), d)[r]
                == fold_items(op, init, gather_after(items, d)[r]),
    decreases d,
{
    lemma_gather_collects(items, d);
    if d > 0 {
        lemma_reduce_follows_gather(op, init, items, (d - 1) as nat);
        let g = gather_after(items, (d - 1) as nat);
        assert forall|r: int| 0 <= r < items.len() implies #[trigger] reduce_after(
            op,
            local_folds(op, init, items),
            d,
        )[r] == fold_items(op, init, gather_after(items, d)[r]) by {
            lemma_pow2_grows((d - 1) as nat);
            lemma_pairing_matches(items.len(), r as nat, pow2((d - 1) as nat));
            match fanin_action(items.len(), r as nat, (d - 1) as nat) {
                Action::Recv(c) => {
                    lemma_fold_concat(op, init, g[r], g[c as int]);
                },
                _ => {},
            }
        }
    }
}

/// Reduce computes, at rank 0, the fold of all ranks' items joined in rank
/// order, for a start value that is an identity of the (associative) combiner.
pub proof fn lemma_reduce_correct(op: ReduceOp, init: u64, items: Seq<Seq<u64>>, depth: nat)
    requires
        1 <= items.len() <= usize::MAX,
        is_depth(items.len(), depth),
        op.is_identity(init),
    ensures
        reduce_after(op, local_folds(op, init, items), depth)[0] == fold_items(
            op,
            init,
            concat(items),
        ),
{
    lemma_reduce_follows_gather(op, init, items, depth);
    lemma_gather_at_root(items, depth);
}


/// The first `m` items of `s`, or all of `s` where it is shorter.
pub open spec fn front(s: Seq<u64>, m: nat) -> Seq<u64> {
    if m <= s.len() {
        s.take(m as int)
    } else {
        s
    }
}

/// What follows the first `m` items of `s`, or nothing where `s` is shorter.
pub open spec fn back(s: Seq<u64>, m: nat) -> Seq<u64> {
    if m <= s.len() {
        s.skip(m as int)
    } else {
        Seq::empty()
    }
}

/// Blocks `a` up to `b` of `x`, for blocks of `bs` items.
pub open spec fn blocks_of(x: Seq<u64>, bs: nat, a: nat, b: nat) -> Seq<u64> {
    x.subrange((a * bs) as int, (b * bs) as int)
}

/// The buffers held after `d` rounds of scatter of `x` over `n` ranks in blocks
/// of `bs` items: rank 0 starts with all of `x`, the others with nothing. A
/// sender keeps the first `k` blocks of its buffer and sends the rest to the
/// rank `k` above it, which keeps them.
pub open spec fn scatter_after(x: Seq<u64>, n: nat, bs: nat, depth: nat, d: nat) -> Seq<Seq<u64>>
    decreases d,
{
    if d == 0 {
        Seq::new(
            n,
            |r: int|
                if r == 0 {
                    x
                } else {
                    Seq::empty()
                },
        )
    } else {
        let prev = scatter_after(x, n, bs, depth, (d - 1) as nat);
        let k = pow2((depth - d) as nat);
        Seq::new(
            n,
            |r: int|
                match fanout_action(n, r as nat, depth, (d - 1) as nat) {
                    Action::Send(_) => front(prev[r], k * bs),
                    Action::Recv(p) => back(prev[p as int], k * bs),
                    Action::Idle => prev[r],
                },
        )
    }
}

proof fn lemma_mul_le(a: nat, b: nat, c: nat)
    requires
        a <= b,
    ensures
        a * c <= b * c,
        b * c - a * c == (b - a) * c,
{
    assert(a * c <= b * c) by (nonlinear_arith)
        requires
            a <= b,
    ;
    assert(b * c - a * c == (b - a) * c) by (nonlinear_arith);
}

/// After `d` rounds of scatter every multiple `r` of `2^(depth - d)` holds the
/// blocks of the ranks from `r` up to `r + 2^(depth - d)`.
proof fn lemma_scatter_splits(x: Seq<u64>, n: nat, bs: nat, depth: nat, d: nat)
    requires
        1 <= n <= usize::MAX,
        is_depth(n, depth),
        x.len() == n * bs,
        d <= depth,
    ensures
        scatter_after(x, n, bs, depth, d).len() == n,
        forall|r: nat|
            r < n && #[trigger] (r % pow2((depth - d) as nat)) == 0 ==> scatter_after(
                x,
                n,
                bs,
                depth,
                d,
            )[r as int] == blocks_of(x, bs, r, upto(r + pow2((depth - d) as nat), n)),
    decreases d,
{
    if d == 0 {
        assert forall|r: nat|
            r < n && #[trigger] (r % pow2((depth - d) as nat)) == 0 implies scatter_after(
            x,
            n,
            bs,
            depth,
            d,
        )[r as int] == blocks_of(x, bs, r, upto(r + pow2((depth - d) as nat), n)) by {
            lemma_first_round_root_only(r, n, depth);
            assert(blocks_of(x, bs, 0, n) =~= x);
        }
    } else {
        lemma_scatter_splits(x, n, bs, depth, (d - 1) as nat);
        let prev = scatter_after(x, n, bs, depth, (d - 1) as nat);
        let k = pow2((depth - d) as nat);
        lemma_pow2_grows((depth - d) as nat);
        assert(pow2((depth - (d - 1)) as nat) == 2 * k);
        assert((depth - 1 - (d - 1)) as nat == (depth - d) as nat);
        assert forall|r: nat|
            r < n && #[trigger] (r % k) == 0 implies scatter_after(x, n, bs, depth, d)[r as int]
            == blocks_of(x, bs, r, upto(r + k, n)) by {
            lemma_multiple_step(r, k);
            if (r / k) % 2 == 0 {
                assert(r % (2 * k) == 0);
                assert(prev[r as int] == blocks_of(x, bs, r, upto(r + 2 * k, n)));
                lemma_mul_le(r, upto(r + 2 * k, n), bs);
                lemma_mul_le(upto(r + 2 * k, n), n, bs);
                if r + k < n {
                    lemma_mul_le(r, r + k, bs);
                    lemma_mul_le(r + k, upto(r + 2 * k, n), bs);
                    assert((r + k) * bs - r * bs == k * bs);
                    assert(front(prev[r as int], k * bs) =~= blocks_of(x, bs, r, (r + k)));
                }
            } else {
                let p = (r - k) as nat;
                lemma_multiple_step(p, k);
                assert(p % (2 * k) == 0);
                assert(p + 2 * k == r + k);
                assert(prev[p as int] == blocks_of(x, bs, p, upto(r + k, n)));
                lemma_mul_le(p, r, bs);
                lemma_mul_le(r, upto(r + k, n), bs);
                lemma_mul_le(upto(r + k, n), n, bs);
                assert(r * bs - p * bs == k * bs);
                assert(back(prev[p as int], k * bs) =~= blocks_of(x, bs, r, upto(r + k, n)));
            }
        }
    }
}

/// No buffer of scatter is longer than the root's input.
pub proof fn lemma_scatter_bounded(x: Seq<u64>, n: nat, bs: nat, depth: nat, d: nat)
    requires
        n <= usize::MAX,
    ensures
        scatter_after(x, n, bs, depth, d).len() == n,
        forall|r: int|
            0 <= r < n ==> (#[trigger] scatter_after(x, n, bs, depth, d)[r]).len() <= x.len(),
    decreases d,
{
    if d > 0 {
        lemma_scatter_bounded(x, n, bs, depth, (d - 1) as nat);
        let prev = scatter_after(x, n, bs, depth, (d - 1) as nat);
        assert forall|r: int| 0 <= r < n implies (#[trigger] scatter_after(
            x,
            n,
            bs,
            depth,
            d,
        )[r]).len() <= x.len() by {
            lemma_pow2_grows((depth - 1 - (d - 1)) as nat);
            lemma_pairing_matches(n, r as nat, pow2((depth - 1 - (d - 1)) as nat));
        }
    }
}

/// Scatter leaves rank `r` with block `r` of the root's input.
pub proof fn lemma_scatter_blocks(x: Seq<u64>, n: nat, bs: nat, depth: nat)
    requires
        1 <= n <= usize::MAX,
        is_depth(n, depth),
        x.len() == n * bs,
    ensures
        scatter_after(x, n, bs, depth, depth).len() == n,
        forall|r: nat|
            r < n ==> #[trigger] scatter_after(x, n, bs, depth, depth)[r as int] == blocks_of(x, bs, r, (r + 1)),
{
    lemma_scatter_splits(x, n, bs, depth, depth);
    assert forall|r: nat| r < n implies #[trigger] scatter_after(x, n, bs, depth, depth)[r as int]
        == blocks_of(x, bs, r, (r + 1)) by {
        assert(pow2((depth - depth) as nat) == 1);
        assert(r % pow2((depth - depth) as nat) == 0);
    }
}

proof fn lemma_concat_blocks(x: Seq<u64>, bs: nat, m: nat)
    requires
        x.len() >= m * bs,
    ensures
        concat(Seq::new(m, |r: int| x.subrange(r * bs, (r + 1) * bs))) == x.subrange(0, (m * bs) as int),
    decreases m,
{
    let s = Seq::new(m, |r: int| x.subrange(r * bs, (r + 1) * bs));
    if m == 0 {
        assert(m * bs == 0) by (nonlinear_arith)
            requires
                m == 0,
        ;
        assert(x.subrange(0, 0) =~= Seq::<u64>::empty());
    } else {
        let m1 = (m - 1) as nat;
        lemma_mul_le(m1, m, bs);
        assert((m1 + 1) * bs == m * bs) by (nonlinear_arith)
            requires
                m1 + 1 == m,
        ;
        assert(s.last() =~= blocks_of(x, bs, m1, m));
        assert(s.drop_last() =~= Seq::new(m1, |r: int| x.subrange(r * bs, (r + 1) * bs)));
        lemma_concat_blocks(x, bs, m1);
        assert(x.subrange(0, (m1 * bs) as int) + blocks_of(x, bs, m1, m) =~= x.subrange(
            0,
            (m * bs) as int,
        ));
    }
}

/// Scattering `x` from rank 0 and gathering the blocks back at rank 0 gives `x` again.
pub proof fn lemma_scatter_gather_round_trip(x: Seq<u64>, n: nat, bs: nat, depth: nat)
    requires
        1 <= n <= usize::MAX,
        is_depth(n, depth),
        x.len() == n * bs,
    ensures
        gather_after(scatter_after(x, n, bs, depth, depth), depth)[0] == x,
{
    let blocks = scatter_after(x, n, bs, depth, depth);
    lemma_scatter_blocks(x, n, bs, depth);
    lemma_gather_at_root(blocks, depth);
    assert(blocks =~= Seq::new(n, |r: int| x.subrange(r * bs, (r + 1) * bs)));
    lemma_concat_blocks(x, bs, n);
    assert(x.subrange(0, (n * bs) as int) =~= x);
}


/// The ranks whose entry into a barrier each rank has heard of, directly or
/// through others, after `d` rounds of its broadcast: a receiver learns all
/// that its sender knew. Each rank starts knowing of itself.
pub open spec fn heard_in_broadcast(n: nat, depth: nat, d: nat) -> Seq<Set<nat>>
    decreases d,
{
    if d == 0 {
        Seq::new(n, |r: int| set![r as nat])
    } else {
        let prev = heard_in_broadcast(n, depth, (d - 1) as nat);
        Seq::new(
            n,
            |r: int|
                match fanout_action(n, r as nat, depth, (d - 1) as nat) {
                    Action::Recv(p) => prev[r].union(prev[p as int]),
                    _ => prev[r],
                },
        )
    }
}

/// The same after `d` further rounds of the barrier's reduce, from `start`.
pub open spec fn heard_in_reduce(start: Seq<Set<nat>>, d: nat) -> Seq<Set<nat>>
    decreases d,
{
    if d == 0 {
        start
    } else {
        let prev = heard_in_reduce(start, (d - 1) as nat);
        Seq::new(
            start.len(),
            |r: int|
                match fanin_action(start.len(), r as nat, (d - 1) as nat) {
                    Action::Recv(c) => prev[r].union(prev[c as int]),
                    _ => prev[r],
                },
        )
    }
}

/// What each rank has heard of when it leaves the barrier.
pub open spec fn heard_in_barrier(n: nat, depth: nat) -> Seq<Set<nat>> {
    heard_in_reduce(heard_in_broadcast(n, depth, depth), depth)
}

proof fn lemma_heard_self(n: nat, depth: nat, d: nat)
    ensures
        heard_in_broadcast(n, depth, d).len() == n,
        forall|r: int| 0 <= r < n ==> (#[trigger] heard_in_broadcast(n, depth, d)[r]).contains(r as nat),
    decreases d,
{
    if d > 0 {
        lemma_heard_self(n, depth, (d - 1) as nat);
    }
}

proof fn lemma_heard_gathers(start: Seq<Set<nat>>, d: nat)
    requires
        start.len() <= usize::MAX,
        forall|q: int| 0 <= q < start.len() ==> (#[trigger] start[q]).contains(q as nat),
    ensures
        heard_in_reduce(start, d).len() == start.len(),
        forall|r: nat, q: nat|
            r < start.len() && #[trigger] (r % pow2(d)) == 0 && r <= q < upto(
                r + pow2(d),
                start.len(),
            ) ==> #[trigger] heard_in_reduce(start, d)[r as int].contains(q),
    decreases d,
{
    let n = start.len();
    if d == 0 {
        assert forall|r: nat, q: nat|
            r < n && #[trigger] (r % pow2(d)) == 0 && r <= q < upto(
                r + pow2(d),
                n,
            ) implies #[trigger] heard_in_reduce(start, d)[r as int].contains(q) by {
            assert(pow2(0) == 1);
            assert(q == r);
            assert(heard_in_reduce(start, d) == start);
            assert(start[r as int].contains(r));
        }
    } else {
        lemma_heard_gathers(start, (d - 1) as nat);
        let prev = heard_in_reduce(start, (d - 1) as nat);
        let k = pow2((d - 1) as nat);
        lemma_pow2_grows((d - 1) as nat);
        assert forall|r: nat, q: nat|
            r < n && #[trigger] (r % pow2(d)) == 0 && r <= q < upto(
                r + pow2(d),
                n,
            ) implies #[trigger] heard_in_reduce(start, d)[r as int].contains(q) by {
            lemma_double_multiple(r, k);
            lemma_multiple_step(r, k);
            if q < r + k {
                assert(prev[r as int].contains(q));
            } else {
                let c = (r + k) as nat;
                assert(c % k == 0);
                assert(prev[c as int].contains(q));
            }
        }
    }
}

/// Rank 0 leaves the barrier only after every rank has entered it: by then it
/// has heard of the entry of every rank.
pub proof fn lemma_barrier_root_waits_for_all(n: nat, depth: nat)
    requires
        1 <= n <= usize::MAX,
        is_depth(n, depth),
    ensures
        forall|q: nat| q < n ==> #[trigger] heard_in_barrier(n, depth)[0].contains(q),
{
    let start = heard_in_broadcast(n, depth, depth);
    lemma_heard_self(n, depth, depth);
    lemma_heard_gathers(start, depth);
    lemma_pow2_grows(depth);
    assert forall|q: nat| q < n implies #[trigger] heard_in_barrier(n, depth)[0].contains(q) by {
        assert((0nat) % pow2(depth) == 0);
    }
}

/// In a group of one or two ranks no rank leaves the barrier before every rank
/// has entered it.
pub proof fn lemma_barrier_small_group(n: nat, depth: nat)
    requires
        1 <= n <= 2,
        is_depth(n, depth),
    ensures
        forall|r: int, q: nat|
            0 <= r < n && q < n ==> #[trigger] heard_in_barrier(n, depth)[r].contains(q),
{
    lemma_barrier_root_waits_for_all(n, depth);
    lemma_heard_self(n, depth, depth);
    if n == 2 {
        if depth != 1 {
            if depth >= 2 {
                lemma_pow2_mono(1, (depth - 1) as nat);
            }
        }
        assert(depth == 1);
        assert(pow2(0) == 1);
        assert(fanout_action(2, 1, 1, 0) == Action::Recv(0));
        assert(fanin_action(2, 1, 0) == Action::Send(0));
        let prev = heard_in_broadcast(2, 1, 0);
        let b = heard_in_broadcast(2, 1, 1);
        assert(prev[0] == set![0nat]);
        assert(b[1] == prev[1].union(prev[0]));
        assert(b[1].contains(0));
        assert(b.len() == 2);
        assert(heard_in_reduce(b, 0) == b);
        assert(heard_in_barrier(2, 1)[1] == b[1]);
    }
}

} // verus!
