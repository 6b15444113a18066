//! A whole group run in one process, round by round: every rank's step of a
//! round is taken, then every message of the round is delivered. This is the
//! group semantics of the collectives made executable, for checking them
//! without a network.
use vstd::prelude::*;
use crate::combine::{ReduceOp, fold_items, fold_slice};
use crate::group::{
    back, broadcast_after, concat, front, gather_after, lemma_broadcast_fidelity,
    lemma_gather_at_root, lemma_reduce_correct, lemma_scatter_blocks, lemma_scatter_bounded, local_folds,
    reduce_after, scatter_after,
};
use crate::topology::{
    Action, depth, fanin_action, fanin_step, fanout_action, fanout_step, is_depth,
    lemma_pairing_matches, lemma_pow2_grows, lemma_pow2_mono, pow2, pow2_exec,
};

verus! {

/// The contents of each buffer.
pub open spec fn views(v: Seq<Vec<u64>>) -> Seq<Seq<u64>> {
    Seq::new(v.len(), |i: int| v[i]@)
}

/// A copy of `v`.
pub fn copy_items(v: &[u64]) -> (r: Vec<u64>)
    ensures
        r@ == v@,
{
    let mut r: Vec<u64> = Vec::new();
    let mut i: usize = 0;
    while i < v.len()
        invariant
            i <= v@.len(),
            r@ == v@.subrange(0, i as int),
        decreases v.len() - i,
    {
        r.push(v[i]);
        i = i + 1;
    }
    assert(r@ =~= v@);
    r
}

/// `a` followed by `b`.
pub fn joined(a: &[u64], b: &[u64]) -> (r: Vec<u64>)
    ensures
        r@ == a@ + b@,
{
    let mut r = copy_items(a);
    let mut i: usize = 0;
    while i < b.len()
        invariant
            i <= b@.len(),
            r@ == a@ + b@.subrange(0, i as int),
        decreases b.len() - i,
    {
        r.push(b[i]);
        i = i + 1;
    }
    assert(b@.subrange(0, i as int) =~= b@);
    r
}

/// The first `m` items of `v` (all of it where it is shorter), and what follows.
pub fn split_items(v: &[u64], m: usize) -> (r: (Vec<u64>, Vec<u64>))
    ensures
        r.0@ == front(v@, m as nat),
        r.1@ == back(v@, m as nat),
{
    let mut head: Vec<u64> = Vec::new();
    let mut tail: Vec<u64> = Vec::new();
    let mut i: usize = 0;
    if m <= v.len() {
        while i < m
            invariant
                i <= m <= v@.len(),
                head@ == v@.subrange(0, i as int),
            decreases m - i,
        {
            head.push(v[i]);
            i = i + 1;
        }
        while i < v.len()
            invariant
                m <= i <= v@.len(),
                tail@ == v@.subrange(m as int, i as int),
            decreases v.len() - i,
        {
            tail.push(v[i]);
            i = i + 1;
        }
        assert(head@ =~= v@.take(m as int));
        assert(tail@ =~= v@.skip(m as int));
        (head, tail)
    } else {
        (copy_items(v), tail)
    }
}

/// Broadcast over a group whose rank `r` holds `values[r]`: the values held afterwards.
pub fn run_broadcast(values: Vec<u64>) -> (out: Vec<u64>)
    requires
        values.len() >= 1,
    ensures
        out.len() == values.len(),
        forall|r: int| 0 <= r < out.len() ==> out[r] == values[0],
{
    let n = values.len();
    let dp = depth(n);
    let mut cur = values;
    let mut d: usize = 0;
    while d < dp
        invariant
            n == values.len(),
            is_depth(n as nat, dp as nat),
            d <= dp,
            cur@ == broadcast_after(values@, dp as nat, d as nat),
        decreases dp - d,
    {
        let ghost prev = cur@;
        let mut next: Vec<u64> = Vec::new();
        let mut r: usize = 0;
        while r < n
            invariant
                n == values.len() == prev.len(),
                is_depth(n as nat, dp as nat),
                d < dp,
                r <= n,
                cur@ == prev,
                next@.len() == r,
                forall|i: int|
                    0 <= i < r ==> next@[i] == match fanout_action(
                        n as nat,
                        i as nat,
                        dp as nat,
                        d as nat,
                    ) {
                        Action::Recv(p) => prev[p as int],
                        _ => prev[i],
                    },
            decreases n - r,
        {
            let a = fanout_step(n, r, dp, d);
            proof {
                lemma_pow2_grows((dp - 1 - d) as nat);
                lemma_pairing_matches(n as nat, r as nat, pow2((dp - 1 - d) as nat));
            }
            let v = match a {
                Action::Recv(p) => cur[p],
                _ => cur[r],
            };
            next.push(v);
            r = r + 1;
        }
        assert(next@ =~= broadcast_after(values@, dp as nat, (d + 1) as nat));
        cur = next;
        d = d + 1;
    }
    proof {
        lemma_broadcast_fidelity(values@, dp as nat);
    }
    cur
}


/// Reduce with `op` from `init` over a group whose rank `r` holds the items
/// `items[r]`: the result at rank 0.
pub fn run_reduce(op: ReduceOp, init: u64, items: &Vec<Vec<u64>>) -> (out: u64)
    requires
        items.len() >= 1,
        op.is_identity(init),
    ensures
        out == fold_items(op, init, concat(views(items@))),
{
    let n = items.len();
    let dp = depth(n);
    let ghost blocks = views(items@);
    let mut cur: Vec<u64> = Vec::new();
    let mut r: usize = 0;
    while r < n
        invariant
            n == items.len(),
            r <= n,
            blocks == views(items@),
            cur@ == local_folds(op, init, blocks).subrange(0, r as int),
        decreases n - r,
    {
        let v = fold_slice(op, init, items[r].as_slice());
        cur.push(v);
        r = r + 1;
    }
    assert(cur@ =~= local_folds(op, init, blocks));
    let mut d: usize = 0;
    while d < dp
        invariant
            n == items.len() == blocks.len(),
            is_depth(n as nat, dp as nat),
            d <= dp,
            cur@ == reduce_after(op, local_folds(op, init, blocks), d as nat),
        decreases dp - d,
    {
        let ghost prev = cur@;
        let mut next: Vec<u64> = Vec::new();
        let mut r: usize = 0;
        while r < n
            invariant
                n == blocks.len() == prev.len(),
                is_depth(n as nat, dp as nat),
                d < dp,
                r <= n,
                cur@ == prev,
                next@.len() == r,
                forall|i: int|
                    0 <= i < r ==> next@[i] == match fanin_action(n as nat, i as nat, d as nat) {
                        Action::Recv(c) => op.apply(prev[i], prev[c as int]),
                        _ => prev[i],
                    },
            decreases n - r,
        {
            let a = fanin_step(n, r, dp, d);
            proof {
                lemma_pow2_grows(d as nat);
                lemma_pairing_matches(n as nat, r as nat, pow2(d as nat));
            }
            let v = match a {
                Action::Recv(c) => op.combine(cur[r], cur[c]),
                _ => cur[r],
            };
            next.push(v);
            r = r + 1;
        }
        assert(next@ =~= reduce_after(op, local_folds(op, init, blocks), (d + 1) as nat));
        cur = next;
        d = d + 1;
    }
    proof {
        lemma_reduce_correct(op, init, blocks, dp as nat);
    }
    cur[0]
}

/// Gather over a group whose rank `r` holds `blocks[r]`: what rank 0 holds
/// afterwards, every block in rank order.
pub fn run_gather(blocks: &Vec<Vec<u64>>) -> (out: Vec<u64>)
    requires
        blocks.len() >= 1,
    ensures
        out@ == concat(views(blocks@)),
{
    let n = blocks.len();
    let dp = depth(n);
    let ghost bv = views(blocks@);
    let mut cur: Vec<Vec<u64>> = Vec::new();
    let mut r: usize = 0;
    while r < n
        invariant
            n == blocks.len(),
            r <= n,
            bv == views(blocks@),
            views(cur@) == bv.subrange(0, r as int),
        decreases n - r,
    {
        let v = copy_items(blocks[r].as_slice());
        let ghost before = cur@;
        cur.push(v);
        assert(cur@ == before.push(v));
        assert(views(cur@) =~= views(before).push(blocks@[r as int]@));
        assert(bv.subrange(0, r + 1 as int) =~= bv.subrange(0, r as int).push(bv[r as int]));
        r = r + 1;
        assert(views(cur@) =~= bv.subrange(0, r as int));
    }
    assert(views(cur@) =~= bv);
    let mut d: usize = 0;
    while d < dp
        invariant
            n == blocks.len() == bv.len(),
            is_depth(n as nat, dp as nat),
            d <= dp,
            views(cur@) == gather_after(bv, d as nat),
        decreases dp - d,
    {
        let ghost prev = views(cur@);
        let mut next: Vec<Vec<u64>> = Vec::new();
        let mut r: usize = 0;
        while r < n
            invariant
                n == bv.len() == prev.len() == cur@.len(),
                is_depth(n as nat, dp as nat),
                d < dp,
                r <= n,
                views(cur@) == prev,
                next@.len() == r,
                forall|i: int|
                    0 <= i < r ==> next@[i]@ == match fanin_action(n as nat, i as nat, d as nat) {
                        Action::Recv(c) => prev[i] + prev[c as int],
                        _ => prev[i],
                    },
            decreases n - r,
        {
            let a = fanin_step(n, r, dp, d);
            proof {
                lemma_pow2_grows(d as nat);
                lemma_pairing_matches(n as nat, r as nat, pow2(d as nat));
                assert(cur@[r as int]@ == prev[r as int]);
            }
            let v = match a {
                Action::Recv(c) => {
                    proof {
                        assert(cur@[c as int]@ == prev[c as int]);
                    }
                    joined(cur[r].as_slice(), cur[c].as_slice())
                },
                _ => copy_items(cur[r].as_slice()),
            };
            next.push(v);
            r = r + 1;
        }
        assert(views(next@) =~= gather_after(bv, (d + 1) as nat));
        cur = next;
        d = d + 1;
    }
    proof {
        lemma_gather_at_root(bv, dp as nat);
        assert(cur@[0]@ == views(cur@)[0]);
    }
    copy_items(cur[0].as_slice())
}

/// Scatter of `x` from rank 0 over a group of `n` ranks: the block each rank
/// holds afterwards. Block `r` of `x` goes to rank `r`.
pub fn run_scatter(x: &Vec<u64>, n: usize) -> (out: Vec<Vec<u64>>)
    requires
        n >= 1,
        x.len() % n == 0,
    ensures
        out.len() == n,
        forall|r: int|
            0 <= r < n ==> #[trigger] out[r]@ == x@.subrange(
                r * ((x.len() / n) as int),
                (r + 1) * ((x.len() / n) as int),
            ),
{
    let bs = x.len() / n;
    proof {
        vstd::arithmetic::div_mod::lemma_fundamental_div_mod(x.len() as int, n as int);
        assert(x@.len() == (n as nat) * (bs as nat)) by (nonlinear_arith)
            requires
                x@.len() == (n as int) * (x.len() as int / n as int) + 0,
                bs == x.len() as int / n as int,
        ;
    }
    let dp = depth(n);
    let mut cur: Vec<Vec<u64>> = Vec::new();
    cur.push(copy_items(x.as_slice()));
    while cur.len() < n
        invariant
            1 <= cur@.len() <= n,
            cur@[0]@ == x@,
            forall|i: int| 1 <= i < cur@.len() ==> (#[trigger] cur@[i])@ == Seq::<u64>::empty(),
        decreases n - cur.len(),
    {
        cur.push(Vec::new());
    }
    assert(views(cur@) =~= scatter_after(x@, n as nat, bs as nat, dp as nat, 0));
    let mut d: usize = 0;
    while d < dp
        invariant
            x@.len() == (n as nat) * (bs as nat),
            n >= 1,
            is_depth(n as nat, dp as nat),
            d <= dp,
            views(cur@) == scatter_after(x@, n as nat, bs as nat, dp as nat, d as nat),
        decreases dp - d,
    {
        let ghost prev = views(cur@);
        proof {
            lemma_pow2_grows((dp - 1 - d) as nat);
            lemma_pow2_mono((dp - 1 - d) as nat, (dp - 1) as nat);
        }
        let k = pow2_exec(dp - 1 - d);
        proof {
            lemma_scatter_bounded(x@, n as nat, bs as nat, dp as nat, d as nat);
            assert(x@.len() == x.len());
        }
        let m = if bs == 0 {
            0
        } else if k <= usize::MAX / bs {
            proof {
                assert(k * bs <= usize::MAX) by (nonlinear_arith)
                    requires
                        k <= usize::MAX / bs,
                        bs > 0,
                ;
            }
            k * bs
        } else {
            usize::MAX
        };
        proof {
            if bs > 0 && k > usize::MAX / bs {
                assert(k * bs > usize::MAX) by (nonlinear_arith)
                    requires
                        k > usize::MAX / bs,
                        bs > 0,
                ;
                assert(k * bs > x@.len()) by (nonlinear_arith)
                    requires
                        k * bs > usize::MAX,
                        x@.len() <= usize::MAX,
                ;
            }
            assert(bs == 0 ==> k * bs == 0);
        }
        let mut next: Vec<Vec<u64>> = Vec::new();
        let mut r: usize = 0;
        while r < n
            invariant
                n == prev.len() == cur@.len(),
                is_depth(n as nat, dp as nat),
                d < dp,
                r <= n,
                k == pow2((dp - 1 - d) as nat),
                k == pow2((dp - (d + 1)) as nat),
                k > 0,
                x@.len() <= usize::MAX,
                views(cur@) == prev,
                next@.len() == r,
                forall|i: int| 0 <= i < n ==> prev[i].len() <= x@.len(),
                m == k * bs || (m == usize::MAX && k * bs > x@.len()),
                forall|i: int|
                    0 <= i < r ==> next@[i]@ == match fanout_action(
                        n as nat,
                        i as nat,
                        dp as nat,
                        d as nat,
                    ) {
                        Action::Send(_) => front(prev[i], (k * bs) as nat),
                        Action::Recv(p) => back(prev[p as int], (k * bs) as nat),
                        Action::Idle => prev[i],
                    },
            decreases n - r,
        {
            let a = fanout_step(n, r, dp, d);
            proof {
                lemma_pairing_matches(n as nat, r as nat, k as nat);
                assert(cur@[r as int]@ == prev[r as int]);
            }
            let v = match a {
                Action::Send(_) => split_items(cur[r].as_slice(), m).0,
                Action::Recv(p) => {
                    proof {
                        assert(cur@[p as int]@ == prev[p as int]);
                    }
                    split_items(cur[p].as_slice(), m).1
                },
                Action::Idle => copy_items(cur[r].as_slice()),
            };
            next.push(v);
            r = r + 1;
        }
        assert(views(next@) =~= scatter_after(x@, n as nat, bs as nat, dp as nat, (d + 1) as nat));
        cur = next;
        d = d + 1;
    }
    proof {
        lemma_scatter_blocks(x@, n as nat, bs as nat, dp as nat);
        assert forall|r: int| 0 <= r < n implies #[trigger] cur@[r]@ == x@.subrange(
            r * ((x.len() / n) as int),
            (r + 1) * ((x.len() / n) as int),
        ) by {
            assert(cur@[r]@ == views(cur@)[r]);
        }
    }
    cur
}

} // verus!
