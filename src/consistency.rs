//! The per-rank collectives agree with the group model: a rank that receives,
//! in each of its receive rounds, the value its partner holds in the group
//! model ends with the value the group model gives it. With the laws of
//! `group`, broadcast at any rank and reduce at rank 0 end as those laws say.
use vstd::prelude::*;
use crate::codec::{buffer_bytes, lemma_buffer_round_trip, lemma_value_round_trip, le_bytes};
use crate::collectives::{
    broadcast_transcript, buffer_append, buffer_kept, buffer_out, buffer_replace, fanin_rounds,
    fanout_rounds, gather_transcript, reduce_transcript, run_rounds, scatter_kept, scatter_out,
    scatter_transcript, value_combine, value_kept, value_out, value_replace,
};
use crate::combine::{ReduceOp, fold_items};
use crate::group::{
    back, blocks_of, broadcast_after, concat, front, gather_after, lemma_broadcast_fidelity,
    lemma_gather_collects, lemma_gather_at_root, lemma_reduce_correct, lemma_scatter_blocks,
    lemma_scatter_bounded, lemma_scatter_gather_round_trip, local_folds, reduce_after,
    scatter_after, upto,
};
use crate::topology::{
    Action, is_depth, lemma_pairing_matches, lemma_pow2_grows, lemma_tree_depth, pow2, tree_depth,
};

verus! {

/// The payloads rank `r` receives in the first `d` rounds when each partner
/// sends what it holds in `model` at that round.
pub open spec fn model_inbox(
    step: spec_fn(nat) -> Action,
    model: spec_fn(nat) -> Seq<u64>,
    d: nat,
) -> Seq<Seq<u8>>
    decreases d,
{
    if d == 0 {
        Seq::empty()
    } else {
        let prev = model_inbox(step, model, (d - 1) as nat);
        match step((d - 1) as nat) {
            Action::Recv(p) => prev.push(le_bytes(model((d - 1) as nat)[p as int])),
            _ => prev,
        }
    }
}

proof fn lemma_follows_model(
    step: spec_fn(nat) -> Action,
    absorb: spec_fn(u64, Seq<u8>) -> Option<u64>,
    g: spec_fn(u64, u64) -> u64,
    model: spec_fn(nat) -> Seq<u64>,
    r: int,
    d: nat,
)
    requires
        forall|v: u64, w: u64| #[trigger] absorb(v, le_bytes(w)) == Some(g(v, w)),
        forall|e: nat|
            e < d ==> #[trigger] model(e + 1)[r] == match step(e) {
                Action::Recv(p) => g(model(e)[r], model(e)[p as int]),
                _ => model(e)[r],
            },
    ensures
        ({
            let inbox = model_inbox(step, model, d);
            let t = run_rounds(step, value_out(), value_kept(), absorb, model(0)[r], inbox, d);
            &&& !t.failed
            &&& t.state == model(d)[r]
            &&& t.heard.len() == inbox.len()
        }),
    decreases d,
{
    if d > 0 {
        let e = (d - 1) as nat;
        lemma_follows_model(step, absorb, g, model, r, e);
        let a = model_inbox(step, model, e);
        let b = model_inbox(step, model, d);
        crate::collectives::lemma_run_prefix(
            step,
            value_out(),
            value_kept(),
            absorb,
            model(0)[r],
            a,
            b,
            e,
        );
        assert(model(e + 1)[r] == match step(e) {
            Action::Recv(p) => g(model(e)[r], model(e)[p as int]),
            _ => model(e)[r],
        });
        if let Action::Recv(p) = step(e) {
            assert(b[a.len() as int] == le_bytes(model(e)[p as int]));
            assert(absorb(model(e)[r], le_bytes(model(e)[p as int])) == Some(
                g(model(e)[r], model(e)[p as int]),
            ));
        }
    }
}

/// Broadcast at each rank agrees with the group: a rank `r` that receives what
/// its partners hold in the group's broadcast ends with rank 0's value.
pub proof fn lemma_broadcast_rank_agrees(x: Seq<u64>, r: nat)
    requires
        1 <= x.len() <= usize::MAX,
        r < x.len(),
    ensures
        ({
            let n = x.len();
            let inbox = model_inbox(
                fanout_rounds(n, r),
                |d: nat| broadcast_after(x, tree_depth(n), d),
                tree_depth(n),
            );
            let t = broadcast_transcript(n, r, x[r as int], inbox);
            &&& !t.failed
            &&& t.state == x[0]
        }),
{
    let n = x.len();
    let depth = tree_depth(n);
    lemma_pow2_grows(n);
    lemma_depth_exists(n, n);
    lemma_tree_depth(n, depth);
    let model = |d: nat| broadcast_after(x, depth, d);
    let g = |v: u64, w: u64| w;
    assert forall|v: u64, w: u64| #[trigger] value_replace()(v, le_bytes(w)) == Some(g(v, w)) by {
        lemma_value_round_trip(w);
    }
    assert forall|e: nat| e < depth implies #[trigger] model(e + 1)[r as int] == match fanout_rounds(
        n,
        r,
    )(e) {
        Action::Recv(p) => g(model(e)[r as int], model(e)[p as int]),
        _ => model(e)[r as int],
    } by {
        assert(model(0) == x);
    }
    lemma_follows_model(fanout_rounds(n, r), value_replace(), g, model, r as int, depth);
    assert(model(0) == x);
    lemma_broadcast_fidelity(x, depth);
}

/// Reduce at rank 0 agrees with the group: when rank 0 receives what its
/// children hold in the group's reduce, it returns the fold of all ranks'
/// items joined in rank order, for a start value that is an identity.
pub proof fn lemma_reduce_root_agrees(op: ReduceOp, init: u64, items: Seq<Seq<u64>>)
    requires
        1 <= items.len() <= usize::MAX,
        op.is_identity(init),
    ensures
        ({
            let n = items.len();
            let inbox = model_inbox(
                fanin_rounds(n, 0),
                |d: nat| reduce_after(op, local_folds(op, init, items), d),
                tree_depth(n),
            );
            let t = reduce_transcript(n, 0, op, fold_items(op, init, items[0]), inbox);
            &&& !t.failed
            &&& t.state == fold_items(op, init, concat(items))
        }),
{
    let n = items.len();
    let depth = tree_depth(n);
    lemma_pow2_grows(n);
    lemma_depth_exists(n, n);
    lemma_tree_depth(n, depth);
    let vals = local_folds(op, init, items);
    let model = |d: nat| reduce_after(op, vals, d);
    let g = |v: u64, w: u64| op.apply(v, w);
    assert forall|v: u64, w: u64| #[trigger] value_combine(op)(v, le_bytes(w)) == Some(g(v, w)) by {
        lemma_value_round_trip(w);
    }
    assert forall|e: nat| e < depth implies #[trigger] model(e + 1)[0] == match fanin_rounds(n, 0)(
        e,
    ) {
        Action::Recv(p) => g(model(e)[0], model(e)[p as int]),
        _ => model(e)[0],
    } by {}
    lemma_follows_model(fanin_rounds(n, 0), value_combine(op), g, model, 0, depth);
    assert(model(0) == vals);
    lemma_reduce_correct(op, init, items, depth);
}

/// Some number of rounds at most `e` fits `n` ranks, where `2^e` does.
proof fn lemma_depth_exists(n: nat, e: nat)
    requires
        n >= 1,
        n <= pow2(e),
    ensures
        is_depth(n, tree_depth(n)),
    decreases e,
{
    if e == 0 || pow2((e - 1) as nat) < n {
        assert(is_depth(n, e));
    } else {
        lemma_depth_exists(n, (e - 1) as nat);
    }
}


/// The payloads rank `r` receives in the first `d` rounds when each partner
/// sends the items `outp` gives of what it holds in `model` at that round.
pub open spec fn model_buffer_inbox(
    step: spec_fn(nat) -> Action,
    model: spec_fn(nat) -> Seq<Seq<u64>>,
    outp: spec_fn(nat, Seq<u64>) -> Seq<u64>,
    d: nat,
) -> Seq<Seq<u8>>
    decreases d,
{
    if d == 0 {
        Seq::empty()
    } else {
        let prev = model_buffer_inbox(step, model, outp, (d - 1) as nat);
        match step((d - 1) as nat) {
            Action::Recv(p) => prev.push(
                buffer_bytes(outp((d - 1) as nat, model((d - 1) as nat)[p as int])),
            ),
            _ => prev,
        }
    }
}

proof fn lemma_follows_buffer_model(
    step: spec_fn(nat) -> Action,
    out: spec_fn(nat, Seq<u64>) -> Seq<u8>,
    outp: spec_fn(nat, Seq<u64>) -> Seq<u64>,
    kept: spec_fn(nat, Seq<u64>) -> Seq<u64>,
    absorb: spec_fn(Seq<u64>, Seq<u8>) -> Option<Seq<u64>>,
    g: spec_fn(Seq<u64>, Seq<u64>) -> Seq<u64>,
    model: spec_fn(nat) -> Seq<Seq<u64>>,
    r: int,
    d: nat,
)
    requires
        forall|v: Seq<u64>, w: Seq<u64>|
            w.len() <= u64::MAX ==> #[trigger] absorb(v, buffer_bytes(w)) == Some(g(v, w)),
        forall|e: nat|
            e < d ==> #[trigger] model(e + 1)[r] == match step(e) {
                Action::Send(_) => kept(e, model(e)[r]),
                Action::Recv(p) => g(model(e)[r], outp(e, model(e)[p as int])),
                Action::Idle => model(e)[r],
            },
        forall|e: nat|
            e < d ==> (#[trigger] step(e) matches Action::Recv(p) ==> outp(
                e,
                model(e)[p as int],
            ).len() <= u64::MAX),
    ensures
        ({
            let inbox = model_buffer_inbox(step, model, outp, d);
            let t = run_rounds(step, out, kept, absorb, model(0)[r], inbox, d);
            &&& !t.failed
            &&& t.state == model(d)[r]
            &&& t.heard.len() == inbox.len()
        }),
    decreases d,
{
    if d > 0 {
        let e = (d - 1) as nat;
        lemma_follows_buffer_model(step, out, outp, kept, absorb, g, model, r, e);
        let a = model_buffer_inbox(step, model, outp, e);
        let b = model_buffer_inbox(step, model, outp, d);
        crate::collectives::lemma_run_prefix(step, out, kept, absorb, model(0)[r], a, b, e);
        assert(model(e + 1)[r] == match step(e) {
            Action::Send(_) => kept(e, model(e)[r]),
            Action::Recv(p) => g(model(e)[r], outp(e, model(e)[p as int])),
            Action::Idle => model(e)[r],
        });
        if let Action::Recv(p) = step(e) {
            let w = outp(e, model(e)[p as int]);
            assert(w.len() <= u64::MAX);
            assert(b[a.len() as int] == buffer_bytes(w));
            assert(absorb(model(e)[r], buffer_bytes(w)) == Some(g(model(e)[r], w)));
        }
    }
}

/// The items a scatter round at `d` hands on from the buffer `s`.
pub open spec fn scatter_items(n: nat, bs: nat) -> spec_fn(nat, Seq<u64>) -> Seq<u64> {
    |d: nat, s: Seq<u64>| back(s, pow2((tree_depth(n) - 1 - d) as nat) * bs)
}

/// What rank `r` holds when scatter starts: all of `x` at rank 0, else nothing.
pub open spec fn scatter_start(x: Seq<u64>, r: nat) -> Seq<u64> {
    if r == 0 {
        x
    } else {
        Seq::empty()
    }
}

/// The block rank `r` ends scatter with, when it receives what its partners
/// hold in the group's scatter of `x` over `n` ranks.
pub open spec fn scatter_block_at(x: Seq<u64>, n: nat, bs: nat, r: nat) -> Seq<u64> {
    let inbox = model_buffer_inbox(
        fanout_rounds(n, r),
        |d: nat| scatter_after(x, n, bs, tree_depth(n), d),
        scatter_items(n, bs),
        tree_depth(n),
    );
    front(scatter_transcript(n, r, bs, scatter_start(x, r), inbox).state, bs)
}

proof fn lemma_scatter_rank_agrees(x: Seq<u64>, n: nat, bs: nat, r: nat)
    requires
        1 <= n <= usize::MAX,
        x.len() == n * bs,
        x.len() <= usize::MAX,
        r < n,
    ensures
        scatter_block_at(x, n, bs, r) == blocks_of(x, bs, r, r + 1),
{
    let depth = tree_depth(n);
    lemma_pow2_grows(n);
    lemma_depth_exists(n, n);
    lemma_tree_depth(n, depth);
    let model = |d: nat| scatter_after(x, n, bs, depth, d);
    let g = |v: Seq<u64>, w: Seq<u64>| w;
    let step = fanout_rounds(n, r);
    let outp = scatter_items(n, bs);
    assert forall|v: Seq<u64>, w: Seq<u64>| w.len() <= u64::MAX implies #[trigger] buffer_replace()(
        v,
        buffer_bytes(w),
    ) == Some(g(v, w)) by {
        lemma_buffer_round_trip(w);
    }
    assert forall|e: nat| e < depth implies #[trigger] model(e + 1)[r as int] == match step(e) {
        Action::Send(_) => scatter_kept(n, bs)(e, model(e)[r as int]),
        Action::Recv(p) => g(model(e)[r as int], outp(e, model(e)[p as int])),
        Action::Idle => model(e)[r as int],
    } by {
        assert((depth - (e + 1)) as nat == (depth - 1 - e) as nat);
    }
    assert forall|e: nat| e < depth implies (#[trigger] step(e) matches Action::Recv(p) ==> outp(
        e,
        model(e)[p as int],
    ).len() <= u64::MAX) by {
        lemma_scatter_bounded(x, n, bs, depth, e);
        lemma_pow2_grows((depth - 1 - e) as nat);
        lemma_pairing_matches(n, r, pow2((depth - 1 - e) as nat));
    }
    lemma_follows_buffer_model(
        step,
        scatter_out(n, bs),
        outp,
        scatter_kept(n, bs),
        buffer_replace(),
        g,
        model,
        r as int,
        depth,
    );
    assert(model(0)[r as int] == scatter_start(x, r));
    lemma_scatter_blocks(x, n, bs, depth);
    let blk = blocks_of(x, bs, r, r + 1);
    lemma_block_len(x, n, bs, r);
    assert(front(blk, bs) =~= blk);
}

proof fn lemma_block_len(x: Seq<u64>, n: nat, bs: nat, r: nat)
    requires
        x.len() == n * bs,
        r < n,
    ensures
        blocks_of(x, bs, r, r + 1).len() == bs,
        (r + 1) * bs <= n * bs,
{
    assert((r + 1) * bs <= n * bs) by (nonlinear_arith)
        requires
            r + 1 <= n,
    ;
    assert((r + 1) * bs == r * bs + bs) by (nonlinear_arith);
}

proof fn lemma_concat_uniform(s: Seq<Seq<u64>>, bs: nat)
    requires
        forall|i: int| 0 <= i < s.len() ==> (#[trigger] s[i]).len() == bs,
    ensures
        concat(s).len() == s.len() * bs,
    decreases s.len(),
{
    if s.len() > 0 {
        lemma_concat_uniform(s.drop_last(), bs);
        assert((s.len() - 1) * bs + bs == s.len() * bs) by (nonlinear_arith);
    }
}

/// Scatter then gather, rank by rank: when each rank's scatter receives what
/// its partners hold in the group's scatter of `x`, and rank 0's gather of the
/// resulting blocks receives what its children hold in the group's gather,
/// rank 0 ends gather holding `x`.
pub proof fn lemma_scatter_gather_ranks_agree(x: Seq<u64>, n: nat, bs: nat)
    requires
        1 <= n <= usize::MAX,
        x.len() == n * bs,
        x.len() <= usize::MAX,
    ensures
        ({
            let blocks = Seq::new(n, |r: int| scatter_block_at(x, n, bs, r as nat));
            let inbox = model_buffer_inbox(
                fanin_rounds(n, 0),
                |d: nat| gather_after(blocks, d),
                |d: nat, s: Seq<u64>| s,
                tree_depth(n),
            );
            let t = gather_transcript(n, 0, blocks[0], inbox);
            &&& !t.failed
            &&& t.state == x
        }),
{
    let depth = tree_depth(n);
    lemma_pow2_grows(n);
    lemma_depth_exists(n, n);
    lemma_tree_depth(n, depth);
    let blocks = Seq::new(n, |r: int| scatter_block_at(x, n, bs, r as nat));
    assert forall|r: int| 0 <= r < n implies #[trigger] blocks[r] == scatter_after(
        x,
        n,
        bs,
        depth,
        depth,
    )[r] by {
        lemma_scatter_rank_agrees(x, n, bs, r as nat);
        lemma_scatter_blocks(x, n, bs, depth);
    }
    lemma_scatter_blocks(x, n, bs, depth);
    assert(blocks =~= scatter_after(x, n, bs, depth, depth));
    assert forall|r: int| 0 <= r < n implies (#[trigger] blocks[r]).len() == bs by {
        lemma_scatter_rank_agrees(x, n, bs, r as nat);
        lemma_block_len(x, n, bs, r as nat);
    }
    let model = |d: nat| gather_after(blocks, d);
    let g = |v: Seq<u64>, w: Seq<u64>| v + w;
    let step = fanin_rounds(n, 0);
    let outp = |d: nat, s: Seq<u64>| s;
    assert forall|v: Seq<u64>, w: Seq<u64>| w.len() <= u64::MAX implies #[trigger] buffer_append()(
        v,
        buffer_bytes(w),
    ) == Some(g(v, w)) by {
        lemma_buffer_round_trip(w);
    }
    assert forall|e: nat| e < depth implies #[trigger] model(e + 1)[0] == match step(e) {
        Action::Send(_) => buffer_kept()(e, model(e)[0]),
        Action::Recv(p) => g(model(e)[0], outp(e, model(e)[p as int])),
        Action::Idle => model(e)[0],
    } by {
        lemma_gather_len(blocks, e);
    }
    assert forall|e: nat| e < depth implies (#[trigger] step(e) matches Action::Recv(p) ==> outp(
        e,
        model(e)[p as int],
    ).len() <= u64::MAX) by {
        lemma_pow2_grows(e);
        lemma_pairing_matches(n, 0, pow2(e));
        if let Action::Recv(p) = step(e) {
            lemma_gather_block_bound(blocks, x, n, bs, e, p as nat);
        }
    }
    lemma_follows_buffer_model(
        step,
        buffer_out(),
        outp,
        buffer_kept(),
        buffer_append(),
        g,
        model,
        0,
        depth,
    );
    lemma_gather_at_root(blocks, depth);
    lemma_scatter_gather_round_trip(x, n, bs, depth);
}

proof fn lemma_gather_len(blocks: Seq<Seq<u64>>, d: nat)
    ensures
        gather_after(blocks, d).len() == blocks.len(),
    decreases d,
{
    if d > 0 {
        lemma_gather_len(blocks, (d - 1) as nat);
    }
}

/// What a child holds when rank 0 receives from it fits a length prefix.
proof fn lemma_gather_block_bound(
    blocks: Seq<Seq<u64>>,
    x: Seq<u64>,
    n: nat,
    bs: nat,
    e: nat,
    p: nat,
)
    requires
        blocks.len() == n,
        1 <= n <= usize::MAX,
        x.len() == n * bs,
        x.len() <= usize::MAX,
        forall|r: int| 0 <= r < n ==> (#[trigger] blocks[r]).len() == bs,
        p < n,
        p == pow2(e),
    ensures
        gather_after(blocks, e)[p as int].len() <= u64::MAX,
{
    lemma_gather_collects(blocks, e);
    lemma_pow2_grows(e);
    lemma_multiple_of_self(p);
    let hi = upto(p + pow2(e), n);
    let sub = blocks.subrange(p as int, hi as int);
    lemma_concat_uniform(sub, bs);
    assert(sub.len() * bs <= n * bs) by (nonlinear_arith)
        requires
            sub.len() <= n,
    ;
}

proof fn lemma_multiple_of_self(p: nat)
    requires
        p > 0,
    ensures
        p % p == 0,
{
}

} // verus!
