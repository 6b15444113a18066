//! The collectives as one rank runs them, over a point-to-point transport.
//! Each round the rank takes the action that the tree gives it for that round;
//! the schedules are those of `topology`, whose group behaviour `group` proves.
use vstd::prelude::*;
use crate::codec::{
    CommError, buffer_bytes, decode_items, decode_value, encode_items, encode_value, holds_buffer,
    items_at, le_bytes, le_value,
};
use crate::combine::{ReduceOp, fold_slice, fold_items};
use crate::group::{back, front};
use crate::local::{copy_items, joined, split_items};
use crate::topology::{
    Action, depth, fanin_action, fanin_step, fanout_action, fanout_step, is_depth,
    lemma_pairing_matches, lemma_pow2_grows, lemma_pow2_mono, lemma_tree_depth, pairing, pow2,
    pow2_exec, tree_depth,
};

verus! {

/// A point-to-point transport between the ranks of a group: payloads are
/// opaque bytes, sent to and received from a rank.
pub trait Backend {
    /// This rank.
    spec fn spec_rank(&self) -> nat;

    /// The number of ranks in the group.
    spec fn spec_n_ranks(&self) -> nat;

    fn rank(&self) -> (r: usize)
        ensures
            r == self.spec_rank(),
    ;

    fn n_ranks(&self) -> (r: usize)
        ensures
            r == self.spec_n_ranks(),
    ;

    /// The backend's own bookkeeping holds.
    spec fn inv(&self) -> bool;

    /// The messages sent so far: destination and payload.
    spec fn sent(&self) -> Seq<(nat, Seq<u8>)>;

    /// The messages received so far: expected source and payload.
    spec fn received(&self) -> Seq<(nat, Seq<u8>)>;

    /// Sends `payload` to rank `dst`.
    fn send(&mut self, dst: usize, payload: Vec<u8>)
        requires
            dst < old(self).spec_n_ranks(),
            dst != old(self).spec_rank(),
            old(self).inv(),
        ensures
            final(self).inv(),
            final(self).spec_rank() == old(self).spec_rank(),
            final(self).spec_n_ranks() == old(self).spec_n_ranks(),
            final(self).sent() == old(self).sent().push((dst as nat, payload@)),
            final(self).received() == old(self).received(),
    ;

    /// Receives the next payload, which rank `src` is expected to have sent.
    fn recv(&mut self, src: usize) -> (r: Vec<u8>)
        requires
            src < old(self).spec_n_ranks(),
            src != old(self).spec_rank(),
            old(self).inv(),
        ensures
            final(self).inv(),
            final(self).spec_rank() == old(self).spec_rank(),
            final(self).spec_n_ranks() == old(self).spec_n_ranks(),
            final(self).received() == old(self).received().push((src as nat, r@)),
            final(self).sent() == old(self).sent(),
    ;
}

/// What one rank has done after some rounds of a collective: its state, the
/// messages it sent, the ranks it received from, and whether a payload it
/// received failed to decode (after which it does nothing more).
pub struct Transcript<S> {
    pub state: S,
    pub sent: Seq<(nat, Seq<u8>)>,
    pub heard: Seq<nat>,
    pub failed: bool,
}

/// The first `d` rounds of a collective at one rank: `step` gives its action
/// in each round; a send carries `out` of the state and leaves `kept` of it; a
/// receive takes the next payload of `inbox` and `absorb`s it, or fails.
pub open spec fn run_rounds<S>(
    step: spec_fn(nat) -> Action,
    out: spec_fn(nat, S) -> Seq<u8>,
    kept: spec_fn(nat, S) -> S,
    absorb: spec_fn(S, Seq<u8>) -> Option<S>,
    init: S,
    inbox: Seq<Seq<u8>>,
    d: nat,
) -> Transcript<S>
    decreases d,
{
    if d == 0 {
        Transcript { state: init, sent: Seq::empty(), heard: Seq::empty(), failed: false }
    } else {
        let t = run_rounds(step, out, kept, absorb, init, inbox, (d - 1) as nat);
        let round = (d - 1) as nat;
        if t.failed {
            t
        } else {
            match step(round) {
                Action::Send(p) => Transcript {
                    state: kept(round, t.state),
                    sent: t.sent.push((p as nat, out(round, t.state))),
                    heard: t.heard,
                    failed: false,
                },
                Action::Recv(p) => match absorb(t.state, inbox[t.heard.len() as int]) {
                    Some(s) => Transcript {
                        state: s,
                        sent: t.sent,
                        heard: t.heard.push(p as nat),
                        failed: false,
                    },
                    None => Transcript {
                        state: t.state,
                        sent: t.sent,
                        heard: t.heard.push(p as nat),
                        failed: true,
                    },
                },
                Action::Idle => t,
            }
        }
    }
}

/// Rounds that have read only a prefix of the inbox do not see the rest.
pub proof fn lemma_run_prefix<S>(
    step: spec_fn(nat) -> Action,
    out: spec_fn(nat, S) -> Seq<u8>,
    kept: spec_fn(nat, S) -> S,
    absorb: spec_fn(S, Seq<u8>) -> Option<S>,
    init: S,
    a: Seq<Seq<u8>>,
    b: Seq<Seq<u8>>,
    d: nat,
)
    requires
        a.len() <= b.len(),
        forall|i: int| 0 <= i < a.len() ==> a[i] == b[i],
        run_rounds(step, out, kept, absorb, init, a, d).heard.len() <= a.len(),
    ensures
        run_rounds(step, out, kept, absorb, init, b, d) == run_rounds(
            step,
            out,
            kept,
            absorb,
            init,
            a,
            d,
        ),
    decreases d,
{
    if d > 0 {
        let t = run_rounds(step, out, kept, absorb, init, a, (d - 1) as nat);
        assert(t.heard.len() <= run_rounds(step, out, kept, absorb, init, a, d).heard.len());
        lemma_run_prefix(step, out, kept, absorb, init, a, b, (d - 1) as nat);
    }
}

/// After a failure nothing more happens.
proof fn lemma_rounds_stop<S>(
    step: spec_fn(nat) -> Action,
    out: spec_fn(nat, S) -> Seq<u8>,
    kept: spec_fn(nat, S) -> S,
    absorb: spec_fn(S, Seq<u8>) -> Option<S>,
    init: S,
    inbox: Seq<Seq<u8>>,
    d: nat,
    e: nat,
)
    requires
        d <= e,
        run_rounds(step, out, kept, absorb, init, inbox, d).failed,
    ensures
        run_rounds(step, out, kept, absorb, init, inbox, e) == run_rounds(
            step,
            out,
            kept,
            absorb,
            init,
            inbox,
            d,
        ),
    decreases e - d,
{
    if d < e {
        lemma_rounds_stop(step, out, kept, absorb, init, inbox, d, (e - 1) as nat);
    }
}

/// A receive in round `d` takes the payload just logged.
proof fn lemma_after_recv<S>(
    step: spec_fn(nat) -> Action,
    out: spec_fn(nat, S) -> Seq<u8>,
    kept: spec_fn(nat, S) -> S,
    absorb: spec_fn(S, Seq<u8>) -> Option<S>,
    init: S,
    recv0: Seq<(nat, Seq<u8>)>,
    before: Seq<(nat, Seq<u8>)>,
    after: Seq<(nat, Seq<u8>)>,
    p: nat,
    payload: Seq<u8>,
    d: nat,
)
    requires
        recv0.len() <= before.len(),
        before.subrange(0, recv0.len() as int) == recv0,
        after == before.push((p, payload)),
        !run_rounds(step, out, kept, absorb, init, payloads(since(recv0, before)), d).failed,
        peers(since(recv0, before)) == run_rounds(
            step,
            out,
            kept,
            absorb,
            init,
            payloads(since(recv0, before)),
            d,
        ).heard,
        step(d) matches Action::Recv(q) && q == p,
    ensures
        recv0.len() <= after.len(),
        after.subrange(0, recv0.len() as int) == recv0,
        ({
            let t = run_rounds(step, out, kept, absorb, init, payloads(since(recv0, before)), d);
            let u = run_rounds(step, out, kept, absorb, init, payloads(since(recv0, after)), d + 1);
            &&& peers(since(recv0, after)) == u.heard
            &&& u.heard == t.heard.push(p)
            &&& u.sent == t.sent
            &&& u.failed == (absorb(t.state, payload) is None)
            &&& (absorb(t.state, payload) matches Some(s) ==> u.state == s)
            &&& (absorb(t.state, payload) is None ==> u.state == t.state)
        }),
{
    let inbox = payloads(since(recv0, before));
    let inbox2 = payloads(since(recv0, after));
    assert(since(recv0, after) =~= since(recv0, before).push((p, payload)));
    assert(inbox2 =~= inbox.push(payload));
    lemma_run_prefix(step, out, kept, absorb, init, inbox, inbox2, d);
    assert(after.subrange(0, recv0.len() as int) =~= recv0);
    let t = run_rounds(step, out, kept, absorb, init, inbox, d);
    assert(peers(since(recv0, after)) =~= t.heard.push(p));
    assert(t.heard.len() == inbox.len());
    assert(inbox2[inbox.len() as int] == payload);
}

/// The payloads of messages.
pub open spec fn payloads(m: Seq<(nat, Seq<u8>)>) -> Seq<Seq<u8>> {
    Seq::new(m.len(), |i: int| m[i].1)
}

/// The ranks of messages.
pub open spec fn peers(m: Seq<(nat, Seq<u8>)>) -> Seq<nat> {
    Seq::new(m.len(), |i: int| m[i].0)
}

/// What was logged after `before`.
pub open spec fn since(before: Seq<(nat, Seq<u8>)>, after: Seq<(nat, Seq<u8>)>) -> Seq<
    (nat, Seq<u8>),
> {
    after.skip(before.len() as int)
}

/// The rounds of broadcast and scatter at `rank` of `n`.
pub open spec fn fanout_rounds(n: nat, rank: nat) -> spec_fn(nat) -> Action {
    |d: nat| fanout_action(n, rank, tree_depth(n), d)
}

/// The rounds of reduce and gather at `rank` of `n`.
pub open spec fn fanin_rounds(n: nat, rank: nat) -> spec_fn(nat) -> Action {
    |d: nat| fanin_action(n, rank, d)
}

/// A value is sent whole.
pub open spec fn value_out() -> spec_fn(nat, u64) -> Seq<u8> {
    |d: nat, v: u64| le_bytes(v)
}

/// Sending a value keeps it.
pub open spec fn value_kept() -> spec_fn(nat, u64) -> u64 {
    |d: nat, v: u64| v
}

/// A received value replaces the one held.
pub open spec fn value_replace() -> spec_fn(u64, Seq<u8>) -> Option<u64> {
    |v: u64, b: Seq<u8>|
        if b.len() >= 8 {
            Some(le_value(b))
        } else {
            None
        }
}

/// A received value is combined into the one held.
pub open spec fn value_combine(op: ReduceOp) -> spec_fn(u64, Seq<u8>) -> Option<u64> {
    |v: u64, b: Seq<u8>|
        if b.len() >= 8 {
            Some(op.apply(v, le_value(b)))
        } else {
            None
        }
}

/// A buffer is sent whole.
pub open spec fn buffer_out() -> spec_fn(nat, Seq<u64>) -> Seq<u8> {
    |d: nat, s: Seq<u64>| buffer_bytes(s)
}

/// Sending a buffer keeps it.
pub open spec fn buffer_kept() -> spec_fn(nat, Seq<u64>) -> Seq<u64> {
    |d: nat, s: Seq<u64>| s
}

/// A received buffer is appended to the one held.
pub open spec fn buffer_append() -> spec_fn(Seq<u64>, Seq<u8>) -> Option<Seq<u64>> {
    |s: Seq<u64>, b: Seq<u8>|
        if holds_buffer(b) {
            Some(s + items_at(b.skip(8), le_value(b) as nat))
        } else {
            None
        }
}

/// A received buffer replaces the one held.
pub open spec fn buffer_replace() -> spec_fn(Seq<u64>, Seq<u8>) -> Option<Seq<u64>> {
    |s: Seq<u64>, b: Seq<u8>|
        if holds_buffer(b) {
            Some(items_at(b.skip(8), le_value(b) as nat))
        } else {
            None
        }
}

/// The items a scatter round at distance `2^(depth - 1 - d)` hands on: the
/// blocks beyond the first `2^(depth - 1 - d)`.
pub open spec fn scatter_out(n: nat, bs: nat) -> spec_fn(nat, Seq<u64>) -> Seq<u8> {
    |d: nat, s: Seq<u64>| buffer_bytes(back(s, pow2((tree_depth(n) - 1 - d) as nat) * bs))
}

/// The items a scatter round keeps: the first `2^(depth - 1 - d)` blocks.
pub open spec fn scatter_kept(n: nat, bs: nat) -> spec_fn(nat, Seq<u64>) -> Seq<u64> {
    |d: nat, s: Seq<u64>| front(s, pow2((tree_depth(n) - 1 - d) as nat) * bs)
}

/// Reduce at rank `rank` of `n`, starting from its local fold `v`, given the
/// payloads it receives.
pub open spec fn reduce_transcript(n: nat, rank: nat, op: ReduceOp, v: u64, inbox: Seq<Seq<u8>>) -> Transcript<u64> {
    run_rounds(fanin_rounds(n, rank), value_out(), value_kept(), value_combine(op), v, inbox, tree_depth(n))
}

/// Scatter at rank `rank` of `n` in blocks of `bs` items, starting from
/// `held`, given the payloads it receives.
pub open spec fn scatter_transcript(n: nat, rank: nat, bs: nat, held: Seq<u64>, inbox: Seq<Seq<u8>>) -> Transcript<Seq<u64>> {
    run_rounds(fanout_rounds(n, rank), scatter_out(n, bs), scatter_kept(n, bs), buffer_replace(), held, inbox, tree_depth(n))
}

/// Gather at rank `rank` of `n`, starting from its own block, given the
/// payloads it receives.
pub open spec fn gather_transcript(n: nat, rank: nat, own: Seq<u64>, inbox: Seq<Seq<u8>>) -> Transcript<Seq<u64>> {
    run_rounds(fanin_rounds(n, rank), buffer_out(), buffer_kept(), buffer_append(), own, inbox, tree_depth(n))
}

/// Broadcast at rank `rank` of `n`, starting from `x`, given the payloads it receives.
pub open spec fn broadcast_transcript(n: nat, rank: nat, x: u64, inbox: Seq<Seq<u8>>) -> Transcript<
    u64,
> {
    run_rounds(fanout_rounds(n, rank), value_out(), value_kept(), value_replace(), x, inbox, tree_depth(n))
}

/// The group a backend belongs to is well formed: its rank is one of its ranks.
pub open spec fn backend_wf<B: Backend>(be: &B) -> bool {
    be.spec_rank() < be.spec_n_ranks() && be.inv()
}

/// The partner of a round is another rank of the group.
proof fn lemma_partner_in_group(n: nat, rank: nat, k: nat)
    requires
        k > 0,
        rank < n <= usize::MAX,
    ensures
        pairing(n, rank, k) matches Action::Send(p) ==> p < n && p != rank,
        pairing(n, rank, k) matches Action::Recv(p) ==> p < n && p != rank && rank != 0,
{
    lemma_pairing_matches(n, rank, k);
}

/// Broadcast from rank 0: every rank ends with rank 0's `data`. In each round a
/// rank that holds the value sends it to the rank at the round's distance
/// above it, and the rank that lacks it receives it. Which messages this rank
/// sends, and what it ends with, follow from the payloads it receives as
/// `broadcast_transcript` gives them; a payload that does not decode stops it
/// with `Decode`.
pub fn broadcast<B: Backend>(be: &mut B, data: &mut u64) -> (r: Result<(), CommError>)
    requires
        backend_wf(old(be)),
    ensures
        final(be).spec_rank() == old(be).spec_rank(),
        final(be).spec_n_ranks() == old(be).spec_n_ranks(),
        backend_wf(final(be)),
        old(be).received().len() <= final(be).received().len(),
        final(be).received().subrange(0, old(be).received().len() as int) == old(be).received(),
        ({
            let inbox = payloads(since(old(be).received(), final(be).received()));
            let t = broadcast_transcript(
                old(be).spec_n_ranks(),
                old(be).spec_rank(),
                *old(data),
                inbox,
            );
            &&& final(be).sent() == old(be).sent() + t.sent
            &&& peers(since(old(be).received(), final(be).received())) == t.heard
            &&& (r is Err <==> t.failed)
            &&& (r is Err ==> r->Err_0 == CommError::Decode)
            &&& *final(data) == t.state
        }),
        old(be).spec_rank() == 0 ==> r is Ok && *final(data) == *old(data),
{
    let n = be.n_ranks();
    let rank = be.rank();
    let dp = depth(n);
    proof {
        lemma_tree_depth(n as nat, dp as nat);
    }
    let ghost x0 = *data;
    let ghost sent0 = be.sent();
    let ghost recv0 = be.received();
    let ghost step = fanout_rounds(n as nat, rank as nat);
    let ghost out = value_out();
    let ghost kept = value_kept();
    let ghost absorb = value_replace();
    let mut d: usize = 0;
    while d < dp
        invariant
            be.spec_rank() == rank == old(be).spec_rank(),
            be.spec_n_ranks() == n == old(be).spec_n_ranks(),
            be.inv(),
            rank < n,
            is_depth(n as nat, dp as nat),
            dp == tree_depth(n as nat),
            d <= dp,
            x0 == *old(data),
            step == fanout_rounds(n as nat, rank as nat),
            out == value_out(),
            kept == value_kept(),
            absorb == value_replace(),
            sent0 == old(be).sent(),
            recv0 == old(be).received(),
            recv0.len() <= be.received().len(),
            be.received().subrange(0, recv0.len() as int) == recv0,
            ({
                let t = run_rounds(
                    step,
                    out,
                    kept,
                    absorb,
                    x0,
                    payloads(since(recv0, be.received())),
                    d as nat,
                );
                &&& !t.failed
                &&& be.sent() == sent0 + t.sent
                &&& peers(since(recv0, be.received())) == t.heard
                &&& *data == t.state
            }),
            rank == 0 ==> *data == x0,
        decreases dp - d,
    {
        proof {
            lemma_pow2_grows((dp - 1 - d) as nat);
            lemma_partner_in_group(n as nat, rank as nat, pow2((dp - 1 - d) as nat));
        }
        let ghost t = run_rounds(step, out, kept, absorb, x0, payloads(since(recv0, be.received())), d as nat);
        let a = fanout_step(n, rank, dp, d);
        assert(step(d as nat) == a);
        match a {
            Action::Send(p) => {
                be.send(p, encode_value(*data));
                assert(be.sent() =~= sent0 + t.sent.push((p as nat, le_bytes(*data))));
            },
            Action::Recv(p) => {
                let ghost before = be.received();
                let payload = be.recv(p);
                proof {
                    lemma_after_recv(step, out, kept, absorb, x0, recv0, before, be.received(), p as nat, payload@, d as nat);
                }
                match decode_value(payload.as_slice()) {
                    Ok(v) => {
                        *data = v;
                    },
                    Err(e) => {
                        proof {
                            lemma_rounds_stop(step, out, kept, absorb, x0, payloads(since(recv0, be.received())), (d + 1) as nat, dp as nat);
                        }
                        return Err(e);
                    },
                }
            },
            Action::Idle => {},
        }
        d = d + 1;
    }
    Ok(())
}

/// Reduce toward rank 0: each rank folds its `items` from `init` with `op`,
/// then partial results flow up the binomial tree, each child's combined into
/// its parent's in increasing distance; a rank sends its partial result once,
/// to its parent, and is done. What this rank sends and returns follows from
/// the payloads it receives as `reduce_transcript` gives them; the result is
/// the group's at rank 0 (see `group::lemma_reduce_correct`).
pub fn reduce<B: Backend>(be: &mut B, op: ReduceOp, init: u64, items: &[u64]) -> (r: Result<
    u64,
    CommError,
>)
    requires
        backend_wf(old(be)),
    ensures
        final(be).spec_rank() == old(be).spec_rank(),
        final(be).spec_n_ranks() == old(be).spec_n_ranks(),
        backend_wf(final(be)),
        old(be).received().len() <= final(be).received().len(),
        final(be).received().subrange(0, old(be).received().len() as int) == old(be).received(),
        ({
            let inbox = payloads(since(old(be).received(), final(be).received()));
            let t = reduce_transcript(
                old(be).spec_n_ranks(),
                old(be).spec_rank(),
                op,
                fold_items(op, init, items@),
                inbox,
            );
            &&& final(be).sent() == old(be).sent() + t.sent
            &&& peers(since(old(be).received(), final(be).received())) == t.heard
            &&& (r is Err <==> t.failed)
            &&& (r is Err ==> r->Err_0 == CommError::Decode)
            &&& (r is Ok ==> r->Ok_0 == t.state)
        }),
        old(be).spec_n_ranks() == 1 ==> r == Ok::<u64, CommError>(fold_items(op, init, items@)),
{
    let n = be.n_ranks();
    let rank = be.rank();
    let dp = depth(n);
    proof {
        lemma_tree_depth(n as nat, dp as nat);
        if dp > 0 {
            lemma_pow2_grows((dp - 1) as nat);
        }
    }
    let mut local = fold_slice(op, init, items);
    let ghost v0 = local;
    let ghost sent0 = be.sent();
    let ghost recv0 = be.received();
    let ghost step = fanin_rounds(n as nat, rank as nat);
    let ghost out = value_out();
    let ghost kept = value_kept();
    let ghost absorb = value_combine(op);
    let mut d: usize = 0;
    while d < dp
        invariant
            be.spec_rank() == rank == old(be).spec_rank(),
            be.spec_n_ranks() == n == old(be).spec_n_ranks(),
            be.inv(),
            rank < n,
            is_depth(n as nat, dp as nat),
            dp == tree_depth(n as nat),
            d <= dp,
            n == 1 ==> dp == 0,
            v0 == fold_items(op, init, items@),
            step == fanin_rounds(n as nat, rank as nat),
            out == value_out(),
            kept == value_kept(),
            absorb == value_combine(op),
            sent0 == old(be).sent(),
            recv0 == old(be).received(),
            recv0.len() <= be.received().len(),
            be.received().subrange(0, recv0.len() as int) == recv0,
            ({
                let t = run_rounds(
                    step,
                    out,
                    kept,
                    absorb,
                    v0,
                    payloads(since(recv0, be.received())),
                    d as nat,
                );
                &&& !t.failed
                &&& be.sent() == sent0 + t.sent
                &&& peers(since(recv0, be.received())) == t.heard
                &&& local == t.state
            }),
        decreases dp - d,
    {
        proof {
            lemma_pow2_grows(d as nat);
            lemma_partner_in_group(n as nat, rank as nat, pow2(d as nat));
        }
        let ghost t = run_rounds(step, out, kept, absorb, v0, payloads(since(recv0, be.received())), d as nat);
        let a = fanin_step(n, rank, dp, d);
        assert(step(d as nat) == a);
        match a {
            Action::Send(p) => {
                be.send(p, encode_value(local));
                assert(be.sent() =~= sent0 + t.sent.push((p as nat, le_bytes(local))));
            },
            Action::Recv(p) => {
                let ghost before = be.received();
                let payload = be.recv(p);
                proof {
                    lemma_after_recv(step, out, kept, absorb, v0, recv0, before, be.received(), p as nat, payload@, d as nat);
                }
                match decode_value(payload.as_slice()) {
                    Ok(v) => {
                        local = op.combine(local, v);
                    },
                    Err(e) => {
                        proof {
                            lemma_rounds_stop(step, out, kept, absorb, v0, payloads(since(recv0, be.received())), (d + 1) as nat, dp as nat);
                        }
                        return Err(e);
                    },
                }
            },
            Action::Idle => {},
        }
        d = d + 1;
    }
    Ok(local)
}

/// The logs of a barrier at `rank` of `n`: from `s0`/`r0` to `s1`/`r1`, the
/// first `j` messages received belong to its broadcast of a token and the rest
/// to its reduce of two ones; `failed` is whether a payload failed to decode.
pub open spec fn barrier_logs(
    n: nat,
    rank: nat,
    s0: Seq<(nat, Seq<u8>)>,
    r0: Seq<(nat, Seq<u8>)>,
    s1: Seq<(nat, Seq<u8>)>,
    r1: Seq<(nat, Seq<u8>)>,
    j: int,
    failed: bool,
) -> bool {
    let inb = since(r0, r1);
    let tb = broadcast_transcript(n, rank, 1, payloads(inb.take(j)));
    let tr = reduce_transcript(
        n,
        rank,
        ReduceOp::Sum,
        fold_items(ReduceOp::Sum, 0, seq![1u64, 1u64]),
        payloads(inb.skip(j)),
    );
    &&& 0 <= j <= inb.len()
    &&& peers(inb.take(j)) == tb.heard
    &&& if tb.failed {
        &&& j == inb.len()
        &&& s1 == s0 + tb.sent
        &&& failed
    } else {
        &&& peers(inb.skip(j)) == tr.heard
        &&& s1 == s0 + tb.sent + tr.sent
        &&& failed == tr.failed
    }
}

/// Barrier: a broadcast of a token from rank 0 followed by a reduce toward it.
/// Rank 0 returns only after every rank has entered (see
/// `group::lemma_barrier_root_waits_for_all`).
pub fn barrier<B: Backend>(be: &mut B) -> (r: Result<(), CommError>)
    requires
        backend_wf(old(be)),
    ensures
        final(be).spec_rank() == old(be).spec_rank(),
        final(be).spec_n_ranks() == old(be).spec_n_ranks(),
        backend_wf(final(be)),
        r is Err ==> r->Err_0 == CommError::Decode,
        exists|j: int|
            #[trigger] barrier_logs(
                old(be).spec_n_ranks(),
                old(be).spec_rank(),
                old(be).sent(),
                old(be).received(),
                final(be).sent(),
                final(be).received(),
                j,
                r is Err,
            ),
        old(be).spec_n_ranks() == 1 ==> r is Ok,
{
    let ghost s0 = be.sent();
    let ghost r0 = be.received();
    let mut token: u64 = 1;
    let b = broadcast(be, &mut token);
    let ghost s_mid = be.sent();
    let ghost r_mid = be.received();
    let ghost j = r_mid.len() - r0.len();
    proof {
        assert(since(r0, r_mid).take(j) =~= since(r0, r_mid));
    }
    if let Err(e) = b {
        proof {
            assert(barrier_logs(be.spec_n_ranks(), be.spec_rank(), s0, r0, be.sent(), be.received(), j, true));
        }
        return Err(e);
    }
    let ones: [u64; 2] = [1, 1];
    assert(ones@ =~= seq![1u64, 1u64]);
    let res = reduce(be, ReduceOp::Sum, 0, ones.as_slice());
    proof {
        let r1 = be.received();
        assert(since(r0, r1).take(j) =~= since(r0, r_mid));
        assert(since(r0, r1).skip(j) =~= since(r_mid, r1));
        assert(be.sent() =~= s0 + (be.sent().skip(s0.len() as int)));
    }
    match res {
        Ok(_) => {
            proof {
                assert(barrier_logs(be.spec_n_ranks(), be.spec_rank(), s0, r0, be.sent(), be.received(), j, false));
            }
            Ok(())
        },
        Err(e) => {
            proof {
                assert(barrier_logs(be.spec_n_ranks(), be.spec_rank(), s0, r0, be.sent(), be.received(), j, true));
            }
            Err(e)
        },
    }
}

/// The item count of `k` blocks of `bs` items, or `usize::MAX` where that
/// count exceeds it (and so exceeds every buffer).
fn blocks_len(k: usize, bs: usize) -> (m: usize)
    ensures
        m == k * bs || (m == usize::MAX && k * bs > usize::MAX),
{
    if bs == 0 {
        0
    } else if k <= usize::MAX / bs {
        proof {
            assert(k * bs <= usize::MAX) by (nonlinear_arith)
                requires
                    k <= usize::MAX / bs,
                    bs > 0,
            ;
        }
        k * bs
    } else {
        proof {
            assert(k * bs > usize::MAX) by (nonlinear_arith)
                requires
                    k > usize::MAX / bs,
                    bs > 0,
            ;
        }
        usize::MAX
    }
}

/// Scatter from rank 0: rank 0's `input`, of `in_size` items, is cut into one
/// block of `in_size / n` items per rank, and block `r` ends in rank `r`'s
/// `out`. In each round a rank that holds blocks keeps those of its own half
/// and sends the rest to the rank at the round's distance above it, which
/// receives them. What this rank sends and keeps follows from the payloads it
/// receives as `scatter_transcript` gives them; its `out` is the first block
/// of what it holds at the end. Rank 0 never receives, so its `out` is the
/// first block of its input.
pub fn scatter<B: Backend>(be: &mut B, input: &[u64], in_size: usize, out: &mut Vec<u64>) -> (r:
    Result<(), CommError>)
    requires
        backend_wf(old(be)),
        (in_size as nat) % old(be).spec_n_ranks() == 0,
        old(be).spec_rank() == 0 ==> input@.len() == in_size,
    ensures
        final(be).spec_rank() == old(be).spec_rank(),
        final(be).spec_n_ranks() == old(be).spec_n_ranks(),
        backend_wf(final(be)),
        old(be).received().len() <= final(be).received().len(),
        final(be).received().subrange(0, old(be).received().len() as int) == old(be).received(),
        ({
            let n = old(be).spec_n_ranks();
            let bs = (in_size as nat) / n;
            let inbox = payloads(since(old(be).received(), final(be).received()));
            let held = if old(be).spec_rank() == 0 {
                input@
            } else {
                Seq::empty()
            };
            let t = scatter_transcript(n, old(be).spec_rank(), bs, held, inbox);
            &&& final(be).sent() == old(be).sent() + t.sent
            &&& peers(since(old(be).received(), final(be).received())) == t.heard
            &&& (r is Err <==> t.failed)
            &&& (r is Err ==> r->Err_0 == CommError::Decode)
            &&& (r is Ok ==> final(out)@ == front(t.state, bs))
        }),
        r is Err ==> final(out)@ == old(out)@,
        old(be).spec_rank() == 0 ==> r is Ok && final(out)@ == input@.subrange(
            0,
            ((in_size as nat) / old(be).spec_n_ranks()) as int,
        ),
{
    let n = be.n_ranks();
    let rank = be.rank();
    let dp = depth(n);
    let bs = in_size / n;
    proof {
        lemma_tree_depth(n as nat, dp as nat);
        assert(bs <= in_size) by (nonlinear_arith)
            requires
                bs == in_size / n,
                n >= 1,
        ;
    }
    let mut held: Vec<u64> = if rank == 0 {
        copy_items(input)
    } else {
        Vec::new()
    };
    let ghost h0 = held@;
    let ghost sent0 = be.sent();
    let ghost recv0 = be.received();
    let ghost step = fanout_rounds(n as nat, rank as nat);
    let ghost sout = scatter_out(n as nat, bs as nat);
    let ghost kept = scatter_kept(n as nat, bs as nat);
    let ghost absorb = buffer_replace();
    let mut d: usize = 0;
    while d < dp
        invariant
            be.spec_rank() == rank == old(be).spec_rank(),
            be.spec_n_ranks() == n == old(be).spec_n_ranks(),
            be.inv(),
            rank < n,
            bs == in_size / n,
            *out == *old(out),
            bs <= in_size,
            is_depth(n as nat, dp as nat),
            dp == tree_depth(n as nat),
            d <= dp,
            h0 == (if rank == 0 {
                input@
            } else {
                Seq::<u64>::empty()
            }),
            step == fanout_rounds(n as nat, rank as nat),
            sout == scatter_out(n as nat, bs as nat),
            kept == scatter_kept(n as nat, bs as nat),
            absorb == buffer_replace(),
            sent0 == old(be).sent(),
            recv0 == old(be).received(),
            recv0.len() <= be.received().len(),
            be.received().subrange(0, recv0.len() as int) == recv0,
            ({
                let t = run_rounds(
                    step,
                    sout,
                    kept,
                    absorb,
                    h0,
                    payloads(since(recv0, be.received())),
                    d as nat,
                );
                &&& !t.failed
                &&& be.sent() == sent0 + t.sent
                &&& peers(since(recv0, be.received())) == t.heard
                &&& held@ == t.state
            }),
            rank == 0 ==> input@.len() == in_size && bs <= held@.len() <= input@.len()
                && held@ == input@.subrange(0, held@.len() as int),
        decreases dp - d,
    {
        proof {
            lemma_pow2_grows((dp - 1 - d) as nat);
            lemma_pow2_mono((dp - 1 - d) as nat, (dp - 1) as nat);
            lemma_partner_in_group(n as nat, rank as nat, pow2((dp - 1 - d) as nat));
        }
        let ghost t = run_rounds(step, sout, kept, absorb, h0, payloads(since(recv0, be.received())), d as nat);
        let k = pow2_exec(dp - 1 - d);
        let m = blocks_len(k, bs);
        proof {
            assert(k * bs >= bs) by (nonlinear_arith)
                requires
                    k >= 1,
            ;
            assert(held@.len() == held.len());
            assert(front(held@, m as nat) == front(held@, k as nat * bs as nat));
            assert(back(held@, m as nat) == back(held@, k as nat * bs as nat));
        }
        let a = fanout_step(n, rank, dp, d);
        assert(step(d as nat) == a);
        match a {
            Action::Send(p) => {
                let (head, tail) = split_items(held.as_slice(), m);
                be.send(p, encode_items(tail.as_slice()));
                proof {
                    assert(sout(d as nat, held@) == buffer_bytes(tail@));
                    assert(kept(d as nat, held@) == head@);
                    assert(be.sent() =~= sent0 + t.sent.push((p as nat, buffer_bytes(tail@))));
                    if rank == 0 && m <= held@.len() {
                        assert(head@ =~= input@.subrange(0, head@.len() as int));
                    }
                }
                held = head;
            },
            Action::Recv(p) => {
                let ghost before = be.received();
                let payload = be.recv(p);
                proof {
                    lemma_after_recv(step, sout, kept, absorb, h0, recv0, before, be.received(), p as nat, payload@, d as nat);
                }
                match decode_items(payload.as_slice()) {
                    Ok(v) => {
                        held = v;
                    },
                    Err(e) => {
                        proof {
                            lemma_rounds_stop(step, sout, kept, absorb, h0, payloads(since(recv0, be.received())), (d + 1) as nat, dp as nat);
                        }
                        return Err(e);
                    },
                }
            },
            Action::Idle => {},
        }
        d = d + 1;
    }
    let (mine, _) = split_items(held.as_slice(), bs);
    proof {
        if rank == 0 {
            assert(mine@ =~= input@.subrange(0, bs as int));
        }
    }
    *out = mine;
    Ok(())
}

/// Gather toward rank 0: each rank's `input` travels up the binomial tree,
/// each node appending its children's buffers to its own in increasing
/// distance, then sending the whole to its parent once. What this rank sends
/// follows from the payloads it receives as `gather_transcript` gives them.
/// Rank 0's `out` becomes what it holds at the end, the joined buffers of all
/// ranks with its own first (see `group::lemma_gather_at_root`); the other
/// ranks' `out` is left as it is.
pub fn gather<B: Backend>(be: &mut B, input: &[u64], out: &mut Vec<u64>) -> (r: Result<
    (),
    CommError,
>)
    requires
        backend_wf(old(be)),
    ensures
        final(be).spec_rank() == old(be).spec_rank(),
        final(be).spec_n_ranks() == old(be).spec_n_ranks(),
        backend_wf(final(be)),
        old(be).received().len() <= final(be).received().len(),
        final(be).received().subrange(0, old(be).received().len() as int) == old(be).received(),
        ({
            let inbox = payloads(since(old(be).received(), final(be).received()));
            let t = gather_transcript(old(be).spec_n_ranks(), old(be).spec_rank(), input@, inbox);
            &&& final(be).sent() == old(be).sent() + t.sent
            &&& peers(since(old(be).received(), final(be).received())) == t.heard
            &&& (r is Err <==> t.failed)
            &&& (r is Err ==> r->Err_0 == CommError::Decode)
            &&& (r is Ok && old(be).spec_rank() == 0 ==> final(out)@ == t.state)
        }),
        old(be).spec_rank() != 0 ==> final(out)@ == old(out)@,
        r is Err ==> final(out)@ == old(out)@,
        old(be).spec_n_ranks() == 1 ==> r is Ok && final(out)@ == input@,
{
    let n = be.n_ranks();
    let rank = be.rank();
    let dp = depth(n);
    proof {
        lemma_tree_depth(n as nat, dp as nat);
        if dp > 0 {
            lemma_pow2_grows((dp - 1) as nat);
        }
    }
    let mut buf = copy_items(input);
    let ghost sent0 = be.sent();
    let ghost recv0 = be.received();
    let ghost step = fanin_rounds(n as nat, rank as nat);
    let ghost bout = buffer_out();
    let ghost kept = buffer_kept();
    let ghost absorb = buffer_append();
    let mut d: usize = 0;
    while d < dp
        invariant
            be.spec_rank() == rank == old(be).spec_rank(),
            be.spec_n_ranks() == n == old(be).spec_n_ranks(),
            be.inv(),
            rank < n,
            is_depth(n as nat, dp as nat),
            dp == tree_depth(n as nat),
            d <= dp,
            n == 1 ==> dp == 0 && buf@ == input@,
            *out == *old(out),
            step == fanin_rounds(n as nat, rank as nat),
            bout == buffer_out(),
            kept == buffer_kept(),
            absorb == buffer_append(),
            sent0 == old(be).sent(),
            recv0 == old(be).received(),
            recv0.len() <= be.received().len(),
            be.received().subrange(0, recv0.len() as int) == recv0,
            ({
                let t = run_rounds(
                    step,
                    bout,
                    kept,
                    absorb,
                    input@,
                    payloads(since(recv0, be.received())),
                    d as nat,
                );
                &&& !t.failed
                &&& be.sent() == sent0 + t.sent
                &&& peers(since(recv0, be.received())) == t.heard
                &&& buf@ == t.state
            }),
        decreases dp - d,
    {
        proof {
            lemma_pow2_grows(d as nat);
            lemma_partner_in_group(n as nat, rank as nat, pow2(d as nat));
        }
        let ghost t = run_rounds(step, bout, kept, absorb, input@, payloads(since(recv0, be.received())), d as nat);
        let a = fanin_step(n, rank, dp, d);
        assert(step(d as nat) == a);
        match a {
            Action::Send(p) => {
                be.send(p, encode_items(buf.as_slice()));
                assert(be.sent() =~= sent0 + t.sent.push((p as nat, buffer_bytes(buf@))));
            },
            Action::Recv(p) => {
                let ghost before = be.received();
                let payload = be.recv(p);
                proof {
                    lemma_after_recv(step, bout, kept, absorb, input@, recv0, before, be.received(), p as nat, payload@, d as nat);
                }
                match decode_items(payload.as_slice()) {
                    Ok(v) => {
                        buf = joined(buf.as_slice(), v.as_slice());
                    },
                    Err(e) => {
                        proof {
                            lemma_rounds_stop(step, bout, kept, absorb, input@, payloads(since(recv0, be.received())), (d + 1) as nat, dp as nat);
                        }
                        return Err(e);
                    },
                }
            },
            Action::Idle => {},
        }
        d = d + 1;
    }
    if rank == 0 {
        *out = buf;
    }
    Ok(())
}

} // verus!
