//! Tree shapes of the collectives: how many rounds they take and, for each
//! rank and round, whom that rank sends to or receives from.
use vstd::prelude::*;
use vstd::arithmetic::div_mod::{lemma_fundamental_div_mod, lemma_fundamental_div_mod_converse};

verus! {

/// Two to the power `e`.
pub open spec fn pow2(e: nat) -> nat
    decreases e,
{
    if e == 0 {
        1
    } else {
        2 * pow2((e - 1) as nat)
    }
}

/// Powers of two are positive and exceed their exponent.
pub proof fn lemma_pow2_grows(e: nat)
    ensures
        pow2(e) >= 1,
        pow2(e) > e,
    decreases e,
{
    if e > 0 {
        lemma_pow2_grows((e - 1) as nat);
    }
}

/// Powers of two grow with the exponent.
pub proof fn lemma_pow2_mono(a: nat, b: nat)
    requires
        a <= b,
    ensures
        pow2(a) <= pow2(b),
    decreases b - a,
{
    if a < b {
        lemma_pow2_mono(a, (b - 1) as nat);
        lemma_pow2_grows((b - 1) as nat);
    }
}

/// `d` is the number of rounds of a tree over `n` ranks: the least `d`
/// with `n <= 2^d`, that is the ceiling of the base-two logarithm of `n`.
pub open spec fn is_depth(n: nat, d: nat) -> bool {
    &&& n <= pow2(d)
    &&& (d == 0 || pow2((d - 1) as nat) < n)
}

/// The number of rounds of a tree over `n` ranks.
pub open spec fn tree_depth(n: nat) -> nat {
    choose|d: nat| is_depth(n, d)
}

/// There is one number of rounds for each group size.
pub proof fn lemma_tree_depth(n: nat, d: nat)
    requires
        is_depth(n, d),
    ensures
        tree_depth(n) == d,
{
    let e = tree_depth(n);
    assert(is_depth(n, e));
    if e < d {
        lemma_pow2_mono(e, (d - 1) as nat);
    } else if d < e {
        lemma_pow2_mono(d, (e - 1) as nat);
    }
}

/// What a rank does in one round of a collective.
#[derive(Clone, Copy, Debug, PartialEq, Eq, Structural)]
pub enum Action {
    /// Send to the rank given.
    Send(usize),
    /// Receive from the rank given.
    Recv(usize),
    /// Take no part in this round.
    Idle,
}

/// The pairing of one round at distance `k`, seen from the side that holds the
/// data: among the ranks that are multiples of `k`, an even multiple sends to
/// the rank `k` above it (when that rank exists) and an odd multiple receives
/// from the rank `k` below it. Ranks that are not multiples of `k` stay idle.
pub open spec fn pairing(n: nat, rank: nat, k: nat) -> Action {
    if rank % k != 0 {
        Action::Idle
    } else if (rank / k) % 2 == 0 {
        if rank + k < n {
            Action::Send((rank + k) as usize)
        } else {
            Action::Idle
        }
    } else {
        Action::Recv((rank - k) as usize)
    }
}

/// The same pairing with the direction of every message reversed.
pub open spec fn reversed(a: Action) -> Action {
    match a {
        Action::Send(p) => Action::Recv(p),
        Action::Recv(p) => Action::Send(p),
        Action::Idle => Action::Idle,
    }
}

/// Round `round` of broadcast and scatter (recursive halving from rank 0):
/// the distance is `2^(depth - 1 - round)`.
pub open spec fn fanout_action(n: nat, rank: nat, depth: nat, round: nat) -> Action {
    pairing(n, rank, pow2((depth - 1 - round) as nat))
}

/// Round `round` of reduce and gather (binomial tree toward rank 0): the
/// distance is `2^round`, and data flows from the odd multiple to the even one.
pub open spec fn fanin_action(n: nat, rank: nat, round: nat) -> Action {
    reversed(pairing(n, rank, pow2(round)))
}

/// Facts on a multiple `r` of `k` and its neighbours at distance `k`.
pub proof fn lemma_multiple_step(r: nat, k: nat)
    requires
        k > 0,
        r % k == 0,
    ensures
        ((r / k) % 2 == 0) == (r % (2 * k) == 0),
        (r + k) % k == 0,
        (r + k) / k == r / k + 1,
        (r / k) % 2 == 1 ==> r >= k && ((r - k) as nat) % k == 0 && ((r - k) as nat) / k == r / k - 1,
{
    let q = r / k;
    lemma_fundamental_div_mod(r as int, k as int);
    assert(r == q * k);
    assert(r + k == (q + 1) * k) by (nonlinear_arith)
        requires
            r == q * k,
    ;
    lemma_fundamental_div_mod_converse((r + k) as int, k as int, (q + 1) as int, 0);
    if q % 2 == 0 {
        lemma_fundamental_div_mod(q as int, 2);
        let j = q / 2;
        assert(r == j * (2 * k)) by (nonlinear_arith)
            requires
                r == q * k,
                q == 2 * j,
        ;
        lemma_fundamental_div_mod_converse(r as int, (2 * k) as int, j as int, 0);
    } else {
        lemma_fundamental_div_mod(q as int, 2);
        let j = q / 2;
        assert(r == j * (2 * k) + k) by (nonlinear_arith)
            requires
                r == q * k,
                q == 2 * j + 1,
        ;
        lemma_fundamental_div_mod_converse(r as int, (2 * k) as int, j as int, k as int);
        assert(q >= 1);
        assert(r >= k) by (nonlinear_arith)
            requires
                r == q * k,
                q >= 1,
                k > 0,
        ;
        assert(r - k == (q - 1) * k) by (nonlinear_arith)
            requires
                r == q * k,
        ;
        lemma_fundamental_div_mod_converse((r - k) as int, k as int, (q - 1) as int, 0);
    }
}

/// A rank's pairing is answered by its partner: whom it sends to receives
/// from it in the same round, and whom it receives from sends to it.
pub proof fn lemma_pairing_matches(n: nat, r: nat, k: nat)
    requires
        k > 0,
        r < n,
        n <= usize::MAX,
    ensures
        pairing(n, r, k) matches Action::Send(p) ==> p < n && pairing(n, p as nat, k)
            == Action::Recv(r as usize),
        pairing(n, r, k) matches Action::Recv(p) ==> p < n && pairing(n, p as nat, k)
            == Action::Send(r as usize),
{
    if r % k == 0 {
        lemma_multiple_step(r, k);
        if (r / k) % 2 == 1 {
            lemma_multiple_step((r - k) as nat, k);
        } else if r + k < n {
            lemma_multiple_step(r, k);
        }
    }
}

/// Two to the power `e`, where it fits in a `usize`.
pub fn pow2_exec(e: usize) -> (p: usize)
    requires
        pow2(e as nat) <= usize::MAX,
    ensures
        p == pow2(e as nat),
{
    let mut p: usize = 1;
    let mut i: usize = 0;
    while i < e
        invariant
            i <= e,
            p == pow2(i as nat),
            pow2(e as nat) <= usize::MAX,
        decreases e - i,
    {
        proof {
            lemma_pow2_mono((i + 1) as nat, e as nat);
        }
        p = p * 2;
        i = i + 1;
    }
    p
}

/// The number of rounds of a tree over `n` ranks.
pub fn depth(n: usize) -> (d: usize)
    requires
        n >= 1,
    ensures
        is_depth(n as nat, d as nat),
{
    let mut d: usize = 0;
    let mut p: usize = 1;
    while p < n
        invariant
            n >= 1,
            p == pow2(d as nat),
            d == 0 || pow2((d - 1) as nat) < n,
        decreases usize::MAX - p,
    {
        proof {
            lemma_pow2_grows(d as nat);
        }
        if p > usize::MAX / 2 {
            return d + 1;
        }
        p = p * 2;
        d = d + 1;
    }
    d
}

/// The pairing at distance `k` for `rank` among `n` ranks.
fn pairing_exec(n: usize, rank: usize, k: usize) -> (a: Action)
    requires
        k > 0,
        rank < n,
    ensures
        a == pairing(n as nat, rank as nat, k as nat),
{
    if rank % k == 0 {
        proof {
            lemma_multiple_step(rank as nat, k as nat);
        }
    }
    if rank % k != 0 {
        Action::Idle
    } else if (rank / k) % 2 == 0 {
        if k < n - rank {
            Action::Send(rank + k)
        } else {
            Action::Idle
        }
    } else {
        Action::Recv(rank - k)
    }
}

/// What `rank` does in round `round` of broadcast or scatter.
pub fn fanout_step(n: usize, rank: usize, depth: usize, round: usize) -> (a: Action)
    requires
        rank < n,
        is_depth(n as nat, depth as nat),
        round < depth,
    ensures
        a == fanout_action(n as nat, rank as nat, depth as nat, round as nat),
{
    proof {
        lemma_pow2_mono((depth - 1 - round) as nat, (depth - 1) as nat);
        lemma_pow2_grows((depth - 1 - round) as nat);
    }
    let k = pow2_exec(depth - 1 - round);
    pairing_exec(n, rank, k)
}

/// What `rank` does in round `round` of reduce or gather.
pub fn fanin_step(n: usize, rank: usize, depth: usize, round: usize) -> (a: Action)
    requires
        rank < n,
        is_depth(n as nat, depth as nat),
        round < depth,
    ensures
        a == fanin_action(n as nat, rank as nat, round as nat),
{
    proof {
        lemma_pow2_mono(round as nat, (depth - 1) as nat);
        lemma_pow2_grows(round as nat);
    }
    let k = pow2_exec(round);
    match pairing_exec(n, rank, k) {
        Action::Send(p) => Action::Recv(p),
        Action::Recv(p) => Action::Send(p),
        Action::Idle => Action::Idle,
    }
}

} // verus!
