//! The rendezvous that connects every rank to every other one. The ranks take
//! turns in rank order: in its turn a rank connects its outbound socket to each
//! other rank and drains the probe that each new connection surfaces there;
//! in every other rank's turn it drains the one probe that the active rank's
//! connection surfaces on its inbound socket.
use vstd::prelude::*;

verus! {

/// One step of the rendezvous.
#[derive(Clone, Copy, Debug, PartialEq, Eq, Structural)]
pub enum BootStep {
    /// Connect the outbound socket to the inbound socket of the rank given.
    Connect(usize),
    /// Drain one probe (two frames) from the outbound socket.
    DrainOutbound,
    /// Drain one probe (two frames) from the inbound socket.
    DrainInbound,
}

/// The connections of `rank`'s own turn to the ranks below `k`, each followed
/// by the drain of its probe.
pub open spec fn connect_steps(rank: nat, k: nat) -> Seq<BootStep>
    decreases k,
{
    if k == 0 {
        Seq::empty()
    } else if (k - 1) as nat == rank {
        connect_steps(rank, (k - 1) as nat)
    } else {
        connect_steps(rank, (k - 1) as nat) + seq![
            BootStep::Connect((k - 1) as usize),
            BootStep::DrainOutbound,
        ]
    }
}

/// The steps of `rank` in the turns of the ranks below `j`, in a group of `n`.
pub open spec fn turn_steps(n: nat, rank: nat, j: nat) -> Seq<BootStep>
    decreases j,
{
    if j == 0 {
        Seq::empty()
    } else if (j - 1) as nat == rank {
        turn_steps(n, rank, (j - 1) as nat) + connect_steps(rank, n)
    } else {
        turn_steps(n, rank, (j - 1) as nat) + seq![BootStep::DrainInbound]
    }
}

/// The whole rendezvous of `rank` in a group of `n`.
pub open spec fn boot_plan(n: nat, rank: nat) -> Seq<BootStep> {
    turn_steps(n, rank, n)
}

/// How many times `step` occurs in `s`.
pub open spec fn count(s: Seq<BootStep>, step: BootStep) -> nat
    decreases s.len(),
{
    if s.len() == 0 {
        0
    } else {
        count(s.drop_last(), step) + if s.last() == step {
            1nat
        } else {
            0nat
        }
    }
}

proof fn lemma_count_add(a: Seq<BootStep>, b: Seq<BootStep>, step: BootStep)
    ensures
        count(a + b, step) == count(a, step) + count(b, step),
    decreases b.len(),
{
    if b.len() == 0 {
        assert(a + b =~= a);
    } else {
        assert((a + b).drop_last() =~= a + b.drop_last());
        assert((a + b).last() == b.last());
        lemma_count_add(a, b.drop_last(), step);
    }
}

proof fn lemma_count_pair(x: BootStep, y: BootStep, step: BootStep)
    ensures
        count(seq![x, y], step) == (if x == step {
            1nat
        } else {
            0nat
        }) + (if y == step {
            1nat
        } else {
            0nat
        }),
{
    let s = seq![x, y];
    assert(s.drop_last() =~= seq![x]);
    assert(s.last() == y);
    lemma_count_one(x, step);
    assert(count(s, step) == count(s.drop_last(), step) + if s.last() == step {
        1nat
    } else {
        0nat
    });
}

proof fn lemma_count_one(x: BootStep, step: BootStep)
    ensures
        count(seq![x], step) == (if x == step {
            1nat
        } else {
            0nat
        }),
{
    let s = seq![x];
    assert(s.drop_last() =~= Seq::<BootStep>::empty());
    assert(s.last() == x);
    assert(count(s.drop_last(), step) == 0);
}

proof fn lemma_connect_counts(rank: nat, k: nat, target: nat)
    requires
        k <= usize::MAX + 1,
    ensures
        count(connect_steps(rank, k), BootStep::DrainInbound) == 0,
        count(connect_steps(rank, k), BootStep::DrainOutbound) == if rank < k {
            (k - 1) as nat
        } else {
            k
        },
        target <= usize::MAX ==> count(connect_steps(rank, k), BootStep::Connect(target as usize))
            == if target < k && target != rank {
            1nat
        } else {
            0nat
        },
    decreases k,
{
    if k > 0 {
        lemma_connect_counts(rank, (k - 1) as nat, target);
        if (k - 1) as nat != rank {
            let pair = seq![BootStep::Connect((k - 1) as usize), BootStep::DrainOutbound];
            lemma_count_add(connect_steps(rank, (k - 1) as nat), pair, BootStep::DrainInbound);
            lemma_count_add(connect_steps(rank, (k - 1) as nat), pair, BootStep::DrainOutbound);
            lemma_count_pair(pair[0], pair[1], BootStep::DrainInbound);
            lemma_count_pair(pair[0], pair[1], BootStep::DrainOutbound);
            if target <= usize::MAX {
                lemma_count_add(
                    connect_steps(rank, (k - 1) as nat),
                    pair,
                    BootStep::Connect(target as usize),
                );
                lemma_count_pair(pair[0], pair[1], BootStep::Connect(target as usize));
            }
        }
    }
}

proof fn lemma_turn_counts(n: nat, rank: nat, j: nat, target: nat)
    requires
        n <= usize::MAX,
        rank < n,
        j <= n,
        target < n,
    ensures
        count(turn_steps(n, rank, j), BootStep::DrainInbound) == if rank < j {
            (j - 1) as nat
        } else {
            j
        },
        count(turn_steps(n, rank, j), BootStep::DrainOutbound) == if rank < j {
            (n - 1) as nat
        } else {
            0
        },
        count(turn_steps(n, rank, j), BootStep::Connect(target as usize)) == if rank < j
            && target != rank {
            1nat
        } else {
            0nat
        },
    decreases j,
{
    if j > 0 {
        let prev = turn_steps(n, rank, (j - 1) as nat);
        lemma_turn_counts(n, rank, (j - 1) as nat, target);
        if (j - 1) as nat == rank {
            lemma_connect_counts(rank, n, target);
            lemma_count_add(prev, connect_steps(rank, n), BootStep::DrainInbound);
            lemma_count_add(prev, connect_steps(rank, n), BootStep::DrainOutbound);
            lemma_count_add(prev, connect_steps(rank, n), BootStep::Connect(target as usize));
        } else {
            let one = seq![BootStep::DrainInbound];
            lemma_count_add(prev, one, BootStep::DrainInbound);
            lemma_count_add(prev, one, BootStep::DrainOutbound);
            lemma_count_add(prev, one, BootStep::Connect(target as usize));
            lemma_count_one(BootStep::DrainInbound, BootStep::DrainInbound);
            lemma_count_one(BootStep::DrainInbound, BootStep::DrainOutbound);
            lemma_count_one(BootStep::DrainInbound, BootStep::Connect(target as usize));
        }
    }
}

/// Every probe is drained exactly once: each other rank connects to `rank`
/// exactly once, surfacing one probe on `rank`'s inbound socket, and `rank`
/// drains its inbound socket exactly once per other rank; `rank` drains its
/// outbound socket once per connection it makes, `n - 1` in all. So no probe
/// is left queued when the rendezvous ends.
pub proof fn lemma_probes_drained(n: nat, rank: nat)
    requires
        rank < n <= usize::MAX,
    ensures
        count(boot_plan(n, rank), BootStep::DrainInbound) == n - 1,
        count(boot_plan(n, rank), BootStep::DrainOutbound) == n - 1,
        forall|j: nat|
            j < n && j != rank ==> #[trigger] count(boot_plan(n, j), BootStep::Connect(rank as usize))
                == 1,
        forall|t: nat|
            t < n ==> #[trigger] count(boot_plan(n, rank), BootStep::Connect(t as usize)) == if t
                != rank {
                1nat
            } else {
                0nat
            },
{
    lemma_turn_counts(n, rank, n, rank);
    assert forall|j: nat| j < n && j != rank implies #[trigger] count(
        boot_plan(n, j),
        BootStep::Connect(rank as usize),
    ) == 1 by {
        lemma_turn_counts(n, j, n, rank);
    }
    assert forall|t: nat| t < n implies #[trigger] count(
        boot_plan(n, rank),
        BootStep::Connect(t as usize),
    ) == if t != rank {
        1nat
    } else {
        0nat
    } by {
        lemma_turn_counts(n, rank, n, t);
    }
}

/// The rendezvous of `rank` in a group of `n`.
pub fn bootstrap_plan(n: usize, rank: usize) -> (r: Vec<BootStep>)
    requires
        rank < n,
    ensures
        r@ == boot_plan(n as nat, rank as nat),
{
    let mut r: Vec<BootStep> = Vec::new();
    let mut j: usize = 0;
    while j < n
        invariant
            j <= n,
            rank < n,
            r@ == turn_steps(n as nat, rank as nat, j as nat),
        decreases n - j,
    {
        if j == rank {
            let mut k: usize = 0;
            let ghost base = r@;
            while k < n
                invariant
                    k <= n,
                    j == rank < n,
                    r@ == base + connect_steps(rank as nat, k as nat),
                decreases n - k,
            {
                if k != rank {
                    r.push(BootStep::Connect(k));
                    r.push(BootStep::DrainOutbound);
                    assert(r@ =~= base + connect_steps(rank as nat, (k + 1) as nat));
                } else {
                    assert(connect_steps(rank as nat, (k + 1) as nat) == connect_steps(rank as nat, k as nat));
                }
                k = k + 1;
            }
        } else {
            r.push(BootStep::DrainInbound);
        }
        j = j + 1;
    }
    r
}

} // verus!
