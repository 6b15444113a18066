//! Collective communication (broadcast, reduce, barrier, scatter, gather)
//! for a fixed group of ranks, over logarithmic-depth trees.
//!
//! - `topology`: the number of rounds and each rank's action in each round.
//! - `group`: the whole group's states round by round, and the laws of the
//!   collectives proved over them.
//! - `local`: that group semantics run in one process.
//! - `consistency`: each rank's transcript, fed what the group model
//!   delivers, ends as the group model says.
//! - `collectives`: the collectives as one rank runs them over a `Backend`.
//! - `endpoint`: a `Backend` over a transport of identity-addressed frames,
//!   with the rendezvous of `bootstrap` and the `lifecycle` of a member.
//! - `codec`, `wire`, `config`, `combine`: payloads, identity frames, the group
//!   descriptor, and the combiners of reduce.
use vstd::prelude::*;

pub mod topology;
pub mod wire;
pub mod bootstrap;
pub mod codec;
pub mod collectives;
pub mod combine;
pub mod config;
pub mod consistency;
pub mod endpoint;
pub mod group;
pub mod lifecycle;
pub mod local;

verus! {

/// The `n`-th Fibonacci number, counting from `fib(0) == fib(1) == 1`.
pub open spec fn fib(n: nat) -> nat
    decreases n,
{
    if n <= 1 {
        1
    } else {
        fib((n - 1) as nat) + fib((n - 2) as nat)
    }
}

proof fn lemma_fib_mono(n: nat)
    ensures
        fib(n) >= 1,
        n >= 1 ==> fib((n - 1) as nat) <= fib(n),
    decreases n,
{
    if n >= 1 {
        lemma_fib_mono((n - 1) as nat);
    }
}

/// The `n`-th Fibonacci number, where it fits in a `usize`.
pub fn fibonacci(n: usize) -> (r: usize)
    requires
        fib(n as nat) <= usize::MAX,
    ensures
        r == fib(n as nat),
    decreases n,
{
    if n <= 1 {
        1
    } else {
        proof {
            lemma_fib_mono(n as nat);
            lemma_fib_mono((n - 1) as nat);
        }
        fibonacci(n - 1) + fibonacci(n - 2)
    }
}

} // verus!
