//! The group descriptor: how many ranks, which one this is, and where each
//! rank listens.
use vstd::prelude::*;

verus! {

/// What is wrong with a configuration.
#[derive(Clone, Copy, Debug, PartialEq, Eq, Structural)]
pub enum ConfigError {
    /// A number was missing or not a decimal number.
    Unparsable,
    /// The address list is empty.
    NoAddresses,
    /// The address list does not hold one address per rank.
    CountMismatch,
    /// The rank is not below the number of ranks.
    RankOutOfRange,
}

/// The group descriptor.
pub struct Params {
    /// The number of ranks.
    pub nranks: usize,
    /// This process's rank.
    pub rank: usize,
    /// `addresses[i]` is the `host:port` on which rank `i` listens.
    pub addresses: Vec<String>,
}

impl Params {
    /// One address per rank, at least one rank, and this rank among them.
    pub open spec fn wf(&self) -> bool {
        &&& 1 <= self.nranks
        &&& self.rank < self.nranks
        &&& self.addresses@.len() == self.nranks
    }

    /// Checks and builds a group descriptor.
    pub fn new(nranks: usize, rank: usize, addresses: Vec<String>) -> (r: Result<
        Params,
        ConfigError,
    >)
        ensures
            addresses@.len() == 0 ==> r == Err::<Params, ConfigError>(ConfigError::NoAddresses),
            addresses@.len() != 0 && addresses@.len() != nranks ==> r == Err::<
                Params,
                ConfigError,
            >(ConfigError::CountMismatch),
            addresses@.len() != 0 && addresses@.len() == nranks && rank >= nranks ==> r == Err::<
                Params,
                ConfigError,
            >(ConfigError::RankOutOfRange),
            r is Ok ==> r->Ok_0.wf() && r->Ok_0.nranks == nranks && r->Ok_0.rank == rank
                && r->Ok_0.addresses@ == addresses@,
            (addresses@.len() != 0 && addresses@.len() == nranks && rank < nranks) ==> r is Ok,
    {
        if addresses.len() == 0 {
            Err(ConfigError::NoAddresses)
        } else if addresses.len() != nranks {
            Err(ConfigError::CountMismatch)
        } else if rank >= nranks {
            Err(ConfigError::RankOutOfRange)
        } else {
            Ok(Params { nranks, rank, addresses })
        }
    }

    /// Builds a group descriptor from its textual form: the number of ranks and
    /// this rank in decimal, and the addresses.
    pub fn parse(nranks: &[u8], rank: &[u8], addresses: Vec<String>) -> (r: Result<
        Params,
        ConfigError,
    >)
        ensures
            (parse_decimal_spec(nranks@) is None || parse_decimal_spec(rank@) is None) ==> r == Err::<
                Params,
                ConfigError,
            >(ConfigError::Unparsable),
            r is Ok ==> r->Ok_0.wf() && Some(r->Ok_0.nranks) == parse_decimal_spec(nranks@)
                && Some(r->Ok_0.rank) == parse_decimal_spec(rank@) && r->Ok_0.addresses@
                == addresses@,
            parse_decimal_spec(nranks@) matches Some(n) ==> parse_decimal_spec(rank@) matches Some(
                k,
            ) ==> {
                &&& addresses@.len() == 0 ==> r == Err::<Params, ConfigError>(
                    ConfigError::NoAddresses,
                )
                &&& addresses@.len() != 0 && addresses@.len() != n ==> r == Err::<
                    Params,
                    ConfigError,
                >(ConfigError::CountMismatch)
                &&& addresses@.len() != 0 && addresses@.len() == n && k >= n ==> r == Err::<
                    Params,
                    ConfigError,
                >(ConfigError::RankOutOfRange)
                &&& addresses@.len() != 0 && addresses@.len() == n && k < n ==> r is Ok
            },
    {
        match (parse_decimal(nranks), parse_decimal(rank)) {
            (Some(n), Some(r)) => Params::new(n, r, addresses),
            _ => Err(ConfigError::Unparsable),
        }
    }
}

/// Whether `c` is an ASCII decimal digit.
pub open spec fn is_digit(c: u8) -> bool {
    48 <= c <= 57
}

/// The number that the decimal digits `s` write.
pub open spec fn digits_value(s: Seq<u8>) -> nat
    decreases s.len(),
{
    if s.len() == 0 {
        0
    } else {
        10 * digits_value(s.drop_last()) + (s.last() - 48) as nat
    }
}

/// The number that `s` writes in decimal, where `s` is one or more digits and
/// the number fits in a `usize`.
pub open spec fn parse_decimal_spec(s: Seq<u8>) -> Option<usize> {
    if s.len() >= 1 && (forall|i: int| 0 <= i < s.len() ==> is_digit(#[trigger] s[i]))
        && digits_value(s) <= usize::MAX {
        Some(digits_value(s) as usize)
    } else {
        None
    }
}

proof fn lemma_digits_grow(s: Seq<u8>, i: int)
    requires
        0 <= i <= s.len(),
        forall|j: int| 0 <= j < s.len() ==> is_digit(#[trigger] s[j]),
    ensures
        digits_value(s.subrange(0, i)) <= digits_value(s),
    decreases s.len() - i,
{
    if i < s.len() {
        lemma_digits_grow(s, i + 1);
        assert(s.subrange(0, i + 1).drop_last() =~= s.subrange(0, i));
    } else {
        assert(s.subrange(0, i) =~= s);
    }
}

/// Reads a decimal number.
pub fn parse_decimal(s: &[u8]) -> (r: Option<usize>)
    ensures
        r == parse_decimal_spec(s@),
{
    if s.len() == 0 {
        return None;
    }
    let mut v: usize = 0;
    let mut i: usize = 0;
    while i < s.len()
        invariant
            i <= s@.len(),
            forall|j: int| 0 <= j < i ==> is_digit(#[trigger] s@[j]),
            v == digits_value(s@.subrange(0, i as int)),
        decreases s.len() - i,
    {
        let c = s[i];
        assert(s@.subrange(0, i + 1).drop_last() =~= s@.subrange(0, i as int));
        if c < 48 || c > 57 {
            return None;
        }
        let dg = (c - 48) as usize;
        if v > (usize::MAX - dg) / 10 {
            proof {
                if forall|j: int| 0 <= j < s@.len() ==> is_digit(#[trigger] s@[j]) {
                    lemma_digits_grow(s@, i + 1);
                }
            }
            return None;
        }
        v = v * 10 + dg;
        i = i + 1;
    }
    assert(s@.subrange(0, i as int) =~= s@);
    Some(v)
}

} // verus!
