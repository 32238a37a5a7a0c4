use vstd::prelude::*;

use crate::text::{decimal, lemma_decimal_injective, push_decimal};

verus! {

/// Hands out the identifiers `prefix1`, `prefix2`, ... in turn.
pub struct IdGenerator {
    pub prefix: String,
    pub n: u64,
}

/// The counter after one more identifier: it counts up and starts over at 1
/// where a 32-bit signed counter would overflow.
pub open spec fn next_count(n: u64) -> u64 {
    if n >= 0x7fff_ffff { 1 } else { (n + 1) as u64 }
}

impl IdGenerator {
    pub fn new(prefix: &str) -> (g: Self)
        ensures
            g.prefix@ == prefix@,
            g.n == 0,
    {
        IdGenerator { prefix: String::from_str(prefix), n: 0 }
    }

    /// The next identifier: the prefix followed by the new count.
    pub fn next(&mut self) -> (id: String)
        ensures
            final(self).prefix@ == old(self).prefix@,
            final(self).n == next_count(old(self).n),
            id@ == old(self).prefix@ + decimal(final(self).n as nat),
    {
        self.n = if self.n >= 0x7fff_ffff { 1 } else { self.n + 1 };
        let mut id = self.prefix.clone();
        push_decimal(&mut id, self.n);
        id
    }
}


/// Two identifiers handed out one after the other carry different counts.
pub proof fn lemma_consecutive_counts_differ(n: u64)
    ensures
        next_count(n) != next_count(next_count(n)),
{
}

/// Identifiers with the same prefix and different counts differ, so the
/// identifiers handed out one after the other by a generator differ.
pub proof fn lemma_different_counts_different_ids(prefix: Seq<char>, a: u64, b: u64)
    requires
        a != b,
    ensures
        prefix + decimal(a as nat) != prefix + decimal(b as nat),
{
    if prefix + decimal(a as nat) == prefix + decimal(b as nat) {
        assert((prefix + decimal(a as nat)).skip(prefix.len() as int) == decimal(a as nat));
        assert((prefix + decimal(b as nat)).skip(prefix.len() as int) == decimal(b as nat));
        lemma_decimal_injective(a as nat, b as nat);
    }
}

} // verus!
