use vstd::prelude::*;

verus! {

/// One xorshift64 step (shifts 13, 7, 17).
pub open spec fn xorshift_step(x: u64) -> u64 {
    let a = x ^ (x << 13u64);
    let b = a ^ (a >> 7u64);
    b ^ (b << 17u64)
}

/// The number `gen_range(len)` draws from the generator's next output `x`.
pub open spec fn range_draw(x: u64, len: int) -> int {
    ((x as usize) as int) % len
}

/// Swap the entries at `i` and `j`.
pub open spec fn swap_seq<T>(s: Seq<T>, i: int, j: int) -> Seq<T> {
    s.update(i, s[j]).update(j, s[i])
}

/// Fisher-Yates passes over positions `i, i-1, ..., 1` starting from generator
/// state `state`: at position `i` the entry is swapped with the one at a draw
/// in `0..=i`. Gives the final generator state and sequence.
pub open spec fn shuffle_from<T>(state: u64, s: Seq<T>, i: int) -> (u64, Seq<T>)
    decreases i,
{
    if i < 1 {
        (state, s)
    } else {
        let next = xorshift_step(state);
        let j = range_draw(next, i + 1);
        shuffle_from(next, swap_seq(s, i, j), i - 1)
    }
}

/// Deterministic xorshift64 generator used for reproducible trials.
#[derive(Debug)]
pub struct Rng64 {
    state: u64,
}

/// xorshift never leaves a nonzero state for zero.
pub proof fn lemma_xorshift_nonzero(x: u64)
    requires
        x != 0,
    ensures
        xorshift_step(x) != 0,
{
    assert(x != 0 ==> (x ^ (x << 13u64)) ^ ((x ^ (x << 13u64)) >> 7u64) ^ (((x ^ (x << 13u64))
        ^ ((x ^ (x << 13u64)) >> 7u64)) << 17u64) != 0) by (bit_vector);
}

/// Swapping two entries keeps the multiset of entries.
pub proof fn lemma_swap_multiset<T>(s: Seq<T>, i: int, j: int)
    requires
        0 <= i < s.len(),
        0 <= j < s.len(),
    ensures
        swap_seq(s, i, j).to_multiset() == s.to_multiset(),
{
    broadcast use vstd::seq_lib::to_multiset_update;
    broadcast use vstd::multiset::group_multiset_axioms;

    let s1 = s.update(i, s[j]);
    assert(s1[j] == s[j]);
    assert(s.to_multiset().count(s[i]) > 0) by {
        broadcast use vstd::seq_lib::to_multiset_contains;
        assert(s.contains(s[i]));
    }
    assert(swap_seq(s, i, j).to_multiset() =~= s.to_multiset());
}

/// The Fisher-Yates passes only rearrange entries.
pub proof fn lemma_shuffle_permutes<T>(state: u64, s: Seq<T>, i: int)
    requires
        i < s.len(),
    ensures
        shuffle_from(state, s, i).1.to_multiset() == s.to_multiset(),
        shuffle_from(state, s, i).1.len() == s.len(),
    decreases i,
{
    if i >= 1 {
        let next = xorshift_step(state);
        let j = range_draw(next, i + 1);
        lemma_swap_multiset(s, i, j);
        lemma_shuffle_permutes(next, swap_seq(s, i, j), i - 1);
    }
}

impl Rng64 {
    /// The generator's current state.
    pub closed spec fn state(&self) -> u64 {
        self.state
    }

    /// Generators never sit in the zero state, where xorshift is stuck.
    #[verifier::type_invariant]
    spec fn state_nonzero(&self) -> bool {
        self.state != 0
    }

    /// Seed a generator; the low bit is forced so the state is never zero.
    pub fn new(seed: u64) -> (r: Self)
        ensures
            r.state() == seed | 1u64,
    {
        assert((seed | 1u64) != 0u64) by (bit_vector);
        Rng64 { state: seed | 1 }
    }

    /// Advance the state by one xorshift step and return it.
    pub fn next_u64(&mut self) -> (x: u64)
        ensures
            x == xorshift_step(old(self).state()),
            final(self).state() == x,
    {
        proof {
            use_type_invariant(&*self);
            lemma_xorshift_nonzero(self.state);
        }
        let mut x = self.state;
        x = x ^ (x << 13u64);
        x = x ^ (x >> 7u64);
        x = x ^ (x << 17u64);
        self.state = x;
        x
    }

    /// A draw in `0..len`; `0` (without advancing) when `len` is zero.
    pub fn gen_range(&mut self, len: usize) -> (r: usize)
        ensures
            len == 0 ==> r == 0 && final(self).state() == old(self).state(),
            len > 0 ==> final(self).state() == xorshift_step(old(self).state()) && r == range_draw(
                final(self).state(),
                len as int,
            ),
            len > 0 ==> r < len,
    {
        if len == 0 {
            return 0;
        }
        let x = self.next_u64();
        #[verifier::truncate]
        let xs = x as usize;
        xs % len
    }

    /// Shuffle `items` in place (Fisher-Yates from the back).
    pub fn shuffle<T: Copy>(&mut self, items: &mut Vec<T>)
        ensures
            (final(self).state(), final(items)@) == shuffle_from(
                old(self).state(),
                old(items)@,
                old(items)@.len() - 1,
            ),
            final(items)@.to_multiset() == old(items)@.to_multiset(),
    {
        let len = items.len();
        let ghost s0 = items@;
        let ghost st0 = self.state();
        proof {
            lemma_shuffle_permutes(st0, s0, len - 1);
        }
        let mut i = len;
        while i > 1
            invariant
                1 <= i || len == 0,
                i <= len,
                items@.len() == len,
                shuffle_from(st0, s0, len - 1) == shuffle_from(self.state(), items@, i - 1),
            decreases i,
        {
            i = i - 1;
            let ghost before = items@;
            let j = self.gen_range(i + 1);
            let a = items[i];
            let b = items[j];
            items.set(i, b);
            items.set(j, a);
            assert(items@ =~= swap_seq(before, i as int, j as int));
        }
    }
}

} // verus!
