//! The 32-bit Mersenne Twister, and the draws and shuffles made with it.

use vstd::prelude::*;

verus! {

/// The generator: 624 words and the position of the next one.
#[derive(Debug)]
pub struct Mt19937 {
    pub mt: Vec<u32>,
    pub idx: usize,
}

/// The state of a generator.
pub ghost struct Twister {
    pub mt: Seq<u32>,
    pub idx: int,
}

/// The word that follows a word of the seed.
pub open spec fn seed_word(w: u32, i: int) -> u32 {
    ((1812433253int * (w ^ (w >> 30u32)) + i) % 0x1_0000_0000) as u32
}

/// The first `n` words that a seed gives.
pub open spec fn seeded(seed: u32, n: int) -> Seq<u32>
    decreases n,
{
    if n <= 0 {
        Seq::empty()
    } else if n == 1 {
        seq![seed]
    } else {
        let s = seeded(seed, n - 1);
        s.push(seed_word(s[n - 2], n - 1))
    }
}

/// The new word at a position, from the words there, behind it and 397 on.
pub open spec fn twist(a: u32, b: u32, c: u32) -> u32 {
    let y: u32 = (a & 0x8000_0000u32) | (b & 0x7fff_ffffu32);
    if y & 1u32 != 0 { (c ^ (y >> 1u32)) ^ 0x9908_b0dfu32 } else { c ^ (y >> 1u32) }
}

/// The words after the first `n` have been renewed, in place.
pub open spec fn twisted(mt: Seq<u32>, n: int) -> Seq<u32>
    decreases n,
{
    if n <= 0 {
        mt
    } else {
        let s = twisted(mt, n - 1);
        s.update(n - 1, twist(s[n - 1], s[n % 624], s[(n + 396) % 624]))
    }
}

/// The number made of a word.
pub open spec fn tempered(w: u32) -> u32 {
    let a: u32 = w ^ (w >> 11u32);
    let b: u32 = a ^ ((a << 7u32) & 0x9d2c_5680u32);
    let c: u32 = b ^ ((b << 15u32) & 0xefc6_0000u32);
    c ^ (c >> 18u32)
}

impl Twister {
    /// The generator has its 624 words.
    pub open spec fn wf(self) -> bool {
        self.mt.len() == 624 && 0 <= self.idx <= 624
    }

    /// The state from which the next word is read.
    pub open spec fn ready(self) -> Twister {
        if self.idx >= 624 { Twister { mt: twisted(self.mt, 624), idx: 0 } } else { self }
    }

    /// The next number.
    pub open spec fn value(self) -> u32 {
        tempered(self.ready().mt[self.ready().idx])
    }

    /// The state after a draw.
    pub open spec fn next(self) -> Twister {
        Twister { mt: self.ready().mt, idx: self.ready().idx + 1 }
    }

    /// The next number below a limit.
    pub open spec fn below(self, limit: int) -> int {
        self.value() as int % (if limit < 1 { 1 } else { limit })
    }
}

proof fn lemma_twisted_len(mt: Seq<u32>, n: int)
    requires
        n <= mt.len(),
    ensures
        twisted(mt, n).len() == mt.len(),
    decreases n,
{
    if n > 0 {
        lemma_twisted_len(mt, n - 1);
    }
}

/// A generator has its 624 words after every draw.
pub proof fn law_draws_keep_the_state(t: Twister)
    requires
        t.wf(),
    ensures
        t.next().wf(),
{
    lemma_twisted_len(t.mt, 624);
}

/// Two values of a list change places.
pub open spec fn swapped(v: Seq<usize>, i: int, j: int) -> Seq<usize> {
    v.update(i, v[j]).update(j, v[i])
}

/// A list after its places from `i` up to `n` each changed with a random place not behind it.
pub open spec fn shuffled(t: Twister, v: Seq<usize>, i: int, n: int) -> (Seq<usize>, Twister)
    decreases n - i,
{
    if i >= n {
        (v, t)
    } else {
        shuffled(t.next(), swapped(v, i, t.value() as int % (i + 1)), i + 1, n)
    }
}

proof fn lemma_shuffled(t: Twister, v: Seq<usize>, i: int, n: int)
    requires
        t.wf(),
        0 <= i,
        n <= v.len(),
    ensures
        shuffled(t, v, i, n).0.to_multiset() == v.to_multiset(),
        shuffled(t, v, i, n).0.len() == v.len(),
        shuffled(t, v, i, n).1.wf(),
    decreases n - i,
{
    if i < n {
        let r = t.value() as int % (i + 1);
        law_draws_keep_the_state(t);
        assert(0 <= r <= i) by (nonlinear_arith)
            requires r == t.value() as int % (i + 1), i >= 0;
        let w = swapped(v, i, r);
        lemma_shuffled(t.next(), w, i + 1, n);
        assert(w.to_multiset() =~= v.to_multiset()) by {
            vstd::seq_lib::to_multiset_update(v, i, v[r]);
            vstd::seq_lib::to_multiset_update(v.update(i, v[r]), r, v[i]);
            v.to_multiset_ensures();
            assert(v.to_multiset().count(v[i]) > 0) by {
                assert(v.contains(v[i]));
            }
        }
    }
}

/// A shuffle only changes the order: every value is still there, as often as before.
pub proof fn law_shuffle_rearranges(t: Twister, v: Seq<usize>)
    requires
        t.wf(),
    ensures
        shuffled(t, v, 1, v.len() as int).0.to_multiset() == v.to_multiset(),
        shuffled(t, v, 1, v.len() as int).1.wf(),
{
    lemma_shuffled(t, v, 1, v.len() as int);
}

impl Mt19937 {
    /// The state of the generator.
    pub open spec fn view(&self) -> Twister {
        Twister { mt: self.mt@, idx: self.idx as int }
    }

    /// The generator of a seed.
    pub fn new(seed: u32) -> (r: Mt19937)
        ensures
            r@ == (Twister { mt: seeded(seed, 624), idx: 624 }),
            r@.wf(),
    {
        let mut mt: Vec<u32> = Vec::new();
        mt.push(seed);
        assert(mt@ =~= seeded(seed, 1));
        let mut i: usize = 1;
        while i < 624
            invariant
                1 <= i <= 624,
                mt@.len() == i,
                mt@ == seeded(seed, i as int),
            decreases 624 - i,
        {
            let w: u32 = mt[i - 1];
            let x: u32 = w ^ (w >> 30u32);
            let m: u64 = 1812433253u64 * (x as u64);
            proof {
                assert(1812433253u64 * (x as u64) <= 1812433253u64 * 0xffff_ffffu64) by (nonlinear_arith)
                    requires x <= 0xffff_ffffu32;
            }
            let v: u32 = ((m + i as u64) % 0x1_0000_0000) as u32;
            mt.push(v);
            i = i + 1;
        }
        Mt19937 { mt, idx: 624 }
    }

    /// The next number.
    pub fn next_u32(&mut self) -> (r: u32)
        requires
            old(self)@.wf(),
        ensures
            final(self)@.wf(),
            r == old(self)@.value(),
            final(self)@ == old(self)@.next(),
    {
        let ghost m0 = self.mt@;
        if self.idx >= 624 {
            let mut i: usize = 0;
            while i < 624
                invariant
                    i <= 624,
                    self.mt@.len() == 624,
                    self.mt@ == twisted(m0, i as int),
                decreases 624 - i,
            {
                let a: u32 = self.mt[i];
                let b: u32 = self.mt[(i + 1) % 624];
                let c: u32 = self.mt[(i + 397) % 624];
                let y: u32 = (a & 0x8000_0000u32) | (b & 0x7fff_ffffu32);
                let mut v: u32 = c ^ (y >> 1u32);
                if y & 1u32 != 0 {
                    v = v ^ 0x9908_b0dfu32;
                }
                self.mt.set(i, v);
                i = i + 1;
            }
            self.idx = 0;
        }
        let w: u32 = self.mt[self.idx];
        self.idx = self.idx + 1;
        let a: u32 = w ^ (w >> 11u32);
        let b: u32 = a ^ ((a << 7u32) & 0x9d2c_5680u32);
        let c: u32 = b ^ ((b << 15u32) & 0xefc6_0000u32);
        c ^ (c >> 18u32)
    }

    /// The next number below a limit; a number is drawn whatever the limit is.
    pub fn get_random(&mut self, limit: usize) -> (r: usize)
        requires
            old(self)@.wf(),
        ensures
            final(self)@.wf(),
            final(self)@ == old(self)@.next(),
            r == old(self)@.below(limit as int),
            r < limit || r == 0,
    {
        let v: u64 = self.next_u32() as u64;
        let m: u64 = if limit < 1 { 1 } else { limit as u64 };
        (v % m) as usize
    }

    /// A generator that draws the same numbers.
    pub fn copied(&self) -> (r: Mt19937)
        ensures
            r@ == self@,
    {
        let mut mt: Vec<u32> = Vec::new();
        let mut k: usize = 0;
        while k < self.mt.len()
            invariant
                k <= self.mt@.len(),
                mt@ == self.mt@.subrange(0, k as int),
            decreases self.mt@.len() - k,
        {
            mt.push(self.mt[k]);
            k = k + 1;
            assert(mt@ =~= self.mt@.subrange(0, k as int));
        }
        assert(mt@ =~= self.mt@);
        Mt19937 { mt, idx: self.idx }
    }

    /// Put a list in a random order.
    pub fn shuffle(&mut self, v: &mut Vec<usize>)
        requires
            old(self)@.wf(),
        ensures
            (final(v)@, final(self)@) == shuffled(old(self)@, old(v)@, 1, old(v)@.len() as int),
            final(v)@.len() == old(v)@.len(),
            final(v)@.to_multiset() == old(v)@.to_multiset(),
            final(self)@.wf(),
    {
        let ghost t0 = self@;
        let ghost v0 = v@;
        let n: usize = v.len();
        let mut i: usize = 1;
        while i < n
            invariant
                n == v@.len(),
                v0.len() == n,
                1 <= i,
                i <= n || n == 0,
                self@.wf(),
                shuffled(self@, v@, i as int, n as int) == shuffled(t0, v0, 1, n as int),
            decreases n - i,
        {
            let d: u64 = self.next_u32() as u64;
            let r: usize = (d % (i as u64 + 1)) as usize;
            let a: usize = v[i];
            let b: usize = v[r];
            v.set(i, b);
            v.set(r, a);
            i = i + 1;
        }
        proof {
            law_shuffle_rearranges(t0, v0);
        }
    }
}

} // verus!
