use vstd::prelude::*;

verus! {

/// One step of the xorshift64 generator (shifts 13, 7, 17).
pub open spec fn xorshift64(x: u64) -> u64 {
    let a = x ^ (x << 13u64);
    let b = a ^ (a >> 7u64);
    b ^ (b << 17u64)
}

/// The state after `n` steps of the generator, starting from `x`.
pub open spec fn xorshift64_iter(x: u64, n: nat) -> u64
    decreases n,
{
    if n == 0 {
        x
    } else {
        xorshift64_iter(xorshift64(x), (n - 1) as nat)
    }
}

/// A step of xorshift64 never maps a non-zero state to zero.
pub proof fn lemma_xorshift64_nonzero(x: u64)
    requires
        x != 0,
    ensures
        xorshift64(x) != 0,
{
    assert(x != 0 ==> (x ^ (x << 13u64)) != 0) by (bit_vector);
    let a = x ^ (x << 13u64);
    assert(a != 0 ==> (a ^ (a >> 7u64)) != 0) by (bit_vector);
    let b = a ^ (a >> 7u64);
    assert(b != 0 ==> (b ^ (b << 17u64)) != 0) by (bit_vector);
}

/// `xorshift64_iter` taken one step further is one more generator step.
pub proof fn lemma_xorshift64_iter_step(x: u64, n: nat)
    ensures
        xorshift64_iter(x, n + 1) == xorshift64(xorshift64_iter(x, n)),
    decreases n,
{
    assert(xorshift64_iter(x, n + 1) == xorshift64_iter(xorshift64(x), n));
    if n > 0 {
        lemma_xorshift64_iter_step(xorshift64(x), (n - 1) as nat);
        assert(xorshift64_iter(x, n) == xorshift64_iter(xorshift64(x), (n - 1) as nat));
    } else {
        assert(xorshift64_iter(xorshift64(x), 0) == xorshift64(x));
    }
}

/// Any number of generator steps from a non-zero state stays non-zero.
pub proof fn lemma_xorshift64_iter_nonzero(x: u64, n: nat)
    requires
        x != 0,
    ensures
        xorshift64_iter(x, n) != 0,
    decreases n,
{
    if n > 0 {
        lemma_xorshift64_nonzero(x);
        lemma_xorshift64_iter_nonzero(xorshift64(x), (n - 1) as nat);
    }
}

/// `s` with the elements at `i` and `j` exchanged.
pub open spec fn swap_seq<T>(s: Seq<T>, i: int, j: int) -> Seq<T> {
    s.update(i, s[j]).update(j, s[i])
}

/// Fisher–Yates shuffle of `s` for positions `i, i-1, ..., 1`, drawing the
/// swap partner of position `k` as the next generator output modulo `k + 1`,
/// starting from generator state `x`.
pub open spec fn shuffle_spec<T>(s: Seq<T>, x: u64, i: int) -> Seq<T>
    decreases i,
{
    if i < 1 {
        s
    } else {
        let y = xorshift64(x);
        let j = (y as usize) as int % (i + 1);
        shuffle_spec(swap_seq(s, i, j), y, i - 1)
    }
}

/// Exchanging two elements keeps the multiset of elements.
pub proof fn lemma_swap_to_multiset<T>(s: Seq<T>, i: int, j: int)
    requires
        0 <= i < s.len(),
        0 <= j < s.len(),
    ensures
        swap_seq(s, i, j).to_multiset() == s.to_multiset(),
{
    broadcast use vstd::seq_lib::group_to_multiset_ensures;
    let t = s.update(i, s[j]);
    vstd::seq_lib::to_multiset_update(s, i, s[j]);
    vstd::seq_lib::to_multiset_update(t, j, s[i]);
    assert(t[j] == s[j]);
    assert(swap_seq(s, i, j).to_multiset() =~= s.to_multiset());
}

/// The shuffle only permutes: the result has the same elements, with the
/// same multiplicities, as the input.
pub proof fn lemma_shuffle_is_permutation<T>(s: Seq<T>, x: u64, i: int)
    requires
        i < s.len(),
    ensures
        shuffle_spec(s, x, i).to_multiset() == s.to_multiset(),
        shuffle_spec(s, x, i).len() == s.len(),
    decreases i,
{
    if i >= 1 {
        let y = xorshift64(x);
        let j = (y as usize) as int % (i + 1);
        lemma_swap_to_multiset(s, i, j);
        lemma_shuffle_is_permutation(swap_seq(s, i, j), y, i - 1);
    }
}

/// The steps for positions `i, ..., 1` touch only the first `i + 1`
/// elements: cutting the sequence to any longer prefix first gives the
/// same prefix, and the elements after position `i` stay where they are.
proof fn lemma_shuffle_prefix<T>(s: Seq<T>, x: u64, i: int, m: int)
    requires
        0 <= i,
        i + 1 <= m <= s.len(),
    ensures
        shuffle_spec(s, x, i).len() == s.len(),
        shuffle_spec(s, x, i).take(m) == shuffle_spec(s.take(m), x, i),
        forall|k: int| i < k < s.len() ==> #[trigger] shuffle_spec(s, x, i)[k] == s[k],
    decreases i,
{
    if i >= 1 {
        let y = xorshift64(x);
        let j = (y as usize) as int % (i + 1);
        assert(swap_seq(s, i, j).take(m) =~= swap_seq(s.take(m), i, j));
        lemma_shuffle_prefix(swap_seq(s, i, j), y, i - 1, m);
        lemma_shuffle_is_permutation(s.take(m), x, i);
    } else {
        lemma_shuffle_is_permutation(s, x, i);
    }
}

/// Fisher–Yates, one position at a time: shuffling a sequence of length
/// `n >= 2` from state `x` puts at the last position the element at
/// `y % n`, where `y` is the next generator output, and shuffles the first
/// `n - 1` positions of the sequence with that element moved out of the
/// way, from state `y`. A sequence of length 0 or 1 is left as it is.
/// Together these fix the shuffle of every sequence from every state.
pub proof fn lemma_shuffle_step<T>(s: Seq<T>, x: u64)
    ensures
        s.len() <= 1 ==> shuffle_spec(s, x, s.len() - 1) == s,
        s.len() >= 2 ==> {
            let n = s.len() as int;
            let y = xorshift64(x);
            let j = (y as usize) as int % n;
            &&& shuffle_spec(s, x, n - 1).len() == n
            &&& shuffle_spec(s, x, n - 1)[n - 1] == s[j]
            &&& shuffle_spec(s, x, n - 1).take(n - 1) == shuffle_spec(
                s.update(j, s[n - 1]).take(n - 1),
                y,
                n - 2,
            )
        },
{
    if s.len() >= 2 {
        let n = s.len() as int;
        let y = xorshift64(x);
        let j = (y as usize) as int % n;
        let t = swap_seq(s, n - 1, j);
        assert(shuffle_spec(s, x, n - 1) == shuffle_spec(t, y, n - 2));
        lemma_shuffle_prefix(t, y, n - 2, n - 1);
        assert(t.take(n - 1) =~= s.update(j, s[n - 1]).take(n - 1));
        assert(t[n - 1] == s[j]);
    }
}

/// A dependency-free pseudo-random generator (xorshift64).
///
/// Its state is never 0, the one fixed point of the xorshift64 step.
pub struct Rng(u64);

impl Rng {
    /// The state of every generator is non-zero.
    #[verifier::type_invariant]
    spec fn state_nonzero(&self) -> bool {
        self.0 != 0
    }

    /// Two generators in the same state produce the same next `n` states,
    /// the `n`-th being the `n`-th output: the sequence depends on the state
    /// alone.
    pub proof fn lemma_same_state_same_sequence(&self, other: &Rng, n: nat)
        requires
            self.state() == other.state(),
        ensures
            xorshift64_iter(self.state(), n) == xorshift64_iter(other.state(), n),
            self.state() != 0 ==> xorshift64_iter(self.state(), n) != 0,
    {
        if self.state() != 0 {
            lemma_xorshift64_iter_nonzero(self.state(), n);
        }
    }
    /// The current internal state.
    pub closed spec fn state(&self) -> u64 {
        self.0
    }

    /// Creates a generator; a zero seed is replaced by 1 so that the state
    /// is never the fixed point 0.
    pub fn new(seed: u64) -> (r: Rng)
        ensures
            r.state() == (if seed >= 1 { seed } else { 1 }),
            r.state() != 0,
    {
        if seed >= 1 {
            Rng(seed)
        } else {
            Rng(1)
        }
    }

    /// Advances the generator by one xorshift64 step and returns the new state.
    pub fn u64(&mut self) -> (r: u64)
        ensures
            r == xorshift64(old(self).state()),
            final(self).state() == r,
            r != 0,
    {
        proof {
            use_type_invariant(&*self);
            lemma_xorshift64_nonzero(self.0);
        }
        let x = self.0;
        let a = x ^ (x << 13u64);
        let b = a ^ (a >> 7u64);
        let c = b ^ (b << 17u64);
        self.0 = c;
        c
    }

    /// The 53 high bits of the next output: the numerator of a uniform
    /// sample in `[0, 1)` with denominator `2^53`.
    pub fn unit_numerator(&mut self) -> (r: u64)
        ensures
            r == xorshift64(old(self).state()) >> 11u64,
            r < 0x20_0000_0000_0000,
            final(self).state() == xorshift64(old(self).state()),
            final(self).state() != 0,
    {
        let x = self.u64();
        assert(x >> 11u64 < 0x20_0000_0000_0000u64) by (bit_vector);
        x >> 11u64
    }

    /// Shuffles `v` in place (Fisher–Yates from the back), consuming
    /// `v.len() - 1` generator outputs.
    pub fn shuffle<T>(&mut self, v: &mut Vec<T>)
        ensures
            final(v)@ == shuffle_spec(old(v)@, old(self).state(), old(v)@.len() - 1),
            final(v)@.to_multiset() == old(v)@.to_multiset(),
            final(v)@.len() == old(v)@.len(),
            final(self).state() == xorshift64_iter(
                old(self).state(),
                if old(v)@.len() >= 1 { (old(v)@.len() - 1) as nat } else { 0 },
            ),
            final(self).state() != 0,
    {
        proof {
            use_type_invariant(&*self);
            lemma_shuffle_is_permutation(old(v)@, old(self).state(), old(v)@.len() - 1);
        }
        let n = v.len();
        if n <= 1 {
            return;
        }
        let mut i: usize = n - 1;
        while i > 0
            invariant
                v@.len() == n,
                n >= 2,
                i < n,
                shuffle_spec(v@, self.0, i as int) == shuffle_spec(
                    old(v)@,
                    old(self).state(),
                    n - 1,
                ),
                self.0 == xorshift64_iter(old(self).state(), (n - 1 - i) as nat),
            decreases i,
        {
            let r = self.u64();
            let j = (r as usize) % (i + 1);
            swap_elements(v, i, j);
            proof {
                lemma_xorshift64_iter_step(old(self).state(), (n - 1 - i) as nat);
            }
            i = i - 1;
        }
        proof {
            use_type_invariant(&*self);
        }
    }
}

/// Exchanges two elements of a vector with `<[T]>::swap` from std, which
/// (its documentation says) swaps the elements at the two positions and
/// panics if either is out of bounds; the `requires` excludes the panic.
#[verifier::external_body]
fn swap_elements<T>(v: &mut Vec<T>, i: usize, j: usize)
    requires
        i < old(v)@.len(),
        j < old(v)@.len(),
    ensures
        final(v)@ == swap_seq(old(v)@, i as int, j as int),
{
    v.swap(i, j);
}

} // verus!
