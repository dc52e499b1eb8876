use vstd::prelude::*;

verus! {

/// The odd constant mixed into a fresh seed, and the state used in place of a
/// zero state (xorshift maps zero to zero).
pub const GOLDEN_GAMMA: u64 = 0x9E37_79B9_7F4A_7C15;

/// One round of the 13/7/17 xorshift step on a 64-bit state.
pub open spec fn xorshift(x: u64) -> u64 {
    let a = x ^ (x << 13u64);
    let b = a ^ (a >> 7u64);
    b ^ (b << 17u64)
}

/// The state that a generator in state `s` moves to, which is also the value
/// that it hands out.
pub open spec fn next_state(s: u64) -> u64 {
    xorshift(if s == 0 { GOLDEN_GAMMA } else { s })
}

/// The seed taken from a clock reading in nanoseconds since the Unix epoch:
/// the reading cut to its low 64 bits, plus the golden-ratio constant
/// (wrapping). A clock set before the epoch reads as zero.
pub open spec fn seed_from_nanos(nanos: Option<u128>) -> u64 {
    let n: u64 = match nanos {
        Some(v) => (v % 0x1_0000_0000_0000_0000u128) as u64,
        None => 0u64,
    };
    ((n + GOLDEN_GAMMA) % 0x1_0000_0000_0000_0000int) as u64
}

/// A xorshift step never maps a nonzero state to zero.
pub proof fn lemma_xorshift_nonzero(x: u64)
    requires
        x != 0,
    ensures
        xorshift(x) != 0,
{
    assert(x != 0 ==> (x ^ (x << 13u64)) != 0) by (bit_vector);
    let a = x ^ (x << 13u64);
    assert(a != 0 ==> (a ^ (a >> 7u64)) != 0) by (bit_vector);
    let b = a ^ (a >> 7u64);
    assert(b != 0 ==> (b ^ (b << 17u64)) != 0) by (bit_vector);
}

/// Whatever state a generator is in, the value it hands out next is not
/// zero, so it never falls into the all-zero state that xorshift cannot
/// leave.
pub proof fn lemma_next_state_nonzero(s: u64)
    ensures
        next_state(s) != 0,
{
    lemma_xorshift_nonzero(if s == 0 { GOLDEN_GAMMA } else { s });
}

/// A xorshift pseudo-random number generator.
#[derive(Clone, Copy)]
pub struct SimpleRng(u64);

impl View for SimpleRng {
    type V = u64;

    closed spec fn view(&self) -> u64 {
        self.0
    }
}

#[verifier::external_type_specification]
#[verifier::external_body]
pub struct ExSystemTime(std::time::SystemTime);

#[verifier::external_type_specification]
#[verifier::external_body]
pub struct ExSystemTimeError(std::time::SystemTimeError);

/// `std::time::SystemTime::now`: the system clock's current reading.
/// Nothing is promised of it: it is whatever the clock says.
#[verifier::external_body]
fn clock_now() -> (r: std::time::SystemTime) {
    std::time::SystemTime::now()
}

/// `SystemTime::duration_since` the Unix epoch: the time elapsed since
/// then, or an error when the reading is earlier. Nothing is promised of
/// which: it depends on the clock's reading.
#[verifier::external_body]
fn since_epoch(t: &std::time::SystemTime) -> (r: Result<core::time::Duration, std::time::SystemTimeError>) {
    t.duration_since(std::time::UNIX_EPOCH)
}

/// `Duration::as_nanos`: the duration in whole nanoseconds. The duration is
/// opaque here, so nothing is stated of the value.
#[verifier::external_body]
fn duration_nanos(d: &core::time::Duration) -> (r: u128) {
    d.as_nanos()
}

impl SimpleRng {
    /// A generator in the given state.
    pub fn from_state(state: u64) -> (r: Self)
        ensures
            r@ == state,
    {
        SimpleRng(state)
    }

    /// The generator's current state.
    pub fn state(&self) -> (r: u64)
        ensures
            r == self@,
    {
        self.0
    }

    /// The generator seeded from a clock reading (see `seed_from_nanos`).
    pub fn from_nanos(nanos: Option<u128>) -> (r: Self)
        ensures
            r@ == seed_from_nanos(nanos),
    {
        let seed: u64 = match nanos {
            Some(v) => (v % 0x1_0000_0000_0000_0000u128) as u64,
            None => 0u64,
        };
        SimpleRng(seed.wrapping_add(GOLDEN_GAMMA))
    }

    /// A generator seeded from the current time.
    pub fn seed_from_instant() -> (r: Self)
        ensures
            exists|n: Option<u128>| r@ == seed_from_nanos(n),
    {
        let now = clock_now();
        let nanos = match since_epoch(&now) {
            Ok(d) => Some(duration_nanos(&d)),
            Err(_) => None,
        };
        SimpleRng::from_nanos(nanos)
    }

    /// Advances the generator one step and returns its new state.
    pub fn next_u64(&mut self) -> (r: u64)
        ensures
            r == next_state(old(self)@),
            final(self)@ == r,
    {
        let mut x = self.0;
        if x == 0 {
            x = GOLDEN_GAMMA;
        }
        x ^= x << 13u64;
        x ^= x >> 7u64;
        x ^= x << 17u64;
        self.0 = x;
        x
    }

    /// Advances the generator one step and returns the low 32 bits of its
    /// new state.
    pub fn next_u32(&mut self) -> (r: u32)
        ensures
            r as int == next_state(old(self)@) as int % 0x1_0000_0000,
            final(self)@ == next_state(old(self)@),
    {
        let x = self.next_u64();
        let low = x & 0xFFFF_FFFFu64;
        assert(low == x % 0x1_0000_0000) by (bit_vector)
            requires
                low == x & 0xFFFF_FFFFu64,
        ;
        low as u32
    }

    /// A value in `min..max` (`max` excluded): `min` plus the next state
    /// reduced modulo the width of the range. When the range is empty
    /// (`min >= max`) it returns `min` and leaves the generator as it was.
    pub fn next_range(&mut self, min: usize, max: usize) -> (r: usize)
        ensures
            min >= max ==> r == min && final(self)@ == old(self)@,
            min < max ==> {
                &&& final(self)@ == next_state(old(self)@)
                &&& r as int == min + next_state(old(self)@) as int % (max - min)
                &&& min <= r < max
            },
    {
        if min >= max {
            return min;
        }
        let range = (max - min) as u64;
        let x = self.next_u64();
        let off = x % range;
        min + off as usize
    }
}

} // verus!
