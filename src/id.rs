//! Time-ordered 128-bit identifiers for watch registrations.
//!
//! An identifier packs, from the high bits down: the wall-clock time in
//! nanoseconds since the Unix epoch (its low 80 bits), a node discriminator
//! drawn once per process, a thread discriminator drawn once per generator,
//! and a 16-bit counter that wraps.

use vstd::prelude::*;
use vstd::arithmetic::div_mod::lemma_fundamental_div_mod_converse;

verus! {

/// 2^16.
pub const FIELD: u128 = 0x1_0000;

/// The number of distinct time stamps an identifier can hold: 2^80.
pub const STAMP_RANGE: u128 = 0x1_0000_0000_0000_0000_0000;

/// The identifier built from a time stamp in nanoseconds, the node and thread
/// discriminators, and a counter value.
pub open spec fn compose_id(stamp: int, node: u16, thread: u16, counter: u16) -> int {
    (stamp % (STAMP_RANGE as int)) * 0x1_0000_0000_0000 + node as int * 0x1_0000_0000
        + thread as int * 0x1_0000 + counter as int
}

/// Packs a time stamp, the discriminators and a counter value into an identifier.
pub fn compose(stamp: u128, node: u16, thread: u16, counter: u16) -> (r: u128)
    ensures
        r == compose_id(stamp as int, node, thread, counter),
{
    let low = stamp % STAMP_RANGE;
    assert(low * 0x1_0000_0000_0000 <= 0xffff_ffff_ffff_ffff_ffff_0000_0000_0000) by (nonlinear_arith)
        requires
            low < 0x1_0000_0000_0000_0000_0000,
    ;
    low * 0x1_0000_0000_0000 + (node as u128) * 0x1_0000_0000 + (thread as u128) * FIELD
        + counter as u128
}

/// Splits `x` into quotient and remainder by `d`, given both.
proof fn lemma_split(x: int, d: int, q: int, r: int)
    requires
        0 < d,
        0 <= r < d,
        x == q * d + r,
    ensures
        q == x / d,
        r == x % d,
{
    lemma_fundamental_div_mod_converse(x, d, q, r);
}

/// Two identifiers are equal only when they were built from the same node and
/// thread discriminators, the same counter value and the same time stamp (up
/// to the 80 bits kept): identifiers from generators with different
/// discriminators never collide, whatever their clocks say.
pub proof fn lemma_id_fields(s1: int, n1: u16, t1: u16, c1: u16, s2: int, n2: u16, t2: u16, c2: u16)
    requires
        compose_id(s1, n1, t1, c1) == compose_id(s2, n2, t2, c2),
    ensures
        n1 == n2,
        t1 == t2,
        c1 == c2,
        s1 % (STAMP_RANGE as int) == s2 % (STAMP_RANGE as int),
{
    let id = compose_id(s1, n1, t1, c1);
    let low1 = n1 as int * 0x1_0000_0000 + t1 as int * 0x1_0000 + c1 as int;
    let low2 = n2 as int * 0x1_0000_0000 + t2 as int * 0x1_0000 + c2 as int;
    lemma_split(id, 0x1_0000_0000_0000, s1 % (STAMP_RANGE as int), low1);
    lemma_split(id, 0x1_0000_0000_0000, s2 % (STAMP_RANGE as int), low2);
    let mid1 = n1 as int * 0x1_0000 + t1 as int;
    let mid2 = n2 as int * 0x1_0000 + t2 as int;
    lemma_split(low1, 0x1_0000, mid1, c1 as int);
    lemma_split(low2, 0x1_0000, mid2, c2 as int);
    lemma_split(mid1, 0x1_0000, n1 as int, t1 as int);
    lemma_split(mid2, 0x1_0000, n2 as int, t2 as int);
}

/// Within one generator, identifiers increase: with a later time stamp (below
/// 2^80 nanoseconds since the epoch, which lasts until the year 40000), or
/// with the same stamp and a higher counter value.
pub proof fn lemma_ids_increase(s1: int, s2: int, node: u16, thread: u16, c1: u16, c2: u16)
    requires
        0 <= s1,
        s2 < STAMP_RANGE as int,
        s1 < s2 || (s1 == s2 && c1 < c2),
    ensures
        compose_id(s1, node, thread, c1) < compose_id(s2, node, thread, c2),
{
    assert(s1 % (STAMP_RANGE as int) == s1) by {
        lemma_split(s1, STAMP_RANGE as int, 0, s1);
    }
    assert(s2 % (STAMP_RANGE as int) == s2) by {
        lemma_split(s2, STAMP_RANGE as int, 0, s2);
    }
    if s1 < s2 {
        assert(s1 * 0x1_0000_0000_0000 + 0x1_0000_0000_0000 <= s2 * 0x1_0000_0000_0000)
            by (nonlinear_arith)
            requires
                s1 < s2,
        ;
    }
}

/// Hands out identifiers for one thread of work.
pub struct IdGenerator {
    /// The process-wide node discriminator.
    pub node: u16,
    /// This generator's own discriminator.
    pub thread: u16,
    /// The counter, wrapping at 2^16.
    pub counter: u16,
}

/// Relies on `rand::random`: a uniformly drawn 16-bit number, of which nothing
/// is promised.
#[verifier::external_body]
fn draw_u16() -> (r: u16) {
    rand::random::<u16>()
}

/// Relies on chrono's `From<SystemTime>` for `DateTime<Utc>`, with
/// `DateTime::timestamp` and `DateTime::timestamp_subsec_nanos`: the current
/// time as whole seconds since the Unix epoch, negative for a clock set
/// before it, and the nanoseconds past that second. Unlike `Utc::now`, the
/// conversion does not fail on a clock before the epoch; it fails only for a
/// clock more than about 262,000 years away from it, outside chrono's range.
/// The clock is outside this library, so nothing is promised of the values.
#[verifier::external_body]
fn clock_now() -> (r: (i64, u32)) {
    let now = chrono::DateTime::<chrono::Utc>::from(std::time::SystemTime::now());
    (now.timestamp(), now.timestamp_subsec_nanos())
}

/// A node discriminator drawn at random, to be taken once per process.
pub fn random_node() -> (r: u16) {
    draw_u16()
}

impl IdGenerator {
    /// A generator with the given discriminators, its counter at zero.
    pub fn new(node: u16, thread: u16) -> (r: IdGenerator)
        ensures
            r.node == node,
            r.thread == thread,
            r.counter == 0,
    {
        IdGenerator { node, thread, counter: 0 }
    }

    /// A generator for the given node with a thread discriminator drawn at random.
    pub fn for_thread(node: u16) -> (r: IdGenerator)
        ensures
            r.node == node,
            r.counter == 0,
    {
        IdGenerator { node, thread: draw_u16(), counter: 0 }
    }

    /// The identifier for the time stamp `stamp` (nanoseconds since the
    /// epoch); the counter then moves on by one, wrapping.
    pub fn generate_at(&mut self, stamp: u128) -> (r: u128)
        ensures
            r == compose_id(stamp as int, old(self).node, old(self).thread, old(self).counter),
            final(self).node == old(self).node,
            final(self).thread == old(self).thread,
            final(self).counter as int == (old(self).counter as int + 1) % 0x1_0000,
    {
        let counter = self.counter;
        self.counter = self.counter.wrapping_add(1);
        compose(stamp, self.node, self.thread, counter)
    }

    /// A fresh identifier stamped with the current time. A clock set before
    /// the epoch counts as the epoch itself.
    pub fn generate(&mut self) -> (r: u128)
        ensures
            exists|stamp: int|
                0 <= stamp && r == compose_id(
                    stamp,
                    old(self).node,
                    old(self).thread,
                    old(self).counter,
                ),
            final(self).node == old(self).node,
            final(self).thread == old(self).thread,
            final(self).counter as int == (old(self).counter as int + 1) % 0x1_0000,
    {
        let (secs, nanos) = clock_now();
        let stamp: u128 = if secs < 0 {
            0
        } else {
            (secs as u128) * 1_000_000_000 + nanos as u128
        };
        self.generate_at(stamp)
    }
}

} // verus!
