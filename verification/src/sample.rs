//! A small xorshift64* generator and weighted sampling with replacement.
use vstd::prelude::*;
use crate::normalize::{pairs_view, views};

verus! {

/// The multiplier applied to the state to produce each output.
pub const OUTPUT_MULTIPLIER: u64 = 0x2545F4914F6CDD1D;

/// The state used instead of a zero seed, for which xorshift would stay at zero.
pub const NONZERO_STATE_FOR_ZERO_SEED: u64 = 0x2545F4914F6CDD1D;

/// The seed used when the system clock reads earlier than the Unix epoch.
pub const CLOCK_FALLBACK_SEED: u64 = 0x9E3779B97F4A7C15;

/// Small xorshift64* generator; not suitable for anything security-sensitive.
pub struct Rng {
    state: u64,
}

impl View for Rng {
    type V = u64;

    closed spec fn view(&self) -> u64 {
        self.state
    }
}

/// The state a seed starts the generator in.
pub open spec fn seeded_state(seed: u64) -> u64 {
    if seed == 0 {
        NONZERO_STATE_FOR_ZERO_SEED
    } else {
        seed
    }
}

/// One xorshift step.
pub open spec fn xorshift(x: u64) -> u64 {
    let a = x ^ (x >> 12u64);
    let b = a ^ (a << 25u64);
    b ^ (b >> 27u64)
}

/// The output drawn from a freshly stepped state.
pub open spec fn scramble(x: u64) -> u64 {
    x.wrapping_mul(OUTPUT_MULTIPLIER)
}

/// The state after `k` steps from `s`.
pub open spec fn state_after(s: u64, k: nat) -> u64
    decreases k,
{
    if k == 0 {
        s
    } else {
        xorshift(state_after(s, (k - 1) as nat))
    }
}

impl Rng {
    /// Seed explicitly, so that a sequence can be reproduced.
    pub fn from_seed(seed: u64) -> (r: Rng)
        ensures
            r@ == seeded_state(seed),
    {
        let state = if seed == 0 {
            NONZERO_STATE_FOR_ZERO_SEED
        } else {
            seed
        };
        Rng { state }
    }

    /// Seed from a reading of the system clock: its nanoseconds since the
    /// Unix epoch (truncated to 64 bits), or a fixed seed when the clock reads
    /// earlier than the epoch.
    pub fn from_clock(nanos_since_epoch: Option<u128>) -> (r: Rng)
        ensures
            r@ == seeded_state(
                match nanos_since_epoch {
                    Some(n) => n as u64,
                    None => CLOCK_FALLBACK_SEED,
                },
            ),
    {
        let seed = match nanos_since_epoch {
            Some(n) => n as u64,
            None => CLOCK_FALLBACK_SEED,
        };
        Rng::from_seed(seed)
    }

    /// Seed from the system clock.
    pub fn from_entropy() -> (r: Rng)
        ensures
            r@ != 0,
    {
        let now = system_time_now();
        let reading = match since_unix_epoch(&now) {
            Some(d) => Some(duration_as_nanos(&d)),
            None => None,
        };
        Rng::from_clock(reading)
    }

    fn next_u64(&mut self) -> (r: u64)
        ensures
            final(self)@ == xorshift(old(self)@),
            r == scramble(final(self)@),
            old(self)@ != 0 ==> final(self)@ != 0,
    {
        proof {
            if self.state != 0 {
                law_xorshift_keeps_nonzero(self.state);
            }
        }
        let mut x = self.state;
        x ^= x >> 12;
        x ^= x << 25;
        x ^= x >> 27;
        self.state = x;
        x.wrapping_mul(OUTPUT_MULTIPLIER)
    }
}

/// Calls `SystemTime::now`. Nothing is promised of the reading.
#[verifier::external_body]
fn system_time_now() -> std::time::SystemTime {
    std::time::SystemTime::now()
}

/// Calls `SystemTime::duration_since` with the Unix epoch; `None` when the time
/// is earlier than the epoch. Nothing is promised of the duration.
#[verifier::external_body]
fn since_unix_epoch(t: &std::time::SystemTime) -> Option<core::time::Duration> {
    t.duration_since(std::time::UNIX_EPOCH).ok()
}

/// Calls `Duration::as_nanos`. Nothing is promised of the number.
#[verifier::external_body]
fn duration_as_nanos(d: &core::time::Duration) -> u128 {
    d.as_nanos()
}

#[verifier::external_type_specification]
#[verifier::external_body]
pub struct ExSystemTime(std::time::SystemTime);

// ---------------------------------------------------------------------------
// Scaling a random draw to a position in [0, total)
// ---------------------------------------------------------------------------

/// 2^53: values below it have at most 53 significant bits, the precision of an `f64`.
pub open spec fn precision_limit() -> nat {
    9007199254740992
}

pub open spec fn two_to(e: nat) -> nat
    decreases e,
{
    if e == 0 {
        1
    } else {
        2 * two_to((e - 1) as nat)
    }
}

/// How many times `x` must be halved before it is below 2^53.
pub open spec fn excess_bits(x: nat) -> nat
    decreases x,
{
    if x < precision_limit() {
        0
    } else {
        1 + excess_bits(x / 2)
    }
}

/// `x` rounded to 53 significant bits, ties to even: the value of `x`
/// converted to an `f64`.
pub open spec fn round_to_f64(x: nat) -> nat {
    let e = excess_bits(x);
    let unit = two_to(e);
    let q = x / unit;
    let rem = x % unit;
    let rounded = if 2 * rem > unit || (2 * rem == unit && q % 2 == 1) {
        q + 1
    } else {
        q
    };
    rounded * unit
}

/// The position in `[0, total)` that a draw `r` selects: the top 53 bits of `r`
/// as a fraction of 2^53, multiplied by `total` in double precision, rounded
/// down, and capped at `total - 1`.
pub open spec fn draw_position(r: u64, total: nat) -> nat {
    let fraction = r as nat / 2048;
    let scaled = round_to_f64(fraction * round_to_f64(total)) / precision_limit();
    if scaled < total - 1 {
        scaled
    } else {
        (total - 1) as nat
    }
}

proof fn lemma_two_to_pos(e: nat)
    ensures
        two_to(e) >= 1,
        two_to(e) > e,
    decreases e,
{
    if e > 0 {
        lemma_two_to_pos((e - 1) as nat);
    }
}

fn round_f64(x: u128) -> (r: u128)
    requires
        x < 0x0100_0000_0000_0000_0000_0000_0000_0000,
    ensures
        r == round_to_f64(x as nat),
        r <= 2 * x,
{
    let limit: u128 = 9007199254740992;
    let mut q: u128 = x;
    let mut e: u128 = 0;
    let mut unit: u128 = 1;
    while q >= limit
        invariant
            limit == precision_limit(),
            x < 0x0100_0000_0000_0000_0000_0000_0000_0000,
            unit == two_to(e as nat),
            q == x as nat / two_to(e as nat),
            excess_bits(x as nat) == e + excess_bits(q as nat),
            unit * q <= x,
            e > 0 ==> q >= limit / 2,
            e < unit,
        decreases q,
    {
        proof {
            lemma_two_to_pos(e as nat);
            vstd::arithmetic::div_mod::lemma_div_denominator(x as int, two_to(e as nat) as int, 2);
            assert(two_to(e as nat) * 2 == two_to((e + 1) as nat));
            assert(unit * 2 * (q / 2) <= unit * q) by (nonlinear_arith)
                requires
                    unit >= 1,
            ;
            assert(unit * 2 <= x) by (nonlinear_arith)
                requires
                    unit * q <= x,
                    q >= 2,
            ;
        }
        q = q / 2;
        e = e + 1;
        unit = unit * 2;
    }
    proof {
        lemma_two_to_pos(e as nat);
    }
    proof {
        if e > 0 {
            assert(unit <= x) by (nonlinear_arith)
                requires
                    unit * q <= x,
                    q >= 1,
            ;
        }
    }
    let rem = x % unit;
    let rounded = if 2 * rem > unit || (2 * rem == unit && q % 2 == 1) {
        q + 1
    } else {
        q
    };
    proof {
        assert(x == unit * q + rem) by {
            vstd::arithmetic::div_mod::lemma_fundamental_div_mod(x as int, unit as int);
        }
        if e > 0 {
            assert(unit * limit <= 2 * x) by (nonlinear_arith)
                requires
                    unit * q <= x,
                    q >= limit / 2,
                    limit == 9007199254740992,
            ;
        }
        if e == 0 {
            assert(rounded == x);
        } else {
            assert(rounded * unit <= 2 * x) by (nonlinear_arith)
                requires
                    unit * q <= x,
                    q >= 1,
                    rounded <= q + 1,
                    unit >= 1,
            ;
        }
    }
    rounded * unit
}

fn draw_position_of(r: u64, total: usize) -> (p: usize)
    requires
        total >= 1,
    ensures
        p == draw_position(r, total as nat),
        p < total,
{
    let top: u64 = r >> 11;
    assert(top == r / 2048) by (bit_vector)
        requires
            top == r >> 11,
    ;
    let fraction = top as u128;
    assert(fraction < 9007199254740992) by {
        assert(r / 2048 < 9007199254740992) by (nonlinear_arith)
            requires
                r < 0x1_0000_0000_0000_0000,
        ;
    }
    let t = round_f64(total as u128);
    proof {
        vstd::arithmetic::mul::lemma_mul_upper_bound(
            fraction as int,
            9007199254740992,
            t as int,
            0x2_0000_0000_0000_0000,
        );
        assert(9007199254740992 * 0x2_0000_0000_0000_0000int < 0x0100_0000_0000_0000_0000_0000_0000_0000int);
        assert((fraction as int) * (t as int) == fraction * t);
    }
    let scaled = round_f64(fraction * t) / 9007199254740992;
    if scaled < (total - 1) as u128 {
        scaled as usize
    } else {
        total - 1
    }
}

// ---------------------------------------------------------------------------
// Weighted sampling
// ---------------------------------------------------------------------------

/// The sum of the weights of `w`.
pub open spec fn total_weight(w: Seq<(Seq<char>, nat)>) -> nat
    decreases w.len(),
{
    if w.len() == 0 {
        0
    } else {
        w[0].1 + total_weight(w.drop_first())
    }
}

/// The entry whose share of `[0, total_weight(w))` holds the position `t`:
/// entry `i` owns the `w[i].1` positions after those of the entries before it.
pub open spec fn pick(w: Seq<(Seq<char>, nat)>, t: nat) -> nat
    decreases w.len(),
{
    if w.len() == 0 {
        0
    } else if t < w[0].1 {
        0
    } else {
        1 + pick(w.drop_first(), (t - w[0].1) as nat)
    }
}

/// The names drawn by `count` draws from a generator in state `s`.
pub open spec fn sampled(w: Seq<(Seq<char>, nat)>, count: nat, s: u64) -> Seq<Seq<char>> {
    if total_weight(w) == 0 {
        Seq::empty()
    } else {
        Seq::new(
            count,
            |k: int|
                w[pick(w, draw_position(scramble(state_after(s, (k + 1) as nat)), total_weight(w))) as int].0,
        )
    }
}

proof fn lemma_skip_unfold<A>(s: Seq<A>, i: int)
    requires
        0 <= i < s.len(),
    ensures
        s.skip(i).drop_first() == s.skip(i + 1),
        s.skip(i)[0] == s[i],
        s.skip(i).len() > 0,
{
    assert(s.skip(i).drop_first() =~= s.skip(i + 1));
}

fn total_of(weighted: &[(String, usize)]) -> (t: usize)
    requires
        total_weight(pairs_view(weighted@)) <= usize::MAX,
    ensures
        t == total_weight(pairs_view(weighted@)),
{
    let ghost w = pairs_view(weighted@);
    let mut sum: usize = 0;
    let mut i: usize = 0;
    assert(w.skip(0) =~= w);
    while i < weighted.len()
        invariant
            i <= weighted.len() == w.len(),
            w == pairs_view(weighted@),
            total_weight(w) <= usize::MAX,
            total_weight(w) == sum + total_weight(w.skip(i as int)),
        decreases weighted.len() - i,
    {
        proof {
            lemma_skip_unfold(w, i as int);
        }
        sum = sum + weighted[i].1;
        i = i + 1;
    }
    sum
}

fn pick_index(weighted: &[(String, usize)], t: usize, total: usize) -> (i: usize)
    requires
        total == total_weight(pairs_view(weighted@)),
        t < total,
    ensures
        i == pick(pairs_view(weighted@), t as nat),
        i < weighted@.len(),
{
    let ghost w = pairs_view(weighted@);
    let mut cumulative: usize = 0;
    let mut i: usize = 0;
    assert(w.skip(0) =~= w);
    loop
        invariant
            i <= weighted.len() == w.len(),
            w == pairs_view(weighted@),
            t < total,
            cumulative <= t,
            total == cumulative + total_weight(w.skip(i as int)),
            pick(w, t as nat) == i + pick(w.skip(i as int), (t - cumulative) as nat),
        decreases weighted.len() - i,
    {
        if i == weighted.len() {
            assert(w.skip(i as int).len() == 0);
            assert(false);
        }
        proof {
            lemma_skip_unfold(w, i as int);
        }
        cumulative = cumulative + weighted[i].1;
        if t < cumulative {
            return i;
        }
        i = i + 1;
    }
}

/// Draw `count` names from `weighted`, with replacement, where each name's
/// chance of being picked is proportional to its weight. Returns an empty
/// vector if the weights sum to zero.
pub fn weighted_sample(weighted: &[(String, usize)], count: usize, rng: &mut Rng) -> (out: Vec<String>)
    requires
        total_weight(pairs_view(weighted@)) <= usize::MAX,
    ensures
        views(out@) == sampled(pairs_view(weighted@), count as nat, old(rng)@),
        final(rng)@ == if total_weight(pairs_view(weighted@)) == 0 {
            old(rng)@
        } else {
            state_after(old(rng)@, count as nat)
        },
{
    let ghost w = pairs_view(weighted@);
    let ghost s0 = rng@;
    let total = total_of(weighted);
    if total == 0 {
        return Vec::new();
    }
    let mut out: Vec<String> = Vec::new();
    let mut k: usize = 0;
    while k < count
        invariant
            k <= count,
            w == pairs_view(weighted@),
            total == total_weight(w),
            total > 0,
            rng@ == state_after(s0, k as nat),
            views(out@) == sampled(w, count as nat, s0).take(k as int),
        decreases count - k,
    {
        let r = rng.next_u64();
        let t = draw_position_of(r, total);
        let i = pick_index(weighted, t, total);
        let name = weighted[i].0.clone();
        let ghost before = out@;
        out.push(name);
        proof {
            assert(views(out@) =~= views(before).push(w[i as int].0));
            assert(sampled(w, count as nat, s0).take(k + 1 as int) =~= sampled(w, count as nat, s0).take(
                k as int,
            ).push(sampled(w, count as nat, s0)[k as int]));
        }
        k = k + 1;
    }
    assert(sampled(w, count as nat, s0).take(count as int) =~= sampled(w, count as nat, s0));
    out
}

// ---------------------------------------------------------------------------
// Laws of the generator and of sampling
// ---------------------------------------------------------------------------

/// An xorshift step never turns a non-zero state into zero.
pub proof fn law_xorshift_keeps_nonzero(x: u64)
    requires
        x != 0,
    ensures
        xorshift(x) != 0,
{
    let a = x ^ (x >> 12u64);
    assert(a != 0) by (bit_vector)
        requires
            x != 0,
            a == x ^ (x >> 12u64),
    ;
    let b = a ^ (a << 25u64);
    assert(b != 0) by (bit_vector)
        requires
            a != 0,
            b == a ^ (a << 25u64),
    ;
    let c = b ^ (b >> 27u64);
    assert(c != 0) by (bit_vector)
        requires
            b != 0,
            c == b ^ (b >> 27u64),
    ;
}

/// A seeded generator never reaches the all-zero state, from which xorshift
/// would only ever produce zeros.
pub proof fn law_state_never_zero(seed: u64, k: nat)
    ensures
        state_after(seeded_state(seed), k) != 0,
    decreases k,
{
    if k > 0 {
        law_state_never_zero(seed, (k - 1) as nat);
        law_xorshift_keeps_nonzero(state_after(seeded_state(seed), (k - 1) as nat));
    }
}

/// The total weight of the entries before position `i`.
pub open spec fn weight_before(w: Seq<(Seq<char>, nat)>, i: int) -> nat {
    total_weight(w.take(i))
}

proof fn lemma_weight_before_unfold(w: Seq<(Seq<char>, nat)>, i: int)
    requires
        0 < i <= w.len(),
    ensures
        weight_before(w, i) == w[0].1 + weight_before(w.drop_first(), i - 1),
{
    assert(w.take(i).drop_first() =~= w.drop_first().take(i - 1));
}

/// Every position below the total weight belongs to an entry of positive weight.
pub proof fn law_pick_lands_on_positive_weight(w: Seq<(Seq<char>, nat)>, t: nat)
    requires
        t < total_weight(w),
    ensures
        pick(w, t) < w.len(),
        w[pick(w, t) as int].1 > 0,
    decreases w.len(),
{
    if w.len() > 0 && t >= w[0].1 {
        law_pick_lands_on_positive_weight(w.drop_first(), (t - w[0].1) as nat);
    }
}

/// Entry `i` is picked for exactly the `w[i].1` positions that follow the
/// weights of the entries before it: each name gets a share of the positions
/// equal to its weight.
pub proof fn law_pick_owns_its_weight(w: Seq<(Seq<char>, nat)>, i: int, t: nat)
    requires
        0 <= i < w.len(),
        t < total_weight(w),
    ensures
        pick(w, t) == i <==> weight_before(w, i) <= t < weight_before(w, i) + w[i].1,
    decreases i,
{
    if i == 0 {
        assert(w.take(0) =~= Seq::<(Seq<char>, nat)>::empty());
    } else {
        lemma_weight_before_unfold(w, i);
        if t >= w[0].1 {
            law_pick_owns_its_weight(w.drop_first(), i - 1, (t - w[0].1) as nat);
        }
    }
}

proof fn lemma_draw_position_below_total(r: u64, total: nat)
    requires
        total >= 1,
    ensures
        draw_position(r, total) < total,
{
}

/// Whether `name` is the name of an entry of `w` with positive weight.
pub open spec fn has_positive_weight(w: Seq<(Seq<char>, nat)>, name: Seq<char>) -> bool {
    exists|i: int| 0 <= i < w.len() && w[i].1 > 0 && #[trigger] w[i].0 == name
}

/// Every drawn name is the name of an entry of positive weight; nothing is
/// drawn when the weights sum to zero, and otherwise exactly `count` names are.
pub proof fn law_draws_come_from_weighted_entries(w: Seq<(Seq<char>, nat)>, count: nat, s: u64)
    ensures
        sampled(w, count, s).len() == if total_weight(w) == 0 {
            0
        } else {
            count
        },
        forall|k: int|
            0 <= k < sampled(w, count, s).len() ==> has_positive_weight(w, #[trigger] sampled(w, count, s)[k]),
{
    let total = total_weight(w);
    if total > 0 {
        assert forall|k: int| 0 <= k < sampled(w, count, s).len() implies has_positive_weight(
            w,
            #[trigger] sampled(w, count, s)[k],
        ) by {
            let r = scramble(state_after(s, (k + 1) as nat));
            lemma_draw_position_below_total(r, total);
            let t = draw_position(r, total);
            law_pick_lands_on_positive_weight(w, t);
            let i = pick(w, t) as int;
            assert(sampled(w, count, s)[k] == w[i].0);
            assert(0 <= i < w.len() && w[i].1 > 0 && sampled(w, count, s)[k] == w[i].0);
        }
    } else {
        assert(sampled(w, count, s).len() == 0);
    }
}

proof fn lemma_state_after_adds(s: u64, a: nat, k: nat)
    ensures
        state_after(state_after(s, a), k) == state_after(s, a + k),
    decreases k,
{
    if k > 0 {
        lemma_state_after_adds(s, a, (k - 1) as nat);
    }
}

/// Drawing in two calls from one generator gives the same names as drawing
/// them all in one call: the second call continues from the state the first
/// left behind.
pub proof fn law_draws_continue_across_calls(w: Seq<(Seq<char>, nat)>, a: nat, b: nat, s: u64)
    requires
        total_weight(w) > 0,
    ensures
        sampled(w, a, s) + sampled(w, b, state_after(s, a)) == sampled(w, a + b, s),
{
    let lhs = sampled(w, a, s) + sampled(w, b, state_after(s, a));
    let rhs = sampled(w, a + b, s);
    assert forall|k: int| a <= k < a + b implies lhs[k] == rhs[k] by {
        lemma_state_after_adds(s, a, (k - a + 1) as nat);
        assert(a + (k - a + 1) == k + 1);
    }
    assert(lhs =~= rhs);
}

/// With a single entry of positive weight, every draw is that entry.
pub proof fn law_single_entry_always_drawn(w: Seq<(Seq<char>, nat)>, count: nat, s: u64)
    requires
        w.len() == 1,
        w[0].1 > 0,
    ensures
        sampled(w, count, s) == Seq::new(count, |k: int| w[0].0),
{
    law_draws_come_from_weighted_entries(w, count, s);
    assert(w.drop_first().len() == 0);
    assert(total_weight(w.drop_first()) == 0);
    assert(total_weight(w) == w[0].1);
    assert(sampled(w, count, s) =~= Seq::new(count, |k: int| w[0].0));
}

} // verus!
