//! Tone timelines, their rendering, and a cursor over decoded frequency timelines.
use vstd::prelude::*;

use crate::SAMPLE_RATE;
use vstd::arithmetic::div_mod::{
    lemma_add_mod_noop, lemma_div_is_ordered, lemma_div_multiples_vanish,
    lemma_fundamental_div_mod_converse, lemma_mod_bound, lemma_small_mod,
};

verus! {

/// Half-width of the window in which two frequencies count as the same tone,
/// in millihertz.
pub const TOLERANCE_MHZ: i64 = 250_000;

/// Whether frequency `a` lies strictly within 250 Hz of `b` (both in millihertz).
pub open spec fn near(a: int, b: int) -> bool {
    -TOLERANCE_MHZ < a - b < TOLERANCE_MHZ
}

/// Check if two frequencies, given in millihertz, are within 250 Hz of each other.
pub fn within_250hz(a: i32, b: i32) -> (r: bool)
    ensures
        r == near(a as int, b as int),
{
    let d: i64 = a as i64 - b as i64;
    -TOLERANCE_MHZ < d && d < TOLERANCE_MHZ
}

/// Nanoseconds in one second.
pub const NS_PER_SECOND: u64 = 1_000_000_000;

/// A frequency component: a single tone held for a duration.
///
/// A signal is a single tone whose frequency is modulated to carry the image,
/// so this is the smallest unit an SSTV transmission splits into. A frequency of
/// zero stands for silence.
#[derive(Clone, Copy, Debug, PartialEq, Eq, Structural)]
pub struct Component {
    /// Tone frequency in hertz.
    pub freq: usize,
    /// Duration in nanoseconds.
    pub len_ns: u64,
}

/// Number of samples a component renders to: its duration times the sample
/// rate, truncated toward zero.
pub open spec fn component_samples(c: Component) -> nat {
    (c.len_ns as nat * SAMPLE_RATE as nat / NS_PER_SECOND as nat) as nat
}

/// The tone frequency of every rendered sample, in order.
pub open spec fn sample_freqs(s: Seq<Component>) -> Seq<nat>
    decreases s.len(),
{
    if s.len() == 0 {
        seq![]
    } else {
        sample_freqs(s.drop_last()) + repeat_nat(s.last().freq as nat, component_samples(s.last()))
    }
}

/// `n` copies of `f`.
pub open spec fn repeat_nat(f: nat, n: nat) -> Seq<nat> {
    Seq::new(n, |k: int| f)
}

/// Sum of a sequence of naturals.
pub open spec fn seq_sum(s: Seq<nat>) -> nat
    decreases s.len(),
{
    if s.len() == 0 {
        0
    } else {
        seq_sum(s.drop_last()) + s.last()
    }
}

/// Phase of every rendered sample, in units of one cycle divided by the sample
/// rate: the phase before sample `k` is the sum of the frequencies of all
/// earlier samples, modulo the sample rate. It is never reset between
/// components.
pub open spec fn rendered_phases(s: Seq<Component>) -> Seq<u16> {
    let f = sample_freqs(s);
    Seq::new(f.len(), |k: int| (seq_sum(f.take(k)) % (SAMPLE_RATE as nat)) as u16)
}

proof fn lemma_sample_freqs_push(s: Seq<Component>, c: Component)
    ensures
        sample_freqs(s.push(c)) == sample_freqs(s) + repeat_nat(c.freq as nat, component_samples(c)),
{
    assert(s.push(c).drop_last() =~= s);
}

/// Number of samples a duration in nanoseconds renders to, truncated.
fn samples_in(len_ns: u64) -> (r: u64)
    ensures
        r as nat == len_ns as nat * SAMPLE_RATE as nat / NS_PER_SECOND as nat,
{
    assert(len_ns as u128 * 44100 <= 0xffff_ffff_ffff_ffffu128 * 44100) by (nonlinear_arith);
    let total: u128 = len_ns as u128 * SAMPLE_RATE as u128;
    assert(total / (NS_PER_SECOND as u128) <= total / 44100) by {
        vstd::arithmetic::div_mod::lemma_div_is_ordered_by_denominator(total as int, 44100, 1_000_000_000);
    }
    (total / (NS_PER_SECOND as u128)) as u64
}

/// A whole SSTV signal: an ordered list of frequency components.
pub struct Signal {
    inner: Vec<Component>,
}

impl View for Signal {
    type V = Seq<Component>;

    closed spec fn view(&self) -> Seq<Component> {
        self.inner@
    }
}

impl Signal {
    /// An empty signal.
    pub fn new() -> (r: Signal)
        ensures
            r@ == Seq::<Component>::empty(),
    {
        Signal { inner: Vec::new() }
    }

    /// Add a new frequency component at the end of the signal.
    pub fn push(&mut self, freq: usize, len_ns: u64)
        ensures
            final(self)@ == old(self)@.push(Component { freq, len_ns }),
    {
        self.inner.push(Component { freq, len_ns });
    }

    /// The components of the signal, in order.
    pub fn components(&self) -> (r: &Vec<Component>)
        ensures
            r@ == self@,
    {
        &self.inner
    }

    /// The phase of every sample of the rendered signal, in units of one cycle
    /// divided by the sample rate.
    ///
    /// Sample `k` of the audio is the sine of `2 * pi * phase[k] / SAMPLE_RATE`
    /// scaled to the output amplitude. The phase accumulator runs on across
    /// component boundaries, so the waveform has no jumps there.
    pub fn to_phases(&self) -> (r: Vec<u16>)
        ensures
            r@ == rendered_phases(self@),
    {
        let mut out: Vec<u16> = Vec::new();
        let mut phase: usize = 0;
        let mut i: usize = 0;
        let ghost fs = SAMPLE_RATE as nat;
        assert(self@.take(0) =~= Seq::<Component>::empty());
        assert(rendered_phases(self@.take(0)) =~= Seq::<u16>::empty());
        while i < self.inner.len()
            invariant
                fs == 44100,
                phase < 44100,
                i <= self@.len(),
                out@ == rendered_phases(self@.take(i as int)),
                phase as nat == seq_sum(sample_freqs(self@.take(i as int))) % fs,
            decreases self@.len() - i,
        {
            let c = self.inner[i];
            let n = samples_in(c.len_ns);
            let step: usize = c.freq % SAMPLE_RATE;
            let ghost before = sample_freqs(self@.take(i as int));
            let ghost base = seq_sum(before);
            let ghost rep = repeat_nat(c.freq as nat, component_samples(c));
            proof {
                let all = before + rep;
                assert(all.take(before.len() as int) =~= before);
                assert forall|j: int| 0 <= j < out@.len() implies #[trigger] out@[j] == (seq_sum(
                    all.take(j),
                ) % fs) as u16 by {
                    assert(all.take(j) =~= before.take(j));
                }
            }
            let mut k: u64 = 0;
            while k < n
                invariant
                    fs == 44100,
                    phase < 44100,
                    n == component_samples(c),
                    k <= n,
                    step == c.freq % SAMPLE_RATE,
                    rep == repeat_nat(c.freq as nat, component_samples(c)),
                    before.len() + k <= (before + rep).len(),
                    out@.len() == before.len() + k,
                    forall|j: int|
                        0 <= j < out@.len() ==> #[trigger] out@[j] == (seq_sum(
                            (before + rep).take(j),
                        ) % fs) as u16,
                    phase as nat == seq_sum((before + rep).take(before.len() + k)) % fs,
                decreases n - k,
            {
                proof {
                    let all = before + rep;
                    let m = before.len() + k;
                    assert(all.take(m + 1).drop_last() =~= all.take(m));
                    assert(all[m] == c.freq as nat);
                    lemma_add_mod_noop(seq_sum(all.take(m)) as int, c.freq as int, fs as int);
                    lemma_small_mod(step as nat, fs);
                    lemma_add_mod_noop(phase as int, step as int, fs as int);
                    lemma_mod_bound(seq_sum(all.take(m)) as int, fs as int);
                }
                out.push(phase as u16);
                phase = (phase + step) % SAMPLE_RATE;
                k = k + 1;
            }
            proof {
                let s1 = self@.take(i as int + 1);
                assert(s1 =~= self@.take(i as int).push(c));
                lemma_sample_freqs_push(self@.take(i as int), c);
                assert(out@ =~= rendered_phases(s1));
                assert((before + rep).take(before.len() + n) =~= before + rep);
            }
            i = i + 1;
        }
        assert(self@.take(self@.len() as int) =~= self@);
        out
    }
}

/// First index at or after `p` whose frequency is within 250 Hz of `f`.
pub open spec fn first_near(t: Seq<i32>, p: nat, f: int) -> Option<nat>
    decreases t.len() - p,
{
    if p >= t.len() {
        None
    } else if near(t[p as int] as int, f) {
        Some(p)
    } else {
        first_near(t, p + 1, f)
    }
}

/// First index at or after `p` whose frequency is not within 250 Hz of `f`.
pub open spec fn first_away(t: Seq<i32>, p: nat, f: int) -> Option<nat>
    decreases t.len() - p,
{
    if p >= t.len() {
        None
    } else if !near(t[p as int] as int, f) {
        Some(p)
    } else {
        first_away(t, p + 1, f)
    }
}

/// Sum of a sequence of frequencies.
pub open spec fn freq_sum(s: Seq<i32>) -> int
    decreases s.len(),
{
    if s.len() == 0 {
        0
    } else {
        freq_sum(s.drop_last()) + s.last()
    }
}

/// Arithmetic mean of a non-empty sequence of frequencies, rounded down.
pub open spec fn mean(s: Seq<i32>) -> int {
    freq_sum(s) / (s.len() as int)
}

/// Number of samples spanned by a duration in nanoseconds, rounded to nearest
/// with halves rounded up.
pub open spec fn span_samples(ns: nat) -> nat {
    (ns * SAMPLE_RATE as nat + NS_PER_SECOND as nat / 2) / NS_PER_SECOND as nat
}

proof fn lemma_first_near(t: Seq<i32>, p: nat, f: int)
    ensures
        match first_near(t, p, f) {
            Some(i) => p <= i < t.len() && near(t[i as int] as int, f) && forall|j: int|
                p <= j < i ==> !near(#[trigger] t[j] as int, f),
            None => forall|j: int| p <= j < t.len() ==> !near(#[trigger] t[j] as int, f),
        },
    decreases t.len() - p,
{
    if p < t.len() && !near(t[p as int] as int, f) {
        lemma_first_near(t, p + 1, f);
    }
}

proof fn lemma_first_away(t: Seq<i32>, p: nat, f: int)
    ensures
        match first_away(t, p, f) {
            Some(i) => p <= i < t.len() && !near(t[i as int] as int, f) && forall|j: int|
                p <= j < i ==> near(#[trigger] t[j] as int, f),
            None => forall|j: int| p <= j < t.len() ==> near(#[trigger] t[j] as int, f),
        },
    decreases t.len() - p,
{
    if p < t.len() && near(t[p as int] as int, f) {
        lemma_first_away(t, p + 1, f);
    }
}

proof fn lemma_freq_sum_bounds(s: Seq<i32>)
    ensures
        s.len() * (i32::MIN as int) <= freq_sum(s) <= s.len() * (i32::MAX as int),
    decreases s.len(),
{
    if s.len() > 0 {
        lemma_freq_sum_bounds(s.drop_last());
        let n = s.len() as int;
        assert((n - 1) * (i32::MIN as int) + (i32::MIN as int) == n * (i32::MIN as int))
            by (nonlinear_arith);
        assert((n - 1) * (i32::MAX as int) + (i32::MAX as int) == n * (i32::MAX as int))
            by (nonlinear_arith);
    }
}

proof fn lemma_mean_bounds(s: Seq<i32>)
    requires
        s.len() > 0,
    ensures
        i32::MIN <= mean(s) <= i32::MAX,
{
    let n = s.len() as int;
    lemma_freq_sum_bounds(s);
    lemma_div_is_ordered(n * (i32::MIN as int), freq_sum(s), n);
    lemma_div_is_ordered(freq_sum(s), n * (i32::MAX as int), n);
    lemma_div_multiples_vanish(i32::MIN as int, n);
    lemma_div_multiples_vanish(i32::MAX as int, n);
}

/// Number of samples that `ns` nanoseconds span at the sample rate, rounded
/// to the nearest whole sample.
pub fn us_to_n_samples(ns: u64) -> (r: u64)
    ensures
        r == span_samples(ns as nat),
{
    assert(ns as u128 * 44100 <= 0xffff_ffff_ffff_ffffu128 * 44100) by (nonlinear_arith);
    let total: u128 = ns as u128 * SAMPLE_RATE as u128 + (NS_PER_SECOND / 2) as u128;
    assert(total / (NS_PER_SECOND as u128) <= total / 44100) by {
        vstd::arithmetic::div_mod::lemma_div_is_ordered_by_denominator(total as int, 44100, 1_000_000_000);
    }
    (total / (NS_PER_SECOND as u128)) as u64
}

/// Floor of `sum / n` for a positive `n`.
fn floor_div(sum: i128, n: u64) -> (r: i128)
    requires
        n > 0,
        -0x1_0000_0000_0000_0000_0000_0000i128 <= sum <= 0x1_0000_0000_0000_0000_0000_0000i128,
    ensures
        r == (sum as int) / (n as int),
{
    if sum >= 0 {
        ((sum as u128) / (n as u128)) as i128
    } else {
        let a: u128 = (-sum) as u128;
        let q: u128 = (a + n as u128 - 1) / (n as u128);
        proof {
            let ni = n as int;
            vstd::arithmetic::div_mod::lemma_fundamental_div_mod((a + ni - 1) as int, ni);
            vstd::arithmetic::div_mod::lemma_mod_bound((a + ni - 1) as int, ni);
            assert(0 <= ni * q - a < ni) by (nonlinear_arith)
                requires
                    ni > 0,
                    a + ni - 1 == ni * ((a + ni - 1) / ni) + (a + ni - 1) % ni,
                    0 <= (a + ni - 1) % ni < ni,
                    q == (a + ni - 1) / ni,
            ;
            assert(-(q as int) * ni == -(ni * q)) by (nonlinear_arith);
            lemma_fundamental_div_mod_converse(sum as int, ni, -(q as int), ni * q - a);
            assert(q <= a) by (nonlinear_arith)
                requires
                    ni >= 1,
                    0 <= ni * q - a,
                    ni * q - a < ni,
                    a >= 1,
            ;
        }
        -(q as i128)
    }
}

/// A read head over a timeline of instantaneous frequencies, in millihertz.
///
/// The decoder walks it forward with three primitives: skip until a tone is
/// reached, skip while a tone lasts, and consume a fixed duration returning its
/// mean frequency.
pub struct DSPOut<'a> {
    /// The timeline read.
    pub inner: &'a [i32],
    pos: usize,
}

impl<'a> View for DSPOut<'a> {
    type V = (Seq<i32>, nat);

    /// The timeline and the cursor position.
    closed spec fn view(&self) -> (Seq<i32>, nat) {
        (self.inner@, self.pos as nat)
    }
}

impl<'a> DSPOut<'a> {
    /// A cursor at the start of `from`.
    pub fn new(from: &'a [i32]) -> (r: DSPOut<'a>)
        ensures
            r@ == (from@, 0nat),
    {
        DSPOut { inner: from, pos: 0 }
    }

    /// Consume samples while they stay within 250 Hz of `frq`, stopping at the
    /// first that does not. Fails when the timeline runs out first.
    pub fn take_while_frq(&mut self, frq: i32) -> (r: Option<()>)
        ensures
            final(self)@.0 == old(self)@.0,
            r is Some <==> first_away(old(self)@.0, old(self)@.1, frq as int) is Some,
            r is Some ==> final(self)@.1 == first_away(old(self)@.0, old(self)@.1, frq as int)->0,
            r is Some ==> {
                let (t, p, q) = (old(self)@.0, old(self)@.1, final(self)@.1);
                &&& p <= q < t.len()
                &&& !near(t[q as int] as int, frq as int)
                &&& forall|j: int| p <= j < q ==> near(#[trigger] t[j] as int, frq as int)
            },
            r is None ==> forall|j: int|
                old(self)@.1 <= j < old(self)@.0.len() ==> near(
                    #[trigger] old(self)@.0[j] as int,
                    frq as int,
                ),
    {
        proof {
            lemma_first_away(self@.0, self@.1, frq as int);
        }
        let ghost start = self.pos as nat;
        let mut i: usize = self.pos;
        while i < self.inner.len() && within_250hz(self.inner[i], frq)
            invariant
                start <= i,
                first_away(self@.0, start, frq as int) == first_away(self@.0, i as nat, frq as int),
            decreases self@.0.len() - i,
        {
            i = i + 1;
        }
        if i < self.inner.len() {
            self.pos = i;
            Some(())
        } else {
            None
        }
    }

    /// Consume samples until one lies within 250 Hz of `frq`, stopping on it.
    /// Fails when the timeline runs out first.
    pub fn take_till_frq(&mut self, frq: i32) -> (r: Option<()>)
        ensures
            final(self)@.0 == old(self)@.0,
            r is Some <==> first_near(old(self)@.0, old(self)@.1, frq as int) is Some,
            r is Some ==> final(self)@.1 == first_near(old(self)@.0, old(self)@.1, frq as int)->0,
            r is Some ==> {
                let (t, p, q) = (old(self)@.0, old(self)@.1, final(self)@.1);
                &&& p <= q < t.len()
                &&& near(t[q as int] as int, frq as int)
                &&& forall|j: int| p <= j < q ==> !near(#[trigger] t[j] as int, frq as int)
            },
            r is None ==> forall|j: int|
                old(self)@.1 <= j < old(self)@.0.len() ==> !near(
                    #[trigger] old(self)@.0[j] as int,
                    frq as int,
                ),
    {
        proof {
            lemma_first_near(self@.0, self@.1, frq as int);
        }
        let ghost start = self.pos as nat;
        let mut i: usize = self.pos;
        while i < self.inner.len() && !within_250hz(self.inner[i], frq)
            invariant
                start <= i,
                first_near(self@.0, start, frq as int) == first_near(self@.0, i as nat, frq as int),
            decreases self@.0.len() - i,
        {
            i = i + 1;
        }
        if i < self.inner.len() {
            self.pos = i;
            Some(())
        } else {
            None
        }
    }

    /// Consume the samples spanned by `ns` nanoseconds and return their mean
    /// frequency, rounded down. Fails, leaving the cursor in place, when fewer
    /// samples remain.
    pub fn take_us(&mut self, ns: u64) -> (r: Option<i32>)
        requires
            span_samples(ns as nat) > 0,
        ensures
            final(self)@.0 == old(self)@.0,
            ({
                let (t, p, n) = (old(self)@.0, old(self)@.1, span_samples(ns as nat));
                if p + n <= t.len() {
                    &&& r is Some
                    &&& r->0 as int == mean(t.subrange(p as int, (p + n) as int))
                    &&& final(self)@.1 == p + n
                } else {
                    &&& r is None
                    &&& final(self)@.1 == p
                }
            }),
    {
        let n: u64 = us_to_n_samples(ns);
        let len = self.inner.len();
        if self.pos > len || n as u128 > (len - self.pos) as u128 {
            return None;
        }
        let end: usize = self.pos + n as usize;
        let ghost t = self@.0;
        let ghost p = self.pos as int;
        let mut sum: i128 = 0;
        let mut i: usize = self.pos;
        assert(t.subrange(p, p) =~= Seq::<i32>::empty());
        while i < end
            invariant
                t == self@.0,
                p == self.pos,
                p <= i <= end <= t.len(),
                end == p + n,
                n <= 0xffff_ffff_ffff_ffffu64,
                sum == freq_sum(t.subrange(p, i as int)),
                (i - p) * (i32::MIN as int) <= sum <= (i - p) * (i32::MAX as int),
            decreases end - i,
        {
            proof {
                assert(t.subrange(p, i + 1).drop_last() =~= t.subrange(p, i as int));
                let k = i - p;
                assert((k + 1) * (i32::MIN as int) == k * (i32::MIN as int) + (i32::MIN as int))
                    by (nonlinear_arith);
                assert((k + 1) * (i32::MAX as int) == k * (i32::MAX as int) + (i32::MAX as int))
                    by (nonlinear_arith);
                assert(k * (i32::MAX as int) <= 0xffff_ffff_ffff_ffff * (i32::MAX as int))
                    by (nonlinear_arith) requires 0 <= k <= 0xffff_ffff_ffff_ffff;
                assert(k * (i32::MIN as int) >= 0xffff_ffff_ffff_ffff * (i32::MIN as int))
                    by (nonlinear_arith) requires 0 <= k <= 0xffff_ffff_ffff_ffff;
            }
            sum = sum + self.inner[i] as i128;
            i = i + 1;
        }
        proof {
            let k = n as int;
            assert(k * (i32::MAX as int) <= 0xffff_ffff_ffff_ffff * (i32::MAX as int))
                by (nonlinear_arith) requires 0 <= k <= 0xffff_ffff_ffff_ffff;
            assert(k * (i32::MIN as int) >= 0xffff_ffff_ffff_ffff * (i32::MIN as int))
                by (nonlinear_arith) requires 0 <= k <= 0xffff_ffff_ffff_ffff;
            lemma_mean_bounds(t.subrange(p, end as int));
        }
        let m = floor_div(sum, n);
        self.pos = end;
        Some(m as i32)
    }

    /// Set the position over the samples.
    pub fn set_to(&mut self, pos: usize)
        ensures
            final(self)@ == (old(self)@.0, pos as nat),
    {
        self.pos = pos;
    }

    /// Get the position over the samples.
    pub fn get_pos(&self) -> (r: usize)
        ensures
            r == self@.1,
    {
        self.pos
    }
}

} // verus!
