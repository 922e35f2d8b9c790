//! Laws of the codec, proved over the specifications of its functions.
use vstd::prelude::*;

use crate::common::{
    component_samples, first_away, first_near, freq_sum, mean, near, rendered_phases,
    repeat_nat, sample_freqs, seq_sum, Component,
};
use crate::martinm1::{
    brightness, calibration_header, channel_order, decode_row, decode_rows, decode_step,
    fresh_state, header_segments, leaders_end, martin_m1_segments, pixel_freq, pixel_samples,
    pixel_start, row_part, row_pixels, row_samples, row_sync, rows_segments, scan_segments,
    slot_of, state_wf, tone, vis_bit, vis_bit_set, vis_samples, vis_tone, vis_value, with_row,
    DecoderState, Outcome, HEIGHT, LEADER_HZ, LEADER_MHZ, ROW_BYTES, SEPARATOR_HZ, SEPARATOR_NS,
    SYNC_HZ, SYNC_NS, TRAILER_NS, VIS_ONE_HZ, VIS_ZERO_HZ, WIDTH,
};
use crate::raster::channel_index;
use crate::SAMPLE_RATE;
use vstd::arithmetic::div_mod::{lemma_add_mod_noop, lemma_mod_bound};

verus! {

proof fn lemma_first_near_prefix(t: Seq<i32>, k: int, p: nat, f: int)
    requires
        0 <= k <= t.len(),
    ensures
        first_near(t.take(k), p, f) is Some ==> first_near(t, p, f) == first_near(t.take(k), p, f),
    decreases k - p,
{
    if p < k && !near_at(t, p, f) {
        lemma_first_near_prefix(t, k, p + 1, f);
    }
}

proof fn lemma_first_away_prefix(t: Seq<i32>, k: int, p: nat, f: int)
    requires
        0 <= k <= t.len(),
    ensures
        first_away(t.take(k), p, f) is Some ==> first_away(t, p, f) == first_away(t.take(k), p, f),
    decreases k - p,
{
    if p < k && near_at(t, p, f) {
        lemma_first_away_prefix(t, k, p + 1, f);
    }
}

spec fn near_at(t: Seq<i32>, p: nat, f: int) -> bool {
    crate::common::near(t[p as int] as int, f)
}

proof fn lemma_mean_prefix(t: Seq<i32>, k: int, a: int, b: int)
    requires
        0 <= a <= b <= k <= t.len(),
    ensures
        mean(t.take(k).subrange(a, b)) == mean(t.subrange(a, b)),
{
    assert(t.take(k).subrange(a, b) =~= t.subrange(a, b));
}

proof fn lemma_vis_value_prefix(t: Seq<i32>, k: int, q: nat, j: nat)
    requires
        0 <= k <= t.len(),
        j <= 7,
        q + 7 * vis_samples() <= k,
    ensures
        vis_value(t.take(k), q, j) == vis_value(t, q, j),
    decreases j,
{
    if j > 0 {
        lemma_vis_value_prefix(t, k, q, (j - 1) as nat);
        crate::martinm1::lemma_sample_counts();
        let i = (j - 1) as nat;
        assert(q + (i + 1) * vis_samples() <= q + 7 * vis_samples()) by (nonlinear_arith)
            requires
                i < 7,
        ;
        lemma_mean_prefix(t, k, (q + i * vis_samples()) as int, (q + (i + 1) * vis_samples()) as int);
        assert(vis_bit(t.take(k), q, i) == vis_bit(t, q, i));
    }
}

proof fn lemma_header_prefix(t: Seq<i32>, k: int, p: nat)
    requires
        0 <= k <= t.len(),
    ensures
        calibration_header(t.take(k), p) is Some ==> calibration_header(t, p) == calibration_header(
            t.take(k),
            p,
        ),
{
    let tk = t.take(k);
    if calibration_header(tk, p) is Some {
        let l = crate::martinm1::LEADER_MHZ as int;
        let sy = crate::martinm1::SYNC_MHZ as int;
        lemma_first_near_prefix(t, k, p, l);
        let a = first_near(tk, p, l)->0;
        lemma_first_away_prefix(t, k, a, l);
        let b = first_away(tk, a, l)->0;
        lemma_first_near_prefix(t, k, b, sy);
        let c = first_near(tk, b, sy)->0;
        lemma_first_near_prefix(t, k, c, l);
        let d = first_near(tk, c, l)->0;
        lemma_first_away_prefix(t, k, d, l);
        let q = leaders_end(tk, p)->0;
        assert(leaders_end(t, p) == Some(q));
        lemma_first_away_prefix(t, k, q + 7 * vis_samples(), sy);
        lemma_vis_value_prefix(t, k, q, 6);
    }
}

proof fn lemma_row_prefix(t: Seq<i32>, k: int, p: nat)
    requires
        0 <= k <= t.len(),
    ensures
        decode_row(t.take(k), p) is Some ==> decode_row(t, p) == decode_row(t.take(k), p),
{
    let tk = t.take(k);
    if decode_row(tk, p) is Some {
        let sy = crate::martinm1::SYNC_MHZ as int;
        lemma_first_near_prefix(t, k, p, sy);
        let a = first_near(tk, p, sy)->0;
        lemma_first_away_prefix(t, k, a, sy);
        let q = row_sync(tk, p)->0;
        assert(row_sync(t, p) == Some(q));
        crate::martinm1::lemma_sample_counts();
        assert forall|i: int| 0 <= i < row_pixels(t, q).len() implies #[trigger] row_pixels(
            tk,
            q,
        )[i] == row_pixels(t, q)[i] by {
            let s = crate::martinm1::slot_of((i % 3) as nat);
            let j = (i / 3) as nat;
            let st = crate::martinm1::pixel_start(q, s, j);
            assert(i / 3 < 320) by (nonlinear_arith)
                requires
                    0 <= i < 960,
            ;
            assert(s <= 2);
            assert(st + pixel_samples() <= q + row_samples());
            lemma_mean_prefix(t, k, st as int, (st + pixel_samples()) as int);
        }
        assert(row_pixels(tk, q) =~= row_pixels(t, q));
    }
}

proof fn lemma_rows_prefix(t: Seq<i32>, k: int, p: nat, r: nat, img: Seq<u8>)
    requires
        0 <= k <= t.len(),
    ensures
        ({
            let (e, r2, img2) = decode_rows(t.take(k), p, r, img);
            decode_rows(t, e, r2, img2) == decode_rows(t, p, r, img)
        }),
    decreases HEIGHT - r,
{
    if r < HEIGHT {
        lemma_row_prefix(t, k, p);
        match decode_row(t.take(k), p) {
            None => {},
            Some((e, row)) => {
                lemma_rows_prefix(t, k, e, r + 1, crate::martinm1::with_row(img, r, row));
            },
        }
    }
}

proof fn lemma_rows_bound(t: Seq<i32>, p: nat, r: nat, img: Seq<u8>)
    requires
        r <= HEIGHT,
    ensures
        decode_rows(t, p, r, img).1 <= HEIGHT,
    decreases HEIGHT - r,
{
    if r < HEIGHT {
        match decode_row(t, p) {
            None => {},
            Some((e, row)) => {
                lemma_rows_bound(t, e, r + 1, crate::martinm1::with_row(img, r, row));
            },
        }
    }
}

/// Decoding keeps the decoder state well formed.
pub proof fn lemma_decode_step_wf(s: DecoderState, t: Seq<i32>)
    requires
        state_wf(s),
    ensures
        state_wf(decode_step(s, t).0),
{
    let p = if s.in_header {
        match calibration_header(t, s.cursor) {
            None => s.cursor,
            Some((e, v)) => e,
        }
    } else {
        s.cursor
    };
    lemma_rows_bound(t, p, s.next_row, s.image);
    lemma_rows_len(t, p, s.next_row, s.image);
}

proof fn lemma_rows_len(t: Seq<i32>, p: nat, r: nat, img: Seq<u8>)
    ensures
        decode_rows(t, p, r, img).2.len() == img.len(),
    decreases HEIGHT - r,
{
    if r < HEIGHT {
        match decode_row(t, p) {
            None => {},
            Some((e, row)) => {
                lemma_rows_len(t, e, r + 1, crate::martinm1::with_row(img, r, row));
            },
        }
    }
}

proof fn lemma_rows_advance(t: Seq<i32>, p: nat, r: nat, img: Seq<u8>)
    ensures
        decode_rows(t, p, r, img).1 >= r,
    decreases HEIGHT - r,
{
    if r < HEIGHT {
        match decode_row(t, p) {
            None => {},
            Some((e, row)) => {
                lemma_rows_advance(t, e, r + 1, crate::martinm1::with_row(img, r, row));
            },
        }
    }
}

/// The decoder's progress is never undone: once the header has been found it
/// is never looked for again, and the next row to decode never goes back. A
/// finished image leaves no row to decode; a partial one leaves at least one.
pub proof fn lemma_decode_progress(s: DecoderState, t: Seq<i32>)
    requires
        state_wf(s),
    ensures
        !s.in_header ==> !decode_step(s, t).0.in_header,
        decode_step(s, t).0.next_row >= s.next_row,
        decode_step(s, t).1 is Finished ==> decode_step(s, t).0.next_row == HEIGHT,
        decode_step(s, t).1 is Partial ==> decode_step(s, t).0.next_row < HEIGHT,
{
    let p = if s.in_header {
        match calibration_header(t, s.cursor) {
            None => s.cursor,
            Some((e, v)) => e,
        }
    } else {
        s.cursor
    };
    lemma_rows_advance(t, p, s.next_row, s.image);
    lemma_rows_bound(t, p, s.next_row, s.image);
}

/// Streaming equivalence: decoding a timeline and then an extension of it ends
/// in the same state, with the same outcome, as decoding the extension alone.
pub proof fn lemma_decode_prefix_then_whole(s: DecoderState, t: Seq<i32>, k: int)
    requires
        state_wf(s),
        0 <= k <= t.len(),
    ensures
        decode_step(decode_step(s, t.take(k)).0, t) == decode_step(s, t),
{
    let tk = t.take(k);
    let p = if s.in_header {
        match calibration_header(tk, s.cursor) {
            None => s.cursor,
            Some((e, v)) => e,
        }
    } else {
        s.cursor
    };
    lemma_header_prefix(t, k, s.cursor);
    if !(s.in_header && calibration_header(tk, s.cursor) is None) {
        lemma_rows_prefix(t, k, p, s.next_row, s.image);
        lemma_rows_bound(tk, p, s.next_row, s.image);
    }
}

/// Resumability: decoding the same timeline again, with no new input, leaves
/// the state as it is and repeats the outcome. After a partial result it gives
/// the same partial image again, never a finished one.
pub proof fn lemma_decode_again_without_input(s: DecoderState, t: Seq<i32>)
    requires
        state_wf(s),
    ensures
        decode_step(decode_step(s, t).0, t) == decode_step(s, t),
        decode_step(s, t).1 is Partial ==> decode_step(decode_step(s, t).0, t).0 == decode_step(
            s,
            t,
        ).0,
{
    lemma_decode_prefix_then_whole(s, t, t.len() as int);
    assert(t.take(t.len() as int) =~= t);
}

/// Successive decoder calls, one for each timeline of `ts` in turn.
pub open spec fn decode_all(s: DecoderState, ts: Seq<Seq<i32>>) -> (DecoderState, Outcome)
    decreases ts.len(),
{
    if ts.len() <= 1 {
        decode_step(s, ts[0])
    } else {
        decode_all(decode_step(s, ts[0]).0, ts.drop_first())
    }
}

/// Whether `a` is a prefix of `b`.
pub open spec fn is_prefix(a: Seq<i32>, b: Seq<i32>) -> bool {
    a.len() <= b.len() && a == b.take(a.len() as int)
}

/// Streaming equivalence over any number of calls: feeding the decoder a
/// series of timelines, each a prefix of the last, ends exactly as one call on
/// the last timeline does.
pub proof fn lemma_decode_in_pieces(s: DecoderState, ts: Seq<Seq<i32>>)
    requires
        state_wf(s),
        ts.len() >= 1,
        forall|i: int| 0 <= i < ts.len() ==> is_prefix(#[trigger] ts[i], ts.last()),
    ensures
        decode_all(s, ts) == decode_step(s, ts.last()),
    decreases ts.len(),
{
    if ts.len() > 1 {
        let rest = ts.drop_first();
        let s1 = decode_step(s, ts[0]).0;
        lemma_decode_step_wf(s, ts[0]);
        assert(rest.last() == ts.last());
        assert forall|i: int| 0 <= i < rest.len() implies is_prefix(#[trigger] rest[i], rest.last()) by {
            assert(rest[i] == ts[i + 1]);
        }
        lemma_decode_in_pieces(s1, rest);
        assert(is_prefix(ts[0], ts.last()));
        lemma_decode_prefix_then_whole(s, ts.last(), ts[0].len() as int);
    }
}

/// Phase continuity: the first rendered sample has phase zero, and each
/// following one has the phase of the sample before it advanced by that
/// sample's tone frequency, modulo the sample rate. Nothing resets the phase
/// where one component gives way to the next.
pub proof fn lemma_phase_continuity(s: Seq<Component>, k: int)
    requires
        0 <= k,
        k + 1 < rendered_phases(s).len(),
    ensures
        rendered_phases(s)[0] == 0,
        rendered_phases(s)[k + 1] as nat == (rendered_phases(s)[k] as nat + sample_freqs(s)[k])
            % (SAMPLE_RATE as nat),
{
    let f = sample_freqs(s);
    let fs = SAMPLE_RATE as nat;
    assert(f.take(0) =~= Seq::<nat>::empty());
    assert(f.take(k + 1).drop_last() =~= f.take(k));
    lemma_mod_bound(seq_sum(f.take(k)) as int, fs as int);
    lemma_mod_bound(seq_sum(f.take(k + 1)) as int, fs as int);
    lemma_add_mod_noop(seq_sum(f.take(k)) as int, f[k] as int, fs as int);
    vstd::arithmetic::div_mod::lemma_small_mod(f[k] % fs, fs);
    vstd::arithmetic::div_mod::lemma_mod_twice(f[k] as int, fs as int);
}

/// The VIS code does not depend on the image: every transmission opens with
/// the same twelve components, leader, break, leader, the start bit, the seven
/// VIS bits 1, 0, 1, 1, 0, 0, 1 in that order (1100 Hz for a one, 1300 Hz for
/// a zero, 30 ms each), and the stop bit.
pub proof fn lemma_vis_pattern(a: Seq<u8>, b: Seq<u8>)
    ensures
        martin_m1_segments(a).take(12) == header_segments(),
        martin_m1_segments(a).take(12) == martin_m1_segments(b).take(12),
        forall|k: int|
            0 <= k < 7 ==> #[trigger] header_segments()[4 + k] == vis_tone(k) && (vis_tone(k).freq
                == VIS_ONE_HZ <==> vis_bit_set(k)) && (vis_tone(k).freq == VIS_ZERO_HZ
                <==> !vis_bit_set(k)),
        vis_bit_set(0) && !vis_bit_set(1) && vis_bit_set(2) && vis_bit_set(3) && !vis_bit_set(4)
            && !vis_bit_set(5) && vis_bit_set(6),
{
    assert(header_segments().len() == 12);
    assert(martin_m1_segments(a).take(12) =~= header_segments());
    assert(martin_m1_segments(b).take(12) =~= header_segments());
}

/// `o` moved `d` positions later.
pub open spec fn shifted(o: Option<nat>, d: nat) -> Option<nat> {
    match o {
        None => None,
        Some(i) => Some(i + d),
    }
}

proof fn lemma_first_near_shift(z: Seq<i32>, t: Seq<i32>, p: nat, f: int)
    ensures
        first_near(z + t, z.len() + p, f) == shifted(first_near(t, p, f), z.len()),
    decreases t.len() - p,
{
    if p < t.len() {
        assert((z + t)[(z.len() + p) as int] == t[p as int]);
        lemma_first_near_shift(z, t, p + 1, f);
    }
}

proof fn lemma_first_away_shift(z: Seq<i32>, t: Seq<i32>, p: nat, f: int)
    ensures
        first_away(z + t, z.len() + p, f) == shifted(first_away(t, p, f), z.len()),
    decreases t.len() - p,
{
    if p < t.len() {
        assert((z + t)[(z.len() + p) as int] == t[p as int]);
        lemma_first_away_shift(z, t, p + 1, f);
    }
}

proof fn lemma_skip_far(z: Seq<i32>, t: Seq<i32>, p: nat, f: int)
    requires
        p <= z.len(),
        forall|i: int| 0 <= i < z.len() ==> !near(#[trigger] z[i] as int, f),
    ensures
        first_near(z + t, p, f) == first_near(z + t, z.len(), f),
    decreases z.len() - p,
{
    if p < z.len() {
        assert((z + t)[p as int] == z[p as int]);
        lemma_skip_far(z, t, p + 1, f);
    }
}

proof fn lemma_vis_value_shift(z: Seq<i32>, t: Seq<i32>, q: nat, j: nat)
    requires
        j <= 7,
        q + 7 * vis_samples() <= t.len(),
    ensures
        vis_value(z + t, z.len() + q, j) == vis_value(t, q, j),
    decreases j,
{
    if j > 0 {
        lemma_vis_value_shift(z, t, q, (j - 1) as nat);
        crate::martinm1::lemma_sample_counts();
        let i = (j - 1) as nat;
        let a = q + i * vis_samples();
        let b = q + (i + 1) * vis_samples();
        assert(b <= q + 7 * vis_samples()) by (nonlinear_arith)
            requires
                i < 7,
                b == q + (i + 1) * vis_samples(),
                vis_samples() == 1323,
        ;
        assert(a <= b) by (nonlinear_arith)
            requires
                a == q + i * vis_samples(),
                b == q + (i + 1) * vis_samples(),
                vis_samples() == 1323,
        ;
        assert forall|m: int| 0 <= m < b - a implies #[trigger] (z + t).subrange(
            (z.len() + a) as int,
            (z.len() + b) as int,
        )[m] == t.subrange(a as int, b as int)[m] by {
            assert((z + t)[z.len() + a + m] == t[a + m]);
        }
        assert((z + t).subrange((z.len() + a) as int, (z.len() + b) as int) =~= t.subrange(
            a as int,
            b as int,
        ));
        assert(z.len() + q + i * vis_samples() == z.len() + a);
        assert(z.len() + q + (i + 1) * vis_samples() == z.len() + b);
    }
}

/// The decoder recognises the header after leading input of any length in
/// which no sample lies within 250 Hz of the 1900 Hz leader tone, silence
/// (0 Hz) among it: the header ends at the same place, moved on by the length
/// of that input, and carries the same VIS code.
pub proof fn lemma_header_after_silence(z: Seq<i32>, t: Seq<i32>)
    requires
        forall|i: int| 0 <= i < z.len() ==> !near(#[trigger] z[i] as int, LEADER_MHZ as int),
    ensures
        calibration_header(z + t, 0) == match calibration_header(t, 0) {
            None => None,
            Some((e, v)) => Some((e + z.len(), v)),
        },
{
    let l = LEADER_MHZ as int;
    let sy = crate::martinm1::SYNC_MHZ as int;
    let d = z.len();
    let zt = z + t;
    lemma_skip_far(z, t, 0, l);
    lemma_first_near_shift(z, t, 0, l);
    assert(first_near(zt, 0, l) == shifted(first_near(t, 0, l), d));
    if let Some(a) = first_near(t, 0, l) {
        lemma_first_away_shift(z, t, a, l);
        if let Some(b) = first_away(t, a, l) {
            lemma_first_near_shift(z, t, b, sy);
            if let Some(c) = first_near(t, b, sy) {
                lemma_first_near_shift(z, t, c, l);
                if let Some(e) = first_near(t, c, l) {
                    lemma_first_away_shift(z, t, e, l);
                }
            }
        }
    }
    assert(leaders_end(zt, 0) == shifted(leaders_end(t, 0), d));
    if let Some(q) = leaders_end(t, 0) {
        crate::martinm1::lemma_sample_counts();
        lemma_first_away_shift(z, t, q + 7 * vis_samples(), sy);
        if q + 7 * vis_samples() <= t.len() {
            lemma_vis_value_shift(z, t, q, 6);
        }
    }
}

proof fn lemma_freq_sum_constant(x: i32, n: nat)
    ensures
        freq_sum(Seq::new(n, |i: int| x)) == n * x,
    decreases n,
{
    if n > 0 {
        assert(Seq::new(n, |i: int| x).drop_last() =~= Seq::new((n - 1) as nat, |i: int| x));
        lemma_freq_sum_constant(x, (n - 1) as nat);
        assert(n * x == (n - 1) * x + x) by (nonlinear_arith);
    } else {
        assert(n * x == 0) by (nonlinear_arith) requires n == 0;
    }
}

/// A pixel read from samples that all carry the tone the encoder sends for
/// channel value `v` decodes to `v`, or to `v - 1` where the tone's frequency
/// was rounded down to a whole hertz.
pub proof fn lemma_pixel_round_trip(v: u8, n: nat)
    requires
        n > 0,
    ensures
        ({
            let b = brightness(mean(Seq::new(n, |i: int| (pixel_freq(v) * 1000) as i32)));
            b == v || b + 1 == v
        }),
{
    let x = (pixel_freq(v) * 1000) as i32;
    let a = (v as int) * 800 / 255;
    assert(0 <= a <= 800) by (nonlinear_arith)
        requires
            a == (v as int) * 800 / 255,
            0 <= v <= 255,
    ;
    assert(x == (1500 + a) * 1000);
    lemma_freq_sum_constant(x, n);
    vstd::arithmetic::div_mod::lemma_div_multiples_vanish(x as int, n as int);
    assert(n * x == x * n) by (nonlinear_arith);
    let m = mean(Seq::new(n, |i: int| x));
    assert(m == x);
    let q = (m - 1_500_000) * 255 / 800_000;
    assert(q == a * 255 / 800) by {
        assert((m - 1_500_000) * 255 == (a * 255) * 1000);
        vstd::arithmetic::div_mod::lemma_div_denominator((a * 255) * 1000, 1000, 800);
        vstd::arithmetic::div_mod::lemma_div_multiples_vanish(a * 255, 1000);
        assert((a * 255) * 1000 == 1000 * (a * 255)) by (nonlinear_arith);
        assert(1000 * 800 == 800_000);
    }
    assert(q == v || q + 1 == v) by (nonlinear_arith)
        requires
            a == (v as int) * 800 / 255,
            q == a * 255 / 800,
            0 <= v <= 255,
            0 <= a,
    ;
    assert(q <= 255);
}

/// The samples of a run of components, each at exactly its tone frequency, in
/// millihertz.
pub open spec fn ideal_timeline(segs: Seq<Component>) -> Seq<i32> {
    Seq::new(sample_freqs(segs).len(), |i: int| (sample_freqs(segs)[i] * 1000) as i32)
}

proof fn lemma_sample_freqs_append(a: Seq<Component>, b: Seq<Component>)
    ensures
        sample_freqs(a + b) == sample_freqs(a) + sample_freqs(b),
    decreases b.len(),
{
    if b.len() == 0 {
        assert(a + b =~= a);
        assert(sample_freqs(a) + sample_freqs(b) =~= sample_freqs(a));
    } else {
        assert((a + b).drop_last() =~= a + b.drop_last());
        lemma_sample_freqs_append(a, b.drop_last());
        assert(sample_freqs(a + b) =~= sample_freqs(a) + sample_freqs(b));
    }
}

proof fn lemma_sample_freqs_one(c: Component)
    ensures
        sample_freqs(seq![c]) == repeat_nat(c.freq as nat, component_samples(c)),
{
    assert(seq![c].drop_last() =~= Seq::<Component>::empty());
    assert(sample_freqs(Seq::<Component>::empty()) + repeat_nat(c.freq as nat, component_samples(c))
        =~= repeat_nat(c.freq as nat, component_samples(c)));
}

/// Tone of pixel `j` in the scan of channel `c` of row `r`.
spec fn scan_freq(px: Seq<u8>, r: nat, c: nat, j: int) -> nat {
    pixel_freq(px[channel_index(WIDTH as nat, j as nat, r, c) as int])
}

proof fn lemma_scan_freqs(px: Seq<u8>, r: nat, c: nat, n: int)
    requires
        0 <= n <= WIDTH,
    ensures
        sample_freqs(scan_segments(px, r, c).take(n)).len() == 20 * n,
        forall|j: int, m: int|
            0 <= j < n && 0 <= m < 20 ==> #[trigger] sample_freqs(
                scan_segments(px, r, c).take(n),
            )[20 * j + m] == scan_freq(px, r, c, j),
    decreases n,
{
    let sc = scan_segments(px, r, c);
    if n == 0 {
        assert(sc.take(0) =~= Seq::<Component>::empty());
    } else {
        lemma_scan_freqs(px, r, c, n - 1);
        assert(sc.take(n).drop_last() =~= sc.take(n - 1));
        assert(component_samples(sc[n - 1]) == 20);
        let prev = sample_freqs(sc.take(n - 1));
        let cur = sample_freqs(sc.take(n));
        assert(cur == prev + repeat_nat(sc[n - 1].freq as nat, 20));
        assert forall|j: int, m: int| 0 <= j < n && 0 <= m < 20 implies #[trigger] cur[20 * j + m]
            == scan_freq(px, r, c, j) by {
            if j < n - 1 {
                assert(20 * j + m < 20 * (n - 1));
                assert(cur[20 * j + m] == prev[20 * j + m]);
            } else {
                assert(20 * j + m - 20 * (n - 1) == m);
            }
        }
    }
}

/// Samples in the sync, the separator, and the first `k` scans of a row with
/// their separators, as the encoder renders them.
pub open spec fn row_part_samples(k: nat) -> nat {
    239 + k * 6425
}

proof fn lemma_row_part_freqs(px: Seq<u8>, r: nat, k: nat)
    requires
        k <= 3,
    ensures
        sample_freqs(row_part(px, r, k)).len() == row_part_samples(k),
        forall|i: int| 0 <= i < 214 ==> #[trigger] sample_freqs(row_part(px, r, k))[i] == 1200,
        forall|i: int|
            214 <= i < 239 ==> #[trigger] sample_freqs(row_part(px, r, k))[i] == 1500,
        forall|s: int, j: int, m: int|
            0 <= s < k && 0 <= j < 320 && 0 <= m < 20 ==> #[trigger] sample_freqs(
                row_part(px, r, k),
            )[239 + s * 6425 + 20 * j + m] == scan_freq(px, r, channel_order(s as nat), j),
        forall|s: int, m: int|
            0 <= s < k && 0 <= m < 25 ==> #[trigger] sample_freqs(row_part(px, r, k))[239 + s
                * 6425 + 6400 + m] == 1500,
    decreases k,
{
    if k == 0 {
        let a = tone(SYNC_HZ, SYNC_NS);
        let b = tone(SEPARATOR_HZ, SEPARATOR_NS);
        assert(row_part(px, r, 0) =~= seq![a] + seq![b]);
        lemma_sample_freqs_append(seq![a], seq![b]);
        lemma_sample_freqs_one(a);
        lemma_sample_freqs_one(b);
        assert(component_samples(a) == 214);
        assert(component_samples(b) == 25);
    } else {
        let k1 = (k - 1) as nat;
        lemma_row_part_freqs(px, r, k1);
        let c = channel_order(k1);
        let sc = scan_segments(px, r, c);
        let sep = tone(SEPARATOR_HZ, SEPARATOR_NS);
        lemma_sample_freqs_append(row_part(px, r, k1), sc);
        lemma_sample_freqs_append(row_part(px, r, k1) + sc, seq![sep]);
        lemma_sample_freqs_one(sep);
        assert(component_samples(sep) == 25);
        lemma_scan_freqs(px, r, c, 320);
        assert(sc.take(320) =~= sc);
        let prev = sample_freqs(row_part(px, r, k1));
        let sf = sample_freqs(sc);
        let cur = sample_freqs(row_part(px, r, k));
        assert(cur == prev + sf + repeat_nat(1500, 25));
        assert forall|s: int, j: int, m: int|
            0 <= s < k && 0 <= j < 320 && 0 <= m < 20 implies #[trigger] cur[239 + s * 6425 + 20
            * j + m] == scan_freq(px, r, channel_order(s as nat), j) by {
            if s < k1 {
                assert(239 + s * 6425 + 20 * j + m < row_part_samples(k1));
                assert(cur[239 + s * 6425 + 20 * j + m] == prev[239 + s * 6425 + 20 * j + m]);
            } else {
                assert(239 + s * 6425 + 20 * j + m - prev.len() == 20 * j + m);
                assert(sf[20 * j + m] == scan_freq(px, r, c, j));
            }
        }
        assert forall|s: int, m: int| 0 <= s < k && 0 <= m < 25 implies #[trigger] cur[239 + s
            * 6425 + 6400 + m] == 1500 by {
            if s < k1 {
                assert(cur[239 + s * 6425 + 6400 + m] == prev[239 + s * 6425 + 6400 + m]);
            } else {
                assert(239 + s * 6425 + 6400 + m - prev.len() - sf.len() == m);
            }
        }
    }
}

proof fn lemma_first_away_at(t: Seq<i32>, p: nat, e: nat, f: int)
    requires
        p <= e < t.len(),
        forall|i: int| p <= i < e ==> near(#[trigger] t[i] as int, f),
        !near(t[e as int] as int, f),
    ensures
        first_away(t, p, f) == Some(e),
    decreases e - p,
{
    if p < e {
        lemma_first_away_at(t, p + 1, e, f);
    }
}

/// A row laid out as the encoder sends it decodes to its own pixels: where a
/// timeline holds, from position `p`, exactly the tones of row `r` of `px`
/// (sync, separator, then the green, blue and red scans each closed by a
/// separator), the row read from `p` ends just after them and gives every
/// channel value, or that value less one.
pub proof fn lemma_row_round_trip(px: Seq<u8>, r: nat, t: Seq<i32>, p: nat)
    requires
        px.len() == WIDTH * HEIGHT * 3,
        r < HEIGHT,
        p + row_part_samples(3) <= t.len(),
        t.subrange(p as int, (p + row_part_samples(3)) as int) == ideal_timeline(row_part(px, r, 3)),
    ensures
        decode_row(t, p) is Some,
        ({
            let (e, row) = decode_row(t, p)->0;
            &&& e == p + row_part_samples(3)
            &&& forall|i: int|
                0 <= i < crate::martinm1::ROW_BYTES ==> #[trigger] row[i] == px[r
                    * crate::martinm1::ROW_BYTES + i] || row[i] + 1 == px[r
                    * crate::martinm1::ROW_BYTES + i]
        }),
{
    let len = row_part_samples(3);
    let f = sample_freqs(row_part(px, r, 3));
    lemma_row_part_freqs(px, r, 3);
    crate::martinm1::lemma_sample_counts();
    assert forall|i: int| 0 <= i < len implies #[trigger] t[p + i] == (f[i] * 1000) as i32 by {
        assert(t.subrange(p as int, (p + len) as int)[i] == t[p + i]);
    }
    let sy = crate::martinm1::SYNC_MHZ as int;
    assert(f[0] == 1200);
    assert(t[p + 0int] == (f[0] * 1000) as i32);
    assert(t[p as int] == 1_200_000);
    assert(first_near(t, p, sy) == Some(p));
    assert forall|i: int| p <= i < p + 214 implies near(#[trigger] t[i] as int, sy) by {
        assert(t[p + (i - p)] == (f[i - p] * 1000) as i32);
    }
    assert(f[214] == 1500);
    assert(t[p + 214int] == (f[214] * 1000) as i32);
    assert(t[(p + 214) as int] == 1_500_000);
    lemma_first_away_at(t, p, (p + 214) as nat, sy);
    let q = p + 239;
    assert(row_sync(t, p) == Some(q));
    assert(decode_row(t, p) == Some((q + row_samples(), row_pixels(t, q))));
    let row = row_pixels(t, q);
    assert forall|i: int| 0 <= i < crate::martinm1::ROW_BYTES implies #[trigger] row[i] == px[r
        * crate::martinm1::ROW_BYTES + i] || row[i] + 1 == px[r * crate::martinm1::ROW_BYTES
        + i] by {
        let c = i % 3;
        let j = i / 3;
        assert(i == 3 * j + c && 0 <= c < 3 && 0 <= j < 320) by (nonlinear_arith)
            requires
                0 <= i < 960,
                c == i % 3,
                j == i / 3,
        ;
        let sl = slot_of(c as nat);
        assert(channel_order(sl) == c);
        let st = pixel_start(q, sl, j as nat);
        assert(st == p + 239 + sl * 6425 + 20 * j);
        let v = px[channel_index(WIDTH as nat, j as nat, r, c as nat) as int];
        assert(channel_index(WIDTH as nat, j as nat, r, c as nat) == r * 960 + i) by (nonlinear_arith)
            requires
                i == 3 * j + c,
                channel_index(WIDTH as nat, j as nat, r, c as nat) == (r * 320 + j) * 3 + c,
        ;
        let x = (pixel_freq(v) * 1000) as i32;
        assert(t.subrange(st as int, (st + 20) as int) =~= Seq::new(20, |m: int| x)) by {
            assert forall|m: int| 0 <= m < 20 implies #[trigger] t.subrange(st as int, (st + 20) as int)[m]
                == x by {
                assert(t[p + (239 + sl * 6425 + 20 * j + m)] == (f[239 + sl * 6425 + 20 * j + m]
                    * 1000) as i32);
            }
        }
        lemma_pixel_round_trip(v, 20);
    }
}

proof fn lemma_rows_freqs(px: Seq<u8>, n: nat)
    requires
        n <= HEIGHT,
    ensures
        sample_freqs(rows_segments(px, n)).len() == n * row_part_samples(3),
        forall|r: int|
            0 <= r < n ==> #[trigger] sample_freqs(rows_segments(px, n)).subrange(
                r * row_part_samples(3),
                (r + 1) * row_part_samples(3),
            ) == sample_freqs(row_part(px, r as nat, 3)),
    decreases n,
{
    let len = row_part_samples(3);
    assert(len == 19514);
    if n == 0 {
        assert(rows_segments(px, 0) =~= Seq::<Component>::empty());
    } else {
        let n1 = (n - 1) as nat;
        lemma_rows_freqs(px, n1);
        lemma_sample_freqs_append(rows_segments(px, n1), row_part(px, n1, 3));
        lemma_row_part_freqs(px, n1, 3);
        let prev = sample_freqs(rows_segments(px, n1));
        let cur = sample_freqs(rows_segments(px, n));
        assert(cur == prev + sample_freqs(row_part(px, n1, 3)));
        assert(n1 * len + len == n * len) by (nonlinear_arith)
            requires
                n1 + 1 == n,
        ;
        assert forall|r: int| 0 <= r < n implies #[trigger] cur.subrange(r * len, (r + 1) * len)
            == sample_freqs(row_part(px, r as nat, 3)) by {
            if r < n1 {
                assert((r + 1) * len <= n1 * len) by (nonlinear_arith)
                    requires
                        r + 1 <= n1,
                ;
                assert(0 <= r * len) by (nonlinear_arith)
                    requires
                        0 <= r,
                ;
                assert(r * len <= (r + 1) * len) by (nonlinear_arith)
                    requires
                        0 <= r,
                        len == 19514,
                ;
                assert(cur.subrange(r * len, (r + 1) * len) =~= prev.subrange(r * len, (r + 1) * len));
            } else {
                assert(r * len == n1 * len);
                assert(cur.subrange(r * len, (r + 1) * len) =~= sample_freqs(row_part(px, n1, 3)));
            }
        }
    }
}

/// Whether the first `n` bytes of `out` each equal the byte of `px`, or one less.
pub open spec fn close_up_to(out: Seq<u8>, px: Seq<u8>, n: int) -> bool {
    forall|i: int| 0 <= i < n ==> #[trigger] out[i] == px[i] || out[i] + 1 == px[i]
}

proof fn lemma_rows_from(px: Seq<u8>, r: nat, img: Seq<u8>)
    requires
        px.len() == WIDTH * HEIGHT * 3,
        img.len() == px.len(),
        r <= HEIGHT,
        close_up_to(img, px, r * ROW_BYTES),
    ensures
        ({
            let t = ideal_timeline(rows_segments(px, HEIGHT as nat));
            let (e, r2, out) = decode_rows(t, r * row_part_samples(3), r, img);
            &&& e == t.len()
            &&& r2 == HEIGHT
            &&& out.len() == px.len()
            &&& close_up_to(out, px, px.len() as int)
        }),
    decreases HEIGHT - r,
{
    let len = row_part_samples(3);
    let t = ideal_timeline(rows_segments(px, HEIGHT as nat));
    lemma_rows_freqs(px, HEIGHT as nat);
    if r < HEIGHT {
        let p = r * len;
        assert((r + 1) * len <= HEIGHT * len) by (nonlinear_arith)
            requires
                r + 1 <= HEIGHT,
        ;
        assert(r * len + len == (r + 1) * len) by (nonlinear_arith);
        let fr = sample_freqs(rows_segments(px, HEIGHT as nat)).subrange(p as int, ((r + 1) * len) as int);
        assert(fr == sample_freqs(row_part(px, r, 3)));
        assert(t.subrange(p as int, (p + len) as int) =~= ideal_timeline(row_part(px, r, 3))) by {
            lemma_row_part_freqs(px, r, 3);
            assert forall|i: int| 0 <= i < len implies #[trigger] t.subrange(
                p as int,
                (p + len) as int,
            )[i] == ideal_timeline(row_part(px, r, 3))[i] by {
                assert(fr[i] == sample_freqs(rows_segments(px, HEIGHT as nat))[p + i]);
            }
        }
        lemma_row_round_trip(px, r, t, p);
        let (e, row) = decode_row(t, p)->0;
        let img2 = with_row(img, r, row);
        assert(r * ROW_BYTES + ROW_BYTES == (r + 1) * ROW_BYTES) by (nonlinear_arith);
        assert((r + 1) * ROW_BYTES <= HEIGHT * ROW_BYTES) by (nonlinear_arith)
            requires
                r + 1 <= HEIGHT,
        ;
        assert forall|i: int| 0 <= i < (r + 1) * ROW_BYTES implies #[trigger] img2[i] == px[i]
            || img2[i] + 1 == px[i] by {
            if i >= r * ROW_BYTES {
                let k = i - r * ROW_BYTES;
                assert(row[k] == px[r * ROW_BYTES + k] || row[k] + 1 == px[r * ROW_BYTES + k]);
            }
        }
        lemma_rows_from(px, r + 1, img2);
    } else {
        assert(r * ROW_BYTES == px.len());
    }
}

/// Once the header is behind, the rows decode to the image that was encoded:
/// read from the start of the clean, exactly timed tones of all 256 rows of
/// `px`, every row is decoded, the timeline is used up exactly, and each
/// channel value comes out equal, or one less.
pub proof fn lemma_rows_round_trip(px: Seq<u8>, img: Seq<u8>)
    requires
        px.len() == WIDTH * HEIGHT * 3,
        img.len() == px.len(),
    ensures
        ({
            let t = ideal_timeline(rows_segments(px, HEIGHT as nat));
            let (e, r, out) = decode_rows(t, 0, 0, img);
            &&& e == t.len()
            &&& r == HEIGHT
            &&& out.len() == px.len()
            &&& close_up_to(out, px, px.len() as int)
        }),
{
    lemma_rows_from(px, 0, img);
}

proof fn lemma_row_far_from_sync(px: Seq<u8>, r: nat, i: int)
    requires
        214 <= i < row_part_samples(3),
    ensures
        1500 <= sample_freqs(row_part(px, r, 3))[i] <= 2300,
{
    lemma_row_part_freqs(px, r, 3);
    if i >= 239 {
        let x = i - 239;
        let s = x / 6425;
        let y = x % 6425;
        assert(x == 6425 * s + y && 0 <= y < 6425 && 0 <= s < 3) by (nonlinear_arith)
            requires
                0 <= x < 3 * 6425,
                s == x / 6425,
                y == x % 6425,
        ;
        if y < 6400 {
            let j = y / 20;
            let m = y % 20;
            assert(y == 20 * j + m && 0 <= m < 20 && 0 <= j < 320) by (nonlinear_arith)
                requires
                    0 <= y < 6400,
                    j == y / 20,
                    m == y % 20,
            ;
            assert(sample_freqs(row_part(px, r, 3))[239 + s * 6425 + 20 * j + m] == scan_freq(
                px,
                r,
                channel_order(s as nat),
                j,
            ));
            let v = px[channel_index(WIDTH as nat, j as nat, r, channel_order(s as nat)) as int];
            assert((v as int) * 800 / 255 <= 800) by (nonlinear_arith)
                requires
                    0 <= v <= 255,
            ;
        } else {
            assert(sample_freqs(row_part(px, r, 3))[239 + s * 6425 + 6400 + (y - 6400)] == 1500);
        }
    }
}

/// Number of samples the first `k` components of `s` render to.
spec fn start_of(s: Seq<Component>, k: int) -> nat {
    sample_freqs(s.take(k)).len()
}

proof fn lemma_start_next(s: Seq<Component>, k: int)
    requires
        0 <= k < s.len(),
    ensures
        sample_freqs(s.take(k + 1)) == sample_freqs(s.take(k)) + repeat_nat(
            s[k].freq as nat,
            component_samples(s[k]),
        ),
        start_of(s, k + 1) == start_of(s, k) + component_samples(s[k]),
{
    assert(s.take(k + 1).drop_last() =~= s.take(k));
}

proof fn lemma_sample_freqs_index(s: Seq<Component>, k: int, m: int)
    requires
        0 <= k < s.len(),
        0 <= m < component_samples(s[k]),
    ensures
        start_of(s, k) + m < sample_freqs(s).len(),
        sample_freqs(s)[start_of(s, k) + m] == s[k].freq,
{
    lemma_start_next(s, k);
    assert(s =~= s.take(k + 1) + s.skip(k + 1));
    lemma_sample_freqs_append(s.take(k + 1), s.skip(k + 1));
}

proof fn lemma_header_freqs()
    ensures
        sample_freqs(header_segments()).len() == 38808,
        forall|i: int|
            0 <= i < 13230 ==> #[trigger] sample_freqs(header_segments())[i] == LEADER_HZ,
        forall|i: int|
            13230 <= i < 13671 ==> #[trigger] sample_freqs(header_segments())[i] == SYNC_HZ,
        forall|i: int|
            13671 <= i < 26901 ==> #[trigger] sample_freqs(header_segments())[i] == LEADER_HZ,
        forall|i: int|
            26901 <= i < 28224 ==> #[trigger] sample_freqs(header_segments())[i] == SYNC_HZ,
        forall|k: int, m: int|
            0 <= k < 7 && 0 <= m < 1323 ==> #[trigger] sample_freqs(header_segments())[28224 + 1323
                * k + m] == vis_tone(k).freq,
        forall|i: int|
            37485 <= i < 38808 ==> #[trigger] sample_freqs(header_segments())[i] == SYNC_HZ,
{
    let hs = header_segments();
    assert(hs.len() == 12);
    let n = |k: int| component_samples(hs[k]);
    assert(n(0) == 13230 && n(1) == 441 && n(2) == 13230);
    assert forall|k: int| 3 <= k < 12 implies #[trigger] component_samples(hs[k]) == 1323 by {}
    assert(hs.take(0) =~= Seq::<Component>::empty());
    assert(start_of(hs, 0) == 0);
    lemma_start_next(hs, 0);
    lemma_start_next(hs, 1);
    lemma_start_next(hs, 2);
    lemma_start_next(hs, 3);
    lemma_start_next(hs, 4);
    lemma_start_next(hs, 5);
    lemma_start_next(hs, 6);
    lemma_start_next(hs, 7);
    lemma_start_next(hs, 8);
    lemma_start_next(hs, 9);
    lemma_start_next(hs, 10);
    lemma_start_next(hs, 11);
    assert forall|k: int| 4 <= k <= 11 implies #[trigger] start_of(hs, k) == 28224 + 1323 * (k - 4) by {}
    assert(hs.take(12) =~= hs);
    let h = sample_freqs(hs);
    assert forall|i: int| 0 <= i < 13230 implies #[trigger] h[i] == LEADER_HZ by {
        lemma_sample_freqs_index(hs, 0, i);
    }
    assert forall|i: int| 13230 <= i < 13671 implies #[trigger] h[i] == SYNC_HZ by {
        lemma_sample_freqs_index(hs, 1, i - 13230);
    }
    assert forall|i: int| 13671 <= i < 26901 implies #[trigger] h[i] == LEADER_HZ by {
        lemma_sample_freqs_index(hs, 2, i - 13671);
    }
    assert forall|i: int| 26901 <= i < 28224 implies #[trigger] h[i] == SYNC_HZ by {
        lemma_sample_freqs_index(hs, 3, i - 26901);
    }
    assert forall|k: int, m: int| 0 <= k < 7 && 0 <= m < 1323 implies #[trigger] h[28224 + 1323 * k
        + m] == vis_tone(k).freq by {
        lemma_sample_freqs_index(hs, 4 + k, m);
    }
    assert forall|i: int| 37485 <= i < 38808 implies #[trigger] h[i] == SYNC_HZ by {
        lemma_sample_freqs_index(hs, 11, i - 37485);
    }
}

proof fn lemma_first_near_at(t: Seq<i32>, p: nat, e: nat, f: int)
    requires
        p <= e < t.len(),
        forall|i: int| p <= i < e ==> !near(#[trigger] t[i] as int, f),
        near(t[e as int] as int, f),
    ensures
        first_near(t, p, f) == Some(e),
    decreases e - p,
{
    if p < e {
        lemma_first_near_at(t, p + 1, e, f);
    }
}

proof fn lemma_skip_not_near(t: Seq<i32>, a: nat, b: nat, f: int)
    requires
        a <= b <= t.len(),
        forall|i: int| a <= i < b ==> !near(#[trigger] t[i] as int, f),
    ensures
        first_near(t, a, f) == first_near(t, b, f),
    decreases b - a,
{
    if a < b {
        lemma_skip_not_near(t, a + 1, b, f);
    }
}

proof fn lemma_mean_constant(t: Seq<i32>, a: nat, n: nat, x: i32)
    requires
        n > 0,
        a + n <= t.len(),
        forall|i: int| a <= i < a + n ==> #[trigger] t[i] == x,
    ensures
        mean(t.subrange(a as int, (a + n) as int)) == x,
{
    assert(t.subrange(a as int, (a + n) as int) =~= Seq::new(n, |i: int| x));
    lemma_freq_sum_constant(x, n);
    assert(n * x == x * n) by (nonlinear_arith);
    vstd::arithmetic::div_mod::lemma_div_multiples_vanish(x as int, n as int);
}

/// Start of the sync of image row `r` in the rendered transmission.
spec fn row_start(r: nat) -> nat {
    38808 + r * row_part_samples(3)
}

proof fn lemma_transmission_timeline(px: Seq<u8>)
    ensures
        ({
            let t = ideal_timeline(martin_m1_segments(px));
            let h = sample_freqs(header_segments());
            let rows = sample_freqs(rows_segments(px, HEIGHT as nat));
            &&& t.len() == row_start(HEIGHT as nat) + 4410
            &&& forall|i: int| 0 <= i < 38808 ==> #[trigger] t[i] == (h[i] * 1000) as i32
            &&& forall|i: int|
                38808 <= i < row_start(HEIGHT as nat) ==> #[trigger] t[i] == (rows[i - 38808]
                    * 1000) as i32
            &&& forall|i: int| row_start(HEIGHT as nat) <= i < t.len() ==> #[trigger] t[i] == 0
        }),
{
    let h = sample_freqs(header_segments());
    let rows = sample_freqs(rows_segments(px, HEIGHT as nat));
    let tr = tone(0, TRAILER_NS);
    lemma_header_freqs();
    lemma_rows_freqs(px, HEIGHT as nat);
    lemma_sample_freqs_append(header_segments(), rows_segments(px, HEIGHT as nat));
    lemma_sample_freqs_append(header_segments() + rows_segments(px, HEIGHT as nat), seq![tr]);
    lemma_sample_freqs_one(tr);
    assert(component_samples(tr) == 4410);
    let f = sample_freqs(martin_m1_segments(px));
    assert(f == h + rows + repeat_nat(0, 4410));
}

proof fn lemma_rows_shifted(px: Seq<u8>, r: nat, img: Seq<u8>)
    requires
        px.len() == WIDTH * HEIGHT * 3,
        img.len() == px.len(),
        r < HEIGHT,
        forall|i: int|
            0 <= i < r * ROW_BYTES ==> #[trigger] img[i] == px[i + ROW_BYTES] || img[i] + 1 == px[i
                + ROW_BYTES],
        forall|i: int| (HEIGHT - 1) * ROW_BYTES <= i < img.len() ==> #[trigger] img[i] == 0,
    ensures
        ({
            let t = ideal_timeline(martin_m1_segments(px));
            let (e, r2, out) = decode_rows(t, row_start(r + 1), r, img);
            &&& e == row_start(HEIGHT as nat)
            &&& r2 == HEIGHT - 1
            &&& out.len() == px.len()
            &&& forall|i: int|
                0 <= i < (HEIGHT - 1) * ROW_BYTES ==> #[trigger] out[i] == px[i + ROW_BYTES]
                    || out[i] + 1 == px[i + ROW_BYTES]
            &&& forall|i: int| (HEIGHT - 1) * ROW_BYTES <= i < out.len() ==> #[trigger] out[i] == 0
            &&& r + 1 < HEIGHT ==> decode_row(t, row_start(r + 1)) is Some
        }),
    decreases HEIGHT - r,
{
    let len = row_part_samples(3);
    assert(len == 19514);
    let t = ideal_timeline(martin_m1_segments(px));
    lemma_transmission_timeline(px);
    lemma_rows_freqs(px, HEIGHT as nat);
    let rows = sample_freqs(rows_segments(px, HEIGHT as nat));
    let p = row_start(r + 1);
    if r + 1 < HEIGHT {
        let r1 = (r + 1) as nat;
        let fr = rows.subrange((r1 * len) as int, ((r1 + 1) * len) as int);
        assert(fr == sample_freqs(row_part(px, r1, 3)));
        assert(t.subrange(p as int, (p + len) as int) =~= ideal_timeline(row_part(px, r1, 3))) by {
            lemma_row_part_freqs(px, r1, 3);
            assert forall|i: int| 0 <= i < len implies #[trigger] t.subrange(
                p as int,
                (p + len) as int,
            )[i] == ideal_timeline(row_part(px, r1, 3))[i] by {
                assert(t[p + i] == (rows[p + i - 38808] * 1000) as i32);
                assert(fr[i] == rows[r1 * len + i]);
            }
        }
        lemma_row_round_trip(px, r1, t, p);
        let (e, row) = decode_row(t, p)->0;
        let img2 = with_row(img, r, row);
        assert forall|i: int| 0 <= i < (r + 1) * ROW_BYTES implies #[trigger] img2[i] == px[i
            + ROW_BYTES] || img2[i] + 1 == px[i + ROW_BYTES] by {
            if i >= r * ROW_BYTES {
                let k = i - r * ROW_BYTES;
                assert(row[k] == px[r1 * ROW_BYTES + k] || row[k] + 1 == px[r1 * ROW_BYTES + k]);
                assert(r1 * ROW_BYTES + k == i + ROW_BYTES);
            }
        }
        lemma_rows_shifted(px, r1, img2);
    } else {
        let sy = crate::martinm1::SYNC_MHZ as int;
        lemma_skip_not_near(t, p, t.len(), sy);
        assert(first_near(t, t.len(), sy) is None);
        assert(decode_row(t, p) is None);
    }
}

/// What the decoder makes of a clean transmission, every sample exactly at its
/// component's tone. It finds the header and reads VIS code 44, but the stop
/// bit and the first row's sync are one unbroken 1200 Hz tone, so the header's
/// last step passes that sync too and each row is read from the next row's
/// tones. Rows 0 to 254 come out as rows 1 to 255 of the image, each channel
/// equal or one less, the last row stays black, and since no sync follows the
/// last row the outcome is partial, never finished.
pub proof fn lemma_clean_transmission_decode(px: Seq<u8>)
    requires
        px.len() == WIDTH * HEIGHT * 3,
    ensures
        calibration_header(ideal_timeline(martin_m1_segments(px)), 0) == Some((39022nat, 44u8)),
        ({
            let (s, o) = decode_step(fresh_state(), ideal_timeline(martin_m1_segments(px)));
            &&& o == Outcome::Partial(s.image)
            &&& !s.in_header
            &&& s.next_row == HEIGHT - 1
            &&& s.image.len() == px.len()
            &&& forall|i: int|
                0 <= i < (HEIGHT - 1) * ROW_BYTES ==> #[trigger] s.image[i] == px[i + ROW_BYTES]
                    || s.image[i] + 1 == px[i + ROW_BYTES]
            &&& forall|i: int| (HEIGHT - 1) * ROW_BYTES <= i < s.image.len() ==> #[trigger] s.image[i]
                == 0
        }),
{
    let t = ideal_timeline(martin_m1_segments(px));
    let h = sample_freqs(header_segments());
    let rows = sample_freqs(rows_segments(px, HEIGHT as nat));
    let len = row_part_samples(3);
    assert(len == 19514);
    lemma_transmission_timeline(px);
    lemma_header_freqs();
    lemma_rows_freqs(px, HEIGHT as nat);
    lemma_row_part_freqs(px, 0, 3);
    crate::martinm1::lemma_sample_counts();
    let l = LEADER_MHZ as int;
    let sy = crate::martinm1::SYNC_MHZ as int;
    let r0 = sample_freqs(row_part(px, 0, 3));
    let z: int = 0;
    assert(rows.subrange(z * len, (z + 1) * len) == r0);
    assert forall|i: int| 0 <= i < len implies #[trigger] rows[i] == r0[i] by {
        assert(rows.subrange(z * len, (z + 1) * len)[i] == rows[i]);
    }
    // Leader, break, leader.
    assert(t[0] == 1_900_000);
    assert(first_near(t, 0, l) == Some(0nat));
    assert(t[13230] == 1_200_000);
    lemma_first_away_at(t, 0, 13230, l);
    assert(first_near(t, 13230, sy) == Some(13230nat));
    assert(t[13671] == 1_900_000);
    lemma_first_near_at(t, 13230, 13671, l);
    assert(t[26901] == 1_200_000);
    lemma_first_away_at(t, 13671, 26901, l);
    assert(leaders_end(t, 0) == Some(26901nat));
    // The seven bit periods: start bit, then VIS bits 0 to 5.
    let q = 26901nat;
    lemma_mean_constant(t, q, 1323, 1_200_000);
    assert(!vis_bit(t, q, 0));
    assert forall|k: int| 1 <= k <= 6 implies #[trigger] vis_bit(t, q, k as nat) == vis_bit_set(k - 1) by {
        let a = (q + k * 1323) as nat;
        assert(a == 28224 + 1323 * (k - 1));
        let x = (vis_tone(k - 1).freq * 1000) as i32;
        assert forall|i: int| a <= i < a + 1323 implies #[trigger] t[i] == x by {
            assert(h[28224 + 1323 * (k - 1) + (i - a)] == vis_tone(k - 1).freq);
        }
        lemma_mean_constant(t, a, 1323, x);
    }
    reveal_with_fuel(vis_value, 7);
    assert(vis_value(t, q, 6) == 44);
    // VIS bit 6, the stop bit and the first row's sync, up to its separator.
    assert forall|i: int| 36162 <= i < 39022 implies near(#[trigger] t[i] as int, sy) by {
        if i < 37485 {
            assert(h[28224 + 1323 * 6 + (i - 36162)] == vis_tone(6).freq);
        } else if i >= 38808 {
            assert(rows[i - 38808] == r0[i - 38808]);
        }
    }
    assert(rows[214] == r0[214]);
    assert(t[39022] == 1_500_000);
    lemma_first_away_at(t, 36162, 39022, sy);
    assert(calibration_header(t, 0) == Some((39022nat, 44u8)));
    // The first row's search for a sync runs on to the second row's.
    assert(row_start(1) == 58322);
    assert forall|i: int| 39022 <= i < row_start(1) implies !near(#[trigger] t[i] as int, sy) by {
        lemma_row_far_from_sync(px, 0, i - 38808);
        assert(rows[i - 38808] == r0[i - 38808]);
        assert(t[i] == (rows[i - 38808] * 1000) as i32);
        assert(r0[i - 38808] >= 1500);
    }
    lemma_skip_not_near(t, 39022, row_start(1), sy);
    let s0 = fresh_state();
    assert(decode_row(t, 39022) == decode_row(t, row_start(1)));
    lemma_rows_shifted(px, 0, s0.image);
    assert(decode_row(t, row_start(1)) is Some);
    assert(decode_rows(t, 39022, 0, s0.image) == decode_rows(t, row_start(1), 0, s0.image));
}

/// The decoder recognises the VIS code of every transmission, 44 for Martin M1
/// as the decoder weighs the bits, after leading input of any length in which
/// no sample lies within 250 Hz of the 1900 Hz leader, silence among it.
pub proof fn lemma_vis_recognised_after_silence(px: Seq<u8>, z: Seq<i32>)
    requires
        px.len() == WIDTH * HEIGHT * 3,
        forall|i: int| 0 <= i < z.len() ==> !near(#[trigger] z[i] as int, LEADER_MHZ as int),
    ensures
        calibration_header(z + ideal_timeline(martin_m1_segments(px)), 0) == Some(
            (39022 + z.len(), 44u8),
        ),
{
    lemma_clean_transmission_decode(px);
    lemma_header_after_silence(z, ideal_timeline(martin_m1_segments(px)));
}

/// Encoding is deterministic: equal pixels give equal transmissions and equal
/// rendered samples.
pub proof fn lemma_encode_deterministic(a: Seq<u8>, b: Seq<u8>)
    requires
        a == b,
    ensures
        martin_m1_segments(a) == martin_m1_segments(b),
        rendered_phases(martin_m1_segments(a)) == rendered_phases(martin_m1_segments(b)),
{
}

} // verus!
