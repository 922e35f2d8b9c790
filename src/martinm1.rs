//! The Martin M1 mode: encoder and streaming decoder.
use vstd::prelude::*;

use crate::common::{first_away, first_near, mean, span_samples, Component, DSPOut, Signal};
use crate::raster::{channel_index, nearest_resized, resize_nearest, Raster};

verus! {

/// Width of a Martin M1 image in pixels.
pub const WIDTH: u32 = 320;

/// Height of a Martin M1 image in pixels.
pub const HEIGHT: u32 = 256;

/// Bytes of one RGB row of the image.
pub const ROW_BYTES: usize = 960;

/// Leader tone, in hertz.
pub const LEADER_HZ: usize = 1900;

/// Break, VIS start and stop bits, and scanline sync, in hertz.
pub const SYNC_HZ: usize = 1200;

/// A VIS bit of value one, in hertz.
pub const VIS_ONE_HZ: usize = 1100;

/// A VIS bit of value zero, in hertz.
pub const VIS_ZERO_HZ: usize = 1300;

/// Colour separator and black level, in hertz.
pub const SEPARATOR_HZ: usize = 1500;

/// Width of the band that pixel brightness spans above black, in hertz.
pub const PIXEL_RANGE_HZ: usize = 800;

/// Leader tone duration, in nanoseconds.
pub const LEADER_NS: u64 = 300_000_000;

/// Break between the leader tones, in nanoseconds.
pub const BREAK_NS: u64 = 10_000_000;

/// Duration of each VIS bit, start and stop bits included, in nanoseconds.
pub const VIS_BIT_NS: u64 = 30_000_000;

/// Scanline sync pulse, in nanoseconds.
pub const SYNC_NS: u64 = 4_862_000;

/// Colour separator, in nanoseconds.
pub const SEPARATOR_NS: u64 = 572_000;

/// One pixel of one channel, in nanoseconds.
pub const PIXEL_NS: u64 = 457_600;

/// Silence closing the transmission, in nanoseconds.
pub const TRAILER_NS: u64 = 100_000_000;

/// Tone frequency of a channel value: black at 1500 Hz up to white at 2300 Hz.
pub open spec fn pixel_freq(v: u8) -> nat {
    SEPARATOR_HZ as nat + (v as nat) * (PIXEL_RANGE_HZ as nat) / 255
}

/// The channel sent in slot `k` of a scanline: green, blue, then red.
pub open spec fn channel_order(k: nat) -> nat {
    if k == 0 {
        1
    } else if k == 1 {
        2
    } else {
        0
    }
}

/// A component of frequency `freq` hertz held for `len_ns` nanoseconds.
pub open spec fn tone(freq: usize, len_ns: u64) -> Component {
    Component { freq, len_ns }
}

/// Whether VIS bit `k` of the Martin M1 code is a one.
pub open spec fn vis_bit_set(k: int) -> bool {
    k == 0 || k == 2 || k == 3 || k == 6
}

/// Tone of VIS bit `k`.
pub open spec fn vis_tone(k: int) -> Component {
    tone(if vis_bit_set(k) { VIS_ONE_HZ } else { VIS_ZERO_HZ }, VIS_BIT_NS)
}

/// Leader, break, leader, then the VIS code framed by its start and stop bits.
pub open spec fn header_segments() -> Seq<Component> {
    seq![tone(LEADER_HZ, LEADER_NS), tone(SYNC_HZ, BREAK_NS), tone(LEADER_HZ, LEADER_NS)]
        + seq![tone(SYNC_HZ, VIS_BIT_NS)]
        + Seq::new(7, |k: int| vis_tone(k))
        + seq![tone(SYNC_HZ, VIS_BIT_NS)]
}

/// The pixel tones of channel `c` of row `row`.
pub open spec fn scan_segments(px: Seq<u8>, row: nat, c: nat) -> Seq<Component> {
    Seq::new(
        WIDTH as nat,
        |j: int|
            tone(
                pixel_freq(px[channel_index(WIDTH as nat, j as nat, row, c) as int]) as usize,
                PIXEL_NS,
            ),
    )
}

/// The sync and separator opening row `row`, followed by its first `k`
/// channel scans, each closed by a separator.
pub open spec fn row_part(px: Seq<u8>, row: nat, k: nat) -> Seq<Component>
    decreases k,
{
    if k == 0 {
        seq![tone(SYNC_HZ, SYNC_NS), tone(SEPARATOR_HZ, SEPARATOR_NS)]
    } else {
        row_part(px, row, (k - 1) as nat) + scan_segments(px, row, channel_order((k - 1) as nat))
            + seq![tone(SEPARATOR_HZ, SEPARATOR_NS)]
    }
}

/// The first `n` rows of the image.
pub open spec fn rows_segments(px: Seq<u8>, n: nat) -> Seq<Component>
    decreases n,
{
    if n == 0 {
        seq![]
    } else {
        rows_segments(px, (n - 1) as nat) + row_part(px, (n - 1) as nat, 3)
    }
}

/// The whole Martin M1 transmission of a 320 by 256 RGB buffer.
pub open spec fn martin_m1_segments(px: Seq<u8>) -> Seq<Component> {
    header_segments() + rows_segments(px, HEIGHT as nat) + seq![tone(0, TRAILER_NS)]
}

/// The channel sent in slot `k` of a scanline.
fn channel_at(k: usize) -> (r: usize)
    requires
        k < 3,
    ensures
        r == channel_order(k as nat),
{
    if k == 0 {
        1
    } else if k == 1 {
        2
    } else {
        0
    }
}

/// Tone frequency of a channel value.
fn freq_of(v: u8) -> (r: usize)
    ensures
        r == pixel_freq(v),
{
    SEPARATOR_HZ + (v as usize * PIXEL_RANGE_HZ) / 255
}

/// Add a 1200 Hz, 4.862 ms sync pulse: it opens every scanline.
fn sync(out: &mut Signal)
    ensures
        final(out)@ == old(out)@.push(tone(SYNC_HZ, SYNC_NS)),
{
    out.push(SYNC_HZ, SYNC_NS);
}

/// Add a 1500 Hz, 572 us separator between consecutive colour channels.
fn colour_sep(out: &mut Signal)
    ensures
        final(out)@ == old(out)@.push(tone(SEPARATOR_HZ, SEPARATOR_NS)),
{
    out.push(SEPARATOR_HZ, SEPARATOR_NS);
}

/// Leader tone, in millihertz.
pub const LEADER_MHZ: i32 = 1_900_000;

/// Sync tone, in millihertz.
pub const SYNC_MHZ: i32 = 1_200_000;

/// Black level, in millihertz.
pub const BLACK_MHZ: i64 = 1_500_000;

/// Width of the brightness band, in millihertz.
pub const RANGE_MHZ: i64 = 800_000;

/// Samples in one pixel of one channel.
pub open spec fn pixel_samples() -> nat {
    span_samples(PIXEL_NS as nat)
}

/// Samples in a colour separator.
pub open spec fn separator_samples() -> nat {
    span_samples(SEPARATOR_NS as nat)
}

/// Samples in a VIS bit.
pub open spec fn vis_samples() -> nat {
    span_samples(VIS_BIT_NS as nat)
}

/// Samples in one channel scan and the separator after it.
pub open spec fn slot_samples() -> nat {
    WIDTH as nat * pixel_samples() + separator_samples()
}

/// Samples in a row after its sync.
pub open spec fn row_samples() -> nat {
    3 * slot_samples()
}

/// Channel value of a mean frequency in millihertz: the fraction of the band
/// above 1500 Hz, scaled to 255, truncated and saturated to 0..=255.
pub open spec fn brightness(m: int) -> u8 {
    if m <= BLACK_MHZ {
        0
    } else if (m - BLACK_MHZ) * 255 / (RANGE_MHZ as int) >= 255 {
        255
    } else {
        ((m - BLACK_MHZ) * 255 / (RANGE_MHZ as int)) as u8
    }
}

/// Where the two leader tones end, searching from `p`: until the leader,
/// past it, until the break, until the second leader, past it.
pub open spec fn leaders_end(t: Seq<i32>, p: nat) -> Option<nat> {
    match first_near(t, p, LEADER_MHZ as int) {
        None => None,
        Some(a) => match first_away(t, a, LEADER_MHZ as int) {
            None => None,
            Some(b) => match first_near(t, b, SYNC_MHZ as int) {
                None => None,
                Some(c) => match first_near(t, c, LEADER_MHZ as int) {
                    None => None,
                    Some(d) => first_away(t, d, LEADER_MHZ as int),
                },
            },
        },
    }
}

/// Whether the `k`-th VIS bit period after `q` reads as a one: its mean lies
/// below 1200 Hz.
pub open spec fn vis_bit(t: Seq<i32>, q: nat, k: nat) -> bool {
    mean(t.subrange((q + k * vis_samples()) as int, (q + (k + 1) * vis_samples()) as int)) < SYNC_MHZ
}

/// Weight of the `k`-th VIS bit read: the first counts 64, halving down to 2.
pub open spec fn vis_weight(k: nat) -> nat {
    if k == 0 {
        64
    } else if k == 1 {
        32
    } else if k == 2 {
        16
    } else if k == 3 {
        8
    } else if k == 4 {
        4
    } else if k == 5 {
        2
    } else {
        0
    }
}

/// Value of the first `k` VIS bits read after `q`.
pub open spec fn vis_value(t: Seq<i32>, q: nat, k: nat) -> nat
    decreases k,
{
    if k == 0 {
        0
    } else {
        vis_value(t, q, (k - 1) as nat) + if vis_bit(t, q, (k - 1) as nat) {
            vis_weight((k - 1) as nat)
        } else {
            0
        }
    }
}

/// The calibration header searched from `p`: where it ends and the VIS code it
/// carries. After the leaders, seven bit periods are read; the first six make
/// the code and the seventh, the parity bit, is ignored. The search then skips
/// the stop bit.
pub open spec fn calibration_header(t: Seq<i32>, p: nat) -> Option<(nat, u8)> {
    match leaders_end(t, p) {
        None => None,
        Some(q) => if q + 7 * vis_samples() <= t.len() {
            match first_away(t, q + 7 * vis_samples(), SYNC_MHZ as int) {
                None => None,
                Some(e) => Some((e, vis_value(t, q, 6) as u8)),
            }
        } else {
            None
        },
    }
}

/// Where the pixels of a row begin, searching from `p`: until the sync tone,
/// past it, then past the separator.
pub open spec fn row_sync(t: Seq<i32>, p: nat) -> Option<nat> {
    match first_near(t, p, SYNC_MHZ as int) {
        None => None,
        Some(a) => match first_away(t, a, SYNC_MHZ as int) {
            None => None,
            Some(b) => if b + separator_samples() <= t.len() {
                Some(b + separator_samples())
            } else {
                None
            },
        },
    }
}

/// Start of pixel `j` of slot `k` of a row whose pixels begin at `q`.
pub open spec fn pixel_start(q: nat, k: nat, j: nat) -> nat {
    q + k * slot_samples() + j * pixel_samples()
}

/// Value of pixel `j` of slot `k` of a row whose pixels begin at `q`.
pub open spec fn pixel_value(t: Seq<i32>, q: nat, k: nat, j: nat) -> u8 {
    brightness(
        mean(
            t.subrange(pixel_start(q, k, j) as int, (pixel_start(q, k, j) + pixel_samples()) as int),
        ),
    )
}

/// Slot in which channel `c` is sent.
pub open spec fn slot_of(c: nat) -> nat {
    if c == 1 {
        0
    } else if c == 2 {
        1
    } else {
        2
    }
}

/// The RGB bytes of a row whose pixels begin at `q`.
pub open spec fn row_pixels(t: Seq<i32>, q: nat) -> Seq<u8> {
    Seq::new(WIDTH as nat * 3, |i: int| pixel_value(t, q, slot_of((i % 3) as nat), (i / 3) as nat))
}

/// A row read from `p`: where it ends and its RGB bytes, when the timeline
/// holds all of it.
pub open spec fn decode_row(t: Seq<i32>, p: nat) -> Option<(nat, Seq<u8>)> {
    match row_sync(t, p) {
        None => None,
        Some(q) => if q + row_samples() <= t.len() {
            Some((q + row_samples(), row_pixels(t, q)))
        } else {
            None
        },
    }
}

/// `img` with row `r` replaced by `row`.
pub open spec fn with_row(img: Seq<u8>, r: nat, row: Seq<u8>) -> Seq<u8> {
    Seq::new(
        img.len(),
        |i: int|
            if r * (WIDTH as nat * 3) <= i < (r + 1) * (WIDTH as nat * 3) {
                row[i - r * (WIDTH as nat * 3)]
            } else {
                img[i]
            },
    )
}

/// Rows decoded from `p` on, starting at row `r` of `img`, until the image is
/// complete or the timeline runs out: the position and row to resume from,
/// and the image.
pub open spec fn decode_rows(t: Seq<i32>, p: nat, r: nat, img: Seq<u8>) -> (nat, nat, Seq<u8>)
    decreases HEIGHT - r,
{
    if r >= HEIGHT {
        (p, r, img)
    } else {
        match decode_row(t, p) {
            None => (p, r, img),
            Some((e, row)) => decode_rows(t, e, r + 1, with_row(img, r, row)),
        }
    }
}

/// What the decoder keeps between calls.
pub struct DecoderState {
    /// The RGB bytes of the image decoded so far.
    pub image: Seq<u8>,
    /// Whether the calibration header is still to be found.
    pub in_header: bool,
    /// Where the next call resumes reading the timeline.
    pub cursor: nat,
    /// The next row to decode.
    pub next_row: nat,
}

/// What a call of the decoder reports.
pub enum Outcome {
    Finished(Seq<u8>),
    Partial(Seq<u8>),
    NoneFound,
}

/// The rows of a call once the header is behind, from position `p`.
pub open spec fn rows_step(t: Seq<i32>, p: nat, s: DecoderState) -> (DecoderState, Outcome) {
    let (e, r, img) = decode_rows(t, p, s.next_row, s.image);
    if r >= HEIGHT {
        (DecoderState { image: img, in_header: false, cursor: e, next_row: HEIGHT as nat }, Outcome::Finished(img))
    } else {
        (DecoderState { image: img, in_header: false, cursor: e, next_row: r }, Outcome::Partial(img))
    }
}

/// One call of the decoder on the timeline `t` of everything received so far.
pub open spec fn decode_step(s: DecoderState, t: Seq<i32>) -> (DecoderState, Outcome) {
    if s.in_header {
        match calibration_header(t, s.cursor) {
            None => (s, Outcome::NoneFound),
            Some((e, v)) => rows_step(t, e, s),
        }
    } else {
        rows_step(t, s.cursor, s)
    }
}

/// The result of a decode.
pub enum DecodeResult {
    /// Every row was decoded.
    Finished(Raster),
    /// The input ran out part way; the rows decoded so far.
    Partial(Raster),
    /// No calibration header has been found yet.
    NoneFound,
}

impl DecodeResult {
    /// The outcome reported, with the pixels of the image carried.
    pub open spec fn outcome(&self) -> Outcome {
        match self {
            DecodeResult::Finished(img) => Outcome::Finished(img.data@),
            DecodeResult::Partial(img) => Outcome::Partial(img.data@),
            DecodeResult::NoneFound => Outcome::NoneFound,
        }
    }

    /// Any image carried is 320 by 256.
    pub open spec fn wf(&self) -> bool {
        match self {
            DecodeResult::Finished(img) => img.wf() && img.width == WIDTH && img.height == HEIGHT,
            DecodeResult::Partial(img) => img.wf() && img.width == WIDTH && img.height == HEIGHT,
            DecodeResult::NoneFound => true,
        }
    }
}

/// Channel value of a mean frequency in millihertz.
fn to_brightness(m: i32) -> (r: u8)
    ensures
        r == brightness(m as int),
{
    let d: i64 = m as i64 - BLACK_MHZ;
    if d <= 0 {
        0
    } else {
        let v: u64 = (d as u64) * 255 / (RANGE_MHZ as u64);
        if v >= 255 {
            255
        } else {
            v as u8
        }
    }
}

/// Weight of the `k`-th VIS bit read.
fn vis_weight_at(k: usize) -> (r: u8)
    requires
        k < 6,
    ensures
        r == vis_weight(k as nat),
{
    if k == 0 {
        64
    } else if k == 1 {
        32
    } else if k == 2 {
        16
    } else if k == 3 {
        8
    } else if k == 4 {
        4
    } else {
        2
    }
}

/// Most that the first `k` VIS bits can add up to.
pub open spec fn vis_bound(k: nat) -> nat {
    if k == 0 {
        0
    } else if k == 1 {
        64
    } else if k == 2 {
        96
    } else if k == 3 {
        112
    } else if k == 4 {
        120
    } else if k == 5 {
        124
    } else {
        126
    }
}

proof fn lemma_vis_value_bound(t: Seq<i32>, q: nat, k: nat)
    requires
        k <= 6,
    ensures
        vis_value(t, q, k) <= vis_bound(k),
    decreases k,
{
    if k > 0 {
        lemma_vis_value_bound(t, q, (k - 1) as nat);
    }
}

/// The sample counts of the decoder's fixed durations: 20 for a pixel, 25 for
/// a separator, 1323 for a VIS bit.
pub proof fn lemma_sample_counts()
    ensures
        pixel_samples() == 20,
        separator_samples() == 25,
        vis_samples() == 1323,
        slot_samples() == 6425,
        row_samples() == 19275,
{
    assert(span_samples(PIXEL_NS as nat) == 20);
    assert(span_samples(SEPARATOR_NS as nat) == 25);
    assert(span_samples(VIS_BIT_NS as nat) == 1323);
}

/// Write `px` over row `row` of a 320 by 256 RGB buffer.
fn write_row(data: &mut Vec<u8>, row: u32, px: &Vec<u8>)
    requires
        old(data)@.len() == WIDTH * HEIGHT * 3,
        row < HEIGHT,
        px@.len() == WIDTH * 3,
    ensures
        final(data)@ == with_row(old(data)@, row as nat, px@),
{
    let base: usize = row as usize * ROW_BYTES;
    let ghost orig = data@;
    let mut i: usize = 0;
    while i < ROW_BYTES
        invariant
            i <= ROW_BYTES,
            base == row * ROW_BYTES,
            row < HEIGHT,
            px@.len() == ROW_BYTES,
            orig.len() == WIDTH * HEIGHT * 3,
            data@.len() == orig.len(),
            forall|x: int|
                0 <= x < data@.len() ==> #[trigger] data@[x] == if base <= x < base + i {
                    px@[x - base]
                } else {
                    orig[x]
                },
        decreases ROW_BYTES - i,
    {
        data[base + i] = px[i];
        i = i + 1;
    }
    assert forall|x: int| 0 <= x < data@.len() implies #[trigger] data@[x] == with_row(
        orig,
        row as nat,
        px@,
    )[x] by {
        assert(base + ROW_BYTES == (row + 1) * ROW_BYTES);
    }
    assert(data@ =~= with_row(orig, row as nat, px@));
}

/// A Martin M1 transcoder: it encodes images and decodes them back, one piece
/// of input at a time.
pub struct MartinM1 {
    /// The image decoded so far.
    image: Raster,
    /// Whether the calibration header is still to be found.
    in_header: bool,
    /// Where the next call resumes reading the timeline.
    cursor_pos: usize,
    /// The next row to decode.
    next_row: u32,
}

impl View for MartinM1 {
    type V = DecoderState;

    closed spec fn view(&self) -> DecoderState {
        DecoderState {
            image: self.image.data@,
            in_header: self.in_header,
            cursor: self.cursor_pos as nat,
            next_row: self.next_row as nat,
        }
    }
}

/// The state of a new transcoder: a black image, the header still to be found
/// from the start of the timeline.
pub open spec fn fresh_state() -> DecoderState {
    DecoderState {
        image: Seq::new(WIDTH as nat * HEIGHT as nat * 3, |i: int| 0u8),
        in_header: true,
        cursor: 0,
        next_row: 0,
    }
}

/// A decoder state that a transcoder can be in: a 320 by 256 RGB image and a
/// next row of at most 256.
pub open spec fn state_wf(s: DecoderState) -> bool {
    s.image.len() == WIDTH * HEIGHT * 3 && s.next_row <= HEIGHT
}

impl MartinM1 {
    /// A 320 by 256 RGB image and a next row of at most 256.
    pub closed spec fn wf(&self) -> bool {
        &&& self.image.wf()
        &&& self.image.width == WIDTH
        &&& self.image.height == HEIGHT
        &&& self.next_row <= HEIGHT
    }

    /// A transcoder with a black image, looking for a calibration header from
    /// the start of the timeline.
    pub fn new() -> (r: MartinM1)
        ensures
            r.wf(),
            state_wf(r@),
            r@ == fresh_state(),
    {
        let r = MartinM1 { image: Raster::new(WIDTH, HEIGHT), in_header: true, cursor_pos: 0, next_row: 0 };
        assert(r@.image =~= fresh_state().image);
        r
    }

    /// A copy of the image decoded so far.
    pub fn get_image(&self) -> (r: Raster)
        requires
            self.wf(),
        ensures
            r.wf(),
            r.width == WIDTH,
            r.height == HEIGHT,
            r.data@ == self@.image,
    {
        self.image.copy()
    }

    /// Look for the calibration header from the cursor, returning the VIS code
    /// and leaving the cursor past the stop bit when one is found.
    fn get_calibration_header(sig: &mut DSPOut) -> (r: Option<u8>)
        ensures
            final(sig)@.0 == old(sig)@.0,
            match calibration_header(old(sig)@.0, old(sig)@.1) {
                None => r is None,
                Some((e, v)) => r == Some(v) && final(sig)@.1 == e,
            },
    {
        if sig.take_till_frq(LEADER_MHZ).is_none() {
            return None;
        }
        if sig.take_while_frq(LEADER_MHZ).is_none() {
            return None;
        }
        if sig.take_till_frq(SYNC_MHZ).is_none() {
            return None;
        }
        if sig.take_till_frq(LEADER_MHZ).is_none() {
            return None;
        }
        if sig.take_while_frq(LEADER_MHZ).is_none() {
            return None;
        }
        let ghost t = sig@.0;
        let ghost q = sig@.1;
        proof {
            lemma_sample_counts();
        }
        let mut code: u8 = 0;
        let mut k: usize = 0;
        while k < 7
            invariant
                k <= 7,
                t == old(sig)@.0,
                sig@.0 == t,
                leaders_end(t, old(sig)@.1) == Some(q),
                sig@.1 == q + k * vis_samples(),
                sig@.1 <= t.len(),
                vis_samples() == 1323,
                code == vis_value(t, q, if k < 6 { k as nat } else { 6 }),
            decreases 7 - k,
        {
            match sig.take_us(VIS_BIT_NS) {
                None => {
                    return None;
                },
                Some(m) => {
                    proof {
                        lemma_vis_value_bound(t, q, k as nat);
                        assert(q + (k + 1) * vis_samples() == q + k * vis_samples() + vis_samples());
                    }
                    if k < 6 && m < SYNC_MHZ {
                        code = code + vis_weight_at(k);
                    }
                },
            }
            k = k + 1;
        }
        if sig.take_while_frq(SYNC_MHZ).is_none() {
            return None;
        }
        Some(code)
    }

    /// Read one row from the cursor: find its sync, skip the separator, and
    /// read the green, blue and red scans with the separator after each.
    fn read_row(out: &mut DSPOut) -> (r: Option<Vec<u8>>)
        ensures
            final(out)@.0 == old(out)@.0,
            match decode_row(old(out)@.0, old(out)@.1) {
                None => r is None,
                Some((e, px)) => r is Some && r->0@ == px && final(out)@.1 == e,
            },
    {
        proof {
            lemma_sample_counts();
        }
        if out.take_till_frq(SYNC_MHZ).is_none() {
            return None;
        }
        if out.take_while_frq(SYNC_MHZ).is_none() {
            return None;
        }
        if out.take_us(SEPARATOR_NS).is_none() {
            return None;
        }
        let ghost t = out@.0;
        let ghost q = out@.1;
        assert(row_sync(t, old(out)@.1) == Some(q));
        let mut buf: Vec<u8> = Vec::new();
        while buf.len() < ROW_BYTES
            invariant
                buf@.len() <= ROW_BYTES,
            decreases ROW_BYTES - buf@.len(),
        {
            buf.push(0);
        }
        let mut k: usize = 0;
        while k < 3
            invariant
                k <= 3,
                t == old(out)@.0,
                out@.0 == t,
                row_sync(t, old(out)@.1) == Some(q),
                out@.1 == pixel_start(q, k as nat, 0),
                out@.1 <= t.len(),
                pixel_samples() == 20,
                separator_samples() == 25,
                slot_samples() == 6425,
                row_samples() == 19275,
                buf@.len() == ROW_BYTES,
                forall|i: int|
                    0 <= i < ROW_BYTES && slot_of((i % 3) as nat) < k ==> #[trigger] buf@[i]
                        == pixel_value(t, q, slot_of((i % 3) as nat), (i / 3) as nat),
            decreases 3 - k,
        {
            let c = channel_at(k);
            assert(slot_of(c as nat) == k);
            let mut j: usize = 0;
            while j < 320
                invariant
                    k < 3,
                    j <= 320,
                    c < 3,
                    t == old(out)@.0,
                    slot_of(c as nat) == k,
                    out@.0 == t,
                    row_sync(t, old(out)@.1) == Some(q),
                    out@.1 == pixel_start(q, k as nat, j as nat),
                    out@.1 <= t.len(),
                    pixel_samples() == 20,
                    separator_samples() == 25,
                    slot_samples() == 6425,
                    row_samples() == 19275,
                    buf@.len() == ROW_BYTES,
                    forall|i: int|
                        0 <= i < ROW_BYTES && (slot_of((i % 3) as nat) < k || (slot_of((i % 3) as nat)
                            == k && i / 3 < j)) ==> #[trigger] buf@[i] == pixel_value(
                            t,
                            q,
                            slot_of((i % 3) as nat),
                            (i / 3) as nat,
                        ),
                decreases 320 - j,
            {
                match out.take_us(PIXEL_NS) {
                    None => {
                        return None;
                    },
                    Some(m) => {
                        let v = to_brightness(m);
                        let idx: usize = j * 3 + c;
                        assert(idx % 3 == c && idx / 3 == j) by {
                            vstd::arithmetic::div_mod::lemma_fundamental_div_mod_converse(
                                idx as int,
                                3,
                                j as int,
                                c as int,
                            );
                        }
                        buf[idx] = v;
                    },
                }
                j = j + 1;
            }
            if out.take_us(SEPARATOR_NS).is_none() {
                return None;
            }
            k = k + 1;
        }
        assert(buf@ =~= row_pixels(t, q));
        Some(buf)
    }

    /// Decode from the timeline of instantaneous frequencies of everything
    /// received so far, in millihertz, one entry per sample.
    ///
    /// The first calls look for the calibration header; once it is found, rows
    /// are decoded from where the previous call stopped. When the timeline runs
    /// out within a row, the rows decoded so far are returned and the next call
    /// starts that row over.
    pub fn decode(&mut self, timeline: &[i32]) -> (r: DecodeResult)
        requires
            old(self).wf(),
        ensures
            final(self).wf(),
            state_wf(final(self)@),
            r.wf(),
            (final(self)@, r.outcome()) == decode_step(old(self)@, timeline@),
    {
        let ghost s0 = self@;
        let mut out = DSPOut::new(timeline);
        out.set_to(self.cursor_pos);
        let ghost t = timeline@;
        if self.in_header {
            match Self::get_calibration_header(&mut out) {
                None => {
                    return DecodeResult::NoneFound;
                },
                Some(_) => {},
            }
            self.in_header = false;
        }
        let ghost p0 = out@.1;
        let ghost r0 = self.next_row as nat;
        let ghost img0 = self.image.data@;
        let mut row: u32 = self.next_row;
        while row < HEIGHT
            invariant
                self.wf(),
                !self.in_header,
                s0 == old(self)@,
                t == timeline@,
                r0 == s0.next_row,
                img0 == s0.image,
                decode_step(s0, t) == rows_step(t, p0, s0),
                r0 <= row <= HEIGHT,
                out@.0 == t,
                decode_rows(t, out@.1, row as nat, self.image.data@) == decode_rows(t, p0, r0, img0),
            decreases HEIGHT - row,
        {
            let start = out.get_pos();
            match Self::read_row(&mut out) {
                None => {
                    assert(decode_rows(t, start as nat, row as nat, self.image.data@) == (
                        start as nat,
                        row as nat,
                        self.image.data@,
                    ));
                    self.cursor_pos = start;
                    self.next_row = row;
                    let img = self.image.copy();
                    return DecodeResult::Partial(img);
                },
                Some(px) => {
                    write_row(&mut self.image.data, row, &px);
                },
            }
            row = row + 1;
        }
        self.cursor_pos = out.get_pos();
        self.next_row = HEIGHT;
        DecodeResult::Finished(self.image.copy())
    }

    /// The Martin M1 transmission of a 320 by 256 RGB buffer: header and VIS
    /// code, every row as sync, separator and the green, blue and red scans each
    /// followed by a separator, then a trailing silence.
    pub fn encode_pixels(px: &Vec<u8>) -> (r: Signal)
        requires
            px@.len() == WIDTH * HEIGHT * 3,
        ensures
            r@ == martin_m1_segments(px@),
    {
        let mut out = Signal::new();
        // Leader, break, leader.
        out.push(LEADER_HZ, LEADER_NS);
        out.push(SYNC_HZ, BREAK_NS);
        out.push(LEADER_HZ, LEADER_NS);
        // VIS code between its start and stop bits, 1100 Hz for a one and
        // 1300 Hz for a zero.
        out.push(SYNC_HZ, VIS_BIT_NS);
        out.push(VIS_ONE_HZ, VIS_BIT_NS);
        out.push(VIS_ZERO_HZ, VIS_BIT_NS);
        out.push(VIS_ONE_HZ, VIS_BIT_NS);
        out.push(VIS_ONE_HZ, VIS_BIT_NS);
        out.push(VIS_ZERO_HZ, VIS_BIT_NS);
        out.push(VIS_ZERO_HZ, VIS_BIT_NS);
        out.push(VIS_ONE_HZ, VIS_BIT_NS);
        out.push(SYNC_HZ, VIS_BIT_NS);
        assert(out@ =~= header_segments());
        let mut i: u32 = 0;
        assert(header_segments() + rows_segments(px@, 0) =~= header_segments());
        while i < HEIGHT
            invariant
                i <= HEIGHT,
                px@.len() == WIDTH * HEIGHT * 3,
                out@ == header_segments() + rows_segments(px@, i as nat),
            decreases HEIGHT - i,
        {
            let ghost base = out@;
            sync(&mut out);
            colour_sep(&mut out);
            assert(out@ =~= base + row_part(px@, i as nat, 0));
            let mut k: usize = 0;
            while k < 3
                invariant
                    k <= 3,
                    i < HEIGHT,
                    px@.len() == WIDTH * HEIGHT * 3,
                    out@ == base + row_part(px@, i as nat, k as nat),
                decreases 3 - k,
            {
                let c = channel_at(k);
                let ghost before = out@;
                let mut j: u32 = 0;
                while j < WIDTH
                    invariant
                        j <= WIDTH,
                        i < HEIGHT,
                        c < 3,
                        c == channel_order(k as nat),
                        px@.len() == WIDTH * HEIGHT * 3,
                        out@ == before + scan_segments(px@, i as nat, c as nat).take(j as int),
                    decreases WIDTH - j,
                {
                    proof {
                        assert((i * WIDTH + j) * 3 + c < WIDTH * HEIGHT * 3) by (nonlinear_arith)
                            requires
                                i < HEIGHT,
                                j < WIDTH,
                                c < 3,
                        ;
                    }
                    let v = px[((i * WIDTH + j) as usize) * 3 + c];
                    let f = freq_of(v);
                    out.push(f, PIXEL_NS);
                    assert(scan_segments(px@, i as nat, c as nat).take(j + 1) =~= scan_segments(
                        px@,
                        i as nat,
                        c as nat,
                    ).take(j as int).push(tone(f, PIXEL_NS)));
                    j = j + 1;
                }
                colour_sep(&mut out);
                assert(scan_segments(px@, i as nat, c as nat).take(WIDTH as int) =~= scan_segments(
                    px@,
                    i as nat,
                    c as nat,
                ));
                assert(out@ =~= base + row_part(px@, i as nat, (k + 1) as nat));
                k = k + 1;
            }
            assert(out@ =~= header_segments() + rows_segments(px@, (i + 1) as nat));
            i = i + 1;
        }
        out.push(0, TRAILER_NS);
        assert(out@ =~= martin_m1_segments(px@));
        out
    }

    /// Encode an image of any size: it is first resized to 320 by 256 with
    /// nearest-neighbour sampling.
    pub fn encode(&self, image: &Raster) -> (r: Signal)
        requires
            image.wf(),
            image.width * 1024 <= usize::MAX,
        ensures
            r@ == martin_m1_segments(
                nearest_resized(
                    image.width as nat,
                    image.height as nat,
                    image.data@,
                    WIDTH as nat,
                    HEIGHT as nat,
                ),
            ),
    {
        let px = resize_nearest(image.width, image.height, &image.data, WIDTH, HEIGHT);
        Self::encode_pixels(&px)
    }
}

} // verus!
