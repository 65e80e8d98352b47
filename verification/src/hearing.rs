//! What is heard in a rendered probe or measurement: which notes sound, and until when
//! they ring.
use crate::analysis::{
    are_tails, clamped, lemma_longest_is_greatest, longest_of, loudest, measured_tails,
    probe_frames, sounding_notes, window_samples, with_margin,
};
use crate::arith::lemma_whole_value_bounds;
use crate::audio::{
    frame_sounds, last_sound, lemma_last_sound, slot_window, sound_end, tail_end,
};
use crate::chord_files::is_rising;
use crate::cutting::{is_reached, lemma_peak_reaches, lemma_window_sample};
use crate::keeping::is_loud;
use crate::level::{peak, Binary32};
use crate::number::{
    capped, lemma_whole_value_positive, product, quotient, whole_value, Binary64, TWO_52, TWO_53,
};
use crate::order::{
    lemma_nearest_wholes_are_ordered, lemma_nothing_is_no_share, lemma_products_are_ordered,
    lemma_quotients_are_ordered, lemma_whole_shares_are_exact, lemma_wholes_are_ordered,
};
use crate::render::note_range;
use vstd::prelude::*;

verus! {

/// A probe of whole seconds takes the frames of that many seconds.
pub proof fn lemma_probe_of_seconds(seconds: nat, rate: u32)
    requires
        seconds * 1000 <= TWO_52,
        seconds * rate < TWO_53,
        rate > 0,
    ensures
        probe_frames((seconds * 1000) as u64, rate) == capped(seconds * rate as nat, usize::MAX as nat),
{
    lemma_whole_value_positive(1000);
    if seconds == 0 {
        lemma_nothing_is_no_share(whole_value(1000), whole_value(rate as nat));
        assert(0 * rate as nat == 0);
    } else {
        lemma_whole_shares_are_exact(seconds, 1000, rate as nat);
    }
}

/// A longer probe takes no fewer frames.
pub proof fn lemma_longer_probes_take_more(a: u64, b: u64, rate: u32)
    requires
        a <= b,
        rate > 0,
    ensures
        probe_frames(a, rate) <= probe_frames(b, rate),
{
    let (t, w) = (whole_value(1000), whole_value(rate as nat));
    lemma_whole_value_positive(1000);
    lemma_whole_value_positive(rate as nat);
    if a == 0 {
        lemma_nothing_is_no_share(t, w);
    } else {
        let (x, y) = (whole_value(a as nat), whole_value(b as nat));
        lemma_whole_value_positive(a as nat);
        lemma_whole_value_positive(b as nat);
        lemma_whole_value_bounds(a as nat);
        lemma_whole_value_bounds(b as nat);
        lemma_wholes_are_ordered(a as nat, b as nat);
        lemma_quotients_are_ordered(x, y, t);
        lemma_products_are_ordered(quotient(x, t), quotient(y, t), w);
        lemma_nearest_wholes_are_ordered(product(quotient(x, t), w), product(quotient(y, t), w));
    }
}

/// Whether a slot of a rendered chain is heard: one of its samples reaches a level.
pub open spec fn is_heard(
    samples: Seq<Binary32>,
    channels: u16,
    frames: nat,
    i: int,
    level: Binary32,
) -> bool {
    exists|k: int|
        i * frames * channels <= k < (i + 1) * frames * channels && 0 <= k < samples.len() && (
        #[trigger] samples[k]).magnitude().at_least(level)
}

/// The peak of a slot reaches a level exactly where the slot is heard.
proof fn lemma_window_is_heard(
    samples: Seq<Binary32>,
    channels: u16,
    frames: nat,
    i: nat,
    level: Binary32,
)
    requires
        channels >= 1,
        !level.is_nan(),
        level.rank() > 0,
    ensures
        peak(window_samples(samples, i, frames, channels)).at_least(level) <==> is_heard(
            samples,
            channels,
            frames,
            i as int,
            level,
        ),
{
    let window = window_samples(samples, i, frames, channels);
    let w = slot_window(i, frames, channels as nat, samples.len());
    assert((i + 1) * frames * channels >= i * frames * channels >= 0) by (nonlinear_arith)
        requires
            frames >= 0,
            channels >= 0,
            i >= 0,
    ;
    assert(window.len() == w.1 - w.0);
    lemma_peak_reaches(window, level);
    if is_reached(window, level) {
        let k = choose|k: int|
            0 <= k < window.len() && (#[trigger] window[k]).magnitude().at_least(level);
        assert(samples[w.0 + k] == window[k]);
    }
    if is_heard(samples, channels, frames, i as int, level) {
        let k = choose|k: int|
            i * frames * channels <= k < (i + 1) * frames * channels && 0 <= k < samples.len() && (
            #[trigger] samples[k]).magnitude().at_least(level);
        assert(window[k - w.0] == samples[k]);
    }
}

/// Whether notes are those of a range whose slot of a rendered probe is heard, from low
/// to high.
pub open spec fn are_heard_notes(
    notes: Seq<u8>,
    first: u8,
    last: u8,
    samples: Seq<Binary32>,
    channels: u16,
    frames: nat,
    level: Binary32,
) -> bool {
    &&& is_rising(notes)
    &&& forall|n: u8| #[trigger]
        notes.contains(n) <==> first <= n <= last && is_heard(
            samples,
            channels,
            frames,
            n - first,
            level,
        )
}

/// The notes of a range whose slot of a rendered probe reaches a level, from the first
/// `n` of them.
proof fn lemma_heard_so_far(
    first: u8,
    last: u8,
    samples: Seq<Binary32>,
    channels: u16,
    frames: nat,
    level: Binary32,
    n: nat,
)
    requires
        channels >= 1,
        !level.is_nan(),
        level.rank() > 0,
        n <= note_range(first, last).len(),
    ensures
        ({
            let heard = sounding_notes(note_range(first, last), samples, frames, channels, level, n);
            &&& is_rising(heard)
            &&& forall|m: u8| #[trigger]
                heard.contains(m) <==> first <= m < first + n && is_heard(
                    samples,
                    channels,
                    frames,
                    m - first,
                    level,
                )
        }),
    decreases n,
{
    let notes = note_range(first, last);
    let heard = sounding_notes(notes, samples, frames, channels, level, n);
    if n > 0 {
        let before = sounding_notes(notes, samples, frames, channels, level, (n - 1) as nat);
        lemma_heard_so_far(first, last, samples, channels, frames, level, (n - 1) as nat);
        lemma_window_is_heard(samples, channels, frames, (n - 1) as nat, level);
        assert forall|m: u8| #[trigger] heard.contains(m) <==> first <= m < first + n && is_heard(
            samples,
            channels,
            frames,
            m - first,
            level,
        ) by {
            if heard.contains(m) {
                let k = choose|k: int| 0 <= k < heard.len() && heard[k] == m;
                if k < before.len() {
                    assert(before[k] == m);
                    assert(before.contains(m));
                }
            }
            if first <= m < first + n && is_heard(samples, channels, frames, m - first, level) {
                if m < first + n - 1 {
                    assert(before.contains(m));
                    let k = choose|k: int| 0 <= k < before.len() && before[k] == m;
                    assert(heard[k] == m);
                } else {
                    assert(heard[heard.len() - 1] == m);
                }
            }
        }
        assert forall|a: int, b: int| 0 <= a < b < heard.len() implies heard[a] < heard[b] by {
            assert(heard[a] == before[a]);
            if b < before.len() {
                assert(heard[b] == before[b]);
            } else {
                assert(before.contains(before[a]));
            }
        }
    }
}

/// A rendered probe finds exactly the notes of the range of which a sample reaches the
/// threshold.
pub proof fn lemma_probe_hears_what_sounds(
    first: u8,
    last: u8,
    samples: Seq<Binary32>,
    channels: u16,
    frames: nat,
    level: Binary32,
)
    requires
        channels >= 1,
        !level.is_nan(),
        level.rank() > 0,
    ensures
        ({
            let notes = note_range(first, last);
            are_heard_notes(
                sounding_notes(notes, samples, frames, channels, level, notes.len()),
                first,
                last,
                samples,
                channels,
                frames,
                level,
            )
        }),
{
    lemma_heard_so_far(
        first,
        last,
        samples,
        channels,
        frames,
        level,
        note_range(first, last).len(),
    );
}

/// Whether slot `i` of a rendered chain rings until its frame `f`: that frame reaches a
/// level in some channel, and no later one of the slot does.
pub open spec fn rings_until(
    samples: Seq<Binary32>,
    channels: u16,
    frames: nat,
    level: Binary32,
    i: int,
    f: int,
) -> bool {
    let ch = channels as int;
    let end = samples.len() as int / ch;
    &&& 0 <= f < frames
    &&& i * frames + f < end
    &&& is_loud(samples, ch, ch, level, i * frames + f)
    &&& forall|g: int|
        f < g < frames && i * frames + g < end ==> !#[trigger] is_loud(
            samples,
            ch,
            ch,
            level,
            i * frames + g,
        )
}

/// The frames of a window are loud where those of the chain are.
proof fn lemma_window_is_loud(
    samples: Seq<Binary32>,
    channels: u16,
    frames: nat,
    level: Binary32,
    i: nat,
    g: int,
)
    requires
        channels >= 1,
        0 <= g < frames,
        i * frames + g < samples.len() as int / channels as int,
    ensures
        frame_sounds(window_samples(samples, i, frames, channels), channels as nat, g, level)
            <==> is_loud(samples, channels as int, channels as int, level, i * frames + g),
{
    let ch = channels as int;
    let window = window_samples(samples, i, frames, channels);
    assert forall|c: int| 0 <= c < ch implies #[trigger] window[g * ch + c] == samples[(i * frames + g)
        * ch + c] by {
        lemma_window_sample(samples, i, frames, channels, g, c);
    }
    if frame_sounds(window, channels as nat, g, level) {
        let c = choose|c: int|
            0 <= c < ch && (#[trigger] window[g * ch + c]).magnitude().at_least(level);
        assert(samples[(i * frames + g) * ch + c].magnitude().at_least(level));
    }
    if is_loud(samples, ch, ch, level, i * frames + g) {
        let c = choose|c: int|
            0 <= c < ch && (#[trigger] samples[(i * frames + g) * ch + c]).magnitude().at_least(level);
        assert(window[g * ch + c].magnitude().at_least(level));
    }
}

/// How many frames a window has: those of a slot, or those up to the end.
proof fn lemma_window_frames(samples: Seq<Binary32>, channels: u16, frames: nat, i: nat, g: int)
    requires
        channels >= 1,
        g >= 0,
    ensures
        g < window_samples(samples, i, frames, channels).len() as int / channels as int <==> g < frames
            && i * frames + g < samples.len() as int / channels as int,
{
    let ch = channels as int;
    let len = samples.len() as int;
    let a = i * frames;
    let window = window_samples(samples, i, frames, channels);
    assert((i + 1) * frames == a + frames) by (nonlinear_arith)
        requires
            a == i * frames,
    ;
    assert((a + frames) * ch == a * ch + frames * ch) by (nonlinear_arith);
    assert(a * ch >= 0 && frames * ch >= 0) by (nonlinear_arith)
        requires
            a >= 0,
            frames >= 0,
            ch >= 1,
    ;
    let w = slot_window(i, frames, ch as nat, samples.len());
    assert(window.len() == w.1 - w.0);
    assert(w.0 == capped((a * ch) as nat, samples.len()));
    assert(w.1 == capped((a * ch + frames * ch) as nat, samples.len()));
    assert(g < window.len() as int / ch <==> (g + 1) * ch <= window.len()) by (nonlinear_arith)
        requires
            ch >= 1,
            window.len() >= 0,
    ;
    assert(a + g < len / ch <==> (a + g + 1) * ch <= len) by (nonlinear_arith)
        requires
            ch >= 1,
            len >= 0,
    ;
    assert((a + g + 1) * ch == a * ch + (g + 1) * ch) by (nonlinear_arith);
    assert(g < frames <==> (g + 1) * ch <= frames * ch) by (nonlinear_arith)
        requires
            ch >= 1,
    ;
    assert((g + 1) * ch >= 1) by (nonlinear_arith)
        requires
            ch >= 1,
            g >= 0,
    ;
}

/// The tail of a slot ends with the last frame until which the slot rings, and is
/// nothing where it does not ring.
pub proof fn lemma_tail_is_the_ring(
    samples: Seq<Binary32>,
    channels: u16,
    frames: nat,
    rate: u32,
    level: Binary32,
    i: nat,
)
    requires
        channels >= 1,
        samples.len() <= usize::MAX,
    ensures
        ({
            let tail = tail_end(
                window_samples(samples, i, frames, channels),
                rate,
                channels,
                level,
            );
            &&& forall|f: int| #[trigger]
                rings_until(samples, channels, frames, level, i as int, f) ==> tail == sound_end(
                    Some(f as usize),
                    rate,
                )
            &&& tail.bits == 0 || exists|f: int| #[trigger]
                rings_until(samples, channels, frames, level, i as int, f)
        }),
{
    let ch = channels as int;
    let window = window_samples(samples, i, frames, channels);
    let n = window.len() / ch as nat;
    let last = last_sound(window, ch as nat, level, n);
    let w = slot_window(i, frames, ch as nat, samples.len());
    assert((i + 1) * frames * channels >= i * frames * channels >= 0) by (nonlinear_arith)
        requires
            frames >= 0,
            channels >= 0,
            i >= 0,
    ;
    assert(window.len() == w.1 - w.0);
    assert(n <= window.len()) by (nonlinear_arith)
        requires
            n == window.len() / ch as nat,
            ch >= 1,
    ;
    lemma_last_sound(window, ch as nat, level, n);
    assert forall|g: int| 0 <= g implies (g < n <==> g < frames && i * frames + g < samples.len() as int
        / ch) && (g < n ==> (#[trigger] frame_sounds(window, ch as nat, g, level) <==> is_loud(
        samples,
        ch,
        ch,
        level,
        i * frames + g,
    ))) by {
        lemma_window_frames(samples, channels, frames, i, g);
        if g < n {
            lemma_window_is_loud(samples, channels, frames, level, i, g);
        }
    }
    assert forall|f: int| #[trigger] rings_until(samples, channels, frames, level, i as int, f) implies last
        == Some(f as usize) by {
        lemma_window_frames(samples, channels, frames, i, f);
        assert(frame_sounds(window, ch as nat, f, level));
        let h = last->0 as int;
        assert(last is Some);
        assert(frame_sounds(window, ch as nat, h, level));
        if f < h {
            assert(!is_loud(samples, ch, ch, level, i * frames + h));
        }
    }
    if let Some(h) = last {
        assert(frame_sounds(window, ch as nat, h as int, level));
        assert forall|g: int|
            h < g < frames && i * frames + g < samples.len() as int / ch implies !#[trigger] is_loud(
            samples,
            ch,
            ch,
            level,
            i * frames + g,
        ) by {
            assert(!frame_sounds(window, ch as nat, g, level));
        }
        assert(rings_until(samples, channels, frames, level, i as int, h as int));
    }
}

/// Whether a slot length is chosen by how long some slots ring: from the longest tail
/// among them, which is the end of one of them and at least that of each, and nothing
/// where none rings.
pub open spec fn covers_rings(
    length: Binary64,
    samples: Seq<Binary32>,
    channels: u16,
    frames: nat,
    rate: u32,
    level: Binary32,
    slots: int,
    margin: Binary64,
    max: Binary64,
) -> bool {
    exists|longest: Binary64|
        {
            &&& length == clamped(#[trigger] with_margin(longest, margin), max)
            &&& forall|i: int, f: int|
                0 <= i < slots && #[trigger] rings_until(samples, channels, frames, level, i, f)
                    ==> longest.at_least(sound_end(Some(f as usize), rate))
            &&& longest.bits == 0 || exists|i: int, f: int|
                0 <= i < slots && #[trigger] rings_until(samples, channels, frames, level, i, f)
                    && longest == sound_end(Some(f as usize), rate)
        }
}

/// The slot length that a measurement chooses is chosen by how long its slots ring.
pub proof fn lemma_measurement_covers_rings(
    samples: Seq<Binary32>,
    channels: u16,
    frames: nat,
    rate: u32,
    level: Binary32,
    slots: nat,
    margin: Binary64,
    max: Binary64,
)
    requires
        channels >= 1,
        samples.len() <= usize::MAX,
        are_tails(measured_tails(samples, frames, channels, rate, level, slots)),
    ensures
        covers_rings(
            clamped(
                with_margin(
                    longest_of(measured_tails(samples, frames, channels, rate, level, slots)),
                    margin,
                ),
                max,
            ),
            samples,
            channels,
            frames,
            rate,
            level,
            slots as int,
            margin,
            max,
        ),
{
    let tails = measured_tails(samples, frames, channels, rate, level, slots);
    let longest = longest_of(tails);
    lemma_longest_is_greatest(tails);
    assert forall|i: int, f: int|
        0 <= i < slots && #[trigger] rings_until(samples, channels, frames, level, i, f) implies longest.at_least(
        sound_end(Some(f as usize), rate),
    ) by {
        lemma_tail_is_the_ring(samples, channels, frames, rate, level, i as nat);
        assert(tails[i] == sound_end(Some(f as usize), rate));
    }
    if longest.bits != 0 {
        let i = choose|i: int| 0 <= i < tails.len() && #[trigger] tails[i] == longest;
        lemma_tail_is_the_ring(samples, channels, frames, rate, level, i as nat);
        let f = choose|f: int| #[trigger] rings_until(samples, channels, frames, level, i, f);
        assert(longest == sound_end(Some(f as usize), rate));
    }
}

/// Fonts are probed and measured with the loudest of the velocities: one of them, and at
/// least as loud as each.
pub proof fn lemma_loudest_is_greatest(velocities: Seq<u8>)
    requires
        velocities.len() > 0,
    ensures
        forall|i: int| 0 <= i < velocities.len() ==> #[trigger] velocities[i] <= loudest(velocities),
        exists|i: int| 0 <= i < velocities.len() && #[trigger] velocities[i] == loudest(velocities),
    decreases velocities.len(),
{
    let n = velocities.len() - 1;
    if n == 0 {
        assert(velocities[0] == loudest(velocities));
    } else {
        let front = velocities.drop_last();
        lemma_loudest_is_greatest(front);
        assert forall|i: int| 0 <= i < velocities.len() implies #[trigger] velocities[i] <= loudest(
            velocities,
        ) by {
            if i < n {
                assert(front[i] == velocities[i]);
            }
        }
        if loudest(velocities) == velocities[n] {
        } else {
            let i = choose|i: int| 0 <= i < front.len() && #[trigger] front[i] == loudest(front);
            assert(velocities[i] == loudest(velocities));
        }
    }
}

} // verus!
