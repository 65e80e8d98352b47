//! What is picked out of what there is: the slots that are recorded, the notes that are
//! measured, the roots of a font, the part of a chain that holds sound, and the largest
//! of some files.
use crate::analysis::{font_pool, measured_notes};
use crate::chord_files::ChordFileModel;
use crate::chords::ChordQuality;
use crate::cli::{RenderArgs, RenderSfzArgs};
use crate::layout::{
    is_rendered, lemma_bounds_keep_sound, lemma_fitted_roots, lemma_spread_stays_in_list, positions,
    sound_bounds, spread,
};
use crate::messages::{flagged_positions, measure_pool, notes_at};
use crate::number::Binary64;
use crate::render::{
    chord_job, file_job, flag_count, largest, note_range, notes_job, peak_bytes, recorded_flags,
    slot_samples, total, within_budget, JobModel,
};
use crate::slots::lemma_slots_are_keyed;
use vstd::prelude::*;

verus! {

/// Whether flags record exactly the slots whose note a probe found sounding, as far as
/// the probe went.
pub open spec fn record_what_sounds(recorded: Seq<bool>, probed: Seq<bool>) -> bool {
    forall|i: int|
        0 <= i < recorded.len() ==> #[trigger] recorded[i] == (i >= probed.len() || probed[i])
}

/// Of the chain of the notes of the range exactly the slots are recorded whose note the
/// probe found sounding.
pub proof fn lemma_sounding_notes_are_recorded(args: RenderArgs, probed: Seq<bool>, length: Binary64)
    ensures
        record_what_sounds(recorded_flags(notes_job(args, length), Some(probed), false), probed),
        recorded_flags(notes_job(args, length), Some(probed), false).len() == (if args.start_midi
            <= args.end_midi {
            args.end_midi - args.start_midi + 1
        } else {
            0
        }),
{
    let job = notes_job(args, length);
    let flags = recorded_flags(job, Some(probed), false);
    assert forall|i: int| 0 <= i < flags.len() implies #[trigger] flags[i] == (i >= probed.len()
        || probed[i]) by {
        lemma_slots_are_keyed(args.start_midi, args.end_midi, length, None, i);
        assert(job.slots[i].slot == i);
    }
}

/// Of a chain of one chord on each note of the range exactly the slots are recorded whose
/// root the probe found sounding.
pub proof fn lemma_sounding_roots_are_recorded(
    args: RenderArgs,
    q: ChordQuality,
    probed: Seq<bool>,
    length: Binary64,
)
    ensures
        record_what_sounds(recorded_flags(chord_job(args, q, length), Some(probed), false), probed),
{
    let job = chord_job(args, q, length);
    let flags = recorded_flags(job, Some(probed), false);
    assert forall|i: int| 0 <= i < flags.len() implies #[trigger] flags[i] == (i >= probed.len()
        || probed[i]) by {
        lemma_slots_are_keyed(args.start_midi, args.end_midi, length, Some(q), i);
        assert(job.slots[i].slot == i);
    }
}

/// Every slot of a file of packed chords is recorded.
pub proof fn lemma_packed_chords_are_recorded(
    file: ChordFileModel,
    probed: Option<Seq<bool>>,
    no_probe: bool,
    length: Binary64,
)
    ensures
        forall|i: int|
            0 <= i < file.roots.len() * file.qualities.len() ==> #[trigger] recorded_flags(
                file_job(file, length),
                probed,
                no_probe,
            )[i],
{
}

/// Without a probe, and where it is switched off, every slot is recorded.
pub proof fn lemma_unprobed_slots_are_recorded(job: JobModel, probed: Option<Seq<bool>>, no_probe: bool)
    requires
        probed is None || no_probe,
    ensures
        forall|i: int|
            0 <= i < job.slots.len() ==> #[trigger] recorded_flags(job, probed, no_probe)[i],
        recorded_flags(job, probed, no_probe).len() == job.slots.len(),
{
}

/// The largest of some counts is one of them, and no other is larger.
pub proof fn lemma_largest_is_greatest(counts: Seq<usize>)
    ensures
        forall|i: int| 0 <= i < counts.len() ==> #[trigger] counts[i] <= largest(counts),
        counts.len() > 0 ==> exists|i: int|
            0 <= i < counts.len() && #[trigger] counts[i] == largest(counts),
        counts.len() == 0 ==> largest(counts) == 0,
    decreases counts.len(),
{
    if counts.len() > 0 {
        let front = counts.drop_last();
        let n = (counts.len() - 1) as int;
        lemma_largest_is_greatest(front);
        assert forall|i: int| 0 <= i < counts.len() implies #[trigger] counts[i] <= largest(counts) by {
            if i < n {
                assert(front[i] == counts[i]);
            }
        }
        if largest(counts) == counts[n] {
        } else if front.len() > 0 {
            let i = choose|i: int| 0 <= i < front.len() && #[trigger] front[i] == largest(front);
            assert(counts[i] == largest(counts));
        }
    }
}

/// The memory of a batch is that of one of its files, at four bytes a sample, and no
/// file of it takes more.
pub proof fn lemma_batch_holds_its_largest_file(
    slots: Seq<usize>,
    length: Binary64,
    out_channels: u16,
)
    ensures
        forall|i: int|
            0 <= i < slots.len() ==> (#[trigger] slots[i]) * slot_samples(length, out_channels) * 4
                <= peak_bytes(slots, length, out_channels),
        slots.len() > 0 ==> exists|i: int|
            0 <= i < slots.len() && (#[trigger] slots[i]) * slot_samples(length, out_channels) * 4
                == peak_bytes(slots, length, out_channels),
{
    let size = slot_samples(length, out_channels);
    lemma_largest_is_greatest(slots);
    assert forall|i: int| 0 <= i < slots.len() implies (#[trigger] slots[i]) * size * 4 <= peak_bytes(
        slots,
        length,
        out_channels,
    ) by {
        let (a, b) = (slots[i] as nat, largest(slots));
        assert(a * size * 4 <= b * size * 4) by (nonlinear_arith)
            requires
                a <= b,
                size >= 0,
        ;
    }
    if slots.len() > 0 {
        let i = choose|i: int| 0 <= i < slots.len() && #[trigger] slots[i] == largest(slots);
        assert(slots[i] * size * 4 == peak_bytes(slots, length, out_channels));
    }
}

/// The sum of counts does not depend on where they are cut apart.
pub proof fn lemma_total_in_parts(a: Seq<usize>, b: Seq<usize>)
    ensures
        total(a + b) == total(a) + total(b),
        total(seq![]) == 0,
        forall|n: usize| #[trigger] total(seq![n]) == n,
    decreases b.len(),
{
    if b.len() > 0 {
        lemma_total_in_parts(a, b.drop_last());
        assert((a + b).drop_last() =~= a + b.drop_last());
    } else {
        assert(a + b =~= a);
    }
    assert forall|n: usize| #[trigger] total(seq![n]) == n by {
        assert(seq![n].drop_last() =~= Seq::<usize>::empty());
        assert(total(seq![n].drop_last()) == 0);
    }
}

/// The positions whose flag is set are those, from low to high.
proof fn lemma_flagged_positions_are_set(flags: Seq<bool>)
    requires
        flags.len() <= usize::MAX,
    ensures
        forall|k: int|
            0 <= k < flagged_positions(flags).len() ==> (#[trigger] flagged_positions(flags)[k])
                < flags.len() && flags[flagged_positions(flags)[k] as int],
        forall|i: int| 0 <= i < flags.len() && #[trigger] flags[i] ==> flagged_positions(flags).len() > 0,
        flag_count(flags) == flagged_positions(flags).len(),
    decreases flags.len(),
{
    if flags.len() > 0 {
        let front = flags.drop_last();
        let before = flagged_positions(front);
        let all = flagged_positions(flags);
        lemma_flagged_positions_are_set(front);
        assert forall|k: int| 0 <= k < all.len() implies (#[trigger] all[k]) < flags.len()
            && flags[all[k] as int] by {
            if k < before.len() {
                assert(all[k] == before[k]);
                assert(front[before[k] as int]);
            }
        }
        assert forall|i: int| 0 <= i < flags.len() && #[trigger] flags[i] implies all.len() > 0 by {
            if i < front.len() {
                assert(front[i]);
            }
        }
    }
}

/// What is sounded to measure the ring-out is the notes of slots, of no more than so
/// many, at least one where there is a slot, and only of such as the probe found
/// sounding where it found any.
pub proof fn lemma_measured_slots_sound(lists: Seq<Seq<u8>>, flags: Seq<bool>, count: nat, k: int)
    requires
        lists.len() <= usize::MAX,
        flags.len() == 0 || flags.len() == lists.len(),
        0 <= k < spread(measure_pool(flags, lists.len()), count).len(),
    ensures
        ({
            let picks = spread(measure_pool(flags, lists.len()), count);
            let sounded = notes_at(lists, picks);
            let i = picks[k] as int;
            &&& 0 <= i < lists.len()
            &&& sounded[k] == lists[i]
            &&& sounded.len() <= count
            &&& (exists|j: int| 0 <= j < flags.len() && #[trigger] flags[j]) ==> flags[i]
        }),
{
    let pool = measure_pool(flags, lists.len());
    let picks = spread(pool, count);
    lemma_flagged_positions_are_set(flags);
    lemma_spread_stays_in_list(pool, count);
    assert(pool.contains(picks[k]));
    let m = choose|m: int| 0 <= m < pool.len() && pool[m] == picks[k];
    let sounding = flagged_positions(flags);
    if sounding.len() > 0 {
        assert(sounding[m] == picks[k]);
    }
}

/// The notes of a pool that are measured are notes of the pool, no more than so many,
/// and its lowest and highest where there are at least two.
pub proof fn lemma_measured_notes_are_of_the_pool(pool: Seq<u8>, count: nat)
    requires
        pool.len() <= usize::MAX,
    ensures
        measured_notes(pool, count).len() <= count,
        forall|k: int|
            0 <= k < measured_notes(pool, count).len() ==> pool.contains(
                #[trigger] measured_notes(pool, count)[k],
            ),
        count >= 1 && pool.len() > 0 ==> measured_notes(pool, count).len() > 0,
        count >= 2 && pool.len() > 0 ==> measured_notes(pool, count)[0] == pool[0] && measured_notes(
            pool,
            count,
        ).last() == pool.last(),
{
    let all = positions(pool.len());
    let picks = spread(all, count);
    lemma_spread_stays_in_list(all, count);
    assert forall|k: int| 0 <= k < measured_notes(pool, count).len() implies pool.contains(
        #[trigger] measured_notes(pool, count)[k],
    ) by {
        assert(all.contains(picks[k]));
        assert(pool[picks[k] as int] == measured_notes(pool, count)[k]);
    }
}

/// The roots of a font are notes that its probe found sounding, or of the range where
/// it found none or where there was none; all of them where they fit the slices of a
/// file, and never more than that.
pub proof fn lemma_font_roots_sound(args: RenderSfzArgs, sounding: Option<Vec<u8>>)
    requires
        args.max_slices >= 1,
        sounding matches Some(notes) ==> notes@.len() <= 128,
    ensures
        ({
            let roots = within_budget(font_pool(args, sounding), args.max_slices as nat);
            &&& roots.len() <= args.max_slices
            &&& forall|n: u8| #[trigger]
                roots.contains(n) ==> match sounding {
                    Some(notes) => if notes@.len() > 0 {
                        notes@.contains(n)
                    } else {
                        args.start_midi <= n <= args.end_midi
                    },
                    None => args.start_midi <= n <= args.end_midi,
                }
            &&& sounding matches Some(notes) ==> 0 < notes@.len() <= args.max_slices ==> roots == notes@
        }),
{
    let pool = font_pool(args, sounding);
    let roots = within_budget(pool, args.max_slices as nat);
    if pool.len() > args.max_slices {
        lemma_fitted_roots(pool, args.max_slices as nat);
    }
    assert forall|n: u8| #[trigger] roots.contains(n) implies pool.contains(n) by {
        let i = choose|i: int| 0 <= i < roots.len() && roots[i] == n;
        assert(pool.contains(roots[i]));
    }
    let range = note_range(args.start_midi, args.end_midi);
    assert forall|n: u8| #[trigger] range.contains(n) implies args.start_midi <= n <= args.end_midi by {}
}

/// Whether samples from `first` to before `end` are those of a chain from its first slot
/// with the status `rendered` to its last one.
pub open spec fn spans_sound(statuses: Seq<Seq<char>>, slot_samples: nat, first: int, end: int) -> bool {
    exists|a: int, b: int|
        {
            &&& 0 <= a <= b < statuses.len()
            &&& #[trigger] statuses[a] == "rendered"@
            &&& #[trigger] statuses[b] == "rendered"@
            &&& forall|i: int|
                0 <= i < statuses.len() && #[trigger] statuses[i] == "rendered"@ ==> a <= i <= b
            &&& first == a * slot_samples
            &&& end == (b + 1) * slot_samples
        }
}

/// The bounds of the sound span exactly the rendered slots, and there are none where no
/// slot is rendered.
pub(crate) proof fn lemma_bounds_span_sound(statuses: Seq<Seq<char>>, slot_samples: nat)
    requires
        statuses.len() <= usize::MAX,
    ensures
        match sound_bounds(statuses) {
            Some((first, last)) => spans_sound(
                statuses,
                slot_samples,
                first * slot_samples,
                (last + 1) * slot_samples,
            ),
            None => forall|i: int|
                0 <= i < statuses.len() ==> #[trigger] statuses[i] != "rendered"@,
        },
        sound_bounds(statuses) is Some ==> exists|i: int|
            0 <= i < statuses.len() && #[trigger] statuses[i] == "rendered"@,
{
    lemma_bounds_keep_sound(statuses);
    if let Some((first, last)) = sound_bounds(statuses) {
        assert(is_rendered(statuses[first as int]));
        assert(is_rendered(statuses[last as int]));
        assert forall|i: int|
            0 <= i < statuses.len() && #[trigger] statuses[i] == "rendered"@ implies first <= i <= last by {
            assert(is_rendered(statuses[i]));
        }
    } else {
        assert forall|i: int| 0 <= i < statuses.len() implies #[trigger] statuses[i] != "rendered"@ by {
            assert(!is_rendered(statuses[i]));
        }
    }
}

} // verus!
