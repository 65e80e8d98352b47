//! What a run is asked for and what its files hold: the notes of the range, one chord
//! on each of them, and every wanted chord on every root.
use crate::chord_files::{chord_file_models, is_rising, ChordFileModel};
use crate::chords::ChordQuality;
use crate::cli::{requested_chords, RenderArgs, RenderSfzArgs};
use crate::contents::{
    are_chords, are_notes, have_chord, have_file_of, holds_chord, keeps_to, lemma_chord_chain,
    lemma_files_hold, lemma_note_chain, lemma_packed_chain, lies_at,
};
use crate::layout::lemma_fitted_roots;
use crate::number::Binary64;
use crate::render::{
    chord_roots, file_job, flagged_notes, lemma_flagged_notes_rise, note_range, run_chord_files,
    run_jobs, within_budget, JobModel,
};
use crate::render_sfz::{file_chain, font_chains, ChainModel};
use crate::slots::{chord_map, slot_map, SlotModel};
use vstd::prelude::*;

verus! {

/// Whether packed chords of a quality are wanted: with a list of qualities, those that
/// it names, and all of them where it names none.
pub open spec fn is_wanted(chords: Option<Vec<ChordQuality>>, q: ChordQuality) -> bool {
    match chords {
        Some(list) => list@.len() == 0 || list@.contains(q),
        None => false,
    }
}

/// Whether a slot holds a wanted chord on one of some roots.
pub open spec fn holds_wanted(
    s: SlotModel,
    roots: Seq<u8>,
    chords: Option<Vec<ChordQuality>>,
) -> bool {
    exists|r: u8, q: ChordQuality| #[trigger]
        holds_chord(s, r as int, q) && roots.contains(r) && is_wanted(chords, q)
}

/// Whether one of some chains, from the one at `from` on, holds a chord.
pub open spec fn hold_chord(chains: Seq<Seq<SlotModel>>, from: int, r: u8, q: ChordQuality) -> bool {
    exists|k: int| from <= k < chains.len() && have_chord(#[trigger] chains[k], r, q)
}

/// Whether chains are those that were asked for: the notes of the range, on request
/// or where no chords are; then one chord on each note of the range, where that is;
/// then the packed chords, every wanted one on every root and none besides.
pub open spec fn are_as_asked(
    chains: Seq<Seq<SlotModel>>,
    notes: bool,
    chord: Option<ChordQuality>,
    chords: Option<Vec<ChordQuality>>,
    first: u8,
    last: u8,
    roots: Seq<u8>,
    length: Binary64,
) -> bool {
    let with_notes = notes || (chord is None && chords is None);
    let before_chord: int = if with_notes {
        1
    } else {
        0
    };
    let single: int = before_chord + (if chord is Some {
        1int
    } else {
        0
    });
    &&& chains.len() >= single
    &&& with_notes ==> are_notes(chains[0], first, last, length)
    &&& chord matches Some(q) ==> are_chords(chains[before_chord], first, last, q, length)
    &&& chords is None ==> chains.len() == single
    &&& forall|k: int, i: int|
        single <= k < chains.len() && 0 <= i < chains[k].len() ==> holds_wanted(
            #[trigger] chains[k][i],
            roots,
            chords,
        ) && lies_at(chains[k][i], i, length)
    &&& forall|r: u8, q: ChordQuality|
        #![trigger roots.contains(r), is_wanted(chords, q)]
        roots.contains(r) && is_wanted(chords, q) ==> hold_chord(chains, single, r, q)
}

/// The qualities that are packed are the wanted ones.
proof fn lemma_requested_are_wanted(chords: Option<Vec<ChordQuality>>)
    ensures
        forall|q: ChordQuality| #[trigger] requested_chords(chords).contains(q) <==> is_wanted(chords, q),
        requested_chords(chords).len() == 0 <==> chords is None,
{
    let all = ChordQuality::ALL@;
    assert forall|q: ChordQuality| #[trigger] requested_chords(chords).contains(q) <==> is_wanted(
        chords,
        q,
    ) by {
        let k: int = match q {
            ChordQuality::Maj => 0,
            ChordQuality::Min => 1,
            ChordQuality::Dim => 2,
            ChordQuality::Aug => 3,
            ChordQuality::Maj7 => 4,
            ChordQuality::Min7 => 5,
            ChordQuality::Dom7 => 6,
            ChordQuality::Sus2 => 7,
            ChordQuality::Sus4 => 8,
            ChordQuality::Power => 9,
        };
        assert(all[k] == q);
    }
}

/// Single chains in front of packed files are as asked for.
#[verifier::rlimit(50)]
proof fn lemma_chains_are_as_asked(
    chains: Seq<Seq<SlotModel>>,
    notes: bool,
    chord: Option<ChordQuality>,
    chords: Option<Vec<ChordQuality>>,
    first: u8,
    last: u8,
    roots: Seq<u8>,
    length: Binary64,
    files: Seq<ChordFileModel>,
    single: int,
)
    requires
        ({
            let with_notes = notes || (requested_chords(chords).len() == 0 && chord is None);
            let a: int = if with_notes {
                1
            } else {
                0
            };
            &&& single == a + (if chord is Some {
                1int
            } else {
                0
            })
            &&& with_notes ==> chains[0] == slot_map(first, last, length, None)
            &&& chord matches Some(q) ==> chains[a] == slot_map(first, last, length, Some(q))
        }),
        chains.len() == single + files.len(),
        chords is None ==> files.len() == 0,
        forall|k: int|
            0 <= k < files.len() ==> chains[single + k] == chord_map(
                (#[trigger] files[k]).roots,
                files[k].qualities,
                length,
            ),
        forall|k: int|
            0 <= k < files.len() ==> keeps_to(#[trigger] files[k], roots, requested_chords(chords)),
        forall|r: u8, q: ChordQuality|
            #![trigger roots.contains(r), requested_chords(chords).contains(q)]
            roots.contains(r) && requested_chords(chords).contains(q) ==> have_file_of(files, r, q),
    ensures
        are_as_asked(chains, notes, chord, chords, first, last, roots, length),
{
    lemma_requested_are_wanted(chords);
    lemma_note_chain(first, last, length);
    if let Some(q) = chord {
        lemma_chord_chain(first, last, q, length);
    }
    assert forall|k: int, i: int|
        single <= k < chains.len() && 0 <= i < chains[k].len() implies holds_wanted(
        #[trigger] chains[k][i],
        roots,
        chords,
    ) && lies_at(chains[k][i], i, length) by {
        let f = files[k - single];
        assert(keeps_to(f, roots, requested_chords(chords)));
        assert(chains[single + (k - single)] == chord_map(f.roots, f.qualities, length));
        lemma_packed_chain(f.roots, f.qualities, length);
        let slots = chord_map(f.roots, f.qualities, length);
        assert(crate::contents::holds_one_of(slots[i], f.roots, f.qualities));
        let (r, q) = choose|r: u8, q: ChordQuality|
            #![trigger f.roots.contains(r), f.qualities.contains(q)]
            f.roots.contains(r) && f.qualities.contains(q) && holds_chord(slots[i], r as int, q);
        assert(holds_chord(slots[i], r as int, q) && roots.contains(r));
        assert(requested_chords(chords).contains(q));
    }
    assert forall|r: u8, q: ChordQuality|
        #![trigger roots.contains(r), is_wanted(chords, q)]
        roots.contains(r) && is_wanted(chords, q) implies hold_chord(chains, single, r, q) by {
        assert(requested_chords(chords).contains(q));
        let k = choose|k: int|
            0 <= k < files.len() && (#[trigger] files[k]).roots.contains(r)
                && files[k].qualities.contains(q);
        lemma_packed_chain(files[k].roots, files[k].qualities, length);
        assert(have_chord(chains[single + k], r, q));
    }
}

/// Whether a note can be a root: one that a probe found sounding, or any note of the
/// range without a probe and where none sounds.
pub open spec fn can_be_root(n: u8, first: u8, last: u8, probed: Option<Seq<bool>>) -> bool {
    match probed {
        Some(flags) => if exists|i: int| 0 <= i < flags.len() && #[trigger] flags[i] {
            first <= n < first + flags.len() && flags[n - first]
        } else {
            first <= n <= last
        },
        None => first <= n <= last,
    }
}

/// Whether roots are picked from those that can be: nothing else, all of them where
/// none has to be left out, no more than the slices of a file unless octaves are kept
/// whole, and the lowest and the highest where there are at least two slices.
pub open spec fn are_picked_roots(
    roots: Seq<u8>,
    args: RenderArgs,
    probed: Option<Seq<bool>>,
) -> bool {
    &&& forall|n: u8| #[trigger]
        roots.contains(n) ==> can_be_root(n, args.start_midi, args.end_midi, probed)
    &&& args.per_octave || roots.len() < args.max_slices ==> forall|n: u8|
        can_be_root(n, args.start_midi, args.end_midi, probed) ==> #[trigger] roots.contains(n)
    &&& !args.per_octave && args.max_slices >= 1 ==> roots.len() <= args.max_slices
    &&& args.max_slices >= 2 ==> forall|n: u8|
        #![trigger can_be_root(n, args.start_midi, args.end_midi, probed)]
        can_be_root(n, args.start_midi, args.end_midi, probed) ==> roots.len() > 0 && roots[0] <= n
            <= roots.last()
}

/// The notes that a probe found sounding are those whose flag is set.
pub proof fn lemma_flagged_notes_sound(first: u8, flags: Seq<bool>, n: u8)
    requires
        first + flags.len() <= 256,
    ensures
        flagged_notes(first, flags).contains(n) <==> first <= n < first + flags.len() && flags[n
            - first],
    decreases flags.len(),
{
    if flags.len() > 0 {
        let front = flags.drop_last();
        let before = flagged_notes(first, front);
        let all = flagged_notes(first, flags);
        let last = (first + flags.len() - 1) as u8;
        lemma_flagged_notes_sound(first, front, n);
        if all.contains(n) {
            let i = choose|i: int| 0 <= i < all.len() && all[i] == n;
            if i < before.len() {
                assert(before[i] == n);
            }
        }
        if first <= n < first + flags.len() && flags[n - first] {
            if n < last {
                assert(front[n - first]);
                let i = choose|i: int| 0 <= i < before.len() && before[i] == n;
                assert(all[i] == n);
            } else {
                assert(all[all.len() - 1] == n);
            }
        }
    }
}

/// Rising roots lie between the first and the last of them.
proof fn lemma_ends_of_rising(roots: Seq<u8>, n: u8)
    requires
        is_rising(roots),
        roots.contains(n),
    ensures
        roots[0] <= n <= roots.last(),
{
    let i = choose|i: int| 0 <= i < roots.len() && roots[i] == n;
    if i > 0 {
        assert(roots[0] < roots[i]);
    }
    if i < roots.len() - 1 {
        assert(roots[i] < roots[roots.len() - 1]);
    }
}

/// The pool of roots is those that can be roots, from low to high.
proof fn lemma_pool(first: u8, last: u8, probed: Option<Seq<bool>>)
    requires
        probed matches Some(flags) ==> first + flags.len() <= 256,
    ensures
        is_rising(chord_roots(first, last, probed)),
        chord_roots(first, last, probed).len() <= 256,
        forall|n: u8| #[trigger]
            chord_roots(first, last, probed).contains(n) <==> can_be_root(n, first, last, probed),
{
    let pool = chord_roots(first, last, probed);
    let range = note_range(first, last);
    assert(is_rising(range));
    assert forall|n: u8| #[trigger] range.contains(n) <==> first <= n <= last by {
        if first <= n <= last {
            assert(range[n - first] == n);
        }
    }
    if let Some(flags) = probed {
        let found = flagged_notes(first, flags);
        lemma_flagged_notes_rise(first, flags);
        assert forall|n: u8| #[trigger] found.contains(n) <==> first <= n < first + flags.len()
            && flags[n - first] by {
            lemma_flagged_notes_sound(first, flags, n);
        }
        if found.len() == 0 {
            if exists|i: int| 0 <= i < flags.len() && #[trigger] flags[i] {
                let i = choose|i: int| 0 <= i < flags.len() && #[trigger] flags[i];
                assert(found.contains((first + i) as u8));
            }
        } else {
            assert(found.contains(found[0]));
            assert(flags[found[0] - first]);
        }
    }
}

/// The roots of a run's packed chords are picked from those that can be roots.
proof fn lemma_roots_are_picked(args: RenderArgs, probed: Option<Seq<bool>>)
    requires
        probed matches Some(flags) ==> args.start_midi + flags.len() <= 256,
    ensures
        ({
            let pool = chord_roots(args.start_midi, args.end_midi, probed);
            let roots = if args.per_octave {
                pool
            } else {
                within_budget(pool, args.max_slices as nat)
            };
            are_picked_roots(roots, args, probed)
        }),
{
    let pool = chord_roots(args.start_midi, args.end_midi, probed);
    let max = args.max_slices as nat;
    let roots = if args.per_octave {
        pool
    } else {
        within_budget(pool, max)
    };
    lemma_pool(args.start_midi, args.end_midi, probed);
    if pool.len() > max {
        lemma_fitted_roots(pool, max);
    }
    assert forall|n: u8| #[trigger] roots.contains(n) implies can_be_root(
        n,
        args.start_midi,
        args.end_midi,
        probed,
    ) by {
        let i = choose|i: int| 0 <= i < roots.len() && roots[i] == n;
        assert(pool.contains(roots[i]));
    }
    assert forall|n: u8|
        #![trigger can_be_root(n, args.start_midi, args.end_midi, probed)]
        args.max_slices >= 2 && can_be_root(n, args.start_midi, args.end_midi, probed) implies roots.len()
        > 0 && roots[0] <= n <= roots.last() by {
        assert(pool.contains(n));
        lemma_ends_of_rising(pool, n);
    }
}

/// Whether the jobs of a live run are those that were asked for: chains as asked for,
/// on roots that are picked from the sounding ones; the note chain without a tag, the
/// chord on each note under the tag of its quality, packed chords recorded in full, with
/// their map and under a tag that is their label.
pub open spec fn are_jobs_as_asked(
    jobs: Seq<JobModel>,
    args: RenderArgs,
    probed: Option<Seq<bool>>,
    length: Binary64,
) -> bool {
    let with_notes = args.notes || (args.chord is None && args.chords is None);
    let before_chord: int = if with_notes {
        1
    } else {
        0
    };
    let single: int = before_chord + (if args.chord is Some {
        1int
    } else {
        0
    });
    &&& exists|roots: Seq<u8>| #[trigger]
        are_picked_roots(roots, args, probed) && are_as_asked(
            Seq::new(jobs.len(), |k: int| jobs[k].slots),
            args.notes,
            args.chord,
            args.chords,
            args.start_midi,
            args.end_midi,
            roots,
            length,
        )
    &&& with_notes ==> jobs[0].tag is None && jobs[0].label == "notes"@
    &&& args.chord matches Some(q) ==> jobs[before_chord].tag == Some(q.tag())
    &&& forall|k: int|
        0 <= k < single ==> !(#[trigger] jobs[k]).force_all && !jobs[k].csv_default
    &&& forall|k: int|
        single <= k < jobs.len() ==> (#[trigger] jobs[k]).force_all && jobs[k].csv_default
            && jobs[k].tag == Some(jobs[k].label)
}

/// The jobs of a live run are those that were asked for.
#[verifier::rlimit(50)]
pub proof fn lemma_live_jobs_are_as_asked(
    args: RenderArgs,
    probed: Option<Seq<bool>>,
    length: Binary64,
)
    requires
        probed matches Some(flags) ==> args.start_midi + flags.len() <= 256,
    ensures
        are_jobs_as_asked(run_jobs(args, probed, length), args, probed, length),
{
    let jobs = run_jobs(args, probed, length);
    let chords = requested_chords(args.chords);
    let pool = chord_roots(args.start_midi, args.end_midi, probed);
    let max = args.max_slices as nat;
    let roots = if args.per_octave {
        pool
    } else {
        within_budget(pool, max)
    };
    let files = if chords.len() > 0 {
        run_chord_files(args, probed)
    } else {
        Seq::empty()
    };
    let chains = Seq::new(jobs.len(), |k: int| jobs[k].slots);
    let single = jobs.len() - files.len();
    lemma_requested_are_wanted(args.chords);
    lemma_roots_are_picked(args, probed);
    lemma_files_hold(roots, chords, max, args.file_per_chord, args.per_octave);
    assert forall|k: int| 0 <= k < files.len() implies chains[single + k] == chord_map(
        (#[trigger] files[k]).roots,
        files[k].qualities,
        length,
    ) by {
        assert(jobs[single + k] == file_job(files[k], length));
    }
    assert forall|k: int| single <= k < jobs.len() implies (#[trigger] jobs[k]).force_all
        && jobs[k].csv_default && jobs[k].tag == Some(jobs[k].label) by {
        assert(jobs[k] == file_job(files[k - single], length));
    }
    lemma_chains_are_as_asked(
        chains,
        args.notes,
        args.chord,
        args.chords,
        args.start_midi,
        args.end_midi,
        roots,
        length,
        files,
        single,
    );
}

/// Where one chord on each note is asked for, the job under its tag holds in slot `i`
/// the chord on the note `i` above the first one, and says so.
pub proof fn lemma_chord_job_holds_chords(
    args: RenderArgs,
    probed: Option<Seq<bool>>,
    length: Binary64,
    q: ChordQuality,
)
    requires
        args.chord == Some(q),
        probed matches Some(flags) ==> args.start_midi + flags.len() <= 256,
    ensures
        exists|k: int|
            #![trigger run_jobs(args, probed, length)[k]]
            0 <= k < run_jobs(args, probed, length).len() && run_jobs(args, probed, length)[k].tag
                == Some(q.tag()) && are_chords(
                run_jobs(args, probed, length)[k].slots,
                args.start_midi,
                args.end_midi,
                q,
                length,
            ),
{
    let jobs = run_jobs(args, probed, length);
    lemma_live_jobs_are_as_asked(args, probed, length);
    let k: int = if args.notes {
        1
    } else {
        0
    };
    assert(jobs[k].tag == Some(q.tag()));
    let chains = Seq::new(jobs.len(), |k: int| jobs[k].slots);
    assert(chains[k] == jobs[k].slots);
}

/// The slots of some chains.
pub open spec fn chain_slots(chains: Seq<ChainModel>) -> Seq<Seq<SlotModel>> {
    Seq::new(chains.len(), |k: int| chains[k].slots)
}

/// Whether the chains of a font are those that were asked for: tagged as they are, and
/// told to hold chords where they do.
pub open spec fn are_chains_as_asked(
    chains: Seq<ChainModel>,
    args: RenderSfzArgs,
    length: Binary64,
    roots: Seq<u8>,
) -> bool {
    let with_notes = args.notes || (args.chord is None && args.chords is None);
    let before_chord: int = if with_notes {
        1
    } else {
        0
    };
    &&& are_as_asked(
        chain_slots(chains),
        args.notes,
        args.chord,
        args.chords,
        args.start_midi,
        args.end_midi,
        roots,
        length,
    )
    &&& with_notes ==> chains[0].tag == "notes"@ && !chains[0].is_chord
    &&& args.chord matches Some(q) ==> chains[before_chord].tag == q.tag()
    &&& forall|k: int| before_chord <= k < chains.len() ==> (#[trigger] chains[k]).is_chord
}

/// The chains of a font are those that were asked for, on the roots that it has.
#[verifier::rlimit(50)]
pub proof fn lemma_font_chains_are_as_asked(args: RenderSfzArgs, length: Binary64, roots: Seq<u8>)
    ensures
        are_chains_as_asked(font_chains(args, length, roots), args, length, roots),
{
    let chains = font_chains(args, length, roots);
    let chords = requested_chords(args.chords);
    let max = args.max_slices as nat;
    let files = if chords.len() > 0 {
        chord_file_models(roots, chords, max, args.file_per_chord, args.per_octave)
    } else {
        Seq::empty()
    };
    let single = chains.len() - files.len();
    lemma_requested_are_wanted(args.chords);
    lemma_files_hold(roots, chords, max, args.file_per_chord, args.per_octave);
    assert forall|k: int| 0 <= k < files.len() implies chain_slots(chains)[single + k] == chord_map(
        (#[trigger] files[k]).roots,
        files[k].qualities,
        length,
    ) by {
        assert(chains[single + k] == file_chain(files[k], length));
    }
    assert forall|k: int| single <= k < chains.len() implies (#[trigger] chains[k]).is_chord by {
        assert(chains[k] == file_chain(files[k - single], length));
    }
    lemma_chains_are_as_asked(
        chain_slots(chains),
        args.notes,
        args.chord,
        args.chords,
        args.start_midi,
        args.end_midi,
        roots,
        length,
        files,
        single,
    );
}

} // verus!
