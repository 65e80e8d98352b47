//! The files of a live render: which chains are recorded, which of their slots,
//! at what cost, and where the results go.
use crate::arith::{packed, plus, times_whole};
use crate::asked::{are_jobs_as_asked, lemma_live_jobs_are_as_asked};
use crate::audio::{frames_at, length_frames};
use crate::chord_files::{
    chord_file_models, chord_files, file_models, is_rising, lemma_files_stay_in_budget,
    lemma_octaves_stay_in_budget, ChordFile, ChordFileModel,
};
use crate::chords::ChordQuality;
use crate::cli::{requested_chords, RenderArgs, M8_SAMPLE_RATE};
use crate::layout::{fit_roots, fitted};
use crate::number::{lemma_whole_value_positive, quotient, whole_value, Binary64, Dyadic};
use crate::slots::{
    build_slot_map, chord_map, chord_slots, range_len, slot_map, slot_models, Slot, SlotModel,
};
use vstd::prelude::*;

verus! {

/// One output file to produce from the shared probe and measurement pass.
#[derive(Debug)]
pub struct Job {
    /// The slots of the chain.
    pub slot_map: Vec<Slot>,
    /// Filename tag (chord quality or qualities); `None` for the plain note chain.
    pub tag: Option<String>,
    /// Record every slot (chord files) or skip probed-silent slots (notes).
    pub force_all: bool,
    /// Write the CSV legend even without being asked (chord files need the map).
    pub csv_default: bool,
    /// Human label for the per-file header.
    pub label: String,
}

/// What a job is.
#[verifier::ext_equal]
pub struct JobModel {
    /// The slots of the chain.
    pub slots: Seq<SlotModel>,
    /// Filename tag.
    pub tag: Option<Seq<char>>,
    /// Record every slot.
    pub force_all: bool,
    /// Write the CSV legend unasked.
    pub csv_default: bool,
    /// Human label.
    pub label: Seq<char>,
}

impl View for Job {
    type V = JobModel;

    open spec fn view(&self) -> JobModel {
        JobModel {
            slots: slot_models(self.slot_map@),
            tag: match self.tag {
                Some(t) => Some(t@),
                None => None,
            },
            force_all: self.force_all,
            csv_default: self.csv_default,
            label: self.label@,
        }
    }
}

/// What the jobs of a list are.
pub open spec fn job_models(jobs: Seq<Job>) -> Seq<JobModel> {
    jobs.map_values(|j: Job| j@)
}

/// The notes of a range, in order.
pub open spec fn note_range(start_midi: u8, end_midi: u8) -> Seq<u8> {
    Seq::new(range_len(start_midi, end_midi), |i: int| (start_midi + i) as u8)
}

/// Lists the notes of a range.
pub fn notes_between(start_midi: u8, end_midi: u8) -> (r: Vec<u8>)
    ensures
        r@ == note_range(start_midi, end_midi),
{
    let mut out: Vec<u8> = Vec::new();
    let mut midi: u16 = start_midi as u16;
    while midi <= end_midi as u16
        invariant
            start_midi <= midi,
            start_midi <= end_midi ==> midi <= end_midi + 1,
            start_midi > end_midi ==> midi == start_midi,
            out@ =~= note_range(start_midi, end_midi).take(midi - start_midi),
        decreases end_midi + 1 - midi,
    {
        out.push(midi as u8);
        midi += 1;
    }
    assert(out@ =~= note_range(start_midi, end_midi));
    out
}

/// The notes that a probe found sounding: those whose flag is set.
pub open spec fn flagged_notes(start_midi: u8, flags: Seq<bool>) -> Seq<u8>
    decreases flags.len(),
{
    if flags.len() == 0 {
        Seq::empty()
    } else {
        let before = flagged_notes(start_midi, flags.drop_last());
        if flags.last() {
            before.push((start_midi + flags.len() - 1) as u8)
        } else {
            before
        }
    }
}

/// What a probe, where there was one, found.
pub open spec fn probe_flags(probed: Option<Vec<bool>>) -> Option<Seq<bool>> {
    match probed {
        Some(p) => Some(p@),
        None => None,
    }
}

/// The roots to build chords on: the sounding notes, or the full range without a
/// probe and where nothing sounded.
pub open spec fn chord_roots(start_midi: u8, end_midi: u8, probed: Option<Seq<bool>>) -> Seq<u8> {
    match probed {
        Some(flags) => {
            let pool = flagged_notes(start_midi, flags);
            if pool.len() == 0 {
                note_range(start_midi, end_midi)
            } else {
                pool
            }
        },
        None => note_range(start_midi, end_midi),
    }
}

/// Roots capped to the slice budget by spreading evenly: a single quality cannot
/// exceed the slices of a file.
pub open spec fn within_budget(roots: Seq<u8>, max_slices: nat) -> Seq<u8> {
    if roots.len() > max_slices {
        fitted(roots, max_slices)
    } else {
        roots
    }
}

/// The roots to build chords on: the probed sounding roots, or the full
/// `start..=end` range without a probe (or when nothing sounded).
pub fn sounding_roots(args: &RenderArgs, probed: &Option<Vec<bool>>) -> (r: Vec<u8>)
    requires
        probed matches Some(p) ==> args.start_midi + p.len() <= 256,
    ensures
        r@ == chord_roots(args.start_midi, args.end_midi, probe_flags(*probed)),
{
    let mut pool: Vec<u8> = Vec::new();
    if let Some(p) = probed {
        let mut i: usize = 0;
        while i < p.len()
            invariant
                i <= p.len(),
                args.start_midi + p.len() <= 256,
                pool@ == flagged_notes(args.start_midi, p@.take(i as int)),
            decreases p.len() - i,
        {
            proof {
                assert(p@.take(i + 1).drop_last() =~= p@.take(i as int));
            }
            if p[i] {
                pool.push((args.start_midi as usize + i) as u8);
            }
            i += 1;
        }
        assert(p@.take(i as int) =~= p@);
    }
    if pool.len() == 0 {
        notes_between(args.start_midi, args.end_midi)
    } else {
        pool
    }
}

/// Roots for the packed (non-octave) chord layout: the sounding roots, capped to
/// `max_slices` by spreading evenly.
pub fn packed_roots(args: &RenderArgs, probed: &Option<Vec<bool>>) -> (r: Vec<u8>)
    requires
        probed matches Some(p) ==> args.start_midi + p.len() <= 256,
    ensures
        r@ == within_budget(
            chord_roots(args.start_midi, args.end_midi, probe_flags(*probed)),
            args.max_slices as nat,
        ),
{
    let pool = sounding_roots(args, probed);
    if pool.len() > args.max_slices {
        fit_roots(pool.as_slice(), args.max_slices)
    } else {
        pool
    }
}

/// Whether the plain note chain is rendered: on request, or without any chords.
pub open spec fn wants_notes(notes: bool, chord: Option<ChordQuality>, chords: Seq<ChordQuality>) -> bool {
    notes || (chords.len() == 0 && chord is None)
}

/// The job of the plain note chain.
pub open spec fn notes_job(args: RenderArgs, slot_length: Binary64) -> JobModel {
    JobModel {
        slots: slot_map(args.start_midi, args.end_midi, slot_length, None),
        tag: None,
        force_all: false,
        csv_default: false,
        label: "notes"@,
    }
}

/// The job of one chord on every note.
pub open spec fn chord_job(args: RenderArgs, q: ChordQuality, slot_length: Binary64) -> JobModel {
    JobModel {
        slots: slot_map(args.start_midi, args.end_midi, slot_length, Some(q)),
        tag: Some(q.tag()),
        force_all: false,
        csv_default: false,
        label: q.tag() + " (slice=root)"@,
    }
}

/// The job of a file of packed chords.
pub open spec fn file_job(f: ChordFileModel, slot_length: Binary64) -> JobModel {
    JobModel {
        slots: chord_map(f.roots, f.qualities, slot_length),
        tag: Some(f.tag),
        force_all: true,
        csv_default: true,
        label: f.tag,
    }
}

/// The files of packed chords that a run writes.
pub open spec fn run_chord_files(args: RenderArgs, probed: Option<Seq<bool>>) -> Seq<ChordFileModel> {
    let roots = chord_roots(args.start_midi, args.end_midi, probed);
    chord_file_models(
        if args.per_octave {
            roots
        } else {
            within_budget(roots, args.max_slices as nat)
        },
        requested_chords(args.chords),
        args.max_slices as nat,
        args.file_per_chord,
        args.per_octave,
    )
}

/// The jobs of a run: the note chain, the chord on every note, the packed files.
pub open spec fn run_jobs(args: RenderArgs, probed: Option<Seq<bool>>, slot_length: Binary64) -> Seq<
    JobModel,
> {
    let chords = requested_chords(args.chords);
    let notes = if wants_notes(args.notes, args.chord, chords) {
        seq![notes_job(args, slot_length)]
    } else {
        Seq::empty()
    };
    let chord = match args.chord {
        Some(q) => seq![chord_job(args, q, slot_length)],
        None => Seq::empty(),
    };
    let packed_chords = if chords.len() > 0 {
        run_chord_files(args, probed).map_values(|f: ChordFileModel| file_job(f, slot_length))
    } else {
        Seq::empty()
    };
    notes + chord + packed_chords
}

/// Assemble the list of output files: the optional single-note chain, an optional
/// chord on every note, and the files of packed chords.
pub fn build_jobs(args: &RenderArgs, probed: &Option<Vec<bool>>, slot_length: Binary64) -> (r: Vec<Job>)
    requires
        probed matches Some(p) ==> args.start_midi + p.len() <= 256,
    ensures
        job_models(r@) == run_jobs(*args, probe_flags(*probed), slot_length),
        are_jobs_as_asked(job_models(r@), *args, probe_flags(*probed), slot_length),
{
    proof {
        lemma_live_jobs_are_as_asked(*args, probe_flags(*probed), slot_length);
    }
    let mut jobs: Vec<Job> = Vec::new();
    let chords = args.resolved_chords();
    if args.notes || (chords.len() == 0 && args.chord.is_none()) {
        jobs.push(
            Job {
                slot_map: build_slot_map(args.start_midi, args.end_midi, slot_length, None),
                tag: None,
                force_all: false,
                csv_default: false,
                label: "notes".to_string(),
            },
        );
    }
    let ghost notes = job_models(jobs@);
    if let Some(q) = args.chord {
        let mut label = q.short().to_string();
        label.append(" (slice=root)");
        jobs.push(
            Job {
                slot_map: build_slot_map(args.start_midi, args.end_midi, slot_length, Some(q)),
                tag: Some(q.short().to_string()),
                force_all: false,
                csv_default: false,
                label,
            },
        );
    }
    let ghost singles = job_models(jobs@);
    proof {
        assert(notes =~= if wants_notes(args.notes, args.chord, chords@) {
            seq![notes_job(*args, slot_length)]
        } else {
            Seq::empty()
        });
        assert(singles =~= notes + match args.chord {
            Some(q) => seq![chord_job(*args, q, slot_length)],
            None => Seq::empty(),
        });
    }
    if chords.len() > 0 {
        let roots = if args.per_octave {
            sounding_roots(args, probed)
        } else {
            packed_roots(args, probed)
        };
        let files = chord_files(
            roots.as_slice(),
            chords.as_slice(),
            args.max_slices,
            args.file_per_chord,
            args.per_octave,
        );
        push_file_jobs(&mut jobs, &files, slot_length, args.max_slices);
    }
    assert(job_models(jobs@) =~= run_jobs(*args, probe_flags(*probed), slot_length));
    jobs
}

/// Adds the jobs of some files of packed chords.
fn push_file_jobs(jobs: &mut Vec<Job>, files: &Vec<ChordFile>, slot_length: Binary64, max_slices: usize)
    requires
        forall|k: int|
            0 <= k < files.len() ==> crate::chord_files::is_bounded(
                #[trigger] files@[k]@,
                max_slices as nat,
            ),
    ensures
        job_models(final(jobs)@) == job_models(old(jobs)@) + file_models(files@).map_values(
            |f: ChordFileModel| file_job(f, slot_length),
        ),
{
    let ghost before = job_models(jobs@);
    let ghost added = file_models(files@).map_values(|f: ChordFileModel| file_job(f, slot_length));
    let mut i: usize = 0;
    while i < files.len()
        invariant
            i <= files.len(),
            added == file_models(files@).map_values(|f: ChordFileModel| file_job(f, slot_length)),
            job_models(jobs@) =~= before + added.take(i as int),
            forall|k: int|
                0 <= k < files.len() ==> crate::chord_files::is_bounded(
                    #[trigger] files@[k]@,
                    max_slices as nat,
                ),
        decreases files.len() - i,
    {
        let file = &files[i];
        proof {
            assert(crate::chord_files::is_bounded(files@[i as int]@, max_slices as nat));
            let n = file.roots.len();
            let m = file.qualities.len();
            if m <= 1 {
                assert(n * m <= n) by (nonlinear_arith)
                    requires
                        m <= 1,
                ;
            }
        }
        let job = Job {
            slot_map: chord_slots(file.roots.as_slice(), file.qualities.as_slice(), slot_length),
            tag: Some(file.tag.clone()),
            force_all: true,
            csv_default: true,
            label: file.tag.clone(),
        };
        proof {
            assert(added[i as int] == job@);
            assert(job_models(jobs@.push(job)) =~= job_models(jobs@).push(job@));
        }
        jobs.push(job);
        i += 1;
    }
    assert(added.take(i as int) =~= added);
}

/// Whether a slot of a job is recorded.
pub open spec fn is_recorded(force_all: bool, no_probe: bool, probed: Option<Seq<bool>>, slot: u8) -> bool {
    match probed {
        Some(flags) => force_all || no_probe || slot >= flags.len() || flags[slot as int],
        None => true,
    }
}

/// Which slots of a job are recorded.
pub open spec fn recorded_flags(job: JobModel, probed: Option<Seq<bool>>, no_probe: bool) -> Seq<bool> {
    job.slots.map_values(
        |s: SlotModel| is_recorded(job.force_all, no_probe, probed, s.slot),
    )
}

/// Per-slot record flags for a job: chord files record every slot; note and
/// slice-root files skip slots the probe found silent (indexed by root position).
pub fn job_sounding(job: &Job, probed: &Option<Vec<bool>>, args: &RenderArgs) -> (r: Vec<bool>)
    ensures
        r@ == recorded_flags(job@, probe_flags(*probed), args.no_probe),
        r.len() == job.slot_map.len(),
{
    let ghost all = recorded_flags(job@, probe_flags(*probed), args.no_probe);
    let mut out: Vec<bool> = Vec::new();
    let mut i: usize = 0;
    while i < job.slot_map.len()
        invariant
            i <= job.slot_map.len(),
            all == recorded_flags(job@, probe_flags(*probed), args.no_probe),
            out@ =~= all.take(i as int),
        decreases job.slot_map.len() - i,
    {
        let slot: usize = job.slot_map[i].slot as usize;
        let flag: bool = match probed {
            Some(p) => {
                if job.force_all || args.no_probe || slot >= p.len() {
                    true
                } else {
                    p[slot]
                }
            },
            None => true,
        };
        assert(all[i as int] == flag);
        out.push(flag);
        i += 1;
    }
    assert(out@ =~= all);
    out
}

/// How many flags are set.
pub open spec fn flag_count(flags: Seq<bool>) -> nat
    decreases flags.len(),
{
    if flags.len() == 0 {
        0
    } else {
        flag_count(flags.drop_last()) + (if flags.last() {
            1nat
        } else {
            0
        })
    }
}

/// Counts the set flags.
pub fn count_flags(flags: &[bool]) -> (r: usize)
    ensures
        r == flag_count(flags@),
        r <= flags.len(),
{
    let mut n: usize = 0;
    let mut i: usize = 0;
    while i < flags.len()
        invariant
            n <= i <= flags.len(),
            n == flag_count(flags@.take(i as int)),
        decreases flags.len() - i,
    {
        assert(flags@.take(i + 1).drop_last() =~= flags@.take(i as int));
        if flags[i] {
            n += 1;
        }
        i += 1;
    }
    assert(flags@.take(i as int) =~= flags@);
    n
}

/// The largest count, zero where there is none.
pub open spec fn largest(counts: Seq<usize>) -> nat
    decreases counts.len(),
{
    if counts.len() == 0 {
        0
    } else {
        let before = largest(counts.drop_last());
        if counts.last() > before {
            counts.last() as nat
        } else {
            before
        }
    }
}

/// The sum of the counts.
pub open spec fn total(counts: Seq<usize>) -> nat
    decreases counts.len(),
{
    if counts.len() == 0 {
        0
    } else {
        total(counts.drop_last()) + counts.last() as nat
    }
}

/// Fewer counts have no larger sum.
proof fn lemma_total_grows(counts: Seq<usize>, n: int)
    requires
        0 <= n <= counts.len(),
    ensures
        total(counts.take(n)) <= total(counts),
    decreases counts.len() - n,
{
    if n < counts.len() {
        lemma_total_grows(counts, n + 1);
        assert(counts.take(n + 1).drop_last() =~= counts.take(n));
    } else {
        assert(counts.take(n) =~= counts);
    }
}

/// How many samples a slot of an output has.
pub open spec fn slot_samples(slot_length: Binary64, out_channels: u16) -> nat {
    frames_at(slot_length, M8_SAMPLE_RATE) * out_channels as nat
}

/// The bytes of the largest file in memory, four for each sample.
pub open spec fn peak_bytes(slot_counts: Seq<usize>, slot_length: Binary64, out_channels: u16) -> nat {
    largest(slot_counts) * slot_samples(slot_length, out_channels) * 4
}

/// The seconds that one recorded slot takes with its pre-roll.
pub open spec fn slot_seconds(slot_length: Binary64, pre_roll_ms: u64) -> Binary64 {
    plus(
        slot_length,
        Binary64 {
            bits: packed(quotient(whole_value(pre_roll_ms as nat), whole_value(1000))),
        },
    )
}

/// Finds the largest count.
fn largest_count(counts: &[usize]) -> (r: usize)
    ensures
        r == largest(counts@),
{
    let mut most: usize = 0;
    let mut i: usize = 0;
    while i < counts.len()
        invariant
            i <= counts.len(),
            most == largest(counts@.take(i as int)),
        decreases counts.len() - i,
    {
        assert(counts@.take(i + 1).drop_last() =~= counts@.take(i as int));
        if counts[i] > most {
            most = counts[i];
        }
        i += 1;
    }
    assert(counts@.take(i as int) =~= counts@);
    most
}

/// Estimate a batch's peak RAM and total recording time. Files record one at a
/// time, so peak memory is the largest single file's chain buffer, not the sum;
/// total time counts only the slots actually recorded.
pub fn batch_cost(
    slot_counts: &[usize],
    record_counts: &[usize],
    slot_length: Binary64,
    out_channels: u16,
    pre_roll_ms: u64,
) -> (r: (usize, Binary64))
    requires
        slot_length.is_positive(),
        slot_samples(slot_length, out_channels) <= usize::MAX,
        peak_bytes(slot_counts@, slot_length, out_channels) <= usize::MAX,
        total(record_counts@) <= usize::MAX,
    ensures
        r.0 == peak_bytes(slot_counts@, slot_length, out_channels),
        r.1 == times_whole(slot_seconds(slot_length, pre_roll_ms), total(record_counts@)),
{
    let most: usize = largest_count(slot_counts);
    let mut sum: usize = 0;
    let mut k: usize = 0;
    while k < record_counts.len()
        invariant
            k <= record_counts.len(),
            total(record_counts@) <= usize::MAX,
            sum == total(record_counts@.take(k as int)),
        decreases record_counts.len() - k,
    {
        proof {
            assert(record_counts@.take(k + 1).drop_last() =~= record_counts@.take(k as int));
            lemma_total_grows(record_counts@, k + 1);
        }
        sum += record_counts[k];
        k += 1;
    }
    assert(record_counts@.take(k as int) =~= record_counts@);
    let samples: usize = length_frames(slot_length, M8_SAMPLE_RATE) * out_channels as usize;
    proof {
        lemma_whole_value_positive(1000);
        if pre_roll_ms > 0 {
            lemma_whole_value_positive(pre_roll_ms as nat);
        }
    }
    let bytes: usize = most * samples * 4;
    let pre_roll = Dyadic::from_whole(pre_roll_ms as u128).over(Dyadic::from_whole(1000)).pack();
    let per_slot = slot_length.after(pre_roll);
    (bytes, per_slot.times(sum as u64))
}

/// How many slots each file of a batch has.
pub open spec fn slot_counts(jobs: Seq<Job>) -> Seq<usize> {
    jobs.map_values(|job: Job| job.slot_map.len())
}

/// How many slots of each file of a batch are recorded.
pub open spec fn record_counts(jobs: Seq<Job>, probed: Option<Seq<bool>>, no_probe: bool) -> Seq<
    usize,
> {
    jobs.map_values(
        |job: Job| flag_count(recorded_flags(job@, probed, no_probe)) as usize,
    )
}

/// Whether the counts have a sum that can be counted.
fn total_fits(counts: &[usize]) -> (r: bool)
    ensures
        r == (total(counts@) <= usize::MAX),
{
    let mut sum: usize = 0;
    let mut i: usize = 0;
    while i < counts.len()
        invariant
            i <= counts.len(),
            sum == total(counts@.take(i as int)),
        decreases counts.len() - i,
    {
        proof {
            assert(counts@.take(i + 1).drop_last() =~= counts@.take(i as int));
            lemma_total_grows(counts@, i + 1);
        }
        match sum.checked_add(counts[i]) {
            Some(next) => {
                sum = next;
            },
            None => {
                return false;
            },
        }
        i += 1;
    }
    assert(counts@.take(i as int) =~= counts@);
    true
}

/// Estimates the peak RAM and the total recording time of the files of a run;
/// nothing where one of them cannot be counted.
pub fn batch_estimate(
    args: &RenderArgs,
    jobs: &[Job],
    probed: &Option<Vec<bool>>,
    slot_length: Binary64,
    out_channels: u16,
) -> (r: Option<(usize, Binary64)>)
    requires
        slot_length.is_positive(),
    ensures
        ({
            let slots = slot_counts(jobs@);
            let records = record_counts(jobs@, probe_flags(*probed), args.no_probe);
            &&& r is Some <==> slot_samples(slot_length, out_channels) <= usize::MAX
                && peak_bytes(slots, slot_length, out_channels) <= usize::MAX && total(records)
                <= usize::MAX
            &&& r matches Some(cost) ==> cost.0 == peak_bytes(slots, slot_length, out_channels)
                && cost.1 == times_whole(slot_seconds(slot_length, args.pre_roll_ms), total(records))
        }),
{
    let ghost slots = slot_counts(jobs@);
    let ghost records = record_counts(jobs@, probe_flags(*probed), args.no_probe);
    let mut sizes: Vec<usize> = Vec::new();
    let mut recorded: Vec<usize> = Vec::new();
    let mut i: usize = 0;
    while i < jobs.len()
        invariant
            i <= jobs.len(),
            slots == slot_counts(jobs@),
            records == record_counts(jobs@, probe_flags(*probed), args.no_probe),
            sizes@ =~= slots.take(i as int),
            recorded@ =~= records.take(i as int),
        decreases jobs.len() - i,
    {
        let flags = job_sounding(&jobs[i], probed, args);
        sizes.push(jobs[i].slot_map.len());
        recorded.push(count_flags(flags.as_slice()));
        i += 1;
    }
    assert(sizes@ =~= slots);
    assert(recorded@ =~= records);
    let most: usize = largest_count(sizes.as_slice());
    let samples: usize = length_frames(slot_length, M8_SAMPLE_RATE).checked_mul(
        out_channels as usize,
    )?;
    let file: usize = most.checked_mul(samples)?;
    file.checked_mul(4)?;
    if !total_fits(recorded.as_slice()) {
        return None;
    }
    Some(batch_cost(
        sizes.as_slice(),
        recorded.as_slice(),
        slot_length,
        out_channels,
        args.pre_roll_ms,
    ))
}

/// No more flags are set than there are.
proof fn lemma_flag_count_is_limited(flags: Seq<bool>)
    ensures
        flag_count(flags) <= flags.len(),
    decreases flags.len(),
{
    if flags.len() > 0 {
        lemma_flag_count_is_limited(flags.drop_last());
    }
}

/// The estimate never counts more recorded slots for a file than the file has, and
/// exactly as many where nothing was probed.
pub proof fn lemma_recorded_slots_are_slots(
    jobs: Seq<Job>,
    probed: Option<Seq<bool>>,
    no_probe: bool,
    k: int,
)
    requires
        0 <= k < jobs.len(),
    ensures
        record_counts(jobs, probed, no_probe)[k] <= slot_counts(jobs)[k],
        probed is None || no_probe || jobs[k].force_all ==> record_counts(
            jobs,
            probed,
            no_probe,
        )[k] == slot_counts(jobs)[k],
{
    let flags = recorded_flags(jobs[k]@, probed, no_probe);
    lemma_flag_count_is_limited(flags);
    assert(flags.len() == jobs[k].slot_map@.len());
    if probed is None || no_probe || jobs[k].force_all {
        lemma_all_set_are_counted(flags);
    }
}

/// Where every flag is set, all are counted.
proof fn lemma_all_set_are_counted(flags: Seq<bool>)
    requires
        forall|i: int| 0 <= i < flags.len() ==> #[trigger] flags[i],
    ensures
        flag_count(flags) == flags.len(),
    decreases flags.len(),
{
    if flags.len() > 0 {
        assert(flags[flags.len() - 1]);
        lemma_all_set_are_counted(flags.drop_last());
    }
}

/// Peak RAM (bytes) above which the run pauses for an abortable countdown.
pub const MEM_WARN_BYTES: usize = 0x2000_0000;

/// Whether a batch is so large that the run pauses for an abortable countdown.
pub fn needs_countdown(peak_bytes: usize) -> (r: bool)
    ensures
        r == (peak_bytes > MEM_WARN_BYTES),
{
    peak_bytes > MEM_WARN_BYTES
}

/// The notes that a probe found sounding rise, and lie below the end of its flags.
pub(crate) proof fn lemma_flagged_notes_rise(start_midi: u8, flags: Seq<bool>)
    requires
        start_midi + flags.len() <= 256,
    ensures
        is_rising(flagged_notes(start_midi, flags)),
        forall|i: int|
            0 <= i < flagged_notes(start_midi, flags).len() ==> #[trigger] flagged_notes(
                start_midi,
                flags,
            )[i] < start_midi + flags.len(),
        flagged_notes(start_midi, flags).len() <= flags.len(),
    decreases flags.len(),
{
    if flags.len() > 0 {
        lemma_flagged_notes_rise(start_midi, flags.drop_last());
        let before = flagged_notes(start_midi, flags.drop_last());
        let all = flagged_notes(start_midi, flags);
        assert forall|i: int| 0 <= i < all.len() implies #[trigger] all[i] < start_midi + flags.len() by {
            if i < before.len() {
                assert(all[i] == before[i]);
            }
        }
        assert forall|i: int, j: int| 0 <= i < j < all.len() implies all[i] < all[j] by {
            assert(all[i] == before[i]);
            if j < before.len() {
                assert(all[j] == before[j]);
            }
        }
    }
}

/// Every packed chord file of a run has at most `max_slices` slots, unless octaves
/// are kept whole on a budget that is too small for one.
pub proof fn lemma_run_files_stay_in_budget(args: RenderArgs, probed: Option<Seq<bool>>, k: int)
    requires
        args.max_slices >= 1,
        args.per_octave ==> args.max_slices >= 12 && !args.file_per_chord,
        probed matches Some(flags) ==> args.start_midi + flags.len() <= 256,
        0 <= k < run_chord_files(args, probed).len(),
    ensures
        run_chord_files(args, probed)[k].roots.len() * run_chord_files(
            args,
            probed,
        )[k].qualities.len() <= args.max_slices,
{
    let roots = chord_roots(args.start_midi, args.end_midi, probed);
    if let Some(flags) = probed {
        lemma_flagged_notes_rise(args.start_midi, flags);
    }
    assert(is_rising(note_range(args.start_midi, args.end_midi)));
    let qualities = requested_chords(args.chords);
    if args.per_octave {
        lemma_octaves_stay_in_budget(roots, qualities, args.max_slices as nat, k);
    } else {
        assert(roots.len() <= 256);
        let kept = within_budget(roots, args.max_slices as nat);
        if roots.len() > args.max_slices {
            crate::layout::lemma_fitted_roots(roots, args.max_slices as nat);
        }
        lemma_files_stay_in_budget(
            kept,
            qualities,
            args.max_slices as nat,
            args.file_per_chord,
            false,
            k,
        );
    }
}

/// A slot is skipped only where a probe found its note silent, in a file that does
/// not record everything.
pub proof fn lemma_only_silent_slots_are_skipped(
    job: JobModel,
    probed: Option<Seq<bool>>,
    no_probe: bool,
    i: int,
)
    requires
        0 <= i < job.slots.len(),
        !recorded_flags(job, probed, no_probe)[i],
    ensures
        !job.force_all,
        !no_probe,
        match probed {
            Some(flags) => job.slots[i].slot < flags.len() && !flags[job.slots[i].slot as int],
            None => false,
        },
{
}

} // verus!
