//! The chains of an offline render: fonts, chains, velocities and takes fanned
//! out into jobs, and the MIDI files that the engine is given for them.
use crate::asked::{are_chains_as_asked, lemma_font_chains_are_as_asked};
use crate::chord_files::{chord_file_models, chord_files, is_bounded, ChordFile, ChordFileModel};
use crate::cli::{requested_chords, RenderSfzArgs};
use crate::fanout::{are_fanned_out, lemma_jobs_are_fanned_out};
use crate::number::Binary64;
use crate::output::or_else;
use crate::paths::{
    file_stem, optional_text, path_stem, path_with_extension, path_with_file_name, with_extension,
    with_file_name,
};
use crate::render::wants_notes;
use crate::slots::{
    build_slot_map, chord_map, chord_slots, copy_slots, slot_map, slot_models, Slot, SlotModel,
};
use crate::text::{
    decimal, decimal_text, digits_number, is_digit, lemma_decimal_digits, lemma_decimal_is_unique,
    pad_left, padded_left,
};
use vstd::prelude::*;

verus! {

/// A distinct chain to render for one font, before the velocity and variation
/// fan-out.
#[derive(Debug)]
pub struct BaseChain {
    /// The slots of the chain.
    pub slot_map: Vec<Slot>,
    /// Filename tag: `notes`, `maj`, `maj-min-dim`, and so on.
    pub tag: String,
    /// Whether the chain holds chords.
    pub is_chord: bool,
}

/// What a chain is.
#[verifier::ext_equal]
pub struct ChainModel {
    /// The slots of the chain.
    pub slots: Seq<SlotModel>,
    /// Filename tag.
    pub tag: Seq<char>,
    /// Whether the chain holds chords.
    pub is_chord: bool,
}

impl View for BaseChain {
    type V = ChainModel;

    open spec fn view(&self) -> ChainModel {
        ChainModel { slots: slot_models(self.slot_map@), tag: self.tag@, is_chord: self.is_chord }
    }
}

/// What the chains of a list are.
pub open spec fn chain_models(chains: Seq<BaseChain>) -> Seq<ChainModel> {
    chains.map_values(|c: BaseChain| c@)
}

/// Per-font analysis done before the job fan-out.
#[derive(Debug)]
pub struct FontPrep {
    /// The slot length to use.
    pub slot_length: Binary64,
    /// The sounding notes, capped to the slice budget.
    pub chord_roots: Vec<u8>,
}

/// What the analysis of a font found.
#[verifier::ext_equal]
pub struct PrepModel {
    /// The slot length to use.
    pub slot_length: Binary64,
    /// The roots of packed chords.
    pub chord_roots: Seq<u8>,
}

impl View for FontPrep {
    type V = PrepModel;

    open spec fn view(&self) -> PrepModel {
        PrepModel { slot_length: self.slot_length, chord_roots: self.chord_roots@ }
    }
}

/// What the analyses of a list found.
pub open spec fn prep_models(preps: Seq<FontPrep>) -> Seq<PrepModel> {
    preps.map_values(|p: FontPrep| p@)
}

/// One output file to render: a chain of a font, at a velocity, one take.
#[derive(Debug)]
pub struct Job {
    /// The instrument file.
    pub sfz: String,
    /// Base output path whose stem and parent define this font's output folder.
    pub out_base: String,
    /// The chain's slots.
    pub slot_map: Vec<Slot>,
    /// Slot length in seconds.
    pub slot_length: Binary64,
    /// Base note-on velocity for the take.
    pub velocity: u8,
    /// Variation index; 0 is the clean take.
    pub variation: u32,
    /// Whether the chain holds chords.
    pub is_chord: bool,
    /// Filename tag, e.g. `notes`, `maj-min-dim_v80_take02`.
    pub name: String,
    /// Human label for the per-file summary line.
    pub label: String,
}

/// What a job is.
#[verifier::ext_equal]
pub struct JobModel {
    /// The instrument file.
    pub sfz: Seq<char>,
    /// Base output path.
    pub out_base: Seq<char>,
    /// The chain's slots.
    pub slots: Seq<SlotModel>,
    /// Slot length in seconds.
    pub slot_length: Binary64,
    /// Base note-on velocity.
    pub velocity: u8,
    /// Variation index.
    pub variation: u32,
    /// Whether the chain holds chords.
    pub is_chord: bool,
    /// Filename tag.
    pub name: Seq<char>,
    /// Human label.
    pub label: Seq<char>,
}

impl View for Job {
    type V = JobModel;

    open spec fn view(&self) -> JobModel {
        JobModel {
            sfz: self.sfz@,
            out_base: self.out_base@,
            slots: slot_models(self.slot_map@),
            slot_length: self.slot_length,
            velocity: self.velocity,
            variation: self.variation,
            is_chord: self.is_chord,
            name: self.name@,
            label: self.label@,
        }
    }
}

/// What the jobs of a list are.
pub open spec fn job_models(jobs: Seq<Job>) -> Seq<JobModel> {
    jobs.map_values(|j: Job| j@)
}

/// The stem that names a font: the one found, or `sfz`.
pub fn stem_or_sfz(found: Option<String>) -> (r: String)
    ensures
        r@ == or_else(optional_text(found), "sfz"@),
{
    match found {
        Some(s) => s,
        None => "sfz".to_string(),
    }
}

/// The name of a font.
pub open spec fn font_text(sfz: Seq<char>) -> Seq<char> {
    or_else(path_stem(sfz), "sfz"@)
}

/// The file stem of an `.sfz` path, for folder and label naming.
pub fn font_stem(sfz: &str) -> (r: String)
    ensures
        r@ == font_text(sfz@),
{
    stem_or_sfz(file_stem(sfz))
}

/// The base output path of a font.
pub open spec fn font_base_text(output: Option<String>, sfz: Seq<char>, multi_font: bool) -> Seq<char> {
    match output {
        Some(o) => if multi_font {
            path_with_file_name(o@, font_text(sfz) + ".wav"@)
        } else {
            o@
        },
        None => path_with_extension(sfz, "wav"@),
    }
}

/// The base output path for a font: the output verbatim for a single font, one
/// file per font under its parent for several, or (without an output) a folder
/// beside the `.sfz` named after it.
pub fn font_output_base(args: &RenderSfzArgs, sfz: &str, multi_font: bool) -> (r: String)
    ensures
        r@ == font_base_text(args.output, sfz@, multi_font),
{
    match &args.output {
        Some(o) => {
            if multi_font {
                let mut name = font_stem(sfz);
                name.append(".wav");
                with_file_name(o.as_str(), name.as_str())
            } else {
                o.clone()
            }
        },
        None => {
            proof {
                reveal_strlit("wav");
            }
            with_extension(sfz, "wav")
        },
    }
}

/// The chain of a file of packed chords.
pub open spec fn file_chain(f: ChordFileModel, slot_length: Binary64) -> ChainModel {
    ChainModel { slots: chord_map(f.roots, f.qualities, slot_length), tag: f.tag, is_chord: true }
}

/// The chains of one font: the note chain, the chord on every note, the packed
/// files.
pub open spec fn font_chains(args: RenderSfzArgs, slot_length: Binary64, chord_roots: Seq<u8>) -> Seq<
    ChainModel,
> {
    let chords = requested_chords(args.chords);
    let notes = if wants_notes(args.notes, args.chord, chords) {
        seq![
            ChainModel {
                slots: slot_map(args.start_midi, args.end_midi, slot_length, None),
                tag: "notes"@,
                is_chord: false,
            },
        ]
    } else {
        Seq::empty()
    };
    let chord = match args.chord {
        Some(q) => seq![
            ChainModel {
                slots: slot_map(args.start_midi, args.end_midi, slot_length, Some(q)),
                tag: q.tag(),
                is_chord: true,
            },
        ],
        None => Seq::empty(),
    };
    let packed_chords = if chords.len() > 0 {
        chord_file_models(
            chord_roots,
            chords,
            args.max_slices as nat,
            args.file_per_chord,
            args.per_octave,
        ).map_values(|f: ChordFileModel| file_chain(f, slot_length))
    } else {
        Seq::empty()
    };
    notes + chord + packed_chords
}

/// The distinct chains for one font at `slot_length`: the note chain (default or
/// on request), an optional chord on every note, and the packed chord files. The
/// first two span the full range, key-aligned on the M8; packed files hold only
/// `chord_roots`.
pub fn base_chains(args: &RenderSfzArgs, slot_length: Binary64, chord_roots: &[u8]) -> (r: Vec<BaseChain>)
    ensures
        chain_models(r@) == font_chains(*args, slot_length, chord_roots@),
        are_chains_as_asked(chain_models(r@), *args, slot_length, chord_roots@),
{
    proof {
        lemma_font_chains_are_as_asked(*args, slot_length, chord_roots@);
    }
    let mut chains: Vec<BaseChain> = Vec::new();
    let chords = args.resolved_chords();
    if args.notes || (chords.len() == 0 && args.chord.is_none()) {
        chains.push(
            BaseChain {
                slot_map: build_slot_map(args.start_midi, args.end_midi, slot_length, None),
                tag: "notes".to_string(),
                is_chord: false,
            },
        );
    }
    if let Some(q) = args.chord {
        chains.push(
            BaseChain {
                slot_map: build_slot_map(args.start_midi, args.end_midi, slot_length, Some(q)),
                tag: q.short().to_string(),
                is_chord: true,
            },
        );
    }
    if chords.len() > 0 {
        let files = chord_files(
            chord_roots,
            chords.as_slice(),
            args.max_slices,
            args.file_per_chord,
            args.per_octave,
        );
        push_file_chains(&mut chains, &files, slot_length, args.max_slices);
    }
    assert(chain_models(chains@) =~= font_chains(*args, slot_length, chord_roots@));
    chains
}

/// Adds the chains of some files of packed chords.
fn push_file_chains(
    chains: &mut Vec<BaseChain>,
    files: &Vec<ChordFile>,
    slot_length: Binary64,
    max_slices: usize,
)
    requires
        forall|k: int| 0 <= k < files.len() ==> is_bounded(#[trigger] files@[k]@, max_slices as nat),
    ensures
        chain_models(final(chains)@) == chain_models(old(chains)@) + crate::chord_files::file_models(
            files@,
        ).map_values(|f: ChordFileModel| file_chain(f, slot_length)),
{
    let ghost before = chain_models(chains@);
    let ghost added = crate::chord_files::file_models(files@).map_values(
        |f: ChordFileModel| file_chain(f, slot_length),
    );
    let mut i: usize = 0;
    while i < files.len()
        invariant
            i <= files.len(),
            added == crate::chord_files::file_models(files@).map_values(
                |f: ChordFileModel| file_chain(f, slot_length),
            ),
            chain_models(chains@) =~= before + added.take(i as int),
            forall|k: int|
                0 <= k < files.len() ==> is_bounded(#[trigger] files@[k]@, max_slices as nat),
        decreases files.len() - i,
    {
        let file = &files[i];
        proof {
            assert(is_bounded(files@[i as int]@, max_slices as nat));
            let n = file.roots.len();
            let m = file.qualities.len();
            if m <= 1 {
                assert(n * m <= n) by (nonlinear_arith)
                    requires
                        m <= 1,
                ;
            }
        }
        let chain = BaseChain {
            slot_map: chord_slots(file.roots.as_slice(), file.qualities.as_slice(), slot_length),
            tag: file.tag.clone(),
            is_chord: true,
        };
        proof {
            assert(added[i as int] == chain@);
            assert(chain_models(chains@.push(chain)) =~= chain_models(chains@).push(chain@));
        }
        chains.push(chain);
        i += 1;
    }
    assert(added.take(i as int) =~= added);
}

/// What the jobs of one font share.
#[verifier::ext_equal]
pub struct FontModel {
    /// The instrument file.
    pub sfz: Seq<char>,
    /// Base output path.
    pub out_base: Seq<char>,
    /// Slot length in seconds.
    pub slot_length: Binary64,
}

/// The filename tag of a job: the chain's, then the velocity and the take where
/// there are several.
pub open spec fn job_name(
    tag: Seq<char>,
    velocity: u8,
    variation: u32,
    multi_vel: bool,
    multi_var: bool,
) -> Seq<char> {
    tag + (if multi_vel {
        "_v"@ + decimal(velocity as nat)
    } else {
        ""@
    }) + (if multi_var {
        "_take"@ + padded_left(decimal(variation as nat + 1), 2, '0')
    } else {
        ""@
    })
}

/// The name of a job.
fn name_job(tag: &str, velocity: u8, variation: u32, multi_vel: bool, multi_var: bool) -> (r: String)
    requires
        variation < u32::MAX,
    ensures
        r@ == job_name(tag@, velocity, variation, multi_vel, multi_var),
{
    let mut name = tag.to_string();
    let mut vel_tag = "".to_string();
    if multi_vel {
        vel_tag = "_v".to_string();
        vel_tag.append(decimal_text(velocity as u64).as_str());
    }
    name.append(vel_tag.as_str());
    let mut take_tag = "".to_string();
    if multi_var {
        take_tag = "_take".to_string();
        let shown = decimal_text(variation as u64 + 1);
        take_tag.append(pad_left(shown.as_str(), 2, '0').as_str());
    }
    name.append(take_tag.as_str());
    name
}

/// One job of a font.
pub open spec fn take_job(
    font: FontModel,
    chain: ChainModel,
    velocity: u8,
    variation: u32,
    multi_vel: bool,
    multi_var: bool,
) -> JobModel {
    let name = job_name(chain.tag, velocity, variation, multi_vel, multi_var);
    JobModel {
        sfz: font.sfz,
        out_base: font.out_base,
        slots: chain.slots,
        slot_length: font.slot_length,
        velocity,
        variation,
        is_chord: chain.is_chord,
        name,
        label: font_text(font.sfz) + " / "@ + name,
    }
}

/// The first `n` takes of a chain at one velocity.
pub open spec fn velocity_jobs(
    font: FontModel,
    chain: ChainModel,
    velocity: u8,
    multi_vel: bool,
    multi_var: bool,
    n: nat,
) -> Seq<JobModel> {
    Seq::new(
        n,
        |t: int| take_job(font, chain, velocity, t as u32, multi_vel, multi_var),
    )
}

/// The takes of a chain at the first `n` velocities.
pub open spec fn chain_jobs(
    font: FontModel,
    chain: ChainModel,
    velocities: Seq<u8>,
    variations: u32,
    n: nat,
) -> Seq<JobModel>
    decreases n,
{
    if n == 0 {
        Seq::empty()
    } else {
        chain_jobs(font, chain, velocities, variations, (n - 1) as nat) + velocity_jobs(
            font,
            chain,
            velocities[n - 1],
            velocities.len() > 1,
            variations > 1,
            variations as nat,
        )
    }
}

/// The jobs of the first `n` chains of a font.
pub open spec fn font_jobs(
    font: FontModel,
    chains: Seq<ChainModel>,
    velocities: Seq<u8>,
    variations: u32,
    n: nat,
) -> Seq<JobModel>
    decreases n,
{
    if n == 0 {
        Seq::empty()
    } else {
        font_jobs(font, chains, velocities, variations, (n - 1) as nat) + chain_jobs(
            font,
            chains[n - 1],
            velocities,
            variations,
            velocities.len(),
        )
    }
}

/// What the jobs of font `i` share.
pub open spec fn font_model(args: RenderSfzArgs, prep: PrepModel, i: int) -> FontModel {
    FontModel {
        sfz: args.sfz@[i]@,
        out_base: font_base_text(args.output, args.sfz@[i]@, args.sfz@.len() > 1),
        slot_length: prep.slot_length,
    }
}

/// The jobs of the first `n` fonts.
pub open spec fn run_jobs(args: RenderSfzArgs, velocities: Seq<u8>, preps: Seq<PrepModel>, n: nat) -> Seq<
    JobModel,
>
    decreases n,
{
    if n == 0 {
        Seq::empty()
    } else {
        let prep = preps[n - 1];
        let chains = font_chains(args, prep.slot_length, prep.chord_roots);
        run_jobs(args, velocities, preps, (n - 1) as nat) + font_jobs(
            font_model(args, prep, n - 1),
            chains,
            velocities,
            args.variations,
            chains.len(),
        )
    }
}

/// Adds the jobs of one chain.
fn push_chain_jobs(
    jobs: &mut Vec<Job>,
    sfz: &str,
    out_base: &str,
    slot_length: Binary64,
    chain: &BaseChain,
    velocities: &[u8],
    variations: u32,
)
    ensures
        job_models(final(jobs)@) == job_models(old(jobs)@) + chain_jobs(
            FontModel { sfz: sfz@, out_base: out_base@, slot_length },
            chain@,
            velocities@,
            variations,
            velocities@.len(),
        ),
{
    let ghost font = FontModel { sfz: sfz@, out_base: out_base@, slot_length };
    let ghost before = job_models(jobs@);
    let multi_vel: bool = velocities.len() > 1;
    let multi_var: bool = variations > 1;
    let mut v: usize = 0;
    while v < velocities.len()
        invariant
            v <= velocities.len(),
            multi_vel == (velocities@.len() > 1),
            multi_var == (variations > 1),
            font == (FontModel { sfz: sfz@, out_base: out_base@, slot_length }),
            job_models(jobs@) =~= before + chain_jobs(font, chain@, velocities@, variations, v as nat),
        decreases velocities.len() - v,
    {
        let velocity: u8 = velocities[v];
        let ghost start = job_models(jobs@);
        let mut t: u32 = 0;
        while t < variations
            invariant
                t <= variations,
                multi_vel == (velocities@.len() > 1),
                multi_var == (variations > 1),
                font == (FontModel { sfz: sfz@, out_base: out_base@, slot_length }),
                job_models(jobs@) =~= start + velocity_jobs(
                    font,
                    chain@,
                    velocity,
                    multi_vel,
                    multi_var,
                    t as nat,
                ),
            decreases variations - t,
        {
            let name = name_job(chain.tag.as_str(), velocity, t, multi_vel, multi_var);
            let mut label = font_stem(sfz);
            label.append(" / ");
            label.append(name.as_str());
            let job = Job {
                sfz: sfz.to_string(),
                out_base: out_base.to_string(),
                slot_map: copy_slots(&chain.slot_map),
                slot_length,
                velocity,
                variation: t,
                is_chord: chain.is_chord,
                name,
                label,
            };
            proof {
                assert(job@ =~= take_job(font, chain@, velocity, t, multi_vel, multi_var));
                assert(job_models(jobs@.push(job)) =~= job_models(jobs@).push(job@));
            }
            jobs.push(job);
            t += 1;
        }
        v += 1;
    }
}

/// Assemble the job list: fonts x base chains x velocities x variations. Tags
/// disambiguate filenames only along the axes actually varied.
pub fn build_jobs(args: &RenderSfzArgs, velocities: &[u8], font_preps: &Vec<FontPrep>) -> (r: Vec<Job>)
    requires
        font_preps.len() >= args.sfz.len(),
    ensures
        job_models(r@) == run_jobs(
            *args,
            velocities@,
            prep_models(font_preps@),
            args.sfz.len() as nat,
        ),
        are_fanned_out(job_models(r@), *args, velocities@, prep_models(font_preps@)),
{
    proof {
        lemma_jobs_are_fanned_out(*args, velocities@, prep_models(font_preps@));
    }
    let multi_font: bool = args.sfz.len() > 1;
    let ghost preps = prep_models(font_preps@);
    let mut jobs: Vec<Job> = Vec::new();
    let mut i: usize = 0;
    assert(job_models(jobs@) =~= Seq::<JobModel>::empty());
    while i < args.sfz.len()
        invariant
            i <= args.sfz.len(),
            font_preps.len() >= args.sfz.len(),
            multi_font == (args.sfz@.len() > 1),
            preps == prep_models(font_preps@),
            job_models(jobs@) =~= run_jobs(*args, velocities@, preps, i as nat),
        decreases args.sfz.len() - i,
    {
        let sfz = args.sfz[i].as_str();
        let prep = &font_preps[i];
        let out_base = font_output_base(args, sfz, multi_font);
        let chains = base_chains(args, prep.slot_length, prep.chord_roots.as_slice());
        let ghost before = job_models(jobs@);
        let ghost font = font_model(*args, preps[i as int], i as int);
        let ghost all = chain_models(chains@);
        let mut c: usize = 0;
        while c < chains.len()
            invariant
                c <= chains.len(),
                all == chain_models(chains@),
                font == (FontModel { sfz: sfz@, out_base: out_base@, slot_length: prep.slot_length }),
                job_models(jobs@) =~= before + font_jobs(
                    font,
                    all,
                    velocities@,
                    args.variations,
                    c as nat,
                ),
            decreases chains.len() - c,
        {
            assert(all[c as int] == chains@[c as int]@);
            push_chain_jobs(
                &mut jobs,
                sfz,
                out_base.as_str(),
                prep.slot_length,
                &chains[c],
                velocities,
                args.variations,
            );
            c += 1;
        }
        i += 1;
    }
    jobs
}

/// How many chains a font has.
pub open spec fn chain_count(args: RenderSfzArgs, prep: PrepModel) -> nat {
    font_chains(args, prep.slot_length, prep.chord_roots).len()
}

/// How many chains the first `n` fonts have together.
pub open spec fn chain_total(args: RenderSfzArgs, preps: Seq<PrepModel>, n: nat) -> nat
    decreases n,
{
    if n == 0 {
        0
    } else {
        chain_total(args, preps, (n - 1) as nat) + chain_count(args, preps[n - 1])
    }
}

/// The takes of a chain: one for each velocity and variation.
pub(crate) proof fn lemma_chain_job_count(
    font: FontModel,
    chain: ChainModel,
    velocities: Seq<u8>,
    variations: u32,
    n: nat,
)
    ensures
        chain_jobs(font, chain, velocities, variations, n).len() == n * variations,
    decreases n,
{
    if n > 0 {
        lemma_chain_job_count(font, chain, velocities, variations, (n - 1) as nat);
        assert(n * variations == (n - 1) * variations + variations) by (nonlinear_arith)
            requires
                n > 0,
        ;
    } else {
        assert(0 * variations == 0);
    }
}

/// The jobs of a font: so many for each chain.
pub(crate) proof fn lemma_font_job_count(
    font: FontModel,
    chains: Seq<ChainModel>,
    velocities: Seq<u8>,
    variations: u32,
    n: nat,
)
    ensures
        font_jobs(font, chains, velocities, variations, n).len() == n * (velocities.len()
            * variations),
    decreases n,
{
    if n > 0 {
        lemma_font_job_count(font, chains, velocities, variations, (n - 1) as nat);
        lemma_chain_job_count(font, chains[n - 1], velocities, variations, velocities.len());
        let per = velocities.len() * variations;
        assert(n * per == (n - 1) * per + per) by (nonlinear_arith)
            requires
                n > 0,
        ;
    } else {
        assert(0 * (velocities.len() * variations) == 0);
    }
}

/// The jobs of a run multiply: chains of all fonts, times velocities, times
/// variations.
pub proof fn lemma_jobs_multiply(
    args: RenderSfzArgs,
    velocities: Seq<u8>,
    preps: Seq<PrepModel>,
    n: nat,
)
    ensures
        run_jobs(args, velocities, preps, n).len() == chain_total(args, preps, n) * (
        velocities.len() * args.variations),
    decreases n,
{
    let per = velocities.len() * args.variations;
    if n > 0 {
        lemma_jobs_multiply(args, velocities, preps, (n - 1) as nat);
        let prep = preps[n - 1];
        let chains = font_chains(args, prep.slot_length, prep.chord_roots);
        lemma_font_job_count(
            font_model(args, prep, n - 1),
            chains,
            velocities,
            args.variations,
            chains.len(),
        );
        let before = chain_total(args, preps, (n - 1) as nat);
        let own = chains.len();
        assert((before + own) * per == before * per + own * per) by (nonlinear_arith);
    } else {
        assert(0 * per == 0);
    }
}

/// Digits followed by nothing, or by something that is no digit, are set by the
/// whole text.
proof fn lemma_digits_end(a: Seq<char>, x: Seq<char>, b: Seq<char>, y: Seq<char>)
    requires
        a + x == b + y,
        forall|i: int| 0 <= i < a.len() ==> is_digit(#[trigger] a[i]),
        forall|i: int| 0 <= i < b.len() ==> is_digit(#[trigger] b[i]),
        x.len() > 0 ==> !is_digit(x[0]),
        y.len() > 0 ==> !is_digit(y[0]),
    ensures
        a == b,
        x == y,
{
    let s = a + x;
    let t = b + y;
    if a.len() < b.len() {
        assert(x.len() > 0);
        assert(s[a.len() as int] == x[0]);
        assert(t[a.len() as int] == b[a.len() as int]);
    } else if b.len() < a.len() {
        assert(y.len() > 0);
        assert(t[b.len() as int] == y[0]);
        assert(s[b.len() as int] == a[b.len() as int]);
    }
    assert(a =~= s.take(a.len() as int));
    assert(b =~= t.take(b.len() as int));
    assert(x =~= s.skip(a.len() as int));
    assert(y =~= t.skip(b.len() as int));
}

/// A number filled up with zeros is set by its text.
proof fn lemma_padded_is_unique(a: nat, b: nat)
    requires
        padded_left(decimal(a), 2, '0') == padded_left(decimal(b), 2, '0'),
    ensures
        a == b,
{
    lemma_decimal_digits(a);
    lemma_decimal_digits(b);
    lemma_padded_number(a);
    lemma_padded_number(b);
}

/// A number filled up with a zero still reads as the number.
proof fn lemma_padded_number(n: nat)
    ensures
        digits_number(padded_left(decimal(n), 2, '0')) == n,
{
    lemma_decimal_digits(n);
    let t = decimal(n);
    if t.len() < 2 {
        let p = padded_left(t, 2, '0');
        reveal_with_fuel(digits_number, 3);
        assert(p.len() == 2 && p[0] == '0' && p[1] == t[0]);
        assert(p.drop_last().drop_last() =~= Seq::<char>::empty());
        assert(p.drop_last().last() == '0');
        assert(p.last() == t[0]);
        assert(t.drop_last() =~= Seq::<char>::empty());
        assert(t.last() == t[0]);
    }
}

/// The jobs of one chain are told apart by their names along the axes that are
/// varied: with several velocities and several takes, two of one name have the
/// same velocity and are the same take.
pub proof fn lemma_names_tell_takes_apart(
    tag: Seq<char>,
    velocity_a: u8,
    variation_a: u32,
    velocity_b: u8,
    variation_b: u32,
    multi_vel: bool,
    multi_var: bool,
)
    requires
        job_name(tag, velocity_a, variation_a, multi_vel, multi_var) == job_name(
            tag,
            velocity_b,
            variation_b,
            multi_vel,
            multi_var,
        ),
    ensures
        multi_vel ==> velocity_a == velocity_b,
        multi_var ==> variation_a == variation_b,
{
    reveal_strlit("_v");
    reveal_strlit("_take");
    reveal_strlit("");
    let take_a = if multi_var {
        "_take"@ + padded_left(decimal(variation_a as nat + 1), 2, '0')
    } else {
        ""@
    };
    let take_b = if multi_var {
        "_take"@ + padded_left(decimal(variation_b as nat + 1), 2, '0')
    } else {
        ""@
    };
    let a = job_name(tag, velocity_a, variation_a, multi_vel, multi_var);
    let b = job_name(tag, velocity_b, variation_b, multi_vel, multi_var);
    lemma_decimal_digits(velocity_a as nat);
    lemma_decimal_digits(velocity_b as nat);
    if multi_vel {
        let head = tag.len() as int + 2;
        let x = decimal(velocity_a as nat) + take_a;
        let y = decimal(velocity_b as nat) + take_b;
        assert(x =~= a.skip(head));
        assert(y =~= b.skip(head));
        lemma_digits_end(
            decimal(velocity_a as nat),
            take_a,
            decimal(velocity_b as nat),
            take_b,
        );
        lemma_decimal_is_unique(velocity_a as nat, velocity_b as nat);
    } else {
        assert(take_a =~= a.skip(tag.len() as int));
        assert(take_b =~= b.skip(tag.len() as int));
    }
    if multi_var {
        assert(take_a.skip(5) =~= padded_left(decimal(variation_a as nat + 1), 2, '0'));
        assert(take_b.skip(5) =~= padded_left(decimal(variation_b as nat + 1), 2, '0'));
        lemma_padded_is_unique(variation_a as nat + 1, variation_b as nat + 1);
    }
}

} // verus!
