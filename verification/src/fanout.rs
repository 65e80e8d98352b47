//! Which job of an offline run is which: the fonts in their order, the chains of each,
//! every chain at every velocity, and of each of these the takes, numbered from one.
use crate::cli::RenderSfzArgs;
use crate::render_sfz::{
    chain_count, chain_jobs, chain_total, font_base_text, font_chains, font_jobs, font_model,
    font_text, lemma_chain_job_count, lemma_font_job_count, lemma_jobs_multiply, run_jobs,
    ChainModel, FontModel, JobModel, PrepModel,
};
use crate::text::{decimal, padded_left};
use vstd::arithmetic::div_mod::lemma_fundamental_div_mod_converse;
use vstd::prelude::*;

verus! {

/// Whether a job is take `t` of a chain at a velocity: it knows which take it is, and
/// its name ends in the take's number, from one on, where there are several.
pub open spec fn is_take(
    job: JobModel,
    chain: ChainModel,
    velocity: u8,
    t: int,
    velocities: nat,
    takes: int,
) -> bool {
    &&& job.variation == t
    &&& job.velocity == velocity
    &&& job.slots == chain.slots
    &&& job.is_chord == chain.is_chord
    &&& job.name == chain.tag + (if velocities > 1 {
        "_v"@ + decimal(velocity as nat)
    } else {
        ""@
    }) + (if takes > 1 {
        "_take"@ + padded_left(decimal((t + 1) as nat), 2, '0')
    } else {
        ""@
    })
}

/// Whether a job is of font `i`: its instrument, its output folder and its slot
/// length, and a label that names the font.
pub open spec fn is_of_font(job: JobModel, args: RenderSfzArgs, prep: PrepModel, i: int) -> bool {
    &&& job.sfz == args.sfz@[i]@
    &&& job.slot_length == prep.slot_length
    &&& job.out_base == font_base_text(args.output, args.sfz@[i]@, args.sfz@.len() > 1)
    &&& job.label == font_text(args.sfz@[i]@) + " / "@ + job.name
}

/// Whether job `k` is the take that its place says: takes change first, then
/// velocities.
pub open spec fn is_in_place(job: JobModel, velocities: Seq<u8>, takes: int, k: int) -> bool {
    &&& job.variation == k % takes
    &&& job.velocity == velocities[(k / takes) % velocities.len() as int]
}

/// Of the jobs of one chain, those of velocity `v` and take `t`.
proof fn lemma_chain_job(
    font: FontModel,
    chain: ChainModel,
    velocities: Seq<u8>,
    takes: u32,
    n: nat,
    v: int,
    t: int,
)
    requires
        0 <= v < n <= velocities.len(),
        0 <= t < takes,
    ensures
        ({
            let jobs = chain_jobs(font, chain, velocities, takes, n);
            let k = v * takes + t;
            &&& 0 <= k < jobs.len()
            &&& is_take(jobs[k], chain, velocities[v], t, velocities.len(), takes as int)
            &&& jobs[k].sfz == font.sfz
            &&& jobs[k].slot_length == font.slot_length
            &&& jobs[k].out_base == font.out_base
            &&& jobs[k].label == font_text(font.sfz) + " / "@ + jobs[k].name
        }),
    decreases n,
{
    let before = chain_jobs(font, chain, velocities, takes, (n - 1) as nat);
    lemma_chain_job_count(font, chain, velocities, takes, n);
    lemma_chain_job_count(font, chain, velocities, takes, (n - 1) as nat);
    let k = v * takes + t;
    if v < n - 1 {
        lemma_chain_job(font, chain, velocities, takes, (n - 1) as nat, v, t);
    } else {
        assert(k >= 0) by (nonlinear_arith)
            requires
                k == v * takes + t,
                v >= 0,
                t >= 0,
        ;
        assert(before.len() == v * takes);
    }
}

/// Of the jobs of one font, those of chain `c`, velocity `v` and take `t`.
proof fn lemma_font_job(
    font: FontModel,
    chains: Seq<ChainModel>,
    velocities: Seq<u8>,
    takes: u32,
    n: nat,
    c: int,
    v: int,
    t: int,
)
    requires
        0 <= c < n <= chains.len(),
        0 <= v < velocities.len(),
        0 <= t < takes,
    ensures
        ({
            let jobs = font_jobs(font, chains, velocities, takes, n);
            let k = c * (velocities.len() * takes) + v * takes + t;
            &&& 0 <= k < jobs.len()
            &&& is_take(jobs[k], chains[c], velocities[v], t, velocities.len(), takes as int)
            &&& jobs[k].sfz == font.sfz
            &&& jobs[k].slot_length == font.slot_length
            &&& jobs[k].out_base == font.out_base
            &&& jobs[k].label == font_text(font.sfz) + " / "@ + jobs[k].name
        }),
    decreases n,
{
    let before = font_jobs(font, chains, velocities, takes, (n - 1) as nat);
    lemma_font_job_count(font, chains, velocities, takes, n);
    lemma_font_job_count(font, chains, velocities, takes, (n - 1) as nat);
    let per = velocities.len() * takes;
    if c < n - 1 {
        lemma_font_job(font, chains, velocities, takes, (n - 1) as nat, c, v, t);
    } else {
        lemma_chain_job(font, chains[c], velocities, takes, velocities.len(), v, t);
        assert(before.len() == c * per);
    }
}

/// The fan-out of a run: the job of font `i`, chain `c`, velocity `v` and take `t`
/// stands where the chains before it, the velocities before it and the takes before it
/// leave off, and is that take.
pub proof fn lemma_takes_are_numbered(
    args: RenderSfzArgs,
    velocities: Seq<u8>,
    preps: Seq<PrepModel>,
    n: nat,
    i: int,
    c: int,
    v: int,
    t: int,
)
    requires
        0 <= i < n,
        0 <= c < chain_count(args, preps[i]),
        0 <= v < velocities.len(),
        0 <= t < args.variations,
    ensures
        ({
            let jobs = run_jobs(args, velocities, preps, n);
            let k = (chain_total(args, preps, i as nat) + c) * (velocities.len() * args.variations) + v
                * args.variations + t;
            let chain = font_chains(args, preps[i].slot_length, preps[i].chord_roots)[c];
            &&& 0 <= k < jobs.len()
            &&& is_take(
                jobs[k],
                chain,
                velocities[v],
                t,
                velocities.len(),
                args.variations as int,
            )
            &&& is_of_font(jobs[k], args, preps[i], i)
        }),
    decreases n,
{
    let takes = args.variations;
    let per = velocities.len() * takes;
    let before = run_jobs(args, velocities, preps, (n - 1) as nat);
    if i < n - 1 {
        lemma_takes_are_numbered(args, velocities, preps, (n - 1) as nat, i, c, v, t);
    } else {
        let prep = preps[i];
        let chains = font_chains(args, prep.slot_length, prep.chord_roots);
        let total = chain_total(args, preps, i as nat) as int;
        lemma_jobs_multiply(args, velocities, preps, (n - 1) as nat);
        lemma_font_job(font_model(args, prep, i), chains, velocities, takes, chains.len(), c, v, t);
        assert((total + c) * per == total * per + c * per) by (nonlinear_arith);
        assert(total * per >= 0) by (nonlinear_arith)
            requires
                total >= 0,
                per >= 0,
        ;
    }
}

/// The places of takes and velocities, from a multiple of all of them on.
proof fn lemma_places(m: int, count: int, takes: int, v: int, t: int)
    requires
        0 <= m,
        0 <= v < count,
        0 <= t < takes,
    ensures
        ({
            let k = m * (count * takes) + v * takes + t;
            &&& k % takes == t
            &&& (k / takes) % count == v
        }),
{
    let k = m * (count * takes) + v * takes + t;
    let q = m * count + v;
    assert(k == q * takes + t) by (nonlinear_arith)
        requires
            k == m * (count * takes) + v * takes + t,
            q == m * count + v,
    ;
    lemma_fundamental_div_mod_converse(k, takes, q, t);
    lemma_fundamental_div_mod_converse(q, count, m, v);
}

/// In a run the takes of every chain and velocity are numbered in order: job `k` is
/// take `k` modulo the number of takes, at the velocity that comes round in the same
/// way.
pub proof fn lemma_takes_come_round(
    args: RenderSfzArgs,
    velocities: Seq<u8>,
    preps: Seq<PrepModel>,
    n: nat,
    k: int,
)
    requires
        0 <= k < run_jobs(args, velocities, preps, n).len(),
    ensures
        is_in_place(
            run_jobs(args, velocities, preps, n)[k],
            velocities,
            args.variations as int,
            k,
        ),
    decreases n,
{
    let takes = args.variations as int;
    let count = velocities.len() as int;
    let per = count * takes;
    let before = run_jobs(args, velocities, preps, (n - 1) as nat);
    if k < before.len() {
        lemma_takes_come_round(args, velocities, preps, (n - 1) as nat, k);
    } else {
        let i = n - 1;
        let prep = preps[i];
        let chains = font_chains(args, prep.slot_length, prep.chord_roots);
        let total = chain_total(args, preps, i as nat) as int;
        let font = font_model(args, prep, i);
        lemma_jobs_multiply(args, velocities, preps, n);
        lemma_jobs_multiply(args, velocities, preps, i as nat);
        lemma_font_job_count(font, chains, velocities, args.variations, chains.len());
        let d = k - before.len();
        assert(0 <= d < chains.len() * per);
        let c = d / per;
        let e = d % per;
        let v = e / takes;
        let t = e % takes;
        assert(per > 0 && takes > 0) by (nonlinear_arith)
            requires
                0 <= d < chains.len() * per,
                per == count * takes,
                count >= 0,
                takes >= 0,
        ;
        vstd::arithmetic::div_mod::lemma_fundamental_div_mod(d, per);
        vstd::arithmetic::div_mod::lemma_fundamental_div_mod(e, takes);
        assert(per * c == c * per) by (nonlinear_arith);
        assert(takes * v == v * takes) by (nonlinear_arith);
        assert(0 <= c < chains.len() && 0 <= e < per) by (nonlinear_arith)
            requires
                0 <= d < chains.len() * per,
                per > 0,
                c == d / per,
                e == d % per,
        ;
        assert(0 <= v < count && 0 <= t < takes) by (nonlinear_arith)
            requires
                0 <= e < count * takes,
                takes > 0,
                v == e / takes,
                t == e % takes,
        ;
        lemma_takes_are_numbered(args, velocities, preps, n, i, c, v, t);
        assert((total + c) * per == total * per + c * per) by (nonlinear_arith);
        assert(k == (total + c) * per + v * takes + t);
        lemma_places(total + c, count, takes, v, t);
    }
}

/// Whether the jobs of a run are fanned out: takes and velocities come round in order,
/// and each job is of its font and its chain.
pub open spec fn are_fanned_out(
    jobs: Seq<JobModel>,
    args: RenderSfzArgs,
    velocities: Seq<u8>,
    preps: Seq<PrepModel>,
) -> bool {
    let takes = args.variations as int;
    let per = velocities.len() * takes;
    &&& forall|k: int|
        0 <= k < jobs.len() ==> is_in_place(#[trigger] jobs[k], velocities, takes, k)
    &&& forall|i: int, c: int, v: int, t: int|
        0 <= i < args.sfz@.len() && 0 <= c < chain_count(args, preps[i]) && 0 <= v < velocities.len()
            && 0 <= t < takes ==> {
            let job = #[trigger] jobs[(chain_total(args, preps, i as nat) + c) * per + v * takes + t];
            let chain = font_chains(args, preps[i].slot_length, preps[i].chord_roots)[c];
            is_take(job, chain, velocities[v], t, velocities.len(), takes) && is_of_font(
                job,
                args,
                preps[i],
                i,
            )
        }
    &&& jobs.len() == chain_total(args, preps, args.sfz@.len()) * per
}

/// The jobs of a run are fanned out.
pub(crate) proof fn lemma_jobs_are_fanned_out(
    args: RenderSfzArgs,
    velocities: Seq<u8>,
    preps: Seq<PrepModel>,
)
    ensures
        are_fanned_out(
            run_jobs(args, velocities, preps, args.sfz@.len()),
            args,
            velocities,
            preps,
        ),
{
    let n = args.sfz@.len();
    let jobs = run_jobs(args, velocities, preps, n);
    let takes = args.variations as int;
    let per = velocities.len() * takes;
    lemma_jobs_multiply(args, velocities, preps, n);
    assert forall|k: int| 0 <= k < jobs.len() implies is_in_place(
        #[trigger] jobs[k],
        velocities,
        takes,
        k,
    ) by {
        lemma_takes_come_round(args, velocities, preps, n, k);
    }
    assert forall|i: int, c: int, v: int, t: int|
        0 <= i < n && 0 <= c < chain_count(args, preps[i]) && 0 <= v < velocities.len() && 0 <= t
            < takes implies {
        let job = #[trigger] jobs[(chain_total(args, preps, i as nat) + c) * per + v * takes + t];
        let chain = font_chains(args, preps[i].slot_length, preps[i].chord_roots)[c];
        is_take(job, chain, velocities[v], t, velocities.len(), takes) && is_of_font(
            job,
            args,
            preps[i],
            i,
        )
    } by {
        lemma_takes_are_numbered(args, velocities, preps, n, i, c, v, t);
    }
}

} // verus!
