//! The files that packed chords go into: which roots and qualities each holds,
//! and its tag.
use crate::chords::ChordQuality;
use crate::layout::{
    all_roots, chunked, group_lists, lemma_chunks_keep_qualities, lemma_octaves_keep_roots,
    lemma_packed_files_fit, octave_groups, octaves, qualities_per_file,
    quality_lists, split_chord_files,
};
use crate::notes::{midi_to_m8_note, note_name};
use crate::text::{join, joined, texts};
use vstd::prelude::*;

verus! {

/// One file of packed chords.
#[derive(Debug)]
pub struct ChordFile {
    /// The roots of every quality.
    pub roots: Vec<u8>,
    /// The qualities, each whole.
    pub qualities: Vec<ChordQuality>,
    /// The filename tag.
    pub tag: String,
}

/// What a file of packed chords holds.
#[verifier::ext_equal]
pub struct ChordFileModel {
    /// The roots of every quality.
    pub roots: Seq<u8>,
    /// The qualities, each whole.
    pub qualities: Seq<ChordQuality>,
    /// The filename tag.
    pub tag: Seq<char>,
}

impl View for ChordFile {
    type V = ChordFileModel;

    open spec fn view(&self) -> ChordFileModel {
        ChordFileModel { roots: self.roots@, qualities: self.qualities@, tag: self.tag@ }
    }
}

/// What the files of a list hold.
pub open spec fn file_models(files: Seq<ChordFile>) -> Seq<ChordFileModel> {
    files.map_values(|f: ChordFile| f@)
}

/// The tags of some qualities.
pub open spec fn quality_tags(qualities: Seq<ChordQuality>) -> Seq<Seq<char>> {
    qualities.map_values(|q: ChordQuality| q.tag())
}

/// The tags of some qualities.
pub fn tags_of(qualities: &[ChordQuality]) -> (r: Vec<String>)
    ensures
        texts(r@) == quality_tags(qualities@),
{
    let mut out: Vec<String> = Vec::new();
    let mut i: usize = 0;
    while i < qualities.len()
        invariant
            i <= qualities.len(),
            texts(out@) =~= quality_tags(qualities@).take(i as int),
        decreases qualities.len() - i,
    {
        let tag = qualities[i].short().to_string();
        assert(texts(out@.push(tag)) =~= texts(out@).push(tag@));
        out.push(tag);
        i += 1;
    }
    assert(texts(out@) =~= quality_tags(qualities@));
    out
}

/// The tag of a file: its qualities, behind a prefix where there is one.
pub open spec fn file_tag(prefix: Seq<char>, qualities: Seq<ChordQuality>) -> Seq<char> {
    let tags = joined(quality_tags(qualities), "-"@);
    if prefix.len() == 0 {
        tags
    } else {
        prefix + "_"@ + tags
    }
}

/// The files of some roots, one for each chunk of qualities.
pub open spec fn chunk_files(roots: Seq<u8>, chunks: Seq<Seq<ChordQuality>>, prefix: Seq<char>) -> Seq<
    ChordFileModel,
> {
    chunks.map_values(
        |c: Seq<ChordQuality>|
            ChordFileModel { roots, qualities: c, tag: file_tag(prefix, c) },
    )
}

/// The files of some roots: whole qualities, as many in each as fit the budget.
pub open spec fn packed_files(
    roots: Seq<u8>,
    qualities: Seq<ChordQuality>,
    max_slices: nat,
    file_per_chord: bool,
    prefix: Seq<char>,
) -> Seq<ChordFileModel> {
    chunk_files(
        roots,
        chunked(qualities, qualities_per_file(roots.len(), max_slices, file_per_chord)),
        prefix,
    )
}

/// The prefix of an octave's files: the name of its C.
pub open spec fn octave_prefix(octave: u8) -> Seq<char> {
    "oct-"@ + note_name(octave as nat * 12)
}

/// The files of some octaves, one octave after the other.
pub open spec fn octave_files(
    groups: Seq<(u8, Seq<u8>)>,
    qualities: Seq<ChordQuality>,
    max_slices: nat,
) -> Seq<ChordFileModel>
    decreases groups.len(),
{
    if groups.len() == 0 {
        Seq::empty()
    } else {
        octave_files(groups.drop_last(), qualities, max_slices) + packed_files(
            groups.last().1,
            qualities,
            max_slices,
            false,
            octave_prefix(groups.last().0),
        )
    }
}

/// The files of packed chords: by octave or over all roots.
pub open spec fn chord_file_models(
    roots: Seq<u8>,
    qualities: Seq<ChordQuality>,
    max_slices: nat,
    file_per_chord: bool,
    per_octave: bool,
) -> Seq<ChordFileModel> {
    if per_octave {
        octave_files(octaves(roots), qualities, max_slices)
    } else {
        packed_files(roots, qualities, max_slices, file_per_chord, Seq::empty())
    }
}

/// Copies roots.
pub(crate) fn copy_notes(notes: &[u8]) -> (r: Vec<u8>)
    ensures
        r@ == notes@,
{
    let mut out: Vec<u8> = Vec::new();
    let mut i: usize = 0;
    while i < notes.len()
        invariant
            i <= notes.len(),
            out@ =~= notes@.take(i as int),
        decreases notes.len() - i,
    {
        out.push(notes[i]);
        i += 1;
    }
    assert(out@ =~= notes@);
    out
}

/// Copies qualities.
fn copy_qualities(qualities: &Vec<ChordQuality>) -> (r: Vec<ChordQuality>)
    ensures
        r@ == qualities@,
{
    let mut out: Vec<ChordQuality> = Vec::new();
    let mut i: usize = 0;
    while i < qualities.len()
        invariant
            i <= qualities.len(),
            out@ =~= qualities@.take(i as int),
        decreases qualities.len() - i,
    {
        out.push(qualities[i]);
        i += 1;
    }
    assert(out@ =~= qualities@);
    out
}

/// A file holds no more slots than its budget or than one quality takes.
pub open spec fn is_bounded(f: ChordFileModel, max_slices: nat) -> bool {
    f.roots.len() * f.qualities.len() <= max_slices || f.qualities.len() <= 1
}

/// A chunk of the size that the budget allows keeps its file within bounds.
proof fn lemma_chunk_is_bounded(
    roots: Seq<u8>,
    qualities: Seq<ChordQuality>,
    max_slices: nat,
    file_per_chord: bool,
    i: int,
)
    requires
        0 <= i < chunked(
            qualities,
            qualities_per_file(roots.len(), max_slices, file_per_chord),
        ).len(),
    ensures
        roots.len() * chunked(
            qualities,
            qualities_per_file(roots.len(), max_slices, file_per_chord),
        )[i].len() <= max_slices || chunked(
            qualities,
            qualities_per_file(roots.len(), max_slices, file_per_chord),
        )[i].len() <= 1,
{
    let per = qualities_per_file(roots.len(), max_slices, file_per_chord);
    lemma_chunks_keep_qualities(qualities, per);
    let n = chunked(qualities, per)[i].len();
    let r = roots.len();
    if n > 1 {
        let least = if r > 1 {
            r
        } else {
            1
        };
        assert(r * n <= max_slices) by (nonlinear_arith)
            requires
                n <= max_slices / least,
                r <= least,
                least >= 1,
        ;
    }
}

/// Adds the files of some roots.
fn push_files(
    files: &mut Vec<ChordFile>,
    roots: &[u8],
    qualities: &[ChordQuality],
    max_slices: usize,
    file_per_chord: bool,
    prefix: &str,
)
    requires
        forall|k: int|
            0 <= k < old(files).len() ==> is_bounded(#[trigger] old(files)@[k]@, max_slices as nat),
    ensures
        file_models(final(files)@) == file_models(old(files)@) + packed_files(
            roots@,
            qualities@,
            max_slices as nat,
            file_per_chord,
            prefix@,
        ),
        forall|k: int|
            0 <= k < final(files).len() ==> is_bounded(#[trigger] final(files)@[k]@, max_slices as nat),
{
    let chunks = split_chord_files(roots.len(), qualities, max_slices, file_per_chord);
    let ghost lists = quality_lists(chunks@);
    let ghost before = file_models(files@);
    let ghost added = packed_files(
        roots@,
        qualities@,
        max_slices as nat,
        file_per_chord,
        prefix@,
    );
    let bare: bool = prefix.unicode_len() == 0;
    let mut i: usize = 0;
    while i < chunks.len()
        invariant
            i <= chunks.len(),
            bare == (prefix@.len() == 0),
            lists == quality_lists(chunks@),
            lists == chunked(
                qualities@,
                qualities_per_file(roots@.len(), max_slices as nat, file_per_chord),
            ),
            added == chunk_files(roots@, lists, prefix@),
            file_models(files@) =~= before + added.take(i as int),
            forall|k: int|
                0 <= k < files.len() ==> is_bounded(#[trigger] files@[k]@, max_slices as nat),
        decreases chunks.len() - i,
    {
        let tags = tags_of(chunks[i].as_slice());
        let qs = join(&tags, "-");
        let tag = if bare {
            qs
        } else {
            let mut s = prefix.to_string();
            s.append("_");
            s.append(qs.as_str());
            s
        };
        let file = ChordFile { roots: copy_notes(roots), qualities: copy_qualities(&chunks[i]), tag };
        proof {
            assert(lists[i as int] == chunks@[i as int]@);
            assert(file@ == added[i as int]);
            assert(file_models(files@.push(file)) =~= file_models(files@).push(file@));
            lemma_chunk_is_bounded(roots@, qualities@, max_slices as nat, file_per_chord, i as int);
        }
        files.push(file);
        i += 1;
    }
    assert(added.take(i as int) =~= added);
}

/// The files that chords of these qualities on these roots are packed into: with
/// `per_octave` one octave after the other, each split only where it overflows
/// the slice budget; else over all roots, one quality each with `file_per_chord`.
pub fn chord_files(
    roots: &[u8],
    qualities: &[ChordQuality],
    max_slices: usize,
    file_per_chord: bool,
    per_octave: bool,
) -> (r: Vec<ChordFile>)
    ensures
        file_models(r@) == chord_file_models(
            roots@,
            qualities@,
            max_slices as nat,
            file_per_chord,
            per_octave,
        ),
        forall|k: int| 0 <= k < r.len() ==> is_bounded(#[trigger] r@[k]@, max_slices as nat),
{
    let mut files: Vec<ChordFile> = Vec::new();
    if per_octave {
        let groups = octave_groups(roots);
        let ghost all = group_lists(groups@);
        let mut g: usize = 0;
        assert(all.take(0) =~= Seq::<(u8, Seq<u8>)>::empty());
        assert(file_models(files@) =~= Seq::<ChordFileModel>::empty());
        while g < groups.len()
            invariant
                g <= groups.len(),
                all == group_lists(groups@),
                all == octaves(roots@),
                file_models(files@) == octave_files(all.take(g as int), qualities@, max_slices as nat),
                forall|k: int|
                    0 <= k < files.len() ==> is_bounded(#[trigger] files@[k]@, max_slices as nat),
            decreases groups.len() - g,
        {
            proof {
                crate::layout::lemma_octaves_keep_roots(roots@);
                assert(all[g as int] == (groups@[g as int].0, groups@[g as int].1@));
                assert(all[g as int].1[0] / 12 == all[g as int].0);
                assert(all.take(g + 1).drop_last() =~= all.take(g as int));
            }
            let octave: u8 = groups[g].0;
            let mut prefix = "oct-".to_string();
            prefix.append(midi_to_m8_note(octave * 12).as_str());
            proof {
                reveal_strlit("oct-");
            }
            push_files(
                &mut files,
                groups[g].1.as_slice(),
                qualities,
                max_slices,
                false,
                prefix.as_str(),
            );
            g += 1;
        }
        assert(all.take(g as int) =~= all);
    } else {
        assert(""@ =~= Seq::<char>::empty()) by {
            reveal_strlit("");
        }
        push_files(&mut files, roots, qualities, max_slices, file_per_chord, "");
        assert(file_models(files@) =~= packed_files(
            roots@,
            qualities@,
            max_slices as nat,
            file_per_chord,
            Seq::empty(),
        ));
    }
    files
}

/// A group of octaves has no more roots than all groups together.
proof fn lemma_group_is_part(groups: Seq<(u8, Seq<u8>)>, g: int)
    requires
        0 <= g < groups.len(),
    ensures
        groups[g].1.len() <= all_roots(groups).len(),
    decreases groups.len(),
{
    if g < groups.len() - 1 {
        lemma_group_is_part(groups.drop_last(), g);
    }
}

/// The files of octaves that each fit the budget fit it too.
proof fn lemma_octave_files_fit(
    groups: Seq<(u8, Seq<u8>)>,
    qualities: Seq<ChordQuality>,
    max_slices: nat,
    k: int,
)
    requires
        0 <= k < octave_files(groups, qualities, max_slices).len(),
        forall|g: int| 0 <= g < groups.len() ==> (#[trigger] groups[g]).1.len() <= max_slices,
    ensures
        octave_files(groups, qualities, max_slices)[k].roots.len() * octave_files(
            groups,
            qualities,
            max_slices,
        )[k].qualities.len() <= max_slices,
    decreases groups.len(),
{
    let front = groups.drop_last();
    let before = octave_files(front, qualities, max_slices);
    if k < before.len() {
        assert forall|g: int| 0 <= g < front.len() implies (#[trigger] front[g]).1.len() <= max_slices by {
            assert(front[g] == groups[g]);
        }
        lemma_octave_files_fit(front, qualities, max_slices, k);
    } else {
        assert(groups[groups.len() - 1].1.len() <= max_slices);
        lemma_packed_files_fit(
            groups.last().1.len(),
            qualities,
            max_slices,
            false,
            k - before.len(),
        );
    }
}

/// Every file of packed chords stays within the slice budget wherever the roots
/// do: it has at most `max_slices` slots.
pub proof fn lemma_files_stay_in_budget(
    roots: Seq<u8>,
    qualities: Seq<ChordQuality>,
    max_slices: nat,
    file_per_chord: bool,
    per_octave: bool,
    k: int,
)
    requires
        roots.len() <= max_slices,
        0 <= k < chord_file_models(
            roots,
            qualities,
            max_slices,
            file_per_chord,
            per_octave,
        ).len(),
    ensures
        ({
            let f = chord_file_models(roots, qualities, max_slices, file_per_chord, per_octave)[k];
            f.roots.len() * f.qualities.len() <= max_slices
        }),
{
    if per_octave {
        let groups = octaves(roots);
        lemma_octaves_keep_roots(roots);
        assert forall|g: int| 0 <= g < groups.len() implies (#[trigger] groups[g]).1.len()
            <= max_slices by {
            lemma_group_is_part(groups, g);
        }
        lemma_octave_files_fit(groups, qualities, max_slices, k);
    } else {
        lemma_packed_files_fit(roots.len(), qualities, max_slices, file_per_chord, k);
    }
}

/// Whether every root is greater than the one before it.
pub open spec fn is_rising(roots: Seq<u8>) -> bool {
    forall|i: int, j: int| 0 <= i < j < roots.len() ==> roots[i] < roots[j]
}

/// Of rising roots no octave has more than twelve.
proof fn lemma_octaves_have_twelve(roots: Seq<u8>)
    requires
        is_rising(roots),
    ensures
        forall|g: int| 0 <= g < octaves(roots).len() ==> (#[trigger] octaves(roots)[g]).1.len() <= 12,
        roots.len() > 0 ==> {
            let last = octaves(roots).last();
            &&& octaves(roots).len() > 0
            &&& last.0 == roots.last() / 12
            &&& last.1.len() <= roots.last() - 12 * last.0 + 1
        },
    decreases roots.len(),
{
    let groups = octaves(roots);
    if roots.len() > 0 {
        let front = roots.drop_last();
        let before = octaves(front);
        lemma_octaves_have_twelve(front);
        if front.len() > 0 {
            assert(roots[roots.len() - 2] < roots[roots.len() - 1]);
        }
        assert forall|g: int| 0 <= g < groups.len() implies (#[trigger] groups[g]).1.len() <= 12 by {
            if g < groups.len() - 1 {
                assert(groups[g] == before[g]);
            }
        }
    }
}

/// With one file per octave and rising roots, a budget of twelve slices or more is
/// kept by every file, whatever the number of roots.
pub proof fn lemma_octaves_stay_in_budget(
    roots: Seq<u8>,
    qualities: Seq<ChordQuality>,
    max_slices: nat,
    k: int,
)
    requires
        is_rising(roots),
        max_slices >= 12,
        0 <= k < chord_file_models(roots, qualities, max_slices, false, true).len(),
    ensures
        ({
            let f = chord_file_models(roots, qualities, max_slices, false, true)[k];
            f.roots.len() * f.qualities.len() <= max_slices
        }),
{
    let groups = octaves(roots);
    lemma_octaves_have_twelve(roots);
    assert forall|g: int| 0 <= g < groups.len() implies (#[trigger] groups[g]).1.len()
        <= max_slices by {
        assert(groups[g].1.len() <= 12);
    }
    lemma_octave_files_fit(groups, qualities, max_slices, k);
}

} // verus!
