//! Which roots and qualities share a file, and which slots are kept.
use crate::chords::ChordQuality;
use crate::text::{same_text, texts};
use vstd::prelude::*;

verus! {

/// The lists that a list of vectors holds.
pub open spec fn quality_lists(files: Seq<Vec<ChordQuality>>) -> Seq<Seq<ChordQuality>> {
    files.map_values(|v: Vec<ChordQuality>| v@)
}

/// How many whole qualities share a file.
pub open spec fn qualities_per_file(roots_len: nat, max_slices: nat, file_per_chord: bool) -> nat {
    let fitting = max_slices / (if roots_len > 1 {
        roots_len
    } else {
        1
    });
    if file_per_chord || fitting < 1 {
        1
    } else {
        fitting
    }
}

/// A list cut into runs of `per`, the last one shorter where it must be.
pub open spec fn chunked(qualities: Seq<ChordQuality>, per: nat) -> Seq<Seq<ChordQuality>>
    decreases qualities.len(),
{
    if per == 0 || qualities.len() == 0 {
        Seq::empty()
    } else if qualities.len() <= per {
        seq![qualities]
    } else {
        seq![qualities.take(per as int)] + chunked(qualities.skip(per as int), per)
    }
}

/// Partition chord qualities into per-file chunks, keeping each quality whole and
/// each file within `max_slices` (given `roots_len` roots per quality). One
/// quality per file when `file_per_chord`.
pub fn split_chord_files(
    roots_len: usize,
    qualities: &[ChordQuality],
    max_slices: usize,
    file_per_chord: bool,
) -> (r: Vec<Vec<ChordQuality>>)
    ensures
        quality_lists(r@) == chunked(
            qualities@,
            qualities_per_file(roots_len as nat, max_slices as nat, file_per_chord),
        ),
{
    let least: usize = if roots_len > 1 {
        roots_len
    } else {
        1
    };
    let fitting: usize = max_slices / least;
    let per: usize = if file_per_chord || fitting < 1 {
        1
    } else {
        fitting
    };
    let mut files: Vec<Vec<ChordQuality>> = Vec::new();
    let mut i: usize = 0;
    let ghost whole = chunked(qualities@, per as nat);
    assert(qualities@.skip(0) =~= qualities@);
    while i < qualities.len()
        invariant
            i <= qualities.len(),
            per >= 1,
            whole == quality_lists(files@) + chunked(qualities@.skip(i as int), per as nat),
        decreases qualities.len() - i,
    {
        let ghost rest = qualities@.skip(i as int);
        let mut chunk: Vec<ChordQuality> = Vec::new();
        while i < qualities.len() && chunk.len() < per
            invariant
                i <= qualities.len(),
                rest == qualities@.skip(i - chunk.len()),
                chunk.len() <= i,
                chunk.len() <= per,
                chunk@ =~= rest.take(chunk.len() as int),
            decreases qualities.len() - i,
        {
            chunk.push(qualities[i]);
            i += 1;
        }
        proof {
            let now = qualities@.skip(i as int);
            assert(rest.skip(chunk.len() as int) =~= now);
            if rest.len() <= per {
                assert(chunk@ =~= rest);
                assert(now.len() == 0);
                assert(chunked(rest, per as nat) =~= seq![chunk@] + chunked(now, per as nat));
            } else {
                assert(chunk.len() == per);
                assert(chunked(rest, per as nat) =~= seq![chunk@] + chunked(now, per as nat));
            }
            assert(quality_lists(files@.push(chunk)) =~= quality_lists(files@).push(chunk@));
            assert(quality_lists(files@) + chunked(rest, per as nat) =~= quality_lists(
                files@.push(chunk),
            ) + chunked(now, per as nat));
        }
        files.push(chunk);
    }
    proof {
        assert(qualities@.skip(i as int).len() == 0);
        assert(quality_lists(files@) =~= whole);
    }
    files
}

/// The qualities of all files, one file after the other.
pub open spec fn all_qualities(files: Seq<Seq<ChordQuality>>) -> Seq<ChordQuality>
    decreases files.len(),
{
    if files.len() == 0 {
        Seq::empty()
    } else {
        files[0] + all_qualities(files.skip(1))
    }
}

/// Cutting a list into runs loses nothing, repeats nothing and keeps the order;
/// no run is empty or longer than asked for, and only the last may be shorter.
pub proof fn lemma_chunks_keep_qualities(qualities: Seq<ChordQuality>, per: nat)
    requires
        per >= 1,
    ensures
        all_qualities(chunked(qualities, per)) == qualities,
        forall|i: int|
            0 <= i < chunked(qualities, per).len() ==> 1 <= #[trigger] chunked(qualities, per)[i].len()
                && chunked(qualities, per)[i].len() <= per,
        forall|i: int|
            0 <= i < chunked(qualities, per).len() - 1 ==> #[trigger] chunked(
                qualities,
                per,
            )[i].len() == per,
    decreases qualities.len(),
{
    let files = chunked(qualities, per);
    if qualities.len() > 0 {
        if qualities.len() <= per {
            assert(files.skip(1).len() == 0);
            assert(all_qualities(files.skip(1)) =~= Seq::<ChordQuality>::empty());
            assert(all_qualities(files) =~= qualities);
        } else {
            let rest = qualities.skip(per as int);
            lemma_chunks_keep_qualities(rest, per);
            assert(files.skip(1) =~= chunked(rest, per));
            assert(qualities.take(per as int) + rest =~= qualities);
            assert forall|i: int| 0 <= i < files.len() implies 1 <= #[trigger] files[i].len()
                && files[i].len() <= per by {
                if i > 0 {
                    assert(files[i] == chunked(rest, per)[i - 1]);
                }
            }
            assert forall|i: int| 0 <= i < files.len() - 1 implies #[trigger] files[i].len() == per by {
                if i > 0 {
                    assert(files[i] == chunked(rest, per)[i - 1]);
                }
            }
        }
    }
}

/// A file of packed chords stays within the slice budget whenever one whole
/// quality does: its roots times its qualities are at most `max_slices`.
pub proof fn lemma_packed_files_fit(
    roots_len: nat,
    qualities: Seq<ChordQuality>,
    max_slices: nat,
    file_per_chord: bool,
    i: int,
)
    requires
        roots_len <= max_slices,
        0 <= i < chunked(
            qualities,
            qualities_per_file(roots_len, max_slices, file_per_chord),
        ).len(),
    ensures
        roots_len * chunked(
            qualities,
            qualities_per_file(roots_len, max_slices, file_per_chord),
        )[i].len() <= max_slices,
{
    let per = qualities_per_file(roots_len, max_slices, file_per_chord);
    if roots_len > 0 {
        vstd::arithmetic::div_mod::lemma_div_non_zero(max_slices as int, roots_len as int);
    }
    lemma_chunks_keep_qualities(qualities, per);
    let n = chunked(qualities, per)[i].len();
    if file_per_chord {
        assert(roots_len * n <= max_slices) by (nonlinear_arith)
            requires
                n <= 1,
                roots_len <= max_slices,
        ;
    } else if roots_len > 0 {
        assert(roots_len * n <= max_slices) by (nonlinear_arith)
            requires
                n <= max_slices / roots_len,
                roots_len > 0,
        ;
    } else {
        assert(0 * n == 0);
    }
}

/// The groups that a list of pairs holds.
pub open spec fn group_lists(groups: Seq<(u8, Vec<u8>)>) -> Seq<(u8, Seq<u8>)> {
    groups.map_values(|g: (u8, Vec<u8>)| (g.0, g.1@))
}

/// Roots in runs of one octave (`midi / 12`), in their order.
pub open spec fn octaves(roots: Seq<u8>) -> Seq<(u8, Seq<u8>)>
    decreases roots.len(),
{
    if roots.len() == 0 {
        Seq::empty()
    } else {
        let before = octaves(roots.drop_last());
        let r = roots.last();
        if before.len() > 0 && before.last().0 == r / 12 {
            before.drop_last().push((before.last().0, before.last().1.push(r)))
        } else {
            before.push((r / 12, seq![r]))
        }
    }
}

/// Group roots by octave (`midi / 12`), preserving order, into
/// `(octave_index, roots_in_octave)` pairs.
pub fn octave_groups(roots: &[u8]) -> (r: Vec<(u8, Vec<u8>)>)
    ensures
        group_lists(r@) == octaves(roots@),
{
    let mut groups: Vec<(u8, Vec<u8>)> = Vec::new();
    let mut i: usize = 0;
    while i < roots.len()
        invariant
            i <= roots.len(),
            group_lists(groups@) =~= octaves(roots@.take(i as int)),
        decreases roots.len() - i,
    {
        let root: u8 = roots[i];
        let octave: u8 = root / 12;
        let ghost before = groups@;
        proof {
            assert(roots@.take(i + 1).drop_last() =~= roots@.take(i as int));
            assert(roots@.take(i + 1).last() == root);
        }
        let last = groups.pop();
        match last {
            Some((o, mut members)) => {
                assert(group_lists(before).drop_last() =~= group_lists(groups@));
                assert(group_lists(before).last() == (o, members@));
                if o == octave {
                    members.push(root);
                    groups.push((o, members));
                } else {
                    groups.push((o, members));
                    let mut fresh: Vec<u8> = Vec::new();
                    fresh.push(root);
                    assert(fresh@ =~= seq![root]);
                    groups.push((octave, fresh));
                }
            },
            None => {
                let mut fresh: Vec<u8> = Vec::new();
                fresh.push(root);
                assert(fresh@ =~= seq![root]);
                groups.push((octave, fresh));
            },
        }
        i += 1;
    }
    assert(roots@.take(i as int) =~= roots@);
    groups
}

/// The roots of all groups, one group after the other.
pub open spec fn all_roots(groups: Seq<(u8, Seq<u8>)>) -> Seq<u8>
    decreases groups.len(),
{
    if groups.len() == 0 {
        Seq::empty()
    } else {
        all_roots(groups.drop_last()) + groups.last().1
    }
}

/// Grouping by octave loses no root and keeps their order; the roots of a group
/// all lie in its octave, no group is empty, and neighbours differ.
pub proof fn lemma_octaves_keep_roots(roots: Seq<u8>)
    ensures
        all_roots(octaves(roots)) == roots,
        forall|g: int, i: int|
            0 <= g < octaves(roots).len() && 0 <= i < octaves(roots)[g].1.len()
                ==> #[trigger] octaves(roots)[g].1[i] / 12 == octaves(roots)[g].0,
        forall|g: int| 0 <= g < octaves(roots).len() ==> #[trigger] octaves(roots)[g].1.len() > 0,
        forall|g: int, h: int|
            0 <= g && h == g + 1 && h < octaves(roots).len() ==> #[trigger] octaves(roots)[g].0
                != #[trigger] octaves(roots)[h].0,
    decreases roots.len(),
{
    let groups = octaves(roots);
    if roots.len() > 0 {
        let front = roots.drop_last();
        let before = octaves(front);
        let r = roots.last();
        lemma_octaves_keep_roots(front);
        if before.len() > 0 && before.last().0 == r / 12 {
            assert(groups.drop_last() =~= before.drop_last());
            assert(all_roots(groups) =~= all_roots(before).push(r));
            assert forall|g: int, i: int|
                0 <= g < groups.len() && 0 <= i < groups[g].1.len() implies #[trigger] groups[g].1[i]
                / 12 == groups[g].0 by {
                if g < before.len() - 1 {
                    assert(groups[g] == before[g]);
                } else if i < before.last().1.len() {
                    assert(before[before.len() - 1].1[i] / 12 == before[before.len() - 1].0);
                }
            }
            assert forall|g: int, h: int|
                0 <= g && h == g + 1 && h < groups.len() implies #[trigger] groups[g].0
                != #[trigger] groups[h].0 by {
                assert(before[g].0 != before[h].0);
            }
            assert forall|g: int| 0 <= g < groups.len() implies #[trigger] groups[g].1.len() > 0 by {
                if g < before.len() - 1 {
                    assert(groups[g] == before[g]);
                }
            }
        } else {
            assert(groups.drop_last() =~= before);
            assert(all_roots(groups) =~= all_roots(before).push(r));
            assert forall|g: int, i: int|
                0 <= g < groups.len() && 0 <= i < groups[g].1.len() implies #[trigger] groups[g].1[i]
                / 12 == groups[g].0 by {
                if g < before.len() {
                    assert(groups[g] == before[g]);
                }
            }
            assert forall|g: int, h: int|
                0 <= g && h == g + 1 && h < groups.len() implies #[trigger] groups[g].0
                != #[trigger] groups[h].0 by {
                if h < before.len() {
                    assert(before[g].0 != before[h].0);
                }
            }
            assert forall|g: int| 0 <= g < groups.len() implies #[trigger] groups[g].1.len() > 0 by {
                if g < before.len() {
                    assert(groups[g] == before[g]);
                }
            }
        }
        assert(roots =~= front.push(r));
    }
}

/// A list in which a value that repeats the one before it is left out.
pub open spec fn without_repeats(s: Seq<usize>) -> Seq<usize>
    decreases s.len(),
{
    if s.len() == 0 {
        Seq::empty()
    } else {
        let before = without_repeats(s.drop_last());
        if before.len() > 0 && before.last() == s.last() {
            before
        } else {
            before.push(s.last())
        }
    }
}

/// Where the `k`-th of `n` evenly spaced picks among `len` lies.
pub open spec fn spread_position(len: nat, n: nat, k: nat) -> nat {
    k * ((len - 1) as nat) / ((n - 1) as nat)
}

/// Evenly spaced picks across a list: the middle one for a single pick, all of
/// them where no fewer are asked for.
pub open spec fn spread(indices: Seq<usize>, n: nat) -> Seq<usize> {
    let len = indices.len();
    if len == 0 || n == 0 {
        Seq::empty()
    } else if n == 1 {
        seq![indices[len as int / 2]]
    } else if n >= len {
        indices
    } else {
        without_repeats(
            Seq::new(n, |k: int| indices[spread_position(len, n, k as nat) as int]),
        )
    }
}

/// A pick lies within the list, and later picks lie further on.
proof fn lemma_spread_position(len: nat, n: nat, k: nat)
    requires
        2 <= n < len,
        k < n,
    ensures
        spread_position(len, n, k) < len,
        k > 0 ==> spread_position(len, n, (k - 1) as nat) < spread_position(len, n, k),
        spread_position(len, n, 0) == 0,
        spread_position(len, n, (n - 1) as nat) == len - 1,
{
    let l = (len - 1) as nat;
    let m = (n - 1) as nat;
    assert(k * l <= m * l) by (nonlinear_arith)
        requires
            k <= m,
    ;
    assert(m * l == l * m) by (nonlinear_arith);
    vstd::arithmetic::div_mod::lemma_div_by_multiple(l as int, m as int);
    vstd::arithmetic::div_mod::lemma_div_is_ordered((k * l) as int, (l * m) as int, m as int);
    assert(0 * l == 0);
    vstd::arithmetic::div_mod::lemma_div_of0(m as int);
    if k > 0 {
        let j = (k - 1) as nat;
        assert(k * l == j * l + l) by (nonlinear_arith)
            requires
                k == j + 1,
        ;
        vstd::arithmetic::div_mod::lemma_div_plus_one((j * l) as int, m as int);
        vstd::arithmetic::div_mod::lemma_div_is_ordered(
            (j * l + m) as int,
            (k * l) as int,
            m as int,
        );
    }
}

/// Evenly spaced picks across `indices` (endpoints included for `n >= 2`,
/// the middle element for `n == 1`). Returns at most `indices.len()` picks.
pub fn pick_spread(indices: &[usize], n: usize) -> (r: Vec<usize>)
    ensures
        r@ == spread(indices@, n as nat),
{
    let len: usize = indices.len();
    let mut out: Vec<usize> = Vec::new();
    if len == 0 || n == 0 {
        return out;
    }
    if n == 1 {
        out.push(indices[len / 2]);
        assert(out@ =~= seq![indices[len as int / 2]]);
        return out;
    }
    if n >= len {
        let mut i: usize = 0;
        while i < len
            invariant
                i <= len,
                len == indices.len(),
                out@ =~= indices@.take(i as int),
            decreases len - i,
        {
            out.push(indices[i]);
            i += 1;
        }
        assert(out@ =~= indices@);
        return out;
    }
    let ghost all = Seq::new(
        n as nat,
        |k: int| indices@[spread_position(len as nat, n as nat, k as nat) as int],
    );
    let mut k: usize = 0;
    while k < n
        invariant
            k <= n,
            2 <= n < len,
            len == indices.len(),
            all == Seq::new(
                n as nat,
                |k: int| indices@[spread_position(len as nat, n as nat, k as nat) as int],
            ),
            out@ =~= without_repeats(all.take(k as int)),
        decreases n - k,
    {
        proof {
            lemma_spread_position(len as nat, n as nat, k as nat);
            assert(k * (len - 1) <= 0xFFFF_FFFF_FFFF_FFFF * 0xFFFF_FFFF_FFFF_FFFF) by (nonlinear_arith)
                requires
                    k <= 0xFFFF_FFFF_FFFF_FFFF,
                    0 <= len - 1 <= 0xFFFF_FFFF_FFFF_FFFF,
            ;
            assert(all.take(k + 1).drop_last() =~= all.take(k as int));
        }
        let at: usize = (k as u128 * (len - 1) as u128 / (n - 1) as u128) as usize;
        let value: usize = indices[at];
        if out.len() == 0 || out[out.len() - 1] != value {
            out.push(value);
        }
        k += 1;
    }
    assert(all.take(k as int) =~= all);
    out
}

/// Whether every value is greater than the one before it.
pub open spec fn is_increasing(s: Seq<usize>) -> bool {
    forall|i: int, j: int| 0 <= i < j < s.len() ==> s[i] < s[j]
}

/// A list without repeats stays as it is.
proof fn lemma_without_repeats_of_increasing(s: Seq<usize>)
    requires
        is_increasing(s),
    ensures
        without_repeats(s) == s,
    decreases s.len(),
{
    if s.len() > 0 {
        lemma_without_repeats_of_increasing(s.drop_last());
        assert(s.drop_last().push(s.last()) =~= s);
        if s.len() > 1 {
            assert(s[s.len() - 2] < s[s.len() - 1]);
        }
    }
}

/// Leaving out repeats keeps the first and the last value, adds nothing and
/// makes nothing longer.
proof fn lemma_without_repeats(s: Seq<usize>)
    ensures
        without_repeats(s).len() <= s.len(),
        s.len() > 0 ==> without_repeats(s).len() > 0,
        s.len() > 0 ==> without_repeats(s)[0] == s[0] && without_repeats(s).last() == s.last(),
        forall|i: int|
            0 <= i < without_repeats(s).len() ==> s.contains(#[trigger] without_repeats(s)[i]),
    decreases s.len(),
{
    if s.len() > 0 {
        let front = s.drop_last();
        lemma_without_repeats(front);
        assert forall|i: int| 0 <= i < without_repeats(s).len() implies s.contains(
            #[trigger] without_repeats(s)[i],
        ) by {
            if i < without_repeats(front).len() {
                assert(front.contains(without_repeats(front)[i]));
                let k = choose|k: int| 0 <= k < front.len() && front[k] == without_repeats(front)[i];
                assert(s[k] == without_repeats(s)[i]);
            } else {
                assert(s[s.len() - 1] == without_repeats(s)[i]);
            }
        }
        if front.len() == 0 {
            assert(without_repeats(front).len() == 0);
        }
    }
}

/// Later picks lie further on.
proof fn lemma_spread_increases(len: nat, n: nat, i: nat, j: nat)
    requires
        2 <= n < len,
        i < j < n,
    ensures
        spread_position(len, n, i) < spread_position(len, n, j) < len,
    decreases j,
{
    lemma_spread_position(len, n, j);
    if i < j - 1 {
        lemma_spread_increases(len, n, i, (j - 1) as nat);
    }
}

/// Evenly spaced picks are no more than were asked for or than there are, all
/// come from the list, and include both of its ends when at least two are asked
/// for.
pub proof fn lemma_spread_stays_in_list(indices: Seq<usize>, n: nat)
    ensures
        spread(indices, n).len() <= n,
        spread(indices, n).len() <= indices.len(),
        forall|i: int|
            0 <= i < spread(indices, n).len() ==> indices.contains(#[trigger] spread(indices, n)[i]),
        n >= 1 && indices.len() > 0 ==> spread(indices, n).len() > 0,
        n >= 2 && indices.len() > 0 ==> spread(indices, n)[0] == indices[0] && spread(
            indices,
            n,
        ).last() == indices.last(),
{
    let len = indices.len();
    let picks = spread(indices, n);
    if len > 0 && n == 1 {
        assert(picks[0] == indices[len as int / 2]);
    } else if 2 <= n < len {
        let all = Seq::new(n, |k: int| indices[spread_position(len, n, k as nat) as int]);
        lemma_without_repeats(all);
        lemma_spread_position(len, n, 0);
        lemma_spread_position(len, n, (n - 1) as nat);
        assert forall|i: int| 0 <= i < picks.len() implies indices.contains(#[trigger] picks[i]) by {
            assert(all.contains(picks[i]));
            let k = choose|k: int| 0 <= k < all.len() && all[k] == picks[i];
            lemma_spread_position(len, n, k as nat);
            assert(indices[spread_position(len, n, k as nat) as int] == picks[i]);
        }
    }
}

/// Among values that only grow, the picks grow too, and they are exactly as many
/// as were asked for or, where there are fewer, all of them.
pub proof fn lemma_spread_of_increasing(indices: Seq<usize>, n: nat)
    requires
        is_increasing(indices),
    ensures
        is_increasing(spread(indices, n)),
        spread(indices, n).len() == (if n <= indices.len() {
            n
        } else {
            indices.len()
        }),
{
    let len = indices.len();
    if 2 <= n < len {
        let all = Seq::new(n, |k: int| indices[spread_position(len, n, k as nat) as int]);
        assert forall|i: int, j: int| 0 <= i < j < all.len() implies all[i] < all[j] by {
            lemma_spread_increases(len, n, i as nat, j as nat);
        }
        lemma_without_repeats_of_increasing(all);
    }
}

/// The first `len` whole numbers.
pub open spec fn positions(len: nat) -> Seq<usize> {
    Seq::new(len, |i: int| i as usize)
}

/// How many roots are picked from a pool: at least one, at most all.
pub open spec fn root_count(pool_len: nat, count: nat) -> nat {
    let least = if count < 1 {
        1
    } else {
        count
    };
    if least < pool_len {
        least
    } else {
        pool_len
    }
}

/// Roots spread evenly across a pool.
pub open spec fn fitted(pool: Seq<u8>, count: nat) -> Seq<u8> {
    spread(positions(pool.len()), root_count(pool.len(), count)).map_values(
        |i: usize| pool[i as int],
    )
}

/// Makes the list of the first `len` whole numbers.
pub fn first_positions(len: usize) -> (r: Vec<usize>)
    ensures
        r@ == positions(len as nat),
{
    let mut out: Vec<usize> = Vec::new();
    let mut i: usize = 0;
    while i < len
        invariant
            i <= len,
            out@ =~= positions(i as nat),
        decreases len - i,
    {
        out.push(i);
        i += 1;
    }
    out
}

/// Pick `count` roots spread evenly across `pool` (capped at the pool size).
pub fn fit_roots(pool: &[u8], count: usize) -> (r: Vec<u8>)
    ensures
        r@ == fitted(pool@, count as nat),
{
    let least: usize = if count < 1 {
        1
    } else {
        count
    };
    let n: usize = if least < pool.len() {
        least
    } else {
        pool.len()
    };
    let all = first_positions(pool.len());
    let picks = pick_spread(all.as_slice(), n);
    proof {
        lemma_spread_stays_in_list(all@, n as nat);
    }
    let mut out: Vec<u8> = Vec::new();
    let mut i: usize = 0;
    while i < picks.len()
        invariant
            i <= picks.len(),
            all@ == positions(pool.len() as nat),
            forall|k: int| 0 <= k < picks.len() ==> all@.contains(#[trigger] picks@[k]),
            out@ =~= picks@.take(i as int).map_values(|k: usize| pool@[k as int]),
        decreases picks.len() - i,
    {
        proof {
            assert(all@.contains(picks@[i as int]));
        }
        out.push(pool[picks[i]]);
        i += 1;
    }
    assert(picks@.take(i as int) =~= picks@);
    out
}

/// Fitting roots gives as many as asked for, at least one and at most the pool,
/// and keeps the ends of the pool when at least two are asked for.
pub proof fn lemma_fitted_roots(pool: Seq<u8>, count: nat)
    requires
        pool.len() <= usize::MAX,
    ensures
        fitted(pool, count).len() == root_count(pool.len(), count),
        forall|i: int|
            0 <= i < fitted(pool, count).len() ==> pool.contains(#[trigger] fitted(pool, count)[i]),
        count >= 2 && pool.len() > 0 ==> fitted(pool, count)[0] == pool[0] && fitted(
            pool,
            count,
        ).last() == pool.last(),
{
    let all = positions(pool.len());
    let n = root_count(pool.len(), count);
    lemma_spread_of_increasing(all, n);
    lemma_spread_stays_in_list(all, n);
    assert forall|i: int| 0 <= i < fitted(pool, count).len() implies pool.contains(
        #[trigger] fitted(pool, count)[i],
    ) by {
        let pick = spread(all, n)[i];
        assert(all.contains(pick));
        assert(pool[pick as int] == fitted(pool, count)[i]);
    }
}

/// The status of a slot that holds sound.
pub open spec fn is_rendered(status: Seq<char>) -> bool {
    status == "rendered"@
}

/// The first index from `i` on whose status is `rendered`.
pub open spec fn first_rendered(statuses: Seq<Seq<char>>, i: nat) -> Option<usize>
    decreases statuses.len() - i,
{
    if i >= statuses.len() {
        None
    } else if is_rendered(statuses[i as int]) {
        Some(i as usize)
    } else {
        first_rendered(statuses, i + 1)
    }
}

/// The last index below `n` whose status is `rendered`.
pub open spec fn last_rendered(statuses: Seq<Seq<char>>, n: nat) -> Option<usize>
    decreases n,
{
    if n == 0 {
        None
    } else if is_rendered(statuses[n - 1]) {
        Some((n - 1) as usize)
    } else {
        last_rendered(statuses, (n - 1) as nat)
    }
}

/// The first and the last slot that hold sound.
pub open spec fn sound_bounds(statuses: Seq<Seq<char>>) -> Option<(usize, usize)> {
    match (first_rendered(statuses, 0), last_rendered(statuses, statuses.len())) {
        (Some(first), Some(last)) => Some((first, last)),
        _ => None,
    }
}

/// Where the search for the first rendered slot ends.
proof fn lemma_first_rendered(statuses: Seq<Seq<char>>, i: nat)
    requires
        statuses.len() <= usize::MAX,
    ensures
        match first_rendered(statuses, i) {
            Some(f) => i <= f < statuses.len() && is_rendered(statuses[f as int]) && forall|k: int|
                i <= k < f ==> !is_rendered(#[trigger] statuses[k]),
            None => forall|k: int| i <= k < statuses.len() ==> !is_rendered(#[trigger] statuses[k]),
        },
    decreases statuses.len() - i,
{
    if i < statuses.len() && !is_rendered(statuses[i as int]) {
        lemma_first_rendered(statuses, i + 1);
    }
}

/// Where the search for the last rendered slot ends.
proof fn lemma_last_rendered(statuses: Seq<Seq<char>>, n: nat)
    requires
        n <= statuses.len() <= usize::MAX,
    ensures
        match last_rendered(statuses, n) {
            Some(l) => l < n && is_rendered(statuses[l as int]) && forall|k: int|
                l < k < n ==> !is_rendered(#[trigger] statuses[k]),
            None => forall|k: int| 0 <= k < n ==> !is_rendered(#[trigger] statuses[k]),
        },
    decreases n,
{
    if n > 0 && !is_rendered(statuses[n - 1]) {
        lemma_last_rendered(statuses, (n - 1) as nat);
    }
}

/// Trimming keeps every slot that holds sound, and with them whatever lies between
/// two of them; only runs without sound at the ends are left out.
pub proof fn lemma_bounds_keep_sound(statuses: Seq<Seq<char>>)
    requires
        statuses.len() <= usize::MAX,
    ensures
        match sound_bounds(statuses) {
            None => forall|i: int| 0 <= i < statuses.len() ==> !is_rendered(#[trigger] statuses[i]),
            Some((first, last)) => {
                &&& first <= last < statuses.len()
                &&& is_rendered(statuses[first as int])
                &&& is_rendered(statuses[last as int])
                &&& forall|i: int|
                    0 <= i < statuses.len() && is_rendered(#[trigger] statuses[i]) ==> first <= i
                        <= last
            },
        },
{
    lemma_first_rendered(statuses, 0);
    lemma_last_rendered(statuses, statuses.len());
}

/// First and last slot index whose status is `rendered`, i.e. the inclusive
/// range to keep when trimming the leading/trailing silent slots. Interior
/// non-`rendered` slots stay inside the range. `None` if nothing was rendered.
pub fn rendered_bounds(statuses: &[String]) -> (r: Option<(usize, usize)>)
    ensures
        r == sound_bounds(texts(statuses@)),
        r matches Some((first, last)) ==> first <= last < statuses.len(),
{
    let ghost all = texts(statuses@);
    let n: usize = statuses.len();
    proof {
        lemma_bounds_keep_sound(all);
        lemma_first_rendered(all, 0);
        lemma_last_rendered(all, all.len());
    }
    let mut first: usize = 0;
    while first < n && !same_text(statuses[first].as_str(), "rendered")
        invariant
            first <= n,
            n == statuses.len(),
            all == texts(statuses@),
            first_rendered(all, 0) == first_rendered(all, first as nat),
        decreases n - first,
    {
        assert(all[first as int] == statuses@[first as int]@);
        first += 1;
    }
    if first == n {
        return None;
    }
    assert(all[first as int] == statuses@[first as int]@);
    let mut last: usize = n - 1;
    while !same_text(statuses[last].as_str(), "rendered")
        invariant
            first <= last < n,
            n == statuses.len(),
            all == texts(statuses@),
            is_rendered(all[first as int]),
            last_rendered(all, n as nat) == last_rendered(all, (last + 1) as nat),
        decreases last,
    {
        assert(all[last as int] == statuses@[last as int]@);
        assert(last > first);
        last -= 1;
    }
    assert(all[last as int] == statuses@[last as int]@);
    Some((first, last))
}

} // verus!
