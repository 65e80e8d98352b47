//! What the CSV map says: a line for the columns, then a line for each slot.
use crate::arith::shown;
use crate::notes::note_name;
use crate::output::{csv_bytes, csv_header_fields, csv_line, csv_row_fields, note_names};
use crate::slots::SlotModel;
use crate::text::{decimal, joined};
use vstd::prelude::*;

verus! {

/// Lines, one after the other.
pub open spec fn laid_out(lines: Seq<Seq<u8>>) -> Seq<u8>
    decreases lines.len(),
{
    if lines.len() == 0 {
        Seq::empty()
    } else {
        laid_out(lines.drop_last()) + lines.last()
    }
}

/// Whether fields describe a slot: its position, its note and the name of that, its
/// label, the names of all its notes, where it starts and ends to the millisecond, how
/// hard it was played and its status.
pub open spec fn describe(
    fields: Seq<Seq<char>>,
    slot: SlotModel,
    velocity: u8,
    status: Seq<char>,
) -> bool {
    let names = Seq::new(slot.notes.len(), |k: int| note_name(slot.notes[k] as nat));
    &&& fields.len() == 9
    &&& fields[0] == decimal(slot.slot as nat)
    &&& fields[1] == decimal(slot.midi as nat)
    &&& fields[2] == slot.m8_note
    &&& fields[3] == slot.label
    &&& fields[4] == joined(names, " "@)
    &&& fields[5] == shown(slot.start, 3)
    &&& fields[6] == shown(slot.end, 3)
    &&& fields[7] == decimal(velocity as nat)
    &&& fields[8] == status
}

/// Whether a line is that of a slot.
pub open spec fn is_line_of(line: Seq<u8>, slot: SlotModel, velocity: u8, status: Seq<char>) -> bool {
    exists|fields: Seq<Seq<char>>|
        line == #[trigger] csv_line(fields) && describe(fields, slot, velocity, status)
}

/// Whether lines are those of a CSV map of some slots: the columns, then for each of the
/// first `n` slots in order its own line with its own status.
pub open spec fn are_map_lines(
    lines: Seq<Seq<u8>>,
    slots: Seq<SlotModel>,
    velocity: u8,
    statuses: Seq<Seq<char>>,
    n: nat,
) -> bool {
    &&& lines.len() == n + 1
    &&& lines[0] == csv_line(
        seq![
            "slot"@,
            "midi_note"@,
            "m8_note"@,
            "chord"@,
            "notes"@,
            "start_seconds"@,
            "end_seconds"@,
            "velocity"@,
            "status"@,
        ],
    )
    &&& forall|i: int|
        0 <= i < n ==> is_line_of(lines[i + 1], #[trigger] slots[i], velocity, statuses[i])
}

/// Whether bytes are a CSV map of the first `n` of some slots.
pub open spec fn is_map_of(
    bytes: Seq<u8>,
    slots: Seq<SlotModel>,
    velocity: u8,
    statuses: Seq<Seq<char>>,
    n: nat,
) -> bool {
    exists|lines: Seq<Seq<u8>>|
        bytes == #[trigger] laid_out(lines) && are_map_lines(lines, slots, velocity, statuses, n)
}

/// The lines that are written for a map.
spec fn map_lines(slots: Seq<SlotModel>, velocity: u8, statuses: Seq<Seq<char>>, n: nat) -> Seq<Seq<u8>> {
    Seq::new(
        n + 1,
        |k: int|
            if k == 0 {
                csv_line(csv_header_fields())
            } else {
                csv_line(csv_row_fields(slots[k - 1], velocity, statuses[k - 1]))
            },
    )
}

/// The bytes of a map are its lines, one after the other.
proof fn lemma_lines_make_the_map(
    slots: Seq<SlotModel>,
    velocity: u8,
    statuses: Seq<Seq<char>>,
    n: nat,
)
    ensures
        csv_bytes(slots, velocity, statuses, n) == laid_out(map_lines(slots, velocity, statuses, n)),
    decreases n,
{
    let lines = map_lines(slots, velocity, statuses, n);
    if n == 0 {
        assert(lines.drop_last() =~= Seq::<Seq<u8>>::empty());
        assert(laid_out(lines.drop_last()) =~= Seq::<u8>::empty());
        assert(laid_out(lines) =~= lines[0]);
    } else {
        lemma_lines_make_the_map(slots, velocity, statuses, (n - 1) as nat);
        assert(lines.drop_last() =~= map_lines(slots, velocity, statuses, (n - 1) as nat));
    }
}

/// A CSV map has a line for the columns, then one for each slot in order: its own
/// fields, its own status, and the velocity of all.
pub proof fn lemma_map_has_a_line_for_each_slot(
    slots: Seq<SlotModel>,
    velocity: u8,
    statuses: Seq<Seq<char>>,
    n: nat,
)
    ensures
        is_map_of(csv_bytes(slots, velocity, statuses, n), slots, velocity, statuses, n),
{
    let lines = map_lines(slots, velocity, statuses, n);
    lemma_lines_make_the_map(slots, velocity, statuses, n);
    assert forall|i: int| 0 <= i < n implies is_line_of(
        lines[i + 1],
        #[trigger] slots[i],
        velocity,
        statuses[i],
    ) by {
        let slot = slots[i];
        let fields = csv_row_fields(slot, velocity, statuses[i]);
        assert(note_names(slot.notes) =~= Seq::new(
            slot.notes.len(),
            |k: int| note_name(slot.notes[k] as nat),
        ));
        assert(describe(fields, slot, velocity, statuses[i]));
        assert(lines[i + 1] == csv_line(fields));
    }
    assert(are_map_lines(lines, slots, velocity, statuses, n));
}

} // verus!
