//! The cross-reference table: where each numbered object is to be found.

use vstd::prelude::*;

verus! {

/// The highest object number that a document may use.
pub const MAX_OBJECT_NUMBER: u32 = 8_388_607;

/// What the table knows of one object number.
#[derive(Clone, Copy, Debug, PartialEq, Eq, Structural)]
pub enum XrefEntry {
    /// No section of the document speaks of this number.
    Absent,
    /// The number is marked as free.
    Free,
    /// The object starts at `offset` and has this generation.
    InUse { offset: usize, generation: u16 },
}

/// The table after one more entry was read. The table is indexed by object
/// number. Sections are read from the most recent to the oldest, so a number
/// that already has an entry keeps it: the most recent entry wins, also
/// where it marks the number as free.
pub open spec fn record(table: Seq<XrefEntry>, number: int, entry: XrefEntry) -> Seq<XrefEntry> {
    if number < 0 {
        table
    } else if number < table.len() {
        if table[number] is Absent {
            table.update(number, entry)
        } else {
            table
        }
    } else {
        (table + Seq::new((number - table.len()) as nat, |i: int| XrefEntry::Absent)).push(entry)
    }
}

/// What the table holds for `number`.
pub open spec fn entry_at(table: Seq<XrefEntry>, number: int) -> XrefEntry {
    if 0 <= number < table.len() {
        table[number]
    } else {
        XrefEntry::Absent
    }
}

/// The most recent entry wins: recording an entry changes at most the slot
/// of its own number, and that one only where it was absent before.
pub proof fn most_recent_entry_wins(table: Seq<XrefEntry>, number: int, entry: XrefEntry, other: int)
    requires
        number >= 0,
    ensures
        other != number ==> entry_at(record(table, number, entry), other) == entry_at(table, other),
        entry_at(table, number) !is Absent ==> entry_at(record(table, number, entry), number)
            == entry_at(table, number),
        entry_at(table, number) is Absent ==> entry_at(record(table, number, entry), number)
            == entry,
{
}

/// Records `entry` for `number` unless the table already has an entry for
/// that number.
pub fn record_entry(table: &mut Vec<XrefEntry>, number: usize, entry: XrefEntry)
    ensures
        final(table)@ == record(old(table)@, number as int, entry),
{
    if number < table.len() {
        match table[number] {
            XrefEntry::Absent => {
                table.set(number, entry);
            },
            _ => {},
        }
    } else {
        let ghost start = table@;
        while table.len() < number
            invariant
                start.len() <= table.len() <= number,
                table@ == start + Seq::new((table.len() - start.len()) as nat, |i: int| XrefEntry::Absent),
            decreases number - table.len(),
        {
            table.push(XrefEntry::Absent);
            assert(table@ =~= start + Seq::new(
                (table.len() - start.len()) as nat,
                |i: int| XrefEntry::Absent,
            ));
        }
        table.push(entry);
    }
}

/// What the table holds for `number`.
pub fn lookup_entry(table: &Vec<XrefEntry>, number: usize) -> (r: XrefEntry)
    ensures
        r == entry_at(table@, number as int),
{
    if number < table.len() {
        table[number]
    } else {
        XrefEntry::Absent
    }
}

} // verus!
