//! Sections of rows of one width.

use crate::image::{IndexEntry, MappedRecord};
use crate::wire::{
    concat_assoc, fixed_u32, fixed_u64, le32, le32_facts, le32_stands, le64, le64_facts,
    le64_stands, put_u32, put_u64, stands_at, stands_at_split, u32_at, u64_at, whole_stands,
};
use vstd::prelude::*;

verus! {

/// The bytes of rows, one after the other.
pub open spec fn rows_bytes(rows: Seq<Seq<u8>>) -> Seq<u8>
    decreases rows.len(),
{
    if rows.len() == 0 {
        Seq::empty()
    } else {
        rows_bytes(rows.drop_last()) + rows.last()
    }
}

/// Every row has the width.
pub open spec fn rows_of(rows: Seq<Seq<u8>>, width: int) -> bool {
    forall|i: int| 0 <= i < rows.len() ==> (#[trigger] rows[i]).len() == width
}

/// How long a section is.
pub proof fn rows_length(rows: Seq<Seq<u8>>, width: int)
    requires
        rows_of(rows, width),
    ensures
        rows_bytes(rows).len() == width * rows.len(),
    decreases rows.len(),
{
    if rows.len() > 0 {
        let front = rows.drop_last();
        assert forall|i: int| 0 <= i < front.len() implies (#[trigger] front[i]).len() == width by {
            assert(front[i] == rows[i]);
        }
        rows_length(front, width);
        assert(rows.last().len() == width);
        assert(width * rows.len() == width * front.len() + width) by (nonlinear_arith)
            requires
                rows.len() == front.len() + 1,
        ;
    } else {
        assert(width * 0 == 0) by (nonlinear_arith);
    }
}

/// Where each row stands in a section that stands somewhere.
pub proof fn rows_stand_in(bytes: Seq<u8>, at: int, rows: Seq<Seq<u8>>, width: int, index: int)
    requires
        stands_at(bytes, at, rows_bytes(rows)),
        rows_of(rows, width),
        0 <= index < rows.len(),
    ensures
        stands_at(bytes, at + width * index, rows[index]),
    decreases rows.len(),
{
    let front = rows.drop_last();
    assert forall|i: int| 0 <= i < front.len() implies (#[trigger] front[i]).len() == width by {
        assert(front[i] == rows[i]);
    }
    stands_at_split(bytes, at, rows_bytes(front), rows.last());
    if index < front.len() {
        rows_stand_in(bytes, at, front, width, index);
        assert(front[index] == rows[index]);
    } else {
        rows_length(front, width);
    }
}

/// The row of a record: 48 bytes.
pub open spec fn record_row(record: MappedRecord) -> Seq<u8> {
    le64(record.original_id) + (le32(record.slot) + (le32(record.previous) + (le64(record.subject)
        + (le32(record.predicate) + (le32(0) + (le64(record.object) + le64(0)))))))
}

pub open spec fn record_rows(records: Seq<MappedRecord>) -> Seq<Seq<u8>> {
    Seq::new(records.len(), |i: int| record_row(records[i]))
}

/// The record that stands at a place.
pub open spec fn record_at_place(bytes: Seq<u8>, at: int) -> MappedRecord {
    MappedRecord {
        original_id: u64_at(bytes, at),
        slot: u32_at(bytes, at + 8),
        previous: u32_at(bytes, at + 12),
        subject: u64_at(bytes, at + 16),
        predicate: u32_at(bytes, at + 24),
        object: u64_at(bytes, at + 32),
    }
}

pub open spec fn read_records(section: Seq<u8>) -> Seq<MappedRecord> {
    Seq::new((section.len() / 48) as nat, |i: int| record_at_place(section, 48 * i))
}

proof fn record_row_length(record: MappedRecord)
    ensures
        record_row(record).len() == 48,
{
    le64_facts(record.original_id);
    le64_facts(record.subject);
    le64_facts(record.object);
    le64_facts(0);
    le32_facts(record.slot);
    le32_facts(record.previous);
    le32_facts(record.predicate);
    le32_facts(0);
}

proof fn record_row_stands(bytes: Seq<u8>, at: int, record: MappedRecord)
    requires
        stands_at(bytes, at, record_row(record)),
    ensures
        record_at_place(bytes, at) == record,
{
    le64_facts(record.original_id);
    le64_facts(record.subject);
    le64_facts(record.object);
    le32_facts(record.slot);
    le32_facts(record.previous);
    le32_facts(record.predicate);
    le32_facts(0);
    let g = le64(record.object) + le64(0);
    let f = le32(0) + g;
    let e = le32(record.predicate) + f;
    let d = le64(record.subject) + e;
    let c = le32(record.previous) + d;
    let b = le32(record.slot) + c;
    stands_at_split(bytes, at, le64(record.original_id), b);
    stands_at_split(bytes, at + 8, le32(record.slot), c);
    stands_at_split(bytes, at + 12, le32(record.previous), d);
    stands_at_split(bytes, at + 16, le64(record.subject), e);
    stands_at_split(bytes, at + 24, le32(record.predicate), f);
    stands_at_split(bytes, at + 28, le32(0), g);
    stands_at_split(bytes, at + 32, le64(record.object), le64(0));
    le64_stands(bytes, at, record.original_id);
    le32_stands(bytes, at + 8, record.slot);
    le32_stands(bytes, at + 12, record.previous);
    le64_stands(bytes, at + 16, record.subject);
    le32_stands(bytes, at + 24, record.predicate);
    le64_stands(bytes, at + 32, record.object);
}

/// A section of records reads back.
pub proof fn records_read_back(records: Seq<MappedRecord>)
    ensures
        rows_bytes(record_rows(records)).len() == 48 * records.len(),
        read_records(rows_bytes(record_rows(records))) == records,
{
    let rows = record_rows(records);
    assert forall|i: int| 0 <= i < rows.len() implies (#[trigger] rows[i]).len() == 48 by {
        record_row_length(records[i]);
    }
    rows_length(rows, 48);
    let section = rows_bytes(rows);
    assert forall|i: int| 0 <= i < records.len() implies record_at_place(section, 48 * i)
        == #[trigger] records[i] by {
        assert(rows[i] == record_row(records[i]));
        whole_stands(section);
        rows_stand_in(section, 0, rows, 48, i);
        record_row_stands(section, 48 * i, records[i]);
    }
    assert(read_records(section) =~= records);
}

pub open spec fn number_rows(numbers: Seq<u32>) -> Seq<Seq<u8>> {
    Seq::new(numbers.len(), |i: int| le32(numbers[i]))
}

pub open spec fn read_numbers(section: Seq<u8>) -> Seq<u32> {
    Seq::new((section.len() / 4) as nat, |i: int| u32_at(section, 4 * i))
}

/// A section of numbers reads back.
pub proof fn numbers_read_back(numbers: Seq<u32>)
    ensures
        rows_bytes(number_rows(numbers)).len() == 4 * numbers.len(),
        read_numbers(rows_bytes(number_rows(numbers))) == numbers,
{
    let rows = number_rows(numbers);
    assert forall|i: int| 0 <= i < rows.len() implies (#[trigger] rows[i]).len() == 4 by {
        le32_facts(numbers[i]);
    }
    rows_length(rows, 4);
    let section = rows_bytes(rows);
    assert forall|i: int| 0 <= i < numbers.len() implies u32_at(section, 4 * i)
        == #[trigger] numbers[i] by {
        assert(rows[i] == le32(numbers[i]));
        whole_stands(section);
        rows_stand_in(section, 0, rows, 4, i);
        le32_stands(section, 4 * i, numbers[i]);
    }
    assert(read_numbers(section) =~= numbers);
}

/// The row of an index entry: 32 bytes.
pub open spec fn entry_row(entry: IndexEntry) -> Seq<u8> {
    le64(entry.first) + (le64(entry.second) + (le64(entry.third) + (le32(entry.record) + le32(0))))
}

pub open spec fn entry_rows(entries: Seq<IndexEntry>) -> Seq<Seq<u8>> {
    Seq::new(entries.len(), |i: int| entry_row(entries[i]))
}

pub open spec fn entry_at_place(bytes: Seq<u8>, at: int) -> IndexEntry {
    IndexEntry {
        first: u64_at(bytes, at),
        second: u64_at(bytes, at + 8),
        third: u64_at(bytes, at + 16),
        record: u32_at(bytes, at + 24),
    }
}

pub open spec fn read_entries(section: Seq<u8>) -> Seq<IndexEntry> {
    Seq::new((section.len() / 32) as nat, |i: int| entry_at_place(section, 32 * i))
}

proof fn entry_row_stands(bytes: Seq<u8>, at: int, entry: IndexEntry)
    requires
        stands_at(bytes, at, entry_row(entry)),
    ensures
        entry_at_place(bytes, at) == entry,
{
    le64_facts(entry.first);
    le64_facts(entry.second);
    le64_facts(entry.third);
    le32_facts(entry.record);
    let d = le32(entry.record) + le32(0);
    let c = le64(entry.third) + d;
    let b = le64(entry.second) + c;
    stands_at_split(bytes, at, le64(entry.first), b);
    stands_at_split(bytes, at + 8, le64(entry.second), c);
    stands_at_split(bytes, at + 16, le64(entry.third), d);
    stands_at_split(bytes, at + 24, le32(entry.record), le32(0));
    le64_stands(bytes, at, entry.first);
    le64_stands(bytes, at + 8, entry.second);
    le64_stands(bytes, at + 16, entry.third);
    le32_stands(bytes, at + 24, entry.record);
}

/// A section of index entries reads back.
pub proof fn entries_read_back(entries: Seq<IndexEntry>)
    ensures
        rows_bytes(entry_rows(entries)).len() == 32 * entries.len(),
        read_entries(rows_bytes(entry_rows(entries))) == entries,
{
    let rows = entry_rows(entries);
    assert forall|i: int| 0 <= i < rows.len() implies (#[trigger] rows[i]).len() == 32 by {
        le64_facts(entries[i].first);
        le64_facts(entries[i].second);
        le64_facts(entries[i].third);
        le32_facts(entries[i].record);
        le32_facts(0);
    }
    rows_length(rows, 32);
    let section = rows_bytes(rows);
    assert forall|i: int| 0 <= i < entries.len() implies entry_at_place(section, 32 * i)
        == #[trigger] entries[i] by {
        assert(rows[i] == entry_row(entries[i]));
        whole_stands(section);
        rows_stand_in(section, 0, rows, 32, i);
        entry_row_stands(section, 32 * i, entries[i]);
    }
    assert(read_entries(section) =~= entries);
}

pub open spec fn word_rows(words: Seq<u64>) -> Seq<Seq<u8>> {
    Seq::new(words.len(), |i: int| le64(words[i]))
}

/// Words stand one after the other.
pub proof fn words_stand(bytes: Seq<u8>, at: int, words: Seq<u64>)
    requires
        stands_at(bytes, at, rows_bytes(word_rows(words))),
    ensures
        rows_bytes(word_rows(words)).len() == 8 * words.len(),
        forall|i: int|
            0 <= i < words.len() ==> #[trigger] u64_at(bytes, at + 8 * i) == words[i],
{
    let rows = word_rows(words);
    assert forall|i: int| 0 <= i < rows.len() implies (#[trigger] rows[i]).len() == 8 by {
        le64_facts(words[i]);
    }
    rows_length(rows, 8);
    assert forall|i: int| 0 <= i < words.len() implies #[trigger] u64_at(bytes, at + 8 * i)
        == words[i] by {
        rows_stand_in(bytes, at, rows, 8, i);
        le64_stands(bytes, at + 8 * i, words[i]);
    }
}

/// One more row.
pub proof fn rows_push(rows: Seq<Seq<u8>>, row: Seq<u8>)
    ensures
        rows_bytes(rows.push(row)) == rows_bytes(rows) + row,
{
    assert(rows.push(row).drop_last() =~= rows);
}

fn put_record(out: &mut Vec<u8>, record: MappedRecord)
    ensures
        final(out)@ == old(out)@ + record_row(record),
{
    let ghost start = out@;
    put_u64(out, record.original_id);
    put_u32(out, record.slot);
    put_u32(out, record.previous);
    put_u64(out, record.subject);
    put_u32(out, record.predicate);
    put_u32(out, 0);
    put_u64(out, record.object);
    put_u64(out, 0);
    proof {
        let g = le64(record.object) + le64(0);
        let f = le32(0) + g;
        let e = le32(record.predicate) + f;
        let d = le64(record.subject) + e;
        let c = le32(record.previous) + d;
        let b = le32(record.slot) + c;
        let s1 = start + le64(record.original_id);
        let s2 = s1 + le32(record.slot);
        let s3 = s2 + le32(record.previous);
        let s4 = s3 + le64(record.subject);
        let s5 = s4 + le32(record.predicate);
        let s6 = s5 + le32(0);
        concat_assoc(s6, le64(record.object), le64(0));
        concat_assoc(s5, le32(0), g);
        concat_assoc(s4, le32(record.predicate), f);
        concat_assoc(s3, le64(record.subject), e);
        concat_assoc(s2, le32(record.previous), d);
        concat_assoc(s1, le32(record.slot), c);
        concat_assoc(start, le64(record.original_id), b);
    }
}

/// Encodes records.
pub fn encode_records(records: &Vec<MappedRecord>) -> (result: Vec<u8>)
    ensures
        result@ == rows_bytes(record_rows(records@)),
{
    let mut out: Vec<u8> = Vec::new();
    let mut index: usize = 0;
    proof {
        assert(record_rows(records@).take(0) =~= Seq::empty());
        assert(out@ =~= rows_bytes(record_rows(records@).take(0)));
    }
    while index < records.len()
        invariant
            index <= records.len(),
            out@ == rows_bytes(record_rows(records@).take(index as int)),
        decreases records.len() - index,
    {
        let record = records[index];
        put_record(&mut out, record);
        proof {
            let rows = record_rows(records@);
            rows_push(rows.take(index as int), record_row(record));
            assert(rows.take(index + 1) =~= rows.take(index as int).push(record_row(record)));
        }
        index += 1;
    }
    proof {
        assert(record_rows(records@).take(index as int) =~= record_rows(records@));
    }
    out
}

/// Encodes numbers.
pub fn encode_u32s(numbers: &Vec<u32>) -> (result: Vec<u8>)
    ensures
        result@ == rows_bytes(number_rows(numbers@)),
{
    let mut out: Vec<u8> = Vec::new();
    let mut index: usize = 0;
    proof {
        assert(number_rows(numbers@).take(0) =~= Seq::empty());
        assert(out@ =~= rows_bytes(number_rows(numbers@).take(0)));
    }
    while index < numbers.len()
        invariant
            index <= numbers.len(),
            out@ == rows_bytes(number_rows(numbers@).take(index as int)),
        decreases numbers.len() - index,
    {
        put_u32(&mut out, numbers[index]);
        proof {
            let rows = number_rows(numbers@);
            let row = le32(numbers@[index as int]);
            rows_push(rows.take(index as int), row);
            assert(rows.take(index + 1) =~= rows.take(index as int).push(row));
        }
        index += 1;
    }
    proof {
        assert(number_rows(numbers@).take(index as int) =~= number_rows(numbers@));
    }
    out
}

/// Encodes index entries.
pub fn encode_indexes(entries: &Vec<IndexEntry>) -> (result: Vec<u8>)
    ensures
        result@ == rows_bytes(entry_rows(entries@)),
{
    let mut out: Vec<u8> = Vec::new();
    let mut index: usize = 0;
    proof {
        assert(entry_rows(entries@).take(0) =~= Seq::empty());
        assert(out@ =~= rows_bytes(entry_rows(entries@).take(0)));
    }
    while index < entries.len()
        invariant
            index <= entries.len(),
            out@ == rows_bytes(entry_rows(entries@).take(index as int)),
        decreases entries.len() - index,
    {
        let entry = entries[index];
        let ghost before = out@;
        put_u64(&mut out, entry.first);
        put_u64(&mut out, entry.second);
        put_u64(&mut out, entry.third);
        put_u32(&mut out, entry.record);
        put_u32(&mut out, 0);
        proof {
            assert(out@ =~= before + entry_row(entry));
            let rows = entry_rows(entries@);
            rows_push(rows.take(index as int), entry_row(entry));
            assert(rows.take(index + 1) =~= rows.take(index as int).push(entry_row(entry)));
        }
        index += 1;
    }
    proof {
        assert(entry_rows(entries@).take(index as int) =~= entry_rows(entries@));
    }
    out
}

/// Encodes words.
pub fn put_words(out: &mut Vec<u8>, words: &Vec<u64>)
    ensures
        final(out)@ == old(out)@ + rows_bytes(word_rows(words@)),
{
    let ghost start = out@;
    let mut index: usize = 0;
    proof {
        assert(word_rows(words@).take(0) =~= Seq::empty());
        assert(out@ =~= start + rows_bytes(word_rows(words@).take(0)));
    }
    while index < words.len()
        invariant
            index <= words.len(),
            out@ == start + rows_bytes(word_rows(words@).take(index as int)),
        decreases words.len() - index,
    {
        put_u64(out, words[index]);
        proof {
            let rows = word_rows(words@);
            let row = le64(words@[index as int]);
            rows_push(rows.take(index as int), row);
            assert(rows.take(index + 1) =~= rows.take(index as int).push(row));
            assert(out@ =~= start + rows_bytes(rows.take(index + 1)));
        }
        index += 1;
    }
    proof {
        assert(word_rows(words@).take(index as int) =~= word_rows(words@));
    }
}

/// Reads the records of a section.
pub fn decode_records(section: &[u8]) -> (result: Vec<MappedRecord>)
    ensures
        result@ == read_records(section@),
{
    let count: usize = section.len() / 48;
    let mut records: Vec<MappedRecord> = Vec::new();
    let mut index: usize = 0;
    while index < count
        invariant
            index <= count,
            count == section.len() / 48,
            records@ == read_records(section@).take(index as int),
        decreases count - index,
    {
        let at: usize = 48 * index;
        records.push(
            MappedRecord {
                original_id: fixed_u64(section, at),
                slot: fixed_u32(section, at + 8),
                previous: fixed_u32(section, at + 12),
                subject: fixed_u64(section, at + 16),
                predicate: fixed_u32(section, at + 24),
                object: fixed_u64(section, at + 32),
            },
        );
        proof {
            assert(records@ =~= read_records(section@).take(index + 1));
        }
        index += 1;
    }
    proof {
        assert(read_records(section@).take(index as int) =~= read_records(section@));
    }
    records
}

/// Reads the numbers of a section.
pub fn decode_u32s(section: &[u8]) -> (result: Vec<u32>)
    ensures
        result@ == read_numbers(section@),
{
    let count: usize = section.len() / 4;
    let mut numbers: Vec<u32> = Vec::new();
    let mut index: usize = 0;
    while index < count
        invariant
            index <= count,
            count == section.len() / 4,
            numbers@ == read_numbers(section@).take(index as int),
        decreases count - index,
    {
        numbers.push(fixed_u32(section, 4 * index));
        proof {
            assert(numbers@ =~= read_numbers(section@).take(index + 1));
        }
        index += 1;
    }
    proof {
        assert(read_numbers(section@).take(index as int) =~= read_numbers(section@));
    }
    numbers
}

/// Reads the index entries of a section.
pub fn decode_indexes(section: &[u8]) -> (result: Vec<IndexEntry>)
    ensures
        result@ == read_entries(section@),
{
    let count: usize = section.len() / 32;
    let mut entries: Vec<IndexEntry> = Vec::new();
    let mut index: usize = 0;
    while index < count
        invariant
            index <= count,
            count == section.len() / 32,
            entries@ == read_entries(section@).take(index as int),
        decreases count - index,
    {
        let at: usize = 32 * index;
        entries.push(
            IndexEntry {
                first: fixed_u64(section, at),
                second: fixed_u64(section, at + 8),
                third: fixed_u64(section, at + 16),
                record: fixed_u32(section, at + 24),
            },
        );
        proof {
            assert(entries@ =~= read_entries(section@).take(index + 1));
        }
        index += 1;
    }
    proof {
        assert(read_entries(section@).take(index as int) =~= read_entries(section@));
    }
    entries
}

} // verus!
