//! Tables of names: a count, the ends of the names, and their bytes.

use crate::ordered::{
    Rank, ascending, ascending_by_steps, before, before_irreflexive, before_total, rank, texts,
};
use crate::wire::{
    fixed_u32, fixed_u64, le32, le32_facts, le32_stands, le64, le64_facts, le64_stands, put_bytes,
    put_u32, put_u64, stands_at, stands_at_split, text_from_utf8, u32_at, u64_at, utf8_error_text,
    utf8_round_trip, whole_stands,
};
use vstd::prelude::*;
use vstd::string::*;
use vstd::utf8::*;

verus! {

/// The bytes of the names, one after the other.
pub open spec fn blob(names: Seq<Seq<char>>) -> Seq<u8>
    decreases names.len(),
{
    if names.len() == 0 {
        Seq::empty()
    } else {
        blob(names.drop_last()) + encode_utf8(names.last())
    }
}

/// Where the first `count` names end.
pub open spec fn end_of(names: Seq<Seq<char>>, count: int) -> nat {
    blob(names.take(count)).len()
}

/// The first `count` entries of the directory of ends.
pub open spec fn directory_bytes(names: Seq<Seq<char>>, count: nat) -> Seq<u8>
    decreases count,
{
    if count == 0 {
        Seq::empty()
    } else {
        directory_bytes(names, (count - 1) as nat) + le64(end_of(names, count - 1) as u64)
    }
}

/// A whole table.
pub open spec fn table_bytes(names: Seq<Seq<char>>) -> Seq<u8> {
    le32(names.len() as u32) + (le32(0) + (directory_bytes(names, names.len() + 1) + blob(names)))
}

/// An entry of the directory of a table.
pub open spec fn offset_at(section: Seq<u8>, index: int) -> u64 {
    u64_at(section, 8 + 8 * index)
}

/// Where the names of a table start.
pub open spec fn blob_start(section: Seq<u8>) -> int {
    16 + 8 * u32_at(section, 0)
}

/// The directory starts at zero, never goes back, and ends with the section.
pub open spec fn directory_ok(section: Seq<u8>) -> bool {
    let count = u32_at(section, 0) as int;
    &&& offset_at(section, 0) == 0
    &&& forall|i: int|
        0 <= i < count ==> #[trigger] offset_at(section, i) <= offset_at(section, i + 1)
    &&& offset_at(section, count) == section.len() - blob_start(section)
}

/// The bytes of one name.
pub open spec fn name_piece(section: Seq<u8>, index: int) -> Seq<u8> {
    section.subrange(
        blob_start(section) + offset_at(section, index),
        blob_start(section) + offset_at(section, index + 1),
    )
}

/// The first `count` names, which must be text and must ascend.
pub open spec fn taken_names(section: Seq<u8>, count: nat) -> Result<Seq<Seq<char>>, Seq<char>>
    decreases count,
{
    if count == 0 {
        Ok(Seq::empty())
    } else {
        match taken_names(section, (count - 1) as nat) {
            Err(message) => Err(message),
            Ok(list) => {
                let piece = name_piece(section, count - 1);
                if !valid_utf8(piece) {
                    Err(utf8_error_text(piece))
                } else if list.len() > 0 && !before(list.last(), decode_utf8(piece)) {
                    Err("string-table values are not strictly sorted"@)
                } else {
                    Ok(list.push(decode_utf8(piece)))
                }
            },
        }
    }
}

/// Reads a table.
#[verifier::opaque]
pub open spec fn taken_table(section: Seq<u8>) -> Result<Seq<Seq<char>>, Seq<char>> {
    if section.len() < 8 {
        Err("truncated string-table header"@)
    } else if blob_start(section) > section.len() {
        Err("truncated string-table offsets"@)
    } else if exists|i: int|
        0 <= i <= u32_at(section, 0) && #[trigger] offset_at(section, i) > usize::MAX {
        Err("string-table offset exceeds address space"@)
    } else if !directory_ok(section) {
        Err("invalid string-table offset directory"@)
    } else {
        taken_names(section, u32_at(section, 0) as nat)
    }
}

proof fn taken_names_ascend(section: Seq<u8>, count: nat)
    ensures
        taken_names(section, count) matches Ok(list) ==> list.len() == count && forall|i: int|
            0 <= i < list.len() - 1 ==> before(#[trigger] list[i], list[i + 1]),
    decreases count,
{
    if count > 0 {
        taken_names_ascend(section, (count - 1) as nat);
        if let Ok(list) = taken_names(section, (count - 1) as nat) {
            if let Ok(more) = taken_names(section, count) {
                assert forall|i: int| 0 <= i < more.len() - 1 implies before(
                    #[trigger] more[i],
                    more[i + 1],
                ) by {
                    if i < list.len() - 1 {
                        assert(more[i] == list[i]);
                        assert(more[i + 1] == list[i + 1]);
                    }
                }
            }
        }
    }
}

/// The names of a table that was read ascend, and there are as many as its count says.
pub proof fn taken_table_ascends(section: Seq<u8>)
    ensures
        taken_table(section) matches Ok(list) ==> ascending(list) && list.len() == u32_at(
            section,
            0,
        ) && section.len() >= 16 + 8 * list.len(),
{
    reveal(taken_table);
    taken_names_ascend(section, u32_at(section, 0) as nat);
    if let Ok(list) = taken_table(section) {
        ascending_by_steps(list);
    }
}

proof fn directory_length(names: Seq<Seq<char>>, count: nat)
    ensures
        directory_bytes(names, count).len() == 8 * count,
    decreases count,
{
    if count > 0 {
        directory_length(names, (count - 1) as nat);
        le64_facts(end_of(names, count - 1) as u64);
    }
}

proof fn directory_entry(bytes: Seq<u8>, at: int, names: Seq<Seq<char>>, count: nat, index: int)
    requires
        stands_at(bytes, at, directory_bytes(names, count)),
        0 <= index < count,
    ensures
        u64_at(bytes, at + 8 * index) == end_of(names, index) as u64,
    decreases count,
{
    let front = directory_bytes(names, (count - 1) as nat);
    directory_length(names, (count - 1) as nat);
    stands_at_split(bytes, at, front, le64(end_of(names, count - 1) as u64));
    if index == count - 1 {
        le64_stands(bytes, at + 8 * index, end_of(names, index) as u64);
    } else {
        directory_entry(bytes, at, names, (count - 1) as nat, index);
    }
}

proof fn ends_grow(names: Seq<Seq<char>>, index: int)
    requires
        0 <= index < names.len(),
    ensures
        end_of(names, index + 1) == end_of(names, index) + encode_utf8(names[index]).len(),
        blob(names.take(index + 1)) == blob(names.take(index)) + encode_utf8(names[index]),
{
    assert(names.take(index + 1).drop_last() =~= names.take(index));
}

proof fn end_is_bounded(names: Seq<Seq<char>>, index: int)
    requires
        0 <= index <= names.len(),
    ensures
        end_of(names, index) <= blob(names).len(),
        stands_at(blob(names), 0, blob(names.take(index))),
    decreases names.len() - index,
{
    if index == names.len() {
        assert(names.take(index) =~= names);
        whole_stands(blob(names));
    } else {
        ends_grow(names, index);
        end_is_bounded(names, index + 1);
        stands_at_split(
            blob(names),
            0,
            blob(names.take(index)),
            encode_utf8(names[index]),
        );
    }
}

proof fn piece_of_blob(names: Seq<Seq<char>>, index: int)
    requires
        0 <= index < names.len(),
    ensures
        stands_at(blob(names), end_of(names, index) as int, encode_utf8(names[index])),
{
    end_is_bounded(names, index + 1);
    ends_grow(names, index);
    stands_at_split(blob(names), 0, blob(names.take(index)), encode_utf8(names[index]));
}

/// What stands where in an encoded table.
proof fn table_layout(names: Seq<Seq<char>>)
    requires
        names.len() <= u32::MAX,
        table_bytes(names).len() <= usize::MAX,
    ensures
        ({
            let table = table_bytes(names);
            &&& u32_at(table, 0) == names.len()
            &&& blob_start(table) == 16 + 8 * names.len()
            &&& table.len() == blob_start(table) + blob(names).len()
            &&& forall|i: int|
                0 <= i <= names.len() ==> #[trigger] offset_at(table, i) == end_of(names, i)
            &&& stands_at(table, blob_start(table), blob(names))
        }),
{
    let table = table_bytes(names);
    let n = names.len() as u32;
    let directory = directory_bytes(names, names.len() + 1);
    whole_stands(table);
    le32_facts(n);
    le32_facts(0);
    directory_length(names, names.len() + 1);
    stands_at_split(table, 0, le32(n), le32(0) + (directory + blob(names)));
    stands_at_split(table, 4, le32(0), directory + blob(names));
    stands_at_split(table, 8, directory, blob(names));
    le32_stands(table, 0, n);
    assert forall|i: int| 0 <= i <= names.len() implies #[trigger] offset_at(table, i) == end_of(
        names,
        i,
    ) by {
        directory_entry(table, 8, names, names.len() + 1, i);
        end_is_bounded(names, i);
    }
}

proof fn table_names_read(names: Seq<Seq<char>>, count: nat)
    requires
        ascending(names),
        names.len() <= u32::MAX,
        table_bytes(names).len() <= usize::MAX,
        count <= names.len(),
    ensures
        taken_names(table_bytes(names), count) == Ok::<Seq<Seq<char>>, Seq<char>>(
            names.take(count as int),
        ),
    decreases count,
{
    if count == 0 {
        assert(names.take(0) =~= Seq::empty());
    } else {
        table_names_read(names, (count - 1) as nat);
        table_layout(names);
        let table = table_bytes(names);
        let index = count - 1;
        piece_of_blob(names, index);
        ends_grow(names, index);
        end_is_bounded(names, index + 1);
        let start = blob_start(table);
        assert(offset_at(table, index) == end_of(names, index));
        assert(offset_at(table, index + 1) == end_of(names, index + 1));
        let text = encode_utf8(names[index]);
        assert(name_piece(table, index) =~= text) by {
            assert(table.subrange(start, start + blob(names).len()) == blob(names));
            assert(blob(names).subrange(
                end_of(names, index) as int,
                (end_of(names, index) + text.len()) as int,
            ) == text);
            assert(table.subrange(start, start + blob(names).len()).subrange(
                end_of(names, index) as int,
                (end_of(names, index) + text.len()) as int,
            ) =~= table.subrange(
                start + end_of(names, index),
                start + end_of(names, index) + text.len(),
            ));
        }
        utf8_round_trip(names[index]);
        let list = names.take(index);
        if list.len() > 0 {
            assert(list.last() == names[index - 1]);
            assert(before(names[index - 1], names[index]));
        }
        assert(list.push(names[index]) =~= names.take(count as int));
    }
}

/// A written table reads back.
pub proof fn table_reads_back(names: Seq<Seq<char>>)
    requires
        ascending(names),
        names.len() <= u32::MAX,
        table_bytes(names).len() <= usize::MAX,
    ensures
        taken_table(table_bytes(names)) == Ok::<Seq<Seq<char>>, Seq<char>>(names),
{
    reveal(taken_table);
    table_layout(names);
    table_names_read(names, names.len());
    let table = table_bytes(names);
    assert(names.take(names.len() as int) =~= names);
    assert(names.take(0) =~= Seq::empty());
    assert forall|i: int| 0 <= i < names.len() implies #[trigger] offset_at(table, i) <= offset_at(
        table,
        i + 1,
    ) by {
        ends_grow(names, i);
        assert(offset_at(table, i + 1) == end_of(names, i + 1));
    }
    assert forall|i: int| 0 <= i <= names.len() implies #[trigger] offset_at(table, i)
        <= usize::MAX by {
        end_is_bounded(names, i);
    }
}

/// The bytes of names, one after the other.
fn join_names(names: &Vec<String>) -> (result: Vec<u8>)
    ensures
        result@ == blob(texts(names@)),
{
    let ghost list = texts(names@);
    let mut out: Vec<u8> = Vec::new();
    let mut place: usize = 0;
    proof {
        assert(out@ =~= blob(list.take(0)));
    }
    while place < names.len()
        invariant
            place <= names.len(),
            list == texts(names@),
            out@ == blob(list.take(place as int)),
        decreases names.len() - place,
    {
        proof {
            ends_grow(list, place as int);
            assert(list[place as int] == names@[place as int]@);
        }
        put_bytes(&mut out, names[place].as_str().as_bytes());
        place += 1;
    }
    proof {
        assert(list.take(place as int) =~= list);
    }
    out
}

/// Encodes a table.
pub fn encode_string_table(names: &Vec<String>) -> (result: Vec<u8>)
    ensures
        result@ == table_bytes(texts(names@)),
{
    let ghost list = texts(names@);
    let joined_names = join_names(names);
    let mut out: Vec<u8> = Vec::new();
    put_u32(&mut out, names.len() as u32);
    put_u32(&mut out, 0);
    let ghost head = out@;
    let mut offset: u64 = 0;
    put_u64(&mut out, offset);
    let mut index: usize = 0;
    proof {
        assert(joined_names.len() == blob(list).len());
        assert(list.take(0) =~= Seq::empty());
        assert(directory_bytes(list, 0) + le64(end_of(list, 0) as u64) =~= le64(0));
        assert(directory_bytes(list, 1) =~= le64(0));
        assert(out@ =~= head + directory_bytes(list, 1));
    }
    while index < names.len()
        invariant
            index <= names.len(),
            list == texts(names@),
            blob(list).len() <= u64::MAX,
            offset == end_of(list, index as int),
            out@ == head + directory_bytes(list, (index + 1) as nat),
        decreases names.len() - index,
    {
        proof {
            ends_grow(list, index as int);
            end_is_bounded(list, index + 1);
            assert(list[index as int] == names@[index as int]@);
        }
        offset = offset + names[index].as_str().as_bytes().len() as u64;
        put_u64(&mut out, offset);
        index += 1;
        proof {
            assert(out@ =~= head + directory_bytes(list, (index + 1) as nat));
        }
    }
    put_bytes(&mut out, joined_names.as_slice());
    proof {
        assert(out@ =~= table_bytes(list));
    }
    out
}

proof fn name_fault_stays(section: Seq<u8>, some: nat, count: nat)
    requires
        some <= count,
        taken_names(section, some) is Err,
    ensures
        taken_names(section, count) == taken_names(section, some),
    decreases count,
{
    if some < count {
        name_fault_stays(section, some, (count - 1) as nat);
    }
}

proof fn offsets_ascend(section: Seq<u8>, i: int, j: int)
    requires
        directory_ok(section),
        0 <= i <= j <= u32_at(section, 0),
    ensures
        offset_at(section, i) <= offset_at(section, j),
    decreases j - i,
{
    if i < j {
        offsets_ascend(section, i, j - 1);
        assert(offset_at(section, j - 1) <= offset_at(section, j - 1 + 1));
    }
}

/// Reads the names of a table whose directory is sound.
fn read_names(section: &[u8], count: u32) -> (result: Result<Vec<String>, String>)
    requires
        section.len() >= 8,
        count == u32_at(section@, 0),
        blob_start(section@) <= section.len(),
        directory_ok(section@),
    ensures
        match (result, taken_names(section@, count as nat)) {
            (Ok(names), Ok(list)) => texts(names@) == list,
            (Err(message), Err(model)) => message@ == model,
            _ => false,
        },
{
    let start: usize = 16 + 8 * count as usize;
    let mut names: Vec<String> = Vec::new();
    let mut index: u32 = 0;
    proof {
        assert(texts(names@) =~= Seq::empty());
    }
    while index < count
        invariant
            index <= count,
            section.len() >= 8,
            count == u32_at(section@, 0),
            start == blob_start(section@),
            start <= section.len(),
            start == 16 + 8 * count,
            directory_ok(section@),
            taken_names(section@, index as nat) == Ok::<Seq<Seq<char>>, Seq<char>>(
                texts(names@),
            ),
        decreases count - index,
    {
        proof {
            offsets_ascend(section@, index as int, index + 1);
            offsets_ascend(section@, index + 1, count as int);
        }
        let from: usize = fixed_u64(section, 8 + 8 * index as usize) as usize;
        let to: usize = fixed_u64(section, 16 + 8 * index as usize) as usize;
        let piece = vstd::slice::slice_subrange(section, start + from, start + to);
        proof {
            assert(8 + 8 * (index + 1) == 16 + 8 * index);
            assert(piece@ == name_piece(section@, index as int));
        }
        match text_from_utf8(piece) {
            Err(message) => {
                proof {
                    name_fault_stays(section@, (index + 1) as nat, count as nat);
                }
                return Err(message);
            },
            Ok(text) => {
                if names.len() > 0 {
                    let last = &names[names.len() - 1];
                    proof {
                        assert(texts(names@).last() == last@);
                        before_total(last@, text@);
                    }
                    if rank(last.as_str(), text.as_str()) != Rank::Before {
                        proof {
                            before_irreflexive(text@);
                            name_fault_stays(section@, (index + 1) as nat, count as nat);
                        }
                        return Err("string-table values are not strictly sorted".to_owned());
                    }
                }
                let ghost old_names = names@;
                names.push(text);
                proof {
                    assert(texts(names@) =~= texts(old_names).push(text@));
                }
            },
        }
        index += 1;
    }
    Ok(names)
}

/// Checks the directory of a table; nothing where an entry does not fit the address space.
fn read_directory(section: &[u8], count: u32) -> (result: Option<bool>)
    requires
        section.len() >= 8,
        count == u32_at(section@, 0),
        blob_start(section@) <= section.len(),
    ensures
        match result {
            None => exists|i: int|
                0 <= i <= count && #[trigger] offset_at(section@, i) > usize::MAX,
            Some(sound) => sound == directory_ok(section@) && forall|i: int|
                0 <= i <= count ==> #[trigger] offset_at(section@, i) <= usize::MAX,
        },
{
    let total: u64 = count as u64 + 1;
    let mut index: u64 = 0;
    let mut sound: bool = true;
    let mut previous: u64 = 0;
    while index < total
        invariant
            total == count + 1,
            index <= total,
            count == u32_at(section@, 0),
            blob_start(section@) <= section.len(),
            forall|i: int| 0 <= i < index ==> #[trigger] offset_at(section@, i) <= usize::MAX,
            index > 0 ==> previous == offset_at(section@, index - 1),
            index == 0 ==> sound,
            index > 0 ==> sound == (offset_at(section@, 0) == 0 && forall|i: int|
                0 <= i < index - 1 ==> #[trigger] offset_at(section@, i) <= offset_at(
                    section@,
                    i + 1,
                )),
        decreases total - index,
    {
        let value: u64 = fixed_u64(section, 8 + 8 * index as usize);
        proof {
            assert(value == offset_at(section@, index as int));
        }
        if value > usize::MAX as u64 {
            return None;
        }
        if index == 0 {
            if value != 0 {
                sound = false;
            }
        } else if previous > value {
            proof {
                assert(!(offset_at(section@, index - 1) <= offset_at(section@, index - 1 + 1)));
            }
            sound = false;
        }
        previous = value;
        index += 1;
    }
    proof {
        assert(offset_at(section@, index - 1) == previous);
    }
    Some(sound && previous == section.len() as u64 - (16 + 8 * count as u64))
}

/// Reads a table.
pub fn parse_string_table(section: &[u8]) -> (result: Result<Vec<String>, String>)
    ensures
        match (result, taken_table(section@)) {
            (Ok(names), Ok(list)) => texts(names@) == list,
            (Err(message), Err(model)) => message@ == model,
            _ => false,
        },
{
    proof {
        reveal(taken_table);
    }
    if section.len() < 8 {
        return Err("truncated string-table header".to_owned());
    }
    let count: u32 = fixed_u32(section, 0);
    let start: u64 = 16 + 8 * count as u64;
    if start > section.len() as u64 {
        return Err("truncated string-table offsets".to_owned());
    }
    match read_directory(section, count) {
        None => {
            return Err("string-table offset exceeds address space".to_owned());
        },
        Some(sound) => {
            if !sound {
                return Err("invalid string-table offset directory".to_owned());
            }
        },
    }
    read_names(section, count)
}

} // verus!
