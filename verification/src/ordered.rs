//! Names in byte order.

use crate::vocabulary::{distinct, token_facts, token_is, token_of};
use crate::wire::utf8_round_trip;
use vstd::prelude::*;
use vstd::utf8::*;

verus! {

/// Two byte strings agree up to `at`, where the first ends or has the smaller byte.
pub open spec fn parts_at(left: Seq<u8>, right: Seq<u8>, at: int) -> bool {
    &&& 0 <= at <= left.len()
    &&& at < right.len()
    &&& forall|i: int| 0 <= i < at ==> left[i] == right[i]
    &&& at == left.len() || left[at] < right[at]
}

/// One byte string comes before another.
pub open spec fn bytes_before(left: Seq<u8>, right: Seq<u8>) -> bool {
    exists|at: int| parts_at(left, right, at)
}

/// One name comes before another, in the order of their UTF-8 bytes.
pub open spec fn before(left: Seq<char>, right: Seq<char>) -> bool {
    bytes_before(encode_utf8(left), encode_utf8(right))
}

pub proof fn before_irreflexive(name: Seq<char>)
    ensures
        !before(name, name),
{
}

pub proof fn before_transitive(a: Seq<char>, b: Seq<char>, c: Seq<char>)
    requires
        before(a, b),
        before(b, c),
    ensures
        before(a, c),
{
    let x = encode_utf8(a);
    let y = encode_utf8(b);
    let z = encode_utf8(c);
    let i = choose|at: int| parts_at(x, y, at);
    let j = choose|at: int| parts_at(y, z, at);
    let k = if i < j {
        i
    } else {
        j
    };
    assert(parts_at(x, z, k));
}

pub proof fn before_asymmetric(a: Seq<char>, b: Seq<char>)
    requires
        before(a, b),
    ensures
        !before(b, a),
        a != b,
{
    if before(b, a) {
        before_transitive(a, b, a);
    }
}

/// Which of two names comes first.
#[derive(Clone, Copy, Debug, PartialEq, Eq, Structural)]
pub enum Rank {
    Before,
    Same,
    After,
}

/// The rank of one name against another.
pub open spec fn rank_of(left: Seq<char>, right: Seq<char>) -> Rank {
    if left == right {
        Rank::Same
    } else if before(left, right) {
        Rank::Before
    } else {
        Rank::After
    }
}

/// Names are equal, or one comes before the other.
pub proof fn before_total(a: Seq<char>, b: Seq<char>)
    ensures
        a == b || before(a, b) || before(b, a),
{
    let x = encode_utf8(a);
    let y = encode_utf8(b);
    utf8_round_trip(a);
    utf8_round_trip(b);
    first_difference(x, y, 0);
}

proof fn first_difference(x: Seq<u8>, y: Seq<u8>, at: int)
    requires
        0 <= at <= x.len(),
        at <= y.len(),
        forall|i: int| 0 <= i < at ==> x[i] == y[i],
    ensures
        x == y || bytes_before(x, y) || bytes_before(y, x),
    decreases x.len() - at,
{
    if at == x.len() && at == y.len() {
        assert(x =~= y);
    } else if at == x.len() {
        assert(parts_at(x, y, at));
    } else if at == y.len() {
        assert(parts_at(y, x, at));
    } else if x[at] < y[at] {
        assert(parts_at(x, y, at));
    } else if y[at] < x[at] {
        assert(parts_at(y, x, at));
    } else {
        first_difference(x, y, at + 1);
    }
}

/// Ranks one name against another.
pub fn rank(left: &str, right: &str) -> (result: Rank)
    ensures
        result == rank_of(left@, right@),
{
    let x = left.as_bytes();
    let y = right.as_bytes();
    let mut index: usize = 0;
    proof {
        utf8_round_trip(left@);
        utf8_round_trip(right@);
    }
    while index < x.len() && index < y.len()
        invariant
            index <= x.len(),
            index <= y.len(),
            x@ == encode_utf8(left@),
            y@ == encode_utf8(right@),
            forall|i: int| 0 <= i < index ==> x@[i] == y@[i],
        decreases x.len() - index,
    {
        if x[index] < y[index] {
            proof {
                assert(parts_at(x@, y@, index as int));
                before_asymmetric(left@, right@);
            }
            return Rank::Before;
        }
        if y[index] < x[index] {
            proof {
                assert(parts_at(y@, x@, index as int));
                before_asymmetric(right@, left@);
            }
            return Rank::After;
        }
        index += 1;
    }
    if x.len() == y.len() {
        proof {
            assert(x@ =~= y@);
        }
        Rank::Same
    } else if index == x.len() {
        proof {
            assert(parts_at(x@, y@, index as int));
            before_asymmetric(left@, right@);
        }
        Rank::Before
    } else {
        proof {
            assert(parts_at(y@, x@, index as int));
            before_asymmetric(right@, left@);
        }
        Rank::After
    }
}

/// Names in strictly ascending order.
pub open spec fn ascending(names: Seq<Seq<char>>) -> bool {
    forall|i: int, j: int|
        0 <= i < j < names.len() ==> before(#[trigger] names[i], #[trigger] names[j])
}

/// Names that ascend step by step ascend throughout.
pub proof fn ascending_by_steps(names: Seq<Seq<char>>)
    requires
        forall|i: int| 0 <= i < names.len() - 1 ==> before(#[trigger] names[i], names[i + 1]),
    ensures
        ascending(names),
{
    assert forall|i: int, j: int| 0 <= i < j < names.len() implies before(
        #[trigger] names[i],
        #[trigger] names[j],
    ) by {
        climb(names, i, j);
    }
}

proof fn climb(names: Seq<Seq<char>>, i: int, j: int)
    requires
        forall|k: int| 0 <= k < names.len() - 1 ==> before(#[trigger] names[k], names[k + 1]),
        0 <= i < j < names.len(),
    ensures
        before(names[i], names[j]),
    decreases j - i,
{
    if j == i + 1 {
    } else {
        climb(names, i, j - 1);
        assert(before(names[j - 1], names[j - 1 + 1]));
        before_transitive(names[i], names[j - 1], names[j]);
    }
}

/// Ascending names are distinct.
pub proof fn ascending_is_distinct(names: Seq<Seq<char>>)
    requires
        ascending(names),
    ensures
        distinct(names),
{
    assert forall|i: int, j: int| 0 <= i < j < names.len() implies #[trigger] names[i]
        != #[trigger] names[j] by {
        before_irreflexive(names[i]);
        assert(before(names[i], names[j]));
    }
}

/// The names of a list of strings.
pub open spec fn texts(names: Seq<String>) -> Seq<Seq<char>> {
    Seq::new(names.len(), |i: int| names[i]@)
}

/// Whether a name occurs in a list.
pub open spec fn occurs(names: Seq<Seq<char>>, name: Seq<char>) -> bool {
    exists|i: int| 0 <= i < names.len() && #[trigger] names[i] == name
}

/// Where an ascending list of names has a name, or where it would go.
pub fn find_name(names: &Vec<String>, name: &str) -> (result: Result<usize, usize>)
    requires
        ascending(texts(names@)),
    ensures
        match result {
            Ok(index) => index < names.len() && texts(names@)[index as int] == name@ && token_of(
                texts(names@),
                name@,
            ) == index,
            Err(index) => index <= names.len() && !occurs(texts(names@), name@) && token_of(
                texts(names@),
                name@,
            ) < 0 && (forall|i: int|
                0 <= i < index ==> before(#[trigger] texts(names@)[i], name@)) && (forall|i: int|
                index <= i < names.len() ==> before(name@, #[trigger] texts(names@)[i])),
        },
{
    let ghost list = texts(names@);
    proof {
        ascending_is_distinct(list);
        token_facts(list, name@);
    }
    let mut low: usize = 0;
    let mut high: usize = names.len();
    while low < high
        invariant
            low <= high <= names.len(),
            list == texts(names@),
            ascending(list),
            distinct(list),
            forall|i: int| 0 <= i < low ==> before(#[trigger] list[i], name@),
            forall|i: int| high <= i < list.len() ==> before(name@, #[trigger] list[i]),
        decreases high - low,
    {
        let middle: usize = low + (high - low) / 2;
        proof {
            assert(list[middle as int] == names@[middle as int]@);
        }
        match rank(names[middle].as_str(), name) {
            Rank::Before => {
                proof {
                    assert forall|i: int| 0 <= i < middle + 1 implies before(
                        #[trigger] list[i],
                        name@,
                    ) by {
                        if i < middle {
                            assert(before(list[i], list[middle as int]));
                            before_transitive(list[i], list[middle as int], name@);
                        }
                    }
                }
                low = middle + 1;
            },
            Rank::After => {
                proof {
                    before_total(list[middle as int], name@);
                    assert forall|i: int| middle <= i < list.len() implies before(
                        name@,
                        #[trigger] list[i],
                    ) by {
                        if i > middle {
                            assert(before(list[middle as int], list[i]));
                            before_transitive(name@, list[middle as int], list[i]);
                        }
                    }
                }
                high = middle;
            },
            Rank::Same => {
                proof {
                    token_is(list, middle as int);
                }
                return Ok(middle);
            },
        }
    }
    proof {
        if occurs(list, name@) {
            let i = choose|i: int| 0 <= i < list.len() && #[trigger] list[i] == name@;
            before_irreflexive(name@);
            assert(list[i] == name@);
        }
        if token_of(list, name@) >= 0 {
            assert(list[token_of(list, name@)] == name@);
        }
    }
    Err(low)
}

/// Adds a name to an ascending list, if it is not there.
pub fn insert_name(names: &mut Vec<String>, name: &str)
    requires
        ascending(texts(old(names)@)),
    ensures
        ascending(texts(final(names)@)),
        forall|other: Seq<char>| #[trigger]
            occurs(texts(final(names)@), other) <==> (occurs(texts(old(names)@), other) || other
                == name@),
        final(names)@.len() <= old(names)@.len() + 1,
{
    let ghost list = texts(names@);
    match find_name(names, name) {
        Ok(index) => {
            proof {
                assert(occurs(list, name@)) by {
                    assert(list[index as int] == name@);
                }
            }
        },
        Err(index) => {
            names.insert(index, name.to_owned());
            proof {
                let more = texts(names@);
                assert(more =~= list.insert(index as int, name@));
                assert forall|i: int, j: int| 0 <= i < j < more.len() implies before(
                    #[trigger] more[i],
                    #[trigger] more[j],
                ) by {
                    let from_i = if i < index {
                        i
                    } else {
                        i - 1
                    };
                    let from_j = if j < index {
                        j
                    } else {
                        j - 1
                    };
                    if i == index {
                        assert(more[j] == list[from_j]);
                    } else if j == index {
                        assert(more[i] == list[from_i]);
                    } else {
                        assert(more[i] == list[from_i]);
                        assert(more[j] == list[from_j]);
                    }
                }
                assert forall|other: Seq<char>| #[trigger] occurs(more, other) <==> (occurs(
                    list,
                    other,
                ) || other == name@) by {
                    if occurs(more, other) {
                        let i = choose|i: int| 0 <= i < more.len() && #[trigger] more[i] == other;
                        if i < index {
                            assert(list[i] == other);
                        } else if i > index {
                            assert(list[i - 1] == other);
                        }
                    }
                    if occurs(list, other) {
                        let i = choose|i: int| 0 <= i < list.len() && #[trigger] list[i] == other;
                        if i < index {
                            assert(more[i] == other);
                        } else {
                            assert(more[i + 1] == other);
                        }
                    }
                    if other == name@ {
                        assert(more[index as int] == other);
                    }
                }
            }
        },
    }
}

} // verus!
