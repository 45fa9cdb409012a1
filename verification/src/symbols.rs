//! The operations that a transaction stands for before its symbols are checked: every symbol stands
//! for the entity of its last allocation, wherever it is used.

use crate::fact::{
    Atom, AtomModel, EntityId, Fact, FactModel, Literal, Operation, OperationModel, Predicate,
    SlotId, Symbol, same_text, views, views_push,
};
use crate::semantic::{AtomRef, AtomRefModel, TransactionOp, TransactionOpModel};
use vstd::prelude::*;
use vstd::string::*;

verus! {

/// How many of the first `count` operations allocate.
pub open spec fn allocations(operations: Seq<TransactionOpModel>, count: int) -> nat
    decreases count,
{
    if count <= 0 {
        0
    } else {
        allocations(operations, count - 1) + if operations[count - 1] is Allocate {
            1nat
        } else {
            0nat
        }
    }
}

/// The last of the first `count` operations that allocates a symbol, or -1.
pub open spec fn last_allocation(
    operations: Seq<TransactionOpModel>,
    symbol: Seq<char>,
    count: int,
) -> int
    decreases count,
{
    if count <= 0 {
        -1
    } else if operations[count - 1] == (TransactionOpModel::Allocate { result: symbol }) {
        count - 1
    } else {
        last_allocation(operations, symbol, count - 1)
    }
}

/// The entity that a symbol stands for, if the transaction allocates it anywhere.
pub open spec fn assigned(
    next_entity: nat,
    operations: Seq<TransactionOpModel>,
    symbol: Seq<char>,
) -> Option<u64> {
    let last = last_allocation(operations, symbol, operations.len() as int);
    if last < 0 {
        None
    } else {
        Some((next_entity + allocations(operations, last)) as u64)
    }
}

/// The atom that a reference stands for.
pub open spec fn assigned_ref(
    next_entity: nat,
    operations: Seq<TransactionOpModel>,
    reference: AtomRefModel,
) -> Option<AtomModel> {
    match reference {
        AtomRefModel::Entity(entity) => Some(AtomModel::Entity(entity)),
        AtomRefModel::Literal(literal) => Some(AtomModel::Literal(literal)),
        AtomRefModel::Symbol(symbol) => match assigned(next_entity, operations, symbol) {
            Some(entity) => Some(AtomModel::Entity(entity)),
            None => None,
        },
    }
}

/// What the first `count` operations of a transaction do, if every symbol that they define with is
/// allocated somewhere.
pub open spec fn synthesized(
    next_entity: nat,
    operations: Seq<TransactionOpModel>,
    count: int,
) -> Option<Seq<OperationModel>>
    decreases count,
{
    if count <= 0 {
        Some(Seq::empty())
    } else {
        match synthesized(next_entity, operations, count - 1) {
            None => None,
            Some(front) => match operations[count - 1] {
                TransactionOpModel::Allocate { result } => match assigned(
                    next_entity,
                    operations,
                    result,
                ) {
                    Some(entity) => Some(front.push(OperationModel::AllocateEntity { entity })),
                    None => None,
                },
                TransactionOpModel::Define { slot, subject, predicate, object } => match (
                    assigned_ref(next_entity, operations, subject),
                    assigned_ref(next_entity, operations, object),
                ) {
                    (Some(left), Some(right)) => Some(
                        front.push(
                            OperationModel::Define {
                                slot,
                                fact: FactModel { subject: left, predicate, object: right },
                            },
                        ),
                    ),
                    _ => None,
                },
                TransactionOpModel::Forget { slot } => Some(
                    front.push(OperationModel::Forget { slot }),
                ),
                _ => Some(front),
            },
        }
    }
}

proof fn synthesis_fault_stays(
    next_entity: nat,
    operations: Seq<TransactionOpModel>,
    some: int,
    count: int,
)
    requires
        0 <= some <= count,
        synthesized(next_entity, operations, some) is None,
    ensures
        synthesized(next_entity, operations, count) is None,
    decreases count,
{
    if some < count {
        synthesis_fault_stays(next_entity, operations, some, count - 1);
    }
}

fn count_allocations(operations: &[TransactionOp], count: usize) -> (result: usize)
    requires
        count <= operations.len(),
    ensures
        result == allocations(views(operations@), count as int),
        result <= count,
{
    let ghost models = views(operations@);
    let mut found: usize = 0;
    let mut index: usize = 0;
    while index < count
        invariant
            index <= count <= operations.len(),
            models == views(operations@),
            found == allocations(models, index as int),
            found <= index,
        decreases count - index,
    {
        proof {
            assert(models[index as int] == operations@[index as int]@);
        }
        match &operations[index] {
            TransactionOp::Allocate { .. } => {
                found += 1;
            },
            _ => {},
        }
        index += 1;
    }
    found
}

/// The entity that a symbol stands for.
fn find_assigned(next_entity: u64, operations: &[TransactionOp], symbol: &str) -> (result: Option<
    EntityId,
>)
    requires
        next_entity + operations.len() <= u64::MAX,
    ensures
        match result {
            Some(entity) => assigned(next_entity as nat, views(operations@), symbol@) == Some(
                entity.0,
            ),
            None => assigned(next_entity as nat, views(operations@), symbol@) is None,
        },
{
    let ghost models = views(operations@);
    let mut index: usize = operations.len();
    while index > 0
        invariant
            index <= operations.len(),
            models == views(operations@),
            next_entity + operations.len() <= u64::MAX,
            last_allocation(models, symbol@, index as int) == last_allocation(
                models,
                symbol@,
                operations.len() as int,
            ),
        decreases index,
    {
        proof {
            assert(models[index - 1] == operations@[index - 1]@);
            assert(models.len() == operations.len());
        }
        match &operations[index - 1] {
            TransactionOp::Allocate { result } => {
                if same_text(result.as_str(), symbol) {
                    let before: usize = count_allocations(operations, index - 1);
                    return Some(EntityId(next_entity + before as u64));
                }
            },
            _ => {},
        }
        index -= 1;
    }
    None
}

fn find_assigned_ref(next_entity: u64, operations: &[TransactionOp], reference: &AtomRef) -> (result:
    Option<Atom>)
    requires
        next_entity + operations.len() <= u64::MAX,
    ensures
        match result {
            Some(atom) => assigned_ref(next_entity as nat, views(operations@), reference@) == Some(
                atom@,
            ),
            None => assigned_ref(next_entity as nat, views(operations@), reference@) is None,
        },
{
    match reference {
        AtomRef::Entity(entity) => Some(Atom::Entity(*entity)),
        AtomRef::Literal(literal) => Some(Atom::Literal(Literal::new(literal.as_str()))),
        AtomRef::Symbol(symbol) => match find_assigned(next_entity, operations, symbol.as_str()) {
            Some(entity) => Some(Atom::Entity(entity)),
            None => None,
        },
    }
}

/// What a transaction does, if every symbol that it defines with is allocated somewhere in it.
pub fn synthesize(next_entity: u64, operations: &[TransactionOp]) -> (result: Option<
    Vec<Operation>,
>)
    requires
        next_entity + operations.len() <= u64::MAX,
    ensures
        match result {
            Some(list) => synthesized(
                next_entity as nat,
                views(operations@),
                operations@.len() as int,
            ) == Some(views(list@)) && list.len() <= operations.len(),
            None => synthesized(
                next_entity as nat,
                views(operations@),
                operations@.len() as int,
            ) is None,
        },
{
    let ghost models = views(operations@);
    let ghost start = next_entity as nat;
    let mut list: Vec<Operation> = Vec::new();
    let mut index: usize = 0;
    proof {
        assert(views(list@) =~= Seq::empty());
    }
    while index < operations.len()
        invariant
            index <= operations.len(),
            models == views(operations@),
            start == next_entity,
            next_entity + operations.len() <= u64::MAX,
            list.len() <= index,
            synthesized(start, models, index as int) == Some(views(list@)),
        decreases operations.len() - index,
    {
        proof {
            assert(models[index as int] == operations@[index as int]@);
            if synthesized(start, models, index + 1) is None {
                synthesis_fault_stays(start, models, index + 1, operations.len() as int);
            }
        }
        let operation: Option<Operation> = match &operations[index] {
            TransactionOp::Allocate { result } => {
                let entity = find_assigned(next_entity, operations, result.as_str())?;
                Some(Operation::AllocateEntity { entity })
            },
            TransactionOp::Define { slot, subject, predicate, object } => {
                let left = find_assigned_ref(next_entity, operations, subject)?;
                let right = find_assigned_ref(next_entity, operations, object)?;
                Some(
                    Operation::Define {
                        slot: SlotId::new(slot.as_str()),
                        fact: Fact::new(left, Predicate::new(predicate.as_str()), right),
                    },
                )
            },
            TransactionOp::Forget { slot } => Some(
                Operation::Forget { slot: SlotId::new(slot.as_str()) },
            ),
            _ => None,
        };
        if let Some(operation) = operation {
            proof {
                views_push(list@, operation);
            }
            list.push(operation);
        }
        index += 1;
    }
    Some(list)
}

} // verus!
