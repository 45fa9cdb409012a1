//! The definitions that are live in a world, and what operations do to them.

use crate::errors::{CandidateError, CandidateErrorModel};
use crate::fact::{EntityId, Fact, FactModel, Operation, OperationModel, SlotId, views, views_push};
use crate::frame::{share, share_all};
use std::sync::Arc;
use vstd::prelude::*;
use vstd::string::*;

verus! {

/// One definition of a slot.
#[derive(Debug)]
pub struct Definition {
    pub(crate) record: usize,
    pub(crate) slot: SlotId,
    pub(crate) fact: Fact,
}

/// Mathematical value of a [`Definition`]: `record` counts the definitions and removals before it.
pub struct DefinitionModel {
    pub record: nat,
    pub slot: Seq<char>,
    pub fact: FactModel,
}

impl View for Definition {
    type V = DefinitionModel;

    closed spec fn view(&self) -> DefinitionModel {
        DefinitionModel { record: self.record as nat, slot: self.slot@, fact: self.fact@ }
    }
}

impl Definition {
    pub(crate) fn assemble(record: usize, slot: SlotId, fact: Fact) -> (result: Self)
        ensures
            result@ == (DefinitionModel { record: record as nat, slot: slot@, fact: fact@ }),
    {
        Definition { record, slot, fact }
    }

    pub fn record(&self) -> (result: usize)
        ensures
            result == self@.record,
    {
        self.record
    }

    pub fn slot(&self) -> (result: &SlotId)
        ensures
            result@ == self@.slot,
    {
        &self.slot
    }

    pub fn fact(&self) -> (result: &Fact)
        ensures
            result@ == self@.fact,
    {
        &self.fact
    }
}

/// The live definitions, in the order in which they were made, the number of records so far and
/// the next identity to hand out.
pub struct KernelModel {
    pub live: Seq<DefinitionModel>,
    pub records: nat,
    pub next_entity: nat,
}

/// Nothing defined yet.
pub open spec fn empty_kernel() -> KernelModel {
    KernelModel { live: Seq::empty(), records: 0, next_entity: 1 }
}

/// Position of the newest live definition of `slot`, or `-1`.
pub open spec fn newest(live: Seq<DefinitionModel>, slot: Seq<char>) -> int
    decreases live.len(),
{
    if live.len() == 0 {
        -1
    } else if live.last().slot == slot {
        live.len() - 1
    } else {
        newest(live.drop_last(), slot)
    }
}

/// The active definition of a slot.
pub open spec fn active_fact(live: Seq<DefinitionModel>, slot: Seq<char>) -> Option<FactModel> {
    if newest(live, slot) >= 0 {
        Some(live[newest(live, slot)].fact)
    } else {
        None
    }
}

/// The facts that define a slot, newest first.
pub open spec fn slot_facts(live: Seq<DefinitionModel>, slot: Seq<char>) -> Seq<FactModel>
    decreases live.len(),
{
    if live.len() == 0 {
        Seq::empty()
    } else if live.last().slot == slot {
        seq![live.last().fact] + slot_facts(live.drop_last(), slot)
    } else {
        slot_facts(live.drop_last(), slot)
    }
}

/// No later live definition is of the same slot.
pub open spec fn is_active(live: Seq<DefinitionModel>, index: int) -> bool {
    newest(live, live[index].slot) == index
}

/// The active ones among the first `count` definitions.
pub open spec fn active_before(live: Seq<DefinitionModel>, count: nat) -> Seq<DefinitionModel>
    decreases count,
{
    if count == 0 {
        Seq::empty()
    } else if is_active(live, count - 1) {
        active_before(live, (count - 1) as nat).push(live[count - 1])
    } else {
        active_before(live, (count - 1) as nat)
    }
}

/// The active definitions, oldest first.
pub open spec fn active(live: Seq<DefinitionModel>) -> Seq<DefinitionModel> {
    active_before(live, live.len())
}

/// Makes `fact` the active definition of `slot`.
pub open spec fn defined(kernel: KernelModel, slot: Seq<char>, fact: FactModel) -> KernelModel {
    KernelModel {
        live: kernel.live.push(DefinitionModel { record: kernel.records, slot, fact }),
        records: kernel.records + 1,
        ..kernel
    }
}

/// Drops the active definition of `slot`, if it has one; a record either way.
pub open spec fn forgotten(kernel: KernelModel, slot: Seq<char>) -> KernelModel {
    let index = newest(kernel.live, slot);
    KernelModel {
        live: if index >= 0 {
            kernel.live.remove(index)
        } else {
            kernel.live
        },
        records: kernel.records + 1,
        ..kernel
    }
}

/// One operation: an allocation must take the next identity.
pub open spec fn applied(kernel: KernelModel, operation: OperationModel) -> Result<
    KernelModel,
    CandidateErrorModel,
> {
    match operation {
        OperationModel::AllocateEntity { entity } => if entity != kernel.next_entity {
            Err(
                CandidateErrorModel::AllocatorOperationMismatch {
                    expected: kernel.next_entity as u64,
                    actual: entity,
                },
            )
        } else {
            Ok(KernelModel { next_entity: kernel.next_entity + 1, ..kernel })
        },
        OperationModel::Define { slot, fact } => Ok(defined(kernel, slot, fact)),
        OperationModel::Forget { slot } => Ok(forgotten(kernel, slot)),
    }
}

/// Operations in order, up to the first that is refused.
pub open spec fn replayed(kernel: KernelModel, operations: Seq<OperationModel>) -> Result<
    KernelModel,
    CandidateErrorModel,
>
    decreases operations.len(),
{
    if operations.len() == 0 {
        Ok(kernel)
    } else {
        match replayed(kernel, operations.drop_last()) {
            Err(error) => Err(error),
            Ok(next) => applied(next, operations.last()),
        }
    }
}

/// Records are numbered in the order in which they were made.
pub open spec fn numbered(kernel: KernelModel) -> bool {
    &&& forall|i: int, j: int|
        0 <= i < j < kernel.live.len() ==> (#[trigger] kernel.live[i]).record < (
        #[trigger] kernel.live[j]).record
    &&& forall|i: int|
        0 <= i < kernel.live.len() ==> (#[trigger] kernel.live[i]).record < kernel.records
}

pub proof fn newest_bounds(live: Seq<DefinitionModel>, slot: Seq<char>)
    ensures
        -1 <= newest(live, slot) < live.len(),
        newest(live, slot) >= 0 ==> live[newest(live, slot)].slot == slot,
        forall|i: int|
            newest(live, slot) < i < live.len() ==> (#[trigger] live[i]).slot != slot,
    decreases live.len(),
{
    if live.len() > 0 && live.last().slot != slot {
        newest_bounds(live.drop_last(), slot);
        assert forall|i: int| newest(live, slot) < i < live.len() implies (
        #[trigger] live[i]).slot != slot by {
            if i < live.len() - 1 {
                assert(live.drop_last()[i] == live[i]);
            }
        }
    }
}

/// What determines the position of the newest definition.
pub proof fn newest_is(live: Seq<DefinitionModel>, slot: Seq<char>, index: int)
    requires
        -1 <= index < live.len(),
        index >= 0 ==> live[index].slot == slot,
        forall|i: int| index < i < live.len() ==> (#[trigger] live[i]).slot != slot,
    ensures
        newest(live, slot) == index,
    decreases live.len(),
{
    newest_bounds(live, slot);
    let found = newest(live, slot);
    if found > index {
        assert(live[found].slot != slot);
    } else if found < index {
        assert(live[index].slot != slot);
    }
}

/// A new definition is the active one, and other slots keep theirs.
pub proof fn define_then_resolve(
    kernel: KernelModel,
    slot: Seq<char>,
    fact: FactModel,
    other: Seq<char>,
)
    ensures
        active_fact(defined(kernel, slot, fact).live, slot) == Some(fact),
        other != slot ==> active_fact(defined(kernel, slot, fact).live, other) == active_fact(
            kernel.live,
            other,
        ),
        slot_facts(defined(kernel, slot, fact).live, slot) == seq![fact] + slot_facts(
            kernel.live,
            slot,
        ),
        other != slot ==> slot_facts(defined(kernel, slot, fact).live, other) == slot_facts(
            kernel.live,
            other,
        ),
{
    let live = defined(kernel, slot, fact).live;
    assert(live.drop_last() =~= kernel.live);
    newest_bounds(kernel.live, other);
}

/// Forgetting a slot right after defining it restores every definition there was.
pub proof fn forget_undoes_define(kernel: KernelModel, slot: Seq<char>, fact: FactModel)
    ensures
        forgotten(defined(kernel, slot, fact), slot).live == kernel.live,
        forgotten(defined(kernel, slot, fact), slot).records == kernel.records + 2,
        forgotten(defined(kernel, slot, fact), slot).next_entity == kernel.next_entity,
{
    let live = defined(kernel, slot, fact).live;
    assert(live.remove(live.len() - 1) =~= kernel.live);
}

/// Removing a definition takes it out of its slot's history and leaves the other slots alone.
proof fn removal_facts(live: Seq<DefinitionModel>, slot: Seq<char>, other: Seq<char>)
    requires
        newest(live, slot) >= 0,
    ensures
        slot_facts(live, slot).len() > 0,
        slot_facts(live.remove(newest(live, slot)), slot) == slot_facts(live, slot).drop_first(),
        other != slot ==> slot_facts(live.remove(newest(live, slot)), other) == slot_facts(
            live,
            other,
        ),
    decreases live.len(),
{
    newest_bounds(live, slot);
    let index = newest(live, slot);
    let less = live.remove(index);
    if live.last().slot == slot {
        assert(less =~= live.drop_last());
        assert(slot_facts(live, slot).drop_first() =~= slot_facts(live.drop_last(), slot));
    } else {
        removal_facts(live.drop_last(), slot, other);
        assert(less.drop_last() =~= live.drop_last().remove(index));
        assert(less.last() == live.last());
    }
}

/// Forgetting a slot reveals the definition before the active one; other slots keep theirs, and
/// forgetting a slot that is not defined changes no definition.
pub proof fn forget_reveals_previous(kernel: KernelModel, slot: Seq<char>, other: Seq<char>)
    ensures
        slot_facts(kernel.live, slot).len() > 0 ==> slot_facts(forgotten(kernel, slot).live, slot)
            == slot_facts(kernel.live, slot).drop_first(),
        slot_facts(kernel.live, slot).len() == 0 ==> forgotten(kernel, slot).live == kernel.live,
        other != slot ==> slot_facts(forgotten(kernel, slot).live, other) == slot_facts(
            kernel.live,
            other,
        ),
{
    active_fact_is_newest(kernel.live, slot);
    if newest(kernel.live, slot) >= 0 {
        removal_facts(kernel.live, slot, other);
    }
}

/// The active definition of a slot is the first of its facts.
pub proof fn active_fact_is_newest(live: Seq<DefinitionModel>, slot: Seq<char>)
    ensures
        active_fact(live, slot) == if slot_facts(live, slot).len() == 0 {
            None
        } else {
            Some(slot_facts(live, slot)[0])
        },
    decreases live.len(),
{
    if live.len() > 0 && live.last().slot != slot {
        active_fact_is_newest(live.drop_last(), slot);
        newest_bounds(live.drop_last(), slot);
    }
}

/// Every operation keeps records numbered in order, never reuses an identity, and adds at most
/// one record.
pub proof fn applied_keeps_order(kernel: KernelModel, operation: OperationModel)
    ensures
        applied(kernel, operation) matches Ok(next) ==> (numbered(kernel) ==> numbered(next))
            && kernel.next_entity <= next.next_entity <= kernel.next_entity + 1 && kernel.records
            <= next.records <= kernel.records + 1 && next.live.len() <= kernel.live.len() + 1,
{
    match operation {
        OperationModel::Define { slot, fact } if numbered(kernel) => {
            let next = defined(kernel, slot, fact);
            assert forall|i: int, j: int| 0 <= i < j < next.live.len() implies (
            #[trigger] next.live[i]).record < (#[trigger] next.live[j]).record by {
                assert(next.live[i] == kernel.live[i]);
                if j < kernel.live.len() {
                    assert(next.live[j] == kernel.live[j]);
                }
            }
        },
        OperationModel::Forget { slot } => {
            let index = newest(kernel.live, slot);
            newest_bounds(kernel.live, slot);
            let next = forgotten(kernel, slot);
            if index >= 0 && numbered(kernel) {
                assert forall|i: int, j: int| 0 <= i < j < next.live.len() implies (
                #[trigger] next.live[i]).record < (#[trigger] next.live[j]).record by {
                    let from_i = if i < index {
                        i
                    } else {
                        i + 1
                    };
                    let from_j = if j < index {
                        j
                    } else {
                        j + 1
                    };
                    assert(next.live[i] == kernel.live[from_i]);
                    assert(next.live[j] == kernel.live[from_j]);
                }
                assert forall|i: int| 0 <= i < next.live.len() implies (
                #[trigger] next.live[i]).record < next.records by {
                    let from_i = if i < index {
                        i
                    } else {
                        i + 1
                    };
                    assert(next.live[i] == kernel.live[from_i]);
                }
            }
        },
        _ => {},
    }
}

pub proof fn replayed_keeps_order(kernel: KernelModel, operations: Seq<OperationModel>)
    ensures
        replayed(kernel, operations) matches Ok(next) ==> (numbered(kernel) ==> numbered(next))
            && kernel.next_entity <= next.next_entity <= kernel.next_entity + operations.len()
            && kernel.records <= next.records <= kernel.records + operations.len()
            && next.live.len() <= kernel.live.len() + operations.len(),
    decreases operations.len(),
{
    if operations.len() > 0 {
        replayed_keeps_order(kernel, operations.drop_last());
        if let Ok(next) = replayed(kernel, operations.drop_last()) {
            applied_keeps_order(next, operations.last());
        }
    }
}

/// Replaying a list in two parts is replaying it whole.
pub proof fn replayed_concat(
    kernel: KernelModel,
    first: Seq<OperationModel>,
    second: Seq<OperationModel>,
)
    ensures
        replayed(kernel, first + second) == match replayed(kernel, first) {
            Err(error) => Err(error),
            Ok(next) => replayed(next, second),
        },
    decreases second.len(),
{
    if second.len() == 0 {
        assert(first + second =~= first);
    } else {
        replayed_concat(kernel, first, second.drop_last());
        assert((first + second).drop_last() =~= first + second.drop_last());
        assert((first + second).last() == second.last());
    }
}

/// A refused operation refuses every longer list that starts with the same operations.
pub proof fn refusal_persists(
    kernel: KernelModel,
    operations: Seq<OperationModel>,
    count: int,
)
    requires
        0 <= count <= operations.len(),
        replayed(kernel, operations.take(count)) is Err,
    ensures
        replayed(kernel, operations) == replayed(kernel, operations.take(count)),
{
    assert(operations =~= operations.take(count) + operations.skip(count));
    replayed_concat(kernel, operations.take(count), operations.skip(count));
}

/// The executable kernel.
pub struct Kernel {
    live: Vec<Arc<Definition>>,
    records: usize,
    next_entity: u64,
}

impl View for Kernel {
    type V = KernelModel;

    closed spec fn view(&self) -> KernelModel {
        KernelModel {
            live: views(self.live@),
            records: self.records as nat,
            next_entity: self.next_entity as nat,
        }
    }
}

impl Kernel {
    pub fn new() -> (result: Self)
        ensures
            result@ == empty_kernel(),
    {
        let result = Kernel { live: Vec::new(), records: 0, next_entity: 1 };
        proof {
            assert(result@.live =~= Seq::empty());
        }
        result
    }

    pub(crate) fn duplicate(&self) -> (result: Self)
        ensures
            result@ == self@,
    {
        Kernel {
            live: share_all(self.live.as_slice()),
            records: self.records,
            next_entity: self.next_entity,
        }
    }

    pub fn next_entity(&self) -> (result: u64)
        ensures
            result == self@.next_entity,
    {
        self.next_entity
    }

    pub fn record_count(&self) -> (result: usize)
        ensures
            result == self@.records,
    {
        self.records
    }

    pub(crate) fn assemble(live: Vec<Arc<Definition>>, records: usize, next_entity: u64) -> (result:
        Self)
        ensures
            result@ == (KernelModel {
                live: views(live@),
                records: records as nat,
                next_entity: next_entity as nat,
            }),
    {
        Kernel { live, records, next_entity }
    }

    /// The live definitions, oldest first.
    pub fn live(&self) -> (result: &[Arc<Definition>])
        ensures
            views(result@) == self@.live,
    {
        self.live.as_slice()
    }

    fn newest_index(&self, slot: &SlotId) -> (result: Option<usize>)
        ensures
            match result {
                Some(index) => index == newest(self@.live, slot@),
                None => newest(self@.live, slot@) == -1,
            },
    {
        let mut index: usize = self.live.len();
        while index > 0
            invariant
                index <= self.live.len(),
                self@.live == views(self.live@),
                forall|i: int|
                    index <= i < self.live.len() ==> (#[trigger] self@.live[i]).slot != slot@,
            decreases index,
        {
            index -= 1;
            if self.live[index].slot.same(slot) {
                proof {
                    newest_is(self@.live, slot@, index as int);
                }
                return Some(index);
            }
        }
        proof {
            newest_is(self@.live, slot@, -1);
        }
        None
    }

    /// Makes `fact` the active definition of `slot`.
    pub fn define(&mut self, slot: SlotId, fact: Fact)
        requires
            old(self)@.records < usize::MAX,
        ensures
            final(self)@ == defined(old(self)@, slot@, fact@),
    {
        let definition = Arc::new(Definition { record: self.records, slot, fact });
        proof {
            views_push(self.live@, definition);
        }
        self.live.push(definition);
        self.records = self.records + 1;
    }

    /// Drops the active definition of `slot`, if it has one.
    pub fn forget(&mut self, slot: &SlotId)
        requires
            old(self)@.records < usize::MAX,
        ensures
            final(self)@ == forgotten(old(self)@, slot@),
    {
        let found = self.newest_index(slot);
        proof {
            newest_bounds(self@.live, slot@);
        }
        if let Some(index) = found {
            let _removed = self.live.remove(index);
            proof {
                assert(views(self.live@) =~= old(self)@.live.remove(index as int));
            }
        }
        self.records = self.records + 1;
    }

    /// Takes the next identity.
    pub fn entity(&mut self) -> (result: EntityId)
        requires
            old(self)@.next_entity < u64::MAX,
        ensures
            result.0 == old(self)@.next_entity,
            final(self)@ == (KernelModel {
                next_entity: old(self)@.next_entity + 1,
                ..old(self)@
            }),
    {
        let entity = EntityId(self.next_entity);
        self.next_entity = self.next_entity + 1;
        entity
    }

    /// The active fact of a slot.
    pub fn resolve(&self, slot: &SlotId) -> (result: Option<&Fact>)
        ensures
            match result {
                Some(fact) => active_fact(self@.live, slot@) == Some(fact@),
                None => active_fact(self@.live, slot@) is None,
            },
    {
        proof {
            newest_bounds(self@.live, slot@);
        }
        match self.newest_index(slot) {
            Some(index) => Some(&self.live[index].fact),
            None => None,
        }
    }

    /// The facts that define a slot, newest first.
    pub fn definitions(&self, slot: &SlotId) -> (result: Vec<&Fact>)
        ensures
            views(result@) == slot_facts(self@.live, slot@),
    {
        let mut result: Vec<&Fact> = Vec::new();
        let mut index: usize = self.live.len();
        proof {
            assert(self@.live.take(index as int) =~= self@.live);
            assert(views(result@) + slot_facts(self@.live, slot@) =~= slot_facts(
                self@.live,
                slot@,
            ));
        }
        while index > 0
            invariant
                index <= self.live.len(),
                self@.live == views(self.live@),
                views(result@) + slot_facts(self@.live.take(index as int), slot@) == slot_facts(
                    self@.live,
                    slot@,
                ),
            decreases index,
        {
            let ghost before = self@.live.take(index as int);
            index -= 1;
            proof {
                assert(before.drop_last() =~= self@.live.take(index as int));
            }
            if self.live[index].slot.same(slot) {
                let fact = &self.live[index].fact;
                proof {
                    views_push(result@, fact);
                    assert(before.last().fact == fact@);
                    assert(views(result@).push(fact@) + slot_facts(
                        self@.live.take(index as int),
                        slot@,
                    ) =~= views(result@) + slot_facts(before, slot@));
                }
                result.push(fact);
            }
        }
        proof {
            assert(views(result@) + slot_facts(self@.live.take(0), slot@) =~= views(result@));
        }
        result
    }

    /// The active definitions, oldest first.
    pub fn active(&self) -> (result: Vec<Arc<Definition>>)
        ensures
            views(result@) == active(self@.live),
    {
        let mut result: Vec<Arc<Definition>> = Vec::new();
        let mut index: usize = 0;
        proof {
            assert(views(result@) =~= Seq::empty());
        }
        while index < self.live.len()
            invariant
                index <= self.live.len(),
                self@.live == views(self.live@),
                views(result@) == active_before(self@.live, index as nat),
            decreases self.live.len() - index,
        {
            let newest_here = self.newest_index(&self.live[index].slot);
            proof {
                newest_bounds(self@.live, self@.live[index as int].slot);
                assert(self@.live[index as int].slot == self.live@[index as int].slot@);
            }
            if let Some(at) = newest_here {
                if at == index {
                    let definition = share(&self.live[index]);
                    proof {
                        views_push(result@, definition);
                    }
                    result.push(definition);
                }
            }
            index += 1;
        }
        result
    }

    /// How many slots have an active definition.
    pub fn active_slot_count(&self) -> (result: usize)
        ensures
            result == active(self@.live).len(),
    {
        let list = self.active();
        proof {
            assert(views(list@).len() == list.len());
        }
        list.len()
    }

    /// Applies one operation, or refuses an allocation that is not the next.
    pub fn apply_operation(&mut self, operation: &Operation) -> (result: Result<
        (),
        CandidateError,
    >)
        requires
            old(self)@.records < usize::MAX,
            old(self)@.next_entity < u64::MAX,
        ensures
            match (result, applied(old(self)@, operation@)) {
                (Ok(()), Ok(next)) => final(self)@ == next,
                (Err(error), Err(model)) => error@ == model && final(self)@ == old(self)@,
                _ => false,
            },
    {
        match operation {
            Operation::AllocateEntity { entity } => {
                if entity.0 != self.next_entity {
                    return Err(
                        CandidateError::AllocatorOperationMismatch {
                            expected: self.next_entity,
                            actual: entity.0,
                        },
                    );
                }
                let _taken = self.entity();
            },
            Operation::Define { slot, fact } => {
                self.define(slot.clone(), fact.clone());
            },
            Operation::Forget { slot } => {
                self.forget(slot);
            },
        }
        Ok(())
    }

    /// Applies operations in order, up to the first that is refused.
    pub fn replay(&mut self, operations: &[Operation]) -> (result: Result<(), CandidateError>)
        requires
            old(self)@.records + operations.len() <= usize::MAX,
            old(self)@.next_entity + operations.len() <= u64::MAX,
        ensures
            match (result, replayed(old(self)@, views(operations@))) {
                (Ok(()), Ok(next)) => final(self)@ == next,
                (Err(error), Err(model)) => error@ == model,
                _ => false,
            },
    {
        let mut index: usize = 0;
        let ghost models = views(operations@);
        proof {
            assert(models.take(0) =~= Seq::empty());
        }
        while index < operations.len()
            invariant
                index <= operations.len(),
                models == views(operations@),
                old(self)@.records + operations.len() <= usize::MAX,
                old(self)@.next_entity + operations.len() <= u64::MAX,
                replayed(old(self)@, models.take(index as int)) == Ok::<
                    KernelModel,
                    CandidateErrorModel,
                >(self@),
            decreases operations.len() - index,
        {
            proof {
                replayed_keeps_order(old(self)@, models.take(index as int));
                assert(models.take(index + 1).drop_last() =~= models.take(index as int));
                assert(models.take(index + 1).last() == operations@[index as int]@);
            }
            match self.apply_operation(&operations[index]) {
                Ok(()) => {},
                Err(error) => {
                    proof {
                        refusal_persists(old(self)@, models, index + 1);
                    }
                    return Err(error);
                },
            }
            index += 1;
        }
        proof {
            assert(models.take(index as int) =~= models);
        }
        Ok(())
    }
}

} // verus!
