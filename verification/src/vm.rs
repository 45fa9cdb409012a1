//! The token machine: slots, facts and entities as numbers, and programs that either run to
//! their end or leave everything as it was.

use crate::world::has_room;
use vstd::prelude::*;

verus! {

/// No record.
pub const NONE: u32 = 0xffff_ffff;

/// Cells from here on stand for literals; cells below stand for entities.
pub const VM_LITERAL_BASE: u64 = 0x8000_0000_0000_0000;

/// The cells from here on stand for entities that are not their own cells.
pub const VM_DISPLACED_BASE: u64 = 0xc000_0000_0000_0000;

/// How many literals, or displaced entities, have cells.
pub const VM_CELL_LIMIT: u64 = 0x4000_0000_0000_0000;

/// What an instruction does.
#[derive(Clone, Copy, Debug, PartialEq, Eq, Structural)]
pub enum Opcode {
    /// Pushes the immediate.
    PushCell,
    /// Pushes a local.
    LoadLocal,
    /// Pops into a local.
    StoreLocal,
    /// Takes the next entity and pushes it.
    Allocate,
    /// Takes the next entity.
    AllocateDiscard,
    /// Pops object, predicate and subject and makes them the active fact of a slot.
    Define,
    /// Drops the active fact of a slot.
    Forget,
    /// Goes on only if the object of a slot's active fact is the immediate.
    ExpectObject,
    /// Never goes on.
    Reject,
}

/// One instruction.
#[derive(Clone, Copy, Debug, PartialEq, Eq, Structural)]
pub struct Instruction {
    pub opcode: Opcode,
    pub argument: u32,
    pub immediate: u64,
}

pub open spec fn push_cell(cell: u64) -> Instruction {
    Instruction { opcode: Opcode::PushCell, argument: 0, immediate: cell }
}

pub open spec fn define_slot(slot: u32) -> Instruction {
    Instruction { opcode: Opcode::Define, argument: slot, immediate: 0 }
}

pub open spec fn forget_slot(slot: u32) -> Instruction {
    Instruction { opcode: Opcode::Forget, argument: slot, immediate: 0 }
}

pub open spec fn discard_entity() -> Instruction {
    Instruction { opcode: Opcode::AllocateDiscard, argument: 0, immediate: 0 }
}

pub open spec fn expect_cell(slot: u32, cell: u64) -> Instruction {
    Instruction { opcode: Opcode::ExpectObject, argument: slot, immediate: cell }
}

pub open spec fn reject_all() -> Instruction {
    Instruction { opcode: Opcode::Reject, argument: 0, immediate: 0 }
}

impl Instruction {
    pub fn raw(opcode: Opcode, argument: u32, immediate: u64) -> (result: Self)
        ensures
            result == (Instruction { opcode, argument, immediate }),
    {
        Instruction { opcode, argument, immediate }
    }

    pub fn push(cell: u64) -> (result: Self)
        ensures
            result == push_cell(cell),
    {
        Instruction { opcode: Opcode::PushCell, argument: 0, immediate: cell }
    }

    pub fn define(slot: u32) -> (result: Self)
        ensures
            result == define_slot(slot),
    {
        Instruction { opcode: Opcode::Define, argument: slot, immediate: 0 }
    }

    pub fn forget(slot: u32) -> (result: Self)
        ensures
            result == forget_slot(slot),
    {
        Instruction { opcode: Opcode::Forget, argument: slot, immediate: 0 }
    }

    pub fn allocate_discard() -> (result: Self)
        ensures
            result == discard_entity(),
    {
        Instruction { opcode: Opcode::AllocateDiscard, argument: 0, immediate: 0 }
    }

    pub fn expect_object(slot: u32, cell: u64) -> (result: Self)
        ensures
            result == expect_cell(slot, cell),
    {
        Instruction { opcode: Opcode::ExpectObject, argument: slot, immediate: cell }
    }

    pub fn reject() -> (result: Self)
        ensures
            result == reject_all(),
    {
        Instruction { opcode: Opcode::Reject, argument: 0, immediate: 0 }
    }
}

/// Why a program did not run to its end.
#[derive(Clone, Copy, Debug, PartialEq, Eq, Structural)]
pub enum VmFault {
    StackUnderflow,
    UnknownSlot,
    UnknownLocal,
    ExpectationFailed,
    Rejected,
}

/// A fact in cells.
#[derive(Clone, Copy, Debug, PartialEq, Eq, Structural)]
pub struct Triple {
    pub subject: u64,
    pub predicate: u64,
    pub object: u64,
}

/// The facts of every slot, newest first, the next entity, and how many definitions and removals
/// there have been.
pub struct VmModel {
    pub stacks: Seq<Seq<Triple>>,
    pub next_entity: nat,
    pub deltas: nat,
}

/// A machine in the middle of a program.
pub struct RunModel {
    pub vm: VmModel,
    pub stack: Seq<u64>,
}

pub open spec fn without_newest(stack: Seq<Triple>) -> Seq<Triple> {
    if stack.len() == 0 {
        stack
    } else {
        stack.drop_first()
    }
}

/// One instruction.
pub open spec fn vm_step(run: RunModel, instruction: Instruction) -> Result<RunModel, VmFault> {
    let vm = run.vm;
    let slot = instruction.argument as int;
    let depth = run.stack.len() as int;
    match instruction.opcode {
        Opcode::PushCell => Ok(
            RunModel { vm, stack: run.stack.push(instruction.immediate) },
        ),
        Opcode::LoadLocal => Err(VmFault::UnknownLocal),
        Opcode::StoreLocal => Err(VmFault::UnknownLocal),
        Opcode::Allocate => Ok(
            RunModel {
                vm: VmModel { next_entity: vm.next_entity + 1, ..vm },
                stack: run.stack.push(vm.next_entity as u64),
            },
        ),
        Opcode::AllocateDiscard => Ok(
            RunModel { vm: VmModel { next_entity: vm.next_entity + 1, ..vm }, stack: run.stack },
        ),
        Opcode::Define => if depth < 3 {
            Err(VmFault::StackUnderflow)
        } else if slot >= vm.stacks.len() {
            Err(VmFault::UnknownSlot)
        } else {
            let triple = Triple {
                subject: run.stack[depth - 3],
                predicate: run.stack[depth - 2],
                object: run.stack[depth - 1],
            };
            Ok(
                RunModel {
                    vm: VmModel {
                        stacks: vm.stacks.update(slot, seq![triple] + vm.stacks[slot]),
                        deltas: vm.deltas + 1,
                        ..vm
                    },
                    stack: run.stack.take(depth - 3),
                },
            )
        },
        Opcode::Forget => if slot >= vm.stacks.len() {
            Err(VmFault::UnknownSlot)
        } else {
            Ok(
                RunModel {
                    vm: VmModel {
                        stacks: vm.stacks.update(slot, without_newest(vm.stacks[slot])),
                        deltas: vm.deltas + 1,
                        ..vm
                    },
                    stack: run.stack,
                },
            )
        },
        Opcode::ExpectObject => if slot >= vm.stacks.len() {
            Err(VmFault::UnknownSlot)
        } else if vm.stacks[slot].len() == 0 || vm.stacks[slot][0].object
            != instruction.immediate {
            Err(VmFault::ExpectationFailed)
        } else {
            Ok(run)
        },
        Opcode::Reject => Err(VmFault::Rejected),
    }
}

/// Instructions in order, up to the first fault.
pub open spec fn vm_run(run: RunModel, program: Seq<Instruction>) -> Result<RunModel, VmFault>
    decreases program.len(),
{
    if program.len() == 0 {
        Ok(run)
    } else {
        match vm_run(run, program.drop_last()) {
            Err(fault) => Err(fault),
            Ok(next) => vm_step(next, program.last()),
        }
    }
}

/// A whole program on an empty stack.
pub open spec fn vm_executed(vm: VmModel, program: Seq<Instruction>) -> Result<VmModel, VmFault> {
    match vm_run(RunModel { vm, stack: Seq::empty() }, program) {
        Err(fault) => Err(fault),
        Ok(run) => Ok(run.vm),
    }
}

pub proof fn vm_run_concat(run: RunModel, first: Seq<Instruction>, second: Seq<Instruction>)
    ensures
        vm_run(run, first + second) == match vm_run(run, first) {
            Err(fault) => Err(fault),
            Ok(next) => vm_run(next, second),
        },
    decreases second.len(),
{
    if second.len() == 0 {
        assert(first + second =~= first);
    } else {
        vm_run_concat(run, first, second.drop_last());
        assert((first + second).drop_last() =~= first + second.drop_last());
        assert((first + second).last() == second.last());
    }
}

pub proof fn vm_fault_stays(run: RunModel, program: Seq<Instruction>, count: int)
    requires
        0 <= count <= program.len(),
        vm_run(run, program.take(count)) is Err,
    ensures
        vm_run(run, program) == vm_run(run, program.take(count)),
{
    assert(program =~= program.take(count) + program.skip(count));
    vm_run_concat(run, program.take(count), program.skip(count));
}

/// Whether a record adds a fact or removes one.
#[derive(Clone, Copy, Debug, PartialEq, Eq, Structural)]
pub enum RecordKind {
    Define,
    Forget,
}

/// One entry of the arena of definitions and removals.
#[derive(Clone, Copy, Debug, PartialEq, Eq, Structural)]
pub struct FactRecord {
    pub kind: RecordKind,
    pub slot: u32,
    pub triple: Triple,
    /// The record that was visible in the slot before.
    pub previous_visible: u32,
    /// The record that is visible in the slot after.
    pub resulting_visible: u32,
}

/// The facts that are visible behind a head, newest first.
pub open spec fn visible(records: Seq<FactRecord>, head: u32) -> Seq<Triple>
    decreases head,
{
    if head >= records.len() {
        Seq::empty()
    } else if records[head as int].previous_visible < head {
        seq![records[head as int].triple] + visible(records, records[head as int].previous_visible)
    } else {
        seq![records[head as int].triple]
    }
}

/// The arena's links point backwards.
pub open spec fn arena_ok(records: Seq<FactRecord>) -> bool {
    &&& records.len() < NONE
    &&& forall|i: int|
        0 <= i < records.len() ==> (#[trigger] records[i]).previous_visible == NONE
            || records[i].previous_visible < i
}

/// Heads point into the arena.
pub open spec fn heads_ok(records: Seq<FactRecord>, heads: Seq<u32>) -> bool {
    &&& heads.len() <= NONE
    &&& forall|i: int|
        0 <= i < heads.len() ==> (#[trigger] heads[i]) == NONE || heads[i] < records.len()
}

/// New records do not change what is visible behind an old head.
pub proof fn visible_is_stable(records: Seq<FactRecord>, more: Seq<FactRecord>, head: u32)
    requires
        head < records.len() || head == NONE,
        records.len() <= more.len() <= NONE,
        more.take(records.len() as int) == records,
    ensures
        visible(more, head) == visible(records, head),
    decreases head,
{
    if head < records.len() {
        assert(more[head as int] == more.take(records.len() as int)[head as int]);
        let previous = records[head as int].previous_visible;
        if previous < head {
            visible_is_stable(records, more, previous);
        }
    }
}

/// The heads before the records from `start` on were added.
pub open spec fn unwound(heads: Seq<u32>, records: Seq<FactRecord>, start: nat) -> Seq<u32>
    decreases records.len(),
{
    if records.len() <= start {
        heads
    } else {
        unwound(
            heads.update(records.last().slot as int, records.last().previous_visible),
            records.drop_last(),
            start,
        )
    }
}

/// The machine's state.
pub struct Workspace {
    next_entity: u64,
    records: Vec<FactRecord>,
    heads: Vec<u32>,
    earlier_deltas: usize,
}

/// The facts of every slot.
pub open spec fn stacks_of(records: Seq<FactRecord>, heads: Seq<u32>) -> Seq<Seq<Triple>> {
    Seq::new(heads.len(), |i: int| visible(records, heads[i]))
}

impl View for Workspace {
    type V = VmModel;

    closed spec fn view(&self) -> VmModel {
        VmModel {
            stacks: stacks_of(self.records@, self.heads@),
            next_entity: self.next_entity as nat,
            deltas: (self.earlier_deltas + self.records.len()) as nat,
        }
    }
}

/// An instruction leaves a record or takes an entity.
pub open spec fn lasting(instruction: Instruction) -> bool {
    match instruction.opcode {
        Opcode::Allocate => true,
        Opcode::AllocateDiscard => true,
        Opcode::Define => true,
        Opcode::Forget => true,
        _ => false,
    }
}

/// How many records and entities a program takes at most.
pub open spec fn effects(program: Seq<Instruction>) -> nat
    decreases program.len(),
{
    if program.len() == 0 {
        0
    } else if lasting(program.last()) {
        effects(program.drop_last()) + 1
    } else {
        effects(program.drop_last())
    }
}

/// A beginning of a program takes no more than the whole, and each instruction one at most.
pub proof fn effects_grow(program: Seq<Instruction>, count: int)
    requires
        0 <= count <= program.len(),
    ensures
        effects(program.take(count)) <= effects(program) <= program.len(),
    decreases program.len(),
{
    if count < program.len() {
        effects_grow(program.drop_last(), count);
        assert(program.drop_last().take(count) =~= program.take(count));
    } else {
        assert(program.take(count) =~= program);
        if count > 0 {
            effects_grow(program.drop_last(), count - 1);
        }
    }
}

/// Programs take together what each of them takes.
pub proof fn effects_join(first: Seq<Instruction>, second: Seq<Instruction>)
    ensures
        effects(first + second) == effects(first) + effects(second),
    decreases second.len(),
{
    if second.len() == 0 {
        assert(first + second =~= first);
    } else {
        assert((first + second).drop_last() =~= first + second.drop_last());
        effects_join(first, second.drop_last());
    }
}

impl Workspace {
    pub closed spec fn wf(&self) -> bool {
        &&& arena_ok(self.records@)
        &&& heads_ok(self.records@, self.heads@)
        &&& self.earlier_deltas + self.records@.len() <= usize::MAX
    }

    /// There is room for so many more records and entities.
    pub closed spec fn has_room(&self, steps: nat) -> bool {
        &&& self.records@.len() + steps < NONE
        &&& self.next_entity + steps <= u64::MAX
        &&& self.earlier_deltas + self.records@.len() + steps <= usize::MAX
    }

    pub proof fn room_is_monotone(&self, small: nat, large: nat)
        requires
            self.has_room(large),
            small <= large,
        ensures
            self.has_room(small),
    {
    }

    /// A machine without slots.
    pub fn new(next_entity: u64) -> (result: Self)
        ensures
            result.wf(),
            result@ == (VmModel {
                stacks: Seq::empty(),
                next_entity: next_entity as nat,
                deltas: 0,
            }),
            forall|steps: nat|
                steps < NONE && next_entity + steps <= u64::MAX ==> result.has_room(steps),
    {
        let result = Workspace {
            next_entity,
            records: Vec::new(),
            heads: Vec::new(),
            earlier_deltas: 0,
        };
        proof {
            assert(result@.stacks =~= Seq::empty());
        }
        result
    }

    /// A machine that starts with the records of an image.
    pub fn from_image(
        next_entity: u64,
        records: Vec<FactRecord>,
        heads: Vec<u32>,
        record_count: usize,
    ) -> (result: Option<Self>)
        ensures
            result is Some <==> arena_ok(records@) && heads_ok(records@, heads@) && record_count
                >= records.len(),
            result matches Some(workspace) ==> workspace.wf() && workspace@ == (VmModel {
                stacks: stacks_of(records@, heads@),
                next_entity: next_entity as nat,
                deltas: record_count as nat,
            }),
    {
        if records.len() >= NONE as usize || heads.len() > NONE as usize || record_count
            < records.len() {
            return None;
        }
        let mut index: usize = 0;
        while index < records.len()
            invariant
                index <= records.len(),
                records.len() < NONE,
                forall|i: int|
                    0 <= i < index ==> (#[trigger] records@[i]).previous_visible == NONE
                        || records@[i].previous_visible < i,
            decreases records.len() - index,
        {
            let previous: u32 = records[index].previous_visible;
            if previous != NONE && previous as usize >= index {
                proof {
                    assert(records@[index as int].previous_visible == previous);
                }
                return None;
            }
            index += 1;
        }
        let mut place: usize = 0;
        while place < heads.len()
            invariant
                place <= heads.len(),
                records.len() < NONE,
                forall|i: int|
                    0 <= i < place ==> (#[trigger] heads@[i]) == NONE || heads@[i]
                        < records.len(),
            decreases heads.len() - place,
        {
            let head: u32 = heads[place];
            if head != NONE && head as usize >= records.len() {
                proof {
                    assert(heads@[place as int] == head);
                }
                return None;
            }
            place += 1;
        }
        let earlier_deltas: usize = record_count - records.len();
        Some(Workspace { next_entity, records, heads, earlier_deltas })
    }

    /// Whether there is room for `steps` more instructions that last.
    pub fn can_take(&self, steps: usize) -> (result: bool)
        requires
            self.wf(),
        ensures
            result == self.has_room(steps as nat),
    {
        steps < (NONE as usize) - self.records.len() && steps as u64 <= u64::MAX
            - self.next_entity && steps <= usize::MAX - self.earlier_deltas - self.records.len()
    }

    pub fn next_entity(&self) -> (result: u64)
        ensures
            result == self@.next_entity,
    {
        self.next_entity
    }

    pub fn slot_count(&self) -> (result: usize)
        ensures
            result == self@.stacks.len(),
    {
        self.heads.len()
    }

    /// Adds empty slots up to `count`.
    pub fn ensure_slot_count(&mut self, count: usize)
        requires
            old(self).wf(),
            count <= NONE,
        ensures
            final(self).wf(),
            final(self)@ == (VmModel {
                stacks: old(self)@.stacks + Seq::new(
                    if count <= old(self)@.stacks.len() {
                        0
                    } else {
                        (count - old(self)@.stacks.len()) as nat
                    },
                    |i: int| Seq::<Triple>::empty(),
                ),
                ..old(self)@
            }),
            forall|steps: nat| old(self).has_room(steps) ==> final(self).has_room(steps),
    {
        let ghost before = self.heads@;
        while self.heads.len() < count
            invariant
                self.wf(),
                count <= NONE,
                self.records == old(self).records,
                self.next_entity == old(self).next_entity,
                self.earlier_deltas == old(self).earlier_deltas,
                before == old(self).heads@,
                before.len() <= self.heads.len(),
                self.heads.len() <= count || self.heads.len() == before.len(),
                forall|i: int| 0 <= i < before.len() ==> self.heads@[i] == before[i],
                forall|i: int| before.len() <= i < self.heads.len() ==> self.heads@[i] == NONE,
            decreases count - self.heads.len(),
        {
            self.heads.push(NONE);
        }
        proof {
            assert(self@.stacks =~= old(self)@.stacks + Seq::new(
                if count <= old(self)@.stacks.len() {
                    0
                } else {
                    (count - old(self)@.stacks.len()) as nat
                },
                |i: int| Seq::<Triple>::empty(),
            ));
        }
    }

    /// The active fact of a slot.
    pub fn resolve_fact_cells(&self, slot: u32) -> (result: Option<Triple>)
        requires
            self.wf(),
        ensures
            result == if slot < self@.stacks.len() && self@.stacks[slot as int].len() > 0 {
                Some(self@.stacks[slot as int][0])
            } else {
                None
            },
    {
        if slot as usize >= self.heads.len() {
            return None;
        }
        let head: u32 = self.heads[slot as usize];
        proof {
            assert(self.heads@[slot as int] == head);
            assert(self@.stacks[slot as int] == visible(self.records@, head));
        }
        if head == NONE {
            None
        } else {
            Some(self.records[head as usize].triple)
        }
    }

    fn push_record(&mut self, record: FactRecord)
        requires
            old(self).wf(),
            old(self).has_room(1),
            record_fits(old(self).records@, old(self).heads@, record),
        ensures
            final(self).wf(),
            final(self).records@ == old(self).records@.push(record),
            final(self).heads@ == old(self).heads@.update(
                record.slot as int,
                record.resulting_visible,
            ),
            final(self).next_entity == old(self).next_entity,
            final(self).earlier_deltas == old(self).earlier_deltas,
            final(self)@ == (VmModel {
                stacks: old(self)@.stacks.update(
                    record.slot as int,
                    recorded_stack(old(self).records@, old(self).heads@, record),
                ),
                deltas: old(self)@.deltas + 1,
                ..old(self)@
            }),
    {
        proof {
            record_keeps_arena(self.records@, self.heads@, record);
        }
        self.records.push(record);
        self.heads[record.slot as usize] = record.resulting_visible;
    }
}

/// A record that may be added next.
pub open spec fn record_fits(
    records: Seq<FactRecord>,
    heads: Seq<u32>,
    record: FactRecord,
) -> bool {
    &&& record.slot < heads.len()
    &&& record.previous_visible == heads[record.slot as int]
    &&& match record.kind {
        RecordKind::Define => record.resulting_visible == records.len(),
        RecordKind::Forget => record.resulting_visible == NONE || record.resulting_visible
            < records.len(),
    }
}

/// What a slot holds after a record.
pub open spec fn recorded_stack(
    records: Seq<FactRecord>,
    heads: Seq<u32>,
    record: FactRecord,
) -> Seq<Triple> {
    match record.kind {
        RecordKind::Define => seq![record.triple] + visible(records, heads[record.slot as int]),
        RecordKind::Forget => visible(records, record.resulting_visible),
    }
}

pub proof fn record_keeps_arena(records: Seq<FactRecord>, heads: Seq<u32>, record: FactRecord)
    requires
        arena_ok(records),
        heads_ok(records, heads),
        records.len() + 1 < NONE,
        record_fits(records, heads, record),
    ensures
        arena_ok(records.push(record)),
        heads_ok(
            records.push(record),
            heads.update(record.slot as int, record.resulting_visible),
        ),
        stacks_of(
            records.push(record),
            heads.update(record.slot as int, record.resulting_visible),
        ) == stacks_of(records, heads).update(
            record.slot as int,
            recorded_stack(records, heads, record),
        ),
{
    let after = records.push(record);
    let tops = heads.update(record.slot as int, record.resulting_visible);
    let top = heads[record.slot as int];
    assert(top == NONE || top < records.len());
    assert(after.take(records.len() as int) =~= records);
    assert(after[records.len() as int] == record);
    let left = stacks_of(after, tops);
    let right = stacks_of(records, heads).update(
        record.slot as int,
        recorded_stack(records, heads, record),
    );
    assert forall|i: int| 0 <= i < heads.len() implies left[i] == right[i] by {
        assert(heads[i] == NONE || heads[i] < records.len());
        visible_is_stable(records, after, heads[i]);
        if i == record.slot {
            match record.kind {
                RecordKind::Define => {
                    assert(visible(records, NONE) =~= Seq::empty());
                    assert(seq![record.triple] + Seq::<Triple>::empty() =~= seq![record.triple]);
                },
                RecordKind::Forget => {
                    visible_is_stable(records, after, record.resulting_visible);
                },
            }
        }
    }
    assert(left =~= right);
}

/// Adding a record can be undone by its own links.
proof fn unwound_record(
    heads: Seq<u32>,
    records: Seq<FactRecord>,
    record: FactRecord,
    start: nat,
)
    requires
        record_fits(records, heads, record),
        start <= records.len(),
    ensures
        unwound(
            heads.update(record.slot as int, record.resulting_visible),
            records.push(record),
            start,
        ) == unwound(heads, records, start),
{
    assert(records.push(record).drop_last() =~= records);
    assert(heads.update(record.slot as int, record.resulting_visible).update(
        record.slot as int,
        record.previous_visible,
    ) =~= heads);
}

impl Workspace {
    /// The records since `start` are the only change to the arena and the heads.
    spec fn advanced_from(&self, before: Workspace) -> bool {
        &&& self.records@.len() >= before.records@.len()
        &&& self.records@.take(before.records@.len() as int) == before.records@
        &&& self.heads@.len() == before.heads@.len()
        &&& self.earlier_deltas == before.earlier_deltas
        &&& unwound(self.heads@, self.records@, before.records@.len()) == before.heads@
        &&& forall|i: int|
            before.records@.len() <= i < self.records@.len() ==> (#[trigger] self.records@[i]).slot
                < self.heads@.len()
    }

    fn add_record(&mut self, record: FactRecord, Ghost(before): Ghost<Workspace>)
        requires
            old(self).wf(),
            old(self).has_room(1),
            record_fits(old(self).records@, old(self).heads@, record),
            old(self).advanced_from(before),
        ensures
            final(self).wf(),
            final(self).advanced_from(before),
            final(self).records@.len() == old(self).records@.len() + 1,
            final(self).next_entity == old(self).next_entity,
            final(self)@ == (VmModel {
                stacks: old(self)@.stacks.update(
                    record.slot as int,
                    recorded_stack(old(self).records@, old(self).heads@, record),
                ),
                deltas: old(self)@.deltas + 1,
                ..old(self)@
            }),
    {
        proof {
            unwound_record(self.heads@, self.records@, record, before.records@.len());
        }
        self.push_record(record);
        proof {
            assert(self.records@.take(before.records@.len() as int) =~= before.records@);
        }
    }

    fn step(
        &mut self,
        stack: &mut Vec<u64>,
        instruction: Instruction,
        Ghost(before): Ghost<Workspace>,
    ) -> (result: Result<(), VmFault>)
        requires
            old(self).wf(),
            lasting(instruction) ==> old(self).has_room(1),
            old(self).advanced_from(before),
        ensures
            final(self).wf(),
            final(self).advanced_from(before),
            final(self).records@.len() <= old(self).records@.len() + effects(seq![instruction]),
            old(self).next_entity <= final(self).next_entity <= old(self).next_entity + effects(
                seq![instruction],
            ),
            match vm_step(RunModel { vm: old(self)@, stack: old(stack)@ }, instruction) {
                Ok(next) => result is Ok && next == (RunModel {
                    vm: final(self)@,
                    stack: final(stack)@,
                }),
                Err(fault) => result == Err::<(), VmFault>(fault),
            },
    {
        proof {
            assert(seq![instruction].drop_last() =~= Seq::empty());
            assert(effects(seq![instruction].drop_last()) == 0);
        }
        match instruction.opcode {
            Opcode::PushCell => {
                stack.push(instruction.immediate);
            },
            Opcode::LoadLocal => {
                return Err(VmFault::UnknownLocal);
            },
            Opcode::StoreLocal => {
                return Err(VmFault::UnknownLocal);
            },
            Opcode::Allocate => {
                stack.push(self.next_entity);
                self.next_entity = self.next_entity + 1;
            },
            Opcode::AllocateDiscard => {
                self.next_entity = self.next_entity + 1;
            },
            Opcode::Define => {
                let depth: usize = stack.len();
                if depth < 3 {
                    return Err(VmFault::StackUnderflow);
                }
                if instruction.argument as usize >= self.heads.len() {
                    return Err(VmFault::UnknownSlot);
                }
                let triple = Triple {
                    subject: stack[depth - 3],
                    predicate: stack[depth - 2],
                    object: stack[depth - 1],
                };
                stack.truncate(depth - 3);
                let slot: u32 = instruction.argument;
                let head: u32 = self.heads[slot as usize];
                let record = FactRecord {
                    kind: RecordKind::Define,
                    slot,
                    triple,
                    previous_visible: head,
                    resulting_visible: self.records.len() as u32,
                };
                self.add_record(record, Ghost(before));
            },
            Opcode::Forget => {
                if instruction.argument as usize >= self.heads.len() {
                    return Err(VmFault::UnknownSlot);
                }
                let slot: u32 = instruction.argument;
                let head: u32 = self.heads[slot as usize];
                proof {
                    assert(self.heads@[slot as int] == head);
                    assert(self@.stacks[slot as int] == visible(self.records@, head));
                }
                let triple: Triple;
                let below: u32;
                if head == NONE {
                    triple = Triple { subject: 0, predicate: 0, object: 0 };
                    below = NONE;
                } else {
                    triple = self.records[head as usize].triple;
                    below = self.records[head as usize].previous_visible;
                    proof {
                        let rest = visible(self.records@, below);
                        assert(self.records@[head as int].previous_visible == below);
                        assert(visible(self.records@, NONE) =~= Seq::empty());
                        assert((seq![triple] + rest).drop_first() =~= rest);
                        assert(seq![triple].drop_first() =~= Seq::<Triple>::empty());
                    }
                }
                let record = FactRecord {
                    kind: RecordKind::Forget,
                    slot,
                    triple,
                    previous_visible: head,
                    resulting_visible: below,
                };
                self.add_record(record, Ghost(before));
            },
            Opcode::ExpectObject => {
                if instruction.argument as usize >= self.heads.len() {
                    return Err(VmFault::UnknownSlot);
                }
                match self.resolve_fact_cells(instruction.argument) {
                    Some(triple) => {
                        if triple.object != instruction.immediate {
                            return Err(VmFault::ExpectationFailed);
                        }
                    },
                    None => {
                        return Err(VmFault::ExpectationFailed);
                    },
                }
            },
            Opcode::Reject => {
                return Err(VmFault::Rejected);
            },
        }
        Ok(())
    }

    /// Takes back every record since `start`.
    fn roll_back(&mut self, start: usize, next_entity: u64, Ghost(before): Ghost<Workspace>)
        requires
            old(self).wf(),
            old(self).advanced_from(before),
            before.wf(),
            start == before.records@.len(),
            next_entity == before.next_entity,
        ensures
            final(self).wf(),
            final(self).records@ == before.records@,
            final(self).heads@ == before.heads@,
            final(self).next_entity == before.next_entity,
            final(self).earlier_deltas == before.earlier_deltas,
    {
        while self.records.len() > start
            invariant
                self.advanced_from(before),
                start == before.records@.len(),
                self.records@.len() < NONE,
                next_entity == before.next_entity,
            decreases self.records.len(),
        {
            let ghost all = self.records@;
            if let Some(record) = self.records.pop() {
                proof {
                    assert(all.last() == record);
                    assert(all.drop_last() == self.records@);
                    assert(record == all[all.len() - 1]);
                    assert(record.slot < self.heads@.len());
                }
                self.heads[record.slot as usize] = record.previous_visible;
                proof {
                    assert(self.records@.take(start as int) =~= all.take(start as int));
                    assert forall|i: int| start <= i < self.records@.len() implies (
                    #[trigger] self.records@[i]).slot < self.heads@.len() by {
                        assert(self.records@[i] == all[i]);
                    }
                }
            }
        }
        proof {
            assert(self.records@.take(start as int) =~= self.records@);
        }
        self.next_entity = next_entity;
    }

    /// Runs a program: to its end, or without any effect.
    pub fn execute(&mut self, program: &[Instruction]) -> (result: Result<(), VmFault>)
        requires
            old(self).wf(),
            old(self).has_room(effects(program@)),
        ensures
            final(self).wf(),
            match vm_executed(old(self)@, program@) {
                Ok(next) => result is Ok && final(self)@ == next,
                Err(fault) => result == Err::<(), VmFault>(fault) && final(self)@ == old(self)@,
            },
            forall|steps: nat|
                old(self).has_room(steps + effects(program@)) ==> #[trigger] final(self).has_room(
                    steps,
                ),
            result is Err ==> forall|steps: nat|
                old(self).has_room(steps) ==> #[trigger] final(self).has_room(steps),
    {
        let ghost before = *self;
        let start: usize = self.records.len();
        let next_entity: u64 = self.next_entity;
        let mut stack: Vec<u64> = Vec::new();
        let ghost initial = RunModel { vm: self@, stack: Seq::empty() };
        let mut index: usize = 0;
        proof {
            assert(program@.take(0) =~= Seq::empty());
            assert(self.records@.take(start as int) =~= self.records@);
            assert(stack@ =~= Seq::empty());
        }
        while index < program.len()
            invariant
                index <= program.len(),
                before == *old(self),
                before.wf(),
                before.has_room(effects(program@)),
                start == before.records@.len(),
                next_entity == before.next_entity,
                initial == (RunModel { vm: before@, stack: Seq::empty() }),
                self.wf(),
                self.advanced_from(before),
                self.records@.len() <= start + effects(program@.take(index as int)),
                self.next_entity <= next_entity + effects(program@.take(index as int)),
                vm_run(initial, program@.take(index as int)) == Ok::<RunModel, VmFault>(
                    RunModel { vm: self@, stack: stack@ },
                ),
            decreases program.len() - index,
        {
            proof {
                assert(program@.take(index + 1).drop_last() =~= program@.take(index as int));
                effects_grow(program@, index + 1);
                let last = seq![program@[index as int]];
                assert(last.drop_last() =~= Seq::empty());
                assert(effects(last.drop_last()) == 0);
            }
            match self.step(&mut stack, program[index], Ghost(before)) {
                Ok(()) => {},
                Err(fault) => {
                    proof {
                        vm_fault_stays(initial, program@, index + 1);
                    }
                    self.roll_back(start, next_entity, Ghost(before));
                    return Err(fault);
                },
            }
            index += 1;
        }
        proof {
            assert(program@.take(index as int) =~= program@);
        }
        Ok(())
    }
}

} // verus!
