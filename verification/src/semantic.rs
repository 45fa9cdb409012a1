//! Semantic intents: transactions over names and symbols, lowered to operations and guards.

use crate::errors::CandidateErrorModel;
use crate::fact::{
    Atom, AtomModel, EntityId, Fact, FactModel, Literal, Operation, OperationModel, Predicate,
    SlotId, Symbol, same_text, views, views_push,
};
use crate::frame::WorldId;
use crate::kernel::{KernelModel, active_fact, applied, replayed};
use crate::text::joined;
use crate::vm::{VM_LITERAL_BASE, VmFault};
use vstd::prelude::*;
use vstd::string::*;

verus! {

/// A reference to an atom.
#[derive(Debug, PartialEq, Eq)]
pub enum AtomRef {
    Entity(EntityId),
    Literal(String),
    /// An entity that the same transaction allocates.
    Symbol(String),
}

/// Mathematical value of an [`AtomRef`].
pub enum AtomRefModel {
    Entity(u64),
    Literal(Seq<char>),
    Symbol(Seq<char>),
}

impl View for AtomRef {
    type V = AtomRefModel;

    open spec fn view(&self) -> AtomRefModel {
        match self {
            AtomRef::Entity(entity) => AtomRefModel::Entity(entity.0),
            AtomRef::Literal(literal) => AtomRefModel::Literal(literal@),
            AtomRef::Symbol(symbol) => AtomRefModel::Symbol(symbol@),
        }
    }
}

/// One step of a semantic transaction.
#[derive(Debug, PartialEq, Eq)]
#[allow(inconsistent_fields)]
pub enum TransactionOp {
    Allocate { result: String },
    ExpectWorld { expected: WorldId },
    ExpectObject { slot: String, expected: AtomRef },
    Define { slot: String, subject: AtomRef, predicate: String, object: AtomRef },
    Forget { slot: String },
    Reject,
}

/// Mathematical value of a [`TransactionOp`].
#[allow(inconsistent_fields)]
pub enum TransactionOpModel {
    Allocate { result: Seq<char> },
    ExpectWorld { expected: WorldId },
    ExpectObject { slot: Seq<char>, expected: AtomRefModel },
    Define {
        slot: Seq<char>,
        subject: AtomRefModel,
        predicate: Seq<char>,
        object: AtomRefModel,
    },
    Forget { slot: Seq<char> },
    Reject,
}

impl View for TransactionOp {
    type V = TransactionOpModel;

    open spec fn view(&self) -> TransactionOpModel {
        match *self {
            TransactionOp::Allocate { result } => TransactionOpModel::Allocate { result: result@ },
            TransactionOp::ExpectWorld { expected } => TransactionOpModel::ExpectWorld { expected },
            TransactionOp::ExpectObject { slot, expected } => TransactionOpModel::ExpectObject {
                slot: slot@,
                expected: expected@,
            },
            TransactionOp::Define { slot, subject, predicate, object } =>
                TransactionOpModel::Define {
                slot: slot@,
                subject: subject@,
                predicate: predicate@,
                object: object@,
            },
            TransactionOp::Forget { slot } => TransactionOpModel::Forget { slot: slot@ },
            TransactionOp::Reject => TransactionOpModel::Reject,
        }
    }
}

/// A semantic transaction.
#[derive(Debug, PartialEq, Eq)]
pub struct TransactionAST {
    pub namespace: u64,
    pub operations: Vec<TransactionOp>,
}

impl TransactionAST {
    pub fn new(namespace: u64, operations: Vec<TransactionOp>) -> (result: Self)
        ensures
            result == (TransactionAST { namespace, operations }),
    {
        TransactionAST { namespace, operations }
    }
}

/// An intent in the form of a semantic transaction.
#[derive(Debug, PartialEq, Eq)]
pub struct SemanticIntent {
    pub ast: TransactionAST,
}

impl SemanticIntent {
    pub fn new(ast: TransactionAST) -> (result: Self)
        ensures
            result == (SemanticIntent { ast }),
    {
        SemanticIntent { ast }
    }
}

/// The identities that a transaction's symbols got, in the order of their allocation.
#[derive(Debug, PartialEq, Eq)]
pub struct SemanticBindings {
    pub(crate) entries: Vec<(String, EntityId)>,
}

/// The identity of a symbol in a list of bindings.
pub open spec fn bound(bindings: Seq<(Seq<char>, u64)>, symbol: Seq<char>) -> Option<u64>
    decreases bindings.len(),
{
    if bindings.len() == 0 {
        None
    } else if bindings.last().0 == symbol {
        Some(bindings.last().1)
    } else {
        bound(bindings.drop_last(), symbol)
    }
}

impl View for SemanticBindings {
    type V = Seq<(Seq<char>, u64)>;

    closed spec fn view(&self) -> Seq<(Seq<char>, u64)> {
        Seq::new(self.entries@.len(), |i: int| (self.entries@[i].0@, self.entries@[i].1.0))
    }
}

impl SemanticBindings {
    fn new() -> (result: Self)
        ensures
            result@ == Seq::<(Seq<char>, u64)>::empty(),
    {
        let result = SemanticBindings { entries: Vec::new() };
        proof {
            assert(result@ =~= Seq::empty());
        }
        result
    }

    pub fn len(&self) -> (result: usize)
        ensures
            result == self@.len(),
    {
        self.entries.len()
    }

    /// The identity of a symbol.
    pub fn get(&self, symbol: &str) -> (result: Option<EntityId>)
        ensures
            match result {
                Some(entity) => bound(self@, symbol@) == Some(entity.0),
                None => bound(self@, symbol@) is None,
            },
    {
        let mut index: usize = self.entries.len();
        proof {
            assert(self@.take(index as int) =~= self@);
        }
        while index > 0
            invariant
                index <= self.entries.len(),
                self@.len() == self.entries.len(),
                forall|i: int|
                    0 <= i < self.entries.len() ==> (#[trigger] self@[i]) == (
                        self.entries@[i].0@,
                        self.entries@[i].1.0,
                    ),
                bound(self@.take(index as int), symbol@) == bound(self@, symbol@),
            decreases index,
        {
            let ghost before = self@.take(index as int);
            index -= 1;
            proof {
                assert(before.drop_last() =~= self@.take(index as int));
                assert(before.last() == self@[index as int]);
            }
            if same_text(self.entries[index].0.as_str(), symbol) {
                return Some(self.entries[index].1);
            }
        }
        None
    }

    fn bind(&mut self, symbol: &String, entity: EntityId)
        ensures
            final(self)@ == old(self)@.push((symbol@, entity.0)),
    {
        self.entries.push((symbol.clone(), entity));
        proof {
            assert(self@ =~= old(self)@.push((symbol@, entity.0)));
        }
    }
}

/// An operation, or a guard between operations.
#[derive(Debug)]
pub enum SemanticStep {
    Operation(Operation),
    ExpectObject { slot: SlotId, expected: Atom },
    Reject,
}

/// Mathematical value of a [`SemanticStep`].
pub enum StepModel {
    Operation(OperationModel),
    ExpectObject { slot: Seq<char>, expected: AtomModel },
    Reject,
}

impl View for SemanticStep {
    type V = StepModel;

    open spec fn view(&self) -> StepModel {
        match *self {
            SemanticStep::Operation(operation) => StepModel::Operation(operation@),
            SemanticStep::ExpectObject { slot, expected } => StepModel::ExpectObject {
                slot: slot@,
                expected: expected@,
            },
            SemanticStep::Reject => StepModel::Reject,
        }
    }
}

/// A transaction with its symbols resolved.
pub struct LoweredModel {
    pub steps: Seq<StepModel>,
    pub bindings: Seq<(Seq<char>, u64)>,
    pub next_entity: nat,
}

/// The atom that a reference stands for.
pub open spec fn lowered_ref(reference: AtomRefModel, bindings: Seq<(Seq<char>, u64)>) -> Result<
    AtomModel,
    Seq<char>,
> {
    match reference {
        AtomRefModel::Entity(entity) => Ok(AtomModel::Entity(entity)),
        AtomRefModel::Literal(literal) => Ok(AtomModel::Literal(literal)),
        AtomRefModel::Symbol(symbol) => match bound(bindings, symbol) {
            Some(entity) => Ok(AtomModel::Entity(entity)),
            None => Err("use of undefined symbol '"@ + symbol + "'"@),
        },
    }
}

/// One more operation behind lowered ones.
pub open spec fn lowered_step(done: LoweredModel, operation: TransactionOpModel) -> Result<
    LoweredModel,
    Seq<char>,
> {
    match operation {
        TransactionOpModel::Allocate { result } => if bound(done.bindings, result) is Some {
            Err("duplicate allocation for symbol '"@ + result + "'"@)
        } else if done.next_entity >= VM_LITERAL_BASE {
            Err("entity allocator exhausted the VM atom namespace"@)
        } else {
            let entity = done.next_entity as u64;
            Ok(
                LoweredModel {
                    steps: done.steps.push(
                        StepModel::Operation(OperationModel::AllocateEntity { entity }),
                    ),
                    bindings: done.bindings.push((result, entity)),
                    next_entity: done.next_entity + 1,
                },
            )
        },
        TransactionOpModel::ExpectWorld { expected } => Ok(done),
        TransactionOpModel::ExpectObject { slot, expected } => match lowered_ref(
            expected,
            done.bindings,
        ) {
            Err(message) => Err(message),
            Ok(atom) => Ok(
                LoweredModel {
                    steps: done.steps.push(StepModel::ExpectObject { slot, expected: atom }),
                    ..done
                },
            ),
        },
        TransactionOpModel::Define { slot, subject, predicate, object } => match lowered_ref(
            subject,
            done.bindings,
        ) {
            Err(message) => Err(message),
            Ok(left) => match lowered_ref(object, done.bindings) {
                Err(message) => Err(message),
                Ok(right) => Ok(
                    LoweredModel {
                        steps: done.steps.push(
                            StepModel::Operation(
                                OperationModel::Define {
                                    slot,
                                    fact: FactModel { subject: left, predicate, object: right },
                                },
                            ),
                        ),
                        ..done
                    },
                ),
            },
        },
        TransactionOpModel::Forget { slot } => Ok(
            LoweredModel {
                steps: done.steps.push(StepModel::Operation(OperationModel::Forget { slot })),
                ..done
            },
        ),
        TransactionOpModel::Reject => Ok(
            LoweredModel { steps: done.steps.push(StepModel::Reject), ..done },
        ),
    }
}

/// Resolves the symbols of a transaction that starts where `next_entity` is the next identity.
pub open spec fn lowered(next_entity: nat, operations: Seq<TransactionOpModel>) -> Result<
    LoweredModel,
    Seq<char>,
>
    decreases operations.len(),
{
    if operations.len() == 0 {
        Ok(LoweredModel { steps: Seq::empty(), bindings: Seq::empty(), next_entity })
    } else {
        match lowered(next_entity, operations.drop_last()) {
            Err(message) => Err(message),
            Ok(done) => lowered_step(done, operations.last()),
        }
    }
}

/// The operations among some steps.
pub open spec fn step_operations(steps: Seq<StepModel>) -> Seq<OperationModel>
    decreases steps.len(),
{
    if steps.len() == 0 {
        Seq::empty()
    } else {
        match steps.last() {
            StepModel::Operation(operation) => step_operations(steps.drop_last()).push(operation),
            _ => step_operations(steps.drop_last()),
        }
    }
}

/// One step: an operation applies, a guard holds, or the transaction ends.
pub open spec fn guarded_step(kernel: KernelModel, step: StepModel) -> Result<
    KernelModel,
    VmFault,
> {
    match step {
        StepModel::Operation(operation) => match applied(kernel, operation) {
            Ok(next) => Ok(next),
            Err(_) => Err(VmFault::Rejected),
        },
        StepModel::ExpectObject { slot, expected } => match active_fact(kernel.live, slot) {
            Some(fact) => if fact.object == expected {
                Ok(kernel)
            } else {
                Err(VmFault::ExpectationFailed)
            },
            None => Err(VmFault::ExpectationFailed),
        },
        StepModel::Reject => Err(VmFault::Rejected),
    }
}

/// Steps in order, up to the first that fails.
pub open spec fn guarded(kernel: KernelModel, steps: Seq<StepModel>) -> Result<
    KernelModel,
    VmFault,
>
    decreases steps.len(),
{
    if steps.len() == 0 {
        Ok(kernel)
    } else {
        match guarded(kernel, steps.drop_last()) {
            Err(fault) => Err(fault),
            Ok(next) => guarded_step(next, steps.last()),
        }
    }
}

/// No step allocates an entity that the machine cannot allocate.
pub open spec fn step_fault_free(step: StepModel) -> bool {
    match step {
        StepModel::Operation(OperationModel::AllocateEntity { entity }) => entity
            < VM_LITERAL_BASE,
        _ => true,
    }
}

/// Bindings name identities that the machine can represent.
pub open spec fn bindings_ok(bindings: Seq<(Seq<char>, u64)>) -> bool {
    forall|i: int| 0 <= i < bindings.len() ==> (#[trigger] bindings[i]).1 < VM_LITERAL_BASE
}

proof fn bound_is_ok(bindings: Seq<(Seq<char>, u64)>, symbol: Seq<char>)
    requires
        bindings_ok(bindings),
    ensures
        bound(bindings, symbol) matches Some(entity) ==> entity < VM_LITERAL_BASE,
    decreases bindings.len(),
{
    if bindings.len() > 0 {
        let front = bindings.drop_last();
        assert forall|i: int| 0 <= i < front.len() implies (#[trigger] front[i]).1
            < VM_LITERAL_BASE by {
            assert(front[i] == bindings[i]);
        }
        assert(bindings[bindings.len() - 1].1 < VM_LITERAL_BASE);
        bound_is_ok(front, symbol);
    }
}

/// What lowering gives: representable steps whose operations apply wherever the next identity is
/// the one that was assumed.
pub proof fn lowered_facts(
    next_entity: nat,
    operations: Seq<TransactionOpModel>,
    kernel: KernelModel,
)
    requires
        kernel.next_entity == next_entity,
        next_entity + operations.len() <= u64::MAX,
    ensures
        lowered(next_entity, operations) matches Ok(done) ==> done.steps.len() <= operations.len()
            && step_operations(done.steps).len() <= done.steps.len() && (forall|i: int|
            0 <= i < done.steps.len() ==> step_fault_free(#[trigger] done.steps[i]))
            && bindings_ok(done.bindings) && next_entity <= done.next_entity <= next_entity
            + operations.len() && (replayed(kernel, step_operations(done.steps)) matches Ok(next)
            && next.next_entity == done.next_entity),
    decreases operations.len(),
{
    if operations.len() > 0 {
        lowered_facts(next_entity, operations.drop_last(), kernel);
        if let Ok(done) = lowered(next_entity, operations.drop_last()) {
            match operations.last() {
                TransactionOpModel::ExpectObject {
                    slot: _,
                    expected: AtomRefModel::Symbol(symbol),
                } => {
                    bound_is_ok(done.bindings, symbol);
                },
                TransactionOpModel::Define { slot: _, subject, predicate: _, object } => {
                    if let AtomRefModel::Symbol(symbol) = subject {
                        bound_is_ok(done.bindings, symbol);
                    }
                    if let AtomRefModel::Symbol(symbol) = object {
                        bound_is_ok(done.bindings, symbol);
                    }
                },
                _ => {},
            }
            if let Ok(more) = lowered_step(done, operations.last()) {
                if more.steps.len() > done.steps.len() {
                    assert(more.steps.drop_last() =~= done.steps);
                    let ops = step_operations(done.steps);
                    if let StepModel::Operation(operation) = more.steps.last() {
                        assert(step_operations(more.steps).drop_last() =~= ops);
                    }
                }
                assert forall|i: int| 0 <= i < more.steps.len() implies step_fault_free(
                    #[trigger] more.steps[i],
                ) by {
                    if i < done.steps.len() {
                        assert(more.steps[i] == done.steps[i]);
                    }
                }
            }
        }
    }
}

/// A transaction that passes its guards does what its operations do.
pub proof fn guarded_is_replay(kernel: KernelModel, steps: Seq<StepModel>)
    ensures
        guarded(kernel, steps) matches Ok(next) ==> replayed(kernel, step_operations(steps)) == Ok::<
            KernelModel,
            CandidateErrorModel,
        >(next),
    decreases steps.len(),
{
    if steps.len() > 0 {
        guarded_is_replay(kernel, steps.drop_last());
        if let StepModel::Operation(operation) = steps.last() {
            assert(step_operations(steps).drop_last() =~= step_operations(steps.drop_last()));
        }
    }
}

fn lower_ref(reference: &AtomRef, bindings: &SemanticBindings) -> (result: Result<Atom, String>)
    ensures
        match (result, lowered_ref(reference@, bindings@)) {
            (Ok(atom), Ok(model)) => atom@ == model,
            (Err(message), Err(model)) => message@ == model,
            _ => false,
        },
{
    match reference {
        AtomRef::Entity(entity) => Ok(Atom::Entity(*entity)),
        AtomRef::Literal(literal) => Ok(Atom::Literal(Literal::new(literal.as_str()))),
        AtomRef::Symbol(symbol) => match bindings.get(symbol.as_str()) {
            Some(entity) => Ok(Atom::Entity(entity)),
            None => {
                let mut message = joined("use of undefined symbol '", symbol.as_str());
                message.append("'");
                Err(message)
            },
        },
    }
}

pub proof fn lowering_fault_stays(
    next_entity: nat,
    operations: Seq<TransactionOpModel>,
    count: int,
)
    requires
        0 <= count <= operations.len(),
        lowered(next_entity, operations.take(count)) is Err,
    ensures
        lowered(next_entity, operations) == lowered(next_entity, operations.take(count)),
    decreases operations.len(),
{
    if count == operations.len() {
        assert(operations.take(count) =~= operations);
    } else {
        assert(operations.drop_last().take(count) =~= operations.take(count));
        lowering_fault_stays(next_entity, operations.drop_last(), count);
    }
}

/// Resolves the symbols of a transaction.
pub fn lower_transaction(next_entity: u64, operations: &[TransactionOp]) -> (result: Result<
    (Vec<SemanticStep>, SemanticBindings),
    String,
>)
    requires
        next_entity + operations.len() <= u64::MAX,
    ensures
        match (result, lowered(next_entity as nat, views(operations@))) {
            (Ok((steps, bindings)), Ok(done)) => views(steps@) == done.steps && bindings@
                == done.bindings,
            (Err(message), Err(model)) => message@ == model,
            _ => false,
        },
{
    let ghost models = views(operations@);
    let mut steps: Vec<SemanticStep> = Vec::new();
    let mut bindings = SemanticBindings::new();
    let mut upcoming: u64 = next_entity;
    let mut index: usize = 0;
    proof {
        assert(models.take(0) =~= Seq::empty());
        assert(views(steps@) =~= Seq::empty());
    }
    while index < operations.len()
        invariant
            index <= operations.len(),
            models == views(operations@),
            next_entity + operations.len() <= u64::MAX,
            upcoming <= next_entity + index,
            lowered(next_entity as nat, models.take(index as int)) == Ok::<
                LoweredModel,
                Seq<char>,
            >(
                LoweredModel {
                    steps: views(steps@),
                    bindings: bindings@,
                    next_entity: upcoming as nat,
                },
            ),
        decreases operations.len() - index,
    {
        proof {
            assert(models.take(index + 1).drop_last() =~= models.take(index as int));
            assert(models.take(index + 1).last() == operations@[index as int]@);
            if lowered(next_entity as nat, models.take(index + 1)) is Err {
                lowering_fault_stays(next_entity as nat, models, index + 1);
            }
        }
        let step: Option<SemanticStep> = match &operations[index] {
            TransactionOp::Allocate { result } => {
                if bindings.get(result.as_str()).is_some() {
                    let mut message = joined("duplicate allocation for symbol '", result.as_str());
                    message.append("'");
                    return Err(message);
                }
                if upcoming >= VM_LITERAL_BASE {
                    return Err("entity allocator exhausted the VM atom namespace".to_owned());
                }
                let entity = EntityId(upcoming);
                upcoming = upcoming + 1;
                bindings.bind(result, entity);
                Some(SemanticStep::Operation(Operation::AllocateEntity { entity }))
            },
            TransactionOp::ExpectWorld { expected } => None,
            TransactionOp::ExpectObject { slot, expected } => {
                let atom = lower_ref(expected, &bindings)?;
                Some(
                    SemanticStep::ExpectObject {
                        slot: SlotId::new(slot.as_str()),
                        expected: atom,
                    },
                )
            },
            TransactionOp::Define { slot, subject, predicate, object } => {
                let left = lower_ref(subject, &bindings)?;
                let right = lower_ref(object, &bindings)?;
                Some(
                    SemanticStep::Operation(
                        Operation::Define {
                            slot: SlotId::new(slot.as_str()),
                            fact: Fact::new(left, Predicate::new(predicate.as_str()), right),
                        },
                    ),
                )
            },
            TransactionOp::Forget { slot } => Some(
                SemanticStep::Operation(
                    Operation::Forget { slot: SlotId::new(slot.as_str()) },
                ),
            ),
            TransactionOp::Reject => Some(SemanticStep::Reject),
        };
        if let Some(step) = step {
            proof {
                views_push(steps@, step);
            }
            steps.push(step);
        }
        index += 1;
    }
    proof {
        assert(models.take(index as int) =~= models);
    }
    Ok((steps, bindings))
}

/// The operations among some steps.
pub fn collect_operations(steps: &[SemanticStep]) -> (result: Vec<Operation>)
    ensures
        views(result@) == step_operations(views(steps@)),
{
    let ghost models = views(steps@);
    let mut result: Vec<Operation> = Vec::new();
    let mut index: usize = 0;
    proof {
        assert(models.take(0) =~= Seq::empty());
        assert(views(result@) =~= Seq::empty());
    }
    while index < steps.len()
        invariant
            index <= steps.len(),
            models == views(steps@),
            views(result@) == step_operations(models.take(index as int)),
        decreases steps.len() - index,
    {
        proof {
            assert(models.take(index + 1).drop_last() =~= models.take(index as int));
            assert(models.take(index + 1).last() == steps@[index as int]@);
        }
        if let SemanticStep::Operation(operation) = &steps[index] {
            let copy = operation.clone();
            proof {
                views_push(result@, copy);
            }
            result.push(copy);
        }
        index += 1;
    }
    proof {
        assert(models.take(index as int) =~= models);
    }
    result
}

} // verus!
