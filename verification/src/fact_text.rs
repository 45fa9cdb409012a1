//! Facts and errors as they stand in messages.

use crate::errors::{CandidateError, CandidateErrorModel, describe_numbers, two_numbers};
use crate::fact::{Atom, AtomModel, Fact, FactModel, Literal, SlotId};
use crate::frame::WorldId;
use crate::text::{decimal, joined, labelled};
use vstd::prelude::*;
use vstd::string::*;

verus! {

/// A text between quotes, with what cannot be shown escaped, as the standard library shows it.
pub uninterp spec fn debug_text(text: Seq<char>) -> Seq<char>;

/// `<str as core::fmt::Debug>::fmt`: the text between quotes, with some characters escaped. Which
/// ones, and how, depends on the text alone; nothing else is said of it.
#[verifier::external_body]
fn show_text(text: &str) -> (result: String)
    ensures
        result@ == debug_text(text@),
{
    format!("{:?}", text)
}

/// A name of some kind.
pub open spec fn named_text(kind: Seq<char>, name: Seq<char>) -> Seq<char> {
    kind + debug_text(name) + ")"@
}

fn show_name(kind: &str, name: &str) -> (result: String)
    ensures
        result@ == named_text(kind@, name@),
{
    let mut out = joined(kind, show_text(name).as_str());
    out.append(")");
    out
}

pub open spec fn slot_text(slot: Seq<char>) -> Seq<char> {
    named_text("SlotId("@, slot)
}

pub fn show_slot(slot: &SlotId) -> (result: String)
    ensures
        result@ == slot_text(slot@),
{
    show_name("SlotId(", slot.as_str())
}

pub open spec fn atom_text(atom: AtomModel) -> Seq<char> {
    match atom {
        AtomModel::Entity(entity) => "Entity(EntityId("@ + decimal(entity as nat) + "))"@,
        AtomModel::Literal(literal) => named_text("Literal(Literal("@, literal) + ")"@,
    }
}

fn show_atom(atom: &Atom) -> (result: String)
    ensures
        result@ == atom_text(atom@),
{
    match atom {
        Atom::Entity(entity) => {
            let mut out = labelled("Entity(EntityId(", entity.0);
            out.append("))");
            out
        },
        Atom::Literal(literal) => {
            let mut out = show_name("Literal(Literal(", literal.as_str());
            out.append(")");
            out
        },
    }
}

pub open spec fn fact_text(fact: FactModel) -> Seq<char> {
    "Fact { subject: "@ + atom_text(fact.subject) + ", predicate: "@ + named_text(
        "Predicate("@,
        fact.predicate,
    ) + ", object: "@ + atom_text(fact.object) + " }"@
}

fn show_fact(fact: &Fact) -> (result: String)
    ensures
        result@ == fact_text(fact@),
{
    let mut out = joined("Fact { subject: ", show_atom(&fact.subject).as_str());
    out.append(", predicate: ");
    out.append(show_name("Predicate(", fact.predicate.as_str()).as_str());
    out.append(", object: ");
    out.append(show_atom(&fact.object).as_str());
    out.append(" }");
    out
}

/// A fact, or that there is none.
pub open spec fn held_text(fact: Option<FactModel>) -> Seq<char> {
    match fact {
        Some(fact) => "Some("@ + fact_text(fact) + ")"@,
        None => "None"@,
    }
}

pub fn show_held(fact: &Option<Fact>) -> (result: String)
    ensures
        result@ == held_text(
            match fact {
                Some(fact) => Some(fact@),
                None => None,
            },
        ),
{
    match fact {
        Some(fact) => {
            let mut out = joined("Some(", show_fact(fact).as_str());
            out.append(")");
            out
        },
        None => "None".to_owned(),
    }
}

/// Two worlds that should be one.
pub open spec fn worlds_shown(label: Seq<char>, expected: WorldId, actual: WorldId) -> Seq<char> {
    two_numbers(
        label + " { expected: WorldId("@,
        expected.0 as nat,
        "), actual: WorldId("@,
        actual.0 as nat,
    ) + ") }"@
}

fn show_worlds(label: &str, expected: WorldId, actual: WorldId) -> (result: String)
    ensures
        result@ == worlds_shown(label@, expected, actual),
{
    let start = joined(label, " { expected: WorldId(");
    let mut out = describe_numbers(
        start.as_str(),
        expected.value(),
        "), actual: WorldId(",
        actual.value(),
    );
    out.append(") }");
    out
}

/// Two numbers that should be one.
pub open spec fn numbers_shown(label: Seq<char>, expected: u64, actual: u64) -> Seq<char> {
    two_numbers(label + " { expected: "@, expected as nat, ", actual: "@, actual as nat) + " }"@
}

fn show_numbers(label: &str, expected: u64, actual: u64) -> (result: String)
    ensures
        result@ == numbers_shown(label@, expected, actual),
{
    let start = joined(label, " { expected: ");
    let mut out = describe_numbers(start.as_str(), expected, ", actual: ", actual);
    out.append(" }");
    out
}

/// An error of a candidate, by its name and its fields.
pub open spec fn candidate_error_shown(error: CandidateErrorModel) -> Seq<char> {
    match error {
        CandidateErrorModel::HistoryParentMismatch { expected, actual } => worlds_shown(
            "HistoryParentMismatch"@,
            expected,
            actual,
        ),
        CandidateErrorModel::HistoryVersionMismatch { expected, actual } => numbers_shown(
            "HistoryVersionMismatch"@,
            expected,
            actual,
        ),
        CandidateErrorModel::AllocatorOperationMismatch { expected, actual } => numbers_shown(
            "AllocatorOperationMismatch"@,
            expected,
            actual,
        ),
        CandidateErrorModel::AllocatorStateMismatch { expected, actual } => numbers_shown(
            "AllocatorStateMismatch"@,
            expected,
            actual,
        ),
        CandidateErrorModel::WorldIdentityMismatch { expected, actual } => worlds_shown(
            "WorldIdentityMismatch"@,
            expected,
            actual,
        ),
        CandidateErrorModel::BaseWorldMismatch { expected, actual } => worlds_shown(
            "BaseWorldMismatch"@,
            expected,
            actual,
        ),
        CandidateErrorModel::KernelInvariant(message) => named_text("KernelInvariant("@, message),
    }
}

pub fn show_candidate_error(error: &CandidateError) -> (result: String)
    ensures
        result@ == candidate_error_shown(error@),
{
    match error {
        CandidateError::HistoryParentMismatch { expected, actual } => show_worlds(
            "HistoryParentMismatch",
            *expected,
            *actual,
        ),
        CandidateError::HistoryVersionMismatch { expected, actual } => show_numbers(
            "HistoryVersionMismatch",
            *expected,
            *actual,
        ),
        CandidateError::AllocatorOperationMismatch { expected, actual } => show_numbers(
            "AllocatorOperationMismatch",
            *expected,
            *actual,
        ),
        CandidateError::AllocatorStateMismatch { expected, actual } => show_numbers(
            "AllocatorStateMismatch",
            *expected,
            *actual,
        ),
        CandidateError::WorldIdentityMismatch { expected, actual } => show_worlds(
            "WorldIdentityMismatch",
            *expected,
            *actual,
        ),
        CandidateError::BaseWorldMismatch { expected, actual } => show_worlds(
            "BaseWorldMismatch",
            *expected,
            *actual,
        ),
        CandidateError::KernelInvariant(message) => show_name(
            "KernelInvariant(",
            message.as_str(),
        ),
    }
}

/// A slot that does not hold what was expected.
pub open spec fn mismatch_text(
    label: Seq<char>,
    slot: Seq<char>,
    expected: Option<FactModel>,
    middle: Seq<char>,
    actual: Option<FactModel>,
) -> Seq<char> {
    label + slot_text(slot) + ": expected "@ + held_text(expected) + middle + held_text(actual)
}

pub fn describe_mismatch(
    label: &str,
    slot: &SlotId,
    expected: &Option<Fact>,
    middle: &str,
    actual: &Option<Fact>,
) -> (result: String)
    ensures
        result@ == mismatch_text(
            label@,
            slot@,
            match expected {
                Some(fact) => Some(fact@),
                None => None,
            },
            middle@,
            match actual {
                Some(fact) => Some(fact@),
                None => None,
            },
        ),
{
    let mut out = joined(label, show_slot(slot).as_str());
    out.append(": expected ");
    out.append(show_held(expected).as_str());
    out.append(middle);
    out.append(show_held(actual).as_str());
    out
}

} // verus!
