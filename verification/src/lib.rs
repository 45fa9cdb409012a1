//! A semantic database: worlds of facts that follow one another by commits, the logs that hold
//! them, the epochs in which queued intents become worlds, and the machines and snapshots that
//! serve them.

pub mod admission;
pub mod admission_core;
pub mod admission_ingress;
pub mod admission_laws;
pub mod admission_worker;
pub mod batching;
pub mod batching_laws;
pub mod codec_laws;
pub mod commit_log;
pub mod compile;
pub mod compile_steps;
pub mod controller_laws;
pub mod controller_metrics;
pub mod cursor;
pub mod database;
pub mod digest;
pub mod durable_commit;
pub mod durable_controller;
pub mod epoch_io;
pub mod epoch_laws;
pub mod epoch_store;
pub mod errors;
pub mod fact;
pub mod fact_text;
pub mod file_store;
pub mod frame;
pub mod history_codec;
pub mod identity_laws;
pub mod image;
pub mod image_build;
pub mod index_laws;
pub mod intent;
pub mod intent_codec;
pub mod intent_laws;
pub mod journal;
pub mod journal_laws;
pub mod kernel;
pub mod lift_laws;
pub mod log_format;
pub mod log_laws;
pub mod machine_laws;
pub mod materializer;
pub mod mixed;
pub mod mixed_laws;
pub mod mixed_plan;
pub mod ordered;
pub mod payload;
pub mod pipeline_laws;
pub mod plan;
pub mod plan_laws;
pub mod plan_model;
pub mod query;
pub mod query_laws;
pub mod query_limits;
pub mod query_match;
pub mod query_model;
pub mod query_row_laws;
pub mod query_same;
pub mod query_walk_laws;
pub mod queued_controller;
pub mod recovery_laws;
pub mod rejection;
pub mod restore_laws;
pub mod ring;
pub mod rows;
pub mod semantic;
pub mod semantic_laws;
pub mod snapshot_checks;
pub mod snapshot_format;
pub mod snapshot_laws;
pub mod snapshot_open;
pub mod snapshot_query;
pub mod snapshot_query_laws;
pub mod snapshot_world;
pub mod snapshot_write;
pub mod speculative;
pub mod staging;
pub mod store_laws;
pub mod stream;
pub mod stream_intents;
pub mod stream_laws;
pub mod stream_lift;
pub mod string_table;
pub mod symbols;
pub mod text;
pub mod text_laws;
pub mod tickets;
pub mod vm;
pub mod vocabulary;
pub mod wire;
pub mod wording;
pub mod worker_laws;
pub mod world;
pub mod world_laws;

pub use crate::admission::{
    AdmissionEpochBatchSubmitError, AdmissionEpochMetrics, AdmissionEpochReceipt,
    AdmissionEpochSubmitError, AdmissionEpochTicketOutcome, AdmissionMaterializer,
    AdmissionOutcomeModel, EpochMaterializer, check_admission_config, live_epochs_replay,
    numbering_stays, replay_epochs, replay_is_deterministic,
};
pub use crate::admission_core::{
    AdmissionCore, AdmissionNotice, AdmissionRecovery, AdmissionResolution, BatchModel, EpochBatch,
    admission_failure, check_snapshot_request, check_snapshot_rewrite, fail_outcomes, next_offset,
    notify_admitted, recover_admission, submission_failure,
};
pub use crate::admission_ingress::{AdmissionIngress, IngressModel};
pub use crate::admission_laws::{
    admitted_epochs_are_counted, epochs_commit_once, receipts_name_their_place, replays_go_on,
    replays_stop_at_faults, tickets_are_consecutive, usable_snapshots_end_with_the_journal,
};
pub use crate::admission_worker::{
    AdmissionCommand, AdmissionCommandModel, AdmissionWorker, EventModel, FailedBatches, PhaseModel,
    WorkerAction, WorkerEvent, WorkerModel, WorkerPhase, barriers_wait_for_all,
    oldest_epoch_is_applied, unapplied_epochs_are_bounded, worker_stays_in_order,
};
pub use crate::batching::{
    AdaptiveState, BatchPolicy, BatchSealReason, GatherAction, GatherStage, Gathering,
    batches_never_overflow, full_batches_widen, sealed_for_capacity_when_full,
    stopped_controllers_seal, target_starts_in_bounds, target_stays_in_bounds,
};
pub use crate::batching_laws::{
    adaptive_batches_keep_their_budget, batches_are_as_old_as_their_oldest,
    coalescing_waits_for_the_deadline, drains_never_wait, gatherings_begin_with_one_intent,
    unanswered_probes_end_the_gathering, widths_follow_the_traffic, widths_start_near_sixteen,
};
pub use crate::codec_laws::{
    atoms_are_laid_out, decimals_stand_for_themselves, hexadecimals_stand_for_themselves,
    histories_are_laid_out, histories_are_told_apart, intents_are_laid_out, intents_are_told_apart,
};
pub use crate::commit_log::{CommitLog, CommitLogModel, prepared_record_extends_file};
pub use crate::compile::{
    Vocabulary, VocabularyMark, atom_known_is_stable, cell_stands_for_atom, compiled_effect,
    compiled_effects, compiled_runs, execution_mirrors_replay, find_fault, known_is_stable,
    knows_more_chain, one_instruction, operations_fault_stays, token_is_stable, whole_lists,
};
pub use crate::compile_steps::{
    cells_are_faithful, compiled_steps_effects, step_known_is_stable, steps_run,
};
pub use crate::controller_laws::{
    acceptances_are_counted, committed_batches_are_counted, committed_batches_are_published,
    durable_epochs_are_counted, durable_seals_keep_the_rest, durable_steps_are_counted,
    durable_steps_count_nothing_else, durable_steps_lose_nothing, every_ticket_is_answered,
    first_ticket_leaves, queued_steps_are_counted, queued_steps_lose_nothing,
    queues_hold_tickets_and_barriers, refused_commands_are_counted, seals_are_counted_by_reason,
    submitters_are_told_the_truth,
};
pub use crate::controller_metrics::{
    DurableQueuedControllerMetrics, QueuedControllerMetrics, counted_more, counted_once,
};
pub use crate::cursor::{
    put_text32, take_text, take_u32, take_u64, take_u8, text32_stands, u32_stands, u64_stands,
    u8_stands,
};
pub use crate::database::{
    CommitError, CommitStore, Database, MemoryCommitStore, Rule, Validator, judge,
};
pub use crate::digest::{FNV_OFFSET, FNV_PRIME, digest, digest_extend, fnv_from_concat};
pub use crate::durable_commit::{
    Clock, CommitTimes, DurableCommit, epoch_fault_is_joint, led_to_plans, plan_epoch, quoted,
    sum_steps,
};
pub use crate::durable_controller::{
    DurableModel, DurableNext, DurableQueuedIntentController, DurableResolution, DurableStep,
    Settlement, accepted_means_stored, durable_steps_keep_order, leading_facts, leading_is,
    pipelines_publish_in_order, poisoned_controllers_stay, queued_tickets_count,
    stopped_controllers_take_up_nothing,
};
pub use crate::epoch_io::{
    DeviceFault, DeviceLog, EpochFileIo, EpochIoPhase, EpochPersistMetrics, FileEpochMetrics,
    FileEpochState, FileEpochSyncPolicy, MemoryEpochFile, counted_twice,
};
pub use crate::epoch_laws::{
    accepted_intents_have_frames, accepted_intents_pass_every_rule, intents_meet_their_predecessors,
    later_intents_change_nothing_earlier, mixed_epochs_add_up, mixed_epochs_commit_once,
};
pub use crate::epoch_store::{
    EpochCheckpoint, EpochErrorModel, EpochStoreModel, FileEpochStore, FileEpochStoreError,
    FlyingEpoch, PreparedEpoch, check_repaired, equal_histories_have_equal_bytes, linked_concat,
    open_log, operations_take_bytes, poison_is_permanent, preparing_changes_nothing,
    read_history_is_countable, records_concat, records_take_bytes, submitting_changes_nothing,
};
pub use crate::errors::{
    CandidateError, CandidateErrorModel, FileCommitStoreError, FileErrorModel, IoFault,
    IoFaultModel, describe_numbers, describe_worlds,
};
pub use crate::fact::{
    Atom, AtomModel, EntityId, Fact, FactModel, Literal, Operation, OperationModel, Predicate,
    SlotId, Symbol, Variable, clone_operations, same_bytes, same_text, views_concat, views_push,
    views_take,
};
pub use crate::fact_text::{describe_mismatch, show_candidate_error, show_held, show_slot};
pub use crate::file_store::{FileCommitStore, restarts_recover_the_world, stores_reopen};
pub use crate::frame::{CommitFrame, FrameModel, WorldId, calculate_world_id, encode_payload};
pub use crate::history_codec::{
    decode_frames, encode_frames, frames_without_fault_fit, history_reads,
};
pub use crate::identity_laws::{
    checksums_are_fnv1a, frames_tell_their_step, identities_take_everything_in,
    logs_begin_with_their_mark, operations_are_tagged, payload_parts, records_are_framed,
};
pub use crate::image::{
    ImageModel, IndexEntry, IndexShape, MappedRecord, image_holds_definitions, image_records_grow,
    occurring_has_token, records_stand_for_facts, slot_definitions_facts,
};
pub use crate::image_build::{
    SnapshotImage, active_has_head, all_mappable, build_image, no_definitions_no_records,
    one_definition_one_record, records_are_definitions,
};
pub use crate::index_laws::{
    indexes_give_what_has_the_key, keys_hold_all_that_is_known, known_values_are_sought_by_cell,
};
pub use crate::intent::{
    IntentAtom, IntentAtomModel, IntentFact, IntentFactModel, IntentModel, IntentNamespaces,
    IntentOperation, IntentOperationModel, IntentPrecondition, PreconditionModel, QueuedIntent,
    TempEntity, clone_optional_fact, handle_is, handles_never_alias, stays_clear,
};
pub use crate::intent_codec::{
    atom32_stands, decode_queued_intent, encode_queued_intent, fact32_stands, intent_stands,
};
pub use crate::intent_laws::{
    acceptance_needs_every_precondition, intents_mean_their_operations,
    mixed_outcomes_mean_what_they_say, outcomes_mean_what_they_say,
};
pub use crate::journal::{
    AdmissionEpochOpenError, EntryModel, JOURNAL_HEADER_LEN, JOURNAL_VERSION, MAX_EPOCH_BYTES,
    OpenErrorModel, RecoveredJournal, decode_epoch_payload, encode_epoch, encode_journal_header,
    epoch_append_extends_journal, epoch_payload_reads, epoch_stands, journal_header_stands,
    journal_passes, recover_journal, torn_epoch_keeps_journal, written_journal_reads_back,
};
pub use crate::journal_laws::{
    damaged_epochs_fail_closed, journals_are_framed, only_torn_epochs_are_cut,
};
pub use crate::kernel::{
    Definition, DefinitionModel, Kernel, KernelModel, active_fact_is_newest, applied_keeps_order,
    define_then_resolve, forget_reveals_previous, forget_undoes_define, newest_bounds, newest_is,
    refusal_persists, replayed_concat, replayed_keeps_order,
};
pub use crate::lift_laws::{
    entries_stand_for_atoms, expectations_have_no_temporaries, instructions_add_what_they_say,
    last_names_count, streams_are_read_in_order,
};
pub use crate::log_format::{
    FILE_HEADER_LEN, FILE_VERSION, FRAME_PREFIX_LEN, FRAME_TRAILER_LEN, MAX_FRAME_BYTES,
    RecordModel, Wording, decode_file, eight_at, encode_header, encode_record, four_at,
    frame_payload, frame_with, history_tail, inspect_file, validate_append,
};
pub use crate::log_laws::{
    append_extends_history, complete_log_reads_back, damaged_records_fail_closed, framed_length,
    framed_parts, framed_prefix, header_stands, log_bytes_injective, only_torn_records_are_cut,
    piece_of_prefix, read_log_is_canonical, readers_agree, record_stands, torn_append_keeps_history,
    torn_record_is_incomplete, written_log_reads_back,
};
pub use crate::machine_laws::{
    machines_plan_as_worlds_do, machines_refuse_by_frame, machines_refuse_by_intent,
    machines_refuse_large_entities, meanings_depend_on_the_machine, programs_start_empty,
    steps_add_up,
};
pub use crate::materializer::{
    VmEpochMaterializer, empty_collapse, planned_is_unopposed, room_shrinks, unopposed_settles,
    versions_count_frames, vm_epoch_fault_stays,
};
pub use crate::mixed::{
    ControllerIntent, ControllerIntentModel, MixedModel, MixedOutcomeModel, MixedPlanModel,
    SemanticRejectionModel, SemanticTicketRejection, describe_vm_fault, mixed_chain_facts,
    mixed_epoch_versions, mixed_extended_facts, mixed_ignores_later_verdicts, mixed_plan_replays,
    mixed_planned_end, mixed_planned_facts, mixed_planned_start, mixed_planned_step,
    mixed_steps_monotone, queued_settled_facts, semantic_settled_facts,
};
pub use crate::mixed_laws::{
    accepted_mixed_intents_pass_every_rule, later_mixed_intents_change_nothing_earlier,
    symbols_stand_for_their_last_allocation, synthesis_takes_every_operation,
    unlowered_transactions_are_judged_first,
};
pub use crate::mixed_plan::{
    AcceptedSemanticIntent, MixedEpochOutcome, MixedEpochPlan, RejectedSemanticIntent,
    nothing_accepted,
};
pub use crate::ordered::{
    Rank, ascending_by_steps, ascending_is_distinct, before_asymmetric, before_irreflexive,
    before_total, before_transitive, find_name, insert_name, rank,
};
pub use crate::payload::{
    MAX_OPERATIONS_PER_FRAME, PayloadFault, PayloadFaultModel, atom_stands, byte_stands,
    decode_payload, fact_stands, operation_stands, operations_stand, payload_parses, text_stands,
};
pub use crate::pipeline_laws::{
    claims_take_the_front, settled_epochs_are_counted, worlds_are_published_with_their_frames,
};
pub use crate::plan::{
    AcceptedIntent, EpochOutcome, EpochPlan, RejectedIntent, derive_epoch, derive_epoch_world,
    first_fault_stays, outcome_shapes, unknown_handle_stays,
};
pub use crate::plan_laws::{
    CommitState, candidates_decide_the_plan, commits_are_determined,
    equal_commits_have_equal_histories, one_frame_is_the_same_epoch, plans_are_strict_commits,
    rejected_epochs_leave_no_trace, reopening_gives_the_world,
};
pub use crate::plan_model::{
    IntentRejection, OutcomeModel, PlanModel, RejectionModel, ResolvedModel,
    accepted_share_the_epoch_world, all_rejected_keeps_base, chained_ignores_later_verdicts,
    chained_replays, chained_room, collapsed_plan_replays, extended_facts, no_frames_keep_base,
    outcomes_follow_intents, plan_replays, planned_end, planned_facts, planned_start, planned_step,
    proposals_always_apply, rejection_consumes_nothing, resolved_applies, total_steps_monotone,
};
pub use crate::query::{
    ActiveFacts, QueryResult, QueryRow, answer_rank_flips, known_atom, known_predicate,
    query_source, unified_is_ok, unify_pattern,
};
pub use crate::query_laws::{
    active_facts_offer, every_answer_is_true, every_truth_is_answered, satisfied_stays,
    unification_is_exact,
};
pub use crate::query_limits::{
    limited_rows_are_counted, limits_keep_the_first_answers, picks_add, row_count, walk_adds,
};
pub use crate::query_match::{
    answers_bind_the_variables, equal_facts_have_equal_answers, optimizing_keeps_answers,
    values_determine_bindings,
};
pub use crate::query_model::{
    AnswerModel, Binding, BoundModel, BoundValue, BoundVariable, BoundVariableModel, FactSource,
    Pattern, PatternModel, PredicateTerm, PredicateTermModel, QueryMetrics, QueryOptions, Term,
    TermModel, WalkModel, bound_facts, bound_is, fewest_in_range, place_facts, with_value_facts,
};
pub use crate::query_row_laws::{
    distinct_keeps_first_answers, each_answer_names_its_facts, fewest_is_least_and_first,
    first_differences_decide, rows_are_the_kept_answers,
};
pub use crate::query_same::{
    equal_sources_answer_equally, equal_worlds_answer_equally, order_of_answers_is_unique,
    ranked_rows,
};
pub use crate::query_walk_laws::{
    candidates_are_those_that_agree, every_way_is_answered, first_paths_follow_the_patterns,
    single_patterns_are_counted,
};
pub use crate::queued_controller::{
    ControllerStep, NextStep, QueuedIntentController, QueuedModel, TicketResolution,
    acceptances_bound, barriers_wait_for_the_batch, first_come_first_claimed, steps_keep_order,
};
pub use crate::recovery_laws::{
    durable_commits_stay_in_step, durable_restarts_recover_the_world,
    snapshots_recover_what_the_journal_gives,
};
pub use crate::rejection::{DurableTicketRejection, TicketRejection, TicketRejectionModel};
pub use crate::restore_laws::{
    meanings_are_plans, names_ascend_by_bytes, new_namespaces_are_fresh,
    recovered_epochs_are_counted, restorable_snapshots_are_numbered,
    restored_definitions_are_the_records, snapshot_worlds_are_named,
};
pub use crate::ring::{
    Completion, FSYNC_USER_DATA, FailedCommit, IoUringCommitStoreError, IoUringEpochStrategy,
    RING_ENTRIES, RingErrorModel, WRITE_USER_DATA, check_ring_entries, check_submission,
    judge_commit, plan_contiguous, plan_vectored, prepare_ring_record, submission_length,
};
pub use crate::rows::{
    decode_indexes, decode_records, decode_u32s, encode_indexes, encode_records, encode_u32s,
    entries_read_back, numbers_read_back, put_words, records_read_back, rows_length, rows_push,
    rows_stand_in, words_stand,
};
pub use crate::semantic::{
    AtomRef, AtomRefModel, LoweredModel, SemanticBindings, SemanticIntent, SemanticStep, StepModel,
    TransactionAST, TransactionOp, TransactionOpModel, collect_operations, guarded_is_replay,
    lower_transaction, lowered_facts, lowering_fault_stays,
};
pub use crate::semantic_laws::{
    guards_are_tested_in_place, lowering_agrees_with_synthesis,
    semantic_outcomes_mean_what_they_say, step_operations_are_the_operations,
    transactions_mean_their_operations, transactions_mean_their_steps,
};
pub use crate::snapshot_checks::{
    headers_say_what_snapshots_hold, opened_snapshots_are_whole, rows_stand_in_place,
    sections_lie_apart, snapshot_indexes_are_sorted, snapshot_names_ascend,
    snapshot_records_are_in_range, tables_are_read_whole,
};
pub use crate::snapshot_format::{
    MAX_SNAPSHOT_BYTES, SnapshotModel, faultless_index, faultless_records, faultless_section,
    first_section_fault_stays, index_fault_stays, record_fault_stays,
};
pub use crate::snapshot_laws::{
    image_has_no_fault, snapshot_keeps_world, written_snapshot_reads_back,
};
pub use crate::snapshot_open::MmapVmSnapshot;
pub use crate::snapshot_query::{CandidateSpec, IndexKey, Resolved, candidate_spec};
pub use crate::snapshot_query_laws::{
    snapshot_answers_as_kernel, snapshot_finds_what_the_kernel_finds,
};
pub use crate::snapshot_world::{
    restored_is_unique, snapshot_numbers_definitions, snapshot_restores_kernel,
    snapshot_restores_world, snapshots_are_restorable,
};
pub use crate::snapshot_write::{
    MmapSnapshotMetadata, ascending_is_unique, create_snapshot, file_length,
    image_tables_are_unique, snapshot_size_is_unique,
};
pub use crate::speculative::{
    PreparedBatch, SettledBatch, UnplannedBatch, begun_epoch_is_appended, clone_intents,
    derive_prepared_batch, intents_fit,
};
pub use crate::staging::{
    CommandModel, ControllerCommand, SealedBatch, StagedIntent, StagedModel, batch_fits,
    split_batch, waiting_bound, waiting_push, waiting_remove_first,
};
pub use crate::store_laws::{
    appends_are_all_or_nothing, buffers_hold_their_records, commits_need_both_completions,
    completions_are_found, counts_add_up, epochs_are_taken_whole, linear_histories_have_no_gaps,
    opened_files_are_sound, opened_logs_are_whole, prepared_epochs_hold_their_records,
    repairs_are_verified, synchronizations_follow_the_policy, transports_are_added,
    vectors_are_limited,
};
pub use crate::stream::{
    DictionaryModel, InstructionStreamFrame, LiteralEntry, NameModel, PredicateEntry,
    SEMANTIC_ISA_VERSION_1, SlotEntry, StreamDictionary, StreamModel,
    decode_instruction_stream_frame, encode_instruction_stream_frame, opcodes_are_numbered,
    written_stream_reads_back,
};
pub use crate::stream_intents::{
    LiftModel, StackModel, instruction_stays, lift_fault_stays, lift_run_concat, token_stays,
};
pub use crate::stream_laws::{
    cells_count_from_their_base, instructions_are_numbered, instructions_do_one_thing,
    programs_run_in_order, read_streams_are_exact,
};
pub use crate::stream_lift::streamed_intent_reads_back;
pub use crate::string_table::{
    encode_string_table, parse_string_table, table_reads_back, taken_table_ascends,
};
pub use crate::symbols::synthesize;
pub use crate::text::{joined, labelled, push_decimal, push_hex};
pub use crate::text_laws::{
    append_faults_say_what_does_not_fit, candidate_errors_name_both_values,
    commit_errors_name_their_cause, facts_are_shown_in_order, identities_read_apart,
    refusals_name_both_values, store_errors_name_their_cause,
};
pub use crate::tickets::{
    ControllerConfigError, ControllerStopped, DurableControllerConfigError,
    DurableControllerOpenError, DurableControllerState, DurableControllerStopped,
    DurableOutcomeModel, DurableShutdownReport, DurableSubmitError, DurableTicketLifecycle,
    DurableTicketOutcome, DurableTicketPhase, DurableTicketState, DurableTicketStopReason,
    DurableTicketWaitError, StopReasonModel, SubmitError, TicketLifecycle, TicketOutcome,
    TicketOutcomeModel, TicketPhase, TicketState, TicketWaitError,
};
pub use crate::vm::{
    FactRecord, Instruction, NONE, Opcode, RecordKind, RunModel, Triple, VM_CELL_LIMIT,
    VM_DISPLACED_BASE, VM_LITERAL_BASE, VmFault, VmModel, Workspace, effects_grow, effects_join,
    record_keeps_arena, visible_is_stable, vm_fault_stays, vm_run_concat,
};
pub use crate::vocabulary::{
    VocabularyModel, mirrors_allocate, mirrors_define, mirrors_empty, mirrors_forget,
    mirrors_learned, mirrors_resolves, token_facts, token_is, with_name_facts,
};
pub use crate::wire::{
    concat_assoc, concat_stands, fixed_u32, fixed_u64, le32_facts, le32_stands, le64_facts,
    le64_stands, put_byte, put_bytes, put_u32, put_u64, stands_at_split, utf8_round_trip,
    whole_stands,
};
pub use crate::wording::push_signed;
pub use crate::worker_laws::{commands_come_last, oldest_epochs_leave, worker_steps_lose_nothing};
pub use crate::world::{
    CandidateModel, CandidateWorld, Transaction, TransactionModel, World, WorldModel,
    broken_history_stays_broken, display_slot, entity_name, prefix_reconstructs,
    publishing_is_replaying, reconstructed_facts, symbol_slot, total_operations_monotone,
};
pub use crate::world_laws::{
    active_definitions_are_the_last, candidates_stand_on_their_base, histories_are_chains,
    histories_fail_at_their_first_break, operations_stack_definitions, refused_frames_say_why,
    replays_number_in_order, same_operations_up_to, shown_names_follow_their_slot,
    symbols_have_their_slot, verdicts_are_of_every_rule,
};
