use forthdb_world::{
    decode_instruction_stream_frame, encode_instruction_stream_frame, Atom, EntityId, Fact,
    Instruction, InstructionStreamFrame, IntentFact, Literal, LiteralEntry, Opcode, Predicate,
    PredicateEntry, QueuedIntent, SlotEntry, SlotId, StreamDictionary, SEMANTIC_ISA_VERSION_1,
};

#[test]
fn roundtrip_instruction_stream_frame() {
    let mut dict = StreamDictionary::new();
    dict.slots.push(SlotEntry { token: 1, slot: SlotId::new("user/name") });
    dict.predicates.push(PredicateEntry { cell: 10, predicate: Predicate::new("name") });
    dict.literals.push(LiteralEntry { cell: 100, literal: Literal::new("Alice") });

    let insts = vec![Instruction::push(5), Instruction::define(1)];

    let frame = InstructionStreamFrame::new(42, dict, 2, insts);

    let mut encoded = Vec::new();
    encode_instruction_stream_frame(&frame, &mut encoded);

    let (decoded, end) = decode_instruction_stream_frame(&encoded, 0).unwrap();

    assert_eq!(decoded.version, frame.version);
    assert_eq!(decoded.namespace, frame.namespace);
    assert_eq!(decoded.local_count, frame.local_count);
    assert_eq!(decoded.instructions(), frame.instructions());
    assert_eq!(end, encoded.len());
    assert_eq!(decoded.version, SEMANTIC_ISA_VERSION_1);
    assert_eq!(decoded.dictionary.slot(1), Some(&SlotId::new("user/name")));
    assert_eq!(decoded.dictionary.predicate(10), Some(&Predicate::new("name")));
    assert_eq!(decoded.dictionary.literal(100), Some(&Literal::new("Alice")));
    assert_eq!(decoded.dictionary.slot(2), None);
}

#[test]
fn every_cut_of_a_stream_is_refused() {
    let frame = InstructionStreamFrame::new(
        7,
        StreamDictionary::new(),
        0,
        vec![Instruction::allocate_discard()],
    );
    let mut encoded = Vec::new();
    encode_instruction_stream_frame(&frame, &mut encoded);
    for cut in 0..encoded.len() {
        assert!(decode_instruction_stream_frame(&encoded[..cut], 0).is_err());
    }
    let mut wrong = encoded.clone();
    wrong[0] ^= 0xff;
    assert!(decode_instruction_stream_frame(&wrong, 0).is_err());
}

#[test]
fn names_that_are_not_text_are_refused() {
    let mut dict = StreamDictionary::new();
    dict.slots.push(SlotEntry { token: 1, slot: SlotId::new("user/name") });
    let frame = InstructionStreamFrame::new(1, dict, 0, Vec::new());
    let mut encoded = Vec::new();
    encode_instruction_stream_frame(&frame, &mut encoded);
    let at = encoded
        .windows(9)
        .position(|window| window == b"user/name")
        .expect("the name is in the stream");
    encoded[at] = 0xff;
    assert!(decode_instruction_stream_frame(&encoded, 0).is_err());
}

#[test]
fn opcodes_keep_their_numbers() {
    for byte in 0..=8u8 {
        assert_eq!(Opcode::from_u8(byte).expect("known").to_u8(), byte);
    }
    assert!(Opcode::from_u8(9).is_err());
}

#[test]
fn intents_travel_as_streams() {
    let mut intent = QueuedIntent::new(77);
    let kept = Fact::new(
        Atom::Entity(EntityId::new(5)),
        Predicate::new("state"),
        Atom::Literal(Literal::new("ready")),
    );
    intent.expect_absent(SlotId::new("fresh"));
    intent.expect_value(SlotId::new("kept"), kept.clone());
    let entity = intent.entity();
    intent.define(
        SlotId::new("fresh"),
        IntentFact::new(entity, Predicate::new("name"), Literal::new("Ada")),
    );
    intent.define_fact(SlotId::new("kept"), kept);
    intent.forget(SlotId::new("old"));

    let stream = intent.compile_to_stream_frame();
    let mut bytes = Vec::new();
    encode_instruction_stream_frame(&stream, &mut bytes);
    let (decoded, _) = decode_instruction_stream_frame(&bytes, 0).expect("stream decodes");
    let lifted = QueuedIntent::from_stream_frame(&decoded).expect("stream is an intent");
    assert_eq!(lifted.namespace(), 77);
    assert_eq!(lifted.operation_count(), intent.operation_count());
    let again = lifted.compile_to_stream_frame();
    assert_eq!(again.instructions(), stream.instructions());
}
