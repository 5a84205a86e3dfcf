use pipestream::work_set::{
    decode, encode, seal_digest, session_of, ProtocolCode, ProtocolError, Session, Standing,
    WorkSetFrame, ACK, FRAME_WORK_SET, MAX_BATCH, SEAL,
};

const MAX_ENTITY_ID: u32 = 0xffff_fffe;

/// Frames of this suite's own making, encoded apart from the library: a name, whether they are valid,
/// the octets.
const FRAMES: &[(&str, &str, &str)] = &[
    ("root-open", "valid", "830000005ba665666c616773006873636f70652d6964006873657175656e6365006a656e746974792d6964738201026a73657373696f6e2d6964687365616c65642d316b70726f64756365722d69645001010101010101010101010101010101"),
    ("root-seal", "valid", "8300000089a765666c616773026873636f70652d6964006873657175656e6365006a656e746974792d6964738201026a73657373696f6e2d6964687365616c65642d316b70726f64756365722d696450010101010101010101010101010101016b7365616c2d6469676573745820f50a638f29d19d57fa224adf5b61cc7d2b5c3f03d0a4eaffe225d683ad4d2c04"),
    ("root-seal-ack", "valid", "8300000089a765666c616773036873636f70652d6964006873657175656e6365006a656e746974792d6964738201026a73657373696f6e2d6964687365616c65642d316b70726f64756365722d696450010101010101010101010101010101016b7365616c2d6469676573745820f50a638f29d19d57fa224adf5b61cc7d2b5c3f03d0a4eaffe225d683ad4d2c04"),
    ("child", "valid", "8300000077a865666c616773006873636f70652d6964036873657175656e63650769706172656e742d6964016a656e746974792d6964738201026a73657373696f6e2d6964687365616c65642d316b70726f64756365722d696450010101010101010101010101010101016f706172656e742d73636f70652d696400"),
    ("empty-seal", "valid", "8300000087a765666c616773026873636f70652d6964006873657175656e6365006a656e746974792d696473806a73657373696f6e2d6964687365616c65642d316b70726f64756365722d696450010101010101010101010101010101016b7365616c2d64696765737458204d7a1f02da28da5289ec9ccb6439e703b5ce15a187617e15d5e2487690a7ab2b"),
    ("large-numbers", "valid", "830000006ca665666c616773006873636f70652d6964006873657175656e63651b80000000000000006a656e746974792d69647383011a000111701aee6b28006a73657373696f6e2d6964687365616c65642d316b70726f64756365722d69645001010101010101010101010101010101"),
    ("zero-producer", "invalid", "830000005ba665666c616773006873636f70652d6964006873657175656e6365006a656e746974792d6964738201026a73657373696f6e2d6964687365616c65642d316b70726f64756365722d69645000000000000000000000000000000000"),
    ("short-producer", "invalid", "830000005aa665666c616773006873636f70652d6964006873657175656e6365006a656e746974792d6964738201026a73657373696f6e2d6964687365616c65642d316b70726f64756365722d69644f010101010101010101010101010101"),
    ("flags-four", "invalid", "830000005ba665666c616773046873636f70652d6964006873657175656e6365006a656e746974792d6964738201026a73657373696f6e2d6964687365616c65642d316b70726f64756365722d69645001010101010101010101010101010101"),
    ("seal-without-digest", "invalid", "830000005ba665666c616773026873636f70652d6964006873657175656e6365006a656e746974792d6964738201026a73657373696f6e2d6964687365616c65642d316b70726f64756365722d69645001010101010101010101010101010101"),
    ("digest-without-seal", "invalid", "8300000089a765666c616773006873636f70652d6964006873657175656e6365006a656e746974792d6964738201026a73657373696f6e2d6964687365616c65642d316b70726f64756365722d696450010101010101010101010101010101016b7365616c2d6469676573745820f50a638f29d19d57fa224adf5b61cc7d2b5c3f03d0a4eaffe225d683ad4d2c04"),
    ("zero-id", "invalid", "830000005ba665666c616773006873636f70652d6964006873657175656e6365006a656e746974792d6964738200016a73657373696f6e2d6964687365616c65642d316b70726f64756365722d69645001010101010101010101010101010101"),
    ("descending-ids", "invalid", "830000005ba665666c616773006873636f70652d6964006873657175656e6365006a656e746974792d6964738202016a73657373696f6e2d6964687365616c65642d316b70726f64756365722d69645001010101010101010101010101010101"),
    ("repeated-id", "invalid", "830000005ba665666c616773006873636f70652d6964006873657175656e6365006a656e746974792d6964738201016a73657373696f6e2d6964687365616c65642d316b70726f64756365722d69645001010101010101010101010101010101"),
    ("empty-open", "invalid", "8300000059a665666c616773006873636f70652d6964006873657175656e6365006a656e746974792d696473806a73657373696f6e2d6964687365616c65642d316b70726f64756365722d69645001010101010101010101010101010101"),
    ("root-with-parent", "invalid", "8300000077a865666c616773006873636f70652d6964006873657175656e63650069706172656e742d6964016a656e746974792d6964738201026a73657373696f6e2d6964687365616c65642d316b70726f64756365722d696450010101010101010101010101010101016f706172656e742d73636f70652d696400"),
    ("child-without-parent", "invalid", "830000005ba665666c616773006873636f70652d6964036873657175656e6365006a656e746974792d6964738201026a73657373696f6e2d6964687365616c65642d316b70726f64756365722d69645001010101010101010101010101010101"),
    ("missing-session", "invalid", "8300000047a565666c616773006873636f70652d6964006873657175656e6365006a656e746974792d6964738201026b70726f64756365722d69645001010101010101010101010101010101"),
    ("unknown-key", "invalid", "8300000071a765666c616773006873636f70652d6964006873657175656e6365006a656e746974792d6964738201026a73657373696f6e2d6964687365616c65642d316b70726f64756365722d69645001010101010101010101010101010101747a7a7a7a7a7a7a7a7a7a7a7a7a7a7a7a7a7a7a7a01"),
    ("unordered-keys", "invalid", "830000005ba66b70726f64756365722d696450010101010101010101010101010101016a73657373696f6e2d6964687365616c65642d316a656e746974792d6964738201026873657175656e6365006873636f70652d69640065666c61677300"),
];

fn frame(ids: &[u32], sequence: u64, sealed_ids: Option<&[u32]>) -> WorkSetFrame {
    WorkSetFrame {
        session_id: "sealed-1".into(),
        producer_id: [1; 16],
        scope_id: 0,
        parent: None,
        sequence,
        entity_ids: ids.to_vec(),
        flags: if sealed_ids.is_some() { SEAL } else { 0 },
        seal_digest: sealed_ids
            .map(|all| seal_digest("sealed-1", &[1; 16], 0, None, &all.to_vec())),
    }
}

fn session() -> Session {
    Session::new_sealed("sealed-1".into(), [1; 16], 7, 1024, MAX_ENTITY_ID, None).unwrap()
}

fn declare(s: &mut Session, frame: &WorkSetFrame) -> Result<WorkSetFrame, ProtocolError> {
    s.declare_work(frame, None, None)
}

fn key(entity_id: u32) -> pipestream::work_set::EntityKey {
    pipestream::work_set::EntityKey { scope_id: 0, entity_id }
}

#[test]
fn immutable_seal_and_replay_survive_wal_reopen() {
    let declaration = frame(&[1, 2], 0, Some(&[1, 2]));
    let mut stored = session();
    let ack = declare(&mut stored, &declaration).unwrap();
    let mut reopened = stored.clone();
    assert_eq!(declare(&mut reopened, &declaration).unwrap(), ack);
    let before = reopened.clone();
    assert!(declare(&mut reopened, &frame(&[3], 1, None)).is_err());
    assert_eq!(reopened, before);
    assert_eq!(
        before.work_sets.unwrap().scopes[0].seal_digest,
        declaration.seal_digest
    );
}

#[test]
fn bad_seals_identity_sequence_and_limits_leave_state_unchanged() {
    let mut s = session();
    declare(&mut s, &frame(&[1], 0, None)).unwrap();
    let before = s.clone();
    let mut invalid = frame(&[2], 1, Some(&[1, 2]));
    invalid.seal_digest = Some([0; 32]);
    assert_eq!(
        declare(&mut s, &invalid).unwrap_err().code,
        ProtocolCode::Integrity
    );
    let mut invalid = frame(&[2], 1, None);
    invalid.producer_id = [2; 16];
    assert_eq!(
        declare(&mut s, &invalid).unwrap_err().code,
        ProtocolCode::Entity
    );
    invalid.producer_id = [1; 16];
    invalid.session_id = "different-session".into();
    assert_eq!(
        declare(&mut s, &invalid).unwrap_err().code,
        ProtocolCode::Entity
    );
    assert!(declare(&mut s, &frame(&[2], 0, None)).is_err());
    assert!(declare(&mut s, &frame(&[2], 2, None)).is_err());
    assert!(declare(&mut s, &frame(&[1], 1, None)).is_err());
    assert!(s.work_admission(key(2), None).is_err());
    assert_eq!(s, before);
    s.max_entities_per_scope = 1;
    assert_eq!(
        declare(&mut s, &frame(&[2], 1, None)).unwrap_err().code,
        ProtocolCode::Limit
    );
}

#[test]
fn wire_roundtrip_is_deterministic_and_bounded() {
    let mut f = frame(&[1, 2], 0, Some(&[1, 2]));
    let bytes = encode(&f, MAX_ENTITY_ID, None).unwrap();
    assert_eq!(bytes[0], FRAME_WORK_SET);
    assert_eq!(bytes[1..5], ((bytes.len() - 5) as u32).to_be_bytes());
    assert_eq!(decode(&bytes[5..], MAX_ENTITY_ID, None).unwrap(), f);
    f.flags |= ACK;
    assert_eq!(
        decode(&encode(&f, MAX_ENTITY_ID, None).unwrap()[5..], MAX_ENTITY_ID, None).unwrap(),
        f
    );
    f.entity_ids = vec![1; MAX_BATCH + 1];
    assert!(encode(&f, MAX_ENTITY_ID, None).is_err());
}

#[test]
fn declaration_batches_do_not_change_the_seal() {
    let ids: Vec<u32> = (1..=1024).collect();
    let mut s = session();
    for (seq, batch) in ids.chunks(MAX_BATCH).enumerate() {
        declare(&mut s, &frame(batch, seq as u64, None)).unwrap();
    }
    let seal = frame(&[], 4, Some(&ids));
    declare(&mut s, &seal).unwrap();
    assert_eq!(s.work_sets.unwrap().scopes[0].ids.len(), 1024);
}

#[test]
fn frozen_wire_and_independent_seal_vectors() {
    let mut count = 0;
    for row in FRAMES {
        let bytes: Vec<u8> = row
            .2
            .as_bytes()
            .chunks_exact(2)
            .map(|pair| u8::from_str_radix(std::str::from_utf8(pair).unwrap(), 16).unwrap())
            .collect();
        assert_eq!(bytes[0], FRAME_WORK_SET);
        let result = decode(&bytes[5..], MAX_ENTITY_ID, None);
        match row.1 {
            "valid" => {
                let decoded = result.unwrap_or_else(|error| panic!("{}: {error:?}", row.0));
                assert_eq!(encode(&decoded, MAX_ENTITY_ID, None).unwrap(), bytes, "{}", row.0);
                assert_eq!(session_of(&bytes[5..]).unwrap(), "sealed-1");
                if row.0 == "empty-seal" {
                    assert_eq!(
                        seal_digest("sealed-1", &[1; 16], 0, None, &vec![]),
                        decoded.seal_digest.unwrap()
                    );
                }
                if row.0 == "root-seal" {
                    assert_eq!(
                        seal_digest("sealed-1", &[1; 16], 0, None, &vec![1, 2]),
                        decoded.seal_digest.unwrap()
                    );
                }
            }
            "invalid" => assert_eq!(result.unwrap_err().code, ProtocolCode::Frame, "{}", row.0),
            _ => panic!("unknown fixture expectation"),
        }
        count += 1;
    }
    assert_eq!(count, 20);
}

#[test]
fn sealed_declarations_cannot_convert_a_legacy_session() {
    let mut legacy = session();
    legacy.work_sets = None;
    let before = legacy.clone();
    assert_eq!(
        declare(&mut legacy, &frame(&[1], 0, Some(&[1]))).unwrap_err().code,
        ProtocolCode::Entity
    );
    assert_eq!(legacy, before);
}

#[test]
fn sealed_scope_waits_for_its_seal_and_every_member() {
    let mut s = session();
    declare(&mut s, &frame(&[1, MAX_ENTITY_ID], 0, None)).unwrap();
    assert!(s.work_admission(key(1), None).is_ok());
    assert!(!s.work_scope_ready(0, &vec![1, MAX_ENTITY_ID]));
    declare(&mut s, &frame(&[], 1, Some(&[1, MAX_ENTITY_ID]))).unwrap();
    assert!(!s.work_scope_ready(0, &vec![1]));
    assert!(s.work_scope_ready(0, &vec![1, MAX_ENTITY_ID]));
}

#[test]
fn producer_identifier_must_not_be_zero() {
    assert_eq!(
        Session::new_sealed("sealed-1".into(), [0; 16], 7, 1024, MAX_ENTITY_ID, None)
            .unwrap_err()
            .code,
        ProtocolCode::Entity
    );
}

#[test]
fn scope_that_cannot_be_opened_is_refused_unchanged() {
    let mut s = session();
    declare(&mut s, &frame(&[1], 0, None)).unwrap();
    let mut child = frame(&[1], 0, None);
    child.scope_id = 3;
    child.parent = Some(key(1));
    assert!(s.opens_scope(&child));
    let before = s.clone();
    let refusal = ProtocolError { code: ProtocolCode::Limit, detail: "depth" };
    assert_eq!(s.declare_work(&child, None, Some(refusal)).unwrap_err().code, ProtocolCode::Limit);
    assert_eq!(s, before);
    declare(&mut s, &child).unwrap();
    assert!(!s.opens_scope(&child));
}

#[test]
fn refused_session_identifier_is_refused_everywhere_with_its_code() {
    let refusal = ProtocolError { code: ProtocolCode::Entity, detail: "session id" };
    let good = frame(&[1], 0, None);
    let bytes = encode(&good, MAX_ENTITY_ID, None).unwrap();
    assert_eq!(
        encode(&good, MAX_ENTITY_ID, Some(refusal)).unwrap_err().code,
        ProtocolCode::Entity
    );
    assert_eq!(
        decode(&bytes[5..], MAX_ENTITY_ID, Some(refusal)).unwrap_err().code,
        ProtocolCode::Entity
    );
    assert_eq!(
        decode(&bytes[6..], MAX_ENTITY_ID, Some(refusal)).unwrap_err().code,
        ProtocolCode::Frame
    );
    assert_eq!(session_of(&bytes[6..]), None);
    let mut s = session();
    let before = s.clone();
    assert_eq!(
        s.declare_work(&good, Some(refusal), None).unwrap_err().code,
        ProtocolCode::Entity
    );
    assert_eq!(s, before);
    let made = Session::new_sealed("".into(), [1; 16], 7, 1024, MAX_ENTITY_ID, Some(refusal));
    assert_eq!(made.unwrap_err(), refusal);
}

#[test]
fn identifiers_of_an_acknowledged_frame_stay_declared() {
    let mut s = session();
    declare(&mut s, &frame(&[1, 5], 0, None)).unwrap();
    declare(&mut s, &frame(&[9], 1, None)).unwrap();
    assert!(declare(&mut s, &frame(&[3], 2, None)).is_err());
    for id in [1, 5, 9] {
        s.work_admission(key(id), None).unwrap();
    }
    let scopes = s.work_sets.unwrap().scopes;
    assert_eq!((scopes.len(), &scopes[0].ids), (1, &vec![1, 5, 9]));
}

fn texts(name: &str) -> &'static str {
    let (_, _, hex) = FRAMES.iter().find(|(n, _, _)| *n == name).unwrap();
    let bytes: Vec<u8> = (0..hex.len())
        .step_by(2)
        .map(|i| u8::from_str_radix(&hex[i..i + 2], 16).unwrap())
        .collect();
    decode(&bytes[5..], MAX_ENTITY_ID, None).unwrap_err().detail
}

/// A body with one member.
fn single(name: &str, value: &[u8]) -> Vec<u8> {
    let mut body = vec![0xa1, 0x60 + name.len() as u8];
    body.extend_from_slice(name.as_bytes());
    body.extend_from_slice(value);
    body
}

#[test]
fn what_is_wrong_with_a_body_is_said_of_its_first_wrong_member() {
    assert_eq!(texts("short-producer"), "producer-id must be 16 octets");
    assert_eq!(texts("missing-session"), "missing WORK_SET member");
    assert_eq!(texts("unknown-key"), "unknown WORK_SET member");
    assert_eq!(texts("zero-id"), "invalid WORK_SET fields");
    assert_eq!(texts("root-with-parent"), "invalid WORK_SET fields");
    assert_eq!(texts("unordered-keys"), "malformed WORK_SET body");
    let text = |body: &[u8]| {
        let e = decode(body, MAX_ENTITY_ID, None).unwrap_err();
        assert_eq!(e.code, ProtocolCode::Frame);
        e.detail
    };
    assert_eq!(text(&[]), "malformed WORK_SET body");
    assert_eq!(text(&[0x80]), "malformed WORK_SET body");
    assert_eq!(text(&[0xbf, 0xff]), "indefinite WORK_SET");
    assert_eq!(text(&[0xa0]), "missing WORK_SET member");
    assert_eq!(text(&single("seal-digest", &[0x41, 1])), "seal-digest must be 32 octets");
    assert_eq!(text(&single("entity-ids", &[0x99, 1, 1])), "invalid declaration batch size");
    assert_eq!(text(&single("entity-ids", &[0x9f, 0xff])), "invalid declaration batch size");
    assert_eq!(text(&single("entity-ids", &[0x81, 0x60])), "malformed WORK_SET body");
    assert_eq!(text(&single("entity-ids", &[0x81, 1])), "missing WORK_SET member");
    assert_eq!(text(&single("parent-id", &[1])), "incomplete WORK_SET parent identity");
    assert_eq!(text(&single("flags", &[0x19, 1, 0])), "malformed WORK_SET body");
    assert_eq!(text(&single("flags", &[0x18, 0xff])), "missing WORK_SET member");
    assert_eq!(text(&single("session-id", &[0x61, 0xff])), "malformed WORK_SET body");
}

#[test]
fn declaration_is_examined_without_being_taken_in() {
    let mut s = session();
    let first = frame(&[1], 0, None);
    assert_eq!(s.examine_work(&first, None).unwrap(), Standing::Accepted);
    declare(&mut s, &first).unwrap();
    assert_eq!(s.examine_work(&first, None).unwrap(), Standing::Repeated);
    let mut child = frame(&[1], 0, None);
    child.scope_id = 3;
    child.parent = Some(key(1));
    assert_eq!(s.examine_work(&child, None).unwrap(), Standing::Opening);
    let refusal = ProtocolError { code: ProtocolCode::Entity, detail: "session id" };
    assert_eq!(s.examine_work(&child, Some(refusal)).unwrap_err(), refusal);
    child.sequence = 1;
    assert_eq!(s.examine_work(&child, None).unwrap_err().code, ProtocolCode::Entity);
    let changed = frame(&[2], 0, None);
    assert_eq!(s.examine_work(&changed, None).unwrap_err().detail, "WORK_SET sequence changed");
    assert_eq!(declare(&mut s, &changed).unwrap_err().code, ProtocolCode::Entity);
}
