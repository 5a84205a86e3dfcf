use pipestream::v2::commitments::{
    empty_status_root, scope_seal, status_node, Mutation, SessionIdentity, StatusLeaf, StatusRoot,
};
use pipestream::v2::correlation::Correlation;
use pipestream::v2::error::{
    Error, ErrorCode, INITIAL_CONTROL_LIMIT, MAX_CONTROL_LIMIT, MAX_NUMBER,
};
use pipestream::v2::labels::{Detail, Digest, IdentityLabel, OperationId};
use pipestream::v2::messages::{
    control_body_length, object_header_length, Control, Drain, ResultMessage, Session, Work,
};
use pipestream::v2::negotiation::Capabilities;
use pipestream::v2::numbers::{
    ConcurrencyLimit, Disposition, Id, IdleMs, LifetimeMs, Number, Producer, ProfileId, State,
    StreamId,
};
use pipestream::v2::records::{
    ChildScope, InputHeader, Manifest, Outcome, Refusal, RequestTag, ResultHeader, ScopeSummary,
    WorkKey,
};
use pipestream::v2::transfer::PayloadReceiver;
use pipestream::v2::uri::ResultLocator;

/// Every kind of frame and record: a name, what it is, the refusal where it is refused, the octets.
const WIRE: &[(&str, &str, &str, &str)] = &[
    ("capabilities-offer", "control", "", "010000002589008219ff0419ff058219ff0419ff051a000100001018401a001000001975301a000927c0"),
    ("capabilities-response", "control", "", "010000002589018219ff0419ff058219ff0419ff051a000100001018401a001000001975301a000927c0"),
    ("core-only-capabilities", "control", "", "01000000128900808019100004041904001903e81903e8"),
    ("session-open", "control", "", "0200000012840001018319ea601a0036ee801a006ddd00"),
    ("session-binding", "control", "", "020000003a8801016b617574686f726974792d31676f776e65722d3101018319ea601a0036ee801a006ddd0086101903e81903e81a000f42401a000f424008"),
    ("session-attach", "control", "", "02000000188502026b617574686f726974792d31676f776e65722d3101"),
    ("next-sequence", "control", "", "0200000003820303"),
    ("sequence", "control", "", "020000000483040302"),
    ("declare", "control", "", "030000001c86000450000000000000000000000000000000020083010219012cf5"),
    ("empty-seal", "control", "", "030000001786000450000000000000000000000000000000020080f5"),
    ("declaration-receipt", "control", "", "030000005f8301048350000000000000000000000000000000025820333333333333333333333333333333333333333333333333333333333333333386010000010158204444444444444444444444444444444444444444444444444444444444444444"),
    ("page", "control", "", "03000000088502050000190100"),
    ("page-response", "control", "", "03000000328a03050000f6f5582044444444444444444444444444444444444444444444444444444444444444440282820105820200f4"),
    ("page-continued", "control", "", "03000000118a0305030183000001f4f60981820105f5"),
    ("checkpoint", "control", "", "03000000298504060058204444444444444444444444444444444444444444444444444444444444444444197530"),
    ("checkpoint-response", "control", "", "0300000054830506880000f65820111111111111111111111111111111111111111111111111111111111111111101840100000058202222222222222222222222222222222222222222222222222222222222222222190bb8"),
    ("scope-cancel", "control", "", "0300000015840607500000000000000000000000000000000600"),
    ("scope-cancel-receipt", "control", "", "030000003d830707835000000000000000000000000000000006582033333333333333333333333333333333333333333333333333333333333333338304001905dc"),
    ("admission-receipt", "control", "", "0400000047830182010283500000000000000000000000000000000158203333333333333333333333333333333333333333333333333333333333333333860083000001011903e819ee48f6"),
    ("operation", "control", "", "04000000148302085000000000000000000000000000000001"),
    ("operation-response", "control", "", "040000004583030883500000000000000000000000000000000158203333333333333333333333333333333333333333333333333333333333333333860083000001011903e819ee48f6"),
    ("watch", "control", "", "040000000b85040983000001001903e8"),
    ("work-success-view", "control", "", "040000012e840509038c83000001050183035820b5d4045c3f466fa91fe2cc6abe79232a1a57cdf104f7a26e716e0a1e2789df786a746578742f706c61696e1903e819ee481907d01a006de4d01a0036f650f68a026b617574686f726974792d31676f776e65722d310183000001015820b5d4045c3f466fa91fe2cc6abe79232a1a57cdf104f7a26e716e0a1e2789df781907d01a0036f650818500035820b5d4045c3f466fa91fe2cc6abe79232a1a57cdf104f7a26e716e0a1e2789df786a746578742f706c61696e78667069706573747265616d3a2f2f70726f636573736f722e6578616d706c653a393434332f76322f73657373696f6e732f312f73636f7065732f302f70726f6475636572732f302f656e7469746965732f312f617474656d7074732f312f6f7574707574732f30f6"),
    ("work-declared-view", "control", "", "0400000014840509018c830000010000f6f6f6f6f6f6f6f6f6"),
    ("work-active-view", "control", "", "0400000046840509028c83000001010183035820b5d4045c3f466fa91fe2cc6abe79232a1a57cdf104f7a26e716e0a1e2789df786a746578742f706c61696e1903e819ee48f6f6f6f6f6f6"),
    ("work-failed-view", "control", "", "0400000052840509038c83000001060183035820b5d4045c3f466fa91fe2cc6abe79232a1a57cdf104f7a26e716e0a1e2789df786a746578742f706c61696e1903e819ee481907d01a006de4d0f6f6f6820764626f6f6d"),
    ("work-waiting-view", "control", "", "0400000048840509038c83000001030183035820b5d4045c3f466fa91fe2cc6abe79232a1a57cdf104f7a26e716e0a1e2789df786a746578742f706c61696e1903e819ee48f6f6f6820101f6f6"),
    ("work-cancelled-view", "control", "", "040000001a840509028c830000010700f6f6f61907d01a006de4d0f6f6f6f6"),
    ("retry", "control", "", "040000001985060a50000000000000000000000000000000038300000101"),
    ("retry-receipt", "control", "", "040000004283070a8350000000000000000000000000000000035820333333333333333333333333333333333333333333333333333333333333333385028300000101021905dc"),
    ("cancel", "control", "", "040000001884080b500000000000000000000000000000000483000001"),
    ("cancel-receipt", "control", "", "040000004283090b835000000000000000000000000000000004582033333333333333333333333333333333333333333333333333333333333333338503830000011905dc0007"),
    ("skip", "control", "", "0400000018840a0c500000000000000000000000000000000583000001"),
    ("skip-receipt", "control", "", "0400000042830b0c835000000000000000000000000000000005582033333333333333333333333333333333333333333333333333333333333333338505830000011905dc0008"),
    ("object-read", "control", "", "050000002b86000d8300000101005820b5d4045c3f466fa91fe2cc6abe79232a1a57cdf104f7a26e716e0a1e2789df78"),
    ("get-manifest", "control", "", "050000000884010e8300000101"),
    ("manifest-response", "control", "", "05000000e283020e8a026b617574686f726974792d31676f776e65722d310183000001015820b5d4045c3f466fa91fe2cc6abe79232a1a57cdf104f7a26e716e0a1e2789df781907d01a0036f650818500035820b5d4045c3f466fa91fe2cc6abe79232a1a57cdf104f7a26e716e0a1e2789df786a746578742f706c61696e78667069706573747265616d3a2f2f70726f636573736f722e6578616d706c653a393434332f76322f73657373696f6e732f312f73636f7065732f302f70726f6475636572732f302f656e7469746965732f312f617474656d7074732f312f6f7574707574732f30"),
    ("complete", "control", "", "060000005584000f01880000f65820111111111111111111111111111111111111111111111111111111111111111101840100000058202222222222222222222222222222222222222222222222222222222222222222190bb8"),
    ("completed", "control", "", "060000005584010f01880000f65820111111111111111111111111111111111111111111111111111111111111111101840100000058202222222222222222222222222222222222222222222222222222222222222222190bb8"),
    ("detach", "control", "", "0600000003820210"),
    ("detached", "control", "", "0600000003820310"),
    ("refusal", "control", "", "070000000d8382001005676d697373696e67"),
    ("ignorable", "control", "", "80000000020102"),
    ("input-header", "input-header", "", "000000548400015000000000000000000000000000000001868300000183035820b5d4045c3f466fa91fe2cc6abe79232a1a57cdf104f7a26e716e0a1e2789df786a746578742f706c61696e64636f70790019ea60820103"),
    ("empty-input-header", "input-header", "", "000000548400015000000000000000000000000000000001868300000183005820e3b0c44298fc1c149afbf4c8996fb92427ae41e4649b934ca495991b7852b8556a746578742f706c61696e64636f70790019ea60820000"),
    ("result-header", "result-header", "", "0000002d88010d01830000010100035820b5d4045c3f466fa91fe2cc6abe79232a1a57cdf104f7a26e716e0a1e2789df78"),
    ("result-manifest", "manifest", "", "8a026b617574686f726974792d31676f776e65722d310183000001015820b5d4045c3f466fa91fe2cc6abe79232a1a57cdf104f7a26e716e0a1e2789df781907d01a0036f650818500035820b5d4045c3f466fa91fe2cc6abe79232a1a57cdf104f7a26e716e0a1e2789df786a746578742f706c61696e78667069706573747265616d3a2f2f70726f636573736f722e6578616d706c653a393434332f76322f73657373696f6e732f312f73636f7065732f302f70726f6475636572732f302f656e7469746965732f312f617474656d7074732f312f6f7574707574732f30"),
    ("scope-summary", "summary", "", "880000f65820111111111111111111111111111111111111111111111111111111111111111101840100000058202222222222222222222222222222222222222222222222222222222222222222190bb8"),
    ("request-zero", "control", "FRAME_ERROR", "0200000003820300"),
    ("request-above-maximum", "control", "FRAME_ERROR", "020000000b82031b8000000000000000"),
    ("wrong-arity", "control", "FRAME_ERROR", "020000000483030303"),
    ("unknown-opcode", "control", "FRAME_ERROR", "0200000003820503"),
    ("duplicate-declaration", "control", "FRAME_ERROR", "0300000019860004500000000000000000000000000000000200820101f5"),
    ("empty-declaration", "control", "FRAME_ERROR", "030000001786000450000000000000000000000000000000020080f4"),
    ("zero-operation", "control", "FRAME_ERROR", "0300000015840607500000000000000000000000000000000000"),
    ("page-seal-flag", "control", "FRAME_ERROR", "030000000b8a03050000f6f5f60080f4"),
    ("root-with-parent", "control", "FRAME_ERROR", "030000000e8a0305000083000001f4f60080f4"),
    ("control-admission", "control", "FRAME_ERROR", "0400000047830182000283500000000000000000000000000000000158203333333333333333333333333333333333333333333333333333333333333333860083000001011903e819ee48f6"),
    ("wrong-receipt", "control", "FRAME_ERROR", "040000004283090b8350000000000000000000000000000000035820333333333333333333333333333333333333333333333333333333333333333385028300000101021905dc"),
    ("result-without-work", "control", "EXTENSION_UNSUPPORTED", "010000001c89008119ff05801a000100001018401a001000001975301a000927c0"),
    ("required-not-supported", "control", "FRAME_ERROR", "010000001f89008119ff048119ff051a000100001018401a001000001975301a000927c0"),
    ("private-frame", "control", "EXTENSION_UNSUPPORTED", "c100000000"),
    ("unknown-frame", "control", "FRAME_ERROR", "0800000000"),
    ("refusal-code-nineteen", "control", "FRAME_ERROR", "0700000006838200101360"),
    ("server-stream-refusal", "control", "FRAME_ERROR", "0700000006838201051260"),
    ("bad-mode", "input-header", "FRAME_ERROR", "000000548400015000000000000000000000000000000001868300000183035820b5d4045c3f466fa91fe2cc6abe79232a1a57cdf104f7a26e716e0a1e2789df786a746578742f706c61696e64636f70790319ea60820103"),
    ("wrong-header-kind", "result-header", "FRAME_ERROR", "0000002d88000d01830000010100035820b5d4045c3f466fa91fe2cc6abe79232a1a57cdf104f7a26e716e0a1e2789df78"),
    ("manifest-index-gap", "manifest", "FRAME_ERROR", "8a026b617574686f726974792d31676f776e65722d310183000001015820b5d4045c3f466fa91fe2cc6abe79232a1a57cdf104f7a26e716e0a1e2789df781907d01a0036f650818501035820b5d4045c3f466fa91fe2cc6abe79232a1a57cdf104f7a26e716e0a1e2789df786a746578742f706c61696e78667069706573747265616d3a2f2f70726f636573736f722e6578616d706c653a393434332f76322f73657373696f6e732f312f73636f7065732f302f70726f6475636572732f302f656e7469746965732f312f617474656d7074732f312f6f7574707574732f31"),
    ("manifest-expired", "manifest", "FRAME_ERROR", "8a026b617574686f726974792d31676f776e65722d310183000001015820b5d4045c3f466fa91fe2cc6abe79232a1a57cdf104f7a26e716e0a1e2789df781907d01907d0818500035820b5d4045c3f466fa91fe2cc6abe79232a1a57cdf104f7a26e716e0a1e2789df786a746578742f706c61696e78667069706573747265616d3a2f2f70726f636573736f722e6578616d706c653a393434332f76322f73657373696f6e732f312f73636f7065732f302f70726f6475636572732f302f656e7469746965732f312f617474656d7074732f312f6f7574707574732f30"),
    ("summary-count", "summary", "FRAME_ERROR", "880000f65820111111111111111111111111111111111111111111111111111111111111111102840100000058202222222222222222222222222222222222222222222222222222222222222222190bb8"),
];

/// Commitments: a name, the preimage, the digest.
const COMMITMENTS: &[(&str, &str, &str)] = &[
    ("admission-operation", "886b617574686f726974792d31676f776e65722d31010050000000000000000000000000000000010400868300000183035820b5d4045c3f466fa91fe2cc6abe79232a1a57cdf104f7a26e716e0a1e2789df786a746578742f706c61696e64636f70790019ea60820103", "48cd70d2915168ef8ed8951e255a72a96e846e8ecc790f593e4c02a9c62d5fc4"),
    ("declaration-operation", "886b617574686f726974792d31676f776e65722d3101005000000000000000000000000000000002030083008101f5", "f57c1527e75ef92f8c644760be2ef18308d52a2bd603d15fbf7cbe03fc911392"),
    ("retry-operation", "886b617574686f726974792d31676f776e65722d31010050000000000000000000000000000000030406828300000101", "686750d009aea3a3dcc7488d45c159156d4f4f852582fceed659543e17a0133a"),
    ("cancel-operation", "886b617574686f726974792d31676f776e65722d310100500000000000000000000000000000000404088183000001", "84c6d5db303b30b4114086264030c2cf1d19400e6bf5ee5bcd8db6f53a194555"),
    ("skip-operation", "886b617574686f726974792d31676f776e65722d3101005000000000000000000000000000000005040a8183000001", "403c06dd7aec1bc3ff19e01b6f06dd0019cc4e7433842e9a39e957b488f2e51a"),
    ("scope-cancel-operation", "886b617574686f726974792d31676f776e65722d310100500000000000000000000000000000000603068100", "5cdd3fb7d65b1b30aa16f58719e262413da5b6ec43fb1958e6e3c748b2f96941"),
    ("one-member-seal", "876b617574686f726974792d31676f776e65722d31010000f68101", "affdbbffb36a0f644e6e6c2779f9d081412aac0eb1c7421b0697c374efde6e9b"),
    ("empty-scope-seal", "876b617574686f726974792d31676f776e65722d31010000f680", "13d2a207e13954baf9975f74d603f61ece0f74f2fb3d0a641bdf2e2f059ea69e"),
    ("result-manifest", "8a026b617574686f726974792d31676f776e65722d310183000001015820b5d4045c3f466fa91fe2cc6abe79232a1a57cdf104f7a26e716e0a1e2789df781907d01a0036f650818500035820b5d4045c3f466fa91fe2cc6abe79232a1a57cdf104f7a26e716e0a1e2789df786a746578742f706c61696e78667069706573747265616d3a2f2f70726f636573736f722e6578616d706c653a393434332f76322f73657373696f6e732f312f73636f7065732f302f70726f6475636572732f302f656e7469746965732f312f617474656d7074732f312f6f7574707574732f30", "c1b0322f4aa1c2e175830f46728f3d63fd7fb49c312ce08140fd932aae4e4c4d"),
    ("success-status-leaf", "858300000105015820c1b0322f4aa1c2e175830f46728f3d63fd7fb49c312ce08140fd932aae4e4c4df6", "774a492cdf7d0f6c9f5611dc5867d4c94156e32d6a9d524b179d692dcb6485a2"),
    ("empty-status-root", "", "1bcf3ba5ac1c0b66289288a2270e031bbc07b4eb7eca5fa0defef3e493b76386"),
    ("two-status-nodes", "774a492cdf7d0f6c9f5611dc5867d4c94156e32d6a9d524b179d692dcb6485a2774a492cdf7d0f6c9f5611dc5867d4c94156e32d6a9d524b179d692dcb6485a2", "de79da73b0b20546d87c2375974e2f80f45684d368253f45ea6ab6871d077ebc"),
];

/// Nanoseconds of the monotonic clock.
fn millis(n: u64) -> u64 {
    n * 1_000_000
}

fn unhex(s: &str) -> Vec<u8> {
    assert_eq!(s.len() % 2, 0);
    s.as_bytes()
        .chunks_exact(2)
        .map(|p| u8::from_str_radix(std::str::from_utf8(p).unwrap(), 16).unwrap())
        .collect()
}

fn fixture(name: &str) -> Vec<u8> {
    unhex(WIRE.iter().find(|r| r.0 == name).expect("frozen fixture").3)
}

#[test]
fn every_frozen_wire_case_has_exact_typed_roundtrip_or_named_refusal() {
    let mut count = 0;
    for row in WIRE {
        let bytes = unhex(row.3);
        let result = match row.1 {
            "input-header" => InputHeader::decode_framed(&bytes).and_then(|v| v.encode_framed()),
            "result-header" => ResultHeader::decode_framed(&bytes).and_then(|v| v.encode_framed()),
            "manifest" => Manifest::decode(&bytes).and_then(|v| v.encode()),
            "summary" => ScopeSummary::decode(&bytes).and_then(|v| v.encode()),
            _ => {
                Control::decode(&bytes, MAX_CONTROL_LIMIT).and_then(|v| v.encode(MAX_CONTROL_LIMIT))
            }
        };
        if row.2.is_empty() {
            assert_eq!(
                result.unwrap_or_else(|e| panic!("{}: {}", row.0, e.message())),
                bytes,
                "{}",
                row.0
            );
        } else {
            assert_eq!(result.expect_err(row.0).code.name(), row.2, "{}", row.0);
        }
        count += 1;
    }
    assert_eq!(count, 70);
}

fn caps(name: &str) -> Capabilities {
    let Control::Capabilities(c) = Control::decode(&fixture(name), MAX_CONTROL_LIMIT).unwrap()
    else {
        panic!("capabilities fixture")
    };
    c
}

fn core_selection() -> Capabilities {
    let offer = caps("core-only-capabilities");
    Capabilities::select(&offer, &offer, false).unwrap()
}

#[test]
fn every_accepted_frame_rejects_all_truncations_and_trailing_bytes() {
    for row in WIRE.iter().filter(|r| r.2.is_empty()) {
        let bytes = unhex(row.3);
        let check = |b: &[u8]| -> Result<(), Error> {
            match row.1 {
                "input-header" => InputHeader::decode_framed(b).map(|_| ()),
                "result-header" => ResultHeader::decode_framed(b).map(|_| ()),
                "manifest" => Manifest::decode(b).map(|_| ()),
                "summary" => ScopeSummary::decode(b).map(|_| ()),
                _ => Control::decode(b, MAX_CONTROL_LIMIT).map(|_| ()),
            }
        };
        for cut in 0..bytes.len() {
            assert!(check(&bytes[..cut]).is_err(), "{} cut {cut}", row.0);
        }
        let mut extra = bytes;
        extra.push(0);
        assert!(check(&extra).is_err(), "{} trailing", row.0);
    }
}

#[test]
fn decoder_rejects_forbidden_types_and_untrusted_allocation_lengths() {
    for body in [
        vec![0xa0],
        vec![0xc0, 0x80],
        vec![0xf6],
        vec![0xf7],
        vec![0xf9, 0, 0],
        vec![0x9f, 3, 1, 0xff],
        vec![0x82, 3, 0x18, 1],
        vec![0x82, 3, 0x20],
        vec![0x82, 3, 0x61, 0xff],
        vec![0x9b, 0xff, 0xff, 0xff, 0xff, 0xff, 0xff, 0xff, 0xff],
        vec![0x98, 2, 3, 1],
    ] {
        let mut frame = vec![2];
        frame.extend_from_slice(&(body.len() as u32).to_be_bytes());
        frame.extend(body);
        assert_eq!(
            Control::decode(&frame, INITIAL_CONTROL_LIMIT)
                .unwrap_err()
                .code,
            ErrorCode::FrameError
        );
    }
    assert!(Control::decode(&[2, 0xff, 0xff, 0xff, 0xff], MAX_CONTROL_LIMIT).is_err());
    for length in [0, 4097, u32::MAX] {
        assert!(object_header_length(length.to_be_bytes()).is_err());
    }
    assert_eq!(object_header_length(4096u32.to_be_bytes()).unwrap(), 4096);
    assert_eq!(control_body_length([1, 0, 0, 0x10, 0], None).unwrap(), 4096);
    assert!(control_body_length([1, 0, 0, 0x10, 1], Some(MAX_CONTROL_LIMIT)).is_err());
    assert!(control_body_length([2, 0, 0, 0, 2], None).is_err());
    assert!(control_body_length([2, 0xff, 0xff, 0xff, 0xff], Some(MAX_CONTROL_LIMIT)).is_err());
}

#[test]
fn unknown_control_classes_and_negotiation_phase_are_distinct() {
    for kind in 0..=255 {
        let frame = [kind, 0, 0, 0, 0];
        let result = Control::decode(&frame, INITIAL_CONTROL_LIMIT);
        match kind {
            0x80..=0xbf => {
                let parsed = result.unwrap();
                assert_eq!(parsed.encode(INITIAL_CONTROL_LIMIT).unwrap(), frame);
                assert!(parsed.validate_context(true, None).is_err());
                parsed
                    .validate_context(true, Some(&core_selection()))
                    .unwrap();
            }
            0xc0..=0xff => assert_eq!(result.unwrap_err().code, ErrorCode::ExtensionUnsupported),
            _ => assert_eq!(result.unwrap_err().code, ErrorCode::FrameError),
        }
    }
    let offer = Control::Capabilities(caps("capabilities-offer"));
    offer.validate_context(true, None).unwrap();
    assert!(offer.validate_context(false, None).is_err());
    assert!(
        Control::decode(&fixture("session-open"), MAX_CONTROL_LIMIT)
            .unwrap()
            .validate_context(true, Some(&caps("capabilities-offer")))
            .is_err()
    );
    assert!(
        offer
            .validate_context(true, Some(&caps("capabilities-response")))
            .is_err()
    );
    let request = Control::decode(&fixture("session-open"), MAX_CONTROL_LIMIT).unwrap();
    assert_eq!(
        request
            .validate_context(true, Some(&core_selection()))
            .unwrap_err()
            .code,
        ErrorCode::ExtensionUnsupported
    );
    assert_eq!(
        request
            .validate_context(false, Some(&caps("capabilities-response")))
            .unwrap_err()
            .code,
        ErrorCode::FrameError
    );
}

#[test]
fn negotiation_checks_authentication_required_sets_dependencies_and_every_limit() {
    let offer = caps("capabilities-offer");
    let selected = Capabilities::select(&offer, &offer, true).unwrap();
    offer.validate_selection(&selected).unwrap();
    assert_eq!(
        Capabilities::select(&offer, &offer, false)
            .unwrap_err()
            .code,
        ErrorCode::Unauthorized
    );
    let mut optional = offer.clone();
    optional.required.clear();
    let anonymous = Capabilities::select(&optional, &optional, false).unwrap();
    assert!(anonymous.supported.is_empty());
    let mut unknown = optional.clone();
    unknown.supported.insert(0, ProfileId(12));
    assert!(
        !Capabilities::select(&unknown, &unknown, true)
            .unwrap()
            .supported
            .contains(&ProfileId(12))
    );
    unknown.required.push(ProfileId(12));
    assert_eq!(
        Capabilities::select(&unknown, &unknown, true)
            .unwrap_err()
            .code,
        ErrorCode::ExtensionUnsupported
    );
    let mut omitted = selected.clone();
    omitted.required.clear();
    assert!(offer.validate_selection(&omitted).is_err());
    for field in 0..6 {
        let mut increased = selected.clone();
        match field {
            0 => increased.control_limit.0 += 1,
            1 => increased.stream_limit.0 += 1,
            2 => increased.pending_limit.0 += 1,
            3 => increased.object_limit.0 += 1,
            4 => increased.stream_idle_ms.0 += 1,
            _ => increased.stream_lifetime_ms.0 += 1,
        }
        assert!(
            offer.validate_selection(&increased).is_err(),
            "limit {field}"
        );
    }
    let mut legacy = selected;
    legacy.supported.insert(0, ProfileId(65281));
    assert!(offer.validate_selection(&legacy).is_err());
}

#[test]
fn output_locators_preserve_bytes_but_parse_case_and_all_numeric_boundaries() {
    let path = "/v2/sessions/9223372036854775807/scopes/9223372036854775807/producers/1/entities/9223372036854775807/attempts/9223372036854775807/outputs/255";
    let locator = ResultLocator(format!("PIPESTREAM://[2001:db8::1]:65535{path}"));
    let target = locator.target().unwrap();
    assert_eq!(target.generation.0, MAX_NUMBER);
    assert_eq!(target.port, 65535);
    assert_eq!(target.index.0, 255);
    let base = "pipestream://Processor.example:9443/v2/sessions/1/scopes/0/producers/0/entities/1/attempts/1/outputs/0";
    assert_eq!(
        ResultLocator(base.into()).target().unwrap().host,
        "processor.example"
    );
    for (from, to) in [
        (":9443", ""),
        (":9443", ":09443"),
        (":9443", ":0"),
        ("Processor.example", "user@Processor.example"),
        ("Processor.example", "[fe80::1%25eth0]"),
        ("Processor.example", "bad..name"),
        ("Processor.example", "-bad.example"),
        ("/v2/", "/v1/"),
        ("/sessions/1", "/sessions/0"),
        ("/sessions/1", "/sessions/9223372036854775808"),
        ("/producers/0", "/producers/2"),
        ("/entities/1", "/entities/01"),
        ("/attempts/1", "/attempts/0"),
        ("/outputs/0", "/outputs/256"),
        ("/outputs/0", "/outputs/0?token=x"),
        ("/outputs/0", "/outputs/0/"),
    ] {
        assert!(
            ResultLocator(base.replace(from, to)).target().is_err(),
            "{from} -> {to}"
        );
    }
}

#[test]
fn work_view_cross_fields_and_profile_requirements_cannot_be_fabricated() {
    let Control::Work(Work::View { work, .. }) =
        Control::decode(&fixture("work-success-view"), MAX_CONTROL_LIMIT).unwrap()
    else {
        panic!("work view")
    };
    work.validate_profiles(true).unwrap();
    assert!(work.validate_profiles(false).is_err());
    for mutation in 0..11 {
        let mut bad = work.clone();
        match mutation {
            0 => bad.attempt = Number(0),
            1 => bad.deadline = bad.admitted_at,
            2 => bad.receipt_until = bad.terminal_at,
            3 => bad.state = State(State::ACTIVE),
            4 => bad.state = State(State::FAILED),
            5 => bad.output_until = None,
            6 => bad.manifest.as_mut().unwrap().attempt = Id(2),
            7 => {
                bad.manifest.as_mut().unwrap().outputs[0].locator.0 =
                    bad.manifest.as_ref().unwrap().outputs[0]
                        .locator
                        .0
                        .replace("/entities/1", "/entities/2")
            }
            8 => bad.manifest.as_mut().unwrap().input_sha256 = Digest([0; 32]),
            9 => bad.manifest.as_mut().unwrap().committed_at.0 += 1,
            _ => {
                bad.child = Some(ChildScope {
                    scope: Id(0),
                    producer: Producer(0),
                })
            }
        }
        assert!(bad.validate_profiles(true).is_err(), "mutation {mutation}");
    }
    let mut no_results = work;
    no_results.manifest = None;
    no_results.output_until = None;
    no_results.validate_profiles(false).unwrap();
    assert!(no_results.validate_profiles(true).is_err());
}

#[test]
fn typed_receipts_reject_wrong_opcodes_attempts_and_fence_dispositions() {
    let Control::Work(Work::Retried { request, receipt }) =
        Control::decode(&fixture("retry-receipt"), MAX_CONTROL_LIMIT).unwrap()
    else {
        panic!("retry receipt")
    };
    assert!(
        Control::Work(Work::Cancelled {
            request,
            receipt: receipt.clone()
        })
        .encode(MAX_CONTROL_LIMIT)
        .is_err()
    );
    let mut bad = receipt;
    let Outcome::Retried {
        replacement_attempt,
        ..
    } = &mut bad.body
    else {
        panic!("retry outcome")
    };
    replacement_attempt.0 += 1;
    assert!(
        Control::Work(Work::Retried {
            request,
            receipt: bad
        })
        .encode(MAX_CONTROL_LIMIT)
        .is_err()
    );
    let Control::Work(Work::Cancelled { request, receipt }) =
        Control::decode(&fixture("cancel-receipt"), MAX_CONTROL_LIMIT).unwrap()
    else {
        panic!("cancel receipt")
    };
    for disposition in 0..=1 {
        for state in 0..=8 {
            let mut candidate = receipt.clone();
            let Outcome::Cancelled {
                disposition: d,
                state_at_commit: s,
                ..
            } = &mut candidate.body
            else {
                panic!("cancel outcome")
            };
            *d = Disposition(disposition);
            *s = State(state);
            let expected = if disposition == 0 {
                state == 4 || state == 7
            } else {
                state >= 5
            };
            assert_eq!(
                Control::Work(Work::Cancelled {
                    request,
                    receipt: candidate
                })
                .encode(MAX_CONTROL_LIMIT)
                .is_ok(),
                expected
            );
        }
    }
}

#[test]
fn every_refusal_code_maps_to_the_v2_quic_namespace_and_reserved_codes_fail() {
    for code in 0..=32 {
        let frame = [7, 0, 0, 0, 6, 0x83, 0x82, 0, 1, code, 0x60];
        // 24..32 require the two-octet integer representation, tested below.
        if code < 24 {
            let decoded = Control::decode(&frame, INITIAL_CONTROL_LIMIT);
            if (1..=18).contains(&code) {
                let Control::Refusal(r) = decoded.unwrap() else {
                    panic!("refusal")
                };
                assert_eq!(r.code.quic_error(), 0x200 + u64::from(code));
            } else {
                assert_eq!(decoded.unwrap_err().code, ErrorCode::FrameError);
            }
        } else {
            assert!(
                Control::decode(
                    &[7, 0, 0, 0, 7, 0x83, 0x82, 0, 1, 0x18, code, 0x60],
                    INITIAL_CONTROL_LIMIT
                )
                .is_err()
            );
        }
    }
}

#[test]
fn all_frozen_commitments_are_computed_from_typed_fields() {
    let session = SessionIdentity {
        authority: IdentityLabel("authority-1".into()),
        owner: IdentityLabel("owner-1".into()),
        generation: Id(1),
    };
    let input = InputHeader::decode_framed(&fixture("input-header")).unwrap();
    let work = input.parameters.work.clone();
    let manifest = Manifest::decode(&fixture("result-manifest")).unwrap();
    let leaf = StatusLeaf {
        work: work.clone(),
        state: State(State::SUCCEEDED),
        attempt: Number(1),
        manifest_digest: Some(manifest.digest().unwrap()),
        child_status_root: None,
    };
    let mutations = [
        ("admission-operation", Mutation::Admit(input.parameters), 1),
        (
            "declaration-operation",
            Mutation::Declare {
                scope: Number(0),
                entity_ids: vec![Id(1)],
                seal: true,
            },
            2,
        ),
        (
            "retry-operation",
            Mutation::Retry {
                work: work.clone(),
                expected_attempt: Id(1),
            },
            3,
        ),
        (
            "cancel-operation",
            Mutation::Cancel { work: work.clone() },
            4,
        ),
        ("skip-operation", Mutation::Skip { work }, 5),
        (
            "scope-cancel-operation",
            Mutation::ScopeCancel { scope: Number(0) },
            6,
        ),
    ];
    let mut count = 0;
    for fields in COMMITMENTS {
        let actual = if let Some((_, mutation, id)) = mutations.iter().find(|m| m.0 == fields.0) {
            let mut operation = [0; 16];
            operation[15] = *id;
            assert_eq!(
                mutation
                    .commitment_bytes(&session, Producer(0), OperationId(operation))
                    .unwrap(),
                unhex(fields.1),
                "{} preimage",
                fields.0
            );
            mutation
                .digest(&session, Producer(0), OperationId(operation))
                .unwrap()
        } else {
            match fields.0 {
                "one-member-seal" => {
                    scope_seal(&session, Number(0), Producer(0), &None, Number(1), &vec![Id(1)]).unwrap()
                }
                "empty-scope-seal" => {
                    scope_seal(&session, Number(0), Producer(0), &None, Number(0), &vec![]).unwrap()
                }
                "result-manifest" => {
                    assert_eq!(manifest.encode().unwrap(), unhex(fields.1));
                    manifest.digest().unwrap()
                }
                "success-status-leaf" => {
                    assert_eq!(leaf.commitment_bytes().unwrap(), unhex(fields.1));
                    leaf.digest().unwrap()
                }
                "empty-status-root" => empty_status_root(),
                "two-status-nodes" => status_node(leaf.digest().unwrap(), leaf.digest().unwrap()),
                _ => panic!("unknown commitment"),
            }
        };
        assert_eq!(
            actual.0.as_slice(),
            unhex(fields.2),
            "{} digest",
            fields.0
        );
        count += 1;
    }
    assert_eq!(count, 12);
}

#[test]
fn incremental_commitments_cover_batch_boundaries_odd_merkle_trees_and_namespace_separation() {
    let session = SessionIdentity {
        authority: IdentityLabel("a".into()),
        owner: IdentityLabel("o".into()),
        generation: Id(1),
    };
    let many = scope_seal(
        &session,
        Number(0),
        Producer(0),
        &None,
        Number(1000),
        &(1..=1000).map(Id).collect(),
    )
    .unwrap();
    assert_ne!(
        many,
        scope_seal(&session, Number(0), Producer(0), &None, Number(0), &vec![]).unwrap()
    );
    for ids in [
        vec![Id(1)],
        vec![Id(1), Id(1)],
        vec![Id(2), Id(1)],
        vec![Id(1), Id(2), Id(3)],
    ] {
        assert!(scope_seal(&session, Number(0), Producer(0), &None, Number(2), &ids).is_err());
    }
    let mutation = Mutation::Cancel {
        work: WorkKey {
            scope: Number(3),
            producer: Producer(1),
            entity: Id(1),
        },
    };
    assert_ne!(
        mutation
            .digest(&session, Producer(0), OperationId([1; 16]))
            .unwrap(),
        mutation
            .digest(&session, Producer(1), OperationId([1; 16]))
            .unwrap()
    );
    for size in 0..=1000usize {
        let mut incremental = StatusRoot::default();
        let mut naive = Vec::new();
        for n in 0..size {
            let mut bytes = [0; 32];
            bytes[..8].copy_from_slice(&(n as u64).to_be_bytes());
            let digest = Digest(bytes);
            incremental.push(digest).unwrap();
            naive.push(digest);
        }
        while naive.len() > 1 {
            naive = naive
                .chunks(2)
                .map(|p| status_node(p[0], *p.get(1).unwrap_or(&p[0])))
                .collect();
        }
        assert_eq!(
            incremental.finish(),
            naive.first().copied().unwrap_or_else(empty_status_root),
            "size {size}"
        );
    }
}

#[test]
fn payload_verification_requires_exact_bytes_fin_and_bounded_monotonic_progress() {
    let header = ResultHeader::decode_framed(&fixture("result-header")).unwrap();
    let mut limits = caps("capabilities-response");
    limits.stream_idle_ms = IdleMs(1000);
    limits.stream_lifetime_ms = LifetimeMs(2000);
    let start = millis(1);
    let new_receiver =
        || PayloadReceiver::new(header.length, header.sha256, &limits, start).unwrap();
    let mut receiver = new_receiver();
    receiver
        .receive(b"A", start + millis(500))
        .unwrap();
    receiver
        .receive(b"BC", start + millis(1000))
        .unwrap();
    let proof = receiver.finish(start + millis(1500)).unwrap();
    assert_eq!(proof.length(), Number(3));
    assert_eq!(proof.sha256(), header.sha256);
    assert!(receiver.receive(b"", start).is_err());
    assert!(receiver.finish(start).is_err());
    for bytes in [b"AB".as_slice(), b"abc", b"ABCD"] {
        let mut receiver = new_receiver();
        let result = receiver
            .receive(bytes, start)
            .and_then(|_| receiver.finish(start));
        assert_eq!(result.unwrap_err().code, ErrorCode::IntegrityError);
        assert!(receiver.receive(b"ABC", start).is_err());
    }
    let mut idle = new_receiver();
    idle.receive(b"", start + millis(999))
        .unwrap();
    assert_eq!(
        idle.check_deadline(start + millis(1000))
            .unwrap_err()
            .code,
        ErrorCode::LimitExceeded
    );
    let mut lifetime = new_receiver();
    lifetime
        .receive(b"A", start + millis(800))
        .unwrap();
    lifetime
        .receive(b"B", start + millis(1600))
        .unwrap();
    assert_eq!(
        lifetime
            .receive(b"C", start + millis(2000))
            .unwrap_err()
            .code,
        ErrorCode::LimitExceeded
    );
    let mut regressed = new_receiver();
    regressed
        .receive(b"A", start + millis(1))
        .unwrap();
    assert_eq!(
        regressed.receive(b"B", start).unwrap_err().code,
        ErrorCode::ClockUnsafe
    );
    let empty = InputHeader::decode_framed(&fixture("empty-input-header")).unwrap();
    let mut receiver =
        PayloadReceiver::new(Number(0), empty.parameters.input.sha256, &limits, start).unwrap();
    assert_eq!(receiver.finish(start).unwrap().length(), Number(0));
    limits.object_limit = Number(2);
    assert_eq!(
        PayloadReceiver::new(header.length, header.sha256, &limits, start)
            .err()
            .unwrap()
            .code,
        ErrorCode::LimitExceeded
    );
}

#[test]
fn correlation_is_bounded_out_of_order_and_rejects_reuse_wrong_kind_and_duplicate() {
    let mut selected = caps("capabilities-response");
    selected.pending_limit = ConcurrencyLimit(2);
    let mut book = Correlation::new(selected, 1).unwrap();
    let request = |id| Control::Session(Session::NextSequence { request: Id(id) });
    let reply = |id| {
        Control::Session(Session::Sequence {
            request: Id(id),
            next_creation_sequence: Id(1),
        })
    };
    assert!(book.register(&request(2), None).is_err());
    book.register(&request(1), None).unwrap();
    assert!(book.register(&request(1), None).is_err());
    book.register(&request(3), None).unwrap(); // increasing does not mean contiguous
    assert_eq!(
        book.register(&request(4), None).unwrap_err().code,
        ErrorCode::LimitExceeded
    );
    assert!(
        book.accept(&Control::Drain(Drain::Detached { request: Id(1) }))
            .is_err()
    );
    assert_eq!(book.pending(), 2);
    book.accept(&reply(3)).unwrap();
    book.register(&request(4), None).unwrap();
    assert!(book.accept(&reply(3)).is_err());
    book.accept(&reply(1)).unwrap();
    assert!(book.register(&request(2), None).is_err());
    book.abort(&RequestTag::Control { request: Id(4) }).unwrap();
    assert_eq!(book.pending(), 0);
    assert!(book.accept(&reply(4)).is_err());
    book.register(&request(MAX_NUMBER), None).unwrap();
    book.accept(&reply(MAX_NUMBER)).unwrap();
    assert!(book.register(&request(MAX_NUMBER), None).is_err());
    assert!(book.register(&request(MAX_NUMBER + 1), None).is_err());
}

fn result_request_and_header(id: u64) -> (Control, ResultHeader, Manifest) {
    let mut header = ResultHeader::decode_framed(&fixture("result-header")).unwrap();
    header.request = Id(id);
    let manifest = Manifest::decode(&fixture("result-manifest")).unwrap();
    let request = Control::Result(ResultMessage::Read {
        request: Id(id),
        work: header.work.clone(),
        attempt: header.attempt,
        index: header.index,
        expected_sha256: header.sha256,
    });
    (request, header, manifest)
}

#[test]
fn result_correlation_stays_pending_until_verified_fin_and_rejects_second_response() {
    let now = millis(1);
    let (request, header, manifest) = result_request_and_header(1);
    let mut book = Correlation::new(caps("capabilities-response"), 2).unwrap();
    assert!(book.register(&request, None).is_err());
    book.register(&request, Some(&manifest)).unwrap();
    let mut changed = header.clone();
    changed.length.0 += 1;
    assert!(book.start_result(&changed, now).is_err());
    let mut stream = book.start_result(&header, now).unwrap();
    assert!(book.start_result(&header, now).is_err());
    stream.receive(b"ABC", now).unwrap();
    assert_eq!(book.pending(), 1);
    let refusal = Control::Refusal(Refusal {
        request: RequestTag::Control { request: Id(1) },
        code: ErrorCode::OutputUnavailable,
        detail: Detail("missing".into()),
    });
    assert!(book.accept(&refusal).is_err());
    let verified = stream.finish(now).unwrap();
    book.finish_result(verified).unwrap();
    assert_eq!(book.pending(), 0);
    assert!(book.start_result(&header, now).is_err());
}

#[test]
fn result_proof_cannot_cross_connections_or_outlive_aborted_correlation() {
    let now = millis(1);
    let (request, header, manifest) = result_request_and_header(1);
    let mut a = Correlation::new(caps("capabilities-response"), 3).unwrap();
    let mut b = Correlation::new(caps("capabilities-response"), 4).unwrap();
    a.register(&request, Some(&manifest)).unwrap();
    b.register(&request, Some(&manifest)).unwrap();
    let mut from_a = a.start_result(&header, now).unwrap();
    let mut from_b = b.start_result(&header, now).unwrap();
    from_a.receive(b"ABC", now).unwrap();
    from_b.receive(b"ABC", now).unwrap();
    assert!(b.finish_result(from_a.finish(now).unwrap()).is_err());
    assert_eq!(b.pending(), 1);
    b.abort(&RequestTag::Control { request: Id(1) }).unwrap();
    assert!(b.finish_result(from_b.finish(now).unwrap()).is_err());
    let (request, header, _) = result_request_and_header(2);
    b.register(&request, Some(&manifest)).unwrap();
    let mut fresh = b.start_result(&header, now).unwrap();
    fresh.receive(b"ABC", now).unwrap();
    b.finish_result(fresh.finish(now).unwrap()).unwrap();
}

#[test]
fn slow_result_stream_does_not_block_control_progress_and_stream_limit_is_enforced() {
    let now = millis(1);
    let mut selected = caps("capabilities-response");
    selected.stream_limit = ConcurrencyLimit(1);
    let mut book = Correlation::new(selected, 5).unwrap();
    let (one, first_header, manifest) = result_request_and_header(1);
    let (two, second_header, _) = result_request_and_header(2);
    book.register(&one, Some(&manifest)).unwrap();
    book.register(&two, Some(&manifest)).unwrap();
    let mut slow = book.start_result(&first_header, now).unwrap();
    assert_eq!(
        book.start_result(&second_header, now).err().unwrap().code,
        ErrorCode::LimitExceeded
    );
    assert_eq!(
        book.start_result(&first_header, now).err().unwrap().code,
        ErrorCode::FrameError
    );
    book.register(
        &Control::Session(Session::NextSequence { request: Id(3) }),
        None,
    )
    .unwrap();
    book.accept(&Control::Session(Session::Sequence {
        request: Id(3),
        next_creation_sequence: Id(1),
    }))
    .unwrap();
    assert_eq!(book.pending(), 2);
    slow.receive(b"ABC", now).unwrap();
    book.finish_result(slow.finish(now).unwrap()).unwrap();
    let mut next = book.start_result(&second_header, now).unwrap();
    next.receive(b"ABC", now).unwrap();
    book.finish_result(next.finish(now).unwrap()).unwrap();
    assert_eq!(book.pending(), 0);
}

#[test]
fn admission_correlation_uses_actual_input_streams_and_checks_immutable_parameters() {
    let header = InputHeader::decode_framed(&fixture("input-header")).unwrap();
    let response = Control::decode(&fixture("admission-receipt"), MAX_CONTROL_LIMIT).unwrap();
    let Control::Work(Work::Admitted {
        request: RequestTag::Input { stream },
        ..
    }) = &response
    else {
        panic!("admission fixture")
    };
    let mut book = Correlation::new(caps("capabilities-response"), 6).unwrap();
    for wrong in [0, 1, 3, (1u64 << 62) + 2] {
        assert!(book.register_input(StreamId(wrong), &header).is_err());
    }
    book.register_input(*stream, &header).unwrap();
    assert!(book.register_input(*stream, &header).is_err());
    let mut wrong = response.clone();
    let Control::Work(Work::Admitted { receipt, .. }) = &mut wrong else {
        panic!("admission")
    };
    let Outcome::Admitted { work, .. } = &mut receipt.body else {
        panic!("admission outcome")
    };
    work.entity.0 += 1;
    assert!(book.accept(&wrong).is_err());
    assert_eq!(book.pending(), 1);
    book.accept(&response).unwrap();
    assert!(book.accept(&response).is_err());
    assert!(book.register_input(*stream, &header).is_err());
    book.register_input(StreamId(stream.0 + 4), &header)
        .unwrap();
}

#[test]
fn locator_numbers_that_overflow_are_told_from_those_that_are_none() {
    let base = "pipestream://a.example:9443/v2/sessions/1/scopes/0/producers/0/entities/1/attempts/1/outputs/0";
    let text = |from: &str, to: &str| {
        ResultLocator(base.replace(from, to)).target().unwrap_err().detail
    };
    assert_eq!(text("sessions/1", "sessions/18446744073709551616"), "locator integer overflow");
    assert_eq!(text("sessions/1", "sessions/99999999999999999999999"), "locator integer overflow");
    assert_eq!(text("sessions/1", "sessions/01"), "invalid locator decimal");
    assert_eq!(text("sessions/1", "sessions/1x"), "invalid locator decimal");
    assert_eq!(text("sessions/1/", "sessions//"), "invalid locator decimal");
    assert_eq!(text(":9443", ":99999999999999999999999"), "locator integer overflow");
    assert_eq!(text(":9443", ":65536"), "locator port overflow");
    assert_eq!(text(":9443", ":"), "invalid locator decimal");
}
