use pipestream::v2::error::ErrorCode;
use pipestream::v2::fixture::{
    arm, commit_boundary, commit_label, connection_authenticated, escape, listening,
    parse_schedule, reached, reply_gate, sent_boundary, sent_label, unescape, Action, Arm, Fixture,
    Gate, ScheduleFault, MAX_RECORDS,
};
use pipestream::v2::labels::Detail;
use pipestream::v2::messages::{Control, Drain};
use pipestream::v2::numbers::Id;
use pipestream::v2::records::{Refusal, RequestTag};

fn armed(arms: Vec<Arm>) -> Fixture {
    arm("run-1".into(), "scen-9".into(), "7-abc".into(), arms)
}

#[test]
fn schedule_parse_keeps_server_rows_and_validates_actions() {
    let text = "1\trun-a\tscen-1\tserver\tSESSION_COMMITTED\tkill\t0\t1000\n\
         1\trun-a\tscen-1\tserver\tADMISSION_COMMITTED\tpause\t0\t2000\n\
         1\trun-a\tscen-1\tserver\tDECLARATION_COMMITTED\tdrop-reply\t0\t3000\n\
         1\trun-a\tscen-1\tclient\tREQUEST_SENT\tkill\t0\t1000\n\
         1\trun-a\tscen-1\tserver\tADMISSION_COMMITTED\trelease\t0\t0\n";
    let arms = parse_schedule(text, "run-a", "scen-1").unwrap();
    assert_eq!(arms.len(), 3);
    assert_eq!(arms[0].boundary, "SESSION_COMMITTED");
    assert_eq!(arms[0].action, Action::Kill);
    assert_eq!(arms[1].action, Action::Pause);
    assert_eq!(arms[1].deadline, 2000);
    assert_eq!(arms[2].action, Action::DropReply);
}

#[test]
fn schedule_parse_rejects_invalid_rows() {
    let cases: &[(&str, ScheduleFault)] = &[
        ("1\trun-a\tscen-1\tserver\tSESSION_COMMITTED\tkill\t0\t1000\textra", ScheduleFault::Columns),
        ("2\trun-a\tscen-1\tserver\tSESSION_COMMITTED\tkill\t0\t1000", ScheduleFault::Version),
        ("1\trun-b\tscen-1\tserver\tSESSION_COMMITTED\tkill\t0\t1000", ScheduleFault::Run),
        ("1\trun-a\tscen-1\tserver\tNOT_A_BOUNDARY\tkill\t0\t1000", ScheduleFault::Boundary),
        ("1\trun-a\tscen-1\tserver\tSESSION_COMMITTED\texplode\t0\t1000", ScheduleFault::Action),
        ("1\trun-a\tscen-1\tserver\tFENCE_COMMITTED\tdrop-reply\t0\t1000", ScheduleFault::ReplyPair),
        ("1\trun-a\tscen-1\tserver\tSESSION_RESPONSE_SENT\tpause\t0\t1000", ScheduleFault::ReplyPair),
        ("1\trun-a\tscen-1\tserver\tSESSION_COMMITTED\tstop\t0\t1000", ScheduleFault::DriverSide),
        ("1\trun-a\tscen-1\tserver\tSESSION_COMMITTED\tkill\t0\tsoon", ScheduleFault::Deadline),
        ("1\trun-a\tscen-2\tserver\tSESSION_COMMITTED\tkill\t0\t1000", ScheduleFault::Scenario),
        ("1\trun-a\\x\tscen-1\tserver\tSESSION_COMMITTED\tkill\t0\t1000", ScheduleFault::Escape),
        ("1\trun-a\tscen-1\tserver\tSESSION_COMMITTED\tkill\t0\t18446744073709551616", ScheduleFault::Deadline),
    ];
    for (case, fault) in cases {
        let error = parse_schedule(case, "run-a", "scen-1").unwrap_err();
        assert_eq!(error.fault, *fault, "schedule row must be rejected: {case:?}");
        assert_eq!(error.row, 1);
    }
}

#[test]
fn schedule_lines_are_counted_and_line_ends_are_dropped() {
    let text = "\n1\tr\ts\tserver\tLISTENING\tkill\t0\t+5\r\n\r\n1\tr\ts\tserver\tLISTENING\tkill\t0\t";
    assert_eq!(parse_schedule(text, "r", "s").unwrap_err().row, 4);
    let text = "\n1\tr\ts\tserver\tLISTENING\tkill\t0\t+5\r\n";
    let arms = parse_schedule(text, "r", "s").unwrap();
    assert_eq!(arms, vec![Arm { boundary: "LISTENING", action: Action::Kill, deadline: 5 }]);
    assert_eq!(parse_schedule("", "r", "s").unwrap(), vec![]);
}

#[test]
fn commit_label_maps_only_durable_boundaries() {
    assert_eq!(commit_label("create"), Some("SESSION_COMMITTED"));
    assert_eq!(commit_label("declare"), Some("DECLARATION_COMMITTED"));
    assert_eq!(commit_label("admit-input"), Some("ADMISSION_COMMITTED"));
    assert_eq!(commit_label("worker-claim"), Some("EXECUTION_CLAIMED"));
    assert_eq!(
        commit_label("worker-publish"),
        Some("PUBLICATION_COMMITTED")
    );
    assert_eq!(commit_label("worker-retry"), Some("RETRY_COMMITTED"));
    assert_eq!(commit_label("work-fence"), Some("FENCE_COMMITTED"));
    assert_eq!(commit_label("scope-fence"), Some("FENCE_COMMITTED"));
    assert_eq!(commit_label("settlement-scope"), Some("CLOSURE_COMMITTED"));
    for key in [
        "prepare-input",
        "worker-renew",
        "worker-expansion",
        "settlement-work",
        "session-revoke",
        "result-read",
        "retention-intent",
        "retirement-finish",
    ] {
        assert_eq!(commit_label(key), None, "{key} must stay supplementary");
    }
}

#[test]
fn armed_fixture_emits_interface_v1_records_and_gates() {
    let mut fixture = armed(vec![
        Arm { boundary: "SESSION_COMMITTED", action: Action::Pause, deadline: 1000 },
        Arm { boundary: "ADMISSION_COMMITTED", action: Action::Pause, deadline: 2000 },
        Arm { boundary: "DECLARATION_COMMITTED", action: Action::DropReply, deadline: 1000 },
    ]);
    let text = [
        commit_boundary(&mut fixture, "create").unwrap(),
        commit_boundary(&mut fixture, "admit-input").unwrap(),
    ]
    .map(|event| event.record.unwrap())
    .concat();
    let lines: Vec<&str> = text.lines().collect();
    assert_eq!(lines.len(), 2);
    let mut boundaries = Vec::new();
    for line in &lines {
        let columns: Vec<&str> = line.split('\t').collect();
        assert_eq!(columns.len(), 15, "record must have 15 columns: {line:?}");
        assert_eq!(columns[0], "1");
        assert_eq!(columns[1], "run-1");
        assert_eq!(columns[2], "scen-9");
        assert_eq!(columns[3], "rust");
        assert_eq!(columns[4], "server");
        assert!(columns[6].parse::<u64>().is_ok(), "seq must be decimal: {line:?}");
        assert!(columns[8..].iter().all(|column| column.is_empty()));
        boundaries.push(columns[7]);
    }
    assert!(boundaries.contains(&"SESSION_COMMITTED"));
    assert!(boundaries.contains(&"ADMISSION_COMMITTED"));
    assert_eq!(reached(&fixture, "NOT_A_BOUNDARY"), 0);

    match reply_gate(&fixture, "SESSION_COMMITTED") {
        Gate::Hold { deadline, .. } => assert_eq!(deadline, 1000),
        other => panic!("expected Hold for armed pause, got {other:?}"),
    }
    match reply_gate(&fixture, "ADMISSION_COMMITTED") {
        Gate::Hold { release, deadline } => {
            assert_eq!(release, "release-ADMISSION_COMMITTED");
            assert_eq!(deadline, 2000);
        }
        other => panic!("expected Hold for armed pause, got {other:?}"),
    }
    assert_eq!(reply_gate(&fixture, "DECLARATION_COMMITTED"), Gate::Drop);
    match reply_gate(&fixture, "FENCE_COMMITTED") {
        Gate::Pass => {}
        other => panic!("unarmed boundary must pass, got {other:?}"),
    }
}

#[test]
fn label_escaping_round_trips() {
    assert_eq!(escape("a\tb\nc\\d\re"), "a\\tb\\nc\\\\d\\re");
    assert_eq!(unescape("a\\tb\\nc\\\\d\\re").unwrap(), "a\tb\nc\\d\re");
    assert!(unescape("bad\\x").is_err());
}

#[test]
fn commits_are_counted_and_a_kill_follows_its_record() {
    let kill = |boundary| Arm { boundary, action: Action::Kill, deadline: 0 };
    let mut fixture = armed(vec![kill("FENCE_COMMITTED"), kill("LISTENING")]);
    let event = commit_boundary(&mut fixture, "work-fence").unwrap();
    assert!(event.kill);
    assert_eq!(
        event.record.unwrap(),
        "1\trun-1\tscen-9\trust\tserver\t7-abc\t1\tFENCE_COMMITTED\t\t\t\t\t\t\t\n"
    );
    commit_boundary(&mut fixture, "scope-fence").unwrap();
    assert_eq!(reached(&fixture, "FENCE_COMMITTED"), 2);
    assert_eq!(commit_boundary(&mut fixture, "create"), None);
    assert_eq!(commit_boundary(&mut fixture, "retention-intent"), None);
    assert_eq!(connection_authenticated(&mut fixture), None);
    assert!(listening(&mut fixture).unwrap().kill);
    assert_eq!(fixture.sequence, 3);
    assert_eq!(reached(&fixture, "LISTENING"), 0);
    fixture.sequence = MAX_RECORDS;
    assert_eq!(listening(&mut fixture).unwrap().record, None);
}

#[test]
fn replies_are_reported_under_their_own_labels() {
    let detached = Control::Drain(Drain::Detached { request: Id(1) });
    let refusal = Control::Refusal(Refusal {
        request: RequestTag::Control { request: Id(1) },
        code: ErrorCode::NotFound,
        detail: Detail(String::new()),
    });
    assert_eq!(sent_label(&detached), Some("DETACH_ACKNOWLEDGED"));
    assert_eq!(sent_label(&refusal), Some("REFUSAL_SENT"));
    assert_eq!(sent_label(&Control::Drain(Drain::Detach { request: Id(1) })), None);
    let mut fixture =
        armed(vec![Arm { boundary: "REFUSAL_SENT", action: Action::Kill, deadline: 0 }]);
    assert!(sent_boundary(&mut fixture, &refusal).unwrap().record.is_some());
    assert_eq!(sent_boundary(&mut fixture, &detached), None);
}
