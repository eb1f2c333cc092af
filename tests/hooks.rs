use event_hooks::decimal::decimal_string;
use event_hooks::hooks::{
    Event, EventHookRunner, EventKind, HookInvocation, EVENT_VAR, SEQ_VAR, SUBMISSION_ID_VAR,
};

fn argv(tokens: &[&str]) -> Vec<String> {
    tokens.iter().map(|t| t.to_string()).collect()
}

fn runner(entries: Vec<(&str, Vec<Vec<String>>)>) -> EventHookRunner {
    let hooks = entries.into_iter().map(|(k, v)| (k.to_string(), v)).collect();
    EventHookRunner::new(hooks, "/work/dir".to_string())
}

fn event(kind: EventKind, id: &str) -> Event {
    Event { id: id.to_string(), kind }
}

fn env_value(inv: &HookInvocation, name: &str) -> String {
    inv.env
        .iter()
        .find(|(k, _)| k == name)
        .map(|(_, v)| v.clone())
        .unwrap()
}

#[test]
fn lifecycle_events_get_successive_sequence_numbers() {
    let mut r = runner(vec![
        ("turn_started", vec![argv(&["/bin/echo", "hi"])]),
        ("turn_complete", vec![argv(&["/bin/echo", "bye"])]),
    ]);
    let a = r.handle_event(&event(EventKind::TurnStarted, "sub-1"));
    let b = r.handle_event(&event(EventKind::TurnComplete, "sub-1"));
    assert_eq!(a.len(), 1);
    assert_eq!(b.len(), 1);
    assert_eq!(a[0].program, "/bin/echo");
    assert_eq!(a[0].args, vec!["hi".to_string()]);
    assert_eq!(b[0].args, vec!["bye".to_string()]);
    assert_eq!(env_value(&a[0], SEQ_VAR), "0");
    assert_eq!(env_value(&b[0], SEQ_VAR), "1");
    assert_eq!(env_value(&a[0], EVENT_VAR), "turn_started");
    assert_eq!(env_value(&b[0], EVENT_VAR), "turn_complete");
    assert_eq!(r.next_seq(), 2);
}

#[test]
fn commands_of_one_event_run_in_configured_order() {
    let mut r = runner(vec![(
        "exec_approval_request",
        vec![argv(&["cmd-a", "x"]), argv(&["cmd-b"])],
    )]);
    let out = r.handle_event(&event(EventKind::ExecApprovalRequest, "call-7"));
    assert_eq!(out.len(), 2);
    assert_eq!(out[0].program, "cmd-a");
    assert_eq!(out[1].program, "cmd-b");
    assert_eq!(out[0].seq, 0);
    assert_eq!(out[1].seq, 1);
    assert_eq!(env_value(&out[0], SEQ_VAR), "0");
    assert_eq!(env_value(&out[1], SEQ_VAR), "1");
    for inv in &out {
        assert_eq!(env_value(inv, EVENT_VAR), "exec_approval_request");
        assert_eq!(env_value(inv, SUBMISSION_ID_VAR), "call-7");
        assert_eq!(inv.cwd, "/work/dir");
        assert_eq!(inv.env.len(), 3);
    }
}

#[test]
fn empty_registry_launches_nothing() {
    let mut r = runner(vec![]);
    let out = r.handle_event(&event(EventKind::TurnStarted, "s"));
    assert!(out.is_empty());
    assert_eq!(r.next_seq(), 0);
}

#[test]
fn unregistered_kind_leaves_counter_unchanged() {
    let mut r = runner(vec![("turn_started", vec![argv(&["a"])])]);
    let out = r.handle_event(&event(EventKind::ExecCommandEnd, "s"));
    assert!(out.is_empty());
    assert_eq!(r.next_seq(), 0);
    let out = r.handle_event(&event(EventKind::Other("turn_start".to_string()), "s"));
    assert!(out.is_empty());
    assert_eq!(r.next_seq(), 0);
}

#[test]
fn malformed_entries_are_skipped_without_taking_numbers() {
    let mut r = runner(vec![(
        "turn_complete",
        vec![argv(&[]), argv(&["first"]), argv(&["", "arg"]), argv(&["second", "y"])],
    )]);
    let out = r.handle_event(&event(EventKind::TurnComplete, "s"));
    assert_eq!(out.len(), 2);
    assert_eq!(out[0].program, "first");
    assert_eq!(out[0].seq, 0);
    assert_eq!(out[1].program, "second");
    assert_eq!(out[1].args, vec!["y".to_string()]);
    assert_eq!(out[1].seq, 1);
    assert_eq!(r.next_seq(), 2);
}

#[test]
fn numbers_stay_contiguous_across_kinds() {
    let mut r = runner(vec![
        ("mcp_startup_update", vec![argv(&["a"]), argv(&["b"]), argv(&["c"])]),
        ("error", vec![argv(&["d"])]),
        ("custom_kind", vec![argv(&["e"]), argv(&["f"])]),
    ]);
    let mut seqs = Vec::new();
    for kind in [
        EventKind::McpStartupUpdate,
        EventKind::Error,
        EventKind::Other("custom_kind".to_string()),
        EventKind::TurnAborted,
        EventKind::McpStartupUpdate,
    ] {
        for inv in r.handle_event(&event(kind, "s")) {
            assert_eq!(env_value(&inv, SEQ_VAR), inv.seq.to_string());
            seqs.push(inv.seq);
        }
    }
    assert_eq!(seqs, (0..9).collect::<Vec<u64>>());
    assert_eq!(r.next_seq(), 9);
}

#[test]
fn command_count_counts_all_registered_entries() {
    let r = runner(vec![("turn_started", vec![argv(&[]), argv(&["a"])])]);
    assert_eq!(r.command_count(&event(EventKind::TurnStarted, "s")), 2);
    assert_eq!(r.command_count(&event(EventKind::TurnComplete, "s")), 0);
}

#[test]
fn kind_names_are_stable() {
    assert_eq!(EventKind::TurnStarted.name(), "turn_started");
    assert_eq!(EventKind::ExecApprovalRequest.name(), "exec_approval_request");
    assert_eq!(EventKind::ApplyPatchApprovalRequest.name(), "apply_patch_approval_request");
    assert_eq!(EventKind::ExecCommandEnd.name(), "exec_command_end");
    assert_eq!(EventKind::McpStartupUpdate.name(), "mcp_startup_update");
    assert_eq!(EventKind::Other("x_y".to_string()).name(), "x_y");
}

#[test]
fn decimal_rendering() {
    assert_eq!(decimal_string(0), "0");
    assert_eq!(decimal_string(7), "7");
    assert_eq!(decimal_string(10), "10");
    assert_eq!(decimal_string(1234567890), "1234567890");
    assert_eq!(decimal_string(u64::MAX), u64::MAX.to_string());
}
