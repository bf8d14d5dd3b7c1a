use fast_mcp_ssh::config::{Guards, HumanDuration};
use fast_mcp_ssh::confirm::{
    answer_for, answer_from_elicitation, key_for, yes_from, Answer, Approvals, Ask, Confirm,
    KeyedReply, Reply, ReplyAction,
};
use fast_mcp_ssh::errors::SshError;
use fast_mcp_ssh::guards::CompiledGuards;
use fast_mcp_ssh::paths::LocalEnv;
use fast_mcp_ssh::server::{
    check_shell_slot, listing_order, listing_ttl_ms, resolve_host, run_guards, settle, task_ttl_ms,
    Guarded,
};

#[test]
fn key_is_stable_and_field_separated() {
    assert_eq!(key_for(&["web", "rm -rf /"]), key_for(&["web", "rm -rf /"]));
    // Without a separator these two would collide.
    assert_ne!(key_for(&["ab", "c"]), key_for(&["a", "bc"]));
}

#[test]
fn an_unasked_key_has_no_answer_and_garbage_denies() {
    let answers = vec![KeyedReply {
        key: "k".into(),
        reply: None,
    }];
    assert_eq!(answer_for(&answers, "other"), None);
    assert_eq!(answer_for(&answers, "k"), Some(Answer::Denied));
}

fn reply(action: ReplyAction, answer: Option<&str>) -> Reply {
    Reply {
        action,
        answer: answer.map(str::to_string),
    }
}

#[test]
fn only_an_accepted_yes_approves() {
    let accept = |answer: &str| reply(ReplyAction::Accept, Some(answer));
    assert_eq!(yes_from(&accept("yes")), Answer::Approved);
    assert_eq!(yes_from(&accept("  YES \n")), Answer::Approved);
    assert_eq!(yes_from(&accept("no")), Answer::Denied);
    assert_eq!(yes_from(&accept("")), Answer::Denied);
    // Accepted with no content at all is not a yes.
    assert_eq!(yes_from(&reply(ReplyAction::Accept, None)), Answer::Denied);
    // A decline carrying a "yes" payload is still a no.
    assert_eq!(
        yes_from(&reply(ReplyAction::Decline, Some("yes"))),
        Answer::Denied
    );
    assert_eq!(yes_from(&reply(ReplyAction::Cancel, None)), Answer::Denied);
}

#[test]
fn an_elicited_answer_is_read_the_same_way() {
    assert_eq!(answer_from_elicitation(Some(" Yes")), Answer::Approved);
    assert_eq!(answer_from_elicitation(Some("y")), Answer::Denied);
    assert_eq!(answer_from_elicitation(None), Answer::Denied);
}

#[test]
fn a_question_waits_for_the_next_round() {
    let mut c = Confirm::new(true, vec![]);
    assert_eq!(c.ask("k", "sure?"), Ask::Known(Answer::Deferred));
    // The same question is queued once.
    assert_eq!(c.ask("k", "sure?"), Ask::Known(Answer::Deferred));
    assert!(c.deferred());
    let q = c.into_questions();
    assert_eq!(q.len(), 1);
    assert_eq!((q[0].key.as_str(), q[0].prompt.as_str()), ("k", "sure?"));
}

#[test]
fn a_reply_answers_its_question() {
    let mut c = Confirm::new(
        true,
        vec![KeyedReply {
            key: "k".into(),
            reply: Some(reply(ReplyAction::Accept, Some("yes"))),
        }],
    );
    assert_eq!(c.ask("k", "sure?"), Ask::Known(Answer::Approved));
    assert!(!c.deferred());
}

#[test]
fn a_client_without_rounds_is_asked_at_once() {
    let mut c = Confirm::new(false, vec![]);
    assert_eq!(c.ask("k", "sure?"), Ask::Elicit);
    assert!(!c.deferred());
}

#[test]
fn an_approval_is_for_one_command_and_a_while() {
    let ttl = HumanDuration::from_secs(10);
    let mut a = Approvals::new();
    a.remember("web", "reboot", 1000, ttl);
    assert!(a.remembered("web", "reboot", 1000, ttl));
    assert!(a.remembered("web", "reboot", 10_999, ttl));
    assert!(!a.remembered("web", "shutdown", 1000, ttl));
    assert!(!a.remembered("db", "reboot", 1000, ttl));
    assert!(!a.remembered("web", "reboot", 11_000, ttl));
    a.remember("web", "reboot", 1000, ttl);
    a.forget();
    assert!(!a.remembered("web", "reboot", 1000, ttl));
    // Without a duration nothing is remembered.
    let none = HumanDuration::from_secs(0);
    a.remember("web", "reboot", 1000, none);
    assert!(!a.remembered("web", "reboot", 1000, none));
}

fn guards() -> CompiledGuards {
    let env = LocalEnv {
        home: Some("/home/alice".into()),
        cwd: None,
        windows: false,
        real_dirs: vec![],
    };
    CompiledGuards::compile(&Guards::default(), &env).unwrap()
}

#[test]
fn a_command_runs_only_when_it_may() {
    let g = guards();
    let ttl = HumanDuration::from_secs(60);
    let mut a = Approvals::new();
    let mut c = Confirm::new(false, vec![]);
    assert!(matches!(
        run_guards(&g, &mut a, &mut c, "web", "ls", 0, ttl),
        Ok(Guarded::Passed)
    ));
    assert!(matches!(
        run_guards(&g, &mut a, &mut c, "web", "rm -rf /", 0, ttl),
        Err(SshError::BlockedByGuard { .. })
    ));
    match run_guards(&g, &mut a, &mut c, "web", "reboot", 0, ttl) {
        Ok(Guarded::Elicit { prompt }) => assert!(prompt.contains("reboot"), "got: {prompt}"),
        other => panic!("expected a question, got {other:?}"),
    }
    assert!(matches!(
        settle(Answer::Denied, &mut a, "web", "reboot", 0, ttl),
        Err(SshError::ConfirmationDenied)
    ));
    assert!(matches!(
        settle(Answer::Approved, &mut a, "web", "reboot", 0, ttl),
        Ok(Guarded::Passed)
    ));
    // An approval is remembered.
    assert!(matches!(
        run_guards(&g, &mut a, &mut c, "web", "reboot", 1, ttl),
        Ok(Guarded::Passed)
    ));
}

#[test]
fn a_call_without_a_host_takes_the_default() {
    assert_eq!(
        resolve_host(Some("a".into()), &Some("b".into())).unwrap(),
        "a"
    );
    assert_eq!(resolve_host(None, &Some("b".into())).unwrap(), "b");
    assert!(matches!(
        resolve_host(None, &None),
        Err(SshError::Config(_))
    ));
}

#[test]
fn a_host_has_room_for_eight_named_shells() {
    assert!(check_shell_slot(7).is_ok());
    assert!(matches!(check_shell_slot(8), Err(SshError::Config(_))));
}

#[test]
fn a_task_outlives_its_budget() {
    assert!(task_ttl_ms(1000) > 1000);
}

#[test]
fn the_listing_does_not_depend_on_registration() {
    let listed = |names: Vec<String>| -> Vec<String> {
        let order = listing_order(&names);
        order.into_iter().map(|i| names[i].clone()).collect()
    };
    let a = listed(vec!["sh".into(), "exec".into(), "ls".into()]);
    let b = listed(vec!["ls".into(), "sh".into(), "exec".into()]);
    assert_eq!(a, b);
    assert_eq!(a, vec!["exec", "ls", "sh"]);
    assert_eq!(listing_ttl_ms(true), Some(3_600_000));
    assert_eq!(listing_ttl_ms(false), None);
}

#[test]
fn tools_are_listed_by_name() {
    let names: Vec<String> = ["sh", "exec", "ls"].iter().map(|s| s.to_string()).collect();
    assert_eq!(listing_order(&names), vec![1, 2, 0]);
}
