use command_router::commands::{
    evaluate_verdict, AuthorizationOutcome, Commands, CompileError, Guard,
};

fn fresh() -> Commands<u32, bool> {
    Commands::new()
}

#[test]
fn prefix_sharing_selects_short_template() {
    let mut cmds = fresh();
    cmds.add("?ping", 1).unwrap();
    let states_after_first = cmds.state_machine.states.len();
    cmds.add("?ping loud", 2).unwrap();
    // the second template reuses the whole `?ping` path: only the whitespace
    // hub and the four letters of `loud` allocate new states
    assert_eq!(cmds.state_machine.states.len(), states_after_first + 5);
    let short = cmds.execute("?ping").expect("short template must still match");
    assert_eq!(short.handler, 1);
    let long = cmds.execute("?ping loud").expect("long template must match");
    assert_eq!(long.handler, 2);
}

#[test]
fn literal_beats_wildcard_registered_later() {
    let mut cmds = fresh();
    cmds.add("?echo hi", 1).unwrap();
    cmds.add("?echo {msg}", 2).unwrap();
    let inv = cmds.execute("?echo hi").expect("literal input must match");
    assert_eq!(inv.handler, 1);
    assert!(inv.params.get("msg").is_none());
}

#[test]
fn wildcard_captures_other_tokens() {
    let mut cmds = fresh();
    cmds.add("?echo hi", 1).unwrap();
    cmds.add("?echo {msg}", 2).unwrap();
    let inv = cmds.execute("?echo zap").expect("wildcard input must match");
    assert_eq!(inv.handler, 2);
    assert_eq!(inv.params.get("msg").unwrap().as_str(), "zap");
}

#[test]
fn placeholder_capture_yields_token() {
    let mut cmds = fresh();
    cmds.add("?say {msg}", 1).unwrap();
    let inv = cmds.execute("?say hello").expect("placeholder must match");
    assert_eq!(inv.params.get("msg").unwrap().as_str(), "hello");
}

#[test]
fn remainder_capture_keeps_whitespace() {
    let mut cmds = fresh();
    cmds.add("?notify note...", 1).unwrap();
    let inv = cmds.execute("?notify hello world\nmore").expect("remainder must match");
    assert_eq!(inv.params.get("note").unwrap().as_str(), "hello world\nmore");
}

#[test]
fn key_value_prefixes_each_accept() {
    let mut cmds = fresh();
    cmds.add("?cfg set a={} b={}", 1).unwrap();

    let none = cmds.execute("?cfg set").expect("zero flags must be accepted");
    assert_eq!(none.handler, 1);
    assert!(none.params.is_empty());

    let one = cmds.execute("?cfg set a=1").expect("one flag must be accepted");
    assert_eq!(one.params.get("a").unwrap().as_str(), "1");
    assert!(one.params.get("b").is_none());

    let two = cmds.execute("?cfg set a=1 b=2").expect("both flags must be accepted");
    assert_eq!(two.params.get("a").unwrap().as_str(), "1");
    assert_eq!(two.params.get("b").unwrap().as_str(), "2");
}

#[test]
fn inline_code_capture() {
    let mut cmds = fresh();
    cmds.add("?run `code`", 1).unwrap();
    let inv = cmds.execute("?run `let x = 1`").expect("inline code must match");
    assert_eq!(inv.params.get("code").unwrap().as_str(), "let x = 1");
}

#[test]
fn wide_inline_code_capture() {
    let mut cmds = fresh();
    cmds.add("?show ```text```", 1).unwrap();
    let inv = cmds.execute("?show ```a b c```").expect("wide inline code must match");
    assert_eq!(inv.params.get("text").unwrap().as_str(), "a b c");
}

#[test]
fn block_code_capture_without_tag() {
    let mut cmds = fresh();
    cmds.add("?eval ```\ncode```", 1).unwrap();
    let inv = cmds.execute("?eval ```\nlet x=1```").expect("block code must match");
    assert_eq!(inv.params.get("code").unwrap().as_str(), "let x=1");
}

#[test]
fn block_code_capture_skips_language_tag() {
    let mut cmds = fresh();
    cmds.add("?eval ```\ncode```", 1).unwrap();
    let inv = cmds.execute("?eval ```rust\nlet x=1```").expect("tagged block code must match");
    assert_eq!(inv.params.get("code").unwrap().as_str(), "let x=1");
}

#[test]
fn partial_prefix_does_not_match() {
    let mut cmds = fresh();
    cmds.add("?ping", 1).unwrap();
    assert!(cmds.execute("?pin").is_none());
    assert!(cmds.execute("?pingg").is_none());
}

#[test]
fn unmarked_or_empty_message_does_not_match() {
    let mut cmds = fresh();
    cmds.add("?ping", 1).unwrap();
    assert!(cmds.execute("ping").is_none());
    assert!(cmds.execute("").is_none());
}

#[test]
fn rejecting_guard_routes_to_unauthorized_only() {
    let mut cmds = fresh();
    // the guard payload is the verdict an always-false guard would return
    cmds.add_protected("?admin", 7, false).unwrap();
    let inv = cmds.execute("?admin").expect("structurally matching input");
    let verdict: Result<bool, String> = match inv.guard {
        Guard::Always => Ok(true),
        Guard::Custom(allow) => Ok(allow),
    };
    let mut handler_ran = false;
    let mut unauthorized_ran = false;
    match evaluate_verdict(verdict) {
        AuthorizationOutcome::Granted => {
            handler_ran = true;
        }
        AuthorizationOutcome::Denied => {
            unauthorized_ran = true;
        }
        AuthorizationOutcome::Failed(_) => {}
    }
    assert!(!handler_ran);
    assert!(unauthorized_ran);
}

#[test]
fn failing_guard_reports_error() {
    let verdict: Result<bool, String> = Err(String::from("guard broke"));
    match evaluate_verdict(verdict) {
        AuthorizationOutcome::Failed(e) => assert_eq!(e, "guard broke"),
        _ => panic!("a guard error must be reported"),
    }
}

#[test]
fn help_extraction_is_one_shot() {
    let mut cmds = fresh();
    cmds.help("?ping", "check liveness", 1);
    cmds.help_protected("?purge", "drop messages", 2, false);
    let first = cmds.menu().expect("first extraction returns the listing");
    assert_eq!(first.len(), 2);
    assert_eq!(first[0].command.as_str(), "?ping");
    assert_eq!(first[0].description.as_str(), "check liveness");
    assert!(matches!(first[0].guard, Guard::Always));
    assert_eq!(first[1].command.as_str(), "?purge");
    assert!(matches!(first[1].guard, Guard::Custom(false)));
    assert!(cmds.menu().is_none());
}

#[test]
fn help_path_matches_base_command() {
    let mut cmds = fresh();
    cmds.help("?ping", "check liveness", 9);
    let inv = cmds.execute("?help ping").expect("help path must match");
    assert_eq!(inv.handler, 9);
    assert!(cmds.execute("?help pong").is_none());
}

#[test]
fn unterminated_fence_is_rejected() {
    let mut cmds = fresh();
    assert_eq!(cmds.add("?x `oops", 1), Err(CompileError::UnterminatedCodeFence));
    // the failed registration left nothing behind
    assert!(cmds.execute("?x `oops").is_none());
}

#[test]
fn empty_key_name_is_rejected() {
    let mut cmds = fresh();
    assert_eq!(cmds.add("?x ={}", 1), Err(CompileError::EmptyKeyName));
}

#[test]
fn repeated_spaces_between_segments_are_allowed() {
    let mut cmds = fresh();
    cmds.add("?cfg  get", 1).unwrap();
    let inv = cmds.execute("?cfg   get").expect("whitespace hub loops");
    assert_eq!(inv.handler, 1);
}

#[test]
fn last_registration_wins_on_same_accepting_state() {
    let mut cmds = fresh();
    cmds.add("?ping", 1).unwrap();
    cmds.add("?ping", 2).unwrap();
    let inv = cmds.execute("?ping").expect("shared state stays final");
    assert_eq!(inv.handler, 2);
}

#[test]
fn repeated_flag_keeps_latest_value() {
    let mut cmds = fresh();
    cmds.add("?cfg set a={} b={}", 1).unwrap();
    let inv = cmds.execute("?cfg set a=1 a=2").expect("flags may repeat");
    assert_eq!(inv.params.get("a").unwrap().as_str(), "2");
}

#[test]
fn trailing_separator_is_not_accepted() {
    let mut cmds = fresh();
    cmds.add("?cfg set a={} b={}", 1).unwrap();
    assert!(cmds.execute("?cfg set ").is_none());
    assert!(cmds.execute("?cfg set a=").is_none());
}

#[test]
fn later_help_registration_overwrites_earlier() {
    let mut cmds = fresh();
    cmds.help("?ping", "first description", 1);
    cmds.help("?other", "another command", 2);
    cmds.help_protected("?ping", "second description", 3, false);
    let listing = cmds.menu().expect("first extraction returns the listing");
    // one entry per command: the later ?ping registration replaced the
    // earlier description and guard, in place
    assert_eq!(listing.len(), 2);
    assert_eq!(listing[0].command.as_str(), "?ping");
    assert_eq!(listing[0].description.as_str(), "second description");
    assert!(matches!(listing[0].guard, Guard::Custom(false)));
    assert_eq!(listing[1].command.as_str(), "?other");
    assert_eq!(listing[1].description.as_str(), "another command");
}
