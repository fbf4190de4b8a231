use command_router::commands::key_value_pair;
use command_router::state_machine::{CharacterSet, StateMachine};

#[test]
fn literal_class_accepts_only_its_character() {
    let class = CharacterSet::from_char('a');
    assert!(class.accepts('a'));
    assert!(!class.accepts('b'));
}

#[test]
fn insert_converts_literal_to_inclusion_set() {
    let class = CharacterSet::from_char(' ').insert('\n');
    assert!(class.accepts(' '));
    assert!(class.accepts('\n'));
    assert!(!class.accepts('x'));
}

#[test]
fn remove_converts_any_to_exclusion_set() {
    let class = CharacterSet::any().remove(' ');
    assert!(class.accepts('x'));
    assert!(class.accepts('\n'));
    assert!(!class.accepts(' '));
}

#[test]
fn inclusion_set_accepts_exactly_its_characters() {
    let class = CharacterSet::from_chars(vec!['x', 'y']);
    assert!(class.accepts('x'));
    assert!(class.accepts('y'));
    assert!(!class.accepts('z'));
}

#[test]
fn structural_equality_distinguishes_variants() {
    let lit = CharacterSet::from_char('a');
    let lit2 = CharacterSet::from_char('a');
    let other = CharacterSet::from_char('b');
    let set = CharacterSet::any().remove('a');
    assert!(lit.equals(&lit2));
    assert!(!lit.equals(&other));
    assert!(!lit.equals(&set));
}

#[test]
fn add_edge_shares_structurally_equal_edges() {
    let mut machine: StateMachine<u8> = StateMachine::new();
    let s1 = machine.add_edge(0, CharacterSet::from_char('a'));
    let s2 = machine.add_edge(0, CharacterSet::from_char('a'));
    let s3 = machine.add_edge(0, CharacterSet::from_char('b'));
    assert_eq!(s1, s2);
    assert_ne!(s1, s3);
}

#[test]
fn process_prefers_earlier_edges() {
    let mut machine: StateMachine<u8> = StateMachine::new();
    let lit = machine.add_edge(0, CharacterSet::from_char('a'));
    machine.mark_final(lit, 1);
    let wild = machine.add_edge(0, CharacterSet::any());
    machine.mark_final(wild, 2);
    let m = machine.process("a").expect("a must match");
    assert_eq!(m.handler, 1);
    let other = machine.process("z").expect("z must match the wildcard");
    assert_eq!(other.handler, 2);
}

#[test]
fn process_requires_full_consumption_on_a_final_state() {
    let mut machine: StateMachine<u8> = StateMachine::new();
    let a = machine.add_edge(0, CharacterSet::from_char('a'));
    let b = machine.add_edge(a, CharacterSet::from_char('b'));
    machine.mark_final(b, 1);
    assert!(machine.process("a").is_none());
    assert!(machine.process("ab").is_some());
    assert!(machine.process("abc").is_none());
    assert!(machine.process("").is_none());
}

#[test]
fn capture_anchor_accumulates_span() {
    let mut machine: StateMachine<u8> = StateMachine::new();
    let a = machine.add_edge(0, CharacterSet::from_char(':'));
    let anchor = machine.add_edge(a, CharacterSet::any());
    machine.add_alias_edge(anchor, CharacterSet::any(), anchor);
    machine.mark_capture_begin(anchor, "rest");
    machine.mark_capture_end(anchor, "rest");
    machine.mark_final(anchor, 1);
    let m = machine.process(":abc").expect("must match");
    assert_eq!(m.params.get("rest").unwrap().as_str(), "abc");
}

#[test]
fn key_value_pair_requires_nonempty_name() {
    assert_eq!(key_value_pair("key={}").unwrap().as_str(), "key");
    assert!(key_value_pair("={}").is_none());
    assert!(key_value_pair("key={").is_none());
    assert!(key_value_pair("key").is_none());
}
