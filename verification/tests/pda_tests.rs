use pda_to_cfg::pda::{Trans, PDA};

fn s(text: &str) -> String {
    text.to_string()
}

#[test]
fn test_pda_creation() {
    let mut pda = PDA::build();
    pda.set_start("foo".into());
    assert_eq!(pda.start_state, "foo".to_string());
}

#[test]
fn build_gives_an_empty_automaton() {
    let pda = PDA::build();
    assert!(pda.states.is_empty());
    assert!(pda.input_alphabet.is_empty());
    assert!(pda.stack_alphabet.is_empty());
    assert_eq!(pda.start_state, "Error");
    assert!(pda.accept_states.is_empty());
    assert!(pda.transitions.is_empty());
}

#[test]
fn setters_replace_their_field_only() {
    let mut pda = PDA::build();
    pda.set_states(vec![s("q0"), s("q1")]);
    pda.set_ialpha(vec![s("a")]);
    pda.set_salpha(vec![s("X"), s("Y")]);
    pda.set_start(s("q0"));
    pda.set_accept(vec![s("q1")]);
    assert_eq!(pda.states, vec![s("q0"), s("q1")]);
    assert_eq!(pda.input_alphabet, vec![s("a")]);
    assert_eq!(pda.stack_alphabet, vec![s("X"), s("Y")]);
    assert_eq!(pda.start_state, "q0");
    assert_eq!(pda.accept_states, vec![s("q1")]);
    assert!(pda.transitions.is_empty());
    pda.set_states(vec![s("p")]);
    assert_eq!(pda.states, vec![s("p")]);
    assert_eq!(pda.accept_states, vec![s("q1")]);
}

#[test]
fn set_trans_appends() {
    let mut pda = PDA::build();
    pda.set_trans(vec![Trans::new(s("q0"), s("a"), s("~"), s("q1"), s("X"))]);
    pda.set_trans(vec![Trans::new(s("q1"), s("b"), s("X"), s("q0"), s("~"))]);
    assert_eq!(pda.transitions.len(), 2);
    assert_eq!(pda.transitions[0].state, "q0");
    assert_eq!(pda.transitions[0].input, "a");
    assert_eq!(pda.transitions[0].pop, "~");
    assert_eq!(pda.transitions[0].next, "q1");
    assert_eq!(pda.transitions[0].push, "X");
    assert_eq!(pda.transitions[1].state, "q1");
    assert_eq!(pda.transitions[1].pop, "X");
}
