use pda_to_cfg::pda::{Trans, PDA};
use pda_to_cfg::transformer::{
    empty_stack, ensure_accept_nostates, names_only_declared, normalize, only_push_pop,
    single_accept, PDAError,
};

fn names(list: &[&str]) -> Vec<String> {
    list.iter().map(|n| n.to_string()).collect()
}

fn t(state: &str, input: &str, pop: &str, next: &str, push: &str) -> Trans {
    Trans::new(
        state.to_string(),
        input.to_string(),
        pop.to_string(),
        next.to_string(),
        push.to_string(),
    )
}

fn automaton(
    states: &[&str],
    input: &[&str],
    stack: &[&str],
    start: &str,
    accept: &[&str],
    transitions: Vec<Trans>,
) -> PDA {
    let mut pda = PDA::build();
    pda.set_states(names(states));
    pda.set_ialpha(names(input));
    pda.set_salpha(names(stack));
    pda.set_start(start.to_string());
    pda.set_accept(names(accept));
    pda.set_trans(transitions);
    pda
}

fn small() -> PDA {
    automaton(&["q0", "q1"], &["a"], &["X"], "q0", &["q1"], vec![t("q0", "a", "~", "q1", "X")])
}

fn is_pure(tr: &Trans) -> bool {
    (tr.pop == "~") != (tr.push == "~")
}

#[test]
fn validator_refuses_an_automaton_without_accept_states() {
    let pda = automaton(&["q0"], &[], &[], "q0", &[], vec![]);
    assert_eq!(ensure_accept_nostates(pda), Err(PDAError::NoAccept));
}

#[test]
fn validator_refuses_an_automaton_without_states() {
    let pda = automaton(&[], &[], &[], "q0", &["q0"], vec![]);
    assert_eq!(ensure_accept_nostates(pda), Err(PDAError::NoStates));
}

#[test]
fn validator_checks_states_before_accept_states() {
    let pda = automaton(&[], &[], &[], "q0", &[], vec![]);
    assert_eq!(ensure_accept_nostates(pda), Err(PDAError::NoStates));
    assert_eq!(ensure_accept_nostates(PDA::build()), Err(PDAError::NoStates));
}

#[test]
fn validator_hands_a_valid_automaton_back_unchanged() {
    let pda = small();
    assert_eq!(ensure_accept_nostates(pda.clone()), Ok(pda));
}

#[test]
fn validator_does_not_look_at_transitions() {
    let pda = automaton(&["q0"], &[], &[], "nowhere", &["q9"], vec![t("x", "y", "z", "v", "w")]);
    assert_eq!(ensure_accept_nostates(pda.clone()), Ok(pda));
}

#[test]
fn error_messages() {
    assert_eq!(PDAError::NoStates.message(), "No states");
    assert_eq!(PDAError::NoAccept.message(), "No accept states found");
}

#[test]
fn empty_stack_adds_start_state_and_marker() {
    let mut pda = small();
    let expected = automaton(
        &["q0", "q1", "qS"],
        &["a"],
        &["X"],
        "qS",
        &["q1"],
        vec![t("q0", "a", "~", "q1", "X"), t("qS", "~", "~", "q0", "#"), t("q1", "~", "#", "qF", "~")],
    );
    let returned = empty_stack(&mut pda).map(|p| p.clone());
    assert_eq!(returned, Ok(expected.clone()));
    assert_eq!(pda, expected);
}

#[test]
fn empty_stack_handles_each_accept_state_in_order() {
    let mut pda = automaton(&["a", "b", "c"], &[], &[], "a", &["c", "a"], vec![]);
    assert!(empty_stack(&mut pda).is_ok());
    assert_eq!(
        pda.transitions,
        vec![t("qS", "~", "~", "a", "#"), t("c", "~", "#", "qF", "~"), t("a", "~", "#", "qF", "~")]
    );
    assert_eq!(pda.accept_states, names(&["c", "a"]));
}

#[test]
fn empty_stack_avoids_names_that_are_taken() {
    let mut pda = automaton(
        &["qS", "qF", "qS'"],
        &[],
        &["#", "X"],
        "qS",
        &["qF"],
        vec![t("qS", "a", "~", "qF", "#")],
    );
    assert!(empty_stack(&mut pda).is_ok());
    assert_eq!(pda.states, names(&["qS", "qF", "qS'", "qS''"]));
    assert_eq!(pda.start_state, "qS''");
    assert_eq!(pda.stack_alphabet, names(&["#", "X"]));
    assert_eq!(
        pda.transitions,
        vec![
            t("qS", "a", "~", "qF", "#"),
            t("qS''", "~", "~", "qS", "#'"),
            t("qF", "~", "#'", "qF'", "~"),
        ]
    );
}

#[test]
fn single_accept_adds_the_accept_state() {
    let mut pda = small();
    single_accept(&mut pda);
    let expected = automaton(
        &["q0", "q1", "qF"],
        &["a", "~"],
        &["X"],
        "q0",
        &["qF"],
        vec![t("q0", "a", "~", "q1", "X"), t("q1", "~", "~", "qF", "~")],
    );
    assert_eq!(pda, expected);
}

#[test]
fn single_accept_keeps_an_epsilon_that_is_there() {
    let mut pda = automaton(&["p"], &["~", "a"], &[], "p", &["p", "p"], vec![]);
    single_accept(&mut pda);
    assert_eq!(pda.input_alphabet, names(&["~", "a"]));
    assert_eq!(pda.accept_states, names(&["qF"]));
    assert_eq!(pda.transitions, vec![t("p", "~", "~", "qF", "~"), t("p", "~", "~", "qF", "~")]);
}

#[test]
fn single_accept_targets_the_state_that_empty_stack_named() {
    let mut pda = automaton(&["qF", "q"], &[], &[], "q", &["q"], vec![]);
    assert!(empty_stack(&mut pda).is_ok());
    assert_eq!(pda.transitions[1], t("q", "~", "#", "qF'", "~"));
    single_accept(&mut pda);
    assert_eq!(pda.accept_states, names(&["qF'"]));
    assert_eq!(pda.states, names(&["qF", "q", "qS", "qF'"]));
}

#[test]
fn only_push_pop_splits_a_transition_that_pops_and_pushes() {
    let mut pda = automaton(&["p", "q"], &["a"], &["X", "Y"], "p", &["q"], vec![t("p", "a", "X", "q", "Y")]);
    only_push_pop(&mut pda);
    assert_eq!(pda.states, names(&["p", "q", "p_P0P"]));
    assert_eq!(
        pda.transitions,
        vec![t("p", "a", "X", "p_P0P", "~"), t("p_P0P", "~", "~", "q", "Y")]
    );
    assert_eq!(pda.start_state, "p");
    assert_eq!(pda.accept_states, names(&["q"]));
    assert_eq!(pda.input_alphabet, names(&["a"]));
    assert_eq!(pda.stack_alphabet, names(&["X", "Y"]));
}

#[test]
fn only_push_pop_splits_a_transition_that_leaves_the_stack_alone() {
    let mut pda = automaton(&["p", "q"], &["a"], &[], "p", &["q"], vec![t("p", "a", "~", "q", "~")]);
    only_push_pop(&mut pda);
    assert_eq!(pda.states, names(&["p", "q", "p_P0P"]));
    assert_eq!(
        pda.transitions,
        vec![t("p", "a", "~", "p_P0P", "%"), t("p_P0P", "~", "%", "q", "~")]
    );
}

#[test]
fn only_push_pop_numbers_the_splits_and_appends_second_halves() {
    let mut pda = automaton(
        &["p", "q"],
        &["a", "b"],
        &["X"],
        "p",
        &["q"],
        vec![
            t("p", "a", "~", "q", "~"),
            t("p", "a", "~", "q", "X"),
            t("q", "b", "X", "p", "X"),
            t("q", "b", "X", "p", "~"),
            t("p", "b", "~", "p", "~"),
        ],
    );
    only_push_pop(&mut pda);
    assert_eq!(pda.states, names(&["p", "q", "p_P0P", "q_P1P", "p_P2P"]));
    assert_eq!(
        pda.transitions,
        vec![
            t("p", "a", "~", "p_P0P", "%"),
            t("p", "a", "~", "q", "X"),
            t("q", "b", "X", "q_P1P", "~"),
            t("q", "b", "X", "p", "~"),
            t("p", "b", "~", "p_P2P", "%"),
            t("p_P0P", "~", "%", "q", "~"),
            t("q_P1P", "~", "~", "p", "X"),
            t("p_P2P", "~", "%", "p", "~"),
        ]
    );
}

#[test]
fn only_push_pop_picks_names_that_no_state_has() {
    let mut pda = automaton(
        &["p", "p_P0P", "p_P0P'", "p_P1P"],
        &[],
        &[],
        "p",
        &["p"],
        vec![t("p", "~", "~", "p", "~"), t("p", "~", "~", "p", "~"), t("p", "~", "~", "p", "~")],
    );
    only_push_pop(&mut pda);
    assert_eq!(
        pda.states,
        names(&["p", "p_P0P", "p_P0P'", "p_P1P", "p_P0P''", "p_P1P'", "p_P2P"])
    );
    let mut sorted = pda.states.clone();
    sorted.sort();
    sorted.dedup();
    assert_eq!(sorted.len(), pda.states.len());
}

#[test]
fn only_push_pop_counts_past_nine() {
    let moves: Vec<Trans> = (0..12).map(|_| t("s", "~", "~", "s", "~")).collect();
    let mut pda = automaton(&["s"], &[], &[], "s", &["s"], moves);
    only_push_pop(&mut pda);
    assert_eq!(pda.states.len(), 13);
    assert_eq!(pda.states[10], "s_P9P");
    assert_eq!(pda.states[11], "s_P10P");
    assert_eq!(pda.states[12], "s_P11P");
    assert_eq!(pda.transitions[23], t("s_P11P", "~", "%", "s", "~"));
}

#[test]
fn only_push_pop_leaves_pure_transitions_alone() {
    let mut pda = automaton(
        &["p", "q"],
        &["a"],
        &["X"],
        "p",
        &["q"],
        vec![t("p", "a", "~", "q", "X"), t("q", "a", "X", "p", "~")],
    );
    let before = pda.clone();
    only_push_pop(&mut pda);
    assert_eq!(pda, before);
}

#[test]
fn only_push_pop_twice_is_only_push_pop_once() {
    let mut pda = automaton(
        &["p", "q"],
        &["a"],
        &["X"],
        "p",
        &["q"],
        vec![t("p", "a", "~", "q", "~"), t("p", "a", "X", "q", "X"), t("q", "a", "X", "p", "~")],
    );
    only_push_pop(&mut pda);
    let once = pda.clone();
    assert_eq!(once.transitions.len(), 5);
    only_push_pop(&mut pda);
    assert_eq!(pda, once);
}

#[test]
fn normalize_runs_the_three_passes_in_order() {
    let mut pda = small();
    normalize(&mut pda);
    let expected = automaton(
        &["q0", "q1", "qS", "qF", "q1_P0P"],
        &["a", "~"],
        &["X"],
        "qS",
        &["qF"],
        vec![
            t("q0", "a", "~", "q1", "X"),
            t("qS", "~", "~", "q0", "#"),
            t("q1", "~", "#", "qF", "~"),
            t("q1", "~", "~", "q1_P0P", "%"),
            t("q1_P0P", "~", "%", "qF", "~"),
        ],
    );
    assert_eq!(pda, expected);
    let mut by_hand = small();
    assert!(empty_stack(&mut by_hand).is_ok());
    single_accept(&mut by_hand);
    only_push_pop(&mut by_hand);
    assert_eq!(by_hand, expected);
}

#[test]
fn normal_form_has_one_accept_state_pure_moves_and_one_way_out_of_start() {
    let mut pda = automaton(
        &["a", "b", "c"],
        &["0", "1"],
        &["X", "Y"],
        "a",
        &["b", "c"],
        vec![
            t("a", "0", "~", "b", "X"),
            t("b", "1", "X", "c", "Y"),
            t("c", "~", "~", "a", "~"),
            t("c", "1", "Y", "c", "~"),
        ],
    );
    let stack_before = pda.stack_alphabet.clone();
    normalize(&mut pda);
    assert_eq!(pda.accept_states.len(), 1);
    assert!(pda.transitions.iter().all(is_pure));
    let out: Vec<&Trans> = pda.transitions.iter().filter(|x| x.state == pda.start_state).collect();
    assert_eq!(out.len(), 1);
    assert_eq!(out[0].pop, "~");
    assert_eq!(out[0].next, "a");
    assert!(!stack_before.contains(&out[0].push));
    assert_ne!(out[0].push, "~");
    assert_eq!(pda.transitions.len(), 4 + 1 + 2 + 2 + 4);
}

#[test]
fn normal_form_of_an_automaton_that_uses_the_reserved_names() {
    let mut pda = automaton(
        &["qS", "qF"],
        &["a"],
        &["#", "%"],
        "qS",
        &["qF"],
        vec![t("qS", "a", "~", "qF", "#"), t("qF", "a", "#", "qS", "%")],
    );
    normalize(&mut pda);
    assert_eq!(pda.start_state, "qS'");
    assert_eq!(pda.accept_states, names(&["qF'"]));
    assert!(pda.transitions.iter().all(is_pure));
    let out: Vec<&Trans> = pda.transitions.iter().filter(|x| x.state == "qS'").collect();
    assert_eq!(out.len(), 1);
    assert_eq!(*out[0], t("qS'", "~", "~", "qS", "#'"));
}

#[test]
fn names_only_declared_accepts_an_automaton_that_declares_what_it_names() {
    assert!(names_only_declared(&small()));
    let pda = automaton(
        &["p", "q"],
        &["a"],
        &["X", "Y"],
        "p",
        &["q", "p"],
        vec![t("p", "a", "X", "q", "Y"), t("q", "~", "~", "p", "~"), t("q", "b", "~", "q", "X")],
    );
    assert!(names_only_declared(&pda));
}

#[test]
fn names_only_declared_finds_what_is_not_declared() {
    let good = vec![t("p", "a", "~", "q", "X")];
    let bad_start = automaton(&["p", "q"], &["a"], &["X"], "r", &["q"], good.clone());
    assert!(!names_only_declared(&bad_start));
    let bad_accept = automaton(&["p", "q"], &["a"], &["X"], "p", &["q", "r"], good.clone());
    assert!(!names_only_declared(&bad_accept));
    let bad_origin =
        automaton(&["p", "q"], &["a"], &["X"], "p", &["q"], vec![t("r", "a", "~", "q", "X")]);
    assert!(!names_only_declared(&bad_origin));
    let bad_next =
        automaton(&["p", "q"], &["a"], &["X"], "p", &["q"], vec![t("p", "a", "~", "r", "X")]);
    assert!(!names_only_declared(&bad_next));
    let bad_pop =
        automaton(&["p", "q"], &["a"], &["X"], "p", &["q"], vec![t("p", "a", "Y", "q", "~")]);
    assert!(!names_only_declared(&bad_pop));
    let bad_push =
        automaton(&["p", "q"], &["a"], &["X"], "p", &["q"], vec![t("p", "a", "~", "q", "Y")]);
    assert!(!names_only_declared(&bad_push));
    assert!(!names_only_declared(&PDA::build()));
}

#[test]
fn names_only_declared_does_not_ask_for_declared_input_symbols() {
    let pda = automaton(&["p"], &[], &["X"], "p", &[], vec![t("p", "z", "~", "p", "X")]);
    assert!(names_only_declared(&pda));
}
