use pda_to_cfg::grammar::{Grammar, CFG};
use pda_to_cfg::pda::{Trans, PDA};
use pda_to_cfg::transformer::{eps_rule, ijk_rule, pair_rule, start_rule, synthesize};

fn words(list: &[&str]) -> Vec<String> {
    list.iter().map(|n| n.to_string()).collect()
}

fn mv(state: &str, input: &str, pop: &str, next: &str, push: &str) -> Trans {
    Trans::new(
        state.to_string(),
        input.to_string(),
        pop.to_string(),
        next.to_string(),
        push.to_string(),
    )
}

fn machine(states: &[&str], start: &str, accept: &[&str], transitions: Vec<Trans>) -> PDA {
    let mut pda = PDA::build();
    pda.set_states(words(states));
    pda.set_start(start.to_string());
    pda.set_accept(words(accept));
    pda.set_trans(transitions);
    pda
}

fn production(name: &str, desc: &str) -> Grammar {
    Grammar::new(name.to_string(), desc.to_string())
}

#[test]
fn start_rule_names_start_and_accept_state() {
    let pda = machine(&["p", "q"], "p", &["q"], vec![]);
    let mut cfg = CFG::build();
    start_rule(&pda, &mut cfg);
    assert_eq!(cfg.rules, vec![production("S", "A[p,q]")]);
}

#[test]
fn eps_rule_gives_one_production_for_each_state() {
    let pda = machine(&["q0", "q1", "qS", "qF"], "qS", &["qF"], vec![]);
    let mut cfg = CFG::build();
    eps_rule(&pda, &mut cfg);
    assert_eq!(cfg.rules.len(), pda.states.len());
    assert_eq!(
        cfg.rules,
        vec![
            production("A[q0,q0]", "~"),
            production("A[q1,q1]", "~"),
            production("A[qS,qS]", "~"),
            production("A[qF,qF]", "~"),
        ]
    );
}

#[test]
fn eps_rule_keeps_what_is_there() {
    let pda = machine(&["a", "b"], "a", &["b"], vec![]);
    let mut cfg = CFG { rules: vec![production("S", "A[a,b]"), production("A[b,b]", "x")] };
    eps_rule(&pda, &mut cfg);
    assert_eq!(
        cfg.rules,
        vec![production("S", "A[a,b]"), production("A[b,b]", "x | ~"), production("A[a,a]", "~")]
    );
}

#[test]
fn eps_rule_without_states_adds_nothing() {
    let pda = machine(&[], "a", &[], vec![]);
    let mut cfg = CFG::build();
    eps_rule(&pda, &mut cfg);
    assert!(cfg.rules.is_empty());
}

#[test]
fn ijk_rule_on_one_state() {
    let pda = machine(&["q"], "q", &["q"], vec![]);
    let mut cfg = CFG::build();
    ijk_rule(&pda, &mut cfg);
    assert_eq!(cfg.rules, vec![production("A[q,q]", "A[q,q]A[q,q]")]);
}

#[test]
fn ijk_rule_on_two_states() {
    let pda = machine(&["p", "q"], "p", &["q"], vec![]);
    let mut cfg = CFG::build();
    ijk_rule(&pda, &mut cfg);
    assert_eq!(
        cfg.rules,
        vec![
            production("A[p,p]", "A[p,p]A[p,p] | A[p,q]A[q,p]"),
            production("A[p,q]", "A[p,p]A[p,q] | A[p,q]A[q,q]"),
            production("A[q,p]", "A[q,p]A[p,p] | A[q,q]A[q,p]"),
            production("A[q,q]", "A[q,p]A[p,q] | A[q,q]A[q,q]"),
        ]
    );
}

#[test]
fn ijk_rule_contributes_one_alternative_for_each_triple() {
    let pda = machine(&["a", "b", "c"], "a", &["c"], vec![]);
    let mut cfg = CFG::build();
    ijk_rule(&pda, &mut cfg);
    assert_eq!(cfg.rules.len(), 9);
    for r in cfg.rules.iter() {
        assert_eq!(r.rule_desc.split(" | ").count(), 3);
    }
    assert_eq!(cfg.rules[5], production("A[b,c]", "A[b,a]A[a,c] | A[b,b]A[b,c] | A[b,c]A[c,c]"));
}

#[test]
fn pair_rule_pairs_a_push_with_the_pop_of_its_symbol() {
    let pda = machine(
        &["p", "q", "r", "s"],
        "p",
        &["s"],
        vec![mv("p", "a", "~", "q", "X"), mv("r", "b", "X", "s", "~")],
    );
    let mut cfg = CFG::build();
    pair_rule(&pda, &mut cfg);
    assert_eq!(cfg.rules, vec![production("A[p,s]", "aA[q,r]b")]);
}

#[test]
fn pair_rule_writes_epsilon_inputs_as_they_are() {
    let pda = machine(
        &["p", "q"],
        "p",
        &["q"],
        vec![mv("p", "~", "~", "q", "#"), mv("q", "~", "#", "p", "~")],
    );
    let mut cfg = CFG::build();
    pair_rule(&pda, &mut cfg);
    assert_eq!(cfg.rules, vec![production("A[p,p]", "~A[q,q]~")]);
}

#[test]
fn pair_rule_skips_transitions_that_are_no_matching_pair() {
    let pda = machine(
        &["p", "q"],
        "p",
        &["q"],
        vec![
            mv("p", "a", "~", "q", "~"),
            mv("q", "b", "~", "p", "~"),
            mv("p", "a", "X", "q", "X"),
            mv("p", "a", "~", "q", "X"),
            mv("q", "b", "Y", "p", "~"),
            mv("q", "b", "X", "p", "Y"),
        ],
    );
    let mut cfg = CFG::build();
    pair_rule(&pda, &mut cfg);
    assert!(cfg.rules.is_empty());
}

#[test]
fn pair_rule_goes_through_the_pairs_in_order_and_merges() {
    let pda = machine(
        &["p", "q"],
        "p",
        &["q"],
        vec![
            mv("p", "(", "~", "p", "X"),
            mv("p", ")", "X", "p", "~"),
            mv("p", "[", "~", "q", "X"),
            mv("q", "]", "X", "p", "~"),
            mv("q", "<", "~", "q", "Y"),
            mv("q", ">", "Y", "q", "~"),
        ],
    );
    let mut cfg = CFG::build();
    pair_rule(&pda, &mut cfg);
    assert_eq!(
        cfg.rules,
        vec![
            production("A[p,p]", "(A[p,p]) | (A[p,q]] | [A[q,p]) | [A[q,q]]"),
            production("A[q,q]", "<A[q,q]>"),
        ]
    );
}

#[test]
fn synthesize_on_one_state_that_is_start_and_accept() {
    let pda = machine(&["q"], "q", &["q"], vec![]);
    let cfg = synthesize(&pda);
    assert_eq!(
        cfg.rules,
        vec![production("S", "A[q,q]"), production("A[q,q]", "~ | A[q,q]A[q,q]")]
    );
    let lines: Vec<String> = cfg.rules.iter().map(|r| r.rule_line()).collect();
    assert!(lines.contains(&"S -> A[q,q]".to_string()));
    assert!(lines.iter().any(|l| l.starts_with("A[q,q] -> ~")));
}

#[test]
fn synthesize_runs_the_passes_in_order() {
    let pda = machine(
        &["p", "q"],
        "p",
        &["q"],
        vec![mv("p", "a", "~", "p", "X"), mv("p", "b", "X", "q", "~")],
    );
    let cfg = synthesize(&pda);
    assert_eq!(
        cfg.rules,
        vec![
            production("S", "A[p,q]"),
            production("A[p,p]", "~ | A[p,p]A[p,p] | A[p,q]A[q,p]"),
            production("A[q,q]", "~ | A[q,p]A[p,q] | A[q,q]A[q,q]"),
            production("A[p,q]", "A[p,p]A[p,q] | A[p,q]A[q,q] | aA[p,p]b"),
            production("A[q,p]", "A[q,p]A[p,p] | A[q,q]A[q,p]"),
        ]
    );
    let mut by_hand = CFG::build();
    start_rule(&pda, &mut by_hand);
    eps_rule(&pda, &mut by_hand);
    ijk_rule(&pda, &mut by_hand);
    pair_rule(&pda, &mut by_hand);
    assert_eq!(by_hand, cfg);
}

#[test]
fn synthesized_names_are_unique() {
    let pda = machine(
        &["a", "b", "a", "c"],
        "a",
        &["c"],
        vec![mv("a", "x", "~", "b", "X"), mv("b", "y", "X", "c", "~"), mv("a", "x", "~", "a", "X")],
    );
    let cfg = synthesize(&pda);
    let mut seen: Vec<&String> = cfg.rules.iter().map(|r| &r.rule_name).collect();
    let all = seen.len();
    seen.sort();
    seen.dedup();
    assert_eq!(seen.len(), all);
    assert_eq!(all, 1 + 9);
    assert_eq!(cfg.rules[1], production("A[a,a]", "~ | ~ | A[a,a]A[a,a] | A[a,b]A[b,a] | A[a,a]A[a,a] | A[a,c]A[c,a] | A[a,a]A[a,a] | A[a,b]A[b,a] | A[a,a]A[a,a] | A[a,c]A[c,a] | A[a,a]A[a,a] | A[a,b]A[b,a] | A[a,a]A[a,a] | A[a,c]A[c,a] | A[a,a]A[a,a] | A[a,b]A[b,a] | A[a,a]A[a,a] | A[a,c]A[c,a]"));
}
