use pda_to_cfg::grammar::{nonterminal_name, Grammar, CFG};

fn rule(name: &str, desc: &str) -> Grammar {
    Grammar::new(name.to_string(), desc.to_string())
}

#[test]
fn grammar_new_keeps_both_parts() {
    let g = Grammar::new("S".to_string(), "A[q,q]".to_string());
    assert_eq!(g.rule_name, "S");
    assert_eq!(g.rule_desc, "A[q,q]");
}

#[test]
fn rule_line_joins_name_and_description() {
    assert_eq!(rule("S", "A[qS,qF]").rule_line(), "S -> A[qS,qF]");
    assert_eq!(rule("A[q,q]", "~ | A[q,q]A[q,q]").rule_line(), "A[q,q] -> ~ | A[q,q]A[q,q]");
    assert_eq!(rule("", "").rule_line(), " -> ");
}

#[test]
fn cfg_build_is_empty() {
    let cfg = CFG::build();
    assert!(cfg.rules.is_empty());
}

#[test]
fn nonterminal_name_has_brackets_and_comma() {
    assert_eq!(nonterminal_name(&"p".to_string(), &"q".to_string()), "A[p,q]");
    assert_eq!(nonterminal_name(&"q0".to_string(), &"q0".to_string()), "A[q0,q0]");
    assert_eq!(nonterminal_name(&"".to_string(), &"".to_string()), "A[,]");
}

#[test]
fn contribute_appends_new_names_in_first_seen_order() {
    let mut cfg = CFG::build();
    cfg.contribute("B".to_string(), "x".to_string());
    cfg.contribute("A".to_string(), "y".to_string());
    cfg.contribute("C".to_string(), "z".to_string());
    assert_eq!(cfg.rules, vec![rule("B", "x"), rule("A", "y"), rule("C", "z")]);
}

#[test]
fn contribute_merges_a_repeated_name() {
    let mut cfg = CFG::build();
    cfg.contribute("A".to_string(), "x".to_string());
    cfg.contribute("B".to_string(), "y".to_string());
    cfg.contribute("A".to_string(), "z".to_string());
    cfg.contribute("A".to_string(), "x".to_string());
    assert_eq!(cfg.rules, vec![rule("A", "x | z | x"), rule("B", "y")]);
}

#[test]
fn contribute_extends_the_first_of_two_equal_names() {
    let mut cfg = CFG { rules: vec![rule("A", "1"), rule("B", "2"), rule("A", "3")] };
    cfg.contribute("A".to_string(), "4".to_string());
    assert_eq!(cfg.rules, vec![rule("A", "1 | 4"), rule("B", "2"), rule("A", "3")]);
}

#[test]
fn contribute_tells_names_apart_exactly() {
    let mut cfg = CFG::build();
    cfg.contribute("A[q,q]".to_string(), "~".to_string());
    cfg.contribute("A[q,q] ".to_string(), "~".to_string());
    cfg.contribute("A[q,q".to_string(), "~".to_string());
    assert_eq!(cfg.rules.len(), 3);
}
