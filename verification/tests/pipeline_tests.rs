use std::collections::{BTreeMap, BTreeSet};

use pda_to_cfg::grammar::{Grammar, CFG};
use pda_to_cfg::pda::{Trans, PDA};
use pda_to_cfg::transformer::{convert, PDAError};

fn list(items: &[&str]) -> Vec<String> {
    items.iter().map(|n| n.to_string()).collect()
}

fn step(state: &str, input: &str, pop: &str, next: &str, push: &str) -> Trans {
    Trans::new(
        state.to_string(),
        input.to_string(),
        pop.to_string(),
        next.to_string(),
        push.to_string(),
    )
}

fn pda_of(
    states: &[&str],
    input: &[&str],
    stack: &[&str],
    start: &str,
    accept: &[&str],
    transitions: Vec<Trans>,
) -> PDA {
    let mut pda = PDA::build();
    pda.set_states(list(states));
    pda.set_ialpha(list(input));
    pda.set_salpha(list(stack));
    pda.set_start(start.to_string());
    pda.set_accept(list(accept));
    pda.set_trans(transitions);
    pda
}

fn parentheses() -> PDA {
    pda_of(
        &["q0", "q1"],
        &["(", ")"],
        &["X"],
        "q0",
        &["q0"],
        vec![step("q0", "(", "~", "q0", "X"), step("q0", ")", "X", "q0", "~")],
    )
}

fn find<'a>(cfg: &'a CFG, name: &str) -> &'a Grammar {
    let hits: Vec<&Grammar> = cfg.rules.iter().filter(|r| r.rule_name == name).collect();
    assert_eq!(hits.len(), 1, "productions named {}", name);
    hits[0]
}

/// Splits an alternative into its symbols: nonterminals `A[..]`, and single
/// characters for the terminals. Epsilon is left out.
fn symbols(alternative: &str) -> Vec<String> {
    let chars: Vec<char> = alternative.chars().collect();
    let mut out = Vec::new();
    let mut i = 0;
    while i < chars.len() {
        if chars[i] == 'A' && i + 1 < chars.len() && chars[i + 1] == '[' {
            let mut j = i;
            while chars[j] != ']' {
                j += 1;
            }
            out.push(chars[i..=j].iter().collect());
            i = j + 1;
        } else {
            if chars[i] != '~' {
                out.push(chars[i].to_string());
            }
            i += 1;
        }
    }
    out
}

/// The words of at most `max` characters that each nonterminal derives.
fn languages(cfg: &CFG, max: usize) -> BTreeMap<String, BTreeSet<String>> {
    let mut lang: BTreeMap<String, BTreeSet<String>> = BTreeMap::new();
    for r in cfg.rules.iter() {
        lang.insert(r.rule_name.clone(), BTreeSet::new());
    }
    loop {
        let mut grew = false;
        for r in cfg.rules.iter() {
            for alternative in r.rule_desc.split(" | ") {
                let mut words: BTreeSet<String> = BTreeSet::new();
                words.insert(String::new());
                for symbol in symbols(alternative) {
                    let mut next: BTreeSet<String> = BTreeSet::new();
                    let empty = BTreeSet::new();
                    let single: BTreeSet<String> = [symbol.clone()].into_iter().collect();
                    let choices = if symbol.starts_with("A[") {
                        lang.get(&symbol).unwrap_or(&empty)
                    } else {
                        &single
                    };
                    for w in words.iter() {
                        for c in choices.iter() {
                            if w.chars().count() + c.chars().count() <= max {
                                next.insert(format!("{}{}", w, c));
                            }
                        }
                    }
                    words = next;
                }
                let known = lang.get_mut(&r.rule_name).unwrap();
                for w in words {
                    if known.insert(w) {
                        grew = true;
                    }
                }
            }
        }
        if !grew {
            return lang;
        }
    }
}

fn balanced(word: &str) -> bool {
    let mut depth: i64 = 0;
    for c in word.chars() {
        depth += if c == '(' { 1 } else { -1 };
        if depth < 0 {
            return false;
        }
    }
    depth == 0
}

fn all_words(max: usize) -> Vec<String> {
    let mut all = vec![String::new()];
    let mut last = vec![String::new()];
    for _ in 0..max {
        let mut next = Vec::new();
        for w in last.iter() {
            next.push(format!("{}(", w));
            next.push(format!("{})", w));
        }
        all.extend(next.iter().cloned());
        last = next;
    }
    all
}

#[test]
fn convert_refuses_an_automaton_without_accept_states() {
    let pda = pda_of(&["q0"], &["a"], &["X"], "q0", &[], vec![step("q0", "a", "~", "q0", "X")]);
    assert_eq!(convert(pda), Err(PDAError::NoAccept));
}

#[test]
fn convert_refuses_an_automaton_without_states() {
    let pda = pda_of(&[], &[], &[], "q0", &["q0"], vec![]);
    assert_eq!(convert(pda), Err(PDAError::NoStates));
    assert_eq!(convert(PDA::build()), Err(PDAError::NoStates));
}

#[test]
fn convert_one_state_that_is_start_and_accept() {
    let pda = pda_of(&["q"], &[], &[], "q", &["q"], vec![]);
    let cfg = convert(pda).unwrap();
    assert_eq!(cfg.rules.len(), 1 + 16);
    assert_eq!(cfg.rules[0], Grammar::new("S".to_string(), "A[qS,qF]".to_string()));
    let names: Vec<&str> = cfg.rules.iter().map(|r| r.rule_name.as_str()).collect();
    assert_eq!(
        names,
        vec![
            "S",
            "A[q,q]",
            "A[qS,qS]",
            "A[qF,qF]",
            "A[q_P0P,q_P0P]",
            "A[q,qS]",
            "A[q,qF]",
            "A[q,q_P0P]",
            "A[qS,q]",
            "A[qS,qF]",
            "A[qS,q_P0P]",
            "A[qF,q]",
            "A[qF,qS]",
            "A[qF,q_P0P]",
            "A[q_P0P,q]",
            "A[q_P0P,qS]",
            "A[q_P0P,qF]",
        ]
    );
    assert_eq!(
        find(&cfg, "A[q,q]").rule_desc,
        "~ | A[q,q]A[q,q] | A[q,qS]A[qS,q] | A[q,qF]A[qF,q] | A[q,q_P0P]A[q_P0P,q]"
    );
    assert_eq!(
        find(&cfg, "A[qS,qF]").rule_desc,
        "A[qS,q]A[q,qF] | A[qS,qS]A[qS,qF] | A[qS,qF]A[qF,qF] | A[qS,q_P0P]A[q_P0P,qF] | ~A[q,q]~"
    );
    assert_eq!(
        find(&cfg, "A[q,qF]").rule_desc,
        "A[q,q]A[q,qF] | A[q,qS]A[qS,qF] | A[q,qF]A[qF,qF] | A[q,q_P0P]A[q_P0P,qF] | ~A[q_P0P,q_P0P]~"
    );
    let lang = languages(&cfg, 4);
    let expected: BTreeSet<String> = [String::new()].into_iter().collect();
    assert_eq!(lang["S"], expected);
}

#[test]
fn convert_balanced_parentheses() {
    let cfg = convert(parentheses()).unwrap();
    assert_eq!(cfg.rules[0].rule_line(), "S -> A[qS,qF]");
    let inner = find(&cfg, "A[q0,q0]");
    let alternatives: Vec<&str> = inner.rule_desc.split(" | ").collect();
    assert_eq!(alternatives[0], "~");
    assert!(alternatives.contains(&"(A[q0,q0])"));
    assert!(find(&cfg, "A[qS,qF]").rule_desc.split(" | ").any(|a| a == "~A[q0,q0]~"));

    let lang = languages(&cfg, 8);
    let derived = &lang["S"];
    let mut count = 0;
    for w in all_words(8) {
        assert_eq!(derived.contains(&w), balanced(&w), "word {:?}", w);
        if balanced(&w) {
            count += 1;
        }
    }
    assert_eq!(count, 1 + 1 + 2 + 5 + 14);
    assert_eq!(derived.len(), count);
    assert!(derived.contains("(()())()"));
    assert!(!derived.contains("())("));
}

#[test]
fn convert_gives_unique_names() {
    let cfg = convert(parentheses()).unwrap();
    let names: BTreeSet<&String> = cfg.rules.iter().map(|r| &r.rule_name).collect();
    assert_eq!(names.len(), cfg.rules.len());
    assert_eq!(cfg.rules.len(), 1 + 5 * 5);
}

#[test]
fn convert_twice_gives_the_same_grammar() {
    let first = convert(parentheses()).unwrap();
    let second = convert(parentheses()).unwrap();
    assert_eq!(first, second);
    let a: Vec<String> = first.rules.iter().map(|r| r.rule_line()).collect();
    let b: Vec<String> = second.rules.iter().map(|r| r.rule_line()).collect();
    assert_eq!(a, b);
}

#[test]
fn convert_a_language_with_two_kinds_of_brackets_nested_in_order() {
    let pda = pda_of(
        &["p", "q"],
        &["a", "b", "c"],
        &["X"],
        "p",
        &["q"],
        vec![
            step("p", "a", "~", "p", "X"),
            step("p", "c", "~", "q", "~"),
            step("q", "b", "X", "q", "~"),
        ],
    );
    let cfg = convert(pda).unwrap();
    let lang = languages(&cfg, 7);
    let expected: BTreeSet<String> =
        list(&["c", "acb", "aacbb", "aaacbbb"]).into_iter().collect();
    assert_eq!(lang["S"], expected);
}

/// The words of at most `max` symbols that take the automaton from its start
/// state to an accept state, with nothing on the stack at the start and at
/// the end. Stacks higher than `height` are not followed.
fn accepted(pda: &PDA, max: usize, height: usize) -> BTreeSet<String> {
    let mut seen: BTreeSet<(String, Vec<String>, String)> = BTreeSet::new();
    let mut open = vec![(pda.start_state.clone(), Vec::<String>::new(), String::new())];
    let mut words = BTreeSet::new();
    while let Some((state, stack, word)) = open.pop() {
        if !seen.insert((state.clone(), stack.clone(), word.clone())) {
            continue;
        }
        if stack.is_empty() && pda.accept_states.contains(&state) {
            words.insert(word.clone());
        }
        for tr in pda.transitions.iter().filter(|tr| tr.state == state) {
            let mut next_stack = stack.clone();
            if tr.pop != "~" {
                if next_stack.last() != Some(&tr.pop) {
                    continue;
                }
                next_stack.pop();
            }
            if tr.push != "~" {
                next_stack.push(tr.push.clone());
            }
            let next_word =
                if tr.input == "~" { word.clone() } else { format!("{}{}", word, tr.input) };
            if next_word.chars().count() <= max && next_stack.len() <= height {
                open.push((tr.next.clone(), next_stack, next_word));
            }
        }
    }
    words
}

fn assert_same_language(pda: PDA, max: usize) {
    let expected = accepted(&pda, max, 2 * max + 4);
    let cfg = convert(pda).unwrap();
    let lang = languages(&cfg, max);
    assert_eq!(lang["S"], expected);
}

#[test]
fn grammar_derives_what_the_automaton_accepts() {
    assert_same_language(parentheses(), 6);
    let counting = pda_of(
        &["p", "q"],
        &["a", "b"],
        &["X"],
        "p",
        &["q", "p"],
        vec![
            step("p", "a", "~", "p", "X"),
            step("p", "~", "~", "q", "~"),
            step("q", "b", "X", "q", "~"),
        ],
    );
    assert_eq!(
        accepted(&counting, 6, 16),
        list(&["", "ab", "aabb", "aaabbb"]).into_iter().collect::<BTreeSet<String>>()
    );
    assert_same_language(counting, 6);
    let swapping = pda_of(
        &["p", "q", "r"],
        &["a", "b", "c", "d"],
        &["X", "Y"],
        "p",
        &["q", "r"],
        vec![
            step("p", "a", "~", "p", "X"),
            step("p", "b", "X", "q", "Y"),
            step("q", "c", "Y", "q", "~"),
            step("q", "d", "X", "q", "~"),
            step("q", "~", "~", "r", "~"),
            step("r", "a", "~", "p", "~"),
        ],
    );
    assert!(accepted(&swapping, 6, 16).contains("abc"));
    assert!(accepted(&swapping, 6, 16).contains("aabcd"));
    assert!(!accepted(&swapping, 6, 16).contains("ab"));
    assert!(!accepted(&swapping, 6, 16).contains("aabc"));
    assert_same_language(swapping, 6);
}

#[test]
fn grammar_of_an_automaton_that_uses_the_reserved_names() {
    let pda = pda_of(
        &["qS", "qF"],
        &["a", "b"],
        &["#", "%"],
        "qS",
        &["qF"],
        vec![
            step("qS", "a", "~", "qS", "#"),
            step("qS", "~", "~", "qF", "~"),
            step("qF", "b", "#", "qF", "~"),
            step("qF", "a", "~", "qF", "%"),
            step("qF", "b", "%", "qS", "~"),
        ],
    );
    assert!(accepted(&pda, 4, 12).contains("aabb"));
    assert_same_language(pda, 5);
}
