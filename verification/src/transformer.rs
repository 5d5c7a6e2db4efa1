//! The conversion itself: the check of the automaton, the three passes that
//! bring it into normal form, and the three passes that write the grammar.

use vstd::prelude::*;
use vstd::string::StringExecFns;
use crate::grammar::{
    CFG, GrammarView, has_rule, lemma_merged_concat, lemma_merged_distinct, lemma_merged_push,
    merged, nonterminal, nonterminal_name,
};
use crate::normal_form::{
    all_pure, bottom_marker, handover, head_of, idle_move, is_origin_in, is_pure,
    leaves_only_at, lemma_normal_form, lemma_pure_after_split, lemma_split_twice,
    lemma_start_leaves_once, marker_pop, marker_push, middle_state, new_start, normalized,
    split_name, split_upto, tail_of, with_empty_stack, with_pure_moves, with_single_accept,
};
use crate::pda::{
    ACCEPT, HASH, PDA, START, SYMBOL, Trans, TransView, epsilon, epsilon_text,
    is_well_referenced, lemma_constants, lemma_trans_views_push, trans_views,
};
use crate::synthesis::{
    is_matching_pair, lemma_reflexive_pass, paired_alternative, paired_alternatives,
    paired_upto, paired_with, reflexive_alternatives, start_alternative, start_symbol,
    synthesized, transitive_alternative, transitive_alternatives, transitive_from,
    transitive_through, transitive_upto,
};
use crate::text::{contains_name, fresh_name, lemma_views_push, push_decimal, views};

verus! {

/// Why an automaton cannot be converted.
#[derive(Debug, Clone, Copy, PartialEq, Eq, Structural)]
pub enum PDAError {
    /// The automaton has no states.
    NoStates,
    /// The automaton has no accept states.
    NoAccept,
}

impl PDAError {
    /// The error in words.
    pub fn message(&self) -> (text: String)
        ensures
            *self == PDAError::NoStates ==> text@ == "No states"@,
            *self == PDAError::NoAccept ==> text@ == "No accept states found"@,
    {
        match self {
            PDAError::NoStates => String::from_str("No states"),
            PDAError::NoAccept => String::from_str("No accept states found"),
        }
    }
}

/// Checks that the automaton has states and accept states, in this order: an
/// automaton without states is refused for that, whatever its accept states.
pub fn ensure_accept_nostates(pda: PDA) -> (checked: Result<PDA, PDAError>)
    ensures
        pda.states@.len() == 0 ==> checked == Err::<PDA, PDAError>(PDAError::NoStates),
        pda.states@.len() > 0 && pda.accept_states@.len() == 0 ==> checked == Err::<
            PDA,
            PDAError,
        >(PDAError::NoAccept),
        pda.states@.len() > 0 && pda.accept_states@.len() > 0 ==> checked == Ok::<PDA, PDAError>(
            pda,
        ),
{
    if pda.states.len() == 0 {
        return Err(PDAError::NoStates);
    }
    if pda.accept_states.len() == 0 {
        return Err(PDAError::NoAccept);
    }
    Ok(pda)
}

/// Whether the automaton names only what it declares: its start state, its
/// accept states and the states that its transitions leave and enter are
/// among its states, and what its transitions pop and push is epsilon or in
/// its stack alphabet. The conversion does not ask for this; what it returns
/// for such an automaton derives the words that the automaton accepts.
pub fn names_only_declared(pda: &PDA) -> (declared: bool)
    ensures
        declared == is_well_referenced(pda@),
{
    if !contains_name(&pda.states, &pda.start_state) {
        return false;
    }
    let mut i: usize = 0;
    while i < pda.accept_states.len()
        invariant
            i <= pda.accept_states@.len(),
            forall|j: int| 0 <= j < i ==> pda@.states.contains(#[trigger] pda@.accept_states[j]),
        decreases pda.accept_states@.len() - i,
    {
        if !contains_name(&pda.states, &pda.accept_states[i]) {
            assert(!pda@.states.contains(pda@.accept_states[i as int]));
            return false;
        }
        i += 1;
    }
    let eps = epsilon_text();
    let mut k: usize = 0;
    while k < pda.transitions.len()
        invariant
            k <= pda.transitions@.len(),
            eps@ == epsilon(),
            forall|j: int|
                0 <= j < k ==> {
                    let t = #[trigger] pda@.transitions[j];
                    &&& pda@.states.contains(t.state)
                    &&& pda@.states.contains(t.next)
                    &&& t.pop == epsilon() || pda@.stack_alphabet.contains(t.pop)
                    &&& t.push == epsilon() || pda@.stack_alphabet.contains(t.push)
                },
        decreases pda.transitions@.len() - k,
    {
        let t = &pda.transitions[k];
        assert(t@ == pda@.transitions[k as int]);
        let states_known = contains_name(&pda.states, &t.state) && contains_name(
            &pda.states,
            &t.next,
        );
        let pop_known = t.pop == eps || contains_name(&pda.stack_alphabet, &t.pop);
        let push_known = t.push == eps || contains_name(&pda.stack_alphabet, &t.push);
        if !(states_known && pop_known && push_known) {
            return false;
        }
        k += 1;
    }
    true
}

/// Makes acceptance depend on an empty stack: adds a start state that pushes a
/// bottom marker before the old start state is entered, and lets every accept
/// state pop the marker on its way to the accept state that `single_accept`
/// adds. Never fails.
pub fn empty_stack(pda: &mut PDA) -> (done: Result<&PDA, PDAError>)
    ensures
        final(pda)@ == with_empty_stack(old(pda)@),
        done matches Ok(p) && *p == *final(pda),
{
    proof {
        lemma_constants();
    }
    let start = fresh_name(&pda.states, String::from_str(START));
    let marker = fresh_name(&pda.stack_alphabet, String::from_str(HASH));
    pda.states.push(start.clone());
    proof {
        lemma_views_push(old(pda).states@, start);
    }
    let target = fresh_name(&pda.states, String::from_str(ACCEPT));
    let enter = Trans::new(
        start.clone(),
        epsilon_text(),
        epsilon_text(),
        pda.start_state.clone(),
        marker.clone(),
    );
    pda.transitions.push(enter);
    pda.start_state = start.clone();
    proof {
        lemma_trans_views_push(old(pda).transitions@, enter);
    }
    let ghost before = trans_views(pda.transitions@);
    let mut i: usize = 0;
    while i < pda.accept_states.len()
        invariant
            i <= pda.accept_states@.len(),
            pda.states@ == old(pda).states@.push(start),
            pda.start_state == start,
            pda.input_alphabet == old(pda).input_alphabet,
            pda.stack_alphabet == old(pda).stack_alphabet,
            pda.accept_states == old(pda).accept_states,
            trans_views(pda.transitions@) == before + Seq::new(
                i as nat,
                |k: int| marker_pop(views(pda.accept_states@)[k], target@, marker@),
            ),
        decreases pda.accept_states@.len() - i,
    {
        let leave = Trans::new(
            pda.accept_states[i].clone(),
            epsilon_text(),
            marker.clone(),
            target.clone(),
            epsilon_text(),
        );
        proof {
            lemma_trans_views_push(pda.transitions@, leave);
            assert(trans_views(pda.transitions@).push(leave@) =~= before + Seq::new(
                (i + 1) as nat,
                |k: int| marker_pop(views(pda.accept_states@)[k], target@, marker@),
            ));
        }
        pda.transitions.push(leave);
        i += 1;
    }
    assert(pda@.transitions =~= with_empty_stack(old(pda)@).transitions);
    Ok(pda)
}

/// Leaves the automaton with exactly one accept state: adds a state, gives
/// every accept state an idle move to it, and makes it the only accept state.
/// Epsilon joins the input alphabet if it was not in it.
pub fn single_accept(pda: &mut PDA)
    ensures
        final(pda)@ == with_single_accept(old(pda)@),
        final(pda)@.accept_states.len() == 1,
{
    proof {
        lemma_constants();
    }
    let accept = fresh_name(&pda.states, String::from_str(ACCEPT));
    pda.states.push(accept.clone());
    proof {
        lemma_views_push(old(pda).states@, accept);
    }
    let eps = epsilon_text();
    if !contains_name(&pda.input_alphabet, &eps) {
        pda.input_alphabet.push(eps);
        proof {
            lemma_views_push(old(pda).input_alphabet@, eps);
        }
    }
    let mut i: usize = 0;
    while i < pda.accept_states.len()
        invariant
            i <= pda.accept_states@.len(),
            pda.states@ == old(pda).states@.push(accept),
            views(pda.input_alphabet@) == with_single_accept(old(pda)@).input_alphabet,
            pda.stack_alphabet == old(pda).stack_alphabet,
            pda.start_state == old(pda).start_state,
            pda.accept_states == old(pda).accept_states,
            trans_views(pda.transitions@) == old(pda)@.transitions + Seq::new(
                i as nat,
                |k: int| idle_move(views(pda.accept_states@)[k], accept@),
            ),
        decreases pda.accept_states@.len() - i,
    {
        let leave = Trans::new(
            pda.accept_states[i].clone(),
            epsilon_text(),
            epsilon_text(),
            accept.clone(),
            epsilon_text(),
        );
        proof {
            lemma_trans_views_push(pda.transitions@, leave);
            assert(trans_views(pda.transitions@).push(leave@) =~= old(pda)@.transitions
                + Seq::new(
                (i + 1) as nat,
                |k: int| idle_move(views(pda.accept_states@)[k], accept@),
            ));
        }
        pda.transitions.push(leave);
        i += 1;
    }
    pda.accept_states.clear();
    pda.accept_states.push(accept);
    assert(pda@.transitions =~= with_single_accept(old(pda)@).transitions);
    assert(pda@.accept_states =~= with_single_accept(old(pda)@).accept_states);
}

/// Makes every transition push or pop, and not both: one that does both, or
/// neither, is split in two through a new state. The first half takes its
/// place and keeps its input and its pop; the second half is appended and
/// carries its push. Where there is nothing to carry, the first half pushes a
/// filler that the second pops. The new state is named after the origin and
/// the number of the split, and differs from every state there is.
pub fn only_push_pop(pda: &mut PDA)
    ensures
        final(pda)@ == with_pure_moves(old(pda)@),
        all_pure(final(pda)@.transitions),
        all_pure(old(pda)@.transitions) ==> final(pda)@ == old(pda)@,
{
    proof {
        lemma_constants();
        lemma_pure_after_split(old(pda)@);
        lemma_split_twice(old(pda)@);
    }
    let eps = epsilon_text();
    let n = pda.transitions.len();
    let mut tails: Vec<Trans> = Vec::new();
    let mut i: usize = 0;
    assert(trans_views(pda.transitions@).take(0) =~= split_upto(old(pda)@, 0).heads);
    while i < n
        invariant
            i <= n,
            n == old(pda).transitions@.len(),
            pda.transitions@.len() == n,
            eps@ == epsilon(),
            pda.input_alphabet == old(pda).input_alphabet,
            pda.stack_alphabet == old(pda).stack_alphabet,
            pda.start_state == old(pda).start_state,
            pda.accept_states == old(pda).accept_states,
            views(pda.states@) == split_upto(old(pda)@, i as nat).states,
            trans_views(pda.transitions@).take(i as int) == split_upto(old(pda)@, i as nat).heads,
            trans_views(tails@) == split_upto(old(pda)@, i as nat).tails,
            tails@.len() <= i,
            forall|j: int| i <= j < n ==> pda.transitions@[j] == old(pda).transitions@[j],
        decreases n - i,
    {
        let ghost done = split_upto(old(pda)@, i as nat);
        let ghost t = old(pda)@.transitions[i as int];
        let ghost seen = trans_views(pda.transitions@);
        assert(pda.transitions@[i as int]@ == t);
        let pushes = pda.transitions[i].push != eps;
        let pops = pda.transitions[i].pop != eps;
        if pushes == pops {
            assert(!is_pure(t));
            let mut wanted = pda.transitions[i].state.clone();
            wanted.append("_P");
            push_decimal(&mut wanted, tails.len());
            wanted.append("P");
            proof {
                reveal_strlit("_P");
                reveal_strlit("P");
                assert(wanted@ =~= split_name(t.state, done.tails.len()));
            }
            let mid = fresh_name(&pda.states, wanted);
            assert(mid@ == middle_state(done, t));
            proof {
                lemma_constants();
            }
            let carried = if pushes {
                epsilon_text()
            } else {
                String::from_str(SYMBOL)
            };
            assert(carried@ == handover(t));
            let tail = Trans::new(
                mid.clone(),
                epsilon_text(),
                carried.clone(),
                pda.transitions[i].next.clone(),
                pda.transitions[i].push.clone(),
            );
            assert(tail@ == tail_of(t, mid@));
            proof {
                lemma_views_push(pda.states@, mid);
                lemma_trans_views_push(tails@, tail);
            }
            pda.states.push(mid.clone());
            pda.transitions[i].next = mid;
            pda.transitions[i].push = carried;
            tails.push(tail);
            assert(pda.transitions@[i as int]@ == head_of(t, mid@));
            assert(trans_views(pda.transitions@).take(i + 1) =~= seen.take(i as int).push(
                head_of(t, mid@),
            ));
        } else {
            assert(is_pure(t));
            assert(seen.take(i + 1) =~= seen.take(i as int).push(t));
        }
        i += 1;
    }
    assert(trans_views(pda.transitions@).take(n as int) =~= trans_views(pda.transitions@));
    let ghost heads = trans_views(pda.transitions@);
    pda.transitions.append(&mut tails);
    assert(trans_views(pda.transitions@) =~= heads + split_upto(old(pda)@, n as nat).tails);
}

/// Brings the automaton into normal form by the three passes in their fixed
/// order: `empty_stack`, `single_accept`, `only_push_pop`.
///
/// Afterwards there is one accept state, and every transition pushes or
/// pops and none does both. The start state is new, and the transition that
/// was added for it pushes a marker that is new to the stack alphabet; it is
/// the only transition out of the start state, unless the automaton used
/// that state's name for an origin or an accept state without having the state.
pub fn normalize(pda: &mut PDA)
    ensures
        final(pda)@ == normalized(old(pda)@),
        final(pda)@.accept_states.len() == 1,
        all_pure(final(pda)@.transitions),
        final(pda)@.start_state == new_start(old(pda)@),
        !old(pda)@.states.contains(final(pda)@.start_state),
        old(pda)@.transitions.len() < final(pda)@.transitions.len(),
        final(pda)@.transitions[old(pda)@.transitions.len() as int] == marker_push(
            final(pda)@.start_state,
            old(pda)@.start_state,
            bottom_marker(old(pda)@),
        ),
        bottom_marker(old(pda)@) != epsilon(),
        !old(pda)@.stack_alphabet.contains(bottom_marker(old(pda)@)),
        !is_origin_in(old(pda)@, new_start(old(pda)@)) ==> leaves_only_at(
            final(pda)@.transitions,
            final(pda)@.start_state,
            old(pda)@.transitions.len() as int,
        ),
{
    proof {
        lemma_normal_form(old(pda)@);
        if !is_origin_in(old(pda)@, new_start(old(pda)@)) {
            lemma_start_leaves_once(old(pda)@);
        }
    }
    let _ = empty_stack(pda);
    single_accept(pda);
    only_push_pop(pda);
}

/// Contributes the production of the start symbol: `S` derives the
/// nonterminal of the start state and the accept state.
pub fn start_rule(pda: &PDA, cfg: &mut CFG)
    requires
        pda@.accept_states.len() == 1,
    ensures
        final(cfg)@ == merged(old(cfg)@, seq![start_alternative(pda@)]),
        old(cfg).wf() ==> final(cfg).wf(),
{
    let body = nonterminal_name(&pda.start_state, &pda.accept_states[0]);
    proof {
        reveal_strlit("S");
        assert("S"@ =~= start_symbol());
        lemma_merged_push(old(cfg)@, Seq::empty(), start_alternative(pda@));
        assert(Seq::<GrammarView>::empty().push(start_alternative(pda@)) =~= seq![
            start_alternative(pda@),
        ]);
        if old(cfg).wf() {
            lemma_merged_distinct(old(cfg)@, seq![start_alternative(pda@)]);
        }
    }
    cfg.contribute(String::from_str("S"), body);
}

/// The reflexive pass: for every state `q`, in order, contributes epsilon to `A[q,q]`.
///
/// Where the states are pairwise different and the grammar names none of
/// these nonterminals yet, this appends exactly one production for each state.
pub fn eps_rule(pda: &PDA, cfg: &mut CFG)
    ensures
        final(cfg)@ == merged(old(cfg)@, reflexive_alternatives(pda@.states)),
        old(cfg).wf() ==> final(cfg).wf(),
        pda@.states.no_duplicates() && (forall|i: int|
            0 <= i < pda@.states.len() ==> !has_rule(
                old(cfg)@,
                nonterminal(pda@.states[i], pda@.states[i]),
            )) ==> final(cfg)@ == old(cfg)@ + reflexive_alternatives(pda@.states),
{
    let ghost alts = reflexive_alternatives(pda@.states);
    let n = pda.states.len();
    let mut i: usize = 0;
    assert(alts.take(0) =~= Seq::<GrammarView>::empty());
    while i < n
        invariant
            i <= n,
            n == pda.states@.len(),
            alts == reflexive_alternatives(pda@.states),
            cfg@ == merged(old(cfg)@, alts.take(i as int)),
        decreases n - i,
    {
        let name = nonterminal_name(&pda.states[i], &pda.states[i]);
        proof {
            lemma_merged_push(old(cfg)@, alts.take(i as int), alts[i as int]);
            assert(alts.take(i + 1) =~= alts.take(i as int).push(alts[i as int]));
        }
        cfg.contribute(name, epsilon_text());
        i += 1;
    }
    proof {
        assert(alts.take(n as int) =~= alts);
        if old(cfg).wf() {
            lemma_merged_distinct(old(cfg)@, alts);
        }
        if pda@.states.no_duplicates() && (forall|i: int|
            0 <= i < pda@.states.len() ==> !has_rule(
                old(cfg)@,
                nonterminal(pda@.states[i], pda@.states[i]),
            )) {
            lemma_reflexive_pass(old(cfg)@, pda@.states);
        }
    }
}

/// The transitive pass: for every triple of states `(i, j, k)`, in
/// lexicographic order, contributes `A[i,k]` followed by `A[k,j]` to `A[i,j]`.
pub fn ijk_rule(pda: &PDA, cfg: &mut CFG)
    ensures
        final(cfg)@ == merged(old(cfg)@, transitive_alternatives(pda@.states)),
        old(cfg).wf() ==> final(cfg).wf(),
{
    let ghost states = pda@.states;
    let n = pda.states.len();
    let mut i: usize = 0;
    while i < n
        invariant
            i <= n,
            n == pda.states@.len(),
            states == pda@.states,
            cfg@ == merged(old(cfg)@, transitive_upto(states, i as nat)),
        decreases n - i,
    {
        let ghost upto_i = transitive_upto(states, i as nat);
        let mut j: usize = 0;
        assert(upto_i + transitive_from(states, i as int, 0) =~= upto_i);
        while j < n
            invariant
                i < n,
                j <= n,
                n == pda.states@.len(),
                states == pda@.states,
                upto_i == transitive_upto(states, i as nat),
                cfg@ == merged(old(cfg)@, upto_i + transitive_from(states, i as int, j as nat)),
            decreases n - j,
        {
            let ghost upto_j = upto_i + transitive_from(states, i as int, j as nat);
            let mut k: usize = 0;
            assert(upto_j + transitive_through(states, i as int, j as int, 0) =~= upto_j);
            while k < n
                invariant
                    i < n,
                    j < n,
                    k <= n,
                    n == pda.states@.len(),
                    states == pda@.states,
                    cfg@ == merged(
                        old(cfg)@,
                        upto_j + transitive_through(states, i as int, j as int, k as nat),
                    ),
                decreases n - k,
            {
                let name = nonterminal_name(&pda.states[i], &pda.states[j]);
                let mut body = nonterminal_name(&pda.states[i], &pda.states[k]);
                let second = nonterminal_name(&pda.states[k], &pda.states[j]);
                body.append(second.as_str());
                proof {
                    let alt = transitive_alternative(
                        states[i as int],
                        states[j as int],
                        states[k as int],
                    );
                    let before = upto_j + transitive_through(
                        states,
                        i as int,
                        j as int,
                        k as nat,
                    );
                    assert(name@ == alt.rule_name);
                    assert(body@ == alt.rule_desc);
                    lemma_merged_push(old(cfg)@, before, alt);
                    assert(before.push(alt) =~= upto_j + transitive_through(
                        states,
                        i as int,
                        j as int,
                        (k + 1) as nat,
                    ));
                }
                cfg.contribute(name, body);
                k += 1;
            }
            assert(upto_j + transitive_through(states, i as int, j as int, n as nat) =~= upto_i
                + transitive_from(states, i as int, (j + 1) as nat));
            j += 1;
        }
        i += 1;
    }
    proof {
        if old(cfg).wf() {
            lemma_merged_distinct(old(cfg)@, transitive_alternatives(states));
        }
    }
}

/// The pairing pass: for every pair of transitions `(a, b)`, in lexicographic
/// order, where `a` only pushes, `b` only pops and `b` pops what `a` pushes,
/// contributes to `A[origin(a),next(b)]` the input of `a`, then
/// `A[next(a),origin(b)]`, then the input of `b`.
pub fn pair_rule(pda: &PDA, cfg: &mut CFG)
    ensures
        final(cfg)@ == merged(old(cfg)@, paired_alternatives(pda@.transitions)),
        old(cfg).wf() ==> final(cfg).wf(),
{
    let ghost ts = pda@.transitions;
    let eps = epsilon_text();
    let n = pda.transitions.len();
    let mut a: usize = 0;
    while a < n
        invariant
            a <= n,
            n == pda.transitions@.len(),
            ts == pda@.transitions,
            eps@ == epsilon(),
            cfg@ == merged(old(cfg)@, paired_upto(ts, a as nat)),
        decreases n - a,
    {
        let ghost upto_a = paired_upto(ts, a as nat);
        let first = &pda.transitions[a];
        assert(first@ == ts[a as int]);
        let mut b: usize = 0;
        assert(upto_a + paired_with(ts, a as int, 0) =~= upto_a);
        if first.pop == eps && first.push != eps {
            while b < n
                invariant
                    a < n,
                    b <= n,
                    n == pda.transitions@.len(),
                    ts == pda@.transitions,
                    eps@ == epsilon(),
                    first@ == ts[a as int],
                    first@.pop == epsilon(),
                    first@.push != epsilon(),
                    cfg@ == merged(old(cfg)@, upto_a + paired_with(ts, a as int, b as nat)),
                decreases n - b,
            {
                let second = &pda.transitions[b];
                assert(second@ == ts[b as int]);
                if second.push == eps && second.pop == first.push {
                    let name = nonterminal_name(&first.state, &second.next);
                    let inner = nonterminal_name(&first.next, &second.state);
                    let mut body = first.input.clone();
                    body.append(inner.as_str());
                    body.append(second.input.as_str());
                    proof {
                        let alt = paired_alternative(ts[a as int], ts[b as int]);
                        let before = upto_a + paired_with(ts, a as int, b as nat);
                        assert(is_matching_pair(ts[a as int], ts[b as int]));
                        assert(name@ == alt.rule_name);
                        assert(body@ == alt.rule_desc);
                        lemma_merged_push(old(cfg)@, before, alt);
                        assert(before.push(alt) =~= upto_a + paired_with(
                            ts,
                            a as int,
                            (b + 1) as nat,
                        ));
                    }
                    cfg.contribute(name, body);
                } else {
                    assert(!is_matching_pair(ts[a as int], ts[b as int]));
                }
                b += 1;
            }
        } else {
            proof {
                lemma_no_pairs(ts, a as int, n as nat);
            }
        }
        a += 1;
    }
    proof {
        if old(cfg).wf() {
            lemma_merged_distinct(old(cfg)@, paired_alternatives(ts));
        }
    }
}

/// A transition that does not only push is paired with none.
proof fn lemma_no_pairs(ts: Seq<TransView>, a: int, n: nat)
    requires
        !(ts[a].pop == epsilon() && ts[a].push != epsilon()),
    ensures
        paired_with(ts, a, n) == Seq::<GrammarView>::empty(),
    decreases n,
{
    if n > 0 {
        lemma_no_pairs(ts, a, (n - 1) as nat);
    }
}

/// Writes the grammar of an automaton in normal form: the start production,
/// then the reflexive, the transitive and the pairing pass.
pub fn synthesize(pda: &PDA) -> (cfg: CFG)
    requires
        pda@.accept_states.len() == 1,
    ensures
        cfg@ == synthesized(pda@),
        cfg.wf(),
{
    let mut cfg = CFG::build();
    start_rule(pda, &mut cfg);
    eps_rule(pda, &mut cfg);
    ijk_rule(pda, &mut cfg);
    pair_rule(pda, &mut cfg);
    proof {
        let empty = Seq::<GrammarView>::empty();
        let a = seq![start_alternative(pda@)];
        let b = reflexive_alternatives(pda@.states);
        let c = transitive_alternatives(pda@.states);
        let d = paired_alternatives(pda@.transitions);
        lemma_merged_concat(empty, a, b);
        lemma_merged_concat(empty, a + b, c);
        lemma_merged_concat(empty, a + b + c, d);
    }
    cfg
}

/// Converts an automaton into a grammar: checks it, brings it into normal
/// form, and synthesizes the grammar of the result. An automaton that fails
/// the check is not converted.
///
/// The result is a function of what the automaton holds. Where the automaton
/// names only what it declares, the grammar derives exactly the words that
/// the automaton accepts (`acceptance::lemma_grammar_language`).
pub fn convert(pda: PDA) -> (converted: Result<CFG, PDAError>)
    ensures
        pda@.states.len() == 0 ==> converted == Err::<CFG, PDAError>(PDAError::NoStates),
        pda@.states.len() > 0 && pda@.accept_states.len() == 0 ==> converted == Err::<
            CFG,
            PDAError,
        >(PDAError::NoAccept),
        pda@.states.len() > 0 && pda@.accept_states.len() > 0 ==> converted is Ok
            && converted->Ok_0@ == synthesized(normalized(pda@)) && converted->Ok_0.wf(),
{
    match ensure_accept_nostates(pda) {
        Err(e) => Err(e),
        Ok(checked) => {
            let mut pda = checked;
            normalize(&mut pda);
            Ok(synthesize(&pda))
        },
    }
}

/// The conversion is deterministic: whatever two runs of `convert` return for
/// automata that hold the same, they return the same error, or grammars that
/// hold the same productions.
pub proof fn lemma_convert_is_deterministic(
    first: PDA,
    second: PDA,
    first_result: Result<CFG, PDAError>,
    second_result: Result<CFG, PDAError>,
)
    requires
        first@ == second@,
        call_ensures(convert, (first,), first_result),
        call_ensures(convert, (second,), second_result),
    ensures
        first_result is Ok <==> second_result is Ok,
        first_result is Ok ==> first_result->Ok_0@ == second_result->Ok_0@,
        first_result is Err ==> first_result->Err_0 == second_result->Err_0,
{
}

} // verus!
