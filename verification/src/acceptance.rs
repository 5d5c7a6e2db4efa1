//! What an automaton accepts, and that normalization keeps it: the normal
//! form is driven from its start state to its accept state, on a stack that
//! is empty at both ends, by exactly the words that the automaton accepts.
//!
//! An automaton accepts a word that takes it from its start state to an
//! accept state, with nothing on the stack at the start and at the end.

use vstd::prelude::*;
use crate::language::{
    Configuration, after, at_rest, can_take, drives, generates, leads,
    lemma_leads_above, lemma_leads_on, lemma_nonterminal_language, lemma_one_step,
    lemma_taken_from_both, lemma_taken_from_part, lemma_word_of_concat, lemma_word_of_one,
    read_by, taken_from, word_of,
};
use crate::normal_form::{
    bottom_marker, head_of, idle_move, is_pure, lemma_bottom_marker_is_new,
    lemma_pure_after_split, lemma_split_shape, lemma_symbol_is_not_epsilon, marker_pop,
    marker_push, new_accept, new_start, normalized, split_upto, tail_of, with_empty_stack,
    with_pure_moves, with_single_accept,
};
use crate::pda::{
    PdaView, TransView, accept_name, epsilon, is_closed, is_well_referenced, start_name,
};
use crate::text::lemma_unused_name_is_unused;

verus! {

/// Whether `m` accepts the word `w`.
pub open spec fn accepts(m: PdaView, w: Seq<Seq<char>>) -> bool {
    exists|i: int|
        0 <= i < m.accept_states.len() && drives(m, m.start_state, #[trigger] m.accept_states[i], w)
}

/// Whether the transition at `i` was split with the number `r`: its first
/// half stands at `i`, its second half is the one with the number `r`.
pub open spec fn is_split_as(m: PdaView, n: nat, i: int, r: int) -> bool {
    let done = split_upto(m, n);
    let t = m.transitions[i];
    &&& 0 <= r < done.tails.len()
    &&& done.heads[i] == head_of(t, done.states[m.states.len() + r])
    &&& done.tails[r] == tail_of(t, done.states[m.states.len() + r])
}

/// Whether `r` is the number under which some transition was split.
pub open spec fn is_split_number(m: PdaView, n: nat, r: int) -> bool {
    exists|i: int| 0 <= i < n && #[trigger] is_split_as(m, n, i, r)
}

/// Every transition that does both or neither was split under some number,
/// and every number is that of the split of a transition.
proof fn lemma_split_pairs(m: PdaView, n: nat)
    requires
        n <= m.transitions.len(),
    ensures
        forall|i: int|
            0 <= i < n && !is_pure(#[trigger] m.transitions[i]) ==> exists|r: int|
                is_split_as(m, n, i, r),
        forall|r: int| 0 <= r < split_upto(m, n).tails.len() ==> #[trigger] is_split_number(m, n, r),
    decreases n,
{
    if n > 0 {
        let earlier = (n - 1) as nat;
        let before = split_upto(m, earlier);
        let now = split_upto(m, n);
        lemma_split_pairs(m, earlier);
        lemma_split_shape(m, (n - 1) as nat);
        lemma_split_shape(m, n);
        assert forall|i: int| 0 <= i < n && !is_pure(#[trigger] m.transitions[i]) implies exists|
            r: int,
        | is_split_as(m, n, i, r) by {
            if i < n - 1 {
                let r = choose|r: int| is_split_as(m, earlier, i, r);
                assert(now.heads[i] == before.heads[i]);
                assert(now.tails[r] == before.tails[r]);
                assert(now.states[m.states.len() + r] == before.states[m.states.len() + r]);
                assert(is_split_as(m, n, i, r));
            } else {
                let r = before.tails.len() as int;
                assert(now.states[m.states.len() + r] == now.states[before.states.len() as int]);
                assert(is_split_as(m, n, i, r));
            }
        }
        assert forall|r: int| 0 <= r < now.tails.len() implies #[trigger] is_split_number(
            m,
            n,
            r,
        ) by {
            if r < before.tails.len() {
                assert(is_split_number(m, earlier, r));
                let i = choose|i: int| 0 <= i < earlier && #[trigger] is_split_as(m, earlier, i, r);
                assert(now.heads[i] == before.heads[i]);
                assert(now.tails[r] == before.tails[r]);
                assert(now.states[m.states.len() + r] == before.states[m.states.len() + r]);
                assert(is_split_as(m, n, i, r));
            } else {
                assert(now.states[m.states.len() + r] == now.states[before.states.len() as int]);
                assert(is_split_as(m, n, n - 1, r));
            }
        }
    }
}

/// The two halves of a split lead where the transition leads, and read what it reads.
proof fn lemma_halves_lead_alike(t: TransView, mid: Seq<char>, from: Configuration)
    requires
        !is_pure(t),
    ensures
        can_take(head_of(t, mid), from) <==> can_take(t, from),
        can_take(t, from) ==> can_take(tail_of(t, mid), after(head_of(t, mid), from)),
        can_take(t, from) ==> after(tail_of(t, mid), after(head_of(t, mid), from)) == after(
            t,
            from,
        ),
        can_take(t, from) ==> leads(seq![head_of(t, mid), tail_of(t, mid)], from, after(t, from)),
        word_of(seq![head_of(t, mid), tail_of(t, mid)]) == read_by(t),
{
    let head = head_of(t, mid);
    let tail = tail_of(t, mid);
    lemma_symbol_is_not_epsilon();
    if can_take(t, from) {
        let between = after(head, from);
        assert(can_take(tail, between));
        assert(after(tail, between).stack =~= after(t, from).stack);
        lemma_one_step(head, from);
        lemma_one_step(tail, between);
        lemma_leads_on(seq![head], seq![tail], from, between, after(t, from));
        assert(seq![head] + seq![tail] =~= seq![head, tail]);
    }
    lemma_word_of_one(head);
    lemma_word_of_one(tail);
    lemma_word_of_concat(seq![head], seq![tail]);
    assert(seq![head] + seq![tail] =~= seq![head, tail]);
    assert(read_by(head) + read_by(tail) =~= read_by(t));
}

/// Splitting keeps what leads from one configuration to another: the steps
/// returned are transitions of the result of the splitting, lead the same
/// way, and read the same word.
pub proof fn lemma_split_keeps_runs(
    m: PdaView,
    steps: Seq<TransView>,
    from: Configuration,
    to: Configuration,
) -> (split: Seq<TransView>)
    requires
        taken_from(m.transitions, steps),
        leads(steps, from, to),
    ensures
        taken_from(with_pure_moves(m).transitions, split),
        leads(split, from, to),
        word_of(split) == word_of(steps),
    decreases steps.len(),
{
    if steps.len() == 0 {
        Seq::empty()
    } else {
        let count = m.transitions.len();
        let done = split_upto(m, count);
        let after_split = with_pure_moves(m).transitions;
        let t = steps[0];
        let rest = steps.drop_first();
        lemma_taken_from_part(m.transitions, steps, 1, steps.len() as int);
        let later = lemma_split_keeps_runs(m, rest, after(t, from), to);
        assert(m.transitions.contains(t));
        let i = choose|i: int| 0 <= i < count && m.transitions[i] == t;
        lemma_split_shape(m, count);
        lemma_split_pairs(m, count);
        if is_pure(m.transitions[i]) {
            assert(after_split[i] == t);
            assert(taken_from(after_split, seq![t]));
            lemma_taken_from_both(after_split, seq![t], later);
            lemma_one_step(t, from);
            lemma_leads_on(seq![t], later, from, after(t, from), to);
            lemma_word_of_one(t);
            assert(seq![t] + rest =~= steps);
            lemma_word_of_concat(seq![t], rest);
            seq![t] + later
        } else {
            let r = choose|r: int| is_split_as(m, count, i, r);
            let mid = done.states[m.states.len() + r];
            let halves = seq![head_of(t, mid), tail_of(t, mid)];
            lemma_halves_lead_alike(t, mid, from);
            assert(after_split[i] == head_of(t, mid));
            assert(after_split[count + r] == tail_of(t, mid));
            assert(taken_from(after_split, halves));
            lemma_taken_from_both(after_split, halves, later);
            lemma_leads_on(halves, later, from, after(t, from), to);
            lemma_word_of_one(t);
            assert(seq![t] + rest =~= steps);
            lemma_word_of_concat(seq![t], rest);
            halves + later
        }
    }
}

/// Splitting adds nothing that leads from a state of `m` to a state of `m`:
/// the steps returned are transitions of `m`, lead the same way, and read the
/// same word.
pub proof fn lemma_split_adds_no_runs(
    m: PdaView,
    split: Seq<TransView>,
    from: Configuration,
    to: Configuration,
) -> (steps: Seq<TransView>)
    requires
        is_closed(m),
        m.states.contains(from.state),
        m.states.contains(to.state),
        taken_from(with_pure_moves(m).transitions, split),
        leads(split, from, to),
    ensures
        taken_from(m.transitions, steps),
        leads(steps, from, to),
        word_of(steps) == word_of(split),
    decreases split.len(),
{
    if split.len() == 0 {
        Seq::empty()
    } else {
        let count = m.transitions.len();
        let base = m.states.len();
        let done = split_upto(m, count);
        let after_split = with_pure_moves(m).transitions;
        let s = split[0];
        let rest = split.drop_first();
        lemma_taken_from_part(after_split, split, 1, split.len() as int);
        lemma_split_shape(m, count);
        lemma_split_pairs(m, count);
        assert(after_split.contains(s));
        let x = choose|x: int| 0 <= x < after_split.len() && after_split[x] == s;
        let own = choose|j: int| 0 <= j < base && m.states[j] == from.state;
        assert(done.states[own] == from.state);
        if x >= count {
            assert(s == done.tails[x - count]);
            assert(done.states[own] != done.states[base + (x - count)]);
            assert(false);
            Seq::empty()
        } else {
            let t = m.transitions[x];
            assert(s == done.heads[x]);
            if is_pure(t) {
                assert(s == t);
                let later = lemma_split_adds_no_runs(m, rest, after(s, from), to);
                assert(taken_from(m.transitions, seq![t]));
                lemma_taken_from_both(m.transitions, seq![t], later);
                lemma_one_step(t, from);
                lemma_leads_on(seq![t], later, from, after(t, from), to);
                lemma_word_of_one(t);
                assert(seq![t] + rest =~= split);
                lemma_word_of_concat(seq![t], rest);
                lemma_word_of_concat(seq![t], later);
                seq![t] + later
            } else {
                let r = choose|r: int| is_split_as(m, count, x, r);
                let mid = done.states[base + r];
                let far = choose|j: int| 0 <= j < base && m.states[j] == to.state;
                assert(done.states[far] == to.state);
                assert(done.states[far] != done.states[base + r]);
                assert(s == head_of(t, mid));
                assert(leads(rest, after(s, from), to));
                assert(after(s, from).state == mid);
                assert(rest.len() > 0);
                let s2 = rest[0];
                let more = rest.drop_first();
                lemma_taken_from_part(after_split, rest, 1, rest.len() as int);
                assert(after_split.contains(s2));
                let y = choose|y: int| 0 <= y < after_split.len() && after_split[y] == s2;
                assert(s2.state == mid);
                if y < count {
                    let from_where = choose|j: int|
                        0 <= j < base && m.states[j] == m.transitions[y].state;
                    assert(done.heads[y].state == m.transitions[y].state);
                    assert(done.states[from_where] != done.states[base + r]);
                    assert(false);
                    Seq::empty()
                } else {
                    let r2 = y - count;
                    assert(s2 == done.tails[r2]);
                    assert(done.tails[r2].state == done.states[base + r2]);
                    if r2 < r {
                        assert(done.states[base + r2] != done.states[base + r]);
                    } else if r < r2 {
                        assert(done.states[base + r] != done.states[base + r2]);
                    }
                    assert(r2 == r);
                    assert(s2 == tail_of(t, mid));
                    lemma_halves_lead_alike(t, mid, from);
                    assert(can_take(t, from));
                    assert(leads(more, after(s2, after(s, from)), to));
                    let later = lemma_split_adds_no_runs(m, more, after(t, from), to);
                    assert(taken_from(m.transitions, seq![t]));
                    lemma_taken_from_both(m.transitions, seq![t], later);
                    lemma_one_step(t, from);
                    lemma_leads_on(seq![t], later, from, after(t, from), to);
                    lemma_word_of_one(t);
                    let halves = seq![head_of(t, mid), tail_of(t, mid)];
                    assert(halves + more =~= split);
                    lemma_word_of_concat(halves, more);
                    lemma_word_of_concat(seq![t], later);
                    seq![t] + later
                }
            }
        }
    }
}

/// Splitting keeps the transitions among the states.
pub proof fn lemma_split_stays_closed(m: PdaView)
    requires
        is_closed(m),
    ensures
        is_closed(with_pure_moves(m)),
{
    let count = m.transitions.len();
    let base = m.states.len();
    let done = split_upto(m, count);
    let n = with_pure_moves(m);
    lemma_split_shape(m, count);
    lemma_split_pairs(m, count);
    assert forall|x: int| 0 <= x < n.transitions.len() implies n.states.contains(
        (#[trigger] n.transitions[x]).state,
    ) && n.states.contains(n.transitions[x].next) by {
        if x < count {
            let t = m.transitions[x];
            let j = choose|j: int| 0 <= j < base && m.states[j] == t.state;
            let k = choose|k: int| 0 <= k < base && m.states[k] == t.next;
            assert(done.states[j] == t.state);
            assert(done.states[k] == t.next);
            assert(n.transitions[x] == done.heads[x]);
            if !is_pure(t) {
                let r = choose|r: int| is_split_as(m, count, x, r);
                assert(done.states[base + r] == done.heads[x].next);
            }
        } else {
            let r = x - count;
            assert(n.transitions[x] == done.tails[r]);
            assert(is_split_number(m, count, r));
            let i = choose|i: int| 0 <= i < count && #[trigger] is_split_as(m, count, i, r);
            let t = m.transitions[i];
            let k = choose|k: int| 0 <= k < base && m.states[k] == t.next;
            assert(done.states[k] == t.next);
            assert(done.states[base + r] == done.tails[r].state);
        }
    }
}

/// `m` after the first two passes: with the bottom marker and one accept state.
pub open spec fn marked(m: PdaView) -> PdaView {
    with_single_accept(with_empty_stack(m))
}

/// The accept state of `marked(m)`.
pub open spec fn final_state(m: PdaView) -> Seq<char> {
    new_accept(with_empty_stack(m))
}

/// What the transitions of `marked(m)` are: those of `m`, the push of the
/// marker out of the new start state, and for each accept state of `m` the
/// pop of the marker and the idle move into the new accept state.
pub open spec fn is_marked_transition(m: PdaView, t: TransView) -> bool {
    ||| m.transitions.contains(t)
    ||| t == marker_push(new_start(m), m.start_state, bottom_marker(m))
    ||| exists|i: int|
        0 <= i < m.accept_states.len() && t == marker_pop(
            #[trigger] m.accept_states[i],
            final_state(m),
            bottom_marker(m),
        )
    ||| exists|i: int|
        0 <= i < m.accept_states.len() && t == idle_move(
            #[trigger] m.accept_states[i],
            final_state(m),
        )
}

/// The transitions and states of `marked(m)`, one by one; the two states
/// that were added are no states of `m`, and differ.
proof fn lemma_marked_transitions(m: PdaView)
    ensures
        forall|x: int|
            0 <= x < marked(m).transitions.len() ==> is_marked_transition(
                m,
                #[trigger] marked(m).transitions[x],
            ),
        forall|x: int|
            0 <= x < m.transitions.len() ==> marked(m).transitions[x] == #[trigger] m.transitions[x],
        marked(m).transitions.len() == m.transitions.len() + 1 + 2 * m.accept_states.len(),
        marked(m).transitions[m.transitions.len() as int] == marker_push(
            new_start(m),
            m.start_state,
            bottom_marker(m),
        ),
        forall|i: int|
            0 <= i < m.accept_states.len() ==> marked(m).transitions[m.transitions.len() + 1 + i]
                == marker_pop(#[trigger] m.accept_states[i], final_state(m), bottom_marker(m)),
        marked(m).states == m.states.push(new_start(m)).push(final_state(m)),
        !m.states.contains(new_start(m)),
        !m.states.contains(final_state(m)),
        final_state(m) != new_start(m),
{
    let a = with_empty_stack(m);
    let b = marked(m);
    let count = m.transitions.len() as int;
    let accepting = m.accept_states.len() as int;
    lemma_unused_name_is_unused(m.states, start_name());
    lemma_unused_name_is_unused(a.states, accept_name());
    assert(a.states[m.states.len() as int] == new_start(m));
    assert(!m.states.contains(final_state(m))) by {
        if m.states.contains(final_state(m)) {
            let j = choose|j: int| 0 <= j < m.states.len() && m.states[j] == final_state(m);
            assert(a.states[j] == final_state(m));
        }
    }
    assert forall|x: int| 0 <= x < b.transitions.len() implies is_marked_transition(
        m,
        #[trigger] b.transitions[x],
    ) by {
        if x < count {
            assert(b.transitions[x] == m.transitions[x]);
        } else if x == count {
        } else if x < count + 1 + accepting {
            let i = x - count - 1;
            assert(b.transitions[x] == marker_pop(
                m.accept_states[i],
                final_state(m),
                bottom_marker(m),
            ));
        } else {
            let i = x - count - 1 - accepting;
            assert(b.transitions[x] == idle_move(m.accept_states[i], final_state(m)));
        }
    }
}

/// No transition of `marked(m)` leaves its accept state, and none but the
/// push of the marker leaves its start state.
proof fn lemma_marked_ends(m: PdaView, t: TransView)
    requires
        is_well_referenced(m),
        marked(m).transitions.contains(t),
    ensures
        t.state != final_state(m),
        t.state == new_start(m) ==> t == marker_push(new_start(m), m.start_state, bottom_marker(m)),
        is_marked_transition(m, t),
{
    lemma_marked_transitions(m);
    let x = choose|x: int| 0 <= x < marked(m).transitions.len() && marked(m).transitions[x] == t;
    assert(is_marked_transition(m, marked(m).transitions[x]));
    if m.transitions.contains(t) {
        let i = choose|i: int| 0 <= i < m.transitions.len() && m.transitions[i] == t;
        assert(m.states.contains(m.transitions[i].state));
    }
}

/// Steps of `marked(m)` that start in a state of `m` above the marker and
/// end in the accept state on an empty stack are steps of `m` up to the last
/// one, which pops the marker in an accept state of `m`. The number returned
/// is that of the accept state; the steps of `m` lead to it without the marker.
proof fn lemma_marked_run(
    m: PdaView,
    steps: Seq<TransView>,
    p: Seq<char>,
    stack: Seq<Seq<char>>,
) -> (i: int)
    requires
        is_well_referenced(m),
        taken_from(marked(m).transitions, steps),
        m.states.contains(p),
        !stack.contains(bottom_marker(m)),
        leads(
            steps,
            Configuration { state: p, stack: seq![bottom_marker(m)] + stack },
            at_rest(final_state(m)),
        ),
    ensures
        steps.len() > 0,
        0 <= i < m.accept_states.len(),
        steps.last() == marker_pop(m.accept_states[i], final_state(m), bottom_marker(m)),
        taken_from(m.transitions, steps.drop_last()),
        leads(
            steps.drop_last(),
            Configuration { state: p, stack: stack },
            at_rest(m.accept_states[i]),
        ),
    decreases steps.len(),
{
    let marker = bottom_marker(m);
    let last = final_state(m);
    let high = Configuration { state: p, stack: seq![marker] + stack };
    let low = Configuration { state: p, stack: stack };
    lemma_marked_transitions(m);
    lemma_bottom_marker_is_new(m);
    assert(steps.len() > 0);
    let s = steps[0];
    let rest = steps.drop_first();
    lemma_marked_ends(m, s);
    lemma_taken_from_part(marked(m).transitions, steps, 1, steps.len() as int);
    if rest.len() > 0 {
        assert(marked(m).transitions.contains(rest[0]));
        lemma_marked_ends(m, rest[0]);
    }
    if m.transitions.contains(s) {
        let x = choose|x: int| 0 <= x < m.transitions.len() && m.transitions[x] == s;
        let t = m.transitions[x];
        assert(m.states.contains(t.next));
        assert(t.pop != marker);
        assert(t.push != marker);
        if t.pop != epsilon() {
            assert(stack.len() > 0) by {
                if stack.len() == 0 {
                    assert((seq![marker] + stack).last() == marker);
                }
            }
            assert((seq![marker] + stack).last() == stack.last());
        }
        assert(can_take(t, low));
        let lower = after(t, low);
        assert(after(t, high).stack =~= seq![marker] + lower.stack);
        assert(!lower.stack.contains(marker)) by {
            if lower.stack.contains(marker) {
                let j = choose|j: int| 0 <= j < lower.stack.len() && lower.stack[j] == marker;
                if t.pop == epsilon() {
                    if j < stack.len() {
                        assert(stack[j] == marker);
                    }
                } else {
                    if j < stack.len() - 1 {
                        assert(stack[j] == marker);
                    }
                }
            }
        }
        let i = lemma_marked_run(m, rest, t.next, lower.stack);
        assert(steps.drop_last() =~= seq![t] + rest.drop_last());
        assert(steps.last() == rest.last());
        assert(taken_from(m.transitions, seq![t]));
        lemma_taken_from_both(m.transitions, seq![t], rest.drop_last());
        lemma_one_step(t, low);
        lemma_leads_on(seq![t], rest.drop_last(), low, lower, at_rest(m.accept_states[i]));
        i
    } else if s == marker_push(new_start(m), m.start_state, marker) {
        assert(false);
        0
    } else if exists|i: int|
        0 <= i < m.accept_states.len() && s == marker_pop(
            #[trigger] m.accept_states[i],
            last,
            marker,
        ) {
        let i = choose|i: int|
            0 <= i < m.accept_states.len() && s == marker_pop(
                #[trigger] m.accept_states[i],
                last,
                marker,
            );
        assert(stack.len() == 0) by {
            if stack.len() > 0 {
                assert((seq![marker] + stack).last() == stack.last());
                assert(stack[stack.len() - 1] == marker);
            }
        }
        assert(after(s, high).state == last);
        assert(leads(rest, after(s, high), at_rest(last)));
        if rest.len() > 0 {
            assert(can_take(rest[0], after(s, high)));
        }
        assert(rest.len() == 0);
        assert(steps.drop_last() =~= Seq::<TransView>::empty());
        i
    } else {
        let i = choose|i: int|
            0 <= i < m.accept_states.len() && s == idle_move(#[trigger] m.accept_states[i], last);
        assert(after(s, high).state == last);
        assert(leads(rest, after(s, high), at_rest(last)));
        if rest.len() > 0 {
            assert(can_take(rest[0], after(s, high)));
        }
        assert(rest.len() == 0);
        assert(after(s, high).stack.len() > 0);
        assert(false);
        0
    }
}

/// The first two passes keep what is accepted: the words that take
/// `marked(m)` from its start state to its accept state, on a stack that is
/// empty at both ends, are the words that `m` accepts.
pub proof fn lemma_marked_language(m: PdaView, w: Seq<Seq<char>>)
    requires
        is_well_referenced(m),
    ensures
        drives(marked(m), new_start(m), final_state(m), w) <==> accepts(m, w),
{
    let b = marked(m);
    let marker = bottom_marker(m);
    let first = new_start(m);
    let last = final_state(m);
    let enter = marker_push(first, m.start_state, marker);
    let held = seq![marker];
    lemma_marked_transitions(m);
    lemma_bottom_marker_is_new(m);
    lemma_word_of_one(enter);
    if accepts(m, w) {
        let i = choose|i: int|
            0 <= i < m.accept_states.len() && drives(
                m,
                m.start_state,
                #[trigger] m.accept_states[i],
                w,
            );
        let inner = choose|steps: Seq<TransView>|
            taken_from(m.transitions, steps) && #[trigger] leads(
                steps,
                at_rest(m.start_state),
                at_rest(m.accept_states[i]),
            ) && word_of(steps) == w;
        let leave = marker_pop(m.accept_states[i], last, marker);
        let up = Configuration { state: m.start_state, stack: held };
        let down = Configuration { state: m.accept_states[i], stack: held };
        lemma_leads_above(
            inner,
            at_rest(m.start_state),
            at_rest(m.accept_states[i]),
            held,
        );
        assert(held + Seq::<Seq<char>>::empty() =~= held);
        lemma_one_step(enter, at_rest(first));
        assert(after(enter, at_rest(first)).stack =~= held);
        lemma_one_step(leave, down);
        assert(after(leave, down).stack =~= Seq::<Seq<char>>::empty());
        lemma_leads_on(seq![enter], inner, at_rest(first), up, down);
        lemma_leads_on(seq![enter] + inner, seq![leave], at_rest(first), down, at_rest(last));
        lemma_word_of_one(leave);
        let all = seq![enter] + inner + seq![leave];
        assert(word_of(all) =~= w);
        assert(taken_from(b.transitions, all)) by {
            assert forall|x: int| 0 <= x < all.len() implies b.transitions.contains(
                #[trigger] all[x],
            ) by {
                if x == 0 {
                    assert(b.transitions[m.transitions.len() as int] == all[x]);
                } else if x <= inner.len() {
                    assert(all[x] == inner[x - 1]);
                    let y = choose|y: int|
                        0 <= y < m.transitions.len() && m.transitions[y] == inner[x - 1];
                    assert(b.transitions[y] == all[x]);
                } else {
                    assert(b.transitions[m.transitions.len() + 1 + i] == all[x]);
                }
            }
        }
        assert(leads(all, at_rest(first), at_rest(last)));
    }
    if drives(b, first, last, w) {
        let steps = choose|steps: Seq<TransView>|
            taken_from(b.transitions, steps) && #[trigger] leads(
                steps,
                at_rest(first),
                at_rest(last),
            ) && word_of(steps) == w;
        assert(steps.len() > 0);
        let s = steps[0];
        let rest = steps.drop_first();
        lemma_marked_ends(m, s);
        assert(s == enter);
        assert(after(s, at_rest(first)).stack =~= held + Seq::<Seq<char>>::empty());
        lemma_taken_from_part(b.transitions, steps, 1, steps.len() as int);
        let i = lemma_marked_run(m, rest, m.start_state, Seq::empty());
        let inner = rest.drop_last();
        assert(rest =~= inner + seq![rest.last()]);
        lemma_word_of_concat(inner, seq![rest.last()]);
        lemma_word_of_one(rest.last());
        assert(word_of(inner) =~= w);
        assert(leads(inner, at_rest(m.start_state), at_rest(m.accept_states[i])));
        assert(drives(m, m.start_state, m.accept_states[i], w));
    }
}

/// The first two passes leave the transitions among the states.
proof fn lemma_marked_is_closed(m: PdaView)
    requires
        is_well_referenced(m),
    ensures
        is_closed(marked(m)),
        marked(m).states.contains(new_start(m)),
        marked(m).states.contains(final_state(m)),
{
    let b = marked(m);
    let base = m.states.len() as int;
    lemma_marked_transitions(m);
    assert(b.states[base] == new_start(m));
    assert(b.states[base + 1] == final_state(m));
    assert forall|q: Seq<char>| m.states.contains(q) implies b.states.contains(q) by {
        let j = choose|j: int| 0 <= j < base && m.states[j] == q;
        assert(b.states[j] == q);
    }
    assert forall|x: int| 0 <= x < b.transitions.len() implies b.states.contains(
        (#[trigger] b.transitions[x]).state,
    ) && b.states.contains(b.transitions[x].next) by {
        let t = b.transitions[x];
        assert(is_marked_transition(m, t));
        if m.transitions.contains(t) {
            let i = choose|i: int| 0 <= i < m.transitions.len() && m.transitions[i] == t;
            assert(m.states.contains(m.transitions[i].state));
            assert(m.states.contains(m.transitions[i].next));
        }
    }
}

/// The grammar agrees with the automaton. For every automaton `m` that names
/// only what it declares, the grammar that is synthesized for the normal form
/// of `m` derives from its start symbol exactly the words that `m` accepts.
pub proof fn lemma_grammar_language(m: PdaView, w: Seq<Seq<char>>)
    requires
        is_well_referenced(m),
    ensures
        generates(normalized(m), w) <==> accepts(m, w),
{
    let b = marked(m);
    let n = normalized(m);
    let first = new_start(m);
    let last = final_state(m);
    lemma_marked_is_closed(m);
    lemma_split_stays_closed(b);
    lemma_pure_after_split(b);
    lemma_split_shape(b, b.transitions.len());
    assert(n.states.contains(first)) by {
        let j = choose|j: int| 0 <= j < b.states.len() && b.states[j] == first;
        assert(n.states[j] == first);
    }
    assert(n.accept_states[0] == last);
    lemma_nonterminal_language(n, first, last, w);
    lemma_marked_language(m, w);
    if drives(n, first, last, w) {
        let split = choose|steps: Seq<TransView>|
            taken_from(n.transitions, steps) && #[trigger] leads(
                steps,
                at_rest(first),
                at_rest(last),
            ) && word_of(steps) == w;
        let steps = lemma_split_adds_no_runs(b, split, at_rest(first), at_rest(last));
        assert(leads(steps, at_rest(first), at_rest(last)));
    }
    if drives(b, first, last, w) {
        let steps = choose|steps: Seq<TransView>|
            taken_from(b.transitions, steps) && #[trigger] leads(
                steps,
                at_rest(first),
                at_rest(last),
            ) && word_of(steps) == w;
        let split = lemma_split_keeps_runs(b, steps, at_rest(first), at_rest(last));
        assert(leads(split, at_rest(first), at_rest(last)));
    }
}

} // verus!
