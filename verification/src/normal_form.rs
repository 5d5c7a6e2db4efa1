//! The normal form that rule synthesis works on, stated on views: one start
//! state that pushes a bottom marker, one accept state, and transitions that
//! each either push or pop.

use vstd::prelude::*;
use crate::pda::{PdaView, TransView, accept_name, epsilon, hash, start_name, symbol};
use crate::text::{
    decimal, lemma_unused_name_begins, lemma_unused_name_is_unused, unused_name,
};

verus! {

/// A transition that pushes or pops, and does not do both.
pub open spec fn is_pure(t: TransView) -> bool {
    (t.pop == epsilon()) != (t.push == epsilon())
}

/// Every transition pushes or pops, and none does both.
pub open spec fn all_pure(ts: Seq<TransView>) -> bool {
    forall|i: int| 0 <= i < ts.len() ==> is_pure(#[trigger] ts[i])
}

/// The name of the start state that is added to `m`.
pub open spec fn new_start(m: PdaView) -> Seq<char> {
    unused_name(m.states, start_name())
}

/// The name of the accept state that is added to `m`.
pub open spec fn new_accept(m: PdaView) -> Seq<char> {
    unused_name(m.states, accept_name())
}

/// The stack symbol that marks the bottom of the stack of `m`.
pub open spec fn bottom_marker(m: PdaView) -> Seq<char> {
    unused_name(m.stack_alphabet, hash())
}

/// The move from `from` to `to` that reads nothing and pushes `marker`.
pub open spec fn marker_push(from: Seq<char>, to: Seq<char>, marker: Seq<char>) -> TransView {
    TransView { state: from, input: epsilon(), pop: epsilon(), next: to, push: marker }
}

/// The move from `from` to `to` that reads nothing and pops `marker`.
pub open spec fn marker_pop(from: Seq<char>, to: Seq<char>, marker: Seq<char>) -> TransView {
    TransView { state: from, input: epsilon(), pop: marker, next: to, push: epsilon() }
}

/// The move from `from` to `to` that reads nothing and leaves the stack alone.
pub open spec fn idle_move(from: Seq<char>, to: Seq<char>) -> TransView {
    TransView { state: from, input: epsilon(), pop: epsilon(), next: to, push: epsilon() }
}

/// `m` with the bottom marker: a new start state pushes the marker and moves
/// to the old start state, and each accept state may pop the marker and move
/// to the state that `with_single_accept` adds next.
pub open spec fn with_empty_stack(m: PdaView) -> PdaView {
    let start = new_start(m);
    let states = m.states.push(start);
    let target = unused_name(states, accept_name());
    let marker = bottom_marker(m);
    PdaView {
        states: states,
        input_alphabet: m.input_alphabet,
        stack_alphabet: m.stack_alphabet,
        start_state: start,
        accept_states: m.accept_states,
        transitions: m.transitions.push(marker_push(start, m.start_state, marker)) + Seq::new(
            m.accept_states.len(),
            |i: int| marker_pop(m.accept_states[i], target, marker),
        ),
    }
}

/// `m` with one accept state: a new state, reached by an idle move from each
/// former accept state. The input alphabet holds epsilon afterwards.
pub open spec fn with_single_accept(m: PdaView) -> PdaView {
    let accept = new_accept(m);
    PdaView {
        states: m.states.push(accept),
        input_alphabet: if m.input_alphabet.contains(epsilon()) {
            m.input_alphabet
        } else {
            m.input_alphabet.push(epsilon())
        },
        stack_alphabet: m.stack_alphabet,
        start_state: m.start_state,
        accept_states: seq![accept],
        transitions: m.transitions + Seq::new(
            m.accept_states.len(),
            |i: int| idle_move(m.accept_states[i], accept),
        ),
    }
}

/// The name wanted for the state in the middle of the split with number `id`
/// of a transition that leaves `origin`.
pub open spec fn split_name(origin: Seq<char>, id: nat) -> Seq<char> {
    origin + seq!['_', 'P'] + decimal(id) + seq!['P']
}

/// The stack symbol that the two halves of a split hand over: the filler where
/// `t` pushes nothing, nothing where it pushes.
pub open spec fn handover(t: TransView) -> Seq<char> {
    if t.push == epsilon() {
        symbol()
    } else {
        epsilon()
    }
}

/// The first half of the split of `t` through `mid`: the input and the pop of `t`.
pub open spec fn head_of(t: TransView, mid: Seq<char>) -> TransView {
    TransView { state: t.state, input: t.input, pop: t.pop, next: mid, push: handover(t) }
}

/// The second half of the split of `t` through `mid`: the push of `t`.
pub open spec fn tail_of(t: TransView, mid: Seq<char>) -> TransView {
    TransView { state: mid, input: epsilon(), pop: handover(t), next: t.next, push: t.push }
}

/// How far the splitting has come: the states with those added so far, what
/// stands in place of the transitions seen, and the second halves to append.
pub struct Split {
    pub states: Seq<Seq<char>>,
    pub heads: Seq<TransView>,
    pub tails: Seq<TransView>,
}

/// The name of the state through which `t` is split when `done` is how far the
/// splitting has come: the wanted name, numbered by the splits before it, made
/// to differ from every state there is.
pub open spec fn middle_state(done: Split, t: TransView) -> Seq<char> {
    unused_name(done.states, split_name(t.state, done.tails.len()))
}

/// The splitting of the first `n` transitions of `m`.
pub open spec fn split_upto(m: PdaView, n: nat) -> Split
    decreases n,
{
    if n == 0 {
        Split { states: m.states, heads: Seq::empty(), tails: Seq::empty() }
    } else {
        let done = split_upto(m, (n - 1) as nat);
        let t = m.transitions[n - 1];
        if is_pure(t) {
            Split { states: done.states, heads: done.heads.push(t), tails: done.tails }
        } else {
            let mid = middle_state(done, t);
            Split {
                states: done.states.push(mid),
                heads: done.heads.push(head_of(t, mid)),
                tails: done.tails.push(tail_of(t, mid)),
            }
        }
    }
}

/// `m` with every transition that pushes and pops, or does neither, split in
/// two through a new state: the first half stands in its place, the second
/// halves follow all the others in the order of their first halves.
pub open spec fn with_pure_moves(m: PdaView) -> PdaView {
    let done = split_upto(m, m.transitions.len());
    PdaView {
        states: done.states,
        input_alphabet: m.input_alphabet,
        stack_alphabet: m.stack_alphabet,
        start_state: m.start_state,
        accept_states: m.accept_states,
        transitions: done.heads + done.tails,
    }
}

/// The three passes in their fixed order.
pub open spec fn normalized(m: PdaView) -> PdaView {
    with_pure_moves(with_single_accept(with_empty_stack(m)))
}

/// The filler is a stack symbol, not epsilon.
pub proof fn lemma_symbol_is_not_epsilon()
    ensures
        symbol() != epsilon(),
        hash() != epsilon(),
{
    assert(symbol()[0] != epsilon()[0]);
    assert(hash()[0] != epsilon()[0]);
}

/// Both halves of a split push or pop, and do not do both.
pub proof fn lemma_halves_are_pure(t: TransView, mid: Seq<char>)
    requires
        !is_pure(t),
    ensures
        is_pure(head_of(t, mid)),
        is_pure(tail_of(t, mid)),
{
    lemma_symbol_is_not_epsilon();
}

/// What the splitting keeps: one head for each transition seen, with its
/// origin; the states that were there, in place; only states that were not yet
/// there are added, one for each tail, and the tail leaves it.
pub proof fn lemma_split_shape(m: PdaView, n: nat)
    requires
        n <= m.transitions.len(),
    ensures
        split_upto(m, n).heads.len() == n,
        split_upto(m, n).tails.len() <= n,
        split_upto(m, n).states.len() == m.states.len() + split_upto(m, n).tails.len(),
        all_pure(split_upto(m, n).heads),
        all_pure(split_upto(m, n).tails),
        forall|i: int| 0 <= i < m.states.len() ==> split_upto(m, n).states[i] == m.states[i],
        forall|i: int|
            0 <= i < n ==> (#[trigger] split_upto(m, n).heads[i]).state == m.transitions[i].state,
        forall|i: int|
            0 <= i < n && is_pure(m.transitions[i]) ==> #[trigger] split_upto(m, n).heads[i]
                == m.transitions[i],
        forall|i: int|
            0 <= i < split_upto(m, n).tails.len() ==> (#[trigger] split_upto(m, n).tails[i]).state
                == split_upto(m, n).states[m.states.len() + i],
        forall|i: int, j: int|
            0 <= i < j < split_upto(m, n).states.len() && m.states.len() <= j ==> split_upto(
                m,
                n,
            ).states[i] != split_upto(m, n).states[j],
    decreases n,
{
    if n > 0 {
        let done = split_upto(m, (n - 1) as nat);
        let now = split_upto(m, n);
        let t = m.transitions[n - 1];
        lemma_split_shape(m, (n - 1) as nat);
        if !is_pure(t) {
            let mid = middle_state(done, t);
            lemma_halves_are_pure(t, mid);
            lemma_unused_name_is_unused(done.states, split_name(t.state, done.tails.len()));
            assert forall|i: int, j: int|
                0 <= i < j < now.states.len() && m.states.len() <= j implies now.states[i]
                != now.states[j] by {
                if j == done.states.len() {
                    assert(done.states[i] != mid);
                } else {
                    assert(done.states[i] != done.states[j]);
                }
            }
        }
    }
}

/// After the splitting every transition pushes or pops, and none does both.
pub proof fn lemma_pure_after_split(m: PdaView)
    ensures
        all_pure(with_pure_moves(m).transitions),
{
    lemma_split_shape(m, m.transitions.len());
}

/// Where every transition already pushes or pops, the splitting changes nothing.
pub proof fn lemma_split_of_pure(m: PdaView, n: nat)
    requires
        all_pure(m.transitions),
        n <= m.transitions.len(),
    ensures
        split_upto(m, n).states == m.states,
        split_upto(m, n).heads == m.transitions.take(n as int),
        split_upto(m, n).tails == Seq::<TransView>::empty(),
    decreases n,
{
    if n > 0 {
        lemma_split_of_pure(m, (n - 1) as nat);
        assert(is_pure(m.transitions[n - 1]));
        assert(m.transitions.take(n as int) =~= m.transitions.take(n - 1).push(
            m.transitions[n - 1],
        ));
    } else {
        assert(m.transitions.take(0) =~= Seq::<TransView>::empty());
    }
}

/// Splitting is idempotent: an automaton whose transitions all push or pop is
/// left as it is, and so is the result of a splitting when it is split again.
pub proof fn lemma_split_twice(m: PdaView)
    ensures
        all_pure(m.transitions) ==> with_pure_moves(m) == m,
        with_pure_moves(with_pure_moves(m)) == with_pure_moves(m),
{
    if all_pure(m.transitions) {
        lemma_split_of_pure(m, m.transitions.len());
        assert(m.transitions.take(m.transitions.len() as int) =~= m.transitions);
        assert(with_pure_moves(m).transitions =~= m.transitions);
    }
    let once = with_pure_moves(m);
    lemma_pure_after_split(m);
    lemma_split_of_pure(once, once.transitions.len());
    assert(once.transitions.take(once.transitions.len() as int) =~= once.transitions);
    assert(with_pure_moves(once).transitions =~= once.transitions);
}

/// Normalization removes no transition: each one that was there still
/// stands in its place, with its origin, its input and its pop; and no state
/// is removed or renamed.
pub proof fn lemma_only_grows(m: PdaView)
    ensures
        m.transitions.len() <= normalized(m).transitions.len(),
        forall|i: int|
            0 <= i < m.transitions.len() ==> {
                let after = #[trigger] normalized(m).transitions[i];
                &&& after.state == m.transitions[i].state
                &&& after.input == m.transitions[i].input
                &&& after.pop == m.transitions[i].pop
            },
        m.states.len() <= normalized(m).states.len(),
        forall|i: int| 0 <= i < m.states.len() ==> #[trigger] normalized(m).states[i] == m.states[i],
{
    let b = with_single_accept(with_empty_stack(m));
    lemma_split_shape(b, b.transitions.len());
    lemma_heads(b, b.transitions.len());
    let done = split_upto(b, b.transitions.len());
    assert forall|i: int| 0 <= i < m.transitions.len() implies {
        let after = #[trigger] normalized(m).transitions[i];
        &&& after.state == m.transitions[i].state
        &&& after.input == m.transitions[i].input
        &&& after.pop == m.transitions[i].pop
    } by {
        assert(normalized(m).transitions[i] == done.heads[i]);
        assert(b.transitions[i] == m.transitions[i]);
    }
    assert forall|i: int| 0 <= i < m.states.len() implies #[trigger] normalized(m).states[i]
        == m.states[i] by {
        assert(done.states[i] == b.states[i]);
    }
}

/// Each head keeps the origin, the input and the pop of its transition.
proof fn lemma_heads(m: PdaView, n: nat)
    requires
        n <= m.transitions.len(),
    ensures
        split_upto(m, n).heads.len() == n,
        forall|i: int|
            0 <= i < n ==> {
                let head = #[trigger] split_upto(m, n).heads[i];
                &&& head.state == m.transitions[i].state
                &&& head.input == m.transitions[i].input
                &&& head.pop == m.transitions[i].pop
            },
    decreases n,
{
    if n > 0 {
        lemma_heads(m, (n - 1) as nat);
    }
}

/// The bottom marker is a stack symbol that the automaton did not have.
pub proof fn lemma_bottom_marker_is_new(m: PdaView)
    ensures
        !m.stack_alphabet.contains(bottom_marker(m)),
        bottom_marker(m) != epsilon(),
{
    lemma_unused_name_is_unused(m.stack_alphabet, hash());
    lemma_unused_name_begins(m.stack_alphabet, hash());
    assert(bottom_marker(m)[0] == hash()[0]);
    assert(bottom_marker(m)[0] != epsilon()[0]);
}

/// Whether the transition at `k` is the only one of `ts` that leaves `q`.
pub open spec fn leaves_only_at(ts: Seq<TransView>, q: Seq<char>, k: int) -> bool {
    &&& 0 <= k < ts.len()
    &&& ts[k].state == q
    &&& forall|j: int| 0 <= j < ts.len() && ts[j].state == q ==> j == k
}

/// Whether `m` already uses the name `q` for the origin of a transition or for
/// an accept state.
pub open spec fn is_origin_in(m: PdaView, q: Seq<char>) -> bool {
    ||| exists|i: int| 0 <= i < m.transitions.len() && m.transitions[i].state == q
    ||| exists|i: int| 0 <= i < m.accept_states.len() && m.accept_states[i] == q
}

/// An automaton whose transitions all leave its own states, and whose accept
/// states are among its states, uses the name of no state that it lacks.
pub proof fn lemma_closed_has_no_foreign_origin(m: PdaView, q: Seq<char>)
    requires
        forall|i: int| 0 <= i < m.transitions.len() ==> m.states.contains(m.transitions[i].state),
        forall|i: int| 0 <= i < m.accept_states.len() ==> m.states.contains(m.accept_states[i]),
        !m.states.contains(q),
    ensures
        !is_origin_in(m, q),
{
}

/// The shape of the normal form, for every automaton `m`: one accept state;
/// every transition pushes or pops, and none does both; the start state is the
/// one that was added, and the transition that was added for it, right after
/// those of `m`, pushes the bottom marker, which is not epsilon and not in the
/// stack alphabet of `m`, on the way to the old start state.
pub proof fn lemma_normal_form(m: PdaView)
    ensures
        normalized(m).accept_states.len() == 1,
        all_pure(normalized(m).transitions),
        normalized(m).start_state == new_start(m),
        !m.states.contains(new_start(m)),
        m.transitions.len() < normalized(m).transitions.len(),
        normalized(m).transitions[m.transitions.len() as int] == marker_push(
            new_start(m),
            m.start_state,
            bottom_marker(m),
        ),
        !m.stack_alphabet.contains(bottom_marker(m)),
        bottom_marker(m) != epsilon(),
{
    let a = with_empty_stack(m);
    let b = with_single_accept(a);
    let k = m.transitions.len() as int;
    lemma_bottom_marker_is_new(m);
    lemma_unused_name_is_unused(m.states, start_name());
    lemma_pure_after_split(b);
    lemma_split_shape(b, b.transitions.len());
    assert(b.transitions[k] == marker_push(new_start(m), m.start_state, bottom_marker(m)));
    assert(is_pure(b.transitions[k]));
    assert(normalized(m).transitions[k] == split_upto(b, b.transitions.len()).heads[k]);
}

/// In the normal form of `m` the start state has exactly one outgoing
/// transition, the one that pushes the bottom marker, unless `m` already used
/// the name of the new start state, which is none of its states, for the
/// origin of a transition or for an accept state.
pub proof fn lemma_start_leaves_once(m: PdaView)
    requires
        !is_origin_in(m, new_start(m)),
    ensures
        leaves_only_at(
            normalized(m).transitions,
            normalized(m).start_state,
            m.transitions.len() as int,
        ),
{
    let a = with_empty_stack(m);
    let b = with_single_accept(a);
    let c = normalized(m);
    let k = m.transitions.len() as int;
    let start = new_start(m);
    let done = split_upto(b, b.transitions.len());
    lemma_normal_form(m);
    lemma_split_shape(b, b.transitions.len());
    assert(b.states[m.states.len() as int] == start);
    assert(done.states[m.states.len() as int] == start);
    assert forall|j: int| 0 <= j < c.transitions.len() && c.transitions[j].state
        == start implies j == k by {
        if j < b.transitions.len() {
            assert(c.transitions[j] == done.heads[j]);
            assert(done.heads[j].state == b.transitions[j].state);
            if j < k {
                assert(b.transitions[j] == m.transitions[j]);
            } else if j > k && j < a.transitions.len() {
                assert(b.transitions[j].state == m.accept_states[j - k - 1]);
            } else if j >= a.transitions.len() {
                assert(b.transitions[j].state == m.accept_states[j - a.transitions.len()]);
            }
        } else {
            let i = j - b.transitions.len();
            assert(c.transitions[j] == done.tails[i]);
            assert(done.tails[i].state == done.states[b.states.len() + i]);
            assert(done.states[m.states.len() as int] != done.states[b.states.len() + i]);
        }
    }
}

} // verus!
