//! What the automaton accepts and what the grammar derives, and that the two
//! agree: the nonterminal of `p` and `q` derives exactly the words that take
//! an automaton in normal form from `p` to `q` on a stack that is empty at
//! both ends.
//!
//! Words are sequences of input symbols. Derivations work on pairs of
//! states, which the grammar writes as `A[p,q]`.

use vstd::prelude::*;
use crate::normal_form::{all_pure, is_pure};
use crate::pda::{PdaView, TransView, epsilon, is_closed};
use crate::grammar::GrammarView;
use crate::synthesis::{
    alternatives, is_matching_pair, is_paired_within, is_transitive_within,
    lemma_paired_alternatives, lemma_transitive_alternative_is_there,
    lemma_transitive_alternatives_are_triples, paired_alternative, paired_alternatives,
    reflexive_alternative, reflexive_alternatives, start_alternative, transitive_alternative,
    transitive_alternatives,
};

verus! {

/// A state together with the stack, whose top is its last entry.
pub struct Configuration {
    pub state: Seq<char>,
    pub stack: Seq<Seq<char>>,
}

/// The configuration in `state` with an empty stack.
pub open spec fn at_rest(state: Seq<char>) -> Configuration {
    Configuration { state: state, stack: Seq::empty() }
}

/// What taking `t` reads: its input symbol, or nothing.
pub open spec fn read_by(t: TransView) -> Seq<Seq<char>> {
    if t.input == epsilon() {
        Seq::empty()
    } else {
        seq![t.input]
    }
}

/// Whether `t` can be taken in `c`: it leaves the state of `c`, and what it
/// pops, if anything, is on top of the stack.
pub open spec fn can_take(t: TransView, c: Configuration) -> bool {
    &&& t.state == c.state
    &&& t.pop != epsilon() ==> c.stack.len() > 0 && c.stack.last() == t.pop
}

/// The configuration that taking `t` in `c` leads to.
pub open spec fn after(t: TransView, c: Configuration) -> Configuration {
    let popped = if t.pop == epsilon() {
        c.stack
    } else {
        c.stack.drop_last()
    };
    Configuration {
        state: t.next,
        stack: if t.push == epsilon() {
            popped
        } else {
            popped.push(t.push)
        },
    }
}

/// Whether the transitions `steps`, taken one after the other, lead from `from` to `to`.
pub open spec fn leads(steps: Seq<TransView>, from: Configuration, to: Configuration) -> bool
    decreases steps.len(),
{
    if steps.len() == 0 {
        from.state == to.state && from.stack =~= to.stack
    } else {
        can_take(steps[0], from) && leads(steps.drop_first(), after(steps[0], from), to)
    }
}

/// The word that `steps` read.
pub open spec fn word_of(steps: Seq<TransView>) -> Seq<Seq<char>>
    decreases steps.len(),
{
    if steps.len() == 0 {
        Seq::empty()
    } else {
        read_by(steps[0]) + word_of(steps.drop_first())
    }
}

/// Whether every one of `steps` is a transition of `ts`.
pub open spec fn taken_from(ts: Seq<TransView>, steps: Seq<TransView>) -> bool {
    forall|i: int| 0 <= i < steps.len() ==> ts.contains(#[trigger] steps[i])
}

/// A part of steps that are taken from `ts` is taken from `ts`.
pub proof fn lemma_taken_from_part(ts: Seq<TransView>, steps: Seq<TransView>, lo: int, hi: int)
    requires
        taken_from(ts, steps),
        0 <= lo <= hi <= steps.len(),
    ensures
        taken_from(ts, steps.subrange(lo, hi)),
{
    let part = steps.subrange(lo, hi);
    assert forall|i: int| 0 <= i < part.len() implies ts.contains(#[trigger] part[i]) by {
        assert(part[i] == steps[lo + i]);
    }
}

/// Steps taken from `ts`, followed by steps taken from `ts`, are taken from `ts`.
pub proof fn lemma_taken_from_both(ts: Seq<TransView>, first: Seq<TransView>, second: Seq<TransView>)
    requires
        taken_from(ts, first),
        taken_from(ts, second),
    ensures
        taken_from(ts, first + second),
{
    let both = first + second;
    assert forall|i: int| 0 <= i < both.len() implies ts.contains(#[trigger] both[i]) by {
        if i < first.len() {
            assert(both[i] == first[i]);
        } else {
            assert(both[i] == second[i - first.len()]);
        }
    }
}

/// Whether the word `w` takes the automaton from `p` to `q` on a stack that
/// is empty at the start and at the end.
pub open spec fn drives(m: PdaView, p: Seq<char>, q: Seq<char>, w: Seq<Seq<char>>) -> bool {
    exists|steps: Seq<TransView>|
        taken_from(m.transitions, steps) && #[trigger] leads(steps, at_rest(p), at_rest(q))
            && word_of(steps) == w
}

/// Steps that lead from one configuration to a second, followed by steps that
/// lead on to a third, lead from the first to the third, and read the one
/// word after the other.
pub proof fn lemma_leads_on(
    first: Seq<TransView>,
    second: Seq<TransView>,
    a: Configuration,
    b: Configuration,
    c: Configuration,
)
    requires
        leads(first, a, b),
        leads(second, b, c),
    ensures
        leads(first + second, a, c),
        word_of(first + second) == word_of(first) + word_of(second),
    decreases first.len(),
{
    if first.len() == 0 {
        assert(first + second =~= second);
        assert(a.stack == b.stack);
        assert(a == b);
        assert(word_of(first) + word_of(second) =~= word_of(second));
    } else {
        lemma_leads_on(first.drop_first(), second, after(first[0], a), b, c);
        assert((first + second).drop_first() =~= first.drop_first() + second);
        assert(read_by(first[0]) + (word_of(first.drop_first()) + word_of(second)) =~= (read_by(
            first[0],
        ) + word_of(first.drop_first())) + word_of(second));
    }
}

/// The word of steps put together is the words put together.
pub proof fn lemma_word_of_concat(first: Seq<TransView>, second: Seq<TransView>)
    ensures
        word_of(first + second) == word_of(first) + word_of(second),
    decreases first.len(),
{
    if first.len() == 0 {
        assert(first + second =~= second);
        assert(word_of(first) + word_of(second) =~= word_of(second));
    } else {
        lemma_word_of_concat(first.drop_first(), second);
        assert((first + second).drop_first() =~= first.drop_first() + second);
        assert(read_by(first[0]) + (word_of(first.drop_first()) + word_of(second)) =~= (read_by(
            first[0],
        ) + word_of(first.drop_first())) + word_of(second));
    }
}

/// One step reads what its transition reads.
pub proof fn lemma_word_of_one(t: TransView)
    ensures
        word_of(seq![t]) == read_by(t),
{
    let rest = seq![t].drop_first();
    assert(rest =~= Seq::<TransView>::empty());
    assert(word_of(rest) =~= Seq::<Seq<char>>::empty());
    assert(read_by(t) + word_of(rest) =~= read_by(t));
}

/// Steps do not look below what they find on the stack: they lead the same
/// way when more lies under it.
pub proof fn lemma_leads_above(
    steps: Seq<TransView>,
    from: Configuration,
    to: Configuration,
    under: Seq<Seq<char>>,
)
    requires
        leads(steps, from, to),
    ensures
        leads(
            steps,
            Configuration { state: from.state, stack: under + from.stack },
            Configuration { state: to.state, stack: under + to.stack },
        ),
    decreases steps.len(),
{
    let low = Configuration { state: from.state, stack: under + from.stack };
    if steps.len() > 0 {
        let t = steps[0];
        let next = after(t, from);
        lemma_leads_above(steps.drop_first(), next, to, under);
        assert(can_take(t, low));
        assert(after(t, low).stack =~= under + next.stack);
        assert(after(t, low) == Configuration { state: next.state, stack: under + next.stack });
    }
}

/// How a word is derived from the nonterminal of two states.
pub enum Derivation {
    /// `A[q,q]` derives the empty word.
    Stay { state: Seq<char> },
    /// `A[p,q]` derives what `A[p,r]` derives, followed by what `A[r,q]` derives.
    Chain { first: Box<Derivation>, second: Box<Derivation> },
    /// `A[origin(a),next(b)]` derives the input of `a`, then what
    /// `A[next(a),origin(b)]` derives, then the input of `b`.
    Wrap { push: TransView, inner: Box<Derivation>, pop: TransView },
}

impl Derivation {
    /// The first state of the nonterminal that the derivation starts from.
    pub open spec fn origin(self) -> Seq<char>
        decreases self,
    {
        match self {
            Derivation::Stay { state } => state,
            Derivation::Chain { first, second } => first.origin(),
            Derivation::Wrap { push, inner, pop } => push.state,
        }
    }

    /// The second state of the nonterminal that the derivation starts from.
    pub open spec fn target(self) -> Seq<char>
        decreases self,
    {
        match self {
            Derivation::Stay { state } => state,
            Derivation::Chain { first, second } => second.target(),
            Derivation::Wrap { push, inner, pop } => pop.next,
        }
    }

    /// The word that is derived.
    pub open spec fn word(self) -> Seq<Seq<char>>
        decreases self,
    {
        match self {
            Derivation::Stay { state } => Seq::empty(),
            Derivation::Chain { first, second } => first.word() + second.word(),
            Derivation::Wrap { push, inner, pop } => read_by(push) + inner.word() + read_by(pop),
        }
    }

    /// Whether every step of the derivation follows a production that the
    /// three passes write for `m`.
    pub open spec fn fits(self, m: PdaView) -> bool
        decreases self,
    {
        match self {
            Derivation::Stay { state } => m.states.contains(state),
            Derivation::Chain { first, second } => {
                &&& first.fits(m)
                &&& second.fits(m)
                &&& first.target() == second.origin()
                &&& m.states.contains(first.origin())
                &&& m.states.contains(first.target())
                &&& m.states.contains(second.target())
            },
            Derivation::Wrap { push, inner, pop } => {
                &&& m.transitions.contains(push)
                &&& m.transitions.contains(pop)
                &&& is_matching_pair(push, pop)
                &&& inner.fits(m)
                &&& inner.origin() == push.next
                &&& inner.target() == pop.state
            },
        }
    }
}

/// Whether `alt` is one of the productions that a derivation on `m` may
/// follow: that of a state, of three states, or of a matching pair of transitions.
pub open spec fn is_production(m: PdaView, alt: GrammarView) -> bool {
    ||| exists|q: Seq<char>| m.states.contains(q) && alt == #[trigger] reflexive_alternative(q)
    ||| exists|p: Seq<char>, q: Seq<char>, via: Seq<char>|
        m.states.contains(p) && m.states.contains(q) && m.states.contains(via) && alt
            == #[trigger] transitive_alternative(p, q, via)
    ||| exists|a: TransView, b: TransView|
        m.transitions.contains(a) && m.transitions.contains(b) && is_matching_pair(a, b) && alt
            == #[trigger] paired_alternative(a, b)
}

/// The production that the first step of a derivation follows.
pub open spec fn production_of(d: Derivation) -> GrammarView {
    match d {
        Derivation::Stay { state } => reflexive_alternative(state),
        Derivation::Chain { first, second } => transitive_alternative(
            first.origin(),
            second.target(),
            first.target(),
        ),
        Derivation::Wrap { push, inner, pop } => paired_alternative(push, pop),
    }
}

/// A derivation that fits `m` starts with a production of `m`.
pub proof fn lemma_fitting_derivation_follows_productions(m: PdaView, d: Derivation)
    requires
        d.fits(m),
    ensures
        is_production(m, production_of(d)),
{
}

/// The productions that derivations follow are the alternatives that the
/// three passes contribute: besides the production of the start symbol, the
/// grammar is made of them and of nothing else.
pub proof fn lemma_productions_are_the_alternatives(m: PdaView, alt: GrammarView)
    ensures
        is_production(m, alt) || alt == start_alternative(m) <==> alternatives(m).contains(alt),
{
    let start = seq![start_alternative(m)];
    let reflexive = reflexive_alternatives(m.states);
    let transitive = transitive_alternatives(m.states);
    let paired = paired_alternatives(m.transitions);
    let all = alternatives(m);
    let ts = m.transitions;
    lemma_transitive_alternatives_are_triples(m.states);
    lemma_paired_alternatives(ts);
    if alt == start_alternative(m) {
        assert(all[0] == alt);
    }
    if exists|q: Seq<char>| m.states.contains(q) && alt == #[trigger] reflexive_alternative(q) {
        let q = choose|q: Seq<char>|
            m.states.contains(q) && alt == #[trigger] reflexive_alternative(q);
        let i = choose|i: int| 0 <= i < m.states.len() && m.states[i] == q;
        assert(all[1 + i] == alt);
    }
    if exists|p: Seq<char>, q: Seq<char>, via: Seq<char>|
        m.states.contains(p) && m.states.contains(q) && m.states.contains(via) && alt
            == #[trigger] transitive_alternative(p, q, via) {
        let (p, q, via) = choose|p: Seq<char>, q: Seq<char>, via: Seq<char>|
            m.states.contains(p) && m.states.contains(q) && m.states.contains(via) && alt
                == #[trigger] transitive_alternative(p, q, via);
        let i = choose|i: int| 0 <= i < m.states.len() && m.states[i] == p;
        let j = choose|j: int| 0 <= j < m.states.len() && m.states[j] == q;
        let k = choose|k: int| 0 <= k < m.states.len() && m.states[k] == via;
        lemma_transitive_alternative_is_there(m.states, i, j, k);
        let x = choose|x: int| 0 <= x < transitive.len() && transitive[x] == alt;
        assert(all[1 + reflexive.len() + x] == alt);
    }
    if exists|a: TransView, b: TransView|
        ts.contains(a) && ts.contains(b) && is_matching_pair(a, b) && alt
            == #[trigger] paired_alternative(a, b) {
        let (a, b) = choose|a: TransView, b: TransView|
            ts.contains(a) && ts.contains(b) && is_matching_pair(a, b) && alt
                == #[trigger] paired_alternative(a, b);
        let i = choose|i: int| 0 <= i < ts.len() && ts[i] == a;
        let j = choose|j: int| 0 <= j < ts.len() && ts[j] == b;
        assert(paired.contains(paired_alternative(ts[i], ts[j])));
        let x = choose|x: int| 0 <= x < paired.len() && paired[x] == alt;
        assert(all[1 + reflexive.len() + transitive.len() + x] == alt);
    }
    if all.contains(alt) && alt != start_alternative(m) {
        let x = choose|x: int| 0 <= x < all.len() && all[x] == alt;
        if x < 1 {
        } else if x < 1 + reflexive.len() {
            assert(alt == reflexive_alternative(m.states[x - 1]));
            assert(m.states.contains(m.states[x - 1]));
        } else if x < 1 + reflexive.len() + transitive.len() {
            let y = x - 1 - reflexive.len();
            assert(alt == transitive[y]);
            assert(is_transitive_within(m.states, m.states.len() as int, transitive[y]));
            let (i, j, k) = choose|i: int, j: int, k: int|
                0 <= i < m.states.len() && 0 <= j < m.states.len() && 0 <= k < m.states.len()
                    && transitive[y] == #[trigger] transitive_alternative(
                    m.states[i],
                    m.states[j],
                    m.states[k],
                );
            assert(m.states.contains(m.states[i]));
            assert(m.states.contains(m.states[j]));
            assert(m.states.contains(m.states[k]));
        } else {
            let y = x - 1 - reflexive.len() - transitive.len();
            assert(alt == paired[y]);
            assert(is_paired_within(ts, ts.len() as int, paired[y]));
            let (i, j) = choose|i: int, j: int|
                0 <= i < ts.len() && 0 <= j < ts.len() && is_matching_pair(ts[i], ts[j])
                    && paired[y] == #[trigger] paired_alternative(ts[i], ts[j]);
            assert(ts.contains(ts[i]));
            assert(ts.contains(ts[j]));
        }
    }
}

/// Whether the grammar of `m` derives the word `w` from the nonterminal of `p` and `q`.
pub open spec fn derives(m: PdaView, p: Seq<char>, q: Seq<char>, w: Seq<Seq<char>>) -> bool {
    exists|d: Derivation| #[trigger] d.fits(m) && d.origin() == p && d.target() == q && d.word() == w
}

/// Whether the grammar of `m` derives the word `w` from its start symbol,
/// whose production leads to the nonterminal of the start state and the
/// accept state of `m`.
pub open spec fn generates(m: PdaView, w: Seq<Seq<char>>) -> bool {
    derives(m, m.start_state, m.accept_states[0], w)
}

/// What is derived takes the automaton along: the steps returned are
/// transitions of `m`, read the word derived, and lead from the origin of the
/// derivation to its target on a stack that is empty at both ends.
pub proof fn lemma_derived_word_drives(m: PdaView, d: Derivation) -> (steps: Seq<TransView>)
    requires
        d.fits(m),
    ensures
        taken_from(m.transitions, steps),
        leads(steps, at_rest(d.origin()), at_rest(d.target())),
        word_of(steps) == d.word(),
    decreases d,
{
    match d {
        Derivation::Stay { state } => Seq::empty(),
        Derivation::Chain { first, second } => {
            let a = lemma_derived_word_drives(m, *first);
            let b = lemma_derived_word_drives(m, *second);
            lemma_leads_on(a, b, at_rest(first.origin()), at_rest(first.target()), at_rest(second.target()));
            a + b
        },
        Derivation::Wrap { push, inner, pop } => {
            let within = lemma_derived_word_drives(m, *inner);
            let held = seq![push.push];
            let low = at_rest(push.state);
            let up = Configuration { state: push.next, stack: held };
            let down = Configuration { state: pop.state, stack: held };
            let out = at_rest(pop.next);
            lemma_leads_above(within, at_rest(push.next), at_rest(pop.state), held);
            assert(held + Seq::<Seq<char>>::empty() =~= held);
            assert(leads(within, up, down));
            assert(leads(seq![push], low, up)) by {
                assert(after(push, low).stack =~= held);
                assert(seq![push].drop_first() =~= Seq::<TransView>::empty());
                assert(leads(seq![push].drop_first(), after(push, low), up));
            }
            assert(leads(seq![pop], down, out)) by {
                assert(after(pop, down).stack =~= Seq::<Seq<char>>::empty());
                assert(seq![pop].drop_first() =~= Seq::<TransView>::empty());
                assert(leads(seq![pop].drop_first(), after(pop, down), out));
            }
            lemma_leads_on(seq![push], within, low, up, down);
            lemma_leads_on(seq![push] + within, seq![pop], low, down, out);
            lemma_word_of_one(push);
            lemma_word_of_one(pop);
            seq![push] + within + seq![pop]
        },
    }
}

/// One transition that can be taken leads to the configuration after it.
pub proof fn lemma_one_step(t: TransView, from: Configuration)
    requires
        can_take(t, from),
    ensures
        leads(seq![t], from, after(t, from)),
{
    assert(seq![t].drop_first() =~= Seq::<TransView>::empty());
    assert(leads(seq![t].drop_first(), after(t, from), after(t, from)));
}

/// Steps that empty a stack pop what was on top of it at some point, and have
/// left the stack as they found it up to then. The place `k` returned is that
/// of the step that pops the top: the steps before it lead to it on a stack of
/// their own, and the steps after it lead on from the stack without its top.
proof fn lemma_unwind(
    ts: Seq<TransView>,
    steps: Seq<TransView>,
    p: Seq<char>,
    stack: Seq<Seq<char>>,
    to: Configuration,
) -> (k: int)
    requires
        all_pure(ts),
        taken_from(ts, steps),
        stack.len() > 0,
        to.stack.len() == 0,
        leads(steps, Configuration { state: p, stack: stack }, to),
    ensures
        0 <= k < steps.len(),
        leads(steps.take(k), at_rest(p), at_rest(steps[k].state)),
        steps[k].pop == stack.last(),
        steps[k].push == epsilon(),
        leads(
            steps.skip(k + 1),
            Configuration { state: steps[k].next, stack: stack.drop_last() },
            to,
        ),
    decreases steps.len(),
{
    let from = Configuration { state: p, stack: stack };
    let t = steps[0];
    let rest = steps.drop_first();
    assert(ts.contains(t));
    let place = choose|i: int| 0 <= i < ts.len() && ts[i] == t;
    assert(is_pure(ts[place]));
    assert(taken_from(ts, rest)) by {
        assert forall|i: int| 0 <= i < rest.len() implies ts.contains(#[trigger] rest[i]) by {
            assert(rest[i] == steps[i + 1]);
        }
    }
    if t.pop != epsilon() {
        assert(steps.take(0) =~= Seq::<TransView>::empty());
        assert(steps.skip(1) =~= rest);
        assert(after(t, from).stack =~= stack.drop_last());
        0
    } else {
        let higher = stack.push(t.push);
        assert(after(t, from).stack =~= higher);
        let k1 = lemma_unwind(ts, rest, t.next, higher, to);
        let b = rest[k1];
        let later = rest.skip(k1 + 1);
        assert(higher.drop_last() =~= stack);
        assert(taken_from(ts, later)) by {
            assert forall|i: int| 0 <= i < later.len() implies ts.contains(#[trigger] later[i]) by {
                assert(later[i] == rest[k1 + 1 + i]);
            }
        }
        let k2 = lemma_unwind(ts, later, b.next, stack, to);
        let k = 1 + k1 + 1 + k2;
        let held = seq![t.push];
        let up = Configuration { state: t.next, stack: held };
        let down = Configuration { state: b.state, stack: held };
        lemma_one_step(t, at_rest(p));
        assert(after(t, at_rest(p)).stack =~= held);
        lemma_leads_above(rest.take(k1), at_rest(t.next), at_rest(b.state), held);
        assert(held + Seq::<Seq<char>>::empty() =~= held);
        lemma_one_step(b, down);
        assert(after(b, down).stack =~= Seq::<Seq<char>>::empty());
        lemma_leads_on(seq![t], rest.take(k1), at_rest(p), up, down);
        lemma_leads_on(seq![t] + rest.take(k1), seq![b], at_rest(p), down, at_rest(b.next));
        lemma_leads_on(
            seq![t] + rest.take(k1) + seq![b],
            later.take(k2),
            at_rest(p),
            at_rest(b.next),
            at_rest(later[k2].state),
        );
        assert(steps.take(k) =~= seq![t] + rest.take(k1) + seq![b] + later.take(k2));
        assert(steps.skip(k + 1) =~= later.skip(k2 + 1));
        assert(steps[k] == later[k2]);
        k
    }
}

/// What takes the automaton along is derived: the derivation returned fits
/// `m`, starts from the nonterminal of `p` and `q`, and derives the word that
/// the steps read.
pub proof fn lemma_driving_word_is_derived(
    m: PdaView,
    steps: Seq<TransView>,
    p: Seq<char>,
    q: Seq<char>,
) -> (d: Derivation)
    requires
        all_pure(m.transitions),
        is_closed(m),
        m.states.contains(p),
        taken_from(m.transitions, steps),
        leads(steps, at_rest(p), at_rest(q)),
    ensures
        d.fits(m),
        d.origin() == p,
        d.target() == q,
        d.word() == word_of(steps),
        m.states.contains(q),
    decreases steps.len(),
{
    if steps.len() == 0 {
        Derivation::Stay { state: p }
    } else {
        let ts = m.transitions;
        let a = steps[0];
        let rest = steps.drop_first();
        assert(ts.contains(a));
        let place = choose|i: int| 0 <= i < ts.len() && ts[i] == a;
        assert(is_pure(ts[place]));
        assert(taken_from(ts, rest)) by {
            assert forall|i: int| 0 <= i < rest.len() implies ts.contains(#[trigger] rest[i]) by {
                assert(rest[i] == steps[i + 1]);
            }
        }
        let held = seq![a.push];
        assert(after(a, at_rest(p)).stack =~= held);
        let k = lemma_unwind(ts, rest, a.next, held, at_rest(q));
        let b = rest[k];
        let within = rest.take(k);
        let later = rest.skip(k + 1);
        assert(held.drop_last() =~= Seq::<Seq<char>>::empty());
        assert(ts.contains(b));
        let place_b = choose|i: int| 0 <= i < ts.len() && ts[i] == b;
        assert(m.states.contains(ts[place].next));
        assert(m.states.contains(ts[place_b].next));
        assert(taken_from(ts, within)) by {
            assert forall|i: int| 0 <= i < within.len() implies ts.contains(
                #[trigger] within[i],
            ) by {
                assert(within[i] == rest[i]);
            }
        }
        assert(taken_from(ts, later)) by {
            assert forall|i: int| 0 <= i < later.len() implies ts.contains(#[trigger] later[i]) by {
                assert(later[i] == rest[k + 1 + i]);
            }
        }
        let inner = lemma_driving_word_is_derived(m, within, a.next, b.state);
        let second = lemma_driving_word_is_derived(m, later, b.next, q);
        let first = Derivation::Wrap { push: a, inner: Box::new(inner), pop: b };
        assert(rest =~= within + seq![b] + later);
        lemma_word_of_concat(within + seq![b], later);
        lemma_word_of_concat(within, seq![b]);
        lemma_word_of_one(b);
        assert(read_by(a) + (word_of(within) + read_by(b) + word_of(later)) =~= (read_by(a)
            + word_of(within) + read_by(b)) + word_of(later));
        assert(first.origin() == p);
        assert(first.target() == b.next);
        assert(first.word() == read_by(a) + word_of(within) + read_by(b));
        assert(is_matching_pair(a, b));
        assert(first.fits(m));
        let d = Derivation::Chain { first: Box::new(first), second: Box::new(second) };
        assert(d.word() == first.word() + second.word());
        d
    }
}

/// The grammar and the automaton agree: where every transition of `m` pushes
/// or pops and none does both, and leaves a state of `m` for a state of `m`,
/// the nonterminal of a state `p` and a state `q` derives exactly the words
/// that take `m` from `p` to `q` on a stack that is empty at both ends.
pub proof fn lemma_nonterminal_language(
    m: PdaView,
    p: Seq<char>,
    q: Seq<char>,
    w: Seq<Seq<char>>,
)
    requires
        all_pure(m.transitions),
        is_closed(m),
        m.states.contains(p),
    ensures
        derives(m, p, q, w) <==> drives(m, p, q, w),
{
    if derives(m, p, q, w) {
        let d = choose|d: Derivation|
            #[trigger] d.fits(m) && d.origin() == p && d.target() == q && d.word() == w;
        let steps = lemma_derived_word_drives(m, d);
        assert(leads(steps, at_rest(p), at_rest(q)));
    }
    if drives(m, p, q, w) {
        let steps = choose|steps: Seq<TransView>|
            taken_from(m.transitions, steps) && #[trigger] leads(steps, at_rest(p), at_rest(q))
                && word_of(steps) == w;
        let d = lemma_driving_word_is_derived(m, steps, p, q);
        assert(d.fits(m));
    }
}

} // verus!
