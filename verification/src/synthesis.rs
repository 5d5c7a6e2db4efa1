//! The alternatives that the three synthesis passes contribute to the
//! grammar, in the order in which they contribute them.

use vstd::prelude::*;
use crate::grammar::{
    GrammarView, distinct_names, has_rule, lemma_first_named, lemma_merged_distinct,
    lemma_merged_push, merged, nonterminal, with_alternative,
};
use crate::pda::{PdaView, TransView, epsilon};

verus! {

/// The name of the start symbol.
pub open spec fn start_symbol() -> Seq<char> {
    seq!['S']
}

/// The production of the start symbol: `S`, derived to the nonterminal of the
/// start state and the accept state.
pub open spec fn start_alternative(m: PdaView) -> GrammarView {
    GrammarView {
        rule_name: start_symbol(),
        rule_desc: nonterminal(m.start_state, m.accept_states[0]),
    }
}

/// `A[q,q]` derives the empty word.
pub open spec fn reflexive_alternative(q: Seq<char>) -> GrammarView {
    GrammarView { rule_name: nonterminal(q, q), rule_desc: epsilon() }
}

/// One reflexive alternative for each state, in the order of the states.
pub open spec fn reflexive_alternatives(states: Seq<Seq<char>>) -> Seq<GrammarView> {
    Seq::new(states.len(), |i: int| reflexive_alternative(states[i]))
}

/// `A[p,q]` derives `A[p,via]` followed by `A[via,q]`.
pub open spec fn transitive_alternative(p: Seq<char>, q: Seq<char>, via: Seq<char>) -> GrammarView {
    GrammarView { rule_name: nonterminal(p, q), rule_desc: nonterminal(p, via) + nonterminal(via, q) }
}

/// The transitive alternatives from state `i` to state `j` through the first `n` states.
pub open spec fn transitive_through(states: Seq<Seq<char>>, i: int, j: int, n: nat) -> Seq<
    GrammarView,
> {
    Seq::new(n, |k: int| transitive_alternative(states[i], states[j], states[k]))
}

/// The transitive alternatives from state `i` to the first `n` states, through all states.
pub open spec fn transitive_from(states: Seq<Seq<char>>, i: int, n: nat) -> Seq<GrammarView>
    decreases n,
{
    if n == 0 {
        Seq::empty()
    } else {
        transitive_from(states, i, (n - 1) as nat) + transitive_through(
            states,
            i,
            n - 1,
            states.len(),
        )
    }
}

/// The transitive alternatives from the first `n` states, to and through all states.
pub open spec fn transitive_upto(states: Seq<Seq<char>>, n: nat) -> Seq<GrammarView>
    decreases n,
{
    if n == 0 {
        Seq::empty()
    } else {
        transitive_upto(states, (n - 1) as nat) + transitive_from(states, n - 1, states.len())
    }
}

/// One transitive alternative for each triple of states `(i, j, k)`, the
/// triples in lexicographic order.
pub open spec fn transitive_alternatives(states: Seq<Seq<char>>) -> Seq<GrammarView> {
    transitive_upto(states, states.len())
}

/// Places in a table of `rows` rows of `width` entries each, row after row.
proof fn lemma_table_places(row: int, column: int, rows: int, width: int)
    by (nonlinear_arith)
    requires
        0 <= row < rows,
        0 <= column < width,
    ensures
        0 <= row * width + column < rows * width,
        (rows - 1) * width + width == rows * width,
        row < rows - 1 ==> row * width + column < (rows - 1) * width,
{
}

/// The transitive alternatives from one state: how many, and which stands where.
proof fn lemma_transitive_from(states: Seq<Seq<char>>, i: int, n: nat)
    requires
        n <= states.len(),
    ensures
        transitive_from(states, i, n).len() == n * states.len(),
        forall|j: int, k: int|
            0 <= j < n && 0 <= k < states.len() ==> transitive_from(states, i, n)[j * states.len()
                + k] == #[trigger] transitive_alternative(states[i], states[j], states[k]),
    decreases n,
{
    let width = states.len() as int;
    if n > 0 {
        lemma_transitive_from(states, i, (n - 1) as nat);
        if width > 0 {
            lemma_table_places(0, 0, n as int, width);
        }
        assert forall|j: int, k: int| 0 <= j < n && 0 <= k < width implies transitive_from(
            states,
            i,
            n,
        )[j * width + k] == #[trigger] transitive_alternative(states[i], states[j], states[k]) by {
            lemma_table_places(j, k, n as int, width);
        }
    }
}

/// The transitive alternatives from the first states: how many, and which stands where.
proof fn lemma_transitive_upto(states: Seq<Seq<char>>, n: nat)
    requires
        n <= states.len(),
    ensures
        transitive_upto(states, n).len() == n * (states.len() * states.len()),
        forall|i: int, j: int, k: int|
            0 <= i < n && 0 <= j < states.len() && 0 <= k < states.len() ==> transitive_upto(
                states,
                n,
            )[i * (states.len() * states.len()) + (j * states.len() + k)]
                == #[trigger] transitive_alternative(states[i], states[j], states[k]),
    decreases n,
{
    let width = states.len() as int;
    let block = width * width;
    if n > 0 {
        lemma_transitive_upto(states, (n - 1) as nat);
        lemma_transitive_from(states, n - 1, states.len());
        lemma_table_places(0, 0, width, width);
        lemma_table_places(0, 0, n as int, block);
        assert forall|i: int, j: int, k: int|
            0 <= i < n && 0 <= j < width && 0 <= k < width implies transitive_upto(states, n)[i
            * block + (j * width + k)] == #[trigger] transitive_alternative(
            states[i],
            states[j],
            states[k],
        ) by {
            lemma_table_places(j, k, width, width);
            lemma_table_places(i, j * width + k, n as int, block);
        }
    }
}

/// The transitive alternatives, told directly: with `n` states there are `n`
/// times `n` times `n` of them, and the one for the triple `(i, j, k)` stands
/// at the place `i * n * n + j * n + k`.
pub proof fn lemma_transitive_alternatives(states: Seq<Seq<char>>)
    ensures
        transitive_alternatives(states).len() == states.len() * (states.len() * states.len()),
        forall|i: int, j: int, k: int|
            0 <= i < states.len() && 0 <= j < states.len() && 0 <= k < states.len()
                ==> transitive_alternatives(states)[i * (states.len() * states.len()) + (j
                * states.len() + k)] == #[trigger] transitive_alternative(
                states[i],
                states[j],
                states[k],
            ),
{
    lemma_transitive_upto(states, states.len());
}

/// Every triple of states has its transitive alternative among the
/// transitive alternatives.
pub proof fn lemma_transitive_alternative_is_there(states: Seq<Seq<char>>, i: int, j: int, k: int)
    requires
        0 <= i < states.len(),
        0 <= j < states.len(),
        0 <= k < states.len(),
    ensures
        transitive_alternatives(states).contains(
            transitive_alternative(states[i], states[j], states[k]),
        ),
{
    let width = states.len() as int;
    lemma_transitive_alternatives(states);
    lemma_table_places(j, k, width, width);
    lemma_table_places(i, j * width + k, width, width * width);
    let place = i * (width * width) + (j * width + k);
    assert(transitive_alternatives(states)[place] == transitive_alternative(
        states[i],
        states[j],
        states[k],
    ));
}

/// Whether `alt` is the transitive alternative of three states, the first
/// of them among the first `n`.
pub open spec fn is_transitive_within(states: Seq<Seq<char>>, n: int, alt: GrammarView) -> bool {
    exists|i: int, j: int, k: int|
        0 <= i < n && 0 <= j < states.len() && 0 <= k < states.len() && alt
            == #[trigger] transitive_alternative(states[i], states[j], states[k])
}

/// Each transitive alternative from state `i` is that of a triple of states that begins with it.
proof fn lemma_transitive_from_members(states: Seq<Seq<char>>, i: int, n: nat)
    requires
        0 <= i < states.len(),
        n <= states.len(),
    ensures
        forall|x: int|
            0 <= x < transitive_from(states, i, n).len() ==> is_transitive_within(
                states,
                i + 1,
                #[trigger] transitive_from(states, i, n)[x],
            ),
    decreases n,
{
    if n > 0 {
        lemma_transitive_from_members(states, i, (n - 1) as nat);
        let before = transitive_from(states, i, (n - 1) as nat);
        let now = transitive_from(states, i, n);
        assert forall|x: int| 0 <= x < now.len() implies is_transitive_within(
            states,
            i + 1,
            #[trigger] now[x],
        ) by {
            if x < before.len() {
                assert(now[x] == before[x]);
            } else {
                let k = x - before.len();
                assert(now[x] == transitive_alternative(states[i], states[n - 1], states[k]));
            }
        }
    }
}

/// Each transitive alternative from the first `n` states is that of a triple that begins with one of them.
proof fn lemma_transitive_upto_members(states: Seq<Seq<char>>, n: nat)
    requires
        n <= states.len(),
    ensures
        forall|x: int|
            0 <= x < transitive_upto(states, n).len() ==> is_transitive_within(
                states,
                n as int,
                #[trigger] transitive_upto(states, n)[x],
            ),
    decreases n,
{
    if n > 0 {
        lemma_transitive_upto_members(states, (n - 1) as nat);
        lemma_transitive_from_members(states, n - 1, states.len());
        let before = transitive_upto(states, (n - 1) as nat);
        let row = transitive_from(states, n - 1, states.len());
        let now = transitive_upto(states, n);
        assert forall|x: int| 0 <= x < now.len() implies is_transitive_within(
            states,
            n as int,
            #[trigger] now[x],
        ) by {
            if x < before.len() {
                assert(now[x] == before[x]);
                assert(is_transitive_within(states, n - 1, before[x]));
            } else {
                assert(now[x] == row[x - before.len()]);
                assert(is_transitive_within(states, n as int, row[x - before.len()]));
            }
        }
    }
}

/// Each of the transitive alternatives is the alternative of a triple of states.
pub proof fn lemma_transitive_alternatives_are_triples(states: Seq<Seq<char>>)
    ensures
        forall|x: int|
            0 <= x < transitive_alternatives(states).len() ==> is_transitive_within(
                states,
                states.len() as int,
                #[trigger] transitive_alternatives(states)[x],
            ),
{
    lemma_transitive_upto_members(states, states.len());
}

/// `a` only pushes, `b` only pops, and `b` pops the symbol that `a` pushes.
pub open spec fn is_matching_pair(a: TransView, b: TransView) -> bool {
    &&& a.pop == epsilon()
    &&& a.push != epsilon()
    &&& b.push == epsilon()
    &&& b.pop == a.push
}

/// `A[origin(a),next(b)]` derives the input of `a`, then `A[next(a),origin(b)]`,
/// then the input of `b`.
pub open spec fn paired_alternative(a: TransView, b: TransView) -> GrammarView {
    GrammarView {
        rule_name: nonterminal(a.state, b.next),
        rule_desc: a.input + nonterminal(a.next, b.state) + b.input,
    }
}

/// The paired alternatives of transition `a` with those of the first `n`
/// transitions that match it.
pub open spec fn paired_with(ts: Seq<TransView>, a: int, n: nat) -> Seq<GrammarView>
    decreases n,
{
    if n == 0 {
        Seq::empty()
    } else {
        let before = paired_with(ts, a, (n - 1) as nat);
        if is_matching_pair(ts[a], ts[n - 1]) {
            before.push(paired_alternative(ts[a], ts[n - 1]))
        } else {
            before
        }
    }
}

/// The paired alternatives of the first `n` transitions with all transitions.
pub open spec fn paired_upto(ts: Seq<TransView>, n: nat) -> Seq<GrammarView>
    decreases n,
{
    if n == 0 {
        Seq::empty()
    } else {
        paired_upto(ts, (n - 1) as nat) + paired_with(ts, n - 1, ts.len())
    }
}

/// One paired alternative for each matching pair of transitions `(a, b)`, the
/// pairs in lexicographic order.
pub open spec fn paired_alternatives(ts: Seq<TransView>) -> Seq<GrammarView> {
    paired_upto(ts, ts.len())
}

/// Whether `alt` is the paired alternative of a matching pair among the first
/// `n` transitions for `a` and all transitions for `b`.
pub open spec fn is_paired_within(ts: Seq<TransView>, n: int, alt: GrammarView) -> bool {
    exists|a: int, b: int|
        0 <= a < n && 0 <= b < ts.len() && is_matching_pair(ts[a], ts[b]) && alt
            == #[trigger] paired_alternative(ts[a], ts[b])
}

/// The paired alternatives of one transition are those of the pairs that it matches in.
proof fn lemma_paired_with(ts: Seq<TransView>, a: int, n: nat)
    requires
        0 <= a < ts.len(),
        n <= ts.len(),
    ensures
        forall|b: int|
            0 <= b < n && is_matching_pair(ts[a], ts[b]) ==> paired_with(ts, a, n).contains(
                #[trigger] paired_alternative(ts[a], ts[b]),
            ),
        forall|i: int|
            0 <= i < paired_with(ts, a, n).len() ==> is_paired_within(
                ts,
                a + 1,
                #[trigger] paired_with(ts, a, n)[i],
            ),
    decreases n,
{
    if n > 0 {
        lemma_paired_with(ts, a, (n - 1) as nat);
        let before = paired_with(ts, a, (n - 1) as nat);
        let now = paired_with(ts, a, n);
        assert forall|b: int| 0 <= b < n && is_matching_pair(ts[a], ts[b]) implies now.contains(
            #[trigger] paired_alternative(ts[a], ts[b]),
        ) by {
            if b < n - 1 {
                let i = choose|i: int|
                    0 <= i < before.len() && before[i] == paired_alternative(ts[a], ts[b]);
                assert(now[i] == paired_alternative(ts[a], ts[b]));
            } else {
                assert(now[before.len() as int] == paired_alternative(ts[a], ts[b]));
            }
        }
        assert forall|i: int| 0 <= i < now.len() implies is_paired_within(
            ts,
            a + 1,
            #[trigger] now[i],
        ) by {
            if i < before.len() {
                assert(now[i] == before[i]);
            } else {
                assert(now[i] == paired_alternative(ts[a], ts[n - 1]));
            }
        }
    }
}

/// The paired alternatives of the first `n` transitions are those of the pairs that they match in.
proof fn lemma_paired_upto(ts: Seq<TransView>, n: nat)
    requires
        n <= ts.len(),
    ensures
        forall|a: int, b: int|
            0 <= a < n && 0 <= b < ts.len() && is_matching_pair(ts[a], ts[b]) ==> paired_upto(
                ts,
                n,
            ).contains(#[trigger] paired_alternative(ts[a], ts[b])),
        forall|i: int|
            0 <= i < paired_upto(ts, n).len() ==> is_paired_within(
                ts,
                n as int,
                #[trigger] paired_upto(ts, n)[i],
            ),
    decreases n,
{
    if n > 0 {
        lemma_paired_upto(ts, (n - 1) as nat);
        lemma_paired_with(ts, n - 1, ts.len());
        let before = paired_upto(ts, (n - 1) as nat);
        let row = paired_with(ts, n - 1, ts.len());
        let now = paired_upto(ts, n);
        assert forall|a: int, b: int|
            0 <= a < n && 0 <= b < ts.len() && is_matching_pair(ts[a], ts[b]) implies now.contains(
            #[trigger] paired_alternative(ts[a], ts[b]),
        ) by {
            let alt = paired_alternative(ts[a], ts[b]);
            if a < n - 1 {
                let i = choose|i: int| 0 <= i < before.len() && before[i] == alt;
                assert(now[i] == alt);
            } else {
                let i = choose|i: int| 0 <= i < row.len() && row[i] == alt;
                assert(now[before.len() + i] == alt);
            }
        }
        assert forall|i: int| 0 <= i < now.len() implies is_paired_within(
            ts,
            n as int,
            #[trigger] now[i],
        ) by {
            if i < before.len() {
                assert(now[i] == before[i]);
                assert(is_paired_within(ts, n - 1, before[i]));
            } else {
                assert(now[i] == row[i - before.len()]);
                assert(is_paired_within(ts, n as int, row[i - before.len()]));
            }
        }
    }
}

/// The paired alternatives, told directly: every matching pair of transitions
/// has its alternative among them, and each of them is the alternative of a
/// matching pair.
pub proof fn lemma_paired_alternatives(ts: Seq<TransView>)
    ensures
        forall|a: int, b: int|
            0 <= a < ts.len() && 0 <= b < ts.len() && is_matching_pair(ts[a], ts[b])
                ==> paired_alternatives(ts).contains(#[trigger] paired_alternative(ts[a], ts[b])),
        forall|i: int|
            0 <= i < paired_alternatives(ts).len() ==> is_paired_within(
                ts,
                ts.len() as int,
                #[trigger] paired_alternatives(ts)[i],
            ),
{
    lemma_paired_upto(ts, ts.len());
}

/// All that synthesis contributes for `m`: the start production, then the
/// reflexive, the transitive and the paired alternatives.
pub open spec fn alternatives(m: PdaView) -> Seq<GrammarView> {
    seq![start_alternative(m)] + reflexive_alternatives(m.states) + transitive_alternatives(
        m.states,
    ) + paired_alternatives(m.transitions)
}

/// The grammar synthesized for `m`.
pub open spec fn synthesized(m: PdaView) -> Seq<GrammarView> {
    merged(Seq::empty(), alternatives(m))
}

/// No two productions of a synthesized grammar have the same name.
pub proof fn lemma_synthesized_distinct(m: PdaView)
    ensures
        distinct_names(synthesized(m)),
{
    lemma_merged_distinct(Seq::empty(), alternatives(m));
}

/// The nonterminals of two different states with themselves differ.
pub proof fn lemma_reflexive_names_differ(p: Seq<char>, q: Seq<char>)
    requires
        p != q,
    ensures
        nonterminal(p, p) != nonterminal(q, q),
{
    let a = nonterminal(p, p);
    let b = nonterminal(q, q);
    if a == b {
        assert(a.len() == 4 + 2 * p.len());
        assert(b.len() == 4 + 2 * q.len());
        assert(p =~= a.subrange(2, 2 + p.len() as int));
        assert(q =~= b.subrange(2, 2 + q.len() as int));
    }
}

/// On states that are pairwise different, and a grammar that names none of
/// their reflexive nonterminals yet, the reflexive pass appends exactly one
/// production for each state, in the order of the states: `A[q,q]` with
/// epsilon for its right-hand side. Nothing else changes.
pub proof fn lemma_reflexive_pass(rules: Seq<GrammarView>, states: Seq<Seq<char>>)
    requires
        states.no_duplicates(),
        forall|i: int| 0 <= i < states.len() ==> !has_rule(rules, nonterminal(states[i], states[i])),
    ensures
        merged(rules, reflexive_alternatives(states)) == rules + reflexive_alternatives(states),
{
    lemma_reflexive_prefix(rules, states, states.len());
    assert(reflexive_alternatives(states).take(states.len() as int) =~= reflexive_alternatives(
        states,
    ));
}

/// The reflexive pass up to the state `n`.
proof fn lemma_reflexive_prefix(rules: Seq<GrammarView>, states: Seq<Seq<char>>, n: nat)
    requires
        states.no_duplicates(),
        forall|i: int| 0 <= i < states.len() ==> !has_rule(rules, nonterminal(states[i], states[i])),
        n <= states.len(),
    ensures
        merged(rules, reflexive_alternatives(states).take(n as int)) == rules
            + reflexive_alternatives(states).take(n as int),
    decreases n,
{
    let alts = reflexive_alternatives(states);
    if n == 0 {
        assert(alts.take(0) =~= Seq::<GrammarView>::empty());
        assert(rules + alts.take(0) =~= rules);
    } else {
        lemma_reflexive_prefix(rules, states, (n - 1) as nat);
        let before = rules + alts.take(n - 1);
        let alt = alts[n - 1];
        assert(alts.take(n as int) =~= alts.take(n - 1).push(alt));
        lemma_merged_push(rules, alts.take(n - 1), alt);
        assert(!has_rule(before, alt.rule_name)) by {
            if has_rule(before, alt.rule_name) {
                let k = choose|k: int| 0 <= k < before.len() && before[k].rule_name == alt.rule_name;
                if k < rules.len() {
                    assert(rules[k].rule_name == nonterminal(states[n - 1], states[n - 1]));
                } else {
                    let j = k - rules.len();
                    assert(before[k] == alts[j]);
                    lemma_reflexive_names_differ(states[j], states[n - 1]);
                }
            }
        }
        lemma_first_named(before, alt.rule_name);
        assert(with_alternative(before, alt) =~= rules + alts.take(n as int));
    }
}

} // verus!
