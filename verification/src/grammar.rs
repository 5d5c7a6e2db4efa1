//! Context-free grammars as ordered lists of named productions, and the
//! merge by which alternatives are added to them.

use vstd::prelude::*;
use vstd::string::StringExecFns;

verus! {

/// One production: a nonterminal name and its right-hand side, whose
/// alternatives are separated by `" | "`.
#[derive(Debug, Clone, PartialEq, Eq)]
pub struct Grammar {
    pub rule_name: String,
    pub rule_desc: String,
}

/// A production as plain sequences of characters.
pub struct GrammarView {
    pub rule_name: Seq<char>,
    pub rule_desc: Seq<char>,
}

impl View for Grammar {
    type V = GrammarView;

    open spec fn view(&self) -> GrammarView {
        GrammarView { rule_name: self.rule_name@, rule_desc: self.rule_desc@ }
    }
}

/// What stands between two alternatives of one production.
pub open spec fn separator() -> Seq<char> {
    seq![' ', '|', ' ']
}

/// What stands between a production's name and its right-hand side when it is written out.
pub open spec fn arrow() -> Seq<char> {
    seq![' ', '-', '>', ' ']
}

/// The name of the nonterminal for the pair of states `p`, `q`: `A[p,q]`.
pub open spec fn nonterminal(p: Seq<char>, q: Seq<char>) -> Seq<char> {
    seq!['A', '['] + p + seq![','] + q + seq![']']
}

/// The name of the nonterminal for the pair of states `p`, `q`.
pub fn nonterminal_name(p: &String, q: &String) -> (name: String)
    ensures
        name@ == nonterminal(p@, q@),
{
    let mut name = String::from_str("A[");
    name.append(p.as_str());
    name.append(",");
    name.append(q.as_str());
    name.append("]");
    proof {
        reveal_strlit("A[");
        reveal_strlit(",");
        reveal_strlit("]");
        assert(name@ =~= nonterminal(p@, q@));
    }
    name
}

impl Grammar {
    /// The production of `rule_name` with the right-hand side `rule_desc`.
    pub fn new(rule_name: String, rule_desc: String) -> (g: Self)
        ensures
            g.rule_name == rule_name,
            g.rule_desc == rule_desc,
    {
        Self { rule_name, rule_desc }
    }

    /// The production written on one line: the name, an arrow, the right-hand side.
    pub fn rule_line(&self) -> (line: String)
        ensures
            line@ == self@.rule_name + arrow() + self@.rule_desc,
    {
        let mut line = self.rule_name.clone();
        line.append(" -> ");
        line.append(self.rule_desc.as_str());
        proof {
            reveal_strlit(" -> ");
            assert(line@ =~= self@.rule_name + arrow() + self@.rule_desc);
        }
        line
    }
}

/// Whether `i` is the place of the first production of `rules` that is named `name`.
pub open spec fn is_first_named(rules: Seq<GrammarView>, name: Seq<char>, i: int) -> bool {
    &&& 0 <= i < rules.len()
    &&& rules[i].rule_name == name
    &&& forall|j: int| 0 <= j < i ==> rules[j].rule_name != name
}

/// Whether some production of `rules` is named `name`.
pub open spec fn has_rule(rules: Seq<GrammarView>, name: Seq<char>) -> bool {
    exists|i: int| 0 <= i < rules.len() && rules[i].rule_name == name
}

/// The place of the first production of `rules` named `name`, if there is one.
pub open spec fn first_named(rules: Seq<GrammarView>, name: Seq<char>) -> Option<int> {
    if exists|i: int| is_first_named(rules, name, i) {
        Some(choose|i: int| is_first_named(rules, name, i))
    } else {
        None
    }
}

/// `rules` after one alternative was contributed: where a production of that name
/// exists, the first such one has the alternative appended after a separator;
/// otherwise the alternative becomes a new production at the end.
pub open spec fn with_alternative(rules: Seq<GrammarView>, alt: GrammarView) -> Seq<GrammarView> {
    match first_named(rules, alt.rule_name) {
        Some(i) => rules.update(
            i,
            GrammarView {
                rule_name: alt.rule_name,
                rule_desc: rules[i].rule_desc + separator() + alt.rule_desc,
            },
        ),
        None => rules.push(alt),
    }
}

/// `rules` after the alternatives `alts` were contributed one after the other.
pub open spec fn merged(rules: Seq<GrammarView>, alts: Seq<GrammarView>) -> Seq<GrammarView>
    decreases alts.len(),
{
    if alts.len() == 0 {
        rules
    } else {
        with_alternative(merged(rules, alts.drop_last()), alts.last())
    }
}

/// No two productions of `rules` have the same name.
pub open spec fn distinct_names(rules: Seq<GrammarView>) -> bool {
    forall|i: int, j: int|
        0 <= i < j < rules.len() ==> #[trigger] rules[i].rule_name != #[trigger] rules[j].rule_name
}

/// Where a production at `k` is named `name`, some production is the first of that name.
proof fn lemma_least_named(rules: Seq<GrammarView>, name: Seq<char>, k: int)
    requires
        0 <= k < rules.len(),
        rules[k].rule_name == name,
    ensures
        exists|i: int| is_first_named(rules, name, i),
    decreases k,
{
    if forall|j: int| 0 <= j < k ==> rules[j].rule_name != name {
        assert(is_first_named(rules, name, k));
    } else {
        let j = choose|j: int| 0 <= j < k && rules[j].rule_name == name;
        lemma_least_named(rules, name, j);
    }
}

/// The first production of a name is found exactly when one of that name exists.
pub proof fn lemma_first_named(rules: Seq<GrammarView>, name: Seq<char>)
    ensures
        first_named(rules, name) is Some <==> has_rule(rules, name),
        first_named(rules, name) matches Some(i) ==> is_first_named(rules, name, i),
{
    if has_rule(rules, name) {
        let k = choose|k: int| 0 <= k < rules.len() && rules[k].rule_name == name;
        lemma_least_named(rules, name, k);
    }
}

/// One step more in `merged`.
pub proof fn lemma_merged_push(rules: Seq<GrammarView>, alts: Seq<GrammarView>, alt: GrammarView)
    ensures
        merged(rules, alts.push(alt)) == with_alternative(merged(rules, alts), alt),
{
    assert(alts.push(alt).drop_last() =~= alts);
}

/// Contributing `a` and then `b` is contributing `a + b`.
pub proof fn lemma_merged_concat(rules: Seq<GrammarView>, a: Seq<GrammarView>, b: Seq<GrammarView>)
    ensures
        merged(merged(rules, a), b) == merged(rules, a + b),
    decreases b.len(),
{
    if b.len() == 0 {
        assert(a + b =~= a);
    } else {
        lemma_merged_concat(rules, a, b.drop_last());
        assert((a + b).drop_last() =~= a + b.drop_last());
        assert((a + b).last() == b.last());
    }
}

/// A contribution keeps the names distinct, keeps every production that was
/// there in its place and under its name, only ever adds to the end of a
/// right-hand side, and leaves the name contributed in the list.
pub proof fn lemma_with_alternative_names(rules: Seq<GrammarView>, alt: GrammarView)
    ensures
        distinct_names(rules) ==> distinct_names(with_alternative(rules, alt)),
        with_alternative(rules, alt).len() >= rules.len(),
        forall|i: int|
            0 <= i < rules.len() ==> (#[trigger] with_alternative(rules, alt)[i]).rule_name
                == rules[i].rule_name,
        forall|i: int|
            0 <= i < rules.len() ==> rules[i].rule_desc.is_prefix_of(
                (#[trigger] with_alternative(rules, alt)[i]).rule_desc,
            ),
        has_rule(with_alternative(rules, alt), alt.rule_name),
{
    lemma_first_named(rules, alt.rule_name);
    let after = with_alternative(rules, alt);
    assert forall|i: int| 0 <= i < rules.len() implies rules[i].rule_desc.is_prefix_of(
        (#[trigger] after[i]).rule_desc,
    ) by {
        if first_named(rules, alt.rule_name) == Some(i) {
            assert(rules[i].rule_desc =~= after[i].rule_desc.subrange(
                0,
                rules[i].rule_desc.len() as int,
            ));
        } else {
            assert(after[i] == rules[i]);
            assert(rules[i].rule_desc =~= after[i].rule_desc.subrange(
                0,
                rules[i].rule_desc.len() as int,
            ));
        }
    }
    match first_named(rules, alt.rule_name) {
        Some(i) => {
            assert(after[i].rule_name == alt.rule_name);
        },
        None => {
            assert(after[rules.len() as int].rule_name == alt.rule_name);
            if distinct_names(rules) {
                assert forall|i: int, j: int| 0 <= i < j < after.len() implies after[i].rule_name
                    != after[j].rule_name by {
                    if j == rules.len() {
                        assert(rules[i].rule_name != alt.rule_name);
                    }
                }
            }
        },
    }
}

/// Contributions keep the names distinct.
pub proof fn lemma_merged_distinct(rules: Seq<GrammarView>, alts: Seq<GrammarView>)
    requires
        distinct_names(rules),
    ensures
        distinct_names(merged(rules, alts)),
    decreases alts.len(),
{
    if alts.len() > 0 {
        lemma_merged_distinct(rules, alts.drop_last());
        lemma_with_alternative_names(merged(rules, alts.drop_last()), alts.last());
    }
}

/// A grammar: productions in the order in which their names first came up.
#[derive(Debug, Clone, PartialEq, Eq)]
pub struct CFG {
    pub rules: Vec<Grammar>,
}

impl View for CFG {
    type V = Seq<GrammarView>;

    open spec fn view(&self) -> Seq<GrammarView> {
        Seq::new(self.rules@.len(), |i: int| self.rules@[i]@)
    }
}

impl CFG {
    /// A grammar without productions.
    pub fn build() -> (cfg: CFG)
        ensures
            cfg@ == Seq::<GrammarView>::empty(),
            cfg.wf(),
    {
        let cfg = CFG { rules: Vec::new() };
        assert(cfg@ =~= Seq::<GrammarView>::empty());
        cfg
    }

    /// Each nonterminal name heads at most one production.
    pub open spec fn wf(&self) -> bool {
        distinct_names(self@)
    }

    /// Contributes one alternative for the nonterminal `rule_name`: it is appended
    /// to the first production of that name, or starts a new production at the end.
    pub fn contribute(&mut self, rule_name: String, alternative: String)
        ensures
            final(self)@ == with_alternative(
                old(self)@,
                GrammarView { rule_name: rule_name@, rule_desc: alternative@ },
            ),
            old(self).wf() ==> final(self).wf(),
    {
        let ghost alt = GrammarView { rule_name: rule_name@, rule_desc: alternative@ };
        proof {
            lemma_first_named(self@, rule_name@);
            lemma_with_alternative_names(self@, alt);
        }
        let mut i: usize = 0;
        while i < self.rules.len()
            invariant
                i <= self.rules@.len(),
                *self == *old(self),
                alt == (GrammarView { rule_name: rule_name@, rule_desc: alternative@ }),
                forall|j: int| 0 <= j < i ==> self@[j].rule_name != rule_name@,
            decreases self.rules@.len() - i,
        {
            if self.rules[i].rule_name == rule_name {
                assert(is_first_named(self@, rule_name@, i as int));
                self.rules[i].rule_desc.append(" | ");
                self.rules[i].rule_desc.append(alternative.as_str());
                proof {
                    reveal_strlit(" | ");
                    assert(" | "@ =~= separator());
                    assert(first_named(old(self)@, rule_name@) == Some(i as int));
                    assert(self@[i as int].rule_desc =~= old(self)@[i as int].rule_desc
                        + separator() + alternative@);
                    assert(self@ =~= with_alternative(old(self)@, alt));
                }
                return ;
            }
            i += 1;
        }
        assert(!has_rule(self@, rule_name@));
        self.rules.push(Grammar::new(rule_name, alternative));
        assert(self@ =~= with_alternative(old(self)@, alt));
    }
}

} // verus!
