//! Pushdown automata: the data model and its mathematical view.

use vstd::prelude::*;
use vstd::string::StringExecFns;
use crate::text::views;

verus! {

/// The symbol that stands for "nothing": no input read, nothing popped, nothing pushed.
pub const EPSILON: &'static str = "~";

/// The stack symbol that marks the bottom of the stack.
pub const HASH: &'static str = "#";

/// The stack symbol that a split transition pushes and pops again at once.
pub const SYMBOL: &'static str = "%";

/// The preferred name of the start state that normalization adds.
pub const START: &'static str = "qS";

/// The preferred name of the accept state that normalization adds.
pub const ACCEPT: &'static str = "qF";

/// `EPSILON` as a sequence of characters.
pub open spec fn epsilon() -> Seq<char> {
    seq!['~']
}

/// `HASH` as a sequence of characters.
pub open spec fn hash() -> Seq<char> {
    seq!['#']
}

/// `SYMBOL` as a sequence of characters.
pub open spec fn symbol() -> Seq<char> {
    seq!['%']
}

/// `START` as a sequence of characters.
pub open spec fn start_name() -> Seq<char> {
    seq!['q', 'S']
}

/// `ACCEPT` as a sequence of characters.
pub open spec fn accept_name() -> Seq<char> {
    seq!['q', 'F']
}

/// The constants read what the functions of the same names say.
pub proof fn lemma_constants()
    ensures
        EPSILON@ == epsilon(),
        HASH@ == hash(),
        SYMBOL@ == symbol(),
        START@ == start_name(),
        ACCEPT@ == accept_name(),
{
    reveal_strlit("~");
    reveal_strlit("#");
    reveal_strlit("%");
    reveal_strlit("qS");
    reveal_strlit("qF");
    assert(EPSILON@ =~= epsilon());
    assert(HASH@ =~= hash());
    assert(SYMBOL@ =~= symbol());
    assert(START@ =~= start_name());
    assert(ACCEPT@ =~= accept_name());
}

/// A fresh string that reads `EPSILON`.
pub fn epsilon_text() -> (s: String)
    ensures
        s@ == epsilon(),
{
    proof {
        lemma_constants();
    }
    String::from_str(EPSILON)
}

/// One transition: in `state`, reading `input` and popping `pop`, go to `next` and push `push`.
#[derive(Debug, Clone, PartialEq, Eq)]
pub struct Trans {
    pub state: String,
    pub input: String,
    pub pop: String,
    pub next: String,
    pub push: String,
}

/// A transition as plain sequences of characters.
pub struct TransView {
    pub state: Seq<char>,
    pub input: Seq<char>,
    pub pop: Seq<char>,
    pub next: Seq<char>,
    pub push: Seq<char>,
}

impl View for Trans {
    type V = TransView;

    open spec fn view(&self) -> TransView {
        TransView {
            state: self.state@,
            input: self.input@,
            pop: self.pop@,
            next: self.next@,
            push: self.push@,
        }
    }
}

impl Trans {
    /// The transition made of the five parts given.
    pub fn new(state: String, input: String, pop: String, next: String, push: String) -> (t: Self)
        ensures
            t.state == state,
            t.input == input,
            t.pop == pop,
            t.next == next,
            t.push == push,
    {
        Self { state, input, pop, next, push }
    }
}

/// The views of the transitions of `v`, in order.
pub open spec fn trans_views(v: Seq<Trans>) -> Seq<TransView> {
    Seq::new(v.len(), |i: int| v[i]@)
}

/// Pushing a transition pushes its view.
pub proof fn lemma_trans_views_push(v: Seq<Trans>, t: Trans)
    ensures
        trans_views(v.push(t)) == trans_views(v).push(t@),
{
    assert(trans_views(v.push(t)) =~= trans_views(v).push(t@));
}

/// A pushdown automaton. States, alphabets and transitions are kept in the order given.
#[derive(Debug, Clone, PartialEq, Eq)]
pub struct PDA {
    pub states: Vec<String>,
    pub input_alphabet: Vec<String>,
    pub stack_alphabet: Vec<String>,
    pub start_state: String,
    pub accept_states: Vec<String>,
    pub transitions: Vec<Trans>,
}

/// An automaton as plain sequences.
pub struct PdaView {
    pub states: Seq<Seq<char>>,
    pub input_alphabet: Seq<Seq<char>>,
    pub stack_alphabet: Seq<Seq<char>>,
    pub start_state: Seq<char>,
    pub accept_states: Seq<Seq<char>>,
    pub transitions: Seq<TransView>,
}

impl View for PDA {
    type V = PdaView;

    open spec fn view(&self) -> PdaView {
        PdaView {
            states: views(self.states@),
            input_alphabet: views(self.input_alphabet@),
            stack_alphabet: views(self.stack_alphabet@),
            start_state: self.start_state@,
            accept_states: views(self.accept_states@),
            transitions: trans_views(self.transitions@),
        }
    }
}

/// Whether every transition of `m` leaves one of its states for one of its states.
pub open spec fn is_closed(m: PdaView) -> bool {
    forall|i: int|
        0 <= i < m.transitions.len() ==> m.states.contains((#[trigger] m.transitions[i]).state)
            && m.states.contains(m.transitions[i].next)
}

/// Whether `m` names only what it declares: its start state, its accept
/// states, and the states that its transitions leave and enter are states of
/// `m`, and what its transitions pop and push is epsilon or in its stack
/// alphabet.
pub open spec fn is_well_referenced(m: PdaView) -> bool {
    &&& m.states.contains(m.start_state)
    &&& forall|i: int|
        0 <= i < m.accept_states.len() ==> m.states.contains(#[trigger] m.accept_states[i])
    &&& is_closed(m)
    &&& forall|i: int|
        0 <= i < m.transitions.len() ==> {
            let t = #[trigger] m.transitions[i];
            &&& t.pop == epsilon() || m.stack_alphabet.contains(t.pop)
            &&& t.push == epsilon() || m.stack_alphabet.contains(t.push)
        }
}

impl PDA {
    /// An automaton with nothing in it; its start state reads "Error" until one is set.
    pub fn build() -> (pda: PDA)
        ensures
            pda.states@.len() == 0,
            pda.input_alphabet@.len() == 0,
            pda.stack_alphabet@.len() == 0,
            pda.start_state@ == "Error"@,
            pda.accept_states@.len() == 0,
            pda.transitions@.len() == 0,
    {
        PDA {
            states: Vec::new(),
            input_alphabet: Vec::new(),
            stack_alphabet: Vec::new(),
            start_state: String::from_str("Error"),
            accept_states: Vec::new(),
            transitions: Vec::new(),
        }
    }

    /// Replaces the states.
    pub fn set_states(&mut self, vec: Vec<String>)
        ensures
            final(self).states == vec,
            final(self).input_alphabet == old(self).input_alphabet,
            final(self).stack_alphabet == old(self).stack_alphabet,
            final(self).start_state == old(self).start_state,
            final(self).accept_states == old(self).accept_states,
            final(self).transitions == old(self).transitions,
    {
        self.states = vec;
    }

    /// Replaces the input alphabet.
    pub fn set_ialpha(&mut self, vec: Vec<String>)
        ensures
            final(self).input_alphabet == vec,
            final(self).states == old(self).states,
            final(self).stack_alphabet == old(self).stack_alphabet,
            final(self).start_state == old(self).start_state,
            final(self).accept_states == old(self).accept_states,
            final(self).transitions == old(self).transitions,
    {
        self.input_alphabet = vec;
    }

    /// Replaces the stack alphabet.
    pub fn set_salpha(&mut self, vec: Vec<String>)
        ensures
            final(self).stack_alphabet == vec,
            final(self).states == old(self).states,
            final(self).input_alphabet == old(self).input_alphabet,
            final(self).start_state == old(self).start_state,
            final(self).accept_states == old(self).accept_states,
            final(self).transitions == old(self).transitions,
    {
        self.stack_alphabet = vec;
    }

    /// Replaces the start state.
    pub fn set_start(&mut self, stri: String)
        ensures
            final(self).start_state == stri,
            final(self).states == old(self).states,
            final(self).input_alphabet == old(self).input_alphabet,
            final(self).stack_alphabet == old(self).stack_alphabet,
            final(self).accept_states == old(self).accept_states,
            final(self).transitions == old(self).transitions,
    {
        self.start_state = stri;
    }

    /// Replaces the accept states.
    pub fn set_accept(&mut self, vec: Vec<String>)
        ensures
            final(self).accept_states == vec,
            final(self).states == old(self).states,
            final(self).input_alphabet == old(self).input_alphabet,
            final(self).stack_alphabet == old(self).stack_alphabet,
            final(self).start_state == old(self).start_state,
            final(self).transitions == old(self).transitions,
    {
        self.accept_states = vec;
    }

    /// Appends the given transitions, in order, to those already there.
    pub fn set_trans(&mut self, vec: Vec<Trans>)
        ensures
            final(self).transitions@ == old(self).transitions@ + vec@,
            final(self).states == old(self).states,
            final(self).input_alphabet == old(self).input_alphabet,
            final(self).stack_alphabet == old(self).stack_alphabet,
            final(self).start_state == old(self).start_state,
            final(self).accept_states == old(self).accept_states,
    {
        let mut vec = vec;
        self.transitions.append(&mut vec);
    }
}

} // verus!
