//! Conversion of pushdown automata into context-free grammars.
//!
//! An automaton ([`pda`]) is checked, brought into a normal form
//! ([`normal_form`]) and turned into a grammar ([`grammar`]) whose productions
//! are the alternatives that three passes contribute ([`synthesis`]); the
//! functions that do this are in [`transformer`]. That the grammar derives
//! what the automaton accepts is shown in [`language`] and [`acceptance`].

pub mod acceptance;
pub mod grammar;
pub mod language;
pub mod normal_form;
pub mod pda;
pub mod synthesis;
pub mod text;
pub mod transformer;
