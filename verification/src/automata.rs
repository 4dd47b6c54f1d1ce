//! Trusted surface over the `regex_automata` crate.
//!
//! The searcher consumes a compiled regex as a pair of table-driven
//! deterministic automata (`DenseDFA`).  Each automaton is opaque here; its
//! behaviour is captured by a handful of named spec functions — its start
//! state, its transition table, and its sets of match, dead and valid state
//! ids — and every call into the crate goes through a wrapper whose contract
//! speaks over those names.

use vstd::prelude::*;
use regex_automata::DFA;
use regex_automata::Error as RaBuildError;

verus! {

/// One automaton the searcher runs: a dense, table-driven DFA of
/// regex-automata with `usize` state ids, as `regex_automata::Regex`'s
/// default.  The value is opaque here; the named spec functions below are its
/// whole interface.
#[verifier::external_body]
pub struct TableDfa {
    dfa: regex_automata::DenseDFA<Vec<usize>, usize>,
}

/// A compiled regex of the outside crate, holding a forward and a reverse
/// automaton over the same pattern.
#[verifier::external_body]
pub struct CompiledRegex {
    regex: regex_automata::Regex<regex_automata::DenseDFA<Vec<usize>, usize>>,
}

#[verifier::external_type_specification]
#[verifier::external_body]
pub struct ExBuildError(RaBuildError);

/// The state ids of `d` that the automaton hands out: its start state and
/// everything reachable from it through `next_state`.
pub uninterp spec fn dfa_state_ids(d: TableDfa) -> Set<int>;

/// The id of `d`'s start state.
pub uninterp spec fn dfa_start_id(d: TableDfa) -> int;

/// `d`'s transition table: the next state for each (state id, input byte).
pub uninterp spec fn dfa_trans(d: TableDfa) -> Map<(int, u8), int>;

/// The state ids of `d` that are match states.
pub uninterp spec fn dfa_match_ids(d: TableDfa) -> Set<int>;

/// The state ids of `d` that are dead states.
pub uninterp spec fn dfa_dead_ids(d: TableDfa) -> Set<int>;

/// Relies on `DFA::start_state` of regex-automata: returns the automaton's
/// start state, a valid state id.
#[verifier::external_body]
pub(crate) fn dfa_start_state(d: &TableDfa) -> (r: usize)
    ensures
        r as int == dfa_start_id(*d),
        dfa_state_ids(*d).contains(r as int),
{
    d.dfa.start_state()
}

/// Relies on `DFA::next_state` of regex-automata: looks up the transition
/// table entry for the given state and input byte; for a valid current state
/// the identifier returned is always valid.
#[verifier::external_body]
pub(crate) fn dfa_next_state(d: &TableDfa, current: usize, input: u8) -> (r: usize)
    requires
        dfa_state_ids(*d).contains(current as int),
    ensures
        r as int == dfa_trans(*d)[(current as int, input)],
        dfa_state_ids(*d).contains(r as int),
{
    d.dfa.next_state(current, input)
}

/// Relies on `DFA::is_match_state` of regex-automata: tells whether the given
/// valid state id is a match state.
#[verifier::external_body]
pub(crate) fn dfa_is_match_state(d: &TableDfa, id: usize) -> (r: bool)
    requires
        dfa_state_ids(*d).contains(id as int),
    ensures
        r == dfa_match_ids(*d).contains(id as int),
{
    d.dfa.is_match_state(id)
}

/// Relies on `DFA::is_dead_state` of regex-automata: tells whether the given
/// valid state id is the dead state, which no match can ever follow.
#[verifier::external_body]
pub(crate) fn dfa_is_dead_state(d: &TableDfa, id: usize) -> (r: bool)
    requires
        dfa_state_ids(*d).contains(id as int),
    ensures
        r == dfa_dead_ids(*d).contains(id as int),
{
    d.dfa.is_dead_state(id)
}

/// Whether regex-automata's default compiler accepts the pattern: with the
/// builder configuration fixed, acceptance is a function of the pattern
/// string alone.
pub uninterp spec fn compiles(pattern: Seq<char>) -> bool;

/// The forward automaton a compiled regex carries.
pub uninterp spec fn fwd_of(re: CompiledRegex) -> TableDfa;

/// The reverse automaton a compiled regex carries.
pub uninterp spec fn rev_of(re: CompiledRegex) -> TableDfa;

/// Relies on `Regex::new` of regex-automata: compiles a pattern string into a
/// forward/reverse automaton pair, succeeding exactly on the patterns the
/// compiler accepts, or reports the build error.
#[verifier::external_body]
pub(crate) fn regex_compile(pattern: &str) -> (r: Result<CompiledRegex, RaBuildError>)
    ensures
        r is Ok <==> compiles(pattern@),
{
    match regex_automata::Regex::new(pattern) {
        Ok(regex) => Ok(CompiledRegex { regex }),
        Err(e) => Err(e),
    }
}

/// Relies on `Regex::forward` and `Regex::reverse` of regex-automata: the two
/// automata of a compiled regex — plain field reads, cloned so that a search
/// slot can own them.
#[verifier::external_body]
pub(crate) fn regex_parts(re: &CompiledRegex) -> (r: (TableDfa, TableDfa))
    ensures
        r.0 == fwd_of(*re),
        r.1 == rev_of(*re),
{
    let fwd = TableDfa { dfa: re.regex.forward().clone() };
    let rev = TableDfa { dfa: re.regex.reverse().clone() };
    (fwd, rev)
}

} // verus!
