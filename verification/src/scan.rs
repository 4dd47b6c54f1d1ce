//! The two automaton scans of the searcher, stated over the named model of a
//! `TableDfa`.
//!
//! The forward scan (`scan_state` / `scan_flag`) is the streaming per-byte
//! step: a transition into the dead state restarts from the start state, and
//! the match flag of a byte is read off the raw transition target before that
//! reset.  The reverse scan (`best_accept_len` and the executable `rfind`)
//! runs a reverse automaton over the ring's bytes newest-first and yields the
//! longest accepted prefix length, stopping at the first dead state.

use vstd::prelude::*;
use crate::automata::TableDfa;
use crate::automata::dfa_dead_ids;
use crate::automata::dfa_match_ids;
use crate::automata::dfa_start_id;
use crate::automata::dfa_state_ids;
use crate::automata::dfa_trans;
use crate::automata::dfa_is_dead_state;
use crate::automata::dfa_is_match_state;
use crate::automata::dfa_next_state;
use crate::automata::dfa_start_state;
use crate::ring::Ring;

verus! {

/// The raw transition of `d` from state `s` on byte `b`.
pub open spec fn step_of(d: TableDfa, s: int, b: u8) -> int {
    dfa_trans(d)[(s, b)]
}

/// The streaming transition: as the raw one, but a step into the dead state
/// is rewritten to the start state so that matching can resume.
pub open spec fn step_live(d: TableDfa, s: int, b: u8) -> int {
    if dfa_dead_ids(d).contains(step_of(d, s, b)) {
        dfa_start_id(d)
    } else {
        step_of(d, s, b)
    }
}

/// The state a forward slot is in after the whole byte stream `bytes` has
/// been pushed, stepping with `step_live` from the start state.
pub open spec fn scan_state(d: TableDfa, bytes: Seq<u8>) -> int
    decreases bytes.len(),
{
    if bytes.len() == 0 {
        dfa_start_id(d)
    } else {
        step_live(d, scan_state(d, bytes.drop_last()), bytes.last())
    }
}

/// The match flag after `bytes`: whether the raw transition taken on the last
/// byte — read before any dead-state reset — lands in a match state.  An
/// empty stream has the flag down, whatever the start state reports.
pub open spec fn scan_flag(d: TableDfa, bytes: Seq<u8>) -> bool {
    bytes.len() > 0 && dfa_match_ids(d).contains(
        step_of(d, scan_state(d, bytes.drop_last()), bytes.last()),
    )
}

/// The plain (non-resetting) run of `d` over `bytes` from its start state.
pub open spec fn run_state(d: TableDfa, bytes: Seq<u8>) -> int
    decreases bytes.len(),
{
    if bytes.len() == 0 {
        dfa_start_id(d)
    } else {
        step_of(d, run_state(d, bytes.drop_last()), bytes.last())
    }
}

/// Whether the reverse scan may report length `l` on input `bytes`: the run
/// over the first `l` bytes ends in a match state and never touches a dead
/// state on the way (the scan stops for good at the first dead state).
pub open spec fn accept_len_ok(d: TableDfa, bytes: Seq<u8>, l: int) -> bool {
    &&& 0 <= l <= bytes.len()
    &&& dfa_match_ids(d).contains(run_state(d, bytes.take(l)))
    &&& forall|k: int|
        0 <= k <= l ==> !dfa_dead_ids(d).contains(#[trigger] run_state(d, bytes.take(k)))
}

/// The longest `l` with `accept_len_ok`, or `None` when there is none: what
/// the reverse scan reports on `bytes`.
pub open spec fn best_accept_len(d: TableDfa, bytes: Seq<u8>) -> Option<int>
    decreases bytes.len(),
{
    if accept_len_ok(d, bytes, bytes.len() as int) {
        Some(bytes.len() as int)
    } else if bytes.len() == 0 {
        None
    } else {
        best_accept_len(d, bytes.drop_last())
    }
}

/// The byte sequence a reverse scan reads: the ring's contents with the
/// `skip` newest bytes left out, newest remaining byte first.
pub open spec fn rev_input(s: Seq<u8>, skip: int) -> Seq<u8> {
    if skip >= s.len() {
        Seq::empty()
    } else {
        s.take(s.len() - skip).reverse()
    }
}

/// Whether the reverse automaton accepts the whole of `bytes` without ever
/// touching a dead state: what the reverse scan certifies of a match's bytes
/// read newest-first.
pub open spec fn rev_accepts(d: TableDfa, bytes: Seq<u8>) -> bool {
    accept_len_ok(d, bytes, bytes.len() as int)
}

/// `accept_len_ok` only looks at the first `l` bytes, so it transfers between
/// a sequence and any of its prefixes of length at least `l`.
pub(crate) proof fn lemma_ok_prefix(d: TableDfa, bytes: Seq<u8>, m: int, l: int)
    requires
        0 <= l <= m <= bytes.len(),
    ensures
        accept_len_ok(d, bytes.take(m), l) == accept_len_ok(d, bytes, l),
{
    let pre = bytes.take(m);
    assert(pre.take(l) =~= bytes.take(l));
    if accept_len_ok(d, pre, l) {
        assert forall|k: int| 0 <= k <= l implies !dfa_dead_ids(d).contains(
            #[trigger] run_state(d, bytes.take(k)),
        ) by {
            assert(pre.take(k) =~= bytes.take(k));
            assert(!dfa_dead_ids(d).contains(run_state(d, pre.take(k))));
        }
        assert(accept_len_ok(d, bytes, l));
    }
    if accept_len_ok(d, bytes, l) {
        assert forall|k: int| 0 <= k <= l implies !dfa_dead_ids(d).contains(
            #[trigger] run_state(d, pre.take(k)),
        ) by {
            assert(pre.take(k) =~= bytes.take(k));
            assert(!dfa_dead_ids(d).contains(run_state(d, bytes.take(k))));
        }
        assert(accept_len_ok(d, pre, l));
    }
}

/// If nothing above `m` can be reported, the best length over the whole input
/// equals the best over its first `m` bytes.
proof fn lemma_best_cut(d: TableDfa, bytes: Seq<u8>, m: int)
    requires
        0 <= m <= bytes.len(),
        forall|l: int| m < l <= bytes.len() ==> !accept_len_ok(d, bytes, l),
    ensures
        best_accept_len(d, bytes) == best_accept_len(d, bytes.take(m)),
    decreases bytes.len() - m,
{
    if m == bytes.len() {
        assert(bytes.take(m) =~= bytes);
    } else {
        let n = bytes.len() as int;
        assert(!accept_len_ok(d, bytes, n));
        assert(bytes.drop_last() =~= bytes.take(n - 1));
        assert forall|l: int| m < l <= n - 1 implies !(#[trigger] accept_len_ok(
            d,
            bytes.take(n - 1),
            l,
        )) by {
            lemma_ok_prefix(d, bytes, n - 1, l);
        }
        lemma_best_cut(d, bytes.take(n - 1), m);
        assert(bytes.take(n - 1).take(m) =~= bytes.take(m));
    }
}

/// What `best_accept_len` means: a reported length is reportable and maximal,
/// and `None` means no length is reportable.
pub proof fn lemma_best_accept_len(d: TableDfa, bytes: Seq<u8>)
    ensures
        match best_accept_len(d, bytes) {
            Some(l) => accept_len_ok(d, bytes, l) && forall|l2: int|
                l < l2 <= bytes.len() ==> !accept_len_ok(d, bytes, l2),
            None => forall|l: int| 0 <= l <= bytes.len() ==> !accept_len_ok(d, bytes, l),
        },
    decreases bytes.len(),
{
    let n = bytes.len() as int;
    if accept_len_ok(d, bytes, n) {
    } else if n == 0 {
    } else {
        lemma_best_accept_len(d, bytes.drop_last());
        assert(bytes.drop_last() =~= bytes.take(n - 1));
        match best_accept_len(d, bytes.take(n - 1)) {
            Some(l) => {
                lemma_ok_prefix(d, bytes, n - 1, l);
                assert(accept_len_ok(d, bytes, l));
                assert forall|l2: int| l < l2 <= n implies !(#[trigger] accept_len_ok(
                    d,
                    bytes,
                    l2,
                )) by {
                    if l2 < n {
                        lemma_ok_prefix(d, bytes, n - 1, l2);
                        assert(!accept_len_ok(d, bytes.take(n - 1), l2));
                    }
                }
            },
            None => {
                assert forall|l: int| 0 <= l <= n implies !(#[trigger] accept_len_ok(
                    d,
                    bytes,
                    l,
                )) by {
                    if l < n {
                        lemma_ok_prefix(d, bytes, n - 1, l);
                        assert(!accept_len_ok(d, bytes.take(n - 1), l));
                    }
                }
            },
        }
    }
}

/// The reverse scan.  Runs `d` over the ring's bytes newest-first, leaving
/// out the `skip` most recent, and returns the longest prefix length that
/// lands in a match state, giving up at the first dead state.
pub(crate) fn rfind(d: &TableDfa, ring: &Ring, skip: usize) -> (r: Option<usize>)
    requires
        ring.wf(),
    ensures
        match r {
            Some(l) => best_accept_len(*d, rev_input(ring@, skip as int)) == Some(l as int)
                && l <= ring@.len(),
            None => best_accept_len(*d, rev_input(ring@, skip as int)) is None,
        },
{
    let ghost bytes = rev_input(ring@, skip as int);
    let n = ring.len();
    let considered = if skip > n { 0 } else { n - skip };
    proof {
        assert(bytes.len() == considered);
    }
    let mut state = dfa_start_state(d);
    proof {
        assert(bytes.take(0) =~= Seq::<u8>::empty());
    }
    if dfa_is_dead_state(d, state) {
        proof {
            lemma_best_accept_len(*d, bytes);
            match best_accept_len(*d, bytes) {
                Some(l) => {
                    assert(accept_len_ok(*d, bytes, l));
                    assert(!dfa_dead_ids(*d).contains(run_state(*d, bytes.take(0))));
                },
                None => {},
            }
        }
        return None;
    }
    let mut best: Option<usize> = if dfa_is_match_state(d, state) {
        Some(0)
    } else {
        None
    };
    let mut i: usize = 0;
    while i < considered
        invariant
            ring.wf(),
            bytes == rev_input(ring@, skip as int),
            bytes.len() == considered,
            considered <= n,
            n == ring@.len(),
            considered > 0 ==> considered + skip == n,
            i <= considered,
            dfa_state_ids(*d).contains(state as int),
            state as int == run_state(*d, bytes.take(i as int)),
            forall|k: int|
                0 <= k <= i ==> !dfa_dead_ids(*d).contains(
                    #[trigger] run_state(*d, bytes.take(k)),
                ),
            match best {
                Some(l) => l <= i && best_accept_len(*d, bytes.take(i as int)) == Some(l as int),
                None => best_accept_len(*d, bytes.take(i as int)) is None,
            },
        decreases considered - i,
    {
        let b = ring.get(n - skip - 1 - i);
        proof {
            assert(bytes[i as int] == ring@[n - skip - 1 - i]);
            assert(bytes.take(i + 1).drop_last() =~= bytes.take(i as int));
            assert(bytes.take(i + 1).last() == bytes[i as int]);
        }
        state = dfa_next_state(d, state, b);
        proof {
            assert(state as int == run_state(*d, bytes.take(i + 1)));
        }
        if dfa_is_dead_state(d, state) {
            proof {
                assert forall|l: int| i < l <= bytes.len() implies !accept_len_ok(
                    *d,
                    bytes,
                    l,
                ) by {
                    assert(dfa_dead_ids(*d).contains(run_state(*d, bytes.take(i + 1))));
                }
                lemma_best_cut(*d, bytes, i as int);
            }
            return best;
        }
        if dfa_is_match_state(d, state) {
            proof {
                assert(accept_len_ok(*d, bytes, i + 1)) by {
                    assert forall|k: int| 0 <= k <= i + 1 implies !dfa_dead_ids(*d).contains(
                        run_state(*d, bytes.take(k)),
                    ) by {}
                }
                lemma_ok_prefix(*d, bytes, i + 1, i + 1);
                assert(bytes.take(i + 1).take(i + 1) =~= bytes.take(i + 1));
                assert(accept_len_ok(*d, bytes.take(i + 1), i + 1));
            }
            best = Some(i + 1);
        } else {
            proof {
                lemma_ok_prefix(*d, bytes, i + 1, i + 1);
                assert(bytes.take(i + 1).take(i + 1) =~= bytes.take(i + 1));
                assert(!accept_len_ok(*d, bytes.take(i + 1), i + 1));
                assert(bytes.take(i + 1).drop_last() =~= bytes.take(i as int));
            }
        }
        i += 1;
    }
    proof {
        assert(bytes.take(considered as int) =~= bytes);
    }
    best
}

} // verus!
