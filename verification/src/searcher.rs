//! The streaming searcher: a ring of the most recent input bytes, one
//! forward/reverse automaton pair per registered pattern, and the per-byte
//! scan that closes matches and recovers their starts from the ring.

use vstd::prelude::*;
use crate::automata::CompiledRegex;
use crate::automata::TableDfa;
use crate::automata::compiles;
use crate::automata::fwd_of;
use crate::automata::rev_of;
use crate::automata::dfa_match_ids;
use crate::automata::dfa_start_id;
use crate::automata::dfa_is_dead_state;
use crate::automata::dfa_is_match_state;
use crate::automata::dfa_next_state;
use crate::automata::dfa_start_state;
use crate::automata::dfa_state_ids;
use crate::automata::regex_compile;
use crate::automata::regex_parts;
use crate::ring::Ring;
use crate::ring::ring_push;
use crate::ring::slice_window;
use crate::ring::window_of;
use crate::scan::accept_len_ok;
use crate::scan::best_accept_len;
use crate::scan::lemma_best_accept_len;
use crate::scan::lemma_ok_prefix;
use crate::scan::rev_accepts;
use crate::scan::rev_input;
use crate::scan::rfind;
use crate::scan::scan_flag;
use crate::scan::scan_state;
use crate::scan::step_live;
use vstd::string::StringExecFns;

verus! {

/// The one error the searcher reports: a pattern string the regex compiler
/// rejected.
#[derive(Debug)]
pub enum Error {
    InvalidRegex,
}

/// A reported match, in stream positions: `end` is one past the last matched
/// byte; `start` is the first matched byte, or `None` when the match begins
/// before the oldest byte the ring still retains.
#[derive(Copy, Clone, Debug)]
pub struct Match {
    pub start: Option<usize>,
    pub end: usize,
}

/// The per-pattern scanning state: the forward automaton's current state and
/// the match flags after the most recent byte and the byte before it.
#[derive(Copy, Clone)]
struct Slot {
    state_id: usize,
    was_match: bool,
    is_match: bool,
}

/// The bytes the ring retains: the whole history while it fits, else the
/// newest `cap` bytes of it.
pub open spec fn retained(h: Seq<u8>, cap: nat) -> Seq<u8> {
    if h.len() <= cap {
        h
    } else {
        h.skip(h.len() - cap)
    }
}

/// A ring-buffer backed stream searcher.
///
/// Bytes enter through `push`; `matches` drains the reports that closed at
/// the previous byte, `final_matches` the ones still open at the very last
/// byte, and `match_data` recovers a report's bytes from the ring.
pub struct RingSearcher {
    buffer: Ring,
    position: usize,
    automata: Vec<(TableDfa, TableDfa)>,
    slots: Vec<Slot>,
    history: Ghost<Seq<u8>>,
}

impl RingSearcher {
    /// Every byte ever pushed, oldest first: the searcher's abstract input.
    pub closed spec fn history(self) -> Seq<u8> {
        self.history@
    }

    /// The count of bytes ever pushed.
    pub closed spec fn stream_position(self) -> int {
        self.position as int
    }

    /// The most bytes the ring retains.
    pub closed spec fn capacity(self) -> nat {
        self.buffer.capacity()
    }

    /// The retained bytes, oldest first.
    pub closed spec fn ring(self) -> Seq<u8> {
        self.buffer@
    }

    /// The older contiguous piece of the ring, as `match_data` borrows it.
    pub closed spec fn ring_head(self) -> Seq<u8> {
        self.buffer.head_spec()
    }

    /// The newer, wrapped-around piece of the ring.
    pub closed spec fn ring_tail(self) -> Seq<u8> {
        self.buffer.tail_spec()
    }

    /// How many patterns are registered.
    pub closed spec fn pattern_count(self) -> int {
        self.automata@.len() as int
    }

    /// The forward automaton of pattern `i`.
    pub closed spec fn fwd_dfa(self, i: int) -> TableDfa {
        self.automata@[i].0
    }

    /// The reverse automaton of pattern `i`.
    pub closed spec fn rev_dfa(self, i: int) -> TableDfa {
        self.automata@[i].1
    }

    spec fn slot_ok(self, i: int) -> bool {
        let d = self.automata@[i].0;
        let s = self.slots@[i];
        &&& dfa_state_ids(d).contains(s.state_id as int)
        &&& s.state_id as int == scan_state(d, self.history@)
        &&& s.is_match == scan_flag(d, self.history@)
        &&& s.was_match == (self.history@.len() > 0 && scan_flag(d, self.history@.drop_last()))
    }

    /// The searcher's invariant: the position counts the history, the ring
    /// holds its newest `capacity` bytes, and every slot's state and flags
    /// are what the forward scan of the whole history yields.
    pub closed spec fn wf(self) -> bool {
        &&& self.buffer.wf()
        &&& self.position as int == self.history@.len()
        &&& self.buffer@ == retained(self.history@, self.capacity())
        &&& self.slots@.len() == self.automata@.len()
        &&& forall|i: int| 0 <= i < self.slots@.len() ==> self.slot_ok(i)
    }

    /// Creates a searcher whose ring retains at most `buffer_size` bytes.
    pub fn new(buffer_size: usize) -> (r: RingSearcher)
        ensures
            r.wf(),
            r.history() == Seq::<u8>::empty(),
            r.stream_position() == 0,
            r.capacity() == buffer_size,
            r.pattern_count() == 0,
    {
        RingSearcher {
            buffer: Ring::new(buffer_size),
            position: 0,
            automata: Vec::new(),
            slots: Vec::new(),
            history: Ghost(Seq::empty()),
        }
    }

    /// Registers a compiled regex and returns its search id, the next index
    /// in registration order: the new slot runs exactly the forward and
    /// reverse automata of `regex`.  Patterns are registered before any
    /// input.
    pub fn add_regex(&mut self, regex: CompiledRegex) -> (r: usize)
        requires
            old(self).wf(),
            old(self).history().len() == 0,
        ensures
            final(self).wf(),
            final(self).history() == old(self).history(),
            final(self).stream_position() == 0,
            final(self).capacity() == old(self).capacity(),
            r == old(self).pattern_count(),
            final(self).pattern_count() == old(self).pattern_count() + 1,
            final(self).fwd_dfa(old(self).pattern_count()) == fwd_of(regex),
            final(self).rev_dfa(old(self).pattern_count()) == rev_of(regex),
            forall|i: int|
                0 <= i < old(self).pattern_count() ==> final(self).fwd_dfa(i) == old(self).fwd_dfa(
                    i,
                ) && final(self).rev_dfa(i) == old(self).rev_dfa(i),
    {
        let (fwd, rev) = regex_parts(&regex);
        let state_id = dfa_start_state(&fwd);
        let search_nr = self.slots.len();
        self.automata.push((fwd, rev));
        self.slots.push(Slot { state_id, was_match: false, is_match: false });
        proof {
            assert forall|i: int| 0 <= i < self.slots@.len() implies self.slot_ok(i) by {
                if i < old(self).slots@.len() {
                    assert(old(self).slot_ok(i));
                }
            }
        }
        search_nr
    }

    /// Compiles `regex_str` and registers it; `Err(InvalidRegex)` reports,
    /// exactly when the compiler rejects the pattern, and then leaves the
    /// searcher unchanged.
    pub fn add_regex_str(&mut self, regex_str: &str) -> (r: Result<usize, Error>)
        requires
            old(self).wf(),
            old(self).history().len() == 0,
        ensures
            final(self).wf(),
            final(self).history() == old(self).history(),
            final(self).stream_position() == old(self).stream_position(),
            final(self).capacity() == old(self).capacity(),
            r is Ok <==> compiles(regex_str@),
            match r {
                Ok(id) => {
                    &&& id == old(self).pattern_count()
                    &&& final(self).pattern_count() == old(self).pattern_count() + 1
                    &&& forall|i: int|
                        0 <= i < old(self).pattern_count() ==> final(self).fwd_dfa(i) == old(
                            self,
                        ).fwd_dfa(i) && final(self).rev_dfa(i) == old(self).rev_dfa(i)
                },
                Err(e) => e is InvalidRegex && *final(self) == *old(self),
            },
    {
        match regex_compile(regex_str) {
            Ok(regex) => Ok(self.add_regex(regex)),
            Err(_) => Err(Error::InvalidRegex),
        }
    }

    /// Feeds one stream byte: the ring takes it, the position advances, and
    /// every slot steps its forward automaton, restarting it when it died.
    /// Reports for matches that this byte closed are drained by `matches`.
    pub fn push(&mut self, input: u8)
        requires
            old(self).wf(),
            old(self).stream_position() < usize::MAX,
        ensures
            final(self).wf(),
            final(self).history() == old(self).history().push(input),
            final(self).stream_position() == old(self).stream_position() + 1,
            final(self).capacity() == old(self).capacity(),
            final(self).pattern_count() == old(self).pattern_count(),
            forall|i: int|
                0 <= i < old(self).pattern_count() ==> final(self).fwd_dfa(i) == old(self).fwd_dfa(
                    i,
                ) && final(self).rev_dfa(i) == old(self).rev_dfa(i),
    {
        let ghost h_new = self.history@.push(input);
        proof {
            lemma_retained_push(self.history@, self.capacity(), input);
        }
        self.buffer.push_byte(input);
        self.position = self.position + 1;
        self.history = Ghost(h_new);
        let n = self.slots.len();
        let mut i: usize = 0;
        while i < n
            invariant
                self.buffer.wf(),
                self.position as int == h_new.len(),
                self.history@ == h_new,
                h_new == old(self).history@.push(input),
                self.buffer@ == retained(h_new, self.capacity()),
                self.buffer.capacity() == old(self).buffer.capacity(),
                self.automata@ == old(self).automata@,
                n == self.slots@.len() == self.automata@.len(),
                i <= n,
                forall|j: int| i <= j < n ==> self.slots@[j] == old(self).slots@[j],
                forall|j: int| i <= j < n ==> old(self).slot_ok(j),
                forall|j: int| 0 <= j < i ==> self.slot_ok(j),
            decreases n - i,
        {
            let slot = self.slots[i];
            let d = &self.automata[i].0;
            proof {
                assert(old(self).slot_ok(i as int));
                assert(h_new.drop_last() =~= old(self).history@);
            }
            let next = dfa_next_state(d, slot.state_id, input);
            let is_match_now = dfa_is_match_state(d, next);
            let next = if dfa_is_dead_state(d, next) {
                dfa_start_state(d)
            } else {
                next
            };
            proof {
                assert(next as int == step_live(*d, scan_state(*d, h_new.drop_last()), input));
                assert(is_match_now == scan_flag(*d, h_new));
            }
            let ghost prev = *self;
            self.slots.set(
                i,
                Slot { state_id: next, was_match: slot.is_match, is_match: is_match_now },
            );
            proof {
                assert(self.slot_ok(i as int));
                assert forall|j: int| 0 <= j < i + 1 implies self.slot_ok(j) by {
                    if j < i {
                        assert(prev.slot_ok(j));
                        assert(self.slots@[j] == prev.slots@[j]);
                    }
                }
            }
            i += 1;
        }
    }

    /// The report pattern `i` contributes to a drain.  `fin` selects the
    /// final-flush rules: no edge required, no byte skipped by the reverse
    /// scan, and the report ends at the current position rather than the
    /// previous one.
    pub open spec fn report_at(self, i: int, fin: bool) -> Option<Match> {
        let fwd = self.fwd_dfa(i);
        let rev = self.rev_dfa(i);
        let h = self.history();
        let skip: int = if fin { 0 } else { 1 };
        let triggered = if fin {
            scan_flag(fwd, h)
        } else {
            h.len() > 0 && scan_flag(fwd, h.drop_last()) && !scan_flag(fwd, h)
        };
        if triggered {
            match best_accept_len(rev, rev_input(self.ring(), skip)) {
                Some(l) => Some(
                    Match {
                        end: (self.stream_position() - skip) as usize,
                        start: if l == self.ring().len() - skip && self.stream_position()
                            > self.ring().len() {
                            None
                        } else {
                            Some((self.stream_position() - skip - l) as usize)
                        },
                    },
                ),
                None => None,
            }
        } else {
            None
        }
    }

    /// The reports of the patterns below `n`, in ascending search id order.
    pub open spec fn reports_upto(self, n: int, fin: bool) -> Seq<(usize, Match)>
        decreases n,
    {
        if n <= 0 {
            Seq::empty()
        } else {
            self.reports_upto(n - 1, fin) + match self.report_at(n - 1, fin) {
                Some(m) => seq![((n - 1) as usize, m)],
                None => Seq::empty(),
            }
        }
    }

    /// The reports of one drain: of `final_matches` when `fin`, else of
    /// `matches`.
    pub open spec fn reports_spec(self, fin: bool) -> Seq<(usize, Match)> {
        self.reports_upto(self.pattern_count(), fin)
    }

    /// What `matches` returns: the reports closed at the previous byte.
    pub open spec fn matches_spec(self) -> Seq<(usize, Match)> {
        self.reports_spec(false)
    }

    /// What `final_matches` returns: the reports still open at the last byte.
    pub open spec fn final_matches_spec(self) -> Seq<(usize, Match)> {
        self.reports_spec(true)
    }

    /// Drains the matches that closed at the previous input byte: one report
    /// for each pattern whose match flag just fell, in ascending search id
    /// order, its start recovered by the reverse scan over the ring with the
    /// newest byte skipped.
    pub fn matches(&self) -> (r: Vec<(usize, Match)>)
        requires
            self.wf(),
        ensures
            r@ == self.matches_spec(),
    {
        let mut out: Vec<(usize, Match)> = Vec::new();
        let n = self.slots.len();
        let mut i: usize = 0;
        while i < n
            invariant
                self.wf(),
                n == self.slots@.len(),
                i <= n,
                out@ == self.reports_upto(i as int, false),
            decreases n - i,
        {
            let slot = self.slots[i];
            proof {
                assert(self.slot_ok(i as int));
                assert(self.buffer@.len() <= self.history@.len());
            }
            if slot.was_match && !slot.is_match {
                match rfind(&self.automata[i].1, &self.buffer, 1) {
                    Some(l) => {
                        proof {
                            lemma_best_accept_len(
                                self.automata@[i as int].1,
                                rev_input(self.buffer@, 1),
                            );
                        }
                        let end = self.position - 1;
                        let rl = self.buffer.len();
                        let start = if rl >= 1 && l == rl - 1 && self.position > rl {
                            None
                        } else {
                            Some(self.position - 1 - l)
                        };
                        let m = Match { start, end };
                        out.push((i, m));
                        proof {
                            assert(self.report_at(i as int, false) == Some(m));
                            assert(out@ =~= self.reports_upto(i + 1, false));
                        }
                    },
                    None => {
                        proof {
                            assert(self.report_at(i as int, false) is None);
                            assert(out@ =~= self.reports_upto(i + 1, false));
                        }
                    },
                }
            } else {
                proof {
                    assert(self.report_at(i as int, false) is None);
                    assert(out@ =~= self.reports_upto(i + 1, false));
                }
            }
            i += 1;
        }
        out
    }

    /// Drains the matches that end at the very last input byte: one report
    /// for each pattern whose match flag is up now, the reverse scan reading
    /// the whole ring.  To be called once, after all input.
    pub fn final_matches(&self) -> (r: Vec<(usize, Match)>)
        requires
            self.wf(),
        ensures
            r@ == self.final_matches_spec(),
    {
        let mut out: Vec<(usize, Match)> = Vec::new();
        let n = self.slots.len();
        let mut i: usize = 0;
        while i < n
            invariant
                self.wf(),
                n == self.slots@.len(),
                i <= n,
                out@ == self.reports_upto(i as int, true),
            decreases n - i,
        {
            let slot = self.slots[i];
            proof {
                assert(self.slot_ok(i as int));
                assert(self.buffer@.len() <= self.history@.len());
            }
            if slot.is_match {
                match rfind(&self.automata[i].1, &self.buffer, 0) {
                    Some(l) => {
                        proof {
                            lemma_best_accept_len(
                                self.automata@[i as int].1,
                                rev_input(self.buffer@, 0),
                            );
                        }
                        let end = self.position;
                        let rl = self.buffer.len();
                        let start = if l == rl && self.position > rl {
                            None
                        } else {
                            Some(self.position - l)
                        };
                        let m = Match { start, end };
                        out.push((i, m));
                        proof {
                            assert(self.report_at(i as int, true) == Some(m));
                            assert(out@ =~= self.reports_upto(i + 1, true));
                        }
                    },
                    None => {
                        proof {
                            assert(self.report_at(i as int, true) is None);
                            assert(out@ =~= self.reports_upto(i + 1, true));
                        }
                    },
                }
            } else {
                proof {
                    assert(self.report_at(i as int, true) is None);
                    assert(out@ =~= self.reports_upto(i + 1, true));
                }
            }
            i += 1;
        }
        out
    }

    /// Where a report's data starts inside the ring: its start position (or
    /// the oldest retained position, when the start is unknown or older than
    /// the ring) relative to the oldest retained byte.
    pub open spec fn data_start_ofs(self, m: Match) -> int {
        let offset = self.stream_position() - self.ring().len();
        let s = match m.start {
            Some(s) => s as int,
            None => offset,
        };
        if s < offset {
            0
        } else {
            s - offset
        }
    }

    /// Where a report's data ends inside the ring: its end position relative
    /// to the oldest retained byte, clipped below at zero.
    pub open spec fn data_end_ofs(self, m: Match) -> int {
        let offset = self.stream_position() - self.ring().len();
        if m.end < offset {
            0
        } else {
            m.end - offset
        }
    }

    /// How many bytes of a report the ring still retains: from the later of
    /// its start and the oldest retained position to the earlier of its end
    /// and the stream position, clipped at zero.
    pub open spec fn data_len_spec(self, m: Match) -> int {
        let offset = self.stream_position() - self.ring().len();
        let lo = match m.start {
            Some(s) => if s as int > offset {
                s as int
            } else {
                offset
            },
            None => offset,
        };
        let hi = if m.end < self.stream_position() {
            m.end as int
        } else {
            self.stream_position()
        };
        if hi < lo {
            0
        } else {
            hi - lo
        }
    }

    /// The bytes of a report that the ring still retains, copied out of the
    /// two ring pieces; out-of-window or inverted positions clip to empty,
    /// they never fail.
    pub fn match_data(&self, match_: &Match) -> (r: MatchData)
        requires
            self.wf(),
        ensures
            r.head@ == window_of(
                self.ring_head(),
                self.data_start_ofs(*match_),
                self.data_end_ofs(*match_),
            ),
            r.tail@ == window_of(
                self.ring_tail(),
                clip_sub(self.data_start_ofs(*match_), self.ring_head().len() as int),
                clip_sub(self.data_end_ofs(*match_), self.ring_head().len() as int),
            ),
            r.head@.len() + r.tail@.len() == self.data_len_spec(*match_),
            r.head@ + r.tail@ == window_of(
                self.ring(),
                self.data_start_ofs(*match_),
                self.data_end_ofs(*match_),
            ),
    {
        let (head, tail) = self.buffer.as_slices();
        proof {
            assert(self.buffer@.len() <= self.history@.len());
            assert(self.buffer@ == self.buffer.head_spec() + self.buffer.tail_spec());
            lemma_window_concat(
                self.buffer.head_spec(),
                self.buffer.tail_spec(),
                self.data_start_ofs(*match_),
                self.data_end_ofs(*match_),
            );
        }
        let offset = self.position - self.buffer.len();
        let sv = match match_.start {
            Some(s) => s,
            None => offset,
        };
        let s = if sv < offset {
            0
        } else {
            sv - offset
        };
        let e = if match_.end < offset {
            0
        } else {
            match_.end - offset
        };
        let hl = head.len();
        let head_w = slice_window(head, s, e);
        let tail_w = slice_window(
            tail,
            if s < hl {
                0
            } else {
                s - hl
            },
            if e < hl {
                0
            } else {
                e - hl
            },
        );
        MatchData {
            head: vstd::slice::slice_to_vec(head_w),
            tail: vstd::slice::slice_to_vec(tail_w),
        }
    }

    /// The report pattern `i` would contribute to a drain once the further
    /// bytes `p` have been pushed: `report_at`, restated over the state that
    /// pushing `p` reaches.
    pub open spec fn report_at_later(self, p: Seq<u8>, i: int, fin: bool) -> Option<Match> {
        let fwd = self.fwd_dfa(i);
        let rev = self.rev_dfa(i);
        let h = self.history() + p;
        let ring = retained(h, self.capacity());
        let pos = h.len() as int;
        let skip: int = if fin {
            0
        } else {
            1
        };
        let triggered = if fin {
            scan_flag(fwd, h)
        } else {
            h.len() > 0 && scan_flag(fwd, h.drop_last()) && !scan_flag(fwd, h)
        };
        if triggered {
            match best_accept_len(rev, rev_input(ring, skip)) {
                Some(l) => Some(
                    Match {
                        end: (pos - skip) as usize,
                        start: if l == ring.len() - skip && pos > ring.len() {
                            None
                        } else {
                            Some((pos - skip - l) as usize)
                        },
                    },
                ),
                None => None,
            }
        } else {
            None
        }
    }

    /// The bytes `match_data` would return for report `m` once the further
    /// bytes `p` have been pushed.
    pub open spec fn data_later(self, p: Seq<u8>, m: Match) -> Seq<u8> {
        let h = self.history() + p;
        let ring = retained(h, self.capacity());
        let offset = h.len() as int - ring.len() as int;
        let sv = match m.start {
            Some(s) => s as int,
            None => offset,
        };
        window_of(ring, clip_sub(sv, offset), clip_sub(m.end as int, offset))
    }

    /// One whole drain once the further bytes `p` have been pushed: each
    /// report of the patterns below `n` together with its retained data.
    pub open spec fn drain_later(self, p: Seq<u8>, n: int, fin: bool) -> Seq<
        (usize, Match, Seq<u8>),
    >
        decreases n,
    {
        if n <= 0 {
            Seq::empty()
        } else {
            self.drain_later(p, n - 1, fin) + match self.report_at_later(p, n - 1, fin) {
                Some(m) => seq![((n - 1) as usize, m, self.data_later(p, m))],
                None => Seq::empty(),
            }
        }
    }

    /// The per-byte drains of driving `p`: after each pushed byte, the drain
    /// that `matches` yields there, in stream order.
    pub open spec fn pushed_drains(self, p: Seq<u8>) -> Seq<(usize, Match, Seq<u8>)>
        decreases p.len(),
    {
        if p.len() == 0 {
            Seq::empty()
        } else {
            self.pushed_drains(p.drop_last()) + self.drain_later(
                p,
                self.pattern_count(),
                false,
            )
        }
    }

    /// Everything driving `p` reports: the per-byte drains, then the final
    /// flush.
    pub open spec fn drive_spec(self, p: Seq<u8>) -> Seq<(usize, Match, Seq<u8>)> {
        self.pushed_drains(p) + self.drain_later(p, self.pattern_count(), true)
    }

    /// Drives the whole remaining input at once and collects every report
    /// together with the bytes the ring retained for it at drain time — the
    /// data a later push would have invalidated.  Reports come in stream
    /// order: the per-byte drains, then the final flush.
    pub fn collected_matches(&mut self, input: &[u8]) -> (r: Vec<(usize, Match, MatchData)>)
        requires
            old(self).wf(),
            old(self).stream_position() + input@.len() <= usize::MAX,
        ensures
            final(self).wf(),
            final(self).history() == old(self).history() + input@,
            final(self).capacity() == old(self).capacity(),
            final(self).pattern_count() == old(self).pattern_count(),
            r@.len() == old(self).drive_spec(input@).len(),
            forall|j: int| 0 <= j < r@.len() ==> {
                let e = #[trigger] r@[j];
                let t = old(self).drive_spec(input@)[j];
                &&& e.0 == t.0
                &&& e.1 == t.1
                &&& e.2.head@ + e.2.tail@ == t.2
            },
    {
        let mut out: Vec<(usize, Match, MatchData)> = Vec::new();
        let n = input.len();
        let mut k: usize = 0;
        while k < n
            invariant
                self.wf(),
                n == input@.len(),
                k <= n,
                self.history() == old(self).history() + input@.take(k as int),
                self.stream_position() + (n - k) <= usize::MAX,
                self.capacity() == old(self).capacity(),
                self.pattern_count() == old(self).pattern_count(),
                forall|i: int|
                    0 <= i < old(self).pattern_count() ==> self.fwd_dfa(i) == old(self).fwd_dfa(i)
                        && self.rev_dfa(i) == old(self).rev_dfa(i),
                out@.len() == old(self).pushed_drains(input@.take(k as int)).len(),
                forall|x: int| 0 <= x < out@.len() ==> {
                    let e = #[trigger] out@[x];
                    let t = old(self).pushed_drains(input@.take(k as int))[x];
                    &&& e.0 == t.0
                    &&& e.1 == t.1
                    &&& e.2.head@ + e.2.tail@ == t.2
                },
            decreases n - k,
        {
            self.push(input[k]);
            let ghost p1 = input@.take(k + 1);
            proof {
                assert(self.history() =~= old(self).history() + p1);
            }
            let ms = self.matches();
            let ghost base = old(self).pushed_drains(input@.take(k as int));
            let ghost drain = old(self).drain_later(p1, old(self).pattern_count(), false);
            proof {
                lemma_drain_shift(*old(self), *self, p1, self.pattern_count(), false);
                assert(p1.drop_last() =~= input@.take(k as int));
                assert(old(self).pushed_drains(p1) == base + drain);
            }
            let mut j: usize = 0;
            while j < ms.len()
                invariant
                    self.wf(),
                    n == input@.len(),
                    k < n,
                    p1 == input@.take(k + 1),
                    self.history() == old(self).history() + p1,
                    self.stream_position() + (n - k - 1) <= usize::MAX,
                    self.capacity() == old(self).capacity(),
                    self.pattern_count() == old(self).pattern_count(),
                    forall|i: int|
                        0 <= i < old(self).pattern_count() ==> self.fwd_dfa(i) == old(
                            self,
                        ).fwd_dfa(i) && self.rev_dfa(i) == old(self).rev_dfa(i),
                    base == old(self).pushed_drains(input@.take(k as int)),
                    drain == old(self).drain_later(p1, old(self).pattern_count(), false),
                    old(self).pushed_drains(p1) == base + drain,
                    j <= ms@.len(),
                    ms@.len() == drain.len(),
                    forall|x: int| 0 <= x < ms@.len() ==> {
                        let t = #[trigger] drain[x];
                        &&& t.0 == ms@[x].0
                        &&& t.1 == ms@[x].1
                        &&& t.2 == old(self).data_later(p1, ms@[x].1)
                    },
                    out@.len() == base.len() + j,
                    forall|x: int| 0 <= x < out@.len() ==> {
                        let e = #[trigger] out@[x];
                        let t = (base + drain)[x];
                        &&& e.0 == t.0
                        &&& e.1 == t.1
                        &&& e.2.head@ + e.2.tail@ == t.2
                    },
                decreases ms@.len() - j,
            {
                let (id, m) = ms[j];
                let data = self.match_data(&m);
                proof {
                    assert(self.ring() == retained(self.history(), self.capacity()));
                    assert(window_of(self.ring(), self.data_start_ofs(m), self.data_end_ofs(m))
                        == old(self).data_later(p1, m));
                }
                out.push((id, m, data));
                j += 1;
            }
            k += 1;
        }
        proof {
            assert(input@.take(n as int) =~= input@);
        }
        let ms = self.final_matches();
        let ghost base = old(self).pushed_drains(input@);
        let ghost drain = old(self).drain_later(input@, old(self).pattern_count(), true);
        proof {
            lemma_drain_shift(*old(self), *self, input@, self.pattern_count(), true);
        }
        let mut j: usize = 0;
        while j < ms.len()
            invariant
                self.wf(),
                self.history() == old(self).history() + input@,
                self.capacity() == old(self).capacity(),
                self.pattern_count() == old(self).pattern_count(),
                base == old(self).pushed_drains(input@),
                drain == old(self).drain_later(input@, old(self).pattern_count(), true),
                j <= ms@.len(),
                ms@.len() == drain.len(),
                forall|x: int| 0 <= x < ms@.len() ==> {
                    let t = #[trigger] drain[x];
                    &&& t.0 == ms@[x].0
                    &&& t.1 == ms@[x].1
                    &&& t.2 == old(self).data_later(input@, ms@[x].1)
                },
                out@.len() == base.len() + j,
                forall|x: int| 0 <= x < out@.len() ==> {
                    let e = #[trigger] out@[x];
                    let t = (base + drain)[x];
                    &&& e.0 == t.0
                    &&& e.1 == t.1
                    &&& e.2.head@ + e.2.tail@ == t.2
                },
            decreases ms@.len() - j,
        {
            let (id, m) = ms[j];
            let data = self.match_data(&m);
            proof {
                assert(self.ring() == retained(self.history(), self.capacity()));
                assert(window_of(self.ring(), self.data_start_ofs(m), self.data_end_ofs(m))
                    == old(self).data_later(input@, m));
            }
            out.push((id, m, data));
            j += 1;
        }
        out
    }

    /// Runs the whole remaining input: collects every report with its
    /// retained data, then hands them to `callback` one by one, in the order
    /// the drains yield them.
    pub fn input_matches<F: Fn(usize, Match, MatchData)>(&mut self, input: &[u8], callback: F)
        requires
            old(self).wf(),
            old(self).stream_position() + input@.len() <= usize::MAX,
            forall|i: usize, m: Match, d: MatchData| call_requires(callback, (i, m, d)),
        ensures
            final(self).wf(),
            final(self).history() == old(self).history() + input@,
            final(self).capacity() == old(self).capacity(),
            final(self).pattern_count() == old(self).pattern_count(),
    {
        let mut collected = self.collected_matches(input);
        while collected.len() > 0
            invariant
                forall|i: usize, m: Match, d: MatchData| call_requires(callback, (i, m, d)),
            decreases collected@.len(),
        {
            let e = collected.remove(0);
            callback(e.0, e.1, e.2);
        }
    }
}

/// `a - b`, stopped at zero: how the windowing shifts ring offsets past the
/// head piece into the tail piece.
pub open spec fn clip_sub(a: int, b: int) -> int {
    if a < b {
        0
    } else {
        a - b
    }
}

/// Windowing distributes over the ring's two pieces: clipping `[a, b)`
/// against the head and, shifted, against the tail and concatenating gives
/// the window of the whole buffer.
pub proof fn lemma_window_concat(h: Seq<u8>, t: Seq<u8>, a: int, b: int)
    requires
        0 <= a,
        0 <= b,
    ensures
        window_of(h, a, b) + window_of(t, clip_sub(a, h.len() as int), clip_sub(b, h.len() as int))
            == window_of(h + t, a, b),
{
    let hl = h.len() as int;
    let hw = window_of(h, a, b);
    let tw = window_of(t, clip_sub(a, hl), clip_sub(b, hl));
    let whole = window_of(h + t, a, b);
    assert forall|x: int| 0 <= x < whole.len() implies (hw + tw)[x] == whole[x] by {
        if x < hw.len() {
            assert(hw[x] == h[(if a < hl { a } else { hl }) + x]);
        }
    }
    assert(hw + tw =~= whole);
}

/// The text a byte sequence decodes to when every invalid UTF-8 sequence is
/// replaced: the decoding `String::from_utf8_lossy` fixes.
pub uninterp spec fn lossy_utf8(bytes: Seq<u8>) -> Seq<char>;

/// Relies on `String::from_utf8_lossy` of std: the text depends on the bytes
/// alone, and no bytes decode to no text.
#[verifier::external_body]
fn utf8_lossy(bytes: &[u8]) -> (r: String)
    ensures
        r@ == lossy_utf8(bytes@),
        bytes@.len() == 0 ==> r@.len() == 0,
{
    String::from_utf8_lossy(bytes).into_owned()
}

/// The bytes of one reported match that the ring still retained, copied out
/// as the two ring pieces they came from: `head` before `tail`.
#[derive(Clone, Debug)]
pub struct MatchData {
    pub head: Vec<u8>,
    pub tail: Vec<u8>,
}

impl MatchData {
    /// The match data decoded as text, each ring piece decoded on its own,
    /// with invalid UTF-8 replaced.
    pub fn to_string(&self) -> (r: String)
        ensures
            r@ == lossy_utf8(self.head@) + lossy_utf8(self.tail@),
    {
        let h = utf8_lossy(self.head.as_slice());
        let t = utf8_lossy(self.tail.as_slice());
        h.concat(t.as_str())
    }

    /// The match data as one owned vector, head then tail.
    pub fn to_vec(&self) -> (r: Vec<u8>)
        ensures
            r@ == self.head@ + self.tail@,
    {
        let mut out: Vec<u8> = Vec::new();
        out.extend_from_slice(self.head.as_slice());
        out.extend_from_slice(self.tail.as_slice());
        proof {
            assert(out@ =~= self.head@ + self.tail@);
        }
        out
    }

    /// How many bytes of the match the ring retained.
    pub fn len(&self) -> (r: usize)
        requires
            self.head@.len() + self.tail@.len() <= usize::MAX,
        ensures
            r == self.head@.len() + self.tail@.len(),
    {
        self.head.len() + self.tail.len()
    }

    /// Whether the retained bytes are exactly `rhs`, head then tail.
    pub fn eq_bytes(&self, rhs: &[u8]) -> (r: bool)
        ensures
            r == (self.head@ + self.tail@ == rhs@),
    {
        let hl = self.head.len();
        let tl = self.tail.len();
        if rhs.len() < hl || rhs.len() - hl != tl {
            proof {
                assert((self.head@ + self.tail@).len() != rhs@.len());
            }
            return false;
        }
        let mut i: usize = 0;
        while i < hl
            invariant
                hl == self.head@.len(),
                tl == self.tail@.len(),
                rhs@.len() == hl + tl,
                i <= hl,
                forall|k: int| 0 <= k < i ==> self.head@[k] == rhs@[k],
            decreases hl - i,
        {
            if self.head[i] != rhs[i] {
                proof {
                    assert((self.head@ + self.tail@)[i as int] != rhs@[i as int]);
                }
                return false;
            }
            i += 1;
        }
        let mut j: usize = 0;
        while j < tl
            invariant
                hl == self.head@.len(),
                tl == self.tail@.len(),
                rhs@.len() == hl + tl,
                j <= tl,
                forall|k: int| 0 <= k < hl ==> self.head@[k] == rhs@[k],
                forall|k: int| 0 <= k < j ==> self.tail@[k] == rhs@[hl + k],
            decreases tl - j,
        {
            let idx = (rhs.len() - tl) + j;
            if self.tail[j] != rhs[idx] {
                proof {
                    assert((self.head@ + self.tail@)[hl + j] != rhs@[hl + j]);
                }
                return false;
            }
            j += 1;
        }
        proof {
            assert(self.head@ + self.tail@ =~= rhs@);
        }
        true
    }
}

/// One pushed byte commutes with retention: retaining after the push is the
/// ring's own push of the byte into what was retained before.
proof fn lemma_retained_push(h: Seq<u8>, cap: nat, b: u8)
    ensures
        retained(h.push(b), cap) == ring_push(retained(h, cap), cap, b),
{
    if h.len() < cap {
        assert(retained(h.push(b), cap) =~= retained(h, cap).push(b));
    } else if cap == 0 {
        assert(retained(h.push(b), cap) =~= Seq::<u8>::empty());
    } else {
        assert(retained(h.push(b), cap) =~= retained(h, cap).skip(1).push(b));
    }
}

// The laws of the searcher: what every drain's reports look like, proved
// once and for all states a well-formed searcher can reach.

/// Each entry of a drain names a registered pattern, carries the report that
/// pattern contributes, and the search ids strictly ascend — so no pattern
/// reports twice in one drain.
proof fn lemma_reports_entries(s: RingSearcher, n: int, fin: bool)
    requires
        n <= usize::MAX,
    ensures
        forall|j: int| 0 <= j < s.reports_upto(n, fin).len() ==> {
            let e = #[trigger] s.reports_upto(n, fin)[j];
            &&& 0 <= e.0 < n
            &&& s.report_at(e.0 as int, fin) == Some(e.1)
        },
        forall|j: int, k: int|
            0 <= j < k < s.reports_upto(n, fin).len() ==> (#[trigger] s.reports_upto(n, fin)[j]).0
                < (#[trigger] s.reports_upto(n, fin)[k]).0,
    decreases n,
{
    if n > 0 {
        lemma_reports_entries(s, n - 1, fin);
        let prev = s.reports_upto(n - 1, fin);
        let cur = s.reports_upto(n, fin);
        assert forall|j: int| 0 <= j < cur.len() implies {
            let e = #[trigger] cur[j];
            &&& 0 <= e.0 < n
            &&& s.report_at(e.0 as int, fin) == Some(e.1)
        } by {
            if j < prev.len() {
                assert(cur[j] == prev[j]);
                assert(prev[j] == s.reports_upto(n - 1, fin)[j]);
            } else {
                match s.report_at(n - 1, fin) {
                    Some(m) => {
                        assert(cur == prev + seq![((n - 1) as usize, m)]);
                        assert(cur[j] == ((n - 1) as usize, m));
                        assert(cur[j].0 as int == n - 1);
                    },
                    None => {
                        assert(cur == prev + Seq::<(usize, Match)>::empty());
                        assert(cur.len() == prev.len());
                    },
                }
            }
        }
        assert forall|j: int, k: int| 0 <= j < k < cur.len() implies (#[trigger] cur[j]).0
            < (#[trigger] cur[k]).0 by {
            if k < prev.len() {
                assert(cur[j] == prev[j] && cur[k] == prev[k]);
            } else if j < prev.len() {
                assert(cur[j] == prev[j]);
                assert(cur[j].0 < n - 1);
                match s.report_at(n - 1, fin) {
                    Some(m) => {
                        assert(cur == prev + seq![((n - 1) as usize, m)]);
                        assert(cur[k] == ((n - 1) as usize, m));
                        assert(cur[k].0 as int == n - 1);
                    },
                    None => {},
                }
            }
        }
    }
}

/// What a pattern reports in the state that pushing `p` reaches is its later
/// report as seen from the starting state.
proof fn lemma_report_shift(s0: RingSearcher, s1: RingSearcher, p: Seq<u8>, i: int, fin: bool)
    requires
        s1.wf(),
        s1.history() == s0.history() + p,
        s1.capacity() == s0.capacity(),
        s1.fwd_dfa(i) == s0.fwd_dfa(i),
        s1.rev_dfa(i) == s0.rev_dfa(i),
    ensures
        s1.report_at(i, fin) == s0.report_at_later(p, i, fin),
{
    assert(s1.ring() == retained(s1.history(), s1.capacity()));
    assert(s1.stream_position() == s1.history().len());
}

/// A whole drain in the state that pushing `p` reaches carries, entry by
/// entry, the later drain as seen from the starting state, together with the
/// data the later state retains for each report.
proof fn lemma_drain_shift(s0: RingSearcher, s1: RingSearcher, p: Seq<u8>, n: int, fin: bool)
    requires
        s1.wf(),
        s1.history() == s0.history() + p,
        s1.capacity() == s0.capacity(),
        forall|i: int|
            0 <= i < n ==> s1.fwd_dfa(i) == s0.fwd_dfa(i) && s1.rev_dfa(i) == s0.rev_dfa(i),
    ensures
        s1.reports_upto(n, fin).len() == s0.drain_later(p, n, fin).len(),
        forall|j: int| 0 <= j < s1.reports_upto(n, fin).len() ==> {
            let e = #[trigger] s1.reports_upto(n, fin)[j];
            let t = s0.drain_later(p, n, fin)[j];
            &&& t.0 == e.0
            &&& t.1 == e.1
            &&& t.2 == s0.data_later(p, e.1)
        },
    decreases n,
{
    if n > 0 {
        lemma_drain_shift(s0, s1, p, n - 1, fin);
        lemma_report_shift(s0, s1, p, n - 1, fin);
        let eprev = s1.reports_upto(n - 1, fin);
        let ecur = s1.reports_upto(n, fin);
        let tprev = s0.drain_later(p, n - 1, fin);
        let tcur = s0.drain_later(p, n, fin);
        assert forall|j: int| 0 <= j < ecur.len() implies {
            let e = #[trigger] ecur[j];
            let t = tcur[j];
            &&& t.0 == e.0
            &&& t.1 == e.1
            &&& t.2 == s0.data_later(p, e.1)
        } by {
            if j < eprev.len() {
                assert(ecur[j] == eprev[j]);
                assert(tcur[j] == tprev[j]);
            } else {
                match s1.report_at(n - 1, fin) {
                    Some(m) => {
                        assert(ecur[j] == ((n - 1) as usize, m));
                        assert(tcur[j] == ((n - 1) as usize, m, s0.data_later(p, m)));
                    },
                    None => {},
                }
            }
        }
    }
}

/// A searcher cannot hold more patterns than a vector can: the count fits a
/// machine word.
proof fn lemma_pattern_count_bound(s: RingSearcher)
    ensures
        s.pattern_count() <= usize::MAX,
{
    vstd::std_specs::vec::axiom_spec_len(&s.automata);
}

/// The searcher's standing invariants, read off `wf`: the ring holds at most
/// `capacity` bytes — the newest of the history — and the stream position
/// counts exactly the bytes ever pushed, so it never undercounts the ring.
pub proof fn lemma_searcher_invariants(s: RingSearcher)
    requires
        s.wf(),
    ensures
        0 <= s.ring().len() <= s.capacity(),
        s.stream_position() == s.history().len(),
        s.ring() == retained(s.history(), s.capacity()),
        s.ring().len() <= s.stream_position(),
        s.ring() == s.ring_head() + s.ring_tail(),
{
}

/// Where every report of a drain points: its end is the stream position for
/// a final flush and one less for `matches` — so a match ending at the very
/// last byte is never reported by `matches` — and a known start lies inside
/// the retained window, at or before the end; strictly before it whenever
/// the pattern's reverse automaton rejects the empty string.  The window
/// bound has one exception: with a capacity-zero ring, an edge-triggered
/// empty match names the position just before the (empty) window.
pub proof fn lemma_report_bounds(s: RingSearcher, fin: bool, j: int)
    requires
        s.wf(),
        0 <= j < s.reports_spec(fin).len(),
    ensures
        ({
            let (i, m) = s.reports_spec(fin)[j];
            &&& 0 <= i < s.pattern_count()
            &&& m.end <= s.stream_position()
            &&& (fin ==> m.end == s.stream_position())
            &&& (!fin ==> m.end == s.stream_position() - 1)
            &&& match m.start {
                Some(st) => {
                    &&& (fin || s.ring().len() > 0 ==> st as int >= s.stream_position()
                        - s.ring().len())
                    &&& st as int >= s.stream_position() - s.ring().len() - 1
                    &&& st <= m.end
                    &&& (!dfa_match_ids(s.rev_dfa(i as int)).contains(
                        dfa_start_id(s.rev_dfa(i as int)),
                    ) ==> st < m.end)
                },
                None => true,
            }
        }),
{
    lemma_pattern_count_bound(s);
    lemma_reports_entries(s, s.pattern_count(), fin);
    let (i, m) = s.reports_spec(fin)[j];
    let rev = s.rev_dfa(i as int);
    let skip: int = if fin { 0 } else { 1 };
    let bytes = rev_input(s.ring(), skip);
    lemma_best_accept_len(rev, bytes);
    match best_accept_len(rev, bytes) {
        Some(l) => {
            assert(accept_len_ok(rev, bytes, l));
            assert(bytes.len() <= s.ring().len());
            if m.start is Some {
                if l == 0 {
                    assert(bytes.take(0) =~= Seq::<u8>::empty());
                    assert(dfa_match_ids(rev).contains(dfa_start_id(rev)));
                }
            }
        },
        None => {
            assert(s.report_at(i as int, fin) is None);
        },
    }
}

/// One pattern never reports the same end twice through `matches`: within a
/// single drain the search ids strictly ascend, and across two states that
/// differ in stream position — as any two drains separated by a `push` do —
/// the pinned ends differ.
pub proof fn lemma_matches_never_repeats_end(
    s1: RingSearcher,
    s2: RingSearcher,
    j1: int,
    j2: int,
)
    requires
        s1.wf(),
        s2.wf(),
        s1.stream_position() != s2.stream_position(),
        0 <= j1 < s1.matches_spec().len(),
        0 <= j2 < s2.matches_spec().len(),
    ensures
        s1.matches_spec()[j1].1.end != s2.matches_spec()[j2].1.end,
{
    lemma_report_bounds(s1, false, j1);
    lemma_report_bounds(s2, false, j2);
}

/// Within one drain the search ids strictly ascend: at most one report per
/// pattern per drain.
pub proof fn lemma_one_report_per_pattern(s: RingSearcher, fin: bool, j: int, k: int)
    requires
        s.wf(),
        0 <= j < k < s.reports_spec(fin).len(),
    ensures
        s.reports_spec(fin)[j].0 < s.reports_spec(fin)[k].0,
{
    lemma_pattern_count_bound(s);
    lemma_reports_entries(s, s.pattern_count(), fin);
}

/// A report whose start lies in the retained window pins its bytes: what
/// `match_data` returns for it is exactly the ring slice from start to end,
/// and that slice, read newest-first, is accepted by the pattern's reverse
/// automaton without touching a dead state.
pub proof fn lemma_report_bytes_accepted(s: RingSearcher, fin: bool, j: int)
    requires
        s.wf(),
        0 <= j < s.reports_spec(fin).len(),
    ensures
        ({
            let (i, m) = s.reports_spec(fin)[j];
            let offset = s.stream_position() - s.ring().len();
            match m.start {
                Some(st) => st as int >= offset ==> {
                    &&& window_of(s.ring(), s.data_start_ofs(m), s.data_end_ofs(m)) == s.ring()
                        .subrange(st - offset, m.end - offset)
                    &&& rev_accepts(
                        s.rev_dfa(i as int),
                        s.ring().subrange(st - offset, m.end - offset).reverse(),
                    )
                },
                None => true,
            }
        }),
{
    lemma_pattern_count_bound(s);
    lemma_reports_entries(s, s.pattern_count(), fin);
    lemma_report_bounds(s, fin, j);
    let (i, m) = s.reports_spec(fin)[j];
    let rev = s.rev_dfa(i as int);
    let skip: int = if fin { 0 } else { 1 };
    let bytes = rev_input(s.ring(), skip);
    let rl = s.ring().len() as int;
    lemma_best_accept_len(rev, bytes);
    match m.start {
        Some(st) => {
            let l = best_accept_len(rev, bytes)->0;
            assert(best_accept_len(rev, bytes) == Some(l));
            assert(accept_len_ok(rev, bytes, l));
            let offset = s.stream_position() - rl;
            if st >= offset {
            assert(l <= rl - skip);
            assert(st - offset == rl - skip - l);
            assert(window_of(s.ring(), s.data_start_ofs(m), s.data_end_ofs(m)) =~= s.ring()
                .subrange(st - offset, m.end - offset));
            assert(m.end - offset == rl - skip);
            let x = s.ring().subrange(rl - skip - l, rl - skip).reverse();
            assert(bytes.take(l) =~= x) by {
                assert(bytes.len() == rl - skip);
                assert forall|t: int| 0 <= t < l implies bytes.take(l)[t] == x[t] by {
                    assert(bytes[t] == s.ring()[rl - skip - 1 - t]);
                    assert(x[t] == s.ring().subrange(rl - skip - l, rl - skip)[l - 1 - t]);
                }
            }
            lemma_ok_prefix(rev, bytes, l, l);
            assert(bytes.take(l).take(l) =~= bytes.take(l));
            assert(accept_len_ok(rev, bytes.take(l), l));
            assert(rev_accepts(rev, x));
            }
        },
        None => {},
    }
}

/// A final-flush report without a start covers at least the whole ring: its
/// retained data is exactly the ring's contents — `capacity` bytes once the
/// stream has filled the ring.
pub proof fn lemma_start_none_covers_ring(s: RingSearcher, j: int)
    requires
        s.wf(),
        0 <= j < s.final_matches_spec().len(),
        s.final_matches_spec()[j].1.start is None,
    ensures
        s.data_len_spec(s.final_matches_spec()[j].1) == s.ring().len(),
        window_of(
            s.ring(),
            s.data_start_ofs(s.final_matches_spec()[j].1),
            s.data_end_ofs(s.final_matches_spec()[j].1),
        ) == s.ring(),
        s.history().len() >= s.capacity() ==> s.data_len_spec(s.final_matches_spec()[j].1)
            == s.capacity(),
{
    lemma_pattern_count_bound(s);
    lemma_reports_entries(s, s.pattern_count(), true);
    lemma_report_bounds(s, true, j);
    let m = s.final_matches_spec()[j].1;
    assert(window_of(s.ring(), s.data_start_ofs(m), s.data_end_ofs(m)) =~= s.ring());
}

/// With no patterns registered, nothing is ever reported.
pub proof fn lemma_no_patterns_no_reports(s: RingSearcher)
    requires
        s.pattern_count() == 0,
    ensures
        s.matches_spec() == Seq::<(usize, Match)>::empty(),
        s.final_matches_spec() == Seq::<(usize, Match)>::empty(),
{
}

} // verus!
