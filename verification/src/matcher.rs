//! The matching engine: a recursive backtracking interpreter for compiled
//! patterns, with a nine-slot capture table for groups and backreferences.

use vstd::prelude::*;

use crate::pattern::{
    alts_measure, clone_node, clone_pats, copy_range, lemma_measure_concat, lemma_measure_skip,
    lemma_view_alts_props, lemma_views, parse_pattern, pat_measure, seq_measure, seq_measure_from,
    spec_parse, str_chars, view_alts, view_node, views, Pattern, SpecPat,
};

verus! {

/// Number of capture slots: `\1` through `\9`.
pub const SLOT_COUNT: usize = 9;

/// The mathematical state of one matching attempt: the capture table and
/// the slot counter.
pub struct MatchState {
    /// The text captured so far in each slot, empty when unset.
    pub caps: Seq<Seq<char>>,
    /// The next slot a group evaluation will claim; saturates at
    /// [`SLOT_COUNT`], after which group evaluations claim dead slots.
    pub cnt: int,
}

/// What one evaluation of the engine yields: the input position where the
/// match ended (`None` on failure) and the capture state it left behind.
pub struct MatchOutcome {
    pub end: Option<int>,
    pub st: MatchState,
}

/// The state every top-level attempt starts from: all slots empty, the
/// counter at zero.
pub open spec fn init_state() -> MatchState {
    MatchState { caps: Seq::new(SLOT_COUNT as nat, |i: int| Seq::empty()), cnt: 0 }
}

/// Whether `c` is a decimal digit, the class `\d` consumes.
pub open spec fn spec_digit(c: char) -> bool {
    ('0' as u32) <= (c as u32) && (c as u32) <= ('9' as u32)
}

/// Whether `c` is alphanumeric, the class `\w` consumes; what
/// `char::is_alphanumeric` returns, a function of the character alone.
pub uninterp spec fn spec_alphanumeric(c: char) -> bool;

/// Relies on `char::is_alphanumeric`: whether a character is alphanumeric
/// is a function of the character alone.
#[verifier::external_body]
fn is_word_char(c: char) -> (r: bool)
    ensures
        r == spec_alphanumeric(c),
{
    c.is_alphanumeric()
}

/// Whether `c` is a decimal digit, as an executable test.
fn is_digit_char(c: char) -> (r: bool)
    ensures
        r == spec_digit(c),
{
    let u = c as u32;
    48 <= u && u <= 57
}

/// The slot counter after one group evaluation: it advances by one and
/// saturates at [`SLOT_COUNT`], so once every slot has been claimed,
/// further group evaluations claim the same dead slot.
pub open spec fn bump(cnt: int) -> int {
    if cnt < SLOT_COUNT {
        cnt + 1
    } else {
        cnt
    }
}

/// One step of the interpreter: evaluate the pattern suffix `pat[j..]`
/// against `input` at position `pos`, in capture state `st`.
///
/// This is the meaning of a compiled pattern.  Failure keeps the state the
/// failing path left behind: the slot counter is never rolled back, and a
/// `Cap` node erases (not restores) its slot when the rest of the pattern
/// fails.
///
/// Two choices are deliberate and worth naming.  A backreference requires
/// the captured text to stand verbatim at the current position: the text
/// is not recompiled as a pattern, so captured metacharacters behave
/// predictably (for captured text free of metacharacters the two readings
/// agree).  And a group evaluated once every slot is spent claims a dead
/// slot, whose writes are dropped, rather than running off the table.
pub open spec fn matches_from(
    input: Seq<char>,
    pos: int,
    pat: Seq<SpecPat>,
    j: int,
    st: MatchState,
) -> MatchOutcome
    decreases input.len() - pos, seq_measure_from(pat, j), 1int,
    via matches_from_decreases
{
    if j < 0 {
        MatchOutcome { end: None, st }
    } else if j >= pat.len() {
        // pattern exhausted: success, no need to consume the rest of the input
        MatchOutcome { end: Some(pos), st }
    } else if pos >= input.len() {
        // input exhausted: only a lone trailing `$`, or a lone trailing
        // capture mark (an empty capture that is never written), succeeds
        if j == pat.len() - 1 && (pat[j] is End || pat[j] is Cap) {
            MatchOutcome { end: Some(pos), st }
        } else {
            MatchOutcome { end: None, st }
        }
    } else {
        match pat[j] {
            SpecPat::Char(c) => {
                if c == '.' || input[pos] == c {
                    matches_from(input, pos + 1, pat, j + 1, st)
                } else {
                    MatchOutcome { end: None, st }
                }
            },
            SpecPat::Digit => {
                if spec_digit(input[pos]) {
                    matches_from(input, pos + 1, pat, j + 1, st)
                } else {
                    MatchOutcome { end: None, st }
                }
            },
            SpecPat::Word => {
                if spec_alphanumeric(input[pos]) {
                    matches_from(input, pos + 1, pat, j + 1, st)
                } else {
                    MatchOutcome { end: None, st }
                }
            },
            SpecPat::AnyOf(set) => {
                if set.contains(input[pos]) {
                    matches_from(input, pos + 1, pat, j + 1, st)
                } else {
                    MatchOutcome { end: None, st }
                }
            },
            SpecPat::NoneOf(set) => {
                if !set.contains(input[pos]) {
                    matches_from(input, pos + 1, pat, j + 1, st)
                } else {
                    MatchOutcome { end: None, st }
                }
            },
            SpecPat::Start => {
                if pos == 0 {
                    matches_from(input, pos, pat, j + 1, st)
                } else {
                    MatchOutcome { end: None, st }
                }
            },
            // `$` is satisfied only through the input-exhausted branch
            SpecPat::End => MatchOutcome { end: None, st },
            SpecPat::Plus(b) => plus_loop(input, pos, *b, pat, j + 1, st),
            SpecPat::Opt(b) => {
                // probe one occurrence with throwaway capture state
                let probe = matches_from(input, pos, seq![*b], 0, init_state());
                match probe.end {
                    Some(e) => {
                        if pos <= e <= input.len() {
                            let after = matches_from(input, e, pat, j + 1, st);
                            if after.end is Some {
                                after
                            } else {
                                // zero occurrences, from the state the failed try left
                                matches_from(input, pos, pat, j + 1, after.st)
                            }
                        } else {
                            matches_from(input, pos, pat, j + 1, st)
                        }
                    },
                    None => matches_from(input, pos, pat, j + 1, st),
                }
            },
            SpecPat::Alts(alts) => {
                let st1 = MatchState { caps: st.caps, cnt: bump(st.cnt) };
                group_loop(input, pos, alts, 0, st.cnt, pat.skip(j + 1), st1)
            },
            SpecPat::Backref(k) => {
                if 0 <= k < st.caps.len() && st.caps[k].len() > 0 && pos + st.caps[k].len()
                    <= input.len() && input.subrange(pos, pos + st.caps[k].len() as int)
                    == st.caps[k] {
                    matches_from(input, pos + st.caps[k].len() as int, pat, j + 1, st)
                } else {
                    // an empty slot never matches — unset and captured-empty
                    // are indistinguishable — and a mismatch fails
                    MatchOutcome { end: None, st }
                }
            },
            SpecPat::Cap(start, slot) => {
                let written = if 0 <= start <= pos && 0 <= slot < st.caps.len() {
                    st.caps.update(slot, input.subrange(start, pos))
                } else {
                    // a write outside the table is dropped
                    st.caps
                };
                let after = matches_from(
                    input,
                    pos,
                    pat,
                    j + 1,
                    MatchState { caps: written, cnt: st.cnt },
                );
                if after.end is Some {
                    after
                } else {
                    // the one undo action: erase the just-written slot
                    let erased = if 0 <= slot < after.st.caps.len() {
                        after.st.caps.update(slot, Seq::empty())
                    } else {
                        after.st.caps
                    };
                    MatchOutcome { end: None, st: MatchState { caps: erased, cnt: after.st.cnt } }
                }
            },
        }
    }
}

/// `+`: evaluate `inner` once from `pos`; after each successful extension
/// try the rest of the pattern from where the repetition ended, extending
/// again on failure for as long as `inner` keeps matching and keeps
/// consuming input.
pub open spec fn plus_loop(
    input: Seq<char>,
    pos: int,
    inner: SpecPat,
    pat: Seq<SpecPat>,
    jrest: int,
    st: MatchState,
) -> MatchOutcome
    decreases input.len() - pos, pat_measure(inner) + 1 + seq_measure_from(pat, jrest), 0int,
    via plus_loop_decreases
{
    // probe one repetition with throwaway capture state
    let probe = matches_from(input, pos, seq![inner], 0, init_state());
    match probe.end {
        None => MatchOutcome { end: None, st },
        Some(e) => {
            if pos <= e <= input.len() {
                let after = matches_from(input, e, pat, jrest, st);
                if after.end is Some {
                    after
                } else if e > pos {
                    plus_loop(input, e, inner, pat, jrest, after.st)
                } else {
                    // a repetition that consumed nothing cannot be extended
                    MatchOutcome { end: None, st: after.st }
                }
            } else {
                MatchOutcome { end: None, st }
            }
        },
    }
}

/// A group: try each alternative in order, each as a continuation built
/// from the alternative, a capture mark for `slot`, and the rest of the
/// pattern; the first alternative whose continuation succeeds end-to-end
/// wins.
pub open spec fn group_loop(
    input: Seq<char>,
    pos: int,
    alts: Seq<Seq<SpecPat>>,
    k: int,
    slot: int,
    rest: Seq<SpecPat>,
    st: MatchState,
) -> MatchOutcome
    decreases input.len() - pos, alts_measure(alts, k) + 1 + seq_measure(rest), 0int,
    via group_loop_decreases
{
    if k < 0 || k >= alts.len() {
        MatchOutcome { end: None, st }
    } else {
        let cont = alts[k] + seq![SpecPat::Cap(pos, slot)] + rest;
        let attempt = matches_from(input, pos, cont, 0, st);
        if attempt.end is Some {
            attempt
        } else {
            group_loop(input, pos, alts, k + 1, slot, rest, attempt.st)
        }
    }
}

#[via_fn]
proof fn matches_from_decreases(
    input: Seq<char>,
    pos: int,
    pat: Seq<SpecPat>,
    j: int,
    st: MatchState,
) {
    if 0 <= j < pat.len() && pos < input.len() {
        assert(seq_measure_from(pat, j) == pat_measure(pat[j]) + seq_measure_from(pat, j + 1));
        match pat[j] {
            SpecPat::Plus(b) => {
                assert(pat_measure(pat[j]) == 2 + pat_measure(*b));
            },
            SpecPat::Opt(b) => {
                assert(pat_measure(pat[j]) == 2 + pat_measure(*b));
                assert(seq![*b][0] == *b);
                assert(seq_measure_from(seq![*b], 1) == 0);
                assert(seq_measure_from(seq![*b], 0) == pat_measure(*b));
            },
            SpecPat::Alts(alts) => {
                lemma_measure_skip(pat, j + 1);
                assert(pat_measure(pat[j]) == 2 + alts_measure(alts, 0));
            },
            _ => {
                assert(pat_measure(pat[j]) >= 1);
            },
        }
    }
}

#[via_fn]
proof fn plus_loop_decreases(
    input: Seq<char>,
    pos: int,
    inner: SpecPat,
    pat: Seq<SpecPat>,
    jrest: int,
    st: MatchState,
) {
    assert(seq![inner][0] == inner);
    assert(seq_measure_from(seq![inner], 1) == 0);
    assert(seq_measure_from(seq![inner], 0) == pat_measure(inner));
}

#[via_fn]
proof fn group_loop_decreases(
    input: Seq<char>,
    pos: int,
    alts: Seq<Seq<SpecPat>>,
    k: int,
    slot: int,
    rest: Seq<SpecPat>,
    st: MatchState,
) {
    if 0 <= k < alts.len() {
        let mid = seq![SpecPat::Cap(pos, slot)];
        lemma_measure_concat(alts[k] + mid, rest);
        lemma_measure_concat(alts[k], mid);
        assert(mid[0] == SpecPat::Cap(pos, slot));
        assert(seq_measure_from(mid, 1) == 0);
        assert(pat_measure(mid[0]) == 1);
        assert(seq_measure_from(mid, 0) == pat_measure(mid[0]) + seq_measure_from(mid, 1));
        assert(seq_measure(mid) == 1);
        assert(alts_measure(alts, k) == 1 + seq_measure_from(alts[k], 0) + alts_measure(
            alts,
            k + 1,
        ));
        assert(seq_measure(alts[k] + mid + rest) == seq_measure(alts[k]) + 1 + seq_measure(rest));
    }
}

/// The position a run of the engine reports, as the model sees it.
pub open spec fn outcome_of(r: Option<usize>) -> Option<int> {
    match r {
        Some(e) => Some(e as int),
        None => None,
    }
}

/// Whether `c` is one of the characters in `set`.
fn contains_char(set: &Vec<char>, c: char) -> (r: bool)
    ensures
        r == set@.contains(c),
{
    let mut i: usize = 0;
    while i < set.len()
        invariant
            i <= set@.len(),
            forall|t: int| 0 <= t < i ==> set@[t] != c,
        decreases set@.len() - i,
    {
        if set[i] == c {
            return true;
        }
        i += 1;
    }
    false
}

/// Whether `text` occurs verbatim in `input` at position `pos`.
fn text_matches_at(input: &Vec<char>, pos: usize, text: &Vec<char>) -> (r: bool)
    requires
        pos + text@.len() <= input@.len(),
    ensures
        r == (input@.subrange(pos as int, pos + text@.len()) == text@),
{
    let n = text.len();
    let ilen = input.len();
    let mut t: usize = 0;
    while t < n
        invariant
            t <= n == text@.len(),
            ilen == input@.len(),
            pos + n <= input@.len(),
            forall|q: int| 0 <= q < t ==> input@[pos + q] == text@[q],
        decreases n - t,
    {
        if input[pos + t] != text[t] {
            proof {
                assert(input@.subrange(pos as int, pos + text@.len())[t as int] == input@[pos + t]);
            }
            return false;
        }
        t += 1;
    }
    proof {
        assert(input@.subrange(pos as int, pos + text@.len()) =~= text@);
    }
    true
}

/// A one-node pattern holding a copy of `p`, the probe a quantifier runs.
fn single_vec(p: &Pattern) -> (r: Vec<Pattern>)
    ensures
        views(r@) == seq![view_node(*p)],
{
    let mut r: Vec<Pattern> = Vec::new();
    r.push(clone_node(p));
    proof {
        lemma_views(r@);
        assert(views(r@) =~= seq![view_node(*p)]);
    }
    r
}

/// One unfolding of the sequence measure.
proof fn lemma_suffix_measure(pat: Seq<SpecPat>, j: int)
    requires
        0 <= j < pat.len(),
    ensures
        seq_measure_from(pat, j) == pat_measure(pat[j]) + seq_measure_from(pat, j + 1),
{
}

/// A top-level attempt at offset `i`: the whole pattern, evaluated in a
/// fresh capture state.
pub open spec fn attempt(input: Seq<char>, pat: Seq<SpecPat>, i: int) -> MatchOutcome {
    matches_from(input, i, pat, 0, init_state())
}

/// The first offset at or after `i` whose attempt succeeds, or
/// `input.len()` when none does.
pub open spec fn first_hit_from(input: Seq<char>, pat: Seq<SpecPat>, i: int) -> int
    decreases input.len() - i,
{
    if i < 0 || i >= input.len() {
        input.len() as int
    } else if attempt(input, pat, i).end is Some {
        i
    } else {
        first_hit_from(input, pat, i + 1)
    }
}

/// Whether the pattern occurs somewhere in the input: some start offset
/// below `input.len()` admits a match.  On empty input every search
/// fails, whatever the pattern.
pub open spec fn spec_search(input: Seq<char>, pat: Seq<SpecPat>) -> bool {
    exists|i: int|
        0 <= i < input.len() && (#[trigger] attempt(input, pat, i)).end is Some
}

/// The capture state a search leaves behind: that of the attempt it
/// stopped at — the first hit, or the last offset when every attempt
/// fails — and the untouched original state on empty input.
pub open spec fn search_state(input: Seq<char>, pat: Seq<SpecPat>, orig: MatchState) -> MatchState {
    if input.len() == 0 {
        orig
    } else {
        let h = first_hit_from(input, pat, 0);
        let stop = if h < input.len() {
            h
        } else {
            input.len() - 1
        };
        attempt(input, pat, stop).st
    }
}

/// What [`first_hit_from`] finds: the first success at or after `i`,
/// with every earlier attempt failing.
pub proof fn lemma_first_hit(input: Seq<char>, pat: Seq<SpecPat>, i: int)
    requires
        0 <= i <= input.len(),
    ensures
        ({
            let h = first_hit_from(input, pat, i);
            &&& i <= h <= input.len()
            &&& (h < input.len() ==> (#[trigger] attempt(input, pat, h)).end is Some)
            &&& forall|k: int|
                i <= k < h ==> (#[trigger] attempt(input, pat, k)).end is None
        }),
    decreases input.len() - i,
{
    if i < input.len() && !(attempt(input, pat, i).end is Some) {
        lemma_first_hit(input, pat, i + 1);
    }
}

/// The backtracking matcher.
pub struct Matcher {
    captured: Vec<Vec<char>>,
    capture_count: usize,
}

impl Matcher {
    /// The capture table always holds exactly [`SLOT_COUNT`] slots.
    pub closed spec fn wf(&self) -> bool {
        self.captured@.len() == SLOT_COUNT
    }

    /// The mathematical state this matcher is in.
    pub closed spec fn state(&self) -> MatchState {
        MatchState { caps: self.captured@.map_values(|v: Vec<char>| v@), cnt: self.capture_count as int }
    }

    /// A matcher with every slot empty and the counter at zero.
    pub fn new() -> (m: Matcher)
        ensures
            m.wf(),
            m.state() == init_state(),
    {
        let mut captured: Vec<Vec<char>> = Vec::new();
        let mut i: usize = 0;
        while i < SLOT_COUNT
            invariant
                i <= SLOT_COUNT,
                captured@.len() == i,
                forall|k: int| 0 <= k < i ==> captured@[k]@ == Seq::<char>::empty(),
            decreases SLOT_COUNT - i,
        {
            captured.push(Vec::new());
            i += 1;
        }
        let m = Matcher { captured, capture_count: 0 };
        proof {
            assert(m.state().caps =~= init_state().caps);
        }
        m
    }

    /// Evaluate the pattern suffix `pat[j..]` against `input` at position
    /// `pos`; returns where the match ended, exactly as [`matches_from`]
    /// says, and leaves the capture state [`matches_from`] says.
    fn match_helper(&mut self, input: &Vec<char>, pos: usize, pat: &Vec<Pattern>, j: usize) -> (r:
        Option<usize>)
        ensures
            ({
                let o = matches_from(
                    input@,
                    pos as int,
                    views(pat@),
                    j as int,
                    old(self).state(),
                );
                final(self).state() == o.st && o.end == outcome_of(r)
            }),
            old(self).wf() ==> final(self).wf(),
        decreases input@.len() - pos, seq_measure_from(views(pat@), j as int), 1int,
    {
        proof {
            lemma_views(pat@);
        }
        let ghost gpat = views(pat@);
        let ghost st0 = self.state();
        if j >= pat.len() {
            return Some(pos);
        }
        if pos >= input.len() {
            let at_last = j == pat.len() - 1;
            let closing = match &pat[j] {
                Pattern::LineEnd => true,
                Pattern::Capture(_, _) => true,
                _ => false,
            };
            if at_last && closing {
                return Some(pos);
            } else {
                return None;
            }
        }
        match &pat[j] {
            Pattern::Character(c) => {
                if *c == '.' || input[pos] == *c {
                    self.match_helper(input, pos + 1, pat, j + 1)
                } else {
                    None
                }
            },
            Pattern::Digit => {
                if is_digit_char(input[pos]) {
                    self.match_helper(input, pos + 1, pat, j + 1)
                } else {
                    None
                }
            },
            Pattern::AlphaNumeric => {
                if is_word_char(input[pos]) {
                    self.match_helper(input, pos + 1, pat, j + 1)
                } else {
                    None
                }
            },
            Pattern::AnyCharacter(set) => {
                if contains_char(set, input[pos]) {
                    self.match_helper(input, pos + 1, pat, j + 1)
                } else {
                    None
                }
            },
            Pattern::NoneCharacter(set) => {
                if !contains_char(set, input[pos]) {
                    self.match_helper(input, pos + 1, pat, j + 1)
                } else {
                    None
                }
            },
            Pattern::LineStart => {
                if pos == 0 {
                    proof {
                        lemma_suffix_measure(gpat, j as int);
                    }
                    self.match_helper(input, pos, pat, j + 1)
                } else {
                    None
                }
            },
            Pattern::LineEnd => None,
            Pattern::OneOrMore(b) => {
                proof {
                    lemma_suffix_measure(gpat, j as int);
                }
                self.plus_helper(input, pos, &**b, pat, j + 1)
            },
            Pattern::ZeroOrOne(b) => {
                let single = single_vec(&**b);
                proof {
                    lemma_suffix_measure(gpat, j as int);
                    assert(seq_measure_from(views(single@), 1) == 0);
                    assert(seq_measure_from(views(single@), 0) == pat_measure(view_node(**b)));
                }
                let mut probe = Matcher::new();
                match probe.match_helper(input, pos, &single, 0) {
                    Some(e) => {
                        if pos <= e && e <= input.len() {
                            let after = self.match_helper(input, e, pat, j + 1);
                            if after.is_some() {
                                after
                            } else {
                                self.match_helper(input, pos, pat, j + 1)
                            }
                        } else {
                            self.match_helper(input, pos, pat, j + 1)
                        }
                    },
                    None => self.match_helper(input, pos, pat, j + 1),
                }
            },
            Pattern::Group(g) => {
                let slot = self.capture_count;
                if self.capture_count < SLOT_COUNT {
                    self.capture_count = self.capture_count + 1;
                }
                proof {
                    lemma_suffix_measure(gpat, j as int);
                    lemma_measure_skip(gpat, j + 1);
                    assert(self.state() == MatchState { caps: st0.caps, cnt: bump(st0.cnt) });
                }
                self.group_helper(input, pos, g, 0, slot, pat, j + 1)
            },
            Pattern::Backreference(bk) => {
                let kk = *bk;
                if kk < self.captured.len() {
                    let cap_len = self.captured[kk].len();
                    if cap_len > 0 && cap_len <= input.len() - pos {
                        if text_matches_at(input, pos, &self.captured[kk]) {
                            self.match_helper(input, pos + cap_len, pat, j + 1)
                        } else {
                            None
                        }
                    } else {
                        None
                    }
                } else {
                    None
                }
            },
            Pattern::Capture(s, cs) => {
                let start = *s;
                let cslot = *cs;
                if start <= pos && cslot < self.captured.len() {
                    let text = copy_range(input, start, pos);
                    self.captured[cslot] = text;
                    proof {
                        assert(self.state().caps =~= st0.caps.update(
                            cslot as int,
                            input@.subrange(start as int, pos as int),
                        ));
                    }
                }
                proof {
                    lemma_suffix_measure(gpat, j as int);
                }
                let after = self.match_helper(input, pos, pat, j + 1);
                match after {
                    Some(e) => Some(e),
                    None => {
                        let ghost stf = self.state();
                        if cslot < self.captured.len() {
                            self.captured[cslot] = Vec::new();
                            proof {
                                assert(self.state().caps =~= stf.caps.update(
                                    cslot as int,
                                    Seq::<char>::empty(),
                                ));
                            }
                        }
                        None
                    },
                }
            },
        }
    }

    /// One or more repetitions of `inner`, then the pattern suffix
    /// `pat[jrest..]`, exactly as [`plus_loop`] says.
    fn plus_helper(
        &mut self,
        input: &Vec<char>,
        pos: usize,
        inner: &Pattern,
        pat: &Vec<Pattern>,
        jrest: usize,
    ) -> (r: Option<usize>)
        ensures
            ({
                let o = plus_loop(
                    input@,
                    pos as int,
                    view_node(*inner),
                    views(pat@),
                    jrest as int,
                    old(self).state(),
                );
                final(self).state() == o.st && o.end == outcome_of(r)
            }),
            old(self).wf() ==> final(self).wf(),
        decreases
                input@.len() - pos,
                pat_measure(view_node(*inner)) + 1 + seq_measure_from(views(pat@), jrest as int),
                0int,
    {
        let single = single_vec(inner);
        proof {
            assert(seq_measure_from(views(single@), 1) == 0);
            assert(seq_measure_from(views(single@), 0) == pat_measure(view_node(*inner)));
        }
        let mut probe = Matcher::new();
        match probe.match_helper(input, pos, &single, 0) {
            None => None,
            Some(e) => {
                if pos <= e && e <= input.len() {
                    let after = self.match_helper(input, e, pat, jrest);
                    if after.is_some() {
                        after
                    } else if e > pos {
                        self.plus_helper(input, e, inner, pat, jrest)
                    } else {
                        None
                    }
                } else {
                    None
                }
            },
        }
    }

    /// The alternatives of a group from index `k` on, each continued by a
    /// capture mark for `slot` and the pattern suffix `pat[jrest..]`,
    /// exactly as [`group_loop`] says.
    fn group_helper(
        &mut self,
        input: &Vec<char>,
        pos: usize,
        alts: &Vec<Vec<Pattern>>,
        k: usize,
        slot: usize,
        pat: &Vec<Pattern>,
        jrest: usize,
    ) -> (r: Option<usize>)
        requires
            jrest <= pat@.len(),
        ensures
            ({
                let o = group_loop(
                    input@,
                    pos as int,
                    view_alts(alts@, 0),
                    k as int,
                    slot as int,
                    views(pat@).skip(jrest as int),
                    old(self).state(),
                );
                final(self).state() == o.st && o.end == outcome_of(r)
            }),
            old(self).wf() ==> final(self).wf(),
        decreases
                input@.len() - pos,
                alts_measure(view_alts(alts@, 0), k as int) + 1 + seq_measure(
                    views(pat@).skip(jrest as int),
                ),
                0int,
    {
        proof {
            lemma_view_alts_props(alts@, 0);
            lemma_views(pat@);
        }
        let ghost galt = view_alts(alts@, 0);
        let ghost grest = views(pat@).skip(jrest as int);
        if k >= alts.len() {
            return None;
        }
        // the continuation: alternative k, a capture mark, the rest
        let mut cont = clone_pats(&alts[k]);
        let ghost n = cont@.len();
        proof {
            lemma_views(cont@);
            lemma_views(alts@[k as int]@);
        }
        cont.push(Pattern::Capture(pos, slot));
        let mut t = jrest;
        while t < pat.len()
            invariant
                jrest <= t <= pat@.len(),
                n == alts@[k as int]@.len(),
                k < alts@.len(),
                cont@.len() == n + 1 + (t - jrest),
                forall|q: int|
                    0 <= q < n ==> view_node(#[trigger] cont@[q]) == view_node(alts@[k as int]@[q]),
                view_node(cont@[n as int]) == SpecPat::Cap(pos as int, slot as int),
                forall|q: int|
                    n + 1 <= q < cont@.len() ==> view_node(#[trigger] cont@[q]) == view_node(
                        pat@[jrest + q - n - 1],
                    ),
            decreases pat@.len() - t,
        {
            cont.push(clone_node(&pat[t]));
            t += 1;
        }
        proof {
            lemma_views(cont@);
            lemma_views(alts@[k as int]@);
            let mid = seq![SpecPat::Cap(pos as int, slot as int)];
            assert(views(cont@) =~= galt[k as int] + mid + grest);
            // the continuation is smaller than the group it came from
            lemma_measure_concat(galt[k as int] + mid, grest);
            lemma_measure_concat(galt[k as int], mid);
            assert(pat_measure(mid[0]) == 1);
            assert(seq_measure_from(mid, 1) == 0);
            assert(seq_measure_from(mid, 0) == pat_measure(mid[0]) + seq_measure_from(mid, 1));
            assert(alts_measure(galt, k as int) == 1 + seq_measure_from(galt[k as int], 0)
                + alts_measure(galt, k + 1));
        }
        let attempt = self.match_helper(input, pos, &cont, 0);
        match attempt {
            Some(e) => Some(e),
            None => self.group_helper(input, pos, alts, k + 1, slot, pat, jrest),
        }
    }

    /// Empty every slot and zero the counter, the state a top-level
    /// attempt starts from.
    fn reset(&mut self)
        requires
            old(self).wf(),
        ensures
            final(self).wf(),
            final(self).state() == init_state(),
    {
        self.capture_count = 0;
        let mut k: usize = 0;
        while k < SLOT_COUNT
            invariant
                self.captured@.len() == SLOT_COUNT,
                self.capture_count == 0,
                k <= SLOT_COUNT,
                forall|q: int| 0 <= q < k ==> self.captured@[q]@ == Seq::<char>::empty(),
            decreases SLOT_COUNT - k,
        {
            self.captured[k] = Vec::new();
            k += 1;
        }
        proof {
            assert(self.state().caps =~= init_state().caps);
        }
    }

    /// Whether the pattern occurs somewhere in the input.
    ///
    /// The pattern is compiled, then tried at every start offset in
    /// increasing order; each attempt begins from a fresh capture state,
    /// and the table is left as the deciding attempt left it — so after a
    /// failed search every slot reads back empty except what the very
    /// last attempt left, and after a hit the slots hold that attempt's
    /// captures.
    pub fn match_pattern(&mut self, input: &str, pattern: &str) -> (r: bool)
        requires
            old(self).wf(),
            spec_parse(pattern@) is Some,
        ensures
            final(self).wf(),
            spec_parse(pattern@) matches Some(ps) ==> r == spec_search(input@, ps)
                && final(self).state() == search_state(input@, ps, old(self).state()),
    {
        let chars = str_chars(input);
        let pat = parse_pattern(pattern);
        let ghost gps = views(pat@);
        let n = chars.len();
        if n == 0 {
            return false;
        }
        let mut i: usize = 0;
        loop
            invariant
                0 < n == chars@.len(),
                chars@ == input@,
                0 <= i < n,
                self.wf(),
                gps == views(pat@),
                spec_parse(pattern@) == Some(gps),
                forall|k: int|
                    0 <= k < i ==> (#[trigger] attempt(chars@, gps, k)).end is None,
                i == 0 ==> self == old(self),
                i > 0 ==> self.state() == attempt(chars@, gps, i - 1).st,
            decreases n - i,
        {
            self.reset();
            let hit = self.match_helper(&chars, i, &pat, 0);
            if hit.is_some() {
                proof {
                    lemma_first_hit(chars@, gps, 0);
                    let h = first_hit_from(chars@, gps, 0);
                    assert(attempt(chars@, gps, i as int).end is Some);
                    if h < i {
                        assert(attempt(chars@, gps, h).end is Some);
                        assert(attempt(chars@, gps, h).end is None);
                    }
                    if h > i {
                        assert(attempt(chars@, gps, i as int).end is None);
                    }
                    assert(h == i);
                }
                return true;
            }
            if i + 1 == n {
                proof {
                    lemma_first_hit(chars@, gps, 0);
                    let h = first_hit_from(chars@, gps, 0);
                    assert(forall|k: int|
                        0 <= k < n ==> (#[trigger] attempt(chars@, gps, k)).end is None);
                    assert(h == n);
                }
                return false;
            }
            i += 1;
        }
    }

    /// The text currently captured in `slot`, empty when the slot is
    /// unset.
    pub fn captured_at(&self, slot: usize) -> (r: &Vec<char>)
        requires
            self.wf(),
            slot < SLOT_COUNT,
        ensures
            r@ == self.state().caps[slot as int],
    {
        &self.captured[slot]
    }
}

} // verus!
