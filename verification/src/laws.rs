//! Laws the engine obeys, stated and proved against the models in
//! [`crate::pattern`] and [`crate::matcher`].

use vstd::prelude::*;

use crate::matcher::{attempt, init_state, matches_from, spec_search, MatchState};
use crate::pattern::{parse_at, spec_parse, SpecPat};

verus! {

/// The characters the compiler treats specially anywhere in a pattern,
/// plus `.`, which the engine treats as a wildcard.
pub open spec fn is_meta(c: char) -> bool {
    c == '\\' || c == '[' || c == ']' || c == '(' || c == ')' || c == '^' || c == '$' || c == '+'
        || c == '?' || c == '|' || c == '.'
}

/// A pattern with no metacharacters at all.
pub open spec fn is_plain(s: Seq<char>) -> bool {
    forall|i: int| 0 <= i < s.len() ==> !is_meta(#[trigger] s[i])
}

/// Whether `ps` is the literal reading of `s`: one `Char` node per
/// character, in order.
pub open spec fn all_lit(ps: Seq<SpecPat>, s: Seq<char>) -> bool {
    ps.len() == s.len() && (forall|k: int|
        0 <= k < ps.len() ==> #[trigger] ps[k] == SpecPat::Char(s[k]))
}

/// The scan step on one plain character, with the character and the
/// extended accumulator as their own arguments.
proof fn lemma_scan_plain_step(
    s: Seq<char>,
    i: int,
    acc: Seq<SpecPat>,
    acc2: Seq<SpecPat>,
    c: char,
)
    requires
        0 <= i < s.len(),
        c == s[i],
        !is_meta(c),
        acc2 == acc.push(SpecPat::Char(c)),
    ensures
        parse_at(s, i, acc) == parse_at(s, i + 1, acc2),
{
}

/// What pushing one node does to a sequence, element by element.
proof fn lemma_push_facts(s: Seq<SpecPat>, v: SpecPat, s2: Seq<SpecPat>)
    requires
        s2 == s.push(v),
    ensures
        s2.len() == s.len() + 1,
        forall|k: int| 0 <= k < s.len() ==> #[trigger] s2[k] == s[k],
        s2[s.len() as int] == v,
{
}

/// Compiling a pattern with no metacharacters always succeeds and yields
/// exactly one literal node per character.
pub proof fn lemma_plain_parse(s: Seq<char>)
    requires
        is_plain(s),
    ensures
        spec_parse(s) matches Some(ps) && all_lit(ps, s),
{
    lemma_plain_parse_at(s, 0, Seq::empty());
}

proof fn lemma_plain_parse_at(s: Seq<char>, i: int, acc: Seq<SpecPat>)
    requires
        is_plain(s),
        0 <= i <= s.len(),
    ensures
        parse_at(s, i, acc) matches Some(res) && res.len() == acc.len() + s.len() - i && (
        forall|k: int| 0 <= k < acc.len() ==> #[trigger] res[k] == acc[k]) && (forall|k: int|
            acc.len() <= k < res.len() ==> #[trigger] res[k] == SpecPat::Char(
                s[i + k - acc.len()],
            )),
    decreases s.len() - i,
{
    if i < s.len() {
        let acc2 = acc.push(SpecPat::Char(s[i]));
        lemma_scan_plain_step(s, i, acc, acc2, s[i]);
        lemma_push_facts(acc, SpecPat::Char(s[i]), acc2);
        lemma_plain_parse_at(s, i + 1, acc2);
        let res = parse_at(s, i + 1, acc2)->0;
        assert(parse_at(s, i, acc) == parse_at(s, i + 1, acc2));
        assert forall|k: int| 0 <= k < acc.len() implies #[trigger] res[k] == acc[k] by {
            assert(res[k] == acc2[k]);
        }
        assert forall|k: int|
            acc.len() <= k < res.len() implies #[trigger] res[k] == SpecPat::Char(
            s[i + k - acc.len()],
        ) by {
            if k == acc.len() {
                assert(res[k] == acc2[k]);
            } else {
                assert(res[k] == SpecPat::Char(s[i + 1 + k - acc2.len()]));
                assert(i + 1 + k - acc2.len() == i + k - acc.len());
            }
        }
    }
}

/// What a run of literal nodes means: the engine consumes exactly the
/// remaining characters of the pattern, succeeds exactly when they stand
/// verbatim at the current position, and never touches the capture
/// state.
pub proof fn lemma_lits_match(
    input: Seq<char>,
    s: Seq<char>,
    lits: Seq<SpecPat>,
    pos: int,
    j: int,
    st: MatchState,
)
    requires
        is_plain(s),
        all_lit(lits, s),
        0 <= j <= s.len(),
        0 <= pos <= input.len(),
    ensures
        ({
            let o = matches_from(input, pos, lits, j, st);
            &&& o.st == st
            &&& o.end == (if pos + (s.len() - j) <= input.len() && input.subrange(
                pos,
                pos + (s.len() - j),
            ) == s.skip(j) {
                Some(pos + (s.len() - j))
            } else {
                None::<int>
            })
        }),
    decreases s.len() - j,
{
    let o = matches_from(input, pos, lits, j, st);
    if j == s.len() {
        assert(input.subrange(pos, pos) =~= s.skip(j));
    } else {
        assert(lits[j] == SpecPat::Char(s[j]));
        assert(!is_meta(s[j]));
        if pos >= input.len() {
            // one literal at least remains, but no input
            assert(o.end is None);
            assert(pos + (s.len() - j) > input.len());
        } else if input[pos] == s[j] {
            lemma_lits_match(input, s, lits, pos + 1, j + 1, st);
            assert(o == matches_from(input, pos + 1, lits, j + 1, st));
            if pos + (s.len() - j) <= input.len() && input.subrange(pos, pos + (s.len() - j))
                == s.skip(j) {
                assert(input.subrange(pos + 1, pos + 1 + (s.len() - j - 1)) =~= s.skip(j + 1))
                    by {
                    assert forall|q: int|
                        0 <= q < s.len() - j - 1 implies #[trigger] input.subrange(
                        pos + 1,
                        pos + 1 + (s.len() - j - 1),
                    )[q] == s.skip(j + 1)[q] by {
                        assert(input.subrange(pos, pos + (s.len() - j))[q + 1] == s.skip(j)[q
                            + 1]);
                    }
                }
            } else {
                if pos + (s.len() - j) <= input.len() {
                    // the longer run cannot match either: the texts differ
                    if input.subrange(pos + 1, pos + 1 + (s.len() - j - 1)) == s.skip(j + 1) {
                        assert(input.subrange(pos, pos + (s.len() - j)) =~= s.skip(j)) by {
                            assert forall|q: int|
                                0 <= q < s.len() - j implies #[trigger] input.subrange(
                                pos,
                                pos + (s.len() - j),
                            )[q] == s.skip(j)[q] by {
                                if q > 0 {
                                    assert(input.subrange(
                                        pos + 1,
                                        pos + 1 + (s.len() - j - 1),
                                    )[q - 1] == s.skip(j + 1)[q - 1]);
                                }
                            }
                        }
                    }
                }
            }
        } else {
            assert(o.end is None);
            if pos + (s.len() - j) <= input.len() && input.subrange(pos, pos + (s.len() - j))
                == s.skip(j) {
                assert(input.subrange(pos, pos + (s.len() - j))[0] == s.skip(j)[0]);
                assert(false);
            }
        }
    }
}

/// A pattern with no metacharacters is found in a text exactly when it
/// occurs verbatim as a contiguous substring of it.  The one reading this
/// leaves out: on an empty text the engine tries no start offset at all,
/// so not even the empty pattern is found there.
pub proof fn lemma_plain_search(pattern: Seq<char>, text: Seq<char>)
    requires
        is_plain(pattern),
        pattern.len() > 0 || text.len() > 0,
    ensures
        spec_parse(pattern) matches Some(ps) && (spec_search(text, ps) <==> exists|i: int|
            0 <= i && i + pattern.len() <= text.len() && #[trigger] text.subrange(
                i,
                i + pattern.len(),
            ) == pattern),
{
    lemma_plain_parse(pattern);
    let ps = spec_parse(pattern)->0;
    let plen = pattern.len() as int;
    assert(pattern.skip(0) =~= pattern);
    if spec_search(text, ps) {
        let w = choose|i: int|
            0 <= i < text.len() && (#[trigger] attempt(text, ps, i)).end is Some;
        lemma_lits_match(text, pattern, ps, w, 0, init_state());
        assert(text.subrange(w, w + plen) == pattern);
    }
    if exists|i: int|
        0 <= i && i + pattern.len() <= text.len() && #[trigger] text.subrange(
            i,
            i + pattern.len(),
        ) == pattern {
        let w = choose|i: int|
            0 <= i && i + pattern.len() <= text.len() && #[trigger] text.subrange(
                i,
                i + pattern.len(),
            ) == pattern;
        if plen > 0 {
            lemma_lits_match(text, pattern, ps, w, 0, init_state());
            assert(attempt(text, ps, w).end is Some);
            assert(spec_search(text, ps));
        } else {
            lemma_lits_match(text, pattern, ps, 0, 0, init_state());
            assert(text.subrange(0, 0) =~= pattern);
            assert(attempt(text, ps, 0).end is Some);
            assert(spec_search(text, ps));
        }
    }
}

/// Compiling the same pattern string twice yields structurally identical
/// node sequences: compilation is a function of the pattern text alone.
pub proof fn lemma_compile_deterministic(s: Seq<char>, r1: Seq<SpecPat>, r2: Seq<SpecPat>)
    requires
        spec_parse(s) == Some(r1),
        spec_parse(s) == Some(r2),
    ensures
        r1 == r2,
{
}

} // verus!
