//! The pattern compiler: pattern strings, their abstract syntax, and the
//! mathematical model of both.

use vstd::prelude::*;

verus! {

/// One node of a compiled pattern.
///
/// A compiled pattern is an ordered `Vec<Pattern>`; the matcher walks it
/// left to right.  `Capture` never comes out of the compiler: the matcher
/// inserts it while evaluating a `Group` to mark where the captured text
/// ends.
#[derive(Debug, PartialEq)]
pub enum Pattern {
    /// A literal character; `'.'` is interpreted by the matcher as a
    /// wildcard that consumes any single character.
    Character(char),
    /// `\d`: one decimal digit.
    Digit,
    /// `\w`: one alphanumeric character.
    AlphaNumeric,
    /// `[...]`: one character out of the listed set.
    AnyCharacter(Vec<char>),
    /// `[^...]`: one character not in the listed set.
    NoneCharacter(Vec<char>),
    /// `^`: zero-width, holds only at the very start of the input.
    LineStart,
    /// `$`: zero-width, holds only at the very end of the input.
    LineEnd,
    /// `+`: one or more repetitions of the wrapped node.
    OneOrMore(Box<Pattern>),
    /// `?`: zero or one occurrence of the wrapped node.
    ZeroOrOne(Box<Pattern>),
    /// `(...)`: ordered alternatives, each itself a pattern sequence.
    Group(Vec<Vec<Pattern>>),
    /// `\1`..`\9`: match the text captured by the numbered group
    /// (zero-based slot index).
    Backreference(usize),
    /// Synthetic node holding `(start offset, slot index)`: write
    /// `input[start..here]` into the slot, undo the write if the rest of
    /// the pattern fails.
    Capture(usize, usize),
}

/// The mathematical shape of a pattern node, mirroring [`Pattern`] with
/// `Seq` in place of `Vec`.  Contracts speak of this type.
pub enum SpecPat {
    Char(char),
    Digit,
    Word,
    AnyOf(Seq<char>),
    NoneOf(Seq<char>),
    Start,
    End,
    Plus(Box<SpecPat>),
    Opt(Box<SpecPat>),
    Alts(Seq<Seq<SpecPat>>),
    Backref(int),
    Cap(int, int),
}

/// The model of a single node.
pub open spec fn view_node(p: Pattern) -> SpecPat
    decreases p, 0int, 0int,
{
    match p {
        Pattern::Character(c) => SpecPat::Char(c),
        Pattern::Digit => SpecPat::Digit,
        Pattern::AlphaNumeric => SpecPat::Word,
        Pattern::AnyCharacter(v) => SpecPat::AnyOf(v@),
        Pattern::NoneCharacter(v) => SpecPat::NoneOf(v@),
        Pattern::LineStart => SpecPat::Start,
        Pattern::LineEnd => SpecPat::End,
        Pattern::OneOrMore(b) => SpecPat::Plus(Box::new(view_node(*b))),
        Pattern::ZeroOrOne(b) => SpecPat::Opt(Box::new(view_node(*b))),
        Pattern::Group(g) => SpecPat::Alts(view_alts(g@, 0)),
        Pattern::Backreference(k) => SpecPat::Backref(k as int),
        Pattern::Capture(s, k) => SpecPat::Cap(s as int, k as int),
    }
}

/// The models of the alternatives of a group, from index `i` on.
pub open spec fn view_alts(alts: Seq<Vec<Pattern>>, i: int) -> Seq<Seq<SpecPat>>
    decreases alts, 1int, alts.len() - i,
{
    if i < 0 || i >= alts.len() {
        Seq::empty()
    } else {
        seq![view_seq(alts[i]@, 0)] + view_alts(alts, i + 1)
    }
}

/// The models of a node sequence, from index `i` on.
pub open spec fn view_seq(ps: Seq<Pattern>, i: int) -> Seq<SpecPat>
    decreases ps, 1int, ps.len() - i,
{
    if i < 0 || i >= ps.len() {
        Seq::empty()
    } else {
        seq![view_node(ps[i])] + view_seq(ps, i + 1)
    }
}

/// The model of a whole compiled pattern.
pub open spec fn views(ps: Seq<Pattern>) -> Seq<SpecPat> {
    view_seq(ps, 0)
}

/// How [`view_seq`] reads off a sequence: one model per node.
pub proof fn lemma_view_seq_props(ps: Seq<Pattern>, i: int)
    requires
        0 <= i <= ps.len(),
    ensures
        view_seq(ps, i).len() == ps.len() - i,
        forall|k: int|
            0 <= k < ps.len() - i ==> view_seq(ps, i)[k] == view_node(ps[i + k]),
    decreases ps.len() - i,
{
    if i < ps.len() {
        lemma_view_seq_props(ps, i + 1);
        assert forall|k: int| 0 <= k < ps.len() - i implies view_seq(ps, i)[k] == view_node(
            ps[i + k],
        ) by {
            if k > 0 {
                assert(view_seq(ps, i)[k] == view_seq(ps, i + 1)[k - 1]);
            }
        }
    }
}

/// How [`views`] reads off a whole pattern: one model per node.
pub proof fn lemma_views(ps: Seq<Pattern>)
    ensures
        views(ps).len() == ps.len(),
        forall|k: int| 0 <= k < ps.len() ==> views(ps)[k] == view_node(ps[k]),
{
    lemma_view_seq_props(ps, 0);
}

/// How [`view_alts`] reads off a group: one model per alternative.
pub proof fn lemma_view_alts_props(alts: Seq<Vec<Pattern>>, i: int)
    requires
        0 <= i <= alts.len(),
    ensures
        view_alts(alts, i).len() == alts.len() - i,
        forall|k: int|
            0 <= k < alts.len() - i ==> view_alts(alts, i)[k] == views(alts[i + k]@),
    decreases alts.len() - i,
{
    if i < alts.len() {
        lemma_view_alts_props(alts, i + 1);
        assert forall|k: int| 0 <= k < alts.len() - i implies view_alts(alts, i)[k] == views(
            alts[i + k]@,
        ) by {
            if k > 0 {
                assert(view_alts(alts, i)[k] == view_alts(alts, i + 1)[k - 1]);
            }
        }
    }
}

/// A deep copy of a node, equal to the original in the model.
pub fn clone_node(p: &Pattern) -> (r: Pattern)
    ensures
        view_node(r) == view_node(*p),
    decreases *p, 0int, 0int,
{
    match p {
        Pattern::Character(c) => Pattern::Character(*c),
        Pattern::Digit => Pattern::Digit,
        Pattern::AlphaNumeric => Pattern::AlphaNumeric,
        Pattern::AnyCharacter(v) => Pattern::AnyCharacter(clone_chars(v)),
        Pattern::NoneCharacter(v) => Pattern::NoneCharacter(clone_chars(v)),
        Pattern::LineStart => Pattern::LineStart,
        Pattern::LineEnd => Pattern::LineEnd,
        Pattern::OneOrMore(b) => Pattern::OneOrMore(Box::new(clone_node(&**b))),
        Pattern::ZeroOrOne(b) => Pattern::ZeroOrOne(Box::new(clone_node(&**b))),
        Pattern::Group(g) => {
            let alts = clone_alts(g);
            let r = Pattern::Group(alts);
            proof {
                lemma_view_alts_props(g@, 0);
                lemma_view_alts_props(alts@, 0);
                assert(view_alts(alts@, 0) =~= view_alts(g@, 0));
            }
            r
        },
        Pattern::Backreference(k) => Pattern::Backreference(*k),
        Pattern::Capture(s, k) => Pattern::Capture(*s, *k),
    }
}

/// A copy of a character set.
fn clone_chars(v: &Vec<char>) -> (r: Vec<char>)
    ensures
        r@ == v@,
{
    let mut r: Vec<char> = Vec::new();
    let mut i: usize = 0;
    while i < v.len()
        invariant
            i <= v@.len(),
            r@ == v@.subrange(0, i as int),
        decreases v@.len() - i,
    {
        r.push(v[i]);
        i += 1;
    }
    proof {
        assert(r@ =~= v@);
    }
    r
}

/// A deep copy of the alternatives of a group, alternative by alternative.
fn clone_alts(g: &Vec<Vec<Pattern>>) -> (r: Vec<Vec<Pattern>>)
    ensures
        r@.len() == g@.len(),
        forall|k: int| 0 <= k < g@.len() ==> views(#[trigger] r@[k]@) == views(g@[k]@),
    decreases g@, 1int, 0int,
{
    let mut r: Vec<Vec<Pattern>> = Vec::new();
    let mut k: usize = 0;
    while k < g.len()
        invariant
            k <= g@.len(),
            r@.len() == k,
            forall|t: int| 0 <= t < k ==> views(#[trigger] r@[t]@) == views(g@[t]@),
        decreases g@.len() - k,
    {
        r.push(clone_pats(&g[k]));
        k += 1;
    }
    r
}

/// A deep copy of a pattern sequence, equal to the original in the model.
pub fn clone_pats(ps: &Vec<Pattern>) -> (r: Vec<Pattern>)
    ensures
        views(r@) == views(ps@),
        r@.len() == ps@.len(),
        forall|t: int| 0 <= t < ps@.len() ==> view_node(#[trigger] r@[t]) == view_node(ps@[t]),
    decreases ps@, 0int, 0int,
{
    let mut r: Vec<Pattern> = Vec::new();
    let mut i: usize = 0;
    while i < ps.len()
        invariant
            i <= ps@.len(),
            r@.len() == i,
            forall|t: int| 0 <= t < i ==> view_node(#[trigger] r@[t]) == view_node(ps@[t]),
        decreases ps@.len() - i,
    {
        r.push(clone_node(&ps[i]));
        i += 1;
    }
    proof {
        lemma_views(r@);
        lemma_views(ps@);
        assert(views(r@) =~= views(ps@));
    }
    r
}

/// The character sequences a piece list stands for.
pub open spec fn views_chars(pieces: Seq<Vec<char>>) -> Seq<Seq<char>> {
    pieces.map_values(|v: Vec<char>| v@)
}

/// The characters of a string, one by one.
pub(crate) fn str_chars(s: &str) -> (r: Vec<char>)
    ensures
        r@ == s@,
{
    let n = s.unicode_len();
    let mut r: Vec<char> = Vec::new();
    let mut i: usize = 0;
    while i < n
        invariant
            i <= n == s@.len(),
            r@ == s@.subrange(0, i as int),
        decreases n - i,
    {
        r.push(s.get_char(i));
        proof {
            assert(r@ =~= s@.subrange(0, i + 1));
        }
        i += 1;
    }
    proof {
        assert(r@ =~= s@);
    }
    r
}

/// Find the `)` that closes the group, as [`find_group_end`] says.
fn find_close(s: &Vec<char>, i: usize, depth: i128) -> (r: Option<usize>)
    requires
        1 <= depth <= i as int + 1,
    ensures
        match (r, find_group_end(s@, i as int, depth as int)) {
            (Some(e), Some(g)) => e as int == g,
            (None, None) => true,
            _ => false,
        },
    decreases s@.len() - i,
{
    if i >= s.len() {
        None
    } else if s[i] == ')' && depth == 1 {
        Some(i)
    } else {
        let d2: i128 = if s[i] == '(' {
            depth + 1
        } else if s[i] == ')' {
            depth - 1
        } else {
            depth
        };
        find_close(s, i + 1, d2)
    }
}

/// Collect a character class, as [`scan_class`] says.
fn scan_class_exec(s: &Vec<char>, i: usize) -> (r: Option<(Vec<char>, usize)>)
    ensures
        match (r, scan_class(s@, i as int)) {
            (Some(t), Some(g)) => t.0@ == g.0 && t.1 as int == g.1,
            (None, None) => true,
            _ => false,
        },
    decreases s@.len() - i,
{
    if i >= s.len() {
        None
    } else if s[i] == ']' {
        Some((Vec::new(), i + 1))
    } else {
        match scan_class_exec(s, i + 1) {
            Some((mut set, after)) => {
                let ghost tail = set@;
                set.insert(0, s[i]);
                proof {
                    assert(set@ =~= seq![s@[i as int]] + tail);
                }
                Some((set, after))
            },
            None => None,
        }
    }
}

/// Split a group body on top-level `|`, as [`split_alts`] says.
fn split_exec(content: &Vec<char>, i: usize, start: usize, depth: i128) -> (r: Vec<Vec<char>>)
    requires
        start <= i,
        -(i as int) - 1 <= depth <= i as int + 1,
    ensures
        views_chars(r@) == split_alts(content@, i as int, start as int, depth as int),
    decreases content@.len() - i,
{
    if i >= content.len() {
        if start < content.len() {
            let piece = copy_range(content, start, content.len());
            let mut r: Vec<Vec<char>> = Vec::new();
            r.push(piece);
            proof {
                assert(views_chars(r@) =~= seq![
                    content@.subrange(start as int, content@.len() as int),
                ]);
            }
            r
        } else {
            let r: Vec<Vec<char>> = Vec::new();
            proof {
                assert(views_chars(r@) =~= Seq::<Seq<char>>::empty());
            }
            r
        }
    } else if content[i] == '|' && depth == 0 {
        let piece = copy_range(content, start, i);
        let mut rest = split_exec(content, i + 1, i + 1, depth);
        let ghost tail = rest@;
        rest.insert(0, piece);
        proof {
            assert(views_chars(rest@) =~= seq![content@.subrange(start as int, i as int)]
                + views_chars(tail));
        }
        rest
    } else {
        let d2: i128 = if content[i] == '(' {
            depth + 1
        } else if content[i] == ')' {
            depth - 1
        } else {
            depth
        };
        split_exec(content, i + 1, start, d2)
    }
}

/// A copy of `input[start..end]`.
pub(crate) fn copy_range(input: &Vec<char>, start: usize, end: usize) -> (r: Vec<char>)
    requires
        start <= end <= input@.len(),
    ensures
        r@ == input@.subrange(start as int, end as int),
{
    let mut r: Vec<char> = Vec::new();
    let mut i: usize = start;
    while i < end
        invariant
            start <= i <= end <= input@.len(),
            r@ == input@.subrange(start as int, i as int),
        decreases end - i,
    {
        r.push(input[i]);
        proof {
            assert(r@ =~= input@.subrange(start as int, i + 1));
        }
        i += 1;
    }
    r
}

/// Compile the alternatives of a group one by one, as [`parse_alts`]
/// says.
fn parse_alts_exec(
    s: &Vec<char>,
    Ghost(gi): Ghost<int>,
    pieces: &Vec<Vec<char>>,
    k: usize,
) -> (r: Option<Vec<Vec<Pattern>>>)
    ensures
        ({
            let o = parse_alts(s@, gi, views_chars(pieces@), k as int);
            match r {
                Some(v) => o == Some(view_alts(v@, 0)),
                None => o is None,
            }
        }),
    decreases s@.len(), s@.len() - gi, 0int, pieces@.len() - k,
{
    proof {
        lemma_parse_alts_unfold(s@, gi, views_chars(pieces@), k as int);
    }
    if k >= pieces.len() {
        let r: Vec<Vec<Pattern>> = Vec::new();
        proof {
            lemma_view_alts_props(r@, 0);
            assert(view_alts(r@, 0) =~= Seq::<Seq<SpecPat>>::empty());
        }
        Some(r)
    } else if pieces[k].len() >= s.len() {
        None
    } else {
        proof {
            lemma_views(Seq::<Pattern>::empty());
            assert(views(Seq::<Pattern>::empty()) =~= Seq::<SpecPat>::empty());
            lemma_spec_parse_unfold(pieces@[k as int]@);
        }
        match parse_core(&pieces[k], 0, Vec::new()) {
            Some(v) => {
                match parse_alts_exec(s, Ghost(gi), pieces, k + 1) {
                    Some(mut rest) => {
                        let ghost tail = rest@;
                        rest.insert(0, v);
                        proof {
                            lemma_view_alts_props(rest@, 0);
                            lemma_view_alts_props(tail, 0);
                            assert(view_alts(rest@, 0) =~= seq![views(rest@[0]@)] + view_alts(
                                tail,
                                0,
                            ));
                        }
                        Some(rest)
                    },
                    None => None,
                }
            },
            None => None,
        }
    }
}

/// The compiler's scan over `s[i..]` with the nodes compiled so far in
/// `acc`, as [`parse_at`] says.
#[verifier::rlimit(60)]
fn parse_core(s: &Vec<char>, i: usize, mut acc: Vec<Pattern>) -> (r: Option<Vec<Pattern>>)
    ensures
        ({
            let o = parse_at(s@, i as int, views(acc@));
            match r {
                Some(v) => o == Some(views(v@)),
                None => o is None,
            }
        }),
    decreases s@.len(), s@.len() - i, 1int, 0int,
{
    proof {
        lemma_views(acc@);
    }
    if i >= s.len() {
        return Some(acc);
    }
    let c = s[i];
    if c == '\\' {
        if i + 1 >= s.len() {
            return Some(acc);
        }
        let e = s[i + 1];
        if e == 'd' {
            let ghost acc0 = acc@;
            acc.push(Pattern::Digit);
            proof {
                lemma_node_view(Pattern::Digit);
                push_view(acc0, Pattern::Digit);
                lemma_step_escape(s@, i as int, views(acc0), e);
            }
            parse_core(s, i + 2, acc)
        } else if e == 'w' {
            let ghost acc0 = acc@;
            acc.push(Pattern::AlphaNumeric);
            proof {
                lemma_node_view(Pattern::AlphaNumeric);
                push_view(acc0, Pattern::AlphaNumeric);
                lemma_step_escape(s@, i as int, views(acc0), e);
            }
            parse_core(s, i + 2, acc)
        } else if e == '\\' {
            let ghost acc0 = acc@;
            acc.push(Pattern::Character('\\'));
            proof {
                lemma_node_view(Pattern::Character('\\'));
                push_view(acc0, Pattern::Character('\\'));
                lemma_step_escape(s@, i as int, views(acc0), e);
            }
            parse_core(s, i + 2, acc)
        } else {
            let eu = e as u32;
            if 49 <= eu && eu <= 57 {
                let ghost acc0 = acc@;
                let node = Pattern::Backreference((eu - 49) as usize);
                let ghost gnode = node;
                acc.push(node);
                proof {
                    lemma_node_view(gnode);
                    push_view(acc0, gnode);
                    lemma_step_escape(s@, i as int, views(acc0), e);
                }
                parse_core(s, i + 2, acc)
            } else {
                None
            }
        }
    } else if c == '[' {
        let neg = i + 1 < s.len() && s[i + 1] == '^';
        let body = if neg {
            i + 2
        } else {
            i + 1
        };
        match scan_class_exec(s, body) {
            Some((set, after)) => {
                if after <= i || after > s.len() {
                    None
                } else {
                    let ghost acc0 = acc@;
                    let node = if neg {
                        Pattern::NoneCharacter(set)
                    } else {
                        Pattern::AnyCharacter(set)
                    };
                    let ghost gnode = node;
                    acc.push(node);
                    proof {
                        lemma_node_view(gnode);
                        push_view(acc0, gnode);
                        assert(parse_at(s@, i as int, views(acc0)) == parse_at(
                            s@,
                            after as int,
                            views(acc0).push(view_node(gnode)),
                        ));
                    }
                    parse_core(s, after, acc)
                }
            },
            None => {
                None
            },
        }
    } else if c == '(' {
        match find_close(s, i + 1, 1) {
            Some(close) => {
                if close <= i || close >= s.len() {
                    None
                } else {
                    let content = copy_range(s, i + 1, close);
                    let pieces = split_exec(&content, 0, 0, 0);
                    match parse_alts_exec(s, Ghost(i as int), &pieces, 0) {
                        Some(alts) => {
                            let ghost acc0 = acc@;
                            let ghost galts = view_alts(alts@, 0);
                            let node = Pattern::Group(alts);
                            let ghost gnode = node;
                            acc.push(node);
                            proof {
                                lemma_node_view(gnode);
                                push_view(acc0, gnode);
                                assert(parse_at(s@, i as int, views(acc0)) == parse_at(
                                    s@,
                                    close + 1,
                                    views(acc0).push(SpecPat::Alts(galts)),
                                ));
                            }
                            parse_core(s, close + 1, acc)
                        },
                        None => {
                            None
                        },
                    }
                }
            },
            None => {
                None
            },
        }
    } else if c == '^' {
        let ghost acc0 = acc@;
        acc.push(Pattern::LineStart);
        proof {
            lemma_node_view(Pattern::LineStart);
            push_view(acc0, Pattern::LineStart);
        }
        parse_core(s, i + 1, acc)
    } else if c == '$' {
        let ghost acc0 = acc@;
        acc.push(Pattern::LineEnd);
        proof {
            lemma_node_view(Pattern::LineEnd);
            push_view(acc0, Pattern::LineEnd);
            lemma_step_end(s@, i as int, views(acc0));
        }
        parse_core(s, i + 1, acc)
    } else if c == '+' {
        if acc.len() == 0 {
            None
        } else {
            let ghost acc0 = acc@;
            let last = match acc.pop() {
                Some(p) => p,
                None => Pattern::Digit,
            };
            let node = Pattern::OneOrMore(Box::new(last));
            let ghost gnode = node;
            acc.push(node);
            proof {
                lemma_node_view(gnode);
                take_view(acc0, acc0.len() - 1);
                push_view(acc0.take(acc0.len() - 1), gnode);
                lemma_views(acc0);
                assert(views(acc0).last() == view_node(acc0.last()));
                assert(parse_at(s@, i as int, views(acc0)) == parse_at(
                    s@,
                    i + 1,
                    views(acc0).take(acc0.len() - 1).push(
                        SpecPat::Plus(Box::new(views(acc0).last())),
                    ),
                ));
            }
            parse_core(s, i + 1, acc)
        }
    } else if c == '?' {
        if acc.len() == 0 {
            None
        } else {
            let ghost acc0 = acc@;
            let last = match acc.pop() {
                Some(p) => p,
                None => Pattern::Digit,
            };
            let node = Pattern::ZeroOrOne(Box::new(last));
            let ghost gnode = node;
            acc.push(node);
            proof {
                lemma_node_view(gnode);
                take_view(acc0, acc0.len() - 1);
                push_view(acc0.take(acc0.len() - 1), gnode);
                lemma_views(acc0);
                assert(views(acc0).last() == view_node(acc0.last()));
                assert(parse_at(s@, i as int, views(acc0)) == parse_at(
                    s@,
                    i + 1,
                    views(acc0).take(acc0.len() - 1).push(
                        SpecPat::Opt(Box::new(views(acc0).last())),
                    ),
                ));
            }
            parse_core(s, i + 1, acc)
        }
    } else {
        let ghost acc0 = acc@;
        acc.push(Pattern::Character(c));
        proof {
            lemma_step_char(s@, i as int, acc0, acc@, c);
        }
        parse_core(s, i + 1, acc)
    }
}

/// One unfolding of [`view_node`], as a fact usable on values built at
/// run time.
pub proof fn lemma_node_view(p: Pattern)
    ensures
        view_node(p) == (match p {
            Pattern::Character(c) => SpecPat::Char(c),
            Pattern::Digit => SpecPat::Digit,
            Pattern::AlphaNumeric => SpecPat::Word,
            Pattern::AnyCharacter(v) => SpecPat::AnyOf(v@),
            Pattern::NoneCharacter(v) => SpecPat::NoneOf(v@),
            Pattern::LineStart => SpecPat::Start,
            Pattern::LineEnd => SpecPat::End,
            Pattern::OneOrMore(b) => SpecPat::Plus(Box::new(view_node(*b))),
            Pattern::ZeroOrOne(b) => SpecPat::Opt(Box::new(view_node(*b))),
            Pattern::Group(g) => SpecPat::Alts(view_alts(g@, 0)),
            Pattern::Backreference(k) => SpecPat::Backref(k as int),
            Pattern::Capture(st, k) => SpecPat::Cap(st as int, k as int),
        }),
{
}

/// Pushing a node onto a sequence pushes its model onto the model.
proof fn push_view(ps: Seq<Pattern>, tail: Pattern)
    ensures
        views(ps.push(tail)) == views(ps).push(view_node(tail)),
{
    lemma_views(ps);
    lemma_views(ps.push(tail));
    assert(views(ps.push(tail)) =~= views(ps).push(view_node(tail)));
}

/// Taking a prefix of a sequence takes the same prefix of the model.
proof fn take_view(ps: Seq<Pattern>, n: int)
    requires
        0 <= n <= ps.len(),
    ensures
        views(ps.take(n)) == views(ps).take(n),
{
    lemma_views(ps);
    lemma_views(ps.take(n));
    assert(views(ps.take(n)) =~= views(ps).take(n));
}

/// One step of the scan, for each shape the character at `i` can take:
/// these restate [`parse_at`]'s branches as facts usable where the scan
/// stands in executable code.
proof fn lemma_step_escape(s: Seq<char>, i: int, acc: Seq<SpecPat>, e: char)
    requires
        0 <= i,
        i + 1 < s.len(),
        s[i] == '\\',
        e == s[i + 1],
    ensures
        e == 'd' ==> parse_at(s, i, acc) == parse_at(s, i + 2, acc.push(SpecPat::Digit)),
        e == 'w' ==> parse_at(s, i, acc) == parse_at(s, i + 2, acc.push(SpecPat::Word)),
        e == '\\' ==> parse_at(s, i, acc) == parse_at(s, i + 2, acc.push(SpecPat::Char('\\'))),
        ('1' as u32) <= (e as u32) && (e as u32) <= ('9' as u32) ==> parse_at(s, i, acc)
            == parse_at(
            s,
            i + 2,
            acc.push(SpecPat::Backref((e as u32) as int - ('1' as u32) as int)),
        ),
{
}

/// The `$` step of the scan.
proof fn lemma_step_end(s: Seq<char>, i: int, acc: Seq<SpecPat>)
    requires
        0 <= i < s.len(),
        s[i] == '$',
    ensures
        parse_at(s, i, acc) == parse_at(s, i + 1, acc.push(SpecPat::End)),
{
}

/// The plain-character step of the scan: pushing the literal node takes
/// the scan one character further.
proof fn lemma_step_char(s: Seq<char>, i: int, acc0: Seq<Pattern>, acc1: Seq<Pattern>, c: char)
    requires
        0 <= i < s.len(),
        c == s[i],
        c != '\\' && c != '[' && c != '(' && c != '^' && c != '$' && c != '+' && c != '?',
        acc1 == acc0.push(Pattern::Character(c)),
    ensures
        parse_at(s, i, views(acc0)) == parse_at(s, i + 1, views(acc1)),
{
    push_view(acc0, Pattern::Character(c));
}

/// One unfolding of [`parse_alts`], likewise.
proof fn lemma_parse_alts_unfold(s: Seq<char>, i: int, pieces: Seq<Seq<char>>, k: int)
    ensures
        parse_alts(s, i, pieces, k) == (if k < 0 || k >= pieces.len() {
            Some(Seq::<Seq<SpecPat>>::empty())
        } else if pieces[k].len() >= s.len() {
            None
        } else {
            match spec_parse(pieces[k]) {
                Some(ps) => match parse_alts(s, i, pieces, k + 1) {
                    Some(rest) => Some(seq![ps] + rest),
                    None => None,
                },
                None => None,
            }
        }),
{
}

/// [`spec_parse`] is the scan started at the beginning.
proof fn lemma_spec_parse_unfold(s: Seq<char>)
    ensures
        spec_parse(s) == parse_at(s, 0, Seq::empty()),
{
}

/// Compile a pattern string, or report that it is malformed.
pub fn try_parse_pattern(pattern: &str) -> (r: Option<Vec<Pattern>>)
    ensures
        match r {
            Some(v) => spec_parse(pattern@) == Some(views(v@)),
            None => spec_parse(pattern@) is None,
        },
{
    let chars = str_chars(pattern);
    let acc: Vec<Pattern> = Vec::new();
    proof {
        lemma_views(acc@);
        assert(views(acc@) =~= Seq::<SpecPat>::empty());
    }
    parse_core(&chars, 0, acc)
}

/// Compile a pattern string into its node sequence.
///
/// A malformed pattern — an unterminated `[` or `(`, a `+` or `?` with no
/// preceding node, an unsupported escape — has no usable reading, so the
/// caller must hand over a well-formed one.
pub fn parse_pattern(pattern: &str) -> (r: Vec<Pattern>)
    requires
        spec_parse(pattern@) is Some,
    ensures
        spec_parse(pattern@) == Some(views(r@)),
{
    match try_parse_pattern(pattern) {
        Some(v) => v,
        None => vstd::pervasive::unreached(),
    }
}

/// Structural size of a node: the termination measure of the matcher.
/// Quantified and grouped nodes weigh more than the sequences the matcher
/// unfolds them into.
pub open spec fn pat_measure(p: SpecPat) -> nat
    decreases p, 0int, 0int,
{
    match p {
        SpecPat::Plus(b) => 2 + pat_measure(*b),
        SpecPat::Opt(b) => 2 + pat_measure(*b),
        SpecPat::Alts(alts) => 2 + alts_measure(alts, 0),
        _ => 1,
    }
}

/// Combined size of the alternatives of a group, from index `k` on; each
/// alternative costs one more than its own sequence.
pub open spec fn alts_measure(alts: Seq<Seq<SpecPat>>, k: int) -> nat
    decreases alts, 1int, alts.len() - k,
{
    if k < 0 || k >= alts.len() {
        0
    } else {
        1 + seq_measure_from(alts[k], 0) + alts_measure(alts, k + 1)
    }
}

/// Combined size of a node sequence, from index `j` on.
pub open spec fn seq_measure_from(s: Seq<SpecPat>, j: int) -> nat
    decreases s, 1int, s.len() - j,
{
    if j < 0 || j >= s.len() {
        0
    } else {
        pat_measure(s[j]) + seq_measure_from(s, j + 1)
    }
}

/// Combined size of a whole node sequence.
pub open spec fn seq_measure(s: Seq<SpecPat>) -> nat {
    seq_measure_from(s, 0)
}

/// The index of the `)` that closes the group a scan stands in, starting
/// at `i` with `depth` parentheses open; `None` when the group never
/// closes.
pub open spec fn find_group_end(s: Seq<char>, i: int, depth: int) -> Option<int>
    decreases s.len() - i,
{
    if i < 0 || i >= s.len() {
        None
    } else if s[i] == ')' && depth == 1 {
        Some(i)
    } else {
        let d2 = if s[i] == '(' {
            depth + 1
        } else if s[i] == ')' {
            depth - 1
        } else {
            depth
        };
        find_group_end(s, i + 1, d2)
    }
}

/// The characters of a class `[...]` read verbatim from `i` up to the
/// first `]`, and the index just after that `]`; `None` when the class
/// never closes.
pub open spec fn scan_class(s: Seq<char>, i: int) -> Option<(Seq<char>, int)>
    decreases s.len() - i,
{
    if i < 0 || i >= s.len() {
        None
    } else if s[i] == ']' {
        Some((Seq::empty(), i + 1))
    } else {
        match scan_class(s, i + 1) {
            Some(t) => Some((seq![s[i]] + t.0, t.1)),
            None => None,
        }
    }
}

/// The pieces of a group body split on top-level `|` only, scanning from
/// `i` with the current piece open since `start` and `depth` parentheses
/// open.  A trailing empty piece is dropped.
pub open spec fn split_alts(content: Seq<char>, i: int, start: int, depth: int) -> Seq<Seq<char>>
    decreases content.len() - i,
{
    if i < 0 || i >= content.len() {
        if start < content.len() {
            seq![content.subrange(start, content.len() as int)]
        } else {
            Seq::empty()
        }
    } else if content[i] == '|' && depth == 0 {
        seq![content.subrange(start, i)] + split_alts(content, i + 1, i + 1, depth)
    } else {
        let d2 = if content[i] == '(' {
            depth + 1
        } else if content[i] == ')' {
            depth - 1
        } else {
            depth
        };
        split_alts(content, i + 1, start, d2)
    }
}

/// What compiling a pattern string yields: the node sequence, or `None`
/// on a malformed pattern (unterminated `[` or `(`, a quantifier with no
/// preceding node, an unsupported escape).
pub open spec fn spec_parse(s: Seq<char>) -> Option<Seq<SpecPat>>
    decreases s.len(), s.len(), 2int, 0int,
{
    parse_at(s, 0, Seq::empty())
}

/// The compiler's scan: read `s[i..]` with the nodes compiled so far in
/// `acc`.
pub open spec fn parse_at(s: Seq<char>, i: int, acc: Seq<SpecPat>) -> Option<Seq<SpecPat>>
    decreases s.len(), s.len() - i, 1int, 0int,
{
    if i < 0 {
        None
    } else if i >= s.len() {
        Some(acc)
    } else {
        let c = s[i];
        if c == '\\' {
            if i + 1 >= s.len() {
                // a trailing backslash escapes nothing and is dropped
                Some(acc)
            } else {
                let e = s[i + 1];
                if e == 'd' {
                    parse_at(s, i + 2, acc.push(SpecPat::Digit))
                } else if e == 'w' {
                    parse_at(s, i + 2, acc.push(SpecPat::Word))
                } else if e == '\\' {
                    parse_at(s, i + 2, acc.push(SpecPat::Char('\\')))
                } else if ('1' as u32) <= (e as u32) && (e as u32) <= ('9' as u32) {
                    // `\1`..`\9`, zero-based slot
                    parse_at(
                        s,
                        i + 2,
                        acc.push(SpecPat::Backref((e as u32) as int - ('1' as u32) as int)),
                    )
                } else {
                    None
                }
            }
        } else if c == '[' {
            let neg = i + 1 < s.len() && s[i + 1] == '^';
            let body = if neg {
                i + 2
            } else {
                i + 1
            };
            match scan_class(s, body) {
                Some(t) => {
                    if t.1 <= i || t.1 > s.len() {
                        None
                    } else {
                        let node = if neg {
                            SpecPat::NoneOf(t.0)
                        } else {
                            SpecPat::AnyOf(t.0)
                        };
                        parse_at(s, t.1, acc.push(node))
                    }
                },
                None => None,
            }
        } else if c == '(' {
            match find_group_end(s, i + 1, 1) {
                Some(close) => {
                    if close <= i || close >= s.len() {
                        None
                    } else {
                        let content = s.subrange(i + 1, close);
                        let pieces = split_alts(content, 0, 0, 0);
                        match parse_alts(s, i, pieces, 0) {
                            Some(alts) => parse_at(s, close + 1, acc.push(SpecPat::Alts(alts))),
                            None => None,
                        }
                    }
                },
                None => None,
            }
        } else if c == '^' {
            parse_at(s, i + 1, acc.push(SpecPat::Start))
        } else if c == '$' {
            parse_at(s, i + 1, acc.push(SpecPat::End))
        } else if c == '+' {
            if acc.len() == 0 {
                None
            } else {
                parse_at(
                    s,
                    i + 1,
                    acc.take(acc.len() - 1).push(SpecPat::Plus(Box::new(acc.last()))),
                )
            }
        } else if c == '?' {
            if acc.len() == 0 {
                None
            } else {
                parse_at(
                    s,
                    i + 1,
                    acc.take(acc.len() - 1).push(SpecPat::Opt(Box::new(acc.last()))),
                )
            }
        } else {
            parse_at(s, i + 1, acc.push(SpecPat::Char(c)))
        }
    }
}

/// The alternatives of a group compiled one by one, each recursively as a
/// whole pattern of its own; `None` as soon as one is malformed.  The
/// index `i` only records where in `s` the group stands, and the length
/// test only bounds the recursion: every piece of a real split is
/// shorter than the string its group stands in, parentheses included.
pub open spec fn parse_alts(s: Seq<char>, i: int, pieces: Seq<Seq<char>>, k: int) -> Option<
    Seq<Seq<SpecPat>>,
>
    decreases s.len(), s.len() - i, 0int, pieces.len() - k,
{
    if k < 0 || k >= pieces.len() {
        Some(Seq::empty())
    } else if pieces[k].len() >= s.len() {
        None
    } else {
        match spec_parse(pieces[k]) {
            Some(ps) => match parse_alts(s, i, pieces, k + 1) {
                Some(rest) => Some(seq![ps] + rest),
                None => None,
            },
            None => None,
        }
    }
}

/// Concatenation adds the measures.
pub proof fn lemma_measure_offset(a: Seq<SpecPat>, b: Seq<SpecPat>, i: int)
    requires
        0 <= i <= b.len(),
    ensures
        seq_measure_from(a + b, a.len() + i) == seq_measure_from(b, i),
    decreases b.len() - i,
{
    if i < b.len() {
        assert((a + b)[a.len() + i] == b[i]);
        lemma_measure_offset(a, b, i + 1);
    }
}

/// Concatenation adds the measures.
pub proof fn lemma_measure_concat(a: Seq<SpecPat>, b: Seq<SpecPat>)
    ensures
        seq_measure(a + b) == seq_measure(a) + seq_measure(b),
{
    lemma_measure_concat_from(a, b, 0);
}

proof fn lemma_measure_concat_from(a: Seq<SpecPat>, b: Seq<SpecPat>, j: int)
    requires
        0 <= j <= a.len(),
    ensures
        seq_measure_from(a + b, j) == seq_measure_from(a, j) + seq_measure(b),
    decreases a.len() - j,
{
    if j == a.len() {
        lemma_measure_offset(a, b, 0);
    } else {
        assert((a + b)[j] == a[j]);
        lemma_measure_concat_from(a, b, j + 1);
    }
}

/// Measuring a suffix from its start equals measuring the whole from the
/// suffix's offset.
pub proof fn lemma_measure_skip(s: Seq<SpecPat>, j: int)
    requires
        0 <= j <= s.len(),
    ensures
        seq_measure(s.skip(j)) == seq_measure_from(s, j),
{
    lemma_measure_skip_from(s, j, 0);
}

proof fn lemma_measure_skip_from(s: Seq<SpecPat>, j: int, i: int)
    requires
        0 <= j <= s.len(),
        0 <= i <= s.len() - j,
    ensures
        seq_measure_from(s.skip(j), i) == seq_measure_from(s, j + i),
    decreases s.len() - j - i,
{
    if i < s.len() - j {
        assert(s.skip(j)[i] == s[j + i]);
        lemma_measure_skip_from(s, j, i + 1);
    }
}

} // verus!
