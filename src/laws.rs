//! General properties of compiling and matching, proved over the spec functions
//! that the executable functions' contracts use.
use vstd::prelude::*;

use crate::grammar::{
    alternatives, class_end, class_node, closing, compile, compile_alternatives, compile_from,
    escape_node, is_backref_digit, lemma_alternatives, lemma_class_end, lemma_closing, plain_node, quantified,
    scan_step,
};
use crate::pattern::{models, Node, Pattern};
use crate::semantics::{
    lemma_seq_bounds, matches_at, matches_text, node_reach, seq_reach, within, Captures,
};

verus! {

/// Matching the nodes of `s` from index `i` depends only on the nodes from `d` on.
proof fn lemma_seq_shift(
    s: Seq<Node>,
    d: int,
    i: int,
    t: Seq<char>,
    pos: int,
    c: Captures,
    end: int,
    c2: Captures,
)
    requires
        0 <= d <= i,
        d <= s.len(),
    ensures
        seq_reach(s, i, t, pos, c, end, c2) == seq_reach(
            s.subrange(d, s.len() as int),
            i - d,
            t,
            pos,
            c,
            end,
            c2,
        ),
    decreases s.len() - i,
{
    let s2 = s.subrange(d, s.len() as int);
    if i < s.len() {
        assert(s2[i - d] == s[i]);
        if seq_reach(s, i, t, pos, c, end, c2) {
            let m = choose|m: (int, Captures)|
                #[trigger] within(t, m) && node_reach(s[i], t, pos, c, m.0, m.1) && seq_reach(
                    s,
                    i + 1,
                    t,
                    m.0,
                    m.1,
                    end,
                    c2,
                );
            lemma_seq_shift(s, d, i + 1, t, m.0, m.1, end, c2);
            assert(seq_reach(s2, i - d, t, pos, c, end, c2));
        }
        if seq_reach(s2, i - d, t, pos, c, end, c2) {
            let m = choose|m: (int, Captures)|
                #[trigger] within(t, m) && node_reach(s2[i - d], t, pos, c, m.0, m.1) && seq_reach(
                    s2,
                    i - d + 1,
                    t,
                    m.0,
                    m.1,
                    end,
                    c2,
                );
            lemma_seq_shift(s, d, i + 1, t, m.0, m.1, end, c2);
            assert(seq_reach(s, i, t, pos, c, end, c2));
        }
    }
}

/// Matching the nodes of `s` from `i` on is matching those before `k`, then the
/// rest.
proof fn lemma_seq_split(
    s: Seq<Node>,
    i: int,
    k: int,
    t: Seq<char>,
    pos: int,
    c: Captures,
    end: int,
    c2: Captures,
)
    requires
        0 <= i <= k <= s.len(),
    ensures
        seq_reach(s, i, t, pos, c, end, c2) <==> exists|m: (int, Captures)|
            #[trigger] within(t, m) && seq_reach(s.subrange(0, k), i, t, pos, c, m.0, m.1)
                && seq_reach(s, k, t, m.0, m.1, end, c2),
    decreases k - i,
{
    let p = s.subrange(0, k);
    if i == k {
        if seq_reach(s, i, t, pos, c, end, c2) {
            assert(within(t, (pos, c)));
            assert(seq_reach(p, i, t, pos, c, pos, c));
        }
    } else {
        assert(p[i] == s[i]);
        if seq_reach(s, i, t, pos, c, end, c2) {
            let m1 = choose|m1: (int, Captures)|
                #[trigger] within(t, m1) && node_reach(s[i], t, pos, c, m1.0, m1.1) && seq_reach(
                    s,
                    i + 1,
                    t,
                    m1.0,
                    m1.1,
                    end,
                    c2,
                );
            lemma_seq_split(s, i + 1, k, t, m1.0, m1.1, end, c2);
            let m = choose|m: (int, Captures)|
                #[trigger] within(t, m) && seq_reach(p, i + 1, t, m1.0, m1.1, m.0, m.1) && seq_reach(
                    s,
                    k,
                    t,
                    m.0,
                    m.1,
                    end,
                    c2,
                );
            assert(seq_reach(p, i, t, pos, c, m.0, m.1));
        }
        if exists|m: (int, Captures)|
            #[trigger] within(t, m) && seq_reach(p, i, t, pos, c, m.0, m.1) && seq_reach(
                s,
                k,
                t,
                m.0,
                m.1,
                end,
                c2,
            ) {
            let m = choose|m: (int, Captures)|
                #[trigger] within(t, m) && seq_reach(p, i, t, pos, c, m.0, m.1) && seq_reach(
                    s,
                    k,
                    t,
                    m.0,
                    m.1,
                    end,
                    c2,
                );
            let m1 = choose|m1: (int, Captures)|
                #[trigger] within(t, m1) && node_reach(p[i], t, pos, c, m1.0, m1.1) && seq_reach(
                    p,
                    i + 1,
                    t,
                    m1.0,
                    m1.1,
                    m.0,
                    m.1,
                );
            lemma_seq_split(s, i + 1, k, t, m1.0, m1.1, end, c2);
            assert(seq_reach(s, i + 1, t, m1.0, m1.1, end, c2));
        }
    }
}

/// Compiling is a function of the pattern text: two compilations of one pattern
/// give the same nodes, which match exactly the same texts.
pub proof fn law_compile_is_deterministic(
    p: Seq<char>,
    a: Seq<Pattern>,
    b: Seq<Pattern>,
    t: Seq<char>,
)
    requires
        compile(p) == Ok::<Seq<Node>, crate::pattern::PatternError>(models(a)),
        compile(p) == Ok::<Seq<Node>, crate::pattern::PatternError>(models(b)),
    ensures
        models(a) == models(b),
        matches_text(models(a), t) == matches_text(models(b), t),
{
}

/// The empty pattern compiles to no nodes, and those match every text, the empty
/// one included, at offset 0.
pub proof fn law_empty_pattern(t: Seq<char>)
    ensures
        compile(Seq::empty()) == Ok::<Seq<Node>, crate::pattern::PatternError>(Seq::empty()),
        matches_at(Seq::empty(), t, 0),
        matches_text(Seq::empty(), t),
{
    let e: Captures = Map::empty();
    assert(seq_reach(Seq::empty(), 0, t, 0, e, 0, e));
    assert(matches_at(Seq::empty(), t, 0));
}

/// Between a start anchor and an end anchor, the nodes match a text only by
/// consuming all of it from offset 0.
pub proof fn law_anchored_at_both_ends(mid: Seq<Node>, t: Seq<char>)
    ensures
        matches_text(seq![Node::StartOfString] + mid + seq![Node::EndOfString], t) <==> exists|
            c2: Captures,
        | #[trigger] seq_reach(mid, 0, t, 0, Map::empty(), t.len() as int, c2),
{
    let s = seq![Node::StartOfString] + mid + seq![Node::EndOfString];
    let e: Captures = Map::empty();
    let n = mid.len() as int;
    assert(s.subrange(1, s.len() as int).subrange(0, n) =~= mid);
    assert(s[0] == Node::StartOfString);
    assert(s[n + 1] == Node::EndOfString);
    if matches_text(s, t) {
        let start = choose|start: int| 0 <= start <= t.len() && #[trigger] matches_at(s, t, start);
        let (end, c2) = choose|end: int, c2: Captures| #[trigger] seq_reach(s, 0, t, start, e, end, c2);
        let m0 = choose|m0: (int, Captures)|
            #[trigger] within(t, m0) && node_reach(s[0], t, start, e, m0.0, m0.1) && seq_reach(
                s,
                1,
                t,
                m0.0,
                m0.1,
                end,
                c2,
            );
        assert(start == 0 && m0 == (0int, e));
        lemma_seq_split(s, 1, n + 1, t, 0, e, end, c2);
        let m = choose|m: (int, Captures)|
            #[trigger] within(t, m) && seq_reach(s.subrange(0, n + 1), 1, t, 0, e, m.0, m.1)
                && seq_reach(s, n + 1, t, m.0, m.1, end, c2);
        lemma_seq_shift(s.subrange(0, n + 1), 1, 1, t, 0, e, m.0, m.1);
        assert(s.subrange(0, n + 1).subrange(1, n + 1) =~= mid);
        let m2 = choose|m2: (int, Captures)|
            #[trigger] within(t, m2) && node_reach(s[n + 1], t, m.0, m.1, m2.0, m2.1) && seq_reach(
                s,
                n + 2,
                t,
                m2.0,
                m2.1,
                end,
                c2,
            );
        assert(m.0 == t.len());
        assert(seq_reach(mid, 0, t, 0, e, t.len() as int, m.1));
    }
    if exists|c2: Captures| #[trigger] seq_reach(mid, 0, t, 0, e, t.len() as int, c2) {
        let c2 = choose|c2: Captures| #[trigger] seq_reach(mid, 0, t, 0, e, t.len() as int, c2);
        let l = t.len() as int;
        lemma_seq_shift(s.subrange(0, n + 1), 1, 1, t, 0, e, l, c2);
        assert(s.subrange(0, n + 1).subrange(1, n + 1) =~= mid);
        assert(within(t, (l, c2)));
        assert(node_reach(s[n + 1], t, l, c2, l, c2));
        assert(seq_reach(s, n + 2, t, l, c2, l, c2));
        assert(seq_reach(s, n + 1, t, l, c2, l, c2));
        lemma_seq_split(s, 1, n + 1, t, 0, e, l, c2);
        assert(seq_reach(s, 1, t, 0, e, l, c2));
        assert(within(t, (0int, e)));
        assert(node_reach(s[0], t, 0, e, 0, e));
        assert(seq_reach(s, 0, t, 0, e, l, c2));
        assert(matches_at(s, t, 0));
    }
}

/// A character that a pattern reads as itself, wherever it stands: none of
/// `[ ^ $ \\ ( ? + .`.
pub open spec fn is_plain(c: char) -> bool {
    !(c == '[' || c == '^' || c == '$' || c == '\\' || c == '(' || c == '?' || c == '+' || c
        == '.')
}

/// `t` holds `p` from offset `i` on.
pub open spec fn holds_at(t: Seq<char>, p: Seq<char>, i: int) -> bool {
    0 <= i && i + p.len() <= t.len() && t.subrange(i, i + p.len()) == p
}

/// The nodes `s` are the literals of the characters of `p`, one for one.
pub open spec fn are_literals(s: Seq<Node>, p: Seq<char>) -> bool {
    s.len() == p.len() && forall|j: int| 0 <= j < p.len() ==> #[trigger] s[j] == Node::Literal(p[j])
}

proof fn lemma_push_plain(acc: Seq<Node>, ch: char)
    requires
        is_plain(ch),
    ensures
        plain_node(ch) == Node::Literal(ch),
        acc.push(plain_node(ch)).len() == acc.len() + 1,
        acc.push(plain_node(ch))[acc.len() as int] == Node::Literal(ch),
        forall|j: int| 0 <= j < acc.len() ==> #[trigger] acc.push(plain_node(ch))[j] == acc[j],
{
}

proof fn lemma_literal_reach(ch: char, t: Seq<char>, pos: int, c: Captures, end: int, c2: Captures)
    ensures
        node_reach(Node::Literal(ch), t, pos, c, end, c2) <==> (0 <= pos < t.len() && t[pos] == ch
            && end == pos + 1 && c2 == c),
{
}

proof fn lemma_compile_plain(p: Seq<char>, i: int, n: nat, top: bool, acc: Seq<Node>)
    requires
        0 <= i <= p.len(),
        forall|j: int| 0 <= j < p.len() ==> is_plain(#[trigger] p[j]),
    ensures
        compile_from(p, i, n, top, acc) is Ok,
        compile_from(p, i, n, top, acc)->Ok_0.1 == n,
        compile_from(p, i, n, top, acc)->Ok_0.0.len() == acc.len() + p.len() - i,
        compile_from(p, i, n, top, acc)->Ok_0.0.subrange(0, acc.len() as int) == acc,
        are_literals(
            compile_from(p, i, n, top, acc)->Ok_0.0.subrange(
                acc.len() as int,
                compile_from(p, i, n, top, acc)->Ok_0.0.len() as int,
            ),
            p.subrange(i, p.len() as int),
        ),
    decreases p.len() - i,
{
    let r = compile_from(p, i, n, top, acc);
    if i == p.len() {
        assert(r == Ok::<(Seq<Node>, nat), crate::pattern::PatternError>((acc, n)));
        assert(acc.subrange(0, acc.len() as int) =~= acc);
    } else {
        let ch = p[i];
        assert(is_plain(ch));
        lemma_push_plain(acc, ch);
        let acc2 = acc.push(plain_node(ch));
        assert(r == compile_from(p, i + 1, n, top, acc2));
        lemma_compile_plain(p, i + 1, n, top, acc2);
        let out = r->Ok_0.0;
        assert(out.subrange(0, acc2.len() as int) == acc2);
        assert(out.subrange(0, acc.len() as int) =~= acc) by {
            assert forall|j: int| 0 <= j < acc.len() implies out.subrange(0, acc.len() as int)[j]
                == acc[j] by {
                assert(out.subrange(0, acc2.len() as int)[j] == acc2[j]);
            }
        }
        let tail = out.subrange(acc.len() as int, out.len() as int);
        let tail2 = out.subrange(acc2.len() as int, out.len() as int);
        let q = p.subrange(i, p.len() as int);
        let q2 = p.subrange(i + 1, p.len() as int);
        assert(are_literals(tail2, q2));
        assert forall|j: int| 0 <= j < q.len() implies #[trigger] tail[j] == Node::Literal(q[j]) by {
            if j == 0 {
                assert(out.subrange(0, acc2.len() as int)[acc.len() as int] == acc2[acc.len() as int]);
            } else {
                assert(tail[j] == tail2[j - 1]);
                assert(q[j] == q2[j - 1]);
            }
        }
    }
}

proof fn lemma_literals_reach(
    s: Seq<Node>,
    p: Seq<char>,
    i: int,
    t: Seq<char>,
    pos: int,
    c: Captures,
    end: int,
    c2: Captures,
)
    requires
        0 <= i <= p.len(),
        are_literals(s, p),
    ensures
        seq_reach(s, i, t, pos, c, end, c2) <==> (0 <= pos && end == pos + (p.len() - i) && end
            <= t.len() && t.subrange(pos, end) == p.subrange(i, p.len() as int) && c2 == c),
    decreases p.len() - i,
{
    if i == p.len() {
        if 0 <= pos <= t.len() {
            assert(t.subrange(pos, pos) =~= p.subrange(i, p.len() as int));
        }
    } else {
        assert(s[i] == Node::Literal(p[i]));
        if seq_reach(s, i, t, pos, c, end, c2) {
            let m = choose|m: (int, Captures)|
                #[trigger] within(t, m) && node_reach(s[i], t, pos, c, m.0, m.1) && seq_reach(
                    s,
                    i + 1,
                    t,
                    m.0,
                    m.1,
                    end,
                    c2,
                );
            lemma_literal_reach(p[i], t, pos, c, m.0, m.1);
            lemma_literals_reach(s, p, i + 1, t, m.0, m.1, end, c2);
            assert(t.subrange(pos, end) =~= seq![t[pos]] + t.subrange(pos + 1, end));
            assert(p.subrange(i, p.len() as int) =~= seq![p[i]] + p.subrange(
                i + 1,
                p.len() as int,
            ));
        }
        if 0 <= pos && end == pos + (p.len() - i) && end <= t.len() && t.subrange(pos, end)
            == p.subrange(i, p.len() as int) && c2 == c {
            assert(t.subrange(pos, end)[0] == p.subrange(i, p.len() as int)[0]);
            assert(t.subrange(pos + 1, end) =~= t.subrange(pos, end).subrange(1, end - pos));
            assert(p.subrange(i + 1, p.len() as int) =~= p.subrange(i, p.len() as int).subrange(
                1,
                p.len() - i,
            ));
            lemma_literals_reach(s, p, i + 1, t, pos + 1, c, end, c2);
            lemma_literal_reach(p[i], t, pos, c, pos + 1, c);
            assert(within(t, (pos + 1, c)));
            assert(node_reach(s[i], t, pos, c, pos + 1, c));
            assert(seq_reach(s, i, t, pos, c, end, c2));
        }
    }
}

/// A pattern of plain characters compiles to one literal for each character, and
/// those match exactly the texts that hold the pattern as a contiguous part.
pub proof fn law_literal_pattern(p: Seq<char>, t: Seq<char>)
    requires
        forall|j: int| 0 <= j < p.len() ==> is_plain(#[trigger] p[j]),
    ensures
        compile(p) is Ok,
        are_literals(compile(p)->Ok_0, p),
        matches_text(compile(p)->Ok_0, t) <==> exists|i: int| #[trigger] holds_at(t, p, i),
{
    let e: Captures = Map::empty();
    lemma_compile_plain(p, 0, 1, true, Seq::empty());
    let s = compile(p)->Ok_0;
    assert(s.subrange(0, s.len() as int) =~= s);
    assert(p.subrange(0, p.len() as int) =~= p);
    if matches_text(s, t) {
        let start = choose|start: int| 0 <= start <= t.len() && #[trigger] matches_at(s, t, start);
        let (end, c2) = choose|end: int, c2: Captures| #[trigger] seq_reach(s, 0, t, start, e, end, c2);
        lemma_literals_reach(s, p, 0, t, start, e, end, c2);
        assert(holds_at(t, p, start));
    }
    if exists|i: int| #[trigger] holds_at(t, p, i) {
        let i = choose|i: int| #[trigger] holds_at(t, p, i);
        lemma_literals_reach(s, p, 0, t, i, e, i + p.len(), e);
        assert(seq_reach(s, 0, t, i, e, i + p.len(), e));
        assert(matches_at(s, t, i));
    }
}

/// No end anchor stands in the node, at any depth.
spec fn end_free(p: Node) -> bool
    decreases p, 0nat,
{
    match p {
        Node::EndOfString => false,
        Node::ZeroOrOne(inner) => end_free(*inner),
        Node::OneOrMore(inner) => end_free(*inner),
        Node::CapturingGroup(body, _) => seq_end_free(body, 0),
        Node::Alternation(bs, _) => alts_end_free(bs, 0),
        _ => true,
    }
}

spec fn seq_end_free(s: Seq<Node>, i: int) -> bool
    decreases s, s.len() - i,
{
    if 0 <= i < s.len() {
        end_free(s[i]) && seq_end_free(s, i + 1)
    } else {
        true
    }
}

spec fn alts_end_free(bs: Seq<Seq<Node>>, j: int) -> bool
    decreases bs, bs.len() - j,
{
    if 0 <= j < bs.len() {
        seq_end_free(bs[j], 0) && alts_end_free(bs, j + 1)
    } else {
        true
    }
}

proof fn lemma_seq_end_free(s: Seq<Node>, i: int)
    requires
        0 <= i,
    ensures
        seq_end_free(s, i) <==> forall|j: int| i <= j < s.len() ==> #[trigger] end_free(s[j]),
    decreases s.len() - i,
{
    if i < s.len() {
        lemma_seq_end_free(s, i + 1);
        if seq_end_free(s, i) {
            assert forall|j: int| i <= j < s.len() implies #[trigger] end_free(s[j]) by {
                if j > i {
                    assert(i + 1 <= j < s.len());
                }
            }
        }
        if forall|j: int| i <= j < s.len() ==> #[trigger] end_free(s[j]) {
            assert(end_free(s[i]));
            assert forall|j: int| i + 1 <= j < s.len() implies #[trigger] end_free(s[j]) by {
                assert(i <= j < s.len());
            }
        }
    }
}

proof fn lemma_alts_end_free(bs: Seq<Seq<Node>>, j: int)
    requires
        0 <= j,
    ensures
        alts_end_free(bs, j) <==> forall|k: int| j <= k < bs.len() ==> #[trigger] seq_end_free(bs[k], 0),
    decreases bs.len() - j,
{
    if j < bs.len() {
        lemma_alts_end_free(bs, j + 1);
        if alts_end_free(bs, j) {
            assert forall|k: int| j <= k < bs.len() implies #[trigger] seq_end_free(bs[k], 0) by {
                if k > j {
                    assert(j + 1 <= k < bs.len());
                }
            }
        }
        if forall|k: int| j <= k < bs.len() ==> #[trigger] seq_end_free(bs[k], 0) {
            assert(seq_end_free(bs[j], 0));
            assert forall|k: int| j + 1 <= k < bs.len() implies #[trigger] seq_end_free(bs[k], 0) by {
                assert(j <= k < bs.len());
            }
        }
    }
}

proof fn lemma_node_extend(
    p: Node,
    t: Seq<char>,
    u: Seq<char>,
    pos: int,
    c: Captures,
    end: int,
    c2: Captures,
)
    requires
        node_reach(p, t, pos, c, end, c2),
        end_free(p),
    ensures
        node_reach(p, t + u, pos, c, end, c2),
    decreases p, t.len() - pos,
{
    let t2 = t + u;
    match p {
        Node::ZeroOrOne(inner) => {
            if !(end == pos && c2 == c) {
                lemma_node_extend(*inner, t, u, pos, c, end, c2);
            }
        },
        Node::OneOrMore(inner) => {
            if node_reach(*inner, t, pos, c, end, c2) {
                lemma_node_extend(*inner, t, u, pos, c, end, c2);
            } else {
                let m = choose|m: (int, Captures)|
                    #[trigger] within(t, m) && pos < m.0 && node_reach(*inner, t, pos, c, m.0, m.1)
                        && node_reach(p, t, m.0, m.1, end, c2);
                lemma_node_extend(*inner, t, u, pos, c, m.0, m.1);
                lemma_node_extend(p, t, u, m.0, m.1, end, c2);
                assert(within(t2, m));
            }
        },
        Node::CapturingGroup(body, k) => {
            let cm = choose|cm: Captures|
                #[trigger] within(t, (end, cm)) && seq_reach(body, 0, t, pos, c, end, cm) && c2
                    == cm.insert(k as int, t.subrange(pos, end));
            lemma_seq_bounds(body, 0, t, pos, c, end, cm);
            lemma_seq_extend(body, 0, t, u, pos, c, end, cm);
            assert(t2.subrange(pos, end) =~= t.subrange(pos, end));
            assert(within(t2, (end, cm)));
        },
        Node::Alternation(bs, k) => {
            let (i, cm) = choose|i: int, cm: Captures|
                #![trigger bs[i], within(t, (end, cm))]
                0 <= i < bs.len() && within(t, (end, cm)) && seq_reach(bs[i], 0, t, pos, c, end, cm)
                    && c2 == cm.insert(k as int, t.subrange(pos, end));
            lemma_alts_end_free(bs, 0);
            assert(seq_end_free(bs[i], 0));
            lemma_seq_bounds(bs[i], 0, t, pos, c, end, cm);
            lemma_seq_extend(bs[i], 0, t, u, pos, c, end, cm);
            assert(t2.subrange(pos, end) =~= t.subrange(pos, end));
            assert(within(t2, (end, cm)));
            assert(seq_reach(bs[i], 0, t2, pos, c, end, cm));
        },
        Node::Backreference(k) => {
            assert(t2.subrange(pos, end) =~= t.subrange(pos, end));
        },
        _ => {
            if pos < t.len() {
                assert(t2[pos] == t[pos]);
            }
        },
    }
}

proof fn lemma_seq_extend(
    s: Seq<Node>,
    i: int,
    t: Seq<char>,
    u: Seq<char>,
    pos: int,
    c: Captures,
    end: int,
    c2: Captures,
)
    requires
        seq_reach(s, i, t, pos, c, end, c2),
        seq_end_free(s, i),
    ensures
        seq_reach(s, i, t + u, pos, c, end, c2),
    decreases s, s.len() - i,
{
    if 0 <= i < s.len() {
        let m = choose|m: (int, Captures)|
            #[trigger] within(t, m) && node_reach(s[i], t, pos, c, m.0, m.1) && seq_reach(
                s,
                i + 1,
                t,
                m.0,
                m.1,
                end,
                c2,
            );
        lemma_node_extend(s[i], t, u, pos, c, m.0, m.1);
        lemma_seq_extend(s, i + 1, t, u, m.0, m.1, end, c2);
        assert(within(t + u, m));
    }
}

spec fn all_end_free(s: Seq<Node>) -> bool {
    forall|j: int| 0 <= j < s.len() ==> #[trigger] end_free(s[j])
}

proof fn lemma_push_end_free(acc: Seq<Node>, node: Node)
    requires
        all_end_free(acc),
        end_free(node),
    ensures
        all_end_free(acc.push(node)),
{
    assert forall|j: int| 0 <= j < acc.push(node).len() implies #[trigger] end_free(
        acc.push(node)[j],
    ) by {
        if j < acc.len() {
            assert(acc.push(node)[j] == acc[j]);
        }
    }
}

proof fn lemma_leaf_end_free(d: char, k: nat, m: Seq<char>)
    ensures
        end_free(escape_node(d)),
        end_free(plain_node(d)),
        end_free(Node::Backreference(k)),
        end_free(class_node(m)),
        end_free(Node::StartOfString),
{
}

proof fn lemma_compile_from_props(q: Seq<char>, i: int, n: nat, top: bool, acc: Seq<Node>)
    requires
        compile_from(q, i, n, top, acc) is Ok,
    ensures
        compile_from(q, i, n, top, acc)->Ok_0.1 >= n,
        !top && all_end_free(acc) ==> all_end_free(compile_from(q, i, n, top, acc)->Ok_0.0),
    decreases q.len(), q.len() + 1 - i,
{
    if 0 <= i < q.len() {
        let ch = q[i];
        if ch == '[' {
            lemma_class_end(q, i + 1);
            let e = class_end(q, i + 1)->Some_0;
            let node = class_node(q.subrange(i + 1, e));
            lemma_leaf_end_free(ch, 0, q.subrange(i + 1, e));
            if all_end_free(acc) {
                lemma_push_end_free(acc, node);
            }
            lemma_compile_from_props(q, e + 1, n, top, acc.push(node));
        } else if ch == '^' {
            lemma_leaf_end_free(ch, 0, Seq::empty());
            if all_end_free(acc) {
                lemma_push_end_free(acc, Node::StartOfString);
            }
            lemma_compile_from_props(q, i + 1, n, top, acc.push(Node::StartOfString));
        } else if ch == '$' {
        } else if ch == '\\' {
            let d = q[i + 1];
            let node = if is_backref_digit(d) {
                Node::Backreference((d as int - '0' as int) as nat)
            } else {
                escape_node(d)
            };
            lemma_leaf_end_free(d, (d as int - '0' as int) as nat, Seq::empty());
            if all_end_free(acc) {
                lemma_push_end_free(acc, node);
            }
            lemma_compile_from_props(q, i + 2, n, top, acc.push(node));
        } else if ch == '(' {
            lemma_closing(q, i + 1, 0, false);
            let e = closing(q, i + 1, 0, false)->Some_0;
            let content = q.subrange(i + 1, e);
            lemma_compile_alts_props(content, 0, n + 1, Seq::empty());
            let bs = compile_alternatives(content, 0, n + 1, Seq::empty())->Ok_0.0;
            let n2 = compile_alternatives(content, 0, n + 1, Seq::empty())->Ok_0.1;
            let node = if bs.len() == 1 {
                Node::CapturingGroup(bs[0], n)
            } else {
                Node::Alternation(bs, n)
            };
            lemma_alts_end_free(bs, 0);
            if bs.len() == 1 {
                assert(seq_end_free(bs[0], 0));
            }
            assert(end_free(node));
            if all_end_free(acc) {
                lemma_push_end_free(acc, node);
            }
            lemma_compile_from_props(q, e + 1, n2, top, acc.push(node));
        } else if ch == '?' || ch == '+' {
            let node = quantified(ch, acc.last());
            if all_end_free(acc) {
                assert(end_free(acc[acc.len() - 1]));
                assert(end_free(node));
                assert forall|j: int| 0 <= j < acc.drop_last().len() implies #[trigger] end_free(
                    acc.drop_last()[j],
                ) by {
                    assert(end_free(acc[j]));
                }
                lemma_push_end_free(acc.drop_last(), node);
            }
            lemma_compile_from_props(q, i + 1, n, top, acc.drop_last().push(node));
        } else {
            lemma_leaf_end_free(ch, 0, Seq::empty());
            if all_end_free(acc) {
                lemma_push_end_free(acc, plain_node(ch));
            }
            lemma_compile_from_props(q, i + 1, n, top, acc.push(plain_node(ch)));
        }
    }
}

proof fn lemma_compile_alts_props(content: Seq<char>, j: int, n: nat, acc: Seq<Seq<Node>>)
    requires
        compile_alternatives(content, j, n, acc) is Ok,
    ensures
        compile_alternatives(content, j, n, acc)->Ok_0.1 >= n,
        (forall|k: int| 0 <= k < acc.len() ==> #[trigger] seq_end_free(acc[k], 0)) ==> forall|k: int|
            0 <= k < compile_alternatives(content, j, n, acc)->Ok_0.0.len() ==> #[trigger] seq_end_free(
                compile_alternatives(content, j, n, acc)->Ok_0.0[k],
                0,
            ),
    decreases content.len() + 1, alternatives(content).len() - j,
{
    let pieces = alternatives(content);
    if 0 <= j < pieces.len() {
        lemma_alternatives(content);
        lemma_compile_from_props(pieces[j], 0, n, false, Seq::empty());
        let nodes = compile_from(pieces[j], 0, n, false, Seq::empty())->Ok_0.0;
        let n2 = compile_from(pieces[j], 0, n, false, Seq::empty())->Ok_0.1;
        lemma_seq_end_free(nodes, 0);
        if forall|k: int| 0 <= k < acc.len() ==> #[trigger] seq_end_free(acc[k], 0) {
            assert forall|k: int| 0 <= k < acc.push(nodes).len() implies #[trigger] seq_end_free(
                acc.push(nodes)[k],
                0,
            ) by {
                if k < acc.len() {
                    assert(acc.push(nodes)[k] == acc[k]);
                }
            }
        }
        lemma_compile_alts_props(content, j + 1, n2, acc.push(nodes));
    }
}

proof fn lemma_closing_prefix(g: Seq<char>, q: Seq<char>, j: int, depth: nat, in_class: bool)
    requires
        g.len() <= q.len(),
        q.subrange(0, g.len() as int) == g,
        closing(g, j, depth, in_class) is Some,
    ensures
        closing(q, j, depth, in_class) == closing(g, j, depth, in_class),
    decreases g.len() + 1 - j,
{
    assert(q.subrange(0, g.len() as int)[j] == q[j]);
    if !(!in_class && depth == 0 && g[j] == ')') {
        let (adv, d2, c2) = scan_step(g[j], depth, in_class);
        lemma_closing_prefix(g, q, j + adv, d2, c2);
    }
}

/// The nodes `acc` followed by the nodes of the characters of `q` from `i` to `k`,
/// each read as itself.
spec fn plain_run(acc: Seq<Node>, q: Seq<char>, i: int, k: int) -> Seq<Node>
    decreases k - i,
{
    if i < k {
        plain_run(acc.push(plain_node(q[i])), q, i + 1, k)
    } else {
        acc
    }
}

proof fn lemma_plain_run(q: Seq<char>, i: int, k: int, n: nat, top: bool, acc: Seq<Node>)
    requires
        0 <= i <= k <= q.len(),
        forall|j: int| i <= j < k ==> is_plain(#[trigger] q[j]),
    ensures
        compile_from(q, i, n, top, acc) == compile_from(q, k, n, top, plain_run(acc, q, i, k)),
        plain_run(acc, q, i, k).len() == acc.len() + k - i,
        plain_run(acc, q, i, k).subrange(0, acc.len() as int) == acc,
        are_literals(
            plain_run(acc, q, i, k).subrange(acc.len() as int, acc.len() + k - i),
            q.subrange(i, k),
        ),
    decreases k - i,
{
    let r = plain_run(acc, q, i, k);
    if i == k {
        assert(acc.subrange(0, acc.len() as int) =~= acc);
    } else {
        let ch = q[i];
        assert(is_plain(ch));
        lemma_push_plain(acc, ch);
        let acc2 = acc.push(plain_node(ch));
        lemma_plain_run(q, i + 1, k, n, top, acc2);
        assert(r == plain_run(acc2, q, i + 1, k));
        assert(r.subrange(0, acc.len() as int) =~= acc) by {
            assert forall|j: int| 0 <= j < acc.len() implies r.subrange(0, acc.len() as int)[j]
                == acc[j] by {
                assert(r.subrange(0, acc2.len() as int)[j] == acc2[j]);
            }
        }
        let tail = r.subrange(acc.len() as int, acc.len() + k - i);
        let tail2 = r.subrange(acc2.len() as int, acc.len() + k - i);
        let w = q.subrange(i, k);
        let w2 = q.subrange(i + 1, k);
        assert forall|j: int| 0 <= j < w.len() implies #[trigger] tail[j] == Node::Literal(w[j]) by {
            if j == 0 {
                assert(r.subrange(0, acc2.len() as int)[acc.len() as int] == acc2[acc.len() as int]);
            } else {
                assert(tail[j] == tail2[j - 1]);
                assert(w[j] == w2[j - 1]);
            }
        }
    }
}

/// A construct `(c)`, then a separator `l` of plain characters, then `\\1`,
/// matches a text that repeats around the separator a text `x` that `(c)` accepts
/// when matched from the start of `x` to its end.
pub proof fn law_backreference_round_trip(c: Seq<char>, l: Seq<char>, x: Seq<char>)
    requires
        closing(seq!['('] + c + seq![')'], 1, 0, false) == Some(c.len() + 1int),
        compile(seq!['('] + c + seq![')']) is Ok,
        forall|j: int| 0 <= j < l.len() ==> is_plain(#[trigger] l[j]),
        exists|c2: Captures|
            #[trigger] node_reach(
                compile(seq!['('] + c + seq![')'])->Ok_0[0],
                x,
                0,
                Map::empty(),
                x.len() as int,
                c2,
            ),
    ensures
        compile(seq!['('] + c + seq![')'] + l + seq!['\\', '1']) is Ok,
        matches_text(compile(seq!['('] + c + seq![')'] + l + seq!['\\', '1'])->Ok_0, x + l + x),
{
    let g = seq!['('] + c + seq![')'];
    let q = g + l + seq!['\\', '1'];
    let t = x + l + x;
    let e = c.len() + 1int;
    let empty: Captures = Map::empty();
    let none: Seq<Node> = Seq::empty();
    lemma_closing(g, 1, 0, false);
    assert(g[0] == '(');
    assert(g.subrange(1, e) =~= c);
    let alts = compile_alternatives(c, 0, 2, Seq::empty());
    assert(alts is Ok);
    let bs = alts->Ok_0.0;
    let n2 = alts->Ok_0.1;
    let big = if bs.len() == 1 {
        Node::CapturingGroup(bs[0], 1)
    } else {
        Node::Alternation(bs, 1)
    };
    assert(compile_from(g, 0, 1, true, none) == compile_from(g, e + 1, n2, true, none.push(big)));
    assert(compile(g)->Ok_0 == none.push(big));
    assert(compile(g)->Ok_0[0] == big);
    lemma_compile_alts_props(c, 0, 2, Seq::empty());
    lemma_alts_end_free(bs, 0);
    if bs.len() == 1 {
        assert(seq_end_free(bs[0], 0));
    }
    assert(end_free(big));

    assert(q.subrange(0, g.len() as int) =~= g);
    lemma_closing_prefix(g, q, 1, 0, false);
    assert(q[0] == '(');
    assert(q.subrange(1, e) =~= c);
    assert(compile_from(q, 0, 1, true, none) == compile_from(q, e + 1, n2, true, none.push(big)));
    let i0 = g.len() + l.len() as int;
    assert forall|j: int| g.len() <= j < i0 implies is_plain(#[trigger] q[j]) by {
        assert(q[j] == l[j - g.len()]);
    }
    lemma_plain_run(q, g.len() as int, i0, n2, true, none.push(big));
    let a = plain_run(none.push(big), q, g.len() as int, i0);
    assert(q[i0] == '\\');
    assert(q[i0 + 1] == '1');
    let s = a.push(Node::Backreference(1));
    assert(compile_from(q, i0, n2, true, a) == compile_from(q, i0 + 2, n2, true, s));
    assert(compile(q) == Ok::<Seq<Node>, crate::pattern::PatternError>(s));

    let c2 = choose|c2: Captures| #[trigger] node_reach(big, x, 0, empty, x.len() as int, c2);
    lemma_node_extend(big, x, l + x, 0, empty, x.len() as int, c2);
    assert(x + (l + x) =~= t);
    let xl = x.len() as int;
    let ll = l.len() as int;
    assert(t.subrange(0, xl) =~= x);
    let cm = if bs.len() == 1 {
        choose|cm: Captures|
            #[trigger] within(t, (xl, cm)) && seq_reach(bs[0], 0, t, 0, empty, xl, cm) && c2
                == cm.insert(1, t.subrange(0, xl))
    } else {
        let (i, cm) = choose|i: int, cm: Captures|
            #![trigger bs[i], within(t, (xl, cm))]
            0 <= i < bs.len() && within(t, (xl, cm)) && seq_reach(bs[i], 0, t, 0, empty, xl, cm)
                && c2 == cm.insert(1, t.subrange(0, xl));
        cm
    };
    assert(c2.contains_key(1) && c2[1] == x);

    assert(a.subrange(0, 1)[0] == big);
    assert(s[0] == big);
    let lits = a.subrange(1, 1 + ll);
    assert(q.subrange(g.len() as int, i0) =~= l);
    assert(t.subrange(xl, xl + ll) =~= l);
    lemma_literals_reach(lits, l, 0, t, xl, c2, xl + ll, c2);
    assert(l.subrange(0, ll) =~= l);
    assert(seq_reach(lits, 0, t, xl, c2, xl + ll, c2));
    lemma_seq_shift(a, 1, 1, t, xl, c2, xl + ll, c2);
    assert(a.subrange(1, a.len() as int) == lits);
    assert(seq_reach(a, 1, t, xl, c2, xl + ll, c2));

    let tl = t.len() as int;
    assert(s[1 + ll] == Node::Backreference(1));
    assert(t.subrange(xl + ll, tl) =~= x);
    assert(within(t, (tl, c2)));
    assert(node_reach(s[1 + ll], t, xl + ll, c2, tl, c2));
    assert(seq_reach(s, 2 + ll, t, tl, c2, tl, c2));
    assert(seq_reach(s, 1 + ll, t, xl + ll, c2, tl, c2));
    assert(s.subrange(0, 1 + ll) =~= a);
    lemma_seq_split(s, 1, 1 + ll, t, xl, c2, tl, c2);
    assert(within(t, (xl + ll, c2)));
    assert(seq_reach(s, 1, t, xl, c2, tl, c2));
    assert(within(t, (xl, c2)));
    assert(seq_reach(s, 0, t, 0, empty, tl, c2));
    assert(matches_at(s, t, 0));
}

} // verus!
