//! What it means for nodes to match a text: which positions and capture tables
//! each node can reach from a given one.
use vstd::prelude::*;

use crate::pattern::Node;

verus! {

/// What a capture table holds: for each capture index, the text last captured.
pub type Captures = Map<int, Seq<char>>;

/// An ASCII decimal digit.
pub open spec fn is_digit(c: char) -> bool {
    '0' <= c && c <= '9'
}

/// Whether `char::is_alphanumeric` holds of `c` (letters and numbers of any script).
pub uninterp spec fn alphanumeric(c: char) -> bool;

/// Relies on `char::is_alphanumeric`, whose answer depends on the character alone.
#[verifier::external_body]
pub(crate) fn char_is_alphanumeric(c: char) -> (r: bool)
    ensures
        r == alphanumeric(c),
{
    c.is_alphanumeric()
}

/// A word character: alphanumeric, or the underscore.
pub open spec fn is_word(c: char) -> bool {
    alphanumeric(c) || c == '_'
}

/// Whether `c` is a word character, given whether it is alphanumeric.
pub fn is_word_char(is_alphanumeric: bool, c: char) -> (r: bool)
    ensures
        r == (is_alphanumeric || c == '_'),
{
    is_alphanumeric || c == '_'
}

/// Whether the node consumes exactly one character, which it then tests.
pub open spec fn is_single(p: Node) -> bool {
    match p {
        Node::Literal(_) | Node::Digit | Node::Alphanumeric | Node::PositiveGroup(_)
        | Node::NegativeGroup(_) | Node::Wildcard => true,
        _ => false,
    }
}

/// Whether a single-character node accepts `c`.
pub open spec fn accepts(p: Node, c: char) -> bool {
    match p {
        Node::Literal(x) => c == x,
        Node::Digit => is_digit(c),
        Node::Alphanumeric => is_word(c),
        Node::PositiveGroup(members) => members.contains(c),
        Node::NegativeGroup(members) => !members.contains(c),
        Node::Wildcard => true,
        _ => false,
    }
}

/// A state of the search inside the text: a position from 0 through the length
/// of `t`, with a capture table.
pub open spec fn within(t: Seq<char>, m: (int, Captures)) -> bool {
    0 <= m.0 <= t.len()
}

/// Node `p`, started at position `pos` of `t` with the capture table `c`, can stop
/// at position `end` with the capture table `c2`. A group or an alternation
/// records the text it consumed under its index; a `+` repeats its node once,
/// then again only after a repetition that consumed text.
pub open spec fn node_reach(
    p: Node,
    t: Seq<char>,
    pos: int,
    c: Captures,
    end: int,
    c2: Captures,
) -> bool
    decreases p, t.len() - pos,
{
    &&& 0 <= pos <= t.len()
    &&& match p {
        Node::StartOfString => pos == 0 && end == pos && c2 == c,
        Node::EndOfString => pos == t.len() && end == pos && c2 == c,
        Node::ZeroOrOne(inner) => (end == pos && c2 == c) || node_reach(
            *inner,
            t,
            pos,
            c,
            end,
            c2,
        ),
        Node::OneOrMore(inner) => node_reach(*inner, t, pos, c, end, c2) || exists|
            m: (int, Captures),
        |
            #[trigger] within(t, m) && pos < m.0 && node_reach(*inner, t, pos, c, m.0, m.1)
                && node_reach(p, t, m.0, m.1, end, c2),
        Node::CapturingGroup(body, k) => exists|cm: Captures|
            #[trigger] within(t, (end, cm)) && seq_reach(body, 0, t, pos, c, end, cm) && c2
                == cm.insert(k as int, t.subrange(pos, end)),
        Node::Alternation(branches, k) => exists|i: int, cm: Captures|
            #![trigger branches[i], within(t, (end, cm))]
            0 <= i < branches.len() && within(t, (end, cm)) && seq_reach(
                branches[i],
                0,
                t,
                pos,
                c,
                end,
                cm,
            ) && c2 == cm.insert(k as int, t.subrange(pos, end)),
        Node::Backreference(k) => {
            &&& c.contains_key(k as int)
            &&& end == pos + c[k as int].len()
            &&& end <= t.len()
            &&& t.subrange(pos, end) == c[k as int]
            &&& c2 == c
        },
        _ => pos < t.len() && accepts(p, t[pos]) && end == pos + 1 && c2 == c,
    }
}

/// The nodes of `s` from index `i` on, started at `pos` with the capture table `c`,
/// can stop at `end` with the capture table `c2`.
pub open spec fn seq_reach(
    s: Seq<Node>,
    i: int,
    t: Seq<char>,
    pos: int,
    c: Captures,
    end: int,
    c2: Captures,
) -> bool
    decreases s, s.len() - i,
{
    &&& 0 <= pos <= t.len()
    &&& if 0 <= i < s.len() {
        exists|m: (int, Captures)|
            #[trigger] within(t, m) && node_reach(s[i], t, pos, c, m.0, m.1) && seq_reach(
                s,
                i + 1,
                t,
                m.0,
                m.1,
                end,
                c2,
            )
    } else {
        end == pos && c2 == c
    }
}

/// The nodes match `t` at offset `start`, with a fresh capture table.
pub open spec fn matches_at(nodes: Seq<Node>, t: Seq<char>, start: int) -> bool {
    exists|end: int, c2: Captures| #[trigger] seq_reach(nodes, 0, t, start, Map::empty(), end, c2)
}

/// The nodes match `t` at some offset from 0 through its length.
pub open spec fn matches_text(nodes: Seq<Node>, t: Seq<char>) -> bool {
    exists|start: int| 0 <= start <= t.len() && #[trigger] matches_at(nodes, t, start)
}

pub proof fn lemma_node_bounds(p: Node, t: Seq<char>, pos: int, c: Captures, end: int, c2: Captures)
    requires
        node_reach(p, t, pos, c, end, c2),
    ensures
        0 <= pos <= end <= t.len(),
    decreases p, t.len() - pos,
{
    match p {
        Node::ZeroOrOne(inner) => {
            if !(end == pos && c2 == c) {
                lemma_node_bounds(*inner, t, pos, c, end, c2);
            }
        },
        Node::OneOrMore(inner) => {
            if !node_reach(*inner, t, pos, c, end, c2) {
                let m = choose|m: (int, Captures)|
                    #[trigger] within(t, m) && pos < m.0 && node_reach(*inner, t, pos, c, m.0, m.1)
                        && node_reach(p, t, m.0, m.1, end, c2);
                lemma_node_bounds(p, t, m.0, m.1, end, c2);
            } else {
                lemma_node_bounds(*inner, t, pos, c, end, c2);
            }
        },
        Node::CapturingGroup(body, k) => {
            let cm = choose|cm: Captures|
                #[trigger] within(t, (end, cm)) && seq_reach(body, 0, t, pos, c, end, cm) && c2
                    == cm.insert(k as int, t.subrange(pos, end));
            lemma_seq_bounds(body, 0, t, pos, c, end, cm);
        },
        Node::Alternation(branches, k) => {
            let (i, cm) = choose|i: int, cm: Captures|
                #![trigger branches[i], within(t, (end, cm))]
                0 <= i < branches.len() && within(t, (end, cm)) && seq_reach(
                    branches[i],
                    0,
                    t,
                    pos,
                    c,
                    end,
                    cm,
                ) && c2 == cm.insert(k as int, t.subrange(pos, end));
            lemma_seq_bounds(branches[i], 0, t, pos, c, end, cm);
        },
        _ => {},
    }
}

pub proof fn lemma_seq_bounds(
    s: Seq<Node>,
    i: int,
    t: Seq<char>,
    pos: int,
    c: Captures,
    end: int,
    c2: Captures,
)
    requires
        seq_reach(s, i, t, pos, c, end, c2),
    ensures
        0 <= pos <= end <= t.len(),
    decreases s, s.len() - i,
{
    if 0 <= i < s.len() {
        let m = choose|m: (int, Captures)|
            #[trigger] within(t, m) && node_reach(s[i], t, pos, c, m.0, m.1) && seq_reach(
                s,
                i + 1,
                t,
                m.0,
                m.1,
                end,
                c2,
            );
        lemma_node_bounds(s[i], t, pos, c, m.0, m.1);
        lemma_seq_bounds(s, i + 1, t, m.0, m.1, end, c2);
    }
}

} // verus!
