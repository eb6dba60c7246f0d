//! The grammar of patterns, as spec functions: how a pattern string compiles
//! into the model of its nodes, or which error stops it.
use vstd::prelude::*;

use crate::pattern::{Node, PatternError};

verus! {

/// One step of the scan that tells the structure of a pattern from its text: at
/// character `ch`, with `depth` groups open and a class open or not, how far the
/// scan moves, and the depth and class state after. An escaped character, and
/// anything inside a class, counts as text.
pub open spec fn scan_step(ch: char, depth: nat, in_class: bool) -> (int, nat, bool) {
    if in_class {
        (1, depth, ch != ']')
    } else if ch == '\\' {
        (2, depth, false)
    } else if ch == '[' {
        (1, depth, true)
    } else if ch == '(' {
        (1, depth + 1, false)
    } else if ch == ')' {
        (1, if depth > 0 { (depth - 1) as nat } else { 0 }, false)
    } else {
        (1, depth, false)
    }
}

/// The index of the `)` that closes a group whose content the scan entered
/// before `j`, `depth` groups further out; `None` when the text ends first.
pub open spec fn closing(q: Seq<char>, j: int, depth: nat, in_class: bool) -> Option<int>
    decreases q.len() + 1 - j,
{
    if j < 0 || j >= q.len() {
        None
    } else if !in_class && depth == 0 && q[j] == ')' {
        Some(j)
    } else {
        let (adv, d2, c2) = scan_step(q[j], depth, in_class);
        closing(q, j + adv, d2, c2)
    }
}

/// The pieces of `q` from `start` on, cut at each `|` that stands outside
/// escapes, classes and nested groups; the scan is at `j`.
pub open spec fn split_from(q: Seq<char>, j: int, start: int, depth: nat, in_class: bool) -> Seq<
    Seq<char>,
>
    decreases q.len() + 1 - j,
{
    if j < 0 || j >= q.len() {
        seq![q.subrange(start, q.len() as int)]
    } else if !in_class && depth == 0 && q[j] == '|' {
        seq![q.subrange(start, j)] + split_from(q, j + 1, j + 1, 0, false)
    } else {
        let (adv, d2, c2) = scan_step(q[j], depth, in_class);
        split_from(q, j + adv, start, d2, c2)
    }
}

/// The alternatives of the content of a group.
pub open spec fn alternatives(q: Seq<char>) -> Seq<Seq<char>> {
    split_from(q, 0, 0, 0, false)
}

/// The index of the first `]` at or after `j`.
pub open spec fn class_end(q: Seq<char>, j: int) -> Option<int>
    decreases q.len() + 1 - j,
{
    if j < 0 || j >= q.len() {
        None
    } else if q[j] == ']' {
        Some(j)
    } else {
        class_end(q, j + 1)
    }
}

/// The node of a class whose members, as written, are `m`.
pub open spec fn class_node(m: Seq<char>) -> Node {
    if m.len() > 0 && m[0] == '^' {
        Node::NegativeGroup(m.drop_first())
    } else {
        Node::PositiveGroup(m)
    }
}

/// Whether `d` is a digit from 1 through 9.
pub open spec fn is_backref_digit(d: char) -> bool {
    '1' <= d && d <= '9'
}

/// The node of the escape `\d`, for a character `d` that is no backreference digit.
pub open spec fn escape_node(d: char) -> Node {
    if d == 'd' {
        Node::Digit
    } else if d == 'w' {
        Node::Alphanumeric
    } else {
        Node::Literal(d)
    }
}

/// The node of a character that stands for itself or for a wildcard.
pub open spec fn plain_node(ch: char) -> Node {
    if ch == '.' {
        Node::Wildcard
    } else {
        Node::Literal(ch)
    }
}

/// `?` or `+` applied to a node.
pub open spec fn quantified(ch: char, last: Node) -> Node {
    if ch == '?' {
        Node::ZeroOrOne(Box::new(last))
    } else {
        Node::OneOrMore(Box::new(last))
    }
}

/// Compiles `q` from index `i` on, after the nodes `acc`; the constructs take
/// capture indices from `n` on; `top` when `q` is a whole pattern rather than an
/// alternative inside a group. The result holds the nodes and the next free
/// capture index.
pub open spec fn compile_from(q: Seq<char>, i: int, n: nat, top: bool, acc: Seq<Node>) -> Result<
    (Seq<Node>, nat),
    PatternError,
>
    decreases q.len(), q.len() + 1 - i,
{
    if i < 0 || i >= q.len() {
        Ok((acc, n))
    } else {
        let ch = q[i];
        if ch == '[' {
            match class_end(q, i + 1) {
                None => Err(PatternError::UnterminatedClass),
                Some(e) => {
                    proof {
                        lemma_class_end(q, i + 1);
                    }
                    compile_from(q, e + 1, n, top, acc.push(class_node(q.subrange(i + 1, e))))
                },
            }
        } else if ch == '^' {
            if top && i == 0 {
                compile_from(q, i + 1, n, top, acc.push(Node::StartOfString))
            } else {
                Err(PatternError::MisplacedAnchor)
            }
        } else if ch == '$' {
            if top && i == q.len() - 1 {
                Ok((acc.push(Node::EndOfString), n))
            } else {
                Err(PatternError::MisplacedAnchor)
            }
        } else if ch == '\\' {
            if i + 1 >= q.len() {
                Err(PatternError::DanglingEscape)
            } else if is_backref_digit(q[i + 1]) {
                let k = (q[i + 1] as int - '0' as int) as nat;
                if k < n {
                    compile_from(q, i + 2, n, top, acc.push(Node::Backreference(k)))
                } else {
                    Err(PatternError::UnknownBackreference)
                }
            } else {
                compile_from(q, i + 2, n, top, acc.push(escape_node(q[i + 1])))
            }
        } else if ch == '(' {
            match closing(q, i + 1, 0, false) {
                None => Err(PatternError::UnterminatedGroup),
                Some(e) => {
                    proof {
                        lemma_closing(q, i + 1, 0, false);
                    }
                    let content = q.subrange(i + 1, e);
                    match compile_alternatives(content, 0, n + 1, Seq::empty()) {
                        Err(err) => Err(err),
                        Ok((bs, n2)) => {
                            let node = if bs.len() == 1 {
                                Node::CapturingGroup(bs[0], n)
                            } else {
                                Node::Alternation(bs, n)
                            };
                            compile_from(q, e + 1, n2, top, acc.push(node))
                        },
                    }
                },
            }
        } else if ch == '?' || ch == '+' {
            if acc.len() == 0 || acc.last() is StartOfString {
                Err(PatternError::DanglingQuantifier)
            } else {
                compile_from(q, i + 1, n, top, acc.drop_last().push(quantified(ch, acc.last())))
            }
        } else {
            compile_from(q, i + 1, n, top, acc.push(plain_node(ch)))
        }
    }
}

/// Compiles the alternatives of the group content `content` from the `j`-th on,
/// after the branches `acc`, with capture indices from `n` on.
pub open spec fn compile_alternatives(
    content: Seq<char>,
    j: int,
    n: nat,
    acc: Seq<Seq<Node>>,
) -> Result<(Seq<Seq<Node>>, nat), PatternError>
    decreases content.len() + 1, alternatives(content).len() - j,
{
    let pieces = alternatives(content);
    if j < 0 || j >= pieces.len() {
        Ok((acc, n))
    } else {
        proof {
            lemma_alternatives(content);
        }
        match compile_from(pieces[j], 0, n, false, Seq::empty()) {
            Err(err) => Err(err),
            Ok((nodes, n2)) => compile_alternatives(content, j + 1, n2, acc.push(nodes)),
        }
    }
}

/// The nodes that the pattern `p` compiles to, or why it does not compile.
pub open spec fn compile(p: Seq<char>) -> Result<Seq<Node>, PatternError> {
    match compile_from(p, 0, 1, true, Seq::empty()) {
        Ok((nodes, _)) => Ok(nodes),
        Err(e) => Err(e),
    }
}

pub proof fn lemma_class_end(q: Seq<char>, j: int)
    ensures
        class_end(q, j) matches Some(e) ==> 0 <= j <= e < q.len() && q[e] == ']',
    decreases q.len() + 1 - j,
{
    if 0 <= j < q.len() && q[j] != ']' {
        lemma_class_end(q, j + 1);
    }
}

pub proof fn lemma_closing(q: Seq<char>, j: int, depth: nat, in_class: bool)
    ensures
        closing(q, j, depth, in_class) matches Some(e) ==> 0 <= j <= e < q.len() && q[e] == ')',
    decreases q.len() + 1 - j,
{
    if 0 <= j < q.len() && !(!in_class && depth == 0 && q[j] == ')') {
        let (adv, d2, c2) = scan_step(q[j], depth, in_class);
        lemma_closing(q, j + adv, d2, c2);
    }
}

pub proof fn lemma_split_from(q: Seq<char>, j: int, start: int, depth: nat, in_class: bool)
    requires
        0 <= start <= q.len(),
        start <= j || j < 0,
    ensures
        forall|k: int|
            0 <= k < split_from(q, j, start, depth, in_class).len() ==> (#[trigger] split_from(
                q,
                j,
                start,
                depth,
                in_class,
            )[k]).len() <= q.len(),
    decreases q.len() + 1 - j,
{
    let s = split_from(q, j, start, depth, in_class);
    if j < 0 || j >= q.len() {
        assert(s == seq![q.subrange(start, q.len() as int)]);
        assert forall|k: int| 0 <= k < s.len() implies (#[trigger] s[k]).len() <= q.len() by {
            assert(s[k] == q.subrange(start, q.len() as int));
        }
    } else if !in_class && depth == 0 && q[j] == '|' {
        lemma_split_from(q, j + 1, j + 1, 0, false);
        let rest = split_from(q, j + 1, j + 1, 0, false);
        assert(s == seq![q.subrange(start, j)] + rest);
        assert forall|k: int| 0 <= k < s.len() implies (#[trigger] s[k]).len() <= q.len() by {
            if k > 0 {
                assert(s[k] == rest[k - 1]);
            } else {
                assert(s[k] == q.subrange(start, j));
            }
        }
    } else {
        let (adv, d2, c2) = scan_step(q[j], depth, in_class);
        lemma_split_from(q, j + adv, start, d2, c2);
        assert(s == split_from(q, j + adv, start, d2, c2));
    }
}

pub proof fn lemma_alternatives(q: Seq<char>)
    ensures
        alternatives(q).len() >= 1,
        forall|k: int| 0 <= k < alternatives(q).len() ==> (#[trigger] alternatives(q)[k]).len() <= q.len(),
{
    lemma_split_from(q, 0, 0, 0, false);
    lemma_split_len(q, 0, 0, 0, false);
}

pub proof fn lemma_split_len(q: Seq<char>, j: int, start: int, depth: nat, in_class: bool)
    ensures
        split_from(q, j, start, depth, in_class).len() >= 1,
    decreases q.len() + 1 - j,
{
    if j < 0 || j >= q.len() {
    } else if !in_class && depth == 0 && q[j] == '|' {
        lemma_split_len(q, j + 1, j + 1, 0, false);
    } else {
        let (adv, d2, c2) = scan_step(q[j], depth, in_class);
        lemma_split_len(q, j + adv, start, d2, c2);
    }
}

} // verus!
