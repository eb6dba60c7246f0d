//! Compiled pattern nodes, their compile errors, and their mathematical model.
use vstd::prelude::*;

verus! {

/// One node of a compiled pattern.
#[derive(Debug, PartialEq)]
pub enum Pattern {
    /// Exactly this character.
    Literal(char),
    /// One ASCII decimal digit (`\d`).
    Digit,
    /// One alphanumeric character of any script, or `_` (`\w`).
    Alphanumeric,
    /// One character among the members (`[abc]`).
    PositiveGroup(String),
    /// One character not among the members (`[^abc]`).
    NegativeGroup(String),
    /// The position is the start of the text (`^`).
    StartOfString,
    /// The position is the end of the text (`$`).
    EndOfString,
    /// The inner node, or nothing (`x?`).
    ZeroOrOne(Box<Pattern>),
    /// The inner node, once or more (`x+`).
    OneOrMore(Box<Pattern>),
    /// Any one character (`.`).
    Wildcard,
    /// A parenthesised sequence whose text is captured under the index.
    CapturingGroup(Vec<Pattern>, usize),
    /// Parenthesised branches separated by `|`; the text of the branch taken
    /// is captured under the index.
    Alternation(Vec<Vec<Pattern>>, usize),
    /// The text last captured under the index, once more.
    Backreference(usize),
}

/// Why a pattern string does not compile.
#[derive(Debug, Clone, Copy, PartialEq, Eq)]
pub enum PatternError {
    /// A `\` ends the pattern.
    DanglingEscape,
    /// A `?` or `+` follows no node that it could repeat.
    DanglingQuantifier,
    /// A `[` has no `]` after it.
    UnterminatedClass,
    /// A `(` has no matching `)`.
    UnterminatedGroup,
    /// A `^` stands elsewhere than at the start of the pattern, or a `$` elsewhere
    /// than at its end.
    MisplacedAnchor,
    /// A backreference names an index that no group opened before it has.
    UnknownBackreference,
}

/// The mathematical model of a node: the same shape, with sequences in place
/// of strings and vectors.
pub enum Node {
    Literal(char),
    Digit,
    Alphanumeric,
    PositiveGroup(Seq<char>),
    NegativeGroup(Seq<char>),
    StartOfString,
    EndOfString,
    ZeroOrOne(Box<Node>),
    OneOrMore(Box<Node>),
    Wildcard,
    CapturingGroup(Seq<Node>, nat),
    Alternation(Seq<Seq<Node>>, nat),
    Backreference(nat),
}

/// The model of a node.
pub open spec fn model(p: Pattern) -> Node
    decreases p, 0nat,
{
    match p {
        Pattern::Literal(c) => Node::Literal(c),
        Pattern::Digit => Node::Digit,
        Pattern::Alphanumeric => Node::Alphanumeric,
        Pattern::PositiveGroup(m) => Node::PositiveGroup(m@),
        Pattern::NegativeGroup(m) => Node::NegativeGroup(m@),
        Pattern::StartOfString => Node::StartOfString,
        Pattern::EndOfString => Node::EndOfString,
        Pattern::ZeroOrOne(inner) => Node::ZeroOrOne(Box::new(model(*inner))),
        Pattern::OneOrMore(inner) => Node::OneOrMore(Box::new(model(*inner))),
        Pattern::Wildcard => Node::Wildcard,
        Pattern::CapturingGroup(body, k) => Node::CapturingGroup(models(body@), k as nat),
        Pattern::Alternation(branches, k) => Node::Alternation(
            branch_models(branches@),
            k as nat,
        ),
        Pattern::Backreference(k) => Node::Backreference(k as nat),
    }
}

/// The models of a sequence of nodes, one for one.
pub open spec fn models(s: Seq<Pattern>) -> Seq<Node>
    decreases s, 0nat,
{
    if s.len() == 0 {
        Seq::empty()
    } else {
        models(s.drop_last()).push(model(s.last()))
    }
}

/// The models of a sequence of branches, one for one.
pub open spec fn branch_models(b: Seq<Vec<Pattern>>) -> Seq<Seq<Node>>
    decreases b, 0nat,
{
    if b.len() == 0 {
        Seq::empty()
    } else {
        branch_models(b.drop_last()).push(models(b.last()@))
    }
}

impl View for Pattern {
    type V = Node;

    open spec fn view(&self) -> Node {
        model(*self)
    }
}

pub proof fn lemma_models(s: Seq<Pattern>)
    ensures
        models(s).len() == s.len(),
        forall|i: int| 0 <= i < s.len() ==> #[trigger] models(s)[i] == model(s[i]),
    decreases s.len(),
{
    if s.len() > 0 {
        lemma_models(s.drop_last());
    }
}

pub proof fn lemma_branch_models(b: Seq<Vec<Pattern>>)
    ensures
        branch_models(b).len() == b.len(),
        forall|i: int| 0 <= i < b.len() ==> #[trigger] branch_models(b)[i] == models(b[i]@),
    decreases b.len(),
{
    if b.len() > 0 {
        lemma_branch_models(b.drop_last());
    }
}

pub proof fn lemma_models_push(s: Seq<Pattern>, x: Pattern)
    ensures
        models(s.push(x)) == models(s).push(model(x)),
{
    assert(s.push(x).drop_last() =~= s);
}

pub proof fn lemma_models_pop(s: Seq<Pattern>)
    requires
        s.len() > 0,
    ensures
        models(s.drop_last()) == models(s).drop_last(),
        model(s.last()) == models(s).last(),
{
    assert(models(s).drop_last() =~= models(s.drop_last()));
}

pub proof fn lemma_branch_models_push(b: Seq<Vec<Pattern>>, x: Vec<Pattern>)
    ensures
        branch_models(b.push(x)) == branch_models(b).push(models(x@)),
{
    assert(b.push(x).drop_last() =~= b);
}

} // verus!
