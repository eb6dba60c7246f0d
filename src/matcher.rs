//! The backtracking matcher: runs compiled nodes against a text, with an explicit
//! stack of what is left to match, proved to agree with the match semantics.
use vstd::prelude::*;

use crate::pattern::{
    branch_models, lemma_branch_models, lemma_models, model, models, Node, Pattern,
};
use crate::semantics::{
    accepts, char_is_alphanumeric, is_single, is_word_char, lemma_node_bounds, lemma_seq_bounds, matches_text,
    matches_at, node_reach, seq_reach, within, Captures,
};
use crate::grammar::compile;
use crate::parse::parse_pattern;
use crate::text::chars_of;


verus! {

/// A measure of a node: it exceeds the measure of everything the node holds.
spec fn size(p: Pattern) -> nat
    decreases p, 0nat,
{
    match p {
        Pattern::ZeroOrOne(inner) => size(*inner) + 1,
        Pattern::OneOrMore(inner) => size(*inner) + 3,
        Pattern::CapturingGroup(body, _) => suffix_size(body@, 0) + 3,
        Pattern::Alternation(branches, _) => branches_size(branches@, 0) + 3,
        _ => 1,
    }
}

/// The measure of the nodes of `s` from index `i` on, one more for each node.
spec fn suffix_size(s: Seq<Pattern>, i: int) -> nat
    decreases s, s.len() - i,
{
    if 0 <= i < s.len() {
        size(s[i]) + 1 + suffix_size(s, i + 1)
    } else {
        0
    }
}

/// The sum of the measures of the branches from index `j` on.
spec fn branches_size(b: Seq<Vec<Pattern>>, j: int) -> nat
    decreases b, b.len() - j,
{
    if 0 <= j < b.len() {
        suffix_size(b[j]@, 0) + branches_size(b, j + 1)
    } else {
        0
    }
}

proof fn lemma_size_positive(p: Pattern)
    ensures
        size(p) >= 1,
{
}

proof fn lemma_branches_size(b: Seq<Vec<Pattern>>, j: int, i: int)
    requires
        0 <= j <= i < b.len(),
    ensures
        suffix_size(b[i]@, 0) <= branches_size(b, j),
    decreases i - j,
{
    if j < i {
        lemma_branches_size(b, j + 1, i);
    }
}


/// What is left to match once the current position is reached.
enum Step<'a> {
    /// The nodes of the sequence from the index on.
    Rest(&'a Vec<Pattern>, usize),
    /// One node.
    Node(&'a Pattern),
    /// Record, under the capture index, the text from the start offset to the
    /// current position.
    Close(usize, usize),
    /// After a repetition of a `OneOrMore` node that began at the offset: end the
    /// repetitions, or, when the repetition consumed text, try further ones.
    Again(&'a Pattern, usize),
}

/// The capture table that a list of (index, start, end) records stands for: the
/// later records win.
spec fn caps_map(l: Seq<(usize, usize, usize)>, t: Seq<char>) -> Captures
    decreases l.len(),
{
    if l.len() == 0 {
        Map::empty()
    } else {
        caps_map(l.drop_last(), t).insert(
            l.last().0 as int,
            t.subrange(l.last().1 as int, l.last().2 as int),
        )
    }
}

spec fn caps_wf(l: Seq<(usize, usize, usize)>, n: int) -> bool {
    forall|m: int| 0 <= m < l.len() ==> #[trigger] l[m].1 <= l[m].2 && l[m].2 <= n
}

/// The steps of the stack `k`, its top last, can all be met from position `pos`
/// with the capture table `c`.
spec fn cont_ok<'a>(k: Seq<Step<'a>>, t: Seq<char>, pos: int, c: Captures) -> bool
    decreases k.len(),
{
    if k.len() == 0 {
        0 <= pos <= t.len()
    } else {
        let rest = k.drop_last();
        match k.last() {
            Step::Rest(s, i) => exists|m: (int, Captures)|
                #[trigger] within(t, m) && seq_reach(models(s@), i as int, t, pos, c, m.0, m.1) && cont_ok(
                    rest,
                    t,
                    m.0,
                    m.1,
                ),
            Step::Node(p) => exists|m: (int, Captures)|
                #[trigger] within(t, m) && node_reach(model(*p), t, pos, c, m.0, m.1) && cont_ok(
                    rest,
                    t,
                    m.0,
                    m.1,
                ),
            Step::Close(idx, start) => cont_ok(
                rest,
                t,
                pos,
                c.insert(idx as int, t.subrange(start as int, pos)),
            ),
            Step::Again(p, start) => cont_ok(rest, t, pos, c) || (start < pos && exists|
                m: (int, Captures),
            |
                #[trigger] within(t, m) && node_reach(model(*p), t, pos, c, m.0, m.1) && cont_ok(
                    rest,
                    t,
                    m.0,
                    m.1,
                )),
        }
    }
}

/// The branch `b`, matched from `pos`, then recorded under capture index `k`,
/// can be followed by the steps of `rest`.
spec fn branch_ok<'a>(
    rest: Seq<Step<'a>>,
    b: Seq<Node>,
    k: usize,
    t: Seq<char>,
    pos: int,
    c: Captures,
) -> bool {
    exists|m: (int, Captures)|
        #[trigger] within(t, m) && seq_reach(b, 0, t, pos, c, m.0, m.1) && cont_ok(
            rest,
            t,
            m.0,
            m.1.insert(k as int, t.subrange(pos, m.0)),
        )
}

spec fn step_wf<'a>(s: Step<'a>, pos: int) -> bool {
    match s {
        Step::Rest(v, i) => i <= v@.len(),
        Step::Node(_) => true,
        Step::Close(_, start) => start <= pos,
        Step::Again(p, start) => start <= pos && *p is OneOrMore,
    }
}

spec fn steps_wf<'a>(k: Seq<Step<'a>>, pos: int) -> bool {
    forall|j: int| 0 <= j < k.len() ==> step_wf(#[trigger] k[j], pos)
}

spec fn step_weight<'a>(s: Step<'a>, pos: int) -> nat {
    match s {
        Step::Rest(v, i) => suffix_size(v@, i as int) + 1,
        Step::Node(p) => size(*p),
        Step::Close(_, _) => 1,
        Step::Again(p, start) => if start < pos {
            size(*p)
        } else {
            1
        },
    }
}

spec fn weight<'a>(k: Seq<Step<'a>>, pos: int) -> nat
    decreases k.len(),
{
    if k.len() == 0 {
        0
    } else {
        weight(k.drop_last(), pos) + step_weight(k.last(), pos)
    }
}

proof fn lemma_push<A>(k: Seq<A>, x: A)
    ensures
        k.push(x).drop_last() == k,
        k.push(x).last() == x,
{
    assert(k.push(x).drop_last() =~= k);
}


proof fn lemma_rest_next<'a>(
    rest: Seq<Step<'a>>,
    v: &'a Vec<Pattern>,
    i: usize,
    node: &'a Pattern,
    t: Seq<char>,
    pos: int,
    c: Captures,
)
    requires
        i < v@.len(),
        i < usize::MAX,
        *node == v@[i as int],
        0 <= pos <= t.len(),
    ensures
        cont_ok(rest.push(Step::Rest(v, i)), t, pos, c) == cont_ok(
            rest.push(Step::Rest(v, (i + 1) as usize)).push(Step::Node(node)),
            t,
            pos,
            c,
        ),
{
    let k0 = rest.push(Step::Rest(v, i));
    let k1 = rest.push(Step::Rest(v, (i + 1) as usize));
    let k2 = k1.push(Step::Node(node));
    lemma_models(v@);
    lemma_push(rest, Step::Rest(v, i));
    lemma_push(rest, Step::Rest(v, (i + 1) as usize));
    lemma_push(k1, Step::Node(node));
    if cont_ok(k0, t, pos, c) {
        let m = choose|m: (int, Captures)|
            #[trigger] within(t, m) && seq_reach(models(v@), i as int, t, pos, c, m.0, m.1) && cont_ok(
                rest,
                t,
                m.0,
                m.1,
            );
        let m1 = choose|m1: (int, Captures)|
            #[trigger] within(t, m1) && node_reach(models(v@)[i as int], t, pos, c, m1.0, m1.1) && seq_reach(
                models(v@),
                i + 1,
                t,
                m1.0,
                m1.1,
                m.0,
                m.1,
            );
        assert(cont_ok(k1, t, m1.0, m1.1));
        assert(cont_ok(k2, t, pos, c));
    }
    if cont_ok(k2, t, pos, c) {
        let m1 = choose|m1: (int, Captures)|
            #[trigger] within(t, m1) && node_reach(model(*node), t, pos, c, m1.0, m1.1) && cont_ok(
                k1,
                t,
                m1.0,
                m1.1,
            );
        let m = choose|m: (int, Captures)|
            #[trigger] within(t, m) && seq_reach(models(v@), i + 1, t, m1.0, m1.1, m.0, m.1) && cont_ok(
                rest,
                t,
                m.0,
                m.1,
            );
        assert(seq_reach(models(v@), i as int, t, pos, c, m.0, m.1));
        assert(cont_ok(k0, t, pos, c));
    }
}

proof fn lemma_rest_done<'a>(
    rest: Seq<Step<'a>>,
    v: &'a Vec<Pattern>,
    i: usize,
    t: Seq<char>,
    pos: int,
    c: Captures,
)
    requires
        i >= v@.len(),
        0 <= pos <= t.len(),
    ensures
        cont_ok(rest.push(Step::Rest(v, i)), t, pos, c) == cont_ok(rest, t, pos, c),
{
    lemma_push(rest, Step::Rest(v, i));
    lemma_models(v@);
    assert(within(t, (pos, c)));
    assert(seq_reach(models(v@), i as int, t, pos, c, pos, c));
}

/// A node that has at most one outcome from `pos`: it stops at `e` with the
/// capture table unchanged, if `ok`.
proof fn lemma_det<'a>(
    rest: Seq<Step<'a>>,
    p: &'a Pattern,
    t: Seq<char>,
    pos: int,
    c: Captures,
    ok: bool,
    e: int,
)
    requires
        ok ==> 0 <= e <= t.len(),
        forall|e2: int, c2: Captures|
            #[trigger] node_reach(model(*p), t, pos, c, e2, c2) <==> (ok && e2 == e && c2 == c),
    ensures
        cont_ok(rest.push(Step::Node(p)), t, pos, c) == (ok && cont_ok(rest, t, e, c)),
{
    lemma_push(rest, Step::Node(p));
    if ok {
        assert(within(t, (e, c)));
        assert(node_reach(model(*p), t, pos, c, e, c));
    }
}

proof fn lemma_zero_or_one<'a>(
    rest: Seq<Step<'a>>,
    p: &'a Pattern,
    inner: &'a Pattern,
    t: Seq<char>,
    pos: int,
    c: Captures,
)
    requires
        model(*p) == Node::ZeroOrOne(Box::new(model(*inner))),
        0 <= pos <= t.len(),
    ensures
        cont_ok(rest.push(Step::Node(p)), t, pos, c) == (cont_ok(
            rest.push(Step::Node(inner)),
            t,
            pos,
            c,
        ) || cont_ok(rest, t, pos, c)),
{
    lemma_push(rest, Step::Node(p));
    lemma_push(rest, Step::Node(inner));
    if cont_ok(rest, t, pos, c) {
        assert(within(t, (pos, c)));
        assert(node_reach(model(*p), t, pos, c, pos, c));
    }
    if cont_ok(rest.push(Step::Node(inner)), t, pos, c) {
        let m = choose|m: (int, Captures)|
            #[trigger] within(t, m) && node_reach(model(*inner), t, pos, c, m.0, m.1) && cont_ok(
                rest,
                t,
                m.0,
                m.1,
            );
        assert(node_reach(model(*p), t, pos, c, m.0, m.1));
    }
}

proof fn lemma_one_or_more<'a>(
    rest: Seq<Step<'a>>,
    p: &'a Pattern,
    inner: &'a Pattern,
    t: Seq<char>,
    pos: int,
    c: Captures,
)
    requires
        model(*p) == Node::OneOrMore(Box::new(model(*inner))),
        0 <= pos <= t.len(),
        pos <= usize::MAX,
    ensures
        cont_ok(rest.push(Step::Node(p)), t, pos, c) == cont_ok(
            rest.push(Step::Again(p, pos as usize)).push(Step::Node(inner)),
            t,
            pos,
            c,
        ),
{
    let k0 = rest.push(Step::Node(p));
    let k1 = rest.push(Step::Again(p, pos as usize));
    let k2 = k1.push(Step::Node(inner));
    lemma_push(rest, Step::Node(p));
    lemma_push(rest, Step::Again(p, pos as usize));
    lemma_push(k1, Step::Node(inner));
    if cont_ok(k0, t, pos, c) {
        let m = choose|m: (int, Captures)|
            #[trigger] within(t, m) && node_reach(model(*p), t, pos, c, m.0, m.1) && cont_ok(
                rest,
                t,
                m.0,
                m.1,
            );
        if node_reach(model(*inner), t, pos, c, m.0, m.1) {
            assert(cont_ok(k1, t, m.0, m.1));
        } else {
            let m1 = choose|m1: (int, Captures)|
                #[trigger] within(t, m1) && pos < m1.0 && node_reach(model(*inner), t, pos, c, m1.0, m1.1)
                    && node_reach(model(*p), t, m1.0, m1.1, m.0, m.1);
            assert(cont_ok(k1, t, m1.0, m1.1));
        }
        assert(cont_ok(k2, t, pos, c));
    }
    if cont_ok(k2, t, pos, c) {
        let m1 = choose|m1: (int, Captures)|
            #[trigger] within(t, m1) && node_reach(model(*inner), t, pos, c, m1.0, m1.1) && cont_ok(
                k1,
                t,
                m1.0,
                m1.1,
            );
        if cont_ok(rest, t, m1.0, m1.1) {
            assert(node_reach(model(*p), t, pos, c, m1.0, m1.1));
        } else {
            let m = choose|m: (int, Captures)|
                #[trigger] within(t, m) && node_reach(model(*p), t, m1.0, m1.1, m.0, m.1) && cont_ok(
                    rest,
                    t,
                    m.0,
                    m.1,
                );
            lemma_node_bounds(model(*p), t, m1.0, m1.1, m.0, m.1);
            assert(node_reach(model(*p), t, pos, c, m.0, m.1));
        }
        assert(cont_ok(k0, t, pos, c));
    }
}

proof fn lemma_again<'a>(
    rest: Seq<Step<'a>>,
    p: &'a Pattern,
    start: usize,
    t: Seq<char>,
    pos: int,
    c: Captures,
)
    ensures
        cont_ok(rest.push(Step::Again(p, start)), t, pos, c) == (cont_ok(rest, t, pos, c) || (
        start < pos && cont_ok(rest.push(Step::Node(p)), t, pos, c))),
{
    lemma_push(rest, Step::Again(p, start));
    lemma_push(rest, Step::Node(p));
}

proof fn lemma_close<'a>(
    rest: Seq<Step<'a>>,
    k: usize,
    start: usize,
    t: Seq<char>,
    pos: int,
    c: Captures,
)
    ensures
        cont_ok(rest.push(Step::Close(k, start)), t, pos, c) == cont_ok(
            rest,
            t,
            pos,
            c.insert(k as int, t.subrange(start as int, pos)),
        ),
{
    lemma_push(rest, Step::Close(k, start));
}

proof fn lemma_branch<'a>(
    rest: Seq<Step<'a>>,
    b: &'a Vec<Pattern>,
    k: usize,
    t: Seq<char>,
    pos: int,
    c: Captures,
)
    requires
        0 <= pos <= t.len(),
        pos <= usize::MAX,
    ensures
        cont_ok(rest.push(Step::Close(k, pos as usize)).push(Step::Rest(b, 0)), t, pos, c)
            == branch_ok(rest, models(b@), k, t, pos, c),
{
    let k1 = rest.push(Step::Close(k, pos as usize));
    let k2 = k1.push(Step::Rest(b, 0));
    lemma_push(rest, Step::Close(k, pos as usize));
    lemma_push(k1, Step::Rest(b, 0));
    if cont_ok(k2, t, pos, c) {
        let m = choose|m: (int, Captures)|
            #[trigger] within(t, m) && seq_reach(models(b@), 0, t, pos, c, m.0, m.1) && cont_ok(
                k1,
                t,
                m.0,
                m.1,
            );
        assert(cont_ok(rest, t, m.0, m.1.insert(k as int, t.subrange(pos, m.0))));
    }
    if branch_ok(rest, models(b@), k, t, pos, c) {
        let m = choose|m: (int, Captures)|
            #[trigger] within(t, m) && seq_reach(models(b@), 0, t, pos, c, m.0, m.1) && cont_ok(
                rest,
                t,
                m.0,
                m.1.insert(k as int, t.subrange(pos, m.0)),
            );
        assert(cont_ok(k1, t, m.0, m.1));
    }
}

proof fn lemma_group<'a>(
    rest: Seq<Step<'a>>,
    p: &'a Pattern,
    t: Seq<char>,
    pos: int,
    c: Captures,
)
    requires
        *p is CapturingGroup,
        0 <= pos <= t.len(),
    ensures
        cont_ok(rest.push(Step::Node(p)), t, pos, c) == branch_ok(
            rest,
            models(p->CapturingGroup_0@),
            p->CapturingGroup_1,
            t,
            pos,
            c,
        ),
{
    let body = models(p->CapturingGroup_0@);
    let k = p->CapturingGroup_1;
    lemma_push(rest, Step::Node(p));
    if cont_ok(rest.push(Step::Node(p)), t, pos, c) {
        let m = choose|m: (int, Captures)|
            #[trigger] within(t, m) && node_reach(model(*p), t, pos, c, m.0, m.1) && cont_ok(
                rest,
                t,
                m.0,
                m.1,
            );
        let cm = choose|cm: Captures|
            #[trigger] within(t, (m.0, cm)) && seq_reach(body, 0, t, pos, c, m.0, cm) && m.1
                == cm.insert(k as int, t.subrange(pos, m.0));
        assert(branch_ok(rest, body, k, t, pos, c));
    }
    if branch_ok(rest, body, k, t, pos, c) {
        let m = choose|m: (int, Captures)|
            #[trigger] within(t, m) && seq_reach(body, 0, t, pos, c, m.0, m.1) && cont_ok(
                rest,
                t,
                m.0,
                m.1.insert(k as int, t.subrange(pos, m.0)),
            );
        let m2 = (m.0, m.1.insert(k as int, t.subrange(pos, m.0)));
        assert(within(t, m2));
        assert(node_reach(model(*p), t, pos, c, m2.0, m2.1));
    }
}

proof fn lemma_alternation<'a>(
    rest: Seq<Step<'a>>,
    p: &'a Pattern,
    t: Seq<char>,
    pos: int,
    c: Captures,
)
    requires
        *p is Alternation,
        0 <= pos <= t.len(),
    ensures
        cont_ok(rest.push(Step::Node(p)), t, pos, c) == exists|j: int|
            0 <= j < p->Alternation_0@.len() && #[trigger] branch_ok(
                rest,
                models(p->Alternation_0@[j]@),
                p->Alternation_1,
                t,
                pos,
                c,
            ),
{
    let bs = p->Alternation_0@;
    let ms = branch_models(bs);
    let k = p->Alternation_1;
    lemma_push(rest, Step::Node(p));
    lemma_branch_models(bs);
    if cont_ok(rest.push(Step::Node(p)), t, pos, c) {
        let m = choose|m: (int, Captures)|
            #[trigger] within(t, m) && node_reach(model(*p), t, pos, c, m.0, m.1) && cont_ok(
                rest,
                t,
                m.0,
                m.1,
            );
        let (j, cm) = choose|j: int, cm: Captures|
            #![trigger ms[j], within(t, (m.0, cm))]
            0 <= j < ms.len() && within(t, (m.0, cm)) && seq_reach(ms[j], 0, t, pos, c, m.0, cm)
                && m.1 == cm.insert(k as int, t.subrange(pos, m.0));
        assert(branch_ok(rest, models(bs[j]@), k, t, pos, c));
    }
    if exists|j: int| 0 <= j < bs.len() && #[trigger] branch_ok(rest, models(bs[j]@), k, t, pos, c) {
        let j = choose|j: int|
            0 <= j < bs.len() && #[trigger] branch_ok(rest, models(bs[j]@), k, t, pos, c);
        let m = choose|m: (int, Captures)|
            #[trigger] within(t, m) && seq_reach(models(bs[j]@), 0, t, pos, c, m.0, m.1) && cont_ok(
                rest,
                t,
                m.0,
                m.1.insert(k as int, t.subrange(pos, m.0)),
            );
        let m2 = (m.0, m.1.insert(k as int, t.subrange(pos, m.0)));
        assert(within(t, m2));
        assert(within(t, (m.0, m.1)));
        assert(ms[j] == models(bs[j]@));
        assert(model(*p) == Node::Alternation(ms, k as nat));
        assert(seq_reach(ms[j], 0, t, pos, c, m.0, m.1));
        assert(0 <= j < ms.len());
        assert(m2.1 == m.1.insert((k as nat) as int, t.subrange(pos, m2.0)));
        let q = model(*p);
        assert(q->Alternation_0 == ms);
        assert(exists|i: int, cm: Captures|
            #![trigger q->Alternation_0[i], within(t, (m2.0, cm))]
            0 <= i < q->Alternation_0.len() && within(t, (m2.0, cm)) && seq_reach(
                q->Alternation_0[i],
                0,
                t,
                pos,
                c,
                m2.0,
                cm,
            ) && m2.1 == cm.insert(q->Alternation_1 as int, t.subrange(pos, m2.0)));
        assert(node_reach(model(*p), t, pos, c, m2.0, m2.1));
    }
}


fn contains_char(members: &String, c: char) -> (r: bool)
    ensures
        r == members@.contains(c),
{
    let v = chars_of(members.as_str());
    let mut i: usize = 0;
    while i < v.len()
        invariant
            i <= v@.len(),
            v@ == members@,
            forall|j: int| 0 <= j < i ==> v@[j] != c,
        decreases v@.len() - i,
    {
        if v[i] == c {
            assert(v@[i as int] == c);
            return true;
        }
        i = i + 1;
    }
    false
}

/// Whether the single-character node `p` accepts `c`.
fn accepts_char(p: &Pattern, c: char) -> (r: bool)
    requires
        is_single(model(*p)),
    ensures
        r == accepts(model(*p), c),
{
    match p {
        Pattern::Literal(x) => *x == c,
        Pattern::Digit => '0' <= c && c <= '9',
        Pattern::Alphanumeric => is_word_char(char_is_alphanumeric(c), c),
        Pattern::PositiveGroup(members) => contains_char(members, c),
        Pattern::NegativeGroup(members) => !contains_char(members, c),
        _ => true,
    }
}

proof fn lemma_caps_lookup(l: Seq<(usize, usize, usize)>, t: Seq<char>, j: int, k: usize)
    requires
        0 <= j <= l.len(),
        forall|m: int| j <= m < l.len() ==> (#[trigger] l[m]).0 != k,
    ensures
        caps_map(l, t).contains_key(k as int) == caps_map(l.subrange(0, j), t).contains_key(k as int),
        caps_map(l, t).contains_key(k as int) ==> caps_map(l, t)[k as int] == caps_map(
            l.subrange(0, j),
            t,
        )[k as int],
    decreases l.len(),
{
    if j == l.len() {
        assert(l.subrange(0, j) =~= l);
    } else {
        let l2 = l.drop_last();
        assert(l2.subrange(0, j) =~= l.subrange(0, j));
        assert(l.last() == l[l.len() - 1]);
        lemma_caps_lookup(l2, t, j, k);
    }
}

/// The text last captured under index `k`, as offsets into the text.
fn lookup(caps: &Vec<(usize, usize, usize)>, k: usize, Ghost(t): Ghost<Seq<char>>) -> (r: Option<
    (usize, usize),
>)
    requires
        caps_wf(caps@, t.len() as int),
    ensures
        match r {
            Some(se) => {
                &&& caps_map(caps@, t).contains_key(k as int)
                &&& caps_map(caps@, t)[k as int] == t.subrange(se.0 as int, se.1 as int)
                &&& se.0 <= se.1 <= t.len()
            },
            None => !caps_map(caps@, t).contains_key(k as int),
        },
{
    let mut j = caps.len();
    while j > 0
        invariant
            j <= caps@.len(),
            caps_wf(caps@, t.len() as int),
            forall|m: int| j <= m < caps@.len() ==> (#[trigger] caps@[m]).0 != k,
        decreases j,
    {
        j = j - 1;
        let e = caps[j];
        if e.0 == k {
            proof {
                lemma_caps_lookup(caps@, t, j + 1, k);
                let l1 = caps@.subrange(0, j + 1);
                assert(l1.drop_last() =~= caps@.subrange(0, j as int));
                assert(caps@[j as int].1 <= caps@[j as int].2);
            }
            return Some((e.1, e.2));
        }
    }
    proof {
        lemma_caps_lookup(caps@, t, 0, k);
    }
    None
}

/// Where the text at `pos` ends if it repeats the text from `s` to `e`; `None`
/// if it does not.
fn repeats_at(t: &Vec<char>, s: usize, e: usize, pos: usize) -> (r: Option<usize>)
    requires
        s <= e <= t@.len(),
        pos <= t@.len(),
    ensures
        match r {
            Some(end) => end == pos + (e - s) && end <= t@.len() && t@.subrange(pos as int, end as int)
                == t@.subrange(s as int, e as int),
            None => !(pos + (e - s) <= t@.len() && t@.subrange(pos as int, pos + (e - s))
                == t@.subrange(s as int, e as int)),
        },
{
    let n = e - s;
    let len = t.len();
    if n > len - pos {
        return None;
    }
    let mut j: usize = 0;
    while j < n
        invariant
            len == t@.len(),
            j <= n,
            n == e - s,
            pos + n <= t@.len(),
            s <= e <= t@.len(),
            t@.subrange(pos as int, pos + j) == t@.subrange(s as int, s + j),
        decreases n - j,
    {
        if t[pos + j] != t[s + j] {
            assert(t@.subrange(pos as int, pos + n)[j as int] != t@.subrange(s as int, e as int)[j as int]);
            return None;
        }
        assert(t@.subrange(pos as int, pos + j + 1) =~= t@.subrange(pos as int, pos + j).push(t@[pos + j]));
        assert(t@.subrange(s as int, s + j + 1) =~= t@.subrange(s as int, s + j).push(t@[s + j]));
        j = j + 1;
    }
    Some(pos + n)
}


proof fn lemma_wf_split<'a>(k: Seq<Step<'a>>, pos: int)
    requires
        k.len() > 0,
        steps_wf(k, pos),
    ensures
        steps_wf(k.drop_last(), pos),
        step_wf(k.last(), pos),
{
    assert(step_wf(k[k.len() - 1], pos));
    assert forall|j: int| 0 <= j < k.drop_last().len() implies step_wf(
        #[trigger] k.drop_last()[j],
        pos,
    ) by {
        assert(step_wf(k[j], pos));
    }
}

proof fn lemma_wf_push<'a>(k: Seq<Step<'a>>, x: Step<'a>, pos: int)
    requires
        steps_wf(k, pos),
        step_wf(x, pos),
    ensures
        steps_wf(k.push(x), pos),
{
    assert forall|j: int| 0 <= j < k.push(x).len() implies step_wf(#[trigger] k.push(x)[j], pos) by {
        if j < k.len() {
            assert(step_wf(k[j], pos));
        }
    }
}

proof fn lemma_wf_advance<'a>(k: Seq<Step<'a>>, pos: int, pos2: int)
    requires
        steps_wf(k, pos),
        pos <= pos2,
    ensures
        steps_wf(k, pos2),
{
    assert forall|j: int| 0 <= j < k.len() implies step_wf(#[trigger] k[j], pos2) by {
        assert(step_wf(k[j], pos));
    }
}

proof fn lemma_weight_push<'a>(k: Seq<Step<'a>>, x: Step<'a>, pos: int)
    ensures
        weight(k.push(x), pos) == weight(k, pos) + step_weight(x, pos),
{
    lemma_push(k, x);
}

/// Whether the steps of `stack`, its top last, can all be met from `pos` with
/// the captures `caps`. The stack and the captures are handed back unchanged.
fn solve<'a>(
    stack: &mut Vec<Step<'a>>,
    t: &Vec<char>,
    pos: usize,
    caps: &mut Vec<(usize, usize, usize)>,
) -> (r: bool)
    requires
        pos <= t@.len(),
        steps_wf(old(stack)@, pos as int),
        caps_wf(old(caps)@, t@.len() as int),
    ensures
        final(stack)@ == old(stack)@,
        final(caps)@ == old(caps)@,
        r == cont_ok(old(stack)@, t@, pos as int, caps_map(old(caps)@, t@)),
    decreases t@.len() - pos, weight(old(stack)@, pos as int), 1nat,
{
    let ghost k = stack@;
    let ghost c = caps_map(caps@, t@);
    let ghost caps0 = caps@;
    let top = match stack.pop() {
        Some(x) => x,
        None => {
            return true;
        },
    };
    let ghost rest = stack@;
    proof {
        assert(k =~= rest.push(top));
        lemma_push(rest, top);
        lemma_wf_split(k, pos as int);
        lemma_weight_push(rest, top, pos as int);
    }
    let r = match top {
        Step::Rest(v, i) => {
            if i < v.len() {
                let node = &v[i];
                let s1 = Step::Rest(v, i + 1);
                let s2 = Step::Node(node);
                stack.push(s1);
                stack.push(s2);
                proof {
                    lemma_rest_next(rest, v, i, node, t@, pos as int, c);
                    lemma_weight_push(rest, s1, pos as int);
                    lemma_weight_push(rest.push(s1), s2, pos as int);
                    lemma_wf_push(rest, s1, pos as int);
                    lemma_wf_push(rest.push(s1), s2, pos as int);
                    lemma_push(rest, s1);
                    lemma_push(rest.push(s1), s2);
                }
                let r = solve(stack, t, pos, caps);
                stack.pop();
                stack.pop();
                r
            } else {
                proof {
                    lemma_rest_done(rest, v, i, t@, pos as int, c);
                }
                solve(stack, t, pos, caps)
            }
        },
        Step::Close(idx, start) => {
            caps.push((idx, start, pos));
            proof {
                lemma_push(caps0, (idx, start, pos));
                assert(caps_map(caps@, t@) == c.insert(idx as int, t@.subrange(start as int, pos as int)));
                assert forall|m: int| 0 <= m < caps@.len() implies #[trigger] caps@[m].1 <= caps@[m].2
                    && caps@[m].2 <= t@.len() by {
                    if m < caps0.len() {
                        assert(caps0[m] == caps@[m]);
                    }
                }
                lemma_close(rest, idx, start, t@, pos as int, c);
            }
            let r = solve(stack, t, pos, caps);
            caps.pop();
            proof {
                lemma_push(caps0, (idx, start, pos));
            }
            r
        },
        Step::Again(p, start) => {
            let mut r = false;
            if start < pos {
                match p {
                    Pattern::OneOrMore(inner) => {
                        let ir: &Pattern = &**inner;
                        let s1 = Step::Again(p, pos);
                        let s2 = Step::Node(ir);
                        stack.push(s1);
                        stack.push(s2);
                        proof {
                            lemma_one_or_more(rest, p, ir, t@, pos as int, c);
                            lemma_weight_push(rest, s1, pos as int);
                            lemma_weight_push(rest.push(s1), s2, pos as int);
                            lemma_wf_push(rest, s1, pos as int);
                            lemma_wf_push(rest.push(s1), s2, pos as int);
                            lemma_push(rest, s1);
                            lemma_push(rest.push(s1), s2);
                        }
                        r = solve(stack, t, pos, caps);
                        stack.pop();
                        stack.pop();
                    },
                    _ => {},
                }
            }
            proof {
                lemma_again(rest, p, start, t@, pos as int, c);
            }
            if r {
                true
            } else {
                solve(stack, t, pos, caps)
            }
        },
        Step::Node(p) => solve_node(stack, t, pos, caps, p),
    };
    stack.push(top);
    r
}

/// Whether node `p`, followed by the steps of `stack`, can be met from `pos` with
/// the captures `caps`. The stack and the captures are handed back unchanged.
fn solve_node<'a>(
    stack: &mut Vec<Step<'a>>,
    t: &Vec<char>,
    pos: usize,
    caps: &mut Vec<(usize, usize, usize)>,
    p: &'a Pattern,
) -> (r: bool)
    requires
        pos <= t@.len(),
        steps_wf(old(stack)@, pos as int),
        caps_wf(old(caps)@, t@.len() as int),
    ensures
        final(stack)@ == old(stack)@,
        final(caps)@ == old(caps)@,
        r == cont_ok(old(stack)@.push(Step::Node(p)), t@, pos as int, caps_map(old(caps)@, t@)),
    decreases t@.len() - pos, weight(old(stack)@, pos as int) + size(*p), 0nat,
{
    let ghost rest = stack@;
    let ghost c = caps_map(caps@, t@);
    proof {
        lemma_size_positive(*p);
    }
    match p {
        Pattern::StartOfString => {
            let ok = pos == 0;
            proof {
                lemma_det(rest, p, t@, pos as int, c, ok, pos as int);
            }
            ok && solve(stack, t, pos, caps)
        },
        Pattern::EndOfString => {
            let ok = pos == t.len();
            proof {
                lemma_det(rest, p, t@, pos as int, c, ok, pos as int);
            }
            ok && solve(stack, t, pos, caps)
        },
        Pattern::ZeroOrOne(inner) => {
            let ir: &Pattern = &**inner;
            let s1 = Step::Node(ir);
            stack.push(s1);
            proof {
                lemma_zero_or_one(rest, p, ir, t@, pos as int, c);
                lemma_weight_push(rest, s1, pos as int);
                lemma_wf_push(rest, s1, pos as int);
                lemma_push(rest, s1);
            }
            let r = solve(stack, t, pos, caps);
            stack.pop();
            r || solve(stack, t, pos, caps)
        },
        Pattern::OneOrMore(inner) => {
            let ir: &Pattern = &**inner;
            let s1 = Step::Again(p, pos);
            let s2 = Step::Node(ir);
            stack.push(s1);
            stack.push(s2);
            proof {
                lemma_one_or_more(rest, p, ir, t@, pos as int, c);
                lemma_weight_push(rest, s1, pos as int);
                lemma_weight_push(rest.push(s1), s2, pos as int);
                lemma_wf_push(rest, s1, pos as int);
                lemma_wf_push(rest.push(s1), s2, pos as int);
                lemma_push(rest, s1);
                lemma_push(rest.push(s1), s2);
            }
            let r = solve(stack, t, pos, caps);
            stack.pop();
            stack.pop();
            r
        },
        Pattern::CapturingGroup(body, idx) => {
            let s1 = Step::Close(*idx, pos);
            let s2 = Step::Rest(body, 0);
            stack.push(s1);
            stack.push(s2);
            proof {
                lemma_group(rest, p, t@, pos as int, c);
                lemma_branch(rest, body, *idx, t@, pos as int, c);
                lemma_weight_push(rest, s1, pos as int);
                lemma_weight_push(rest.push(s1), s2, pos as int);
                lemma_wf_push(rest, s1, pos as int);
                lemma_wf_push(rest.push(s1), s2, pos as int);
                lemma_push(rest, s1);
                lemma_push(rest.push(s1), s2);
            }
            let r = solve(stack, t, pos, caps);
            stack.pop();
            stack.pop();
            r
        },
        Pattern::Alternation(branches, idx) => {
            let ghost caps0 = caps@;
            let mut j: usize = 0;
            let mut found = false;
            while !found && j < branches.len()
                invariant
                    stack@ == rest,
                    old(stack)@ == rest,
                    caps@ == caps0,
                    c == caps_map(caps0, t@),
                    pos <= t@.len(),
                    steps_wf(rest, pos as int),
                    caps_wf(caps0, t@.len() as int),
                    *p == Pattern::Alternation(*branches, *idx),
                    j <= branches@.len(),
                    found ==> exists|jj: int|
                        0 <= jj < branches@.len() && #[trigger] branch_ok(
                            rest,
                            models(branches@[jj]@),
                            *idx,
                            t@,
                            pos as int,
                            c,
                        ),
                    !found ==> forall|jj: int|
                        0 <= jj < j ==> !#[trigger] branch_ok(
                            rest,
                            models(branches@[jj]@),
                            *idx,
                            t@,
                            pos as int,
                            c,
                        ),
                decreases branches@.len() - j,
            {
                let b: &Vec<Pattern> = &branches[j];
                let s1 = Step::Close(*idx, pos);
                let s2 = Step::Rest(b, 0);
                stack.push(s1);
                stack.push(s2);
                proof {
                    lemma_branch(rest, b, *idx, t@, pos as int, c);
                    lemma_branches_size(branches@, 0, j as int);
                    lemma_weight_push(rest, s1, pos as int);
                    lemma_weight_push(rest.push(s1), s2, pos as int);
                    lemma_wf_push(rest, s1, pos as int);
                    lemma_wf_push(rest.push(s1), s2, pos as int);
                    lemma_push(rest, s1);
                    lemma_push(rest.push(s1), s2);
                }
                let r = solve(stack, t, pos, caps);
                stack.pop();
                stack.pop();
                if r {
                    found = true;
                }
                j = j + 1;
            }
            proof {
                lemma_alternation(rest, p, t@, pos as int, c);
            }
            found
        },
        Pattern::Backreference(idx) => {
            match lookup(caps, *idx, Ghost(t@)) {
                Some((s, e)) => {
                    let end = repeats_at(t, s, e, pos);
                    proof {
                        lemma_det(rest, p, t@, pos as int, c, end is Some, pos + (e - s));
                    }
                    match end {
                        Some(end) => {
                            proof {
                                lemma_wf_advance(rest, pos as int, end as int);
                            }
                            solve(stack, t, end, caps)
                        },
                        None => false,
                    }
                },
                None => {
                    proof {
                        lemma_det(rest, p, t@, pos as int, c, false, pos as int);
                    }
                    false
                },
            }
        },
        _ => {
            let ok = pos < t.len() && accepts_char(p, t[pos]);
            proof {
                lemma_det(rest, p, t@, pos as int, c, ok, pos + 1);
            }
            if ok {
                proof {
                    lemma_wf_advance(rest, pos as int, pos + 1);
                }
                solve(stack, t, pos + 1, caps)
            } else {
                false
            }
        },
    }
}

proof fn lemma_start<'a>(nodes: &'a Vec<Pattern>, t: Seq<char>, start: int)
    requires
        0 <= start <= t.len(),
    ensures
        cont_ok(seq![Step::Rest(nodes, 0)], t, start, caps_map(Seq::empty(), t)) == matches_at(
            models(nodes@),
            t,
            start,
        ),
{
    let k = seq![Step::Rest(nodes, 0)];
    let e: Captures = Map::empty();
    assert(caps_map(Seq::empty(), t) == e);
    assert(k.drop_last() =~= Seq::empty());
    if cont_ok(k, t, start, e) {
        let m = choose|m: (int, Captures)|
            #[trigger] within(t, m) && seq_reach(models(nodes@), 0, t, start, e, m.0, m.1) && cont_ok(
                Seq::empty(),
                t,
                m.0,
                m.1,
            );
        assert(matches_at(models(nodes@), t, start));
    }
    if matches_at(models(nodes@), t, start) {
        let (end, c2) = choose|end: int, c2: Captures|
            #[trigger] seq_reach(models(nodes@), 0, t, start, e, end, c2);
        lemma_seq_bounds(models(nodes@), 0, t, start, e, end, c2);
        assert(within(t, (end, c2)));
        assert(cont_ok(Seq::<Step>::empty(), t, end, c2));
    }
}

/// Nodes that start with a start anchor match at offset 0 or nowhere.
proof fn lemma_anchored(nodes: Seq<Node>, t: Seq<char>, start: int)
    requires
        nodes.len() > 0,
        nodes[0] is StartOfString,
        start != 0,
    ensures
        !matches_at(nodes, t, start),
{
    if matches_at(nodes, t, start) {
        let (end, c2) = choose|end: int, c2: Captures|
            #[trigger] seq_reach(nodes, 0, t, start, Map::empty(), end, c2);
        let m = choose|m: (int, Captures)|
            #[trigger] within(t, m) && node_reach(nodes[0], t, start, Map::empty(), m.0, m.1)
                && seq_reach(nodes, 1, t, m.0, m.1, end, c2);
    }
}

/// Whether the nodes match `text`: at some offset from 0 through the length of
/// the text, in increasing order, with a fresh capture table at each; only at
/// offset 0 when the nodes start with a start anchor.
pub fn is_match(nodes: &Vec<Pattern>, text: &str) -> (r: bool)
    ensures
        r == matches_text(models(nodes@), text@),
{
    let t = chars_of(text);
    let anchored = nodes.len() > 0 && matches!(nodes[0], Pattern::StartOfString);
    proof {
        lemma_models(nodes@);
        if anchored {
            assert forall|s: int| 0 < s <= t@.len() implies !#[trigger] matches_at(
                models(nodes@),
                t@,
                s,
            ) by {
                lemma_anchored(models(nodes@), t@, s);
            }
        }
    }
    let mut stack: Vec<Step> = Vec::new();
    let mut caps: Vec<(usize, usize, usize)> = Vec::new();
    stack.push(Step::Rest(nodes, 0));
    let mut start: usize = 0;
    loop
        invariant
            start <= t@.len(),
            t@ == text@,
            anchored ==> forall|s: int| 0 < s <= t@.len() ==> !#[trigger] matches_at(
                models(nodes@),
                t@,
                s,
            ),
            stack@ == seq![Step::Rest(nodes, 0)],
            caps@ == Seq::<(usize, usize, usize)>::empty(),
            forall|s: int| 0 <= s < start ==> !#[trigger] matches_at(models(nodes@), t@, s),
        decreases t@.len() - start,
    {
        proof {
            lemma_start(nodes, t@, start as int);
            assert(steps_wf(stack@, start as int));
        }
        if solve(&mut stack, &t, start, &mut caps) {
            return true;
        }
        if anchored || start == t.len() {
            return false;
        }
        start = start + 1;
    }
}

/// Whether `pattern_string` compiles and its nodes match `input_string`; a pattern
/// that does not compile matches nothing.
pub fn match_pattern(input_string: &str, pattern_string: &str) -> (r: bool)
    ensures
        r == (compile(pattern_string@) is Ok && matches_text(
            compile(pattern_string@)->Ok_0,
            input_string@,
        )),
{
    match parse_pattern(pattern_string) {
        Ok(nodes) => is_match(&nodes, input_string),
        Err(_) => false,
    }
}

} // verus!
