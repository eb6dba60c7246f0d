//! The pattern compiler: a scan of the pattern string, proved to produce what
//! the grammar says.
use vstd::prelude::*;

use vstd::string::StrSliceExecFns;

use crate::grammar::{
    alternatives, class_end, class_node, closing, escape_node, is_backref_digit, plain_node, compile, compile_alternatives, compile_from,
    scan_step, split_from,
};
use crate::pattern::{
    branch_models, lemma_branch_models_push, lemma_models_pop, lemma_models_push, model, models,
    Node, Pattern, PatternError,
};
use crate::text::chars_of;

verus! {

/// One step of the structural scan.
fn step(ch: char, depth: usize, in_class: bool) -> (r: (usize, usize, bool))
    requires
        depth < usize::MAX,
    ensures
        scan_step(ch, depth as nat, in_class) == (r.0 as int, r.1 as nat, r.2),
        1 <= r.0 <= 2,
        r.1 <= depth + 1,
{
    if in_class {
        (1, depth, ch != ']')
    } else if ch == '\\' {
        (2, depth, false)
    } else if ch == '[' {
        (1, depth, true)
    } else if ch == '(' {
        (1, depth + 1, false)
    } else if ch == ')' {
        (1, if depth > 0 { depth - 1 } else { 0 }, false)
    } else {
        (1, depth, false)
    }
}

/// The index of the first `]` at or after `j`, below `hi`.
fn find_class_end(q: &Vec<char>, lo: usize, hi: usize, j: usize) -> (r: Option<usize>)
    requires
        lo <= j <= hi <= q@.len(),
    ensures
        match r {
            Some(e) => class_end(q@.subrange(lo as int, hi as int), j - lo) == Some(e - lo) && j
                <= e < hi,
            None => class_end(q@.subrange(lo as int, hi as int), j - lo) is None,
        },
{
    let ghost sub = q@.subrange(lo as int, hi as int);
    let mut k = j;
    while k < hi
        invariant
            lo <= j <= k <= hi <= q@.len(),
            sub == q@.subrange(lo as int, hi as int),
            class_end(sub, k - lo) == class_end(sub, j - lo),
        decreases hi - k,
    {
        if q[k] == ']' {
            return Some(k);
        }
        k = k + 1;
    }
    None
}

/// The index of the `)` that closes a group whose content starts at `j`, below
/// `hi`.
fn find_closing(q: &Vec<char>, lo: usize, hi: usize, j: usize) -> (r: Option<usize>)
    requires
        lo <= j <= hi <= q@.len(),
    ensures
        match r {
            Some(e) => closing(q@.subrange(lo as int, hi as int), j - lo, 0, false) == Some(
                e - lo,
            ) && j <= e < hi,
            None => closing(q@.subrange(lo as int, hi as int), j - lo, 0, false) is None,
        },
{
    let ghost sub = q@.subrange(lo as int, hi as int);
    let mut k = j;
    let mut depth: usize = 0;
    let mut in_class = false;
    while k < hi
        invariant
            lo <= j <= k,
            k <= hi,
            hi <= q@.len(),
            depth <= k,
            sub == q@.subrange(lo as int, hi as int),
            closing(sub, k - lo, depth as nat, in_class) == closing(sub, j - lo, 0, false),
        decreases hi - k,
    {
        let ch = q[k];
        if !in_class && depth == 0 && ch == ')' {
            return Some(k);
        }
        let (adv, d2, c2) = step(ch, depth, in_class);
        proof {
            assert(sub[k - lo] == ch);
            assert(closing(sub, k - lo, depth as nat, in_class) == closing(
                sub,
                k - lo + adv,
                d2 as nat,
                c2,
            ));
            assert(closing(sub, k - lo + adv, d2 as nat, c2) == closing(sub, k - lo + adv, d2 as nat, c2));
            if adv > hi - k {
                assert(closing(sub, k - lo + adv, d2 as nat, c2) is None);
                assert(closing(sub, hi - lo, d2 as nat, c2) is None);
            }
        }
        k = if adv > hi - k {
            hi
        } else {
            k + adv
        };
        depth = d2;
        in_class = c2;
    }
    None
}

proof fn lemma_leaf_models(c: char, k: usize)
    ensures
        model(Pattern::Literal(c)) == Node::Literal(c),
        model(Pattern::Digit) == Node::Digit,
        model(Pattern::Alphanumeric) == Node::Alphanumeric,
        model(Pattern::Wildcard) == Node::Wildcard,
        model(Pattern::StartOfString) == Node::StartOfString,
        model(Pattern::EndOfString) == Node::EndOfString,
        model(Pattern::Backreference(k)) == Node::Backreference(k as nat),
{
}

/// The text of each range of `q`.
spec fn range_texts(q: Seq<char>, r: Seq<(usize, usize)>) -> Seq<Seq<char>> {
    r.map_values(|x: (usize, usize)| q.subrange(x.0 as int, x.1 as int))
}

/// The ranges of the alternatives of the group content from `a` to `b`.
fn split_ranges(q: &Vec<char>, a: usize, b: usize) -> (r: Vec<(usize, usize)>)
    requires
        a <= b <= q@.len(),
    ensures
        range_texts(q@, r@) == alternatives(q@.subrange(a as int, b as int)),
        r@.len() >= 1,
        forall|m: int| 0 <= m < r@.len() ==> a <= (#[trigger] r@[m]).0 <= r@[m].1 <= b,
        forall|m: int| 0 < m < r@.len() ==> r@[m - 1].1 < (#[trigger] r@[m]).0,
{
    let ghost content = q@.subrange(a as int, b as int);
    let mut r: Vec<(usize, usize)> = Vec::new();
    let mut j = a;
    let mut start = a;
    let mut depth: usize = 0;
    let mut in_class = false;
    while j < b
        invariant
            a <= start <= j,
            start <= b,
            j <= b,
            b <= q@.len(),
            depth <= j,
            content == q@.subrange(a as int, b as int),
            alternatives(content) == range_texts(q@, r@) + split_from(
                content,
                j - a,
                start - a,
                depth as nat,
                in_class,
            ),
            forall|m: int| 0 <= m < r@.len() ==> a <= (#[trigger] r@[m]).0 <= r@[m].1 < start,
            forall|m: int| 0 < m < r@.len() ==> r@[m - 1].1 < (#[trigger] r@[m]).0,
        decreases b - j,
    {
        let ch = q[j];
        if !in_class && depth == 0 && ch == '|' {
            proof {
                let piece = content.subrange(start - a, j - a);
                assert(piece =~= q@.subrange(start as int, j as int));
                let old_r = r@;
                let tail = split_from(content, j - a + 1, j - a + 1, 0, false);
                assert(range_texts(q@, old_r.push((start, j))) =~= range_texts(q@, old_r).push(piece));
                assert(range_texts(q@, old_r) + (seq![piece] + tail) =~= range_texts(q@, old_r).push(
                    piece,
                ) + tail);
            }
            r.push((start, j));
            j = j + 1;
            start = j;
            depth = 0;
            in_class = false;
        } else {
            let (adv, d2, c2) = step(ch, depth, in_class);
            proof {
                assert(content[j - a] == ch);
                assert(split_from(content, j - a, start - a, depth as nat, in_class) == split_from(
                    content,
                    j - a + adv,
                    start - a,
                    d2 as nat,
                    c2,
                ));
                if adv > b - j {
                    assert(split_from(content, j - a + adv, start - a, d2 as nat, c2) == split_from(
                        content,
                        b - a,
                        start - a,
                        d2 as nat,
                        c2,
                    ));
                }
            }
            j = if adv > b - j {
                b
            } else {
                j + adv
            };
            depth = d2;
            in_class = c2;
        }
    }
    proof {
        let piece = content.subrange(start - a, content.len() as int);
        assert(piece =~= q@.subrange(start as int, b as int));
        let old_r = r@;
        assert(range_texts(q@, old_r.push((start, b))) =~= range_texts(q@, old_r).push(piece));
        assert(range_texts(q@, old_r) + seq![piece] =~= range_texts(q@, old_r).push(piece));
    }
    r.push((start, b));
    r
}

/// Compiles the text `q[lo..hi)`, whose constructs take the capture indices after
/// `opened`; `top` when the text is the whole pattern. The result holds the nodes
/// and the last capture index taken.
fn compile_range(src: &str, q: &Vec<char>, lo: usize, hi: usize, opened: usize, top: bool) -> (r:
    Result<(Vec<Pattern>, usize), PatternError>)
    requires
        q@ == src@,
        lo <= hi <= q@.len(),
        opened <= lo,
    ensures
        match r {
            Ok((v, o2)) => compile_from(
                q@.subrange(lo as int, hi as int),
                0,
                (opened + 1) as nat,
                top,
                Seq::empty(),
            ) == Ok::<(Seq<Node>, nat), PatternError>((models(v@), (o2 + 1) as nat)) && o2 <= hi,
            Err(e) => compile_from(
                q@.subrange(lo as int, hi as int),
                0,
                (opened + 1) as nat,
                top,
                Seq::empty(),
            ) == Err::<(Seq<Node>, nat), PatternError>(e),
        },
    decreases hi - lo, 1nat,
{
    let ghost sub = q@.subrange(lo as int, hi as int);
    let ghost whole = compile_from(sub, 0, (opened + 1) as nat, top, Seq::empty());
    let mut acc: Vec<Pattern> = Vec::new();
    let mut i = lo;
    let mut o = opened;
    proof {
        assert(models(acc@) == Seq::<Node>::empty());
    }
    while i < hi
        invariant
            lo <= i <= hi,
            hi <= q@.len(),
            q@ == src@,
            sub == q@.subrange(lo as int, hi as int),
            o <= i,
            whole == compile_from(sub, 0, (opened + 1) as nat, top, Seq::empty()),
            compile_from(sub, i - lo, (o + 1) as nat, top, models(acc@)) == whole,
        decreases hi - i,
    {
        let ch = q[i];
        let ghost n = (o + 1) as nat;
        let ghost am = models(acc@);
        let ghost ii = i - lo;
        proof {
            assert(sub[ii] == ch);
            assert(0 <= ii < sub.len());
        }
        if ch == '[' {
            match find_class_end(q, lo, hi, i + 1) {
                None => {
                    assert(compile_from(sub, ii, n, top, am) == Err::<(Seq<Node>, nat), PatternError>(
                        PatternError::UnterminatedClass,
                    ));
                    return Err(PatternError::UnterminatedClass);
                },
                Some(e) => {
                    let node = if e > i + 1 && q[i + 1] == '^' {
                        Pattern::NegativeGroup(src.substring_char(i + 2, e).to_owned())
                    } else {
                        Pattern::PositiveGroup(src.substring_char(i + 1, e).to_owned())
                    };
                    proof {
                        let m = sub.subrange(i - lo + 1, e - lo);
                        assert(m =~= q@.subrange(i + 1, e as int));
                        if e > i + 1 && q@[i + 1] == '^' {
                            assert(m.drop_first() =~= q@.subrange(i + 2, e as int));
                        }
                        assert(model(node) == class_node(m));
                        lemma_models_push(acc@, node);
                        assert(compile_from(sub, ii, n, top, am) == compile_from(
                            sub,
                            e + 1 - lo,
                            n,
                            top,
                            am.push(class_node(m)),
                        ));
                    }
                    acc.push(node);
                    i = e + 1;
                },
            }
        } else if ch == '^' {
            if top && i == lo {
                proof {
                    lemma_models_push(acc@, Pattern::StartOfString);
                    assert(compile_from(sub, ii, n, top, am) == compile_from(
                        sub,
                        ii + 1,
                        n,
                        top,
                        am.push(Node::StartOfString),
                    ));
                }
                acc.push(Pattern::StartOfString);
                i = i + 1;
            } else {
                assert(compile_from(sub, ii, n, top, am) == Err::<(Seq<Node>, nat), PatternError>(
                    PatternError::MisplacedAnchor,
                ));
                return Err(PatternError::MisplacedAnchor);
            }
        } else if ch == '$' {
            if top && i + 1 == hi {
                proof {
                    lemma_models_push(acc@, Pattern::EndOfString);
                    assert(compile_from(sub, ii, n, top, am) == Ok::<(Seq<Node>, nat), PatternError>(
                        (am.push(Node::EndOfString), n),
                    ));
                }
                acc.push(Pattern::EndOfString);
                return Ok((acc, o));
            } else {
                assert(compile_from(sub, ii, n, top, am) == Err::<(Seq<Node>, nat), PatternError>(
                    PatternError::MisplacedAnchor,
                ));
                return Err(PatternError::MisplacedAnchor);
            }
        } else if ch == '\\' {
            if i + 1 >= hi {
                assert(compile_from(sub, ii, n, top, am) == Err::<(Seq<Node>, nat), PatternError>(
                    PatternError::DanglingEscape,
                ));
                return Err(PatternError::DanglingEscape);
            }
            let d = q[i + 1];
            proof {
                assert(sub[i - lo + 1] == d);
            }
            let node = if '1' <= d && d <= '9' {
                let k = (d as u32 - '0' as u32) as usize;
                assert(k as int == d as int - '0' as int);
                if k <= o {
                    Pattern::Backreference(k)
                } else {
                    assert(compile_from(sub, ii, n, top, am) == Err::<(Seq<Node>, nat), PatternError>(
                        PatternError::UnknownBackreference,
                    ));
                    return Err(PatternError::UnknownBackreference);
                }
            } else if d == 'd' {
                Pattern::Digit
            } else if d == 'w' {
                Pattern::Alphanumeric
            } else {
                Pattern::Literal(d)
            };
            proof {
                lemma_models_push(acc@, node);
                lemma_leaf_models(d, (d as int - '0' as int) as usize);
                if is_backref_digit(d) {
                    assert(model(node) == Node::Backreference((d as int - '0' as int) as nat));
                } else {
                    assert(model(node) == escape_node(d));
                }
                assert(compile_from(sub, ii, n, top, am) == compile_from(
                    sub,
                    ii + 2,
                    n,
                    top,
                    am.push(model(node)),
                ));
            }
            acc.push(node);
            i = i + 2;
        } else if ch == '(' {
            match find_closing(q, lo, hi, i + 1) {
                None => {
                    assert(compile_from(sub, ii, n, top, am) == Err::<(Seq<Node>, nat), PatternError>(
                        PatternError::UnterminatedGroup,
                    ));
                    return Err(PatternError::UnterminatedGroup);
                },
                Some(e) => {
                    let idx = o + 1;
                    proof {
                        assert(sub.subrange(i - lo + 1, e - lo) =~= q@.subrange(i + 1, e as int));
                    }
                    match compile_group(src, q, i + 1, e, idx) {
                        Err(err) => {
                            assert(compile_from(sub, ii, n, top, am) == Err::<
                                (Seq<Node>, nat),
                                PatternError,
                            >(err));
                            return Err(err);
                        },
                        Ok((bs, o2)) => {
                            let ghost bm = branch_models(bs@);
                            proof {
                                crate::pattern::lemma_branch_models(bs@);
                            }
                            let node = if bs.len() == 1 {
                                let mut bs = bs;
                                let b = bs.pop().unwrap();
                                Pattern::CapturingGroup(b, idx)
                            } else {
                                Pattern::Alternation(bs, idx)
                            };
                            proof {
                                if bm.len() == 1 {
                                    assert(model(node) == Node::CapturingGroup(bm[0], idx as nat));
                                } else {
                                    assert(model(node) == Node::Alternation(bm, idx as nat));
                                }
                                lemma_models_push(acc@, node);
                                assert(compile_from(sub, ii, n, top, am) == compile_from(
                                    sub,
                                    e + 1 - lo,
                                    (o2 + 1) as nat,
                                    top,
                                    am.push(model(node)),
                                ));
                            }
                            acc.push(node);
                            o = o2;
                            i = e + 1;
                        },
                    }
                },
            }
        } else if ch == '?' || ch == '+' {
            if acc.len() == 0 {
                assert(compile_from(sub, ii, n, top, am) == Err::<(Seq<Node>, nat), PatternError>(
                    PatternError::DanglingQuantifier,
                ));
                return Err(PatternError::DanglingQuantifier);
            }
            proof {
                lemma_models_pop(acc@);
            }
            let last = acc.pop().unwrap();
            if let Pattern::StartOfString = last {
                assert(compile_from(sub, ii, n, top, am) == Err::<(Seq<Node>, nat), PatternError>(
                    PatternError::DanglingQuantifier,
                ));
                return Err(PatternError::DanglingQuantifier);
            }
            let node = if ch == '?' {
                Pattern::ZeroOrOne(Box::new(last))
            } else {
                Pattern::OneOrMore(Box::new(last))
            };
            proof {
                lemma_models_push(acc@, node);
                assert(compile_from(sub, ii, n, top, am) == compile_from(
                    sub,
                    ii + 1,
                    n,
                    top,
                    am.drop_last().push(model(node)),
                ));
            }
            acc.push(node);
            i = i + 1;
        } else {
            let node = if ch == '.' {
                Pattern::Wildcard
            } else {
                Pattern::Literal(ch)
            };
            proof {
                lemma_models_push(acc@, node);
                lemma_leaf_models(ch, 0);
                assert(model(node) == plain_node(ch));
                assert(compile_from(sub, ii, n, top, am) == compile_from(
                    sub,
                    ii + 1,
                    n,
                    top,
                    am.push(model(node)),
                ));
            }
            acc.push(node);
            i = i + 1;
        }
    }
    Ok((acc, o))
}

/// Compiles the alternatives of the group content `q[a..b)`, whose constructs
/// take the capture indices after `opened`. The result holds the branches and
/// the last capture index taken.
fn compile_group(src: &str, q: &Vec<char>, a: usize, b: usize, opened: usize) -> (r: Result<
    (Vec<Vec<Pattern>>, usize),
    PatternError,
>)
    requires
        q@ == src@,
        a <= b <= q@.len(),
        opened <= a,
    ensures
        match r {
            Ok((bs, o2)) => compile_alternatives(
                q@.subrange(a as int, b as int),
                0,
                (opened + 1) as nat,
                Seq::empty(),
            ) == Ok::<(Seq<Seq<Node>>, nat), PatternError>((branch_models(bs@), (o2 + 1) as nat))
                && o2 <= b,
            Err(e) => compile_alternatives(
                q@.subrange(a as int, b as int),
                0,
                (opened + 1) as nat,
                Seq::empty(),
            ) == Err::<(Seq<Seq<Node>>, nat), PatternError>(e),
        },
    decreases b - a, 2nat,
{
    let ghost content = q@.subrange(a as int, b as int);
    let ghost whole = compile_alternatives(content, 0, (opened + 1) as nat, Seq::empty());
    let ranges = split_ranges(q, a, b);
    let mut bs: Vec<Vec<Pattern>> = Vec::new();
    let mut o = opened;
    let mut j: usize = 0;
    proof {
        assert(branch_models(bs@) == Seq::<Seq<Node>>::empty());
    }
    while j < ranges.len()
        invariant
            q@ == src@,
            a <= b <= q@.len(),
            content == q@.subrange(a as int, b as int),
            range_texts(q@, ranges@) == alternatives(content),
            forall|m: int| 0 <= m < ranges@.len() ==> a <= (#[trigger] ranges@[m]).0 <= ranges@[m].1 <= b,
            forall|m: int| 0 < m < ranges@.len() ==> ranges@[m - 1].1 < (#[trigger] ranges@[m]).0,
            j <= ranges@.len(),
            j < ranges@.len() ==> o <= ranges@[j as int].0,
            o <= b,
            whole == compile_alternatives(content, 0, (opened + 1) as nat, Seq::empty()),
            compile_alternatives(content, j as int, (o + 1) as nat, branch_models(bs@)) == whole,
        decreases ranges@.len() - j,
    {
        let (x, y) = ranges[j];
        proof {
            assert(range_texts(q@, ranges@)[j as int] == q@.subrange(x as int, y as int));
        }
        match compile_range(src, q, x, y, o, false) {
            Err(e) => {
                return Err(e);
            },
            Ok((v, o2)) => {
                proof {
                    lemma_branch_models_push(bs@, v);
                    if j + 1 < ranges@.len() {
                        assert(ranges@[j as int].1 < ranges@[j + 1].0);
                    }
                }
                bs.push(v);
                o = o2;
            },
        }
        j = j + 1;
    }
    Ok((bs, o))
}

/// Compiles a pattern string into its nodes.
pub fn parse_pattern(pattern: &str) -> (r: Result<Vec<Pattern>, PatternError>)
    ensures
        match r {
            Ok(v) => compile(pattern@) == Ok::<Seq<Node>, PatternError>(models(v@)),
            Err(e) => compile(pattern@) == Err::<Seq<Node>, PatternError>(e),
        },
{
    let q = chars_of(pattern);
    proof {
        assert(q@.subrange(0, q@.len() as int) =~= q@);
    }
    match compile_range(pattern, &q, 0, q.len(), 0, true) {
        Ok((v, _)) => Ok(v),
        Err(e) => Err(e),
    }
}

} // verus!
