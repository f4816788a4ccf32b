//! Compilation of a pattern string into a sequence of nodes.
//!
//! The pattern is read left to right, one character at a time, against a
//! working list of already-built nodes:
//!
//! - `^`, `$`, `.` push `AnchorStart`, `AnchorEnd`, `Wildcard`;
//! - `?` and `*` wrap the previously built node in `Optional` / `Repeat`
//!   and fail when there is none;
//! - `(` opens a capture group reaching to the first `)`; the enclosed
//!   characters are compiled recursively;
//! - `[` opens a character class reaching to the first `]`; a leading `^`
//!   negates it, `a-b` adds an inclusive range, any other character adds
//!   itself as a single member;
//! - alternation (`|`) and escaping (`\`) are unsupported and rejected;
//! - any other character becomes a `Literal` of itself.

use vstd::prelude::*;

use crate::ast::Node;
use crate::ast::SpecNode;
use crate::ast::lemma_nodes_view;
use crate::ast::node_view;
use crate::ast::lemma_nodes_view_drop_last;
use crate::ast::lemma_node_view_literal;
use crate::ast::lemma_nodes_view_push;
use crate::ast::nodes_view;

verus! {

/// Why a pattern failed to compile.
#[derive(Debug, Clone, Copy, PartialEq, Eq, Structural)]
pub enum CompileError {
    /// A `?` or `*` had no preceding node to apply to.
    DanglingQuantifier,
    /// A `(` without a matching `)`.
    UnterminatedGroup,
    /// A `[` without a matching `]`.
    UnterminatedClass,
    /// An unsupported construct: alternation or escaping.
    Unsupported,
    /// A class range `a-b` whose bounds are in the wrong order.
    InvalidClassRange,
}

/// Index of the first occurrence of `c` in `s`, if any.
pub open spec fn find_char(s: Seq<char>, c: char) -> Option<int>
    decreases s.len(),
{
    if s.len() == 0 {
        None
    } else if s[0] == c {
        Some(0int)
    } else {
        match find_char(s.drop_first(), c) {
            Some(j) => Some(j + 1),
            None => None,
        }
    }
}

/// `find_char` returns the first occurrence of `c`, or `None` exactly
/// when `c` does not occur.
pub proof fn lemma_find_char(s: Seq<char>, c: char)
    ensures
        match find_char(s, c) {
            Some(j) => 0 <= j < s.len() && s[j] == c && forall|k: int|
                0 <= k < j ==> s[k] != c,
            None => forall|k: int| 0 <= k < s.len() ==> s[k] != c,
        },
    decreases s.len(),
{
    if s.len() > 0 && s[0] != c {
        lemma_find_char(s.drop_first(), c);
        assert forall|k: int| 1 <= k < s.len() implies s[k] == s.drop_first()[k - 1] by {}
    }
}

/// The characterisation of `lemma_find_char`, read backwards: a witness
/// pins the result down.
pub proof fn lemma_find_char_is(s: Seq<char>, c: char, j: int)
    requires
        0 <= j < s.len(),
        s[j] == c,
        forall|k: int| 0 <= k < j ==> s[k] != c,
    ensures
        find_char(s, c) == Some(j),
    decreases s.len(),
{
    if j > 0 {
        lemma_find_char_is(s.drop_first(), c, j - 1);
    }
}

/// Members of a character class body: each `a-b` adds the inclusive
/// range `(a, b)`, any other character `c` adds `(c, c)`.
pub open spec fn parse_class_items(s: Seq<char>) -> Result<Seq<(char, char)>, CompileError>
    decreases s.len(),
{
    if s.len() == 0 {
        Ok(Seq::empty())
    } else if s[0] == '\\' {
        Err(CompileError::Unsupported)
    } else if s.len() >= 3 && s[1] == '-' {
        if s[2] == '\\' {
            Err(CompileError::Unsupported)
        } else if s[0] as int > s[2] as int {
            Err(CompileError::InvalidClassRange)
        } else {
            match parse_class_items(s.skip(3)) {
                Ok(r) => Ok(seq![(s[0], s[2])] + r),
                Err(e) => Err(e),
            }
        }
    } else {
        match parse_class_items(s.drop_first()) {
            Ok(r) => Ok(seq![(s[0], s[0])] + r),
            Err(e) => Err(e),
        }
    }
}

/// One compilation step at a time: compile the pattern `p` on top of the
/// already-built nodes `acc`.
pub open spec fn compile_rec(p: Seq<char>, acc: Seq<SpecNode>) -> Result<
    Seq<SpecNode>,
    CompileError,
>
    decreases p.len(),
        via compile_rec_decreases
{
    if p.len() == 0 {
        Ok(acc)
    } else {
        let c = p[0];
        if c == '^' {
            compile_rec(p.drop_first(), acc.push(SpecNode::AnchorStart))
        } else if c == '$' {
            compile_rec(p.drop_first(), acc.push(SpecNode::AnchorEnd))
        } else if c == '.' {
            compile_rec(p.drop_first(), acc.push(SpecNode::Wildcard))
        } else if c == '?' {
            if acc.len() == 0 {
                Err(CompileError::DanglingQuantifier)
            } else {
                compile_rec(
                    p.drop_first(),
                    acc.drop_last().push(SpecNode::Optional(seq![acc.last()])),
                )
            }
        } else if c == '*' {
            if acc.len() == 0 {
                Err(CompileError::DanglingQuantifier)
            } else {
                compile_rec(
                    p.drop_first(),
                    acc.drop_last().push(SpecNode::Repeat(seq![acc.last()])),
                )
            }
        } else if c == '(' {
            match find_char(p.drop_first(), ')') {
                None => Err(CompileError::UnterminatedGroup),
                Some(j) => {
                    match compile_rec(p.subrange(1, 1 + j), Seq::empty()) {
                        Ok(sub) => compile_rec(
                            p.skip(2 + j),
                            acc.push(SpecNode::Group(sub)),
                        ),
                        Err(e) => Err(e),
                    }
                },
            }
        } else if c == '[' {
            match find_char(p.drop_first(), ']') {
                None => Err(CompileError::UnterminatedClass),
                Some(j) => {
                    let body = p.subrange(1, 1 + j);
                    let negated = body.len() > 0 && body[0] == '^';
                    let items = if negated {
                        body.drop_first()
                    } else {
                        body
                    };
                    match parse_class_items(items) {
                        Ok(ranges) => compile_rec(
                            p.skip(2 + j),
                            acc.push(SpecNode::CharClass { ranges, negated }),
                        ),
                        Err(e) => Err(e),
                    }
                },
            }
        } else if c == '|' || c == '\\' {
            Err(CompileError::Unsupported)
        } else {
            compile_rec(p.drop_first(), acc.push(SpecNode::Literal(c)))
        }
    }
}

#[via_fn]
proof fn compile_rec_decreases(p: Seq<char>, acc: Seq<SpecNode>) {
    if p.len() > 0 {
        if p[0] == '(' {
            lemma_find_char(p.drop_first(), ')');
        }
        if p[0] == '[' {
            lemma_find_char(p.drop_first(), ']');
        }
    }
}

/// The specification of `Re::compile`.
pub open spec fn compile_spec(p: Seq<char>) -> Result<Seq<SpecNode>, CompileError> {
    compile_rec(p, Seq::empty())
}

/// Unfolds one `compile_rec` step for a character with no special
/// meaning.
pub(crate) proof fn lemma_compile_rec_step_literal(s: Seq<char>, acc: Seq<SpecNode>, c: char)
    requires
        s.len() > 0,
        s[0] == c,
        c != '^',
        c != '$',
        c != '.',
        c != '?',
        c != '*',
        c != '(',
        c != '[',
        c != '|',
        c != '\\',
    ensures
        compile_rec(s, acc) == compile_rec(s.drop_first(), acc.push(SpecNode::Literal(c))),
{
}

/// The whole invariant step for a literal character: pushing the node
/// mirrors one `compile_rec` step.
proof fn lemma_step_literal_full(p: Seq<char>, i: int, to: int, pre: Seq<Node>, post: Seq<Node>, c: char)
    requires
        0 <= i < to <= p.len(),
        p[i] == c,
        c != '^',
        c != '$',
        c != '.',
        c != '?',
        c != '*',
        c != '(',
        c != '[',
        c != '|',
        c != '\\',
        post == pre.push(Node::Literal(c)),
    ensures
        compile_rec(p.subrange(i, to), nodes_view(pre)) == compile_rec(
            p.subrange(i + 1, to),
            nodes_view(post),
        ),
{
    let rem = p.subrange(i, to);
    lemma_nodes_view_push(pre, Node::Literal(c));
    lemma_node_view_literal(c);
    lemma_compile_rec_step_literal(rem, nodes_view(pre), c);
    assert(rem.drop_first() =~= p.subrange(i + 1, to));
}

/// Prepends already-parsed class members to the outcome of parsing the
/// remaining members.
spec fn with_prefix(
    pre: Seq<(char, char)>,
    r: Result<Seq<(char, char)>, CompileError>,
) -> Result<Seq<(char, char)>, CompileError> {
    match r {
        Ok(s) => Ok(pre + s),
        Err(e) => Err(e),
    }
}

/// Scans `p[from..to]` for the first occurrence of `c`.
fn find_in(p: &Vec<char>, from: usize, to: usize, c: char) -> (r: Option<usize>)
    requires
        from <= to <= p@.len(),
    ensures
        (match r {
            Some(j) => from <= j < to && find_char(p@.subrange(from as int, to as int), c)
                == Some(j as int - from as int),
            None => find_char(p@.subrange(from as int, to as int), c) is None,
        }),
{
    let mut i: usize = from;
    while i < to
        invariant
            from <= i <= to <= p@.len(),
            forall|k: int| from <= k < i ==> p@[k] != c,
        decreases to - i,
    {
        if p[i] == c {
            proof {
                let s = p@.subrange(from as int, to as int);
                assert forall|k: int| 0 <= k < i - from implies s[k] != c by {
                    assert(s[k] == p@[from + k]);
                }
                lemma_find_char_is(s, c, i - from);
            }
            return Some(i);
        }
        i = i + 1;
    }
    proof {
        let s = p@.subrange(from as int, to as int);
        lemma_find_char(s, c);
        match find_char(s, c) {
            Some(j) => {
                assert(s[j] == p@[from + j]);
            },
            None => {},
        }
    }
    None
}

/// Parses the members of a character class, `p[from..to]` being the
/// class body with any leading `^` already removed.
fn parse_class_ranges(p: &Vec<char>, from: usize, to: usize) -> (r: Result<
    Vec<(char, char)>,
    CompileError,
>)
    requires
        from <= to <= p@.len(),
    ensures
        (match r {
            Ok(rs) => parse_class_items(p@.subrange(from as int, to as int))
                == Ok::<Seq<(char, char)>, CompileError>(rs@),
            Err(e) => parse_class_items(p@.subrange(from as int, to as int))
                == Err::<Seq<(char, char)>, CompileError>(e),
        }),
{
    let ghost whole = p@.subrange(from as int, to as int);
    let mut rs: Vec<(char, char)> = Vec::new();
    let mut k: usize = from;
    proof {
        match parse_class_items(whole) {
            Ok(s0) => {
                assert(rs@ + s0 =~= s0);
            },
            Err(_) => {},
        }
    }
    while k < to
        invariant
            from <= k <= to <= p@.len(),
            with_prefix(rs@, parse_class_items(p@.subrange(k as int, to as int)))
                == parse_class_items(p@.subrange(from as int, to as int)),
        decreases to - k,
    {
        let ghost rem = p@.subrange(k as int, to as int);
        let ghost pre = rs@;
        proof {
            assert(rem[0] == p@[k as int]);
            assert(rem.drop_first() =~= p@.subrange(k as int + 1, to as int));
        }
        let c0 = p[k];
        if c0 == '\\' {
            return Err(CompileError::Unsupported);
        }
        if to - k >= 3 && p[k + 1] == '-' {
            proof {
                assert(rem[1] == p@[k as int + 1]);
                assert(rem[2] == p@[k as int + 2]);
                assert(rem.skip(3) =~= p@.subrange(k as int + 3, to as int));
            }
            let c2 = p[k + 2];
            if c2 == '\\' {
                return Err(CompileError::Unsupported);
            }
            if c0 > c2 {
                return Err(CompileError::InvalidClassRange);
            }
            rs.push((c0, c2));
            proof {
                assert(pre + (seq![(c0, c2)] + parse_class_items(rem.skip(3)) -> Ok_0)
                    =~= rs@ + (parse_class_items(rem.skip(3)) -> Ok_0));
            }
            k = k + 3;
        } else {
            rs.push((c0, c0));
            proof {
                assert(pre + (seq![(c0, c0)] + parse_class_items(rem.drop_first()) -> Ok_0)
                    =~= rs@ + (parse_class_items(rem.drop_first()) -> Ok_0));
            }
            k = k + 1;
        }
    }
    proof {
        assert(rs@ + Seq::<(char, char)>::empty() =~= rs@);
    }
    Ok(rs)
}

/// Compiles the pattern characters `p[from..to]` into a node sequence.
#[verifier::rlimit(100)]
fn compile_range(p: &Vec<char>, from: usize, to: usize) -> (r: Result<Vec<Node>, CompileError>)
    requires
        from <= to <= p@.len(),
    ensures
        (match r {
            Ok(ns) => compile_rec(p@.subrange(from as int, to as int), Seq::empty())
                == Ok::<Seq<SpecNode>, CompileError>(nodes_view(ns@)),
            Err(e) => compile_rec(p@.subrange(from as int, to as int), Seq::empty())
                == Err::<Seq<SpecNode>, CompileError>(e),
        }),
    decreases to - from,
{
    let mut nodes: Vec<Node> = Vec::new();
    let mut i: usize = from;
    proof {
        lemma_nodes_view(nodes@);
        assert(nodes_view(nodes@) =~= Seq::<SpecNode>::empty());
    }
    while i < to
        invariant
            from <= i <= to <= p@.len(),
            compile_rec(p@.subrange(from as int, to as int), Seq::empty())
                == compile_rec(p@.subrange(i as int, to as int), nodes_view(nodes@)),
        decreases to - i,
    {
        let ghost rem = p@.subrange(i as int, to as int);
        let ghost pre = nodes@;
        proof {
            assert(rem[0] == p@[i as int]);
            assert(rem.drop_first() =~= p@.subrange(i as int + 1, to as int));
            lemma_nodes_view(pre);
        }
        let c = p[i];
        if c == '^' {
            nodes.push(Node::AnchorStart);
            proof {
                lemma_nodes_view_push(pre, Node::AnchorStart);
                assert(compile_rec(rem, nodes_view(pre)) == compile_rec(
                    p@.subrange(i as int + 1, to as int),
                    nodes_view(nodes@),
                ));
            }
            i = i + 1;
        } else if c == '$' {
            nodes.push(Node::AnchorEnd);
            proof {
                lemma_nodes_view_push(pre, Node::AnchorEnd);
                assert(compile_rec(rem, nodes_view(pre)) == compile_rec(
                    p@.subrange(i as int + 1, to as int),
                    nodes_view(nodes@),
                ));
            }
            i = i + 1;
        } else if c == '.' {
            nodes.push(Node::Wildcard);
            proof {
                lemma_nodes_view_push(pre, Node::Wildcard);
                assert(compile_rec(rem, nodes_view(pre)) == compile_rec(
                    p@.subrange(i as int + 1, to as int),
                    nodes_view(nodes@),
                ));
            }
            i = i + 1;
        } else if c == '?' || c == '*' {
            if nodes.len() == 0 {
                return Err(CompileError::DanglingQuantifier);
            }
            let last = match nodes.pop() {
                Some(n) => n,
                None => {
                    proof {
                        assert(false);
                    }
                    Node::Wildcard
                },
            };
            let ghost glast: Node = last;
            let mut sub: Vec<Node> = Vec::new();
            sub.push(last);
            proof {
                lemma_nodes_view(sub@);
                lemma_nodes_view_drop_last(pre);
                assert(nodes_view(sub@) =~= seq![node_view(glast)]);
            }
            let node = if c == '?' {
                Node::Optional(sub)
            } else {
                Node::Repeat(sub)
            };
            let ghost gnode: Node = node;
            let ghost mid = nodes@;
            nodes.push(node);
            proof {
                lemma_nodes_view_push(mid, gnode);
                assert(nodes_view(pre).drop_last().push(node_view(gnode))
                    == nodes_view(nodes@));
                assert(compile_rec(rem, nodes_view(pre)) == compile_rec(
                    p@.subrange(i as int + 1, to as int),
                    nodes_view(nodes@),
                ));
            }
            i = i + 1;
        } else if c == '(' {
            match find_in(p, i + 1, to, ')') {
                None => {
                    return Err(CompileError::UnterminatedGroup);
                },
                Some(j) => {
                    proof {
                        assert(rem.subrange(1, j - i) =~= p@.subrange(i as int + 1, j as int));
                        assert(rem.skip(j - i + 1) =~= p@.subrange(j as int + 1, to as int));
                    }
                    match compile_range(p, i + 1, j) {
                        Err(e) => {
                            return Err(e);
                        },
                        Ok(sub) => {
                            let ghost subv = sub@;
                            let node = Node::Group(sub);
                            let ghost gnode: Node = node;
                            nodes.push(node);
                            proof {
                                lemma_nodes_view_push(pre, gnode);
                                assert(compile_rec(rem, nodes_view(pre)) == compile_rec(
                                    p@.subrange(j as int + 1, to as int),
                                    nodes_view(nodes@),
                                ));
                            }
                            i = j + 1;
                        },
                    }
                },
            }
        } else if c == '[' {
            match find_in(p, i + 1, to, ']') {
                None => {
                    return Err(CompileError::UnterminatedClass);
                },
                Some(j) => {
                    let ghost body = p@.subrange(i as int + 1, j as int);
                    proof {
                        assert(rem.subrange(1, j - i) =~= body);
                        assert(rem.skip(j - i + 1) =~= p@.subrange(j as int + 1, to as int));
                    }
                    let negated = j > i + 1 && p[i + 1] == '^';
                    let items_from = if negated {
                        i + 2
                    } else {
                        i + 1
                    };
                    proof {
                        if j > i + 1 {
                            assert(body[0] == p@[i as int + 1]);
                        }
                        if negated {
                            assert(body.drop_first() =~= p@.subrange(i as int + 2, j as int));
                        }
                    }
                    match parse_class_ranges(p, items_from, j) {
                        Err(e) => {
                            return Err(e);
                        },
                        Ok(ranges) => {
                            let ghost rv = ranges@;
                            let node = Node::CharClass { ranges, negated };
                            let ghost gnode: Node = node;
                            nodes.push(node);
                            proof {
                                lemma_nodes_view_push(pre, gnode);
                                assert(node_view(gnode) == (SpecNode::CharClass {
                                    ranges: rv,
                                    negated,
                                }));
                                let jrel = j - (i as int) - 1;
                                assert(find_char(rem.drop_first(), ']') == Some(jrel));
                                let body_s = rem.subrange(1, 1 + jrel);
                                assert(body_s == body);
                                let negated_s = body_s.len() > 0 && body_s[0] == '^';
                                assert(negated_s == negated);
                                let items = if negated_s {
                                    body_s.drop_first()
                                } else {
                                    body_s
                                };
                                assert(parse_class_items(items)
                                    == Ok::<Seq<(char, char)>, CompileError>(rv));
                                assert(rem.skip(2 + jrel) == p@.subrange(
                                    j as int + 1,
                                    to as int,
                                ));
                                assert(compile_rec(rem, nodes_view(pre)) == compile_rec(
                                    rem.skip(2 + jrel),
                                    nodes_view(pre).push(
                                        (SpecNode::CharClass { ranges: rv, negated: negated_s }),
                                    ),
                                ));
                                assert(compile_rec(rem, nodes_view(pre)) == compile_rec(
                                    p@.subrange(j as int + 1, to as int),
                                    nodes_view(nodes@),
                                ));
                            }
                            i = j + 1;
                        },
                    }
                },
            }
        } else if c == '|' || c == '\\' {
            return Err(CompileError::Unsupported);
        } else {
            nodes.push(Node::Literal(c));
            proof {
                lemma_step_literal_full(p@, i as int, to as int, pre, nodes@, c);
            }
            i = i + 1;
        }
    }
    Ok(nodes)
}

/// The characters of a pattern string, for index-based scanning.
pub(crate) fn to_char_vec(s: &str) -> (v: Vec<char>)
    ensures
        v@ == s@,
{
    let n = s.unicode_len();
    let mut v: Vec<char> = Vec::new();
    let mut i: usize = 0;
    while i < n
        invariant
            i <= n,
            n == s@.len(),
            v@ == s@.subrange(0, i as int),
        decreases n - i,
    {
        let c = s.get_char(i);
        v.push(c);
        proof {
            assert(v@ =~= s@.subrange(0, i as int + 1));
        }
        i = i + 1;
    }
    proof {
        assert(v@ =~= s@);
    }
    v
}

/// Compiles a whole pattern string.
pub(crate) fn compile_chars(p: &Vec<char>) -> (r: Result<Vec<Node>, CompileError>)
    ensures
        (match r {
            Ok(ns) => compile_spec(p@) == Ok::<Seq<SpecNode>, CompileError>(nodes_view(ns@)),
            Err(e) => compile_spec(p@) == Err::<Seq<SpecNode>, CompileError>(e),
        }),
{
    let r = compile_range(p, 0, p.len());
    proof {
        assert(p@.subrange(0, p@.len() as int) =~= p@);
    }
    r
}

} // verus!
