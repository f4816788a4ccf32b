//! The executable backtracking matcher, verified against `run`.
//!
//! The matcher works on the input `&str` directly, with a cursor
//! index, and mirrors the semantic frame stack with a vector of
//! lightweight frames that borrow the compiled nodes.  Captures are
//! carried as `(start, end)` index pairs into the input and turned
//! into strings only at the very end, so abandoned backtracking
//! branches cost nothing to discard.

use vstd::prelude::*;
use vstd::string::StrSliceExecFns;

use crate::ast::Node;
use crate::ast::SpecNode;
use crate::ast::lemma_node_size_cases;
use crate::ast::lemma_node_view_cases;
use crate::ast::lemma_nodes_view;
use crate::ast::lemma_seq_size_parts;
use crate::ast::node_view;
use crate::ast::nodes_view;
use crate::ast::seq_size;
use crate::semantics::Frame;
use crate::semantics::advance_head;
use crate::semantics::class_matches;
use crate::semantics::frames_size;
use crate::semantics::in_ranges;
use crate::semantics::lemma_frames_size_parts;
use crate::semantics::range_contains;
use crate::semantics::run;
use crate::semantics::run_rep;
use crate::semantics::top_frame;

verus! {

/// Each capture pair lies within the input, start before end.
pub open spec fn caps_wf(text: Seq<char>, ps: Seq<(usize, usize)>) -> bool {
    forall|k: int| 0 <= k < ps.len() ==> (#[trigger] ps[k]).0 <= ps[k].1 <= text.len()
}

/// The capture strings that a list of index pairs stands for.
pub open spec fn caps_model(text: Seq<char>, ps: Seq<(usize, usize)>) -> Seq<Seq<char>> {
    ps.map_values(|p: (usize, usize)| text.subrange(p.0 as int, p.1 as int))
}

/// One level of the executable matching stack: the nodes of its
/// level, the index of the next node to match, and the capture data
/// of a group frame.
pub struct ExecFrame<'a> {
    pub nodes: &'a Vec<Node>,
    pub i: usize,
    pub group: Option<(usize, usize)>,
}

impl<'a> Clone for ExecFrame<'a> {
    fn clone(&self) -> (r: Self)
        ensures
            r == *self,
    {
        ExecFrame { nodes: self.nodes, i: self.i, group: self.group }
    }
}

impl<'a> Copy for ExecFrame<'a> {

}

/// The semantic frame that an executable frame stands for.
pub open spec fn frame_view(f: ExecFrame) -> Frame {
    Frame {
        nodes: nodes_view(f.nodes@.skip(f.i as int)),
        group: match f.group {
            Some(g) => Some((g.0 as int, g.1 as int)),
            None => None,
        },
    }
}

/// The semantic stack that an executable stack stands for.
pub open spec fn frames_view(fs: Seq<ExecFrame>) -> Seq<Frame> {
    Seq::new(fs.len(), |k: int| frame_view(fs[k]))
}

/// Every frame's index stays within its node list.
pub open spec fn frames_wf(fs: Seq<ExecFrame>) -> bool {
    forall|k: int| 0 <= k < fs.len() ==> (#[trigger] fs[k]).i <= fs[k].nodes@.len()
}

/// What the executable matcher must return: exactly the outcome of
/// `run`, carried over capture index pairs.
pub open spec fn matches_result(
    text: Seq<char>,
    sframes: Seq<Frame>,
    pos: int,
    caps: Seq<(usize, usize)>,
    r: Option<(usize, Vec<(usize, usize)>)>,
) -> bool {
    match r {
        Some(st) => caps_wf(text, st.1@) && pos <= st.0 <= text.len() && run(
            text,
            sframes,
            pos,
            caps_model(text, caps),
        ) == Some((st.0 as int, caps_model(text, st.1@))),
        None => run(text, sframes, pos, caps_model(text, caps)) is None,
    }
}

/// The same, for greedy repetition against `run_rep`.
pub open spec fn rep_matches_result(
    text: Seq<char>,
    sub: Seq<SpecNode>,
    sframes: Seq<Frame>,
    pos: int,
    caps: Seq<(usize, usize)>,
    r: Option<(usize, Vec<(usize, usize)>)>,
) -> bool {
    match r {
        Some(st) => caps_wf(text, st.1@) && pos <= st.0 <= text.len() && run_rep(
            text,
            sub,
            sframes,
            pos,
            caps_model(text, caps),
        ) == Some((st.0 as int, caps_model(text, st.1@))),
        None => run_rep(text, sub, sframes, pos, caps_model(text, caps)) is None,
    }
}

/// Copies a capture list.
fn copy_caps(caps: &Vec<(usize, usize)>) -> (r: Vec<(usize, usize)>)
    ensures
        r@ == caps@,
{
    let mut r: Vec<(usize, usize)> = Vec::new();
    let mut k: usize = 0;
    while k < caps.len()
        invariant
            k <= caps@.len(),
            r@ == caps@.subrange(0, k as int),
        decreases caps@.len() - k,
    {
        r.push(caps[k]);
        proof {
            assert(r@ =~= caps@.subrange(0, k as int + 1));
        }
        k = k + 1;
    }
    proof {
        assert(r@ =~= caps@);
    }
    r
}

/// Copies a frame stack.
fn copy_frames<'a>(fs: &Vec<ExecFrame<'a>>) -> (r: Vec<ExecFrame<'a>>)
    ensures
        r@ == fs@,
{
    let mut r: Vec<ExecFrame<'a>> = Vec::new();
    let mut k: usize = 0;
    while k < fs.len()
        invariant
            k <= fs@.len(),
            r@ == fs@.subrange(0, k as int),
        decreases fs@.len() - k,
    {
        r.push(fs[k]);
        proof {
            assert(r@ =~= fs@.subrange(0, k as int + 1));
        }
        k = k + 1;
    }
    proof {
        assert(r@ =~= fs@);
    }
    r
}

/// The stack without its top frame.
fn frames_tail<'a>(fs: &Vec<ExecFrame<'a>>) -> (r: Vec<ExecFrame<'a>>)
    requires
        fs@.len() > 0,
    ensures
        r@ == fs@.drop_first(),
{
    let mut r: Vec<ExecFrame<'a>> = Vec::new();
    let mut k: usize = 1;
    while k < fs.len()
        invariant
            1 <= k <= fs@.len(),
            r@ == fs@.subrange(1, k as int),
        decreases fs@.len() - k,
    {
        r.push(fs[k]);
        proof {
            assert(r@ =~= fs@.subrange(1, k as int + 1));
        }
        k = k + 1;
    }
    proof {
        assert(r@ =~= fs@.drop_first());
    }
    r
}

/// The stack with the top frame's next node skipped.
fn frames_advance<'a>(fs: &Vec<ExecFrame<'a>>) -> (r: Vec<ExecFrame<'a>>)
    requires
        fs@.len() > 0,
        fs@[0].i < fs@[0].nodes@.len(),
    ensures
        r@.len() == fs@.len(),
        r@[0] == (ExecFrame { nodes: fs@[0].nodes, i: (fs@[0].i + 1) as usize, group: fs@[0].group }),
        forall|k: int| 1 <= k < fs@.len() ==> r@[k] == fs@[k],
{
    proof {
        assert(vstd::std_specs::vec::spec_vec_len(fs@[0].nodes) == fs@[0].nodes@.len());
    }
    let mut r = copy_frames(fs);
    let head = ExecFrame { nodes: fs[0].nodes, i: fs[0].i + 1, group: fs[0].group };
    r.set(0, head);
    r
}

/// A fresh stack holding one frame for `nodes`.
fn single_frame<'a>(nodes: &'a Vec<Node>) -> (r: Vec<ExecFrame<'a>>)
    ensures
        r@.len() == 1,
        r@[0] == (ExecFrame { nodes, i: 0usize, group: None::<(usize, usize)> }),
{
    let mut r: Vec<ExecFrame<'a>> = Vec::new();
    r.push(ExecFrame { nodes, i: 0, group: None });
    r
}

/// Relates the node sequence starting at `i` to the node at `i` and
/// the sequence starting at `i + 1`.
proof fn lemma_skip_step(ns: Seq<Node>, i: int)
    requires
        0 <= i < ns.len(),
    ensures
        nodes_view(ns.skip(i)).len() == ns.len() - i,
        nodes_view(ns.skip(i))[0] == node_view(ns[i]),
        nodes_view(ns.skip(i)).drop_first() == nodes_view(ns.skip(i + 1)),
{
    lemma_nodes_view(ns.skip(i));
    lemma_nodes_view(ns.skip(i + 1));
    assert(nodes_view(ns.skip(i)).drop_first() =~= nodes_view(ns.skip(i + 1)));
}

/// The empty tail of a node sequence.
proof fn lemma_skip_end(ns: Seq<Node>, i: int)
    requires
        0 <= i,
        i == ns.len(),
    ensures
        nodes_view(ns.skip(i)).len() == 0,
{
    lemma_nodes_view(ns.skip(i));
}

/// Relates the advanced executable stack to `advance_head` of its
/// view.
proof fn lemma_frames_advance_view(pre: Seq<ExecFrame>, post: Seq<ExecFrame>)
    requires
        pre.len() > 0,
        pre[0].i < pre[0].nodes@.len(),
        post.len() == pre.len(),
        post[0] == (ExecFrame { nodes: pre[0].nodes, i: (pre[0].i + 1) as usize, group: pre[0].group }),
        forall|k: int| 1 <= k < pre.len() ==> post[k] == pre[k],
    ensures
        frames_view(post) == advance_head(frames_view(pre)),
{
    assert(vstd::std_specs::vec::spec_vec_len(pre[0].nodes) == pre[0].nodes@.len());
    lemma_skip_step(pre[0].nodes@, pre[0].i as int);
    assert forall|k: int|
        0 <= k < post.len() implies frames_view(post)[k] == advance_head(frames_view(pre))[
        k
    ] by {
        if k == 0 {
            assert(frames_view(post)[0] == frame_view(post[0]));
            assert(frame_view(post[0]).nodes == nodes_view(pre[0].nodes@.skip(pre[0].i + 1)));
            assert(advance_head(frames_view(pre))[0].nodes == frame_view(
                pre[0],
            ).nodes.drop_first());
            assert(frames_view(post)[0] =~= advance_head(frames_view(pre))[0]);
        } else {
            assert(frames_view(post)[k] == frame_view(post[k]));
            assert(advance_head(frames_view(pre))[k] == frames_view(pre)[k]);
        }
    }
    assert(frames_view(post) =~= advance_head(frames_view(pre)));
}

/// `caps_model` of an updated pair.
proof fn lemma_caps_model_update(
    text: Seq<char>,
    ps: Seq<(usize, usize)>,
    k: int,
    p: (usize, usize),
)
    requires
        0 <= k < ps.len(),
    ensures
        caps_model(text, ps.update(k, p)) == caps_model(text, ps).update(
            k,
            text.subrange(p.0 as int, p.1 as int),
        ),
{
    assert(caps_model(text, ps.update(k, p)) =~= caps_model(text, ps).update(
        k,
        text.subrange(p.0 as int, p.1 as int),
    ));
}

/// `caps_model` of an appended pair.
proof fn lemma_caps_model_push(text: Seq<char>, ps: Seq<(usize, usize)>, p: (usize, usize))
    ensures
        caps_model(text, ps.push(p)) == caps_model(text, ps).push(
            text.subrange(p.0 as int, p.1 as int),
        ),
{
    assert(caps_model(text, ps.push(p)) =~= caps_model(text, ps).push(
        text.subrange(p.0 as int, p.1 as int),
    ));
}

/// Is `c` a member of one of the ranges?
fn class_contains(ranges: &Vec<(char, char)>, c: char) -> (b: bool)
    ensures
        b == in_ranges(ranges@, c),
{
    let mut k: usize = 0;
    while k < ranges.len()
        invariant
            k <= ranges@.len(),
            forall|m: int| 0 <= m < k ==> !range_contains(#[trigger] ranges@[m], c),
        decreases ranges@.len() - k,
    {
        let lo = ranges[k].0;
        let hi = ranges[k].1;
        if lo <= c && c <= hi {
            proof {
                assert(range_contains(ranges@[k as int], c));
            }
            return true;
        }
        k = k + 1;
    }
    false
}

/// Turns capture index pairs into the captured substrings.
pub(crate) fn caps_to_strings(s: &str, pairs: &Vec<(usize, usize)>) -> (r: Vec<String>)
    requires
        caps_wf(s@, pairs@),
    ensures
        r.deep_view() == caps_model(s@, pairs@),
{
    let mut captured: Vec<String> = Vec::new();
    let mut k: usize = 0;
    proof {
        assert(captured.deep_view() =~= caps_model(s@, pairs@.subrange(0, 0)));
    }
    while k < pairs.len()
        invariant
            k <= pairs@.len(),
            caps_wf(s@, pairs@),
            captured@.len() == k,
            captured.deep_view() == caps_model(s@, pairs@.subrange(0, k as int)),
        decreases pairs@.len() - k,
    {
        let pair = pairs[k];
        proof {
            assert((pairs@[k as int]).0 <= pairs@[k as int].1 <= s@.len());
        }
        let cs = s.substring_char(pair.0, pair.1).to_owned();
        let ghost pre = captured.deep_view();
        captured.push(cs);
        proof {
            let post = caps_model(s@, pairs@.subrange(0, k as int + 1));
            assert forall|m: int| 0 <= m <= k implies captured.deep_view()[m] == post[m] by {
                if m < k {
                    assert(captured.deep_view()[m] == pre[m]);
                    assert(pre[m] == caps_model(s@, pairs@.subrange(0, k as int))[m]);
                } else {
                    assert(captured@[m] == cs);
                }
            }
            assert(captured.deep_view() =~= post);
        }
        k = k + 1;
    }
    proof {
        assert(pairs@.subrange(0, pairs@.len() as int) =~= pairs@);
    }
    captured
}

/// Unfolds `run` on an empty stack.
pub(crate) proof fn lemma_run_stack_empty(text: Seq<char>, pos: int, caps: Seq<Seq<char>>)
    requires
        0 <= pos <= text.len(),
    ensures
        run(text, Seq::<Frame>::empty(), pos, caps) == Some((pos, caps)),
{
}

/// Unfolds `run` when the top frame is exhausted and closes.
pub(crate) proof fn lemma_run_close(
    text: Seq<char>,
    frames: Seq<Frame>,
    pos: int,
    caps: Seq<Seq<char>>,
)
    requires
        0 <= pos <= text.len(),
        frames.len() > 0,
        frames[0].nodes.len() == 0,
    ensures
        run(text, frames, pos, caps) == (match frames[0].group {
            Some(g) => if 0 <= g.1 < caps.len() && 0 <= g.0 <= pos {
                run(text, frames.drop_first(), pos, caps.update(g.1, text.subrange(g.0, pos)))
            } else {
                None
            },
            None => run(text, frames.drop_first(), pos, caps),
        }),
{
}

/// Unfolds `run` at a literal node.
pub(crate) proof fn lemma_run_step_literal(
    text: Seq<char>,
    frames: Seq<Frame>,
    pos: int,
    caps: Seq<Seq<char>>,
    c: char,
)
    requires
        0 <= pos <= text.len(),
        frames.len() > 0,
        frames[0].nodes.len() > 0,
        frames[0].nodes[0] == SpecNode::Literal(c),
    ensures
        run(text, frames, pos, caps) == (if pos < text.len() && text[pos] == c {
            run(text, advance_head(frames), pos + 1, caps)
        } else {
            None::<(int, Seq<Seq<char>>)>
        }),
{
}

/// Unfolds `run` at a wildcard node.
pub(crate) proof fn lemma_run_step_wildcard(
    text: Seq<char>,
    frames: Seq<Frame>,
    pos: int,
    caps: Seq<Seq<char>>,
)
    requires
        0 <= pos <= text.len(),
        frames.len() > 0,
        frames[0].nodes.len() > 0,
        frames[0].nodes[0] is Wildcard,
    ensures
        run(text, frames, pos, caps) == (if pos < text.len() {
            run(text, advance_head(frames), pos + 1, caps)
        } else {
            None::<(int, Seq<Seq<char>>)>
        }),
{
}

/// Unfolds `run` at the anchors.
pub(crate) proof fn lemma_run_step_anchors(
    text: Seq<char>,
    frames: Seq<Frame>,
    pos: int,
    caps: Seq<Seq<char>>,
)
    requires
        0 <= pos <= text.len(),
        frames.len() > 0,
        frames[0].nodes.len() > 0,
    ensures
        frames[0].nodes[0] is AnchorStart ==> run(text, frames, pos, caps) == (if pos == 0 {
            run(text, advance_head(frames), pos, caps)
        } else {
            None::<(int, Seq<Seq<char>>)>
        }),
        frames[0].nodes[0] is AnchorEnd ==> run(text, frames, pos, caps) == (if pos == text.len() {
            run(text, advance_head(frames), pos, caps)
        } else {
            None::<(int, Seq<Seq<char>>)>
        }),
{
}

/// Unfolds `run` at a character class node.
pub(crate) proof fn lemma_run_step_class(
    text: Seq<char>,
    frames: Seq<Frame>,
    pos: int,
    caps: Seq<Seq<char>>,
    ranges: Seq<(char, char)>,
    negated: bool,
)
    requires
        0 <= pos <= text.len(),
        frames.len() > 0,
        frames[0].nodes.len() > 0,
        frames[0].nodes[0] == (SpecNode::CharClass { ranges, negated }),
    ensures
        run(text, frames, pos, caps) == (if pos < text.len() && class_matches(
            ranges,
            negated,
            text[pos],
        ) {
            run(text, advance_head(frames), pos + 1, caps)
        } else {
            None::<(int, Seq<Seq<char>>)>
        }),
{
}

/// Unfolds `run` at an optional node.
pub(crate) proof fn lemma_run_step_optional(
    text: Seq<char>,
    frames: Seq<Frame>,
    pos: int,
    caps: Seq<Seq<char>>,
    sub: Seq<SpecNode>,
)
    requires
        0 <= pos <= text.len(),
        frames.len() > 0,
        frames[0].nodes.len() > 0,
        frames[0].nodes[0] == SpecNode::Optional(sub),
    ensures
        run(text, frames, pos, caps) == (match run(text, seq![top_frame(sub)], pos, caps) {
            Some(st) => if pos <= st.0 <= text.len() {
                run(text, advance_head(frames), st.0, st.1)
            } else {
                None
            },
            None => run(text, advance_head(frames), pos, caps),
        }),
{
}

/// Unfolds `run` at a group node.
pub(crate) proof fn lemma_run_step_group(
    text: Seq<char>,
    frames: Seq<Frame>,
    pos: int,
    caps: Seq<Seq<char>>,
    sub: Seq<SpecNode>,
)
    requires
        0 <= pos <= text.len(),
        frames.len() > 0,
        frames[0].nodes.len() > 0,
        frames[0].nodes[0] == SpecNode::Group(sub),
    ensures
        run(text, frames, pos, caps) == run(
            text,
            seq![Frame { nodes: sub, group: Some((pos, caps.len() as int)) }] + advance_head(
                frames,
            ),
            pos,
            caps.push(Seq::empty()),
        ),
{
}

/// Unfolds `run` at a repetition node.
pub(crate) proof fn lemma_run_step_repeat(
    text: Seq<char>,
    frames: Seq<Frame>,
    pos: int,
    caps: Seq<Seq<char>>,
    sub: Seq<SpecNode>,
)
    requires
        0 <= pos <= text.len(),
        frames.len() > 0,
        frames[0].nodes.len() > 0,
        frames[0].nodes[0] == SpecNode::Repeat(sub),
    ensures
        run(text, frames, pos, caps) == run_rep(text, sub, advance_head(frames), pos, caps),
{
}

/// Unfolds `run_rep` one round.
pub(crate) proof fn lemma_run_rep_step(
    text: Seq<char>,
    sub: Seq<SpecNode>,
    frames: Seq<Frame>,
    pos: int,
    caps: Seq<Seq<char>>,
)
    requires
        0 <= pos <= text.len(),
    ensures
        run_rep(text, sub, frames, pos, caps) == (match run(text, seq![top_frame(sub)], pos, caps) {
            Some(st) => if pos < st.0 <= text.len() {
                match run_rep(text, sub, frames, st.0, st.1) {
                    Some(r) => Some(r),
                    None => run(text, frames, pos, caps),
                }
            } else {
                run(text, frames, pos, caps)
            },
            None => run(text, frames, pos, caps),
        }),
{
}

/// Splits the size of a stack at its top frame.
proof fn lemma_advance_size(sframes: Seq<Frame>)
    requires
        sframes.len() > 0,
        sframes[0].nodes.len() > 0,
    ensures
        frames_size(advance_head(sframes)) + crate::ast::node_size(sframes[0].nodes[0])
            == frames_size(sframes),
{
    lemma_frames_size_parts(sframes);
    lemma_frames_size_parts(advance_head(sframes));
    crate::ast::lemma_seq_size_parts(sframes[0].nodes);
    assert(advance_head(sframes).drop_first() =~= sframes.drop_first());
}

/// Matches the stacked frames against `text` from cursor `pos`, with
/// the capture pairs collected so far.
#[verifier::rlimit(100)]
pub(crate) fn run_exec<'a>(
    text: &str,
    frames: &Vec<ExecFrame<'a>>,
    pos: usize,
    caps: &Vec<(usize, usize)>,
) -> (r: Option<(usize, Vec<(usize, usize)>)>)
    requires
        pos <= text@.len(),
        frames_wf(frames@),
        caps_wf(text@, caps@),
    ensures
        matches_result(text@, frames_view(frames@), pos as int, caps@, r),
    decreases text@.len() - pos, frames_size(frames_view(frames@)), frames@.len(), 0nat,
{
    let ghost sframes = frames_view(frames@);
    let ghost capsm = caps_model(text@, caps@);
    if frames.len() == 0 {
        proof {
            assert(sframes =~= Seq::<Frame>::empty());
            lemma_run_stack_empty(text@, pos as int, capsm);
        }
        return Some((pos, copy_caps(caps)));
    }
    let f = frames[0];
    proof {
        assert(sframes[0] == frame_view(frames@[0]));
        lemma_frames_size_parts(sframes);
    }
    if f.i == f.nodes.len() {
        proof {
            lemma_skip_end(f.nodes@, f.i as int);
            lemma_run_close(text@, sframes, pos as int, capsm);
        }
        let tail = frames_tail(frames);
        proof {
            assert(frames_view(tail@) =~= sframes.drop_first());
        }
        match f.group {
            Some(g) => {
                if g.1 < caps.len() && g.0 <= pos {
                    let mut c2 = copy_caps(caps);
                    c2.set(g.1, (g.0, pos));
                    proof {
                        lemma_caps_model_update(text@, caps@, g.1 as int, (g.0, pos));
                        assert forall|m: int|
                            0 <= m < c2@.len() implies (#[trigger] c2@[m]).0 <= c2@[m].1
                            <= text@.len() by {
                            if m != g.1 {
                                assert(c2@[m] == caps@[m]);
                            }
                        }
                    }
                    run_exec(text, &tail, pos, &c2)
                } else {
                    None
                }
            },
            None => run_exec(text, &tail, pos, caps),
        }
    } else {
        proof {
            lemma_skip_step(f.nodes@, f.i as int);
            lemma_node_view_cases(f.nodes@[f.i as int]);
            lemma_seq_size_parts(sframes[0].nodes);
            lemma_node_size_cases(sframes[0].nodes[0]);
            lemma_advance_size(sframes);
            assert(frames_wf(frames@.update(
                0,
                ExecFrame { nodes: frames@[0].nodes, i: (frames@[0].i + 1) as usize, group: frames@[0].group },
            )));
        }
        let n = text.unicode_len();
        let frame_nodes = f.nodes;
        match &frame_nodes[f.i] {
            Node::Literal(ch) => {
                proof {
                    lemma_run_step_literal(text@, sframes, pos as int, capsm, *ch);
                }
                if pos < n && text.get_char(pos) == *ch {
                    let adv = frames_advance(frames);
                    proof {
                        lemma_frames_advance_view(frames@, adv@);
                    }
                    run_exec(text, &adv, pos + 1, caps)
                } else {
                    None
                }
            },
            Node::Wildcard => {
                proof {
                    lemma_run_step_wildcard(text@, sframes, pos as int, capsm);
                }
                if pos < n {
                    let adv = frames_advance(frames);
                    proof {
                        lemma_frames_advance_view(frames@, adv@);
                    }
                    run_exec(text, &adv, pos + 1, caps)
                } else {
                    None
                }
            },
            Node::AnchorStart => {
                proof {
                    lemma_run_step_anchors(text@, sframes, pos as int, capsm);
                }
                if pos == 0 {
                    let adv = frames_advance(frames);
                    proof {
                        lemma_frames_advance_view(frames@, adv@);
                    }
                    run_exec(text, &adv, pos, caps)
                } else {
                    None
                }
            },
            Node::AnchorEnd => {
                proof {
                    lemma_run_step_anchors(text@, sframes, pos as int, capsm);
                }
                if pos == n {
                    let adv = frames_advance(frames);
                    proof {
                        lemma_frames_advance_view(frames@, adv@);
                    }
                    run_exec(text, &adv, pos, caps)
                } else {
                    None
                }
            },
            Node::CharClass { ranges, negated } => {
                proof {
                    lemma_run_step_class(text@, sframes, pos as int, capsm, ranges@, *negated);
                }
                if pos < n {
                    let inside = class_contains(ranges, text.get_char(pos));
                    if *negated != inside {
                        let adv = frames_advance(frames);
                        proof {
                            lemma_frames_advance_view(frames@, adv@);
                        }
                        run_exec(text, &adv, pos + 1, caps)
                    } else {
                        None
                    }
                } else {
                    None
                }
            },
            Node::Optional(sub) => {
                proof {
                    lemma_run_step_optional(
                        text@,
                        sframes,
                        pos as int,
                        capsm,
                        nodes_view(sub@),
                    );
                }
                let single = single_frame(sub);
                proof {
                    assert(sub@.skip(0) =~= sub@);
                    assert(frames_view(single@) =~= seq![top_frame(nodes_view(sub@))]);
                    lemma_frames_size_parts(frames_view(single@));
                }
                let adv = frames_advance(frames);
                proof {
                    lemma_frames_advance_view(frames@, adv@);
                }
                match run_exec(text, &single, pos, caps) {
                    Some((p2, c2)) => run_exec(text, &adv, p2, &c2),
                    None => run_exec(text, &adv, pos, caps),
                }
            },
            Node::Group(sub) => {
                proof {
                    lemma_run_step_group(text@, sframes, pos as int, capsm, nodes_view(sub@));
                }
                let slot = caps.len();
                let mut c2 = copy_caps(caps);
                c2.push((pos, pos));
                let mut pushed = single_frame(sub);
                let mut adv = frames_advance(frames);
                proof {
                    lemma_frames_advance_view(frames@, adv@);
                }
                let head = ExecFrame { nodes: sub, i: 0, group: Some((pos, slot)) };
                pushed.set(0, head);
                pushed.append(&mut adv);
                proof {
                    assert(sub@.skip(0) =~= sub@);
                    assert(frames_view(pushed@) =~= seq![
                        Frame { nodes: nodes_view(sub@), group: Some((pos as int, slot as int)) },
                    ] + advance_head(sframes));
                    lemma_frames_size_parts(frames_view(pushed@));
                    assert(frames_view(pushed@).drop_first() =~= advance_head(sframes));
                    assert(frames_view(pushed@)[0].nodes == nodes_view(sub@));
                    assert(frames_size(frames_view(pushed@)) < frames_size(sframes));
                    lemma_caps_model_push(text@, caps@, (pos, pos));
                    assert(text@.subrange(pos as int, pos as int) =~= Seq::<char>::empty());
                    assert(caps_model(text@, c2@) == capsm.push(Seq::<char>::empty()));
                    assert(frames_wf(pushed@));
                }
                run_exec(text, &pushed, pos, &c2)
            },
            Node::Repeat(sub) => {
                proof {
                    lemma_run_step_repeat(text@, sframes, pos as int, capsm, nodes_view(sub@));
                }
                let adv = frames_advance(frames);
                proof {
                    lemma_frames_advance_view(frames@, adv@);
                }
                run_rep_exec(text, sub, &adv, pos, caps)
            },
        }
    }
}

/// Greedy repetition of `sub`, then everything on `frames`, from
/// cursor `pos`.
#[verifier::rlimit(100)]
fn run_rep_exec<'a>(
    text: &str,
    sub: &'a Vec<Node>,
    frames: &Vec<ExecFrame<'a>>,
    pos: usize,
    caps: &Vec<(usize, usize)>,
) -> (r: Option<(usize, Vec<(usize, usize)>)>)
    requires
        pos <= text@.len(),
        frames_wf(frames@),
        caps_wf(text@, caps@),
    ensures
        rep_matches_result(
            text@,
            nodes_view(sub@),
            frames_view(frames@),
            pos as int,
            caps@,
            r,
        ),
    decreases text@.len() - pos,
        seq_size(nodes_view(sub@)) + frames_size(frames_view(frames@)),
        frames@.len() + 2,
        1nat,
{
    proof {
        lemma_run_rep_step(
            text@,
            nodes_view(sub@),
            frames_view(frames@),
            pos as int,
            caps_model(text@, caps@),
        );
    }
    let single = single_frame(sub);
    proof {
        assert(sub@.skip(0) =~= sub@);
        assert(frames_view(single@) =~= seq![top_frame(nodes_view(sub@))]);
        lemma_frames_size_parts(frames_view(single@));
    }
    match run_exec(text, &single, pos, caps) {
        Some((p2, c2)) => {
            if p2 > pos {
                match run_rep_exec(text, sub, frames, p2, &c2) {
                    Some(rr) => Some(rr),
                    None => run_exec(text, frames, pos, caps),
                }
            } else {
                run_exec(text, frames, pos, caps)
            }
        },
        None => run_exec(text, frames, pos, caps),
    }
}

} // verus!
