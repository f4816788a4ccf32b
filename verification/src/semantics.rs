//! The meaning of a compiled pattern: a backtracking match relation
//! over sequences of characters.
//!
//! Matching works on a stack of frames.  Each frame holds the nodes
//! still to match at its level; a frame opened for a capture group
//! remembers where the group started and which capture slot it owns.
//! Keeping the whole remainder of the pattern on the stack makes
//! groups transparent to backtracking: a greedy repetition inside a
//! group backs off until everything after the group matches too.
//!
//! The rules, for the frame on top of the stack:
//!
//! - an empty stack is a successful match at the current cursor;
//! - a frame with no nodes left is closed: a group frame records the
//!   text consumed since it was opened in its capture slot, claimed in
//!   the order the groups were opened;
//! - `Literal`, `Wildcard` and `CharClass` consume one matching
//!   character and fail on a mismatch or at the end of the input;
//! - `AnchorStart` succeeds exactly at position 0, `AnchorEnd` exactly
//!   at the end of the input, neither consuming anything;
//! - `Optional` matches its sub-sequence on its own and commits to the
//!   outcome: the sub-match when it succeeds, the unconsumed state
//!   when it fails; the node itself never fails;
//! - `Group` pushes a frame for its sub-sequence and reserves the next
//!   capture slot;
//! - `Repeat` matches its sub-sequence as many times as possible such
//!   that the rest of the pattern still matches afterwards (greedy
//!   with backtracking); a repetition that consumes nothing is not
//!   taken, so repetition always makes progress.

use vstd::prelude::*;

use crate::ast::SpecNode;
use crate::ast::seq_size;

verus! {

/// One level of the matching stack: the nodes still to match, and,
/// for a frame opened by a capture group, the position where the
/// group started and the capture slot it owns.
#[verifier::ext_equal]
pub struct Frame {
    pub nodes: Seq<SpecNode>,
    pub group: Option<(int, int)>,
}

/// The single frame that starts a match of `nodes`.
pub open spec fn top_frame(nodes: Seq<SpecNode>) -> Frame {
    Frame { nodes, group: None }
}

/// The combined size of all nodes still on the stack; a termination
/// measure.
pub open spec fn frames_size(frames: Seq<Frame>) -> nat
    decreases frames.len(),
{
    if frames.len() == 0 {
        0
    } else {
        seq_size(frames[0].nodes) + frames_size(frames.drop_first())
    }
}

/// Unfolds `frames_size` one step.
pub proof fn lemma_frames_size_parts(frames: Seq<Frame>)
    requires
        frames.len() > 0,
    ensures
        frames_size(frames) == seq_size(frames[0].nodes) + frames_size(frames.drop_first()),
{
}

/// A singleton stack weighs as much as its nodes.
pub proof fn lemma_singleton_size(sub: Seq<SpecNode>)
    ensures
        frames_size(seq![top_frame(sub)]) == seq_size(sub),
{
    lemma_frames_size_parts(seq![top_frame(sub)]);
    assert(seq![top_frame(sub)].drop_first() =~= Seq::<Frame>::empty());
}

/// A stack with one more frame in front weighs that frame's nodes
/// more.
pub proof fn lemma_push_front_size(f: Frame, rest: Seq<Frame>)
    ensures
        frames_size(seq![f] + rest) == seq_size(f.nodes) + frames_size(rest),
{
    lemma_frames_size_parts(seq![f] + rest);
    assert((seq![f] + rest).drop_first() =~= rest);
}

/// How one step at the head node changes the stack's weight.
pub proof fn lemma_head_measure(frames: Seq<Frame>)
    requires
        frames.len() > 0,
        frames[0].nodes.len() > 0,
    ensures
        frames_size(advance_head(frames)) + crate::ast::node_size(frames[0].nodes[0])
            == frames_size(frames),
        crate::ast::node_size(frames[0].nodes[0]) >= 1,
        advance_head(frames).len() == frames.len(),
        (frames[0].nodes[0] matches SpecNode::Optional(sub) ==> crate::ast::node_size(
            frames[0].nodes[0],
        ) == 1 + seq_size(sub)),
        (frames[0].nodes[0] matches SpecNode::Repeat(sub) ==> crate::ast::node_size(
            frames[0].nodes[0],
        ) == 1 + seq_size(sub)),
        (frames[0].nodes[0] matches SpecNode::Group(sub) ==> crate::ast::node_size(
            frames[0].nodes[0],
        ) == 1 + seq_size(sub)),
{
    lemma_frames_size_parts(frames);
    lemma_frames_size_parts(advance_head(frames));
    crate::ast::lemma_seq_size_parts(frames[0].nodes);
    crate::ast::lemma_node_size_cases(frames[0].nodes[0]);
    assert(advance_head(frames).drop_first() =~= frames.drop_first());
}

/// Does the inclusive character range `r` contain `c`?
pub open spec fn range_contains(r: (char, char), c: char) -> bool {
    r.0 as int <= c as int && c as int <= r.1 as int
}

/// Is `c` a member of one of the ranges?
pub open spec fn in_ranges(ranges: Seq<(char, char)>, c: char) -> bool {
    exists|i: int| 0 <= i < ranges.len() && range_contains(#[trigger] ranges[i], c)
}

/// Does one character satisfy the class `[ranges]` (or `[^ranges]`)?
pub open spec fn class_matches(ranges: Seq<(char, char)>, negated: bool, c: char) -> bool {
    negated != in_ranges(ranges, c)
}

/// The frame on top of the stack with its head node removed.
pub open spec fn advance_head(frames: Seq<Frame>) -> Seq<Frame>
    recommends
        frames.len() > 0,
        frames[0].nodes.len() > 0,
{
    frames.update(
        0,
        Frame { nodes: frames[0].nodes.drop_first(), group: frames[0].group },
    )
}

/// Match the stacked frames against `text` from cursor `pos` with the
/// capture slots `caps` filled so far.  Returns the final cursor and
/// captures on success, `None` on failure.
///
/// A cursor outside `[0, text.len()]` never matches; the engine never
/// produces one, as `lemma_run_in_range` shows.
pub open spec fn run(
    text: Seq<char>,
    frames: Seq<Frame>,
    pos: int,
    caps: Seq<Seq<char>>,
) -> Option<(int, Seq<Seq<char>>)>
    decreases text.len() - pos, frames_size(frames), frames.len(), 0nat,
{
    if pos < 0 || pos > text.len() {
        None
    } else if frames.len() == 0 {
        Some((pos, caps))
    } else if frames[0].nodes.len() == 0 {
        // Close the frame; a group frame records its capture.
        match frames[0].group {
            Some(g) => if 0 <= g.1 < caps.len() && 0 <= g.0 <= pos {
                run(
                    text,
                    frames.drop_first(),
                    pos,
                    caps.update(g.1, text.subrange(g.0, pos)),
                )
            } else {
                None
            },
            None => run(text, frames.drop_first(), pos, caps),
        }
    } else {
        proof {
            lemma_head_measure(frames);
            match frames[0].nodes[0] {
                SpecNode::Optional(sub) => {
                    lemma_singleton_size(sub);
                },
                SpecNode::Group(sub) => {
                    lemma_push_front_size(
                        Frame { nodes: sub, group: Some((pos, caps.len() as int)) },
                        advance_head(frames),
                    );
                },
                _ => {},
            }
        }
        match frames[0].nodes[0] {
            SpecNode::Literal(c) => if pos < text.len() && text[pos] == c {
                run(text, advance_head(frames), pos + 1, caps)
            } else {
                None
            },
            SpecNode::Wildcard => if pos < text.len() {
                run(text, advance_head(frames), pos + 1, caps)
            } else {
                None
            },
            SpecNode::AnchorStart => if pos == 0 {
                run(text, advance_head(frames), pos, caps)
            } else {
                None
            },
            SpecNode::AnchorEnd => if pos == text.len() {
                run(text, advance_head(frames), pos, caps)
            } else {
                None
            },
            SpecNode::CharClass { ranges, negated } => if pos < text.len() && class_matches(
                ranges,
                negated,
                text[pos],
            ) {
                run(text, advance_head(frames), pos + 1, caps)
            } else {
                None
            },
            SpecNode::Optional(sub) => match run(text, seq![top_frame(sub)], pos, caps) {
                Some(st) => if pos <= st.0 <= text.len() {
                    run(text, advance_head(frames), st.0, st.1)
                } else {
                    None
                },
                None => run(text, advance_head(frames), pos, caps),
            },
            SpecNode::Group(sub) => run(
                text,
                seq![Frame { nodes: sub, group: Some((pos, caps.len() as int)) }] + advance_head(
                    frames,
                ),
                pos,
                caps.push(Seq::empty()),
            ),
            SpecNode::Repeat(sub) => run_rep(text, sub, advance_head(frames), pos, caps),
        }
    }
}

/// Greedy repetition of `sub`, followed by everything still on the
/// stack.
///
/// Prefers one more repetition whenever `sub` matches on its own,
/// consuming at least one character, and the remainder still matches
/// after it; falls back to the rest of the stack at the current state
/// otherwise.  This selects the largest repetition count for which
/// the rest of the pattern still matches.
pub open spec fn run_rep(
    text: Seq<char>,
    sub: Seq<SpecNode>,
    frames: Seq<Frame>,
    pos: int,
    caps: Seq<Seq<char>>,
) -> Option<(int, Seq<Seq<char>>)>
    decreases text.len() - pos, seq_size(sub) + frames_size(frames), frames.len() + 2, 1nat,
{
    if pos < 0 || pos > text.len() {
        None
    } else {
        proof {
            lemma_singleton_size(sub);
        }
        match run(text, seq![top_frame(sub)], pos, caps) {
            Some(st) => if pos < st.0 <= text.len() {
                match run_rep(text, sub, frames, st.0, st.1) {
                    Some(r) => Some(r),
                    None => run(text, frames, pos, caps),
                }
            } else {
                run(text, frames, pos, caps)
            },
            None => run(text, frames, pos, caps),
        }
    }
}

/// Match a whole pattern against `text`, starting at position 0 with
/// no captures: the specification of `Re::search`.
pub open spec fn search_spec(pat: Seq<SpecNode>, text: Seq<char>) -> Option<
    (int, Seq<Seq<char>>),
> {
    run(text, seq![top_frame(pat)], 0, Seq::empty())
}

/// A successful match never moves the cursor backwards or past the
/// end of the input.
pub proof fn lemma_run_in_range(
    text: Seq<char>,
    frames: Seq<Frame>,
    pos: int,
    caps: Seq<Seq<char>>,
)
    ensures
        run(text, frames, pos, caps) matches Some(st) ==> pos <= st.0 <= text.len(),
    decreases text.len() - pos, frames_size(frames), frames.len(), 0nat,
{
    if 0 <= pos <= text.len() && frames.len() > 0 {
        if frames[0].nodes.len() == 0 {
            match frames[0].group {
                Some(g) => {
                    if 0 <= g.1 < caps.len() && 0 <= g.0 <= pos {
                        lemma_run_in_range(
                            text,
                            frames.drop_first(),
                            pos,
                            caps.update(g.1, text.subrange(g.0, pos)),
                        );
                    }
                },
                None => {
                    lemma_run_in_range(text, frames.drop_first(), pos, caps);
                },
            }
        } else {
            lemma_head_measure(frames);
            match frames[0].nodes[0] {
                SpecNode::Optional(sub) => {
                    lemma_singleton_size(sub);
                },
                SpecNode::Group(sub) => {
                    lemma_push_front_size(
                        Frame { nodes: sub, group: Some((pos, caps.len() as int)) },
                        advance_head(frames),
                    );
                },
                _ => {},
            }
            match frames[0].nodes[0] {
                SpecNode::Literal(c) => {
                    if pos < text.len() && text[pos] == c {
                        lemma_run_in_range(text, advance_head(frames), pos + 1, caps);
                    }
                },
                SpecNode::Wildcard => {
                    if pos < text.len() {
                        lemma_run_in_range(text, advance_head(frames), pos + 1, caps);
                    }
                },
                SpecNode::AnchorStart => {
                    lemma_run_in_range(text, advance_head(frames), pos, caps);
                },
                SpecNode::AnchorEnd => {
                    lemma_run_in_range(text, advance_head(frames), pos, caps);
                },
                SpecNode::CharClass { ranges, negated } => {
                    if pos < text.len() && class_matches(ranges, negated, text[pos]) {
                        lemma_run_in_range(text, advance_head(frames), pos + 1, caps);
                    }
                },
                SpecNode::Optional(sub) => {
                    match run(text, seq![top_frame(sub)], pos, caps) {
                        Some(st) => {
                            if pos <= st.0 <= text.len() {
                                lemma_run_in_range(text, advance_head(frames), st.0, st.1);
                            }
                        },
                        None => {
                            lemma_run_in_range(text, advance_head(frames), pos, caps);
                        },
                    }
                },
                SpecNode::Group(sub) => {
                    lemma_run_in_range(
                        text,
                        seq![Frame { nodes: sub, group: Some((pos, caps.len() as int)) }]
                            + advance_head(frames),
                        pos,
                        caps.push(Seq::empty()),
                    );
                },
                SpecNode::Repeat(sub) => {
                    lemma_run_rep_in_range(text, sub, advance_head(frames), pos, caps);
                },
            }
        }
    }
}

/// Companion of `lemma_run_in_range` for greedy repetition.
pub proof fn lemma_run_rep_in_range(
    text: Seq<char>,
    sub: Seq<SpecNode>,
    frames: Seq<Frame>,
    pos: int,
    caps: Seq<Seq<char>>,
)
    ensures
        run_rep(text, sub, frames, pos, caps) matches Some(st) ==> pos <= st.0 <= text.len(),
    decreases text.len() - pos, seq_size(sub) + frames_size(frames), frames.len() + 2, 1nat,
{
    if 0 <= pos <= text.len() {
        lemma_singleton_size(sub);
        match run(text, seq![top_frame(sub)], pos, caps) {
            Some(st) => {
                if pos < st.0 <= text.len() {
                    lemma_run_rep_in_range(text, sub, frames, st.0, st.1);
                    lemma_run_in_range(text, frames, pos, caps);
                } else {
                    lemma_run_in_range(text, frames, pos, caps);
                }
            },
            None => {
                lemma_run_in_range(text, frames, pos, caps);
            },
        }
    }
}

} // verus!
