//! General laws of the engine, proved once and for all inputs: how
//! plain patterns, quantifiers, anchors, groups and classes behave.

use vstd::prelude::*;

use crate::ast::SpecNode;
use crate::ast::seq_size;
use crate::compiler::CompileError;
use crate::compiler::compile_rec;
use crate::compiler::compile_spec;
use crate::compiler::lemma_compile_rec_step_literal;
use crate::matcher::lemma_run_close;
use crate::matcher::lemma_run_stack_empty;
use crate::matcher::lemma_run_step_anchors;
use crate::matcher::lemma_run_step_class;
use crate::matcher::lemma_run_step_group;
use crate::matcher::lemma_run_step_literal;
use crate::matcher::lemma_run_step_optional;
use crate::matcher::lemma_run_rep_step;
use crate::semantics::Frame;
use crate::semantics::advance_head;
use crate::semantics::in_ranges;
use crate::semantics::lemma_run_in_range;
use crate::semantics::run;
use crate::semantics::run_rep;
use crate::semantics::search_spec;
use crate::semantics::top_frame;

verus! {

/// A character that the compiler turns into a `Literal` of itself.
pub open spec fn is_plain_char(c: char) -> bool {
    c != '^' && c != '$' && c != '.' && c != '?' && c != '*' && c != '(' && c != '[' && c != '|'
        && c != '\\'
}

/// The literal node for one character.
pub open spec fn lit_node(c: char) -> SpecNode {
    SpecNode::Literal(c)
}

/// The compiled form of a pattern with no special characters: one
/// `Literal` node per character.
pub open spec fn lit_nodes(cs: Seq<char>) -> Seq<SpecNode>
    decreases cs.len(),
{
    if cs.len() == 0 {
        Seq::empty()
    } else {
        seq![lit_node(cs[0])] + lit_nodes(cs.drop_first())
    }
}

/// The length of a literal node sequence.
pub proof fn lemma_lit_nodes_len(cs: Seq<char>)
    ensures
        lit_nodes(cs).len() == cs.len(),
    decreases cs.len(),
{
    if cs.len() > 0 {
        lemma_lit_nodes_len(cs.drop_first());
    }
}

proof fn lemma_lit_nodes_step(cs: Seq<char>, c: char)
    requires
        cs.len() > 0,
        cs[0] == c,
    ensures
        lit_nodes(cs).len() == cs.len(),
        lit_nodes(cs)[0] == SpecNode::Literal(c),
        lit_nodes(cs).drop_first() == lit_nodes(cs.drop_first()),
{
    lemma_lit_nodes_len(cs);
    lemma_lit_nodes_len(cs.drop_first());
    assert(lit_nodes(cs)[0] == SpecNode::Literal(c));
    assert(lit_nodes(cs).drop_first() =~= lit_nodes(cs.drop_first()));
}

/// Matching a run of literal nodes consumes exactly those characters:
/// it succeeds if and only if they occur at the cursor, and then
/// leaves everything else to the rest of the stack.
pub proof fn lemma_literal_run(
    text: Seq<char>,
    cs: Seq<char>,
    tail: Seq<SpecNode>,
    g: Option<(int, int)>,
    rest: Seq<Frame>,
    pos: int,
    caps: Seq<Seq<char>>,
)
    requires
        0 <= pos <= text.len(),
    ensures
        run(text, seq![Frame { nodes: lit_nodes(cs) + tail, group: g }] + rest, pos, caps) == (
        if pos + cs.len() <= text.len() && text.subrange(pos, pos + cs.len()) == cs {
            run(text, seq![Frame { nodes: tail, group: g }] + rest, pos + cs.len(), caps)
        } else {
            None::<(int, Seq<Seq<char>>)>
        }),
    decreases cs.len(),
{
    let frames = seq![Frame { nodes: lit_nodes(cs) + tail, group: g }] + rest;
    if cs.len() == 0 {
        assert(text.subrange(pos, pos) =~= cs);
        assert(lit_nodes(cs) + tail =~= tail);
        assert(frames =~= seq![Frame { nodes: tail, group: g }] + rest);
    } else {
        lemma_lit_nodes_step(cs, cs[0]);
        assert(frames[0].nodes[0] == SpecNode::Literal(cs[0]));
        lemma_run_step_literal(text, frames, pos, caps, cs[0]);
        assert(advance_head(frames) =~= seq![
            Frame { nodes: lit_nodes(cs.drop_first()) + tail, group: g },
        ] + rest) by {
            assert((lit_nodes(cs) + tail).drop_first() =~= lit_nodes(cs.drop_first()) + tail);
        }
        if pos < text.len() && text[pos] == cs[0] {
            lemma_literal_run(text, cs.drop_first(), tail, g, rest, pos + 1, caps);
        }
        if pos + cs.len() <= text.len() {
            let a = text.subrange(pos, pos + cs.len());
            assert(a.drop_first() =~= text.subrange(pos + 1, pos + 1 + cs.drop_first().len()));
            if text[pos] == cs[0] && text.subrange(pos + 1, pos + 1 + cs.drop_first().len())
                == cs.drop_first() {
                assert forall|m: int| 0 <= m < cs.len() implies a[m] == cs[m] by {
                    if m == 0 {
                        assert(a[0] == text[pos]);
                    } else {
                        assert(a[m] == text[pos + m]);
                        assert(text.subrange(pos + 1, pos + 1 + cs.drop_first().len())[m - 1]
                            == text[pos + m]);
                        assert(cs.drop_first()[m - 1] == cs[m]);
                    }
                }
                assert(a =~= cs);
            }
            if a == cs {
                assert(a[0] == text[pos] && a[0] == cs[0]);
                assert(a.drop_first() == cs.drop_first());
            }
        }
    }
}

/// Compiling a pattern of plain characters yields exactly one literal
/// node per character.
pub proof fn lemma_plain_compile(cs: Seq<char>, acc: Seq<SpecNode>)
    requires
        forall|i: int| 0 <= i < cs.len() ==> is_plain_char(#[trigger] cs[i]),
    ensures
        compile_rec(cs, acc) == Ok::<Seq<SpecNode>, CompileError>(acc + lit_nodes(cs)),
    decreases cs.len(),
{
    if cs.len() == 0 {
        assert(acc + lit_nodes(cs) =~= acc);
    } else {
        lemma_lit_nodes_step(cs, cs[0]);
        lemma_compile_rec_step_literal(cs, acc, cs[0]);
        assert(forall|i: int|
            0 <= i < cs.drop_first().len() ==> is_plain_char(#[trigger] cs.drop_first()[i]));
        lemma_plain_compile(cs.drop_first(), acc.push(SpecNode::Literal(cs[0])));
        assert(acc.push(SpecNode::Literal(cs[0])) + lit_nodes(cs.drop_first()) =~= acc + lit_nodes(
            cs,
        ));
    }
}

/// A pattern with no anchors, quantifiers, classes or groups matches a
/// text exactly when the text starts with the pattern itself, and then
/// matches precisely that prefix, capturing nothing.
pub proof fn lemma_plain_pattern(cs: Seq<char>, text: Seq<char>)
    requires
        forall|i: int| 0 <= i < cs.len() ==> is_plain_char(#[trigger] cs[i]),
    ensures
        compile_spec(cs) == Ok::<Seq<SpecNode>, CompileError>(lit_nodes(cs)),
        search_spec(lit_nodes(cs), text) == (if cs.len() <= text.len() && text.subrange(
            0,
            cs.len() as int,
        ) == cs {
            Some((cs.len() as int, Seq::<Seq<char>>::empty()))
        } else {
            None::<(int, Seq<Seq<char>>)>
        }),
{
    lemma_plain_compile(cs, Seq::empty());
    assert(Seq::empty() + lit_nodes(cs) =~= lit_nodes(cs));
    lemma_lit_nodes_len(cs);
    assert(lit_nodes(cs) + Seq::<SpecNode>::empty() =~= lit_nodes(cs));
    assert(seq![Frame { nodes: lit_nodes(cs) + Seq::<SpecNode>::empty(), group: None }]
        + Seq::<Frame>::empty() =~= seq![top_frame(lit_nodes(cs))]);
    lemma_literal_run(
        text,
        cs,
        Seq::empty(),
        None,
        Seq::empty(),
        0,
        Seq::empty(),
    );
    if cs.len() <= text.len() && text.subrange(0, cs.len() as int) == cs {
        let closing = seq![Frame { nodes: Seq::<SpecNode>::empty(), group: None }]
            + Seq::<Frame>::empty();
        lemma_run_close(text, closing, cs.len() as int, Seq::empty());
        assert(closing.drop_first() =~= Seq::<Frame>::empty());
        lemma_run_stack_empty(text, cs.len() as int, Seq::empty());
    }
}

/// A quantifier with nothing before it never compiles: the compiler
/// reports the error rather than guessing a node.
pub proof fn lemma_dangling_quantifier(p: Seq<char>)
    requires
        p.len() > 0,
        p[0] == '?' || p[0] == '*',
    ensures
        compile_spec(p) == Err::<Seq<SpecNode>, CompileError>(CompileError::DanglingQuantifier),
{
}

/// An optional node on its own never fails: it matches its body or
/// nothing at all.
pub proof fn lemma_optional_succeeds(
    text: Seq<char>,
    sub: Seq<SpecNode>,
    pos: int,
    caps: Seq<Seq<char>>,
)
    requires
        0 <= pos <= text.len(),
    ensures
        run(text, seq![top_frame(seq![SpecNode::Optional(sub)])], pos, caps) is Some,
{
    let frames = seq![top_frame(seq![SpecNode::Optional(sub)])];
    lemma_run_step_optional(text, frames, pos, caps, sub);
    lemma_run_in_range(text, seq![top_frame(sub)], pos, caps);
    let after = advance_head(frames);
    assert(after[0].nodes =~= Seq::<SpecNode>::empty());
    match run(text, seq![top_frame(sub)], pos, caps) {
        Some(st) => {
            lemma_run_close(text, after, st.0, st.1);
            assert(after.drop_first() =~= Seq::<Frame>::empty());
            lemma_run_stack_empty(text, st.0, st.1);
        },
        None => {
            lemma_run_close(text, after, pos, caps);
            assert(after.drop_first() =~= Seq::<Frame>::empty());
            lemma_run_stack_empty(text, pos, caps);
        },
    }
}

/// Wrapping an optional node in another optional changes nothing:
/// `Optional` is idempotent.
pub proof fn lemma_optional_idempotent(
    text: Seq<char>,
    sub: Seq<SpecNode>,
    tail: Seq<SpecNode>,
    g: Option<(int, int)>,
    rest: Seq<Frame>,
    pos: int,
    caps: Seq<Seq<char>>,
)
    requires
        0 <= pos <= text.len(),
    ensures
        run(
            text,
            seq![
                Frame {
                    nodes: seq![SpecNode::Optional(seq![SpecNode::Optional(sub)])] + tail,
                    group: g,
                },
            ] + rest,
            pos,
            caps,
        ) == run(
            text,
            seq![Frame { nodes: seq![SpecNode::Optional(sub)] + tail, group: g }] + rest,
            pos,
            caps,
        ),
{
    let inner = seq![SpecNode::Optional(sub)];
    let once = seq![Frame { nodes: inner + tail, group: g }] + rest;
    let twice = seq![Frame { nodes: seq![SpecNode::Optional(inner)] + tail, group: g }] + rest;
    lemma_run_in_range(text, seq![top_frame(sub)], pos, caps);
    lemma_run_step_optional(text, once, pos, caps, sub);
    lemma_run_step_optional(text, twice, pos, caps, inner);
    assert(advance_head(once) =~= seq![Frame { nodes: tail, group: g }] + rest) by {
        assert((inner + tail).drop_first() =~= tail);
    }
    assert(advance_head(twice) =~= seq![Frame { nodes: tail, group: g }] + rest) by {
        assert((seq![SpecNode::Optional(inner)] + tail).drop_first() =~= tail);
    }
    // The inner optional on its own: one level of commitment.
    let single = seq![top_frame(inner)];
    lemma_run_step_optional(text, single, pos, caps, sub);
    let after = advance_head(single);
    assert(after[0].nodes =~= Seq::<SpecNode>::empty());
    assert(after.drop_first() =~= Seq::<Frame>::empty());
    match run(text, seq![top_frame(sub)], pos, caps) {
        Some(st) => {
            lemma_run_close(text, after, st.0, st.1);
            lemma_run_stack_empty(text, st.0, st.1);
        },
        None => {
            lemma_run_close(text, after, pos, caps);
            lemma_run_stack_empty(text, pos, caps);
        },
    }
    lemma_run_in_range(text, single, pos, caps);
}

/// Anchors are positional only: `^` succeeds exactly at position 0 and
/// `$` exactly at the end of the input, neither consuming a character.
pub proof fn lemma_anchors_positional(
    text: Seq<char>,
    tail: Seq<SpecNode>,
    g: Option<(int, int)>,
    rest: Seq<Frame>,
    pos: int,
    caps: Seq<Seq<char>>,
)
    requires
        0 <= pos <= text.len(),
    ensures
        run(text, seq![Frame { nodes: seq![SpecNode::AnchorStart] + tail, group: g }] + rest, pos, caps)
            == (if pos == 0 {
            run(text, seq![Frame { nodes: tail, group: g }] + rest, pos, caps)
        } else {
            None::<(int, Seq<Seq<char>>)>
        }),
        run(text, seq![Frame { nodes: seq![SpecNode::AnchorEnd] + tail, group: g }] + rest, pos, caps)
            == (if pos == text.len() {
            run(text, seq![Frame { nodes: tail, group: g }] + rest, pos, caps)
        } else {
            None::<(int, Seq<Seq<char>>)>
        }),
{
    let starts = seq![Frame { nodes: seq![SpecNode::AnchorStart] + tail, group: g }] + rest;
    let ends = seq![Frame { nodes: seq![SpecNode::AnchorEnd] + tail, group: g }] + rest;
    lemma_run_step_anchors(text, starts, pos, caps);
    lemma_run_step_anchors(text, ends, pos, caps);
    assert(advance_head(starts) =~= seq![Frame { nodes: tail, group: g }] + rest) by {
        assert((seq![SpecNode::AnchorStart] + tail).drop_first() =~= tail);
    }
    assert(advance_head(ends) =~= seq![Frame { nodes: tail, group: g }] + rest) by {
        assert((seq![SpecNode::AnchorEnd] + tail).drop_first() =~= tail);
    }
}

/// A character class consumes exactly one character, accepted by the
/// class's ranges, or rejected by them when the class is negated.
pub proof fn lemma_class_semantics(
    text: Seq<char>,
    ranges: Seq<(char, char)>,
    negated: bool,
    tail: Seq<SpecNode>,
    g: Option<(int, int)>,
    rest: Seq<Frame>,
    pos: int,
    caps: Seq<Seq<char>>,
)
    requires
        0 <= pos <= text.len(),
    ensures
        run(
            text,
            seq![Frame { nodes: seq![SpecNode::CharClass { ranges, negated }] + tail, group: g }]
                + rest,
            pos,
            caps,
        ) == (if pos < text.len() && negated != in_ranges(ranges, text[pos]) {
            run(text, seq![Frame { nodes: tail, group: g }] + rest, pos + 1, caps)
        } else {
            None::<(int, Seq<Seq<char>>)>
        }),
{
    let frames = seq![Frame { nodes: seq![SpecNode::CharClass { ranges, negated }] + tail, group: g }]
        + rest;
    lemma_run_step_class(text, frames, pos, caps, ranges, negated);
    assert(advance_head(frames) =~= seq![Frame { nodes: tail, group: g }] + rest) by {
        assert((seq![SpecNode::CharClass { ranges, negated }] + tail).drop_first() =~= tail);
    }
}

/// Opening a group claims the next capture slot, in the order the
/// groups are declared, and leaves its body on a fresh frame above
/// the rest of the pattern, so backtracking passes through it.
pub proof fn lemma_group_opens_next_slot(
    text: Seq<char>,
    sub: Seq<SpecNode>,
    tail: Seq<SpecNode>,
    g: Option<(int, int)>,
    rest: Seq<Frame>,
    pos: int,
    caps: Seq<Seq<char>>,
)
    requires
        0 <= pos <= text.len(),
    ensures
        run(
            text,
            seq![Frame { nodes: seq![SpecNode::Group(sub)] + tail, group: g }] + rest,
            pos,
            caps,
        ) == run(
            text,
            seq![
                Frame { nodes: sub, group: Some((pos, caps.len() as int)) },
                Frame { nodes: tail, group: g },
            ] + rest,
            pos,
            caps.push(Seq::empty()),
        ),
{
    let frames = seq![Frame { nodes: seq![SpecNode::Group(sub)] + tail, group: g }] + rest;
    lemma_run_step_group(text, frames, pos, caps, sub);
    assert(seq![Frame { nodes: sub, group: Some((pos, caps.len() as int)) }] + advance_head(frames)
        =~= seq![
        Frame { nodes: sub, group: Some((pos, caps.len() as int)) },
        Frame { nodes: tail, group: g },
    ] + rest) by {
        assert((seq![SpecNode::Group(sub)] + tail).drop_first() =~= tail);
    }
}

/// Closing a group records exactly the text consumed since it was
/// opened, in the slot it claimed when it was opened.
pub proof fn lemma_group_close(
    text: Seq<char>,
    start: int,
    slot: int,
    rest: Seq<Frame>,
    pos: int,
    caps: Seq<Seq<char>>,
)
    requires
        0 <= start <= pos <= text.len(),
        0 <= slot < caps.len(),
    ensures
        run(
            text,
            seq![Frame { nodes: Seq::empty(), group: Some((start, slot)) }] + rest,
            pos,
            caps,
        ) == run(text, rest, pos, caps.update(slot, text.subrange(start, pos))),
{
    let frames = seq![Frame { nodes: Seq::<SpecNode>::empty(), group: Some((start, slot)) }] + rest;
    lemma_run_close(text, frames, pos, caps);
    assert(frames.drop_first() =~= rest);
}

/// The capture list never shrinks: a match fills or adds slots, and
/// keeps every slot that was already there.
pub proof fn lemma_caps_len_grows(
    text: Seq<char>,
    frames: Seq<Frame>,
    pos: int,
    caps: Seq<Seq<char>>,
)
    ensures
        run(text, frames, pos, caps) matches Some(st) ==> st.1.len() >= caps.len(),
    decreases text.len() - pos, crate::semantics::frames_size(frames), frames.len(), 0nat,
{
    if 0 <= pos <= text.len() && frames.len() > 0 {
        if frames[0].nodes.len() == 0 {
            match frames[0].group {
                Some(gg) => {
                    if 0 <= gg.1 < caps.len() && 0 <= gg.0 <= pos {
                        lemma_caps_len_grows(
                            text,
                            frames.drop_first(),
                            pos,
                            caps.update(gg.1, text.subrange(gg.0, pos)),
                        );
                    }
                },
                None => {
                    lemma_caps_len_grows(text, frames.drop_first(), pos, caps);
                },
            }
        } else {
            crate::semantics::lemma_head_measure(frames);
            match frames[0].nodes[0] {
                SpecNode::Literal(c) => {
                    if pos < text.len() && text[pos] == c {
                        lemma_caps_len_grows(text, advance_head(frames), pos + 1, caps);
                    }
                },
                SpecNode::Wildcard => {
                    if pos < text.len() {
                        lemma_caps_len_grows(text, advance_head(frames), pos + 1, caps);
                    }
                },
                SpecNode::AnchorStart => {
                    lemma_caps_len_grows(text, advance_head(frames), pos, caps);
                },
                SpecNode::AnchorEnd => {
                    lemma_caps_len_grows(text, advance_head(frames), pos, caps);
                },
                SpecNode::CharClass { ranges, negated } => {
                    if pos < text.len() && crate::semantics::class_matches(
                        ranges,
                        negated,
                        text[pos],
                    ) {
                        lemma_caps_len_grows(text, advance_head(frames), pos + 1, caps);
                    }
                },
                SpecNode::Optional(sub) => {
                    crate::semantics::lemma_singleton_size(sub);
                    lemma_caps_len_grows(text, seq![top_frame(sub)], pos, caps);
                    match run(text, seq![top_frame(sub)], pos, caps) {
                        Some(st) => {
                            if pos <= st.0 <= text.len() {
                                lemma_caps_len_grows(text, advance_head(frames), st.0, st.1);
                            }
                        },
                        None => {
                            lemma_caps_len_grows(text, advance_head(frames), pos, caps);
                        },
                    }
                },
                SpecNode::Group(sub) => {
                    crate::semantics::lemma_push_front_size(
                        Frame { nodes: sub, group: Some((pos, caps.len() as int)) },
                        advance_head(frames),
                    );
                    lemma_caps_len_grows(
                        text,
                        seq![Frame { nodes: sub, group: Some((pos, caps.len() as int)) }]
                            + advance_head(frames),
                        pos,
                        caps.push(Seq::empty()),
                    );
                },
                SpecNode::Repeat(sub) => {
                    lemma_rep_caps_len_grows(text, sub, advance_head(frames), pos, caps);
                },
            }
        }
    }
}

/// Companion of `lemma_caps_len_grows` for greedy repetition.
pub proof fn lemma_rep_caps_len_grows(
    text: Seq<char>,
    sub: Seq<SpecNode>,
    frames: Seq<Frame>,
    pos: int,
    caps: Seq<Seq<char>>,
)
    ensures
        run_rep(text, sub, frames, pos, caps) matches Some(st) ==> st.1.len() >= caps.len(),
    decreases text.len() - pos,
        seq_size(sub) + crate::semantics::frames_size(frames),
        frames.len() + 2,
        1nat,
{
    if 0 <= pos <= text.len() {
        crate::semantics::lemma_singleton_size(sub);
        lemma_caps_len_grows(text, seq![top_frame(sub)], pos, caps);
        match run(text, seq![top_frame(sub)], pos, caps) {
            Some(st) => {
                if pos < st.0 <= text.len() {
                    lemma_rep_caps_len_grows(text, sub, frames, st.0, st.1);
                    lemma_caps_len_grows(text, frames, pos, caps);
                } else {
                    lemma_caps_len_grows(text, frames, pos, caps);
                }
            },
            None => {
                lemma_caps_len_grows(text, frames, pos, caps);
            },
        }
    }
}

/// The state after exactly `k` repetitions of `sub`, each consuming at
/// least one character; `None` when `sub` cannot be repeated that often.
pub open spec fn rep_chain(
    text: Seq<char>,
    sub: Seq<SpecNode>,
    pos: int,
    caps: Seq<Seq<char>>,
    k: nat,
) -> Option<(int, Seq<Seq<char>>)>
    decreases k,
{
    if k == 0 {
        Some((pos, caps))
    } else {
        match rep_chain(text, sub, pos, caps, (k - 1) as nat) {
            Some(st) => match run(text, seq![top_frame(sub)], st.0, st.1) {
                Some(st2) => if st.0 < st2.0 <= text.len() {
                    Some(st2)
                } else {
                    None
                },
                None => None,
            },
            None => None,
        }
    }
}

/// Can the rest of the pattern match after exactly `k` repetitions?
pub open spec fn rep_viable(
    text: Seq<char>,
    sub: Seq<SpecNode>,
    frames: Seq<Frame>,
    pos: int,
    caps: Seq<Seq<char>>,
    k: nat,
) -> bool {
    match rep_chain(text, sub, pos, caps, k) {
        Some(st) => run(text, frames, st.0, st.1) is Some,
        None => false,
    }
}

/// The overall outcome when the repetition count is fixed to `k`.
pub open spec fn rep_result(
    text: Seq<char>,
    sub: Seq<SpecNode>,
    frames: Seq<Frame>,
    pos: int,
    caps: Seq<Seq<char>>,
    k: nat,
) -> Option<(int, Seq<Seq<char>>)> {
    match rep_chain(text, sub, pos, caps, k) {
        Some(st) => run(text, frames, st.0, st.1),
        None => None,
    }
}

proof fn lemma_chain_dead(text: Seq<char>, sub: Seq<SpecNode>, pos: int, caps: Seq<Seq<char>>, k: nat)
    requires
        k >= 1,
        (match run(text, seq![top_frame(sub)], pos, caps) {
            Some(st) => !(pos < st.0 <= text.len()),
            None => true,
        }),
    ensures
        rep_chain(text, sub, pos, caps, k) is None,
    decreases k,
{
    assert(rep_chain(text, sub, pos, caps, 0) == Some((pos, caps)));
    if k > 1 {
        lemma_chain_dead(text, sub, pos, caps, (k - 1) as nat);
    }
}

proof fn lemma_chain_shift(text: Seq<char>, sub: Seq<SpecNode>, pos: int, caps: Seq<Seq<char>>, k: nat)
    requires
        k >= 1,
        (match run(text, seq![top_frame(sub)], pos, caps) {
            Some(st) => pos < st.0 <= text.len(),
            None => false,
        }),
    ensures
        rep_chain(text, sub, pos, caps, k) == (match run(text, seq![top_frame(sub)], pos, caps) {
            Some(st) => rep_chain(text, sub, st.0, st.1, (k - 1) as nat),
            None => None::<(int, Seq<Seq<char>>)>,
        }),
    decreases k,
{
    assert(rep_chain(text, sub, pos, caps, 0) == Some((pos, caps)));
    match run(text, seq![top_frame(sub)], pos, caps) {
        Some(st) => {
            assert(rep_chain(text, sub, st.0, st.1, 0) == Some((st.0, st.1)));
        },
        None => {},
    }
    if k > 1 {
        lemma_chain_shift(text, sub, pos, caps, (k - 1) as nat);
    }
}

/// If the rest of the pattern matches after some repetition count,
/// greedy repetition finds a match.
pub proof fn lemma_repeat_complete(
    text: Seq<char>,
    sub: Seq<SpecNode>,
    frames: Seq<Frame>,
    pos: int,
    caps: Seq<Seq<char>>,
    k: nat,
)
    requires
        0 <= pos <= text.len(),
        rep_viable(text, sub, frames, pos, caps, k),
    ensures
        run_rep(text, sub, frames, pos, caps) is Some,
    decreases text.len() - pos,
{
    lemma_run_rep_step(text, sub, frames, pos, caps);
    lemma_run_in_range(text, seq![top_frame(sub)], pos, caps);
    match run(text, seq![top_frame(sub)], pos, caps) {
        Some(st) => {
            if pos < st.0 <= text.len() {
                if k == 0 {
                } else {
                    lemma_chain_shift(text, sub, pos, caps, k);
                    lemma_repeat_complete(text, sub, frames, st.0, st.1, (k - 1) as nat);
                }
            } else {
                if k >= 1 {
                    lemma_chain_dead(text, sub, pos, caps, k);
                }
            }
        },
        None => {
            if k >= 1 {
                lemma_chain_dead(text, sub, pos, caps, k);
            }
        },
    }
}

/// Greedy repetition with backtracking selects the largest repetition
/// count after which the rest of the pattern still matches, and
/// returns that outcome.
pub proof fn lemma_repeat_greedy(
    text: Seq<char>,
    sub: Seq<SpecNode>,
    frames: Seq<Frame>,
    pos: int,
    caps: Seq<Seq<char>>,
)
    requires
        0 <= pos <= text.len(),
        run_rep(text, sub, frames, pos, caps) is Some,
    ensures
        exists|k: nat|
            #[trigger] rep_viable(text, sub, frames, pos, caps, k) && run_rep(
                text,
                sub,
                frames,
                pos,
                caps,
            ) == rep_result(text, sub, frames, pos, caps, k) && forall|j: nat|
                rep_viable(text, sub, frames, pos, caps, j) ==> j <= k,
    decreases text.len() - pos,
{
    lemma_run_rep_step(text, sub, frames, pos, caps);
    lemma_run_in_range(text, seq![top_frame(sub)], pos, caps);
    match run(text, seq![top_frame(sub)], pos, caps) {
        Some(st) => {
            if pos < st.0 <= text.len() {
                if run_rep(text, sub, frames, st.0, st.1) is Some {
                    lemma_repeat_greedy(text, sub, frames, st.0, st.1);
                    let k2 = choose|k2: nat|
                        #[trigger] rep_viable(text, sub, frames, st.0, st.1, k2) && run_rep(
                            text,
                            sub,
                            frames,
                            st.0,
                            st.1,
                        ) == rep_result(text, sub, frames, st.0, st.1, k2) && forall|j: nat|
                            rep_viable(text, sub, frames, st.0, st.1, j) ==> j <= k2;
                    let k = k2 + 1;
                    lemma_chain_shift(text, sub, pos, caps, k);
                    assert(rep_viable(text, sub, frames, pos, caps, k));
                    assert forall|j: nat|
                        rep_viable(text, sub, frames, pos, caps, j) implies j <= k by {
                        if j >= 1 {
                            lemma_chain_shift(text, sub, pos, caps, j);
                            assert(rep_viable(text, sub, frames, st.0, st.1, (j - 1) as nat));
                        }
                    }
                } else {
                    let k = 0nat;
                    assert(rep_viable(text, sub, frames, pos, caps, k));
                    assert forall|j: nat|
                        rep_viable(text, sub, frames, pos, caps, j) implies j <= k by {
                        if j >= 1 {
                            lemma_chain_shift(text, sub, pos, caps, j);
                            assert(rep_viable(text, sub, frames, st.0, st.1, (j - 1) as nat));
                            lemma_repeat_complete(text, sub, frames, st.0, st.1, (j - 1) as nat);
                        }
                    }
                    assert(rep_viable(text, sub, frames, pos, caps, k) && run_rep(
                        text,
                        sub,
                        frames,
                        pos,
                        caps,
                    ) == rep_result(text, sub, frames, pos, caps, k) && forall|j: nat|
                        rep_viable(text, sub, frames, pos, caps, j) ==> j <= k);
                }
            } else {
                let k = 0nat;
                assert forall|j: nat| rep_viable(text, sub, frames, pos, caps, j) implies j <= k by {
                    if j >= 1 {
                        lemma_chain_dead(text, sub, pos, caps, j);
                    }
                }
                assert(rep_viable(text, sub, frames, pos, caps, k) && run_rep(
                    text,
                    sub,
                    frames,
                    pos,
                    caps,
                ) == rep_result(text, sub, frames, pos, caps, k) && forall|j: nat|
                    rep_viable(text, sub, frames, pos, caps, j) ==> j <= k);
            }
        },
        None => {
            let k = 0nat;
            assert forall|j: nat| rep_viable(text, sub, frames, pos, caps, j) implies j <= k by {
                if j >= 1 {
                    lemma_chain_dead(text, sub, pos, caps, j);
                }
            }
            assert(rep_viable(text, sub, frames, pos, caps, k) && run_rep(text, sub, frames, pos, caps)
                == rep_result(text, sub, frames, pos, caps, k) && forall|j: nat|
                rep_viable(text, sub, frames, pos, caps, j) ==> j <= k);
        },
    }
}

} // verus!
