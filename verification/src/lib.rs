//! A small regular-expression engine: a pattern string is compiled into
//! an ordered sequence of nodes and matched against an input string by
//! backtracking search, anchored at the start of the input.
//!
//! Supported constructs: literal characters, `.`, the anchors `^` and
//! `$`, character classes `[...]` / `[^...]` with `a-b` ranges, the
//! quantifiers `?` and `*` on the preceding node, and capture groups
//! `(...)`.  Alternation and escaping are rejected at compile time.
//!
//! Matching with `*` is greedy with backtracking and can explore
//! exponentially many branches on ambiguous patterns; that cost is
//! accepted for the sake of a clear matching semantics.

use vstd::prelude::*;
use vstd::string::StrSliceExecFns;

pub mod ast;
pub mod client;
pub mod compiler;
pub mod error;
pub mod laws;
pub mod matcher;
pub mod semantics;
pub mod url;

pub use compiler::CompileError;

use ast::Node;
use ast::SpecNode;
use ast::nodes_view;
use compiler::compile_chars;
use compiler::compile_spec;
use compiler::to_char_vec;
use matcher::ExecFrame;
use matcher::caps_model;
use matcher::caps_to_strings;
use matcher::run_exec;
use semantics::search_spec;
use semantics::top_frame;

verus! {

/// A compiled regular expression.
pub struct Re {
    nodes: Vec<Node>,
}

impl View for Re {
    type V = Seq<SpecNode>;

    closed spec fn view(&self) -> Seq<SpecNode> {
        nodes_view(self.nodes@)
    }
}

/// The successful match of a regular expression against a string: the
/// matched text and the captured substrings, in the order the groups
/// were opened in the pattern.
#[derive(Debug, PartialEq)]
pub struct Match {
    pub matched: String,
    pub captured: Vec<String>,
}

impl Re {
    /// Compiles a pattern string, or reports why it is not a valid
    /// pattern.
    pub fn compile(re: &str) -> (r: Result<Re, CompileError>)
        ensures
            (match r {
                Ok(p) => compile_spec(re@) == Ok::<Seq<SpecNode>, CompileError>(p@),
                Err(e) => compile_spec(re@) == Err::<Seq<SpecNode>, CompileError>(e),
            }),
    {
        let chars = to_char_vec(re);
        match compile_chars(&chars) {
            Ok(ns) => Ok(Re { nodes: ns }),
            Err(e) => Err(e),
        }
    }

    /// Matches the compiled pattern against the start of `s`: the
    /// match, when there is one, covers `s` from its first character
    /// up to the final cursor, and carries one captured substring per
    /// matched group.
    pub fn search(&self, s: &str) -> (r: Option<Match>)
        ensures
            (match r {
                Some(m) => search_spec(self@, s@) matches Some(st) && m.matched@.len() == st.0
                    && m.matched@ == s@.subrange(0, st.0) && m.captured.deep_view() == st.1,
                None => search_spec(self@, s@) is None,
            }),
    {
        let caps0: Vec<(usize, usize)> = Vec::new();
        let mut frames0: Vec<ExecFrame> = Vec::new();
        frames0.push(ExecFrame { nodes: &self.nodes, i: 0, group: None });
        proof {
            assert(self.nodes@.skip(0) =~= self.nodes@);
            assert(caps_model(s@, caps0@) =~= Seq::<Seq<char>>::empty());
            assert(matcher::frames_view(frames0@) =~= seq![top_frame(nodes_view(self.nodes@))]);
        }
        match run_exec(s, &frames0, 0, &caps0) {
            Some((end, pairs)) => {
                let matched = s.substring_char(0, end).to_owned();
                let captured = caps_to_strings(s, &pairs);
                Some(Match { matched, captured })
            },
            None => None,
        }
    }
}

} // verus!
