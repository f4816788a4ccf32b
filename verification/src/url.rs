//! URLs of the form `http://host/path`, parsed with the engine itself.

use vstd::prelude::*;
use vstd::string::StrSliceExecFns;

use crate::Re;
use crate::compiler::compile_rec;
use crate::compiler::compile_spec;
use crate::compiler::lemma_compile_rec_step_literal;
use crate::compiler::lemma_find_char_is;
use crate::compiler::parse_class_items;
use crate::error::Error;
use crate::laws::lemma_plain_compile;
use crate::semantics::search_spec;

verus! {

/// The pattern that a URL must match: an `http` scheme, a host up to
/// the first `/`, and a path free of `?`.
pub open spec fn url_pattern() -> Seq<char> {
    "^(http)://([^/]*)([^?]*)$"@
}

/// The match of the URL pattern against a string: the matched extent
/// and the three captures (scheme, host, path).
pub open spec fn url_match(s: Seq<char>) -> Option<(int, Seq<Seq<char>>)> {
    match compile_spec(url_pattern()) {
        Ok(nodes) => search_spec(nodes, s),
        Err(_) => None,
    }
}

/// The URL pattern is a valid pattern: compiling it cannot fail, so
/// rejection by `Url::parse` always means that the string does not
/// match it.
pub proof fn lemma_url_pattern_compiles()
    ensures
        compile_spec(url_pattern()) is Ok,
{
    reveal_strlit("^(http)://([^/]*)([^?]*)$");
    let p = url_pattern();
    let e = Seq::<crate::ast::SpecNode>::empty();
    // `^`
    let a1 = e.push(crate::ast::SpecNode::AnchorStart);
    assert(compile_rec(p, e) == compile_rec(p.skip(1), a1)) by {
        assert(p.drop_first() =~= p.skip(1));
    }
    // `(http)`
    let s1 = p.skip(1);
    assert(s1.drop_first() =~= p.skip(2));
    assert(p.skip(2)[4] == ')');
    assert forall|k: int| 0 <= k < 4 implies p.skip(2)[k] != ')' by {
        assert(p.skip(2)[k] == p[k + 2]);
    }
    lemma_find_char_is(p.skip(2), ')', 4);
    let inner1 = s1.subrange(1, 5);
    assert(inner1 =~= p.subrange(2, 6));
    assert forall|k: int| 0 <= k < inner1.len() implies crate::laws::is_plain_char(
        #[trigger] inner1[k],
    ) by {
        assert(inner1[k] == p[k + 2]);
    }
    lemma_plain_compile(inner1, e);
    let a2 = a1.push(crate::ast::SpecNode::Group(e + crate::laws::lit_nodes(inner1)));
    assert(compile_rec(s1, a1) == compile_rec(s1.skip(6), a2));
    // `://`
    assert(s1.skip(6) =~= p.skip(7));
    let a3 = a2.push(crate::ast::SpecNode::Literal(':'));
    lemma_compile_rec_step_literal(p.skip(7), a2, ':');
    assert(p.skip(7).drop_first() =~= p.skip(8));
    let a4 = a3.push(crate::ast::SpecNode::Literal('/'));
    lemma_compile_rec_step_literal(p.skip(8), a3, '/');
    assert(p.skip(8).drop_first() =~= p.skip(9));
    let a5 = a4.push(crate::ast::SpecNode::Literal('/'));
    lemma_compile_rec_step_literal(p.skip(9), a4, '/');
    assert(p.skip(9).drop_first() =~= p.skip(10));
    // `([^/]*)`
    let s2 = p.skip(10);
    assert(s2.drop_first() =~= p.skip(11));
    assert(p.skip(11)[5] == ')');
    assert forall|k: int| 0 <= k < 5 implies p.skip(11)[k] != ')' by {
        assert(p.skip(11)[k] == p[k + 11]);
    }
    lemma_find_char_is(p.skip(11), ')', 5);
    let inner2 = s2.subrange(1, 6);
    assert(inner2 =~= p.subrange(11, 16));
    assert(compile_rec(inner2, e) is Ok) by {
        assert(inner2[0] == '[');
        assert(inner2.drop_first() =~= p.subrange(12, 16));
        assert(p.subrange(12, 16)[2] == ']');
        assert(p.subrange(12, 16)[0] != ']' && p.subrange(12, 16)[1] != ']');
        lemma_find_char_is(p.subrange(12, 16), ']', 2);
        let body = inner2.subrange(1, 3);
        assert(body =~= p.subrange(12, 14));
        assert(body[0] == '^');
        let items = body.drop_first();
        assert(items =~= p.subrange(13, 14));
        assert(parse_class_items(items) == Ok::<Seq<(char, char)>, crate::CompileError>(
            seq![('/', '/')] + Seq::<(char, char)>::empty(),
        )) by {
            assert(items.drop_first() =~= Seq::<char>::empty());
            assert(parse_class_items(Seq::<char>::empty())
                == Ok::<Seq<(char, char)>, crate::CompileError>(Seq::empty()));
            assert(items[0] == '/');
        }
        let c1 = e.push(
            crate::ast::SpecNode::CharClass {
                ranges: seq![('/', '/')] + Seq::<(char, char)>::empty(),
                negated: true,
            },
        );
        assert(compile_rec(inner2, e) == compile_rec(inner2.skip(4), c1));
        assert(inner2.skip(4) =~= p.subrange(15, 16));
        assert(inner2.skip(4)[0] == '*');
        let c2 = c1.drop_last().push(crate::ast::SpecNode::Repeat(seq![c1.last()]));
        assert(compile_rec(inner2.skip(4), c1) == compile_rec(inner2.skip(4).drop_first(), c2));
        assert(inner2.skip(4).drop_first() =~= Seq::<char>::empty());
    }
    let sub2 = compile_rec(inner2, e)->Ok_0;
    let a6 = a5.push(crate::ast::SpecNode::Group(sub2));
    assert(compile_rec(s2, a5) == compile_rec(s2.skip(7), a6));
    // `([^?]*)`
    assert(s2.skip(7) =~= p.skip(17));
    let s3 = p.skip(17);
    assert(s3.drop_first() =~= p.skip(18));
    assert(p.skip(18)[5] == ')');
    assert forall|k: int| 0 <= k < 5 implies p.skip(18)[k] != ')' by {
        assert(p.skip(18)[k] == p[k + 18]);
    }
    lemma_find_char_is(p.skip(18), ')', 5);
    let inner3 = s3.subrange(1, 6);
    assert(inner3 =~= p.subrange(18, 23));
    assert(compile_rec(inner3, e) is Ok) by {
        assert(inner3[0] == '[');
        assert(inner3.drop_first() =~= p.subrange(19, 23));
        assert(p.subrange(19, 23)[2] == ']');
        assert(p.subrange(19, 23)[0] != ']' && p.subrange(19, 23)[1] != ']');
        lemma_find_char_is(p.subrange(19, 23), ']', 2);
        let body = inner3.subrange(1, 3);
        assert(body =~= p.subrange(19, 21));
        assert(body[0] == '^');
        let items = body.drop_first();
        assert(items =~= p.subrange(20, 21));
        assert(parse_class_items(items) == Ok::<Seq<(char, char)>, crate::CompileError>(
            seq![('?', '?')] + Seq::<(char, char)>::empty(),
        )) by {
            assert(items.drop_first() =~= Seq::<char>::empty());
            assert(parse_class_items(Seq::<char>::empty())
                == Ok::<Seq<(char, char)>, crate::CompileError>(Seq::empty()));
            assert(items[0] == '?');
        }
        let c1 = e.push(
            crate::ast::SpecNode::CharClass {
                ranges: seq![('?', '?')] + Seq::<(char, char)>::empty(),
                negated: true,
            },
        );
        assert(compile_rec(inner3, e) == compile_rec(inner3.skip(4), c1));
        assert(inner3.skip(4) =~= p.subrange(22, 23));
        assert(inner3.skip(4)[0] == '*');
        let c2 = c1.drop_last().push(crate::ast::SpecNode::Repeat(seq![c1.last()]));
        assert(compile_rec(inner3.skip(4), c1) == compile_rec(inner3.skip(4).drop_first(), c2));
        assert(inner3.skip(4).drop_first() =~= Seq::<char>::empty());
    }
    let sub3 = compile_rec(inner3, e)->Ok_0;
    let a7 = a6.push(crate::ast::SpecNode::Group(sub3));
    assert(compile_rec(s3, a6) == compile_rec(s3.skip(7), a7));
    // `$`
    assert(s3.skip(7) =~= p.skip(24));
    assert(p.skip(24)[0] == '$');
    let a8 = a7.push(crate::ast::SpecNode::AnchorEnd);
    assert(compile_rec(p.skip(24), a7) == compile_rec(p.skip(24).drop_first(), a8));
    assert(p.skip(24).drop_first() =~= Seq::<char>::empty());
}

/// Does `s` parse as a URL: the pattern matches and yields the three
/// captures?
pub open spec fn is_url(s: Seq<char>) -> bool {
    match url_match(s) {
        Some(st) => st.1.len() == 3,
        None => false,
    }
}

/// The model of a parsed URL.
pub struct UrlParts {
    pub scheme: Seq<char>,
    pub host: Seq<char>,
    pub path: Seq<char>,
}

/// A parsed URL: scheme, host and path, with `/` standing in for an
/// empty path.
#[derive(Debug)]
pub struct Url {
    scheme: String,
    host: String,
    path: String,
}

impl View for Url {
    type V = UrlParts;

    closed spec fn view(&self) -> UrlParts {
        UrlParts { scheme: self.scheme@, host: self.host@, path: self.path@ }
    }
}

/// What the fields of a parsed URL hold, given the captures of the
/// URL pattern.
pub open spec fn url_from_captures(u: UrlParts, caps: Seq<Seq<char>>) -> bool {
    &&& u.scheme == caps[0]
    &&& u.host == caps[1]
    &&& u.path == (if caps[2].len() == 0 {
        seq!['/']
    } else {
        caps[2]
    })
}

impl Url {
    /// Parses a URL, or rejects a string that the URL pattern does not
    /// match.
    pub fn parse(s: &str) -> (r: Result<Url, Error>)
        ensures
            (match r {
                Ok(u) => is_url(s@) && (url_match(s@) matches Some(st) && url_from_captures(
                    u@,
                    st.1,
                )),
                Err(e) => !is_url(s@),
            }),
    {
        match Re::compile("^(http)://([^/]*)([^?]*)$") {
            Err(_) => Err(Error {}),
            Ok(re) => match re.search(s) {
                None => Err(Error {}),
                Some(m) => {
                    let mut caps = m.captured;
                    if caps.len() != 3 {
                        return Err(Error {});
                    }
                    let path0 = match caps.pop() {
                        Some(p) => p,
                        None => {
                            proof {
                                assert(false);
                            }
                            String::new()
                        },
                    };
                    let host = match caps.pop() {
                        Some(p) => p,
                        None => {
                            proof {
                                assert(false);
                            }
                            String::new()
                        },
                    };
                    let scheme = match caps.pop() {
                        Some(p) => p,
                        None => {
                            proof {
                                assert(false);
                            }
                            String::new()
                        },
                    };
                    let path = if path0.as_str().unicode_len() == 0 {
                        proof {
                            reveal_strlit("/");
                            assert("/"@ =~= seq!['/']);
                        }
                        "/".to_owned()
                    } else {
                        path0
                    };
                    Ok(Url { scheme, host, path })
                },
            },
        }
    }

    /// The scheme of the URL; always `http`.
    pub fn scheme(&self) -> (r: &str)
        ensures
            r@ == self@.scheme,
    {
        self.scheme.as_str()
    }

    /// The host part of the URL.
    pub fn host(&self) -> (r: &str)
        ensures
            r@ == self@.host,
    {
        self.host.as_str()
    }

    /// The path part of the URL; `/` when the URL gave none.
    pub fn path(&self) -> (r: &str)
        ensures
            r@ == self@.path,
    {
        self.path.as_str()
    }
}

} // verus!
