//! Tokenizer for the track-log markup format.
//!
//! A byte stream is turned into a sequence of tokens: opening tags with
//! their attributes, self-closing tags, closing tags and trimmed text nodes.
//! Processing instructions, comments, CDATA sections and declarations are
//! recognized and skipped. A construct that never terminates (for example a
//! tag without its closing bracket) produces a warning carrying its byte
//! offset, and scanning resumes at the next recognizable position, so a
//! damaged file still yields everything that parsed before and after the
//! fault.

use crate::entity::{unescape, unescape_range};
use crate::scan::{
    copy_range, find_byte, find_pair, find_triple, is_name_byte, is_space, name_byte_test, name_end,
    rskip_spaces, scan_byte, scan_name, scan_pair, scan_spaces, scan_spaces_back, scan_triple,
    skip_spaces, B_APOS, B_BANG, B_DASH, B_EQ, B_GT, B_LBRACK, B_LT, B_QM, B_QUOT, B_RBRACK,
    B_SLASH,
};
use crate::Warning;
use vstd::prelude::*;

verus! {

/// One attribute of a tag; the value is already unescaped.
#[derive(Debug, Clone, PartialEq, Eq)]
pub struct TagAttr {
    pub name: Vec<u8>,
    pub value: Vec<u8>,
}

#[verifier::ext_equal]
pub struct AttrModel {
    pub name: Seq<u8>,
    pub value: Seq<u8>,
}

impl View for TagAttr {
    type V = AttrModel;

    open spec fn view(&self) -> AttrModel {
        AttrModel { name: self.name@, value: self.value@ }
    }
}

pub open spec fn attrs_view(v: Seq<TagAttr>) -> Seq<AttrModel> {
    v.map_values(|a: TagAttr| a@)
}

#[derive(Debug, Clone, PartialEq, Eq)]
pub enum Token {
    Open { name: Vec<u8>, attrs: Vec<TagAttr> },
    SelfClosed { name: Vec<u8>, attrs: Vec<TagAttr> },
    Close { name: Vec<u8> },
    Text { content: Vec<u8> },
}

#[verifier::ext_equal]
pub enum TokenModel {
    Open { name: Seq<u8>, attrs: Seq<AttrModel> },
    SelfClosed { name: Seq<u8>, attrs: Seq<AttrModel> },
    Close { name: Seq<u8> },
    Text { content: Seq<u8> },
}

impl View for Token {
    type V = TokenModel;

    open spec fn view(&self) -> TokenModel {
        match self {
            Token::Open { name, attrs } => TokenModel::Open {
                name: name@,
                attrs: attrs_view(attrs@),
            },
            Token::SelfClosed { name, attrs } => TokenModel::SelfClosed {
                name: name@,
                attrs: attrs_view(attrs@),
            },
            Token::Close { name } => TokenModel::Close { name: name@ },
            Token::Text { content } => TokenModel::Text { content: content@ },
        }
    }
}

pub open spec fn token_views(v: Seq<Token>) -> Seq<TokenModel> {
    v.map_values(|t: Token| t@)
}

/// Clamps a scan target so that every step moves forward and stays within
/// the input; in well-formed inputs the clamp never fires, it only keeps the
/// definitions below total and obviously terminating.
pub open spec fn step_to(s: Seq<u8>, i: int, j: int) -> int {
    if j <= i {
        i + 1
    } else if j > s.len() {
        s.len() as int
    } else {
        j
    }
}

/// Outcome of reading an attribute list: the attributes, the position just
/// past the closing bracket and whether the tag was self-closing — or
/// `Broken` when the list never closes.
#[verifier::ext_equal]
pub enum AttrScan {
    Parsed { attrs: Seq<AttrModel>, end: int, closed: bool },
    Broken,
}

/// Reads an attribute list starting at `i` (just past the tag name) up to
/// and including the closing `>` or `/>`.
pub open spec fn parse_attrs(s: Seq<u8>, i: int) -> AttrScan
    decreases s.len() - i,
{
    if i >= s.len() {
        AttrScan::Broken
    } else {
        let j = skip_spaces(s, i);
        if j >= s.len() {
            AttrScan::Broken
        } else if s[j] == B_GT {
            AttrScan::Parsed { attrs: Seq::empty(), end: j + 1, closed: false }
        } else if s[j] == B_SLASH {
            if j + 1 < s.len() && s[j + 1] == B_GT {
                AttrScan::Parsed { attrs: Seq::empty(), end: j + 2, closed: true }
            } else {
                AttrScan::Broken
            }
        } else if !is_name_byte(s[j]) {
            AttrScan::Broken
        } else {
            let ne = name_end(s, j);
            let k = skip_spaces(s, ne);
            if k >= s.len() || s[k] != B_EQ {
                AttrScan::Broken
            } else {
                let v = skip_spaces(s, k + 1);
                if v >= s.len() || (s[v] != B_QUOT && s[v] != B_APOS) {
                    AttrScan::Broken
                } else {
                    let q = find_byte(s, v + 1, s[v]);
                    if q >= s.len() {
                        AttrScan::Broken
                    } else {
                        match parse_attrs(s, step_to(s, i, q + 1)) {
                            AttrScan::Parsed { attrs, end, closed } => AttrScan::Parsed {
                                attrs: seq![
                                    AttrModel {
                                        name: s.subrange(j, ne),
                                        value: unescape(s.subrange(v + 1, q)),
                                    },
                                ] + attrs,
                                end,
                                closed,
                            },
                            AttrScan::Broken => AttrScan::Broken,
                        }
                    }
                }
            }
        }
    }
}

pub fn read_attrs(s: &Vec<u8>, from: usize) -> (r: Option<(Vec<TagAttr>, usize, bool)>)
    requires
        from <= s@.len(),
    ensures
        match r {
            Some((attrs, end, closed)) => parse_attrs(s@, from as int) == (AttrScan::Parsed {
                attrs: attrs_view(attrs@),
                end: end as int,
                closed,
            }),
            None => parse_attrs(s@, from as int) is Broken,
        },
{
    let n = s.len();
    let mut acc: Vec<TagAttr> = Vec::new();
    let mut p = from;
    proof {
        match parse_attrs(s@, from as int) {
            AttrScan::Parsed { attrs, end, closed } => {
                assert(attrs_view(acc@) + attrs =~= attrs);
            },
            AttrScan::Broken => {},
        }
    }
    loop
        invariant
            from <= p <= n,
            n == s@.len(),
            match parse_attrs(s@, p as int) {
                AttrScan::Parsed { attrs, end, closed } => parse_attrs(s@, from as int)
                    == (AttrScan::Parsed {
                    attrs: attrs_view(acc@) + attrs,
                    end,
                    closed,
                }),
                AttrScan::Broken => parse_attrs(s@, from as int) is Broken,
            },
        decreases n - p,
    {
        if p >= n {
            return None;
        }
        let j = scan_spaces(s, p);
        if j >= n {
            return None;
        }
        let c = s[j];
        if c == B_GT {
            proof {
                assert(attrs_view(acc@) + Seq::<AttrModel>::empty() =~= attrs_view(acc@));
            }
            return Some((acc, j + 1, false));
        } else if c == B_SLASH {
            if j + 1 < n && s[j + 1] == B_GT {
                proof {
                    assert(attrs_view(acc@) + Seq::<AttrModel>::empty() =~= attrs_view(acc@));
                }
                return Some((acc, j + 2, true));
            } else {
                return None;
            }
        } else if !name_byte_test(c) {
            return None;
        } else {
            let ne = scan_name(s, j);
            let k = scan_spaces(s, ne);
            if k >= n || s[k] != B_EQ {
                return None;
            }
            let v = scan_spaces(s, k + 1);
            if v >= n || (s[v] != B_QUOT && s[v] != B_APOS) {
                return None;
            }
            let q = scan_byte(s, v + 1, s[v]);
            if q >= n {
                return None;
            }
            let name = copy_range(s, j, ne);
            let value = unescape_range(s, v + 1, q);
            let ghost old_acc = acc@;
            let ghost attr_m = AttrModel {
                name: s@.subrange(j as int, ne as int),
                value: unescape(s@.subrange(v + 1 as int, q as int)),
            };
            let attr = TagAttr { name, value };
            proof {
                assert(attr@ == attr_m);
                assert(step_to(s@, p as int, q + 1 as int) == q + 1 as int);
                assert(attrs_view(old_acc.push(attr)) =~= attrs_view(old_acc).push(attr_m));
                match parse_attrs(s@, q + 1 as int) {
                    AttrScan::Parsed { attrs, end, closed } => {
                        assert(parse_attrs(s@, p as int) == (AttrScan::Parsed {
                            attrs: seq![attr_m] + attrs,
                            end,
                            closed,
                        }));
                        assert(attrs_view(old_acc) + (seq![attr_m] + attrs) =~= attrs_view(
                            old_acc.push(attr),
                        ) + attrs);
                    },
                    AttrScan::Broken => {
                        assert(parse_attrs(s@, p as int) is Broken);
                    },
                }
            }
            acc.push(attr);
            p = q + 1;
        }
    }
}

/// The token stream of a byte suffix, together with the warnings raised
/// while reading it.
#[verifier::ext_equal]
pub struct ScanModel {
    pub toks: Seq<TokenModel>,
    pub warns: Seq<Warning>,
}

pub open spec fn scan_done() -> ScanModel {
    ScanModel { toks: Seq::empty(), warns: Seq::empty() }
}

pub open spec fn with_tok(t: TokenModel, m: ScanModel) -> ScanModel {
    ScanModel { toks: seq![t] + m.toks, warns: m.warns }
}

pub open spec fn with_warn(w: Warning, m: ScanModel) -> ScanModel {
    ScanModel { toks: m.toks, warns: seq![w] + m.warns }
}

pub open spec fn one_warn(w: Warning) -> ScanModel {
    ScanModel { toks: Seq::empty(), warns: seq![w] }
}

/// The tokens of `s` from position `i` on: tags, text nodes (trimmed,
/// entity-decoded, and only when non-empty), with comments, processing
/// instructions, CDATA sections and declarations skipped, and a warning for
/// every construct whose terminator never appears.
pub open spec fn scan_tokens(s: Seq<u8>, i: int) -> ScanModel
    decreases s.len() - i,
{
    if i >= s.len() {
        scan_done()
    } else if s[i] == B_LT {
        if i + 1 < s.len() && s[i + 1] == B_SLASH {
            let j = find_byte(s, i + 2, B_GT);
            if j >= s.len() {
                one_warn(Warning::MalformedToken { offset: i as usize })
            } else {
                let ne = name_end(s, i + 2);
                with_tok(
                    TokenModel::Close { name: s.subrange(i + 2, ne) },
                    scan_tokens(s, step_to(s, i, j + 1)),
                )
            }
        } else if i + 3 < s.len() && s[i + 1] == B_BANG && s[i + 2] == B_DASH && s[i + 3]
            == B_DASH {
            let j = find_triple(s, i + 4, B_DASH, B_DASH, B_GT);
            if j >= s.len() {
                one_warn(Warning::MalformedToken { offset: i as usize })
            } else {
                scan_tokens(s, step_to(s, i, j + 3))
            }
        } else if i + 8 < s.len() && s[i + 1] == B_BANG && s[i + 2] == B_LBRACK && s[i + 3] == 67
            && s[i + 4] == 68 && s[i + 5] == 65 && s[i + 6] == 84 && s[i + 7] == 65 && s[i + 8]
            == B_LBRACK {
            let j = find_triple(s, i + 9, B_RBRACK, B_RBRACK, B_GT);
            if j >= s.len() {
                one_warn(Warning::MalformedToken { offset: i as usize })
            } else {
                scan_tokens(s, step_to(s, i, j + 3))
            }
        } else if i + 1 < s.len() && s[i + 1] == B_BANG {
            let j = find_byte(s, i + 2, B_GT);
            if j >= s.len() {
                one_warn(Warning::MalformedToken { offset: i as usize })
            } else {
                scan_tokens(s, step_to(s, i, j + 1))
            }
        } else if i + 1 < s.len() && s[i + 1] == B_QM {
            let j = find_pair(s, i + 2, B_QM, B_GT);
            if j >= s.len() {
                one_warn(Warning::MalformedToken { offset: i as usize })
            } else {
                scan_tokens(s, step_to(s, i, j + 2))
            }
        } else if i + 1 < s.len() && is_name_byte(s[i + 1]) {
            let ne = name_end(s, i + 1);
            match parse_attrs(s, ne) {
                AttrScan::Parsed { attrs, end, closed } => {
                    let name = s.subrange(i + 1, ne);
                    let tok = if closed {
                        TokenModel::SelfClosed { name, attrs }
                    } else {
                        TokenModel::Open { name, attrs }
                    };
                    with_tok(tok, scan_tokens(s, step_to(s, i, end)))
                },
                AttrScan::Broken => with_warn(
                    Warning::MalformedToken { offset: i as usize },
                    scan_tokens(s, step_to(s, i, find_byte(s, i + 1, B_LT))),
                ),
            }
        } else {
            with_warn(
                Warning::MalformedToken { offset: i as usize },
                scan_tokens(s, step_to(s, i, find_byte(s, i + 1, B_LT))),
            )
        }
    } else {
        let j = find_byte(s, i, B_LT);
        let a = skip_spaces(s, i);
        let b = rskip_spaces(s, j, a);
        if a < b {
            let t = unescape(s.subrange(a, b));
            if t.len() > 0 {
                with_tok(TokenModel::Text { content: t }, scan_tokens(s, step_to(s, i, j)))
            } else {
                scan_tokens(s, step_to(s, i, j))
            }
        } else {
            scan_tokens(s, step_to(s, i, j))
        }
    }
}

proof fn lemma_tok_push(pre: Seq<Token>, t: Token, rest: Seq<TokenModel>)
    ensures
        token_views(pre) + (seq![t@] + rest) =~= token_views(pre.push(t)) + rest,
{
    assert(token_views(pre.push(t)) =~= token_views(pre).push(t@));
}

proof fn lemma_warn_push(pre: Seq<Warning>, w: Warning, rest: Seq<Warning>)
    ensures
        pre + (seq![w] + rest) =~= pre.push(w) + rest,
{
}

/// Splits a whole input into its token stream and warnings.
pub fn tokenize(s: &Vec<u8>) -> (r: (Vec<Token>, Vec<Warning>))
    ensures
        token_views(r.0@) == scan_tokens(s@, 0).toks,
        r.1@ == scan_tokens(s@, 0).warns,
{
    let n = s.len();
    let mut toks: Vec<Token> = Vec::new();
    let mut warns: Vec<Warning> = Vec::new();
    let mut p: usize = 0;
    proof {
        assert(token_views(toks@) + scan_tokens(s@, 0).toks =~= scan_tokens(s@, 0).toks);
        assert(warns@ + scan_tokens(s@, 0).warns =~= scan_tokens(s@, 0).warns);
    }
    while p < n
        invariant
            p <= n,
            n == s@.len(),
            scan_tokens(s@, 0).toks == token_views(toks@) + scan_tokens(s@, p as int).toks,
            scan_tokens(s@, 0).warns == warns@ + scan_tokens(s@, p as int).warns,
        decreases n - p,
    {
        let ghost p0 = p as int;
        if s[p] == B_LT {
            if p + 1 < n && s[p + 1] == B_SLASH {
                let j = scan_byte(s, p + 2, B_GT);
                if j >= n {
                    let w = Warning::MalformedToken { offset: p };
                    proof {
                        assert(scan_tokens(s@, p0) == one_warn(w));
                        assert(scan_tokens(s@, n as int) == scan_done());
                        assert(seq![w] =~= seq![w] + scan_tokens(s@, n as int).warns);
                        lemma_warn_push(warns@, w, scan_tokens(s@, n as int).warns);
                        assert(token_views(toks@) + scan_tokens(s@, p0).toks =~= token_views(
                            toks@,
                        ) + scan_tokens(s@, n as int).toks);
                    }
                    warns.push(w);
                    p = n;
                } else {
                    let ne = scan_name(s, p + 2);
                    let name = copy_range(s, p + 2, ne);
                    let tok = Token::Close { name };
                    let ghost tm = TokenModel::Close {
                        name: s@.subrange(p0 + 2, ne as int),
                    };
                    proof {
                        assert(tok@ =~= tm);
                        assert(step_to(s@, p0, j + 1 as int) == j + 1);
                        assert(scan_tokens(s@, p0) == with_tok(tm, scan_tokens(s@, j + 1)));
                        lemma_tok_push(toks@, tok, scan_tokens(s@, j + 1).toks);
                    }
                    toks.push(tok);
                    p = j + 1;
                }
            } else if n - p > 3 && s[p + 1] == B_BANG && s[p + 2] == B_DASH && s[p + 3] == B_DASH {
                let j = scan_triple(s, p + 4, B_DASH, B_DASH, B_GT);
                if j >= n {
                    let w = Warning::MalformedToken { offset: p };
                    proof {
                        assert(scan_tokens(s@, p0) == one_warn(w));
                        assert(seq![w] =~= seq![w] + scan_tokens(s@, n as int).warns);
                        lemma_warn_push(warns@, w, scan_tokens(s@, n as int).warns);
                        assert(token_views(toks@) + scan_tokens(s@, p0).toks =~= token_views(
                            toks@,
                        ) + scan_tokens(s@, n as int).toks);
                    }
                    warns.push(w);
                    p = n;
                } else {
                    proof {
                        assert(step_to(s@, p0, j + 3 as int) == j + 3);
                        assert(scan_tokens(s@, p0) == scan_tokens(s@, j + 3));
                    }
                    p = j + 3;
                }
            } else if n - p > 8 && s[p + 1] == B_BANG && s[p + 2] == B_LBRACK && s[p + 3] == 67
                && s[p + 4] == 68 && s[p + 5] == 65 && s[p + 6] == 84 && s[p + 7] == 65 && s[p + 8]
                == B_LBRACK {
                let j = scan_triple(s, p + 9, B_RBRACK, B_RBRACK, B_GT);
                if j >= n {
                    let w = Warning::MalformedToken { offset: p };
                    proof {
                        assert(scan_tokens(s@, p0) == one_warn(w));
                        assert(seq![w] =~= seq![w] + scan_tokens(s@, n as int).warns);
                        lemma_warn_push(warns@, w, scan_tokens(s@, n as int).warns);
                        assert(token_views(toks@) + scan_tokens(s@, p0).toks =~= token_views(
                            toks@,
                        ) + scan_tokens(s@, n as int).toks);
                    }
                    warns.push(w);
                    p = n;
                } else {
                    proof {
                        assert(step_to(s@, p0, j + 3 as int) == j + 3);
                        assert(scan_tokens(s@, p0) == scan_tokens(s@, j + 3));
                    }
                    p = j + 3;
                }
            } else if p + 1 < n && s[p + 1] == B_BANG {
                let j = scan_byte(s, p + 2, B_GT);
                if j >= n {
                    let w = Warning::MalformedToken { offset: p };
                    proof {
                        assert(scan_tokens(s@, p0) == one_warn(w));
                        assert(seq![w] =~= seq![w] + scan_tokens(s@, n as int).warns);
                        lemma_warn_push(warns@, w, scan_tokens(s@, n as int).warns);
                        assert(token_views(toks@) + scan_tokens(s@, p0).toks =~= token_views(
                            toks@,
                        ) + scan_tokens(s@, n as int).toks);
                    }
                    warns.push(w);
                    p = n;
                } else {
                    proof {
                        assert(step_to(s@, p0, j + 1 as int) == j + 1);
                        assert(scan_tokens(s@, p0) == scan_tokens(s@, j + 1));
                    }
                    p = j + 1;
                }
            } else if p + 1 < n && s[p + 1] == B_QM {
                let j = scan_pair(s, p + 2, B_QM, B_GT);
                if j >= n {
                    let w = Warning::MalformedToken { offset: p };
                    proof {
                        assert(scan_tokens(s@, p0) == one_warn(w));
                        assert(seq![w] =~= seq![w] + scan_tokens(s@, n as int).warns);
                        lemma_warn_push(warns@, w, scan_tokens(s@, n as int).warns);
                        assert(token_views(toks@) + scan_tokens(s@, p0).toks =~= token_views(
                            toks@,
                        ) + scan_tokens(s@, n as int).toks);
                    }
                    warns.push(w);
                    p = n;
                } else {
                    proof {
                        assert(step_to(s@, p0, j + 2 as int) == j + 2);
                        assert(scan_tokens(s@, p0) == scan_tokens(s@, j + 2));
                    }
                    p = j + 2;
                }
            } else if p + 1 < n && name_byte_test(s[p + 1]) {
                let ne = scan_name(s, p + 1);
                match read_attrs(s, ne) {
                    Some((attrs, end, closed)) => {
                        let name = copy_range(s, p + 1, ne);
                        let ghost nm = s@.subrange(p0 + 1, ne as int);
                        let ghost am = attrs_view(attrs@);
                        let tok = if closed {
                            Token::SelfClosed { name, attrs }
                        } else {
                            Token::Open { name, attrs }
                        };
                        let np = if end <= p {
                            p + 1
                        } else if end > n {
                            n
                        } else {
                            end
                        };
                        let ghost tm = if closed {
                            TokenModel::SelfClosed { name: nm, attrs: am }
                        } else {
                            TokenModel::Open { name: nm, attrs: am }
                        };
                        proof {
                            assert(tok@ =~= tm);
                            assert(np as int == step_to(s@, p0, end as int));
                            assert(scan_tokens(s@, p0) == with_tok(
                                tm,
                                scan_tokens(s@, np as int),
                            ));
                            lemma_tok_push(toks@, tok, scan_tokens(s@, np as int).toks);
                        }
                        toks.push(tok);
                        p = np;
                    },
                    None => {
                        let w = Warning::MalformedToken { offset: p };
                        let j = scan_byte(s, p + 1, B_LT);
                        proof {
                            assert(step_to(s@, p0, find_byte(s@, p0 + 1, B_LT)) == j);
                            assert(scan_tokens(s@, p0) == with_warn(w, scan_tokens(s@, j as int)));
                            lemma_warn_push(warns@, w, scan_tokens(s@, j as int).warns);
                        }
                        warns.push(w);
                        p = j;
                    },
                }
            } else {
                let w = Warning::MalformedToken { offset: p };
                let j = scan_byte(s, p + 1, B_LT);
                proof {
                    assert(step_to(s@, p0, find_byte(s@, p0 + 1, B_LT)) == j);
                    assert(scan_tokens(s@, p0) == with_warn(w, scan_tokens(s@, j as int)));
                    lemma_warn_push(warns@, w, scan_tokens(s@, j as int).warns);
                }
                warns.push(w);
                p = j;
            }
        } else {
            let j = scan_byte(s, p, B_LT);
            let a = scan_spaces(s, p);
            proof {
                if a > j {
                    assert(is_space(s@[j as int]));
                }
                assert(a <= j);
                assert(j != p) by {
                    assert(find_byte(s@, p0, B_LT) == p0 ==> s@[p0] == B_LT);
                }
                assert(step_to(s@, p0, j as int) == j);
            }
            let b = scan_spaces_back(s, j, a);
            if a < b {
                let content = unescape_range(s, a, b);
                if content.len() > 0 {
                    let tok = Token::Text { content };
                    let ghost tm = TokenModel::Text {
                        content: unescape(s@.subrange(a as int, b as int)),
                    };
                    proof {
                        assert(tok@ =~= tm);
                        assert(scan_tokens(s@, p0) == with_tok(tm, scan_tokens(s@, j as int)));
                        lemma_tok_push(toks@, tok, scan_tokens(s@, j as int).toks);
                    }
                    toks.push(tok);
                } else {
                    proof {
                        assert(scan_tokens(s@, p0) == scan_tokens(s@, j as int));
                    }
                }
            } else {
                proof {
                    assert(scan_tokens(s@, p0) == scan_tokens(s@, j as int));
                }
            }
            p = j;
        }
    }
    proof {
        assert(scan_tokens(s@, n as int) == scan_done());
        assert(token_views(toks@) + scan_tokens(s@, n as int).toks =~= token_views(toks@));
        assert(warns@ + scan_tokens(s@, n as int).warns =~= warns@);
    }
    (toks, warns)
}

} // verus!
