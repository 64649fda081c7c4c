//! The schema extractor: a cursor-based scanner over a record-type
//! declaration's token sequence that recovers the visibility, the type
//! name, the generic-parameter span, and the ordered field list.
//!
//! The token model is the library's own: a kind, its text, and a nested
//! group span, independent of any particular host grammar.
use vstd::prelude::*;
use vstd::string::*;

verus! {

/// The bracket kind of a token group.
#[derive(Debug, Clone, Copy, PartialEq, Eq, Structural)]
pub enum Delim {
    Paren,
    Bracket,
    Brace,
}

/// One token of a declaration: a word, a single punctuation character, a
/// literal, or a bracketed group of nested tokens.
#[derive(Debug)]
pub enum Token {
    Ident(String),
    Punct(char),
    Literal(String),
    Group(Delim, Vec<Token>),
}

/// The mathematical shape of one token: its kind and text, with a group's
/// members as a sequence.
pub enum TokView {
    Ident(Seq<char>),
    Punct(char),
    Literal(Seq<char>),
    Group(Delim, Seq<TokView>),
}

/// The view of one token.
pub open spec fn token_view(t: Token) -> TokView
    decreases t,
{
    match t {
        Token::Ident(s) => TokView::Ident(s@),
        Token::Punct(c) => TokView::Punct(c),
        Token::Literal(s) => TokView::Literal(s@),
        Token::Group(d, v) => TokView::Group(d, tokens_view(v@)),
    }
}

/// The views of a token span.
pub open spec fn tokens_view(v: Seq<Token>) -> Seq<TokView>
    decreases v,
{
    if v.len() == 0 {
        Seq::<TokView>::empty()
    } else {
        seq![token_view(v[0])] + tokens_view(v.subrange(1, v.len() as int))
    }
}

impl View for Token {
    type V = TokView;

    open spec fn view(&self) -> TokView {
        token_view(*self)
    }
}

/// A span's views, member by member.
pub proof fn lemma_tokens_view(v: Seq<Token>)
    ensures
        tokens_view(v).len() == v.len(),
        forall|i: int| 0 <= i < v.len() ==> #[trigger] tokens_view(v)[i] == token_view(v[i]),
    decreases v,
{
    if v.len() > 0 {
        let tl = v.subrange(1, v.len() as int);
        lemma_tokens_view(tl);
        assert forall|i: int| 0 <= i < v.len() implies #[trigger] tokens_view(v)[i] == token_view(
            v[i],
        ) by {
            if i > 0 {
                assert(tokens_view(v)[i] == tokens_view(tl)[i - 1]);
                assert(tl[i - 1] == v[i]);
            }
        }
    }
}

/// The opening character of a group.
pub open spec fn delim_open(d: Delim) -> char {
    match d {
        Delim::Paren => '(',
        Delim::Bracket => '[',
        Delim::Brace => '{',
    }
}

/// The closing character of a group.
pub open spec fn delim_close(d: Delim) -> char {
    match d {
        Delim::Paren => ')',
        Delim::Bracket => ']',
        Delim::Brace => '}',
    }
}

/// The text one token renders as; a group renders its brackets around the
/// texts of its members.
pub open spec fn token_text(t: TokView) -> Seq<char>
    decreases t,
{
    match t {
        TokView::Ident(s) => s,
        TokView::Punct(c) => seq![c],
        TokView::Literal(s) => s,
        TokView::Group(d, vs) => seq![delim_open(d)] + tokens_text(vs) + seq![delim_close(d)],
    }
}

/// The concatenated texts of a token span.
pub open spec fn tokens_text(vs: Seq<TokView>) -> Seq<char>
    decreases vs,
{
    if vs.len() == 0 {
        Seq::<char>::empty()
    } else {
        token_text(vs[0]) + tokens_text(vs.subrange(1, vs.len() as int))
    }
}

/// Splitting the last token off a span splits its text.
pub proof fn lemma_tokens_text_snoc(vs: Seq<TokView>)
    requires
        vs.len() > 0,
    ensures
        tokens_text(vs) == tokens_text(vs.drop_last()) + token_text(vs.last()),
    decreases vs,
{
    if vs.len() == 1 {
        assert(vs.drop_last() =~= Seq::<TokView>::empty());
        assert(vs.subrange(1, vs.len() as int) =~= Seq::<TokView>::empty());
        assert(tokens_text(vs) =~= tokens_text(vs.drop_last()) + token_text(vs.last()));
    } else {
        let tl = vs.subrange(1, vs.len() as int);
        lemma_tokens_text_snoc(tl);
        assert(tl.drop_last() =~= vs.drop_last().subrange(1, vs.drop_last().len() as int));
        assert(tl.last() == vs.last());
        assert(vs.drop_last()[0] == vs[0]);
        assert(tokens_text(vs) =~= tokens_text(vs.drop_last()) + token_text(vs.last()));
    }
}

impl Clone for Token {
    /// A token clones to one with the same view.
    fn clone(&self) -> (r: Self)
        ensures
            r@ == self@,
        decreases *self,
    {
        match self {
            Token::Ident(s) => Token::Ident(s.clone()),
            Token::Punct(c) => Token::Punct(*c),
            Token::Literal(s) => Token::Literal(s.clone()),
            Token::Group(d, v) => {
                let mut nv: Vec<Token> = Vec::new();
                let n = v.len();
                let mut i: usize = 0;
                while i < n
                    invariant
                        0 <= i <= n,
                        n == v@.len(),
                        nv@.len() == i,
                        forall|k: int| 0 <= k < i ==> (#[trigger] nv@[k])@ == v@[k]@,
                        *self matches Token::Group(_, gv) && gv == *v,
                    decreases n - i,
                {
                    nv.push(v[i].clone());
                    i += 1;
                }
                proof {
                    lemma_tokens_view(nv@);
                    lemma_tokens_view(v@);
                    assert(tokens_view(nv@) =~= tokens_view(v@));
                }
                Token::Group(*d, nv)
            },
        }
    }
}

/// Clones a token span, keeping every member's view.
pub fn clone_tokens(v: &Vec<Token>) -> (r: Vec<Token>)
    ensures
        tokens_view(r@) == tokens_view(v@),
        r@.len() == v@.len(),
{
    let mut nv: Vec<Token> = Vec::new();
    let n = v.len();
    let mut i: usize = 0;
    while i < n
        invariant
            0 <= i <= n,
            n == v@.len(),
            nv@.len() == i,
            forall|k: int| 0 <= k < i ==> (#[trigger] nv@[k])@ == v@[k]@,
        decreases n - i,
    {
        nv.push(v[i].clone());
        i += 1;
    }
    proof {
        lemma_tokens_view(nv@);
        lemma_tokens_view(v@);
        assert(tokens_view(nv@) =~= tokens_view(v@));
    }
    nv
}

/// Renders one token as text.
pub fn token_to_text(t: &Token) -> (r: String)
    ensures
        r@ == token_text(t@),
    decreases *t,
{
    match t {
        Token::Ident(s) => s.clone(),
        Token::Punct(c) => {
            let mut out = String::new();
            crate::numtext::push_char(&mut out, *c);
            proof {
                assert(out@ =~= seq![*c]);
            }
            out
        },
        Token::Literal(s) => s.clone(),
        Token::Group(d, v) => {
            let mut out = String::new();
            let open: char = match d {
                Delim::Paren => '(',
                Delim::Bracket => '[',
                Delim::Brace => '{',
            };
            let close: char = match d {
                Delim::Paren => ')',
                Delim::Bracket => ']',
                Delim::Brace => '}',
            };
            crate::numtext::push_char(&mut out, open);
            let n = v.len();
            let mut i: usize = 0;
            proof {
                lemma_tokens_view(v@);
                assert(tokens_view(v@).subrange(0, 0) =~= Seq::<TokView>::empty());
                assert(out@ =~= seq![delim_open(*d)] + tokens_text(tokens_view(v@).subrange(0, 0)));
            }
            while i < n
                invariant
                    0 <= i <= n,
                    n == v@.len(),
                    tokens_view(v@).len() == n,
                    forall|k: int|
                        0 <= k < n ==> #[trigger] tokens_view(v@)[k] == token_view(v@[k]),
                    out@ == seq![delim_open(*d)] + tokens_text(tokens_view(v@).subrange(0, i as int)),
                    *t matches Token::Group(gd, gv) && gd == *d && gv == *v,
                decreases n - i,
            {
                let piece = token_to_text(&v[i]);
                out.append(piece.as_str());
                proof {
                    let tv = tokens_view(v@);
                    assert(tv.subrange(0, i + 1).drop_last() =~= tv.subrange(0, i as int));
                    assert(tv.subrange(0, i + 1).last() == tv[i as int]);
                    lemma_tokens_text_snoc(tv.subrange(0, i + 1));
                    assert(out@ =~= seq![delim_open(*d)] + tokens_text(tv.subrange(0, i + 1)));
                }
                i += 1;
            }
            crate::numtext::push_char(&mut out, close);
            proof {
                let tv = tokens_view(v@);
                assert(tv.subrange(0, n as int) =~= tv);
                assert(t@ == TokView::Group(*d, tv));
                assert(out@ =~= token_text(t@));
            }
            out
        },
    }
}

/// Renders a token span as its concatenated text.
pub fn tokens_to_text(v: &Vec<Token>) -> (r: String)
    ensures
        r@ == tokens_text(tokens_view(v@)),
{
    let mut out = String::new();
    let n = v.len();
    let mut i: usize = 0;
    proof {
        lemma_tokens_view(v@);
        assert(tokens_view(v@).subrange(0, 0) =~= Seq::<TokView>::empty());
    }
    while i < n
        invariant
            0 <= i <= n,
            n == v@.len(),
            tokens_view(v@).len() == n,
            forall|k: int| 0 <= k < n ==> #[trigger] tokens_view(v@)[k] == token_view(v@[k]),
            out@ == tokens_text(tokens_view(v@).subrange(0, i as int)),
        decreases n - i,
    {
        let piece = token_to_text(&v[i]);
        out.append(piece.as_str());
        proof {
            let tv = tokens_view(v@);
            assert(tv.subrange(0, i + 1).drop_last() =~= tv.subrange(0, i as int));
            assert(tv.subrange(0, i + 1).last() == tv[i as int]);
            lemma_tokens_text_snoc(tv.subrange(0, i + 1));
        }
        i += 1;
    }
    proof {
        assert(tokens_view(v@).subrange(0, n as int) =~= tokens_view(v@));
    }
    out
}

/// Appending one token appends its view.
pub proof fn lemma_tokens_view_push(v: Seq<Token>, t: Token)
    ensures
        tokens_view(v.push(t)) == tokens_view(v).push(token_view(t)),
{
    lemma_tokens_view(v.push(t));
    lemma_tokens_view(v);
    assert(tokens_view(v.push(t)) =~= tokens_view(v).push(token_view(t)));
}

/// A subrange of a span views as the subrange of its views.
pub proof fn lemma_tokens_view_subrange(v: Seq<Token>, a: int, b: int)
    requires
        0 <= a <= b <= v.len(),
    ensures
        tokens_view(v.subrange(a, b)) == tokens_view(v).subrange(a, b),
{
    lemma_tokens_view(v.subrange(a, b));
    lemma_tokens_view(v);
    assert forall|k: int| 0 <= k < b - a implies tokens_view(v.subrange(a, b))[k] == tokens_view(
        v,
    ).subrange(a, b)[k] by {
        assert(v.subrange(a, b)[k] == v[a + k]);
    }
    assert(tokens_view(v.subrange(a, b)) =~= tokens_view(v).subrange(a, b));
}

/// The visibility of a declaration: fully public, restricted to the crate
/// or the parent module, or private by default.
#[derive(Debug, Clone, Copy, PartialEq, Eq, Structural)]
pub enum Visibility {
    Pub,
    PubCrate,
    PubSuper,
    Private,
}

/// The source text each visibility renders as.
pub open spec fn vis_text(v: Visibility) -> Seq<char> {
    match v {
        Visibility::Pub => "pub"@,
        Visibility::PubCrate => "pub(crate)"@,
        Visibility::PubSuper => "pub(super)"@,
        Visibility::Private => ""@,
    }
}

impl Visibility {
    /// Renders the visibility as its source keyword, empty for private.
    pub fn to_str(&self) -> (r: &str)
        ensures
            r@ == vis_text(*self),
    {
        match self {
            Visibility::Pub => "pub",
            Visibility::PubCrate => "pub(crate)",
            Visibility::PubSuper => "pub(super)",
            Visibility::Private => "",
        }
    }
}

/// What the scanner has recovered at any point: the visibility, the type
/// name, the generic-parameter span, and the field spans.
pub struct ScanState {
    pub visibility: Visibility,
    pub name: Option<Seq<char>>,
    pub generics: Option<Seq<TokView>>,
    pub fields: Option<Seq<Seq<TokView>>>,
}

/// The scanner's starting state: private, with nothing found.
pub open spec fn scan_init() -> ScanState {
    ScanState { visibility: Visibility::Private, name: None, generics: None, fields: None }
}

/// Splits a group's members into field spans on commas at angle-bracket
/// depth zero, dropping empty spans. Commas inside nested generic
/// arguments do not separate fields.
pub open spec fn split_fields_rec(
    g: Seq<TokView>,
    i: int,
    depth: int,
    cur: Seq<TokView>,
    acc: Seq<Seq<TokView>>,
) -> Seq<Seq<TokView>>
    decreases g.len() - i,
{
    if i < 0 || i >= g.len() {
        if cur.len() > 0 {
            acc.push(cur)
        } else {
            acc
        }
    } else {
        match g[i] {
            TokView::Punct(c) => {
                if c == ',' && depth == 0 {
                    split_fields_rec(
                        g,
                        i + 1,
                        0,
                        Seq::<TokView>::empty(),
                        if cur.len() > 0 {
                            acc.push(cur)
                        } else {
                            acc
                        },
                    )
                } else if c == '<' {
                    split_fields_rec(g, i + 1, depth + 1, cur.push(g[i]), acc)
                } else if c == '>' {
                    split_fields_rec(
                        g,
                        i + 1,
                        if depth > 0 {
                            depth - 1
                        } else {
                            0
                        },
                        cur.push(g[i]),
                        acc,
                    )
                } else {
                    split_fields_rec(g, i + 1, depth, cur.push(g[i]), acc)
                }
            },
            _ => split_fields_rec(g, i + 1, depth, cur.push(g[i]), acc),
        }
    }
}

/// The field spans of a group's members.
pub open spec fn split_fields(g: Seq<TokView>) -> Seq<Seq<TokView>> {
    split_fields_rec(g, 0, 0, Seq::<TokView>::empty(), Seq::<Seq<TokView>>::empty())
}

/// Transfers the nonempty-span fact across one splitter step.
proof fn lemma_sfr_step(
    g: Seq<TokView>,
    i: int,
    depth: int,
    cur: Seq<TokView>,
    acc: Seq<Seq<TokView>>,
    d2: int,
    c2: Seq<TokView>,
    a2: Seq<Seq<TokView>>,
)
    requires
        split_fields_rec(g, i, depth, cur, acc) == split_fields_rec(g, i + 1, d2, c2, a2),
        forall|q: int|
            0 <= q < split_fields_rec(g, i + 1, d2, c2, a2).len() ==> (#[trigger] split_fields_rec(
                g,
                i + 1,
                d2,
                c2,
                a2,
            )[q]).len() >= 1,
    ensures
        forall|q: int|
            0 <= q < split_fields_rec(g, i, depth, cur, acc).len() ==> (#[trigger] split_fields_rec(
                g,
                i,
                depth,
                cur,
                acc,
            )[q]).len() >= 1,
{
    assert forall|q: int|
        0 <= q < split_fields_rec(g, i, depth, cur, acc).len() implies (#[trigger] split_fields_rec(
        g,
        i,
        depth,
        cur,
        acc,
    )[q]).len() >= 1 by {
        assert(split_fields_rec(g, i, depth, cur, acc)[q] == split_fields_rec(
            g,
            i + 1,
            d2,
            c2,
            a2,
        )[q]);
    }
}

/// The field splitter keeps no empty spans.
proof fn lemma_split_fields_rec_nonempty(
    g: Seq<TokView>,
    i: int,
    depth: int,
    cur: Seq<TokView>,
    acc: Seq<Seq<TokView>>,
)
    requires
        forall|q: int| 0 <= q < acc.len() ==> (#[trigger] acc[q]).len() >= 1,
    ensures
        forall|q: int|
            0 <= q < split_fields_rec(g, i, depth, cur, acc).len() ==> (#[trigger] split_fields_rec(
                g,
                i,
                depth,
                cur,
                acc,
            )[q]).len() >= 1,
    decreases g.len() - i,
{
    if !(0 <= i < g.len()) {
        let res = split_fields_rec(g, i, depth, cur, acc);
        assert forall|q: int| 0 <= q < res.len() implies (#[trigger] res[q]).len() >= 1 by {
            if q < acc.len() {
                assert(res[q] == acc[q]);
            } else {
                assert(res[q] == cur);
            }
        }
    } else {
        match g[i] {
            TokView::Punct(c) => {
                if c == ',' && depth == 0 {
                    let acc2 = if cur.len() > 0 {
                        acc.push(cur)
                    } else {
                        acc
                    };
                    assert forall|q: int| 0 <= q < acc2.len() implies (#[trigger] acc2[q]).len()
                        >= 1 by {
                        if q < acc.len() {
                            assert(acc2[q] == acc[q]);
                        }
                    }
                    lemma_split_fields_rec_nonempty(g, i + 1, 0, Seq::<TokView>::empty(), acc2);
                    lemma_sfr_step(g, i, depth, cur, acc, 0, Seq::<TokView>::empty(), acc2);
                } else if c == '<' {
                    lemma_split_fields_rec_nonempty(g, i + 1, depth + 1, cur.push(g[i]), acc);
                    lemma_sfr_step(g, i, depth, cur, acc, depth + 1, cur.push(g[i]), acc);
                } else if c == '>' {
                    let d2 = if depth > 0 {
                        depth - 1
                    } else {
                        0
                    };
                    lemma_split_fields_rec_nonempty(g, i + 1, d2, cur.push(g[i]), acc);
                    lemma_sfr_step(g, i, depth, cur, acc, d2, cur.push(g[i]), acc);
                } else {
                    lemma_split_fields_rec_nonempty(g, i + 1, depth, cur.push(g[i]), acc);
                    lemma_sfr_step(g, i, depth, cur, acc, depth, cur.push(g[i]), acc);
                }
            },
            _ => {
                lemma_split_fields_rec_nonempty(g, i + 1, depth, cur.push(g[i]), acc);
                lemma_sfr_step(g, i, depth, cur, acc, depth, cur.push(g[i]), acc);
            },
        }
    }
}

/// Every field span the splitter yields holds at least one token.
pub proof fn lemma_split_fields_nonempty(g: Seq<TokView>)
    ensures
        forall|q: int|
            0 <= q < split_fields(g).len() ==> (#[trigger] split_fields(g)[q]).len() >= 1,
{
    lemma_split_fields_rec_nonempty(
        g,
        0,
        0,
        Seq::<TokView>::empty(),
        Seq::<Seq<TokView>>::empty(),
    );
}

/// The scanner only ever records field spans the splitter yields, so its
/// field spans hold at least one token each.
pub proof fn lemma_scan_fields_nonempty(ts: Seq<TokView>, i: int, st: ScanState)
    requires
        st.fields matches Some(fs) ==> forall|q: int|
            0 <= q < fs.len() ==> (#[trigger] fs[q]).len() >= 1,
    ensures
        scan(ts, i, st).fields matches Some(fs) ==> forall|q: int|
            0 <= q < fs.len() ==> (#[trigger] fs[q]).len() >= 1,
    decreases ts.len() - i,
{
    if 0 <= i < ts.len() {
        match ts[i] {
            TokView::Group(d, members) => {
                lemma_split_fields_nonempty(members);
                lemma_scan_fields_nonempty(
                    ts,
                    i + 1,
                    ScanState { fields: Some(split_fields(members)), ..st },
                );
            },
            TokView::Ident(s) => {
                if s == "pub"@ {
                    let st2 = if i + 1 < ts.len() {
                        match ts[i + 1] {
                            TokView::Group(d2, g2) => if d2 == Delim::Paren {
                                ScanState { visibility: vis_scan(g2, 0, st.visibility), ..st }
                            } else {
                                st
                            },
                            _ => ScanState { visibility: Visibility::Pub, ..st },
                        }
                    } else {
                        ScanState { visibility: Visibility::Pub, ..st }
                    };
                    lemma_scan_fields_nonempty(ts, i + 1, st2);
                } else if s == "struct"@ || s == "enum"@ {
                    if i + 1 < ts.len() {
                        match ts[i + 1] {
                            TokView::Ident(nm) => {
                                lemma_scan_fields_nonempty(
                                    ts,
                                    i + 2,
                                    ScanState { name: Some(nm), ..st },
                                );
                            },
                            _ => {
                                lemma_scan_fields_nonempty(ts, i + 1, st);
                            },
                        }
                    } else {
                        lemma_scan_fields_nonempty(ts, i + 1, st);
                    }
                } else {
                    lemma_scan_fields_nonempty(ts, i + 1, st);
                }
            },
            TokView::Punct(c) => {
                if c == '<' {
                    match find_close(ts, i + 1, 0) {
                        Some(m) => {
                            let m2 = if i + 1 <= m && m <= ts.len() {
                                m
                            } else {
                                i + 1
                            };
                            let nxt = if m2 + 1 <= ts.len() {
                                m2 + 1
                            } else {
                                ts.len() as int
                            };
                            lemma_scan_fields_nonempty(
                                ts,
                                nxt,
                                ScanState { generics: Some(ts.subrange(i + 1, m2)), ..st },
                            );
                        },
                        None => {
                            lemma_scan_fields_nonempty(ts, i + 1, st);
                        },
                    }
                } else {
                    lemma_scan_fields_nonempty(ts, i + 1, st);
                }
            },
            TokView::Literal(_) => {
                lemma_scan_fields_nonempty(ts, i + 1, st);
            },
        }
    }
}

/// Reads a parenthesized visibility restriction: the last `crate` or
/// `super` word wins, anything else leaves the visibility as it stands.
pub open spec fn vis_scan(g: Seq<TokView>, i: int, vis: Visibility) -> Visibility
    decreases g.len() - i,
{
    if i < 0 || i >= g.len() {
        vis
    } else {
        match g[i] {
            TokView::Ident(s) => {
                let v2 = if s == "crate"@ {
                    Visibility::PubCrate
                } else if s == "super"@ {
                    Visibility::PubSuper
                } else {
                    vis
                };
                vis_scan(g, i + 1, v2)
            },
            _ => vis_scan(g, i + 1, vis),
        }
    }
}

/// The position of the closing angle bracket matching depth zero at `i`,
/// nesting-aware.
pub open spec fn find_close(ts: Seq<TokView>, i: int, depth: int) -> Option<int>
    decreases ts.len() - i,
{
    if i < 0 || i >= ts.len() {
        None
    } else {
        match ts[i] {
            TokView::Punct(c) => {
                if c == '>' {
                    if depth == 0 {
                        Some(i)
                    } else {
                        find_close(ts, i + 1, depth - 1)
                    }
                } else if c == '<' {
                    find_close(ts, i + 1, depth + 1)
                } else {
                    find_close(ts, i + 1, depth)
                }
            },
            _ => find_close(ts, i + 1, depth),
        }
    }
}

/// A found closing bracket lies between the start and the end of the span.
pub proof fn lemma_find_close_range(ts: Seq<TokView>, i: int, depth: int)
    ensures
        find_close(ts, i, depth) matches Some(m) ==> i <= m < ts.len(),
    decreases ts.len() - i,
{
    if 0 <= i < ts.len() {
        lemma_find_close_range(ts, i + 1, depth);
        lemma_find_close_range(ts, i + 1, depth + 1);
        lemma_find_close_range(ts, i + 1, depth - 1);
    }
}

/// One forward pass of the scanner over the token sequence: a group
/// replaces the field spans; `pub` reads an optional parenthesized
/// restriction; `struct` or `enum` takes the following word as the type
/// name; an opening angle bracket takes the span to its nesting-aware
/// match as the generics, consumed in one step.
pub open spec fn scan(ts: Seq<TokView>, i: int, st: ScanState) -> ScanState
    decreases ts.len() - i,
{
    if i < 0 || i >= ts.len() {
        st
    } else {
        match ts[i] {
            TokView::Group(d, members) => scan(
                ts,
                i + 1,
                ScanState { fields: Some(split_fields(members)), ..st },
            ),
            TokView::Ident(s) => {
                if s == "pub"@ {
                    let st2 = if i + 1 < ts.len() {
                        match ts[i + 1] {
                            TokView::Group(d2, g2) => if d2 == Delim::Paren {
                                ScanState { visibility: vis_scan(g2, 0, st.visibility), ..st }
                            } else {
                                st
                            },
                            _ => ScanState { visibility: Visibility::Pub, ..st },
                        }
                    } else {
                        ScanState { visibility: Visibility::Pub, ..st }
                    };
                    scan(ts, i + 1, st2)
                } else if s == "struct"@ || s == "enum"@ {
                    if i + 1 < ts.len() {
                        match ts[i + 1] {
                            TokView::Ident(nm) => scan(ts, i + 2, ScanState { name: Some(nm), ..st }),
                            _ => scan(ts, i + 1, st),
                        }
                    } else {
                        scan(ts, i + 1, st)
                    }
                } else {
                    scan(ts, i + 1, st)
                }
            },
            TokView::Punct(c) => {
                if c == '<' {
                    match find_close(ts, i + 1, 0) {
                        Some(m) => {
                            let m2 = if i + 1 <= m && m <= ts.len() {
                                m
                            } else {
                                i + 1
                            };
                            let nxt = if m2 + 1 <= ts.len() {
                                m2 + 1
                            } else {
                                ts.len() as int
                            };
                            scan(ts, nxt, ScanState { generics: Some(ts.subrange(i + 1, m2)), ..st })
                        },
                        None => scan(ts, i + 1, st),
                    }
                } else {
                    scan(ts, i + 1, st)
                }
            },
            TokView::Literal(_) => scan(ts, i + 1, st),
        }
    }
}

/// What one whole pass of the scanner recovers from a declaration.
pub open spec fn scan_decl(ts: Seq<TokView>) -> ScanState {
    scan(ts, 0, scan_init())
}

/// The views of a list of token spans.
pub open spec fn spans_view(d: Seq<Vec<Token>>) -> Seq<Seq<TokView>> {
    d.map_values(|v: Vec<Token>| tokens_view(v@))
}

/// Splits a group's members into field spans, as the scanner's field rule
/// directs.
fn split_fields_exec(g: &Vec<Token>) -> (r: Vec<Vec<Token>>)
    ensures
        spans_view(r@) == split_fields(tokens_view(g@)),
{
    let ghost gv = tokens_view(g@);
    proof {
        lemma_tokens_view(g@);
    }
    let n = g.len();
    let mut acc: Vec<Vec<Token>> = Vec::new();
    let mut cur: Vec<Token> = Vec::new();
    let mut depth: usize = 0;
    let mut i: usize = 0;
    proof {
        assert(tokens_view(cur@) =~= Seq::<TokView>::empty());
        assert(spans_view(acc@) =~= Seq::<Seq<TokView>>::empty());
    }
    while i < n
        invariant
            0 <= i <= n,
            n == g@.len(),
            gv == tokens_view(g@),
            gv.len() == n,
            forall|k: int| 0 <= k < n ==> #[trigger] gv[k] == token_view(g@[k]),
            depth <= i,
            split_fields_rec(gv, i as int, depth as int, tokens_view(cur@), spans_view(acc@))
                == split_fields(gv),
        decreases n - i,
    {
        let ghost pre_cur = tokens_view(cur@);
        let ghost pre_acc = spans_view(acc@);
        match &g[i] {
            Token::Punct(c) => {
                let cc = *c;
                if cc == ',' && depth == 0 {
                    if cur.len() > 0 {
                        acc.push(cur);
                        cur = Vec::new();
                        proof {
                            assert(spans_view(acc@) =~= pre_acc.push(pre_cur));
                        }
                    }
                    proof {
                        assert(tokens_view(cur@) =~= Seq::<TokView>::empty());
                    }
                } else {
                    if cc == '<' {
                        depth = depth + 1;
                    } else if cc == '>' && depth > 0 {
                        depth = depth - 1;
                    }
                    let ghost pre_tok = cur@;
                    let t = g[i].clone();
                    cur.push(t);
                    proof {
                        lemma_tokens_view_push(pre_tok, t);
                        assert(tokens_view(cur@) == pre_cur.push(gv[i as int]));
                    }
                }
            },
            _ => {
                let ghost pre_tok = cur@;
                let t = g[i].clone();
                cur.push(t);
                proof {
                    lemma_tokens_view_push(pre_tok, t);
                    assert(tokens_view(cur@) == pre_cur.push(gv[i as int]));
                }
            },
        }
        i += 1;
    }
    if cur.len() > 0 {
        let ghost pre_acc = spans_view(acc@);
        let ghost pre_cur = tokens_view(cur@);
        acc.push(cur);
        proof {
            assert(spans_view(acc@) =~= pre_acc.push(pre_cur));
        }
    }
    acc
}

/// Reads a parenthesized visibility restriction.
fn vis_scan_exec(g: &Vec<Token>, base: Visibility) -> (r: Visibility)
    ensures
        r == vis_scan(tokens_view(g@), 0, base),
{
    let ghost gv = tokens_view(g@);
    proof {
        lemma_tokens_view(g@);
    }
    let n = g.len();
    let mut vis = base;
    let mut i: usize = 0;
    while i < n
        invariant
            0 <= i <= n,
            n == g@.len(),
            gv == tokens_view(g@),
            gv.len() == n,
            forall|k: int| 0 <= k < n ==> #[trigger] gv[k] == token_view(g@[k]),
            vis_scan(gv, i as int, vis) == vis_scan(gv, 0, base),
        decreases n - i,
    {
        match &g[i] {
            Token::Ident(s) => {
                if crate::numtext::str_eq(s.as_str(), "crate") {
                    vis = Visibility::PubCrate;
                } else if crate::numtext::str_eq(s.as_str(), "super") {
                    vis = Visibility::PubSuper;
                }
            },
            _ => {},
        }
        i += 1;
    }
    vis
}

/// Finds the nesting-aware closing angle bracket from `from` on.
fn find_close_exec(ts: &Vec<Token>, from: usize) -> (r: Option<usize>)
    requires
        from <= ts@.len(),
    ensures
        match r {
            Some(m) => find_close(tokens_view(ts@), from as int, 0) == Some(m as int) && from <= m
                < ts@.len(),
            None => find_close(tokens_view(ts@), from as int, 0) is None,
        },
{
    let ghost tsv = tokens_view(ts@);
    proof {
        lemma_tokens_view(ts@);
    }
    let n = ts.len();
    let mut depth: usize = 0;
    let mut i: usize = from;
    while i < n
        invariant
            from <= i <= n,
            n == ts@.len(),
            tsv == tokens_view(ts@),
            tsv.len() == n,
            forall|k: int| 0 <= k < n ==> #[trigger] tsv[k] == token_view(ts@[k]),
            find_close(tsv, i as int, depth as int) == find_close(tsv, from as int, 0),
            depth <= i,
        decreases n - i,
    {
        match &ts[i] {
            Token::Punct(c) => {
                if *c == '>' {
                    if depth == 0 {
                        return Some(i);
                    }
                    depth = depth - 1;
                } else if *c == '<' {
                    depth = depth + 1;
                }
            },
            _ => {},
        }
        i += 1;
    }
    None
}

/// A failure of the schema extractor.
#[derive(Debug, PartialEq, Eq, Structural)]
pub enum ParseError {
    /// No type name follows any `struct` or `enum` keyword.
    IdentNotFound,
    /// The declaration text's brackets do not balance.
    UnbalancedGroup,
}

/// The text each extractor failure renders as.
pub open spec fn parse_error_text(e: ParseError) -> Seq<char> {
    match e {
        ParseError::IdentNotFound => "type name not found"@,
        ParseError::UnbalancedGroup => "brackets do not balance"@,
    }
}

impl ParseError {
    /// Renders the failure as a human-readable line.
    pub fn message(&self) -> (r: String)
        ensures
            r@ == parse_error_text(*self),
    {
        match self {
            ParseError::IdentNotFound => String::from_str("type name not found"),
            ParseError::UnbalancedGroup => String::from_str("brackets do not balance"),
        }
    }
}

/// What the schema extractor recovers from one declaration: its
/// visibility, its type name, its generic-parameter span, and its field
/// spans, each span holding the field's tokens.
#[derive(Debug)]
pub struct ParsedTokenStream {
    pub visibility: Visibility,
    pub name: String,
    pub generics: Option<Vec<Token>>,
    pub data: Option<Vec<Vec<Token>>>,
}

/// The scanner state a parse's working values stand for.
pub open spec fn st_of(
    vis: Visibility,
    name: Option<String>,
    generics: Option<Vec<Token>>,
    data: Option<Vec<Vec<Token>>>,
) -> ScanState {
    ScanState {
        visibility: vis,
        name: match name {
            None => None,
            Some(s) => Some(s@),
        },
        generics: match generics {
            None => None,
            Some(v) => Some(tokens_view(v@)),
        },
        fields: match data {
            None => None,
            Some(d) => Some(spans_view(d@)),
        },
    }
}

/// The declared type text of one field span: every token from the third
/// on, skipping the field name and the separator after it; a span too
/// short to hold a type reads as empty text.
pub open spec fn field_type_text(span: Seq<TokView>) -> Seq<char> {
    if span.len() >= 2 {
        tokens_text(span.subrange(2, span.len() as int))
    } else {
        Seq::<char>::empty()
    }
}

impl ParsedTokenStream {
    /// The declared type name.
    pub fn name(&self) -> (r: String)
        ensures
            r@ == self.name@,
    {
        self.name.clone()
    }

    /// The generic-parameter span as text, when one was found.
    pub fn generics(&self) -> (r: Option<String>)
        ensures
            match self.generics {
                None => r is None,
                Some(g) => r matches Some(s) && s@ == tokens_text(tokens_view(g@)),
            },
    {
        match &self.generics {
            None => None,
            Some(g) => Some(tokens_to_text(g)),
        }
    }

    /// The generic-parameter words, all of them or nothing: any token of
    /// the span that is no plain word leaves nothing.
    pub fn lifetime(&self) -> (r: Option<Vec<String>>)
        ensures
            match self.generics {
                None => r is None,
                Some(g) => {
                    let gv = tokens_view(g@);
                    if forall|k: int| 0 <= k < gv.len() ==> (#[trigger] gv[k]) matches TokView::Ident(_) {
                        r matches Some(v) && v@.len() == gv.len() && forall|k: int|
                            0 <= k < gv.len() ==> (#[trigger] v@[k])@ == gv[k]->Ident_0
                    } else {
                        r is None
                    }
                },
            },
    {
        match &self.generics {
            None => None,
            Some(g) => {
                let ghost gv = tokens_view(g@);
                proof {
                    lemma_tokens_view(g@);
                }
                let n = g.len();
                let mut out: Vec<String> = Vec::new();
                let mut i: usize = 0;
                while i < n
                    invariant
                        0 <= i <= n,
                        n == g@.len(),
                        self.generics matches Some(gg) && gg == *g,
                        gv == tokens_view(g@),
                        gv.len() == n,
                        forall|k: int| 0 <= k < n ==> #[trigger] gv[k] == token_view(g@[k]),
                        out@.len() == i,
                        forall|k: int|
                            0 <= k < i ==> (#[trigger] gv[k]) matches TokView::Ident(_),
                        forall|k: int| 0 <= k < i ==> (#[trigger] out@[k])@ == gv[k]->Ident_0,
                    decreases n - i,
                {
                    match &g[i] {
                        Token::Ident(s) => {
                            out.push(s.clone());
                        },
                        _ => {
                            proof {
                                assert(!(gv[i as int] matches TokView::Ident(_)));
                            }
                            return None;
                        },
                    }
                    i += 1;
                }
                Some(out)
            },
        }
    }

    /// The field names: the text of each field span's first token.
    pub fn fnames(&self) -> (r: Option<Vec<String>>)
        requires
            self.data matches Some(d) ==> forall|k: int|
                0 <= k < d@.len() ==> (#[trigger] d@[k])@.len() >= 1,
        ensures
            match self.data {
                None => r is None,
                Some(d) => r matches Some(v) && v@.len() == d@.len() && forall|k: int|
                    0 <= k < d@.len() ==> (#[trigger] v@[k])@ == token_text(
                        tokens_view(d@[k]@)[0],
                    ),
            },
    {
        match &self.data {
            None => None,
            Some(d) => {
                let n = d.len();
                let mut out: Vec<String> = Vec::new();
                let mut i: usize = 0;
                while i < n
                    invariant
                        0 <= i <= n,
                        n == d@.len(),
                        self.data matches Some(dd) && dd == *d,
                        forall|k: int| 0 <= k < n ==> (#[trigger] d@[k])@.len() >= 1,
                        out@.len() == i,
                        forall|k: int|
                            0 <= k < i ==> (#[trigger] out@[k])@ == token_text(
                                tokens_view(d@[k]@)[0],
                            ),
                    decreases n - i,
                {
                    let span = &d[i];
                    proof {
                        lemma_tokens_view(span@);
                    }
                    let piece = token_to_text(&span[0]);
                    out.push(piece);
                    i += 1;
                }
                Some(out)
            },
        }
    }

    /// The declared field types: each span's tokens from the third on,
    /// concatenated as text.
    pub fn ftypes(&self) -> (r: Option<Vec<String>>)
        ensures
            match self.data {
                None => r is None,
                Some(d) => r matches Some(v) && v@.len() == d@.len() && forall|k: int|
                    0 <= k < d@.len() ==> (#[trigger] v@[k])@ == field_type_text(
                        tokens_view(d@[k]@),
                    ),
            },
    {
        match &self.data {
            None => None,
            Some(d) => {
                let n = d.len();
                let mut out: Vec<String> = Vec::new();
                let mut i: usize = 0;
                while i < n
                    invariant
                        0 <= i <= n,
                        n == d@.len(),
                        self.data matches Some(dd) && dd == *d,
                        out@.len() == i,
                        forall|k: int|
                            0 <= k < i ==> (#[trigger] out@[k])@ == field_type_text(
                                tokens_view(d@[k]@),
                            ),
                    decreases n - i,
                {
                    let span = &d[i];
                    proof {
                        lemma_tokens_view(span@);
                    }
                    let piece: String;
                    if span.len() >= 2 {
                        let sub = clone_range(span, 2, span.len());
                        piece = tokens_to_text(&sub);
                        proof {
                            lemma_tokens_view_subrange(span@, 2, span@.len() as int);
                        }
                    } else {
                        piece = String::new();
                    }
                    out.push(piece);
                    i += 1;
                }
                Some(out)
            },
        }
    }
}

/// A forward cursor over a declaration's token sequence.
pub struct Cursor {
    pub buffer: Vec<Token>,
    pub offset: usize,
}

impl Cursor {
    /// A cursor at the start of the token sequence.
    pub fn new(ts: Vec<Token>) -> (r: Self)
        ensures
            r.buffer@ == ts@,
            r.offset == 0,
    {
        Cursor { buffer: ts, offset: 0 }
    }

    /// Scans the token sequence once, forward only, and returns what the
    /// scanner recovered; a declaration without a type name is refused.
    pub fn parse(&mut self) -> (r: Result<ParsedTokenStream, ParseError>)
        ensures
            final(self).buffer@ == old(self).buffer@,
            ({
                let fin = scan(
                    tokens_view(old(self).buffer@),
                    old(self).offset as int,
                    scan_init(),
                );
                match fin.name {
                    None => r matches Err(e) && e == ParseError::IdentNotFound,
                    Some(nm) => r matches Ok(p) && {
                        &&& p.visibility == fin.visibility
                        &&& p.name@ == nm
                        &&& match fin.generics {
                            None => p.generics is None,
                            Some(gs) => p.generics matches Some(gv) && tokens_view(gv@) == gs,
                        }
                        &&& match fin.fields {
                            None => p.data is None,
                            Some(fs) => p.data matches Some(dv) && spans_view(dv@) == fs,
                        }
                        &&& p.data matches Some(dv) ==> forall|k: int|
                            0 <= k < dv@.len() ==> (#[trigger] dv@[k])@.len() >= 1
                    },
                }
            }),
    {
        let ghost tsv = tokens_view(old(self).buffer@);
        proof {
            lemma_tokens_view(old(self).buffer@);
        }
        let mut vis = Visibility::Private;
        let mut name: Option<String> = None;
        let mut generics: Option<Vec<Token>> = None;
        let mut data: Option<Vec<Vec<Token>>> = None;
        let n = self.buffer.len();
        if self.offset > n {
            self.offset = n;
        }
        while self.offset < n
            invariant
                self.buffer@ == old(self).buffer@,
                n == self.buffer@.len(),
                tsv == tokens_view(self.buffer@),
                tsv.len() == n,
                forall|k: int| 0 <= k < n ==> #[trigger] tsv[k] == token_view(self.buffer@[k]),
                self.offset <= n,
                scan(tsv, self.offset as int, st_of(vis, name, generics, data)) == scan(
                    tsv,
                    old(self).offset as int,
                    scan_init(),
                ),
            decreases n - self.offset,
        {
            let i = self.offset;
            let ghost st_pre = st_of(vis, name, generics, data);
            match &self.buffer[i] {
                Token::Group(_d, v) => {
                    let fs = split_fields_exec(v);
                    data = Some(fs);
                    self.offset = i + 1;
                    proof {
                        assert(st_of(vis, name, generics, data) == ScanState {
                            fields: Some(split_fields(tokens_view(v@))),
                            ..st_pre
                        });
                    }
                },
                Token::Ident(s) => {
                    if crate::numtext::str_eq(s.as_str(), "pub") {
                        if i + 1 < n {
                            match &self.buffer[i + 1] {
                                Token::Group(d2, g2) => {
                                    if *d2 == Delim::Paren {
                                        vis = vis_scan_exec(g2, vis);
                                    }
                                },
                                _ => {
                                    vis = Visibility::Pub;
                                },
                            }
                        } else {
                            vis = Visibility::Pub;
                        }
                        self.offset = i + 1;
                    } else if crate::numtext::str_eq(s.as_str(), "struct") || crate::numtext::str_eq(
                        s.as_str(),
                        "enum",
                    ) {
                        if i + 1 < n {
                            match &self.buffer[i + 1] {
                                Token::Ident(nm) => {
                                    name = Some(nm.clone());
                                    self.offset = i + 2;
                                },
                                _ => {
                                    self.offset = i + 1;
                                },
                            }
                        } else {
                            self.offset = i + 1;
                        }
                    } else {
                        self.offset = i + 1;
                    }
                },
                Token::Punct(c) => {
                    if *c == '<' {
                        match find_close_exec(&self.buffer, i + 1) {
                            Some(m) => {
                                generics = Some(clone_range(&self.buffer, i + 1, m));
                                self.offset = m + 1;
                            },
                            None => {
                                self.offset = i + 1;
                            },
                        }
                    } else {
                        self.offset = i + 1;
                    }
                },
                Token::Literal(_) => {
                    self.offset = i + 1;
                },
            }
        }
        proof {
            assert(scan(tsv, self.offset as int, st_of(vis, name, generics, data)) == st_of(
                vis,
                name,
                generics,
                data,
            ));
            lemma_scan_fields_nonempty(tsv, old(self).offset as int, scan_init());
            let fin = scan(tsv, old(self).offset as int, scan_init());
            assert(fin == st_of(vis, name, generics, data));
            match &data {
                Some(dv) => {
                    assert(fin.fields == Some(spans_view(dv@)));
                    assert forall|k: int| 0 <= k < dv@.len() implies (#[trigger] dv@[k])@.len()
                        >= 1 by {
                        assert((fin.fields->0)[k].len() >= 1);
                        assert(spans_view(dv@)[k] == tokens_view(dv@[k]@));
                        lemma_tokens_view(dv@[k]@);
                    }
                },
                None => {},
            }
        }
        match name {
            None => Err(ParseError::IdentNotFound),
            Some(nm) => Ok(
                ParsedTokenStream { visibility: vis, name: nm, generics, data },
            ),
        }
    }
}

/// Clones the token span between two positions.
fn clone_range(v: &Vec<Token>, a: usize, b: usize) -> (r: Vec<Token>)
    requires
        a <= b <= v@.len(),
    ensures
        tokens_view(r@) == tokens_view(v@).subrange(a as int, b as int),
{
    let mut nv: Vec<Token> = Vec::new();
    let mut i: usize = a;
    proof {
        lemma_tokens_view(v@);
    }
    while i < b
        invariant
            a <= i <= b <= v@.len(),
            nv@.len() == i - a,
            forall|k: int| 0 <= k < i - a ==> (#[trigger] nv@[k])@ == v@[a + k]@,
        decreases b - i,
    {
        nv.push(v[i].clone());
        i += 1;
    }
    proof {
        lemma_tokens_view(nv@);
        lemma_tokens_view(v@);
        assert forall|k: int| 0 <= k < b - a implies tokens_view(nv@)[k] == tokens_view(
            v@,
        ).subrange(a as int, b as int)[k] by {
            assert(tokens_view(nv@)[k] == token_view(nv@[k]));
        }
        assert(tokens_view(nv@) =~= tokens_view(v@).subrange(a as int, b as int));
    }
    nv
}

} // verus!
