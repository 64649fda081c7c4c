//! Reading a declaration's text into the token model, so that the schema
//! extractor can be driven from plain text without any build pipeline.
//! Whitespace separates tokens and carries no content; brackets nest.
use crate::numtext::is_dec_digit;
use crate::schema::{
    delim_close, delim_open, scan_decl, token_text, tokens_text, tokens_view, Cursor, Delim,
    ParseError, ParsedTokenStream, TokView, Token,
};
use vstd::prelude::*;
use vstd::string::*;

verus! {

/// The characters that separate tokens.
pub open spec fn is_ws(c: char) -> bool {
    c == ' ' || c == '\t' || c == '\n' || c == '\r'
}

/// The characters that may start a word.
pub open spec fn is_word_start(c: char) -> bool {
    (97 <= c as u32 <= 122) || (65 <= c as u32 <= 90) || c == '_'
}

/// The characters that may continue a word.
pub open spec fn is_word_continue(c: char) -> bool {
    is_word_start(c) || is_dec_digit(c)
}

/// The characters that may continue a number literal.
pub open spec fn is_lit_continue(c: char) -> bool {
    is_word_continue(c) || c == '.'
}

/// The text with its whitespace removed.
pub open spec fn strip_ws(s: Seq<char>) -> Seq<char>
    decreases s.len(),
{
    if s.len() == 0 {
        Seq::<char>::empty()
    } else if is_ws(s.last()) {
        strip_ws(s.drop_last())
    } else {
        strip_ws(s.drop_last()).push(s.last())
    }
}

/// Whether the brackets of `s` from `i` on balance, with `stack` the
/// closing brackets still owed, innermost last.
pub open spec fn nest_ok(s: Seq<char>, i: int, stack: Seq<char>) -> bool
    decreases s.len() - i,
{
    if i < 0 || i >= s.len() {
        stack.len() == 0
    } else {
        let c = s[i];
        if c == '(' {
            nest_ok(s, i + 1, stack.push(')'))
        } else if c == '[' {
            nest_ok(s, i + 1, stack.push(']'))
        } else if c == '{' {
            nest_ok(s, i + 1, stack.push('}'))
        } else if c == ')' || c == ']' || c == '}' {
            stack.len() > 0 && stack.last() == c && nest_ok(s, i + 1, stack.drop_last())
        } else {
            nest_ok(s, i + 1, stack)
        }
    }
}

/// The closing brackets a group stack still owes, innermost last.
pub open spec fn closes_of(stack: Seq<(Delim, Vec<Token>)>) -> Seq<char> {
    Seq::new(stack.len(), |i: int| delim_close(stack[i].0))
}

/// The text of the open groups: each level's finished tokens and its
/// opening bracket, outermost first.
pub open spec fn stack_prefix_text(stack: Seq<(Delim, Vec<Token>)>) -> Seq<char>
    decreases stack.len(),
{
    if stack.len() == 0 {
        Seq::<char>::empty()
    } else {
        stack_prefix_text(stack.drop_last()) + tokens_text(tokens_view(stack.last().1@)) + seq![
            delim_open(stack.last().0),
        ]
    }
}

/// A well-formed token: a word starts with a word-start character and
/// holds word characters; a literal starts with a digit and holds literal
/// characters; a punctuation character is nothing a word, a literal, a
/// bracket, or whitespace would claim; a group holds well-formed members.
pub open spec fn wf_token(t: TokView) -> bool
    decreases t,
{
    match t {
        TokView::Ident(s) => s.len() > 0 && is_word_start(s[0]) && (forall|k: int|
            0 <= k < s.len() ==> is_word_continue(#[trigger] s[k])),
        TokView::Literal(s) => s.len() > 0 && is_dec_digit(s[0]) && (forall|k: int|
            0 <= k < s.len() ==> is_lit_continue(#[trigger] s[k])),
        TokView::Punct(c) => !is_ws(c) && !is_word_start(c) && !is_dec_digit(c) && !(c == '(' || c
            == '[' || c == '{' || c == ')' || c == ']' || c == '}'),
        TokView::Group(d, vs) => forall|k: int| 0 <= k < vs.len() ==> wf_token(#[trigger] vs[k]),
    }
}

/// A span of well-formed tokens.
pub open spec fn wf_tokens(vs: Seq<TokView>) -> bool {
    forall|k: int| 0 <= k < vs.len() ==> wf_token(#[trigger] vs[k])
}

/// The end of the maximal run of continue-characters from `j` on: the
/// first position holding none, or the end of the text.
pub open spec fn munch_end(s: Seq<char>, j: int, word: bool) -> int
    decreases s.len() - j,
{
    if j < 0 || j >= s.len() {
        s.len() as int
    } else if (word && is_word_continue(s[j])) || (!word && is_lit_continue(s[j])) {
        munch_end(s, j + 1, word)
    } else {
        j
    }
}

/// The open groups as the lexer holds them: each level's bracket kind and
/// its finished member views, outermost first.
pub open spec fn lex_stack_view(stack: Seq<(Delim, Vec<Token>)>) -> Seq<(Delim, Seq<TokView>)> {
    stack.map_values(|e: (Delim, Vec<Token>)| (e.0, tokens_view(e.1@)))
}

/// The lexer, one position at a time: whitespace is dropped; a word-start
/// or digit character takes the longest word or literal from there; an
/// opening bracket opens a group; a closing bracket closes the innermost
/// open group when it matches and refuses the text otherwise; every other
/// character is one punctuation token. A text that leaves a group open is
/// refused at the end.
pub open spec fn lex_rec(
    s: Seq<char>,
    i: int,
    stack: Seq<(Delim, Seq<TokView>)>,
    cur: Seq<TokView>,
) -> Option<Seq<TokView>>
    decreases s.len() - i,
{
    if i < 0 || i >= s.len() {
        if stack.len() == 0 {
            Some(cur)
        } else {
            None
        }
    } else {
        let c = s[i];
        if is_ws(c) {
            lex_rec(s, i + 1, stack, cur)
        } else if is_word_start(c) || is_dec_digit(c) {
            let word = is_word_start(c);
            let j = munch_end(s, i + 1, word);
            let j2 = if i + 1 <= j && j <= s.len() {
                j
            } else {
                i + 1
            };
            let tok = if word {
                TokView::Ident(s.subrange(i, j2))
            } else {
                TokView::Literal(s.subrange(i, j2))
            };
            lex_rec(s, j2, stack, cur.push(tok))
        } else if c == '(' {
            lex_rec(s, i + 1, stack.push((Delim::Paren, cur)), Seq::<TokView>::empty())
        } else if c == '[' {
            lex_rec(s, i + 1, stack.push((Delim::Bracket, cur)), Seq::<TokView>::empty())
        } else if c == '{' {
            lex_rec(s, i + 1, stack.push((Delim::Brace, cur)), Seq::<TokView>::empty())
        } else if c == ')' || c == ']' || c == '}' {
            if stack.len() > 0 && delim_close(stack.last().0) == c {
                lex_rec(
                    s,
                    i + 1,
                    stack.drop_last(),
                    stack.last().1.push(TokView::Group(stack.last().0, cur)),
                )
            } else {
                None
            }
        } else {
            lex_rec(s, i + 1, stack, cur.push(TokView::Punct(c)))
        }
    }
}

/// What the lexer reads from a whole text, when its brackets balance.
pub open spec fn lex(s: Seq<char>) -> Option<Seq<TokView>> {
    lex_rec(s, 0, Seq::<(Delim, Seq<TokView>)>::empty(), Seq::<TokView>::empty())
}

/// Decides whether one character separates tokens.
fn ws_exec(c: char) -> (r: bool)
    ensures
        r == is_ws(c),
{
    c == ' ' || c == '\t' || c == '\n' || c == '\r'
}

/// Decides whether one character may start a word.
fn word_start_exec(c: char) -> (r: bool)
    ensures
        r == is_word_start(c),
{
    let u = c as u32;
    (97 <= u && u <= 122) || (65 <= u && u <= 90) || c == '_'
}

/// Decides whether one character may continue a word.
fn word_continue_exec(c: char) -> (r: bool)
    ensures
        r == is_word_continue(c),
{
    let u = c as u32;
    word_start_exec(c) || (48 <= u && u <= 57)
}

/// Decides whether one character may continue a number literal.
fn lit_continue_exec(c: char) -> (r: bool)
    ensures
        r == is_lit_continue(c),
{
    word_continue_exec(c) || c == '.'
}

/// Reads a declaration's text into its token sequence: words, number
/// literals, nested bracket groups, and single punctuation characters,
/// with whitespace dropped. The result is exactly what the `lex` spec
/// reads, so the read succeeds precisely when the brackets balance, and
/// the tokens then spell the text back, whitespace removed, each token
/// well-formed.
#[verifier::rlimit(60)]
pub fn tokenize(s: &str) -> (r: Result<Vec<Token>, ParseError>)
    ensures
        r is Ok <==> lex(s@) is Some,
        r matches Ok(ts) ==> lex(s@) == Some(tokens_view(ts@)),
        r is Ok <==> nest_ok(s@, 0, Seq::<char>::empty()),
        r matches Ok(ts) ==> tokens_text(tokens_view(ts@)) == strip_ws(s@) && wf_tokens(
            tokens_view(ts@),
        ),
        r matches Err(e) ==> e == ParseError::UnbalancedGroup,
{
    let n = s.unicode_len();
    let mut stack: Vec<(Delim, Vec<Token>)> = Vec::new();
    let mut cur: Vec<Token> = Vec::new();
    let mut i: usize = 0;
    proof {
        assert(strip_ws(s@.subrange(0, 0)) =~= Seq::<char>::empty());
        assert(closes_of(stack@) =~= Seq::<char>::empty());
        assert(lex_stack_view(stack@) =~= Seq::<(Delim, Seq<TokView>)>::empty());
        assert(tokens_view(cur@) =~= Seq::<TokView>::empty());
        assert(strip_ws(s@.subrange(0, 0)) == stack_prefix_text(stack@) + tokens_text(
            tokens_view(cur@),
        ));
    }
    while i < n
        invariant
            0 <= i <= n,
            n == s@.len(),
            lex_rec(s@, i as int, lex_stack_view(stack@), tokens_view(cur@)) == lex(s@),
            nest_ok(s@, i as int, closes_of(stack@)) == nest_ok(s@, 0, Seq::<char>::empty()),
            strip_ws(s@.subrange(0, i as int)) == stack_prefix_text(stack@) + tokens_text(
                tokens_view(cur@),
            ),
            wf_tokens(tokens_view(cur@)),
            forall|q: int|
                0 <= q < stack@.len() ==> wf_tokens(tokens_view((#[trigger] stack@[q]).1@)),
        decreases n - i,
    {
        let c = s.get_char(i);
        proof {
            assert(s@.subrange(0, i + 1).drop_last() =~= s@.subrange(0, i as int));
            assert(s@.subrange(0, i + 1).last() == s@[i as int]);
        }
        if ws_exec(c) {
            proof {
                assert(!(c == '(' || c == '[' || c == '{' || c == ')' || c == ']' || c == '}'));
            }
            i += 1;
        } else if word_start_exec(c) || (48 <= c as u32 && c as u32 <= 57) {
            let is_word = word_start_exec(c);
            let mut j = i + 1;
            let mut done = false;
            while j < n && !done
                invariant
                    i < j <= n,
                    n == s@.len(),
                    is_word == is_word_start(s@[i as int]),
                    is_word || is_dec_digit(s@[i as int]),
                    munch_end(s@, j as int, is_word) == munch_end(s@, i + 1, is_word),
                    done ==> j < n && !((is_word && is_word_continue(s@[j as int])) || (!is_word
                        && is_lit_continue(s@[j as int]))),
                    forall|k: int|
                        i <= k < j ==> (if is_word {
                            is_word_continue(#[trigger] s@[k])
                        } else {
                            is_lit_continue(s@[k])
                        }),
                    forall|k: int|
                        i <= k < j ==> !is_ws(#[trigger] s@[k]) && !(s@[k] == '(' || s@[k] == '['
                            || s@[k] == '{' || s@[k] == ')' || s@[k] == ']' || s@[k] == '}'),
                decreases n - j + (if done { 0int } else { 1int }),
            {
                let ch = s.get_char(j);
                let cont = if is_word {
                    word_continue_exec(ch)
                } else {
                    lit_continue_exec(ch)
                };
                if cont {
                    proof {
                        assert(is_word_continue(s@[j as int]) || is_lit_continue(s@[j as int]));
                        assert(!is_ws(s@[j as int]));
                        assert(!(s@[j as int] == '(' || s@[j as int] == '[' || s@[j as int] == '{'
                            || s@[j as int] == ')' || s@[j as int] == ']' || s@[j as int] == '}'));
                    }
                    j += 1;
                } else {
                    done = true;
                }
            }
            let text = String::from_str(s.substring_char(i, j));
            let tok = if is_word {
                Token::Ident(text)
            } else {
                Token::Literal(text)
            };
            let ghost pre_cur = cur@;
            cur.push(tok);
            proof {
                // the word's characters pass through the strip unchanged
                lemma_strip_ws_extend(s@, i as int, j as int);
                crate::schema::lemma_tokens_view_push(pre_cur, cur@.last());
                lemma_tokens_text_push_view(pre_cur, cur@.last());
                assert(token_text(cur@.last()@) == s@.subrange(i as int, j as int));
                assert(s@.subrange(i as int, j as int)[0] == s@[i as int]);
                assert(wf_token(cur@.last()@));
                lemma_nest_ok_skip(s@, i as int, j as int, closes_of(stack@));
                // the scan stopped exactly where the lexer's munch does
                assert(j == munch_end(s@, i + 1, is_word));
                assert(cur@.last()@ == (if is_word {
                    TokView::Ident(s@.subrange(i as int, j as int))
                } else {
                    TokView::Literal(s@.subrange(i as int, j as int))
                }));
                assert(lex_rec(s@, i as int, lex_stack_view(stack@), tokens_view(pre_cur))
                    == lex_rec(s@, j as int, lex_stack_view(stack@), tokens_view(cur@)));
            }
            i = j;
        } else if c == '(' || c == '[' || c == '{' {
            let d = if c == '(' {
                Delim::Paren
            } else if c == '[' {
                Delim::Bracket
            } else {
                Delim::Brace
            };
            let ghost pre_stack = stack@;
            let ghost pre_cur = cur@;
            stack.push((d, cur));
            cur = Vec::new();
            proof {
                assert(stack@.drop_last() =~= pre_stack);
                assert(closes_of(stack@) =~= closes_of(pre_stack).push(delim_close(d)));
                assert(lex_stack_view(stack@) =~= lex_stack_view(pre_stack).push(
                    (d, tokens_view(pre_cur)),
                ));
                assert(tokens_view(cur@) =~= Seq::<TokView>::empty());
                assert(stack_prefix_text(stack@) + tokens_text(tokens_view(cur@)) =~= (
                stack_prefix_text(pre_stack) + tokens_text(tokens_view(pre_cur))).push(s@[i as int]));
            }
            i += 1;
        } else if c == ')' || c == ']' || c == '}' {
            if stack.len() == 0 {
                proof {
                    assert(closes_of(stack@).len() == 0);
                    assert(!nest_ok(s@, i as int, closes_of(stack@)));
                    assert(lex_stack_view(stack@).len() == 0);
                    assert(lex(s@) is None);
                }
                return Err(ParseError::UnbalancedGroup);
            }
            let ghost pre_stack = stack@;
            let ghost pre_cur = cur@;
            match stack.pop() {
                Some((d, parent)) => {
                    let expected = match d {
                        Delim::Paren => ')',
                        Delim::Bracket => ']',
                        Delim::Brace => '}',
                    };
                    if expected != c {
                        proof {
                            assert(closes_of(pre_stack).last() == delim_close(d));
                            assert(!nest_ok(s@, i as int, closes_of(pre_stack)));
                            assert(lex_stack_view(pre_stack).last() == (
                                d,
                                tokens_view(pre_stack.last().1@),
                            ));
                            assert(expected == delim_close(d));
                            assert(lex(s@) is None);
                        }
                        return Err(ParseError::UnbalancedGroup);
                    }
                    let group = Token::Group(d, cur);
                    cur = parent;
                    let ghost parent_view = cur@;
                    cur.push(group);
                    proof {
                        assert(pre_stack.drop_last() =~= stack@);
                        assert(closes_of(stack@) =~= closes_of(pre_stack).drop_last());
                        crate::schema::lemma_tokens_view_push(parent_view, cur@.last());
                        lemma_tokens_text_push_view(parent_view, cur@.last());
                        assert(token_text(cur@.last()@) == seq![delim_open(d)] + tokens_text(
                            tokens_view(pre_cur),
                        ) + seq![delim_close(d)]);
                        assert(pre_stack.last().1@ == parent_view);
                        assert(wf_token(cur@.last()@));
                        assert(expected == delim_close(d));
                        assert(lex_stack_view(pre_stack).last() == (d, tokens_view(parent_view)));
                        assert(lex_stack_view(stack@) =~= lex_stack_view(pre_stack).drop_last());
                        assert(tokens_view(cur@) =~= tokens_view(parent_view).push(
                            TokView::Group(d, tokens_view(pre_cur)),
                        ));
                        assert(stack_prefix_text(pre_stack) == stack_prefix_text(stack@)
                            + tokens_text(tokens_view(parent_view)) + seq![delim_open(d)]);
                        assert(stack_prefix_text(stack@) + tokens_text(tokens_view(cur@)) =~= (
                        stack_prefix_text(pre_stack) + tokens_text(tokens_view(pre_cur))).push(
                            s@[i as int],
                        ));
                    }
                    i += 1;
                },
                None => {
                    proof {
                        assert(false);
                    }
                    return Err(ParseError::UnbalancedGroup);
                },
            }
        } else {
            let ghost pre_cur = cur@;
            cur.push(Token::Punct(c));
            proof {
                crate::schema::lemma_tokens_view_push(pre_cur, cur@.last());
                lemma_tokens_text_push_view(pre_cur, cur@.last());
                assert(token_text(cur@.last()@) =~= seq![s@[i as int]]);
                assert(wf_token(cur@.last()@));
                assert(stack_prefix_text(stack@) + tokens_text(tokens_view(cur@)) =~= (
                stack_prefix_text(stack@) + tokens_text(tokens_view(pre_cur))).push(s@[i as int]));
            }
            i += 1;
        }
    }
    if stack.len() > 0 {
        proof {
            assert(closes_of(stack@).len() == stack@.len());
            assert(!nest_ok(s@, n as int, closes_of(stack@)));
            assert(lex_stack_view(stack@).len() == stack@.len());
            assert(lex(s@) is None);
        }
        return Err(ParseError::UnbalancedGroup);
    }
    proof {
        assert(closes_of(stack@).len() == 0);
        assert(nest_ok(s@, n as int, closes_of(stack@)));
        assert(lex_stack_view(stack@).len() == 0);
        assert(lex(s@) == Some(tokens_view(cur@)));
        assert(s@.subrange(0, n as int) =~= s@);
        assert(stack_prefix_text(stack@) =~= Seq::<char>::empty());
        assert(tokens_text(tokens_view(cur@)) =~= strip_ws(s@));
    }
    Ok(cur)
}

/// Characters that are neither whitespace nor brackets pass through the
/// strip and leave the nesting untouched.
proof fn lemma_strip_ws_extend(s: Seq<char>, i: int, j: int)
    requires
        0 <= i <= j <= s.len(),
        forall|k: int| i <= k < j ==> !is_ws(#[trigger] s[k]),
    ensures
        strip_ws(s.subrange(0, j)) == strip_ws(s.subrange(0, i)) + s.subrange(i, j),
    decreases j - i,
{
    if i == j {
        assert(s.subrange(i, j) =~= Seq::<char>::empty());
        assert(strip_ws(s.subrange(0, j)) =~= strip_ws(s.subrange(0, i)) + s.subrange(i, j));
    } else {
        lemma_strip_ws_extend(s, i, j - 1);
        assert(s.subrange(0, j).drop_last() =~= s.subrange(0, j - 1));
        assert(s.subrange(0, j).last() == s[j - 1]);
        assert(s.subrange(i, j) =~= s.subrange(i, j - 1).push(s[j - 1]));
        assert(strip_ws(s.subrange(0, j)) =~= strip_ws(s.subrange(0, i)) + s.subrange(i, j));
    }
}

/// A span of characters without brackets leaves the nesting untouched.
proof fn lemma_nest_ok_skip(s: Seq<char>, i: int, j: int, stack: Seq<char>)
    requires
        0 <= i <= j <= s.len(),
        forall|k: int|
            i <= k < j ==> !(#[trigger] s[k] == '(' || s[k] == '[' || s[k] == '{' || s[k] == ')'
                || s[k] == ']' || s[k] == '}'),
    ensures
        nest_ok(s, i, stack) == nest_ok(s, j, stack),
    decreases j - i,
{
    if i < j {
        lemma_nest_ok_skip(s, i + 1, j, stack);
    }
}

/// Appending one token appends its text.
proof fn lemma_tokens_text_push_view(v: Seq<Token>, t: Token)
    ensures
        tokens_text(tokens_view(v.push(t))) == tokens_text(tokens_view(v)) + token_text(t@),
{
    crate::schema::lemma_tokens_view_push(v, t);
    let tv = tokens_view(v).push(t@);
    crate::schema::lemma_tokens_text_snoc(tv);
    assert(tv.drop_last() =~= tokens_view(v));
    assert(tv.last() == t@);
}

/// Extracts a declaration's schema from its text: the text is read into
/// tokens by the lexer, then scanned once. Text whose brackets do not
/// balance, and a declaration without a type name, are refused; on every
/// balanced text the result is determined by what the scanner recovers
/// from the lexed tokens.
pub fn extract_schema(input: &str) -> (r: Result<ParsedTokenStream, ParseError>)
    ensures
        ({
            let lx = lex(input@);
            &&& (r is Ok <==> (lx matches Some(tv) && scan_decl(tv).name is Some))
            &&& ((r matches Err(e) && e == ParseError::UnbalancedGroup) <==> lx is None)
            &&& ((r matches Err(e) && e == ParseError::IdentNotFound) <==> (lx matches Some(tv)
                && scan_decl(tv).name is None))
            &&& (r matches Ok(p) ==> {
                let fin = scan_decl(lx->0);
                &&& fin.name matches Some(nm) && p.name@ == nm
                &&& p.visibility == fin.visibility
                &&& match fin.generics {
                    None => p.generics is None,
                    Some(gs) => p.generics matches Some(gv) && tokens_view(gv@) == gs,
                }
                &&& match fin.fields {
                    None => p.data is None,
                    Some(fs) => p.data matches Some(dv) && crate::schema::spans_view(dv@) == fs,
                }
                &&& (p.data matches Some(dv) ==> forall|k: int|
                    0 <= k < dv@.len() ==> (#[trigger] dv@[k])@.len() >= 1)
            })
        }),
{
    match tokenize(input) {
        Err(_e) => Err(ParseError::UnbalancedGroup),
        Ok(ts) => {
            let ghost gts = ts@;
            let mut cursor = Cursor::new(ts);
            let parsed = cursor.parse();
            proof {
                assert(lex(input@) == Some(tokens_view(gts)));
                assert(lex(input@)->0 == tokens_view(gts));
            }
            parsed
        },
    }
}

} // verus!
