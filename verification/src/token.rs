//! The token model and the serializer.
//!
//! A token is an identifier, a literal, a single punctuation character with
//! a "joint" spacing hint, or a delimited group of nested tokens. The
//! serializer flattens a token sequence into text, separating tokens by one
//! space unless the previous token asks for the next one to be joined.

use vstd::prelude::*;

verus! {

/// The variable-reference sigil: an occurrence of `*name` in template text
/// marks a substitution site for the variable `name`.
pub const SIGIL: u8 = 42;

/// The joint modifier: this punctuation character emits nothing and makes
/// the next token adjoin the previous output with no separating space.
pub const JOINT_MARKER: u8 = 126;

/// The space separator.
pub const SPACE: u8 = 32;

/// The opening parenthesis.
pub const LPAREN: u8 = 40;

/// The closing parenthesis.
pub const RPAREN: u8 = 41;

/// The opening brace.
pub const LBRACE: u8 = 123;

/// The closing brace.
pub const RBRACE: u8 = 125;

/// The opening bracket.
pub const LBRACKET: u8 = 91;

/// The closing bracket.
pub const RBRACKET: u8 = 93;

/// The kind of delimiter enclosing a group.
#[derive(Clone, Copy, Debug, PartialEq, Eq, Structural)]
pub enum Delim {
    /// Round parentheses.
    Paren,
    /// Curly braces.
    Brace,
    /// Square brackets.
    Bracket,
    /// Invisible grouping: no delimiter text is emitted.
    Bare,
}

/// One source token.
#[derive(Debug)]
pub enum Token {
    /// A name; the bytes are the identifier itself.
    Ident(Vec<u8>),
    /// A literal; the bytes are its verbatim source representation.
    Lit(Vec<u8>),
    /// One punctuation character; the flag mirrors the host lexer's hint
    /// that the next token follows with no intervening space.
    Punct(u8, bool),
    /// A delimited group of nested tokens.
    Group(Delim, Vec<Token>),
}

/// The text opening a group of the given kind.
pub open spec fn open_delim(d: Delim) -> Seq<u8> {
    match d {
        Delim::Paren => seq![LPAREN],
        Delim::Brace => seq![LBRACE],
        Delim::Bracket => seq![LBRACKET],
        Delim::Bare => seq![],
    }
}

/// The text closing a group of the given kind.
pub open spec fn close_delim(d: Delim) -> Seq<u8> {
    match d {
        Delim::Paren => seq![RPAREN],
        Delim::Brace => seq![RBRACE],
        Delim::Bracket => seq![RBRACKET],
        Delim::Bare => seq![],
    }
}

/// After this token is emitted, is the next token joined to it without a
/// space?
pub open spec fn join_after(t: Token) -> bool {
    match t {
        Token::Punct(c, joint) => joint || c == SIGIL || c == JOINT_MARKER,
        _ => false,
    }
}

/// The separator emitted before a token: nothing when joined, one space
/// otherwise.
pub open spec fn sep(join: bool) -> Seq<u8> {
    if join {
        seq![]
    } else {
        seq![SPACE]
    }
}

/// The text of one token. `join` tells whether the token adjoins the
/// previous output directly; the very first token of a stream is serialized
/// with `join` set, so no text ever starts with a separator.
pub open spec fn ser_token(t: Token, join: bool) -> Seq<u8>
    decreases t,
{
    match t {
        Token::Ident(x) => sep(join) + x@,
        Token::Lit(x) => sep(join) + x@,
        Token::Punct(c, _) => {
            if c == JOINT_MARKER {
                seq![]
            } else {
                sep(join) + seq![c]
            }
        },
        Token::Group(d, ch) => open_delim(d) + ser_tokens(ch@, join) + close_delim(d),
    }
}

/// The text of a token sequence, threading the join flag from one token to
/// the next.
pub open spec fn ser_tokens(ts: Seq<Token>, join: bool) -> Seq<u8>
    decreases ts,
{
    if ts.len() == 0 {
        seq![]
    } else {
        ser_token(ts[0], join) + ser_tokens(ts.subrange(1, ts.len() as int), join_after(ts[0]))
    }
}

/// The nesting depth of a token: a group stands strictly above each of its
/// children. This is the termination measure of the exec serializer.
pub open spec fn token_height(t: Token) -> nat
    decreases t,
{
    match t {
        Token::Group(_, ch) => 1 + tokens_height(ch@),
        _ => 0,
    }
}

/// The largest nesting depth among the tokens of a sequence.
pub open spec fn tokens_height(ts: Seq<Token>) -> nat
    decreases ts,
{
    if ts.len() == 0 {
        0
    } else {
        let h0 = token_height(ts[0]);
        let hr = tokens_height(ts.subrange(1, ts.len() as int));
        if h0 > hr {
            h0
        } else {
            hr
        }
    }
}

/// Every token of a sequence sits at or below the sequence's height.
pub proof fn lemma_tokens_height_bound(ts: Seq<Token>, k: int)
    requires
        0 <= k < ts.len(),
    ensures
        token_height(ts[k]) <= tokens_height(ts),
    decreases ts.len(),
{
    if k > 0 {
        lemma_tokens_height_bound(ts.subrange(1, ts.len() as int), k - 1);
        assert(ts.subrange(1, ts.len() as int)[k - 1] == ts[k]);
    }
}

/// The opening and closing delimiter characters of a group kind, or nothing
/// for invisible grouping.
pub fn get_delimiters(d: Delim) -> (r: Option<(u8, u8)>)
    ensures
        match r {
            Option::Some(p) => open_delim(d) == seq![p.0] && close_delim(d) == seq![p.1],
            Option::None => d is Bare,
        },
{
    match d {
        Delim::Paren => Some((LPAREN, RPAREN)),
        Delim::Brace => Some((LBRACE, RBRACE)),
        Delim::Bracket => Some((LBRACKET, RBRACKET)),
        Delim::Bare => None,
    }
}

/// Appends all of `x` to `out`.
pub fn push_bytes(out: &mut Vec<u8>, x: &Vec<u8>)
    ensures
        final(out)@ == old(out)@ + x@,
{
    let mut k: usize = 0;
    proof {
        assert(out@ =~= old(out)@ + x@.subrange(0, 0));
    }
    while k < x.len()
        invariant
            k <= x@.len(),
            out@ == old(out)@ + x@.subrange(0, k as int),
        decreases x@.len() - k,
    {
        out.push(x[k]);
        proof {
            assert(x@.subrange(0, k + 1) =~= x@.subrange(0, k as int).push(x@[k as int]));
            assert(old(out)@ + x@.subrange(0, k + 1) =~= (old(out)@ + x@.subrange(0, k as int)).push(
                x@[k as int],
            ));
        }
        k = k + 1;
    }
    proof {
        assert(x@.subrange(0, x@.len() as int) =~= x@);
    }
}

/// Serializes one token onto `out`, updating the join cursor for the token
/// that follows.
pub fn fold_tt(out: &mut Vec<u8>, t: &Token, join: &mut bool)
    ensures
        final(out)@ == old(out)@ + ser_token(*t, *old(join)),
        *final(join) == join_after(*t),
    decreases token_height(*t),
{
    match t {
        Token::Ident(x) => {
            if !*join {
                out.push(SPACE);
            }
            push_bytes(out, x);
            *join = false;
        },
        Token::Lit(x) => {
            if !*join {
                out.push(SPACE);
            }
            push_bytes(out, x);
            *join = false;
        },
        Token::Punct(c, joint) => {
            if *c != JOINT_MARKER {
                if !*join {
                    out.push(SPACE);
                }
                out.push(*c);
            }
            *join = *joint || *c == SIGIL || *c == JOINT_MARKER;
        },
        Token::Group(d, ch) => {
            let ghost join0 = *join;
            let delims = get_delimiters(*d);
            match delims {
                Option::Some(p) => out.push(p.0),
                Option::None => {},
            }
            let ghost mid0 = out@;
            proof {
                assert(mid0 =~= old(out)@ + open_delim(*d));
                assert(ch@.subrange(0, 0) =~= Seq::<Token>::empty());
                assert(mid0 + ser_tokens(ch@.subrange(0, 0), join0) =~= mid0);
            }
            let mut k: usize = 0;
            while k < ch.len()
                invariant
                    k <= ch@.len(),
                    token_height(*t) == 1 + tokens_height(ch@),
                    *join == seq_join_state(ch@.subrange(0, k as int), join0),
                    out@ == mid0 + ser_tokens(ch@.subrange(0, k as int), join0),
                    mid0 == old(out)@ + open_delim(*d),
                decreases ch@.len() - k,
            {
                let ghost jk = *join;
                proof {
                    lemma_tokens_height_bound(ch@, k as int);
                }
                fold_tt(out, &ch[k], join);
                proof {
                    let prefix1 = ch@.subrange(0, k + 1);
                    assert(prefix1.drop_last() =~= ch@.subrange(0, k as int));
                    assert(prefix1.last() == ch@[k as int]);
                    lemma_ser_tokens_snoc(prefix1, join0);
                    assert(out@ =~= mid0 + ser_tokens(prefix1, join0));
                }
                k = k + 1;
            }
            match delims {
                Option::Some(p) => out.push(p.1),
                Option::None => {},
            }
            proof {
                assert(ch@.subrange(0, ch@.len() as int) =~= ch@);
                assert(ch@.subrange(ch@.len() as int, ch@.len() as int) =~= Seq::<Token>::empty());
                assert(out@ =~= old(out)@ + ser_token(*t, join0));
            }
            *join = false;
        },
    }
}

/// Serializing a nonempty prefix is serializing all but its last token and
/// then that token, joined as the preceding token dictates.
pub proof fn lemma_ser_tokens_snoc(ts: Seq<Token>, join: bool)
    requires
        ts.len() >= 1,
    ensures
        ser_tokens(ts, join) == ser_tokens(ts.drop_last(), join) + ser_token(
            ts.last(),
            seq_join_state(ts.drop_last(), join),
        ),
    decreases ts.len(),
{
    if ts.len() == 1 {
        let tail = ts.subrange(1, ts.len() as int);
        assert(tail.len() == 0);
        assert(ser_tokens(tail, join_after(ts[0])) == Seq::<u8>::empty());
        assert(ts.drop_last() =~= Seq::<Token>::empty());
        assert(ser_tokens(ts.drop_last(), join) == Seq::<u8>::empty());
        assert(ser_tokens(ts, join) =~= ser_token(ts[0], join));
        assert(ser_tokens(ts.drop_last(), join) + ser_token(
            ts.last(),
            seq_join_state(ts.drop_last(), join),
        ) =~= ser_token(ts[0], join));
    } else {
        let tail = ts.subrange(1, ts.len() as int);
        lemma_ser_tokens_snoc(tail, join_after(ts[0]));
        assert(tail.drop_last() =~= ts.drop_last().subrange(1, ts.drop_last().len() as int));
        assert(tail.last() == ts.last());
        assert(ser_tokens(ts, join) =~~= ser_tokens(ts.drop_last(), join) + ser_token(
            ts.last(),
            seq_join_state(ts.drop_last(), join),
        ));
    }
}

/// The join cursor after serializing a whole sequence that started with the
/// given cursor.
pub open spec fn seq_join_state(ts: Seq<Token>, join: bool) -> bool {
    if ts.len() == 0 {
        join
    } else {
        join_after(ts.last())
    }
}

/// Serializes `tokens[start..end]` as a fresh stream: its first token is
/// emitted with no leading separator.
pub fn serialize_range(tokens: &Vec<Token>, start: usize, end: usize) -> (r: Vec<u8>)
    requires
        start <= end <= tokens@.len(),
    ensures
        r@ == ser_tokens(tokens@.subrange(start as int, end as int), true),
{
    let mut out: Vec<u8> = Vec::new();
    let mut join = true;
    let mut k: usize = start;
    proof {
        assert(tokens@.subrange(start as int, start as int) =~= Seq::<Token>::empty());
    }
    while k < end
        invariant
            start <= k <= end <= tokens@.len(),
            join == seq_join_state(tokens@.subrange(start as int, k as int), true),
            out@ == ser_tokens(tokens@.subrange(start as int, k as int), true),
        decreases end - k,
    {
        let ghost jk = join;
        fold_tt(&mut out, &tokens[k], &mut join);
        proof {
            let prefix1 = tokens@.subrange(start as int, k + 1);
            assert(prefix1.drop_last() =~= tokens@.subrange(start as int, k as int));
            assert(prefix1.last() == tokens@[k as int]);
            lemma_ser_tokens_snoc(prefix1, true);
            assert(out@ =~= ser_tokens(prefix1, true));
        }
        k = k + 1;
    }
    out
}

} // verus!
