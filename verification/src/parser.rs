//! The declaration parser.
//!
//! The front of the token sequence is a run of declarations, each of the
//! shape `let &name = <value-source> ;` where the value source is a
//! bracketed list of variants, a single delimited block, or an integer
//! range. Parsing stops at the first position where that shape does not
//! begin; a shape that begins and then breaks off is a fatal error,
//! reported at the offending token's position.
//!
//! While a bracketed list or a block is read, every value is resolved at
//! once against the variables declared so far (the recursive resolver):
//! a value may reference earlier variables, never later ones or itself; a
//! reference to a variable not yet declared is left in the text unresolved.

use crate::bytes::bytes_eq;
use crate::bytes::views_of;
use crate::chunk::duplicate;
use crate::chunk::spec_duplicate;
use crate::num::digits_val;
use crate::num::is_digits;
use crate::num::make_range_variants;
use crate::num::parse_u64_digits;
use crate::num::range_variants;
use crate::table::EntryModel;
use crate::table::VarTable;
use crate::token::ser_tokens;
use crate::token::serialize_range;
use crate::token::Delim;
use crate::token::Token;
use crate::token::SIGIL;
use vstd::prelude::*;

verus! {

/// The ampersand that marks a declaration's variable name.
pub const AMP: u8 = 38;

/// The equals sign between a name and its value source.
pub const EQUALS: u8 = 61;

/// The semicolon closing a declaration.
pub const SEMI: u8 = 59;

/// One dot of the range operator.
pub const DOT: u8 = 46;

/// The comma separating variants of a bracketed list.
pub const COMMA: u8 = 44;

/// What a failed parse reports; every kind is fatal and aborts the whole
/// run with no partial output.
#[derive(Clone, Copy, Debug, PartialEq, Eq, Structural)]
pub enum ErrorKind {
    /// `let &` is not followed by an identifier naming the variable.
    MissingName,
    /// The variable name is not followed by `=`.
    MissingEq,
    /// What follows `=` is neither a delimited group nor a literal opening
    /// a range.
    MissingValue,
    /// The declaration is not closed by `;`.
    MissingSemi,
    /// The range does not open with an unsigned 64-bit integer literal.
    RangeStart,
    /// The range operator `..` or `..=` is absent or malformed.
    RangeOp,
    /// The range does not close with an unsigned 64-bit integer literal.
    RangeEnd,
}

/// A structural error: an expected construct is missing.
pub open spec fn is_structural_error(k: ErrorKind) -> bool {
    match k {
        ErrorKind::MissingName => true,
        ErrorKind::MissingEq => true,
        ErrorKind::MissingValue => true,
        ErrorKind::MissingSemi => true,
        _ => false,
    }
}

/// A range syntax error: a bound or the operator of a range is malformed.
pub open spec fn is_range_error(k: ErrorKind) -> bool {
    !is_structural_error(k)
}

/// A fatal parse error, reported at the offending token's position in the
/// top-level token sequence.
#[derive(Clone, Copy, Debug, PartialEq, Eq, Structural)]
pub struct ParseError {
    /// What was wrong.
    pub kind: ErrorKind,
    /// The index of the offending token; one past the end of the sequence
    /// when input ran out.
    pub pos: usize,
}

/// The mathematical model of a parse error.
pub struct ErrorModel {
    /// What was wrong.
    pub kind: ErrorKind,
    /// The index of the offending token.
    pub pos: int,
}

impl View for ParseError {
    type V = ErrorModel;

    open spec fn view(&self) -> ErrorModel {
        ErrorModel { kind: self.kind, pos: self.pos as int }
    }
}

/// The keyword opening a declaration.
pub open spec fn let_keyword() -> Seq<u8> {
    seq![108u8, 101u8, 116u8]
}

/// The sentinel whose value stores the empty string as a variant.
pub open spec fn none_keyword() -> Seq<u8> {
    seq![78u8, 79u8, 78u8, 69u8]
}

/// The identifier text of a token, empty for other tokens.
pub open spec fn ident_text(t: Token) -> Seq<u8> {
    match t {
        Token::Ident(x) => x@,
        _ => seq![],
    }
}

/// Whether a token is an identifier.
pub open spec fn is_ident_tok(t: Token) -> bool {
    match t {
        Token::Ident(_) => true,
        _ => false,
    }
}

/// Whether a token is a literal.
pub open spec fn is_lit_tok(t: Token) -> bool {
    match t {
        Token::Lit(_) => true,
        _ => false,
    }
}

/// Whether a token is the given punctuation character.
pub open spec fn punct_is(t: Token, c: u8) -> bool {
    match t {
        Token::Punct(cc, _) => cc == c,
        _ => false,
    }
}

/// Whether a punctuation token carries the joint spacing hint.
pub open spec fn punct_joint(t: Token) -> bool {
    match t {
        Token::Punct(_, j) => j,
        _ => false,
    }
}

/// Whether a token is a group.
pub open spec fn is_group_tok(t: Token) -> bool {
    match t {
        Token::Group(_, _) => true,
        _ => false,
    }
}

/// The delimiter kind of a group token.
pub open spec fn group_delim(t: Token) -> Delim {
    match t {
        Token::Group(d, _) => d,
        _ => Delim::Bare,
    }
}

/// The children of a group token.
pub open spec fn group_children(t: Token) -> Seq<Token> {
    match t {
        Token::Group(_, ch) => ch@,
        _ => seq![],
    }
}

/// The value of an unsigned 64-bit integer literal token, if it is one.
pub open spec fn int_lit_value(t: Token) -> Option<int> {
    match t {
        Token::Lit(x) => {
            if is_digits(x@) && digits_val(x@) <= u64::MAX {
                Some(digits_val(x@))
            } else {
                None
            }
        },
        _ => None,
    }
}

/// Does a declaration begin at `p`? The parser commits to a declaration
/// exactly when it sees `let` followed by `&`.
pub open spec fn decl_starts(ts: Seq<Token>, p: int) -> bool {
    &&& 0 <= p
    &&& p + 1 < ts.len()
    &&& is_ident_tok(ts[p])
    &&& ident_text(ts[p]) == let_keyword()
    &&& punct_is(ts[p + 1], AMP)
}

/// The index of the first top-level comma at or after `from` among a
/// bracketed list's children, or the children's length when none is left.
pub open spec fn first_comma(ch: Seq<Token>, from: int) -> int
    decreases ch.len() - from,
{
    if !(0 <= from < ch.len()) {
        ch.len() as int
    } else if punct_is(ch[from], COMMA) {
        from
    } else {
        first_comma(ch, from + 1)
    }
}

/// The first comma lies between `from` and the end, nothing before it is
/// a comma, and it is one itself when it is not the end.
pub proof fn lemma_first_comma_bounds(ch: Seq<Token>, from: int)
    requires
        0 <= from <= ch.len(),
    ensures
        from <= first_comma(ch, from) <= ch.len(),
        forall|i: int| from <= i < first_comma(ch, from) ==> !punct_is(ch[i], COMMA),
        first_comma(ch, from) < ch.len() ==> punct_is(ch[first_comma(ch, from)], COMMA),
    decreases ch.len() - from,
{
    if 0 <= from < ch.len() && !punct_is(ch[from], COMMA) {
        lemma_first_comma_bounds(ch, from + 1);
    }
}

/// The text of one variant run: the run serialized, except that a run
/// that is a single brace block contributes its inner tokens only.
pub open spec fn run_text(run: Seq<Token>) -> Seq<u8> {
    if run.len() == 1 && is_group_tok(run[0]) && group_delim(run[0]) is Brace {
        ser_tokens(group_children(run[0]), true)
    } else {
        ser_tokens(run, true)
    }
}

/// The resolved text of one variant run: the sentinel `NONE` becomes the
/// empty string, and anything else is resolved against the variables
/// declared so far.
pub open spec fn run_variant(run: Seq<Token>, es: Seq<EntryModel>) -> Seq<u8> {
    if run_text(run) == none_keyword() {
        seq![]
    } else {
        spec_duplicate(run_text(run), es)
    }
}

/// The variants of a bracketed list, one per run of children up to the
/// next top-level comma; a trailing comma adds no empty variant.
pub open spec fn run_variants(ch: Seq<Token>, from: int, es: Seq<EntryModel>) -> Seq<Seq<u8>>
    decreases ch.len() - from,
{
    if !(0 <= from < ch.len()) {
        seq![]
    } else {
        proof {
            lemma_first_comma_bounds(ch, from);
        }
        let c = first_comma(ch, from);
        let next = if c + 1 > ch.len() {
            ch.len() as int
        } else {
            c + 1
        };
        seq![run_variant(ch.subrange(from, c), es)] + run_variants(ch, next, es)
    }
}

/// Parsing a range value source whose start literal sits at `pv`: the
/// result is the position after the closing semicolon and the variant
/// list the range expands to.
pub open spec fn spec_parse_range(ts: Seq<Token>, pv: int) -> Result<
    (int, Seq<Seq<u8>>),
    ErrorModel,
> {
    match int_lit_value(ts[pv]) {
        Option::None => Err(ErrorModel { kind: ErrorKind::RangeStart, pos: pv }),
        Option::Some(start) => {
            if !(pv + 2 < ts.len() && punct_is(ts[pv + 1], DOT) && punct_joint(ts[pv + 1])
                && punct_is(ts[pv + 2], DOT)) {
                Err(ErrorModel { kind: ErrorKind::RangeOp, pos: pv + 1 })
            } else {
                let inclusive = punct_joint(ts[pv + 2]) && pv + 3 < ts.len() && punct_is(
                    ts[pv + 3],
                    EQUALS,
                );
                let pe = if inclusive {
                    pv + 4
                } else {
                    pv + 3
                };
                if !(pe < ts.len()) {
                    Err(ErrorModel { kind: ErrorKind::RangeEnd, pos: pe })
                } else {
                    match int_lit_value(ts[pe]) {
                        Option::None => Err(ErrorModel { kind: ErrorKind::RangeEnd, pos: pe }),
                        Option::Some(end) => {
                            if !(pe + 1 < ts.len() && punct_is(ts[pe + 1], SEMI)) {
                                Err(ErrorModel { kind: ErrorKind::MissingSemi, pos: pe + 1 })
                            } else {
                                Ok((pe + 2, range_variants(start, end, inclusive)))
                            }
                        },
                    }
                }
            }
        },
    }
}

/// Parsing one declaration that begins at `p`: the result is the position
/// after the closing semicolon and the table entry the declaration makes,
/// its values resolved against the entries declared so far.
pub open spec fn spec_parse_decl(ts: Seq<Token>, p: int, es: Seq<EntryModel>) -> Result<
    (int, EntryModel),
    ErrorModel,
>
    recommends
        decl_starts(ts, p),
{
    let pn = p + 2;
    if !(pn < ts.len() && is_ident_tok(ts[pn])) {
        Err(ErrorModel { kind: ErrorKind::MissingName, pos: pn })
    } else {
        let key = seq![SIGIL] + ident_text(ts[pn]);
        if !(pn + 1 < ts.len() && punct_is(ts[pn + 1], EQUALS)) {
            Err(ErrorModel { kind: ErrorKind::MissingEq, pos: pn + 1 })
        } else {
            let pv = pn + 2;
            if pv < ts.len() && is_group_tok(ts[pv]) {
                let values = if group_delim(ts[pv]) is Bracket {
                    run_variants(group_children(ts[pv]), 0, es)
                } else {
                    seq![spec_duplicate(ser_tokens(group_children(ts[pv]), true), es)]
                };
                if !(pv + 1 < ts.len() && punct_is(ts[pv + 1], SEMI)) {
                    Err(ErrorModel { kind: ErrorKind::MissingSemi, pos: pv + 1 })
                } else {
                    Ok((pv + 2, EntryModel { name: key, values }))
                }
            } else if pv < ts.len() && is_lit_tok(ts[pv]) {
                match spec_parse_range(ts, pv) {
                    Ok(r) => Ok((r.0, EntryModel { name: key, values: r.1 })),
                    Err(e) => Err(e),
                }
            } else {
                Err(ErrorModel { kind: ErrorKind::MissingValue, pos: pv })
            }
        }
    }
}

/// A declaration that parses consumes at least its six fixed tokens and
/// never runs past the end of the input.
pub proof fn lemma_parse_decl_advances(ts: Seq<Token>, p: int, es: Seq<EntryModel>)
    ensures
        match spec_parse_decl(ts, p, es) {
            Ok(r) => p + 6 <= r.0 <= ts.len(),
            Err(_) => true,
        },
{
}

/// Parsing the whole run of declarations from `p` on: the position where
/// no further declaration begins, and the table built on the way, each
/// declaration's entry inserted in key order as soon as it is parsed.
pub open spec fn spec_parse_all(ts: Seq<Token>, p: int, es: Seq<EntryModel>) -> Result<
    (int, Seq<EntryModel>),
    ErrorModel,
>
    decreases ts.len() - p,
{
    if !decl_starts(ts, p) {
        Ok((p, es))
    } else {
        proof {
            lemma_parse_decl_advances(ts, p, es);
        }
        match spec_parse_decl(ts, p, es) {
            Err(e) => Err(e),
            Ok(r) => spec_parse_all(ts, r.0, crate::table::insert_entry(es, r.1)),
        }
    }
}

/// The whole engine on a token sequence: parse the declarations, then
/// serialize the remaining tokens and expand them against the final
/// table. An empty sequence yields empty output.
pub open spec fn spec_run(ts: Seq<Token>) -> Result<Seq<u8>, ErrorModel> {
    match spec_parse_all(ts, 0, Seq::<EntryModel>::empty()) {
        Err(e) => Err(e),
        Ok(r) => Ok(spec_duplicate(ser_tokens(ts.subrange(r.0, ts.len() as int), true), r.1)),
    }
}

/// One parsed declaration: the table key it declares, its resolved
/// variants, and the index of the first token after the declaration.
#[derive(Debug)]
pub struct Decl {
    /// The table key: the sigil followed by the variable's name.
    pub name: Vec<u8>,
    /// The resolved variants.
    pub values: Vec<Vec<u8>>,
    /// The index right after the closing semicolon.
    pub next: usize,
}

/// Whether the token is the given punctuation character.
fn is_punct_char(t: &Token, c: u8) -> (r: bool)
    ensures
        r == punct_is(*t, c),
{
    match t {
        Token::Punct(cc, _) => *cc == c,
        _ => false,
    }
}

/// Whether the token is punctuation with the joint spacing hint.
fn is_punct_joint(t: &Token) -> (r: bool)
    ensures
        r == punct_joint(*t),
{
    match t {
        Token::Punct(_, j) => *j,
        _ => false,
    }
}

/// Reads the unsigned 64-bit integer literal at `pos`, if the token there
/// is one.
pub fn parse_integer_literal(tokens: &Vec<Token>, pos: usize) -> (r: Option<u64>)
    ensures
        match r {
            Option::Some(v) => pos < tokens@.len() && int_lit_value(tokens@[pos as int]) == Some(
                v as int,
            ),
            Option::None => pos >= tokens@.len() || int_lit_value(tokens@[pos as int]) is None,
        },
{
    if pos >= tokens.len() {
        return None;
    }
    match &tokens[pos] {
        Token::Lit(x) => parse_u64_digits(x),
        _ => None,
    }
}

/// Reads the variants of a bracketed list from the bracket group's
/// children: one variant per run up to the next top-level comma, each
/// resolved against the variables declared so far.
fn bracket_values(ch: &Vec<Token>, vars: &VarTable) -> (r: Vec<Vec<u8>>)
    ensures
        views_of(r@) == run_variants(ch@, 0, vars@),
{
    let mut values: Vec<Vec<u8>> = Vec::new();
    let mut from: usize = 0;
    proof {
        assert(views_of(values@) =~= Seq::<Seq<u8>>::empty());
        assert(Seq::<Seq<u8>>::empty() + run_variants(ch@, 0, vars@) =~= run_variants(
            ch@,
            0,
            vars@,
        ));
    }
    while from < ch.len()
        invariant
            from <= ch@.len(),
            run_variants(ch@, 0, vars@) == views_of(values@) + run_variants(
                ch@,
                from as int,
                vars@,
            ),
        decreases ch@.len() - from,
    {
        let mut c: usize = from;
        loop
            invariant
                from <= c <= ch@.len(),
                first_comma(ch@, from as int) == first_comma(ch@, c as int),
            ensures
                from <= c <= ch@.len(),
                c == first_comma(ch@, from as int),
            decreases ch@.len() - c,
        {
            if c == ch.len() {
                break;
            }
            if is_punct_char(&ch[c], COMMA) {
                break;
            }
            c = c + 1;
        }
        let ghost run = ch@.subrange(from as int, c as int);
        let text = if c - from == 1 {
            match &ch[from] {
                Token::Group(Delim::Brace, inner) => {
                    let t = serialize_range(inner, 0, inner.len());
                    proof {
                        assert(run[0] == ch@[from as int]);
                        assert(inner@.subrange(0, inner@.len() as int) =~= inner@);
                    }
                    t
                },
                _ => {
                    proof {
                        assert(run[0] == ch@[from as int]);
                    }
                    serialize_range(ch, from, c)
                },
            }
        } else {
            serialize_range(ch, from, c)
        };
        let none_kw: Vec<u8> = vec![78u8, 79u8, 78u8, 69u8];
        proof {
            assert(none_kw@ =~= none_keyword());
        }
        let value = if bytes_eq(&text, &none_kw) {
            Vec::new()
        } else {
            duplicate(&text, vars)
        };
        proof {
            assert(value@ == run_variant(run, vars@));
        }
        values.push(value);
        let next = if c == ch.len() {
            c
        } else {
            c + 1
        };
        proof {
            lemma_first_comma_bounds(ch@, from as int);
            assert(run_variants(ch@, from as int, vars@) == seq![run_variant(run, vars@)]
                + run_variants(ch@, next as int, vars@));
            assert(views_of(values@) =~= views_of(values@.drop_last()) + seq![value@]);
            assert(views_of(values@) + run_variants(ch@, next as int, vars@) =~= run_variants(
                ch@,
                0,
                vars@,
            ));
        }
        from = next;
    }
    proof {
        assert(run_variants(ch@, from as int, vars@) == Seq::<Seq<u8>>::empty());
        assert(views_of(values@) + Seq::<Seq<u8>>::empty() =~= views_of(values@));
    }
    values
}

/// Recognizes one declaration at `pos`. `Ok(None)` means no declaration
/// begins there and the tokens are left for the template; once `let &` is
/// seen, a declaration is committed and any break in its shape is a fatal
/// error.
pub fn parse_var(tokens: &Vec<Token>, pos: usize, vars: &VarTable) -> (r: Result<
    Option<Decl>,
    ParseError,
>)
    ensures
        match r {
            Ok(Option::None) => !decl_starts(tokens@, pos as int),
            Ok(Option::Some(d)) => decl_starts(tokens@, pos as int) && spec_parse_decl(
                tokens@,
                pos as int,
                vars@,
            ) == Ok::<_, ErrorModel>(
                (d.next as int, EntryModel { name: d.name@, values: views_of(d.values@) }),
            ),
            Err(e) => decl_starts(tokens@, pos as int) && spec_parse_decl(
                tokens@,
                pos as int,
                vars@,
            ) == Err::<(int, EntryModel), _>(e@),
        },
{
    let len = tokens.len();
    if pos >= len {
        return Ok(None);
    }
    let avail = len - pos;
    let is_let = match &tokens[pos] {
        Token::Ident(x) => {
            let kw: Vec<u8> = vec![108u8, 101u8, 116u8];
            proof {
                assert(kw@ =~= let_keyword());
            }
            bytes_eq(x, &kw)
        },
        _ => false,
    };
    if !is_let {
        return Ok(None);
    }
    if !(avail > 1 && is_punct_char(&tokens[pos + 1], AMP)) {
        return Ok(None);
    }
    let pn = pos + 2;
    if !(avail > 2) {
        return Err(ParseError { kind: ErrorKind::MissingName, pos: pn });
    }
    let name_text = match &tokens[pn] {
        Token::Ident(x) => x,
        _ => {
            return Err(ParseError { kind: ErrorKind::MissingName, pos: pn });
        },
    };
    let mut key: Vec<u8> = Vec::new();
    key.push(SIGIL);
    crate::token::push_bytes(&mut key, name_text);
    proof {
        assert(key@ =~= seq![SIGIL] + ident_text(tokens@[pn as int]));
    }
    if !(avail > 3 && is_punct_char(&tokens[pn + 1], EQUALS)) {
        return Err(ParseError { kind: ErrorKind::MissingEq, pos: pn + 1 });
    }
    let pv = pn + 2;
    if !(avail > 4) {
        return Err(ParseError { kind: ErrorKind::MissingValue, pos: pv });
    }
    match &tokens[pv] {
        Token::Group(d, ch) => {
            let values = match d {
                Delim::Bracket => bracket_values(ch, vars),
                _ => {
                    let text = serialize_range(ch, 0, ch.len());
                    proof {
                        assert(ch@.subrange(0, ch@.len() as int) =~= ch@);
                    }
                    let mut vs: Vec<Vec<u8>> = Vec::new();
                    vs.push(duplicate(&text, vars));
                    proof {
                        assert(views_of(vs@) =~= seq![
                            spec_duplicate(
                                ser_tokens(group_children(tokens@[pv as int]), true),
                                vars@,
                            ),
                        ]);
                    }
                    vs
                },
            };
            if !(avail > 5 && is_punct_char(&tokens[pv + 1], SEMI)) {
                return Err(ParseError { kind: ErrorKind::MissingSemi, pos: pv + 1 });
            }
            Ok(Some(Decl { name: key, values, next: pv + 2 }))
        },
        Token::Lit(_) => {
            match parse_range_expr(tokens, pv) {
                Ok(p) => Ok(Some(Decl { name: key, values: p.0, next: p.1 })),
                Err(e) => Err(e),
            }
        },
        _ => Err(ParseError { kind: ErrorKind::MissingValue, pos: pv }),
    }
}

/// Parses a range value source whose start literal sits at `pos`,
/// expanding it eagerly to one decimal variant per integer.
pub fn parse_range_expr(tokens: &Vec<Token>, pos: usize) -> (r: Result<
    (Vec<Vec<u8>>, usize),
    ParseError,
>)
    requires
        pos < tokens@.len(),
    ensures
        match r {
            Ok(p) => spec_parse_range(tokens@, pos as int) == Ok::<_, ErrorModel>(
                (p.1 as int, views_of(p.0@)),
            ),
            Err(e) => spec_parse_range(tokens@, pos as int) == Err::<(int, Seq<Seq<u8>>), _>(e@),
        },
{
    let start = match parse_integer_literal(tokens, pos) {
        Option::Some(v) => v,
        Option::None => {
            return Err(ParseError { kind: ErrorKind::RangeStart, pos });
        },
    };
    let len = tokens.len();
    let avail = len - pos;
    let dots_ok = avail > 2 && is_punct_char(&tokens[pos + 1], DOT) && is_punct_joint(
        &tokens[pos + 1],
    ) && is_punct_char(&tokens[pos + 2], DOT);
    if !dots_ok {
        return Err(ParseError { kind: ErrorKind::RangeOp, pos: pos + 1 });
    }
    let inclusive = is_punct_joint(&tokens[pos + 2]) && avail > 3 && is_punct_char(
        &tokens[pos + 3],
        EQUALS,
    );
    let pe = if inclusive {
        pos + 4
    } else {
        pos + 3
    };
    if pe >= len {
        return Err(ParseError { kind: ErrorKind::RangeEnd, pos: pe });
    }
    let end = match parse_integer_literal(tokens, pe) {
        Option::Some(v) => v,
        Option::None => {
            return Err(ParseError { kind: ErrorKind::RangeEnd, pos: pe });
        },
    };
    if !(pe + 1 < len && is_punct_char(&tokens[pe + 1], SEMI)) {
        return Err(ParseError { kind: ErrorKind::MissingSemi, pos: pe + 1 });
    }
    let values = make_range_variants(start, end, inclusive);
    Ok((values, pe + 2))
}

} // verus!
