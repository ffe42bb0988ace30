use akin::akin;
use akin::chunk::duplicate;
use akin::chunk::Chunk;
use akin::num::u64_to_dec;
use akin::parser::parse_integer_literal;
use akin::parser::ErrorKind;
use akin::parser::ParseError;
use akin::table::VarTable;
use akin::token::Delim;
use akin::token::Token;

fn convert(tt: proc_macro2::TokenTree) -> Token {
    match tt {
        proc_macro2::TokenTree::Ident(i) => Token::Ident(i.to_string().into_bytes()),
        proc_macro2::TokenTree::Literal(l) => Token::Lit(l.to_string().into_bytes()),
        proc_macro2::TokenTree::Punct(p) => {
            Token::Punct(p.as_char() as u8, p.spacing() == proc_macro2::Spacing::Joint)
        }
        proc_macro2::TokenTree::Group(g) => {
            let delim = match g.delimiter() {
                proc_macro2::Delimiter::Parenthesis => Delim::Paren,
                proc_macro2::Delimiter::Brace => Delim::Brace,
                proc_macro2::Delimiter::Bracket => Delim::Bracket,
                proc_macro2::Delimiter::None => Delim::Bare,
            };
            Token::Group(delim, g.stream().into_iter().map(convert).collect())
        }
    }
}

fn tokens_of(src: &str) -> Vec<Token> {
    let stream: proc_macro2::TokenStream = src.parse().unwrap();
    stream.into_iter().map(convert).collect()
}

fn expand(src: &str) -> String {
    String::from_utf8(akin(&tokens_of(src)).unwrap()).unwrap()
}

fn expand_err(src: &str) -> ParseError {
    akin(&tokens_of(src)).unwrap_err()
}

#[test]
fn range_exclusive() {
    assert_eq!(expand("let &i = 0..3; x = *i;"), "x = 0 ;x = 1 ;x = 2 ;");
}

#[test]
fn range_inclusive() {
    assert_eq!(
        expand("let &i = 0..=3; x = *i;"),
        "x = 0 ;x = 1 ;x = 2 ;x = 3 ;"
    );
}

#[test]
fn range_reversed_inclusive_keeps_end() {
    assert_eq!(expand("let &i = 5..=3; v = *i;"), "v = 3 ;");
}

#[test]
fn range_reversed_exclusive_is_empty() {
    assert_eq!(expand("let &i = 5..3; v = *i;"), "v =  ;");
}

#[test]
fn range_large_bounds() {
    assert_eq!(
        expand("let &i = 18446744073709551614..=18446744073709551615; x*i;"),
        "x 18446744073709551614 ;x 18446744073709551615 ;"
    );
}

#[test]
fn none_value_writes_nothing() {
    let out = expand(
        r#"
        let &num = [1, 2, 3];
        let &code = [
            NONE,
            {
                .pow(2)
            }
        ];
        *num~u32*code;
    "#,
    );
    assert_eq!(out, "1u32  ;2u32 . pow( 2) ;3u32 . pow( 2) ;");
    assert!(!out.contains("NONE"));
}

#[test]
fn last_declaration_wins() {
    assert_eq!(expand("let &x = [a]; let &x = [b, c]; *x"), "bc");
}

#[test]
fn self_reference_left_unresolved() {
    assert_eq!(expand("let &a = [*a]; *a"), "*a");
}

#[test]
fn forward_reference_left_unresolved() {
    assert_eq!(expand("let &a = [*b]; let &b = [late]; *a *b"), "*b late");
}

#[test]
fn empty_bracket_list() {
    assert_eq!(expand("let &x = []; a *x b"), "a  b");
}

#[test]
fn empty_variant_run() {
    assert_eq!(expand("let &x = [,]; a-*x-b"), "a - - b");
}

#[test]
fn declarations_only_yield_one_empty_copy() {
    assert_eq!(expand("let &x = [a, b];"), "");
}

#[test]
fn error_missing_name_at_end() {
    assert_eq!(
        expand_err("let &"),
        ParseError { kind: ErrorKind::MissingName, pos: 2 }
    );
}

#[test]
fn error_missing_name_not_ident() {
    assert_eq!(
        expand_err("let & = x;"),
        ParseError { kind: ErrorKind::MissingName, pos: 2 }
    );
}

#[test]
fn error_missing_eq() {
    assert_eq!(
        expand_err("let &x [1];"),
        ParseError { kind: ErrorKind::MissingEq, pos: 3 }
    );
}

#[test]
fn error_missing_value() {
    assert_eq!(
        expand_err("let &x = ;"),
        ParseError { kind: ErrorKind::MissingValue, pos: 4 }
    );
}

#[test]
fn error_missing_semi_after_list() {
    assert_eq!(
        expand_err("let &x = [1]"),
        ParseError { kind: ErrorKind::MissingSemi, pos: 5 }
    );
}

#[test]
fn error_range_start_not_integer() {
    assert_eq!(
        expand_err(r#"let &x = "a"..b;"#),
        ParseError { kind: ErrorKind::RangeStart, pos: 4 }
    );
}

#[test]
fn error_range_start_overflow() {
    assert_eq!(
        expand_err("let &x = 99999999999999999999..5;"),
        ParseError { kind: ErrorKind::RangeStart, pos: 4 }
    );
}

#[test]
fn error_range_operator() {
    assert_eq!(
        expand_err("let &x = 1 + 2;"),
        ParseError { kind: ErrorKind::RangeOp, pos: 5 }
    );
}

#[test]
fn error_range_end() {
    assert_eq!(
        expand_err("let &x = 1..y;"),
        ParseError { kind: ErrorKind::RangeEnd, pos: 7 }
    );
}

#[test]
fn error_missing_semi_after_range() {
    assert_eq!(
        expand_err("let &x = 1..2"),
        ParseError { kind: ErrorKind::MissingSemi, pos: 8 }
    );
}

#[test]
fn bare_group_emits_no_delimiters() {
    let tokens = vec![
        Token::Ident(b"a".to_vec()),
        Token::Group(Delim::Bare, vec![Token::Ident(b"b".to_vec())]),
        Token::Ident(b"c".to_vec()),
    ];
    assert_eq!(akin(&tokens).unwrap(), b"a b c".to_vec());
}

#[test]
fn joint_punct_adjoins() {
    let tokens = vec![
        Token::Ident(b"x".to_vec()),
        Token::Punct(b'+', true),
        Token::Punct(b'=', false),
        Token::Lit(b"1".to_vec()),
    ];
    assert_eq!(akin(&tokens).unwrap(), b"x += 1".to_vec());
}

#[test]
fn duplicate_direct() {
    let mut vars = VarTable::new();
    vars.insert(
        b"*x".to_vec(),
        vec![b"1".to_vec(), b"2".to_vec(), b"3".to_vec()],
    );
    let out = duplicate(&b"-*x-".to_vec(), &vars);
    assert_eq!(out, b"-1--2--3-".to_vec());
}

#[test]
fn duplicate_no_references_returns_text() {
    let mut vars = VarTable::new();
    vars.insert(b"*x".to_vec(), vec![b"1".to_vec(), b"2".to_vec()]);
    let out = duplicate(&b"plain text".to_vec(), &vars);
    assert_eq!(out, b"plain text".to_vec());
}

#[test]
fn duplicate_prefers_longer_name() {
    let mut vars = VarTable::new();
    vars.insert(b"*foo".to_vec(), vec![b"wrong".to_vec()]);
    vars.insert(b"*foobar".to_vec(), vec![b"correct".to_vec()]);
    let out = duplicate(&b"-*foobar-".to_vec(), &vars);
    assert_eq!(out, b"-correct-".to_vec());
}

#[test]
fn chunk_fixed_text() {
    let c = Chunk::new(b"ab".to_vec());
    assert_eq!(c.times(), 0);
    assert_eq!(c.total_len(3), 6);
    let mut out: Vec<u8> = Vec::new();
    c.push_to_string(5, &mut out);
    assert_eq!(out, b"ab".to_vec());
}

#[test]
fn chunk_clamps_to_last_variant() {
    let c = Chunk {
        prefix: b"p".to_vec(),
        suffix_variants: vec![b"x".to_vec(), b"yz".to_vec()],
    };
    assert_eq!(c.times(), 2);
    assert_eq!(c.total_len(3), 8);
    let mut out: Vec<u8> = Vec::new();
    c.push_to_string(0, &mut out);
    c.push_to_string(1, &mut out);
    c.push_to_string(5, &mut out);
    assert_eq!(out, b"pxpyzpyz".to_vec());
}

#[test]
fn chunk_split_by_var_pieces() {
    let c = Chunk::new(b"a*x b*x".to_vec());
    let pieces = c.split_by_var(&b"*x".to_vec(), &vec![b"1".to_vec()]);
    assert_eq!(pieces.len(), 3);
    assert_eq!(pieces[0].prefix, b"a".to_vec());
    assert_eq!(pieces[1].prefix, b" b".to_vec());
    assert_eq!(pieces[2].prefix, b"".to_vec());
    assert_eq!(pieces[0].times(), 1);
    assert_eq!(pieces[1].times(), 1);
    assert_eq!(pieces[2].times(), 0);
}

#[test]
fn chunk_split_by_vars_table_order() {
    let mut vars = VarTable::new();
    vars.insert(b"*a".to_vec(), vec![b"1".to_vec()]);
    vars.insert(b"*ab".to_vec(), vec![b"2".to_vec()]);
    let pieces = Chunk::new(b"*ab *a".to_vec()).split_by_vars(&vars);
    let mut out: Vec<u8> = Vec::new();
    for p in &pieces {
        p.push_to_string(0, &mut out);
    }
    assert_eq!(out, b"2 1".to_vec());
}

#[test]
fn integer_literal_values() {
    let tokens = vec![
        Token::Lit(b"42".to_vec()),
        Token::Lit(b"99999999999999999999".to_vec()),
        Token::Ident(b"x".to_vec()),
        Token::Lit(b"18446744073709551615".to_vec()),
    ];
    assert_eq!(parse_integer_literal(&tokens, 0), Some(42));
    assert_eq!(parse_integer_literal(&tokens, 1), None);
    assert_eq!(parse_integer_literal(&tokens, 2), None);
    assert_eq!(parse_integer_literal(&tokens, 3), Some(u64::MAX));
    assert_eq!(parse_integer_literal(&tokens, 4), None);
}

#[test]
fn decimal_rendering() {
    assert_eq!(u64_to_dec(0), b"0".to_vec());
    assert_eq!(u64_to_dec(7), b"7".to_vec());
    assert_eq!(u64_to_dec(12034), b"12034".to_vec());
    assert_eq!(u64_to_dec(u64::MAX), b"18446744073709551615".to_vec());
}
