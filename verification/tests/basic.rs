use akin::akin;
use akin::token::Delim;
use akin::token::Token;

fn convert(tt: proc_macro2::TokenTree) -> Token {
    match tt {
        proc_macro2::TokenTree::Ident(i) => Token::Ident(i.to_string().into_bytes()),
        proc_macro2::TokenTree::Literal(l) => Token::Lit(l.to_string().into_bytes()),
        proc_macro2::TokenTree::Punct(p) => {
            Token::Punct(p.as_char() as u8, p.spacing() == proc_macro2::Spacing::Joint)
        }
        proc_macro2::TokenTree::Group(g) => {
            let delim = match g.delimiter() {
                proc_macro2::Delimiter::Parenthesis => Delim::Paren,
                proc_macro2::Delimiter::Brace => Delim::Brace,
                proc_macro2::Delimiter::Bracket => Delim::Bracket,
                proc_macro2::Delimiter::None => Delim::Bare,
            };
            Token::Group(delim, g.stream().into_iter().map(convert).collect())
        }
    }
}

fn expand(src: &str) -> String {
    let stream: proc_macro2::TokenStream = src.parse().unwrap();
    let tokens: Vec<Token> = stream.into_iter().map(convert).collect();
    String::from_utf8(akin(&tokens).unwrap()).unwrap()
}

#[test]
fn basic() {
    let out = expand(
        r#"
        let &var = [1, 2, 3, 4, 5];
        res += *var;
    "#,
    );
    assert_eq!(out, "res += 1 ;res += 2 ;res += 3 ;res += 4 ;res += 5 ;");
    let mut res = 0;
    for part in out.split("res +=") {
        let part = part.trim().trim_end_matches(';').trim();
        if !part.is_empty() {
            res += part.parse::<i32>().unwrap();
        }
    }
    assert_eq!(res, 15);
}

#[test]
fn list() {
    let out = expand(
        r#"
        let &var = [ ['a', 'b'], ['c', 'd'], ['e'] ];
        res.extend(*var);
    "#,
    );
    assert_eq!(
        out,
        "res . extend( ['a' , 'b']) ;res . extend( ['c' , 'd']) ;res . extend( ['e']) ;"
    );
    let mut res = String::new();
    let b = out.as_bytes();
    for i in 0..b.len() {
        if b[i] == b'\'' && i + 2 < b.len() && b[i + 2] == b'\'' {
            res.push(b[i + 1] as char);
        }
    }
    assert_eq!(res, "abcde");
}

#[test]
fn _match() {
    let out = expand(
        r#"
            let &var = ["a", "b", "c", "d"];
            let &branch = {
                *var => *var.to_owned(),
            };
            match val {
                *branch
                _ => String::new()
            }
    "#,
    );
    assert_eq!(
        out,
        r#"match val{ "a" => "a" . to_owned() ,"b" => "b" . to_owned() ,"c" => "c" . to_owned() ,"d" => "d" . to_owned() , _ => String :: new()}"#
    );
}

#[test]
fn multiple_same_len() {
    let out = expand(
        r#"
        let &a = [1, 2, 3];
        let &b = [3, 2, 1];
        writeln!(&mut res, "*a + *b = {}", *a + *b).unwrap();
    "#,
    );
    assert_eq!(
        out,
        r#"writeln !( & mut res , "1 + 3 = {}" , 1 + 3) . unwrap() ;writeln !( & mut res , "2 + 2 = {}" , 2 + 2) . unwrap() ;writeln !( & mut res , "3 + 1 = {}" , 3 + 1) . unwrap() ;"#
    );
}

#[test]
fn multiple_diff_len() {
    let out = expand(
        r#"
        let &a = [1, 2, 3, 4];
        let &b = [3, 2];
        writeln!(&mut res, "*a + *b = {}", *a + *b).unwrap();
    "#,
    );
    assert_eq!(
        out,
        r#"writeln !( & mut res , "1 + 3 = {}" , 1 + 3) . unwrap() ;writeln !( & mut res , "2 + 2 = {}" , 2 + 2) . unwrap() ;writeln !( & mut res , "3 + 2 = {}" , 3 + 2) . unwrap() ;writeln !( & mut res , "4 + 2 = {}" , 4 + 2) . unwrap() ;"#
    );
}

#[test]
fn multiple_diff_len2() {
    let out = expand(
        r#"
        let &v1 = [c];
        let &v2 = [a, b];
        writeln!(&mut res, "*v1*v2").unwrap();
    "#,
    );
    assert_eq!(
        out,
        r#"writeln !( & mut res , "ca") . unwrap() ;writeln !( & mut res , "cb") . unwrap() ;"#
    );
}

#[test]
fn _trait() {
    let out = expand(
        r#"
        let &int_type = [u8, u16, u32, u64];
        impl ToBytes for *int_type {
            fn to_bytes(self) -> Vec<u8> {
                self.to_le_bytes().into()
            }
        }
    "#,
    );
    let one = |t: &str| {
        format!(
            "impl ToBytes for {}{{ fn to_bytes( self) -> Vec < u8 >{{ self . to_le_bytes() . into()}}}}",
            t
        )
    };
    assert_eq!(out, format!("{}{}{}{}", one("u8"), one("u16"), one("u32"), one("u64")));
}

#[test]
fn fn_joint() {
    let out = expand(
        r#"
        let &name = [1, 2, 3, 4, 5];
        fn _~*name() -> u32 {
            *name
        }
    "#,
    );
    assert_eq!(
        out,
        "fn _1() -> u32{ 1}fn _2() -> u32{ 2}fn _3() -> u32{ 3}fn _4() -> u32{ 4}fn _5() -> u32{ 5}"
    );
}

#[test]
fn readme_example() {
    let out = expand(
        r#"
        let &int_type = [i64, u64];
        let &negative_check = [
            {
                if self < 0 {
                    return Err("Sqrt of negative number")
                }
            },
            NONE
        ];

        let &num = [1,     2,    3,  4];
        let &res = [1., 1.41, 1.73,  2.];
        let &branch = {
            *num => Ok(*res),
        };

        impl Sqrt for *int_type {
            fn dumb_sqrt(self) -> Result<f64, &'static str> {
                *negative_check

                match self {
                    *branch
                    _ => Err("Sqrt of num not in [1, 4]")
                }
            }
        }
    "#,
    );
    let branches = r#"1 => Ok( 1.) ,2 => Ok( 1.41) ,3 => Ok( 1.73) ,4 => Ok( 2.) ,"#;
    let signed = format!(
        r#"impl Sqrt for i64{{ fn dumb_sqrt( self) -> Result < f64 , &'static str >{{ if self < 0{{ return Err( "Sqrt of negative number")}} match self{{ {} _ => Err( "Sqrt of num not in [1, 4]")}}}}}}"#,
        branches
    );
    let unsigned = format!(
        r#"impl Sqrt for u64{{ fn dumb_sqrt( self) -> Result < f64 , &'static str >{{  match self{{ {} _ => Err( "Sqrt of num not in [1, 4]")}}}}}}"#,
        branches
    );
    assert_eq!(out, format!("{}{}", signed, unsigned));
}

#[test]
fn var_replace_global() {
    let out = expand(
        r#"
        let &foo = [wrong];
        let &foobar = [correct];

        assert_eq!("*foobar", "correct");
    "#,
    );
    assert_eq!(out, r#"assert_eq !( "correct" , "correct") ;"#);
    assert!(!out.contains("wrong"));
}

#[test]
fn var_replace_value() {
    let out = expand(
        r#"
        let &foo = [wrong];
        let &foobar = [correct];
        let &bar = [*foobar];

        assert_eq!("*bar", "correct");
    "#,
    );
    assert_eq!(out, r#"assert_eq !( "correct" , "correct") ;"#);
}

#[test]
fn var_replace_code() {
    let out = expand(
        r#"
        let &foo = [wrong];
        let &foobar = ["correct"];
        let &bar = { *foobar };

        assert_eq!(*bar, "correct");
    "#,
    );
    assert_eq!(out, r#"assert_eq !( "correct" , "correct") ;"#);
}

#[test]
fn zero_tokens() {
    let out = expand("");
    assert_eq!(out, "");
}

#[test]
fn one_token() {
    let out = expand(
        r#"
        "test"
    "#,
    );
    assert_eq!(out, "\"test\"");
}

#[test]
fn one_token_repeated() {
    let out = expand(
        r#"
        let &x = [1, 2];
        let &b = {test~*x};
        "*b"
    "#,
    );
    assert_eq!(out, "\"test1test2\"");
}
