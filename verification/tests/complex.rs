use akin::akin;
use akin::token::Delim;
use akin::token::Token;

fn convert(tt: proc_macro2::TokenTree) -> Token {
    match tt {
        proc_macro2::TokenTree::Ident(i) => Token::Ident(i.to_string().into_bytes()),
        proc_macro2::TokenTree::Literal(l) => Token::Lit(l.to_string().into_bytes()),
        proc_macro2::TokenTree::Punct(p) => {
            Token::Punct(p.as_char() as u8, p.spacing() == proc_macro2::Spacing::Joint)
        }
        proc_macro2::TokenTree::Group(g) => {
            let delim = match g.delimiter() {
                proc_macro2::Delimiter::Parenthesis => Delim::Paren,
                proc_macro2::Delimiter::Brace => Delim::Brace,
                proc_macro2::Delimiter::Bracket => Delim::Bracket,
                proc_macro2::Delimiter::None => Delim::Bare,
            };
            Token::Group(delim, g.stream().into_iter().map(convert).collect())
        }
    }
}

fn expand(src: &str) -> String {
    let stream: proc_macro2::TokenStream = src.parse().unwrap();
    let tokens: Vec<Token> = stream.into_iter().map(convert).collect();
    String::from_utf8(akin(&tokens).unwrap()).unwrap()
}

#[test]
fn operations() {
    let out = expand(
        r#"
        let &op = [+, -, *, /];
        res.push(format!("a *op b = {}", a *op b));
    "#,
    );
    let one = |op: &str| {
        format!(
            r#"res . push( format !( "a {} b = {{}}" , a {} b)) ;"#,
            op, op
        )
    };
    assert_eq!(
        out,
        format!("{}{}{}{}", one("+"), one("-"), one("*"), one("/"))
    );
    assert!(out.contains("a + b = {}"));
    assert!(out.contains("a - b = {}"));
    assert!(out.contains("a * b = {}"));
    assert!(out.contains("a / b = {}"));
}

#[test]
fn replace() {
    let out = expand(
        r#"
        let &ints = [u64, u32];
        let &int = { *ints: *ints, };
        let &floats = [f64, f32];
        let &float = { *floats: *floats, };

        enum Dyn {
            Int,
            Float,
        }

        union Int {
            *int
        }

        union Float {
            *float
        }
    "#,
    );
    assert_eq!(
        out,
        "enum Dyn{ Int , Float ,} union Int{ u64 : u64 ,u32 : u32 ,} union Float{ f64 : f64 ,f32 : f32 ,}"
    );
}
