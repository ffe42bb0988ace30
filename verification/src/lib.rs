//! A compile-time source-duplication engine.
//!
//! Given a block of templated source tokens and a set of named variable
//! declarations (each bound to an ordered list of code-fragment variants),
//! the engine produces expanded source text where the template is repeated
//! once per slot and each occurrence of a variable name is replaced by that
//! slot's variant.
//!
//! Write each variable as `let &name = [v1, v2, ...];` (or `= {block};`,
//! or `= a..b;` / `= a..=b;`) in front of the template, and reference it
//! in the template as `*name`. The template is copied once per slot of the
//! longest referenced variant list; a shorter list repeats its last
//! variant. The sentinel `NONE` stores an empty variant, and the joint
//! modifier `~` suppresses the space the serializer would put before the
//! next token.

pub mod bytes;
pub mod chunk;
pub mod laws;
pub mod num;
pub mod parser;
pub mod table;
pub mod token;

use crate::bytes::views_of;
use crate::chunk::duplicate;
use crate::parser::parse_var;
use crate::parser::spec_parse_all;
use crate::parser::spec_run;
use crate::parser::ErrorModel;
use crate::parser::ParseError;
use crate::table::insert_entry;
use crate::table::EntryModel;
use crate::table::VarTable;
use crate::token::serialize_range;
use crate::token::Token;
use vstd::prelude::*;

verus! {

/// Expands one templated block: parses the leading declarations, builds
/// the variable table, serializes the remaining tokens, and duplicates the
/// resulting text once per slot. A parse error aborts the whole call with
/// no partial output; an empty token sequence yields empty output.
pub fn akin(tokens: &Vec<Token>) -> (r: Result<Vec<u8>, ParseError>)
    ensures
        match r {
            Ok(out) => spec_run(tokens@) == Ok::<_, ErrorModel>(out@),
            Err(e) => spec_run(tokens@) == Err::<Seq<u8>, _>(e@),
        },
{
    let mut vars = VarTable::new();
    let mut pos: usize = 0;
    loop
        invariant
            pos <= tokens@.len(),
            vars.wf(),
            spec_parse_all(tokens@, 0, Seq::<EntryModel>::empty()) == spec_parse_all(
                tokens@,
                pos as int,
                vars@,
            ),
        ensures
            pos <= tokens@.len(),
            vars.wf(),
            spec_parse_all(tokens@, 0, Seq::<EntryModel>::empty()) == Ok::<_, ErrorModel>(
                (pos as int, vars@),
            ),
        decreases tokens@.len() - pos,
    {
        let ghost vars0 = vars@;
        match parse_var(tokens, pos, &vars) {
            Ok(Option::Some(d)) => {
                proof {
                    crate::parser::lemma_parse_decl_advances(tokens@, pos as int, vars@);
                }
                let ghost entry = EntryModel { name: d.name@, values: views_of(d.values@) };
                let next = d.next;
                vars.insert(d.name, d.values);
                proof {
                    assert(spec_parse_all(tokens@, pos as int, vars0) == spec_parse_all(
                        tokens@,
                        next as int,
                        insert_entry(vars0, entry),
                    ));
                    assert(vars@ == insert_entry(vars0, entry));
                }
                pos = next;
            },
            Ok(Option::None) => {
                break;
            },
            Err(e) => {
                return Err(e);
            },
        }
    }
    let rest = serialize_range(tokens, pos, tokens.len());
    let out = duplicate(&rest, &vars);
    Ok(out)
}

} // verus!
