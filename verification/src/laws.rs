//! The engine's laws: proved statements about the behaviour of the
//! duplication engine as a whole, beyond the contracts of the single
//! functions.

use crate::bytes::has_occurrence;
use crate::bytes::lemma_find_exact;
use crate::bytes::lemma_find_fails;
use crate::bytes::lex_lt;
use crate::bytes::occurs_at;
use crate::chunk::chunk_piece;
use crate::chunk::chunk_split;
use crate::chunk::lemma_chunk_split_absent;
use crate::chunk::lemma_chunk_split_step;
use crate::chunk::max_variants;
use crate::chunk::spec_duplicate;
use crate::chunk::split_each;
use crate::chunk::split_entries;
use crate::chunk::tile_count;
use crate::chunk::tile_row;
use crate::chunk::tile_rows;
use crate::chunk::ChunkModel;
use crate::parser::decl_starts;
use crate::parser::spec_parse_all;
use crate::parser::spec_run;
use crate::table::insert_entry;
use crate::table::EntryModel;
use crate::token::ser_tokens;
use crate::token::Token;
use vstd::prelude::*;

verus! {

/// Occurrences within a front part of the text are the occurrences of the
/// text that fit inside it.
pub proof fn lemma_occurs_take(text: Seq<u8>, pat: Seq<u8>, m: int)
    requires
        0 <= m <= text.len(),
    ensures
        forall|i: int|
            #[trigger] occurs_at(text.take(m), pat, i) <==> occurs_at(text, pat, i) && i
                + pat.len() <= m,
{
    assert forall|i: int|
        #[trigger] occurs_at(text.take(m), pat, i) <==> occurs_at(text, pat, i) && i + pat.len()
            <= m by {
        if 0 <= i && i + pat.len() <= m {
            assert(text.take(m).subrange(i, i + pat.len() as int) =~= text.subrange(
                i,
                i + pat.len() as int,
            ));
        }
    }
}

/// Occurrences within a back part of the text are the occurrences of the
/// text, shifted.
pub proof fn lemma_occurs_skip(text: Seq<u8>, pat: Seq<u8>, m: int)
    requires
        0 <= m <= text.len(),
    ensures
        forall|j: int|
            0 <= j ==> (#[trigger] occurs_at(text.skip(m), pat, j) <==> occurs_at(
                text,
                pat,
                m + j,
            )),
{
    assert forall|j: int|
        0 <= j implies (#[trigger] occurs_at(text.skip(m), pat, j) <==> occurs_at(
        text,
        pat,
        m + j,
    )) by {
        if j + pat.len() <= text.skip(m).len() {
            assert(text.skip(m).subrange(j, j + pat.len() as int) =~= text.subrange(
                m + j,
                m + j + pat.len() as int,
            ));
        }
    }
}

/// Splitting a chunk whose prefix holds the key exactly once: the text
/// falls into the part before the key, carrying the variants, and the
/// part after it.
pub proof fn lemma_chunk_split_single(c: ChunkModel, e: EntryModel, at: int)
    requires
        e.name.len() >= 1,
        forall|i: int| #[trigger] occurs_at(c.prefix, e.name, i) <==> i == at,
    ensures
        chunk_split(c, e) == seq![
            (ChunkModel { prefix: c.prefix.take(at), variants: e.values }),
            (ChunkModel { prefix: c.prefix.skip(at + e.name.len() as int), variants: c.variants }),
        ],
{
    assert(occurs_at(c.prefix, e.name, at));
    lemma_find_exact(c.prefix, e.name, 0, at);
    lemma_chunk_split_step(c, e, at);
    let rest = c.prefix.subrange(at + e.name.len() as int, c.prefix.len() as int);
    assert(rest =~= c.prefix.skip(at + e.name.len() as int));
    lemma_occurs_skip(c.prefix, e.name, at + e.name.len() as int);
    assert forall|j: int| !(#[trigger] occurs_at(rest, e.name, j)) by {
        if 0 <= j {
            assert(occurs_at(rest, e.name, j) <==> occurs_at(
                c.prefix,
                e.name,
                at + e.name.len() + j,
            ));
        }
    }
    lemma_find_fails(rest, e.name, 0);
    lemma_chunk_split_absent(
        ChunkModel { prefix: rest, variants: c.variants },
        e,
    );
    assert(c.prefix.take(at) == c.prefix.subrange(0, at));
    assert(chunk_split(c, e) =~~= seq![
        (ChunkModel { prefix: c.prefix.take(at), variants: e.values }),
        (ChunkModel { prefix: c.prefix.skip(at + e.name.len() as int), variants: c.variants }),
    ]);
}

/// Splitting one chunk by one entry, spelled out.
pub proof fn lemma_split_each_one(c: ChunkModel, e: EntryModel)
    ensures
        split_each(seq![c], e) == chunk_split(c, e),
{
    let single = seq![c];
    assert(single.subrange(1, 1) =~= Seq::<ChunkModel>::empty());
    assert(split_each(single.subrange(1, 1), e) =~= Seq::<ChunkModel>::empty());
    assert(split_each(single, e) =~= chunk_split(c, e));
}

/// Splitting two chunks by one entry, spelled out.
pub proof fn lemma_split_each_two(c1: ChunkModel, c2: ChunkModel, e: EntryModel)
    ensures
        split_each(seq![c1, c2], e) == chunk_split(c1, e) + chunk_split(c2, e),
{
    let pair = seq![c1, c2];
    assert(pair.subrange(1, 2) =~= seq![c2]);
    lemma_split_each_one(c2, e);
    assert(split_each(pair, e) =~= chunk_split(c1, e) + chunk_split(c2, e));
}

/// Splitting by a one-entry table, spelled out.
pub proof fn lemma_split_entries_one(cs: Seq<ChunkModel>, e: EntryModel)
    ensures
        split_entries(cs, seq![e]) == split_each(cs, e),
{
    let es = seq![e];
    assert(es.drop_last() =~= Seq::<EntryModel>::empty());
    assert(split_entries(split_each(cs, e), es.drop_last()) == split_each(cs, e));
}

/// Splitting by a two-entry table: the second entry is applied first.
pub proof fn lemma_split_entries_two(cs: Seq<ChunkModel>, e0: EntryModel, e1: EntryModel)
    ensures
        split_entries(cs, seq![e0, e1]) == split_each(split_each(cs, e1), e0),
{
    let es = seq![e0, e1];
    assert(es.last() == e1);
    assert(es.drop_last() =~= seq![e0]);
    lemma_split_entries_one(split_each(cs, e1), e0);
}

/// A table none of whose keys occurs in the text splits it into the one
/// original chunk.
pub proof fn lemma_split_entries_absent(c: ChunkModel, es: Seq<EntryModel>)
    requires
        forall|k: int| 0 <= k < es.len() ==> !has_occurrence(c.prefix, #[trigger] es[k].name),
    ensures
        split_entries(seq![c], es) == seq![c],
    decreases es.len(),
{
    if es.len() > 0 {
        let e = es.last();
        assert(!has_occurrence(c.prefix, e.name));
        assert(forall|j: int| !(#[trigger] occurs_at(c.prefix, e.name, j)));
        lemma_find_fails(c.prefix, e.name, 0);
        lemma_chunk_split_absent(c, e);
        lemma_split_each_one(c, e);
        assert(forall|k: int|
            0 <= k < es.drop_last().len() ==> !has_occurrence(
                c.prefix,
                #[trigger] es.drop_last()[k].name,
            ));
        lemma_split_entries_absent(c, es.drop_last());
    }
}

/// Tiling a single chunk that carries no variants yields its text once.
pub proof fn lemma_tile_single_fixed(text: Seq<u8>)
    ensures
        tile_rows(
            seq![(ChunkModel { prefix: text, variants: seq![] })],
            tile_count(seq![(ChunkModel { prefix: text, variants: seq![] })]) as int,
        ) == text,
{
    let c = ChunkModel { prefix: text, variants: seq![] };
    let cs = seq![c];
    assert(cs.drop_last() =~= Seq::<ChunkModel>::empty());
    assert(max_variants(cs.drop_last()) == 0);
    assert(max_variants(cs) == 0);
    assert(tile_count(cs) == 1);
    assert(cs.subrange(1, 1) =~= Seq::<ChunkModel>::empty());
    assert(tile_row(cs.subrange(1, 1), 0) =~= Seq::<u8>::empty());
    assert(tile_row(cs, 0) =~= text);
    assert(tile_rows(cs, 0) =~= Seq::<u8>::empty());
    assert(tile_rows(cs, 1) =~= text);
}

/// Resolving a text in which no declared variable's key occurs returns
/// the text unchanged: tiling degenerates to a single copy. This is also
/// the declared behaviour of a value that references only itself or a
/// variable not yet declared: the table holds no key for it, and the
/// reference is left in the text unresolved.
pub proof fn lemma_resolve_no_references(text: Seq<u8>, es: Seq<EntryModel>)
    requires
        forall|k: int| 0 <= k < es.len() ==> !has_occurrence(text, #[trigger] es[k].name),
    ensures
        spec_duplicate(text, es) == text,
{
    let c = ChunkModel { prefix: text, variants: seq![] };
    lemma_split_entries_absent(c, es);
    lemma_tile_single_fixed(text);
}

/// A block with no declarations at all is returned unchanged after
/// serialization, as a single copy.
pub proof fn lemma_no_declarations(ts: Seq<Token>)
    requires
        !decl_starts(ts, 0),
    ensures
        spec_run(ts) == Ok::<Seq<u8>, crate::parser::ErrorModel>(ser_tokens(ts, true)),
{
    assert(spec_parse_all(ts, 0, Seq::<EntryModel>::empty()) == Ok::<_, crate::parser::ErrorModel>(
        (0int, Seq::<EntryModel>::empty()),
    ));
    assert(ts.subrange(0, ts.len() as int) =~= ts);
    lemma_resolve_no_references(ser_tokens(ts, true), Seq::<EntryModel>::empty());
}

/// An empty token sequence is no error: it yields empty output.
pub proof fn lemma_empty_input(ts: Seq<Token>)
    requires
        ts.len() == 0,
    ensures
        spec_run(ts) == Ok::<Seq<u8>, crate::parser::ErrorModel>(Seq::<u8>::empty()),
{
    lemma_no_declarations(ts);
    assert(ser_tokens(ts, true) == Seq::<u8>::empty());
}

/// The variant a list contributes to slot `i`: the one at `i`, or its last
/// one when the list is shorter.
pub open spec fn clamp_variant(vs: Seq<Seq<u8>>, i: int) -> Seq<u8>
    recommends
        vs.len() >= 1,
{
    if i < vs.len() {
        vs[i]
    } else {
        vs[vs.len() - 1]
    }
}

/// The copies `0..t` of a template with one substitution site:
/// `pre`, a variant, `post`, over and over.
pub open spec fn repeat_with(pre: Seq<u8>, vs: Seq<Seq<u8>>, post: Seq<u8>, t: int) -> Seq<u8>
    decreases t,
{
    if t <= 0 {
        seq![]
    } else {
        repeat_with(pre, vs, post, t - 1) + (pre + clamp_variant(vs, t - 1) + post)
    }
}

/// The copies `0..t` of a template with two substitution sites.
pub open spec fn padded_rows(
    p1: Seq<u8>,
    va: Seq<Seq<u8>>,
    p2: Seq<u8>,
    vb: Seq<Seq<u8>>,
    p3: Seq<u8>,
    t: int,
) -> Seq<u8>
    decreases t,
{
    if t <= 0 {
        seq![]
    } else {
        padded_rows(p1, va, p2, vb, p3, t - 1) + (p1 + clamp_variant(va, t - 1) + p2
            + clamp_variant(vb, t - 1) + p3)
    }
}

/// Tiling the two chunks of a single substitution site.
proof fn lemma_tile_two_chunks(pre: Seq<u8>, vs: Seq<Seq<u8>>, post: Seq<u8>, t: int)
    requires
        vs.len() >= 1,
        0 <= t,
    ensures
        tile_rows(
            seq![
                (ChunkModel { prefix: pre, variants: vs }),
                (ChunkModel { prefix: post, variants: seq![] }),
            ],
            t,
        ) == repeat_with(pre, vs, post, t),
    decreases t,
{
    let cs = seq![
        (ChunkModel { prefix: pre, variants: vs }),
        (ChunkModel { prefix: post, variants: seq![] }),
    ];
    if t > 0 {
        lemma_tile_two_chunks(pre, vs, post, t - 1);
        assert(cs.subrange(1, 2) =~= seq![(ChunkModel { prefix: post, variants: seq![] })]);
        assert(cs.subrange(1, 2).subrange(1, 1) =~= Seq::<ChunkModel>::empty());
        assert(tile_row(cs.subrange(1, 2).subrange(1, 1), t - 1) == Seq::<u8>::empty());
        assert(tile_row(cs.subrange(1, 2), t - 1) =~= post);
        assert(chunk_piece(cs[0], t - 1) == pre + clamp_variant(vs, t - 1));
        assert(tile_row(cs, t - 1) =~= pre + clamp_variant(vs, t - 1) + post);
        assert(tile_rows(cs, t) =~= repeat_with(pre, vs, post, t));
    }
}

/// Tiling the three chunks of two substitution sites.
proof fn lemma_tile_three_chunks(
    p1: Seq<u8>,
    va: Seq<Seq<u8>>,
    p2: Seq<u8>,
    vb: Seq<Seq<u8>>,
    p3: Seq<u8>,
    t: int,
)
    requires
        va.len() >= 1,
        vb.len() >= 1,
        0 <= t,
    ensures
        tile_rows(
            seq![
                (ChunkModel { prefix: p1, variants: va }),
                (ChunkModel { prefix: p2, variants: vb }),
                (ChunkModel { prefix: p3, variants: seq![] }),
            ],
            t,
        ) == padded_rows(p1, va, p2, vb, p3, t),
    decreases t,
{
    let cs = seq![
        (ChunkModel { prefix: p1, variants: va }),
        (ChunkModel { prefix: p2, variants: vb }),
        (ChunkModel { prefix: p3, variants: seq![] }),
    ];
    if t > 0 {
        lemma_tile_three_chunks(p1, va, p2, vb, p3, t - 1);
        let i = t - 1;
        let cs1 = cs.subrange(1, 3);
        let cs2 = cs1.subrange(1, 2);
        assert(cs1 =~= seq![cs[1], cs[2]]);
        assert(cs2 =~= seq![cs[2]]);
        assert(cs2.subrange(1, 1) =~= Seq::<ChunkModel>::empty());
        assert(tile_row(cs2.subrange(1, 1), i) == Seq::<u8>::empty());
        assert(tile_row(cs2, i) =~= p3);
        assert(chunk_piece(cs[1], i) == p2 + clamp_variant(vb, i));
        assert(tile_row(cs1, i) =~= p2 + clamp_variant(vb, i) + p3);
        assert(chunk_piece(cs[0], i) == p1 + clamp_variant(va, i));
        assert(tile_row(cs, i) =~= p1 + clamp_variant(va, i) + p2 + clamp_variant(vb, i) + p3);
        assert(tile_rows(cs, t) =~= padded_rows(p1, va, p2, vb, p3, t));
    }
}

/// Basic tiling: a template referencing one variable once expands to one
/// copy per variant, the template text with that variant substituted in
/// turn.
pub proof fn lemma_basic_tiling(pre: Seq<u8>, name: Seq<u8>, vs: Seq<Seq<u8>>, post: Seq<u8>)
    requires
        name.len() >= 1,
        vs.len() >= 1,
        forall|i: int| #[trigger] occurs_at(pre + name + post, name, i) <==> i == pre.len(),
    ensures
        spec_duplicate(pre + name + post, seq![(EntryModel { name, values: vs })]) == repeat_with(
            pre,
            vs,
            post,
            vs.len() as int,
        ),
{
    let text = pre + name + post;
    let e = EntryModel { name, values: vs };
    let c = ChunkModel { prefix: text, variants: seq![] };
    lemma_split_entries_one(seq![c], e);
    lemma_split_each_one(c, e);
    lemma_chunk_split_single(c, e, pre.len() as int);
    let c1 = ChunkModel { prefix: text.take(pre.len() as int), variants: vs };
    let c2 = ChunkModel {
        prefix: text.skip(pre.len() + name.len() as int),
        variants: Seq::<Seq<u8>>::empty(),
    };
    assert(text.take(pre.len() as int) =~= pre);
    assert(text.skip(pre.len() + name.len() as int) =~= post);
    let cs = seq![
        (ChunkModel { prefix: pre, variants: vs }),
        (ChunkModel { prefix: post, variants: seq![] }),
    ];
    assert(c1 =~~= cs[0]);
    assert(c2 =~~= cs[1]);
    assert(split_entries(seq![c], seq![e]) =~~= cs);
    assert(cs.drop_last() =~= seq![cs[0]]);
    assert(seq![cs[0]].drop_last() =~= Seq::<ChunkModel>::empty());
    assert(max_variants(Seq::<ChunkModel>::empty()) == 0);
    assert(seq![cs[0]].last() == cs[0]);
    assert(max_variants(seq![cs[0]]) == vs.len());
    assert(max_variants(cs) == vs.len());
    assert(tile_count(cs) == vs.len());
    lemma_tile_two_chunks(pre, vs, post, vs.len() as int);
}

/// The sorted table holding exactly two distinct variables, whichever
/// order they were declared in.
pub open spec fn two_entries(ea: EntryModel, eb: EntryModel) -> Seq<EntryModel> {
    if lex_lt(ea.name, eb.name) {
        seq![ea, eb]
    } else {
        seq![eb, ea]
    }
}

/// Declaring two variables with distinct names builds the two-entry table,
/// in either declaration order.
pub proof fn lemma_two_inserts(ea: EntryModel, eb: EntryModel)
    requires
        ea.name != eb.name,
    ensures
        insert_entry(insert_entry(Seq::<EntryModel>::empty(), ea), eb) == two_entries(ea, eb),
        insert_entry(insert_entry(Seq::<EntryModel>::empty(), eb), ea) == two_entries(ea, eb),
{
    if !lex_lt(ea.name, eb.name) && !lex_lt(eb.name, ea.name) {
        crate::bytes::lemma_lex_connex(ea.name, eb.name);
    }
    let only_a = insert_entry(Seq::<EntryModel>::empty(), ea);
    let only_b = insert_entry(Seq::<EntryModel>::empty(), eb);
    assert(only_a =~= seq![ea]);
    assert(only_b =~= seq![eb]);
    assert(seq![ea].subrange(1, 1) =~= Seq::<EntryModel>::empty());
    assert(seq![eb].subrange(1, 1) =~= Seq::<EntryModel>::empty());
    if lex_lt(ea.name, eb.name) {
        crate::bytes::lemma_lex_asym(ea.name, eb.name);
        assert(insert_entry(seq![ea], eb) =~= seq![ea] + insert_entry(
            seq![ea].subrange(1, 1),
            eb,
        ));
        assert(insert_entry(seq![ea], eb) =~= seq![ea, eb]);
        assert(insert_entry(seq![eb], ea) =~= seq![ea, eb]);
    } else {
        assert(insert_entry(seq![eb], ea) =~= seq![eb] + insert_entry(
            seq![eb].subrange(1, 1),
            ea,
        ));
        assert(insert_entry(seq![eb], ea) =~= seq![eb, ea]);
        assert(insert_entry(seq![ea], eb) =~= seq![eb, ea]);
    }
}

/// Short-list padding: a template referencing two variables once each
/// expands to one copy per slot of the longer variant list, the shorter
/// list repeating its final variant for the remaining slots.
pub proof fn lemma_short_list_padding(
    p1: Seq<u8>,
    na: Seq<u8>,
    va: Seq<Seq<u8>>,
    p2: Seq<u8>,
    nb: Seq<u8>,
    vb: Seq<Seq<u8>>,
    p3: Seq<u8>,
)
    requires
        na.len() >= 1,
        nb.len() >= 1,
        va.len() >= 1,
        vb.len() >= 1,
        forall|i: int|
            #[trigger] occurs_at(p1 + na + p2 + nb + p3, na, i) <==> i == p1.len(),
        forall|i: int|
            #[trigger] occurs_at(p1 + na + p2 + nb + p3, nb, i) <==> i == p1.len() + na.len()
                + p2.len(),
    ensures
        spec_duplicate(
            p1 + na + p2 + nb + p3,
            two_entries(
                (EntryModel { name: na, values: va }),
                (EntryModel { name: nb, values: vb }),
            ),
        ) == padded_rows(
            p1,
            va,
            p2,
            vb,
            p3,
            if va.len() >= vb.len() {
                va.len() as int
            } else {
                vb.len() as int
            },
        ),
{
    let text = p1 + na + p2 + nb + p3;
    let ea = EntryModel { name: na, values: va };
    let eb = EntryModel { name: nb, values: vb };
    let q = p1.len() + na.len() + p2.len() as int;
    let c = ChunkModel { prefix: text, variants: seq![] };
    let cs = seq![
        (ChunkModel { prefix: p1, variants: va }),
        (ChunkModel { prefix: p2, variants: vb }),
        (ChunkModel { prefix: p3, variants: seq![] }),
    ];
    if lex_lt(ea.name, eb.name) {
        lemma_split_entries_two(seq![c], ea, eb);
        lemma_split_each_one(c, eb);
        lemma_chunk_split_single(c, eb, q);
        let d1 = ChunkModel { prefix: text.take(q), variants: vb };
        let d2 = ChunkModel { prefix: text.skip(q + nb.len() as int), variants: seq![] };
        assert(text.take(q) =~= p1 + na + p2);
        assert(text.skip(q + nb.len() as int) =~= p3);
        assert(split_each(seq![c], eb) =~~= seq![
            (ChunkModel { prefix: p1 + na + p2, variants: vb }),
            (ChunkModel { prefix: p3, variants: seq![] }),
        ]);
        let d1n = ChunkModel { prefix: p1 + na + p2, variants: vb };
        let d2n = ChunkModel { prefix: p3, variants: seq![] };
        lemma_split_each_two(d1n, d2n, ea);
        // na occurs in p1 + na + p2 exactly at p1.len()
        lemma_occurs_take(text, na, q);
        assert(forall|i: int|
            #[trigger] occurs_at(p1 + na + p2, na, i) <==> occurs_at(text.take(q), na, i));
        assert(forall|i: int| #[trigger] occurs_at(p1 + na + p2, na, i) <==> i == p1.len());
        lemma_chunk_split_single(d1n, ea, p1.len() as int);
        assert((p1 + na + p2).take(p1.len() as int) =~= p1);
        assert((p1 + na + p2).skip(p1.len() + na.len() as int) =~= p2);
        // na does not occur in p3
        lemma_occurs_skip(text, na, q + nb.len() as int);
        assert forall|j: int| !(#[trigger] occurs_at(p3, na, j)) by {
            if 0 <= j {
                assert(occurs_at(text.skip(q + nb.len() as int), na, j) <==> occurs_at(
                    text,
                    na,
                    q + nb.len() + j,
                ));
                assert(occurs_at(p3, na, j) <==> occurs_at(text.skip(q + nb.len() as int), na, j));
            }
        }
        lemma_find_fails(p3, na, 0);
        lemma_chunk_split_absent(d2n, ea);
        assert(split_entries(seq![c], seq![ea, eb]) =~~= cs);
        assert(two_entries(ea, eb) == seq![ea, eb]);
    } else {
        lemma_split_entries_two(seq![c], eb, ea);
        lemma_split_each_one(c, ea);
        lemma_chunk_split_single(c, ea, p1.len() as int);
        assert(text.take(p1.len() as int) =~= p1);
        assert(text.skip(p1.len() + na.len() as int) =~= p2 + nb + p3);
        assert(split_each(seq![c], ea) =~~= seq![
            (ChunkModel { prefix: p1, variants: va }),
            (ChunkModel { prefix: p2 + nb + p3, variants: seq![] }),
        ]);
        let d1n = ChunkModel { prefix: p1, variants: va };
        let d2n = ChunkModel { prefix: p2 + nb + p3, variants: seq![] };
        lemma_split_each_two(d1n, d2n, eb);
        // nb does not occur in p1
        lemma_occurs_take(text, nb, p1.len() as int);
        assert forall|j: int| !(#[trigger] occurs_at(p1, nb, j)) by {
            assert(occurs_at(p1, nb, j) <==> occurs_at(text.take(p1.len() as int), nb, j));
            if occurs_at(text, nb, j) && j + nb.len() <= p1.len() {
                assert(j == q);
            }
        }
        lemma_find_fails(p1, nb, 0);
        lemma_chunk_split_absent(d1n, eb);
        // nb occurs in p2 + nb + p3 exactly at p2.len()
        lemma_occurs_skip(text, nb, p1.len() + na.len() as int);
        assert forall|j: int|
            #[trigger] occurs_at(p2 + nb + p3, nb, j) <==> j == p2.len() by {
            if 0 <= j {
                assert(occurs_at(text.skip(p1.len() + na.len() as int), nb, j) <==> occurs_at(
                    text,
                    nb,
                    p1.len() + na.len() + j,
                ));
                assert(occurs_at(p2 + nb + p3, nb, j) <==> occurs_at(
                    text.skip(p1.len() + na.len() as int),
                    nb,
                    j,
                ));
            }
        }
        lemma_chunk_split_single(d2n, eb, p2.len() as int);
        assert((p2 + nb + p3).take(p2.len() as int) =~= p2);
        assert((p2 + nb + p3).skip(p2.len() + nb.len() as int) =~= p3);
        assert(split_entries(seq![c], seq![eb, ea]) =~~= cs);
        assert(two_entries(ea, eb) == seq![eb, ea]);
    }
    assert(cs.drop_last() =~= seq![cs[0], cs[1]]);
    assert(seq![cs[0], cs[1]].drop_last() =~= seq![cs[0]]);
    assert(seq![cs[0]].drop_last() =~= Seq::<ChunkModel>::empty());
    assert(max_variants(Seq::<ChunkModel>::empty()) == 0);
    assert(seq![cs[0]].last() == cs[0]);
    assert(seq![cs[0], cs[1]].last() == cs[1]);
    assert(max_variants(seq![cs[0]]) == va.len());
    assert(max_variants(seq![cs[0], cs[1]]) == if va.len() >= vb.len() {
        va.len()
    } else {
        vb.len()
    });
    assert(max_variants(cs) == if va.len() >= vb.len() {
        va.len()
    } else {
        vb.len()
    });
    let t = if va.len() >= vb.len() {
        va.len() as int
    } else {
        vb.len() as int
    };
    assert(tile_count(cs) == t);
    lemma_tile_three_chunks(p1, va, p2, vb, p3, t);
}

/// Name-prefix disambiguation: when one variable's name is a proper prefix
/// of another's and the template references the longer one, the longer
/// one's variants are substituted; the shorter variable plays no part.
pub proof fn lemma_prefix_disambiguation(
    p1: Seq<u8>,
    na: Seq<u8>,
    va: Seq<Seq<u8>>,
    nb: Seq<u8>,
    vb: Seq<Seq<u8>>,
    p2: Seq<u8>,
)
    requires
        na.len() >= 1,
        vb.len() >= 1,
        na.len() < nb.len(),
        nb.subrange(0, na.len() as int) == na,
        forall|i: int| #[trigger] occurs_at(p1 + nb + p2, nb, i) <==> i == p1.len(),
        forall|i: int| #[trigger] occurs_at(p1 + nb + p2, na, i) <==> i == p1.len(),
    ensures
        spec_duplicate(
            p1 + nb + p2,
            two_entries(
                (EntryModel { name: na, values: va }),
                (EntryModel { name: nb, values: vb }),
            ),
        ) == repeat_with(p1, vb, p2, vb.len() as int),
{
    let text = p1 + nb + p2;
    let ea = EntryModel { name: na, values: va };
    let eb = EntryModel { name: nb, values: vb };
    crate::bytes::lemma_lex_proper_prefix(na, nb);
    assert(two_entries(ea, eb) == seq![ea, eb]);
    let c = ChunkModel { prefix: text, variants: seq![] };
    lemma_split_entries_two(seq![c], ea, eb);
    lemma_split_each_one(c, eb);
    lemma_chunk_split_single(c, eb, p1.len() as int);
    assert(text.take(p1.len() as int) =~= p1);
    assert(text.skip(p1.len() + nb.len() as int) =~= p2);
    let d1n = ChunkModel { prefix: p1, variants: vb };
    let d2n = ChunkModel { prefix: p2, variants: seq![] };
    assert(split_each(seq![c], eb) =~~= seq![d1n, d2n]);
    lemma_split_each_two(d1n, d2n, ea);
    // na does not occur in p1: an occurrence there would be one in the
    // text strictly before p1.len().
    lemma_occurs_take(text, na, p1.len() as int);
    assert forall|j: int| !(#[trigger] occurs_at(p1, na, j)) by {
        assert(occurs_at(p1, na, j) <==> occurs_at(text.take(p1.len() as int), na, j));
        if occurs_at(text, na, j) && j + na.len() <= p1.len() {
            assert(j == p1.len());
        }
    }
    lemma_find_fails(p1, na, 0);
    lemma_chunk_split_absent(d1n, ea);
    // na does not occur in p2: an occurrence there would be one in the
    // text strictly after p1.len().
    lemma_occurs_skip(text, na, p1.len() + nb.len() as int);
    assert forall|j: int| !(#[trigger] occurs_at(p2, na, j)) by {
        if 0 <= j {
            assert(occurs_at(text.skip(p1.len() + nb.len() as int), na, j) <==> occurs_at(
                text,
                na,
                p1.len() + nb.len() + j,
            ));
            assert(occurs_at(p2, na, j) <==> occurs_at(
                text.skip(p1.len() + nb.len() as int),
                na,
                j,
            ));
        }
    }
    lemma_find_fails(p2, na, 0);
    lemma_chunk_split_absent(d2n, ea);
    let cs = seq![
        (ChunkModel { prefix: p1, variants: vb }),
        (ChunkModel { prefix: p2, variants: seq![] }),
    ];
    assert(split_entries(seq![c], seq![ea, eb]) =~~= cs);
    assert(cs.drop_last() =~= seq![cs[0]]);
    assert(seq![cs[0]].drop_last() =~= Seq::<ChunkModel>::empty());
    assert(max_variants(Seq::<ChunkModel>::empty()) == 0);
    assert(seq![cs[0]].last() == cs[0]);
    assert(max_variants(seq![cs[0]]) == vb.len());
    assert(max_variants(cs) == vb.len());
    assert(tile_count(cs) == vb.len());
    lemma_tile_two_chunks(p1, vb, p2, vb.len() as int);
}

/// A variant written as the sentinel `NONE` stores the empty string, not
/// the text of the sentinel; at its slots the chunk contributes only its
/// fixed prefix.
pub proof fn lemma_none_yields_empty(run: Seq<Token>, es: Seq<EntryModel>, c: ChunkModel, i: int)
    requires
        0 <= i,
        crate::parser::run_text(run) == crate::parser::none_keyword(),
    ensures
        crate::parser::run_variant(run, es) == Seq::<u8>::empty(),
        c.variants == seq![Seq::<u8>::empty()] ==> chunk_piece(c, i) == c.prefix,
{
    assert(crate::parser::run_variant(run, es) =~= Seq::<u8>::empty());
    if c.variants == seq![Seq::<u8>::empty()] {
        assert(c.variants[0] == Seq::<u8>::empty());
        assert(chunk_piece(c, i) =~= c.prefix);
    }
}

} // verus!
