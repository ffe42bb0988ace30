//! The duplication engine.
//!
//! A flat template text is decomposed into an ordered sequence of chunks: a
//! fixed text prefix plus the variant list of the variable whose key was
//! found right after it (the final chunk carries no variants). The engine
//! then tiles the chunks: the template is repeated once per slot, each
//! chunk contributing its prefix and the variant for that slot, a short
//! list repeating its last variant.

use crate::bytes::copy_bytes;
use crate::bytes::copy_values;
use crate::bytes::find_at_or_after;
use crate::bytes::find_from;
use crate::bytes::first_occurrence;
use crate::bytes::lemma_find_exact;
use crate::bytes::lemma_find_fails;
use crate::bytes::lemma_find_none;
use crate::bytes::lemma_find_some;
use crate::bytes::lemma_split_on_len;
use crate::bytes::occurs_at;
use crate::bytes::split_on;
use crate::bytes::sub_bytes;
use crate::bytes::views_of;
use crate::table::EntryModel;
use crate::table::VarTable;
use vstd::prelude::*;

verus! {

/// The mathematical model of a chunk.
#[verifier::ext_equal]
pub struct ChunkModel {
    /// The fixed text emitted before the substitution site.
    pub prefix: Seq<u8>,
    /// The variants of the variable referenced right after the prefix;
    /// empty when no substitution happens here.
    pub variants: Seq<Seq<u8>>,
}

/// A substitution chunk: a fixed piece of text followed by zero or more
/// text variants.
#[derive(Debug)]
pub struct Chunk {
    /// The fixed text emitted before the substitution site.
    pub prefix: Vec<u8>,
    /// The variants substituted after the prefix, one per slot.
    pub suffix_variants: Vec<Vec<u8>>,
}

impl View for Chunk {
    type V = ChunkModel;

    open spec fn view(&self) -> ChunkModel {
        ChunkModel { prefix: self.prefix@, variants: views_of(self.suffix_variants@) }
    }
}

/// The models of a sequence of chunks.
pub open spec fn chunk_models(cs: Seq<Chunk>) -> Seq<ChunkModel> {
    Seq::new(cs.len(), |i: int| cs[i]@)
}

/// The text a chunk contributes to slot `i`: its prefix, then the variant
/// at `i`, clamped to the last one when the list is shorter.
pub open spec fn chunk_piece(c: ChunkModel, i: int) -> Seq<u8> {
    if c.variants.len() == 0 {
        c.prefix
    } else if i < c.variants.len() {
        c.prefix + c.variants[i]
    } else {
        c.prefix + c.variants[c.variants.len() - 1]
    }
}

/// Splitting one chunk at every occurrence of a variable's key: each piece
/// of the prefix but the last is followed by that variable's variants; the
/// last piece keeps what the chunk had.
pub open spec fn chunk_split(c: ChunkModel, e: EntryModel) -> Seq<ChunkModel> {
    let ps = split_on(c.prefix, e.name);
    Seq::new(
        ps.len(),
        |i: int|
            ChunkModel {
                prefix: ps[i],
                variants: if i == ps.len() - 1 {
                    c.variants
                } else {
                    e.values
                },
            },
    )
}

/// Splitting every chunk of a sequence by one variable.
pub open spec fn split_each(cs: Seq<ChunkModel>, e: EntryModel) -> Seq<ChunkModel>
    decreases cs.len(),
{
    if cs.len() == 0 {
        seq![]
    } else {
        chunk_split(cs[0], e) + split_each(cs.subrange(1, cs.len() as int), e)
    }
}

/// Splitting by every entry of a table, the lexicographically greatest key
/// first, so that a key is consumed before any proper prefix of it.
pub open spec fn split_entries(cs: Seq<ChunkModel>, es: Seq<EntryModel>) -> Seq<ChunkModel>
    decreases es.len(),
{
    if es.len() == 0 {
        cs
    } else {
        split_entries(split_each(cs, es.last()), es.drop_last())
    }
}

/// The longest variant list among the chunks.
pub open spec fn max_variants(cs: Seq<ChunkModel>) -> nat
    decreases cs.len(),
{
    if cs.len() == 0 {
        0
    } else {
        let h = max_variants(cs.drop_last());
        let l = cs.last().variants.len();
        if l > h {
            l
        } else {
            h
        }
    }
}

/// How many copies the tiling makes: one per slot of the longest variant
/// list, and a single copy when no chunk carries variants.
pub open spec fn tile_count(cs: Seq<ChunkModel>) -> nat {
    if max_variants(cs) == 0 {
        1
    } else {
        max_variants(cs)
    }
}

/// One copy of the template: every chunk's piece for slot `i`, in order.
pub open spec fn tile_row(cs: Seq<ChunkModel>, i: int) -> Seq<u8>
    decreases cs.len(),
{
    if cs.len() == 0 {
        seq![]
    } else {
        chunk_piece(cs[0], i) + tile_row(cs.subrange(1, cs.len() as int), i)
    }
}

/// The copies for slots `0..t`, concatenated in order.
pub open spec fn tile_rows(cs: Seq<ChunkModel>, t: int) -> Seq<u8>
    decreases t,
{
    if t <= 0 {
        seq![]
    } else {
        tile_rows(cs, t - 1) + tile_row(cs, t - 1)
    }
}

/// The whole engine on flat text: split the template into chunks by every
/// declared variable, then tile.
pub open spec fn spec_duplicate(text: Seq<u8>, es: Seq<EntryModel>) -> Seq<u8> {
    let cs = split_entries(seq![ChunkModel { prefix: text, variants: seq![] }], es);
    tile_rows(cs, tile_count(cs) as int)
}

/// A chunk whose prefix holds no occurrence of the key splits into itself.
pub proof fn lemma_chunk_split_absent(c: ChunkModel, e: EntryModel)
    requires
        e.name.len() == 0 || first_occurrence(c.prefix, e.name) is None,
    ensures
        chunk_split(c, e) == seq![c],
{
    assert(chunk_split(c, e) =~~= seq![c]);
}

/// Splitting a chunk whose prefix holds the key at leftmost position `i`:
/// the piece before the key carries the entry's variants, and the rest of
/// the prefix goes on being split.
pub proof fn lemma_chunk_split_step(c: ChunkModel, e: EntryModel, i: int)
    requires
        e.name.len() >= 1,
        first_occurrence(c.prefix, e.name) == Some(i),
    ensures
        chunk_split(c, e) == seq![
            ChunkModel { prefix: c.prefix.subrange(0, i), variants: e.values },
        ] + chunk_split(
            ChunkModel {
                prefix: c.prefix.subrange(i + e.name.len() as int, c.prefix.len() as int),
                variants: c.variants,
            },
            e,
        ),
{
    lemma_find_some(c.prefix, e.name, 0, i);
    let rest = c.prefix.subrange(i + e.name.len() as int, c.prefix.len() as int);
    lemma_split_on_len(rest, e.name);
    assert(split_on(c.prefix, e.name) == seq![c.prefix.subrange(0, i)] + split_on(rest, e.name));
    assert(chunk_split(c, e) =~~= seq![
        ChunkModel { prefix: c.prefix.subrange(0, i), variants: e.values },
    ] + chunk_split(ChunkModel { prefix: rest, variants: c.variants }, e));
}

/// The leftmost occurrence in a tail of the text, as the full text sees it.
pub proof fn lemma_find_shift(text: Seq<u8>, pat: Seq<u8>, pos: int)
    requires
        0 <= pos <= text.len(),
    ensures
        match find_at_or_after(text, pat, pos) {
            Option::Some(i) => first_occurrence(text.skip(pos), pat) == Some(i - pos),
            Option::None => first_occurrence(text.skip(pos), pat) is None,
        },
{
    let tail = text.skip(pos);
    assert forall|j: int| 0 <= j implies occurs_at(tail, pat, j) == occurs_at(
        text,
        pat,
        pos + j,
    ) by {
        if 0 <= j && j + pat.len() <= tail.len() {
            assert(tail.subrange(j, j + pat.len() as int) =~= text.subrange(
                pos + j,
                pos + j + pat.len() as int,
            ));
        }
    }
    match find_at_or_after(text, pat, pos) {
        Option::Some(i) => {
            lemma_find_some(text, pat, pos, i);
            lemma_find_exact(tail, pat, 0, i - pos);
        },
        Option::None => {
            lemma_find_none(text, pat, pos);
            lemma_find_fails(tail, pat, 0);
        },
    }
}

impl Chunk {
    /// A chunk holding a fixed piece of text and no variants.
    pub fn new(prefix: Vec<u8>) -> (r: Chunk)
        ensures
            r@ == (ChunkModel { prefix: prefix@, variants: Seq::<Seq<u8>>::empty() }),
    {
        let r = Chunk { prefix, suffix_variants: Vec::new() };
        proof {
            assert(views_of(r.suffix_variants@) =~= Seq::<Seq<u8>>::empty());
            assert(r@ =~~= (ChunkModel { prefix: r.prefix@, variants: Seq::<Seq<u8>>::empty() }));
        }
        r
    }

    /// How many variants this chunk can substitute.
    pub fn times(&self) -> (r: usize)
        ensures
            r == self@.variants.len(),
    {
        self.suffix_variants.len()
    }

    /// Appends to `out` the text this chunk contributes to slot `i`.
    pub fn push_to_string(&self, i: usize, out: &mut Vec<u8>)
        ensures
            final(out)@ == old(out)@ + chunk_piece(self@, i as int),
    {
        crate::token::push_bytes(out, &self.prefix);
        if self.suffix_variants.len() > 0 {
            let idx = if i < self.suffix_variants.len() {
                i
            } else {
                self.suffix_variants.len() - 1
            };
            crate::token::push_bytes(out, &self.suffix_variants[idx]);
            proof {
                assert(self@.variants[idx as int] == self.suffix_variants@[idx as int]@);
                assert(old(out)@ + self@.prefix + self@.variants[idx as int] =~= old(out)@
                    + chunk_piece(self@, i as int));
            }
        }
    }

    /// The length of the text this chunk contributes to slots `0..times`,
    /// clamped to `usize::MAX` when it does not fit.
    pub fn total_len(&self, times: usize) -> (r: usize)
        ensures
            tile_span(self@, times as int) <= usize::MAX ==> r == tile_span(self@, times as int),
            tile_span(self@, times as int) > usize::MAX ==> r == usize::MAX,
    {
        let mut r: usize = 0;
        let mut i: usize = 0;
        while i < times
            invariant
                i <= times,
                tile_span(self@, i as int) <= usize::MAX ==> r == tile_span(self@, i as int),
                tile_span(self@, i as int) > usize::MAX ==> r == usize::MAX,
            decreases times - i,
        {
            let piece_len = if self.suffix_variants.len() == 0 {
                self.prefix.len()
            } else {
                let idx = if i < self.suffix_variants.len() {
                    i
                } else {
                    self.suffix_variants.len() - 1
                };
                let vlen = self.suffix_variants[idx].len();
                proof {
                    assert(self@.variants[idx as int] == self.suffix_variants@[idx as int]@);
                }
                sat_add(self.prefix.len(), vlen)
            };
            proof {
                assert(chunk_piece(self@, i as int).len() == if self@.variants.len() == 0 {
                    self@.prefix.len()
                } else if i < self@.variants.len() {
                    self@.prefix.len() + self@.variants[i as int].len()
                } else {
                    self@.prefix.len() + self@.variants[self@.variants.len() - 1].len()
                });
            }
            r = sat_add(r, piece_len);
            i = i + 1;
        }
        r
    }

    /// Splits this chunk at every occurrence of a variable's key.
    pub fn split_by_var(&self, var_name: &Vec<u8>, var_values: &Vec<Vec<u8>>) -> (r: Vec<Chunk>)
        ensures
            chunk_models(r@) == chunk_split(
                self@,
                (EntryModel { name: var_name@, values: views_of(var_values@) }),
            ),
    {
        let ghost e = EntryModel { name: var_name@, values: views_of(var_values@) };
        let mut r: Vec<Chunk> = Vec::new();
        if var_name.len() == 0 {
            r.push(
                Chunk {
                    prefix: copy_bytes(&self.prefix),
                    suffix_variants: copy_values(&self.suffix_variants),
                },
            );
            proof {
                lemma_chunk_split_absent(self@, e);
                assert(chunk_models(r@) =~~= chunk_split(self@, e));
            }
            return r;
        }
        let n = self.prefix.len();
        let mut pos: usize = 0;
        proof {
            assert(self.prefix@.skip(0) =~= self.prefix@);
            assert((ChunkModel { prefix: self.prefix@.skip(0), variants: self@.variants })
                =~~= self@);
            assert(chunk_models(r@) =~= Seq::<ChunkModel>::empty());
            assert(Seq::<ChunkModel>::empty() + chunk_split(self@, e) =~= chunk_split(self@, e));
        }
        loop
            invariant
                n == self.prefix@.len(),
                pos <= n,
                var_name@.len() >= 1,
                e == (EntryModel { name: var_name@, values: views_of(var_values@) }),
                chunk_split(self@, e) == chunk_models(r@) + chunk_split(
                    (ChunkModel {
                        prefix: self.prefix@.skip(pos as int),
                        variants: self@.variants,
                    }),
                    e,
                ),
            decreases self.prefix@.len() - pos,
        {
            let ghost rem = ChunkModel {
                prefix: self.prefix@.skip(pos as int),
                variants: self@.variants,
            };
            match find_from(&self.prefix, var_name, pos) {
                Option::Some(found) => {
                    proof {
                        lemma_find_some(self.prefix@, var_name@, pos as int, found as int);
                        lemma_find_shift(self.prefix@, var_name@, pos as int);
                        lemma_chunk_split_step(rem, e, found - pos);
                    }
                    let piece = sub_bytes(&self.prefix, pos, found);
                    let next_pos = found + var_name.len();
                    proof {
                        assert(rem.prefix.subrange(0, found - pos) =~= self.prefix@.subrange(
                            pos as int,
                            found as int,
                        ));
                        assert(rem.prefix.subrange(
                            found - pos + var_name@.len() as int,
                            rem.prefix.len() as int,
                        ) =~= self.prefix@.skip(next_pos as int));
                    }
                    r.push(Chunk { prefix: piece, suffix_variants: copy_values(var_values) });
                    proof {
                        assert(chunk_models(r@) =~~= chunk_models(r@.drop_last()) + seq![
                            (ChunkModel {
                                prefix: self.prefix@.subrange(pos as int, found as int),
                                variants: e.values,
                            }),
                        ]);
                        assert(chunk_split(self@, e) =~~= chunk_models(r@) + chunk_split(
                            (ChunkModel {
                                prefix: self.prefix@.skip(next_pos as int),
                                variants: self@.variants,
                            }),
                            e,
                        ));
                    }
                    pos = next_pos;
                },
                Option::None => {
                    proof {
                        lemma_find_shift(self.prefix@, var_name@, pos as int);
                        lemma_chunk_split_absent(rem, e);
                    }
                    let piece = sub_bytes(&self.prefix, pos, n);
                    r.push(
                        Chunk {
                            prefix: piece,
                            suffix_variants: copy_values(&self.suffix_variants),
                        },
                    );
                    proof {
                        assert(self.prefix@.subrange(pos as int, self.prefix@.len() as int)
                            =~= rem.prefix);
                        assert(chunk_models(r@) =~~= chunk_models(r@.drop_last()) + seq![rem]);
                        assert(chunk_models(r@) =~~= chunk_split(self@, e));
                    }
                    return r;
                },
            }
        }
    }

    /// Splits this chunk by every variable of the table, the greatest key
    /// first, each produced chunk being split in turn by the keys after it.
    pub fn split_by_vars(self, vars: &VarTable) -> (r: Vec<Chunk>)
        ensures
            chunk_models(r@) == split_entries(seq![self@], vars@),
    {
        let ghost c0 = self@;
        let mut chunks: Vec<Chunk> = Vec::new();
        chunks.push(self);
        proof {
            assert(chunk_models(chunks@) =~~= seq![c0]);
            assert(vars@.subrange(vars@.len() as int, vars@.len() as int)
                =~= Seq::<EntryModel>::empty());
        }
        let mut k: usize = vars.len();
        while k > 0
            invariant
                k <= vars@.len(),
                vars@.len() == vars.entries@.len(),
                chunk_models(chunks@) == split_entries(
                    seq![c0],
                    vars@.subrange(k as int, vars@.len() as int),
                ),
            decreases k,
        {
            k = k - 1;
            let ghost e = vars@[k as int];
            let ghost before = chunk_models(chunks@);
            proof {
                assert(vars.entries@[k as int]@ == e);
            }
            let mut next: Vec<Chunk> = Vec::new();
            let mut j: usize = 0;
            proof {
                assert(chunk_models(chunks@).take(0) =~= Seq::<ChunkModel>::empty());
                assert(chunk_models(next@) =~= split_each(chunk_models(chunks@).take(0), e));
            }
            while j < chunks.len()
                invariant
                    j <= chunks@.len(),
                    vars@.len() == vars.entries@.len(),
                    k < vars@.len(),
                    e == vars@[k as int],
                    vars.entries@[k as int]@ == e,
                    chunk_models(next@) == split_each(chunk_models(chunks@).take(j as int), e),
                decreases chunks@.len() - j,
            {
                let mut pieces = (&chunks[j]).split_by_var(
                    &vars.entries[k].name,
                    &vars.entries[k].values,
                );
                proof {
                    assert(chunk_models(pieces@) == chunk_split(chunks@[j as int]@, e));
                }
                let ghost old_next = next@;
                next.append(&mut pieces);
                proof {
                    let cs = chunk_models(chunks@);
                    lemma_split_each_append(cs.take(j as int), seq![cs[j as int]], e);
                    assert(cs.take(j + 1) =~= cs.take(j as int) + seq![cs[j as int]]);
                    assert(split_each(seq![cs[j as int]], e) =~~= chunk_split(cs[j as int], e)) by {
                        let single = seq![cs[j as int]];
                        assert(single.subrange(1, 1) =~= Seq::<ChunkModel>::empty());
                        assert(split_each(single.subrange(1, 1), e) =~= Seq::<
                            ChunkModel,
                        >::empty());
                        assert(single[0] == cs[j as int]);
                    }
                    assert(cs[j as int] == chunks@[j as int]@);
                    assert(chunk_models(next@) =~~= split_each(cs.take(j + 1), e));
                }
                j = j + 1;
            }
            proof {
                assert(before.take(before.len() as int) =~= before);
                assert(chunk_models(next@) == split_each(before, e));
            }
            chunks = next;
            proof {
                let sub_k = vars@.subrange(k as int, vars@.len() as int);
                let tail = vars@.subrange(k + 1, vars@.len() as int);
                lemma_split_entries_front(seq![c0], sub_k);
                assert(sub_k.subrange(1, sub_k.len() as int) =~= tail);
                assert(sub_k[0] == e);
                assert(chunk_models(chunks@) == split_entries(seq![c0], sub_k));
            }
        }
        proof {
            assert(vars@.subrange(0, vars@.len() as int) =~= vars@);
        }
        chunks
    }
}

/// Saturating addition on `usize`.
fn sat_add(a: usize, b: usize) -> (r: usize)
    ensures
        a + b <= usize::MAX ==> r == a + b,
        a + b > usize::MAX ==> r == usize::MAX,
{
    if a > usize::MAX - b {
        usize::MAX
    } else {
        a + b
    }
}

/// The length of the text a chunk contributes to slots `0..t`.
pub open spec fn tile_span(c: ChunkModel, t: int) -> nat
    decreases t,
{
    if t <= 0 {
        0
    } else {
        tile_span(c, t - 1) + chunk_piece(c, t - 1).len()
    }
}

/// A copy's text distributes over concatenation of chunk sequences.
pub proof fn lemma_tile_row_append(a: Seq<ChunkModel>, b: Seq<ChunkModel>, i: int)
    ensures
        tile_row(a + b, i) == tile_row(a, i) + tile_row(b, i),
    decreases a.len(),
{
    if a.len() == 0 {
        assert(a + b =~= b);
        assert(tile_row(a, i) =~= Seq::<u8>::empty());
        assert(tile_row(a, i) + tile_row(b, i) =~= tile_row(b, i));
    } else {
        lemma_tile_row_append(a.subrange(1, a.len() as int), b, i);
        assert((a + b).subrange(1, (a + b).len() as int) =~= a.subrange(1, a.len() as int) + b);
        assert((a + b)[0] == a[0]);
        assert(tile_row(a + b, i) =~= tile_row(a, i) + tile_row(b, i));
    }
}

/// Expands the template: the text is split into chunks at every variable
/// reference, then tiled once per slot, left to right within each copy.
pub fn duplicate(stream: &Vec<u8>, vars: &VarTable) -> (out: Vec<u8>)
    ensures
        out@ == spec_duplicate(stream@, vars@),
{
    let first = Chunk::new(copy_bytes(stream));
    let ghost cs_init = seq![ChunkModel { prefix: stream@, variants: seq![] }];
    proof {
        assert(seq![first@] =~~= cs_init);
    }
    let chunks = first.split_by_vars(vars);
    let ghost cs = chunk_models(chunks@);
    let mut m: usize = 0;
    let mut j: usize = 0;
    proof {
        assert(cs.take(0) =~= Seq::<ChunkModel>::empty());
    }
    while j < chunks.len()
        invariant
            j <= chunks@.len(),
            cs == chunk_models(chunks@),
            m == max_variants(cs.take(j as int)),
        decreases chunks@.len() - j,
    {
        let t = (&chunks[j]).times();
        proof {
            let p1 = cs.take(j + 1);
            assert(p1.drop_last() =~= cs.take(j as int));
            assert(p1.last() == cs[j as int]);
            assert(cs[j as int] == chunks@[j as int]@);
        }
        if t > m {
            m = t;
        }
        j = j + 1;
    }
    proof {
        assert(cs.take(cs.len() as int) =~= cs);
    }
    let times: usize = if m == 0 {
        1
    } else {
        m
    };
    let mut cap: usize = 0;
    let mut jc: usize = 0;
    while jc < chunks.len()
        invariant
            jc <= chunks@.len(),
        decreases chunks@.len() - jc,
    {
        cap = sat_add(cap, (&chunks[jc]).total_len(times));
        jc = jc + 1;
    }
    let mut out: Vec<u8> = Vec::with_capacity(cap);
    let mut i: usize = 0;
    while i < times
        invariant
            i <= times,
            cs == chunk_models(chunks@),
            times == tile_count(cs),
            out@ == tile_rows(cs, i as int),
        decreases times - i,
    {
        let ghost row_start = out@;
        let mut j2: usize = 0;
        proof {
            assert(cs.take(0) =~= Seq::<ChunkModel>::empty());
            assert(row_start + tile_row(cs.take(0), i as int) =~= row_start);
        }
        while j2 < chunks.len()
            invariant
                j2 <= chunks@.len(),
                cs == chunk_models(chunks@),
                i < times == tile_count(cs),
                row_start == tile_rows(cs, i as int),
                out@ == row_start + tile_row(cs.take(j2 as int), i as int),
            decreases chunks@.len() - j2,
        {
            (&chunks[j2]).push_to_string(i, &mut out);
            proof {
                lemma_tile_row_append(cs.take(j2 as int), seq![cs[j2 as int]], i as int);
                assert(cs.take(j2 + 1) =~= cs.take(j2 as int) + seq![cs[j2 as int]]);
                assert(tile_row(seq![cs[j2 as int]], i as int) =~= chunk_piece(
                    cs[j2 as int],
                    i as int,
                )) by {
                    let single = seq![cs[j2 as int]];
                    assert(single.subrange(1, 1) =~= Seq::<ChunkModel>::empty());
                    assert(tile_row(single.subrange(1, 1), i as int) =~= Seq::<u8>::empty());
                }
                assert(cs[j2 as int] == chunks@[j2 as int]@);
                assert(out@ =~= row_start + tile_row(cs.take(j2 + 1), i as int));
            }
            j2 = j2 + 1;
        }
        proof {
            assert(cs.take(cs.len() as int) =~= cs);
            assert(out@ == tile_rows(cs, i + 1));
        }
        i = i + 1;
    }
    out
}

/// Splitting distributes over concatenation of chunk sequences.
pub proof fn lemma_split_each_append(a: Seq<ChunkModel>, b: Seq<ChunkModel>, e: EntryModel)
    ensures
        split_each(a + b, e) == split_each(a, e) + split_each(b, e),
    decreases a.len(),
{
    if a.len() == 0 {
        assert(a + b =~= b);
        assert(split_each(a, e) =~= Seq::<ChunkModel>::empty());
        assert(split_each(a, e) + split_each(b, e) =~= split_each(b, e));
    } else {
        lemma_split_each_append(a.subrange(1, a.len() as int), b, e);
        assert((a + b).subrange(1, (a + b).len() as int) =~= a.subrange(1, a.len() as int) + b);
        assert((a + b)[0] == a[0]);
        assert(split_each(a + b, e) =~~= split_each(a, e) + split_each(b, e));
    }
}

/// Splitting by a table applies its last entry first and its first entry
/// last: unrolling from the front.
pub proof fn lemma_split_entries_front(cs: Seq<ChunkModel>, es: Seq<EntryModel>)
    requires
        es.len() >= 1,
    ensures
        split_entries(cs, es) == split_each(
            split_entries(cs, es.subrange(1, es.len() as int)),
            es[0],
        ),
    decreases es.len(),
{
    if es.len() == 1 {
        assert(es.drop_last() =~= Seq::<EntryModel>::empty());
        assert(es.subrange(1, es.len() as int) =~= Seq::<EntryModel>::empty());
        let x = split_each(cs, es.last());
        assert(split_entries(x, es.drop_last()) == x);
        assert(split_entries(cs, es) == x);
        assert(es.last() == es[0]);
        assert(split_entries(cs, es.subrange(1, es.len() as int)) == cs);
    } else {
        let tail = es.subrange(1, es.len() as int);
        lemma_split_entries_front(split_each(cs, es.last()), es.drop_last());
        assert(es.drop_last()[0] == es[0]);
        assert(es.drop_last().subrange(1, es.drop_last().len() as int) =~= tail.drop_last());
        assert(tail.last() == es.last());
        lemma_split_entries_front_aux(cs, tail);
    }
}

/// Helper: the two unrollings of `split_entries` agree on the tail.
proof fn lemma_split_entries_front_aux(cs: Seq<ChunkModel>, tail: Seq<EntryModel>)
    requires
        tail.len() >= 1,
    ensures
        split_entries(cs, tail) == split_entries(split_each(cs, tail.last()), tail.drop_last()),
{
}

} // verus!
