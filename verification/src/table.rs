//! The variable table: an ordered mapping from a variable's key (the sigil
//! followed by its name) to its fully resolved variant list.
//!
//! Entries are kept sorted by key in strictly ascending lexicographic
//! order, so that walking the table backwards visits keys in descending
//! order; inserting a key a second time overwrites its variants.

use crate::bytes::bytes_eq;
use crate::bytes::lemma_lex_connex;
use crate::bytes::lemma_lex_trans;
use crate::bytes::lex_lt;
use crate::bytes::lex_lt_bytes;
use crate::bytes::views_of;
use vstd::prelude::*;

verus! {

/// The mathematical model of one table entry.
#[verifier::ext_equal]
pub struct EntryModel {
    /// The key searched for in template text: the sigil followed by the
    /// variable's name.
    pub name: Seq<u8>,
    /// The resolved variants, in declaration order.
    pub values: Seq<Seq<u8>>,
}

/// One declared variable.
#[derive(Debug)]
pub struct VarEntry {
    /// The key searched for in template text.
    pub name: Vec<u8>,
    /// The resolved variants, in declaration order.
    pub values: Vec<Vec<u8>>,
}

impl View for VarEntry {
    type V = EntryModel;

    open spec fn view(&self) -> EntryModel {
        EntryModel { name: self.name@, values: views_of(self.values@) }
    }
}

/// The keys are strictly ascending: every pair of entries is ordered.
pub open spec fn entries_sorted(es: Seq<EntryModel>) -> bool {
    forall|i: int, j: int|
        0 <= i < j < es.len() ==> #[trigger] lex_lt(es[i].name, es[j].name)
}

/// Where a new entry lands in a sorted entry sequence: before the first
/// key not below it, replacing that key when it is the same.
pub open spec fn insert_entry(es: Seq<EntryModel>, e: EntryModel) -> Seq<EntryModel>
    decreases es.len(),
{
    if es.len() == 0 {
        seq![e]
    } else if lex_lt(es[0].name, e.name) {
        seq![es[0]] + insert_entry(es.subrange(1, es.len() as int), e)
    } else if es[0].name == e.name {
        seq![e] + es.subrange(1, es.len() as int)
    } else {
        seq![e] + es
    }
}

/// `insert_entry` in closed form, at the position the insertion loop finds.
pub proof fn lemma_insert_entry_at(es: Seq<EntryModel>, e: EntryModel, k: int)
    requires
        0 <= k <= es.len(),
        forall|i: int| 0 <= i < k ==> #[trigger] lex_lt(es[i].name, e.name),
        k < es.len() ==> !lex_lt(es[k].name, e.name),
    ensures
        k < es.len() && es[k].name == e.name ==> insert_entry(es, e) == es.take(k) + seq![e]
            + es.skip(k + 1),
        !(k < es.len() && es[k].name == e.name) ==> insert_entry(es, e) == es.take(k) + seq![e]
            + es.skip(k),
    decreases k,
{
    if k == 0 {
        if es.len() == 0 {
            assert(insert_entry(es, e) =~= es.take(0) + seq![e] + es.skip(0));
        } else if es[0].name == e.name {
            assert(insert_entry(es, e) =~= es.take(0) + seq![e] + es.skip(1));
        } else {
            assert(insert_entry(es, e) =~= es.take(0) + seq![e] + es.skip(0));
        }
    } else {
        assert(lex_lt(es[0].name, e.name));
        let tail = es.subrange(1, es.len() as int);
        assert(forall|i: int| 0 <= i < k - 1 ==> #[trigger] lex_lt(tail[i].name, e.name)) by {
            assert(forall|i: int| 0 <= i < k - 1 ==> tail[i] == es[i + 1]);
        }
        lemma_insert_entry_at(tail, e, k - 1);
        if k < es.len() && es[k].name == e.name {
            assert(tail[k - 1].name == e.name);
            assert(seq![es[0]] + (tail.take(k - 1) + seq![e] + tail.skip(k)) =~= es.take(k)
                + seq![e] + es.skip(k + 1));
        } else {
            if k - 1 < tail.len() {
                assert(tail[k - 1] == es[k as int]);
            }
            assert(seq![es[0]] + (tail.take(k - 1) + seq![e] + tail.skip(k - 1)) =~= es.take(k)
                + seq![e] + es.skip(k));
        }
    }
}

/// Replacing an entry by one with the same key keeps the keys sorted.
proof fn lemma_sorted_replace(es: Seq<EntryModel>, e: EntryModel, k: int)
    requires
        entries_sorted(es),
        0 <= k < es.len(),
        es[k].name == e.name,
    ensures
        entries_sorted(es.take(k) + seq![e] + es.skip(k + 1)),
{
    let r = es.take(k) + seq![e] + es.skip(k + 1);
    assert forall|i: int, j: int| 0 <= i < j < r.len() implies #[trigger] lex_lt(
        r[i].name,
        r[j].name,
    ) by {
        assert(r[i].name == es[i].name);
        assert(r[j].name == es[j].name);
        assert(lex_lt(es[i].name, es[j].name));
    }
}

/// Inserting between the keys below and the keys above keeps them sorted.
proof fn lemma_sorted_inserted(es: Seq<EntryModel>, e: EntryModel, k: int)
    requires
        entries_sorted(es),
        0 <= k <= es.len(),
        forall|i: int| 0 <= i < k ==> #[trigger] lex_lt(es[i].name, e.name),
        k < es.len() ==> lex_lt(e.name, es[k].name),
    ensures
        entries_sorted(es.take(k) + seq![e] + es.skip(k)),
{
    let r = es.take(k) + seq![e] + es.skip(k);
    assert forall|i: int, j: int| 0 <= i < j < r.len() implies #[trigger] lex_lt(
        r[i].name,
        r[j].name,
    ) by {
        if i < k {
            assert(r[i] == es[i]);
        } else if i == k {
            assert(r[i] == e);
        } else {
            assert(r[i] == es[i - 1]);
        }
        if j < k {
            assert(r[j] == es[j]);
        } else if j == k {
            assert(r[j] == e);
        } else {
            assert(r[j] == es[j - 1]);
        }
        if j > k && j - 1 > k {
            assert(lex_lt(es[k as int].name, es[j - 1].name));
            lemma_lex_trans(e.name, es[k as int].name, es[j - 1].name);
        }
        if i < k && j > k {
            lemma_lex_trans(es[i].name, e.name, es[j - 1].name);
        }
        if i < k && j < k {
            assert(lex_lt(es[i].name, es[j].name));
        }
        if i > k && j > k {
            assert(lex_lt(es[i - 1].name, es[j - 1].name));
        }
    }
}

/// The ordered table of declared variables.
#[derive(Debug)]
pub struct VarTable {
    /// The entries, sorted by key.
    pub entries: Vec<VarEntry>,
}

impl View for VarTable {
    type V = Seq<EntryModel>;

    open spec fn view(&self) -> Seq<EntryModel> {
        Seq::new(self.entries@.len(), |i: int| self.entries@[i]@)
    }
}

impl VarTable {
    /// The table's invariant: its keys are strictly ascending.
    pub open spec fn wf(&self) -> bool {
        entries_sorted(self@)
    }

    /// An empty table.
    pub fn new() -> (r: VarTable)
        ensures
            r@ == Seq::<EntryModel>::empty(),
            r.wf(),
    {
        let r = VarTable { entries: Vec::new() };
        proof {
            assert(r@ =~= Seq::<EntryModel>::empty());
        }
        r
    }

    /// How many variables are declared.
    pub fn len(&self) -> (r: usize)
        ensures
            r == self@.len(),
    {
        self.entries.len()
    }

    /// Binds a key to its variants, keeping the keys sorted; a key bound
    /// before loses its old variants.
    pub fn insert(&mut self, name: Vec<u8>, values: Vec<Vec<u8>>)
        requires
            old(self).wf(),
        ensures
            final(self).wf(),
            final(self)@ == insert_entry(
                old(self)@,
                (EntryModel { name: name@, values: views_of(values@) }),
            ),
    {
        let ghost es = self@;
        let ghost e = EntryModel { name: name@, values: views_of(values@) };
        let mut k: usize = 0;
        loop
            invariant
                k <= es.len(),
                self@ == es,
                self.entries@.len() == es.len(),
                old(self)@ == es,
                self.wf(),
                forall|i: int| 0 <= i < k ==> #[trigger] lex_lt(es[i].name, name@),
            ensures
                k <= es.len(),
                self@ == es,
                self.entries@.len() == es.len(),
                forall|i: int| 0 <= i < k ==> #[trigger] lex_lt(es[i].name, name@),
                k < es.len() ==> !lex_lt(es[k as int].name, name@),
            decreases es.len() - k,
        {
            if k == self.entries.len() {
                break;
            }
            let below = lex_lt_bytes(&self.entries[k].name, &name);
            proof {
                assert(self.entries@[k as int]@.name == es[k as int].name);
            }
            if !below {
                break;
            }
            k = k + 1;
        }
        proof {
            lemma_insert_entry_at(es, e, k as int);
        }
        let same = if k < self.entries.len() {
            let r = bytes_eq(&self.entries[k].name, &name);
            proof {
                assert(self.entries@[k as int]@.name == es[k as int].name);
            }
            r
        } else {
            false
        };
        if same {
            self.entries.set(k, VarEntry { name, values });
            proof {
                assert(self@ =~~= es.take(k as int) + seq![e] + es.skip(k as int + 1));
                lemma_sorted_replace(es, e, k as int);
            }
        } else {
            proof {
                if k < es.len() {
                    if !lex_lt(e.name, es[k as int].name) {
                        lemma_lex_connex(es[k as int].name, e.name);
                    }
                }
            }
            self.entries.insert(k, VarEntry { name, values });
            proof {
                assert(self@ =~~= es.take(k as int) + seq![e] + es.skip(k as int));
                lemma_sorted_inserted(es, e, k as int);
            }
        }
    }
}

} // verus!
