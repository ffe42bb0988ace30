//! Byte-string utilities: substring occurrence and search, splitting a
//! text at every occurrence of a pattern, and lexicographic order on byte
//! strings.

use vstd::prelude::*;

verus! {

/// `pat` occurs as a substring of `text` starting at index `i`.
pub open spec fn occurs_at(text: Seq<u8>, pat: Seq<u8>, i: int) -> bool {
    &&& 0 <= i
    &&& i + pat.len() <= text.len()
    &&& text.subrange(i, i + pat.len() as int) == pat
}

/// `pat` occurs somewhere in `text`.
pub open spec fn has_occurrence(text: Seq<u8>, pat: Seq<u8>) -> bool {
    exists|i: int| occurs_at(text, pat, i)
}

/// Index of the leftmost occurrence of `pat` in `text` at or after `from`.
pub open spec fn find_at_or_after(text: Seq<u8>, pat: Seq<u8>, from: int) -> Option<int>
    decreases text.len() - from,
{
    if from < 0 || from + pat.len() > text.len() {
        None
    } else if occurs_at(text, pat, from) {
        Some(from)
    } else {
        proof {
            if pat.len() == 0 {
                assert(text.subrange(from, from + pat.len() as int) =~= pat);
            }
        }
        find_at_or_after(text, pat, from + 1)
    }
}

/// Index of the leftmost occurrence of `pat` in `text`.
pub open spec fn first_occurrence(text: Seq<u8>, pat: Seq<u8>) -> Option<int> {
    find_at_or_after(text, pat, 0)
}

/// A found index is an occurrence, lies at or after `from`, and nothing
/// between `from` and it is an occurrence.
pub proof fn lemma_find_some(text: Seq<u8>, pat: Seq<u8>, from: int, i: int)
    requires
        find_at_or_after(text, pat, from) == Some(i),
    ensures
        from <= i,
        occurs_at(text, pat, i),
        forall|j: int| from <= j < i ==> !occurs_at(text, pat, j),
    decreases text.len() - from,
{
    if 0 <= from && from + pat.len() <= text.len() && pat.len() == 0 {
        assert(text.subrange(from, from + pat.len() as int) =~= pat);
    }
    if !(from < 0 || from + pat.len() > text.len()) && !occurs_at(text, pat, from) {
        lemma_find_some(text, pat, from + 1, i);
    }
}

/// When the search fails, no occurrence lies at or after `from`.
pub proof fn lemma_find_none(text: Seq<u8>, pat: Seq<u8>, from: int)
    requires
        0 <= from,
        find_at_or_after(text, pat, from) is None,
    ensures
        forall|j: int| from <= j ==> !occurs_at(text, pat, j),
    decreases text.len() - from,
{
    if 0 <= from && from + pat.len() <= text.len() && pat.len() == 0 {
        assert(text.subrange(from, from + pat.len() as int) =~= pat);
    }
    if from + pat.len() <= text.len() && !occurs_at(text, pat, from) {
        lemma_find_none(text, pat, from + 1);
    }
}

/// An occurrence with no occurrence before it is what the search finds.
pub proof fn lemma_find_exact(text: Seq<u8>, pat: Seq<u8>, from: int, i: int)
    requires
        0 <= from <= i,
        occurs_at(text, pat, i),
        forall|j: int| from <= j < i ==> !occurs_at(text, pat, j),
    ensures
        find_at_or_after(text, pat, from) == Some(i),
    decreases i - from,
{
    if from < i {
        lemma_find_exact(text, pat, from + 1, i);
    }
}

/// No occurrence at or after `from` means the search fails.
pub proof fn lemma_find_fails(text: Seq<u8>, pat: Seq<u8>, from: int)
    requires
        forall|j: int| from <= j ==> !occurs_at(text, pat, j),
    ensures
        find_at_or_after(text, pat, from) is None,
    decreases text.len() - from,
{
    if 0 <= from && from + pat.len() <= text.len() && pat.len() == 0 {
        assert(text.subrange(from, from + pat.len() as int) =~= pat);
    }
    if !(from < 0 || from + pat.len() > text.len()) && !occurs_at(text, pat, from) {
        lemma_find_fails(text, pat, from + 1);
    }
}

/// The pieces of `text` between consecutive leftmost occurrences of `pat`,
/// scanning left to right; an empty pattern splits nothing.
pub open spec fn split_on(text: Seq<u8>, pat: Seq<u8>) -> Seq<Seq<u8>>
    decreases text.len(),
{
    if pat.len() == 0 {
        seq![text]
    } else {
        match first_occurrence(text, pat) {
            Option::None => seq![text],
            Option::Some(i) => {
                proof {
                    lemma_find_some(text, pat, 0, i);
                }
                seq![text.subrange(0, i)] + split_on(
                    text.subrange(i + pat.len() as int, text.len() as int),
                    pat,
                )
            },
        }
    }
}

/// The split always yields at least one piece.
pub proof fn lemma_split_on_len(text: Seq<u8>, pat: Seq<u8>)
    ensures
        split_on(text, pat).len() >= 1,
    decreases text.len(),
{
    if pat.len() != 0 {
        match first_occurrence(text, pat) {
            Option::None => {},
            Option::Some(i) => {
                lemma_find_some(text, pat, 0, i);
                lemma_split_on_len(text.subrange(i + pat.len() as int, text.len() as int), pat);
            },
        }
    }
}

/// Exec search for the leftmost occurrence of `pat` at or after `from`.
pub fn find_from(text: &Vec<u8>, pat: &Vec<u8>, from: usize) -> (r: Option<usize>)
    ensures
        match r {
            Option::Some(i) => find_at_or_after(text@, pat@, from as int) == Some(i as int),
            Option::None => find_at_or_after(text@, pat@, from as int) is None,
        },
{
    if pat.len() > text.len() || from > text.len() - pat.len() {
        proof {
            lemma_find_fails(text@, pat@, from as int);
        }
        return None;
    }
    let mut i: usize = from;
    loop
        invariant
            text@.len() <= usize::MAX,
            pat@.len() <= text@.len(),
            from <= i <= text@.len() - pat@.len(),
            forall|j: int| from <= j < i ==> !occurs_at(text@, pat@, j),
        decreases text@.len() - pat@.len() - i,
    {
        let mut j: usize = 0;
        let mut matched = true;
        proof {
            assert(text@.subrange(i as int, i as int) =~= pat@.subrange(0, 0));
        }
        while j < pat.len()
            invariant
                text@.len() <= usize::MAX,
                i + pat@.len() <= text@.len(),
                j <= pat@.len(),
                matched ==> text@.subrange(i as int, i + j as int) == pat@.subrange(0, j as int),
                !matched ==> j == pat@.len() && text@.subrange(i as int, i + pat@.len())
                    != pat@.subrange(0, pat@.len() as int),
            decreases pat@.len() - j,
        {
            if text[i + j] != pat[j] {
                proof {
                    assert(text@.subrange(i as int, i + pat@.len())[j as int] == text@[i + j]);
                    assert(pat@.subrange(0, pat@.len() as int)[j as int] == pat@[j as int]);
                }
                matched = false;
                j = pat.len();
            } else {
                proof {
                    assert(text@.subrange(i as int, i + j + 1) =~= text@.subrange(
                        i as int,
                        i + j as int,
                    ).push(text@[i + j]));
                    assert(pat@.subrange(0, j + 1) =~= pat@.subrange(0, j as int).push(
                        pat@[j as int],
                    ));
                }
                j = j + 1;
            }
        }
        proof {
            assert(pat@.subrange(0, pat@.len() as int) =~= pat@);
        }
        if matched {
            proof {
                lemma_find_exact(text@, pat@, from as int, i as int);
            }
            return Some(i);
        }
        if i == text.len() - pat.len() {
            proof {
                lemma_find_fails(text@, pat@, from as int);
            }
            return None;
        }
        i = i + 1;
    }
}

/// A copy of `src[start..end]`.
pub fn sub_bytes(src: &Vec<u8>, start: usize, end: usize) -> (r: Vec<u8>)
    requires
        start <= end <= src@.len(),
    ensures
        r@ == src@.subrange(start as int, end as int),
{
    let mut r: Vec<u8> = Vec::new();
    let mut k: usize = start;
    while k < end
        invariant
            start <= k <= end <= src@.len(),
            r@ == src@.subrange(start as int, k as int),
        decreases end - k,
    {
        r.push(src[k]);
        proof {
            assert(src@.subrange(start as int, k + 1) =~= src@.subrange(start as int, k as int).push(
                src@[k as int],
            ));
        }
        k = k + 1;
    }
    r
}

/// A copy of the whole of `src`.
pub fn copy_bytes(src: &Vec<u8>) -> (r: Vec<u8>)
    ensures
        r@ == src@,
{
    let r = sub_bytes(src, 0, src.len());
    proof {
        assert(src@.subrange(0, src@.len() as int) =~= src@);
    }
    r
}

/// The views of a sequence of byte vectors.
pub open spec fn views_of(vs: Seq<Vec<u8>>) -> Seq<Seq<u8>> {
    Seq::new(vs.len(), |i: int| vs[i]@)
}

/// A copy of a list of byte strings.
pub fn copy_values(src: &Vec<Vec<u8>>) -> (r: Vec<Vec<u8>>)
    ensures
        views_of(r@) == views_of(src@),
{
    let mut r: Vec<Vec<u8>> = Vec::new();
    let mut k: usize = 0;
    while k < src.len()
        invariant
            k <= src@.len(),
            r@.len() == k,
            forall|j: int| 0 <= j < k ==> r@[j]@ == src@[j]@,
        decreases src@.len() - k,
    {
        r.push(copy_bytes(&src[k]));
        k = k + 1;
    }
    proof {
        assert(views_of(r@) =~= views_of(src@));
    }
    r
}

/// Whether two byte strings hold the same bytes.
pub fn bytes_eq(a: &Vec<u8>, b: &Vec<u8>) -> (r: bool)
    ensures
        r <==> a@ == b@,
{
    if a.len() != b.len() {
        return false;
    }
    let mut k: usize = 0;
    while k < a.len()
        invariant
            k <= a@.len() == b@.len(),
            forall|j: int| 0 <= j < k ==> a@[j] == b@[j],
        decreases a@.len() - k,
    {
        if a[k] != b[k] {
            return false;
        }
        k = k + 1;
    }
    proof {
        assert(a@ =~= b@);
    }
    true
}

/// Strict lexicographic order on byte strings: compare byte by byte, a
/// proper prefix coming before every extension of it.
pub open spec fn lex_lt(a: Seq<u8>, b: Seq<u8>) -> bool
    decreases a.len(),
{
    if b.len() == 0 {
        false
    } else if a.len() == 0 {
        true
    } else if a[0] < b[0] {
        true
    } else if a[0] > b[0] {
        false
    } else {
        lex_lt(a.drop_first(), b.drop_first())
    }
}

/// Two byte strings with neither below the other are equal.
pub proof fn lemma_lex_connex(a: Seq<u8>, b: Seq<u8>)
    requires
        !lex_lt(a, b),
        !lex_lt(b, a),
    ensures
        a == b,
    decreases a.len(),
{
    if a.len() != 0 && b.len() != 0 && a[0] == b[0] {
        lemma_lex_connex(a.drop_first(), b.drop_first());
        assert(a =~= seq![a[0]] + a.drop_first());
        assert(b =~= seq![b[0]] + b.drop_first());
    }
}

/// The order is asymmetric.
pub proof fn lemma_lex_asym(a: Seq<u8>, b: Seq<u8>)
    requires
        lex_lt(a, b),
    ensures
        !lex_lt(b, a),
    decreases a.len(),
{
    if a.len() != 0 && b.len() != 0 && a[0] == b[0] {
        lemma_lex_asym(a.drop_first(), b.drop_first());
    }
}

/// The order is transitive.
pub proof fn lemma_lex_trans(a: Seq<u8>, b: Seq<u8>, c: Seq<u8>)
    requires
        lex_lt(a, b),
        lex_lt(b, c),
    ensures
        lex_lt(a, c),
    decreases a.len(),
{
    if a.len() != 0 && b.len() != 0 && c.len() != 0 && a[0] == b[0] && b[0] == c[0] {
        lemma_lex_trans(a.drop_first(), b.drop_first(), c.drop_first());
    }
}

/// A proper prefix comes strictly before every extension of it.
pub proof fn lemma_lex_proper_prefix(a: Seq<u8>, b: Seq<u8>)
    requires
        a.len() < b.len(),
        b.subrange(0, a.len() as int) == a,
    ensures
        lex_lt(a, b),
    decreases a.len(),
{
    if a.len() != 0 {
        assert(b.subrange(0, a.len() as int)[0] == b[0]);
        assert(b.drop_first().subrange(0, a.drop_first().len() as int) =~= a.drop_first());
        lemma_lex_proper_prefix(a.drop_first(), b.drop_first());
    }
}

/// Exec comparison deciding the lexicographic order.
pub fn lex_lt_bytes(a: &Vec<u8>, b: &Vec<u8>) -> (r: bool)
    ensures
        r <==> lex_lt(a@, b@),
{
    proof {
        assert(a@.skip(0) =~= a@);
        assert(b@.skip(0) =~= b@);
    }
    let mut k: usize = 0;
    loop
        invariant
            k <= a@.len(),
            k <= b@.len(),
            lex_lt(a@, b@) == lex_lt(a@.skip(k as int), b@.skip(k as int)),
        decreases a@.len() - k,
    {
        if k == b.len() {
            return false;
        }
        if k == a.len() {
            return true;
        }
        proof {
            assert(a@.skip(k as int)[0] == a@[k as int]);
            assert(b@.skip(k as int)[0] == b@[k as int]);
        }
        let x = a[k];
        let y = b[k];
        if x < y {
            return true;
        }
        if x > y {
            return false;
        }
        proof {
            assert(a@.skip(k as int).drop_first() =~= a@.skip(k + 1));
            assert(b@.skip(k as int).drop_first() =~= b@.skip(k + 1));
        }
        k = k + 1;
    }
}

} // verus!
