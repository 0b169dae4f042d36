//! The stats aggregator: per-subtype annotation counts, per page and for
//! the whole document, with the subtype columns in byte order.

use vstd::prelude::*;
use crate::objects::{DocView, ObjId, PdfDocument, byte_views, bytes_eq, bytes_in, clone_bytes, lemma_byte_views_push};
use crate::annots::{annot_ids, read_annotation_ids, annotation_subtype, subtype_of};

verus! {

/// The subtypes of the given annotations, in order.
pub open spec fn subtypes_list(d: DocView, ids: Seq<ObjId>) -> Seq<Seq<u8>> {
    ids.map_values(|a: ObjId| subtype_of(d, a))
}

/// The subtypes of the annotations of page `i`, in array order.
pub open spec fn page_subtypes(d: DocView, i: int) -> Seq<Seq<u8>> {
    subtypes_list(d, annot_ids(d, d.pages[i]))
}

/// How many entries of a list are the given byte string.
pub open spec fn count_eq(l: Seq<Seq<u8>>, s: Seq<u8>) -> nat
    decreases l.len(),
{
    if l.len() == 0 {
        0
    } else {
        count_eq(l.drop_last(), s) + if l.last() == s { 1nat } else { 0nat }
    }
}

/// How many annotations of subtype `s` page `i` carries.
pub open spec fn page_count(d: DocView, i: int, s: Seq<u8>) -> nat {
    count_eq(page_subtypes(d, i), s)
}

/// The subtypes of every annotation of the first `n` pages, page by page.
pub open spec fn all_subtypes_upto(d: DocView, n: int) -> Seq<Seq<u8>>
    decreases n,
{
    if n <= 0 {
        Seq::empty()
    } else {
        all_subtypes_upto(d, n - 1) + page_subtypes(d, n - 1)
    }
}

/// The subtypes of every annotation of the document, page by page.
pub open spec fn doc_subtypes(d: DocView) -> Seq<Seq<u8>> {
    all_subtypes_upto(d, d.pages.len() as int)
}

/// How many annotations of subtype `s` the whole document carries.
pub open spec fn total_count(d: DocView, s: Seq<u8>) -> nat {
    count_eq(doc_subtypes(d), s)
}

/// The sum of the per-page counts of subtype `s` over the first `n` pages.
pub open spec fn page_count_sum(d: DocView, s: Seq<u8>, n: int) -> nat
    decreases n,
{
    if n <= 0 {
        0
    } else {
        page_count_sum(d, s, n - 1) + page_count(d, n - 1, s)
    }
}

/// Counting over two lists in a row counts each once.
pub proof fn lemma_count_eq_concat(l1: Seq<Seq<u8>>, l2: Seq<Seq<u8>>, s: Seq<u8>)
    ensures
        count_eq(l1 + l2, s) == count_eq(l1, s) + count_eq(l2, s),
    decreases l2.len(),
{
    if l2.len() == 0 {
        assert(l1 + l2 =~= l1);
    } else {
        assert((l1 + l2).drop_last() =~= l1 + l2.drop_last());
        assert((l1 + l2).last() == l2.last());
        lemma_count_eq_concat(l1, l2.drop_last(), s);
    }
}

/// The combined count of a subtype equals the sum of its per-page
/// counts: the two shapes of the stats report agree on every subtype.
pub proof fn lemma_combined_equals_page_sum(d: DocView, s: Seq<u8>)
    ensures
        total_count(d, s) == page_count_sum(d, s, d.pages.len() as int),
{
    lemma_sum_upto(d, s, d.pages.len() as int);
}

proof fn lemma_sum_upto(d: DocView, s: Seq<u8>, n: int)
    ensures
        count_eq(all_subtypes_upto(d, n), s) == page_count_sum(d, s, n),
    decreases n,
{
    if n > 0 {
        lemma_sum_upto(d, s, n - 1);
        lemma_count_eq_concat(all_subtypes_upto(d, n - 1), page_subtypes(d, n - 1), s);
    }
}

/// A list holds a string exactly when the string's count in it is not zero.
pub proof fn lemma_count_eq_contains(l: Seq<Seq<u8>>, s: Seq<u8>)
    ensures
        count_eq(l, s) > 0 <==> l.contains(s),
    decreases l.len(),
{
    if l.len() > 0 {
        lemma_count_eq_contains(l.drop_last(), s);
        if l.last() == s {
            assert(l[l.len() - 1] == s);
        } else {
            if count_eq(l, s) > 0 {
                let j = choose|j: int| 0 <= j < l.drop_last().len() && l.drop_last()[j] == s;
                assert(l[j] == s);
            }
            if l.contains(s) {
                let j = choose|j: int| 0 <= j < l.len() && l[j] == s;
                assert(l.drop_last()[j] == s);
            }
        }
    }
}

/// Byte-wise lexicographic order: `a` at or before `b`.
pub open spec fn lex_le(a: Seq<u8>, b: Seq<u8>) -> bool
    decreases a.len(),
{
    if a.len() == 0 {
        true
    } else if b.len() == 0 {
        false
    } else if a[0] < b[0] {
        true
    } else if a[0] > b[0] {
        false
    } else {
        lex_le(a.subrange(1, a.len() as int), b.subrange(1, b.len() as int))
    }
}

/// The order is total.
pub proof fn lemma_lex_total(a: Seq<u8>, b: Seq<u8>)
    ensures
        lex_le(a, b) || lex_le(b, a),
    decreases a.len(),
{
    if a.len() > 0 && b.len() > 0 && a[0] == b[0] {
        lemma_lex_total(a.subrange(1, a.len() as int), b.subrange(1, b.len() as int));
    }
}

/// The order holds both ways only between equal strings.
pub proof fn lemma_lex_antisym(a: Seq<u8>, b: Seq<u8>)
    requires
        lex_le(a, b),
        lex_le(b, a),
    ensures
        a == b,
    decreases a.len(),
{
    if a.len() == 0 {
        assert(b.len() == 0);
        assert(a =~= b);
    } else {
        assert(b.len() > 0);
        assert(a[0] == b[0]);
        lemma_lex_antisym(a.subrange(1, a.len() as int), b.subrange(1, b.len() as int));
        assert(a.subrange(1, a.len() as int).len() == b.subrange(1, b.len() as int).len());
        assert forall|i: int| 0 <= i < a.len() implies a[i] == b[i] by {
            if i > 0 {
                assert(a.subrange(1, a.len() as int)[i - 1] == b.subrange(1, b.len() as int)[i - 1]);
            }
        }
        assert(a =~= b);
    }
}

/// Compares two byte vectors in lexicographic order.
pub fn lex_le_bytes(a: &Vec<u8>, b: &Vec<u8>) -> (r: bool)
    ensures
        r == lex_le(a@, b@),
{
    let mut i: usize = 0;
    proof {
        assert(a@.subrange(0, a@.len() as int) =~= a@);
        assert(b@.subrange(0, b@.len() as int) =~= b@);
    }
    while i < a.len() && i < b.len()
        invariant
            i <= a.len(),
            i <= b.len(),
            lex_le(a@, b@) == lex_le(a@.subrange(i as int, a@.len() as int), b@.subrange(i as int, b@.len() as int)),
        decreases a.len() - i,
    {
        let ghost ai = a@.subrange(i as int, a@.len() as int);
        let ghost bi = b@.subrange(i as int, b@.len() as int);
        if a[i] < b[i] {
            return true;
        }
        if a[i] > b[i] {
            return false;
        }
        i += 1;
        proof {
            assert(ai[0] == a@[i - 1]);
            assert(bi[0] == b@[i - 1]);
            assert(ai.subrange(1, ai.len() as int) =~= a@.subrange(i as int, a@.len() as int));
            assert(bi.subrange(1, bi.len() as int) =~= b@.subrange(i as int, b@.len() as int));
        }
    }
    proof {
        let ai = a@.subrange(i as int, a@.len() as int);
        let bi = b@.subrange(i as int, b@.len() as int);
        if i >= a.len() {
            assert(ai.len() == 0);
        } else {
            assert(bi.len() == 0);
            assert(ai.len() > 0);
        }
    }
    i >= a.len()
}

/// Counts how often a byte string occurs in a list.
pub fn count_bytes(list: &Vec<Vec<u8>>, x: &Vec<u8>) -> (n: usize)
    ensures
        n == count_eq(byte_views(list@), x@),
{
    let ghost lv = byte_views(list@);
    let mut n: usize = 0;
    let mut i: usize = 0;
    while i < list.len()
        invariant
            i <= list.len(),
            lv == byte_views(list@),
            lv.len() == list@.len(),
            n <= i,
            n == count_eq(lv.take(i as int), x@),
        decreases list.len() - i,
    {
        proof {
            assert(lv.take(i + 1).drop_last() =~= lv.take(i as int));
            assert(lv.take(i + 1).last() == lv[i as int]);
            assert(lv[i as int] == list@[i as int]@);
        }
        if bytes_eq(&list[i], x) {
            n += 1;
        }
        i += 1;
    }
    proof {
        assert(lv.take(lv.len() as int) =~= lv);
    }
    n
}

/// Sorts a list of pairwise distinct byte strings into lexicographic
/// order.  The result holds the same strings; neighbouring entries are
/// strictly ordered.
pub fn sort_subtypes(v: &Vec<Vec<u8>>) -> (r: Vec<Vec<u8>>)
    requires
        forall|k: int, l: int|
            0 <= k < v@.len() && 0 <= l < v@.len() && k != l
                ==> byte_views(v@)[k] != byte_views(v@)[l],
    ensures
        r@.len() == v@.len(),
        forall|k: int| 0 <= k && k + 1 < r@.len()
            ==> lex_le(#[trigger] byte_views(r@)[k], byte_views(r@)[k + 1])
                && byte_views(r@)[k] != byte_views(r@)[k + 1],
        forall|s: Seq<u8>| byte_views(r@).contains(s) <==> byte_views(v@).contains(s),
        forall|k: int, l: int|
            0 <= k < r@.len() && 0 <= l < r@.len() && k != l
                ==> byte_views(r@)[k] != byte_views(r@)[l],
    {
    let mut r: Vec<Vec<u8>> = Vec::new();
    let mut i: usize = 0;
    while i < v.len()
        invariant
            i <= v.len(),
            r@.len() == i,
            forall|k: int, l: int|
                0 <= k < v@.len() && 0 <= l < v@.len() && k != l
                    ==> byte_views(v@)[k] != byte_views(v@)[l],
            forall|k: int| 0 <= k && k + 1 < r@.len()
                ==> lex_le(#[trigger] byte_views(r@)[k], byte_views(r@)[k + 1])
                    && byte_views(r@)[k] != byte_views(r@)[k + 1],
            forall|s: Seq<u8>| byte_views(r@).contains(s) <==> byte_views(v@.take(i as int)).contains(s),
            forall|k: int, l: int|
                0 <= k < r@.len() && 0 <= l < r@.len() && k != l
                    ==> byte_views(r@)[k] != byte_views(r@)[l],
        decreases v.len() - i,
    {
        let x = clone_bytes(&v[i]);
        proof {
            assert(byte_views(v@)[i as int] == v@[i as int]@);
            assert(!byte_views(v@.take(i as int)).contains(x@)) by {
                if byte_views(v@.take(i as int)).contains(x@) {
                    let j = choose|j: int| 0 <= j < i && #[trigger] byte_views(v@.take(i as int))[j] == x@;
                    assert(byte_views(v@)[j] == v@[j]@);
                    assert(byte_views(v@.take(i as int))[j] == v@.take(i as int)[j]@);
                }
            }
            assert(!byte_views(r@).contains(x@));
        }
        let ghost r0 = r@;
        let mut k: usize = 0;
        while k < r.len() && lex_le_bytes(&r[k], &x)
            invariant
                r@ == r0,
                k <= r@.len(),
                x@ == v@[i as int]@,
                forall|j: int| 0 <= j < k ==> lex_le(byte_views(r@)[j], x@),
            decreases r.len() - k,
        {
            proof {
                assert(byte_views(r@)[k as int] == r@[k as int]@);
            }
            k += 1;
        }
        proof {
            if k < r@.len() {
                assert(byte_views(r@)[k as int] == r@[k as int]@);
                lemma_lex_total(r@[k as int]@, x@);
                assert(lex_le(x@, byte_views(r@)[k as int]));
            }
            assert forall|j: int| 0 <= j < k implies
                lex_le(byte_views(r@)[j], x@) && byte_views(r@)[j] != x@ by {
                assert(!byte_views(r@).contains(x@));
                assert(byte_views(r@)[j] != x@);
            }
        }
        r.insert(k, x);
        i += 1;
        proof {
            assert forall|s: Seq<u8>| byte_views(r@).contains(s) <==> byte_views(v@.take(i as int)).contains(s) by {
                if byte_views(r@).contains(s) {
                    let j = choose|j: int| 0 <= j < r@.len() && #[trigger] byte_views(r@)[j] == s;
                    assert(byte_views(r@)[j] == r@[j]@);
                    if j < k {
                        assert(r0[j]@ == s);
                        assert(byte_views(r0)[j] == s);
                        assert(byte_views(r0).contains(s));
                        assert(byte_views(v@.take(i - 1)).contains(s));
                        let m = choose|m: int| 0 <= m < i - 1 && #[trigger] byte_views(v@.take(i - 1))[m] == s;
                        assert(byte_views(v@.take(i - 1))[m] == v@.take(i - 1)[m]@);
                        assert(byte_views(v@.take(i as int))[m] == v@.take(i as int)[m]@);
                    } else if j == k {
                        assert(s == v@[i - 1]@);
                        assert(byte_views(v@.take(i as int))[i - 1] == v@.take(i as int)[i - 1]@);
                    } else {
                        assert(r0[j - 1]@ == s);
                        assert(byte_views(r0)[j - 1] == s);
                        assert(byte_views(r0).contains(s));
                        assert(byte_views(v@.take(i - 1)).contains(s));
                        let m = choose|m: int| 0 <= m < i - 1 && #[trigger] byte_views(v@.take(i - 1))[m] == s;
                        assert(byte_views(v@.take(i - 1))[m] == v@.take(i - 1)[m]@);
                        assert(byte_views(v@.take(i as int))[m] == v@.take(i as int)[m]@);
                    }
                }
                if byte_views(v@.take(i as int)).contains(s) {
                    let m = choose|m: int| 0 <= m < i && #[trigger] byte_views(v@.take(i as int))[m] == s;
                    assert(byte_views(v@.take(i as int))[m] == v@.take(i as int)[m]@);
                    if m < i - 1 {
                        assert(byte_views(v@.take(i - 1))[m] == v@.take(i - 1)[m]@);
                        assert(byte_views(v@.take(i - 1)).contains(s));
                        assert(byte_views(r0).contains(s));
                        let j = choose|j: int| 0 <= j < r0.len() && #[trigger] byte_views(r0)[j] == s;
                        assert(byte_views(r0)[j] == r0[j]@);
                        if j < k {
                            assert(byte_views(r@)[j] == r@[j]@);
                            assert(r@[j]@ == s);
                        } else {
                            assert(byte_views(r@)[j + 1] == r@[j + 1]@);
                            assert(r@[j + 1]@ == s);
                        }
                    } else {
                        assert(s == v@[i - 1]@);
                        assert(byte_views(r@)[k as int] == r@[k as int]@);
                        assert(r@[k as int]@ == s);
                    }
                }
            }
            assert forall|a: int, b: int|
                0 <= a < r@.len() && 0 <= b < r@.len() && a != b
                    implies byte_views(r@)[a] != byte_views(r@)[b] by {
                assert(byte_views(r@)[a] == r@[a]@);
                assert(byte_views(r@)[b] == r@[b]@);
                let ga = if a < k { r0[a]@ } else if a == k { x@ } else { r0[a - 1]@ };
                let gb = if b < k { r0[b]@ } else if b == k { x@ } else { r0[b - 1]@ };
                assert(r@[a]@ == ga);
                assert(r@[b]@ == gb);
                if a != k && b != k {
                    let ja: int = if a < k { a } else { a - 1 };
                    let jb: int = if b < k { b } else { b - 1 };
                    assert(byte_views(r0)[ja] == r0[ja]@);
                    assert(byte_views(r0)[jb] == r0[jb]@);
                } else if a == k {
                    let jb: int = if b < k { b } else { b - 1 };
                    assert(byte_views(r0)[jb] == r0[jb]@);
                    assert(byte_views(r0).contains(r0[jb]@));
                } else {
                    let ja: int = if a < k { a } else { a - 1 };
                    assert(byte_views(r0)[ja] == r0[ja]@);
                    assert(byte_views(r0).contains(r0[ja]@));
                }
            }
            assert forall|j: int| 0 <= j && j + 1 < r@.len()
                implies lex_le(#[trigger] byte_views(r@)[j], byte_views(r@)[j + 1])
                    && byte_views(r@)[j] != byte_views(r@)[j + 1] by {
                assert(byte_views(r@)[j] == r@[j]@);
                assert(byte_views(r@)[j + 1] == r@[j + 1]@);
                if j + 1 < k {
                    assert(byte_views(r0)[j] == r0[j]@);
                    assert(byte_views(r0)[j + 1] == r0[j + 1]@);
                } else if j + 1 == k {
                    assert(byte_views(r0)[j] == r0[j]@);
                } else if j == k {
                    if k < r0.len() {
                        assert(byte_views(r0)[k as int] == r0[k as int]@);
                        assert(byte_views(r0).contains(r0[k as int]@));
                    }
                } else {
                    assert(byte_views(r0)[j - 1] == r0[j - 1]@);
                    assert(byte_views(r0)[j] == r0[j]@);
                }
            }
        }
    }
    proof {
        assert(v@.take(v@.len() as int) =~= v@);
    }
    r
}

/// A list holds a string after a push exactly when it held it before or
/// the push brought it.
pub proof fn lemma_contains_push(l: Seq<Seq<u8>>, x: Seq<u8>, s: Seq<u8>)
    ensures
        l.push(x).contains(s) <==> (l.contains(s) || s == x),
{
    if l.push(x).contains(s) {
        let j = choose|j: int| 0 <= j < l.push(x).len() && l.push(x)[j] == s;
        if j < l.len() {
            assert(l[j] == s);
        }
    }
    if l.contains(s) {
        let j = choose|j: int| 0 <= j < l.len() && l[j] == s;
        assert(l.push(x)[j] == s);
    }
    if s == x {
        assert(l.push(x)[l.len() as int] == s);
    }
}

/// A string stands in a concatenation exactly when it stands in one part.
pub proof fn lemma_contains_concat(l1: Seq<Seq<u8>>, l2: Seq<Seq<u8>>, s: Seq<u8>)
    ensures
        (l1 + l2).contains(s) <==> (l1.contains(s) || l2.contains(s)),
{
    if (l1 + l2).contains(s) {
        let j = choose|j: int| 0 <= j < (l1 + l2).len() && (l1 + l2)[j] == s;
        if j < l1.len() {
            assert(l1[j] == s);
        } else {
            assert(l2[j - l1.len()] == s);
        }
    }
    if l1.contains(s) {
        let j = choose|j: int| 0 <= j < l1.len() && l1[j] == s;
        assert((l1 + l2)[j] == s);
    }
    if l2.contains(s) {
        let j = choose|j: int| 0 <= j < l2.len() && l2[j] == s;
        assert((l1 + l2)[j + l1.len()] == s);
    }
}

/// Every subtype on a page stands in the document-wide subtype list.
pub proof fn lemma_upto_contains(d: DocView, j: int, n: int, s: Seq<u8>)
    requires
        0 <= j < n,
        page_subtypes(d, j).contains(s),
    ensures
        all_subtypes_upto(d, n).contains(s),
    decreases n,
{
    if j == n - 1 {
        lemma_contains_concat(all_subtypes_upto(d, n - 1), page_subtypes(d, n - 1), s);
    } else {
        lemma_upto_contains(d, j, n - 1, s);
        lemma_contains_concat(all_subtypes_upto(d, n - 1), page_subtypes(d, n - 1), s);
    }
}

/// One row of the per-page report: the 1-based page number and one count
/// per subtype column.
pub struct PageRow {
    pub page_number: usize,
    pub counts: Vec<usize>,
}

/// The computed stats of a document: the subtype columns in byte order,
/// the document-wide count per column, and one row per page that carries
/// at least one annotation.
pub struct StatsReport {
    pub subtypes: Vec<Vec<u8>>,
    pub totals: Vec<usize>,
    pub rows: Vec<PageRow>,
}

/// The indices of the pages among the first `n` that carry at least one
/// annotation, in page order.
pub open spec fn nonempty_pages_upto(d: DocView, n: int) -> Seq<int>
    decreases n,
{
    if n <= 0 {
        Seq::empty()
    } else {
        nonempty_pages_upto(d, n - 1) + if page_subtypes(d, n - 1).len() > 0 {
            seq![n - 1]
        } else {
            Seq::empty()
        }
    }
}

/// The indices of the pages that carry at least one annotation.
pub open spec fn nonempty_pages(d: DocView) -> Seq<int> {
    nonempty_pages_upto(d, d.pages.len() as int)
}

/// Counts the document's annotations by subtype.  Returns `None` exactly
/// when no page carries any annotation; otherwise the report's columns
/// are the subtypes that occur, in strict byte order, its totals are the
/// document-wide counts, and its rows are the per-page counts of the
/// pages that carry annotations, in page order, 1-based.
pub fn compute_stats(doc: &PdfDocument) -> (r: Option<StatsReport>)
    ensures
        (r is None) <==> (forall|i: int|
            0 <= i < doc@.pages.len() ==> page_subtypes(doc@, i).len() == 0),
        match r {
            None => true,
            Some(rep) => {
                &&& rep.subtypes@.len() > 0
                &&& forall|k: int| 0 <= k && k + 1 < rep.subtypes@.len()
                    ==> lex_le(#[trigger] byte_views(rep.subtypes@)[k], byte_views(rep.subtypes@)[k + 1])
                        && byte_views(rep.subtypes@)[k] != byte_views(rep.subtypes@)[k + 1]
                &&& forall|s: Seq<u8>|
                    byte_views(rep.subtypes@).contains(s) <==> doc_subtypes(doc@).contains(s)
                &&& rep.totals@.len() == rep.subtypes@.len()
                &&& forall|j: int| 0 <= j < rep.totals@.len()
                    ==> rep.totals@[j] == total_count(doc@, byte_views(rep.subtypes@)[j])
                &&& rep.rows@.len() == nonempty_pages(doc@).len()
                &&& forall|k: int| 0 <= k < rep.rows@.len()
                    ==> (#[trigger] rep.rows@[k]).page_number == nonempty_pages(doc@)[k] + 1
                        && rep.rows@[k].counts@.len() == rep.subtypes@.len()
                &&& forall|k: int, j: int|
                    0 <= k < rep.rows@.len() && 0 <= j < rep.subtypes@.len()
                        ==> (#[trigger] rep.rows@[k].counts@[j])
                            == page_count(doc@, nonempty_pages(doc@)[k], byte_views(rep.subtypes@)[j])
            },
        },
{
    let ghost d = doc@;
    let mut per_page: Vec<Vec<Vec<u8>>> = Vec::new();
    let mut all_subs: Vec<Vec<u8>> = Vec::new();
    let mut distinct: Vec<Vec<u8>> = Vec::new();
    let mut p: usize = 0;
    while p < doc.pages.len()
        invariant
            d == doc@,
            p <= d.pages.len(),
            per_page@.len() == p,
            forall|i: int| 0 <= i < p
                ==> byte_views((#[trigger] per_page@[i])@) == page_subtypes(d, i),
            byte_views(all_subs@) == all_subtypes_upto(d, p as int),
            forall|s: Seq<u8>|
                byte_views(distinct@).contains(s) <==> all_subtypes_upto(d, p as int).contains(s),
            forall|k: int, l: int|
                0 <= k < distinct@.len() && 0 <= l < distinct@.len() && k != l
                    ==> byte_views(distinct@)[k] != byte_views(distinct@)[l],
        decreases doc.pages.len() - p,
    {
        let ids = read_annotation_ids(doc, doc.pages[p]);
        let ghost idsv = ids@;
        proof {
            assert(idsv == annot_ids(d, d.pages[p as int]));
            assert(idsv.take(0) =~= Seq::<ObjId>::empty());
            assert(subtypes_list(d, idsv.take(0)) =~= Seq::<Seq<u8>>::empty());
            assert(all_subtypes_upto(d, p as int) + subtypes_list(d, idsv.take(0))
                =~= all_subtypes_upto(d, p as int));
        }
        let mut subs: Vec<Vec<u8>> = Vec::new();
        let mut q: usize = 0;
        while q < ids.len()
            invariant
                d == doc@,
                q <= idsv.len(),
                idsv == ids@,
                idsv == annot_ids(d, d.pages[p as int]),
                subs@.len() == q,
                forall|j: int| 0 <= j < q
                    ==> byte_views(subs@)[j] == subtype_of(d, idsv[j]),
                byte_views(all_subs@) == all_subtypes_upto(d, p as int)
                    + subtypes_list(d, idsv.take(q as int)),
                forall|s: Seq<u8>|
                    byte_views(distinct@).contains(s)
                        <==> (all_subtypes_upto(d, p as int)
                            + subtypes_list(d, idsv.take(q as int))).contains(s),
                forall|k: int, l: int|
                    0 <= k < distinct@.len() && 0 <= l < distinct@.len() && k != l
                        ==> byte_views(distinct@)[k] != byte_views(distinct@)[l],
            decreases ids.len() - q,
        {
            let st = annotation_subtype(doc, ids[q]);
            let ghost stv = st@;
            let ghost old_concat = all_subtypes_upto(d, p as int)
                + subtypes_list(d, idsv.take(q as int));
            let ghost old_distinct = distinct@;
            if !bytes_in(&distinct, &st) {
                let cp = clone_bytes(&st);
                proof {
                    lemma_byte_views_push(distinct@, cp);
                }
                distinct.push(cp);
            }
            let cp2 = clone_bytes(&st);
            proof {
                lemma_byte_views_push(subs@, cp2);
            }
            subs.push(cp2);
            proof {
                lemma_byte_views_push(all_subs@, st);
            }
            all_subs.push(st);
            q += 1;
            proof {
                let new_concat = all_subtypes_upto(d, p as int)
                    + subtypes_list(d, idsv.take(q as int));
                assert(subtypes_list(d, idsv.take(q as int))
                    =~= subtypes_list(d, idsv.take(q - 1)).push(subtype_of(d, idsv[q - 1])));
                assert(new_concat =~= old_concat.push(stv));
                assert(byte_views(all_subs@) == new_concat);
                assert forall|s: Seq<u8>|
                    byte_views(distinct@).contains(s) <==> new_concat.contains(s) by {
                    lemma_contains_push(old_concat, stv, s);
                    if distinct@.len() > old_distinct.len() {
                        lemma_contains_push(byte_views(old_distinct), stv, s);
                    }
                }
                assert forall|k: int, l: int|
                    0 <= k < distinct@.len() && 0 <= l < distinct@.len() && k != l
                        implies byte_views(distinct@)[k] != byte_views(distinct@)[l] by {
                    if distinct@.len() > old_distinct.len() {
                        assert(byte_views(distinct@) == byte_views(old_distinct).push(stv));
                        if k < old_distinct.len() && l < old_distinct.len() {
                        } else {
                            let m = if k < old_distinct.len() { k } else { l };
                            assert(byte_views(old_distinct)[m] == old_distinct[m]@);
                            assert(byte_views(old_distinct).contains(old_distinct[m]@));
                        }
                    }
                }
            }
        }
        proof {
            assert(idsv.take(idsv.len() as int) =~= idsv);
            assert(subtypes_list(d, idsv) == page_subtypes(d, p as int));
            assert(byte_views(subs@) =~= subtypes_list(d, idsv));
            assert(all_subtypes_upto(d, p as int) + subtypes_list(d, idsv)
                == all_subtypes_upto(d, p + 1));
        }
        per_page.push(subs);
        p += 1;
    }
    let sorted = sort_subtypes(&distinct);
    if sorted.len() == 0 {
        proof {
            assert forall|i: int| 0 <= i < d.pages.len()
                implies page_subtypes(d, i).len() == 0 by {
                if page_subtypes(d, i).len() > 0 {
                    let s = page_subtypes(d, i)[0];
                    assert(page_subtypes(d, i).contains(s));
                    lemma_upto_contains(d, i, d.pages.len() as int, s);
                    assert(byte_views(distinct@).contains(s));
                    let j = choose|j: int| 0 <= j < distinct@.len() && #[trigger] byte_views(distinct@)[j] == s;
                    assert(byte_views(sorted@).contains(byte_views(distinct@)[j]));
                }
            }
        }
        return None;
    }
    let ghost cols = byte_views(sorted@);
    let mut totals: Vec<usize> = Vec::new();
    let mut j: usize = 0;
    while j < sorted.len()
        invariant
            d == doc@,
            j <= sorted@.len(),
            cols == byte_views(sorted@),
            cols.len() == sorted@.len(),
            byte_views(all_subs@) == doc_subtypes(d),
            totals@.len() == j,
            forall|jj: int| 0 <= jj < j ==> totals@[jj] == total_count(d, cols[jj]),
        decreases sorted.len() - j,
    {
        proof {
            assert(cols[j as int] == sorted@[j as int]@);
        }
        totals.push(count_bytes(&all_subs, &sorted[j]));
        j += 1;
    }
    let mut rows: Vec<PageRow> = Vec::new();
    let mut p2: usize = 0;
    while p2 < per_page.len()
        invariant
            d == doc@,
            p2 <= per_page@.len(),
            per_page@.len() == d.pages.len(),
            cols == byte_views(sorted@),
            cols.len() == sorted@.len(),
            forall|i: int| 0 <= i < per_page@.len()
                ==> byte_views((#[trigger] per_page@[i])@) == page_subtypes(d, i),
            rows@.len() == nonempty_pages_upto(d, p2 as int).len(),
            forall|k: int| 0 <= k < rows@.len()
                ==> (#[trigger] rows@[k]).page_number == nonempty_pages_upto(d, p2 as int)[k] + 1
                    && rows@[k].counts@.len() == sorted@.len(),
            forall|k: int, jj: int|
                0 <= k < rows@.len() && 0 <= jj < sorted@.len()
                    ==> (#[trigger] rows@[k].counts@[jj])
                        == page_count(d, nonempty_pages_upto(d, p2 as int)[k], cols[jj]),
        decreases per_page.len() - p2,
    {
        let ghost before = nonempty_pages_upto(d, p2 as int);
        if per_page[p2].len() > 0 {
            let mut counts: Vec<usize> = Vec::new();
            let mut j2: usize = 0;
            while j2 < sorted.len()
                invariant
                    d == doc@,
                    j2 <= sorted@.len(),
                    p2 < per_page@.len(),
                    cols == byte_views(sorted@),
                    cols.len() == sorted@.len(),
                    byte_views(per_page@[p2 as int]@) == page_subtypes(d, p2 as int),
                    counts@.len() == j2,
                    forall|jj: int| 0 <= jj < j2
                        ==> counts@[jj] == page_count(d, p2 as int, cols[jj]),
                decreases sorted.len() - j2,
            {
                proof {
                    assert(cols[j2 as int] == sorted@[j2 as int]@);
                }
                counts.push(count_bytes(&per_page[p2], &sorted[j2]));
                j2 += 1;
            }
            rows.push(PageRow { page_number: p2 + 1, counts });
            proof {
                assert(page_subtypes(d, p2 as int).len() > 0);
                assert(nonempty_pages_upto(d, p2 + 1) =~= before.push(p2 as int));
            }
        } else {
            proof {
                assert(byte_views(per_page@[p2 as int]@).len() == per_page@[p2 as int]@.len());
                assert(page_subtypes(d, p2 as int).len() == 0);
                assert(nonempty_pages_upto(d, p2 + 1) =~= before);
            }
        }
        p2 += 1;
    }
    proof {
        assert(doc_subtypes(d).len() > 0 ==> !(forall|i: int|
            0 <= i < d.pages.len() ==> page_subtypes(d, i).len() == 0)) by {
            if doc_subtypes(d).len() > 0 {
                lemma_nonzero_upto(d, d.pages.len() as int);
            }
        }
        assert(byte_views(sorted@).contains(byte_views(sorted@)[0]));
        lemma_count_eq_contains(doc_subtypes(d), byte_views(sorted@)[0]);
    }
    Some(StatsReport { subtypes: sorted, totals, rows })
}

/// A nonempty document-wide subtype list means some page is nonempty.
proof fn lemma_nonzero_upto(d: DocView, n: int)
    requires
        all_subtypes_upto(d, n).len() > 0,
        n <= d.pages.len(),
    ensures
        exists|i: int| 0 <= i < n && (#[trigger] page_subtypes(d, i)).len() != 0,
    decreases n,
{
    if n > 0 {
        if page_subtypes(d, n - 1).len() != 0 {
            assert(page_subtypes(d, n - 1).len() != 0);
        } else {
            assert(all_subtypes_upto(d, n) =~= all_subtypes_upto(d, n - 1));
            lemma_nonzero_upto(d, n - 1);
        }
    }
}

} // verus!
