//! The merge engine: copies qualifying annotations from secondary
//! documents into a primary document, page number by page number, and
//! appends references to the copies to the primary pages' annotation
//! arrays.  A secondary page with no counterpart in the primary document
//! is reported and skipped.

use vstd::prelude::*;
use crate::objects::{
    DocView, ObjId, ObjView, PdfDocument, PdfObject, byte_views, bytes_in, clone_object,
    dict_get, view_obj,
};
use crate::annots::{
    annot_ids, annots_array, append_annots, append_annotation_refs, annots_key,
    page_annots_entry, page_annots_ok, read_annotation_ids, annotation_subtype, subtype_of,
    subtype_key, refs_to_objs, wf, lemma_append_annots, lemma_append_preserves_other, annots_home,
};
use crate::stats::{count_eq, page_subtypes, subtypes_list, page_count};
use crate::strip::subtypes_direct;

verus! {

/// Whether a secondary document's annotation is taken over: it resolves
/// to a dictionary and its subtype is not excluded.
pub open spec fn qualifies(src: DocView, a: ObjId, ex: Seq<Seq<u8>>) -> bool {
    src.objects.contains_key(a) && src.objects[a] is Dictionary
        && !ex.contains(subtype_of(src, a))
}

/// Copies the first `n` of the given annotations of `src` into `d`: each
/// qualifying one is inserted under a fresh identifier, and the fresh
/// identifiers are collected in order.
pub open spec fn copy_annots_upto(d: DocView, src: DocView, ids: Seq<ObjId>, ex: Seq<Seq<u8>>, n: int) -> (DocView, Seq<ObjId>)
    decreases n,
{
    if n <= 0 {
        (d, Seq::empty())
    } else {
        let (d1, refs) = copy_annots_upto(d, src, ids, ex, n - 1);
        let a = ids[n - 1];
        if qualifies(src, a, ex) {
            let nid = ObjId { num: (d1.max_id + 1) as u32, gen: 0u16 };
            (
                DocView {
                    max_id: (d1.max_id + 1) as u32,
                    objects: d1.objects.insert(nid, src.objects[a]),
                    pages: d1.pages,
                },
                refs.push(nid),
            )
        } else {
            (d1, refs)
        }
    }
}

/// Merges one page of `src` into the page of `d` with the same page
/// number: the qualifying annotations are copied and references to the
/// copies are appended to the page's annotation array; nothing is
/// appended, and no array is created, when no annotation qualifies.
pub open spec fn copy_page(d: DocView, src: DocView, ex: Seq<Seq<u8>>, i: int) -> DocView {
    let ids = annot_ids(src, src.pages[i]);
    let (d2, refs) = copy_annots_upto(d, src, ids, ex, ids.len() as int);
    if refs.len() == 0 {
        d2
    } else {
        append_annots(d2, d.pages[i], refs)
    }
}

/// Merges the first `n` pages of `src` into `d`; a page number that `d`
/// does not have is skipped.
pub open spec fn merge_doc_upto(d: DocView, src: DocView, ex: Seq<Seq<u8>>, n: int) -> DocView
    decreases n,
{
    if n <= 0 {
        d
    } else {
        let d1 = merge_doc_upto(d, src, ex, n - 1);
        if n - 1 < d.pages.len() {
            copy_page(d1, src, ex, n - 1)
        } else {
            d1
        }
    }
}

/// Merges one secondary document into `d`.
pub open spec fn merge_doc(d: DocView, src: DocView, ex: Seq<Seq<u8>>) -> DocView {
    merge_doc_upto(d, src, ex, src.pages.len() as int)
}

/// Merges the first `k` secondary documents into `d`, in order.
pub open spec fn merge_all_upto(d: DocView, others: Seq<DocView>, ex: Seq<Seq<u8>>, k: int) -> DocView
    decreases k,
{
    if k <= 0 {
        d
    } else {
        merge_doc(merge_all_upto(d, others, ex, k - 1), others[k - 1], ex)
    }
}

/// Merges every secondary document into `d`, in input order.
pub open spec fn merge_docs(d: DocView, others: Seq<DocView>, ex: Seq<Seq<u8>>) -> DocView {
    merge_all_upto(d, others, ex, others.len() as int)
}

/// The mathematical values of a list of documents.
pub open spec fn doc_views(l: Seq<PdfDocument>) -> Seq<DocView> {
    l.map_values(|x: PdfDocument| x@)
}

/// How many annotations the first `n` pages of a document carry.
pub open spec fn doc_annots_upto(src: DocView, n: int) -> nat
    decreases n,
{
    if n <= 0 {
        0
    } else {
        doc_annots_upto(src, n - 1) + annot_ids(src, src.pages[n - 1]).len()
    }
}

/// How many annotations the documents from position `k` on carry in all.
pub open spec fn total_annots_from(others: Seq<DocView>, k: int) -> nat
    decreases others.len() - k,
{
    if k < 0 || k >= others.len() {
        0
    } else {
        doc_annots_upto(others[k], others[k].pages.len() as int) + total_annots_from(others, k + 1)
    }
}

/// The page numbers a merge drops for lack of a counterpart: for the
/// `k`-th secondary document (1-based), every page number above the
/// primary document's page count, in order.
pub open spec fn dropped_for(k: usize, srclen: int, plen: int) -> Seq<(usize, usize)> {
    Seq::new(
        if srclen > plen { (srclen - plen) as nat } else { 0 },
        |j: int| (k, (plen + 1 + j) as usize),
    )
}

/// The dropped pages of the first `n` secondary documents, in order.
pub open spec fn dropped_upto(others: Seq<DocView>, plen: int, n: int) -> Seq<(usize, usize)>
    decreases n,
{
    if n <= 0 {
        Seq::empty()
    } else {
        dropped_upto(others, plen, n - 1)
            + dropped_for(n as usize, others[n - 1].pages.len() as int, plen)
    }
}

/// The subtypes of a list with the excluded ones dropped, in order.
pub open spec fn nonexcluded(l: Seq<Seq<u8>>, ex: Seq<Seq<u8>>) -> Seq<Seq<u8>>
    decreases l.len(),
{
    if l.len() == 0 {
        Seq::empty()
    } else {
        nonexcluded(l.drop_last(), ex) + if ex.contains(l.last()) {
            Seq::empty()
        } else {
            seq![l.last()]
        }
    }
}

/// Counting an unexcluded subtype in the filtered list counts it in the
/// full list; an excluded one is no longer there.
pub proof fn lemma_nonexcluded_count(l: Seq<Seq<u8>>, ex: Seq<Seq<u8>>, s: Seq<u8>)
    ensures
        count_eq(nonexcluded(l, ex), s) == if ex.contains(s) { 0nat } else { count_eq(l, s) },
    decreases l.len(),
{
    if l.len() > 0 {
        let hd = l.drop_last();
        lemma_nonexcluded_count(hd, ex, s);
        let nh = nonexcluded(hd, ex);
        let nl = nonexcluded(l, ex);
        if ex.contains(l.last()) {
            assert(nl =~= nh);
        } else {
            assert(nl =~= nh.push(l.last()));
            assert(nl.len() > 0);
            assert(nl.last() == l.last());
            assert(nl.drop_last() =~= nh);
        }
    }
}

/// A subtype read from the annotation's own dictionary does not change
/// when the table changes elsewhere.
pub proof fn lemma_subtype_stable(da: DocView, db: DocView, x: ObjId)
    requires
        da.objects.contains_key(x),
        db.objects.contains_key(x),
        db.objects[x] == da.objects[x],
        (match da.objects[x] {
            ObjView::Dictionary(entries) => !(dict_get(entries, subtype_key())
                matches Some(ObjView::Reference(_))),
            _ => true,
        }),
    ensures
        subtype_of(db, x) == subtype_of(da, x),
{
}

/// Whether an object's `Subtype` entry, if any, is stored directly.
pub open spec fn direct_at(d: DocView, x: ObjId) -> bool {
    match d.objects[x] {
        ObjView::Dictionary(entries) => !(dict_get(entries, subtype_key())
            matches Some(ObjView::Reference(_))),
        _ => true,
    }
}

/// The subtypes of a fixed list of annotations do not change between two
/// documents that agree on those annotations' own dictionaries.
pub proof fn lemma_subtypes_list_stable(da: DocView, db: DocView, refs: Seq<ObjId>)
    requires
        forall|j: int| 0 <= j < refs.len()
            ==> da.objects.contains_key(#[trigger] refs[j]) && direct_at(da, refs[j])
                && db.objects.contains_key(refs[j]) && db.objects[refs[j]] == da.objects[refs[j]],
    ensures
        subtypes_list(db, refs) == subtypes_list(da, refs),
{
    assert forall|j: int| 0 <= j < refs.len()
        implies subtypes_list(db, refs)[j] == subtypes_list(da, refs)[j] by {
        lemma_subtype_stable(da, db, refs[j]);
    }
    assert(subtypes_list(db, refs) =~= subtypes_list(da, refs));
}

/// A page's subtype list does not change between two documents that give
/// the page the same annotation list and agree on annotation objects.
pub proof fn lemma_page_subtypes_stable(da: DocView, db: DocView, j: int)
    requires
        wf(da),
        0 <= j < da.pages.len(),
        db.pages == da.pages,
        subtypes_direct(da),
        annot_ids(db, da.pages[j]) == annot_ids(da, da.pages[j]),
        forall|k: ObjId|
            da.objects.contains_key(k) && !da.pages.contains(k)
                && da.objects[k] is Dictionary
                ==> #[trigger] db.objects.contains_key(k) && db.objects[k] == da.objects[k],
    ensures
        page_subtypes(db, j) == page_subtypes(da, j),
{
    let ids = annot_ids(da, da.pages[j]);
    assert forall|j2: int| 0 <= j2 < ids.len()
        implies da.objects.contains_key(#[trigger] ids[j2]) && direct_at(da, ids[j2])
            && db.objects.contains_key(ids[j2]) && db.objects[ids[j2]] == da.objects[ids[j2]] by {
        assert(ids.contains(ids[j2]));
        assert(da.objects.contains_key(ids[j2]) && da.objects[ids[j2]] is Dictionary
            && !da.pages.contains(ids[j2]));
    }
    lemma_subtypes_list_stable(da, db, ids);
}

/// What copying the first `n` annotations of a page does: the document
/// grows by fresh dictionary objects, nothing present changes, and the
/// fresh references carry, in order, exactly the unexcluded subtypes of
/// the copied annotations.
pub proof fn lemma_copy_upto_facts(d: DocView, src: DocView, ids: Seq<ObjId>, ex: Seq<Seq<u8>>, n: int)
    requires
        wf(src),
        forall|k: ObjId| d.objects.contains_key(k) ==> (#[trigger] k.num) <= d.max_id,
        forall|j: int| 0 <= j < ids.len()
            ==> src.objects.contains_key(#[trigger] ids[j]) && src.objects[ids[j]] is Dictionary,
        0 <= n <= ids.len(),
        d.max_id + n <= u32::MAX,
    ensures
        ({
            let (d1, refs) = copy_annots_upto(d, src, ids, ex, n);
            &&& d1.pages == d.pages
            &&& d.max_id <= d1.max_id <= d.max_id + n
            &&& refs.len() <= n
            &&& forall|k: ObjId| #[trigger] d.objects.contains_key(k)
                ==> d1.objects.contains_key(k) && d1.objects[k] == d.objects[k]
            &&& forall|k: ObjId| #[trigger] d1.objects.contains_key(k)
                ==> (d.objects.contains_key(k) || k.num > d.max_id)
            &&& forall|k: ObjId| d1.objects.contains_key(k) ==> (#[trigger] k.num) <= d1.max_id
            &&& forall|j: int| 0 <= j < refs.len()
                ==> !d.objects.contains_key(#[trigger] refs[j])
                    && d1.objects.contains_key(refs[j])
                    && d1.objects[refs[j]] is Dictionary
                    && refs[j].num > d.max_id
            &&& subtypes_direct(src) ==> (
                subtypes_list(d1, refs) == nonexcluded(subtypes_list(src, ids.take(n)), ex)
                && (forall|j: int| 0 <= j < refs.len() ==> direct_at(d1, #[trigger] refs[j])))
        }),
    decreases n,
{
    if n <= 0 {
        let (d1, refs) = copy_annots_upto(d, src, ids, ex, n);
        assert(ids.take(0) =~= Seq::<ObjId>::empty());
        assert(subtypes_list(src, ids.take(0)) =~= Seq::<Seq<u8>>::empty());
        assert(subtypes_list(d1, refs) =~= Seq::<Seq<u8>>::empty());
    } else {
        lemma_copy_upto_facts(d, src, ids, ex, n - 1);
        let (d1, refs) = copy_annots_upto(d, src, ids, ex, n - 1);
        let (d2, refs2) = copy_annots_upto(d, src, ids, ex, n);
        let a = ids[n - 1];
        assert(ids.contains(a));
        assert(src.objects.contains_key(a) && src.objects[a] is Dictionary);
        let lst = subtypes_list(src, ids.take(n));
        assert(lst.drop_last() =~= subtypes_list(src, ids.take(n - 1)));
        assert(lst.last() == subtype_of(src, a)) by {
            assert(ids.take(n)[n - 1] == a);
        }
        if qualifies(src, a, ex) {
            let nid = ObjId { num: (d1.max_id + 1) as u32, gen: 0u16 };
            assert(d1.max_id + 1 <= u32::MAX);
            assert(nid.num > d1.max_id);
            assert(!d1.objects.contains_key(nid));
            assert(d2.objects == d1.objects.insert(nid, src.objects[a]));
            assert(refs2 == refs.push(nid));
            assert forall|j: int| 0 <= j < refs2.len() implies
                !d.objects.contains_key(#[trigger] refs2[j])
                    && d2.objects.contains_key(refs2[j])
                    && d2.objects[refs2[j]] is Dictionary
                    && refs2[j].num > d.max_id by {
                if j < refs.len() {
                    assert(refs2[j] == refs[j]);
                    assert(d2.objects[refs[j]] == d1.objects[refs[j]]);
                } else {
                    assert(refs2[j] == nid);
                }
            }
            if subtypes_direct(src) {
                assert forall|j: int| 0 <= j < refs.len()
                    implies subtypes_list(d2, refs2)[j] == subtypes_list(d1, refs)[j] by {
                    assert(refs2[j] == refs[j]);
                    assert(refs[j].num <= d1.max_id);
                    assert(refs[j] != nid);
                    assert(d2.objects[refs[j]] == d1.objects[refs[j]]);
                    assert(direct_at(d1, refs[j]));
                    lemma_subtype_stable(d1, d2, refs[j]);
                }
                assert(subtypes_list(d2, refs2)[refs.len() as int] == subtype_of(d2, nid));
                assert(subtype_of(d2, nid) == subtype_of(src, a)) by {
                    assert(d2.objects[nid] == src.objects[a]);
                    match src.objects[a] {
                        ObjView::Dictionary(entries) => {
                            assert(!(dict_get(entries, subtype_key())
                                matches Some(ObjView::Reference(_))));
                        },
                        _ => {},
                    }
                }
                assert(!ex.contains(lst.last()));
                assert(nonexcluded(lst, ex)
                    == nonexcluded(lst.drop_last(), ex) + seq![lst.last()]);
                assert(subtypes_list(d2, refs2)
                    =~= nonexcluded(lst.drop_last(), ex) + seq![lst.last()]);
                assert forall|j: int| 0 <= j < refs2.len()
                    implies direct_at(d2, #[trigger] refs2[j]) by {
                    if j < refs.len() {
                        assert(refs2[j] == refs[j]);
                        assert(d2.objects[refs[j]] == d1.objects[refs[j]]);
                        assert(direct_at(d1, refs[j]));
                    } else {
                        assert(refs2[j] == nid);
                        assert(d2.objects[nid] == src.objects[a]);
                    }
                }
            }
        } else {
            assert(d2 == d1 && refs2 == refs);
            assert(ex.contains(subtype_of(src, a)));
            if subtypes_direct(src) {
                assert(nonexcluded(lst, ex) =~= nonexcluded(lst.drop_last(), ex));
            }
        }
    }
}

/// What merging the first `n` pages of one secondary document does: the
/// primary document stays well formed, its pages gain, in order, exactly
/// the unexcluded subtypes of the corresponding secondary pages, and no
/// annotation object present before changes.
pub proof fn lemma_merge_doc_upto_facts(d: DocView, src: DocView, ex: Seq<Seq<u8>>, n: int)
    requires
        wf(d),
        wf(src),
        0 <= n <= src.pages.len(),
        d.max_id + doc_annots_upto(src, n) <= u32::MAX,
    ensures
        ({
            let dm = merge_doc_upto(d, src, ex, n);
            &&& dm.pages == d.pages
            &&& d.max_id <= dm.max_id <= d.max_id + doc_annots_upto(src, n)
            &&& wf(dm)
            &&& forall|k: ObjId| d.objects.contains_key(k) ==> #[trigger] dm.objects.contains_key(k)
            &&& forall|k: ObjId|
                d.objects.contains_key(k) && !d.pages.contains(k) && d.objects[k] is Dictionary
                    ==> #[trigger] dm.objects[k] == d.objects[k]
            &&& (subtypes_direct(d) && subtypes_direct(src)) ==> (
                subtypes_direct(dm)
                && (forall|j: int| 0 <= j < d.pages.len()
                    ==> page_subtypes(dm, j) == page_subtypes(d, j) + (if j < n {
                        nonexcluded(page_subtypes(src, j), ex)
                    } else {
                        Seq::<Seq<u8>>::empty()
                    })))
        }),
    decreases n,
{
    if n <= 0 {
        assert forall|j: int| 0 <= j < d.pages.len() implies
            page_subtypes(d, j) == page_subtypes(d, j) + Seq::<Seq<u8>>::empty() by {
            assert(page_subtypes(d, j) + Seq::<Seq<u8>>::empty() =~= page_subtypes(d, j));
        }
    } else {
        lemma_merge_doc_upto_facts(d, src, ex, n - 1);
        let d1 = merge_doc_upto(d, src, ex, n - 1);
        let dm = merge_doc_upto(d, src, ex, n);
        let i = n - 1;
        assert(doc_annots_upto(src, n)
            == doc_annots_upto(src, n - 1) + annot_ids(src, src.pages[i]).len());
        if i < d.pages.len() {
            let ids = annot_ids(src, src.pages[i]);
            assert forall|j: int| 0 <= j < ids.len()
                implies src.objects.contains_key(#[trigger] ids[j])
                    && src.objects[ids[j]] is Dictionary by {
                assert(ids.contains(ids[j]));
                assert(0 <= i < src.pages.len()
                    && annot_ids(src, src.pages[i]).contains(ids[j]));
            }
            lemma_copy_upto_facts(d1, src, ids, ex, ids.len() as int);
            let (d2, refs) = copy_annots_upto(d1, src, ids, ex, ids.len() as int);
            assert(ids.take(ids.len() as int) =~= ids);
            if subtypes_direct(src) {
                assert(subtypes_list(d2, refs) == nonexcluded(page_subtypes(src, i), ex));
            }
            // the copy phase leaves every page's entry, array and annotations alone
            assert forall|j: int| 0 <= j < d.pages.len() implies
                page_annots_ok(d2, #[trigger] d.pages[j])
                    && page_annots_entry(d2, d.pages[j]) == page_annots_entry(d1, d.pages[j])
                    && annots_array(d2, d.pages[j]) == annots_array(d1, d.pages[j])
                    && annot_ids(d2, d.pages[j]) == annot_ids(d1, d.pages[j]) by {
                assert(page_annots_ok(d1, d.pages[j]));
                assert(d1.objects.contains_key(d.pages[j]));
                assert(d2.objects[d.pages[j]] == d1.objects[d.pages[j]]);
                match page_annots_entry(d1, d.pages[j]) {
                    Some(ObjView::Reference(rq)) => {
                        assert(d1.objects.contains_key(rq));
                        assert(d2.objects[rq] == d1.objects[rq]);
                    },
                    _ => {},
                }
            }
            assert(wf(d2)) by {
                assert forall|ii: int, a: ObjId|
                    0 <= ii < d2.pages.len() && annot_ids(d2, #[trigger] d2.pages[ii]).contains(a)
                        implies #[trigger] d2.objects.contains_key(a) && d2.objects[a] is Dictionary
                            && !d2.pages.contains(a) by {
                    assert(annot_ids(d1, d1.pages[ii]).contains(a));
                }
                assert forall|ii: int, jj: int|
                    0 <= ii < d2.pages.len() && 0 <= jj < d2.pages.len() && ii != jj
                        implies !(page_annots_entry(d2, d2.pages[ii]) == page_annots_entry(d2, d2.pages[jj])
                            && page_annots_entry(d2, d2.pages[ii]) matches Some(ObjView::Reference(_))) by {
                    assert(page_annots_entry(d2, d2.pages[ii]) == page_annots_entry(d1, d1.pages[ii]));
                    assert(page_annots_entry(d2, d2.pages[jj]) == page_annots_entry(d1, d1.pages[jj]));
                }
            }
            if subtypes_direct(d) && subtypes_direct(src) {
                assert(subtypes_direct(d1));
                assert(subtypes_direct(d2)) by {
                    assert forall|a: ObjId| #[trigger] d2.objects.contains_key(a)
                        implies direct_at(d2, a) by {
                        if d1.objects.contains_key(a) {
                            assert(d2.objects[a] == d1.objects[a]);
                            assert(direct_at(d1, a));
                        } else {
                            lemma_copy_member(d1, src, ids, ex, ids.len() as int, a);
                        }
                    }
                }
            }
            if refs.len() == 0 {
                assert(dm == d2);
                assert forall|k: ObjId| d.objects.contains_key(k)
                    implies #[trigger] dm.objects.contains_key(k) by {
                    assert(d1.objects.contains_key(k));
                }
                assert forall|k: ObjId|
                    d.objects.contains_key(k) && !d.pages.contains(k) && d.objects[k] is Dictionary
                        implies #[trigger] dm.objects[k] == d.objects[k] by {
                    assert(d1.objects.contains_key(k));
                    assert(d1.objects[k] == d.objects[k]);
                    assert(d2.objects[k] == d1.objects[k]);
                }
                if subtypes_direct(d) && subtypes_direct(src) {
                    assert forall|j: int| 0 <= j < d.pages.len() implies
                        page_subtypes(dm, j) == page_subtypes(d, j) + (if j < n {
                            nonexcluded(page_subtypes(src, j), ex)
                        } else {
                            Seq::<Seq<u8>>::empty()
                        }) by {
                        lemma_page_subtypes_stable(d1, d2, j);
                        if j == i {
                            assert(nonexcluded(page_subtypes(src, i), ex).len() == 0) by {
                                assert(subtypes_list(d2, refs).len() == 0);
                            }
                            assert(page_subtypes(d1, j) + nonexcluded(page_subtypes(src, j), ex)
                                =~= page_subtypes(d1, j) + Seq::<Seq<u8>>::empty());
                        }
                    }
                }
            } else {
                let page = d.pages[i];
                assert(d1.pages == d.pages && d2.pages == d.pages);
                assert(page_annots_ok(d2, page));
                lemma_append_annots(d2, page, refs);
                assert(dm == append_annots(d2, page, refs));
                assert(wf(dm)) by {
                    lemma_merge_append_wf(d2, page, refs, d.max_id as int);
                }
                let ghost home0 = annots_home(d2, page);
                assert forall|k: ObjId| d.objects.contains_key(k)
                    implies #[trigger] dm.objects.contains_key(k) by {
                    assert(d1.objects.contains_key(k));
                    assert(d2.objects.contains_key(k));
                }
                assert forall|k: ObjId|
                    d.objects.contains_key(k) && !d.pages.contains(k) && d.objects[k] is Dictionary
                        implies #[trigger] dm.objects[k] == d.objects[k] by {
                    assert(d1.objects.contains_key(k));
                    assert(d1.objects[k] == d.objects[k]);
                    assert(d2.objects[k] == d1.objects[k]);
                    assert(k != home0) by {
                        if home0 == page {
                            assert(d.pages.contains(page)) by {
                                assert(d.pages[i] == page);
                            }
                        } else {
                            assert(page_annots_entry(d2, page) == Some(ObjView::Reference(home0)));
                            assert(d2.objects[home0] is Array);
                        }
                    }
                    assert(dm.objects[k] == d2.objects[k]);
                }
                if subtypes_direct(d) && subtypes_direct(src) {
                    assert(subtypes_direct(d1));
                    assert(subtypes_direct(dm)) by {
                        lemma_merge_append_direct(d2, page, refs);
                    }
                assert forall|j: int| 0 <= j < d.pages.len() implies
                    page_subtypes(dm, j) == page_subtypes(d, j) + (if j < n {
                        nonexcluded(page_subtypes(src, j), ex)
                    } else {
                        Seq::<Seq<u8>>::empty()
                    }) by {
                    let ghost home = annots_home(d2, page);
                    if j == i {
                        assert(annot_ids(dm, page) == annot_ids(d2, page) + refs);
                        lemma_subtypes_concat(dm, annot_ids(d2, page), refs);
                        assert(subtypes_list(dm, annot_ids(d2, page))
                            == subtypes_list(d2, annot_ids(d2, page))) by {
                            lemma_old_annots_stable(d2, dm, page, home);
                        }
                        assert(subtypes_list(dm, refs) == subtypes_list(d2, refs)) by {
                            lemma_refs_stable(d1, d2, dm, refs, home, d.max_id as int);
                        }
                        assert(page_subtypes(d2, i) == page_subtypes(d1, i)) by {
                            lemma_page_subtypes_stable(d1, d2, i);
                        }
                        assert(page_subtypes(d1, i) =~= page_subtypes(d1, i) + Seq::<Seq<u8>>::empty());
                    } else {
                        let q = d.pages[j];
                        assert(q != page);
                        lemma_append_preserves_other(d2, page, q, refs);
                        assert(annot_ids(dm, q) == annot_ids(d2, q));
                        assert(annot_ids(d2, q) == annot_ids(d1, q));
                        assert(page_subtypes(dm, j) == page_subtypes(d1, j)) by {
                            lemma_page_subtypes_stable_via(d1, dm, j, home, d.max_id as int);
                        }
                    }
                }
                }
            }
        } else {
            assert(dm == d1);
        }
    }
}

/// A table entry that the copy phase made new is one of the fresh
/// references, so a dictionary with a direct subtype.
proof fn lemma_copy_member(d: DocView, src: DocView, ids: Seq<ObjId>, ex: Seq<Seq<u8>>, n: int, a: ObjId)
    requires
        0 <= n <= ids.len(),
        copy_annots_upto(d, src, ids, ex, n).0.objects.contains_key(a),
        !d.objects.contains_key(a),
        wf(src),
        subtypes_direct(src),
        forall|j: int| 0 <= j < ids.len()
            ==> src.objects.contains_key(#[trigger] ids[j]) && src.objects[ids[j]] is Dictionary,
    ensures
        direct_at(copy_annots_upto(d, src, ids, ex, n).0, a),
    decreases n,
{
    if n > 0 {
        let (d1, refs) = copy_annots_upto(d, src, ids, ex, n - 1);
        let (d2, refs2) = copy_annots_upto(d, src, ids, ex, n);
        let x = ids[n - 1];
        if qualifies(src, x, ex) {
            let nid = ObjId { num: (d1.max_id + 1) as u32, gen: 0u16 };
            if a == nid {
                assert(d2.objects[a] == src.objects[x]);
                assert(direct_at(src, x));
            } else {
                lemma_copy_member(d, src, ids, ex, n - 1, a);
                assert(d2.objects[a] == d1.objects[a]);
            }
        } else {
            lemma_copy_member(d, src, ids, ex, n - 1, a);
        }
    }
}

/// The subtypes of two annotation lists in a row, listed in a row.
proof fn lemma_subtypes_concat(d: DocView, l1: Seq<ObjId>, l2: Seq<ObjId>)
    ensures
        subtypes_list(d, l1 + l2) == subtypes_list(d, l1) + subtypes_list(d, l2),
{
    assert(subtypes_list(d, l1 + l2) =~= subtypes_list(d, l1) + subtypes_list(d, l2));
}

/// Appending to one page does not change the subtypes of annotations
/// already attached to it.
proof fn lemma_old_annots_stable(d2: DocView, dm: DocView, page: ObjId, home: ObjId)
    requires
        wf(d2),
        subtypes_direct(d2),
        d2.pages.contains(page),
        home == annots_home(d2, page),
        forall|k: ObjId| dm.objects.contains_key(k) <==> d2.objects.contains_key(k),
        forall|k: ObjId| d2.objects.contains_key(k) && k != home
            ==> #[trigger] dm.objects[k] == d2.objects[k],
    ensures
        subtypes_list(dm, annot_ids(d2, page)) == subtypes_list(d2, annot_ids(d2, page)),
{
    let i = choose|i: int| 0 <= i < d2.pages.len() && d2.pages[i] == page;
    let ids = annot_ids(d2, page);
    assert forall|j: int| 0 <= j < ids.len()
        implies d2.objects.contains_key(#[trigger] ids[j]) && direct_at(d2, ids[j])
            && dm.objects.contains_key(ids[j]) && dm.objects[ids[j]] == d2.objects[ids[j]] by {
        assert(ids.contains(ids[j]));
        assert(annot_ids(d2, d2.pages[i]).contains(ids[j]));
        assert(d2.objects[ids[j]] is Dictionary && !d2.pages.contains(ids[j]));
        assert(ids[j] != home) by {
            if home == page {
            } else {
                assert(page_annots_entry(d2, page) == Some(ObjView::Reference(home)));
                assert(page_annots_ok(d2, page));
                assert(d2.objects[home] is Array);
            }
        }
    }
    lemma_subtypes_list_stable(d2, dm, ids);
}

/// Appending to one page does not change the subtypes of the fresh
/// references just inserted.
proof fn lemma_refs_stable(d1: DocView, d2: DocView, dm: DocView, refs: Seq<ObjId>, home: ObjId, base: int)
    requires
        wf(d2),
        forall|j: int| 0 <= j < refs.len()
            ==> d2.objects.contains_key(#[trigger] refs[j])
                && d2.objects[refs[j]] is Dictionary
                && refs[j].num > base
                && direct_at(d2, refs[j]),
        forall|k: ObjId| d2.objects.contains_key(k) ==> (#[trigger] k.num) <= d2.max_id,
        d2.objects.contains_key(home),
        d2.objects[home] is Dictionary ==> d2.pages.contains(home),
        forall|i: int| 0 <= i < d2.pages.len() ==> (#[trigger] d2.pages[i]).num <= base,
        forall|k: ObjId| dm.objects.contains_key(k) <==> d2.objects.contains_key(k),
        forall|k: ObjId| d2.objects.contains_key(k) && k != home
            ==> #[trigger] dm.objects[k] == d2.objects[k],
    ensures
        subtypes_list(dm, refs) == subtypes_list(d2, refs),
{
    assert forall|j: int| 0 <= j < refs.len()
        implies d2.objects.contains_key(#[trigger] refs[j]) && direct_at(d2, refs[j])
            && dm.objects.contains_key(refs[j]) && dm.objects[refs[j]] == d2.objects[refs[j]] by {
        assert(refs[j] != home) by {
            if refs[j] == home {
                assert(d2.objects[home] is Dictionary);
                assert(d2.pages.contains(home));
                let i = choose|i: int| 0 <= i < d2.pages.len() && d2.pages[i] == home;
                assert(d2.pages[i].num <= base);
            }
        }
    }
    lemma_subtypes_list_stable(d2, dm, refs);
}

/// A page's subtypes are unchanged when its annotation list is unchanged
/// and the append wrote only at another page's array home.
proof fn lemma_page_subtypes_stable_via(d1: DocView, dm: DocView, j: int, home: ObjId, base: int)
    requires
        wf(d1),
        subtypes_direct(d1),
        0 <= j < d1.pages.len(),
        dm.pages == d1.pages,
        annot_ids(dm, d1.pages[j]) == annot_ids(d1, d1.pages[j]),
        !(d1.objects.contains_key(home) && d1.objects[home] is Dictionary
            && !d1.pages.contains(home)),
        forall|k: ObjId| d1.objects.contains_key(k) ==> #[trigger] dm.objects.contains_key(k),
        forall|k: ObjId| d1.objects.contains_key(k) && k != home
            ==> #[trigger] dm.objects[k] == d1.objects[k],
    ensures
        page_subtypes(dm, j) == page_subtypes(d1, j),
{
    assert forall|k: ObjId|
        d1.objects.contains_key(k) && !d1.pages.contains(k)
            && d1.objects[k] is Dictionary
            implies #[trigger] dm.objects.contains_key(k) && dm.objects[k] == d1.objects[k] by {
        assert(k != home);
    }
    lemma_page_subtypes_stable(d1, dm, j);
}

/// Appending fresh dictionary references keeps the document well formed.
proof fn lemma_merge_append_wf(d2: DocView, page: ObjId, refs: Seq<ObjId>, base: int)
    requires
        wf(d2),
        d2.pages.contains(page),
        page_annots_ok(d2, page),
        forall|i: int| 0 <= i < d2.pages.len() ==> (#[trigger] d2.pages[i]).num <= base,
        forall|j: int| 0 <= j < refs.len()
            ==> d2.objects.contains_key(#[trigger] refs[j])
                && d2.objects[refs[j]] is Dictionary
                && refs[j].num > base,
    ensures
        wf(append_annots(d2, page, refs)),
{
    let dm = append_annots(d2, page, refs);
    lemma_append_annots(d2, page, refs);
    let pi = choose|i: int| 0 <= i < d2.pages.len() && d2.pages[i] == page;
    assert forall|k: ObjId| dm.objects.contains_key(k)
        implies (#[trigger] k.num) <= dm.max_id by {
        assert(d2.objects.contains_key(k));
    }
    assert forall|i: int| 0 <= i < dm.pages.len()
        implies page_annots_ok(dm, #[trigger] dm.pages[i]) by {
        if dm.pages[i] == page {
            assert(page_annots_ok(dm, page));
        } else {
            lemma_append_preserves_other(d2, page, dm.pages[i], refs);
        }
    }
    assert forall|i: int, jj: int|
        0 <= i < dm.pages.len() && 0 <= jj < dm.pages.len() && i != jj
            implies !(page_annots_entry(dm, dm.pages[i]) == page_annots_entry(dm, dm.pages[jj])
                && page_annots_entry(dm, dm.pages[i]) matches Some(ObjView::Reference(_))) by {
        if dm.pages[i] != page {
            lemma_append_preserves_other(d2, page, dm.pages[i], refs);
        } else {
            match page_annots_entry(d2, page) {
                Some(ObjView::Reference(rr)) => {
                    assert(page_annots_entry(dm, page) == page_annots_entry(d2, page));
                },
                _ => {
                    assert(page_annots_entry(dm, page) matches Some(ObjView::Array(_)));
                },
            }
        }
        if dm.pages[jj] != page {
            lemma_append_preserves_other(d2, page, dm.pages[jj], refs);
        } else {
            match page_annots_entry(d2, page) {
                Some(ObjView::Reference(rr)) => {
                    assert(page_annots_entry(dm, page) == page_annots_entry(d2, page));
                },
                _ => {
                    assert(page_annots_entry(dm, page) matches Some(ObjView::Array(_)));
                },
            }
        }
    }
    assert forall|i: int, a: ObjId|
        0 <= i < dm.pages.len() && annot_ids(dm, #[trigger] dm.pages[i]).contains(a)
            implies (#[trigger] dm.objects.contains_key(a)) && dm.objects[a] is Dictionary
                && !dm.pages.contains(a) by {
        let home = annots_home(d2, page);
        if dm.pages[i] == page {
            assert(annot_ids(dm, page) == annot_ids(d2, page) + refs);
            crate::strip::lemma_concat_contains(annot_ids(d2, page), refs, a);
            if annot_ids(d2, page).contains(a) {
                assert(d2.objects[a] is Dictionary && !d2.pages.contains(a));
                assert(a != home) by {
                    if home != page {
                        assert(d2.objects[home] is Array);
                    }
                }
                assert(dm.objects[a] == d2.objects[a]);
            } else {
                let j = choose|j: int| 0 <= j < refs.len() && refs[j] == a;
                assert(a.num > base);
                assert(a != home) by {
                    if home == page {
                        assert(d2.pages[pi].num <= base);
                    } else {
                        assert(d2.objects[home] is Array);
                    }
                }
                assert(dm.objects[a] == d2.objects[a]);
                assert(!dm.pages.contains(a)) by {
                    if dm.pages.contains(a) {
                        let ii = choose|ii: int| 0 <= ii < dm.pages.len() && dm.pages[ii] == a;
                        assert(d2.pages[ii].num <= base);
                    }
                }
            }
        } else {
            lemma_append_preserves_other(d2, page, dm.pages[i], refs);
            assert(annot_ids(d2, dm.pages[i]).contains(a));
            assert(d2.objects[a] is Dictionary && !d2.pages.contains(a));
            assert(a != home) by {
                if home != page {
                    assert(d2.objects[home] is Array);
                }
            }
            assert(dm.objects[a] == d2.objects[a]);
        }
    }
}

/// Appending keeps every subtype stored directly.
proof fn lemma_merge_append_direct(d2: DocView, page: ObjId, refs: Seq<ObjId>)
    requires
        wf(d2),
        subtypes_direct(d2),
        d2.pages.contains(page),
        page_annots_ok(d2, page),
    ensures
        subtypes_direct(append_annots(d2, page, refs)),
{
    let dm = append_annots(d2, page, refs);
    lemma_append_annots(d2, page, refs);
    let home = annots_home(d2, page);
    assert forall|a: ObjId| #[trigger] dm.objects.contains_key(a)
        implies direct_at(dm, a) by {
        assert(d2.objects.contains_key(a));
        if a != home {
            assert(dm.objects[a] == d2.objects[a]);
            assert(direct_at(d2, a));
        } else {
            match page_annots_entry(d2, page) {
                Some(ObjView::Reference(rr)) => {
                    assert(dm.objects[rr] is Array);
                },
                _ => {
                    let entries2 = crate::annots::page_dict_entries(d2, page).push(
                        (annots_key(), ObjView::Array(annots_array(d2, page) + refs_to_objs(refs))),
                    );
                    assert(dm.objects[page] == ObjView::Dictionary(entries2));
                    assert(direct_at(d2, page));
                    assert(dict_get(entries2, subtype_key())
                        == dict_get(crate::annots::page_dict_entries(d2, page), subtype_key())) by {
                        assert(subtype_key() != annots_key()) by {
                            assert(subtype_key().len() != annots_key().len());
                        }
                        assert(entries2.len() > 0);
                        assert(entries2.last()
                            == (annots_key(), ObjView::Array(annots_array(d2, page) + refs_to_objs(refs))));
                        assert(entries2.drop_last() =~= crate::annots::page_dict_entries(d2, page));
                    }
                },
            }
        }
    }
}

/// Merging a document with itself as the sole secondary, with exclusion
/// set `ex`, doubles each page's count of every unexcluded subtype and
/// leaves the count of every excluded subtype unchanged.
pub proof fn lemma_merge_self_doubles(d: DocView, ex: Seq<Seq<u8>>, i: int, s: Seq<u8>)
    requires
        wf(d),
        subtypes_direct(d),
        d.max_id + doc_annots_upto(d, d.pages.len() as int) <= u32::MAX,
        0 <= i < d.pages.len(),
    ensures
        page_count(merge_docs(d, seq![d], ex), i, s) == if ex.contains(s) {
            page_count(d, i, s)
        } else {
            2 * page_count(d, i, s)
        },
{
    let others = seq![d];
    assert(others.len() == 1);
    assert(others[0] == d);
    assert(merge_all_upto(d, others, ex, 0) == d);
    assert(merge_docs(d, others, ex) == merge_doc(d, d, ex));
    lemma_merge_doc_upto_facts(d, d, ex, d.pages.len() as int);
    let dm = merge_doc(d, d, ex);
    assert(page_subtypes(dm, i) == page_subtypes(d, i) + nonexcluded(page_subtypes(d, i), ex));
    crate::stats::lemma_count_eq_concat(page_subtypes(d, i), nonexcluded(page_subtypes(d, i), ex), s);
    lemma_nonexcluded_count(page_subtypes(d, i), ex, s);
}

/// The annotations of the pages from `m` on.
pub open spec fn doc_annots_from(src: DocView, m: int) -> nat
    decreases src.pages.len() - m,
{
    if m < 0 || m >= src.pages.len() {
        0
    } else {
        annot_ids(src, src.pages[m]).len() + doc_annots_from(src, m + 1)
    }
}

/// A document's annotations split at any page boundary.
pub proof fn lemma_doc_annots_split(src: DocView, n: int)
    requires
        0 <= n <= src.pages.len(),
    ensures
        doc_annots_upto(src, src.pages.len() as int)
            == doc_annots_upto(src, n) + doc_annots_from(src, n),
    decreases src.pages.len() - n,
{
    if n == src.pages.len() {
    } else {
        lemma_doc_annots_split(src, n + 1);
        assert(doc_annots_upto(src, n + 1) == doc_annots_upto(src, n)
            + annot_ids(src, src.pages[n]).len());
    }
}

/// A page's entry and array are what they were in any document that
/// keeps every object of the old one.
pub proof fn lemma_ok_preserved(da: DocView, db: DocView, page: ObjId)
    requires
        page_annots_ok(da, page),
        forall|k: ObjId| #[trigger] da.objects.contains_key(k)
            ==> db.objects.contains_key(k) && db.objects[k] == da.objects[k],
    ensures
        page_annots_ok(db, page),
        page_annots_entry(db, page) == page_annots_entry(da, page),
        annots_array(db, page) == annots_array(da, page),
        annot_ids(db, page) == annot_ids(da, page),
{
    assert(db.objects[page] == da.objects[page]);
    match page_annots_entry(da, page) {
        Some(ObjView::Reference(r)) => {
            assert(db.objects[r] == da.objects[r]);
        },
        _ => {},
    }
}

/// Merges the annotations of every secondary document into the primary
/// one: page number by page number, each secondary page's qualifying
/// annotations are copied into the primary table and referenced from the
/// primary page's annotation array.  Returns the skipped pages: the pair
/// of the 1-based secondary document number and the 1-based page number,
/// for every secondary page whose number the primary document does not
/// have.
pub fn merge_documents(main: &mut PdfDocument, others: &Vec<PdfDocument>, exclude: &Vec<Vec<u8>>) -> (dropped: Vec<(usize, usize)>)
    requires
        wf(old(main)@),
        forall|k: int| 0 <= k < others@.len() ==> wf(#[trigger] doc_views(others@)[k]),
        old(main)@.max_id + total_annots_from(doc_views(others@), 0) <= u32::MAX,
    ensures
        final(main)@ == merge_docs(old(main)@, doc_views(others@), byte_views(exclude@)),
        wf(final(main)@),
        dropped@ == dropped_upto(
            doc_views(others@),
            old(main)@.pages.len() as int,
            others@.len() as int,
        ),
{
    let ghost d0 = old(main)@;
    let ghost ov = doc_views(others@);
    let ghost exv = byte_views(exclude@);
    let plen = main.pages.len();
    let mut dropped: Vec<(usize, usize)> = Vec::new();
    let mut k: usize = 0;
    while k < others.len()
        invariant
            ov == doc_views(others@),
            exv == byte_views(exclude@),
            forall|kk: int| 0 <= kk < ov.len() ==> wf(#[trigger] ov[kk]),
            k <= others@.len(),
            ov.len() == others@.len(),
            forall|kk: int| 0 <= kk < ov.len() ==> ov[kk] == others@[kk]@,
            main@ == merge_all_upto(d0, ov, exv, k as int),
            wf(main@),
            main@.pages == d0.pages,
            plen == d0.pages.len(),
            main@.max_id + total_annots_from(ov, k as int) <= u32::MAX,
            dropped@ == dropped_upto(ov, plen as int, k as int),
        decreases others.len() - k,
    {
        let src_doc = &others[k];
        let k1 = k + 1;
        let ghost src = src_doc@;
        let ghost base = main@;
        assert(src == ov[k as int]);
        assert(wf(src));
        assert(total_annots_from(ov, k as int)
            == doc_annots_upto(src, src.pages.len() as int) + total_annots_from(ov, k + 1));
        let mut p: usize = 0;
        proof {
            lemma_doc_annots_split(src, 0);
        }
        let ghost dseq = dropped@;
        while p < src_doc.pages.len()
            invariant
                ov == doc_views(others@),
                exv == byte_views(exclude@),
                k < others@.len(),
                src == others@[k as int]@,
                src == ov[k as int],
                src_doc@ == src,
                k1 == k + 1,
                wf(src),
                wf(base),
                base.pages == d0.pages,
                plen == d0.pages.len(),
                p <= src.pages.len(),
                main@ == merge_doc_upto(base, src, exv, p as int),
                base.max_id + doc_annots_upto(src, src.pages.len() as int)
                    + total_annots_from(ov, k + 1) <= u32::MAX,
                dseq == dropped@.take(dseq.len() as int),
                dseq.len() <= dropped@.len(),
                dropped@ =~= dseq + dropped_for((k + 1) as usize, p as int, plen as int),
            decreases src_doc.pages.len() - p,
        {
            proof {
                lemma_doc_annots_split(src, p as int);
                lemma_merge_doc_upto_facts(base, src, exv, p as int);
            }
            let ghost cur = main@;
            if p < plen {
                let page_id = main.pages[p];
                proof {
                    assert(page_id == cur.pages[p as int]);
                    assert(page_annots_ok(cur, page_id)) by {
                        assert(wf(cur));
                    }
                }
                let ids = read_annotation_ids(src_doc, src_doc.pages[p]);
                let ghost idsv = ids@;
                proof {
                    assert(idsv == annot_ids(src, src.pages[p as int]));
                    assert(doc_annots_from(src, p as int)
                        == idsv.len() + doc_annots_from(src, p + 1));
                    lemma_doc_annots_split(src, p + 1);
                }
                let mut refs: Vec<ObjId> = Vec::new();
                let mut q: usize = 0;
                while q < ids.len()
                    invariant
                        exv == byte_views(exclude@),
                        k < others@.len(),
                        src == others@[k as int]@,
                        src_doc@ == src,
                        q <= idsv.len(),
                        idsv == ids@,
                        (main@, refs@) == copy_annots_upto(cur, src, idsv, exv, q as int),
                        main@.max_id + (idsv.len() - q) + doc_annots_from(src, p + 1)
                            + total_annots_from(ov, k + 1) <= u32::MAX,
                    decreases ids.len() - q,
                {
                    let a = ids[q];
                    let ghost d1v = main@;
                    let mut qual = false;
                    match src_doc.get_object(a) {
                        Some(o) => match o {
                            PdfObject::Dictionary(_) => {
                                qual = true;
                            },
                            _ => {
                                proof {
                                    assert(!(view_obj(*o) is Dictionary));
                                }
                            },
                        },
                        None => {},
                    }
                    assert(qual == (src.objects.contains_key(idsv[q as int])
                        && src.objects[idsv[q as int]] is Dictionary));
                    if qual {
                        let st = annotation_subtype(src_doc, a);
                        if bytes_in(exclude, &st) {
                            qual = false;
                        }
                    }
                    assert(qual == qualifies(src, idsv[q as int], exv));
                    if qual {
                        let obj = match src_doc.get_object(a) {
                            Some(o) => clone_object(o),
                            None => vstd::pervasive::unreached(),
                        };
                        let nid = main.add_object(obj);
                        refs.push(nid);
                        proof {
                            assert(nid == (ObjId { num: (d1v.max_id + 1) as u32, gen: 0u16 }));
                            assert(main@.objects == d1v.objects.insert(nid, src.objects[idsv[q as int]]));
                            assert((main@, refs@) == copy_annots_upto(cur, src, idsv, exv, q + 1));
                        }
                    } else {
                        proof {
                            assert((main@, refs@) == copy_annots_upto(cur, src, idsv, exv, q + 1));
                        }
                    }
                    q += 1;
                }
                proof {
                    assert forall|j: int| 0 <= j < idsv.len()
                        implies src.objects.contains_key(#[trigger] idsv[j])
                            && src.objects[idsv[j]] is Dictionary by {
                        assert(annot_ids(src, src.pages[p as int]).contains(idsv[j]));
                    }
                    lemma_copy_upto_facts(cur, src, idsv, exv, idsv.len() as int);
                    assert(idsv.take(idsv.len() as int) =~= idsv);
                }
                if refs.len() > 0 {
                    proof {
                        lemma_ok_preserved(cur, main@, page_id);
                    }
                    append_annotation_refs(main, page_id, &refs);
                }
                proof {
                    assert(main@ == copy_page(cur, src, exv, p as int));
                    assert(main@ == merge_doc_upto(base, src, exv, p + 1));
                }
            } else {
                let ghost dold = dropped@;
                dropped.push((k1, p + 1));
                proof {
                    assert(dropped@ =~= dold.push(((k + 1) as usize, (p + 1) as usize)));
                    assert(dropped_for((k + 1) as usize, p + 1, plen as int)
                        =~= dropped_for((k + 1) as usize, p as int, plen as int)
                            .push(((k + 1) as usize, (p + 1) as usize)));
                    assert(main@ == merge_doc_upto(base, src, exv, p + 1));
                }
            }
            p += 1;
            proof {
                if p <= plen {
                    assert(dropped_for((k + 1) as usize, p as int, plen as int)
                        =~= dropped_for((k + 1) as usize, p - 1, plen as int));
                }
                assert(dseq =~= dropped@.take(dseq.len() as int));
            }
        }
        k += 1;
        proof {
            lemma_merge_doc_upto_facts(base, src, exv, src.pages.len() as int);
            assert(main@ == merge_all_upto(d0, ov, exv, k as int));
            assert(dropped@ =~= dropped_upto(ov, plen as int, k as int));
        }
    }
    dropped
}

} // verus!
