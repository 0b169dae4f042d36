//! The strip engine: deletes the annotation objects whose subtype is not
//! in the exclusion set, and prunes the corresponding references from
//! each page's annotation array.

use vstd::prelude::*;
use crate::objects::{
    DocView, ObjId, ObjView, PdfDocument, PdfObject, byte_views, bytes_in, clone_dict,
    clone_object, dict_get, id_in, view_obj, view_objs, lemma_view_objs, lemma_table_pairs,
    table_pairs, map_of_pairs,
};
use crate::annots::{
    annot_ids, annots_array, annots_key, annots_key_vec, page_annots_entry, page_annots_ok,
    page_dict_entries, read_annotation_ids, annotation_subtype, subtype_of, wf,
};

verus! {

/// Whether `a` is attached as an annotation to one of the first `n` pages.
pub open spec fn on_page_upto(d: DocView, a: ObjId, n: int) -> bool {
    exists|i: int| 0 <= i < n && annot_ids(d, #[trigger] d.pages[i]).contains(a)
}

/// Whether `a` is attached as an annotation to some page.
pub open spec fn on_some_page(d: DocView, a: ObjId) -> bool {
    on_page_upto(d, a, d.pages.len() as int)
}

/// Whether stripping with exclusion set `ex` deletes the object `a`: it
/// is an annotation of some page and its subtype is not excluded.
pub open spec fn is_delete_target(d: DocView, ex: Seq<Seq<u8>>, a: ObjId) -> bool {
    on_some_page(d, a) && !ex.contains(subtype_of(d, a))
}

/// An array with the references to the given identifiers dropped;
/// every other entry stays, in order.
pub open spec fn pruned_by(items: Seq<ObjView>, del: Seq<ObjId>) -> Seq<ObjView>
    decreases items.len(),
{
    if items.len() == 0 {
        Seq::empty()
    } else {
        pruned_by(items.drop_last(), del) + match items.last() {
            ObjView::Reference(r) => if del.contains(r) {
                Seq::empty()
            } else {
                seq![items.last()]
            },
            _ => seq![items.last()],
        }
    }
}

/// A pruning that drops nothing leaves the array as it is.
pub proof fn lemma_pruned_same_len(items: Seq<ObjView>, del: Seq<ObjId>)
    requires
        pruned_by(items, del).len() == items.len(),
    ensures
        pruned_by(items, del) == items,
    decreases items.len(),
{
    if items.len() > 0 {
        lemma_pruned_len(items.drop_last(), del);
        lemma_pruned_same_len(items.drop_last(), del);
        assert(pruned_by(items, del) =~= items);
    }
}

/// A pruned array is never longer than the array.
pub proof fn lemma_pruned_len(items: Seq<ObjView>, del: Seq<ObjId>)
    ensures
        pruned_by(items, del).len() <= items.len(),
    decreases items.len(),
{
    if items.len() > 0 {
        lemma_pruned_len(items.drop_last(), del);
    }
}

/// The identifiers of a reference list that are not in the delete list,
/// in order.
pub open spec fn kept_refs(ids: Seq<ObjId>, del: Seq<ObjId>) -> Seq<ObjId>
    decreases ids.len(),
{
    if ids.len() == 0 {
        Seq::empty()
    } else {
        kept_refs(ids.drop_last(), del) + if del.contains(ids.last()) {
            Seq::empty()
        } else {
            seq![ids.last()]
        }
    }
}

/// The references left after pruning are the ones not deleted, in order.
pub proof fn lemma_pruned_refs(items: Seq<ObjView>, del: Seq<ObjId>)
    ensures
        crate::annots::refs_of(pruned_by(items, del))
            == kept_refs(crate::annots::refs_of(items), del),
    decreases items.len(),
{
    if items.len() == 0 {
        assert(crate::annots::refs_of(items) =~= Seq::<ObjId>::empty());
        assert(pruned_by(items, del) =~= Seq::<ObjView>::empty());
    } else {
        let hd = items.drop_last();
        lemma_pruned_refs(hd, del);
        let ph = pruned_by(hd, del);
        let p2 = pruned_by(items, del);
        let rh = crate::annots::refs_of(hd);
        let ri = crate::annots::refs_of(items);
        match items.last() {
            ObjView::Reference(r) => {
                assert(ri =~= rh.push(r));
                assert(ri.len() > 0);
                assert(ri.last() == r);
                assert(ri.drop_last() =~= rh);
                if del.contains(r) {
                    assert(p2 =~= ph);
                    assert(kept_refs(ri, del) =~= kept_refs(rh, del));
                } else {
                    assert(p2 =~= ph.push(items.last()));
                    assert(p2.len() > 0);
                    assert(p2.last() == items.last());
                    assert(p2.drop_last() =~= ph);
                    assert(crate::annots::refs_of(p2)
                        == crate::annots::refs_of(ph) + seq![r]);
                    assert(kept_refs(ri, del) == kept_refs(rh, del) + seq![r]);
                }
            },
            _ => {
                assert(ri =~= rh);
                assert(p2 =~= ph.push(items.last()));
                assert(p2.len() > 0);
                assert(p2.last() == items.last());
                assert(p2.drop_last() =~= ph);
                assert(crate::annots::refs_of(p2) =~= crate::annots::refs_of(ph));
            },
        }
    }
}

/// One page's pruning step: where the page's array, read in the original
/// document `d0`, loses at least one entry, the shrunk array is written
/// into `cur` at the place the array lives; otherwise nothing changes.
pub open spec fn prune_page(d0: DocView, del: Seq<ObjId>, cur: DocView, i: int) -> DocView {
    let page = d0.pages[i];
    match page_annots_entry(d0, page) {
        Some(ObjView::Array(items)) => if pruned_by(items, del).len() == items.len() {
            cur
        } else {
            DocView {
                objects: cur.objects.insert(
                    page,
                    ObjView::Dictionary(page_dict_entries(d0, page).push(
                        (annots_key(), ObjView::Array(pruned_by(items, del))),
                    )),
                ),
                ..cur
            }
        },
        Some(ObjView::Reference(r)) => {
            let items = annots_array(d0, page);
            if pruned_by(items, del).len() == items.len() {
                cur
            } else {
                DocView {
                    objects: cur.objects.insert(r, ObjView::Array(pruned_by(items, del))),
                    ..cur
                }
            }
        },
        _ => cur,
    }
}

/// The document after pruning the arrays of the first `n` pages.
pub open spec fn prune_upto(d0: DocView, del: Seq<ObjId>, n: int) -> DocView
    decreases n,
{
    if n <= 0 {
        d0
    } else {
        prune_page(d0, del, prune_upto(d0, del, n - 1), n - 1)
    }
}

/// The identifiers that stripping deletes, in the order they are found:
/// page by page, and within a page in array order, each listed once.
pub open spec fn delete_list_upto(d: DocView, ex: Seq<Seq<u8>>, n: int) -> Seq<ObjId>
    decreases n,
{
    if n <= 0 {
        Seq::empty()
    } else {
        let prev = delete_list_upto(d, ex, n - 1);
        prev + new_targets(d, ex, prev, annot_ids(d, d.pages[n - 1]))
    }
}

/// The identifiers of `ids` that are delete targets and not yet in `seen`,
/// each listed once.
pub open spec fn new_targets(d: DocView, ex: Seq<Seq<u8>>, seen: Seq<ObjId>, ids: Seq<ObjId>) -> Seq<ObjId>
    decreases ids.len(),
{
    if ids.len() == 0 {
        Seq::empty()
    } else {
        let prev = new_targets(d, ex, seen, ids.drop_last());
        let a = ids.last();
        if !ex.contains(subtype_of(d, a)) && !(seen + prev).contains(a) {
            prev + seq![a]
        } else {
            prev
        }
    }
}

/// The full delete list of a strip.
pub open spec fn delete_list(d: DocView, ex: Seq<Seq<u8>>) -> Seq<ObjId> {
    delete_list_upto(d, ex, d.pages.len() as int)
}

/// The document a strip produces: every page's annotation array pruned
/// of the deleted references, and the deleted objects removed from the
/// object table.
pub open spec fn strip_view(d: DocView, ex: Seq<Seq<u8>>) -> DocView {
    let del = delete_list(d, ex);
    let pr = prune_upto(d, del, d.pages.len() as int);
    DocView {
        max_id: d.max_id,
        pages: d.pages,
        objects: pr.objects.remove_keys(Set::new(|a: ObjId| del.contains(a))),
    }
}

/// An element stands in a concatenation exactly when it stands in a part.
pub proof fn lemma_concat_contains<T>(l1: Seq<T>, l2: Seq<T>, x: T)
    ensures
        (l1 + l2).contains(x) <==> (l1.contains(x) || l2.contains(x)),
{
    if (l1 + l2).contains(x) {
        let j = choose|j: int| 0 <= j < (l1 + l2).len() && (l1 + l2)[j] == x;
        if j < l1.len() {
            assert(l1[j] == x);
        } else {
            assert(l2[j - l1.len()] == x);
        }
    }
    if l1.contains(x) {
        let j = choose|j: int| 0 <= j < l1.len() && l1[j] == x;
        assert((l1 + l2)[j] == x);
    }
    if l2.contains(x) {
        let j = choose|j: int| 0 <= j < l2.len() && l2[j] == x;
        assert((l1 + l2)[j + l1.len()] == x);
    }
}

/// What ends up in the delete list while one page's annotations are
/// scanned: what was already there, and the page's unexcluded ones.
pub proof fn lemma_new_targets_contains(d: DocView, ex: Seq<Seq<u8>>, seen: Seq<ObjId>, ids: Seq<ObjId>, a: ObjId)
    ensures
        (seen + new_targets(d, ex, seen, ids)).contains(a)
            <==> (seen.contains(a) || (ids.contains(a) && !ex.contains(subtype_of(d, a)))),
    decreases ids.len(),
{
    let nt = new_targets(d, ex, seen, ids);
    lemma_concat_contains(seen, nt, a);
    if ids.len() == 0 {
    } else {
        let hd = ids.drop_last();
        let prev = new_targets(d, ex, seen, hd);
        let a2 = ids.last();
        lemma_new_targets_contains(d, ex, seen, hd, a);
        lemma_new_targets_contains(d, ex, seen, hd, a2);
        lemma_concat_contains(seen, prev, a);
        lemma_concat_contains(seen, prev, a2);
        assert(ids.contains(a) <==> (hd.contains(a) || a2 == a)) by {
            if ids.contains(a) {
                let j = choose|j: int| 0 <= j < ids.len() && ids[j] == a;
                if j < hd.len() {
                    assert(hd[j] == a);
                }
            }
            if hd.contains(a) {
                let j = choose|j: int| 0 <= j < hd.len() && hd[j] == a;
                assert(ids[j] == a);
            }
            if a2 == a {
                assert(ids[ids.len() - 1] == a);
            }
        }
        if !ex.contains(subtype_of(d, a2)) && !(seen + prev).contains(a2) {
            assert(nt == prev + seq![a2]);
            lemma_concat_contains(prev, seq![a2], a);
            assert(seq![a2].contains(a) <==> a == a2) by {
                if seq![a2].contains(a) {
                    let j = choose|j: int| 0 <= j < 1 && seq![a2][j] == a;
                    assert(seq![a2][0] == a2);
                }
                if a == a2 {
                    assert(seq![a2][0] == a);
                }
            }
        } else {
            assert(nt == prev);
        }
    }
}

/// The delete list holds exactly the delete targets.
pub proof fn lemma_delete_list_contains(d: DocView, ex: Seq<Seq<u8>>, a: ObjId)
    ensures
        delete_list(d, ex).contains(a) <==> is_delete_target(d, ex, a),
{
    lemma_delete_upto_contains(d, ex, d.pages.len() as int, a);
}

proof fn lemma_delete_upto_contains(d: DocView, ex: Seq<Seq<u8>>, n: int, a: ObjId)
    requires
        n <= d.pages.len(),
    ensures
        delete_list_upto(d, ex, n).contains(a)
            <==> (on_page_upto(d, a, n) && !ex.contains(subtype_of(d, a))),
    decreases n,
{
    if n <= 0 {
        assert(!on_page_upto(d, a, n));
    } else {
        let prev = delete_list_upto(d, ex, n - 1);
        lemma_delete_upto_contains(d, ex, n - 1, a);
        lemma_new_targets_contains(d, ex, prev, annot_ids(d, d.pages[n - 1]), a);
        assert(on_page_upto(d, a, n)
            <==> (on_page_upto(d, a, n - 1) || annot_ids(d, d.pages[n - 1]).contains(a))) by {
            if on_page_upto(d, a, n) {
                let i = choose|i: int| 0 <= i < n && annot_ids(d, #[trigger] d.pages[i]).contains(a);
                if i < n - 1 {
                    assert(on_page_upto(d, a, n - 1));
                }
            }
            if on_page_upto(d, a, n - 1) {
                let i = choose|i: int| 0 <= i < n - 1 && annot_ids(d, #[trigger] d.pages[i]).contains(a);
                assert(annot_ids(d, d.pages[i]).contains(a));
            }
        }
    }
}

/// Table entries restricted to the identifiers outside the delete list.
pub open spec fn filter_pairs(q: Seq<(ObjId, ObjView)>, del: Seq<ObjId>) -> Seq<(ObjId, ObjView)>
    decreases q.len(),
{
    if q.len() == 0 {
        Seq::empty()
    } else {
        filter_pairs(q.drop_last(), del) + if del.contains(q.last().0) {
            Seq::empty()
        } else {
            seq![q.last()]
        }
    }
}

/// Dropping all entries of the deleted identifiers restricts the table
/// map to the other identifiers and changes no kept value.
pub proof fn lemma_filter_pairs_map(q: Seq<(ObjId, ObjView)>, del: Seq<ObjId>, k: ObjId)
    ensures
        map_of_pairs(filter_pairs(q, del)).contains_key(k)
            <==> (map_of_pairs(q).contains_key(k) && !del.contains(k)),
        map_of_pairs(filter_pairs(q, del)).contains_key(k)
            ==> map_of_pairs(filter_pairs(q, del))[k] == map_of_pairs(q)[k],
    decreases q.len(),
{
    if q.len() > 0 {
        let hd = q.drop_last();
        let fh = filter_pairs(hd, del);
        let fq = filter_pairs(q, del);
        lemma_filter_pairs_map(hd, del, k);
        if del.contains(q.last().0) {
            assert(fq =~= fh);
        } else {
            assert(fq =~= fh.push(q.last()));
            assert(fq.len() > 0);
            assert(fq.last() == q.last());
            assert(fq.drop_last() =~= fh);
        }
    }
}

/// What the first `n` pruning steps do to the document: the pruned
/// pages' arrays shrink to the kept entries, every other page and every
/// object that holds no page's array stays as it is.
pub proof fn lemma_prune_upto_props(d: DocView, del: Seq<ObjId>, n: int)
    requires
        wf(d),
        0 <= n <= d.pages.len(),
    ensures
        ({
            let pr = prune_upto(d, del, n);
            &&& pr.pages == d.pages
            &&& pr.max_id == d.max_id
            &&& forall|k: ObjId| pr.objects.contains_key(k) <==> d.objects.contains_key(k)
            &&& forall|i: int| 0 <= i < n
                ==> annots_array(pr, #[trigger] d.pages[i])
                    == pruned_by(annots_array(d, d.pages[i]), del)
            &&& forall|i: int| n <= i < d.pages.len()
                ==> pr.objects[#[trigger] d.pages[i]] == d.objects[d.pages[i]]
                    && page_annots_entry(pr, d.pages[i]) == page_annots_entry(d, d.pages[i])
                    && annots_array(pr, d.pages[i]) == annots_array(d, d.pages[i])
            &&& forall|i: int| n <= i < d.pages.len()
                ==> (match page_annots_entry(d, #[trigger] d.pages[i]) {
                    Some(ObjView::Reference(rq)) => pr.objects[rq] == d.objects[rq],
                    _ => true,
                })
            &&& forall|i: int| 0 <= i < d.pages.len()
                ==> (page_annots_entry(pr, #[trigger] d.pages[i]) == page_annots_entry(d, d.pages[i])
                    || (page_annots_entry(pr, d.pages[i]) matches Some(ObjView::Array(_))))
            &&& forall|k: ObjId|
                d.objects.contains_key(k) && !d.pages.contains(k)
                    && d.objects[k] is Dictionary
                    ==> #[trigger] pr.objects[k] == d.objects[k]
            &&& forall|i: int| 0 <= i < d.pages.len()
                ==> pr.objects[#[trigger] d.pages[i]] is Dictionary
            &&& forall|i: int| 0 <= i < d.pages.len()
                ==> (match page_annots_entry(d, #[trigger] d.pages[i]) {
                    Some(ObjView::Reference(rq)) => pr.objects[rq] is Array,
                    _ => true,
                })
        }),
    decreases n,
{
    if n > 0 {
        lemma_prune_upto_props(d, del, n - 1);
        let prev = prune_upto(d, del, n - 1);
        let pr = prune_upto(d, del, n);
        let page = d.pages[n - 1];
        assert(page_annots_ok(d, page)) by {
            assert(0 <= n - 1 < d.pages.len());
        }
        assert(d.pages.contains(page)) by {
            assert(d.pages[n - 1] == page);
        }
        match page_annots_entry(d, page) {
            Some(ObjView::Array(items)) => {
                if pruned_by(items, del).len() == items.len() {
                    lemma_pruned_same_len(items, del);
                    assert(pr == prev);
                    assert(annots_array(prev, page) == annots_array(d, page));
                    assert(annots_array(pr, page) == pruned_by(items, del));
                } else {
                    let entries2 = page_dict_entries(d, page).push(
                        (annots_key(), ObjView::Array(pruned_by(items, del))),
                    );
                    assert(pr.objects == prev.objects.insert(page, ObjView::Dictionary(entries2)));
                    assert(dict_get(entries2, annots_key())
                        == Some(ObjView::Array(pruned_by(items, del))));
                    assert(page_annots_entry(pr, page)
                        == Some(ObjView::Array(pruned_by(items, del))));
                    assert(annots_array(pr, page) == pruned_by(items, del));
                    assert forall|i: int| 0 <= i < d.pages.len() && d.pages[i] != page implies
                        !(page_annots_entry(d, #[trigger] d.pages[i]) matches Some(ObjView::Reference(rq))
                            && rq == page) by {
                        assert(page_annots_ok(d, d.pages[i]));
                        match page_annots_entry(d, d.pages[i]) {
                            Some(ObjView::Reference(rq)) => {
                                assert(d.objects[rq] is Array);
                                assert(d.objects[page] is Dictionary);
                            },
                            _ => {},
                        }
                    }
                    lemma_prune_step_others(d, prev, pr, page, page);
                    assert forall|i: int| 0 <= i < n - 1 implies
                        annots_array(pr, #[trigger] d.pages[i])
                            == pruned_by(annots_array(d, d.pages[i]), del) by {
                        assert(d.pages[i] != page);
                    }
                    assert forall|k: ObjId|
                        d.objects.contains_key(k) && !d.pages.contains(k)
                            && d.objects[k] is Dictionary
                            implies #[trigger] pr.objects[k] == d.objects[k] by {
                        assert(k != page);
                    }
                    assert forall|i: int| n <= i < d.pages.len() implies
                        (match page_annots_entry(d, #[trigger] d.pages[i]) {
                            Some(ObjView::Reference(rq)) => pr.objects[rq] == d.objects[rq],
                            _ => true,
                        }) by {
                        assert(page_annots_ok(d, d.pages[i]));
                        match page_annots_entry(d, d.pages[i]) {
                            Some(ObjView::Reference(rq)) => {
                                assert(d.objects[rq] is Array);
                                assert(d.objects[page] is Dictionary);
                                assert(rq != page);
                                assert(pr.objects[rq] == prev.objects[rq]);
                            },
                            _ => {},
                        }
                    }
                    assert forall|i: int| 0 <= i < d.pages.len() implies
                        pr.objects[#[trigger] d.pages[i]] is Dictionary by {
                        if d.pages[i] != page {
                            assert(pr.objects[d.pages[i]] == prev.objects[d.pages[i]]);
                        }
                    }
                    assert forall|i: int| 0 <= i < d.pages.len() implies
                        (match page_annots_entry(d, #[trigger] d.pages[i]) {
                            Some(ObjView::Reference(rq)) => pr.objects[rq] is Array,
                            _ => true,
                        }) by {
                        assert(page_annots_ok(d, d.pages[i]));
                        match page_annots_entry(d, d.pages[i]) {
                            Some(ObjView::Reference(rq)) => {
                                assert(d.objects[rq] is Array);
                                assert(rq != page);
                                assert(pr.objects[rq] == prev.objects[rq]);
                            },
                            _ => {},
                        }
                    }
                }
            },
            Some(ObjView::Reference(r)) => {
                let items = annots_array(d, page);
                assert(d.objects.contains_key(r) && d.objects[r] is Array);
                if pruned_by(items, del).len() == items.len() {
                    lemma_pruned_same_len(items, del);
                    assert(pr == prev);
                    assert(annots_array(pr, page) == pruned_by(items, del));
                } else {
                    assert(pr.objects == prev.objects.insert(r, ObjView::Array(pruned_by(items, del))));
                    assert(r != page) by {
                        assert(d.objects[page] is Dictionary);
                    }
                    assert(!d.pages.contains(r)) by {
                        if d.pages.contains(r) {
                            let j = choose|j: int| 0 <= j < d.pages.len() && d.pages[j] == r;
                            assert(page_annots_ok(d, d.pages[j]));
                            assert(d.objects[r] is Dictionary);
                        }
                    }
                    assert(pr.objects[page] == prev.objects[page]);
                    assert(page_annots_entry(pr, page) == page_annots_entry(prev, page));
                    assert(page_annots_entry(prev, page) == page_annots_entry(d, page));
                    assert(annots_array(pr, page) == pruned_by(items, del));
                    assert forall|i: int| 0 <= i < d.pages.len() && d.pages[i] != page implies
                        !(page_annots_entry(d, #[trigger] d.pages[i]) matches Some(ObjView::Reference(rq))
                            && rq == r) by {
                        match page_annots_entry(d, d.pages[i]) {
                            Some(ObjView::Reference(rq)) => {
                                if rq == r {
                                    assert(page_annots_entry(d, d.pages[i])
                                        == page_annots_entry(d, d.pages[n - 1]));
                                }
                            },
                            _ => {},
                        }
                    }
                    lemma_prune_step_others(d, prev, pr, page, r);
                    assert forall|i: int| 0 <= i < n - 1 implies
                        annots_array(pr, #[trigger] d.pages[i])
                            == pruned_by(annots_array(d, d.pages[i]), del) by {
                        assert(d.pages[i] != page);
                    }
                    assert forall|k: ObjId|
                        d.objects.contains_key(k) && !d.pages.contains(k)
                            && d.objects[k] is Dictionary
                            implies #[trigger] pr.objects[k] == d.objects[k] by {
                        assert(k != r);
                    }
                    assert forall|i: int| n <= i < d.pages.len() implies
                        (match page_annots_entry(d, #[trigger] d.pages[i]) {
                            Some(ObjView::Reference(rq)) => pr.objects[rq] == d.objects[rq],
                            _ => true,
                        }) by {
                        match page_annots_entry(d, d.pages[i]) {
                            Some(ObjView::Reference(rq)) => {
                                if rq == r {
                                    assert(page_annots_entry(d, d.pages[i])
                                        == page_annots_entry(d, d.pages[n - 1]));
                                    assert(false);
                                }
                                assert(pr.objects[rq] == prev.objects[rq]);
                            },
                            _ => {},
                        }
                    }
                    assert forall|i: int| 0 <= i < d.pages.len() implies
                        pr.objects[#[trigger] d.pages[i]] is Dictionary by {
                        assert(page_annots_ok(d, d.pages[i]));
                        assert(d.pages[i] != r);
                        assert(pr.objects[d.pages[i]] == prev.objects[d.pages[i]]);
                    }
                    assert forall|i: int| 0 <= i < d.pages.len() implies
                        (match page_annots_entry(d, #[trigger] d.pages[i]) {
                            Some(ObjView::Reference(rq)) => pr.objects[rq] is Array,
                            _ => true,
                        }) by {
                        assert(page_annots_ok(d, d.pages[i]));
                        match page_annots_entry(d, d.pages[i]) {
                            Some(ObjView::Reference(rq)) => {
                                if rq == r {
                                } else {
                                    assert(pr.objects[rq] == prev.objects[rq]);
                                }
                            },
                            _ => {},
                        }
                    }
                }
            },
            _ => {
                assert(pr == prev);
                assert(annots_array(d, page) =~= Seq::<ObjView>::empty());
                assert(annots_array(pr, page) == annots_array(d, page));
                assert(pruned_by(annots_array(d, page), del) =~= Seq::<ObjView>::empty());
            },
        }
    }
}

/// One pruning step, writing at `touched` for the sake of `page`, leaves
/// every other page's entry and annotation array alone.
proof fn lemma_prune_step_others(d: DocView, prev: DocView, pr: DocView, page: ObjId, touched: ObjId)
    requires
        wf(d),
        prev.pages == d.pages,
        forall|k: ObjId| prev.objects.contains_key(k) <==> d.objects.contains_key(k),
        forall|k: ObjId| pr.objects.contains_key(k) <==> prev.objects.contains_key(k),
        forall|k: ObjId| prev.objects.contains_key(k) && k != touched
            ==> #[trigger] pr.objects[k] == prev.objects[k],
        forall|i: int| 0 <= i < d.pages.len()
            ==> page_annots_entry(prev, #[trigger] d.pages[i]) == page_annots_entry(d, d.pages[i])
                || page_annots_entry(prev, d.pages[i]) matches Some(ObjView::Array(_)),
        d.pages.contains(page),
        touched == page || !d.pages.contains(touched),
        forall|i: int| 0 <= i < d.pages.len() && d.pages[i] != page
            ==> !(page_annots_entry(d, #[trigger] d.pages[i]) matches Some(ObjView::Reference(rq))
                && rq == touched),
    ensures
        forall|i: int| 0 <= i < d.pages.len() && d.pages[i] != page
            ==> page_annots_entry(pr, #[trigger] d.pages[i]) == page_annots_entry(prev, d.pages[i])
                && annots_array(pr, d.pages[i]) == annots_array(prev, d.pages[i]),
{
    assert forall|i: int| 0 <= i < d.pages.len() && d.pages[i] != page implies
        page_annots_entry(pr, #[trigger] d.pages[i]) == page_annots_entry(prev, d.pages[i])
            && annots_array(pr, d.pages[i]) == annots_array(prev, d.pages[i]) by {
        let q = d.pages[i];
        assert(page_annots_ok(d, q));
        assert(q != touched) by {
            if touched == page {
            } else {
                assert(d.pages.contains(q)) by {
                    assert(d.pages[i] == q);
                }
            }
        }
        assert(d.objects.contains_key(q));
        assert(prev.objects.contains_key(q));
        assert(pr.objects[q] == prev.objects[q]);
        assert(page_annots_entry(pr, q) == page_annots_entry(prev, q));
        match page_annots_entry(prev, q) {
            Some(ObjView::Reference(rq)) => {
                assert(page_annots_entry(prev, q) == page_annots_entry(d, q));
                assert(rq != touched);
                if prev.objects.contains_key(rq) {
                    assert(pr.objects[rq] == prev.objects[rq]);
                }
            },
            _ => {},
        }
    }
}

/// Drops the references to the given identifiers from an array.
fn prune_refs(items: &Vec<PdfObject>, del: &Vec<ObjId>) -> (r: Vec<PdfObject>)
    ensures
        view_objs(r@) == pruned_by(view_objs(items@), del@),
{
    proof {
        lemma_view_objs(items@);
    }
    let ghost iv = view_objs(items@);
    let mut out: Vec<PdfObject> = Vec::new();
    let mut q: usize = 0;
    while q < items.len()
        invariant
            q <= items.len(),
            iv == view_objs(items@),
            iv.len() == items@.len(),
            forall|j: int| 0 <= j < items@.len() ==> iv[j] == view_obj(#[trigger] items@[j]),
            view_objs(out@) == pruned_by(iv.take(q as int), del@),
        decreases items.len() - q,
    {
        proof {
            assert(iv.take(q + 1).drop_last() =~= iv.take(q as int));
            assert(iv.take(q + 1).last() == iv[q as int]);
        }
        let ghost before = out@;
        let keep: bool = match &items[q] {
            PdfObject::Reference(id) => !id_in(del, *id),
            _ => true,
        };
        if keep {
            out.push(clone_object(&items[q]));
            proof {
                crate::objects::lemma_view_objs_push(before, out@.last());
                assert(view_objs(out@)
                    =~= pruned_by(iv.take(q as int), del@).push(iv[q as int]));
                assert(pruned_by(iv.take(q + 1), del@)
                    =~= pruned_by(iv.take(q as int), del@).push(iv[q as int]));
            }
        } else {
            proof {
                assert(pruned_by(iv.take(q + 1), del@)
                    =~= pruned_by(iv.take(q as int), del@));
            }
        }
        q += 1;
    }
    proof {
        assert(iv.take(iv.len() as int) =~= iv);
    }
    out
}

/// Deletes every annotation whose subtype is not in the exclusion list,
/// pruning the deleted references from the pages' annotation arrays and
/// removing the annotation objects from the table.  Returns how many
/// objects were deleted.
pub fn strip_annotations(doc: &mut PdfDocument, exclude: &Vec<Vec<u8>>) -> (n: usize)
    requires
        wf(old(doc)@),
    ensures
        final(doc)@ == strip_view(old(doc)@, byte_views(exclude@)),
        wf(final(doc)@),
        n == delete_list(old(doc)@, byte_views(exclude@)).len(),
        (n == 0) <==> (forall|a: ObjId|
            !is_delete_target(old(doc)@, byte_views(exclude@), a)),
{
    let ghost d = old(doc)@;
    let ghost ex = byte_views(exclude@);
    let mut del: Vec<ObjId> = Vec::new();
    let mut p: usize = 0;
    while p < doc.pages.len()
        invariant
            doc == old(doc),
            wf(d),
            d == doc@,
            p <= d.pages.len(),
            del@ == delete_list_upto(d, ex, p as int),
            ex == byte_views(exclude@),
        decreases doc.pages.len() - p,
    {
        let ids = read_annotation_ids(doc, doc.pages[p]);
        let ghost idsv = ids@;
        let ghost seen = del@;
        proof {
            assert(idsv.take(0) =~= Seq::<ObjId>::empty());
            assert(new_targets(d, ex, seen, idsv.take(0)) =~= Seq::<ObjId>::empty());
            assert(del@ =~= seen + new_targets(d, ex, seen, idsv.take(0)));
        }
        let mut q: usize = 0;
        while q < ids.len()
            invariant
                doc == old(doc),
                d == doc@,
                q <= idsv.len(),
                idsv == ids@,
                idsv == annot_ids(d, d.pages[p as int]),
                ex == byte_views(exclude@),
                del@ == seen + new_targets(d, ex, seen, idsv.take(q as int)),
            decreases ids.len() - q,
        {
            let ghost prev = new_targets(d, ex, seen, idsv.take(q as int));
            proof {
                assert(idsv.take(q + 1).drop_last() =~= idsv.take(q as int));
                assert(idsv.take(q + 1).last() == idsv[q as int]);
            }
            let st = annotation_subtype(doc, ids[q]);
            if !bytes_in(exclude, &st) && !id_in(&del, ids[q]) {
                del.push(ids[q]);
                proof {
                    assert(del@ =~= (seen + prev).push(idsv[q as int]));
                    assert(del@ =~= seen + (prev + seq![idsv[q as int]]));
                    assert(new_targets(d, ex, seen, idsv.take(q + 1))
                        == prev + seq![idsv[q as int]]);
                }
            } else {
                proof {
                    assert(new_targets(d, ex, seen, idsv.take(q + 1)) == prev);
                }
            }
            q += 1;
        }
        p += 1;
        proof {
            assert(idsv.take(idsv.len() as int) =~= idsv);
            assert(del@ == delete_list_upto(d, ex, p as int));
        }
    }
    let n = del.len();
    let ghost delv = del@;
    proof {
        assert(delv == delete_list(d, ex));
        if n == 0 {
            assert forall|a: ObjId| !is_delete_target(d, ex, a) by {
                lemma_delete_list_contains(d, ex, a);
            }
        } else {
            lemma_delete_list_contains(d, ex, delv[0]);
            assert(delv.contains(delv[0]));
            assert(is_delete_target(d, ex, delv[0]));
        }
    }
    let akey = annots_key_vec();
    let mut p2: usize = 0;
    while p2 < doc.pages.len()
        invariant
            wf(d),
            delv == del@,
            p2 <= d.pages.len(),
            doc@ == prune_upto(d, delv, p2 as int),
            doc@.pages == d.pages,
            akey@ == annots_key(),
        decreases doc.pages.len() - p2,
    {
        proof {
            lemma_prune_upto_props(d, delv, p2 as int);
        }
        let ghost before = doc@;
        let page_id = doc.pages[p2];
        let ghost entry = page_annots_entry(d, page_id);
        proof {
            assert(page_annots_ok(d, page_id));
            assert(before.objects[page_id] == d.objects[page_id]);
            assert(page_annots_entry(before, page_id) == entry);
            assert(annots_array(before, page_id) == annots_array(d, page_id));
        }
        let mut target: Option<ObjId> = None;
        let mut new_items: Option<Vec<PdfObject>> = None;
        let mut page_dict: Option<crate::objects::PdfDict> = None;
        match doc.get_object(page_id) {
            Some(pobj) => match pobj {
                PdfObject::Dictionary(dict) => match dict.get(&akey) {
                    Some(entry_obj) => match entry_obj {
                        PdfObject::Array(items) => {
                            proof {
                                assert(entry == Some(ObjView::Array(view_objs(items@))));
                            }
                            let pruned_vec = prune_refs(items, &del);
                            proof {
                                lemma_view_objs(pruned_vec@);
                                lemma_view_objs(items@);
                            }
                            if pruned_vec.len() != items.len() {
                                new_items = Some(pruned_vec);
                                page_dict = Some(clone_dict(dict));
                            } else {
                                proof {
                                    lemma_view_objs(pruned_vec@);
                                    lemma_view_objs(items@);
                                }
                            }
                        },
                        PdfObject::Reference(r) => {
                            proof {
                                assert(entry == Some(ObjView::Reference(*r)));
                                assert(d.objects.contains_key(*r) && d.objects[*r] is Array);
                                assert(before.objects[*r] == d.objects[*r]);
                            }
                            target = Some(*r);
                            match doc.get_object(*r) {
                                Some(tobj) => match tobj {
                                    PdfObject::Array(items) => {
                                        proof {
                                            assert(annots_array(d, page_id) == view_objs(items@));
                                        }
                                        let pruned_vec = prune_refs(items, &del);
                                        proof {
                                            lemma_view_objs(pruned_vec@);
                                            lemma_view_objs(items@);
                                        }
                                        if pruned_vec.len() != items.len() {
                                            new_items = Some(pruned_vec);
                                        } else {
                                            proof {
                                                lemma_view_objs(pruned_vec@);
                                                lemma_view_objs(items@);
                                            }
                                        }
                                    },
                                    _ => {
                                        proof {
                                            assert(view_obj(*tobj) is Array);
                                            assert(false);
                                        }
                                    },
                                },
                                None => {
                                    proof {
                                        assert(false);
                                    }
                                },
                            }
                        },
                        _ => {
                            proof {
                                assert(page_annots_ok(d, page_id));
                                assert(entry == Some(view_obj(*entry_obj)));
                                assert(false);
                            }
                        },
                    },
                    None => {
                        proof {
                            assert(entry is None);
                        }
                    },
                },
                _ => {
                    proof {
                        assert(view_obj(*pobj) is Dictionary);
                        assert(false);
                    }
                },
            },
            None => {
                proof {
                    assert(false);
                }
            },
        }
        match (new_items, target) {
            (Some(items), Some(r)) => {
                proof {
                    lemma_view_objs(items@);
                }
                doc.set_object(r, PdfObject::Array(items));
                proof {
                    assert(doc@.objects == before.objects.insert(
                        r,
                        ObjView::Array(pruned_by(annots_array(d, page_id), delv)),
                    ));
                    assert(doc@ =~= prune_page(d, delv, before, p2 as int));
                }
            },
            (Some(items), None) => match page_dict {
                Some(mut nd) => {
                    let ghost ndv = nd@;
                    proof {
                        assert(ndv == page_dict_entries(d, page_id));
                        lemma_view_objs(items@);
                    }
                    let ak = crate::objects::clone_bytes(&akey);
                    nd.set(ak, PdfObject::Array(items));
                    doc.set_object(page_id, PdfObject::Dictionary(nd));
                    proof {
                        match entry {
                            Some(ObjView::Array(eitems)) => {
                                assert(doc@.objects == before.objects.insert(
                                    page_id,
                                    ObjView::Dictionary(page_dict_entries(d, page_id).push(
                                        (annots_key(), ObjView::Array(pruned_by(eitems, delv))),
                                    )),
                                ));
                            },
                            _ => {
                                assert(false);
                            },
                        }
                        assert(doc@ =~= prune_page(d, delv, before, p2 as int));
                    }
                },
                None => vstd::pervasive::unreached(),
            },
            _ => {
                proof {
                    assert(doc@ =~= prune_page(d, delv, before, p2 as int));
                }
            },
        }
        p2 += 1;
        proof {
            assert(doc@ == prune_upto(d, delv, p2 as int));
        }
    }
    let ghost pruned_doc = doc@;
    proof {
        assert(pruned_doc == prune_upto(d, delv, d.pages.len() as int));
        lemma_prune_upto_props(d, delv, d.pages.len() as int);
    }
    let ghost pairs = table_pairs(doc.objects@);
    proof {
        lemma_table_pairs(doc.objects@);
        assert(filter_pairs(pairs.take(0), delv) =~= Seq::<(ObjId, ObjView)>::empty());
        assert(table_pairs(Seq::<(ObjId, PdfObject)>::empty()) =~= Seq::<(ObjId, ObjView)>::empty());
    }
    let mut kept: Vec<(ObjId, PdfObject)> = Vec::new();
    let mut e: usize = 0;
    while e < doc.objects.len()
        invariant
            delv == del@,
            e <= doc.objects@.len(),
            pairs == table_pairs(doc.objects@),
            pairs.len() == doc.objects@.len(),
            forall|j: int| 0 <= j < doc.objects@.len()
                ==> pairs[j] == ((#[trigger] doc.objects@[j]).0, view_obj(doc.objects@[j].1)),
            table_pairs(kept@) == filter_pairs(pairs.take(e as int), delv),
        decreases doc.objects.len() - e,
    {
        proof {
            assert(pairs.take(e + 1).drop_last() =~= pairs.take(e as int));
            assert(pairs.take(e + 1).last() == pairs[e as int]);
        }
        let id = doc.objects[e].0;
        if !id_in(&del, id) {
            let ghost kb = kept@;
            let o = clone_object(&doc.objects[e].1);
            kept.push((id, o));
            proof {
                crate::objects::lemma_table_pairs_push(kb, id, kept@.last().1);
                assert(table_pairs(kept@) =~= filter_pairs(pairs.take(e as int), delv).push(pairs[e as int]));
                assert(filter_pairs(pairs.take(e + 1), delv)
                    =~= filter_pairs(pairs.take(e as int), delv).push(pairs[e as int]));
            }
        } else {
            proof {
                assert(filter_pairs(pairs.take(e + 1), delv)
                    =~= filter_pairs(pairs.take(e as int), delv));
            }
        }
        e += 1;
    }
    proof {
        assert(pairs.take(pairs.len() as int) =~= pairs);
    }
    doc.objects = kept;
    proof {
        let target = strip_view(d, ex);
        assert(doc@.objects == map_of_pairs(filter_pairs(pairs, delv)));
        assert(map_of_pairs(pairs) == pruned_doc.objects);
        assert forall|k: ObjId|
            #[trigger] doc@.objects.contains_key(k) <==> target.objects.contains_key(k) by {
            lemma_filter_pairs_map(pairs, delv, k);
        }
        assert forall|k: ObjId| #[trigger] doc@.objects.contains_key(k)
            implies doc@.objects[k] == target.objects[k] by {
            lemma_filter_pairs_map(pairs, delv, k);
        }
        assert(doc@.objects =~= target.objects);
        assert(doc@.pages == pruned_doc.pages);
        assert(doc@.max_id == pruned_doc.max_id);
        assert(pruned_doc.pages == d.pages);
        assert(pruned_doc.max_id == d.max_id);
        assert(doc@ =~= target);
        lemma_strip_preserves_wf(d, ex);
    }
    n
}

/// A reference list keeps exactly its undeleted members.
pub proof fn lemma_kept_refs_contains(ids: Seq<ObjId>, del: Seq<ObjId>, a: ObjId)
    ensures
        kept_refs(ids, del).contains(a) <==> (ids.contains(a) && !del.contains(a)),
    decreases ids.len(),
{
    if ids.len() > 0 {
        let hd = ids.drop_last();
        lemma_kept_refs_contains(hd, del, a);
        if del.contains(ids.last()) {
            assert(kept_refs(ids, del) =~= kept_refs(hd, del));
        } else {
            lemma_concat_contains(kept_refs(hd, del), seq![ids.last()], a);
            assert(seq![ids.last()].contains(a) <==> a == ids.last()) by {
                if seq![ids.last()].contains(a) {
                    let j = choose|j: int| 0 <= j < 1 && seq![ids.last()][j] == a;
                }
                if a == ids.last() {
                    assert(seq![ids.last()][0] == a);
                }
            }
        }
        assert(ids.contains(a) <==> (hd.contains(a) || ids.last() == a)) by {
            if ids.contains(a) {
                let j = choose|j: int| 0 <= j < ids.len() && ids[j] == a;
                if j < hd.len() {
                    assert(hd[j] == a);
                }
            }
            if hd.contains(a) {
                let j = choose|j: int| 0 <= j < hd.len() && hd[j] == a;
                assert(ids[j] == a);
            }
            if ids.last() == a {
                assert(ids[ids.len() - 1] == a);
            }
        }
    }
}

/// Pruning by a list with no members changes nothing.
pub proof fn lemma_pruned_nothing(items: Seq<ObjView>, del: Seq<ObjId>)
    requires
        forall|r: ObjId| !del.contains(r),
    ensures
        pruned_by(items, del) == items,
    decreases items.len(),
{
    if items.len() > 0 {
        lemma_pruned_nothing(items.drop_last(), del);
        assert(pruned_by(items, del) =~= items);
    }
}

/// Pruning every page by a list with no members changes nothing.
proof fn lemma_prune_upto_nothing(d: DocView, del: Seq<ObjId>, n: int)
    requires
        forall|r: ObjId| !del.contains(r),
    ensures
        prune_upto(d, del, n) == d,
    decreases n,
{
    if n > 0 {
        lemma_prune_upto_nothing(d, del, n - 1);
        let page = d.pages[n - 1];
        match page_annots_entry(d, page) {
            Some(ObjView::Array(items)) => {
                lemma_pruned_nothing(items, del);
            },
            Some(ObjView::Reference(r)) => {
                lemma_pruned_nothing(annots_array(d, page), del);
            },
            _ => {},
        }
    }
}

/// Every annotation's `Subtype` entry is stored directly in the
/// annotation's own dictionary, not behind a reference.
pub open spec fn subtypes_direct(d: DocView) -> bool {
    forall|a: ObjId|
        #[trigger] d.objects.contains_key(a) ==> (match d.objects[a] {
            ObjView::Dictionary(entries) => !(dict_get(entries, crate::annots::subtype_key())
                matches Some(ObjView::Reference(_))),
            _ => true,
        })
}

/// What a strip leaves behind, page by page: each page keeps exactly its
/// undeleted annotations, and a kept annotation keeps its object.
pub proof fn lemma_strip_facts(d: DocView, ex: Seq<Seq<u8>>)
    requires
        wf(d),
    ensures
        ({
            let d1 = strip_view(d, ex);
            let del = delete_list(d, ex);
            &&& d1.pages == d.pages
            &&& d1.max_id == d.max_id
            &&& forall|k: ObjId| d1.objects.contains_key(k)
                <==> (d.objects.contains_key(k) && !del.contains(k))
            &&& forall|i: int| 0 <= i < d.pages.len()
                ==> annot_ids(d1, #[trigger] d.pages[i])
                    == kept_refs(annot_ids(d, d.pages[i]), del)
            &&& forall|a: ObjId|
                d.objects.contains_key(a) && !d.pages.contains(a)
                    && d.objects[a] is Dictionary && !del.contains(a)
                    ==> #[trigger] d1.objects[a] == d.objects[a]
        }),
{
    let d1 = strip_view(d, ex);
    let del = delete_list(d, ex);
    let n = d.pages.len() as int;
    let pr = prune_upto(d, del, n);
    lemma_prune_upto_props(d, del, n);
    assert forall|a: ObjId| #[trigger] del.contains(a) implies
        d.objects.contains_key(a) && d.objects[a] is Dictionary && !d.pages.contains(a) by {
        lemma_delete_list_contains(d, ex, a);
        let i = choose|i: int| 0 <= i < d.pages.len()
            && annot_ids(d, #[trigger] d.pages[i]).contains(a);
    }
    assert forall|k: ObjId| d1.objects.contains_key(k)
        <==> (d.objects.contains_key(k) && !del.contains(k)) by {
        assert(Set::new(|a: ObjId| del.contains(a)).contains(k) == del.contains(k));
    }
    assert forall|i: int| 0 <= i < d.pages.len() implies
        annot_ids(d1, #[trigger] d.pages[i])
            == kept_refs(annot_ids(d, d.pages[i]), del) by {
        let page = d.pages[i];
        assert(page_annots_ok(d, page));
        assert(d.pages.contains(page)) by {
            assert(d.pages[i] == page);
        }
        assert(!del.contains(page));
        assert(d1.objects.contains_key(page));
        assert(d1.objects[page] == pr.objects[page]);
        assert(page_annots_entry(d1, page) == page_annots_entry(pr, page));
        match page_annots_entry(pr, page) {
            Some(ObjView::Reference(r)) => {
                assert(page_annots_entry(pr, page) == page_annots_entry(d, page));
                assert(d.objects.contains_key(r) && d.objects[r] is Array);
                assert(!del.contains(r));
                assert(d1.objects.contains_key(r));
                assert(d1.objects[r] == pr.objects[r]);
                assert(annots_array(d1, page) == annots_array(pr, page));
            },
            _ => {
                assert(annots_array(d1, page) == annots_array(pr, page));
            },
        }
        assert(annots_array(pr, page) == pruned_by(annots_array(d, page), del));
        lemma_pruned_refs(annots_array(d, page), del);
    }
}

/// A strip leaves a well-formed document well formed.
pub proof fn lemma_strip_preserves_wf(d: DocView, ex: Seq<Seq<u8>>)
    requires
        wf(d),
    ensures
        wf(strip_view(d, ex)),
{
    let d1 = strip_view(d, ex);
    let del = delete_list(d, ex);
    let n = d.pages.len() as int;
    let pr = prune_upto(d, del, n);
    lemma_prune_upto_props(d, del, n);
    lemma_strip_facts(d, ex);
    assert forall|a: ObjId| #[trigger] del.contains(a) implies
        d.objects.contains_key(a) && d.objects[a] is Dictionary && !d.pages.contains(a) by {
        lemma_delete_list_contains(d, ex, a);
        let i = choose|i: int| 0 <= i < d.pages.len()
            && annot_ids(d, #[trigger] d.pages[i]).contains(a);
    }
    assert forall|k: ObjId| d1.objects.contains_key(k)
        implies (#[trigger] k.num) <= d1.max_id by {
        assert(d.objects.contains_key(k));
    }
    assert forall|i: int| 0 <= i < d1.pages.len()
        implies page_annots_ok(d1, #[trigger] d1.pages[i]) by {
        let page = d.pages[i];
        assert(page_annots_ok(d, page));
        assert(d.pages.contains(page)) by {
            assert(d.pages[i] == page);
        }
        assert(!del.contains(page));
        assert(d1.objects.contains_key(page));
        assert(d1.objects[page] == pr.objects[page]);
        assert(d1.objects[page] is Dictionary);
        assert(page_annots_entry(d1, page) == page_annots_entry(pr, page));
        match page_annots_entry(pr, page) {
            Some(ObjView::Reference(r)) => {
                assert(page_annots_entry(pr, page) == page_annots_entry(d, page));
                assert(d.objects.contains_key(r) && d.objects[r] is Array);
                assert(!del.contains(r));
                assert(d1.objects.contains_key(r));
                assert(d1.objects[r] == pr.objects[r]);
                assert(pr.objects[r] is Array);
            },
            _ => {},
        }
    }
    assert forall|i: int, j: int|
        0 <= i < d1.pages.len() && 0 <= j < d1.pages.len() && i != j
            implies !(page_annots_entry(d1, d1.pages[i]) == page_annots_entry(d1, d1.pages[j])
                && page_annots_entry(d1, d1.pages[i]) matches Some(ObjView::Reference(_))) by {
        assert(!del.contains(d.pages[i]));
        assert(!del.contains(d.pages[j]));
        assert(page_annots_entry(d1, d.pages[i]) == page_annots_entry(pr, d.pages[i]));
        assert(page_annots_entry(d1, d.pages[j]) == page_annots_entry(pr, d.pages[j]));
        match page_annots_entry(pr, d.pages[i]) {
            Some(ObjView::Reference(ri)) => {
                assert(page_annots_entry(pr, d.pages[i]) == page_annots_entry(d, d.pages[i]));
                match page_annots_entry(pr, d.pages[j]) {
                    Some(ObjView::Reference(rj)) => {
                        assert(page_annots_entry(pr, d.pages[j])
                            == page_annots_entry(d, d.pages[j]));
                    },
                    _ => {},
                }
            },
            _ => {},
        }
    }
    assert forall|i: int, a: ObjId|
        0 <= i < d1.pages.len() && #[trigger] annot_ids(d1, d1.pages[i]).contains(a)
            implies d1.objects.contains_key(a) && d1.objects[a] is Dictionary
                && !d1.pages.contains(a) by {
        assert(annot_ids(d1, d.pages[i]) == kept_refs(annot_ids(d, d.pages[i]), del));
        lemma_kept_refs_contains(annot_ids(d, d.pages[i]), del, a);
        assert(annot_ids(d, d.pages[i]).contains(a) && !del.contains(a));
        assert(d.objects.contains_key(a) && d.objects[a] is Dictionary
            && !d.pages.contains(a));
        assert(d1.objects[a] == d.objects[a]);
    }
}

/// Stripping is idempotent: stripping the result of a strip with the
/// same exclusion set deletes nothing and changes nothing.  This holds
/// for well-formed documents whose annotations carry their subtype
/// directly in their own dictionary.
pub proof fn lemma_strip_idempotent(d: DocView, ex: Seq<Seq<u8>>)
    requires
        wf(d),
        subtypes_direct(d),
    ensures
        delete_list(strip_view(d, ex), ex).len() == 0,
        strip_view(strip_view(d, ex), ex) == strip_view(d, ex),
{
    let d1 = strip_view(d, ex);
    let del = delete_list(d, ex);
    lemma_strip_facts(d, ex);
    assert forall|a: ObjId| !is_delete_target(d1, ex, a) by {
        if is_delete_target(d1, ex, a) {
            let i = choose|i: int| 0 <= i < d1.pages.len()
                && annot_ids(d1, #[trigger] d1.pages[i]).contains(a);
            assert(annot_ids(d1, d.pages[i]).contains(a));
            lemma_kept_refs_contains(annot_ids(d, d.pages[i]), del, a);
            assert(annot_ids(d, d.pages[i]).contains(a) && !del.contains(a));
            lemma_delete_list_contains(d, ex, a);
            assert(!is_delete_target(d, ex, a));
            assert(on_some_page(d, a)) by {
                assert(0 <= i < d.pages.len()
                    && annot_ids(d, d.pages[i]).contains(a));
            }
            assert(ex.contains(subtype_of(d, a)));
            assert(d.objects.contains_key(a) && d.objects[a] is Dictionary
                && !d.pages.contains(a)) by {
                assert(0 <= i < d.pages.len() && annot_ids(d, d.pages[i]).contains(a));
            }
            assert(d1.objects[a] == d.objects[a]);
            assert(subtype_of(d1, a) == subtype_of(d, a)) by {
                match d.objects[a] {
                    ObjView::Dictionary(entries) => {
                        match dict_get(entries, crate::annots::subtype_key()) {
                            Some(ObjView::Name(nm)) => {},
                            Some(ObjView::Reference(rr)) => {
                                assert(false);
                            },
                            _ => {},
                        }
                    },
                    _ => {},
                }
            }
            assert(false);
        }
    }
    let del1 = delete_list(d1, ex);
    assert(del1.len() == 0) by {
        if del1.len() > 0 {
            assert(del1.contains(del1[0]));
            lemma_delete_list_contains(d1, ex, del1[0]);
        }
    }
    assert forall|r: ObjId| !del1.contains(r) by {
        lemma_delete_list_contains(d1, ex, r);
    }
    lemma_prune_upto_nothing(d1, del1, d1.pages.len() as int);
    let d2 = strip_view(d1, ex);
    assert forall|k: ObjId| d2.objects.contains_key(k) <==> d1.objects.contains_key(k) by {
        assert(Set::new(|a: ObjId| del1.contains(a)).contains(k) == del1.contains(k));
    }
    assert forall|k: ObjId| #[trigger] d2.objects.contains_key(k)
        implies d2.objects[k] == d1.objects[k] by {
        assert(Set::new(|a: ObjId| del1.contains(a)).contains(k) == del1.contains(k));
    }
    assert(d2.objects =~= d1.objects);
    assert(d2 =~= d1);
}

} // verus!