//! The annotation array resolver: reading the identifiers attached to a
//! page, resolving an annotation's subtype, and obtaining or creating the
//! mutable annotation array of a page.
//!
//! A page's annotation collection lives under the `Annots` key of the
//! page dictionary, either as a direct array, as a reference to an array
//! object, or not at all.  The resolver hides that three-way split.  A
//! reference is followed one step; a chain of references counts as
//! unresolvable here.

use vstd::prelude::*;
use crate::objects::{
    DocView, ObjId, ObjView, PdfDict, PdfDocument, PdfObject, dict_get, view_obj, view_objs,
    lemma_view_objs, clone_bytes, clone_dict, clone_objects,
};

verus! {

/// The bytes of the page dictionary key `Annots`.
pub open spec fn annots_key() -> Seq<u8> {
    seq![65u8, 110u8, 110u8, 111u8, 116u8, 115u8]
}

/// The bytes of the annotation dictionary key `Subtype`.
pub open spec fn subtype_key() -> Seq<u8> {
    seq![83u8, 117u8, 98u8, 116u8, 121u8, 112u8, 101u8]
}

/// The `Annots` key as a byte vector.
pub fn annots_key_vec() -> (r: Vec<u8>)
    ensures
        r@ == annots_key(),
{
    let mut v: Vec<u8> = Vec::new();
    v.push(65);
    v.push(110);
    v.push(110);
    v.push(111);
    v.push(116);
    v.push(115);
    proof {
        assert(v@ =~= annots_key());
    }
    v
}

/// The `Subtype` key as a byte vector.
pub fn subtype_key_vec() -> (r: Vec<u8>)
    ensures
        r@ == subtype_key(),
{
    let mut v: Vec<u8> = Vec::new();
    v.push(83);
    v.push(117);
    v.push(98);
    v.push(116);
    v.push(121);
    v.push(112);
    v.push(101);
    proof {
        assert(v@ =~= subtype_key());
    }
    v
}

/// The entry stored under `Annots` in a page's dictionary, if the page
/// resolves to a dictionary that has one.
pub open spec fn page_annots_entry(d: DocView, page: ObjId) -> Option<ObjView> {
    if d.objects.contains_key(page) {
        match d.objects[page] {
            ObjView::Dictionary(entries) => dict_get(entries, annots_key()),
            _ => None,
        }
    } else {
        None
    }
}

/// The contents of a page's annotation array: the array itself if the
/// entry is direct, the referenced array if the entry is a reference,
/// and the empty sequence where the entry is absent or does not resolve
/// to an array.
pub open spec fn annots_array(d: DocView, page: ObjId) -> Seq<ObjView> {
    match page_annots_entry(d, page) {
        Some(ObjView::Array(items)) => items,
        Some(ObjView::Reference(r)) => {
            if d.objects.contains_key(r) {
                match d.objects[r] {
                    ObjView::Array(items) => items,
                    _ => Seq::empty(),
                }
            } else {
                Seq::empty()
            }
        },
        _ => Seq::empty(),
    }
}

/// The identifiers carried by reference entries of an array, in array
/// order; entries of any other kind are skipped.
pub open spec fn refs_of(items: Seq<ObjView>) -> Seq<ObjId>
    decreases items.len(),
{
    if items.len() == 0 {
        Seq::empty()
    } else {
        refs_of(items.drop_last()) + match items.last() {
            ObjView::Reference(id) => seq![id],
            _ => Seq::empty(),
        }
    }
}

/// The identifiers of the annotations attached to a page, in array order.
pub open spec fn annot_ids(d: DocView, page: ObjId) -> Seq<ObjId> {
    refs_of(annots_array(d, page))
}

/// The subtype of the annotation stored under `id`: the name under its
/// `Subtype` key, read through one level of indirection; the empty
/// string where the identifier, the entry or the name is missing.
pub open spec fn subtype_of(d: DocView, id: ObjId) -> Seq<u8> {
    if d.objects.contains_key(id) {
        match d.objects[id] {
            ObjView::Dictionary(entries) => match dict_get(entries, subtype_key()) {
                Some(ObjView::Name(n)) => n,
                Some(ObjView::Reference(r)) => {
                    if d.objects.contains_key(r) {
                        match d.objects[r] {
                            ObjView::Name(n) => n,
                            _ => Seq::empty(),
                        }
                    } else {
                        Seq::empty()
                    }
                },
                _ => Seq::empty(),
            },
            _ => Seq::empty(),
        }
    } else {
        Seq::empty()
    }
}

/// Whether a page's `Annots` entry has one of the shapes the tool is
/// specified for: absent, a direct array, or a reference to an array
/// object of the same document.
pub open spec fn page_annots_ok(d: DocView, page: ObjId) -> bool {
    &&& d.objects.contains_key(page)
    &&& d.objects[page] is Dictionary
    &&& match page_annots_entry(d, page) {
        None => true,
        Some(ObjView::Array(items)) => true,
        Some(ObjView::Reference(r)) => d.objects.contains_key(r) && d.objects[r] is Array,
        Some(_) => false,
    }
}

/// Where a page's annotation array lives once it exists: inside the page
/// dictionary itself, or in a separate array object.
#[derive(Clone, Copy, Debug, PartialEq, Eq, Structural)]
pub enum AnnotsSlot {
    InPage,
    InObject(ObjId),
}

/// A well-formed document, as the tool assumes its inputs: every page
/// resolves to a dictionary with a well-shaped `Annots` entry, pages are
/// listed once, two pages never share an annotation array object, every
/// annotation identifier resolves to a dictionary that is not itself a
/// page, and all identifiers in use stay at or below `max_id`.
pub open spec fn wf(d: DocView) -> bool {
    &&& forall|k: ObjId| d.objects.contains_key(k) ==> (#[trigger] k.num) <= d.max_id
    &&& forall|i: int, j: int|
        0 <= i < d.pages.len() && 0 <= j < d.pages.len() && i != j
            ==> d.pages[i] != d.pages[j]
    &&& forall|i: int| 0 <= i < d.pages.len() ==> page_annots_ok(d, #[trigger] d.pages[i])
    &&& forall|i: int, j: int|
        0 <= i < d.pages.len() && 0 <= j < d.pages.len() && i != j
            ==> !(page_annots_entry(d, d.pages[i]) == page_annots_entry(d, d.pages[j])
                && page_annots_entry(d, d.pages[i]) matches Some(ObjView::Reference(_)))
    &&& forall|i: int, a: ObjId|
        0 <= i < d.pages.len() && #[trigger] annot_ids(d, d.pages[i]).contains(a)
            ==> d.objects.contains_key(a) && d.objects[a] is Dictionary
                && !d.pages.contains(a)
}

/// Collects the identifiers of the reference entries of an array.
fn collect_ref_ids(items: &Vec<PdfObject>) -> (r: Vec<ObjId>)
    ensures
        r@ == refs_of(view_objs(items@)),
{
    proof {
        lemma_view_objs(items@);
    }
    let ghost iv = view_objs(items@);
    let mut out: Vec<ObjId> = Vec::new();
    let mut i: usize = 0;
    while i < items.len()
        invariant
            i <= items.len(),
            iv == view_objs(items@),
            iv.len() == items@.len(),
            forall|j: int| 0 <= j < items@.len() ==> iv[j] == view_obj(#[trigger] items@[j]),
            out@ == refs_of(iv.take(i as int)),
        decreases items.len() - i,
    {
        proof {
            assert(iv.take(i + 1).drop_last() =~= iv.take(i as int));
            assert(iv.take(i + 1).last() == iv[i as int]);
        }
        match &items[i] {
            PdfObject::Reference(id) => {
                out.push(*id);
            },
            _ => {},
        }
        i += 1;
        proof {
            assert(out@ =~= refs_of(iv.take(i as int)));
        }
    }
    proof {
        assert(iv.take(iv.len() as int) =~= iv);
    }
    out
}

/// Returns the identifiers of the annotations attached to a page, in
/// array order; the empty vector where the page has none, or where the
/// page or its `Annots` entry does not resolve as expected.
pub fn read_annotation_ids(doc: &PdfDocument, page_id: ObjId) -> (r: Vec<ObjId>)
    ensures
        r@ == annot_ids(doc@, page_id),
{
    let akey = annots_key_vec();
    let entry = match doc.get_object(page_id) {
        Some(PdfObject::Dictionary(dict)) => dict.get(&akey),
        _ => None,
    };
    match entry {
        Some(PdfObject::Array(items)) => collect_ref_ids(items),
        Some(PdfObject::Reference(r)) => match doc.get_object(*r) {
            Some(PdfObject::Array(items)) => collect_ref_ids(items),
            _ => {
                proof {
                    assert(refs_of(Seq::<ObjView>::empty()) =~= Seq::<ObjId>::empty());
                }
                Vec::new()
            },
        },
        _ => {
            proof {
                assert(refs_of(Seq::<ObjView>::empty()) =~= Seq::<ObjId>::empty());
            }
            Vec::new()
        },
    }
}

/// Returns the subtype of the annotation stored under `id`, or the empty
/// vector where it has none or the identifier does not resolve.
pub fn annotation_subtype(doc: &PdfDocument, id: ObjId) -> (r: Vec<u8>)
    ensures
        r@ == subtype_of(doc@, id),
{
    let skey = subtype_key_vec();
    let entry = match doc.get_object(id) {
        Some(PdfObject::Dictionary(dict)) => dict.get(&skey),
        _ => None,
    };
    match entry {
        Some(PdfObject::Name(n)) => clone_bytes(n),
        Some(PdfObject::Reference(r)) => match doc.get_object(*r) {
            Some(PdfObject::Name(n)) => clone_bytes(n),
            _ => Vec::new(),
        },
        _ => Vec::new(),
    }
}

/// The entry list of a page's dictionary; empty where the page does not
/// resolve to a dictionary.
pub open spec fn page_dict_entries(d: DocView, page: ObjId) -> Seq<(Seq<u8>, ObjView)> {
    if d.objects.contains_key(page) {
        match d.objects[page] {
            ObjView::Dictionary(entries) => entries,
            _ => Seq::empty(),
        }
    } else {
        Seq::empty()
    }
}

/// The identifier of the object that holds (or would hold) a page's
/// annotation array: the referenced array object where the entry is a
/// reference, the page itself otherwise.
pub open spec fn annots_home(d: DocView, page: ObjId) -> ObjId {
    match page_annots_entry(d, page) {
        Some(ObjView::Reference(r)) => r,
        _ => page,
    }
}

/// Resolves a page's annotation array to the place it lives in, creating
/// an empty direct array where the page has none yet.
pub open spec fn ensure_annots(d: DocView, page: ObjId) -> (DocView, AnnotsSlot) {
    match page_annots_entry(d, page) {
        Some(ObjView::Reference(r)) => (d, AnnotsSlot::InObject(r)),
        Some(ObjView::Array(items)) => (d, AnnotsSlot::InPage),
        _ => {
            let entries = page_dict_entries(d, page).push(
                (annots_key(), ObjView::Array(Seq::empty())),
            );
            (
                DocView {
                    objects: d.objects.insert(page, ObjView::Dictionary(entries)),
                    ..d
                },
                AnnotsSlot::InPage,
            )
        },
    }
}

/// Reference objects for a list of identifiers, in order.
pub open spec fn refs_to_objs(ids: Seq<ObjId>) -> Seq<ObjView> {
    ids.map_values(|id: ObjId| ObjView::Reference(id))
}

/// Appends references to the given identifiers at the end of a page's
/// annotation array, resolving or creating the array first.
pub open spec fn append_annots(d: DocView, page: ObjId, ids: Seq<ObjId>) -> DocView {
    match page_annots_entry(d, page) {
        Some(ObjView::Reference(r)) => {
            let items = annots_array(d, page);
            DocView {
                objects: d.objects.insert(r, ObjView::Array(items + refs_to_objs(ids))),
                ..d
            }
        },
        Some(ObjView::Array(items)) => DocView {
            objects: d.objects.insert(
                page,
                ObjView::Dictionary(page_dict_entries(d, page).push(
                    (annots_key(), ObjView::Array(items + refs_to_objs(ids))),
                )),
            ),
            ..d
        },
        _ => DocView {
            objects: d.objects.insert(
                page,
                ObjView::Dictionary(page_dict_entries(d, page).push(
                    (annots_key(), ObjView::Array(refs_to_objs(ids))),
                )),
            ),
            ..d
        },
    }
}

/// Reference entries appended to an array contribute exactly their
/// identifiers, in order, to the reference list of the array.
pub proof fn lemma_refs_of_append_refs(items: Seq<ObjView>, ids: Seq<ObjId>)
    ensures
        refs_of(items + refs_to_objs(ids)) == refs_of(items) + ids,
    decreases ids.len(),
{
    if ids.len() == 0 {
        assert(items + refs_to_objs(ids) =~= items);
        assert(refs_of(items) + ids =~= refs_of(items));
    } else {
        let hd = ids.drop_last();
        let whole = items + refs_to_objs(ids);
        assert(whole.drop_last() =~= items + refs_to_objs(hd));
        assert(whole.last() == ObjView::Reference(ids.last()));
        lemma_refs_of_append_refs(items, hd);
        assert(refs_of(whole) == refs_of(items) + hd + seq![ids.last()]);
        assert(refs_of(items) + hd + seq![ids.last()] =~= refs_of(items) + ids);
    }
}

/// What appending does to the page it aims at: the array grows by the
/// new references, everything else about the document stays, and only
/// the object holding the array is rebound.
pub proof fn lemma_append_annots(d: DocView, page: ObjId, ids: Seq<ObjId>)
    requires
        page_annots_ok(d, page),
    ensures
        ({
            let d2 = append_annots(d, page, ids);
            &&& d2.pages == d.pages
            &&& d2.max_id == d.max_id
            &&& annots_array(d2, page) == annots_array(d, page) + refs_to_objs(ids)
            &&& annot_ids(d2, page) == annot_ids(d, page) + ids
            &&& page_annots_ok(d2, page)
            &&& forall|x: ObjId| d2.objects.contains_key(x) <==> d.objects.contains_key(x)
            &&& forall|x: ObjId|
                d.objects.contains_key(x) && x != annots_home(d, page)
                    ==> d2.objects[x] == d.objects[x]
        }),
{
    let d2 = append_annots(d, page, ids);
    lemma_refs_of_append_refs(annots_array(d, page), ids);
    match page_annots_entry(d, page) {
        Some(ObjView::Reference(r)) => {
            assert(d.objects[page] is Dictionary);
            assert(d.objects[r] is Array);
            assert(r != page);
            assert(d2.objects[page] == d.objects[page]);
            assert(page_annots_entry(d2, page) == page_annots_entry(d, page));
            assert(annots_array(d2, page) == annots_array(d, page) + refs_to_objs(ids));
        },
        Some(ObjView::Array(items)) => {
            let entries2 = page_dict_entries(d, page).push(
                (annots_key(), ObjView::Array(items + refs_to_objs(ids))),
            );
            assert(d2.objects[page] == ObjView::Dictionary(entries2));
            assert(dict_get(entries2, annots_key())
                == Some(ObjView::Array(items + refs_to_objs(ids))));
        },
        _ => {
            assert(annots_array(d, page) =~= Seq::<ObjView>::empty());
            assert(annots_array(d, page) + refs_to_objs(ids) =~= refs_to_objs(ids));
            let entries2 = page_dict_entries(d, page).push(
                (annots_key(), ObjView::Array(refs_to_objs(ids))),
            );
            assert(d2.objects[page] == ObjView::Dictionary(entries2));
            assert(dict_get(entries2, annots_key()) == Some(ObjView::Array(refs_to_objs(ids))));
        },
    }
}

/// Appending on one page leaves every other well-shaped page's
/// annotations as they are, provided the two pages do not share an
/// annotation array object.
pub proof fn lemma_append_preserves_other(d: DocView, page: ObjId, q: ObjId, ids: Seq<ObjId>)
    requires
        page_annots_ok(d, page),
        page_annots_ok(d, q),
        q != page,
        !(page_annots_entry(d, q) == page_annots_entry(d, page)
            && page_annots_entry(d, q) matches Some(ObjView::Reference(_))),
    ensures
        ({
            let d2 = append_annots(d, page, ids);
            &&& d2.objects[q] == d.objects[q]
            &&& page_annots_entry(d2, q) == page_annots_entry(d, q)
            &&& annots_array(d2, q) == annots_array(d, q)
            &&& annot_ids(d2, q) == annot_ids(d, q)
            &&& page_annots_ok(d2, q)
        }),
{
    let d2 = append_annots(d, page, ids);
    let home = annots_home(d, page);
    lemma_append_annots(d, page, ids);
    assert(d.objects[q] is Dictionary);
    if home == page {
        assert(q != home);
    } else {
        assert(d.objects[home] is Array);
        assert(q != home);
    }
    assert(d2.objects[q] == d.objects[q]);
    match page_annots_entry(d, q) {
        Some(ObjView::Reference(rq)) => {
            assert(d.objects[rq] is Array);
            if home == page {
                assert(rq != home);
            } else {
                assert(page_annots_entry(d, page) == Some(ObjView::Reference(home)));
                assert(rq != home);
            }
            assert(d2.objects[rq] == d.objects[rq]);
        },
        _ => {},
    }
}

/// Returns where the page's annotation array lives, creating an empty
/// direct array first where the page has none.  Resolving a second time
/// returns the same place and leaves the document unchanged.
pub fn resolve_annots_slot(doc: &mut PdfDocument, page_id: ObjId) -> (slot: AnnotsSlot)
    requires
        page_annots_ok(old(doc)@, page_id),
    ensures
        (final(doc)@, slot) == ensure_annots(old(doc)@, page_id),
{
    let akey = annots_key_vec();
    let mut new_dict: Option<PdfDict> = None;
    match doc.get_object(page_id) {
        Some(PdfObject::Dictionary(dict)) => match dict.get(&akey) {
            Some(PdfObject::Reference(r)) => {
                return AnnotsSlot::InObject(*r);
            },
            Some(PdfObject::Array(_)) => {
                return AnnotsSlot::InPage;
            },
            None => {
                new_dict = Some(clone_dict(dict));
            },
            Some(_) => {
                proof {
                    assert(false);
                }
            },
        },
        _ => {
            proof {
                assert(false);
            }
        },
    }
    match new_dict {
        Some(mut nd) => {
            nd.set(akey, PdfObject::Array(Vec::new()));
            proof {
                assert(view_objs(Seq::<PdfObject>::empty()) =~= Seq::<ObjView>::empty());
            }
            doc.set_object(page_id, PdfObject::Dictionary(nd));
            AnnotsSlot::InPage
        },
        None => vstd::pervasive::unreached(),
    }
}

/// Appends references to the given identifiers at the end of a page's
/// annotation array, creating the array where the page has none yet.
pub fn append_annotation_refs(doc: &mut PdfDocument, page_id: ObjId, ids: &Vec<ObjId>)
    requires
        page_annots_ok(old(doc)@, page_id),
    ensures
        final(doc)@ == append_annots(old(doc)@, page_id, ids@),
{
    let akey = annots_key_vec();
    let mut target: Option<ObjId> = None;
    let mut new_dict: Option<PdfDict> = None;
    let mut items: Vec<PdfObject> = Vec::new();
    let ghost base = annots_array(old(doc)@, page_id);
    match doc.get_object(page_id) {
        Some(PdfObject::Dictionary(dict)) => match dict.get(&akey) {
            Some(PdfObject::Reference(r)) => {
                target = Some(*r);
                match doc.get_object(*r) {
                    Some(PdfObject::Array(a)) => {
                        items = clone_objects(a);
                    },
                    _ => {
                        proof {
                            assert(false);
                        }
                    },
                }
            },
            Some(PdfObject::Array(a)) => {
                items = clone_objects(a);
                new_dict = Some(clone_dict(dict));
            },
            None => {
                new_dict = Some(clone_dict(dict));
                proof {
                    assert(base =~= Seq::<ObjView>::empty());
                    assert(view_objs(items@) =~= base);
                }
            },
            Some(_) => {
                proof {
                    assert(false);
                }
            },
        },
        _ => {
            proof {
                assert(false);
            }
        },
    }
    assert(view_objs(items@) == base);
    let ghost base_len = items@.len();
    proof {
        lemma_view_objs(items@);
        assert(base.len() == base_len);
    }
    let mut i: usize = 0;
    while i < ids.len()
        invariant
            i <= ids.len(),
            items@.len() == base_len + i,
            base.len() == base_len,
            forall|j: int| 0 <= j < base_len ==> view_obj(#[trigger] items@[j]) == base[j],
            forall|j: int| base_len <= j < items@.len()
                ==> view_obj(#[trigger] items@[j]) == ObjView::Reference(ids@[j - base_len]),
        decreases ids.len() - i,
    {
        items.push(PdfObject::Reference(ids[i]));
        i += 1;
    }
    proof {
        lemma_view_objs(items@);
        assert forall|j: int| 0 <= j < view_objs(items@).len()
            implies view_objs(items@)[j] == (base + refs_to_objs(ids@))[j] by {
            assert(view_objs(items@)[j] == view_obj(items@[j]));
            if j >= base_len {
                assert((base + refs_to_objs(ids@))[j] == refs_to_objs(ids@)[j - base_len]);
            }
        }
        assert(view_objs(items@) =~= base + refs_to_objs(ids@));
    }
    match target {
        Some(r) => {
            doc.set_object(r, PdfObject::Array(items));
        },
        None => match new_dict {
            Some(mut nd) => {
                nd.set(akey, PdfObject::Array(items));
                doc.set_object(page_id, PdfObject::Dictionary(nd));
            },
            None => vstd::pervasive::unreached(),
        },
    }
}

/// Decides whether a page's `Annots` entry has a shape the tool is
/// specified for.
pub fn check_page_annots(doc: &PdfDocument, page_id: ObjId) -> (r: bool)
    ensures
        r == page_annots_ok(doc@, page_id),
{
    let akey = annots_key_vec();
    match doc.get_object(page_id) {
        Some(pobj) => match pobj {
            PdfObject::Dictionary(dict) => match dict.get(&akey) {
                Some(entry) => match entry {
                    PdfObject::Array(_) => true,
                    PdfObject::Reference(r) => match doc.get_object(*r) {
                        Some(tobj) => match tobj {
                            PdfObject::Array(_) => true,
                            _ => {
                                proof {
                                    assert(!(view_obj(*tobj) is Array));
                                }
                                false
                            },
                        },
                        None => false,
                    },
                    _ => {
                        proof {
                            assert(!(view_obj(*entry) is Array));
                            assert(!(view_obj(*entry) is Reference));
                        }
                        false
                    },
                },
                None => true,
            },
            _ => {
                proof {
                    assert(!(view_obj(*pobj) is Dictionary));
                }
                false
            },
        },
        None => false,
    }
}

/// The reference target of a page's `Annots` entry, where it has one.
pub fn annots_target(doc: &PdfDocument, page_id: ObjId) -> (r: Option<ObjId>)
    ensures
        r == (match page_annots_entry(doc@, page_id) {
            Some(ObjView::Reference(t)) => Some(t),
            _ => None::<ObjId>,
        }),
{
    let akey = annots_key_vec();
    match doc.get_object(page_id) {
        Some(pobj) => match pobj {
            PdfObject::Dictionary(dict) => match dict.get(&akey) {
                Some(entry) => match entry {
                    PdfObject::Reference(r) => Some(*r),
                    _ => {
                        proof {
                            assert(!(view_obj(*entry) is Reference));
                        }
                        None
                    },
                },
                None => None,
            },
            _ => {
                proof {
                    assert(!(view_obj(*pobj) is Dictionary));
                }
                None
            },
        },
        None => None,
    }
}

/// Decides whether a document is well formed in the sense of `wf`.
pub fn check_well_formed(doc: &PdfDocument) -> (r: bool)
    ensures
        r == wf(doc@),
{
    let ghost d = doc@;
    // every identifier in use stays at or below max_id
    let mut e: usize = 0;
    while e < doc.objects.len()
        invariant
            d == doc@,
            e <= doc.objects@.len(),
            forall|j: int| 0 <= j < e ==> (#[trigger] doc.objects@[j]).0.num <= d.max_id,
        decreases doc.objects.len() - e,
    {
        if doc.objects[e].0.num > doc.max_id {
            proof {
                crate::objects::lemma_table_pairs(doc.objects@);
                let pairs = crate::objects::table_pairs(doc.objects@);
                crate::objects::lemma_map_of_pairs_contains(pairs, doc.objects@[e as int].0);
                assert(pairs[e as int].0 == doc.objects@[e as int].0);
                assert(d.objects.contains_key(doc.objects@[e as int].0));
            }
            return false;
        }
        e += 1;
    }
    proof {
        assert forall|k: ObjId| d.objects.contains_key(k) implies (#[trigger] k.num) <= d.max_id by {
            crate::objects::lemma_table_pairs(doc.objects@);
            crate::objects::lemma_map_of_pairs_contains(
                crate::objects::table_pairs(doc.objects@), k);
            let j = choose|j: int| 0 <= j < crate::objects::table_pairs(doc.objects@).len()
                && (#[trigger] crate::objects::table_pairs(doc.objects@)[j]).0 == k;
            assert(doc.objects@[j].0 == k);
        }
    }
    // pages are listed once
    let mut i: usize = 0;
    while i < doc.pages.len()
        invariant
            d == doc@,
            i <= d.pages.len(),
            forall|a: int, b: int| 0 <= a < i && 0 <= b < i && a != b
                ==> d.pages[a] != d.pages[b],
        decreases doc.pages.len() - i,
    {
        let mut j: usize = 0;
        while j < i
            invariant
                d == doc@,
                j <= i < d.pages.len(),
                forall|b: int| 0 <= b < j ==> d.pages[b] != d.pages[i as int],
            decreases i - j,
        {
            if doc.pages[j] == doc.pages[i] {
                return false;
            }
            j += 1;
        }
        i += 1;
    }
    // every page is well shaped, no two pages share an array object, and
    // every annotation resolves to a dictionary that is not a page
    let mut i2: usize = 0;
    while i2 < doc.pages.len()
        invariant
            d == doc@,
            i2 <= d.pages.len(),
            forall|a: int, b: int| 0 <= a < d.pages.len() && 0 <= b < d.pages.len() && a != b
                ==> d.pages[a] != d.pages[b],
            forall|a: int| 0 <= a < i2 ==> page_annots_ok(d, #[trigger] d.pages[a]),
            forall|a: int, b: int|
                0 <= a < i2 && 0 <= b < i2 && a != b
                    ==> !(page_annots_entry(d, d.pages[a]) == page_annots_entry(d, d.pages[b])
                        && page_annots_entry(d, d.pages[a]) matches Some(ObjView::Reference(_))),
            forall|a: int, x: ObjId|
                0 <= a < i2 && #[trigger] annot_ids(d, d.pages[a]).contains(x)
                    ==> d.objects.contains_key(x) && d.objects[x] is Dictionary
                        && !d.pages.contains(x),
        decreases doc.pages.len() - i2,
    {
        let page_id = doc.pages[i2];
        if !check_page_annots(doc, page_id) {
            return false;
        }
        match annots_target(doc, page_id) {
            Some(t) => {
                let mut j2: usize = 0;
                while j2 < i2
                    invariant
                        d == doc@,
                        j2 <= i2 < d.pages.len(),
                        page_id == d.pages[i2 as int],
                        Some(t) == (match page_annots_entry(d, page_id) {
                            Some(ObjView::Reference(tt)) => Some(tt),
                            _ => None::<ObjId>,
                        }),
                        forall|b: int| 0 <= b < j2
                            ==> !(page_annots_entry(d, d.pages[b]) == page_annots_entry(d, page_id)
                                && page_annots_entry(d, d.pages[b]) matches Some(ObjView::Reference(_))),
                    decreases i2 - j2,
                {
                    match annots_target(doc, doc.pages[j2]) {
                        Some(t2) => {
                            if t2 == t {
                                proof {
                                    assert(page_annots_entry(d, d.pages[j2 as int])
                                        == Some(ObjView::Reference(t)));
                                    assert(page_annots_entry(d, page_id)
                                        == Some(ObjView::Reference(t)));
                                }
                                return false;
                            }
                        },
                        None => {},
                    }
                    j2 += 1;
                }
            },
            None => {},
        }
        let ids = read_annotation_ids(doc, page_id);
        let ghost idsv = ids@;
        let mut q: usize = 0;
        while q < ids.len()
            invariant
                d == doc@,
                q <= idsv.len(),
                idsv == ids@,
                i2 < d.pages.len(),
                idsv == annot_ids(d, d.pages[i2 as int]),
                forall|j: int| 0 <= j < q
                    ==> d.objects.contains_key(#[trigger] idsv[j])
                        && d.objects[idsv[j]] is Dictionary
                        && !d.pages.contains(idsv[j]),
            decreases ids.len() - q,
        {
            proof {
                assert(annot_ids(d, d.pages[i2 as int]).contains(idsv[q as int])) by {
                    assert(annot_ids(d, d.pages[i2 as int])[q as int] == idsv[q as int]);
                }
            }
            match doc.get_object(ids[q]) {
                Some(o) => match o {
                    PdfObject::Dictionary(_) => {},
                    _ => {
                        proof {
                            assert(!(view_obj(*o) is Dictionary));
                        }
                        return false;
                    },
                },
                None => {
                    return false;
                },
            }
            if crate::objects::id_in(&doc.pages, ids[q]) {
                return false;
            }
            q += 1;
        }
        proof {
            assert forall|x: ObjId| #[trigger] annot_ids(d, d.pages[i2 as int]).contains(x)
                implies d.objects.contains_key(x) && d.objects[x] is Dictionary
                    && !d.pages.contains(x) by {
                let j = choose|j: int| 0 <= j < idsv.len() && idsv[j] == x;
            }
        }
        i2 += 1;
    }
    true
}

/// Resolving the mutable annotation array twice in a row returns the
/// same place both times, and the second resolution changes nothing: in
/// particular, a page that had no `Annots` entry gets exactly one new
/// array, not two.
pub proof fn lemma_resolve_slot_twice(d: DocView, page: ObjId)
    requires
        page_annots_ok(d, page),
    ensures
        ({
            let (d1, slot) = ensure_annots(d, page);
            &&& page_annots_ok(d1, page)
            &&& ensure_annots(d1, page) == (d1, slot)
        }),
{
    let (d1, slot) = ensure_annots(d, page);
    match page_annots_entry(d, page) {
        Some(ObjView::Reference(r)) => {},
        Some(ObjView::Array(items)) => {},
        _ => {
            let entries = page_dict_entries(d, page).push(
                (annots_key(), ObjView::Array(Seq::empty())),
            );
            assert(d1.objects[page] == ObjView::Dictionary(entries));
            assert(dict_get(entries, annots_key()) == Some(ObjView::Array(Seq::<ObjView>::empty())));
            assert(page_annots_entry(d1, page) == Some(ObjView::Array(Seq::<ObjView>::empty())));
        },
    }
}

} // verus!
