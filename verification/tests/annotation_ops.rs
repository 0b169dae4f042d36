use rpdf::objects::{ObjId, PdfDict, PdfDocument, PdfObject};
use rpdf::annots::{
    append_annotation_refs, annotation_subtype, check_well_formed, read_annotation_ids,
    resolve_annots_slot, AnnotsSlot,
};
use rpdf::stats::compute_stats;
use rpdf::strip::strip_annotations;
use rpdf::merge::merge_documents;
use rpdf::cli::should_write;

fn oid(num: u32) -> ObjId {
    ObjId { num, gen: 0 }
}

fn annot_dict(subtype: &[u8]) -> PdfObject {
    PdfObject::Dictionary(PdfDict {
        entries: vec![(b"Subtype".to_vec(), PdfObject::Name(subtype.to_vec()))],
    })
}

fn annot_dict_without_subtype() -> PdfObject {
    PdfObject::Dictionary(PdfDict {
        entries: vec![(b"Contents".to_vec(), PdfObject::Text(b"note".to_vec(), false))],
    })
}

/// Builds a document with one page per entry; each page gets a direct
/// `Annots` array referencing one annotation per listed subtype.
fn build_doc(pages: Vec<Vec<&[u8]>>) -> PdfDocument {
    let mut objects = Vec::new();
    let mut page_ids = Vec::new();
    let mut next: u32 = 0;
    for subs in pages {
        let mut refs = Vec::new();
        for s in subs {
            next += 1;
            let id = oid(next);
            objects.push((id, annot_dict(s)));
            refs.push(PdfObject::Reference(id));
        }
        next += 1;
        let pid = oid(next);
        objects.push((
            pid,
            PdfObject::Dictionary(PdfDict {
                entries: vec![(b"Annots".to_vec(), PdfObject::Array(refs))],
            }),
        ));
        page_ids.push(pid);
    }
    PdfDocument { max_id: next, objects, pages: page_ids }
}

fn page_subtype_names(doc: &PdfDocument, page_index: usize) -> Vec<Vec<u8>> {
    read_annotation_ids(doc, doc.pages[page_index])
        .into_iter()
        .map(|id| annotation_subtype(doc, id))
        .collect()
}

#[test]
fn stats_combined_and_per_page() {
    let doc = build_doc(vec![vec![b"Text", b"Text"], vec![b"Link"], vec![]]);
    let report = compute_stats(&doc).expect("annotations are present");
    let names: Vec<&[u8]> = report.subtypes.iter().map(|s| s.as_slice()).collect();
    assert_eq!(names, vec![b"Link".as_slice(), b"Text".as_slice()]);
    assert_eq!(report.totals, vec![1, 2]);
    assert_eq!(report.rows.len(), 2);
    assert_eq!(report.rows[0].page_number, 1);
    assert_eq!(report.rows[0].counts, vec![0, 2]);
    assert_eq!(report.rows[1].page_number, 2);
    assert_eq!(report.rows[1].counts, vec![1, 0]);
}

#[test]
fn stats_without_annotations_reports_none() {
    let doc = build_doc(vec![vec![], vec![], vec![]]);
    assert!(compute_stats(&doc).is_none());
    let empty = PdfDocument { max_id: 0, objects: Vec::new(), pages: Vec::new() };
    assert!(compute_stats(&empty).is_none());
}

#[test]
fn stats_combined_equals_per_page_sums() {
    let doc = build_doc(vec![vec![b"Text"], vec![b"Text", b"Link"], vec![b"Link"]]);
    let report = compute_stats(&doc).expect("annotations are present");
    for (column, total) in report.totals.iter().enumerate() {
        let sum: usize = report.rows.iter().map(|row| row.counts[column]).sum();
        assert_eq!(*total, sum);
    }
}

#[test]
fn stats_missing_subtype_counts_as_empty_name() {
    let mut doc = build_doc(vec![vec![b"Text"]]);
    let id = oid(doc.max_id + 1);
    doc.max_id += 1;
    doc.objects.push((id, annot_dict_without_subtype()));
    // attach the extra annotation to page 1
    let page = doc.pages[0];
    append_annotation_refs(&mut doc, page, &vec![id]);
    let report = compute_stats(&doc).expect("annotations are present");
    let names: Vec<&[u8]> = report.subtypes.iter().map(|s| s.as_slice()).collect();
    assert_eq!(names, vec![b"".as_slice(), b"Text".as_slice()]);
    assert_eq!(report.totals, vec![1, 1]);
}

#[test]
fn stats_columns_sorted_by_bytes() {
    let doc = build_doc(vec![vec![b"Zebra", b"Apple", b"Mango"]]);
    let report = compute_stats(&doc).expect("annotations are present");
    let names: Vec<&[u8]> = report.subtypes.iter().map(|s| s.as_slice()).collect();
    assert_eq!(
        names,
        vec![b"Apple".as_slice(), b"Mango".as_slice(), b"Zebra".as_slice()]
    );
}

#[test]
fn merge_copies_highlight_and_keeps_other_page() {
    let mut a = build_doc(vec![vec![], vec![]]);
    let b = build_doc(vec![vec![b"Highlight"], vec![]]);
    let dropped = merge_documents(&mut a, &vec![b], &vec![b"Link".to_vec()]);
    assert!(dropped.is_empty());
    assert_eq!(page_subtype_names(&a, 0), vec![b"Highlight".to_vec()]);
    assert!(page_subtype_names(&a, 1).is_empty());
}

#[test]
fn merge_excludes_listed_subtypes() {
    let mut a = build_doc(vec![vec![]]);
    let b = build_doc(vec![vec![b"Link", b"Text"]]);
    let dropped = merge_documents(&mut a, &vec![b], &vec![b"Link".to_vec()]);
    assert!(dropped.is_empty());
    assert_eq!(page_subtype_names(&a, 0), vec![b"Text".to_vec()]);
}

#[test]
fn merge_with_itself_doubles_unexcluded_counts() {
    let mut a = build_doc(vec![vec![b"Text", b"Link"], vec![b"Text"]]);
    let copy = build_doc(vec![vec![b"Text", b"Link"], vec![b"Text"]]);
    let dropped = merge_documents(&mut a, &vec![copy], &vec![b"Link".to_vec()]);
    assert!(dropped.is_empty());
    let report = compute_stats(&a).expect("annotations are present");
    let names: Vec<&[u8]> = report.subtypes.iter().map(|s| s.as_slice()).collect();
    assert_eq!(names, vec![b"Link".as_slice(), b"Text".as_slice()]);
    // Text doubled from 2 to 4; Link kept at 1
    assert_eq!(report.totals, vec![1, 4]);
    assert_eq!(report.rows[0].counts, vec![1, 2]);
    assert_eq!(report.rows[1].counts, vec![0, 2]);
}

#[test]
fn merge_reports_pages_without_counterpart() {
    let mut a = build_doc(vec![vec![]]);
    let b = build_doc(vec![vec![], vec![b"Text"], vec![b"Text"]]);
    let dropped = merge_documents(&mut a, &vec![b], &vec![b"Link".to_vec()]);
    assert_eq!(dropped, vec![(1, 2), (1, 3)]);
    assert!(page_subtype_names(&a, 0).is_empty());
    // the skipped pages' annotations were not copied anywhere
    assert!(compute_stats(&a).is_none());
}

#[test]
fn merge_two_secondaries_in_order() {
    let mut a = build_doc(vec![vec![]]);
    let b = build_doc(vec![vec![b"Text"]]);
    let c = build_doc(vec![vec![b"Highlight"]]);
    let dropped = merge_documents(&mut a, &vec![b, c], &vec![b"Link".to_vec()]);
    assert!(dropped.is_empty());
    assert_eq!(
        page_subtype_names(&a, 0),
        vec![b"Text".to_vec(), b"Highlight".to_vec()]
    );
}

#[test]
fn strip_keeps_excluded_and_removes_the_rest() {
    let doc0 = build_doc(vec![vec![b"Link", b"Text"]]);
    let link_id = doc0.objects[0].0;
    let text_id = doc0.objects[1].0;
    let mut doc = doc0;
    let deleted = strip_annotations(&mut doc, &vec![b"Link".to_vec()]);
    assert_eq!(deleted, 1);
    let ids = read_annotation_ids(&doc, doc.pages[0]);
    assert_eq!(ids, vec![link_id]);
    assert_eq!(annotation_subtype(&doc, link_id), b"Link".to_vec());
    assert!(doc.get_object(text_id).is_none());
    assert!(doc.get_object(link_id).is_some());
}

#[test]
fn strip_twice_deletes_nothing_more() {
    let mut doc = build_doc(vec![vec![b"Text"], vec![b"Link", b"Highlight"]]);
    let exclude = vec![b"Link".to_vec()];
    let first = strip_annotations(&mut doc, &exclude);
    assert_eq!(first, 2);
    let names_before: Vec<Vec<u8>> = page_subtype_names(&doc, 1);
    let second = strip_annotations(&mut doc, &exclude);
    assert_eq!(second, 0);
    assert_eq!(page_subtype_names(&doc, 1), names_before);
    assert!(page_subtype_names(&doc, 0).is_empty());
}

#[test]
fn strip_with_empty_exclusion_removes_everything() {
    let mut doc = build_doc(vec![vec![b"Link"], vec![b"Text"]]);
    let deleted = strip_annotations(&mut doc, &Vec::new());
    assert_eq!(deleted, 2);
    assert!(compute_stats(&doc).is_none());
}

#[test]
fn resolve_slot_creates_one_array_only() {
    // a single page whose dictionary has no Annots entry at all
    let pid = oid(1);
    let mut doc = PdfDocument {
        max_id: 1,
        objects: vec![(pid, PdfObject::Dictionary(PdfDict { entries: Vec::new() }))],
        pages: vec![pid],
    };
    let first = resolve_annots_slot(&mut doc, pid);
    assert_eq!(first, AnnotsSlot::InPage);
    assert!(read_annotation_ids(&doc, pid).is_empty());
    let table_size = doc.objects.len();
    let second = resolve_annots_slot(&mut doc, pid);
    assert_eq!(second, first);
    assert_eq!(doc.objects.len(), table_size);
}

#[test]
fn resolve_slot_finds_indirect_array() {
    let arr_id = oid(1);
    let pid = oid(2);
    let mut doc = PdfDocument {
        max_id: 2,
        objects: vec![
            (arr_id, PdfObject::Array(Vec::new())),
            (
                pid,
                PdfObject::Dictionary(PdfDict {
                    entries: vec![(b"Annots".to_vec(), PdfObject::Reference(arr_id))],
                }),
            ),
        ],
        pages: vec![pid],
    };
    assert_eq!(resolve_annots_slot(&mut doc, pid), AnnotsSlot::InObject(arr_id));
}

#[test]
fn append_extends_annotation_array_in_order() {
    let mut doc = build_doc(vec![vec![b"Text"]]);
    let first = doc.objects[0].0;
    let extra = oid(doc.max_id + 1);
    doc.max_id += 1;
    doc.objects.push((extra, annot_dict(b"Square")));
    let page = doc.pages[0];
    append_annotation_refs(&mut doc, page, &vec![extra]);
    assert_eq!(read_annotation_ids(&doc, doc.pages[0]), vec![first, extra]);
}

#[test]
fn well_formedness_checker_accepts_and_rejects() {
    let good = build_doc(vec![vec![b"Text"], vec![]]);
    assert!(check_well_formed(&good));
    let pid = oid(1);
    let bad = PdfDocument {
        max_id: 1,
        objects: vec![(
            pid,
            PdfObject::Dictionary(PdfDict {
                entries: vec![(b"Annots".to_vec(), PdfObject::Integer(7))],
            }),
        )],
        pages: vec![pid],
    };
    assert!(!check_well_formed(&bad));
    let dangling = PdfDocument { max_id: 0, objects: Vec::new(), pages: vec![pid] };
    assert!(!check_well_formed(&dangling));
}

#[test]
fn strip_prunes_indirect_arrays_too() {
    let ann = oid(1);
    let arr = oid(2);
    let pid = oid(3);
    let mut doc = PdfDocument {
        max_id: 3,
        objects: vec![
            (ann, annot_dict(b"Text")),
            (arr, PdfObject::Array(vec![PdfObject::Reference(ann)])),
            (
                pid,
                PdfObject::Dictionary(PdfDict {
                    entries: vec![(b"Annots".to_vec(), PdfObject::Reference(arr))],
                }),
            ),
        ],
        pages: vec![pid],
    };
    let deleted = strip_annotations(&mut doc, &vec![b"Link".to_vec()]);
    assert_eq!(deleted, 1);
    assert!(read_annotation_ids(&doc, pid).is_empty());
    assert!(doc.get_object(ann).is_none());
    match doc.get_object(arr) {
        Some(PdfObject::Array(items)) => assert!(items.is_empty()),
        other => panic!("annotation array object missing: {other:?}"),
    }
}

#[test]
fn overwrite_gate_matches_policy() {
    assert!(should_write(false, false, false));
    assert!(should_write(true, true, false));
    assert!(should_write(true, false, true));
    assert!(!should_write(true, false, false));
}
