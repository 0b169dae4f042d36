//! The PDF object graph: object identifiers, objects, dictionaries and
//! the document object table.

use vstd::prelude::*;

verus! {

/// Identifier of one object inside a document's table: object number and
/// generation number.
#[derive(Clone, Copy, Debug, PartialEq, Eq, Hash, Structural)]
pub struct ObjId {
    pub num: u32,
    pub gen: u16,
}

/// A PDF object.  Annotations and pages are dictionaries; a page's
/// annotation collection is an array, stored inline or behind a
/// reference.  Real numbers are carried as their raw bit pattern so that
/// the model moves them around without interpreting them.
#[derive(Debug)]
pub enum PdfObject {
    Null,
    Boolean(bool),
    Integer(i64),
    /// A real number, held as the bit pattern of its 32-bit encoding.
    Real(u32),
    Name(Vec<u8>),
    /// A string object; the flag records hexadecimal written form.
    Text(Vec<u8>, bool),
    Reference(ObjId),
    Array(Vec<PdfObject>),
    Dictionary(PdfDict),
    /// A stream: its dictionary, its raw content, and whether the
    /// content may be compressed when written.
    Stream(PdfDict, Vec<u8>, bool),
}

/// A dictionary object: a list of key/value entries, keyed by name bytes.
#[derive(Debug)]
pub struct PdfDict {
    pub entries: Vec<(Vec<u8>, PdfObject)>,
}

/// The mathematical value of a `PdfObject`: byte sequences in place of
/// byte vectors, entry sequences in place of entry vectors.
#[verifier::ext_equal]
pub enum ObjView {
    Null,
    Boolean(bool),
    Integer(i64),
    Real(u32),
    Name(Seq<u8>),
    Text(Seq<u8>, bool),
    Reference(ObjId),
    Array(Seq<ObjView>),
    Dictionary(Seq<(Seq<u8>, ObjView)>),
    Stream(Seq<(Seq<u8>, ObjView)>, Seq<u8>, bool),
}

pub open spec fn view_objs(s: Seq<PdfObject>) -> Seq<ObjView>
    decreases s,
{
    if s.len() == 0 {
        Seq::empty()
    } else {
        seq![view_obj(s[0])] + view_objs(s.subrange(1, s.len() as int))
    }
}

pub open spec fn view_entries(s: Seq<(Vec<u8>, PdfObject)>) -> Seq<(Seq<u8>, ObjView)>
    decreases s,
{
    if s.len() == 0 {
        Seq::empty()
    } else {
        seq![(s[0].0@, view_obj(s[0].1))] + view_entries(s.subrange(1, s.len() as int))
    }
}

pub open spec fn view_obj(o: PdfObject) -> ObjView
    decreases o,
{
    match o {
        PdfObject::Null => ObjView::Null,
        PdfObject::Boolean(b) => ObjView::Boolean(b),
        PdfObject::Integer(i) => ObjView::Integer(i),
        PdfObject::Real(bits) => ObjView::Real(bits),
        PdfObject::Name(n) => ObjView::Name(n@),
        PdfObject::Text(t, hex) => ObjView::Text(t@, hex),
        PdfObject::Reference(id) => ObjView::Reference(id),
        PdfObject::Array(items) => ObjView::Array(view_objs(items@)),
        PdfObject::Dictionary(d) => ObjView::Dictionary(view_entries(d.entries@)),
        PdfObject::Stream(d, data, z) => ObjView::Stream(view_entries(d.entries@), data@, z),
    }
}

impl View for PdfObject {
    type V = ObjView;

    open spec fn view(&self) -> ObjView {
        view_obj(*self)
    }
}

impl View for PdfDict {
    type V = Seq<(Seq<u8>, ObjView)>;

    open spec fn view(&self) -> Seq<(Seq<u8>, ObjView)> {
        view_entries(self.entries@)
    }
}

/// The length and the elements of `view_objs`, stated pointwise.
pub proof fn lemma_view_objs(s: Seq<PdfObject>)
    ensures
        view_objs(s).len() == s.len(),
        forall|i: int| 0 <= i < s.len() ==> view_objs(s)[i] == view_obj(#[trigger] s[i]),
    decreases s,
{
    if s.len() > 0 {
        let t = s.subrange(1, s.len() as int);
        lemma_view_objs(t);
        assert forall|i: int| 0 <= i < s.len() implies view_objs(s)[i] == view_obj(#[trigger] s[i]) by {
            if i > 0 {
                assert(t[i - 1] == s[i]);
                assert(view_objs(s)[i] == view_objs(t)[i - 1]);
            }
        }
    }
}

/// The length and the elements of `view_entries`, stated pointwise.
pub proof fn lemma_view_entries(s: Seq<(Vec<u8>, PdfObject)>)
    ensures
        view_entries(s).len() == s.len(),
        forall|i: int| 0 <= i < s.len()
            ==> view_entries(s)[i] == ((#[trigger] s[i]).0@, view_obj(s[i].1)),
    decreases s,
{
    if s.len() > 0 {
        let t = s.subrange(1, s.len() as int);
        lemma_view_entries(t);
        assert forall|i: int| 0 <= i < s.len() implies view_entries(s)[i] == ((#[trigger] s[i]).0@, view_obj(s[i].1)) by {
            if i > 0 {
                assert(t[i - 1] == s[i]);
                assert(view_entries(s)[i] == view_entries(t)[i - 1]);
            }
        }
    }
}

/// Entry list of a dictionary, as a mathematical value.
pub type DictEntries = Seq<(Seq<u8>, ObjView)>;

/// Looks a key up in a dictionary's entry list.  The latest entry for a
/// key is the one that counts, so an update may shadow an earlier entry.
pub open spec fn dict_get(entries: DictEntries, key: Seq<u8>) -> Option<ObjView>
    decreases entries.len(),
{
    if entries.len() == 0 {
        None
    } else if entries.last().0 == key {
        Some(entries.last().1)
    } else {
        dict_get(entries.drop_last(), key)
    }
}

/// The mathematical value of a whole document: the object table as a
/// map, the pages in order, and the highest object number handed out.
#[verifier::ext_equal]
pub struct DocView {
    pub max_id: u32,
    pub objects: Map<ObjId, ObjView>,
    pub pages: Seq<ObjId>,
}

pub open spec fn table_pairs(s: Seq<(ObjId, PdfObject)>) -> Seq<(ObjId, ObjView)>
    decreases s,
{
    if s.len() == 0 {
        Seq::empty()
    } else {
        seq![(s[0].0, view_obj(s[0].1))] + table_pairs(s.subrange(1, s.len() as int))
    }
}

/// Folds a list of table entries into a map; a later entry for an
/// identifier shadows an earlier one.
pub open spec fn map_of_pairs(p: Seq<(ObjId, ObjView)>) -> Map<ObjId, ObjView>
    decreases p.len(),
{
    if p.len() == 0 {
        Map::empty()
    } else {
        map_of_pairs(p.drop_last()).insert(p.last().0, p.last().1)
    }
}

/// A document: its object table, its pages in document order, and the
/// highest object number in use, from which fresh identifiers are made.
#[derive(Debug)]
pub struct PdfDocument {
    pub max_id: u32,
    pub objects: Vec<(ObjId, PdfObject)>,
    pub pages: Vec<ObjId>,
}

impl View for PdfDocument {
    type V = DocView;

    open spec fn view(&self) -> DocView {
        DocView {
            max_id: self.max_id,
            objects: map_of_pairs(table_pairs(self.objects@)),
            pages: self.pages@,
        }
    }
}

/// The length and the elements of `table_pairs`, stated pointwise.
pub proof fn lemma_table_pairs(s: Seq<(ObjId, PdfObject)>)
    ensures
        table_pairs(s).len() == s.len(),
        forall|i: int| 0 <= i < s.len()
            ==> table_pairs(s)[i] == ((#[trigger] s[i]).0, view_obj(s[i].1)),
    decreases s,
{
    if s.len() > 0 {
        let t = s.subrange(1, s.len() as int);
        lemma_table_pairs(t);
        assert forall|i: int| 0 <= i < s.len() implies table_pairs(s)[i] == ((#[trigger] s[i]).0, view_obj(s[i].1)) by {
            if i > 0 {
                assert(t[i - 1] == s[i]);
                assert(table_pairs(s)[i] == table_pairs(t)[i - 1]);
            }
        }
    }
}

/// Entries whose identifier is not `k` do not affect what the table map
/// holds at `k`: the fold over `p` and over its prefix `p.take(i)` agree
/// there as soon as positions `i..` never mention `k`.
pub proof fn lemma_map_of_pairs_skip(p: Seq<(ObjId, ObjView)>, k: ObjId, i: int)
    requires
        0 <= i <= p.len(),
        forall|j: int| i <= j < p.len() ==> (#[trigger] p[j]).0 != k,
    ensures
        map_of_pairs(p).contains_key(k) <==> map_of_pairs(p.take(i)).contains_key(k),
        map_of_pairs(p).contains_key(k) ==> map_of_pairs(p)[k] == map_of_pairs(p.take(i))[k],
    decreases p.len() - i,
{
    if i == p.len() {
        assert(p.take(i) =~= p);
    } else {
        let q = p.drop_last();
        assert(p.last().0 != k);
        lemma_map_of_pairs_skip(q, k, i);
        assert(q.take(i) =~= p.take(i));
    }
}

/// The table map holds an identifier exactly when some entry carries it.
pub proof fn lemma_map_of_pairs_contains(p: Seq<(ObjId, ObjView)>, k: ObjId)
    ensures
        map_of_pairs(p).contains_key(k) <==> exists|j: int| 0 <= j < p.len() && (#[trigger] p[j]).0 == k,
    decreases p.len(),
{
    if p.len() > 0 {
        let q = p.drop_last();
        lemma_map_of_pairs_contains(q, k);
        if p.last().0 == k {
            assert(p[p.len() - 1].0 == k);
        } else {
            assert(forall|j: int| 0 <= j < q.len() ==> (#[trigger] q[j]) == p[j]);
            if map_of_pairs(p).contains_key(k) {
                let j = choose|j: int| 0 <= j < q.len() && (#[trigger] q[j]).0 == k;
                assert(p[j].0 == k);
            }
            if exists|j: int| 0 <= j < p.len() && (#[trigger] p[j]).0 == k {
                let j = choose|j: int| 0 <= j < p.len() && (#[trigger] p[j]).0 == k;
                assert(j < q.len() && q[j].0 == k);
            }
        }
    }
}

/// The value the table map holds at an identifier is the one of the last
/// entry that carries it.
pub proof fn lemma_map_of_pairs_at(p: Seq<(ObjId, ObjView)>, j: int)
    requires
        0 <= j < p.len(),
        forall|l: int| j < l < p.len() ==> (#[trigger] p[l]).0 != p[j].0,
    ensures
        map_of_pairs(p).contains_key(p[j].0),
        map_of_pairs(p)[p[j].0] == p[j].1,
    decreases p.len(),
{
    if j == p.len() - 1 {
    } else {
        let q = p.drop_last();
        lemma_map_of_pairs_at(q, j);
        assert(q[j] == p[j]);
    }
}

/// What the entries from position `i` on never match, the lookup decides
/// on the prefix alone.
pub proof fn lemma_dict_get_skip(entries: DictEntries, key: Seq<u8>, i: int)
    requires
        0 <= i <= entries.len(),
        forall|j: int| i <= j < entries.len() ==> (#[trigger] entries[j]).0 != key,
    ensures
        dict_get(entries, key) == dict_get(entries.take(i), key),
    decreases entries.len() - i,
{
    if i == entries.len() {
        assert(entries.take(i) =~= entries);
    } else {
        let q = entries.drop_last();
        assert(entries.last().0 != key);
        lemma_dict_get_skip(q, key, i);
        assert(q.take(i) =~= entries.take(i));
    }
}

/// Appending an entry to a dictionary appends its value to the view.
pub proof fn lemma_view_entries_push(s: Seq<(Vec<u8>, PdfObject)>, k: Vec<u8>, o: PdfObject)
    ensures
        view_entries(s.push((k, o))) == view_entries(s).push((k@, view_obj(o))),
{
    let t = s.push((k, o));
    lemma_view_entries(s);
    lemma_view_entries(t);
    assert forall|i: int| 0 <= i < t.len() implies view_entries(t)[i] == view_entries(s).push((k@, view_obj(o)))[i] by {
        assert(view_entries(t)[i] == (t[i].0@, view_obj(t[i].1)));
        if i < s.len() {
            assert(t[i] == s[i]);
            assert(view_entries(s)[i] == (s[i].0@, view_obj(s[i].1)));
        } else {
            assert(t[i] == (k, o));
        }
    }
    assert(view_entries(t) =~= view_entries(s).push((k@, view_obj(o))));
}

/// Appending an entry to the object table appends its pair to the view.
pub proof fn lemma_table_pairs_push(s: Seq<(ObjId, PdfObject)>, id: ObjId, o: PdfObject)
    ensures
        table_pairs(s.push((id, o))) == table_pairs(s).push((id, view_obj(o))),
{
    let t = s.push((id, o));
    lemma_table_pairs(s);
    lemma_table_pairs(t);
    assert forall|i: int| 0 <= i < t.len() implies table_pairs(t)[i] == table_pairs(s).push((id, view_obj(o)))[i] by {
        assert(table_pairs(t)[i] == (t[i].0, view_obj(t[i].1)));
        if i < s.len() {
            assert(t[i] == s[i]);
            assert(table_pairs(s)[i] == (s[i].0, view_obj(s[i].1)));
        } else {
            assert(t[i] == (id, o));
        }
    }
    assert(table_pairs(t) =~= table_pairs(s).push((id, view_obj(o))));
}

/// Compares two byte vectors for equality of their contents.
pub fn bytes_eq(a: &Vec<u8>, b: &Vec<u8>) -> (r: bool)
    ensures
        r <==> a@ == b@,
{
    if a.len() != b.len() {
        return false;
    }
    let mut i: usize = 0;
    while i < a.len()
        invariant
            i <= a.len(),
            a@.len() == b@.len(),
            forall|j: int| 0 <= j < i ==> a@[j] == b@[j],
        decreases a.len() - i,
    {
        if a[i] != b[i] {
            return false;
        }
        i += 1;
    }
    proof {
        assert(a@ =~= b@);
    }
    true
}

/// The contents of a list of byte vectors, as byte sequences.
pub open spec fn byte_views(l: Seq<Vec<u8>>) -> Seq<Seq<u8>> {
    l.map_values(|v: Vec<u8>| v@)
}

/// Appending an object to a vector appends its value to the view.
pub proof fn lemma_view_objs_push(s: Seq<PdfObject>, x: PdfObject)
    ensures
        view_objs(s.push(x)) == view_objs(s).push(view_obj(x)),
{
    let t = s.push(x);
    lemma_view_objs(s);
    lemma_view_objs(t);
    assert forall|i: int| 0 <= i < t.len() implies view_objs(t)[i] == view_objs(s).push(view_obj(x))[i] by {
        assert(view_objs(t)[i] == view_obj(t[i]));
        if i < s.len() {
            assert(t[i] == s[i]);
            assert(view_objs(s)[i] == view_obj(s[i]));
        } else {
            assert(t[i] == x);
        }
    }
    assert(view_objs(t) =~= view_objs(s).push(view_obj(x)));
}

/// Appending a byte vector to a list appends its contents to the views.
pub proof fn lemma_byte_views_push(l: Seq<Vec<u8>>, x: Vec<u8>)
    ensures
        byte_views(l.push(x)) == byte_views(l).push(x@),
{
    assert(byte_views(l.push(x)) =~= byte_views(l).push(x@));
}

/// Whether a byte string is one of a list, for instance a subtype in an
/// exclusion list.
pub fn bytes_in(list: &Vec<Vec<u8>>, x: &Vec<u8>) -> (r: bool)
    ensures
        r <==> byte_views(list@).contains(x@),
{
    let mut i: usize = 0;
    while i < list.len()
        invariant
            i <= list.len(),
            forall|j: int| 0 <= j < i ==> byte_views(list@)[j] != x@,
        decreases list.len() - i,
    {
        if bytes_eq(&list[i], x) {
            assert(byte_views(list@)[i as int] == x@);
            return true;
        }
        assert(byte_views(list@)[i as int] == list@[i as int]@);
        i += 1;
    }
    false
}

/// Whether an identifier is one of a list.
pub fn id_in(list: &Vec<ObjId>, id: ObjId) -> (r: bool)
    ensures
        r <==> list@.contains(id),
{
    let mut i: usize = 0;
    while i < list.len()
        invariant
            i <= list.len(),
            forall|j: int| 0 <= j < i ==> list@[j] != id,
        decreases list.len() - i,
    {
        if list[i] == id {
            return true;
        }
        i += 1;
    }
    false
}

impl PdfDict {
    /// A dictionary with no entries.
    pub fn new() -> (r: PdfDict)
        ensures
            r@ == Seq::<(Seq<u8>, ObjView)>::empty(),
    {
        PdfDict { entries: Vec::new() }
    }

    /// Looks a key up, returning the entry that `dict_get` names.
    pub fn get<'a>(&'a self, key: &Vec<u8>) -> (r: Option<&'a PdfObject>)
        ensures
            match r {
                Some(o) => dict_get(self@, key@) == Some(o@),
                None => dict_get(self@, key@) is None,
            },
    {
        proof {
            lemma_view_entries(self.entries@);
        }
        let mut i: usize = self.entries.len();
        while i > 0
            invariant
                i <= self.entries.len(),
                view_entries(self.entries@).len() == self.entries@.len(),
                forall|j: int| 0 <= j < self.entries@.len()
                    ==> view_entries(self.entries@)[j] == ((#[trigger] self.entries@[j]).0@, view_obj(self.entries@[j].1)),
                forall|j: int| i <= j < self.entries@.len()
                    ==> (#[trigger] view_entries(self.entries@)[j]).0 != key@,
            decreases i,
        {
            i -= 1;
            if bytes_eq(&self.entries[i].0, key) {
                proof {
                    lemma_dict_get_skip(self@, key@, i + 1);
                    assert(self@.take(i + 1).last() == self@[i as int]);
                    assert(self@.take(i + 1).drop_last() =~= self@.take(i as int));
                }
                return Some(&self.entries[i].1);
            }
        }
        proof {
            lemma_dict_get_skip(self@, key@, 0);
            assert(self@.take(0) =~= Seq::<(Seq<u8>, ObjView)>::empty());
        }
        None
    }

    /// Adds an entry for a key; the new entry shadows any earlier one.
    pub fn set(&mut self, key: Vec<u8>, value: PdfObject)
        ensures
            final(self)@ == old(self)@.push((key@, value@)),
            dict_get(final(self)@, key@) == Some(value@),
    {
        let ghost old_entries = self.entries@;
        let ghost kv = key@;
        let ghost vv = view_obj(value);
        proof {
            lemma_view_entries_push(old_entries, key, value);
        }
        self.entries.push((key, value));
        proof {
            assert(self@ == view_entries(old_entries).push((kv, vv)));
            assert(self@.last() == (kv, vv));
            assert(self@.drop_last() =~= old(self)@);
        }
    }
}

impl PdfDocument {
    /// A document with no objects and no pages.
    pub fn new() -> (r: PdfDocument)
        ensures
            r@.objects == Map::<ObjId, ObjView>::empty(),
            r@.pages == Seq::<ObjId>::empty(),
            r@.max_id == 0,
    {
        PdfDocument { max_id: 0, objects: Vec::new(), pages: Vec::new() }
    }

    /// Looks an identifier up in the object table.
    pub fn get_object<'a>(&'a self, id: ObjId) -> (r: Option<&'a PdfObject>)
        ensures
            match r {
                Some(o) => self@.objects.contains_key(id) && o@ == self@.objects[id],
                None => !self@.objects.contains_key(id),
            },
    {
        proof {
            lemma_table_pairs(self.objects@);
        }
        let ghost pairs = table_pairs(self.objects@);
        let mut i: usize = self.objects.len();
        while i > 0
            invariant
                i <= self.objects.len(),
                pairs == table_pairs(self.objects@),
                pairs.len() == self.objects@.len(),
                forall|j: int| 0 <= j < self.objects@.len()
                    ==> pairs[j] == ((#[trigger] self.objects@[j]).0, view_obj(self.objects@[j].1)),
                forall|j: int| i <= j < pairs.len() ==> (#[trigger] pairs[j]).0 != id,
            decreases i,
        {
            i -= 1;
            if self.objects[i].0 == id {
                proof {
                    lemma_map_of_pairs_at(pairs, i as int);
                }
                return Some(&self.objects[i].1);
            }
        }
        proof {
            lemma_map_of_pairs_contains(pairs, id);
        }
        None
    }

    /// Inserts a new object under a fresh identifier, the next object
    /// number after the highest in use.
    pub fn add_object(&mut self, obj: PdfObject) -> (id: ObjId)
        requires
            old(self).max_id < u32::MAX,
        ensures
            id == (ObjId { num: (old(self)@.max_id + 1) as u32, gen: 0u16 }),
            final(self)@.objects == old(self)@.objects.insert(id, obj@),
            final(self)@.pages == old(self)@.pages,
            final(self)@.max_id == old(self)@.max_id + 1,
    {
        self.max_id = self.max_id + 1;
        let id = ObjId { num: self.max_id, gen: 0 };
        self.push_entry(id, obj);
        id
    }

    /// Binds an identifier to an object; the new entry shadows any
    /// earlier one for the same identifier.
    pub fn set_object(&mut self, id: ObjId, obj: PdfObject)
        ensures
            final(self)@.objects == old(self)@.objects.insert(id, obj@),
            final(self)@.pages == old(self)@.pages,
            final(self)@.max_id == old(self)@.max_id,
    {
        self.push_entry(id, obj);
    }

    fn push_entry(&mut self, id: ObjId, obj: PdfObject)
        ensures
            final(self)@.objects == old(self)@.objects.insert(id, obj@),
            final(self)@.pages == old(self)@.pages,
            final(self)@.max_id == old(self)@.max_id,
    {
        let ghost old_table = self.objects@;
        let ghost ov = view_obj(obj);
        proof {
            lemma_table_pairs_push(old_table, id, obj);
        }
        self.objects.push((id, obj));
        proof {
            let p = table_pairs(self.objects@);
            let q = table_pairs(old_table);
            assert(p == q.push((id, ov)));
            assert(p.drop_last() =~= q);
            assert(p.last() == (id, ov));
            assert(map_of_pairs(p) == map_of_pairs(q).insert(id, ov));
        }
    }
}

/// Copies a byte vector.
pub fn clone_bytes(v: &Vec<u8>) -> (r: Vec<u8>)
    ensures
        r@ == v@,
{
    let mut out: Vec<u8> = Vec::new();
    let mut i: usize = 0;
    while i < v.len()
        invariant
            i <= v.len(),
            out@ =~= v@.take(i as int),
        decreases v.len() - i,
    {
        out.push(v[i]);
        i += 1;
        proof {
            assert(out@ =~= v@.take(i as int));
        }
    }
    proof {
        assert(v@.take(v@.len() as int) =~= v@);
    }
    out
}

/// Copies an object, nested content included; the copy has the same
/// mathematical value as the original.
pub fn clone_object(o: &PdfObject) -> (r: PdfObject)
    ensures
        r@ == o@,
    decreases *o,
{
    match o {
        PdfObject::Null => PdfObject::Null,
        PdfObject::Boolean(b) => PdfObject::Boolean(*b),
        PdfObject::Integer(i) => PdfObject::Integer(*i),
        PdfObject::Real(bits) => PdfObject::Real(*bits),
        PdfObject::Name(n) => PdfObject::Name(clone_bytes(n)),
        PdfObject::Text(t, hex) => PdfObject::Text(clone_bytes(t), *hex),
        PdfObject::Reference(id) => PdfObject::Reference(*id),
        PdfObject::Array(items) => PdfObject::Array(clone_objects(items)),
        PdfObject::Dictionary(d) => PdfObject::Dictionary(clone_dict(d)),
        PdfObject::Stream(d, data, z) => PdfObject::Stream(clone_dict(d), clone_bytes(data), *z),
    }
}

/// Copies a vector of objects, element by element.
pub fn clone_objects(v: &Vec<PdfObject>) -> (r: Vec<PdfObject>)
    ensures
        view_objs(r@) == view_objs(v@),
    decreases v@,
{
    let mut out: Vec<PdfObject> = Vec::new();
    let mut i: usize = 0;
    while i < v.len()
        invariant
            i <= v.len(),
            out@.len() == i,
            forall|j: int| 0 <= j < i ==> view_obj(#[trigger] out@[j]) == view_obj(v@[j]),
        decreases v.len() - i,
    {
        out.push(clone_object(&v[i]));
        i += 1;
    }
    proof {
        lemma_view_objs(out@);
        lemma_view_objs(v@);
        assert forall|j: int| 0 <= j < view_objs(out@).len() implies view_objs(out@)[j] == view_objs(v@)[j] by {
            assert(view_objs(out@)[j] == view_obj(out@[j]));
            assert(view_objs(v@)[j] == view_obj(v@[j]));
        }
        assert(view_objs(out@) =~= view_objs(v@));
    }
    out
}

/// Copies a dictionary, entry by entry.
pub fn clone_dict(d: &PdfDict) -> (r: PdfDict)
    ensures
        r@ == d@,
    decreases d.entries@,
{
    let mut out: Vec<(Vec<u8>, PdfObject)> = Vec::new();
    let mut i: usize = 0;
    while i < d.entries.len()
        invariant
            i <= d.entries.len(),
            out@.len() == i,
            forall|j: int| 0 <= j < i
                ==> (#[trigger] out@[j]).0@ == d.entries@[j].0@
                    && view_obj(out@[j].1) == view_obj(d.entries@[j].1),
        decreases d.entries.len() - i,
    {
        let key = clone_bytes(&d.entries[i].0);
        let value = clone_object(&d.entries[i].1);
        out.push((key, value));
        i += 1;
    }
    let r = PdfDict { entries: out };
    proof {
        lemma_view_entries(r.entries@);
        lemma_view_entries(d.entries@);
        assert forall|j: int| 0 <= j < r@.len() implies r@[j] == d@[j] by {
            assert(r@[j] == (r.entries@[j].0@, view_obj(r.entries@[j].1)));
            assert(d@[j] == (d.entries@[j].0@, view_obj(d.entries@[j].1)));
        }
        assert(r@ =~= d@);
    }
    r
}

} // verus!
