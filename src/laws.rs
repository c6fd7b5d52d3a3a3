//! What holds of an encoded document: its directory is self-consistent, it decodes back to the
//! document, and the partial loader reads it back as the document's native values.
use vstd::prelude::*;

use crate::dicom_json::{
    is_binary_vr, is_pn, is_sq, pixel_data_tag, DocModel, FieldModel, ValueModel,
};
use crate::dimble_to_ir::{decode_doc, decode_field, scalar_value};
use crate::ir_to_dimble::{encode_field, holds_single_item, homogeneous, value_fits, HeaderMapModel, HeaderModel, InnerError};
use crate::load::{
    find_entry, load_all, load_entry, load_tags, payload_native, NativeMapModel,
    NativeModel,
};
use crate::msgpack::{fits_str, is_exact_payload, PayloadModel, ScalarModel};

verus! {

// ---------------------------------------------------------------------------------------------
// Which documents come back unchanged

/// A value that the generic decoder gives back as it is.
pub open spec fn plain_scalar(v: ValueModel) -> bool {
    v is Str || v is Int || v is Float
}

/// A field that decodes back to itself: no Pixel Data; inline binary only under OB or OW; a
/// person name only as the single value of a PN field; a sequence only as the empty list or a
/// single item under SQ; any other list non-empty, of one plain kind, not under OB or OW; no
/// string of 2^30 characters or more.
pub open spec fn field_round_trips(tag: Seq<char>, f: FieldModel) -> bool
    decreases f,
{
    tag != pixel_data_tag() && match (f.value, f.inline_binary) {
        (None, None) => true,
        (None, Some(ib)) => is_binary_vr(f.vr) && fits_str(ib),
        (Some(vs), None) => if vs.len() == 0 {
            is_sq(f.vr)
        } else if vs[0] is Item {
            vs.len() == 1 && is_sq(f.vr) && doc_round_trips(vs[0]->Item_0)
        } else if is_pn(f.vr) {
            vs.len() == 1 && vs[0] is Alpha && value_fits(vs[0])
        } else {
            &&& !is_binary_vr(f.vr)
            &&& vs.len() < 0x1_0000_0000
            &&& homogeneous(vs)
            &&& forall|i: int| 0 <= i < vs.len() ==> plain_scalar(#[trigger] vs[i]) && value_fits(vs[i])
        },
        (Some(_), Some(_)) => false,
    }
}

pub open spec fn doc_round_trips(doc: DocModel) -> bool
    decreases doc,
{
    forall|i: int| 0 <= i < doc.len() ==> field_round_trips(doc[i].0, #[trigger] doc[i].1)
}

// ---------------------------------------------------------------------------------------------
// The native projection of a document

/// The scalar a value is stored as.
pub open spec fn stored_scalar(v: ValueModel) -> ScalarModel {
    match v {
        ValueModel::Str(s) => ScalarModel::Str(s),
        ValueModel::Alpha(s) => ScalarModel::Str(s),
        ValueModel::Int(i) => ScalarModel::Int(i),
        ValueModel::Float(f) => ScalarModel::Float(f),
        ValueModel::Item(_) => ScalarModel::Int(0),
    }
}

/// What a value list is stored as: one value bare, more as an array.
pub open spec fn stored_payload(vs: Seq<ValueModel>) -> PayloadModel {
    if vs.len() == 1 {
        PayloadModel::One(stored_scalar(vs[0]))
    } else {
        PayloadModel::Many(Seq::new(vs.len(), |i: int| stored_scalar(vs[i])))
    }
}

/// The native value of a field: strings, integers and floats as they are, a single value
/// instead of a list of one, inline binary as its string, a field without payload as null, a
/// sequence as its first item.
pub open spec fn native_of_field(tag: Seq<char>, f: FieldModel) -> NativeModel
    decreases f,
{
    match (f.value, f.inline_binary) {
        (None, None) => NativeModel::Null,
        (None, Some(ib)) => NativeModel::Str(ib),
        (Some(vs), _) => if vs.len() == 0 {
            NativeModel::Null
        } else if vs[0] is Item {
            NativeModel::Dict(native_of_doc(vs[0]->Item_0))
        } else {
            payload_native(stored_payload(vs))
        },
    }
}

pub open spec fn native_of_doc(doc: DocModel) -> NativeMapModel
    decreases doc,
{
    Seq::new(
        doc.len(),
        |i: int|
            if 0 <= i < doc.len() {
                (doc[i].0, native_of_field(doc[i].0, doc[i].1))
            } else {
                (Seq::empty(), NativeModel::Null)
            },
    )
}

// ---------------------------------------------------------------------------------------------
// A self-consistent directory

/// Every payload entry lies inside the data region, and all but Pixel Data hold exactly one
/// MessagePack payload there, with no byte of the range left over.
pub open spec fn entry_well_formed(tag: Seq<char>, h: HeaderModel, data: Seq<u8>) -> bool
    decreases h,
{
    match h {
        HeaderModel::Deffered(off, len, _) => off + len <= data.len() && (tag != pixel_data_tag()
            ==> is_exact_payload(data.subrange(off as int, off + len))),
        HeaderModel::Empty(_) => true,
        HeaderModel::SQ(items) => forall|i: int|
            0 <= i < items.len() ==> directory_well_formed(#[trigger] items[i], data),
    }
}

pub open spec fn directory_well_formed(m: HeaderMapModel, data: Seq<u8>) -> bool
    decreases m,
{
    forall|i: int| 0 <= i < m.len() ==> entry_well_formed(m[i].0, #[trigger] m[i].1, data)
}

/// What the encoder promises of one entry, against any data region `data` that extends its
/// own: the entry is well formed, and a field that round-trips decodes and loads back.
pub open spec fn entry_reads_back(tag: Seq<char>, h: HeaderModel, f: FieldModel, start: u64, data: Seq<u8>) -> bool {
    &&& entry_well_formed(tag, h, data)
    &&& field_round_trips(tag, f) ==> {
        &&& decode_field(tag, h, data) == Ok::<FieldModel, crate::dimble_to_ir::DecodeError>(f)
        &&& load_entry(tag, h, start, data) == Ok::<NativeModel, crate::load::LoadFailure>(
            native_of_field(tag, f),
        )
    }
}

/// The same of a whole directory.
pub open spec fn directory_reads_back(m: HeaderMapModel, doc: DocModel, start: u64, data: Seq<u8>) -> bool {
    &&& directory_well_formed(m, data)
    &&& doc_round_trips(doc) ==> {
        &&& decode_doc(m, data) == Ok::<DocModel, crate::dimble_to_ir::DecodeError>(doc)
        &&& load_all(m, start, data) == Ok::<NativeMapModel, crate::load::LoadFailure>(
            native_of_doc(doc),
        )
    }
}

pub proof fn lemma_directory_reads_back_empty(start: u64, data: Seq<u8>)
    ensures
        directory_reads_back(Seq::empty(), Seq::empty(), start, data),
{
    assert(native_of_doc(Seq::empty()) =~= Seq::empty());
}

/// A directory that reads back, with one more entry that reads back, reads back.
pub proof fn lemma_directory_reads_back_push(
    m: HeaderMapModel,
    doc: DocModel,
    tag: Seq<char>,
    h: HeaderModel,
    f: FieldModel,
    start: u64,
    data: Seq<u8>,
)
    requires
        m.len() == doc.len(),
        directory_reads_back(m, doc, start, data),
        entry_reads_back(tag, h, f, start, data),
    ensures
        directory_reads_back(m.push((tag, h)), doc.push((tag, f)), start, data),
{
    let m2 = m.push((tag, h));
    let doc2 = doc.push((tag, f));
    assert forall|i: int| 0 <= i < m2.len() implies entry_well_formed(
        m2[i].0,
        #[trigger] m2[i].1,
        data,
    ) by {
        if i < m.len() {
            assert(m2[i] == m[i]);
        }
    }
    if doc_round_trips(doc2) {
        assert(doc_round_trips(doc)) by {
            assert forall|i: int| 0 <= i < doc.len() implies field_round_trips(
                doc[i].0,
                #[trigger] doc[i].1,
            ) by {
                assert(doc2[i] == doc[i]);
            }
        }
        assert(field_round_trips(tag, f)) by {
            let k = doc.len() as int;
            assert(doc2[k] == (tag, f));
            assert(field_round_trips(doc2[k].0, doc2[k].1));
        }
        assert(m2.drop_last() =~= m);
        assert(native_of_doc(doc2) =~= native_of_doc(doc).push((tag, native_of_field(tag, f))));
    }
}


// ---------------------------------------------------------------------------------------------
// Loading by tag

/// The tags of a directory, in order.
pub open spec fn tags_of(m: HeaderMapModel) -> Seq<Seq<char>> {
    Seq::new(m.len(), |i: int| m[i].0)
}

/// The tags of a document, in order.
pub open spec fn keys_of(doc: DocModel) -> Seq<Seq<char>> {
    Seq::new(doc.len(), |i: int| doc[i].0)
}

pub open spec fn distinct_tags(m: HeaderMapModel) -> bool {
    forall|i: int, j: int| 0 <= i < j < m.len() ==> m[i].0 != m[j].0
}

/// Looking up the tag of an entry finds that entry, where no earlier entry has its tag.
pub proof fn lemma_find_entry(m: HeaderMapModel, k: int)
    requires
        0 <= k < m.len(),
        forall|j: int| 0 <= j < k ==> #[trigger] m[j].0 != m[k].0,
    ensures
        find_entry(m, m[k].0) == Some(m[k].1),
    decreases k,
{
    if k > 0 {
        let rest = m.subrange(1, m.len() as int);
        assert(rest[k - 1] == m[k]);
        assert forall|j: int| 0 <= j < k - 1 implies #[trigger] rest[j].0 != rest[k - 1].0 by {
            assert(rest[j] == m[j + 1]);
        }
        lemma_find_entry(rest, k - 1);
    }
}

/// Loading a directory by its own tags, each named once, gives every entry in order: the
/// partial path asked for all keys returns what the whole-directory path returns.
pub proof fn lemma_load_own_tags(m: HeaderMapModel, start: u64, data: Seq<u8>)
    requires
        distinct_tags(m),
    ensures
        load_tags(m, tags_of(m), start, data) == load_all(m, start, data),
{
    lemma_load_own_tags_prefix(m, start, data, m.len());
    assert(tags_of(m).take(m.len() as int) =~= tags_of(m));
    assert(m.take(m.len() as int) =~= m);
}

proof fn lemma_load_own_tags_prefix(m: HeaderMapModel, start: u64, data: Seq<u8>, k: nat)
    requires
        distinct_tags(m),
        k <= m.len(),
    ensures
        load_tags(m, tags_of(m).take(k as int), start, data) == load_all(m.take(k as int), start, data),
    decreases k,
{
    if k > 0 {
        lemma_load_own_tags_prefix(m, start, data, (k - 1) as nat);
        let t = tags_of(m).take(k as int);
        let p = m.take(k as int);
        assert(t.drop_last() =~= tags_of(m).take(k - 1));
        assert(p.drop_last() =~= m.take(k - 1));
        assert(t.last() == m[k - 1].0);
        assert(p.last() == m[k - 1]);
        lemma_find_entry(m, k - 1);
    } else {
        assert(tags_of(m).take(0) =~= Seq::<Seq<char>>::empty());
        assert(m.take(0) =~= Seq::<(Seq<char>, HeaderModel)>::empty());
    }
}

/// A directory entry carries the tags of its field: a sequence entry has one sub-directory
/// with the item's tags where the field is a single item, and none otherwise.
pub open spec fn entry_same_tags(h: HeaderModel, f: FieldModel) -> bool
    decreases h,
{
    match h {
        HeaderModel::SQ(items) => if holds_single_item(f) {
            items.len() == 1 && directory_same_tags(items[0], f.value->Some_0[0]->Item_0)
        } else {
            items.len() == 0
        },
        _ => true,
    }
}

/// A directory has the document's tags, in order, and so do its sub-directories.
pub open spec fn directory_same_tags(m: HeaderMapModel, doc: DocModel) -> bool
    decreases m,
{
    &&& m.len() == doc.len()
    &&& forall|i: int| 0 <= i < m.len() ==> #[trigger] m[i].0 == doc[i].0
    &&& forall|i: int| 0 <= i < m.len() ==> entry_same_tags(#[trigger] m[i].1, doc[i].1)
}

/// No document or sequence item names a tag twice.
pub open spec fn doc_keys_distinct(doc: DocModel) -> bool
    decreases doc,
{
    &&& forall|i: int, j: int| 0 <= i < j < doc.len() ==> doc[i].0 != doc[j].0
    &&& forall|i: int| 0 <= i < doc.len() ==> field_keys_distinct(#[trigger] doc[i].1)
}

pub open spec fn field_keys_distinct(f: FieldModel) -> bool
    decreases f,
{
    match f.value {
        Some(vs) => forall|k: int|
            0 <= k < vs.len() ==> (#[trigger] vs[k] is Item ==> doc_keys_distinct(vs[k]->Item_0)),
        None => true,
    }
}

/// No directory or sub-directory holds a tag twice.
pub open spec fn directory_tags_distinct(m: HeaderMapModel) -> bool
    decreases m,
{
    &&& distinct_tags(m)
    &&& forall|i: int| 0 <= i < m.len() ==> entry_tags_distinct(#[trigger] m[i].1)
}

pub open spec fn entry_tags_distinct(h: HeaderModel) -> bool
    decreases h,
{
    match h {
        HeaderModel::SQ(items) => forall|k: int|
            0 <= k < items.len() ==> directory_tags_distinct(#[trigger] items[k]),
        _ => true,
    }
}

pub proof fn lemma_same_tags_empty()
    ensures
        directory_same_tags(Seq::empty(), Seq::empty()),
{
}

pub proof fn lemma_same_tags_push(
    m: HeaderMapModel,
    doc: DocModel,
    tag: Seq<char>,
    h: HeaderModel,
    f: FieldModel,
)
    requires
        directory_same_tags(m, doc),
        entry_same_tags(h, f),
    ensures
        directory_same_tags(m.push((tag, h)), doc.push((tag, f))),
{
    let m2 = m.push((tag, h));
    let d2 = doc.push((tag, f));
    assert forall|i: int| 0 <= i < m2.len() implies #[trigger] m2[i].0 == d2[i].0 by {
        if i < m.len() {
            assert(m2[i] == m[i] && d2[i] == doc[i]);
        }
    }
    assert forall|i: int| 0 <= i < m2.len() implies entry_same_tags(#[trigger] m2[i].1, d2[i].1) by {
        if i < m.len() {
            assert(m2[i] == m[i] && d2[i] == doc[i]);
        }
    }
}

/// A directory with the tags of a document whose tags are distinct has distinct tags too, in
/// every sub-directory.
pub proof fn lemma_distinct_tags_carry_over(m: HeaderMapModel, doc: DocModel)
    requires
        directory_same_tags(m, doc),
        doc_keys_distinct(doc),
    ensures
        directory_tags_distinct(m),
    decreases m,
{
    assert forall|i: int| 0 <= i < m.len() implies entry_tags_distinct(#[trigger] m[i].1) by {
        let f = doc[i].1;
        assert(entry_same_tags(m[i].1, f));
        assert(field_keys_distinct(f));
        if let HeaderModel::SQ(items) = m[i].1 {
            if holds_single_item(f) {
                let vs = f.value->Some_0;
                assert(vs[0] is Item ==> doc_keys_distinct(vs[0]->Item_0));
                assert(decreases_to!(m => m[i].1));
                lemma_distinct_tags_carry_over(items[0], vs[0]->Item_0);
                assert forall|k: int| 0 <= k < items.len() implies directory_tags_distinct(
                    #[trigger] items[k],
                ) by {
                    assert(k == 0);
                }
            }
        }
    }
    assert forall|i: int, j: int| 0 <= i < j < m.len() implies m[i].0 != m[j].0 by {
        assert(m[i].0 == doc[i].0);
        assert(m[j].0 == doc[j].0);
    }
}

/// Partial load equivalence: where the encoder's directory reads back and has the document's
/// tags (which its contract states of every encoded document), loading it by the document's
/// own tags, each present once, gives the native projection of the document.
pub proof fn lemma_partial_load_equivalence(
    m: HeaderMapModel,
    doc: DocModel,
    start: u64,
    data: Seq<u8>,
)
    requires
        directory_reads_back(m, doc, start, data),
        directory_same_tags(m, doc),
        doc_keys_distinct(doc),
        doc_round_trips(doc),
    ensures
        load_tags(m, keys_of(doc), start, data) == Ok::<NativeMapModel, crate::load::LoadFailure>(
            native_of_doc(doc),
        ),
{
    lemma_distinct_tags_carry_over(m, doc);
    assert(tags_of(m) =~= keys_of(doc));
    lemma_load_own_tags(m, start, data);
}

// ---------------------------------------------------------------------------------------------
// Fields without payload, and malformed fields

/// A field with neither a value nor inline binary is encoded as an empty entry, which
/// decodes to a field with neither, and loads as null.
pub proof fn lemma_absent_stays_absent(
    tag: Seq<char>,
    vr: [u8; 2],
    pixels: Option<Seq<u8>>,
    data: Seq<u8>,
    start: u64,
    later: Seq<u8>,
)
    ensures
        encode_field(tag, FieldModel { value: None, vr, inline_binary: None }, pixels, data)
            == Ok::<(HeaderModel, Seq<u8>), InnerError>((HeaderModel::Empty(vr), data)),
        decode_field(tag, HeaderModel::Empty(vr), later) == Ok::<
            FieldModel,
            crate::dimble_to_ir::DecodeError,
        >(FieldModel { value: None, vr, inline_binary: None }),
        load_entry(tag, HeaderModel::Empty(vr), start, later) == Ok::<
            NativeModel,
            crate::load::LoadFailure,
        >(NativeModel::Null),
{
}

/// A field that carries both a value and inline binary is rejected with
/// `ValueAndInlineBinaryBothPresent`, and a document that holds one is rejected.
pub proof fn lemma_value_and_inline_binary_rejected(
    doc: DocModel,
    k: int,
    pixels: Option<Seq<u8>>,
    data: Seq<u8>,
)
    requires
        0 <= k < doc.len(),
        doc[k].1.value is Some,
        doc[k].1.inline_binary is Some,
    ensures
        encode_field(doc[k].0, doc[k].1, pixels, data) == Err::<(HeaderModel, Seq<u8>), InnerError>(
            InnerError::ValueAndInlineBinaryBothPresent,
        ),
        crate::ir_to_dimble::encode_doc(doc, pixels, data) is Err,
        crate::ir_to_dimble::encode_doc(doc.take(k), pixels, data) is Ok ==> crate::ir_to_dimble::encode_doc(doc, pixels, data)
            == Err::<(HeaderMapModel, Seq<u8>), InnerError>(InnerError::ValueAndInlineBinaryBothPresent),
{
    let t = doc.take(k + 1);
    assert(t.drop_last() =~= doc.take(k));
    assert(t.last() == doc[k]);
    match crate::ir_to_dimble::encode_doc(doc.take(k), pixels, data) {
        Ok((_, d)) => {
            assert(encode_field(doc[k].0, doc[k].1, pixels, d) is Err);
        },
        Err(_) => {},
    }
    assert(crate::ir_to_dimble::encode_doc(t, pixels, data) is Err);
    crate::ir_to_dimble::lemma_encode_doc_error_persists(doc, pixels, data, (k + 1) as nat);
}

} // verus!
