//! The decoder: the length prefix and directory of a Dimble file, and the DICOM-JSON document
//! that a directory and its data region stand for.
use vstd::bytes::{spec_u64_from_le_bytes, spec_u64_to_le_bytes, u64_from_le_bytes, u64_to_le_bytes};
use vstd::prelude::*;

use crate::dicom_json::{
    field_view, doc_view, is_binary_vr, is_pixel_data_tag, is_pn, pixel_data_tag, sq_vr,
    values_view, value_view, vr_is, Alphabetic, DicomField, DicomJsonData, DicomValue, DocModel,
    FieldModel, ValueModel,
};
use crate::ir_to_dimble::{header_map_view, header_view, HeaderField, HeaderFieldMap,
    HeaderMapModel, HeaderModel};
use crate::msgpack::{
    payload_of, read_payload, scalars_view, unpack_str, unpacked_str, Payload, PayloadModel,
    Scalar, ScalarModel,
};

verus! {

/// What `decode_to_json` writes as the inline binary of Pixel Data, which only the partial
/// loader reads.
pub const PIXEL_DATA_PLACEHOLDER: &'static str = "TODO encode pixel data correctly";

/// Why a Dimble file could not be read.
pub enum DecodeError {
    /// The length prefix or the directory is malformed, or an entry points outside the data
    /// region.
    HeaderInvalid,
    /// A payload is not what its VR calls for.
    PayloadInvalid,
}

// ---------------------------------------------------------------------------------------------
// File layout

/// A Dimble file: the directory's length as a little-endian u64, the directory, the data region.
pub open spec fn dimble_file(header: Seq<u8>, data: Seq<u8>) -> Seq<u8> {
    spec_u64_to_le_bytes(header.len() as u64) + header + data
}

/// The directory length that the prefix of `file` gives.
pub open spec fn header_len_of(file: Seq<u8>) -> u64 {
    spec_u64_from_le_bytes(file.subrange(0, 8))
}

/// Whether `file` is long enough for its prefix and the directory that the prefix announces.
pub open spec fn well_framed(file: Seq<u8>) -> bool {
    file.len() >= 8 && 8 + header_len_of(file) <= file.len()
}

/// Lays out a Dimble file.
pub fn frame_dimble(header: &[u8], data: &[u8]) -> (r: Vec<u8>)
    requires
        header@.len() <= u64::MAX,
    ensures
        r@ == dimble_file(header@, data@),
{
    let mut r = u64_to_le_bytes(header.len() as u64);
    let mut h = vstd::slice::slice_to_vec(header);
    let mut d = vstd::slice::slice_to_vec(data);
    r.append(&mut h);
    r.append(&mut d);
    r
}

/// Splits a Dimble file into the directory length, the directory bytes and the data region.
pub fn split_dimble(file: &[u8]) -> (r: Result<(u64, &[u8], &[u8]), DecodeError>)
    ensures
        match r {
            Ok((n, h, d)) => {
                &&& well_framed(file@)
                &&& n == header_len_of(file@)
                &&& h@ == file@.subrange(8, 8 + n)
                &&& d@ == file@.subrange(8 + n, file@.len() as int)
            },
            Err(e) => e == DecodeError::HeaderInvalid && !well_framed(file@),
        },
{
    if file.len() < 8 {
        return Err(DecodeError::HeaderInvalid);
    }
    let n = u64_from_le_bytes(&file[0..8]);
    if n > (file.len() - 8) as u64 {
        return Err(DecodeError::HeaderInvalid);
    }
    let end = 8 + n as usize;
    Ok((n, &file[8..end], &file[end..file.len()]))
}

/// The length prefix gives the directory's length, and skipping that many bytes past the
/// prefix lands on the first byte of the data region.
pub proof fn lemma_length_prefix_matches(header: Seq<u8>, data: Seq<u8>)
    requires
        header.len() <= u64::MAX,
    ensures
        well_framed(dimble_file(header, data)),
        header_len_of(dimble_file(header, data)) == header.len(),
        dimble_file(header, data).subrange(8, 8 + header.len() as int) == header,
        dimble_file(header, data).subrange(8 + header.len() as int, dimble_file(header, data).len() as int)
            == data,
{
    vstd::bytes::lemma_auto_spec_u64_to_from_le_bytes();
    let f = dimble_file(header, data);
    let p = spec_u64_to_le_bytes(header.len() as u64);
    assert(f.subrange(0, 8) =~= p);
    assert(f.subrange(8, 8 + header.len() as int) =~= header);
    assert(f.subrange(8 + header.len() as int, f.len() as int) =~= data);
}

// ---------------------------------------------------------------------------------------------
// What the decoder computes

/// An unsigned integer taken bit for bit as a signed one.
pub open spec fn reinterpret(u: u64) -> i64 {
    if u <= i64::MAX {
        u as i64
    } else {
        (u - 0x1_0000_0000_0000_0000) as i64
    }
}

pub open spec fn scalar_value(s: ScalarModel) -> ValueModel {
    match s {
        ScalarModel::Str(s) => ValueModel::Str(s),
        ScalarModel::Int(i) => ValueModel::Int(i),
        ScalarModel::UInt(u) => ValueModel::Int(reinterpret(u)),
        ScalarModel::Float(f) => ValueModel::Float(f),
    }
}

/// A bare scalar is a list of one value; an array is a list of its items.
pub open spec fn payload_values(p: PayloadModel) -> Seq<ValueModel> {
    match p {
        PayloadModel::One(s) => seq![scalar_value(s)],
        PayloadModel::Many(vs) => Seq::new(vs.len(), |i: int| scalar_value(vs[i])),
    }
}

pub open spec fn value_field(value: Seq<ValueModel>, vr: [u8; 2]) -> FieldModel {
    FieldModel { value: Some(value), vr, inline_binary: None }
}

/// The field that one directory entry stands for.
pub open spec fn decode_field(tag: Seq<char>, h: HeaderModel, data: Seq<u8>) -> Result<
    FieldModel,
    DecodeError,
>
    decreases h,
{
    match h {
        HeaderModel::Empty(vr) => Ok(FieldModel { value: None, vr, inline_binary: None }),
        HeaderModel::SQ(items) => match decode_items(items, data) {
            Ok(vs) => Ok(value_field(vs, sq_vr())),
            Err(e) => Err(e),
        },
        HeaderModel::Deffered(off, len, vr) => if off + len > data.len() {
            Err(DecodeError::HeaderInvalid)
        } else {
            let b = data.subrange(off as int, off + len);
            if is_binary_vr(vr) {
                if tag == pixel_data_tag() {
                    Ok(FieldModel { value: None, vr, inline_binary: Some(PIXEL_DATA_PLACEHOLDER@) })
                } else {
                    match unpacked_str(b) {
                        Some((s, _)) => Ok(FieldModel { value: None, vr, inline_binary: Some(s) }),
                        None => Err(DecodeError::PayloadInvalid),
                    }
                }
            } else if is_pn(vr) {
                match unpacked_str(b) {
                    Some((s, _)) => Ok(value_field(seq![ValueModel::Alpha(s)], vr)),
                    None => Err(DecodeError::PayloadInvalid),
                }
            } else {
                match payload_of(b) {
                    Some(p) => Ok(value_field(payload_values(p), vr)),
                    None => Err(DecodeError::PayloadInvalid),
                }
            }
        },
    }
}

/// The sequence items that sub-directories stand for.
pub open spec fn decode_items(items: Seq<HeaderMapModel>, data: Seq<u8>) -> Result<
    Seq<ValueModel>,
    DecodeError,
>
    decreases items,
{
    if items.len() == 0 {
        Ok(Seq::empty())
    } else {
        match decode_items(items.drop_last(), data) {
            Ok(vs) => match decode_doc(items.last(), data) {
                Ok(d) => Ok(vs.push(ValueModel::Item(d))),
                Err(e) => Err(e),
            },
            Err(e) => Err(e),
        }
    }
}

/// The document that a directory stands for, entry by entry.
pub open spec fn decode_doc(m: HeaderMapModel, data: Seq<u8>) -> Result<DocModel, DecodeError>
    decreases m,
{
    if m.len() == 0 {
        Ok(Seq::empty())
    } else {
        match decode_doc(m.drop_last(), data) {
            Ok(d) => match decode_field(m.last().0, m.last().1, data) {
                Ok(f) => Ok(d.push((m.last().0, f))),
                Err(e) => Err(e),
            },
            Err(e) => Err(e),
        }
    }
}


// ---------------------------------------------------------------------------------------------
// The decoder

fn integer_to_dicom_value(u: u64) -> (r: DicomValue)
    ensures
        value_view(&r) == ValueModel::Int(reinterpret(u)),
{
    if u <= i64::MAX as u64 {
        DicomValue::Integer(u as i64)
    } else {
        DicomValue::Integer(((u - 0x8000_0000_0000_0000u64) as i64) - 0x7fff_ffff_ffff_ffffi64 - 1)
    }
}

fn scalar_to_dicom_value(s: &Scalar) -> (r: DicomValue)
    ensures
        value_view(&r) == scalar_value(s@),
{
    match s {
        Scalar::Str(s) => DicomValue::String(s.clone()),
        Scalar::Int(i) => DicomValue::Integer(*i),
        Scalar::UInt(u) => integer_to_dicom_value(*u),
        Scalar::Float(f) => DicomValue::Float(*f),
    }
}

fn payload_to_dicom_values(p: &Payload) -> (r: Vec<DicomValue>)
    ensures
        values_view(&r) == payload_values(p@),
{
    let mut out: Vec<DicomValue> = Vec::new();
    match p {
        Payload::One(s) => {
            out.push(scalar_to_dicom_value(s));
            assert(values_view(&out) =~= payload_values(p@));
        },
        Payload::Many(items) => {
            let ghost vs = scalars_view(items@);
            let mut i: usize = 0;
            while i < items.len()
                invariant
                    vs == scalars_view(items@),
                    i <= items.len(),
                    values_view(&out) =~= Seq::new(i as nat, |j: int| scalar_value(vs[j])),
                decreases items.len() - i,
            {
                let ghost before = out;
                out.push(scalar_to_dicom_value(&items[i]));
                assert(values_view(&out) =~= values_view(&before).push(value_view(&out@[i as int])));
                i = i + 1;
            }
            assert(values_view(&out) =~= payload_values(p@));
        },
    }
    out
}

/// Reconstructs the field that one directory entry stands for.
pub fn headerfield_and_bytes_to_dicom_fields(
    tag: &String,
    header_field: &HeaderField,
    dimble_buffer: &[u8],
) -> (r: Result<DicomField, DecodeError>)
    ensures
        match (r, decode_field(tag@, header_view(header_field), dimble_buffer@)) {
            (Ok(f), Ok(fm)) => field_view(&f) == fm,
            (Err(e), Err(e2)) => e == e2,
            _ => false,
        },
    decreases header_field,
{
    match header_field {
        HeaderField::Empty(vr) => Ok(DicomField { value: None, vr: *vr, inline_binary: None }),
        HeaderField::SQ(sqs) => {
            assert(header_view(header_field) matches HeaderModel::SQ(its) && its =~= Seq::new(
                sqs.len() as nat,
                |i: int| header_map_view(&sqs@[i]),
            ));
            match sequence_items(sqs, dimble_buffer) {
                Ok(values) => Ok(
                    DicomField { value: Some(values), vr: [0x53u8, 0x51u8], inline_binary: None },
                ),
                Err(e) => Err(e),
            }
        },
        HeaderField::Deffered(field_pos, field_length, vr) => {
            let (pos, len) = (*field_pos, *field_length);
            if pos > dimble_buffer.len() as u64 || len > dimble_buffer.len() as u64 - pos {
                return Err(DecodeError::HeaderInvalid);
            }
            let field_bytes = &dimble_buffer[pos as usize..(pos + len) as usize];
            if vr_is(vr, 0x4f, 0x42) || vr_is(vr, 0x4f, 0x57) {
                if is_pixel_data_tag(tag.as_str()) {
                    let placeholder = String::from_str(PIXEL_DATA_PLACEHOLDER);
                    Ok(DicomField { value: None, vr: *vr, inline_binary: Some(placeholder) })
                } else {
                    match unpack_str(field_bytes) {
                        Some((s, _)) => Ok(DicomField { value: None, vr: *vr, inline_binary: Some(s) }),
                        None => Err(DecodeError::PayloadInvalid),
                    }
                }
            } else if vr_is(vr, 0x50, 0x4e) {
                match unpack_str(field_bytes) {
                    Some((name, _)) => {
                        let a = DicomValue::Alphabetic(Alphabetic { alphabetic: name });
                        let mut values: Vec<DicomValue> = Vec::new();
                        values.push(a);
                        let f = DicomField { value: Some(values), vr: *vr, inline_binary: None };
                        assert(values_view(&values) =~= seq![ValueModel::Alpha(name@)]);
                        Ok(f)
                    },
                    None => Err(DecodeError::PayloadInvalid),
                }
            } else {
                match read_payload(field_bytes) {
                    Some(p) => {
                        let values = payload_to_dicom_values(&p);
                        Ok(DicomField { value: Some(values), vr: *vr, inline_binary: None })
                    },
                    None => Err(DecodeError::PayloadInvalid),
                }
            }
        },
    }
}

/// Reconstructs the items of a sequence, one per sub-directory.
fn sequence_items(sqs: &Vec<HeaderFieldMap>, dimble_buffer: &[u8]) -> (r: Result<
    Vec<DicomValue>,
    DecodeError,
>)
    ensures
        match (r, decode_items(Seq::new(sqs.len() as nat, |i: int| header_map_view(&sqs@[i])), dimble_buffer@)) {
            (Ok(vs), Ok(vm)) => values_view(&vs) == vm,
            (Err(e), Err(e2)) => e == e2,
            _ => false,
        },
    decreases sqs,
{
    let ghost items = Seq::new(sqs.len() as nat, |i: int| header_map_view(&sqs@[i]));
    let mut values: Vec<DicomValue> = Vec::new();
    let mut i: usize = 0;
    assert(values_view(&values) =~= Seq::empty());
    while i < sqs.len()
        invariant
            items == Seq::new(sqs.len() as nat, |i: int| header_map_view(&sqs@[i])),
            i <= sqs.len(),
            values.len() == i,
            decode_items(items.take(i as int), dimble_buffer@) == Ok::<_, DecodeError>(values_view(&values)),
        decreases sqs.len() - i,
    {
        proof {
            assert(items.take(i + 1 as int).drop_last() =~= items.take(i as int));
            assert(items.take(i + 1 as int).last() == header_map_view(&sqs@[i as int]));
        }
        match headers_to_data(&sqs[i], dimble_buffer) {
            Ok(sub) => {
                let ghost before = values;
                values.push(DicomValue::SeqField(sub));
                assert(values_view(&values) =~= values_view(&before).push(value_view(&values@[i as int])));
            },
            Err(e) => {
                proof {
                    lemma_decode_items_error_persists(items, dimble_buffer@, i as nat + 1);
                }
                return Err(e);
            },
        }
        i = i + 1;
    }
    assert(items.take(i as int) =~= items);
    Ok(values)
}

proof fn lemma_decode_items_error_persists(items: Seq<HeaderMapModel>, data: Seq<u8>, i: nat)
    requires
        i <= items.len(),
        decode_items(items.take(i as int), data) is Err,
    ensures
        decode_items(items, data) == decode_items(items.take(i as int), data),
    decreases items.len() - i,
{
    if i < items.len() {
        assert(items.take(i + 1 as int).drop_last() =~= items.take(i as int));
        lemma_decode_items_error_persists(items, data, i + 1);
    } else {
        assert(items.take(i as int) =~= items);
    }
}

proof fn lemma_decode_doc_error_persists(m: HeaderMapModel, data: Seq<u8>, i: nat)
    requires
        i <= m.len(),
        decode_doc(m.take(i as int), data) is Err,
    ensures
        decode_doc(m, data) == decode_doc(m.take(i as int), data),
    decreases m.len() - i,
{
    if i < m.len() {
        assert(m.take(i + 1 as int).drop_last() =~= m.take(i as int));
        lemma_decode_doc_error_persists(m, data, i + 1);
    } else {
        assert(m.take(i as int) =~= m);
    }
}

/// Reconstructs the document that a directory stands for; `dimble_buffer` is the data region.
pub fn headers_to_data(sq: &HeaderFieldMap, dimble_buffer: &[u8]) -> (r: Result<
    DicomJsonData,
    DecodeError,
>)
    ensures
        match (r, decode_doc(header_map_view(sq), dimble_buffer@)) {
            (Ok(d), Ok(dm)) => doc_view(&d) == dm,
            (Err(e), Err(e2)) => e == e2,
            _ => false,
        },
    decreases sq,
{
    let ghost m = header_map_view(sq);
    let mut doc: DicomJsonData = Vec::new();
    let mut i: usize = 0;
    assert(doc_view(&doc) =~= Seq::empty());
    while i < sq.len()
        invariant
            m == header_map_view(sq),
            i <= sq.len(),
            decode_doc(m.take(i as int), dimble_buffer@) == Ok::<_, DecodeError>(doc_view(&doc)),
        decreases sq.len() - i,
    {
        let (tag, header_field) = &sq[i];
        proof {
            assert(m.take(i + 1 as int).drop_last() =~= m.take(i as int));
            assert(m.take(i + 1 as int).last() == (tag@, header_view(header_field)));
        }
        match headerfield_and_bytes_to_dicom_fields(tag, header_field, dimble_buffer) {
            Ok(field) => {
                let ghost before = doc;
                doc.push((tag.clone(), field));
                assert(doc_view(&doc) =~= doc_view(&before).push((tag@, field_view(&field))));
            },
            Err(e) => {
                proof {
                    lemma_decode_doc_error_persists(m, dimble_buffer@, i as nat + 1);
                }
                return Err(e);
            },
        }
        i = i + 1;
    }
    assert(m.take(i as int) =~= m);
    Ok(doc)
}

} // verus!
