//! The encoder: a DICOM-JSON document becomes a directory of header fields and a data region
//! that holds every field's payload.
use vstd::prelude::*;
use vstd::string::StrSliceExecFns;

use crate::dicom_json::{
    doc_view, field_view, is_pixel_data_tag, is_pn, is_sq, pixel_data_tag, sq_vr,
    value_view, values_view, vr_is, DicomField, DicomJsonData, DicomValue, DocModel, FieldModel, ValueModel,
    VR,
};
use crate::laws::{
    directory_same_tags, entry_same_tags, doc_keys_distinct, directory_tags_distinct,
    lemma_same_tags_empty, lemma_same_tags_push, lemma_distinct_tags_carry_over, directory_reads_back, entry_reads_back, field_round_trips, doc_round_trips, plain_scalar,
    stored_payload, stored_scalar, lemma_directory_reads_back_empty,
    lemma_directory_reads_back_push,
};
use crate::msgpack::{
    fits_str, payload_split, array_header, float_bytes, is_array_marker, lemma_array_header_round_trip,
    lemma_float_round_trip, pack_array_header, pack_float, pack_int_scalar, pack_str_scalar,
    packed_int, packed_str, payload_of, scalar_of, scalars_of, unpacked_str, ScalarModel,
};

verus! {

/// One entry of the directory.
pub enum HeaderField {
    /// Offset into the data region, length, VR.
    Deffered(u64, u64, VR),
    Empty(VR),
    /// One sub-directory per sequence item.
    SQ(Vec<HeaderFieldMap>),
}

/// A directory: tag and header field, in document order.
pub type HeaderFieldMap = Vec<(String, HeaderField)>;

pub enum HeaderModel {
    Deffered(u64, u64, VR),
    Empty(VR),
    SQ(Seq<Seq<(Seq<char>, HeaderModel)>>),
}

pub type HeaderMapModel = Seq<(Seq<char>, HeaderModel)>;

pub open spec fn header_view(h: &HeaderField) -> HeaderModel
    decreases h,
{
    match h {
        HeaderField::Deffered(off, len, vr) => HeaderModel::Deffered(*off, *len, *vr),
        HeaderField::Empty(vr) => HeaderModel::Empty(*vr),
        HeaderField::SQ(items) => HeaderModel::SQ(
            Seq::new(
                items.len() as nat,
                |i: int|
                    if 0 <= i < items.len() {
                        header_map_view(&items@[i])
                    } else {
                        Seq::empty()
                    },
            ),
        ),
    }
}

pub open spec fn header_map_view(m: &HeaderFieldMap) -> HeaderMapModel
    decreases m,
{
    Seq::new(
        m.len() as nat,
        |i: int|
            if 0 <= i < m.len() {
                (m@[i].0@, header_view(&m@[i].1))
            } else {
                (Seq::empty(), HeaderModel::Empty([0u8, 0u8]))
            },
    )
}

/// Why writing a Dimble file failed.
pub enum SerialiseFieldsError {
    CouldNotCreateFile { dimble_path: String },
    CouldNotSkipHeaderLength,
    CouldNotSerializeHeaders,
    CouldNotQueryStreamPosition,
    CouldNotSeekToStart,
    CouldNotWriteHeaderLength,
    CouldNotSeekToEndOfHeaders,
    CouldNotWriteData,
}

/// Why encoding failed.
pub enum InnerError {
    CouldNotOpen { json_path: String },
    FailedToParseJson,
    /// A field carries both a value and inline binary.
    ValueAndInlineBinaryBothPresent,
    /// A field that is not a sequence has an empty value list.
    EmptyValue,
    /// A value list mixes kinds of values.
    MixedValueKinds,
    /// A value list is too long for a MessagePack array.
    TooManyValues,
    /// A string is too long for a MessagePack string (2^30 characters or more).
    StringTooLong,
    /// Pixel data is present but no pixel array was supplied.
    MissingPixelArray,
    SerialiseFields { source: SerialiseFieldsError },
}

pub struct Error(pub InnerError);

// ---------------------------------------------------------------------------------------------
// What the encoder computes

/// The payload of one value on its own.
pub open spec fn scalar_bytes(v: ValueModel) -> Seq<u8> {
    match v {
        ValueModel::Str(s) => packed_str(s),
        ValueModel::Int(i) => packed_int(i),
        ValueModel::Float(f) => float_bytes(f),
        ValueModel::Alpha(a) => packed_str(a),
        ValueModel::Item(_) => Seq::empty(),
    }
}

/// The payloads of the values, one after the other.
pub open spec fn concat_bytes(vs: Seq<ValueModel>) -> Seq<u8>
    decreases vs.len(),
{
    if vs.len() == 0 {
        Seq::empty()
    } else {
        concat_bytes(vs.drop_last()) + scalar_bytes(vs.last())
    }
}

pub open spec fn same_kind(a: ValueModel, b: ValueModel) -> bool {
    match (a, b) {
        (ValueModel::Str(_), ValueModel::Str(_)) => true,
        (ValueModel::Int(_), ValueModel::Int(_)) => true,
        (ValueModel::Float(_), ValueModel::Float(_)) => true,
        (ValueModel::Alpha(_), ValueModel::Alpha(_)) => true,
        _ => false,
    }
}

pub open spec fn homogeneous(vs: Seq<ValueModel>) -> bool {
    forall|i: int| 0 <= i < vs.len() ==> same_kind(vs[0], #[trigger] vs[i])
}

/// A value whose text, if it has any, is short enough for the MessagePack str formats.
pub open spec fn value_fits(v: ValueModel) -> bool {
    match v {
        ValueModel::Str(s) => fits_str(s),
        ValueModel::Alpha(s) => fits_str(s),
        _ => true,
    }
}

/// The payload of a non-empty value list that is not a single sequence item: a single value
/// bare, more values as an array. `None` where a list of several items is dropped.
pub open spec fn values_bytes(vs: Seq<ValueModel>) -> Result<Option<Seq<u8>>, InnerError> {
    if vs.len() == 1 {
        if value_fits(vs[0]) {
            Ok(Some(scalar_bytes(vs[0])))
        } else {
            Err(InnerError::StringTooLong)
        }
    } else if vs[0] is Item {
        Ok(None)
    } else if vs.len() >= 0x1_0000_0000 {
        Err(InnerError::TooManyValues)
    } else if !homogeneous(vs) {
        Err(InnerError::MixedValueKinds)
    } else if !(forall|i: int| 0 <= i < vs.len() ==> value_fits(#[trigger] vs[i])) {
        Err(InnerError::StringTooLong)
    } else {
        Ok(Some(array_header(vs.len()) + concat_bytes(vs)))
    }
}

/// A payload appended at the end of `data`, and its directory entry.
pub open spec fn deferred(data: Seq<u8>, b: Seq<u8>, vr: VR) -> (HeaderModel, Seq<u8>) {
    (HeaderModel::Deffered(data.len() as u64, b.len() as u64, vr), data + b)
}

/// The directory entry of one field, and the data region after its payload is appended.
pub open spec fn encode_field(
    tag: Seq<char>,
    f: FieldModel,
    pixels: Option<Seq<u8>>,
    data: Seq<u8>,
) -> Result<(HeaderModel, Seq<u8>), InnerError>
    decreases f,
{
    match (f.value, f.inline_binary) {
        (None, None) => Ok((HeaderModel::Empty(f.vr), data)),
        (None, Some(ib)) => if tag == pixel_data_tag() {
            match pixels {
                Some(p) => Ok(deferred(data, p, f.vr)),
                None => Err(InnerError::MissingPixelArray),
            }
        } else if fits_str(ib) {
            Ok(deferred(data, packed_str(ib), f.vr))
        } else {
            Err(InnerError::StringTooLong)
        },
        (Some(vs), None) => if vs.len() == 0 {
            if is_sq(f.vr) {
                Ok((HeaderModel::SQ(Seq::empty()), data))
            } else {
                Err(InnerError::EmptyValue)
            }
        } else if vs.len() == 1 && vs[0] is Item {
            match encode_doc(vs[0]->Item_0, pixels, data) {
                Ok((h, d)) => Ok((HeaderModel::SQ(seq![h]), d)),
                Err(e) => Err(e),
            }
        } else {
            match values_bytes(vs) {
                Ok(Some(b)) => Ok(deferred(data, b, f.vr)),
                Ok(None) => Ok((HeaderModel::Empty(f.vr), data)),
                Err(e) => Err(e),
            }
        },
        (Some(_), Some(_)) => Err(InnerError::ValueAndInlineBinaryBothPresent),
    }
}

/// The directory of a document, and the data region after all its payloads are appended, in
/// document order.
pub open spec fn encode_doc(doc: DocModel, pixels: Option<Seq<u8>>, data: Seq<u8>) -> Result<
    (HeaderMapModel, Seq<u8>),
    InnerError,
>
    decreases doc,
{
    if doc.len() == 0 {
        Ok((Seq::empty(), data))
    } else {
        match encode_doc(doc.drop_last(), pixels, data) {
            Ok((h, d)) => match encode_field(doc.last().0, doc.last().1, pixels, d) {
                Ok((hf, d2)) => Ok((h.push((doc.last().0, hf)), d2)),
                Err(e) => Err(e),
            },
            Err(e) => Err(e),
        }
    }
}

/// A value list of exactly one sequence item, the one case the encoder recurses into.
pub open spec fn holds_single_item(f: FieldModel) -> bool {
    match f.value {
        Some(vs) => vs.len() == 1 && vs[0] is Item,
        None => false,
    }
}

pub open spec fn pixels_view(p: Option<&[u8]>) -> Option<Seq<u8>> {
    match p {
        Some(b) => Some(b@),
        None => None,
    }
}


pub open spec fn field_result_is(
    r: Result<HeaderField, InnerError>,
    s: Result<(HeaderModel, Seq<u8>), InnerError>,
    data: Seq<u8>,
) -> bool {
    match (r, s) {
        (Ok(h), Ok((hm, d))) => header_view(&h) == hm && data == d,
        (Err(e), Err(e2)) => e == e2,
        _ => false,
    }
}

pub open spec fn map_result_is(
    r: Result<HeaderFieldMap, InnerError>,
    s: Result<(HeaderMapModel, Seq<u8>), InnerError>,
    data: Seq<u8>,
) -> bool {
    match (r, s) {
        (Ok(h), Ok((hm, d))) => header_map_view(&h) == hm && data == d,
        (Err(e), Err(e2)) => e == e2,
        _ => false,
    }
}

// ---------------------------------------------------------------------------------------------
// The encoder

/// Appends a payload to the data region and makes its directory entry.
fn extend_and_make_field(data_bytes: &mut Vec<u8>, field_bytes: Vec<u8>, vr: VR) -> (r:
    HeaderField)
    ensures
        (header_view(&r), final(data_bytes)@) == deferred(old(data_bytes)@, field_bytes@, vr),
        old(data_bytes)@.len() <= u64::MAX,
        field_bytes@.len() <= u64::MAX,
{
    let mut field_bytes = field_bytes;
    let offset = data_bytes.len() as u64;
    let length = field_bytes.len() as u64;
    data_bytes.append(&mut field_bytes);
    HeaderField::Deffered(offset, length, vr)
}

/// The payload of one value that is not a sequence item.
fn scalar_to_vec(v: &DicomValue) -> (r: Vec<u8>)
    requires
        !(v is SeqField),
        value_fits(value_view(v)),
    ensures
        r@ == scalar_bytes(value_view(v)),
        r@.len() > 0 && !is_array_marker(r@[0]),
        forall|tail: Seq<u8>| #[trigger]
            scalar_of(r@ + tail) == Some((stored_scalar(value_view(v)), tail)),
        value_view(v) matches ValueModel::Alpha(a) ==> forall|tail: Seq<u8>| #[trigger]
            unpacked_str(r@ + tail) == Some((a, tail)),
{
    match v {
        DicomValue::String(s) => pack_str_scalar(s.as_str()),
        DicomValue::Integer(i) => pack_int_scalar(*i),
        DicomValue::Float(f) => {
            let r = pack_float(*f);
            assert forall|tail: Seq<u8>| #[trigger]
                scalar_of(r@ + tail) == Some((ScalarModel::Float(*f), tail)) by {
                lemma_float_round_trip(*f, tail);
            }
            r
        },
        DicomValue::Alphabetic(a) => pack_str_scalar(a.alphabetic.as_str()),
        DicomValue::SeqField(_) => Vec::new(),
    }
}

fn str_fits(s: &String) -> (r: bool)
    ensures
        r == fits_str(s@),
{
    s.as_str().unicode_len() < 0x4000_0000
}

fn value_fits_exec(v: &DicomValue) -> (r: bool)
    ensures
        r == value_fits(value_view(v)),
{
    match v {
        DicomValue::String(s) => str_fits(s),
        DicomValue::Alphabetic(a) => str_fits(&a.alphabetic),
        _ => true,
    }
}

fn same_kind_exec(a: &DicomValue, b: &DicomValue) -> (r: bool)
    ensures
        r == same_kind(value_view(a), value_view(b)),
{
    match (a, b) {
        (DicomValue::String(_), DicomValue::String(_)) => true,
        (DicomValue::Integer(_), DicomValue::Integer(_)) => true,
        (DicomValue::Float(_), DicomValue::Float(_)) => true,
        (DicomValue::Alphabetic(_), DicomValue::Alphabetic(_)) => true,
        _ => false,
    }
}

/// The payload of a value list; see `values_bytes`.
fn dicom_values_to_vec(dicom_values: &Vec<DicomValue>) -> (r: Result<Option<Vec<u8>>, InnerError>)
    requires
        dicom_values.len() >= 1,
        !(dicom_values.len() == 1 && dicom_values@[0] is SeqField),
    ensures
        match (r, values_bytes(values_view(dicom_values))) {
            (Ok(Some(b)), Ok(Some(sb))) => b@ == sb,
            (Ok(None), Ok(None)) => true,
            (Err(e), Err(e2)) => e == e2,
            _ => false,
        },
        r matches Ok(Some(b)) ==> payload_split(b@) == Some(
            (stored_payload(values_view(dicom_values)), Seq::<u8>::empty()),
        ),
        r matches Ok(Some(b)) ==> (dicom_values.len() == 1 && values_view(dicom_values)[0] is Alpha
            ==> unpacked_str(b@) == Some((values_view(dicom_values)[0]->Alpha_0, Seq::<u8>::empty()))),
{
    let ghost vs = values_view(dicom_values);
    if dicom_values.len() == 1 {
        if !value_fits_exec(&dicom_values[0]) {
            return Err(InnerError::StringTooLong);
        }
        let b = scalar_to_vec(&dicom_values[0]);
        proof {
            assert(b@ + Seq::<u8>::empty() =~= b@);
            assert(scalar_of(b@ + Seq::<u8>::empty()) == Some((stored_scalar(vs[0]), Seq::<u8>::empty())));
            if vs[0] is Alpha {
                let a = vs[0]->Alpha_0;
                assert(unpacked_str(b@ + Seq::<u8>::empty()) == Some((a, Seq::<u8>::empty())));
            }
        }
        return Ok(Some(b));
    }
    if let DicomValue::SeqField(_) = &dicom_values[0] {
        return Ok(None);
    }
    if dicom_values.len() as u64 >= 0x1_0000_0000u64 {
        return Err(InnerError::TooManyValues);
    }
    let n = dicom_values.len();
    let mut k: usize = 0;
    while k < n
        invariant
            n == dicom_values.len(),
            vs == values_view(dicom_values),
            2 <= n < 0x1_0000_0000,
            !(vs[0] is Item),
            k <= n,
            forall|j: int| 0 <= j < k ==> same_kind(vs[0], #[trigger] vs[j]),
        decreases n - k,
    {
        if !same_kind_exec(&dicom_values[0], &dicom_values[k]) {
            assert(!same_kind(vs[0], vs[k as int]));
            return Err(InnerError::MixedValueKinds);
        }
        k = k + 1;
    }
    assert(homogeneous(vs));
    let mut out = pack_array_header(n);
    let mut i: usize = 0;
    assert forall|tail: Seq<u8>| #[trigger] scalars_of(concat_bytes(vs.take(0)) + tail, 0)
        == Some((Seq::new(0, |j: int| stored_scalar(vs[j])), tail)) by {
        assert(concat_bytes(vs.take(0)) + tail =~= tail);
        assert(Seq::new(0, |j: int| stored_scalar(vs[j])) =~= Seq::<ScalarModel>::empty());
    }
    while i < n
        invariant
            n == dicom_values.len(),
            vs == values_view(dicom_values),
            2 <= n < 0x1_0000_0000,
            !(vs[0] is Item),
            i <= n,
            out@ == array_header(n as nat) + concat_bytes(vs.take(i as int)),
            homogeneous(vs),
            forall|j: int| 0 <= j < i ==> value_fits(#[trigger] vs[j]),
            forall|tail: Seq<u8>| #[trigger] scalars_of(concat_bytes(vs.take(i as int)) + tail, i as nat)
                == Some((Seq::new(i as nat, |j: int| stored_scalar(vs[j])), tail)),
        decreases n - i,
    {
        if !value_fits_exec(&dicom_values[i]) {
            assert(!value_fits(vs[i as int]));
            return Err(InnerError::StringTooLong);
        }
        let mut b = scalar_to_vec(&dicom_values[i]);
        proof {
            let prev = vs.take(i as int);
            let next = vs.take(i + 1);
            assert(next.drop_last() =~= prev);
            assert(next.last() == vs[i as int]);
            assert forall|tail: Seq<u8>| #[trigger] scalars_of(concat_bytes(next) + tail, i as nat + 1)
                == Some((Seq::new(i as nat + 1, |j: int| stored_scalar(vs[j])), tail)) by {
                assert(concat_bytes(next) + tail =~= concat_bytes(prev) + (b@ + tail));
                assert(scalars_of(concat_bytes(prev) + (b@ + tail), i as nat) == Some((
                    Seq::new(i as nat, |j: int| stored_scalar(vs[j])),
                    b@ + tail,
                )));
                assert(scalar_of(b@ + tail) == Some((stored_scalar(vs[i as int]), tail)));
                assert(Seq::new(i as nat, |j: int| stored_scalar(vs[j])).push(stored_scalar(vs[i as int]))
                    =~= Seq::new(i as nat + 1, |j: int| stored_scalar(vs[j])));
            }
        }
        out.append(&mut b);
        i = i + 1;
    }
    proof {
        assert(vs.take(n as int) =~= vs);
        let c = concat_bytes(vs);
        lemma_array_header_round_trip(n as nat, c);
        assert(c + Seq::<u8>::empty() =~= c);
        assert(scalars_of(c + Seq::<u8>::empty(), n as nat) == Some((
            Seq::new(n as nat, |j: int| stored_scalar(vs[j])),
            Seq::<u8>::empty(),
        )));
        assert((array_header(n as nat) + c)[0] == array_header(n as nat)[0]);
    }
    Ok(Some(out))
}

proof fn lemma_prefix_trans(a: Seq<u8>, b: Seq<u8>, c: Seq<u8>)
    requires
        a.is_prefix_of(b),
        b.is_prefix_of(c),
    ensures
        a.is_prefix_of(c),
{
    assert forall|k: int| 0 <= k < a.len() implies a[k] == c.subrange(0, a.len() as int)[k] by {
        assert(a[k] == b[k]);
        assert(b[k] == c[k]);
    }
    assert(a =~= c.subrange(0, a.len() as int));
}

/// A payload appended at the end of `old` is found at its offset in every extension.
proof fn lemma_appended_slice(old: Seq<u8>, b: Seq<u8>, d: Seq<u8>)
    requires
        (old + b).is_prefix_of(d),
    ensures
        old.is_prefix_of(old + b),
        d.subrange(old.len() as int, old.len() + b.len() as int) == b,
{
    assert(old =~= (old + b).subrange(0, old.len() as int));
    assert forall|k: int| 0 <= k < b.len() implies d.subrange(old.len() as int, old.len() + b.len() as int)[k]
        == b[k] by {
        assert(d[old.len() + k] == (old + b)[old.len() + k]);
    }
    assert(d.subrange(old.len() as int, old.len() + b.len() as int) =~= b);
}

fn prepare_dimble_fields(
    dicom_fields: &DicomJsonData,
    data_bytes: &mut Vec<u8>,
    pixel_array: Option<&[u8]>,
) -> (r: Result<HeaderFieldMap, InnerError>)
    ensures
        map_result_is(
            r,
            encode_doc(doc_view(dicom_fields), pixels_view(pixel_array), old(data_bytes)@),
            final(data_bytes)@,
        ),
        r is Ok ==> old(data_bytes)@.is_prefix_of(final(data_bytes)@),
        match r {
            Ok(h) => forall|d: Seq<u8>, start: u64|
                final(data_bytes)@.is_prefix_of(d) ==> #[trigger] directory_reads_back(
                    header_map_view(&h),
                    doc_view(dicom_fields),
                    start,
                    d,
                ),
            Err(_) => true,
        },
        match r {
            Ok(h) => directory_same_tags(header_map_view(&h), doc_view(dicom_fields)),
            Err(_) => true,
        },
        doc_round_trips(doc_view(dicom_fields)) ==> r is Ok,
    decreases dicom_fields,
{
    let ghost doc = doc_view(dicom_fields);
    let ghost px = pixels_view(pixel_array);
    let ghost data0 = data_bytes@;
    let mut header_fields: HeaderFieldMap = Vec::new();
    let mut i: usize = 0;
    assert(doc.take(0) =~= Seq::<(Seq<char>, FieldModel)>::empty());
    assert(header_map_view(&header_fields) =~= Seq::empty());
    proof { lemma_same_tags_empty(); }
    assert(data0 =~= data0.subrange(0, data0.len() as int));
    assert forall|d: Seq<u8>, start: u64|
        data_bytes@.is_prefix_of(d) implies #[trigger] directory_reads_back(
            header_map_view(&header_fields),
            doc.take(0),
            start,
            d,
        ) by {
        lemma_directory_reads_back_empty(start, d);
    }
    while i < dicom_fields.len()
        invariant
            doc == doc_view(dicom_fields),
            px == pixels_view(pixel_array),
            data0 == old(data_bytes)@,
            i <= dicom_fields.len(),
            encode_doc(doc.take(i as int), px, data0) == Ok::<_, InnerError>(
                (header_map_view(&header_fields), data_bytes@),
            ),
            header_fields.len() == i,
            directory_same_tags(header_map_view(&header_fields), doc.take(i as int)),
            data0.is_prefix_of(data_bytes@),
            forall|d: Seq<u8>, start: u64|
                data_bytes@.is_prefix_of(d) ==> #[trigger] directory_reads_back(
                    header_map_view(&header_fields),
                    doc.take(i as int),
                    start,
                    d,
                ),
        decreases dicom_fields.len() - i,
    {
        let (tag, dicom_field) = &dicom_fields[i];
        proof {
            assert(doc.take(i + 1).drop_last() =~= doc.take(i as int));
            assert(doc.take(i + 1).last() == (tag@, field_view(dicom_field)));
        }
        let ghost data_before = data_bytes@;
        let h = prepare_dimble_field(tag, dicom_field, data_bytes, pixel_array);
        match h {
            Ok(h) => {
                let ghost before = header_fields;
                header_fields.push((tag.clone(), h));
                proof {
                    assert(header_map_view(&header_fields) =~= header_map_view(&before).push(
                        (tag@, header_view(&h)),
                    ));
                    lemma_prefix_trans(data0, data_before, data_bytes@);
                    lemma_same_tags_push(
                        header_map_view(&before),
                        doc.take(i as int),
                        tag@,
                        header_view(&h),
                        field_view(dicom_field),
                    );
                    assert(doc.take(i as int).push((tag@, field_view(dicom_field))) =~= doc.take(i + 1 as int));
                    assert forall|d: Seq<u8>, start: u64|
                        data_bytes@.is_prefix_of(d) implies #[trigger] directory_reads_back(
                            header_map_view(&header_fields),
                            doc.take(i + 1 as int),
                            start,
                            d,
                        ) by {
                        lemma_prefix_trans(data_before, data_bytes@, d);
                        assert(directory_reads_back(header_map_view(&before), doc.take(i as int), start, d));
                        assert(entry_reads_back(tag@, header_view(&h), field_view(dicom_field), start, d));
                        lemma_directory_reads_back_push(
                            header_map_view(&before),
                            doc.take(i as int),
                            tag@,
                            header_view(&h),
                            field_view(dicom_field),
                            start,
                            d,
                        );
                        assert(doc.take(i as int).push((tag@, field_view(dicom_field))) =~= doc.take(i + 1 as int));
                    }
                }
            },
            Err(e) => {
                proof {
                    assert(doc[i as int] == (tag@, field_view(dicom_field)));
                    assert(!field_round_trips(doc[i as int].0, doc[i as int].1));
                    assert(encode_doc(doc.take(i + 1 as int), px, data0) == Err::<
                        (HeaderMapModel, Seq<u8>),
                        InnerError,
                    >(e));
                    lemma_encode_doc_error_persists(doc, px, data0, i as nat + 1);
                }
                return Err(e);
            },
        }
        i = i + 1;
    }
    proof {
        assert(doc.take(i as int) =~= doc);
    }
    Ok(header_fields)
}

/// Once a field fails, the document fails with the same error.
pub proof fn lemma_encode_doc_error_persists(
    doc: DocModel,
    px: Option<Seq<u8>>,
    data: Seq<u8>,
    i: nat,
)
    requires
        i <= doc.len(),
        encode_doc(doc.take(i as int), px, data) is Err,
    ensures
        encode_doc(doc, px, data) == encode_doc(doc.take(i as int), px, data),
    decreases doc.len() - i,
{
    if i < doc.len() {
        assert(doc.take(i + 1 as int).drop_last() =~= doc.take(i as int));
        lemma_encode_doc_error_persists(doc, px, data, i + 1);
    } else {
        assert(doc.take(i as int) =~= doc);
    }
}

fn prepare_dimble_field(
    tag: &String,
    dicom_field: &DicomField,
    data_bytes: &mut Vec<u8>,
    pixel_array: Option<&[u8]>,
) -> (r: Result<HeaderField, InnerError>)
    ensures
        field_result_is(
            r,
            encode_field(tag@, field_view(dicom_field), pixels_view(pixel_array), old(data_bytes)@),
            final(data_bytes)@,
        ),
        r is Ok ==> old(data_bytes)@.is_prefix_of(final(data_bytes)@),
        match r {
            Ok(h) => forall|d: Seq<u8>, start: u64|
                final(data_bytes)@.is_prefix_of(d) ==> #[trigger] entry_reads_back(
                    tag@,
                    header_view(&h),
                    field_view(dicom_field),
                    start,
                    d,
                ),
            Err(_) => true,
        },
        field_round_trips(tag@, field_view(dicom_field)) ==> r is Ok,
        match r {
            Ok(h) => entry_same_tags(header_view(&h), field_view(dicom_field)),
            Err(_) => true,
        },
        r is Err && !holds_single_item(field_view(dicom_field)) ==> final(data_bytes)@ == old(
            data_bytes,
        )@,
    decreases dicom_field,
{
    let ghost f = field_view(dicom_field);
    let ghost data0 = data_bytes@;
    proof {
        assert(data0 =~= data0.subrange(0, data0.len() as int));
    }
    let vr = dicom_field.vr;
    match (&dicom_field.value, &dicom_field.inline_binary) {
        (Some(values), None) => {
            let ghost vs = values_view(values);
            if values.len() == 0 {
                if vr_is(&vr, 0x53, 0x51) {
                    let r = HeaderField::SQ(Vec::new());
                    assert(header_view(&r) == HeaderModel::SQ(Seq::empty())) by {
                        if let HeaderModel::SQ(its) = header_view(&r) {
                            assert(its =~= Seq::empty());
                        }
                    }
                    proof {
                        assert(vs =~= Seq::<ValueModel>::empty());
                        assert(vr =~= sq_vr());
                        assert(Seq::<HeaderMapModel>::empty().len() == 0);
                    }
                    Ok(r)
                } else {
                    Err(InnerError::EmptyValue)
                }
            } else if let (1, DicomValue::SeqField(seq)) = (values.len(), &values[0]) {
                assert(vs[0] == value_view(&values@[0]));
                match prepare_dimble_fields(seq, data_bytes, pixel_array) {
                    Ok(sub) => {
                        let mut items: Vec<HeaderFieldMap> = Vec::new();
                        items.push(sub);
                        let r = HeaderField::SQ(items);
                        assert(header_view(&r) == HeaderModel::SQ(seq![header_map_view(&sub)])) by {
                            if let HeaderModel::SQ(its) = header_view(&r) {
                                assert(its =~= seq![header_map_view(&sub)]);
                            }
                        }
                        proof {
                            let hs = seq![header_map_view(&sub)];
                            assert(directory_same_tags(header_map_view(&sub), doc_view(seq)));
                            assert(f.value->Some_0[0]->Item_0 == doc_view(seq));
                            assert(hs.drop_last() =~= Seq::<HeaderMapModel>::empty());
                            assert forall|d: Seq<u8>, start: u64|
                                data_bytes@.is_prefix_of(d) implies #[trigger] entry_reads_back(
                                    tag@,
                                    header_view(&r),
                                    f,
                                    start,
                                    d,
                                ) by {
                                assert(directory_reads_back(header_map_view(&sub), doc_view(seq), start, d));
                                assert(hs[0] == header_map_view(&sub));
                                if field_round_trips(tag@, f) {
                                    assert(vr =~= sq_vr());
                                    assert(seq![ValueModel::Item(doc_view(seq))] =~= vs);
                                }
                            }
                        }
                        Ok(r)
                    },
                    Err(e) => Err(e),
                }
            } else {
                match dicom_values_to_vec(values) {
                    Ok(Some(field_bytes)) => {
                        let ghost b = field_bytes@;
                        let r = extend_and_make_field(data_bytes, field_bytes, vr);
                        proof {
                            assert forall|d: Seq<u8>, start: u64|
                                data_bytes@.is_prefix_of(d) implies #[trigger] entry_reads_back(
                                    tag@,
                                    header_view(&r),
                                    f,
                                    start,
                                    d,
                                ) by {
                                lemma_appended_slice(data0, b, d);
                                if field_round_trips(tag@, f) {
                                    if is_pn(vr) {
                                        assert(seq![ValueModel::Alpha(vs[0]->Alpha_0)] =~= vs);
                                    } else {
                                        assert(plain_scalar(vs[0]));
                                        assert(crate::dimble_to_ir::payload_values(stored_payload(vs)) =~= vs);
                                    }
                                }
                            }
                            lemma_appended_slice(data0, b, data_bytes@);
                        }
                        Ok(r)
                    },
                    Ok(None) => Ok(HeaderField::Empty(vr)),
                    Err(e) => Err(e),
                }
            }
        },
        (None, None) => Ok(HeaderField::Empty(vr)),
        (None, Some(inline_binary)) => {
            if is_pixel_data_tag(tag.as_str()) {
                match pixel_array {
                    Some(p) => {
                        let field_bytes = vstd::slice::slice_to_vec(p);
                        let ghost b = field_bytes@;
                        let r = extend_and_make_field(data_bytes, field_bytes, vr);
                        proof {
                            assert forall|d: Seq<u8>, start: u64|
                                data_bytes@.is_prefix_of(d) implies #[trigger] entry_reads_back(
                                    tag@,
                                    header_view(&r),
                                    f,
                                    start,
                                    d,
                                ) by {
                                lemma_appended_slice(data0, b, d);
                            }
                            lemma_appended_slice(data0, b, data_bytes@);
                        }
                        Ok(r)
                    },
                    None => Err(InnerError::MissingPixelArray),
                }
            } else {
                if !str_fits(inline_binary) {
                    return Err(InnerError::StringTooLong);
                }
                let field_bytes = pack_str_scalar(inline_binary.as_str());
                let ghost b = field_bytes@;
                proof {
                    assert(b + Seq::<u8>::empty() =~= b);
                    assert(scalar_of(b + Seq::<u8>::empty()) == Some((ScalarModel::Str(inline_binary@), Seq::<u8>::empty())));
                    assert(unpacked_str(b + Seq::<u8>::empty()) == Some((inline_binary@, Seq::<u8>::empty())));
                }
                let r = extend_and_make_field(data_bytes, field_bytes, vr);
                proof {
                    assert forall|d: Seq<u8>, start: u64|
                        data_bytes@.is_prefix_of(d) implies #[trigger] entry_reads_back(
                            tag@,
                            header_view(&r),
                            f,
                            start,
                            d,
                        ) by {
                        lemma_appended_slice(data0, b, d);
                    }
                    lemma_appended_slice(data0, b, data_bytes@);
                }
                Ok(r)
            }
        },
        (Some(_), Some(_)) => Err(InnerError::ValueAndInlineBinaryBothPresent),
    }
}

/// Encodes a document: its directory, and the data region that holds the payloads. The bytes
/// of `pixel_array` are the payload of Pixel Data.
///
/// Besides the exact result, the contract states what makes the file usable: every entry of
/// the directory lies inside the data region and holds a MessagePack payload there, and a
/// document whose fields all round-trip is encoded, decodes back to itself, and loads as its
/// native projection.
pub fn prepare_dicom_fields_for_serialisation(
    dicom_json_data: &DicomJsonData,
    pixel_array: Option<&[u8]>,
) -> (r: Result<(HeaderFieldMap, Vec<u8>), InnerError>)
    ensures
        match (r, encode_doc(doc_view(dicom_json_data), pixels_view(pixel_array), Seq::empty())) {
            (Ok((h, d)), Ok((hm, dm))) => header_map_view(&h) == hm && d@ == dm,
            (Err(e), Err(e2)) => e == e2,
            _ => false,
        },
        match r {
            Ok((h, d)) => forall|start: u64| #[trigger]
                directory_reads_back(header_map_view(&h), doc_view(dicom_json_data), start, d@),
            Err(_) => true,
        },
        match r {
            Ok((h, _)) => {
                &&& directory_same_tags(header_map_view(&h), doc_view(dicom_json_data))
                &&& doc_keys_distinct(doc_view(dicom_json_data)) ==> directory_tags_distinct(
                    header_map_view(&h),
                )
            },
            Err(_) => true,
        },
        doc_round_trips(doc_view(dicom_json_data)) ==> r is Ok,
{
    let mut data_bytes: Vec<u8> = Vec::new();
    match prepare_dimble_fields(dicom_json_data, &mut data_bytes, pixel_array) {
        Ok(header_fields) => {
            proof {
                assert(data_bytes@ =~= data_bytes@.subrange(0, data_bytes@.len() as int));
                assert forall|start: u64| #[trigger]
                    directory_reads_back(
                        header_map_view(&header_fields),
                        doc_view(dicom_json_data),
                        start,
                        data_bytes@,
                    ) by {
                    assert(data_bytes@.is_prefix_of(data_bytes@));
                }
                if doc_keys_distinct(doc_view(dicom_json_data)) {
                    lemma_distinct_tags_carry_over(
                        header_map_view(&header_fields),
                        doc_view(dicom_json_data),
                    );
                }
            }
            Ok((header_fields, data_bytes))
        },
        Err(e) => Err(e),
    }
}

} // verus!
