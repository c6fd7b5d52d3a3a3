//! The partial loader: only the directory and the byte ranges of the requested tags are read,
//! and each field becomes a plain native value.
use vstd::prelude::*;

use crate::dicom_json::{is_pixel_data_tag, pixel_data_tag};
use crate::ir_to_dimble::{header_map_view, header_view, HeaderField, HeaderFieldMap,
    HeaderMapModel, HeaderModel};
use crate::msgpack::{payload_of, read_payload, scalars_view, Payload, PayloadModel, Scalar,
    ScalarModel};

verus! {

/// A loaded field.
pub enum NativeValue {
    /// A field without a payload.
    Null,
    Str(String),
    Int(i64),
    /// An unsigned integer beyond the range of `i64`.
    UInt(u64),
    /// An IEEE-754 double, held as its bit pattern.
    Float(u64),
    List(Vec<NativeValue>),
    /// The first item of a sequence.
    Dict(NativeMap),
    /// Pixel Data: where its tensor container lies in the file, for the tensor reader.
    PixelArray { offset: u64, length: u64 },
}

/// Tag and loaded field, in the order they were loaded.
pub type NativeMap = Vec<(String, NativeValue)>;

pub enum NativeModel {
    Null,
    Str(Seq<char>),
    Int(i64),
    UInt(u64),
    Float(u64),
    List(Seq<NativeModel>),
    Dict(Seq<(Seq<char>, NativeModel)>),
    PixelArray { offset: u64, length: u64 },
}

pub type NativeMapModel = Seq<(Seq<char>, NativeModel)>;

pub open spec fn native_view(v: &NativeValue) -> NativeModel
    decreases v,
{
    match v {
        NativeValue::Null => NativeModel::Null,
        NativeValue::Str(s) => NativeModel::Str(s@),
        NativeValue::Int(i) => NativeModel::Int(*i),
        NativeValue::UInt(u) => NativeModel::UInt(*u),
        NativeValue::Float(f) => NativeModel::Float(*f),
        NativeValue::List(vs) => NativeModel::List(
            Seq::new(
                vs.len() as nat,
                |i: int|
                    if 0 <= i < vs.len() {
                        native_view(&vs@[i])
                    } else {
                        NativeModel::Null
                    },
            ),
        ),
        NativeValue::Dict(m) => NativeModel::Dict(native_map_view(m)),
        NativeValue::PixelArray { offset, length } => NativeModel::PixelArray {
            offset: *offset,
            length: *length,
        },
    }
}

pub open spec fn native_map_view(m: &NativeMap) -> NativeMapModel
    decreases m,
{
    Seq::new(
        m.len() as nat,
        |i: int|
            if 0 <= i < m.len() {
                (m@[i].0@, native_view(&m@[i].1))
            } else {
                (Seq::empty(), NativeModel::Null)
            },
    )
}

/// Why loading failed.
pub enum LoadError {
    /// A requested tag is not in the directory.
    TagMissing { tag: String },
    /// An entry points outside the data region.
    HeaderInvalid,
    /// A payload is not MessagePack of the kinds a field holds.
    PayloadInvalid,
}

pub enum LoadFailure {
    TagMissing(Seq<char>),
    HeaderInvalid,
    PayloadInvalid,
}

pub open spec fn failure_view(e: &LoadError) -> LoadFailure {
    match e {
        LoadError::TagMissing { tag } => LoadFailure::TagMissing(tag@),
        LoadError::HeaderInvalid => LoadFailure::HeaderInvalid,
        LoadError::PayloadInvalid => LoadFailure::PayloadInvalid,
    }
}

// ---------------------------------------------------------------------------------------------
// What the loader computes

pub open spec fn scalar_native(s: ScalarModel) -> NativeModel {
    match s {
        ScalarModel::Str(s) => NativeModel::Str(s),
        ScalarModel::Int(i) => NativeModel::Int(i),
        ScalarModel::UInt(u) => NativeModel::UInt(u),
        ScalarModel::Float(f) => NativeModel::Float(f),
    }
}

/// A bare scalar loads as itself, an array as a list.
pub open spec fn payload_native(p: PayloadModel) -> NativeModel {
    match p {
        PayloadModel::One(s) => scalar_native(s),
        PayloadModel::Many(vs) => NativeModel::List(
            Seq::new(vs.len(), |i: int| scalar_native(vs[i])),
        ),
    }
}

/// The native value of one directory entry; `start` is the file offset of the data region.
pub open spec fn load_entry(tag: Seq<char>, h: HeaderModel, start: u64, data: Seq<u8>) -> Result<
    NativeModel,
    LoadFailure,
>
    decreases h,
{
    match h {
        HeaderModel::Empty(_) => Ok(NativeModel::Null),
        HeaderModel::Deffered(off, len, _) => if off + len > data.len() {
            Err(LoadFailure::HeaderInvalid)
        } else if tag == pixel_data_tag() {
            if start + off > u64::MAX {
                Err(LoadFailure::HeaderInvalid)
            } else {
                Ok(NativeModel::PixelArray { offset: (start + off) as u64, length: len })
            }
        } else {
            match payload_of(data.subrange(off as int, off + len)) {
                Some(p) => Ok(payload_native(p)),
                None => Err(LoadFailure::PayloadInvalid),
            }
        },
        HeaderModel::SQ(items) => if items.len() == 0 {
            Ok(NativeModel::Null)
        } else {
            match load_all(items[0], start, data) {
                Ok(m) => Ok(NativeModel::Dict(m)),
                Err(e) => Err(e),
            }
        },
    }
}

/// Every entry of a directory, in order.
pub open spec fn load_all(m: HeaderMapModel, start: u64, data: Seq<u8>) -> Result<
    NativeMapModel,
    LoadFailure,
>
    decreases m,
{
    if m.len() == 0 {
        Ok(Seq::empty())
    } else {
        match load_all(m.drop_last(), start, data) {
            Ok(r) => match load_entry(m.last().0, m.last().1, start, data) {
                Ok(v) => Ok(r.push((m.last().0, v))),
                Err(e) => Err(e),
            },
            Err(e) => Err(e),
        }
    }
}

/// The first entry of a directory under `tag`.
pub open spec fn find_entry(m: HeaderMapModel, tag: Seq<char>) -> Option<HeaderModel>
    decreases m.len(),
{
    if m.len() == 0 {
        None
    } else if m[0].0 == tag {
        Some(m[0].1)
    } else {
        find_entry(m.subrange(1, m.len() as int), tag)
    }
}

/// The requested tags of a directory, in the order requested.
pub open spec fn load_tags(m: HeaderMapModel, tags: Seq<Seq<char>>, start: u64, data: Seq<u8>) -> Result<
    NativeMapModel,
    LoadFailure,
>
    decreases tags.len(),
{
    if tags.len() == 0 {
        Ok(Seq::empty())
    } else {
        match load_tags(m, tags.drop_last(), start, data) {
            Ok(r) => match find_entry(m, tags.last()) {
                Some(h) => match load_entry(tags.last(), h, start, data) {
                    Ok(v) => Ok(r.push((tags.last(), v))),
                    Err(e) => Err(e),
                },
                None => Err(LoadFailure::TagMissing(tags.last())),
            },
            Err(e) => Err(e),
        }
    }
}

pub open spec fn tags_view(tags: &Vec<String>) -> Seq<Seq<char>> {
    Seq::new(tags.len() as nat, |i: int| tags@[i]@)
}

pub open spec fn map_load_is(r: Result<NativeMap, LoadError>, s: Result<NativeMapModel, LoadFailure>) -> bool {
    match (r, s) {
        (Ok(m), Ok(mm)) => native_map_view(&m) == mm,
        (Err(e), Err(f)) => failure_view(&e) == f,
        _ => false,
    }
}


// ---------------------------------------------------------------------------------------------
// The loader

fn scalar_to_native(s: &Scalar) -> (r: NativeValue)
    ensures
        native_view(&r) == scalar_native(s@),
{
    match s {
        Scalar::Str(s) => NativeValue::Str(s.clone()),
        Scalar::Int(i) => NativeValue::Int(*i),
        Scalar::UInt(u) => NativeValue::UInt(*u),
        Scalar::Float(f) => NativeValue::Float(*f),
    }
}

/// The native value of a payload.
fn value_to_native(p: &Payload) -> (r: NativeValue)
    ensures
        native_view(&r) == payload_native(p@),
{
    match p {
        Payload::One(s) => scalar_to_native(s),
        Payload::Many(items) => {
            let ghost vs = scalars_view(items@);
            let mut out: Vec<NativeValue> = Vec::new();
            let mut i: usize = 0;
            while i < items.len()
                invariant
                    vs == scalars_view(items@),
                    i <= items.len(),
                    out.len() == i,
                    forall|j: int| 0 <= j < i ==> native_view(#[trigger] &out@[j]) == scalar_native(vs[j]),
                decreases items.len() - i,
            {
                out.push(scalar_to_native(&items[i]));
                i = i + 1;
            }
            let r = NativeValue::List(out);
            assert(native_view(&r) matches NativeModel::List(l) && l =~= Seq::new(
                vs.len(),
                |i: int| scalar_native(vs[i]),
            ));
            r
        },
    }
}

/// Reads the payload at `[field_pos, field_pos + field_length)` of the data region.
fn get_field(buffer: &[u8], field_pos: u64, field_length: u64) -> (r: Result<NativeValue, LoadError>)
    requires
        field_pos <= buffer.len() as u64,
        field_length <= buffer.len() as u64 - field_pos,
    ensures
        match (r, payload_of(buffer@.subrange(field_pos as int, field_pos + field_length))) {
            (Ok(v), Some(p)) => native_view(&v) == payload_native(p),
            (Err(e), None) => e == LoadError::PayloadInvalid,
            _ => false,
        },
{
    let field_bytes = &buffer[field_pos as usize..(field_pos + field_length) as usize];
    match read_payload(field_bytes) {
        Some(p) => Ok(value_to_native(&p)),
        None => Err(LoadError::PayloadInvalid),
    }
}

/// Loads one directory entry; `data_start` is the file offset of the data region.
pub fn load_header_field(
    tag: &String,
    header_field: &HeaderField,
    data_start: u64,
    buffer: &[u8],
) -> (r: Result<NativeValue, LoadError>)
    ensures
        match (r, load_entry(tag@, header_view(header_field), data_start, buffer@)) {
            (Ok(v), Ok(vm)) => native_view(&v) == vm,
            (Err(e), Err(f)) => failure_view(&e) == f,
            _ => false,
        },
    decreases header_field,
{
    match header_field {
        HeaderField::Empty(_) => Ok(NativeValue::Null),
        HeaderField::Deffered(field_pos, field_length, _) => {
            let (pos, len) = (*field_pos, *field_length);
            if pos > buffer.len() as u64 || len > buffer.len() as u64 - pos {
                return Err(LoadError::HeaderInvalid);
            }
            if is_pixel_data_tag(tag.as_str()) {
                if pos > u64::MAX - data_start {
                    return Err(LoadError::HeaderInvalid);
                }
                Ok(NativeValue::PixelArray { offset: data_start + pos, length: len })
            } else {
                get_field(buffer, pos, len)
            }
        },
        HeaderField::SQ(sq) => {
            if sq.len() == 0 {
                Ok(NativeValue::Null)
            } else {
                assert(header_view(header_field) matches HeaderModel::SQ(its) && its[0]
                    == header_map_view(&sq@[0]));
                match load_all_fields(&sq[0], data_start, buffer) {
                    Ok(m) => Ok(NativeValue::Dict(m)),
                    Err(e) => Err(e),
                }
            }
        },
    }
}

proof fn lemma_load_all_error_persists(m: HeaderMapModel, start: u64, data: Seq<u8>, i: nat)
    requires
        i <= m.len(),
        load_all(m.take(i as int), start, data) is Err,
    ensures
        load_all(m, start, data) == load_all(m.take(i as int), start, data),
    decreases m.len() - i,
{
    if i < m.len() {
        assert(m.take(i + 1 as int).drop_last() =~= m.take(i as int));
        lemma_load_all_error_persists(m, start, data, i + 1);
    } else {
        assert(m.take(i as int) =~= m);
    }
}

/// Loads every entry of a directory, in order.
pub fn load_all_fields(header: &HeaderFieldMap, data_start: u64, buffer: &[u8]) -> (r: Result<
    NativeMap,
    LoadError,
>)
    ensures
        map_load_is(r, load_all(header_map_view(header), data_start, buffer@)),
    decreases header,
{
    let ghost m = header_map_view(header);
    let mut out: NativeMap = Vec::new();
    let mut i: usize = 0;
    assert(native_map_view(&out) =~= Seq::empty());
    while i < header.len()
        invariant
            m == header_map_view(header),
            i <= header.len(),
            load_all(m.take(i as int), data_start, buffer@) == Ok::<_, LoadFailure>(
                native_map_view(&out),
            ),
        decreases header.len() - i,
    {
        let (tag, header_field) = &header[i];
        proof {
            assert(m.take(i + 1 as int).drop_last() =~= m.take(i as int));
            assert(m.take(i + 1 as int).last() == (tag@, header_view(header_field)));
        }
        match load_header_field(tag, header_field, data_start, buffer) {
            Ok(v) => {
                let ghost before = out;
                out.push((tag.clone(), v));
                assert(native_map_view(&out) =~= native_map_view(&before).push((tag@, native_view(&v))));
            },
            Err(e) => {
                proof {
                    lemma_load_all_error_persists(m, data_start, buffer@, i as nat + 1);
                }
                return Err(e);
            },
        }
        i = i + 1;
    }
    assert(m.take(i as int) =~= m);
    Ok(out)
}

/// The first entry of a directory under `tag`.
pub fn find_header_field<'a>(header: &'a HeaderFieldMap, tag: &String) -> (r: Option<&'a HeaderField>)
    ensures
        match (r, find_entry(header_map_view(header), tag@)) {
            (Some(h), Some(hm)) => header_view(h) == hm,
            (None, None) => true,
            _ => false,
        },
{
    let ghost m = header_map_view(header);
    let mut i: usize = 0;
    assert(m.subrange(0, m.len() as int) =~= m);
    while i < header.len()
        invariant
            m == header_map_view(header),
            i <= header.len(),
            find_entry(m, tag@) == find_entry(m.subrange(i as int, m.len() as int), tag@),
        decreases header.len() - i,
    {
        let ghost rest = m.subrange(i as int, m.len() as int);
        assert(rest[0] == (header@[i as int].0@, header_view(&header@[i as int].1)));
        if header[i].0 == *tag {
            return Some(&header[i].1);
        }
        assert(rest.subrange(1, rest.len() as int) =~= m.subrange(i + 1, m.len() as int));
        i = i + 1;
    }
    None
}

proof fn lemma_load_tags_error_persists(
    m: HeaderMapModel,
    tags: Seq<Seq<char>>,
    start: u64,
    data: Seq<u8>,
    i: nat,
)
    requires
        i <= tags.len(),
        load_tags(m, tags.take(i as int), start, data) is Err,
    ensures
        load_tags(m, tags, start, data) == load_tags(m, tags.take(i as int), start, data),
    decreases tags.len() - i,
{
    if i < tags.len() {
        assert(tags.take(i + 1 as int).drop_last() =~= tags.take(i as int));
        lemma_load_tags_error_persists(m, tags, start, data, i + 1);
    } else {
        assert(tags.take(i as int) =~= tags);
    }
}

/// Loads the requested fields of a directory, in the order requested, or every field where
/// none are named. `data_start` is the file offset of the data region `buffer`.
pub fn header_fields_and_buffer_to_dict(
    header: &HeaderFieldMap,
    data_start: u64,
    buffer: &[u8],
    fields: Option<&Vec<String>>,
) -> (r: Result<NativeMap, LoadError>)
    ensures
        map_load_is(
            r,
            match fields {
                Some(tags) => load_tags(header_map_view(header), tags_view(tags), data_start, buffer@),
                None => load_all(header_map_view(header), data_start, buffer@),
            },
        ),
{
    let tags = match fields {
        Some(tags) => tags,
        None => {
            return load_all_fields(header, data_start, buffer);
        },
    };
    let ghost m = header_map_view(header);
    let ghost ts = tags_view(tags);
    let mut out: NativeMap = Vec::new();
    let mut i: usize = 0;
    assert(native_map_view(&out) =~= Seq::empty());
    assert(ts.take(0) =~= Seq::<Seq<char>>::empty());
    while i < tags.len()
        invariant
            m == header_map_view(header),
            ts == tags_view(tags),
            fields == Some(tags),
            i <= tags.len(),
            load_tags(m, ts.take(i as int), data_start, buffer@) == Ok::<_, LoadFailure>(
                native_map_view(&out),
            ),
        decreases tags.len() - i,
    {
        let tag = &tags[i];
        proof {
            assert(ts.take(i + 1 as int).drop_last() =~= ts.take(i as int));
            assert(ts.take(i + 1 as int).last() == tag@);
        }
        let loaded = match find_header_field(header, tag) {
            Some(h) => load_header_field(tag, h, data_start, buffer),
            None => Err(LoadError::TagMissing { tag: tag.clone() }),
        };
        match loaded {
            Ok(v) => {
                let ghost before = out;
                out.push((tag.clone(), v));
                assert(native_map_view(&out) =~= native_map_view(&before).push((tag@, native_view(&v))));
            },
            Err(e) => {
                proof {
                    assert(load_tags(m, ts.take(i + 1 as int), data_start, buffer@) == Err::<
                        NativeMapModel,
                        LoadFailure,
                    >(failure_view(&e)));
                    lemma_load_tags_error_persists(m, ts, data_start, buffer@, i as nat + 1);
                }
                return Err(e);
            },
        }
        i = i + 1;
    }
    assert(ts.take(i as int) =~= ts);
    Ok(out)
}

} // verus!
