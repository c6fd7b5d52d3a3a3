//! The tensor container that carries Pixel Data: a little-endian u64 header length, a JSON
//! header, then the raw tensor bytes.
use vstd::bytes::{spec_u64_from_le_bytes, u64_from_le_bytes};
use vstd::prelude::*;

verus! {

/// The element type of a tensor.
#[derive(Clone, Copy, PartialEq, Eq, Structural)]
pub enum Dtype {
    BOOL,
    U8,
    I8,
    I16,
    U16,
    F16,
    BF16,
    I32,
    U32,
    F32,
    F64,
    I64,
    U64,
    C64,
    C128,
}

/// The header entry of one tensor.
pub struct TensorInfo {
    pub dtype: Dtype,
    pub shape: Vec<usize>,
    /// Start and end of the tensor's bytes, counted from the end of the header.
    pub data_offsets: (usize, usize),
}

/// Why the tensor container could not be read.
pub enum TensorError {
    TensorHeaderInvalid,
}

/// The name of the tensor runtime's element type for `dtype`; the runtime has none for
/// boolean and unsigned types wider than a byte.
pub open spec fn dtype_name_spec(dtype: Dtype) -> Option<Seq<char>> {
    match dtype {
        Dtype::U8 => Some("uint8"@),
        Dtype::I8 => Some("int8"@),
        Dtype::I16 => Some("int16"@),
        Dtype::I32 => Some("int32"@),
        Dtype::I64 => Some("int64"@),
        Dtype::F16 => Some("float16"@),
        Dtype::F32 => Some("float32"@),
        Dtype::F64 => Some("float64"@),
        Dtype::BF16 => Some("bfloat16"@),
        Dtype::C64 => Some("complex64"@),
        Dtype::C128 => Some("complex128"@),
        _ => None,
    }
}

/// Whether the tensor runtime has an element type for `dtype`.
pub fn dtype_is_supported(dtype: Dtype) -> (r: bool)
    ensures
        r == dtype_name_spec(dtype) is Some,
{
    match dtype {
        Dtype::BOOL | Dtype::U16 | Dtype::U32 | Dtype::U64 => false,
        _ => true,
    }
}

/// The name of the tensor runtime's element type for `dtype`.
pub fn get_dtype_name(dtype: Dtype) -> (r: &'static str)
    requires
        dtype_name_spec(dtype) is Some,
    ensures
        Some(r@) == dtype_name_spec(dtype),
{
    match dtype {
        Dtype::U8 => "uint8",
        Dtype::I8 => "int8",
        Dtype::I16 => "int16",
        Dtype::I32 => "int32",
        Dtype::I64 => "int64",
        Dtype::F16 => "float16",
        Dtype::F32 => "float32",
        Dtype::F64 => "float64",
        Dtype::BF16 => "bfloat16",
        Dtype::C64 => "complex64",
        _ => "complex128",
    }
}

/// Splits a tensor container into its header length and its JSON header.
pub fn split_tensor_header(buffer: &[u8]) -> (r: Result<(u64, &[u8]), TensorError>)
    ensures
        match r {
            Ok((n, h)) => {
                &&& buffer@.len() >= 8
                &&& n == spec_u64_from_le_bytes(buffer@.subrange(0, 8))
                &&& 8 + n <= buffer@.len()
                &&& h@ == buffer@.subrange(8, 8 + n)
            },
            Err(_) => buffer@.len() < 8 || 8 + spec_u64_from_le_bytes(buffer@.subrange(0, 8))
                > buffer@.len(),
        },
{
    if buffer.len() < 8 {
        return Err(TensorError::TensorHeaderInvalid);
    }
    let n = u64_from_le_bytes(&buffer[0..8]);
    if n > (buffer.len() - 8) as u64 {
        return Err(TensorError::TensorHeaderInvalid);
    }
    let end = 8 + n as usize;
    Ok((n, &buffer[8..end]))
}

/// The file range of the tensor's bytes, for a container that starts at `st_offset` of the
/// file and whose header is `header_len` bytes long.
pub fn pixel_byte_range(st_offset: usize, header_len: usize, info: &TensorInfo) -> (r: Result<
    (usize, usize),
    TensorError,
>)
    ensures
        match r {
            Ok((start, stop)) => {
                &&& start == st_offset + info.data_offsets.0 + 8 + header_len
                &&& stop == st_offset + info.data_offsets.1 + 8 + header_len
            },
            Err(_) => st_offset + info.data_offsets.0 + 8 + header_len > usize::MAX || st_offset
                + info.data_offsets.1 + 8 + header_len > usize::MAX,
        },
{
    let base = match st_offset.checked_add(header_len) {
        Some(b) => b,
        None => { return Err(TensorError::TensorHeaderInvalid); },
    };
    let base = match base.checked_add(8) {
        Some(b) => b,
        None => { return Err(TensorError::TensorHeaderInvalid); },
    };
    let start = match base.checked_add(info.data_offsets.0) {
        Some(s) => s,
        None => { return Err(TensorError::TensorHeaderInvalid); },
    };
    let stop = match base.checked_add(info.data_offsets.1) {
        Some(s) => s,
        None => { return Err(TensorError::TensorHeaderInvalid); },
    };
    Ok((start, stop))
}

} // verus!
