use vstd::prelude::*;
use vstd::string::StrSliceExecFns;

verus! {

/// Value Representation: the two-letter DICOM type code.
pub type VR = [u8; 2];

/// A person-name component; only the alphabetic form is carried.
pub struct Alphabetic {
    pub alphabetic: String,
}

/// One entry of a field's value list.
pub enum DicomValue {
    String(String),
    Integer(i64),
    /// An IEEE-754 double, held as its bit pattern.
    Float(u64),
    Alphabetic(Alphabetic),
    SeqField(DicomJsonData),
}

/// A DICOM-JSON field.
pub struct DicomField {
    pub value: Option<Vec<DicomValue>>,
    pub vr: VR,
    pub inline_binary: Option<String>,
}

/// A DICOM-JSON document: tag and field, in document order.
pub type DicomJsonData = Vec<(String, DicomField)>;

/// The mathematical model of a `DicomValue`.
pub enum ValueModel {
    Str(Seq<char>),
    Int(i64),
    Float(u64),
    Alpha(Seq<char>),
    Item(Seq<(Seq<char>, FieldModel)>),
}

/// The mathematical model of a `DicomField`.
pub struct FieldModel {
    pub value: Option<Seq<ValueModel>>,
    pub vr: VR,
    pub inline_binary: Option<Seq<char>>,
}

pub type DocModel = Seq<(Seq<char>, FieldModel)>;

pub open spec fn value_view(v: &DicomValue) -> ValueModel
    decreases v,
{
    match v {
        DicomValue::String(s) => ValueModel::Str(s@),
        DicomValue::Integer(i) => ValueModel::Int(*i),
        DicomValue::Float(f) => ValueModel::Float(*f),
        DicomValue::Alphabetic(a) => ValueModel::Alpha(a.alphabetic@),
        DicomValue::SeqField(d) => ValueModel::Item(doc_view(d)),
    }
}

pub open spec fn field_view(f: &DicomField) -> FieldModel
    decreases f,
{
    FieldModel {
        value: match &f.value {
            Some(vs) => Some(values_view(vs)),
            None => None,
        },
        vr: f.vr,
        inline_binary: match &f.inline_binary {
            Some(s) => Some(s@),
            None => None,
        },
    }
}

pub open spec fn values_view(vs: &Vec<DicomValue>) -> Seq<ValueModel>
    decreases vs,
{
    Seq::new(
        vs.len() as nat,
        |i: int|
            if 0 <= i < vs.len() {
                value_view(&vs@[i])
            } else {
                ValueModel::Int(0)
            },
    )
}

pub open spec fn doc_view(d: &DicomJsonData) -> DocModel
    decreases d,
{
    Seq::new(d.len() as nat, |i: int| if 0 <= i < d.len() {
        (d@[i].0@, field_view(&d@[i].1))
    } else {
        (Seq::empty(), FieldModel { value: None, vr: [0u8, 0u8], inline_binary: None })
    })
}


impl DicomValue {
    /// Whether the value list this value stands for is empty. A `DicomValue` is one entry of
    /// a field's value list, never a whole list, so it is never empty; the list itself is
    /// `DicomField::value`.
    pub fn is_empty(&self) -> (r: bool)
        ensures
            r == false,
    {
        false
    }

    /// The string, where the value is one.
    pub fn to_string_ref(&self) -> (r: Option<&String>)
        ensures
            match self {
                DicomValue::String(s) => r == Some(s),
                _ => r is None,
            },
    {
        if let DicomValue::String(s) = self {
            Some(s)
        } else {
            None
        }
    }

    /// The person name, where the value is one.
    pub fn to_alphabetic_ref(&self) -> (r: Option<&Alphabetic>)
        ensures
            match self {
                DicomValue::Alphabetic(a) => r == Some(a),
                _ => r is None,
            },
    {
        if let DicomValue::Alphabetic(a) = self {
            Some(a)
        } else {
            None
        }
    }
}

pub open spec fn is_vr(vr: VR, a: u8, b: u8) -> bool {
    vr[0] == a && vr[1] == b
}

/// The VR of sequences.
pub open spec fn sq_vr() -> VR {
    [0x53u8, 0x51u8]
}

pub open spec fn is_sq(vr: VR) -> bool {
    is_vr(vr, 0x53, 0x51)
}

/// Person name.
pub open spec fn is_pn(vr: VR) -> bool {
    is_vr(vr, 0x50, 0x4e)
}

/// OB and OW, the VRs whose payload travels as inline binary.
pub open spec fn is_binary_vr(vr: VR) -> bool {
    is_vr(vr, 0x4f, 0x42) || is_vr(vr, 0x4f, 0x57)
}

pub fn vr_is(vr: &VR, a: u8, b: u8) -> (r: bool)
    ensures
        r == is_vr(*vr, a, b),
{
    vr[0] == a && vr[1] == b
}

/// The tag of Pixel Data, 7FE00010.
pub open spec fn pixel_data_tag() -> Seq<char> {
    seq!['7', 'F', 'E', '0', '0', '0', '1', '0']
}

pub fn is_pixel_data_tag(tag: &str) -> (r: bool)
    ensures
        r == (tag@ == pixel_data_tag()),
{
    if tag.unicode_len() != 8 {
        return false;
    }
    let r = tag.get_char(0) == '7' && tag.get_char(1) == 'F' && tag.get_char(2) == 'E'
        && tag.get_char(3) == '0' && tag.get_char(4) == '0' && tag.get_char(5) == '0'
        && tag.get_char(6) == '1' && tag.get_char(7) == '0';
    proof {
        if r {
            assert(tag@ =~= pixel_data_tag());
        }
    }
    r
}

} // verus!
