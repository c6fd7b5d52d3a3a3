use dimble::dicom_json::{Alphabetic, DicomField, DicomJsonData, DicomValue};
use dimble::dimble_to_ir::{frame_dimble, split_dimble};
use dimble::ir_to_dimble::{prepare_dicom_fields_for_serialisation, HeaderField, HeaderFieldMap};
use dimble::load::{header_fields_and_buffer_to_dict, load_all_fields, LoadError, NativeMap, NativeValue};
use dimble::tensor::{dtype_is_supported, get_dtype_name, pixel_byte_range, split_tensor_header, Dtype, TensorInfo};

fn field(vr: &[u8; 2], value: Option<Vec<DicomValue>>, inline_binary: Option<&str>) -> DicomField {
    DicomField { value, vr: *vr, inline_binary: inline_binary.map(|s| s.to_string()) }
}

fn s(v: &str) -> DicomValue {
    DicomValue::String(v.to_string())
}

fn sample() -> DicomJsonData {
    let item: DicomJsonData = vec![("00081150".to_string(), field(b"UI", Some(vec![s("1.2")]), None))];
    vec![
        ("00080005".to_string(), field(b"CS", Some(vec![s("ISO_IR 100")]), None)),
        ("00080008".to_string(), field(b"CS", Some(vec![s("ORIGINAL"), s("PRIMARY")]), None)),
        ("00080090".to_string(), field(b"PN", None, None)),
        (
            "00100010".to_string(),
            field(b"PN", Some(vec![DicomValue::Alphabetic(Alphabetic { alphabetic: "Doe^John".to_string() })]), None),
        ),
        ("00280010".to_string(), field(b"US", Some(vec![DicomValue::Integer(512)]), None)),
        ("00280030".to_string(), field(b"DS", Some(vec![DicomValue::Float(0.5f64.to_bits())]), None)),
        ("00080009".to_string(), field(b"OB", None, Some("ABCD"))),
        ("00081140".to_string(), field(b"SQ", Some(vec![DicomValue::SeqField(item)]), None)),
    ]
}

fn encode(d: &DicomJsonData) -> (HeaderFieldMap, Vec<u8>) {
    prepare_dicom_fields_for_serialisation(d, None).unwrap_or_else(|_| panic!("encoding failed"))
}

fn get<'a>(m: &'a NativeMap, tag: &str) -> &'a NativeValue {
    &m.iter().find(|(t, _)| t == tag).expect("tag present").1
}

fn tags(t: &[&str]) -> Vec<String> {
    t.iter().map(|s| s.to_string()).collect()
}

#[test]
fn partial_load_of_all_keys_gives_native_values() {
    let d = sample();
    let (header, data) = encode(&d);
    let keys: Vec<String> = d.iter().map(|(t, _)| t.clone()).collect();
    let m = header_fields_and_buffer_to_dict(&header, 100, &data, Some(&keys))
        .unwrap_or_else(|_| panic!("load failed"));
    assert_eq!(m.len(), d.len());
    assert!(matches!(get(&m, "00080005"), NativeValue::Str(v) if v == "ISO_IR 100"));
    match get(&m, "00080008") {
        NativeValue::List(l) => {
            assert_eq!(l.len(), 2);
            assert!(matches!(&l[1], NativeValue::Str(v) if v == "PRIMARY"));
        }
        _ => panic!("expected a list"),
    }
    assert!(matches!(get(&m, "00080090"), NativeValue::Null));
    assert!(matches!(get(&m, "00100010"), NativeValue::Str(v) if v == "Doe^John"));
    assert!(matches!(get(&m, "00280010"), NativeValue::Int(512)));
    assert!(matches!(get(&m, "00280030"), NativeValue::Float(b) if f64::from_bits(*b) == 0.5));
    assert!(matches!(get(&m, "00080009"), NativeValue::Str(v) if v == "ABCD"));
    match get(&m, "00081140") {
        NativeValue::Dict(sub) => assert!(matches!(get(sub, "00081150"), NativeValue::Str(v) if v == "1.2")),
        _ => panic!("expected a nested map"),
    }
    let all = load_all_fields(&header, 100, &data).unwrap_or_else(|_| panic!("load failed"));
    assert_eq!(all.len(), m.len());
}

#[test]
fn partial_load_returns_exactly_the_requested_tags() {
    let (header, data) = encode(&sample());
    let m = header_fields_and_buffer_to_dict(&header, 0, &data, Some(&tags(&["00280010", "00080005"])))
        .unwrap_or_else(|_| panic!("load failed"));
    let keys: Vec<&str> = m.iter().map(|(t, _)| t.as_str()).collect();
    assert_eq!(keys, vec!["00280010", "00080005"]);
}

#[test]
fn partial_load_reads_only_requested_ranges() {
    let (header, mut data) = encode(&sample());
    // Spoil the payload of 00080008; the other fields still load.
    if let HeaderField::Deffered(off, _, _) = header[1].1 {
        data[off as usize] = 0xc1;
    }
    let ok = header_fields_and_buffer_to_dict(&header, 0, &data, Some(&tags(&["00080005", "00280010"])));
    assert!(ok.is_ok());
    let bad = header_fields_and_buffer_to_dict(&header, 0, &data, Some(&tags(&["00080008"])));
    assert!(matches!(bad, Err(LoadError::PayloadInvalid)));
}

#[test]
fn missing_tag_is_named() {
    let (header, data) = encode(&sample());
    match header_fields_and_buffer_to_dict(&header, 0, &data, Some(&tags(&["00080005", "DEADBEEF"]))) {
        Err(LoadError::TagMissing { tag }) => assert_eq!(tag, "DEADBEEF"),
        _ => panic!("expected a missing tag"),
    }
}

#[test]
fn pixel_data_is_handed_to_the_tensor_reader() {
    let d: DicomJsonData = vec![
        ("00080005".to_string(), field(b"CS", Some(vec![s("ISO_IR 100")]), None)),
        ("7FE00010".to_string(), field(b"OB", None, Some("x"))),
    ];
    let blob = vec![9u8; 16];
    let (header, data) = prepare_dicom_fields_for_serialisation(&d, Some(&blob[..]))
        .unwrap_or_else(|_| panic!("encoding failed"));
    let m = header_fields_and_buffer_to_dict(&header, 40, &data, None).unwrap_or_else(|_| panic!("load"));
    assert!(matches!(get(&m, "7FE00010"), NativeValue::PixelArray { offset: 51, length: 16 }));
    let out_of_range: HeaderFieldMap = vec![("00080005".to_string(), HeaderField::Deffered(0, 99, *b"CS"))];
    assert!(matches!(load_all_fields(&out_of_range, 0, &data), Err(LoadError::HeaderInvalid)));
}

#[test]
fn loading_from_a_framed_file() {
    let (header, data) = encode(&sample());
    let file = frame_dimble(b"directory", &data);
    let (n, _h, region) = split_dimble(&file).unwrap_or_else(|_| panic!("framing"));
    let m = header_fields_and_buffer_to_dict(&header, 8 + n, region, Some(&tags(&["00080005"])))
        .unwrap_or_else(|_| panic!("load failed"));
    assert!(matches!(get(&m, "00080005"), NativeValue::Str(v) if v == "ISO_IR 100"));
}

#[test]
fn tensor_container_layout() {
    let json = br#"{"pixel_array":{"dtype":"U8","shape":[2,2],"data_offsets":[0,4]}}"#;
    let mut buf = (json.len() as u64).to_le_bytes().to_vec();
    buf.extend_from_slice(json);
    buf.extend_from_slice(&[1, 2, 3, 4]);
    let (n, h) = split_tensor_header(&buf).unwrap_or_else(|_| panic!("tensor header"));
    assert_eq!(n as usize, json.len());
    assert_eq!(h, &json[..]);
    assert!(split_tensor_header(&buf[0..4]).is_err());
    let info = TensorInfo { dtype: Dtype::U8, shape: vec![2, 2], data_offsets: (0, 4) };
    let (start, stop) = pixel_byte_range(100, n as usize, &info).unwrap_or_else(|_| panic!("range"));
    assert_eq!((start, stop), (100 + 8 + json.len(), 104 + 8 + json.len()));
    assert!(pixel_byte_range(usize::MAX, 1, &info).is_err());
    assert_eq!(get_dtype_name(Dtype::U8), "uint8");
    assert_eq!(get_dtype_name(Dtype::BF16), "bfloat16");
    assert_eq!(get_dtype_name(Dtype::C128), "complex128");
    assert!(dtype_is_supported(Dtype::I16));
    assert!(!dtype_is_supported(Dtype::BOOL));
    assert!(!dtype_is_supported(Dtype::U16));
    assert!(!dtype_is_supported(Dtype::U32));
    assert!(!dtype_is_supported(Dtype::U64));
}
