use dimble::dicom_json::{Alphabetic, DicomField, DicomJsonData, DicomValue};
use dimble::dimble_to_ir::{
    frame_dimble, headerfield_and_bytes_to_dicom_fields, headers_to_data, split_dimble,
    DecodeError, PIXEL_DATA_PLACEHOLDER,
};
use dimble::ir_to_dimble::{
    prepare_dicom_fields_for_serialisation, HeaderField, HeaderFieldMap, InnerError,
};

fn field(vr: &[u8; 2], value: Option<Vec<DicomValue>>, inline_binary: Option<&str>) -> DicomField {
    DicomField { value, vr: *vr, inline_binary: inline_binary.map(|s| s.to_string()) }
}

fn strings(values: &[&str]) -> Option<Vec<DicomValue>> {
    Some(values.iter().map(|s| DicomValue::String(s.to_string())).collect())
}

fn doc(entries: Vec<(&str, DicomField)>) -> DicomJsonData {
    entries.into_iter().map(|(t, f)| (t.to_string(), f)).collect()
}

fn round_trip(d: &DicomJsonData) -> DicomJsonData {
    let (header, data) = prepare_dicom_fields_for_serialisation(d, None)
        .unwrap_or_else(|_| panic!("encoding failed"));
    headers_to_data(&header, &data).unwrap_or_else(|_| panic!("decoding failed"))
}

fn get<'a>(d: &'a DicomJsonData, tag: &str) -> &'a DicomField {
    &d.iter().find(|(t, _)| t == tag).expect("tag present").1
}

fn value_strings(f: &DicomField) -> Vec<String> {
    f.value
        .as_ref()
        .unwrap()
        .iter()
        .map(|v| v.to_string_ref().expect("expected only strings").clone())
        .collect()
}

fn rmpv_header(entries: Vec<(&str, rmpv::Value)>) -> Vec<u8> {
    let map = rmpv::Value::Map(entries.into_iter().map(|(k, v)| (rmpv::Value::from(k), v)).collect());
    let mut buf = Vec::new();
    rmpv::encode::write_value(&mut buf, &map).unwrap();
    buf
}

fn variant(name: &str, fields: Vec<rmpv::Value>) -> rmpv::Value {
    rmpv::Value::Map(vec![(rmpv::Value::from(name), rmpv::Value::Array(fields))])
}

fn lookup<'a>(v: &'a rmpv::Value, key: &str) -> &'a rmpv::Value {
    v.as_map()
        .unwrap()
        .iter()
        .find(|(k, _)| k.as_str() == Some(key))
        .map(|(_, v)| v)
        .expect("key present")
}

#[test]
fn test_header_deserialisation_single_string() {
    let header_bytes = rmpv_header(vec![(
        "00080005",
        variant("Deffered", vec![0.into(), 4.into(), rmpv::Value::Binary(b"CS".to_vec())]),
    )]);
    let buffer = frame_dimble(&header_bytes, &[]);
    let (n, header, _data) = split_dimble(&buffer).unwrap_or_else(|_| panic!("header"));
    assert_eq!(n as usize, header_bytes.len());
    let mut cursor = header;
    let decoded = rmpv::decode::read_value(&mut cursor).unwrap();
    let fields = lookup(lookup(&decoded, "00080005"), "Deffered").as_array().unwrap();
    assert_eq!(fields[0].as_u64(), Some(0));
    assert_eq!(fields[1].as_u64(), Some(4));
    assert_eq!(fields[2].as_slice(), Some(&b"CS"[..]));
}

#[test]
fn test_header_deserialisation_no_value() {
    let header_bytes = rmpv_header(vec![(
        "00100010",
        variant("Empty", vec![rmpv::Value::Binary(b"PN".to_vec())]),
    )]);
    let buffer = frame_dimble(&header_bytes, &[]);
    let (_n, header, data) = split_dimble(&buffer).unwrap_or_else(|_| panic!("header"));
    assert_eq!(header, &header_bytes[..]);
    assert!(data.is_empty());
    let mut cursor = header;
    let decoded = rmpv::decode::read_value(&mut cursor).unwrap();
    println!("{:?}", decoded);
}

#[test]
fn test_serialise_dimble_fields() {
    let header_bytes = rmpv_header(vec![(
        "0008005",
        variant("Deffered", vec![0.into(), 1.into(), rmpv::Value::Binary(b"CS".to_vec())]),
    )]);
    let data_bytes = vec![0x42];
    let file_bytes = frame_dimble(&header_bytes, &data_bytes);

    assert_eq!(file_bytes.last().unwrap(), &0x42);
    let header_len = u64::from_le_bytes(file_bytes[0..8].try_into().unwrap()) as usize;
    let mut cursor = &file_bytes[8..8 + header_len];
    let _decoded = rmpv::decode::read_value(&mut cursor).unwrap();
    assert!(cursor.is_empty());
}

#[test]
fn test_integration_single_string() {
    let d = doc(vec![("00080005", field(b"CS", strings(&["ISO_IR 100"]), None))]);
    let recon = round_trip(&d);
    let f = get(&recon, "00080005");
    assert_eq!(value_strings(f)[0], "ISO_IR 100");
    assert_eq!(&f.vr, b"CS");
}

#[test]
fn test_integration_string_array() {
    let d = doc(vec![("00080008", field(b"CS", strings(&["ORIGINAL", "PRIMARY", "OTHER"]), None))]);
    let recon = round_trip(&d);
    let f = get(&recon, "00080008");
    let v = value_strings(f);
    assert_eq!(v[0], "ORIGINAL");
    assert_eq!(v[1], "PRIMARY");
    assert_eq!(v[2], "OTHER");
    assert_eq!(&f.vr, b"CS");
}

#[test]
fn test_integration_no_value() {
    let d = doc(vec![("00080008", field(b"PN", None, None))]);
    let recon = round_trip(&d);
    let f = get(&recon, "00080008");
    assert_eq!(&f.vr, b"PN");
    assert!(f.value.is_none());
}

#[test]
fn test_integration_inline_binary() {
    let d = doc(vec![("00080008", field(b"OB", None, Some("ABCD")))]);
    let recon = round_trip(&d);
    let f = get(&recon, "00080008");
    assert_eq!(&f.vr, b"OB");
    assert_eq!(f.inline_binary.as_deref(), Some("ABCD"));
    assert!(f.value.is_none(), "should not have Value field");
}

#[test]
fn person_name_round_trips() {
    let name = DicomValue::Alphabetic(Alphabetic { alphabetic: "Doe^John".to_string() });
    let d = doc(vec![("00100010", field(b"PN", Some(vec![name]), None))]);
    let recon = round_trip(&d);
    let f = get(&recon, "00100010");
    let values = f.value.as_ref().unwrap();
    assert_eq!(values.len(), 1);
    assert_eq!(values[0].to_alphabetic_ref().unwrap().alphabetic, "Doe^John");
    assert!(values[0].to_string_ref().is_none());
}

#[test]
fn integers_floats_and_sequences_round_trip() {
    let ints = Some(vec![DicomValue::Integer(-3), DicomValue::Integer(70000), DicomValue::Integer(i64::MIN)]);
    let floats = Some(vec![DicomValue::Float(1.5f64.to_bits()), DicomValue::Float((-0.25f64).to_bits())]);
    let item = doc(vec![("00081150", field(b"UI", strings(&["1.2.3"]), None))]);
    let d = doc(vec![
        ("00280010", field(b"US", Some(vec![DicomValue::Integer(512)]), None)),
        ("00200032", field(b"IS", ints, None)),
        ("00280030", field(b"DS", floats, None)),
        ("00081140", field(b"SQ", Some(vec![DicomValue::SeqField(item)]), None)),
        ("00081199", field(b"SQ", Some(vec![]), None)),
    ]);
    let recon = round_trip(&d);
    assert_eq!(recon.len(), 5);
    match get(&recon, "00280010").value.as_ref().unwrap().as_slice() {
        [DicomValue::Integer(512)] => {}
        _ => panic!("expected one integer"),
    }
    match get(&recon, "00200032").value.as_ref().unwrap().as_slice() {
        [DicomValue::Integer(-3), DicomValue::Integer(70000), DicomValue::Integer(i64::MIN)] => {}
        _ => panic!("expected three integers"),
    }
    match get(&recon, "00280030").value.as_ref().unwrap().as_slice() {
        [DicomValue::Float(a), DicomValue::Float(b)] => {
            assert_eq!(f64::from_bits(*a), 1.5);
            assert_eq!(f64::from_bits(*b), -0.25);
        }
        _ => panic!("expected two floats"),
    }
    let sq = get(&recon, "00081140");
    assert_eq!(&sq.vr, b"SQ");
    match sq.value.as_ref().unwrap().as_slice() {
        [DicomValue::SeqField(sub)] => assert_eq!(value_strings(get(sub, "00081150")), vec!["1.2.3"]),
        _ => panic!("expected one item"),
    }
    let empty_sq = get(&recon, "00081199");
    assert_eq!(empty_sq.value.as_ref().unwrap().len(), 0);
}

#[test]
fn payloads_are_messagepack() {
    let d = doc(vec![
        ("00080005", field(b"CS", strings(&["ISO_IR 100"]), None)),
        ("00280010", field(b"US", Some(vec![DicomValue::Integer(512)]), None)),
        ("00280030", field(b"DS", Some(vec![DicomValue::Float(1.5f64.to_bits())]), None)),
        ("00080008", field(b"CS", strings(&["A", "B"]), None)),
    ]);
    let (header, data) = prepare_dicom_fields_for_serialisation(&d, None)
        .unwrap_or_else(|_| panic!("encoding failed"));
    let mut expected: Vec<u8> = vec![0xaa];
    expected.extend_from_slice(b"ISO_IR 100");
    expected.extend_from_slice(&[0xcd, 0x02, 0x00]);
    expected.push(0xcb);
    expected.extend_from_slice(&1.5f64.to_bits().to_be_bytes());
    expected.extend_from_slice(&[0x92, 0xa1, b'A', 0xa1, b'B']);
    assert_eq!(data, expected);
    match &header[1].1 {
        HeaderField::Deffered(11, 3, vr) => assert_eq!(vr, b"US"),
        _ => panic!("expected a deferred entry at offset 11"),
    }
    let mut off = 0u64;
    for (_, h) in &header {
        if let HeaderField::Deffered(o, len, _) = h {
            assert_eq!(*o, off);
            let mut cursor = &data[*o as usize..(*o + *len) as usize];
            rmpv::decode::read_value(&mut cursor).unwrap();
            assert!(cursor.is_empty());
            off += len;
        }
    }
    let mut cursor = &data[..];
    let v = rmpv::decode::read_value(&mut cursor).unwrap();
    assert_eq!(v.as_str(), Some("ISO_IR 100"));
}

#[test]
fn absent_fields_stay_absent() {
    let d = doc(vec![("00080090", field(b"PN", None, None))]);
    let (header, data) = prepare_dicom_fields_for_serialisation(&d, None)
        .unwrap_or_else(|_| panic!("encoding failed"));
    assert!(data.is_empty());
    assert!(matches!(header[0].1, HeaderField::Empty(vr) if &vr == b"PN"));
    let recon = headers_to_data(&header, &data).unwrap_or_else(|_| panic!("decoding failed"));
    assert!(recon[0].1.value.is_none());
    assert!(recon[0].1.inline_binary.is_none());
}

#[test]
fn value_and_inline_binary_are_rejected() {
    let d = doc(vec![
        ("00080005", field(b"CS", strings(&["ISO_IR 100"]), None)),
        ("00080008", field(b"OB", strings(&["X"]), Some("ABCD"))),
    ]);
    assert!(matches!(
        prepare_dicom_fields_for_serialisation(&d, None),
        Err(InnerError::ValueAndInlineBinaryBothPresent)
    ));
}

#[test]
fn malformed_value_lists_are_rejected() {
    let empty = doc(vec![("00080005", field(b"CS", Some(vec![]), None))]);
    assert!(matches!(prepare_dicom_fields_for_serialisation(&empty, None), Err(InnerError::EmptyValue)));
    let mixed = doc(vec![(
        "00080005",
        field(b"CS", Some(vec![DicomValue::String("a".to_string()), DicomValue::Integer(1)]), None),
    )]);
    assert!(matches!(prepare_dicom_fields_for_serialisation(&mixed, None), Err(InnerError::MixedValueKinds)));
}

#[test]
fn several_sequence_items_become_empty() {
    let a = doc(vec![("00081150", field(b"UI", strings(&["1"]), None))]);
    let b = doc(vec![("00081150", field(b"UI", strings(&["2"]), None))]);
    let d = doc(vec![(
        "00081140",
        field(b"SQ", Some(vec![DicomValue::SeqField(a), DicomValue::SeqField(b)]), None),
    )]);
    let (header, data) = prepare_dicom_fields_for_serialisation(&d, None)
        .unwrap_or_else(|_| panic!("encoding failed"));
    assert!(matches!(header[0].1, HeaderField::Empty(_)));
    assert!(data.is_empty());
}

#[test]
fn pixel_data_is_appended_verbatim() {
    let d = doc(vec![
        ("00080005", field(b"CS", strings(&["ISO_IR 100"]), None)),
        ("7FE00010", field(b"OW", None, Some("ignored"))),
    ]);
    assert!(matches!(prepare_dicom_fields_for_serialisation(&d, None), Err(InnerError::MissingPixelArray)));
    let blob = [1u8, 2, 3, 4, 5];
    let (header, data) = prepare_dicom_fields_for_serialisation(&d, Some(&blob[..]))
        .unwrap_or_else(|_| panic!("encoding failed"));
    assert_eq!(&data[11..], &blob[..]);
    assert!(matches!(header[1].1, HeaderField::Deffered(11, 5, _)));
    let recon = headers_to_data(&header, &data).unwrap_or_else(|_| panic!("decoding failed"));
    assert_eq!(recon[1].1.inline_binary.as_deref(), Some(PIXEL_DATA_PLACEHOLDER));
}

#[test]
fn decoding_checks_ranges_and_payloads() {
    let tag = "00080005".to_string();
    let out_of_range = HeaderField::Deffered(2, 4, *b"CS");
    assert!(matches!(
        headerfield_and_bytes_to_dicom_fields(&tag, &out_of_range, &[0xa1, b'x']),
        Err(DecodeError::HeaderInvalid)
    ));
    let not_a_string = HeaderField::Deffered(0, 1, *b"PN");
    assert!(matches!(
        headerfield_and_bytes_to_dicom_fields(&tag, &not_a_string, &[0x05]),
        Err(DecodeError::PayloadInvalid)
    ));
    let big = HeaderField::Deffered(0, 9, *b"UV");
    let mut bytes = vec![0xcf];
    bytes.extend_from_slice(&u64::MAX.to_be_bytes());
    match headerfield_and_bytes_to_dicom_fields(&tag, &big, &bytes) {
        Ok(f) => assert!(matches!(f.value.as_deref(), Some([DicomValue::Integer(-1)]))),
        Err(_) => panic!("expected an integer"),
    }
    let map: HeaderFieldMap = vec![(tag.clone(), out_of_range)];
    assert!(matches!(headers_to_data(&map, &[]), Err(DecodeError::HeaderInvalid)));
}

#[test]
fn framing_round_trips_and_rejects_short_files() {
    let file = frame_dimble(b"hdr", b"data");
    assert_eq!(&file[0..8], &3u64.to_le_bytes());
    let (n, h, d) = split_dimble(&file).unwrap_or_else(|_| panic!("framing"));
    assert_eq!((n, h, d), (3, &b"hdr"[..], &b"data"[..]));
    assert!(matches!(split_dimble(&file[0..5]), Err(DecodeError::HeaderInvalid)));
    let mut lying = 100u64.to_le_bytes().to_vec();
    lying.extend_from_slice(b"abc");
    assert!(matches!(split_dimble(&lying), Err(DecodeError::HeaderInvalid)));
}

#[test]
fn a_single_value_is_never_an_empty_list() {
    assert!(!DicomValue::String(String::new()).is_empty());
    assert!(!DicomValue::String("x".to_string()).is_empty());
    assert!(!DicomValue::Integer(0).is_empty());
    assert!(!DicomValue::SeqField(Vec::new()).is_empty());
    assert!(!DicomValue::Alphabetic(Alphabetic { alphabetic: String::new() }).is_empty());
}
