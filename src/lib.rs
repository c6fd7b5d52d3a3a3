//! Dimble: a container for DICOM datasets with a directory of fields up front, so that single
//! fields can be read without parsing the rest of the file.
pub mod dicom_json;
pub mod msgpack;
pub mod ir_to_dimble;
pub mod dimble_to_ir;
pub mod load;
pub mod laws;
pub mod tensor;
