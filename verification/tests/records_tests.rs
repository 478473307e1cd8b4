use libs_processing::records::{get_counts, get_lambda, get_lambdas, import_libs_bins, read_header, F32Reader};

fn be_bytes(values: &[f32]) -> Vec<u8> {
    let mut out = Vec::new();
    for v in values {
        out.extend_from_slice(&v.to_be_bytes());
    }
    out
}

fn header(n_spectra: u64, n_lambdas: u64) -> Vec<u8> {
    let mut out = Vec::new();
    out.extend_from_slice(&n_spectra.to_be_bytes());
    out.extend_from_slice(&n_lambdas.to_be_bytes());
    out
}

#[test]
fn reader_hands_out_big_endian_records() {
    let mut reader = F32Reader::new(vec![0x43, 0x85, 0xcb, 0x85, 0x3f, 0x80, 0x00, 0x00, 0x01]);
    assert_eq!(reader.next(), Some(267.59f32.to_bits()));
    assert_eq!(reader.next(), Some(1.0f32.to_bits()));
    assert_eq!(reader.next(), None);
    assert_eq!(reader.next(), None);
}

#[test]
fn reader_on_empty_stream() {
    let mut reader = F32Reader::new(Vec::new());
    assert_eq!(reader.next(), None);
}

#[test]
fn lambdas_drop_incomplete_trailing_record() {
    let mut bytes = be_bytes(&[240.0, 240.5, 241.0]);
    bytes.extend_from_slice(&[1, 2, 3]);
    let lambdas = get_lambdas(bytes);
    let values: Vec<f32> = lambdas.iter().map(|b| f32::from_bits(*b)).collect();
    assert_eq!(values, vec![240.0, 240.5, 241.0]);
}

#[test]
fn header_is_two_big_endian_words() {
    let bytes = header(7, 0x0102_0304_0506_0708);
    assert_eq!(read_header(&bytes), (7, 0x0102_0304_0506_0708));
}

#[test]
fn counts_are_cut_into_spectra() {
    let mut bytes = header(2, 3);
    bytes.extend(be_bytes(&[1.0, 2.0, 3.0, 4.0, 5.0, 6.0, 7.0, 8.0]));
    let rows = get_counts(bytes);
    let values: Vec<Vec<f32>> =
        rows.iter().map(|r| r.iter().map(|b| f32::from_bits(*b)).collect()).collect();
    assert_eq!(values, vec![vec![1.0, 2.0, 3.0], vec![4.0, 5.0, 6.0]]);
}

#[test]
fn counts_with_zero_lambdas_are_empty() {
    let mut bytes = header(2, 0);
    bytes.extend(be_bytes(&[1.0, 2.0]));
    assert!(get_counts(bytes).is_empty());
}

#[test]
fn counts_with_more_lambdas_than_records_are_empty() {
    let mut bytes = header(1, 5);
    bytes.extend(be_bytes(&[1.0, 2.0]));
    assert!(get_counts(bytes).is_empty());
}

#[test]
fn counts_of_header_only_file() {
    assert!(get_counts(header(0, 4)).is_empty());
}

#[test]
fn lambda_reports_header_width() {
    let mut bytes = header(3, 4096);
    bytes.extend(be_bytes(&[1.0]));
    let (n, indexes) = get_lambda(&bytes);
    assert_eq!(n, 4096);
    assert!(indexes.is_empty());
}

#[test]
fn import_does_nothing() {
    import_libs_bins();
}
