use libs_processing::lambda_search::get_lambda_indexes;

fn be_bytes(values: &[f32]) -> Vec<u8> {
    let mut out = Vec::new();
    for v in values {
        out.extend_from_slice(&v.to_be_bytes());
    }
    out
}

fn bits(values: &[f32]) -> Vec<u32> {
    values.iter().map(|v| v.to_bits()).collect()
}

#[test]
fn indexes_of_bins_holding_wanted_lambdas() {
    let lambdas = be_bytes(&[240.0, 241.0, 242.0, 243.0, 244.0]);
    let wanted = bits(&[242.5, 240.0]);
    let (n, idx) = get_lambda_indexes(&wanted, lambdas);
    assert_eq!(n, 5);
    assert_eq!(idx, vec![Some(0), Some(2)]);
}

#[test]
fn upper_edge_belongs_to_next_bin() {
    let lambdas = be_bytes(&[240.0, 241.0, 242.0]);
    let (_, idx) = get_lambda_indexes(&bits(&[241.0]), lambdas);
    assert_eq!(idx, vec![Some(1)]);
}

#[test]
fn no_hit_gives_lone_none() {
    let lambdas = be_bytes(&[240.0, 241.0, 242.0]);
    let (n, idx) = get_lambda_indexes(&bits(&[312.29, 242.0]), lambdas);
    assert_eq!(n, 3);
    assert_eq!(idx, vec![None]);
}

#[test]
fn single_lambda_has_no_bins() {
    let (n, idx) = get_lambda_indexes(&bits(&[240.0]), be_bytes(&[240.0]));
    assert_eq!(n, 1);
    assert_eq!(idx, vec![None]);
}

#[test]
fn nan_never_falls_in_a_bin() {
    let lambdas = be_bytes(&[240.0, 241.0]);
    let (_, idx) = get_lambda_indexes(&bits(&[f32::NAN]), lambdas);
    assert_eq!(idx, vec![None]);
}

#[test]
fn two_wanted_in_one_bin_name_it_once() {
    let lambdas = be_bytes(&[240.0, 250.0]);
    let (_, idx) = get_lambda_indexes(&bits(&[242.0, 243.0]), lambdas);
    assert_eq!(idx, vec![Some(0)]);
}

#[test]
fn column_of_every_spectrum() {
    use_column();
}

fn use_column() {
    let data = vec![vec![1u32, 2, 3], vec![4, 5, 6]];
    assert_eq!(libs_processing::lambda_search::select_column(&data, 1), vec![2, 5]);
    assert_eq!(libs_processing::lambda_search::select_column(&Vec::new(), 7), Vec::<u32>::new());
}

#[test]
fn one_column_per_found_index() {
    let data = vec![vec![10u32, 11, 12, 13], vec![20, 21, 22, 23]];
    let cols = libs_processing::lambda_search::columns_for_indexes(&data, &vec![Some(0), Some(2)]);
    assert_eq!(cols, vec![vec![10, 20], vec![12, 22]]);
}

#[test]
fn no_found_index_gives_no_data() {
    let data = vec![vec![10u32, 11]];
    let cols = libs_processing::lambda_search::columns_for_indexes(&data, &vec![None]);
    assert!(cols.is_empty());
}
