use libs_processing::shots::{
    chars_of, data_filename_candidates, get_directory_of_data_filenames, get_shot_prefix,
    lex_less, same_chars, shot_prefix_of, string_of,
};

fn names(v: &[&str]) -> Vec<String> {
    v.iter().map(|s| s.to_string()).collect()
}

fn prefix(s: &str) -> Option<String> {
    shot_prefix_of(&chars_of(s)).map(|p| string_of(&p))
}

#[test]
fn prefix_of_long_name() {
    assert_eq!(prefix("0001_2024-01-02_10-11-12_a_b_17.csv"), Some("0001_2024-01-02_10-11-12_a_b_".to_string()));
}

#[test]
fn prefix_of_five_field_name_gets_trailing_separator() {
    assert_eq!(prefix("0_1_2_3_4"), Some("0_1_2_3_4_".to_string()));
}

#[test]
fn prefix_needs_five_fields_and_leading_zero() {
    assert_eq!(prefix("0_1_2_3"), None);
    assert_eq!(prefix("1_1_2_3_4_5"), None);
    assert_eq!(prefix("_0_1_2_3_4"), None);
    assert_eq!(prefix(""), None);
}

#[test]
fn shot_prefixes_are_sorted_and_distinct() {
    let entries = names(&[
        "0002_d_t_x_y_1.csv",
        "0001_d_t_x_y_2.csv",
        "0002_d_t_x_y_3.csv",
        "readme.txt",
        "1000_d_t_x_y_1.csv",
        "0001_d_t_x_y_1.csv",
    ]);
    assert_eq!(get_shot_prefix(&entries), names(&["0001_d_t_x_y_", "0002_d_t_x_y_"]));
}

#[test]
fn shot_prefixes_order_by_characters() {
    let entries = names(&["0b_1_2_3_4_", "0a_1_2_3_4_", "0_1_2_3_4_", "0é_1_2_3_4_"]);
    let mut expected = names(&["0b_1_2_3_4_", "0a_1_2_3_4_", "0_1_2_3_4_", "0é_1_2_3_4_"]);
    expected.sort();
    assert_eq!(get_shot_prefix(&entries), expected);
}

#[test]
fn lex_order_of_char_vectors() {
    let a: Vec<char> = "abc".chars().collect();
    let b: Vec<char> = "abd".chars().collect();
    let c: Vec<char> = "ab".chars().collect();
    assert!(lex_less(&a, &b));
    assert!(!lex_less(&b, &a));
    assert!(lex_less(&c, &a));
    assert!(!lex_less(&a, &a));
    assert!(same_chars(&a, &a));
    assert!(!same_chars(&a, &c));
}

#[test]
fn candidates_cover_all_shots() {
    let c = data_filename_candidates("/data/scan", &names(&["0001_a_b_c_d_", "0002_a_b_c_d_"]));
    assert_eq!(c.len(), 512);
    assert_eq!(c[0], "/data/scan/0001_a_b_c_d_1.csv");
    assert_eq!(c[9], "/data/scan/0001_a_b_c_d_10.csv");
    assert_eq!(c[255], "/data/scan/0001_a_b_c_d_256.csv");
    assert_eq!(c[256], "/data/scan/0002_a_b_c_d_1.csv");
}

#[test]
fn missing_directory_has_no_data_files() {
    let r = get_directory_of_data_filenames("/nonexistent/libs/scan", &names(&["0001_a_b_c_d_1.csv"]));
    assert!(r.is_empty());
}

#[test]
fn string_round_trip() {
    assert_eq!(string_of(&chars_of("0é_x")), "0é_x");
}

#[test]
fn select_existing_keeps_answered_true() {
    let c = names(&["a", "b", "c"]);
    assert_eq!(libs_processing::shots::select_existing(&c, &vec![true, false, true]), names(&["a", "c"]));
    assert_eq!(libs_processing::shots::select_existing(&c, &vec![false, false, false]), Vec::<String>::new());
}

#[test]
fn data_files_of_shots_one_and_ten() {
    // A directory holding shots 1 and 10 of one raster, plus files that are no candidates.
    let entries = names(&["0_a_b_c_d_10.csv", "0_a_b_c_d_1.csv", "0_a_b_c_d_257.csv", "0_a_b_c_d_x.csv", "notes.txt"]);
    let prefixes = get_shot_prefix(&entries);
    assert_eq!(prefixes, names(&["0_a_b_c_d_"]));
    let candidates = data_filename_candidates("/scan", &prefixes);
    let on_disk = ["/scan/0_a_b_c_d_10.csv", "/scan/0_a_b_c_d_1.csv"];
    let exists: Vec<bool> = candidates.iter().map(|c| on_disk.contains(&c.as_str())).collect();
    assert_eq!(
        libs_processing::shots::select_existing(&candidates, &exists),
        names(&["/scan/0_a_b_c_d_1.csv", "/scan/0_a_b_c_d_10.csv"])
    );
}
