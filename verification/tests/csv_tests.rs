use libs_processing::csv_line::csv_fields;

#[test]
fn fields_of_a_data_line() {
    assert_eq!(csv_fields("240.5, 1234.0"), vec!["240.5".to_string(), " 1234.0".to_string()]);
}

#[test]
fn fields_agree_with_str_split() {
    for line in ["", ",", "a,,b", "a,b,", "Wavelength,Intensity", "é,ü"] {
        let expected: Vec<String> = line.split(",").map(|s| s.to_string()).collect();
        assert_eq!(csv_fields(line), expected, "{:?}", line);
    }
}
