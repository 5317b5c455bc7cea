use kvs::{log_file_name, log_path, parse_log_name, sorted_gen_list};

#[test]
fn names() {
    assert_eq!(log_file_name(1), "1.log");
    assert_eq!(log_file_name(1234), "1234.log");
    assert_eq!(log_path("/tmp/db", 7), "/tmp/db/7.log");
}

#[test]
fn parsing_names() {
    assert_eq!(parse_log_name("12.log"), Some(12));
    assert_eq!(parse_log_name("18446744073709551615.log"), Some(u64::MAX));
    assert_eq!(parse_log_name("18446744073709551616.log"), None);
    assert_eq!(parse_log_name("012.log"), None);
    assert_eq!(parse_log_name("0.log"), None);
    assert_eq!(parse_log_name(".log"), None);
    assert_eq!(parse_log_name("a1.log"), None);
    assert_eq!(parse_log_name("1.txt"), None);
    assert_eq!(parse_log_name("+1.log"), None);
    assert_eq!(parse_log_name("metadata"), None);
}

#[test]
fn generation_list() {
    let names: Vec<String> = ["10.log", "metadata", "2.log", "x.log", "1.log", "3.log.bak"]
        .iter()
        .map(|s| s.to_string())
        .collect();
    assert_eq!(sorted_gen_list(&names), vec![1, 2, 10]);
    assert_eq!(sorted_gen_list(&Vec::new()), Vec::<u64>::new());
}
