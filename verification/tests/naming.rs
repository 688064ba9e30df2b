use kvs::naming::{
    generation_of, log_file_name, log_path, parse_generation, sorted_gen_list, stale_gens,
};

#[test]
fn log_file_name_is_decimal_generation_and_suffix() {
    assert_eq!(log_file_name(0), "0.log");
    assert_eq!(log_file_name(1), "1.log");
    assert_eq!(log_file_name(10), "10.log");
    assert_eq!(log_file_name(1234567890), "1234567890.log");
    assert_eq!(log_file_name(u64::MAX), "18446744073709551615.log");
}

#[test]
fn log_path_joins_directory_and_file_name() {
    assert_eq!(log_path("/data", 7), "/data/7.log");
    assert_eq!(log_path("rel/dir", 42), "rel/dir/42.log");
    assert_eq!(log_path(".", 1), "./1.log");
    assert_eq!(log_path("", 3), "3.log");
    assert_eq!(log_path("/", 3), "/3.log");
    assert_eq!(log_path("data/", 3), "data/3.log");
    assert_eq!(std::path::Path::new("").join("3.log").to_str(), Some("3.log"));
    assert_eq!(std::path::Path::new("data/").join("3.log").to_str(), Some("data/3.log"));
}

#[test]
fn parse_generation_reads_digits() {
    assert_eq!(parse_generation("0"), Some(0));
    assert_eq!(parse_generation("7"), Some(7));
    assert_eq!(parse_generation("1234567890"), Some(1234567890));
    assert_eq!(parse_generation("007"), Some(7));
    assert_eq!(parse_generation("+5"), Some(5));
    assert_eq!(parse_generation("18446744073709551615"), Some(u64::MAX));
}

#[test]
fn parse_generation_refuses_what_is_no_number() {
    assert_eq!(parse_generation(""), None);
    assert_eq!(parse_generation("+"), None);
    assert_eq!(parse_generation("-1"), None);
    assert_eq!(parse_generation("++1"), None);
    assert_eq!(parse_generation("1+"), None);
    assert_eq!(parse_generation(" 1"), None);
    assert_eq!(parse_generation("1 "), None);
    assert_eq!(parse_generation("1_000"), None);
    assert_eq!(parse_generation("12a"), None);
    assert_eq!(parse_generation("١٢"), None);
}

#[test]
fn parse_generation_refuses_what_does_not_fit() {
    assert_eq!(parse_generation("18446744073709551616"), None);
    assert_eq!(parse_generation("99999999999999999999"), None);
    assert_eq!(parse_generation("184467440737095516150"), None);
}

#[test]
fn generation_of_reads_names_of_logs() {
    assert_eq!(generation_of("1.log"), Some(1));
    assert_eq!(generation_of("25.log"), Some(25));
    assert_eq!(generation_of("0.log"), Some(0));
}

#[test]
fn generation_of_refuses_other_names() {
    assert_eq!(generation_of(".log"), None);
    assert_eq!(generation_of("log"), None);
    assert_eq!(generation_of("1.txt"), None);
    assert_eq!(generation_of("1.log.new"), None);
    assert_eq!(generation_of("5.log.log"), None);
    assert_eq!(generation_of("a.log"), None);
    assert_eq!(generation_of("1.LOG"), None);
    assert_eq!(generation_of("engine"), None);
    assert_eq!(generation_of(""), None);
}

#[test]
fn name_of_a_generation_is_found_under_it() {
    for gen in [0, 1, 9, 10, 99, 100, 4096, u64::MAX - 1, u64::MAX] {
        assert_eq!(generation_of(&log_file_name(gen)), Some(gen));
    }
}

#[test]
fn sorted_gen_list_finds_the_logs_in_rising_order() {
    let names: Vec<String> = ["10.log", "engine", "2.log", "notes.txt", "1.log", "x.log"]
        .iter()
        .map(|name| name.to_string())
        .collect();
    assert_eq!(sorted_gen_list(&names), vec![1, 2, 10]);
}

#[test]
fn sorted_gen_list_names_each_generation_once() {
    let names: Vec<String> =
        ["3.log", "03.log", "+3.log", "1.log"].iter().map(|name| name.to_string()).collect();
    assert_eq!(sorted_gen_list(&names), vec![1, 3]);
}

#[test]
fn sorted_gen_list_of_no_logs_is_empty() {
    assert_eq!(sorted_gen_list(&Vec::new()), Vec::<u64>::new());
    let names = vec!["engine".to_string(), "db".to_string()];
    assert_eq!(sorted_gen_list(&names), Vec::<u64>::new());
}

#[test]
fn stale_generations_are_those_below_the_compaction_log() {
    assert_eq!(stale_gens(&vec![1, 2, 5, 8, 9], 8), vec![1, 2, 5]);
    assert_eq!(stale_gens(&vec![8, 9], 8), Vec::<u64>::new());
    assert_eq!(stale_gens(&vec![3, 1, 9, 2], 3), vec![1, 2]);
    assert_eq!(stale_gens(&Vec::new(), 3), Vec::<u64>::new());
    assert_eq!(stale_gens(&vec![0, u64::MAX], u64::MAX), vec![0]);
}
