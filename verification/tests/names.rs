use kvs::{log_path, parse_generation, sorted_gen_list};

fn name_list(names: &[&str]) -> Vec<String> {
    names.iter().map(|n| n.to_string()).collect()
}

#[test]
fn log_path_is_generation_and_suffix() {
    assert_eq!(log_path(0), "0.log");
    assert_eq!(log_path(7), "7.log");
    assert_eq!(log_path(10), "10.log");
    assert_eq!(log_path(4096), "4096.log");
    assert_eq!(log_path(u64::MAX), "18446744073709551615.log");
}

#[test]
fn generation_of_log_names() {
    assert_eq!(parse_generation("1.log"), Some(1));
    assert_eq!(parse_generation("42.log"), Some(42));
    assert_eq!(parse_generation("007.log"), Some(7));
    assert_eq!(parse_generation("0.log"), Some(0));
    assert_eq!(parse_generation("18446744073709551615.log"), Some(u64::MAX));
}

#[test]
fn other_names_are_no_logs() {
    assert_eq!(parse_generation(""), None);
    assert_eq!(parse_generation(".log"), None);
    assert_eq!(parse_generation("log"), None);
    assert_eq!(parse_generation("1.txt"), None);
    assert_eq!(parse_generation("1.log.log"), None);
    assert_eq!(parse_generation("+1.log"), None);
    assert_eq!(parse_generation("-1.log"), None);
    assert_eq!(parse_generation("a1.log"), None);
    assert_eq!(parse_generation("1a.log"), None);
    assert_eq!(parse_generation("1.LOG"), None);
    assert_eq!(parse_generation(" 1.log"), None);
    assert_eq!(parse_generation("١.log"), None);
    assert_eq!(parse_generation("18446744073709551616.log"), None);
    assert_eq!(parse_generation("99999999999999999999999.log"), None);
}

#[test]
fn name_and_generation_round_trip() {
    for gen in [0, 1, 9, 10, 99, 100, 12345, u64::MAX - 1, u64::MAX] {
        assert_eq!(parse_generation(&log_path(gen)), Some(gen));
    }
}

#[test]
fn generations_are_listed_ascending() {
    let names = name_list(&["10.log", "2.log", "1.log", "33.log"]);
    assert_eq!(sorted_gen_list(&names), vec![1, 2, 10, 33]);
}

#[test]
fn other_files_are_passed_over() {
    let names = name_list(&["3.log", "notes.txt", ".wal.0", "x.log", "1.log", "2.logs", ""]);
    assert_eq!(sorted_gen_list(&names), vec![1, 3]);
}

#[test]
fn a_generation_is_listed_once() {
    let names = name_list(&["1.log", "01.log", "2.log", "001.log"]);
    assert_eq!(sorted_gen_list(&names), vec![1, 2]);
}

#[test]
fn no_files_no_generations() {
    assert_eq!(sorted_gen_list(&Vec::new()), Vec::<u64>::new());
}
