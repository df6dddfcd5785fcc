use redis_starter_rust::command::determine_number_of_elements;
use redis_starter_rust::config::Config;
use redis_starter_rust::lines::{get_next_element, Lines};

fn args(list: &[&str]) -> Vec<String> {
    list.iter().map(|s| s.to_string()).collect()
}

#[test]
fn from_args_defaults_to_master_on_6379() {
    let config = Config::from_args(args(&["server"])).unwrap();
    assert_eq!(config.port, "6379");
    assert_eq!(config.replicaof, "");
    assert!(config.runs_as_master());
}

#[test]
fn from_args_with_no_arguments_at_all() {
    let config = Config::from_args(Vec::new()).unwrap();
    assert_eq!(config.port, "6379");
    assert_eq!(config.replicaof, "");
}

#[test]
fn from_args_reads_port_flags() {
    let config = Config::from_args(args(&["server", "--port", "6380"])).unwrap();
    assert_eq!(config.port, "6380");
    let config = Config::from_args(args(&["server", "-p", "7000"])).unwrap();
    assert_eq!(config.port, "7000");
}

#[test]
fn from_args_reads_replicaof() {
    let config =
        Config::from_args(args(&["server", "--port", "6380", "--replicaof", "localhost 6379"]))
            .unwrap();
    assert_eq!(config.port, "6380");
    assert_eq!(config.replicaof, "localhost 6379");
    assert!(!config.runs_as_master());
}

#[test]
fn from_args_missing_values_are_errors() {
    assert_eq!(Config::from_args(args(&["server", "--port"])), Err("No port provided"));
    assert_eq!(Config::from_args(args(&["server", "-p"])), Err("No port provided"));
    assert_eq!(
        Config::from_args(args(&["server", "--replicaof"])),
        Err("No replicaof provided")
    );
}

#[test]
fn from_args_looks_at_a_flag_value_as_a_flag_too() {
    // The value after --port is itself read as a flag.
    assert_eq!(
        Config::from_args(args(&["server", "--port", "--replicaof"])),
        Err("No replicaof provided")
    );
    let config = Config::from_args(args(&["server", "--port", "-p", "9"])).unwrap();
    assert_eq!(config.port, "9");
}

#[test]
fn from_args_ignores_unknown_arguments() {
    let config = Config::from_args(args(&["server", "--verbose", "x"])).unwrap();
    assert_eq!(config.port, "6379");
    assert_eq!(config.replicaof, "");
}

#[test]
fn number_of_elements_of_headers() {
    assert_eq!(determine_number_of_elements("*3"), 3);
    assert_eq!(determine_number_of_elements("*0"), 0);
    assert_eq!(determine_number_of_elements("*+12"), 12);
    assert_eq!(determine_number_of_elements("*-5"), -5);
    assert_eq!(determine_number_of_elements("*2147483647"), 2147483647);
    assert_eq!(determine_number_of_elements("*-2147483648"), -2147483648);
}

#[test]
fn number_of_elements_invalid_headers_give_minus_one() {
    assert_eq!(determine_number_of_elements(""), -1);
    assert_eq!(determine_number_of_elements("*"), -1);
    assert_eq!(determine_number_of_elements("*x"), -1);
    assert_eq!(determine_number_of_elements("*3 "), -1);
    assert_eq!(determine_number_of_elements("*-"), -1);
    assert_eq!(determine_number_of_elements("*2147483648"), -1);
}

#[test]
fn number_of_elements_skips_a_whole_first_character() {
    assert_eq!(determine_number_of_elements("é12"), 12);
}

#[test]
fn lines_split_like_str_lines() {
    let mut lines = Lines::new("a\r\nb\nc\r");
    assert_eq!(lines.next(), Some("a".to_string()));
    assert_eq!(lines.next(), Some("b".to_string()));
    assert_eq!(lines.next(), Some("c\r".to_string()));
    assert_eq!(lines.next(), None);
    let mut lines = Lines::new("x\n");
    assert_eq!(lines.next(), Some("x".to_string()));
    assert_eq!(lines.next(), None);
    let mut lines = Lines::new("");
    assert_eq!(lines.next(), None);
    let mut lines = Lines::new("\n\n");
    assert_eq!(lines.next(), Some(String::new()));
    assert_eq!(lines.next(), Some(String::new()));
    assert_eq!(lines.next(), None);
}

#[test]
fn get_next_element_skips_the_length_line() {
    let mut lines = Lines::new("*2\r\n$4\r\nECHO\r\n$3\r\nhey\r\n");
    assert_eq!(lines.next(), Some("*2".to_string()));
    assert_eq!(get_next_element(&mut lines), "ECHO");
    assert_eq!(get_next_element(&mut lines), "hey");
    assert_eq!(get_next_element(&mut lines), "");
}

#[test]
fn get_next_element_with_one_line_left() {
    let mut lines = Lines::new("$3");
    assert_eq!(get_next_element(&mut lines), "");
    assert_eq!(lines.next(), None);
}

#[test]
fn from_args_last_flag_wins() {
    let c = Config::from_args(args(&["prog", "-p", "1", "--port", "2", "--replicaof", "a 1", "--replicaof", "b 2"])).unwrap();
    assert_eq!(c.port, "2");
    assert_eq!(c.replicaof, "b 2");
    let c = Config::from_args(args(&["prog", "--port", "--port", "7000"])).unwrap();
    assert_eq!(c.port, "7000");
}

#[test]
fn from_args_bare_flag_at_the_end_is_an_error() {
    assert_eq!(Config::from_args(args(&["prog", "-p", "1", "--replicaof"])), Err("No replicaof provided"));
    assert_eq!(Config::from_args(args(&["prog", "--replicaof", "a 1", "-p"])), Err("No port provided"));
}
