use minigrep::{Config, ConfigError};

fn args(items: &[&str]) -> Vec<String> {
    items.iter().map(|s| s.to_string()).collect()
}

#[test]
fn filename_without_query_is_rejected() {
    let a = args(&["minigrep", "poem.txt"]);
    match Config::new(&a) {
        Err(e) => {
            assert_eq!(e, ConfigError::MissingArguments);
            assert_eq!(e.message(), "Not enough arguments");
        }
        Ok(_) => panic!("two arguments were accepted"),
    }
}

#[test]
fn no_arguments_are_rejected() {
    let a = args(&["minigrep"]);
    assert!(matches!(Config::new(&a), Err(ConfigError::MissingArguments)));
    let empty: Vec<String> = Vec::new();
    assert!(matches!(Config::new(&empty), Err(ConfigError::MissingArguments)));
}

#[test]
fn filename_and_query_are_read_in_place() {
    let a = args(&["minigrep", "poem.txt", "to be"]);
    match Config::new(&a) {
        Ok(c) => {
            assert_eq!(c.filename, "poem.txt");
            assert_eq!(c.query, "to be");
            assert!(c.case_sensitive);
        }
        Err(_) => panic!("three arguments were rejected"),
    }
}

#[test]
fn flag_i_turns_off_case_sensitivity() {
    let a = args(&["minigrep", "poem.txt", "frog", "i"]);
    match Config::new(&a) {
        Ok(c) => {
            assert_eq!(c.query, "frog");
            assert_eq!(c.filename, "poem.txt");
            assert!(!c.case_sensitive);
        }
        Err(_) => panic!("flag was rejected"),
    }
}

#[test]
fn other_fourth_argument_is_ignored() {
    for other in ["x", "I", "ii", "", " i", "-i"] {
        let a = args(&["minigrep", "poem.txt", "frog", other]);
        match Config::new(&a) {
            Ok(c) => assert!(c.case_sensitive),
            Err(_) => panic!("an unknown fourth argument was rejected"),
        }
    }
}

#[test]
fn flag_i_counts_with_more_arguments_after_it() {
    let a = args(&["minigrep", "poem.txt", "frog", "i", "extra"]);
    match Config::new(&a) {
        Ok(c) => assert!(!c.case_sensitive),
        Err(_) => panic!("five arguments were rejected"),
    }
}
