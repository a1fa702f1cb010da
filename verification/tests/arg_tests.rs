use rm_old::arg::{get_option, parse_u64, show_help, Config};

#[test]
fn arg_test_get_option() {
    let options = ['r', 'i', 'y', 'v', 'n'];
    let mut config = Config::new();

    for c in options.iter() {
        assert!(get_option(&format!("-{}", c).to_string(), &mut config).is_ok());
    }

    assert!(config.recursion());
    assert!(config.do_intr());
    assert!(config.assume_yes());
    assert!(config.verbose());
    assert!(config.dry_run());

    assert!(get_option(&format!("-{}", 'e').to_string(), &mut config).is_err());
}

#[test]
fn arg_test_parse_config() {
    let correct_args: Vec<Vec<String>> = vec![
        vec![
            "rm-old".to_string(),
            "-d".to_string(),
            "90".to_string(),
            "-riyvn".to_string(),
            "--remove-dir".to_string(),
            "--remove-empty".to_string(),
        ],
        vec!["rm-old".to_string(), "-d".to_string(), "90".to_string()],
        vec!["rm-old".to_string(), "-riyvn".to_string()],
        vec!["rm-old".to_string(), "-driyvn".to_string(), "90".to_string()],
        vec!["rm-old".to_string(), "--remove-dir".to_string()],
        vec!["rm-old".to_string(), "--remove-empty".to_string()],
        vec!["rm-old".to_string(), "--remove-empty".to_string()],
    ];

    let invalid_args: Vec<Vec<String>> = vec![
        // After "-d" is not number.
        vec!["rm-old".to_string(), "-d".to_string(), "-riyvn".to_string()],
        // not path.
        vec!["rm-old".to_string(), "jifsl.?s_sdfe".to_string()],
        // After "-d" not exist.
        vec!["rm-old".to_string(), "-driyvn".to_string()],
        // not supported.
        vec!["rm-old".to_string(), "--get-list".to_string()],
    ];

    for arg in correct_args.iter() {
        assert!(Config::parse_config(&arg).is_ok());
    }
    for arg in invalid_args.iter() {
        assert!(Config::parse_config(&arg).is_err());
    }
}

#[test]
fn main_test_get_option() {
    let options = ['r', 'i', 'y', 'v', 'n'];
    let mut config = Config::new();

    for c in options.iter() {
        assert!(get_option(&format!("-{}", c).to_string(), &mut config).is_ok());
    }

    assert!(config.recursion());
    assert!(config.do_intr());
    assert!(config.assume_yes());
    assert!(config.verbose());
    assert!(config.dry_run());

    assert!(get_option(&format!("-{}", 'e').to_string(), &mut config).is_err());
}

#[test]
fn main_test_parse_config() {
    let correct_args: Vec<Vec<String>> = vec![
        vec![
            "rm-old".to_string(),
            "-d".to_string(),
            "90".to_string(),
            "-riyvn".to_string(),
        ],
        vec!["rm-old".to_string(), "-d".to_string(), "90".to_string()],
        vec!["rm-old".to_string(), "-riyvn".to_string()],
        vec!["rm-old".to_string(), "-driyvn".to_string(), "90".to_string()],
        vec!["rm-old".to_string()],
    ];

    let invalid_args: Vec<Vec<String>> = vec![
        // After "-d" is not number.
        vec!["rm-old".to_string(), "-d".to_string(), "-riyvn".to_string()],
        // not path.
        vec!["rm-old".to_string(), "jifsl.?s_sdfe".to_string()],
        // After "-d" not exist.
        vec!["rm-old".to_string(), "-driyvn".to_string()],
    ];

    for arg in correct_args.iter() {
        assert!(Config::parse_config(&arg).is_ok());
    }
    for arg in invalid_args.iter() {
        assert!(Config::parse_config(&arg).is_err());
    }
}

#[test]
fn parse_config_defaults_and_days() {
    let config = Config::parse_config(&vec!["rm-old".to_string()]).unwrap();
    assert_eq!(config.get_duration_days(), 60);
    assert_eq!(config.get_target_path(), vec![".".to_string()]);
    assert!(!config.recursion());
    assert!(!config.do_intr());
    assert!(!config.assume_yes());
    assert!(!config.verbose());
    assert!(!config.dry_run());
    assert!(!config.remove_dir());
    assert!(!config.remove_empty());

    let config = Config::parse_config(&vec![
        "rm-old".to_string(),
        "-d".to_string(),
        "90".to_string(),
    ])
    .unwrap();
    assert_eq!(config.get_duration_days(), 90);

    let config = Config::parse_config(&vec![
        "rm-old".to_string(),
        "--remove-dir".to_string(),
        "--remove-empty".to_string(),
    ])
    .unwrap();
    assert!(config.remove_dir());
    assert!(config.remove_empty());
}

#[test]
fn parse_config_help_is_err() {
    assert!(Config::parse_config(&vec!["rm-old".to_string(), "--help".to_string()]).is_err());
    assert!(Config::parse_config(&vec!["rm-old".to_string(), "-h".to_string()]).is_err());
    assert!(!show_help().is_empty());
}

#[test]
fn parse_u64_values() {
    assert_eq!(parse_u64(&"0".to_string()), Some(0));
    assert_eq!(parse_u64(&"90".to_string()), Some(90));
    assert_eq!(parse_u64(&"+7".to_string()), Some(7));
    assert_eq!(parse_u64(&"18446744073709551615".to_string()), Some(u64::MAX));
    // One past u64::MAX overflows.
    assert_eq!(parse_u64(&"18446744073709551616".to_string()), None);
    assert_eq!(parse_u64(&"".to_string()), None);
    assert_eq!(parse_u64(&"+".to_string()), None);
    assert_eq!(parse_u64(&"9a".to_string()), None);
    assert_eq!(parse_u64(&"-9".to_string()), None);
}

#[test]
fn parse_config_normalizes_paths() {
    // The current directory always exists, so "." and "./" are accepted as
    // roots and get the relative prefix.
    let config =
        Config::parse_config(&vec!["rm-old".to_string(), ".".to_string()]).unwrap();
    assert_eq!(config.get_target_path(), vec!["./.".to_string()]);

    let config =
        Config::parse_config(&vec!["rm-old".to_string(), "./".to_string()]).unwrap();
    assert_eq!(config.get_target_path(), vec!["./.".to_string()]);

    let config = Config::parse_config(&vec!["rm-old".to_string(), "/".to_string()]).unwrap();
    assert_eq!(config.get_target_path(), vec!["/".to_string()]);
}
