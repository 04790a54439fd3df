use buffout::config::is_whitespace;
use buffout::config::parse_command;
use buffout::config::select_compression;
use buffout::config::split_command;
use buffout::config::Configuration;
use buffout::config::Source;
use buffout::error::ErrorKind;

#[test]
fn white_space_is_what_std_calls_white_space() {
    for n in 0..=0x10FFFFu32 {
        if let Some(c) = char::from_u32(n) {
            assert_eq!(is_whitespace(c), c.is_whitespace(), "U+{:04X}", n);
        }
    }
}

#[test]
fn a_command_is_cut_at_white_space() {
    assert_eq!(split_command("ls -l /tmp"), vec!["ls", "-l", "/tmp"]);
    assert_eq!(split_command("  ls\t-l \n /tmp  "), vec!["ls", "-l", "/tmp"]);
    assert_eq!(split_command("one"), vec!["one"]);
    assert_eq!(split_command("a\u{00A0}b\u{3000}c"), vec!["a", "b", "c"]);
    assert_eq!(split_command("d\u{00E9}j\u{00E0} vu"), vec!["d\u{00E9}j\u{00E0}", "vu"]);
}

#[test]
fn a_command_is_cut_as_std_cuts_it() {
    let commands = [
        "",
        " ",
        "printf 'a\\nb\\nc'",
        "  leading",
        "trailing  ",
        "a  b   c",
        "tab\tseparated\twords",
        "\u{2003}em\u{2003}space\u{2003}",
        "seq 1 100000",
    ];
    for command in commands {
        let expected: Vec<String> = command.split_whitespace().map(String::from).collect();
        assert_eq!(split_command(command), expected);
    }
}

#[test]
fn a_command_without_a_word_is_refused() {
    assert_eq!(parse_command("").unwrap_err(), ErrorKind::Configuration);
    assert_eq!(parse_command("   ").unwrap_err(), ErrorKind::Configuration);
    assert_eq!(parse_command("\t\n").unwrap_err(), ErrorKind::Configuration);
}

#[test]
fn the_first_word_is_the_program() {
    let line = parse_command("printf 'a\\nb\\nc'").unwrap();
    assert_eq!(line.program, "printf");
    assert_eq!(line.arguments, vec!["'a\\nb\\nc'"]);
    let line = parse_command("  yes  ").unwrap();
    assert_eq!(line.program, "yes");
    assert!(line.arguments.is_empty());
    let line = parse_command("tar -c -f - .").unwrap();
    assert_eq!(line.program, "tar");
    assert_eq!(line.arguments, vec!["-c", "-f", "-", "."]);
}

#[test]
fn compression_option_absent_present_or_with_level() {
    assert!(select_compression(None).unwrap().is_none());
    assert_eq!(select_compression(Some(None)).unwrap().unwrap().value(), 6);
    for level in 1..=9i64 {
        assert_eq!(select_compression(Some(Some(level))).unwrap().unwrap().value() as i64, level);
    }
}

#[test]
fn compression_level_out_of_range_is_refused() {
    for level in [0i64, 10, -3, 1000] {
        assert_eq!(select_compression(Some(Some(level))).unwrap_err(), ErrorKind::Configuration);
    }
}

#[test]
fn configuration_for_standard_input() {
    let configuration = Configuration::new(None, Some("out.log"), None).unwrap();
    assert!(matches!(configuration.source, Source::StandardInput));
    assert!(!configuration.source.has_child());
    assert_eq!(configuration.destination, "out.log");
    assert!(configuration.compression.is_none());
}

#[test]
fn configuration_for_a_command_with_compression() {
    let configuration =
        Configuration::new(Some("seq 1 10"), Some("/tmp/out.gz"), Some(Some(9))).unwrap();
    assert!(configuration.source.has_child());
    match configuration.source {
        Source::ChildStdout(line) => {
            assert_eq!(line.program, "seq");
            assert_eq!(line.arguments, vec!["1", "10"]);
        }
        Source::StandardInput => panic!("a command was configured"),
    }
    assert_eq!(configuration.destination, "/tmp/out.gz");
    assert_eq!(configuration.compression.unwrap().value(), 9);
}

#[test]
fn configuration_with_default_level() {
    let configuration = Configuration::new(None, Some("out.gz"), Some(None)).unwrap();
    assert_eq!(configuration.compression.unwrap().value(), 6);
}

#[test]
fn configuration_without_destination_is_refused() {
    assert_eq!(Configuration::new(None, None, None).unwrap_err(), ErrorKind::Configuration);
    assert_eq!(
        Configuration::new(Some("ls"), None, Some(Some(3))).unwrap_err(),
        ErrorKind::Configuration
    );
}

#[test]
fn configuration_with_empty_command_is_refused() {
    assert_eq!(
        Configuration::new(Some(" "), Some("out"), None).unwrap_err(),
        ErrorKind::Configuration
    );
}

#[test]
fn configuration_with_bad_level_is_refused() {
    assert_eq!(
        Configuration::new(None, Some("out"), Some(Some(0))).unwrap_err(),
        ErrorKind::Configuration
    );
    assert_eq!(
        Configuration::new(Some("ls"), Some("out"), Some(Some(10))).unwrap_err(),
        ErrorKind::Configuration
    );
}
