use new_pbft::config::{find_identity, Identity};
use new_pbft::command::{parse_command, parse_decimal, split_words, test_rounds, Command};

fn chars(s: &str) -> Vec<char> {
    s.chars().collect()
}

#[test]
fn blank_lines_ask_for_nothing() {
    assert_eq!(parse_command(""), Command::Nothing);
    assert_eq!(parse_command("   \t  "), Command::Nothing);
    assert_eq!(parse_command("\u{3000}\u{2003}\n"), Command::Nothing);
}

#[test]
fn last_is_read_with_surrounding_space() {
    assert_eq!(parse_command("last"), Command::Last);
    assert_eq!(parse_command("  last \n"), Command::Last);
    assert_eq!(parse_command("last now"), Command::Send);
    assert_eq!(parse_command("Last"), Command::Send);
}

#[test]
fn index_takes_one_number() {
    assert_eq!(parse_command("index 5"), Command::Index(5));
    assert_eq!(parse_command("index\t+42"), Command::Index(42));
    assert_eq!(parse_command("index 18446744073709551615"), Command::Index(u64::MAX));
    assert_eq!(parse_command("index 18446744073709551616"), Command::BadIndex);
    assert_eq!(parse_command("index x"), Command::BadIndex);
    assert_eq!(parse_command("index -1"), Command::BadIndex);
    assert_eq!(parse_command("index +"), Command::BadIndex);
    assert_eq!(parse_command("index"), Command::Send);
    assert_eq!(parse_command("index 1 2"), Command::Send);
}

#[test]
fn test_takes_two_numbers() {
    assert_eq!(
        parse_command("test 1000 500"),
        Command::Test { count: 1000, interval_us: 500 }
    );
    assert_eq!(parse_command("test a 500"), Command::BadTest);
    assert_eq!(parse_command("test 1000 b"), Command::BadTest);
    assert_eq!(parse_command("test 1000"), Command::Send);
}

#[test]
fn anything_else_sends_a_request() {
    assert_eq!(parse_command("hello"), Command::Send);
    assert_eq!(parse_command("send a request please"), Command::Send);
}

#[test]
fn words_split_on_unicode_space() {
    let w = split_words(" a\u{00A0}bc  d\u{2028}");
    assert_eq!(w, vec![chars("a"), chars("bc"), chars("d")]);
    let parts: Vec<Vec<char>> = "x  y\tz".split_whitespace().map(chars).collect();
    assert_eq!(split_words("x  y\tz"), parts);
}

#[test]
fn decimals_agree_with_std() {
    for s in ["0", "7", "+7", "007", "18446744073709551615", "18446744073709551616", "", "+", "1a", "-3", "++1"] {
        assert_eq!(parse_decimal(&chars(s)), s.parse::<u64>().ok(), "{}", s);
    }
}

#[test]
fn test_rounds_send_exactly_the_count() {
    assert_eq!(test_rounds(0), (0, 0));
    assert_eq!(test_rounds(1), (0, 1));
    assert_eq!(test_rounds(100), (1, 0));
    assert_eq!(test_rounds(150), (1, 50));
    assert_eq!(test_rounds(1000), (10, 0));
    assert_eq!(test_rounds(u64::MAX), (u64::MAX / 100, u64::MAX % 100));
}

#[test]
fn the_first_identity_with_the_id_is_found() {
    let id = |node_id: u64, port: u64| Identity {
        node_id,
        ip: "127.0.0.1".to_string(),
        port,
        public_key: String::new(),
    };
    let identities = vec![id(3, 1), id(7, 2), id(7, 3)];
    assert_eq!(find_identity(&identities, 7), Some(1));
    assert_eq!(find_identity(&identities, 3), Some(0));
    assert_eq!(find_identity(&identities, 4), None);
    assert_eq!(find_identity(&vec![], 0), None);
}
