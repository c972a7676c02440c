use rubikscube::{config_value, CORNERS_TABLE, COSET_TABLE, DEFAULT_CONFIG, SUBSET_TABLE};
use std::collections::HashMap;

/// The same value by the functions of std.
fn value_by_std(text: &str, key: &str) -> Option<String> {
    let config: HashMap<String, String> = text
        .lines()
        .filter_map(|line| {
            let parts: Vec<&str> = line.splitn(2, '=').collect();
            if parts.len() == 2 {
                Some((parts[0].trim().to_string(), parts[1].trim().to_string()))
            } else {
                None
            }
        })
        .collect();
    config.get(key).cloned()
}

#[test]
fn test_default_config() {
    assert_eq!(config_value(DEFAULT_CONFIG, CORNERS_TABLE), Some("corners_table.dat"));
    assert_eq!(config_value(DEFAULT_CONFIG, SUBSET_TABLE), Some("subset_table.dat"));
    assert_eq!(config_value(DEFAULT_CONFIG, COSET_TABLE), Some("coset_table.dat"));
    assert_eq!(config_value(DEFAULT_CONFIG, "other_table"), None);
    assert_eq!(CORNERS_TABLE, "corners_table");
    assert_eq!(SUBSET_TABLE, "subset_table");
    assert_eq!(COSET_TABLE, "coset_table");
}

#[test]
fn test_config_value() {
    assert_eq!(config_value("", "a"), None);
    assert_eq!(config_value("a", "a"), None);
    assert_eq!(config_value("a=", "a"), Some(""));
    assert_eq!(config_value("=x", ""), Some("x"));
    assert_eq!(config_value("a=b", "a"), Some("b"));
    assert_eq!(config_value("a=b", "b"), None);
    assert_eq!(config_value("  a \t=  b c \r\n", "a"), Some("b c"));
    assert_eq!(config_value("a=b=c", "a"), Some("b=c"));
    assert_eq!(config_value("a=b=c", "a=b"), None);
    // the last line that names the key decides
    assert_eq!(config_value("a=1\nb=2\na=3\n", "a"), Some("3"));
    assert_eq!(config_value("a=1\nb=2\na=3\n", "b"), Some("2"));
    assert_eq!(config_value("a=1\na\n", "a"), Some("1"));
    assert_eq!(config_value("a=1\n\n\n", "a"), Some("1"));
    // a line is not cut at a carriage return, and a key is not a part of one
    assert_eq!(config_value("a\r=1", "a"), Some("1"));
    assert_eq!(config_value("ab=1", "a"), None);
    assert_eq!(config_value("a b=1", "a b"), Some("1"));
    assert_eq!(config_value("# a=1", "a"), None);
    assert_eq!(config_value("# a=1", "# a"), Some("1"));
    // white space beyond ASCII, and other characters of more than one byte
    assert_eq!(config_value("\u{a0}\u{3000}tür\u{2003}=\u{2028}käse\u{85}\n", "tür"), Some("käse"));
    assert_eq!(config_value("a=\u{200b}b", "a"), Some("\u{200b}b"));
}

#[test]
fn test_config_value_as_std_reads_it() {
    let letters = ['a', 'b', '=', ' ', '\n', '\r', '\t', '\u{a0}', 'ä', '#'];
    let keys = ["", "a", "b", "ab", "a b", "ä", "#", "a="];
    let mut x: u64 = 2024;
    for round in 0..3000 {
        let len = round % 24;
        let mut text = String::new();
        for _ in 0..len {
            x = x.wrapping_mul(6364136223846793005).wrapping_add(1442695040888963407);
            text.push(letters[((x >> 33) % letters.len() as u64) as usize]);
        }
        for key in keys {
            assert_eq!(
                config_value(&text, key).map(|v| v.to_string()),
                value_by_std(&text, key),
                "{:?} {:?}",
                text,
                key
            );
        }
    }
}
