use xlurm::model::{Device, Kind};
use xlurm::table::{Keys, Table};
use xlurm::text::{
    chars_of, contains_text, decimal_text, join, read_i32, read_u32, read_unsigned, replace,
    split_lines, split_words, string_of, trim, NumberError,
};

#[test]
fn numbers_read_back() {
    for n in [0, 7, 10, 4096, u64::MAX] {
        assert_eq!(decimal_text(n), n.to_string());
        assert_eq!(read_unsigned(&chars_of(&n.to_string()), u64::MAX), Ok(n));
    }
    assert_eq!(read_u32(&chars_of("+12")), Ok(12));
    assert_eq!(read_u32(&chars_of("")), Err(NumberError::Empty));
    assert_eq!(read_u32(&chars_of("+")), Err(NumberError::InvalidDigit));
    assert_eq!(read_u32(&chars_of("4294967296")), Err(NumberError::TooLarge));
    assert_eq!(read_u32(&chars_of("4294967296x")), Err(NumberError::TooLarge));
    assert_eq!(read_i32(&chars_of("-2147483648")), Ok(i32::MIN));
    assert_eq!(read_i32(&chars_of("-2147483649")), Err(NumberError::TooSmall));
}

#[test]
fn texts_split_as_lines_and_words() {
    let lines = |text: &str| -> Vec<String> {
        split_lines(&chars_of(text)).iter().map(string_of).collect()
    };
    assert_eq!(lines("a\r\nb\n\nc"), vec!["a", "b", "", "c"]);
    assert_eq!(lines("a\n"), vec!["a"]);
    assert!(lines("").is_empty());
    assert_eq!(lines("a\rb\r"), vec!["a\rb\r"]);
    let words: Vec<String> = split_words(&chars_of(" a\t b\u{a0}c "))
        .iter()
        .map(string_of)
        .collect();
    assert_eq!(words, vec!["a", "b", "c"]);
    assert_eq!(string_of(&trim(&chars_of("\u{3000} x y \n"))), "x y");
}

#[test]
fn texts_are_searched_and_replaced() {
    let text = chars_of("aaa NPU ID aa");
    assert!(contains_text(&text, "NPU ID") && contains_text(&text, ""));
    assert!(!contains_text(&text, "npu"));
    let replaced = replace(&text, &chars_of("aa"), &chars_of("b"));
    assert_eq!(string_of(&replaced), "ba NPU ID b");
    let list = vec!["x".to_string(), "y".to_string()];
    assert_eq!(join(&list, ", "), "x, y");
    assert_eq!(join(&vec![], ", "), "");
}

#[test]
fn tables_keep_the_last_value_of_a_name() {
    let mut table = Table::new();
    table.insert("a".into(), "1".into());
    table.insert("b".into(), "2".into());
    table.insert("a".into(), "3".into());
    assert_eq!(table.get(&"a".to_string()).unwrap(), "3");
    let copy = table.clone();
    table.remove("a");
    assert!(table.get(&"a".to_string()).is_none());
    assert_eq!(copy.get(&"a".to_string()).unwrap(), "3");
    let mut keys = Keys::new();
    assert!(keys.insert("k".into()));
    assert!(!keys.insert("k".into()));
    assert!(keys.contains(&"k".to_string()) && !keys.contains(&"l".to_string()));
}

#[test]
fn devices_are_known_by_vendor_and_visible_name() {
    let device = |kind: Kind, visible: &str| {
        Device {
            kind,
            id: 5,
            name: "card".into(),
            visible: visible.into(),
            npu: None,
            chip: None,
        }
        .key()
    };
    assert_eq!(device(Kind::Nvidia, "GPU-a"), "nvidia:GPU-a");
    assert_ne!(device(Kind::Nvidia, "0"), device(Kind::Ascend, "0"));
}
