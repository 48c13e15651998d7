use pop_disk_manager::text::contains;
use pop_disk_manager::text::contains_segment;
use pop_disk_manager::text::name_order;
use pop_disk_manager::text::parse_u64;
use pop_disk_manager::text::str_eq;
use pop_disk_manager::text::strip_first;
use pop_disk_manager::text::to_chars;
use pop_disk_manager::text::from_chars;
use pop_disk_manager::text::NameOrder;
use pop_disk_manager::text::Separator;

#[test]
fn decimal_numbers() {
    assert_eq!(parse_u64("0"), Some(0));
    assert_eq!(parse_u64("512"), Some(512));
    assert_eq!(parse_u64("+512"), Some(512));
    assert_eq!(parse_u64("000512"), Some(512));
    assert_eq!(parse_u64("18446744073709551615"), Some(u64::MAX));
    assert_eq!(parse_u64("18446744073709551616"), None);
    assert_eq!(parse_u64("99999999999999999999999"), None);
    assert_eq!(parse_u64(""), None);
    assert_eq!(parse_u64("+"), None);
    assert_eq!(parse_u64("-1"), None);
    assert_eq!(parse_u64("++1"), None);
    assert_eq!(parse_u64("1+"), None);
    assert_eq!(parse_u64(" 1"), None);
    assert_eq!(parse_u64("1 "), None);
    assert_eq!(parse_u64("1_000"), None);
    assert_eq!(parse_u64("12a"), None);
    assert_eq!(parse_u64("٣"), None);
}

#[test]
fn decimal_numbers_read_as_the_standard_library_reads_them() {
    for text in ["0", "7", "+7", "-7", "007", "", "+", "4k", "18446744073709551615", "18446744073709551616", " 5"] {
        assert_eq!(parse_u64(text), text.parse::<u64>().ok(), "{:?}", text);
    }
}

#[test]
fn infixes() {
    assert!(contains("/dev/loop0", "loop"));
    assert!(contains("loop", "loop"));
    assert!(contains("/dev/mapper/sloop", "loop"));
    assert!(!contains("/dev/lop0", "loop"));
    assert!(!contains("loo", "loop"));
    assert!(!contains("", "loop"));
    assert!(contains("", ""));
    assert!(contains("abc", ""));
    assert!(contains("aab", "ab"));
    assert!(contains("grüße", "üß"));
}

#[test]
fn segments_of_a_path() {
    assert!(contains_segment("/sys/devices/virtual/block/dm-0", "block"));
    assert!(contains_segment("block", "block"));
    assert!(contains_segment("block/sda", "block"));
    assert!(contains_segment("/sys/block", "block"));
    assert!(contains_segment("/sys//block/", "block"));
    assert!(!contains_segment("/sys/blocks/sda", "block"));
    assert!(!contains_segment("/sys/ablock/sda", "block"));
    assert!(!contains_segment("", "block"));
    assert!(!contains_segment("/sys/bloc/k", "block"));
}

#[test]
fn the_order_of_names() {
    assert_eq!(name_order("/dev/sda", "/dev/sdb"), NameOrder::Before);
    assert_eq!(name_order("/dev/sdb", "/dev/sda"), NameOrder::After);
    assert_eq!(name_order("/dev/sda", "/dev/sda"), NameOrder::Same);
    assert_eq!(name_order("/dev/sda", "/dev/sda1"), NameOrder::Before);
    assert_eq!(name_order("/dev/sda10", "/dev/sda2"), NameOrder::Before);
    assert_eq!(name_order("", "a"), NameOrder::Before);
    assert_eq!(name_order("", ""), NameOrder::Same);
    assert_eq!(name_order("Z", "a"), NameOrder::Before);
    assert_eq!(name_order("z", "é"), NameOrder::Before);
    for (a, b) in [("a", "b"), ("ab", "a"), ("é", "e"), ("", ""), ("dm-1", "dm-10")] {
        let expected = match a.cmp(b) {
            std::cmp::Ordering::Less => NameOrder::Before,
            std::cmp::Ordering::Equal => NameOrder::Same,
            std::cmp::Ordering::Greater => NameOrder::After,
        };
        assert_eq!(name_order(a, b), expected);
    }
}

#[test]
fn equal_texts() {
    assert!(str_eq("crypto_LUKS", "crypto_LUKS"));
    assert!(!str_eq("crypto_LUKS", "crypto_luks"));
    assert!(!str_eq("crypto_LUKS", "crypto_LUK"));
    assert!(str_eq("", ""));
}

#[test]
fn characters_and_back() {
    assert_eq!(to_chars("aé0"), vec!['a', 'é', '0']);
    assert_eq!(to_chars(""), Vec::<char>::new());
    assert_eq!(from_chars(&vec!['d', 'm', '-', '1']), "dm-1");
    assert_eq!(from_chars(&Vec::new()), "");
}

#[test]
fn the_first_stretch_with_a_prefix() {
    let text = to_chars("title Pop\noptions root=UUID=abc quiet\noptions root=UUID=def\n");
    let line = strip_first(&text, Separator::Newline, "options ").expect("a line has options");
    assert_eq!(from_chars(&line), "root=UUID=abc quiet");
    let field = strip_first(&line, Separator::Whitespace, "root=UUID=").expect("a field names the root");
    assert_eq!(from_chars(&field), "abc");
    assert!(strip_first(&text, Separator::Newline, "initrd ").is_none());
    assert!(strip_first(&to_chars("  options x"), Separator::Newline, "options ").is_none());
    let fields = to_chars("a=1\tb=2\r\nc=3 b=4");
    assert_eq!(
        strip_first(&fields, Separator::Whitespace, "b=").map(|found| from_chars(&found)),
        Some("2".to_owned())
    );
    assert_eq!(
        strip_first(&fields, Separator::Whitespace, "c=").map(|found| from_chars(&found)),
        Some("3".to_owned())
    );
    assert!(strip_first(&fields, Separator::Whitespace, "d=").is_none());
    assert!(strip_first(&to_chars(""), Separator::Whitespace, "d=").is_none());
}

#[test]
fn infixes_are_found_as_the_standard_library_finds_them() {
    let hays = ["", "loop", "/dev/loop0", "/dev/sda", "lo", "looloop", "lööp", "xlo op"];
    let needles = ["", "loop", "lo", "p", "ö", "oo", "/dev"];
    for hay in hays {
        for needle in needles {
            assert_eq!(contains(hay, needle), hay.contains(needle), "{:?} in {:?}", needle, hay);
        }
    }
}

#[test]
fn segments_are_the_components_of_the_path() {
    let paths = [
        "/sys/devices/virtual/block/dm-0",
        "/sys/block",
        "block",
        "block/",
        "/block",
        "sys//block//sda",
        "/sys/blocks/sda",
        "/sys/class/xblock",
        "",
        "/",
        "a/b/c",
    ];
    for path in paths {
        let expected =
            std::path::Path::new(path).components().any(|part| part.as_os_str() == "block");
        assert_eq!(contains_segment(path, "block"), expected, "{:?}", path);
    }
}

#[test]
fn texts_are_equal_as_the_standard_library_has_them() {
    let texts = ["", "a", "ab", "b", "crypto_LUKS", "é", "e"];
    for a in texts {
        for b in texts {
            assert_eq!(str_eq(a, b), a == b);
        }
    }
}
