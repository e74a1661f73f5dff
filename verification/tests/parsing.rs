use basic_udev::path::{append_bytes, copy_names, join, render, split};
use basic_udev::properties::parse;
use basic_udev::table::Table;
use basic_udev::text::{bytes_eq, str_eq, to_text};
use basic_udev::attributes::strip;

#[test]
fn a_line_sets_a_property() {
    let table = parse(b"DEVTYPE=disk\n");
    assert_eq!(table.get("DEVTYPE"), Some(&b"disk"[..]));
}

#[test]
fn the_last_line_needs_no_newline() {
    let table = parse(b"A=1\nB=2");
    assert_eq!(table.get("A"), Some(&b"1"[..]));
    assert_eq!(table.get("B"), Some(&b"2"[..]));
}

#[test]
fn a_line_without_equals_is_skipped() {
    let table = parse(b"junk\nA=1\n\nB=2\n");
    assert_eq!(table.get("junk"), None);
    assert_eq!(table.get(""), None);
    assert_eq!(table.get("A"), Some(&b"1"[..]));
    assert_eq!(table.get("B"), Some(&b"2"[..]));
}

#[test]
fn the_key_ends_at_the_first_equals() {
    let table = parse(b"A=b=c\n=x\nE=\n");
    assert_eq!(table.get("A"), Some(&b"b=c"[..]));
    assert_eq!(table.get(""), Some(&b"x"[..]));
    assert_eq!(table.get("E"), Some(&b""[..]));
}

#[test]
fn a_later_line_replaces_an_earlier_one() {
    let table = parse(b"A=1\nB=2\nA=3\n");
    assert_eq!(table.get("A"), Some(&b"3"[..]));
    assert_eq!(table.get("B"), Some(&b"2"[..]));
}

#[test]
fn a_carriage_return_stays_in_the_value() {
    let table = parse(b"A=1\r\nB=2\n");
    assert_eq!(table.get("A"), Some(&b"1\r"[..]));
    assert_eq!(table.get("B"), Some(&b"2"[..]));
}

#[test]
fn a_value_need_not_be_text() {
    let table = parse(b"A=\xff");
    assert_eq!(table.get("A"), Some(&b"\xff"[..]));
    let table = parse(b"A=1\nB=\xff\xfe=\xc3\nC=3\n");
    assert_eq!(table.get("A"), Some(&b"1"[..]));
    assert_eq!(table.get("B"), Some(&b"\xff\xfe=\xc3"[..]));
    assert_eq!(table.get("C"), Some(&b"3"[..]));
}

#[test]
fn a_line_whose_key_is_not_text_is_skipped() {
    let table = parse(b"A=1\n\xff=2\nC=3\n");
    assert_eq!(table.get("A"), Some(&b"1"[..]));
    assert_eq!(table.get("\u{fffd}"), None);
    assert_eq!(table.get(""), None);
    assert_eq!(table.get("C"), Some(&b"3"[..]));
    let table = parse(b"A=1\n\xc3\nC=3\n");
    assert_eq!(table.get("A"), Some(&b"1"[..]));
    assert_eq!(table.get("C"), Some(&b"3"[..]));
}

#[test]
fn keys_and_values_may_be_any_text() {
    let table = parse("cl\u{e9}=valeur \u{20ac}\n".as_bytes());
    assert_eq!(table.get("cl\u{e9}"), Some("valeur \u{20ac}".as_bytes()));
    assert_eq!(table.get("cle"), None);
}

#[test]
fn empty_content_states_nothing() {
    let table = parse(b"");
    assert_eq!(table.get("A"), None);
    let table = parse(b"\n\n");
    assert_eq!(table.get(""), None);
}

#[test]
fn table_insert_and_get() {
    let mut table = Table::new();
    assert_eq!(table.get("a"), None);
    table.insert("a".to_string(), b"1".to_vec());
    table.insert("b".to_string(), b"2".to_vec());
    assert_eq!(table.get("a"), Some(&b"1"[..]));
    assert_eq!(table.get("b"), Some(&b"2"[..]));
    table.insert("a".to_string(), b"3".to_vec());
    assert_eq!(table.get("a"), Some(&b"3"[..]));
    assert_eq!(table.get("b"), Some(&b"2"[..]));
    assert_eq!(table.get("c"), None);
}

#[test]
fn split_gives_the_names_of_a_path() {
    assert_eq!(split(b"/sys/class/block"), vec![b"sys".to_vec(), b"class".to_vec(), b"block".to_vec()]);
    assert_eq!(split(b"a//b/"), vec![b"a".to_vec(), b"b".to_vec()]);
    assert_eq!(split(b"/"), Vec::<Vec<u8>>::new());
    assert_eq!(split(b""), Vec::<Vec<u8>>::new());
    assert_eq!(split(b"./.."), vec![b".".to_vec(), b"..".to_vec()]);
}

#[test]
fn render_writes_an_absolute_path() {
    assert_eq!(render(&vec![b"sys".to_vec(), b"class".to_vec()]), b"/sys/class".to_vec());
    assert_eq!(render(&vec![b"x".to_vec()]), b"/x".to_vec());
    assert_eq!(render(&Vec::new()), b"/".to_vec());
}

#[test]
fn join_puts_one_separator_between() {
    assert_eq!(join(b"/dev", b"sda"), b"/dev/sda".to_vec());
    assert_eq!(join(b"/dev/", b"sda"), b"/dev/sda".to_vec());
    assert_eq!(join(b"", b"sda"), b"sda".to_vec());
    assert_eq!(join(b"/dev", b""), b"/dev/".to_vec());
    assert_eq!(join(b"/", b"sys"), b"/sys".to_vec());
}

#[test]
fn join_with_an_absolute_path_replaces_the_base() {
    assert_eq!(join(b"/dev", b"/run/x"), b"/run/x".to_vec());
    assert_eq!(join(b"/dev", b"/"), b"/".to_vec());
}

#[test]
fn copy_and_append() {
    let names = vec![b"a".to_vec(), b"".to_vec(), b"bc".to_vec()];
    assert_eq!(copy_names(&names), names);
    let mut out = b"ab".to_vec();
    append_bytes(&mut out, b"cd");
    assert_eq!(out, b"abcd".to_vec());
    append_bytes(&mut out, b"");
    assert_eq!(out, b"abcd".to_vec());
}

#[test]
fn byte_and_string_comparison() {
    assert!(bytes_eq(b"abc", b"abc"));
    assert!(bytes_eq(b"", b""));
    assert!(!bytes_eq(b"abc", b"abd"));
    assert!(!bytes_eq(b"abc", b"ab"));
    assert!(str_eq("block", "block"));
    assert!(!str_eq("block", "Block"));
    assert!(!str_eq("", "x"));
}

#[test]
fn text_is_valid_utf8() {
    assert_eq!(to_text(b"plain"), Some("plain".to_string()));
    assert_eq!(to_text(b""), Some(String::new()));
    assert_eq!(
        to_text("\u{e9}\u{20ac}\u{1f600}".as_bytes()),
        Some("\u{e9}\u{20ac}\u{1f600}".to_string())
    );
    assert_eq!(to_text(b"\xff"), None);
    assert_eq!(to_text(b"\xc3"), None);
    assert_eq!(to_text(b"\xed\xa0\x80"), None);
    assert_eq!(to_text(b"\xc0\x80"), None);
    assert_eq!(to_text(b"power/control"), Some("power/control".to_string()));
    assert_eq!(to_text(b"\xc3\xa9"), Some("\u{e9}".to_string()));
    assert_eq!(to_text(b"a\xffb"), None);
}

#[test]
fn strip_removes_one_newline() {
    assert_eq!(strip(b"5\n"), b"5".to_vec());
    assert_eq!(strip(b"5"), b"5".to_vec());
    assert_eq!(strip(b"5\n\n"), b"5\n".to_vec());
    assert_eq!(strip(b"\n"), b"".to_vec());
    assert_eq!(strip(b""), b"".to_vec());
    assert_eq!(strip(b"a\nb"), b"a\nb".to_vec());
}
