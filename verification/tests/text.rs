use dsd::text::{begins_with, push_decimal, push_hex, push_hex8, same_text};

#[test]
fn numbers_are_written_in_their_base() {
    let mut w = String::new();
    push_hex(&mut w, 0);
    w.push(' ');
    push_hex(&mut w, 0xdeadbeef);
    w.push(' ');
    push_decimal(&mut w, 4294967295);
    w.push(' ');
    push_hex8(&mut w, 0x2077cd4);
    assert_eq!(w, "0 deadbeef 4294967295 02077cd4");
    for n in [0, 9, 10, 15, 16, 255, 256, 4096, 0x7fffffff, u32::MAX] {
        let mut w = String::new();
        push_hex(&mut w, n);
        w.push(',');
        push_decimal(&mut w, n);
        w.push(',');
        push_hex8(&mut w, n);
        assert_eq!(w, format!("{n:x},{n},{n:08x}"));
    }
}

#[test]
fn texts_are_compared_whole_and_by_prefix() {
    assert!(same_text("lsl", "lsl"));
    assert!(!same_text("lsl", "lsls"));
    assert!(!same_text("lsl", "lsr"));
    assert!(same_text("", ""));
    assert!(same_text("\u{e9}\u{4e00}", "\u{e9}\u{4e00}"));
    assert!(begins_with("@EX@02000000", "@EX@"));
    assert!(begins_with("@EX@", "@EX@"));
    assert!(!begins_with("@ET@02000000", "@EX@"));
    assert!(!begins_with("@EX", "@EX@"));
}
