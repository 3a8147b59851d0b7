use rxml::common::{f_str, f_utf, padding, try_utf};

#[test]
fn test_f_str() {
    assert_eq!(f_str("test"), String::from("test"));
}

#[test]
fn test_f_utf() {
    assert_eq!(f_utf(b"test"), String::from("test"));
}

#[test]
fn test_f_utf_beyond_ascii() {
    assert_eq!(f_utf(&[0xc3, 0xa9, 0xe2, 0x82, 0xac]), "\u{e9}\u{20ac}");
    assert_eq!(f_utf(b""), "");
}

#[test]
fn test_try_utf() {
    assert_eq!(try_utf(b"ok"), Some(String::from("ok")));
    assert_eq!(try_utf(&[0xff, 0x61]), None);
    assert_eq!(try_utf(&[0xc3]), None);
}

#[test]
fn test_padding() {
    assert_eq!(padding(0), "");
    assert_eq!(padding(3), "   ");
    assert_eq!(padding(255).len(), 255);
}
