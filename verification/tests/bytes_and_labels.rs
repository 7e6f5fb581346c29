use ic_cert_time::bytes::{order_bytes, Order};
use ic_cert_time::label::{Label, Path};
use ic_cert_time::principal::Principal;

#[test]
fn order_of_equal_strings_is_same() {
    assert_eq!(order_bytes(b"abc", b"abc"), Order::Same);
    assert_eq!(order_bytes(b"", b""), Order::Same);
}

#[test]
fn a_prefix_stands_before_what_extends_it() {
    assert_eq!(order_bytes(b"ab", b"abc"), Order::Before);
    assert_eq!(order_bytes(b"abc", b"ab"), Order::After);
    assert_eq!(order_bytes(b"", b"\x00"), Order::Before);
}

#[test]
fn the_first_differing_byte_decides() {
    assert_eq!(order_bytes(b"abd", b"abcz"), Order::After);
    assert_eq!(order_bytes(b"a\x00", b"a\x01"), Order::Before);
    assert_eq!(order_bytes(&[0xff], &[0x00, 0xff]), Order::After);
}

#[test]
fn order_agrees_with_the_order_of_slices() {
    let samples: [&[u8]; 7] = [b"", b"a", b"ab", b"b", b"time", b"subnet", &[0xff, 0x00]];
    for a in samples {
        for b in samples {
            let expected = if a < b {
                Order::Before
            } else if a == b {
                Order::Same
            } else {
                Order::After
            };
            assert_eq!(order_bytes(a, b), expected);
        }
    }
}

#[test]
fn label_from_text_holds_the_utf8_bytes() {
    assert_eq!(Label::from_text("time").as_bytes(), &[116, 105, 109, 101]);
    assert_eq!(Label::from_text("é").as_bytes(), &[0xc3, 0xa9]);
    assert_eq!(Label::from_text("").as_bytes(), b"");
}

#[test]
fn label_from_bytes_holds_the_bytes() {
    assert_eq!(Label::from_bytes(&[0, 255, 7]).as_bytes(), &[0, 255, 7]);
    assert_eq!(Label::from_bytes(b"time"), Label::from_text("time"));
}

#[test]
fn label_from_principal_holds_raw_bytes_not_text() {
    let principal = Principal::from_slice(&[0xef, 0xcd, 0xab, 0, 0, 0, 0, 0, 1]).unwrap();
    let raw = Label::from_principal(&principal);
    assert_eq!(raw.as_bytes(), &[0xef, 0xcd, 0xab, 0, 0, 0, 0, 0, 1]);
    let text = Label::from_text(&principal.to_text());
    assert_ne!(raw, text);
    assert_eq!(text.as_bytes(), b"2chl6-4hpzw-vqaaa-aaaaa-c");
}

#[test]
fn path_from_text_segments_keeps_the_order() {
    let path = Path::from_text_segments(&["subnet", "x", "canister_ranges"]);
    assert_eq!(path.len(), 3);
    assert_eq!(path.label(0).as_bytes(), b"subnet");
    assert_eq!(path.label(1).as_bytes(), b"x");
    assert_eq!(path.label(2).as_bytes(), b"canister_ranges");
}

#[test]
fn path_from_labels_and_push_agree() {
    let built = Path::from_labels(vec![Label::from_text("a"), Label::from_bytes(&[1, 2])]);
    let mut pushed = Path::new();
    assert_eq!(pushed.len(), 0);
    pushed.push(Label::from_text("a"));
    pushed.push(Label::from_bytes(&[1, 2]));
    assert_eq!(built, pushed);
    assert_eq!(built.duplicate(), built);
    assert_eq!(built.label(1).duplicate().as_bytes(), &[1, 2]);
}
