use ic_cert_time::bytes::Order;
use ic_cert_time::principal::{principal_in_ranges, CanisterRange, Principal, MAX_PRINCIPAL_BYTES};

fn principal(bytes: &[u8]) -> Principal {
    Principal::from_slice(bytes).unwrap()
}

#[test]
fn a_principal_has_at_most_29_bytes() {
    assert_eq!(MAX_PRINCIPAL_BYTES, 29);
    assert!(Principal::from_slice(&[7; 29]).is_some());
    assert!(Principal::from_slice(&[7; 30]).is_none());
    assert_eq!(principal(&[]).as_slice(), b"");
    assert_eq!(principal(&[1, 2, 3]).as_slice(), &[1, 2, 3]);
}

#[test]
fn text_of_a_principal() {
    assert_eq!(principal(&[]).to_text(), "aaaaa-aa");
    assert_eq!(principal(&[0xef, 0xcd, 0xab, 0, 0, 0, 0, 0, 1]).to_text(), "2chl6-4hpzw-vqaaa-aaaaa-c");
    assert_eq!(principal(&[4]).to_text(), "2vxsx-fae");
}

#[test]
fn principal_of_a_text() {
    assert_eq!(Principal::from_text("aaaaa-aa"), Some(principal(&[])));
    assert_eq!(
        Principal::from_text("2chl6-4hpzw-vqaaa-aaaaa-c"),
        Some(principal(&[0xef, 0xcd, 0xab, 0, 0, 0, 0, 0, 1]))
    );
    assert_eq!(
        Principal::from_text("rwlgt-iiaaa-aaaaa-aaaaa-cai").unwrap().as_slice(),
        &[0, 0, 0, 0, 0, 0, 0, 0, 1, 1]
    );
}

#[test]
fn a_text_that_is_no_principal_is_refused() {
    assert_eq!(Principal::from_text(""), None);
    assert_eq!(Principal::from_text("not a principal"), None);
    // A wrong check sequence.
    assert_eq!(Principal::from_text("aaaaa-ab"), None);
    // Dashes in the wrong places.
    assert_eq!(Principal::from_text("2chl64hpzw-vqaaa-aaaaa-c"), None);
}

#[test]
fn text_and_bytes_lead_back_to_each_other() {
    for bytes in [&[][..], &[0], &[255; 29], &[0, 0, 0, 0, 0, 0x10, 0, 0, 1, 1]] {
        let p = principal(bytes);
        assert_eq!(Principal::from_text(&p.to_text()), Some(p.clone()));
        assert_eq!(p.duplicate(), p);
    }
}

#[test]
fn principals_are_ordered_byte_by_byte() {
    assert_eq!(principal(&[1, 2]).order(&principal(&[1, 2])), Order::Same);
    assert_eq!(principal(&[1, 2]).order(&principal(&[1, 3])), Order::Before);
    assert_eq!(principal(&[2]).order(&principal(&[1, 3])), Order::After);
    assert_eq!(principal(&[1]).order(&principal(&[1, 0])), Order::Before);
    assert_eq!(principal(&[]).order(&principal(&[0])), Order::Before);
}

#[test]
fn the_bounds_of_a_range_lie_in_it() {
    let low = principal(&[0, 0, 0, 0, 0, 0x10, 0, 0, 1, 1]);
    let high = principal(&[0, 0, 0, 0, 0, 0x1f, 0xff, 0xff, 1, 1]);
    let range = CanisterRange::new(low.clone(), high.clone());
    assert!(range.contains(&low));
    assert!(range.contains(&high));
    assert!(range.contains(&principal(&[0, 0, 0, 0, 0, 0x18, 0, 0, 1, 1])));
    assert_eq!(range.duplicate(), range);
}

#[test]
fn one_below_the_lower_bound_lies_outside() {
    let low = principal(&[0, 0, 0, 0, 0, 0x10, 0, 0, 1, 1]);
    let high = principal(&[0, 0, 0, 0, 0, 0x1f, 0xff, 0xff, 1, 1]);
    let range = CanisterRange::new(low, high);
    assert!(!range.contains(&principal(&[0, 0, 0, 0, 0, 0x10, 0, 0, 1, 0])));
    assert!(!range.contains(&principal(&[0, 0, 0, 0, 0, 0x0f, 0xff, 0xff, 1, 1])));
    assert!(!range.contains(&principal(&[0, 0, 0, 0, 0, 0x10, 0, 0, 1])));
    assert!(!range.contains(&principal(&[])));
}

#[test]
fn one_above_the_upper_bound_lies_outside() {
    let low = principal(&[0, 0, 0, 0, 0, 0x10, 0, 0, 1, 1]);
    let high = principal(&[0, 0, 0, 0, 0, 0x1f, 0xff, 0xff, 1, 1]);
    let range = CanisterRange::new(low, high);
    assert!(!range.contains(&principal(&[0, 0, 0, 0, 0, 0x1f, 0xff, 0xff, 1, 2])));
    assert!(!range.contains(&principal(&[0, 0, 0, 0, 0, 0x1f, 0xff, 0xff, 1, 1, 0])));
}

#[test]
fn a_range_with_its_bounds_turned_round_is_empty() {
    let range = CanisterRange::new(principal(&[9]), principal(&[1]));
    assert!(!range.contains(&principal(&[9])));
    assert!(!range.contains(&principal(&[1])));
    assert!(!range.contains(&principal(&[5])));
}

#[test]
fn a_principal_in_one_of_several_ranges() {
    let ranges = vec![
        CanisterRange::new(principal(&[1]), principal(&[2])),
        CanisterRange::new(principal(&[5]), principal(&[7])),
    ];
    assert!(principal_in_ranges(&principal(&[1]), &ranges));
    assert!(principal_in_ranges(&principal(&[6]), &ranges));
    assert!(principal_in_ranges(&principal(&[7]), &ranges));
    assert!(!principal_in_ranges(&principal(&[3]), &ranges));
    assert!(!principal_in_ranges(&principal(&[8]), &ranges));
    assert!(!principal_in_ranges(&principal(&[1]), &Vec::new()));
}
