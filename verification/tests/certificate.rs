use ic_cert_time::certificate::{
    certified_time, decode_time, lookup_value, path_of_time, Certificate, Delegation,
};
use ic_cert_time::error::VerifyError;
use ic_cert_time::label::{Label, Path};
use ic_cert_time::tree::HashTree;
use ic_cert_time::varint::encode_unsigned;

fn labeled(label: &str, subtree: HashTree) -> HashTree {
    HashTree::labeled(Label::from_text(label), subtree)
}

fn certificate(tree: HashTree) -> Certificate {
    Certificate { tree, signature: vec![0xaa; 48], delegation: None }
}

fn with_time(bytes: Vec<u8>) -> Certificate {
    certificate(HashTree::fork(
        labeled("request_status", HashTree::pruned([1; 32])),
        labeled("time", HashTree::leaf(bytes)),
    ))
}

#[test]
fn the_path_of_time_has_one_label() {
    let path = path_of_time();
    assert_eq!(path, Path::from_text_segments(&["time"]));
    assert_eq!(path.label(0).as_bytes(), &[116, 105, 109, 101]);
}

#[test]
fn lookup_value_gives_the_bytes_that_are_found() {
    let cert = with_time(vec![1, 2, 3]);
    assert_eq!(lookup_value(&cert, &path_of_time()), Ok(&[1u8, 2, 3][..]));
}

#[test]
fn lookup_value_names_the_path_that_is_absent() {
    let cert = with_time(vec![1]);
    let path = Path::from_text_segments(&["zzz"]);
    assert_eq!(lookup_value(&cert, &path), Err(VerifyError::PathAbsent(path.clone())));
    let below = Path::from_text_segments(&["time", "more"]);
    assert_eq!(lookup_value(&cert, &below), Err(VerifyError::PathAbsent(below.clone())));
}

#[test]
fn lookup_value_names_the_path_that_is_unknown() {
    let cert = with_time(vec![1]);
    let path = Path::from_text_segments(&["request_status", "abc", "status"]);
    assert_eq!(lookup_value(&cert, &path), Err(VerifyError::PathUnknown(path.clone())));
}

#[test]
fn lookup_value_names_the_path_that_makes_no_sense() {
    let cert = with_time(vec![1]);
    let path = Path::new();
    assert_eq!(lookup_value(&cert, &path), Err(VerifyError::PathError(Path::new())));
    let disordered = certificate(HashTree::fork(
        labeled("time", HashTree::leaf(vec![1])),
        labeled("a", HashTree::leaf(vec![2])),
    ));
    assert_eq!(
        lookup_value(&disordered, &path_of_time()),
        Err(VerifyError::PathError(path_of_time()))
    );
}

#[test]
fn a_time_is_decoded() {
    assert_eq!(decode_time(&[0]), Ok(0));
    assert_eq!(decode_time(&[0x80, 0x94, 0xeb, 0xdc, 0x03]), Ok(1_000_000_000));
    assert_eq!(decode_time(&encode_unsigned(1_620_328_630_192_205_000)), Ok(1_620_328_630_192_205_000));
    assert_eq!(decode_time(&encode_unsigned(u64::MAX)), Ok(u64::MAX));
}

#[test]
fn what_follows_a_time_is_ignored() {
    assert_eq!(decode_time(&[0x05, 0x80, 0x80, 0x80]), Ok(5));
}

#[test]
fn a_time_that_does_not_end_is_malformed() {
    assert_eq!(decode_time(&[]), Err(VerifyError::MalformedTime { len: 0 }));
    assert_eq!(decode_time(&[0x80]), Err(VerifyError::MalformedTime { len: 1 }));
    assert_eq!(decode_time(&[0x80, 0x94, 0xeb, 0xdc]), Err(VerifyError::MalformedTime { len: 4 }));
}

#[test]
fn a_time_that_does_not_fit_is_malformed() {
    let mut bytes = vec![0xff; 9];
    bytes.push(0x02);
    assert_eq!(decode_time(&bytes), Err(VerifyError::MalformedTime { len: 10 }));
    let long = vec![0x80, 0x80, 0x80, 0x80, 0x80, 0x80, 0x80, 0x80, 0x80, 0x80, 0x00];
    assert_eq!(decode_time(&long), Err(VerifyError::MalformedTime { len: 11 }));
}

#[test]
fn the_certified_time_is_read() {
    assert_eq!(certified_time(&with_time(encode_unsigned(1_000_000_000))), Ok(1_000_000_000));
    assert_eq!(certified_time(&certificate(labeled("time", HashTree::leaf(vec![7])))), Ok(7));
}

#[test]
fn a_pruned_time_is_unknown_and_not_decoded() {
    let pruned = certificate(HashTree::fork(
        labeled("request_status", HashTree::leaf(vec![1])),
        labeled("time", HashTree::pruned([9; 32])),
    ));
    assert_eq!(certified_time(&pruned), Err(VerifyError::PathUnknown(path_of_time())));
    let all = certificate(HashTree::pruned([9; 32]));
    assert_eq!(certified_time(&all), Err(VerifyError::PathUnknown(path_of_time())));
    let hidden = certificate(HashTree::fork(
        labeled("request_status", HashTree::leaf(vec![1])),
        HashTree::pruned([9; 32]),
    ));
    assert_eq!(certified_time(&hidden), Err(VerifyError::PathUnknown(path_of_time())));
}

#[test]
fn a_missing_time_is_absent_and_no_zero() {
    let cert = certificate(labeled("request_status", HashTree::leaf(vec![1])));
    assert_eq!(certified_time(&cert), Err(VerifyError::PathAbsent(path_of_time())));
    assert_eq!(certified_time(&certificate(HashTree::empty())), Err(VerifyError::PathAbsent(path_of_time())));
}

#[test]
fn a_time_that_is_no_leaf_is_an_error() {
    let cert = certificate(labeled("time", labeled("deeper", HashTree::leaf(vec![1]))));
    assert_eq!(certified_time(&cert), Err(VerifyError::PathError(path_of_time())));
    let empty = certificate(labeled("time", HashTree::empty()));
    assert_eq!(certified_time(&empty), Err(VerifyError::PathError(path_of_time())));
}

#[test]
fn a_malformed_time_is_told_with_its_length() {
    assert_eq!(certified_time(&with_time(vec![0x80, 0x80])), Err(VerifyError::MalformedTime { len: 2 }));
    assert_eq!(certified_time(&with_time(vec![])), Err(VerifyError::MalformedTime { len: 0 }));
}

#[test]
fn the_delegation_does_not_change_the_time() {
    let mut cert = with_time(encode_unsigned(42));
    cert.delegation = Some(Delegation { subnet_id: vec![1, 2], certificate: vec![0xff] });
    assert_eq!(certified_time(&cert), Ok(42));
}
