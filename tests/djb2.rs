use quarto_rs::DJB2Hasher;

#[test]
fn fresh_hasher_finishes_at_seed() {
    assert_eq!(DJB2Hasher::new().finish(), 5381);
}

#[test]
fn known_digests() {
    let mut h = DJB2Hasher::new();
    h.write(b"a");
    assert_eq!(h.finish(), 177670);
    let mut h = DJB2Hasher::new();
    h.write(b"hello");
    assert_eq!(h.finish(), 261238937);
}

#[test]
fn writes_accumulate() {
    let mut split = DJB2Hasher::new();
    split.write(b"a");
    split.write(b"b");
    let mut whole = DJB2Hasher::new();
    whole.write(b"ab");
    assert_eq!(split.finish(), 5863208);
    assert_eq!(whole.finish(), 5863208);
}

#[test]
fn single_bytes_and_seed() {
    let mut h = DJB2Hasher::with_seed(7);
    h.write_u8(1);
    h.write_u8(2);
    h.write_u8(3);
    assert_eq!(h.finish(), 252717);
}

#[test]
fn empty_write_changes_nothing() {
    let mut h = DJB2Hasher::new();
    h.write(b"");
    assert_eq!(h.finish(), 5381);
}
