use quarto_rs::{AllocError, VecExtra};

#[test]
fn push_and_read() {
    let mut v: VecExtra<u32> = VecExtra::new();
    assert!(v.is_empty());
    v.try_push(3).unwrap();
    v.try_push(9).unwrap();
    assert_eq!(v.len(), 2);
    assert_eq!(*v.get(1), 9);
    v.set(0, 4);
    assert_eq!(v.as_slice(), &[4, 9]);
}

#[test]
fn with_capacity_starts_empty() {
    let v: VecExtra<u8> = VecExtra::with_capacity(16).unwrap();
    assert_eq!(v.len(), 0);
}

#[test]
fn with_capacity_reports_failure() {
    let r: Result<VecExtra<u64>, AllocError> = VecExtra::with_capacity(usize::MAX);
    assert_eq!(r.err(), Some(AllocError));
}

#[test]
fn filled_from_slice_and_cloned() {
    let f = VecExtra::try_filled(7u8, 3).unwrap();
    assert_eq!(f.as_slice(), &[7, 7, 7]);
    let v = VecExtra::try_from_slice(&[1u32, 2, 3]).unwrap();
    let mut c = v.try_clone().unwrap();
    c.set(0, 10);
    assert_eq!(v.as_slice(), &[1, 2, 3]);
    assert_eq!(c.as_slice(), &[10, 2, 3]);
}

#[test]
fn byte_view_of_bytes() {
    let v = VecExtra::try_from_slice(&[0xde_u8, 0xad, 0xbe, 0xef]).unwrap();
    assert_eq!(v.as_bytes(), &[0xde, 0xad, 0xbe, 0xef]);
    let e: VecExtra<u8> = VecExtra::new();
    assert!(e.as_bytes().is_empty());
}
