use gcm_bcrypt::util::{fixed_time_eq, secure_memset};

#[test]
pub fn test_fixed_time_eq() {
    let a = [0, 1, 2];
    let b = [0, 1, 2];
    let c = [0, 1, 9];
    let d = [9, 1, 2];
    let e = [2, 1, 0];
    let f = [2, 2, 2];
    let g = [0, 0, 0];

    assert!(fixed_time_eq(&a, &a));
    assert!(fixed_time_eq(&a, &b));

    assert!(!fixed_time_eq(&a, &c));
    assert!(!fixed_time_eq(&a, &d));
    assert!(!fixed_time_eq(&a, &e));
    assert!(!fixed_time_eq(&a, &f));
    assert!(!fixed_time_eq(&a, &g));
}

#[test]
fn fixed_time_eq_lengths_and_positions() {
    assert!(fixed_time_eq(&[], &[]));
    assert!(!fixed_time_eq(&[1, 2], &[1, 2, 3]));
    assert!(!fixed_time_eq(&[], &[0]));
    let base: Vec<u8> = (0..64).collect();
    assert!(fixed_time_eq(&base, &base.clone()));
    for pos in 0..base.len() {
        let mut other = base.clone();
        other[pos] ^= 0x80;
        assert!(!fixed_time_eq(&base, &other));
        assert!(!fixed_time_eq(&other, &base));
    }
}

#[test]
fn secure_memset_overwrites_every_byte() {
    let mut buf = [1u8, 2, 3, 4, 5, 6, 7];
    secure_memset(&mut buf, 0);
    assert_eq!(buf, [0u8; 7]);
    secure_memset(&mut buf, 0x5a);
    assert_eq!(buf, [0x5au8; 7]);
    let mut empty: [u8; 0] = [];
    secure_memset(&mut empty, 9);
}
