use rust_examples::bigint::BigInt;

fn big(limbs: &[u32]) -> BigInt {
    BigInt { carrier: limbs.to_vec() }
}

#[test]
fn new_holds_one_limb() {
    assert_eq!(BigInt::new(5).carrier, vec![5]);
    assert_eq!(BigInt::new(0xFFFF_FFFF).carrier, vec![0xFFFF_FFFF]);
}

#[test]
fn new_large_drops_sign_limbs() {
    assert_eq!(BigInt::new_large(vec![1, 0, 0]).carrier, vec![1]);
    assert_eq!(BigInt::new_large(vec![0xFFFF_FFFF, 0xFFFF_FFFF]).carrier, vec![0xFFFF_FFFF]);
    assert_eq!(BigInt::new_large(vec![0x8000_0000, 0]).carrier, vec![0x8000_0000, 0]);
    assert_eq!(BigInt::new_large(vec![0x7FFF_FFFF, 0xFFFF_FFFF]).carrier, vec![0x7FFF_FFFF, 0xFFFF_FFFF]);
}

#[test]
fn sign_extension_repeats_the_sign() {
    assert_eq!(big(&[0xFFFF_FFFE]).sign_extension(3).carrier, vec![0xFFFF_FFFE, 0xFFFF_FFFF, 0xFFFF_FFFF]);
    assert_eq!(big(&[7]).sign_extension(2).carrier, vec![7, 0]);
    assert_eq!(big(&[7, 1]).sign_extension(1).carrier, vec![7, 1]);
}

#[test]
fn truncate_keeps_needed_limbs() {
    assert_eq!(big(&[5, 0, 0]).truncate().carrier, vec![5]);
    assert_eq!(big(&[0xFFFF_FFFF, 0xFFFF_FFFF, 0xFFFF_FFFF]).truncate().carrier, vec![0xFFFF_FFFF]);
    assert_eq!(big(&[0xFFFF_FFFF, 0]).truncate().carrier, vec![0xFFFF_FFFF, 0]);
}

#[test]
fn two_complement_negates() {
    assert_eq!(big(&[1]).two_complement().carrier, vec![0xFFFF_FFFF]);
    assert_eq!(big(&[0]).two_complement().carrier, vec![0]);
    assert_eq!(big(&[0, 1]).two_complement().carrier, vec![0, 0xFFFF_FFFF]);
    assert_eq!(big(&[0x8000_0000]).two_complement().carrier, vec![0x8000_0000]);
}

#[test]
fn add_small_values() {
    assert_eq!(BigInt::new(1).add(BigInt::new(2)).carrier, vec![3]);
    assert_eq!(BigInt::new(0xFFFF_FFFF).add(BigInt::new(1)).carrier, vec![0]);
    assert_eq!(BigInt::new(0xFFFF_FFFF).add(BigInt::new(0xFFFF_FFFF)).carrier, vec![0xFFFF_FFFE]);
}

#[test]
fn add_carries_into_new_limb() {
    assert_eq!(BigInt::new(0x7FFF_FFFF).add(BigInt::new(1)).carrier, vec![0x8000_0000, 0]);
    assert_eq!(BigInt::new(0x8000_0000).add(BigInt::new(0x8000_0000)).carrier, vec![0, 0xFFFF_FFFF]);
    assert_eq!(big(&[0xFFFF_FFFF, 0]).add(BigInt::new(1)).carrier, vec![0, 1]);
}

#[test]
fn sub_values() {
    assert_eq!(BigInt::new(5).sub(BigInt::new(3)).carrier, vec![2]);
    assert_eq!(BigInt::new(3).sub(BigInt::new(5)).carrier, vec![0xFFFF_FFFE]);
    assert_eq!(BigInt::new(0).sub(BigInt::new(0x8000_0000)).carrier, vec![0x8000_0000, 0]);
    assert_eq!(big(&[0, 1]).sub(BigInt::new(1)).carrier, vec![0xFFFF_FFFF, 0]);
}

#[test]
fn empty_carrier_stays_empty() {
    assert_eq!(big(&[]).truncate().carrier, Vec::<u32>::new());
    assert_eq!(big(&[]).two_complement().carrier, Vec::<u32>::new());
}

#[test]
fn hex_rendering() {
    let s: String = big(&[0xdead_beef, 1]).to_hex_chars().into_iter().collect();
    assert_eq!(s, "00000001deadbeef");
    let z: String = BigInt::new(0).to_hex_chars().into_iter().collect();
    assert_eq!(z, "00000000");
    assert!(big(&[]).to_hex_chars().is_empty());
}
