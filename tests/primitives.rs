use icefast::dispatch::batch_size;
use icefast::field::{gf_exp7, gf_mult};
use icefast::sbox::{build_sboxes, ice_perm32};

#[test]
fn gf_mult_values() {
    assert_eq!(gf_mult(3, 7, 0x11b), 9);
    assert_eq!(gf_mult(0x57, 0x83, 0x11b), 0xc1);
    assert_eq!(gf_mult(200, 200, 333), 215);
    assert_eq!(gf_mult(5, 0, 333), 0);
}

#[test]
fn gf_exp7_values() {
    assert_eq!(gf_exp7(2, 333), 128);
    assert_eq!(gf_exp7(0, 333), 0);
    assert_eq!(gf_exp7(0x83, 333), 23);
}

#[test]
fn perm32_values() {
    assert_eq!(ice_perm32(0), 0);
    assert_eq!(ice_perm32(1), 0x1);
    assert_eq!(ice_perm32(2), 0x80);
    assert_eq!(ice_perm32(0xffff_ffff), 0xffff_ffff);
    assert_eq!(ice_perm32(0x1234_5678), 0x056f_2360);
}

#[test]
fn sbox_entries() {
    let s = build_sboxes();
    assert_eq!(s.len(), 4096);
    assert_eq!(s[0], 0x40842);
    assert_eq!(s[1024 + 5], 0x1802_0004);
    assert_eq!(s[2048 + 1023], 0x2401_4128);
    assert_eq!(s[3072 + 512], 0x4120_0480);
}

#[test]
fn batch_size_choice() {
    assert_eq!(batch_size(1, 512), 1);
    assert_eq!(batch_size(65, 512), 64);
    assert_eq!(batch_size(512, 512), 512);
    assert_eq!(batch_size(4000, 512), 512);
    assert_eq!(batch_size(1000, 256), 256);
    assert_eq!(batch_size(255, 256), 128);
}
