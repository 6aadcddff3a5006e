use icefast::Ice;

const KEY8: [u8; 8] = [0x51, 0xF3, 0x0F, 0x11, 0x04, 0x24, 0x6A, 0x00];
const KEY16: [u8; 16] = [
    0x51, 0xF3, 0x0F, 0x11, 0x04, 0x24, 0x6A, 0x00, 0x51, 0xF3, 0x0F, 0x11, 0x04, 0x24, 0x6A, 0x00,
];

fn sample(len: usize) -> Vec<u8> {
    (0..len).map(|i| (i * 31 + 7) as u8).collect()
}

fn instance(level: usize) -> Ice {
    if level == 2 {
        Ice::new(2, &KEY16)
    } else {
        Ice::new(level, &KEY8)
    }
}

#[test]
fn round_trip_all_levels_and_lengths() {
    for level in 0..3 {
        let ice = instance(level);
        for blocks in [1usize, 2, 3, 7, 8, 65, 513, 1000] {
            let plain = sample(blocks * 8);
            let mut data = plain.clone();
            ice.encrypt(&mut data);
            assert_ne!(data, plain);
            ice.decrypt(&mut data);
            assert_eq!(data, plain);
        }
    }
}

#[test]
fn round_trip_other_key() {
    let key: Vec<u8> = (0u8..24).collect();
    let ice = Ice::new(3, &key);
    let plain = sample(8 * 40);
    let mut data = plain.clone();
    ice.encrypt_auto(&mut data);
    ice.decrypt_auto(&mut data);
    assert_eq!(data, plain);
}

#[test]
fn batch_width_does_not_change_output() {
    let ice = instance(1);
    let plain = sample(8 * 64);
    let mut expected = plain.clone();
    ice.encrypt(&mut expected);

    let mut one = plain.clone();
    ice.encrypt_chunks::<1>(&mut one);
    let mut four = plain.clone();
    ice.encrypt_chunks::<4>(&mut four);
    let mut sixty_four = plain.clone();
    ice.encrypt_chunks::<64>(&mut sixty_four);
    let mut auto = plain.clone();
    ice.encrypt_auto(&mut auto);

    assert_eq!(one, expected);
    assert_eq!(four, expected);
    assert_eq!(sixty_four, expected);
    assert_eq!(auto, expected);

    let mut back = expected.clone();
    ice.decrypt_chunks::<8>(&mut back);
    assert_eq!(back, plain);
}

#[test]
fn parallel_batches_match_serial_batches() {
    let ice = instance(2);
    let plain = sample(8 * 256);
    let mut serial = plain.clone();
    ice.encrypt_chunks::<16>(&mut serial);
    let mut par = plain.clone();
    ice.encrypt_chunks_par::<16>(&mut par);
    assert_eq!(par, serial);
    assert_ne!(par, plain);
    ice.decrypt_chunks_par::<32>(&mut par);
    assert_eq!(par, plain);
}

#[test]
fn serial_and_parallel_agree_above_threshold() {
    let ice = instance(0);
    let plain = sample(65536 + 8 * 3);
    let mut serial = plain.clone();
    ice.encrypt(&mut serial);
    let mut par = plain.clone();
    ice.encrypt_par(&mut par);
    let mut auto = plain.clone();
    ice.encrypt_auto(&mut auto);
    assert_eq!(par, serial);
    assert_eq!(auto, serial);
    ice.decrypt_par(&mut par);
    assert_eq!(par, plain);
}

#[test]
fn known_answer_level0() {
    let ice = Ice::new(0, &KEY8);
    let mut one = b"abcdefgh".to_vec();
    ice.encrypt(&mut one);
    assert_eq!(one, [195, 233, 103, 103, 181, 234, 50, 163]);
    let mut two = b"abcdefghijklmnop".to_vec();
    ice.encrypt_auto(&mut two);
    assert_eq!(
        two,
        [195, 233, 103, 103, 181, 234, 50, 163, 218, 3, 22, 226, 147, 169, 252, 216]
    );
}

#[test]
fn known_answer_level2() {
    let ice = Ice::new(2, &KEY16);
    let mut data = b"abcdefgh".to_vec();
    ice.encrypt_auto(&mut data);
    assert_eq!(data, [234, 6, 99, 4, 147, 138, 221, 23]);
}

#[test]
fn tail_of_sixty_five_blocks() {
    let ice = instance(0);
    let plain = sample(65 * 8);
    let mut data = plain.clone();
    ice.encrypt_auto(&mut data);
    let mut block_by_block = plain.clone();
    ice.encrypt_chunks::<1>(&mut block_by_block);
    assert_eq!(data, block_by_block);
    ice.decrypt_auto(&mut data);
    assert_eq!(data, plain);
}

#[test]
fn blocks_are_independent() {
    let ice = instance(1);
    let mut pair = b"abcdefghabcdefgh".to_vec();
    ice.encrypt(&mut pair);
    assert_eq!(pair[0..8], pair[8..16]);
    assert_eq!(pair[0..8], [49, 188, 85, 204, 107, 67, 206, 70]);
}

#[test]
fn extra_key_bytes_are_ignored() {
    let short = Ice::new(0, &KEY8);
    let long = Ice::new(0, &KEY16);
    let mut a = sample(24);
    let mut b = sample(24);
    short.encrypt(&mut a);
    long.encrypt(&mut b);
    assert_eq!(a, b);
}

#[test]
fn schedule_lengths_follow_level() {
    assert_eq!(Ice::new(0, &KEY8).key.keysched.len(), 8);
    assert_eq!(Ice::new(1, &KEY8).key.keysched.len(), 16);
    assert_eq!(Ice::new(2, &KEY16).key.keysched.len(), 32);
}
