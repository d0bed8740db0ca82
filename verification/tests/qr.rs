use reticle_app::qr::{Gf256, QrCode};

#[test]
fn reed_solomon_generator_matches_the_known_polynomial() {
    // The degree-7 generator polynomial's coefficients, as alpha exponents, are the
    // canonical [0, 87, 229, 146, 149, 238, 102, 21] (QR spec / Thonky table).
    let gf = Gf256::new();
    let gpoly = gf.generator(7);
    let exps: Vec<u8> = gpoly.iter().map(|&c| gf.log[c as usize]).collect();
    assert_eq!(exps, vec![0, 87, 229, 146, 149, 238, 102, 21]);
}

#[test]
fn reed_solomon_encodes_a_known_message() {
    // GF(256) multiply against a hand-checkable pair, then a round-trip length check.
    let gf = Gf256::new();
    assert_eq!(gf.mul(0, 5), 0);
    // 2 * 2 = 4 in this field (no reduction yet).
    assert_eq!(gf.mul(2, 2), 4);
    // Encoding produces exactly ec_len codewords.
    let ec = gf.reed_solomon(&[0x10, 0x20, 0x0c, 0x56], 10);
    assert_eq!(ec.len(), 10);
}

#[test]
fn format_bits_match_the_standard_for_level_l_mask_0() {
    // The published format-information string for EC level L, mask 0 is
    // 0b111011111000100 = 0x77C4.
    let data = 0b01_u32 << 3; // mask 0
    let mut rem = data;
    for _ in 0..10 {
        rem = (rem << 1) ^ ((rem >> 9) * 0x537);
    }
    let bits = ((data << 10) | rem) ^ 0x5412;
    assert_eq!(bits, 0x77C4);
}

#[test]
fn encode_picks_the_smallest_version_and_sizes_the_grid() {
    // A short link fits version 1 (21x21); "too long" returns None past version 5.
    let code = QrCode::encode(b"https://x/c.gds").expect("fits v1");
    assert_eq!(code.size(), 21);
    // Version selection climbs with length.
    let big = QrCode::encode(&[b'a'; 60]).expect("fits v4/v5");
    assert!(
        big.size() >= 33,
        "a 60-byte payload needs at least version 4"
    );
    // Beyond version 5 capacity (108 data bytes minus 2 overhead) there is no code.
    assert!(QrCode::encode(&[b'a'; 200]).is_none());
}

#[test]
fn encode_places_the_three_finder_patterns() {
    // Every QR code carries a dark 3x3 core at each of three corners; check the
    // centre module of each finder is dark.
    let code = QrCode::encode(b"https://reticle/chip.gds").expect("encodes");
    let n = code.size();
    assert!(code.module(3, 3), "top-left finder centre is dark");
    assert!(code.module(n - 4, 3), "top-right finder centre is dark");
    assert!(code.module(3, n - 4), "bottom-left finder centre is dark");
    // The timing pattern alternates; module (6,8) sits on the vertical timing line.
    assert!(code.module(6, 6), "timing origin is dark");
}

#[test]
fn dark_module_is_always_set() {
    // The fixed dark module beside the bottom-left finder is always dark.
    let code = QrCode::encode(b"abc").expect("encodes");
    assert!(code.module(8, code.size() - 8));
}

#[test]
fn reed_solomon_matches_the_hello_world_vector() {
    // The canonical 1-M "HELLO WORLD" data codewords and their ten
    // error-correction codewords.
    let gf = Gf256::new();
    let data = [32, 91, 11, 120, 209, 114, 220, 77, 67, 64, 236, 17, 236, 17, 236, 17];
    assert_eq!(
        gf.reed_solomon(&data, 10),
        vec![196, 35, 39, 119, 235, 215, 231, 226, 93, 23]
    );
}

#[test]
fn gf_multiplication_wraps_through_the_primitive_polynomial() {
    let gf = Gf256::new();
    // 2^8 reduces by 0x11d to 0x1d.
    assert_eq!(gf.mul(128, 2), 0x1d);
    assert_eq!(gf.mul(1, 77), 77);
    assert_eq!(gf.mul(77, 0), 0);
    assert_eq!(gf.exp[255], 1);
}

#[test]
fn version_thresholds_follow_the_data_capacity() {
    assert_eq!(QrCode::encode(&[b'x'; 17]).unwrap().size(), 21);
    assert_eq!(QrCode::encode(&[b'x'; 18]).unwrap().size(), 25);
    assert_eq!(QrCode::encode(&[b'x'; 32]).unwrap().size(), 25);
    assert_eq!(QrCode::encode(&[b'x'; 33]).unwrap().size(), 29);
    assert_eq!(QrCode::encode(&[b'x'; 106]).unwrap().size(), 37);
    assert!(QrCode::encode(&[b'x'; 107]).is_none());
    assert_eq!(QrCode::encode(&[]).unwrap().size(), 21);
}

#[test]
fn out_of_range_modules_read_light_and_timing_alternates() {
    let code = QrCode::encode(b"reticle").unwrap();
    let n = code.size();
    assert!(!code.module(n, 0));
    assert!(!code.module(0, n));
    for i in 8..n - 8 {
        assert_eq!(code.module(i, 6), i % 2 == 0);
        assert_eq!(code.module(6, i), i % 2 == 0);
    }
}

#[test]
fn both_format_copies_agree() {
    let code = QrCode::encode(b"https://reticle/chip.gds").unwrap();
    let n = code.size();
    let mut first = 0u32;
    let mut second = 0u32;
    for i in 0..15u32 {
        let a = match i {
            0..=5 => code.module(8, i as usize),
            6 => code.module(8, 7),
            7 => code.module(8, 8),
            8 => code.module(7, 8),
            _ => code.module(14 - i as usize, 8),
        };
        let b = if i < 8 {
            code.module(n - 1 - i as usize, 8)
        } else {
            code.module(8, n - 15 + i as usize)
        };
        first |= u32::from(a) << i;
        second |= u32::from(b) << i;
    }
    assert_eq!(first, second);
    let known = [0x77C4, 0x72F3, 0x7DAA, 0x789D, 0x662F, 0x6318, 0x6C41, 0x6976];
    assert!(known.contains(&first));
}
