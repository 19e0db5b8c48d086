use page_bloom_filter::hash::hash128;

#[test]
fn test_hash() {
    let expected = [
        [0x232706fc6bf50919_u64, 0x8b72ee65b4e851c7_u64],
        [0x50209687d54ec67e_u64, 0x62fe85108df1cf6d_u64],
        [0xfbe67d8368f3fb4f_u64, 0xb54a5a89706d5a5a_u64],
        [0x2882d11a5846ccfa_u64, 0x6b21b0e870109222_u64],
        [0xf5e0d56325d6d000_u64, 0xaf8703c9f9ac75e5_u64],
        [0x59a0f67b7ae7a5ad_u64, 0x84d7aeabc053b848_u64],
        [0xf01562a268e42c21_u64, 0xdfe994ab22873e7e_u64],
        [0x16133104620725dd_u64, 0xa5ca36afa7182e6a_u64],
        [0x7a9378dcdf599479_u64, 0x30f5a569a74ecdd7_u64],
        [0xd9f07bdc76c20a78_u64, 0x34f0621847f7888a_u64],
        [0x332a4fff07df83da_u64, 0xfa40557cc0ea6b72_u64],
        [0x976beeefd11659dc_u64, 0x8a3187b6a72d0039_u64],
        [0xc3fcc139e4c6832a_u64, 0xdadfeff6e01e2f2e_u64],
        [0x86130593c7746a6f_u64, 0x8ac9fb14904fe39d_u64],
        [0x70550dbe5cdde280_u64, 0xddb95757282706c0_u64],
        [0x67211fbaf6b9122d_u64, 0x68f4e8f3bbc700db_u64],
        [0xe2d06846964b80ad_u64, 0x6005068ac75c4c20_u64],
        [0xd55b3c010258ce93_u64, 0x981c8b03659d9950_u64],
        [0x5a2507daa032fa13_u64, 0x0d1c989bfc0c6cf7_u64],
        [0xaf8618678ae5cd55_u64, 0xe0b75cfad427eefc_u64],
        [0xad5a7047e8a139d8_u64, 0x183621cf988a753e_u64],
        [0x8fc110192723cd5e_u64, 0x203129f80764b844_u64],
        [0x50170b4485d7af19_u64, 0x7f2c79d145db7d35_u64],
        [0x7c32444652212bf3_u64, 0x27fd51b9156e2ad2_u64],
        [0x90e571225cce7360_u64, 0xf743b8f6f7433428_u64],
        [0x9919537c1add41e1_u64, 0x7ff0158f05b261f2_u64],
        [0x3a70a8070883029f_u64, 0xc5dcba911815d20a_u64],
        [0xcc32b418290e2879_u64, 0xbb7945d6d79b5dfb_u64],
        [0xde493e4646077aeb_u64, 0x465c2ea52660973a_u64],
        [0x4d3ad9b55316f970_u64, 0x9137e3040a7d87bb_u64],
        [0x1547de75efe848f4_u64, 0x21ae3f08b5330aac_u64],
        [0xe2ead0cc6aab6aff_u64, 0x29a20bccf77e70a7_u64],
        [0x3dc2f4a9e9b451b4_u64, 0x27de306dde7b60d2_u64],
        [0xce247654a4de9f51_u64, 0x040097e45e948d66_u64],
        [0xbc118f2ba2305503_u64, 0x810f05d0ea32853f_u64],
        [0xb55cd8bdcac2a118_u64, 0x4e93b65164705d2a_u64],
        [0xb7c97db807c32f38_u64, 0x510723230adef63d_u64],
    ];
    let key = "0123456789abcdefghijklmnopqrstuvwxyz".as_bytes();
    for i in 0..expected.len() {
        let code = hash128(&key[..i]);
        assert_eq!(code, expected[i]);
    }
}

#[test]
fn hash_is_deterministic() {
    let key = b"the same bytes, hashed twice";
    assert_eq!(hash128(key), hash128(key));
    let long: Vec<u8> = (0..200u32).map(|i| (i * 7 + 3) as u8).collect();
    assert_eq!(hash128(&long), hash128(&long.clone()));
}

#[test]
fn hash_avalanche_flips_about_half_the_bits() {
    let mut total_flips: u64 = 0;
    let mut samples: u64 = 0;
    for seed in 0..64u64 {
        let base: Vec<u8> = (0..24u64).map(|i| (seed * 31 + i * 17) as u8).collect();
        let h0 = hash128(&base);
        for bit in 0..(base.len() * 8) {
            let mut m = base.clone();
            m[bit / 8] ^= 1 << (bit % 8);
            let h1 = hash128(&m);
            total_flips += ((h0[0] ^ h1[0]).count_ones() + (h0[1] ^ h1[1]).count_ones()) as u64;
            samples += 1;
        }
    }
    let mean = total_flips as f64 / samples as f64;
    assert!(mean > 60.0 && mean < 68.0, "mean flipped bits {}", mean);
}

#[test]
fn hash_of_empty_and_block_lengths() {
    // Lengths that end exactly on a 16- or 32-byte boundary take the padding path.
    let key = "0123456789abcdefghijklmnopqrstuvwxyz".as_bytes();
    assert_eq!(hash128(&key[..0]), [0x232706fc6bf50919_u64, 0x8b72ee65b4e851c7_u64]);
    assert_eq!(hash128(&key[..16]), [0xe2d06846964b80ad_u64, 0x6005068ac75c4c20_u64]);
    assert_eq!(hash128(&key[..32]), [0x3dc2f4a9e9b451b4_u64, 0x27de306dde7b60d2_u64]);
}
