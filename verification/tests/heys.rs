use cryptanalysis::heys::Block;
use cryptanalysis::heys::CipherError;
use cryptanalysis::heys::HeysCipher;
use cryptanalysis::heys::brute_force_k5;
use cryptanalysis::heys::brute_force_k5_nibbles;
use cryptanalysis::heys::last_round_only_cipher;
use cryptanalysis::heys::permutation_inverse_table;
use cryptanalysis::heys::permutation_table;
use cryptanalysis::heys::sbox_inverse_table;
use cryptanalysis::heys::sbox_table;

#[test]
fn test_cipher_correctness() {
    let cipher = HeysCipher::from_keys(&[1, 2, 3, 4, 5]).unwrap();
    for val in 0x0000u16..=0xffff {
        let pt = Block::new(val);
        let ct = cipher.encrypt(&pt);
        assert_eq!(cipher.decrypt(&ct), pt);
    }
}

#[test]
fn test_sbox() {
    let block = Block::new(0xabcd);
    assert_eq!(block.substitute(&sbox_table()), Block::new(0x6C59));
}

#[test]
fn test_permutation() {
    assert_eq!(
        Block::new(0b1111000000000000).permute(&permutation_table()),
        Block::new(0b1000100010001000)
    );
}

#[test]
fn test_inverse_tables_undo_forward_tables() {
    for val in [0x0000u16, 0x0001, 0xabcd, 0x1fe2, 0xffff] {
        let b = Block::new(val);
        assert_eq!(
            b.substitute(&sbox_table()).substitute(&sbox_inverse_table()),
            b
        );
        assert_eq!(
            b.permute(&permutation_table())
                .permute(&permutation_inverse_table()),
            b
        );
    }
}

#[test]
fn test_from_binstr_parses_value() {
    let b = Block::from_binstr("0000011100000110").unwrap();
    assert_eq!(b, Block::new(0x0706));
    assert_eq!(b.value(), 0x0706);
    // shorter strings parse as smaller values
    let short = Block::from_binstr("101").unwrap();
    assert_eq!(short, Block::new(5));
}

#[test]
fn test_from_binstr_rejects_bad_digit() {
    assert_eq!(Block::from_binstr("0000011100000a10"), Err(CipherError::Parse));
}

#[test]
fn test_from_binstr_rejects_empty() {
    assert_eq!(Block::from_binstr(""), Err(CipherError::Parse));
}

#[test]
fn test_from_binstr_rejects_overflow() {
    // 17 binary digits with a leading 1 exceed 16 bits
    assert_eq!(Block::from_binstr("10000000000000000"), Err(CipherError::Parse));
    // leading zeros above 16 digits still fit
    let b = Block::from_binstr("00000000000000000001").unwrap();
    assert_eq!(b, Block::new(1));
}

#[test]
fn test_get_bit_positions() {
    // 1-based, big-endian: location 1 is the most significant bit
    let b = Block::new(0x8001);
    assert_eq!(b.get_bit_1base(1), Ok(1));
    assert_eq!(b.get_bit_1base(2), Ok(0));
    assert_eq!(b.get_bit_1base(15), Ok(0));
    assert_eq!(b.get_bit_1base(16), Ok(1));
}

#[test]
fn test_get_bit_range_error() {
    let b = Block::new(0x1234);
    assert_eq!(b.get_bit_1base(0), Err(CipherError::Range));
    assert_eq!(b.get_bit_1base(17), Err(CipherError::Range));
}

#[test]
fn test_from_keys_arity_error() {
    assert!(HeysCipher::from_keys(&[1, 2, 3, 4, 5]).is_ok());
    assert_eq!(
        HeysCipher::from_keys(&[1, 2, 3, 4]).err(),
        Some(CipherError::Arity)
    );
    assert_eq!(
        HeysCipher::from_keys(&[1, 2, 3, 4, 5, 6]).err(),
        Some(CipherError::Arity)
    );
}

#[test]
fn test_mix_key_involution() {
    for (val, key) in [(0x0000u16, 0xffffu16), (0x1234, 0xabcd), (0xffff, 0xffff)] {
        let b = Block::new(val);
        assert_eq!(b.mix_key(key).mix_key(key), b);
    }
}

#[test]
fn test_zero_key_encryption_fixture() {
    // regression fixture: the all-zero block under the all-zero subkeys
    let cipher = HeysCipher::from_keys(&[0, 0, 0, 0, 0]).unwrap();
    let once = cipher.encrypt(&Block::new(0));
    let twice = cipher.encrypt(&Block::new(0));
    assert_eq!(once, twice);
    assert_eq!(once, Block::new(0xe0bb));
}

#[test]
fn test_check_linear_approx_single_pair() {
    // with the all-zero subkeys, the intermediate state of ciphertext 0 is
    // 0xEEEE, whose bits at locations {6, 8, 14, 16} sum to 2: even parity,
    // so the pair votes 1
    let cipher = HeysCipher::from_keys(&[0, 0, 0, 0, 0]).unwrap();
    let vote = cipher.check_linear_approx(
        &Block::new(0),
        &Block::new(0),
        &[5, 7, 8],
        &[6, 8, 14, 16],
    );
    assert_eq!(vote, 1);
}

#[test]
fn test_bias_single_pair() {
    // one pair that votes 1: c = 1, n = 1, so |2c - n| = 1 and the bias is
    // 1 / (2 * 1) = 0.5
    let cipher = HeysCipher::from_keys(&[0, 0, 0, 0, 0]).unwrap();
    let pts = [Block::new(0)];
    let cts = [Block::new(0)];
    let c = cipher.count_approx_matches(&pts, &cts, &[5, 7, 8], &[6, 8, 14, 16]);
    assert_eq!(c, 1);
    let dev = cipher.bias_deviation(&pts, &cts, &[5, 7, 8], &[6, 8, 14, 16]);
    assert_eq!(dev, 1);
}

#[test]
fn test_bias_within_range() {
    // the scaled bias never exceeds the corpus length, so the bias itself
    // lies in [0, 0.5]
    let cipher = HeysCipher::from_keys(&[7, 11, 13, 17, 19]).unwrap();
    let pts: Vec<Block> = (0u16..512).map(Block::new).collect();
    let cts: Vec<Block> = pts.iter().map(|p| cipher.encrypt(p)).collect();
    let dev = cipher.bias_deviation(&pts, &cts, &[5, 7, 8], &[6, 8, 14, 16]);
    assert!(dev <= pts.len());
    let bias: f64 = dev as f64 / (2.0 * pts.len() as f64);
    assert!(0.0 <= bias && bias <= 0.5);
}

#[test]
fn test_brute_force_recovers_subkey_nibbles() {
    // synthetic attack: encrypt a corpus under a known subkey set, then
    // rank the candidates of the two subkey nibbles that align with the
    // intermediate-state bits of the approximation from Heys' paper
    let k5: u16 = 0x9db3;
    let cipher = HeysCipher::from_keys(&[0x1a2b, 0x3c4d, 0x5e6f, 0x7081, k5]).unwrap();
    let pts: Vec<Block> = (u16::MIN..=u16::MAX).map(Block::new).collect();
    let cts: Vec<Block> = pts.iter().map(|p| cipher.encrypt(p)).collect();
    let rankings = brute_force_k5_nibbles(&pts, &cts, &[5, 7, 8], &[6, 8, 14, 16], &[0, 2]);
    assert_eq!(rankings.len(), 256);
    // the relevant nibbles of the true subkey (the others pinned to zero)
    // appear among the top-ranked candidates
    let expected: u16 = k5 & 0x0f0f;
    let pos = rankings
        .iter()
        .position(|e| e.1 == expected)
        .expect("true subkey nibbles missing from the ranking");
    assert!(pos < 5, "true subkey nibbles ranked too low: {pos}");
    // the observed bias of the true candidate is near the theoretical 1/32
    let bias: f64 = rankings[pos].0 as f64 / (2.0 * pts.len() as f64);
    assert!(bias > 0.02 && bias < 0.05, "bias not near 1/32: {bias}");
}

#[test]
fn test_restricted_search_matches_full() {
    // the nibble-restricted ranking is exactly the full ranking filtered
    // to the candidates that are zero outside those nibbles
    let cipher = HeysCipher::from_keys(&[0x1a2b, 0x3c4d, 0x5e6f, 0x7081, 0x9db3]).unwrap();
    let pts: Vec<Block> = (0u16..128).map(Block::new).collect();
    let cts: Vec<Block> = pts.iter().map(|p| cipher.encrypt(p)).collect();
    let sub = brute_force_k5_nibbles(&pts, &cts, &[5, 7, 8], &[6, 8, 14, 16], &[0, 2]);
    let full = brute_force_k5(&pts, &cts, &[5, 7, 8], &[6, 8, 14, 16]);
    assert_eq!(full.len(), 65536);
    let filtered: Vec<(usize, u16)> = full
        .iter()
        .filter(|e| e.1 & 0xf0f0 == 0)
        .cloned()
        .collect();
    assert_eq!(filtered, sub);
}

#[test]
fn test_ranking_sorted_descending() {
    let cipher = last_round_only_cipher(0x0042);
    let pts: Vec<Block> = (0u16..64).map(Block::new).collect();
    let cts: Vec<Block> = pts.iter().map(|p| cipher.encrypt(p)).collect();
    let rankings = brute_force_k5_nibbles(&pts, &cts, &[1, 4, 9, 12], &[2, 6, 10, 14], &[0]);
    assert_eq!(rankings.len(), 16);
    for w in rankings.windows(2) {
        assert!(w[0].0 > w[1].0 || (w[0].0 == w[1].0 && w[0].1 < w[1].1));
    }
}
