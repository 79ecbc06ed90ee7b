use stegano_rs::bitplane::{
    bitplane_embed, bitplane_extract, embed_lsb, embed_msb, extract_lsb, extract_msb,
    BitStrategy, BitTransform, BitplaneOptions,
};

#[test]
fn test_embed_lsb() {
    let result: u8 = embed_lsb(0b11110000, 0b00000011, 2);
    assert_eq!(result, 0b11110011);

    let result: u8 = embed_lsb(0b00001111, 0b00001010, 4);
    assert_eq!(result, 0b00001010);

    let result: u8 = embed_lsb(0b00000000, 0b10101010, 8);
    assert_eq!(result, 0b10101010);
}

#[test]
fn test_embed_msb() {
    let result = embed_msb(0b00001111, 0b00000011, 2);
    assert_eq!(result, 0b11001111);

    let result = embed_msb(0b11110000, 0b00001010, 4);
    assert_eq!(result, 0b10100000);

    let result = embed_msb(0b11111111, 0b01010101, 8);
    assert_eq!(result, 0b01010101);
}

#[test]
fn test_embed_success() {
    let mut host = vec![255, 255, 255, 255];
    let secret = vec![0b1010_1100];
    let options = BitplaneOptions {
        bits_to_operate: 2,
        embed_strategy: Some(BitStrategy::Lsb),
        extract_strategy: None,
    };

    let res = bitplane_embed(&mut host, &secret, &options);
    assert!(res.is_ok());

    let expected = vec![254, 254, 255, 252];
    assert_eq!(host, expected);
}

#[test]
fn test_bits_to_operate_zero_error() {
    let mut host = vec![0u8; 10];
    let secret = vec![0u8; 1];
    let options = BitplaneOptions {
        bits_to_operate: 0,
        embed_strategy: Some(BitStrategy::Lsb),
        extract_strategy: None,
    };

    let res = bitplane_embed(&mut host, &secret, &options);
    assert!(res.is_err());
    assert_eq!(
        res.unwrap_err(),
        "options.bits_to_operate must be between 1 and 8"
    );
}

#[test]
fn test_bits_to_operate_greater_than_8_error() {
    let mut host = vec![0u8; 10];
    let secret = vec![0u8; 1];
    let options = BitplaneOptions {
        bits_to_operate: 9,
        embed_strategy: Some(BitStrategy::Lsb),
        extract_strategy: None,
    };

    let res = bitplane_embed(&mut host, &secret, &options);
    assert!(res.is_err());
    assert_eq!(
        res.unwrap_err(),
        "options.bits_to_operate must be between 1 and 8"
    );
}

#[test]
fn test_no_embed_strategy_error() {
    let mut host = vec![0u8; 10];
    let secret = vec![0u8; 1];
    let options: BitplaneOptions<BitStrategy> = BitplaneOptions {
        bits_to_operate: 2,
        embed_strategy: None,
        extract_strategy: None,
    };

    let res = bitplane_embed(&mut host, &secret, &options);
    assert!(res.is_err());
    assert_eq!(
        res.unwrap_err(),
        "options.embed_strategy function must be provided"
    );
}

#[test]
fn test_insufficient_capacity_error() {
    let mut host = vec![0u8; 1];
    let secret = vec![0u8; 2];
    let options = BitplaneOptions {
        bits_to_operate: 2,
        embed_strategy: Some(BitStrategy::Lsb),
        extract_strategy: None,
    };

    let res = bitplane_embed(&mut host, &secret, &options);
    assert!(res.is_err());
    assert!(res
        .unwrap_err()
        .starts_with("Not enough space in host to hide the secret message"));
}

#[test]
fn test_extract_lsb() {
    assert_eq!(extract_lsb(0b0000_0001, 1), 0b1);
    assert_eq!(extract_lsb(0b0000_0101, 3), 0b101);
    assert_eq!(extract_lsb(0b0001_0101, 5), 0b10101);
    assert_eq!(extract_lsb(0b1010_1010, 8), 0b1010_1010);
}

#[test]
fn test_extract_msb() {
    assert_eq!(extract_msb(0b1000_0000, 1), 0b1);
    assert_eq!(extract_msb(0b1010_0000, 3), 0b101);
    assert_eq!(extract_msb(0b1010_1000, 5), 0b10101);
    assert_eq!(extract_msb(0b0101_0101, 8), 0b0101_0101);
}

#[test]
fn test_extract_lsb_simple() {
    let host = [0b00000101, 0b00000011];
    let options = BitplaneOptions {
        bits_to_operate: 3,
        extract_strategy: Some(BitStrategy::Lsb),
        ..BitplaneOptions::default()
    };

    let secret = bitplane_extract(&host, &options).unwrap();

    assert_eq!(secret.len(), 1);
    assert_eq!(secret[0], 0b10101100);
}

#[test]
fn test_extract_msb_simple() {
    let host = [0b10100000, 0b01100000];
    let options = BitplaneOptions {
        bits_to_operate: 3,
        extract_strategy: Some(BitStrategy::Msb),
        ..BitplaneOptions::default()
    };

    let secret = bitplane_extract(&host, &options).unwrap();

    assert_eq!(secret.len(), 1);
    assert_eq!(secret[0], 0b10101100);
}

#[test]
fn test_extract_full_byte() {
    let host = [0b10101010, 0b11001100];
    let options = BitplaneOptions {
        bits_to_operate: 8,
        extract_strategy: Some(BitStrategy::Lsb),
        ..BitplaneOptions::default()
    };

    let secret = bitplane_extract(&host, &options).unwrap();

    assert_eq!(secret.len(), 2);
    assert_eq!(secret[0], 0b10101010);
    assert_eq!(secret[1], 0b11001100);
}

#[test]
fn strategy_methods_match_free_functions() {
    assert_eq!(BitStrategy::Lsb.embed(0b11110000, 0b11, 2), 0b11110011);
    assert_eq!(BitStrategy::Msb.embed(0b00001111, 0b11, 2), 0b11001111);
    assert_eq!(BitStrategy::Lsb.extract(0b00000101, 3), 0b101);
    assert_eq!(BitStrategy::Msb.extract(0b10100000, 3), 0b101);
}

#[test]
fn transforms_keep_only_low_bits_of_payload() {
    assert_eq!(embed_lsb(0b10101010, 0b11111101, 2), 0b10101001);
    assert_eq!(embed_msb(0b10101010, 0b11111101, 2), 0b01101010);
}

#[test]
fn default_options_use_one_lsb_bit() {
    let options = BitplaneOptions::default();
    assert_eq!(options.bits_to_operate, 1);
    assert_eq!(options.embed_strategy, Some(BitStrategy::Lsb));
    assert_eq!(options.extract_strategy, Some(BitStrategy::Lsb));
}

#[test]
fn capacity_error_reports_both_bit_counts() {
    let mut host = vec![7u8; 1];
    let secret = vec![0u8; 2];
    let options = BitplaneOptions {
        bits_to_operate: 2,
        embed_strategy: Some(BitStrategy::Lsb),
        extract_strategy: None,
    };
    let res = bitplane_embed(&mut host, &secret, &options);
    assert_eq!(
        res.unwrap_err(),
        "Not enough space in host to hide the secret message: capacity=2 bits, message=16 bits"
    );
    assert_eq!(host, vec![7u8]);
}

#[test]
fn embed_msb_strategy_writes_high_bits() {
    let mut host = vec![0u8, 0, 0, 0];
    let secret = vec![0b1010_1100];
    let options = BitplaneOptions {
        bits_to_operate: 2,
        embed_strategy: Some(BitStrategy::Msb),
        extract_strategy: None,
    };
    assert!(bitplane_embed(&mut host, &secret, &options).is_ok());
    assert_eq!(host, vec![0b1000_0000, 0b1000_0000, 0b1100_0000, 0]);
}

#[test]
fn embed_stops_after_secret_and_pads_last_group() {
    // 8 bits at width 3: groups 101, 011, 00(0); the fourth byte is untouched.
    let mut host = vec![0xFFu8, 0xFF, 0xFF, 0xFF];
    let secret = vec![0b1010_1100];
    let options = BitplaneOptions {
        bits_to_operate: 3,
        embed_strategy: Some(BitStrategy::Lsb),
        extract_strategy: None,
    };
    assert!(bitplane_embed(&mut host, &secret, &options).is_ok());
    assert_eq!(host, vec![0b1111_1101, 0b1111_1011, 0b1111_1000, 0xFF]);
}

#[test]
fn embed_empty_secret_leaves_host() {
    let mut host = vec![1u8, 2, 3];
    let secret: Vec<u8> = Vec::new();
    let options = BitplaneOptions::default();
    assert!(bitplane_embed(&mut host, &secret, &options).is_ok());
    assert_eq!(host, vec![1u8, 2, 3]);
}

#[test]
fn extract_errors() {
    let host = [1u8, 2];
    let no_strategy: BitplaneOptions<BitStrategy> = BitplaneOptions {
        bits_to_operate: 2,
        embed_strategy: None,
        extract_strategy: None,
    };
    assert_eq!(
        bitplane_extract(&host, &no_strategy).unwrap_err(),
        "No extract strategy provided"
    );
    let bad_width = BitplaneOptions {
        bits_to_operate: 0,
        ..BitplaneOptions::default()
    };
    assert_eq!(
        bitplane_extract(&host, &bad_width).unwrap_err(),
        "options.bits_to_operate must be between 1 and 8"
    );
}

#[test]
fn extract_output_has_capacity_length() {
    let host = [0xFFu8; 5];
    let options = BitplaneOptions {
        bits_to_operate: 3,
        ..BitplaneOptions::default()
    };
    // 15 bits: one full byte and one padded with a zero bit.
    assert_eq!(bitplane_extract(&host, &options).unwrap(), vec![0xFF, 0xFE]);
    let empty: [u8; 0] = [];
    assert_eq!(bitplane_extract(&empty, &options).unwrap(), Vec::<u8>::new());
}

#[test]
fn round_trip_lsb_and_msb() {
    let secret = vec![0x48u8, 0x69];
    for strategy in [BitStrategy::Lsb, BitStrategy::Msb] {
        for width in 1u8..=8 {
            let mut host: Vec<u8> = (0..20u32).map(|i| (i * 37 % 256) as u8).collect();
            let options = BitplaneOptions {
                bits_to_operate: width,
                embed_strategy: Some(strategy),
                extract_strategy: Some(strategy),
            };
            assert!(bitplane_embed(&mut host, &secret, &options).is_ok());
            let out = bitplane_extract(&host, &options).unwrap();
            assert_eq!(out.len(), (20 * width as usize + 7) / 8);
            assert!(out.starts_with(&secret));
        }
    }
}
