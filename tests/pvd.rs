use stegano_rs::embedding_locator::{EmbeddingLocator, LinearTraversal};
use stegano_rs::pvd::{pvd_embed, pvd_extract, PvdOptions};

#[test]
fn test_pvd_embed_success() {
    let mut host = vec![100u8, 110, 120, 130, 140, 150, 160, 170];
    let secret = b"A";
    let options = PvdOptions::default();
    let embedding_indices = vec![0, 1, 2, 3, 4, 5, 6, 7];

    let result = pvd_embed(&mut host, secret, &options, &embedding_indices);
    assert!(result.is_ok());
    assert_eq!(result.unwrap(), 8);
}

#[test]
fn test_pvd_embed_odd_number_of_indices() {
    let mut host = vec![100u8, 110, 120, 130, 140, 150, 160, 170, 140];
    let secret = b"A";
    let options = PvdOptions::default();
    let embedding_indices = vec![0, 1, 2, 3, 4, 5, 6, 7, 8];

    let result = pvd_embed(&mut host, secret, &options, &embedding_indices);
    assert!(result.is_ok());

    let bits_embedded = result.unwrap();
    assert_eq!(host[8], 140u8);
    assert!(bits_embedded >= 3);
}

#[test]
fn test_pvd_embed_failure_not_enough_space() {
    let mut host = vec![100u8, 110];
    let secret = b"AB";
    let options = PvdOptions::default();
    let embedding_indices = vec![0, 1];

    let result = pvd_embed(&mut host, secret, &options, &embedding_indices);
    assert!(result.is_err());
    println!("result: {:?}", result);
    assert!(result.err().unwrap().contains("Not enough capacity"));
}

#[test]
fn test_pvd_embed_error_empty_bins() {
    let mut host = vec![100u8, 110];
    let secret = b"X";
    let options = PvdOptions { bins: vec![] };
    let indices = vec![0, 1];
    let result = pvd_embed(&mut host, secret, &options, &indices);
    assert!(result.is_err());
    assert!(result.unwrap_err().contains("bins cannot be empty"));
}

#[test]
fn test_pvd_embed_error_diff_not_in_any_bin() {
    let mut host = vec![10u8, 250];
    let secret = b"!";
    let options = PvdOptions {
        bins: vec![(0, 1), (2, 3)],
    };
    let indices = vec![0, 1];

    let result = pvd_embed(&mut host, secret, &options, &indices);
    assert!(result.is_err());
}

#[test]
fn test_pvd_extract_empty_bins() {
    let host = vec![100, 110, 120, 130];
    let options = PvdOptions { bins: vec![] };
    let indices = vec![0, 1, 2, 3];

    let result = pvd_extract(&host, &options, &indices);
    assert!(result.is_err());
    assert_eq!(result.unwrap_err(), "options.bins cannot be empty");
}

#[test]
fn test_pvd_extract_difference_not_in_bin() {
    let options = PvdOptions {
        bins: vec![(0, 5), (6, 10)],
    };
    let host = vec![50, 30];
    let indices = vec![0, 1];

    let result = pvd_extract(&host, &options, &indices);
    assert!(result.is_err());
    assert!(result.unwrap_err().contains("does not fit any bin"));
}

#[test]
fn test_pvd_extract_success() {
    let options = PvdOptions { bins: vec![(0, 7)] };
    let host = vec![120, 116];
    let indices = vec![0, 1];

    let secret = pvd_extract(&host, &options, &indices).unwrap();
    assert_eq!(secret, vec![0x80]);
}

#[test]
fn test_pvd_extract_multiple_pairs() {
    let options = PvdOptions { bins: vec![(0, 7)] };
    let host = vec![130, 125, 140, 137];
    let indices = vec![0, 1, 2, 3];

    let secret = pvd_extract(&host, &options, &indices).unwrap();
    assert_eq!(secret, vec![0xAC]);
}

#[test]
fn test_pvd_extract_odd_number_of_indices() {
    let options = PvdOptions { bins: vec![(0, 7)] };
    let host = vec![130, 125, 140];
    let indices = vec![0, 1, 2];

    let result = pvd_extract(&host, &options, &indices);
    assert!(result.is_ok());

    let extracted = result.unwrap();
    assert_eq!(extracted, vec![0xA0]);
}

#[test]
fn default_bins_table() {
    let options = PvdOptions::default();
    assert_eq!(
        options.bins,
        vec![(0, 1), (2, 3), (4, 7), (8, 15), (16, 31), (32, 63), (64, 127), (128, 255)]
    );
}

#[test]
fn embed_with_crossed_first_pair() {
    let mut host = vec![100u8, 110, 120, 130, 140, 150, 160, 170];
    let options = PvdOptions::default();
    let indices = vec![0, 7, 2, 3, 4, 5, 6, 7];
    // (0,7): |diff| 70 holds 6 bits 010000, new difference 80 around 135;
    // (2,3): |diff| 10 holds 3 bits, the last 2 bits 01 give difference 9 around 125.
    assert_eq!(pvd_embed(&mut host, b"A", &options, &indices), Ok(8));
    assert_eq!(host, vec![95, 110, 120, 129, 140, 150, 160, 175]);
}

#[test]
fn embed_errors_report_values() {
    let mut host = vec![10u8, 250];
    let options = PvdOptions {
        bins: vec![(0, 1), (2, 3)],
    };
    assert_eq!(
        pvd_embed(&mut host, b"!", &options, &[0, 1]).unwrap_err(),
        "Difference 240 at positions idx1=0 (pixel: 10) and idx2=1 (pixel: 250) does not fit any bin"
    );
    assert_eq!(host, vec![10u8, 250]);

    let mut host = vec![100u8, 110];
    assert_eq!(
        pvd_embed(&mut host, b"AB", &PvdOptions::default(), &[0, 1]).unwrap_err(),
        "Not enough capacity to embed the full secret: embedded 3/16 bits"
    );
    // 'A' starts with 010: difference 8 + 2 = 10 around 105.
    assert_eq!(host, vec![100u8, 110]);
}

#[test]
fn extract_uncovered_message() {
    let options = PvdOptions {
        bins: vec![(0, 5), (6, 10)],
    };
    assert_eq!(
        pvd_extract(&[50, 30], &options, &[0, 1]).unwrap_err(),
        "Difference 20 at positions idx1=0 (pixel: 50) and idx2=1 (pixel: 30) does not fit any bin"
    );
}

#[test]
fn empty_bins_leave_host() {
    let mut host = vec![100u8, 110];
    let options = PvdOptions { bins: vec![] };
    assert_eq!(
        pvd_embed(&mut host, b"X", &options, &[0, 1]).unwrap_err(),
        "options.bins cannot be empty"
    );
    assert_eq!(host, vec![100u8, 110]);
}

#[test]
fn out_of_bounds_pairs_are_skipped() {
    let options = PvdOptions { bins: vec![(0, 7)] };
    assert_eq!(
        pvd_extract(&[130, 125], &options, &[0, 9, 0, 1]).unwrap(),
        vec![0xA0]
    );
    let mut host = vec![100u8, 110, 120, 130];
    let indices = vec![5, 0, 0, 1, 2, 3, 1, 2, 3, 0];
    let result = pvd_embed(&mut host, &[0b1010_0000], &PvdOptions::default(), &indices);
    assert_eq!(result, Ok(8));
}

#[test]
fn empty_secret_embeds_nothing() {
    let mut host = vec![100u8, 110, 120, 130];
    assert_eq!(pvd_embed(&mut host, &[], &PvdOptions::default(), &[0, 1, 2, 3]), Ok(0));
    assert_eq!(host, vec![100u8, 110, 120, 130]);
    assert_eq!(pvd_extract(&host, &PvdOptions::default(), &[]).unwrap(), Vec::<u8>::new());
}

#[test]
fn zero_capacity_bin_stops_embedding() {
    let mut host = vec![5u8, 5, 100, 110];
    let options = PvdOptions {
        bins: vec![(0, 0), (1, 255)],
    };
    assert_eq!(
        pvd_embed(&mut host, b"A", &options, &[0, 1, 2, 3]).unwrap_err(),
        "Not enough capacity to embed the full secret: embedded 0/8 bits"
    );
    assert_eq!(host, vec![5u8, 5, 100, 110]);
}

#[test]
fn overflow_defers_bits_to_next_pair() {
    // The pair (0, 255) holds 7 bits, 1111111, for a difference of 255 around 127: its
    // first value would become 127 - 128 = -1, so it is left alone and the same bits go
    // to the following pairs, 3 bits at a time.
    let mut host = vec![0u8, 255, 100, 110, 100, 110, 100, 110];
    let indices = vec![0, 1, 2, 3, 4, 5, 6, 7];
    assert_eq!(pvd_embed(&mut host, &[0xFF], &PvdOptions::default(), &indices), Ok(8));
    assert_eq!(host, vec![0u8, 255, 97, 112, 97, 112, 99, 110]);
}

#[test]
fn default_round_trip() {
    // Differences of 5 hold 2 bits each: the 16 bits of "Hi" fill eight pairs exactly.
    let secret = b"Hi";
    let mut host = vec![100u8, 105, 100, 105, 100, 105, 100, 105, 100, 105, 100, 105, 100, 105, 100, 105];
    let indices = LinearTraversal.iter_indices(host.len());
    let options = PvdOptions::default();
    assert_eq!(pvd_embed(&mut host, secret, &options, &indices), Ok(16));
    let out = pvd_extract(&host, &options, &indices).unwrap();
    assert_eq!(out, vec![72, 105]);
}

#[test]
fn default_round_trip_through_chosen_pairs() {
    // 4 + 5 + 5 + 2 bits, the last pair a 2-bit bin; the unused pair (6, 7) is read too.
    let secret = b"Hi";
    let mut host = vec![50u8, 80, 60, 100, 10, 50, 150, 210, 14, 58, 23, 47, 100, 104];
    let indices = vec![0, 1, 2, 3, 4, 5, 12, 13, 6, 7];
    let options = PvdOptions::default();
    assert_eq!(pvd_embed(&mut host, secret, &options, &indices), Ok(16));
    assert_eq!(host, vec![55u8, 75, 56, 104, 1, 59, 150, 210, 14, 58, 23, 47, 99, 104]);
    let out = pvd_extract(&host, &options, &indices).unwrap();
    assert_eq!(out, vec![72, 105, 224]);
    assert!(out.starts_with(secret));
}

#[test]
fn short_last_group_breaks_round_trip() {
    // Three pairs of 3 bits each take 3 + 3 + 2 bits; the last 2 bits are written as the
    // low end of a 3-bit value, so extraction reads 0 then 1 1 in their place.
    let mut host = vec![100u8, 110, 100, 110, 100, 110];
    let indices = vec![0, 1, 2, 3, 4, 5];
    let options = PvdOptions::default();
    assert_eq!(pvd_embed(&mut host, &[0xFF], &options, &indices), Ok(8));
    assert_eq!(host, vec![97u8, 112, 97, 112, 99, 110]);
    assert_eq!(pvd_extract(&host, &options, &indices).unwrap(), vec![0xFD, 0x80]);
}
