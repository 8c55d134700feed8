use star_core::{Error, FieldElem, Share, Sharks};

fn fe_repr(v: u8) -> Vec<u8> {
    let mut bytes = vec![v; 1];
    bytes.extend(vec![0u8; 31]);
    bytes
}

fn fp_one_repr() -> Vec<u8> {
    fe_repr(1)
}

fn fp_two_repr() -> Vec<u8> {
    fe_repr(2)
}

fn fp_three_repr() -> Vec<u8> {
    fe_repr(3)
}

fn fp_four_repr() -> Vec<u8> {
    fe_repr(4)
}

fn get_test_bytes() -> Vec<u8> {
    let suffix = vec![0u8; 31];
    let mut bytes = vec![1u8; 1];
    bytes.extend(suffix.clone()); // x coord
    bytes.extend(vec![2u8; 1]);
    bytes.extend(suffix.clone()); // y coord #1
    bytes.extend(vec![3u8; 1]);
    bytes.extend(suffix.clone()); // y coord #2
    bytes.extend(vec![4u8; 1]);
    bytes.extend(suffix); // y coord #3
    bytes
}

fn make_shares(sharks: &Sharks, secret: &Vec<u8>, count: usize) -> Vec<Share> {
    let evaluator = sharks.dealer(secret).unwrap();
    (0..count).map(|_| evaluator.gen()).collect()
}

#[test]
fn test_insufficient_shares_err() {
    let sharks = Sharks(500);
    let shares: Vec<Share> = make_shares(&sharks, &fp_one_repr(), 499);
    let secret = sharks.recover(&shares);
    assert!(secret.is_err());
}

#[test]
fn test_duplicate_shares_err() {
    let sharks = Sharks(500);
    let mut shares: Vec<Share> = make_shares(&sharks, &fp_one_repr(), 500);
    shares[1] = Share {
        x: shares[0].x,
        y: shares[0].y.clone(),
    };
    let secret = sharks.recover(&shares);
    assert!(secret.is_err());
}

#[test]
fn test_integration_works() {
    let sharks = Sharks(500);
    let mut input = Vec::new();
    input.extend(fp_one_repr());
    input.extend(fp_two_repr());
    input.extend(fp_three_repr());
    input.extend(fp_four_repr());
    let shares: Vec<Share> = make_shares(&sharks, &input, 500);
    let secret = sharks.recover(&shares).unwrap();
    assert_eq!(secret, get_test_bytes());
}

#[test]
fn test_integration_works_random() {
    let sharks = Sharks(40);
    let mut input = Vec::new();
    input.extend(fp_one_repr());
    input.extend(fp_two_repr());
    input.extend(fp_three_repr());
    input.extend(fp_four_repr());
    let evaluator = sharks.dealer(&input).unwrap();
    let shares: Vec<Share> = (0..55).map(|_| evaluator.gen()).collect();
    let secret = sharks.recover(&shares).unwrap();
    assert_eq!(secret, get_test_bytes());
}

#[test]
fn round_trip_exact_threshold() {
    let sharks = Sharks(3);
    let secret = fe_repr(42);
    let shares = make_shares(&sharks, &secret, 3);
    assert_eq!(sharks.recover(&shares).unwrap(), secret);
}

#[test]
fn any_subset_recovers_the_same_secret() {
    let sharks = Sharks(3);
    let secret = fe_repr(9);
    let shares = make_shares(&sharks, &secret, 6);
    let first: Vec<Share> = shares[0..3].to_vec();
    let second: Vec<Share> = shares[3..6].to_vec();
    assert_eq!(sharks.recover(&first).unwrap(), secret);
    assert_eq!(sharks.recover(&second).unwrap(), secret);
}

#[test]
fn interpolation_matches_hand_computation() {
    // The polynomial 3 + 2x: shares (1, 5) and (2, 7) must give back 3.
    let x1 = FieldElem::from_bytes(&fe_repr(1)).unwrap();
    let y1 = FieldElem::from_bytes(&fe_repr(5)).unwrap();
    let x2 = FieldElem::from_bytes(&fe_repr(2)).unwrap();
    let y2 = FieldElem::from_bytes(&fe_repr(7)).unwrap();
    let shares = vec![
        Share { x: x1, y: vec![y1] },
        Share { x: x2, y: vec![y2] },
    ];
    let sharks = Sharks(2);
    assert_eq!(sharks.recover(&shares).unwrap(), fe_repr(3));
}

#[test]
fn dealer_rejects_out_of_range_chunk() {
    // 32 bytes of 0xff encode a value above the group order.
    let sharks = Sharks(2);
    let secret = vec![0xffu8; 32];
    assert_eq!(sharks.dealer(&secret).unwrap_err(), Error::InvalidEncoding);
}

#[test]
fn dealer_rejects_ragged_secret() {
    let sharks = Sharks(2);
    let secret = vec![1u8; 33];
    assert_eq!(sharks.dealer(&secret).unwrap_err(), Error::InvalidEncoding);
    assert_eq!(
        sharks.dealer_rng(&vec![1u8; 31], &fe_repr(1)).unwrap_err(),
        Error::InvalidEncoding
    );
}

#[test]
fn recover_rejects_mismatched_share_lengths() {
    let sharks = Sharks(2);
    let secret = fe_repr(6);
    let mut shares = make_shares(&sharks, &secret, 2);
    let extra = shares[1].y[0];
    shares[1].y.push(extra);
    assert_eq!(
        sharks.recover(&shares).unwrap_err(),
        Error::InconsistentShareLength
    );
}

#[test]
fn recover_rejects_empty_share_set() {
    let sharks = Sharks(1);
    let shares: Vec<Share> = Vec::new();
    assert_eq!(
        sharks.recover(&shares).unwrap_err(),
        Error::InsufficientShares
    );
}

#[test]
fn duplicates_do_not_reach_the_threshold() {
    // Three shares but only two distinct points: below a threshold of 3.
    let sharks = Sharks(3);
    let secret = fe_repr(8);
    let mut shares = make_shares(&sharks, &secret, 3);
    shares[2] = Share {
        x: shares[0].x,
        y: shares[0].y.clone(),
    };
    assert_eq!(
        sharks.recover(&shares).unwrap_err(),
        Error::InsufficientShares
    );
}

#[test]
fn fresh_shares_use_fresh_points() {
    let sharks = Sharks(2);
    let evaluator = sharks.dealer(&fe_repr(1)).unwrap();
    let a = evaluator.gen();
    let b = evaluator.gen();
    assert_ne!(a.x.to_bytes(), b.x.to_bytes());
}

#[test]
fn share_serialization_round_trips() {
    let sharks = Sharks(2);
    let mut secret = fe_repr(1);
    secret.extend(fe_repr(2));
    let shares = make_shares(&sharks, &secret, 2);
    let bytes = shares[0].to_bytes();
    assert_eq!(bytes.len(), 32 * 3);
    let parsed = Share::from_bytes(&bytes).unwrap();
    assert_eq!(parsed.to_bytes(), bytes);
    let reconstructed = vec![parsed, Share::from_bytes(&shares[1].to_bytes()).unwrap()];
    assert_eq!(sharks.recover(&reconstructed).unwrap(), secret);
}

#[test]
fn share_parsing_rejects_malformed_bytes() {
    assert!(Share::from_bytes(&vec![0u8; 31]).is_none());
    assert!(Share::from_bytes(&vec![0u8; 65]).is_none());
    assert!(Share::from_bytes(&vec![0xffu8; 64]).is_none());
    assert!(Share::from_bytes(&vec![0u8; 64]).is_some());
}

#[test]
fn zero_chunk_share_serialization_round_trips() {
    // An empty secret deals shares with no evaluations; their 32-byte
    // serialization parses back.
    let sharks = Sharks(2);
    let evaluator = sharks.dealer(&Vec::new()).unwrap();
    let share = evaluator.gen();
    let bytes = share.to_bytes();
    assert_eq!(bytes.len(), 32);
    let parsed = Share::from_bytes(&bytes).unwrap();
    assert_eq!(parsed.to_bytes(), bytes);
    assert_eq!(parsed.y.len(), 0);
}

#[test]
fn field_element_decoding_is_canonical() {
    assert!(FieldElem::from_bytes(&vec![0u8; 32]).is_some());
    assert!(FieldElem::from_bytes(&vec![0xffu8; 32]).is_none());
    assert!(FieldElem::from_bytes(&vec![0u8; 31]).is_none());
    let fe = FieldElem::from_bytes(&fe_repr(200)).unwrap();
    assert_eq!(fe.to_bytes(), fe_repr(200));
}
