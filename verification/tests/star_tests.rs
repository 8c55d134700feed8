use star_core::{
    AggregationServer, Client, Error, RandomnessServer, Share, Triple,
};

const EPOCH: u8 = 116;

fn measurement(v: u8) -> Vec<u8> {
    let mut bytes = vec![v; 1];
    bytes.extend(vec![0u8; 31]);
    bytes
}

fn client_for(v: u8, threshold: u32) -> Client {
    Client::new(measurement(v), threshold, EPOCH, None)
}

#[test]
fn local_randomness_is_deterministic() {
    let a = client_for(1, 2);
    let b = client_for(1, 2);
    let tag_a = a.sample_local_randomness();
    let tag_b = b.sample_local_randomness();
    assert_eq!(tag_a.len(), 32);
    assert_eq!(tag_a, tag_b);
}

#[test]
fn local_randomness_separates_measurements_and_epochs() {
    let a = client_for(1, 2);
    let b = client_for(2, 2);
    assert_ne!(a.sample_local_randomness(), b.sample_local_randomness());
    let c = Client::new(measurement(1), 2, EPOCH + 1, None);
    assert_ne!(a.sample_local_randomness(), c.sample_local_randomness());
    // The tag really is a digest, not the input handed back.
    assert_ne!(a.sample_local_randomness(), measurement(1));
}

#[test]
fn triple_carries_tag_share_and_epoch() {
    let client = client_for(3, 2);
    let triple = Triple::generate(&client, None).unwrap();
    assert_eq!(triple.epoch, EPOCH);
    assert_eq!(triple.tag.len(), 32);
    assert_eq!(triple.share.y.len(), 1);
    // The tag is deterministic per (measurement, epoch), but it is not the
    // sampled randomness itself: the dealing seed and the tag are derived
    // separately from it, and only the tag travels.
    let again = Triple::generate(&client, None).unwrap();
    assert_eq!(triple.tag, again.tag);
    assert_ne!(triple.tag, client.sample_local_randomness());
}

#[test]
fn triple_generate_rejects_ragged_measurement() {
    let client = Client::new(vec![1u8; 17], 2, EPOCH, None);
    assert_eq!(
        Triple::generate(&client, None).unwrap_err(),
        Error::InvalidEncoding
    );
}

#[test]
fn aggregation_grouping_respects_threshold() {
    // Two clients agree on one measurement, a single client holds another:
    // with threshold 2, exactly the agreed measurement is recovered.
    let threshold = 2u32;
    let triples = vec![
        Triple::generate(&client_for(7, threshold), None).unwrap(),
        Triple::generate(&client_for(7, threshold), None).unwrap(),
        Triple::generate(&client_for(9, threshold), None).unwrap(),
    ];
    let server = AggregationServer::new(threshold, EPOCH);
    let result = server.retrieve_outputs(&triples);
    assert_eq!(result.outputs.len(), 1);
    assert_eq!(result.outputs[0], measurement(7));
    assert_eq!(result.failures.len(), 0);
}

#[test]
fn aggregation_below_threshold_leaks_nothing() {
    let threshold = 3u32;
    let triples = vec![
        Triple::generate(&client_for(7, threshold), None).unwrap(),
        Triple::generate(&client_for(7, threshold), None).unwrap(),
        Triple::generate(&client_for(9, threshold), None).unwrap(),
    ];
    let server = AggregationServer::new(threshold, EPOCH);
    let result = server.retrieve_outputs(&triples);
    assert_eq!(result.outputs.len(), 0);
    assert_eq!(result.failures.len(), 0);
}

#[test]
fn aggregation_recovers_aux_payload() {
    let threshold = 2u32;
    let mut aux = vec![b'a'; 1];
    aux.extend(vec![0u8; 31]);
    let make = || {
        let client = Client::new(measurement(5), threshold, EPOCH, Some(aux.clone()));
        Triple::generate(&client, None).unwrap()
    };
    let triples = vec![make(), make()];
    let server = AggregationServer::new(threshold, EPOCH);
    let result = server.retrieve_outputs(&triples);
    assert_eq!(result.outputs.len(), 1);
    let mut expected = measurement(5);
    expected.extend(aux);
    assert_eq!(result.outputs[0], expected);
}

#[test]
fn aggregation_reports_failed_groups_per_group() {
    // One group reaches the threshold but cannot be recovered (its shares
    // disagree on length); a healthy group in the same batch still comes out.
    let threshold = 2u32;
    let good_a = Triple::generate(&client_for(4, threshold), None).unwrap();
    let good_b = Triple::generate(&client_for(4, threshold), None).unwrap();
    let broken_a = Triple::generate(&client_for(6, threshold), None).unwrap();
    let mut broken_b = Triple::generate(&client_for(6, threshold), None).unwrap();
    let extra = broken_b.share.y[0];
    broken_b.share = Share {
        x: broken_b.share.x,
        y: vec![broken_b.share.y[0], extra],
    };
    let triples = vec![good_a, good_b, broken_a, broken_b];
    let server = AggregationServer::new(threshold, EPOCH);
    let result = server.retrieve_outputs(&triples);
    assert_eq!(result.outputs.len(), 1);
    assert_eq!(result.outputs[0], measurement(4));
    assert_eq!(result.failures.len(), 1);
    assert_eq!(result.failures[0].error, Error::InconsistentShareLength);
}

#[test]
fn oprf_randomness_is_deterministic_per_server() {
    let server = RandomnessServer::create(vec![EPOCH]).unwrap();
    let client = client_for(1, 2);
    let tag_a = client.sample_oprf_randomness(&server).unwrap();
    let tag_b = client.sample_oprf_randomness(&server).unwrap();
    assert_eq!(tag_a.len(), 32);
    // Fresh blinding masks both queries; the unblinded results agree.
    assert_eq!(tag_a, tag_b);
    let other = client_for(2, 2);
    assert_ne!(tag_a, other.sample_oprf_randomness(&server).unwrap());
}

#[test]
fn oprf_eval_rejects_unknown_tag_and_bad_input() {
    let server = RandomnessServer::create(vec![EPOCH]).unwrap();
    let point = vec![0u8; 32];
    assert_eq!(
        server.eval(&point, EPOCH + 1, false).unwrap_err(),
        Error::ServiceUnavailable
    );
    assert_eq!(
        server.eval(&vec![0u8; 5], EPOCH, false).unwrap_err(),
        Error::InvalidEncoding
    );
}

#[test]
fn puncturing_an_epoch_fails_closed() {
    let mut server = RandomnessServer::create(vec![EPOCH]).unwrap();
    let client = client_for(1, 2);
    assert!(client.sample_oprf_randomness(&server).is_ok());

    server.puncture(EPOCH).unwrap();

    // Every evaluation under the punctured epoch now fails, and so does
    // every report that depends on it.
    assert_eq!(
        client.sample_oprf_randomness(&server).unwrap_err(),
        Error::EpochPunctured
    );
    assert_eq!(
        server.eval(&vec![0u8; 32], EPOCH, false).unwrap_err(),
        Error::EpochPunctured
    );
    assert_eq!(
        Triple::generate(&client, Some(&server)).unwrap_err(),
        Error::EpochPunctured
    );
    // Puncturing is one-way.
    assert_eq!(server.puncture(EPOCH).unwrap_err(), Error::EpochPunctured);
    assert_eq!(
        server.puncture(EPOCH + 1).unwrap_err(),
        Error::ServiceUnavailable
    );
}

#[test]
fn oblivious_triples_group_like_local_ones() {
    let threshold = 2u32;
    let server = RandomnessServer::create(vec![EPOCH]).unwrap();
    let make = || {
        Triple::generate(&client_for(11, threshold), Some(&server)).unwrap()
    };
    let triples = vec![make(), make()];
    assert_eq!(triples[0].tag, triples[1].tag);
    let agg = AggregationServer::new(threshold, EPOCH);
    let result = agg.retrieve_outputs(&triples);
    assert_eq!(result.outputs.len(), 1);
    assert_eq!(result.outputs[0], measurement(11));
}
