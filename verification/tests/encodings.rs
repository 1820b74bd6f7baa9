use mackay::encodings::Codec;
use mackay::encodings::Composition;
use mackay::encodings::Encoder;
use mackay::encodings::Hamming74;
use mackay::encodings::RN;

#[test]
fn rn() {
    let r3 = RN::make_rn(3).unwrap();

    let cleartext1: Vec<bool> = vec![];
    let result1 = r3.encode(&cleartext1);
    assert_eq!(result1, []);
    assert_eq!(&r3.decode(&result1), &cleartext1);

    let cleartext2 = vec![true];
    let result2 = r3.encode(&cleartext2);
    assert_eq!(result2, [true, true, true]);
    assert_eq!(&r3.decode(&result2), &cleartext2);

    let cleartext3 = vec![true, false, true];
    let result3 = r3.encode(&cleartext3);
    assert_eq!(result3, [true, true, true, false, false, false, true, true, true]);
    assert_eq!(&r3.decode(&result3), &cleartext3);
    let result4 = r3.decode(&cleartext3);
    assert_eq!(result4, [true]);
}

#[test]
fn h74() {
    let h = Hamming74::make_hamming74();

    let cleartext1: Vec<bool> = vec![];
    let result1 = h.encode(&cleartext1);
    assert_eq!(result1, []);
    assert_eq!(&h.decode(&result1), &cleartext1);

    let cleartext2 = vec![true, true, true, true];
    let result2 = h.encode(&cleartext2);
    assert_eq!(result2, [true, true, true, true, true, true, true]);
    assert_eq!(&h.decode(&result2), &cleartext2);

    let cleartext3 = vec![true, false, true, false, true, false, true, false];
    let result3 = h.encode(&cleartext3);
    assert_eq!(
        result3,
        [true, false, true, false, true, false, true, true, false, true, false, true, false, true]
    );
    assert_eq!(&h.decode(&result3), &cleartext3);

    let flipped = vec![true, true, true, true, true, false, false];
    assert_eq!(h.decode(&flipped), [false, true, true, true]);
    let flipped2 = vec![true, true, true, true, false, false, false];
    assert_eq!(h.decode(&flipped2), [true, true, true, false]);
}

#[test]
fn composition() {
    let h = Codec::Hamming(Hamming74::make_hamming74());
    let r = Codec::Rn(RN::make_rn(3).unwrap());
    let mut c = Composition::make_composition();
    c.add_encoder(r);
    c.add_encoder(h);

    let cleartext1: Vec<bool> = vec![];
    let result1 = c.encode(&cleartext1);
    assert_eq!(result1, []);
}

#[test]
fn construction_validity() {
    assert!(RN::make_rn(1).is_ok());
    assert!(RN::make_rn(3).is_ok());
    assert!(RN::make_rn(255).is_ok());
    assert!(RN::make_rn(0).is_err());
    assert!(RN::make_rn(2).is_err());
    assert!(RN::make_rn(100).is_err());
}

#[test]
fn rn_threshold_edge_case() {
    // With n = 3 the vote threshold is n / 2 = 1, so one true symbol out of
    // three already decodes to true; all-false stays false.
    let r3 = RN::make_rn(3).unwrap();
    assert_eq!(r3.decode(&[false, false, true]), [true]);
    assert_eq!(r3.decode(&[false, true, false]), [true]);
    assert_eq!(r3.decode(&[false, false, false]), [false]);
}

#[test]
fn rn_alignment_mismatch_decodes_to_empty() {
    let r3 = RN::make_rn(3).unwrap();
    assert_eq!(r3.decode(&[true, true]), []);
    assert_eq!(r3.decode(&[true, true, true, true]), []);
}

#[test]
fn rn_round_trip_larger_factor() {
    let r5 = RN::make_rn(5).unwrap();
    let cleartext = vec![true, false, false, true];
    let code = r5.encode(&cleartext);
    assert_eq!(code.len(), 20);
    assert_eq!(r5.decode(&code), cleartext);

    let r1 = RN::make_rn(1).unwrap();
    let all_true = vec![true, true, true];
    assert_eq!(r1.decode(&r1.encode(&all_true)), all_true);
}

#[test]
fn h74_single_error_all_positions() {
    let h = Hamming74::make_hamming74();
    let data = vec![true, false, true, true];
    let code = h.encode(&data);
    assert_eq!(code.len(), 7);
    for p in 0..7 {
        let mut corrupted = code.clone();
        corrupted[p] = !corrupted[p];
        assert_eq!(h.decode(&corrupted), data);
    }
}

#[test]
fn h74_trailing_group_is_zero_padded() {
    let h = Hamming74::make_hamming74();
    // One data symbol: the group is padded with three false symbols before
    // the parity symbols are computed.
    assert_eq!(h.encode(&[true]), [true, false, false, false, false, true, true]);
    assert_eq!(h.decode(&h.encode(&[true])), [true, false, false, false]);
}

#[test]
fn h74_trailing_symbols_dropped_on_decode() {
    let h = Hamming74::make_hamming74();
    let mut code = h.encode(&[true, true, true, true]);
    code.push(true);
    code.push(false);
    assert_eq!(h.decode(&code), [true, true, true, true]);
}

#[test]
fn composition_round_trip() {
    let mut c = Composition::make_composition();
    c.add_encoder(Codec::Rn(RN::make_rn(3).unwrap()));
    c.add_encoder(Codec::Hamming(Hamming74::make_hamming74()));

    let cleartext = vec![true, false, true, true];
    let code = c.encode(&cleartext);
    assert_eq!(code.len(), 21);
    assert_eq!(c.decode(&code), cleartext);

    let empty: Vec<bool> = vec![];
    assert_eq!(c.decode(&c.encode(&empty)), empty);
}

#[test]
fn composition_empty_pipeline_is_identity() {
    let c = Composition::make_composition();
    let cleartext = vec![true, false];
    assert_eq!(c.encode(&cleartext), cleartext);
    assert_eq!(c.decode(&cleartext), cleartext);
}
