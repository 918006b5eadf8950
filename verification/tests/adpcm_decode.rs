use wiliplayerconvert::fwmv::adpcm;

#[test]
fn decode_single_nibble_seven_steps_up() {
    // step 7: diff = 7/8 + 7/4 + 7/2 + 7 = 0 + 1 + 3 + 7 = 11
    assert_eq!(adpcm::decode(&[0x07], 1), vec![11]);
}

#[test]
fn decode_never_yields_more_than_two_samples_per_byte() {
    assert_eq!(adpcm::decode(&[0x00, 0x00], 10).len(), 4);
    assert_eq!(adpcm::decode(&[0x00, 0x00], 3).len(), 3);
    assert_eq!(adpcm::decode(&[], 5).len(), 0);
}

#[test]
fn decode_negative_nibble_and_high_nibble() {
    // low nibble 0xF: -(0 + 1 + 3 + 7) = -11, step index 0 + 8 = 8 (step 16);
    // high nibble 0x0: +16/8 = +2 -> -9
    assert_eq!(adpcm::decode(&[0x0F], 2), vec![-11, -9]);
}

#[test]
fn decode_replays_encoder_exactly_on_a_ramp() {
    let pcm: Vec<i16> = (0..101).map(|i| (i * 300 - 15000) as i16).collect();
    let enc = adpcm::encode(&pcm);
    assert_eq!(enc.len(), 51);
    let a = adpcm::decode(&enc, pcm.len());
    let b = adpcm::decode(&enc, pcm.len());
    assert_eq!(a.len(), pcm.len());
    assert_eq!(a, b);
    // the decoder's last state is what scan_states reports at the end
    let st = adpcm::scan_states(&enc, &[enc.len()]);
    assert_eq!(st[0].0, adpcm::decode(&enc, 2 * enc.len())[2 * enc.len() - 1]);
}

#[test]
fn scan_states_matches_fresh_decode() {
    let pcm: Vec<i16> = (0..1000).map(|i| ((i as f64 * 0.2).sin() * 8000.0) as i16).collect();
    let blob = adpcm::encode(&pcm);
    let offsets = [0usize, 10, blob.len()];
    let states = adpcm::scan_states(&blob, &offsets);
    assert_eq!(states.len(), offsets.len());
    assert_eq!(states[0], (0, 0));
    // the state after 10 bytes is the predictor a fresh decode of those bytes ends on
    let fresh = adpcm::decode(&blob[..10], 20);
    assert_eq!(states[1].0, fresh[19]);
    let all = adpcm::decode(&blob, 2 * blob.len());
    assert_eq!(states[2].0, all[all.len() - 1]);
}

#[test]
fn scan_states_out_of_order_and_past_end_take_final_state() {
    let blob = adpcm::encode(&[1000, 2000, 3000, 4000, 5000, 6000]);
    let end = adpcm::scan_states(&blob, &[blob.len()])[0];
    let states = adpcm::scan_states(&blob, &[2, 1, 0, 99]);
    assert_eq!(states.len(), 4);
    assert_eq!(states[0], adpcm::scan_states(&blob, &[2])[0]);
    assert_eq!(states[1], end);
    assert_eq!(states[2], end);
    assert_eq!(states[3], end);
    assert_eq!(adpcm::scan_states(&blob, &[99])[0], end);
}

#[test]
fn encode_odd_count_leaves_high_nibble_zero() {
    let out = adpcm::encode(&[1000, 0, 1000]);
    assert_eq!(out.len(), 2);
    assert_eq!(out[1] >> 4, 0);
}
