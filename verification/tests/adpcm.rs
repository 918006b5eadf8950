use wiliplayerconvert::fwmv::adpcm;

#[test]
fn encode_single_zero_is_one_zero_nibble() {
    assert_eq!(adpcm::encode(&[0]), vec![0x00]);
}

#[test]
fn encode_single_large_positive() {
    // predictor=0, step=7: delta 1000 sets bits 4|2|1 = 7, sign bit clear.
    assert_eq!(adpcm::encode(&[1000]), vec![0x07]);
}

#[test]
fn encode_packs_two_samples_into_one_byte() {
    // two samples -> low nibble then high nibble of a single byte.
    let out = adpcm::encode(&[1000, 0]);
    assert_eq!(out.len(), 1);
    assert_eq!(out[0] & 0x0F, 0x07); // first sample in low nibble
}

#[test]
fn decode_inverts_encode_trajectory() {
    let pcm: Vec<i16> = (0..256).map(|i| ((i as f32 * 0.2).sin() * 8000.0) as i16).collect();
    let enc = adpcm::encode(&pcm);
    let dec = adpcm::decode(&enc, pcm.len());
    assert_eq!(dec.len(), pcm.len());
    // ADPCM is lossy but tracks the signal; it stays bounded near the source.
    let max_err = pcm.iter().zip(&dec).map(|(a, b)| (*a as i32 - *b as i32).abs()).max().unwrap();
    assert!(max_err < 8000, "max_err={max_err}");
}
