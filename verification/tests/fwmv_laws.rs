use wiliplayerconvert::fwmv::adpcm;
use wiliplayerconvert::fwmv::format::Header;
use wiliplayerconvert::fwmv::{pack, pack_fits, PackParams};

fn frames(n: usize) -> Vec<Vec<u8>> {
    (0..n).map(|i| vec![0xFF, 0xD8, i as u8, 0xFF, 0xD9]).collect()
}

#[test]
fn encode_of_even_prefix_is_prefix_of_encode() {
    let pcm: Vec<i16> = vec![1000, -2000, 300, 4000, -50, 7, 12000, -12000, 5];
    let whole = adpcm::encode(&pcm);
    for k in 0..=pcm.len() / 2 {
        let part = adpcm::encode(&pcm[..2 * k]);
        assert_eq!(part, whole[..k].to_vec());
    }
    // odd count: the high nibble of the last byte stays zero
    assert_eq!(whole.len(), 5);
    assert_eq!(whole[4] >> 4, 0);
    assert!(adpcm::encode(&[]).is_empty());
}

#[test]
fn decode_is_prefix_stable() {
    let data = [0x17u8, 0x8F, 0x33];
    let full = adpcm::decode(&data, 100);
    assert_eq!(full.len(), 6);
    for m in 0..8 {
        let part = adpcm::decode(&data, m);
        assert_eq!(part, full[..m.min(6)].to_vec());
    }
    assert!(adpcm::decode(&[], 10).is_empty());
}

#[test]
fn header_parse_then_pack_gives_back_the_bytes() {
    let mut buf = [0u8; 64];
    buf[..4].copy_from_slice(b"FWMV");
    for (i, b) in buf.iter_mut().enumerate().take(46).skip(4) {
        *b = (i * 37 % 251) as u8;
    }
    let h = Header::parse(&buf);
    assert_eq!(h.pack(), buf);
}

#[test]
fn pack_ignores_audio_rate_without_audio() {
    let fr = frames(5);
    let a = PackParams { width: 8, height: 6, fps_num: 2, fps_den: 1, audio_rate: 8000 };
    let b = PackParams { audio_rate: 22050, ..a };
    assert_eq!(pack(&fr, None, a), pack(&fr, None, b));
}

#[test]
fn pack_with_audio_reads_only_the_clip_samples() {
    let fr = frames(3);
    let p = PackParams { width: 8, height: 6, fps_num: 1, fps_den: 1, audio_rate: 2 };
    let src: Vec<i16> = vec![900, -900, 400, 100, 3000];
    let padded: Vec<i16> = vec![900, -900, 400, 100, 3000, 0];
    let longer: Vec<i16> = vec![900, -900, 400, 100, 3000, 0, 77, 88];
    let reference = pack(&fr, Some(&padded), p);
    assert_eq!(pack(&fr, Some(&src), p), reference);
    assert_eq!(pack(&fr, Some(&longer), p), reference);
}

#[test]
fn pack_fits_refuses_zero_frame_rate_terms() {
    let fr = frames(2);
    let p = PackParams { width: 1, height: 1, fps_num: 0, fps_den: 1, audio_rate: 8000 };
    assert!(!pack_fits(&fr, None, p));
    let q = PackParams { fps_num: 15, fps_den: 0, ..p };
    assert!(!pack_fits(&fr, Some(&[1, 2]), q));
}

#[test]
fn pack_fits_accepts_an_ordinary_clip() {
    let fr = frames(30);
    let p = PackParams { width: 480, height: 270, fps_num: 15, fps_den: 1, audio_rate: 16000 };
    let pcm = vec![0i16; 32000];
    assert!(pack_fits(&fr, Some(&pcm), p));
    assert!(pack_fits(&fr, None, p));
    assert!(pack_fits(&[], None, p));
}

fn read_records(s: &[u8]) -> Vec<(u16, Vec<u8>)> {
    let mut out = Vec::new();
    let mut at = 0usize;
    while at + 8 <= s.len() {
        let t = u16::from_le_bytes([s[at], s[at + 1]]);
        let size = u32::from_le_bytes([s[at + 4], s[at + 5], s[at + 6], s[at + 7]]) as usize;
        let total = 8 + size + (4 - size % 4) % 4;
        if at + total > s.len() {
            break;
        }
        out.push((t, s[at + 8..at + 8 + size].to_vec()));
        at += total;
        if t == 0xFFFF {
            break;
        }
    }
    out
}

#[test]
fn records_read_back_as_frames_then_audio_chunks_in_order() {
    let fr: Vec<Vec<u8>> = (0..4).map(|i| vec![i as u8; 3 + i]).collect();
    let p = PackParams { width: 2, height: 2, fps_num: 2, fps_den: 1, audio_rate: 5 };
    let pcm: Vec<i16> = vec![100, -200, 300, -400, 500, -600, 700, -800, 900, -1000];
    let out = pack(&fr, Some(&pcm), p);
    let recs = read_records(&out[64..]);
    let video: Vec<Vec<u8>> = recs.iter().filter(|r| r.0 == 1).map(|r| r.1.clone()).collect();
    let audio: Vec<Vec<u8>> = recs.iter().filter(|r| r.0 == 2).map(|r| r.1.clone()).collect();
    assert_eq!(video, fr);
    assert_eq!(audio.len(), 4);
    // 4 frames at 2 fps and 5 Hz: 10 samples, 5 ADPCM bytes, chunk starts 0, 1, 2, 3
    assert_eq!(audio.concat(), adpcm::encode(&pcm));
    assert_eq!(audio.iter().map(|a| a.len()).collect::<Vec<_>>(), vec![1, 1, 1, 2]);
    assert_eq!(recs.last().unwrap(), &(0xFFFF, Vec::new()));
}

#[test]
fn index_entry_audio_matches_the_records_before_its_frame() {
    let fr: Vec<Vec<u8>> = (0..6).map(|i| vec![i as u8; 2]).collect();
    let p = PackParams { width: 2, height: 2, fps_num: 2, fps_den: 1, audio_rate: 6 };
    let pcm: Vec<i16> = (0..18).map(|i| (i * 731 % 4000 - 2000) as i16).collect();
    let out = pack(&fr, Some(&pcm), p);
    let io = Header::parse(&out).index_offset as usize;
    let count = u32::from_le_bytes(out[io + 4..io + 8].try_into().unwrap()) as usize;
    assert!(count >= 2);
    let blob = adpcm::encode(&pcm);
    for k in 0..count {
        let e = &out[io + 8 + 16 * k..io + 24 + 16 * k];
        let file_offset = u32::from_le_bytes(e[4..8].try_into().unwrap()) as usize;
        let abb = u32::from_le_bytes(e[8..12].try_into().unwrap()) as usize;
        let pred = i16::from_le_bytes([e[12], e[13]]);
        let step = e[14];
        let before = read_records(&out[64..file_offset]);
        let sum: usize = before.iter().filter(|r| r.0 == 2).map(|r| r.1.len()).sum();
        assert_eq!(sum, abb);
        assert_eq!(adpcm::scan_states(&blob, &[abb]), vec![(pred, step)]);
    }
}

fn index_frames(out: &[u8]) -> Vec<u32> {
    let io = Header::parse(out).index_offset as usize;
    let count = u32::from_le_bytes(out[io + 4..io + 8].try_into().unwrap()) as usize;
    (0..count)
        .map(|k| u32::from_le_bytes(out[io + 8 + 16 * k..io + 12 + 16 * k].try_into().unwrap()))
        .collect()
}

#[test]
fn every_tick_frame_is_indexed_at_one_frame_per_second_or_more() {
    let p = PackParams { width: 1, height: 1, fps_num: 2, fps_den: 1, audio_rate: 0 };
    let out = pack(&frames(7), None, p);
    assert_eq!(index_frames(&out), vec![0, 2, 4, 6]);
    let q = PackParams { fps_num: 3, fps_den: 2, ..p };
    // ticks at ceil(j * 3 / 2): 0, 2, 3, 5
    let out = pack(&frames(6), None, q);
    assert_eq!(index_frames(&out), vec![0, 2, 3, 5]);
}

#[test]
fn slower_than_one_frame_per_second_stops_at_the_first_repeated_tick() {
    // 0.5 fps: ticks at ceil(j / 2) = 0, 1, 1, ... so the run ends after two
    let p = PackParams { width: 1, height: 1, fps_num: 1, fps_den: 2, audio_rate: 0 };
    let out = pack(&frames(5), None, p);
    assert_eq!(index_frames(&out), vec![0, 1]);
}
