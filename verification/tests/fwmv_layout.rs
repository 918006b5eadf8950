use wiliplayerconvert::fwmv::format::{Header, IndexEntry};
use wiliplayerconvert::fwmv::{pack, PackParams};

fn le32(b: &[u8], o: usize) -> u32 {
    u32::from_le_bytes(b[o..o + 4].try_into().unwrap())
}

fn le16(b: &[u8], o: usize) -> u16 {
    u16::from_le_bytes(b[o..o + 2].try_into().unwrap())
}

fn params() -> PackParams {
    PackParams { width: 480, height: 270, fps_num: 15, fps_den: 1, audio_rate: 16000 }
}

fn frames(n: usize) -> Vec<Vec<u8>> {
    (0..n).map(|i| vec![0xFF, 0xD8, i as u8, 0xFF, 0xD9]).collect()
}

#[test]
fn index_size_is_eight_plus_sixteen_per_entry() {
    assert_eq!(wiliplayerconvert::fwmv::format::index_size(0), 8);
    assert_eq!(wiliplayerconvert::fwmv::format::index_size(3), 56);
}

#[test]
fn header_round_trips_every_field() {
    let h = Header {
        version: 2, flags: 1, codec: 1, width: 0xFFFF, height: 1,
        fps_num: 30000, fps_den: 1001, frame_count: 0xDEADBEEF, index_offset: 7,
        data_offset: 64, audio_offset: 3, audio_codec: 1, audio_rate: 44100,
        audio_size: 0x01020304, audio_samples: 0xFFFFFFFF,
    };
    let b = h.pack();
    assert_eq!(&b[46..], &[0u8; 18]);
    let p = Header::parse(&b);
    assert_eq!((p.version, p.flags, p.codec, p.width, p.height), (2, 1, 1, 0xFFFF, 1));
    assert_eq!((p.fps_num, p.fps_den, p.frame_count, p.index_offset), (30000, 1001, 0xDEADBEEF, 7));
    assert_eq!((p.data_offset, p.audio_offset, p.audio_codec, p.audio_rate), (64, 3, 1, 44100));
    assert_eq!((p.audio_size, p.audio_samples), (0x01020304, 0xFFFFFFFF));
}

#[test]
fn pack_index_writes_entry_fields_little_endian() {
    let e = IndexEntry {
        frame_no: 0x01020304, file_offset: 0x11223344, audio_bytes_before: 5,
        adpcm_predictor: -2, adpcm_step_index: 88,
    };
    let blob = wiliplayerconvert::fwmv::format::pack_index(&[e, e]);
    assert_eq!(blob.len(), 8 + 32);
    assert_eq!(le32(&blob, 4), 2);
    assert_eq!(&blob[8..24], &[4, 3, 2, 1, 0x44, 0x33, 0x22, 0x11, 5, 0, 0, 0, 0xFE, 0xFF, 88, 0]);
}

#[test]
fn record_length_is_header_payload_and_padding() {
    for n in 0..9usize {
        let rec = wiliplayerconvert::fwmv::format::pack_record(wiliplayerconvert::fwmv::format::REC_AUDIO, &vec![7u8; n]);
        assert_eq!(rec.len() % 4, 0);
        assert_eq!(rec.len(), 8 + n + wiliplayerconvert::fwmv::format::record_padding(n));
        assert_eq!(le32(&rec, 4) as usize, n);
    }
}

#[test]
fn pack_video_only_layout() {
    let fr = frames(3);
    let out = pack(&fr, None, params());
    assert_eq!(&out[0..4], b"FWMV");
    let h = Header::parse(&out);
    assert_eq!((h.version, h.flags, h.codec, h.width, h.height), (2, 0, 1, 480, 270));
    assert_eq!((h.fps_num, h.fps_den, h.frame_count, h.data_offset), (15, 1, 3, 64));
    assert_eq!((h.audio_codec, h.audio_rate, h.audio_size, h.audio_samples), (0, 0, 0, 0));
    // three video records of 8 + 5 + 3 bytes, then END
    assert_eq!(le16(&out, 64), 1);
    assert_eq!(le32(&out, 68), 5);
    assert_eq!(&out[72..77], &fr[0][..]);
    assert_eq!(le16(&out, 64 + 3 * 16), 0xFFFF);
    let io = h.index_offset as usize;
    assert_eq!(io, 64 + 3 * 16 + 8);
    assert_eq!(&out[io..io + 4], b"FWIX");
    // one entry, for frame 0, at the first record
    assert_eq!(le32(&out, io + 4), 1);
    assert_eq!(le32(&out, io + 8), 0);
    assert_eq!(le32(&out, io + 12), 64);
    assert_eq!(out.len(), io + 8 + 16);
}

#[test]
fn pack_with_audio_interleaves_lead_in_and_chunks() {
    let p = PackParams { width: 4, height: 4, fps_num: 2, fps_den: 1, audio_rate: 8 };
    let fr = frames(4);
    let pcm: Vec<i16> = (0..100).map(|i| (i * 100) as i16).collect();
    let out = pack(&fr, Some(&pcm), p);
    let h = Header::parse(&out);
    // 4 frames at 2 fps with 8 Hz audio: 16 samples, 8 ADPCM bytes
    assert_eq!((h.flags, h.audio_codec, h.audio_rate), (1, 1, 8));
    assert_eq!((h.audio_samples, h.audio_size), (16, 8));
    // lead-in: ceil(2/1) = 2 audio chunks of 2 bytes, then video 0, audio chunk 2, ...
    let mut o = 64;
    let mut kinds = Vec::new();
    loop {
        let t = le16(&out, o);
        let len = le32(&out, o + 4) as usize;
        kinds.push((t, len));
        if t == 0xFFFF {
            break;
        }
        o += 8 + len + (4 - len % 4) % 4;
    }
    assert_eq!(kinds, vec![(2, 2), (2, 2), (1, 5), (2, 2), (1, 5), (2, 2), (1, 5), (1, 5), (0xFFFF, 0)]);
    let io = h.index_offset as usize;
    assert_eq!(io, o + 8);
    // entries at every second (every 2 frames): frames 0 and 2
    assert_eq!(le32(&out, io + 4), 2);
    assert_eq!(le32(&out, io + 8), 0);
    assert_eq!(le32(&out, io + 24), 2);
    // entry 0 follows the lead-in: 4 audio bytes sent; entry 1 after two more chunks
    assert_eq!(le32(&out, io + 16), 4);
    assert_eq!(le32(&out, io + 32), 8);
    // each entry's file offset points at a video record of that frame
    for k in 0..2 {
        let off = le32(&out, io + 12 + 16 * k) as usize;
        assert_eq!(le16(&out, off), 1);
        assert_eq!(&out[off + 8..off + 13], &fr[2 * k][..]);
    }
}

#[test]
fn pack_pads_short_audio_and_cuts_long_audio() {
    let p = PackParams { width: 1, height: 1, fps_num: 1, fps_den: 1, audio_rate: 4 };
    let fr = frames(2);
    let short = pack(&fr, Some(&[5, 5]), p);
    let long = pack(&fr, Some(&[5, 5, 0, 0, 0, 0, 0, 0, 9, 9, 9]), p);
    let padded = pack(&fr, Some(&[5, 5, 0, 0, 0, 0, 0, 0]), p);
    assert_eq!(short, padded);
    assert_eq!(long, padded);
    assert_eq!(Header::parse(&padded).audio_samples, 8);
}

#[test]
fn pack_empty_clip_is_header_end_and_empty_index() {
    let out = pack(&[], Some(&[1, 2, 3]), params());
    let h = Header::parse(&out);
    assert_eq!(h.frame_count, 0);
    assert_eq!(h.audio_size, 0);
    assert_eq!(h.index_offset, 72);
    assert_eq!(&out[72..76], b"FWIX");
    assert_eq!(out.len(), 80);
}

#[test]
fn index_holds_one_extra_entry_exactly_on_the_last_tick() {
    let p = PackParams { width: 1, height: 1, fps_num: 15, fps_den: 1, audio_rate: 0 };
    let empty: Vec<Vec<u8>> = vec![Vec::new(); 9001];
    let out = pack(&empty, None, p);
    let io = Header::parse(&out).index_offset as usize;
    assert_eq!(le32(&out, io + 4), 601);
    let out = pack(&empty[..9000], None, p);
    let io = Header::parse(&out).index_offset as usize;
    assert_eq!(le32(&out, io + 4), 600);
}

#[test]
fn index_interval_grows_for_long_clips() {
    // 1201 s at 1 fps: interval ceil(1201 / 600) = 3 s
    let p = PackParams { width: 1, height: 1, fps_num: 1, fps_den: 1, audio_rate: 0 };
    let empty: Vec<Vec<u8>> = vec![Vec::new(); 1201];
    let out = pack(&empty, None, p);
    let io = Header::parse(&out).index_offset as usize;
    assert_eq!(le32(&out, io + 4), 401);
    assert_eq!(le32(&out, io + 8 + 16), 3);
}
