//! FWMV v2 writer: the header, an interleaved record stream (one second of
//! audio lead-in, then each video frame followed by the audio chunk one
//! second ahead of it), the END record and the `FWIX` seek index.
use vstd::prelude::*;
use vstd::arithmetic::div_mod::lemma_div_is_ordered;
use vstd::arithmetic::mul::lemma_mul_inequality;
use vstd::arithmetic::div_mod::{lemma_fundamental_div_mod, lemma_fundamental_div_mod_converse, lemma_mod_pos_bound};
use crate::fwmv::adpcm::{dec_state, encode_spec, scan_state, offsets_in_order};
use crate::fwmv::format::{
    IndexEntry, Header, header_bytes, index_bytes, record_bytes, REC_AUDIO, REC_VIDEO, REC_END,
    HEADER_SIZE, VERSION_V2, CODEC_MJPEG, FLAG_AUDIO, AUDIO_IMA_ADPCM, header_from_bytes,
    magic_bytes, index_magic_bytes, INDEX_MAX_ENTRIES,
};

pub mod adpcm;
pub mod format;
pub mod records;

verus! {

/// Stream parameters written to the header and used for audio pacing.
#[derive(Clone, Copy, Debug)]
pub struct PackParams {
    pub width: u16,
    pub height: u16,
    pub fps_num: u16,
    pub fps_den: u16,
    pub audio_rate: u16,
}

// ---------------------------------------------------------------------------
// Pacing model
// ---------------------------------------------------------------------------

/// Audio samples that play during the first `i` frames:
/// `floor(i * fps_den * audio_rate / fps_num)`.
pub open spec fn samples_for(i: int, p: PackParams) -> int {
    i * (p.fps_den as int) * (p.audio_rate as int) / (p.fps_num as int)
}

/// Frames in the audio lead-in: `ceil(fps_num / fps_den)`, one second.
pub open spec fn lead_spec(p: PackParams) -> int {
    (p.fps_num + p.fps_den - 1) / (p.fps_den as int)
}

/// Seconds between seek-index entries: one, or more so that a clip of
/// `n` frames needs no more than 600 entries.
pub open spec fn index_interval(n: int, p: PackParams) -> int {
    let dur = n * (p.fps_den as int) / (p.fps_num as int);
    if dur == 0 {
        1
    } else {
        let c = (dur + 599) / 600;
        if c < 1 {
            1
        } else {
            c
        }
    }
}

/// The `j`-th candidate index frame: the first frame at or after second
/// `j * index_interval`, `ceil(j * interval * fps_num / fps_den)`.
pub open spec fn entry_frame(j: int, n: int, p: PackParams) -> int {
    (j * index_interval(n, p) * (p.fps_num as int) + p.fps_den - 1) / (p.fps_den as int)
}

/// `m` candidates fall inside the clip and the next one does not.
pub open spec fn entry_count_ok(n: int, p: PackParams, m: nat) -> bool {
    &&& forall|j: int| 0 <= j < m ==> #[trigger] entry_frame(j, n, p) < n
    &&& entry_frame(m as int, n, p) >= n
}

/// The candidate index frames inside a clip of `n` frames.
pub open spec fn entry_frames_spec(n: int, p: PackParams) -> Seq<int> {
    let m = choose|m: nat| entry_count_ok(n, p, m);
    Seq::new(m, |j: int| entry_frame(j, n, p))
}

/// Start of the `i`-th audio chunk in a blob of `blob_len` bytes cut for `n`
/// frames; the last chunk runs to the end of the blob.
pub open spec fn chunk_bound(i: int, n: int, blob_len: int, p: PackParams) -> int {
    if i < n {
        samples_for(i, p) / 2
    } else {
        blob_len
    }
}

pub proof fn lemma_samples_for_mono(i: int, j: int, p: PackParams)
    requires
        0 <= i <= j,
        p.fps_num > 0,
    ensures
        0 <= samples_for(i, p) <= samples_for(j, p),
{
    let d = p.fps_den as int;
    let r = p.audio_rate as int;
    lemma_mul_inequality(i, j, d);
    lemma_mul_inequality(i * d, j * d, r);
    vstd::arithmetic::mul::lemma_mul_nonnegative(i, d);
    vstd::arithmetic::mul::lemma_mul_nonnegative(i * d, r);
    lemma_div_is_ordered(i * d * r, j * d * r, p.fps_num as int);
    vstd::arithmetic::div_mod::lemma_div_pos_is_pos(i * d * r, p.fps_num as int);
}

/// The entry count is determined: at most one `m` has the first `m`
/// candidates inside the clip and the next one outside.
pub proof fn lemma_entry_count_unique(n: int, p: PackParams, m1: nat, m2: nat)
    requires
        entry_count_ok(n, p, m1),
        entry_count_ok(n, p, m2),
    ensures
        m1 == m2,
{
    if m1 < m2 {
        assert(entry_frame(m1 as int, n, p) < n);
    } else if m2 < m1 {
        assert(entry_frame(m2 as int, n, p) < n);
    }
}

// ---------------------------------------------------------------------------
// Executable pacing helpers
// ---------------------------------------------------------------------------

fn audio_samples_for(n_frames: usize, p: &PackParams) -> (s: usize)
    requires
        p.fps_num > 0,
        n_frames * p.fps_den <= usize::MAX,
        n_frames * p.fps_den * p.audio_rate <= usize::MAX,
    ensures
        s == samples_for(n_frames as int, *p),
{
    n_frames * p.fps_den as usize * p.audio_rate as usize / p.fps_num as usize
}

fn lead_frames(p: &PackParams) -> (l: usize)
    requires
        p.fps_den > 0,
    ensures
        l == lead_spec(*p),
        l * p.fps_den >= p.fps_num,
        (l - 1) * p.fps_den < p.fps_num,
{
    proof {
        lemma_lead_spec_is_ceiling(*p);
    }
    let num = p.fps_num as usize;
    let den = p.fps_den as usize;
    (num + den - 1) / den
}

fn index_entry_frames(n: usize, p: &PackParams) -> (out: Vec<usize>)
    requires
        p.fps_num > 0,
        p.fps_den > 0,
        2 * (n * p.fps_den) + p.fps_den + p.fps_num + 600 <= usize::MAX,
    ensures
        entry_count_ok(n as int, *p, out@.len()),
        forall|j: int| 0 <= j < out@.len() ==> out@[j] == entry_frame(j, n as int, *p),
{
    let num = p.fps_num as usize;
    let den = p.fps_den as usize;
    let ghost nd = n * den;
    assert(n * den <= 2 * n * den) by (nonlinear_arith)
        requires
            n >= 0,
            den >= 0,
    ;
    let dur_s = n * den / num;
    let interval_s = if dur_s == 0 {
        1
    } else {
        let c = (dur_s + INDEX_MAX - 1) / INDEX_MAX;
        if c < 1 {
            1
        } else {
            c
        }
    };
    assert(interval_s == index_interval(n as int, *p));
    // interval * fps_num never exceeds the clip length in fps_den units (or fps_num)
    assert(interval_s * num <= nd + num) by {
        if dur_s == 0 {
        } else {
            assert(interval_s <= dur_s);
            assert(dur_s * num <= nd) by (nonlinear_arith)
                requires
                    dur_s == nd / (num as int),
                    num > 0,
                    nd >= 0,
            ;
            assert(interval_s * num <= dur_s * num) by (nonlinear_arith)
                requires
                    interval_s <= dur_s,
                    num > 0,
            ;
        }
    }
    let mut out: Vec<usize> = Vec::new();
    let mut k: usize = 0;
    assert(out@.len() * interval_s == 0) by (nonlinear_arith)
        requires
            out@.len() == 0,
    ;
    assert(interval_s * num >= 1) by (nonlinear_arith)
        requires
            interval_s >= 1,
            num >= 1,
    ;
    loop
        invariant
            num == p.fps_num,
            den == p.fps_den,
            num > 0,
            den > 0,
            nd == n * den,
            2 * nd + den + num + 600 <= usize::MAX,
            interval_s == index_interval(n as int, *p),
            interval_s >= 1,
            interval_s * num <= nd + num,
            interval_s * num >= 1,
            k == out@.len() * interval_s,
            k * num < nd + interval_s * num,
            forall|j: int| 0 <= j < out@.len() ==> out@[j] == entry_frame(j, n as int, *p),
            forall|j: int| 0 <= j < out@.len() ==> #[trigger] entry_frame(j, n as int, *p) < n,
        ensures
            entry_count_ok(n as int, *p, out@.len()),
            forall|j: int| 0 <= j < out@.len() ==> out@[j] == entry_frame(j, n as int, *p),
        decreases nd + interval_s * num - k * num,
    {
        let ghost j = out@.len();
        assert(k * num == j * interval_s * num) by (nonlinear_arith)
            requires
                k == j * interval_s,
        ;
        let fk = (k * num + den - 1) / den;
        assert(fk == entry_frame(j as int, n as int, *p));
        if fk >= n {
            break;
        }
        assert(k * num < nd) by (nonlinear_arith)
            requires
                fk == (k * num + den - 1) / (den as int),
                fk < n,
                den > 0,
                nd == n * den,
        ;
        assert(k <= k * num) by (nonlinear_arith)
            requires
                num >= 1,
        ;
        assert(interval_s <= interval_s * num) by (nonlinear_arith)
            requires
                num >= 1,
        ;
        out.push(fk);
        assert((k + interval_s) * num == k * num + interval_s * num) by (nonlinear_arith);
        assert(k + interval_s == out@.len() * interval_s) by (nonlinear_arith)
            requires
                k == j * interval_s,
                out@.len() == j + 1,
        ;
        k = k + interval_s;
    }
    out
}

const INDEX_MAX: usize = 600;

/// Cut the ADPCM blob at per-frame byte boundaries; the last chunk takes the rest.
fn audio_chunks<'a>(blob: &'a [u8], n: usize, p: &PackParams) -> (chunks: Vec<&'a [u8]>)
    requires
        p.fps_num > 0,
        n * p.fps_den <= usize::MAX,
        n * p.fps_den * p.audio_rate <= usize::MAX,
        n > 0 ==> samples_for(n - 1, *p) / 2 <= blob@.len(),
    ensures
        chunks@.len() == n,
        forall|i: int|
            0 <= i < n ==> chunks@[i]@ == blob@.subrange(
                chunk_bound(i, n as int, blob@.len() as int, *p),
                chunk_bound(i + 1, n as int, blob@.len() as int, *p),
            ),
{
    let mut chunks: Vec<&'a [u8]> = Vec::with_capacity(n);
    let mut i: usize = 0;
    while i < n
        invariant
            i <= n,
            p.fps_num > 0,
            n * p.fps_den <= usize::MAX,
            n * p.fps_den * p.audio_rate <= usize::MAX,
            n > 0 ==> samples_for(n - 1, *p) / 2 <= blob@.len(),
            chunks@.len() == i,
            forall|k: int|
                0 <= k < i ==> chunks@[k]@ == blob@.subrange(
                    chunk_bound(k, n as int, blob@.len() as int, *p),
                    chunk_bound(k + 1, n as int, blob@.len() as int, *p),
                ),
        decreases n - i,
    {
        proof {
            lemma_samples_fit(i as int, n as int, *p);
            lemma_samples_for_mono(i as int, (n - 1) as int, *p);
            lemma_samples_for_mono(i as int, (i + 1) as int, *p);
            if i + 1 < n {
                lemma_samples_fit((i + 1) as int, n as int, *p);
                lemma_samples_for_mono((i + 1) as int, (n - 1) as int, *p);
            }
        }
        let lo = audio_samples_for(i, p) / 2;
        let hi = if i + 1 < n {
            audio_samples_for(i + 1, p) / 2
        } else {
            blob.len()
        };
        chunks.push(&blob[lo..hi]);
        i = i + 1;
    }
    chunks
}

proof fn lemma_samples_fit(i: int, n: int, p: PackParams)
    requires
        0 <= i <= n,
        n * p.fps_den <= usize::MAX,
        n * p.fps_den * p.audio_rate <= usize::MAX,
    ensures
        i * p.fps_den <= usize::MAX,
        i * p.fps_den * p.audio_rate <= usize::MAX,
{
    let d = p.fps_den as int;
    let r = p.audio_rate as int;
    lemma_mul_inequality(i, n, d);
    lemma_mul_inequality(i * d, n * d, r);
}


// ---------------------------------------------------------------------------
// File model
// ---------------------------------------------------------------------------

pub open spec fn opt_view(a: Option<&[i16]>) -> Option<Seq<i16>> {
    match a {
        Some(s) => Some(s@),
        None => None,
    }
}

/// The source PCM cut or zero-padded to exactly `count` samples.
pub open spec fn padded_pcm(src: Seq<i16>, count: nat) -> Seq<i16> {
    Seq::new(count, |i: int| if i < src.len() { src[i] } else { 0i16 })
}

/// Audio samples stored: those that play during the `n` frames (none without audio).
pub open spec fn audio_sample_count(n: int, audio: Option<Seq<i16>>, p: PackParams) -> int {
    if audio is Some {
        samples_for(n, p)
    } else {
        0
    }
}

/// The ADPCM stream of the (cut or padded) audio; empty without audio.
pub open spec fn adpcm_blob(n: int, audio: Option<Seq<i16>>, p: PackParams) -> Seq<u8> {
    match audio {
        Some(src) => encode_spec(padded_pcm(src, samples_for(n, p) as nat)),
        None => Seq::empty(),
    }
}

/// The audio chunk that belongs to frame `i`.
pub open spec fn audio_chunk(i: int, n: int, audio: Option<Seq<i16>>, p: PackParams) -> Seq<u8> {
    let blob = adpcm_blob(n, audio, p);
    blob.subrange(chunk_bound(i, n, blob.len() as int, p), chunk_bound(i + 1, n, blob.len() as int, p))
}

/// Audio chunks sent ahead of the first frame: one second's worth (at most
/// the whole clip), none without audio.
pub open spec fn lead_count(n: int, audio: Option<Seq<i16>>, p: PackParams) -> int {
    if audio is Some {
        if lead_spec(p) < n {
            lead_spec(p)
        } else {
            n
        }
    } else {
        0
    }
}

/// The first `k` lead-in audio records.
pub open spec fn lead_records(frames: Seq<Vec<u8>>, audio: Option<Seq<i16>>, p: PackParams, k: nat) -> Seq<u8>
    decreases k,
{
    if k == 0 {
        Seq::empty()
    } else {
        lead_records(frames, audio, p, (k - 1) as nat) + record_bytes(
            REC_AUDIO,
            audio_chunk(k - 1, frames.len() as int, audio, p),
        )
    }
}

/// Frame `i`'s video record, followed by the audio record `lead` chunks
/// ahead of it while there is one.
pub open spec fn frame_group(frames: Seq<Vec<u8>>, audio: Option<Seq<i16>>, p: PackParams, i: int) -> Seq<u8> {
    let n = frames.len() as int;
    let j = i + lead_count(n, audio, p);
    record_bytes(REC_VIDEO, frames[i]@) + if audio is Some && j < n {
        record_bytes(REC_AUDIO, audio_chunk(j, n, audio, p))
    } else {
        Seq::empty()
    }
}

/// The groups of the first `k` frames.
pub open spec fn frame_groups(frames: Seq<Vec<u8>>, audio: Option<Seq<i16>>, p: PackParams, k: nat) -> Seq<u8>
    decreases k,
{
    if k == 0 {
        Seq::empty()
    } else {
        frame_groups(frames, audio, p, (k - 1) as nat) + frame_group(frames, audio, p, k - 1)
    }
}

/// The record stream written before frame `i`'s video record.
pub open spec fn stream_before(frames: Seq<Vec<u8>>, audio: Option<Seq<i16>>, p: PackParams, i: int) -> Seq<u8> {
    lead_records(frames, audio, p, lead_count(frames.len() as int, audio, p) as nat)
        + frame_groups(frames, audio, p, i as nat)
}

/// The whole record stream, closed by the END record.
pub open spec fn record_stream(frames: Seq<Vec<u8>>, audio: Option<Seq<i16>>, p: PackParams) -> Seq<u8> {
    stream_before(frames, audio, p, frames.len() as int) + record_bytes(REC_END, Seq::empty())
}

/// Audio bytes sent before frame `i`'s video record.
pub open spec fn audio_before(frames: Seq<Vec<u8>>, audio: Option<Seq<i16>>, p: PackParams, i: int) -> int {
    let n = frames.len() as int;
    if audio is Some {
        let c = if lead_count(n, audio, p) + i < n {
            lead_count(n, audio, p) + i
        } else {
            n
        };
        chunk_bound(c, n, adpcm_blob(n, audio, p).len() as int, p)
    } else {
        0
    }
}

/// The leading run of `s` that increases strictly has length `e`.
pub open spec fn increasing_run(s: Seq<int>, e: nat) -> bool {
    &&& e <= s.len()
    &&& forall|a: int, b: int| 0 <= a < b < e ==> #[trigger] s[a] < #[trigger] s[b]
    &&& e < s.len() ==> e > 0 && s[e as int] <= s[e - 1]
}

/// The seek-index entry for frame `i`: its number, the file offset of its
/// video record, the audio bytes sent before it, and the ADPCM decoder state
/// after those bytes.
pub open spec fn entry_at(frames: Seq<Vec<u8>>, audio: Option<Seq<i16>>, p: PackParams, i: int) -> IndexEntry {
    let abb = audio_before(frames, audio, p, i);
    let st = dec_state(adpcm_blob(frames.len() as int, audio, p), (2 * abb) as nat);
    IndexEntry {
        frame_no: i as u32,
        file_offset: (HEADER_SIZE + stream_before(frames, audio, p, i).len()) as u32,
        audio_bytes_before: abb as u32,
        adpcm_predictor: st.0 as i16,
        adpcm_step_index: st.1 as u8,
    }
}

/// The seek index: one entry per candidate frame, for the candidates that
/// come in strictly increasing order.
pub open spec fn index_entries(frames: Seq<Vec<u8>>, audio: Option<Seq<i16>>, p: PackParams) -> Seq<IndexEntry> {
    let s = entry_frames_spec(frames.len() as int, p);
    let e = choose|e: nat| increasing_run(s, e);
    Seq::new(e, |j: int| entry_at(frames, audio, p, s[j]))
}

/// The file header that `pack` writes.
pub open spec fn pack_header(frames: Seq<Vec<u8>>, audio: Option<Seq<i16>>, p: PackParams) -> Header {
    let n = frames.len() as int;
    let has_audio = audio is Some;
    Header {
        version: VERSION_V2,
        flags: if has_audio { FLAG_AUDIO } else { 0 },
        codec: CODEC_MJPEG,
        width: p.width,
        height: p.height,
        fps_num: p.fps_num,
        fps_den: p.fps_den,
        frame_count: n as u32,
        index_offset: (HEADER_SIZE + record_stream(frames, audio, p).len()) as u32,
        data_offset: HEADER_SIZE as u32,
        audio_offset: 0,
        audio_codec: if has_audio { AUDIO_IMA_ADPCM } else { 0 },
        audio_rate: if has_audio { p.audio_rate } else { 0 },
        audio_size: adpcm_blob(n, audio, p).len() as u32,
        audio_samples: audio_sample_count(n, audio, p) as u32,
    }
}

/// The complete file: header, record stream, seek index.
pub open spec fn pack_spec(frames: Seq<Vec<u8>>, audio: Option<Seq<i16>>, p: PackParams) -> Seq<u8> {
    header_bytes(pack_header(frames, audio, p)) + record_stream(frames, audio, p) + index_bytes(
        index_entries(frames, audio, p),
    )
}

// ---------------------------------------------------------------------------
// Lemmas on the file model
// ---------------------------------------------------------------------------

proof fn lemma_blob_len(n: int, audio: Option<Seq<i16>>, p: PackParams)
    requires
        n >= 0,
        p.fps_num > 0,
    ensures
        audio is Some ==> adpcm_blob(n, audio, p).len() == (samples_for(n, p) + 1) / 2,
        audio is None ==> adpcm_blob(n, audio, p).len() == 0,
{
    lemma_samples_for_mono(0, n, p);
}

/// Chunk bounds never decrease and stay inside the blob.
proof fn lemma_chunk_bounds(a: int, b: int, n: int, audio: Option<Seq<i16>>, p: PackParams)
    requires
        0 <= a <= b <= n,
        p.fps_num > 0,
        audio is Some,
    ensures
        0 <= chunk_bound(a, n, adpcm_blob(n, audio, p).len() as int, p),
        chunk_bound(a, n, adpcm_blob(n, audio, p).len() as int, p) <= chunk_bound(
            b,
            n,
            adpcm_blob(n, audio, p).len() as int,
            p,
        ),
        chunk_bound(b, n, adpcm_blob(n, audio, p).len() as int, p) <= adpcm_blob(n, audio, p).len(),
        chunk_bound(0, n, adpcm_blob(n, audio, p).len() as int, p) == 0,
{
    lemma_blob_len(n, audio, p);
    lemma_samples_for_mono(a, b, p);
    lemma_samples_for_mono(b, n, p);
    lemma_samples_for_mono(a, n, p);
    lemma_samples_for_mono(0, n, p);
    assert(samples_for(0, p) == 0) by (nonlinear_arith)
        requires
            p.fps_num > 0,
    ;
}

/// The audio sent before a frame never decreases along the clip and stays
/// inside the blob.
proof fn lemma_audio_before_mono(
    frames: Seq<Vec<u8>>,
    audio: Option<Seq<i16>>,
    p: PackParams,
    i1: int,
    i2: int,
)
    requires
        0 <= i1 <= i2,
        p.fps_num > 0,
        p.fps_den > 0,
    ensures
        0 <= audio_before(frames, audio, p, i1) <= audio_before(frames, audio, p, i2),
        audio_before(frames, audio, p, i2) <= adpcm_blob(frames.len() as int, audio, p).len(),
{
    let n = frames.len() as int;
    if audio is Some {
        let l = lead_count(n, audio, p);
        assert(0 <= l <= n);
        let c1 = if l + i1 < n {
            l + i1
        } else {
            n
        };
        let c2 = if l + i2 < n {
            l + i2
        } else {
            n
        };
        lemma_chunk_bounds(c1, c2, n, audio, p);
    }
}

proof fn lemma_frame_groups_len_mono(
    frames: Seq<Vec<u8>>,
    audio: Option<Seq<i16>>,
    p: PackParams,
    k1: nat,
    k2: nat,
)
    requires
        k1 <= k2,
    ensures
        frame_groups(frames, audio, p, k1).len() <= frame_groups(frames, audio, p, k2).len(),
    decreases k2,
{
    if k1 < k2 {
        lemma_frame_groups_len_mono(frames, audio, p, k1, (k2 - 1) as nat);
    }
}

proof fn lemma_lead_records_len_mono(
    frames: Seq<Vec<u8>>,
    audio: Option<Seq<i16>>,
    p: PackParams,
    k1: nat,
    k2: nat,
)
    requires
        k1 <= k2,
    ensures
        lead_records(frames, audio, p, k1).len() <= lead_records(frames, audio, p, k2).len(),
    decreases k2,
{
    if k1 < k2 {
        lemma_lead_records_len_mono(frames, audio, p, k1, (k2 - 1) as nat);
    }
}

/// The length of the whole file.
proof fn lemma_pack_len(frames: Seq<Vec<u8>>, audio: Option<Seq<i16>>, p: PackParams)
    ensures
        pack_spec(frames, audio, p).len() == HEADER_SIZE + record_stream(frames, audio, p).len()
            + 8 + 16 * index_entries(frames, audio, p).len(),
{
    crate::fwmv::format::lemma_entries_bytes_len(index_entries(frames, audio, p));
    crate::fwmv::format::lemma_header_round_trip(pack_header(frames, audio, p));
}

/// At most one length `e` is the length of the leading strictly increasing run.
pub proof fn lemma_increasing_run_unique(s: Seq<int>, e1: nat, e2: nat)
    requires
        increasing_run(s, e1),
        increasing_run(s, e2),
    ensures
        e1 == e2,
{
    if e1 < e2 {
        assert(s[e1 - 1] < s[e1 as int]);
    } else if e2 < e1 {
        assert(s[e2 - 1] < s[e2 as int]);
    }
}

// ---------------------------------------------------------------------------
// Packing
// ---------------------------------------------------------------------------

fn pad_pcm(src: &[i16], count: usize) -> (pcm: Vec<i16>)
    ensures
        pcm@ == padded_pcm(src@, count as nat),
{
    let mut pcm: Vec<i16> = Vec::with_capacity(count);
    let mut i: usize = 0;
    while i < count
        invariant
            i <= count,
            pcm@ == padded_pcm(src@, i as nat),
        decreases count - i,
    {
        if i < src.len() {
            pcm.push(src[i]);
        } else {
            pcm.push(0);
        }
        i = i + 1;
        assert(pcm@ =~= padded_pcm(src@, i as nat));
    }
    pcm
}

/// What `pack` needs of its arguments: positive frame rate terms, and sizes
/// that fit the machine's integers (the stored audio byte count fits a `u32`,
/// the whole file fits a `usize`).
pub open spec fn pack_requires(frames: Seq<Vec<u8>>, audio: Option<Seq<i16>>, p: PackParams) -> bool {
    &&& p.fps_num > 0
    &&& p.fps_den > 0
    &&& 2 * (frames.len() * p.fps_den) + p.fps_den + p.fps_num + 600 <= usize::MAX
    &&& audio is Some ==> frames.len() * p.fps_den * p.audio_rate <= usize::MAX
    &&& audio is Some ==> (samples_for(frames.len() as int, p) + 1) / 2 <= u32::MAX
    &&& pack_spec(frames, audio, p).len() <= usize::MAX
}

spec fn chunks_match(chunks: Seq<&[u8]>, frames: Seq<Vec<u8>>, audio: Option<Seq<i16>>, p: PackParams) -> bool {
    audio is Some ==> {
        &&& chunks.len() == frames.len()
        &&& forall|k: int|
            0 <= k < frames.len() ==> #[trigger] chunks[k]@ == audio_chunk(
                k,
                frames.len() as int,
                audio,
                p,
            )
    }
}

proof fn lemma_pack_requires_facts(frames: Seq<Vec<u8>>, audio: Option<Seq<i16>>, p: PackParams)
    requires
        pack_requires(frames, audio, p),
    ensures
        2 * frames.len() <= usize::MAX,
        adpcm_blob(frames.len() as int, audio, p).len() <= u32::MAX,
        HEADER_SIZE + record_stream(frames, audio, p).len() + 8 + 16 * index_entries(
            frames,
            audio,
            p,
        ).len() <= usize::MAX,
{
    let n = frames.len();
    assert(n <= n * p.fps_den) by (nonlinear_arith)
        requires
            p.fps_den >= 1,
    ;
    lemma_blob_len(n as int, audio, p);
    lemma_pack_len(frames, audio, p);
}

fn emit_lead(
    frames: &[Vec<u8>],
    audio_pcm: Option<&[i16]>,
    p: PackParams,
    chunks: &Vec<&[u8]>,
    lead: usize,
    stream: &mut Vec<u8>,
) -> (emitted: u32)
    requires
        pack_requires(frames@, opt_view(audio_pcm), p),
        chunks_match(chunks@, frames@, opt_view(audio_pcm), p),
        lead == lead_count(frames@.len() as int, opt_view(audio_pcm), p),
        old(stream)@ == Seq::<u8>::empty(),
    ensures
        final(stream)@ == lead_records(frames@, opt_view(audio_pcm), p, lead as nat),
        emitted as int == audio_before(frames@, opt_view(audio_pcm), p, 0),
{
    let ghost fs = frames@;
    let ghost aud = opt_view(audio_pcm);
    let ghost ni = frames@.len() as int;
    let ghost blob_s = adpcm_blob(ni, aud, p);
    proof {
        lemma_pack_requires_facts(fs, aud, p);
        lemma_lead_records_len_mono(fs, aud, p, 0, lead as nat);
        lemma_frame_groups_len_mono(fs, aud, p, 0, frames@.len());
        if aud is Some {
            lemma_chunk_bounds(0, 0, ni, aud, p);
        }
    }
    let mut emitted: u32 = 0;
    let mut i: usize = 0;
    while i < lead
        invariant
            i <= lead,
            pack_requires(fs, aud, p),
            chunks_match(chunks@, fs, aud, p),
            fs == frames@,
            aud == opt_view(audio_pcm),
            ni == fs.len(),
            lead == lead_count(ni, aud, p),
            blob_s == adpcm_blob(ni, aud, p),
            blob_s.len() <= u32::MAX,
            stream@ == lead_records(fs, aud, p, i as nat),
            HEADER_SIZE + lead_records(fs, aud, p, lead as nat).len() <= usize::MAX,
            emitted as int == (if aud is Some {
                chunk_bound(i as int, ni, blob_s.len() as int, p)
            } else {
                0
            }),
        decreases lead - i,
    {
        proof {
            lemma_chunk_bounds(i as int, (i + 1) as int, ni, aud, p);
            lemma_lead_records_len_mono(fs, aud, p, (i + 1) as nat, lead as nat);
        }
        let chunk: &[u8] = chunks[i];
        let rec = format::pack_record(REC_AUDIO, chunk);
        stream.extend_from_slice(&rec);
        emitted = emitted + chunk.len() as u32;
        i = i + 1;
        assert(stream@ =~= lead_records(fs, aud, p, i as nat));
    }
    emitted
}

/// The partial entry recorded while the stream is written; the decoder
/// state is filled in afterwards.
spec fn entry_without_state(frames: Seq<Vec<u8>>, audio: Option<Seq<i16>>, p: PackParams, i: int) -> IndexEntry {
    IndexEntry { adpcm_predictor: 0, adpcm_step_index: 0, ..entry_at(frames, audio, p, i) }
}

#[verifier::rlimit(30)]
fn emit_frames(
    frames: &[Vec<u8>],
    audio_pcm: Option<&[i16]>,
    p: PackParams,
    chunks: &Vec<&[u8]>,
    lead: usize,
    entry_frames: &Vec<usize>,
    stream: &mut Vec<u8>,
    emitted0: u32,
) -> (entries: Vec<IndexEntry>)
    requires
        pack_requires(frames@, opt_view(audio_pcm), p),
        chunks_match(chunks@, frames@, opt_view(audio_pcm), p),
        lead == lead_count(frames@.len() as int, opt_view(audio_pcm), p),
        entry_frames@.len() == entry_frames_spec(frames@.len() as int, p).len(),
        forall|j: int|
            0 <= j < entry_frames@.len() ==> entry_frames@[j] == entry_frames_spec(
                frames@.len() as int,
                p,
            )[j],
        forall|j: int|
            0 <= j < entry_frames@.len() ==> #[trigger] entry_frames@[j] < frames@.len(),
        old(stream)@ == lead_records(frames@, opt_view(audio_pcm), p, lead as nat),
        emitted0 as int == audio_before(frames@, opt_view(audio_pcm), p, 0),
    ensures
        final(stream)@ == stream_before(frames@, opt_view(audio_pcm), p, frames@.len() as int),
        increasing_run(entry_frames_spec(frames@.len() as int, p), entries@.len()),
        forall|j: int|
            0 <= j < entries@.len() ==> #[trigger] entries@[j] == entry_without_state(
                frames@,
                opt_view(audio_pcm),
                p,
                entry_frames_spec(frames@.len() as int, p)[j],
            ),
{
    let ghost fs = frames@;
    let ghost aud = opt_view(audio_pcm);
    let n = frames.len();
    let ghost ni = n as int;
    let ghost blob_s = adpcm_blob(ni, aud, p);
    let ghost efs = entry_frames_spec(ni, p);
    let ghost lead_bytes = stream@;
    let has_audio = audio_pcm.is_some();
    proof {
        lemma_pack_requires_facts(fs, aud, p);
        lemma_lead_records_len_mono(fs, aud, p, 0, lead as nat);
        lemma_frame_groups_len_mono(fs, aud, p, 0, n as nat);
    }
    let mut entries: Vec<IndexEntry> = Vec::new();
    let mut emitted = emitted0;
    let mut ei: usize = 0;
    let mut i: usize = 0;
    assert(lead_bytes + frame_groups(fs, aud, p, 0) =~= lead_bytes);
    while i < n
        invariant
            i <= n,
            pack_requires(fs, aud, p),
            chunks_match(chunks@, fs, aud, p),
            fs == frames@,
            aud == opt_view(audio_pcm),
            has_audio == (aud is Some),
            n == fs.len(),
            ni == n,
            2 * n <= usize::MAX,
            lead == lead_count(ni, aud, p),
            blob_s == adpcm_blob(ni, aud, p),
            blob_s.len() <= u32::MAX,
            lead_bytes == lead_records(fs, aud, p, lead as nat),
            stream@ == lead_bytes + frame_groups(fs, aud, p, i as nat),
            HEADER_SIZE + lead_bytes.len() + frame_groups(fs, aud, p, n as nat).len()
                <= usize::MAX,
            emitted as int == audio_before(fs, aud, p, i as int),
            efs == entry_frames_spec(ni, p),
            efs.len() == entry_frames@.len(),
            forall|j: int| 0 <= j < efs.len() ==> entry_frames@[j] == efs[j],
            forall|j: int| 0 <= j < efs.len() ==> #[trigger] entry_frames@[j] < n,
            ei <= efs.len(),
            entries@.len() == ei,
            forall|a: int, b: int| 0 <= a < b < ei ==> #[trigger] efs[a] < #[trigger] efs[b],
            forall|j: int| 0 <= j < ei ==> #[trigger] efs[j] < i,
            ei < efs.len() ==> (efs[ei as int] >= i && (ei > 0 ==> efs[ei - 1] < efs[ei as int]))
                || (ei > 0 && efs[ei as int] <= efs[ei - 1]),
            forall|j: int|
                0 <= j < ei ==> #[trigger] entries@[j] == entry_without_state(fs, aud, p, efs[j]),
        decreases n - i,
    {
        proof {
            lemma_frame_groups_len_mono(fs, aud, p, (i + 1) as nat, n as nat);
            lemma_frame_groups_len_mono(fs, aud, p, i as nat, n as nat);
        }
        if ei < entry_frames.len() && i == entry_frames[ei] {
            let e = IndexEntry {
                frame_no: i as u32,
                file_offset: (HEADER_SIZE + stream.len()) as u32,
                audio_bytes_before: emitted,
                adpcm_predictor: 0,
                adpcm_step_index: 0,
            };
            entries.push(e);
            ei = ei + 1;
        }
        let rec = format::pack_record(REC_VIDEO, frames[i].as_slice());
        stream.extend_from_slice(&rec);
        let j = i + lead;
        if has_audio && j < n {
            proof {
                lemma_chunk_bounds(j as int, (j + 1) as int, ni, aud, p);
            }
            let chunk: &[u8] = chunks[j];
            let rec = format::pack_record(REC_AUDIO, chunk);
            stream.extend_from_slice(&rec);
            emitted = emitted + chunk.len() as u32;
        }
        i = i + 1;
        assert(stream@ =~= lead_bytes + frame_groups(fs, aud, p, i as nat));
    }
    assert(increasing_run(efs, ei as nat));
    entries
}

proof fn lemma_offsets_in_order(
    fs: Seq<Vec<u8>>,
    aud: Option<Seq<i16>>,
    p: PackParams,
    offsets: Seq<usize>,
    entries0: Seq<IndexEntry>,
)
    requires
        pack_requires(fs, aud, p),
        offsets.len() == entries0.len(),
        forall|j: int| 0 <= j < entries0.len() ==> offsets[j] == entries0[j].audio_bytes_before,
        increasing_run(entry_frames_spec(fs.len() as int, p), entries0.len()),
        forall|j: int|
            0 <= j < entries0.len() ==> #[trigger] entries0[j] == entry_without_state(
                fs,
                aud,
                p,
                entry_frames_spec(fs.len() as int, p)[j],
            ),
    ensures
        forall|j: int|
            0 <= j < entries0.len() ==> offsets_in_order(
                offsets,
                adpcm_blob(fs.len() as int, aud, p).len(),
                j,
            ),
{
    let efs = entry_frames_spec(fs.len() as int, p);
    let blen = adpcm_blob(fs.len() as int, aud, p).len();
    lemma_pack_requires_facts(fs, aud, p);
    assert forall|a: int| 0 <= a < entries0.len() implies #[trigger] offsets[a] <= blen
        && offsets[a] == audio_before(fs, aud, p, efs[a]) by {
        assert(entries0[a] == entry_without_state(fs, aud, p, efs[a]));
        lemma_audio_before_mono(fs, aud, p, efs[a], efs[a]);
    }
    assert forall|j: int| 0 <= j < entries0.len() implies offsets_in_order(offsets, blen, j) by {
        assert forall|a: int, b: int| 0 <= a <= b <= j implies #[trigger] offsets[a]
            <= #[trigger] offsets[b] by {
            if a < b {
                assert(efs[a] < efs[b]);
                lemma_audio_before_mono(fs, aud, p, efs[a], efs[b]);
            }
        }
    }
}

fn fill_states(
    frames: &[Vec<u8>],
    audio_pcm: Option<&[i16]>,
    p: PackParams,
    blob: &Vec<u8>,
    entries: &mut Vec<IndexEntry>,
)
    requires
        pack_requires(frames@, opt_view(audio_pcm), p),
        audio_pcm is Some,
        blob@ == adpcm_blob(frames@.len() as int, opt_view(audio_pcm), p),
        increasing_run(entry_frames_spec(frames@.len() as int, p), old(entries)@.len()),
        forall|j: int|
            0 <= j < old(entries)@.len() ==> #[trigger] old(entries)@[j] == entry_without_state(
                frames@,
                opt_view(audio_pcm),
                p,
                entry_frames_spec(frames@.len() as int, p)[j],
            ),
    ensures
        final(entries)@.len() == old(entries)@.len(),
        forall|j: int|
            0 <= j < final(entries)@.len() ==> #[trigger] final(entries)@[j] == entry_at(
                frames@,
                opt_view(audio_pcm),
                p,
                entry_frames_spec(frames@.len() as int, p)[j],
            ),
{
    let ghost fs = frames@;
    let ghost aud = opt_view(audio_pcm);
    let ghost ni = frames@.len() as int;
    let ghost efs = entry_frames_spec(ni, p);
    let ghost blob_s = blob@;
    let ghost ei = entries@.len();
    let ghost entries0 = entries@;
    proof {
        lemma_pack_requires_facts(fs, aud, p);
    }
    let mut offsets: Vec<usize> = Vec::with_capacity(entries.len());
    let mut k: usize = 0;
    while k < entries.len()
        invariant
            k <= entries@.len(),
            entries@ == entries0,
            offsets@.len() == k,
            forall|j: int| 0 <= j < k ==> offsets@[j] == entries0[j].audio_bytes_before,
        decreases entries@.len() - k,
    {
        offsets.push(entries[k].audio_bytes_before as usize);
        k = k + 1;
    }
    proof {
        lemma_offsets_in_order(fs, aud, p, offsets@, entries0);
    }
    let states = adpcm::scan_states(blob.as_slice(), offsets.as_slice());
    let mut k: usize = 0;
    while k < entries.len()
        invariant
            k <= entries@.len(),
            entries@.len() == ei,
            entries0.len() == ei,
            states@.len() == ei,
            offsets@.len() == ei,
            forall|j: int|
                0 <= j < ei ==> states@[j] == adpcm::as_entry_state(scan_state(blob_s, offsets@, j)),
            forall|j: int| 0 <= j < ei ==> offsets_in_order(offsets@, blob_s.len(), j),
            forall|j: int| 0 <= j < ei ==> offsets@[j] == entries0[j].audio_bytes_before,
            forall|j: int|
                0 <= j < k ==> #[trigger] entries@[j] == (IndexEntry {
                    adpcm_predictor: states@[j].0,
                    adpcm_step_index: states@[j].1,
                    ..entries0[j]
                }),
            forall|j: int| k <= j < ei ==> #[trigger] entries@[j] == entries0[j],
        decreases entries@.len() - k,
    {
        let (pred, si) = states[k];
        let old_e = entries[k];
        entries.set(k, IndexEntry { adpcm_predictor: pred, adpcm_step_index: si, ..old_e });
        k = k + 1;
    }
    assert forall|j: int| 0 <= j < entries@.len() implies #[trigger] entries@[j] == entry_at(
        fs,
        aud,
        p,
        efs[j],
    ) by {
        assert(entries0[j] == entry_without_state(fs, aud, p, efs[j]));
        lemma_audio_before_mono(fs, aud, p, efs[j], efs[j]);
    }
}

/// Writes a complete FWMV v2 file: the header, the interleaved record stream
/// (one second of audio lead-in, then each video frame followed by the audio
/// chunk one second ahead of it), the END record and the seek index.
/// Audio, when given, is cut or zero-padded to the clip's length and stored
/// as IMA-ADPCM.
pub fn pack(frames: &[Vec<u8>], audio_pcm: Option<&[i16]>, p: PackParams) -> (out: Vec<u8>)
    requires
        pack_requires(frames@, opt_view(audio_pcm), p),
    ensures
        out@ == pack_spec(frames@, opt_view(audio_pcm), p),
{
    let ghost fs = frames@;
    let ghost aud = opt_view(audio_pcm);
    let n = frames.len();
    let ghost ni = n as int;
    proof {
        lemma_pack_requires_facts(fs, aud, p);
        lemma_blob_len(ni, aud, p);
    }
    let mut flags: u16 = 0;
    let mut audio_blob: Vec<u8> = Vec::new();
    let mut audio_samples: usize = 0;
    let mut chunks: Vec<&[u8]> = Vec::new();
    let has_audio = audio_pcm.is_some();
    match audio_pcm {
        Some(src) => {
            flags = FLAG_AUDIO;
            audio_samples = audio_samples_for(n, &p);
            let pcm = pad_pcm(src, audio_samples);
            audio_blob = adpcm::encode(&pcm);
            proof {
                if n > 0 {
                    lemma_chunk_bounds((n - 1) as int, ni, ni, aud, p);
                }
            }
            chunks = audio_chunks(&audio_blob, n, &p);
        },
        None => {},
    }
    assert(audio_blob@ == adpcm_blob(ni, aud, p));
    assert(chunks_match(chunks@, fs, aud, p));
    let lead = if has_audio {
        let l = lead_frames(&p);
        if l < n {
            l
        } else {
            n
        }
    } else {
        0
    };
    let entry_frames = index_entry_frames(n, &p);
    proof {
        let m = choose|m: nat| entry_count_ok(ni, p, m);
        assert(entry_count_ok(ni, p, entry_frames@.len() as nat));
        lemma_entry_count_unique(ni, p, m, entry_frames@.len() as nat);
    }
    let mut stream: Vec<u8> = Vec::new();
    let emitted = emit_lead(frames, audio_pcm, p, &chunks, lead, &mut stream);
    let mut entries = emit_frames(
        frames,
        audio_pcm,
        p,
        &chunks,
        lead,
        &entry_frames,
        &mut stream,
        emitted,
    );
    let end = format::pack_record(REC_END, &[]);
    stream.extend_from_slice(&end);
    assert(stream@ =~= record_stream(fs, aud, p));
    let index_offset = (HEADER_SIZE + stream.len()) as u32;
    if has_audio && entries.len() > 0 {
        fill_states(frames, audio_pcm, p, &audio_blob, &mut entries);
    } else {
        proof {
            let efs = entry_frames_spec(ni, p);
            assert forall|j: int| 0 <= j < entries@.len() implies #[trigger] entries@[j]
                == entry_at(fs, aud, p, efs[j]) by {
                assert(entries@[j] == entry_without_state(fs, aud, p, efs[j]));
            }
        }
    }
    proof {
        let efs = entry_frames_spec(ni, p);
        let e = choose|e: nat| increasing_run(efs, e);
        lemma_increasing_run_unique(efs, e, entries@.len() as nat);
    }
    assert(entries@ =~= index_entries(fs, aud, p));
    let index = format::pack_index(entries.as_slice());
    stream.extend_from_slice(&index);
    let header = Header {
        version: VERSION_V2,
        flags,
        codec: CODEC_MJPEG,
        width: p.width,
        height: p.height,
        fps_num: p.fps_num,
        fps_den: p.fps_den,
        frame_count: n as u32,
        index_offset,
        data_offset: HEADER_SIZE as u32,
        audio_offset: 0,
        audio_codec: if has_audio {
            AUDIO_IMA_ADPCM
        } else {
            0
        },
        audio_rate: if has_audio {
            p.audio_rate
        } else {
            0
        },
        audio_size: audio_blob.len() as u32,
        audio_samples: audio_samples as u32,
    };
    assert(header == pack_header(fs, aud, p));
    let header_bytes = header.pack();
    let mut out: Vec<u8> = Vec::with_capacity(HEADER_SIZE + stream.len());
    out.extend_from_slice(header_bytes.as_slice());
    out.extend_from_slice(&stream);
    assert(out@ =~= pack_spec(fs, aud, p));
    out
}

// ---------------------------------------------------------------------------
// Laws of the file layout
// ---------------------------------------------------------------------------

/// The file starts with `FWMV`, and reading its header back gives exactly
/// the header `pack` wrote: frame count, frame rate, dimensions, audio
/// parameters and the index offset.
pub proof fn lemma_pack_header_reads_back(frames: Seq<Vec<u8>>, audio: Option<Seq<i16>>, p: PackParams)
    ensures
        pack_spec(frames, audio, p).subrange(0, 4) == magic_bytes(),
        header_from_bytes(pack_spec(frames, audio, p)) == pack_header(frames, audio, p),
{
    let hdr = pack_header(frames, audio, p);
    let h = header_bytes(hdr);
    let s = pack_spec(frames, audio, p);
    crate::fwmv::format::lemma_header_round_trip(hdr);
    assert(s.subrange(0, 64) =~= h);
    assert forall|i: int| 0 <= i < 64 implies #[trigger] s[i] == h[i] by {
        assert(s.subrange(0, 64)[i] == s[i]);
    }
    assert(s.subrange(0, 4) =~= h.subrange(0, 4));
    assert(header_from_bytes(s) == header_from_bytes(h));
}

/// When the index offset fits its 32-bit header field, the bytes from that
/// offset to the end of the file are exactly the seek index, which starts
/// with `FWIX`.
pub proof fn lemma_pack_index_location(frames: Seq<Vec<u8>>, audio: Option<Seq<i16>>, p: PackParams)
    requires
        HEADER_SIZE + record_stream(frames, audio, p).len() <= u32::MAX,
    ensures
        ({
            let s = pack_spec(frames, audio, p);
            let off = pack_header(frames, audio, p).index_offset as int;
            &&& s.subrange(off, s.len() as int) == index_bytes(index_entries(frames, audio, p))
            &&& s.subrange(off, off + 4) == index_magic_bytes()
        }),
{
    let s = pack_spec(frames, audio, p);
    let hdr = pack_header(frames, audio, p);
    crate::fwmv::format::lemma_header_round_trip(hdr);
    let off = hdr.index_offset as int;
    assert(off == HEADER_SIZE + record_stream(frames, audio, p).len());
    let ix = index_bytes(index_entries(frames, audio, p));
    assert(s.subrange(off, s.len() as int) =~= ix);
    assert(s.subrange(off, off + 4) =~= ix.subrange(0, 4));
    assert(ix.subrange(0, 4) =~= index_magic_bytes());
}

proof fn lemma_frame_groups_prefix(
    frames: Seq<Vec<u8>>,
    audio: Option<Seq<i16>>,
    p: PackParams,
    k1: nat,
    k2: nat,
)
    requires
        k1 <= k2,
    ensures
        frame_groups(frames, audio, p, k1).len() <= frame_groups(frames, audio, p, k2).len(),
        frame_groups(frames, audio, p, k2).subrange(0, frame_groups(frames, audio, p, k1).len() as int)
            == frame_groups(frames, audio, p, k1),
    decreases k2,
{
    if k1 < k2 {
        lemma_frame_groups_prefix(frames, audio, p, k1, (k2 - 1) as nat);
        let a = frame_groups(frames, audio, p, k1);
        let b = frame_groups(frames, audio, p, (k2 - 1) as nat);
        let c = frame_groups(frames, audio, p, k2);
        assert(c =~= b + frame_group(frames, audio, p, k2 - 1));
        assert(c.subrange(0, a.len() as int) =~= b.subrange(0, a.len() as int));
    } else {
        assert(frame_groups(frames, audio, p, k2).subrange(0, frame_groups(frames, audio, p, k1).len() as int) =~= frame_groups(frames, audio, p, k1));
    }
}

/// Every seek-index entry points at its frame: when the record stream's
/// offsets fit their 32-bit fields, the file holds frame `frame_no`'s video
/// record at `file_offset`.
pub proof fn lemma_index_entry_points_at_frame(
    frames: Seq<Vec<u8>>,
    audio: Option<Seq<i16>>,
    p: PackParams,
    j: int,
)
    requires
        0 <= j < index_entries(frames, audio, p).len(),
        frames.len() <= u32::MAX,
        HEADER_SIZE + record_stream(frames, audio, p).len() <= u32::MAX,
        p.fps_num > 0,
        p.fps_den > 0,
    ensures
        ({
            let e = index_entries(frames, audio, p)[j];
            let rec = record_bytes(REC_VIDEO, frames[e.frame_no as int]@);
            &&& e.frame_no < frames.len()
            &&& e == entry_at(frames, audio, p, e.frame_no as int)
            &&& pack_spec(frames, audio, p).subrange(
                e.file_offset as int,
                e.file_offset + rec.len(),
            ) == rec
        }),
{
    let n = frames.len() as int;
    let efs = entry_frames_spec(n, p);
    let m = choose|m: nat| entry_count_ok(n, p, m);
    let ee = choose|e: nat| increasing_run(efs, e);
    lemma_entry_count_exists(n, p);
    assert(entry_count_ok(n, p, m));
    lemma_increasing_run_exists(efs);
    assert(increasing_run(efs, ee));
    let i = efs[j];
    assert(entry_frame(j, n, p) < n);
    assert(0 <= i) by {
        lemma_entry_frame_nonneg(j, n, p);
    }
    let e = index_entries(frames, audio, p)[j];
    assert(e == entry_at(frames, audio, p, i));
    let lead_b = lead_records(frames, audio, p, lead_count(n, audio, p) as nat);
    let gi = frame_groups(frames, audio, p, i as nat);
    let gi1 = frame_groups(frames, audio, p, (i + 1) as nat);
    let gn = frame_groups(frames, audio, p, n as nat);
    lemma_frame_groups_prefix(frames, audio, p, (i + 1) as nat, n as nat);
    lemma_frame_groups_prefix(frames, audio, p, i as nat, n as nat);
    let rec = record_bytes(REC_VIDEO, frames[i]@);
    assert(gi1 =~= gi + frame_group(frames, audio, p, i));
    let s = pack_spec(frames, audio, p);
    let hdr = pack_header(frames, audio, p);
    crate::fwmv::format::lemma_header_round_trip(hdr);
    let off = HEADER_SIZE + lead_b.len() + gi.len();
    assert(e.file_offset == off);
    assert(e.frame_no == i);
    assert forall|k: int| 0 <= k < rec.len() implies s[off + k] == rec[k] by {
        assert(gn.subrange(0, gi1.len() as int)[gi.len() + k] == gi1[gi.len() + k]);
    }
    assert(s.subrange(off, off + rec.len()) =~= rec);
}

proof fn lemma_entry_frame_nonneg(j: int, n: int, p: PackParams)
    requires
        j >= 0,
        n >= 0,
        p.fps_num > 0,
        p.fps_den > 0,
    ensures
        entry_frame(j, n, p) >= 0,
{
    let iv = index_interval(n, p);
    assert(iv >= 1) by {
        if n * (p.fps_den as int) / (p.fps_num as int) != 0 {
        }
    }
    assert(j * iv * (p.fps_num as int) >= 0) by (nonlinear_arith)
        requires
            j >= 0,
            iv >= 1,
            p.fps_num > 0,
    ;
}

proof fn lemma_entry_count_search(n: int, p: PackParams, j: nat)
    requires
        n >= 0,
        p.fps_num > 0,
        p.fps_den > 0,
        forall|i: int| 0 <= i < j ==> #[trigger] entry_frame(i, n, p) < n,
        j <= n * p.fps_den,
    ensures
        exists|m: nat| entry_count_ok(n, p, m),
    decreases n * p.fps_den - j,
{
    if entry_frame(j as int, n, p) >= n {
        assert(entry_count_ok(n, p, j));
    } else {
        let iv = index_interval(n, p);
        let num = p.fps_num as int;
        let den = p.fps_den as int;
        assert(iv >= 1) by {
            if n * den / num != 0 {
            }
        }
        assert(j < n * den) by (nonlinear_arith)
            requires
                (j * iv * num + den - 1) / den < n,
                iv >= 1,
                num >= 1,
                den >= 1,
                j >= 0,
        ;
        lemma_entry_count_search(n, p, j + 1);
    }
}

/// The number of candidate index frames is well defined.
pub proof fn lemma_entry_count_exists(n: int, p: PackParams)
    requires
        n >= 0,
        p.fps_num > 0,
        p.fps_den > 0,
    ensures
        exists|m: nat| entry_count_ok(n, p, m),
{
    assert(0 <= n * p.fps_den) by (nonlinear_arith)
        requires
            n >= 0,
    ;
    lemma_entry_count_search(n, p, 0);
}

proof fn lemma_increasing_run_search(s: Seq<int>, e: nat)
    requires
        1 <= e <= s.len(),
        forall|a: int, b: int| 0 <= a < b < e ==> #[trigger] s[a] < #[trigger] s[b],
    ensures
        exists|k: nat| increasing_run(s, k),
    decreases s.len() - e,
{
    if e == s.len() || s[e as int] <= s[e - 1] {
        assert(increasing_run(s, e));
    } else {
        assert forall|a: int, b: int| 0 <= a < b < e + 1 implies #[trigger] s[a] < #[trigger] s[b] by {
            if b == e && a < e - 1 {
                assert(s[a] < s[e - 1]);
            }
        }
        lemma_increasing_run_search(s, e + 1);
    }
}

/// Every sequence has a leading strictly increasing run.
pub proof fn lemma_increasing_run_exists(s: Seq<int>)
    ensures
        exists|e: nat| increasing_run(s, e),
{
    if s.len() == 0 {
        assert(increasing_run(s, 0));
    } else {
        lemma_increasing_run_search(s, 1);
    }
}

/// The first `k` per-frame audio chunks, one after the other.
pub open spec fn chunks_concat(n: int, audio: Option<Seq<i16>>, p: PackParams, k: nat) -> Seq<u8>
    decreases k,
{
    if k == 0 {
        Seq::empty()
    } else {
        chunks_concat(n, audio, p, (k - 1) as nat) + audio_chunk(k - 1, n, audio, p)
    }
}

proof fn lemma_chunks_concat_prefix(n: int, audio: Option<Seq<i16>>, p: PackParams, k: nat)
    requires
        audio is Some,
        p.fps_num > 0,
        k <= n,
    ensures
        chunks_concat(n, audio, p, k) == adpcm_blob(n, audio, p).subrange(
            0,
            chunk_bound(k as int, n, adpcm_blob(n, audio, p).len() as int, p),
        ),
    decreases k,
{
    let blob = adpcm_blob(n, audio, p);
    lemma_chunk_bounds(0, k as int, n, audio, p);
    if k == 0 {
        assert(blob.subrange(0, 0) =~= Seq::<u8>::empty());
    } else {
        lemma_chunks_concat_prefix(n, audio, p, (k - 1) as nat);
        lemma_chunk_bounds((k - 1) as int, k as int, n, audio, p);
        assert(chunks_concat(n, audio, p, k) =~= blob.subrange(
            0,
            chunk_bound(k as int, n, blob.len() as int, p),
        ));
    }
}

/// The per-frame audio chunks partition the stored ADPCM stream: in frame
/// order they concatenate to exactly the whole stream, and by the end of the
/// record stream every audio byte has been sent.
pub proof fn lemma_audio_chunks_cover_blob(frames: Seq<Vec<u8>>, audio: Option<Seq<i16>>, p: PackParams)
    requires
        audio is Some,
        p.fps_num > 0,
        p.fps_den > 0,
    ensures
        chunks_concat(frames.len() as int, audio, p, frames.len()) == adpcm_blob(
            frames.len() as int,
            audio,
            p,
        ),
        audio_before(frames, audio, p, frames.len() as int) == adpcm_blob(
            frames.len() as int,
            audio,
            p,
        ).len(),
{
    let n = frames.len() as int;
    lemma_chunks_concat_prefix(n, audio, p, frames.len());
    let blob = adpcm_blob(n, audio, p);
    assert(blob.subrange(0, blob.len() as int) =~= blob);
}

/// The seek index never holds more than `INDEX_MAX_ENTRIES + 1` entries, and
/// no more than `INDEX_MAX_ENTRIES` unless the clip reaches the tick at
/// `INDEX_MAX_ENTRIES` intervals (the `(n - 1) * fps_den < 600 * interval *
/// fps_num` condition), where one more entry lands on that last tick.
pub proof fn lemma_index_entry_bound(frames: Seq<Vec<u8>>, audio: Option<Seq<i16>>, p: PackParams)
    requires
        p.fps_num > 0,
        p.fps_den > 0,
    ensures
        index_entries(frames, audio, p).len() <= INDEX_MAX_ENTRIES + 1,
        (frames.len() - 1) * p.fps_den < INDEX_MAX_ENTRIES * index_interval(frames.len() as int, p)
            * p.fps_num ==> index_entries(frames, audio, p).len() <= INDEX_MAX_ENTRIES,
{
    let n = frames.len() as int;
    let num = p.fps_num as int;
    let den = p.fps_den as int;
    let efs = entry_frames_spec(n, p);
    lemma_entry_count_exists(n, p);
    lemma_increasing_run_exists(efs);
    let m = efs.len() as int;
    let e = choose|e: nat| increasing_run(efs, e);
    assert(index_entries(frames, audio, p).len() == e);
    assert(e <= m);
    let iv = index_interval(n, p);
    let dur = n * den / num;
    if m > 0 {
        let mm = choose|mm: nat| entry_count_ok(n, p, mm);
        assert(mm == m);
        assert(entry_frame(m - 1, n, p) < n);
        let x = (m - 1) * iv;
        assert(x * num <= (n - 1) * den) by (nonlinear_arith)
            requires
                ((m - 1) * iv * num + den - 1) / den < n,
                x == (m - 1) * iv,
                den >= 1,
        ;
        assert(x <= dur) by (nonlinear_arith)
            requires
                x * num <= (n - 1) * den,
                dur == n * den / num,
                num >= 1,
                den >= 1,
                x >= 0,
        ;
        if dur == 0 {
            assert(iv == 1);
            assert(m - 1 <= 0) by (nonlinear_arith)
                requires
                    x == (m - 1) * iv,
                    iv == 1,
                    x <= 0,
            ;
        } else {
            assert(dur <= 600 * iv);
            assert(m - 1 <= 600) by (nonlinear_arith)
                requires
                    x == (m - 1) * iv,
                    x <= 600 * iv,
                    iv >= 1,
            ;
            if (n - 1) * den < 600 * iv * num {
                assert(m - 1 < 600) by (nonlinear_arith)
                    requires
                        x == (m - 1) * iv,
                        x * num <= (n - 1) * den,
                        (n - 1) * den < 600 * iv * num,
                        iv >= 1,
                        num >= 1,
                ;
            }
        }
    }
}

// ---------------------------------------------------------------------------
// Whether a clip fits
// ---------------------------------------------------------------------------

/// Bytes of the first `k` video records at most: payload plus 11 (record
/// header and at most three pad bytes) each.
pub open spec fn video_bytes_bound(frames: Seq<Vec<u8>>, k: nat) -> int
    decreases k,
{
    if k == 0 {
        0
    } else {
        video_bytes_bound(frames, (k - 1) as nat) + frames[k - 1]@.len() + 11
    }
}

/// An upper bound on the size of the file `pack` writes: header, video
/// records, audio records (at most `2 n` record overheads and the whole
/// ADPCM stream), END record, and an index of at most
/// `INDEX_MAX_ENTRIES + 1` entries.
pub open spec fn pack_size_bound(frames: Seq<Vec<u8>>, audio: Option<Seq<i16>>, p: PackParams) -> int {
    let n = frames.len() as int;
    HEADER_SIZE + video_bytes_bound(frames, frames.len()) + (if audio is Some {
        22 * n + (samples_for(n, p) + 1) / 2
    } else {
        0
    }) + 8 + 8 + 16 * (INDEX_MAX_ENTRIES + 1)
}

/// The clip can be packed on this machine: positive frame-rate terms, pacing
/// arithmetic that fits a `usize`, an ADPCM stream whose size fits the 32-bit
/// header field, and a size bound that fits a `usize`.
pub open spec fn pack_fits_spec(frames: Seq<Vec<u8>>, audio: Option<Seq<i16>>, p: PackParams) -> bool {
    &&& p.fps_num > 0
    &&& p.fps_den > 0
    &&& 2 * (frames.len() * p.fps_den) + p.fps_den + p.fps_num + 600 <= usize::MAX
    &&& audio is Some ==> frames.len() * p.fps_den * p.audio_rate <= usize::MAX
    &&& audio is Some ==> (samples_for(frames.len() as int, p) + 1) / 2 <= u32::MAX
    &&& pack_size_bound(frames, audio, p) <= usize::MAX
}

proof fn lemma_video_bytes_bound_mono(frames: Seq<Vec<u8>>, k1: nat, k2: nat)
    requires
        k1 <= k2 <= frames.len(),
    ensures
        0 <= video_bytes_bound(frames, k1) <= video_bytes_bound(frames, k2),
    decreases k2,
{
    if k1 < k2 {
        lemma_video_bytes_bound_mono(frames, k1, (k2 - 1) as nat);
    } else if k1 > 0 {
        lemma_video_bytes_bound_mono(frames, (k1 - 1) as nat, (k1 - 1) as nat);
    }
}

proof fn lemma_record_len_bound(rtype: u16, payload: Seq<u8>)
    ensures
        record_bytes(rtype, payload).len() <= payload.len() + 11,
{
    crate::fwmv::format::lemma_record_len(rtype, payload);
}

proof fn lemma_lead_records_bound(frames: Seq<Vec<u8>>, audio: Option<Seq<i16>>, p: PackParams, k: nat)
    requires
        audio is Some,
        p.fps_num > 0,
        k <= frames.len(),
    ensures
        lead_records(frames, audio, p, k).len() <= 11 * k + chunk_bound(
            k as int,
            frames.len() as int,
            adpcm_blob(frames.len() as int, audio, p).len() as int,
            p,
        ),
    decreases k,
{
    let n = frames.len() as int;
    lemma_chunk_bounds(0, k as int, n, audio, p);
    if k > 0 {
        lemma_lead_records_bound(frames, audio, p, (k - 1) as nat);
        lemma_chunk_bounds((k - 1) as int, k as int, n, audio, p);
        lemma_record_len_bound(REC_AUDIO, audio_chunk(k - 1, n, audio, p));
    }
}

proof fn lemma_frame_groups_bound(frames: Seq<Vec<u8>>, audio: Option<Seq<i16>>, p: PackParams, k: nat)
    requires
        p.fps_num > 0,
        p.fps_den > 0,
        k <= frames.len(),
    ensures
        frame_groups(frames, audio, p, k).len() <= video_bytes_bound(frames, k) + (if audio is Some {
            11 * k + audio_before(frames, audio, p, k as int) - audio_before(frames, audio, p, 0)
        } else {
            0
        }),
    decreases k,
{
    if k > 0 {
        let n = frames.len() as int;
        let i = k - 1;
        lemma_frame_groups_bound(frames, audio, p, i as nat);
        lemma_record_len_bound(REC_VIDEO, frames[i]@);
        lemma_audio_before_mono(frames, audio, p, 0, i);
        lemma_audio_before_mono(frames, audio, p, i, k as int);
        let j = i + lead_count(n, audio, p);
        if audio is Some && j < n {
            lemma_chunk_bounds(j, j + 1, n, audio, p);
            lemma_record_len_bound(REC_AUDIO, audio_chunk(j, n, audio, p));
        }
    }
}

/// A clip that passes `pack_fits_spec` meets `pack`'s precondition.
pub proof fn lemma_pack_fits_meets_requires(frames: Seq<Vec<u8>>, audio: Option<Seq<i16>>, p: PackParams)
    requires
        pack_fits_spec(frames, audio, p),
    ensures
        pack_requires(frames, audio, p),
        pack_spec(frames, audio, p).len() <= pack_size_bound(frames, audio, p),
{
    let n = frames.len() as int;
    lemma_pack_len(frames, audio, p);
    lemma_index_entry_bound(frames, audio, p);
    lemma_frame_groups_bound(frames, audio, p, frames.len());
    lemma_video_bytes_bound_mono(frames, 0, frames.len());
    lemma_blob_len(n, audio, p);
    let lead = lead_count(n, audio, p);
    if audio is Some {
        lemma_lead_records_bound(frames, audio, p, lead as nat);
        lemma_audio_before_mono(frames, audio, p, 0, n);
        lemma_audio_chunks_cover_blob(frames, audio, p);
        assert(audio_before(frames, audio, p, 0) == chunk_bound(
            lead,
            n,
            adpcm_blob(n, audio, p).len() as int,
            p,
        ));
    } else {
        assert(lead_records(frames, audio, p, 0).len() == 0);
    }
    crate::fwmv::format::lemma_record_len(REC_END, Seq::empty());
}

/// Whether `pack` can lay out this clip on this machine (`pack_fits_spec`);
/// when it answers `true`, `pack`'s precondition holds.
pub fn pack_fits(frames: &[Vec<u8>], audio_pcm: Option<&[i16]>, p: PackParams) -> (ok: bool)
    ensures
        ok == pack_fits_spec(frames@, opt_view(audio_pcm), p),
        ok ==> pack_requires(frames@, opt_view(audio_pcm), p),
{
    let max: u128 = usize::MAX as u128;
    if p.fps_num == 0 || p.fps_den == 0 {
        return false;
    }
    let n: u128 = frames.len() as u128;
    let num: u128 = p.fps_num as u128;
    let den: u128 = p.fps_den as u128;
    let rate: u128 = p.audio_rate as u128;
    assert(n * den <= 0x1_0000_0000_0000_0000_0000) by (nonlinear_arith)
        requires
            n <= 0xFFFF_FFFF_FFFF_FFFF,
            den <= 0xFFFF,
    ;
    assert(n * den * rate <= 0x1_0000_0000_0000_0000_0000_0000_0000) by (nonlinear_arith)
        requires
            n * den <= 0x1_0000_0000_0000_0000_0000,
            rate <= 0xFFFF,
    ;
    if 2 * (n * den) + den + num + 600 > max {
        return false;
    }
    let mut total: u128 = 64 + 8 + 8 + 16 * 601;
    let ghost audio_part: int = 0;
    if audio_pcm.is_some() {
        if n * den * rate > max {
            return false;
        }
        let samples = n * den * rate / num;
        let blob = (samples + 1) / 2;
        if blob > 0xFFFF_FFFF {
            return false;
        }
        total = total + 22 * n + blob;
        proof {
            audio_part = 22 * n + blob;
        }
    }
    assert(audio_part == (if opt_view(audio_pcm) is Some {
        22 * frames@.len() + (samples_for(frames@.len() as int, p) + 1) / 2
    } else {
        0
    }));
    if total > max {
        proof {
            lemma_video_bytes_bound_mono(frames@, 0, frames@.len());
            assert(pack_size_bound(frames@, opt_view(audio_pcm), p) == total + video_bytes_bound(
                frames@,
                frames@.len(),
            ));
        }
        return false;
    }
    assert(video_bytes_bound(frames@, 0) == 0);
    assert(pack_fits_spec(frames@, opt_view(audio_pcm), p) == (pack_size_bound(
        frames@,
        opt_view(audio_pcm),
        p,
    ) <= usize::MAX));
    let mut i: usize = 0;
    while i < frames.len()
        invariant
            i <= frames@.len(),
            max == usize::MAX,
            pack_fits_spec(frames@, opt_view(audio_pcm), p) == (pack_size_bound(
                frames@,
                opt_view(audio_pcm),
                p,
            ) <= usize::MAX),
            pack_size_bound(frames@, opt_view(audio_pcm), p) == 64 + 8 + 8 + 16 * 601 + audio_part
                + video_bytes_bound(frames@, frames@.len()),
            total <= max,
            total == 64 + 8 + 8 + 16 * 601 + audio_part + video_bytes_bound(frames@, i as nat),
        decreases frames@.len() - i,
    {
        let len = frames[i].len() as u128;
        let next = total + len + 11;
        proof {
            assert(video_bytes_bound(frames@, (i + 1) as nat) == video_bytes_bound(frames@, i as nat)
                + frames@[i as int]@.len() + 11);
        }
        if next > max {
            proof {
                lemma_video_bytes_bound_mono(frames@, (i + 1) as nat, frames@.len());
            }
            return false;
        }
        total = next;
        i = i + 1;
    }
    proof {
        lemma_pack_fits_meets_requires(frames@, opt_view(audio_pcm), p);
    }
    true
}


// ---------------------------------------------------------------------------
// What the file depends on
// ---------------------------------------------------------------------------

/// Two audio arguments that agree on whether there is audio and on the
/// ADPCM stream they give for the clip.
spec fn same_audio(n: int, x: Option<Seq<i16>>, y: Option<Seq<i16>>, p: PackParams) -> bool {
    &&& (x is Some <==> y is Some)
    &&& adpcm_blob(n, x, p) == adpcm_blob(n, y, p)
}

proof fn lemma_lead_records_same_audio(
    frames: Seq<Vec<u8>>,
    x: Option<Seq<i16>>,
    y: Option<Seq<i16>>,
    p: PackParams,
    k: nat,
)
    requires
        same_audio(frames.len() as int, x, y, p),
    ensures
        lead_records(frames, x, p, k) == lead_records(frames, y, p, k),
    decreases k,
{
    if k > 0 {
        lemma_lead_records_same_audio(frames, x, y, p, (k - 1) as nat);
    }
}

proof fn lemma_frame_groups_same_audio(
    frames: Seq<Vec<u8>>,
    x: Option<Seq<i16>>,
    y: Option<Seq<i16>>,
    p: PackParams,
    k: nat,
)
    requires
        same_audio(frames.len() as int, x, y, p),
    ensures
        frame_groups(frames, x, p, k) == frame_groups(frames, y, p, k),
    decreases k,
{
    if k > 0 {
        lemma_frame_groups_same_audio(frames, x, y, p, (k - 1) as nat);
        assert(frame_group(frames, x, p, k - 1) == frame_group(frames, y, p, k - 1));
    }
}

/// The file depends on the audio only through whether there is audio and
/// the ADPCM stream cut for the clip.
proof fn lemma_pack_spec_same_audio(
    frames: Seq<Vec<u8>>,
    x: Option<Seq<i16>>,
    y: Option<Seq<i16>>,
    p: PackParams,
)
    requires
        same_audio(frames.len() as int, x, y, p),
    ensures
        pack_spec(frames, x, p) == pack_spec(frames, y, p),
{
    let n = frames.len() as int;
    lemma_lead_records_same_audio(frames, x, y, p, lead_count(n, x, p) as nat);
    assert forall|i: int| #[trigger] stream_before(frames, x, p, i) == stream_before(frames, y, p, i) by {
        lemma_frame_groups_same_audio(frames, x, y, p, i as nat);
    }
    assert(record_stream(frames, x, p) == record_stream(frames, y, p));
    let s = entry_frames_spec(n, p);
    assert forall|i: int| #[trigger] entry_at(frames, x, p, i) == entry_at(frames, y, p, i) by {
        assert(stream_before(frames, x, p, i) == stream_before(frames, y, p, i));
        assert(audio_before(frames, x, p, i) == audio_before(frames, y, p, i));
    }
    assert(index_entries(frames, x, p) =~= index_entries(frames, y, p));
    assert(pack_header(frames, x, p) == pack_header(frames, y, p));
}

/// Only the samples that play during the clip matter: `pack` with audio
/// `a` writes the same file as with `a` cut to the clip's sample count, or
/// padded with silence up to it.
pub proof fn lemma_pack_reads_clip_audio_only(frames: Seq<Vec<u8>>, a: Seq<i16>, p: PackParams)
    ensures
        pack_spec(frames, Some(a), p) == pack_spec(
            frames,
            Some(padded_pcm(a, samples_for(frames.len() as int, p) as nat)),
            p,
        ),
{
    let c = samples_for(frames.len() as int, p) as nat;
    assert(padded_pcm(padded_pcm(a, c), c) =~= padded_pcm(a, c));
    lemma_pack_spec_same_audio(frames, Some(a), Some(padded_pcm(a, c)), p);
}

proof fn lemma_frame_groups_silent_rate(frames: Seq<Vec<u8>>, p: PackParams, q: PackParams, k: nat)
    ensures
        frame_groups(frames, None, p, k) == frame_groups(frames, None, q, k),
    decreases k,
{
    if k > 0 {
        lemma_frame_groups_silent_rate(frames, p, q, (k - 1) as nat);
        assert(frame_group(frames, None, p, k - 1) == frame_group(frames, None, q, k - 1));
    }
}

/// Without audio the sample rate is not used: `pack` writes the same file
/// whatever `audio_rate` says.
pub proof fn lemma_pack_ignores_rate_without_audio(frames: Seq<Vec<u8>>, p: PackParams, rate: u16)
    requires
        p.fps_num > 0,
        p.fps_den > 0,
    ensures
        pack_spec(frames, None, p) == pack_spec(
            frames,
            None,
            PackParams {
                width: p.width,
                height: p.height,
                fps_num: p.fps_num,
                fps_den: p.fps_den,
                audio_rate: rate,
            },
        ),
{
    let q = PackParams {
        width: p.width,
        height: p.height,
        fps_num: p.fps_num,
        fps_den: p.fps_den,
        audio_rate: rate,
    };
    let n = frames.len() as int;
    lemma_entry_count_exists(n, p);
    lemma_entry_count_exists(n, q);
    let m1 = choose|m: nat| entry_count_ok(n, p, m);
    let m2 = choose|m: nat| entry_count_ok(n, q, m);
    assert forall|j: int| #[trigger] entry_frame(j, n, p) == entry_frame(j, n, q) by {}
    assert(entry_count_ok(n, p, m1));
    assert(entry_count_ok(n, q, m1)) by {
        assert(entry_frame(m1 as int, n, p) == entry_frame(m1 as int, n, q));
        assert forall|j: int| 0 <= j < m1 implies #[trigger] entry_frame(j, n, q) < n by {
            assert(entry_frame(j, n, p) == entry_frame(j, n, q));
        }
    }
    lemma_entry_count_unique(n, q, m1, m2);
    assert(entry_frames_spec(n, p) =~= entry_frames_spec(n, q));
    assert forall|i: int| #[trigger] stream_before(frames, None, p, i) == stream_before(frames, None, q, i) by {
        lemma_frame_groups_silent_rate(frames, p, q, i as nat);
    }
    assert(record_stream(frames, None, p) == record_stream(frames, None, q));
    assert forall|i: int| #[trigger] entry_at(frames, None, p, i) == entry_at(frames, None, q, i) by {
        assert(stream_before(frames, None, p, i) == stream_before(frames, None, q, i));
    }
    assert(index_entries(frames, None, p) =~= index_entries(frames, None, q));
    assert(pack_header(frames, None, p) == pack_header(frames, None, q));
}


// ---------------------------------------------------------------------------
// Every tick indexed
// ---------------------------------------------------------------------------

/// With at least one frame per second, later ticks land on later frames.
proof fn lemma_entry_frame_increasing(a: int, b: int, n: int, p: PackParams)
    requires
        0 <= a < b,
        n >= 0,
        p.fps_den > 0,
        p.fps_num >= p.fps_den,
    ensures
        entry_frame(a, n, p) < entry_frame(b, n, p),
{
    let i = index_interval(n, p);
    assert(i >= 1);
    let num = p.fps_num as int;
    let den = p.fps_den as int;
    let x = a * i * num + den - 1;
    let y = b * i * num + den - 1;
    assert(x >= 0 && y >= x + den) by (nonlinear_arith)
        requires
            0 <= a < b,
            i >= 1,
            num >= den,
            den > 0,
            x == a * i * num + den - 1,
            y == b * i * num + den - 1,
    ;
    lemma_fundamental_div_mod(x, den);
    lemma_mod_pos_bound(x, den);
    let q = x / den;
    let r = x % den;
    assert(x + den == (q + 1) * den + r) by (nonlinear_arith)
        requires
            x == den * q + r,
    ;
    lemma_fundamental_div_mod_converse(x + den, den, q + 1, r);
    lemma_div_is_ordered(x + den, y, den);
    assert(entry_frame(a, n, p) == x / den);
    assert(entry_frame(b, n, p) == y / den);
}

/// With at least one frame per second (`fps_num >= fps_den`) every tick of
/// the seek index falls on a later frame than the tick before it, so every
/// tick frame inside the clip gets its own entry: the stored frame list is
/// the whole tick list.
pub proof fn lemma_every_tick_indexed(frames: Seq<Vec<u8>>, audio: Option<Seq<i16>>, p: PackParams)
    requires
        p.fps_den > 0,
        p.fps_num >= p.fps_den,
    ensures
        increasing_run(
            entry_frames_spec(frames.len() as int, p),
            entry_frames_spec(frames.len() as int, p).len(),
        ),
        index_entries(frames, audio, p).len() == entry_frames_spec(frames.len() as int, p).len(),
        forall|j: int|
            0 <= j < index_entries(frames, audio, p).len() ==> #[trigger] index_entries(
                frames,
                audio,
                p,
            )[j] == entry_at(frames, audio, p, entry_frames_spec(frames.len() as int, p)[j]),
{
    let n = frames.len() as int;
    let s = entry_frames_spec(n, p);
    assert forall|a: int, b: int| 0 <= a < b < s.len() implies #[trigger] s[a] < #[trigger] s[b] by {
        lemma_entry_frame_increasing(a, b, n, p);
    }
    assert(increasing_run(s, s.len()));
    lemma_increasing_run_exists(s);
    let e = choose|e: nat| increasing_run(s, e);
    lemma_increasing_run_unique(s, e, s.len());
}


// ---------------------------------------------------------------------------
// One second of lead-in
// ---------------------------------------------------------------------------

/// `lead_spec` is `ceil(fps_num / fps_den)`: the fewest frames that last at
/// least one second.
proof fn lemma_lead_spec_is_ceiling(p: PackParams)
    requires
        p.fps_den > 0,
    ensures
        lead_spec(p) * p.fps_den >= p.fps_num,
        (lead_spec(p) - 1) * p.fps_den < p.fps_num,
        lead_spec(p) >= 0,
{
    let num = p.fps_num as int;
    let den = p.fps_den as int;
    let x = num + den - 1;
    lemma_fundamental_div_mod(x, den);
    lemma_mod_pos_bound(x, den);
    let q = x / den;
    let r = x % den;
    assert(q * den >= num && (q - 1) * den < num && q >= 0) by (nonlinear_arith)
        requires
            x == den * q + r,
            0 <= r < den,
            x == num + den - 1,
            num >= 0,
            den > 0,
    ;
}

/// The audio lead-in lasts one second: with audio, the number of audio
/// records sent ahead of the first frame is the fewest frames that last at
/// least a second (`l * fps_den >= fps_num` and `(l - 1) * fps_den <
/// fps_num`), or the whole clip when that is shorter; without audio there
/// is none.
pub proof fn lemma_lead_in_is_one_second(frames: Seq<Vec<u8>>, audio: Option<Seq<i16>>, p: PackParams)
    requires
        p.fps_den > 0,
    ensures
        ({
            let n = frames.len() as int;
            let l = lead_count(n, audio, p);
            let num = p.fps_num as int;
            let den = p.fps_den as int;
            &&& audio is None ==> l == 0
            &&& audio is Some ==> {
                &&& 0 <= l <= n
                &&& (l - 1) * den < num
                &&& l < n ==> l * den >= num
            }
        }),
{
    lemma_lead_spec_is_ceiling(p);
    let n = frames.len() as int;
    let den = p.fps_den as int;
    if audio is Some && lead_spec(p) >= n {
        assert((n - 1) * den <= (lead_spec(p) - 1) * den) by (nonlinear_arith)
            requires
                n <= lead_spec(p),
                den > 0,
        ;
    }
}


// ---------------------------------------------------------------------------
// Pacing in time
// ---------------------------------------------------------------------------

proof fn lemma_floor_div(x: int, d: int)
    requires
        x >= 0,
        d > 0,
    ensures
        (x / d) * d <= x < (x / d + 1) * d,
        x / d >= 0,
{
    lemma_fundamental_div_mod(x, d);
    lemma_mod_pos_bound(x, d);
    let q = x / d;
    let r = x % d;
    assert(q * d <= x < (q + 1) * d && q >= 0) by (nonlinear_arith)
        requires
            x == d * q + r,
            0 <= r < d,
            x >= 0,
    ;
}

/// The audio that plays during the first `i` frames is the whole number of
/// samples in `i * fps_den / fps_num` seconds at `audio_rate`:
/// `samples * fps_num <= i * fps_den * audio_rate < (samples + 1) * fps_num`.
pub proof fn lemma_samples_for_is_elapsed_audio(i: int, p: PackParams)
    requires
        i >= 0,
        p.fps_num > 0,
    ensures
        samples_for(i, p) >= 0,
        samples_for(i, p) * p.fps_num <= i * p.fps_den * p.audio_rate,
        i * p.fps_den * p.audio_rate < (samples_for(i, p) + 1) * p.fps_num,
{
    assert(i * p.fps_den * p.audio_rate >= 0) by (nonlinear_arith)
        requires
            i >= 0,
    ;
    lemma_floor_div(i * p.fps_den * p.audio_rate, p.fps_num as int);
}

/// The `j`-th index tick frame is the first frame that starts at or after
/// second `j * index_interval`: frame `f` starts at `f * fps_den / fps_num`
/// seconds, so `f * fps_den >= t * fps_num` and `(f - 1) * fps_den <
/// t * fps_num` for `t = j * index_interval`.
pub proof fn lemma_entry_frame_is_first_at_tick(j: int, n: int, p: PackParams)
    requires
        j >= 0,
        n >= 0,
        p.fps_den > 0,
    ensures
        ({
            let t = j * index_interval(n, p);
            let f = entry_frame(j, n, p);
            &&& f >= 0
            &&& f * p.fps_den >= t * p.fps_num
            &&& (f - 1) * p.fps_den < t * p.fps_num
        }),
{
    let t = j * index_interval(n, p);
    let num = p.fps_num as int;
    let den = p.fps_den as int;
    assert(index_interval(n, p) >= 1);
    assert(t * num >= 0 && j * index_interval(n, p) * num == t * num) by (nonlinear_arith)
        requires
            j >= 0,
            index_interval(n, p) >= 1,
            num >= 0,
            t == j * index_interval(n, p),
    ;
    let x = t * num + den - 1;
    lemma_floor_div(x, den);
    let f = x / den;
    assert(f == entry_frame(j, n, p));
    assert(f * den >= t * num && (f - 1) * den < t * num) by (nonlinear_arith)
        requires
            f * den <= x < (f + 1) * den,
            x == t * num + den - 1,
    ;
}


/// The seek-index interval is the fewest whole seconds that split the
/// clip's whole seconds `dur = floor(n * fps_den / fps_num)` into at most
/// 600 intervals, and at least one second.
pub proof fn lemma_index_interval_is_smallest(n: int, p: PackParams)
    requires
        n >= 0,
        p.fps_num > 0,
    ensures
        ({
            let dur = n * p.fps_den / (p.fps_num as int);
            let iv = index_interval(n, p);
            &&& iv >= 1
            &&& iv * 600 >= dur
            &&& iv > 1 ==> (iv - 1) * 600 < dur
        }),
{
    let dur = n * p.fps_den / (p.fps_num as int);
    assert(n * p.fps_den >= 0) by (nonlinear_arith)
        requires
            n >= 0,
    ;
    lemma_floor_div(n * p.fps_den, p.fps_num as int);
    if dur > 0 {
        lemma_floor_div(dur + 599, 600);
    }
}

} // verus!
