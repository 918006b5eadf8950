//! IMA-ADPCM, mono, 4 bits per sample, low nibble first, starting from
//! predictor 0 and step index 0.
//!
//! The decoder is a state machine over `(predictor, step_index)` driven by one
//! nibble at a time (`next_state`); the encoder picks each nibble from the
//! sample and the current state (`encode_nibble`) and then advances the same
//! state machine, so a decoder that replays the nibbles tracks the encoder's
//! predictor exactly (`lemma_decode_replays_encoder`).
use vstd::prelude::*;

verus! {

pub const STEP_TABLE: [i32; 89] = [
    7, 8, 9, 10, 11, 12, 13, 14, 16, 17, 19, 21, 23, 25, 28, 31,
    34, 37, 41, 45, 50, 55, 60, 66, 73, 80, 88, 97, 107, 118, 130, 143,
    157, 173, 190, 209, 230, 253, 279, 307, 337, 371, 408, 449, 494, 544, 598, 658,
    724, 796, 876, 963, 1060, 1166, 1282, 1411, 1552, 1707, 1878, 2066, 2272, 2499,
    2749, 3024, 3327, 3660, 4026, 4428, 4871, 5358, 5894, 6484, 7132, 7845, 8630,
    9493, 10442, 11487, 12635, 13899, 15289, 16818, 18500, 20350, 22385, 24623,
    27086, 29794, 32767,
];

pub const INDEX_TABLE: [i32; 16] = [-1, -1, -1, -1, 2, 4, 6, 8, -1, -1, -1, -1, 2, 4, 6, 8];

// ---------------------------------------------------------------------------
// Model
// ---------------------------------------------------------------------------

/// A decoder state that the state machine can reach.
pub open spec fn valid_state(st: (int, int)) -> bool {
    &&& -32768 <= st.0 <= 32767
    &&& 0 <= st.1 <= 88
}

pub open spec fn clamp(x: int, lo: int, hi: int) -> int {
    if x < lo {
        lo
    } else if x > hi {
        hi
    } else {
        x
    }
}

/// The step size that nibble `nib` adds to or takes from the predictor when
/// the step table gives `s`.
pub open spec fn nibble_diff(s: int, nib: u8) -> int {
    s / 8 + (if nib & 1 != 0 {
        s / 4
    } else {
        0
    }) + (if nib & 2 != 0 {
        s / 2
    } else {
        0
    }) + (if nib & 4 != 0 {
        s
    } else {
        0
    })
}

/// Decoder state after consuming nibble `nib` in state `st`.
pub open spec fn next_state(st: (int, int), nib: u8) -> (int, int)
    recommends
        valid_state(st),
        nib < 16,
{
    let s = STEP_TABLE[st.1] as int;
    let diff = nibble_diff(s, nib);
    let p = if nib & 8 != 0 {
        st.0 - diff
    } else {
        st.0 + diff
    };
    (clamp(p, -32768, 32767), clamp(st.1 + INDEX_TABLE[nib as int] as int, 0, 88))
}

/// The nibble the encoder emits for `sample` in state `st`: a sign bit (8)
/// and three magnitude bits (4, 2, 1) taken greedily from the step size.
pub open spec fn encode_nibble(st: (int, int), sample: int) -> u8 {
    let s = STEP_TABLE[st.1] as int;
    let delta = sample - st.0;
    let sign: int = if delta < 0 {
        8
    } else {
        0
    };
    let d0 = if delta < 0 {
        -delta
    } else {
        delta
    };
    let b2: int = if d0 >= s {
        4
    } else {
        0
    };
    let d1 = if d0 >= s {
        d0 - s
    } else {
        d0
    };
    let b1: int = if d1 >= s / 2 {
        2
    } else {
        0
    };
    let d2 = if d1 >= s / 2 {
        d1 - s / 2
    } else {
        d1
    };
    let b0: int = if d2 >= s / 4 {
        1
    } else {
        0
    };
    (sign + b2 + b1 + b0) as u8
}

/// Encoder state after the first `k` samples of `pcm`.
pub open spec fn enc_state(pcm: Seq<i16>, k: nat) -> (int, int)
    decreases k,
{
    if k == 0 {
        (0, 0)
    } else {
        let st = enc_state(pcm, (k - 1) as nat);
        next_state(st, encode_nibble(st, pcm[k - 1] as int))
    }
}

/// The `k`-th nibble the encoder emits for `pcm`.
pub open spec fn enc_nibble(pcm: Seq<i16>, k: nat) -> u8 {
    encode_nibble(enc_state(pcm, k), pcm[k as int] as int)
}

/// The encoded stream: two nibbles per byte, low nibble first; an odd
/// sample count leaves the high nibble of the last byte zero.
pub open spec fn encode_spec(pcm: Seq<i16>) -> Seq<u8> {
    Seq::new(
        ((pcm.len() + 1) / 2) as nat,
        |j: int|
            if 2 * j + 1 < pcm.len() {
                (enc_nibble(pcm, (2 * j) as nat) + 16 * enc_nibble(pcm, (2 * j + 1) as nat)) as u8
            } else {
                enc_nibble(pcm, (2 * j) as nat)
            },
    )
}

/// The `i`-th nibble of `data`: low nibble of byte `i / 2` for even `i`,
/// high nibble for odd `i`.
pub open spec fn nibble_at(data: Seq<u8>, i: int) -> u8 {
    if i % 2 == 1 {
        data[i / 2] >> 4
    } else {
        data[i / 2] & 0x0F
    }
}

/// Decoder state after the first `k` nibbles of `data`.
pub open spec fn dec_state(data: Seq<u8>, k: nat) -> (int, int)
    decreases k,
{
    if k == 0 {
        (0, 0)
    } else {
        next_state(dec_state(data, (k - 1) as nat), nibble_at(data, k - 1))
    }
}

/// Decoded samples: the predictor after each of the first
/// `min(n, 2 * data.len())` nibbles.
pub open spec fn decode_spec(data: Seq<u8>, n: nat) -> Seq<i16> {
    let m = if n < 2 * data.len() {
        n
    } else {
        2 * data.len()
    };
    Seq::new(m, |i: int| dec_state(data, (i + 1) as nat).0 as i16)
}

/// Whether the `k`-th requested offset is reached in order: every offset up
/// to and including the `k`-th lies within the blob and the offsets up to
/// there do not decrease.
pub open spec fn offsets_in_order(offsets: Seq<usize>, len: nat, k: int) -> bool {
    &&& forall|i: int| 0 <= i <= k ==> #[trigger] offsets[i] <= len
    &&& forall|i: int, j: int| 0 <= i <= j <= k ==> #[trigger] offsets[i] <= #[trigger] offsets[j]
}

/// The decoder state recorded for the `k`-th offset: the state after the
/// first `offsets[k]` bytes when the offsets up to `k` are in order, and the
/// state at the end of the blob otherwise.
pub open spec fn scan_state(blob: Seq<u8>, offsets: Seq<usize>, k: int) -> (int, int) {
    if offsets_in_order(offsets, blob.len(), k) {
        dec_state(blob, (2 * offsets[k]) as nat)
    } else {
        dec_state(blob, (2 * blob.len()) as nat)
    }
}

pub open spec fn as_entry_state(st: (int, int)) -> (i16, u8) {
    (st.0 as i16, st.1 as u8)
}

// ---------------------------------------------------------------------------
// Lemmas on the model
// ---------------------------------------------------------------------------

pub proof fn lemma_enc_state_valid(pcm: Seq<i16>, k: nat)
    requires
        k <= pcm.len(),
    ensures
        valid_state(enc_state(pcm, k)),
    decreases k,
{
    if k > 0 {
        lemma_enc_state_valid(pcm, (k - 1) as nat);
        let st = enc_state(pcm, (k - 1) as nat);
        lemma_encode_nibble_range(st, pcm[k - 1] as int);
    }
}

pub proof fn lemma_encode_nibble_range(st: (int, int), sample: int)
    requires
        valid_state(st),
    ensures
        encode_nibble(st, sample) < 16,
{
}

proof fn lemma_nibble_range(b: u8)
    ensures
        b >> 4 < 16,
        b & 0x0F < 16,
{
    assert(b >> 4 < 16) by (bit_vector);
    assert(b & 0x0F < 16) by (bit_vector);
}

pub proof fn lemma_dec_state_valid(data: Seq<u8>, k: nat)
    requires
        k <= 2 * data.len(),
    ensures
        valid_state(dec_state(data, k)),
    decreases k,
{
    if k > 0 {
        lemma_dec_state_valid(data, (k - 1) as nat);
        lemma_nibble_range(data[(k - 1) / 2]);
    }
}

proof fn lemma_pack_nibbles(lo: u8, hi: u8)
    requires
        lo < 16,
        hi < 16,
    ensures
        ((lo + 16 * hi) as u8) & 0x0F == lo,
        ((lo + 16 * hi) as u8) >> 4 == hi,
        lo & 0x0F == lo,
{
    let b = (lo + 16 * hi) as u8;
    assert(b == lo | (hi << 4)) by (bit_vector)
        requires
            lo < 16,
            hi < 16,
            b == (lo + 16 * hi) as u8,
    ;
    assert((lo | (hi << 4)) & 0x0F == lo) by (bit_vector)
        requires
            lo < 16,
            hi < 16,
    ;
    assert((lo | (hi << 4)) >> 4 == hi) by (bit_vector)
        requires
            lo < 16,
            hi < 16,
    ;
    assert(lo & 0x0F == lo) by (bit_vector)
        requires
            lo < 16,
    ;
}

/// The nibbles of the encoded stream are the encoder's nibbles.
pub proof fn lemma_encoded_nibbles(pcm: Seq<i16>, i: int)
    requires
        0 <= i < pcm.len(),
    ensures
        nibble_at(encode_spec(pcm), i) == enc_nibble(pcm, i as nat),
{
    let bytes = encode_spec(pcm);
    let j = i / 2;
    lemma_enc_state_valid(pcm, (2 * j) as nat);
    lemma_encode_nibble_range(enc_state(pcm, (2 * j) as nat), pcm[2 * j] as int);
    if 2 * j + 1 < pcm.len() {
        lemma_enc_state_valid(pcm, (2 * j + 1) as nat);
        lemma_encode_nibble_range(enc_state(pcm, (2 * j + 1) as nat), pcm[2 * j + 1] as int);
        lemma_pack_nibbles(enc_nibble(pcm, (2 * j) as nat), enc_nibble(pcm, (2 * j + 1) as nat));
    } else {
        lemma_pack_nibbles(enc_nibble(pcm, (2 * j) as nat), 0);
    }
}

/// Decoding the encoder's output replays the encoder's own state machine:
/// after `k` nibbles the decoder is in exactly the encoder's state after `k`
/// samples.
pub proof fn lemma_dec_tracks_enc(pcm: Seq<i16>, k: nat)
    requires
        k <= pcm.len(),
    ensures
        dec_state(encode_spec(pcm), k) == enc_state(pcm, k),
    decreases k,
{
    if k > 0 {
        lemma_dec_tracks_enc(pcm, (k - 1) as nat);
        lemma_encoded_nibbles(pcm, k - 1);
    }
}

/// Decoding what `encode` produced, for as many samples as were encoded,
/// yields exactly the predictor trajectory the encoder tracked.
pub proof fn lemma_decode_replays_encoder(pcm: Seq<i16>)
    ensures
        decode_spec(encode_spec(pcm), pcm.len()).len() == pcm.len(),
        forall|i: int|
            0 <= i < pcm.len() ==> decode_spec(encode_spec(pcm), pcm.len())[i] == enc_state(
                pcm,
                (i + 1) as nat,
            ).0 as i16,
{
    let d = decode_spec(encode_spec(pcm), pcm.len());
    assert forall|i: int| 0 <= i < pcm.len() implies d[i] == enc_state(pcm, (i + 1) as nat).0 as i16 by {
        lemma_dec_tracks_enc(pcm, (i + 1) as nat);
    }
}

proof fn lemma_enc_state_prefix(pcm: Seq<i16>, m: nat, k: nat)
    requires
        k <= m <= pcm.len(),
    ensures
        enc_state(pcm.subrange(0, m as int), k) == enc_state(pcm, k),
    decreases k,
{
    if k > 0 {
        lemma_enc_state_prefix(pcm, m, (k - 1) as nat);
        assert(pcm.subrange(0, m as int)[k - 1] == pcm[k - 1]);
    }
}

/// The encoder streams: the bytes for an even-length prefix of the samples
/// are the leading bytes of the whole stream, so no byte depends on later
/// samples. An odd sample count leaves the high nibble of the last byte
/// zero, and no samples give no bytes.
pub proof fn lemma_encode_prefix(pcm: Seq<i16>, k: nat)
    requires
        2 * k <= pcm.len(),
    ensures
        encode_spec(pcm.subrange(0, 2 * k as int)) == encode_spec(pcm).subrange(0, k as int),
        pcm.len() % 2 == 1 ==> encode_spec(pcm).last() >> 4 == 0,
        encode_spec(Seq::<i16>::empty()).len() == 0,
{
    let sub = pcm.subrange(0, 2 * k as int);
    assert forall|j: int| 0 <= j < k implies #[trigger] encode_spec(sub)[j] == encode_spec(pcm)[j] by {
        lemma_enc_state_prefix(pcm, 2 * k, (2 * j) as nat);
        lemma_enc_state_prefix(pcm, 2 * k, (2 * j + 1) as nat);
        assert(sub[2 * j] == pcm[2 * j]);
        assert(sub[2 * j + 1] == pcm[2 * j + 1]);
    }
    assert(encode_spec(sub) =~= encode_spec(pcm).subrange(0, k as int));
    if pcm.len() % 2 == 1 {
        let j = (pcm.len() - 1) / 2;
        lemma_enc_state_valid(pcm, (2 * j) as nat);
        lemma_encode_nibble_range(enc_state(pcm, (2 * j) as nat), pcm[2 * j] as int);
        let b = encode_spec(pcm)[j];
        assert(b == enc_nibble(pcm, (2 * j) as nat));
        assert(b >> 4 == 0) by (bit_vector)
            requires
                b < 16,
        ;
    }
}

/// Decoding is prefix-stable: asking for fewer samples gives the leading
/// samples of a longer request, never more than two per byte; empty input
/// decodes to nothing.
pub proof fn lemma_decode_prefix(data: Seq<u8>, m: nat, n: nat)
    requires
        m <= n,
    ensures
        decode_spec(data, n).len() == if n < 2 * data.len() { n } else { 2 * data.len() },
        decode_spec(data, m) == decode_spec(data, n).subrange(
            0,
            if m < 2 * data.len() { m as int } else { (2 * data.len()) as int },
        ),
        decode_spec(Seq::<u8>::empty(), n).len() == 0,
{
    let k: int = if m < 2 * data.len() { m as int } else { (2 * data.len()) as int };
    assert(decode_spec(data, m) =~= decode_spec(data, n).subrange(0, k));
}

proof fn lemma_dec_state_prefix(data: Seq<u8>, m: nat, k: nat)
    requires
        m <= data.len(),
        k <= 2 * m,
    ensures
        dec_state(data, k) == dec_state(data.subrange(0, m as int), k),
    decreases k,
{
    if k > 0 {
        lemma_dec_state_prefix(data, m, (k - 1) as nat);
        let i = k - 1;
        assert(data.subrange(0, m as int)[i / 2] == data[i / 2]);
        assert(nibble_at(data, i) == nibble_at(data.subrange(0, m as int), i));
    }
}

/// The state recorded for an offset that is reached in order is the state a
/// fresh decoder reaches on just the bytes before that offset: for a
/// non-zero offset, its predictor is the last sample that decoding those
/// bytes yields.
pub proof fn lemma_scan_is_fresh_decode(blob: Seq<u8>, offsets: Seq<usize>, k: int)
    requires
        0 <= k < offsets.len(),
        offsets_in_order(offsets, blob.len(), k),
    ensures
        scan_state(blob, offsets, k) == dec_state(
            blob.subrange(0, offsets[k] as int),
            (2 * offsets[k]) as nat,
        ),
        offsets[k] > 0 ==> as_entry_state(scan_state(blob, offsets, k)).0 == decode_spec(
            blob.subrange(0, offsets[k] as int),
            (2 * offsets[k]) as nat,
        )[2 * offsets[k] - 1],
        offsets[k] == 0 ==> as_entry_state(scan_state(blob, offsets, k)) == (0i16, 0u8),
{
    let m = offsets[k] as nat;
    lemma_dec_state_prefix(blob, m, 2 * m);
}

// ---------------------------------------------------------------------------
// The IMA-ADPCM bit weights
// ---------------------------------------------------------------------------

/// What the three magnitude bits of a nibble are worth at step size `s`:
/// the 4-bit is worth `s`, the 2-bit `s / 2` and the 1-bit `s / 4` (all
/// rounded down), for a magnitude `m` in `0..8`.
pub open spec fn magnitude_weight(s: int, m: int) -> int {
    (if m >= 4 {
        s
    } else {
        0
    }) + (if m % 4 >= 2 {
        s / 2
    } else {
        0
    }) + (if m % 2 == 1 {
        s / 4
    } else {
        0
    })
}

proof fn lemma_nibble_bits(nib: u8)
    requires
        nib < 16,
    ensures
        (nib & 4 != 0) == (nib % 8 >= 4),
        (nib & 2 != 0) == (nib % 8 % 4 >= 2),
        (nib & 1 != 0) == (nib % 8 % 2 == 1),
        (nib & 8 != 0) == (nib >= 8),
{
    assert((nib & 4 != 0) == (nib % 8 >= 4)) by (bit_vector)
        requires
            nib < 16,
    ;
    assert((nib & 2 != 0) == (nib % 8 % 4 >= 2)) by (bit_vector)
        requires
            nib < 16,
    ;
    assert((nib & 1 != 0) == (nib % 8 % 2 == 1)) by (bit_vector)
        requires
            nib < 16,
    ;
    assert((nib & 8 != 0) == (nib >= 8)) by (bit_vector)
        requires
            nib < 16,
    ;
}

/// The decoder's step: a nibble moves the predictor by an eighth of the step
/// size plus the weights of its magnitude bits, towards lower values when
/// the sign bit (8) is set. When the step size is a multiple of eight this is
/// exactly the midpoint `(2m + 1) * s / 8` of the magnitude's interval, and
/// a larger magnitude never moves the predictor less.
pub proof fn lemma_decoder_step(st: (int, int), nib: u8)
    requires
        valid_state(st),
        nib < 16,
    ensures
        ({
            let s = STEP_TABLE[st.1] as int;
            let m = (nib % 8) as int;
            let diff = s / 8 + magnitude_weight(s, m);
            &&& nibble_diff(s, nib) == diff
            &&& next_state(st, nib).0 == clamp(
                if nib >= 8 {
                    st.0 - diff
                } else {
                    st.0 + diff
                },
                -32768,
                32767,
            )
            &&& s % 8 == 0 ==> diff == (2 * m + 1) * s / 8
            &&& next_state(st, nib).1 == clamp(
                st.1 + if m < 4 {
                    -1
                } else {
                    2 * (m - 3)
                },
                0,
                88,
            )
        }),
        forall|n2: u8|
            #![trigger nibble_diff(STEP_TABLE[st.1] as int, n2)]
            n2 < 16 && nib % 8 <= n2 % 8 ==> nibble_diff(STEP_TABLE[st.1] as int, nib)
                <= nibble_diff(STEP_TABLE[st.1] as int, n2),
{
    let s = STEP_TABLE[st.1] as int;
    assert(0 < s <= 32767);
    lemma_nibble_bits(nib);
    let m = (nib % 8) as int;
    let diff = s / 8 + magnitude_weight(s, m);
    assert(nibble_diff(s, nib) == diff);
    if s % 8 == 0 {
        let t = s / 8;
        let b0: int = if m % 2 == 1 { 1 } else { 0 };
        let b1: int = if m % 4 >= 2 { 1 } else { 0 };
        let b2: int = if m >= 4 { 1 } else { 0 };
        assert(s == 8 * t && s / 2 == 4 * t && s / 4 == 2 * t);
        assert(m == b0 + 2 * b1 + 4 * b2);
        assert(diff == t + b0 * (2 * t) + b1 * (4 * t) + b2 * (8 * t));
        assert(diff == (2 * m + 1) * t && (2 * m + 1) * s == 8 * ((2 * m + 1) * t)) by (nonlinear_arith)
            requires
                m == b0 + 2 * b1 + 4 * b2,
                diff == t + b0 * (2 * t) + b1 * (4 * t) + b2 * (8 * t),
                s == 8 * t,
        ;
        vstd::arithmetic::div_mod::lemma_fundamental_div_mod_converse(
            (2 * m + 1) * s,
            8,
            (2 * m + 1) * t,
            0,
        );
    }
    assert forall|n2: u8|
        #![trigger nibble_diff(s, n2)]
        n2 < 16 && nib % 8 <= n2 % 8 implies nibble_diff(s, nib) <= nibble_diff(s, n2) by {
        lemma_nibble_bits(n2);
    }
}

/// Two samples per byte, the earlier one in the low nibble: byte `j` of
/// the encoded stream is `n0 + 16 * n1` for the nibbles of samples `2j` and
/// `2j + 1` (just `n0` for a lone last sample), and the decoder reads the
/// nibbles back in that order.
pub proof fn lemma_low_nibble_first(pcm: Seq<i16>, data: Seq<u8>, j: int)
    requires
        0 <= j,
    ensures
        2 * j < pcm.len() ==> encode_spec(pcm)[j] % 16 == enc_nibble(pcm, (2 * j) as nat),
        2 * j + 1 < pcm.len() ==> encode_spec(pcm)[j] / 16 == enc_nibble(pcm, (2 * j + 1) as nat),
        2 * j + 1 == pcm.len() ==> encode_spec(pcm)[j] / 16 == 0,
        j < data.len() ==> nibble_at(data, 2 * j) == data[j] % 16,
        j < data.len() ==> nibble_at(data, 2 * j + 1) == data[j] / 16,
{
    if 2 * j < pcm.len() {
        lemma_encoded_nibbles(pcm, 2 * j);
        let b = encode_spec(pcm)[j];
        assert(b & 0x0F == b % 16) by (bit_vector);
        assert(b >> 4 == b / 16) by (bit_vector);
        assert(nibble_at(encode_spec(pcm), 2 * j) == b & 0x0F);
        if 2 * j + 1 < pcm.len() {
            lemma_encoded_nibbles(pcm, 2 * j + 1);
            assert(nibble_at(encode_spec(pcm), 2 * j + 1) == b >> 4);
        } else if 2 * j + 1 == pcm.len() {
            lemma_enc_state_valid(pcm, (2 * j) as nat);
            lemma_encode_nibble_range(enc_state(pcm, (2 * j) as nat), pcm[2 * j] as int);
        }
    }
    if j < data.len() {
        let b = data[j];
        assert(b & 0x0F == b % 16) by (bit_vector);
        assert(b >> 4 == b / 16) by (bit_vector);
    }
}

/// The step sizes grow strictly along the table, from 7 to 32767.
pub proof fn lemma_step_table_increasing()
    ensures
        STEP_TABLE[0] == 7,
        STEP_TABLE[88] == 32767,
        forall|i: int, j: int| 0 <= i < j <= 88 ==> #[trigger] STEP_TABLE[i] < #[trigger] STEP_TABLE[j],
{
    assert forall|i: int| 0 <= i < 88 implies #[trigger] STEP_TABLE[i] < STEP_TABLE[i + 1] by {}
    assert forall|i: int, j: int| 0 <= i < j <= 88 implies #[trigger] STEP_TABLE[i]
        < #[trigger] STEP_TABLE[j] by {
        lemma_step_table_chain(i, j);
    }
}

proof fn lemma_step_table_chain(i: int, j: int)
    requires
        0 <= i < j <= 88,
        forall|k: int| 0 <= k < 88 ==> #[trigger] STEP_TABLE[k] < STEP_TABLE[k + 1],
    ensures
        STEP_TABLE[i] < STEP_TABLE[j],
    decreases j - i,
{
    if j > i + 1 {
        lemma_step_table_chain(i, j - 1);
        assert(STEP_TABLE[j - 1] < STEP_TABLE[j]);
    } else {
        assert(STEP_TABLE[i] < STEP_TABLE[i + 1]);
    }
}

/// The encoder's choice: the sign bit is set exactly when the sample lies
/// below the predictor, and the magnitude `m` is the largest one whose bit
/// weights fit into the distance `d` to the sample: `weight(m) <= d`, and
/// `d < weight(m + 1)` unless `m` is already the largest magnitude, 7.
#[verifier::rlimit(40)]
pub proof fn lemma_encoder_picks_largest_fit(st: (int, int), sample: int)
    requires
        valid_state(st),
    ensures
        ({
            let s = STEP_TABLE[st.1] as int;
            let nib = encode_nibble(st, sample);
            let d = if sample < st.0 {
                st.0 - sample
            } else {
                sample - st.0
            };
            let m = (nib % 8) as int;
            &&& nib < 16
            &&& (nib >= 8) == (sample < st.0)
            &&& magnitude_weight(s, m) <= d
            &&& m < 7 ==> d < magnitude_weight(s, m + 1)
        }),
{
    let s = STEP_TABLE[st.1] as int;
    assert(7 <= s <= 32767) by {
        assert(forall|i: int| 0 <= i < 89 ==> 7 <= #[trigger] STEP_TABLE[i] <= 32767);
    }
    assert(s / 4 <= s / 2 && s / 2 + s / 4 <= s);
    let nib = encode_nibble(st, sample);
    let delta = sample - st.0;
    let d = if delta < 0 { -delta } else { delta };
    let b2: int = if d >= s { 4 } else { 0 };
    let d1 = if d >= s { d - s } else { d };
    let b1: int = if d1 >= s / 2 { 2 } else { 0 };
    let d2 = if d1 >= s / 2 { d1 - s / 2 } else { d1 };
    let b0: int = if d2 >= s / 4 { 1 } else { 0 };
    assert(nib as int == (if delta < 0 { 8int } else { 0 }) + b2 + b1 + b0);
    let m = b2 + b1 + b0;
    assert((nib % 8) as int == m);
    assert(magnitude_weight(s, m) == (if b2 == 4 { s } else { 0 }) + (if b1 == 2 { s / 2 } else { 0 })
        + (if b0 == 1 { s / 4 } else { 0 }));
}

// ---------------------------------------------------------------------------
// Resuming the decoder
// ---------------------------------------------------------------------------

/// A decoder started in state `st` after its first `k` nibbles of `data`.
pub open spec fn dec_from(st: (int, int), data: Seq<u8>, k: nat) -> (int, int)
    decreases k,
{
    if k == 0 {
        st
    } else {
        next_state(dec_from(st, data, (k - 1) as nat), nibble_at(data, k - 1))
    }
}

proof fn lemma_resume(data: Seq<u8>, o: nat, k: nat)
    requires
        o <= data.len(),
        k <= 2 * (data.len() - o),
    ensures
        dec_from(dec_state(data, 2 * o), data.subrange(o as int, data.len() as int), k) == dec_state(
            data,
            2 * o + k,
        ),
    decreases k,
{
    if k > 0 {
        lemma_resume(data, o, (k - 1) as nat);
        let sub = data.subrange(o as int, data.len() as int);
        let i = k - 1;
        assert((2 * o + i) / 2 == o + i / 2 && (2 * o + i) % 2 == i % 2);
        assert(sub[i / 2] == data[o + i / 2]);
        assert(nibble_at(sub, i) == nibble_at(data, 2 * o + i));
    }
}

/// A seek state is good for seeking: a decoder started in the state that
/// `scan_states` records for an offset reached in order, fed the bytes from
/// that offset on, goes through exactly the states (and so yields exactly
/// the samples) of a decoder that ran from the start of the stream.
pub proof fn lemma_seek_state_resumes(blob: Seq<u8>, offsets: Seq<usize>, k: int, j: nat)
    requires
        0 <= k < offsets.len(),
        offsets_in_order(offsets, blob.len(), k),
        j <= 2 * (blob.len() - offsets[k]),
    ensures
        ({
            let rec = as_entry_state(scan_state(blob, offsets, k));
            let o = offsets[k] as int;
            dec_from((rec.0 as int, rec.1 as int), blob.subrange(o, blob.len() as int), j)
                == dec_state(blob, (2 * o + j) as nat)
        }),
{
    let o = offsets[k] as nat;
    lemma_dec_state_valid(blob, 2 * o);
    lemma_resume(blob, o, j);
}

// ---------------------------------------------------------------------------
// Executable code
// ---------------------------------------------------------------------------

fn clamp_i32(x: i32, lo: i32, hi: i32) -> (r: i32)
    requires
        lo <= hi,
    ensures
        r == clamp(x as int, lo as int, hi as int),
{
    if x < lo {
        lo
    } else if x > hi {
        hi
    } else {
        x
    }
}

/// Shared decoder-side state update.
fn step(predictor: i32, step_index: i32, nibble: u8) -> (r: (i32, i32))
    requires
        valid_state((predictor as int, step_index as int)),
        nibble < 16,
    ensures
        (r.0 as int, r.1 as int) == next_state((predictor as int, step_index as int), nibble),
        valid_state((r.0 as int, r.1 as int)),
{
    let s = STEP_TABLE[step_index as usize];
    assert(0 < s <= 32767);
    let mut diff = s >> 3;
    assert(s >> 3 == s / 8) by (bit_vector);
    if nibble & 1 != 0 {
        assert(s >> 2 == s / 4) by (bit_vector);
        diff += s >> 2;
    }
    if nibble & 2 != 0 {
        assert(s >> 1 == s / 2) by (bit_vector);
        diff += s >> 1;
    }
    if nibble & 4 != 0 {
        diff += s;
    }
    let p = if nibble & 8 != 0 {
        predictor - diff
    } else {
        predictor + diff
    };
    let p = clamp_i32(p, -32768, 32767);
    let si = clamp_i32(step_index + INDEX_TABLE[nibble as usize], 0, 88);
    (p, si)
}

fn pick_nibble(predictor: i32, step_index: i32, sample: i16) -> (nib: u8)
    requires
        valid_state((predictor as int, step_index as int)),
    ensures
        nib == encode_nibble((predictor as int, step_index as int), sample as int),
        nib < 16,
{
    let mut delta = sample as i32 - predictor;
    let mut nib: u8 = if delta < 0 {
        8
    } else {
        0
    };
    if delta < 0 {
        delta = -delta;
    }
    let s = STEP_TABLE[step_index as usize];
    assert(0 < s <= 32767);
    assert(s >> 1 == s / 2) by (bit_vector);
    assert(s >> 2 == s / 4) by (bit_vector);
    if delta >= s {
        nib = nib + 4;
        delta -= s;
    }
    if delta >= s >> 1 {
        nib = nib + 2;
        delta -= s >> 1;
    }
    if delta >= s >> 2 {
        nib = nib + 1;
    }
    nib
}

/// Encodes 16-bit PCM to 4-bit IMA-ADPCM, two samples per byte, low nibble
/// first.
pub fn encode(pcm: &[i16]) -> (out: Vec<u8>)
    ensures
        out@ == encode_spec(pcm@),
        out@.len() == (pcm@.len() + 1) / 2,
{
    let mut predictor: i32 = 0;
    let mut step_index: i32 = 0;
    let mut out: Vec<u8> = Vec::new();
    let mut low = true;
    let mut i: usize = 0;
    while i < pcm.len()
        invariant
            i <= pcm@.len(),
            low == (i % 2 == 0),
            (predictor as int, step_index as int) == enc_state(pcm@, i as nat),
            valid_state((predictor as int, step_index as int)),
            out@.len() == (i + 1) / 2,
            forall|j: int|
                0 <= j < i / 2 ==> out@[j] == (enc_nibble(pcm@, (2 * j) as nat) + 16 * enc_nibble(
                    pcm@,
                    (2 * j + 1) as nat,
                )) as u8,
            i % 2 == 1 ==> out@[(i / 2) as int] == enc_nibble(pcm@, (i - 1) as nat),
        decreases pcm@.len() - i,
    {
        let sample = pcm[i];
        let nib = pick_nibble(predictor, step_index, sample);
        let (p, si) = step(predictor, step_index, nib);
        proof {
            assert(enc_nibble(pcm@, i as nat) == nib);
            assert(enc_state(pcm@, (i + 1) as nat) == next_state(enc_state(pcm@, i as nat), nib));
        }
        predictor = p;
        step_index = si;
        if low {
            out.push(nib);
        } else {
            let last = out.len() - 1;
            let b = out[last];
            assert(b < 16) by {
                lemma_enc_state_valid(pcm@, (i - 1) as nat);
                lemma_encode_nibble_range(enc_state(pcm@, (i - 1) as nat), pcm@[i - 1] as int);
            }
            out.set(last, b + 16 * nib);
        }
        low = !low;
        i = i + 1;
    }
    assert(out@ =~= encode_spec(pcm@));
    out
}

/// Decodes up to `n` samples (never more than two per byte of `data`).
pub fn decode(data: &[u8], n: usize) -> (out: Vec<i16>)
    requires
        2 * data@.len() <= usize::MAX,
    ensures
        out@ == decode_spec(data@, n as nat),
{
    let mut predictor: i32 = 0;
    let mut step_index: i32 = 0;
    let m = if n < data.len() * 2 {
        n
    } else {
        data.len() * 2
    };
    let mut out: Vec<i16> = Vec::with_capacity(m);
    let mut i: usize = 0;
    while i < m
        invariant
            i <= m,
            m <= 2 * data@.len(),
            m == (if n < 2 * data@.len() {
                n as int
            } else {
                2 * data@.len() as int
            }),
            (predictor as int, step_index as int) == dec_state(data@, i as nat),
            valid_state((predictor as int, step_index as int)),
            out@.len() == i,
            forall|j: int| 0 <= j < i ==> out@[j] == dec_state(data@, (j + 1) as nat).0 as i16,
        decreases m - i,
    {
        let byte = data[i / 2];
        let nib = if i % 2 == 1 {
            byte >> 4
        } else {
            byte & 0x0F
        };
        proof {
            lemma_nibble_range(byte);
            assert(nib == nibble_at(data@, i as int));
        }
        let (p, si) = step(predictor, step_index, nib);
        predictor = p;
        step_index = si;
        out.push(predictor as i16);
        i = i + 1;
    }
    assert(out@ =~= decode_spec(data@, n as nat));
    out
}

/// Decoder state `(predictor, step_index)` after each prefix length in
/// `byte_offsets` (expected ascending), in a single pass over the nibble
/// stream; offsets past the end of the blob, or out of order, get the state
/// at the end of the blob.
pub fn scan_states(blob: &[u8], byte_offsets: &[usize]) -> (states: Vec<(i16, u8)>)
    ensures
        states@.len() == byte_offsets@.len(),
        forall|k: int|
            0 <= k < byte_offsets@.len() ==> states@[k] == as_entry_state(
                scan_state(blob@, byte_offsets@, k),
            ),
        forall|k: int|
            0 <= k < byte_offsets@.len() ==> valid_state(scan_state(blob@, byte_offsets@, k)),
        forall|k: int|
            0 <= k < byte_offsets@.len() && offsets_in_order(byte_offsets@, blob@.len(), k) ==> (
            #[trigger] states@[k].0 as int,
            states@[k].1 as int,
        ) == dec_state(blob@, (2 * byte_offsets@[k]) as nat),
        forall|k: int|
            0 <= k < byte_offsets@.len() && !offsets_in_order(byte_offsets@, blob@.len(), k) ==> (
            #[trigger] states@[k].0 as int,
            states@[k].1 as int,
        ) == dec_state(blob@, (2 * blob@.len()) as nat),
{
    let ghost offs = byte_offsets@;
    let ghost len = blob@.len();
    let mut predictor: i32 = 0;
    let mut step_index: i32 = 0;
    let mut states: Vec<(i16, u8)> = Vec::with_capacity(byte_offsets.len());
    let mut wi: usize = 0;
    let mut pos: usize = 0;
    loop
        invariant_except_break
            pos <= blob@.len(),
        invariant
            offs == byte_offsets@,
            len == blob@.len(),
            wi <= offs.len(),
            pos <= len,
            states@.len() == wi,
            (predictor as int, step_index as int) == dec_state(blob@, (2 * pos) as nat),
            valid_state((predictor as int, step_index as int)),
            forall|k: int| 0 <= k < wi ==> #[trigger] offsets_in_order(offs, len, k),
            forall|k: int| 0 <= k < wi ==> #[trigger] offs[k] <= pos,
            forall|k: int|
                0 <= k < wi ==> #[trigger] states@[k] == as_entry_state(
                    dec_state(blob@, (2 * offs[k]) as nat),
                ),
            forall|k: int|
                0 <= k < wi ==> valid_state(dec_state(blob@, (2 * offs[k]) as nat)),
            wi < offs.len() ==> offs[wi as int] >= pos || (wi > 0 && offs[wi as int] < offs[wi
                - 1]),
        ensures
            pos == len,
            wi < offs.len() ==> !offsets_in_order(offs, len, wi as int),
        decreases len - pos,
    {
        while wi < byte_offsets.len() && byte_offsets[wi] == pos
            invariant
                offs == byte_offsets@,
                len == blob@.len(),
                wi <= offs.len(),
                pos <= len,
                states@.len() == wi,
                (predictor as int, step_index as int) == dec_state(blob@, (2 * pos) as nat),
                valid_state((predictor as int, step_index as int)),
                forall|k: int| 0 <= k < wi ==> #[trigger] offsets_in_order(offs, len, k),
                forall|k: int| 0 <= k < wi ==> #[trigger] offs[k] <= pos,
                forall|k: int|
                    0 <= k < wi ==> #[trigger] states@[k] == as_entry_state(
                        dec_state(blob@, (2 * offs[k]) as nat),
                    ),
                forall|k: int|
                    0 <= k < wi ==> valid_state(dec_state(blob@, (2 * offs[k]) as nat)),
                wi < offs.len() ==> offs[wi as int] >= pos || (wi > 0 && offs[wi as int]
                    < offs[wi - 1]),
            decreases offs.len() - wi,
        {
            proof {
                if wi > 0 {
                    assert(offsets_in_order(offs, len, wi - 1));
                }
                assert(offsets_in_order(offs, len, wi as int));
            }
            states.push((predictor as i16, step_index as u8));
            wi = wi + 1;
        }
        if pos == blob.len() {
            proof {
                if wi < offs.len() {
                    assert(offs[wi as int] > len || offs[wi as int] < offs[wi - 1]);
                }
            }
            break;
        }
        let b = blob[pos];
        proof {
            lemma_nibble_range(b);
            assert(nibble_at(blob@, 2 * pos as int) == b & 0x0F);
            assert(nibble_at(blob@, 2 * pos + 1) == b >> 4);
        }
        let (p, si) = step(predictor, step_index, b & 0x0F);
        assert((p as int, si as int) == dec_state(blob@, (2 * pos + 1) as nat));
        let (p, si) = step(p, si, b >> 4);
        assert((p as int, si as int) == dec_state(blob@, (2 * pos + 2) as nat));
        predictor = p;
        step_index = si;
        pos = pos + 1;
    }
    let ghost wi_end = wi;
    while wi < byte_offsets.len()
        invariant
            offs == byte_offsets@,
            len == blob@.len(),
            pos == len,
            wi_end <= wi <= offs.len(),
            wi_end < offs.len() ==> !offsets_in_order(offs, len, wi_end as int),
            states@.len() == wi,
            (predictor as int, step_index as int) == dec_state(blob@, (2 * len) as nat),
            valid_state((predictor as int, step_index as int)),
            forall|k: int|
                0 <= k < wi_end ==> offsets_in_order(offs, len, k) && states@[k] == as_entry_state(
                    dec_state(blob@, (2 * offs[k]) as nat),
                ),
            forall|k: int|
                0 <= k < wi_end ==> valid_state(dec_state(blob@, (2 * offs[k]) as nat)),
            forall|k: int|
                wi_end <= k < wi ==> states@[k] == as_entry_state(
                    dec_state(blob@, (2 * len) as nat),
                ),
        decreases offs.len() - wi,
    {
        states.push((predictor as i16, step_index as u8));
        wi = wi + 1;
    }
    assert forall|k: int| 0 <= k < byte_offsets@.len() implies states@[k] == as_entry_state(
        scan_state(blob@, byte_offsets@, k),
    ) && valid_state(scan_state(blob@, byte_offsets@, k)) by {
        if k >= wi_end {
            assert(!offsets_in_order(offs, len, k)) by {
                assert(!offsets_in_order(offs, len, wi_end as int));
            }
        }
    }
    assert forall|k: int| 0 <= k < byte_offsets@.len() implies (
        #[trigger] states@[k].0 as int,
        states@[k].1 as int,
    ) == scan_state(blob@, byte_offsets@, k) by {
        let st = scan_state(blob@, byte_offsets@, k);
        assert(valid_state(st));
        assert(states@[k] == as_entry_state(st));
    }
    states
}

} // verus!
