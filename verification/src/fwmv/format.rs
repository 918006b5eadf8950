//! FWMV v2 container primitives: the 64-byte file header, the 8-byte record
//! header with four-byte payload alignment, and the `FWIX` seek index.
//!
//! Every multi-byte integer is little-endian. The byte layouts are stated as
//! spec functions (`le16`, `le32`, `record_bytes`, `header_bytes`,
//! `index_bytes`) and each executable function is proved to produce them.
use vstd::prelude::*;
use vstd::arithmetic::div_mod::lemma_fundamental_div_mod_converse;

verus! {

/// File magic, `b"FWMV"`.
pub const MAGIC: [u8; 4] = [0x46, 0x57, 0x4D, 0x56];

pub const HEADER_SIZE: usize = 64;

pub const VERSION_V2: u16 = 2;

pub const CODEC_MJPEG: u16 = 1;

pub const FLAG_AUDIO: u16 = 1;

pub const AUDIO_IMA_ADPCM: u16 = 1;

pub const REC_VIDEO: u16 = 1;

pub const REC_AUDIO: u16 = 2;

pub const REC_END: u16 = 0xFFFF;

pub const RECORD_HDR_SIZE: usize = 8;

/// Seek-index magic, `b"FWIX"`.
pub const INDEX_MAGIC: [u8; 4] = [0x46, 0x57, 0x49, 0x58];

pub const INDEX_ENTRY_SIZE: usize = 16;

/// Ticks the seek-index interval is sized for. A clip whose last frame
/// reaches the final tick gets one entry more than this (the tick list starts
/// at second zero); `lemma_index_entry_bound` states the exact bound.
pub const INDEX_MAX_ENTRIES: usize = 600;

// ---------------------------------------------------------------------------
// Byte-level model
// ---------------------------------------------------------------------------

/// Little-endian encoding of the low 16 bits of `x` (two's complement for a
/// negative `x`, since spec `/` and `%` are floor division).
pub open spec fn le16(x: int) -> Seq<u8> {
    seq![(x % 256) as u8, ((x / 256) % 256) as u8]
}

/// Little-endian encoding of the low 32 bits of `x`.
pub open spec fn le32(x: int) -> Seq<u8> {
    seq![
        (x % 256) as u8,
        ((x / 256) % 256) as u8,
        ((x / 65536) % 256) as u8,
        ((x / 16777216) % 256) as u8,
    ]
}

/// The unsigned 16-bit little-endian value stored at `s[o..o+2]`.
pub open spec fn get_u16(s: Seq<u8>, o: int) -> u16 {
    (s[o] + 256 * s[o + 1]) as u16
}

/// The unsigned 32-bit little-endian value stored at `s[o..o+4]`.
pub open spec fn get_u32(s: Seq<u8>, o: int) -> u32 {
    (s[o] + 256 * s[o + 1] + 65536 * s[o + 2] + 16777216 * s[o + 3]) as u32
}

/// `n` zero bytes.
pub open spec fn zeros(n: nat) -> Seq<u8> {
    Seq::new(n, |i: int| 0u8)
}

pub open spec fn magic_bytes() -> Seq<u8> {
    seq![0x46u8, 0x57u8, 0x4Du8, 0x56u8]
}

pub open spec fn index_magic_bytes() -> Seq<u8> {
    seq![0x46u8, 0x57u8, 0x49u8, 0x58u8]
}

/// Padding after a payload of `size` bytes: the distance to the next multiple of 4.
pub open spec fn padding(size: nat) -> nat {
    ((4 - size % 4) % 4) as nat
}

/// One record: type, reserved zero, payload size (low 32 bits), payload, padding.
pub open spec fn record_bytes(rtype: u16, payload: Seq<u8>) -> Seq<u8> {
    le16(rtype as int) + le16(0) + le32(payload.len() as int) + payload + zeros(
        padding(payload.len()),
    )
}

/// Fixed-size file header.
#[derive(Clone, Copy, Debug)]
pub struct Header {
    pub version: u16,
    pub flags: u16,
    pub codec: u16,
    pub width: u16,
    pub height: u16,
    pub fps_num: u16,
    pub fps_den: u16,
    pub frame_count: u32,
    pub index_offset: u32,
    pub data_offset: u32,
    pub audio_offset: u32,
    pub audio_codec: u16,
    pub audio_rate: u16,
    pub audio_size: u32,
    pub audio_samples: u32,
}

/// The 46 meaningful bytes of a header: magic, then the fields in order.
pub open spec fn header_fields_bytes(h: Header) -> Seq<u8> {
    magic_bytes() + le16(h.version as int) + le16(h.flags as int) + le16(h.codec as int) + le16(
        h.width as int,
    ) + le16(h.height as int) + le16(h.fps_num as int) + le16(h.fps_den as int) + le32(
        h.frame_count as int,
    ) + le32(h.index_offset as int) + le32(h.data_offset as int) + le32(h.audio_offset as int)
        + le16(h.audio_codec as int) + le16(h.audio_rate as int) + le32(h.audio_size as int)
        + le32(h.audio_samples as int)
}

/// The full 64-byte header: the fields followed by 18 zero bytes.
#[verifier::opaque]
pub open spec fn header_bytes(h: Header) -> Seq<u8> {
    header_fields_bytes(h) + zeros(18)
}

/// The header that `s` describes, read at the fixed field offsets.
pub open spec fn header_from_bytes(s: Seq<u8>) -> Header {
    Header {
        version: get_u16(s, 4),
        flags: get_u16(s, 6),
        codec: get_u16(s, 8),
        width: get_u16(s, 10),
        height: get_u16(s, 12),
        fps_num: get_u16(s, 14),
        fps_den: get_u16(s, 16),
        frame_count: get_u32(s, 18),
        index_offset: get_u32(s, 22),
        data_offset: get_u32(s, 26),
        audio_offset: get_u32(s, 30),
        audio_codec: get_u16(s, 34),
        audio_rate: get_u16(s, 36),
        audio_size: get_u32(s, 38),
        audio_samples: get_u32(s, 42),
    }
}

/// One seek-index entry.
#[derive(Clone, Copy, Debug)]
pub struct IndexEntry {
    pub frame_no: u32,
    pub file_offset: u32,
    pub audio_bytes_before: u32,
    pub adpcm_predictor: i16,
    pub adpcm_step_index: u8,
}

/// The 16 bytes of one index entry (the last is a zero pad byte).
pub open spec fn entry_bytes(e: IndexEntry) -> Seq<u8> {
    le32(e.frame_no as int) + le32(e.file_offset as int) + le32(e.audio_bytes_before as int) + le16(
        e.adpcm_predictor as int,
    ) + seq![e.adpcm_step_index, 0u8]
}

/// The entries' bytes, one after the other.
pub open spec fn entries_bytes(es: Seq<IndexEntry>) -> Seq<u8>
    decreases es.len(),
{
    if es.len() == 0 {
        Seq::empty()
    } else {
        entries_bytes(es.drop_last()) + entry_bytes(es.last())
    }
}

/// The index blob: magic, entry count (low 32 bits), entries.
pub open spec fn index_bytes(es: Seq<IndexEntry>) -> Seq<u8> {
    index_magic_bytes() + le32(es.len() as int) + entries_bytes(es)
}

pub proof fn lemma_entries_bytes_len(es: Seq<IndexEntry>)
    ensures
        entries_bytes(es).len() == 16 * es.len(),
    decreases es.len(),
{
    if es.len() > 0 {
        lemma_entries_bytes_len(es.drop_last());
    }
}

// ---------------------------------------------------------------------------
// Executable encoders
// ---------------------------------------------------------------------------

fn push_u16(out: &mut Vec<u8>, x: u16)
    ensures
        final(out)@ == old(out)@ + le16(x as int),
{
    out.push((x % 256) as u8);
    out.push((x / 256) as u8);
    assert(final(out)@ =~= old(out)@ + le16(x as int));
}

fn push_u32(out: &mut Vec<u8>, x: u32)
    ensures
        final(out)@ == old(out)@ + le32(x as int),
{
    out.push((x % 256) as u8);
    out.push(((x / 256) % 256) as u8);
    out.push(((x / 65536) % 256) as u8);
    out.push((x / 16777216) as u8);
    assert(final(out)@ =~= old(out)@ + le32(x as int));
}

fn push_i16(out: &mut Vec<u8>, x: i16)
    ensures
        final(out)@ == old(out)@ + le16(x as int),
{
    let u: u32 = if x < 0 {
        (x as i32 + 65536) as u32
    } else {
        x as u32
    };
    assert(u as int % 256 == x as int % 256);
    assert((u as int / 256) % 256 == (x as int / 256) % 256);
    out.push((u % 256) as u8);
    out.push(((u / 256) % 256) as u8);
    assert(final(out)@ =~= old(out)@ + le16(x as int));
}

fn push_bytes(out: &mut Vec<u8>, bytes: &[u8])
    ensures
        final(out)@ == old(out)@ + bytes@,
{
    out.extend_from_slice(bytes);
    assert(final(out)@ =~= old(out)@ + bytes@);
}

fn push_zeros(out: &mut Vec<u8>, n: usize)
    ensures
        final(out)@ == old(out)@ + zeros(n as nat),
{
    let mut i: usize = 0;
    while i < n
        invariant
            i <= n,
            out@ == old(out)@ + zeros(i as nat),
        decreases n - i,
    {
        out.push(0u8);
        i = i + 1;
        assert(out@ =~= old(out)@ + zeros(i as nat));
    }
}

fn push_entry(out: &mut Vec<u8>, e: IndexEntry)
    ensures
        final(out)@ == old(out)@ + entry_bytes(e),
{
    push_u32(out, e.frame_no);
    push_u32(out, e.file_offset);
    push_u32(out, e.audio_bytes_before);
    push_i16(out, e.adpcm_predictor);
    out.push(e.adpcm_step_index);
    out.push(0u8);
    assert(final(out)@ =~= old(out)@ + entry_bytes(e));
}

proof fn lemma_le32_of_cast(n: usize)
    ensures
        le32((n as u32) as int) == le32(n as int),
{
    let m = n as u64;
    assert((m as u32) % 256 == m % 256) by (bit_vector);
    assert(((m as u32) / 256) % 256 == (m / 256) % 256) by (bit_vector);
    assert(((m as u32) / 65536) % 256 == (m / 65536) % 256) by (bit_vector);
    assert(((m as u32) / 16777216) % 256 == (m / 16777216) % 256) by (bit_vector);
    assert((n as u32) == (m as u32));
    assert(le32((n as u32) as int) =~= le32(n as int));
}

/// Number of zero bytes that follow a record payload of `size` bytes so that
/// the next record starts on a four-byte boundary.
pub fn record_padding(size: usize) -> (pad: usize)
    ensures
        pad == padding(size as nat),
        pad < 4,
        (size + pad) % 4 == 0,
{
    (4 - size % 4) % 4
}

/// One record: `rtype`, a reserved zero, the payload size, the payload and
/// the padding to the next four-byte boundary.
#[verifier::spinoff_prover]
pub fn pack_record(rtype: u16, payload: &[u8]) -> (out: Vec<u8>)
    requires
        payload@.len() + RECORD_HDR_SIZE + 3 <= usize::MAX,
    ensures
        out@ == record_bytes(rtype, payload@),
        out@.len() == RECORD_HDR_SIZE + payload@.len() + padding(payload@.len()),
        out@.len() % 4 == 0,
{
    let mut out: Vec<u8> = Vec::with_capacity(RECORD_HDR_SIZE + payload.len() + 3);
    push_u16(&mut out, rtype);
    push_u16(&mut out, 0);
    push_u32(&mut out, payload.len() as u32);
    proof {
        lemma_le32_of_cast(payload.len());
    }
    push_bytes(&mut out, payload);
    push_zeros(&mut out, record_padding(payload.len()));
    assert(out@ =~= record_bytes(rtype, payload@));
    out
}

impl Header {
    /// The 64-byte encoding of the header: `FWMV`, the fields in declaration
    /// order, then zero padding.
    pub fn pack(&self) -> (b: [u8; HEADER_SIZE])
        ensures
            b@ == header_bytes(*self),
    {
        let mut v: Vec<u8> = Vec::with_capacity(HEADER_SIZE);
        push_bytes(&mut v, MAGIC.as_slice());
        push_u16(&mut v, self.version);
        push_u16(&mut v, self.flags);
        push_u16(&mut v, self.codec);
        push_u16(&mut v, self.width);
        push_u16(&mut v, self.height);
        push_u16(&mut v, self.fps_num);
        push_u16(&mut v, self.fps_den);
        push_u32(&mut v, self.frame_count);
        push_u32(&mut v, self.index_offset);
        push_u32(&mut v, self.data_offset);
        push_u32(&mut v, self.audio_offset);
        push_u16(&mut v, self.audio_codec);
        push_u16(&mut v, self.audio_rate);
        push_u32(&mut v, self.audio_size);
        push_u32(&mut v, self.audio_samples);
        push_zeros(&mut v, 18);
        assert(MAGIC@ =~= magic_bytes());
        proof {
            reveal(header_bytes);
        }
        assert(v@ =~= header_bytes(*self));
        let mut b = [0u8; HEADER_SIZE];
        let mut i: usize = 0;
        while i < HEADER_SIZE
            invariant
                i <= HEADER_SIZE,
                v@.len() == HEADER_SIZE,
                forall|j: int| 0 <= j < i ==> b@[j] == v@[j],
            decreases HEADER_SIZE - i,
        {
            b[i] = v[i];
            i = i + 1;
        }
        assert(b@ =~= v@);
        b
    }

    /// Reads the header fields from their fixed offsets in `buf` (the magic
    /// and the trailing padding are not examined).
    pub fn parse(buf: &[u8]) -> (h: Header)
        requires
            buf@.len() >= 46,
        ensures
            h == header_from_bytes(buf@),
            h.version == get_u16(buf@, 4),
            h.flags == get_u16(buf@, 6),
            h.codec == get_u16(buf@, 8),
            h.width == get_u16(buf@, 10),
            h.height == get_u16(buf@, 12),
            h.fps_num == get_u16(buf@, 14),
            h.fps_den == get_u16(buf@, 16),
            h.frame_count == get_u32(buf@, 18),
            h.index_offset == get_u32(buf@, 22),
            h.data_offset == get_u32(buf@, 26),
            h.audio_offset == get_u32(buf@, 30),
            h.audio_codec == get_u16(buf@, 34),
            h.audio_rate == get_u16(buf@, 36),
            h.audio_size == get_u32(buf@, 38),
            h.audio_samples == get_u32(buf@, 42),
    {
        Header {
            version: read_u16(buf, 4),
            flags: read_u16(buf, 6),
            codec: read_u16(buf, 8),
            width: read_u16(buf, 10),
            height: read_u16(buf, 12),
            fps_num: read_u16(buf, 14),
            fps_den: read_u16(buf, 16),
            frame_count: read_u32(buf, 18),
            index_offset: read_u32(buf, 22),
            data_offset: read_u32(buf, 26),
            audio_offset: read_u32(buf, 30),
            audio_codec: read_u16(buf, 34),
            audio_rate: read_u16(buf, 36),
            audio_size: read_u32(buf, 38),
            audio_samples: read_u32(buf, 42),
        }
    }
}

fn read_u16(buf: &[u8], o: usize) -> (x: u16)
    requires
        o + 2 <= buf@.len(),
    ensures
        x == get_u16(buf@, o as int),
{
    buf[o] as u16 + 256 * (buf[o + 1] as u16)
}

fn read_u32(buf: &[u8], o: usize) -> (x: u32)
    requires
        o + 4 <= buf@.len(),
    ensures
        x == get_u32(buf@, o as int),
{
    buf[o] as u32 + 256 * (buf[o + 1] as u32) + 65536 * (buf[o + 2] as u32) + 16777216 * (buf[o
        + 3] as u32)
}

/// Size in bytes of an index blob with `n_entries` entries.
pub fn index_size(n_entries: usize) -> (size: usize)
    requires
        8 + n_entries * INDEX_ENTRY_SIZE <= usize::MAX,
    ensures
        size == 8 + n_entries * INDEX_ENTRY_SIZE,
{
    8 + n_entries * INDEX_ENTRY_SIZE
}

/// The seek index: `FWIX`, the entry count, then 16 bytes per entry.
pub fn pack_index(entries: &[IndexEntry]) -> (out: Vec<u8>)
    requires
        8 + entries@.len() * INDEX_ENTRY_SIZE <= usize::MAX,
    ensures
        out@ == index_bytes(entries@),
        out@.len() == 8 + entries@.len() * INDEX_ENTRY_SIZE,
{
    let mut out: Vec<u8> = Vec::with_capacity(index_size(entries.len()));
    push_bytes(&mut out, INDEX_MAGIC.as_slice());
    push_u32(&mut out, entries.len() as u32);
    assert(INDEX_MAGIC@ =~= index_magic_bytes());
    proof {
        lemma_le32_of_cast(entries.len());
    }
    let ghost start = out@;
    let mut i: usize = 0;
    while i < entries.len()
        invariant
            i <= entries@.len(),
            start == index_magic_bytes() + le32(entries@.len() as int),
            out@ == start + entries_bytes(entries@.subrange(0, i as int)),
        decreases entries@.len() - i,
    {
        let e = entries[i];
        push_entry(&mut out, e);
        proof {
            let s = entries@.subrange(0, i + 1);
            assert(s.drop_last() =~= entries@.subrange(0, i as int));
            assert(s.last() == e);
            assert(entries_bytes(s) == entries_bytes(entries@.subrange(0, i as int)) + entry_bytes(e));
        }
        i = i + 1;
        assert(out@ =~= start + entries_bytes(entries@.subrange(0, i as int)));
    }
    assert(entries@.subrange(0, entries@.len() as int) =~= entries@);
    proof {
        lemma_entries_bytes_len(entries@);
    }
    out
}

// ---------------------------------------------------------------------------
// Laws
// ---------------------------------------------------------------------------

/// The padded record always ends on a four-byte boundary and is exactly the
/// 8-byte record header, the payload, and fewer than four pad bytes.
pub proof fn lemma_record_len(rtype: u16, payload: Seq<u8>)
    ensures
        record_bytes(rtype, payload).len() == 8 + payload.len() + padding(payload.len()),
        record_bytes(rtype, payload).len() % 4 == 0,
        padding(payload.len()) < 4,
{
}

pub proof fn lemma_u16_val(x: u16)
    ensures
        get_u16(le16(x as int), 0) == x,
{
    assert((x % 256) + 256 * ((x / 256) % 256) == x) by (bit_vector);
}

pub proof fn lemma_u32_val(x: u32)
    ensures
        get_u32(le32(x as int), 0) == x,
{
    assert((x % 256) + 256 * ((x / 256) % 256) + 65536 * ((x / 65536) % 256) + 16777216 * ((x
        / 16777216) % 256) == x) by (bit_vector);
}

/// The value the header stores at field offset `o`.
spec fn header_field(h: Header, o: int) -> int {
    if o == 4 {
        h.version as int
    } else if o == 6 {
        h.flags as int
    } else if o == 8 {
        h.codec as int
    } else if o == 10 {
        h.width as int
    } else if o == 12 {
        h.height as int
    } else if o == 14 {
        h.fps_num as int
    } else if o == 16 {
        h.fps_den as int
    } else if o == 18 {
        h.frame_count as int
    } else if o == 22 {
        h.index_offset as int
    } else if o == 26 {
        h.data_offset as int
    } else if o == 30 {
        h.audio_offset as int
    } else if o == 34 {
        h.audio_codec as int
    } else if o == 36 {
        h.audio_rate as int
    } else if o == 38 {
        h.audio_size as int
    } else {
        h.audio_samples as int
    }
}

spec fn u16_field(o: int) -> bool {
    o == 4 || o == 6 || o == 8 || o == 10 || o == 12 || o == 14 || o == 16 || o == 34 || o == 36
}

spec fn u32_field(o: int) -> bool {
    o == 18 || o == 22 || o == 26 || o == 30 || o == 38 || o == 42
}

/// A 16-bit field reads back from the packed header.
#[verifier::rlimit(30)]
proof fn lemma_header_u16_field(h: Header, o: int)
    requires
        u16_field(o),
    ensures
        get_u16(header_bytes(h), o) == header_field(h, o),
{
    reveal(header_bytes);
    let s = header_bytes(h);
    let x = header_field(h, o) as u16;
    let e = le16(x as int);
    assert(s[o] == e[0] && s[o + 1] == e[1]);
    lemma_u16_val(x);
}

/// A 32-bit field reads back from the packed header.
#[verifier::rlimit(30)]
proof fn lemma_header_u32_field(h: Header, o: int)
    requires
        u32_field(o),
    ensures
        get_u32(header_bytes(h), o) == header_field(h, o),
{
    reveal(header_bytes);
    let s = header_bytes(h);
    let x = header_field(h, o) as u32;
    let e = le32(x as int);
    assert(s[o] == e[0] && s[o + 1] == e[1] && s[o + 2] == e[2] && s[o + 3] == e[3]);
    lemma_u32_val(x);
}

/// The packed header is `HEADER_SIZE` bytes long and starts with the magic.
proof fn lemma_header_magic(h: Header)
    ensures
        header_bytes(h).len() == HEADER_SIZE,
        header_bytes(h).subrange(0, 4) == magic_bytes(),
{
    reveal(header_bytes);
    assert(header_bytes(h).subrange(0, 4) =~= magic_bytes());
}

/// Reading a packed header back yields the same header: every field survives
/// `pack` followed by `parse`.
pub proof fn lemma_header_round_trip(h: Header)
    ensures
        header_bytes(h).len() == HEADER_SIZE,
        header_bytes(h).subrange(0, 4) == magic_bytes(),
        header_from_bytes(header_bytes(h)) == h,
{
    lemma_header_u16_field(h, 4);
    lemma_header_u16_field(h, 6);
    lemma_header_u16_field(h, 8);
    lemma_header_u16_field(h, 10);
    lemma_header_u16_field(h, 12);
    lemma_header_u16_field(h, 14);
    lemma_header_u16_field(h, 16);
    lemma_header_u16_field(h, 34);
    lemma_header_u16_field(h, 36);
    lemma_header_u32_field(h, 18);
    lemma_header_u32_field(h, 22);
    lemma_header_u32_field(h, 26);
    lemma_header_u32_field(h, 30);
    lemma_header_u32_field(h, 38);
    lemma_header_u32_field(h, 42);
    lemma_header_magic(h);
}


proof fn lemma_le16_of_bytes(a: u8, b: u8)
    ensures
        le16(a + 256 * b) == seq![a, b],
{
    let x: int = a + 256 * b;
    lemma_fundamental_div_mod_converse(x, 256, b as int, a as int);
    lemma_fundamental_div_mod_converse(b as int, 256, 0, b as int);
    assert(le16(x) =~= seq![a, b]);
}

proof fn lemma_le32_of_bytes(a: u8, b: u8, c: u8, d: u8)
    ensures
        le32(a + 256 * b + 65536 * c + 16777216 * d) == seq![a, b, c, d],
{
    let x: int = a + 256 * b + 65536 * c + 16777216 * d;
    lemma_fundamental_div_mod_converse(x, 256, b + 256 * c + 65536 * d, a as int);
    lemma_fundamental_div_mod_converse(b + 256 * c + 65536 * d, 256, c + 256 * d, b as int);
    lemma_fundamental_div_mod_converse(x, 65536, c + 256 * d, a + 256 * b);
    lemma_fundamental_div_mod_converse(c + 256 * d, 256, d as int, c as int);
    lemma_fundamental_div_mod_converse(x, 16777216, d as int, a + 256 * b + 65536 * c);
    lemma_fundamental_div_mod_converse(d as int, 256, 0, d as int);
    assert(le32(x) =~= seq![a, b, c, d]);
}

proof fn lemma_u16_field_bytes(s: Seq<u8>, o: int)
    requires
        0 <= o,
        o + 2 <= s.len(),
    ensures
        le16(get_u16(s, o) as int) == s.subrange(o, o + 2),
{
    lemma_le16_of_bytes(s[o], s[o + 1]);
    assert(s.subrange(o, o + 2) =~= seq![s[o], s[o + 1]]);
}

proof fn lemma_u32_field_bytes(s: Seq<u8>, o: int)
    requires
        0 <= o,
        o + 4 <= s.len(),
    ensures
        le32(get_u32(s, o) as int) == s.subrange(o, o + 4),
{
    lemma_le32_of_bytes(s[o], s[o + 1], s[o + 2], s[o + 3]);
    assert(s.subrange(o, o + 4) =~= seq![s[o], s[o + 1], s[o + 2], s[o + 3]]);
}

/// Packing the header read from a buffer gives back the buffer's first 64
/// bytes, provided those start with the magic and end in zero padding (the
/// two parts that `parse` does not read).
#[verifier::rlimit(40)]
pub proof fn lemma_header_parse_then_pack(s: Seq<u8>)
    requires
        s.len() >= HEADER_SIZE,
        s.subrange(0, 4) == magic_bytes(),
        s.subrange(46, 64) == zeros(18),
    ensures
        header_bytes(header_from_bytes(s)) == s.subrange(0, HEADER_SIZE as int),
{
    reveal(header_bytes);
    let h = header_from_bytes(s);
    lemma_u16_field_bytes(s, 4);
    lemma_u16_field_bytes(s, 6);
    lemma_u16_field_bytes(s, 8);
    lemma_u16_field_bytes(s, 10);
    lemma_u16_field_bytes(s, 12);
    lemma_u16_field_bytes(s, 14);
    lemma_u16_field_bytes(s, 16);
    lemma_u32_field_bytes(s, 18);
    lemma_u32_field_bytes(s, 22);
    lemma_u32_field_bytes(s, 26);
    lemma_u32_field_bytes(s, 30);
    lemma_u16_field_bytes(s, 34);
    lemma_u16_field_bytes(s, 36);
    lemma_u32_field_bytes(s, 38);
    lemma_u32_field_bytes(s, 42);
    let t = s.subrange(0, 64);
    assert(t =~= s.subrange(0, 4) + s.subrange(4, 6) + s.subrange(6, 8) + s.subrange(8, 10)
        + s.subrange(10, 12) + s.subrange(12, 14) + s.subrange(14, 16) + s.subrange(16, 18)
        + s.subrange(18, 22) + s.subrange(22, 26) + s.subrange(26, 30) + s.subrange(30, 34)
        + s.subrange(34, 36) + s.subrange(36, 38) + s.subrange(38, 42) + s.subrange(42, 46)
        + s.subrange(46, 64));
}

/// The index blob for `n` entries is `index_size(n)` bytes: eight bytes of
/// magic and count, then sixteen per entry.
pub proof fn lemma_index_bytes_len(es: Seq<IndexEntry>)
    ensures
        index_bytes(es).len() == 8 + INDEX_ENTRY_SIZE * es.len(),
{
    lemma_entries_bytes_len(es);
}


/// The header's byte layout, field by field: `FWMV`, then each field
/// little-endian at its fixed offset (`version` 4, `flags` 6, `codec` 8,
/// `width` 10, `height` 12, `fps_num` 14, `fps_den` 16, `frame_count` 18,
/// `index_offset` 22, `data_offset` 26, `audio_offset` 30, `audio_codec` 34,
/// `audio_rate` 36, `audio_size` 38, `audio_samples` 42), then zeros to byte 64.
pub proof fn lemma_header_layout(h: Header)
    ensures
        ({
            let b = header_bytes(h);
            &&& b.len() == 64
            &&& b.subrange(0, 4) == seq![0x46u8, 0x57u8, 0x4Du8, 0x56u8]
            &&& get_u16(b, 4) == h.version
            &&& get_u16(b, 6) == h.flags
            &&& get_u16(b, 8) == h.codec
            &&& get_u16(b, 10) == h.width
            &&& get_u16(b, 12) == h.height
            &&& get_u16(b, 14) == h.fps_num
            &&& get_u16(b, 16) == h.fps_den
            &&& get_u32(b, 18) == h.frame_count
            &&& get_u32(b, 22) == h.index_offset
            &&& get_u32(b, 26) == h.data_offset
            &&& get_u32(b, 30) == h.audio_offset
            &&& get_u16(b, 34) == h.audio_codec
            &&& get_u16(b, 36) == h.audio_rate
            &&& get_u32(b, 38) == h.audio_size
            &&& get_u32(b, 42) == h.audio_samples
            &&& forall|i: int| 46 <= i < 64 ==> #[trigger] b[i] == 0u8
        }),
{
    lemma_header_u16_field(h, 4);
    lemma_header_u16_field(h, 6);
    lemma_header_u16_field(h, 8);
    lemma_header_u16_field(h, 10);
    lemma_header_u16_field(h, 12);
    lemma_header_u16_field(h, 14);
    lemma_header_u16_field(h, 16);
    lemma_header_u32_field(h, 18);
    lemma_header_u32_field(h, 22);
    lemma_header_u32_field(h, 26);
    lemma_header_u32_field(h, 30);
    lemma_header_u16_field(h, 34);
    lemma_header_u16_field(h, 36);
    lemma_header_u32_field(h, 38);
    lemma_header_u32_field(h, 42);
    lemma_header_magic(h);
    reveal(header_bytes);
    let b = header_bytes(h);
    assert forall|i: int| 46 <= i < 64 implies #[trigger] b[i] == 0u8 by {
        assert(b[i] == zeros(18)[i - 46]);
    }
}


/// The integer encodings are little-endian: the bytes of `le16(x)` and
/// `le32(x)`, least significant first, add up to `x` for every `x` that
/// fits.
pub proof fn lemma_little_endian(x: int)
    ensures
        0 <= x < 0x1_0000 ==> le16(x)[0] + 0x100 * le16(x)[1] == x,
        0 <= x < 0x1_0000_0000 ==> le32(x)[0] + 0x100 * le32(x)[1] + 0x1_0000 * le32(x)[2]
            + 0x100_0000 * le32(x)[3] == x,
{
    if 0 <= x < 0x1_0000 {
        lemma_u16_val(x as u16);
    }
    if 0 <= x < 0x1_0000_0000 {
        lemma_u32_val(x as u32);
    }
}

} // verus!
