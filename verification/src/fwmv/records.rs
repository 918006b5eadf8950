//! Reading a record stream back: the records that bytes hold, read from the
//! front, and what the stream that `pack` writes holds when read that way.
use vstd::prelude::*;
use crate::fwmv::format::{
    record_bytes, get_u16, get_u32, le16, le32, padding, lemma_u16_val, lemma_u32_val,
    lemma_record_len, lemma_header_round_trip, header_bytes, index_bytes, REC_AUDIO, REC_VIDEO,
    REC_END, HEADER_SIZE,
};
use crate::fwmv::{
    PackParams, lead_records, frame_groups, frame_group, lead_count, audio_chunk, adpcm_blob,
    record_stream, pack_spec, pack_header, index_entries, chunks_concat, lemma_chunk_bounds,
    lemma_audio_chunks_cover_blob, lemma_chunks_concat_prefix, lemma_audio_before_mono,
    lemma_index_entry_points_at_frame, stream_before, audio_before, entry_at,
};
use crate::fwmv::adpcm::{as_entry_state, scan_state, dec_state, lemma_dec_state_valid};

verus! {

/// The records that `s` holds, read from its start: each is its type and
/// its payload. Reading stops after an END record, or where the bytes left
/// cannot hold the next record.
pub open spec fn read_records(s: Seq<u8>) -> Seq<(u16, Seq<u8>)>
    decreases s.len(),
{
    if s.len() < 8 {
        Seq::empty()
    } else {
        let t = get_u16(s, 0);
        let size = get_u32(s, 4) as int;
        let total = 8 + size + padding(size as nat);
        if total > s.len() {
            Seq::empty()
        } else if t == REC_END {
            seq![(t, s.subrange(8, 8 + size))]
        } else {
            seq![(t, s.subrange(8, 8 + size))] + read_records(s.subrange(total, s.len() as int))
        }
    }
}

/// The payloads of the records of type `rtype`, in order.
pub open spec fn payloads_of(rs: Seq<(u16, Seq<u8>)>, rtype: u16) -> Seq<Seq<u8>>
    decreases rs.len(),
{
    if rs.len() == 0 {
        Seq::empty()
    } else {
        payloads_of(rs.drop_last(), rtype) + if rs.last().0 == rtype {
            seq![rs.last().1]
        } else {
            Seq::empty()
        }
    }
}

/// A record reads back as its type and payload, and reading goes on right
/// after it unless it is the END record.
pub proof fn lemma_read_record(t: u16, payload: Seq<u8>, rest: Seq<u8>)
    requires
        payload.len() <= u32::MAX,
    ensures
        t != REC_END ==> read_records(record_bytes(t, payload) + rest) == seq![(t, payload)]
            + read_records(rest),
        t == REC_END ==> read_records(record_bytes(t, payload) + rest) == seq![(t, payload)],
{
    let r = record_bytes(t, payload);
    let s = r + rest;
    let size = payload.len();
    lemma_record_len(t, payload);
    lemma_u16_val(t);
    lemma_u32_val(size as u32);
    let h16 = le16(t as int);
    let h32 = le32(size as int);
    assert(s[0] == h16[0] && s[1] == h16[1]);
    assert(s[4] == h32[0] && s[5] == h32[1] && s[6] == h32[2] && s[7] == h32[3]);
    assert(get_u16(s, 0) == t);
    assert(get_u32(s, 4) == size);
    assert(s.subrange(8, 8 + size as int) =~= payload);
    let total = 8 + size + padding(size);
    assert(s.subrange(total as int, s.len() as int) =~= rest);
}

proof fn lemma_payloads_concat(a: Seq<(u16, Seq<u8>)>, b: Seq<(u16, Seq<u8>)>, rtype: u16)
    ensures
        payloads_of(a + b, rtype) == payloads_of(a, rtype) + payloads_of(b, rtype),
    decreases b.len(),
{
    if b.len() == 0 {
        assert(a + b =~= a);
        assert(payloads_of(a, rtype) + payloads_of(b, rtype) =~= payloads_of(a, rtype));
    } else {
        lemma_payloads_concat(a, b.drop_last(), rtype);
        assert((a + b).drop_last() =~= a + b.drop_last());
        assert((a + b).last() == b.last());
        assert(payloads_of(a + b, rtype) =~= payloads_of(a, rtype) + payloads_of(b, rtype));
    }
}


proof fn lemma_payloads_single(x: (u16, Seq<u8>), rtype: u16)
    ensures
        payloads_of(seq![x], rtype) == if x.0 == rtype {
            seq![x.1]
        } else {
            Seq::empty()
        },
{
    let e = Seq::<(u16, Seq<u8>)>::empty();
    assert(seq![x].drop_last() =~= e);
    assert(seq![x].last() == x);
    assert(payloads_of(e, rtype) =~= Seq::<Seq<u8>>::empty());
    assert(payloads_of(seq![x], rtype) == payloads_of(e, rtype) + if x.0 == rtype {
        seq![x.1]
    } else {
        Seq::empty()
    });
    assert(payloads_of(seq![x], rtype) =~= (if x.0 == rtype {
        seq![x.1]
    } else {
        Seq::empty()
    }));
}

// ---------------------------------------------------------------------------
// The records of the stream that `pack` writes
// ---------------------------------------------------------------------------

/// The first `k` lead-in audio records, as (type, payload).
spec fn lead_list(frames: Seq<Vec<u8>>, audio: Option<Seq<i16>>, p: PackParams, k: nat) -> Seq<
    (u16, Seq<u8>),
>
    decreases k,
{
    if k == 0 {
        Seq::empty()
    } else {
        lead_list(frames, audio, p, (k - 1) as nat).push(
            (REC_AUDIO, audio_chunk(k - 1, frames.len() as int, audio, p)),
        )
    }
}

/// The records of frame `i`'s group.
spec fn group_list(frames: Seq<Vec<u8>>, audio: Option<Seq<i16>>, p: PackParams, i: int) -> Seq<
    (u16, Seq<u8>),
> {
    let n = frames.len() as int;
    let j = i + lead_count(n, audio, p);
    seq![(REC_VIDEO, frames[i]@)] + if audio is Some && j < n {
        seq![(REC_AUDIO, audio_chunk(j, n, audio, p))]
    } else {
        Seq::empty()
    }
}

/// The records of the groups of the first `k` frames.
spec fn groups_list(frames: Seq<Vec<u8>>, audio: Option<Seq<i16>>, p: PackParams, k: nat) -> Seq<
    (u16, Seq<u8>),
>
    decreases k,
{
    if k == 0 {
        Seq::empty()
    } else {
        groups_list(frames, audio, p, (k - 1) as nat) + group_list(frames, audio, p, k - 1)
    }
}

proof fn lemma_lead_list_items(frames: Seq<Vec<u8>>, audio: Option<Seq<i16>>, p: PackParams, k: nat)
    ensures
        lead_list(frames, audio, p, k).len() == k,
        forall|i: int|
            0 <= i < k ==> #[trigger] lead_list(frames, audio, p, k)[i] == (
                REC_AUDIO,
                audio_chunk(i, frames.len() as int, audio, p),
            ),
    decreases k,
{
    if k > 0 {
        lemma_lead_list_items(frames, audio, p, (k - 1) as nat);
    }
}

proof fn lemma_groups_list_first(frames: Seq<Vec<u8>>, audio: Option<Seq<i16>>, p: PackParams, k: nat)
    requires
        1 <= k,
    ensures
        groups_list(frames, audio, p, k).len() >= 1,
        groups_list(frames, audio, p, k)[0] == (REC_VIDEO, frames[0]@),
    decreases k,
{
    if k == 1 {
        let g = groups_list(frames, audio, p, 1);
        assert(groups_list(frames, audio, p, 0) =~= Seq::<(u16, Seq<u8>)>::empty());
        assert(g =~= group_list(frames, audio, p, 0));
    } else {
        lemma_groups_list_first(frames, audio, p, (k - 1) as nat);
    }
}

/// Every payload fits the 32-bit size field of its record.
spec fn sizes_fit(frames: Seq<Vec<u8>>, audio: Option<Seq<i16>>, p: PackParams) -> bool {
    &&& forall|i: int| 0 <= i < frames.len() ==> #[trigger] frames[i]@.len() <= u32::MAX
    &&& audio is Some ==> forall|i: int|
        0 <= i < frames.len() ==> #[trigger] audio_chunk(i, frames.len() as int, audio, p).len()
            <= u32::MAX
}

#[verifier::spinoff_prover]
proof fn lemma_read_lead(
    frames: Seq<Vec<u8>>,
    audio: Option<Seq<i16>>,
    p: PackParams,
    k: nat,
    rest: Seq<u8>,
)
    requires
        sizes_fit(frames, audio, p),
        k <= lead_count(frames.len() as int, audio, p) <= frames.len(),
    ensures
        read_records(lead_records(frames, audio, p, k) + rest) == lead_list(frames, audio, p, k)
            + read_records(rest),
    decreases k,
{
    if k == 0 {
        assert(lead_records(frames, audio, p, k) + rest =~= rest);
        assert(lead_list(frames, audio, p, k) + read_records(rest) =~= read_records(rest));
    } else {
        let n = frames.len() as int;
        let c = audio_chunk(k - 1, n, audio, p);
        let r = record_bytes(REC_AUDIO, c);
        lemma_read_lead(frames, audio, p, (k - 1) as nat, r + rest);
        assert(lead_records(frames, audio, p, k) + rest =~= lead_records(
            frames,
            audio,
            p,
            (k - 1) as nat,
        ) + (r + rest));
        lemma_read_record(REC_AUDIO, c, rest);
        assert(lead_list(frames, audio, p, k) + read_records(rest) =~= lead_list(
            frames,
            audio,
            p,
            (k - 1) as nat,
        ) + (seq![(REC_AUDIO, c)] + read_records(rest)));
    }
}

#[verifier::spinoff_prover]
proof fn lemma_read_group(
    frames: Seq<Vec<u8>>,
    audio: Option<Seq<i16>>,
    p: PackParams,
    i: int,
    rest: Seq<u8>,
)
    requires
        sizes_fit(frames, audio, p),
        0 <= i < frames.len(),
        0 <= lead_count(frames.len() as int, audio, p),
    ensures
        read_records(frame_group(frames, audio, p, i) + rest) == group_list(frames, audio, p, i)
            + read_records(rest),
{
    let n = frames.len() as int;
    let j = i + lead_count(n, audio, p);
    let f = frames[i]@;
    let v = record_bytes(REC_VIDEO, f);
    if audio is Some && j < n {
        let c = audio_chunk(j, n, audio, p);
        let a = record_bytes(REC_AUDIO, c);
        assert(frame_group(frames, audio, p, i) + rest =~= v + (a + rest));
        lemma_read_record(REC_VIDEO, f, a + rest);
        lemma_read_record(REC_AUDIO, c, rest);
        assert(group_list(frames, audio, p, i) + read_records(rest) =~= seq![(REC_VIDEO, f)] + (
        seq![(REC_AUDIO, c)] + read_records(rest)));
    } else {
        assert(frame_group(frames, audio, p, i) + rest =~= v + rest);
        lemma_read_record(REC_VIDEO, f, rest);
        assert(group_list(frames, audio, p, i) =~= seq![(REC_VIDEO, f)]);
    }
}

#[verifier::spinoff_prover]
proof fn lemma_read_groups(
    frames: Seq<Vec<u8>>,
    audio: Option<Seq<i16>>,
    p: PackParams,
    k: nat,
    rest: Seq<u8>,
)
    requires
        sizes_fit(frames, audio, p),
        k <= frames.len(),
        0 <= lead_count(frames.len() as int, audio, p),
    ensures
        read_records(frame_groups(frames, audio, p, k) + rest) == groups_list(frames, audio, p, k)
            + read_records(rest),
    decreases k,
{
    if k == 0 {
        assert(frame_groups(frames, audio, p, k) + rest =~= rest);
        assert(groups_list(frames, audio, p, k) + read_records(rest) =~= read_records(rest));
    } else {
        let g = frame_group(frames, audio, p, k - 1);
        lemma_read_groups(frames, audio, p, (k - 1) as nat, g + rest);
        assert(frame_groups(frames, audio, p, k) + rest =~= frame_groups(
            frames,
            audio,
            p,
            (k - 1) as nat,
        ) + (g + rest));
        lemma_read_group(frames, audio, p, k - 1, rest);
        assert(groups_list(frames, audio, p, k) + read_records(rest) =~= groups_list(
            frames,
            audio,
            p,
            (k - 1) as nat,
        ) + (group_list(frames, audio, p, k - 1) + read_records(rest)));
    }
}


proof fn lemma_payloads_empty(rtype: u16)
    ensures
        payloads_of(Seq::<(u16, Seq<u8>)>::empty(), rtype) == Seq::<Seq<u8>>::empty(),
{
    assert(payloads_of(Seq::<(u16, Seq<u8>)>::empty(), rtype) =~= Seq::<Seq<u8>>::empty());
}

proof fn lemma_lead_payloads(frames: Seq<Vec<u8>>, audio: Option<Seq<i16>>, p: PackParams, k: nat)
    ensures
        payloads_of(lead_list(frames, audio, p, k), REC_AUDIO) == Seq::new(
            k,
            |i: int| audio_chunk(i, frames.len() as int, audio, p),
        ),
        payloads_of(lead_list(frames, audio, p, k), REC_VIDEO) == Seq::<Seq<u8>>::empty(),
    decreases k,
{
    let n = frames.len() as int;
    if k == 0 {
        lemma_payloads_empty(REC_AUDIO);
        lemma_payloads_empty(REC_VIDEO);
        assert(Seq::new(k, |i: int| audio_chunk(i, n, audio, p)) =~= Seq::<Seq<u8>>::empty());
    } else {
        lemma_lead_payloads(frames, audio, p, (k - 1) as nat);
        let l = lead_list(frames, audio, p, k);
        assert(l.drop_last() =~= lead_list(frames, audio, p, (k - 1) as nat));
        assert(l.last() == (REC_AUDIO, audio_chunk(k - 1, n, audio, p)));
        assert(payloads_of(l, REC_AUDIO) =~= Seq::new(k, |i: int| audio_chunk(i, n, audio, p)));
        assert(payloads_of(l, REC_VIDEO) =~= Seq::<Seq<u8>>::empty());
    }
}

/// Audio records among the groups of the first `k` frames: those of the
/// chunks after the lead-in that still fall inside the clip.
spec fn group_audio_count(n: int, lead: int, audio: Option<Seq<i16>>, k: int) -> int {
    if audio is Some {
        if k < n - lead {
            k
        } else {
            n - lead
        }
    } else {
        0
    }
}

proof fn lemma_group_payloads(frames: Seq<Vec<u8>>, audio: Option<Seq<i16>>, p: PackParams, i: int)
    ensures
        payloads_of(group_list(frames, audio, p, i), REC_VIDEO) == seq![frames[i]@],
        ({
            let n = frames.len() as int;
            let j = i + lead_count(n, audio, p);
            payloads_of(group_list(frames, audio, p, i), REC_AUDIO) == if audio is Some && j < n {
                seq![audio_chunk(j, n, audio, p)]
            } else {
                Seq::<Seq<u8>>::empty()
            }
        }),
{
    let n = frames.len() as int;
    let j = i + lead_count(n, audio, p);
    let head = seq![(REC_VIDEO, frames[i]@)];
    let tail: Seq<(u16, Seq<u8>)> = if audio is Some && j < n {
        seq![(REC_AUDIO, audio_chunk(j, n, audio, p))]
    } else {
        Seq::empty()
    };
    assert(group_list(frames, audio, p, i) == head + tail);
    lemma_payloads_concat(head, tail, REC_VIDEO);
    lemma_payloads_concat(head, tail, REC_AUDIO);
    lemma_payloads_single((REC_VIDEO, frames[i]@), REC_VIDEO);
    lemma_payloads_single((REC_VIDEO, frames[i]@), REC_AUDIO);
    if audio is Some && j < n {
        lemma_payloads_single((REC_AUDIO, audio_chunk(j, n, audio, p)), REC_VIDEO);
        lemma_payloads_single((REC_AUDIO, audio_chunk(j, n, audio, p)), REC_AUDIO);
    } else {
        lemma_payloads_empty(REC_VIDEO);
        lemma_payloads_empty(REC_AUDIO);
    }
    assert(payloads_of(head + tail, REC_VIDEO) =~= seq![frames[i]@]);
    assert(payloads_of(head + tail, REC_AUDIO) =~= (if audio is Some && j < n {
        seq![audio_chunk(j, n, audio, p)]
    } else {
        Seq::<Seq<u8>>::empty()
    }));
}

proof fn lemma_groups_payloads(frames: Seq<Vec<u8>>, audio: Option<Seq<i16>>, p: PackParams, k: nat)
    requires
        k <= frames.len(),
        0 <= lead_count(frames.len() as int, audio, p) <= frames.len(),
    ensures
        payloads_of(groups_list(frames, audio, p, k), REC_VIDEO) == Seq::new(
            k,
            |i: int| frames[i]@,
        ),
        ({
            let n = frames.len() as int;
            let l = lead_count(n, audio, p);
            payloads_of(groups_list(frames, audio, p, k), REC_AUDIO) == Seq::new(
                group_audio_count(n, l, audio, k as int) as nat,
                |t: int| audio_chunk(l + t, n, audio, p),
            )
        }),
    decreases k,
{
    let n = frames.len() as int;
    let l = lead_count(n, audio, p);
    if k == 0 {
        lemma_payloads_empty(REC_AUDIO);
        lemma_payloads_empty(REC_VIDEO);
        assert(Seq::new(k, |i: int| frames[i]@) =~= Seq::<Seq<u8>>::empty());
        assert(Seq::new(
            group_audio_count(n, l, audio, k as int) as nat,
            |t: int| audio_chunk(l + t, n, audio, p),
        ) =~= Seq::<Seq<u8>>::empty());
    } else {
        lemma_groups_payloads(frames, audio, p, (k - 1) as nat);
        let a = groups_list(frames, audio, p, (k - 1) as nat);
        let g = group_list(frames, audio, p, k - 1);
        lemma_payloads_concat(a, g, REC_VIDEO);
        lemma_payloads_concat(a, g, REC_AUDIO);
        lemma_group_payloads(frames, audio, p, k - 1);
        assert(payloads_of(a + g, REC_VIDEO) =~= Seq::new(k, |i: int| frames[i]@));
        assert(payloads_of(a + g, REC_AUDIO) =~= Seq::new(
            group_audio_count(n, l, audio, k as int) as nat,
            |t: int| audio_chunk(l + t, n, audio, p),
        ));
    }
}

/// Reading the file back: the records after the header are every frame's
/// video record, in frame order, and with audio one audio record per frame
/// whose payloads, in stream order, are the per-frame chunks of the ADPCM
/// stream, which together make up exactly that stream; the last record read
/// is END. The stream opens with the lead-in audio records, then frame 0's
/// video record. (The payload sizes must fit their 32-bit fields.)
#[verifier::spinoff_prover]
pub proof fn lemma_file_records(frames: Seq<Vec<u8>>, audio: Option<Seq<i16>>, p: PackParams)
    requires
        p.fps_num > 0,
        p.fps_den > 0,
        forall|i: int| 0 <= i < frames.len() ==> #[trigger] frames[i]@.len() <= u32::MAX,
        adpcm_blob(frames.len() as int, audio, p).len() <= u32::MAX,
    ensures
        ({
            let s = pack_spec(frames, audio, p);
            let rs = read_records(s.subrange(HEADER_SIZE as int, s.len() as int));
            let n = frames.len() as int;
            &&& payloads_of(rs, REC_VIDEO) == Seq::new(frames.len(), |i: int| frames[i]@)
            &&& payloads_of(rs, REC_AUDIO) == if audio is Some {
                Seq::new(frames.len(), |i: int| audio_chunk(i, n, audio, p))
            } else {
                Seq::<Seq<u8>>::empty()
            }
            &&& rs.len() > 0
            &&& rs.last() == (REC_END, Seq::<u8>::empty())
            &&& forall|i: int|
                0 <= i < lead_count(n, audio, p) ==> #[trigger] rs[i] == (
                    REC_AUDIO,
                    audio_chunk(i, n, audio, p),
                )
            &&& n > 0 ==> rs[lead_count(n, audio, p)] == (REC_VIDEO, frames[0]@)
        }),
        audio is Some ==> chunks_concat(frames.len() as int, audio, p, frames.len()) == adpcm_blob(
            frames.len() as int,
            audio,
            p,
        ),
{
    let n = frames.len() as int;
    let l = lead_count(n, audio, p);
    assert(0 <= l <= n) by {
        assert(0 <= (p.fps_num + p.fps_den - 1) / (p.fps_den as int)) by (nonlinear_arith)
            requires
                p.fps_den > 0,
        ;
    }
    if audio is Some {
        lemma_audio_chunks_cover_blob(frames, audio, p);
        assert forall|i: int| 0 <= i < n implies #[trigger] audio_chunk(i, n, audio, p).len()
            <= u32::MAX by {
            lemma_chunk_bounds(i, i + 1, n, audio, p);
        }
    }
    assert(sizes_fit(frames, audio, p));
    let s = pack_spec(frames, audio, p);
    let hdr = pack_header(frames, audio, p);
    lemma_header_round_trip(hdr);
    let ix = index_bytes(index_entries(frames, audio, p));
    let lead = lead_records(frames, audio, p, l as nat);
    let groups = frame_groups(frames, audio, p, frames.len());
    let end = record_bytes(REC_END, Seq::empty());
    assert(s.subrange(HEADER_SIZE as int, s.len() as int) =~= lead + (groups + (end + ix)));
    lemma_read_lead(frames, audio, p, l as nat, groups + (end + ix));
    lemma_read_groups(frames, audio, p, frames.len(), end + ix);
    lemma_read_record(REC_END, Seq::empty(), ix);
    let ll = lead_list(frames, audio, p, l as nat);
    let gl = groups_list(frames, audio, p, frames.len());
    let el = seq![(REC_END, Seq::<u8>::empty())];
    let rs = read_records(s.subrange(HEADER_SIZE as int, s.len() as int));
    assert(rs =~= ll + gl + el);
    lemma_lead_list_items(frames, audio, p, l as nat);
    if n > 0 {
        lemma_groups_list_first(frames, audio, p, frames.len());
        assert(rs[l] == gl[0]);
    }
    assert forall|i: int| 0 <= i < l implies #[trigger] rs[i] == (
        REC_AUDIO,
        audio_chunk(i, n, audio, p),
    ) by {
        assert(rs[i] == ll[i]);
    }
    lemma_lead_payloads(frames, audio, p, l as nat);
    lemma_groups_payloads(frames, audio, p, frames.len());
    lemma_payloads_concat(ll, gl, REC_VIDEO);
    lemma_payloads_concat(ll, gl, REC_AUDIO);
    lemma_payloads_concat(ll + gl, el, REC_VIDEO);
    lemma_payloads_concat(ll + gl, el, REC_AUDIO);
    lemma_payloads_single((REC_END, Seq::<u8>::empty()), REC_VIDEO);
    lemma_payloads_single((REC_END, Seq::<u8>::empty()), REC_AUDIO);
    assert(payloads_of(rs, REC_VIDEO) =~= Seq::new(frames.len(), |i: int| frames[i]@));
    assert(payloads_of(rs, REC_AUDIO) =~= (if audio is Some {
        Seq::new(frames.len(), |i: int| audio_chunk(i, n, audio, p))
    } else {
        Seq::<Seq<u8>>::empty()
    }));
}


/// Total length of the payloads.
pub open spec fn total_len(ps: Seq<Seq<u8>>) -> int
    decreases ps.len(),
{
    if ps.len() == 0 {
        0
    } else {
        total_len(ps.drop_last()) + ps.last().len()
    }
}

proof fn lemma_total_len_chunks(frames: Seq<Vec<u8>>, audio: Option<Seq<i16>>, p: PackParams, c: nat)
    ensures
        total_len(Seq::new(c, |i: int| audio_chunk(i, frames.len() as int, audio, p)))
            == chunks_concat(frames.len() as int, audio, p, c).len(),
    decreases c,
{
    let n = frames.len() as int;
    if c > 0 {
        lemma_total_len_chunks(frames, audio, p, (c - 1) as nat);
        let ps = Seq::new(c, |i: int| audio_chunk(i, n, audio, p));
        assert(ps.drop_last() =~= Seq::new((c - 1) as nat, |i: int| audio_chunk(i, n, audio, p)));
    }
}

/// The audio a seek-index entry records is what a reader has met before
/// the entry's frame: its `audio_bytes_before` is the total payload of the
/// audio records read from the stream before that frame's video record, and
/// its ADPCM state, predictor and step index both, is the decoder's state
/// after that many bytes of the stream, as scanning the stream records it. (Sizes and offsets must fit their 32-bit fields.)
#[verifier::spinoff_prover]
pub proof fn lemma_index_entry_audio(
    frames: Seq<Vec<u8>>,
    audio: Option<Seq<i16>>,
    p: PackParams,
    j: int,
)
    requires
        0 <= j < index_entries(frames, audio, p).len(),
        p.fps_num > 0,
        p.fps_den > 0,
        frames.len() <= u32::MAX,
        HEADER_SIZE + record_stream(frames, audio, p).len() <= u32::MAX,
        forall|i: int| 0 <= i < frames.len() ==> #[trigger] frames[i]@.len() <= u32::MAX,
        adpcm_blob(frames.len() as int, audio, p).len() <= u32::MAX,
    ensures
        ({
            let e = index_entries(frames, audio, p)[j];
            let i = e.frame_no as int;
            let blob = adpcm_blob(frames.len() as int, audio, p);
            let before = read_records(stream_before(frames, audio, p, i));
            &&& e.audio_bytes_before == total_len(payloads_of(before, REC_AUDIO))
            &&& e.audio_bytes_before <= blob.len()
            &&& (e.adpcm_predictor, e.adpcm_step_index) == as_entry_state(
                scan_state(blob, seq![e.audio_bytes_before as usize], 0),
            )
            &&& (e.adpcm_predictor as int, e.adpcm_step_index as int) == dec_state(
                blob,
                (2 * e.audio_bytes_before) as nat,
            )
        }),
{
    let n = frames.len() as int;
    lemma_index_entry_points_at_frame(frames, audio, p, j);
    let e = index_entries(frames, audio, p)[j];
    let i = e.frame_no as int;
    assert(e == entry_at(frames, audio, p, i));
    let l = lead_count(n, audio, p);
    assert(0 <= l <= n) by {
        assert(0 <= (p.fps_num + p.fps_den - 1) / (p.fps_den as int)) by (nonlinear_arith)
            requires
                p.fps_den > 0,
        ;
    }
    if audio is Some {
        assert forall|k: int| 0 <= k < n implies #[trigger] audio_chunk(k, n, audio, p).len()
            <= u32::MAX by {
            lemma_chunk_bounds(k, k + 1, n, audio, p);
        }
    }
    assert(sizes_fit(frames, audio, p));
    let blob = adpcm_blob(n, audio, p);
    let abb = audio_before(frames, audio, p, i);
    lemma_audio_before_mono(frames, audio, p, i, i);
    assert(e.audio_bytes_before == abb);
    let lead = lead_records(frames, audio, p, l as nat);
    let groups = frame_groups(frames, audio, p, i as nat);
    let empty = Seq::<u8>::empty();
    assert(stream_before(frames, audio, p, i) =~= lead + (groups + empty));
    lemma_read_lead(frames, audio, p, l as nat, groups + empty);
    lemma_read_groups(frames, audio, p, i as nat, empty);
    assert(read_records(empty) =~= Seq::<(u16, Seq<u8>)>::empty());
    let ll = lead_list(frames, audio, p, l as nat);
    let gl = groups_list(frames, audio, p, i as nat);
    let before = read_records(stream_before(frames, audio, p, i));
    assert(before =~= ll + gl);
    lemma_lead_payloads(frames, audio, p, l as nat);
    lemma_groups_payloads(frames, audio, p, i as nat);
    lemma_payloads_concat(ll, gl, REC_AUDIO);
    let c: int = if audio is Some {
        if l + i < n {
            l + i
        } else {
            n
        }
    } else {
        0
    };
    assert(payloads_of(before, REC_AUDIO) =~= Seq::new(
        c as nat,
        |k: int| audio_chunk(k, n, audio, p),
    ));
    lemma_total_len_chunks(frames, audio, p, c as nat);
    if audio is Some {
        lemma_chunks_concat_prefix(n, audio, p, c as nat);
        lemma_chunk_bounds(0, c, n, audio, p);
    } else {
        assert(chunks_concat(n, audio, p, 0) =~= Seq::<u8>::empty());
    }
    assert(crate::fwmv::adpcm::offsets_in_order(seq![abb as usize], blob.len(), 0));
    lemma_dec_state_valid(blob, (2 * abb) as nat);
}

} // verus!
