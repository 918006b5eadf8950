# wiliplayerconvert

Converts ordinary videos into `.fwmv` files for the FreeWili movie player.

* `src/` is the verified library:
  * `fwmv::format` — the 64-byte header, 8-byte records padded to four bytes,
    and the `FWIX` seek index, each proved to produce the byte layout its
    spec functions describe; packing a header and reading it back gives the
    same header.
  * `fwmv::adpcm` — IMA-ADPCM encoder, decoder and the decoder-state scan used
    for seek entries; decoding the encoder's output replays the encoder's own
    predictor trajectory.
  * `fwmv` — `pack`, which lays out a whole file (audio lead-in, interleaved
    video/audio records, END record, seek index), proved equal to
    `pack_spec`, with laws on where the header, the index and each indexed
    frame sit in the file, on the audio chunks covering the ADPCM stream, and
    on the size of the index, and on what the file depends on (only the
    clip's audio samples; no sample rate without audio), and that at one
    frame per second or more every index tick gets its own entry.
  * `fwmv::records` — reading a record stream back; the records of a packed
    file are every frame in order and, with audio, the per-frame ADPCM chunks
    in order, and each seek entry's audio fields match what was read before
    its frame.
  * `convert` — fixed conversion parameters and collision-free output names
    (`stem.fwmv`, `stem_1.fwmv`, …): each candidate is asked of the file
    system in turn, with a proof that the search for a free name always ends
    and that a batch never reuses a name.
  * `queue` — the conversion queue behind the GUI: de-duplicated adds, the
    bounded console log, clearing finished rows, the worker plan and how
    worker reports change row statuses.
* `app/` is the desktop program: FFmpeg decoding, file and directory I/O,
  worker threads and the egui window.
