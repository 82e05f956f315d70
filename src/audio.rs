use vstd::prelude::*;

use crate::frame::{
    append_bytes, chunk, chunk_count, padded, wire_bytes, Frame, PROG_COMMAND, RUN_COMMAND,
};
use crate::manchester::{bits_wave, bytes_bits, polarity_after, preamble, stop_wave, ManchesterEncoder};

verus! {

/// Byte that fills gaps between the data records of a firmware image.
/// Which filler the target hardware expects is an open question: `0xff`
/// matches erased flash and the padding of short pages, while `0x00` has
/// also been used. `get_firmware_bytes` takes the filler as an argument, so
/// either can be chosen once that is settled.
pub const GAP_FILL: u8 = 0xff;

/// Settings of a conversion from a firmware file to audio.
pub struct Options {
    pub in_filename: String,
    pub out_filename: String,
    pub frame_size: u16,
    pub cuttoff: u32,
    pub sample_rate: u32,
}

/// The data of one Intel-HEX data record: its 16-bit load offset and bytes.
pub struct DataRecord {
    pub offset: u16,
    pub value: Vec<u8>,
}

/// A record as plain values: `Some((offset, bytes))` for a data record,
/// `None` for any other record or a line that does not parse.
pub open spec fn record_view(r: Option<DataRecord>) -> Option<(u16, Seq<u8>)> {
    match r {
        Some(d) => Some((d.offset, d.value@)),
        None => None,
    }
}

/// The records that the Intel-HEX reader finds in a text, in order, as
/// `record_view` lays them out.
pub uninterp spec fn ihex_records(text: Seq<char>) -> Seq<Option<(u16, Seq<u8>)>>;

/// Relies on `ihex::Reader` (default options): the records of the text, one
/// per non-empty line up to the end-of-file record or the first parse error.
/// Data records keep their offset and bytes; every other outcome is `None`.
#[verifier::external_body]
fn read_hex_records(content: &str) -> (r: Vec<Option<DataRecord>>)
    ensures
        r@.map_values(|x: Option<DataRecord>| record_view(x)) == ihex_records(content@),
{
    ihex::Reader::new(content).map(
        |rec| match rec {
            Ok(ihex::Record::Data { offset, value }) => Some(DataRecord { offset, value }),
            _ => None,
        },
    ).collect()
}

/// Number of fill bytes that bring an image of `len` bytes up to `offset`,
/// reading its length as a 16-bit address.
pub open spec fn gap_before(len: nat, offset: u16) -> nat {
    if len % 0x10000 < offset {
        (offset - len % 0x10000) as nat
    } else {
        0
    }
}

/// The firmware image laid out by a sequence of records: each data record is
/// appended after filling up to its offset with `fill`; other records add nothing.
pub open spec fn firmware_image(recs: Seq<Option<(u16, Seq<u8>)>>, fill: u8) -> Seq<u8>
    decreases recs.len(),
{
    if recs.len() == 0 {
        Seq::empty()
    } else {
        let v = firmware_image(recs.drop_last(), fill);
        match recs.last() {
            None => v,
            Some((offset, value)) => v + Seq::new(gap_before(v.len(), offset), |_i: int| fill)
                + value,
        }
    }
}

/// The samples of one frame's wire image sent from polarity `positive`.
pub open spec fn frame_audio(positive: bool, wire: Seq<u8>) -> Seq<u8> {
    let bits = bytes_bits(wire);
    preamble() + bits_wave(positive, bits) + stop_wave(!polarity_after(positive, bits))
}

/// Polarity left after sending one frame from polarity `positive`.
pub open spec fn polarity_after_frame(positive: bool, wire: Seq<u8>) -> bool {
    !polarity_after(positive, bytes_bits(wire))
}

/// Polarity left after sending frames one after the other.
pub open spec fn polarity_after_frames(positive: bool, wires: Seq<Seq<u8>>) -> bool
    decreases wires.len(),
{
    if wires.len() == 0 {
        positive
    } else {
        polarity_after_frame(polarity_after_frames(positive, wires.drop_last()), wires.last())
    }
}

/// The samples of frames sent one after the other, the polarity carrying over.
pub open spec fn frames_audio(positive: bool, wires: Seq<Seq<u8>>) -> Seq<u8>
    decreases wires.len(),
{
    if wires.len() == 0 {
        Seq::empty()
    } else {
        frames_audio(positive, wires.drop_last()) + frame_audio(
            polarity_after_frames(positive, wires.drop_last()),
            wires.last(),
        )
    }
}

/// Wire images of a whole transfer: one programming frame per page of the
/// firmware, then the run frame.
pub open spec fn transfer_wires(firmware: Seq<u8>, page_size: nat) -> Seq<Seq<u8>> {
    Seq::new(
        chunk_count(firmware.len(), page_size),
        |i: int|
            wire_bytes(
                PROG_COMMAND,
                (i * page_size) as u16,
                padded(chunk(firmware, page_size, i), page_size),
            ),
    ).push(wire_bytes(RUN_COMMAND, 0, Seq::new(page_size, |_i: int| 0u8)))
}

/// Lays the data records out as one firmware image, filling gaps with `fill`.
pub fn get_firmware_bytes(records: &Vec<Option<DataRecord>>, fill: u8) -> (r: Vec<u8>)
    ensures
        r@ == firmware_image(records@.map_values(|x: Option<DataRecord>| record_view(x)), fill),
{
    let ghost recs = records@.map_values(|x: Option<DataRecord>| record_view(x));
    let mut v: Vec<u8> = Vec::new();
    let mut i: usize = 0;
    proof {
        assert(recs.take(0) =~= Seq::<Option<(u16, Seq<u8>)>>::empty());
    }
    while i < records.len()
        invariant
            i <= records@.len(),
            recs == records@.map_values(|x: Option<DataRecord>| record_view(x)),
            v@ == firmware_image(recs.take(i as int), fill),
        decreases records.len() - i,
    {
        proof {
            assert(recs.take(i + 1).drop_last() =~= recs.take(i as int));
            assert(recs.take(i + 1).last() == record_view(records@[i as int]));
        }
        match &records[i] {
            None => {},
            Some(rec) => {
                let ghost base = v@;
                let offset = rec.offset;
                while ((v.len() % 0x10000) as u16) < offset
                    invariant
                        base.len() <= v@.len(),
                        v@ == base + Seq::new((v@.len() - base.len()) as nat, |_j: int| fill),
                        v@.len() - base.len() <= gap_before(base.len(), offset),
                        v@.len() > base.len() ==> base.len() % 0x10000 < offset,
                        base.len() % 0x10000 < offset ==> v@.len() % 0x10000 == base.len() % 0x10000
                            + (v@.len() - base.len()),
                    decreases offset as int - (v@.len() % 0x10000),
                {
                    v.push(fill);
                    proof {
                        assert(v@ =~= base + Seq::new((v@.len() - base.len()) as nat, |_j: int| fill));
                    }
                }
                proof {
                    assert(v@.len() - base.len() == gap_before(base.len(), offset));
                }
                append_bytes(&mut v, rec.value.as_slice());
            },
        }
        i = i + 1;
    }
    proof {
        assert(recs.take(i as int) =~= recs);
    }
    v
}

/// The audio of a whole transfer of `firmware`: every page frame, then the
/// run frame, each differential-Manchester encoded, the polarity carrying
/// over from frame to frame.
pub fn audio_for_firmware(firmware: &[u8], page_size: usize) -> (r: Vec<u8>)
    requires
        page_size > 0,
    ensures
        r@ == frames_audio(false, transfer_wires(firmware@, page_size as nat)),
{
    let ghost wires = transfer_wires(firmware@, page_size as nat);
    let mut frames = Frame::bytes_to_frames(firmware, page_size);
    let ghost all = frames@;
    let total = frames.len();
    let ghost n = all.len();
    let mut encoder = ManchesterEncoder::new();
    let mut out: Vec<u8> = Vec::new();
    let mut k: usize = 0;
    proof {
        assert(wires.take(0) =~= Seq::<Seq<u8>>::empty());
        assert(all.subrange(0, n as int) =~= all);
        assert(all.len() == chunk_count(firmware@.len(), page_size as nat));
    }
    while frames.len() > 0
        invariant
            n == all.len(),
            n == total,
            page_size > 0,
            n == chunk_count(firmware@.len(), page_size as nat),
            wires == transfer_wires(firmware@, page_size as nat),
            k + frames@.len() == n,
            frames@ == all.subrange(k as int, n as int),
            forall|i: int|
                #![trigger all[i]]
                0 <= i < n ==> {
                    &&& all[i].command == PROG_COMMAND
                    &&& all[i].offset == (i * page_size) as u16
                    &&& all[i].page@ == padded(
                        chunk(firmware@, page_size as nat, i),
                        page_size as nat,
                    )
                },
            out@ == frames_audio(false, wires.take(k as int)),
            encoder.state == polarity_after_frames(false, wires.take(k as int)),
        decreases frames.len(),
    {
        let ghost before = frames@;
        let f = frames.remove(0);
        proof {
            assert(before[0] == all[k as int]);
            assert(f == before[0]);
            assert(wires[k as int] == wire_bytes(f.command, f.offset, f.page@));
            assert(wires.take(k + 1).drop_last() =~= wires.take(k as int));
            assert(frames@ =~= all.subrange(k + 1, n as int));
        }
        let w = encoder.encode_frame(f);
        append_bytes(&mut out, w.as_slice());
        k = k + 1;
    }
    let run = Frame::run(page_size);
    proof {
        assert(wires[k as int] == wire_bytes(run.command, run.offset, run.page@));
        assert(wires.take(k + 1).drop_last() =~= wires.take(k as int));
    }
    let w = encoder.encode_frame(run);
    append_bytes(&mut out, w.as_slice());
    proof {
        assert(wires.take(k + 1) =~= wires);
    }
    out
}

/// Converts Intel-HEX text to the audio of a whole transfer: the data
/// records laid out with `0xff` gaps, cut into `page_size`-byte frames,
/// followed by the run frame, encoded one after the other.
pub fn create_audio_data(content: String, page_size: usize) -> (r: Vec<u8>)
    requires
        page_size > 0,
    ensures
        r@ == frames_audio(
            false,
            transfer_wires(firmware_image(ihex_records(content@), GAP_FILL), page_size as nat),
        ),
{
    let records = read_hex_records(content.as_str());
    let firmware = get_firmware_bytes(&records, GAP_FILL);
    audio_for_firmware(firmware.as_slice(), page_size)
}

/// An address space of a microcontroller: its name and, per memory segment
/// in order, the segment's page size if it has one.
pub struct AddressSpace {
    pub name: String,
    pub segment_page_sizes: Vec<Option<u32>>,
}

/// Index of the first address space named `prog`, if any.
pub open spec fn first_prog(spaces: Seq<AddressSpace>) -> Option<int> {
    if exists|i: int| 0 <= i < spaces.len() && spaces[i].name@ == "prog"@ {
        Some(
            choose|i: int|
                0 <= i < spaces.len() && spaces[i].name@ == "prog"@ && forall|j: int|
                    0 <= j < i ==> spaces[j].name@ != "prog"@,
        )
    } else {
        None
    }
}

/// The flash page size of a microcontroller: that of the first segment of
/// its first `prog` address space.
pub fn find_page_size(spaces: &Vec<AddressSpace>) -> (r: Option<usize>)
    ensures
        match first_prog(spaces@) {
            None => r is None,
            Some(i) => {
                let sizes = spaces@[i].segment_page_sizes@;
                if sizes.len() == 0 {
                    r is None
                } else {
                    match sizes[0] {
                        None => r is None,
                        Some(p) => r == Some(p as usize),
                    }
                }
            },
        },
{
    let prog = "prog".to_owned();
    proof {
        reveal_strlit("prog");
    }
    let mut i: usize = 0;
    while i < spaces.len()
        invariant
            i <= spaces@.len(),
            prog@ == "prog"@,
            forall|j: int| 0 <= j < i ==> spaces@[j].name@ != "prog"@,
        decreases spaces.len() - i,
    {
        if spaces[i].name == prog {
            proof {
                let c = choose|c: int|
                    0 <= c < spaces@.len() && spaces@[c].name@ == "prog"@ && forall|j: int|
                        0 <= j < c ==> spaces@[j].name@ != "prog"@;
                assert(0 <= c < spaces@.len() && spaces@[c].name@ == "prog"@ && forall|j: int|
                    0 <= j < c ==> spaces@[j].name@ != "prog"@);
                if c < i {
                } else if c > i {
                    assert(spaces@[i as int].name@ == "prog"@);
                }
                assert(c == i);
            }
            let sizes = &spaces[i].segment_page_sizes;
            if sizes.len() == 0 {
                return None;
            }
            return match sizes[0] {
                None => None,
                Some(p) => Some(p as usize),
            };
        }
        i = i + 1;
    }
    None
}

} // verus!
