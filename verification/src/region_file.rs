use std::io::Write;
use flate2::write::ZlibEncoder;
use flate2::Compression;
use mca::{CompressionType, PendingChunk, RegionReader, RegionWriter};
use vstd::prelude::*;
use crate::region::{RegionEntry, entry_of, place_in_region, region_entry, region_local};

verus! {

/// The writer of region files of the `mca` crate. It collects the chunks of
/// one region.
#[verifier::external_type_specification]
#[verifier::external_body]
pub struct ExRegionWriter(RegionWriter);

/// One chunk that waits in a writer: its place in the region, along `x` and
/// along `z`; the number that names the compression of its data, 2 for zlib
/// and 3 for none; its time stamp; its packed data.
pub type RegionChunk = (u8, u8, u8, u32, Seq<u8>);

/// The number that names the compression of the chunk at place `(x, z)` of
/// the region file `data`, where the file holds the chunk whole.
pub open spec fn compression_at(data: Seq<u8>, x: int, z: int) -> Option<u8> {
    match entry_of(data, x, z) {
        RegionEntry::Present { compression, .. } => Some(compression),
        _ => None,
    }
}

/// The packed data of the chunk at place `(x, z)` of the region file
/// `data`: the bytes from the start to the end of its entry.
pub open spec fn packed_at(data: Seq<u8>, x: int, z: int) -> Seq<u8> {
    match entry_of(data, x, z) {
        RegionEntry::Present { start, end, .. } => data.subrange(start as int, end as int),
        _ => Seq::empty(),
    }
}

/// The zlib stream that `data` is packed into, where packing succeeds.
pub uninterp spec fn zlib_deflated(data: Seq<u8>) -> Option<Seq<u8>>;

/// The data that the zlib stream `packed` unpacks to, if it is one.
pub uninterp spec fn zlib_inflated(packed: Seq<u8>) -> Option<Seq<u8>>;

/// The chunks that wait in `writer`, in the order in which they were
/// pushed.
pub uninterp spec fn writer_chunks(writer: RegionWriter) -> Seq<RegionChunk>;

/// The bytes of the region file that holds `chunks`, where writing
/// succeeds.
pub uninterp spec fn region_written(chunks: Seq<RegionChunk>) -> Option<Seq<u8>>;

/// Whether the packed data of every chunk is shorter than the largest
/// number of 32 bits, so that its length and one more can be written in 32
/// bits.
pub open spec fn chunks_short(chunks: Seq<RegionChunk>) -> bool {
    forall|i: int| 0 <= i < chunks.len() ==> (#[trigger] chunks[i]).4.len() < 0xffff_ffff
}

/// Packs `data` into a zlib stream. Makes a `flate2::write::ZlibEncoder`
/// over an empty vector at `Compression::default()`, feeds it `data` with
/// `write_all` and closes it with `finish`. Whether packing succeeds, and
/// the stream that it gives, depend on the data alone; nothing else is
/// claimed of either.
#[verifier::external_body]
fn zlib_pack(data: &Vec<u8>) -> (packed: Option<Vec<u8>>)
    ensures
        match packed {
            Some(bytes) => zlib_deflated(data@) == Some(bytes@),
            None => zlib_deflated(data@) is None,
        },
{
    let mut encoder = ZlibEncoder::new(Vec::new(), Compression::default());
    if encoder.write_all(data).is_err() {
        return None;
    }
    encoder.finish().ok()
}

/// The unpacked data of the chunk at place `(x, z)` of the region file
/// `data`. Calls `mca::RegionReader::new`, `RegionReader::get_chunk` and
/// `RawChunk::decompress`. These stop the program where the chunk's data
/// reaches beyond the file or names a compression they do not know, so the
/// entry must be present with compression 2 or 3. For such an entry `new`
/// and `get_chunk` succeed, and `get_chunk` hands out the bytes from the
/// entry's start to its end; `decompress` copies them for compression 3,
/// which cannot fail, and unpacks a zlib stream for compression 2.
#[verifier::external_body]
fn region_chunk(data: &Vec<u8>, x: u8, z: u8) -> (unpacked: Option<Vec<u8>>)
    requires
        x < 32,
        z < 32,
        compression_at(data@, x as int, z as int) == Some(2u8) || compression_at(
            data@,
            x as int,
            z as int,
        ) == Some(3u8),
    ensures
        compression_at(data@, x as int, z as int) == Some(3u8) ==> unpacked is Some,
        compression_at(data@, x as int, z as int) == Some(3u8) ==> (unpacked matches Some(bytes)
            ==> bytes@ == packed_at(data@, x as int, z as int)),
        compression_at(data@, x as int, z as int) == Some(2u8) ==> (match unpacked {
            Some(bytes) => zlib_inflated(packed_at(data@, x as int, z as int)) == Some(bytes@),
            None => zlib_inflated(packed_at(data@, x as int, z as int)) is None,
        }),
{
    let region = RegionReader::new(data).ok()?;
    let raw = region.get_chunk(x as usize, z as usize).ok()??;
    raw.decompress().ok()
}

/// A writer in which no chunk waits: `mca::RegionWriter::new`.
#[verifier::external_body]
fn writer_new() -> (writer: RegionWriter)
    ensures
        writer_chunks(writer) == Seq::<RegionChunk>::empty(),
{
    RegionWriter::new()
}

/// Puts packed data behind the chunks that wait in `writer`:
/// `mca::PendingChunk::new_compressed` and
/// `RegionWriter::push_pending_chunk`. The first stops the program for a
/// place outside the region and for a compression number it does not know;
/// writing later adds one to the length of the data as a 32 bit number.
#[verifier::external_body]
fn writer_push(writer: &mut RegionWriter, x: u8, z: u8, compression: u8, timestamp: u32, packed: Vec<u8>)
    requires
        x < 32,
        z < 32,
        compression == 2 || compression == 3,
        packed@.len() < 0xffff_ffff,
    ensures
        writer_chunks(*final(writer)) == writer_chunks(*old(writer)).push(
            (x, z, compression, timestamp, packed@),
        ),
{
    let kind = CompressionType::from(compression);
    if let Ok(chunk) = PendingChunk::new_compressed(packed, kind, timestamp, (x, z)) {
        writer.push_pending_chunk(chunk);
    }
}

/// The bytes of the region file that holds the chunks that wait in
/// `writer`: `mca::RegionWriter::write` into an empty vector. `write` adds
/// one to the length of each chunk's data as a 32 bit number, so the data
/// of every chunk must be shorter than the largest such number. Whether
/// writing succeeds, and the bytes that it gives, depend on the chunks
/// alone; nothing else is claimed of either.
#[verifier::external_body]
fn writer_bytes(writer: &RegionWriter) -> (bytes: Option<Vec<u8>>)
    requires
        chunks_short(writer_chunks(*writer)),
    ensures
        match bytes {
            Some(b) => region_written(writer_chunks(*writer)) == Some(b@),
            None => region_written(writer_chunks(*writer)) is None,
        },
{
    let mut out: Vec<u8> = Vec::new();
    writer.write(&mut out).ok()?;
    Some(out)
}

/// What a region file holds for one chunk, unpacked.
#[derive(Debug, PartialEq, Eq)]
pub enum Payload {
    /// The chunk was never written.
    Missing,
    /// The file does not hold the chunk whole, or packed in a way that
    /// cannot be read.
    Corrupt,
    /// The unpacked data of the chunk.
    Found(Vec<u8>),
}

/// Whether the data of an entry can be read: it is packed as a zlib
/// stream, number 2, or not at all, number 3.
pub open spec fn readable(compression: u8) -> bool {
    compression == 2 || compression == 3
}

/// The unpacked data that the region file `data` holds for the chunk at
/// chunk position `(x, z)`. An entry that reaches beyond the file, names a
/// compression other than 2 and 3 or does not unpack counts as corrupt.
pub fn chunk_payload(data: &Vec<u8>, x: i32, z: i32) -> (payload: Payload)
    ensures
        match entry_of(data@, place_in_region(x as int, z as int).0, place_in_region(x as int, z as int).1) {
            RegionEntry::Corrupt => payload is Corrupt,
            RegionEntry::Missing => payload is Missing,
            RegionEntry::Present { compression, start, end } => {
                let packed = data@.subrange(start as int, end as int);
                if compression == 2 {
                    match zlib_inflated(packed) {
                        Some(bytes) => payload matches Payload::Found(found) && found@ == bytes,
                        None => payload is Corrupt,
                    }
                } else if compression == 3 {
                    payload matches Payload::Found(found) && found@ == packed
                } else {
                    payload is Corrupt
                }
            },
        },
{
    let (local_x, local_z) = region_local(x, z);
    match region_entry(data, local_x, local_z) {
        RegionEntry::Corrupt => Payload::Corrupt,
        RegionEntry::Missing => Payload::Missing,
        RegionEntry::Present { compression, start, end } => {
            if compression == 2 || compression == 3 {
                match region_chunk(data, local_x, local_z) {
                    Some(bytes) => Payload::Found(bytes),
                    None => Payload::Corrupt,
                }
            } else {
                Payload::Corrupt
            }
        },
    }
}

/// The bytes of `data` from `start` up to, not including, `end`.
fn copy_range(data: &Vec<u8>, start: usize, end: usize) -> (copy: Vec<u8>)
    requires
        start <= end <= data@.len(),
    ensures
        copy@ == data@.subrange(start as int, end as int),
{
    let mut copy: Vec<u8> = Vec::new();
    let mut i: usize = start;
    while i < end
        invariant
            start <= i <= end,
            end <= data@.len(),
            copy@ == data@.subrange(start as int, i as int),
        decreases end - i,
    {
        copy.push(data[i]);
        proof {
            assert(copy@ =~= data@.subrange(start as int, i as int + 1));
        }
        i += 1;
    }
    copy
}

/// The chunks of the region file `old`, at the first `n` places counted by
/// `z` and then `x`, that are kept when the chunk at place `skip` is
/// written anew: every readable entry but the one at `skip`, with its
/// packed data as it is and with the time stamp of the writing.
pub open spec fn kept_chunks(old: Seq<u8>, skip: (int, int), timestamp: u32, n: nat) -> Seq<RegionChunk>
    decreases n,
{
    if n == 0 {
        Seq::empty()
    } else {
        let before = kept_chunks(old, skip, timestamp, (n - 1) as nat);
        let x = (n - 1) % 32;
        let z = (n - 1) / 32;
        match entry_of(old, x, z) {
            RegionEntry::Present { compression, start, end } => if readable(compression) && (x, z)
                != skip {
                before.push(
                    (
                        x as u8,
                        z as u8,
                        compression,
                        timestamp,
                        old.subrange(start as int, end as int),
                    ),
                )
            } else {
                before
            },
            _ => before,
        }
    }
}

/// The bytes of the region file that holds the readable chunks of the
/// region file `old` and, in place of what `old` held for chunk position
/// `(x, z)`, `data` packed as a zlib stream. `old` is empty where there was
/// no file. Nothing is returned where packing or writing fails, or where
/// the packed data is too long for the 32 bits of its length; what
/// `region_after` says is returned otherwise.
pub fn region_with_chunk(old: &Vec<u8>, x: i32, z: i32, data: &Vec<u8>, timestamp: u32) -> (bytes:
    Option<Vec<u8>>)
    ensures
        match bytes {
            Some(b) => region_after(old@, x as int, z as int, data@, timestamp) == Some(b@),
            None => region_after(old@, x as int, z as int, data@, timestamp) is None,
        },
{
    let packed = zlib_pack(data);
    let total: usize = old.len();
    let ghost stream = zlib_deflated(data@);
    match merged_writer(old, x, z, packed, timestamp) {
        Some(writer) => {
            proof {
                assert(old@.len() == total);
                lemma_chunks_with_short(old@, x as int, z as int, stream->0, timestamp);
            }
            writer_bytes(&writer)
        },
        None => None,
    }
}

/// The bytes of the region file that follows on `old` when `data` is
/// stored for chunk position `(x, z)`: what writing gives for the chunks
/// of `old` with the packed `data` in the place of `(x, z)`. There is none
/// where packing fails, where the packed data is not shorter than the
/// largest number of 32 bits, or where writing fails.
pub open spec fn region_after(old: Seq<u8>, x: int, z: int, data: Seq<u8>, timestamp: u32) -> Option<
    Seq<u8>,
> {
    match zlib_deflated(data) {
        Some(packed) => if packed.len() < 0xffff_ffff {
            region_written(chunks_with(old, x, z, packed, timestamp))
        } else {
            None
        },
        None => None,
    }
}

/// The packed data of every chunk that is kept of a region file is shorter
/// than the largest number of 32 bits.
pub proof fn lemma_kept_chunks_short(old: Seq<u8>, skip: (int, int), timestamp: u32, n: nat)
    requires
        old.len() <= usize::MAX,
        n <= 1024,
    ensures
        chunks_short(kept_chunks(old, skip, timestamp, n)),
    decreases n,
{
    if n > 0 {
        lemma_kept_chunks_short(old, skip, timestamp, (n - 1) as nat);
        lemma_entry_length(old, (n - 1) % 32, (n - 1) / 32);
    }
}

/// The packed data of every chunk of a region file that follows on `old`
/// is shorter than the largest number of 32 bits, where the new chunk's
/// is.
pub proof fn lemma_chunks_with_short(old: Seq<u8>, x: int, z: int, packed: Seq<u8>, timestamp: u32)
    requires
        old.len() <= usize::MAX,
        packed.len() < 0xffff_ffff,
    ensures
        chunks_short(chunks_with(old, x, z, packed, timestamp)),
{
    lemma_kept_chunks_short(old, place_in_region(x, z), timestamp, 1024);
}

/// The chunks of the region file that holds what `old` holds, with the
/// chunk at chunk position `(x, z)` replaced by the zlib stream `packed`.
pub open spec fn chunks_with(old: Seq<u8>, x: int, z: int, packed: Seq<u8>, timestamp: u32) -> Seq<
    RegionChunk,
> {
    let place = place_in_region(x, z);
    kept_chunks(old, place, timestamp, 1024).push(
        (place.0 as u8, place.1 as u8, 2u8, timestamp, packed),
    )
}

/// The writer of the region file that follows on `old` once the data of the
/// chunk at chunk position `(x, z)` was packed, for every outcome of the
/// packing. Where packing failed, or gave more bytes than the 32 bits of a
/// length can count, there is no writer. Otherwise the writer holds, in
/// the order of their places, the readable chunks of `old` but the one at
/// the place of `(x, z)`, and behind them `packed` for that place, as a
/// zlib stream; all with the time stamp `timestamp`.
pub fn merged_writer(old: &Vec<u8>, x: i32, z: i32, packed: Option<Vec<u8>>, timestamp: u32) -> (writer:
    Option<RegionWriter>)
    ensures
        writer is Some == (packed is Some && packed->0@.len() < 0xffff_ffff),
        writer matches Some(w) ==> writer_chunks(w) == chunks_with(
            old@,
            x as int,
            z as int,
            packed->0@,
            timestamp,
        ),
{
    let (local_x, local_z) = region_local(x, z);
    let packed = match packed {
        Some(packed) => packed,
        None => {
            return None;
        },
    };
    if packed.len() >= 0xffff_ffff {
        return None;
    }
    let ghost skip = (local_x as int, local_z as int);
    let mut writer = writer_new();
    let mut n: usize = 0;
    while n < 1024
        invariant
            n <= 1024,
            skip == (local_x as int, local_z as int),
            writer_chunks(writer) == kept_chunks(old@, skip, timestamp, n as nat),
        decreases 1024 - n,
    {
        let px: u8 = (n % 32) as u8;
        let pz: u8 = (n / 32) as u8;
        match region_entry(old, px, pz) {
            RegionEntry::Present { compression, start, end } => {
                if (compression == 2 || compression == 3) && !(px == local_x && pz == local_z) {
                    let kept = copy_range(old, start, end);
                    let total: usize = old.len();
                    proof {
                        assert(old@.len() == total);
                        lemma_entry_length(old@, px as int, pz as int);
                    }
                    writer_push(&mut writer, px, pz, compression, timestamp, kept);
                }
            },
            _ => {},
        }
        n += 1;
    }
    writer_push(&mut writer, local_x, local_z, 2, timestamp, packed);
    Some(writer)
}

/// The data of an entry is shorter than the largest number of 32 bits.
proof fn lemma_entry_length(data: Seq<u8>, x: int, z: int)
    requires
        0 <= x < 32,
        0 <= z < 32,
        data.len() <= usize::MAX,
    ensures
        entry_of(data, x, z) matches RegionEntry::Present { compression, start, end } ==> end - start
            < 0xffff_ffff,
{
}

} // verus!
