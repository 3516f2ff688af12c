//! Compressed files, and the file of packed references.

use vstd::prelude::*;

use flate2::read::GzDecoder;
use flate2::write::GzEncoder;
use flate2::Compression;
use std::io::{Read, Write};

use crate::index_builder::{block_start, ivf1_file, push_count, write_ivf1};
use crate::le::{u32_at, u32_bytes, u32_read_back};

verus! {

/// What compressed bytes hold to `flate2::read::GzDecoder`, if they are whole.
pub uninterp spec fn gunzipped(data: Seq<u8>) -> Option<Seq<u8>>;

/// `flate2::write::GzEncoder` at `Compression::best`, written to once in memory
/// and finished: compressed bytes that hold what was written. Its errors come
/// from what it writes to, where a `Vec` has none, and from a compressor with
/// wrong parameters or an output that refuses bytes, where it sets the one and
/// gives it a plain buffer for the other. Which of the many such bytes come out is
/// not said.
#[verifier::external_body]
fn gzip(data: &[u8]) -> (r: Option<Vec<u8>>)
    ensures
        r is Some,
        gunzipped(r->0@) == Some(data@),
{
    let mut encoder = GzEncoder::new(Vec::new(), Compression::best());
    encoder.write_all(data).ok()?;
    encoder.finish().ok()
}

/// `flate2::read::GzDecoder`, read to its end: what the compressed bytes hold,
/// or nothing where the decoder reports an error.
#[verifier::external_body]
fn gunzip(data: &[u8]) -> (r: Option<Vec<u8>>)
    ensures
        match r {
            Some(v) => gunzipped(data@) == Some(v@),
            None => gunzipped(data@) is None,
        },
{
    let mut out: Vec<u8> = Vec::new();
    GzDecoder::new(data).read_to_end(&mut out).ok()?;
    Some(out)
}

/// What a compressed file holds.
pub fn unpack(data: &[u8]) -> (r: Option<Vec<u8>>)
    ensures
        match r {
            Some(v) => gunzipped(data@) == Some(v@),
            None => gunzipped(data@) is None,
        },
{
    gunzip(data)
}

/// An index file, compressed: bytes that hold the file.
pub fn pack_index(
    centroids: &[[u32; 14]],
    assignments: &[usize],
    values: &[[i16; 14]],
    labels: &[u8],
    k: usize,
) -> (r: Option<Vec<u8>>)
    requires
        forall|i: int| 0 <= i < assignments@.len() ==> #[trigger] assignments@[i] < k,
        assignments@.len() <= values@.len(),
        assignments@.len() <= labels@.len(),
        block_start(assignments@, k as int) <= u32::MAX,
    ensures
        r is Some,
        gunzipped(r->0@) == Some(ivf1_file(centroids@, assignments@, values@, labels@, k as int)),
{
    gzip(&write_ivf1(centroids, assignments, values, labels, k))
}

/// The two bytes of a 16-bit value.
pub open spec fn u16_bytes(x: u16) -> Seq<u8> {
    seq![(x % 0x100) as u8, (x / 0x100) as u8]
}

/// The values of some vectors, two bytes each.
pub open spec fn vectors_bytes(halves: Seq<[u16; 14]>) -> Seq<u8> {
    Seq::new(halves.len() * 28, |i: int| u16_bytes(halves[i / 28]@[i % 28 / 2])[i % 2])
}

/// The bytes of the file of packed references: how many there are, their
/// vectors' values, and their labels.
pub open spec fn refs_file(halves: Seq<[u16; 14]>, labels: Seq<u8>) -> Seq<u8> {
    u32_bytes(halves.len() as int) + vectors_bytes(halves) + labels
}

/// The bytes of the file of packed references. The values are given by the bits
/// of fractions in half precision.
pub fn pack_refs(halves: &[[u16; 14]], labels: &[u8]) -> (r: Vec<u8>)
    ensures
        r@ == refs_file(halves@, labels@),
{
    let mut out: Vec<u8> = Vec::new();
    push_count(&mut out, halves.len());
    let ghost head = out@;
    let mut i: usize = 0;
    while i < halves.len()
        invariant
            i <= halves@.len(),
            out@ == head + vectors_bytes(halves@.take(i as int)),
        decreases halves@.len() - i,
    {
        let ghost before = vectors_bytes(halves@.take(i as int));
        let ghost after = vectors_bytes(halves@.take(i + 1));
        let mut d: usize = 0;
        assert(after.take(28 * i as int) =~= before);
        while d < 14
            invariant
                d <= 14,
                i < halves@.len(),
                after == vectors_bytes(halves@.take(i + 1)),
                out@ == head + after.take(28 * i + 2 * d),
            decreases 14 - d,
        {
            let x: u16 = halves[i][d];
            let ghost at = 28 * i + 2 * d;
            out.push((x % 0x100) as u8);
            out.push((x / 0x100) as u8);
            proof {
                assert(after[at] == u16_bytes(x)[0] && after[at + 1] == u16_bytes(x)[1]);
                assert(after.take(at) + u16_bytes(x) =~= after.take(at + 2));
                assert(out@ =~= head + after.take(at + 2));
            }
            d = d + 1;
        }
        assert(after.take(28 * i + 28) =~= after);
        i = i + 1;
    }
    assert(halves@.take(i as int) =~= halves@);
    out.extend_from_slice(labels);
    assert(out@ =~= refs_file(halves@, labels@));
    out
}

/// The file of packed references holds their number in its first four bytes, then
/// the values of each vector one after the other, the lower byte of each first,
/// and behind the last vector their labels.
pub proof fn references_stand_in_their_places(
    halves: Seq<[u16; 14]>,
    labels: Seq<u8>,
    i: int,
    d: int,
    j: int,
)
    requires
        halves.len() <= u32::MAX,
    ensures
        refs_file(halves, labels).len() == 4 + 28 * halves.len() + labels.len(),
        u32_at(refs_file(halves, labels), 0) == halves.len(),
        0 <= i < halves.len() && 0 <= d < 14 ==> refs_file(halves, labels)[4 + 28 * i + 2 * d] + 256
            * refs_file(halves, labels)[4 + 28 * i + 2 * d + 1] == halves[i]@[d],
        0 <= j < labels.len() ==> refs_file(halves, labels)[4 + 28 * halves.len() + j] == labels[j],
{
    let file = refs_file(halves, labels);
    let head = u32_bytes(halves.len() as int);
    let vectors = vectors_bytes(halves);
    assert(file.subrange(0, 4) =~= head);
    u32_read_back(file, 0, halves.len() as int);
    if 0 <= i < halves.len() && 0 <= d < 14 {
        let at = 28 * i + 2 * d;
        assert(at / 28 == i && at % 28 / 2 == d && at % 2 == 0);
        assert((at + 1) / 28 == i && (at + 1) % 28 / 2 == d && (at + 1) % 2 == 1);
        assert(file[4 + at] == vectors[at]);
        assert(file[4 + at + 1] == vectors[at + 1]);
        let x = halves[i]@[d];
        assert(vectors[at] == u16_bytes(x)[0]);
        assert(vectors[at + 1] == u16_bytes(x)[1]);
    }
}

} // verus!
