//! Lossless run-length compression of chunk voxel arrays into byte blobs.
//!
//! A blob is a sequence of three-byte runs `[count, type id, distance]`; it
//! stands for `count` copies of the voxel `(type id, distance)`.
use vstd::prelude::*;
use crate::geometry::CHUNK_VOLUME;
use crate::voxel::{SdfVoxel, SdfVoxelType, VoxelDistance};

verus! {

pub open spec fn voxel_of_bytes(t: u8, d: u8) -> SdfVoxel {
    SdfVoxel { voxel_type: SdfVoxelType(t), distance: VoxelDistance(d as i8) }
}

/// The voxels that the runs of `b` stand for; bytes that do not complete a
/// run at the front are ignored.
pub open spec fn decode_runs(b: Seq<u8>) -> Seq<SdfVoxel>
    decreases b.len(),
{
    if b.len() < 3 {
        Seq::empty()
    } else {
        let n = b.len() - 3;
        decode_runs(b.subrange(0, n as int)) + Seq::new(
            b[n as int] as nat,
            |_i: int| voxel_of_bytes(b[n + 1], b[n + 2]),
        )
    }
}

/// A blob that decompresses to a whole chunk.
pub open spec fn blob_is_valid(b: Seq<u8>) -> bool {
    b.len() % 3 == 0 && decode_runs(b).len() == CHUNK_VOLUME
}

proof fn lemma_decode_push(b: Seq<u8>, c: u8, t: u8, d: u8)
    ensures
        decode_runs(b.push(c).push(t).push(d)) == decode_runs(b) + Seq::new(
            c as nat,
            |_i: int| voxel_of_bytes(t, d),
        ),
{
    let e = b.push(c).push(t).push(d);
    assert(e.subrange(0, b.len() as int) =~= b);
    assert(decode_runs(e) =~= decode_runs(b) + Seq::new(c as nat, |_i: int| voxel_of_bytes(t, d)));
}

proof fn lemma_decode_prefix_len(b: Seq<u8>, m: int)
    requires
        0 <= 3 * m <= b.len(),
        b.len() % 3 == 0,
    ensures
        decode_runs(b.subrange(0, 3 * m)).len() <= decode_runs(b).len(),
    decreases b.len(),
{
    if 3 * m < b.len() {
        let n = b.len() - 3;
        let p = b.subrange(0, n as int);
        assert(p.subrange(0, 3 * m) =~= b.subrange(0, 3 * m));
        lemma_decode_prefix_len(p, m);
    } else {
        assert(b.subrange(0, 3 * m) =~= b);
    }
}

proof fn lemma_decode_step(b: Seq<u8>, i: int)
    requires
        0 <= 3 * i,
        3 * i + 3 <= b.len(),
    ensures
        decode_runs(b.subrange(0, 3 * i + 3)) == decode_runs(b.subrange(0, 3 * i)) + Seq::new(
            b[3 * i] as nat,
            |_j: int| voxel_of_bytes(b[3 * i + 1], b[3 * i + 2]),
        ),
{
    let s = b.subrange(0, 3 * i);
    assert(b.subrange(0, 3 * i + 3) =~= s.push(b[3 * i]).push(b[3 * i + 1]).push(b[3 * i + 2]));
    lemma_decode_push(s, b[3 * i], b[3 * i + 1], b[3 * i + 2]);
}

/// Compresses a chunk's voxels into runs of equal voxels.
pub fn compress(voxels: &Vec<SdfVoxel>) -> (r: Vec<u8>)
    ensures
        r@.len() % 3 == 0,
        decode_runs(r@) == voxels@,
{
    let mut out: Vec<u8> = Vec::new();
    let mut i: usize = 0;
    proof {
        assert(voxels@.subrange(0, 0) =~= Seq::<SdfVoxel>::empty());
    }
    while i < voxels.len()
        invariant
            i <= voxels@.len(),
            out@.len() % 3 == 0,
            decode_runs(out@) == voxels@.subrange(0, i as int),
        decreases voxels@.len() - i,
    {
        let v = voxels[i];
        let mut j: usize = i + 1;
        while j < voxels.len() && j - i < 255 && voxels[j] == v
            invariant
                i < j <= voxels@.len(),
                j - i <= 255,
                v == voxels@[i as int],
                forall|m: int| i <= m < j ==> voxels@[m] == v,
            decreases voxels@.len() - j,
        {
            j += 1;
        }
        let count: u8 = (j - i) as u8;
        let t: u8 = v.voxel_type.0;
        let d: u8 = v.distance.0 as u8;
        proof {
            let ghost vd: i8 = v.distance.0;
            assert((vd as u8) as i8 == vd) by (bit_vector);
            lemma_decode_push(out@, count, t, d);
            assert(voxel_of_bytes(t, d) == v);
            assert(voxels@.subrange(0, j as int) =~= voxels@.subrange(0, i as int) + Seq::new(
                count as nat,
                |_k: int| voxel_of_bytes(t, d),
            ));
        }
        out.push(count);
        out.push(t);
        out.push(d);
        i = j;
    }
    proof {
        assert(voxels@.subrange(0, voxels@.len() as int) =~= voxels@);
    }
    out
}

/// Decompresses a blob; `None` when it does not stand for exactly one chunk.
pub fn decompress(blob: &Vec<u8>) -> (r: Option<Vec<SdfVoxel>>)
    ensures
        r.is_some() <==> blob_is_valid(blob@),
        r.is_some() ==> r.unwrap()@ == decode_runs(blob@),
{
    if blob.len() % 3 != 0 {
        return None;
    }
    let mut out: Vec<SdfVoxel> = Vec::new();
    let mut i: usize = 0;
    proof {
        assert(blob@.subrange(0, 0) =~= Seq::<u8>::empty());
    }
    while i < blob.len() / 3
        invariant
            blob@.len() % 3 == 0,
            i <= blob@.len() / 3,
            out@ == decode_runs(blob@.subrange(0, 3 * i as int)),
            out@.len() <= CHUNK_VOLUME,
        decreases blob@.len() / 3 - i,
    {
        let count: u8 = blob[3 * i];
        let v = SdfVoxel {
            voxel_type: SdfVoxelType(blob[3 * i + 1]),
            distance: VoxelDistance(blob[3 * i + 2] as i8),
        };
        proof {
            lemma_decode_step(blob@, i as int);
        }
        if out.len() + count as usize > CHUNK_VOLUME {
            proof {
                lemma_decode_prefix_len(blob@, i + 1);
            }
            return None;
        }
        let ghost before = out@;
        let mut n: u8 = 0;
        while n < count
            invariant
                n <= count,
                before.len() + count <= CHUNK_VOLUME,
                out@ == before + Seq::new(n as nat, |_j: int| v),
            decreases count - n,
        {
            out.push(v);
            n += 1;
            proof {
                assert(out@ =~= before + Seq::new(n as nat, |_j: int| v));
            }
        }
        proof {
            assert(v == voxel_of_bytes(blob@[3 * i as int + 1], blob@[3 * i as int + 2]));
            assert(out@ =~= decode_runs(blob@.subrange(0, 3 * i as int + 3)));
        }
        i += 1;
    }
    proof {
        assert(blob@.subrange(0, 3 * i as int) =~= blob@);
    }
    if out.len() != CHUNK_VOLUME {
        return None;
    }
    Some(out)
}

/// Compression is lossless: every blob that `compress` makes from a chunk
/// decompresses to that chunk.
pub proof fn lemma_round_trip(voxels: Seq<SdfVoxel>, blob: Seq<u8>)
    requires
        voxels.len() == CHUNK_VOLUME,
        blob.len() % 3 == 0,
        decode_runs(blob) == voxels,
    ensures
        blob_is_valid(blob),
        decode_runs(blob) == voxels,
{
}

} // verus!
