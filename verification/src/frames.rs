//! Framing of a pipeline binary for streaming to a node agent: the bytes
//! are cut into parts of a fixed size, each carrying its index and whether
//! more follow.

use vstd::prelude::*;

verus! {

/// The size of one frame of a streamed binary.
pub const NODE_PART_SIZE: usize = 2 * 1024 * 1024;

/// One frame of a streamed binary.
pub struct BinaryPart {
    pub part: u32,
    pub data: Vec<u8>,
    pub has_more: bool,
}

/// The bytes a frame list carries, in order.
pub open spec fn parts_data(s: Seq<BinaryPart>) -> Seq<u8>
    decreases s.len(),
{
    if s.len() == 0 {
        Seq::empty()
    } else {
        parts_data(s.drop_last()) + s.last().data@
    }
}

/// Cuts a binary into its frames: every frame but the last is full, the
/// last carries the rest, the frames carry their index in order, and only
/// the last says that nothing follows. Joined back together, the frames
/// give exactly the binary.
pub fn chunk_binary(binary: &Vec<u8>) -> (r: Vec<BinaryPart>)
    requires
        binary@.len() <= NODE_PART_SIZE as int * u32::MAX as int,
    ensures
        parts_data(r@) == binary@,
        forall|i: int| 0 <= i < r@.len() ==> (#[trigger] r@[i]).part == i,
        forall|i: int| 0 <= i < r@.len() ==> ((#[trigger] r@[i]).has_more <==> i < r@.len() - 1),
        forall|i: int| 0 <= i < r@.len() ==> 1 <= (#[trigger] r@[i]).data@.len() <= NODE_PART_SIZE,
        forall|i: int|
            0 <= i < r@.len() - 1 ==> (#[trigger] r@[i]).data@.len() == NODE_PART_SIZE,
        binary@.len() == 0 ==> r@.len() == 0,
{
    let total = binary.len();
    let mut r: Vec<BinaryPart> = Vec::new();
    let mut offset: usize = 0;
    proof {
        assert(binary@.take(0) =~= Seq::<u8>::empty());
    }
    while offset < total
        invariant
            total == binary@.len(),
            total <= NODE_PART_SIZE as int * u32::MAX as int,
            offset <= total,
            offset < total || total == 0,
            parts_data(r@) == binary@.take(offset as int),
            r@.len() * NODE_PART_SIZE as int == offset,
            forall|i: int| 0 <= i < r@.len() ==> (#[trigger] r@[i]).part == i,
            forall|i: int| 0 <= i < r@.len() ==> (#[trigger] r@[i]).has_more,
            forall|i: int| 0 <= i < r@.len() ==> (#[trigger] r@[i]).data@.len() == NODE_PART_SIZE,
        decreases total - offset,
    {
        let end = if total - offset < NODE_PART_SIZE {
            total
        } else {
            offset + NODE_PART_SIZE
        };
        let mut data: Vec<u8> = Vec::new();
        let mut j = offset;
        proof {
            assert(binary@.subrange(offset as int, offset as int) =~= Seq::<u8>::empty());
        }
        while j < end
            invariant
                offset <= j <= end <= binary@.len(),
                data@ == binary@.subrange(offset as int, j as int),
            decreases end - j,
        {
            proof {
                assert(binary@.subrange(offset as int, j as int + 1) =~= binary@.subrange(
                    offset as int,
                    j as int,
                ).push(binary@[j as int]));
            }
            data.push(binary[j]);
            j = j + 1;
        }
        proof {
            assert(r@.len() <= u32::MAX) by (nonlinear_arith)
                requires
                    r@.len() * NODE_PART_SIZE as int == offset,
                    offset <= NODE_PART_SIZE as int * u32::MAX as int,
                    NODE_PART_SIZE as int > 0,
            ;
        }
        let part_idx = r.len() as u32;
        let has_more = end < total;
        let ghost prev = r@;
        r.push(BinaryPart { part: part_idx, data, has_more });
        proof {
            assert(r@.drop_last() =~= prev);
            assert(parts_data(r@) == parts_data(prev) + r@.last().data@);
            assert(binary@.take(offset as int) + binary@.subrange(offset as int, end as int)
                =~= binary@.take(end as int));
            assert(r@.len() * NODE_PART_SIZE as int == prev.len() * NODE_PART_SIZE as int
                + NODE_PART_SIZE as int) by (nonlinear_arith)
                requires
                    r@.len() == prev.len() + 1,
            ;
        }
        offset = end;
        if !has_more {
            proof {
                assert(offset == total);
                assert(binary@.take(total as int) =~= binary@);
            }
            return r;
        }
    }
    proof {
        assert(binary@.take(total as int) =~= binary@);
        assert(r@.len() == 0) by (nonlinear_arith)
            requires
                r@.len() * NODE_PART_SIZE as int == 0,
                NODE_PART_SIZE as int > 0,
        ;
    }
    r
}

} // verus!
