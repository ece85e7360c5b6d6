//! Progress through a batch of buffers handed to one vectored write.
//!
//! A vectored write may accept fewer bytes than it was offered; the rest
//! must be offered again from the exact byte where it stopped, possibly in
//! the middle of a buffer.
use vstd::prelude::*;

verus! {

/// A position in a batch: buffer `index`, byte `offset` within it.
#[derive(Debug, PartialEq, Eq, Structural, Clone, Copy)]
pub struct WritePos {
    pub index: usize,
    pub offset: usize,
}

/// Total length of the buffers.
pub open spec fn sum_lens(lens: Seq<usize>) -> nat
    decreases lens.len(),
{
    if lens.len() == 0 {
        0
    } else {
        (sum_lens(lens.drop_last()) + lens.last()) as nat
    }
}

/// How many bytes of the batch lie before `pos`.
pub open spec fn flat_offset(lens: Seq<usize>, pos: WritePos) -> nat {
    (sum_lens(lens.take(pos.index as int)) + pos.offset) as nat
}

/// `pos` lies inside the batch or at its very end.
pub open spec fn within(lens: Seq<usize>, pos: WritePos) -> bool {
    &&& pos.index <= lens.len()
    &&& pos.index < lens.len() ==> pos.offset <= lens[pos.index as int]
    &&& pos.index == lens.len() ==> pos.offset == 0
}

/// `pos` names a byte still to be written, or the end of the batch; it
/// never rests at the end of a buffer or on an empty one.
pub open spec fn settled(lens: Seq<usize>, pos: WritePos) -> bool {
    &&& pos.index <= lens.len()
    &&& pos.index < lens.len() ==> pos.offset < lens[pos.index as int]
    &&& pos.index == lens.len() ==> pos.offset == 0
}

proof fn lemma_sum_take_step(lens: Seq<usize>, i: int)
    requires
        0 <= i < lens.len(),
    ensures
        sum_lens(lens.take(i + 1)) == sum_lens(lens.take(i)) + lens[i],
{
    assert(lens.take(i + 1).drop_last() =~= lens.take(i));
}

/// Moves `at` past the `wrote` bytes that the last write accepted,
/// across as many buffer boundaries as they span.
pub fn write_all_vectored(lens: &Vec<usize>, at: WritePos, wrote: usize) -> (r: WritePos)
    requires
        within(lens@, at),
        flat_offset(lens@, at) + wrote <= sum_lens(lens@),
    ensures
        settled(lens@, r),
        flat_offset(lens@, r) == flat_offset(lens@, at) + wrote,
{
    let mut index = at.index;
    let mut offset = at.offset;
    let mut left = wrote;
    while index < lens.len() && left >= lens[index] - offset
        invariant
            within(lens@, WritePos { index, offset }),
            flat_offset(lens@, WritePos { index, offset }) + left == flat_offset(lens@, at) + wrote,
            flat_offset(lens@, at) + wrote <= sum_lens(lens@),
        decreases lens@.len() - index,
    {
        proof {
            lemma_sum_take_step(lens@, index as int);
        }
        left = left - (lens[index] - offset);
        index = index + 1;
        offset = 0;
    }
    if index == lens.len() {
        proof {
            assert(lens@.take(index as int) =~= lens@);
        }
        WritePos { index, offset: 0 }
    } else {
        WritePos { index, offset: offset + left }
    }
}

/// The bytes of a header before the source's path: `>>> `, after a blank
/// line unless it is the first header of the output. The path and a
/// delimiter follow.
pub open spec fn header_lead_spec(first: bool) -> Seq<u8> {
    if first {
        seq![62u8, 62u8, 62u8, 32u8]
    } else {
        seq![10u8, 62u8, 62u8, 62u8, 32u8]
    }
}

/// The bytes that open a header, as `header_lead_spec` gives them.
pub fn header_lead(first: bool) -> (r: Vec<u8>)
    ensures
        r@ == header_lead_spec(first),
{
    let mut r: Vec<u8> = Vec::new();
    if !first {
        r.push(10u8);
    }
    r.push(62u8);
    r.push(62u8);
    r.push(62u8);
    r.push(32u8);
    proof {
        assert(r@ =~= header_lead_spec(first));
    }
    r
}

} // verus!
