use vstd::prelude::*;

verus! {

/// Division rounded up: the number of `y`-sized pieces needed to cover `x`.
pub open spec fn spec_ceil_div(x: int, y: int) -> int {
    (x + y - 1) / y
}

/// Division rounded up.
pub fn ceil_div(x: usize, y: usize) -> (r: usize)
    requires
        y > 0,
        x + y <= usize::MAX,
    ensures
        r == spec_ceil_div(x as int, y as int),
        r * y >= x,
        x > 0 ==> (r - 1) * y < x,
{
    let r = (x + y - 1) / y;
    proof {
        assert(r * y >= x && (x > 0 ==> (r - 1) * y < x)) by (nonlinear_arith)
            requires
                y > 0,
                r as int == (x + y - 1) as int / y as int,
        ;
    }
    r
}

/// One piece of a transfer of `len` bytes at byte `offset` split at
/// `blk_size` boundaries: bytes `[data_offset, data_offset + len)` of the
/// transfer go to bytes `[page_offset, page_offset + len)` of block `page`.
#[derive(Clone, Copy, Debug)]
pub struct Chunk {
    pub page: usize,
    pub page_offset: usize,
    pub len: usize,
    pub data_offset: usize,
}

/// The number of blocks that a transfer of `len` bytes at `offset` acts on.
pub open spec fn blocks_touched(offset: int, len: int, blk_size: int) -> int {
    spec_ceil_div(offset % blk_size + len, blk_size)
}

/// Piece `i` of a transfer of `len` bytes at `offset`, split at `blk_size`
/// boundaries: the first piece starts inside its block, the others at the
/// start of theirs; every piece but the last runs to the end of its block.
pub open spec fn chunk_at(offset: int, len: int, blk_size: int, i: int) -> Chunk {
    let first = offset % blk_size;
    let page_offset = if i == 0 { first } else { 0 };
    let data_offset = if i == 0 { 0 } else { i * blk_size - first };
    let n = if i == blocks_touched(offset, len, blk_size) - 1 {
        len - data_offset
    } else {
        blk_size - page_offset
    };
    Chunk {
        page: (offset / blk_size + i) as usize,
        page_offset: page_offset as usize,
        len: n as usize,
        data_offset: data_offset as usize,
    }
}

/// A transfer of `len` bytes at `offset` can be split at `blk_size`
/// boundaries without leaving `usize`.
pub open spec fn plan_fits(offset: int, len: int, blk_size: int) -> bool {
    &&& blk_size > 0
    &&& offset >= 0
    &&& len >= 0
    &&& offset % blk_size + len + blk_size <= usize::MAX
    &&& offset + len <= usize::MAX
}

pub(crate) proof fn lemma_chunk_bounds(offset: int, len: int, blk_size: int, i: int)
    requires
        plan_fits(offset, len, blk_size),
        0 <= i < blocks_touched(offset, len, blk_size),
    ensures
        ({
            let first = offset % blk_size;
            let blocks = blocks_touched(offset, len, blk_size);
            &&& 0 <= first < blk_size
            &&& blocks * blk_size >= first + len
            &&& (blocks - 1) * blk_size < first + len
            &&& i * blk_size - first <= len
            &&& i > 0 ==> i * blk_size - first >= 0
            &&& i < blocks - 1 ==> (i + 1) * blk_size - first <= len
            &&& i == blocks - 1 ==> len - (if i == 0 { 0 } else { i * blk_size - first }) + (if i == 0 { first } else { 0 }) <= blk_size
            &&& (i + 1) * blk_size == i * blk_size + blk_size
            &&& offset / blk_size * blk_size + first == offset
            &&& offset / blk_size + i <= usize::MAX
            &&& i * blk_size <= usize::MAX
        }),
{
    let first = offset % blk_size;
    let blocks = blocks_touched(offset, len, blk_size);
    assert(0 <= first < blk_size);
    assert(offset / blk_size * blk_size + first == offset) by (nonlinear_arith)
        requires
            blk_size > 0,
            first == offset % blk_size,
    ;
    assert(blocks * blk_size >= first + len && (first + len > 0 ==> (blocks - 1) * blk_size < first + len)
        && blocks >= 0 && (first + len == 0 ==> blocks == 0)) by (nonlinear_arith)
        requires
            blk_size > 0,
            first + len >= 0,
            blocks == (first + len + blk_size - 1) / blk_size,
    ;
    assert((i + 1) * blk_size == i * blk_size + blk_size) by (nonlinear_arith);
    assert(i * blk_size <= (blocks - 1) * blk_size) by (nonlinear_arith)
        requires
            i <= blocks - 1,
            blk_size > 0,
    ;
    assert(i < blocks - 1 ==> (i + 1) * blk_size <= (blocks - 1) * blk_size) by (nonlinear_arith)
        requires
            blk_size > 0,
    ;
    assert(i > 0 ==> i * blk_size >= blk_size) by (nonlinear_arith)
        requires
            blk_size > 0,
            i >= 0,
    ;
    assert(offset / blk_size <= offset) by (nonlinear_arith)
        requires
            blk_size > 0,
            offset >= 0,
    ;
    let q = offset / blk_size;
    assert(q >= 0) by (nonlinear_arith)
        requires
            blk_size > 0,
            offset >= 0,
            q == offset / blk_size,
    ;
    assert(q + i <= (q + i) * blk_size && (q + i) * blk_size == q * blk_size + i * blk_size)
        by (nonlinear_arith)
        requires
            blk_size > 0,
            q >= 0,
            i >= 0,
    ;
}

/// Splits a transfer of `len` bytes at byte `offset` into pieces that each
/// stay within one block of `blk_size` bytes.
pub fn plan_chunks(offset: usize, len: usize, blk_size: usize) -> (plan: Vec<Chunk>)
    requires
        plan_fits(offset as int, len as int, blk_size as int),
    ensures
        plan@.len() == blocks_touched(offset as int, len as int, blk_size as int),
        forall|i: int|
            0 <= i < plan@.len() ==> #[trigger] plan@[i] == chunk_at(
                offset as int,
                len as int,
                blk_size as int,
                i,
            ),
{
    let mut plan: Vec<Chunk> = Vec::new();
    let mut done: usize = 0;
    let mut block_offset = offset % blk_size;
    let start = offset / blk_size;
    let blocks_to_act_on = ceil_div(block_offset + len, blk_size);
    let mut i: usize = 0;
    while i < blocks_to_act_on
        invariant
            plan_fits(offset as int, len as int, blk_size as int),
            blocks_to_act_on == blocks_touched(offset as int, len as int, blk_size as int),
            start == offset / blk_size,
            i <= blocks_to_act_on,
            plan@.len() == i,
            block_offset == if i <= 1 { offset % blk_size } else { 0 },
            i < blocks_to_act_on ==> done == if i == 0 { 0 } else { i * blk_size - offset % blk_size },
            forall|j: int|
                0 <= j < i ==> #[trigger] plan@[j] == chunk_at(
                    offset as int,
                    len as int,
                    blk_size as int,
                    j,
                ),
        decreases blocks_to_act_on - i,
    {
        proof {
            lemma_chunk_bounds(offset as int, len as int, blk_size as int, i as int);
        }
        if block_offset != 0 && i > 0 {
            block_offset = 0;
        }
        let num_bytes = if i == blocks_to_act_on - 1 {
            len - done
        } else {
            blk_size - block_offset
        };
        plan.push(Chunk { page: start + i, page_offset: block_offset, len: num_bytes, data_offset: done });
        done = done + num_bytes;
        i = i + 1;
    }
    plan
}

/// Law of `plan_chunks`: the pieces cover the transfer in order, each
/// piece starting where the one before it ended and the last ending at
/// `len`; each stays within its block, and consecutive pieces go to
/// consecutive blocks, the first being the block of `offset`.
pub proof fn lemma_chunks_tile(offset: int, len: int, blk_size: int)
    requires
        plan_fits(offset, len, blk_size),
    ensures
        ({
            let n = blocks_touched(offset, len, blk_size);
            &&& n >= 0
            &&& len > 0 ==> n > 0
            &&& n > 0 ==> chunk_at(offset, len, blk_size, 0).data_offset == 0
            &&& n > 0 ==> chunk_at(offset, len, blk_size, n - 1).data_offset + chunk_at(
                offset,
                len,
                blk_size,
                n - 1,
            ).len == len
            &&& n > 0 ==> chunk_at(offset, len, blk_size, 0).page == offset / blk_size
            &&& forall|i: int|
                0 <= i < n ==> #[trigger] chunk_at(offset, len, blk_size, i).page_offset
                    + chunk_at(offset, len, blk_size, i).len <= blk_size
            &&& forall|i: int|
                0 <= i < n - 1 ==> #[trigger] chunk_at(offset, len, blk_size, i).data_offset
                    + chunk_at(offset, len, blk_size, i).len == chunk_at(offset, len, blk_size, i + 1).data_offset
            &&& forall|i: int|
                0 <= i < n - 1 ==> #[trigger] chunk_at(offset, len, blk_size, i).page + 1
                    == chunk_at(offset, len, blk_size, i + 1).page
        }),
{
    let n = blocks_touched(offset, len, blk_size);
    let first = offset % blk_size;
    assert(n >= 0 && (len > 0 ==> n > 0)) by (nonlinear_arith)
        requires
            blk_size > 0,
            0 <= first,
            len >= 0,
            n == (first + len + blk_size - 1) / blk_size,
    ;
    assert forall|i: int| 0 <= i < n implies #[trigger] chunk_at(offset, len, blk_size, i).page_offset
        + chunk_at(offset, len, blk_size, i).len <= blk_size by {
        lemma_chunk_bounds(offset, len, blk_size, i);
    }
    assert forall|i: int| 0 <= i < n - 1 implies #[trigger] chunk_at(offset, len, blk_size, i).data_offset
        + chunk_at(offset, len, blk_size, i).len == chunk_at(offset, len, blk_size, i + 1).data_offset by {
        lemma_chunk_bounds(offset, len, blk_size, i);
        lemma_chunk_bounds(offset, len, blk_size, i + 1);
    }
    assert forall|i: int| 0 <= i < n - 1 implies #[trigger] chunk_at(offset, len, blk_size, i).page + 1
        == chunk_at(offset, len, blk_size, i + 1).page by {
        lemma_chunk_bounds(offset, len, blk_size, i);
        lemma_chunk_bounds(offset, len, blk_size, i + 1);
    }
    if n > 0 {
        lemma_chunk_bounds(offset, len, blk_size, 0);
        lemma_chunk_bounds(offset, len, blk_size, n - 1);
    }
}


/// Position `j` of the caller's buffer lies in piece `c`.
pub open spec fn in_piece(c: Chunk, j: int) -> bool {
    c.data_offset <= j < c.data_offset + c.len
}

/// The pieces of `plan` come in order and do not overlap in the caller's
/// buffer.
pub open spec fn pieces_ordered(plan: Seq<Chunk>) -> bool {
    forall|i: int, k: int|
        #![trigger plan[i], plan[k]]
        0 <= i < k < plan.len() ==> plan[i].data_offset + plan[i].len <= plan[k].data_offset
}

/// Copies the pieces of a read into `data`: piece `i` of `plan` takes its
/// `len` bytes from `blocks[i]`, the block read for it, starting at its
/// `page_offset`, and puts them at its `data_offset`. The rest of `data`
/// is left as it was.
pub fn copy_pieces(data: &mut Vec<u8>, plan: &Vec<Chunk>, blocks: &Vec<Vec<u8>>)
    requires
        blocks@.len() == plan@.len(),
        pieces_ordered(plan@),
        forall|i: int|
            0 <= i < plan@.len() ==> plan@[i].page_offset + plan@[i].len <= (
            #[trigger] blocks@[i])@.len(),
        forall|i: int|
            0 <= i < plan@.len() ==> (#[trigger] plan@[i]).data_offset + plan@[i].len <= old(
                data,
            )@.len(),
    ensures
        final(data)@.len() == old(data)@.len(),
        forall|i: int, j: int|
            #![trigger final(data)@[j], plan@[i]]
            0 <= i < plan@.len() && in_piece(plan@[i], j) ==> final(data)@[j] == blocks@[i]@[j
                - plan@[i].data_offset + plan@[i].page_offset],
        forall|j: int|
            0 <= j < old(data)@.len() && (forall|i: int|
                0 <= i < plan@.len() ==> !in_piece(#[trigger] plan@[i], j)) ==> final(data)@[j]
                == old(data)@[j],
{
    let mut k: usize = 0;
    while k < plan.len()
        invariant
            k <= plan@.len(),
            blocks@.len() == plan@.len(),
            pieces_ordered(plan@),
            forall|i: int|
                0 <= i < plan@.len() ==> plan@[i].page_offset + plan@[i].len <= (
                #[trigger] blocks@[i])@.len(),
            forall|i: int|
                0 <= i < plan@.len() ==> (#[trigger] plan@[i]).data_offset + plan@[i].len
                    <= old(data)@.len(),
            data@.len() == old(data)@.len(),
            forall|i: int, j: int|
                #![trigger data@[j], plan@[i]]
                0 <= i < k && in_piece(plan@[i], j) ==> data@[j] == blocks@[i]@[j
                    - plan@[i].data_offset + plan@[i].page_offset],
            forall|j: int|
                0 <= j < old(data)@.len() && (forall|i: int|
                    0 <= i < k ==> !in_piece(#[trigger] plan@[i], j)) ==> data@[j] == old(
                    data,
                )@[j],
        decreases plan@.len() - k,
    {
        let c = plan[k];
        let block = &blocks[k];
        let ghost before = data@;
        let data_len = data.len();
        let block_len = block.len();
        let mut t: usize = 0;
        while t < c.len
            invariant
                t <= c.len,
                k < plan@.len(),
                data@.len() == data_len,
                block@.len() == block_len,
                c == plan@[k as int],
                *block == blocks@[k as int],
                c.page_offset + c.len <= block@.len(),
                c.data_offset + c.len <= data@.len(),
                data@.len() == before.len(),
                forall|j: int|
                    #![trigger data@[j]]
                    0 <= j < data@.len() ==> data@[j] == if c.data_offset <= j < c.data_offset + t {
                        block@[j - c.data_offset + c.page_offset]
                    } else {
                        before[j]
                    },
            decreases c.len - t,
        {
            data.set(c.data_offset + t, block[c.page_offset + t]);
            t = t + 1;
        }
        proof {
            assert forall|i: int, j: int|
                #![trigger data@[j], plan@[i]]
                0 <= i < k + 1 && in_piece(plan@[i], j) implies data@[j] == blocks@[i]@[j
                - plan@[i].data_offset + plan@[i].page_offset] by {
                if i < k {
                    assert(plan@[i].data_offset + plan@[i].len <= plan@[k as int].data_offset);
                    assert(before[j] == blocks@[i]@[j - plan@[i].data_offset + plan@[i].page_offset]);
                }
            }
            assert forall|j: int|
                0 <= j < old(data)@.len() && (forall|i: int|
                    0 <= i < k + 1 ==> !in_piece(#[trigger] plan@[i], j)) implies data@[j] == old(
                data,
            )@[j] by {
                assert(!in_piece(plan@[k as int], j));
                assert forall|i: int| 0 <= i < k implies !in_piece(#[trigger] plan@[i], j) by {
                    assert(0 <= i < k + 1);
                }
            }
        }
        k = k + 1;
    }
}

/// Law of `plan_chunks`: the pieces of a plan come in order and do not
/// overlap in the caller's buffer.
pub proof fn lemma_chunks_ordered(offset: int, len: int, blk_size: int)
    requires
        plan_fits(offset, len, blk_size),
    ensures
        forall|i: int, k: int|
            #![trigger chunk_at(offset, len, blk_size, i), chunk_at(offset, len, blk_size, k)]
            0 <= i < k < blocks_touched(offset, len, blk_size) ==> chunk_at(offset, len, blk_size, i).data_offset
                + chunk_at(offset, len, blk_size, i).len <= chunk_at(offset, len, blk_size, k).data_offset,
{
    let n = blocks_touched(offset, len, blk_size);
    let first = offset % blk_size;
    assert forall|i: int, k: int|
        #![trigger chunk_at(offset, len, blk_size, i), chunk_at(offset, len, blk_size, k)]
        0 <= i < k < n implies chunk_at(offset, len, blk_size, i).data_offset + chunk_at(
        offset,
        len,
        blk_size,
        i,
    ).len <= chunk_at(offset, len, blk_size, k).data_offset by {
        lemma_chunk_bounds(offset, len, blk_size, i);
        lemma_chunk_bounds(offset, len, blk_size, i + 1);
        lemma_chunk_bounds(offset, len, blk_size, k);
        assert((i + 1) * blk_size <= k * blk_size) by (nonlinear_arith)
            requires
                i + 1 <= k,
                blk_size > 0,
        ;
    }
}

} // verus!
