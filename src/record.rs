use vstd::prelude::*;
use crate::error::EdfError;
use crate::sample::{
    lemma_sample_round_trip, max_code, min_code, push_sample, read_sample, sample_bytes,
    sample_value,
};

verus! {

/// The content of one signal within one data record.
#[derive(Debug, Clone, PartialEq, Eq)]
pub enum Block {
    /// Digital codes of an ordinary signal.
    Samples(Vec<i32>),
    /// The raw bytes of an annotation signal.
    Annotations(Vec<u8>),
}

/// Where signal `i`'s block starts within a record: the sum of the sizes of the blocks before it.
pub open spec fn block_offset(spr: Seq<u32>, w: nat, i: int) -> int
    decreases i,
{
    if i <= 0 {
        0
    } else {
        block_offset(spr, w, i - 1) + spr[i - 1] * w
    }
}

/// The byte length of one data record.
pub open spec fn record_len(spr: Seq<u32>, w: nat) -> int {
    block_offset(spr, w, spr.len() as int)
}

/// The bytes of a run of codes, one sample after another.
pub open spec fn codes_bytes(c: Seq<i32>, w: nat) -> Seq<u8>
    decreases c.len(),
{
    if c.len() == 0 {
        Seq::empty()
    } else {
        codes_bytes(c.drop_last(), w) + sample_bytes(c.last() as int, w)
    }
}

/// The bytes that a block occupies within a record.
pub open spec fn block_bytes(b: Block, w: nat) -> Seq<u8> {
    match b {
        Block::Samples(c) => codes_bytes(c@, w),
        Block::Annotations(a) => a@,
    }
}

/// The first `n` blocks, laid out one after another.
pub open spec fn record_bytes(blocks: Seq<Block>, w: nat, n: int) -> Seq<u8>
    decreases n,
{
    if n <= 0 {
        Seq::empty()
    } else {
        record_bytes(blocks, w, n - 1) + block_bytes(blocks[n - 1], w)
    }
}

/// Whether a block holds exactly one record's worth of content for a signal of `spr`
/// samples per record.
pub open spec fn block_fits(b: Block, spr: u32, w: nat) -> bool {
    match b {
        Block::Samples(c) => c.len() == spr,
        Block::Annotations(a) => a.len() == spr * w,
    }
}

pub open spec fn blocks_fit(blocks: Seq<Block>, spr: Seq<u32>, w: nat) -> bool {
    blocks.len() == spr.len() && forall|i: int|
        0 <= i < blocks.len() ==> block_fits(#[trigger] blocks[i], spr[i], w)
}

/// Whether every code of a block lies in the range of the sample width.
pub open spec fn block_codes_fit(b: Block, w: nat) -> bool {
    match b {
        Block::Samples(c) => forall|j: int|
            0 <= j < c.len() ==> min_code(w) <= #[trigger] c@[j] <= max_code(w),
        Block::Annotations(a) => true,
    }
}

pub open spec fn codes_fit(blocks: Seq<Block>, w: nat) -> bool {
    forall|i: int| 0 <= i < blocks.len() ==> block_codes_fit(#[trigger] blocks[i], w)
}

/// Lays out one data record: each signal's block in signal order.
#[verifier::rlimit(40)]
pub fn pack_record(blocks: &Vec<Block>, spr: &Vec<u32>, w: usize) -> (r: Result<Vec<u8>, EdfError>)
    requires
        w == 2 || w == 3,
    ensures
        !blocks_fit(blocks@, spr@, w as nat) ==> r == Err::<Vec<u8>, EdfError>(
            EdfError::SampleCountMismatch,
        ),
        blocks_fit(blocks@, spr@, w as nat) && !codes_fit(blocks@, w as nat) ==> r == Err::<
            Vec<u8>,
            EdfError,
        >(EdfError::OutOfRange),
        blocks_fit(blocks@, spr@, w as nat) && codes_fit(blocks@, w as nat) ==> r is Ok && r->Ok_0@
            == record_bytes(blocks@, w as nat, blocks@.len() as int),
{
    if blocks.len() != spr.len() {
        return Err(EdfError::SampleCountMismatch);
    }
    let mut i: usize = 0;
    while i < blocks.len()
        invariant
            blocks@.len() == spr@.len(),
            i <= blocks@.len(),
            w == 2 || w == 3,
            forall|k: int| 0 <= k < i ==> block_fits(#[trigger] blocks@[k], spr@[k], w as nat),
        decreases blocks@.len() - i,
    {
        let n = spr[i] as u64;
        assert(n * (w as u64) <= 3 * 0xFFFF_FFFF) by (nonlinear_arith)
            requires
                w <= 3,
                n <= 0xFFFF_FFFF,
        ;
        let ok = match &blocks[i] {
            Block::Samples(c) => c.len() as u64 == n,
            Block::Annotations(a) => a.len() as u64 == n * w as u64,
        };
        if !ok {
            return Err(EdfError::SampleCountMismatch);
        }
        i = i + 1;
    }
    let mut out: Vec<u8> = Vec::new();
    let mut i: usize = 0;
    while i < blocks.len()
        invariant
            i <= blocks@.len(),
            w == 2 || w == 3,
            blocks_fit(blocks@, spr@, w as nat),
            forall|k: int| 0 <= k < i ==> block_codes_fit(#[trigger] blocks@[k], w as nat),
            out@ == record_bytes(blocks@, w as nat, i as int),
        decreases blocks@.len() - i,
    {
        match &blocks[i] {
            Block::Samples(c) => {
                let ghost start = out@;
                let mut j: usize = 0;
                while j < c.len()
                    invariant
                        i < blocks@.len(),
                        blocks@[i as int] == Block::Samples(*c),
                        blocks_fit(blocks@, spr@, w as nat),
                        j <= c@.len(),
                        w == 2 || w == 3,
                        forall|m: int| 0 <= m < j ==> min_code(w as nat) <= #[trigger] c@[m] <= max_code(w as nat),
                        out@ == start + codes_bytes(c@.subrange(0, j as int), w as nat),
                    decreases c@.len() - j,
                {
                    let code = c[j];
                    if code < min_exec(w) || code > max_exec(w) {
                        assert(!block_codes_fit(blocks@[i as int], w as nat)) by {
                            assert(!(min_code(w as nat) <= c@[j as int] <= max_code(w as nat)));
                        }
                        return Err(EdfError::OutOfRange);
                    }
                    push_sample(&mut out, code, w);
                    assert(c@.subrange(0, j + 1).drop_last() =~= c@.subrange(0, j as int));
                    j = j + 1;
                }
                assert(c@.subrange(0, c@.len() as int) =~= c@);
            },
            Block::Annotations(a) => {
                let mut j: usize = 0;
                let ghost start = out@;
                while j < a.len()
                    invariant
                        j <= a@.len(),
                        out@ == start + a@.subrange(0, j as int),
                    decreases a@.len() - j,
                {
                    out.push(a[j]);
                    assert(out@ =~= start + a@.subrange(0, j + 1));
                    j = j + 1;
                }
                assert(a@.subrange(0, a@.len() as int) =~= a@);
            },
        }
        assert(out@ =~= record_bytes(blocks@, w as nat, i + 1));
        i = i + 1;
    }
    Ok(out)
}

fn min_exec(w: usize) -> (r: i32)
    requires
        w == 2 || w == 3,
    ensures
        r == min_code(w as nat),
{
    proof {
        reveal_with_fuel(crate::sample::modulus, 4);
    }
    if w == 2 {
        -32768
    } else {
        -8388608
    }
}

fn max_exec(w: usize) -> (r: i32)
    requires
        w == 2 || w == 3,
    ensures
        r == max_code(w as nat),
{
    proof {
        reveal_with_fuel(crate::sample::modulus, 4);
    }
    if w == 2 {
        32767
    } else {
        8388607
    }
}

pub proof fn lemma_le_bytes_len(u: int, w: nat)
    ensures
        crate::sample::le_bytes(u, w).len() == w,
    decreases w,
{
    if w > 0 {
        lemma_le_bytes_len(u / 256, (w - 1) as nat);
    }
}

/// The bytes of the `j`-th code sit at `j * w` within the bytes of a run of codes.
pub proof fn lemma_codes_bytes(c: Seq<i32>, w: nat, j: int)
    requires
        0 <= j < c.len(),
    ensures
        codes_bytes(c, w).len() == c.len() * w,
        codes_bytes(c, w).subrange(j * w, j * w + w) == sample_bytes(c[j] as int, w),
    decreases c.len(),
{
    let n = c.len() - 1;
    lemma_codes_bytes_len(c, w);
    lemma_codes_bytes_len(c.drop_last(), w);
    lemma_le_bytes_len(if c.last() < 0 { c.last() + crate::sample::modulus(w) } else { c.last() as int }, w);
    assert(n * w + w == c.len() * w) by (nonlinear_arith)
        requires
            n == c.len() - 1,
    ;
    if j == n {
        assert(codes_bytes(c, w).subrange(j * w, j * w + w) =~= sample_bytes(c[j] as int, w));
    } else {
        lemma_codes_bytes(c.drop_last(), w, j);
        assert(j * w + w <= n * w) by (nonlinear_arith)
            requires
                j < n,
        ;
        assert(0 <= j * w) by (nonlinear_arith)
            requires
                0 <= j,
        ;
        assert(codes_bytes(c, w).subrange(j * w, j * w + w) =~= codes_bytes(c.drop_last(), w).subrange(j * w, j * w + w));
    }
}

pub proof fn lemma_codes_bytes_len(c: Seq<i32>, w: nat)
    ensures
        codes_bytes(c, w).len() == c.len() * w,
    decreases c.len(),
{
    if c.len() > 0 {
        lemma_codes_bytes_len(c.drop_last(), w);
        lemma_le_bytes_len(if c.last() < 0 { c.last() + crate::sample::modulus(w) } else { c.last() as int }, w);
        assert((c.len() - 1) * w + w == c.len() * w) by (nonlinear_arith);
    }
}

/// When the blocks fit the layout, the record has the layout's length and signal `i`'s
/// block occupies the bytes from `block_offset(i)` to `block_offset(i + 1)`.
pub proof fn lemma_record_bytes(blocks: Seq<Block>, spr: Seq<u32>, w: nat, n: int, i: int)
    requires
        blocks_fit(blocks, spr, w),
        0 <= n <= blocks.len(),
        0 <= i < n,
    ensures
        record_bytes(blocks, w, n).len() == block_offset(spr, w, n),
        record_bytes(blocks, w, n).subrange(block_offset(spr, w, i), block_offset(spr, w, i + 1))
            == block_bytes(blocks[i], w),
    decreases n,
{
    lemma_record_bytes_len(blocks, spr, w, n);
    lemma_record_bytes_len(blocks, spr, w, n - 1);
    if i == n - 1 {
        assert(record_bytes(blocks, w, n).subrange(block_offset(spr, w, i), block_offset(spr, w, i + 1))
            =~= block_bytes(blocks[i], w));
    } else {
        lemma_record_bytes(blocks, spr, w, n - 1, i);
        lemma_offset_monotone(spr, w, i + 1, n - 1);
        lemma_offset_monotone(spr, w, i, i + 1);
        assert(record_bytes(blocks, w, n).subrange(block_offset(spr, w, i), block_offset(spr, w, i + 1))
            =~= record_bytes(blocks, w, n - 1).subrange(block_offset(spr, w, i), block_offset(spr, w, i + 1)));
    }
}

pub proof fn lemma_record_bytes_len(blocks: Seq<Block>, spr: Seq<u32>, w: nat, n: int)
    requires
        blocks_fit(blocks, spr, w),
        0 <= n <= blocks.len(),
    ensures
        record_bytes(blocks, w, n).len() == block_offset(spr, w, n),
    decreases n,
{
    if n > 0 {
        lemma_record_bytes_len(blocks, spr, w, n - 1);
        assert(block_fits(blocks[n - 1], spr[n - 1], w));
        match blocks[n - 1] {
            Block::Samples(c) => lemma_codes_bytes_len(c@, w),
            Block::Annotations(a) => {},
        }
    }
}

pub proof fn lemma_offset_monotone(spr: Seq<u32>, w: nat, a: int, b: int)
    requires
        0 <= a <= b <= spr.len(),
    ensures
        0 <= block_offset(spr, w, a) <= block_offset(spr, w, b),
    decreases b,
{
    if a < b {
        lemma_offset_monotone(spr, w, a, b - 1);
        assert(spr[b - 1] * w >= 0) by (nonlinear_arith);
    } else if a > 0 {
        lemma_offset_monotone(spr, w, a - 1, a - 1);
        assert(spr[a - 1] * w >= 0) by (nonlinear_arith);
    }
}

/// Every sample that a record was packed from is read back unchanged from its place in
/// the packed bytes.
pub proof fn lemma_record_sample_round_trip(
    blocks: Seq<Block>,
    spr: Seq<u32>,
    w: nat,
    i: int,
    j: int,
)
    requires
        w == 2 || w == 3,
        blocks_fit(blocks, spr, w),
        codes_fit(blocks, w),
        0 <= i < blocks.len(),
        blocks[i] is Samples,
        0 <= j < blocks[i]->Samples_0@.len(),
    ensures
        ({
            let pos = block_offset(spr, w, i) + j * w;
            &&& record_bytes(blocks, w, blocks.len() as int).len() == record_len(spr, w)
            &&& pos + w <= record_len(spr, w)
            &&& sample_value(record_bytes(blocks, w, blocks.len() as int).subrange(pos, pos + w))
                == blocks[i]->Samples_0@[j]
        }),
{
    let c = blocks[i]->Samples_0@;
    let n = blocks.len() as int;
    let rb = record_bytes(blocks, w, n);
    lemma_record_bytes(blocks, spr, w, n, i);
    lemma_offset_monotone(spr, w, i + 1, n);
    lemma_codes_bytes(c, w, j);
    assert(block_fits(blocks[i], spr[i], w));
    assert(block_codes_fit(blocks[i], w));
    assert(min_code(w) <= c[j] <= max_code(w));
    lemma_sample_round_trip(c[j] as int, w);
    let off = block_offset(spr, w, i);
    assert(j * w + w <= c.len() * w) by (nonlinear_arith)
        requires
            j < c.len(),
    ;
    assert(0 <= j * w) by (nonlinear_arith)
        requires
            0 <= j,
    ;
    assert(block_bytes(blocks[i], w) == codes_bytes(c, w));
    assert(block_offset(spr, w, i + 1) == off + c.len() * w);
    lemma_offset_monotone(spr, w, i, i + 1);
    let blk = rb.subrange(off, block_offset(spr, w, i + 1));
    assert(blk == codes_bytes(c, w));
    assert(rb.subrange(off + j * w, off + j * w + w) =~= blk.subrange(j * w, j * w + w));
}

} // verus!
