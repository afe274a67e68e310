//! The checkpoint/dispatch scheduler: sequential checkpoint generation,
//! per-chunk validation against reference verdicts, range partitioning
//! and result aggregation. Fetching blocks and talking to a reference
//! node are the caller's side; everything here is decided on values.

use vstd::prelude::*;
use vstd::arithmetic::div_mod::lemma_fundamental_div_mod;
use crate::connect::{connect_block, connect_block_spec, network_flags_spec, Network};
use crate::codec::parse_block;
use crate::errors::{InvalidKind, StreamError, Verdict};
use crate::script::SigChecker;
use crate::types::{CoinV, OutPointV};
use crate::utxo::UtxoSet;

verus! {

/// Configuration for parallel differential validation.
#[derive(Debug)]
pub struct ParallelConfig {
    /// How many workers may run at once.
    pub num_workers: usize,
    /// Blocks per chunk.
    pub chunk_size: u64,
    /// Whether a sequential checkpoint pass seeds the workers.
    pub use_checkpoints: bool,
}

/// Relies on num_cpus::get: the number of usable processors, at least
/// one.
#[verifier::external_body]
fn available_workers() -> (r: usize)
    ensures
        r >= 1,
{
    num_cpus::get()
}

impl Default for ParallelConfig {
    /// One worker per processor, 100000-block chunks, checkpoints on.
    fn default() -> (r: ParallelConfig)
        ensures
            r.num_workers >= 1,
            r.chunk_size == 100_000,
            r.use_checkpoints,
    {
        ParallelConfig { num_workers: available_workers(), chunk_size: 100_000, use_checkpoints: true }
    }
}

/// One chunk of work: a height range and the seed state for it.
pub struct BlockChunk {
    pub start_height: u64,
    pub end_height: u64,
    pub checkpoint_utxo: Option<UtxoSet>,
    pub skip_validation: bool,
}

/// What the reference said of a block.
#[derive(Clone, Copy, PartialEq, Eq, Structural, Debug)]
pub enum ReferenceVerdict {
    Valid,
    Invalid,
    /// The reference could not be reached; comparison is disabled.
    Unavailable,
}

/// A recorded disagreement for one height.
#[derive(Debug)]
pub struct Divergence {
    pub height: u64,
    pub local: Verdict,
    pub reference: ReferenceVerdict,
}

/// The outcome of validating one chunk.
#[derive(Debug)]
pub struct ChunkResult {
    pub start_height: u64,
    pub end_height: u64,
    pub tested: usize,
    pub matched: usize,
    pub divergences: Vec<Divergence>,
    pub duration_millis: u64,
}

/// Whether a local verdict agrees with the reference's; an unreachable
/// reference disables the comparison.
pub open spec fn verdicts_match_spec(local: Verdict, reference: ReferenceVerdict) -> bool {
    match (local, reference) {
        (Verdict::Valid, ReferenceVerdict::Valid) => true,
        (Verdict::Invalid(_), ReferenceVerdict::Invalid) => true,
        (_, ReferenceVerdict::Unavailable) => true,
        _ => false,
    }
}

/// Compares a verdict with the reference's.
pub fn verdicts_match(local: &Verdict, reference: &ReferenceVerdict) -> (r: bool)
    ensures
        r == verdicts_match_spec(*local, *reference),
{
    match (local, reference) {
        (Verdict::Valid, ReferenceVerdict::Valid) => true,
        (Verdict::Invalid(_), ReferenceVerdict::Invalid) => true,
        (_, ReferenceVerdict::Unavailable) => true,
        _ => false,
    }
}

/// Splits a height range into consecutive chunks of at most
/// `chunk_size` blocks.
pub fn make_chunks(start: u64, end: u64, chunk_size: u64) -> (r: Vec<(u64, u64)>)
    requires
        start <= end,
        end < 0xffff_ffff_ffff_ffff,
        chunk_size >= 1,
    ensures
        r@.len() >= 1,
        r@[0].0 == start,
        r@[r@.len() - 1].1 == end,
        forall|i: int| 0 <= i < r@.len() ==> (#[trigger] r@[i]).0 <= r@[i].1,
        forall|i: int|
            0 <= i < r@.len() ==> (#[trigger] r@[i]).1 as int == (if r@[i].0 + chunk_size - 1
                <= end {
                r@[i].0 + chunk_size - 1
            } else {
                end as int
            }),
        forall|i: int| 0 < i < r@.len() ==> (#[trigger] r@[i]).0 == r@[i - 1].1 + 1,
{
    let mut r: Vec<(u64, u64)> = Vec::new();
    let mut cur = start;
    while cur <= end
        invariant
            chunk_size >= 1,
            start <= cur,
            cur <= end + 1,
            end < 0xffff_ffff_ffff_ffff,
            r@.len() == 0 ==> cur == start,
            r@.len() >= 1 ==> r@[0].0 == start && r@[r@.len() - 1].1 + 1 == cur && r@[r@.len()
                - 1].1 <= end,
            forall|i: int| 0 <= i < r@.len() ==> (#[trigger] r@[i]).0 <= r@[i].1,
            forall|i: int|
                0 <= i < r@.len() ==> (#[trigger] r@[i]).1 as int == (if r@[i].0 + chunk_size - 1
                    <= end {
                    r@[i].0 + chunk_size - 1
                } else {
                    end as int
                }),
            forall|i: int| 0 < i < r@.len() ==> (#[trigger] r@[i]).0 == r@[i - 1].1 + 1,
        decreases end + 1 - cur,
    {
        let chunk_end: u64 = if end - cur >= chunk_size {
            cur + (chunk_size - 1)
        } else {
            end
        };
        r.push((cur, chunk_end));
        cur = chunk_end + 1;
    }
    r
}

/// The chain state after the first `n` blocks, applied strictly in
/// order from `start` with the rules of each height: the first
/// malformed or invalid block aborts with its index.
pub open spec fn iterate_chain<C: SigChecker>(
    blocks: Seq<Seq<u8>>,
    m0: Map<OutPointV, CoinV>,
    n: int,
    start: int,
    network: Network,
    c: &C,
) -> Result<Map<OutPointV, CoinV>, int>
    decreases n,
{
    if n <= 0 {
        Ok(m0)
    } else {
        match iterate_chain(blocks, m0, n - 1, start, network, c) {
            Err(e) => Err(e),
            Ok(m) => {
                match parse_block(blocks[n - 1]) {
                    None => Err(n - 1),
                    Some(pb) => match connect_block_spec(
                        pb.0,
                        pb.1,
                        m,
                        start + n - 1,
                        None,
                        network_flags_spec(network, start + n - 1),
                        c,
                    ) {
                        Err(_) => Err(n - 1),
                        Ok(res) => Ok(res.0),
                    },
                }
            },
        }
    }
}

/// What went wrong while building checkpoints.
#[derive(Clone, Copy, PartialEq, Eq, Structural, Debug)]
pub enum ChainError {
    /// A block failed to parse; its height follows.
    Malformed(u64),
    /// A block was consensus-invalid; its height and kind follow.
    Rejected(u64, InvalidKind),
}

/// Division steps by one: the quotient grows exactly at multiples.
proof fn lemma_div_step(a: int, cs: int)
    requires
        cs >= 1,
        a >= 0,
    ensures
        (a + 1) % cs == 0 ==> (a + 1) / cs == a / cs + 1,
        (a + 1) % cs != 0 ==> (a + 1) / cs == a / cs && (a + 1) % cs == a % cs + 1,
{
    assert((a + 1) % cs == 0 ==> (a + 1) / cs == a / cs + 1) by (nonlinear_arith)
        requires
            cs >= 1,
            a >= 0,
    ;
    assert((a + 1) % cs != 0 ==> (a + 1) / cs == a / cs && (a + 1) % cs == a % cs + 1)
        by (nonlinear_arith)
        requires
            cs >= 1,
            a >= 0,
    ;
}

/// The block index one past checkpoint `k`: a full chunk multiple, or
/// the end of the run.
pub open spec fn checkpoint_cut(k: int, chunk_size: int, n: int) -> int {
    if (k + 1) * chunk_size <= n {
        (k + 1) * chunk_size
    } else {
        n
    }
}

/// Applies a run of blocks in order, snapshotting the set after every
/// `chunk_size`-th block and after the last: the sequential phase that
/// seeds the parallel one. The first malformed or invalid block aborts,
/// naming its height; on success the checkpoint list is pinned exactly:
/// one checkpoint per boundary, in height order.
#[verifier::rlimit(100)]
pub fn generate_checkpoints<C: SigChecker>(
    blocks: &Vec<Vec<u8>>,
    utxo0: UtxoSet,
    start_height: u64,
    chunk_size: u64,
    network: Network,
    checker: &C,
) -> (r: Result<(UtxoSet, Vec<(u64, UtxoSet)>), ChainError>)
    requires
        utxo0.wf(),
        chunk_size >= 1,
        start_height + blocks@.len() < 0x1_0000_0000,
    ensures
        match r {
            Ok(out) => ({
                &&& out.0.wf()
                &&& iterate_chain(
                    crate::script::stack_view(blocks@),
                    utxo0@,
                    blocks@.len() as int,
                    start_height as int,
                    network,
                    checker,
                ) == Ok::<Map<OutPointV, CoinV>, int>(out.0@)
                &&& out.1@.len() == (if blocks@.len() == 0 {
                    0int
                } else {
                    ((blocks@.len() as int) + (chunk_size as int) - 1) / (chunk_size as int)
                })
                &&& forall|k: int|
                    0 <= k < out.1@.len() ==> ({
                        let cut = checkpoint_cut(k, chunk_size as int, blocks@.len() as int);
                        &&& (#[trigger] out.1@[k]).0 as int == start_height as int + cut - 1
                        &&& out.1@[k].1.wf()
                        &&& iterate_chain(
                            crate::script::stack_view(blocks@),
                            utxo0@,
                            cut,
                            start_height as int,
                            network,
                            checker,
                        ) == Ok::<Map<OutPointV, CoinV>, int>(out.1@[k].1@)
                    })
            }),
            Err(e) => ({
                let full = iterate_chain(
                    crate::script::stack_view(blocks@),
                    utxo0@,
                    blocks@.len() as int,
                    start_height as int,
                    network,
                    checker,
                );
                &&& full is Err
                &&& (match e {
                    ChainError::Malformed(h) => h as int,
                    ChainError::Rejected(h, _) => h as int,
                }) == start_height as int + full->Err_0
            }),
        },
{
    let ghost bsv = crate::script::stack_view(blocks@);
    let ghost m0 = utxo0@;
    let ghost cs = chunk_size as int;
    let n = blocks.len();
    let mut utxo = utxo0;
    let mut cps: Vec<(u64, UtxoSet)> = Vec::new();
    let mut i: usize = 0;
    while i < n
        invariant
            i <= n,
            n == blocks@.len(),
            bsv == crate::script::stack_view(blocks@),
            bsv.len() == n,
            m0 == utxo0@,
            cs == chunk_size as int,
            chunk_size >= 1,
            start_height + n < 0x1_0000_0000,
            utxo.wf(),
            iterate_chain(bsv, m0, i as int, start_height as int, network, checker) == Ok::<
                Map<OutPointV, CoinV>,
                int,
            >(utxo@),
            cps@.len() == (i as int) / cs + (if i == n && (n as int) % cs != 0 {
                1int
            } else {
                0int
            }),
            forall|k: int|
                0 <= k < cps@.len() ==> ({
                    let cut = checkpoint_cut(k, cs, n as int);
                    &&& (#[trigger] cps@[k]).0 as int == start_height as int + cut - 1
                    &&& cps@[k].1.wf()
                    &&& iterate_chain(bsv, m0, cut, start_height as int, network, checker) == Ok::<
                        Map<OutPointV, CoinV>,
                        int,
                    >(cps@[k].1@)
                }),
        decreases n - i,
    {
        let height = start_height + i as u64;
        proof {
            assert(bsv[i as int] == blocks@[i as int]@);
        }
        let (block, witnesses) = match crate::codec::deserialize_block(&blocks[i]) {
            None => {
                proof {
                    assert(iterate_chain(
                        bsv,
                        m0,
                        i + 1,
                        start_height as int,
                        network,
                        checker,
                    ) == Err::<Map<OutPointV, CoinV>, int>(i as int));
                    lemma_iterate_chain_err(
                        bsv,
                        m0,
                        i as int,
                        n as int,
                        start_height as int,
                        network,
                        checker,
                    );
                }
                return Err(ChainError::Malformed(height));
            },
            Some(p) => p,
        };
        proof {
            assert(parse_block(bsv[i as int]) == Some(
                (block@, crate::codec::block_witnesses_view(witnesses@)),
            ));
        }
        let (verdict, new_utxo, _undo) = connect_block(
            &block,
            &witnesses,
            utxo,
            height as u32,
            None,
            network,
            checker,
        );
        proof {
            assert(height as u32 as int == start_height + i);
        }
        match verdict {
            Verdict::Invalid(k) => {
                proof {
                    assert(iterate_chain(
                        bsv,
                        m0,
                        i + 1,
                        start_height as int,
                        network,
                        checker,
                    ) == Err::<Map<OutPointV, CoinV>, int>(i as int));
                    lemma_iterate_chain_err(
                        bsv,
                        m0,
                        i as int,
                        n as int,
                        start_height as int,
                        network,
                        checker,
                    );
                }
                return Err(ChainError::Rejected(height, k));
            },
            Verdict::Valid => {
                utxo = new_utxo;
                proof {
                    assert(iterate_chain(
                        bsv,
                        m0,
                        i + 1,
                        start_height as int,
                        network,
                        checker,
                    ) == Ok::<Map<OutPointV, CoinV>, int>(utxo@));
                }
            },
        }
        let at_boundary = (i as u64 + 1) % chunk_size == 0 || i == n - 1;
        proof {
            lemma_div_step(i as int, cs);
        }
        if at_boundary {
            let snap = utxo.snapshot();
            let ghost pre = cps@;
            cps.push((height, snap));
            proof {
                let k = pre.len() as int;
                lemma_fundamental_div_mod(i as int, cs);
                lemma_fundamental_div_mod((i + 1) as int, cs);
                if (i + 1) as int % cs == 0 {
                    assert((i + 1) as int / cs == (i as int) / cs + 1);
                    assert((k + 1) * cs == i + 1) by (nonlinear_arith)
                        requires
                            k == (i as int) / cs,
                            cs >= 1,
                            i >= 0,
                            (i + 1) as int % cs == 0,
                            (i + 1) as int == cs * ((i + 1) as int / cs) + (i + 1) as int % cs,
                            (i + 1) as int / cs == (i as int) / cs + 1,
                    ;
                    assert(checkpoint_cut(k, cs, n as int) == i + 1);
                } else {
                    assert(i == n - 1);
                    assert((k + 1) * cs > n as int) by (nonlinear_arith)
                        requires
                            k == (i as int) / cs,
                            cs >= 1,
                            i as int == n - 1,
                            n >= 1,
                            (i + 1) as int % cs != 0,
                            (i as int) == cs * ((i as int) / cs) + (i as int) % cs,
                            0 <= (i as int) % cs < cs,
                            (i + 1) as int == cs * ((i + 1) as int / cs) + (i + 1) as int % cs,
                            0 <= (i + 1) as int % cs < cs,
                    ;
                    assert(checkpoint_cut(k, cs, n as int) == n as int);
                }
                assert(forall|j: int| 0 <= j < pre.len() ==> cps@[j] == pre[j]);
                assert(cps@[k] == (height, snap));
            }
        }
        proof {
            if i + 1 < n {
                // no final push yet: the count is the boundary count
                if (i + 1) as int % cs == 0 {
                } else {
                    assert((i + 1) as int / cs == (i as int) / cs);
                }
            }
        }
        i = i + 1;
        proof {
            if i < n {
                if at_boundary {
                    assert((i as int) % cs == 0);
                    assert(cps@.len() == (i as int) / cs);
                } else {
                    assert(cps@.len() == (i as int) / cs);
                }
            }
        }
    }
    proof {
        if n > 0 {
            lemma_div_step(n as int - 1, cs);
            lemma_fundamental_div_mod(n as int, cs);
            lemma_fundamental_div_mod(n as int - 1, cs);
            lemma_fundamental_div_mod((n as int) + cs - 1, cs);
            if (n as int) % cs == 0 {
                assert(((n as int) + cs - 1) / cs == (n as int) / cs) by (nonlinear_arith)
                    requires
                        cs >= 1,
                        n >= 1,
                        (n as int) % cs == 0,
                        (n as int) == cs * ((n as int) / cs) + (n as int) % cs,
                        ((n as int) + cs - 1) == cs * (((n as int) + cs - 1) / cs) + ((
                        n as int) + cs - 1) % cs,
                        0 <= ((n as int) + cs - 1) % cs < cs,
                ;
            } else {
                assert(((n as int) + cs - 1) / cs == (n as int - 1) / cs + 1) by (nonlinear_arith)
                    requires
                        cs >= 1,
                        n >= 1,
                        (n as int) % cs != 0,
                        (n as int) == cs * ((n as int) / cs) + (n as int) % cs,
                        0 <= (n as int) % cs < cs,
                        (n as int - 1) == cs * ((n as int - 1) / cs) + (n as int - 1) % cs,
                        0 <= (n as int - 1) % cs < cs,
                        ((n as int) + cs - 1) == cs * (((n as int) + cs - 1) / cs) + ((
                        n as int) + cs - 1) % cs,
                        0 <= ((n as int) + cs - 1) % cs < cs,
                ;
            }
        }
    }
    Ok((utxo, cps))
}

/// A failed step keeps the whole run failed, with the same failing
/// A failed step keeps the whole run failed, with the same failing
/// index.
pub proof fn lemma_iterate_chain_err<C: SigChecker>(
    blocks: Seq<Seq<u8>>,
    m0: Map<OutPointV, CoinV>,
    i: int,
    n: int,
    start: int,
    network: Network,
    c: &C,
)
    requires
        0 <= i < n,
        iterate_chain(blocks, m0, i + 1, start, network, c) is Err,
    ensures
        iterate_chain(blocks, m0, n, start, network, c) == iterate_chain(
            blocks,
            m0,
            i + 1,
            start,
            network,
            c,
        ),
    decreases n - i,
{
    if i + 1 < n {
        lemma_iterate_chain_err(blocks, m0, i + 1, n, start, network, c);
    }
}

/// Checkpoints compose: applying the blocks between two checkpoints to
/// the earlier one yields exactly the later one. The segment is applied
/// starting from the height right after the earlier checkpoint.
#[verifier::rlimit(100)]
pub proof fn lemma_checkpoint_composition<C: SigChecker>(
    blocks: Seq<Seq<u8>>,
    m0: Map<OutPointV, CoinV>,
    start: int,
    network: Network,
    c: &C,
    a: int,
    b: int,
)
    requires
        0 <= a <= b <= blocks.len(),
        iterate_chain(blocks, m0, a, start, network, c) is Ok,
        iterate_chain(blocks, m0, b, start, network, c) is Ok,
    ensures
        iterate_chain(
            blocks.subrange(a, b),
            iterate_chain(blocks, m0, a, start, network, c)->Ok_0,
            b - a,
            start + a,
            network,
            c,
        ) == iterate_chain(blocks, m0, b, start, network, c),
    decreases b - a,
{
    let ma = iterate_chain(blocks, m0, a, start, network, c)->Ok_0;
    let seg = blocks.subrange(a, b);
    if b == a {
        assert(iterate_chain(seg, ma, 0, start + a, network, c) == Ok::<
            Map<OutPointV, CoinV>,
            int,
        >(ma));
    } else {
        assert(iterate_chain(blocks, m0, b - 1, start, network, c) is Ok) by {
            if iterate_chain(blocks, m0, b - 1, start, network, c) is Err {
                lemma_iterate_chain_err(blocks, m0, b - 1, b, start, network, c);
            }
        }
        lemma_checkpoint_composition(blocks, m0, start, network, c, a, b - 1);
        let segp = blocks.subrange(a, b - 1);
        assert(seg.subrange(0, b - 1 - a) =~= segp);
        lemma_iterate_chain_prefix_frame(seg, segp, ma, b - a, start + a, network, c);
        assert(seg[b - a - 1] == blocks[b - 1]);
    }
}

/// The run of a prefix only reads the prefix.
proof fn lemma_iterate_chain_prefix_frame<C: SigChecker>(
    blocks: Seq<Seq<u8>>,
    pre: Seq<Seq<u8>>,
    m0: Map<OutPointV, CoinV>,
    n: int,
    start: int,
    network: Network,
    c: &C,
)
    requires
        pre.len() <= blocks.len(),
        pre == blocks.subrange(0, pre.len() as int),
    ensures
        forall|k: int|
            0 <= k <= pre.len() ==> iterate_chain(blocks, m0, k, start, network, c)
                == #[trigger] iterate_chain(pre, m0, k, start, network, c),
{
    assert forall|k: int|
        0 <= k <= pre.len() implies iterate_chain(blocks, m0, k, start, network, c)
        == #[trigger] iterate_chain(pre, m0, k, start, network, c) by {
        lemma_iterate_chain_frame_one(blocks, pre, m0, k, start, network, c);
    }
}

proof fn lemma_iterate_chain_frame_one<C: SigChecker>(
    blocks: Seq<Seq<u8>>,
    pre: Seq<Seq<u8>>,
    m0: Map<OutPointV, CoinV>,
    k: int,
    start: int,
    network: Network,
    c: &C,
)
    requires
        pre.len() <= blocks.len(),
        pre == blocks.subrange(0, pre.len() as int),
        0 <= k <= pre.len(),
    ensures
        iterate_chain(blocks, m0, k, start, network, c) == iterate_chain(
            pre,
            m0,
            k,
            start,
            network,
            c,
        ),
    decreases k,
{
    if k > 0 {
        lemma_iterate_chain_frame_one(blocks, pre, m0, k - 1, start, network, c);
        assert(pre[k - 1] == blocks[k - 1]);
    }
}

} // verus!

verus! {

/// Deserializes and connects one block: the single step both phases
/// share. A block that does not parse is `Malformed`; otherwise the
/// connector's verdict is returned with the set it produced (unchanged
/// on an invalid block) and the undo log.
pub fn process_block<C: SigChecker>(
    block_bytes: &Vec<u8>,
    utxo: UtxoSet,
    height: u32,
    network: Network,
    checker: &C,
) -> (r: (Result<Verdict, StreamError>, UtxoSet, crate::connect::UndoLog))
    requires
        utxo.wf(),
    ensures
        r.1.wf(),
        match r.0 {
            Err(e) => parse_block(block_bytes@) is None && e == StreamError::Malformed && r.1@
                == utxo@,
            Ok(v) => ({
                &&& parse_block(block_bytes@) matches Some(pb)
                &&& ({
                    let spec = connect_block_spec(
                        pb.0,
                        pb.1,
                        utxo@,
                        height as int,
                        None,
                        network_flags_spec(network, height as int),
                        checker,
                    );
                    match spec {
                        Ok(res) => v == Verdict::Valid && r.1@ == res.0
                            && crate::connect::ops_view(r.2.ops@) == res.1,
                        Err(k) => v == Verdict::Invalid(k) && r.1@ == utxo@,
                    }
                })
            }),
        },
{
    let (block, witnesses) = match crate::codec::deserialize_block(block_bytes) {
        None => {
            return (Err(StreamError::Malformed), utxo, crate::connect::UndoLog { ops: Vec::new() });
        },
        Some(p) => p,
    };
    let (verdict, new_utxo, undo) = connect_block(
        &block,
        &witnesses,
        utxo,
        height,
        None,
        network,
        checker,
    );
    (Ok(verdict), new_utxo, undo)
}

/// The chain state after the first `n` blocks of a chunk: an invalid
/// block leaves the state unchanged and the scan continues; only a
/// malformed block aborts, with its index.
pub open spec fn chunk_chain<C: SigChecker>(
    blocks: Seq<Seq<u8>>,
    m0: Map<OutPointV, CoinV>,
    n: int,
    start: int,
    network: Network,
    c: &C,
) -> Result<Map<OutPointV, CoinV>, int>
    decreases n,
{
    if n <= 0 {
        Ok(m0)
    } else {
        match chunk_chain(blocks, m0, n - 1, start, network, c) {
            Err(e) => Err(e),
            Ok(m) => match parse_block(blocks[n - 1]) {
                None => Err(n - 1),
                Some(pb) => match connect_block_spec(
                    pb.0,
                    pb.1,
                    m,
                    start + n - 1,
                    None,
                    network_flags_spec(network, start + n - 1),
                    c,
                ) {
                    Err(_) => Ok(m),
                    Ok(res) => Ok(res.0),
                },
            },
        }
    }
}

/// The reference verdict for index `j`: the recorded one, or
/// unavailable past the end of the list.
pub open spec fn ref_at(refs: Seq<ReferenceVerdict>, j: int) -> ReferenceVerdict {
    if 0 <= j < refs.len() {
        refs[j]
    } else {
        ReferenceVerdict::Unavailable
    }
}

/// The divergence records a chunk scan produces from index `j` on,
/// given the working set `m` before block `j`: one record, in height
/// order, for exactly each block whose verdict disagrees with the
/// reference's, carrying both verdicts.
pub open spec fn expected_divs<C: SigChecker>(
    blocks: Seq<Seq<u8>>,
    m: Map<OutPointV, CoinV>,
    refs: Seq<ReferenceVerdict>,
    start: int,
    network: Network,
    c: &C,
    j: int,
) -> Seq<Divergence>
    decreases blocks.len() - j,
    when 0 <= j
{
    if j >= blocks.len() {
        Seq::empty()
    } else {
        match parse_block(blocks[j]) {
            None => Seq::empty(),
            Some(pb) => {
                let spec = connect_block_spec(
                    pb.0,
                    pb.1,
                    m,
                    start + j,
                    None,
                    network_flags_spec(network, start + j),
                    c,
                );
                let local = match spec {
                    Ok(_) => Verdict::Valid,
                    Err(k) => Verdict::Invalid(k),
                };
                let m2 = match spec {
                    Ok(res) => res.0,
                    Err(_) => m,
                };
                let refv = ref_at(refs, j);
                let tail = expected_divs(blocks, m2, refs, start, network, c, j + 1);
                if verdicts_match_spec(local, refv) {
                    tail
                } else {
                    seq![
                        Divergence { height: (start + j) as u64, local, reference: refv },
                    ] + tail
                }
            },
        }
    }
}

/// Validates the blocks of one chunk against per-height reference
/// verdicts. The set evolves exactly as `chunk_chain` says, the
/// divergence list is exactly `expected_divs` — complete, ordered and
/// carrying the chain verdicts — and a malformed block aborts the
/// chunk, naming its height.
#[verifier::rlimit(100)]
pub fn validate_chunk_blocks<C: SigChecker>(
    blocks: &Vec<Vec<u8>>,
    start_height: u64,
    checkpoint: UtxoSet,
    reference: &Vec<ReferenceVerdict>,
    network: Network,
    checker: &C,
) -> (r: Result<(ChunkResult, UtxoSet), ChainError>)
    requires
        checkpoint.wf(),
        blocks@.len() >= 1,
        start_height + blocks@.len() < 0x1_0000_0000,
    ensures
        match r {
            Ok(out) => ({
                &&& out.1.wf()
                &&& chunk_chain(
                    crate::script::stack_view(blocks@),
                    checkpoint@,
                    blocks@.len() as int,
                    start_height as int,
                    network,
                    checker,
                ) == Ok::<Map<OutPointV, CoinV>, int>(out.1@)
                &&& out.0.tested == blocks@.len()
                &&& out.0.start_height == start_height
                &&& out.0.end_height == start_height + blocks@.len() - 1
                &&& out.0.divergences@ == expected_divs(
                    crate::script::stack_view(blocks@),
                    checkpoint@,
                    reference@,
                    start_height as int,
                    network,
                    checker,
                    0,
                )
                &&& out.0.matched + out.0.divergences@.len() == out.0.tested
            }),
            Err(e) => ({
                let full = chunk_chain(
                    crate::script::stack_view(blocks@),
                    checkpoint@,
                    blocks@.len() as int,
                    start_height as int,
                    network,
                    checker,
                );
                &&& full is Err
                &&& (match e {
                    ChainError::Malformed(h) => h as int,
                    ChainError::Rejected(h, _) => h as int,
                }) == start_height as int + full->Err_0
            }),
        },
{
    let ghost bsv = crate::script::stack_view(blocks@);
    let ghost m0 = checkpoint@;
    let ghost refsv = reference@;
    let n = blocks.len();
    let mut utxo = checkpoint;
    let mut matched: usize = 0;
    let mut divergences: Vec<Divergence> = Vec::new();
    let mut i: usize = 0;
    proof {
        assert(divergences@ =~= Seq::<Divergence>::empty());
    }
    while i < n
        invariant
            i <= n,
            n == blocks@.len(),
            n >= 1,
            bsv == crate::script::stack_view(blocks@),
            bsv.len() == n,
            m0 == checkpoint@,
            refsv == reference@,
            start_height + n < 0x1_0000_0000,
            utxo.wf(),
            matched + divergences@.len() == i,
            chunk_chain(bsv, m0, i as int, start_height as int, network, checker) == Ok::<
                Map<OutPointV, CoinV>,
                int,
            >(utxo@),
            divergences@ + expected_divs(
                bsv,
                utxo@,
                refsv,
                start_height as int,
                network,
                checker,
                i as int,
            ) == expected_divs(bsv, m0, refsv, start_height as int, network, checker, 0),
        decreases n - i,
    {
        let height = start_height + i as u64;
        proof {
            assert(bsv[i as int] == blocks@[i as int]@);
        }
        let ghost pre_m = utxo@;
        let (step, new_utxo, _undo) = process_block(
            &blocks[i],
            utxo,
            height as u32,
            network,
            checker,
        );
        utxo = new_utxo;
        let local = match step {
            Err(_) => {
                proof {
                    assert(chunk_chain(
                        bsv,
                        m0,
                        i + 1,
                        start_height as int,
                        network,
                        checker,
                    ) == Err::<Map<OutPointV, CoinV>, int>(i as int));
                    lemma_chunk_chain_err(
                        bsv,
                        m0,
                        i as int,
                        n as int,
                        start_height as int,
                        network,
                        checker,
                    );
                }
                return Err(ChainError::Malformed(height));
            },
            Ok(v) => v,
        };
        proof {
            assert(chunk_chain(bsv, m0, i + 1, start_height as int, network, checker) == Ok::<
                Map<OutPointV, CoinV>,
                int,
            >(utxo@));
        }
        let refv = if i < reference.len() {
            reference[i]
        } else {
            ReferenceVerdict::Unavailable
        };
        proof {
            assert(refv == ref_at(refsv, i as int));
        }
        if verdicts_match(&local, &refv) {
            matched = matched + 1;
            proof {
                assert(expected_divs(
                    bsv,
                    pre_m,
                    refsv,
                    start_height as int,
                    network,
                    checker,
                    i as int,
                ) == expected_divs(
                    bsv,
                    utxo@,
                    refsv,
                    start_height as int,
                    network,
                    checker,
                    i + 1,
                ));
            }
        } else {
            let ghost pre_divs = divergences@;
            divergences.push(Divergence { height, local, reference: refv });
            proof {
                let d = Divergence {
                    height: (start_height + i) as u64,
                    local,
                    reference: refv,
                };
                assert(divergences@ =~= pre_divs.push(d));
                assert(expected_divs(
                    bsv,
                    pre_m,
                    refsv,
                    start_height as int,
                    network,
                    checker,
                    i as int,
                ) == seq![d] + expected_divs(
                    bsv,
                    utxo@,
                    refsv,
                    start_height as int,
                    network,
                    checker,
                    i + 1,
                ));
                assert(pre_divs + (seq![d] + expected_divs(
                    bsv,
                    utxo@,
                    refsv,
                    start_height as int,
                    network,
                    checker,
                    i + 1,
                )) =~= divergences@ + expected_divs(
                    bsv,
                    utxo@,
                    refsv,
                    start_height as int,
                    network,
                    checker,
                    i + 1,
                ));
            }
        }
        i = i + 1;
    }
    proof {
        assert(expected_divs(bsv, utxo@, refsv, start_height as int, network, checker, n as int)
            =~= Seq::<Divergence>::empty());
        assert(divergences@ + Seq::<Divergence>::empty() =~= divergences@);
    }
    let result = ChunkResult {
        start_height,
        end_height: start_height + (n as u64 - 1),
        tested: n,
        matched,
        divergences,
        duration_millis: 0,
    };
    Ok((result, utxo))
}

pub proof fn lemma_chunk_chain_err<C: SigChecker>(
    blocks: Seq<Seq<u8>>,
    m0: Map<OutPointV, CoinV>,
    i: int,
    n: int,
    start: int,
    network: Network,
    c: &C,
)
    requires
        0 <= i < n,
        chunk_chain(blocks, m0, i + 1, start, network, c) is Err,
    ensures
        chunk_chain(blocks, m0, n, start, network, c) == chunk_chain(
            blocks,
            m0,
            i + 1,
            start,
            network,
            c,
        ),
    decreases n - i,
{
    if i + 1 < n {
        lemma_chunk_chain_err(blocks, m0, i + 1, n, start, network, c);
    }
}

/// Sums the tested, matched and divergence counts over chunk results.
pub fn summarize(results: &Vec<ChunkResult>) -> (r: (u128, u128, u128))
    ensures
        r.0 == sum_tested(results@),
        r.1 == sum_matched(results@),
        r.2 == sum_divergences(results@),
{
    let mut tested: u128 = 0;
    let mut matched: u128 = 0;
    let mut div: u128 = 0;
    let n = results.len();
    let mut i: usize = 0;
    while i < n
        invariant
            i <= n,
            n == results@.len(),
            tested == sum_tested(results@.subrange(0, i as int)),
            matched == sum_matched(results@.subrange(0, i as int)),
            div == sum_divergences(results@.subrange(0, i as int)),
            tested <= (i as int) * 0xffff_ffff_ffff_ffff,
            matched <= (i as int) * 0xffff_ffff_ffff_ffff,
            div <= (i as int) * 0xffff_ffff_ffff_ffff,
        decreases n - i,
    {
        proof {
            lemma_sums_snoc(results@, i as int);
        }
        tested = tested + (results[i].tested as u128);
        matched = matched + (results[i].matched as u128);
        div = div + (results[i].divergences.len() as u128);
        i = i + 1;
    }
    proof {
        assert(results@.subrange(0, n as int) =~= results@);
    }
    (tested, matched, div)
}

pub open spec fn sum_tested(s: Seq<ChunkResult>) -> int
    decreases s.len(),
{
    if s.len() == 0 {
        0
    } else {
        s[0].tested + sum_tested(s.drop_first())
    }
}

pub open spec fn sum_matched(s: Seq<ChunkResult>) -> int
    decreases s.len(),
{
    if s.len() == 0 {
        0
    } else {
        s[0].matched + sum_matched(s.drop_first())
    }
}

pub open spec fn sum_divergences(s: Seq<ChunkResult>) -> int
    decreases s.len(),
{
    if s.len() == 0 {
        0
    } else {
        s[0].divergences@.len() + sum_divergences(s.drop_first())
    }
}

proof fn lemma_sums_snoc(s: Seq<ChunkResult>, i: int)
    requires
        0 <= i < s.len(),
    ensures
        sum_tested(s.subrange(0, i + 1)) == sum_tested(s.subrange(0, i)) + s[i].tested,
        sum_matched(s.subrange(0, i + 1)) == sum_matched(s.subrange(0, i)) + s[i].matched,
        sum_divergences(s.subrange(0, i + 1)) == sum_divergences(s.subrange(0, i)) + s[
            i
        ].divergences@.len(),
    decreases i,
{
    if i == 0 {
        assert(s.subrange(0, 1)[0] == s[0]);
        assert(s.subrange(0, 1).drop_first() =~= Seq::<ChunkResult>::empty());
        assert(sum_tested(Seq::<ChunkResult>::empty()) == 0);
        assert(sum_matched(Seq::<ChunkResult>::empty()) == 0);
        assert(sum_divergences(Seq::<ChunkResult>::empty()) == 0);
        assert(s.subrange(0, 0).len() == 0);
        assert(sum_tested(s.subrange(0, 0)) == 0);
        assert(sum_matched(s.subrange(0, 0)) == 0);
        assert(sum_divergences(s.subrange(0, 0)) == 0);
        assert(sum_tested(s.subrange(0, 1)) == s.subrange(0, 1)[0].tested + sum_tested(
            s.subrange(0, 1).drop_first(),
        ));
        assert(sum_matched(s.subrange(0, 1)) == s.subrange(0, 1)[0].matched + sum_matched(
            s.subrange(0, 1).drop_first(),
        ));
        assert(sum_divergences(s.subrange(0, 1)) == s.subrange(0, 1)[0].divergences@.len()
            + sum_divergences(s.subrange(0, 1).drop_first()));
    } else {
        let a = s.subrange(0, i + 1);
        let b = s.subrange(0, i);
        lemma_sums_snoc(s.drop_first(), i - 1);
        assert(a.drop_first() =~= s.drop_first().subrange(0, i));
        assert(b.drop_first() =~= s.drop_first().subrange(0, i - 1));
        assert(s.drop_first()[i - 1] == s[i]);
        assert(a[0] == s[0] && b[0] == s[0]);
        assert(sum_tested(a) == a[0].tested + sum_tested(a.drop_first()));
        assert(sum_tested(b) == b[0].tested + sum_tested(b.drop_first()));
        assert(sum_matched(a) == a[0].matched + sum_matched(a.drop_first()));
        assert(sum_matched(b) == b[0].matched + sum_matched(b.drop_first()));
        assert(sum_divergences(a) == a[0].divergences@.len() + sum_divergences(a.drop_first()));
        assert(sum_divergences(b) == b[0].divergences@.len() + sum_divergences(b.drop_first()));
    }
}

/// Compares two sets by their canonical serialization: the checkpoint
/// boundary invariant. Equality of the bytes is equality of the sets.
pub fn checkpoints_agree(a: &UtxoSet, b: &UtxoSet) -> (r: bool)
    ensures
        r == (crate::utxo::ser_entries(a.seq_view()) == crate::utxo::ser_entries(b.seq_view())),
{
    let sa = a.serialize_canonical();
    let sb = b.serialize_canonical();
    crate::types::bytes_eq(&sa, &sb)
}

} // verus!
