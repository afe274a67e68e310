//! The chunked block store: length-framed block records inside
//! zstd-compressed chunk files, and the sidecar metadata that describes
//! them. Decompression is an outside process; everything after it is
//! bytes parsed here.

use vstd::prelude::*;
use crate::bytes::le_to_int;
use crate::errors::StreamError;

verus! {

/// The sidecar metadata of a chunked store.
#[derive(Debug)]
pub struct ChunkMetadata {
    pub total_blocks: u64,
    pub num_chunks: usize,
    pub blocks_per_chunk: u64,
    pub compression: Vec<u8>,
}

/// The frame-length bounds the streaming reader enforces: an 80-byte
/// header with a minimal body, up to ten mebibytes.
pub open spec fn frame_len_ok_spec(len: int) -> bool {
    88 <= len <= 10_485_760
}

/// Tests a frame length against the reader's bounds.
pub fn frame_len_ok(len: u32) -> (r: bool)
    ensures
        r == frame_len_ok_spec(len as int),
{
    88 <= len && len <= 10_485_760
}

/// Parses length-framed blocks from `pos` to the end. A frame whose
/// body runs past the data is a structural failure; fewer than four
/// trailing bytes are ignored, as the store's writer pads nothing.
pub open spec fn parse_frames(b: Seq<u8>, pos: int) -> Option<Seq<Seq<u8>>>
    decreases b.len() - pos,
    when 0 <= pos
    via parse_frames_dec
{
    if pos + 4 > b.len() {
        Some(Seq::empty())
    } else {
        let len = le_to_int(b.subrange(pos, pos + 4));
        if pos + 4 + len > b.len() {
            None
        } else {
            match parse_frames(b, pos + 4 + len) {
                None => None,
                Some(rest) => Some(seq![b.subrange(pos + 4, pos + 4 + len)] + rest),
            }
        }
    }
}

#[via_fn]
proof fn parse_frames_dec(b: Seq<u8>, pos: int) {
    if 0 <= pos && pos + 4 <= b.len() {
        crate::bytes::lemma_le_to_int_bound(b.subrange(pos, pos + 4));
    }
}

/// Splits a decompressed chunk into its framed blocks; a frame that
/// runs past the end of the data is `Malformed`, and no partial block
/// is returned.
pub fn load_chunk_blocks(chunk_data: &Vec<u8>) -> (r: Result<Vec<Vec<u8>>, StreamError>)
    ensures
        match r {
            Ok(blocks) => parse_frames(chunk_data@, 0) == Some(
                crate::script::stack_view(blocks@),
            ),
            Err(e) => parse_frames(chunk_data@, 0) is None && e == StreamError::Malformed,
        },
{
    let n = chunk_data.len();
    let mut blocks: Vec<Vec<u8>> = Vec::new();
    let mut offset: usize = 0;
    proof {
        assert(crate::script::stack_view(blocks@) =~= Seq::<Seq<u8>>::empty());
    }
    while n - offset >= 4
        invariant
            offset <= n,
            n == chunk_data@.len(),
            match parse_frames(chunk_data@, offset as int) {
                Some(rest) => parse_frames(chunk_data@, 0) == Some(
                    crate::script::stack_view(blocks@) + rest,
                ),
                None => parse_frames(chunk_data@, 0) is None,
            },
        decreases n - offset,
    {
        let block_len64 = crate::bytes::read_u32_le(chunk_data, offset) as u64;
        proof {
            crate::bytes::lemma_le_to_int_bound(chunk_data@.subrange(offset as int, offset + 4));
            crate::bytes::lemma_pow256_values();
        }
        if block_len64 > (n - offset - 4) as u64 {
            return Err(StreamError::Malformed);
        }
        let block_len = block_len64 as usize;
        let ghost acc = crate::script::stack_view(blocks@);
        let block = crate::bytes::subvec(chunk_data, offset + 4, offset + 4 + block_len);
        let ghost bvv = block@;
        blocks.push(block);
        proof {
            assert(crate::script::stack_view(blocks@) =~= acc.push(bvv));
            match parse_frames(chunk_data@, offset + 4 + block_len) {
                None => {},
                Some(rest2) => {
                    assert(acc + (seq![bvv] + rest2) =~= crate::script::stack_view(blocks@)
                        + rest2);
                },
            }
        }
        offset = offset + 4 + block_len;
    }
    proof {
        assert(parse_frames(chunk_data@, offset as int) == Some(Seq::<Seq<u8>>::empty()));
        assert(crate::script::stack_view(blocks@) + Seq::<Seq<u8>>::empty()
            =~= crate::script::stack_view(blocks@));
    }
    Ok(blocks)
}

/// The block-index window and chunk-index window a height range needs,
/// as the cache loader computes them.
pub fn select_chunk_range(
    start_height: u64,
    max_blocks: Option<u64>,
    total_blocks: u64,
    blocks_per_chunk: u64,
    num_chunks: usize,
) -> (r: Option<(u64, u64, u64, u64)>)
    requires
        blocks_per_chunk >= 1,
        num_chunks >= 1,
    ensures
        match r {
            Some(q) => {
                &&& q.0 == start_height
                &&& q.1 as int == (match max_blocks {
                    Some(m) => if start_height + m <= total_blocks {
                        start_height + m
                    } else {
                        total_blocks as int
                    },
                    None => total_blocks as int,
                })
                &&& q.0 < q.1
                &&& q.2 as int == q.0 as int / (blocks_per_chunk as int)
                &&& ({
                    let lastc = (q.1 - 1) as int / (blocks_per_chunk as int);
                    q.3 as int == (if lastc < num_chunks - 1 {
                        lastc
                    } else {
                        (num_chunks - 1) as int
                    })
                })
            },
            None => (match max_blocks {
                Some(m) => if start_height + m <= total_blocks {
                    start_height + m
                } else {
                    total_blocks as int
                },
                None => total_blocks as int,
            }) <= start_height,
        },
{
    let end_idx: u64 = match max_blocks {
        Some(m) => {
            if m > u64::MAX - start_height || start_height + m > total_blocks {
                total_blocks
            } else {
                start_height + m
            }
        },
        None => total_blocks,
    };
    if end_idx <= start_height {
        return None;
    }
    let start_chunk = start_height / blocks_per_chunk;
    let last = (end_idx - 1) / blocks_per_chunk;
    let cap = (num_chunks - 1) as u64;
    let end_chunk = if last < cap {
        last
    } else {
        cap
    };
    Some((start_height, end_idx, start_chunk, end_chunk))
}

} // verus!

verus! {

/// Whitespace the metadata format ignores around tokens.
pub open spec fn is_space(c: u8) -> bool {
    c == 0x20 || c == 0x09 || c == 0x0d
}

/// Leading whitespace removed.
pub open spec fn trim_front(s: Seq<u8>) -> Seq<u8>
    decreases s.len(),
{
    if s.len() > 0 && is_space(s[0]) {
        trim_front(s.drop_first())
    } else {
        s
    }
}

/// Trailing whitespace removed.
pub open spec fn trim_back(s: Seq<u8>) -> Seq<u8>
    decreases s.len(),
{
    if s.len() > 0 && is_space(s.last()) {
        trim_back(s.drop_last())
    } else {
        s
    }
}

/// Surrounding whitespace removed.
pub open spec fn trim_of(s: Seq<u8>) -> Seq<u8> {
    trim_back(trim_front(s))
}

proof fn lemma_trim_front_at(s: Seq<u8>, k: int)
    requires
        0 <= k <= s.len(),
        forall|j: int| 0 <= j < k ==> is_space(s[j]),
        k < s.len() ==> !is_space(s[k]),
    ensures
        trim_front(s) == s.subrange(k, s.len() as int),
    decreases k,
{
    if k == 0 {
        if s.len() == 0 {
            assert(s.subrange(0, 0) =~= s);
        } else {
            assert(s.subrange(0, s.len() as int) =~= s);
        }
    } else {
        let t = s.drop_first();
        assert(forall|j: int| 0 <= j < k - 1 ==> is_space(#[trigger] t[j]));
        lemma_trim_front_at(t, k - 1);
        assert(t.subrange(k - 1, t.len() as int) =~= s.subrange(k, s.len() as int));
    }
}

proof fn lemma_trim_back_at(s: Seq<u8>, k: int)
    requires
        0 <= k <= s.len(),
        forall|j: int| k <= j < s.len() ==> is_space(s[j]),
        k > 0 ==> !is_space(s[k - 1]),
    ensures
        trim_back(s) == s.subrange(0, k),
    decreases s.len() - k,
{
    if k == s.len() {
        if s.len() == 0 {
            assert(s.subrange(0, 0) =~= s);
        } else {
            assert(s.subrange(0, s.len() as int) =~= s);
        }
    } else {
        let t = s.drop_last();
        assert(forall|j: int| k <= j < t.len() ==> is_space(#[trigger] t[j]));
        lemma_trim_back_at(t, k);
        assert(t.subrange(0, k) =~= s.subrange(0, k));
    }
}

/// Copies a token with surrounding whitespace removed.
pub fn trim(v: &Vec<u8>) -> (r: Vec<u8>)
    ensures
        r@ == trim_of(v@),
{
    let n = v.len();
    let mut a: usize = 0;
    while a < n && (v[a] == 0x20 || v[a] == 0x09 || v[a] == 0x0d)
        invariant
            a <= n,
            n == v@.len(),
            forall|j: int| 0 <= j < a ==> is_space(v@[j]),
        decreases n - a,
    {
        a = a + 1;
    }
    proof {
        lemma_trim_front_at(v@, a as int);
    }
    if a == n {
        let r: Vec<u8> = Vec::new();
        proof {
            assert(v@.subrange(n as int, n as int).len() == 0);
            assert(trim_back(v@.subrange(n as int, n as int)) =~= Seq::<u8>::empty());
            assert(r@ =~= trim_of(v@));
        }
        return r;
    }
    let mut b: usize = n;
    while b > a + 1 && (v[b - 1] == 0x20 || v[b - 1] == 0x09 || v[b - 1] == 0x0d)
        invariant
            a < b <= n,
            n == v@.len(),
            forall|j: int| b <= j < n ==> is_space(v@[j]),
        decreases b,
    {
        b = b - 1;
    }
    proof {
        let tf = v@.subrange(a as int, n as int);
        assert(forall|j: int| b - a <= j < tf.len() ==> is_space(#[trigger] tf[j]));
        assert(!is_space(tf[b - a - 1])) by {
            if b > a + 1 {
            } else {
                assert(b == a + 1);
                assert(tf[0] == v@[a as int]);
            }
        }
        lemma_trim_back_at(tf, b - a as int);
        assert(tf.subrange(0, b - a as int) =~= v@.subrange(a as int, b as int));
    }
    crate::bytes::subvec(v, a, b)
}

/// The decimal value of a digit string.
pub open spec fn dec_val(s: Seq<u8>) -> int
    decreases s.len(),
{
    if s.len() == 0 {
        0
    } else {
        dec_val(s.drop_last()) * 10 + (s.last() - 0x30)
    }
}

/// Whether every byte is a decimal digit.
pub open spec fn all_digits(s: Seq<u8>) -> bool {
    forall|i: int| 0 <= i < s.len() ==> 0x30 <= #[trigger] s[i] <= 0x39
}

/// What a decimal token denotes: a non-empty digit string within the
/// 64-bit range, or nothing.
pub open spec fn parse_u64_spec(s: Seq<u8>) -> Option<u64> {
    if s.len() >= 1 && all_digits(s) && dec_val(s) <= 0xffff_ffff_ffff_ffff {
        Some(dec_val(s) as u64)
    } else {
        None
    }
}

proof fn lemma_dec_val_snoc(s: Seq<u8>, k: int)
    requires
        0 <= k < s.len(),
    ensures
        dec_val(s.subrange(0, k + 1)) == dec_val(s.subrange(0, k)) * 10 + (s[k] - 0x30),
{
    let a = s.subrange(0, k + 1);
    assert(a.drop_last() =~= s.subrange(0, k));
    assert(a.last() == s[k]);
}

proof fn lemma_dec_val_nonneg(s: Seq<u8>)
    requires
        all_digits(s),
    ensures
        dec_val(s) >= 0,
    decreases s.len(),
{
    if s.len() > 0 {
        assert(all_digits(s.drop_last())) by {
            assert(forall|j: int| 0 <= j < s.len() - 1 ==> s.drop_last()[j] == s[j]);
        }
        lemma_dec_val_nonneg(s.drop_last());
    }
}

proof fn lemma_dec_val_prefix_mono(s: Seq<u8>, k: int)
    requires
        all_digits(s),
        0 <= k <= s.len(),
    ensures
        dec_val(s) >= dec_val(s.subrange(0, k)),
    decreases s.len() - k,
{
    if k == s.len() {
        assert(s.subrange(0, k) =~= s);
    } else {
        lemma_dec_val_snoc(s, k);
        assert(all_digits(s.subrange(0, k)));
        lemma_dec_val_nonneg(s.subrange(0, k));
        assert(dec_val(s.subrange(0, k)) * 10 >= dec_val(s.subrange(0, k))) by (nonlinear_arith)
            requires
                dec_val(s.subrange(0, k)) >= 0,
        ;
        lemma_dec_val_prefix_mono(s, k + 1);
    }
}

/// Parses a decimal token; agrees exactly with `parse_u64_spec`.
pub fn parse_u64(v: &Vec<u8>) -> (r: Option<u64>)
    ensures
        r == parse_u64_spec(v@),
{
    let n = v.len();
    if n == 0 {
        return None;
    }
    let mut acc: u64 = 0;
    let mut i: usize = 0;
    while i < n
        invariant
            i <= n,
            n == v@.len(),
            n >= 1,
            all_digits(v@.subrange(0, i as int)),
            acc as int == dec_val(v@.subrange(0, i as int)),
        decreases n - i,
    {
        let c = v[i];
        if c < 0x30 || c > 0x39 {
            proof {
                assert(!all_digits(v@));
            }
            return None;
        }
        let d = (c - 0x30) as u64;
        proof {
            lemma_dec_val_snoc(v@, i as int);
        }
        if acc > (0xffff_ffff_ffff_ffff - d) / 10 {
            proof {
                assert(all_digits(v@.subrange(0, i + 1))) by {
                    assert(forall|j: int|
                        0 <= j < i + 1 ==> 0x30 <= #[trigger] v@.subrange(0, i + 1)[j] <= 0x39);
                }
                let big = dec_val(v@.subrange(0, i + 1));
                assert(big > 0xffff_ffff_ffff_ffff) by (nonlinear_arith)
                    requires
                        big == acc * 10 + d,
                        acc > (0xffff_ffff_ffff_ffff - d) / 10,
                        0 <= d <= 9,
                        acc >= 0,
                ;
                if all_digits(v@) {
                    lemma_dec_val_prefix_mono(v@, i + 1);
                }
            }
            return None;
        }
        proof {
            assert(acc * 10 + d <= 0xffff_ffff_ffff_ffff) by (nonlinear_arith)
                requires
                    acc <= (0xffff_ffff_ffff_ffff - d) / 10,
                    0 <= d <= 9,
                    acc >= 0,
            ;
        }
        acc = acc * 10 + d;
        proof {
            assert(all_digits(v@.subrange(0, i + 1))) by {
                assert(forall|j: int|
                    0 <= j < i + 1 ==> 0x30 <= #[trigger] v@.subrange(0, i + 1)[j] <= 0x39);
            }
        }
        i = i + 1;
    }
    proof {
        assert(v@.subrange(0, n as int) =~= v@);
    }
    Some(acc)
}

} // verus!

verus! {

/// The first occurrence of a byte at or after `i`.
pub open spec fn find_byte(s: Seq<u8>, b: u8, i: int) -> Option<int>
    decreases s.len() - i,
    when 0 <= i
{
    if i >= s.len() {
        None
    } else if s[i] == b {
        Some(i)
    } else {
        find_byte(s, b, i + 1)
    }
}

proof fn lemma_find_byte_range(s: Seq<u8>, b: u8, i: int)
    requires
        0 <= i,
        find_byte(s, b, i) is Some,
    ensures
        i <= find_byte(s, b, i)->Some_0 < s.len(),
        s[find_byte(s, b, i)->Some_0] == b,
    decreases s.len() - i,
{
    if i < s.len() && s[i] != b {
        lemma_find_byte_range(s, b, i + 1);
    }
}

/// Scans for a byte; agrees exactly with `find_byte`.
fn find_byte_exec(v: &Vec<u8>, b: u8, from: usize) -> (r: Option<usize>)
    requires
        from <= v@.len(),
    ensures
        match r {
            Some(k) => find_byte(v@, b, from as int) == Some(k as int) && from <= k < v@.len(),
            None => find_byte(v@, b, from as int) is None,
        },
{
    let n = v.len();
    let mut i = from;
    while i < n
        invariant
            from <= i <= n,
            n == v@.len(),
            find_byte(v@, b, from as int) == find_byte(v@, b, i as int),
        decreases n - i,
    {
        if v[i] == b {
            return Some(i);
        }
        i = i + 1;
    }
    None
}

/// The metadata keys.
pub open spec fn key_total_blocks() -> Seq<u8> {
    seq![0x74u8, 0x6f, 0x74, 0x61, 0x6c, 0x5f, 0x62, 0x6c, 0x6f, 0x63, 0x6b, 0x73]
}

pub open spec fn key_num_chunks() -> Seq<u8> {
    seq![0x6eu8, 0x75, 0x6d, 0x5f, 0x63, 0x68, 0x75, 0x6e, 0x6b, 0x73]
}

pub open spec fn key_blocks_per_chunk() -> Seq<u8> {
    seq![
        0x62u8,
        0x6c,
        0x6f,
        0x63,
        0x6b,
        0x73,
        0x5f,
        0x70,
        0x65,
        0x72,
        0x5f,
        0x63,
        0x68,
        0x75,
        0x6e,
        0x6b,
    ]
}

pub open spec fn key_compression() -> Seq<u8> {
    seq![0x63u8, 0x6f, 0x6d, 0x70, 0x72, 0x65, 0x73, 0x73, 0x69, 0x6f, 0x6e]
}

/// The fields gathered while reading metadata lines.
pub struct MetaAcc {
    pub total: Option<u64>,
    pub chunks: Option<u64>,
    pub per: Option<u64>,
    pub comp: Option<Vec<u8>>,
}

/// The mathematical value of a [`MetaAcc`].
#[verifier::ext_equal]
pub ghost struct MetaAccV {
    pub total: Option<u64>,
    pub chunks: Option<u64>,
    pub per: Option<u64>,
    pub comp: Option<Seq<u8>>,
}

impl View for MetaAcc {
    type V = MetaAccV;

    open spec fn view(&self) -> MetaAccV {
        MetaAccV {
            total: self.total,
            chunks: self.chunks,
            per: self.per,
            comp: match self.comp {
                Some(v) => Some(v@),
                None => None,
            },
        }
    }
}

/// How one line changes the gathered fields: comments and blank lines
/// are skipped, a known key takes the parse of its value, an unknown
/// key or a line without a separator changes nothing.
pub open spec fn line_update(st: MetaAccV, line: Seq<u8>) -> MetaAccV {
    let t = trim_of(line);
    if t.len() == 0 || t[0] == 0x23 {
        st
    } else {
        match find_byte(t, 0x3d, 0) {
            None => st,
            Some(e) => {
                let key = trim_of(t.subrange(0, e));
                let val = trim_of(t.subrange(e + 1, t.len() as int));
                if key == key_total_blocks() {
                    MetaAccV { total: parse_u64_spec(val), ..st }
                } else if key == key_num_chunks() {
                    MetaAccV { chunks: parse_u64_spec(val), ..st }
                } else if key == key_blocks_per_chunk() {
                    MetaAccV { per: parse_u64_spec(val), ..st }
                } else if key == key_compression() {
                    MetaAccV { comp: Some(val), ..st }
                } else {
                    st
                }
            },
        }
    }
}

/// Folds `line_update` over the newline-separated lines from `pos`.
pub open spec fn meta_fold(b: Seq<u8>, pos: int, st: MetaAccV) -> MetaAccV
    decreases b.len() - pos,
    when 0 <= pos
    via meta_fold_dec
{
    if pos >= b.len() {
        st
    } else {
        match find_byte(b, 0x0a, pos) {
            None => line_update(st, b.subrange(pos, b.len() as int)),
            Some(nl) => meta_fold(b, nl + 1, line_update(st, b.subrange(pos, nl))),
        }
    }
}

#[via_fn]
proof fn meta_fold_dec(b: Seq<u8>, pos: int, st: MetaAccV) {
    if 0 <= pos && pos < b.len() {
        if find_byte(b, 0x0a, pos) is Some {
            lemma_find_byte_range(b, 0x0a, pos);
        }
    }
}

/// What a metadata file denotes: the fold of its lines, made whole only
/// when every required key parsed.
pub open spec fn parse_chunk_metadata_spec(b: Seq<u8>) -> Option<MetaAccV> {
    let st = meta_fold(
        b,
        0,
        MetaAccV { total: None, chunks: None, per: None, comp: None },
    );
    if st.total is Some && st.chunks is Some && st.per is Some && st.comp is Some {
        Some(st)
    } else {
        None
    }
}

/// Applies one line; agrees exactly with `line_update`.
fn apply_line(acc: MetaAcc, line: &Vec<u8>) -> (r: MetaAcc)
    ensures
        r@ == line_update(acc@, line@),
{
    let t = trim(line);
    if t.len() == 0 || t[0] == 0x23 {
        return acc;
    }
    let e = match find_byte_exec(&t, 0x3d, 0) {
        None => {
            return acc;
        },
        Some(e) => e,
    };
    let key_raw = crate::bytes::subvec(&t, 0, e);
    let key = trim(&key_raw);
    let val_raw = crate::bytes::subvec(&t, e + 1, t.len());
    let val = trim(&val_raw);
    let mut k_total: Vec<u8> = Vec::new();
    crate::bytes::push_slice(&mut k_total, &[0x74u8, 0x6f, 0x74, 0x61, 0x6c, 0x5f, 0x62, 0x6c, 0x6f, 0x63, 0x6b, 0x73]);
    let mut k_chunks: Vec<u8> = Vec::new();
    crate::bytes::push_slice(&mut k_chunks, &[0x6eu8, 0x75, 0x6d, 0x5f, 0x63, 0x68, 0x75, 0x6e, 0x6b, 0x73]);
    let mut k_per: Vec<u8> = Vec::new();
    crate::bytes::push_slice(&mut k_per, &[0x62u8, 0x6c, 0x6f, 0x63, 0x6b, 0x73, 0x5f, 0x70, 0x65, 0x72, 0x5f, 0x63, 0x68, 0x75, 0x6e, 0x6b]);
    let mut k_comp: Vec<u8> = Vec::new();
    crate::bytes::push_slice(&mut k_comp, &[0x63u8, 0x6f, 0x6d, 0x70, 0x72, 0x65, 0x73, 0x73, 0x69, 0x6f, 0x6e]);
    proof {
        assert(k_total@ =~= key_total_blocks());
        assert(k_chunks@ =~= key_num_chunks());
        assert(k_per@ =~= key_blocks_per_chunk());
        assert(k_comp@ =~= key_compression());
    }
    if crate::types::bytes_eq(&key, &k_total) {
        MetaAcc { total: parse_u64(&val), ..acc }
    } else if crate::types::bytes_eq(&key, &k_chunks) {
        MetaAcc { chunks: parse_u64(&val), ..acc }
    } else if crate::types::bytes_eq(&key, &k_per) {
        MetaAcc { per: parse_u64(&val), ..acc }
    } else if crate::types::bytes_eq(&key, &k_comp) {
        MetaAcc { comp: Some(val), ..acc }
    } else {
        acc
    }
}

/// Parses the sidecar metadata: line-oriented key=value text with
/// comments; all four keys are required. Agrees exactly with
/// `parse_chunk_metadata_spec`, with the chunk count held to the
/// machine's word.
pub fn parse_chunk_metadata(content: &Vec<u8>) -> (r: Option<ChunkMetadata>)
    ensures
        match r {
            Some(m) => ({
                &&& parse_chunk_metadata_spec(content@) matches Some(st)
                &&& st.total == Some(m.total_blocks)
                &&& st.chunks == Some(m.num_chunks as u64)
                &&& st.per == Some(m.blocks_per_chunk)
                &&& st.comp == Some(m.compression@)
            }),
            None => parse_chunk_metadata_spec(content@) is None || (
            parse_chunk_metadata_spec(content@)->Some_0.chunks->Some_0 as int)
                > usize::MAX as int,
        },
{
    let ghost bv = content@;
    let ghost st0 = MetaAccV { total: None, chunks: None, per: None, comp: None };
    let mut acc = MetaAcc { total: None, chunks: None, per: None, comp: None };
    let mut pos: usize = 0;
    let n = content.len();
    proof {
        assert(acc@ =~= st0);
    }
    while pos < n
        invariant
            pos <= n,
            n == bv.len(),
            bv == content@,
            meta_fold(bv, pos as int, acc@) == meta_fold(bv, 0, st0),
        decreases n - pos,
    {
        match find_byte_exec(content, 0x0a, pos) {
            None => {
                let line = crate::bytes::subvec(content, pos, n);
                acc = apply_line(acc, &line);
                pos = n;
            },
            Some(nl) => {
                let line = crate::bytes::subvec(content, pos, nl);
                acc = apply_line(acc, &line);
                pos = nl + 1;
            },
        }
    }
    let total = match acc.total {
        None => {
            return None;
        },
        Some(v) => v,
    };
    let chunks64 = match acc.chunks {
        None => {
            return None;
        },
        Some(v) => v,
    };
    let per = match acc.per {
        None => {
            return None;
        },
        Some(v) => v,
    };
    let comp = match acc.comp {
        None => {
            return None;
        },
        Some(v) => v,
    };
    if chunks64 > usize::MAX as u64 {
        return None;
    }
    Some(
        ChunkMetadata {
            total_blocks: total,
            num_chunks: chunks64 as usize,
            blocks_per_chunk: per,
            compression: comp,
        },
    )
}

} // verus!

verus! {

/// The window of the loaded span that a block-index range occupies,
/// counted from the first block of the first loaded chunk: the indices
/// shifted down by the chunk base and clamped to what was loaded.
pub fn chunk_local_window(
    start_idx: u64,
    end_idx: u64,
    start_chunk: u64,
    blocks_per_chunk: u64,
    loaded: u64,
) -> (r: (u64, u64))
    requires
        start_idx <= end_idx,
    ensures
        ({
            let base = (start_chunk as int) * (blocks_per_chunk as int);
            &&& r.0 as int == (if start_idx as int <= base {
                0int
            } else if start_idx as int - base > loaded as int {
                loaded as int
            } else {
                start_idx as int - base
            })
            &&& r.1 as int == (if end_idx as int <= base {
                0int
            } else if end_idx as int - base > loaded as int {
                loaded as int
            } else {
                end_idx as int - base
            })
            &&& r.0 <= r.1
        }),
{
    let ghost sc = start_chunk as int;
    let ghost bpc = blocks_per_chunk as int;
    proof {
        assert(sc * bpc < 0x1_0000_0000_0000_0000_0000_0000_0000_0000) by (nonlinear_arith)
            requires
                0 <= sc,
                sc < 0x1_0000_0000_0000_0000,
                0 <= bpc,
                bpc < 0x1_0000_0000_0000_0000,
        ;
        assert(sc * bpc >= 0) by (nonlinear_arith)
            requires
                0 <= sc,
                0 <= bpc,
        ;
    }
    let base: u128 = (start_chunk as u128) * (blocks_per_chunk as u128);
    let lo128: u128 = if (start_idx as u128) <= base {
        0
    } else {
        (start_idx as u128) - base
    };
    let hi128: u128 = if (end_idx as u128) <= base {
        0
    } else {
        (end_idx as u128) - base
    };
    let lo: u64 = if lo128 > loaded as u128 {
        loaded
    } else {
        lo128 as u64
    };
    let hi: u64 = if hi128 > loaded as u128 {
        loaded
    } else {
        hi128 as u64
    };
    (lo, hi)
}

} // verus!
