//! The consensus data model: outpoints, coins, transactions, blocks and
//! witnesses, with mathematical views and the lexicographic outpoint order
//! the canonical UTXO serialization relies on.

use vstd::prelude::*;

verus! {

/// The largest valid amount, in satoshis.
pub const MAX_MONEY: u64 = 2_100_000_000_000_000;

/// Identifies a transaction output: a txid and an output index.
pub struct OutPoint {
    pub hash: [u8; 32],
    pub index: u32,
}

/// The mathematical value of an [`OutPoint`].
#[verifier::ext_equal]
pub ghost struct OutPointV {
    pub hash: Seq<u8>,
    pub index: u32,
}

impl View for OutPoint {
    type V = OutPointV;

    open spec fn view(&self) -> OutPointV {
        OutPointV { hash: self.hash@, index: self.index }
    }
}

impl OutPoint {
    /// Copies the outpoint.
    pub fn dup(&self) -> (r: OutPoint)
        ensures
            r@ == self@,
    {
        OutPoint { hash: self.hash, index: self.index }
    }

    /// Whether this is the null outpoint a coinbase input carries:
    /// all-zero hash and index 0xffffffff.
    pub open spec fn is_null_spec(self) -> bool {
        self@.index == 0xffff_ffffu32 && forall|i: int| 0 <= i < 32 ==> self@.hash[i] == 0u8
    }

    /// Tests for the null (coinbase) outpoint.
    pub fn is_null(&self) -> (r: bool)
        ensures
            r == self.is_null_spec(),
    {
        if self.index != 0xffff_ffff {
            return false;
        }
        let mut i: usize = 0;
        while i < 32
            invariant
                i <= 32,
                forall|j: int| 0 <= j < i ==> self@.hash[j] == 0u8,
            decreases 32 - i,
        {
            if self.hash[i] != 0 {
                proof {
                    assert(self@.hash[i as int] != 0u8);
                }
                return false;
            }
            i = i + 1;
        }
        true
    }
}

/// A spendable record in the UTXO set.
pub struct Coin {
    pub value: u64,
    pub script_pubkey: Vec<u8>,
    pub height: u32,
    pub is_coinbase: bool,
}

/// The mathematical value of a [`Coin`].
#[verifier::ext_equal]
pub ghost struct CoinV {
    pub value: u64,
    pub script_pubkey: Seq<u8>,
    pub height: u32,
    pub is_coinbase: bool,
}

impl View for Coin {
    type V = CoinV;

    open spec fn view(&self) -> CoinV {
        CoinV {
            value: self.value,
            script_pubkey: self.script_pubkey@,
            height: self.height,
            is_coinbase: self.is_coinbase,
        }
    }
}

impl Coin {
    /// Copies the coin.
    pub fn dup(&self) -> (r: Coin)
        ensures
            r@ == self@,
    {
        Coin {
            value: self.value,
            script_pubkey: clone_bytes(&self.script_pubkey),
            height: self.height,
            is_coinbase: self.is_coinbase,
        }
    }
}

/// A transaction input.
pub struct TxIn {
    pub prevout: OutPoint,
    pub script_sig: Vec<u8>,
    pub sequence: u32,
}

/// The mathematical value of a [`TxIn`].
#[verifier::ext_equal]
pub ghost struct TxInV {
    pub prevout: OutPointV,
    pub script_sig: Seq<u8>,
    pub sequence: u32,
}

impl View for TxIn {
    type V = TxInV;

    open spec fn view(&self) -> TxInV {
        TxInV { prevout: self.prevout@, script_sig: self.script_sig@, sequence: self.sequence }
    }
}

/// A transaction output.
pub struct TxOut {
    pub value: u64,
    pub script_pubkey: Vec<u8>,
}

/// The mathematical value of a [`TxOut`].
#[verifier::ext_equal]
pub ghost struct TxOutV {
    pub value: u64,
    pub script_pubkey: Seq<u8>,
}

impl View for TxOut {
    type V = TxOutV;

    open spec fn view(&self) -> TxOutV {
        TxOutV { value: self.value, script_pubkey: self.script_pubkey@ }
    }
}

/// A transaction. Witness stacks are carried separately, indexed by input
/// position; they are not part of the txid preimage.
pub struct Transaction {
    pub version: i32,
    pub inputs: Vec<TxIn>,
    pub outputs: Vec<TxOut>,
    pub lock_time: u32,
}

/// The mathematical value of a [`Transaction`].
#[verifier::ext_equal]
pub ghost struct TransactionV {
    pub version: i32,
    pub inputs: Seq<TxInV>,
    pub outputs: Seq<TxOutV>,
    pub lock_time: u32,
}

impl View for Transaction {
    type V = TransactionV;

    open spec fn view(&self) -> TransactionV {
        TransactionV {
            version: self.version,
            inputs: self.inputs@.map_values(|t: TxIn| t@),
            outputs: self.outputs@.map_values(|t: TxOut| t@),
            lock_time: self.lock_time,
        }
    }
}

/// One input's witness stack.
pub struct Witness {
    pub stack: Vec<Vec<u8>>,
}

impl View for Witness {
    type V = Seq<Seq<u8>>;

    open spec fn view(&self) -> Seq<Seq<u8>> {
        self.stack@.map_values(|v: Vec<u8>| v@)
    }
}

/// An 80-byte block header.
pub struct BlockHeader {
    pub version: i32,
    pub prev_hash: [u8; 32],
    pub merkle_root: [u8; 32],
    pub time: u32,
    pub bits: u32,
    pub nonce: u32,
}

/// The mathematical value of a [`BlockHeader`].
#[verifier::ext_equal]
pub ghost struct BlockHeaderV {
    pub version: i32,
    pub prev_hash: Seq<u8>,
    pub merkle_root: Seq<u8>,
    pub time: u32,
    pub bits: u32,
    pub nonce: u32,
}

impl View for BlockHeader {
    type V = BlockHeaderV;

    open spec fn view(&self) -> BlockHeaderV {
        BlockHeaderV {
            version: self.version,
            prev_hash: self.prev_hash@,
            merkle_root: self.merkle_root@,
            time: self.time,
            bits: self.bits,
            nonce: self.nonce,
        }
    }
}

/// A block: a header and its transactions.
pub struct Block {
    pub header: BlockHeader,
    pub transactions: Vec<Transaction>,
}

/// The mathematical value of a [`Block`].
#[verifier::ext_equal]
pub ghost struct BlockV {
    pub header: BlockHeaderV,
    pub transactions: Seq<TransactionV>,
}

impl View for Block {
    type V = BlockV;

    open spec fn view(&self) -> BlockV {
        BlockV {
            header: self.header@,
            transactions: self.transactions@.map_values(|t: Transaction| t@),
        }
    }
}

/// Copies a byte vector.
pub fn clone_bytes(v: &Vec<u8>) -> (r: Vec<u8>)
    ensures
        r@ == v@,
{
    let mut r: Vec<u8> = Vec::new();
    let mut i: usize = 0;
    while i < v.len()
        invariant
            i <= v@.len(),
            r@ == v@.subrange(0, i as int),
        decreases v@.len() - i,
    {
        r.push(v[i]);
        proof {
            assert(r@ =~= v@.subrange(0, i + 1));
        }
        i = i + 1;
    }
    proof {
        assert(v@.subrange(0, v@.len() as int) =~= v@);
    }
    r
}

/// Tests two byte vectors for equality.
pub fn bytes_eq(a: &Vec<u8>, b: &Vec<u8>) -> (r: bool)
    ensures
        r == (a@ == b@),
{
    if a.len() != b.len() {
        proof {
            assert(a@.len() != b@.len());
        }
        return false;
    }
    let mut i: usize = 0;
    while i < a.len()
        invariant
            i <= a@.len(),
            a@.len() == b@.len(),
            forall|j: int| 0 <= j < i ==> a@[j] == b@[j],
        decreases a@.len() - i,
    {
        if a[i] != b[i] {
            return false;
        }
        i = i + 1;
    }
    proof {
        assert(a@ =~= b@);
    }
    true
}

/// Tests two 32-byte arrays for equality.
pub fn bytes32_eq(a: &[u8; 32], b: &[u8; 32]) -> (r: bool)
    ensures
        r == (a@ == b@),
{
    let mut i: usize = 0;
    while i < 32
        invariant
            i <= 32,
            forall|j: int| 0 <= j < i ==> a@[j] == b@[j],
        decreases 32 - i,
    {
        if a[i] != b[i] {
            return false;
        }
        i = i + 1;
    }
    proof {
        assert(a@ =~= b@);
    }
    true
}

/// Strict lexicographic order on byte sequences.
pub open spec fn bytes_lt(a: Seq<u8>, b: Seq<u8>) -> bool
    decreases a.len(),
{
    if b.len() == 0 {
        false
    } else if a.len() == 0 {
        true
    } else if a[0] < b[0] {
        true
    } else if a[0] > b[0] {
        false
    } else {
        bytes_lt(a.drop_first(), b.drop_first())
    }
}

/// Strict order on outpoints: by hash lexicographically, then by index.
pub open spec fn outpoint_lt(a: OutPointV, b: OutPointV) -> bool {
    bytes_lt(a.hash, b.hash) || (a.hash == b.hash && a.index < b.index)
}

pub proof fn lemma_bytes_lt_irrefl(a: Seq<u8>)
    ensures
        !bytes_lt(a, a),
    decreases a.len(),
{
    if a.len() > 0 {
        lemma_bytes_lt_irrefl(a.drop_first());
    }
}

/// Two distinct sequences of equal length are ordered one way or the other.
pub proof fn lemma_bytes_lt_total(a: Seq<u8>, b: Seq<u8>)
    requires
        a.len() == b.len(),
        a != b,
    ensures
        bytes_lt(a, b) || bytes_lt(b, a),
    decreases a.len(),
{
    if a.len() == 0 {
        assert(a =~= b);
    } else if a[0] == b[0] {
        if a.drop_first() == b.drop_first() {
            assert forall|j: int| 0 <= j < a.len() implies a[j] == b[j] by {
                if j > 0 {
                    assert(a[j] == a.drop_first()[j - 1]);
                    assert(b[j] == b.drop_first()[j - 1]);
                }
            }
            assert(a =~= b);
        } else {
            lemma_bytes_lt_total(a.drop_first(), b.drop_first());
        }
    }
}

pub proof fn lemma_bytes_lt_asym(a: Seq<u8>, b: Seq<u8>)
    requires
        bytes_lt(a, b),
    ensures
        !bytes_lt(b, a),
    decreases a.len(),
{
    if a.len() > 0 && b.len() > 0 && a[0] == b[0] {
        lemma_bytes_lt_asym(a.drop_first(), b.drop_first());
    }
}

pub proof fn lemma_bytes_lt_trans(a: Seq<u8>, b: Seq<u8>, c: Seq<u8>)
    requires
        bytes_lt(a, b),
        bytes_lt(b, c),
    ensures
        bytes_lt(a, c),
    decreases a.len(),
{
    if a.len() > 0 && b.len() > 0 && c.len() > 0 && a[0] == b[0] && b[0] == c[0] {
        lemma_bytes_lt_trans(a.drop_first(), b.drop_first(), c.drop_first());
    }
}

pub proof fn lemma_outpoint_lt_trans(a: OutPointV, b: OutPointV, c: OutPointV)
    requires
        outpoint_lt(a, b),
        outpoint_lt(b, c),
    ensures
        outpoint_lt(a, c),
{
    if bytes_lt(a.hash, b.hash) && bytes_lt(b.hash, c.hash) {
        lemma_bytes_lt_trans(a.hash, b.hash, c.hash);
    }
}

pub proof fn lemma_outpoint_lt_asym(a: OutPointV, b: OutPointV)
    requires
        outpoint_lt(a, b),
    ensures
        !outpoint_lt(b, a),
        a != b,
{
    if bytes_lt(a.hash, b.hash) {
        lemma_bytes_lt_asym(a.hash, b.hash);
        lemma_bytes_lt_irrefl(a.hash);
    } else {
        lemma_bytes_lt_irrefl(a.hash);
    }
}

/// Distinct outpoints with 32-byte hashes are ordered one way or the other.
pub proof fn lemma_outpoint_lt_total(a: OutPointV, b: OutPointV)
    requires
        a.hash.len() == 32,
        b.hash.len() == 32,
        a != b,
    ensures
        outpoint_lt(a, b) || outpoint_lt(b, a),
{
    if a.hash == b.hash {
        assert(a.index != b.index);
    } else {
        lemma_bytes_lt_total(a.hash, b.hash);
    }
}

/// Compares two outpoints; -1, 0 and 1 mean less, equal and greater in the
/// canonical order.
pub fn outpoint_cmp(a: &OutPoint, b: &OutPoint) -> (r: i8)
    ensures
        r == -1 ==> outpoint_lt(a@, b@),
        r == 0 ==> a@ == b@,
        r == 1 ==> outpoint_lt(b@, a@),
        r == -1 || r == 0 || r == 1,
{
    let mut i: usize = 0;
    while i < 32
        invariant
            i <= 32,
            forall|j: int| 0 <= j < i ==> a@.hash[j] == b@.hash[j],
        decreases 32 - i,
    {
        if a.hash[i] < b.hash[i] {
            proof {
                lemma_bytes_lt_from_diff(a@.hash, b@.hash, i as int);
            }
            return -1;
        }
        if a.hash[i] > b.hash[i] {
            proof {
                lemma_bytes_lt_from_diff(b@.hash, a@.hash, i as int);
            }
            return 1;
        }
        i = i + 1;
    }
    proof {
        assert(a@.hash =~= b@.hash);
    }
    if a.index < b.index {
        -1
    } else if a.index > b.index {
        1
    } else {
        proof {
            assert(a@ =~= b@);
        }
        0
    }
}

/// A first differing byte at `i`, smaller on the left, implies the
/// lexicographic order.
pub proof fn lemma_bytes_lt_from_diff(a: Seq<u8>, b: Seq<u8>, i: int)
    requires
        a.len() == b.len(),
        0 <= i < a.len(),
        forall|j: int| 0 <= j < i ==> a[j] == b[j],
        a[i] < b[i],
    ensures
        bytes_lt(a, b),
    decreases i,
{
    if i > 0 {
        lemma_bytes_lt_from_diff(a.drop_first(), b.drop_first(), i - 1);
    }
}

} // verus!
