//! The block connector: header checks, merkle and witness commitments,
//! coinbase rules, transaction application with an undo log, and the
//! proof that applying the undo log restores the previous UTXO set.

use vstd::prelude::*;
use crate::bytes::{le_bytes, le_to_int, pow256, lemma_le_to_int_bound, lemma_pow256_values};
use crate::errors::{InvalidKind, Verdict};
use crate::types::{Coin, CoinV, OutPoint, OutPointV, TxOut, TxIn, MAX_MONEY};
use crate::utxo::UtxoSet;

verus! {

/// The exponent field of a compact target.
pub open spec fn bits_exp(bits: u32) -> int {
    bits as int / 0x100_0000
}

/// The sign bit of a compact target.
pub open spec fn bits_negative(bits: u32) -> bool {
    (bits as int / 0x80_0000) % 2 == 1
}

/// The mantissa of a compact target.
pub open spec fn bits_mant(bits: u32) -> int {
    bits as int % 0x80_0000
}

/// The 256-bit target a compact form denotes.
pub open spec fn target_of(bits: u32) -> int {
    if bits_exp(bits) <= 3 {
        bits_mant(bits) / pow256(3 - bits_exp(bits))
    } else {
        bits_mant(bits) * pow256(bits_exp(bits) - 3)
    }
}

/// Whether a compact target is usable: positive and within 256 bits.
pub open spec fn target_valid(bits: u32) -> bool {
    !bits_negative(bits) && bits_exp(bits) <= 32 && target_of(bits) > 0
}

/// Whether a header hash, read as a little-endian 256-bit integer,
/// meets the target.
pub open spec fn pow_ok(hash: Seq<u8>, bits: u32) -> bool {
    target_valid(bits) && le_to_int(hash) <= target_of(bits)
}

/// An all-zero sequence denotes zero.
proof fn lemma_le_zero(s: Seq<u8>)
    requires
        forall|i: int| 0 <= i < s.len() ==> s[i] == 0,
    ensures
        le_to_int(s) == 0,
    decreases s.len(),
{
    if s.len() > 0 {
        lemma_le_zero(s.drop_first());
    }
}

/// A higher differing byte decides the little-endian order.
proof fn lemma_le_ordered(a: Seq<u8>, b: Seq<u8>, k: int)
    requires
        a.len() == b.len(),
        0 <= k < a.len(),
        forall|j: int| k < j < a.len() ==> a[j] == b[j],
        a[k] < b[k],
    ensures
        le_to_int(a) < le_to_int(b),
{
    crate::bytes::lemma_le_split(a, k);
    crate::bytes::lemma_le_split(b, k);
    let asuf = a.subrange(k, a.len() as int);
    let bsuf = b.subrange(k, b.len() as int);
    assert(asuf.drop_first() =~= bsuf.drop_first());
    assert(le_to_int(asuf) == a[k] + 256 * le_to_int(asuf.drop_first()));
    assert(le_to_int(bsuf) == b[k] + 256 * le_to_int(bsuf.drop_first()));
    assert(le_to_int(asuf) < le_to_int(bsuf));
    let p = pow256(k);
    crate::bytes::lemma_pow256_pos(k);
    lemma_le_to_int_bound(a.subrange(0, k));
    lemma_le_to_int_bound(b.subrange(0, k));
    assert(le_to_int(a.subrange(0, k)) < p);
    let sa = le_to_int(asuf);
    let sb = le_to_int(bsuf);
    assert(p * sa + p <= p * sb) by (nonlinear_arith)
        requires
            sa < sb,
            p >= 1,
    ;
    assert(le_to_int(a) < p + p * sa);
    assert(le_to_int(b) >= p * sb);
}

/// Compares two equal-length little-endian numbers.
pub fn le_bytes_leq(a: &[u8; 32], b: &[u8; 32]) -> (r: bool)
    ensures
        r == (le_to_int(a@) <= le_to_int(b@)),
{
    let mut i: usize = 32;
    while i > 0
        invariant
            i <= 32,
            forall|j: int| i <= j < 32 ==> a@[j] == b@[j],
        decreases i,
    {
        i = i - 1;
        if a[i] < b[i] {
            proof {
                lemma_le_ordered(a@, b@, i as int);
            }
            return true;
        }
        if a[i] > b[i] {
            proof {
                lemma_le_ordered(b@, a@, i as int);
            }
            return false;
        }
    }
    proof {
        assert(a@ =~= b@);
    }
    true
}

/// Expands a compact target into 32 little-endian bytes; `None` when the
/// compact form is negative, zero or out of range.
pub fn expand_target(bits: u32) -> (r: Option<[u8; 32]>)
    ensures
        match r {
            Some(t) => target_valid(bits) && le_to_int(t@) == target_of(bits),
            None => !target_valid(bits),
        },
{
    let exp = bits / 0x100_0000;
    let neg = (bits / 0x80_0000) % 2 == 1;
    let mant = bits % 0x80_0000;
    proof {
        lemma_pow256_values();
    }
    if neg || exp > 32 {
        return None;
    }
    let (value, offset): (u32, usize) = if exp <= 3 {
        let d: u32 = if exp == 3 {
            1
        } else if exp == 2 {
            0x100
        } else if exp == 1 {
            0x1_0000
        } else {
            0x100_0000
        };
        proof {
            assert(d as int == pow256(3 - exp as int));
        }
        (mant / d, 0)
    } else {
        (mant, (exp - 3) as usize)
    };
    if value == 0 {
        proof {
            if exp <= 3 {
            } else {
                assert(bits_mant(bits) * pow256(bits_exp(bits) - 3) == 0) by (nonlinear_arith)
                    requires
                        bits_mant(bits) == 0,
                ;
            }
        }
        return None;
    }
    let mut t = [0u8; 32];
    proof {
        assert(forall|j: int| 0 <= j < 32 ==> t@[j] == 0u8);
    }
    let b0: u8 = (value % 256) as u8;
    let b1: u8 = ((value / 256) % 256) as u8;
    let b2: u8 = ((value / 65536) % 256) as u8;
    t[offset] = b0;
    t[offset + 1] = b1;
    t[offset + 2] = b2;
    proof {
        let tv = t@;
        let vi = value as int;
        // the three mantissa bytes are the little-endian encoding of value
        crate::bytes::lemma_le_bytes_len(vi, 3);
        assert(le_bytes(vi, 3) == seq![(vi % 256) as u8] + le_bytes(vi / 256, 2));
        assert(le_bytes(vi / 256, 2) == seq![(vi / 256 % 256) as u8] + le_bytes(vi / 256 / 256, 1));
        assert(le_bytes(vi / 256 / 256, 1) == seq![(vi / 256 / 256 % 256) as u8] + le_bytes(
            vi / 256 / 256 / 256,
            0,
        ));
        assert(le_bytes(vi / 256 / 256 / 256, 0) =~= Seq::<u8>::empty());
        assert(vi / 65536 == vi / 256 / 256) by (nonlinear_arith);
        assert(vi / 65536 % 256 == vi / 256 / 256 % 256);
        assert(le_bytes(vi, 3)[0] == (vi % 256) as u8);
        assert(le_bytes(vi, 3)[1] == (vi / 256 % 256) as u8);
        assert(le_bytes(vi, 3)[2] == (vi / 256 / 256 % 256) as u8);
        assert(tv.subrange(offset as int, offset + 3) =~= le_bytes(vi, 3));
        crate::bytes::lemma_le_split(tv, offset as int);
        crate::bytes::lemma_le_split(
            tv.subrange(offset as int, 32),
            3,
        );
        assert(tv.subrange(offset as int, 32).subrange(0, 3) =~= tv.subrange(
            offset as int,
            offset + 3,
        ));
        lemma_le_zero(tv.subrange(0, offset as int));
        lemma_le_zero(tv.subrange(offset as int, 32).subrange(3, 32 - offset as int));
        crate::bytes::lemma_le_round_trip(vi, 3);
        assert(vi < pow256(3)) by {
            assert(bits_mant(bits) < 0x80_0000);
        }
        let p = pow256(offset as int);
        assert(le_to_int(tv.subrange(offset as int, 32)) == vi + pow256(3) * 0);
        assert(pow256(3) * 0 == 0) by (nonlinear_arith);
        assert(le_to_int(tv) == 0 + p * vi);
        if exp <= 3 {
            assert(p == 1);
            assert(1 * vi == vi) by (nonlinear_arith);
            assert(le_to_int(tv) == target_of(bits));
        } else {
            assert(p * vi == vi * p) by (nonlinear_arith);
            assert(le_to_int(tv) == target_of(bits));
        }
        if exp > 3 {
            crate::bytes::lemma_pow256_pos(bits_exp(bits) - 3);
            assert(bits_mant(bits) * pow256(bits_exp(bits) - 3) > 0) by (nonlinear_arith)
                requires
                    bits_mant(bits) >= 1,
                    pow256(bits_exp(bits) - 3) >= 1,
            ;
        }
        assert(target_of(bits) > 0);
    }
    Some(t)
}

/// The block subsidy: 50 coins halved every 210000 blocks, zero after
/// 64 halvings.
pub open spec fn halved(v: int, n: int) -> int
    decreases n,
{
    if n <= 0 {
        v
    } else {
        halved(v / 2, n - 1)
    }
}

pub open spec fn subsidy_of(height: int) -> int {
    if height / 210_000 >= 64 {
        0
    } else {
        halved(50_0000_0000, height / 210_000)
    }
}

/// Computes the subsidy at a height.
pub fn block_subsidy(height: u32) -> (r: u64)
    ensures
        r as int == subsidy_of(height as int),
{
    let halvings = height / 210_000;
    if halvings >= 64 {
        return 0;
    }
    let mut s: u64 = 50_0000_0000;
    let mut k: u32 = 0;
    while k < halvings
        invariant
            k <= halvings,
            halvings < 64,
            halved(s as int, halvings - k) == halved(50_0000_0000, halvings as int),
            s <= 50_0000_0000,
        decreases halvings - k,
    {
        s = s / 2;
        k = k + 1;
    }
    s
}

/// One applied change to the UTXO set, recorded for the undo log.
pub enum UndoOp {
    /// A coin removed by a spend; reinserted on undo.
    Spent(OutPoint, Coin),
    /// A coin created by an output; removed, by its outpoint alone, on
    /// undo.
    Created(OutPoint, Coin),
}

/// The mathematical value of an [`UndoOp`].
#[verifier::ext_equal]
pub ghost enum UndoOpV {
    Spent(OutPointV, CoinV),
    Created(OutPointV, CoinV),
}

impl View for UndoOp {
    type V = UndoOpV;

    open spec fn view(&self) -> UndoOpV {
        match self {
            UndoOp::Spent(o, c) => UndoOpV::Spent(o@, c@),
            UndoOp::Created(o, c) => UndoOpV::Created(o@, c@),
        }
    }
}

/// The ordered record of every change a block made: sufficient to
/// revert its application.
pub struct UndoLog {
    pub ops: Vec<UndoOp>,
}

impl View for UndoLog {
    type V = Seq<UndoOpV>;

    open spec fn view(&self) -> Seq<UndoOpV> {
        self.ops@.map_values(|o: UndoOp| o@)
    }
}

/// Applying one change.
pub open spec fn op_apply(m: Map<OutPointV, CoinV>, o: UndoOpV) -> Map<OutPointV, CoinV> {
    match o {
        UndoOpV::Spent(k, c) => m.remove(k),
        UndoOpV::Created(k, c) => m.insert(k, c),
    }
}

/// Undoing one change.
pub open spec fn op_undo(m: Map<OutPointV, CoinV>, o: UndoOpV) -> Map<OutPointV, CoinV> {
    match o {
        UndoOpV::Spent(k, c) => m.insert(k, c),
        UndoOpV::Created(k, c) => m.remove(k),
    }
}

/// Applying a change list in order.
pub open spec fn ops_apply(m: Map<OutPointV, CoinV>, ops: Seq<UndoOpV>) -> Map<OutPointV, CoinV>
    decreases ops.len(),
{
    if ops.len() == 0 {
        m
    } else {
        ops_apply(op_apply(m, ops[0]), ops.drop_first())
    }
}

/// Undoing a change list: the later changes first.
pub open spec fn ops_undo(m: Map<OutPointV, CoinV>, ops: Seq<UndoOpV>) -> Map<OutPointV, CoinV>
    decreases ops.len(),
{
    if ops.len() == 0 {
        m
    } else {
        op_undo(ops_undo(m, ops.drop_first()), ops[0])
    }
}

/// Each change applies to the state the earlier ones produced: a spend
/// removes a key that is present with the recorded coin, a creation
/// inserts a key that is absent, and every recorded amount is in range.
pub open spec fn ops_wf(m: Map<OutPointV, CoinV>, ops: Seq<UndoOpV>) -> bool
    decreases ops.len(),
{
    if ops.len() == 0 {
        true
    } else {
        let ok = match ops[0] {
            UndoOpV::Spent(k, c) => m.contains_key(k) && m[k] == c && c.value <= MAX_MONEY,
            UndoOpV::Created(k, c) => !m.contains_key(k) && c.value <= MAX_MONEY,
        };
        ok && ops_wf(op_apply(m, ops[0]), ops.drop_first())
    }
}

/// Undoing an applied change list restores the set it was applied to.
pub proof fn lemma_ops_round_trip(m: Map<OutPointV, CoinV>, ops: Seq<UndoOpV>)
    requires
        ops_wf(m, ops),
    ensures
        ops_undo(ops_apply(m, ops), ops) == m,
    decreases ops.len(),
{
    if ops.len() > 0 {
        let m1 = op_apply(m, ops[0]);
        lemma_ops_round_trip(m1, ops.drop_first());
        assert(ops_undo(ops_apply(m1, ops.drop_first()), ops.drop_first()) == m1);
        match ops[0] {
            UndoOpV::Spent(k, c) => {
                assert(op_undo(m1, ops[0]) == m.remove(k).insert(k, c));
                assert(m.remove(k).insert(k, c) =~= m);
            },
            UndoOpV::Created(k, c) => {
                assert(op_undo(m1, ops[0]) == m.insert(k, c).remove(k));
                assert(m.insert(k, c).remove(k) =~= m);
            },
        }
    }
}

} // verus!

verus! {

/// Whether a map's coins all have in-range values.
pub open spec fn coins_bounded(m: Map<OutPointV, CoinV>) -> bool {
    forall|k: OutPointV| m.contains_key(k) ==> (#[trigger] m[k]).value <= MAX_MONEY
}

/// A well-formed UTXO set has bounded coins.
pub proof fn lemma_wf_coins_bounded(u: UtxoSet)
    requires
        u.wf(),
    ensures
        coins_bounded(u@),
{
    u.lemma_view_is_entries_map();
    assert forall|k: OutPointV| u@.contains_key(k) implies (#[trigger] u@[k]).value
        <= MAX_MONEY by {
        crate::utxo::lemma_entries_map_contains(u.seq_view(), k);
        let i = choose|i: int| 0 <= i < u.seq_view().len() && u.seq_view()[i].0 == k;
        crate::utxo::lemma_sorted_unique(u.seq_view());
        crate::utxo::lemma_entries_map_value(u.seq_view(), i);
    }
}

/// Applying a concatenation is applying in sequence.
pub proof fn lemma_ops_apply_concat(m: Map<OutPointV, CoinV>, a: Seq<UndoOpV>, b: Seq<UndoOpV>)
    ensures
        ops_apply(m, a + b) == ops_apply(ops_apply(m, a), b),
    decreases a.len(),
{
    if a.len() == 0 {
        assert(a + b =~= b);
    } else {
        assert((a + b)[0] == a[0]);
        assert((a + b).drop_first() =~= a.drop_first() + b);
        lemma_ops_apply_concat(op_apply(m, a[0]), a.drop_first(), b);
    }
}

/// Well-formedness concatenates.
pub proof fn lemma_ops_wf_concat(m: Map<OutPointV, CoinV>, a: Seq<UndoOpV>, b: Seq<UndoOpV>)
    requires
        ops_wf(m, a),
        ops_wf(ops_apply(m, a), b),
    ensures
        ops_wf(m, a + b),
    decreases a.len(),
{
    if a.len() == 0 {
        assert(a + b =~= b);
        assert(ops_apply(m, a) == m);
    } else {
        assert((a + b)[0] == a[0]);
        assert((a + b).drop_first() =~= a.drop_first() + b);
        lemma_ops_wf_concat(op_apply(m, a[0]), a.drop_first(), b);
    }
}

/// Whether a transaction has the coinbase shape: one input spending the
/// null outpoint.
pub open spec fn is_coinbase_tx(t: crate::types::TransactionV) -> bool {
    t.inputs.len() == 1 && t.inputs[0].prevout.index == 0xffff_ffffu32 && (forall|i: int|
        0 <= i < 32 ==> t.inputs[0].prevout.hash[i] == 0u8)
}

/// Whether any input of the transaction spends the null outpoint.
pub open spec fn has_null_input(t: crate::types::TransactionV) -> bool {
    exists|i: int|
        0 <= i < t.inputs.len() && (#[trigger] t.inputs[i]).prevout.index == 0xffff_ffffu32 && (
        forall|j: int| 0 <= j < 32 ==> t.inputs[i].prevout.hash[j] == 0u8)
}

/// The height at which the coinbase must commit to its height.
pub const BIP34_HEIGHT: u32 = 227_836;

/// Whether the coinbase script begins with the minimal script-number
/// push of the height.
pub open spec fn bip34_ok(t0: crate::types::TransactionV, height: int) -> bool {
    let hb = crate::script::num_bytes_of(height);
    let ss = t0.inputs[0].script_sig;
    &&& ss.len() >= 1 + hb.len()
    &&& ss[0] as int == hb.len()
    &&& ss.subrange(1, 1 + hb.len() as int) == hb
}

/// Whether any witness stack in the block is non-empty.
pub open spec fn has_witness_data(ws: Seq<Seq<Seq<Seq<u8>>>>) -> bool {
    exists|i: int, j: int|
        0 <= i < ws.len() && 0 <= j < ws[i].len() && (#[trigger] ws[i][j]).len() > 0
}

/// The witness list of transaction `i`, empty past the end.
pub open spec fn tx_wit(ws: Seq<Seq<Seq<Seq<u8>>>>, i: int) -> Seq<Seq<Seq<u8>>> {
    if 0 <= i < ws.len() {
        ws[i]
    } else {
        Seq::empty()
    }
}

/// Adds a transaction's outputs to the working set from index `k` on,
/// recording creation records; a duplicate unspent outpoint is the
/// consensus failure the duplicate-transaction rule names.
pub open spec fn add_outputs_spec(
    m: Map<OutPointV, CoinV>,
    txid: Seq<u8>,
    outs: Seq<crate::types::TxOutV>,
    height: int,
    coinbase: bool,
    k: int,
) -> Result<(Map<OutPointV, CoinV>, Seq<UndoOpV>), InvalidKind>
    decreases outs.len() - k,
    when 0 <= k
{
    if k >= outs.len() {
        Ok((m, Seq::empty()))
    } else {
        let op = OutPointV { hash: txid, index: k as u32 };
        if outs[k].value > MAX_MONEY {
            Err(InvalidKind::ValueOutOfRange)
        } else if m.contains_key(op) {
            Err(InvalidKind::DuplicateUtxo)
        } else {
            let coin = CoinV {
                value: outs[k].value,
                script_pubkey: outs[k].script_pubkey,
                height: height as u32,
                is_coinbase: coinbase,
            };
            match add_outputs_spec(m.insert(op, coin), txid, outs, height, coinbase, k + 1) {
                Err(e) => Err(e),
                Ok(r) => Ok((r.0, seq![UndoOpV::Created(op, coin)] + r.1)),
            }
        }
    }
}

/// Removes a transaction's spent outpoints from index `k` on, recording
/// the removed coins in order.
pub open spec fn spend_inputs_spec(
    m: Map<OutPointV, CoinV>,
    inputs: Seq<crate::types::TxInV>,
    k: int,
) -> (Map<OutPointV, CoinV>, Seq<UndoOpV>)
    decreases inputs.len() - k,
    when 0 <= k
{
    if k >= inputs.len() {
        (m, Seq::empty())
    } else {
        let key = inputs[k].prevout;
        let c = m[key];
        let r = spend_inputs_spec(m.remove(key), inputs, k + 1);
        (r.0, seq![UndoOpV::Spent(key, c)] + r.1)
    }
}

/// Ops recorded by `add_outputs_spec` are well-formed and apply to the
/// result.
pub proof fn lemma_add_outputs(
    m: Map<OutPointV, CoinV>,
    txid: Seq<u8>,
    outs: Seq<crate::types::TxOutV>,
    height: int,
    coinbase: bool,
    k: int,
)
    requires
        0 <= k,
        coins_bounded(m),
        add_outputs_spec(m, txid, outs, height, coinbase, k) is Ok,
    ensures
        ({
            let r = add_outputs_spec(m, txid, outs, height, coinbase, k)->Ok_0;
            ops_wf(m, r.1) && r.0 == ops_apply(m, r.1) && coins_bounded(r.0)
        }),
    decreases outs.len() - k,
{
    if k < outs.len() {
        let op = OutPointV { hash: txid, index: k as u32 };
        let coin = CoinV {
            value: outs[k].value,
            script_pubkey: outs[k].script_pubkey,
            height: height as u32,
            is_coinbase: coinbase,
        };
        let m1 = m.insert(op, coin);
        assert(coins_bounded(m1));
        lemma_add_outputs(m1, txid, outs, height, coinbase, k + 1);
        let r1 = add_outputs_spec(m1, txid, outs, height, coinbase, k + 1)->Ok_0;
        let full = seq![UndoOpV::Created(op, coin)] + r1.1;
        assert(full[0] == UndoOpV::Created(op, coin));
        assert(full.drop_first() =~= r1.1);
        assert(op_apply(m, full[0]) == m1);
        assert(add_outputs_spec(m, txid, outs, height, coinbase, k) == Ok::<
            (Map<OutPointV, CoinV>, Seq<UndoOpV>),
            InvalidKind,
        >((r1.0, full)));
        assert(!m.contains_key(op));
        assert(coin.value <= MAX_MONEY);
        assert(ops_wf(m1, r1.1));
        assert(ops_wf(op_apply(m, full[0]), full.drop_first()));
        assert(ops_wf(m, full));
        assert(ops_apply(m, full) == ops_apply(m1, r1.1));
    } else {
        assert(ops_wf(m, Seq::<UndoOpV>::empty()));
        assert(ops_apply(m, Seq::<UndoOpV>::empty()) == m);
    }
}

/// Ops recorded by `spend_inputs_spec` are well-formed and apply to the
/// result, when the inputs are distinct and present.
pub proof fn lemma_spend_inputs(
    m: Map<OutPointV, CoinV>,
    inputs: Seq<crate::types::TxInV>,
    k: int,
)
    requires
        0 <= k,
        coins_bounded(m),
        forall|i: int| k <= i < inputs.len() ==> m.contains_key((#[trigger] inputs[i]).prevout),
        forall|i: int, j: int|
            k <= i < j < inputs.len() ==> (#[trigger] inputs[i]).prevout != (
            #[trigger] inputs[j]).prevout,
    ensures
        ({
            let r = spend_inputs_spec(m, inputs, k);
            ops_wf(m, r.1) && r.0 == ops_apply(m, r.1) && coins_bounded(r.0)
        }),
    decreases inputs.len() - k,
{
    if k < inputs.len() {
        let key = inputs[k].prevout;
        let c = m[key];
        let m1 = m.remove(key);
        assert(coins_bounded(m1));
        assert(forall|i: int|
            k + 1 <= i < inputs.len() ==> m1.contains_key((#[trigger] inputs[i]).prevout));
        lemma_spend_inputs(m1, inputs, k + 1);
        let r1 = spend_inputs_spec(m1, inputs, k + 1);
        let full = seq![UndoOpV::Spent(key, c)] + r1.1;
        assert(full[0] == UndoOpV::Spent(key, c));
        assert(full.drop_first() =~= r1.1);
        assert(op_apply(m, full[0]) == m1);
        assert(spend_inputs_spec(m1, inputs, k + 1) == r1);
        assert(spend_inputs_spec(m, inputs, k).1 == seq![UndoOpV::Spent(key, c)]
            + spend_inputs_spec(m.remove(key), inputs, k + 1).1);
        assert(spend_inputs_spec(m, inputs, k) == (r1.0, full));
        assert(ops_wf(m, full));
        assert(ops_apply(m, full) == ops_apply(m1, r1.1));
    } else {
        assert(ops_wf(m, Seq::<UndoOpV>::empty()));
        assert(ops_apply(m, Seq::<UndoOpV>::empty()) == m);
    }
}

} // verus!

verus! {

/// The serialized 80-byte header.
pub open spec fn ser_header(h: crate::types::BlockHeaderV) -> Seq<u8> {
    le_bytes(crate::codec::i32_bits(h.version as int), 4) + h.prev_hash + h.merkle_root + le_bytes(
        h.time as int,
        4,
    ) + le_bytes(h.bits as int, 4) + le_bytes(h.nonce as int, 4)
}

/// The header hash: double SHA-256 of the serialized header.
pub open spec fn header_hash_of(h: crate::types::BlockHeaderV) -> Seq<u8> {
    crate::hashes::dsha256_of(ser_header(h))
}

/// Serializes a header.
pub fn serialize_header(h: &crate::types::BlockHeader) -> (r: Vec<u8>)
    ensures
        r@ == ser_header(h@),
{
    let mut out: Vec<u8> = Vec::new();
    crate::bytes::push_le_bytes(&mut out, crate::codec::i32_to_bits(h.version) as u64, 4);
    crate::bytes::push_slice(&mut out, h.prev_hash.as_slice());
    crate::bytes::push_slice(&mut out, h.merkle_root.as_slice());
    crate::bytes::push_le_bytes(&mut out, h.time as u64, 4);
    crate::bytes::push_le_bytes(&mut out, h.bits as u64, 4);
    crate::bytes::push_le_bytes(&mut out, h.nonce as u64, 4);
    proof {
        assert(out@ =~= ser_header(h@));
    }
    out
}

/// Computes the header hash.
pub fn compute_header_hash(h: &crate::types::BlockHeader) -> (r: [u8; 32])
    ensures
        r@ == header_hash_of(h@),
{
    let ser = serialize_header(h);
    crate::hashes::dsha256(ser.as_slice())
}

/// How many values of a sequence are at most `v`.
pub open spec fn count_le(s: Seq<u32>, v: u32) -> int
    decreases s.len(),
{
    if s.len() == 0 {
        0
    } else {
        (if s[0] <= v {
            1int
        } else {
            0int
        }) + count_le(s.drop_first(), v)
    }
}

/// How many values of a sequence are strictly below `v`.
pub open spec fn count_lt(s: Seq<u32>, v: u32) -> int
    decreases s.len(),
{
    if s.len() == 0 {
        0
    } else {
        (if s[0] < v {
            1int
        } else {
            0int
        }) + count_lt(s.drop_first(), v)
    }
}

/// The lower median: a value of the sequence with at least half at or
/// below it and less than half strictly below it.
pub open spec fn is_median(s: Seq<u32>, m: u32) -> bool {
    s.contains(m) && 2 * count_le(s, m) >= s.len() + 1 && 2 * count_lt(s, m) <= s.len() - 1
}

pub open spec fn find_median(s: Seq<u32>) -> Option<u32> {
    if exists|m: u32| is_median(s, m) {
        Some(choose|m: u32| is_median(s, m))
    } else {
        None
    }
}

/// Monotonicity of the counts in the threshold.
proof fn lemma_counts_mono(s: Seq<u32>, a: u32, b: u32)
    requires
        a <= b,
    ensures
        count_le(s, a) <= count_le(s, b),
        count_lt(s, a) <= count_lt(s, b),
        count_lt(s, b) >= count_le(s, a) || a == b,
        count_le(s, a) <= count_lt(s, b) || a == b,
    decreases s.len(),
{
    if s.len() > 0 {
        lemma_counts_mono(s.drop_first(), a, b);
    }
}

/// The median value is unique.
proof fn lemma_median_unique(s: Seq<u32>, m1: u32, m2: u32)
    requires
        is_median(s, m1),
        is_median(s, m2),
    ensures
        m1 == m2,
{
    if m1 < m2 {
        lemma_counts_mono(s, m1, m2);
        assert(2 * count_lt(s, m2) >= 2 * count_le(s, m1));
    }
    if m2 < m1 {
        lemma_counts_mono(s, m2, m1);
        assert(2 * count_lt(s, m1) >= 2 * count_le(s, m2));
    }
}

/// Counts values at most `v`.
fn count_le_exec(s: &Vec<u32>, v: u32) -> (r: usize)
    ensures
        r as int == count_le(s@, v),
        r <= s@.len(),
{
    let mut count: usize = 0;
    let mut i: usize = 0;
    let n = s.len();
    while i < n
        invariant
            i <= n,
            n == s@.len(),
            count <= i,
            count as int == count_le(s@.subrange(0, i as int), v),
        decreases n - i,
    {
        proof {
            lemma_count_le_snoc(s@, v, i as int);
        }
        if s[i] <= v {
            count = count + 1;
        }
        i = i + 1;
    }
    proof {
        assert(s@.subrange(0, n as int) =~= s@);
    }
    count
}

proof fn lemma_count_le_snoc(s: Seq<u32>, v: u32, i: int)
    requires
        0 <= i < s.len(),
    ensures
        count_le(s.subrange(0, i + 1), v) == count_le(s.subrange(0, i), v) + (if s[i] <= v {
            1int
        } else {
            0int
        }),
        count_le(s.subrange(0, i), v) >= 0,
    decreases i,
{
    if i == 0 {
        assert(s.subrange(0, 1)[0] == s[0]);
        assert(s.subrange(0, 1).drop_first() =~= Seq::<u32>::empty());
        assert(count_le(Seq::<u32>::empty(), v) == 0);
        assert(s.subrange(0, 0).len() == 0);
        assert(count_le(s.subrange(0, 0), v) == 0);
        assert(count_le(s.subrange(0, 1), v) == (if s.subrange(0, 1)[0] <= v {
            1int
        } else {
            0int
        }) + count_le(s.subrange(0, 1).drop_first(), v));
    } else {
        let a = s.subrange(0, i + 1);
        let b = s.subrange(0, i);
        lemma_count_le_snoc(s.drop_first(), v, i - 1);
        assert(a.drop_first() =~= s.drop_first().subrange(0, i));
        assert(b.drop_first() =~= s.drop_first().subrange(0, i - 1));
        assert(s.drop_first()[i - 1] == s[i]);
        assert(a[0] == s[0] && b[0] == s[0]);
        assert(count_le(a, v) == (if a[0] <= v {
            1int
        } else {
            0int
        }) + count_le(a.drop_first(), v));
        assert(count_le(b, v) == (if b[0] <= v {
            1int
        } else {
            0int
        }) + count_le(b.drop_first(), v));
    }
}

fn count_lt_exec(s: &Vec<u32>, v: u32) -> (r: usize)
    ensures
        r as int == count_lt(s@, v),
        r <= s@.len(),
{
    let mut count: usize = 0;
    let mut i: usize = 0;
    let n = s.len();
    while i < n
        invariant
            i <= n,
            n == s@.len(),
            count <= i,
            count as int == count_lt(s@.subrange(0, i as int), v),
        decreases n - i,
    {
        proof {
            lemma_count_lt_snoc(s@, v, i as int);
        }
        if s[i] < v {
            count = count + 1;
        }
        i = i + 1;
    }
    proof {
        assert(s@.subrange(0, n as int) =~= s@);
    }
    count
}

proof fn lemma_count_lt_snoc(s: Seq<u32>, v: u32, i: int)
    requires
        0 <= i < s.len(),
    ensures
        count_lt(s.subrange(0, i + 1), v) == count_lt(s.subrange(0, i), v) + (if s[i] < v {
            1int
        } else {
            0int
        }),
        count_lt(s.subrange(0, i), v) >= 0,
    decreases i,
{
    if i == 0 {
        assert(s.subrange(0, 1)[0] == s[0]);
        assert(s.subrange(0, 1).drop_first() =~= Seq::<u32>::empty());
        assert(count_lt(Seq::<u32>::empty(), v) == 0);
        assert(s.subrange(0, 0).len() == 0);
        assert(count_lt(s.subrange(0, 0), v) == 0);
        assert(count_lt(s.subrange(0, 1), v) == (if s.subrange(0, 1)[0] < v {
            1int
        } else {
            0int
        }) + count_lt(s.subrange(0, 1).drop_first(), v));
    } else {
        let a = s.subrange(0, i + 1);
        let b = s.subrange(0, i);
        lemma_count_lt_snoc(s.drop_first(), v, i - 1);
        assert(a.drop_first() =~= s.drop_first().subrange(0, i));
        assert(b.drop_first() =~= s.drop_first().subrange(0, i - 1));
        assert(s.drop_first()[i - 1] == s[i]);
        assert(a[0] == s[0] && b[0] == s[0]);
        assert(count_lt(a, v) == (if a[0] < v {
            1int
        } else {
            0int
        }) + count_lt(a.drop_first(), v));
        assert(count_lt(b, v) == (if b[0] < v {
            1int
        } else {
            0int
        }) + count_lt(b.drop_first(), v));
    }
}

/// Finds the lower median of a list of times, if any value qualifies.
pub fn compute_median(s: &Vec<u32>) -> (r: Option<u32>)
    ensures
        r == find_median(s@),
{
    let n = s.len();
    let mut i: usize = 0;
    while i < n
        invariant
            i <= n,
            n == s@.len(),
            forall|j: int| 0 <= j < i ==> !is_median(s@, #[trigger] s@[j]),
        decreases n - i,
    {
        let m = s[i];
        let cle = count_le_exec(s, m);
        let clt = count_lt_exec(s, m);
        if 2 * (cle as u128) >= n as u128 + 1 && 2 * (clt as u128) + 1 <= n as u128 {
            proof {
                assert(s@.contains(m)) by {
                    assert(s@[i as int] == m);
                }
                assert(is_median(s@, m));
                let w = choose|w: u32| is_median(s@, w);
                lemma_median_unique(s@, w, m);
            }
            return Some(m);
        }
        proof {
            assert(!is_median(s@, s@[i as int]));
        }
        i = i + 1;
    }
    proof {
        if exists|m: u32| is_median(s@, m) {
            let m = choose|m: u32| is_median(s@, m);
            assert(s@.contains(m));
            let j = choose|j: int| 0 <= j < s@.len() && s@[j] == m;
            assert(!is_median(s@, s@[j]));
        }
    }
    None
}

/// Whether the header time passes the median-time rule against the
/// supplied previous times: vacuous with no times supplied.
pub open spec fn time_ok(prev_times: Option<Seq<u32>>, time: u32) -> bool {
    match prev_times {
        None => true,
        Some(ts) => {
            if ts.len() == 0 {
                true
            } else {
                match find_median(ts) {
                    Some(m) => time > m,
                    None => false,
                }
            }
        },
    }
}

} // verus!

verus! {

/// Whether any of one transaction's witness stacks is non-empty.
pub open spec fn tx_has_wit(w: Seq<Seq<Seq<u8>>>) -> bool {
    exists|j: int| 0 <= j < w.len() && (#[trigger] w[j]).len() > 0
}

/// A transaction's weight: three times its stripped size plus its total
/// size; without witness data the two sizes agree.
pub open spec fn tx_weight(t: crate::types::TransactionV, w: Seq<Seq<Seq<u8>>>) -> int {
    3 * crate::codec::ser_tx_legacy(t).len() + (if tx_has_wit(w) {
        crate::codec::ser_tx_witness(t, w).len() as int
    } else {
        crate::codec::ser_tx_legacy(t).len() as int
    })
}

/// The summed weight of the transactions from index `i`.
pub open spec fn block_weight_from(
    txs: Seq<crate::types::TransactionV>,
    ws: Seq<Seq<Seq<Seq<u8>>>>,
    i: int,
) -> int
    decreases txs.len() - i,
    when 0 <= i
{
    if i >= txs.len() {
        0
    } else {
        tx_weight(txs[i], tx_wit(ws, i)) + block_weight_from(txs, ws, i + 1)
    }
}

/// The summed sigops of the transactions from index `i`.
pub open spec fn block_sigops_from(txs: Seq<crate::types::TransactionV>, i: int) -> int
    decreases txs.len() - i,
    when 0 <= i
{
    if i >= txs.len() {
        0
    } else {
        crate::txcheck::tx_sigops(txs[i]) + block_sigops_from(txs, i + 1)
    }
}

pub proof fn lemma_block_weight_nonneg(
    txs: Seq<crate::types::TransactionV>,
    ws: Seq<Seq<Seq<Seq<u8>>>>,
    i: int,
)
    requires
        0 <= i,
    ensures
        block_weight_from(txs, ws, i) >= 0,
    decreases txs.len() - i,
{
    if i < txs.len() {
        lemma_block_weight_nonneg(txs, ws, i + 1);
    }
}

pub proof fn lemma_block_sigops_nonneg(txs: Seq<crate::types::TransactionV>, i: int)
    requires
        0 <= i,
    ensures
        block_sigops_from(txs, i) >= 0,
    decreases txs.len() - i,
{
    if i < txs.len() {
        crate::txcheck::lemma_sigops_seq_in_nonneg(txs[i].inputs);
        crate::txcheck::lemma_sigops_seq_out_nonneg(txs[i].outputs);
        lemma_block_sigops_nonneg(txs, i + 1);
    }
}

/// The witness-commitment output template: an unspendable output whose
/// script starts with the four-byte tag after a 36-byte push header.
pub open spec fn is_commit_script(s: Seq<u8>) -> bool {
    s.len() >= 38 && s[0] == 0x6a && s[1] == 0x24 && s[2] == 0xaa && s[3] == 0x21 && s[4] == 0xa9
        && s[5] == 0xed
}

/// The last commitment-shaped output at or before index `i`.
pub open spec fn last_commit_idx(outs: Seq<crate::types::TxOutV>, i: int) -> Option<int>
    decreases i + 1,
{
    if i < 0 {
        None
    } else if is_commit_script(outs[i].script_pubkey) {
        Some(i)
    } else {
        last_commit_idx(outs, i - 1)
    }
}

/// A found commitment index points at a commitment-shaped output.
pub proof fn lemma_last_commit_is_commit(outs: Seq<crate::types::TxOutV>, i: int)
    requires
        last_commit_idx(outs, i) is Some,
        i < outs.len(),
    ensures
        ({
            let k = last_commit_idx(outs, i)->Some_0;
            0 <= k <= i && is_commit_script(outs[k].script_pubkey)
        }),
    decreases i + 1,
{
    if i >= 0 && !is_commit_script(outs[i].script_pubkey) {
        lemma_last_commit_is_commit(outs, i - 1);
    }
}

/// The all-zero hash a coinbase wtxid uses.
pub open spec fn zero_hash32() -> Seq<u8> {
    Seq::new(32, |i: int| 0u8)
}

/// The witness transaction ids of a block; the coinbase is zero.
pub open spec fn block_wtxids(
    txs: Seq<crate::types::TransactionV>,
    ws: Seq<Seq<Seq<Seq<u8>>>>,
) -> Seq<Seq<u8>> {
    Seq::new(
        txs.len(),
        |i: int|
            if i == 0 {
                zero_hash32()
            } else {
                crate::codec::wtxid_of(txs[i], tx_wit(ws, i))
            },
    )
}

/// The txids of a block.
pub open spec fn block_txids(txs: Seq<crate::types::TransactionV>) -> Seq<Seq<u8>> {
    Seq::new(txs.len(), |i: int| crate::codec::txid_of(txs[i]))
}

/// Checks the coinbase's witness commitment against the block's wtxids
/// and the witness reserved value.
pub open spec fn witness_commitment_check(
    b: crate::types::BlockV,
    ws: Seq<Seq<Seq<Seq<u8>>>>,
) -> Result<(), InvalidKind> {
    let cb = b.transactions[0];
    match last_commit_idx(cb.outputs, cb.outputs.len() - 1) {
        None => Err(InvalidKind::MissingWitnessCommitment),
        Some(k) => {
            let w0 = tx_wit(ws, 0);
            let wit0 = if w0.len() > 0 {
                w0[0]
            } else {
                Seq::empty()
            };
            if !(wit0.len() == 1 && wit0[0].len() == 32) {
                Err(InvalidKind::BadWitnessCommitment)
            } else {
                let commitment = crate::hashes::dsha256_of(
                    crate::codec::merkle_root_of(block_wtxids(b.transactions, ws)) + wit0[0],
                );
                if cb.outputs[k].script_pubkey.subrange(6, 38) == commitment {
                    Ok(())
                } else {
                    Err(InvalidKind::BadWitnessCommitment)
                }
            }
        },
    }
}

/// Applies the non-coinbase transactions from index `idx` in order:
/// validate, spend, create; yields the final set, the change records
/// and the summed fees.
pub open spec fn connect_txs_spec<C: crate::script::SigChecker>(
    txs: Seq<crate::types::TransactionV>,
    ws: Seq<Seq<Seq<Seq<u8>>>>,
    m: Map<OutPointV, CoinV>,
    height: int,
    flags: crate::script::ScriptFlags,
    c: &C,
    idx: int,
) -> Result<(Map<OutPointV, CoinV>, Seq<UndoOpV>, int), InvalidKind>
    decreases txs.len() - idx,
    when 0 <= idx
{
    if idx >= txs.len() {
        Ok((m, Seq::empty(), 0))
    } else {
        let t = txs[idx];
        match crate::txcheck::check_tx_spec(t, tx_wit(ws, idx), m, height, flags, c) {
            Err(k) => Err(k),
            Ok(fee) => {
                let sp = spend_inputs_spec(m, t.inputs, 0);
                if t.outputs.len() > 0xffff_ffff {
                    Err(InvalidKind::BadStructure)
                } else {
                    match add_outputs_spec(
                        sp.0,
                        crate::codec::txid_of(t),
                        t.outputs,
                        height,
                        false,
                        0,
                    ) {
                        Err(e) => Err(e),
                        Ok(r1) => match connect_txs_spec(txs, ws, r1.0, height, flags, c, idx + 1) {
                            Err(e) => Err(e),
                            Ok(rr) => Ok(((rr.0), (sp.1 + r1.1) + rr.1, fee + rr.2)),
                        },
                    }
                }
            },
        }
    }
}

/// The central contract: decides a block's validity against the input
/// set and, when valid, produces the resulting set, the undo records
/// and the summed fees.
#[verifier::opaque]
pub open spec fn connect_block_spec<C: crate::script::SigChecker>(
    b: crate::types::BlockV,
    ws: Seq<Seq<Seq<Seq<u8>>>>,
    u: Map<OutPointV, CoinV>,
    height: int,
    prev_times: Option<Seq<u32>>,
    flags: crate::script::ScriptFlags,
    c: &C,
) -> Result<(Map<OutPointV, CoinV>, Seq<UndoOpV>, int), InvalidKind> {
    let txs = b.transactions;
    if txs.len() == 0 {
        Err(InvalidKind::BadStructure)
    } else if !target_valid(b.header.bits) {
        Err(InvalidKind::BadTarget)
    } else if !(le_to_int(header_hash_of(b.header)) <= target_of(b.header.bits)) {
        Err(InvalidKind::BadPow)
    } else if !time_ok(prev_times, b.header.time) {
        Err(InvalidKind::BadTimestamp)
    } else if b.header.merkle_root != crate::codec::merkle_root_of(block_txids(txs)) {
        Err(InvalidKind::BadMerkle)
    } else if !is_coinbase_tx(txs[0]) {
        Err(InvalidKind::BadCoinbase)
    } else if exists|i: int| 1 <= i < txs.len() && has_null_input(#[trigger] txs[i]) {
        Err(InvalidKind::BadCoinbase)
    } else if height >= BIP34_HEIGHT && !bip34_ok(txs[0], height) {
        Err(InvalidKind::BadHeightCommitment)
    } else if block_weight_from(txs, ws, 0) > 4_000_000 {
        Err(InvalidKind::WeightLimit)
    } else if block_sigops_from(txs, 0) > 80_000 {
        Err(InvalidKind::SigopLimit)
    } else if has_witness_data(ws) && witness_commitment_check(b, ws) is Err {
        Err(witness_commitment_check(b, ws)->Err_0)
    } else if txs[0].outputs.len() > 0xffff_ffff {
        Err(InvalidKind::BadStructure)
    } else {
        match add_outputs_spec(u, crate::codec::txid_of(txs[0]), txs[0].outputs, height, true, 0) {
            Err(e) => Err(e),
            Ok(r0) => match connect_txs_spec(b.transactions, ws, r0.0, height, flags, c, 1) {
                Err(e) => Err(e),
                Ok(rr) => {
                    if crate::txcheck::sum_outputs(txs[0].outputs) > subsidy_of(height) + rr.2 {
                        Err(InvalidKind::OverSubsidy)
                    } else {
                        Ok((rr.0, r0.1 + rr.1, rr.2))
                    }
                },
            },
        }
    }
}

/// The consensus script rules in force at a height.
#[derive(Clone, Copy, PartialEq, Eq, Structural, Debug)]
pub enum Network {
    Mainnet,
    Testnet,
    Regtest,
}

/// The flag set consensus applies at a height: the script-hash rule,
/// the lock-time rules and the witness rules each once deployed; the
/// policy-only rules stay off.
pub open spec fn network_flags_spec(n: Network, height: int) -> crate::script::ScriptFlags {
    crate::script::ScriptFlags {
        minimal_data: false,
        discourage_upgradable_nops: false,
        p2sh: height >= 173_805,
        cltv: height >= 388_381,
        csv: height >= 419_328,
        null_dummy: height >= 481_824,
        segwit: height >= 481_824,
        taproot: height >= 709_632,
        clean_stack: false,
    }
}

/// Computes the flag set for a height.
pub fn network_flags(n: Network, height: u32) -> (r: crate::script::ScriptFlags)
    ensures
        r == network_flags_spec(n, height as int),
{
    crate::script::ScriptFlags {
        minimal_data: false,
        discourage_upgradable_nops: false,
        p2sh: height >= 173_805,
        cltv: height >= 388_381,
        csv: height >= 419_328,
        null_dummy: height >= 481_824,
        segwit: height >= 481_824,
        taproot: height >= 709_632,
        clean_stack: false,
    }
}

} // verus!

verus! {

/// The views of an undo-op list.
pub open spec fn ops_view(s: Seq<UndoOp>) -> Seq<UndoOpV> {
    s.map_values(|o: UndoOp| o@)
}

/// Adds a transaction's outputs to the working set, recording creation
/// records; agrees exactly with `add_outputs_spec`.
fn apply_outputs(
    work: &mut UtxoSet,
    undo: &mut Vec<UndoOp>,
    txid: &[u8; 32],
    outs: &Vec<TxOut>,
    height: u32,
    coinbase: bool,
) -> (r: Result<(), InvalidKind>)
    requires
        old(work).wf(),
        outs@.len() <= 0xffff_ffff,
    ensures
        match r {
            Ok(_) => ({
                &&& final(work).wf()
                &&& add_outputs_spec(
                    old(work)@,
                    txid@,
                    crate::codec::txouts_view(outs@),
                    height as int,
                    coinbase,
                    0,
                ) matches Ok(rr) && rr.0 == final(work)@ && ops_view(final(undo)@) == ops_view(
                    old(undo)@,
                ) + rr.1
            }),
            Err(e) => add_outputs_spec(
                old(work)@,
                txid@,
                crate::codec::txouts_view(outs@),
                height as int,
                coinbase,
                0,
            ) == Err::<(Map<OutPointV, CoinV>, Seq<UndoOpV>), InvalidKind>(e),
        },
{
    let ghost m0 = work@;
    let ghost outsv = crate::codec::txouts_view(outs@);
    let ghost undo0 = ops_view(undo@);
    let ghost mut acc: Seq<UndoOpV> = Seq::empty();
    let n = outs.len();
    let mut k: usize = 0;
    proof {
        assert(ops_view(undo@) =~= undo0 + acc);
    }
    while k < n
        invariant
            k <= n,
            n == outs@.len(),
            n <= 0xffff_ffff,
            outsv == crate::codec::txouts_view(outs@),
            outsv.len() == n,
            m0 == old(work)@,
            undo0 == ops_view(old(undo)@),
            work.wf(),
            ops_view(undo@) == undo0 + acc,
            match add_outputs_spec(work@, txid@, outsv, height as int, coinbase, k as int) {
                Ok(rr) => add_outputs_spec(m0, txid@, outsv, height as int, coinbase, 0) == Ok::<
                    (Map<OutPointV, CoinV>, Seq<UndoOpV>),
                    InvalidKind,
                >((rr.0, acc + rr.1)),
                Err(e) => add_outputs_spec(m0, txid@, outsv, height as int, coinbase, 0)
                    == Err::<(Map<OutPointV, CoinV>, Seq<UndoOpV>), InvalidKind>(e),
            },
        decreases n - k,
    {
        let v = outs[k].value;
        proof {
            assert(outsv[k as int] == outs@[k as int]@);
        }
        if v > MAX_MONEY {
            return Err(InvalidKind::ValueOutOfRange);
        }
        let op = OutPoint { hash: *txid, index: k as u32 };
        let coin = Coin {
            value: v,
            script_pubkey: crate::types::clone_bytes(&outs[k].script_pubkey),
            height,
            is_coinbase: coinbase,
        };
        let op2 = op.dup();
        let coin2 = coin.dup();
        let ghost opv = op@;
        let ghost coinv = coin@;
        let ghost pre_work = work@;
        let inserted = work.insert(op, coin);
        if !inserted {
            return Err(InvalidKind::DuplicateUtxo);
        }
        let ghost pre_undo = ops_view(undo@);
        let ghost pre_vec = undo@;
        undo.push(UndoOp::Created(op2, coin2));
        proof {
            assert(pre_undo.len() == undo0.len() + acc.len());
            assert(undo@ =~= pre_vec.push(undo@.last()));
            assert(undo@.last()@ == UndoOpV::Created(opv, coinv));
            assert(ops_view(undo@).len() == pre_undo.len() + 1);
            assert(forall|j: int| 0 <= j < pre_undo.len() ==> #[trigger] ops_view(undo@)[j]
                == pre_undo[j]);
            assert(ops_view(undo@)[pre_undo.len() as int] == UndoOpV::Created(opv, coinv));
            assert(opv =~= (OutPointV { hash: txid@, index: k as u32 }));
            assert(coinv =~= (CoinV {
                value: outsv[k as int].value,
                script_pubkey: outsv[k as int].script_pubkey,
                height: height as u32,
                is_coinbase: coinbase,
            }));
            let rest = seq_rest_after(work@, txid@, outsv, height as int, coinbase, k + 1);
            match add_outputs_spec(work@, txid@, outsv, height as int, coinbase, k + 1) {
                Ok(rr2) => {
                    assert(acc + (seq![UndoOpV::Created(opv, coinv)] + rr2.1) =~= acc.push(
                        UndoOpV::Created(opv, coinv),
                    ) + rr2.1);
                },
                Err(_) => {},
            }
            acc = acc.push(UndoOpV::Created(opv, coinv));
            assert(ops_view(undo@) =~= undo0 + acc);
        }
        k = k + 1;
    }
    proof {
        assert(add_outputs_spec(work@, txid@, outsv, height as int, coinbase, n as int) == Ok::<
            (Map<OutPointV, CoinV>, Seq<UndoOpV>),
            InvalidKind,
        >((work@, Seq::<UndoOpV>::empty())));
        assert(acc + Seq::<UndoOpV>::empty() =~= acc);
    }
    Ok(())
}

/// What `add_outputs_spec` still records from index `k` on.
pub open spec fn seq_rest_after(
    m: Map<OutPointV, CoinV>,
    txid: Seq<u8>,
    outs: Seq<crate::types::TxOutV>,
    height: int,
    coinbase: bool,
    k: int,
) -> Seq<UndoOpV> {
    match add_outputs_spec(m, txid, outs, height, coinbase, k) {
        Ok(rr) => rr.1,
        Err(_) => Seq::empty(),
    }
}

} // verus!

verus! {

/// Removes a transaction's spent outpoints, recording the removed coins
/// in order; agrees exactly with `spend_inputs_spec`.
fn apply_inputs(work: &mut UtxoSet, undo: &mut Vec<UndoOp>, inputs: &Vec<TxIn>) -> (r: Result<
    (),
    InvalidKind,
>)
    requires
        old(work).wf(),
        crate::txcheck::inputs_available(crate::codec::txins_view(inputs@), old(work)@),
        forall|i: int, j: int|
            0 <= i < j < inputs@.len() ==> (#[trigger] crate::codec::txins_view(inputs@)[i]).prevout
                != (#[trigger] crate::codec::txins_view(inputs@)[j]).prevout,
    ensures
        r is Ok,
        final(work).wf(),
        ({
            let sp = spend_inputs_spec(old(work)@, crate::codec::txins_view(inputs@), 0);
            sp.0 == final(work)@ && ops_view(final(undo)@) == ops_view(old(undo)@) + sp.1
        }),
{
    let ghost m0 = work@;
    let ghost insv = crate::codec::txins_view(inputs@);
    let ghost undo0 = ops_view(undo@);
    let ghost mut acc: Seq<UndoOpV> = Seq::empty();
    let n = inputs.len();
    let mut k: usize = 0;
    proof {
        assert(ops_view(undo@) =~= undo0 + acc);
    }
    while k < n
        invariant
            k <= n,
            n == inputs@.len(),
            insv == crate::codec::txins_view(inputs@),
            insv.len() == n,
            m0 == old(work)@,
            undo0 == ops_view(old(undo)@),
            work.wf(),
            ops_view(undo@) == undo0 + acc,
            forall|i: int| k <= i < n ==> work@.contains_key((#[trigger] insv[i]).prevout),
            forall|i: int, j: int|
                k <= i < j < n ==> (#[trigger] insv[i]).prevout != (#[trigger] insv[j]).prevout,
            ({
                let sp = spend_inputs_spec(work@, insv, k as int);
                let sp0 = spend_inputs_spec(m0, insv, 0);
                sp0.0 == sp.0 && sp0.1 == acc + sp.1
            }),
        decreases n - k,
    {
        let ghost pre_work = work@;
        proof {
            assert(insv[k as int].prevout == inputs@[k as int]@.prevout);
        }
        let removed = match work.remove(&inputs[k].prevout) {
            None => {
                proof {
                    assert(pre_work.contains_key(insv[k as int].prevout));
                }
                return Err(InvalidKind::MissingUtxo);
            },
            Some(c) => c,
        };
        let op2 = inputs[k].prevout.dup();
        let ghost opv = op2@;
        let ghost coinv = removed@;
        let ghost pre_undo = ops_view(undo@);
        let ghost pre_vec = undo@;
        undo.push(UndoOp::Spent(op2, removed));
        proof {
            assert(pre_undo.len() == undo0.len() + acc.len());
            assert(undo@ =~= pre_vec.push(undo@.last()));
            assert(undo@.last()@ == UndoOpV::Spent(opv, coinv));
            assert(ops_view(undo@).len() == pre_undo.len() + 1);
            assert(forall|j: int| 0 <= j < pre_undo.len() ==> #[trigger] ops_view(undo@)[j]
                == pre_undo[j]);
            assert(ops_view(undo@)[pre_undo.len() as int] == UndoOpV::Spent(opv, coinv));
            assert(coinv == pre_work[insv[k as int].prevout]);
            let sp_next = spend_inputs_spec(work@, insv, k + 1);
            assert(spend_inputs_spec(pre_work, insv, k as int).1 == seq![UndoOpV::Spent(opv, coinv)]
                + sp_next.1);
            assert(acc + (seq![UndoOpV::Spent(opv, coinv)] + sp_next.1) =~= acc.push(
                UndoOpV::Spent(opv, coinv),
            ) + sp_next.1);
            acc = acc.push(UndoOpV::Spent(opv, coinv));
            assert(ops_view(undo@) =~= undo0 + acc);
            assert forall|i: int| k + 1 <= i < n implies work@.contains_key(
                (#[trigger] insv[i]).prevout,
            ) by {
                assert(insv[i].prevout != insv[k as int].prevout);
            }
        }
        k = k + 1;
    }
    proof {
        assert(spend_inputs_spec(work@, insv, n as int) == (work@, Seq::<UndoOpV>::empty()));
        assert(acc + Seq::<UndoOpV>::empty() =~= acc);
    }
    Ok(())
}

} // verus!

verus! {

/// Tests whether any input spends the null outpoint.
fn tx_has_null_input(t: &crate::types::Transaction) -> (r: bool)
    ensures
        r == has_null_input(t@),
{
    let ghost tv = t@;
    let n = t.inputs.len();
    let mut i: usize = 0;
    while i < n
        invariant
            i <= n,
            tv == t@,
            n == t.inputs@.len(),
            n == tv.inputs.len(),
            forall|a: int|
                0 <= a < i ==> !((#[trigger] tv.inputs[a]).prevout.index == 0xffff_ffffu32 && (
                forall|j: int| 0 <= j < 32 ==> tv.inputs[a].prevout.hash[j] == 0u8)),
        decreases n - i,
    {
        proof {
            assert(tv.inputs[i as int].prevout == t.inputs@[i as int]@.prevout);
        }
        if t.inputs[i].prevout.is_null() {
            return true;
        }
        i = i + 1;
    }
    false
}

/// Tests whether any of one transaction's witness stacks is non-empty.
fn tx_wit_nonempty(w: &Vec<crate::types::Witness>) -> (r: bool)
    ensures
        r == tx_has_wit(crate::codec::witnesses_view(w@)),
{
    let ghost wv = crate::codec::witnesses_view(w@);
    let n = w.len();
    let mut j: usize = 0;
    while j < n
        invariant
            j <= n,
            wv == crate::codec::witnesses_view(w@),
            n == w@.len(),
            n == wv.len(),
            forall|a: int| 0 <= a < j ==> (#[trigger] wv[a]).len() == 0,
        decreases n - j,
    {
        proof {
            assert(wv[j as int] == w@[j as int]@);
        }
        if w[j].stack.len() > 0 {
            return true;
        }
        j = j + 1;
    }
    false
}

/// Tests whether any witness stack in the block is non-empty.
fn any_witness_data(ws: &Vec<Vec<crate::types::Witness>>) -> (r: bool)
    ensures
        r == has_witness_data(crate::codec::block_witnesses_view(ws@)),
{
    let ghost wsv = crate::codec::block_witnesses_view(ws@);
    let n = ws.len();
    let mut i: usize = 0;
    while i < n
        invariant
            i <= n,
            wsv == crate::codec::block_witnesses_view(ws@),
            n == ws@.len(),
            n == wsv.len(),
            forall|a: int, b: int|
                0 <= a < i && 0 <= b < wsv[a].len() ==> (#[trigger] wsv[a][b]).len() == 0,
        decreases n - i,
    {
        proof {
            assert(wsv[i as int] == crate::codec::witnesses_view(ws@[i as int]@));
        }
        if tx_wit_nonempty(&ws[i]) {
            proof {
                let b = choose|b: int|
                    0 <= b < wsv[i as int].len() && wsv[i as int][b].len() > 0;
                assert(0 <= i < wsv.len() && 0 <= b < wsv[i as int].len() && wsv[i as int][b].len()
                    > 0);
            }
            return true;
        }
        i = i + 1;
    }
    false
}

/// Tests the witness-commitment output template.
fn is_commit_script_exec(s: &Vec<u8>) -> (r: bool)
    ensures
        r == is_commit_script(s@),
{
    s.len() >= 38 && s[0] == 0x6a && s[1] == 0x24 && s[2] == 0xaa && s[3] == 0x21 && s[4] == 0xa9
        && s[5] == 0xed
}

} // verus!


verus! {

/// Whether the block is over the weight limit.
fn over_weight_limit(
    block: &crate::types::Block,
    witnesses: &Vec<Vec<crate::types::Witness>>,
) -> (r: bool)
    ensures
        r == (block_weight_from(
            block@.transactions,
            crate::codec::block_witnesses_view(witnesses@),
            0,
        ) > 4_000_000),
{
    let ghost bv = block@;
    let ghost wsv = crate::codec::block_witnesses_view(witnesses@);
    let ntx = block.transactions.len();
    let empty_wits: Vec<crate::types::Witness> = Vec::new();
    proof {
        assert(crate::codec::witnesses_view(empty_wits@) =~= Seq::<Seq<Seq<u8>>>::empty());
        assert(bv.transactions.len() == block.transactions@.len());
    }
    let mut weight: u128 = 0;
    let mut i: usize = 0;
    while i < ntx
        invariant
            i <= ntx,
            bv == block@,
            wsv == crate::codec::block_witnesses_view(witnesses@),
            wsv.len() == witnesses@.len(),
            ntx == block.transactions@.len(),
            ntx == bv.transactions.len(),
            crate::codec::witnesses_view(empty_wits@) == Seq::<Seq<Seq<u8>>>::empty(),
            weight <= 4_000_000,
            weight as int + block_weight_from(bv.transactions, wsv, i as int) == block_weight_from(
                bv.transactions,
                wsv,
                0,
            ),
        decreases ntx - i,
    {
        proof {
            assert(bv.transactions[i as int] == block.transactions@[i as int]@);
        }
        let wref: &Vec<crate::types::Witness> = if i < witnesses.len() {
            &witnesses[i]
        } else {
            &empty_wits
        };
        proof {
            if i < witnesses.len() {
                assert(crate::codec::witnesses_view(wref@) == wsv[i as int]);
            }
            assert(crate::codec::witnesses_view(wref@) == tx_wit(wsv, i as int));
        }
        let legacy = crate::codec::serialize_tx_legacy(&block.transactions[i]);
        let has_wit = tx_wit_nonempty(wref);
        let total: usize = if has_wit {
            let wser = crate::codec::serialize_tx_witness(&block.transactions[i], wref);
            wser.len()
        } else {
            legacy.len()
        };
        let term: u128 = 3 * (legacy.len() as u128) + (total as u128);
        proof {
            assert(term as int == tx_weight(bv.transactions[i as int], tx_wit(wsv, i as int)));
            lemma_block_weight_nonneg(bv.transactions, wsv, i + 1);
        }
        weight = weight + term;
        if weight > 4_000_000 {
            return true;
        }
        i = i + 1;
    }
    false
}

/// Whether the block is over the signature-operation limit.
fn over_sigop_limit(block: &crate::types::Block) -> (r: bool)
    ensures
        r == (block_sigops_from(block@.transactions, 0) > 80_000),
{
    let ghost bv = block@;
    let ntx = block.transactions.len();
    proof {
        assert(bv.transactions.len() == block.transactions@.len());
    }
    let mut sigops: u128 = 0;
    let mut i: usize = 0;
    while i < ntx
        invariant
            i <= ntx,
            bv == block@,
            ntx == block.transactions@.len(),
            ntx == bv.transactions.len(),
            sigops <= 80_000,
            sigops as int + block_sigops_from(bv.transactions, i as int) == block_sigops_from(
                bv.transactions,
                0,
            ),
        decreases ntx - i,
    {
        proof {
            assert(bv.transactions[i as int] == block.transactions@[i as int]@);
        }
        let c = crate::txcheck::tx_sigops_capped(&block.transactions[i]);
        proof {
            lemma_block_sigops_nonneg(bv.transactions, i + 1);
            crate::txcheck::lemma_sigops_seq_in_nonneg(bv.transactions[i as int].inputs);
            crate::txcheck::lemma_sigops_seq_out_nonneg(bv.transactions[i as int].outputs);
        }
        if c > 80_000 {
            return true;
        }
        sigops = sigops + c as u128;
        if sigops > 80_000 {
            return true;
        }
        i = i + 1;
    }
    false
}

/// Checks the coinbase's witness commitment; agrees exactly with
/// `witness_commitment_check`.
fn check_commitment(
    block: &crate::types::Block,
    witnesses: &Vec<Vec<crate::types::Witness>>,
) -> (r: Result<(), InvalidKind>)
    requires
        block@.transactions.len() >= 1,
    ensures
        r == witness_commitment_check(block@, crate::codec::block_witnesses_view(witnesses@)),
{
    let ghost bv = block@;
    let ghost wsv = crate::codec::block_witnesses_view(witnesses@);
    let ntx = block.transactions.len();
    let empty_wits: Vec<crate::types::Witness> = Vec::new();
    proof {
        assert(crate::codec::witnesses_view(empty_wits@) =~= Seq::<Seq<Seq<u8>>>::empty());
        assert(bv.transactions.len() == block.transactions@.len());
        assert(bv.transactions[0] == block.transactions@[0]@);
    }
    let cb = &block.transactions[0];
    let mut found: Option<usize> = None;
    let mut k = cb.outputs.len();
    while k > 0 && found.is_none()
        invariant
            k <= cb.outputs@.len(),
            bv == block@,
            ntx == bv.transactions.len(),
            ntx >= 1,
            cb.outputs@.len() == bv.transactions[0].outputs.len(),
            *cb == block.transactions@[0],
            match found {
                Some(f) => f < cb.outputs@.len() && last_commit_idx(
                    bv.transactions[0].outputs,
                    bv.transactions[0].outputs.len() - 1,
                ) == Some(f as int),
                None => last_commit_idx(
                    bv.transactions[0].outputs,
                    bv.transactions[0].outputs.len() - 1,
                ) == last_commit_idx(bv.transactions[0].outputs, k - 1),
            },
        decreases k,
    {
        k = k - 1;
        proof {
            assert(bv.transactions[0].outputs[k as int] == cb.outputs@[k as int]@);
        }
        if is_commit_script_exec(&cb.outputs[k].script_pubkey) {
            found = Some(k);
        }
    }
    let fk = match found {
        None => {
            return Err(InvalidKind::MissingWitnessCommitment);
        },
        Some(f) => f,
    };
    let reserved_ok = witnesses.len() > 0 && witnesses[0].len() > 0 && witnesses[0][0].stack.len()
        == 1 && witnesses[0][0].stack[0].len() == 32;
    proof {
        if witnesses.len() > 0 {
            assert(wsv[0] == crate::codec::witnesses_view(witnesses@[0]@));
            if witnesses@[0]@.len() > 0 {
                assert(wsv[0][0] == witnesses@[0]@[0]@);
            }
        }
    }
    if !reserved_ok {
        return Err(InvalidKind::BadWitnessCommitment);
    }
    let reserved = &witnesses[0][0].stack[0];
    let mut wtxids: Vec<[u8; 32]> = Vec::new();
    let zeros = [0u8; 32];
    proof {
        assert(forall|j: int| 0 <= j < 32 ==> zeros@[j] == 0u8);
        assert(zeros@ =~= zero_hash32());
    }
    wtxids.push(zeros);
    proof {
        assert(crate::codec::ids_view(wtxids@) =~= block_wtxids(bv.transactions, wsv).subrange(
            0,
            1,
        ));
    }
    let mut i: usize = 1;
    while i < ntx
        invariant
            1 <= i <= ntx,
            bv == block@,
            wsv == crate::codec::block_witnesses_view(witnesses@),
            wsv.len() == witnesses@.len(),
            ntx == block.transactions@.len(),
            ntx == bv.transactions.len(),
            crate::codec::witnesses_view(empty_wits@) == Seq::<Seq<Seq<u8>>>::empty(),
            crate::codec::ids_view(wtxids@) == block_wtxids(bv.transactions, wsv).subrange(
                0,
                i as int,
            ),
        decreases ntx - i,
    {
        let ghost pre = crate::codec::ids_view(wtxids@);
        proof {
            assert(bv.transactions[i as int] == block.transactions@[i as int]@);
        }
        let wref: &Vec<crate::types::Witness> = if i < witnesses.len() {
            &witnesses[i]
        } else {
            &empty_wits
        };
        proof {
            if i < witnesses.len() {
                assert(crate::codec::witnesses_view(wref@) == wsv[i as int]);
            }
            assert(crate::codec::witnesses_view(wref@) == tx_wit(wsv, i as int));
        }
        let id = crate::codec::compute_wtxid(&block.transactions[i], wref);
        wtxids.push(id);
        proof {
            assert(crate::codec::ids_view(wtxids@) =~= pre.push(id@));
            assert(crate::codec::ids_view(wtxids@) =~= block_wtxids(bv.transactions, wsv).subrange(
                0,
                i + 1,
            ));
        }
        i = i + 1;
    }
    proof {
        assert(block_wtxids(bv.transactions, wsv).subrange(0, ntx as int) =~= block_wtxids(
            bv.transactions,
            wsv,
        ));
    }
    proof {
        lemma_last_commit_is_commit(
            bv.transactions[0].outputs,
            bv.transactions[0].outputs.len() - 1,
        );
        assert(is_commit_script(bv.transactions[0].outputs[fk as int].script_pubkey));
        assert(bv.transactions[0].outputs[fk as int].script_pubkey == block.transactions@[0]@
            .outputs[fk as int].script_pubkey);
    }
    let wroot = crate::codec::compute_merkle_root(&wtxids);
    let mut preimage: Vec<u8> = Vec::new();
    crate::bytes::push_slice(&mut preimage, wroot.as_slice());
    crate::bytes::push_slice(&mut preimage, reserved.as_slice());
    let commitment = crate::hashes::dsha256(preimage.as_slice());
    let committed = crate::bytes::subvec(&block.transactions[0].outputs[fk].script_pubkey, 6, 38);
    let cv: Vec<u8> = vstd::slice::slice_to_vec(commitment.as_slice());
    proof {
        assert(preimage@ =~= wroot@ + reserved@);
        assert(bv.transactions[0].outputs[fk as int].script_pubkey == block.transactions@[0]@
            .outputs[fk as int].script_pubkey);
    }
    if !crate::types::bytes_eq(&cv, &committed) {
        return Err(InvalidKind::BadWitnessCommitment);
    }
    Ok(())
}

/// Applies the non-coinbase transactions in order; agrees exactly with
/// `connect_txs_spec` from index 1, extending the undo log.
fn run_txs<C: crate::script::SigChecker>(
    block: &crate::types::Block,
    witnesses: &Vec<Vec<crate::types::Witness>>,
    work: &mut UtxoSet,
    undo: &mut Vec<UndoOp>,
    height: u32,
    flags: crate::script::ScriptFlags,
    checker: &C,
) -> (r: Result<u128, InvalidKind>)
    requires
        old(work).wf(),
        block@.transactions.len() >= 1,
    ensures
        ({
            let spec = connect_txs_spec(
                block@.transactions,
                crate::codec::block_witnesses_view(witnesses@),
                old(work)@,
                height as int,
                flags,
                checker,
                1,
            );
            match r {
                Ok(fees) => ({
                    &&& final(work).wf()
                    &&& fees as int <= (block@.transactions.len() as int) * (MAX_MONEY as int)
                    &&& spec matches Ok(rr) && rr.0 == final(work)@ && ops_view(final(undo)@)
                        == ops_view(old(undo)@) + rr.1 && rr.2 == fees as int
                }),
                Err(e) => spec == Err::<(Map<OutPointV, CoinV>, Seq<UndoOpV>, int), InvalidKind>(
                    e,
                ),
            }
        }),
{
    let ghost bv = block@;
    let ghost wsv = crate::codec::block_witnesses_view(witnesses@);
    let ghost m1 = work@;
    let ghost undo0 = ops_view(undo@);
    let ntx = block.transactions.len();
    let empty_wits: Vec<crate::types::Witness> = Vec::new();
    proof {
        assert(crate::codec::witnesses_view(empty_wits@) =~= Seq::<Seq<Seq<u8>>>::empty());
        assert(bv.transactions.len() == block.transactions@.len());
    }
    let mut fees: u128 = 0;
    let ghost mut acc: Seq<UndoOpV> = Seq::empty();
    let mut idx: usize = 1;
    proof {
        assert(ops_view(undo@) =~= undo0 + acc);
    }
    while idx < ntx
        invariant
            1 <= idx <= ntx,
            bv == block@,
            wsv == crate::codec::block_witnesses_view(witnesses@),
            wsv.len() == witnesses@.len(),
            ntx == block.transactions@.len(),
            ntx == bv.transactions.len(),
            m1 == old(work)@,
            undo0 == ops_view(old(undo)@),
            crate::codec::witnesses_view(empty_wits@) == Seq::<Seq<Seq<u8>>>::empty(),
            work.wf(),
            ops_view(undo@) == undo0 + acc,
            fees <= (idx as int) * (MAX_MONEY as int),
            match connect_txs_spec(
                bv.transactions,
                wsv,
                work@,
                height as int,
                flags,
                checker,
                idx as int,
            ) {
                Ok(rr) => connect_txs_spec(
                    bv.transactions,
                    wsv,
                    m1,
                    height as int,
                    flags,
                    checker,
                    1,
                ) == Ok::<(Map<OutPointV, CoinV>, Seq<UndoOpV>, int), InvalidKind>(
                    (rr.0, acc + rr.1, fees as int + rr.2),
                ),
                Err(e) => connect_txs_spec(
                    bv.transactions,
                    wsv,
                    m1,
                    height as int,
                    flags,
                    checker,
                    1,
                ) == Err::<(Map<OutPointV, CoinV>, Seq<UndoOpV>, int), InvalidKind>(e),
            },
        decreases ntx - idx,
    {
        proof {
            assert(bv.transactions[idx as int] == block.transactions@[idx as int]@);
        }
        let wref: &Vec<crate::types::Witness> = if idx < witnesses.len() {
            &witnesses[idx]
        } else {
            &empty_wits
        };
        proof {
            if idx < witnesses.len() {
                assert(crate::codec::witnesses_view(wref@) == wsv[idx as int]);
            }
            assert(crate::codec::witnesses_view(wref@) == tx_wit(wsv, idx as int));
        }
        let fee = match crate::txcheck::check_transaction(
            &block.transactions[idx],
            wref,
            work,
            height,
            flags,
            checker,
        ) {
            Err(e) => {
                return Err(e);
            },
            Ok(f) => f,
        };
        let ghost m_before = work@;
        proof {
            assert(crate::txcheck::check_tx_spec(
                bv.transactions[idx as int],
                tx_wit(wsv, idx as int),
                m_before,
                height as int,
                flags,
                checker,
            ) is Ok);
            assert(!crate::txcheck::has_duplicate_input(bv.transactions[idx as int]));
            assert(crate::txcheck::inputs_available(bv.transactions[idx as int].inputs, m_before));
            assert(bv.transactions[idx as int].inputs == crate::codec::txins_view(
                block.transactions@[idx as int].inputs@,
            ));
            assert(fee as int <= MAX_MONEY) by {
                crate::txcheck::lemma_sum_out_tail(bv.transactions[idx as int].outputs, 0);
                assert(bv.transactions[idx as int].outputs.subrange(0, 0).len() == 0);
                assert(crate::txcheck::sum_outputs(
                    bv.transactions[idx as int].outputs.subrange(0, 0),
                ) == 0);
            }
        }
        match apply_inputs(work, undo, &block.transactions[idx].inputs) {
            Err(_) => {
                return Err(InvalidKind::MissingUtxo);
            },
            Ok(_) => {},
        }
        let ghost sp = spend_inputs_spec(m_before, bv.transactions[idx as int].inputs, 0);
        if (block.transactions[idx].outputs.len() as u64) > 0xffff_ffff {
            return Err(InvalidKind::BadStructure);
        }
        let txid = crate::codec::compute_txid(&block.transactions[idx]);
        let ghost m_spent = work@;
        match apply_outputs(
            work,
            undo,
            &txid,
            &block.transactions[idx].outputs,
            height,
            false,
        ) {
            Err(e) => {
                return Err(e);
            },
            Ok(_) => {},
        }
        let ghost r1 = add_outputs_spec(
            m_spent,
            crate::codec::txid_of(bv.transactions[idx as int]),
            bv.transactions[idx as int].outputs,
            height as int,
            false,
            0,
        )->Ok_0;
        proof {
            let rest = connect_txs_spec(
                bv.transactions,
                wsv,
                work@,
                height as int,
                flags,
                checker,
                idx + 1,
            );
            match rest {
                Ok(rr2) => {
                    assert(acc + ((sp.1 + r1.1) + rr2.1) =~= ((acc + sp.1) + r1.1) + rr2.1);
                },
                Err(_) => {},
            }
            acc = (acc + sp.1) + r1.1;
            assert(ops_view(undo@) =~= undo0 + acc);
        }
        fees = fees + fee as u128;
        idx = idx + 1;
    }
    proof {
        assert(connect_txs_spec(
            bv.transactions,
            wsv,
            work@,
            height as int,
            flags,
            checker,
            ntx as int,
        ) == Ok::<(Map<OutPointV, CoinV>, Seq<UndoOpV>, int), InvalidKind>(
            (work@, Seq::<UndoOpV>::empty(), 0),
        ));
        assert(acc + Seq::<UndoOpV>::empty() =~= acc);
    }
    Ok(fees)
}

/// The coinbase's total output value.
fn coinbase_sum(block: &crate::types::Block) -> (r: u128)
    requires
        block@.transactions.len() >= 1,
    ensures
        r as int == crate::txcheck::sum_outputs(block@.transactions[0].outputs),
{
    let ghost bv = block@;
    proof {
        assert(bv.transactions[0] == block.transactions@[0]@);
    }
    let nout = block.transactions[0].outputs.len();
    let mut sum: u128 = 0;
    let mut j: usize = 0;
    while j < nout
        invariant
            j <= nout,
            bv == block@,
            bv.transactions.len() >= 1,
            bv.transactions[0] == block.transactions@[0]@,
            nout == block.transactions@[0]@.outputs.len(),
            nout == bv.transactions[0].outputs.len(),
            sum <= (j as int) * 0xffff_ffff_ffff_ffff,
            sum as int == crate::txcheck::sum_outputs(
                bv.transactions[0].outputs.subrange(0, j as int),
            ),
        decreases nout - j,
    {
        proof {
            assert(bv.transactions[0].outputs[j as int] == block.transactions@[0]@.outputs[
                j as int]);
            crate::txcheck::lemma_sum_out_snoc(bv.transactions[0].outputs, j as int);
        }
        sum = sum + (block.transactions[0].outputs[j].value as u128);
        j = j + 1;
    }
    proof {
        assert(bv.transactions[0].outputs.subrange(0, nout as int) =~= bv.transactions[0].outputs);
    }
    sum
}

} // verus!

verus! {

/// Whether any transaction after the coinbase spends the null outpoint.
fn has_later_null(block: &crate::types::Block) -> (r: bool)
    ensures
        r == exists|i: int|
            1 <= i < block@.transactions.len() && has_null_input(#[trigger] block@.transactions[i]),
{
    let ghost bv = block@;
    let ntx = block.transactions.len();
    proof {
        assert(bv.transactions.len() == block.transactions@.len());
    }
    let mut i: usize = 1;
    while i < ntx
        invariant
            1 <= i,
            i <= ntx || ntx < 1,
            bv == block@,
            ntx == block.transactions@.len(),
            ntx == bv.transactions.len(),
            forall|a: int| 1 <= a < i ==> !has_null_input(#[trigger] bv.transactions[a]),
        decreases ntx - i,
    {
        proof {
            assert(bv.transactions[i as int] == block.transactions@[i as int]@);
        }
        if tx_has_null_input(&block.transactions[i]) {
            proof {
                assert(has_null_input(bv.transactions[i as int]));
            }
            return true;
        }
        i = i + 1;
    }
    false
}

/// Connects a block: decides its validity against the input set and, on
/// success, returns the updated set and the undo log; on failure the
/// working state is discarded and the input set returned unchanged.
/// Agrees exactly with `connect_block_spec`.
#[verifier::rlimit(100)]
pub fn connect_block<C: crate::script::SigChecker>(
    block: &crate::types::Block,
    witnesses: &Vec<Vec<crate::types::Witness>>,
    utxo_in: UtxoSet,
    height: u32,
    prev_times: Option<&Vec<u32>>,
    network: Network,
    checker: &C,
) -> (r: (Verdict, UtxoSet, UndoLog))
    requires
        utxo_in.wf(),
    ensures
        ({
            let ptv = match prev_times {
                Some(v) => Some(v@),
                None => None,
            };
            let spec = connect_block_spec(
                block@,
                crate::codec::block_witnesses_view(witnesses@),
                utxo_in@,
                height as int,
                ptv,
                network_flags_spec(network, height as int),
                checker,
            );
            match spec {
                Ok(res) => r.0 == Verdict::Valid && r.1.wf() && r.1@ == res.0 && ops_view(r.2.ops@)
                    == res.1,
                Err(k) => r.0 == Verdict::Invalid(k) && r.1.wf() && r.1@ == utxo_in@
                    && r.2.ops@.len() == 0,
            }
        }),
{
    let ghost bv = block@;
    let ghost wsv = crate::codec::block_witnesses_view(witnesses@);
    let flags = network_flags(network, height);
    let ntx = block.transactions.len();
    proof {
        reveal(connect_block_spec);
        assert(bv.transactions.len() == block.transactions@.len());
    }
    if ntx == 0 {
        return (Verdict::Invalid(InvalidKind::BadStructure), utxo_in, UndoLog { ops: Vec::new() });
    }
    let target = match expand_target(block.header.bits) {
        None => {
            return (Verdict::Invalid(InvalidKind::BadTarget), utxo_in, UndoLog { ops: Vec::new() });
        },
        Some(t) => t,
    };
    let hash = compute_header_hash(&block.header);
    proof {
        assert(bv.header == block.header@);
    }
    if !le_bytes_leq(&hash, &target) {
        return (Verdict::Invalid(InvalidKind::BadPow), utxo_in, UndoLog { ops: Vec::new() });
    }
    match prev_times {
        None => {},
        Some(ts) => {
            if ts.len() > 0 {
                match compute_median(ts) {
                    None => {
                        return (
                            Verdict::Invalid(InvalidKind::BadTimestamp),
                            utxo_in,
                            UndoLog { ops: Vec::new() },
                        );
                    },
                    Some(m) => {
                        if !(block.header.time > m) {
                            return (
                                Verdict::Invalid(InvalidKind::BadTimestamp),
                                utxo_in,
                                UndoLog { ops: Vec::new() },
                            );
                        }
                    },
                }
            }
        },
    }
    let mut txids: Vec<[u8; 32]> = Vec::new();
    let mut i: usize = 0;
    proof {
        assert(crate::codec::ids_view(txids@) =~= block_txids(bv.transactions).subrange(0, 0));
    }
    while i < ntx
        invariant
            i <= ntx,
            bv == block@,
            ntx == block.transactions@.len(),
            ntx == bv.transactions.len(),
            crate::codec::ids_view(txids@) == block_txids(bv.transactions).subrange(0, i as int),
        decreases ntx - i,
    {
        let ghost pre = crate::codec::ids_view(txids@);
        let id = crate::codec::compute_txid(&block.transactions[i]);
        txids.push(id);
        proof {
            assert(bv.transactions[i as int] == block.transactions@[i as int]@);
            assert(crate::codec::ids_view(txids@) =~= pre.push(id@));
            assert(crate::codec::ids_view(txids@) =~= block_txids(bv.transactions).subrange(
                0,
                i + 1,
            ));
        }
        i = i + 1;
    }
    proof {
        assert(block_txids(bv.transactions).subrange(0, ntx as int) =~= block_txids(
            bv.transactions,
        ));
    }
    let root = crate::codec::compute_merkle_root(&txids);
    if !crate::types::bytes32_eq(&root, &block.header.merkle_root) {
        return (Verdict::Invalid(InvalidKind::BadMerkle), utxo_in, UndoLog { ops: Vec::new() });
    }
    proof {
        assert(bv.transactions[0] == block.transactions@[0]@);
    }
    let cb_shape = block.transactions[0].inputs.len() == 1 && block.transactions[0].inputs[
        0
    ].prevout.is_null();
    if !cb_shape {
        return (Verdict::Invalid(InvalidKind::BadCoinbase), utxo_in, UndoLog { ops: Vec::new() });
    }
    if has_later_null(block) {
        return (Verdict::Invalid(InvalidKind::BadCoinbase), utxo_in, UndoLog { ops: Vec::new() });
    }
    if height >= BIP34_HEIGHT {
        let hb = crate::script::encode_num(height as i64);
        let ss = &block.transactions[0].inputs[0].script_sig;
        let hl = hb.len();
        let ok = if ss.len() < 1 || ss.len() - 1 < hl || !(ss[0] as usize == hl) {
            false
        } else {
            let prefix = crate::bytes::subvec(ss, 1, 1 + hl);
            crate::types::bytes_eq(&prefix, &hb)
        };
        if !ok {
            return (
                Verdict::Invalid(InvalidKind::BadHeightCommitment),
                utxo_in,
                UndoLog { ops: Vec::new() },
            );
        }
    }
    if over_weight_limit(block, witnesses) {
        return (Verdict::Invalid(InvalidKind::WeightLimit), utxo_in, UndoLog { ops: Vec::new() });
    }
    if over_sigop_limit(block) {
        return (Verdict::Invalid(InvalidKind::SigopLimit), utxo_in, UndoLog { ops: Vec::new() });
    }
    if any_witness_data(witnesses) {
        match check_commitment(block, witnesses) {
            Err(e) => {
                return (Verdict::Invalid(e), utxo_in, UndoLog { ops: Vec::new() });
            },
            Ok(_) => {},
        }
    }
    if (block.transactions[0].outputs.len() as u64) > 0xffff_ffff {
        return (Verdict::Invalid(InvalidKind::BadStructure), utxo_in, UndoLog { ops: Vec::new() });
    }
    let mut work = utxo_in.snapshot();
    let mut undo: Vec<UndoOp> = Vec::new();
    let txid0 = crate::codec::compute_txid(&block.transactions[0]);
    proof {
        assert(ops_view(undo@) =~= Seq::<UndoOpV>::empty());
    }
    match apply_outputs(&mut work, &mut undo, &txid0, &block.transactions[0].outputs, height, true) {
        Err(e) => {
            return (Verdict::Invalid(e), utxo_in, UndoLog { ops: Vec::new() });
        },
        Ok(_) => {},
    }
    let ghost cb_ops = ops_view(undo@);
    let fees = match run_txs(block, witnesses, &mut work, &mut undo, height, flags, checker) {
        Err(e) => {
            return (Verdict::Invalid(e), utxo_in, UndoLog { ops: Vec::new() });
        },
        Ok(f) => f,
    };
    let cb_total = coinbase_sum(block);
    let subsidy = block_subsidy(height);
    proof {
        assert(fees as int <= (ntx as int) * (MAX_MONEY as int));
        assert((ntx as int) * (MAX_MONEY as int) <= 0x1_0000_0000_0000_0000 * (
        MAX_MONEY as int));
    }
    if cb_total > (subsidy as u128) + fees {
        return (Verdict::Invalid(InvalidKind::OverSubsidy), utxo_in, UndoLog { ops: Vec::new() });
    }
    (Verdict::Valid, work, UndoLog { ops: undo })
}

} // verus!

verus! {

/// Fees never sum negative on a successful application.
proof fn lemma_connect_txs_fees_nonneg<C: crate::script::SigChecker>(
    txs: Seq<crate::types::TransactionV>,
    ws: Seq<Seq<Seq<Seq<u8>>>>,
    m: Map<OutPointV, CoinV>,
    height: int,
    flags: crate::script::ScriptFlags,
    c: &C,
    idx: int,
)
    requires
        0 <= idx,
        connect_txs_spec(txs, ws, m, height, flags, c, idx) is Ok,
    ensures
        connect_txs_spec(txs, ws, m, height, flags, c, idx)->Ok_0.2 >= 0,
    decreases txs.len() - idx,
{
    if idx < txs.len() {
        let t = txs[idx];
        let fee = crate::txcheck::check_tx_spec(t, tx_wit(ws, idx), m, height, flags, c)->Ok_0;
        let sp = spend_inputs_spec(m, t.inputs, 0);
        let r1 = add_outputs_spec(sp.0, crate::codec::txid_of(t), t.outputs, height, false, 0)->Ok_0;
        lemma_connect_txs_fees_nonneg(txs, ws, r1.0, height, flags, c, idx + 1);
        crate::txcheck::lemma_sum_out_tail(t.outputs, 0);
        assert(t.outputs.subrange(0, 0).len() == 0);
        assert(crate::txcheck::sum_outputs(t.outputs.subrange(0, 0)) == 0);
    }
}

/// Value conservation: on a successful connection the summed fees are
/// the non-negative difference of inputs over outputs, and the coinbase
/// claims at most the subsidy plus those fees.
pub proof fn lemma_connect_value_conservation<C: crate::script::SigChecker>(
    b: crate::types::BlockV,
    ws: Seq<Seq<Seq<Seq<u8>>>>,
    u: Map<OutPointV, CoinV>,
    height: int,
    prev_times: Option<Seq<u32>>,
    flags: crate::script::ScriptFlags,
    c: &C,
)
    requires
        connect_block_spec(b, ws, u, height, prev_times, flags, c) is Ok,
    ensures
        ({
            let res = connect_block_spec(b, ws, u, height, prev_times, flags, c)->Ok_0;
            res.2 >= 0 && crate::txcheck::sum_outputs(b.transactions[0].outputs) <= subsidy_of(
                height,
            ) + res.2
        }),
{
    reveal(connect_block_spec);
    let r0 = add_outputs_spec(
        u,
        crate::codec::txid_of(b.transactions[0]),
        b.transactions[0].outputs,
        height,
        true,
        0,
    )->Ok_0;
    lemma_connect_txs_fees_nonneg(b.transactions, ws, r0.0, height, flags, c, 1);
}

/// The ops of a successful connection are well-formed over the input
/// set and produce exactly the output set.
proof fn lemma_connect_txs_ops<C: crate::script::SigChecker>(
    txs: Seq<crate::types::TransactionV>,
    ws: Seq<Seq<Seq<Seq<u8>>>>,
    m: Map<OutPointV, CoinV>,
    height: int,
    flags: crate::script::ScriptFlags,
    c: &C,
    idx: int,
)
    requires
        0 <= idx,
        coins_bounded(m),
        connect_txs_spec(txs, ws, m, height, flags, c, idx) is Ok,
    ensures
        ({
            let rr = connect_txs_spec(txs, ws, m, height, flags, c, idx)->Ok_0;
            ops_wf(m, rr.1) && rr.0 == ops_apply(m, rr.1) && coins_bounded(rr.0)
        }),
    decreases txs.len() - idx,
{
    if idx >= txs.len() {
        assert(ops_wf(m, Seq::<UndoOpV>::empty()));
        assert(ops_apply(m, Seq::<UndoOpV>::empty()) == m);
    } else {
        let t = txs[idx];
        assert(crate::txcheck::check_tx_spec(t, tx_wit(ws, idx), m, height, flags, c) is Ok);
        assert(!crate::txcheck::has_duplicate_input(t));
        assert(crate::txcheck::inputs_available(t.inputs, m));
        lemma_spend_inputs(m, t.inputs, 0);
        let sp = spend_inputs_spec(m, t.inputs, 0);
        lemma_add_outputs(sp.0, crate::codec::txid_of(t), t.outputs, height, false, 0);
        let r1 = add_outputs_spec(sp.0, crate::codec::txid_of(t), t.outputs, height, false, 0)->Ok_0;
        lemma_connect_txs_ops(txs, ws, r1.0, height, flags, c, idx + 1);
        let rr2 = connect_txs_spec(txs, ws, r1.0, height, flags, c, idx + 1)->Ok_0;
        lemma_ops_wf_concat(sp.0, r1.1, rr2.1);
        lemma_ops_apply_concat(sp.0, r1.1, rr2.1);
        lemma_ops_wf_concat(m, sp.1, r1.1 + rr2.1);
        lemma_ops_apply_concat(m, sp.1, r1.1 + rr2.1);
        let full = (sp.1 + r1.1) + rr2.1;
        assert(full =~= sp.1 + (r1.1 + rr2.1));
        assert(ops_wf(m, full));
        assert(ops_apply(m, full) == rr2.0);
    }
}

/// Applying the undo log of a successful connection to its result
/// restores exactly the set the block was connected to.
pub proof fn lemma_connect_undo_round_trip<C: crate::script::SigChecker>(
    b: crate::types::BlockV,
    ws: Seq<Seq<Seq<Seq<u8>>>>,
    u: Map<OutPointV, CoinV>,
    height: int,
    prev_times: Option<Seq<u32>>,
    flags: crate::script::ScriptFlags,
    c: &C,
)
    requires
        coins_bounded(u),
        connect_block_spec(b, ws, u, height, prev_times, flags, c) is Ok,
    ensures
        ({
            let res = connect_block_spec(b, ws, u, height, prev_times, flags, c)->Ok_0;
            &&& ops_wf(u, res.1)
            &&& res.0 == ops_apply(u, res.1)
            &&& ops_undo(res.0, res.1) == u
        }),
{
    reveal(connect_block_spec);
    let txid0 = crate::codec::txid_of(b.transactions[0]);
    lemma_add_outputs(u, txid0, b.transactions[0].outputs, height, true, 0);
    let r0 = add_outputs_spec(u, txid0, b.transactions[0].outputs, height, true, 0)->Ok_0;
    lemma_connect_txs_ops(b.transactions, ws, r0.0, height, flags, c, 1);
    let rr = connect_txs_spec(b.transactions, ws, r0.0, height, flags, c, 1)->Ok_0;
    lemma_ops_wf_concat(u, r0.1, rr.1);
    lemma_ops_apply_concat(u, r0.1, rr.1);
    let res = connect_block_spec(b, ws, u, height, prev_times, flags, c)->Ok_0;
    assert(res.1 == r0.1 + rr.1);
    assert(ops_wf(u, res.1));
    assert(ops_apply(u, res.1) == rr.0);
    lemma_ops_round_trip(u, res.1);
}

/// Each op of a well-formed list applies cleanly at its position.
proof fn lemma_ops_wf_at(m: Map<OutPointV, CoinV>, ops: Seq<UndoOpV>, i: int)
    requires
        ops_wf(m, ops),
        0 <= i < ops.len(),
    ensures
        ({
            let st = ops_apply(m, ops.subrange(0, i));
            match ops[i] {
                UndoOpV::Spent(k, c) => st.contains_key(k) && st[k] == c && c.value <= MAX_MONEY,
                UndoOpV::Created(k, c) => !st.contains_key(k) && c.value <= MAX_MONEY,
            }
        }),
    decreases i,
{
    if i == 0 {
        assert(ops.subrange(0, 0).len() == 0);
        assert(ops_apply(m, ops.subrange(0, 0)) == m);
    } else {
        let m1 = op_apply(m, ops[0]);
        assert(ops_wf(m1, ops.drop_first()));
        assert(ops.drop_first()[i - 1] == ops[i]);
        lemma_ops_wf_at(m1, ops.drop_first(), i - 1);
        lemma_apply_shift(m, ops, i);
    }
}

/// A prefix application steps through the first op.
proof fn lemma_apply_shift(m: Map<OutPointV, CoinV>, ops: Seq<UndoOpV>, i: int)
    requires
        1 <= i <= ops.len(),
    ensures
        ops_apply(m, ops.subrange(0, i)) == ops_apply(
            op_apply(m, ops[0]),
            ops.drop_first().subrange(0, i - 1),
        ),
{
    let a = ops.subrange(0, i);
    assert(a[0] == ops[0]);
    assert(a.drop_first() =~= ops.drop_first().subrange(0, i - 1));
    assert(ops_apply(m, a) == ops_apply(op_apply(m, a[0]), a.drop_first()));
}

/// Applying an undo log in reverse over its target; restores the set
/// the recorded changes were applied to.
pub fn apply_undo(u: UtxoSet, undo: &UndoLog) -> (r: UtxoSet)
    requires
        u.wf(),
        exists|m0: Map<OutPointV, CoinV>|
            #[trigger] ops_wf(m0, undo@) && u@ == ops_apply(m0, undo@),
    ensures
        r.wf(),
        r@ == ops_undo(u@, undo@),
{
    let ghost m0 = choose|m0: Map<OutPointV, CoinV>|
        #[trigger] ops_wf(m0, undo@) && u@ == ops_apply(m0, undo@);
    proof {
        lemma_ops_round_trip(m0, undo@);
    }
    let mut work = u;
    let n = undo.ops.len();
    proof {
        assert(undo@.len() == undo.ops@.len());
        assert(undo@.subrange(0, n as int) =~= undo@);
    }
    let mut i: usize = n;
    while i > 0
        invariant
            i <= n,
            n == undo.ops@.len(),
            n == undo@.len(),
            ops_wf(m0, undo@),
            work.wf(),
            work@ == ops_apply(m0, undo@.subrange(0, i as int)),
        decreases i,
    {
        i = i - 1;
        proof {
            assert(undo@[i as int] == undo.ops@[i as int]@);
            lemma_ops_wf_at(m0, undo@, i as int);
            assert(undo@.subrange(0, i + 1) =~= undo@.subrange(0, i as int).push(
                undo@[i as int],
            ));
            lemma_ops_apply_concat(
                m0,
                undo@.subrange(0, i as int),
                seq![undo@[i as int]],
            );
            assert(undo@.subrange(0, i as int) + seq![undo@[i as int]] =~= undo@.subrange(
                0,
                i + 1,
            ));
            assert(ops_apply(m0, seq![undo@[i as int]].drop_first()) == ops_apply(
                m0,
                Seq::<UndoOpV>::empty(),
            )) by {
                assert(seq![undo@[i as int]].drop_first() =~= Seq::<UndoOpV>::empty());
            }
            assert(ops_apply(m0, undo@.subrange(0, i + 1)) == op_apply(
                ops_apply(m0, undo@.subrange(0, i as int)),
                undo@[i as int],
            )) by {
                let pre = ops_apply(m0, undo@.subrange(0, i as int));
                let one = seq![undo@[i as int]];
                assert(ops_apply(pre, one) == ops_apply(op_apply(pre, one[0]), one.drop_first()));
                assert(one.drop_first() =~= Seq::<UndoOpV>::empty());
                assert(ops_apply(op_apply(pre, one[0]), Seq::<UndoOpV>::empty()) == op_apply(
                    pre,
                    one[0],
                ));
            }
        }
        let ghost st = ops_apply(m0, undo@.subrange(0, i as int));
        match &undo.ops[i] {
            UndoOp::Created(op, _) => {
                let removed = work.remove(op);
                proof {
                    match undo@[i as int] {
                        UndoOpV::Created(k, c) => {
                            assert(!st.contains_key(k));
                            assert(work@ =~= st.insert(k, c).remove(k));
                            assert(st.insert(k, c).remove(k) =~= st);
                        },
                        UndoOpV::Spent(k, c) => {},
                    }
                }
            },
            UndoOp::Spent(op, coin) => {
                let inserted = work.insert(op.dup(), coin.dup());
                proof {
                    match undo@[i as int] {
                        UndoOpV::Spent(k, c) => {
                            assert(st.contains_key(k) && st[k] == c);
                            assert(work@ =~= st.remove(k).insert(k, c));
                            assert(st.remove(k).insert(k, c) =~= st);
                        },
                        UndoOpV::Created(k, c) => {},
                    }
                }
            },
        }
    }
    proof {
        assert(undo@.subrange(0, 0).len() == 0);
        assert(work@ == m0);
        assert(ops_undo(u@, undo@) == m0);
    }
    work
}

} // verus!
