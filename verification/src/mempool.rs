//! Mempool policy: the standardness gate, unconfirmed admission and the
//! replacement rules, decided on values with exact verdicts.

use vstd::prelude::*;
use crate::codec::{ser_tx_legacy, serialize_tx_legacy, txid_of, compute_txid, witnesses_view};
use crate::errors::InvalidKind;
use crate::script::{ScriptFlags, SigChecker};
use crate::txcheck::{check_tx_spec, check_transaction, tx_sigops, tx_sigops_capped};
use crate::types::{Coin, OutPoint, Transaction, TransactionV, Witness, MAX_MONEY};
use crate::utxo::UtxoSet;

verus! {

/// One admitted transaction with its admission facts.
pub struct MempoolEntry {
    pub txid: [u8; 32],
    pub tx: Transaction,
    pub fee: u64,
    pub size: u64,
}

/// The unconfirmed transaction set: writes go through one mutator.
pub struct Mempool {
    pub entries: Vec<MempoolEntry>,
}

impl Mempool {
    /// An empty pool.
    pub fn new() -> (r: Mempool)
        ensures
            r.entries@.len() == 0,
    {
        Mempool { entries: Vec::new() }
    }
}

/// Why a transaction was refused admission.
#[derive(Clone, Copy, PartialEq, Eq, Structural, Debug)]
pub enum RejectKind {
    /// Outside the standardness gate.
    NotStandard,
    /// Already in the pool.
    DuplicateTx,
    /// An input is in neither the UTXO set nor the pool.
    MissingInputs,
    /// An input spends an unconfirmed output; admission here resolves
    /// inputs against the confirmed set only.
    UnconfirmedParent,
    /// Consensus-invalid.
    Invalid(InvalidKind),
    /// Below the minimum relay feerate.
    LowFeerate,
    /// The incumbent does not signal replaceability.
    NotSignaling,
    /// The replacement does not pay enough over the incumbent.
    InsufficientFee,
    /// Replacing would evict too many dependents.
    TooManyConflicts,
}

/// An admission verdict.
#[derive(Clone, Copy, PartialEq, Eq, Structural, Debug)]
pub enum Admission {
    Accept,
    Reject(RejectKind),
}

/// Products of two 64-bit values stay within 128 bits.
proof fn lemma_mul_fits_u128(a: int, b: int)
    requires
        0 <= a < 0x1_0000_0000_0000_0000,
        0 <= b < 0x1_0000_0000_0000_0000,
    ensures
        a * b < 0x1_0000_0000_0000_0000_0000_0000_0000_0000,
{
    assert(a * b < 0x1_0000_0000_0000_0000_0000_0000_0000_0000) by (nonlinear_arith)
        requires
            0 <= a < 0x1_0000_0000_0000_0000,
            0 <= b < 0x1_0000_0000_0000_0000,
    ;
}

/// The standardness gate: version one or two, within the standard
/// weight, no dust output, and a modest signature-operation count.
pub open spec fn standard_tx_spec(t: TransactionV) -> bool {
    &&& (t.version == 1 || t.version == 2)
    &&& t.inputs.len() >= 1
    &&& t.outputs.len() >= 1
    &&& ser_tx_legacy(t).len() <= 100_000
    &&& (forall|i: int| 0 <= i < t.outputs.len() ==> (#[trigger] t.outputs[i]).value >= 546)
    &&& tx_sigops(t) <= 800
}

/// Tests the standardness gate.
pub fn is_standard_tx(t: &Transaction) -> (r: bool)
    ensures
        r == standard_tx_spec(t@),
{
    let ghost tv = t@;
    proof {
        assert(tv.inputs.len() == t.inputs@.len());
        assert(tv.outputs.len() == t.outputs@.len());
    }
    if !(t.version == 1 || t.version == 2) {
        return false;
    }
    if t.inputs.len() == 0 || t.outputs.len() == 0 {
        return false;
    }
    let ser = serialize_tx_legacy(t);
    if ser.len() > 100_000 {
        return false;
    }
    let nout = t.outputs.len();
    let mut i: usize = 0;
    while i < nout
        invariant
            i <= nout,
            tv == t@,
            nout == t.outputs@.len(),
            nout == tv.outputs.len(),
            forall|a: int| 0 <= a < i ==> (#[trigger] tv.outputs[a]).value >= 546,
        decreases nout - i,
    {
        proof {
            assert(tv.outputs[i as int] == t.outputs@[i as int]@);
        }
        if t.outputs[i].value < 546 {
            return false;
        }
        i = i + 1;
    }
    let sigops = tx_sigops_capped(t);
    if sigops > 800 {
        return false;
    }
    proof {
        assert(tx_sigops(tv) <= 800);
    }
    true
}

/// Whether the pool holds a transaction with this id.
pub open spec fn pool_contains(mp: Seq<MempoolEntry>, txid: Seq<u8>) -> bool {
    exists|i: int| 0 <= i < mp.len() && (#[trigger] mp[i]).txid@ == txid
}

/// One pool transaction's outputs laid over a map, from output `k` on:
/// an outpoint the map already holds, or an out-of-range value, or an
/// output list past the index range, changes nothing. Pool coins carry
/// height zero and no coinbase mark.
pub open spec fn with_entry_outputs(
    m: Map<crate::types::OutPointV, crate::types::CoinV>,
    e: MempoolEntry,
    k: int,
) -> Map<crate::types::OutPointV, crate::types::CoinV>
    decreases e.tx@.outputs.len() - k,
    when 0 <= k
{
    if e.tx@.outputs.len() > 0xffff_ffff || k >= e.tx@.outputs.len() {
        m
    } else {
        let op = crate::types::OutPointV { hash: e.txid@, index: k as u32 };
        let coin = crate::types::CoinV {
            value: e.tx@.outputs[k].value,
            script_pubkey: e.tx@.outputs[k].script_pubkey,
            height: 0,
            is_coinbase: false,
        };
        let m2 = if m.contains_key(op) || coin.value > MAX_MONEY {
            m
        } else {
            m.insert(op, coin)
        };
        with_entry_outputs(m2, e, k + 1)
    }
}

/// The confirmed set with every pool output laid over it, the
/// confirmed coin winning: what admission resolves inputs against.
pub open spec fn augmented_view(
    m: Map<crate::types::OutPointV, crate::types::CoinV>,
    mp: Seq<MempoolEntry>,
    i: int,
) -> Map<crate::types::OutPointV, crate::types::CoinV>
    decreases mp.len() - i,
    when 0 <= i
{
    if i >= mp.len() {
        m
    } else {
        augmented_view(with_entry_outputs(m, mp[i], 0), mp, i + 1)
    }
}

/// Builds the augmented set; agrees exactly with `augmented_view`.
pub fn augmented_utxo(u: &UtxoSet, mp: &Mempool) -> (r: UtxoSet)
    requires
        u.wf(),
    ensures
        r.wf(),
        r@ == augmented_view(u@, mp.entries@, 0),
{
    let mut work = u.snapshot();
    let ghost mpv = mp.entries@;
    let nmp = mp.entries.len();
    let mut i: usize = 0;
    while i < nmp
        invariant
            i <= nmp,
            mpv == mp.entries@,
            nmp == mpv.len(),
            work.wf(),
            augmented_view(work@, mpv, i as int) == augmented_view(u@, mpv, 0),
        decreases nmp - i,
    {
        let ghost ev = mpv[i as int];
        let e = &mp.entries[i];
        let nout = e.tx.outputs.len();
        proof {
            assert(ev.tx@.outputs.len() == e.tx.outputs@.len());
        }
        if (nout as u64) <= 0xffff_ffff {
            let ghost m_entry = work@;
            let mut k: usize = 0;
            proof {
                assert(with_entry_outputs(work@, ev, 0) == with_entry_outputs(m_entry, ev, 0));
            }
            while k < nout
                invariant
                    k <= nout,
                    mpv == mp.entries@,
                    nmp == mpv.len(),
                    i < nmp,
                    ev == mpv[i as int],
                    nout == mp.entries@[i as int].tx.outputs@.len(),
                    nout == ev.tx@.outputs.len(),
                    nout <= 0xffff_ffff,
                    work.wf(),
                    with_entry_outputs(work@, ev, k as int) == with_entry_outputs(m_entry, ev, 0),
                decreases nout - k,
            {
                let e2 = &mp.entries[i];
                let v = e2.tx.outputs[k].value;
                proof {
                    assert(ev.tx@.outputs[k as int] == e2.tx.outputs@[k as int]@);
                }
                if v <= MAX_MONEY {
                    let op = OutPoint { hash: e2.txid, index: k as u32 };
                    let coin = Coin {
                        value: v,
                        script_pubkey: crate::types::clone_bytes(&e2.tx.outputs[k].script_pubkey),
                        height: 0,
                        is_coinbase: false,
                    };
                    proof {
                        assert(op@ =~= (crate::types::OutPointV {
                            hash: ev.txid@,
                            index: k as u32,
                        }));
                        assert(coin@ =~= (crate::types::CoinV {
                            value: ev.tx@.outputs[k as int].value,
                            script_pubkey: ev.tx@.outputs[k as int].script_pubkey,
                            height: 0,
                            is_coinbase: false,
                        }));
                    }
                    let _ = work.insert(op, coin);
                }
                k = k + 1;
            }
            proof {
                assert(with_entry_outputs(work@, ev, nout as int) == work@);
            }
        } else {
            proof {
                assert(with_entry_outputs(work@, ev, 0) == work@);
            }
        }
        i = i + 1;
    }
    proof {
        assert(augmented_view(work@, mpv, nmp as int) == work@);
    }
    work
}

/// The decision on unconfirmed admission, from standardness, novelty,
/// input availability against the confirmed set with the pool's
/// outputs laid over it, consensus validity against that same view,
/// and the relay feerate floor, in that order.
pub open spec fn admit_spec<C: SigChecker>(
    t: TransactionV,
    ws: Seq<Seq<Seq<u8>>>,
    u: Map<crate::types::OutPointV, crate::types::CoinV>,
    mp: Seq<MempoolEntry>,
    height: int,
    min_relay_feerate: u64,
    flags: ScriptFlags,
    c: &C,
) -> Admission {
    if !standard_tx_spec(t) {
        Admission::Reject(RejectKind::NotStandard)
    } else if pool_contains(mp, txid_of(t)) {
        Admission::Reject(RejectKind::DuplicateTx)
    } else {
        let au = augmented_view(u, mp, 0);
        if exists|i: int|
            0 <= i < t.inputs.len() && !au.contains_key((#[trigger] t.inputs[i]).prevout) {
            Admission::Reject(RejectKind::MissingInputs)
        } else {
            match check_tx_spec(t, ws, au, height, flags, c) {
                Err(k) => Admission::Reject(RejectKind::Invalid(k)),
                Ok(fee) => {
                    if fee * 1000 < (min_relay_feerate as int) * ser_tx_legacy(t).len() {
                        Admission::Reject(RejectKind::LowFeerate)
                    } else {
                        Admission::Accept
                    }
                },
            }
        }
    }
}

/// Decides unconfirmed admission; agrees exactly with `admit_spec`.
#[verifier::rlimit(60)]
pub fn accept_to_memory_pool<C: SigChecker>(
    t: &Transaction,
    ws: &Vec<Witness>,
    u: &UtxoSet,
    mp: &Mempool,
    height: u32,
    min_relay_feerate: u64,
    flags: ScriptFlags,
    c: &C,
) -> (r: Admission)
    requires
        u.wf(),
    ensures
        r == admit_spec(
            t@,
            witnesses_view(ws@),
            u@,
            mp.entries@,
            height as int,
            min_relay_feerate,
            flags,
            c,
        ),
{
    let ghost tv = t@;
    let ghost mpv = mp.entries@;
    if !is_standard_tx(t) {
        return Admission::Reject(RejectKind::NotStandard);
    }
    let txid = compute_txid(t);
    let nmp = mp.entries.len();
    let mut i: usize = 0;
    while i < nmp
        invariant
            i <= nmp,
            tv == t@,
            mpv == mp.entries@,
            nmp == mpv.len(),
            standard_tx_spec(tv),
            txid@ == txid_of(tv),
            forall|a: int| 0 <= a < i ==> (#[trigger] mpv[a]).txid@ != txid_of(tv),
        decreases nmp - i,
    {
        if crate::types::bytes32_eq(&mp.entries[i].txid, &txid) {
            proof {
                assert(mpv[i as int].txid@ == txid_of(tv));
            }
            return Admission::Reject(RejectKind::DuplicateTx);
        }
        i = i + 1;
    }
    proof {
        assert(!pool_contains(mpv, txid_of(tv)));
    }
    let au = augmented_utxo(u, mp);
    let nin = t.inputs.len();
    proof {
        assert(tv.inputs.len() == t.inputs@.len());
    }
    let mut j: usize = 0;
    while j < nin
        invariant
            j <= nin,
            tv == t@,
            mpv == mp.entries@,
            u.wf(),
            au.wf(),
            au@ == augmented_view(u@, mpv, 0),
            standard_tx_spec(tv),
            !pool_contains(mpv, txid_of(tv)),
            nin == t.inputs@.len(),
            nin == tv.inputs.len(),
            forall|a: int| 0 <= a < j ==> au@.contains_key((#[trigger] tv.inputs[a]).prevout),
        decreases nin - j,
    {
        proof {
            assert(tv.inputs[j as int].prevout == t.inputs@[j as int]@.prevout);
        }
        match au.get(&t.inputs[j].prevout) {
            Some(_) => {},
            None => {
                return Admission::Reject(RejectKind::MissingInputs);
            },
        }
        j = j + 1;
    }
    let fee = match check_transaction(t, ws, &au, height, flags, c) {
        Err(k) => {
            return Admission::Reject(RejectKind::Invalid(k));
        },
        Ok(f) => f,
    };
    let ser = serialize_tx_legacy(t);
    let slen = ser.len();
    proof {
        assert(fee <= MAX_MONEY) by {
            crate::txcheck::lemma_sum_out_tail(tv.outputs, 0);
            assert(tv.outputs.subrange(0, 0).len() == 0);
            assert(crate::txcheck::sum_outputs(tv.outputs.subrange(0, 0)) == 0);
        }
        lemma_mul_fits_u128(min_relay_feerate as int, slen as int);
    }
    if (fee as u128) * 1000 < (min_relay_feerate as u128) * (slen as u128) {
        return Admission::Reject(RejectKind::LowFeerate);
    }
    Admission::Accept
}

/// Whether a transaction signals replaceability: some input sequence
/// strictly below the final-minus-one mark.
pub open spec fn signals_replaceability(t: TransactionV) -> bool {
    exists|i: int| 0 <= i < t.inputs.len() && (#[trigger] t.inputs[i]).sequence < 0xffff_fffeu32
}

/// Whether a pool entry spends an outpoint the new transaction spends.
pub open spec fn conflicts_with(e: MempoolEntry, t: TransactionV) -> bool {
    exists|i: int, j: int|
        0 <= i < e.tx@.inputs.len() && 0 <= j < t.inputs.len() && (
        #[trigger] e.tx@.inputs[i]).prevout == (#[trigger] t.inputs[j]).prevout
}

/// The summed fees of the entries conflicting with `t`, from index `i`.
pub open spec fn conflict_fees(mp: Seq<MempoolEntry>, t: TransactionV, i: int) -> int
    decreases mp.len() - i,
    when 0 <= i
{
    if i >= mp.len() {
        0
    } else {
        (if conflicts_with(mp[i], t) {
            mp[i].fee as int
        } else {
            0int
        }) + conflict_fees(mp, t, i + 1)
    }
}

/// Whether an entry spends an output of the named transaction.
pub open spec fn spends_from(e: MempoolEntry, txid: Seq<u8>) -> bool {
    exists|i: int| 0 <= i < e.tx@.inputs.len() && (#[trigger] e.tx@.inputs[i]).prevout.hash == txid
}

/// Whether an entry would be evicted by replacing `t`'s conflicts: it
/// conflicts itself, or directly spends a conflicting entry's output.
pub open spec fn evicted_by(mp: Seq<MempoolEntry>, t: TransactionV, e: MempoolEntry) -> bool {
    conflicts_with(e, t) || (exists|i: int|
        0 <= i < mp.len() && conflicts_with(#[trigger] mp[i], t) && spends_from(e, mp[i].txid@))
}

/// How many entries replacing `t`'s conflicts would evict, from `j`.
pub open spec fn count_evictions(mp: Seq<MempoolEntry>, t: TransactionV, j: int) -> int
    decreases mp.len() - j,
    when 0 <= j
{
    if j >= mp.len() {
        0
    } else {
        (if evicted_by(mp, t, mp[j]) {
            1int
        } else {
            0int
        }) + count_evictions(mp, t, j + 1)
    }
}

/// Whether some outpoint of `t` is also spent by a conflicting entry:
/// the replacement rule lets an unconfirmed input stand only when a
/// conflict already spent it.
pub open spec fn input_among_conflicts(
    mp: Seq<MempoolEntry>,
    t: TransactionV,
    op: crate::types::OutPointV,
) -> bool {
    exists|i: int, k: int|
        0 <= i < mp.len() && conflicts_with(#[trigger] mp[i], t) && 0 <= k < mp[
            i
        ].tx@.inputs.len() && (#[trigger] mp[i].tx@.inputs[k]).prevout == op
}

/// The decision on a replacement against every conflicting pool entry.
/// Each conflict must signal replaceability; the replacement must pay
/// strictly more than the conflicts together and at least the relay
/// floor for its own size on top; its unconfirmed inputs must already
/// be spent by a conflict; and the eviction set is bounded. With no
/// conflict there is nothing to replace and the claim is accepted.
pub open spec fn replacement_spec(
    new_tx: TransactionV,
    new_fee: u64,
    u: Map<crate::types::OutPointV, crate::types::CoinV>,
    mp: Seq<MempoolEntry>,
    min_relay_feerate: u64,
) -> Admission {
    if !(exists|i: int| 0 <= i < mp.len() && conflicts_with(#[trigger] mp[i], new_tx)) {
        Admission::Accept
    } else if exists|i: int|
        0 <= i < mp.len() && conflicts_with(#[trigger] mp[i], new_tx)
        && !signals_replaceability(mp[i].tx@) {
        Admission::Reject(RejectKind::NotSignaling)
    } else if !(new_fee > conflict_fees(mp, new_tx, 0) && (new_fee - conflict_fees(
        mp,
        new_tx,
        0,
    )) * 1000 >= (min_relay_feerate as int) * ser_tx_legacy(new_tx).len()) {
        Admission::Reject(RejectKind::InsufficientFee)
    } else if exists|j: int|
        0 <= j < new_tx.inputs.len() && !u.contains_key((#[trigger] new_tx.inputs[j]).prevout)
        && !input_among_conflicts(mp, new_tx, new_tx.inputs[j].prevout) {
        Admission::Reject(RejectKind::UnconfirmedParent)
    } else if count_evictions(mp, new_tx, 0) > 100 {
        Admission::Reject(RejectKind::TooManyConflicts)
    } else {
        Admission::Accept
    }
}

/// Tests whether an entry conflicts with the new transaction.
fn conflicts_with_exec(e: &MempoolEntry, t: &Transaction) -> (r: bool)
    ensures
        r == conflicts_with(*e, t@),
{
    let ghost ev = e.tx@;
    let ghost tv = t@;
    let ne = e.tx.inputs.len();
    let nt = t.inputs.len();
    proof {
        assert(ev.inputs.len() == e.tx.inputs@.len());
        assert(tv.inputs.len() == t.inputs@.len());
    }
    let mut i: usize = 0;
    while i < ne
        invariant
            i <= ne,
            ev == e.tx@,
            tv == t@,
            ne == e.tx.inputs@.len(),
            ne == ev.inputs.len(),
            nt == t.inputs@.len(),
            nt == tv.inputs.len(),
            forall|a: int, b: int|
                0 <= a < i && 0 <= b < nt ==> (#[trigger] ev.inputs[a]).prevout != (
                #[trigger] tv.inputs[b]).prevout,
        decreases ne - i,
    {
        let mut j: usize = 0;
        while j < nt
            invariant
                i < ne,
                j <= nt,
                ev == e.tx@,
                tv == t@,
                ne == e.tx.inputs@.len(),
                ne == ev.inputs.len(),
                nt == t.inputs@.len(),
                nt == tv.inputs.len(),
                forall|b: int|
                    0 <= b < j ==> (#[trigger] tv.inputs[b]).prevout != ev.inputs[i as int].prevout,
            decreases nt - j,
        {
            proof {
                assert(ev.inputs[i as int].prevout == e.tx.inputs@[i as int]@.prevout);
                assert(tv.inputs[j as int].prevout == t.inputs@[j as int]@.prevout);
            }
            let cmp = crate::types::outpoint_cmp(&e.tx.inputs[i].prevout, &t.inputs[j].prevout);
            if cmp == 0 {
                return true;
            }
            proof {
                if cmp == -1 {
                    crate::types::lemma_outpoint_lt_asym(
                        ev.inputs[i as int].prevout,
                        tv.inputs[j as int].prevout,
                    );
                } else {
                    crate::types::lemma_outpoint_lt_asym(
                        tv.inputs[j as int].prevout,
                        ev.inputs[i as int].prevout,
                    );
                }
            }
            j = j + 1;
        }
        i = i + 1;
    }
    false
}

/// Tests whether an entry spends an output of the named transaction.
fn spends_from_exec(e: &MempoolEntry, txid: &[u8; 32]) -> (r: bool)
    ensures
        r == spends_from(*e, txid@),
{
    let ghost ev = e.tx@;
    let n = e.tx.inputs.len();
    proof {
        assert(ev.inputs.len() == e.tx.inputs@.len());
    }
    let mut i: usize = 0;
    while i < n
        invariant
            i <= n,
            ev == e.tx@,
            n == e.tx.inputs@.len(),
            n == ev.inputs.len(),
            forall|a: int| 0 <= a < i ==> (#[trigger] ev.inputs[a]).prevout.hash != txid@,
        decreases n - i,
    {
        proof {
            assert(ev.inputs[i as int].prevout == e.tx.inputs@[i as int]@.prevout);
        }
        if crate::types::bytes32_eq(&e.tx.inputs[i].prevout.hash, txid) {
            return true;
        }
        i = i + 1;
    }
    false
}

/// Tests whether replacing would evict an entry.
fn evicted_by_exec(mp: &Mempool, t: &Transaction, e: &MempoolEntry) -> (r: bool)
    ensures
        r == evicted_by(mp.entries@, t@, *e),
{
    let ghost mpv = mp.entries@;
    if conflicts_with_exec(e, t) {
        return true;
    }
    let nmp = mp.entries.len();
    let mut i: usize = 0;
    while i < nmp
        invariant
            i <= nmp,
            mpv == mp.entries@,
            nmp == mpv.len(),
            forall|a: int|
                0 <= a < i ==> !(conflicts_with(#[trigger] mpv[a], t@) && spends_from(
                    *e,
                    mpv[a].txid@,
                )),
        decreases nmp - i,
    {
        if conflicts_with_exec(&mp.entries[i], t) && spends_from_exec(e, &mp.entries[i].txid) {
            return true;
        }
        i = i + 1;
    }
    false
}

proof fn lemma_conflict_fees_snoc(mp: Seq<MempoolEntry>, t: TransactionV, i: int)
    requires
        0 <= i < mp.len(),
    ensures
        conflict_fees(mp, t, i) == (if conflicts_with(mp[i], t) {
            mp[i].fee as int
        } else {
            0int
        }) + conflict_fees(mp, t, i + 1),
        conflict_fees(mp, t, i + 1) >= 0,
    decreases mp.len() - i,
{
    lemma_conflict_fees_nonneg(mp, t, i + 1);
}

proof fn lemma_conflict_fees_nonneg(mp: Seq<MempoolEntry>, t: TransactionV, i: int)
    requires
        0 <= i,
    ensures
        conflict_fees(mp, t, i) >= 0,
    decreases mp.len() - i,
{
    if i < mp.len() {
        lemma_conflict_fees_nonneg(mp, t, i + 1);
    }
}

/// Decides a replacement; agrees exactly with `replacement_spec`.
#[verifier::rlimit(60)]
pub fn replacement_checks(
    new_tx: &Transaction,
    new_fee: u64,
    u: &UtxoSet,
    mp: &Mempool,
    min_relay_feerate: u64,
) -> (r: Admission)
    requires
        u.wf(),
    ensures
        r == replacement_spec(new_tx@, new_fee, u@, mp.entries@, min_relay_feerate),
{
    let ghost tv = new_tx@;
    let ghost mpv = mp.entries@;
    let nmp = mp.entries.len();
    // find the conflicts; each must signal; sum their fees
    let mut any_conflict = false;
    let mut all_signal = true;
    let mut fees: u128 = 0;
    let mut i: usize = 0;
    while i < nmp
        invariant
            i <= nmp,
            tv == new_tx@,
            mpv == mp.entries@,
            nmp == mpv.len(),
            any_conflict == (exists|a: int|
                0 <= a < i && conflicts_with(#[trigger] mpv[a], tv)),
            all_signal == !(exists|a: int|
                0 <= a < i && conflicts_with(#[trigger] mpv[a], tv) && !signals_replaceability(
                    mpv[a].tx@,
                )),
            fees <= (i as int) * 0xffff_ffff_ffff_ffff,
            fees as int == conflict_fees(mpv, tv, 0) - conflict_fees(mpv, tv, i as int),
        decreases nmp - i,
    {
        proof {
            lemma_conflict_fees_snoc(mpv, tv, i as int);
        }
        let e = &mp.entries[i];
        if conflicts_with_exec(e, new_tx) {
            any_conflict = true;
            // signaling on the conflicting entry itself
            let ghost incv = mpv[i as int].tx@;
            let ni = e.tx.inputs.len();
            proof {
                assert(incv.inputs.len() == e.tx.inputs@.len());
            }
            let mut signals = false;
            let mut k: usize = 0;
            while k < ni
                invariant
                    k <= ni,
                    incv == mp.entries@[i as int].tx@,
                    i < nmp,
                    nmp == mp.entries@.len(),
                    ni == mp.entries@[i as int].tx.inputs@.len(),
                    ni == incv.inputs.len(),
                    signals == (exists|a: int|
                        0 <= a < k && (#[trigger] incv.inputs[a]).sequence < 0xffff_fffeu32),
                decreases ni - k,
            {
                proof {
                    assert(incv.inputs[k as int].sequence == mp.entries@[i as int].tx.inputs@[
                        k as int]@.sequence);
                }
                if mp.entries[i].tx.inputs[k].sequence < 0xffff_fffe {
                    signals = true;
                }
                k = k + 1;
            }
            if !signals {
                all_signal = false;
            }
            fees = fees + (e.fee as u128);
        }
        i = i + 1;
    }
    proof {
        assert(conflict_fees(mpv, tv, nmp as int) == 0);
        lemma_conflict_fees_nonneg(mpv, tv, 0);
    }
    if !any_conflict {
        return Admission::Accept;
    }
    if !all_signal {
        return Admission::Reject(RejectKind::NotSignaling);
    }
    // the fee rules against the whole conflict set
    let ser = serialize_tx_legacy(new_tx);
    let slen = ser.len();
    proof {
        lemma_mul_fits_u128(min_relay_feerate as int, slen as int);
    }
    let fee_ok = (new_fee as u128) > fees && ((new_fee as u128) - fees) * 1000 >= (
    min_relay_feerate as u128) * (slen as u128);
    if !fee_ok {
        return Admission::Reject(RejectKind::InsufficientFee);
    }
    // unconfirmed inputs must already be spent by a conflict
    let nin = new_tx.inputs.len();
    proof {
        assert(tv.inputs.len() == new_tx.inputs@.len());
    }
    let mut j: usize = 0;
    while j < nin
        invariant
            j <= nin,
            tv == new_tx@,
            mpv == mp.entries@,
            nmp == mpv.len(),
            u.wf(),
            exists|a: int| 0 <= a < mpv.len() && conflicts_with(#[trigger] mpv[a], tv),
            forall|a: int|
                0 <= a < mpv.len() ==> (conflicts_with(#[trigger] mpv[a], tv)
                    ==> signals_replaceability(mpv[a].tx@)),
            new_fee > conflict_fees(mpv, tv, 0),
            (new_fee - conflict_fees(mpv, tv, 0)) * 1000 >= (min_relay_feerate as int)
                * ser_tx_legacy(tv).len(),
            nin == new_tx.inputs@.len(),
            nin == tv.inputs.len(),
            forall|a: int|
                0 <= a < j ==> (u@.contains_key((#[trigger] tv.inputs[a]).prevout)
                    || input_among_conflicts(mpv, tv, tv.inputs[a].prevout)),
        decreases nin - j,
    {
        proof {
            assert(tv.inputs[j as int].prevout == new_tx.inputs@[j as int]@.prevout);
        }
        let confirmed = match u.get(&new_tx.inputs[j].prevout) {
            Some(_) => true,
            None => false,
        };
        if !confirmed {
            let mut covered = false;
            let mut a: usize = 0;
            while a < nmp
                invariant
                    a <= nmp,
                    tv == new_tx@,
                    mpv == mp.entries@,
                    nmp == mpv.len(),
                    j < nin,
                    nin == tv.inputs.len(),
                    nin == new_tx.inputs@.len(),
                    covered ==> input_among_conflicts(mpv, tv, tv.inputs[j as int].prevout),
                    !covered ==> forall|b: int|
                        0 <= b < a ==> !(conflicts_with(#[trigger] mpv[b], tv) && (exists|k: int|
                            0 <= k < mpv[b].tx@.inputs.len() && (
                            #[trigger] mpv[b].tx@.inputs[k]).prevout == tv.inputs[
                                j as int
                            ].prevout)),
                decreases nmp - a,
            {
                if !covered {
                    let e = &mp.entries[a];
                    if conflicts_with_exec(e, new_tx) {
                        let ghost ev = mpv[a as int].tx@;
                        let ne = e.tx.inputs.len();
                        proof {
                            assert(ev.inputs.len() == e.tx.inputs@.len());
                        }
                        let mut k: usize = 0;
                        while k < ne && !covered
                            invariant
                                k <= ne,
                                a < nmp,
                                j < nin,
                                tv == new_tx@,
                                mpv == mp.entries@,
                                nmp == mpv.len(),
                                nin == tv.inputs.len(),
                                nin == new_tx.inputs@.len(),
                                ev == mpv[a as int].tx@,
                                ne == mp.entries@[a as int].tx.inputs@.len(),
                                ne == ev.inputs.len(),
                                conflicts_with(mpv[a as int], tv),
                                covered ==> input_among_conflicts(
                                    mpv,
                                    tv,
                                    tv.inputs[j as int].prevout,
                                ),
                                !covered ==> forall|b: int|
                                    0 <= b < k ==> (#[trigger] ev.inputs[b]).prevout != tv.inputs[
                                        j as int
                                    ].prevout,
                            decreases ne - k + (if covered {
                                0int
                            } else {
                                1int
                            }),
                        {
                            proof {
                                assert(ev.inputs[k as int].prevout == mp.entries@[a as int].tx
                                    .inputs@[k as int]@.prevout);
                            }
                            let cmp = crate::types::outpoint_cmp(
                                &mp.entries[a].tx.inputs[k].prevout,
                                &new_tx.inputs[j].prevout,
                            );
                            if cmp == 0 {
                                covered = true;
                                proof {
                                    assert(ev.inputs[k as int].prevout == tv.inputs[
                                        j as int
                                    ].prevout);
                                    assert(input_among_conflicts(
                                        mpv,
                                        tv,
                                        tv.inputs[j as int].prevout,
                                    ));
                                }
                            } else {
                                proof {
                                    if cmp == -1 {
                                        crate::types::lemma_outpoint_lt_asym(
                                            ev.inputs[k as int].prevout,
                                            tv.inputs[j as int].prevout,
                                        );
                                    } else {
                                        crate::types::lemma_outpoint_lt_asym(
                                            tv.inputs[j as int].prevout,
                                            ev.inputs[k as int].prevout,
                                        );
                                    }
                                }
                                k = k + 1;
                            }
                        }
                    }
                }
                a = a + 1;
            }
            if !covered {
                return Admission::Reject(RejectKind::UnconfirmedParent);
            }
        }
        j = j + 1;
    }
    // bounded eviction
    let mut evictions: u64 = 0;
    let mut b: usize = 0;
    proof {
        assert(count_evictions(mpv, tv, 0) - count_evictions(mpv, tv, 0) == 0);
    }
    while b < nmp
        invariant
            b <= nmp,
            tv == new_tx@,
            mpv == mp.entries@,
            nmp == mpv.len(),
            u.wf(),
            exists|a: int| 0 <= a < mpv.len() && conflicts_with(#[trigger] mpv[a], tv),
            forall|a: int|
                0 <= a < mpv.len() ==> (conflicts_with(#[trigger] mpv[a], tv)
                    ==> signals_replaceability(mpv[a].tx@)),
            new_fee > conflict_fees(mpv, tv, 0),
            (new_fee - conflict_fees(mpv, tv, 0)) * 1000 >= (min_relay_feerate as int)
                * ser_tx_legacy(tv).len(),
            forall|a: int|
                0 <= a < tv.inputs.len() ==> (u@.contains_key((#[trigger] tv.inputs[a]).prevout)
                    || input_among_conflicts(mpv, tv, tv.inputs[a].prevout)),
            evictions <= b,
            evictions as int == count_evictions(mpv, tv, 0) - count_evictions(mpv, tv, b as int),
        decreases nmp - b,
    {
        proof {
            lemma_count_evictions_snoc(mpv, tv, b as int);
        }
        if evicted_by_exec(mp, new_tx, &mp.entries[b]) {
            evictions = evictions + 1;
        }
        b = b + 1;
    }
    proof {
        assert(count_evictions(mpv, tv, nmp as int) == 0);
    }
    if evictions > 100 {
        return Admission::Reject(RejectKind::TooManyConflicts);
    }
    Admission::Accept
}

proof fn lemma_count_evictions_snoc(mp: Seq<MempoolEntry>, t: TransactionV, i: int)
    requires
        0 <= i < mp.len(),
    ensures
        count_evictions(mp, t, i) == (if evicted_by(mp, t, mp[i]) {
            1int
        } else {
            0int
        }) + count_evictions(mp, t, i + 1),
{
}

} // verus!
