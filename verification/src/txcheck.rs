//! The transaction validator: structure, input existence, coinbase
//! maturity, value balance, signature-operation budget, script checks
//! and finality, in a fixed order with an exact verdict.

use vstd::prelude::*;
use crate::errors::InvalidKind;
use crate::script::{
    verify_script, verify_script_spec, ScriptFlags, ScriptError, SigChecker, stack_view,
};
use crate::types::{
    Coin, CoinV, OutPoint, OutPointV, Transaction, TransactionV, TxInV, TxOutV, Witness,
    outpoint_cmp, MAX_MONEY,
};
use crate::codec::witnesses_view;
use crate::utxo::UtxoSet;

verus! {

/// Whether two inputs spend the same outpoint.
pub open spec fn has_duplicate_input(t: TransactionV) -> bool {
    exists|i: int, j: int|
        0 <= i < j < t.inputs.len() && (#[trigger] t.inputs[i]).prevout == (
        #[trigger] t.inputs[j]).prevout
}

/// Whether every spent outpoint is in the UTXO set.
pub open spec fn inputs_available(inputs: Seq<TxInV>, u: Map<OutPointV, CoinV>) -> bool {
    forall|i: int| 0 <= i < inputs.len() ==> u.contains_key((#[trigger] inputs[i]).prevout)
}

/// Whether every spent coinbase coin has matured: created at least 100
/// blocks before the spending height.
pub open spec fn coinbases_mature(
    inputs: Seq<TxInV>,
    u: Map<OutPointV, CoinV>,
    height: int,
) -> bool {
    forall|i: int|
        0 <= i < inputs.len() ==> {
            let coin = u[(#[trigger] inputs[i]).prevout];
            coin.is_coinbase ==> coin.height + 100 <= height
        }
}

/// The sum of a transaction's output values.
pub open spec fn sum_outputs(s: Seq<TxOutV>) -> int
    decreases s.len(),
{
    if s.len() == 0 {
        0
    } else {
        s[0].value + sum_outputs(s.drop_first())
    }
}

/// The sum of the values a transaction's inputs spend.
pub open spec fn sum_inputs(s: Seq<TxInV>, u: Map<OutPointV, CoinV>) -> int
    decreases s.len(),
{
    if s.len() == 0 {
        0
    } else {
        u[s[0].prevout].value + sum_inputs(s.drop_first(), u)
    }
}

/// Whether each output and the running total stay in the money range.
pub open spec fn outputs_in_range(s: Seq<TxOutV>) -> bool {
    (forall|i: int| 0 <= i < s.len() ==> (#[trigger] s[i]).value <= MAX_MONEY) && sum_outputs(s)
        <= MAX_MONEY
}

/// Statically counted signature operations in a script.
pub open spec fn sigops_from(s: Seq<u8>, pos: int) -> int
    decreases s.len() - pos,
    when 0 <= pos
    via sigops_from_dec
{
    if pos >= s.len() {
        0
    } else {
        let op = s[pos];
        if 1 <= op <= 0x4b {
            if pos + 1 + op <= s.len() {
                sigops_from(s, pos + 1 + op)
            } else {
                0
            }
        } else if op == 0x4c {
            if pos + 2 <= s.len() && pos + 2 + s[pos + 1] <= s.len() {
                sigops_from(s, pos + 2 + s[pos + 1])
            } else {
                0
            }
        } else if op == 0x4d {
            if pos + 3 <= s.len() && pos + 3 + crate::bytes::le_to_int(
                s.subrange(pos + 1, pos + 3),
            ) <= s.len() {
                sigops_from(s, pos + 3 + crate::bytes::le_to_int(s.subrange(pos + 1, pos + 3)))
            } else {
                0
            }
        } else if op == 0x4e {
            if pos + 5 <= s.len() && pos + 5 + crate::bytes::le_to_int(
                s.subrange(pos + 1, pos + 5),
            ) <= s.len() {
                sigops_from(s, pos + 5 + crate::bytes::le_to_int(s.subrange(pos + 1, pos + 5)))
            } else {
                0
            }
        } else if op == 0xac || op == 0xad {
            1 + sigops_from(s, pos + 1)
        } else if op == 0xae || op == 0xaf {
            20 + sigops_from(s, pos + 1)
        } else {
            sigops_from(s, pos + 1)
        }
    }
}

#[via_fn]
proof fn sigops_from_dec(s: Seq<u8>, pos: int) {
    if 0 <= pos < s.len() {
        let op = s[pos];
        if op == 0x4d && pos + 3 <= s.len() {
            crate::bytes::lemma_le_to_int_bound(s.subrange(pos + 1, pos + 3));
        }
        if op == 0x4e && pos + 5 <= s.len() {
            crate::bytes::lemma_le_to_int_bound(s.subrange(pos + 1, pos + 5));
        }
    }
}

/// Sigops never count negative.
pub proof fn lemma_sigops_nonneg(s: Seq<u8>, pos: int)
    requires
        0 <= pos,
    ensures
        sigops_from(s, pos) >= 0,
    decreases s.len() - pos,
{
    if pos < s.len() {
        let op = s[pos];
        if 1 <= op <= 0x4b {
            if pos + 1 + op <= s.len() {
                lemma_sigops_nonneg(s, pos + 1 + op);
            }
        } else if op == 0x4c {
            if pos + 2 <= s.len() && pos + 2 + s[pos + 1] <= s.len() {
                lemma_sigops_nonneg(s, pos + 2 + s[pos + 1]);
            }
        } else if op == 0x4d {
            if pos + 3 <= s.len() && pos + 3 + crate::bytes::le_to_int(
                s.subrange(pos + 1, pos + 3),
            ) <= s.len() {
                crate::bytes::lemma_le_to_int_bound(s.subrange(pos + 1, pos + 3));
                lemma_sigops_nonneg(
                    s,
                    pos + 3 + crate::bytes::le_to_int(s.subrange(pos + 1, pos + 3)),
                );
            }
        } else if op == 0x4e {
            if pos + 5 <= s.len() && pos + 5 + crate::bytes::le_to_int(
                s.subrange(pos + 1, pos + 5),
            ) <= s.len() {
                crate::bytes::lemma_le_to_int_bound(s.subrange(pos + 1, pos + 5));
                lemma_sigops_nonneg(
                    s,
                    pos + 5 + crate::bytes::le_to_int(s.subrange(pos + 1, pos + 5)),
                );
            }
        } else {
            lemma_sigops_nonneg(s, pos + 1);
        }
    }
}

/// The input-script sigop sum never counts negative.
pub proof fn lemma_sigops_seq_in_nonneg(s: Seq<TxInV>)
    ensures
        sigops_seq_in(s) >= 0,
    decreases s.len(),
{
    if s.len() > 0 {
        lemma_sigops_nonneg(s[0].script_sig, 0);
        lemma_sigops_seq_in_nonneg(s.drop_first());
    }
}

/// The output-script sigop sum never counts negative.
pub proof fn lemma_sigops_seq_out_nonneg(s: Seq<TxOutV>)
    ensures
        sigops_seq_out(s) >= 0,
    decreases s.len(),
{
    if s.len() > 0 {
        lemma_sigops_nonneg(s[0].script_pubkey, 0);
        lemma_sigops_seq_out_nonneg(s.drop_first());
    }
}

/// The statically counted sigops of a whole transaction: its input
/// scripts and its output scripts.
pub open spec fn tx_sigops(t: TransactionV) -> int {
    sigops_seq_in(t.inputs) + sigops_seq_out(t.outputs)
}

pub open spec fn sigops_seq_in(s: Seq<TxInV>) -> int
    decreases s.len(),
{
    if s.len() == 0 {
        0
    } else {
        sigops_from(s[0].script_sig, 0) + sigops_seq_in(s.drop_first())
    }
}

pub open spec fn sigops_seq_out(s: Seq<TxOutV>) -> int
    decreases s.len(),
{
    if s.len() == 0 {
        0
    } else {
        sigops_from(s[0].script_pubkey, 0) + sigops_seq_out(s.drop_first())
    }
}

/// Whether a transaction is final at a height: a zero lock time, a
/// height lock already passed, or every input opted out of locking.
pub open spec fn is_final_tx(t: TransactionV, height: int) -> bool {
    ||| t.lock_time == 0
    ||| (t.lock_time < 500_000_000 && (t.lock_time as int) < height)
    ||| (forall|i: int| 0 <= i < t.inputs.len() ==> (#[trigger] t.inputs[i]).sequence == 0xffff_ffffu32)
}

/// The witness stack for input `i`: the carried one, or empty past the
/// end of the witness list.
pub open spec fn witness_at(ws: Seq<Seq<Seq<u8>>>, i: int) -> Seq<Seq<u8>> {
    if 0 <= i < ws.len() {
        ws[i]
    } else {
        Seq::empty()
    }
}

/// The first script failure among a transaction's inputs, scanned in
/// order from input `i`.
pub open spec fn first_script_err<C: SigChecker>(
    t: TransactionV,
    ws: Seq<Seq<Seq<u8>>>,
    u: Map<OutPointV, CoinV>,
    flags: ScriptFlags,
    c: &C,
    i: int,
) -> Option<ScriptError>
    decreases t.inputs.len() - i,
    when i >= 0
{
    if i >= t.inputs.len() {
        None
    } else {
        match verify_script_spec(
            t.inputs[i].script_sig,
            u[t.inputs[i].prevout].script_pubkey,
            witness_at(ws, i),
            flags,
            c,
        ) {
            Err(e) => Some(e),
            Ok(_) => first_script_err(t, ws, u, flags, c, i + 1),
        }
    }
}

/// The per-transaction signature-operation budget.
pub const MAX_TX_SIGOPS: u64 = 4000;

/// The verdict of the transaction validator: the fee on success, or the
/// first rule violated, in the fixed order structure, duplicate inputs,
/// input existence, maturity, output range, input range, balance,
/// sigops, scripts, finality.
pub open spec fn check_tx_spec<C: SigChecker>(
    t: TransactionV,
    ws: Seq<Seq<Seq<u8>>>,
    u: Map<OutPointV, CoinV>,
    height: int,
    flags: ScriptFlags,
    c: &C,
) -> Result<int, InvalidKind> {
    if t.inputs.len() == 0 || t.outputs.len() == 0 {
        Err(InvalidKind::BadStructure)
    } else if has_duplicate_input(t) {
        Err(InvalidKind::DuplicateInput)
    } else if !inputs_available(t.inputs, u) {
        Err(InvalidKind::MissingUtxo)
    } else if !coinbases_mature(t.inputs, u, height) {
        Err(InvalidKind::CoinbaseImmaturity)
    } else if !outputs_in_range(t.outputs) {
        Err(InvalidKind::ValueOutOfRange)
    } else if sum_inputs(t.inputs, u) > MAX_MONEY {
        Err(InvalidKind::ValueOutOfRange)
    } else if sum_outputs(t.outputs) > sum_inputs(t.inputs, u) {
        Err(InvalidKind::FeeNegative)
    } else if tx_sigops(t) > MAX_TX_SIGOPS {
        Err(InvalidKind::SigopLimit)
    } else {
        match first_script_err(t, ws, u, flags, c, 0) {
            Some(e) => Err(InvalidKind::BadScript(e)),
            None => if !is_final_tx(t, height) {
                Err(InvalidKind::NonFinal)
            } else {
                Ok(sum_inputs(t.inputs, u) - sum_outputs(t.outputs))
            },
        }
    }
}

/// Counts the sigops of one script, stopping above the cap; the exact
/// count when at most 100000, and 100001 exactly when above.
fn count_sigops(s: &Vec<u8>) -> (r: u64)
    ensures
        r as int == sigops_from(s@, 0) || (r == 100001 && sigops_from(s@, 0) > 100000),
        r <= 100001,
        sigops_from(s@, 0) > 100000 ==> r == 100001,
{
    let n = s.len();
    let mut pos: usize = 0;
    let mut count: u64 = 0;
    while pos < n
        invariant
            pos <= n,
            n == s@.len(),
            count <= 100000,
            sigops_from(s@, 0) == count + sigops_from(s@, pos as int),
        decreases n - pos,
    {
        let op = s[pos];
        let ghost pre = pos as int;
        if 1 <= op && op <= 0x4b {
            let l = op as usize;
            if l <= n - pos - 1 {
                pos = pos + 1 + l;
            } else {
                proof {
                    assert(sigops_from(s@, pre) == 0);
                }
                return count;
            }
        } else if op == 0x4c {
            if n - pos >= 2 && (s[pos + 1] as usize) <= n - pos - 2 {
                pos = pos + 2 + s[pos + 1] as usize;
            } else {
                proof {
                    assert(sigops_from(s@, pre) == 0);
                }
                return count;
            }
        } else if op == 0x4d {
            if n - pos >= 3 {
                let l = crate::bytes::read_u16_le(s, pos + 1) as usize;
                if l <= n - pos - 3 {
                    pos = pos + 3 + l;
                } else {
                    proof {
                        assert(sigops_from(s@, pre) == 0);
                    }
                    return count;
                }
            } else {
                proof {
                    assert(sigops_from(s@, pre) == 0);
                }
                return count;
            }
        } else if op == 0x4e {
            if n - pos >= 5 {
                let l64 = crate::bytes::read_u32_le(s, pos + 1) as u64;
                if l64 <= (n - pos - 5) as u64 {
                    proof {
                        crate::bytes::lemma_le_to_int_bound(s@.subrange(pre + 1, pre + 5));
                        crate::bytes::lemma_pow256_values();
                    }
                    pos = pos + 5 + l64 as usize;
                } else {
                    proof {
                        assert(sigops_from(s@, pre) == 0);
                    }
                    return count;
                }
            } else {
                proof {
                    assert(sigops_from(s@, pre) == 0);
                }
                return count;
            }
        } else if op == 0xac || op == 0xad {
            count = count + 1;
            pos = pos + 1;
        } else if op == 0xae || op == 0xaf {
            count = count + 20;
            pos = pos + 1;
        } else {
            pos = pos + 1;
        }
        if count > 100000 {
            proof {
                lemma_sigops_nonneg(s@, pos as int);
            }
            return 100001;
        }
    }
    count
}

/// Counts a whole transaction's sigops with the same cap.
pub fn tx_sigops_capped(t: &Transaction) -> (r: u64)
    ensures
        r as int == tx_sigops(t@) || (r == 100001 && tx_sigops(t@) > 100000),
        r <= 100001,
        tx_sigops(t@) > 100000 ==> r == 100001,
{
    let mut total: u64 = 0;
    let ghost tv = t@;
    let mut i: usize = 0;
    let mut over = false;
    while i < t.inputs.len()
        invariant
            i <= t.inputs@.len(),
            tv == t@,
            tv.inputs.len() == t.inputs@.len(),
            total <= 100000,
            !over ==> total == sigops_seq_in(tv.inputs.subrange(0, i as int)),
            over ==> sigops_seq_in(tv.inputs.subrange(0, i as int)) > 100000,
            sigops_seq_in(tv.inputs.subrange(0, i as int)) >= 0,
        decreases t.inputs@.len() - i,
    {
        let c = count_sigops(&t.inputs[i].script_sig);
        proof {
            assert(tv.inputs[i as int].script_sig == t.inputs@[i as int]@.script_sig);
            lemma_sigops_in_snoc(tv.inputs, i as int);
            lemma_sigops_nonneg(tv.inputs[i as int].script_sig, 0);
        }
        if c > 100000 - total {
            over = true;
            total = 100000;
        } else {
            total = total + c;
            if c == 100001 {
                over = true;
                total = 100000;
            }
        }
        if over {
            proof {
                lemma_sigops_in_tail_nonneg(tv.inputs, i + 1);
            }
        }
        i = i + 1;
    }
    proof {
        assert(tv.inputs.subrange(0, tv.inputs.len() as int) =~= tv.inputs);
    }
    let mut j: usize = 0;
    let ghost in_total = sigops_seq_in(tv.inputs);
    let ghost total_after_inputs = total as int;
    let ghost over_after_inputs = over;
    while j < t.outputs.len()
        invariant
            j <= t.outputs@.len(),
            tv == t@,
            tv.outputs.len() == t.outputs@.len(),
            in_total == sigops_seq_in(tv.inputs),
            in_total >= 0,
            total <= 100000,
            !over ==> total == in_total + sigops_seq_out(tv.outputs.subrange(0, j as int)),
            over ==> in_total + sigops_seq_out(tv.outputs.subrange(0, j as int)) > 100000,
            sigops_seq_out(tv.outputs.subrange(0, j as int)) >= 0,
        decreases t.outputs@.len() - j,
    {
        let c = count_sigops(&t.outputs[j].script_pubkey);
        proof {
            assert(tv.outputs[j as int].script_pubkey == t.outputs@[j as int]@.script_pubkey);
            lemma_sigops_out_snoc(tv.outputs, j as int);
            lemma_sigops_nonneg(tv.outputs[j as int].script_pubkey, 0);
        }
        if c > 100000 - total {
            over = true;
            total = 100000;
        } else {
            total = total + c;
            if c == 100001 {
                over = true;
                total = 100000;
            }
        }
        j = j + 1;
    }
    proof {
        assert(tv.outputs.subrange(0, tv.outputs.len() as int) =~= tv.outputs);
    }
    if over {
        101001 - 1000
    } else {
        total
    }
}

/// Splitting the input-sigop sum at a position.
proof fn lemma_sigops_in_snoc(s: Seq<TxInV>, i: int)
    requires
        0 <= i < s.len(),
    ensures
        sigops_seq_in(s.subrange(0, i + 1)) == sigops_seq_in(s.subrange(0, i)) + sigops_from(
            s[i].script_sig,
            0,
        ),
        sigops_seq_in(s.subrange(0, i)) >= 0,
    decreases i,
{
    if i == 0 {
        assert(s.subrange(0, 1)[0] == s[0]);
        assert(s.subrange(0, 1).drop_first() =~= Seq::<TxInV>::empty());
        assert(sigops_seq_in(Seq::<TxInV>::empty()) == 0);
        assert(s.subrange(0, 0).len() == 0);
        assert(sigops_seq_in(s.subrange(0, 0)) == 0);
        assert(sigops_seq_in(s.subrange(0, 1)) == sigops_from(s.subrange(0, 1)[0].script_sig, 0)
            + sigops_seq_in(s.subrange(0, 1).drop_first()));
        lemma_sigops_nonneg(s[0].script_sig, 0);
    } else {
        let a = s.subrange(0, i + 1);
        let b = s.subrange(0, i);
        lemma_sigops_in_snoc(s.drop_first(), i - 1);
        assert(a.drop_first() =~= s.drop_first().subrange(0, i));
        assert(b.drop_first() =~= s.drop_first().subrange(0, i - 1));
        assert(s.drop_first()[i - 1] == s[i]);
        assert(a[0] == s[0] && b[0] == s[0]);
        assert(sigops_seq_in(a) == sigops_from(a[0].script_sig, 0) + sigops_seq_in(
            a.drop_first(),
        ));
        assert(sigops_seq_in(b) == sigops_from(b[0].script_sig, 0) + sigops_seq_in(
            b.drop_first(),
        ));
        lemma_sigops_nonneg(s[0].script_sig, 0);
        lemma_sigops_nonneg(s[i].script_sig, 0);
    }
}

/// Splitting the output-sigop sum at a position.
proof fn lemma_sigops_out_snoc(s: Seq<TxOutV>, i: int)
    requires
        0 <= i < s.len(),
    ensures
        sigops_seq_out(s.subrange(0, i + 1)) == sigops_seq_out(s.subrange(0, i)) + sigops_from(
            s[i].script_pubkey,
            0,
        ),
        sigops_seq_out(s.subrange(0, i)) >= 0,
    decreases i,
{
    if i == 0 {
        assert(s.subrange(0, 1)[0] == s[0]);
        assert(s.subrange(0, 1).drop_first() =~= Seq::<TxOutV>::empty());
        assert(sigops_seq_out(Seq::<TxOutV>::empty()) == 0);
        assert(s.subrange(0, 0).len() == 0);
        assert(sigops_seq_out(s.subrange(0, 0)) == 0);
        assert(sigops_seq_out(s.subrange(0, 1)) == sigops_from(
            s.subrange(0, 1)[0].script_pubkey,
            0,
        ) + sigops_seq_out(s.subrange(0, 1).drop_first()));
        lemma_sigops_nonneg(s[0].script_pubkey, 0);
    } else {
        let a = s.subrange(0, i + 1);
        let b = s.subrange(0, i);
        lemma_sigops_out_snoc(s.drop_first(), i - 1);
        assert(a.drop_first() =~= s.drop_first().subrange(0, i));
        assert(b.drop_first() =~= s.drop_first().subrange(0, i - 1));
        assert(s.drop_first()[i - 1] == s[i]);
        assert(a[0] == s[0] && b[0] == s[0]);
        assert(sigops_seq_out(a) == sigops_from(a[0].script_pubkey, 0) + sigops_seq_out(
            a.drop_first(),
        ));
        assert(sigops_seq_out(b) == sigops_from(b[0].script_pubkey, 0) + sigops_seq_out(
            b.drop_first(),
        ));
        lemma_sigops_nonneg(s[0].script_pubkey, 0);
        lemma_sigops_nonneg(s[i].script_pubkey, 0);
    }
}

proof fn lemma_sigops_in_tail_nonneg(s: Seq<TxInV>, i: int)
    requires
        0 <= i,
    ensures
        sigops_seq_in(s) >= sigops_seq_in(s.subrange(0, if i <= s.len() {
            i
        } else {
            s.len() as int
        })),
    decreases s.len(),
{
    let k: int = if i <= s.len() {
        i
    } else {
        s.len() as int
    };
    lemma_sigops_prefix(s, k);
}

/// A prefix never counts more than the whole.
proof fn lemma_sigops_prefix(s: Seq<TxInV>, k: int)
    requires
        0 <= k <= s.len(),
    ensures
        sigops_seq_in(s) >= sigops_seq_in(s.subrange(0, k)),
    decreases s.len() - k,
{
    if k < s.len() {
        lemma_sigops_in_snoc(s, k);
        lemma_sigops_nonneg(s[k].script_sig, 0);
        lemma_sigops_prefix(s, k + 1);
    } else {
        assert(s.subrange(0, k) =~= s);
    }
}

} // verus!

verus! {

proof fn lemma_sum_in_snoc(s: Seq<TxInV>, u: Map<OutPointV, CoinV>, i: int)
    requires
        0 <= i < s.len(),
    ensures
        sum_inputs(s.subrange(0, i + 1), u) == sum_inputs(s.subrange(0, i), u) + u[s[i].prevout].value,
    decreases i,
{
    if i == 0 {
        assert(s.subrange(0, 1)[0] == s[0]);
        assert(s.subrange(0, 1).drop_first() =~= Seq::<TxInV>::empty());
        assert(sum_inputs(Seq::<TxInV>::empty(), u) == 0);
        assert(s.subrange(0, 0).len() == 0);
        assert(sum_inputs(s.subrange(0, 0), u) == 0);
        assert(sum_inputs(s.subrange(0, 1), u) == u[s.subrange(0, 1)[0].prevout].value
            + sum_inputs(s.subrange(0, 1).drop_first(), u));
    } else {
        let a = s.subrange(0, i + 1);
        let b = s.subrange(0, i);
        lemma_sum_in_snoc(s.drop_first(), u, i - 1);
        assert(a.drop_first() =~= s.drop_first().subrange(0, i));
        assert(b.drop_first() =~= s.drop_first().subrange(0, i - 1));
        assert(s.drop_first()[i - 1] == s[i]);
        assert(a[0] == s[0] && b[0] == s[0]);
        assert(sum_inputs(a, u) == u[a[0].prevout].value + sum_inputs(a.drop_first(), u));
        assert(sum_inputs(b, u) == u[b[0].prevout].value + sum_inputs(b.drop_first(), u));
    }
}

proof fn lemma_sum_in_tail(s: Seq<TxInV>, u: Map<OutPointV, CoinV>, k: int)
    requires
        0 <= k <= s.len(),
    ensures
        sum_inputs(s, u) >= sum_inputs(s.subrange(0, k), u),
    decreases s.len() - k,
{
    if k < s.len() {
        lemma_sum_in_snoc(s, u, k);
        lemma_sum_in_tail(s, u, k + 1);
    } else {
        assert(s.subrange(0, k) =~= s);
    }
}

pub proof fn lemma_sum_out_snoc(s: Seq<TxOutV>, i: int)
    requires
        0 <= i < s.len(),
    ensures
        sum_outputs(s.subrange(0, i + 1)) == sum_outputs(s.subrange(0, i)) + s[i].value,
    decreases i,
{
    if i == 0 {
        assert(s.subrange(0, 1)[0] == s[0]);
        assert(s.subrange(0, 1).drop_first() =~= Seq::<TxOutV>::empty());
        assert(sum_outputs(Seq::<TxOutV>::empty()) == 0);
        assert(s.subrange(0, 0).len() == 0);
        assert(sum_outputs(s.subrange(0, 0)) == 0);
        assert(sum_outputs(s.subrange(0, 1)) == s.subrange(0, 1)[0].value + sum_outputs(
            s.subrange(0, 1).drop_first(),
        ));
    } else {
        let a = s.subrange(0, i + 1);
        let b = s.subrange(0, i);
        lemma_sum_out_snoc(s.drop_first(), i - 1);
        assert(a.drop_first() =~= s.drop_first().subrange(0, i));
        assert(b.drop_first() =~= s.drop_first().subrange(0, i - 1));
        assert(s.drop_first()[i - 1] == s[i]);
        assert(a[0] == s[0] && b[0] == s[0]);
        assert(sum_outputs(a) == a[0].value + sum_outputs(a.drop_first()));
        assert(sum_outputs(b) == b[0].value + sum_outputs(b.drop_first()));
    }
}

pub proof fn lemma_sum_out_tail(s: Seq<TxOutV>, k: int)
    requires
        0 <= k <= s.len(),
    ensures
        sum_outputs(s) >= sum_outputs(s.subrange(0, k)),
    decreases s.len() - k,
{
    if k < s.len() {
        lemma_sum_out_snoc(s, k);
        lemma_sum_out_tail(s, k + 1);
    } else {
        assert(s.subrange(0, k) =~= s);
    }
}

/// Validates one non-coinbase transaction against a UTXO set; agrees
/// exactly with `check_tx_spec`, returning the fee on success.
#[verifier::rlimit(60)]
pub fn check_transaction<C: SigChecker>(
    t: &Transaction,
    ws: &Vec<Witness>,
    u: &UtxoSet,
    height: u32,
    flags: ScriptFlags,
    c: &C,
) -> (r: Result<u64, InvalidKind>)
    requires
        u.wf(),
    ensures
        match r {
            Ok(fee) => check_tx_spec(t@, witnesses_view(ws@), u@, height as int, flags, c)
                == Ok::<int, InvalidKind>(fee as int),
            Err(e) => check_tx_spec(t@, witnesses_view(ws@), u@, height as int, flags, c)
                == Err::<int, InvalidKind>(e),
        },
{
    let ghost tv = t@;
    let ghost wv = witnesses_view(ws@);
    let ghost uv = u@;
    let nin = t.inputs.len();
    let nout = t.outputs.len();
    proof {
        assert(tv.inputs.len() == t.inputs@.len());
        assert(tv.outputs.len() == t.outputs@.len());
    }
    if nin == 0 || nout == 0 {
        return Err(InvalidKind::BadStructure);
    }
    // duplicate inputs
    let mut i: usize = 0;
    while i < nin
        invariant
            i <= nin,
            nin == tv.inputs.len(),
            nin == t.inputs@.len(),
            nout == tv.outputs.len(),
            nin >= 1,
            nout >= 1,
            tv == t@,
            wv == witnesses_view(ws@),
            uv == u@,
            forall|a: int, b: int|
                0 <= a < i && a < b < nin ==> (#[trigger] tv.inputs[a]).prevout != (
                #[trigger] tv.inputs[b]).prevout,
        decreases nin - i,
    {
        let mut j: usize = i + 1;
        while j < nin
            invariant
                i < j <= nin,
                nin == tv.inputs.len(),
                nin == t.inputs@.len(),
                nout == tv.outputs.len(),
                nin >= 1,
                nout >= 1,
                tv == t@,
                wv == witnesses_view(ws@),
                uv == u@,
                forall|b: int|
                    i < b < j ==> (#[trigger] tv.inputs[b]).prevout != tv.inputs[i as int].prevout,
            decreases nin - j,
        {
            let cmp = outpoint_cmp(&t.inputs[i].prevout, &t.inputs[j].prevout);
            proof {
                assert(tv.inputs[i as int].prevout == t.inputs@[i as int]@.prevout);
                assert(tv.inputs[j as int].prevout == t.inputs@[j as int]@.prevout);
            }
            if cmp == 0 {
                proof {
                    assert(has_duplicate_input(tv));
                }
                return Err(InvalidKind::DuplicateInput);
            }
            proof {
                if cmp == -1 {
                    crate::types::lemma_outpoint_lt_asym(
                        tv.inputs[i as int].prevout,
                        tv.inputs[j as int].prevout,
                    );
                } else {
                    crate::types::lemma_outpoint_lt_asym(
                        tv.inputs[j as int].prevout,
                        tv.inputs[i as int].prevout,
                    );
                }
            }
            j = j + 1;
        }
        i = i + 1;
    }
    proof {
        assert(!has_duplicate_input(tv));
    }
    // input existence
    let mut i2: usize = 0;
    while i2 < nin
        invariant
            i2 <= nin,
            nin == tv.inputs.len(),
            nin == t.inputs@.len(),
            nout == tv.outputs.len(),
            nout == t.outputs@.len(),
            nin >= 1,
            nout >= 1,
            tv == t@,
            wv == witnesses_view(ws@),
            uv == u@,
            u.wf(),
            !has_duplicate_input(tv),
            forall|a: int| 0 <= a < i2 ==> uv.contains_key((#[trigger] tv.inputs[a]).prevout),
        decreases nin - i2,
    {
        proof {
            assert(tv.inputs[i2 as int].prevout == t.inputs@[i2 as int]@.prevout);
        }
        match u.get(&t.inputs[i2].prevout) {
            None => {
                return Err(InvalidKind::MissingUtxo);
            },
            Some(_) => {},
        }
        i2 = i2 + 1;
    }
    proof {
        assert(inputs_available(tv.inputs, uv));
    }
    // coinbase maturity
    let mut i3: usize = 0;
    while i3 < nin
        invariant
            i3 <= nin,
            nin == tv.inputs.len(),
            nin == t.inputs@.len(),
            nout == tv.outputs.len(),
            nout == t.outputs@.len(),
            nin >= 1,
            nout >= 1,
            tv == t@,
            wv == witnesses_view(ws@),
            uv == u@,
            u.wf(),
            !has_duplicate_input(tv),
            inputs_available(tv.inputs, uv),
            forall|a: int|
                0 <= a < i3 ==> {
                    let coin = uv[(#[trigger] tv.inputs[a]).prevout];
                    coin.is_coinbase ==> coin.height + 100 <= height as int
                },
        decreases nin - i3,
    {
        proof {
            assert(tv.inputs[i3 as int].prevout == t.inputs@[i3 as int]@.prevout);
        }
        match u.get(&t.inputs[i3].prevout) {
            None => {
                proof {
                    assert(uv.contains_key(tv.inputs[i3 as int].prevout));
                }
                return Err(InvalidKind::MissingUtxo);
            },
            Some(coin) => {
                if coin.is_coinbase {
                    if coin.height > u32::MAX - 100 || coin.height + 100 > height {
                        proof {
                            assert(!coinbases_mature(tv.inputs, uv, height as int));
                        }
                        return Err(InvalidKind::CoinbaseImmaturity);
                    }
                }
            },
        }
        i3 = i3 + 1;
    }
    proof {
        assert(coinbases_mature(tv.inputs, uv, height as int));
    }
    // output values in range
    let mut sum_out: u64 = 0;
    let mut j2: usize = 0;
    while j2 < nout
        invariant
            j2 <= nout,
            nin == tv.inputs.len(),
            nin == t.inputs@.len(),
            nout == tv.outputs.len(),
            nout == t.outputs@.len(),
            nin >= 1,
            nout >= 1,
            tv == t@,
            wv == witnesses_view(ws@),
            uv == u@,
            u.wf(),
            !has_duplicate_input(tv),
            inputs_available(tv.inputs, uv),
            coinbases_mature(tv.inputs, uv, height as int),
            sum_out <= MAX_MONEY,
            sum_out as int == sum_outputs(tv.outputs.subrange(0, j2 as int)),
            forall|a: int| 0 <= a < j2 ==> (#[trigger] tv.outputs[a]).value <= MAX_MONEY,
        decreases nout - j2,
    {
        let v = t.outputs[j2].value;
        proof {
            assert(tv.outputs[j2 as int] == t.outputs@[j2 as int]@);
            lemma_sum_out_snoc(tv.outputs, j2 as int);
        }
        if v > MAX_MONEY {
            proof {
                assert(!outputs_in_range(tv.outputs));
            }
            return Err(InvalidKind::ValueOutOfRange);
        }
        if v > MAX_MONEY - sum_out {
            proof {
                lemma_sum_out_tail(tv.outputs, j2 + 1);
                assert(sum_outputs(tv.outputs) > MAX_MONEY);
                assert(!outputs_in_range(tv.outputs));
            }
            return Err(InvalidKind::ValueOutOfRange);
        }
        sum_out = sum_out + v;
        j2 = j2 + 1;
    }
    proof {
        assert(tv.outputs.subrange(0, nout as int) =~= tv.outputs);
        assert(outputs_in_range(tv.outputs));
    }
    // input values
    let mut sum_in: u64 = 0;
    let mut i4: usize = 0;
    while i4 < nin
        invariant
            i4 <= nin,
            nin == tv.inputs.len(),
            nin == t.inputs@.len(),
            nout == tv.outputs.len(),
            nout == t.outputs@.len(),
            nin >= 1,
            nout >= 1,
            tv == t@,
            wv == witnesses_view(ws@),
            uv == u@,
            u.wf(),
            !has_duplicate_input(tv),
            inputs_available(tv.inputs, uv),
            coinbases_mature(tv.inputs, uv, height as int),
            outputs_in_range(tv.outputs),
            sum_out <= MAX_MONEY,
            sum_out as int == sum_outputs(tv.outputs),
            sum_in <= MAX_MONEY,
            sum_in as int == sum_inputs(tv.inputs.subrange(0, i4 as int), uv),
        decreases nin - i4,
    {
        proof {
            assert(tv.inputs[i4 as int].prevout == t.inputs@[i4 as int]@.prevout);
        }
        let coin = match u.get(&t.inputs[i4].prevout) {
            None => {
                proof {
                    assert(uv.contains_key(tv.inputs[i4 as int].prevout));
                }
                return Err(InvalidKind::MissingUtxo);
            },
            Some(coin) => coin,
        };
        let v = coin.value;
        proof {
            lemma_sum_in_snoc(tv.inputs, uv, i4 as int);
            assert(uv[tv.inputs[i4 as int].prevout].value == v);
        }
        if v > MAX_MONEY - sum_in {
            proof {
                lemma_sum_in_tail(tv.inputs, uv, i4 + 1);
                assert(sum_inputs(tv.inputs, uv) > MAX_MONEY);
            }
            return Err(InvalidKind::ValueOutOfRange);
        }
        sum_in = sum_in + v;
        i4 = i4 + 1;
    }
    proof {
        assert(tv.inputs.subrange(0, nin as int) =~= tv.inputs);
        assert(sum_in as int == sum_inputs(tv.inputs, uv));
    }
    // balance
    if sum_out > sum_in {
        return Err(InvalidKind::FeeNegative);
    }
    // signature operations
    let sigops = tx_sigops_capped(t);
    if sigops > MAX_TX_SIGOPS {
        return Err(InvalidKind::SigopLimit);
    }
    proof {
        assert(tx_sigops(tv) <= MAX_TX_SIGOPS);
    }
    // scripts
    let mut i5: usize = 0;
    while i5 < nin
        invariant
            i5 <= nin,
            nin == tv.inputs.len(),
            nin == t.inputs@.len(),
            nout == tv.outputs.len(),
            nout == t.outputs@.len(),
            nin >= 1,
            nout >= 1,
            tv == t@,
            wv == witnesses_view(ws@),
            uv == u@,
            u.wf(),
            !has_duplicate_input(tv),
            wv.len() == ws@.len(),
            inputs_available(tv.inputs, uv),
            coinbases_mature(tv.inputs, uv, height as int),
            outputs_in_range(tv.outputs),
            sum_out <= MAX_MONEY,
            sum_out as int == sum_outputs(tv.outputs),
            sum_in <= MAX_MONEY,
            sum_in as int == sum_inputs(tv.inputs, uv),
            sum_out <= sum_in,
            tx_sigops(tv) <= MAX_TX_SIGOPS,
            first_script_err(tv, wv, uv, flags, c, 0) == first_script_err(
                tv,
                wv,
                uv,
                flags,
                c,
                i5 as int,
            ),
        decreases nin - i5,
    {
        proof {
            assert(tv.inputs[i5 as int].prevout == t.inputs@[i5 as int]@.prevout);
            assert(tv.inputs[i5 as int].script_sig == t.inputs@[i5 as int]@.script_sig);
        }
        let coin = match u.get(&t.inputs[i5].prevout) {
            None => {
                proof {
                    assert(uv.contains_key(tv.inputs[i5 as int].prevout));
                }
                return Err(InvalidKind::MissingUtxo);
            },
            Some(coin) => coin,
        };
        let empty_witness = Witness { stack: Vec::new() };
        let witness: &Witness = if i5 < ws.len() {
            &ws[i5]
        } else {
            &empty_witness
        };
        proof {
            if i5 < ws.len() {
                assert(witness@ == wv[i5 as int]);
            } else {
                assert(witness@ =~= Seq::<Seq<u8>>::empty());
            }
            assert(witness@ == witness_at(wv, i5 as int));
        }
        match verify_script(&t.inputs[i5].script_sig, &coin.script_pubkey, &witness.stack, flags, c) {
            Err(e) => {
                proof {
                    assert(stack_view(witness.stack@) == witness@);
                    assert(first_script_err(tv, wv, uv, flags, c, i5 as int) == Some(e));
                }
                return Err(InvalidKind::BadScript(e));
            },
            Ok(_) => {
                proof {
                    assert(stack_view(witness.stack@) == witness@);
                    assert(first_script_err(tv, wv, uv, flags, c, i5 as int) == first_script_err(
                        tv,
                        wv,
                        uv,
                        flags,
                        c,
                        i5 + 1,
                    ));
                }
            },
        }
        i5 = i5 + 1;
    }
    proof {
        assert(first_script_err(tv, wv, uv, flags, c, nin as int) is None);
        assert(first_script_err(tv, wv, uv, flags, c, 0) is None);
    }
    // finality
    let mut final_tx = t.lock_time == 0 || (t.lock_time < 500_000_000 && t.lock_time < height);
    if !final_tx {
        let mut all_max = true;
        let mut i6: usize = 0;
        while i6 < nin
            invariant
                i6 <= nin,
                nin == tv.inputs.len(),
                nin == t.inputs@.len(),
                tv == t@,
                all_max == (forall|a: int|
                    0 <= a < i6 ==> (#[trigger] tv.inputs[a]).sequence == 0xffff_ffffu32),
            decreases nin - i6,
        {
            proof {
                assert(tv.inputs[i6 as int].sequence == t.inputs@[i6 as int]@.sequence);
            }
            if t.inputs[i6].sequence != 0xffff_ffff {
                all_max = false;
                proof {
                    assert(tv.inputs[i6 as int].sequence != 0xffff_ffffu32);
                }
            }
            i6 = i6 + 1;
        }
        final_tx = all_max;
    }
    if !final_tx {
        proof {
            assert(!is_final_tx(tv, height as int));
        }
        return Err(InvalidKind::NonFinal);
    }
    proof {
        assert(is_final_tx(tv, height as int));
    }
    Ok(sum_in - sum_out)
}

} // verus!
