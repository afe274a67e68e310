//! Transaction and block serialization: the legacy and witness-aware
//! encodings, txids and wtxids, block parsing, and merkle roots.

use vstd::prelude::*;
use crate::bytes::{
    le_bytes, le_to_int, ser_compact_size, parse_compact_size, read_compact_size, read_u32_le,
    read_u64_le, push_le_bytes, push_slice, write_compact_size, subvec,
};
use crate::hashes::{dsha256, dsha256_of};
use crate::types::{
    Block, BlockHeader, BlockHeaderV, BlockV, OutPoint, OutPointV, Transaction, TransactionV,
    TxIn, TxInV, TxOut, TxOutV, Witness,
};

verus! {

/// The unsigned 32-bit value whose bit pattern a signed value shares.
pub open spec fn i32_bits(v: int) -> int {
    if v < 0 {
        v + 0x1_0000_0000
    } else {
        v
    }
}

/// The signed value a 32-bit pattern denotes.
pub open spec fn u32_signed(v: int) -> int {
    if v >= 0x8000_0000 {
        v - 0x1_0000_0000
    } else {
        v
    }
}

/// The 32-bit pattern of a signed version, for serialization.
pub fn i32_to_bits(x: i32) -> (r: u32)
    ensures
        r as int == i32_bits(x as int),
{
    if x >= 0 {
        x as u32
    } else {
        ((x as i64) + 0x1_0000_0000) as u32
    }
}

/// The signed version a 32-bit pattern denotes, for parsing.
pub fn bits_to_i32(v: u32) -> (r: i32)
    ensures
        r as int == u32_signed(v as int),
{
    if v >= 0x8000_0000 {
        ((v as i64) - 0x1_0000_0000) as i32
    } else {
        v as i32
    }
}

/// The serialized outpoint: hash then index.
pub open spec fn ser_outpoint(o: OutPointV) -> Seq<u8> {
    o.hash + le_bytes(o.index as int, 4)
}

/// The serialized input: outpoint, script, sequence.
pub open spec fn ser_txin(i: TxInV) -> Seq<u8> {
    ser_outpoint(i.prevout) + ser_compact_size(i.script_sig.len() as int) + i.script_sig
        + le_bytes(i.sequence as int, 4)
}

pub open spec fn ser_txins(s: Seq<TxInV>) -> Seq<u8>
    decreases s.len(),
{
    if s.len() == 0 {
        Seq::empty()
    } else {
        ser_txin(s[0]) + ser_txins(s.drop_first())
    }
}

/// The serialized output: value, script.
pub open spec fn ser_txout(o: TxOutV) -> Seq<u8> {
    le_bytes(o.value as int, 8) + ser_compact_size(o.script_pubkey.len() as int) + o.script_pubkey
}

pub open spec fn ser_txouts(s: Seq<TxOutV>) -> Seq<u8>
    decreases s.len(),
{
    if s.len() == 0 {
        Seq::empty()
    } else {
        ser_txout(s[0]) + ser_txouts(s.drop_first())
    }
}

/// The legacy transaction encoding: the txid preimage.
pub open spec fn ser_tx_legacy(t: TransactionV) -> Seq<u8> {
    le_bytes(i32_bits(t.version as int), 4) + ser_compact_size(t.inputs.len() as int) + ser_txins(
        t.inputs,
    ) + ser_compact_size(t.outputs.len() as int) + ser_txouts(t.outputs) + le_bytes(
        t.lock_time as int,
        4,
    )
}

/// One witness stack: item count, then each item length-prefixed.
pub open spec fn ser_witness_items(w: Seq<Seq<u8>>) -> Seq<u8>
    decreases w.len(),
{
    if w.len() == 0 {
        Seq::empty()
    } else {
        ser_compact_size(w[0].len() as int) + w[0] + ser_witness_items(w.drop_first())
    }
}

pub open spec fn ser_witness_stack(w: Seq<Seq<u8>>) -> Seq<u8> {
    ser_compact_size(w.len() as int) + ser_witness_items(w)
}

pub open spec fn ser_witness_stacks(ws: Seq<Seq<Seq<u8>>>) -> Seq<u8>
    decreases ws.len(),
{
    if ws.len() == 0 {
        Seq::empty()
    } else {
        ser_witness_stack(ws[0]) + ser_witness_stacks(ws.drop_first())
    }
}

/// The witness-aware transaction encoding: the wtxid preimage. Carries
/// the marker and flag and one witness stack per input.
pub open spec fn ser_tx_witness(t: TransactionV, ws: Seq<Seq<Seq<u8>>>) -> Seq<u8> {
    le_bytes(i32_bits(t.version as int), 4) + seq![0x00u8, 0x01u8] + ser_compact_size(
        t.inputs.len() as int,
    ) + ser_txins(t.inputs) + ser_compact_size(t.outputs.len() as int) + ser_txouts(t.outputs)
        + ser_witness_stacks(ws) + le_bytes(t.lock_time as int, 4)
}

/// The txid: double SHA-256 of the legacy encoding.
pub open spec fn txid_of(t: TransactionV) -> Seq<u8> {
    dsha256_of(ser_tx_legacy(t))
}

/// The wtxid: double SHA-256 of the witness-aware encoding.
pub open spec fn wtxid_of(t: TransactionV, ws: Seq<Seq<Seq<u8>>>) -> Seq<u8> {
    dsha256_of(ser_tx_witness(t, ws))
}

/// Serializes a transaction in the legacy form.
pub fn serialize_tx_legacy(t: &Transaction) -> (r: Vec<u8>)
    ensures
        r@ == ser_tx_legacy(t@),
{
    let mut out: Vec<u8> = Vec::new();
    push_le_bytes(&mut out, i32_to_bits(t.version) as u64, 4);
    write_compact_size(&mut out, t.inputs.len() as u64);
    let ghost pre_ins = out@;
    let mut i: usize = 0;
    while i < t.inputs.len()
        invariant
            i <= t.inputs@.len(),
            out@ == pre_ins + ser_txins(t@.inputs.subrange(0, i as int)),
            t@.inputs.len() == t.inputs@.len(),
        decreases t.inputs@.len() - i,
    {
        let ghost pre = out@;
        push_txin(&mut out, &t.inputs[i]);
        proof {
            assert(t@.inputs[i as int] == t.inputs@[i as int]@);
            lemma_ser_txins_push(t@.inputs.subrange(0, i as int), t@.inputs[i as int]);
            assert(t@.inputs.subrange(0, i + 1) =~= t@.inputs.subrange(0, i as int).push(
                t@.inputs[i as int],
            ));
            assert(out@ =~= pre_ins + ser_txins(t@.inputs.subrange(0, i + 1)));
        }
        i = i + 1;
    }
    proof {
        assert(t@.inputs.subrange(0, t@.inputs.len() as int) =~= t@.inputs);
    }
    write_compact_size(&mut out, t.outputs.len() as u64);
    let ghost pre_outs = out@;
    let mut j: usize = 0;
    while j < t.outputs.len()
        invariant
            j <= t.outputs@.len(),
            out@ == pre_outs + ser_txouts(t@.outputs.subrange(0, j as int)),
            t@.outputs.len() == t.outputs@.len(),
        decreases t.outputs@.len() - j,
    {
        let ghost pre = out@;
        push_txout(&mut out, &t.outputs[j]);
        proof {
            assert(t@.outputs[j as int] == t.outputs@[j as int]@);
            lemma_ser_txouts_push(t@.outputs.subrange(0, j as int), t@.outputs[j as int]);
            assert(t@.outputs.subrange(0, j + 1) =~= t@.outputs.subrange(0, j as int).push(
                t@.outputs[j as int],
            ));
            assert(out@ =~= pre_outs + ser_txouts(t@.outputs.subrange(0, j + 1)));
        }
        j = j + 1;
    }
    proof {
        assert(t@.outputs.subrange(0, t@.outputs.len() as int) =~= t@.outputs);
    }
    push_le_bytes(&mut out, t.lock_time as u64, 4);
    proof {
        assert(out@ =~= ser_tx_legacy(t@));
    }
    out
}

proof fn lemma_ser_txins_push(s: Seq<TxInV>, e: TxInV)
    ensures
        ser_txins(s.push(e)) == ser_txins(s) + ser_txin(e),
    decreases s.len(),
{
    if s.len() == 0 {
        assert(s.push(e)[0] == e);
        assert(s.push(e).drop_first() =~= s);
        assert(ser_txins(s.push(e)) =~= ser_txins(s) + ser_txin(e));
    } else {
        assert(s.push(e).drop_first() =~= s.drop_first().push(e));
        lemma_ser_txins_push(s.drop_first(), e);
        assert(s.push(e)[0] == s[0]);
        assert(ser_txins(s.push(e)) =~= ser_txins(s) + ser_txin(e));
    }
}

proof fn lemma_ser_txouts_push(s: Seq<TxOutV>, e: TxOutV)
    ensures
        ser_txouts(s.push(e)) == ser_txouts(s) + ser_txout(e),
    decreases s.len(),
{
    if s.len() == 0 {
        assert(s.push(e)[0] == e);
        assert(s.push(e).drop_first() =~= s);
        assert(ser_txouts(s.push(e)) =~= ser_txouts(s) + ser_txout(e));
    } else {
        assert(s.push(e).drop_first() =~= s.drop_first().push(e));
        lemma_ser_txouts_push(s.drop_first(), e);
        assert(s.push(e)[0] == s[0]);
        assert(ser_txouts(s.push(e)) =~= ser_txouts(s) + ser_txout(e));
    }
}

fn push_txin(out: &mut Vec<u8>, i: &TxIn)
    ensures
        final(out)@ == old(out)@ + ser_txin(i@),
{
    let ghost pre = out@;
    push_slice(out, i.prevout.hash.as_slice());
    push_le_bytes(out, i.prevout.index as u64, 4);
    write_compact_size(out, i.script_sig.len() as u64);
    push_slice(out, i.script_sig.as_slice());
    push_le_bytes(out, i.sequence as u64, 4);
    proof {
        assert(out@ =~= pre + ser_txin(i@));
    }
}

fn push_txout(out: &mut Vec<u8>, o: &TxOut)
    ensures
        final(out)@ == old(out)@ + ser_txout(o@),
{
    let ghost pre = out@;
    push_le_bytes(out, o.value, 8);
    write_compact_size(out, o.script_pubkey.len() as u64);
    push_slice(out, o.script_pubkey.as_slice());
    proof {
        assert(out@ =~= pre + ser_txout(o@));
    }
}

/// Serializes a transaction in the witness-aware form, one witness stack
/// per input.
pub fn serialize_tx_witness(t: &Transaction, ws: &Vec<Witness>) -> (r: Vec<u8>)
    ensures
        r@ == ser_tx_witness(t@, witnesses_view(ws@)),
{
    let mut out: Vec<u8> = Vec::new();
    push_le_bytes(&mut out, i32_to_bits(t.version) as u64, 4);
    out.push(0x00);
    out.push(0x01);
    write_compact_size(&mut out, t.inputs.len() as u64);
    let ghost pre_ins = out@;
    let mut i: usize = 0;
    while i < t.inputs.len()
        invariant
            i <= t.inputs@.len(),
            out@ == pre_ins + ser_txins(t@.inputs.subrange(0, i as int)),
            t@.inputs.len() == t.inputs@.len(),
        decreases t.inputs@.len() - i,
    {
        push_txin(&mut out, &t.inputs[i]);
        proof {
            assert(t@.inputs[i as int] == t.inputs@[i as int]@);
            lemma_ser_txins_push(t@.inputs.subrange(0, i as int), t@.inputs[i as int]);
            assert(t@.inputs.subrange(0, i + 1) =~= t@.inputs.subrange(0, i as int).push(
                t@.inputs[i as int],
            ));
            assert(out@ =~= pre_ins + ser_txins(t@.inputs.subrange(0, i + 1)));
        }
        i = i + 1;
    }
    proof {
        assert(t@.inputs.subrange(0, t@.inputs.len() as int) =~= t@.inputs);
    }
    write_compact_size(&mut out, t.outputs.len() as u64);
    let ghost pre_outs = out@;
    let mut j: usize = 0;
    while j < t.outputs.len()
        invariant
            j <= t.outputs@.len(),
            out@ == pre_outs + ser_txouts(t@.outputs.subrange(0, j as int)),
            t@.outputs.len() == t.outputs@.len(),
        decreases t.outputs@.len() - j,
    {
        push_txout(&mut out, &t.outputs[j]);
        proof {
            assert(t@.outputs[j as int] == t.outputs@[j as int]@);
            lemma_ser_txouts_push(t@.outputs.subrange(0, j as int), t@.outputs[j as int]);
            assert(t@.outputs.subrange(0, j + 1) =~= t@.outputs.subrange(0, j as int).push(
                t@.outputs[j as int],
            ));
            assert(out@ =~= pre_outs + ser_txouts(t@.outputs.subrange(0, j + 1)));
        }
        j = j + 1;
    }
    proof {
        assert(t@.outputs.subrange(0, t@.outputs.len() as int) =~= t@.outputs);
    }
    let ghost pre_ws = out@;
    let mut k: usize = 0;
    while k < ws.len()
        invariant
            k <= ws@.len(),
            out@ == pre_ws + ser_witness_stacks(witnesses_view(ws@).subrange(0, k as int)),
            witnesses_view(ws@).len() == ws@.len(),
        decreases ws@.len() - k,
    {
        push_witness_stack(&mut out, &ws[k]);
        proof {
            assert(witnesses_view(ws@)[k as int] == ws@[k as int]@);
            lemma_ser_wstacks_push(
                witnesses_view(ws@).subrange(0, k as int),
                witnesses_view(ws@)[k as int],
            );
            assert(witnesses_view(ws@).subrange(0, k + 1) =~= witnesses_view(ws@).subrange(
                0,
                k as int,
            ).push(witnesses_view(ws@)[k as int]));
            assert(out@ =~= pre_ws + ser_witness_stacks(witnesses_view(ws@).subrange(0, k + 1)));
        }
        k = k + 1;
    }
    proof {
        assert(witnesses_view(ws@).subrange(0, witnesses_view(ws@).len() as int) =~= witnesses_view(
            ws@,
        ));
    }
    push_le_bytes(&mut out, t.lock_time as u64, 4);
    proof {
        assert(out@ =~= ser_tx_witness(t@, witnesses_view(ws@)));
    }
    out
}

/// The views of a per-input witness list.
pub open spec fn witnesses_view(ws: Seq<Witness>) -> Seq<Seq<Seq<u8>>> {
    ws.map_values(|w: Witness| w@)
}

proof fn lemma_ser_wstacks_push(s: Seq<Seq<Seq<u8>>>, e: Seq<Seq<u8>>)
    ensures
        ser_witness_stacks(s.push(e)) == ser_witness_stacks(s) + ser_witness_stack(e),
    decreases s.len(),
{
    if s.len() == 0 {
        assert(s.push(e)[0] == e);
        assert(s.push(e).drop_first() =~= s);
        assert(ser_witness_stacks(s.push(e)) =~= ser_witness_stacks(s) + ser_witness_stack(e));
    } else {
        assert(s.push(e).drop_first() =~= s.drop_first().push(e));
        lemma_ser_wstacks_push(s.drop_first(), e);
        assert(s.push(e)[0] == s[0]);
        assert(ser_witness_stacks(s.push(e)) =~= ser_witness_stacks(s) + ser_witness_stack(e));
    }
}

proof fn lemma_ser_witems_push(s: Seq<Seq<u8>>, e: Seq<u8>)
    ensures
        ser_witness_items(s.push(e)) == ser_witness_items(s) + (ser_compact_size(e.len() as int)
            + e),
    decreases s.len(),
{
    if s.len() == 0 {
        assert(s.push(e)[0] == e);
        assert(s.push(e).drop_first() =~= s);
        assert(ser_witness_items(s.push(e)) =~= ser_witness_items(s) + (ser_compact_size(
            e.len() as int,
        ) + e));
    } else {
        assert(s.push(e).drop_first() =~= s.drop_first().push(e));
        lemma_ser_witems_push(s.drop_first(), e);
        assert(s.push(e)[0] == s[0]);
        assert(ser_witness_items(s.push(e)) =~= ser_witness_items(s) + (ser_compact_size(
            e.len() as int,
        ) + e));
    }
}

fn push_witness_stack(out: &mut Vec<u8>, w: &Witness)
    ensures
        final(out)@ == old(out)@ + ser_witness_stack(w@),
{
    let ghost pre = out@;
    write_compact_size(out, w.stack.len() as u64);
    let ghost pre_items = out@;
    let mut i: usize = 0;
    while i < w.stack.len()
        invariant
            i <= w.stack@.len(),
            out@ == pre_items + ser_witness_items(w@.subrange(0, i as int)),
            w@.len() == w.stack@.len(),
        decreases w.stack@.len() - i,
    {
        write_compact_size(out, w.stack[i].len() as u64);
        push_slice(out, w.stack[i].as_slice());
        proof {
            assert(w@[i as int] == w.stack@[i as int]@);
            lemma_ser_witems_push(w@.subrange(0, i as int), w@[i as int]);
            assert(w@.subrange(0, i + 1) =~= w@.subrange(0, i as int).push(w@[i as int]));
            assert(out@ =~= pre_items + ser_witness_items(w@.subrange(0, i + 1)));
        }
        i = i + 1;
    }
    proof {
        assert(w@.subrange(0, w@.len() as int) =~= w@);
        assert(out@ =~= pre + ser_witness_stack(w@));
    }
}

/// Computes a transaction's txid: the hash of its legacy encoding.
pub fn compute_txid(t: &Transaction) -> (r: [u8; 32])
    ensures
        r@ == txid_of(t@),
{
    let ser = serialize_tx_legacy(t);
    dsha256(ser.as_slice())
}

/// Computes a transaction's wtxid: the hash of its witness encoding.
pub fn compute_wtxid(t: &Transaction, ws: &Vec<Witness>) -> (r: [u8; 32])
    ensures
        r@ == wtxid_of(t@, witnesses_view(ws@)),
{
    let ser = serialize_tx_witness(t, ws);
    dsha256(ser.as_slice())
}

} // verus!

verus! {

/// Parses an outpoint at `pos`.
pub open spec fn parse_outpoint(b: Seq<u8>, pos: int) -> Option<(OutPointV, int)> {
    if pos < 0 || pos + 36 > b.len() {
        None
    } else {
        Some(
            (
                OutPointV {
                    hash: b.subrange(pos, pos + 32),
                    index: le_to_int(b.subrange(pos + 32, pos + 36)) as u32,
                },
                pos + 36,
            ),
        )
    }
}

/// Parses a transaction input at `pos`.
pub open spec fn parse_txin(b: Seq<u8>, pos: int) -> Option<(TxInV, int)> {
    match parse_outpoint(b, pos) {
        None => None,
        Some(po) => match parse_compact_size(b, po.1) {
            None => None,
            Some(pl) => {
                let p2 = po.1 + pl.1;
                if p2 + pl.0 > b.len() {
                    None
                } else {
                    let script = b.subrange(p2, p2 + pl.0);
                    let p3 = p2 + pl.0;
                    if p3 + 4 > b.len() {
                        None
                    } else {
                        Some(
                            (
                                TxInV {
                                    prevout: po.0,
                                    script_sig: script,
                                    sequence: le_to_int(b.subrange(p3, p3 + 4)) as u32,
                                },
                                p3 + 4,
                            ),
                        )
                    }
                }
            },
        },
    }
}

/// Parses `count` transaction inputs.
pub open spec fn parse_txins(b: Seq<u8>, pos: int, count: int) -> Option<(Seq<TxInV>, int)>
    decreases count,
{
    if count <= 0 {
        Some((Seq::empty(), pos))
    } else {
        match parse_txin(b, pos) {
            None => None,
            Some(pi) => match parse_txins(b, pi.1, count - 1) {
                None => None,
                Some(pr) => Some((seq![pi.0] + pr.0, pr.1)),
            },
        }
    }
}

/// Parses a transaction output at `pos`.
pub open spec fn parse_txout(b: Seq<u8>, pos: int) -> Option<(TxOutV, int)> {
    if pos < 0 || pos + 8 > b.len() {
        None
    } else {
        let value = le_to_int(b.subrange(pos, pos + 8));
        match parse_compact_size(b, pos + 8) {
            None => None,
            Some(pl) => {
                let p2 = pos + 8 + pl.1;
                if p2 + pl.0 > b.len() {
                    None
                } else {
                    Some(
                        (
                            TxOutV {
                                value: value as u64,
                                script_pubkey: b.subrange(p2, p2 + pl.0),
                            },
                            p2 + pl.0,
                        ),
                    )
                }
            },
        }
    }
}

/// Parses `count` transaction outputs.
pub open spec fn parse_txouts(b: Seq<u8>, pos: int, count: int) -> Option<(Seq<TxOutV>, int)>
    decreases count,
{
    if count <= 0 {
        Some((Seq::empty(), pos))
    } else {
        match parse_txout(b, pos) {
            None => None,
            Some(po) => match parse_txouts(b, po.1, count - 1) {
                None => None,
                Some(pr) => Some((seq![po.0] + pr.0, pr.1)),
            },
        }
    }
}

/// Parses `count` length-prefixed witness items.
pub open spec fn parse_witness_items(b: Seq<u8>, pos: int, count: int) -> Option<
    (Seq<Seq<u8>>, int),
>
    decreases count,
{
    if count <= 0 {
        Some((Seq::empty(), pos))
    } else {
        match parse_compact_size(b, pos) {
            None => None,
            Some(pl) => {
                let p2 = pos + pl.1;
                if p2 + pl.0 > b.len() {
                    None
                } else {
                    match parse_witness_items(b, p2 + pl.0, count - 1) {
                        None => None,
                        Some(pr) => Some((seq![b.subrange(p2, p2 + pl.0)] + pr.0, pr.1)),
                    }
                }
            },
        }
    }
}

/// Parses one input's witness stack.
pub open spec fn parse_witness_stack(b: Seq<u8>, pos: int) -> Option<(Seq<Seq<u8>>, int)> {
    match parse_compact_size(b, pos) {
        None => None,
        Some(pc) => parse_witness_items(b, pos + pc.1, pc.0),
    }
}

/// Parses `count` witness stacks, one per input.
pub open spec fn parse_witness_stacks(b: Seq<u8>, pos: int, count: int) -> Option<
    (Seq<Seq<Seq<u8>>>, int),
>
    decreases count,
{
    if count <= 0 {
        Some((Seq::empty(), pos))
    } else {
        match parse_witness_stack(b, pos) {
            None => None,
            Some(pw) => match parse_witness_stacks(b, pw.1, count - 1) {
                None => None,
                Some(pr) => Some((seq![pw.0] + pr.0, pr.1)),
            },
        }
    }
}

/// Parses a transaction, witness-aware: if the marker and flag follow
/// the version, witness stacks are read, one per input.
pub open spec fn parse_tx(b: Seq<u8>, pos: int) -> Option<
    ((TransactionV, Seq<Seq<Seq<u8>>>), int),
> {
    if pos < 0 || pos + 4 > b.len() {
        None
    } else {
        let version = u32_signed(le_to_int(b.subrange(pos, pos + 4))) as i32;
        let p = pos + 4;
        if p + 2 <= b.len() && b[p] == 0x00 && b[p + 1] == 0x01 {
            match parse_compact_size(b, p + 2) {
                None => None,
                Some(ic) => match parse_txins(b, p + 2 + ic.1, ic.0) {
                    None => None,
                    Some(pi) => match parse_compact_size(b, pi.1) {
                        None => None,
                        Some(oc) => match parse_txouts(b, pi.1 + oc.1, oc.0) {
                            None => None,
                            Some(po) => match parse_witness_stacks(b, po.1, ic.0) {
                                None => None,
                                Some(pw) => {
                                    if pw.1 + 4 > b.len() {
                                        None
                                    } else {
                                        Some(
                                            (
                                                (
                                                    TransactionV {
                                                        version,
                                                        inputs: pi.0,
                                                        outputs: po.0,
                                                        lock_time: le_to_int(
                                                            b.subrange(pw.1, pw.1 + 4),
                                                        ) as u32,
                                                    },
                                                    pw.0,
                                                ),
                                                pw.1 + 4,
                                            ),
                                        )
                                    }
                                },
                            },
                        },
                    },
                },
            }
        } else {
            match parse_compact_size(b, p) {
                None => None,
                Some(ic) => match parse_txins(b, p + ic.1, ic.0) {
                    None => None,
                    Some(pi) => match parse_compact_size(b, pi.1) {
                        None => None,
                        Some(oc) => match parse_txouts(b, pi.1 + oc.1, oc.0) {
                            None => None,
                            Some(po) => {
                                if po.1 + 4 > b.len() {
                                    None
                                } else {
                                    Some(
                                        (
                                            (
                                                TransactionV {
                                                    version,
                                                    inputs: pi.0,
                                                    outputs: po.0,
                                                    lock_time: le_to_int(
                                                        b.subrange(po.1, po.1 + 4),
                                                    ) as u32,
                                                },
                                                Seq::new(pi.0.len(), |i: int| Seq::empty()),
                                            ),
                                            po.1 + 4,
                                        ),
                                    )
                                }
                            },
                        },
                    },
                },
            }
        }
    }
}

/// Parses `count` transactions with their witnesses.
pub open spec fn parse_txs(b: Seq<u8>, pos: int, count: int) -> Option<
    ((Seq<TransactionV>, Seq<Seq<Seq<Seq<u8>>>>), int),
>
    decreases count,
{
    if count <= 0 {
        Some(((Seq::empty(), Seq::empty()), pos))
    } else {
        match parse_tx(b, pos) {
            None => None,
            Some(pt) => match parse_txs(b, pt.1, count - 1) {
                None => None,
                Some(pr) => Some(
                    ((seq![pt.0.0] + pr.0.0, seq![pt.0.1] + pr.0.1), pr.1),
                ),
            },
        }
    }
}

/// Parses an 80-byte header at the start of a buffer.
pub open spec fn parse_header(b: Seq<u8>) -> Option<BlockHeaderV> {
    if b.len() < 80 {
        None
    } else {
        Some(
            BlockHeaderV {
                version: u32_signed(le_to_int(b.subrange(0, 4))) as i32,
                prev_hash: b.subrange(4, 36),
                merkle_root: b.subrange(36, 68),
                time: le_to_int(b.subrange(68, 72)) as u32,
                bits: le_to_int(b.subrange(72, 76)) as u32,
                nonce: le_to_int(b.subrange(76, 80)) as u32,
            },
        )
    }
}

/// Parses a whole block with its witnesses; the buffer must hold exactly
/// one block.
#[verifier::opaque]
pub open spec fn parse_block(b: Seq<u8>) -> Option<(BlockV, Seq<Seq<Seq<Seq<u8>>>>)> {
    match parse_header(b) {
        None => None,
        Some(h) => match parse_compact_size(b, 80) {
            None => None,
            Some(tc) => match parse_txs(b, 80 + tc.1, tc.0) {
                None => None,
                Some(pt) => {
                    if pt.1 == b.len() {
                        Some((BlockV { header: h, transactions: pt.0.0 }, pt.0.1))
                    } else {
                        None
                    }
                },
            },
        },
    }
}

/// The views of a block's per-transaction witness lists.
pub open spec fn block_witnesses_view(ws: Seq<Vec<Witness>>) -> Seq<Seq<Seq<Seq<u8>>>> {
    ws.map_values(|v: Vec<Witness>| witnesses_view(v@))
}

} // verus!

verus! {

/// The views of an input list.
pub open spec fn txins_view(s: Seq<TxIn>) -> Seq<TxInV> {
    s.map_values(|t: TxIn| t@)
}

/// The views of an output list.
pub open spec fn txouts_view(s: Seq<TxOut>) -> Seq<TxOutV> {
    s.map_values(|t: TxOut| t@)
}

/// Reads an outpoint; agrees exactly with `parse_outpoint`.
pub fn read_outpoint(data: &Vec<u8>, pos: usize) -> (r: Option<(OutPoint, usize)>)
    ensures
        match r {
            Some(q) => parse_outpoint(data@, pos as int) == Some((q.0@, q.1 as int)) && q.1
                <= data@.len(),
            None => parse_outpoint(data@, pos as int) is None,
        },
{
    let n = data.len();
    if pos > n || n - pos < 36 {
        return None;
    }
    let mut hash = [0u8; 32];
    let mut j: usize = 0;
    while j < 32
        invariant
            j <= 32,
            n == data@.len(),
            pos + 36 <= n,
            forall|m: int| 0 <= m < j ==> hash@[m] == data@[pos + m],
        decreases 32 - j,
    {
        hash[j] = data[pos + j];
        j = j + 1;
    }
    proof {
        assert(hash@ =~= data@.subrange(pos as int, pos + 32));
        crate::bytes::lemma_le_to_int_bound(data@.subrange(pos + 32, pos + 36));
        crate::bytes::lemma_pow256_values();
    }
    let index = read_u32_le(data, pos + 32);
    Some((OutPoint { hash, index }, pos + 36))
}

/// Reads a transaction input; agrees exactly with `parse_txin`.
pub fn read_txin(data: &Vec<u8>, pos: usize) -> (r: Option<(TxIn, usize)>)
    ensures
        match r {
            Some(q) => parse_txin(data@, pos as int) == Some((q.0@, q.1 as int)) && q.1
                <= data@.len(),
            None => parse_txin(data@, pos as int) is None,
        },
{
    let n = data.len();
    let (prevout, p1) = match read_outpoint(data, pos) {
        None => {
            return None;
        },
        Some(q) => q,
    };
    let (slen, n1) = match read_compact_size(data, p1) {
        None => {
            return None;
        },
        Some(q) => q,
    };
    proof {
        crate::bytes::lemma_parse_compact_size_bounds(data@, p1 as int);
    }
    let p2 = p1 + n1;
    if slen > (n - p2) as u64 {
        return None;
    }
    let slen_us = slen as usize;
    let script_sig = subvec(data, p2, p2 + slen_us);
    let p3 = p2 + slen_us;
    if n - p3 < 4 {
        return None;
    }
    let sequence = read_u32_le(data, p3);
    proof {
        crate::bytes::lemma_le_to_int_bound(data@.subrange(p3 as int, p3 + 4));
        crate::bytes::lemma_pow256_values();
    }
    Some((TxIn { prevout, script_sig, sequence }, p3 + 4))
}

/// Reads `count` transaction inputs; agrees exactly with `parse_txins`.
pub fn read_txins(data: &Vec<u8>, pos: usize, count: u64) -> (r: Option<(Vec<TxIn>, usize)>)
    requires
        pos <= data@.len(),
    ensures
        match r {
            Some(q) => parse_txins(data@, pos as int, count as int) == Some(
                (txins_view(q.0@), q.1 as int),
            ) && q.1 <= data@.len(),
            None => parse_txins(data@, pos as int, count as int) is None,
        },
{
    let mut acc: Vec<TxIn> = Vec::new();
    let mut cur = pos;
    let mut rem = count;
    proof {
        assert(txins_view(acc@) =~= Seq::<TxInV>::empty());
    }
    while rem > 0
        invariant
            cur <= data@.len(),
            match parse_txins(data@, cur as int, rem as int) {
                Some(pr) => parse_txins(data@, pos as int, count as int) == Some(
                    (txins_view(acc@) + pr.0, pr.1),
                ),
                None => parse_txins(data@, pos as int, count as int) is None,
            },
        decreases rem,
    {
        let ghost accv = txins_view(acc@);
        match read_txin(data, cur) {
            None => {
                return None;
            },
            Some(q) => {
                let ghost tv = q.0@;
                acc.push(q.0);
                proof {
                    assert(txins_view(acc@) =~= accv.push(tv));
                    match parse_txins(data@, q.1 as int, rem - 1) {
                        None => {},
                        Some(pr) => {
                            assert(accv + (seq![tv] + pr.0) =~= txins_view(acc@) + pr.0);
                        },
                    }
                }
                cur = q.1;
                rem = rem - 1;
            },
        }
    }
    proof {
        assert(txins_view(acc@) + Seq::<TxInV>::empty() =~= txins_view(acc@));
    }
    Some((acc, cur))
}

/// Reads a transaction output; agrees exactly with `parse_txout`.
pub fn read_txout(data: &Vec<u8>, pos: usize) -> (r: Option<(TxOut, usize)>)
    ensures
        match r {
            Some(q) => parse_txout(data@, pos as int) == Some((q.0@, q.1 as int)) && q.1
                <= data@.len(),
            None => parse_txout(data@, pos as int) is None,
        },
{
    let n = data.len();
    if pos > n || n - pos < 8 {
        return None;
    }
    let value = read_u64_le(data, pos);
    let (slen, n1) = match read_compact_size(data, pos + 8) {
        None => {
            return None;
        },
        Some(q) => q,
    };
    proof {
        crate::bytes::lemma_parse_compact_size_bounds(data@, pos + 8);
        crate::bytes::lemma_le_to_int_bound(data@.subrange(pos as int, pos + 8));
        crate::bytes::lemma_pow256_values();
    }
    let p2 = pos + 8 + n1;
    if slen > (n - p2) as u64 {
        return None;
    }
    let slen_us = slen as usize;
    let script_pubkey = subvec(data, p2, p2 + slen_us);
    Some((TxOut { value, script_pubkey }, p2 + slen_us))
}

/// Reads `count` transaction outputs; agrees exactly with `parse_txouts`.
pub fn read_txouts(data: &Vec<u8>, pos: usize, count: u64) -> (r: Option<(Vec<TxOut>, usize)>)
    requires
        pos <= data@.len(),
    ensures
        match r {
            Some(q) => parse_txouts(data@, pos as int, count as int) == Some(
                (txouts_view(q.0@), q.1 as int),
            ) && q.1 <= data@.len(),
            None => parse_txouts(data@, pos as int, count as int) is None,
        },
{
    let mut acc: Vec<TxOut> = Vec::new();
    let mut cur = pos;
    let mut rem = count;
    proof {
        assert(txouts_view(acc@) =~= Seq::<TxOutV>::empty());
    }
    while rem > 0
        invariant
            cur <= data@.len(),
            match parse_txouts(data@, cur as int, rem as int) {
                Some(pr) => parse_txouts(data@, pos as int, count as int) == Some(
                    (txouts_view(acc@) + pr.0, pr.1),
                ),
                None => parse_txouts(data@, pos as int, count as int) is None,
            },
        decreases rem,
    {
        let ghost accv = txouts_view(acc@);
        match read_txout(data, cur) {
            None => {
                return None;
            },
            Some(q) => {
                let ghost tv = q.0@;
                acc.push(q.0);
                proof {
                    assert(txouts_view(acc@) =~= accv.push(tv));
                    match parse_txouts(data@, q.1 as int, rem - 1) {
                        None => {},
                        Some(pr) => {
                            assert(accv + (seq![tv] + pr.0) =~= txouts_view(acc@) + pr.0);
                        },
                    }
                }
                cur = q.1;
                rem = rem - 1;
            },
        }
    }
    proof {
        assert(txouts_view(acc@) + Seq::<TxOutV>::empty() =~= txouts_view(acc@));
    }
    Some((acc, cur))
}

/// Reads one witness stack; agrees exactly with `parse_witness_stack`.
pub fn read_witness_stack(data: &Vec<u8>, pos: usize) -> (r: Option<(Witness, usize)>)
    ensures
        match r {
            Some(q) => parse_witness_stack(data@, pos as int) == Some((q.0@, q.1 as int)) && q.1
                <= data@.len(),
            None => parse_witness_stack(data@, pos as int) is None,
        },
{
    let n = data.len();
    let (count, nc) = match read_compact_size(data, pos) {
        None => {
            return None;
        },
        Some(q) => q,
    };
    proof {
        crate::bytes::lemma_parse_compact_size_bounds(data@, pos as int);
    }
    let start = pos + nc;
    let mut items: Vec<Vec<u8>> = Vec::new();
    let mut cur = start;
    let mut rem = count;
    proof {
        assert(crate::script::stack_view(items@) =~= Seq::<Seq<u8>>::empty());
    }
    while rem > 0
        invariant
            cur <= data@.len(),
            parse_compact_size(data@, pos as int) == Some((count as int, nc as int)),
            start == pos + nc,
            match parse_witness_items(data@, cur as int, rem as int) {
                Some(pr) => parse_witness_items(data@, start as int, count as int) == Some(
                    (crate::script::stack_view(items@) + pr.0, pr.1),
                ),
                None => parse_witness_items(data@, start as int, count as int) is None,
            },
        decreases rem,
    {
        let ghost accv = crate::script::stack_view(items@);
        let n2 = data.len();
        let (ilen, inl) = match read_compact_size(data, cur) {
            None => {
                return None;
            },
            Some(q) => q,
        };
        proof {
            crate::bytes::lemma_parse_compact_size_bounds(data@, cur as int);
        }
        let p2 = cur + inl;
        if ilen > (n2 - p2) as u64 {
            return None;
        }
        let ilen_us = ilen as usize;
        let item = subvec(data, p2, p2 + ilen_us);
        let ghost iv = item@;
        items.push(item);
        proof {
            assert(crate::script::stack_view(items@) =~= accv.push(iv));
            match parse_witness_items(data@, p2 + ilen_us, rem - 1) {
                None => {},
                Some(pr) => {
                    assert(accv + (seq![iv] + pr.0) =~= crate::script::stack_view(items@) + pr.0);
                },
            }
        }
        cur = p2 + ilen_us;
        rem = rem - 1;
    }
    proof {
        assert(crate::script::stack_view(items@) + Seq::<Seq<u8>>::empty()
            =~= crate::script::stack_view(items@));
    }
    Some((Witness { stack: items }, cur))
}

/// Reads `count` witness stacks; agrees exactly with
/// `parse_witness_stacks`.
pub fn read_witness_stacks(data: &Vec<u8>, pos: usize, count: u64) -> (r: Option<
    (Vec<Witness>, usize),
>)
    requires
        pos <= data@.len(),
    ensures
        match r {
            Some(q) => parse_witness_stacks(data@, pos as int, count as int) == Some(
                (witnesses_view(q.0@), q.1 as int),
            ) && q.1 <= data@.len(),
            None => parse_witness_stacks(data@, pos as int, count as int) is None,
        },
{
    let mut acc: Vec<Witness> = Vec::new();
    let mut cur = pos;
    let mut rem = count;
    proof {
        assert(witnesses_view(acc@) =~= Seq::<Seq<Seq<u8>>>::empty());
    }
    while rem > 0
        invariant
            cur <= data@.len(),
            match parse_witness_stacks(data@, cur as int, rem as int) {
                Some(pr) => parse_witness_stacks(data@, pos as int, count as int) == Some(
                    (witnesses_view(acc@) + pr.0, pr.1),
                ),
                None => parse_witness_stacks(data@, pos as int, count as int) is None,
            },
        decreases rem,
    {
        let ghost accv = witnesses_view(acc@);
        match read_witness_stack(data, cur) {
            None => {
                return None;
            },
            Some(q) => {
                let ghost wv = q.0@;
                acc.push(q.0);
                proof {
                    assert(witnesses_view(acc@) =~= accv.push(wv));
                    match parse_witness_stacks(data@, q.1 as int, rem - 1) {
                        None => {},
                        Some(pr) => {
                            assert(accv + (seq![wv] + pr.0) =~= witnesses_view(acc@) + pr.0);
                        },
                    }
                }
                cur = q.1;
                rem = rem - 1;
            },
        }
    }
    proof {
        assert(witnesses_view(acc@) + Seq::<Seq<Seq<u8>>>::empty() =~= witnesses_view(acc@));
    }
    Some((acc, cur))
}

} // verus!

verus! {

/// Reads a transaction, witness-aware; agrees exactly with `parse_tx`.
pub fn read_tx(data: &Vec<u8>, pos: usize) -> (r: Option<((Transaction, Vec<Witness>), usize)>)
    ensures
        match r {
            Some(q) => parse_tx(data@, pos as int) == Some(
                ((q.0.0@, witnesses_view(q.0.1@)), q.1 as int),
            ) && q.1 <= data@.len(),
            None => parse_tx(data@, pos as int) is None,
        },
{
    let n = data.len();
    if pos > n || n - pos < 4 {
        return None;
    }
    let vraw = read_u32_le(data, pos);
    proof {
        crate::bytes::lemma_le_to_int_bound(data@.subrange(pos as int, pos + 4));
        crate::bytes::lemma_pow256_values();
    }
    let version = bits_to_i32(vraw);
    let p = pos + 4;
    let witness_form = n - p >= 2 && data[p] == 0x00 && data[p + 1] == 0x01;
    proof {
        assert((n - p >= 2) == (p + 2 <= data@.len()));
    }
    if witness_form {
        let (ic, icn) = match read_compact_size(data, p + 2) {
            None => {
                return None;
            },
            Some(q) => q,
        };
        proof {
            crate::bytes::lemma_parse_compact_size_bounds(data@, p + 2);
        }
        let (inputs, p1) = match read_txins(data, p + 2 + icn, ic) {
            None => {
                return None;
            },
            Some(q) => q,
        };
        let (oc, ocn) = match read_compact_size(data, p1) {
            None => {
                return None;
            },
            Some(q) => q,
        };
        proof {
            crate::bytes::lemma_parse_compact_size_bounds(data@, p1 as int);
        }
        let (outputs, p2) = match read_txouts(data, p1 + ocn, oc) {
            None => {
                return None;
            },
            Some(q) => q,
        };
        let (ws, p3) = match read_witness_stacks(data, p2, ic) {
            None => {
                return None;
            },
            Some(q) => q,
        };
        if n - p3 < 4 {
            return None;
        }
        let lock_time = read_u32_le(data, p3);
        proof {
            crate::bytes::lemma_le_to_int_bound(data@.subrange(p3 as int, p3 + 4));
            crate::bytes::lemma_pow256_values();
        }
        let tx = Transaction { version, inputs, outputs, lock_time };
        proof {
            assert(tx@.inputs =~= txins_view(tx.inputs@));
            assert(tx@.outputs =~= txouts_view(tx.outputs@));
        }
        Some(((tx, ws), p3 + 4))
    } else {
        let (ic, icn) = match read_compact_size(data, p) {
            None => {
                return None;
            },
            Some(q) => q,
        };
        proof {
            crate::bytes::lemma_parse_compact_size_bounds(data@, p as int);
        }
        let (inputs, p1) = match read_txins(data, p + icn, ic) {
            None => {
                return None;
            },
            Some(q) => q,
        };
        let (oc, ocn) = match read_compact_size(data, p1) {
            None => {
                return None;
            },
            Some(q) => q,
        };
        proof {
            crate::bytes::lemma_parse_compact_size_bounds(data@, p1 as int);
        }
        let (outputs, p2) = match read_txouts(data, p1 + ocn, oc) {
            None => {
                return None;
            },
            Some(q) => q,
        };
        if n - p2 < 4 {
            return None;
        }
        let lock_time = read_u32_le(data, p2);
        proof {
            crate::bytes::lemma_le_to_int_bound(data@.subrange(p2 as int, p2 + 4));
            crate::bytes::lemma_pow256_values();
        }
        let mut ws: Vec<Witness> = Vec::new();
        let mut k: usize = 0;
        let in_count = inputs.len();
        while k < in_count
            invariant
                k <= in_count,
                witnesses_view(ws@).len() == k,
                forall|m: int| 0 <= m < k ==> witnesses_view(ws@)[m] == Seq::<Seq<u8>>::empty(),
            decreases in_count - k,
        {
            let ghost pre = witnesses_view(ws@);
            let w = Witness { stack: Vec::new() };
            proof {
                assert(w@ =~= Seq::<Seq<u8>>::empty());
            }
            ws.push(w);
            proof {
                assert(witnesses_view(ws@) =~= pre.push(Seq::<Seq<u8>>::empty()));
            }
            k = k + 1;
        }
        let tx = Transaction { version, inputs, outputs, lock_time };
        proof {
            assert(tx@.inputs =~= txins_view(tx.inputs@));
            assert(tx@.outputs =~= txouts_view(tx.outputs@));
            assert(witnesses_view(ws@) =~= Seq::new(tx@.inputs.len(), |i: int| Seq::<Seq<u8>>::empty()));
        }
        Some(((tx, ws), p2 + 4))
    }
}

/// Reads `count` transactions; agrees exactly with `parse_txs`.
pub fn read_txs(data: &Vec<u8>, pos: usize, count: u64) -> (r: Option<
    ((Vec<Transaction>, Vec<Vec<Witness>>), usize),
>)
    requires
        pos <= data@.len(),
    ensures
        match r {
            Some(q) => parse_txs(data@, pos as int, count as int) == Some(
                (
                    (
                        q.0.0@.map_values(|t: Transaction| t@),
                        block_witnesses_view(q.0.1@),
                    ),
                    q.1 as int,
                ),
            ) && q.1 <= data@.len(),
            None => parse_txs(data@, pos as int, count as int) is None,
        },
{
    let mut txs: Vec<Transaction> = Vec::new();
    let mut wits: Vec<Vec<Witness>> = Vec::new();
    let mut cur = pos;
    let mut rem = count;
    proof {
        assert(txs@.map_values(|t: Transaction| t@) =~= Seq::<TransactionV>::empty());
        assert(block_witnesses_view(wits@) =~= Seq::<Seq<Seq<Seq<u8>>>>::empty());
    }
    while rem > 0
        invariant
            cur <= data@.len(),
            match parse_txs(data@, cur as int, rem as int) {
                Some(pr) => parse_txs(data@, pos as int, count as int) == Some(
                    (
                        (
                            txs@.map_values(|t: Transaction| t@) + pr.0.0,
                            block_witnesses_view(wits@) + pr.0.1,
                        ),
                        pr.1,
                    ),
                ),
                None => parse_txs(data@, pos as int, count as int) is None,
            },
        decreases rem,
    {
        let ghost txsv = txs@.map_values(|t: Transaction| t@);
        let ghost witsv = block_witnesses_view(wits@);
        match read_tx(data, cur) {
            None => {
                return None;
            },
            Some(q) => {
                let (tx, ws) = q.0;
                let ghost tv = tx@;
                let ghost wv = witnesses_view(ws@);
                txs.push(tx);
                wits.push(ws);
                proof {
                    assert(txs@.map_values(|t: Transaction| t@) =~= txsv.push(tv));
                    assert(block_witnesses_view(wits@) =~= witsv.push(wv));
                    match parse_txs(data@, q.1 as int, rem - 1) {
                        None => {},
                        Some(pr) => {
                            assert(txsv + (seq![tv] + pr.0.0) =~= txs@.map_values(
                                |t: Transaction| t@,
                            ) + pr.0.0);
                            assert(witsv + (seq![wv] + pr.0.1) =~= block_witnesses_view(wits@)
                                + pr.0.1);
                        },
                    }
                }
                cur = q.1;
                rem = rem - 1;
            },
        }
    }
    proof {
        assert(txs@.map_values(|t: Transaction| t@) + Seq::<TransactionV>::empty() =~= txs@
            .map_values(|t: Transaction| t@));
        assert(block_witnesses_view(wits@) + Seq::<Seq<Seq<Seq<u8>>>>::empty()
            =~= block_witnesses_view(wits@));
    }
    Some(((txs, wits), cur))
}

/// Parses a whole block with its witnesses, addressable by transaction
/// and input index; agrees exactly with `parse_block`. `None` is the
/// malformed-block failure: truncation, an oversize count form, or a
/// length mismatch.
pub fn deserialize_block(data: &Vec<u8>) -> (r: Option<(Block, Vec<Vec<Witness>>)>)
    ensures
        match r {
            Some(q) => parse_block(data@) == Some((q.0@, block_witnesses_view(q.1@))),
            None => parse_block(data@) is None,
        },
{
    proof {
        reveal(parse_block);
    }
    let n = data.len();
    if n < 80 {
        return None;
    }
    let vraw = read_u32_le(data, 0);
    proof {
        crate::bytes::lemma_le_to_int_bound(data@.subrange(0, 4));
        crate::bytes::lemma_le_to_int_bound(data@.subrange(68, 72));
        crate::bytes::lemma_le_to_int_bound(data@.subrange(72, 76));
        crate::bytes::lemma_le_to_int_bound(data@.subrange(76, 80));
        crate::bytes::lemma_pow256_values();
    }
    let version = bits_to_i32(vraw);
    let mut prev_hash = [0u8; 32];
    let mut j: usize = 0;
    while j < 32
        invariant
            j <= 32,
            n == data@.len(),
            n >= 80,
            forall|m: int| 0 <= m < j ==> prev_hash@[m] == data@[4 + m],
        decreases 32 - j,
    {
        prev_hash[j] = data[4 + j];
        j = j + 1;
    }
    let mut merkle_root = [0u8; 32];
    let mut k: usize = 0;
    while k < 32
        invariant
            k <= 32,
            n == data@.len(),
            n >= 80,
            forall|m: int| 0 <= m < k ==> merkle_root@[m] == data@[36 + m],
        decreases 32 - k,
    {
        merkle_root[k] = data[36 + k];
        k = k + 1;
    }
    proof {
        assert(prev_hash@ =~= data@.subrange(4, 36));
        assert(merkle_root@ =~= data@.subrange(36, 68));
    }
    let time = read_u32_le(data, 68);
    let bits = read_u32_le(data, 72);
    let nonce = read_u32_le(data, 76);
    let header = BlockHeader { version, prev_hash, merkle_root, time, bits, nonce };
    let (tc, tcn) = match read_compact_size(data, 80) {
        None => {
            return None;
        },
        Some(q) => q,
    };
    proof {
        crate::bytes::lemma_parse_compact_size_bounds(data@, 80);
    }
    let (pair, endpos) = match read_txs(data, 80 + tcn, tc) {
        None => {
            return None;
        },
        Some(q) => q,
    };
    if endpos != n {
        return None;
    }
    let block = Block { header, transactions: pair.0 };
    proof {
        assert(block@.transactions =~= pair.0@.map_values(|t: Transaction| t@));
        assert(block@.header =~= parse_header(data@)->Some_0);
    }
    Some((block, pair.1))
}

/// The parent of two merkle nodes.
pub open spec fn merkle_parent(a: Seq<u8>, b: Seq<u8>) -> Seq<u8> {
    dsha256_of(a + b)
}

/// One level of the merkle tree; an odd last node pairs with itself.
pub open spec fn merkle_level(s: Seq<Seq<u8>>) -> Seq<Seq<u8>> {
    Seq::new(
        (s.len() + 1) / 2,
        |i: int|
            merkle_parent(
                s[2 * i],
                if 2 * i + 1 < s.len() {
                    s[2 * i + 1]
                } else {
                    s[2 * i]
                },
            ),
    )
}

/// The merkle root of a non-empty list of transaction hashes.
pub open spec fn merkle_root_of(s: Seq<Seq<u8>>) -> Seq<u8>
    decreases s.len(),
{
    if s.len() <= 1 {
        if s.len() == 0 {
            Seq::empty()
        } else {
            s[0]
        }
    } else {
        merkle_root_of(merkle_level(s))
    }
}

/// The views of a hash list.
pub open spec fn ids_view(s: Seq<[u8; 32]>) -> Seq<Seq<u8>> {
    s.map_values(|a: [u8; 32]| a@)
}

/// Computes the merkle root of a non-empty list of hashes.
pub fn compute_merkle_root(ids: &Vec<[u8; 32]>) -> (r: [u8; 32])
    requires
        ids@.len() >= 1,
    ensures
        r@ == merkle_root_of(ids_view(ids@)),
{
    let mut level: Vec<[u8; 32]> = Vec::new();
    let mut i: usize = 0;
    while i < ids.len()
        invariant
            i <= ids@.len(),
            level@ == ids@.subrange(0, i as int),
        decreases ids@.len() - i,
    {
        level.push(ids[i]);
        proof {
            assert(level@ =~= ids@.subrange(0, i + 1));
        }
        i = i + 1;
    }
    proof {
        assert(ids@.subrange(0, ids@.len() as int) =~= ids@);
    }
    while level.len() > 1
        invariant
            level@.len() >= 1,
            merkle_root_of(ids_view(level@)) == merkle_root_of(ids_view(ids@)),
        decreases level@.len(),
    {
        let cur_len = level.len();
        let half = cur_len / 2 + cur_len % 2;
        let mut next: Vec<[u8; 32]> = Vec::new();
        let mut j: usize = 0;
        proof {
            assert(half == (cur_len + 1) / 2);
            assert(ids_view(next@) =~= merkle_level(ids_view(level@)).subrange(0, 0));
        }
        while j < half
            invariant
                cur_len == level@.len(),
                cur_len >= 2,
                half == (cur_len + 1) / 2,
                j <= half,
                half <= cur_len,
                ids_view(next@) == merkle_level(ids_view(level@)).subrange(0, j as int),
            decreases half - j,
        {
            let ghost pre = ids_view(next@);
            let left = level[2 * j];
            let right = if 2 * j + 1 < cur_len {
                level[2 * j + 1]
            } else {
                level[2 * j]
            };
            let mut cat: Vec<u8> = Vec::new();
            push_slice(&mut cat, left.as_slice());
            push_slice(&mut cat, right.as_slice());
            let parent = dsha256(cat.as_slice());
            let ghost prelen = next@.len();
            next.push(parent);
            proof {
                assert(cat@ =~= left@ + right@);
                assert(parent@ == merkle_level(ids_view(level@))[j as int]);
                assert(pre.len() == j as int);
                assert(prelen == j as int);
                assert(next@.len() == j + 1);
                assert forall|m: int| 0 <= m < j + 1 implies ids_view(next@)[m] == merkle_level(
                    ids_view(level@),
                ).subrange(0, j + 1)[m] by {
                    if m < j {
                        assert(ids_view(next@)[m] == pre[m]);
                    } else {
                        assert(ids_view(next@)[m] == parent@);
                    }
                }
                assert(ids_view(next@) =~= merkle_level(ids_view(level@)).subrange(0, j + 1));
            }
            j = j + 1;
        }
        proof {
            assert(merkle_level(ids_view(level@)).subrange(
                0,
                merkle_level(ids_view(level@)).len() as int,
            ) =~= merkle_level(ids_view(level@)));
            assert(merkle_root_of(ids_view(level@)) == merkle_root_of(
                merkle_level(ids_view(level@)),
            ));
        }
        level = next;
    }
    proof {
        assert(merkle_root_of(ids_view(level@)) == ids_view(level@)[0]);
    }
    level[0]
}

} // verus!
