//! The script interpreter: a stack machine over Bitcoin Script with an
//! exact mathematical semantics, flag-gated rules that only ever add
//! failure conditions, and signature checking delegated to an abstract
//! checker.

use vstd::prelude::*;
use crate::bytes::le_to_int;
use crate::hashes::{sha256, sha256_of, dsha256, dsha256_of};
use crate::types::clone_bytes;

verus! {

/// The rules in force during script evaluation. Every flag only adds
/// failure conditions; it never changes a value the machine computes.
#[derive(Clone, Copy, PartialEq, Eq, Structural)]
pub struct ScriptFlags {
    /// Pushes must use their shortest form.
    pub minimal_data: bool,
    /// The upgradable no-op opcodes fail the script.
    pub discourage_upgradable_nops: bool,
    /// Pay-to-script-hash outputs run their redeem script.
    pub p2sh: bool,
    /// The absolute lock-time opcode checks its operand.
    pub cltv: bool,
    /// The relative lock-time opcode checks its operand.
    pub csv: bool,
    /// The multisig dummy element must be empty.
    pub null_dummy: bool,
    /// Version-0 witness programs are validated.
    pub segwit: bool,
    /// Version-1 witness programs are validated.
    pub taproot: bool,
    /// Exactly one element may remain on the stack after evaluation.
    pub clean_stack: bool,
}

impl ScriptFlags {
    /// No rule active.
    pub fn none() -> (r: ScriptFlags)
        ensures
            r == (ScriptFlags {
                minimal_data: false,
                discourage_upgradable_nops: false,
                p2sh: false,
                cltv: false,
                csv: false,
                null_dummy: false,
                segwit: false,
                taproot: false,
                clean_stack: false,
            }),
    {
        ScriptFlags {
            minimal_data: false,
            discourage_upgradable_nops: false,
            p2sh: false,
            cltv: false,
            csv: false,
            null_dummy: false,
            segwit: false,
            taproot: false,
            clean_stack: false,
        }
    }

    /// Every rule active.
    pub fn all() -> (r: ScriptFlags)
        ensures
            r == (ScriptFlags {
                minimal_data: true,
                discourage_upgradable_nops: true,
                p2sh: true,
                cltv: true,
                csv: true,
                null_dummy: true,
                segwit: true,
                taproot: true,
                clean_stack: true,
            }),
    {
        ScriptFlags {
            minimal_data: true,
            discourage_upgradable_nops: true,
            p2sh: true,
            cltv: true,
            csv: true,
            null_dummy: true,
            segwit: true,
            taproot: true,
            clean_stack: true,
        }
    }
}

/// Whether every rule of `a` is also a rule of `b`.
pub open spec fn flags_leq(a: ScriptFlags, b: ScriptFlags) -> bool {
    &&& (a.minimal_data ==> b.minimal_data)
    &&& (a.discourage_upgradable_nops ==> b.discourage_upgradable_nops)
    &&& (a.p2sh ==> b.p2sh)
    &&& (a.cltv ==> b.cltv)
    &&& (a.csv ==> b.csv)
    &&& (a.null_dummy ==> b.null_dummy)
    &&& (a.segwit ==> b.segwit)
    &&& (a.taproot ==> b.taproot)
    &&& (a.clean_stack ==> b.clean_stack)
}

/// Why a script failed.
#[derive(Clone, Copy, PartialEq, Eq, Structural, Debug)]
pub enum ScriptError {
    /// An opcode this machine does not define or accept.
    BadOpcode,
    /// A pop from an empty stack.
    StackUnderflow,
    /// More than 1000 elements across both stacks.
    StackOverflow,
    /// A pushed item over 520 bytes.
    PushSize,
    /// A script over 10000 bytes.
    ScriptSize,
    /// More than 201 non-push opcodes.
    OpCount,
    /// A push was truncated by the end of the script.
    BadPush,
    /// A push did not use its shortest form.
    MinimalData,
    /// An upgradable no-op under the discouraging rule.
    DiscourageUpgradableNops,
    /// An arithmetic operand over four bytes.
    NumberRange,
    /// The verify opcode saw a false value.
    Verify,
    /// The unspendable return opcode was executed.
    OpReturn,
    /// The final stack top was not truthy.
    EvalFalse,
    /// More than one element left under the clean-stack rule.
    CleanStack,
    /// Witness data present where the script cannot carry it.
    WitnessUnexpected,
    /// The witness script does not hash to the program.
    WitnessProgramMismatch,
    /// A v0 witness spend with a non-empty script signature.
    WitnessMalleated,
    /// An empty witness stack for a witness program.
    WitnessEmpty,
    /// A witness program form this machine does not validate.
    UnsupportedWitnessProgram,
    /// A conditional left open, closed unopened, or started on an
    /// empty stack.
    UnbalancedConditional,
    /// An opcode disabled by consensus, anywhere in the script.
    DisabledOpcode,
    /// A script signature holding more than pushes where only pushes
    /// are allowed.
    PushOnly,
    /// A non-empty multisig dummy element under the null-dummy rule.
    NullDummy,
    /// A negative lock-time operand.
    NegativeLockTime,
    /// A lock-time operand the transaction does not satisfy.
    UnsatisfiedLockTime,
    /// A multisig signature count outside its range.
    SigCount,
    /// A multisig public-key count outside its range.
    PubkeyCount,
}

/// The signed little-endian integer a script number denotes: the top bit
/// of the last byte is the sign, the rest the magnitude.
pub open spec fn num_of(b: Seq<u8>) -> int {
    if b.len() == 0 {
        0
    } else {
        let m = le_to_int(b.update(b.len() - 1, (b.last() & 0x7f) as u8));
        if b.last() >= 0x80 {
            -m
        } else {
            m
        }
    }
}

/// Whether a script number is minimally encoded: no trailing zero byte
/// unless it carries the sign of the byte before it.
pub open spec fn num_minimal(b: Seq<u8>) -> bool {
    b.len() == 0 || (b.last() & 0x7f) != 0 || (b.len() > 1 && (b[b.len() - 2] & 0x80) != 0)
}

/// Script truth: any non-zero byte makes a value true, except a bare
/// sign bit in the last position (negative zero).
pub open spec fn truthy(b: Seq<u8>) -> bool {
    exists|i: int| 0 <= i < b.len() && b[i] != 0 && !(i == b.len() - 1 && b[i] == 0x80)
}

/// Evaluates script truth.
pub fn cast_to_bool(b: &Vec<u8>) -> (r: bool)
    ensures
        r == truthy(b@),
{
    let n = b.len();
    let mut i: usize = 0;
    while i < n
        invariant
            i <= n,
            n == b@.len(),
            forall|j: int| 0 <= j < i ==> !(b@[j] != 0 && !(j == b@.len() - 1 && b@[j] == 0x80)),
        decreases n - i,
    {
        if b[i] != 0 {
            if i == n - 1 && b[i] == 0x80 {
            } else {
                proof {
                    assert(b@[i as int] != 0 && !(i as int == b@.len() - 1 && b@[i as int]
                        == 0x80));
                }
                return true;
            }
        }
        i = i + 1;
    }
    false
}

/// Decodes a script number of at most four bytes; `None` when too long.
pub fn decode_num(b: &Vec<u8>) -> (r: Option<i64>)
    ensures
        match r {
            Some(v) => b@.len() <= 4 && v as int == num_of(b@),
            None => b@.len() > 4,
        },
{
    let n = b.len();
    if n > 4 {
        return None;
    }
    if n == 0 {
        return Some(0);
    }
    let ghost masked = b@.update(b@.len() - 1, (b@.last() & 0x7f) as u8);
    let mut m: i64 = 0;
    let mut scale: i64 = 1;
    let mut i: usize = 0;
    while i < n
        invariant
            i <= n,
            1 <= n <= 4,
            n == b@.len(),
            masked == b@.update(b@.len() - 1, (b@.last() & 0x7f) as u8),
            masked.len() == n,
            i <= 3 ==> scale == crate::bytes::pow256(i as int),
            0 <= m < 0x1_0000_0000,
            m == le_to_int(masked.subrange(0, i as int)),
        decreases n - i,
    {
        let byte: u8 = if i == n - 1 {
            b[i] & 0x7f
        } else {
            b[i]
        };
        proof {
            assert(masked[i as int] == byte) by {
                if i < n - 1 {
                    assert(masked[i as int] == b@[i as int]);
                }
            }
            crate::bytes::lemma_pow256_values();
            assert(scale <= 0x100_0000) by {
                if i == 0 {
                } else if i == 1 {
                } else if i == 2 {
                } else {
                }
            }
            lemma_le_snoc(masked.subrange(0, i as int), byte);
            assert(masked.subrange(0, i + 1) =~= masked.subrange(0, i as int).push(byte));
            assert((byte as int) * scale <= 255 * 0x100_0000) by (nonlinear_arith)
                requires
                    0 <= byte as int <= 255,
                    0 <= scale <= 0x100_0000,
            ;
            crate::bytes::lemma_le_to_int_bound(masked.subrange(0, i + 1));
            assert(crate::bytes::pow256(i + 1) <= 0x1_0000_0000) by {
                if i == 0 {
                } else if i == 1 {
                } else if i == 2 {
                } else {
                }
            }
            assert((byte as int) * scale == scale * (byte as int)) by (nonlinear_arith);
            assert(m + (byte as int) * scale == le_to_int(masked.subrange(0, i + 1)));
            assert(m + (byte as int) * scale < 0x1_0000_0000);
        }
        m = m + (byte as i64) * scale;
        if i < 3 {
            scale = scale * 256;
        }
        i = i + 1;
    }
    proof {
        assert(masked.subrange(0, n as int) =~= masked);
    }
    let v: i64 = if b[n - 1] >= 0x80 {
        -m
    } else {
        m
    };
    Some(v)
}

/// Appending a byte to a little-endian sequence adds it at the top place.
pub proof fn lemma_le_snoc(s: Seq<u8>, x: u8)
    ensures
        le_to_int(s.push(x)) == le_to_int(s) + crate::bytes::pow256(s.len() as int) * x,
    decreases s.len(),
{
    if s.len() == 0 {
        assert(s.push(x)[0] == x);
        assert(s.push(x).drop_first() =~= Seq::<u8>::empty());
        assert(le_to_int(s.push(x)) == x + 256 * le_to_int(s.push(x).drop_first()));
        assert(le_to_int(Seq::<u8>::empty()) == 0);
        assert(crate::bytes::pow256(0) == 1);
    } else {
        assert(s.push(x).drop_first() =~= s.drop_first().push(x));
        lemma_le_snoc(s.drop_first(), x);
        let p1 = crate::bytes::pow256(s.len() - 1);
        let xd = le_to_int(s.drop_first());
        assert(s.push(x)[0] == s[0]);
        assert(le_to_int(s.push(x)) == s[0] + 256 * le_to_int(s.drop_first().push(x)));
        assert(le_to_int(s) == s[0] + 256 * xd);
        assert(crate::bytes::pow256(s.len() as int) == 256 * p1);
        assert(256 * (xd + p1 * x) == 256 * xd + (256 * p1) * x) by (nonlinear_arith);
    }
}

/// Encodes an integer as a minimal script number.
pub fn encode_num(v: i64) -> (r: Vec<u8>)
    requires
        -0x8000_0000_0000 <= v <= 0x8000_0000_0000,
    ensures
        num_of(r@) == v,
        num_minimal(r@),
        r@ == num_bytes_of(v as int),
{
    let mut out: Vec<u8> = Vec::new();
    if v == 0 {
        proof {
            assert(num_of(out@) == 0);
        }
        return out;
    }
    let neg = v < 0;
    let mut m: u64 = if neg {
        (-v) as u64
    } else {
        v as u64
    };
    let ghost m0 = m;
    while m > 0
        invariant
            le_to_int(out@) + crate::bytes::pow256(out@.len() as int) * m == m0,
            le_to_int(out@) < crate::bytes::pow256(out@.len() as int),
            m == 0 ==> out@.len() > 0 && out@.last() != 0,
            out@ + mag_bytes(m as int) == mag_bytes(m0 as int),
        decreases m,
    {
        let ghost pre = out@;
        let b: u8 = (m % 256) as u8;
        let ghost mi = m as int;
        out.push(b);
        m = m / 256;
        proof {
            lemma_le_snoc(pre, b);
            let p = crate::bytes::pow256(pre.len() as int);
            crate::bytes::lemma_pow256_pos(pre.len() as int);
            assert(le_to_int(out@) == le_to_int(pre) + p * (mi % 256));
            assert(crate::bytes::pow256(out@.len() as int) == 256 * p);
            assert(p * (mi % 256) + (256 * p) * (mi / 256) == p * mi) by (nonlinear_arith);
            assert(le_to_int(pre) + p * (mi % 256) < 256 * p) by (nonlinear_arith)
                requires
                    le_to_int(pre) < p,
                    0 <= mi % 256 < 256,
                    p > 0,
            ;
            if mi / 256 == 0 {
                assert(out@.last() == b);
                assert(mi < 256) by (nonlinear_arith)
                    requires
                        mi / 256 == 0,
                        mi >= 0,
                ;
                assert(b as int == mi % 256);
                assert(mi % 256 == mi);
            }
            assert(mag_bytes(mi) == seq![(mi % 256) as u8] + mag_bytes(mi / 256));
            assert(pre + mag_bytes(mi) =~= out@ + mag_bytes(mi / 256));
        }
    }
    proof {
        let p = crate::bytes::pow256(out@.len() as int);
        assert(p * 0 == 0) by (nonlinear_arith);
        assert(le_to_int(out@) == m0);
        assert(mag_bytes(0) =~= Seq::<u8>::empty());
        assert(out@ =~= out@ + mag_bytes(0));
        assert(out@ == mag_bytes(m0 as int));
        assert(m0 as int == (if v < 0 { -(v as int) } else { v as int }));
    }
    // set the sign: if the top bit of the last byte is taken, append a
    // sign byte; otherwise fold the sign into it.
    let nlen = out.len();
    let top = out[nlen - 1];
    if top >= 0x80 {
        let sign_byte: u8 = if neg {
            0x80
        } else {
            0x00
        };
        let ghost pre = out@;
        out.push(sign_byte);
        proof {
            lemma_encode_sign_appended(pre, sign_byte, m0 as int, neg);
            assert(num_of(out@) == (if neg { -(m0 as int) } else { m0 as int }));
            assert(v as int == (if neg { -(m0 as int) } else { m0 as int }));
            assert(out@ =~= pre + seq![sign_byte]);
        }
    } else {
        if neg {
            let ghost pre = out@;
            let last = out.len() - 1;
            out[last] = top | 0x80;
            proof {
                assert(out@ =~= pre.update(pre.len() - 1, (pre.last() | 0x80) as u8));
                lemma_encode_sign_folded(pre, m0 as int);
            }
        } else {
            proof {
                let b = out@;
                let x = b.last();
                assert(x & 0x7f == x) by (bit_vector)
                    requires
                        x < 0x80,
                ;
                assert(b.update(b.len() - 1, (b.last() & 0x7f) as u8) =~= b);
                assert(num_of(b) == m0);
                assert(b.last() & 0x7f != 0);
            }
        }
    }
    out
}

/// Appending a sign byte to a magnitude whose top bit is taken yields the
/// signed value, minimally.
proof fn lemma_encode_sign_appended(pre: Seq<u8>, sign_byte: u8, m0: int, neg: bool)
    requires
        pre.len() > 0,
        le_to_int(pre) == m0,
        pre.last() >= 0x80,
        sign_byte == (if neg {
            0x80u8
        } else {
            0x00u8
        }),
    ensures
        num_of(pre.push(sign_byte)) == (if neg {
            -m0
        } else {
            m0
        }),
        num_minimal(pre.push(sign_byte)),
{
    let b = pre.push(sign_byte);
    assert(b.last() == sign_byte);
    let sb = sign_byte;
    assert(sb & 0x7f == 0) by (bit_vector)
        requires
            sb == 0x80 || sb == 0,
    ;
    let masked = b.update(b.len() - 1, (b.last() & 0x7f) as u8);
    assert(masked =~= pre.push(0));
    lemma_le_snoc(pre, 0);
    let p = crate::bytes::pow256(pre.len() as int);
    assert(p * 0 == 0) by (nonlinear_arith);
    assert(le_to_int(masked) == m0);
    assert(b[b.len() - 2] == pre.last());
    let x = pre.last();
    assert(x & 0x80 != 0) by (bit_vector)
        requires
            x >= 0x80,
    ;
    assert(num_minimal(b));
}

/// Folding the sign bit into a small last byte negates the value.
proof fn lemma_encode_sign_folded(pre: Seq<u8>, m0: int)
    requires
        pre.len() > 0,
        le_to_int(pre) == m0,
        pre.last() != 0,
        pre.last() < 0x80,
    ensures
        num_of(pre.update(pre.len() - 1, (pre.last() | 0x80) as u8)) == -m0,
        num_minimal(pre.update(pre.len() - 1, (pre.last() | 0x80) as u8)),
{
    let x = pre.last();
    let b = pre.update(pre.len() - 1, (x | 0x80) as u8);
    assert(b.last() == (x | 0x80) as u8);
    assert(x | 0x80 >= 0x80) by (bit_vector);
    assert((x | 0x80) & 0x7f == x) by (bit_vector)
        requires
            x < 0x80,
    ;
    let masked = b.update(b.len() - 1, (b.last() & 0x7f) as u8);
    assert(masked =~= pre);
    assert(b.last() & 0x7f != 0);
}

/// The unbounded little-endian magnitude bytes of a non-negative integer.
pub open spec fn mag_bytes(m: int) -> Seq<u8>
    decreases m,
{
    if m <= 0 {
        Seq::empty()
    } else {
        seq![(m % 256) as u8] + mag_bytes(m / 256)
    }
}

/// The minimal script-number encoding of an integer.
pub open spec fn num_bytes_of(v: int) -> Seq<u8> {
    if v == 0 {
        Seq::empty()
    } else {
        let mb = mag_bytes(if v < 0 {
            -v
        } else {
            v
        });
        if mb.last() >= 0x80 {
            mb + seq![
                if v < 0 {
                    0x80u8
                } else {
                    0x00u8
                },
            ]
        } else if v < 0 {
            mb.update(mb.len() - 1, (mb.last() | 0x80) as u8)
        } else {
            mb
        }
    }
}

/// One machine state between opcodes.
#[verifier::ext_equal]
pub ghost struct MachineV {
    pub pc: int,
    pub stack: Seq<Seq<u8>>,
    pub alt: Seq<Seq<u8>>,
    pub op_count: int,
    pub cond: Seq<bool>,
}

/// Whether the machine is in an executing branch: no enclosing
/// conditional took the other arm.
pub open spec fn all_true(cond: Seq<bool>) -> bool {
    forall|i: int| 0 <= i < cond.len() ==> cond[i]
}

/// Pushing an item: fails on oversize items or a full stack.
pub open spec fn spec_push(m: MachineV, item: Seq<u8>, new_pc: int) -> Result<
    MachineV,
    ScriptError,
> {
    if item.len() > 520 {
        Err(ScriptError::PushSize)
    } else if m.stack.len() + m.alt.len() + 1 > 1000 {
        Err(ScriptError::StackOverflow)
    } else {
        Ok(
            MachineV {
                pc: new_pc,
                stack: m.stack.push(item),
                alt: m.alt,
                op_count: m.op_count,
                cond: m.cond,
            },
        )
    }
}

/// Whether a push used its shortest form.
pub open spec fn push_minimal(op: u8, item: Seq<u8>) -> bool {
    if item.len() == 1 && (1 <= item[0] <= 16 || item[0] == 0x81) {
        false
    } else if op == 0x4c {
        item.len() > 75
    } else if op == 0x4d {
        item.len() > 255
    } else if op == 0x4e {
        item.len() > 65535
    } else {
        true
    }
}

/// The opcodes consensus disabled outright: splice, bitwise logic,
/// multiplication and division, and the shifts. They fail the script
/// even in an unexecuted branch.
pub open spec fn is_disabled_op(op: u8) -> bool {
    ||| (0x7e <= op <= 0x81)
    ||| op == 0x83
    ||| op == 0x84
    ||| op == 0x85
    ||| op == 0x86
    ||| op == 0x8d
    ||| op == 0x8e
    ||| (0x95 <= op <= 0x99)
}

/// The multisig scan: signatures and keys in script order; a mismatch
/// advances only the key pointer, and every signature must find a key.
pub open spec fn multisig_match<C: SigChecker>(
    c: &C,
    sigs: Seq<Seq<u8>>,
    keys: Seq<Seq<u8>>,
    script_code: Seq<u8>,
) -> bool
    decreases keys.len(),
{
    if sigs.len() == 0 {
        true
    } else if keys.len() == 0 {
        false
    } else if c.check_sig_spec(sigs[0], keys[0], script_code) {
        multisig_match(c, sigs.drop_first(), keys.drop_first(), script_code)
    } else {
        multisig_match(c, sigs, keys.drop_first(), script_code)
    }
}

/// One opcode of the machine. Every flag-gated rule can only fail; the
/// transition a surviving opcode makes does not depend on the flags.
pub open spec fn spec_step<C: SigChecker>(
    script: Seq<u8>,
    m: MachineV,
    flags: ScriptFlags,
    c: &C,
) -> Result<MachineV, ScriptError>
    recommends
        0 <= m.pc < script.len(),
{
    let pc = m.pc;
    let op = script[pc];
    let executing = all_true(m.cond);
    if op <= 0x4e || op == 0x4f || (0x51 <= op <= 0x60) {
        // the push class: data bounds are decided even in an
        // unexecuted branch; the push itself happens only when
        // executing
        let parsed: Result<(Seq<u8>, int), ScriptError> = if op == 0x00 {
            Ok((Seq::empty(), pc + 1))
        } else if op <= 0x4b {
            let l = op as int;
            if pc + 1 + l > script.len() {
                Err(ScriptError::BadPush)
            } else {
                Ok((script.subrange(pc + 1, pc + 1 + l), pc + 1 + l))
            }
        } else if op == 0x4c {
            if pc + 2 > script.len() {
                Err(ScriptError::BadPush)
            } else {
                let l = script[pc + 1] as int;
                if pc + 2 + l > script.len() {
                    Err(ScriptError::BadPush)
                } else {
                    Ok((script.subrange(pc + 2, pc + 2 + l), pc + 2 + l))
                }
            }
        } else if op == 0x4d {
            if pc + 3 > script.len() {
                Err(ScriptError::BadPush)
            } else {
                let l = le_to_int(script.subrange(pc + 1, pc + 3));
                if pc + 3 + l > script.len() {
                    Err(ScriptError::BadPush)
                } else {
                    Ok((script.subrange(pc + 3, pc + 3 + l), pc + 3 + l))
                }
            }
        } else if op == 0x4e {
            if pc + 5 > script.len() {
                Err(ScriptError::BadPush)
            } else {
                let l = le_to_int(script.subrange(pc + 1, pc + 5));
                if pc + 5 + l > script.len() {
                    Err(ScriptError::BadPush)
                } else {
                    Ok((script.subrange(pc + 5, pc + 5 + l), pc + 5 + l))
                }
            }
        } else if op == 0x4f {
            Ok((seq![0x81u8], pc + 1))
        } else {
            Ok((seq![(op - 0x50) as u8], pc + 1))
        };
        match parsed {
            Err(e) => Err(e),
            Ok(p) => {
                if !executing {
                    Ok(MachineV { pc: p.1, ..m })
                } else if flags.minimal_data && op <= 0x4e && !push_minimal(op, p.0) {
                    Err(ScriptError::MinimalData)
                } else {
                    spec_push(m, p.0, p.1)
                }
            },
        }
    } else {
        // a non-push opcode: counted even in an unexecuted branch
        if m.op_count + 1 > 201 {
            Err(ScriptError::OpCount)
        } else if is_disabled_op(op) {
            Err(ScriptError::DisabledOpcode)
        } else {
            let n = m.op_count + 1;
            let st = m.stack;
            if op == 0x63 || op == 0x64 {
                // a conditional opens: the executed arm reads the stack
                if !executing {
                    Ok(MachineV { pc: pc + 1, op_count: n, cond: m.cond.push(false), ..m })
                } else if st.len() < 1 {
                    Err(ScriptError::UnbalancedConditional)
                } else {
                    let v = truthy(st.last());
                    let b = if op == 0x63 {
                        v
                    } else {
                        !v
                    };
                    Ok(
                        MachineV {
                            pc: pc + 1,
                            stack: st.drop_last(),
                            op_count: n,
                            cond: m.cond.push(b),
                            ..m
                        },
                    )
                }
            } else if op == 0x67 {
                if m.cond.len() == 0 {
                    Err(ScriptError::UnbalancedConditional)
                } else {
                    Ok(
                        MachineV {
                            pc: pc + 1,
                            op_count: n,
                            cond: m.cond.update(m.cond.len() - 1, !m.cond.last()),
                            ..m
                        },
                    )
                }
            } else if op == 0x68 {
                if m.cond.len() == 0 {
                    Err(ScriptError::UnbalancedConditional)
                } else {
                    Ok(MachineV { pc: pc + 1, op_count: n, cond: m.cond.drop_last(), ..m })
                }
            } else if !executing {
                Ok(MachineV { pc: pc + 1, op_count: n, ..m })
            } else if op == 0x61 {
                Ok(MachineV { pc: pc + 1, op_count: n, ..m })
            } else if op == 0xb1 || op == 0xb2 {
                // the lock-time opcodes: plain no-ops until their rules
                // are in force
                let active = if op == 0xb1 {
                    flags.cltv
                } else {
                    flags.csv
                };
                if !active {
                    Ok(MachineV { pc: pc + 1, op_count: n, ..m })
                } else if st.len() < 1 {
                    Err(ScriptError::StackUnderflow)
                } else if st.last().len() > 5 {
                    Err(ScriptError::NumberRange)
                } else {
                    let v = num_of(st.last());
                    if v < 0 {
                        Err(ScriptError::NegativeLockTime)
                    } else {
                        let ok = if op == 0xb1 {
                            c.check_lock_time_spec(v)
                        } else {
                            c.check_sequence_spec(v)
                        };
                        if !ok {
                            Err(ScriptError::UnsatisfiedLockTime)
                        } else {
                            Ok(MachineV { pc: pc + 1, op_count: n, ..m })
                        }
                    }
                }
            } else if 0xb0 <= op <= 0xb9 {
                if flags.discourage_upgradable_nops {
                    Err(ScriptError::DiscourageUpgradableNops)
                } else {
                    Ok(MachineV { pc: pc + 1, op_count: n, ..m })
                }
            } else if op == 0x69 {
                if st.len() < 1 {
                    Err(ScriptError::StackUnderflow)
                } else if !truthy(st.last()) {
                    Err(ScriptError::Verify)
                } else {
                    Ok(MachineV { pc: pc + 1, stack: st.drop_last(), op_count: n, ..m })
                }
            } else if op == 0x6a {
                Err(ScriptError::OpReturn)
            } else if op == 0x6b {
                if st.len() < 1 {
                    Err(ScriptError::StackUnderflow)
                } else {
                    Ok(
                        MachineV {
                            pc: pc + 1,
                            stack: st.drop_last(),
                            alt: m.alt.push(st.last()),
                            op_count: n,
                            ..m
                        },
                    )
                }
            } else if op == 0x6c {
                if m.alt.len() < 1 {
                    Err(ScriptError::StackUnderflow)
                } else {
                    Ok(
                        MachineV {
                            pc: pc + 1,
                            stack: st.push(m.alt.last()),
                            alt: m.alt.drop_last(),
                            op_count: n,
                            ..m
                        },
                    )
                }
            } else if op == 0x75 {
                if st.len() < 1 {
                    Err(ScriptError::StackUnderflow)
                } else {
                    Ok(MachineV { pc: pc + 1, stack: st.drop_last(), op_count: n, ..m })
                }
            } else if op == 0x76 {
                if st.len() < 1 {
                    Err(ScriptError::StackUnderflow)
                } else if st.len() + m.alt.len() + 1 > 1000 {
                    Err(ScriptError::StackOverflow)
                } else {
                    Ok(MachineV { pc: pc + 1, stack: st.push(st.last()), op_count: n, ..m })
                }
            } else if op == 0x7c {
                if st.len() < 2 {
                    Err(ScriptError::StackUnderflow)
                } else {
                    let a = st.last();
                    let b = st[st.len() - 2];
                    Ok(
                        MachineV {
                            pc: pc + 1,
                            stack: st.drop_last().drop_last().push(a).push(b),
                            op_count: n,
                            ..m
                        },
                    )
                }
            } else if op == 0x87 || op == 0x88 {
                if st.len() < 2 {
                    Err(ScriptError::StackUnderflow)
                } else {
                    let a = st.last();
                    let b = st[st.len() - 2];
                    let eq = a == b;
                    let popped = st.drop_last().drop_last();
                    if op == 0x87 {
                        Ok(
                            MachineV {
                                pc: pc + 1,
                                stack: popped.push(
                                    if eq {
                                        seq![1u8]
                                    } else {
                                        Seq::empty()
                                    },
                                ),
                                op_count: n,
                                ..m
                            },
                        )
                    } else if eq {
                        Ok(MachineV { pc: pc + 1, stack: popped, op_count: n, ..m })
                    } else {
                        Err(ScriptError::Verify)
                    }
                }
            } else if op == 0x93 || op == 0x94 {
                if st.len() < 2 {
                    Err(ScriptError::StackUnderflow)
                } else {
                    let top = st.last();
                    let second = st[st.len() - 2];
                    if top.len() > 4 || second.len() > 4 {
                        Err(ScriptError::NumberRange)
                    } else if flags.minimal_data && !(num_minimal(top) && num_minimal(second)) {
                        Err(ScriptError::MinimalData)
                    } else {
                        let v = if op == 0x93 {
                            num_of(second) + num_of(top)
                        } else {
                            num_of(second) - num_of(top)
                        };
                        Ok(
                            MachineV {
                                pc: pc + 1,
                                stack: st.drop_last().drop_last().push(num_bytes_of(v)),
                                op_count: n,
                                ..m
                            },
                        )
                    }
                }
            } else if op == 0xa6 || op == 0xa8 || op == 0xa9 || op == 0xaa {
                if st.len() < 1 {
                    Err(ScriptError::StackUnderflow)
                } else {
                    let h = if op == 0xa6 {
                        crate::hashes::ripemd160_of(st.last())
                    } else if op == 0xa8 {
                        sha256_of(st.last())
                    } else if op == 0xa9 {
                        crate::hashes::hash160_of(st.last())
                    } else {
                        dsha256_of(st.last())
                    };
                    if h.len() > 520 {
                        Err(ScriptError::PushSize)
                    } else {
                        Ok(MachineV { pc: pc + 1, stack: st.drop_last().push(h), op_count: n, ..m })
                    }
                }
            } else if op == 0xac || op == 0xad {
                if st.len() < 2 {
                    Err(ScriptError::StackUnderflow)
                } else {
                    let pk = st.last();
                    let sig = st[st.len() - 2];
                    let ok = c.check_sig_spec(sig, pk, script);
                    let popped = st.drop_last().drop_last();
                    if op == 0xac {
                        Ok(
                            MachineV {
                                pc: pc + 1,
                                stack: popped.push(
                                    if ok {
                                        seq![1u8]
                                    } else {
                                        Seq::empty()
                                    },
                                ),
                                op_count: n,
                                ..m
                            },
                        )
                    } else if ok {
                        Ok(MachineV { pc: pc + 1, stack: popped, op_count: n, ..m })
                    } else {
                        Err(ScriptError::Verify)
                    }
                }
            } else if op == 0xae || op == 0xaf {
                if st.len() < 1 {
                    Err(ScriptError::StackUnderflow)
                } else {
                    let nk_item = st.last();
                    if nk_item.len() > 4 {
                        Err(ScriptError::NumberRange)
                    } else if flags.minimal_data && !num_minimal(nk_item) {
                        Err(ScriptError::MinimalData)
                    } else {
                        let nkey = num_of(nk_item);
                        if nkey < 0 || nkey > 20 {
                            Err(ScriptError::PubkeyCount)
                        } else if n + nkey > 201 {
                            Err(ScriptError::OpCount)
                        } else if st.len() < 2 + nkey {
                            Err(ScriptError::StackUnderflow)
                        } else {
                            let keys = st.subrange(st.len() - 1 - nkey, st.len() - 1);
                            let ns_item = st[st.len() - 2 - nkey];
                            if ns_item.len() > 4 {
                                Err(ScriptError::NumberRange)
                            } else if flags.minimal_data && !num_minimal(ns_item) {
                                Err(ScriptError::MinimalData)
                            } else {
                                let nsig = num_of(ns_item);
                                if nsig < 0 || nsig > nkey {
                                    Err(ScriptError::SigCount)
                                } else if st.len() < 3 + nkey + nsig {
                                    Err(ScriptError::StackUnderflow)
                                } else {
                                    let sigs = st.subrange(
                                        st.len() - 2 - nkey - nsig,
                                        st.len() - 2 - nkey,
                                    );
                                    let dummy = st[st.len() - 3 - nkey - nsig];
                                    if flags.null_dummy && dummy.len() != 0 {
                                        Err(ScriptError::NullDummy)
                                    } else {
                                        let ok = multisig_match(c, sigs, keys, script);
                                        let popped = st.subrange(
                                            0,
                                            st.len() - 3 - nkey - nsig,
                                        );
                                        if op == 0xae {
                                            Ok(
                                                MachineV {
                                                    pc: pc + 1,
                                                    stack: popped.push(
                                                        if ok {
                                                            seq![1u8]
                                                        } else {
                                                            Seq::empty()
                                                        },
                                                    ),
                                                    op_count: n + nkey,
                                                    ..m
                                                },
                                            )
                                        } else if ok {
                                            Ok(
                                                MachineV {
                                                    pc: pc + 1,
                                                    stack: popped,
                                                    op_count: n + nkey,
                                                    ..m
                                                },
                                            )
                                        } else {
                                            Err(ScriptError::Verify)
                                        }
                                    }
                                }
                            }
                        }
                    }
                }
            } else {
                Err(ScriptError::BadOpcode)
            }
        }
    }
}

/// A surviving step advances the program counter within the script.
pub proof fn lemma_step_advances<C: SigChecker>(
    script: Seq<u8>,
    m: MachineV,
    flags: ScriptFlags,
    c: &C,
)
    requires
        0 <= m.pc < script.len(),
        spec_step(script, m, flags, c) is Ok,
    ensures
        m.pc < spec_step(script, m, flags, c)->Ok_0.pc <= script.len(),
{
    let pc = m.pc;
    let op = script[pc];
    if op == 0x4d && pc + 3 <= script.len() {
        crate::bytes::lemma_le_to_int_bound(script.subrange(pc + 1, pc + 3));
    }
    if op == 0x4e && pc + 5 <= script.len() {
        crate::bytes::lemma_le_to_int_bound(script.subrange(pc + 1, pc + 5));
    }
}

/// Runs the machine from a state to the end of the script; a
/// conditional still open at the end fails.
pub open spec fn eval_from<C: SigChecker>(
    script: Seq<u8>,
    m: MachineV,
    flags: ScriptFlags,
    c: &C,
) -> Result<Seq<Seq<u8>>, ScriptError>
    decreases script.len() - m.pc,
    when 0 <= m.pc
    via eval_from_dec::<C>
{
    if m.pc >= script.len() {
        if m.cond.len() != 0 {
            Err(ScriptError::UnbalancedConditional)
        } else {
            Ok(m.stack)
        }
    } else {
        match spec_step(script, m, flags, c) {
            Err(e) => Err(e),
            Ok(m2) => eval_from(script, m2, flags, c),
        }
    }
}

#[via_fn]
proof fn eval_from_dec<C: SigChecker>(script: Seq<u8>, m: MachineV, flags: ScriptFlags, c: &C) {
    if m.pc < script.len() && spec_step(script, m, flags, c) is Ok {
        lemma_step_advances(script, m, flags, c);
    }
}

/// Runs a script to completion on an input stack: the whole-script
/// semantics of `eval_script`.
pub open spec fn eval_script_spec<C: SigChecker>(
    script: Seq<u8>,
    stack: Seq<Seq<u8>>,
    flags: ScriptFlags,
    c: &C,
) -> Result<Seq<Seq<u8>>, ScriptError> {
    if script.len() > 10000 {
        Err(ScriptError::ScriptSize)
    } else {
        eval_from(
            script,
            MachineV { pc: 0, stack, alt: Seq::empty(), op_count: 0, cond: Seq::empty() },
            flags,
            c,
        )
    }
}

/// A version-0 witness program paying to a script hash.
pub open spec fn is_v0_script_program(pk: Seq<u8>) -> bool {
    pk.len() == 34 && pk[0] == 0x00 && pk[1] == 0x20
}

/// A version-0 witness program paying to a key hash.
pub open spec fn is_v0_key_program(pk: Seq<u8>) -> bool {
    pk.len() == 22 && pk[0] == 0x00 && pk[1] == 0x14
}

/// A version-1 witness program.
pub open spec fn is_v1_program(pk: Seq<u8>) -> bool {
    pk.len() == 34 && pk[0] == 0x51 && pk[1] == 0x20
}

/// Any of the witness-program shapes this machine recognises.
pub open spec fn is_witness_program(pk: Seq<u8>) -> bool {
    is_v0_script_program(pk) || is_v0_key_program(pk) || is_v1_program(pk)
}

/// The pay-to-script-hash template: HASH160, a twenty-byte push, EQUAL.
pub open spec fn is_p2sh(pk: Seq<u8>) -> bool {
    pk.len() == 23 && pk[0] == 0xa9 && pk[1] == 0x14 && pk[22] == 0x87
}

/// Whether a script consists of pushes alone, as a script signature
/// must under the pay-to-script-hash rule.
pub open spec fn push_only_from(s: Seq<u8>, pos: int) -> bool
    decreases s.len() - pos,
    when 0 <= pos
    via push_only_from_dec
{
    if pos >= s.len() {
        true
    } else {
        let op = s[pos];
        if op > 0x60 {
            false
        } else if op == 0x00 || op == 0x4f || op == 0x50 || (0x51 <= op <= 0x60) {
            push_only_from(s, pos + 1)
        } else if op <= 0x4b {
            pos + 1 + op <= s.len() && push_only_from(s, pos + 1 + op)
        } else if op == 0x4c {
            pos + 2 <= s.len() && pos + 2 + s[pos + 1] <= s.len() && push_only_from(
                s,
                pos + 2 + s[pos + 1],
            )
        } else if op == 0x4d {
            pos + 3 <= s.len() && pos + 3 + le_to_int(s.subrange(pos + 1, pos + 3)) <= s.len()
                && push_only_from(s, pos + 3 + le_to_int(s.subrange(pos + 1, pos + 3)))
        } else {
            pos + 5 <= s.len() && pos + 5 + le_to_int(s.subrange(pos + 1, pos + 5)) <= s.len()
                && push_only_from(s, pos + 5 + le_to_int(s.subrange(pos + 1, pos + 5)))
        }
    }
}

#[via_fn]
proof fn push_only_from_dec(s: Seq<u8>, pos: int) {
    if 0 <= pos < s.len() {
        let op = s[pos];
        if op == 0x4d && pos + 3 <= s.len() {
            crate::bytes::lemma_le_to_int_bound(s.subrange(pos + 1, pos + 3));
        }
        if op == 0x4e && pos + 5 <= s.len() {
            crate::bytes::lemma_le_to_int_bound(s.subrange(pos + 1, pos + 5));
        }
    }
}

/// Validates a witness program spend: the pay-to-script form runs the
/// revealed script, the pay-to-key form checks the key hash and one
/// signature, and a version-1 program under the taproot rule is
/// validated along its key path, with the annex recognised; the
/// script path of version 1 is not validated by this machine.
pub open spec fn witness_program_spec<C: SigChecker>(
    pk: Seq<u8>,
    witness: Seq<Seq<u8>>,
    flags: ScriptFlags,
    c: &C,
) -> Result<(), ScriptError> {
    if is_v1_program(pk) {
        if !flags.taproot {
            Ok(())
        } else {
            let w = if witness.len() >= 2 && witness.last().len() >= 1 && witness.last()[0]
                == 0x50 {
                witness.drop_last()
            } else {
                witness
            };
            if w.len() == 0 {
                Err(ScriptError::WitnessEmpty)
            } else if w.len() == 1 {
                if c.check_sig_spec(w[0], pk.subrange(2, 34), Seq::empty()) {
                    Ok(())
                } else {
                    Err(ScriptError::Verify)
                }
            } else {
                Err(ScriptError::UnsupportedWitnessProgram)
            }
        }
    } else if is_v0_key_program(pk) {
        if witness.len() != 2 {
            Err(ScriptError::WitnessProgramMismatch)
        } else if crate::hashes::hash160_of(witness[1]) != pk.subrange(2, 22) {
            Err(ScriptError::WitnessProgramMismatch)
        } else if !c.check_sig_spec(witness[0], witness[1], pk) {
            Err(ScriptError::Verify)
        } else {
            Ok(())
        }
    } else {
        if witness.len() == 0 {
            Err(ScriptError::WitnessEmpty)
        } else if sha256_of(witness.last()) != pk.subrange(2, 34) {
            Err(ScriptError::WitnessProgramMismatch)
        } else {
            match eval_script_spec(witness.last(), witness.drop_last(), flags, c) {
                Err(e) => Err(e),
                Ok(st3) => if st3.len() != 1 {
                    Err(ScriptError::CleanStack)
                } else if !truthy(st3.last()) {
                    Err(ScriptError::EvalFalse)
                } else {
                    Ok(())
                },
            }
        }
    }
}

/// The composite validation of one input: script signature, public key
/// script, then the redeem script where the pay-to-script-hash rule
/// applies, then the witness program where one applies.
pub open spec fn verify_script_spec<C: SigChecker>(
    sig: Seq<u8>,
    pk: Seq<u8>,
    witness: Seq<Seq<u8>>,
    flags: ScriptFlags,
    c: &C,
) -> Result<(), ScriptError> {
    match eval_script_spec(sig, Seq::empty(), flags, c) {
        Err(e) => Err(e),
        Ok(st1) => match eval_script_spec(pk, st1, flags, c) {
            Err(e) => Err(e),
            Ok(st2) => {
                if st2.len() == 0 || !truthy(st2.last()) {
                    Err(ScriptError::EvalFalse)
                } else if flags.segwit && is_witness_program(pk) {
                    if sig.len() != 0 {
                        Err(ScriptError::WitnessMalleated)
                    } else {
                        witness_program_spec(pk, witness, flags, c)
                    }
                } else if flags.p2sh && is_p2sh(pk) {
                    if !push_only_from(sig, 0) {
                        Err(ScriptError::PushOnly)
                    } else if st1.len() == 0 {
                        Err(ScriptError::StackUnderflow)
                    } else {
                        let redeem = st1.last();
                        match eval_script_spec(redeem, st1.drop_last(), flags, c) {
                            Err(e) => Err(e),
                            Ok(st3) => {
                                if st3.len() == 0 || !truthy(st3.last()) {
                                    Err(ScriptError::EvalFalse)
                                } else if flags.segwit && is_witness_program(redeem) {
                                    if st1.len() != 1 {
                                        Err(ScriptError::WitnessMalleated)
                                    } else {
                                        witness_program_spec(redeem, witness, flags, c)
                                    }
                                } else if witness.len() != 0 && flags.segwit {
                                    Err(ScriptError::WitnessUnexpected)
                                } else if flags.clean_stack && st3.len() != 1 {
                                    Err(ScriptError::CleanStack)
                                } else {
                                    Ok(())
                                }
                            },
                        }
                    }
                } else if witness.len() != 0 && flags.segwit {
                    Err(ScriptError::WitnessUnexpected)
                } else if flags.clean_stack && st2.len() != 1 {
                    Err(ScriptError::CleanStack)
                } else {
                    Ok(())
                }
            },
        },
    }
}

/// One step is the same under two checkers with the same verdicts.
pub proof fn lemma_step_checker_agnostic<C1: SigChecker, C2: SigChecker>(
    script: Seq<u8>,
    m: MachineV,
    flags: ScriptFlags,
    c1: &C1,
    c2: &C2,
)
    requires
        forall|s: Seq<u8>, p: Seq<u8>, sc: Seq<u8>| #[trigger] c1.check_sig_spec(s, p, sc)
            == c2.check_sig_spec(s, p, sc),
        forall|n: int| #[trigger] c1.check_lock_time_spec(n) == c2.check_lock_time_spec(n),
        forall|n: int| #[trigger] c1.check_sequence_spec(n) == c2.check_sequence_spec(n),
        0 <= m.pc < script.len(),
    ensures
        spec_step(script, m, flags, c1) == spec_step(script, m, flags, c2),
{
    let op = script[m.pc];
    let st = m.stack;
    if op == 0xac || op == 0xad {
        if st.len() >= 2 {
            assert(c1.check_sig_spec(st[st.len() - 2], st.last(), script) == c2.check_sig_spec(
                st[st.len() - 2],
                st.last(),
                script,
            ));
        }
    }
    if op == 0xae || op == 0xaf {
        lemma_multisig_checker_agnostic(c1, c2, script, st);
    }
}

/// The multisig scan agrees under checkers with the same verdicts, for
/// every signature and key segment of the stack.
proof fn lemma_multisig_checker_agnostic<C1: SigChecker, C2: SigChecker>(
    c1: &C1,
    c2: &C2,
    script: Seq<u8>,
    st: Seq<Seq<u8>>,
)
    requires
        forall|s: Seq<u8>, p: Seq<u8>, sc: Seq<u8>| #[trigger] c1.check_sig_spec(s, p, sc)
            == c2.check_sig_spec(s, p, sc),
    ensures
        forall|sigs: Seq<Seq<u8>>, keys: Seq<Seq<u8>>| #[trigger] multisig_match(
            c1,
            sigs,
            keys,
            script,
        ) == multisig_match(c2, sigs, keys, script),
{
    assert forall|sigs: Seq<Seq<u8>>, keys: Seq<Seq<u8>>| #[trigger] multisig_match(
        c1,
        sigs,
        keys,
        script,
    ) == multisig_match(c2, sigs, keys, script) by {
        lemma_multisig_agnostic_one(c1, c2, script, sigs, keys);
    }
}

proof fn lemma_multisig_agnostic_one<C1: SigChecker, C2: SigChecker>(
    c1: &C1,
    c2: &C2,
    script: Seq<u8>,
    sigs: Seq<Seq<u8>>,
    keys: Seq<Seq<u8>>,
)
    requires
        forall|s: Seq<u8>, p: Seq<u8>, sc: Seq<u8>| #[trigger] c1.check_sig_spec(s, p, sc)
            == c2.check_sig_spec(s, p, sc),
    ensures
        multisig_match(c1, sigs, keys, script) == multisig_match(c2, sigs, keys, script),
    decreases keys.len(),
{
    if sigs.len() > 0 && keys.len() > 0 {
        assert(c1.check_sig_spec(sigs[0], keys[0], script) == c2.check_sig_spec(
            sigs[0],
            keys[0],
            script,
        ));
        lemma_multisig_agnostic_one(c1, c2, script, sigs.drop_first(), keys.drop_first());
        lemma_multisig_agnostic_one(c1, c2, script, sigs, keys.drop_first());
    }
}

/// Script evaluation is a function of the script, the stack, the flags
/// and the checker's verdicts: nothing else can change the outcome.
pub proof fn lemma_eval_checker_agnostic<C1: SigChecker, C2: SigChecker>(
    script: Seq<u8>,
    m: MachineV,
    flags: ScriptFlags,
    c1: &C1,
    c2: &C2,
)
    requires
        forall|s: Seq<u8>, p: Seq<u8>, sc: Seq<u8>| #[trigger] c1.check_sig_spec(s, p, sc)
            == c2.check_sig_spec(s, p, sc),
        forall|n: int| #[trigger] c1.check_lock_time_spec(n) == c2.check_lock_time_spec(n),
        forall|n: int| #[trigger] c1.check_sequence_spec(n) == c2.check_sequence_spec(n),
        0 <= m.pc,
    ensures
        eval_from(script, m, flags, c1) == eval_from(script, m, flags, c2),
    decreases script.len() - m.pc,
{
    if m.pc < script.len() {
        lemma_step_checker_agnostic(script, m, flags, c1, c2);
        match spec_step(script, m, flags, c1) {
            Err(e) => {},
            Ok(m2) => {
                lemma_step_advances(script, m, flags, c1);
                lemma_eval_checker_agnostic(script, m2, flags, c1, c2);
            },
        }
    }
}

/// Script evaluation is deterministic: identical script, stack and flags
/// yield identical results under any two checkers that agree on every
/// verdict.
pub proof fn lemma_eval_script_deterministic<C1: SigChecker, C2: SigChecker>(
    script: Seq<u8>,
    stack: Seq<Seq<u8>>,
    flags: ScriptFlags,
    c1: &C1,
    c2: &C2,
)
    requires
        forall|s: Seq<u8>, p: Seq<u8>, sc: Seq<u8>| #[trigger] c1.check_sig_spec(s, p, sc)
            == c2.check_sig_spec(s, p, sc),
        forall|n: int| #[trigger] c1.check_lock_time_spec(n) == c2.check_lock_time_spec(n),
        forall|n: int| #[trigger] c1.check_sequence_spec(n) == c2.check_sequence_spec(n),
    ensures
        eval_script_spec(script, stack, flags, c1) == eval_script_spec(script, stack, flags, c2),
{
    if script.len() <= 10000 {
        lemma_eval_checker_agnostic(
            script,
            MachineV { pc: 0, stack, alt: Seq::empty(), op_count: 0, cond: Seq::empty() },
            flags,
            c1,
            c2,
        );
    }
}

/// A step that survives under a rule set survives, with the same
/// transition, under any weaker rule set.
#[verifier::rlimit(100)]
pub proof fn lemma_step_monotone<C: SigChecker>(
    script: Seq<u8>,
    m: MachineV,
    f1: ScriptFlags,
    f2: ScriptFlags,
    c: &C,
)
    requires
        flags_leq(f1, f2),
        0 <= m.pc < script.len(),
        spec_step(script, m, f2, c) is Ok,
    ensures
        spec_step(script, m, f1, c) == spec_step(script, m, f2, c),
{
}

/// A run that succeeds under a rule set succeeds, with the same final
/// stack, under any weaker rule set.
pub proof fn lemma_eval_monotone<C: SigChecker>(
    script: Seq<u8>,
    m: MachineV,
    f1: ScriptFlags,
    f2: ScriptFlags,
    c: &C,
)
    requires
        flags_leq(f1, f2),
        0 <= m.pc,
        eval_from(script, m, f2, c) is Ok,
    ensures
        eval_from(script, m, f1, c) == eval_from(script, m, f2, c),
    decreases script.len() - m.pc,
{
    if m.pc < script.len() {
        assert(spec_step(script, m, f2, c) is Ok);
        lemma_step_monotone(script, m, f1, f2, c);
        let m2 = spec_step(script, m, f2, c)->Ok_0;
        lemma_step_advances(script, m, f2, c);
        lemma_eval_monotone(script, m2, f1, f2, c);
    }
}

/// Whole-script evaluation is monotone in the flags.
pub proof fn lemma_eval_script_monotone<C: SigChecker>(
    script: Seq<u8>,
    stack: Seq<Seq<u8>>,
    f1: ScriptFlags,
    f2: ScriptFlags,
    c: &C,
)
    requires
        flags_leq(f1, f2),
        eval_script_spec(script, stack, f2, c) is Ok,
    ensures
        eval_script_spec(script, stack, f1, c) == eval_script_spec(script, stack, f2, c),
{
    lemma_eval_monotone(
        script,
        MachineV { pc: 0, stack, alt: Seq::empty(), op_count: 0, cond: Seq::empty() },
        f1,
        f2,
        c,
    );
}

/// Witness-program validation is monotone in the flags.
proof fn lemma_witness_program_monotone<C: SigChecker>(
    pk: Seq<u8>,
    witness: Seq<Seq<u8>>,
    f1: ScriptFlags,
    f2: ScriptFlags,
    c: &C,
)
    requires
        flags_leq(f1, f2),
        witness_program_spec(pk, witness, f2, c) is Ok,
    ensures
        f1.taproot ==> witness_program_spec(pk, witness, f1, c) is Ok,
        !is_v1_program(pk) ==> witness_program_spec(pk, witness, f1, c) is Ok,
{
    if !is_v1_program(pk) && !is_v0_key_program(pk) {
        if witness.len() > 0 && sha256_of(witness.last()) == pk.subrange(2, 34) {
            lemma_eval_script_monotone(witness.last(), witness.drop_last(), f1, f2, c);
        }
    }
}

/// Composite validation is monotone in the flags: enabling a rule never
/// converts a failure into a success. As deployments require, each rule
/// set here carries clean-stack only together with the script-hash and
/// witness rules, and the witness rules only together with script-hash.
#[verifier::rlimit(100)]
pub proof fn lemma_verify_script_monotone<C: SigChecker>(
    sig: Seq<u8>,
    pk: Seq<u8>,
    witness: Seq<Seq<u8>>,
    f1: ScriptFlags,
    f2: ScriptFlags,
    c: &C,
)
    requires
        flags_leq(f1, f2),
        f1.clean_stack ==> f1.p2sh && f1.segwit,
        f2.clean_stack ==> f2.p2sh && f2.segwit,
        f1.segwit ==> f1.p2sh,
        f2.segwit ==> f2.p2sh,
        verify_script_spec(sig, pk, witness, f2, c) is Ok,
    ensures
        verify_script_spec(sig, pk, witness, f1, c) is Ok,
{
    let e2sig = eval_script_spec(sig, Seq::empty(), f2, c);
    assert(e2sig is Ok);
    lemma_eval_script_monotone(sig, Seq::empty(), f1, f2, c);
    let st1 = e2sig->Ok_0;
    let e2pk = eval_script_spec(pk, st1, f2, c);
    assert(e2pk is Ok);
    lemma_eval_script_monotone(pk, st1, f1, f2, c);
    let st2 = e2pk->Ok_0;
    if f2.segwit && is_witness_program(pk) {
        if f1.segwit {
            lemma_witness_program_monotone(pk, witness, f1, f2, c);
            if is_v1_program(pk) && !f1.taproot {
            }
        }
    } else if f2.p2sh && is_p2sh(pk) {
        let redeem = st1.last();
        let e2r = eval_script_spec(redeem, st1.drop_last(), f2, c);
        assert(e2r is Ok);
        if f1.p2sh {
            lemma_eval_script_monotone(redeem, st1.drop_last(), f1, f2, c);
            let st3 = e2r->Ok_0;
            if f2.segwit && is_witness_program(redeem) {
                if f1.segwit {
                    lemma_witness_program_monotone(redeem, witness, f1, f2, c);
                }
            }
        }
    }
}

/// The mathematical view of an executable stack.
pub open spec fn stack_view(s: Seq<Vec<u8>>) -> Seq<Seq<u8>> {
    s.map_values(|v: Vec<u8>| v@)
}

/// A script number of at most four bytes denotes a value strictly within
/// the 32-bit signed range.
pub proof fn lemma_num_of_bound(b: Seq<u8>)
    requires
        b.len() <= 4,
    ensures
        -0x8000_0000 < num_of(b) < 0x8000_0000,
{
    if b.len() > 0 {
        let masked = b.update(b.len() - 1, (b.last() & 0x7f) as u8);
        let front = masked.drop_last();
        let lb = b.last();
        let lastm = (lb & 0x7f) as u8;
        assert(lb & 0x7f <= 0x7f) by (bit_vector);
        assert(masked =~= front.push(lastm));
        lemma_le_snoc(front, lastm);
        crate::bytes::lemma_le_to_int_bound(front);
        crate::bytes::lemma_pow256_values();
        let p = crate::bytes::pow256(front.len() as int);
        assert(p * lastm <= p * 0x7f) by (nonlinear_arith)
            requires
                p >= 0,
                lastm <= 0x7f,
        ;
        assert(front.len() <= 3);
        assert(p <= 0x100_0000) by {
            if front.len() == 0 {
            } else if front.len() == 1 {
            } else if front.len() == 2 {
            } else {
            }
        }
        assert(p * 0x7f <= 0x100_0000 * 0x7f) by (nonlinear_arith)
            requires
                0 <= p <= 0x100_0000,
        ;
        assert(le_to_int(masked) < 0x8000_0000);
        crate::bytes::lemma_le_to_int_bound(masked);
    }
}

/// Tests minimality of a push.
fn is_push_minimal(op: u8, item: &Vec<u8>) -> (r: bool)
    ensures
        r == push_minimal(op, item@),
{
    if item.len() == 1 && ((1 <= item[0] && item[0] <= 16) || item[0] == 0x81) {
        return false;
    }
    if op == 0x4c {
        item.len() > 75
    } else if op == 0x4d {
        item.len() > 255
    } else if op == 0x4e {
        item.len() > 65535
    } else {
        true
    }
}

/// Tests minimality of a script number.
fn is_num_minimal(b: &Vec<u8>) -> (r: bool)
    ensures
        r == num_minimal(b@),
{
    let n = b.len();
    if n == 0 {
        return true;
    }
    if b[n - 1] & 0x7f != 0 {
        return true;
    }
    n > 1 && (b[n - 2] & 0x80) != 0
}

/// Tests for a disabled opcode.
fn is_disabled(op: u8) -> (r: bool)
    ensures
        r == is_disabled_op(op),
{
    (0x7e <= op && op <= 0x81) || op == 0x83 || op == 0x84 || op == 0x85 || op == 0x86 || op
        == 0x8d || op == 0x8e || (0x95 <= op && op <= 0x99)
}

/// Whether every enclosing conditional took the executed arm.
fn conds_active(cond: &Vec<bool>) -> (r: bool)
    ensures
        r == all_true(cond@),
{
    let n = cond.len();
    let mut i: usize = 0;
    while i < n
        invariant
            i <= n,
            n == cond@.len(),
            forall|j: int| 0 <= j < i ==> cond@[j],
        decreases n - i,
    {
        if !cond[i] {
            return false;
        }
        i = i + 1;
    }
    true
}

/// Decodes a script number of at most five bytes, as the lock-time
/// opcodes read; `None` when too long.
pub fn decode_num5(b: &Vec<u8>) -> (r: Option<i64>)
    ensures
        match r {
            Some(v) => b@.len() <= 5 && v as int == num_of(b@),
            None => b@.len() > 5,
        },
{
    let n = b.len();
    if n > 5 {
        return None;
    }
    if n == 0 {
        return Some(0);
    }
    let ghost masked = b@.update(b@.len() - 1, (b@.last() & 0x7f) as u8);
    let mut m: i64 = 0;
    let mut scale: i64 = 1;
    let mut i: usize = 0;
    while i < n
        invariant
            i <= n,
            1 <= n <= 5,
            n == b@.len(),
            masked == b@.update(b@.len() - 1, (b@.last() & 0x7f) as u8),
            masked.len() == n,
            i <= 4 ==> scale == crate::bytes::pow256(i as int),
            0 <= m < 0x100_0000_0000,
            m == le_to_int(masked.subrange(0, i as int)),
        decreases n - i,
    {
        let byte: u8 = if i == n - 1 {
            b[i] & 0x7f
        } else {
            b[i]
        };
        proof {
            assert(masked[i as int] == byte) by {
                if i < n - 1 {
                    assert(masked[i as int] == b@[i as int]);
                }
            }
            crate::bytes::lemma_pow256_values();
            assert(scale <= 0x1_0000_0000) by {
                if i == 0 {
                } else if i == 1 {
                } else if i == 2 {
                } else if i == 3 {
                } else {
                }
            }
            lemma_le_snoc(masked.subrange(0, i as int), byte);
            assert(masked.subrange(0, i + 1) =~= masked.subrange(0, i as int).push(byte));
            assert((byte as int) * scale <= 255 * 0x1_0000_0000) by (nonlinear_arith)
                requires
                    0 <= byte as int <= 255,
                    0 <= scale <= 0x1_0000_0000,
            ;
            crate::bytes::lemma_le_to_int_bound(masked.subrange(0, i + 1));
            assert(crate::bytes::pow256(i + 1) <= 0x100_0000_0000) by {
                reveal_with_fuel(crate::bytes::pow256, 6);
                if i == 0 {
                } else if i == 1 {
                } else if i == 2 {
                } else if i == 3 {
                } else {
                }
            }
            assert((byte as int) * scale == scale * (byte as int)) by (nonlinear_arith);
            assert(m + (byte as int) * scale == le_to_int(masked.subrange(0, i + 1)));
            assert(m + (byte as int) * scale < 0x100_0000_0000);
        }
        m = m + (byte as i64) * scale;
        if i < 4 {
            scale = scale * 256;
        }
        i = i + 1;
    }
    proof {
        assert(masked.subrange(0, n as int) =~= masked);
    }
    let v: i64 = if b[n - 1] >= 0x80 {
        -m
    } else {
        m
    };
    Some(v)
}

/// One opcode of the executable machine; agrees exactly with `spec_step`.
#[verifier::rlimit(100)]
fn exec_step<C: SigChecker>(
    script: &Vec<u8>,
    pc: usize,
    st: &mut Vec<Vec<u8>>,
    alt: &mut Vec<Vec<u8>>,
    cond: &mut Vec<bool>,
    op_count: u32,
    flags: ScriptFlags,
    c: &C,
) -> (r: Result<(usize, u32), ScriptError>)
    requires
        pc < script@.len(),
        script@.len() <= 10000,
        op_count <= 201,
    ensures
        ({
            let m = MachineV {
                pc: pc as int,
                stack: stack_view(old(st)@),
                alt: stack_view(old(alt)@),
                op_count: op_count as int,
                cond: old(cond)@,
            };
            match r {
                Ok(p) => spec_step(script@, m, flags, c) == Ok::<MachineV, ScriptError>(
                    MachineV {
                        pc: p.0 as int,
                        stack: stack_view(final(st)@),
                        alt: stack_view(final(alt)@),
                        op_count: p.1 as int,
                        cond: final(cond)@,
                    },
                ) && pc < p.0 <= script@.len() && p.1 <= 201,
                Err(e) => spec_step(script@, m, flags, c) == Err::<MachineV, ScriptError>(e),
            }
        }),
{
    let ghost m = MachineV {
        pc: pc as int,
        stack: stack_view(st@),
        alt: stack_view(alt@),
        op_count: op_count as int,
        cond: cond@,
    };
    let n = script.len();
    let op = script[pc];
    let executing = conds_active(cond);
    if op <= 0x4e || op == 0x4f || (0x51 <= op && op <= 0x60) {
        // the push class: bounds first, the push only when executing
        let parsed: Result<(Vec<u8>, usize), ScriptError> = if op == 0x00 {
            Ok((Vec::new(), pc + 1))
        } else if op <= 0x4b {
            let l = op as usize;
            if l > n - pc - 1 {
                Err(ScriptError::BadPush)
            } else {
                Ok((crate::bytes::subvec(script, pc + 1, pc + 1 + l), pc + 1 + l))
            }
        } else if op == 0x4c || op == 0x4d || op == 0x4e {
            let header: usize = if op == 0x4c {
                2
            } else if op == 0x4d {
                3
            } else {
                5
            };
            if header > n - pc {
                Err(ScriptError::BadPush)
            } else {
                let l64: u64 = if op == 0x4c {
                    script[pc + 1] as u64
                } else if op == 0x4d {
                    crate::bytes::read_u16_le(script, pc + 1) as u64
                } else {
                    crate::bytes::read_u32_le(script, pc + 1) as u64
                };
                if l64 > (n - pc - header) as u64 {
                    Err(ScriptError::BadPush)
                } else {
                    let l = l64 as usize;
                    Ok((crate::bytes::subvec(script, pc + header, pc + header + l), pc + header
                        + l))
                }
            }
        } else if op == 0x4f {
            let mut item: Vec<u8> = Vec::new();
            item.push(0x81);
            proof {
                assert(item@ =~= seq![0x81u8]);
            }
            Ok((item, pc + 1))
        } else {
            let mut item: Vec<u8> = Vec::new();
            item.push(op - 0x50);
            proof {
                assert(item@ =~= seq![(op - 0x50) as u8]);
            }
            Ok((item, pc + 1))
        };
        let (item, new_pc) = match parsed {
            Err(e) => {
                return Err(e);
            },
            Ok(p) => p,
        };
        proof {
            if op == 0x00 {
                assert(item@ =~= Seq::<u8>::empty());
            }
        }
        if !executing {
            return Ok((new_pc, op_count));
        }
        if flags.minimal_data && op <= 0x4e && !is_push_minimal(op, &item) {
            return Err(ScriptError::MinimalData);
        }
        if item.len() > 520 {
            return Err(ScriptError::PushSize);
        }
        if st.len() >= 1000 || alt.len() >= 1000 || st.len() + alt.len() + 1 > 1000 {
            return Err(ScriptError::StackOverflow);
        }
        let ghost itemv = item@;
        st.push(item);
        proof {
            assert(stack_view(st@) =~= m.stack.push(itemv));
        }
        return Ok((new_pc, op_count));
    }
    // a non-push opcode
    if op_count + 1 > 201 {
        return Err(ScriptError::OpCount);
    }
    if is_disabled(op) {
        return Err(ScriptError::DisabledOpcode);
    }
    let nc = op_count + 1;
    if op == 0x63 || op == 0x64 {
        if !executing {
            cond.push(false);
            proof {
                assert(cond@ =~= m.cond.push(false));
            }
            return Ok((pc + 1, nc));
        }
        if st.len() < 1 {
            return Err(ScriptError::UnbalancedConditional);
        }
        let top = st.pop().unwrap();
        let v = cast_to_bool(&top);
        let b = if op == 0x63 {
            v
        } else {
            !v
        };
        cond.push(b);
        proof {
            assert(stack_view(st@) =~= m.stack.drop_last());
            assert(cond@ =~= m.cond.push(b));
        }
        return Ok((pc + 1, nc));
    }
    if op == 0x67 {
        let cl = cond.len();
        if cl == 0 {
            return Err(ScriptError::UnbalancedConditional);
        }
        let last = cond[cl - 1];
        cond[cl - 1] = !last;
        proof {
            assert(cond@ =~= m.cond.update(m.cond.len() - 1, !m.cond.last()));
        }
        return Ok((pc + 1, nc));
    }
    if op == 0x68 {
        if cond.len() == 0 {
            return Err(ScriptError::UnbalancedConditional);
        }
        let _ = cond.pop();
        proof {
            assert(cond@ =~= m.cond.drop_last());
        }
        return Ok((pc + 1, nc));
    }
    if !executing {
        return Ok((pc + 1, nc));
    }
    if op == 0x61 {
        Ok((pc + 1, nc))
    } else if op == 0xb1 || op == 0xb2 {
        let active = if op == 0xb1 {
            flags.cltv
        } else {
            flags.csv
        };
        if !active {
            return Ok((pc + 1, nc));
        }
        if st.len() < 1 {
            return Err(ScriptError::StackUnderflow);
        }
        if st[st.len() - 1].len() > 5 {
            return Err(ScriptError::NumberRange);
        }
        let v = match decode_num5(&st[st.len() - 1]) {
            Some(v) => v,
            None => {
                return Err(ScriptError::NumberRange);
            },
        };
        if v < 0 {
            return Err(ScriptError::NegativeLockTime);
        }
        let ok = if op == 0xb1 {
            c.check_lock_time(v)
        } else {
            c.check_sequence(v)
        };
        if !ok {
            return Err(ScriptError::UnsatisfiedLockTime);
        }
        Ok((pc + 1, nc))
    } else if 0xb0 <= op && op <= 0xb9 {
        if flags.discourage_upgradable_nops {
            Err(ScriptError::DiscourageUpgradableNops)
        } else {
            Ok((pc + 1, nc))
        }
    } else if op == 0x69 {
        if st.len() < 1 {
            return Err(ScriptError::StackUnderflow);
        }
        let truthy_top = cast_to_bool(&st[st.len() - 1]);
        if !truthy_top {
            return Err(ScriptError::Verify);
        }
        let _ = st.pop();
        proof {
            assert(stack_view(st@) =~= m.stack.drop_last());
        }
        Ok((pc + 1, nc))
    } else if op == 0x6a {
        Err(ScriptError::OpReturn)
    } else if op == 0x6b {
        if st.len() < 1 {
            return Err(ScriptError::StackUnderflow);
        }
        let x = st.pop().unwrap();
        alt.push(x);
        proof {
            assert(stack_view(st@) =~= m.stack.drop_last());
            assert(stack_view(alt@) =~= m.alt.push(m.stack.last()));
        }
        Ok((pc + 1, nc))
    } else if op == 0x6c {
        if alt.len() < 1 {
            return Err(ScriptError::StackUnderflow);
        }
        let x = alt.pop().unwrap();
        st.push(x);
        proof {
            assert(stack_view(alt@) =~= m.alt.drop_last());
            assert(stack_view(st@) =~= m.stack.push(m.alt.last()));
        }
        Ok((pc + 1, nc))
    } else if op == 0x75 {
        if st.len() < 1 {
            return Err(ScriptError::StackUnderflow);
        }
        let _ = st.pop();
        proof {
            assert(stack_view(st@) =~= m.stack.drop_last());
        }
        Ok((pc + 1, nc))
    } else if op == 0x76 {
        if st.len() < 1 {
            return Err(ScriptError::StackUnderflow);
        }
        if st.len() >= 1000 || alt.len() >= 1000 || st.len() + alt.len() + 1 > 1000 {
            return Err(ScriptError::StackOverflow);
        }
        let copy = clone_bytes(&st[st.len() - 1]);
        st.push(copy);
        proof {
            assert(stack_view(st@) =~= m.stack.push(m.stack.last()));
        }
        Ok((pc + 1, nc))
    } else if op == 0x7c {
        if st.len() < 2 {
            return Err(ScriptError::StackUnderflow);
        }
        let a = st.pop().unwrap();
        let b = st.pop().unwrap();
        st.push(a);
        st.push(b);
        proof {
            assert(stack_view(st@) =~= m.stack.drop_last().drop_last().push(m.stack.last()).push(
                m.stack[m.stack.len() - 2],
            ));
        }
        Ok((pc + 1, nc))
    } else if op == 0x87 || op == 0x88 {
        if st.len() < 2 {
            return Err(ScriptError::StackUnderflow);
        }
        let a = st.pop().unwrap();
        let b = st.pop().unwrap();
        let eq = crate::types::bytes_eq(&a, &b);
        if op == 0x87 {
            let mut item: Vec<u8> = Vec::new();
            if eq {
                item.push(1);
            }
            let ghost itemv = item@;
            st.push(item);
            proof {
                if eq {
                    assert(itemv =~= seq![1u8]);
                } else {
                    assert(itemv =~= Seq::<u8>::empty());
                }
                assert(stack_view(st@) =~= m.stack.drop_last().drop_last().push(itemv));
            }
            Ok((pc + 1, nc))
        } else if eq {
            proof {
                assert(stack_view(st@) =~= m.stack.drop_last().drop_last());
            }
            Ok((pc + 1, nc))
        } else {
            Err(ScriptError::Verify)
        }
    } else if op == 0x93 || op == 0x94 {
        if st.len() < 2 {
            return Err(ScriptError::StackUnderflow);
        }
        if st[st.len() - 1].len() > 4 || st[st.len() - 2].len() > 4 {
            return Err(ScriptError::NumberRange);
        }
        if flags.minimal_data && !(is_num_minimal(&st[st.len() - 1]) && is_num_minimal(
            &st[st.len() - 2],
        )) {
            return Err(ScriptError::MinimalData);
        }
        let a = st.pop().unwrap();
        let b = st.pop().unwrap();
        let v1 = match decode_num(&a) {
            Some(v) => v,
            None => {
                return Err(ScriptError::NumberRange);
            },
        };
        let v2 = match decode_num(&b) {
            Some(v) => v,
            None => {
                return Err(ScriptError::NumberRange);
            },
        };
        proof {
            lemma_num_of_bound(a@);
            lemma_num_of_bound(b@);
        }
        let v: i64 = if op == 0x93 {
            v2 + v1
        } else {
            v2 - v1
        };
        let item = encode_num(v);
        let ghost itemv = item@;
        st.push(item);
        proof {
            assert(stack_view(st@) =~= m.stack.drop_last().drop_last().push(itemv));
        }
        Ok((pc + 1, nc))
    } else if op == 0xa6 || op == 0xa8 || op == 0xa9 || op == 0xaa {
        if st.len() < 1 {
            return Err(ScriptError::StackUnderflow);
        }
        let x = st.pop().unwrap();
        let hv: Vec<u8> = if op == 0xa6 {
            let h = crate::hashes::ripemd160_bytes(x.as_slice());
            vstd::slice::slice_to_vec(h.as_slice())
        } else if op == 0xa8 {
            let h = sha256(x.as_slice());
            vstd::slice::slice_to_vec(h.as_slice())
        } else if op == 0xa9 {
            let h = crate::hashes::hash160(x.as_slice());
            vstd::slice::slice_to_vec(h.as_slice())
        } else {
            let h = dsha256(x.as_slice());
            vstd::slice::slice_to_vec(h.as_slice())
        };
        let ghost hvv = hv@;
        st.push(hv);
        proof {
            assert(hvv.len() <= 32);
            assert(stack_view(st@) =~= m.stack.drop_last().push(hvv));
        }
        Ok((pc + 1, nc))
    } else if op == 0xac || op == 0xad {
        if st.len() < 2 {
            return Err(ScriptError::StackUnderflow);
        }
        let pk = st.pop().unwrap();
        let sig = st.pop().unwrap();
        let ok = c.check_sig(&sig, &pk, script);
        if op == 0xac {
            let mut item: Vec<u8> = Vec::new();
            if ok {
                item.push(1);
            }
            let ghost itemv = item@;
            st.push(item);
            proof {
                if ok {
                    assert(itemv =~= seq![1u8]);
                } else {
                    assert(itemv =~= Seq::<u8>::empty());
                }
                assert(stack_view(st@) =~= m.stack.drop_last().drop_last().push(itemv));
            }
            Ok((pc + 1, nc))
        } else if ok {
            proof {
                assert(stack_view(st@) =~= m.stack.drop_last().drop_last());
            }
            Ok((pc + 1, nc))
        } else {
            Err(ScriptError::Verify)
        }
    } else if op == 0xae || op == 0xaf {
        let stlen = st.len();
        if stlen < 1 {
            return Err(ScriptError::StackUnderflow);
        }
        if st[stlen - 1].len() > 4 {
            return Err(ScriptError::NumberRange);
        }
        if flags.minimal_data && !is_num_minimal(&st[stlen - 1]) {
            return Err(ScriptError::MinimalData);
        }
        let nkey_v = match decode_num(&st[stlen - 1]) {
            Some(v) => v,
            None => {
                return Err(ScriptError::NumberRange);
            },
        };
        if nkey_v < 0 || nkey_v > 20 {
            return Err(ScriptError::PubkeyCount);
        }
        let nkey = nkey_v as usize;
        if op_count as usize + 1 + nkey > 201 {
            return Err(ScriptError::OpCount);
        }
        if stlen < 2 + nkey {
            return Err(ScriptError::StackUnderflow);
        }
        let ghost keysv = m.stack.subrange(stlen - 1 - nkey, stlen - 1);
        if st[stlen - 2 - nkey].len() > 4 {
            return Err(ScriptError::NumberRange);
        }
        if flags.minimal_data && !is_num_minimal(&st[stlen - 2 - nkey]) {
            return Err(ScriptError::MinimalData);
        }
        let nsig_v = match decode_num(&st[stlen - 2 - nkey]) {
            Some(v) => v,
            None => {
                return Err(ScriptError::NumberRange);
            },
        };
        if nsig_v < 0 || nsig_v > nkey_v {
            return Err(ScriptError::SigCount);
        }
        let nsig = nsig_v as usize;
        if stlen < 3 + nkey + nsig {
            return Err(ScriptError::StackUnderflow);
        }
        let ghost sigsv = m.stack.subrange(stlen - 2 - nkey - nsig, stlen - 2 - nkey);
        if flags.null_dummy && st[stlen - 3 - nkey - nsig].len() != 0 {
            return Err(ScriptError::NullDummy);
        }
        let base_sig = stlen - 2 - nkey - nsig;
        let base_key = stlen - 1 - nkey;
        let mut isig: usize = 0;
        let mut ikey: usize = 0;
        proof {
            assert(sigsv.skip(0) =~= sigsv);
            assert(keysv.skip(0) =~= keysv);
        }
        while isig < nsig && ikey < nkey
            invariant
                isig <= nsig,
                ikey <= nkey,
                base_sig + nsig + 1 + nkey + 1 == stlen,
                stlen == st@.len(),
                stlen == m.stack.len(),
                base_key == base_sig + nsig + 1,
                m.stack == stack_view(st@),
                sigsv == m.stack.subrange(base_sig as int, base_sig + nsig),
                keysv == m.stack.subrange(base_key as int, base_key + nkey),
                sigsv.len() == nsig,
                keysv.len() == nkey,
                multisig_match(c, sigsv.skip(isig as int), keysv.skip(ikey as int), script@)
                    == multisig_match(c, sigsv, keysv, script@),
            decreases nkey - ikey,
        {
            proof {
                assert(sigsv[isig as int] == m.stack[base_sig + isig]);
                assert(keysv[ikey as int] == m.stack[base_key + ikey]);
                assert(sigsv.skip(isig as int)[0] == sigsv[isig as int]);
                assert(keysv.skip(ikey as int)[0] == keysv[ikey as int]);
                assert(m.stack[base_sig + isig] == st@[base_sig + isig]@);
                assert(m.stack[base_key + ikey] == st@[base_key + ikey]@);
            }
            let matched = c.check_sig(&st[base_sig + isig], &st[base_key + ikey], script);
            proof {
                if matched {
                    assert(sigsv.skip(isig as int).drop_first() =~= sigsv.skip(isig + 1));
                    assert(keysv.skip(ikey as int).drop_first() =~= keysv.skip(ikey + 1));
                } else {
                    assert(keysv.skip(ikey as int).drop_first() =~= keysv.skip(ikey + 1));
                }
            }
            if matched {
                isig = isig + 1;
                ikey = ikey + 1;
            } else {
                ikey = ikey + 1;
            }
        }
        let ok = isig == nsig;
        proof {
            if ok {
                assert(sigsv.skip(nsig as int).len() == 0);
                assert(multisig_match(c, sigsv.skip(isig as int), keysv.skip(ikey as int), script@));
            } else {
                assert(ikey == nkey);
                assert(keysv.skip(nkey as int).len() == 0);
                assert(sigsv.skip(isig as int).len() > 0);
                assert(!multisig_match(
                    c,
                    sigsv.skip(isig as int),
                    keysv.skip(ikey as int),
                    script@,
                ));
            }
            assert(multisig_match(c, sigsv, keysv, script@) == ok);
        }
        st.truncate(base_sig - 1);
        proof {
            assert(stack_view(st@) =~= m.stack.subrange(0, base_sig - 1));
        }
        let nc2 = op_count + 1 + nkey as u32;
        if op == 0xae {
            let mut item: Vec<u8> = Vec::new();
            if ok {
                item.push(1);
            }
            let ghost itemv = item@;
            st.push(item);
            proof {
                if ok {
                    assert(itemv =~= seq![1u8]);
                } else {
                    assert(itemv =~= Seq::<u8>::empty());
                }
                assert(stack_view(st@) =~= m.stack.subrange(0, base_sig - 1).push(itemv));
            }
            Ok((pc + 1, nc2))
        } else if ok {
            Ok((pc + 1, nc2))
        } else {
            Err(ScriptError::Verify)
        }
    } else {
        Err(ScriptError::BadOpcode)
    }
}

/// Runs a script to completion on an input stack, returning the final
/// stack or the first failure; agrees exactly with `eval_script_spec`.
pub fn eval_script<C: SigChecker>(
    script: &Vec<u8>,
    stack: Vec<Vec<u8>>,
    flags: ScriptFlags,
    c: &C,
) -> (r: Result<Vec<Vec<u8>>, ScriptError>)
    ensures
        match r {
            Ok(st) => eval_script_spec(script@, stack_view(stack@), flags, c) == Ok::<
                Seq<Seq<u8>>,
                ScriptError,
            >(stack_view(st@)),
            Err(e) => eval_script_spec(script@, stack_view(stack@), flags, c) == Err::<
                Seq<Seq<u8>>,
                ScriptError,
            >(e),
        },
{
    let ghost s0 = stack_view(stack@);
    let n = script.len();
    if n > 10000 {
        return Err(ScriptError::ScriptSize);
    }
    let mut st = stack;
    let mut alt: Vec<Vec<u8>> = Vec::new();
    let mut cond: Vec<bool> = Vec::new();
    let mut pc: usize = 0;
    let mut op_count: u32 = 0;
    proof {
        assert(stack_view(alt@) =~= Seq::<Seq<u8>>::empty());
        assert(cond@ =~= Seq::<bool>::empty());
    }
    while pc < n
        invariant
            n == script@.len(),
            n <= 10000,
            pc <= n,
            op_count <= 201,
            s0 == stack_view(stack@),
            eval_script_spec(script@, s0, flags, c) == eval_from(
                script@,
                MachineV {
                    pc: pc as int,
                    stack: stack_view(st@),
                    alt: stack_view(alt@),
                    op_count: op_count as int,
                    cond: cond@,
                },
                flags,
                c,
            ),
        decreases n - pc,
    {
        let ghost m = MachineV {
            pc: pc as int,
            stack: stack_view(st@),
            alt: stack_view(alt@),
            op_count: op_count as int,
            cond: cond@,
        };
        match exec_step(script, pc, &mut st, &mut alt, &mut cond, op_count, flags, c) {
            Err(e) => {
                proof {
                    assert(eval_from(script@, m, flags, c) == Err::<Seq<Seq<u8>>, _>(e));
                }
                return Err(e);
            },
            Ok(p) => {
                pc = p.0;
                op_count = p.1;
            },
        }
    }
    if cond.len() != 0 {
        proof {
            let mf = MachineV {
                pc: pc as int,
                stack: stack_view(st@),
                alt: stack_view(alt@),
                op_count: op_count as int,
                cond: cond@,
            };
            assert(eval_from(script@, mf, flags, c) == Err::<Seq<Seq<u8>>, ScriptError>(
                ScriptError::UnbalancedConditional,
            ));
        }
        return Err(ScriptError::UnbalancedConditional);
    }
    proof {
        let mf = MachineV {
            pc: pc as int,
            stack: stack_view(st@),
            alt: stack_view(alt@),
            op_count: op_count as int,
            cond: cond@,
        };
        assert(eval_from(script@, mf, flags, c) == Ok::<_, ScriptError>(mf.stack));
    }
    Ok(st)
}

/// Copies the first `end` elements of a stack.
fn clone_stack_prefix(v: &Vec<Vec<u8>>, end: usize) -> (r: Vec<Vec<u8>>)
    requires
        end <= v@.len(),
    ensures
        stack_view(r@) == stack_view(v@).subrange(0, end as int),
{
    let mut r: Vec<Vec<u8>> = Vec::new();
    proof {
        assert(stack_view(r@) =~= stack_view(v@).subrange(0, 0));
    }
    let mut i: usize = 0;
    while i < end
        invariant
            i <= end <= v@.len(),
            stack_view(r@) == stack_view(v@).subrange(0, i as int),
        decreases end - i,
    {
        let ghost pre = r@;
        let copied = clone_bytes(&v[i]);
        let ghost cv = copied@;
        r.push(copied);
        proof {
            assert(stack_view(pre).len() == i as int);
            assert(pre.len() == i as int);
            assert(r@.len() == i + 1);
            assert forall|j: int| 0 <= j < i + 1 implies stack_view(r@)[j] == stack_view(
                v@,
            ).subrange(0, i + 1)[j] by {
                assert(r@ == pre.push(r@[i as int]));
                if j < i {
                    assert(r@[j] == pre[j]);
                    assert(stack_view(pre)[j] == stack_view(v@).subrange(0, i as int)[j]);
                } else {
                    assert(r@[j]@ == cv);
                    assert(stack_view(r@)[j] == cv);
                    assert(cv == v@[i as int]@);
                }
            }
            assert(stack_view(r@).len() == i + 1);
            assert(stack_view(v@).subrange(0, i + 1).len() == i + 1);
            assert(stack_view(r@) =~= stack_view(v@).subrange(0, i + 1));
        }
        i = i + 1;
    }
    r
}

/// Tests whether a script is pushes alone.
fn is_push_only(s: &Vec<u8>) -> (r: bool)
    ensures
        r == push_only_from(s@, 0),
{
    let n = s.len();
    let mut pos: usize = 0;
    while pos < n
        invariant
            pos <= n,
            n == s@.len(),
            push_only_from(s@, 0) == push_only_from(s@, pos as int),
        decreases n - pos,
    {
        let op = s[pos];
        if op > 0x60 {
            return false;
        }
        if op == 0x00 || op == 0x4f || op == 0x50 || (0x51 <= op && op <= 0x60) {
            pos = pos + 1;
        } else if op <= 0x4b {
            let l = op as usize;
            if l > n - pos - 1 {
                return false;
            }
            pos = pos + 1 + l;
        } else if op == 0x4c {
            if n - pos < 2 {
                return false;
            }
            let l = s[pos + 1] as usize;
            if l > n - pos - 2 {
                return false;
            }
            pos = pos + 2 + l;
        } else if op == 0x4d {
            if n - pos < 3 {
                return false;
            }
            let l = crate::bytes::read_u16_le(s, pos + 1) as usize;
            if l > n - pos - 3 {
                return false;
            }
            pos = pos + 3 + l;
        } else {
            if n - pos < 5 {
                return false;
            }
            let l64 = crate::bytes::read_u32_le(s, pos + 1) as u64;
            if l64 > (n - pos - 5) as u64 {
                return false;
            }
            proof {
                crate::bytes::lemma_le_to_int_bound(s@.subrange(pos + 1, pos + 5));
                crate::bytes::lemma_pow256_values();
            }
            pos = pos + 5 + l64 as usize;
        }
    }
    true
}

/// Validates a witness program spend; agrees exactly with
/// `witness_program_spec`.
fn witness_program_exec<C: SigChecker>(
    pk: &Vec<u8>,
    witness: &Vec<Vec<u8>>,
    flags: ScriptFlags,
    c: &C,
) -> (r: Result<(), ScriptError>)
    requires
        is_witness_program(pk@),
    ensures
        r == witness_program_spec(pk@, stack_view(witness@), flags, c),
{
    let v0s = pk.len() == 34 && pk[0] == 0x00 && pk[1] == 0x20;
    let v0k = pk.len() == 22 && pk[0] == 0x00 && pk[1] == 0x14;
    let v1 = pk.len() == 34 && pk[0] == 0x51 && pk[1] == 0x20;
    let ghost wv = stack_view(witness@);
    if v1 {
        if !flags.taproot {
            return Ok(());
        }
        let wlen = witness.len();
        let has_annex = wlen >= 2 && witness[wlen - 1].len() >= 1 && witness[wlen - 1][0] == 0x50;
        let effective = if has_annex {
            wlen - 1
        } else {
            wlen
        };
        proof {
            if has_annex {
                assert(wv.last() == witness@[wlen - 1]@);
                assert(wv.drop_last().len() == effective as int);
            }
        }
        if effective == 0 {
            return Err(ScriptError::WitnessEmpty);
        }
        if effective != 1 {
            return Err(ScriptError::UnsupportedWitnessProgram);
        }
        let key = crate::bytes::subvec(pk, 2, 34);
        let empty_code: Vec<u8> = Vec::new();
        proof {
            assert(wv[0] == witness@[0]@);
            assert(empty_code@ =~= Seq::<u8>::empty());
            if has_annex {
                assert(wv.drop_last()[0] == wv[0]);
            }
        }
        if c.check_sig(&witness[0], &key, &empty_code) {
            return Ok(());
        }
        return Err(ScriptError::Verify);
    }
    if v0k {
        if witness.len() != 2 {
            return Err(ScriptError::WitnessProgramMismatch);
        }
        let h = crate::hashes::hash160(witness[1].as_slice());
        let hv: Vec<u8> = vstd::slice::slice_to_vec(h.as_slice());
        let committed = crate::bytes::subvec(pk, 2, 22);
        proof {
            assert(wv[1] == witness@[1]@);
            assert(wv[0] == witness@[0]@);
        }
        if !crate::types::bytes_eq(&hv, &committed) {
            return Err(ScriptError::WitnessProgramMismatch);
        }
        if !c.check_sig(&witness[0], &witness[1], pk) {
            return Err(ScriptError::Verify);
        }
        return Ok(());
    }
    // the pay-to-script form
    if witness.len() == 0 {
        return Err(ScriptError::WitnessEmpty);
    }
    let wscript = clone_bytes(&witness[witness.len() - 1]);
    let h = sha256(wscript.as_slice());
    let hv: Vec<u8> = vstd::slice::slice_to_vec(h.as_slice());
    let prog = crate::bytes::subvec(pk, 2, 34);
    proof {
        assert(wv.last() == witness@[witness@.len() - 1]@);
    }
    if !crate::types::bytes_eq(&hv, &prog) {
        return Err(ScriptError::WitnessProgramMismatch);
    }
    let wstack = clone_stack_prefix(witness, witness.len() - 1);
    proof {
        assert(stack_view(wstack@) =~= wv.drop_last());
    }
    let st3 = match eval_script(&wscript, wstack, flags, c) {
        Err(e) => {
            return Err(e);
        },
        Ok(s) => s,
    };
    if st3.len() != 1 {
        return Err(ScriptError::CleanStack);
    }
    if !cast_to_bool(&st3[0]) {
        proof {
            assert(stack_view(st3@).last() == st3@[0]@);
        }
        return Err(ScriptError::EvalFalse);
    }
    proof {
        assert(stack_view(st3@).last() == st3@[0]@);
    }
    Ok(())
}

/// The composite validation of one input; agrees exactly with
/// `verify_script_spec`.
#[verifier::rlimit(100)]
pub fn verify_script<C: SigChecker>(
    script_sig: &Vec<u8>,
    script_pubkey: &Vec<u8>,
    witness: &Vec<Vec<u8>>,
    flags: ScriptFlags,
    c: &C,
) -> (r: Result<(), ScriptError>)
    ensures
        r == verify_script_spec(script_sig@, script_pubkey@, stack_view(witness@), flags, c),
{
    let empty_stack: Vec<Vec<u8>> = Vec::new();
    proof {
        assert(stack_view(empty_stack@) =~= Seq::<Seq<u8>>::empty());
    }
    let st1 = match eval_script(script_sig, empty_stack, flags, c) {
        Err(e) => {
            return Err(e);
        },
        Ok(s) => s,
    };
    let ghost st1v = stack_view(st1@);
    let st1_for_redeem = clone_stack_prefix(&st1, st1.len());
    proof {
        assert(st1v.subrange(0, st1v.len() as int) =~= st1v);
        assert(stack_view(st1_for_redeem@) == st1v);
    }
    let st1_len = st1.len();
    let st2 = match eval_script(script_pubkey, st1, flags, c) {
        Err(e) => {
            return Err(e);
        },
        Ok(s) => s,
    };
    if st2.len() == 0 {
        return Err(ScriptError::EvalFalse);
    }
    if !cast_to_bool(&st2[st2.len() - 1]) {
        return Err(ScriptError::EvalFalse);
    }
    let pk = script_pubkey;
    let witness_shaped = (pk.len() == 34 && pk[0] == 0x00 && pk[1] == 0x20) || (pk.len() == 22
        && pk[0] == 0x00 && pk[1] == 0x14) || (pk.len() == 34 && pk[0] == 0x51 && pk[1] == 0x20);
    if flags.segwit && witness_shaped {
        if script_sig.len() != 0 {
            return Err(ScriptError::WitnessMalleated);
        }
        return witness_program_exec(pk, witness, flags, c);
    }
    let p2sh_shaped = pk.len() == 23 && pk[0] == 0xa9 && pk[1] == 0x14 && pk[22] == 0x87;
    if flags.p2sh && p2sh_shaped {
        if !is_push_only(script_sig) {
            return Err(ScriptError::PushOnly);
        }
        let mut rest = st1_for_redeem;
        if rest.len() == 0 {
            return Err(ScriptError::StackUnderflow);
        }
        let redeem = match rest.pop() {
            Some(r) => r,
            None => {
                return Err(ScriptError::StackUnderflow);
            },
        };
        proof {
            assert(redeem@ == st1v.last());
            assert(stack_view(rest@) =~= st1v.drop_last());
        }
        let redeem_is_witness = (redeem.len() == 34 && redeem[0] == 0x00 && redeem[1] == 0x20)
            || (redeem.len() == 22 && redeem[0] == 0x00 && redeem[1] == 0x14) || (redeem.len()
            == 34 && redeem[0] == 0x51 && redeem[1] == 0x20);
        let st3 = match eval_script(&redeem, rest, flags, c) {
            Err(e) => {
                return Err(e);
            },
            Ok(s) => s,
        };
        if st3.len() == 0 {
            return Err(ScriptError::EvalFalse);
        }
        if !cast_to_bool(&st3[st3.len() - 1]) {
            return Err(ScriptError::EvalFalse);
        }
        if flags.segwit && redeem_is_witness {
            if st1_len != 1 {
                return Err(ScriptError::WitnessMalleated);
            }
            return witness_program_exec(&redeem, witness, flags, c);
        }
        if witness.len() != 0 && flags.segwit {
            return Err(ScriptError::WitnessUnexpected);
        }
        if flags.clean_stack && st3.len() != 1 {
            return Err(ScriptError::CleanStack);
        }
        return Ok(());
    }
    if witness.len() != 0 && flags.segwit {
        return Err(ScriptError::WitnessUnexpected);
    }
    if flags.clean_stack && st2.len() != 1 {
        return Err(ScriptError::CleanStack);
    }
    Ok(())
}

/// An abstract signature checker: it knows the transaction and input
/// under validation. Its capabilities are signature verification over
/// the sighash of the executing script, and the two lock-time rules.
pub trait SigChecker {
    /// The verdict on a signature for a public key, over the sighash
    /// this checker computes from the executing script.
    spec fn check_sig_spec(&self, sig: Seq<u8>, pubkey: Seq<u8>, script_code: Seq<u8>) -> bool;

    /// Decides a signature; must agree with the mathematical verdict.
    fn check_sig(&self, sig: &Vec<u8>, pubkey: &Vec<u8>, script_code: &Vec<u8>) -> (r: bool)
        ensures
            r == self.check_sig_spec(sig@, pubkey@, script_code@),
    ;

    /// Whether the transaction satisfies an absolute lock-time operand.
    spec fn check_lock_time_spec(&self, n: int) -> bool;

    fn check_lock_time(&self, n: i64) -> (r: bool)
        ensures
            r == self.check_lock_time_spec(n as int),
    ;

    /// Whether the spending input satisfies a relative lock-time
    /// operand.
    spec fn check_sequence_spec(&self, n: int) -> bool;

    fn check_sequence(&self, n: i64) -> (r: bool)
        ensures
            r == self.check_sequence_spec(n as int),
    ;
}

/// A checker that rejects every signature and lock-time claim; the
/// conservative default when no signature backend is configured.
pub struct RejectAllChecker {
}

impl SigChecker for RejectAllChecker {
    open spec fn check_sig_spec(&self, sig: Seq<u8>, pubkey: Seq<u8>, script_code: Seq<u8>) -> bool {
        false
    }

    fn check_sig(&self, sig: &Vec<u8>, pubkey: &Vec<u8>, script_code: &Vec<u8>) -> (r: bool) {
        false
    }

    open spec fn check_lock_time_spec(&self, n: int) -> bool {
        false
    }

    fn check_lock_time(&self, n: i64) -> (r: bool) {
        false
    }

    open spec fn check_sequence_spec(&self, n: int) -> bool {
        false
    }

    fn check_sequence(&self, n: i64) -> (r: bool) {
        false
    }
}

/// A hash-lock checker: a signature is valid when its double SHA-256
/// equals the public key field, and lock times are never binding. Used
/// by the test suite and by scripts that gate spending on a revealed
/// preimage.
pub struct HashLockChecker {
}

impl SigChecker for HashLockChecker {
    open spec fn check_sig_spec(&self, sig: Seq<u8>, pubkey: Seq<u8>, script_code: Seq<u8>) -> bool {
        dsha256_of(sig) == pubkey
    }

    fn check_sig(&self, sig: &Vec<u8>, pubkey: &Vec<u8>, script_code: &Vec<u8>) -> (r: bool) {
        let h = dsha256(sig.as_slice());
        let hv: Vec<u8> = vstd::slice::slice_to_vec(h.as_slice());
        crate::types::bytes_eq(&hv, pubkey)
    }

    open spec fn check_lock_time_spec(&self, n: int) -> bool {
        true
    }

    fn check_lock_time(&self, n: i64) -> (r: bool) {
        true
    }

    open spec fn check_sequence_spec(&self, n: int) -> bool {
        true
    }

    fn check_sequence(&self, n: i64) -> (r: bool) {
        true
    }
}

/// A checker carrying the spending transaction's lock fields: it
/// decides the two lock-time opcodes exactly and rejects signatures,
/// for validation without a signature backend.
pub struct TxLockChecker {
    /// The transaction's lock time.
    pub lock_time: u32,
    /// The spending input's sequence.
    pub sequence: u32,
}

impl SigChecker for TxLockChecker {
    open spec fn check_sig_spec(&self, sig: Seq<u8>, pubkey: Seq<u8>, script_code: Seq<u8>) -> bool {
        false
    }

    fn check_sig(&self, sig: &Vec<u8>, pubkey: &Vec<u8>, script_code: &Vec<u8>) -> (r: bool) {
        false
    }

    /// The absolute rule: same lock class (heights below 500000000,
    /// times at or above), operand at most the transaction's lock
    /// time, and the input not opted out.
    open spec fn check_lock_time_spec(&self, n: int) -> bool {
        &&& ((n < 500_000_000 && self.lock_time < 500_000_000) || (n >= 500_000_000
            && self.lock_time >= 500_000_000))
        &&& n <= self.lock_time as int
        &&& self.sequence != 0xffff_ffffu32
    }

    fn check_lock_time(&self, n: i64) -> (r: bool) {
        let class_ok = (n < 500_000_000 && self.lock_time < 500_000_000) || (n >= 500_000_000
            && self.lock_time >= 500_000_000);
        class_ok && n <= self.lock_time as i64 && self.sequence != 0xffff_ffff
    }

    /// The relative rule: the sequence carries no disable bit, and the
    /// operand's masked lock field, in the same class, is at most the
    /// sequence's.
    open spec fn check_sequence_spec(&self, n: int) -> bool {
        &&& n >= 0
        &&& (self.sequence as int) < 0x8000_0000
        &&& (n % 0x1_0000_0000) < 0x8000_0000
        &&& ((n % 0x1_0000_0000) / 0x40_0000) % 2 == ((self.sequence as int) / 0x40_0000) % 2
        &&& (n % 0x1_0000_0000) % 0x1_0000 <= (self.sequence as int) % 0x1_0000
    }

    fn check_sequence(&self, n: i64) -> (r: bool) {
        if n < 0 {
            return false;
        }
        let n_masked: i64 = n % 0x1_0000_0000;
        if self.sequence >= 0x8000_0000 {
            return false;
        }
        if n_masked >= 0x8000_0000 {
            return false;
        }
        let n_type = (n_masked / 0x40_0000) % 2;
        let s_type = ((self.sequence as i64) / 0x40_0000) % 2;
        n_type == s_type && (n_masked % 0x1_0000) <= (self.sequence as i64) % 0x1_0000
    }
}

} // verus!
