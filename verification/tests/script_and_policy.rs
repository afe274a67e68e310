use blvm_core::chunks::{frame_len_ok, load_chunk_blocks, parse_chunk_metadata, select_chunk_range};
use blvm_core::codec::serialize_tx_legacy;
use blvm_core::connect::compute_median;
use blvm_core::errors::InvalidKind;
use blvm_core::hexstr::block_bytes_from_hex;
use blvm_core::mempool::{
    accept_to_memory_pool, is_standard_tx, replacement_checks, Admission, Mempool, MempoolEntry,
    RejectKind,
};
use blvm_core::script::{
    cast_to_bool, decode_num, encode_num, eval_script, verify_script, HashLockChecker,
    RejectAllChecker, ScriptError, ScriptFlags, SigChecker, TxLockChecker,
};
use blvm_core::txcheck::check_transaction;
use blvm_core::types::{Coin, OutPoint, Transaction, TxIn, TxOut, Witness};
use blvm_core::utxo::UtxoSet;

fn tx_spending(parent: [u8; 32], sequence: u32, value: u64) -> Transaction {
    Transaction {
        version: 2,
        inputs: vec![TxIn {
            prevout: OutPoint { hash: parent, index: 0 },
            script_sig: vec![],
            sequence,
        }],
        outputs: vec![TxOut { value, script_pubkey: vec![0x51] }],
        lock_time: 0,
    }
}

#[test]
fn arithmetic_script_evaluates() {
    // OP_2 OP_3 OP_ADD leaves five
    let script = vec![0x52u8, 0x53, 0x93];
    let stack = eval_script(&script, Vec::new(), ScriptFlags::none(), &RejectAllChecker {})
        .expect("script runs");
    assert_eq!(stack, vec![vec![5u8]]);
    // OP_2 OP_3 OP_SUB leaves negative one, encoded with its sign bit
    let script = vec![0x52u8, 0x53, 0x94];
    let stack = eval_script(&script, Vec::new(), ScriptFlags::none(), &RejectAllChecker {})
        .expect("script runs");
    assert_eq!(stack, vec![vec![0x81u8]]);
}

#[test]
fn script_evaluation_is_deterministic() {
    let script = vec![0x51u8, 0x76, 0x87];
    let a = eval_script(&script, Vec::new(), ScriptFlags::all(), &RejectAllChecker {});
    let b = eval_script(&script, Vec::new(), ScriptFlags::all(), &RejectAllChecker {});
    assert_eq!(a, b);
}

#[test]
fn flags_only_add_failures() {
    // a script with an upgradable no-op succeeds bare and fails only
    // under the discouraging rule
    let sig: Vec<u8> = vec![];
    let pk = vec![0xb0u8, 0x51];
    let witness: Vec<Vec<u8>> = Vec::new();
    let none = ScriptFlags::none();
    let mut discouraging = ScriptFlags::none();
    discouraging.discourage_upgradable_nops = true;
    assert!(verify_script(&sig, &pk, &witness, none, &RejectAllChecker {}).is_ok());
    assert_eq!(
        verify_script(&sig, &pk, &witness, discouraging, &RejectAllChecker {}),
        Err(ScriptError::DiscourageUpgradableNops)
    );
}

#[test]
fn hash_lock_checker_gates_checksig() {
    // OP_CHECKSIG under the hash-lock checker: the "signature" must
    // hash to the "public key"
    let checker = HashLockChecker {};
    let preimage = vec![0xaau8, 0xbb];
    let lock = blvm_core::hashes::dsha256(&preimage);
    let mut script = vec![0x02u8, 0xaa, 0xbb, 0x20];
    script.extend_from_slice(&lock);
    script.push(0xac);
    let stack = eval_script(&script, Vec::new(), ScriptFlags::none(), &checker)
        .expect("script runs");
    assert!(cast_to_bool(&stack[0]));
    assert!(checker.check_sig(&preimage, &lock.to_vec(), &script));
}

#[test]
fn conditional_branches_execute() {
    // OP_1 OP_IF OP_2 OP_ELSE OP_3 OP_ENDIF leaves two
    let script = vec![0x51u8, 0x63, 0x52, 0x67, 0x53, 0x68];
    let stack = eval_script(&script, Vec::new(), ScriptFlags::none(), &RejectAllChecker {})
        .expect("script runs");
    assert_eq!(stack, vec![vec![2u8]]);
    // OP_0 takes the other arm
    let script = vec![0x00u8, 0x63, 0x52, 0x67, 0x53, 0x68];
    let stack = eval_script(&script, Vec::new(), ScriptFlags::none(), &RejectAllChecker {})
        .expect("script runs");
    assert_eq!(stack, vec![vec![3u8]]);
    // an unclosed conditional fails
    let script = vec![0x51u8, 0x63, 0x52];
    assert_eq!(
        eval_script(&script, Vec::new(), ScriptFlags::none(), &RejectAllChecker {}),
        Err(ScriptError::UnbalancedConditional)
    );
    // a disabled opcode fails even in the unexecuted arm
    let script = vec![0x00u8, 0x63, 0x7e, 0x67, 0x53, 0x68];
    assert_eq!(
        eval_script(&script, Vec::new(), ScriptFlags::none(), &RejectAllChecker {}),
        Err(ScriptError::DisabledOpcode)
    );
}

#[test]
fn hash160_opcode_matches_primitive() {
    // push data, OP_HASH160, push the expected hash, OP_EQUAL
    let data = vec![0x01u8, 0x02, 0x03];
    let h = blvm_core::hashes::hash160(&data);
    let mut script = vec![0x03u8, 0x01, 0x02, 0x03, 0xa9, 0x14];
    script.extend_from_slice(&h);
    script.push(0x87);
    let stack = eval_script(&script, Vec::new(), ScriptFlags::none(), &RejectAllChecker {})
        .expect("script runs");
    assert_eq!(stack, vec![vec![1u8]]);
}

#[test]
fn p2sh_runs_the_redeem_script() {
    // the redeem script is OP_2 OP_EQUAL; the spender pushes 2 and the
    // redeem script
    let redeem = vec![0x52u8, 0x87];
    let h = blvm_core::hashes::hash160(&redeem);
    let mut pk = vec![0xa9u8, 0x14];
    pk.extend_from_slice(&h);
    pk.push(0x87);
    let sig = vec![0x52u8, 0x02, 0x52, 0x87];
    let witness: Vec<Vec<u8>> = Vec::new();
    let mut flags = ScriptFlags::none();
    flags.p2sh = true;
    assert!(verify_script(&sig, &pk, &witness, flags, &RejectAllChecker {}).is_ok());
    // a wrong redeem hash fails the outer script
    let mut bad_pk = vec![0xa9u8, 0x14];
    bad_pk.extend_from_slice(&[0u8; 20]);
    bad_pk.push(0x87);
    assert!(verify_script(&sig, &bad_pk, &witness, flags, &RejectAllChecker {}).is_err());
    // without the rule the outer hash check alone decides
    assert!(verify_script(&sig, &pk, &witness, ScriptFlags::none(), &RejectAllChecker {}).is_ok());
    // a redeem script that fails is rejected only under the rule: the
    // monotone direction
    let bad_sig = vec![0x53u8, 0x02, 0x52, 0x87];
    assert!(verify_script(&bad_sig, &pk, &witness, ScriptFlags::none(), &RejectAllChecker {})
        .is_ok());
    assert!(verify_script(&bad_sig, &pk, &witness, flags, &RejectAllChecker {}).is_err());
}

#[test]
fn p2wpkh_checks_key_hash_and_signature() {
    let checker = HashLockChecker {};
    // under the hash-lock checker the "public key" is the hash of the
    // "signature"
    let sig = vec![0x09u8, 0x09];
    let pubkey = blvm_core::hashes::dsha256(&sig).to_vec();
    let kh = blvm_core::hashes::hash160(&pubkey);
    let mut pk = vec![0x00u8, 0x14];
    pk.extend_from_slice(&kh);
    let empty_sig: Vec<u8> = Vec::new();
    let witness = vec![sig.clone(), pubkey.clone()];
    let mut flags = ScriptFlags::none();
    flags.p2sh = true;
    flags.segwit = true;
    assert!(verify_script(&empty_sig, &pk, &witness, flags, &checker).is_ok());
    // a wrong key hash is a program mismatch
    let mut bad_pk = vec![0x00u8, 0x14];
    bad_pk.extend_from_slice(&[1u8; 20]);
    assert_eq!(
        verify_script(&empty_sig, &bad_pk, &witness, flags, &checker),
        Err(ScriptError::WitnessProgramMismatch)
    );
}

#[test]
fn multisig_requires_ordered_matches() {
    let checker = HashLockChecker {};
    // a key is the hash of its signature under the hash-lock checker
    let s1 = vec![0x11u8];
    let s2 = vec![0x22u8];
    let k1 = blvm_core::hashes::dsha256(&s1).to_vec();
    let k2 = blvm_core::hashes::dsha256(&s2).to_vec();
    // dummy, two signatures, OP_2, two keys, OP_2, CHECKMULTISIG
    let mut script = vec![0x00u8];
    script.push(0x01); script.extend_from_slice(&s1);
    script.push(0x01); script.extend_from_slice(&s2);
    script.push(0x52);
    script.push(0x20); script.extend_from_slice(&k1);
    script.push(0x20); script.extend_from_slice(&k2);
    script.push(0x52);
    script.push(0xae);
    let stack = eval_script(&script, Vec::new(), ScriptFlags::none(), &checker)
        .expect("script runs");
    assert_eq!(stack, vec![vec![1u8]]);
    // out of order, the scan cannot match both
    let mut script = vec![0x00u8];
    script.push(0x01); script.extend_from_slice(&s2);
    script.push(0x01); script.extend_from_slice(&s1);
    script.push(0x52);
    script.push(0x20); script.extend_from_slice(&k1);
    script.push(0x20); script.extend_from_slice(&k2);
    script.push(0x52);
    script.push(0xae);
    let stack = eval_script(&script, Vec::new(), ScriptFlags::none(), &checker)
        .expect("script runs");
    assert_eq!(stack, vec![Vec::<u8>::new()]);
}

#[test]
fn lock_time_opcode_consults_the_transaction() {
    // <500> CLTV on a transaction locked until 600
    let script = vec![0x02u8, 0xf4, 0x01, 0xb1];
    let mut flags = ScriptFlags::none();
    flags.cltv = true;
    let satisfied = TxLockChecker { lock_time: 600, sequence: 0 };
    assert!(eval_script(&script, Vec::new(), flags, &satisfied).is_ok());
    let unsatisfied = TxLockChecker { lock_time: 400, sequence: 0 };
    assert_eq!(
        eval_script(&script, Vec::new(), flags, &unsatisfied),
        Err(ScriptError::UnsatisfiedLockTime)
    );
    // without the rule the opcode is a no-op
    assert!(eval_script(&script, Vec::new(), ScriptFlags::none(), &unsatisfied).is_ok());
}

#[test]
fn script_numbers_round_trip() {
    for v in [0i64, 1, -1, 127, 128, -128, 255, 256, 0x7fffffff, -0x7fffffff] {
        let bytes = encode_num(v);
        if bytes.len() <= 4 {
            assert_eq!(decode_num(&bytes), Some(v), "value {}", v);
        }
    }
    assert_eq!(encode_num(0), Vec::<u8>::new());
    assert_eq!(encode_num(1), vec![1u8]);
    assert_eq!(encode_num(-1), vec![0x81u8]);
    assert_eq!(encode_num(128), vec![0x80u8, 0x00]);
    assert_eq!(encode_num(-128), vec![0x80u8, 0x80]);
}

#[test]
fn truthiness_ignores_negative_zero() {
    assert!(!cast_to_bool(&vec![]));
    assert!(!cast_to_bool(&vec![0x00]));
    assert!(!cast_to_bool(&vec![0x00, 0x80]));
    assert!(cast_to_bool(&vec![0x01]));
    assert!(cast_to_bool(&vec![0x80, 0x00]));
}

#[test]
fn oversize_operand_fails_arithmetic() {
    // a five-byte push cannot feed the adder
    let script = vec![0x05u8, 1, 2, 3, 4, 5, 0x51, 0x93];
    assert_eq!(
        eval_script(&script, Vec::new(), ScriptFlags::none(), &RejectAllChecker {}),
        Err(ScriptError::NumberRange)
    );
}

#[test]
fn missing_utxo_is_reported() {
    let utxo = UtxoSet::new();
    let tx = tx_spending([3u8; 32], 0xffff_ffff, 1000);
    let ws: Vec<Witness> = Vec::new();
    let r = check_transaction(&tx, &ws, &utxo, 10, ScriptFlags::none(), &RejectAllChecker {});
    assert_eq!(r, Err(InvalidKind::MissingUtxo));
}

#[test]
fn fee_is_input_minus_output() {
    let mut utxo = UtxoSet::new();
    assert!(utxo.insert(
        OutPoint { hash: [3u8; 32], index: 0 },
        Coin { value: 5000, script_pubkey: vec![0x51], height: 0, is_coinbase: false },
    ));
    let tx = tx_spending([3u8; 32], 0xffff_ffff, 1000);
    let ws: Vec<Witness> = Vec::new();
    let r = check_transaction(&tx, &ws, &utxo, 10, ScriptFlags::none(), &RejectAllChecker {});
    assert_eq!(r, Ok(4000));
    // outputs over inputs are refused
    let greedy = tx_spending([3u8; 32], 0xffff_ffff, 6000);
    let r = check_transaction(&greedy, &ws, &utxo, 10, ScriptFlags::none(), &RejectAllChecker {});
    assert_eq!(r, Err(InvalidKind::FeeNegative));
}

fn entry_for(tx: Transaction, fee: u64) -> MempoolEntry {
    let txid = blvm_core::codec::compute_txid(&tx);
    let size = serialize_tx_legacy(&tx).len() as u64;
    MempoolEntry { txid, tx, fee, size }
}

#[test]
fn replacement_accepts_higher_fee() {
    let mut utxo = UtxoSet::new();
    assert!(utxo.insert(
        OutPoint { hash: [3u8; 32], index: 0 },
        Coin { value: 100_000, script_pubkey: vec![0x51], height: 0, is_coinbase: false },
    ));
    // the pooled incumbent signals replaceability and paid about one
    // satoshi per byte; the replacement pays about three
    let incumbent_tx = tx_spending([3u8; 32], 0xffff_fffd, 99_900);
    let incumbent_size = serialize_tx_legacy(&incumbent_tx).len() as u64;
    let mut pool = Mempool::new();
    pool.entries.push(entry_for(incumbent_tx, incumbent_size));
    let new_tx = tx_spending([3u8; 32], 0xffff_ffff, 100_000 - 3 * incumbent_size);
    let r = replacement_checks(&new_tx, 3 * incumbent_size, &utxo, &pool, 1000);
    assert_eq!(r, Admission::Accept);
    // with nothing conflicting there is nothing to replace
    let unrelated = tx_spending([4u8; 32], 0xffff_ffff, 90_000);
    let r = replacement_checks(&unrelated, 10_000, &utxo, &pool, 1000);
    assert_eq!(r, Admission::Accept);
}

#[test]
fn replacement_rejects_equal_feerate() {
    let mut utxo = UtxoSet::new();
    assert!(utxo.insert(
        OutPoint { hash: [3u8; 32], index: 0 },
        Coin { value: 100_000, script_pubkey: vec![0x51], height: 0, is_coinbase: false },
    ));
    let incumbent_tx = tx_spending([3u8; 32], 0xffff_fffd, 99_900);
    let incumbent_size = serialize_tx_legacy(&incumbent_tx).len() as u64;
    let mut pool = Mempool::new();
    pool.entries.push(entry_for(incumbent_tx, incumbent_size));
    // the same absolute fee cannot replace
    let new_tx = tx_spending([3u8; 32], 0xffff_ffff, 100_000 - incumbent_size);
    let r = replacement_checks(&new_tx, incumbent_size, &utxo, &pool, 1000);
    assert_eq!(r, Admission::Reject(RejectKind::InsufficientFee));
}

#[test]
fn replacement_requires_signaling() {
    let mut utxo = UtxoSet::new();
    assert!(utxo.insert(
        OutPoint { hash: [3u8; 32], index: 0 },
        Coin { value: 100_000, script_pubkey: vec![0x51], height: 0, is_coinbase: false },
    ));
    // a final-minus-one sequence does not signal
    let mut pool = Mempool::new();
    pool.entries.push(entry_for(tx_spending([3u8; 32], 0xffff_fffe, 99_000), 1000));
    let new_tx = tx_spending([3u8; 32], 0xffff_ffff, 90_000);
    let r = replacement_checks(&new_tx, 10_000, &utxo, &pool, 1000);
    assert_eq!(r, Admission::Reject(RejectKind::NotSignaling));
}

#[test]
fn admission_runs_its_gates() {
    let mut utxo = UtxoSet::new();
    assert!(utxo.insert(
        OutPoint { hash: [3u8; 32], index: 0 },
        Coin { value: 100_000, script_pubkey: vec![0x51], height: 0, is_coinbase: false },
    ));
    let pool = Mempool::new();
    let ws: Vec<Witness> = Vec::new();
    let checker = RejectAllChecker {};
    let good = tx_spending([3u8; 32], 0xffff_ffff, 90_000);
    assert!(is_standard_tx(&good));
    let r = accept_to_memory_pool(&good, &ws, &utxo, &pool, 10, 1, ScriptFlags::none(), &checker);
    assert_eq!(r, Admission::Accept);
    // a dusty output fails standardness
    let dusty = tx_spending([3u8; 32], 0xffff_ffff, 100);
    let r = accept_to_memory_pool(&dusty, &ws, &utxo, &pool, 10, 1, ScriptFlags::none(), &checker);
    assert_eq!(r, Admission::Reject(RejectKind::NotStandard));
    // an unknown input is reported
    let orphan = tx_spending([9u8; 32], 0xffff_ffff, 90_000);
    let r = accept_to_memory_pool(&orphan, &ws, &utxo, &pool, 10, 1, ScriptFlags::none(), &checker);
    assert_eq!(r, Admission::Reject(RejectKind::MissingInputs));
}

#[test]
fn truncated_frame_is_malformed() {
    // a frame that claims one hundred bytes but carries fifty
    let mut data = 100u32.to_le_bytes().to_vec();
    data.extend_from_slice(&[0u8; 50]);
    assert!(load_chunk_blocks(&data).is_err());
}

#[test]
fn frames_split_into_blocks() {
    let mut data = Vec::new();
    data.extend_from_slice(&3u32.to_le_bytes());
    data.extend_from_slice(&[1, 2, 3]);
    data.extend_from_slice(&2u32.to_le_bytes());
    data.extend_from_slice(&[4, 5]);
    let blocks = load_chunk_blocks(&data).expect("well framed");
    assert_eq!(blocks, vec![vec![1, 2, 3], vec![4, 5]]);
    assert!(frame_len_ok(88));
    assert!(frame_len_ok(10_485_760));
    assert!(!frame_len_ok(87));
    assert!(!frame_len_ok(10_485_761));
}

#[test]
fn chunk_metadata_parses() {
    let text = b"# the sidecar\n total_blocks = 400 \nnum_chunks=2\nblocks_per_chunk=200\ncompression=zstd\n".to_vec();
    let meta = parse_chunk_metadata(&text).expect("all keys present");
    assert_eq!(meta.total_blocks, 400);
    assert_eq!(meta.num_chunks, 2);
    assert_eq!(meta.blocks_per_chunk, 200);
    assert_eq!(meta.compression, b"zstd".to_vec());
    // a missing key leaves nothing
    let partial = b"total_blocks=400\n".to_vec();
    assert!(parse_chunk_metadata(&partial).is_none());
}

#[test]
fn chunk_range_selection_matches_loader() {
    let r = select_chunk_range(0, Some(400), 400, 200, 2).expect("non-empty");
    assert_eq!(r, (0, 400, 0, 1));
    let r = select_chunk_range(250, None, 400, 200, 2).expect("non-empty");
    assert_eq!(r, (250, 400, 1, 1));
    assert!(select_chunk_range(400, Some(10), 400, 200, 2).is_none());
}

#[test]
fn hex_decoding_checks_digits() {
    assert_eq!(block_bytes_from_hex("00ff10"), Some(vec![0x00, 0xff, 0x10]));
    assert_eq!(block_bytes_from_hex("0f1"), None);
    assert_eq!(block_bytes_from_hex("zz"), None);
}

#[test]
fn median_selects_middle_time() {
    let times = vec![5u32, 1, 9, 3, 7, 2, 8, 4, 6, 10, 11];
    assert_eq!(compute_median(&times), Some(6));
    let dups = vec![1u32, 2, 2];
    assert_eq!(compute_median(&dups), Some(2));
}

#[test]
fn admission_rejects_known_and_orphan_parents() {
    let mut utxo = UtxoSet::new();
    assert!(utxo.insert(
        OutPoint { hash: [3u8; 32], index: 0 },
        Coin { value: 100_000, script_pubkey: vec![0x51], height: 0, is_coinbase: false },
    ));
    let ws: Vec<Witness> = Vec::new();
    let checker = RejectAllChecker {};
    let tx = tx_spending([3u8; 32], 0xffff_ffff, 90_000);
    let mut pool = Mempool::new();
    pool.entries.push(entry_for(tx_spending([3u8; 32], 0xffff_ffff, 90_000), 10_000));
    // the same transaction is already pooled
    let r = accept_to_memory_pool(&tx, &ws, &utxo, &pool, 10, 1, ScriptFlags::none(), &checker);
    assert_eq!(r, Admission::Reject(RejectKind::DuplicateTx));
    // a spend of a pooled transaction's output resolves against the
    // pool's outputs and is admitted
    let parent_id = pool.entries[0].txid;
    let child = tx_spending(parent_id, 0xffff_ffff, 80_000);
    let r = accept_to_memory_pool(&child, &ws, &utxo, &pool, 10, 1, ScriptFlags::none(), &checker);
    assert_eq!(r, Admission::Accept);
}

#[test]
fn oversize_output_value_is_rejected() {
    let mut utxo = UtxoSet::new();
    assert!(utxo.insert(
        OutPoint { hash: [3u8; 32], index: 0 },
        Coin { value: 5000, script_pubkey: vec![0x51], height: 0, is_coinbase: false },
    ));
    let tx = tx_spending([3u8; 32], 0xffff_ffff, 2_100_000_000_000_001);
    let ws: Vec<Witness> = Vec::new();
    let r = check_transaction(&tx, &ws, &utxo, 10, ScriptFlags::none(), &RejectAllChecker {});
    assert_eq!(r, Err(InvalidKind::ValueOutOfRange));
}

#[test]
fn unreached_height_lock_is_not_final() {
    let mut utxo = UtxoSet::new();
    assert!(utxo.insert(
        OutPoint { hash: [3u8; 32], index: 0 },
        Coin { value: 5000, script_pubkey: vec![0x51], height: 0, is_coinbase: false },
    ));
    let mut tx = tx_spending([3u8; 32], 0, 1000);
    tx.lock_time = 500;
    let ws: Vec<Witness> = Vec::new();
    let r = check_transaction(&tx, &ws, &utxo, 10, ScriptFlags::none(), &RejectAllChecker {});
    assert_eq!(r, Err(InvalidKind::NonFinal));
    // opting every input out of locking makes it final again
    let mut opted = tx_spending([3u8; 32], 0xffff_ffff, 1000);
    opted.lock_time = 500;
    let r = check_transaction(&opted, &ws, &utxo, 10, ScriptFlags::none(), &RejectAllChecker {});
    assert_eq!(r, Ok(4000));
}

#[test]
fn stack_underflow_is_reported() {
    let script = vec![0x93u8];
    assert_eq!(
        eval_script(&script, Vec::new(), ScriptFlags::none(), &RejectAllChecker {}),
        Err(ScriptError::StackUnderflow)
    );
    let script = vec![0x6au8];
    assert_eq!(
        eval_script(&script, Vec::new(), ScriptFlags::none(), &RejectAllChecker {}),
        Err(ScriptError::OpReturn)
    );
    let script = vec![0xffu8];
    assert_eq!(
        eval_script(&script, Vec::new(), ScriptFlags::none(), &RejectAllChecker {}),
        Err(ScriptError::BadOpcode)
    );
}

#[test]
fn replacement_rejects_new_unconfirmed_parents() {
    let mut utxo = UtxoSet::new();
    assert!(utxo.insert(
        OutPoint { hash: [3u8; 32], index: 0 },
        Coin { value: 100_000, script_pubkey: vec![0x51], height: 0, is_coinbase: false },
    ));
    let mut pool = Mempool::new();
    pool.entries.push(entry_for(tx_spending([3u8; 32], 0xffff_fffd, 99_000), 500));
    // the replacement conflicts but also spends an unconfirmed output
    // no conflict spent
    let new_tx = Transaction {
        version: 2,
        inputs: vec![
            TxIn {
                prevout: OutPoint { hash: [3u8; 32], index: 0 },
                script_sig: vec![],
                sequence: 0xffff_ffff,
            },
            TxIn {
                prevout: OutPoint { hash: [8u8; 32], index: 0 },
                script_sig: vec![],
                sequence: 0xffff_ffff,
            },
        ],
        outputs: vec![TxOut { value: 50_000, script_pubkey: vec![0x51] }],
        lock_time: 0,
    };
    let r = replacement_checks(&new_tx, 50_000, &utxo, &pool, 1000);
    assert_eq!(r, Admission::Reject(RejectKind::UnconfirmedParent));
}
