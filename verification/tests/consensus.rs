use blvm_core::codec::{compute_merkle_root, compute_txid, deserialize_block};
use blvm_core::connect::{apply_undo, block_subsidy, compute_header_hash, expand_target,
    le_bytes_leq, connect_block, Network, UndoOp};
use blvm_core::errors::{InvalidKind, Verdict};
use blvm_core::harness::{checkpoints_agree, generate_checkpoints, make_chunks, process_block,
    validate_chunk_blocks, ReferenceVerdict};
use blvm_core::hexstr::block_hash_display;
use blvm_core::script::RejectAllChecker;
use blvm_core::types::{Block, BlockHeader, Coin, OutPoint, Transaction, TxIn, TxOut, Witness};
use blvm_core::utxo::UtxoSet;

const GENESIS_HEX: &str = "0100000000000000000000000000000000000000000000000000000000000000000000003ba3edfd7a7b12b27ac72c3e67768f617fc81bc3888a51323a9fb8aa4b1e5e4a29ab5f49ffff001d1dac2b7c0101000000010000000000000000000000000000000000000000000000000000000000000000ffffffff4d04ffff001d0104455468652054696d65732030332f4a616e2f32303039204368616e63656c6c6f72206f6e206272696e6b206f66207365636f6e64206261696c6f757420666f722062616e6b73ffffffff0100f2052a01000000434104678afdb0fe5548271967f1a67130b7105cd6a828e03909a67962e0ea1f61deb649f6bc3f4cef38c4f35504e51ec112de5c384df7ba0b8d578a4c702b6bf11d5fac00000000";

fn genesis_bytes() -> Vec<u8> {
    hex::decode(GENESIS_HEX).expect("genesis hex")
}

fn null_outpoint() -> OutPoint {
    OutPoint { hash: [0u8; 32], index: 0xffff_ffff }
}

fn coinbase_tx(height_tag: u8, value: u64) -> Transaction {
    Transaction {
        version: 1,
        inputs: vec![TxIn {
            prevout: null_outpoint(),
            script_sig: vec![0x01, height_tag],
            sequence: 0xffff_ffff,
        }],
        outputs: vec![TxOut { value, script_pubkey: vec![0x51] }],
        lock_time: 0,
    }
}

/// Builds a block over the given transactions and mines a nonce for the
/// very permissive test target.
fn build_block(txs: Vec<Transaction>) -> Block {
    let mut ids: Vec<[u8; 32]> = Vec::new();
    for t in txs.iter() {
        ids.push(compute_txid(t));
    }
    let root = compute_merkle_root(&ids);
    let bits = 0x207f_ffff;
    let target = expand_target(bits).expect("test target");
    let mut header = BlockHeader {
        version: 1,
        prev_hash: [0u8; 32],
        merkle_root: root,
        time: 1,
        bits,
        nonce: 0,
    };
    loop {
        let h = compute_header_hash(&header);
        if le_bytes_leq(&h, &target) {
            break;
        }
        header.nonce += 1;
    }
    Block { header, transactions: txs }
}

fn connect(
    block: &Block,
    witnesses: &Vec<Vec<Witness>>,
    utxo: UtxoSet,
    height: u32,
) -> (Verdict, UtxoSet, blvm_core::connect::UndoLog) {
    connect_block(block, witnesses, utxo, height, None, Network::Mainnet, &RejectAllChecker {})
}

#[test]
fn genesis_block_connects() {
    let bytes = genesis_bytes();
    let (block, witnesses) = deserialize_block(&bytes).expect("genesis parses");
    assert_eq!(block.transactions.len(), 1);
    let txid = compute_txid(&block.transactions[0]);
    let (verdict, utxo, undo) = connect(&block, &witnesses, UtxoSet::new(), 0);
    assert!(matches!(verdict, Verdict::Valid));
    assert_eq!(utxo.len(), 1);
    let coin = utxo.get(&OutPoint { hash: txid, index: 0 }).expect("genesis coin");
    assert_eq!(coin.value, 50_0000_0000);
    assert_eq!(coin.height, 0);
    assert!(coin.is_coinbase);
    // nothing was spent, so the undo log holds no removed pair
    assert!(undo.ops.iter().all(|o| matches!(o, UndoOp::Created(_, _))));
}

#[test]
fn genesis_hash_displays_correctly() {
    let bytes = genesis_bytes();
    let display = block_hash_display(&bytes).expect("long enough");
    assert_eq!(
        display,
        "000000000019d6689c085ae165831e934ff763ae46a2a6c172b3f1b60a8ce26f"
    );
}

#[test]
fn simple_spend_connects_with_fee() {
    // a mature coinbase coin of 50 coins is spent to 49.9 at height 101
    let mut utxo = UtxoSet::new();
    let parent = OutPoint { hash: [7u8; 32], index: 0 };
    let coin = Coin { value: 50_0000_0000, script_pubkey: vec![0x51], height: 0, is_coinbase: true };
    assert!(utxo.insert(parent, coin));
    let before = utxo.serialize_canonical();

    let fee = 10_000_000u64;
    let subsidy = block_subsidy(101);
    let spend = Transaction {
        version: 1,
        inputs: vec![TxIn {
            prevout: OutPoint { hash: [7u8; 32], index: 0 },
            script_sig: vec![],
            sequence: 0xffff_ffff,
        }],
        outputs: vec![TxOut { value: 50_0000_0000 - fee, script_pubkey: vec![0x51] }],
        lock_time: 0,
    };
    let block = build_block(vec![coinbase_tx(101, subsidy + fee), spend]);
    let witnesses: Vec<Vec<Witness>> = Vec::new();
    let (verdict, utxo_out, undo) = connect(&block, &witnesses, utxo, 101);
    assert!(matches!(verdict, Verdict::Valid), "got {:?}", verdict);
    // the spent parent is gone; the two new outputs exist
    assert!(utxo_out.get(&OutPoint { hash: [7u8; 32], index: 0 }).is_none());
    assert_eq!(utxo_out.len(), 2);
    // the undo log records exactly the one removed coin
    let spent: Vec<_> = undo
        .ops
        .iter()
        .filter(|o| matches!(o, UndoOp::Spent(_, _)))
        .collect();
    assert_eq!(spent.len(), 1);

    // applying the undo log restores the input set bytewise
    let restored = apply_undo(utxo_out, &undo);
    assert_eq!(restored.serialize_canonical(), before);
}

#[test]
fn immature_coinbase_spend_is_invalid() {
    let mut utxo = UtxoSet::new();
    let coin = Coin { value: 50_0000_0000, script_pubkey: vec![0x51], height: 0, is_coinbase: true };
    assert!(utxo.insert(OutPoint { hash: [7u8; 32], index: 0 }, coin));
    let spend = Transaction {
        version: 1,
        inputs: vec![TxIn {
            prevout: OutPoint { hash: [7u8; 32], index: 0 },
            script_sig: vec![],
            sequence: 0xffff_ffff,
        }],
        outputs: vec![TxOut { value: 49_0000_0000, script_pubkey: vec![0x51] }],
        lock_time: 0,
    };
    // height 99: the coin needs height 100 to mature
    let block = build_block(vec![coinbase_tx(99, block_subsidy(99)), spend]);
    let witnesses: Vec<Vec<Witness>> = Vec::new();
    let (verdict, _u, _d) = connect(&block, &witnesses, utxo, 99);
    assert!(matches!(verdict, Verdict::Invalid(InvalidKind::CoinbaseImmaturity)));
}

#[test]
fn duplicate_input_is_invalid() {
    let mut utxo = UtxoSet::new();
    let coin = Coin { value: 50_0000_0000, script_pubkey: vec![0x51], height: 0, is_coinbase: false };
    assert!(utxo.insert(OutPoint { hash: [7u8; 32], index: 0 }, coin));
    let one_input = TxIn {
        prevout: OutPoint { hash: [7u8; 32], index: 0 },
        script_sig: vec![],
        sequence: 0xffff_ffff,
    };
    let dup = Transaction {
        version: 1,
        inputs: vec![
            one_input,
            TxIn {
                prevout: OutPoint { hash: [7u8; 32], index: 0 },
                script_sig: vec![],
                sequence: 0xffff_ffff,
            },
        ],
        outputs: vec![TxOut { value: 1_0000_0000, script_pubkey: vec![0x51] }],
        lock_time: 0,
    };
    let block = build_block(vec![coinbase_tx(10, block_subsidy(10)), dup]);
    let witnesses: Vec<Vec<Witness>> = Vec::new();
    let (verdict, _u, _d) = connect(&block, &witnesses, utxo, 10);
    assert!(matches!(verdict, Verdict::Invalid(InvalidKind::DuplicateInput)));
}

#[test]
fn empty_block_is_invalid() {
    let header = BlockHeader {
        version: 1,
        prev_hash: [0u8; 32],
        merkle_root: [0u8; 32],
        time: 1,
        bits: 0x207f_ffff,
        nonce: 0,
    };
    let block = Block { header, transactions: vec![] };
    let witnesses: Vec<Vec<Witness>> = Vec::new();
    let (verdict, _u, _d) = connect(&block, &witnesses, UtxoSet::new(), 5);
    assert!(matches!(verdict, Verdict::Invalid(InvalidKind::BadStructure)));
}

#[test]
fn over_subsidy_coinbase_is_invalid() {
    // a coinbase claiming one satoshi over the subsidy, with no fees
    let block = build_block(vec![coinbase_tx(10, block_subsidy(10) + 1)]);
    let witnesses: Vec<Vec<Witness>> = Vec::new();
    let (verdict, _u, _d) = connect(&block, &witnesses, UtxoSet::new(), 10);
    assert!(matches!(verdict, Verdict::Invalid(InvalidKind::OverSubsidy)));
}

#[test]
fn bad_merkle_root_is_invalid() {
    let mut block = build_block(vec![coinbase_tx(10, block_subsidy(10))]);
    block.header.merkle_root[0] ^= 1;
    // re-mine for the altered header
    let target = expand_target(block.header.bits).unwrap();
    loop {
        let h = compute_header_hash(&block.header);
        if le_bytes_leq(&h, &target) {
            break;
        }
        block.header.nonce += 1;
    }
    let witnesses: Vec<Vec<Witness>> = Vec::new();
    let (verdict, _u, _d) = connect(&block, &witnesses, UtxoSet::new(), 10);
    assert!(matches!(verdict, Verdict::Invalid(InvalidKind::BadMerkle)));
}

#[test]
fn height_commitment_is_enforced() {
    // at and after the activation height the coinbase script must open
    // with the minimal number push of the height
    let height: u32 = 227_836;
    let hb = blvm_core::script::encode_num(height as i64);
    let mut good_sig = vec![hb.len() as u8];
    good_sig.extend_from_slice(&hb);
    let mut cb = coinbase_tx(0, block_subsidy(height));
    cb.inputs[0].script_sig = good_sig;
    let block = build_block(vec![cb]);
    let witnesses: Vec<Vec<Witness>> = Vec::new();
    let (verdict, _u, _d) = connect(&block, &witnesses, UtxoSet::new(), height);
    assert!(matches!(verdict, Verdict::Valid), "got {:?}", verdict);

    let mut bad = coinbase_tx(0, block_subsidy(height));
    bad.inputs[0].script_sig = vec![0x01, 0x07];
    let block = build_block(vec![bad]);
    let (verdict, _u, _d) = connect(&block, &witnesses, UtxoSet::new(), height);
    assert!(matches!(verdict, Verdict::Invalid(InvalidKind::BadHeightCommitment)));
}

fn bip34_sig(height: u32) -> Vec<u8> {
    let hb = blvm_core::script::encode_num(height as i64);
    let mut sig = vec![hb.len() as u8];
    sig.extend_from_slice(&hb);
    sig
}

#[test]
fn witness_data_needs_a_commitment() {
    // a block carrying witness data whose coinbase lacks the
    // commitment output is invalid
    let mut utxo = UtxoSet::new();
    assert!(utxo.insert(
        OutPoint { hash: [7u8; 32], index: 0 },
        Coin { value: 50_0000_0000, script_pubkey: vec![0x51], height: 0, is_coinbase: false },
    ));
    let spend = Transaction {
        version: 1,
        inputs: vec![TxIn {
            prevout: OutPoint { hash: [7u8; 32], index: 0 },
            script_sig: vec![],
            sequence: 0xffff_ffff,
        }],
        outputs: vec![TxOut { value: 49_0000_0000, script_pubkey: vec![0x51] }],
        lock_time: 0,
    };
    let block = build_block(vec![coinbase_tx(10, block_subsidy(10)), spend]);
    let witnesses = vec![
        vec![Witness { stack: vec![] }],
        vec![Witness { stack: vec![vec![0xaa; 4]] }],
    ];
    let (verdict, _u, _d) = connect(&block, &witnesses, utxo, 10);
    assert!(matches!(verdict, Verdict::Invalid(InvalidKind::MissingWitnessCommitment)));
}

#[test]
fn witness_script_spend_connects() {
    // a full version-0 witness-script spend at a height where the
    // witness rules are deployed, with a correct coinbase commitment
    let height: u32 = 481_824;
    let wscript = vec![0x51u8];
    let wscript_hash = blvm_core::hashes::sha256_bytes(&wscript);
    let mut program = vec![0x00u8, 0x20];
    program.extend_from_slice(&wscript_hash);

    let mut utxo = UtxoSet::new();
    assert!(utxo.insert(
        OutPoint { hash: [7u8; 32], index: 0 },
        Coin { value: 50_0000_0000, script_pubkey: program, height: 0, is_coinbase: false },
    ));
    let spend = Transaction {
        version: 1,
        inputs: vec![TxIn {
            prevout: OutPoint { hash: [7u8; 32], index: 0 },
            script_sig: vec![],
            sequence: 0xffff_ffff,
        }],
        outputs: vec![TxOut { value: 49_0000_0000, script_pubkey: vec![0x51] }],
        lock_time: 0,
    };
    let spend_witness = vec![Witness { stack: vec![wscript.clone()] }];

    // the coinbase commits to the wtxid merkle root with its reserved
    // value
    let reserved = vec![0u8; 32];
    let wtxid = blvm_core::codec::compute_wtxid(&spend, &spend_witness);
    let wtxids = vec![[0u8; 32], wtxid];
    let wroot = compute_merkle_root(&wtxids);
    let mut preimage = wroot.to_vec();
    preimage.extend_from_slice(&reserved);
    let commitment = blvm_core::hashes::dsha256(&preimage);
    let mut commit_script = vec![0x6au8, 0x24, 0xaa, 0x21, 0xa9, 0xed];
    commit_script.extend_from_slice(&commitment);

    let fee = 1_0000_0000u64;
    let mut cb = Transaction {
        version: 1,
        inputs: vec![TxIn {
            prevout: null_outpoint(),
            script_sig: bip34_sig(height),
            sequence: 0xffff_ffff,
        }],
        outputs: vec![
            TxOut { value: block_subsidy(height) + fee, script_pubkey: vec![0x51] },
            TxOut { value: 0, script_pubkey: commit_script },
        ],
        lock_time: 0,
    };
    cb.inputs[0].script_sig = bip34_sig(height);
    let block = build_block(vec![cb, spend]);
    let witnesses = vec![vec![Witness { stack: vec![reserved] }], spend_witness];
    let (verdict, utxo_out, _d) = connect(&block, &witnesses, utxo, height);
    assert!(matches!(verdict, Verdict::Valid), "got {:?}", verdict);
    assert_eq!(utxo_out.len(), 3);
}

#[test]
fn subsidy_halves_on_schedule() {
    assert_eq!(block_subsidy(0), 50_0000_0000);
    assert_eq!(block_subsidy(209_999), 50_0000_0000);
    assert_eq!(block_subsidy(210_000), 25_0000_0000);
    assert_eq!(block_subsidy(420_000), 12_5000_0000);
    assert_eq!(block_subsidy(64 * 210_000), 0);
}

fn serialize_block_bytes(block: &Block) -> Vec<u8> {
    // frame a block back into bytes through its parts
    let mut out = Vec::new();
    out.extend_from_slice(&blvm_core::connect::serialize_header(&block.header));
    out.push(block.transactions.len() as u8);
    for t in block.transactions.iter() {
        out.extend_from_slice(&blvm_core::codec::serialize_tx_legacy(t));
    }
    out
}

#[test]
fn checkpoints_compose_across_chunks() {
    // four coinbase-only blocks, two chunks of two: the sequential pass
    // and the per-chunk pass must meet at the same bytes
    let mut blocks: Vec<Vec<u8>> = Vec::new();
    for h in 0..4u8 {
        let block = build_block(vec![coinbase_tx(h, block_subsidy(h as u32))]);
        blocks.push(serialize_block_bytes(&block));
    }
    let checker = RejectAllChecker {};
    let (final_utxo, cps) =
        generate_checkpoints(&blocks, UtxoSet::new(), 0, 2, Network::Mainnet, &checker)
            .expect("all four connect");
    assert_eq!(cps.len(), 2);
    assert_eq!(cps[0].0, 1);
    assert_eq!(cps[1].0, 3);
    assert_eq!(final_utxo.len(), 4);

    // phase B on the second chunk, seeded by the first checkpoint
    let second: Vec<Vec<u8>> = blocks[2..].to_vec();
    let refs = vec![ReferenceVerdict::Valid, ReferenceVerdict::Valid];
    let (result, utxo_b) = validate_chunk_blocks(
        &second,
        2,
        cps[0].1.snapshot(),
        &refs,
        Network::Mainnet,
        &checker,
    )
    .expect("chunk validates");
    assert_eq!(result.tested, 2);
    assert_eq!(result.matched, 2);
    assert_eq!(result.divergences.len(), 0);
    assert!(checkpoints_agree(&utxo_b, &cps[1].1));
}

#[test]
fn process_block_flags_malformed() {
    let garbage = vec![0u8; 40];
    let (step, utxo, _undo) =
        process_block(&garbage, UtxoSet::new(), 0, Network::Mainnet, &RejectAllChecker {});
    assert!(step.is_err());
    assert_eq!(utxo.len(), 0);
}

#[test]
fn make_chunks_partitions_range() {
    let chunks = make_chunks(0, 399, 200);
    assert_eq!(chunks, vec![(0, 199), (200, 399)]);
    let uneven = make_chunks(10, 15, 4);
    assert_eq!(uneven, vec![(10, 13), (14, 15)]);
}

#[test]
fn canonical_round_trip_restores_set() {
    let mut utxo = UtxoSet::new();
    assert!(utxo.insert(
        OutPoint { hash: [9u8; 32], index: 1 },
        Coin { value: 1234, script_pubkey: vec![0x51, 0x87], height: 7, is_coinbase: false },
    ));
    assert!(utxo.insert(
        OutPoint { hash: [1u8; 32], index: 0 },
        Coin { value: 50_0000_0000, script_pubkey: vec![], height: 0, is_coinbase: true },
    ));
    // duplicate insertion is refused
    assert!(!utxo.insert(
        OutPoint { hash: [1u8; 32], index: 0 },
        Coin { value: 1, script_pubkey: vec![], height: 1, is_coinbase: false },
    ));
    let bytes = utxo.serialize_canonical();
    let back = UtxoSet::deserialize_canonical(&bytes).expect("canonical bytes parse");
    assert_eq!(back.serialize_canonical(), bytes);
    let coin = back.get(&OutPoint { hash: [9u8; 32], index: 1 }).expect("coin survives");
    assert_eq!(coin.value, 1234);
    assert_eq!(coin.script_pubkey, vec![0x51, 0x87]);
    assert_eq!(coin.height, 7);
    assert!(!coin.is_coinbase);
    // snapshots serialize identically: the checkpoint anchor
    assert!(checkpoints_agree(&back, &utxo.snapshot()));
}

#[test]
fn stale_timestamp_is_invalid() {
    let block = build_block(vec![coinbase_tx(10, block_subsidy(10))]);
    let witnesses: Vec<Vec<Witness>> = Vec::new();
    // the header time of one is not past a median of five
    let prev_times: Vec<u32> = vec![1, 2, 3, 4, 5, 6, 7, 8, 9, 10, 11];
    let (verdict, _u, _d) = connect_block(
        &block,
        &witnesses,
        UtxoSet::new(),
        10,
        Some(&prev_times),
        Network::Mainnet,
        &RejectAllChecker {},
    );
    assert!(matches!(verdict, Verdict::Invalid(InvalidKind::BadTimestamp)));
    // a time past the median passes the rule
    let early: Vec<u32> = vec![0; 11];
    let (verdict, _u, _d) = connect_block(
        &block,
        &witnesses,
        UtxoSet::new(),
        10,
        Some(&early),
        Network::Mainnet,
        &RejectAllChecker {},
    );
    assert!(matches!(verdict, Verdict::Valid), "got {:?}", verdict);
}

#[test]
fn insufficient_work_is_invalid() {
    // demand the real mainnet difficulty from a block mined for the
    // permissive test target
    let mut block = build_block(vec![coinbase_tx(10, block_subsidy(10))]);
    block.header.bits = 0x1d00_ffff;
    let witnesses: Vec<Vec<Witness>> = Vec::new();
    let (verdict, _u, _d) = connect(&block, &witnesses, UtxoSet::new(), 10);
    assert!(matches!(verdict, Verdict::Invalid(InvalidKind::BadPow)));
}
