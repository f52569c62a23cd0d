use btc_header_chain::block::BlockHeader;
use btc_header_chain::checkpoint::{
    extract_checkpoint_data, parse_checkpoint_payload, parse_tx_info, TransactionInfo,
    TransactionKey, CURRENT_VERSION, FIRST_PART_LEN, HEADER_LEN, SECOND_PART_LEN, TAG_LEN,
};
use btc_header_chain::merkle::{compute_merkle_root, verify_merkle_proof};
use btc_header_chain::op_return::extract_op_return_data;
use btc_header_chain::transaction::{Transaction, TxOut};

const TAG: [u8; 4] = [0x1, 0x2, 0x3, 0x4];

fn sha256d(data: &[u8]) -> [u8; 32] {
    let digest: bitcoin::hashes::sha256d::Hash = bitcoin::hashes::Hash::hash(data);
    bitcoin::hashes::Hash::into_inner(digest)
}

fn pair(left: &[u8; 32], right: &[u8; 32]) -> [u8; 32] {
    let mut both = left.to_vec();
    both.extend_from_slice(right);
    sha256d(&both)
}

/// A payload of the given part, with `fill` as every byte of its data.
fn payload(tag: &[u8], version: u8, part: u8, len: usize, fill: u8) -> Vec<u8> {
    let mut bytes = tag.to_vec();
    bytes.push((part << 4) | version);
    bytes.resize(len, fill);
    bytes
}

fn null_data_script(data: &[u8]) -> Vec<u8> {
    let mut script = vec![0x6a];
    if data.len() > 75 {
        script.push(0x4c);
    }
    script.push(data.len() as u8);
    script.extend_from_slice(data);
    script
}

/// A transaction of the `bitcoin` crate with one input, one paying output
/// and one null-data output.
fn outside_tx(data: &[u8]) -> bitcoin::Transaction {
    bitcoin::Transaction {
        version: 2,
        lock_time: bitcoin::PackedLockTime(77),
        input: vec![bitcoin::TxIn {
            previous_output: bitcoin::OutPoint { txid: bitcoin::hashes::Hash::from_inner([3; 32]), vout: 1 },
            script_sig: bitcoin::Script::from(vec![0x51]),
            sequence: bitcoin::Sequence(0xffff_fffe),
            witness: bitcoin::Witness::default(),
        }],
        output: vec![
            bitcoin::TxOut { value: 5000, script_pubkey: bitcoin::Script::from(vec![0x51, 0x52]) },
            bitcoin::TxOut { value: 0, script_pubkey: bitcoin::Script::from(null_data_script(data)) },
        ],
    }
}

fn tx_with_scripts(scripts: Vec<Vec<u8>>) -> Transaction {
    Transaction {
        txid: [0; 32],
        version: 1,
        lock_time: 0,
        output: scripts.into_iter().map(|s| TxOut { value: 0, script_pubkey: s }).collect(),
    }
}

struct Included {
    info: TransactionInfo,
    header: BlockHeader,
    expected: Transaction,
}

/// A block of four transactions with ours at position 2, and the evidence.
fn included() -> Included {
    let tx = outside_tx(&payload(&TAG, 0, 0, FIRST_PART_LEN, 0xab));
    let txid = bitcoin::hashes::Hash::into_inner(tx.txid());
    let others = [[0x10; 32], [0x11; 32], [0x13; 32]];
    let left = pair(&others[0], &others[1]);
    let right = pair(&txid, &others[2]);
    let root = pair(&left, &right);
    let outside_header = bitcoin::BlockHeader {
        version: 1,
        prev_blockhash: bitcoin::hashes::Hash::from_inner([9; 32]),
        merkle_root: bitcoin::hashes::Hash::from_inner(root),
        time: 1,
        bits: 0x207fffff,
        nonce: 5,
    };
    let header = BlockHeader {
        version: 1,
        prev_blockhash: [9; 32],
        merkle_root: root,
        time: 1,
        bits: 0x207fffff,
        nonce: 5,
    };
    let mut proof = others[2].to_vec();
    proof.extend_from_slice(&left);
    let info = TransactionInfo {
        key: Some(TransactionKey {
            index: 2,
            hash: bitcoin::hashes::Hash::into_inner(outside_header.block_hash()).to_vec(),
        }),
        transaction: bitcoin::consensus::serialize(&tx),
        proof,
    };
    let expected = Transaction {
        txid,
        version: 2,
        lock_time: 77,
        output: vec![
            TxOut { value: 5000, script_pubkey: vec![0x51, 0x52] },
            TxOut { value: 0, script_pubkey: null_data_script(&payload(&TAG, 0, 0, FIRST_PART_LEN, 0xab)) },
        ],
    };
    Included { info, header, expected }
}

fn rehashed(header: &BlockHeader) -> Vec<u8> {
    header.hash().to_vec()
}

#[test]
fn merkle_root_of_a_tree_of_four() {
    let leaves = [[1u8; 32], [2u8; 32], [3u8; 32], [4u8; 32]];
    let left = pair(&leaves[0], &leaves[1]);
    let right = pair(&leaves[2], &leaves[3]);
    let root = pair(&left, &right);
    let proof = |a: &[u8; 32], b: &[u8; 32]| {
        let mut p = a.to_vec();
        p.extend_from_slice(b);
        p
    };
    assert_eq!(compute_merkle_root(&leaves[0], &proof(&leaves[1], &right), 0), root);
    assert_eq!(compute_merkle_root(&leaves[1], &proof(&leaves[0], &right), 1), root);
    assert_eq!(compute_merkle_root(&leaves[2], &proof(&leaves[3], &left), 2), root);
    assert_eq!(compute_merkle_root(&leaves[3], &proof(&leaves[2], &left), 3), root);
    // another position leads elsewhere
    assert_ne!(compute_merkle_root(&leaves[3], &proof(&leaves[2], &left), 2), root);
    // no siblings: the node is the root
    assert_eq!(compute_merkle_root(&leaves[0], &[], 5), leaves[0]);
    // the position beyond the tree counts as on the left
    assert_eq!(compute_merkle_root(&leaves[0], &leaves[1], 2), left);
    // bytes that are no whole hash are not read
    let mut longer = leaves[1].to_vec();
    longer.extend_from_slice(&[7; 31]);
    assert_eq!(compute_merkle_root(&leaves[0], &longer, 0), left);
}

#[test]
fn merkle_proof_is_checked_against_the_root() {
    let case = included();
    let root = case.header.merkle_root;
    assert!(verify_merkle_proof(&case.expected, &case.info.proof, 2, &root));
    assert!(!verify_merkle_proof(&case.expected, &case.info.proof, 3, &root));
    assert!(!verify_merkle_proof(&case.expected, &case.info.proof[..63], 2, &root));
    assert!(!verify_merkle_proof(&case.expected, &case.info.proof[..32], 2, &root));
    let mut other = root;
    other[0] ^= 1;
    assert!(!verify_merkle_proof(&case.expected, &case.info.proof, 2, &other));
}

#[test]
fn parse_tx_info_returns_the_decoded_transaction() {
    let case = included();
    assert_eq!(parse_tx_info(&case.info, &case.header), Ok(case.expected));
}

#[test]
fn parse_tx_info_refuses_a_proof_with_a_remainder() {
    let mut case = included();
    case.info.proof.push(0);
    assert_eq!(parse_tx_info(&case.info, &case.header), Err("proof has a remainder".to_string()));
    case.info.key = None;
    assert_eq!(parse_tx_info(&case.info, &case.header), Err("proof has a remainder".to_string()));
}

#[test]
fn parse_tx_info_refuses_a_missing_key() {
    let mut case = included();
    case.info.key = None;
    assert_eq!(parse_tx_info(&case.info, &case.header), Err("empty tx key".to_string()));
}

#[test]
fn parse_tx_info_refuses_another_header() {
    let case = included();
    let mut header = case.header;
    header.nonce += 1;
    assert_eq!(parse_tx_info(&case.info, &header), Err("BTC header does not match".to_string()));
    let mut info = case.info.clone();
    info.key.as_mut().unwrap().hash.pop();
    assert_eq!(parse_tx_info(&info, &case.header), Err("BTC header does not match".to_string()));
}

#[test]
fn parse_tx_info_refuses_bytes_that_are_no_transaction() {
    let mut case = included();
    case.info.transaction.pop();
    assert_eq!(parse_tx_info(&case.info, &case.header), Err("failed to decode BTC tx".to_string()));
    case.info.transaction = Vec::new();
    assert_eq!(parse_tx_info(&case.info, &case.header), Err("failed to decode BTC tx".to_string()));
}

#[test]
fn parse_tx_info_refuses_every_flipped_bit_of_the_proof() {
    let case = included();
    for byte in 0..case.info.proof.len() {
        for bit in 0..8 {
            let mut info = case.info.clone();
            info.proof[byte] ^= 1 << bit;
            assert_eq!(
                parse_tx_info(&info, &case.header),
                Err("failed to verify Bitcoin Merkle proof".to_string())
            );
        }
    }
}

#[test]
fn parse_tx_info_refuses_every_flipped_bit_of_the_root() {
    let case = included();
    for byte in 0..32 {
        for bit in 0..8 {
            let mut header = case.header;
            header.merkle_root[byte] ^= 1 << bit;
            // under the old key the header is another one
            assert_eq!(
                parse_tx_info(&case.info, &header),
                Err("BTC header does not match".to_string())
            );
            // under its own key the proof does not lead to its root
            let mut info = case.info.clone();
            info.key.as_mut().unwrap().hash = rehashed(&header);
            assert_eq!(
                parse_tx_info(&info, &header),
                Err("failed to verify Bitcoin Merkle proof".to_string())
            );
        }
    }
}

#[test]
fn parse_tx_info_refuses_another_position_or_transaction() {
    let case = included();
    let mut info = case.info.clone();
    info.key.as_mut().unwrap().index = 0;
    assert_eq!(
        parse_tx_info(&info, &case.header),
        Err("failed to verify Bitcoin Merkle proof".to_string())
    );
    let mut info = case.info.clone();
    info.transaction = bitcoin::consensus::serialize(&outside_tx(&[1, 2, 3]));
    assert_eq!(
        parse_tx_info(&info, &case.header),
        Err("failed to verify Bitcoin Merkle proof".to_string())
    );
}

#[test]
fn op_return_data_is_what_follows_the_push() {
    let tx = tx_with_scripts(vec![vec![0x51], vec![0x6a, 0x02, 0xaa, 0xbb], vec![0x6a, 0x01, 0xcc]]);
    assert_eq!(extract_op_return_data(&tx), Ok(vec![0xaa, 0xbb]));
    let tx = tx_with_scripts(vec![vec![0x6a, 0x4c, 0x02, 0xaa, 0xbb]]);
    assert_eq!(extract_op_return_data(&tx), Ok(vec![0xaa, 0xbb]));
    let tx = tx_with_scripts(vec![vec![0x6a, 0x4c, 0x00]]);
    assert_eq!(extract_op_return_data(&tx), Ok(vec![]));
    let tx = tx_with_scripts(vec![vec![0x6a, 0x00]]);
    assert_eq!(extract_op_return_data(&tx), Ok(vec![]));
}

#[test]
fn op_return_data_may_be_missing_or_malformed() {
    let none = Err("no op_return data in this BTC tx".to_string());
    let malformed = Err("malformed op_return data in this BTC tx".to_string());
    assert_eq!(extract_op_return_data(&tx_with_scripts(vec![])), none);
    assert_eq!(extract_op_return_data(&tx_with_scripts(vec![vec![], vec![0x51, 0x6a]])), none);
    assert_eq!(extract_op_return_data(&tx_with_scripts(vec![vec![0x6a]])), malformed);
    assert_eq!(extract_op_return_data(&tx_with_scripts(vec![vec![0x6a, 0x4c]])), malformed);
    // the first null-data output decides
    assert_eq!(
        extract_op_return_data(&tx_with_scripts(vec![vec![0x6a], vec![0x6a, 0x01, 0x01]])),
        malformed
    );
}

#[test]
fn the_lengths_of_the_payload() {
    assert_eq!(TAG_LEN, 4);
    assert_eq!(HEADER_LEN, 5);
    assert_eq!(FIRST_PART_LEN, 78);
    assert_eq!(SECOND_PART_LEN, 63);
    assert_eq!(CURRENT_VERSION, 0);
}

#[test]
fn checkpoint_data_round_trip() {
    let first = payload(&TAG, 0, 0, FIRST_PART_LEN, 0xab);
    assert_eq!(parse_checkpoint_payload(&first, &TAG, 0), Ok(vec![0xab; 73]));
    let second = payload(&TAG, 0, 1, SECOND_PART_LEN, 0xcd);
    assert_eq!(parse_checkpoint_payload(&second, &TAG, 1), Ok(vec![0xcd; 58]));
    let mut data: Vec<u8> = (0..73).collect();
    let mut bytes = TAG.to_vec();
    bytes.push(0);
    bytes.append(&mut data);
    assert_eq!(parse_checkpoint_payload(&bytes, &TAG, 0), Ok((0..73).collect::<Vec<u8>>()));
}

#[test]
fn checkpoint_data_from_a_transaction() {
    let case = included();
    assert_eq!(extract_checkpoint_data(&case.expected, &TAG, 0), Ok(vec![0xab; 73]));
    let second = tx_with_scripts(vec![
        vec![0x51],
        null_data_script(&payload(&TAG, 0, 1, SECOND_PART_LEN, 0xcd)),
    ]);
    assert_eq!(extract_checkpoint_data(&second, &TAG, 1), Ok(vec![0xcd; 58]));
    assert_eq!(
        extract_checkpoint_data(&tx_with_scripts(vec![vec![0x51]]), &TAG, 0),
        Err("no op_return data in this BTC tx".to_string())
    );
    assert_eq!(
        extract_checkpoint_data(&tx_with_scripts(vec![vec![0x6a]]), &TAG, 0),
        Err("malformed op_return data in this BTC tx".to_string())
    );
}

#[test]
fn checkpoint_data_of_the_wrong_length() {
    let first = Err("invalid length. First part should have 78 bytes".to_string());
    let second = Err("invalid length. Second part should have 63 bytes".to_string());
    assert_eq!(parse_checkpoint_payload(&payload(&TAG, 0, 0, 77, 0), &TAG, 0), first);
    assert_eq!(parse_checkpoint_payload(&payload(&TAG, 0, 0, 79, 0), &TAG, 0), first);
    assert_eq!(parse_checkpoint_payload(&payload(&TAG, 0, 0, 63, 0), &TAG, 0), first);
    assert_eq!(parse_checkpoint_payload(&[], &TAG, 0), first);
    assert_eq!(parse_checkpoint_payload(&payload(&TAG, 0, 1, 62, 0), &TAG, 1), second);
    assert_eq!(parse_checkpoint_payload(&payload(&TAG, 0, 1, 78, 0), &TAG, 1), second);
}

#[test]
fn checkpoint_data_under_another_tag() {
    let bytes = payload(&TAG, 0, 0, FIRST_PART_LEN, 0);
    assert_eq!(
        parse_checkpoint_payload(&bytes, &[1, 2, 3, 5], 0),
        Err("data does not have expected tag, expected tag: [1, 2, 3, 5], got tag: [1, 2, 3, 4]".to_string())
    );
    assert_eq!(
        parse_checkpoint_payload(&bytes, &[1, 2, 3], 0),
        Err("data does not have expected tag, expected tag: [1, 2, 3], got tag: [1, 2, 3, 4]".to_string())
    );
    assert_eq!(
        parse_checkpoint_payload(&bytes, &[1, 2, 3, 4, 0], 0),
        Err("data does not have expected tag, expected tag: [1, 2, 3, 4, 0], got tag: [1, 2, 3, 4]".to_string())
    );
    let corrupted = payload(&[0x81, 2, 3, 4], 0, 0, FIRST_PART_LEN, 0);
    assert_eq!(
        parse_checkpoint_payload(&corrupted, &TAG, 0),
        Err("data does not have expected tag, expected tag: [1, 2, 3, 4], got tag: [129, 2, 3, 4]".to_string())
    );
}

#[test]
fn checkpoint_data_of_a_later_version() {
    for version in 1..16 {
        assert_eq!(
            parse_checkpoint_payload(&payload(&TAG, version, 0, FIRST_PART_LEN, 0), &TAG, 0),
            Err("header have invalid version".to_string())
        );
    }
}

#[test]
fn checkpoint_data_under_the_other_part() {
    let wrong = Err("header have invalid part number".to_string());
    // a payload that names part 1 with the length of part 0, and the reverse
    assert_eq!(parse_checkpoint_payload(&payload(&TAG, 0, 1, FIRST_PART_LEN, 0), &TAG, 0), wrong);
    assert_eq!(parse_checkpoint_payload(&payload(&TAG, 0, 0, SECOND_PART_LEN, 0), &TAG, 1), wrong);
    assert_eq!(parse_checkpoint_payload(&payload(&TAG, 0, 2, FIRST_PART_LEN, 0), &TAG, 0), wrong);
    // the payloads of the two parts, each asked for as the other
    assert_eq!(
        parse_checkpoint_payload(&payload(&TAG, 0, 0, FIRST_PART_LEN, 0), &TAG, 1),
        Err("invalid length. Second part should have 63 bytes".to_string())
    );
    assert_eq!(
        parse_checkpoint_payload(&payload(&TAG, 0, 1, SECOND_PART_LEN, 0), &TAG, 0),
        Err("invalid length. First part should have 78 bytes".to_string())
    );
    // there is no part beyond the two, whatever the payload names or holds
    assert_eq!(parse_checkpoint_payload(&payload(&TAG, 0, 1, 9, 0), &TAG, 2), wrong);
    assert_eq!(parse_checkpoint_payload(&payload(&TAG, 0, 2, 9, 7), &TAG, 2), wrong);
    assert_eq!(parse_checkpoint_payload(&payload(&TAG, 0, 2, FIRST_PART_LEN, 7), &TAG, 2), wrong);
    assert_eq!(parse_checkpoint_payload(&payload(&TAG, 0, 2, SECOND_PART_LEN, 7), &TAG, 2), wrong);
    assert_eq!(parse_checkpoint_payload(&[1, 2, 3, 4, 0x20], &TAG, 2), wrong);
    assert_eq!(parse_checkpoint_payload(&[1, 2, 3, 4], &TAG, 2), wrong);
    assert_eq!(parse_checkpoint_payload(&[], &TAG, usize::MAX), wrong);
    assert_eq!(parse_checkpoint_payload(&payload(&TAG, 0, 15, 5, 7), &TAG, 15), wrong);
    let second = tx_with_scripts(vec![null_data_script(&payload(&TAG, 0, 2, SECOND_PART_LEN, 1))]);
    assert_eq!(extract_checkpoint_data(&second, &TAG, 2), wrong);
}
