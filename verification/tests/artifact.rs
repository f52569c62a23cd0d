use btc_header_chain::header_info::HeaderInfo;

/// The size limit of a contract binary on the host chain.
const MAX_WASM_SIZE: usize = 800 * 1024;

/// No binary is built from the library alone, so the limit is held against
/// the largest thing that the library itself hands to the host in one piece:
/// the record of a header.
#[test]
fn wasm_size_limit_check() {
    let info = HeaderInfo {
        header: vec![0xff; 80],
        hash: vec![0xff; 32],
        height: u64::MAX,
        work: b"115792089237316195423570985008687907853269984665640564039457584007913129639935".to_vec(),
    };
    let wasm = info.encode();
    assert_eq!(wasm.len(), 2 + 80 + 2 + 32 + 1 + 10 + 2 + 78);
    assert!(
        wasm.len() < MAX_WASM_SIZE,
        "Wasm file too large: {}",
        wasm.len()
    );
}
