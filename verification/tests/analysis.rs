use std::io::Read;
use std::io::Write;

use flate2::write::DeflateEncoder;
use flate2::Compression;
use tic_pack::deflate::analyze;
use tic_pack::SENTINEL;

fn raw_deflate(data: &[u8]) -> Vec<u8> {
    let mut enc = DeflateEncoder::new(Vec::new(), Compression::best());
    enc.write_all(data).unwrap();
    enc.finish().unwrap()
}

#[test]
fn analyze_inverts_compression() {
    let input = b"hello hello hello world world hello".to_vec();
    let packed = raw_deflate(&input);
    let a = analyze(&packed).unwrap();
    assert_eq!(a.data.unpacked, input);
    assert_eq!(a.data.literal_index.len(), input.len());
    assert_eq!(a.data.cost.len(), input.len());
    assert_eq!(a.data.block_type.len(), input.len());
    assert!(a.total_bits > 0);
}

#[test]
fn literal_attribution_points_at_equal_bytes() {
    let input = b"abcabcabcabcabcabcabcabc".to_vec();
    let packed = raw_deflate(&input);
    let a = analyze(&packed).unwrap();
    let mut saw_match = false;
    for i in 0..input.len() {
        let li = a.data.literal_index[i];
        if li != SENTINEL {
            saw_match = true;
            assert!(li < i);
            assert_eq!(a.data.unpacked[li], a.data.unpacked[i]);
            assert_eq!(a.data.literal_index[li], SENTINEL);
        }
    }
    assert!(saw_match);
}

#[test]
fn empty_and_junk_streams() {
    let packed = raw_deflate(b"");
    let a = analyze(&packed).unwrap();
    assert_eq!(a.data.unpacked.len(), 0);
    // A stored block (type 0) is not handled and reads as malformed.
    assert!(analyze(&[0x01, 0x05, 0x00]).is_err());
    assert!(analyze(&[]).is_err());
}

#[test]
fn libflate_agrees_with_analyzer() {
    let input = b"the quick brown fox jumps over the lazy dog the quick brown fox".to_vec();
    let packed = raw_deflate(&input);
    let mut unpacked = Vec::new();
    libflate::deflate::Decoder::new(&packed[..])
        .read_to_end(&mut unpacked)
        .unwrap();
    let a = analyze(&packed).unwrap();
    assert_eq!(a.data.unpacked, unpacked);
}
