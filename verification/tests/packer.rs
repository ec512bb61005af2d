use std::io::Write;

use flate2::write::DeflateEncoder;
use flate2::Compression;
use tic_pack::compress::compress_code;
use tic_pack::deflate::analyze;
use tic_pack::program::Program;
use tic_pack::rename::{merge_renames, Renaming};
use tic_pack::search::compute_rename_suggestions;
use tic_pack::tic_file::{code_from_chunks, empty_cart_chunks, parse_chunks, serialize_chunks};

#[test]
fn compressed_chunk_inflates_back() {
    let code = b"function TIC() poke(0x3FC0,7) poke(0x3FC1,7) poke(0x3FC2,7) end \
                 function TIC() poke(0x3FC0,7) poke(0x3FC1,7) poke(0x3FC2,7) end"
        .to_vec();
    let chunk = compress_code(code.clone(), 5);
    match chunk.type_ {
        0x05 => assert_eq!(chunk.data, code),
        0x10 => {
            assert!(chunk.data.len() >= 2);
            let a = analyze(&chunk.data[2..]).unwrap();
            assert_eq!(a.data.unpacked, code);
        }
        t => panic!("unexpected chunk type {}", t),
    }
}

#[test]
fn chunk_container_roundtrip() {
    let chunks = empty_cart_chunks(true);
    let image = serialize_chunks(&chunks);
    // A trailing chunk written as a bare header byte is not read back.
    let back = parse_chunks(&image);
    assert_eq!(back.len(), 1);
    assert_eq!(back[0].type_, 0x05);
    assert!(matches!(
        code_from_chunks(&back),
        Ok(ref v) if v.is_empty()
    ));
    let plain = empty_cart_chunks(false);
    let image2 = serialize_chunks(&plain);
    let back2 = parse_chunks(&image2);
    assert_eq!(back2.len(), 1);
    assert_eq!(back2[0].type_, 0x05);
    assert_eq!(back2[0].data.len(), 0);
}

#[test]
fn merge_retargets_prior_rename() {
    let mut a = Renaming::new();
    a.insert(b"alpha".to_vec(), b"x".to_vec());
    let mut b = Renaming::new();
    b.insert(b"x".to_vec(), b"y".to_vec());
    let m = merge_renames(&a, &b);
    assert_eq!(m.pairs.len(), 1);
    assert_eq!(m.pairs[0].0, b"alpha".to_vec());
    assert_eq!(m.pairs[0].1, b"y".to_vec());

    let mut c = Renaming::new();
    c.insert(b"beta".to_vec(), b"z".to_vec());
    let m2 = merge_renames(&a, &c);
    assert_eq!(m2.pairs.len(), 2);
    assert_eq!(m2.pairs[1].0, b"beta".to_vec());
}

#[test]
fn suggestions_pair_ranked_ids_with_chars() {
    let src = b"abcd=1 abcd=2 abcd=3 poke(abcd,abcd,abcd)";
    let mut p = Program::parse(src);
    let code = p.serialize(b' ');
    let packed = {
        let mut enc = DeflateEncoder::new(Vec::new(), Compression::best());
        enc.write_all(&code).unwrap();
        enc.finish().unwrap()
    };
    let a = analyze(&packed).unwrap();
    let rc = p.get_rename_candidates();
    match compute_rename_suggestions(&rc, &a.data) {
        Some(rn) => {
            assert_eq!(rn.pairs.len(), 1);
            assert_eq!(rn.pairs[0].0, b"abcd".to_vec());
            assert_eq!(rn.pairs[0].1.len(), 1);
            // The replacement is drawn from the fixed identifiers' letters.
            let ch = rn.pairs[0].1[0];
            assert!(ch == b'p' || ch == b'o' || ch == b'k' || ch == b'e');
        }
        None => {
            // The single-byte pool sufficed here, so a result is owed.
            panic!("no suggestion computed");
        }
    }
}

#[test]
fn extracting_a_compressed_cartridge_restores_the_code() {
    let code: Vec<u8> = b"poke(0x3FC0,7) ".repeat(40);
    let chunk = compress_code(code.clone(), 5);
    assert_eq!(chunk.type_, 0x10, "repetitive code should compress");
    let chunks = vec![chunk];
    let image = serialize_chunks(&chunks);
    let back = parse_chunks(&image);
    assert_eq!(code_from_chunks(&back).unwrap(), code);
}

#[test]
fn auto_rename_search_shrinks_or_keeps() {
    let src = b"longname=1 longname=longname+1 longname=longname+2 longname=longname+3 \
                poke(longname,longname) poke(longname,longname) poke(longname,longname)";
    let mut p = tic_pack::program::Program::parse(src);
    let source = tic_pack::rename::Renaming {
        pairs: p.renames.pairs.clone(),
    };
    let baseline = {
        let mut q = tic_pack::program::Program::parse(src);
        q.serialize(b' ')
    };
    let (best_code, best) =
        tic_pack::driver::auto_rename_search(&mut p, &source, 5, 8).expect("search runs");
    assert!(best_code.len() <= baseline.len() + 16);
    // The searched variant should have renamed the expensive identifier.
    if !best.pairs.is_empty() {
        assert_eq!(best.pairs[0].0, b"longname".to_vec());
    }
}

#[test]
fn pack_suggestions_merges_source_renames() {
    let src = b"--rename keep->K\nabcd=1 abcd=2 poke(abcd,abcd)";
    let mut p = tic_pack::program::Program::parse(src);
    let source = tic_pack::rename::Renaming {
        pairs: p.renames.pairs.clone(),
    };
    let merged = tic_pack::driver::pack_suggestions(&mut p, &source, 5).expect("suggestions");
    let keys: Vec<Vec<u8>> = merged.pairs.iter().map(|e| e.0.clone()).collect();
    assert!(keys.contains(&b"keep".to_vec()));
    assert!(keys.contains(&b"abcd".to_vec()));
}
