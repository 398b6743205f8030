use jpegview::quad_mind::{
    decode_quad_mind_blocks, load_quad_mind, parse_file, save_quad_mind, serialize_coeffs,
    serialize_leaves, LoadedQuadMind, QuadMindError, QuadNodeJpeg,
};
use sha2::Digest;

fn sample_leaves() -> Vec<QuadNodeJpeg> {
    vec![QuadNodeJpeg::new(0, 0, 2), QuadNodeJpeg::new(4, 0, 2)]
}

fn sample_coeffs() -> Vec<i32> {
    // Two leaves of size 4, three planes each: 96 values.
    (0..96).map(|i| i - 48).collect()
}

fn saved() -> Vec<u8> {
    save_quad_mind(&sample_leaves(), &sample_coeffs(), 8, 4, 90, true, false, false, false)
}

#[test]
fn container_round_trip_preserves_everything() {
    let bytes = saved();
    let loaded = load_quad_mind(&bytes).expect("round trip must load");
    assert_eq!(loaded.width, 8);
    assert_eq!(loaded.height, 4);
    assert_eq!(loaded.quality, 90);
    assert!(loaded.use_ycbcr);
    assert!(!loaded.use_threads);
    assert!(!loaded.use_fast_dct);
    assert!(!loaded.use_gen_qtable);
    let leaves = sample_leaves();
    assert_eq!(loaded.quad_node_jpeg.len(), leaves.len());
    for (a, b) in loaded.quad_node_jpeg.iter().zip(leaves.iter()) {
        assert_eq!((a.x, a.y, a.block_size), (b.x, b.y, b.block_size));
    }
    assert_eq!(loaded.dct_zig_zag, sample_coeffs());
}

#[test]
fn payload_serialization_matches_bincode() {
    // The geometry payload lays records out exactly as bincode packs the
    // equivalent tuples, and the coefficient payload as a plain vector.
    let leaves = sample_leaves();
    let tuples: Vec<(u32, u32, u8)> =
        leaves.iter().map(|l| (l.x, l.y, l.block_size)).collect();
    let ours = serialize_leaves(&leaves);
    let theirs = bincode::serialize(&tuples).expect("bincode");
    assert_eq!(ours, theirs);
    let coeffs = sample_coeffs();
    let ours2 = serialize_coeffs(&coeffs);
    let theirs2 = bincode::serialize(&coeffs).expect("bincode");
    assert_eq!(ours2, theirs2);
}

#[test]
fn header_serialization_matches_bincode() {
    let bytes = saved();
    let magic = bincode::serialize(&"QUADMIND".to_string()).expect("bincode");
    assert_eq!(&bytes[0..16], &magic[..]);
    let dims = bincode::serialize(&(8u32, 4u32, 90u32)).expect("bincode");
    assert_eq!(&bytes[16..28], &dims[..]);
    assert_eq!(&bytes[28..32], &[1, 0, 0, 0]);
}

#[test]
fn wrong_magic_is_a_signature_mismatch() {
    let mut bytes = saved();
    bytes[8] = b'X';
    assert_eq!(
        load_quad_mind(&bytes).err(),
        Some(QuadMindError::ContainerSignatureMismatch)
    );
}

#[test]
fn corrupted_digest_is_an_integrity_mismatch() {
    let bytes = saved();
    // The geometry section's stored digest starts after the magic field,
    // the three integers, the four flags, the section count, and the
    // section's start marker field: 40 + 12 + 8 bytes in.
    let sha_pos = 60;
    let mut bad = bytes.clone();
    bad[sha_pos] ^= 0xff;
    assert_eq!(
        load_quad_mind(&bad).err(),
        Some(QuadMindError::ContainerIntegrityMismatch)
    );
}

#[test]
fn truncated_end_marker_is_a_signature_mismatch() {
    let bytes = saved();
    // Cutting into the trailing end marker leaves the layout readable but
    // the marker short.
    let cut = bytes.len() - 2;
    let bad = bytes[..cut].to_vec();
    assert_eq!(
        load_quad_mind(&bad).err(),
        Some(QuadMindError::ContainerSignatureMismatch)
    );
}

#[test]
fn truncated_header_is_malformed() {
    let bytes = saved();
    let bad = bytes[..10].to_vec();
    assert_eq!(load_quad_mind(&bad).err(), Some(QuadMindError::ContainerMalformed));
    let empty: Vec<u8> = Vec::new();
    assert_eq!(load_quad_mind(&empty).err(), Some(QuadMindError::ContainerMalformed));
}

#[test]
fn parse_ignores_trailing_bytes() {
    let mut bytes = saved();
    bytes.push(0);
    let f = parse_file(&bytes).expect("trailing bytes are ignored");
    assert_eq!(f.signature, b"QUADMIND".to_vec());
}

#[test]
fn saved_file_parses_structurally() {
    let bytes = saved();
    let f = parse_file(&bytes).expect("structure");
    assert_eq!(f.signature, b"QUADMIND".to_vec());
    assert_eq!(f.quad_mind_datas.len(), 2);
    assert_eq!(f.quad_mind_datas[0].start_signature, b"SQNJ".to_vec());
    assert_eq!(f.quad_mind_datas[0].end_signature, b"EQNJ".to_vec());
    assert_eq!(f.quad_mind_datas[1].start_signature, b"SDCT".to_vec());
    assert_eq!(f.quad_mind_datas[1].end_signature, b"EDCT".to_vec());
    assert_eq!(f.quad_mind_datas[0].sha512.len(), 64);
}

#[test]
fn sections_hold_real_deflate_streams_and_digests() {
    let bytes = saved();
    let f = parse_file(&bytes).expect("structure");
    let raw_leaves = serialize_leaves(&sample_leaves());
    let raw_coeffs = serialize_coeffs(&sample_coeffs());
    // The stored payloads are deflate streams of the packed payloads.
    let inflated0 = miniz_oxide::inflate::decompress_to_vec(&f.quad_mind_datas[0].data)
        .expect("geometry payload inflates");
    assert_eq!(inflated0, raw_leaves);
    let inflated1 = miniz_oxide::inflate::decompress_to_vec(&f.quad_mind_datas[1].data)
        .expect("coefficient payload inflates");
    assert_eq!(inflated1, raw_coeffs);
    // The stored digests are the SHA-512 of the packed payloads.
    assert_eq!(
        f.quad_mind_datas[0].sha512,
        sha2::Sha512::digest(&raw_leaves).to_vec()
    );
    assert_eq!(
        f.quad_mind_datas[1].sha512,
        sha2::Sha512::digest(&raw_coeffs).to_vec()
    );
}

fn loaded_sample() -> LoadedQuadMind {
    LoadedQuadMind {
        width: 8,
        height: 4,
        quality: 90,
        use_ycbcr: true,
        use_threads: false,
        use_fast_dct: false,
        use_gen_qtable: false,
        quad_node_jpeg: sample_leaves(),
        dct_zig_zag: sample_coeffs(),
    }
}

#[test]
fn decode_accepts_a_consistent_container() {
    let decoded = decode_quad_mind_blocks(&loaded_sample()).expect("consistent");
    assert_eq!(decoded.geometry, vec![(0, 0, 4), (4, 0, 4)]);
    assert_eq!(decoded.blocks.len(), 6);
    assert_eq!(decoded.max_size, 4);
}

#[test]
fn decode_rejects_an_unsupported_block_size() {
    let mut loaded = loaded_sample();
    loaded.quad_node_jpeg[1] = QuadNodeJpeg::new(4, 0, 10);
    assert_eq!(
        decode_quad_mind_blocks(&loaded).err(),
        Some(QuadMindError::UnsupportedBlockSize)
    );
}

#[test]
fn decode_rejects_out_of_range_geometry() {
    let mut loaded = loaded_sample();
    loaded.width = 0;
    assert_eq!(
        decode_quad_mind_blocks(&loaded).err(),
        Some(QuadMindError::InvalidConfig)
    );
    let mut loaded2 = loaded_sample();
    loaded2.quality = 101;
    assert_eq!(
        decode_quad_mind_blocks(&loaded2).err(),
        Some(QuadMindError::InvalidConfig)
    );
}

#[test]
fn decode_rejects_a_short_coefficient_stream() {
    let mut loaded = loaded_sample();
    loaded.dct_zig_zag.pop();
    assert_eq!(
        decode_quad_mind_blocks(&loaded).err(),
        Some(QuadMindError::ContainerMalformed)
    );
}
