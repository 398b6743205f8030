//! The container file of the adaptive codec: a signed, checksummed,
//! deflate-compressed binary layout holding the leaf geometry and the
//! zig-zag coefficient stream, with exact serialization and parsing.
use vstd::prelude::*;

use crate::bytes::{le_bytes, le_val, pow256};
use crate::mathx;
use crate::my_image::MyImage;
use crate::outside;
use crate::quad_tree::QuadTree;

verus! {

/// One leaf of the partition as stored in the geometry section: its
/// top-left corner and the base-two logarithm of its block size.
pub struct QuadNodeJpeg {
    /// Left edge of the leaf.
    pub x: u32,
    /// Top edge of the leaf.
    pub y: u32,
    /// Base-two logarithm of the leaf's block size.
    pub block_size: u8,
}

impl QuadNodeJpeg {
    /// Pack a leaf record.
    pub fn new(x: u32, y: u32, block_size: u8) -> (r: QuadNodeJpeg)
        ensures
            r.x == x,
            r.y == y,
            r.block_size == block_size,
    {
        QuadNodeJpeg { x, y, block_size }
    }
}

/// One section of the container: start marker, digest of the uncompressed
/// payload, compressed payload, end marker.
pub struct QuadMindData {
    /// Section start marker.
    pub start_signature: Vec<u8>,
    /// SHA-512 digest of the uncompressed payload.
    pub sha512: Vec<u8>,
    /// Deflate-compressed payload.
    pub data: Vec<u8>,
    /// Section end marker.
    pub end_signature: Vec<u8>,
}

impl QuadMindData {
    /// Pack a section.
    pub fn new(start_signature: Vec<u8>, sha512: Vec<u8>, data: Vec<u8>, end_signature: Vec<u8>) -> (r:
        QuadMindData)
        ensures
            r.start_signature == start_signature,
            r.sha512 == sha512,
            r.data == data,
            r.end_signature == end_signature,
    {
        QuadMindData { start_signature, sha512, data, end_signature }
    }
}

/// The whole container: magic, image geometry, codec flags, and the two
/// sections.
pub struct QuadMindFile {
    /// File magic.
    pub signature: Vec<u8>,
    /// Displayed width.
    pub width: u32,
    /// Displayed height.
    pub height: u32,
    /// Quality the file was coded with.
    pub quality: u32,
    /// Whether the planes are YCbCr.
    pub use_ycbcr: bool,
    /// Whether coding ran on a worker pool.
    pub use_threads: bool,
    /// Whether the fast transform kernels were used.
    pub use_fast_dct: bool,
    /// Whether the generated quantization family was used.
    pub use_gen_qtable: bool,
    /// The geometry and coefficient sections.
    pub quad_mind_datas: Vec<QuadMindData>,
}

impl QuadMindFile {
    /// Pack a container.
    pub fn new(
        signature: Vec<u8>,
        width: u32,
        height: u32,
        quality: u32,
        use_ycbcr: bool,
        use_threads: bool,
        use_fast_dct: bool,
        use_gen_qtable: bool,
        quad_mind_datas: Vec<QuadMindData>,
    ) -> (r: QuadMindFile)
        ensures
            r.signature == signature,
            r.width == width,
            r.height == height,
            r.quality == quality,
            r.use_ycbcr == use_ycbcr,
            r.use_threads == use_threads,
            r.use_fast_dct == use_fast_dct,
            r.use_gen_qtable == use_gen_qtable,
            r.quad_mind_datas == quad_mind_datas,
    {
        QuadMindFile {
            signature,
            width,
            height,
            quality,
            use_ycbcr,
            use_threads,
            use_fast_dct,
            use_gen_qtable,
            quad_mind_datas,
        }
    }
}

/// The errors a container can fail to load with.
#[derive(PartialEq, Eq, Structural, Debug, Clone, Copy)]
pub enum QuadMindError {
    /// The underlying file could not be read or written.
    IoError,
    /// The magic or a section marker differs from its expected literal.
    ContainerSignatureMismatch,
    /// A recomputed digest differs from the stored one.
    ContainerIntegrityMismatch,
    /// The byte layout or a compressed payload cannot be decoded.
    ContainerMalformed,
    /// A block size outside the accepted powers of two.
    UnsupportedBlockSize,
    /// A configuration that violates the documented ranges.
    InvalidConfig,
}

/// The container magic, the ASCII bytes of `QUADMIND`.
pub open spec fn qm_magic() -> Seq<u8> {
    seq![0x51u8, 0x55u8, 0x41u8, 0x44u8, 0x4du8, 0x49u8, 0x4eu8, 0x44u8]
}

/// The geometry section markers, the ASCII bytes of `SQNJ` and `EQNJ`.
pub open spec fn marker_sqnj() -> Seq<u8> {
    seq![0x53u8, 0x51u8, 0x4eu8, 0x4au8]
}

/// End marker of the geometry section.
pub open spec fn marker_eqnj() -> Seq<u8> {
    seq![0x45u8, 0x51u8, 0x4eu8, 0x4au8]
}

/// Start marker of the coefficient section, the ASCII bytes of `SDCT`.
pub open spec fn marker_sdct() -> Seq<u8> {
    seq![0x53u8, 0x44u8, 0x43u8, 0x54u8]
}

/// End marker of the coefficient section.
pub open spec fn marker_edct() -> Seq<u8> {
    seq![0x45u8, 0x44u8, 0x43u8, 0x54u8]
}

/// The container magic as a vector.
pub fn magic_bytes() -> (r: Vec<u8>)
    ensures
        r@ == qm_magic(),
{
    let mut v: Vec<u8> = Vec::new();
    v.push(0x51u8);
    v.push(0x55u8);
    v.push(0x41u8);
    v.push(0x44u8);
    v.push(0x4du8);
    v.push(0x49u8);
    v.push(0x4eu8);
    v.push(0x44u8);
    proof {
        assert(v@ =~= qm_magic());
    }
    v
}

/// One of the four section markers as a vector.
pub fn marker_bytes(which: u8) -> (r: Vec<u8>)
    requires
        which < 4,
    ensures
        which == 0 ==> r@ == marker_sqnj(),
        which == 1 ==> r@ == marker_eqnj(),
        which == 2 ==> r@ == marker_sdct(),
        which == 3 ==> r@ == marker_edct(),
{
    let mut v: Vec<u8> = Vec::new();
    if which == 0 {
        v.push(0x53u8);
        v.push(0x51u8);
        v.push(0x4eu8);
        v.push(0x4au8);
        proof {
            assert(v@ =~= marker_sqnj());
        }
    } else if which == 1 {
        v.push(0x45u8);
        v.push(0x51u8);
        v.push(0x4eu8);
        v.push(0x4au8);
        proof {
            assert(v@ =~= marker_eqnj());
        }
    } else if which == 2 {
        v.push(0x53u8);
        v.push(0x44u8);
        v.push(0x43u8);
        v.push(0x54u8);
        proof {
            assert(v@ =~= marker_sdct());
        }
    } else {
        v.push(0x45u8);
        v.push(0x44u8);
        v.push(0x43u8);
        v.push(0x54u8);
        proof {
            assert(v@ =~= marker_edct());
        }
    }
    v
}

/// A byte-string field: its length as eight little-endian bytes, then the
/// bytes themselves.
pub open spec fn ser_field(b: Seq<u8>) -> Seq<u8> {
    le_bytes(b.len() as int, 8) + b
}

/// The byte of a flag.
pub open spec fn bool_byte(b: bool) -> u8 {
    if b {
        1u8
    } else {
        0u8
    }
}

/// The serialized form of one section.
pub open spec fn ser_data(d: QuadMindData) -> Seq<u8> {
    ser_field(d.start_signature@) + ser_field(d.sha512@) + ser_field(d.data@) + ser_field(
        d.end_signature@,
    )
}

/// The serialized form of the whole container, which always holds exactly
/// two sections.
pub open spec fn ser_file(f: QuadMindFile) -> Seq<u8> {
    ser_field(f.signature@) + le_bytes(f.width as int, 4) + le_bytes(f.height as int, 4) + le_bytes(
        f.quality as int,
        4,
    ) + seq![
        bool_byte(f.use_ycbcr),
        bool_byte(f.use_threads),
        bool_byte(f.use_fast_dct),
        bool_byte(f.use_gen_qtable),
    ] + le_bytes(2, 8) + ser_data(f.quad_mind_datas@[0]) + ser_data(f.quad_mind_datas@[1])
}

/// Serialize one section, appending to the output.
fn write_data(out: &mut Vec<u8>, d: &QuadMindData)
    ensures
        final(out)@ == old(out)@ + ser_data(*d),
{
    let ghost base = out@;
    crate::bytes::push_u64(out, d.start_signature.len() as u64);
    crate::bytes::push_chunk(out, &d.start_signature);
    crate::bytes::push_u64(out, d.sha512.len() as u64);
    crate::bytes::push_chunk(out, &d.sha512);
    crate::bytes::push_u64(out, d.data.len() as u64);
    crate::bytes::push_chunk(out, &d.data);
    crate::bytes::push_u64(out, d.end_signature.len() as u64);
    crate::bytes::push_chunk(out, &d.end_signature);
    proof {
        assert(out@ =~= base + ser_data(*d));
    }
}

/// Serialize a whole container.
pub fn serialize_file(f: &QuadMindFile) -> (out: Vec<u8>)
    requires
        f.quad_mind_datas@.len() == 2,
    ensures
        out@ == ser_file(*f),
{
    let mut out: Vec<u8> = Vec::new();
    crate::bytes::push_u64(&mut out, f.signature.len() as u64);
    crate::bytes::push_chunk(&mut out, &f.signature);
    crate::bytes::push_u32(&mut out, f.width);
    crate::bytes::push_u32(&mut out, f.height);
    crate::bytes::push_u32(&mut out, f.quality);
    out.push(if f.use_ycbcr {
        1u8
    } else {
        0u8
    });
    out.push(if f.use_threads {
        1u8
    } else {
        0u8
    });
    out.push(if f.use_fast_dct {
        1u8
    } else {
        0u8
    });
    out.push(if f.use_gen_qtable {
        1u8
    } else {
        0u8
    });
    crate::bytes::push_u64(&mut out, 2u64);
    write_data(&mut out, &f.quad_mind_datas[0]);
    write_data(&mut out, &f.quad_mind_datas[1]);
    proof {
        assert(out@ =~= ser_file(*f));
    }
    out
}

/// The parsed shape of one section.
pub struct DataModel {
    /// Section start marker.
    pub start: Seq<u8>,
    /// Stored digest.
    pub sha: Seq<u8>,
    /// Compressed payload.
    pub data: Seq<u8>,
    /// Section end marker.
    pub end: Seq<u8>,
}

/// The parsed shape of a container.
pub struct FileModel {
    /// File magic.
    pub sig: Seq<u8>,
    /// Displayed width.
    pub width: int,
    /// Displayed height.
    pub height: int,
    /// Stored quality.
    pub quality: int,
    /// Whether the planes are YCbCr.
    pub use_ycbcr: bool,
    /// Whether coding ran on a worker pool.
    pub use_threads: bool,
    /// Whether the fast kernels were used.
    pub use_fast_dct: bool,
    /// Whether the generated quantization family was used.
    pub use_gen_qtable: bool,
    /// Geometry section.
    pub d0: DataModel,
    /// Coefficient section.
    pub d1: DataModel,
}

/// The model a section struct parses to.
pub open spec fn model_of_data(d: QuadMindData) -> DataModel {
    DataModel {
        start: d.start_signature@,
        sha: d.sha512@,
        data: d.data@,
        end: d.end_signature@,
    }
}

/// The model a container struct parses to.
pub open spec fn model_of_file(f: QuadMindFile) -> FileModel {
    FileModel {
        sig: f.signature@,
        width: f.width as int,
        height: f.height as int,
        quality: f.quality as int,
        use_ycbcr: f.use_ycbcr,
        use_threads: f.use_threads,
        use_fast_dct: f.use_fast_dct,
        use_gen_qtable: f.use_gen_qtable,
        d0: model_of_data(f.quad_mind_datas@[0]),
        d1: model_of_data(f.quad_mind_datas@[1]),
    }
}

/// The serialized form of a file model.
pub open spec fn ser_file_m(m: FileModel) -> Seq<u8> {
    ser_field(m.sig) + le_bytes(m.width, 4) + le_bytes(m.height, 4) + le_bytes(m.quality, 4)
        + seq![
        bool_byte(m.use_ycbcr),
        bool_byte(m.use_threads),
        bool_byte(m.use_fast_dct),
        bool_byte(m.use_gen_qtable),
    ] + le_bytes(2, 8) + ser_data_m(m.d0) + ser_data_m(m.d1)
}

/// The serialized form of a section model.
pub open spec fn ser_data_m(d: DataModel) -> Seq<u8> {
    ser_field(d.start) + ser_field(d.sha) + ser_field(d.data) + ser_field(d.end)
}

/// Parse a length-prefixed byte field at `p`.
pub open spec fn sp_field(s: Seq<u8>, p: int) -> Option<(Seq<u8>, int)> {
    if 0 <= p && p + 8 <= s.len() {
        let n = le_val(s.subrange(p, p + 8));
        if p + 8 + n <= s.len() {
            Some((s.subrange(p + 8, p + 8 + n), p + 8 + n))
        } else {
            None
        }
    } else {
        None
    }
}

/// Parse a four-byte little-endian integer at `p`.
pub open spec fn sp_u32(s: Seq<u8>, p: int) -> Option<(int, int)> {
    if 0 <= p && p + 4 <= s.len() {
        Some((le_val(s.subrange(p, p + 4)), p + 4))
    } else {
        None
    }
}

/// Parse a one-byte flag at `p`: only zero and one are accepted.
pub open spec fn sp_bool(s: Seq<u8>, p: int) -> Option<(bool, int)> {
    if 0 <= p && p + 1 <= s.len() {
        if s[p] == 0u8 {
            Some((false, p + 1))
        } else if s[p] == 1u8 {
            Some((true, p + 1))
        } else {
            None
        }
    } else {
        None
    }
}

/// Parse one section at `p`. A section whose end marker is cut short
/// swallows the rest of the input with an empty end marker, so that a
/// truncated trailing marker surfaces as a marker mismatch rather than a
/// layout fault.
pub open spec fn sp_data(s: Seq<u8>, p: int) -> Option<(DataModel, int)> {
    match sp_field(s, p) {
        None => None,
        Some((start, p1)) => match sp_field(s, p1) {
            None => None,
            Some((sha, p2)) => match sp_field(s, p2) {
                None => None,
                Some((data, p3)) => match sp_field(s, p3) {
                    None => Some(
                        (DataModel { start, sha, data, end: Seq::empty() }, s.len() as int),
                    ),
                    Some((end, p4)) => Some((DataModel { start, sha, data, end }, p4)),
                },
            },
        },
    }
}

/// Parse a whole container: magic field, geometry, quality, four flags, a
/// section count that must be two, and the two sections; trailing bytes
/// are ignored.
pub open spec fn spec_parse_file(s: Seq<u8>) -> Option<FileModel> {
    match sp_field(s, 0) {
        None => None,
        Some((sig, p1)) => match sp_u32(s, p1) {
            None => None,
            Some((width, p2)) => match sp_u32(s, p2) {
                None => None,
                Some((height, p3)) => match sp_u32(s, p3) {
                    None => None,
                    Some((quality, p4)) => match sp_bool(s, p4) {
                        None => None,
                        Some((ycbcr, p5)) => match sp_bool(s, p5) {
                            None => None,
                            Some((threads, p6)) => match sp_bool(s, p6) {
                                None => None,
                                Some((fast, p7)) => match sp_bool(s, p7) {
                                    None => None,
                                    Some((gen, p8)) => if p8 + 8 <= s.len() && le_val(
                                        s.subrange(p8, p8 + 8),
                                    ) == 2 {
                                        match sp_data(s, p8 + 8) {
                                            None => None,
                                            Some((d0, p9)) => match sp_data(s, p9) {
                                                None => None,
                                                Some((d1, _p10)) => Some(
                                                    FileModel {
                                                        sig,
                                                        width,
                                                        height,
                                                        quality,
                                                        use_ycbcr: ycbcr,
                                                        use_threads: threads,
                                                        use_fast_dct: fast,
                                                        use_gen_qtable: gen,
                                                        d0,
                                                        d1,
                                                    },
                                                ),
                                            },
                                        }
                                    } else {
                                        None
                                    },
                                },
                            },
                        },
                    },
                },
            },
        },
    }
}

/// Read a length-prefixed byte field.
fn parse_field(data: &Vec<u8>, pos: usize) -> (r: Option<(Vec<u8>, usize)>)
    ensures
        (match r {
            Some(p) => sp_field(data@, pos as int) == Some((p.0@, p.1 as int)),
            None => sp_field(data@, pos as int) is None,
        }),
{
    let (n64, p1) = match crate::bytes::read_u64(data, pos) {
        Some(v) => v,
        None => {
            return None;
        },
    };
    proof {
        crate::bytes::lemma_le_val_nonneg(data@.subrange(pos as int, pos as int + 8));
    }
    if n64 > (data.len() - p1) as u64 {
        return None;
    }
    let n = n64 as usize;
    let (chunk, p2) = match crate::bytes::read_chunk(data, p1, n) {
        Some(v) => v,
        None => {
            return None;
        },
    };
    Some((chunk, p2))
}

/// Read a one-byte flag that must be zero or one.
fn parse_bool(data: &Vec<u8>, pos: usize) -> (r: Option<(bool, usize)>)
    ensures
        (match r {
            Some(p) => sp_bool(data@, pos as int) == Some((p.0, p.1 as int)),
            None => sp_bool(data@, pos as int) is None,
        }),
{
    let (b, p1) = match crate::bytes::read_u8(data, pos) {
        Some(v) => v,
        None => {
            return None;
        },
    };
    if b == 0 {
        Some((false, p1))
    } else if b == 1 {
        Some((true, p1))
    } else {
        None
    }
}

/// Read one section.
fn parse_data(data: &Vec<u8>, pos: usize) -> (r: Option<(QuadMindData, usize)>)
    ensures
        (match r {
            Some(p) => sp_data(data@, pos as int) == Some((model_of_data(p.0), p.1 as int)),
            None => sp_data(data@, pos as int) is None,
        }),
{
    let (start, p1) = match parse_field(data, pos) {
        Some(v) => v,
        None => {
            return None;
        },
    };
    let (sha, p2) = match parse_field(data, p1) {
        Some(v) => v,
        None => {
            return None;
        },
    };
    let (payload, p3) = match parse_field(data, p2) {
        Some(v) => v,
        None => {
            return None;
        },
    };
    let (end, p4) = match parse_field(data, p3) {
        Some(v) => v,
        None => {
            let empty: Vec<u8> = Vec::new();
            return Some((QuadMindData::new(start, sha, payload, empty), data.len()));
        },
    };
    Some((QuadMindData::new(start, sha, payload, end), p4))
}

/// Parse a whole container from bytes.
pub fn parse_file(data: &Vec<u8>) -> (r: Option<QuadMindFile>)
    ensures
        (match r {
            Some(f) => f.quad_mind_datas@.len() == 2 && spec_parse_file(data@) == Some(
                model_of_file(f),
            ),
            None => spec_parse_file(data@) is None,
        }),
{
    let (sig, p1) = match parse_field(data, 0) {
        Some(v) => v,
        None => {
            return None;
        },
    };
    let (width, p2) = match crate::bytes::read_u32(data, p1) {
        Some(v) => v,
        None => {
            return None;
        },
    };
    let (height, p3) = match crate::bytes::read_u32(data, p2) {
        Some(v) => v,
        None => {
            return None;
        },
    };
    let (quality, p4) = match crate::bytes::read_u32(data, p3) {
        Some(v) => v,
        None => {
            return None;
        },
    };
    let (ycbcr, p5) = match parse_bool(data, p4) {
        Some(v) => v,
        None => {
            return None;
        },
    };
    let (threads, p6) = match parse_bool(data, p5) {
        Some(v) => v,
        None => {
            return None;
        },
    };
    let (fast, p7) = match parse_bool(data, p6) {
        Some(v) => v,
        None => {
            return None;
        },
    };
    let (gen, p8) = match parse_bool(data, p7) {
        Some(v) => v,
        None => {
            return None;
        },
    };
    let (count, p9) = match crate::bytes::read_u64(data, p8) {
        Some(v) => v,
        None => {
            return None;
        },
    };
    if count != 2 {
        return None;
    }
    let (d0, p10) = match parse_data(data, p9) {
        Some(v) => v,
        None => {
            return None;
        },
    };
    let (d1, _p11) = match parse_data(data, p10) {
        Some(v) => v,
        None => {
            return None;
        },
    };
    let mut datas: Vec<QuadMindData> = Vec::new();
    datas.push(d0);
    datas.push(d1);
    let f = QuadMindFile::new(
        sig,
        width,
        height,
        quality,
        ycbcr,
        threads,
        fast,
        gen,
        datas,
    );
    Some(f)
}

/// `256^8`, the bound of an eight-byte length field.
pub proof fn lemma_pow256_8()
    ensures
        pow256(8) == 0x1_0000_0000_0000_0000,
        pow256(4) == 0x1_0000_0000,
{
    assert(pow256(0) == 1);
    assert(pow256(1) == 256);
    assert(pow256(2) == 0x1_0000);
    assert(pow256(3) == 0x100_0000);
    assert(pow256(4) == 0x1_0000_0000);
    assert(pow256(5) == 0x100_0000_0000);
    assert(pow256(6) == 0x1_0000_0000_0000);
    assert(pow256(7) == 0x100_0000_0000_0000);
}

/// A serialized field embedded in a longer string parses back to its
/// bytes.
proof fn lemma_sp_field_ser(s: Seq<u8>, p: int, b: Seq<u8>)
    requires
        0 <= p,
        p + 8 + b.len() <= s.len(),
        s.subrange(p, p + 8 + b.len()) == ser_field(b),
        b.len() < pow256(8),
    ensures
        sp_field(s, p) == Some((b, p + 8 + b.len())),
{
    crate::bytes::lemma_le_round_trip(b.len() as int, 8);
    assert(s.subrange(p, p + 8) =~= le_bytes(b.len() as int, 8)) by {
        assert forall|i: int| 0 <= i < 8 implies s.subrange(p, p + 8)[i] == le_bytes(
            b.len() as int,
            8,
        )[i] by {
            assert(s.subrange(p, p + 8)[i] == s.subrange(p, p + 8 + b.len())[i]);
        }
    }
    assert(s.subrange(p + 8, p + 8 + b.len()) =~= b) by {
        assert forall|i: int| 0 <= i < b.len() implies s.subrange(p + 8, p + 8 + b.len())[i]
            == b[i] by {
            assert(s.subrange(p + 8, p + 8 + b.len())[i] == s.subrange(p, p + 8 + b.len())[8 + i]);
        }
    }
}

/// A serialized section embedded in a longer string parses back to its
/// model.
proof fn lemma_sp_data_ser(s: Seq<u8>, p: int, d: DataModel)
    requires
        0 <= p,
        p + ser_data_m(d).len() <= s.len(),
        s.subrange(p, p + ser_data_m(d).len()) == ser_data_m(d),
        d.start.len() < pow256(8),
        d.sha.len() < pow256(8),
        d.data.len() < pow256(8),
        d.end.len() < pow256(8),
    ensures
        sp_data(s, p) == Some((d, p + ser_data_m(d).len())),
{
    crate::bytes::lemma_le_bytes_len(d.start.len() as int, 8);
    crate::bytes::lemma_le_bytes_len(d.sha.len() as int, 8);
    crate::bytes::lemma_le_bytes_len(d.data.len() as int, 8);
    crate::bytes::lemma_le_bytes_len(d.end.len() as int, 8);
    let l0 = 8 + d.start.len() as int;
    let l1 = 8 + d.sha.len() as int;
    let l2 = 8 + d.data.len() as int;
    let l3 = 8 + d.end.len() as int;
    assert(ser_data_m(d).len() == l0 + l1 + l2 + l3);
    assert(s.subrange(p, p + l0) =~= ser_field(d.start)) by {
        assert forall|i: int| 0 <= i < l0 implies s.subrange(p, p + l0)[i] == ser_field(
            d.start,
        )[i] by {
            assert(s.subrange(p, p + l0)[i] == s.subrange(p, p + ser_data_m(d).len())[i]);
        }
    }
    lemma_sp_field_ser(s, p, d.start);
    assert(s.subrange(p + l0, p + l0 + l1) =~= ser_field(d.sha)) by {
        assert forall|i: int| 0 <= i < l1 implies s.subrange(p + l0, p + l0 + l1)[i] == ser_field(
            d.sha,
        )[i] by {
            assert(s.subrange(p + l0, p + l0 + l1)[i] == s.subrange(p, p + ser_data_m(d).len())[l0
                + i]);
        }
    }
    lemma_sp_field_ser(s, p + l0, d.sha);
    assert(s.subrange(p + l0 + l1, p + l0 + l1 + l2) =~= ser_field(d.data)) by {
        assert forall|i: int| 0 <= i < l2 implies s.subrange(p + l0 + l1, p + l0 + l1 + l2)[i]
            == ser_field(d.data)[i] by {
            assert(s.subrange(p + l0 + l1, p + l0 + l1 + l2)[i] == s.subrange(
                p,
                p + ser_data_m(d).len(),
            )[l0 + l1 + i]);
        }
    }
    lemma_sp_field_ser(s, p + l0 + l1, d.data);
    assert(s.subrange(p + l0 + l1 + l2, p + l0 + l1 + l2 + l3) =~= ser_field(d.end))
        by {
        assert forall|i: int| 0 <= i < l3 implies s.subrange(
            p + l0 + l1 + l2,
            p + l0 + l1 + l2 + l3,
        )[i] == ser_field(d.end)[i] by {
            assert(s.subrange(p + l0 + l1 + l2, p + l0 + l1 + l2 + l3)[i] == s.subrange(
                p,
                p + ser_data_m(d).len(),
            )[l0 + l1 + l2 + i]);
        }
    }
    lemma_sp_field_ser(s, p + l0 + l1 + l2, d.end);
}

/// A serialized container model decomposes at its known offsets and
/// parses back to itself exactly: the structural half of the container
/// round trip.
#[verifier::rlimit(100)]
#[verifier::spinoff_prover]
pub proof fn lemma_parse_ser_model(m: FileModel)
    requires
        m.sig.len() < pow256(8),
        m.d0.start.len() < pow256(8),
        m.d0.sha.len() < pow256(8),
        m.d0.data.len() < pow256(8),
        m.d0.end.len() < pow256(8),
        m.d1.start.len() < pow256(8),
        m.d1.sha.len() < pow256(8),
        m.d1.data.len() < pow256(8),
        m.d1.end.len() < pow256(8),
        0 <= m.width < 0x1_0000_0000,
        0 <= m.height < 0x1_0000_0000,
        0 <= m.quality < 0x1_0000_0000,
    ensures
        spec_parse_file(ser_file_m(m)) == Some(m),
{
    lemma_pow256_8();
    let s = ser_file_m(m);
    let sig = m.sig;
    let d0 = m.d0;
    let d1 = m.d1;
    crate::bytes::lemma_le_bytes_len(sig.len() as int, 8);
    crate::bytes::lemma_le_bytes_len(m.width, 4);
    crate::bytes::lemma_le_bytes_len(m.height, 4);
    crate::bytes::lemma_le_bytes_len(m.quality, 4);
    crate::bytes::lemma_le_bytes_len(2, 8);
    crate::bytes::lemma_le_bytes_len(d0.start.len() as int, 8);
    crate::bytes::lemma_le_bytes_len(d0.sha.len() as int, 8);
    crate::bytes::lemma_le_bytes_len(d0.data.len() as int, 8);
    crate::bytes::lemma_le_bytes_len(d0.end.len() as int, 8);
    crate::bytes::lemma_le_bytes_len(d1.start.len() as int, 8);
    crate::bytes::lemma_le_bytes_len(d1.sha.len() as int, 8);
    crate::bytes::lemma_le_bytes_len(d1.data.len() as int, 8);
    crate::bytes::lemma_le_bytes_len(d1.end.len() as int, 8);
    let p1 = 8 + sig.len() as int;
    let p4 = p1 + 12;
    let p8 = p4 + 4;
    let p9 = p8 + 8;
    let q0 = ser_data_m(d0).len() as int;
    let q1 = ser_data_m(d1).len() as int;
    assert(s.len() == p9 + q0 + q1);
    assert(s.subrange(0, p1) =~= ser_field(sig));
    lemma_sp_field_ser(s, 0, sig);
    assert(s.subrange(p1, p1 + 4) =~= le_bytes(m.width, 4));
    assert(s.subrange(p1 + 4, p1 + 8) =~= le_bytes(m.height, 4));
    assert(s.subrange(p1 + 8, p1 + 12) =~= le_bytes(m.quality, 4));
    crate::bytes::lemma_le_round_trip(m.width, 4);
    crate::bytes::lemma_le_round_trip(m.height, 4);
    crate::bytes::lemma_le_round_trip(m.quality, 4);
    assert(s[p4] == bool_byte(m.use_ycbcr));
    assert(s[p4 + 1] == bool_byte(m.use_threads));
    assert(s[p4 + 2] == bool_byte(m.use_fast_dct));
    assert(s[p4 + 3] == bool_byte(m.use_gen_qtable));
    assert(s.subrange(p8, p8 + 8) =~= le_bytes(2, 8));
    crate::bytes::lemma_le_round_trip(2, 8);
    assert(s.subrange(p9, p9 + q0) =~= ser_data_m(d0));
    lemma_sp_data_ser(s, p9, d0);
    assert(s.subrange(p9 + q0, p9 + q0 + q1) =~= ser_data_m(d1));
    lemma_sp_data_ser(s, p9 + q0, d1);
    assert(sp_bool(s, p4) == Some((m.use_ycbcr, p4 + 1)));
    assert(sp_bool(s, p4 + 1) == Some((m.use_threads, p4 + 2)));
    assert(sp_bool(s, p4 + 2) == Some((m.use_fast_dct, p4 + 3)));
    assert(sp_bool(s, p4 + 3) == Some((m.use_gen_qtable, p4 + 4)));
    assert(spec_parse_file(s) == Some(m));
}

/// A serialized container struct parses back to its model.
pub proof fn lemma_parse_ser_file(f: QuadMindFile)
    requires
        f.quad_mind_datas@.len() == 2,
    ensures
        spec_parse_file(ser_file(f)) == Some(model_of_file(f)),
{
    lemma_pow256_8();
    broadcast use vstd::std_specs::vec::axiom_spec_len;

    let d0 = f.quad_mind_datas@[0];
    let d1 = f.quad_mind_datas@[1];
    assert(f.signature@.len() == vstd::std_specs::vec::spec_vec_len(&f.signature));
    assert(d0.start_signature@.len() == vstd::std_specs::vec::spec_vec_len(&d0.start_signature));
    assert(d0.sha512@.len() == vstd::std_specs::vec::spec_vec_len(&d0.sha512));
    assert(d0.data@.len() == vstd::std_specs::vec::spec_vec_len(&d0.data));
    assert(d0.end_signature@.len() == vstd::std_specs::vec::spec_vec_len(&d0.end_signature));
    assert(d1.start_signature@.len() == vstd::std_specs::vec::spec_vec_len(&d1.start_signature));
    assert(d1.sha512@.len() == vstd::std_specs::vec::spec_vec_len(&d1.sha512));
    assert(d1.data@.len() == vstd::std_specs::vec::spec_vec_len(&d1.data));
    assert(d1.end_signature@.len() == vstd::std_specs::vec::spec_vec_len(&d1.end_signature));
    lemma_parse_ser_model(model_of_file(f));
    assert(ser_file(f) =~= ser_file_m(model_of_file(f)));
}

/// The nine bytes of one leaf record: corner coordinates and the size
/// logarithm, packed without padding.
pub open spec fn leaf_rec(n: QuadNodeJpeg) -> Seq<u8> {
    le_bytes(n.x as int, 4) + le_bytes(n.y as int, 4) + seq![n.block_size]
}

/// The first `k` leaf records, concatenated.
pub open spec fn leaf_recs(ls: Seq<QuadNodeJpeg>, k: int) -> Seq<u8>
    decreases k,
{
    if k <= 0 {
        Seq::empty()
    } else {
        leaf_recs(ls, k - 1) + leaf_rec(ls[k - 1])
    }
}

/// The geometry payload: a count and the packed records.
pub open spec fn ser_leaves(ls: Seq<QuadNodeJpeg>) -> Seq<u8> {
    le_bytes(ls.len() as int, 8) + leaf_recs(ls, ls.len() as int)
}

/// The unsigned 32-bit representation of a signed coefficient.
pub open spec fn u32_rep(v: int) -> int {
    if v < 0 {
        v + 0x1_0000_0000
    } else {
        v
    }
}

/// The signed value of an unsigned 32-bit representation.
pub open spec fn i32_val(u: int) -> int {
    if u >= 0x8000_0000 {
        u - 0x1_0000_0000
    } else {
        u
    }
}

/// The first `k` coefficients, packed as little-endian 32-bit values.
pub open spec fn coeff_recs(cs: Seq<i32>, k: int) -> Seq<u8>
    decreases k,
{
    if k <= 0 {
        Seq::empty()
    } else {
        coeff_recs(cs, k - 1) + le_bytes(u32_rep(cs[k - 1] as int), 4)
    }
}

/// The coefficient payload: a count and the packed values.
pub open spec fn ser_coeffs(cs: Seq<i32>) -> Seq<u8> {
    le_bytes(cs.len() as int, 8) + coeff_recs(cs, cs.len() as int)
}

/// Parse the geometry payload: the byte length must match the count
/// exactly.
pub open spec fn sp_leaves(s: Seq<u8>) -> Option<Seq<QuadNodeJpeg>> {
    if s.len() < 8 {
        None
    } else {
        let n = le_val(s.subrange(0, 8));
        if s.len() == 8 + 9 * n {
            Some(
                Seq::new(
                    n as nat,
                    |i: int|
                        QuadNodeJpeg {
                            x: le_val(s.subrange(8 + 9 * i, 12 + 9 * i)) as u32,
                            y: le_val(s.subrange(12 + 9 * i, 16 + 9 * i)) as u32,
                            block_size: s[16 + 9 * i],
                        },
                ),
            )
        } else {
            None
        }
    }
}

/// Parse the coefficient payload.
pub open spec fn sp_coeffs(s: Seq<u8>) -> Option<Seq<i32>> {
    if s.len() < 8 {
        None
    } else {
        let n = le_val(s.subrange(0, 8));
        if s.len() == 8 + 4 * n {
            Some(Seq::new(n as nat, |i: int| i32_val(le_val(s.subrange(8 + 4 * i, 12 + 4 * i))) as i32))
        } else {
            None
        }
    }
}

/// The packed records of `k` leaves take nine bytes each.
proof fn lemma_leaf_recs_len(ls: Seq<QuadNodeJpeg>, k: int)
    requires
        0 <= k,
    ensures
        leaf_recs(ls, k).len() == 9 * k,
    decreases k,
{
    if k > 0 {
        lemma_leaf_recs_len(ls, k - 1);
        crate::bytes::lemma_le_bytes_len(ls[k - 1].x as int, 4);
        crate::bytes::lemma_le_bytes_len(ls[k - 1].y as int, 4);
    }
}

/// Record `i` of the packed leaves sits at offset `9 i`.
proof fn lemma_leaf_recs_index(ls: Seq<QuadNodeJpeg>, k: int, i: int)
    requires
        0 <= i < k,
    ensures
        leaf_recs(ls, k).subrange(9 * i, 9 * i + 9) == leaf_rec(ls[i]),
    decreases k,
{
    lemma_leaf_recs_len(ls, k);
    lemma_leaf_recs_len(ls, k - 1);
    crate::bytes::lemma_le_bytes_len(ls[k - 1].x as int, 4);
    crate::bytes::lemma_le_bytes_len(ls[k - 1].y as int, 4);
    if i == k - 1 {
        assert(leaf_recs(ls, k).subrange(9 * i, 9 * i + 9) =~= leaf_rec(ls[i]));
    } else {
        lemma_leaf_recs_index(ls, k - 1, i);
        assert(leaf_recs(ls, k).subrange(9 * i, 9 * i + 9) =~= leaf_recs(ls, k - 1).subrange(
            9 * i,
            9 * i + 9,
        ));
    }
}

/// The packed coefficients take four bytes each.
proof fn lemma_coeff_recs_len(cs: Seq<i32>, k: int)
    requires
        0 <= k,
    ensures
        coeff_recs(cs, k).len() == 4 * k,
    decreases k,
{
    if k > 0 {
        lemma_coeff_recs_len(cs, k - 1);
        crate::bytes::lemma_le_bytes_len(u32_rep(cs[k - 1] as int), 4);
    }
}

/// Coefficient `i` of the packed stream sits at offset `4 i`.
proof fn lemma_coeff_recs_index(cs: Seq<i32>, k: int, i: int)
    requires
        0 <= i < k,
    ensures
        coeff_recs(cs, k).subrange(4 * i, 4 * i + 4) == le_bytes(u32_rep(cs[i] as int), 4),
    decreases k,
{
    lemma_coeff_recs_len(cs, k);
    lemma_coeff_recs_len(cs, k - 1);
    crate::bytes::lemma_le_bytes_len(u32_rep(cs[k - 1] as int), 4);
    if i == k - 1 {
        assert(coeff_recs(cs, k).subrange(4 * i, 4 * i + 4) =~= le_bytes(u32_rep(cs[i] as int), 4));
    } else {
        lemma_coeff_recs_index(cs, k - 1, i);
        assert(coeff_recs(cs, k).subrange(4 * i, 4 * i + 4) =~= coeff_recs(cs, k - 1).subrange(
            4 * i,
            4 * i + 4,
        ));
    }
}

/// A packed geometry payload parses back to its leaves: the structural
/// round trip of the first section.
pub proof fn lemma_parse_ser_leaves(ls: Seq<QuadNodeJpeg>)
    requires
        ls.len() < 0x1_0000_0000_0000_0000,
    ensures
        sp_leaves(ser_leaves(ls)) == Some(ls),
{
    lemma_pow256_8();
    let s = ser_leaves(ls);
    let n = ls.len() as int;
    crate::bytes::lemma_le_round_trip(n, 8);
    lemma_leaf_recs_len(ls, n);
    assert(s.subrange(0, 8) =~= le_bytes(n, 8));
    assert(s.len() == 8 + 9 * n);
    let parsed = sp_leaves(s).unwrap();
    assert forall|i: int| 0 <= i < n implies parsed[i] == ls[i] by {
        lemma_leaf_recs_index(ls, n, i);
        crate::bytes::lemma_le_round_trip(ls[i].x as int, 4);
        crate::bytes::lemma_le_round_trip(ls[i].y as int, 4);
        crate::bytes::lemma_le_bytes_len(ls[i].x as int, 4);
        crate::bytes::lemma_le_bytes_len(ls[i].y as int, 4);
        let rec = leaf_rec(ls[i]);
        assert(s.subrange(8 + 9 * i, 17 + 9 * i) =~= rec) by {
            assert forall|j: int| 0 <= j < 9 implies s.subrange(8 + 9 * i, 17 + 9 * i)[j] == rec[j]
                by {
                assert(s.subrange(8 + 9 * i, 17 + 9 * i)[j] == leaf_recs(ls, n)[9 * i + j]);
                assert(leaf_recs(ls, n).subrange(9 * i, 9 * i + 9)[j] == leaf_recs(ls, n)[9 * i
                    + j]);
            }
        }
        assert(s.subrange(8 + 9 * i, 12 + 9 * i) =~= rec.subrange(0, 4));
        assert(rec.subrange(0, 4) =~= le_bytes(ls[i].x as int, 4));
        assert(s.subrange(12 + 9 * i, 16 + 9 * i) =~= rec.subrange(4, 8));
        assert(rec.subrange(4, 8) =~= le_bytes(ls[i].y as int, 4));
        assert(s[16 + 9 * i] == rec[8]);
    }
    assert(parsed =~= ls);
}

/// A packed coefficient payload parses back to its values: the structural
/// round trip of the second section.
pub proof fn lemma_parse_ser_coeffs(cs: Seq<i32>)
    requires
        cs.len() < 0x1_0000_0000_0000_0000,
    ensures
        sp_coeffs(ser_coeffs(cs)) == Some(cs),
{
    lemma_pow256_8();
    let s = ser_coeffs(cs);
    let n = cs.len() as int;
    crate::bytes::lemma_le_round_trip(n, 8);
    lemma_coeff_recs_len(cs, n);
    assert(s.subrange(0, 8) =~= le_bytes(n, 8));
    assert(s.len() == 8 + 4 * n);
    let parsed = sp_coeffs(s).unwrap();
    assert forall|i: int| 0 <= i < n implies parsed[i] == cs[i] by {
        lemma_coeff_recs_index(cs, n, i);
        crate::bytes::lemma_le_round_trip(u32_rep(cs[i] as int), 4);
        crate::bytes::lemma_le_bytes_len(u32_rep(cs[i] as int), 4);
        assert(s.subrange(8 + 4 * i, 12 + 4 * i) =~= le_bytes(u32_rep(cs[i] as int), 4)) by {
            assert forall|j: int| 0 <= j < 4 implies s.subrange(8 + 4 * i, 12 + 4 * i)[j]
                == le_bytes(u32_rep(cs[i] as int), 4)[j] by {
                assert(s.subrange(8 + 4 * i, 12 + 4 * i)[j] == coeff_recs(cs, n)[4 * i + j]);
                assert(coeff_recs(cs, n).subrange(4 * i, 4 * i + 4)[j] == coeff_recs(cs, n)[4 * i
                    + j]);
            }
        }
    }
    assert(parsed =~= cs);
}

/// Pack a leaf list into the geometry payload.
pub fn serialize_leaves(quad_node_jpeg: &Vec<QuadNodeJpeg>) -> (out: Vec<u8>)
    ensures
        out@ == ser_leaves(quad_node_jpeg@),
{
    let mut out: Vec<u8> = Vec::new();
    crate::bytes::push_u64(&mut out, quad_node_jpeg.len() as u64);
    let mut i: usize = 0;
    while i < quad_node_jpeg.len()
        invariant
            i <= quad_node_jpeg@.len(),
            out@ == le_bytes(quad_node_jpeg@.len() as int, 8) + leaf_recs(
                quad_node_jpeg@,
                i as int,
            ),
        decreases quad_node_jpeg@.len() - i,
    {
        let node = &quad_node_jpeg[i];
        crate::bytes::push_u32(&mut out, node.x);
        crate::bytes::push_u32(&mut out, node.y);
        out.push(node.block_size);
        i = i + 1;
        proof {
            assert(out@ =~= le_bytes(quad_node_jpeg@.len() as int, 8) + leaf_recs(
                quad_node_jpeg@,
                i as int,
            ));
        }
    }
    out
}

/// Pack a coefficient stream into the coefficient payload.
pub fn serialize_coeffs(dct_zig_zag: &Vec<i32>) -> (out: Vec<u8>)
    ensures
        out@ == ser_coeffs(dct_zig_zag@),
{
    let mut out: Vec<u8> = Vec::new();
    crate::bytes::push_u64(&mut out, dct_zig_zag.len() as u64);
    let mut i: usize = 0;
    while i < dct_zig_zag.len()
        invariant
            i <= dct_zig_zag@.len(),
            out@ == le_bytes(dct_zig_zag@.len() as int, 8) + coeff_recs(dct_zig_zag@, i as int),
        decreases dct_zig_zag@.len() - i,
    {
        let v = dct_zig_zag[i];
        let u: u32 = if v >= 0 {
            v as u32
        } else {
            (0x1_0000_0000i64 + (v as i64)) as u32
        };
        proof {
            assert(u as int == u32_rep(v as int));
        }
        crate::bytes::push_u32(&mut out, u);
        i = i + 1;
        proof {
            assert(out@ =~= le_bytes(dct_zig_zag@.len() as int, 8) + coeff_recs(
                dct_zig_zag@,
                i as int,
            ));
        }
    }
    out
}

/// Unpack the geometry payload.
pub fn parse_leaves(data: &Vec<u8>) -> (r: Option<Vec<QuadNodeJpeg>>)
    ensures
        (match r {
            Some(ls) => sp_leaves(data@) == Some(ls@),
            None => sp_leaves(data@) is None,
        }),
{
    let (n64, p0) = match crate::bytes::read_u64(data, 0) {
        Some(v) => v,
        None => {
            return None;
        },
    };
    proof {
        crate::bytes::lemma_le_val_nonneg(data@.subrange(0, 8));
    }
    let rem = data.len() - 8;
    if rem % 9 != 0 || n64 != (rem / 9) as u64 {
        proof {
            if data@.len() == 8 + 9 * le_val(data@.subrange(0, 8)) {
                let n = le_val(data@.subrange(0, 8));
                vstd::arithmetic::div_mod::lemma_fundamental_div_mod_converse(
                    rem as int,
                    9,
                    n,
                    0,
                );
            }
        }
        return None;
    }
    let n = rem / 9;
    proof {
        vstd::arithmetic::div_mod::lemma_fundamental_div_mod(rem as int, 9);
        vstd::arithmetic::div_mod::lemma_mod_bound(rem as int, 9);
        assert(9 * (n as int) == rem as int);
    }
    let mut out: Vec<QuadNodeJpeg> = Vec::new();
    let mut i: usize = 0;
    while i < n
        invariant
            data@.len() == 8 + 9 * (n as int),
            le_val(data@.subrange(0, 8)) == n as int,
            i <= n,
            out@.len() == i,
            forall|j: int|
                0 <= j < i ==> #[trigger] out@[j] == (QuadNodeJpeg {
                    x: le_val(data@.subrange(8 + 9 * j, 12 + 9 * j)) as u32,
                    y: le_val(data@.subrange(12 + 9 * j, 16 + 9 * j)) as u32,
                    block_size: data@[16 + 9 * j],
                }),
        decreases n - i,
    {
        proof {
            broadcast use vstd::std_specs::vec::axiom_spec_len;

            assert(data@.len() == vstd::std_specs::vec::spec_vec_len(data));
            vstd::arithmetic::mul::lemma_mul_inequality(i as int + 1, n as int, 9);
            vstd::arithmetic::mul::lemma_mul_is_commutative(i as int + 1, 9);
            vstd::arithmetic::mul::lemma_mul_is_commutative(n as int, 9);
            vstd::arithmetic::mul::lemma_mul_is_distributive_add(9, i as int, 1);
        }
        let base = 8 + 9 * i;
        let (x, _) = crate::bytes::read_u32(data, base).unwrap();
        let (y, _) = crate::bytes::read_u32(data, base + 4).unwrap();
        let bs = data[base + 8];
        out.push(QuadNodeJpeg::new(x, y, bs));
        i = i + 1;
    }
    proof {
        let sp = sp_leaves(data@).unwrap();
        assert(out@ =~= sp);
    }
    Some(out)
}

/// Unpack the coefficient payload.
pub fn parse_coeffs(data: &Vec<u8>) -> (r: Option<Vec<i32>>)
    ensures
        (match r {
            Some(cs) => sp_coeffs(data@) == Some(cs@),
            None => sp_coeffs(data@) is None,
        }),
{
    let (n64, p0) = match crate::bytes::read_u64(data, 0) {
        Some(v) => v,
        None => {
            return None;
        },
    };
    proof {
        crate::bytes::lemma_le_val_nonneg(data@.subrange(0, 8));
    }
    let rem = data.len() - 8;
    if rem % 4 != 0 || n64 != (rem / 4) as u64 {
        proof {
            if data@.len() == 8 + 4 * le_val(data@.subrange(0, 8)) {
                let n = le_val(data@.subrange(0, 8));
                vstd::arithmetic::div_mod::lemma_fundamental_div_mod_converse(
                    rem as int,
                    4,
                    n,
                    0,
                );
            }
        }
        return None;
    }
    let n = rem / 4;
    proof {
        vstd::arithmetic::div_mod::lemma_fundamental_div_mod(rem as int, 4);
        vstd::arithmetic::div_mod::lemma_mod_bound(rem as int, 4);
        assert(4 * (n as int) == rem as int);
    }
    let mut out: Vec<i32> = Vec::new();
    let mut i: usize = 0;
    while i < n
        invariant
            data@.len() == 8 + 4 * (n as int),
            le_val(data@.subrange(0, 8)) == n as int,
            i <= n,
            out@.len() == i,
            forall|j: int|
                0 <= j < i ==> (#[trigger] out@[j]) as int == i32_val(
                    le_val(data@.subrange(8 + 4 * j, 12 + 4 * j)),
                ),
        decreases n - i,
    {
        proof {
            broadcast use vstd::std_specs::vec::axiom_spec_len;

            assert(data@.len() == vstd::std_specs::vec::spec_vec_len(data));
            vstd::arithmetic::mul::lemma_mul_inequality(i as int + 1, n as int, 4);
            vstd::arithmetic::mul::lemma_mul_is_commutative(i as int + 1, 4);
            vstd::arithmetic::mul::lemma_mul_is_commutative(n as int, 4);
            vstd::arithmetic::mul::lemma_mul_is_distributive_add(4, i as int, 1);
        }
        let base = 8 + 4 * i;
        let (u, _) = crate::bytes::read_u32(data, base).unwrap();
        let v: i32 = if u >= 0x8000_0000u32 {
            ((u as i64) - 0x1_0000_0000i64) as i32
        } else {
            u as i32
        };
        proof {
            crate::bytes::lemma_le_val_nonneg(data@.subrange(base as int, base as int + 4));
        }
        out.push(v);
        i = i + 1;
    }
    proof {
        let sp = sp_coeffs(data@).unwrap();
        assert(out@ =~= sp);
    }
    Some(out)
}

/// A container file loaded back into its parts.
pub struct LoadedQuadMind {
    /// Displayed width.
    pub width: u32,
    /// Displayed height.
    pub height: u32,
    /// Stored quality.
    pub quality: u32,
    /// Whether the planes are YCbCr.
    pub use_ycbcr: bool,
    /// Whether coding ran on a worker pool.
    pub use_threads: bool,
    /// Whether the fast kernels were used.
    pub use_fast_dct: bool,
    /// Whether the generated quantization family was used.
    pub use_gen_qtable: bool,
    /// The leaf geometry.
    pub quad_node_jpeg: Vec<QuadNodeJpeg>,
    /// The flat zig-zag coefficient stream.
    pub dct_zig_zag: Vec<i32>,
}

/// The bytes that saving a compression result produces: both payloads
/// packed, compressed and digested, framed by their markers.
pub open spec fn spec_save(
    leaves: Seq<QuadNodeJpeg>,
    coeffs: Seq<i32>,
    width: int,
    height: int,
    quality: int,
    use_ycbcr: bool,
    use_threads: bool,
    use_fast_dct: bool,
    use_gen_qtable: bool,
) -> Seq<u8> {
    ser_field(qm_magic()) + le_bytes(width, 4) + le_bytes(height, 4) + le_bytes(quality, 4) + seq![
        bool_byte(use_ycbcr),
        bool_byte(use_threads),
        bool_byte(use_fast_dct),
        bool_byte(use_gen_qtable),
    ] + le_bytes(2, 8) + (ser_field(marker_sqnj()) + ser_field(
        outside::sha512_of(ser_leaves(leaves)),
    ) + ser_field(outside::deflate_of(ser_leaves(leaves))) + ser_field(marker_eqnj())) + (ser_field(
        marker_sdct(),
    ) + ser_field(outside::sha512_of(ser_coeffs(coeffs))) + ser_field(
        outside::deflate_of(ser_coeffs(coeffs)),
    ) + ser_field(marker_edct()))
}

/// Serialize a compression result into container bytes: pack each
/// payload, digest it, compress it, and frame the two sections.
pub fn save_quad_mind(
    quad_node_jpeg: &Vec<QuadNodeJpeg>,
    dct_zig_zag: &Vec<i32>,
    width: u32,
    height: u32,
    quality: u32,
    use_ycbcr: bool,
    use_threads: bool,
    use_fast_dct: bool,
    use_gen_qtable: bool,
) -> (out: Vec<u8>)
    ensures
        out@ == spec_save(
            quad_node_jpeg@,
            dct_zig_zag@,
            width as int,
            height as int,
            quality as int,
            use_ycbcr,
            use_threads,
            use_fast_dct,
            use_gen_qtable,
        ),
        outside::inflate_of(outside::deflate_of(ser_leaves(quad_node_jpeg@))) == Some(
            ser_leaves(quad_node_jpeg@),
        ),
        outside::inflate_of(outside::deflate_of(ser_coeffs(dct_zig_zag@))) == Some(
            ser_coeffs(dct_zig_zag@),
        ),
        outside::sha512_of(ser_leaves(quad_node_jpeg@)).len() == 64,
        outside::sha512_of(ser_coeffs(dct_zig_zag@)).len() == 64,
        outside::deflate_of(ser_leaves(quad_node_jpeg@)).len() < 0x1_0000_0000_0000_0000,
        outside::deflate_of(ser_coeffs(dct_zig_zag@)).len() < 0x1_0000_0000_0000_0000,
{
    let raw_leaves = serialize_leaves(quad_node_jpeg);
    let sha_leaves = outside::sha512_digest(&raw_leaves);
    let comp_leaves = outside::deflate_compress(&raw_leaves);
    proof {
        broadcast use vstd::std_specs::vec::axiom_spec_len;

        assert(comp_leaves@.len() == vstd::std_specs::vec::spec_vec_len(&comp_leaves));
    }
    let data0 = QuadMindData::new(marker_bytes(0), sha_leaves, comp_leaves, marker_bytes(1));
    let raw_coeffs = serialize_coeffs(dct_zig_zag);
    let sha_coeffs = outside::sha512_digest(&raw_coeffs);
    let comp_coeffs = outside::deflate_compress(&raw_coeffs);
    proof {
        broadcast use vstd::std_specs::vec::axiom_spec_len;

        assert(comp_coeffs@.len() == vstd::std_specs::vec::spec_vec_len(&comp_coeffs));
    }
    let data1 = QuadMindData::new(marker_bytes(2), sha_coeffs, comp_coeffs, marker_bytes(3));
    let mut datas: Vec<QuadMindData> = Vec::new();
    datas.push(data0);
    datas.push(data1);
    let file = QuadMindFile::new(
        magic_bytes(),
        width,
        height,
        quality,
        use_ycbcr,
        use_threads,
        use_fast_dct,
        use_gen_qtable,
        datas,
    );
    let out = serialize_file(&file);
    proof {
        assert(out@ =~= spec_save(
            quad_node_jpeg@,
            dct_zig_zag@,
            width as int,
            height as int,
            quality as int,
            use_ycbcr,
            use_threads,
            use_fast_dct,
            use_gen_qtable,
        ));
    }
    out
}

/// What loading container bytes yields: the staged checks of the layout,
/// the magic, the markers, the compression, and the digests, in the order
/// the loader applies them.
pub open spec fn spec_load(s: Seq<u8>) -> Result<(FileModel, Seq<QuadNodeJpeg>, Seq<i32>), QuadMindError> {
    match spec_parse_file(s) {
        None => Err(QuadMindError::ContainerMalformed),
        Some(m) => if m.sig != qm_magic() {
            Err(QuadMindError::ContainerSignatureMismatch)
        } else if m.d0.start != marker_sqnj() || m.d0.end != marker_eqnj() {
            Err(QuadMindError::ContainerSignatureMismatch)
        } else {
            match outside::inflate_of(m.d0.data) {
                None => Err(QuadMindError::ContainerMalformed),
                Some(raw0) => if outside::sha512_of(raw0) != m.d0.sha {
                    Err(QuadMindError::ContainerIntegrityMismatch)
                } else {
                    match sp_leaves(raw0) {
                        None => Err(QuadMindError::ContainerMalformed),
                        Some(ls) => if m.d1.start != marker_sdct() || m.d1.end != marker_edct() {
                            Err(QuadMindError::ContainerSignatureMismatch)
                        } else {
                            match outside::inflate_of(m.d1.data) {
                                None => Err(QuadMindError::ContainerMalformed),
                                Some(raw1) => if outside::sha512_of(raw1) != m.d1.sha {
                                    Err(QuadMindError::ContainerIntegrityMismatch)
                                } else {
                                    match sp_coeffs(raw1) {
                                        None => Err(QuadMindError::ContainerMalformed),
                                        Some(cs) => Ok((m, ls, cs)),
                                    }
                                },
                            }
                        },
                    }
                },
            }
        },
    }
}

/// Compare two byte vectors.
fn bytes_eq(a: &Vec<u8>, b: &Vec<u8>) -> (r: bool)
    ensures
        r == (a@ == b@),
{
    if a.len() != b.len() {
        proof {
            assert(a@ != b@);
        }
        return false;
    }
    let mut i: usize = 0;
    while i < a.len()
        invariant
            a@.len() == b@.len(),
            i <= a@.len(),
            forall|j: int| 0 <= j < i ==> a@[j] == b@[j],
        decreases a@.len() - i,
    {
        if a[i] != b[i] {
            return false;
        }
        i = i + 1;
    }
    proof {
        assert(a@ =~= b@);
    }
    true
}

/// Load a container back into its parts, applying the integrity rules:
/// the magic and the section markers must match their literals, the
/// payloads must decompress, and each recomputed digest must equal the
/// stored one.
pub fn load_quad_mind(contents: &Vec<u8>) -> (r: Result<LoadedQuadMind, QuadMindError>)
    ensures
        (match r {
            Ok(out) => (spec_load(contents@) matches Ok(t) && out.width as int == t.0.width
                && out.height as int == t.0.height && out.quality as int == t.0.quality
                && out.use_ycbcr == t.0.use_ycbcr && out.use_threads == t.0.use_threads
                && out.use_fast_dct == t.0.use_fast_dct && out.use_gen_qtable == t.0.use_gen_qtable
                && out.quad_node_jpeg@ == t.1 && out.dct_zig_zag@ == t.2),
            Err(e) => spec_load(contents@) == Err::<
                (FileModel, Seq<QuadNodeJpeg>, Seq<i32>),
                QuadMindError,
            >(e),
        }),
{
    let f = match parse_file(contents) {
        Some(f) => f,
        None => {
            return Err(QuadMindError::ContainerMalformed);
        },
    };
    let magic = magic_bytes();
    if !bytes_eq(&f.signature, &magic) {
        return Err(QuadMindError::ContainerSignatureMismatch);
    }
    let sqnj = marker_bytes(0);
    let eqnj = marker_bytes(1);
    let sdct = marker_bytes(2);
    let edct = marker_bytes(3);
    let d0 = &f.quad_mind_datas[0];
    if !bytes_eq(&d0.start_signature, &sqnj) || !bytes_eq(&d0.end_signature, &eqnj) {
        return Err(QuadMindError::ContainerSignatureMismatch);
    }
    let raw0 = match outside::inflate_decompress(&d0.data) {
        Some(v) => v,
        None => {
            return Err(QuadMindError::ContainerMalformed);
        },
    };
    let digest0 = outside::sha512_digest(&raw0);
    if !bytes_eq(&digest0, &d0.sha512) {
        return Err(QuadMindError::ContainerIntegrityMismatch);
    }
    let leaves = match parse_leaves(&raw0) {
        Some(v) => v,
        None => {
            return Err(QuadMindError::ContainerMalformed);
        },
    };
    let d1 = &f.quad_mind_datas[1];
    if !bytes_eq(&d1.start_signature, &sdct) || !bytes_eq(&d1.end_signature, &edct) {
        return Err(QuadMindError::ContainerSignatureMismatch);
    }
    let raw1 = match outside::inflate_decompress(&d1.data) {
        Some(v) => v,
        None => {
            return Err(QuadMindError::ContainerMalformed);
        },
    };
    let digest1 = outside::sha512_digest(&raw1);
    if !bytes_eq(&digest1, &d1.sha512) {
        return Err(QuadMindError::ContainerIntegrityMismatch);
    }
    let coeffs = match parse_coeffs(&raw1) {
        Some(v) => v,
        None => {
            return Err(QuadMindError::ContainerMalformed);
        },
    };
    Ok(
        LoadedQuadMind {
            width: f.width,
            height: f.height,
            quality: f.quality,
            use_ycbcr: f.use_ycbcr,
            use_threads: f.use_threads,
            use_fast_dct: f.use_fast_dct,
            use_gen_qtable: f.use_gen_qtable,
            quad_node_jpeg: leaves,
            dct_zig_zag: coeffs,
        },
    )
}

/// The container round trip: saving a compression result and loading the
/// bytes back yields the inputs unchanged. The hypotheses are the two
/// facts the compression wrapper certifies of its own output.
pub proof fn lemma_container_round_trip(
    leaves: Seq<QuadNodeJpeg>,
    coeffs: Seq<i32>,
    width: int,
    height: int,
    quality: int,
    use_ycbcr: bool,
    use_threads: bool,
    use_fast_dct: bool,
    use_gen_qtable: bool,
)
    requires
        leaves.len() < 0x1_0000_0000_0000_0000,
        coeffs.len() < 0x1_0000_0000_0000_0000,
        0 <= width < 0x1_0000_0000,
        0 <= height < 0x1_0000_0000,
        0 <= quality < 0x1_0000_0000,
        outside::inflate_of(outside::deflate_of(ser_leaves(leaves))) == Some(ser_leaves(leaves)),
        outside::inflate_of(outside::deflate_of(ser_coeffs(coeffs))) == Some(ser_coeffs(coeffs)),
        outside::sha512_of(ser_leaves(leaves)).len() < 0x1_0000_0000_0000_0000,
        outside::sha512_of(ser_coeffs(coeffs)).len() < 0x1_0000_0000_0000_0000,
        outside::deflate_of(ser_leaves(leaves)).len() < 0x1_0000_0000_0000_0000,
        outside::deflate_of(ser_coeffs(coeffs)).len() < 0x1_0000_0000_0000_0000,
    ensures
        (spec_load(
            spec_save(
                leaves,
                coeffs,
                width,
                height,
                quality,
                use_ycbcr,
                use_threads,
                use_fast_dct,
                use_gen_qtable,
            ),
        ) matches Ok(t) && t.0.width == width && t.0.height == height && t.0.quality == quality
            && t.0.use_ycbcr == use_ycbcr && t.0.use_threads == use_threads && t.0.use_fast_dct
            == use_fast_dct && t.0.use_gen_qtable == use_gen_qtable && t.1 == leaves && t.2
            == coeffs),
{
    let fm = spec_file_of(
        leaves,
        coeffs,
        width,
        height,
        quality,
        use_ycbcr,
        use_threads,
        use_fast_dct,
        use_gen_qtable,
    );
    lemma_pow256_8();
    lemma_parse_ser_model(fm);
    lemma_parse_ser_leaves(leaves);
    lemma_parse_ser_coeffs(coeffs);
    assert(spec_save(
        leaves,
        coeffs,
        width,
        height,
        quality,
        use_ycbcr,
        use_threads,
        use_fast_dct,
        use_gen_qtable,
    ) =~= ser_file_m(fm));
}

/// The model the save path builds.
pub open spec fn spec_file_of(
    leaves: Seq<QuadNodeJpeg>,
    coeffs: Seq<i32>,
    width: int,
    height: int,
    quality: int,
    use_ycbcr: bool,
    use_threads: bool,
    use_fast_dct: bool,
    use_gen_qtable: bool,
) -> FileModel {
    FileModel {
        sig: qm_magic(),
        width,
        height,
        quality,
        use_ycbcr,
        use_threads,
        use_fast_dct,
        use_gen_qtable,
        d0: DataModel {
            start: marker_sqnj(),
            sha: outside::sha512_of(ser_leaves(leaves)),
            data: outside::deflate_of(ser_leaves(leaves)),
            end: marker_eqnj(),
        },
        d1: DataModel {
            start: marker_sdct(),
            sha: outside::sha512_of(ser_coeffs(coeffs)),
            data: outside::deflate_of(ser_coeffs(coeffs)),
            end: marker_edct(),
        },
    }
}

/// Build the leaf list of the adaptive codec against the original image,
/// then size and fill the working planes: the padded sizes are the root
/// square rounded up to the maximum block size.
pub fn render_quad_mind_prepare(
    my_image: &mut MyImage,
    quad_tree: &QuadTree,
    use_ycbcr: bool,
    subsampling_index: usize,
) -> (leaves: Vec<crate::quad_tree::QuadNode>)
    requires
        quad_tree.wf(),
        old(my_image).wf(),
    ensures
        final(my_image).wf(),
        final(my_image).planes_wf(),
        final(my_image).width == old(my_image).width,
        final(my_image).height == old(my_image).height,
        final(my_image).original_image == old(my_image).original_image,
        final(my_image).mwidth == final(my_image).mheight,
        final(my_image).mwidth % quad_tree.max_size == 0,
        crate::my_image::prepared_planes(
            *final(my_image),
            *old(my_image),
            use_ycbcr,
            subsampling_index as int,
        ),
        crate::quad_tree::leaves_geom(leaves@),
        crate::quad_tree::leaves_disjoint(leaves@),
        crate::quad_tree::leaves_sound(
            leaves@,
            0,
            leaves@.len() as int,
            old(my_image).original_image@,
            old(my_image).width as int,
            old(my_image).height as int,
        ),
        exists|root: crate::quad_tree::QuadNode|
            #[trigger] crate::quad_tree::leaves_tile(leaves@, 0, leaves@.len() as int, root)
                && root.box_left == 0 && root.box_top == 0 && root.box_right == root.box_bottom
                && mathx::is_pow2(root.box_right as int) && root.box_right
                >= final(my_image).width && root.box_bottom >= final(my_image).height
                && root.box_right <= final(my_image).mwidth && crate::quad_tree::leaves_pow2_sizes(
                leaves@,
                0,
                leaves@.len() as int,
                root,
                *quad_tree,
            ),
        forall|k: int|
            0 <= k < leaves@.len() ==> (#[trigger] leaves@[k]).box_right <= final(my_image).mwidth
                && leaves@[k].box_bottom <= final(my_image).mheight && leaves@[k].width_block_size
                >= 1 && leaves@[k].height_block_size >= 1,
{
    let mut original = Vec::new();
    let mut i: usize = 0;
    while i < my_image.original_image.len()
        invariant
            i <= my_image.original_image@.len(),
            original@ == my_image.original_image@.subrange(0, i as int),
            my_image == old(my_image),
        decreases my_image.original_image@.len() - i,
    {
        let b = my_image.original_image[i];
        original.push(b);
        i = i + 1;
        proof {
            assert(original@ =~= my_image.original_image@.subrange(0, i as int));
        }
    }
    proof {
        assert(original@ =~= my_image.original_image@);
    }
    my_image.final_image = original;
    let w = my_image.width;
    let h = my_image.height;
    let m = if w > h {
        w
    } else {
        h
    };
    let square_size = mathx::next_power_of_two_bounded(m);
    let root = crate::quad_tree::QuadNode::new(my_image, 0, 0, square_size, square_size, 0);
    let ghost groot = root;
    let mut leaves: Vec<crate::quad_tree::QuadNode> = Vec::new();
    crate::quad_tree::build_tree(quad_tree, root, &mut leaves, my_image);
    let max_size = quad_tree.max_size;
    proof {
        crate::lemma_round_up(square_size as nat, max_size as nat);
    }
    let padded = ((square_size + max_size - 1) / max_size) * max_size;
    my_image.mwidth = padded;
    my_image.mheight = padded;
    let ghost pre1 = *my_image;
    if use_ycbcr {
        my_image.image_to_ycbcr();
        let ghost conv = *my_image;
        my_image.fill_outbound();
        let ghost filled = *my_image;
        my_image.subsampling(true, subsampling_index);
        proof {
            crate::my_image::lemma_prepared_planes(
                pre1,
                conv,
                filled,
                *my_image,
                true,
                subsampling_index as int,
            );
            crate::my_image::lemma_prepared_transfer(
                *my_image,
                pre1,
                *old(my_image),
                true,
                subsampling_index as int,
            );
        }
    } else {
        my_image.image_to_rgb();
        let ghost conv = *my_image;
        my_image.fill_outbound();
        let ghost filled = *my_image;
        my_image.subsampling(false, subsampling_index);
        proof {
            crate::my_image::lemma_prepared_planes(
                pre1,
                conv,
                filled,
                *my_image,
                false,
                subsampling_index as int,
            );
            crate::my_image::lemma_prepared_transfer(
                *my_image,
                pre1,
                *old(my_image),
                false,
                subsampling_index as int,
            );
        }
    }
    proof {
        assert(crate::quad_tree::leaves_tile(leaves@, 0, leaves@.len() as int, groot));
        assert forall|k: int|
            0 <= k < leaves@.len() implies (#[trigger] leaves@[k]).box_right
            <= my_image.mwidth && leaves@[k].box_bottom <= my_image.mheight
            && leaves@[k].width_block_size >= 1 && leaves@[k].height_block_size >= 1 by {
            assert(crate::quad_tree::node_within(
                leaves@[k],
                groot.box_left as int,
                groot.box_top as int,
                groot.box_right as int,
                groot.box_bottom as int,
            ));
            assert(mathx::is_pow2(leaves@[k].width_block_size as int));
            mathx::lemma_pow2_pos(leaves@[k].width_block_size as int);
        }
    }
    leaves
}

/// The quantize, reorder and dequantize steps of one block of the
/// adaptive codec, between the two transform kernels: the zig-zag stream
/// records the plainly quantized coefficients, while the returned matrix
/// carries the dequantized ones for reconstruction, redone under the
/// per-column ramp when the compression-rate view is on.
pub fn quad_mind_steps(
    start_x: usize,
    jpeg_steps: &crate::jpeg::JpegSteps,
    dct_matrix: &Vec<i32>,
    q_matrix: &Vec<u32>,
    zig_zag_table: &Vec<usize>,
) -> (r: (Vec<i32>, Vec<i32>))
    requires
        jpeg_steps.wf(),
        crate::quant::q_wf(q_matrix@, jpeg_steps.block_size as int),
        jpeg_steps.use_compression_rate ==> forall|k: int|
            0 <= k < jpeg_steps.block_size * jpeg_steps.block_size ==> 1 <= (
            #[trigger] q_matrix@[k]) <= crate::quant::MAX_Q_BASE,
        dct_matrix@.len() == jpeg_steps.block_size * jpeg_steps.block_size,
        crate::zigzag::zz_table_wf(zig_zag_table@, jpeg_steps.block_size as int),
        start_x + jpeg_steps.block_size <= jpeg_steps.mwidth,
    ensures
        r.0@.len() == jpeg_steps.block_size * jpeg_steps.block_size,
        r.1@.len() == jpeg_steps.block_size * jpeg_steps.block_size,
        forall|yy: int, xx: int|
            0 <= yy < jpeg_steps.block_size && 0 <= xx < jpeg_steps.block_size ==> r.0@[(
            #[trigger] zig_zag_table@[yy * jpeg_steps.block_size + xx]) as int] as int
                == crate::quant::rdiv(
                dct_matrix@[yy * jpeg_steps.block_size + xx] as int,
                q_matrix@[yy * jpeg_steps.block_size + xx] as int,
            ),
        !jpeg_steps.use_compression_rate ==> forall|yy: int, xx: int|
            0 <= yy < jpeg_steps.block_size && 0 <= xx < jpeg_steps.block_size ==> (
            #[trigger] r.1@[yy * jpeg_steps.block_size + xx]) as int == crate::quant::dequant_val(
                crate::quant::rdiv(
                    dct_matrix@[yy * jpeg_steps.block_size + xx] as int,
                    q_matrix@[yy * jpeg_steps.block_size + xx] as int,
                ),
                q_matrix@[yy * jpeg_steps.block_size + xx] as int,
            ),
        jpeg_steps.use_compression_rate ==> forall|yy: int, xx: int|
            0 <= yy < jpeg_steps.block_size && 0 <= xx < jpeg_steps.block_size ==> (
            #[trigger] r.1@[yy * jpeg_steps.block_size + xx]) as int == crate::quant::dequant_val(
                crate::quant::rdiv(
                    dct_matrix@[yy * jpeg_steps.block_size + xx] as int,
                    jpeg_steps.q_step(q_matrix@, start_x as int, yy, xx),
                ),
                jpeg_steps.q_step(q_matrix@, start_x as int, yy, xx),
            ),
{
    let n = jpeg_steps.block_size;
    proof {
        vstd::arithmetic::mul::lemma_mul_upper_bound(n as int, 512, n as int, 512);
    }
    let mut plain = dct_matrix.clone();
    let ghost plain0 = plain@;
    proof {
        assert(plain@ =~= dct_matrix@);
    }
    let plain_steps = crate::jpeg::JpegSteps {
        use_compression_rate: false,
        ..*jpeg_steps
    };
    plain_steps.quantize_function(start_x, q_matrix, &mut plain);
    let zig = crate::zigzag::zig_zag_function(zig_zag_table, n, &plain);
    let deq = if jpeg_steps.use_compression_rate {
        let mut ramped = dct_matrix.clone();
        jpeg_steps.quantize_function(start_x, q_matrix, &mut ramped);
        jpeg_steps.de_quantize_function(start_x, q_matrix, &mut ramped);
        ramped
    } else {
        plain_steps.de_quantize_function(start_x, q_matrix, &mut plain);
        plain
    };
    proof {
        assert forall|yy: int, xx: int|
            0 <= yy < n && 0 <= xx < n implies zig@[(#[trigger] zig_zag_table@[yy * n + xx]) as int]
            as int == crate::quant::rdiv(
            dct_matrix@[yy * n + xx] as int,
            q_matrix@[yy * n + xx] as int,
        ) by {
            crate::lemma_pidx_bound(n as int, n as int, xx, yy);
        }
    }
    (zig, deq)
}

/// A leaf's geometry as a stored record: its corner and the base-two
/// logarithm of its size.
pub fn leaf_record(leaf: &crate::quad_tree::QuadNode) -> (r: QuadNodeJpeg)
    requires
        leaf.geom_wf(),
        mathx::is_pow2(leaf.width_block_size as int),
    ensures
        r.x == leaf.box_left,
        r.y == leaf.box_top,
        r.block_size < 64,
        vstd::arithmetic::power2::pow2(r.block_size as nat) == leaf.width_block_size,
{
    let mut size = leaf.width_block_size;
    let mut log: u8 = 0;
    proof {
        mathx::lemma_pow2_pos(leaf.width_block_size as int);
        vstd::arithmetic::power2::lemma2_to64();
    }
    let ghost target = leaf.width_block_size as int;
    while size >= 2
        invariant
            1 <= size,
            log < 64,
            mathx::is_pow2(size as int),
            vstd::arithmetic::power2::pow2(log as nat) * size as int == target,
            size <= 0x8000,
            1 <= target <= 0x8000,
        decreases size,
    {
        proof {
            mathx::lemma_pow2_halves(size as int);
            assert(vstd::arithmetic::power2::pow2((log + 1) as nat) == 2
                * vstd::arithmetic::power2::pow2(log as nat)) by {
                vstd::arithmetic::power2::lemma_pow2_unfold((log + 1) as nat);
            }
            assert(vstd::arithmetic::power2::pow2((log + 1) as nat) * (size as int / 2) == target)
                by (nonlinear_arith)
                requires
                    vstd::arithmetic::power2::pow2((log + 1) as nat) == 2
                        * vstd::arithmetic::power2::pow2(log as nat),
                    vstd::arithmetic::power2::pow2(log as nat) * size as int == target,
                    2 * (size as int / 2) == size as int,
            {}
            if log + 1 >= 64 {
                vstd::arithmetic::power2::lemma2_to64();
                vstd::arithmetic::power2::lemma_pow2_strictly_increases(15, log as nat);
                assert(vstd::arithmetic::power2::pow2(15) == 0x8000);
                vstd::arithmetic::mul::lemma_mul_inequality(
                    1,
                    size as int,
                    vstd::arithmetic::power2::pow2(log as nat) as int,
                );
                vstd::arithmetic::mul::lemma_mul_is_commutative(
                    size as int,
                    vstd::arithmetic::power2::pow2(log as nat) as int,
                );
                vstd::arithmetic::mul::lemma_mul_basics(
                    vstd::arithmetic::power2::pow2(log as nat) as int,
                );
                assert(false);
            }
        }
        size = size / 2;
        log = log + 1;
    }
    proof {
        vstd::arithmetic::mul::lemma_mul_basics(vstd::arithmetic::power2::pow2(log as nat) as int);
    }
    QuadNodeJpeg::new(leaf.box_left as u32, leaf.box_top as u32, log)
}

/// The block size a stored size logarithm denotes, zero when it is out of
/// the accepted range.
pub open spec fn size_of_log(b: int) -> int {
    if b == 1 {
        2
    } else if b == 2 {
        4
    } else if b == 3 {
        8
    } else if b == 4 {
        16
    } else if b == 5 {
        32
    } else if b == 6 {
        64
    } else if b == 7 {
        128
    } else if b == 8 {
        256
    } else if b == 9 {
        512
    } else {
        0
    }
}

/// Number of coefficients the first `k` stored leaves need: three planes
/// of a square block each.
pub open spec fn coeff_offset(ls: Seq<QuadNodeJpeg>, k: int) -> int
    decreases k,
{
    if k <= 0 {
        0
    } else {
        coeff_offset(ls, k - 1) + 3 * (size_of_log(ls[k - 1].block_size as int) * size_of_log(
            ls[k - 1].block_size as int,
        ))
    }
}

/// A stored leaf is usable: its size is accepted and its box stays in the
/// supported coordinate range.
pub open spec fn leaf_rec_ok(rec: QuadNodeJpeg) -> bool {
    &&& 1 <= rec.block_size <= 9
    &&& rec.x as int + size_of_log(rec.block_size as int) <= 2 * crate::MAX_DIM
    &&& rec.y as int + size_of_log(rec.block_size as int) <= 2 * crate::MAX_DIM
}

/// The first problem among the stored leaves, scanning in order: an
/// unsupported size or a box out of range.
pub open spec fn leaves_verdict(ls: Seq<QuadNodeJpeg>, k: int) -> Option<QuadMindError>
    decreases k,
{
    if k <= 0 {
        None
    } else {
        match leaves_verdict(ls, k - 1) {
            Some(e) => Some(e),
            None => if !(1 <= ls[k - 1].block_size <= 9) {
                Some(QuadMindError::UnsupportedBlockSize)
            } else if !(ls[k - 1].x as int + size_of_log(ls[k - 1].block_size as int) <= 2
                * crate::MAX_DIM && ls[k - 1].y as int + size_of_log(ls[k - 1].block_size as int)
                <= 2 * crate::MAX_DIM) {
                Some(QuadMindError::ContainerMalformed)
            } else {
                None
            },
        }
    }
}

/// Why a loaded container cannot be decoded, or nothing when it can: the
/// image geometry and quality must be in range, every leaf must be
/// usable, and the coefficient stream must hold exactly the number of
/// values the leaves need.
pub open spec fn decode_verdict(l: LoadedQuadMind) -> Option<QuadMindError> {
    if !(1 <= l.width <= crate::MAX_DIM && 1 <= l.height <= crate::MAX_DIM) {
        Some(QuadMindError::InvalidConfig)
    } else if !(1 <= l.quality <= 100) {
        Some(QuadMindError::InvalidConfig)
    } else {
        match leaves_verdict(l.quad_node_jpeg@, l.quad_node_jpeg@.len() as int) {
            Some(e) => Some(e),
            None => if l.dct_zig_zag@.len() != coeff_offset(
                l.quad_node_jpeg@,
                l.quad_node_jpeg@.len() as int,
            ) {
                Some(QuadMindError::ContainerMalformed)
            } else {
                None
            },
        }
    }
}

/// The furthest right edge among the first `k` stored leaves, or `base`
/// when none reaches past it.
pub open spec fn leaves_max_right(ls: Seq<QuadNodeJpeg>, k: int, base: int) -> int
    decreases k,
{
    if k <= 0 {
        base
    } else {
        let r = ls[k - 1].x as int + size_of_log(ls[k - 1].block_size as int);
        if r > leaves_max_right(ls, k - 1, base) {
            r
        } else {
            leaves_max_right(ls, k - 1, base)
        }
    }
}

/// The furthest bottom edge among the first `k` stored leaves, or `base`.
pub open spec fn leaves_max_bottom(ls: Seq<QuadNodeJpeg>, k: int, base: int) -> int
    decreases k,
{
    if k <= 0 {
        base
    } else {
        let b = ls[k - 1].y as int + size_of_log(ls[k - 1].block_size as int);
        if b > leaves_max_bottom(ls, k - 1, base) {
            b
        } else {
            leaves_max_bottom(ls, k - 1, base)
        }
    }
}

/// The largest block size among the first `k` stored leaves, at least the
/// smallest accepted size.
pub open spec fn leaves_max_size(ls: Seq<QuadNodeJpeg>, k: int) -> int
    decreases k,
{
    if k <= 0 {
        2
    } else {
        let n = size_of_log(ls[k - 1].block_size as int);
        if n > leaves_max_size(ls, k - 1) {
            n
        } else {
            leaves_max_size(ls, k - 1)
        }
    }
}

/// A loaded container turned back into per-leaf work items.
pub struct QuadMindDecoded {
    /// Each leaf's corner and block size.
    pub geometry: Vec<(usize, usize, usize)>,
    /// Three dequantized coefficient blocks per leaf, ready for the
    /// inverse transform.
    pub blocks: Vec<Vec<i32>>,
    /// Padded plane width.
    pub mwidth: usize,
    /// Padded plane height.
    pub mheight: usize,
    /// Largest block size among the leaves.
    pub max_size: usize,
}

/// Copy a range of a coefficient stream.
fn copy_range(v: &Vec<i32>, start: usize, len: usize) -> (r: Vec<i32>)
    requires
        start + len <= v@.len(),
    ensures
        r@ == v@.subrange(start as int, start as int + len),
{
    let mut r: Vec<i32> = Vec::new();
    let mut i: usize = 0;
    while i < len
        invariant
            start + len <= v@.len(),
            i <= len,
            r@.len() == i,
            forall|j: int| 0 <= j < i ==> r@[j] == v@[start + j],
        decreases len - i,
    {
        proof {
            broadcast use vstd::std_specs::vec::axiom_spec_len;

            assert(v@.len() == vstd::std_specs::vec::spec_vec_len(v));
        }
        r.push(v[start + i]);
        i = i + 1;
    }
    proof {
        assert(r@ =~= v@.subrange(start as int, start as int + len));
    }
    r
}

/// The dequantized value of the stored coefficient that the zig-zag order
/// puts at cell `(yy, xx)` of leaf `k`'s plane `p`.
pub open spec fn decoded_block_val(
    l: LoadedQuadMind,
    k: int,
    p: int,
    yy: int,
    xx: int,
) -> int {
    let n = size_of_log(l.quad_node_jpeg@[k].block_size as int);
    let base = if p == 0 {
        crate::quant::q_luma_base()
    } else {
        crate::quant::q_chroma_base()
    };
    crate::quant::dequant_val(
        l.dct_zig_zag@[coeff_offset(l.quad_node_jpeg@, k) + p * (n * n) + crate::zigzag::zz_pos(
            n,
            yy,
            xx,
        )] as int,
        crate::quant::scaled_q(
            crate::quant::q_gen_at(base, l.use_gen_qtable, yy, xx),
            crate::quant::quality_factor_centi(l.use_gen_qtable, l.quality as int),
        ),
    )
}

/// Turn a loaded container back into per-leaf dequantized blocks: check
/// its geometry, size the padded planes, and run the inverse zig-zag and
/// dequantization steps of every leaf.
pub fn decode_quad_mind_blocks(loaded: &LoadedQuadMind) -> (r: Result<
    QuadMindDecoded,
    QuadMindError,
>)
    ensures
        (match r {
            Err(e) => decode_verdict(*loaded) == Some(e),
            Ok(d) => {
                &&& decode_verdict(*loaded) is None
                &&& d.geometry@.len() == loaded.quad_node_jpeg@.len()
                &&& d.blocks@.len() == 3 * loaded.quad_node_jpeg@.len()
                &&& forall|k: int|
                    0 <= k < d.geometry@.len() ==> (#[trigger] d.geometry@[k]) == (
                    loaded.quad_node_jpeg@[k].x as usize,
                    loaded.quad_node_jpeg@[k].y as usize,
                    size_of_log(loaded.quad_node_jpeg@[k].block_size as int) as usize,
                )
                &&& forall|k: int, p: int|
                    0 <= k < d.geometry@.len() && 0 <= p < 3 ==> (#[trigger] d.blocks@[3 * k
                        + p])@.len() == d.geometry@[k].2 * d.geometry@[k].2
                &&& forall|k: int, p: int, yy: int, xx: int|
                    0 <= k < d.geometry@.len() && 0 <= p < 3 && 0 <= yy < d.geometry@[k].2 && 0
                        <= xx < d.geometry@[k].2 ==> (#[trigger] d.blocks@[3 * k + p])@[yy
                        * d.geometry@[k].2 + xx] as int == #[trigger] decoded_block_val(
                        *loaded,
                        k,
                        p,
                        yy,
                        xx,
                    )
                &&& loaded.width <= d.mwidth <= crate::MAX_PAD
                &&& loaded.height <= d.mheight <= crate::MAX_PAD
                &&& crate::quad_tree::accepted_block_size(d.max_size as int)
                &&& d.max_size as int == leaves_max_size(
                    loaded.quad_node_jpeg@,
                    loaded.quad_node_jpeg@.len() as int,
                )
                &&& d.mwidth as nat == crate::round_up(
                    leaves_max_right(
                        loaded.quad_node_jpeg@,
                        loaded.quad_node_jpeg@.len() as int,
                        loaded.width as int,
                    ) as nat,
                    d.max_size as nat,
                )
                &&& d.mheight as nat == crate::round_up(
                    leaves_max_bottom(
                        loaded.quad_node_jpeg@,
                        loaded.quad_node_jpeg@.len() as int,
                        loaded.height as int,
                    ) as nat,
                    d.max_size as nat,
                )
                &&& forall|k: int|
                    0 <= k < d.geometry@.len() ==> (#[trigger] d.geometry@[k]).0
                        + d.geometry@[k].2 <= d.mwidth && d.geometry@[k].1 + d.geometry@[k].2
                        <= d.mheight && 1 <= d.geometry@[k].2 <= 512
            },
        }),
{
    let w = loaded.width;
    let h = loaded.height;
    if !(1 <= w && w as usize <= crate::MAX_DIM && 1 <= h && h as usize <= crate::MAX_DIM) {
        return Err(QuadMindError::InvalidConfig);
    }
    if !(1 <= loaded.quality && loaded.quality <= 100) {
        return Err(QuadMindError::InvalidConfig);
    }
    let nleaves = loaded.quad_node_jpeg.len();
    let mut geometry: Vec<(usize, usize, usize)> = Vec::new();
    let mut max_size: usize = 2;
    let mut max_right: usize = w as usize;
    let mut max_bottom: usize = h as usize;
    let mut needed: u128 = 0;
    let mut k: usize = 0;
    while k < nleaves
        invariant
            nleaves == loaded.quad_node_jpeg@.len(),
            k <= nleaves,
            leaves_verdict(loaded.quad_node_jpeg@, k as int) is None,
            geometry@.len() == k,
            forall|j: int|
                0 <= j < k ==> (#[trigger] geometry@[j]) == (
                loaded.quad_node_jpeg@[j].x as usize,
                loaded.quad_node_jpeg@[j].y as usize,
                size_of_log(loaded.quad_node_jpeg@[j].block_size as int) as usize,
            ),
            forall|j: int|
                0 <= j < k ==> (#[trigger] geometry@[j]).0 + geometry@[j].2 <= max_right
                    && geometry@[j].1 + geometry@[j].2 <= max_bottom && 1 <= geometry@[j].2 <= 512,
            crate::quad_tree::accepted_block_size(max_size as int),
            loaded.width <= max_right <= 2 * crate::MAX_DIM,
            loaded.height <= max_bottom <= 2 * crate::MAX_DIM,
            max_right as int == leaves_max_right(
                loaded.quad_node_jpeg@,
                k as int,
                loaded.width as int,
            ),
            max_bottom as int == leaves_max_bottom(
                loaded.quad_node_jpeg@,
                k as int,
                loaded.height as int,
            ),
            max_size as int == leaves_max_size(loaded.quad_node_jpeg@, k as int),
            needed as int == coeff_offset(loaded.quad_node_jpeg@, k as int),
            needed <= (k as u128) * 0x100000,
            1 <= loaded.width <= crate::MAX_DIM,
            1 <= loaded.height <= crate::MAX_DIM,
            1 <= loaded.quality <= 100,
        decreases nleaves - k,
    {
        let rec = &loaded.quad_node_jpeg[k];
        if !(1 <= rec.block_size && rec.block_size <= 9) {
            proof {
                lemma_leaves_verdict_propagate(
                    loaded.quad_node_jpeg@,
                    k as int + 1,
                    nleaves as int,
                );
            }
            return Err(QuadMindError::UnsupportedBlockSize);
        }
        let size: usize = if rec.block_size == 1 {
            2
        } else if rec.block_size == 2 {
            4
        } else if rec.block_size == 3 {
            8
        } else if rec.block_size == 4 {
            16
        } else if rec.block_size == 5 {
            32
        } else if rec.block_size == 6 {
            64
        } else if rec.block_size == 7 {
            128
        } else if rec.block_size == 8 {
            256
        } else {
            512
        };
        if !(rec.x <= (2 * crate::MAX_DIM - size) as u32 && rec.y <= (2 * crate::MAX_DIM - size)
            as u32) {
            proof {
                lemma_leaves_verdict_propagate(
                    loaded.quad_node_jpeg@,
                    k as int + 1,
                    nleaves as int,
                );
            }
            return Err(QuadMindError::ContainerMalformed);
        }
        let x = rec.x as usize;
        let y = rec.y as usize;
        geometry.push((x, y, size));
        if x + size > max_right {
            max_right = x + size;
        }
        if y + size > max_bottom {
            max_bottom = y + size;
        }
        if size > max_size {
            max_size = size;
        }
        proof {
            vstd::arithmetic::mul::lemma_mul_upper_bound(size as int, 512, size as int, 512);
            assert(3 * ((size as int) * (size as int)) <= 0x100000) by (nonlinear_arith)
                requires
                    1 <= size as int <= 512,
            {}
            assert(((k as int) + 1) * 0x100000 == (k as int) * 0x100000 + 0x100000) by {
                vstd::arithmetic::mul::lemma_mul_is_distributive_add_other_way(
                    0x100000,
                    k as int,
                    1,
                );
            }
            vstd::arithmetic::mul::lemma_mul_upper_bound(
                (k as int) + 1,
                0x1_0000_0000_0000_0000,
                0x100000,
                0x100000,
            );
        }
        needed = needed + 3 * ((size as u128) * (size as u128));
        k = k + 1;
        proof {
            assert(needed as int == coeff_offset(loaded.quad_node_jpeg@, k as int));
        }
    }
    if (loaded.dct_zig_zag.len() as u128) != needed {
        return Err(QuadMindError::ContainerMalformed);
    }
    proof {
        crate::lemma_round_up(max_right as nat, max_size as nat);
        crate::lemma_round_up(max_bottom as nat, max_size as nat);
        crate::lemma_round_up_least(max_right as nat, max_size as nat, (2 * crate::MAX_DIM) as nat);
        crate::lemma_round_up_least(
            max_bottom as nat,
            max_size as nat,
            (2 * crate::MAX_DIM) as nat,
        );
        assert((2 * crate::MAX_DIM as int) % (max_size as int) == 0);
    }
    let mwidth = ((max_right + max_size - 1) / max_size) * max_size;
    let mheight = ((max_bottom + max_size - 1) / max_size) * max_size;
    let factor = crate::quant::quality_factor(loaded.use_gen_qtable, loaded.quality);
    let base_luma = crate::quant::q_matrix_luma_const();
    let base_chroma = crate::quant::q_matrix_chroma_const();
    proof {
        assert forall|j: int| 0 <= j < 64 implies 1 <= (#[trigger] base_luma@[j]) <= 128 by {
            assert(base_luma@[j] == crate::quant::q_luma_base()[j]);
        }
        assert forall|j: int| 0 <= j < 64 implies 1 <= (#[trigger] base_chroma@[j]) <= 128 by {
            assert(base_chroma@[j] == crate::quant::q_chroma_base()[j]);
        }
    }
    let mut blocks: Vec<Vec<i32>> = Vec::new();
    let mut offset: usize = 0;
    let mut k2: usize = 0;
    while k2 < nleaves
        invariant
            nleaves == loaded.quad_node_jpeg@.len(),
            k2 <= nleaves,
            geometry@.len() == nleaves,
            forall|j: int|
                0 <= j < nleaves ==> (#[trigger] geometry@[j]) == (
                loaded.quad_node_jpeg@[j].x as usize,
                loaded.quad_node_jpeg@[j].y as usize,
                size_of_log(loaded.quad_node_jpeg@[j].block_size as int) as usize,
            ),
            forall|j: int| 0 <= j < nleaves ==> 1 <= (#[trigger] geometry@[j]).2 <= 512,
            loaded.dct_zig_zag@.len() == coeff_offset(loaded.quad_node_jpeg@, nleaves as int),
            offset as int == coeff_offset(loaded.quad_node_jpeg@, k2 as int),
            blocks@.len() == 3 * k2,
            1 <= loaded.quality <= 100,
            factor as int == crate::quant::quality_factor_centi(
                loaded.use_gen_qtable,
                loaded.quality as int,
            ),
            factor <= crate::quant::MAX_FACTOR_CENTI,
            base_luma@ == crate::quant::q_luma_base(),
            base_chroma@ == crate::quant::q_chroma_base(),
            base_luma@.len() == 64,
            base_chroma@.len() == 64,
            forall|j: int| 0 <= j < 64 ==> 1 <= (#[trigger] base_luma@[j]) <= 128,
            forall|j: int| 0 <= j < 64 ==> 1 <= (#[trigger] base_chroma@[j]) <= 128,
            mwidth >= 512 || mwidth >= max_size,
            forall|j: int, p: int|
                0 <= j < k2 && 0 <= p < 3 ==> (#[trigger] blocks@[3 * j + p])@.len()
                    == geometry@[j].2 * geometry@[j].2,
            forall|j: int, p: int, yy: int, xx: int|
                0 <= j < k2 && 0 <= p < 3 && 0 <= yy < geometry@[j].2 && 0 <= xx < geometry@[j].2
                    ==> (#[trigger] blocks@[3 * j + p])@[yy * geometry@[j].2 + xx] as int
                    == #[trigger] decoded_block_val(*loaded, j, p, yy, xx),
        decreases nleaves - k2,
    {
        let g = geometry[k2];
        let n = g.2;
        proof {
            vstd::arithmetic::mul::lemma_mul_upper_bound(n as int, 512, n as int, 512);
            assert forall|j: int| 0 <= j < nleaves implies 1 <= size_of_log(
                (#[trigger] loaded.quad_node_jpeg@[j]).block_size as int,
            ) <= 512 by {
                assert(geometry@[j].2 == size_of_log(loaded.quad_node_jpeg@[j].block_size as int));
            }
            lemma_coeff_offset_bounds(loaded.quad_node_jpeg@, k2 as int, nleaves as int);
        }
        let nn = n * n;
        let q_luma0 = crate::quant::generate_q_matrix(&base_luma, n, loaded.use_gen_qtable);
        let mut q_luma = q_luma0;
        let q_chroma0 = crate::quant::generate_q_matrix(&base_chroma, n, loaded.use_gen_qtable);
        let mut q_chroma = q_chroma0;
        proof {
            assert forall|j: int| 0 <= j < n * n implies 1 <= (#[trigger] q_luma@[j]) <= 1024 by {
                crate::jpeg::lemma_q_entry_bound(q_luma@, n as int, j);
            }
            assert forall|j: int| 0 <= j < n * n implies 1 <= (#[trigger] q_chroma@[j]) <= 1024 by {
                crate::jpeg::lemma_q_entry_bound(q_chroma@, n as int, j);
            }
        }
        let ghost q_luma_pre = q_luma@;
        let ghost q_chroma_pre = q_chroma@;
        crate::quant::apply_q_matrix_factor(&mut q_luma, n, factor);
        crate::quant::apply_q_matrix_factor(&mut q_chroma, n, factor);
        proof {
            assert forall|yy: int, xx: int| 0 <= yy < n && 0 <= xx < n implies (
            #[trigger] q_luma@[yy * n + xx]) as int == crate::quant::scaled_q(
                crate::quant::q_gen_at(crate::quant::q_luma_base(), loaded.use_gen_qtable, yy, xx),
                factor as int,
            ) by {
                crate::lemma_pidx_bound(n as int, n as int, xx, yy);
            }
            assert forall|yy: int, xx: int| 0 <= yy < n && 0 <= xx < n implies (
            #[trigger] q_chroma@[yy * n + xx]) as int == crate::quant::scaled_q(
                crate::quant::q_gen_at(
                    crate::quant::q_chroma_base(),
                    loaded.use_gen_qtable,
                    yy,
                    xx,
                ),
                factor as int,
            ) by {
                crate::lemma_pidx_bound(n as int, n as int, xx, yy);
            }
        }
        let table = crate::zigzag::generate_zig_zag_table(n);
        let mut p: usize = 0;
        while p < 3
            invariant
                nleaves == loaded.quad_node_jpeg@.len(),
                k2 < nleaves,
                geometry@.len() == nleaves,
                g == geometry@[k2 as int],
                n == g.2,
                1 <= n <= 512,
                nn == n * n,
                forall|j: int|
                    0 <= j < nleaves ==> (#[trigger] geometry@[j]) == (
                    loaded.quad_node_jpeg@[j].x as usize,
                    loaded.quad_node_jpeg@[j].y as usize,
                    size_of_log(loaded.quad_node_jpeg@[j].block_size as int) as usize,
                ),
                forall|j: int| 0 <= j < nleaves ==> 1 <= (#[trigger] geometry@[j]).2 <= 512,
                loaded.dct_zig_zag@.len() == coeff_offset(loaded.quad_node_jpeg@, nleaves as int),
                offset as int == coeff_offset(loaded.quad_node_jpeg@, k2 as int),
                offset + 3 * nn <= loaded.dct_zig_zag@.len(),
                blocks@.len() == 3 * k2 + p,
                p <= 3,
                1 <= loaded.quality <= 100,
                factor as int == crate::quant::quality_factor_centi(
                    loaded.use_gen_qtable,
                    loaded.quality as int,
                ),
                crate::quant::q_wf(q_luma@, n as int),
                crate::quant::q_wf(q_chroma@, n as int),
                forall|yy: int, xx: int|
                    0 <= yy < n && 0 <= xx < n ==> (#[trigger] q_luma@[yy * n + xx]) as int
                        == crate::quant::scaled_q(
                        crate::quant::q_gen_at(
                            crate::quant::q_luma_base(),
                            loaded.use_gen_qtable,
                            yy,
                            xx,
                        ),
                        factor as int,
                    ),
                forall|yy: int, xx: int|
                    0 <= yy < n && 0 <= xx < n ==> (#[trigger] q_chroma@[yy * n + xx]) as int
                        == crate::quant::scaled_q(
                        crate::quant::q_gen_at(
                            crate::quant::q_chroma_base(),
                            loaded.use_gen_qtable,
                            yy,
                            xx,
                        ),
                        factor as int,
                    ),
                crate::zigzag::zz_table_wf(table@, n as int),
                forall|rr: int, cc: int|
                    0 <= rr < n && 0 <= cc < n ==> (#[trigger] table@[rr * n + cc]) as int
                        == crate::zigzag::zz_pos(n as int, rr, cc),
                forall|j: int, pp: int|
                    0 <= j < k2 && 0 <= pp < 3 ==> (#[trigger] blocks@[3 * j + pp])@.len()
                        == geometry@[j].2 * geometry@[j].2,
                forall|j: int, pp: int, yy: int, xx: int|
                    0 <= j < k2 && 0 <= pp < 3 && 0 <= yy < geometry@[j].2 && 0 <= xx
                        < geometry@[j].2 ==> (#[trigger] blocks@[3 * j + pp])@[yy
                        * geometry@[j].2 + xx] as int == #[trigger] decoded_block_val(
                        *loaded,
                        j,
                        pp,
                        yy,
                        xx,
                    ),
                forall|pp: int| 0 <= pp < p ==> (#[trigger] blocks@[3 * k2 + pp])@.len() == nn,
                forall|pp: int, yy: int, xx: int|
                    0 <= pp < p && 0 <= yy < n && 0 <= xx < n ==> (#[trigger] blocks@[3 * k2
                        + pp])@[yy * n + xx] as int == #[trigger] decoded_block_val(
                        *loaded,
                        k2 as int,
                        pp,
                        yy,
                        xx,
                    ),
            decreases 3 - p,
        {
            proof {
                broadcast use vstd::std_specs::vec::axiom_spec_len;

                assert(loaded.dct_zig_zag@.len() == vstd::std_specs::vec::spec_vec_len(
                    &loaded.dct_zig_zag,
                ));
                vstd::arithmetic::mul::lemma_mul_inequality(p as int, 2, nn as int);
            }
            let slice = copy_range(&loaded.dct_zig_zag, offset + p * nn, nn);
            let ghost gslice = slice@;
            let unz = crate::zigzag::un_zig_zag_function(&table, n, &slice);
            let ghost gunz = unz@;
            let steps = crate::jpeg::JpegSteps {
                mwidth: if n > 512 {
                    n
                } else {
                    512
                },
                block_size: n,
                block_size_index: 0,
                quality_start: 1,
                use_fast_dct: loaded.use_fast_dct,
                use_gen_qtable: loaded.use_gen_qtable,
                use_compression_rate: false,
            };
            let mut deq = unz;
            steps.de_quantize_function(0, if p == 0 {
                &q_luma
            } else {
                &q_chroma
            }, &mut deq);
            let ghost gdeq = deq@;
            blocks.push(deq);
            p = p + 1;
            proof {
                let pi = p as int - 1;
                assert forall|yy: int, xx: int|
                    0 <= yy < n && 0 <= xx < n implies gdeq[yy * n + xx] as int
                    == #[trigger] decoded_block_val(*loaded, k2 as int, pi, yy, xx) by {
                    crate::lemma_pidx_bound(n as int, n as int, xx, yy);
                    assert(table@[yy * n + xx] as int == crate::zigzag::zz_pos(n as int, yy, xx));
                    assert(gunz[yy * n + xx] == gslice[table@[yy * n + xx] as int]);
                    assert(gslice[table@[yy * n + xx] as int] == loaded.dct_zig_zag@[offset + pi
                        * nn + table@[yy * n + xx] as int]);
                }
                assert forall|pp: int, yy: int, xx: int|
                    0 <= pp < p && 0 <= yy < n && 0 <= xx < n implies (#[trigger] blocks@[3 * k2
                        + pp])@[yy * n + xx] as int == #[trigger] decoded_block_val(
                    *loaded,
                    k2 as int,
                    pp,
                    yy,
                    xx,
                ) by {
                    crate::lemma_pidx_bound(n as int, n as int, xx, yy);
                    if pp == pi {
                        assert(blocks@[3 * k2 + pp]@ == gdeq);
                    }
                }
            }
        }
        proof {
            broadcast use vstd::std_specs::vec::axiom_spec_len;

            assert(loaded.dct_zig_zag@.len() == vstd::std_specs::vec::spec_vec_len(
                &loaded.dct_zig_zag,
            ));
        }
        offset = offset + 3 * nn;
        k2 = k2 + 1;
        proof {
            assert(offset as int == coeff_offset(loaded.quad_node_jpeg@, k2 as int));
        }
    }
    proof {
        assert(decode_verdict(*loaded) is None);
    }
    Ok(
        QuadMindDecoded {
            geometry,
            blocks,
            mwidth,
            mheight,
            max_size,
        },
    )
}

/// Total length of the first `k` blocks of a list.
pub open spec fn blocks_len(bs: Seq<Seq<i32>>, k: int) -> int
    decreases k,
{
    if k <= 0 {
        0
    } else {
        blocks_len(bs, k - 1) + bs[k - 1].len()
    }
}

/// Flatten a list of per-block coefficient vectors into the single stream
/// the container stores, in list order.
pub fn flatten_coefficients(blocks: &Vec<Vec<i32>>) -> (r: Vec<i32>)
    ensures
        r@.len() == blocks_len(crate::jpeg::block_views(blocks@), blocks@.len() as int),
        forall|k: int, j: int|
            0 <= k < blocks@.len() && 0 <= j < blocks@[k]@.len() ==> #[trigger] r@[blocks_len(
                crate::jpeg::block_views(blocks@),
                k,
            ) + j] == (#[trigger] blocks@[k])@[j],
{
    let ghost views = crate::jpeg::block_views(blocks@);
    let mut r: Vec<i32> = Vec::new();
    let mut k: usize = 0;
    while k < blocks.len()
        invariant
            views == crate::jpeg::block_views(blocks@),
            k <= blocks@.len(),
            r@.len() == blocks_len(views, k as int),
            forall|m: int, j: int|
                0 <= m < k && 0 <= j < blocks@[m]@.len() ==> #[trigger] r@[blocks_len(views, m)
                    + j] == (#[trigger] blocks@[m])@[j],
        decreases blocks@.len() - k,
    {
        proof {
            lemma_blocks_len_nonneg(views, k as int);
        }
        crate::bytes::push_chunk_i32(&mut r, &blocks[k]);
        proof {
            let ki = k as int;
            assert(views[ki] == blocks@[ki]@);
            assert(r@.len() == blocks_len(views, ki + 1));
            assert forall|m: int, j: int|
                0 <= m < ki + 1 && 0 <= j < blocks@[m]@.len() implies #[trigger] r@[blocks_len(
                views,
                m,
            ) + j] == (#[trigger] blocks@[m])@[j] by {
                lemma_blocks_len_nonneg(views, m);
                if m < ki {
                    lemma_blocks_len_mono(views, m + 1, ki);
                    assert(blocks_len(views, m) + j < blocks_len(views, ki));
                }
            }
        }
        k = k + 1;
    }
    r
}

/// Block lengths accumulate to a non-negative total.
proof fn lemma_blocks_len_nonneg(bs: Seq<Seq<i32>>, k: int)
    ensures
        blocks_len(bs, k) >= 0,
    decreases k,
{
    if k > 0 {
        lemma_blocks_len_nonneg(bs, k - 1);
    }
}

/// Block offsets grow with the index.
proof fn lemma_blocks_len_mono(bs: Seq<Seq<i32>>, k: int, n: int)
    requires
        0 <= k <= n,
    ensures
        blocks_len(bs, k) <= blocks_len(bs, n),
    decreases n - k,
{
    if k < n {
        lemma_blocks_len_mono(bs, k, n - 1);
    }
}

/// A leaf problem found early stays the verdict for every longer scan.
proof fn lemma_leaves_verdict_propagate(ls: Seq<QuadNodeJpeg>, k: int, n: int)
    requires
        0 <= k <= n <= ls.len(),
        leaves_verdict(ls, k) is Some,
    ensures
        leaves_verdict(ls, n) == leaves_verdict(ls, k),
    decreases n - k,
{
    if k < n {
        lemma_leaves_verdict_propagate(ls, k + 1, n);
    }
}

/// The coefficient stream is long enough for every leaf's three planes.
proof fn lemma_coeff_offset_bounds(ls: Seq<QuadNodeJpeg>, k: int, n: int)
    requires
        0 <= k < n <= ls.len(),
        forall|j: int| 0 <= j < n ==> 1 <= size_of_log((#[trigger] ls[j]).block_size as int) <= 512,
    ensures
        coeff_offset(ls, k) + 3 * (size_of_log(ls[k].block_size as int) * size_of_log(
            ls[k].block_size as int,
        )) <= coeff_offset(ls, n),
        coeff_offset(ls, k) >= 0,
    decreases n - k,
{
    lemma_coeff_offset_nonneg(ls, k);
    if k + 1 < n {
        lemma_coeff_offset_bounds(ls, k + 1, n);
    }
}

/// Coefficient offsets never go negative.
proof fn lemma_coeff_offset_nonneg(ls: Seq<QuadNodeJpeg>, k: int)
    ensures
        coeff_offset(ls, k) >= 0,
    decreases k,
{
    if k > 0 {
        lemma_coeff_offset_nonneg(ls, k - 1);
        let sz = size_of_log(ls[k - 1].block_size as int);
        vstd::arithmetic::mul::lemma_mul_nonnegative(sz, sz);
    }
}

/// Disjoint square leaves stay disjoint as the corner-and-size triples
/// the plane assembler consumes: together with the order-freedom of
/// painting, the assembled planes do not depend on the order the leaf
/// blocks were produced in.
pub proof fn lemma_leaf_geometry_disjoint(
    leaves: Seq<crate::quad_tree::QuadNode>,
    geo: Seq<(usize, usize, usize)>,
    x: int,
    y: int,
)
    requires
        geo.len() == leaves.len(),
        forall|k: int|
            0 <= k < leaves.len() ==> (#[trigger] geo[k]).0 == leaves[k].box_left && geo[k].1
                == leaves[k].box_top && geo[k].2 == leaves[k].width_block_size,
        forall|k: int|
            0 <= k < leaves.len() ==> (#[trigger] leaves[k]).geom_wf()
                && leaves[k].width_block_size == leaves[k].height_block_size,
        crate::quad_tree::leaves_disjoint(leaves),
    ensures
        forall|k1: int, k2: int|
            0 <= k1 < geo.len() && 0 <= k2 < geo.len() && k1 != k2 ==> !(#[trigger] geo[k1].0 <= x
                < geo[k1].0 + geo[k1].2 && geo[k1].1 <= y < geo[k1].1 + geo[k1].2
                && #[trigger] geo[k2].0 <= x < geo[k2].0 + geo[k2].2 && geo[k2].1 <= y < geo[k2].1
                + geo[k2].2),
{
    assert forall|k1: int, k2: int|
        0 <= k1 < geo.len() && 0 <= k2 < geo.len() && k1 != k2 implies !(#[trigger] geo[k1].0 <= x
        < geo[k1].0 + geo[k1].2 && geo[k1].1 <= y < geo[k1].1 + geo[k1].2 && #[trigger] geo[k2].0
        <= x < geo[k2].0 + geo[k2].2 && geo[k2].1 <= y < geo[k2].1 + geo[k2].2) by {
        if geo[k1].0 <= x < geo[k1].0 + geo[k1].2 && geo[k1].1 <= y < geo[k1].1 + geo[k1].2
            && geo[k2].0 <= x < geo[k2].0 + geo[k2].2 && geo[k2].1 <= y < geo[k2].1 + geo[k2].2 {
            assert(crate::quad_tree::node_contains(leaves[k1], x, y));
            assert(crate::quad_tree::node_contains(leaves[k2], x, y));
        }
    }
}

} // verus!
