//! RSC7 paged-resource reader.
//!
//! An extracted RSC7 file is a 16-byte header (magic, version, system flags,
//! graphics flags) followed by a raw-deflate body holding the system segment
//! bytes followed by the graphics segment bytes.
//!
//! Pointers stored in the data are tagged 32-bit addresses: top nibble 0x5
//! selects the system segment, 0x6 the graphics segment, and the low 28 bits
//! give the byte offset within it. On PC pointers occupy 8 bytes but only the
//! low 32 bits carry meaning.

use vstd::prelude::*;
use std::io::Read;

verus! {

/// The little-endian word 'RSC7'.
pub const RSC7_MAGIC: u32 = 0x37435352;

/// Little-endian value of the first two bytes of `b`.
pub open spec fn le16(b: Seq<u8>) -> nat {
    b[0] as nat + 0x100 * (b[1] as nat)
}

/// Little-endian value of the first four bytes of `b`.
pub open spec fn le32(b: Seq<u8>) -> nat {
    b[0] as nat + 0x100 * (b[1] as nat) + 0x1_0000 * (b[2] as nat) + 0x100_0000 * (b[3] as nat)
}

/// Little-endian value of the first eight bytes of `b`.
pub open spec fn le64(b: Seq<u8>) -> nat {
    le32(b) + 0x1_0000_0000 * le32(b.subrange(4, 8))
}

pub fn read_le16(b: &[u8], o: usize) -> (r: u16)
    requires
        o + 2 <= b.len(),
    ensures
        r as nat == le16(b@.subrange(o as int, o + 2)),
{
    b[o] as u16 + 0x100 * (b[o + 1] as u16)
}

pub fn read_le32(b: &[u8], o: usize) -> (r: u32)
    requires
        o + 4 <= b.len(),
    ensures
        r as nat == le32(b@.subrange(o as int, o + 4)),
{
    b[o] as u32 + 0x100 * (b[o + 1] as u32) + 0x1_0000 * (b[o + 2] as u32) + 0x100_0000 * (
    b[o + 3] as u32)
}

pub fn read_le64(b: &[u8], o: usize) -> (r: u64)
    requires
        o + 8 <= b.len(),
    ensures
        r as nat == le64(b@.subrange(o as int, o + 8)),
{
    let lo = read_le32(b, o) as u64;
    let hi = read_le32(b, o + 4) as u64;
    assert(b@.subrange(o as int, o + 8).subrange(4, 8) =~= b@.subrange(o + 4, o + 8));
    assert(b@.subrange(o as int, o + 8).subrange(0, 4) =~= b@.subrange(o as int, o + 4));
    lo + 0x1_0000_0000 * hi
}

/// Byte size of a segment encoded in a flags word:
/// `(0x200 << (flags & 0xF))` times the weighted sum of the page-count fields.
pub open spec fn spec_size_from_flags(flags: u32) -> nat {
    let s0 = (flags / 0x800_0000) % 2;
    let s1 = (flags / 0x400_0000) % 2 * 2;
    let s2 = (flags / 0x200_0000) % 2 * 4;
    let s3 = (flags / 0x100_0000) % 2 * 8;
    let s4 = (flags / 0x2_0000) % 0x80 * 16;
    let s5 = (flags / 0x800) % 0x40 * 32;
    let s6 = (flags / 0x80) % 0x10 * 64;
    let s7 = (flags / 0x20) % 4 * 128;
    let s8 = (flags / 0x10) % 2 * 256;
    (0x200 * vstd::arithmetic::power2::pow2((flags % 16) as nat)) * (s0 + s1 + s2 + s3 + s4 + s5
        + s6 + s7 + s8) as nat
}


/// Segment size as a `u64` (it never exceeds 2^37).
fn flag_size(flags: u32) -> (r: u64)
    ensures
        r as nat == spec_size_from_flags(flags),
        r <= 0x100_0000 * 5663,
{
    let s0 = (flags / 0x800_0000) % 2;
    let s1 = (flags / 0x400_0000) % 2 * 2;
    let s2 = (flags / 0x200_0000) % 2 * 4;
    let s3 = (flags / 0x100_0000) % 2 * 8;
    let s4 = (flags / 0x2_0000) % 0x80 * 16;
    let s5 = (flags / 0x800) % 0x40 * 32;
    let s6 = (flags / 0x80) % 0x10 * 64;
    let s7 = (flags / 0x20) % 4 * 128;
    let s8 = (flags / 0x10) % 2 * 256;
    let ss = (flags % 16) as u64;
    proof {
        vstd::arithmetic::power2::lemma_pow2_pos(ss as nat);
        vstd::arithmetic::power2::lemma_pow2_strictly_increases(ss as nat, 16);
        vstd::arithmetic::power2::lemma2_to64();
        assert(0x200 * vstd::arithmetic::power2::pow2(ss as nat) <= u64::MAX);
        vstd::bits::lemma_u64_shl_is_mul(0x200, ss);
    }
    let base: u64 = 0x200u64 << ss;
    let sum = (s0 + s1 + s2 + s3 + s4 + s5 + s6 + s7 + s8) as u64;
    assert(sum <= 5663);
    assert(base <= 0x100_0000);
    assert(base * sum <= 0x100_0000 * 5663) by (nonlinear_arith)
        requires
            base <= 0x100_0000,
            sum <= 5663,
    ;
    base * sum
}

/// Decode a segment's byte size from its flags word.
pub fn size_from_flags(flags: u32) -> (r: usize)
    requires
        spec_size_from_flags(flags) <= usize::MAX,
    ensures
        r as nat == spec_size_from_flags(flags),
{
    flag_size(flags) as usize
}

/// Resource version: the top nibbles of the two flags words, system first.
pub open spec fn spec_version_from_flags(sys_flags: u32, gfx_flags: u32) -> nat {
    ((sys_flags / 0x1000_0000) * 16 + gfx_flags / 0x1000_0000) as nat
}

pub fn version_from_flags(sys_flags: u32, gfx_flags: u32) -> (r: u32)
    ensures
        r as nat == spec_version_from_flags(sys_flags, gfx_flags),
{
    let sv = sys_flags / 0x1000_0000;
    let gv = gfx_flags / 0x1000_0000;
    sv * 16 + gv
}


/// Which virtual-memory segment a tagged pointer addresses.
#[derive(Clone, Copy, Debug, PartialEq, Eq, Structural)]
pub enum Segment {
    System,
    Graphics,
}

/// Why a resource could not be read or decoded.
#[derive(Clone, Copy, Debug, PartialEq, Eq, Structural)]
pub enum DecodeError {
    /// The resource is shorter than its 16-byte header.
    TooSmall(usize),
    /// The first word is not 'RSC7'.
    BadMagic(u32),
    /// A segment size from the flags does not fit in `usize`.
    SizeOverflow,
    /// The body is not a valid raw-deflate stream.
    Inflate,
    /// Fewer bytes were inflated than the system segment needs.
    SystemTruncated { decompressed: usize, system: usize },
    /// A null pointer, or one that is not segment-tagged.
    InvalidPointer(u64),
    /// The requested bytes run past the end of the segment.
    OutOfBounds { ptr: u64, len: usize },
    /// A fragment yielded no geometry at all.
    NoGeometries,
    /// A geometry lacks its vertex or index buffer.
    MissingBuffers,
    /// A geometry's vertex stride is zero.
    ZeroStride,
    /// The vertex declaration places a decoded channel past the vertex stride.
    VertexLayout,
}

/// A decoded RSC7 resource: its header words and both segments.
pub struct Rsc7 {
    pub version: u32,
    pub system_flags: u32,
    pub graphics_flags: u32,
    /// Length of the compressed body (the resource minus its 16-byte header).
    pub compressed_len: usize,
    pub system: Vec<u8>,
    pub graphics: Vec<u8>,
}

/// The bytes that raw-deflate decompression of `body` yields, or `None` when
/// `body` is not a valid raw-deflate stream.
pub uninterp spec fn raw_inflate(body: Seq<u8>) -> Option<Seq<u8>>;

/// Inflates a raw-deflate stream with `flate2`'s `DeflateDecoder`, reading it
/// to the end. The contract claims only that the outcome is a function of the
/// input bytes, named `raw_inflate`.
#[verifier::external_body]
fn inflate(body: &[u8]) -> (res: Option<Vec<u8>>)
    ensures
        match res {
            Some(v) => raw_inflate(body@) == Some(v@),
            None => raw_inflate(body@) is None,
        },
{
    let mut data = Vec::new();
    match flate2::read::DeflateDecoder::new(body).read_to_end(&mut data) {
        Ok(_) => Some(data),
        Err(_) => None,
    }
}

/// What `String::from_utf8_lossy` makes of `bytes`.
pub uninterp spec fn utf8_lossy(bytes: Seq<u8>) -> Seq<char>;

/// `String::from_utf8_lossy(bytes).into_owned()`: the contract names the
/// result and states what the standard documentation promises: valid UTF-8
/// input is decoded unchanged, and otherwise each invalid sequence becomes
/// U+FFFD while the rest is decoded, so a NUL character comes only from a zero
/// byte.
#[verifier::external_body]
fn lossy_string(bytes: &[u8]) -> (res: String)
    ensures
        res@ == utf8_lossy(bytes@),
        vstd::utf8::valid_utf8(bytes@) ==> res@ == vstd::utf8::decode_utf8(bytes@),
        !bytes@.contains(0u8) ==> !res@.contains('\0'),
{
    String::from_utf8_lossy(bytes).into_owned()
}

/// The segment tag and offset a pointer denotes: `None` for null and for
/// pointers whose low word is not tagged 0x5 (system) or 0x6 (graphics).
pub open spec fn spec_classify(ptr: u64) -> Option<(Segment, usize)> {
    if ptr == 0 {
        None
    } else {
        let p = ptr % 0x1_0000_0000;
        let tag = p / 0x1000_0000;
        let off = (p % 0x1000_0000) as usize;
        if tag == 5 {
            Some((Segment::System, off))
        } else if tag == 6 {
            Some((Segment::Graphics, off))
        } else {
            None
        }
    }
}

/// The pointer `ptr + off`, wrapping around at 2^64.
pub open spec fn ptr_add(ptr: u64, off: usize) -> u64 {
    if ptr + off > u64::MAX {
        (ptr + off - 0x1_0000_0000_0000_0000) as u64
    } else {
        (ptr + off) as u64
    }
}

/// The bytes of `seg` from `off` up to (not including) the first NUL byte or
/// the end of the segment.
pub open spec fn c_string(seg: Seq<u8>, off: nat) -> Seq<u8>
    decreases seg.len() - off,
{
    if off >= seg.len() || seg[off as int] == 0 {
        Seq::empty()
    } else {
        seq![seg[off as int]] + c_string(seg, off + 1)
    }
}

proof fn lemma_c_string_no_nul(seg: Seq<u8>, off: nat)
    ensures
        !c_string(seg, off).contains(0u8),
    decreases seg.len() - off,
{
    if !(off >= seg.len() || seg[off as int] == 0) {
        lemma_c_string_no_nul(seg, off + 1);
        let t = c_string(seg, off + 1);
        assert forall|i: int| 0 <= i < c_string(seg, off).len() implies c_string(seg, off)[i] != 0u8 by {
            if i > 0 {
                assert(c_string(seg, off)[i] == t[i - 1]);
            }
        }
    }
}

/// Largest length a read can have: its byte count must fit in a `usize`.
pub open spec fn max_read() -> nat {
    usize::MAX as nat
}

impl Rsc7 {
    pub open spec fn seg_bytes(&self, s: Segment) -> Seq<u8> {
        match s {
            Segment::System => self.system@,
            Segment::Graphics => self.graphics@,
        }
    }

    /// The `len` bytes at tagged pointer `ptr`.
    pub open spec fn spec_at(&self, ptr: u64, len: nat) -> Result<Seq<u8>, DecodeError> {
        match spec_classify(ptr) {
            None => Err(DecodeError::InvalidPointer(ptr)),
            Some((s, off)) => {
                let seg = self.seg_bytes(s);
                if off + len <= seg.len() {
                    Ok(seg.subrange(off as int, off + len))
                } else {
                    Err(DecodeError::OutOfBounds { ptr, len: len as usize })
                }
            },
        }
    }

    pub open spec fn spec_u8_at(&self, ptr: u64, off: usize) -> Result<u8, DecodeError> {
        match self.spec_at(ptr_add(ptr, off), 1) {
            Ok(b) => Ok(b[0]),
            Err(e) => Err(e),
        }
    }

    pub open spec fn spec_u16_at(&self, ptr: u64, off: usize) -> Result<u16, DecodeError> {
        match self.spec_at(ptr_add(ptr, off), 2) {
            Ok(b) => Ok(le16(b) as u16),
            Err(e) => Err(e),
        }
    }

    pub open spec fn spec_u32_at(&self, ptr: u64, off: usize) -> Result<u32, DecodeError> {
        match self.spec_at(ptr_add(ptr, off), 4) {
            Ok(b) => Ok(le32(b) as u32),
            Err(e) => Err(e),
        }
    }

    pub open spec fn spec_u64_at(&self, ptr: u64, off: usize) -> Result<u64, DecodeError> {
        match self.spec_at(ptr_add(ptr, off), 8) {
            Ok(b) => Ok(le64(b) as u64),
            Err(e) => Err(e),
        }
    }

    /// `count` consecutive little-endian u64 pointers at `ptr`.
    pub open spec fn spec_ptr_array(&self, ptr: u64, count: nat) -> Result<Seq<u64>, DecodeError> {
        match self.spec_at(ptr, count * 8) {
            Ok(b) => Ok(Seq::new(count, |i: int| le64(b.subrange(8 * i, 8 * i + 8)) as u64)),
            Err(e) => Err(e),
        }
    }

    /// The NUL-terminated string at a tagged pointer (empty for an untagged one).
    /// The bytes of the null-terminated string a tagged pointer points at.
    pub open spec fn spec_c_bytes(&self, ptr: u64) -> Seq<u8> {
        match spec_classify(ptr) {
            None => Seq::empty(),
            Some((s, off)) => c_string(self.seg_bytes(s), off as nat),
        }
    }

    pub open spec fn spec_str_at(&self, ptr: u64) -> Seq<char> {
        match spec_classify(ptr) {
            None => Seq::empty(),
            Some((s, off)) => utf8_lossy(c_string(self.seg_bytes(s), off as nat)),
        }
    }

    fn seg(&self, s: Segment) -> (r: &[u8])
        ensures
            r@ == self.seg_bytes(s),
    {
        match s {
            Segment::System => self.system.as_slice(),
            Segment::Graphics => self.graphics.as_slice(),
        }
    }

    /// Classify a tagged pointer. Returns None for null (0).
    pub fn classify(ptr: u64) -> (r: Option<(Segment, usize)>)
        ensures
            r == spec_classify(ptr),
    {
        if ptr == 0 {
            return None;
        }
        let p = ptr % 0x1_0000_0000;
        let seg = p / 0x1000_0000;
        let off = (p % 0x1000_0000) as usize;
        if seg == 5 {
            Some((Segment::System, off))
        } else if seg == 6 {
            Some((Segment::Graphics, off))
        } else {
            None
        }
    }

    /// Borrow a slice of `len` bytes at a tagged pointer.
    pub fn at(&self, ptr: u64, len: usize) -> (res: Result<&[u8], DecodeError>)
        ensures
            match res {
                Ok(b) => self.spec_at(ptr, len as nat) == Ok::<Seq<u8>, DecodeError>(b@),
                Err(e) => self.spec_at(ptr, len as nat) == Err::<Seq<u8>, DecodeError>(e),
            },
    {
        let (s, off) = match Self::classify(ptr) {
            Some(v) => v,
            None => return Err(DecodeError::InvalidPointer(ptr)),
        };
        let seg = self.seg(s);
        if len <= seg.len() && off <= seg.len() - len {
            Ok(vstd::slice::slice_subrange(seg, off, off + len))
        } else {
            Err(DecodeError::OutOfBounds { ptr, len })
        }
    }

    /// Little-endian u16 at `ptr + off`.
    pub fn u16_at(&self, ptr: u64, off: usize) -> (res: Result<u16, DecodeError>)
        ensures
            res == self.spec_u16_at(ptr, off),
    {
        let b = self.at(ptr.wrapping_add(off as u64), 2)?;
        Ok(read_le16(b, 0))
    }

    /// Little-endian u32 at `ptr + off`.
    pub fn u32_at(&self, ptr: u64, off: usize) -> (res: Result<u32, DecodeError>)
        ensures
            res == self.spec_u32_at(ptr, off),
    {
        let b = self.at(ptr.wrapping_add(off as u64), 4)?;
        Ok(read_le32(b, 0))
    }

    /// Little-endian u64 at `ptr + off`.
    pub fn u64_at(&self, ptr: u64, off: usize) -> (res: Result<u64, DecodeError>)
        ensures
            res == self.spec_u64_at(ptr, off),
    {
        let b = self.at(ptr.wrapping_add(off as u64), 8)?;
        Ok(read_le64(b, 0))
    }

    /// The byte at `ptr + off`.
    pub fn u8_at(&self, ptr: u64, off: usize) -> (res: Result<u8, DecodeError>)
        ensures
            res == self.spec_u8_at(ptr, off),
    {
        let b = self.at(ptr.wrapping_add(off as u64), 1)?;
        Ok(b[0])
    }

    /// Read a null-terminated string at a tagged pointer (empty for a null or
    /// untagged pointer, and for an offset past the end of its segment).
    pub fn str_at(&self, ptr: u64) -> (res: String)
        ensures
            res@ == self.spec_str_at(ptr),
            spec_classify(ptr) is Some && vstd::utf8::valid_utf8(self.spec_c_bytes(ptr)) ==> res@
                == vstd::utf8::decode_utf8(self.spec_c_bytes(ptr)),
            !res@.contains('\0'),
    {
        let (s, off) = match Self::classify(ptr) {
            Some(v) => v,
            None => return String::new(),
        };
        let seg = self.seg(s);
        if off > seg.len() {
            proof {
                assert(c_string(seg@, off as nat) =~= Seq::<u8>::empty());
            }
            let empty = vstd::slice::slice_subrange(seg, 0, 0);
            assert(empty@ =~= Seq::<u8>::empty());
            return lossy_string(empty);
        }
        let mut end = off;
        while end < seg.len() && seg[end] != 0
            invariant
                off <= end <= seg@.len(),
                c_string(seg@, off as nat) =~= seg@.subrange(off as int, end as int) + c_string(
                    seg@,
                    end as nat,
                ),
            decreases seg@.len() - end,
        {
            proof {
                assert(seg@.subrange(off as int, end + 1) =~= seg@.subrange(off as int, end as int)
                    + seq![seg@[end as int]]);
            }
            end += 1;
        }
        proof {
            assert(c_string(seg@, end as nat) =~= Seq::<u8>::empty());
            lemma_c_string_no_nul(seg@, off as nat);
            assert(seg@.subrange(off as int, end as int) =~= c_string(seg@, off as nat));
        }
        lossy_string(vstd::slice::slice_subrange(seg, off, end))
    }

    /// Read `count` consecutive u64 pointers starting at a tagged pointer.
    pub fn ptr_array(&self, ptr: u64, count: usize) -> (res: Result<Vec<u64>, DecodeError>)
        requires
            count * 8 <= max_read(),
        ensures
            match res {
                Ok(v) => self.spec_ptr_array(ptr, count as nat) == Ok::<Seq<u64>, DecodeError>(v@),
                Err(e) => self.spec_ptr_array(ptr, count as nat) == Err::<Seq<u64>, DecodeError>(e),
            },
    {
        let bytes = self.at(ptr, count * 8)?;
        let mut out: Vec<u64> = Vec::with_capacity(count);
        let mut i: usize = 0;
        while i < count
            invariant
                i <= count,
                count * 8 <= max_read(),
                bytes@.len() == count * 8,
                out@.len() == i,
                forall|j: int|
                    0 <= j < i ==> out@[j] as nat == le64(
                        #[trigger] bytes@.subrange(8 * j, 8 * j + 8),
                    ),
            decreases count - i,
        {
            assert(8 * i + 8 <= 8 * count) by (nonlinear_arith)
                requires
                    i < count,
            ;
            let v = read_le64(bytes, 8 * i);
            out.push(v);
            i += 1;
        }
        proof {
            let ghost spec = Seq::new(count as nat, |k: int| le64(bytes@.subrange(8 * k, 8 * k + 8)) as u64);
            assert(out@ =~= spec);
        }
        Ok(out)
    }
}

/// The inflated body of a well-formed resource, or the error that stops it.
pub open spec fn spec_inflated_body(rsc: Seq<u8>) -> Result<Seq<u8>, DecodeError> {
    if rsc.len() < 16 {
        Err(DecodeError::TooSmall(rsc.len() as usize))
    } else if le32(rsc.subrange(0, 4)) != RSC7_MAGIC {
        Err(DecodeError::BadMagic(le32(rsc.subrange(0, 4)) as u32))
    } else if spec_size_from_flags(le32(rsc.subrange(8, 12)) as u32) + spec_size_from_flags(
        le32(rsc.subrange(12, 16)) as u32,
    ) > usize::MAX {
        Err(DecodeError::SizeOverflow)
    } else {
        match raw_inflate(rsc.subrange(16, rsc.len() as int)) {
            None => Err(DecodeError::Inflate),
            Some(data) => {
                let sys = spec_size_from_flags(le32(rsc.subrange(8, 12)) as u32);
                if data.len() < sys {
                    Err(DecodeError::SystemTruncated { decompressed: data.len() as usize, system: sys as usize })
                } else {
                    Ok(data)
                }
            },
        }
    }
}

/// What parsing the resource bytes `rsc` gives: the error that stops it, or
/// a resource with the header's words and the segments cut from the
/// inflated body.
pub open spec fn parse_outcome(rsc: Seq<u8>, res: Result<Rsc7, DecodeError>) -> bool {
    match spec_inflated_body(rsc) {
        Err(e) => res == Err::<Rsc7, DecodeError>(e),
        Ok(data) => res matches Ok(r) && Rsc7::assembled(
            r,
            le32(rsc.subrange(4, 8)) as u32,
            le32(rsc.subrange(8, 12)) as u32,
            le32(rsc.subrange(12, 16)) as u32,
            (rsc.len() - 16) as usize,
            data,
        ),
    }
}

impl Rsc7 {
    /// `r` holds the given header words and the segments cut from `data`: the
    /// first `size(system_flags)` bytes are the system segment, the next
    /// `size(graphics_flags)` bytes (or all that remain, if fewer) the
    /// graphics segment.
    pub open spec fn assembled(
        r: Rsc7,
        version: u32,
        system_flags: u32,
        graphics_flags: u32,
        compressed_len: usize,
        data: Seq<u8>,
    ) -> bool {
        let sys = spec_size_from_flags(system_flags);
        let gfx = spec_size_from_flags(graphics_flags);
        &&& r.version == version
        &&& r.system_flags == system_flags
        &&& r.graphics_flags == graphics_flags
        &&& r.compressed_len == compressed_len
        &&& r.system@ == data.subrange(0, sys as int)
        &&& r.graphics@ == if data.len() >= sys + gfx {
            data.subrange(sys as int, (sys + gfx) as int)
        } else {
            data.subrange(sys as int, data.len() as int)
        }
    }

    /// Split an inflated body into its two segments.
    pub fn from_inflated(
        version: u32,
        system_flags: u32,
        graphics_flags: u32,
        compressed_len: usize,
        data: Vec<u8>,
    ) -> (res: Result<Rsc7, DecodeError>)
        requires
            spec_size_from_flags(system_flags) + spec_size_from_flags(graphics_flags) <= usize::MAX,
        ensures
            data@.len() < spec_size_from_flags(system_flags) ==> res == Err::<Rsc7, DecodeError>(
                DecodeError::SystemTruncated {
                    decompressed: data@.len() as usize,
                    system: spec_size_from_flags(system_flags) as usize,
                },
            ),
            data@.len() >= spec_size_from_flags(system_flags) ==> (res matches Ok(r)
                && Self::assembled(r, version, system_flags, graphics_flags, compressed_len, data@)),
    {
        let sys_size = size_from_flags(system_flags);
        let gfx_size = size_from_flags(graphics_flags);
        let mut data = data;
        if data.len() < sys_size {
            return Err(DecodeError::SystemTruncated { decompressed: data.len(), system: sys_size });
        }
        let ghost all = data@;
        let mut graphics = data.split_off(sys_size);
        if graphics.len() >= gfx_size {
            graphics.truncate(gfx_size);
            assert(graphics@ =~= all.subrange(sys_size as int, sys_size + gfx_size));
        } else {
            assert(graphics@ =~= all.subrange(sys_size as int, all.len() as int));
        }
        Ok(Rsc7 { version, system_flags, graphics_flags, compressed_len, system: data, graphics })
    }

    /// Parse an extracted RSC7 resource: check the header, inflate the body
    /// and split it into segments.
    pub fn parse(rsc: &[u8]) -> (res: Result<Rsc7, DecodeError>)
        ensures
            parse_outcome(rsc@, res),
    {
        if rsc.len() < 16 {
            return Err(DecodeError::TooSmall(rsc.len()));
        }
        let magic = read_le32(rsc, 0);
        if magic != RSC7_MAGIC {
            return Err(DecodeError::BadMagic(magic));
        }
        let version = read_le32(rsc, 4);
        let system_flags = read_le32(rsc, 8);
        let graphics_flags = read_le32(rsc, 12);
        let sys = flag_size(system_flags);
        let gfx = flag_size(graphics_flags);
        if sys + gfx > usize::MAX as u64 {
            return Err(DecodeError::SizeOverflow);
        }
        let body = vstd::slice::slice_subrange(rsc, 16, rsc.len());
        let data = match inflate(body) {
            Some(d) => d,
            None => return Err(DecodeError::Inflate),
        };
        Self::from_inflated(version, system_flags, graphics_flags, body.len(), data)
    }
}

// ---- properties ---------------------------------------------------------------------

/// Only the low 32 bits of a pointer carry meaning: a pointer classifies as
/// its low word does.
pub proof fn classify_reads_low_word(ptr: u64)
    ensures
        spec_classify(ptr) == spec_classify((ptr % 0x1_0000_0000) as u64),
{
    let low = (ptr % 0x1_0000_0000) as u64;
    assert(low % 0x1_0000_0000 == low);
    if ptr != 0 && low == 0 {
        assert(low / 0x1000_0000 == 0);
    }
}

/// A pointer tagged 0x5 in its top nibble names the system segment, one
/// tagged 0x6 the graphics segment, at the offset held in the low 28 bits.
pub proof fn classify_tagged(off: u64)
    requires
        off < 0x1000_0000,
    ensures
        spec_classify((0x5000_0000 + off) as u64) == Some((Segment::System, off as usize)),
        spec_classify((0x6000_0000 + off) as u64) == Some((Segment::Graphics, off as usize)),
{
}

/// A parsed resource's system segment has exactly the size its flags give;
/// its graphics segment has at most the size its flags give.
pub proof fn parsed_segment_sizes(rsc: Seq<u8>, r: Rsc7)
    requires
        spec_inflated_body(rsc) matches Ok(data) && Rsc7::assembled(
            r,
            le32(rsc.subrange(4, 8)) as u32,
            le32(rsc.subrange(8, 12)) as u32,
            le32(rsc.subrange(12, 16)) as u32,
            (rsc.len() - 16) as usize,
            data,
        ),
    ensures
        r.system@.len() == spec_size_from_flags(r.system_flags),
        r.graphics@.len() <= spec_size_from_flags(r.graphics_flags),
{
}

} // verus!
