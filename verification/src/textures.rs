//! `.ytd` texture dictionaries decoded to RGBA8.

use vstd::prelude::*;
use crate::rsc7::{DecodeError, Rsc7, le32, read_le32};
use crate::yft::ROOT;
use crate::text::{chars_of, string_from_chars};

verus! {

/// Pixel formats of grcTexture (D3D format codes).
#[derive(Clone, Copy, Debug, PartialEq, Eq, Structural)]
pub enum TextureFormat {
    DXT1,
    DXT3,
    DXT5,
    ATI1,
    ATI2,
    BC7,
    A8R8G8B8,
    X8R8G8B8,
    A1R5G5B5,
    A8,
    A8B8G8R8,
    L8,
    Unknown(u32),
}

/// A decoded texture: `width * height` RGBA8 pixels, row by row.
pub struct DecodedTexture {
    pub name: String,
    pub width: u32,
    pub height: u32,
    pub format: TextureFormat,
    pub rgba: Vec<u8>,
}


impl TextureFormat {
    /// The format named by a grcTexture format word (D3D format codes and
    /// FourCCs); any other word is kept as `Unknown`.
    pub open spec fn spec_from_u32(v: u32) -> TextureFormat {
        if v == 0x31545844 {
            TextureFormat::DXT1
        } else if v == 0x33545844 {
            TextureFormat::DXT3
        } else if v == 0x35545844 {
            TextureFormat::DXT5
        } else if v == 0x31495441 {
            TextureFormat::ATI1
        } else if v == 0x32495441 {
            TextureFormat::ATI2
        } else if v == 0x20374342 {
            TextureFormat::BC7
        } else if v == 21 {
            TextureFormat::A8R8G8B8
        } else if v == 22 {
            TextureFormat::X8R8G8B8
        } else if v == 25 {
            TextureFormat::A1R5G5B5
        } else if v == 28 {
            TextureFormat::A8
        } else if v == 32 {
            TextureFormat::A8B8G8R8
        } else if v == 50 {
            TextureFormat::L8
        } else {
            TextureFormat::Unknown(v)
        }
    }

    pub fn from_u32(v: u32) -> (f: TextureFormat)
        ensures
            f == Self::spec_from_u32(v),
    {
        if v == 0x31545844 {
            TextureFormat::DXT1
        } else if v == 0x33545844 {
            TextureFormat::DXT3
        } else if v == 0x35545844 {
            TextureFormat::DXT5
        } else if v == 0x31495441 {
            TextureFormat::ATI1
        } else if v == 0x32495441 {
            TextureFormat::ATI2
        } else if v == 0x20374342 {
            TextureFormat::BC7
        } else if v == 21 {
            TextureFormat::A8R8G8B8
        } else if v == 22 {
            TextureFormat::X8R8G8B8
        } else if v == 25 {
            TextureFormat::A1R5G5B5
        } else if v == 28 {
            TextureFormat::A8
        } else if v == 32 {
            TextureFormat::A8B8G8R8
        } else if v == 50 {
            TextureFormat::L8
        } else {
            TextureFormat::Unknown(v)
        }
    }
}

impl View for DecodedTexture {
    type V = (Seq<char>, u32, u32, TextureFormat, Seq<u8>);

    open spec fn view(&self) -> (Seq<char>, u32, u32, TextureFormat, Seq<u8>) {
        (self.name@, self.width, self.height, self.format, self.rgba@)
    }
}

pub open spec fn tex_views(v: Seq<DecodedTexture>) -> Seq<(Seq<char>, u32, u32, TextureFormat, Seq<u8>)> {
    v.map_values(|t: DecodedTexture| t@)
}

// ---- pixel conversion ---------------------------------------------------------

/// Byte `k` (R, G, B, A) of a 0xAARRGGBB pixel.
pub open spec fn rgba_byte(p: u32, k: int) -> u8 {
    if k == 0 {
        ((p / 0x1_0000) % 0x100) as u8
    } else if k == 1 {
        ((p / 0x100) % 0x100) as u8
    } else if k == 2 {
        (p % 0x100) as u8
    } else {
        (p / 0x100_0000) as u8
    }
}

/// 0xAARRGGBB pixels split into R, G, B, A bytes.
pub open spec fn spec_rgba(img: Seq<u32>) -> Seq<u8> {
    Seq::new(4 * img.len(), |k: int| rgba_byte(img[k / 4], k % 4))
}

/// texture2ddecoder emits u32 as 0xAARRGGBB; split into R,G,B,A bytes.
pub fn argb_u32_to_rgba(img: &[u32]) -> (out: Vec<u8>)
    ensures
        out@ == spec_rgba(img@),
{
    let mut out: Vec<u8> = Vec::new();
    let mut i: usize = 0;
    while i < img.len()
        invariant
            i <= img@.len(),
            out@ =~= spec_rgba(img@.subrange(0, i as int)),
        decreases img@.len() - i,
    {
        let p = img[i];
        out.push(((p / 0x1_0000) % 0x100) as u8);
        out.push(((p / 0x100) % 0x100) as u8);
        out.push((p % 0x100) as u8);
        out.push((p / 0x100_0000) as u8);
        proof {
            let s1 = img@.subrange(0, i + 1);
            assert forall|k: int| 0 <= k < 4 * s1.len() implies #[trigger] out@[k] == rgba_byte(s1[k / 4], k % 4) by {
                if k < 4 * i {
                    assert(s1[k / 4] == img@.subrange(0, i as int)[k / 4]);
                }
            }
        }
        i += 1;
    }
    assert(img@.subrange(0, img@.len() as int) =~= img@);
    out
}

// ---- block-compressed decoders --------------------------------------------------

/// Blocks of 4x4 pixels needed to cover a `width` x `height` image, times the
/// bytes per block.
pub open spec fn bc_bytes_needed(width: nat, height: nat, block_bytes: nat) -> nat {
    ((width + 3) / 4) * ((height + 3) / 4) * block_bytes
}

pub uninterp spec fn bc1_pixels(data: Seq<u8>, width: nat, height: nat) -> Seq<u32>;
pub uninterp spec fn bc2_pixels(data: Seq<u8>, width: nat, height: nat) -> Seq<u32>;
pub uninterp spec fn bc3_pixels(data: Seq<u8>, width: nat, height: nat) -> Seq<u32>;
pub uninterp spec fn bc4_pixels(data: Seq<u8>, width: nat, height: nat) -> Seq<u32>;
pub uninterp spec fn bc5_pixels(data: Seq<u8>, width: nat, height: nat) -> Seq<u32>;
pub uninterp spec fn bc7_pixels(data: Seq<u8>, width: nat, height: nat) -> Seq<u32>;

/// `texture2ddecoder::decode_bc1` into a zeroed `width * height` buffer. Its
/// source returns `Err` exactly when `data` is shorter than the 8-byte blocks
/// covering the image (the buffer is always large enough here); the decoded
/// pixels are named `bc1_pixels`.
#[verifier::external_body]
fn decode_bc1(data: &[u8], width: usize, height: usize) -> (r: Option<Vec<u32>>)
    requires
        width <= 0xFFFF && height <= 0xFFFF,
        bc_bytes_needed(width as nat, height as nat, 16) <= usize::MAX,
    ensures
        r is Some <==> data@.len() >= bc_bytes_needed(width as nat, height as nat, 8),
        r matches Some(v) ==> v@ == bc1_pixels(data@, width as nat, height as nat) && v@.len() == width * height,
{
    let mut img = vec![0u32; width * height];
    match texture2ddecoder::decode_bc1(data, width, height, &mut img) {
        Ok(()) => Some(img),
        Err(_) => None,
    }
}

/// `texture2ddecoder::decode_bc2` (16-byte blocks); as for [`decode_bc1`].
#[verifier::external_body]
fn decode_bc2(data: &[u8], width: usize, height: usize) -> (r: Option<Vec<u32>>)
    requires
        width <= 0xFFFF && height <= 0xFFFF,
        bc_bytes_needed(width as nat, height as nat, 16) <= usize::MAX,
    ensures
        r is Some <==> data@.len() >= bc_bytes_needed(width as nat, height as nat, 16),
        r matches Some(v) ==> v@ == bc2_pixels(data@, width as nat, height as nat) && v@.len() == width * height,
{
    let mut img = vec![0u32; width * height];
    match texture2ddecoder::decode_bc2(data, width, height, &mut img) {
        Ok(()) => Some(img),
        Err(_) => None,
    }
}

/// `texture2ddecoder::decode_bc3` (16-byte blocks); as for [`decode_bc1`].
#[verifier::external_body]
fn decode_bc3(data: &[u8], width: usize, height: usize) -> (r: Option<Vec<u32>>)
    requires
        width <= 0xFFFF && height <= 0xFFFF,
        bc_bytes_needed(width as nat, height as nat, 16) <= usize::MAX,
    ensures
        r is Some <==> data@.len() >= bc_bytes_needed(width as nat, height as nat, 16),
        r matches Some(v) ==> v@ == bc3_pixels(data@, width as nat, height as nat) && v@.len() == width * height,
{
    let mut img = vec![0u32; width * height];
    match texture2ddecoder::decode_bc3(data, width, height, &mut img) {
        Ok(()) => Some(img),
        Err(_) => None,
    }
}

/// `texture2ddecoder::decode_bc4` (8-byte blocks); as for [`decode_bc1`].
#[verifier::external_body]
fn decode_bc4(data: &[u8], width: usize, height: usize) -> (r: Option<Vec<u32>>)
    requires
        width <= 0xFFFF && height <= 0xFFFF,
        bc_bytes_needed(width as nat, height as nat, 16) <= usize::MAX,
    ensures
        r is Some <==> data@.len() >= bc_bytes_needed(width as nat, height as nat, 8),
        r matches Some(v) ==> v@ == bc4_pixels(data@, width as nat, height as nat) && v@.len() == width * height,
{
    let mut img = vec![0u32; width * height];
    match texture2ddecoder::decode_bc4(data, width, height, &mut img) {
        Ok(()) => Some(img),
        Err(_) => None,
    }
}

/// `texture2ddecoder::decode_bc5` (16-byte blocks); as for [`decode_bc1`].
#[verifier::external_body]
fn decode_bc5(data: &[u8], width: usize, height: usize) -> (r: Option<Vec<u32>>)
    requires
        width <= 0xFFFF && height <= 0xFFFF,
        bc_bytes_needed(width as nat, height as nat, 16) <= usize::MAX,
    ensures
        r is Some <==> data@.len() >= bc_bytes_needed(width as nat, height as nat, 16),
        r matches Some(v) ==> v@ == bc5_pixels(data@, width as nat, height as nat) && v@.len() == width * height,
{
    let mut img = vec![0u32; width * height];
    match texture2ddecoder::decode_bc5(data, width, height, &mut img) {
        Ok(()) => Some(img),
        Err(_) => None,
    }
}

/// `texture2ddecoder::decode_bc7` (16-byte blocks); as for [`decode_bc1`].
#[verifier::external_body]
fn decode_bc7(data: &[u8], width: usize, height: usize) -> (r: Option<Vec<u32>>)
    requires
        width <= 0xFFFF && height <= 0xFFFF,
        bc_bytes_needed(width as nat, height as nat, 16) <= usize::MAX,
    ensures
        r is Some <==> data@.len() >= bc_bytes_needed(width as nat, height as nat, 16),
        r matches Some(v) ==> v@ == bc7_pixels(data@, width as nat, height as nat) && v@.len() == width * height,
{
    let mut img = vec![0u32; width * height];
    match texture2ddecoder::decode_bc7(data, width, height, &mut img) {
        Ok(()) => Some(img),
        Err(_) => None,
    }
}

/// Uncompressed 32-bit pixels: pixel `i` is the little-endian word at byte
/// `4 * i` when all four bytes are present, else 0.
pub open spec fn raw_pixels(data: Seq<u8>, count: nat) -> Seq<u32> {
    Seq::new(
        count,
        |i: int|
            if 4 * i + 3 < data.len() {
                le32(data.subrange(4 * i, 4 * i + 4)) as u32
            } else {
                0u32
            },
    )
}

/// The 0xAARRGGBB pixels of level 0 in the given format, or `None` when the
/// format is unsupported or the block decoder rejects the data.
pub open spec fn spec_pixels(format: TextureFormat, data: Seq<u8>, width: nat, height: nat) -> Option<Seq<u32>> {
    match format {
        TextureFormat::DXT1 => if data.len() >= bc_bytes_needed(width, height, 8) {
            Some(bc1_pixels(data, width, height))
        } else {
            None
        },
        TextureFormat::DXT3 => if data.len() >= bc_bytes_needed(width, height, 16) {
            Some(bc2_pixels(data, width, height))
        } else {
            None
        },
        TextureFormat::DXT5 => if data.len() >= bc_bytes_needed(width, height, 16) {
            Some(bc3_pixels(data, width, height))
        } else {
            None
        },
        TextureFormat::ATI1 => if data.len() >= bc_bytes_needed(width, height, 8) {
            Some(bc4_pixels(data, width, height))
        } else {
            None
        },
        TextureFormat::ATI2 => if data.len() >= bc_bytes_needed(width, height, 16) {
            Some(bc5_pixels(data, width, height))
        } else {
            None
        },
        TextureFormat::BC7 => if data.len() >= bc_bytes_needed(width, height, 16) {
            Some(bc7_pixels(data, width, height))
        } else {
            None
        },
        TextureFormat::A8R8G8B8 => Some(raw_pixels(data, width * height)),
        TextureFormat::X8R8G8B8 => Some(raw_pixels(data, width * height)),
        _ => None,
    }
}

fn raw_image(data: &[u8], count: usize) -> (img: Vec<u32>)
    ensures
        img@ == raw_pixels(data@, count as nat),
{
    let mut img: Vec<u32> = Vec::with_capacity(count);
    let mut i: usize = 0;
    while i < count
        invariant
            i <= count,
            img@ =~= raw_pixels(data@, i as nat),
        decreases count - i,
    {
        let px = if i < data.len() / 4 {
            read_le32(data, 4 * i)
        } else {
            0
        };
        img.push(px);
        i += 1;
    }
    img
}

/// Decode level 0 of a texture to 0xAARRGGBB pixels.
fn decode_pixels(format: TextureFormat, data: &[u8], width: usize, height: usize) -> (r: Option<Vec<u32>>)
    requires
        width <= 0xFFFF && height <= 0xFFFF,
        bc_bytes_needed(width as nat, height as nat, 16) <= usize::MAX,
    ensures
        match spec_pixels(format, data@, width as nat, height as nat) {
            None => r is None,
            Some(p) => r matches Some(v) && v@ == p,
        },
        r matches Some(v) ==> v@.len() == width * height,
{
    assert(width * height <= 0xFFFF * 0xFFFF) by (nonlinear_arith)
        requires
            width <= 0xFFFF && height <= 0xFFFF,
    ;
    assert(width * height <= usize::MAX) by {
        assert(bc_bytes_needed(width as nat, height as nat, 16) >= width * height) by (nonlinear_arith)
            requires
                width >= 0 && height >= 0;
    }
    match format {
        TextureFormat::DXT1 => decode_bc1(data, width, height),
        TextureFormat::DXT3 => decode_bc2(data, width, height),
        TextureFormat::DXT5 => decode_bc3(data, width, height),
        TextureFormat::ATI1 => decode_bc4(data, width, height),
        TextureFormat::ATI2 => decode_bc5(data, width, height),
        TextureFormat::BC7 => decode_bc7(data, width, height),
        TextureFormat::A8R8G8B8 | TextureFormat::X8R8G8B8 => Some(raw_image(data, width * height)),
        _ => None,
    }
}

// ---- texture dictionaries ------------------------------------------------------

pub const DICT_TEX_LIST_PTR: usize = 0x30;
pub const DICT_TEX_LIST_COUNT: usize = 0x38;
pub const TEX_NAME_PTR: usize = 0x28;
pub const TEX_WIDTH: usize = 0x50;
pub const TEX_HEIGHT: usize = 0x52;
pub const TEX_STRIDE: usize = 0x56;
pub const TEX_FORMAT: usize = 0x58;
pub const TEX_LEVELS: usize = 0x5D;
pub const TEX_DATA_PTR: usize = 0x70;

/// The header fields of the grcTexture at `tva`: name pointer, width, height,
/// stride, format word and pixel-data pointer (the mip count is read too).
pub open spec fn spec_tex_header(rsc: Rsc7, tva: u64) -> Result<(u64, u16, u16, u16, u32, u64), DecodeError> {
    match rsc.spec_u64_at(tva, TEX_NAME_PTR) {
        Err(e) => Err(e),
        Ok(np) => match rsc.spec_u16_at(tva, TEX_WIDTH) {
            Err(e) => Err(e),
            Ok(w) => match rsc.spec_u16_at(tva, TEX_HEIGHT) {
                Err(e) => Err(e),
                Ok(h) => match rsc.spec_u16_at(tva, TEX_STRIDE) {
                    Err(e) => Err(e),
                    Ok(s) => match rsc.spec_u32_at(tva, TEX_FORMAT) {
                        Err(e) => Err(e),
                        Ok(f) => match rsc.spec_u8_at(tva, TEX_LEVELS) {
                            Err(e) => Err(e),
                            Ok(_) => match rsc.spec_u64_at(tva, TEX_DATA_PTR) {
                                Err(e) => Err(e),
                                Ok(d) => Ok((np, w, h, s, f, d)),
                            },
                        },
                    },
                },
            },
        },
    }
}

/// The texture at `tva`: `None` when it has no size or pixel data, when level
/// 0 (`stride * height` bytes) is out of bounds, or when its format cannot
/// be decoded.
pub open spec fn spec_texture(rsc: Rsc7, tva: u64) -> Result<Option<(Seq<char>, u32, u32, TextureFormat, Seq<u8>)>, DecodeError> {
    match spec_tex_header(rsc, tva) {
        Err(e) => Err(e),
        Ok((np, w, h, s, f, d)) => if w == 0 || h == 0 || d == 0 {
            Ok(None)
        } else if (s as nat) * (h as nat) > crate::rsc7::max_read() || bc_bytes_needed(
            w as nat,
            h as nat,
            16,
        ) > usize::MAX {
            Ok(None)
        } else {
            match rsc.spec_at(d, (s as nat) * (h as nat)) {
                Err(_) => Ok(None),
                Ok(data) => {
                    let format = TextureFormat::spec_from_u32(f);
                    match spec_pixels(format, data, w as nat, h as nat) {
                        None => Ok(None),
                        Some(img) => Ok(Some((rsc.spec_str_at(np), w as u32, h as u32, format, spec_rgba(img)))),
                    }
                },
            }
        },
    }
}

/// The decodable textures among the first `n` entries of the pointer list.
pub open spec fn spec_textures(rsc: Rsc7, ptrs: Seq<u64>, n: nat) -> Result<Seq<(Seq<char>, u32, u32, TextureFormat, Seq<u8>)>, DecodeError>
    decreases n,
{
    if n == 0 {
        Ok(Seq::empty())
    } else {
        match spec_textures(rsc, ptrs, (n - 1) as nat) {
            Err(e) => Err(e),
            Ok(acc) => {
                let tva = ptrs[n - 1];
                if tva == 0 {
                    Ok(acc)
                } else {
                    match spec_texture(rsc, tva) {
                        Err(e) => Err(e),
                        Ok(None) => Ok(acc),
                        Ok(Some(t)) => Ok(acc.push(t)),
                    }
                }
            },
        }
    }
}

/// The TextureDictionary at `dict`: its decodable textures, in list order.
pub open spec fn spec_decode_dictionary_at(rsc: Rsc7, dict: u64) -> Result<Seq<(Seq<char>, u32, u32, TextureFormat, Seq<u8>)>, DecodeError> {
    match rsc.spec_u64_at(dict, DICT_TEX_LIST_PTR) {
        Err(e) => Err(e),
        Ok(list_ptr) => match rsc.spec_u16_at(dict, DICT_TEX_LIST_COUNT) {
            Err(e) => Err(e),
            Ok(count) => if count == 0 {
                Ok(Seq::empty())
            } else {
                match rsc.spec_ptr_array(list_ptr, count as nat) {
                    Err(e) => Err(e),
                    Ok(ptrs) => spec_textures(rsc, ptrs, count as nat),
                }
            },
        },
    }
}

proof fn lemma_textures_err(rsc: Rsc7, ptrs: Seq<u64>, k: nat, m: nat)
    requires
        k <= m,
        spec_textures(rsc, ptrs, k) is Err,
    ensures
        spec_textures(rsc, ptrs, m) == spec_textures(rsc, ptrs, k),
    decreases m,
{
    if m > k {
        lemma_textures_err(rsc, ptrs, k, (m - 1) as nat);
    }
}

fn read_tex_header(rsc: &Rsc7, tva: u64) -> (res: Result<(u64, u16, u16, u16, u32, u64), DecodeError>)
    ensures
        res == spec_tex_header(*rsc, tva),
{
    let np = rsc.u64_at(tva, TEX_NAME_PTR)?;
    let w = rsc.u16_at(tva, TEX_WIDTH)?;
    let h = rsc.u16_at(tva, TEX_HEIGHT)?;
    let s = rsc.u16_at(tva, TEX_STRIDE)?;
    let f = rsc.u32_at(tva, TEX_FORMAT)?;
    let _levels = rsc.u8_at(tva, TEX_LEVELS)?;
    let d = rsc.u64_at(tva, TEX_DATA_PTR)?;
    Ok((np, w, h, s, f, d))
}

/// Decode the texture at `tva`.
#[verifier::spinoff_prover]
fn decode_texture(rsc: &Rsc7, tva: u64) -> (res: Result<Option<DecodedTexture>, DecodeError>)
    ensures
        match spec_texture(*rsc, tva) {
            Err(e) => res matches Err(e2) && e2 == e,
            Ok(None) => res matches Ok(None),
            Ok(Some(t)) => res matches Ok(Some(d)) && d@ == t,
        },
        res matches Ok(Some(d)) ==> d.rgba@.len() == 4 * (d.width as nat) * (d.height as nat),
{
    let (np, w, h, s, f, d) = read_tex_header(rsc, tva)?;
    let name = rsc.str_at(np);
    let width = w as usize;
    let height = h as usize;
    let stride = s as usize;
    let format = TextureFormat::from_u32(f);
    if width == 0 || height == 0 || d == 0 {
        return Ok(None);
    }
    assert(stride * height <= 0xFFFF * 0xFFFF) by (nonlinear_arith)
        requires
            stride <= 0xFFFF && height <= 0xFFFF,
    ;
    let bw = (width + 3) / 4;
    let bh = (height + 3) / 4;
    assert(bw * bh <= 0x4000 * 0x4000) by (nonlinear_arith)
        requires
            bw <= 0x4000 && bh <= 0x4000,
    ;
    // Only on targets with a 32-bit `usize` can these sizes exceed it; such a
    // texture is skipped.
    if stride * height > usize::MAX || bw * bh > usize::MAX / 16 {
        return Ok(None);
    }
    let level0 = stride * height;
    let data = match rsc.at(d, level0) {
        Ok(data) => data,
        Err(_) => return Ok(None),
    };
    let img = match decode_pixels(format, data, width, height) {
        Some(img) => img,
        None => return Ok(None),
    };
    let rgba = argb_u32_to_rgba(img.as_slice());
    assert(rgba@.len() == 4 * (width as nat) * (height as nat)) by (nonlinear_arith)
        requires
            rgba@.len() == 4 * img@.len(),
            img@.len() == width * height,
    ;
    Ok(Some(DecodedTexture { name, width: w as u32, height: h as u32, format, rgba }))
}

/// Decode the TextureDictionary at `dict`: every texture that has a size,
/// in-bounds pixel data and a supported format, in list order.
pub fn decode_dictionary_at(rsc: &Rsc7, dict: u64) -> (res: Result<Vec<DecodedTexture>, DecodeError>)
    ensures
        match spec_decode_dictionary_at(*rsc, dict) {
            Err(e) => res matches Err(e2) && e2 == e,
            Ok(ts) => res matches Ok(v) && tex_views(v@) == ts,
        },
        res matches Ok(v) ==> forall|j: int|
            0 <= j < v@.len() ==> (#[trigger] v@[j]).rgba@.len() == 4 * (v@[j].width as nat) * (v@[j].height as nat),
{
    let list_ptr = rsc.u64_at(dict, DICT_TEX_LIST_PTR)?;
    let count = rsc.u16_at(dict, DICT_TEX_LIST_COUNT)?;
    if count == 0 {
        assert(tex_views(Seq::<DecodedTexture>::empty()) =~= Seq::empty());
        return Ok(Vec::new());
    }
    let tex_ptrs = rsc.ptr_array(list_ptr, count as usize)?;
    let mut out: Vec<DecodedTexture> = Vec::new();
    let mut i: usize = 0;
    while i < count as usize
        invariant
            i <= count,
            count != 0,
            tex_ptrs@.len() == count,
            rsc.spec_u64_at(dict, DICT_TEX_LIST_PTR) == Ok::<u64, DecodeError>(list_ptr),
            rsc.spec_u16_at(dict, DICT_TEX_LIST_COUNT) == Ok::<u16, DecodeError>(count),
            rsc.spec_ptr_array(list_ptr, count as nat) == Ok::<Seq<u64>, DecodeError>(tex_ptrs@),
            spec_textures(*rsc, tex_ptrs@, i as nat) matches Ok(acc) && tex_views(out@) == acc,
            forall|j: int|
                0 <= j < out@.len() ==> (#[trigger] out@[j]).rgba@.len() == 4 * (out@[j].width as nat) * (
                out@[j].height as nat),
        decreases count - i,
    {
        let tva = tex_ptrs[i];
        if tva != 0 {
            match decode_texture(rsc, tva) {
                Err(e) => {
                    proof {
                        lemma_textures_err(*rsc, tex_ptrs@, (i + 1) as nat, count as nat);
                    }
                    return Err(e);
                },
                Ok(None) => {},
                Ok(Some(t)) => {
                    let ghost before = out@;
                    out.push(t);
                    assert(tex_views(out@) =~= tex_views(before).push(t@));
                },
            }
        }
        i += 1;
    }
    Ok(out)
}

/// Decode the TextureDictionary at the root of a `.ytd` resource. Every
/// texture holds exactly `width * height` RGBA pixels.
pub fn decode_dictionary(rsc: &Rsc7) -> (res: Result<Vec<DecodedTexture>, DecodeError>)
    ensures
        match spec_decode_dictionary_at(*rsc, ROOT) {
            Err(e) => res matches Err(e2) && e2 == e,
            Ok(ts) => res matches Ok(v) && tex_views(v@) == ts,
        },
        res matches Ok(v) ==> forall|j: int|
            0 <= j < v@.len() ==> (#[trigger] v@[j]).rgba@.len() == 4 * (v@[j].width as nat) * (v@[j].height as nat),
{
    decode_dictionary_at(rsc, ROOT)
}

/// Whether a character may stay in a file name: an ASCII letter or digit,
/// `_` or `-`.
pub open spec fn name_safe(c: char) -> bool {
    ('0' <= c && c <= '9') || ('a' <= c && c <= 'z') || ('A' <= c && c <= 'Z') || c == '_' || c == '-'
}

/// A texture or dictionary name made safe for a file name: `unnamed` when
/// empty, else each character that is not `name_safe` turned into `_`.
pub open spec fn spec_sanitize(name: Seq<char>) -> Seq<char> {
    if name.len() == 0 {
        seq!['u', 'n', 'n', 'a', 'm', 'e', 'd']
    } else {
        name.map_values(|c: char| if name_safe(c) { c } else { '_' })
    }
}

/// `name` made safe for a file name (see `spec_sanitize`).
pub fn sanitize(name: &str) -> (r: String)
    ensures
        r@ == spec_sanitize(name@),
{
    let cs = chars_of(name);
    if cs.len() == 0 {
        let u = vec!['u', 'n', 'n', 'a', 'm', 'e', 'd'];
        assert(u@ =~= seq!['u', 'n', 'n', 'a', 'm', 'e', 'd']);
        return string_from_chars(u.as_slice());
    }
    let mut out: Vec<char> = Vec::new();
    let mut i: usize = 0;
    while i < cs.len()
        invariant
            i <= cs.len(),
            cs@ == name@,
            out@ == cs@.take(i as int).map_values(|c: char| if name_safe(c) { c } else { '_' }),
        decreases cs.len() - i,
    {
        let c = cs[i];
        let keep = ('0' <= c && c <= '9') || ('a' <= c && c <= 'z') || ('A' <= c && c <= 'Z') || c == '_' || c == '-';
        out.push(if keep { c } else { '_' });
        assert(cs@.take(i + 1).map_values(|c: char| if name_safe(c) { c } else { '_' }) =~= cs@.take(i as int).map_values(|c: char| if name_safe(c) { c } else { '_' }).push(if keep { c } else { '_' }));
        i = i + 1;
    }
    assert(cs@.take(cs.len() as int) =~= cs@);
    string_from_chars(out.as_slice())
}

/// A sanitized name is never empty and holds only characters safe in a file
/// name; a name that was already safe and non-empty comes back unchanged, so
/// sanitizing twice is sanitizing once.
pub proof fn sanitize_is_safe(name: Seq<char>)
    ensures
        spec_sanitize(name).len() > 0,
        forall|i: int| 0 <= i < spec_sanitize(name).len() ==> name_safe(#[trigger] spec_sanitize(name)[i]),
        name.len() > 0 ==> spec_sanitize(name).len() == name.len(),
        (name.len() > 0 && forall|i: int| 0 <= i < name.len() ==> name_safe(#[trigger] name[i])) ==> spec_sanitize(
            name,
        ) == name,
        spec_sanitize(spec_sanitize(name)) == spec_sanitize(name),
{
    let u = seq!['u', 'n', 'n', 'a', 'm', 'e', 'd'];
    assert forall|i: int| 0 <= i < u.len() implies name_safe(#[trigger] u[i]) by {}
    if name.len() > 0 && forall|i: int| 0 <= i < name.len() ==> name_safe(#[trigger] name[i]) {
        assert(spec_sanitize(name) =~= name);
    }
    let s1 = spec_sanitize(name);
    assert(s1 =~= s1.map_values(|c: char| if name_safe(c) { c } else { '_' }));
}

} // verus!
