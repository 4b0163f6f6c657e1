use gtaveh::rsc7::{DecodeError, Rsc7};
use gtaveh::textures::{
    argb_u32_to_rgba, decode_dictionary, decode_dictionary_at, sanitize, TextureFormat,
};

fn put(seg: &mut Vec<u8>, off: usize, bytes: &[u8]) {
    if seg.len() < off + bytes.len() {
        seg.resize(off + bytes.len(), 0);
    }
    seg[off..off + bytes.len()].copy_from_slice(bytes);
}

struct Tex<'a> {
    name: &'a str,
    width: u16,
    height: u16,
    stride: u16,
    format: u32,
    data: &'a [u8],
}

/// A texture dictionary at the root of the system segment, pixel data in the
/// graphics segment.
fn ytd(texs: &[Tex]) -> Rsc7 {
    let mut sys = vec![0u8; 0x40];
    let mut gfx = Vec::new();
    put(&mut sys, 0x30, &0x5000_0100u64.to_le_bytes());
    put(&mut sys, 0x38, &(texs.len() as u16).to_le_bytes());
    for (i, t) in texs.iter().enumerate() {
        let tva = 0x200 + i * 0x80;
        put(&mut sys, 0x100 + i * 8, &(0x5000_0000u64 + tva as u64).to_le_bytes());
        let name_off = 0x1000 + i * 0x40;
        let mut name = t.name.as_bytes().to_vec();
        name.push(0);
        put(&mut sys, name_off, &name);
        put(&mut sys, tva + 0x28, &(0x5000_0000u64 + name_off as u64).to_le_bytes());
        put(&mut sys, tva + 0x50, &t.width.to_le_bytes());
        put(&mut sys, tva + 0x52, &t.height.to_le_bytes());
        put(&mut sys, tva + 0x56, &t.stride.to_le_bytes());
        put(&mut sys, tva + 0x58, &t.format.to_le_bytes());
        put(&mut sys, tva + 0x5D, &[1]);
        let goff = gfx.len();
        gfx.extend_from_slice(t.data);
        let dptr = if t.data.is_empty() { 0 } else { 0x6000_0000u64 + goff as u64 };
        put(&mut sys, tva + 0x70, &dptr.to_le_bytes());
    }
    Rsc7 { version: 13, system_flags: 0, graphics_flags: 0, compressed_len: 0, system: sys, graphics: gfx }
}

const DXT1: u32 = 0x31545844;
const DXT3: u32 = 0x33545844;
const DXT5: u32 = 0x35545844;
const ATI1: u32 = 0x31495441;
const ATI2: u32 = 0x32495441;
const BC7: u32 = 0x20374342;

fn solid(rgba: [u8; 4], n: usize) -> Vec<u8> {
    rgba.iter().cloned().cycle().take(4 * n).collect()
}

/// A BC1 colour block whose 16 pixels are all pure red.
const RED_BC1: [u8; 8] = [0x00, 0xF8, 0x00, 0x00, 0, 0, 0, 0];

#[test]
fn argb_to_rgba_byte_order() {
    assert_eq!(argb_u32_to_rgba(&[0xAA11_2233]), vec![0x11, 0x22, 0x33, 0xAA]);
    assert_eq!(
        argb_u32_to_rgba(&[0xFF00_0000, 0x00FF_FFFF]),
        vec![0, 0, 0, 0xFF, 0xFF, 0xFF, 0xFF, 0]
    );
    assert_eq!(argb_u32_to_rgba(&[]), Vec::<u8>::new());
}

#[test]
fn sanitize_names() {
    assert_eq!(sanitize(""), "unnamed");
    assert_eq!(sanitize("zion+hi"), "zion_hi");
    assert_eq!(sanitize("a b/c.d"), "a_b_c_d");
    assert_eq!(sanitize("Vehicle_Generic-01"), "Vehicle_Generic-01");
    assert_eq!(sanitize("é"), "_");
}

#[test]
fn sanitize_twice_is_once() {
    for s in ["", "zion+hi", "x y", "ok_name"] {
        let once = sanitize(s);
        assert_eq!(sanitize(&once), once);
        assert!(once.chars().all(|c| c.is_ascii_alphanumeric() || c == '_' || c == '-'));
    }
}

#[test]
fn format_codes() {
    assert_eq!(TextureFormat::from_u32(DXT1), TextureFormat::DXT1);
    assert_eq!(TextureFormat::from_u32(DXT3), TextureFormat::DXT3);
    assert_eq!(TextureFormat::from_u32(DXT5), TextureFormat::DXT5);
    assert_eq!(TextureFormat::from_u32(ATI1), TextureFormat::ATI1);
    assert_eq!(TextureFormat::from_u32(ATI2), TextureFormat::ATI2);
    assert_eq!(TextureFormat::from_u32(BC7), TextureFormat::BC7);
    assert_eq!(TextureFormat::from_u32(21), TextureFormat::A8R8G8B8);
    assert_eq!(TextureFormat::from_u32(22), TextureFormat::X8R8G8B8);
    assert_eq!(TextureFormat::from_u32(25), TextureFormat::A1R5G5B5);
    assert_eq!(TextureFormat::from_u32(28), TextureFormat::A8);
    assert_eq!(TextureFormat::from_u32(32), TextureFormat::A8B8G8R8);
    assert_eq!(TextureFormat::from_u32(50), TextureFormat::L8);
    assert_eq!(TextureFormat::from_u32(7), TextureFormat::Unknown(7));
}

#[test]
fn raw_argb_texture() {
    let data: Vec<u8> = [0xAA11_2233u32, 0x4455_6677, 0x8899_AABB, 0xCCDD_EEFF]
        .iter()
        .flat_map(|p| p.to_le_bytes())
        .collect();
    let r = ytd(&[Tex { name: "paint", width: 2, height: 2, stride: 8, format: 21, data: &data }]);
    let t = decode_dictionary(&r).unwrap();
    assert_eq!(t.len(), 1);
    assert_eq!(t[0].name, "paint");
    assert_eq!((t[0].width, t[0].height, t[0].format), (2, 2, TextureFormat::A8R8G8B8));
    assert_eq!(
        t[0].rgba,
        vec![0x11, 0x22, 0x33, 0xAA, 0x55, 0x66, 0x77, 0x44, 0x99, 0xAA, 0xBB, 0x88, 0xDD, 0xEE, 0xFF, 0xCC]
    );
}

#[test]
fn bc1_texture() {
    let r = ytd(&[Tex { name: "red", width: 4, height: 4, stride: 2, format: DXT1, data: &RED_BC1 }]);
    let t = decode_dictionary(&r).unwrap();
    assert_eq!(t.len(), 1);
    assert_eq!(t[0].rgba, solid([255, 0, 0, 255], 16));
    assert_eq!(t[0].rgba.len(), 4 * (t[0].width * t[0].height) as usize);
}

#[test]
fn bc2_texture() {
    let mut block = vec![0xFFu8; 8];
    block.extend_from_slice(&RED_BC1);
    let r = ytd(&[Tex { name: "red", width: 4, height: 4, stride: 4, format: DXT3, data: &block }]);
    let t = decode_dictionary(&r).unwrap();
    assert_eq!(t[0].rgba, solid([255, 0, 0, 255], 16));
}

#[test]
fn bc3_texture() {
    let mut block = vec![0x80u8, 0x00, 0, 0, 0, 0, 0, 0];
    block.extend_from_slice(&RED_BC1);
    let r = ytd(&[Tex { name: "red", width: 4, height: 4, stride: 4, format: DXT5, data: &block }]);
    let t = decode_dictionary(&r).unwrap();
    assert_eq!(t[0].rgba, solid([255, 0, 0, 0x80], 16));
}

#[test]
fn bc4_texture() {
    let block = [0xC0u8, 0x00, 0, 0, 0, 0, 0, 0];
    let r = ytd(&[Tex { name: "mask", width: 4, height: 4, stride: 2, format: ATI1, data: &block }]);
    let t = decode_dictionary(&r).unwrap();
    assert_eq!(t[0].rgba, solid([0xC0, 0, 0, 255], 16));
}

#[test]
fn bc5_texture() {
    let block = [0xC0u8, 0x00, 0, 0, 0, 0, 0, 0, 0x40, 0x00, 0, 0, 0, 0, 0, 0];
    let r = ytd(&[Tex { name: "normal", width: 4, height: 4, stride: 4, format: ATI2, data: &block }]);
    let t = decode_dictionary(&r).unwrap();
    assert_eq!(t[0].rgba, solid([0xC0, 0x40, 0, 255], 16));
}

#[test]
fn bc7_texture() {
    // mode 6, every endpoint and p-bit set: opaque white
    let mut block = vec![0xC0u8];
    block.extend_from_slice(&[0xFF; 15]);
    let r = ytd(&[Tex { name: "white", width: 4, height: 4, stride: 4, format: BC7, data: &block }]);
    let t = decode_dictionary(&r).unwrap();
    assert_eq!(t[0].rgba, solid([255, 255, 255, 255], 16));
}

#[test]
fn undecodable_textures_are_skipped() {
    let data = [0u8; 4];
    let r = ytd(&[
        // too little block data for a 8x8 DXT1 image
        Tex { name: "short", width: 8, height: 8, stride: 1, format: DXT1, data: &RED_BC1 },
        // unsupported format
        Tex { name: "a8", width: 1, height: 1, stride: 4, format: 28, data: &data },
        // zero size
        Tex { name: "empty", width: 0, height: 4, stride: 4, format: 21, data: &data },
        // no pixel data
        Tex { name: "nodata", width: 1, height: 1, stride: 4, format: 21, data: &[] },
        // level 0 out of the graphics segment
        Tex { name: "oob", width: 1, height: 64, stride: 4, format: 21, data: &data },
        Tex { name: "kept", width: 1, height: 1, stride: 4, format: 22, data: &data },
    ]);
    let t = decode_dictionary(&r).unwrap();
    let names: Vec<&str> = t.iter().map(|t| t.name.as_str()).collect();
    assert_eq!(names, vec!["kept"]);
}

#[test]
fn empty_dictionary() {
    let r = ytd(&[]);
    assert_eq!(decode_dictionary(&r).unwrap().len(), 0);
}

#[test]
fn dictionary_errors() {
    let r = Rsc7 { version: 0, system_flags: 0, graphics_flags: 0, compressed_len: 0, system: vec![0; 8], graphics: vec![] };
    assert_eq!(
        decode_dictionary(&r).err(),
        Some(DecodeError::OutOfBounds { ptr: 0x5000_0030, len: 8 })
    );
    assert_eq!(decode_dictionary_at(&r, 0).err(), Some(DecodeError::InvalidPointer(0x30)));
}
