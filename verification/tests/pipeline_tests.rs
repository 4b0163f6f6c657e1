use gtaveh::archive::Archive;
use gtaveh::parts::group;
use gtaveh::pipeline::{
    build_vehicle, decode_ytd, downscale, load_model, read_resource, shader_textures, texture_map,
    ytd_textures, PipelineError, TextureMap,
};
use gtaveh::rsc7::DecodeError;
use gtaveh::textures::{DecodedTexture, TextureFormat};
use gtaveh::wire::serialize;
use rpf_archive::{GtaKeys, RpfBuilder, RpfEncryption};
use std::io::Write;

const S: u64 = 0x5000_0000;
const G: u64 = 0x6000_0000;

fn tex(name: &str, w: u32, h: u32, fill: u8) -> DecodedTexture {
    DecodedTexture { name: name.into(), width: w, height: h, format: TextureFormat::A8R8G8B8, rgba: vec![fill; (w * h * 4) as usize] }
}

fn keys() -> GtaKeys {
    // Nothing here is encrypted, so no key is ever used; the set is still
    // complete, as every function that takes keys asks.
    GtaKeys { aes_key: [0; 32], ng_keys: vec![vec![0u8; 272]; 101], ng_decrypt_tables: Box::new([[[0u32; 256]; 16]; 17]) }
}

// ---- resources -------------------------------------------------------------------

struct Res {
    sys: Vec<u8>,
    gfx: Vec<u8>,
}

impl Res {
    fn new() -> Res {
        Res { sys: vec![0; 0x100], gfx: Vec::new() }
    }
    fn reserve(&mut self, size: usize) -> u64 {
        let off = (self.sys.len() + 15) & !15;
        self.sys.resize(off + size, 0);
        S + off as u64
    }
    fn galloc(&mut self, data: &[u8]) -> u64 {
        let off = self.gfx.len();
        self.gfx.extend_from_slice(data);
        G + off as u64
    }
    fn put(&mut self, ptr: u64, off: usize, b: &[u8]) {
        let at = (ptr - S) as usize + off;
        self.sys[at..at + b.len()].copy_from_slice(b);
    }
    fn w16(&mut self, ptr: u64, off: usize, v: u16) {
        self.put(ptr, off, &v.to_le_bytes());
    }
    fn w32(&mut self, ptr: u64, off: usize, v: u32) {
        self.put(ptr, off, &v.to_le_bytes());
    }
    fn w64(&mut self, ptr: u64, off: usize, v: u64) {
        self.put(ptr, off, &v.to_le_bytes());
    }
    fn string(&mut self, s: &str) -> u64 {
        let p = self.reserve(s.len() + 1);
        self.put(p, 0, s.as_bytes());
        p
    }
    fn ptrs(&mut self, ps: &[u64]) -> u64 {
        let p = self.reserve(8 * ps.len().max(1));
        for (i, v) in ps.iter().enumerate() {
            self.w64(p, 8 * i, *v);
        }
        p
    }
    /// The whole resource file: header, then the deflated segments, each
    /// padded to the page count its flags give.
    fn file(mut self) -> Vec<u8> {
        let sys_pages = (self.sys.len() + 0x1FF) / 0x200;
        let gfx_pages = (self.gfx.len() + 0x1FF) / 0x200;
        self.sys.resize(sys_pages * 0x200, 0);
        self.gfx.resize(gfx_pages * 0x200, 0);
        let mut body = self.sys.clone();
        body.extend_from_slice(&self.gfx);
        let mut enc = flate2::write::DeflateEncoder::new(Vec::new(), flate2::Compression::default());
        enc.write_all(&body).unwrap();
        let packed = enc.finish().unwrap();
        let mut out = Vec::new();
        out.extend_from_slice(&0x37435352u32.to_le_bytes());
        out.extend_from_slice(&0u32.to_le_bytes());
        out.extend_from_slice(&(0xA000_0000 | pages_flags(sys_pages)).to_le_bytes());
        out.extend_from_slice(&(0x2000_0000 | pages_flags(gfx_pages)).to_le_bytes());
        out.extend_from_slice(&packed);
        out
    }
}

/// Flags (page size 0x200) for a segment of `pages` pages.
fn pages_flags(pages: usize) -> u32 {
    let p = pages as u32;
    assert!(p < 127 * 16 + 16);
    ((p >> 4) << 17) | (((p >> 3) & 1) << 24) | (((p >> 2) & 1) << 25) | (((p >> 1) & 1) << 26) | ((p & 1) << 27)
}

fn ytd_file(texs: &[(&str, u32)]) -> Vec<u8> {
    // 1x1 A8R8G8B8 textures of the given pixel value
    let mut r = Res::new();
    let list = r.reserve(8 * texs.len().max(1));
    for (i, (name, px)) in texs.iter().enumerate() {
        let t = r.reserve(0x80);
        let np = r.string(name);
        let data = r.galloc(&px.to_le_bytes());
        r.w64(t, 0x28, np);
        r.w16(t, 0x50, 1);
        r.w16(t, 0x52, 1);
        r.w16(t, 0x56, 4);
        r.w32(t, 0x58, 21);
        r.w64(t, 0x70, data);
        r.w64(list, 8 * i, t);
    }
    r.w64(S, 0x30, list);
    r.w16(S, 0x38, texs.len() as u16);
    r.file()
}

/// A fragment with one skinned triangle pair (bone 0 body, bone 1 a door),
/// a two-bone skeleton and one shader whose diffuse texture is `diffuse`.
fn yft_file(diffuse: &str, bad_index: bool) -> Vec<u8> {
    let mut r = Res::new();
    // vertices: position Float3, weights UByte4, indices UByte4
    let mut v = Vec::new();
    for i in 0..6u8 {
        for x in [i as f32, 0.0, 0.0] {
            v.extend_from_slice(&x.to_le_bytes());
        }
        v.extend_from_slice(&[255, 0, 0, 0]);
        v.extend_from_slice(&[if i < 3 { 0 } else { 1 }, 0, 0, 0]);
    }
    let data = r.galloc(&v);
    let idx: Vec<u16> = if bad_index { vec![0, 1, 2, 3, 4, 9] } else { vec![0, 1, 2, 3, 4, 5] };
    let ib_bytes: Vec<u8> = idx.iter().flat_map(|i| i.to_le_bytes()).collect();
    let idata = r.galloc(&ib_bytes);
    let geo = r.reserve(0x80);
    let vb = r.reserve(0x40);
    let ib = r.reserve(0x20);
    let decl = r.reserve(0x10);
    r.w64(geo, 0x18, vb);
    r.w64(geo, 0x38, ib);
    r.w32(geo, 0x58, 6);
    r.w16(geo, 0x60, 6);
    r.w16(geo, 0x70, 20);
    r.w16(vb, 0x08, 20);
    r.w64(vb, 0x10, data);
    r.w32(vb, 0x18, 6);
    r.w64(vb, 0x30, decl);
    r.w32(decl, 0, 1 | 2 | 4);
    r.w64(decl, 8, 6 | 8 << 4 | 8 << 8);
    r.w32(ib, 0x08, 6);
    r.w64(ib, 0x10, idata);
    let model = r.reserve(0x28);
    let geos = r.ptrs(&[geo]);
    let sm = r.reserve(2);
    r.w64(model, 0x08, geos);
    r.w16(model, 0x10, 1);
    r.w64(model, 0x20, sm);
    let models = r.ptrs(&[model]);
    let plh = r.reserve(0x10);
    r.w64(plh, 0, models);
    r.w16(plh, 0x0A, 1);
    let d = r.reserve(0x60);
    r.w64(d, 0x50, plh);
    // skeleton
    let skel = r.reserve(0x60);
    let bones = r.reserve(0xA0);
    for (i, name) in ["chassis", "door_dside_f"].iter().enumerate() {
        let np = r.string(name);
        let b = bones + 0x50 * i as u64;
        r.w64(b, 0x38, np);
        r.w16(b, 0x42, i as u16);
        r.w16(b, 0x32, if i == 0 { 0xFFFF } else { 0 });
    }
    r.w64(skel, 0x20, bones);
    r.w16(skel, 0x5E, 2);
    r.w64(d, 0x18, skel);
    // shader group: one shader, one texture parameter
    let t = r.reserve(0x30);
    let tn = r.string(diffuse);
    r.w64(t, 0x28, tn);
    let params = r.reserve(16);
    r.w64(params, 8, t);
    let sh = r.reserve(0x20);
    r.w64(sh, 0, params);
    r.put(sh, 0x10, &[1]);
    let shaders = r.ptrs(&[sh]);
    let sg = r.reserve(0x20);
    r.w64(sg, 0x10, shaders);
    r.w16(sg, 0x18, 1);
    r.w64(d, 0x10, sg);
    r.w64(S, 0x30, d);
    r.file()
}

fn archive(files: &[(&str, Vec<u8>)]) -> Archive {
    let mut b = RpfBuilder::new(RpfEncryption::None);
    for (p, d) in files {
        b.add_file(p, d.clone());
    }
    match Archive::from_bytes(b.build(None).unwrap(), "vehicles.rpf", None) {
        Ok(a) => a,
        Err(_) => panic!("archive did not parse"),
    }
}

// ---- the texture map -------------------------------------------------------------

#[test]
fn first_texture_under_a_name_wins() {
    let mut m = TextureMap::new();
    m.add(vec![tex("Body_D", 1, 1, 1), tex("glass", 1, 1, 2)]);
    m.add(vec![tex("body_d", 1, 1, 3), tex("Lights", 1, 1, 4)]);
    assert_eq!(m.keys, vec!["body_d", "glass", "lights"]);
    assert_eq!(m.get(&"body_d".to_string()).unwrap().rgba, vec![1; 4]);
    assert_eq!(m.get(&"lights".to_string()).unwrap().name, "Lights");
    assert!(m.get(&"Body_D".to_string()).is_none());
}

#[test]
fn downscale_to_fit() {
    let mut t = tex("big", 256, 128, 0);
    for (i, b) in t.rgba.iter_mut().enumerate() {
        *b = (i / 4 % 256) as u8;
    }
    let d = downscale(&t);
    assert_eq!((d.width, d.height), (128, 64));
    assert_eq!(d.rgba.len(), 128 * 64 * 4);
    assert_eq!(d.name, "big");
    // pixel (x, y) comes from source pixel (2x, 2y): row 0 holds x = 0, 2, 4, ...
    assert_eq!(&d.rgba[0..4], &[0, 0, 0, 0]);
    assert_eq!(&d.rgba[4..8], &[2, 2, 2, 2]);
    // pixel (0, 1) samples source (0, 2): index 512 -> 0
    assert_eq!(d.rgba[128 * 4], (512 % 256) as u8);
}

#[test]
fn small_texture_unchanged() {
    let t = tex("small", 64, 128, 7);
    let d = downscale(&t);
    assert_eq!((d.width, d.height, d.rgba.len()), (64, 128, 64 * 128 * 4));
    assert_eq!(d.rgba, t.rgba);
}

#[test]
fn thin_texture_keeps_a_pixel() {
    let t = tex("thin", 1024, 2, 5);
    let d = downscale(&t);
    assert_eq!((d.width, d.height), (128, 1));
    assert_eq!(d.rgba, vec![5; 128 * 4]);
}

#[test]
fn shader_texture_indices() {
    let mut m = TextureMap::new();
    m.add(vec![tex("body_d", 1, 1, 1), tex("glass", 1, 1, 2)]);
    let names = vec![Some("Body_D".to_string()), None, Some("missing".to_string()), Some("body_d".into()), Some("GLASS".into())];
    let (texs, idx) = shader_textures(&names, &m);
    assert_eq!(idx, vec![0, -1, -1, 0, 1]);
    assert_eq!(texs.len(), 2);
    assert_eq!(texs[0].name, "body_d");
    assert_eq!(texs[1].rgba, vec![2; 4]);
}

// ---- the archive side --------------------------------------------------------------

#[test]
fn texture_map_sources_in_order() {
    let a = archive(&[
        ("zion.ytd", ytd_file(&[("body_d", 0x01020304)])),
        ("zion+hi.ytd", ytd_file(&[("BODY_D", 0x05060708), ("hi_only", 1)])),
        ("vehshare.ytd", ytd_file(&[("body_d", 9), ("plate", 2)])),
        ("zion_hi.yft", yft_file("body_d", false)),
    ]);
    let r = read_resource(&a, &keys(), "zion_hi.yft").ok().unwrap();
    // `zion_hi` looks in zion.ytd and zion+hi.ytd
    let m = texture_map(&a, &keys(), "zion_hi", &r);
    assert_eq!(m.keys, vec!["body_d", "hi_only", "plate"]);
    // the vehicle's own dictionary wins over +hi and over the shared one
    assert_eq!(m.get(&"body_d".to_string()).unwrap().rgba, vec![0x02, 0x03, 0x04, 0x01]);
}

#[test]
fn textures_of_resource_bytes() {
    let t = ytd_textures(&ytd_file(&[("a", 0x80FF0000), ("b", 0xFF00FF00)]));
    let names: Vec<&str> = t.iter().map(|t| t.name.as_str()).collect();
    assert_eq!(names, vec!["a", "b"]);
    assert_eq!(t[0].rgba, vec![0xFF, 0, 0, 0x80]);
    assert!(ytd_textures(&[1, 2, 3]).is_empty());
}

#[test]
fn missing_dictionary_is_empty() {
    let a = archive(&[("x.bin", vec![1, 2, 3])]);
    assert!(decode_ytd(&a, &keys(), "zion.ytd").is_empty());
    // present but not a resource
    assert!(decode_ytd(&a, &keys(), "x.bin").is_empty());
}

#[test]
fn read_resource_errors() {
    let a = archive(&[("bad.yft", vec![0; 32])]);
    match read_resource(&a, &keys(), "none.yft") {
        Err(PipelineError::NotFound(n)) => assert_eq!(n, "none.yft"),
        _ => panic!("expected not found"),
    }
    match read_resource(&a, &keys(), "bad.yft") {
        Err(PipelineError::Decode(DecodeError::BadMagic(0))) => {}
        _ => panic!("expected a decode error"),
    }
    // a resource entry shorter than its own header cannot be extracted
    let tiny = archive(&[("tiny.yft", b"RSC7".to_vec())]);
    match read_resource(&tiny, &keys(), "tiny.yft") {
        Err(PipelineError::Archive(gtaveh::archive::ArchiveError::Extract { name, .. })) => assert_eq!(name, "tiny.yft"),
        _ => panic!("expected an extraction error"),
    }
}

#[test]
fn load_model_decodes_mesh_and_skeleton() {
    let a = archive(&[("zion.yft", yft_file("body_d", false))]);
    let m = load_model(&a, &keys(), "zion").ok().unwrap();
    assert_eq!(m.mesh.geometries.len(), 1);
    assert_eq!(m.mesh.geometries[0].positions.len(), 6);
    assert_eq!(m.bones.len(), 2);
    assert_eq!(m.bones[1].name, "door_dside_f");
    match load_model(&a, &keys(), "adder") {
        Err(PipelineError::NotFound(n)) => assert_eq!(n, "adder.yft"),
        _ => panic!("expected not found"),
    }
}

#[test]
fn build_without_textures() {
    let a = archive(&[("zion.yft", yft_file("body_d", false))]);
    let m = load_model(&a, &keys(), "zion").ok().unwrap();
    let world = vec![([0; 3], [0; 4]), ([1, 2, 3], [0; 4])];
    let bytes = build_vehicle(&a, &keys(), "zion", &m, &world, false).ok().unwrap();
    let parts = group(&m.mesh, &m.bones, &world);
    assert_eq!(parts.len(), 2);
    assert_eq!(bytes, serialize(&parts, &[], &[]));
    assert_eq!(&bytes[0..4], b"GVEH");
}

#[test]
fn build_with_textures() {
    let a = archive(&[
        ("zion.yft", yft_file("Body_D", false)),
        ("zion.ytd", ytd_file(&[("body_d", 0xFF102030)])),
    ]);
    let m = load_model(&a, &keys(), "zion").ok().unwrap();
    let world = vec![([0; 3], [0; 4]); 2];
    let bytes = build_vehicle(&a, &keys(), "zion", &m, &world, true).ok().unwrap();
    let parts = group(&m.mesh, &m.bones, &world);
    let t = DecodedTexture { name: "body_d".into(), width: 1, height: 1, format: TextureFormat::A8R8G8B8, rgba: vec![0x10, 0x20, 0x30, 0xFF] };
    assert_eq!(bytes, serialize(&parts, &[t], &[0]));
}

#[test]
fn malformed_geometry_is_refused() {
    let a = archive(&[("zion.yft", yft_file("body_d", true))]);
    let m = load_model(&a, &keys(), "zion").ok().unwrap();
    match build_vehicle(&a, &keys(), "zion", &m, &[], false) {
        Err(PipelineError::Malformed(0)) => {}
        _ => panic!("expected a malformed geometry"),
    }
}
