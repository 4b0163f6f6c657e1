use gtaveh::joints::{link_bone_tags, parse as parse_joints};
use gtaveh::rsc7::{DecodeError, Rsc7};
use gtaveh::shaders::{diffuse_names, embedded_txd_ptr, shader_infos};
use gtaveh::skeleton::parse as parse_skeleton;
use gtaveh::yft::{decode, half_to_f32_bits};

const S: u64 = 0x5000_0000;
const G: u64 = 0x6000_0000;

/// A resource under construction: the fragment root sits at the start of the
/// system segment.
struct Res {
    sys: Vec<u8>,
    gfx: Vec<u8>,
}

impl Res {
    fn new() -> Res {
        Res { sys: vec![0; 0x100], gfx: Vec::new() }
    }
    fn reserve(&mut self, size: usize) -> u64 {
        let off = (self.sys.len() + 15) & !15;
        self.sys.resize(off + size, 0);
        S + off as u64
    }
    fn galloc(&mut self, data: &[u8]) -> u64 {
        let off = self.gfx.len();
        self.gfx.extend_from_slice(data);
        G + off as u64
    }
    fn put(&mut self, ptr: u64, off: usize, b: &[u8]) {
        let at = (ptr - S) as usize + off;
        self.sys[at..at + b.len()].copy_from_slice(b);
    }
    fn w8(&mut self, ptr: u64, off: usize, v: u8) {
        self.put(ptr, off, &[v]);
    }
    fn w16(&mut self, ptr: u64, off: usize, v: u16) {
        self.put(ptr, off, &v.to_le_bytes());
    }
    fn w32(&mut self, ptr: u64, off: usize, v: u32) {
        self.put(ptr, off, &v.to_le_bytes());
    }
    fn w64(&mut self, ptr: u64, off: usize, v: u64) {
        self.put(ptr, off, &v.to_le_bytes());
    }
    fn string(&mut self, s: &str) -> u64 {
        let p = self.reserve(s.len() + 1);
        self.put(p, 0, s.as_bytes());
        p
    }
    fn ptrs(&mut self, ps: &[u64]) -> u64 {
        let p = self.reserve(8 * ps.len().max(1));
        for (i, v) in ps.iter().enumerate() {
            self.w64(p, 8 * i, *v);
        }
        p
    }
    fn rsc(self) -> Rsc7 {
        Rsc7 { version: 162, system_flags: 0, graphics_flags: 0, compressed_len: 0, system: self.sys, graphics: self.gfx }
    }
}

struct GeoSpec {
    flags: u32,
    types: u64,
    stride: u16,
    vertex_count: u32,
    vertices: Vec<u8>,
    indices: Vec<u16>,
    palette: Vec<u16>,
}

fn geometry(r: &mut Res, g: &GeoSpec) -> u64 {
    let geo = r.reserve(0x80);
    let vb = r.reserve(0x40);
    let ib = r.reserve(0x20);
    let decl = r.reserve(0x10);
    let data = r.galloc(&g.vertices);
    let ibytes: Vec<u8> = g.indices.iter().flat_map(|i| i.to_le_bytes()).collect();
    let idata = r.galloc(&ibytes);
    r.w64(geo, 0x18, vb);
    r.w64(geo, 0x38, ib);
    r.w32(geo, 0x58, g.indices.len() as u32);
    r.w16(geo, 0x60, g.vertex_count as u16);
    r.w16(geo, 0x70, g.stride);
    if !g.palette.is_empty() {
        let pb: Vec<u8> = g.palette.iter().flat_map(|i| i.to_le_bytes()).collect();
        let pal = r.reserve(pb.len());
        r.put(pal, 0, &pb);
        r.w64(geo, 0x68, pal);
        r.w16(geo, 0x72, g.palette.len() as u16);
    }
    r.w16(vb, 0x08, g.stride);
    r.w64(vb, 0x10, data);
    r.w32(vb, 0x18, g.vertex_count);
    r.w64(vb, 0x30, decl);
    r.w32(decl, 0x00, g.flags);
    r.w64(decl, 0x08, g.types);
    r.w32(ib, 0x08, g.indices.len() as u32);
    r.w64(ib, 0x10, idata);
    geo
}

/// A drawable with one high-LOD model holding `geos` (shader index, spec).
fn drawable(r: &mut Res, geos: &[(u16, GeoSpec)]) -> u64 {
    let d = r.reserve(0x60);
    let plh = r.reserve(0x10);
    let model = r.reserve(0x28);
    let models = r.ptrs(&[model]);
    let geo_ptrs: Vec<u64> = geos.iter().map(|(_, g)| geometry(r, g)).collect();
    let arr = r.ptrs(&geo_ptrs);
    let sm = r.reserve(2 * geos.len().max(1));
    for (i, (s, _)) in geos.iter().enumerate() {
        r.w16(sm, 2 * i, *s);
    }
    r.w64(d, 0x50, plh);
    r.w64(plh, 0x00, models);
    r.w16(plh, 0x0A, 1);
    r.w64(model, 0x08, arr);
    r.w16(model, 0x10, geos.len() as u16);
    r.w64(model, 0x20, sm);
    d
}

fn f(x: f32) -> [u8; 4] {
    x.to_le_bytes()
}

/// Position (Float3), normal (Float3), uv (Half2): 28 bytes per vertex.
fn pnu(verts: &[([f32; 3], [f32; 3], [u16; 2])]) -> GeoSpec {
    let mut v = Vec::new();
    for (p, n, uv) in verts {
        for x in p.iter().chain(n.iter()) {
            v.extend_from_slice(&f(*x));
        }
        v.extend_from_slice(&uv[0].to_le_bytes());
        v.extend_from_slice(&uv[1].to_le_bytes());
    }
    GeoSpec {
        flags: 1 | 1 << 3 | 1 << 6,
        types: 6 | 6 << 12 | 1 << 24,
        stride: 28,
        vertex_count: verts.len() as u32,
        vertices: v,
        indices: vec![0, 1, 2],
        palette: vec![],
    }
}

fn triangle() -> GeoSpec {
    pnu(&[
        ([1.0, 2.0, 3.0], [0.0, 0.0, 1.0], [0x3C00, 0x3800]),
        ([4.0, 5.0, 6.0], [0.0, 1.0, 0.0], [0x0000, 0x3C00]),
        ([7.0, 8.0, 9.0], [1.0, 0.0, 0.0], [0xBC00, 0x0000]),
    ])
}

fn body_only(geos: &[(u16, GeoSpec)]) -> Res {
    let mut r = Res::new();
    let d = drawable(&mut r, geos);
    r.w64(S, 0x30, d);
    r
}

fn bits(v: [f32; 3]) -> [u32; 3] {
    [v[0].to_bits(), v[1].to_bits(), v[2].to_bits()]
}

#[test]
fn decode_body_geometry() {
    let r = body_only(&[(3, triangle())]).rsc();
    let m = decode(&r).unwrap();
    assert_eq!(m.geometries.len(), 1);
    assert!(m.children.is_empty());
    let g = &m.geometries[0];
    assert_eq!(g.shader_index, 3);
    assert_eq!(g.positions, vec![bits([1.0, 2.0, 3.0]), bits([4.0, 5.0, 6.0]), bits([7.0, 8.0, 9.0])]);
    assert_eq!(g.normals, vec![bits([0.0, 0.0, 1.0]), bits([0.0, 1.0, 0.0]), bits([1.0, 0.0, 0.0])]);
    assert_eq!(
        g.uvs,
        vec![
            [1.0f32.to_bits(), 0.5f32.to_bits()],
            [0.0f32.to_bits(), 1.0f32.to_bits()],
            [(-1.0f32).to_bits(), 0.0f32.to_bits()]
        ]
    );
    assert_eq!(g.indices, vec![0, 1, 2]);
    assert_eq!(g.stride, 28);
    assert_eq!(g.part, "body");
    assert!(!g.skinned && g.bone_idx.is_empty());
    assert!(g.transform.is_none());
}

#[test]
fn decode_skinned_with_palette() {
    // position (Float3), weights (UByte4), indices (UByte4)
    let mut v = Vec::new();
    for i in 0..3u8 {
        for x in [i as f32, 0.0, 0.0] {
            v.extend_from_slice(&f(x));
        }
        v.extend_from_slice(&[255, 0, 0, 0]);
        v.extend_from_slice(&[1, 0, 7, 0]);
    }
    let g = GeoSpec {
        flags: 1 | 2 | 4,
        types: 6 | 8 << 4 | 8 << 8,
        stride: 20,
        vertex_count: 3,
        vertices: v,
        indices: vec![2, 1, 0],
        palette: vec![5, 9],
    };
    let r = body_only(&[(0, g)]).rsc();
    let m = decode(&r).unwrap();
    let g = &m.geometries[0];
    assert!(g.skinned);
    // palette entry 1 is bone 9; an index past the palette reads as bone 0
    assert_eq!(g.bone_idx, vec![[9, 5, 0, 5]; 3]);
    assert_eq!(g.bone_wt, vec![[255, 0, 0, 0]; 3]);
    assert_eq!(g.indices, vec![2, 1, 0]);
}

#[test]
fn decode_physics_child() {
    let mut r = Res::new();
    let body = drawable(&mut r, &[(0, triangle())]);
    r.w64(S, 0x30, body);
    let child_d = drawable(&mut r, &[(1, triangle()), (2, triangle())]);
    let child = r.reserve(0xB0);
    r.w16(child, 0x0A, 0x1234);
    r.w64(child, 0xA0, child_d);
    let children = r.ptrs(&[0, child]);
    let transforms = r.reserve(0x20 + 2 * 64);
    let mut mat = [0f32; 16];
    mat[0] = 1.0;
    mat[5] = 1.0;
    mat[10] = 1.0;
    mat[15] = 1.0;
    mat[12] = 10.0;
    for (j, x) in mat.iter().enumerate() {
        r.put(transforms, 0x20 + 64 + 4 * j, &f(*x));
    }
    let lod1 = r.reserve(0x120);
    r.w64(lod1, 0xD0, children);
    r.w8(lod1, 0x11D, 2);
    r.w64(lod1, 0x100, transforms);
    let group = r.reserve(0x20);
    r.w64(group, 0x10, lod1);
    r.w64(S, 0xF0, group);
    let m = decode(&r.rsc()).unwrap();
    assert_eq!(m.geometries.len(), 3);
    assert_eq!(m.children, vec![(1, 0x1234, 2)]);
    // the children's counts cover the geometry after the body's
    let counted: usize = m.children.iter().map(|c| c.2).sum();
    assert_eq!(m.geometries.len() - counted, 1);
    assert_eq!(m.geometries[1].part, "child1");
    assert_eq!(m.geometries[2].shader_index, 2);
    let t = m.geometries[1].transform.unwrap();
    assert_eq!(t[12], 10.0f32.to_bits());
    assert_eq!(t[0], 1.0f32.to_bits());
    // the placement is carried, not applied
    assert_eq!(m.geometries[1].positions[0], bits([1.0, 2.0, 3.0]));
}

#[test]
fn decode_no_geometries() {
    let r = Res::new().rsc();
    assert_eq!(decode(&r).err(), Some(DecodeError::NoGeometries));
}

#[test]
fn decode_missing_buffers() {
    let built = body_only(&[(0, triangle())]).rsc();
    let geo = find_geometry(&built);
    let mut sys = built.system.clone();
    sys[geo + 0x18..geo + 0x20].copy_from_slice(&0u64.to_le_bytes());
    let r = Res { sys, gfx: built.graphics.clone() };
    assert_eq!(decode(&r.rsc()).err(), Some(DecodeError::MissingBuffers));
}

/// Offset in the system segment of the first geometry of the body drawable.
fn find_geometry(rsc: &Rsc7) -> usize {
    let rd = |p: u64, off: usize| -> u64 {
        let at = (p - S) as usize + off;
        u64::from_le_bytes(rsc.system[at..at + 8].try_into().unwrap())
    };
    let d = rd(S, 0x30);
    let plh = rd(d, 0x50);
    let models = rd(plh, 0);
    let model = rd(models, 0);
    let arr = rd(model, 0x08);
    (rd(arr, 0) - S) as usize
}

#[test]
fn decode_zero_stride() {
    let mut g = triangle();
    g.stride = 0;
    let r = body_only(&[(0, g)]).rsc();
    assert_eq!(decode(&r).err(), Some(DecodeError::ZeroStride));
}

#[test]
fn decode_layout_wider_than_stride() {
    let mut g = triangle();
    g.stride = 8;
    let r = body_only(&[(0, g)]).rsc();
    assert_eq!(decode(&r).err(), Some(DecodeError::VertexLayout));
}

#[test]
fn decode_vertex_data_out_of_bounds() {
    let mut g = triangle();
    g.vertex_count = 100;
    let r = body_only(&[(0, g)]).rsc();
    assert!(matches!(decode(&r).err(), Some(DecodeError::OutOfBounds { .. })));
}

#[test]
fn decode_invalid_model_list_pointer() {
    let mut r = Res::new();
    let d = r.reserve(0x60);
    r.w64(d, 0x50, 0x7000_0000);
    r.w64(S, 0x30, d);
    assert_eq!(decode(&r.rsc()).err(), Some(DecodeError::InvalidPointer(0x7000_0000)));
}

fn half_reference(h: u16) -> f32 {
    let sign = (h >> 15) & 1;
    let exp = (h >> 10) & 0x1F;
    let mant = h & 0x3FF;
    let val = if exp == 0 {
        (mant as f32) * 2f32.powi(-24)
    } else if exp == 0x1F {
        if mant == 0 { f32::INFINITY } else { f32::NAN }
    } else {
        (1.0 + (mant as f32) / 1024.0) * 2f32.powi(exp as i32 - 15)
    };
    if sign == 1 { -val } else { val }
}

#[test]
fn half_floats() {
    assert_eq!(half_to_f32_bits(0x3C00), 1.0f32.to_bits());
    assert_eq!(half_to_f32_bits(0xC000), (-2.0f32).to_bits());
    assert_eq!(half_to_f32_bits(0x0001), 2f32.powi(-24).to_bits());
    assert_eq!(half_to_f32_bits(0x7C00), f32::INFINITY.to_bits());
    assert_eq!(half_to_f32_bits(0x8000), (-0.0f32).to_bits());
    for h in 0..=u16::MAX {
        assert_eq!(half_to_f32_bits(h), half_reference(h).to_bits(), "half {h:#06x}");
    }
}

fn with_skeleton(bones: &[(&str, i16, u16, [f32; 3])]) -> Rsc7 {
    let mut r = body_only(&[(0, triangle())]);
    let d = u64::from_le_bytes(r.sys[0x30..0x38].try_into().unwrap());
    let skel = r.reserve(0x60);
    let arr = r.reserve(0x50 * bones.len());
    for (i, (name, parent, tag, t)) in bones.iter().enumerate() {
        let b = arr + (0x50 * i) as u64;
        let np = r.string(name);
        r.w64(b, 0x38, np);
        r.w16(b, 0x42, i as u16);
        r.w16(b, 0x44, *tag);
        r.w16(b, 0x32, *parent as u16);
        for k in 0..3 {
            r.put(b, 0x10 + 4 * k, &f(t[k]));
            r.put(b, 0x20 + 4 * k, &f(1.0));
        }
        r.put(b, 0x0C, &f(1.0));
    }
    r.w64(skel, 0x20, arr);
    r.w16(skel, 0x5E, bones.len() as u16);
    r.w64(d, 0x18, skel);
    r.rsc()
}

#[test]
fn skeleton_bones() {
    let r = with_skeleton(&[("chassis", -1, 0, [0.0, 0.0, 0.0]), ("door_dside_f", 0, 6, [1.0, 0.5, 0.25])]);
    let bones = parse_skeleton(&r).unwrap();
    assert_eq!(bones.len(), 2);
    assert_eq!(bones[0].name, "chassis");
    assert_eq!(bones[0].parent, -1);
    assert_eq!(bones[1].name, "door_dside_f");
    assert_eq!((bones[1].index, bones[1].tag, bones[1].parent), (1, 6, 0));
    assert_eq!(bones[1].translation, bits([1.0, 0.5, 0.25]));
    assert_eq!(bones[1].scale, bits([1.0, 1.0, 1.0]));
    assert_eq!(bones[1].rotation, [0, 0, 0, 1.0f32.to_bits()]);
}

#[test]
fn skeleton_absent() {
    let r = body_only(&[(0, triangle())]).rsc();
    assert!(parse_skeleton(&r).unwrap().is_empty());
    assert!(parse_skeleton(&Res::new().rsc()).unwrap().is_empty());
}

fn with_shaders() -> Rsc7 {
    let mut r = body_only(&[(0, triangle())]);
    let d = u64::from_le_bytes(r.sys[0x30..0x38].try_into().unwrap());
    let tex_d = r.reserve(0x30);
    let nd = r.string("body_d");
    r.w64(tex_d, 0x28, nd);
    let tex_n = r.reserve(0x30);
    let nn = r.string("body_n");
    r.w64(tex_n, 0x28, nn);
    let tex_e = r.reserve(0x30);
    let ne = r.string("");
    r.w64(tex_e, 0x28, ne);
    let params = r.reserve(16 * 4);
    // param 0: a texture with an empty name, 1: not a texture, 2: diffuse, 3: normal
    r.w64(params, 0x08, tex_e);
    r.w8(params, 16, 1);
    r.w64(params, 16 + 0x08, tex_n);
    r.w64(params, 32 + 0x08, tex_d);
    r.w64(params, 48 + 0x08, tex_n);
    let sh = r.reserve(0x20);
    r.w64(sh, 0x00, params);
    r.w8(sh, 0x10, 4);
    let shaders = r.ptrs(&[sh, 0]);
    let sg = r.reserve(0x20);
    r.w64(sg, 0x08, 0x5000_0ABC);
    r.w64(sg, 0x10, shaders);
    r.w16(sg, 0x18, 2);
    r.w64(d, 0x10, sg);
    r.rsc()
}

#[test]
fn shader_texture_names() {
    let r = with_shaders();
    let infos = shader_infos(&r).unwrap();
    assert_eq!(infos.len(), 2);
    assert_eq!(infos[0].diffuse.as_deref(), Some("body_d"));
    assert_eq!(infos[0].normal.as_deref(), Some("body_n"));
    assert_eq!((infos[1].diffuse.as_deref(), infos[1].normal.as_deref()), (None, None));
    assert_eq!(diffuse_names(&r).unwrap(), vec![Some("body_d".to_string()), None]);
    assert_eq!(embedded_txd_ptr(&r), 0x5000_0ABC);
}

#[test]
fn no_shader_group() {
    let r = body_only(&[(0, triangle())]).rsc();
    assert!(shader_infos(&r).unwrap().is_empty());
    assert_eq!(embedded_txd_ptr(&r), 0);
    assert_eq!(embedded_txd_ptr(&Res::new().rsc()), 0);
}

fn with_joints() -> Rsc7 {
    let mut r = body_only(&[(0, triangle())]);
    let c0 = r.reserve(0xB0);
    r.w16(c0, 0x0A, 11);
    let c1 = r.reserve(0xB0);
    r.w16(c1, 0x0A, 22);
    let children = r.ptrs(&[c0, 0, c1]);
    let j = r.reserve(0xB0);
    r.w8(j, 0x15, 0);
    r.w8(j, 0x16, 0);
    r.w8(j, 0x17, 2);
    r.put(j, 0x20, &f(0.5));
    r.put(j, 0x20 + 8 * 16 + 12, &f(-1.0));
    let joints = r.ptrs(&[0, j]);
    let abt = r.reserve(0x90);
    r.w64(abt, 0x78, joints);
    r.w8(abt, 0x89, 2);
    let lod1 = r.reserve(0x120);
    r.w64(lod1, 0xD0, children);
    r.w8(lod1, 0x11D, 3);
    r.w64(lod1, 0x20, abt);
    let group = r.reserve(0x20);
    r.w64(group, 0x10, lod1);
    r.w64(S, 0xF0, group);
    r.rsc()
}

#[test]
fn link_tags_and_joints() {
    let r = with_joints();
    assert_eq!(link_bone_tags(&r), vec![11, 0, 22]);
    let js = parse_joints(&r).unwrap();
    assert_eq!(js.len(), 1);
    assert_eq!((js[0].jtype, js[0].parent_link, js[0].child_link), (0, 0, 2));
    assert_eq!(js[0].vecs[0][0], 0.5f32.to_bits());
    assert_eq!(js[0].vecs[8][3], (-1.0f32).to_bits());
    assert_eq!(js[0].vecs[4], [0; 4]);
}

#[test]
fn no_physics() {
    let r = body_only(&[(0, triangle())]).rsc();
    assert!(link_bone_tags(&r).is_empty());
    assert!(parse_joints(&r).unwrap().is_empty());
}
