//! Compact binary wire format ("GVEH") sent to the Roblox client.
//!
//! All little-endian. Geometry attributes are de-interleaved (plain arrays)
//! so the LuaU side can feed them straight into EditableMesh. Parts-based
//! format (v3): the vehicle is a list of rigid parts, a "body" plus
//! articulated parts (doors/hood/boot) each carrying a hinge, in RAGE space.
//!
//! Header:
//!   u32  magic 'GVEH'
//!   u8   version (=3)
//!   u8   reserved
//!   u16  reserved
//!   u32  partCount
//!   u32  textureCount
//! Part[]:
//!   u16  nameLen, name bytes (utf8)
//!   u8   articulated (0/1)
//!   u8   reserved
//!   if articulated:
//!     f32 hingePos[3], f32 hingeAxis[3], f32 minAngle, f32 maxAngle
//!   u32  geometryCount
//!   Geometry[]:
//!     u16  shaderIndex
//!     i16  textureIndex (index into Texture[], -1 = none)
//!     u8   attrFlags (bit0 normals, bit1 uvs)
//!     u8   reserved
//!     u32  vertexCount   (< 65536)
//!     u32  indexCount
//!     f32  positions[vertexCount*3]
//!     f32  normals[vertexCount*3]   (if bit0)
//!     f32  uvs[vertexCount*2]       (if bit1)
//!     u16  indices[indexCount]
//! Texture[]:
//!   u16  nameLen, name bytes (utf8)
//!   u16  width, u16 height
//!   u8   rgba[width*height*4]

use vstd::prelude::*;
use crate::parts::{Hinge, Part, PartView, part_views};
use crate::textures::DecodedTexture;
use crate::yft::{Geometry, GeometryView, views};

verus! {

/// The little-endian word 'GVEH'.
pub const MAGIC: u32 = 0x48455647;

/// Format version written in the header.
pub const VERSION: u8 = 3;

pub open spec fn enc_u16(v: u16) -> Seq<u8> {
    seq![(v % 0x100) as u8, (v / 0x100) as u8]
}

pub open spec fn enc_u32(v: u32) -> Seq<u8> {
    seq![
        (v % 0x100) as u8,
        ((v / 0x100) % 0x100) as u8,
        ((v / 0x1_0000) % 0x100) as u8,
        (v / 0x100_0000) as u8,
    ]
}

/// Three words per element, in order.
pub open spec fn enc_vec3s(s: Seq<[u32; 3]>) -> Seq<u8>
    decreases s.len(),
{
    if s.len() == 0 {
        Seq::empty()
    } else {
        enc_vec3s(s.drop_last()) + enc_u32(s.last()[0]) + enc_u32(s.last()[1]) + enc_u32(s.last()[2])
    }
}

/// Two words per element, in order.
pub open spec fn enc_vec2s(s: Seq<[u32; 2]>) -> Seq<u8>
    decreases s.len(),
{
    if s.len() == 0 {
        Seq::empty()
    } else {
        enc_vec2s(s.drop_last()) + enc_u32(s.last()[0]) + enc_u32(s.last()[1])
    }
}

/// Each index truncated to its low 16 bits.
pub open spec fn enc_indices(s: Seq<u32>) -> Seq<u8>
    decreases s.len(),
{
    if s.len() == 0 {
        Seq::empty()
    } else {
        enc_indices(s.drop_last()) + enc_u16(s.last() as u16)
    }
}

/// attrFlags: bit0 normals present, bit1 uvs present.
pub open spec fn attr_flags(g: GeometryView) -> u8 {
    ((if g.normals.len() > 0 { 1nat } else { 0nat }) + (if g.uvs.len() > 0 { 2nat } else { 0nat })) as u8
}

pub open spec fn enc_geometry(g: GeometryView, tex_index: i16) -> Seq<u8> {
    enc_u16(g.shader_index) + enc_u16(tex_index as u16) + seq![attr_flags(g), 0u8] + enc_u32(
        g.positions.len() as u32,
    ) + enc_u32(g.indices.len() as u32) + enc_vec3s(g.positions) + (if g.normals.len() > 0 {
        enc_vec3s(g.normals)
    } else {
        Seq::empty()
    }) + (if g.uvs.len() > 0 {
        enc_vec2s(g.uvs)
    } else {
        Seq::empty()
    }) + enc_indices(g.indices)
}

/// The texture index of a geometry: its shader's entry, or -1 past the table.
pub open spec fn tex_for(g: GeometryView, shader_tex_index: Seq<i16>) -> i16 {
    if (g.shader_index as nat) < shader_tex_index.len() {
        shader_tex_index[g.shader_index as int]
    } else {
        -1i16
    }
}

pub open spec fn enc_geometries(gs: Seq<GeometryView>, shader_tex_index: Seq<i16>) -> Seq<u8>
    decreases gs.len(),
{
    if gs.len() == 0 {
        Seq::empty()
    } else {
        enc_geometries(gs.drop_last(), shader_tex_index) + enc_geometry(
            gs.last(),
            tex_for(gs.last(), shader_tex_index),
        )
    }
}

pub open spec fn enc_hinge(h: Option<Hinge>) -> Seq<u8> {
    match h {
        None => Seq::empty(),
        Some(h) => enc_u32(h.pos[0]) + enc_u32(h.pos[1]) + enc_u32(h.pos[2]) + enc_u32(h.axis[0])
            + enc_u32(h.axis[1]) + enc_u32(h.axis[2]) + enc_u32(h.min_angle) + enc_u32(h.max_angle),
    }
}

/// A length-prefixed (u16, truncated) UTF-8 name.
pub open spec fn enc_name(name: Seq<char>) -> Seq<u8> {
    let b = vstd::utf8::encode_utf8(name);
    enc_u16(b.len() as u16) + b
}

pub open spec fn enc_part(p: PartView, shader_tex_index: Seq<i16>) -> Seq<u8> {
    enc_name(p.name) + seq![if p.articulated { 1u8 } else { 0u8 }, 0u8] + enc_hinge(p.hinge) + enc_u32(
        p.geometries.len() as u32,
    ) + enc_geometries(p.geometries, shader_tex_index)
}

pub open spec fn enc_parts(ps: Seq<PartView>, shader_tex_index: Seq<i16>) -> Seq<u8>
    decreases ps.len(),
{
    if ps.len() == 0 {
        Seq::empty()
    } else {
        enc_parts(ps.drop_last(), shader_tex_index) + enc_part(ps.last(), shader_tex_index)
    }
}

/// Mathematical view of a texture's wire fields.
pub open spec fn enc_texture(name: Seq<char>, width: u32, height: u32, rgba: Seq<u8>) -> Seq<u8> {
    enc_name(name) + enc_u16(width as u16) + enc_u16(height as u16) + rgba
}

pub open spec fn enc_textures(ts: Seq<DecodedTexture>) -> Seq<u8>
    decreases ts.len(),
{
    if ts.len() == 0 {
        Seq::empty()
    } else {
        enc_textures(ts.drop_last()) + enc_texture(
            ts.last().name@,
            ts.last().width,
            ts.last().height,
            ts.last().rgba@,
        )
    }
}

/// The whole message.
pub open spec fn spec_serialize(ps: Seq<PartView>, ts: Seq<DecodedTexture>, shader_tex_index: Seq<i16>) -> Seq<u8> {
    enc_u32(MAGIC) + seq![VERSION, 0u8] + enc_u16(0) + enc_u32(ps.len() as u32) + enc_u32(
        ts.len() as u32,
    ) + enc_parts(ps, shader_tex_index) + enc_textures(ts)
}

struct W {
    b: Vec<u8>,
}

impl W {
    fn u8(&mut self, v: u8)
        ensures
            final(self).b@ == old(self).b@.push(v),
    {
        self.b.push(v);
    }

    fn u16(&mut self, v: u16)
        ensures
            final(self).b@ == old(self).b@ + enc_u16(v),
    {
        self.b.push((v % 0x100) as u8);
        self.b.push((v / 0x100) as u8);
        assert(self.b@ =~= old(self).b@ + enc_u16(v));
    }

    fn u32(&mut self, v: u32)
        ensures
            final(self).b@ == old(self).b@ + enc_u32(v),
    {
        self.b.push((v % 0x100) as u8);
        self.b.push(((v / 0x100) % 0x100) as u8);
        self.b.push(((v / 0x1_0000) % 0x100) as u8);
        self.b.push((v / 0x100_0000) as u8);
        assert(self.b@ =~= old(self).b@ + enc_u32(v));
    }

    /// A float, given by its bits.
    fn float(&mut self, bits: u32)
        ensures
            final(self).b@ == old(self).b@ + enc_u32(bits),
    {
        self.u32(bits);
    }

    fn raw(&mut self, s: &[u8])
        ensures
            final(self).b@ == old(self).b@ + s@,
    {
        let mut i: usize = 0;
        let ghost start = self.b@;
        while i < s.len()
            invariant
                i <= s.len(),
                self.b@ == start + s@.subrange(0, i as int),
            decreases s.len() - i,
        {
            self.b.push(s[i]);
            i += 1;
            assert(self.b@ =~= start + s@.subrange(0, i as int));
        }
        assert(s@.subrange(0, s.len() as int) =~= s@);
    }

    fn vec3s(&mut self, s: &Vec<[u32; 3]>)
        ensures
            final(self).b@ == old(self).b@ + enc_vec3s(s@),
    {
        let ghost start = self.b@;
        let mut i: usize = 0;
        while i < s.len()
            invariant
                i <= s.len(),
                self.b@ == start + enc_vec3s(s@.subrange(0, i as int)),
            decreases s.len() - i,
        {
            let p = s[i];
            self.float(p[0]);
            self.float(p[1]);
            self.float(p[2]);
            proof {
                assert(s@.subrange(0, i + 1).drop_last() =~= s@.subrange(0, i as int));
            }
            i += 1;
            assert(self.b@ =~= start + enc_vec3s(s@.subrange(0, i as int)));
        }
        assert(s@.subrange(0, s.len() as int) =~= s@);
    }

    fn vec2s(&mut self, s: &Vec<[u32; 2]>)
        ensures
            final(self).b@ == old(self).b@ + enc_vec2s(s@),
    {
        let ghost start = self.b@;
        let mut i: usize = 0;
        while i < s.len()
            invariant
                i <= s.len(),
                self.b@ == start + enc_vec2s(s@.subrange(0, i as int)),
            decreases s.len() - i,
        {
            let p = s[i];
            self.float(p[0]);
            self.float(p[1]);
            proof {
                assert(s@.subrange(0, i + 1).drop_last() =~= s@.subrange(0, i as int));
            }
            i += 1;
            assert(self.b@ =~= start + enc_vec2s(s@.subrange(0, i as int)));
        }
        assert(s@.subrange(0, s.len() as int) =~= s@);
    }

    fn indices(&mut self, s: &Vec<u32>)
        ensures
            final(self).b@ == old(self).b@ + enc_indices(s@),
    {
        let ghost start = self.b@;
        let mut i: usize = 0;
        while i < s.len()
            invariant
                i <= s.len(),
                self.b@ == start + enc_indices(s@.subrange(0, i as int)),
            decreases s.len() - i,
        {
            self.u16(s[i] as u16);
            proof {
                assert(s@.subrange(0, i + 1).drop_last() =~= s@.subrange(0, i as int));
            }
            i += 1;
            assert(self.b@ =~= start + enc_indices(s@.subrange(0, i as int)));
        }
        assert(s@.subrange(0, s.len() as int) =~= s@);
    }

    fn name(&mut self, name: &String)
        ensures
            final(self).b@ == old(self).b@ + enc_name(name@),
    {
        let bytes = name.as_str().as_bytes();
        self.u16(bytes.len() as u16);
        self.raw(bytes);
        assert(self.b@ =~= old(self).b@ + enc_name(name@));
    }
}

fn write_geometry(w: &mut W, g: &Geometry, tex_index: i16)
    ensures
        final(w).b@ == old(w).b@ + enc_geometry(g@, tex_index),
{
    let has_n = g.normals.len() != 0;
    let has_uv = g.uvs.len() != 0;
    let flags: u8 = (if has_n { 1u8 } else { 0u8 }) + (if has_uv { 2u8 } else { 0u8 });
    let ghost start = w.b@;
    w.u16(g.shader_index);
    w.u16(tex_index as u16);
    w.u8(flags);
    w.u8(0);
    w.u32(g.positions.len() as u32);
    w.u32(g.indices.len() as u32);
    w.vec3s(&g.positions);
    let ghost mid = w.b@;
    if has_n {
        w.vec3s(&g.normals);
    }
    let ghost mid2 = w.b@;
    if has_uv {
        w.vec2s(&g.uvs);
    }
    let ghost mid3 = w.b@;
    w.indices(&g.indices);
    assert(w.b@ =~= start + enc_geometry(g@, tex_index));
}

fn tex_index_for(g: &Geometry, shader_tex_index: &[i16]) -> (r: i16)
    ensures
        r == tex_for(g@, shader_tex_index@),
{
    if (g.shader_index as usize) < shader_tex_index.len() {
        shader_tex_index[g.shader_index as usize]
    } else {
        -1
    }
}

fn write_hinge(w: &mut W, hinge: &Option<Hinge>)
    ensures
        final(w).b@ == old(w).b@ + enc_hinge(*hinge),
{
    let ghost start = w.b@;
    if let Some(h) = hinge {
        w.float(h.pos[0]);
        w.float(h.pos[1]);
        w.float(h.pos[2]);
        w.float(h.axis[0]);
        w.float(h.axis[1]);
        w.float(h.axis[2]);
        w.float(h.min_angle);
        w.float(h.max_angle);
    }
    assert(w.b@ =~= start + enc_hinge(*hinge));
}

#[verifier::spinoff_prover]
fn write_part(w: &mut W, p: &Part, shader_tex_index: &[i16])
    ensures
        final(w).b@ == old(w).b@ + enc_part(p@, shader_tex_index@),
{
    let ghost start = w.b@;
    w.name(&p.name);
    w.u8(if p.articulated { 1u8 } else { 0u8 });
    w.u8(0);
    write_hinge(w, &p.hinge);
    assert(w.b@ =~= start + enc_name(p.name@) + seq![if p.articulated { 1u8 } else { 0u8 }, 0u8] + enc_hinge(p.hinge));
    w.u32(p.geometries.len() as u32);
    let ghost head = w.b@;
    let mut i: usize = 0;
    while i < p.geometries.len()
        invariant
            i <= p.geometries.len(),
            w.b@ == head + enc_geometries(views(p.geometries@).subrange(0, i as int), shader_tex_index@),
        decreases p.geometries.len() - i,
    {
        let g = &p.geometries[i];
        let t = tex_index_for(g, shader_tex_index);
        write_geometry(w, g, t);
        proof {
            assert(views(p.geometries@).subrange(0, i + 1).drop_last() =~= views(p.geometries@).subrange(0, i as int));
            assert(views(p.geometries@).subrange(0, i + 1).last() == g@);
        }
        i += 1;
    }
    assert(views(p.geometries@).subrange(0, p.geometries.len() as int) =~= views(p.geometries@));
    assert(w.b@ =~= start + enc_part(p@, shader_tex_index@));
}

fn write_texture(w: &mut W, t: &DecodedTexture)
    ensures
        final(w).b@ == old(w).b@ + enc_texture(t.name@, t.width, t.height, t.rgba@),
{
    let ghost start = w.b@;
    w.name(&t.name);
    w.u16(t.width as u16);
    w.u16(t.height as u16);
    w.raw(t.rgba.as_slice());
    assert(w.b@ =~= start + enc_texture(t.name@, t.width, t.height, t.rgba@));
}

/// Encode the parts and textures. `shader_tex_index[shader_index]` is the
/// index into `texs` of that shader's diffuse texture, or -1 for none.
pub fn serialize(parts: &[Part], texs: &[DecodedTexture], shader_tex_index: &[i16]) -> (out: Vec<u8>)
    ensures
        out@ == spec_serialize(part_views(parts@), texs@, shader_tex_index@),
{
    let mut w = W { b: Vec::new() };
    w.u32(MAGIC);
    w.u8(VERSION);
    w.u8(0);
    w.u16(0);
    w.u32(parts.len() as u32);
    w.u32(texs.len() as u32);
    let ghost head = w.b@;
    let mut i: usize = 0;
    while i < parts.len()
        invariant
            i <= parts.len(),
            w.b@ == head + enc_parts(part_views(parts@).subrange(0, i as int), shader_tex_index@),
        decreases parts.len() - i,
    {
        write_part(&mut w, &parts[i], shader_tex_index);
        proof {
            assert(part_views(parts@).subrange(0, i + 1).drop_last() =~= part_views(parts@).subrange(0, i as int));
        }
        i += 1;
    }
    assert(part_views(parts@).subrange(0, parts.len() as int) =~= part_views(parts@));
    let ghost mid = w.b@;
    let mut j: usize = 0;
    while j < texs.len()
        invariant
            j <= texs.len(),
            w.b@ == mid + enc_textures(texs@.subrange(0, j as int)),
        decreases texs.len() - j,
    {
        write_texture(&mut w, &texs[j]);
        proof {
            assert(texs@.subrange(0, j + 1).drop_last() =~= texs@.subrange(0, j as int));
        }
        j += 1;
    }
    assert(texs@.subrange(0, texs.len() as int) =~= texs@);
    assert(w.b@ =~= spec_serialize(part_views(parts@), texs@, shader_tex_index@));
    w.b
}

proof fn lemma_head_prefix(head: Seq<u8>, rest: Seq<u8>)
    requires
        head.len() == 16,
    ensures
        (head + rest).len() >= 16,
        (head + rest).subrange(0, 8) == head.subrange(0, 8),
        (head + rest).subrange(8, 12) == head.subrange(8, 12),
        (head + rest).subrange(12, 16) == head.subrange(12, 16),
{
    assert((head + rest).subrange(0, 8) =~= head.subrange(0, 8));
    assert((head + rest).subrange(8, 12) =~= head.subrange(8, 12));
    assert((head + rest).subrange(12, 16) =~= head.subrange(12, 16));
}

/// Every blob opens with the 16-byte header: the bytes `G V E H`, the version
/// (3), three reserved zero bytes, then the part count and the texture count
/// as little-endian words.
#[verifier::spinoff_prover]
pub proof fn serialized_header(ps: Seq<PartView>, ts: Seq<DecodedTexture>, shader_tex_index: Seq<i16>)
    ensures
        spec_serialize(ps, ts, shader_tex_index).len() >= 16,
        spec_serialize(ps, ts, shader_tex_index).subrange(0, 8) == seq![0x47u8, 0x56u8, 0x45u8, 0x48u8, 3u8, 0u8, 0u8, 0u8],
        spec_serialize(ps, ts, shader_tex_index).subrange(8, 12) == enc_u32(ps.len() as u32),
        spec_serialize(ps, ts, shader_tex_index).subrange(12, 16) == enc_u32(ts.len() as u32),
{
    let magic = enc_u32(MAGIC);
    assert(MAGIC % 0x100 == 0x47 && (MAGIC / 0x100) % 0x100 == 0x56 && (MAGIC / 0x1_0000) % 0x100 == 0x45
        && MAGIC / 0x100_0000 == 0x48);
    assert(magic =~= seq![0x47u8, 0x56u8, 0x45u8, 0x48u8]);
    let zero = enc_u16(0);
    assert(zero =~= seq![0u8, 0u8]);
    let pc = enc_u32(ps.len() as u32);
    let tc = enc_u32(ts.len() as u32);
    let head = magic + seq![VERSION, 0u8] + zero + pc + tc;
    let rest = enc_parts(ps, shader_tex_index) + enc_textures(ts);
    assert(spec_serialize(ps, ts, shader_tex_index) =~= head + rest);
    assert(head.subrange(0, 8) =~= seq![0x47u8, 0x56u8, 0x45u8, 0x48u8, 3u8, 0u8, 0u8, 0u8]);
    assert(head.subrange(8, 12) =~= pc);
    assert(head.subrange(12, 16) =~= tc);
    lemma_head_prefix(head, rest);
}


proof fn lemma_le32_enc(w: u32)
    ensures
        crate::rsc7::le32(enc_u32(w)) == w,
{
    let b = enc_u32(w);
    assert(b[0] == w % 0x100 && b[1] == (w / 0x100) % 0x100 && b[2] == (w / 0x1_0000) % 0x100 && b[3] == w
        / 0x100_0000);
    assert(w == w % 0x100 + 0x100 * ((w / 0x100) % 0x100) + 0x1_0000 * ((w / 0x1_0000) % 0x100) + 0x100_0000 * (
    w / 0x100_0000)) by (nonlinear_arith);
}

proof fn lemma_vec3s_len(s: Seq<[u32; 3]>)
    ensures
        enc_vec3s(s).len() == 12 * s.len(),
    decreases s.len(),
{
    if s.len() > 0 {
        lemma_vec3s_len(s.drop_last());
    }
}

proof fn lemma_vec2s_at(s: Seq<[u32; 2]>, i: int)
    requires
        0 <= i < s.len(),
    ensures
        enc_vec2s(s).len() == 8 * s.len(),
        enc_vec2s(s).subrange(8 * i, 8 * i + 4) == enc_u32(s[i][0]),
        enc_vec2s(s).subrange(8 * i + 4, 8 * i + 8) == enc_u32(s[i][1]),
    decreases s.len(),
{
    let p = s.drop_last();
    let out = enc_vec2s(s);
    if i < s.len() - 1 {
        lemma_vec2s_at(p, i);
        assert(p[i] == s[i]);
        assert(out.subrange(8 * i, 8 * i + 4) =~= enc_vec2s(p).subrange(8 * i, 8 * i + 4));
        assert(out.subrange(8 * i + 4, 8 * i + 8) =~= enc_vec2s(p).subrange(8 * i + 4, 8 * i + 8));
    } else {
        if p.len() > 0 {
            lemma_vec2s_at(p, 0);
        }
        assert(enc_vec2s(p).len() == 8 * p.len());
        assert(out.subrange(8 * i, 8 * i + 4) =~= enc_u32(s[i][0]));
        assert(out.subrange(8 * i + 4, 8 * i + 8) =~= enc_u32(s[i][1]));
    }
}

/// A geometry's record carries each vertex's uv as u then v: after the
/// 14-byte geometry header, the positions and the normals (12 bytes a
/// vertex each), vertex `i`'s uv is 8 bytes at `8 * i`, the little-endian
/// word u (`uvs[i][0]`) and then the word v (`uvs[i][1]`).
pub proof fn uv_record_is_u_then_v(g: GeometryView, tex_index: i16, i: int)
    requires
        0 <= i < g.uvs.len(),
    ensures
        ({
            let rec = enc_geometry(g, tex_index);
            let o = 14 + 12 * g.positions.len() + (if g.normals.len() > 0 {
                12 * g.normals.len()
            } else {
                0
            }) + 8 * i;
            &&& rec.len() >= o + 8
            &&& crate::rsc7::le32(rec.subrange(o, o + 4)) == g.uvs[i][0]
            &&& crate::rsc7::le32(rec.subrange(o + 4, o + 8)) == g.uvs[i][1]
        }),
{
    let head = enc_u16(g.shader_index) + enc_u16(tex_index as u16) + seq![attr_flags(g), 0u8] + enc_u32(
        g.positions.len() as u32,
    ) + enc_u32(g.indices.len() as u32) + enc_vec3s(g.positions) + (if g.normals.len() > 0 {
        enc_vec3s(g.normals)
    } else {
        Seq::empty()
    });
    let uv = enc_vec2s(g.uvs);
    let tail = enc_indices(g.indices);
    lemma_vec3s_len(g.positions);
    lemma_vec3s_len(g.normals);
    lemma_vec2s_at(g.uvs, i);
    let base = 14 + 12 * g.positions.len() + (if g.normals.len() > 0 {
        12 * g.normals.len()
    } else {
        0
    });
    assert(head.len() == base);
    let rec = enc_geometry(g, tex_index);
    assert(rec == head + uv + tail);
    let o = base + 8 * i;
    assert(rec.subrange(o, o + 4) =~= uv.subrange(8 * i, 8 * i + 4));
    assert(rec.subrange(o + 4, o + 8) =~= uv.subrange(8 * i + 4, 8 * i + 8));
    lemma_le32_enc(g.uvs[i][0]);
    lemma_le32_enc(g.uvs[i][1]);
}


proof fn lemma_vec3s_at(s: Seq<[u32; 3]>, i: int)
    requires
        0 <= i < s.len(),
    ensures
        enc_vec3s(s).subrange(12 * i, 12 * i + 4) == enc_u32(s[i][0]),
        enc_vec3s(s).subrange(12 * i + 4, 12 * i + 8) == enc_u32(s[i][1]),
        enc_vec3s(s).subrange(12 * i + 8, 12 * i + 12) == enc_u32(s[i][2]),
    decreases s.len(),
{
    let p = s.drop_last();
    let out = enc_vec3s(s);
    lemma_vec3s_len(p);
    if i < s.len() - 1 {
        lemma_vec3s_at(p, i);
        assert(p[i] == s[i]);
        assert(out.subrange(12 * i, 12 * i + 4) =~= enc_vec3s(p).subrange(12 * i, 12 * i + 4));
        assert(out.subrange(12 * i + 4, 12 * i + 8) =~= enc_vec3s(p).subrange(12 * i + 4, 12 * i + 8));
        assert(out.subrange(12 * i + 8, 12 * i + 12) =~= enc_vec3s(p).subrange(12 * i + 8, 12 * i + 12));
    } else {
        assert(out.subrange(12 * i, 12 * i + 4) =~= enc_u32(s[i][0]));
        assert(out.subrange(12 * i + 4, 12 * i + 8) =~= enc_u32(s[i][1]));
        assert(out.subrange(12 * i + 8, 12 * i + 12) =~= enc_u32(s[i][2]));
    }
}

proof fn lemma_indices_at(s: Seq<u32>, j: int)
    requires
        0 <= j < s.len(),
    ensures
        enc_indices(s).len() == 2 * s.len(),
        enc_indices(s).subrange(2 * j, 2 * j + 2) == enc_u16(s[j] as u16),
    decreases s.len(),
{
    let p = s.drop_last();
    let out = enc_indices(s);
    if j < s.len() - 1 {
        lemma_indices_at(p, j);
        assert(p[j] == s[j]);
        assert(out.subrange(2 * j, 2 * j + 2) =~= enc_indices(p).subrange(2 * j, 2 * j + 2));
    } else {
        if p.len() > 0 {
            lemma_indices_at(p, 0);
        }
        assert(enc_indices(p).len() == 2 * p.len());
        assert(out.subrange(2 * j, 2 * j + 2) =~= enc_u16(s[j] as u16));
    }
}

proof fn lemma_le16_enc(w: u16)
    ensures
        crate::rsc7::le16(enc_u16(w)) == w,
{
    let b = enc_u16(w);
    assert(w == w % 0x100 + 0x100 * (w / 0x100)) by (nonlinear_arith);
}

/// The parts of a geometry record: header, positions, normals, uvs, indices.
proof fn lemma_record_parts(g: GeometryView, tex_index: i16)
    ensures
        ({
            let pos = enc_vec3s(g.positions);
            let nrm = if g.normals.len() > 0 { enc_vec3s(g.normals) } else { Seq::<u8>::empty() };
            let uv = if g.uvs.len() > 0 { enc_vec2s(g.uvs) } else { Seq::<u8>::empty() };
            let idx = enc_indices(g.indices);
            exists|head: Seq<u8>|
                {
                    &&& head.len() == 14
                    &&& #[trigger] enc_geometry(g, tex_index) == head + pos + nrm + uv + idx
                }
        }),
        enc_vec3s(g.positions).len() == 12 * g.positions.len(),
        enc_vec3s(g.normals).len() == 12 * g.normals.len(),
        g.uvs.len() > 0 ==> enc_vec2s(g.uvs).len() == 8 * g.uvs.len(),
{
    let head = enc_u16(g.shader_index) + enc_u16(tex_index as u16) + seq![attr_flags(g), 0u8] + enc_u32(
        g.positions.len() as u32,
    ) + enc_u32(g.indices.len() as u32);
    assert(head.len() == 14);
    lemma_vec3s_len(g.positions);
    lemma_vec3s_len(g.normals);
    if g.uvs.len() > 0 {
        lemma_vec2s_at(g.uvs, 0);
    }
}

/// A geometry's record carries each vertex's position as x, y, z: after the
/// 14-byte header, position `i` is the three little-endian words at `12 * i`.
pub proof fn position_record_is_x_y_z(g: GeometryView, tex_index: i16, i: int)
    requires
        0 <= i < g.positions.len(),
    ensures
        ({
            let rec = enc_geometry(g, tex_index);
            let p = 14 + 12 * i;
            &&& rec.len() >= p + 12
            &&& crate::rsc7::le32(rec.subrange(p, p + 4)) == g.positions[i][0]
            &&& crate::rsc7::le32(rec.subrange(p + 4, p + 8)) == g.positions[i][1]
            &&& crate::rsc7::le32(rec.subrange(p + 8, p + 12)) == g.positions[i][2]
        }),
{
    lemma_record_parts(g, tex_index);
    let rec = enc_geometry(g, tex_index);
    let pos = enc_vec3s(g.positions);
    let head = choose|head: Seq<u8>| head.len() == 14 && #[trigger] enc_geometry(g, tex_index) == head + pos + (
    if g.normals.len() > 0 { enc_vec3s(g.normals) } else { Seq::<u8>::empty() }) + (if g.uvs.len() > 0 {
        enc_vec2s(g.uvs)
    } else {
        Seq::<u8>::empty()
    }) + enc_indices(g.indices);
    lemma_vec3s_at(g.positions, i);
    let p = 14 + 12 * i;
    assert(rec.subrange(p, p + 4) =~= pos.subrange(12 * i, 12 * i + 4));
    assert(rec.subrange(p + 4, p + 8) =~= pos.subrange(12 * i + 4, 12 * i + 8));
    assert(rec.subrange(p + 8, p + 12) =~= pos.subrange(12 * i + 8, 12 * i + 12));
    lemma_le32_enc(g.positions[i][0]);
    lemma_le32_enc(g.positions[i][1]);
    lemma_le32_enc(g.positions[i][2]);
}

/// A geometry's record carries each vertex's normal as x, y, z, right after
/// the positions: normal `i` is the three little-endian words at `12 * i`.
pub proof fn normal_record_is_x_y_z(g: GeometryView, tex_index: i16, i: int)
    requires
        0 <= i < g.normals.len(),
    ensures
        ({
            let rec = enc_geometry(g, tex_index);
            let q = 14 + 12 * g.positions.len() + 12 * i;
            &&& rec.len() >= q + 12
            &&& crate::rsc7::le32(rec.subrange(q, q + 4)) == g.normals[i][0]
            &&& crate::rsc7::le32(rec.subrange(q + 4, q + 8)) == g.normals[i][1]
            &&& crate::rsc7::le32(rec.subrange(q + 8, q + 12)) == g.normals[i][2]
        }),
{
    lemma_record_parts(g, tex_index);
    let rec = enc_geometry(g, tex_index);
    let pos = enc_vec3s(g.positions);
    let nrm = enc_vec3s(g.normals);
    let head = choose|head: Seq<u8>| head.len() == 14 && #[trigger] enc_geometry(g, tex_index) == head + pos + (
    if g.normals.len() > 0 { enc_vec3s(g.normals) } else { Seq::<u8>::empty() }) + (if g.uvs.len() > 0 {
        enc_vec2s(g.uvs)
    } else {
        Seq::<u8>::empty()
    }) + enc_indices(g.indices);
    lemma_vec3s_at(g.normals, i);
    let q = 14 + 12 * g.positions.len() + 12 * i;
    assert(rec.subrange(q, q + 4) =~= nrm.subrange(12 * i, 12 * i + 4));
    assert(rec.subrange(q + 4, q + 8) =~= nrm.subrange(12 * i + 4, 12 * i + 8));
    assert(rec.subrange(q + 8, q + 12) =~= nrm.subrange(12 * i + 8, 12 * i + 12));
    lemma_le32_enc(g.normals[i][0]);
    lemma_le32_enc(g.normals[i][1]);
    lemma_le32_enc(g.normals[i][2]);
}

/// A geometry's record ends with its indices, each as its low 16 bits: after
/// the positions, normals and uvs, index `j` is the little-endian half-word
/// at `2 * j`.
pub proof fn index_record_is_low_half(g: GeometryView, tex_index: i16, j: int)
    requires
        0 <= j < g.indices.len(),
    ensures
        ({
            let rec = enc_geometry(g, tex_index);
            let x = 14 + 12 * g.positions.len() + 12 * g.normals.len() + 8 * g.uvs.len() + 2 * j;
            &&& rec.len() >= x + 2
            &&& crate::rsc7::le16(rec.subrange(x, x + 2)) == g.indices[j] % 0x1_0000
        }),
{
    lemma_record_parts(g, tex_index);
    let rec = enc_geometry(g, tex_index);
    let idx = enc_indices(g.indices);
    let head = choose|head: Seq<u8>| head.len() == 14 && #[trigger] enc_geometry(g, tex_index) == head + enc_vec3s(
    g.positions) + (if g.normals.len() > 0 { enc_vec3s(g.normals) } else { Seq::<u8>::empty() }) + (
    if g.uvs.len() > 0 { enc_vec2s(g.uvs) } else { Seq::<u8>::empty() }) + idx;
    lemma_indices_at(g.indices, j);
    let x = 14 + 12 * g.positions.len() + 12 * g.normals.len() + 8 * g.uvs.len() + 2 * j;
    assert(rec.subrange(x, x + 2) =~= idx.subrange(2 * j, 2 * j + 2));
    let w = g.indices[j];
    lemma_le16_enc(w as u16);
    assert((w as u16) == w % 0x1_0000) by (bit_vector);
}

} // verus!
