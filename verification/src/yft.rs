//! `.yft` (fragType) -> drawable -> geometry decoder.
//!
//! Walks FragType -> FragDrawable (DrawableBase) -> high-LOD models ->
//! geometries -> {VertexBuffer, IndexBuffer, VertexDeclaration}, decoding the
//! packed FVF into plain position/normal/uv/colour arrays (gen8 / GTA5 PC
//! layouts). Floating-point components are kept as their IEEE-754 bits.

use vstd::prelude::*;
use crate::rsc7::{DecodeError, Rsc7, le16, le32, max_read, ptr_add, read_le16, read_le32};

verus! {

// ---- struct field offsets (gen8) ------------------------------------------
pub const FRAGTYPE_DRAWABLE_PTR: usize = 0x30;
pub const FRAGTYPE_PHYSLODGROUP_PTR: usize = 0xF0;
pub const LODGROUP_LOD1_PTR: usize = 0x10;
pub const LOD_CHILDREN_PTR: usize = 0xD0;
pub const LOD_TRANSFORMS_PTR: usize = 0x100;
pub const LOD_CHILDREN_COUNT: usize = 0x11D;
pub const CHILD_BONETAG: usize = 0x0A;
pub const CHILD_DRAWABLE1_PTR: usize = 0xA0;
pub const TRANSFORMS_MATRICES: usize = 0x20;
pub const DB_MODELS_HIGH_PTR: usize = 0x50;
pub const PLH_POINTER: usize = 0x00;
pub const PLH_CAPACITY: usize = 0x0A;
pub const MODEL_GEOMETRIES_PTR: usize = 0x08;
pub const MODEL_GEOM_COUNT: usize = 0x10;
pub const MODEL_SHADERMAP_PTR: usize = 0x20;
pub const GEO_VB_PTR: usize = 0x18;
pub const GEO_IB_PTR: usize = 0x38;
pub const GEO_INDICES_COUNT: usize = 0x58;
pub const GEO_VERTS_COUNT: usize = 0x60;
pub const GEO_BONEIDS_PTR: usize = 0x68;
pub const GEO_STRIDE: usize = 0x70;
pub const GEO_BONEIDS_COUNT: usize = 0x72;
pub const VB_STRIDE: usize = 0x08;
pub const VB_DATA1_PTR: usize = 0x10;
pub const VB_VERTEX_COUNT: usize = 0x18;
pub const VB_INFO_PTR: usize = 0x30;
pub const DECL_FLAGS: usize = 0x00;
pub const DECL_TYPES: usize = 0x08;
pub const IB_INDICES_COUNT: usize = 0x08;
pub const IB_INDICES_PTR: usize = 0x10;

/// The root FragType lives at the start of the system segment.
pub const ROOT: u64 = 0x5000_0000;

/// A decoded geometry. Position, normal and uv components are `f32` bit
/// patterns.
pub struct Geometry {
    pub shader_index: u16,
    pub positions: Vec<[u32; 3]>,
    pub normals: Vec<[u32; 3]>,
    pub uvs: Vec<[u32; 2]>,
    pub colors: Vec<[u8; 4]>,
    pub indices: Vec<u32>,
    pub stride: u16,
    pub fvf_flags: u32,
    pub fvf_types: u64,
    /// which part this came from: "body", or a child like "child3"
    pub part: String,
    /// per-vertex skinning (present when the FVF has BlendWeights+BlendIndices);
    /// bone_idx are skeleton bone indices (after the BoneIds remap).
    pub skinned: bool,
    pub bone_idx: Vec<[u16; 4]>,
    pub bone_wt: Vec<[u8; 4]>,
    /// The 4x4 row-major placement matrix (f32 bits) of the physics child this
    /// geometry belongs to, still to be applied to positions and normals.
    pub transform: Option<[u32; 16]>,
}

/// Mathematical view of a [`Geometry`].
pub struct GeometryView {
    pub shader_index: u16,
    pub positions: Seq<[u32; 3]>,
    pub normals: Seq<[u32; 3]>,
    pub uvs: Seq<[u32; 2]>,
    pub colors: Seq<[u8; 4]>,
    pub indices: Seq<u32>,
    pub stride: u16,
    pub fvf_flags: u32,
    pub fvf_types: u64,
    pub part: Seq<char>,
    pub skinned: bool,
    pub bone_idx: Seq<[u16; 4]>,
    pub bone_wt: Seq<[u8; 4]>,
    pub transform: Option<Seq<u32>>,
}

impl View for Geometry {
    type V = GeometryView;

    open spec fn view(&self) -> GeometryView {
        GeometryView {
            shader_index: self.shader_index,
            positions: self.positions@,
            normals: self.normals@,
            uvs: self.uvs@,
            colors: self.colors@,
            indices: self.indices@,
            stride: self.stride,
            fvf_flags: self.fvf_flags,
            fvf_types: self.fvf_types,
            part: self.part@,
            skinned: self.skinned,
            bone_idx: self.bone_idx@,
            bone_wt: self.bone_wt@,
            transform: match self.transform {
                Some(m) => Some(m@),
                None => None,
            },
        }
    }
}

/// A decoded fragment: all geometries, and for each physics child that
/// contributed geometry its (child index, bone tag, geometry count).
pub struct Mesh {
    pub geometries: Vec<Geometry>,
    pub children: Vec<(usize, u16, usize)>,
}

// ---- vertex declaration ----------------------------------------------------

/// gen8 vertex component sizes by 4-bit type code.
pub open spec fn spec_component_size(code: u8) -> nat {
    if code == 0 {
        0
    } else if code == 1 || code == 2 {
        4
    } else if code == 3 {
        8
    } else if code == 4 {
        0
    } else if code == 5 {
        8
    } else if code == 6 {
        12
    } else if code == 7 {
        16
    } else {
        4
    }
}

fn component_size(code: u8) -> (r: usize)
    ensures
        r as nat == spec_component_size(code),
{
    match code {
        0 => 0,  // Nothing
        1 => 4,  // Half2
        2 => 4,  // Float
        3 => 8,  // Half4
        4 => 0,  // FloatUnk
        5 => 8,  // Float2
        6 => 12,  // Float3
        7 => 16,  // Float4
        8 => 4,  // UByte4
        9 => 4,  // Colour
        10 => 4,  // RGBA8SNorm
        _ => 4,  // Unk1..5 (assumed 4)
    }
}

/// Whether channel `k` is present in the declaration flags.
pub open spec fn chan_present(flags: u32, k: nat) -> bool {
    (flags >> (k as u32)) & 1 == 1
}

/// The 4-bit type code of channel `k`.
pub open spec fn spec_comp_code(types: u64, k: nat) -> u8 {
    ((types >> ((k * 4) as u64)) & 0xF) as u8
}

/// Byte offset at which channel `k` would start: the summed sizes of the
/// present channels before it.
pub open spec fn chan_start(flags: u32, types: u64, k: nat) -> nat
    decreases k,
{
    if k == 0 {
        0
    } else {
        chan_start(flags, types, (k - 1) as nat) + if chan_present(flags, (k - 1) as nat) {
            spec_component_size(spec_comp_code(types, (k - 1) as nat))
        } else {
            0
        }
    }
}

/// Offset within a vertex of channel `k`, if present.
pub open spec fn chan_offset(flags: u32, types: u64, k: nat) -> Option<nat> {
    if chan_present(flags, k) {
        Some(chan_start(flags, types, k))
    } else {
        None
    }
}

proof fn lemma_chan_start_bound(flags: u32, types: u64, k: nat)
    ensures
        chan_start(flags, types, k) <= 16 * k,
    decreases k,
{
    if k > 0 {
        lemma_chan_start_bound(flags, types, (k - 1) as nat);
    }
}

fn comp_code(types: u64, k: usize) -> (r: u8)
    requires
        k < 16,
    ensures
        r == spec_comp_code(types, k as nat),
{
    ((types >> ((k * 4) as u64)) & 0xF) as u8
}

/// The byte offset within a vertex of each of the 16 channels (None when absent).
fn channel_offsets(flags: u32, types: u64) -> (offs: Vec<Option<usize>>)
    ensures
        offs@.len() == 16,
        forall|k: int|
            0 <= k < 16 ==> match #[trigger] offs@[k] {
                Some(o) => chan_offset(flags, types, k as nat) == Some(o as nat),
                None => chan_offset(flags, types, k as nat) is None,
            },
        forall|k: int| 0 <= k < 16 ==> (#[trigger] offs@[k] matches Some(o) ==> o <= 256),
{
    let mut offs: Vec<Option<usize>> = Vec::with_capacity(16);
    let mut cursor: usize = 0;
    let mut k: usize = 0;
    while k < 16
        invariant
            k <= 16,
            offs@.len() == k,
            cursor as nat == chan_start(flags, types, k as nat),
            forall|j: int|
                0 <= j < k ==> match #[trigger] offs@[j] {
                    Some(o) => chan_offset(flags, types, j as nat) == Some(o as nat),
                    None => chan_offset(flags, types, j as nat) is None,
                },
            forall|j: int| 0 <= j < k ==> (#[trigger] offs@[j] matches Some(o) ==> o <= 256),
        decreases 16 - k,
    {
        proof {
            lemma_chan_start_bound(flags, types, k as nat);
        }
        if (flags >> (k as u32)) & 1 == 1 {
            offs.push(Some(cursor));
            let code = comp_code(types, k);
            cursor += component_size(code);
        } else {
            offs.push(None);
        }
        k += 1;
    }
    offs
}

// ---- half floats -----------------------------------------------------------

/// Position of the highest set bit of a nonzero 10-bit mantissa.
pub open spec fn top_bit(m: u32) -> nat {
    if m >= 0x200 {
        9
    } else if m >= 0x100 {
        8
    } else if m >= 0x80 {
        7
    } else if m >= 0x40 {
        6
    } else if m >= 0x20 {
        5
    } else if m >= 0x10 {
        4
    } else if m >= 0x8 {
        3
    } else if m >= 0x4 {
        2
    } else if m >= 0x2 {
        1
    } else {
        0
    }
}

/// Single-precision magnitude bits of the half subnormal `mant * 2^-24`
/// (`mant` nonzero): exponent field `p + 103` and mantissa `(mant - 2^p) << (23 - p)`
/// where `p` is the highest set bit of `mant`.
pub open spec fn subnormal_bits(mant: u32) -> nat {
    let p = top_bit(mant);
    ((p + 103) * 0x80_0000 + (mant - vstd::arithmetic::power2::pow2(p))
        * vstd::arithmetic::power2::pow2((23 - p) as nat)) as nat
}

/// The bits of the `f32` whose value is that of the IEEE half `h`: normal
/// halves rebias the exponent by 112 and widen the mantissa, subnormal halves
/// (mant * 2^-24) become normal singles, infinities stay infinite, every NaN
/// becomes the canonical quiet NaN, and the sign is carried over.
pub open spec fn spec_half_to_f32_bits(h: u16) -> u32 {
    let sign = h / 0x8000;
    let exp = (h / 0x400) % 0x20;
    let mant = (h % 0x400) as u32;
    let mag: nat = if exp == 0 {
        if mant == 0 {
            0
        } else {
            subnormal_bits(mant)
        }
    } else if exp == 0x1F {
        if mant == 0 {
            0x7F80_0000
        } else {
            0x7FC0_0000
        }
    } else {
        ((exp + 112) * 0x80_0000 + mant * 0x2000) as nat
    };
    if sign == 1 {
        (mag + 0x8000_0000) as u32
    } else {
        mag as u32
    }
}

fn subnormal(mant: u32) -> (r: u32)
    requires
        0 < mant < 0x400,
    ensures
        r as nat == subnormal_bits(mant),
        r < 0x8000_0000,
{
    proof {
        vstd::arithmetic::power2::lemma2_to64();
    }
    if mant >= 0x200 {
        assert(top_bit(mant) == 9);
        assert(subnormal_bits(mant) == (9 + 103) * 0x80_0000 + (mant - 0x200) * 0x4000);
        112 * 0x80_0000 + (mant - 0x200) * 0x4000
    } else if mant >= 0x100 {
        assert(top_bit(mant) == 8);
        assert(subnormal_bits(mant) == (8 + 103) * 0x80_0000 + (mant - 0x100) * 0x8000);
        111 * 0x80_0000 + (mant - 0x100) * 0x8000
    } else if mant >= 0x80 {
        assert(top_bit(mant) == 7);
        assert(subnormal_bits(mant) == (7 + 103) * 0x80_0000 + (mant - 0x80) * 0x10000);
        110 * 0x80_0000 + (mant - 0x80) * 0x10000
    } else if mant >= 0x40 {
        assert(top_bit(mant) == 6);
        assert(subnormal_bits(mant) == (6 + 103) * 0x80_0000 + (mant - 0x40) * 0x20000);
        109 * 0x80_0000 + (mant - 0x40) * 0x20000
    } else if mant >= 0x20 {
        assert(top_bit(mant) == 5);
        assert(subnormal_bits(mant) == (5 + 103) * 0x80_0000 + (mant - 0x20) * 0x40000);
        108 * 0x80_0000 + (mant - 0x20) * 0x40000
    } else if mant >= 0x10 {
        assert(top_bit(mant) == 4);
        assert(subnormal_bits(mant) == (4 + 103) * 0x80_0000 + (mant - 0x10) * 0x80000);
        107 * 0x80_0000 + (mant - 0x10) * 0x80000
    } else if mant >= 0x8 {
        assert(top_bit(mant) == 3);
        assert(subnormal_bits(mant) == (3 + 103) * 0x80_0000 + (mant - 0x8) * 0x100000);
        106 * 0x80_0000 + (mant - 0x8) * 0x100000
    } else if mant >= 0x4 {
        assert(top_bit(mant) == 2);
        assert(subnormal_bits(mant) == (2 + 103) * 0x80_0000 + (mant - 0x4) * 0x200000);
        105 * 0x80_0000 + (mant - 0x4) * 0x200000
    } else if mant >= 0x2 {
        assert(top_bit(mant) == 1);
        assert(subnormal_bits(mant) == (1 + 103) * 0x80_0000 + (mant - 0x2) * 0x400000);
        104 * 0x80_0000 + (mant - 0x2) * 0x400000
    } else {
        assert(top_bit(mant) == 0);
        assert(subnormal_bits(mant) == (0 + 103) * 0x80_0000 + (mant - 0x1) * 0x800000);
        103 * 0x80_0000 + (mant - 0x1) * 0x800000
    }
}

/// Half-precision bits to single-precision bits.
pub fn half_to_f32_bits(h: u16) -> (r: u32)
    ensures
        r == spec_half_to_f32_bits(h),
{
    let sign = h / 0x8000;
    let exp = ((h / 0x400) % 0x20) as u32;
    let mant = (h % 0x400) as u32;
    let mag: u32 = if exp == 0 {
        if mant == 0 {
            0
        } else {
            subnormal(mant)
        }
    } else if exp == 0x1F {
        if mant == 0 {
            0x7F80_0000
        } else {
            0x7FC0_0000
        }
    } else {
        (exp + 112) * 0x80_0000 + mant * 0x2000
    };
    if sign == 1 {
        mag + 0x8000_0000
    } else {
        mag
    }
}


// ---- geometry decoding -----------------------------------------------------

/// The bytes of vertex `i` in a buffer of `stride`-byte vertices.
pub open spec fn vertex_bytes(vb: Seq<u8>, stride: nat, i: int) -> Seq<u8> {
    vb.subrange(i * stride, i * stride + stride)
}

/// The little-endian word at byte `o` of `v` (an f32's bits).
pub open spec fn word_at(v: Seq<u8>, o: nat) -> u32 {
    le32(v.subrange(o as int, (o + 4) as int)) as u32
}

/// The half float at byte `o` of `v`, widened to f32 bits.
pub open spec fn half_at(v: Seq<u8>, o: nat) -> u32 {
    spec_half_to_f32_bits(le16(v.subrange(o as int, (o + 2) as int)) as u16)
}

pub open spec fn vec3_at(v: Seq<u8>, o: nat) -> [u32; 3] {
    [word_at(v, o), word_at(v, o + 4), word_at(v, o + 8)]
}

pub open spec fn bytes4_at(v: Seq<u8>, o: nat) -> [u8; 4] {
    [v[o as int], v[o + 1int], v[o + 2int], v[o + 3int]]
}

/// TexCoord0 by type code: Half2, Float2, or zeros for any other code.
pub open spec fn uv_at(v: Seq<u8>, o: nat, code: u8) -> [u32; 2] {
    if code == 1 {
        [half_at(v, o), half_at(v, o + 2)]
    } else if code == 5 {
        [word_at(v, o), word_at(v, o + 4)]
    } else {
        [0, 0]
    }
}

/// A BlendIndices byte mapped through the geometry's BoneIds palette (used
/// directly when there is no palette; 0 when it falls outside the palette).
pub open spec fn remap_bone(palette: Seq<u16>, b: u8) -> u16 {
    if palette.len() == 0 {
        b as u16
    } else if (b as nat) < palette.len() {
        palette[b as int]
    } else {
        0
    }
}

pub open spec fn bone_idx_at(v: Seq<u8>, o: nat, palette: Seq<u16>) -> [u16; 4] {
    [
        remap_bone(palette, v[o as int]),
        remap_bone(palette, v[o + 1int]),
        remap_bone(palette, v[o + 2int]),
        remap_bone(palette, v[o + 3int]),
    ]
}

/// Skinned when both BlendWeights (channel 1) and BlendIndices (channel 2) are present.
pub open spec fn spec_skinned(flags: u32) -> bool {
    chan_present(flags, 1) && chan_present(flags, 2)
}

/// Every channel the decoder reads lies within one vertex.
pub open spec fn layout_fits(flags: u32, types: u64, stride: nat) -> bool {
    &&& chan_present(flags, 0) ==> chan_start(flags, types, 0) + 12 <= stride
    &&& (chan_present(flags, 3) && spec_comp_code(types, 3) == 6) ==> chan_start(flags, types, 3)
        + 12 <= stride
    &&& chan_present(flags, 4) ==> chan_start(flags, types, 4) + 4 <= stride
    &&& (chan_present(flags, 6) && spec_comp_code(types, 6) == 1) ==> chan_start(flags, types, 6)
        + 4 <= stride
    &&& (chan_present(flags, 6) && spec_comp_code(types, 6) == 5) ==> chan_start(flags, types, 6)
        + 8 <= stride
    &&& spec_skinned(flags) ==> chan_start(flags, types, 1) + 4 <= stride && chan_start(
        flags,
        types,
        2,
    ) + 4 <= stride
}

/// The per-vertex attribute lists of the first `n` vertices.
pub open spec fn spec_positions(vb: Seq<u8>, stride: nat, n: nat, flags: u32, types: u64) -> Seq<[u32; 3]> {
    if chan_present(flags, 0) {
        Seq::new(n, |i: int| vec3_at(vertex_bytes(vb, stride, i), chan_start(flags, types, 0)))
    } else {
        Seq::empty()
    }
}

pub open spec fn spec_normals(vb: Seq<u8>, stride: nat, n: nat, flags: u32, types: u64) -> Seq<[u32; 3]> {
    if chan_present(flags, 3) && spec_comp_code(types, 3) == 6 {
        Seq::new(n, |i: int| vec3_at(vertex_bytes(vb, stride, i), chan_start(flags, types, 3)))
    } else {
        Seq::empty()
    }
}

pub open spec fn spec_colors(vb: Seq<u8>, stride: nat, n: nat, flags: u32, types: u64) -> Seq<[u8; 4]> {
    if chan_present(flags, 4) {
        Seq::new(n, |i: int| bytes4_at(vertex_bytes(vb, stride, i), chan_start(flags, types, 4)))
    } else {
        Seq::empty()
    }
}

pub open spec fn spec_uvs(vb: Seq<u8>, stride: nat, n: nat, flags: u32, types: u64) -> Seq<[u32; 2]> {
    if chan_present(flags, 6) {
        Seq::new(
            n,
            |i: int|
                uv_at(
                    vertex_bytes(vb, stride, i),
                    chan_start(flags, types, 6),
                    spec_comp_code(types, 6),
                ),
        )
    } else {
        Seq::empty()
    }
}

pub open spec fn spec_bone_wt(vb: Seq<u8>, stride: nat, n: nat, flags: u32, types: u64) -> Seq<[u8; 4]> {
    if spec_skinned(flags) {
        Seq::new(n, |i: int| bytes4_at(vertex_bytes(vb, stride, i), chan_start(flags, types, 1)))
    } else {
        Seq::empty()
    }
}

pub open spec fn spec_bone_idx(
    vb: Seq<u8>,
    stride: nat,
    n: nat,
    flags: u32,
    types: u64,
    palette: Seq<u16>,
) -> Seq<[u16; 4]> {
    if spec_skinned(flags) {
        Seq::new(
            n,
            |i: int| bone_idx_at(vertex_bytes(vb, stride, i), chan_start(flags, types, 2), palette),
        )
    } else {
        Seq::empty()
    }
}

/// `count` little-endian u16 values packed in `b`.
pub open spec fn le16_list(b: Seq<u8>, count: nat) -> Seq<u16> {
    Seq::new(count, |k: int| le16(b.subrange(2 * k, 2 * k + 2)) as u16)
}

/// The BoneIds palette of a geometry: empty when absent or unreadable.
pub open spec fn spec_palette(rsc: Rsc7, ptr: u64, count: u16) -> Seq<u16> {
    if ptr != 0 && count > 0 {
        match rsc.spec_at(ptr, 2 * count as nat) {
            Ok(b) => le16_list(b, count as nat),
            Err(_) => Seq::empty(),
        }
    } else {
        Seq::empty()
    }
}

/// Geometry header: vertex buffer, index buffer and stride (the vertex and
/// index counts stored there are read too, and must be readable).
pub open spec fn spec_geo_header(rsc: Rsc7, geo: u64) -> Result<(u64, u64, u16), DecodeError> {
    match rsc.spec_u64_at(geo, GEO_VB_PTR) {
        Err(e) => Err(e),
        Ok(vb) => match rsc.spec_u64_at(geo, GEO_IB_PTR) {
            Err(e) => Err(e),
            Ok(ib) => match rsc.spec_u16_at(geo, GEO_STRIDE) {
                Err(e) => Err(e),
                Ok(stride) => match rsc.spec_u16_at(geo, GEO_VERTS_COUNT) {
                    Err(e) => Err(e),
                    Ok(_) => match rsc.spec_u32_at(geo, GEO_INDICES_COUNT) {
                        Err(e) => Err(e),
                        Ok(_) => Ok((vb, ib, stride)),
                    },
                },
            },
        },
    }
}

/// Vertex buffer header: stride, vertex count, data pointer, declaration pointer.
pub open spec fn spec_vb_header(rsc: Rsc7, vb: u64) -> Result<(u16, u32, u64, u64), DecodeError> {
    match rsc.spec_u16_at(vb, VB_STRIDE) {
        Err(e) => Err(e),
        Ok(s) => match rsc.spec_u32_at(vb, VB_VERTEX_COUNT) {
            Err(e) => Err(e),
            Ok(n) => match rsc.spec_u64_at(vb, VB_DATA1_PTR) {
                Err(e) => Err(e),
                Ok(d) => match rsc.spec_u64_at(vb, VB_INFO_PTR) {
                    Err(e) => Err(e),
                    Ok(i) => Ok((s, n, d, i)),
                },
            },
        },
    }
}

/// Vertex declaration: channel flags and channel type codes.
pub open spec fn spec_decl(rsc: Rsc7, info: u64) -> Result<(u32, u64), DecodeError> {
    match rsc.spec_u32_at(info, DECL_FLAGS) {
        Err(e) => Err(e),
        Ok(f) => match rsc.spec_u64_at(info, DECL_TYPES) {
            Err(e) => Err(e),
            Ok(t) => Ok((f, t)),
        },
    }
}

/// BoneIds pointer and count of a geometry.
pub open spec fn spec_boneids(rsc: Rsc7, geo: u64) -> Result<(u64, u16), DecodeError> {
    match rsc.spec_u64_at(geo, GEO_BONEIDS_PTR) {
        Err(e) => Err(e),
        Ok(p) => match rsc.spec_u16_at(geo, GEO_BONEIDS_COUNT) {
            Err(e) => Err(e),
            Ok(c) => Ok((p, c)),
        },
    }
}

/// The u16 index list of an index buffer, widened to u32.
pub open spec fn spec_indices(rsc: Rsc7, ib: u64) -> Result<Seq<u32>, DecodeError> {
    match rsc.spec_u32_at(ib, IB_INDICES_COUNT) {
        Err(e) => Err(e),
        Ok(count) => match rsc.spec_u64_at(ib, IB_INDICES_PTR) {
            Err(e) => Err(e),
            Ok(ptr) => if 2 * count as nat > max_read() {
                Err(DecodeError::SizeOverflow)
            } else {
                match rsc.spec_at(ptr, 2 * count as nat) {
                    Err(e) => Err(e),
                    Ok(b) => Ok(Seq::new(count as nat, |k: int| le16(b.subrange(2 * k, 2 * k + 2)) as u32)),
                }
            },
        },
    }
}

/// The geometry decoded from the vertex bytes and the index list.
pub open spec fn geometry_from(
    shader_index: u16,
    vb: Seq<u8>,
    stride: nat,
    n: nat,
    flags: u32,
    types: u64,
    palette: Seq<u16>,
    indices: Seq<u32>,
) -> GeometryView {
    GeometryView {
        shader_index,
        positions: spec_positions(vb, stride, n, flags, types),
        normals: spec_normals(vb, stride, n, flags, types),
        uvs: spec_uvs(vb, stride, n, flags, types),
        colors: spec_colors(vb, stride, n, flags, types),
        indices,
        stride: stride as u16,
        fvf_flags: flags,
        fvf_types: types,
        part: Seq::empty(),
        skinned: spec_skinned(flags),
        bone_idx: spec_bone_idx(vb, stride, n, flags, types, palette),
        bone_wt: spec_bone_wt(vb, stride, n, flags, types),
        transform: None,
    }
}

/// A geometry at pointer `geo`, decoded with the given shader index.
#[verifier::opaque]
pub open spec fn spec_decode_geometry(rsc: Rsc7, geo: u64, shader_index: u16) -> Result<
    GeometryView,
    DecodeError,
> {
    match spec_geo_header(rsc, geo) {
        Err(e) => Err(e),
        Ok((vb, ib, geo_stride)) => if vb == 0 || ib == 0 {
            Err(DecodeError::MissingBuffers)
        } else {
            match spec_vb_header(rsc, vb) {
                Err(e) => Err(e),
                Ok((vb_stride, n, data_ptr, info_ptr)) => {
                    let stride: nat = if vb_stride != 0 {
                        vb_stride as nat
                    } else {
                        geo_stride as nat
                    };
                    if stride == 0 {
                        Err(DecodeError::ZeroStride)
                    } else {
                        match spec_decl(rsc, info_ptr) {
                            Err(e) => Err(e),
                            Ok((flags, types)) => match spec_boneids(rsc, geo) {
                                Err(e) => Err(e),
                                Ok((bptr, bcount)) => if n * stride > max_read() {
                                    Err(DecodeError::SizeOverflow)
                                } else {
                                    match rsc.spec_at(data_ptr, (n * stride) as nat) {
                                        Err(e) => Err(e),
                                        Ok(vbytes) => if n > 0 && !layout_fits(
                                            flags,
                                            types,
                                            stride,
                                        ) {
                                            Err(DecodeError::VertexLayout)
                                        } else {
                                            match spec_indices(rsc, ib) {
                                                Err(e) => Err(e),
                                                Ok(indices) => Ok(
                                                    geometry_from(
                                                        shader_index,
                                                        vbytes,
                                                        stride,
                                                        n as nat,
                                                        flags,
                                                        types,
                                                        spec_palette(rsc, bptr, bcount),
                                                        indices,
                                                    ),
                                                ),
                                            }
                                        },
                                    }
                                },
                            },
                        }
                    }
                },
            }
        },
    }
}

fn read_geo_header(rsc: &Rsc7, geo: u64) -> (res: Result<(u64, u64, u16), DecodeError>)
    ensures
        res == spec_geo_header(*rsc, geo),
{
    let vb = rsc.u64_at(geo, GEO_VB_PTR)?;
    let ib = rsc.u64_at(geo, GEO_IB_PTR)?;
    let stride = rsc.u16_at(geo, GEO_STRIDE)?;
    let _verts_count_geo = rsc.u16_at(geo, GEO_VERTS_COUNT)?;
    let _indices_count_geo = rsc.u32_at(geo, GEO_INDICES_COUNT)?;
    Ok((vb, ib, stride))
}

fn read_vb_header(rsc: &Rsc7, vb: u64) -> (res: Result<(u16, u32, u64, u64), DecodeError>)
    ensures
        res == spec_vb_header(*rsc, vb),
{
    let vb_stride = rsc.u16_at(vb, VB_STRIDE)?;
    let vertex_count = rsc.u32_at(vb, VB_VERTEX_COUNT)?;
    let data_ptr = rsc.u64_at(vb, VB_DATA1_PTR)?;
    let info_ptr = rsc.u64_at(vb, VB_INFO_PTR)?;
    Ok((vb_stride, vertex_count, data_ptr, info_ptr))
}

fn read_decl(rsc: &Rsc7, info: u64) -> (res: Result<(u32, u64), DecodeError>)
    ensures
        res == spec_decl(*rsc, info),
{
    let fvf_flags = rsc.u32_at(info, DECL_FLAGS)?;
    let fvf_types = rsc.u64_at(info, DECL_TYPES)?;
    Ok((fvf_flags, fvf_types))
}

fn read_boneids(rsc: &Rsc7, geo: u64) -> (res: Result<(u64, u16), DecodeError>)
    ensures
        res == spec_boneids(*rsc, geo),
{
    let p = rsc.u64_at(geo, GEO_BONEIDS_PTR)?;
    let c = rsc.u16_at(geo, GEO_BONEIDS_COUNT)?;
    Ok((p, c))
}

/// `count` little-endian u16 values from the start of `b`.
fn read_le16_list(b: &[u8], count: usize) -> (out: Vec<u16>)
    requires
        b.len() == 2 * count,
    ensures
        out@ == le16_list(b@, count as nat),
{
    let mut out: Vec<u16> = Vec::with_capacity(count);
    let mut k: usize = 0;
    while k < count
        invariant
            k <= count,
            b.len() == 2 * count,
            out@ =~= le16_list(b@, k as nat),
        decreases count - k,
    {
        out.push(read_le16(b, 2 * k));
        k += 1;
    }
    out
}

fn read_palette(rsc: &Rsc7, ptr: u64, count: u16) -> (out: Vec<u16>)
    ensures
        out@ == spec_palette(*rsc, ptr, count),
{
    if ptr != 0 && count > 0 {
        match rsc.at(ptr, 2 * count as usize) {
            Ok(b) => read_le16_list(b, count as usize),
            Err(_) => Vec::new(),
        }
    } else {
        Vec::new()
    }
}

fn decode_indices(rsc: &Rsc7, ib: u64) -> (res: Result<Vec<u32>, DecodeError>)
    ensures
        match res {
            Ok(v) => spec_indices(*rsc, ib) == Ok::<Seq<u32>, DecodeError>(v@),
            Err(e) => spec_indices(*rsc, ib) == Err::<Seq<u32>, DecodeError>(e),
        },
{
    let idx_count = rsc.u32_at(ib, IB_INDICES_COUNT)?;
    let idx_ptr = rsc.u64_at(ib, IB_INDICES_PTR)?;
    let count = idx_count as usize;
    if count > (usize::MAX) / 2 {
        return Err(DecodeError::SizeOverflow);
    }
    let ibytes = rsc.at(idx_ptr, count * 2)?;
    let mut out: Vec<u32> = Vec::with_capacity(count);
    let mut k: usize = 0;
    while k < count
        invariant
            k <= count,
            ibytes.len() == 2 * count,
            out@ =~= Seq::new(k as nat, |j: int| le16(ibytes@.subrange(2 * j, 2 * j + 2)) as u32),
        decreases count - k,
    {
        out.push(read_le16(ibytes, 2 * k) as u32);
        k += 1;
    }
    Ok(out)
}

fn palette_bone(palette: &Vec<u16>, b: u8) -> (r: u16)
    ensures
        r == remap_bone(palette@, b),
{
    if palette.len() == 0 {
        b as u16
    } else if (b as usize) < palette.len() {
        palette[b as usize]
    } else {
        0
    }
}

/// Exec form of [`layout_fits`] over the computed channel offsets.
fn check_layout(flags: u32, types: u64, stride: usize, offs: &Vec<Option<usize>>) -> (r: bool)
    requires
        offs@.len() == 16,
        forall|k: int|
            0 <= k < 16 ==> match #[trigger] offs@[k] {
                Some(o) => chan_offset(flags, types, k as nat) == Some(o as nat),
                None => chan_offset(flags, types, k as nat) is None,
            },
        forall|k: int| 0 <= k < 16 ==> (#[trigger] offs@[k] matches Some(o) ==> o <= 256),
    ensures
        r == layout_fits(flags, types, stride as nat),
{
    let p = offs[0];
    let n = offs[3];
    let c = offs[4];
    let u = offs[6];
    let w = offs[1];
    let i = offs[2];
    assert(chan_offset(flags, types, 0) matches Some(o) ==> o == chan_start(flags, types, 0));
    let ok_p = match p { Some(o) => o + 12 <= stride, None => true };
    let ok_n = match n { Some(o) => comp_code(types, 3) != 6 || o + 12 <= stride, None => true };
    let ok_c = match c { Some(o) => o + 4 <= stride, None => true };
    let ok_u = match u {
        Some(o) => {
            let code = comp_code(types, 6);
            (code != 1 || o + 4 <= stride) && (code != 5 || o + 8 <= stride)
        },
        None => true,
    };
    let ok_s = match (w, i) {
        (Some(wo), Some(io)) => wo + 4 <= stride && io + 4 <= stride,
        _ => true,
    };
    ok_p && ok_n && ok_c && ok_u && ok_s
}

/// Decode the attributes of `n` vertices of `stride` bytes each.
#[verifier::spinoff_prover]
#[verifier::rlimit(40)]
fn decode_vertices(
    shader_index: u16,
    vbytes: &[u8],
    stride: usize,
    n: usize,
    flags: u32,
    types: u64,
    palette: &Vec<u16>,
) -> (g: Geometry)
    requires
        vbytes.len() == n * stride,
        0 < stride <= u16::MAX,
        n > 0 ==> layout_fits(flags, types, stride as nat),
    ensures
        g@ == geometry_from(shader_index, vbytes@, stride as nat, n as nat, flags, types, palette@, Seq::empty()),
{
    let offs = channel_offsets(flags, types);
    let skinned = offs[1].is_some() && offs[2].is_some();
    let uv_code = comp_code(types, 6);
    let normal_code = comp_code(types, 3);
    let mut positions: Vec<[u32; 3]> = Vec::new();
    let mut normals: Vec<[u32; 3]> = Vec::new();
    let mut uvs: Vec<[u32; 2]> = Vec::new();
    let mut colors: Vec<[u8; 4]> = Vec::new();
    let mut bone_idx: Vec<[u16; 4]> = Vec::new();
    let mut bone_wt: Vec<[u8; 4]> = Vec::new();
    let ghost vb = vbytes@;
    let ghost st = stride as nat;
    let mut i: usize = 0;
    while i < n
        invariant
            i <= n,
            vbytes@ == vb,
            vb.len() == n * stride,
            vbytes.len() == n * stride,
            0 < stride <= u16::MAX,
            st == stride as nat,
            n > 0 ==> layout_fits(flags, types, st),
            offs@.len() == 16,
            forall|k: int|
                0 <= k < 16 ==> match #[trigger] offs@[k] {
                    Some(o) => chan_offset(flags, types, k as nat) == Some(o as nat),
                    None => chan_offset(flags, types, k as nat) is None,
                },
            skinned == spec_skinned(flags),
            uv_code == spec_comp_code(types, 6),
            normal_code == spec_comp_code(types, 3),
            positions@ =~= spec_positions(vb, st, i as nat, flags, types),
            normals@ =~= spec_normals(vb, st, i as nat, flags, types),
            uvs@ =~= spec_uvs(vb, st, i as nat, flags, types),
            colors@ =~= spec_colors(vb, st, i as nat, flags, types),
            bone_idx@ =~= spec_bone_idx(vb, st, i as nat, flags, types, palette@),
            bone_wt@ =~= spec_bone_wt(vb, st, i as nat, flags, types),
        decreases n - i,
    {
        assert(i * stride + stride <= n * stride) by (nonlinear_arith)
            requires
                i < n,
        ;
        let base = i * stride;
        let v = vstd::slice::slice_subrange(vbytes, base, base + stride);
        assert(v@ == vertex_bytes(vb, st, i as int));
        if let Some(o) = offs[0] {
            positions.push([read_le32(v, o), read_le32(v, o + 4), read_le32(v, o + 8)]);
        }
        if let Some(o) = offs[3] {
            if normal_code == 6 {
                normals.push([read_le32(v, o), read_le32(v, o + 4), read_le32(v, o + 8)]);
            }
        }
        if let Some(o) = offs[4] {
            colors.push([v[o], v[o + 1], v[o + 2], v[o + 3]]);
        }
        if let Some(o) = offs[6] {
            let uv = if uv_code == 1 {
                [half_to_f32_bits(read_le16(v, o)), half_to_f32_bits(read_le16(v, o + 2))]
            } else if uv_code == 5 {
                [read_le32(v, o), read_le32(v, o + 4)]
            } else {
                [0u32, 0u32]
            };
            uvs.push(uv);
        }
        if skinned {
            let wo = offs[1].unwrap();
            let io = offs[2].unwrap();
            bone_idx.push(
                [
                    palette_bone(palette, v[io]),
                    palette_bone(palette, v[io + 1]),
                    palette_bone(palette, v[io + 2]),
                    palette_bone(palette, v[io + 3]),
                ],
            );
            bone_wt.push([v[wo], v[wo + 1], v[wo + 2], v[wo + 3]]);
        }
        i += 1;
    }
    Geometry {
        shader_index,
        positions,
        normals,
        uvs,
        colors,
        indices: Vec::new(),
        stride: stride as u16,
        fvf_flags: flags,
        fvf_types: types,
        part: String::new(),
        skinned,
        bone_idx,
        bone_wt,
        transform: None,
    }
}

fn decode_geometry(rsc: &Rsc7, geo: u64, shader_index: u16) -> (res: Result<Geometry, DecodeError>)
    ensures
        match res {
            Ok(g) => spec_decode_geometry(*rsc, geo, shader_index) == Ok::<GeometryView, DecodeError>(g@),
            Err(e) => spec_decode_geometry(*rsc, geo, shader_index) == Err::<GeometryView, DecodeError>(e),
        },
{
    reveal(spec_decode_geometry);
    let (vb, ib, geo_stride) = read_geo_header(rsc, geo)?;
    if vb == 0 || ib == 0 {
        return Err(DecodeError::MissingBuffers);
    }
    let (vb_stride, vertex_count, data_ptr, info_ptr) = read_vb_header(rsc, vb)?;
    let stride: usize = if vb_stride != 0 {
        vb_stride as usize
    } else {
        geo_stride as usize
    };
    if stride == 0 {
        return Err(DecodeError::ZeroStride);
    }
    let (fvf_flags, fvf_types) = read_decl(rsc, info_ptr)?;
    let (boneids_ptr, boneids_count) = read_boneids(rsc, geo)?;
    let palette = read_palette(rsc, boneids_ptr, boneids_count);
    let n = vertex_count as usize;
    if n > (usize::MAX) / stride {
        proof {
            assert(n * stride > max_read()) by (nonlinear_arith)
                requires
                    n > (usize::MAX) as int / stride as int,
                    stride > 0,
                    max_read() == usize::MAX,
            ;
        }
        return Err(DecodeError::SizeOverflow);
    }
    assert(n * stride <= max_read()) by (nonlinear_arith)
        requires
            n <= (usize::MAX) as int / stride as int,
            stride > 0,
            max_read() == usize::MAX,
    ;
    let vbytes = rsc.at(data_ptr, n * stride)?;
    let offs = channel_offsets(fvf_flags, fvf_types);
    if n > 0 && !check_layout(fvf_flags, fvf_types, stride, &offs) {
        return Err(DecodeError::VertexLayout);
    }
    let mut g = decode_vertices(shader_index, vbytes, stride, n, fvf_flags, fvf_types, &palette);
    let indices = decode_indices(rsc, ib)?;
    g.indices = indices;
    Ok(g)
}


// ---- drawables and fragments -------------------------------------------------

/// The decimal digits of `n`.
pub open spec fn decimal(n: nat) -> Seq<char>
    decreases n,
{
    if n < 10 {
        seq![(n + 48) as char]
    } else {
        decimal(n / 10).push((n % 10 + 48) as char)
    }
}

/// The part name given to the geometry of physics child `i`.
pub open spec fn child_name(i: nat) -> Seq<char> {
    seq!['c', 'h', 'i', 'l', 'd'] + decimal(i)
}

/// The geometries `a` are still the first ones of `b`.
#[verifier::opaque]
pub open spec fn kept_prefix(a: Seq<Geometry>, b: Seq<Geometry>) -> bool {
    a.is_prefix_of(b)
}

proof fn lemma_prefix_refl(a: Seq<Geometry>)
    ensures
        kept_prefix(a, a),
{
    reveal(kept_prefix);
    assert(a =~= a.subrange(0, a.len() as int));
}

proof fn lemma_prefix_push(a: Seq<Geometry>, b: Seq<Geometry>, g: Geometry)
    requires
        kept_prefix(a, b),
    ensures
        kept_prefix(a, b.push(g)),
{
    reveal(kept_prefix);
    assert(a =~= b.push(g).subrange(0, a.len() as int));
}

proof fn lemma_prefix_trans(a: Seq<Geometry>, b: Seq<Geometry>, c: Seq<Geometry>)
    requires
        kept_prefix(a, b),
        kept_prefix(b, c),
    ensures
        kept_prefix(a, c),
{
    reveal(kept_prefix);
    assert(a =~= c.subrange(0, a.len() as int)) by {
        assert(b.subrange(0, a.len() as int) =~= c.subrange(0, a.len() as int));
    }
}

/// The decimal digits of `n`, most significant first.
fn decimal_chars(n: usize) -> (r: Vec<char>)
    ensures
        r@ == decimal(n as nat),
    decreases n,
{
    let d: u8 = (n % 10) as u8 + 48;
    let c = d as char;
    if n < 10 {
        let mut v: Vec<char> = Vec::new();
        v.push(c);
        assert(v@ =~= seq![(n as nat + 48) as char]);
        v
    } else {
        let mut v = decimal_chars(n / 10);
        v.push(c);
        v
    }
}

/// The part name given to the geometry of physics child `i`: `child`
/// followed by the decimal digits of `i`.
fn format_child_name(i: usize) -> (s: String)
    ensures
        s@ == child_name(i as nat),
{
    let mut head: Vec<char> = Vec::new();
    head.push('c');
    head.push('h');
    head.push('i');
    head.push('l');
    head.push('d');
    let digits = decimal_chars(i);
    let all = crate::text::concat(head.as_slice(), digits.as_slice());
    assert(head@ =~= seq!['c', 'h', 'i', 'l', 'd']);
    crate::text::string_from_chars(all.as_slice())
}

pub open spec fn views(s: Seq<Geometry>) -> Seq<GeometryView> {
    s.map_values(|g: Geometry| g@)
}

/// The 16 words of child `i`'s placement matrix: 64 bytes after a 0x20-byte
/// header; `None` when they cannot be read.
pub open spec fn spec_read_matrix(rsc: Rsc7, transforms_ptr: u64, i: nat) -> Option<Seq<u32>> {
    match rsc.spec_at(ptr_add(transforms_ptr, (TRANSFORMS_MATRICES + 64 * i) as usize), 64) {
        Ok(b) => Some(Seq::new(16, |j: int| le32(b.subrange(4 * j, 4 * j + 4)) as u32)),
        Err(_) => None,
    }
}

/// `part` and `transform` stamped on a decoded geometry.
pub open spec fn placed(g: GeometryView, part: Seq<char>, transform: Option<Seq<u32>>) -> GeometryView {
    GeometryView { part, transform, ..g }
}

/// The geometries of the first `n` entries of a model's geometry pointer
/// list, in order; null entries are skipped.
pub open spec fn spec_model_geoms(
    rsc: Rsc7,
    geo_ptrs: Seq<u64>,
    shadermap: u64,
    part: Seq<char>,
    transform: Option<Seq<u32>>,
    n: nat,
) -> Result<Seq<GeometryView>, DecodeError>
    decreases n,
{
    if n == 0 {
        Ok(Seq::empty())
    } else {
        match spec_model_geoms(rsc, geo_ptrs, shadermap, part, transform, (n - 1) as nat) {
            Err(e) => Err(e),
            Ok(acc) => {
                let gi = (n - 1) as nat;
                let geo = geo_ptrs[gi as int];
                if geo == 0 {
                    Ok(acc)
                } else {
                    let si: u16 = if shadermap != 0 {
                        match rsc.spec_u16_at(shadermap, (2 * gi) as usize) {
                            Ok(v) => v,
                            Err(_) => 0,
                        }
                    } else {
                        0
                    };
                    match spec_decode_geometry(rsc, geo, si) {
                        Err(e) => Err(e),
                        Ok(g) => Ok(acc.push(placed(g, part, transform))),
                    }
                }
            },
        }
    }
}

/// All geometries of one model.
#[verifier::opaque]
pub open spec fn spec_model(rsc: Rsc7, model: u64, part: Seq<char>, transform: Option<Seq<u32>>) -> Result<
    Seq<GeometryView>,
    DecodeError,
> {
    match rsc.spec_u64_at(model, MODEL_GEOMETRIES_PTR) {
        Err(e) => Err(e),
        Ok(geo_arr) => match rsc.spec_u16_at(model, MODEL_GEOM_COUNT) {
            Err(e) => Err(e),
            Ok(count) => match rsc.spec_u64_at(model, MODEL_SHADERMAP_PTR) {
                Err(e) => Err(e),
                Ok(shadermap) => match rsc.spec_ptr_array(geo_arr, count as nat) {
                    Err(e) => Err(e),
                    Ok(ptrs) => spec_model_geoms(rsc, ptrs, shadermap, part, transform, count as nat),
                },
            },
        },
    }
}

/// The geometries of the first `n` models of a list, in order; null entries
/// are skipped.
pub open spec fn spec_models(
    rsc: Rsc7,
    model_ptrs: Seq<u64>,
    part: Seq<char>,
    transform: Option<Seq<u32>>,
    n: nat,
) -> Result<Seq<GeometryView>, DecodeError>
    decreases n,
{
    if n == 0 {
        Ok(Seq::empty())
    } else {
        match spec_models(rsc, model_ptrs, part, transform, (n - 1) as nat) {
            Err(e) => Err(e),
            Ok(acc) => {
                let model = model_ptrs[n - 1];
                if model == 0 {
                    Ok(acc)
                } else {
                    match spec_model(rsc, model, part, transform) {
                        Err(e) => Err(e),
                        Ok(gs) => Ok(acc + gs),
                    }
                }
            },
        }
    }
}

/// All high-LOD geometries of a DrawableBase (none when it has no high-LOD
/// model list, or that pointer cannot be read).
#[verifier::opaque]
pub open spec fn spec_decode_drawable(
    rsc: Rsc7,
    drawable: u64,
    transform: Option<Seq<u32>>,
    part: Seq<char>,
) -> Result<Seq<GeometryView>, DecodeError> {
    let high = match rsc.spec_u64_at(drawable, DB_MODELS_HIGH_PTR) {
        Ok(v) => v,
        Err(_) => 0,
    };
    if high == 0 {
        Ok(Seq::empty())
    } else {
        match rsc.spec_u64_at(high, PLH_POINTER) {
            Err(e) => Err(e),
            Ok(arr) => match rsc.spec_u16_at(high, PLH_CAPACITY) {
                Err(e) => Err(e),
                Ok(cap) => match rsc.spec_ptr_array(arr, cap as nat) {
                    Err(e) => Err(e),
                    Ok(ptrs) => spec_models(rsc, ptrs, part, transform, cap as nat),
                },
            },
        }
    }
}

proof fn lemma_model_geoms_err(
    rsc: Rsc7,
    geo_ptrs: Seq<u64>,
    shadermap: u64,
    part: Seq<char>,
    transform: Option<Seq<u32>>,
    k: nat,
    m: nat,
)
    requires
        k <= m,
        spec_model_geoms(rsc, geo_ptrs, shadermap, part, transform, k) is Err,
    ensures
        spec_model_geoms(rsc, geo_ptrs, shadermap, part, transform, m) == spec_model_geoms(
            rsc,
            geo_ptrs,
            shadermap,
            part,
            transform,
            k,
        ),
    decreases m,
{
    if m > k {
        lemma_model_geoms_err(rsc, geo_ptrs, shadermap, part, transform, k, (m - 1) as nat);
    }
}

proof fn lemma_models_err(
    rsc: Rsc7,
    model_ptrs: Seq<u64>,
    part: Seq<char>,
    transform: Option<Seq<u32>>,
    k: nat,
    m: nat,
)
    requires
        k <= m,
        spec_models(rsc, model_ptrs, part, transform, k) is Err,
    ensures
        spec_models(rsc, model_ptrs, part, transform, m) == spec_models(rsc, model_ptrs, part, transform, k),
    decreases m,
{
    if m > k {
        lemma_models_err(rsc, model_ptrs, part, transform, k, (m - 1) as nat);
    }
}

fn read_matrix(rsc: &Rsc7, transforms_ptr: u64, i: usize) -> (res: Option<[u32; 16]>)
    requires
        i < 256,
    ensures
        match res {
            Some(m) => spec_read_matrix(*rsc, transforms_ptr, i as nat) == Some(m@),
            None => spec_read_matrix(*rsc, transforms_ptr, i as nat) is None,
        },
{
    let off = TRANSFORMS_MATRICES + i * 64;
    match rsc.at(transforms_ptr.wrapping_add(off as u64), 64) {
        Ok(b) => {
            let m = [
                read_le32(b, 0),
                read_le32(b, 4),
                read_le32(b, 8),
                read_le32(b, 12),
                read_le32(b, 16),
                read_le32(b, 20),
                read_le32(b, 24),
                read_le32(b, 28),
                read_le32(b, 32),
                read_le32(b, 36),
                read_le32(b, 40),
                read_le32(b, 44),
                read_le32(b, 48),
                read_le32(b, 52),
                read_le32(b, 56),
                read_le32(b, 60),
            ];
            assert(m@ =~= Seq::new(16, |j: int| le32(b@.subrange(4 * j, 4 * j + 4)) as u32));
            Some(m)
        },
        Err(_) => None,
    }
}

pub open spec fn opt_view(m: Option<[u32; 16]>) -> Option<Seq<u32>> {
    match m {
        Some(a) => Some(a@),
        None => None,
    }
}

/// Append the geometries of one model to `out`.
#[verifier::spinoff_prover]
#[verifier::rlimit(40)]
fn decode_model(
    rsc: &Rsc7,
    model: u64,
    transform: Option<[u32; 16]>,
    part: &String,
    out: &mut Vec<Geometry>,
) -> (res: Result<(), DecodeError>)
    ensures
        match spec_model(*rsc, model, part@, opt_view(transform)) {
            Ok(gs) => res is Ok && views(final(out)@) == views(old(out)@) + gs,
            Err(e) => res == Err::<(), DecodeError>(e),
        },
        kept_prefix(old(out)@, final(out)@),
{
    reveal(spec_model);
    let ghost init = out@;
    proof {
        lemma_prefix_refl(init);
    }
    let geo_arr = rsc.u64_at(model, MODEL_GEOMETRIES_PTR)?;
    let geo_count = rsc.u16_at(model, MODEL_GEOM_COUNT)?;
    let shadermap_ptr = rsc.u64_at(model, MODEL_SHADERMAP_PTR)?;
    let geo_ptrs = rsc.ptr_array(geo_arr, geo_count as usize)?;
    let ghost start = views(out@);
    let mut gi: usize = 0;
    while gi < geo_count as usize
        invariant
            gi <= geo_count,
            geo_ptrs@.len() == geo_count,
            rsc.spec_ptr_array(geo_arr, geo_count as nat) == Ok::<Seq<u64>, DecodeError>(geo_ptrs@),
            rsc.spec_u64_at(model, MODEL_GEOMETRIES_PTR) == Ok::<u64, DecodeError>(geo_arr),
            rsc.spec_u16_at(model, MODEL_GEOM_COUNT) == Ok::<u16, DecodeError>(geo_count),
            rsc.spec_u64_at(model, MODEL_SHADERMAP_PTR) == Ok::<u64, DecodeError>(shadermap_ptr),
            spec_model_geoms(*rsc, geo_ptrs@, shadermap_ptr, part@, opt_view(transform), gi as nat)
                matches Ok(acc) && views(out@) == start + acc,
            kept_prefix(init, out@),
            init == old(out)@,
        decreases geo_count - gi,
    {
        let geo = geo_ptrs[gi];
        if geo != 0 {
            let shader_index = if shadermap_ptr != 0 {
                match rsc.u16_at(shadermap_ptr, gi * 2) {
                    Ok(v) => v,
                    Err(_) => 0,
                }
            } else {
                0
            };
            let ghost si = shader_index;
            let r = decode_geometry(rsc, geo, shader_index);
            let mut g = match r {
                Ok(g) => g,
                Err(e) => {
                    proof {
                        assert(spec_model_geoms(*rsc, geo_ptrs@, shadermap_ptr, part@, opt_view(transform), (gi + 1) as nat)
                            == Err::<Seq<GeometryView>, DecodeError>(e));
                        lemma_model_geoms_err(*rsc, geo_ptrs@, shadermap_ptr, part@, opt_view(transform), (gi + 1) as nat, geo_count as nat);
                        reveal(spec_model);
                    }
                    return Err(e);
                },
            };
            g.part = part.clone();
            g.transform = transform;
            let ghost before = out@;
            out.push(g);
            proof {
                assert(views(out@) =~= views(before).push(g@));
                lemma_prefix_push(init, before, g);
            }
        }
        gi += 1;
    }
    Ok(())
}

/// Decode all High-LOD geometries of a DrawableBase into `out`, tagged with
/// `part` and carrying the child placement `transform`.
#[verifier::spinoff_prover]
#[verifier::rlimit(40)]
fn decode_drawable(
    rsc: &Rsc7,
    drawable: u64,
    transform: Option<[u32; 16]>,
    part: &String,
    out: &mut Vec<Geometry>,
) -> (res: Result<(), DecodeError>)
    ensures
        match spec_decode_drawable(*rsc, drawable, opt_view(transform), part@) {
            Ok(gs) => res is Ok && views(final(out)@) == views(old(out)@) + gs,
            Err(e) => res == Err::<(), DecodeError>(e),
        },
        kept_prefix(old(out)@, final(out)@),
{
    reveal(spec_decode_drawable);
    let ghost init = out@;
    proof {
        lemma_prefix_refl(init);
    }
    let high_ptr = match rsc.u64_at(drawable, DB_MODELS_HIGH_PTR) {
        Ok(v) => v,
        Err(_) => 0,
    };
    if high_ptr == 0 {
        assert(views(out@) =~= views(out@) + Seq::<GeometryView>::empty());
        return Ok(());
    }
    let models_arr = rsc.u64_at(high_ptr, PLH_POINTER)?;
    let models_cap = rsc.u16_at(high_ptr, PLH_CAPACITY)?;
    let model_ptrs = rsc.ptr_array(models_arr, models_cap as usize)?;
    let ghost start = views(out@);
    let mut mi: usize = 0;
    while mi < models_cap as usize
        invariant
            mi <= models_cap,
            model_ptrs@.len() == models_cap,
            high_ptr != 0,
            (match rsc.spec_u64_at(drawable, DB_MODELS_HIGH_PTR) {
                Ok(v) => v,
                Err(_) => 0,
            }) == high_ptr,
            rsc.spec_u64_at(high_ptr, PLH_POINTER) == Ok::<u64, DecodeError>(models_arr),
            rsc.spec_u16_at(high_ptr, PLH_CAPACITY) == Ok::<u16, DecodeError>(models_cap),
            rsc.spec_ptr_array(models_arr, models_cap as nat) == Ok::<Seq<u64>, DecodeError>(model_ptrs@),
            spec_models(*rsc, model_ptrs@, part@, opt_view(transform), mi as nat) matches Ok(acc)
                && views(out@) == start + acc,
            kept_prefix(init, out@),
            init == old(out)@,
        decreases models_cap - mi,
    {
        let model = model_ptrs[mi];
        if model != 0 {
            let ghost before = views(out@);
            let ghost mid = out@;
            let r = decode_model(rsc, model, transform, part, out);
            proof {
                lemma_prefix_trans(init, mid, out@);
            }
            if let Err(e) = r {
                proof {
                    assert(spec_models(*rsc, model_ptrs@, part@, opt_view(transform), (mi + 1) as nat)
                        == Err::<Seq<GeometryView>, DecodeError>(e));
                    lemma_models_err(*rsc, model_ptrs@, part@, opt_view(transform), (mi + 1) as nat, models_cap as nat);
                    reveal(spec_decode_drawable);
                }
                return Err(e);
            }
            proof {
                let acc = spec_models(*rsc, model_ptrs@, part@, opt_view(transform), mi as nat)->Ok_0;
                let gs = spec_model(*rsc, model, part@, opt_view(transform))->Ok_0;
                assert(start + (acc + gs) =~= (start + acc) + gs);
            }
        }
        mi += 1;
    }
    Ok(())
}


/// What physics child `i` (at `child`) contributes: `None` when it is null or
/// has no drawable, else its bone tag and the geometries of its drawable.
#[verifier::opaque]
pub open spec fn spec_child(rsc: Rsc7, child: u64, transforms_ptr: u64, i: nat) -> Result<
    Option<(u16, Seq<GeometryView>)>,
    DecodeError,
> {
    let d1 = match rsc.spec_u64_at(child, CHILD_DRAWABLE1_PTR) {
        Ok(v) => v,
        Err(_) => 0,
    };
    if child == 0 || d1 == 0 {
        Ok(None)
    } else {
        let tag: u16 = match rsc.spec_u16_at(child, CHILD_BONETAG) {
            Ok(v) => v,
            Err(_) => 0,
        };
        let mat = if transforms_ptr != 0 {
            spec_read_matrix(rsc, transforms_ptr, i)
        } else {
            None
        };
        match spec_decode_drawable(rsc, d1, mat, child_name(i)) {
            Err(e) => Err(e),
            Ok(new) => Ok(Some((tag, new))),
        }
    }
}

/// The (geometries, children) contributed by the first `n` physics children.
pub open spec fn spec_children(rsc: Rsc7, child_ptrs: Seq<u64>, transforms_ptr: u64, n: nat) -> Result<
    (Seq<GeometryView>, Seq<(usize, u16, usize)>),
    DecodeError,
>
    decreases n,
{
    if n == 0 {
        Ok((Seq::empty(), Seq::empty()))
    } else {
        match spec_children(rsc, child_ptrs, transforms_ptr, (n - 1) as nat) {
            Err(e) => Err(e),
            Ok((gs, cs)) => {
                let i = (n - 1) as nat;
                match spec_child(rsc, child_ptrs[i as int], transforms_ptr, i) {
                    Err(e) => Err(e),
                    Ok(None) => Ok((gs, cs)),
                    Ok(Some((tag, new))) => Ok(
                        (
                            gs + new,
                            if new.len() > 0 {
                                cs.push((i as usize, tag, new.len() as usize))
                            } else {
                                cs
                            },
                        ),
                    ),
                }
            },
        }
    }
}

/// Decode physics child `i` into `out`; returns its bone tag and how many
/// geometries it added, or `None` when it contributes nothing.
#[verifier::spinoff_prover]
fn decode_child(rsc: &Rsc7, child: u64, transforms_ptr: u64, i: usize, out: &mut Vec<Geometry>) -> (res: Result<
    Option<(u16, usize)>,
    DecodeError,
>)
    requires
        i < 256,
    ensures
        match spec_child(*rsc, child, transforms_ptr, i as nat) {
            Err(e) => res matches Err(e2) && e2 == e,
            Ok(None) => res matches Ok(None) && views(final(out)@) == views(old(out)@),
            Ok(Some((tag, new))) => res matches Ok(Some((t, added))) && t == tag && added == new.len()
                && views(final(out)@) == views(old(out)@) + new,
        },
{
    reveal(spec_child);
    let d1 = if child == 0 {
        0
    } else {
        match rsc.u64_at(child, CHILD_DRAWABLE1_PTR) {
            Ok(v) => v,
            Err(_) => 0,
        }
    };
    if child == 0 || d1 == 0 {
        return Ok(None);
    }
    let bone_tag = match rsc.u16_at(child, CHILD_BONETAG) {
        Ok(v) => v,
        Err(_) => 0,
    };
    let mat = if transforms_ptr != 0 {
        read_matrix(rsc, transforms_ptr, i)
    } else {
        None
    };
    let before = out.len();
    let part = format_child_name(i);
    decode_drawable(rsc, d1, mat, &part, out)?;
    assert(views(out@).len() == out.len());
    assert(views(old(out)@).len() == before);
    Ok(Some((bone_tag, out.len() - before)))
}

/// Value of a read, or 0 when it fails.
pub open spec fn or_zero_u64(r: Result<u64, DecodeError>) -> u64 {
    match r {
        Ok(v) => v,
        Err(_) => 0,
    }
}

/// What the physics LOD group contributes: the children of LOD1, if any.
#[verifier::opaque]
pub open spec fn spec_physics_children(rsc: Rsc7) -> Result<
    (Seq<GeometryView>, Seq<(usize, u16, usize)>),
    DecodeError,
> {
    let lodgroup = or_zero_u64(rsc.spec_u64_at(ROOT, FRAGTYPE_PHYSLODGROUP_PTR));
    let lod1 = if lodgroup != 0 {
        or_zero_u64(rsc.spec_u64_at(lodgroup, LODGROUP_LOD1_PTR))
    } else {
        0
    };
    if lod1 == 0 {
        Ok((Seq::empty(), Seq::empty()))
    } else {
        let children_ptr = or_zero_u64(rsc.spec_u64_at(lod1, LOD_CHILDREN_PTR));
        let count: u8 = match rsc.spec_u8_at(lod1, LOD_CHILDREN_COUNT) {
            Ok(v) => v,
            Err(_) => 0,
        };
        let transforms_ptr = or_zero_u64(rsc.spec_u64_at(lod1, LOD_TRANSFORMS_PTR));
        if children_ptr != 0 && count > 0 {
            match rsc.spec_ptr_array(children_ptr, count as nat) {
                Err(e) => Err(e),
                Ok(ptrs) => spec_children(rsc, ptrs, transforms_ptr, count as nat),
            }
        } else {
            Ok((Seq::empty(), Seq::empty()))
        }
    }
}

/// The whole fragment: the body drawable ("body", untransformed) followed by
/// each physics child's drawable ("child<i>", with its placement matrix).
pub open spec fn spec_decode(rsc: Rsc7) -> Result<(Seq<GeometryView>, Seq<(usize, u16, usize)>), DecodeError> {
    match rsc.spec_u64_at(ROOT, FRAGTYPE_DRAWABLE_PTR) {
        Err(e) => Err(e),
        Ok(drawable) => {
            let body = if drawable != 0 {
                spec_decode_drawable(rsc, drawable, None, seq!['b', 'o', 'd', 'y'])
            } else {
                Ok(Seq::empty())
            };
            match body {
                Err(e) => Err(e),
                Ok(gs0) => match spec_physics_children(rsc) {
                    Err(e) => Err(e),
                    Ok((gs, cs)) => if gs0.len() + gs.len() == 0 {
                        Err(DecodeError::NoGeometries)
                    } else {
                        Ok((gs0 + gs, cs))
                    },
                },
            }
        },
    }
}

proof fn lemma_children_err(rsc: Rsc7, child_ptrs: Seq<u64>, transforms_ptr: u64, k: nat, m: nat)
    requires
        k <= m,
        spec_children(rsc, child_ptrs, transforms_ptr, k) is Err,
    ensures
        spec_children(rsc, child_ptrs, transforms_ptr, m) == spec_children(rsc, child_ptrs, transforms_ptr, k),
    decreases m,
{
    if m > k {
        lemma_children_err(rsc, child_ptrs, transforms_ptr, k, (m - 1) as nat);
    }
}

/// Decode the physics children of LOD1 into `out`, returning the children
/// table.
#[verifier::spinoff_prover]
#[verifier::rlimit(100)]
fn decode_children(rsc: &Rsc7, out: &mut Vec<Geometry>) -> (res: Result<Vec<(usize, u16, usize)>, DecodeError>)
    ensures
        match spec_physics_children(*rsc) {
            Ok((gs, cs)) => res matches Ok(c) && c@ == cs && views(final(out)@) == views(old(out)@) + gs,
            Err(e) => res matches Err(e2) && e2 == e,
        },
{
    reveal(spec_physics_children);
    let mut children: Vec<(usize, u16, usize)> = Vec::new();
    let lodgroup = match rsc.u64_at(ROOT, FRAGTYPE_PHYSLODGROUP_PTR) {
        Ok(v) => v,
        Err(_) => 0,
    };
    let lod1 = if lodgroup != 0 {
        match rsc.u64_at(lodgroup, LODGROUP_LOD1_PTR) {
            Ok(v) => v,
            Err(_) => 0,
        }
    } else {
        0
    };
    if lod1 == 0 {
        assert(views(out@) =~= views(out@) + Seq::<GeometryView>::empty());
        return Ok(children);
    }
    let children_ptr = match rsc.u64_at(lod1, LOD_CHILDREN_PTR) {
        Ok(v) => v,
        Err(_) => 0,
    };
    let children_count = match rsc.u8_at(lod1, LOD_CHILDREN_COUNT) {
        Ok(v) => v,
        Err(_) => 0,
    };
    let transforms_ptr = match rsc.u64_at(lod1, LOD_TRANSFORMS_PTR) {
        Ok(v) => v,
        Err(_) => 0,
    };
    if children_ptr == 0 || children_count == 0 {
        assert(views(out@) =~= views(out@) + Seq::<GeometryView>::empty());
        assert(children@ =~= Seq::<(usize, u16, usize)>::empty());
        return Ok(children);
    }
    let count = children_count as usize;
    let child_ptrs = rsc.ptr_array(children_ptr, count)?;
    let ghost start = views(out@);
    let mut i: usize = 0;
    while i < count
        invariant
            i <= count,
            count == children_count,
            count < 256,
            child_ptrs@.len() == count,
            lod1 != 0,
            children_ptr != 0,
            children_count > 0,
            (if lodgroup != 0 { or_zero_u64(rsc.spec_u64_at(lodgroup, LODGROUP_LOD1_PTR)) } else { 0 }) == lod1,
            or_zero_u64(rsc.spec_u64_at(ROOT, FRAGTYPE_PHYSLODGROUP_PTR)) == lodgroup,
            or_zero_u64(rsc.spec_u64_at(lod1, LOD_CHILDREN_PTR)) == children_ptr,
            (match rsc.spec_u8_at(lod1, LOD_CHILDREN_COUNT) { Ok(v) => v, Err(_) => 0u8 }) == children_count,
            or_zero_u64(rsc.spec_u64_at(lod1, LOD_TRANSFORMS_PTR)) == transforms_ptr,
            rsc.spec_ptr_array(children_ptr, count as nat) == Ok::<Seq<u64>, DecodeError>(child_ptrs@),
            spec_children(*rsc, child_ptrs@, transforms_ptr, i as nat) matches Ok((gs, cs)) && views(out@)
                == start + gs && children@ == cs,
        decreases count - i,
    {
        let child = child_ptrs[i];
        let ghost before_views = views(out@);
        let r = decode_child(rsc, child, transforms_ptr, i, out);
        match r {
            Err(e) => {
                proof {
                    assert(spec_children(*rsc, child_ptrs@, transforms_ptr, (i + 1) as nat)
                        == Err::<(Seq<GeometryView>, Seq<(usize, u16, usize)>), DecodeError>(e));
                    lemma_children_err(*rsc, child_ptrs@, transforms_ptr, (i + 1) as nat, count as nat);
                    reveal(spec_physics_children);
                }
                return Err(e);
            },
            Ok(None) => {},
            Ok(Some((bone_tag, added))) => {
                proof {
                    let gs = spec_children(*rsc, child_ptrs@, transforms_ptr, i as nat)->Ok_0.0;
                    let new = spec_child(*rsc, child, transforms_ptr, i as nat)->Ok_0->Some_0.1;
                    assert(start + (gs + new) =~= (start + gs) + new);
                }
                if added > 0 {
                    children.push((i, bone_tag, added));
                }
            },
        }
        i += 1;
    }
    Ok(children)
}

/// Decode a fragment: the body drawable, then every physics child's drawable.
#[verifier::spinoff_prover]
pub fn decode(rsc: &Rsc7) -> (res: Result<Mesh, DecodeError>)
    ensures
        match spec_decode(*rsc) {
            Ok((gs, cs)) => res matches Ok(m) && views(m.geometries@) == gs && m.children@ == cs,
            Err(e) => res matches Err(e2) && e2 == e,
        },
{
    let mut geometries: Vec<Geometry> = Vec::new();
    let drawable = rsc.u64_at(ROOT, FRAGTYPE_DRAWABLE_PTR)?;
    if drawable != 0 {
        let body = "body".to_string();
        proof {
            broadcast use vstd::string::to_string_from_display_ensures_for_str;
            reveal_strlit("body");
            assert(body@ =~= seq!['b', 'o', 'd', 'y']);
        }
        decode_drawable(rsc, drawable, None, &body, &mut geometries)?;
    }
    let ghost body_views = views(geometries@);
    assert(views(Seq::<Geometry>::empty()) =~= Seq::<GeometryView>::empty());
    let children = decode_children(rsc, &mut geometries)?;
    if geometries.len() == 0 {
        assert(views(geometries@).len() == 0);
        return Err(DecodeError::NoGeometries);
    }
    Ok(Mesh { geometries, children })
}

// ---- the children table ----------------------------------------------------------

/// Geometries counted by a children table.
pub open spec fn child_total(cs: Seq<(usize, u16, usize)>) -> nat
    decreases cs.len(),
{
    if cs.len() == 0 {
        0
    } else {
        child_total(cs.drop_last()) + (cs.last().2 as nat)
    }
}

proof fn lemma_children_table(rsc: Rsc7, ptrs: Seq<u64>, transforms_ptr: u64, n: nat)
    requires
        n <= 256,
    ensures
        spec_children(rsc, ptrs, transforms_ptr, n) matches Ok((gs, cs)) ==> (gs.len() <= usize::MAX ==> {
            &&& child_total(cs) == gs.len()
            &&& forall|k: int| 0 <= k < cs.len() ==> (#[trigger] cs[k]).2 > 0 && cs[k].0 < n
            &&& forall|a: int, b: int| 0 <= a < b < cs.len() ==> (#[trigger] cs[a]).0 < (#[trigger] cs[b]).0
        }),
    decreases n,
{
    if n > 0 {
        lemma_children_table(rsc, ptrs, transforms_ptr, (n - 1) as nat);
        let i = (n - 1) as nat;
        if let Ok((gs, cs)) = spec_children(rsc, ptrs, transforms_ptr, (n - 1) as nat) {
            if let Ok(Some((tag, new))) = spec_child(rsc, ptrs[i as int], transforms_ptr, i) {
                if new.len() > 0 && gs.len() + new.len() <= usize::MAX {
                    let cs2 = cs.push((i as usize, tag, new.len() as usize));
                    assert(cs2.drop_last() =~= cs);
                    assert((i as usize) as nat == i);
                    assert((new.len() as usize) as nat == new.len());
                    assert forall|k: int| 0 <= k < cs2.len() implies (#[trigger] cs2[k]).2 > 0 && cs2[k].0 < n by {
                        if k < cs.len() {
                            assert(cs2[k] == cs[k]);
                        }
                    }
                    assert forall|a: int, b: int| 0 <= a < b < cs2.len() implies (#[trigger] cs2[a]).0 < (
                    #[trigger] cs2[b]).0 by {
                        assert(cs2[a] == cs[a]);
                        if b < cs.len() {
                            assert(cs2[b] == cs[b]);
                        }
                    }
                }
            }
        }
    }
}

proof fn lemma_physics_table(rsc: Rsc7)
    ensures
        spec_physics_children(rsc) matches Ok((gs, cs)) ==> (gs.len() <= usize::MAX ==> {
            &&& child_total(cs) == gs.len()
            &&& forall|k: int| 0 <= k < cs.len() ==> (#[trigger] cs[k]).2 > 0
            &&& forall|a: int, b: int| 0 <= a < b < cs.len() ==> (#[trigger] cs[a]).0 < (#[trigger] cs[b]).0
        }),
{
    reveal(spec_physics_children);
    let lodgroup = or_zero_u64(rsc.spec_u64_at(ROOT, FRAGTYPE_PHYSLODGROUP_PTR));
    let lod1 = if lodgroup != 0 {
        or_zero_u64(rsc.spec_u64_at(lodgroup, LODGROUP_LOD1_PTR))
    } else {
        0
    };
    if lod1 != 0 {
        let children_ptr = or_zero_u64(rsc.spec_u64_at(lod1, LOD_CHILDREN_PTR));
        let count: u8 = match rsc.spec_u8_at(lod1, LOD_CHILDREN_COUNT) {
            Ok(v) => v,
            Err(_) => 0,
        };
        let transforms_ptr = or_zero_u64(rsc.spec_u64_at(lod1, LOD_TRANSFORMS_PTR));
        if children_ptr != 0 && count > 0 {
            if let Ok(ptrs) = rsc.spec_ptr_array(children_ptr, count as nat) {
                lemma_children_table(rsc, ptrs, transforms_ptr, count as nat);
            }
        }
    }
}

/// How many geometries the body's drawable gives (none where there is no
/// body drawable or it does not decode).
pub open spec fn body_count(rsc: Rsc7) -> nat {
    match rsc.spec_u64_at(ROOT, FRAGTYPE_DRAWABLE_PTR) {
        Ok(d) => if d != 0 {
            match spec_decode_drawable(rsc, d, None, seq!['b', 'o', 'd', 'y']) {
                Ok(gs) => gs.len(),
                Err(_) => 0,
            }
        } else {
            0
        },
        Err(_) => 0,
    }
}

/// The children table accounts for exactly the geometry that follows the
/// body's: each entry is a physics child that added at least one geometry,
/// entries come in increasing child order, and their counts add up, with the
/// body's, to all the geometries decoded.
#[verifier::spinoff_prover]
pub proof fn children_account_for_geometries(rsc: Rsc7)
    ensures
        spec_decode(rsc) matches Ok((gs, cs)) ==> (gs.len() <= usize::MAX ==> {
            &&& body_count(rsc) + child_total(cs) == gs.len()
            &&& forall|k: int| 0 <= k < cs.len() ==> (#[trigger] cs[k]).2 > 0
            &&& forall|a: int, b: int| 0 <= a < b < cs.len() ==> (#[trigger] cs[a]).0 < (#[trigger] cs[b]).0
        }),
{
    lemma_physics_table(rsc);
}


/// Every geometry of `gs` is tagged `part`.
pub open spec fn all_tagged(gs: Seq<GeometryView>, part: Seq<char>) -> bool {
    forall|j: int| 0 <= j < gs.len() ==> (#[trigger] gs[j]).part == part
}

proof fn lemma_model_geoms_tagged(
    rsc: Rsc7,
    geo_ptrs: Seq<u64>,
    shadermap: u64,
    part: Seq<char>,
    transform: Option<Seq<u32>>,
    n: nat,
)
    ensures
        spec_model_geoms(rsc, geo_ptrs, shadermap, part, transform, n) matches Ok(gs) ==> all_tagged(gs, part),
    decreases n,
{
    if n > 0 {
        lemma_model_geoms_tagged(rsc, geo_ptrs, shadermap, part, transform, (n - 1) as nat);
    }
}

proof fn lemma_models_tagged(rsc: Rsc7, model_ptrs: Seq<u64>, part: Seq<char>, transform: Option<Seq<u32>>, n: nat)
    ensures
        spec_models(rsc, model_ptrs, part, transform, n) matches Ok(gs) ==> all_tagged(gs, part),
    decreases n,
{
    if n > 0 {
        lemma_models_tagged(rsc, model_ptrs, part, transform, (n - 1) as nat);
        let model = model_ptrs[n - 1];
        if model != 0 {
            reveal(spec_model);
            match rsc.spec_u64_at(model, MODEL_GEOMETRIES_PTR) {
                Ok(geo_arr) => match rsc.spec_u16_at(model, MODEL_GEOM_COUNT) {
                    Ok(count) => match rsc.spec_u64_at(model, MODEL_SHADERMAP_PTR) {
                        Ok(shadermap) => match rsc.spec_ptr_array(geo_arr, count as nat) {
                            Ok(ptrs) => lemma_model_geoms_tagged(rsc, ptrs, shadermap, part, transform, count as nat),
                            Err(_) => {},
                        },
                        Err(_) => {},
                    },
                    Err(_) => {},
                },
                Err(_) => {},
            }
        }
    }
}

/// Every geometry a drawable decodes to carries the part name it was decoded
/// under.
pub proof fn drawable_geometries_tagged(rsc: Rsc7, drawable: u64, transform: Option<Seq<u32>>, part: Seq<char>)
    ensures
        spec_decode_drawable(rsc, drawable, transform, part) matches Ok(gs) ==> all_tagged(gs, part),
{
    reveal(spec_decode_drawable);
    let high = match rsc.spec_u64_at(drawable, DB_MODELS_HIGH_PTR) {
        Ok(v) => v,
        Err(_) => 0,
    };
    if high != 0 {
        if let Ok(arr) = rsc.spec_u64_at(high, PLH_POINTER) {
            if let Ok(cap) = rsc.spec_u16_at(high, PLH_CAPACITY) {
                if let Ok(ptrs) = rsc.spec_ptr_array(arr, cap as nat) {
                    lemma_models_tagged(rsc, ptrs, part, transform, cap as nat);
                }
            }
        }
    }
}

/// Where the geometries of children-table entry `k` start among the
/// children's geometries: after those of every earlier entry.
pub open spec fn block_start(cs: Seq<(usize, u16, usize)>, k: int) -> nat {
    child_total(cs.take(k))
}

proof fn lemma_block_fits(cs: Seq<(usize, u16, usize)>, k: int)
    requires
        0 <= k < cs.len(),
    ensures
        block_start(cs, k) + cs[k].2 <= child_total(cs),
    decreases cs.len(),
{
    assert(cs.take(k + 1).drop_last() =~= cs.take(k));
    if k + 1 == cs.len() {
        assert(cs.take(k + 1) =~= cs);
    } else {
        lemma_block_fits(cs.drop_last(), k);
        assert(cs.drop_last().take(k) =~= cs.take(k));
        assert(cs.drop_last()[k] == cs[k]);
    }
}

proof fn lemma_children_tagged(rsc: Rsc7, ptrs: Seq<u64>, transforms_ptr: u64, n: nat)
    requires
        n <= 256,
    ensures
        spec_children(rsc, ptrs, transforms_ptr, n) matches Ok((gs, cs)) ==> (gs.len() <= usize::MAX ==> forall|
            k: int,
            j: int,
        |
            0 <= k < cs.len() && 0 <= j < cs[k].2 ==> (#[trigger] gs[block_start(cs, k) + j]).part == child_name(
                #[trigger] cs[k].0 as nat,
            )),
    decreases n,
{
    if n > 0 {
        let i = (n - 1) as nat;
        lemma_children_tagged(rsc, ptrs, transforms_ptr, i);
        lemma_children_table(rsc, ptrs, transforms_ptr, i);
        if let Ok((gs0, cs0)) = spec_children(rsc, ptrs, transforms_ptr, i) {
            reveal(spec_child);
            if let Ok(Some((tag, new))) = spec_child(rsc, ptrs[i as int], transforms_ptr, i) {
                let mat = if transforms_ptr != 0 {
                    spec_read_matrix(rsc, transforms_ptr, i)
                } else {
                    None
                };
                let d1 = match rsc.spec_u64_at(ptrs[i as int], CHILD_DRAWABLE1_PTR) {
                    Ok(v) => v,
                    Err(_) => 0,
                };
                drawable_geometries_tagged(rsc, d1, mat, child_name(i));
                let gs = gs0 + new;
                if new.len() > 0 && gs.len() <= usize::MAX {
                    let cs = cs0.push((i as usize, tag, new.len() as usize));
                    assert forall|k: int, j: int|
                        0 <= k < cs.len() && 0 <= j < cs[k].2 implies (#[trigger] gs[block_start(cs, k) + j]).part
                        == child_name(#[trigger] cs[k].0 as nat) by {
                        assert(cs.take(k) =~= if k < cs0.len() { cs0.take(k) } else { cs0 });
                        if k < cs0.len() {
                            assert(cs[k] == cs0[k]);
                            lemma_block_fits(cs0, k);
                            assert(gs0[block_start(cs0, k) + j].part == child_name(cs0[k].0 as nat));
                        } else {
                            assert(cs0.take(cs0.len() as int) =~= cs0);
                            assert(new[j].part == child_name(i));
                        }
                    }
                }
            }
        }
    }
}

/// Each entry of the children table names the geometries it counts: the body's
/// geometries come first and are tagged "body", and then, entry by entry, the
/// geometries of physics child `i` are tagged `child<i>`.
#[verifier::spinoff_prover]
pub proof fn children_name_their_geometries(rsc: Rsc7)
    ensures
        spec_decode(rsc) matches Ok((gs, cs)) ==> (gs.len() <= usize::MAX ==> {
            &&& forall|j: int| 0 <= j < body_count(rsc) ==> (#[trigger] gs[j]).part == seq!['b', 'o', 'd', 'y']
            &&& forall|k: int, j: int|
                0 <= k < cs.len() && 0 <= j < cs[k].2 ==> (#[trigger] gs[body_count(rsc) + block_start(cs, k)
                    + j]).part == child_name(#[trigger] cs[k].0 as nat)
        }),
{
    reveal(spec_physics_children);
    lemma_physics_table(rsc);
    if let Ok(d) = rsc.spec_u64_at(ROOT, FRAGTYPE_DRAWABLE_PTR) {
        if d != 0 {
            drawable_geometries_tagged(rsc, d, None, seq!['b', 'o', 'd', 'y']);
        }
    }
    let lodgroup = or_zero_u64(rsc.spec_u64_at(ROOT, FRAGTYPE_PHYSLODGROUP_PTR));
    let lod1 = if lodgroup != 0 {
        or_zero_u64(rsc.spec_u64_at(lodgroup, LODGROUP_LOD1_PTR))
    } else {
        0
    };
    if lod1 != 0 {
        let children_ptr = or_zero_u64(rsc.spec_u64_at(lod1, LOD_CHILDREN_PTR));
        let count: u8 = match rsc.spec_u8_at(lod1, LOD_CHILDREN_COUNT) {
            Ok(v) => v,
            Err(_) => 0,
        };
        let transforms_ptr = or_zero_u64(rsc.spec_u64_at(lod1, LOD_TRANSFORMS_PTR));
        if children_ptr != 0 && count > 0 {
            if let Ok(ptrs) = rsc.spec_ptr_array(children_ptr, count as nat) {
                lemma_children_tagged(rsc, ptrs, transforms_ptr, count as nat);
            }
        }
    }
    if let Ok((gs, cs)) = spec_decode(rsc) {
        if gs.len() <= usize::MAX {
            let b = body_count(rsc);
            let (cg, _) = spec_physics_children(rsc)->Ok_0;
            assert(gs.subrange(0, b as int) + cg =~= gs);
            assert forall|k: int, j: int|
                0 <= k < cs.len() && 0 <= j < cs[k].2 implies (#[trigger] gs[b + block_start(cs, k) + j]).part
                == child_name(#[trigger] cs[k].0 as nat) by {
                lemma_block_fits(cs, k);
                assert(gs[b + block_start(cs, k) + j] == cg[block_start(cs, k) + j]);
            }
        }
    }
}


/// The word at byte `o` of the vertex buffer (an f32's bits).
pub open spec fn buf_word(vb: Seq<u8>, o: int) -> u32 {
    le32(vb.subrange(o, o + 4)) as u32
}

/// Each vertex attribute is read from its own channel of the vertex, its
/// components in order: vertex `i`'s position (and a Float3 normal) is the
/// words at the channel offset, +4 and +8; a Float2 uv is u at the offset
/// and v 4 bytes after; a Half2 uv is the halves at the offset and 2 bytes
/// after, each widened; colour, blend weights and blend indices are the four
/// bytes at their channel in order (indices through the BoneIds palette).
pub proof fn vertex_channels_in_order(
    shader_index: u16,
    vb: Seq<u8>,
    stride: nat,
    n: nat,
    flags: u32,
    types: u64,
    palette: Seq<u16>,
    indices: Seq<u32>,
    i: int,
)
    requires
        vb.len() == n * stride,
        layout_fits(flags, types, stride),
        0 <= i < n,
    ensures
        ({
            let g = geometry_from(shader_index, vb, stride, n, flags, types, palette, indices);
            let at = |k: nat| i * stride + chan_start(flags, types, k);
            &&& chan_present(flags, 0) ==> g.positions.len() == n && g.positions[i] == [
                buf_word(vb, at(0)),
                buf_word(vb, at(0) + 4),
                buf_word(vb, at(0) + 8),
            ]
            &&& (chan_present(flags, 3) && spec_comp_code(types, 3) == 6) ==> g.normals.len() == n
                && g.normals[i] == [buf_word(vb, at(3)), buf_word(vb, at(3) + 4), buf_word(vb, at(3) + 8)]
            &&& (chan_present(flags, 6) && spec_comp_code(types, 6) == 5) ==> g.uvs.len() == n && g.uvs[i]
                == [buf_word(vb, at(6)), buf_word(vb, at(6) + 4)]
            &&& (chan_present(flags, 6) && spec_comp_code(types, 6) == 1) ==> g.uvs.len() == n && g.uvs[i]
                == [
                spec_half_to_f32_bits(le16(vb.subrange(at(6), at(6) + 2)) as u16),
                spec_half_to_f32_bits(le16(vb.subrange(at(6) + 2, at(6) + 4)) as u16),
            ]
            &&& chan_present(flags, 4) ==> g.colors.len() == n && g.colors[i] == [
                vb[at(4)],
                vb[at(4) + 1],
                vb[at(4) + 2],
                vb[at(4) + 3],
            ]
            &&& spec_skinned(flags) ==> g.bone_wt.len() == n && g.bone_wt[i] == [
                vb[at(1)],
                vb[at(1) + 1],
                vb[at(1) + 2],
                vb[at(1) + 3],
            ]
            &&& spec_skinned(flags) ==> g.bone_idx.len() == n && g.bone_idx[i] == [
                remap_bone(palette, vb[at(2)]),
                remap_bone(palette, vb[at(2) + 1]),
                remap_bone(palette, vb[at(2) + 2]),
                remap_bone(palette, vb[at(2) + 3]),
            ]
        }),
{
    assert(i * stride + stride <= n * stride) by (nonlinear_arith)
        requires
            i < n,
    ;
    assert(0 <= i * stride) by (nonlinear_arith)
        requires
            0 <= i,
    ;
    let v = vertex_bytes(vb, stride as nat, i);
    let base = i * stride;
    assert forall|c: int, len: int| 0 <= c && c + len <= stride && 0 <= len implies #[trigger] v.subrange(c, c + len)
        =~= vb.subrange(base + c, base + c + len) by {}
    assert forall|c: int| 0 <= c < stride implies #[trigger] v[c] == vb[base + c] by {}
    let at = |k: nat| i * stride + chan_start(flags, types, k);
    if chan_present(flags, 0) {
        let c = chan_start(flags, types, 0) as int;
        assert(v.subrange(c, c + 4) =~= vb.subrange(at(0), at(0) + 4));
        assert(v.subrange(c + 4, c + 8) =~= vb.subrange(at(0) + 4, at(0) + 8));
        assert(v.subrange(c + 8, c + 12) =~= vb.subrange(at(0) + 8, at(0) + 12));
    }
    if chan_present(flags, 3) && spec_comp_code(types, 3) == 6 {
        let c = chan_start(flags, types, 3) as int;
        assert(v.subrange(c, c + 4) =~= vb.subrange(at(3), at(3) + 4));
        assert(v.subrange(c + 4, c + 8) =~= vb.subrange(at(3) + 4, at(3) + 8));
        assert(v.subrange(c + 8, c + 12) =~= vb.subrange(at(3) + 8, at(3) + 12));
    }
    if chan_present(flags, 6) {
        let c = chan_start(flags, types, 6) as int;
        if spec_comp_code(types, 6) == 5 {
            assert(v.subrange(c, c + 4) =~= vb.subrange(at(6), at(6) + 4));
            assert(v.subrange(c + 4, c + 8) =~= vb.subrange(at(6) + 4, at(6) + 8));
        }
        if spec_comp_code(types, 6) == 1 {
            assert(v.subrange(c, c + 2) =~= vb.subrange(at(6), at(6) + 2));
            assert(v.subrange(c + 2, c + 4) =~= vb.subrange(at(6) + 2, at(6) + 4));
        }
    }
}

} // verus!
