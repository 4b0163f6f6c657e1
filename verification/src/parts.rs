//! Grouping of decoded geometry into rigid parts by dominant bone: each
//! triangle goes to the bone it is most weighted to; triangles on an
//! articulated bone (door, hood, boot) split off into their own part with a
//! hinge, everything else merges into the "body".

use vstd::prelude::*;
use crate::skeleton::Bone;
use crate::yft::{Geometry, GeometryView, Mesh, views};

verus! {

/// A hinge in RAGE space; every component is an `f32` bit pattern
/// (angles in radians).
#[derive(Clone, Copy)]
pub struct Hinge {
    pub pos: [u32; 3],
    pub axis: [u32; 3],
    pub min_angle: u32,
    pub max_angle: u32,
}

/// A rigid part: "body" or an articulated bone's part.
pub struct Part {
    pub name: String,
    pub articulated: bool,
    pub hinge: Option<Hinge>,
    pub geometries: Vec<Geometry>,
}

pub struct PartView {
    pub name: Seq<char>,
    pub articulated: bool,
    pub hinge: Option<Hinge>,
    pub geometries: Seq<GeometryView>,
}

impl View for Part {
    type V = PartView;

    open spec fn view(&self) -> PartView {
        PartView {
            name: self.name@,
            articulated: self.articulated,
            hinge: self.hinge,
            geometries: views(self.geometries@),
        }
    }
}


// ---- well-formed geometry ----------------------------------------------------

/// Number of whole triangles the grouping walks: `indices.len() / 3`.
pub open spec fn tri_count(g: GeometryView) -> nat {
    g.indices.len() / 3
}

/// Whether vertex `v` can be read: it has a position, and a normal, a uv
/// and skinning wherever the geometry has such lists.
pub open spec fn vertex_ok(g: GeometryView, v: nat) -> bool {
    &&& v < g.positions.len()
    &&& g.normals.len() > 0 ==> v < g.normals.len()
    &&& g.uvs.len() > 0 ==> v < g.uvs.len()
    &&& g.skinned ==> v < g.bone_idx.len() && v < g.bone_wt.len()
}

/// Every vertex used by a whole triangle can be read (see `vertex_ok`), and
/// the counts fit in `u32`.
pub open spec fn geometry_wf(g: GeometryView) -> bool {
    &&& g.positions.len() <= u32::MAX
    &&& g.indices.len() <= u32::MAX
    &&& forall|j: int| 0 <= j < 3 * tri_count(g) ==> vertex_ok(g, #[trigger] g.indices[j] as nat)
}

/// Executable check of [`geometry_wf`].
pub fn is_well_formed(g: &Geometry) -> (r: bool)
    ensures
        r == geometry_wf(g@),
{
    let n = g.positions.len();
    if n > u32::MAX as usize || g.indices.len() > u32::MAX as usize {
        return false;
    }
    let nn = g.normals.len();
    let nu = g.uvs.len();
    let limit = g.indices.len() / 3 * 3;
    let mut j: usize = 0;
    while j < limit
        invariant
            j <= limit,
            limit == 3 * tri_count(g@),
            n == g@.positions.len(),
            nn == g@.normals.len(),
            nu == g@.uvs.len(),
            forall|k: int| 0 <= k < j ==> vertex_ok(g@, #[trigger] g@.indices[k] as nat),
        decreases limit - j,
    {
        let v = g.indices[j] as usize;
        if v >= n || (nn > 0 && v >= nn) || (nu > 0 && v >= nu) || (g.skinned && (v >= g.bone_idx.len()
            || v >= g.bone_wt.len())) {
            assert(!vertex_ok(g@, g@.indices[j as int] as nat));
            return false;
        }
        j += 1;
    }
    true
}

// ---- re-emitting a subset of triangles ---------------------------------------

/// First position of `x` in `s`, or -1.
pub open spec fn find(s: Seq<usize>, x: usize) -> int
    decreases s.len(),
{
    if s.len() == 0 {
        -1
    } else {
        let f = find(s.drop_last(), x);
        if f >= 0 {
            f
        } else if s.last() == x {
            s.len() - 1
        } else {
            -1
        }
    }
}

/// The vertex indices of a triangle list, three per triangle.
pub open spec fn flatten(tris: Seq<(usize, usize, usize)>) -> Seq<usize>
    decreases tris.len(),
{
    if tris.len() == 0 {
        Seq::empty()
    } else {
        flatten(tris.drop_last()).push(tris.last().0).push(tris.last().1).push(tris.last().2)
    }
}

/// After the first `n` referenced vertices: the old vertex of each new vertex
/// (first-use order), and the new index of each reference.
pub open spec fn remap_state(flat: Seq<usize>, n: nat) -> (Seq<usize>, Seq<u32>)
    decreases n,
{
    if n == 0 {
        (Seq::empty(), Seq::empty())
    } else {
        let (olds, idx) = remap_state(flat, (n - 1) as nat);
        let x = flat[n - 1];
        let f = find(olds, x);
        if f >= 0 {
            (olds, idx.push(f as u32))
        } else {
            (olds.push(x), idx.push(olds.len() as u32))
        }
    }
}

/// `src` restricted to the triangles `tris`: the referenced vertices, renumbered
/// compactly in order of first use, with their positions, normals, uvs and
/// skinning; colours are not carried over.
pub open spec fn spec_extract(src: GeometryView, tris: Seq<(usize, usize, usize)>) -> GeometryView {
    let flat = flatten(tris);
    let (olds, idx) = remap_state(flat, flat.len());
    GeometryView {
        shader_index: src.shader_index,
        positions: olds.map_values(|o: usize| src.positions[o as int]),
        normals: if src.normals.len() > 0 {
            olds.map_values(|o: usize| src.normals[o as int])
        } else {
            Seq::empty()
        },
        uvs: if src.uvs.len() > 0 {
            olds.map_values(|o: usize| src.uvs[o as int])
        } else {
            Seq::empty()
        },
        colors: Seq::empty(),
        indices: idx,
        stride: src.stride,
        fvf_flags: src.fvf_flags,
        fvf_types: src.fvf_types,
        part: Seq::empty(),
        skinned: src.skinned,
        bone_idx: if src.skinned {
            olds.map_values(|o: usize| src.bone_idx[o as int])
        } else {
            Seq::empty()
        },
        bone_wt: if src.skinned {
            olds.map_values(|o: usize| src.bone_wt[o as int])
        } else {
            Seq::empty()
        },
        transform: src.transform,
    }
}

proof fn lemma_find_push(s: Seq<usize>, y: usize, x: usize)
    ensures
        find(s.push(y), x) == if find(s, x) >= 0 {
            find(s, x)
        } else if x == y {
            s.len() as int
        } else {
            -1
        },
{
    assert(s.push(y).drop_last() =~= s);
}

proof fn lemma_find_range(s: Seq<usize>, x: usize)
    ensures
        -1 <= find(s, x) < s.len(),
        find(s, x) >= 0 ==> s[find(s, x)] == x,
        find(s, x) < 0 ==> !s.contains(x),
    decreases s.len(),
{
    if s.len() > 0 {
        lemma_find_range(s.drop_last(), x);
        if find(s, x) < 0 {
            assert forall|i: int| 0 <= i < s.len() implies s[i] != x by {
                if i < s.len() - 1 {
                    assert(s.drop_last()[i] == s[i]);
                }
            }
        }
    }
}

proof fn lemma_remap_state(flat: Seq<usize>, n: nat)
    requires
        n <= flat.len(),
        n <= u32::MAX,
    ensures
        remap_state(flat, n).1.len() == n,
        remap_state(flat, n).0.len() <= n,
        forall|j: int| 0 <= j < n ==> (#[trigger] remap_state(flat, n).1[j] as int) < remap_state(flat, n).0.len(),
        forall|j: int| 0 <= j < n ==> remap_state(flat, n).0[#[trigger] remap_state(flat, n).1[j] as int] == flat[j],
        forall|i: int| 0 <= i < remap_state(flat, n).0.len() ==> exists|j: int| 0 <= j < n && flat[j] == #[trigger] remap_state(flat, n).0[i],
    decreases n,
{
    if n > 0 {
        lemma_remap_state(flat, (n - 1) as nat);
        let (olds, idx) = remap_state(flat, (n - 1) as nat);
        lemma_find_range(olds, flat[n - 1]);
        let (o2, i2) = remap_state(flat, n);
        assert forall|j: int| 0 <= j < n implies o2[#[trigger] i2[j] as int] == flat[j] by {
            if j < n - 1 {
                assert(i2[j] == idx[j]);
                if find(olds, flat[n - 1]) < 0 {
                    assert(o2[idx[j] as int] == olds[idx[j] as int]);
                }
            }
        }
        assert forall|i: int| 0 <= i < o2.len() implies exists|j: int| 0 <= j < n && flat[j] == #[trigger] o2[i] by {
            if i < olds.len() {
                assert(o2[i] == olds[i]);
                let j = choose|j: int| 0 <= j < n - 1 && flat[j] == olds[i];
                assert(0 <= j < n && flat[j] == o2[i]);
            } else {
                assert(flat[n - 1] == o2[i]);
            }
        }
    }
}

/// Re-emit a subset of a geometry's triangles as a standalone geometry,
/// renumbering the referenced vertices compactly in order of first use.
pub fn extract(src: &Geometry, tris: &Vec<(usize, usize, usize)>) -> (g: Geometry)
    requires
        3 * tris@.len() <= u32::MAX,
        forall|j: int| 0 <= j < flatten(tris@).len() ==> vertex_ok(src@, #[trigger] flatten(tris@)[j] as nat),
    ensures
        g@ == spec_extract(src@, tris@),
{
    let n = src.positions.len();
    let mut remap: Vec<Option<u32>> = Vec::with_capacity(n);
    let mut k: usize = 0;
    while k < n
        invariant
            k <= n,
            remap@.len() == k,
            forall|x: int| 0 <= x < k ==> #[trigger] remap@[x] is None,
        decreases n - k,
    {
        remap.push(None);
        k += 1;
    }
    let has_n = src.normals.len() != 0;
    let has_uv = src.uvs.len() != 0;
    let mut olds: Vec<usize> = Vec::new();
    let mut positions: Vec<[u32; 3]> = Vec::new();
    let mut normals: Vec<[u32; 3]> = Vec::new();
    let mut uvs: Vec<[u32; 2]> = Vec::new();
    let mut bone_idx: Vec<[u16; 4]> = Vec::new();
    let mut bone_wt: Vec<[u8; 4]> = Vec::new();
    let mut indices: Vec<u32> = Vec::new();
    let ghost flat = flatten(tris@);
    let ghost s = src@;
    proof {
        lemma_flatten_len(tris@);
    }
    let mut r: usize = 0;
    while r < 3 * tris.len()
        invariant
            r <= 3 * tris@.len(),
            3 * tris@.len() <= u32::MAX,
            flat == flatten(tris@),
            flat.len() == 3 * tris@.len(),
            s == src@,
            n == s.positions.len(),
            remap@.len() == n,
            has_n == (s.normals.len() > 0),
            has_uv == (s.uvs.len() > 0),
            forall|j: int| 0 <= j < flat.len() ==> vertex_ok(s, #[trigger] flat[j] as nat),
            olds@ == remap_state(flat, r as nat).0,
            indices@ == remap_state(flat, r as nat).1,
            olds@.len() <= r,
            forall|x: int| 0 <= x < n ==> (#[trigger] remap@[x] matches Some(i) ==> find(olds@, x as usize) == i as int),
            forall|x: int| 0 <= x < n ==> (#[trigger] remap@[x] is None ==> find(olds@, x as usize) == -1),
            positions@ == olds@.map_values(|o: usize| s.positions[o as int]),
            has_n ==> normals@ == olds@.map_values(|o: usize| s.normals[o as int]),
            !has_n ==> normals@.len() == 0,
            has_uv ==> uvs@ == olds@.map_values(|o: usize| s.uvs[o as int]),
            !has_uv ==> uvs@.len() == 0,
            s.skinned ==> bone_idx@ == olds@.map_values(|o: usize| s.bone_idx[o as int]),
            s.skinned ==> bone_wt@ == olds@.map_values(|o: usize| s.bone_wt[o as int]),
            !s.skinned ==> bone_idx@.len() == 0 && bone_wt@.len() == 0,
        decreases 3 * tris@.len() - r,
    {
        let t = tris[r / 3];
        let old = if r % 3 == 0 {
            t.0
        } else if r % 3 == 1 {
            t.1
        } else {
            t.2
        };
        proof {
            lemma_flatten_index(tris@, r as int);
        }
        assert(old == flat[r as int]);
        assert(vertex_ok(s, flat[r as int] as nat));
        match remap[old] {
            Some(i) => {
                indices.push(i);
                proof {
                    lemma_find_range(olds@, old);
                }
            },
            None => {
                let i = positions.len() as u32;
                let ghost olds0 = olds@;
                olds.push(old);
                positions.push(src.positions[old]);
                if has_n {
                    normals.push(src.normals[old]);
                }
                if has_uv {
                    uvs.push(src.uvs[old]);
                }
                if src.skinned {
                    bone_idx.push(src.bone_idx[old]);
                    bone_wt.push(src.bone_wt[old]);
                }
                remap.set(old, Some(i));
                indices.push(i);
                proof {
                    assert forall|x: int| 0 <= x < n implies (#[trigger] remap@[x] matches Some(j) ==> find(olds@, x as usize) == j as int) by {
                        lemma_find_push(olds0, old, x as usize);
                    }
                    assert forall|x: int| 0 <= x < n && #[trigger] remap@[x] is None implies find(olds@, x as usize) == -1 by {
                        lemma_find_push(olds0, old, x as usize);
                    }
                    assert(positions@ =~= olds@.map_values(|o: usize| s.positions[o as int]));
                    if has_n {
                        assert(normals@ =~= olds@.map_values(|o: usize| s.normals[o as int]));
                    }
                    if has_uv {
                        assert(uvs@ =~= olds@.map_values(|o: usize| s.uvs[o as int]));
                    }
                    if s.skinned {
                        assert(bone_idx@ =~= olds@.map_values(|o: usize| s.bone_idx[o as int]));
                        assert(bone_wt@ =~= olds@.map_values(|o: usize| s.bone_wt[o as int]));
                    }
                }
            },
        }
        r += 1;
    }
    proof {
        if !has_n {
            assert(normals@ =~= Seq::<[u32; 3]>::empty());
        }
        if !has_uv {
            assert(uvs@ =~= Seq::<[u32; 2]>::empty());
        }
        if !s.skinned {
            assert(bone_idx@ =~= Seq::<[u16; 4]>::empty());
            assert(bone_wt@ =~= Seq::<[u8; 4]>::empty());
        }
    }
    Geometry {
        shader_index: src.shader_index,
        positions,
        normals,
        uvs,
        colors: Vec::new(),
        indices,
        stride: src.stride,
        fvf_flags: src.fvf_flags,
        fvf_types: src.fvf_types,
        part: String::new(),
        skinned: src.skinned,
        bone_idx,
        bone_wt,
        transform: src.transform,
    }
}

proof fn lemma_flatten_len(tris: Seq<(usize, usize, usize)>)
    ensures
        flatten(tris).len() == 3 * tris.len(),
    decreases tris.len(),
{
    if tris.len() > 0 {
        lemma_flatten_len(tris.drop_last());
    }
}

proof fn lemma_flatten_index(tris: Seq<(usize, usize, usize)>, r: int)
    requires
        0 <= r < 3 * tris.len(),
    ensures
        flatten(tris)[r] == if r % 3 == 0 {
            tris[r / 3].0
        } else if r % 3 == 1 {
            tris[r / 3].1
        } else {
            tris[r / 3].2
        },
    decreases tris.len(),
{
    lemma_flatten_len(tris);
    lemma_flatten_len(tris.drop_last());
    if r < 3 * (tris.len() - 1) {
        lemma_flatten_index(tris.drop_last(), r);
        assert(tris.drop_last()[r / 3] == tris[r / 3]);
    }
}


/// Re-emitting keeps every chosen triangle: corner `j` of the extracted
/// geometry is a vertex whose position (and normal, uv and skinning, when the
/// source has them) is that of corner `j` of the chosen source triangles, and
/// no more vertices are emitted than corners referenced.
pub proof fn extract_preserves_triangles(src: GeometryView, tris: Seq<(usize, usize, usize)>)
    requires
        3 * tris.len() <= u32::MAX,
        forall|j: int| 0 <= j < flatten(tris).len() ==> (#[trigger] flatten(tris)[j] as nat) < src.positions.len(),
    ensures
        ({
            let e = spec_extract(src, tris);
            let flat = flatten(tris);
            &&& e.indices.len() == flat.len()
            &&& e.positions.len() <= flat.len()
            &&& forall|j: int|
                0 <= j < flat.len() ==> {
                    &&& (#[trigger] e.indices[j] as int) < e.positions.len()
                    &&& e.positions[e.indices[j] as int] == src.positions[flat[j] as int]
                    &&& src.normals.len() > 0 ==> e.normals[e.indices[j] as int] == src.normals[flat[j] as int]
                    &&& src.uvs.len() > 0 ==> e.uvs[e.indices[j] as int] == src.uvs[flat[j] as int]
                    &&& src.skinned ==> e.bone_idx[e.indices[j] as int] == src.bone_idx[flat[j] as int]
                    &&& src.skinned ==> e.bone_wt[e.indices[j] as int] == src.bone_wt[flat[j] as int]
                }
        }),
{
    let flat = flatten(tris);
    lemma_flatten_len(tris);
    lemma_remap_state(flat, flat.len());
}


// ---- dominant bone -----------------------------------------------------------

/// f32 bits of 1.0.
pub const F32_ONE: u32 = 0x3F80_0000;

/// f32 bits of 1.22 rad (about 70 degrees), the opening limit of every hinge.
pub const HINGE_MAX_ANGLE: u32 = 0x3F9C_28F6;

/// Vertex of skinning slot `s` (0..12): four slots per triangle corner.
pub open spec fn corner(a: usize, b: usize, c: usize, s: int) -> int {
    if s < 4 {
        a as int
    } else if s < 8 {
        b as int
    } else {
        c as int
    }
}

pub open spec fn slot_bone(g: GeometryView, a: usize, b: usize, c: usize, s: int) -> u16 {
    g.bone_idx[corner(a, b, c, s)][s % 4]
}

pub open spec fn slot_wt(g: GeometryView, a: usize, b: usize, c: usize, s: int) -> u8 {
    g.bone_wt[corner(a, b, c, s)][s % 4]
}

/// Summed weight of `bone` over the first `n` slots.
pub open spec fn weight_upto(g: GeometryView, a: usize, b: usize, c: usize, bone: u16, n: nat) -> nat
    decreases n,
{
    if n == 0 {
        0
    } else {
        weight_upto(g, a, b, c, bone, (n - 1) as nat) + if slot_bone(g, a, b, c, n - 1) == bone {
            slot_wt(g, a, b, c, n - 1) as nat
        } else {
            0
        }
    }
}

/// Summed skinning weight of `bone` over the triangle's three vertices.
pub open spec fn tri_weight(g: GeometryView, a: usize, b: usize, c: usize, bone: u16) -> nat {
    weight_upto(g, a, b, c, bone, 12)
}

/// Among the first `n` slots with a nonzero weight, the bone of the first
/// one whose summed triangle weight is greatest.
pub open spec fn best_upto(g: GeometryView, a: usize, b: usize, c: usize, n: nat) -> Option<u16>
    decreases n,
{
    if n == 0 {
        None
    } else {
        let prev = best_upto(g, a, b, c, (n - 1) as nat);
        let bone = slot_bone(g, a, b, c, n - 1);
        if slot_wt(g, a, b, c, n - 1) == 0 {
            prev
        } else {
            match prev {
                None => Some(bone),
                Some(p) => if tri_weight(g, a, b, c, bone) > tri_weight(g, a, b, c, p) {
                    Some(bone)
                } else {
                    prev
                },
            }
        }
    }
}

/// The bone a triangle is most weighted to (`None` for an unskinned geometry
/// or when all its weights are zero).
pub open spec fn dominant_bone(g: GeometryView, a: usize, b: usize, c: usize) -> Option<u16> {
    if !g.skinned || g.bone_idx.len() == 0 {
        None
    } else {
        best_upto(g, a, b, c, 12)
    }
}

// ---- articulated bones -------------------------------------------------------

/// Hinge axis of an articulated bone: doors swing about world-up (Z),
/// bonnet/hood/boot about the lateral axis (X); other bones do not articulate.
pub open spec fn hinge_axis(name: Seq<char>) -> Option<[u32; 3]> {
    if name.len() >= 5 && name.subrange(0, 5) == seq!['d', 'o', 'o', 'r', '_'] {
        Some([0u32, 0u32, F32_ONE])
    } else if name == seq!['b', 'o', 'n', 'n', 'e', 't'] || name == seq!['h', 'o', 'o', 'd'] || name
        == seq!['b', 'o', 'o', 't'] {
        Some([F32_ONE, 0u32, 0u32])
    } else {
        None
    }
}

// ---- grouping ------------------------------------------------------------------

/// The `t`-th whole triangle of a geometry.
pub open spec fn tri_at(g: GeometryView, t: int) -> (usize, usize, usize) {
    (g.indices[3 * t] as usize, g.indices[3 * t + 1] as usize, g.indices[3 * t + 2] as usize)
}

/// Name of skeleton bone `b` (empty when there is no such bone).
pub open spec fn bone_name(bones: Seq<Bone>, b: u16) -> Seq<char> {
    if (b as nat) < bones.len() {
        bones[b as int].name@
    } else {
        Seq::empty()
    }
}

/// The articulated part a triangle goes to, or `None` for the body.
pub open spec fn dest(g: GeometryView, bones: Seq<Bone>, t: int) -> Option<Seq<char>> {
    let (a, b, c) = tri_at(g, t);
    match dominant_bone(g, a, b, c) {
        None => None,
        Some(bone) => if hinge_axis(bone_name(bones, bone)) is Some {
            Some(bone_name(bones, bone))
        } else {
            None
        },
    }
}

/// The first `n` triangles of `g` whose destination is `d`, in order.
pub open spec fn tris_to(g: GeometryView, bones: Seq<Bone>, d: Option<Seq<char>>, n: nat) -> Seq<
    (usize, usize, usize),
>
    decreases n,
{
    if n == 0 {
        Seq::empty()
    } else {
        let p = tris_to(g, bones, d, (n - 1) as nat);
        if dest(g, bones, n - 1) == d {
            p.push(tri_at(g, n - 1))
        } else {
            p
        }
    }
}

pub open spec fn add_name(names: Seq<Seq<char>>, x: Seq<char>) -> Seq<Seq<char>> {
    if names.contains(x) {
        names
    } else {
        names.push(x)
    }
}

/// Distinct articulated destinations of the first `n` triangles, in order of
/// first appearance.
pub open spec fn names_in(g: GeometryView, bones: Seq<Bone>, n: nat) -> Seq<Seq<char>>
    decreases n,
{
    if n == 0 {
        Seq::empty()
    } else {
        match dest(g, bones, n - 1) {
            Some(x) => add_name(names_in(g, bones, (n - 1) as nat), x),
            None => names_in(g, bones, (n - 1) as nat),
        }
    }
}

pub open spec fn add_names(acc: Seq<Seq<char>>, names: Seq<Seq<char>>) -> Seq<Seq<char>>
    decreases names.len(),
{
    if names.len() == 0 {
        acc
    } else {
        add_name(add_names(acc, names.drop_last()), names.last())
    }
}

/// Distinct articulated part names over the first `m` geometries, in order of
/// first appearance.
pub open spec fn artic_names(gs: Seq<GeometryView>, bones: Seq<Bone>, m: nat) -> Seq<Seq<char>>
    decreases m,
{
    if m == 0 {
        Seq::empty()
    } else {
        add_names(
            artic_names(gs, bones, (m - 1) as nat),
            names_in(gs[m - 1], bones, tri_count(gs[m - 1])),
        )
    }
}

/// Geometries (one per source geometry that has any) re-emitted from the
/// triangles of the first `m` geometries whose destination is `d`.
pub open spec fn dest_geoms(gs: Seq<GeometryView>, bones: Seq<Bone>, d: Option<Seq<char>>, m: nat) -> Seq<
    GeometryView,
>
    decreases m,
{
    if m == 0 {
        Seq::empty()
    } else {
        let t = tris_to(gs[m - 1], bones, d, tri_count(gs[m - 1]));
        if t.len() > 0 {
            dest_geoms(gs, bones, d, (m - 1) as nat).push(spec_extract(gs[m - 1], t))
        } else {
            dest_geoms(gs, bones, d, (m - 1) as nat)
        }
    }
}

/// Index of the first bone named `name` among the first `n`, or -1.
pub open spec fn first_named(bones: Seq<Bone>, name: Seq<char>, n: nat) -> int
    decreases n,
{
    if n == 0 {
        -1
    } else {
        let f = first_named(bones, name, (n - 1) as nat);
        if f >= 0 {
            f
        } else if bones[n - 1].name@ == name {
            n - 1
        } else {
            -1
        }
    }
}

/// Hinge position: the world rest position of the first bone with that name
/// (the origin when there is none, or no world entry for it).
pub open spec fn hinge_pos(bones: Seq<Bone>, world: Seq<([u32; 3], [u32; 4])>, name: Seq<char>) -> [u32; 3] {
    let i = first_named(bones, name, bones.len());
    if 0 <= i < world.len() {
        world[i].0
    } else {
        [0u32, 0u32, 0u32]
    }
}

pub open spec fn axis_or_up(name: Seq<char>) -> [u32; 3] {
    match hinge_axis(name) {
        Some(a) => a,
        None => [0u32, 0u32, F32_ONE],
    }
}

pub open spec fn artic_hinge(bones: Seq<Bone>, world: Seq<([u32; 3], [u32; 4])>, name: Seq<char>) -> Hinge {
    Hinge {
        pos: hinge_pos(bones, world, name),
        axis: axis_or_up(name),
        min_angle: 0,
        max_angle: HINGE_MAX_ANGLE,
    }
}

/// The articulated part named `name` after the first `m` geometries.
pub open spec fn artic_part(
    gs: Seq<GeometryView>,
    bones: Seq<Bone>,
    world: Seq<([u32; 3], [u32; 4])>,
    name: Seq<char>,
    m: nat,
) -> PartView {
    PartView {
        name,
        articulated: true,
        hinge: Some(artic_hinge(bones, world, name)),
        geometries: dest_geoms(gs, bones, Some(name), m),
    }
}

pub open spec fn body_name() -> Seq<char> {
    seq!['b', 'o', 'd', 'y']
}

/// The parts: "body" first, then one articulated part per articulated bone
/// name, in order of first appearance.
pub open spec fn spec_group(gs: Seq<GeometryView>, bones: Seq<Bone>, world: Seq<([u32; 3], [u32; 4])>) -> Seq<
    PartView,
> {
    let names = artic_names(gs, bones, gs.len());
    seq![
        PartView {
            name: body_name(),
            articulated: false,
            hinge: None,
            geometries: dest_geoms(gs, bones, None, gs.len()),
        },
    ] + Seq::new(names.len(), |k: int| artic_part(gs, bones, world, names[k], gs.len()))
}

// ---- lemmas on the grouping specs --------------------------------------------

proof fn lemma_add_name_contains(ns: Seq<Seq<char>>, x: Seq<char>, y: Seq<char>)
    ensures
        add_name(ns, x).contains(y) <==> (ns.contains(y) || y == x),
{
    if !ns.contains(x) {
        if ns.push(x).contains(y) && y != x {
            let i = choose|i: int| 0 <= i < ns.push(x).len() && ns.push(x)[i] == y;
            assert(ns[i] == y);
        }
        if ns.contains(y) {
            let i = choose|i: int| 0 <= i < ns.len() && ns[i] == y;
            assert(ns.push(x)[i] == y);
        }
        if y == x {
            assert(ns.push(x)[ns.len() as int] == y);
        }
    }
}

proof fn lemma_add_name_distinct(ns: Seq<Seq<char>>, x: Seq<char>)
    requires
        ns.no_duplicates(),
    ensures
        add_name(ns, x).no_duplicates(),
{
    if !ns.contains(x) {
        let p = ns.push(x);
        assert forall|i: int, j: int| 0 <= i < p.len() && 0 <= j < p.len() && i != j implies p[i] != p[j] by {
            if i < ns.len() && j < ns.len() {
            } else if i == ns.len() {
                assert(p[j] == ns[j]);
            } else {
                assert(p[i] == ns[i]);
            }
        }
    }
}

proof fn lemma_add_names(acc: Seq<Seq<char>>, ns: Seq<Seq<char>>)
    requires
        acc.no_duplicates(),
    ensures
        add_names(acc, ns).no_duplicates(),
        forall|y: Seq<char>| add_names(acc, ns).contains(y) <==> (acc.contains(y) || ns.contains(y)),
        add_names(acc, ns).len() >= acc.len(),
        forall|i: int| 0 <= i < acc.len() ==> #[trigger] add_names(acc, ns)[i] == acc[i],
    decreases ns.len(),
{
    if ns.len() > 0 {
        let prev = add_names(acc, ns.drop_last());
        lemma_add_names(acc, ns.drop_last());
        lemma_add_name_distinct(prev, ns.last());
        assert forall|y: Seq<char>| add_names(acc, ns).contains(y) <==> (acc.contains(y) || ns.contains(y)) by {
            lemma_add_name_contains(prev, ns.last(), y);
            if ns.drop_last().contains(y) {
                let i = choose|i: int| 0 <= i < ns.drop_last().len() && ns.drop_last()[i] == y;
                assert(ns[i] == y);
            }
            if ns.contains(y) && y != ns.last() {
                let i = choose|i: int| 0 <= i < ns.len() && ns[i] == y;
                assert(i != ns.len() - 1);
                assert(ns.drop_last()[i] == y);
            }
            if y == ns.last() {
                assert(ns[ns.len() - 1] == y);
            }
        }
    }
}

proof fn lemma_names_in(g: GeometryView, bones: Seq<Bone>, n: nat)
    ensures
        names_in(g, bones, n).no_duplicates(),
        forall|x: Seq<char>|
            names_in(g, bones, n).contains(x) <==> #[trigger] tris_to(g, bones, Some(x), n).len() > 0,
    decreases n,
{
    if n > 0 {
        lemma_names_in(g, bones, (n - 1) as nat);
        let prev = names_in(g, bones, (n - 1) as nat);
        match dest(g, bones, n - 1) {
            Some(d) => {
                lemma_add_name_distinct(prev, d);
                assert forall|x: Seq<char>|
                    names_in(g, bones, n).contains(x) <==> #[trigger] tris_to(g, bones, Some(x), n).len() > 0 by {
                    lemma_add_name_contains(prev, d, x);
                    assert(tris_to(g, bones, Some(x), (n - 1) as nat).len() > 0 ==> tris_to(g, bones, Some(x), n).len() > 0);
                }
            },
            None => {
                assert forall|x: Seq<char>|
                    names_in(g, bones, n).contains(x) <==> #[trigger] tris_to(g, bones, Some(x), n).len() > 0 by {
                    assert(tris_to(g, bones, Some(x), n) == tris_to(g, bones, Some(x), (n - 1) as nat));
                }
            },
        }
    }
}

proof fn lemma_artic_names(gs: Seq<GeometryView>, bones: Seq<Bone>, m: nat)
    requires
        m <= gs.len(),
    ensures
        artic_names(gs, bones, m).no_duplicates(),
        forall|x: Seq<char>| !artic_names(gs, bones, m).contains(x) ==> #[trigger] dest_geoms(gs, bones, Some(x), m).len() == 0,
    decreases m,
{
    if m > 0 {
        lemma_artic_names(gs, bones, (m - 1) as nat);
        let g = gs[m - 1];
        lemma_names_in(g, bones, tri_count(g));
        lemma_add_names(artic_names(gs, bones, (m - 1) as nat), names_in(g, bones, tri_count(g)));
        assert forall|x: Seq<char>| !artic_names(gs, bones, m).contains(x) implies #[trigger] dest_geoms(gs, bones, Some(x), m).len() == 0 by {
            assert(!names_in(g, bones, tri_count(g)).contains(x));
            assert(tris_to(g, bones, Some(x), tri_count(g)).len() == 0);
            assert(!artic_names(gs, bones, (m - 1) as nat).contains(x));
            assert(dest_geoms(gs, bones, Some(x), (m - 1) as nat).len() == 0);
        }
    }
}

proof fn lemma_tris_to_bounds(g: GeometryView, bones: Seq<Bone>, d: Option<Seq<char>>, n: nat)
    requires
        n <= tri_count(g),
        geometry_wf(g),
    ensures
        tris_to(g, bones, d, n).len() <= n,
        forall|j: int|
            0 <= j < flatten(tris_to(g, bones, d, n)).len() ==> vertex_ok(
                g,
                #[trigger] flatten(tris_to(g, bones, d, n))[j] as nat,
            ),
    decreases n,
{
    if n > 0 {
        lemma_tris_to_bounds(g, bones, d, (n - 1) as nat);
        let p = tris_to(g, bones, d, (n - 1) as nat);
        if dest(g, bones, n - 1) == d {
            let q = p.push(tri_at(g, n - 1));
            assert(q.drop_last() =~= p);
            let t = n - 1;
            assert(3 * t + 2 < 3 * tri_count(g));
            assert(vertex_ok(g, g.indices[3 * t] as nat));
            assert(vertex_ok(g, g.indices[3 * t + 1] as nat));
            assert(vertex_ok(g, g.indices[3 * t + 2] as nat));
            assert forall|j: int| 0 <= j < flatten(q).len() implies vertex_ok(g, #[trigger] flatten(q)[j] as nat) by {
                if j < flatten(p).len() {
                    assert(flatten(q)[j] == flatten(p)[j]);
                }
            }
        }
    }
}

// ---- executable grouping -------------------------------------------------------

/// Hinge axis of an articulated bone name, or `None`.
pub fn articulated_hinge(name: &Vec<char>) -> (r: Option<[u32; 3]>)
    ensures
        r == hinge_axis(name@),
{
    let n = name.len();
    if n >= 5 && name[0] == 'd' && name[1] == 'o' && name[2] == 'o' && name[3] == 'r' && name[4] == '_' {
        assert(name@.subrange(0, 5) =~= seq!['d', 'o', 'o', 'r', '_']);
        return Some([0u32, 0u32, F32_ONE]);
    }
    assert(!(name@.len() >= 5 && name@.subrange(0, 5) == seq!['d', 'o', 'o', 'r', '_'])) by {
        if name@.len() >= 5 && name@.subrange(0, 5) == seq!['d', 'o', 'o', 'r', '_'] {
            assert(name@[0] == name@.subrange(0, 5)[0]);
            assert(name@[1] == name@.subrange(0, 5)[1]);
            assert(name@[2] == name@.subrange(0, 5)[2]);
            assert(name@[3] == name@.subrange(0, 5)[3]);
            assert(name@[4] == name@.subrange(0, 5)[4]);
        }
    }
    let bonnet = n == 6 && name[0] == 'b' && name[1] == 'o' && name[2] == 'n' && name[3] == 'n' && name[4] == 'e' && name[5] == 't';
    let hood = n == 4 && name[0] == 'h' && name[1] == 'o' && name[2] == 'o' && name[3] == 'd';
    let boot = n == 4 && name[0] == 'b' && name[1] == 'o' && name[2] == 'o' && name[3] == 't';
    assert(bonnet == (name@ == seq!['b', 'o', 'n', 'n', 'e', 't'])) by {
        if bonnet {
            assert(name@ =~= seq!['b', 'o', 'n', 'n', 'e', 't']);
        }
        if name@ == seq!['b', 'o', 'n', 'n', 'e', 't'] {
            assert(name@[5] == 't');
        }
    }
    assert(hood == (name@ == seq!['h', 'o', 'o', 'd'])) by {
        if hood {
            assert(name@ =~= seq!['h', 'o', 'o', 'd']);
        }
        if name@ == seq!['h', 'o', 'o', 'd'] {
            assert(name@[3] == 'd');
        }
    }
    assert(boot == (name@ == seq!['b', 'o', 'o', 't'])) by {
        if boot {
            assert(name@ =~= seq!['b', 'o', 'o', 't']);
        }
        if name@ == seq!['b', 'o', 'o', 't'] {
            assert(name@[3] == 't');
        }
    }
    if bonnet || hood || boot {
        Some([F32_ONE, 0u32, 0u32])
    } else {
        None
    }
}

/// Skinning bone and weight of slot `s` of triangle (a, b, c).
fn slot_of(g: &Geometry, a: usize, b: usize, c: usize, s: usize) -> (r: (u16, u8))
    requires
        s < 12,
        a < g.bone_idx@.len() && b < g.bone_idx@.len() && c < g.bone_idx@.len(),
        a < g.bone_wt@.len() && b < g.bone_wt@.len() && c < g.bone_wt@.len(),
    ensures
        r.0 == slot_bone(g@, a, b, c, s as int),
        r.1 == slot_wt(g@, a, b, c, s as int),
{
    let v = if s < 4 {
        a
    } else if s < 8 {
        b
    } else {
        c
    };
    (g.bone_idx[v][s % 4], g.bone_wt[v][s % 4])
}

fn weight_of(g: &Geometry, a: usize, b: usize, c: usize, bone: u16) -> (w: u32)
    requires
        a < g.bone_idx@.len() && b < g.bone_idx@.len() && c < g.bone_idx@.len(),
        a < g.bone_wt@.len() && b < g.bone_wt@.len() && c < g.bone_wt@.len(),
    ensures
        w as nat == tri_weight(g@, a, b, c, bone),
{
    let mut w: u32 = 0;
    let mut s: usize = 0;
    while s < 12
        invariant
            s <= 12,
            a < g.bone_idx@.len() && b < g.bone_idx@.len() && c < g.bone_idx@.len(),
            a < g.bone_wt@.len() && b < g.bone_wt@.len() && c < g.bone_wt@.len(),
            w as nat == weight_upto(g@, a, b, c, bone, s as nat),
            w <= 255 * s,
        decreases 12 - s,
    {
        let (sb, sw) = slot_of(g, a, b, c, s);
        if sb == bone {
            w = w + sw as u32;
        }
        s += 1;
    }
    w
}

/// Dominant bone (skeleton index) of a triangle: the bone with the greatest
/// summed weight across its three vertices. None for unskinned geometry.
fn triangle_bone(g: &Geometry, a: usize, b: usize, c: usize) -> (r: Option<u16>)
    requires
        vertex_ok(g@, a as nat),
        vertex_ok(g@, b as nat),
        vertex_ok(g@, c as nat),
    ensures
        r == dominant_bone(g@, a, b, c),
{
    if !g.skinned || g.bone_idx.len() == 0 {
        return None;
    }
    let mut best: Option<(u16, u32)> = None;
    let mut s: usize = 0;
    while s < 12
        invariant
            s <= 12,
            g@.skinned,
            a < g.bone_idx@.len() && b < g.bone_idx@.len() && c < g.bone_idx@.len(),
            a < g.bone_wt@.len() && b < g.bone_wt@.len() && c < g.bone_wt@.len(),
            match best {
                None => best_upto(g@, a, b, c, s as nat) is None,
                Some((p, pw)) => best_upto(g@, a, b, c, s as nat) == Some(p) && pw as nat == tri_weight(g@, a, b, c, p),
            },
        decreases 12 - s,
    {
        let (sb, sw) = slot_of(g, a, b, c, s);
        if sw != 0 {
            let w = weight_of(g, a, b, c, sb);
            match best {
                None => {
                    best = Some((sb, w));
                },
                Some((_p, pw)) => {
                    if w > pw {
                        best = Some((sb, w));
                    }
                },
            }
        }
        s += 1;
    }
    match best {
        None => None,
        Some((p, _)) => Some(p),
    }
}

pub open spec fn names_of(v: Seq<String>) -> Seq<Seq<char>> {
    v.map_values(|s: String| s@)
}

pub open spec fn part_names_of(v: Seq<Part>) -> Seq<Seq<char>> {
    v.map_values(|p: Part| p.name@)
}

/// Position of `x` among `names`, if present.
fn find_name(names: &Vec<String>, x: &String) -> (r: Option<usize>)
    ensures
        match r {
            Some(k) => k < names@.len() && names@[k as int]@ == x@,
            None => !names_of(names@).contains(x@),
        },
{
    let mut k: usize = 0;
    while k < names.len()
        invariant
            k <= names@.len(),
            forall|j: int| 0 <= j < k ==> names@[j]@ != x@,
        decreases names@.len() - k,
    {
        if names[k] == *x {
            return Some(k);
        }
        k += 1;
    }
    assert(!names_of(names@).contains(x@)) by {
        if names_of(names@).contains(x@) {
            let j = choose|j: int| 0 <= j < names_of(names@).len() && names_of(names@)[j] == x@;
            assert(names@[j]@ == x@);
        }
    }
    None
}

/// Position of the part named `x`, if present.
fn find_part(parts: &Vec<Part>, x: &String) -> (r: Option<usize>)
    ensures
        match r {
            Some(k) => k < parts@.len() && parts@[k as int].name@ == x@,
            None => !part_names_of(parts@).contains(x@),
        },
{
    let mut k: usize = 0;
    while k < parts.len()
        invariant
            k <= parts@.len(),
            forall|j: int| 0 <= j < k ==> parts@[j].name@ != x@,
        decreases parts@.len() - k,
    {
        if parts[k].name == *x {
            return Some(k);
        }
        k += 1;
    }
    assert(!part_names_of(parts@).contains(x@)) by {
        if part_names_of(parts@).contains(x@) {
            let j = choose|j: int| 0 <= j < part_names_of(parts@).len() && part_names_of(parts@)[j] == x@;
            assert(parts@[j].name@ == x@);
        }
    }
    None
}

/// The hinge of the articulated part `name`.
fn hinge_for(bones: &[Bone], world: &[([u32; 3], [u32; 4])], name: &String) -> (h: Hinge)
    ensures
        h == artic_hinge(bones@, world@, name@),
{
    let mut i: usize = 0;
    let mut found: Option<usize> = None;
    while i < bones.len()
        invariant
            i <= bones@.len(),
            found is None ==> first_named(bones@, name@, i as nat) == -1,
            found matches Some(f) ==> first_named(bones@, name@, i as nat) == f,
        decreases bones@.len() - i,
    {
        if found.is_none() && bones[i].name == *name {
            found = Some(i);
        }
        i += 1;
    }
    let pos = match found {
        Some(f) => if f < world.len() {
            world[f].0
        } else {
            [0u32, 0u32, 0u32]
        },
        None => [0u32, 0u32, 0u32],
    };
    let chars = crate::text::chars_of(name.as_str());
    let axis = match articulated_hinge(&chars) {
        Some(a) => a,
        None => [0u32, 0u32, F32_ONE],
    };
    Hinge { pos, axis, min_angle: 0, max_angle: HINGE_MAX_ANGLE }
}

/// Split a geometry's whole triangles by destination: body triangles, the
/// articulated destinations in order of first appearance, and each one's
/// triangles.
fn split_geometry(g: &Geometry, bones: &[Bone], bone_axes: &Vec<Option<[u32; 3]>>) -> (res: (
    Vec<(usize, usize, usize)>,
    Vec<String>,
    Vec<Vec<(usize, usize, usize)>>,
))
    requires
        geometry_wf(g@),
        bone_axes@.len() == bones@.len(),
        forall|i: int| 0 <= i < bones@.len() ==> bone_axes@[i] == hinge_axis(#[trigger] bones@[i].name@),
    ensures
        res.0@ == tris_to(g@, bones@, None, tri_count(g@)),
        names_of(res.1@) == names_in(g@, bones@, tri_count(g@)),
        res.2@.len() == res.1@.len(),
        forall|k: int|
            0 <= k < res.2@.len() ==> (#[trigger] res.2@[k])@ == tris_to(g@, bones@, Some(res.1@[k]@), tri_count(g@)),
{
    let count = g.indices.len() / 3;
    let mut body_tris: Vec<(usize, usize, usize)> = Vec::new();
    let mut pnames: Vec<String> = Vec::new();
    let mut ptris: Vec<Vec<(usize, usize, usize)>> = Vec::new();
    let mut t: usize = 0;
    while t < count
        invariant
            t <= count,
            count == tri_count(g@),
            geometry_wf(g@),
            bone_axes@.len() == bones@.len(),
            forall|i: int| 0 <= i < bones@.len() ==> bone_axes@[i] == hinge_axis(#[trigger] bones@[i].name@),
            body_tris@ == tris_to(g@, bones@, None, t as nat),
            names_of(pnames@) == names_in(g@, bones@, t as nat),
            ptris@.len() == pnames@.len(),
            forall|k: int|
                0 <= k < ptris@.len() ==> (#[trigger] ptris@[k])@ == tris_to(g@, bones@, Some(pnames@[k]@), t as nat),
        decreases count - t,
    {
        proof {
            lemma_names_in(g@, bones@, t as nat);
            assert(3 * t + 2 < 3 * tri_count(g@));
        }
        let a = g.indices[3 * t] as usize;
        let b = g.indices[3 * t + 1] as usize;
        let c = g.indices[3 * t + 2] as usize;
        let tri = (a, b, c);
        assert(tri == tri_at(g@, t as int));
        let bone = triangle_bone(g, a, b, c);
        let d: Option<usize> = match bone {
            None => None,
            Some(bn) => if (bn as usize) < bones.len() && bone_axes[bn as usize].is_some() {
                Some(bn as usize)
            } else {
                None
            },
        };
        proof {
            match bone {
                None => {},
                Some(bn) => {
                    if (bn as nat) >= bones@.len() {
                        assert(bone_name(bones@, bn) =~= Seq::<char>::empty());
                    }
                },
            }
        }
        let ghost pn = names_of(pnames@);
        match d {
            None => {
                assert(dest(g@, bones@, t as int) is None);
                body_tris.push(tri);
                proof {
                    assert forall|k: int|
                        0 <= k < ptris@.len() implies (#[trigger] ptris@[k])@ == tris_to(g@, bones@, Some(pnames@[k]@), (t + 1) as nat) by {
                        assert(names_of(pnames@)[k] == pnames@[k]@);
                    }
                }
            },
            Some(bi) => {
                let name = &bones[bi].name;
                assert(dest(g@, bones@, t as int) == Some(name@));
                match find_name(&pnames, name) {
                    Some(k0) => {
                        let mut v = ptris.remove(k0);
                        v.push(tri);
                        ptris.insert(k0, v);
                        proof {
                            assert(names_of(pnames@)[k0 as int] == name@);
                            assert(names_of(pnames@).contains(name@));
                            assert forall|k: int|
                                0 <= k < ptris@.len() implies (#[trigger] ptris@[k])@ == tris_to(g@, bones@, Some(pnames@[k]@), (t + 1) as nat) by {
                                assert(names_of(pnames@)[k] == pnames@[k]@);
                                if k != k0 {
                                    assert(pn[k] != pn[k0 as int]);
                                }
                            }
                        }
                    },
                    None => {
                        proof {
                            assert(tris_to(g@, bones@, Some(name@), t as nat).len() == 0);
                        }
                        pnames.push(name.clone());
                        let mut v: Vec<(usize, usize, usize)> = Vec::new();
                        v.push(tri);
                        ptris.push(v);
                        proof {
                            assert(names_of(pnames@) =~= pn.push(name@));
                            assert forall|k: int|
                                0 <= k < ptris@.len() implies (#[trigger] ptris@[k])@ == tris_to(g@, bones@, Some(pnames@[k]@), (t + 1) as nat) by {
                                if k < pn.len() {
                                    assert(names_of(pnames@)[k] == pnames@[k]@);
                                    assert(pn[k] == pnames@[k]@);
                                    assert(pn.contains(pn[k]));
                                    assert(pnames@[k]@ != name@);
                                } else {
                                    assert(ptris@[k]@ =~= tris_to(g@, bones@, Some(name@), t as nat).push(tri));
                                }
                            }
                        }
                    },
                }
            },
        }
        t += 1;
    }
    (body_tris, pnames, ptris)
}

pub open spec fn part_views(ps: Seq<Part>) -> Seq<PartView> {
    ps.map_values(|p: Part| p@)
}

/// An articulated part after merging the first `k` destinations of the
/// current geometry `g` (index `gi`).
pub open spec fn merging_part(
    gs: Seq<GeometryView>,
    bones: Seq<Bone>,
    world: Seq<([u32; 3], [u32; 4])>,
    name: Seq<char>,
    gi: nat,
    done: Seq<Seq<char>>,
) -> PartView {
    let g = gs[gi as int];
    PartView {
        name,
        articulated: true,
        hinge: Some(artic_hinge(bones, world, name)),
        geometries: if done.contains(name) {
            dest_geoms(gs, bones, Some(name), gi).push(
                spec_extract(g, tris_to(g, bones, Some(name), tri_count(g))),
            )
        } else {
            dest_geoms(gs, bones, Some(name), gi)
        },
    }
}

/// Group decoded geometry into rigid parts by dominant bone. `world` holds
/// each bone's world rest position (and rotation), as f32 bits.
pub fn group(mesh: &Mesh, bones: &[Bone], world: &[([u32; 3], [u32; 4])]) -> (parts: Vec<Part>)
    requires
        forall|i: int| 0 <= i < mesh.geometries@.len() ==> geometry_wf(#[trigger] mesh.geometries@[i]@),
    ensures
        part_views(parts@) == spec_group(views(mesh.geometries@), bones@, world@),
{
    let ghost gs = views(mesh.geometries@);
    let mut bone_axes: Vec<Option<[u32; 3]>> = Vec::new();
    let mut i: usize = 0;
    while i < bones.len()
        invariant
            i <= bones@.len(),
            bone_axes@.len() == i,
            forall|j: int| 0 <= j < i ==> bone_axes@[j] == hinge_axis(#[trigger] bones@[j].name@),
        decreases bones@.len() - i,
    {
        let chars = crate::text::chars_of(bones[i].name.as_str());
        bone_axes.push(articulated_hinge(&chars));
        i += 1;
    }
    let mut body: Vec<Geometry> = Vec::new();
    let mut artic: Vec<Part> = Vec::new();
    let mut gi: usize = 0;
    while gi < mesh.geometries.len()
        invariant
            gi <= mesh.geometries@.len(),
            gs == views(mesh.geometries@),
            forall|i: int| 0 <= i < mesh.geometries@.len() ==> geometry_wf(#[trigger] mesh.geometries@[i]@),
            bone_axes@.len() == bones@.len(),
            forall|j: int| 0 <= j < bones@.len() ==> bone_axes@[j] == hinge_axis(#[trigger] bones@[j].name@),
            views(body@) == dest_geoms(gs, bones@, None, gi as nat),
            part_names_of(artic@) == artic_names(gs, bones@, gi as nat),
            forall|j: int|
                0 <= j < artic@.len() ==> (#[trigger] artic@[j])@ == artic_part(gs, bones@, world@, artic@[j].name@, gi as nat),
        decreases mesh.geometries@.len() - gi,
    {
        let g = &mesh.geometries[gi];
        assert(gs[gi as int] == g@);
        let ghost count = tri_count(g@);
        let (body_tris, pnames, ptris) = split_geometry(g, bones, &bone_axes);
        proof {
            lemma_tris_to_bounds(g@, bones@, None, count);
            lemma_names_in(g@, bones@, count);
            lemma_artic_names(gs, bones@, gi as nat);
        }
        if body_tris.len() > 0 {
            let e = extract(g, &body_tris);
            body.push(e);
            assert(views(body@) =~= dest_geoms(gs, bones@, None, (gi + 1) as nat));
        } else {
            assert(views(body@) =~= dest_geoms(gs, bones@, None, (gi + 1) as nat));
        }
        let ghost a0 = artic_names(gs, bones@, gi as nat);
        let ghost nn = names_of(pnames@);
        let mut k: usize = 0;
        while k < pnames.len()
            invariant
                k <= pnames@.len(),
                gi < mesh.geometries@.len(),
                gs == views(mesh.geometries@),
                g@ == gs[gi as int],
                geometry_wf(g@),
                count == tri_count(g@),
                nn == names_of(pnames@),
                nn == names_in(g@, bones@, count),
                nn.no_duplicates(),
                a0 == artic_names(gs, bones@, gi as nat),
                a0.no_duplicates(),
                forall|x: Seq<char>| !a0.contains(x) ==> #[trigger] dest_geoms(gs, bones@, Some(x), gi as nat).len() == 0,
                forall|x: Seq<char>| nn.contains(x) <==> #[trigger] tris_to(g@, bones@, Some(x), count).len() > 0,
                ptris@.len() == pnames@.len(),
                forall|q: int| 0 <= q < ptris@.len() ==> (#[trigger] ptris@[q])@ == tris_to(g@, bones@, Some(pnames@[q]@), count),
                part_names_of(artic@) == add_names(a0, nn.take(k as int)),
                forall|j: int|
                    0 <= j < artic@.len() ==> (#[trigger] artic@[j])@ == merging_part(gs, bones@, world@, artic@[j].name@, gi as nat, nn.take(k as int)),
            decreases pnames@.len() - k,
        {
            let name = &pnames[k];
            assert(nn[k as int] == name@);
            let ghost done = nn.take(k as int);
            let ghost done1 = nn.take(k + 1);
            assert(done1.drop_last() =~= done);
            assert(done1.last() == name@);
            proof {
                lemma_add_names(a0, done);
                lemma_tris_to_bounds(g@, bones@, Some(name@), count);
                assert(!done.contains(name@)) by {
                    if done.contains(name@) {
                        let q = choose|q: int| 0 <= q < done.len() && done[q] == name@;
                        assert(nn[q] == nn[k as int]);
                    }
                }
            }
            let e = extract(g, &ptris[k]);
            match find_part(&artic, name) {
                Some(j0) => {
                    let ghost before = artic@;
                    let mut p = artic.remove(j0);
                    p.geometries.push(e);
                    artic.insert(j0, p);
                    proof {
                        assert(part_names_of(before)[j0 as int] == name@);
                        assert(part_names_of(before).contains(name@));
                        assert(part_names_of(artic@) =~= part_names_of(before));
                        assert forall|j: int|
                            0 <= j < artic@.len() implies (#[trigger] artic@[j])@ == merging_part(gs, bones@, world@, artic@[j].name@, gi as nat, done1) by {
                            if j == j0 {
                                assert(done1.contains(name@)) by {
                                    assert(done1[k as int] == name@);
                                }
                                assert(views(artic@[j].geometries@) =~= views(before[j].geometries@).push(e@));
                            } else {
                                assert(artic@[j] == before[j]);
                                let x = before[j].name@;
                                assert(part_names_of(before)[j] == x);
                                lemma_add_names(a0, done);
                                assert(x != name@);
                                assert(done1.contains(x) <==> done.contains(x)) by {
                                    if done1.contains(x) {
                                        let q = choose|q: int| 0 <= q < done1.len() && done1[q] == x;
                                        assert(q < k);
                                        assert(done[q] == x);
                                    }
                                    if done.contains(x) {
                                        let q = choose|q: int| 0 <= q < done.len() && done[q] == x;
                                        assert(done1[q] == x);
                                    }
                                }
                            }
                        }
                    }
                },
                None => {
                    let h = hinge_for(bones, world, name);
                    let mut geoms: Vec<Geometry> = Vec::new();
                    geoms.push(e);
                    let ghost before = artic@;
                    artic.push(Part { name: name.clone(), articulated: true, hinge: Some(h), geometries: geoms });
                    proof {
                        assert(!a0.contains(name@));
                        assert(part_names_of(artic@) =~= part_names_of(before).push(name@));
                        assert forall|j: int|
                            0 <= j < artic@.len() implies (#[trigger] artic@[j])@ == merging_part(gs, bones@, world@, artic@[j].name@, gi as nat, done1) by {
                            if j < before.len() {
                                assert(artic@[j] == before[j]);
                                let x = before[j].name@;
                                assert(part_names_of(before)[j] == x);
                                assert(part_names_of(before).contains(x));
                                assert(x != name@);
                                assert(done1.contains(x) <==> done.contains(x)) by {
                                    if done1.contains(x) {
                                        let q = choose|q: int| 0 <= q < done1.len() && done1[q] == x;
                                        assert(q < k);
                                        assert(done[q] == x);
                                    }
                                    if done.contains(x) {
                                        let q = choose|q: int| 0 <= q < done.len() && done[q] == x;
                                        assert(done1[q] == x);
                                    }
                                }
                            } else {
                                assert(done1.contains(name@)) by {
                                    assert(done1[k as int] == name@);
                                }
                                assert(dest_geoms(gs, bones@, Some(name@), gi as nat).len() == 0);
                                assert(views(artic@[j].geometries@) =~= dest_geoms(gs, bones@, Some(name@), gi as nat).push(e@));
                            }
                        }
                    }
                },
            }
            k += 1;
        }
        proof {
            assert(nn.take(nn.len() as int) =~= nn);
            assert forall|j: int|
                0 <= j < artic@.len() implies (#[trigger] artic@[j])@ == artic_part(gs, bones@, world@, artic@[j].name@, (gi + 1) as nat) by {
                let x = artic@[j].name@;
                assert(nn.contains(x) <==> tris_to(g@, bones@, Some(x), count).len() > 0);
            }
        }
        gi += 1;
    }
    let mut parts: Vec<Part> = Vec::new();
    let body_name_s = "body".to_string();
    proof {
        broadcast use vstd::string::to_string_from_display_ensures_for_str;
        reveal_strlit("body");
        assert(body_name_s@ =~= body_name());
    }
    parts.push(Part { name: body_name_s, articulated: false, hinge: None, geometries: body });
    let ghost names = artic_names(gs, bones@, gs.len());
    let ghost arts = artic@;
    parts.append(&mut artic);
    proof {
        assert(views(mesh.geometries@).len() == mesh.geometries@.len());
        assert forall|q: int| 0 <= q < parts@.len() implies #[trigger] part_views(parts@)[q] == spec_group(gs, bones@, world@)[q] by {
            if q > 0 {
                assert(parts@[q] == arts[q - 1]);
                assert(part_names_of(arts)[q - 1] == names[q - 1]);
            }
        }
        assert(part_views(parts@) =~= spec_group(gs, bones@, world@));
    }
    parts
}

// ---- the dominant bone is the heaviest -------------------------------------------

proof fn lemma_weight_slots(g: GeometryView, a: usize, b: usize, c: usize, q: u16, n: nat)
    ensures
        forall|s: int| 0 <= s < n && slot_bone(g, a, b, c, s) == q ==> #[trigger] slot_wt(g, a, b, c, s) <= weight_upto(g, a, b, c, q, n),
        weight_upto(g, a, b, c, q, n) > 0 ==> exists|s: int| 0 <= s < n && slot_bone(g, a, b, c, s) == q && #[trigger] slot_wt(g, a, b, c, s) > 0,
    decreases n,
{
    if n > 0 {
        lemma_weight_slots(g, a, b, c, q, (n - 1) as nat);
        if weight_upto(g, a, b, c, q, n) > 0 && weight_upto(g, a, b, c, q, (n - 1) as nat) == 0 {
            assert(slot_bone(g, a, b, c, n - 1) == q && slot_wt(g, a, b, c, n - 1) > 0);
        }
    }
}

proof fn lemma_best_upto(g: GeometryView, a: usize, b: usize, c: usize, n: nat)
    ensures
        best_upto(g, a, b, c, n) is None ==> forall|s: int| 0 <= s < n ==> #[trigger] slot_wt(g, a, b, c, s) == 0,
        best_upto(g, a, b, c, n) matches Some(p) ==> forall|s: int|
            0 <= s < n && #[trigger] slot_wt(g, a, b, c, s) != 0 ==> tri_weight(g, a, b, c, slot_bone(g, a, b, c, s))
                <= tri_weight(g, a, b, c, p),
        best_upto(g, a, b, c, n) matches Some(p) ==> exists|s: int|
            0 <= s < n && slot_bone(g, a, b, c, s) == p && #[trigger] slot_wt(g, a, b, c, s) != 0,
    decreases n,
{
    if n > 0 {
        lemma_best_upto(g, a, b, c, (n - 1) as nat);
    }
}

/// The bone a triangle is assigned to carries the greatest summed skinning
/// weight over the triangle's three vertices, and a nonzero one; a skinned
/// triangle is left unassigned only when all its weights are zero.
pub proof fn dominant_bone_is_heaviest(g: GeometryView, a: usize, b: usize, c: usize)
    ensures
        dominant_bone(g, a, b, c) matches Some(p) ==> tri_weight(g, a, b, c, p) > 0 && forall|q: u16|
            tri_weight(g, a, b, c, q) <= #[trigger] tri_weight(g, a, b, c, p),
        (g.skinned && g.bone_idx.len() > 0 && dominant_bone(g, a, b, c) is None) ==> forall|q: u16|
            #[trigger] tri_weight(g, a, b, c, q) == 0,
{
    if g.skinned && g.bone_idx.len() > 0 {
        lemma_best_upto(g, a, b, c, 12);
        match best_upto(g, a, b, c, 12) {
            Some(p) => {
                let s = choose|s: int| 0 <= s < 12 && slot_bone(g, a, b, c, s) == p && #[trigger] slot_wt(g, a, b, c, s) != 0;
                lemma_weight_slots(g, a, b, c, p, 12);
                assert(slot_wt(g, a, b, c, s) <= tri_weight(g, a, b, c, p));
                assert forall|q: u16| tri_weight(g, a, b, c, q) <= #[trigger] tri_weight(g, a, b, c, p) by {
                    lemma_weight_slots(g, a, b, c, q, 12);
                    if tri_weight(g, a, b, c, q) > 0 {
                        let t = choose|t: int| 0 <= t < 12 && slot_bone(g, a, b, c, t) == q && #[trigger] slot_wt(g, a, b, c, t) > 0;
                        assert(slot_wt(g, a, b, c, t) != 0);
                    }
                }
            },
            None => {
                assert forall|q: u16| #[trigger] tri_weight(g, a, b, c, q) == 0 by {
                    lemma_weight_slots(g, a, b, c, q, 12);
                    if tri_weight(g, a, b, c, q) > 0 {
                        let t = choose|t: int| 0 <= t < 12 && slot_bone(g, a, b, c, t) == q && #[trigger] slot_wt(g, a, b, c, t) > 0;
                        assert(slot_wt(g, a, b, c, t) == 0);
                    }
                }
            },
        }
    }
}

// ---- every triangle goes to exactly one part --------------------------------------

/// How many of the first `n` triangles go to each of the parts `names`, summed.
pub open spec fn named_total(g: GeometryView, bones: Seq<Bone>, names: Seq<Seq<char>>, n: nat) -> nat
    decreases names.len(),
{
    if names.len() == 0 {
        0
    } else {
        named_total(g, bones, names.drop_last(), n) + tris_to(g, bones, Some(names.last()), n).len()
    }
}

proof fn lemma_named_step(g: GeometryView, bones: Seq<Bone>, names: Seq<Seq<char>>, n: nat)
    requires
        n > 0,
        names.no_duplicates(),
    ensures
        named_total(g, bones, names, n) == named_total(g, bones, names, (n - 1) as nat) + match dest(
            g,
            bones,
            n - 1,
        ) {
            Some(x) => if names.contains(x) {
                1nat
            } else {
                0nat
            },
            None => 0nat,
        },
    decreases names.len(),
{
    if names.len() > 0 {
        let init = names.drop_last();
        assert(init.no_duplicates()) by {
            assert forall|i: int, j: int| 0 <= i < init.len() && 0 <= j < init.len() && i != j implies init[i]
                != init[j] by {
                assert(init[i] == names[i] && init[j] == names[j]);
            }
        }
        lemma_named_step(g, bones, init, n);
        if let Some(x) = dest(g, bones, n - 1) {
            if init.contains(x) {
                let i = choose|i: int| 0 <= i < init.len() && init[i] == x;
                assert(names[i] == x);
                assert(names.last() != x) by {
                    assert(names[names.len() - 1] == names.last());
                }
            }
            if x == names.last() {
                assert(names[names.len() - 1] == x);
                assert(!init.contains(x)) by {
                    if init.contains(x) {
                        let i = choose|i: int| 0 <= i < init.len() && init[i] == x;
                        assert(names[i] == x);
                    }
                }
            }
            if names.contains(x) && x != names.last() {
                let i = choose|i: int| 0 <= i < names.len() && names[i] == x;
                assert(i != names.len() - 1);
                assert(init[i] == x);
            }
        }
    }
}

proof fn lemma_tris_to_absent(g: GeometryView, bones: Seq<Bone>, x: Seq<char>, n: nat)
    requires
        !names_in(g, bones, n).contains(x),
    ensures
        tris_to(g, bones, Some(x), n).len() == 0,
{
    lemma_names_in(g, bones, n);
}

proof fn lemma_partition_upto(g: GeometryView, bones: Seq<Bone>, n: nat)
    ensures
        tris_to(g, bones, None, n).len() + named_total(g, bones, names_in(g, bones, n), n) == n,
    decreases n,
{
    if n > 0 {
        let k = (n - 1) as nat;
        lemma_partition_upto(g, bones, k);
        let prev = names_in(g, bones, k);
        lemma_names_in(g, bones, k);
        lemma_names_in(g, bones, n);
        match dest(g, bones, k as int) {
            None => {
                lemma_named_step(g, bones, prev, n);
            },
            Some(x) => {
                if prev.contains(x) {
                    lemma_named_step(g, bones, prev, n);
                } else {
                    let cur = prev.push(x);
                    assert(cur.drop_last() =~= prev);
                    lemma_named_step(g, bones, prev, n);
                    lemma_tris_to_absent(g, bones, x, k);
                    assert(tris_to(g, bones, Some(x), n).len() == 1);
                }
            },
        }
    }
}

/// Every whole triangle of a geometry goes to exactly one part: the body's
/// share and the shares of the articulated parts it feeds add up to all of
/// its triangles.
pub proof fn triangles_partitioned(g: GeometryView, bones: Seq<Bone>)
    ensures
        names_in(g, bones, tri_count(g)).no_duplicates(),
        tris_to(g, bones, None, tri_count(g)).len() + named_total(
            g,
            bones,
            names_in(g, bones, tri_count(g)),
            tri_count(g),
        ) == tri_count(g),
{
    lemma_names_in(g, bones, tri_count(g));
    lemma_partition_upto(g, bones, tri_count(g));
}

// ---- no triangle is lost or doubled by the grouping ------------------------------

/// Whole triangles over a list of geometries.
pub open spec fn geoms_tris(es: Seq<GeometryView>) -> nat
    decreases es.len(),
{
    if es.len() == 0 {
        0
    } else {
        geoms_tris(es.drop_last()) + tri_count(es.last())
    }
}

/// Whole triangles over all the geometries of a list of parts.
pub open spec fn parts_tris(ps: Seq<PartView>) -> nat
    decreases ps.len(),
{
    if ps.len() == 0 {
        0
    } else {
        parts_tris(ps.drop_last()) + geoms_tris(ps.last().geometries)
    }
}

/// Triangles of the first `m` geometries that go to `d`.
spec fn col(gs: Seq<GeometryView>, bones: Seq<Bone>, d: Option<Seq<char>>, m: nat) -> nat
    decreases m,
{
    if m == 0 {
        0
    } else {
        col(gs, bones, d, (m - 1) as nat) + tris_to(gs[m - 1], bones, d, tri_count(gs[m - 1])).len()
    }
}

/// `col` summed over the parts `names`.
spec fn cols(gs: Seq<GeometryView>, bones: Seq<Bone>, names: Seq<Seq<char>>, m: nat) -> nat
    decreases names.len(),
{
    if names.len() == 0 {
        0
    } else {
        cols(gs, bones, names.drop_last(), m) + col(gs, bones, Some(names.last()), m)
    }
}

/// `named_total` summed over the first `m` geometries.
spec fn row(gs: Seq<GeometryView>, bones: Seq<Bone>, names: Seq<Seq<char>>, m: nat) -> nat
    decreases m,
{
    if m == 0 {
        0
    } else {
        row(gs, bones, names, (m - 1) as nat) + named_total(gs[m - 1], bones, names, tri_count(gs[m - 1]))
    }
}

proof fn lemma_extract_tris(g: GeometryView, bones: Seq<Bone>, d: Option<Seq<char>>)
    requires
        geometry_wf(g),
    ensures
        tri_count(spec_extract(g, tris_to(g, bones, d, tri_count(g)))) == tris_to(g, bones, d, tri_count(g)).len(),
{
    let t = tris_to(g, bones, d, tri_count(g));
    lemma_tris_to_bounds(g, bones, d, tri_count(g));
    lemma_flatten_len(t);
    assert(3 * t.len() <= u32::MAX);
    extract_preserves_triangles(g, t);
    assert(spec_extract(g, t).indices.len() == 3 * t.len());
}

proof fn lemma_dest_geoms_tris(gs: Seq<GeometryView>, bones: Seq<Bone>, d: Option<Seq<char>>, m: nat)
    requires
        m <= gs.len(),
        forall|i: int| 0 <= i < gs.len() ==> geometry_wf(#[trigger] gs[i]),
    ensures
        geoms_tris(dest_geoms(gs, bones, d, m)) == col(gs, bones, d, m),
    decreases m,
{
    if m > 0 {
        lemma_dest_geoms_tris(gs, bones, d, (m - 1) as nat);
        let g = gs[m - 1];
        let t = tris_to(g, bones, d, tri_count(g));
        if t.len() > 0 {
            lemma_extract_tris(g, bones, d);
            let prev = dest_geoms(gs, bones, d, (m - 1) as nat);
            assert(prev.push(spec_extract(g, t)).drop_last() =~= prev);
        }
    }
}

proof fn lemma_named_total_zero(g: GeometryView, bones: Seq<Bone>, names: Seq<Seq<char>>)
    ensures
        named_total(g, bones, names, 0) == 0,
    decreases names.len(),
{
    if names.len() > 0 {
        lemma_named_total_zero(g, bones, names.drop_last());
    }
}

proof fn lemma_partition_cover(g: GeometryView, bones: Seq<Bone>, names: Seq<Seq<char>>, n: nat)
    requires
        names.no_duplicates(),
        forall|t: int| 0 <= t < n ==> (#[trigger] dest(g, bones, t) matches Some(x) ==> names.contains(x)),
    ensures
        tris_to(g, bones, None, n).len() + named_total(g, bones, names, n) == n,
    decreases n,
{
    if n == 0 {
        lemma_named_total_zero(g, bones, names);
    } else {
        let k = (n - 1) as nat;
        lemma_partition_cover(g, bones, names, k);
        lemma_named_step(g, bones, names, n);
        assert(dest(g, bones, n - 1) matches Some(x) ==> names.contains(x));
        match dest(g, bones, k as int) {
            None => {
                assert(tris_to(g, bones, None, n).len() == tris_to(g, bones, None, k).len() + 1);
            },
            Some(x) => {
                assert(names.contains(x));
                assert(tris_to(g, bones, None, n) == tris_to(g, bones, None, k));
            },
        }
    }
}

proof fn lemma_row_empty(gs: Seq<GeometryView>, bones: Seq<Bone>, m: nat)
    ensures
        row(gs, bones, Seq::empty(), m) == 0,
    decreases m,
{
    if m > 0 {
        lemma_row_empty(gs, bones, (m - 1) as nat);
    }
}

proof fn lemma_row_split(gs: Seq<GeometryView>, bones: Seq<Bone>, names: Seq<Seq<char>>, m: nat)
    requires
        names.len() > 0,
    ensures
        row(gs, bones, names, m) == row(gs, bones, names.drop_last(), m) + col(gs, bones, Some(names.last()), m),
    decreases m,
{
    if m > 0 {
        lemma_row_split(gs, bones, names, (m - 1) as nat);
    }
}

proof fn lemma_cols_row(gs: Seq<GeometryView>, bones: Seq<Bone>, names: Seq<Seq<char>>, m: nat)
    ensures
        cols(gs, bones, names, m) == row(gs, bones, names, m),
    decreases names.len(),
{
    if names.len() == 0 {
        lemma_row_empty(gs, bones, m);
        assert(names =~= Seq::<Seq<char>>::empty());
    } else {
        lemma_cols_row(gs, bones, names.drop_last(), m);
        lemma_row_split(gs, bones, names, m);
    }
}

proof fn lemma_total(gs: Seq<GeometryView>, bones: Seq<Bone>, names: Seq<Seq<char>>, m: nat)
    requires
        m <= gs.len(),
        names.no_duplicates(),
        forall|i: int, t: int|
            0 <= i < m && 0 <= t < tri_count(gs[i]) ==> (#[trigger] dest(gs[i], bones, t) matches Some(x)
                ==> names.contains(x)),
    ensures
        col(gs, bones, None, m) + row(gs, bones, names, m) == geoms_tris(gs.take(m as int)),
    decreases m,
{
    if m > 0 {
        lemma_total(gs, bones, names, (m - 1) as nat);
        let g = gs[m - 1];
        assert forall|t: int| 0 <= t < tri_count(g) implies (#[trigger] dest(g, bones, t) matches Some(x)
            ==> names.contains(x)) by {
            assert(dest(gs[m - 1], bones, t) matches Some(x) ==> names.contains(x));
        }
        lemma_partition_cover(g, bones, names, tri_count(g));
        assert(gs.take(m as int).drop_last() =~= gs.take(m - 1));
    }
}

proof fn lemma_parts_cons(b: PartView, rest: Seq<PartView>)
    ensures
        parts_tris(seq![b] + rest) == geoms_tris(b.geometries) + parts_tris(rest),
    decreases rest.len(),
{
    let s = seq![b] + rest;
    if rest.len() == 0 {
        assert(s =~= seq![b]);
        assert(s.drop_last() =~= Seq::<PartView>::empty());
        assert(s.last() == b);
        assert(parts_tris(Seq::<PartView>::empty()) == 0);
    } else {
        lemma_parts_cons(b, rest.drop_last());
        assert(s.drop_last() =~= seq![b] + rest.drop_last());
        assert(s.last() == rest.last());
    }
}

proof fn lemma_artic_parts_tris(
    gs: Seq<GeometryView>,
    bones: Seq<Bone>,
    world: Seq<([u32; 3], [u32; 4])>,
    names: Seq<Seq<char>>,
    k: nat,
)
    requires
        k <= names.len(),
        forall|i: int| 0 <= i < gs.len() ==> geometry_wf(#[trigger] gs[i]),
    ensures
        parts_tris(Seq::new(k, |j: int| artic_part(gs, bones, world, names[j], gs.len()))) == cols(
            gs,
            bones,
            names.take(k as int),
            gs.len(),
        ),
    decreases k,
{
    if k > 0 {
        lemma_artic_parts_tris(gs, bones, world, names, (k - 1) as nat);
        let f = |j: int| artic_part(gs, bones, world, names[j], gs.len());
        assert(Seq::new(k, f).drop_last() =~= Seq::new((k - 1) as nat, f));
        assert(names.take(k as int).drop_last() =~= names.take(k - 1));
        lemma_dest_geoms_tris(gs, bones, Some(names[k - 1]), gs.len());
    }
}

proof fn lemma_tris_to_nonempty(g: GeometryView, bones: Seq<Bone>, t: int, n: nat)
    requires
        0 <= t < n,
    ensures
        tris_to(g, bones, dest(g, bones, t), n).len() > 0,
    decreases n,
{
    if t < n - 1 {
        lemma_tris_to_nonempty(g, bones, t, (n - 1) as nat);
    }
}

proof fn lemma_artic_names_cover(gs: Seq<GeometryView>, bones: Seq<Bone>, m: nat)
    requires
        m <= gs.len(),
    ensures
        forall|i: int, t: int|
            0 <= i < m && 0 <= t < tri_count(gs[i]) ==> (#[trigger] dest(gs[i], bones, t) matches Some(x)
                ==> artic_names(gs, bones, m).contains(x)),
    decreases m,
{
    if m > 0 {
        lemma_artic_names_cover(gs, bones, (m - 1) as nat);
        lemma_artic_names(gs, bones, (m - 1) as nat);
        let g = gs[m - 1];
        let acc = artic_names(gs, bones, (m - 1) as nat);
        let ns = names_in(g, bones, tri_count(g));
        lemma_add_names(acc, ns);
        lemma_names_in(g, bones, tri_count(g));
        assert forall|i: int, t: int|
            0 <= i < m && 0 <= t < tri_count(gs[i]) implies (#[trigger] dest(gs[i], bones, t) matches Some(x)
                ==> artic_names(gs, bones, m).contains(x)) by {
            if let Some(x) = dest(gs[i], bones, t) {
                if i == m - 1 {
                    lemma_tris_to_nonempty(g, bones, t, tri_count(g));
                    assert(ns.contains(x));
                } else {
                    assert(acc.contains(x));
                }
            }
        }
    }
}

/// Grouping loses and doubles no triangle: the parts together hold exactly
/// as many whole triangles as the mesh's geometries.
pub proof fn group_keeps_every_triangle(
    gs: Seq<GeometryView>,
    bones: Seq<Bone>,
    world: Seq<([u32; 3], [u32; 4])>,
)
    requires
        forall|i: int| 0 <= i < gs.len() ==> geometry_wf(#[trigger] gs[i]),
    ensures
        parts_tris(spec_group(gs, bones, world)) == geoms_tris(gs),
{
    let m = gs.len();
    let names = artic_names(gs, bones, m);
    lemma_artic_names(gs, bones, m);
    lemma_artic_names_cover(gs, bones, m);
    let body = PartView {
        name: body_name(),
        articulated: false,
        hinge: None,
        geometries: dest_geoms(gs, bones, None, m),
    };
    let rest = Seq::new(names.len(), |k: int| artic_part(gs, bones, world, names[k], m));
    lemma_parts_cons(body, rest);
    lemma_dest_geoms_tris(gs, bones, None, m);
    lemma_artic_parts_tris(gs, bones, world, names, names.len());
    assert(names.take(names.len() as int) =~= names);
    lemma_cols_row(gs, bones, names, m);
    lemma_total(gs, bones, names, m);
    assert(gs.take(m as int) =~= gs);
}


/// The weight vertex `v` gives `bone` through its skinning slot `k`: the
/// slot's weight where the slot names that bone, else nothing.
pub open spec fn share(g: GeometryView, v: usize, k: int, bone: u16) -> nat {
    if g.bone_idx[v as int][k] == bone {
        g.bone_wt[v as int][k] as nat
    } else {
        0
    }
}

/// What vertex `v` gives `bone` over its four skinning slots.
pub open spec fn vertex_share(g: GeometryView, v: usize, bone: u16) -> nat {
    share(g, v, 0, bone) + share(g, v, 1, bone) + share(g, v, 2, bone) + share(g, v, 3, bone)
}

proof fn lemma_tri_weight_sum(g: GeometryView, a: usize, b: usize, c: usize, bone: u16)
    ensures
        tri_weight(g, a, b, c, bone) == vertex_share(g, a, bone) + vertex_share(g, b, bone) + vertex_share(
            g,
            c,
            bone,
        ),
{
    assert(weight_upto(g, a, b, c, bone, 0) == 0);
    assert(corner(a, b, c, 0) == a as int && 0int % 4 == 0);
    assert(weight_upto(g, a, b, c, bone, 1) == share(g, a, 0, bone));
    assert(corner(a, b, c, 1) == a as int && 1int % 4 == 1);
    assert(weight_upto(g, a, b, c, bone, 2) == share(g, a, 0, bone) + share(g, a, 1, bone));
    assert(corner(a, b, c, 2) == a as int && 2int % 4 == 2);
    assert(weight_upto(g, a, b, c, bone, 3) == share(g, a, 0, bone) + share(g, a, 1, bone) + share(g, a, 2, bone));
    assert(corner(a, b, c, 3) == a as int && 3int % 4 == 3);
    assert(weight_upto(g, a, b, c, bone, 4) == share(g, a, 0, bone) + share(g, a, 1, bone) + share(g, a, 2, bone) + share(g, a, 3, bone));
    assert(corner(a, b, c, 4) == b as int && 4int % 4 == 0);
    assert(weight_upto(g, a, b, c, bone, 5) == share(g, a, 0, bone) + share(g, a, 1, bone) + share(g, a, 2, bone) + share(g, a, 3, bone) + share(g, b, 0, bone));
    assert(corner(a, b, c, 5) == b as int && 5int % 4 == 1);
    assert(weight_upto(g, a, b, c, bone, 6) == share(g, a, 0, bone) + share(g, a, 1, bone) + share(g, a, 2, bone) + share(g, a, 3, bone) + share(g, b, 0, bone) + share(g, b, 1, bone));
    assert(corner(a, b, c, 6) == b as int && 6int % 4 == 2);
    assert(weight_upto(g, a, b, c, bone, 7) == share(g, a, 0, bone) + share(g, a, 1, bone) + share(g, a, 2, bone) + share(g, a, 3, bone) + share(g, b, 0, bone) + share(g, b, 1, bone) + share(g, b, 2, bone));
    assert(corner(a, b, c, 7) == b as int && 7int % 4 == 3);
    assert(weight_upto(g, a, b, c, bone, 8) == share(g, a, 0, bone) + share(g, a, 1, bone) + share(g, a, 2, bone) + share(g, a, 3, bone) + share(g, b, 0, bone) + share(g, b, 1, bone) + share(g, b, 2, bone) + share(g, b, 3, bone));
    assert(corner(a, b, c, 8) == c as int && 8int % 4 == 0);
    assert(weight_upto(g, a, b, c, bone, 9) == share(g, a, 0, bone) + share(g, a, 1, bone) + share(g, a, 2, bone) + share(g, a, 3, bone) + share(g, b, 0, bone) + share(g, b, 1, bone) + share(g, b, 2, bone) + share(g, b, 3, bone) + share(g, c, 0, bone));
    assert(corner(a, b, c, 9) == c as int && 9int % 4 == 1);
    assert(weight_upto(g, a, b, c, bone, 10) == share(g, a, 0, bone) + share(g, a, 1, bone) + share(g, a, 2, bone) + share(g, a, 3, bone) + share(g, b, 0, bone) + share(g, b, 1, bone) + share(g, b, 2, bone) + share(g, b, 3, bone) + share(g, c, 0, bone) + share(g, c, 1, bone));
    assert(corner(a, b, c, 10) == c as int && 10int % 4 == 2);
    assert(weight_upto(g, a, b, c, bone, 11) == share(g, a, 0, bone) + share(g, a, 1, bone) + share(g, a, 2, bone) + share(g, a, 3, bone) + share(g, b, 0, bone) + share(g, b, 1, bone) + share(g, b, 2, bone) + share(g, b, 3, bone) + share(g, c, 0, bone) + share(g, c, 1, bone) + share(g, c, 2, bone));
    assert(corner(a, b, c, 11) == c as int && 11int % 4 == 3);
    assert(weight_upto(g, a, b, c, bone, 12) == share(g, a, 0, bone) + share(g, a, 1, bone) + share(g, a, 2, bone) + share(g, a, 3, bone) + share(g, b, 0, bone) + share(g, b, 1, bone) + share(g, b, 2, bone) + share(g, b, 3, bone) + share(g, c, 0, bone) + share(g, c, 1, bone) + share(g, c, 2, bone) + share(g, c, 3, bone));
}

/// A triangle's weight for a bone adds up every skinning slot of its three
/// corners that names the bone, and the bone a triangle follows has the
/// greatest such total: no bone outweighs it.
pub proof fn triangle_weight_is_summed(g: GeometryView, a: usize, b: usize, c: usize, bone: u16)
    ensures
        tri_weight(g, a, b, c, bone) == vertex_share(g, a, bone) + vertex_share(g, b, bone) + vertex_share(
            g,
            c,
            bone,
        ),
        dominant_bone(g, a, b, c) matches Some(p) ==> vertex_share(g, a, bone) + vertex_share(g, b, bone)
            + vertex_share(g, c, bone) <= vertex_share(g, a, p) + vertex_share(g, b, p) + vertex_share(g, c, p),
{
    lemma_tri_weight_sum(g, a, b, c, bone);
    dominant_bone_is_heaviest(g, a, b, c);
    if let Some(p) = dominant_bone(g, a, b, c) {
        lemma_tri_weight_sum(g, a, b, c, p);
        assert(tri_weight(g, a, b, c, bone) <= tri_weight(g, a, b, c, p));
    }
}


/// A triangle goes to an articulated part only when that part is named after
/// a bone with a hinge that carries the triangle's greatest summed skinning
/// weight (over its three corners, as `vertex_share` counts it): the bone
/// carries some weight and no bone carries more.
pub proof fn triangle_follows_heaviest_bone(g: GeometryView, bones: Seq<Bone>, t: int)
    ensures
        ({
            let (a, b, c) = tri_at(g, t);
            dest(g, bones, t) matches Some(nm) ==> exists|p: u16|
                {
                    &&& #[trigger] bone_name(bones, p) == nm
                    &&& hinge_axis(nm) is Some
                    &&& vertex_share(g, a, p) + vertex_share(g, b, p) + vertex_share(g, c, p) > 0
                    &&& forall|q: u16|
                        vertex_share(g, a, q) + vertex_share(g, b, q) + vertex_share(g, c, q) <= #[trigger] (
                        vertex_share(g, a, p) + vertex_share(g, b, p) + vertex_share(g, c, p))
                }
        }),
{
    let (a, b, c) = tri_at(g, t);
    if let Some(p) = dominant_bone(g, a, b, c) {
        dominant_bone_is_heaviest(g, a, b, c);
        lemma_tri_weight_sum(g, a, b, c, p);
        assert forall|q: u16|
            vertex_share(g, a, q) + vertex_share(g, b, q) + vertex_share(g, c, q) <= #[trigger] (vertex_share(
                g,
                a,
                p,
            ) + vertex_share(g, b, p) + vertex_share(g, c, p)) by {
            lemma_tri_weight_sum(g, a, b, c, q);
            assert(tri_weight(g, a, b, c, q) <= tri_weight(g, a, b, c, p));
        }
        assert(bone_name(bones, p) == bone_name(bones, p));
    }
}

} // verus!
