//! GTA fragment physics joints: the generic articulation data. Each joint
//! connects two physics links (children) with a type, a frame and angle
//! limits.
//!
//! FragType.PhysLODGroup -> LOD1 -> ArticulatedBodyType -> Joints[].
//! phJointType: m_JointType@0x15, m_ParentLinkIndex@0x16,
//! m_ChildLinkIndex@0x17, then the orientation frames and 1-Dof angle limits,
//! nine Vector4s at 0x20.

use vstd::prelude::*;
use crate::rsc7::{DecodeError, Rsc7, ptr_add, read_le32};
use crate::yft::{
    ROOT, FRAGTYPE_PHYSLODGROUP_PTR, LODGROUP_LOD1_PTR, LOD_CHILDREN_PTR, LOD_CHILDREN_COUNT,
    CHILD_BONETAG, or_zero_u64, word_at,
};

verus! {

pub const LOD_ARTICULATED_PTR: usize = 0x20;
pub const ABT_JOINTS_PTR: usize = 0x78;
pub const ABT_JOINTS_COUNT: usize = 0x89;
pub const J_TYPE: usize = 0x15;
pub const J_PARENT_LINK: usize = 0x16;
pub const J_CHILD_LINK: usize = 0x17;
pub const J_VECS: usize = 0x20;

/// A joint; `vecs` components are f32 bits.
pub struct Joint {
    /// 0 = 1-Dof (hinge), 1 = 3-Dof
    pub jtype: u8,
    pub parent_link: u8,
    pub child_link: u8,
    pub vecs: [[u32; 4]; 9],
}

// ---- link bone tags ----------------------------------------------------------

/// LOD1 of the physics LOD group, 0 when absent or unreadable.
pub open spec fn spec_lod1(rsc: Rsc7) -> u64 {
    let g = or_zero_u64(rsc.spec_u64_at(ROOT, FRAGTYPE_PHYSLODGROUP_PTR));
    if g == 0 {
        0
    } else {
        or_zero_u64(rsc.spec_u64_at(g, LODGROUP_LOD1_PTR))
    }
}

pub open spec fn tag_of(rsc: Rsc7, c: u64) -> u16 {
    if c == 0 {
        0
    } else {
        match rsc.spec_u16_at(c, CHILD_BONETAG) {
            Ok(t) => t,
            Err(_) => 0,
        }
    }
}

/// Bone tag of each physics link (child index -> bone tag, 0 where unknown).
pub open spec fn spec_link_bone_tags(rsc: Rsc7) -> Seq<u16> {
    let lod1 = spec_lod1(rsc);
    if lod1 == 0 {
        Seq::empty()
    } else {
        let children_ptr = or_zero_u64(rsc.spec_u64_at(lod1, LOD_CHILDREN_PTR));
        let count: u8 = match rsc.spec_u8_at(lod1, LOD_CHILDREN_COUNT) {
            Ok(v) => v,
            Err(_) => 0,
        };
        if children_ptr == 0 || count == 0 {
            Seq::empty()
        } else {
            match rsc.spec_ptr_array(children_ptr, count as nat) {
                Err(_) => Seq::empty(),
                Ok(ptrs) => ptrs.map_values(|c: u64| tag_of(rsc, c)),
            }
        }
    }
}

fn or_zero(r: Result<u64, DecodeError>) -> (v: u64)
    ensures
        v == or_zero_u64(r),
{
    match r {
        Ok(v) => v,
        Err(_) => 0,
    }
}

/// Bone tag for each physics link (child index -> bone tag).
pub fn link_bone_tags(rsc: &Rsc7) -> (tags: Vec<u16>)
    ensures
        tags@ == spec_link_bone_tags(*rsc),
{
    let g = or_zero(rsc.u64_at(ROOT, FRAGTYPE_PHYSLODGROUP_PTR));
    let lod1 = if g == 0 {
        0
    } else {
        or_zero(rsc.u64_at(g, LODGROUP_LOD1_PTR))
    };
    if lod1 == 0 {
        return Vec::new();
    }
    let children_ptr = or_zero(rsc.u64_at(lod1, LOD_CHILDREN_PTR));
    let count = match rsc.u8_at(lod1, LOD_CHILDREN_COUNT) {
        Ok(v) => v,
        Err(_) => 0,
    };
    if children_ptr == 0 || count == 0 {
        return Vec::new();
    }
    let ptrs = match rsc.ptr_array(children_ptr, count as usize) {
        Ok(p) => p,
        Err(_) => return Vec::new(),
    };
    let mut tags: Vec<u16> = Vec::new();
    let mut i: usize = 0;
    while i < ptrs.len()
        invariant
            i <= ptrs@.len(),
            tags@ =~= ptrs@.subrange(0, i as int).map_values(|c: u64| tag_of(*rsc, c)),
        decreases ptrs@.len() - i,
    {
        let c = ptrs[i];
        let t = if c == 0 {
            0
        } else {
            match rsc.u16_at(c, CHILD_BONETAG) {
                Ok(t) => t,
                Err(_) => 0,
            }
        };
        tags.push(t);
        i += 1;
        assert(tags@ =~= ptrs@.subrange(0, i as int).map_values(|c: u64| tag_of(*rsc, c)));
    }
    assert(ptrs@.subrange(0, ptrs@.len() as int) =~= ptrs@);
    tags
}

// ---- joints -------------------------------------------------------------------

/// Vector4 `k` of the joint at `j` (zeros when unreadable).
pub open spec fn spec_joint_vec(rsc: Rsc7, j: u64, k: nat) -> [u32; 4] {
    match rsc.spec_at(ptr_add(j, (J_VECS + k * 16) as usize), 16) {
        Ok(b) => [word_at(b, 0), word_at(b, 4), word_at(b, 8), word_at(b, 12)],
        Err(_) => [0u32, 0u32, 0u32, 0u32],
    }
}

/// `jt` is the joint at `j`: its nine vectors and its type and link bytes.
pub open spec fn joint_is(rsc: Rsc7, j: u64, jt: Joint, jtype: u8, parent: u8, child: u8) -> bool {
    &&& jt.jtype == jtype
    &&& jt.parent_link == parent
    &&& jt.child_link == child
    &&& jt.vecs@ == Seq::new(9, |k: int| spec_joint_vec(rsc, j, k as nat))
}

/// The type, parent link and child link bytes of the joint at `j`.
pub open spec fn spec_joint_head(rsc: Rsc7, j: u64) -> Result<(u8, u8, u8), DecodeError> {
    match rsc.spec_u8_at(j, J_TYPE) {
        Err(e) => Err(e),
        Ok(t) => match rsc.spec_u8_at(j, J_PARENT_LINK) {
            Err(e) => Err(e),
            Ok(p) => match rsc.spec_u8_at(j, J_CHILD_LINK) {
                Err(e) => Err(e),
                Ok(c) => Ok((t, p, c)),
            },
        },
    }
}

/// The first `n` joint pointers of the list, null entries skipped: `Ok` with
/// the pointers decoded when every head read succeeds, else the first error.
pub open spec fn spec_joint_heads(rsc: Rsc7, ptrs: Seq<u64>, n: nat) -> Result<Seq<(u64, (u8, u8, u8))>, DecodeError>
    decreases n,
{
    if n == 0 {
        Ok(Seq::empty())
    } else {
        match spec_joint_heads(rsc, ptrs, (n - 1) as nat) {
            Err(e) => Err(e),
            Ok(acc) => {
                let j = ptrs[n - 1];
                if j == 0 {
                    Ok(acc)
                } else {
                    match spec_joint_head(rsc, j) {
                        Err(e) => Err(e),
                        Ok(h) => Ok(acc.push((j, h))),
                    }
                }
            },
        }
    }
}

/// The joint list of the articulated body of LOD1 (empty when any link of
/// the chain is null), as (pointer, head) pairs.
pub open spec fn spec_joints(rsc: Rsc7) -> Result<Seq<(u64, (u8, u8, u8))>, DecodeError> {
    match rsc.spec_u64_at(ROOT, FRAGTYPE_PHYSLODGROUP_PTR) {
        Err(e) => Err(e),
        Ok(lodgroup) => if lodgroup == 0 {
            Ok(Seq::empty())
        } else {
            match rsc.spec_u64_at(lodgroup, LODGROUP_LOD1_PTR) {
                Err(e) => Err(e),
                Ok(lod1) => if lod1 == 0 {
                    Ok(Seq::empty())
                } else {
                    match rsc.spec_u64_at(lod1, LOD_ARTICULATED_PTR) {
                        Err(e) => Err(e),
                        Ok(abt) => if abt == 0 {
                            Ok(Seq::empty())
                        } else {
                            match rsc.spec_u64_at(abt, ABT_JOINTS_PTR) {
                                Err(e) => Err(e),
                                Ok(jp) => match rsc.spec_u8_at(abt, ABT_JOINTS_COUNT) {
                                    Err(e) => Err(e),
                                    Ok(count) => if jp == 0 || count == 0 {
                                        Ok(Seq::empty())
                                    } else {
                                        match rsc.spec_ptr_array(jp, count as nat) {
                                            Err(e) => Err(e),
                                            Ok(ptrs) => spec_joint_heads(rsc, ptrs, count as nat),
                                        }
                                    },
                                },
                            }
                        },
                    }
                },
            }
        },
    }
}

proof fn lemma_heads_err(rsc: Rsc7, ptrs: Seq<u64>, k: nat, m: nat)
    requires
        k <= m,
        spec_joint_heads(rsc, ptrs, k) is Err,
    ensures
        spec_joint_heads(rsc, ptrs, m) == spec_joint_heads(rsc, ptrs, k),
    decreases m,
{
    if m > k {
        lemma_heads_err(rsc, ptrs, k, (m - 1) as nat);
    }
}

fn joint_vec(rsc: &Rsc7, j: u64, k: usize) -> (v: [u32; 4])
    requires
        k < 9,
    ensures
        v == spec_joint_vec(*rsc, j, k as nat),
{
    match rsc.at(j.wrapping_add((J_VECS + k * 16) as u64), 16) {
        Ok(b) => [read_le32(b, 0), read_le32(b, 4), read_le32(b, 8), read_le32(b, 12)],
        Err(_) => [0u32, 0u32, 0u32, 0u32],
    }
}

fn read_joint(rsc: &Rsc7, j: u64) -> (res: Result<Joint, DecodeError>)
    ensures
        match spec_joint_head(*rsc, j) {
            Err(e) => res matches Err(e2) && e2 == e,
            Ok((t, p, c)) => res matches Ok(jt) && joint_is(*rsc, j, jt, t, p, c),
        },
{
    let vecs = [
        joint_vec(rsc, j, 0),
        joint_vec(rsc, j, 1),
        joint_vec(rsc, j, 2),
        joint_vec(rsc, j, 3),
        joint_vec(rsc, j, 4),
        joint_vec(rsc, j, 5),
        joint_vec(rsc, j, 6),
        joint_vec(rsc, j, 7),
        joint_vec(rsc, j, 8),
    ];
    assert(vecs@ =~= Seq::new(9, |k: int| spec_joint_vec(*rsc, j, k as nat)));
    let jtype = rsc.u8_at(j, J_TYPE)?;
    let parent_link = rsc.u8_at(j, J_PARENT_LINK)?;
    let child_link = rsc.u8_at(j, J_CHILD_LINK)?;
    Ok(Joint { jtype, parent_link, child_link, vecs })
}

/// Parse the fragment physics joints.
pub fn parse(rsc: &Rsc7) -> (res: Result<Vec<Joint>, DecodeError>)
    ensures
        match spec_joints(*rsc) {
            Err(e) => res matches Err(e2) && e2 == e,
            Ok(hs) => res matches Ok(js) && js@.len() == hs.len() && forall|i: int|
                0 <= i < hs.len() ==> joint_is(*rsc, hs[i].0, #[trigger] js@[i], hs[i].1.0, hs[i].1.1, hs[i].1.2),
        },
{
    let lodgroup = rsc.u64_at(ROOT, FRAGTYPE_PHYSLODGROUP_PTR)?;
    if lodgroup == 0 {
        return Ok(Vec::new());
    }
    let lod1 = rsc.u64_at(lodgroup, LODGROUP_LOD1_PTR)?;
    if lod1 == 0 {
        return Ok(Vec::new());
    }
    let abt = rsc.u64_at(lod1, LOD_ARTICULATED_PTR)?;
    if abt == 0 {
        return Ok(Vec::new());
    }
    let joints_ptr = rsc.u64_at(abt, ABT_JOINTS_PTR)?;
    let count = rsc.u8_at(abt, ABT_JOINTS_COUNT)?;
    if joints_ptr == 0 || count == 0 {
        return Ok(Vec::new());
    }
    let ptrs = rsc.ptr_array(joints_ptr, count as usize)?;
    let mut out: Vec<Joint> = Vec::new();
    let mut i: usize = 0;
    while i < count as usize
        invariant
            i <= count,
            ptrs@.len() == count,
            rsc.spec_u64_at(ROOT, FRAGTYPE_PHYSLODGROUP_PTR) == Ok::<u64, DecodeError>(lodgroup),
            lodgroup != 0,
            rsc.spec_u64_at(lodgroup, LODGROUP_LOD1_PTR) == Ok::<u64, DecodeError>(lod1),
            lod1 != 0,
            rsc.spec_u64_at(lod1, LOD_ARTICULATED_PTR) == Ok::<u64, DecodeError>(abt),
            abt != 0,
            rsc.spec_u64_at(abt, ABT_JOINTS_PTR) == Ok::<u64, DecodeError>(joints_ptr),
            rsc.spec_u8_at(abt, ABT_JOINTS_COUNT) == Ok::<u8, DecodeError>(count),
            joints_ptr != 0,
            count != 0,
            rsc.spec_ptr_array(joints_ptr, count as nat) == Ok::<Seq<u64>, DecodeError>(ptrs@),
            spec_joint_heads(*rsc, ptrs@, i as nat) matches Ok(hs) && out@.len() == hs.len() && forall|q: int|
                0 <= q < hs.len() ==> joint_is(*rsc, hs[q].0, #[trigger] out@[q], hs[q].1.0, hs[q].1.1, hs[q].1.2),
        decreases count - i,
    {
        let j = ptrs[i];
        if j != 0 {
            match read_joint(rsc, j) {
                Ok(jt) => {
                    let ghost before = out@;
                    out.push(jt);
                    proof {
                        let hs = spec_joint_heads(*rsc, ptrs@, i as nat)->Ok_0;
                        let hs1 = spec_joint_heads(*rsc, ptrs@, (i + 1) as nat)->Ok_0;
                        assert forall|q: int| 0 <= q < hs1.len() implies joint_is(*rsc, hs1[q].0, #[trigger] out@[q], hs1[q].1.0, hs1[q].1.1, hs1[q].1.2) by {
                            if q < hs.len() {
                                assert(out@[q] == before[q]);
                            }
                        }
                    }
                },
                Err(e) => {
                    proof {
                        lemma_heads_err(*rsc, ptrs@, (i + 1) as nat, count as nat);
                    }
                    return Err(e);
                },
            }
        }
        i += 1;
    }
    Ok(out)
}

} // verus!
