//! GTA5 skeleton (crSkeletonData) parsing: bones for articulation and skinning.
//!
//! FragType.Drawable -> DrawableBase.SkeletonPointer -> Skeleton -> Bones[].
//! Each bone carries a local transform (relative to its parent), a parent
//! index, a stable tag (the bone id GTA references) and a name.

use vstd::prelude::*;
use crate::rsc7::{DecodeError, Rsc7, le16, le64, ptr_add, read_le16, read_le32, read_le64};
use crate::yft::{ROOT, FRAGTYPE_DRAWABLE_PTR, word_at};

verus! {

/// A bone. Translation, rotation (quaternion x,y,z,w) and scale components
/// are `f32` bit patterns.
pub struct Bone {
    pub index: i16,
    pub name: String,
    pub tag: u16,
    pub parent: i16,
    pub translation: [u32; 3],
    pub rotation: [u32; 4],
    pub scale: [u32; 3],
}

pub const DB_SKELETON_PTR: usize = 0x18;
pub const SKEL_BONES_PTR: usize = 0x20;
pub const SKEL_BONES_COUNT: usize = 0x5E;
pub const BONE_SIZE: usize = 0x50;
pub const O_ROTATION: usize = 0x00;
pub const O_TRANSLATION: usize = 0x10;
pub const O_SCALE: usize = 0x20;
pub const O_PARENT: usize = 0x32;
pub const O_NAME_PTR: usize = 0x38;
pub const O_INDEX: usize = 0x42;
pub const O_TAG: usize = 0x44;

pub struct BoneView {
    pub index: i16,
    pub name: Seq<char>,
    pub tag: u16,
    pub parent: i16,
    pub translation: [u32; 3],
    pub rotation: [u32; 4],
    pub scale: [u32; 3],
}

impl View for Bone {
    type V = BoneView;

    open spec fn view(&self) -> BoneView {
        BoneView {
            index: self.index,
            name: self.name@,
            tag: self.tag,
            parent: self.parent,
            translation: self.translation,
            rotation: self.rotation,
            scale: self.scale,
        }
    }
}

pub open spec fn i16_at(b: Seq<u8>, o: nat) -> i16 {
    le16(b.subrange(o as int, (o + 2) as int)) as i16
}

/// The bone described by the 0x50 bytes of a bone record.
pub open spec fn spec_bone(rsc: Rsc7, b: Seq<u8>) -> BoneView {
    BoneView {
        index: i16_at(b, O_INDEX as nat),
        name: rsc.spec_str_at(le64(b.subrange(O_NAME_PTR as int, O_NAME_PTR + 8)) as u64),
        tag: le16(b.subrange(O_TAG as int, O_TAG + 2)) as u16,
        parent: i16_at(b, O_PARENT as nat),
        translation: [
            word_at(b, O_TRANSLATION as nat),
            word_at(b, (O_TRANSLATION + 4) as nat),
            word_at(b, (O_TRANSLATION + 8) as nat),
        ],
        rotation: [
            word_at(b, O_ROTATION as nat),
            word_at(b, (O_ROTATION + 4) as nat),
            word_at(b, (O_ROTATION + 8) as nat),
            word_at(b, (O_ROTATION + 12) as nat),
        ],
        scale: [word_at(b, O_SCALE as nat), word_at(b, (O_SCALE + 4) as nat), word_at(b, (O_SCALE + 8) as nat)],
    }
}

/// The first `n` bones of the array at `ptr`.
pub open spec fn spec_bones(rsc: Rsc7, ptr: u64, n: nat) -> Result<Seq<BoneView>, DecodeError>
    decreases n,
{
    if n == 0 {
        Ok(Seq::empty())
    } else {
        match spec_bones(rsc, ptr, (n - 1) as nat) {
            Err(e) => Err(e),
            Ok(acc) => match rsc.spec_at(ptr_add(ptr, (BONE_SIZE * (n - 1)) as usize), BONE_SIZE as nat) {
                Err(e) => Err(e),
                Ok(b) => Ok(acc.push(spec_bone(rsc, b))),
            },
        }
    }
}

/// The skeleton of the fragment's drawable (empty when there is none).
pub open spec fn spec_parse(rsc: Rsc7) -> Result<Seq<BoneView>, DecodeError> {
    match rsc.spec_u64_at(ROOT, FRAGTYPE_DRAWABLE_PTR) {
        Err(e) => Err(e),
        Ok(drawable) => if drawable == 0 {
            Ok(Seq::empty())
        } else {
            match rsc.spec_u64_at(drawable, DB_SKELETON_PTR) {
                Err(e) => Err(e),
                Ok(skel) => if skel == 0 {
                    Ok(Seq::empty())
                } else {
                    match rsc.spec_u64_at(skel, SKEL_BONES_PTR) {
                        Err(e) => Err(e),
                        Ok(bones_ptr) => match rsc.spec_u16_at(skel, SKEL_BONES_COUNT) {
                            Err(e) => Err(e),
                            Ok(count) => if bones_ptr == 0 || count == 0 {
                                Ok(Seq::empty())
                            } else {
                                spec_bones(rsc, bones_ptr, count as nat)
                            },
                        },
                    }
                },
            }
        },
    }
}

pub open spec fn bone_views(s: Seq<Bone>) -> Seq<BoneView> {
    s.map_values(|b: Bone| b@)
}

proof fn lemma_bones_err(rsc: Rsc7, ptr: u64, k: nat, m: nat)
    requires
        k <= m,
        spec_bones(rsc, ptr, k) is Err,
    ensures
        spec_bones(rsc, ptr, m) == spec_bones(rsc, ptr, k),
    decreases m,
{
    if m > k {
        lemma_bones_err(rsc, ptr, k, (m - 1) as nat);
    }
}

fn read_bone(rsc: &Rsc7, b: &[u8]) -> (bone: Bone)
    requires
        b@.len() == BONE_SIZE,
    ensures
        bone@ == spec_bone(*rsc, b@),
{
    let name_ptr = read_le64(b, O_NAME_PTR);
    Bone {
        index: read_le16(b, O_INDEX) as i16,
        name: rsc.str_at(name_ptr),
        tag: read_le16(b, O_TAG),
        parent: read_le16(b, O_PARENT) as i16,
        translation: [
            read_le32(b, O_TRANSLATION),
            read_le32(b, O_TRANSLATION + 4),
            read_le32(b, O_TRANSLATION + 8),
        ],
        rotation: [
            read_le32(b, O_ROTATION),
            read_le32(b, O_ROTATION + 4),
            read_le32(b, O_ROTATION + 8),
            read_le32(b, O_ROTATION + 12),
        ],
        scale: [read_le32(b, O_SCALE), read_le32(b, O_SCALE + 4), read_le32(b, O_SCALE + 8)],
    }
}

/// Parse the skeleton of the fragment's drawable.
pub fn parse(rsc: &Rsc7) -> (res: Result<Vec<Bone>, DecodeError>)
    ensures
        match spec_parse(*rsc) {
            Ok(bs) => res matches Ok(v) && bone_views(v@) == bs,
            Err(e) => res matches Err(e2) && e2 == e,
        },
{
    let drawable = rsc.u64_at(ROOT, FRAGTYPE_DRAWABLE_PTR)?;
    if drawable == 0 {
        assert(bone_views(Seq::<Bone>::empty()) =~= Seq::<BoneView>::empty());
        return Ok(Vec::new());
    }
    let skel = rsc.u64_at(drawable, DB_SKELETON_PTR)?;
    if skel == 0 {
        assert(bone_views(Seq::<Bone>::empty()) =~= Seq::<BoneView>::empty());
        return Ok(Vec::new());
    }
    let bones_ptr = rsc.u64_at(skel, SKEL_BONES_PTR)?;
    let count = rsc.u16_at(skel, SKEL_BONES_COUNT)? as usize;
    if bones_ptr == 0 || count == 0 {
        assert(bone_views(Seq::<Bone>::empty()) =~= Seq::<BoneView>::empty());
        return Ok(Vec::new());
    }
    let mut bones: Vec<Bone> = Vec::with_capacity(count);
    let mut i: usize = 0;
    while i < count
        invariant
            i <= count,
            count < 0x1_0000,
            rsc.spec_u64_at(ROOT, FRAGTYPE_DRAWABLE_PTR) == Ok::<u64, DecodeError>(drawable),
            drawable != 0,
            rsc.spec_u64_at(drawable, DB_SKELETON_PTR) == Ok::<u64, DecodeError>(skel),
            skel != 0,
            rsc.spec_u64_at(skel, SKEL_BONES_PTR) == Ok::<u64, DecodeError>(bones_ptr),
            rsc.spec_u16_at(skel, SKEL_BONES_COUNT) matches Ok(c) && c as usize == count,
            bones_ptr != 0,
            spec_bones(*rsc, bones_ptr, i as nat) matches Ok(acc) && bone_views(bones@) == acc,
        decreases count - i,
    {
        let r = rsc.at(bones_ptr.wrapping_add((i * BONE_SIZE) as u64), BONE_SIZE);
        let b = match r {
            Ok(b) => b,
            Err(e) => {
                proof {
                    assert(spec_bones(*rsc, bones_ptr, (i + 1) as nat) == Err::<Seq<BoneView>, DecodeError>(e));
                    lemma_bones_err(*rsc, bones_ptr, (i + 1) as nat, count as nat);
                }
                return Err(e);
            },
        };
        let bone = read_bone(rsc, b);
        let ghost before = bones@;
        bones.push(bone);
        proof {
            assert(bone_views(bones@) =~= bone_views(before).push(bone@));
        }
        i += 1;
    }
    Ok(bones)
}

} // verus!
