//! The drawable's ShaderGroup: which textures each shader uses.
//!
//! FragType.Drawable -> DrawableBase.ShaderGroupPointer -> ShaderGroup. Each
//! geometry's shader_index selects a shader; the shader's texture parameters
//! point at grcTextures whose names are the texture names, in a stable order:
//! diffuse, then bump/normal, then spec and the rest.

use vstd::prelude::*;
use crate::rsc7::{DecodeError, Rsc7, ptr_add};
use crate::yft::{ROOT, FRAGTYPE_DRAWABLE_PTR, or_zero_u64};

verus! {

pub const DB_SHADERGROUP_PTR: usize = 0x10;
pub const SG_SHADERS_PTR: usize = 0x10;
pub const SG_SHADERS_COUNT: usize = 0x18;
pub const SG_TXD_PTR: usize = 0x08;
pub const SHADER_PARAMS_PTR: usize = 0x00;
pub const SHADER_PARAM_COUNT: usize = 0x10;
pub const PARAM_SIZE: usize = 16;
pub const PARAM_DATATYPE: usize = 0x00;
pub const PARAM_DATAPTR: usize = 0x08;
pub const TEX_NAME_PTR: usize = 0x28;

/// The texture names a shader uses: its first (diffuse) and second
/// (bump/normal) texture parameters.
pub struct ShaderInfo {
    pub diffuse: Option<String>,
    pub normal: Option<String>,
}

pub open spec fn opt_str(o: Option<String>) -> Option<Seq<char>> {
    match o {
        Some(s) => Some(s@),
        None => None,
    }
}

impl View for ShaderInfo {
    type V = (Option<Seq<char>>, Option<Seq<char>>);

    open spec fn view(&self) -> (Option<Seq<char>>, Option<Seq<char>>) {
        (opt_str(self.diffuse), opt_str(self.normal))
    }
}

/// The drawable's ShaderGroup pointer.
pub open spec fn spec_shader_group(rsc: Rsc7) -> Result<u64, DecodeError> {
    match rsc.spec_u64_at(ROOT, FRAGTYPE_DRAWABLE_PTR) {
        Err(e) => Err(e),
        Ok(drawable) => rsc.spec_u64_at(drawable, DB_SHADERGROUP_PTR),
    }
}

fn shader_group(rsc: &Rsc7) -> (res: Result<u64, DecodeError>)
    ensures
        res == spec_shader_group(*rsc),
{
    let drawable = rsc.u64_at(ROOT, FRAGTYPE_DRAWABLE_PTR)?;
    rsc.u64_at(drawable, DB_SHADERGROUP_PTR)
}

/// Pointer to the drawable's embedded TextureDictionary (0 if none).
pub open spec fn spec_embedded_txd_ptr(rsc: Rsc7) -> u64 {
    match spec_shader_group(rsc) {
        Err(_) => 0,
        Ok(sg) => if sg == 0 {
            0
        } else {
            or_zero_u64(rsc.spec_u64_at(sg, SG_TXD_PTR))
        },
    }
}

/// Pointer to the drawable's embedded TextureDictionary (0 if none).
pub fn embedded_txd_ptr(rsc: &Rsc7) -> (p: u64)
    ensures
        p == spec_embedded_txd_ptr(*rsc),
{
    match shader_group(rsc) {
        Err(_) => 0,
        Ok(sg) => if sg == 0 {
            0
        } else {
            match rsc.u64_at(sg, SG_TXD_PTR) {
                Ok(v) => v,
                Err(_) => 0,
            }
        },
    }
}

/// Name of texture parameter `i` of a shader whose parameters start at
/// `params_ptr`: `None` when it is not a texture parameter, has no texture,
/// or the name is empty. Unreadable fields count as "not a texture" (type),
/// null (texture) and null (name).
pub open spec fn param_tex_name(rsc: Rsc7, params_ptr: u64, i: nat) -> Option<Seq<char>> {
    let p = ptr_add(params_ptr, (i * PARAM_SIZE) as usize);
    let dtype: u8 = match rsc.spec_u8_at(p, PARAM_DATATYPE) {
        Ok(v) => v,
        Err(_) => 1,
    };
    if dtype != 0 {
        None
    } else {
        let tex = or_zero_u64(rsc.spec_u64_at(p, PARAM_DATAPTR));
        if tex == 0 {
            None
        } else {
            let n = rsc.spec_str_at(or_zero_u64(rsc.spec_u64_at(tex, TEX_NAME_PTR)));
            if n.len() == 0 {
                None
            } else {
                Some(n)
            }
        }
    }
}

/// Texture names of the first `n` parameters, in order.
pub open spec fn tex_names(rsc: Rsc7, params_ptr: u64, n: nat) -> Seq<Seq<char>>
    decreases n,
{
    if n == 0 {
        Seq::empty()
    } else {
        match param_tex_name(rsc, params_ptr, (n - 1) as nat) {
            Some(x) => tex_names(rsc, params_ptr, (n - 1) as nat).push(x),
            None => tex_names(rsc, params_ptr, (n - 1) as nat),
        }
    }
}

/// All texture names of the shader at `sh` (none for a null shader).
pub open spec fn shader_tex_names(rsc: Rsc7, sh: u64) -> Seq<Seq<char>> {
    if sh == 0 {
        Seq::empty()
    } else {
        let params_ptr = or_zero_u64(rsc.spec_u64_at(sh, SHADER_PARAMS_PTR));
        let pcount: u8 = match rsc.spec_u8_at(sh, SHADER_PARAM_COUNT) {
            Ok(v) => v,
            Err(_) => 0,
        };
        tex_names(rsc, params_ptr, pcount as nat)
    }
}

pub open spec fn nth_name(names: Seq<Seq<char>>, k: int) -> Option<Seq<char>> {
    if k < names.len() {
        Some(names[k])
    } else {
        None
    }
}

pub open spec fn spec_shader_info(rsc: Rsc7, sh: u64) -> (Option<Seq<char>>, Option<Seq<char>>) {
    let names = shader_tex_names(rsc, sh);
    (nth_name(names, 0), nth_name(names, 1))
}

/// The shader pointers of the ShaderGroup (empty when there is none).
pub open spec fn spec_shader_ptrs(rsc: Rsc7) -> Result<Seq<u64>, DecodeError> {
    match spec_shader_group(rsc) {
        Err(e) => Err(e),
        Ok(sg) => if sg == 0 {
            Ok(Seq::empty())
        } else {
            match rsc.spec_u64_at(sg, SG_SHADERS_PTR) {
                Err(e) => Err(e),
                Ok(shaders_ptr) => match rsc.spec_u16_at(sg, SG_SHADERS_COUNT) {
                    Err(e) => Err(e),
                    Ok(count) => rsc.spec_ptr_array(shaders_ptr, count as nat),
                },
            }
        },
    }
}

pub open spec fn info_views(v: Seq<ShaderInfo>) -> Seq<(Option<Seq<char>>, Option<Seq<char>>)> {
    v.map_values(|i: ShaderInfo| i@)
}

fn shader_info(rsc: &Rsc7, sh: u64) -> (info: ShaderInfo)
    ensures
        info@ == spec_shader_info(*rsc, sh),
{
    if sh == 0 {
        return ShaderInfo { diffuse: None, normal: None };
    }
    let params_ptr = match rsc.u64_at(sh, SHADER_PARAMS_PTR) {
        Ok(v) => v,
        Err(_) => 0,
    };
    let pcount = match rsc.u8_at(sh, SHADER_PARAM_COUNT) {
        Ok(v) => v,
        Err(_) => 0,
    };
    let mut names: Vec<String> = Vec::new();
    let mut i: usize = 0;
    while i < pcount as usize
        invariant
            i <= pcount,
            names@.map_values(|s: String| s@) == tex_names(*rsc, params_ptr, i as nat),
        decreases pcount - i,
    {
        let p = params_ptr.wrapping_add((i * PARAM_SIZE) as u64);
        let dtype = match rsc.u8_at(p, PARAM_DATATYPE) {
            Ok(v) => v,
            Err(_) => 1,
        };
        if dtype == 0 {
            let tex = match rsc.u64_at(p, PARAM_DATAPTR) {
                Ok(v) => v,
                Err(_) => 0,
            };
            if tex != 0 {
                let name_ptr = match rsc.u64_at(tex, TEX_NAME_PTR) {
                    Ok(v) => v,
                    Err(_) => 0,
                };
                let n = rsc.str_at(name_ptr);
                if !n.as_str().is_empty() {
                    let ghost before = names@;
                    names.push(n);
                    assert(names@.map_values(|s: String| s@) =~= before.map_values(|s: String| s@).push(n@));
                }
            }
        }
        i += 1;
    }
    let ghost all = names@.map_values(|s: String| s@);
    let diffuse = if names.len() > 0 {
        Some(names[0].clone())
    } else {
        None
    };
    let normal = if names.len() > 1 {
        Some(names[1].clone())
    } else {
        None
    };
    ShaderInfo { diffuse, normal }
}

/// Texture names per shader index.
pub fn shader_infos(rsc: &Rsc7) -> (res: Result<Vec<ShaderInfo>, DecodeError>)
    ensures
        match spec_shader_ptrs(*rsc) {
            Err(e) => res matches Err(e2) && e2 == e,
            Ok(ptrs) => res matches Ok(v) && info_views(v@) == ptrs.map_values(|sh: u64| spec_shader_info(*rsc, sh)),
        },
{
    let sg = shader_group(rsc)?;
    if sg == 0 {
        assert(info_views(Seq::<ShaderInfo>::empty()) =~= Seq::<u64>::empty().map_values(|sh: u64| spec_shader_info(*rsc, sh)));
        return Ok(Vec::new());
    }
    let shaders_ptr = rsc.u64_at(sg, SG_SHADERS_PTR)?;
    let count = rsc.u16_at(sg, SG_SHADERS_COUNT)?;
    let shader_ptrs = rsc.ptr_array(shaders_ptr, count as usize)?;
    let mut out: Vec<ShaderInfo> = Vec::new();
    let mut i: usize = 0;
    while i < shader_ptrs.len()
        invariant
            i <= shader_ptrs@.len(),
            out@.len() == i,
            forall|q: int| 0 <= q < i ==> (#[trigger] out@[q])@ == spec_shader_info(*rsc, shader_ptrs@[q]),
        decreases shader_ptrs@.len() - i,
    {
        let info = shader_info(rsc, shader_ptrs[i]);
        out.push(info);
        i += 1;
    }
    assert(info_views(out@) =~= shader_ptrs@.map_values(|sh: u64| spec_shader_info(*rsc, sh)));
    Ok(out)
}

/// The diffuse texture name of each shader.
pub fn diffuse_names(rsc: &Rsc7) -> (res: Result<Vec<Option<String>>, DecodeError>)
    ensures
        match spec_shader_ptrs(*rsc) {
            Err(e) => res matches Err(e2) && e2 == e,
            Ok(ptrs) => res matches Ok(v) && v@.len() == ptrs.len() && forall|i: int|
                0 <= i < ptrs.len() ==> opt_str(#[trigger] v@[i]) == spec_shader_info(*rsc, ptrs[i]).0,
        },
{
    let infos = shader_infos(rsc)?;
    let ghost ptrs = spec_shader_ptrs(*rsc)->Ok_0;
    assert(info_views(infos@).len() == infos@.len());
    let mut out: Vec<Option<String>> = Vec::new();
    let mut i: usize = 0;
    while i < infos.len()
        invariant
            i <= infos@.len(),
            info_views(infos@) == ptrs.map_values(|sh: u64| spec_shader_info(*rsc, sh)),
            out@.len() == i,
            forall|q: int| 0 <= q < i ==> opt_str(#[trigger] out@[q]) == spec_shader_info(*rsc, ptrs[q]).0,
        decreases infos@.len() - i,
    {
        let d = match &infos[i].diffuse {
            Some(s) => Some(s.clone()),
            None => None,
        };
        proof {
            assert(info_views(infos@)[i as int] == infos@[i as int]@);
            assert(info_views(infos@).len() == ptrs.len());
            assert(ptrs.map_values(|sh: u64| spec_shader_info(*rsc, sh))[i as int] == spec_shader_info(*rsc, ptrs[i as int]));
            assert(opt_str(d) == infos@[i as int]@.0);
        }
        out.push(d);
        i += 1;
    }
    Ok(out)
}

} // verus!
