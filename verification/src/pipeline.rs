//! From a vehicle's name to its GVEH wire bytes: find and decode the `.yft`,
//! group its geometry into parts, gather the textures its shaders draw from
//! every dictionary the vehicle uses, and encode the lot.

use vstd::prelude::*;
use rpf_archive::GtaKeys;
use crate::archive::{first_answering, keys_sound, lookup_key, lowercase, Archive, ArchiveError};
use crate::rsc7::{parse_outcome, spec_inflated_body, DecodeError, Rsc7};
use crate::shaders::{diffuse_names, embedded_txd_ptr, spec_embedded_txd_ptr};
use crate::text::{chars_of, concat, string_from_chars};
use crate::parts::{geometry_wf, group, is_well_formed, spec_group};
use crate::shaders::{spec_shader_info, spec_shader_ptrs};
use crate::skeleton::{bone_views, Bone};
use crate::wire::{serialize, spec_serialize};
use crate::yft::{views, Mesh};
use crate::textures::{
    decode_dictionary, decode_dictionary_at, spec_decode_dictionary_at, tex_views, DecodedTexture,
    TextureFormat,
};

verus! {

/// A decoded texture as plain values: name, width, height, format, RGBA bytes.
pub type TexView = (Seq<char>, u32, u32, TextureFormat, Seq<u8>);

// ---- the name -> texture map ---------------------------------------------------

/// The key a texture is looked up by: its name in lower case.
pub open spec fn tex_key(t: TexView) -> Seq<char> {
    lowercase(t.0)
}

/// Whether some texture of `ts` has key `k`.
pub open spec fn has_key(ts: Seq<TexView>, k: Seq<char>) -> bool {
    exists|i: int| 0 <= i < ts.len() && tex_key(#[trigger] ts[i]) == k
}

/// `acc` with the textures of `s` added in order, each only if no texture
/// with its key is there yet: the first texture under a key stays.
pub open spec fn merge(acc: Seq<TexView>, s: Seq<TexView>) -> Seq<TexView>
    decreases s.len(),
{
    if s.len() == 0 {
        acc
    } else {
        let a = merge(acc, s.drop_last());
        if has_key(a, tex_key(s.last())) {
            a
        } else {
            a.push(s.last())
        }
    }
}

/// No two textures of `ts` share a key.
pub open spec fn keys_distinct(ts: Seq<TexView>) -> bool {
    forall|i: int, j: int| 0 <= i < j < ts.len() ==> tex_key(#[trigger] ts[i]) != tex_key(#[trigger] ts[j])
}

/// Position of the first texture of `s` with key `k`.
pub open spec fn first_keyed(s: Seq<TexView>, k: Seq<char>) -> Option<int>
    decreases s.len(),
{
    if s.len() == 0 {
        None
    } else {
        match first_keyed(s.drop_last(), k) {
            Some(i) => Some(i),
            None => if tex_key(s.last()) == k {
                Some(s.len() - 1)
            } else {
                None
            },
        }
    }
}

/// Textures by lower-cased name; where two share a name the one added first
/// is kept.
pub struct TextureMap {
    /// `keys[i]` is the lower-cased name of `textures[i]`.
    pub keys: Vec<String>,
    pub textures: Vec<DecodedTexture>,
}

impl TextureMap {
    pub open spec fn entries(&self) -> Seq<TexView> {
        tex_views(self.textures@)
    }

    pub open spec fn wf(&self) -> bool {
        &&& self.keys@.len() == self.textures@.len()
        &&& forall|i: int| 0 <= i < self.keys@.len() ==> (#[trigger] self.keys@[i])@ == tex_key(self.textures@[i]@)
        &&& keys_distinct(self.entries())
    }

    pub fn new() -> (m: TextureMap)
        ensures
            m.wf(),
            m.entries() == Seq::<TexView>::empty(),
    {
        let m = TextureMap { keys: Vec::new(), textures: Vec::new() };
        assert(m.entries() =~= Seq::<TexView>::empty());
        m
    }

    /// Position of the texture with key `key`.
    fn position(&self, key: &String) -> (r: Option<usize>)
        requires
            self.wf(),
        ensures
            match r {
                Some(i) => i < self.keys@.len() && tex_key(self.entries()[i as int]) == key@,
                None => !has_key(self.entries(), key@),
            },
    {
        let mut i: usize = 0;
        while i < self.keys.len()
            invariant
                self.wf(),
                i <= self.keys@.len(),
                forall|j: int| 0 <= j < i ==> tex_key(#[trigger] self.entries()[j]) != key@,
            decreases self.keys.len() - i,
        {
            if self.keys[i] == *key {
                assert(self.entries()[i as int] == self.textures@[i as int]@);
                return Some(i);
            }
            assert(self.entries()[i as int] == self.textures@[i as int]@);
            i += 1;
        }
        None
    }

    /// Add `texs` in order, each only where no texture of its name is held.
    pub fn add(&mut self, texs: Vec<DecodedTexture>)
        requires
            old(self).wf(),
        ensures
            final(self).wf(),
            final(self).entries() == merge(old(self).entries(), tex_views(texs@)),
    {
        let ghost start = self.entries();
        let ghost all = tex_views(texs@);
        let mut rest = texs;
        let ghost mut done: nat = 0;
        while rest.len() > 0
            invariant
                self.wf(),
                done + rest@.len() == all.len(),
                tex_views(rest@) == all.subrange(done as int, all.len() as int),
                self.entries() == merge(start, all.take(done as int)),
            decreases rest.len(),
        {
            let ghost old_rest = rest@;
            let t = rest.remove(0);
            let key = crate::archive::lower(t.name.as_str());
            proof {
                assert(t == old_rest[0]);
                assert(tex_views(old_rest)[0] == old_rest[0]@);
                assert(all.subrange(done as int, all.len() as int)[0] == all[done as int]);
                assert(t@ == all[done as int]);
                assert(all.take(done + 1int).drop_last() =~= all.take(done as int));
                assert(all.take(done + 1int).last() == all[done as int]);
            }
            match self.position(&key) {
                Some(_) => {},
                None => {
                    let ghost before = self.entries();
                    self.keys.push(key);
                    self.textures.push(t);
                    proof {
                        assert(self.entries() =~= before.push(t@));
                        assert forall|i: int, j: int| 0 <= i < j < self.entries().len() implies tex_key(
                            #[trigger] self.entries()[i],
                        ) != tex_key(#[trigger] self.entries()[j]) by {
                            if j == before.len() {
                                assert(self.entries()[i] == before[i]);
                            } else {
                                assert(self.entries()[i] == before[i]);
                                assert(self.entries()[j] == before[j]);
                            }
                        }
                    }
                },
            }
            proof {
                assert(rest@ =~= old_rest.drop_first());
                assert(tex_views(rest@) =~= tex_views(old_rest).drop_first());
                assert(tex_views(rest@) =~= all.subrange(done + 1int, all.len() as int));
                done = done + 1;
            }
        }
        assert(all.take(done as int) =~= all);
    }

    /// The texture held under `key`.
    pub fn get(&self, key: &String) -> (r: Option<&DecodedTexture>)
        requires
            self.wf(),
        ensures
            match r {
                Some(t) => exists|i: int|
                    0 <= i < self.textures@.len() && *t == self.textures@[i] && tex_key(
                        #[trigger] self.entries()[i],
                    ) == key@,
                None => !has_key(self.entries(), key@),
            },
    {
        match self.position(key) {
            Some(i) => {
                assert(self.entries()[i as int] == self.textures@[i as int]@);
                Some(&self.textures[i])
            },
            None => None,
        }
    }
}

// ---- properties of the map ----------------------------------------------------------

proof fn lemma_merge_prefix(acc: Seq<TexView>, s: Seq<TexView>)
    ensures
        merge(acc, s).len() >= acc.len(),
        merge(acc, s).take(acc.len() as int) == acc,
    decreases s.len(),
{
    if s.len() > 0 {
        lemma_merge_prefix(acc, s.drop_last());
        let a = merge(acc, s.drop_last());
        if !has_key(a, tex_key(s.last())) {
            assert(a.push(s.last()).take(acc.len() as int) =~= a.take(acc.len() as int));
        }
    }
}

proof fn lemma_merge_distinct(acc: Seq<TexView>, s: Seq<TexView>)
    requires
        keys_distinct(acc),
    ensures
        keys_distinct(merge(acc, s)),
    decreases s.len(),
{
    if s.len() > 0 {
        lemma_merge_distinct(acc, s.drop_last());
        let a = merge(acc, s.drop_last());
        if !has_key(a, tex_key(s.last())) {
            let b = a.push(s.last());
            assert forall|i: int, j: int| 0 <= i < j < b.len() implies tex_key(#[trigger] b[i]) != tex_key(
                #[trigger] b[j],
            ) by {
                assert(b[i] == a[i]);
                if j < a.len() {
                    assert(b[j] == a[j]);
                }
            }
        }
    }
}

proof fn lemma_merge_has(acc: Seq<TexView>, s: Seq<TexView>, k: Seq<char>)
    ensures
        has_key(merge(acc, s), k) <==> (has_key(acc, k) || has_key(s, k)),
    decreases s.len(),
{
    if s.len() > 0 {
        let a = merge(acc, s.drop_last());
        lemma_merge_has(acc, s.drop_last(), k);
        if has_key(s.drop_last(), k) {
            let i = choose|i: int| 0 <= i < s.drop_last().len() && tex_key(#[trigger] s.drop_last()[i]) == k;
            assert(s[i] == s.drop_last()[i]);
        }
        if has_key(s, k) && !has_key(s.drop_last(), k) {
            let i = choose|i: int| 0 <= i < s.len() && tex_key(#[trigger] s[i]) == k;
            if i < s.len() - 1 {
                assert(s.drop_last()[i] == s[i]);
            }
            assert(tex_key(s.last()) == k);
        }
        if !has_key(a, tex_key(s.last())) {
            let b = a.push(s.last());
            if has_key(a, k) {
                let i = choose|i: int| 0 <= i < a.len() && tex_key(#[trigger] a[i]) == k;
                assert(b[i] == a[i]);
            }
            if has_key(b, k) && !has_key(a, k) {
                let i = choose|i: int| 0 <= i < b.len() && tex_key(#[trigger] b[i]) == k;
                if i < a.len() {
                    assert(b[i] == a[i]);
                }
            }
            if tex_key(s.last()) == k {
                assert(b[a.len() as int] == s.last());
            }
        } else {
            if tex_key(s.last()) == k {
                assert(s[s.len() - 1] == s.last());
            }
        }
    }
}

/// Adding textures never replaces one already held: what was in the map
/// stays, in place, and only textures with new names follow.
pub proof fn merge_keeps_earlier(acc: Seq<TexView>, s: Seq<TexView>)
    ensures
        merge(acc, s).take(acc.len() as int) == acc,
        forall|i: int| acc.len() <= i < merge(acc, s).len() ==> !has_key(acc, tex_key(#[trigger] merge(acc, s)[i])),
    decreases s.len(),
{
    lemma_merge_prefix(acc, s);
    if s.len() > 0 {
        merge_keeps_earlier(acc, s.drop_last());
        let a = merge(acc, s.drop_last());
        lemma_merge_prefix(acc, s.drop_last());
        if !has_key(a, tex_key(s.last())) {
            let b = a.push(s.last());
            assert forall|i: int| acc.len() <= i < b.len() implies !has_key(acc, tex_key(#[trigger] b[i])) by {
                if i < a.len() {
                    assert(b[i] == a[i]);
                } else {
                    if has_key(acc, tex_key(b[i])) {
                        let j = choose|j: int| 0 <= j < acc.len() && tex_key(#[trigger] acc[j]) == tex_key(b[i]);
                        assert(a.take(acc.len() as int)[j] == a[j]);
                        assert(has_key(a, tex_key(s.last())));
                    }
                }
            }
        }
    }
}

/// A map built from textures in order holds every name among them once,
/// under the texture that came first with that name.
pub proof fn merge_first_wins(s: Seq<TexView>)
    ensures
        keys_distinct(merge(Seq::empty(), s)),
        forall|k: Seq<char>| #[trigger] has_key(merge(Seq::empty(), s), k) <==> has_key(s, k),
        forall|i: int|
            0 <= i < merge(Seq::empty(), s).len() ==> ((#[trigger] first_keyed(
                s,
                tex_key(merge(Seq::empty(), s)[i]),
            )) matches Some(j) && s[j] == merge(Seq::empty(), s)[i]),
    decreases s.len(),
{
    let e = Seq::<TexView>::empty();
    lemma_merge_distinct(e, s);
    assert forall|k: Seq<char>| #[trigger] has_key(merge(e, s), k) <==> has_key(s, k) by {
        lemma_merge_has(e, s, k);
    }
    if s.len() > 0 {
        merge_first_wins(s.drop_last());
        let a = merge(e, s.drop_last());
        let m = merge(e, s);
        assert forall|i: int| 0 <= i < m.len() implies ((#[trigger] first_keyed(s, tex_key(m[i]))) matches Some(j)
            && s[j] == m[i]) by {
            if i < a.len() {
                assert(m[i] == a[i]);
                let k = tex_key(a[i]);
                assert(first_keyed(s.drop_last(), k) matches Some(j) && s.drop_last()[j] == a[i]);
                let j = first_keyed(s.drop_last(), k)->Some_0;
                lemma_first_keyed_range(s.drop_last(), k);
                assert(s[j] == s.drop_last()[j]);
            } else {
                assert(!has_key(a, tex_key(s.last())));
                assert(m[i] == s.last());
                lemma_first_keyed_none(s.drop_last(), tex_key(s.last()));
            }
        }
    }
}

proof fn lemma_first_keyed_range(s: Seq<TexView>, k: Seq<char>)
    ensures
        first_keyed(s, k) matches Some(j) ==> 0 <= j < s.len(),
    decreases s.len(),
{
    if s.len() > 0 {
        lemma_first_keyed_range(s.drop_last(), k);
    }
}

proof fn lemma_first_keyed_none(s: Seq<TexView>, k: Seq<char>)
    requires
        !has_key(s, k),
    ensures
        first_keyed(s, k) is None,
    decreases s.len(),
{
    if s.len() > 0 {
        assert forall|i: int| 0 <= i < s.drop_last().len() implies tex_key(#[trigger] s.drop_last()[i]) != k by {
            assert(s.drop_last()[i] == s[i]);
        }
        lemma_first_keyed_none(s.drop_last(), k);
        assert(s[s.len() - 1] == s.last());
    }
}

// ---- texture sources ---------------------------------------------------------------

/// `s` with every trailing `_hi` removed (`str::trim_end_matches("_hi")`).
pub open spec fn trim_hi(s: Seq<char>) -> Seq<char>
    decreases s.len(),
{
    if s.len() >= 3 && s.subrange(s.len() - 3, s.len() as int) == seq!['_', 'h', 'i'] {
        trim_hi(s.subrange(0, s.len() - 3))
    } else {
        s
    }
}

fn trim_hi_exec(name: &str) -> (r: Vec<char>)
    ensures
        r@ == trim_hi(name@),
{
    let cs = chars_of(name);
    let mut end: usize = cs.len();
    assert(cs@.subrange(0, cs@.len() as int) =~= cs@);
    while end >= 3 && cs[end - 3] == '_' && cs[end - 2] == 'h' && cs[end - 1] == 'i'
        invariant
            end <= cs@.len(),
            trim_hi(cs@.subrange(0, end as int)) == trim_hi(name@),
            cs@ == name@,
        decreases end,
    {
        let ghost pre = cs@.subrange(0, end as int);
        assert(pre.subrange(pre.len() - 3, pre.len() as int) =~= seq!['_', 'h', 'i']);
        assert(pre.subrange(0, pre.len() - 3) =~= cs@.subrange(0, end - 3));
        end = end - 3;
    }
    let ghost pre = cs@.subrange(0, end as int);
    assert(cs@.subrange(0, cs@.len() as int) =~= cs@);
    if end >= 3 {
        assert(pre.subrange(pre.len() - 3, pre.len() as int) != seq!['_', 'h', 'i']) by {
            if pre.subrange(pre.len() - 3, pre.len() as int) == seq!['_', 'h', 'i'] {
                assert(pre.subrange(pre.len() - 3, pre.len() as int)[0] == cs@[end - 3]);
                assert(pre.subrange(pre.len() - 3, pre.len() as int)[1] == cs@[end - 2]);
                assert(pre.subrange(pre.len() - 3, pre.len() as int)[2] == cs@[end - 1]);
            }
        }
    }
    crate::text::head(cs.as_slice(), end)
}

/// Whether `ts` are the textures of the `.ytd` resource bytes `bytes`: none
/// when the resource does not parse or its dictionary does not decode, else
/// the dictionary's textures.
pub open spec fn ytd_views(bytes: Seq<u8>, ts: Seq<TexView>) -> bool {
    match spec_inflated_body(bytes) {
        Err(_) => ts.len() == 0,
        Ok(_) => exists|rsc: Rsc7|
            {
                &&& #[trigger] parse_outcome(bytes, Ok(rsc))
                &&& match spec_decode_dictionary_at(rsc, crate::yft::ROOT) {
                    Ok(x) => ts == x,
                    Err(_) => ts.len() == 0,
                }
            },
    }
}

/// Whether `ts` are the textures the archive's file `name` gives: none when
/// there is no such file or it cannot be extracted with `keys`, else those of
/// its extracted (decrypted, decompressed) bytes.
pub open spec fn source_textures(veh: Archive, keys: &GtaKeys, name: Seq<char>, ts: Seq<TexView>) -> bool {
    match first_answering(veh.files@, lookup_key(name)) {
        None => ts.len() == 0,
        Some(k) => {
            let i = veh.files@[k].entry_index;
            match veh.extracted(i, Some(keys)) {
                None => ts.len() == 0,
                Some(b) => ytd_views(b, ts),
            }
        },
    }
}

/// The textures of a `.ytd` resource's bytes: none when the resource or its
/// dictionary does not decode.
pub fn ytd_textures(bytes: &[u8]) -> (r: Vec<DecodedTexture>)
    ensures
        ytd_views(bytes@, tex_views(r@)),
{
    let r = match Rsc7::parse(bytes) {
        Ok(r) => r,
        Err(_) => {
            let none: Vec<DecodedTexture> = Vec::new();
            assert(tex_views(none@).len() == 0);
            return none;
        },
    };
    assert(parse_outcome(bytes@, Ok(r)));
    match decode_dictionary(&r) {
        Ok(t) => t,
        Err(_) => {
            let none: Vec<DecodedTexture> = Vec::new();
            assert(tex_views(none@).len() == 0);
            none
        },
    }
}

/// The textures of the `.ytd` named `name` in the archive: none when it is
/// not there or cannot be extracted, else `ytd_textures` of its bytes.
pub fn decode_ytd(veh: &Archive, keys: &GtaKeys, name: &str) -> (r: Vec<DecodedTexture>)
    requires
        veh.wf(),
        keys_sound(*keys),
    ensures
        source_textures(*veh, keys, name@, tex_views(r@)),
{
    let none: Vec<DecodedTexture> = Vec::new();
    assert(tex_views(none@).len() == 0);
    let file = match veh.find_file(name) {
        Some(f) => f,
        None => return none,
    };
    proof {
        crate::archive::lemma_first_answering(veh.files@, lookup_key(name@));
    }
    match veh.extract(file, Some(keys)) {
        Ok(b) => ytd_textures(b.as_slice()),
        Err(_) => none,
    }
}

/// `a` followed by `b`, as a `String`.
fn joined(a: &[char], b: &str) -> (r: String)
    ensures
        r@ == a@ + b@,
{
    let bc = chars_of(b);
    let c = concat(a, bc.as_slice());
    string_from_chars(c.as_slice())
}

/// The textures of the dictionary embedded in the `.yft`, or none when it
/// does not decode.
pub open spec fn embedded_textures(rsc: Rsc7) -> Seq<TexView> {
    match spec_decode_dictionary_at(rsc, spec_embedded_txd_ptr(rsc)) {
        Ok(ts) => ts,
        Err(_) => Seq::empty(),
    }
}

/// Whether `m` is the texture map of the vehicle `name` whose `.yft`
/// resource is `rsc`: the merge, in this order, of the dictionary embedded in
/// the `.yft`, the vehicle's own `.ytd`, its `+hi.ytd`, `vehshare.ytd` and
/// `vehshare_worn.ytd` (the vehicle's base name is `name` without trailing
/// `_hi`), each as `source_textures` gives it.
pub open spec fn vehicle_textures(veh: Archive, keys: &GtaKeys, name: Seq<char>, rsc: Rsc7, m: Seq<TexView>) -> bool {
    exists|own: Seq<TexView>, hi: Seq<TexView>, share: Seq<TexView>, worn: Seq<TexView>|
        {
            &&& m == #[trigger] merge(
                merge(merge(merge(merge(Seq::empty(), embedded_textures(rsc)), own), hi), share),
                worn,
            )
            &&& source_textures(veh, keys, trim_hi(name) + ".ytd"@, own)
            &&& source_textures(veh, keys, trim_hi(name) + "+hi.ytd"@, hi)
            &&& source_textures(veh, keys, "vehshare.ytd"@, share)
            &&& source_textures(veh, keys, "vehshare_worn.ytd"@, worn)
        }
}

/// A name -> texture map from every source a vehicle draws from (see
/// `vehicle_textures`). Names are lower-cased; earlier sources win.
#[verifier::spinoff_prover]
pub fn texture_map(veh: &Archive, keys: &GtaKeys, name: &str, yft_rsc: &Rsc7) -> (m: TextureMap)
    requires
        veh.wf(),
        keys_sound(*keys),
    ensures
        m.wf(),
        vehicle_textures(*veh, keys, name@, *yft_rsc, m.entries()),
{
    let mut map = TextureMap::new();
    let embedded = embedded_txd_ptr(yft_rsc);
    match decode_dictionary_at(yft_rsc, embedded) {
        Ok(texs) => map.add(texs),
        Err(_) => {
            map.add(Vec::new());
            assert(tex_views(Seq::<DecodedTexture>::empty()) =~= Seq::<TexView>::empty());
        },
    }
    let ghost first = map.entries();
    assert(first == merge(Seq::empty(), embedded_textures(*yft_rsc)));
    let base = trim_hi_exec(name);
    let own_name = joined(base.as_slice(), ".ytd");
    let hi_name = joined(base.as_slice(), "+hi.ytd");
    let own = decode_ytd(veh, keys, own_name.as_str());
    let hi = decode_ytd(veh, keys, hi_name.as_str());
    let share = decode_ytd(veh, keys, "vehshare.ytd");
    let worn = decode_ytd(veh, keys, "vehshare_worn.ytd");
    let ghost (o, h, sh, w) = (tex_views(own@), tex_views(hi@), tex_views(share@), tex_views(worn@));
    map.add(own);
    map.add(hi);
    map.add(share);
    map.add(worn);
    assert(map.entries() == merge(merge(merge(merge(first, o), h), sh), w));
    assert(source_textures(*veh, keys, trim_hi(name@) + ".ytd"@, o));
    assert(source_textures(*veh, keys, trim_hi(name@) + "+hi.ytd"@, h));
    map
}

// ---- per-shader texture list ---------------------------------------------------------

/// Largest side of a texture sent to the client.
pub const TEXTURE_MAX_SIDE: u32 = 128;

/// A side of length `d` scaled so that the longer side `big` becomes
/// `TEXTURE_MAX_SIDE` (at least 1).
pub open spec fn scaled_side(d: nat, big: nat) -> nat {
    let s = d * (TEXTURE_MAX_SIDE as nat) / big;
    if s == 0 {
        1
    } else {
        s
    }
}

/// Byte `k` of an `nw` x `nh` nearest-neighbour sample of the `w` x `h` RGBA
/// image `px` (0 where the source pixel lies past the end of `px`).
pub open spec fn sample(px: Seq<u8>, w: nat, h: nat, nw: nat, nh: nat, k: int) -> u8 {
    let p = k / 4;
    let x = p % (nw as int);
    let y = p / (nw as int);
    let sx = x * w / (nw as int);
    let sy = y * h / (nh as int);
    let src = (sy * w + sx) * 4 + k % 4;
    if src < px.len() {
        px[src]
    } else {
        0
    }
}

/// A texture shrunk, keeping its aspect, so that neither side exceeds
/// `TEXTURE_MAX_SIDE`; one that already fits is left as it is.
pub open spec fn spec_downscale(t: TexView) -> TexView {
    if t.1 <= TEXTURE_MAX_SIDE && t.2 <= TEXTURE_MAX_SIDE {
        t
    } else {
        let big: nat = if t.1 >= t.2 { t.1 as nat } else { t.2 as nat };
        let nw = scaled_side(t.1 as nat, big);
        let nh = scaled_side(t.2 as nat, big);
        (t.0, nw as u32, nh as u32, t.3, Seq::new(nw * nh * 4, |k: int| sample(t.4, t.1 as nat, t.2 as nat, nw, nh, k)))
    }
}

fn copy_texture(t: &DecodedTexture) -> (r: DecodedTexture)
    ensures
        r@ == t@,
{
    let rgba = t.rgba.clone();
    assert(rgba@ =~= t.rgba@);
    DecodedTexture { name: t.name.clone(), width: t.width, height: t.height, format: t.format, rgba }
}

proof fn lemma_side_bound(d: nat, big: nat)
    requires
        d <= big,
        0 < big,
    ensures
        1 <= scaled_side(d, big) <= TEXTURE_MAX_SIDE,
{
    assert(d * 128 <= big * 128) by (nonlinear_arith)
        requires
            d <= big,
    ;
    assert(d * 128 / big <= 128) by (nonlinear_arith)
        requires
            d * 128 <= big * 128,
            big > 0,
    ;
}

proof fn lemma_sample_bounds(p: nat, nw: nat, nh: nat, w: nat, h: nat)
    requires
        p < nw * nh,
        0 < nw,
        0 < nh,
    ensures
        (p as int / nw as int) < nh,
        (p as int % nw as int) < nw,
        (p as int / nw as int) * h / (nh as int) <= h,
        (p as int % nw as int) * w / (nw as int) <= w,
{
    let x = p as int % nw as int;
    let y = p as int / nw as int;
    assert(y < nh) by (nonlinear_arith)
        requires
            p < nw * nh,
            0 < nw,
            y == p as int / nw as int,
    ;
    assert(0 <= x < nw) by (nonlinear_arith)
        requires
            0 < nw,
            x == p as int % nw as int,
    ;
    assert(0 <= y);
    assert(y * h / (nh as int) <= h) by (nonlinear_arith)
        requires
            0 <= y < nh,
            0 <= h,
    ;
    assert(x * w / (nw as int) <= w) by (nonlinear_arith)
        requires
            0 <= x < nw,
            0 <= w,
    ;
}

/// `t` shrunk to fit `TEXTURE_MAX_SIDE` (see `spec_downscale`).
pub fn downscale(t: &DecodedTexture) -> (r: DecodedTexture)
    ensures
        r@ == spec_downscale(t@),
{
    let w = t.width;
    let h = t.height;
    if w <= TEXTURE_MAX_SIDE && h <= TEXTURE_MAX_SIDE {
        return copy_texture(t);
    }
    let big: u64 = if w >= h { w as u64 } else { h as u64 };
    proof {
        lemma_side_bound(w as nat, big as nat);
        lemma_side_bound(h as nat, big as nat);
    }
    let nw0: u64 = (w as u64) * 128 / big;
    let nh0: u64 = (h as u64) * 128 / big;
    let nw: u64 = if nw0 == 0 { 1 } else { nw0 };
    let nh: u64 = if nh0 == 0 { 1 } else { nh0 };
    assert(nw == scaled_side(w as nat, big as nat) && nh == scaled_side(h as nat, big as nat));
    assert(nw * nh <= 128 * 128) by (nonlinear_arith)
        requires
            1 <= nw <= 128,
            1 <= nh <= 128,
    ;
    let total: u64 = nw * nh * 4;
    let ghost px = t.rgba@;
    let len = t.rgba.len();
    let mut out: Vec<u8> = Vec::new();
    let mut k: u64 = 0;
    while k < total
        invariant
            k <= total,
            total == nw * nh * 4,
            1 <= nw <= 128,
            1 <= nh <= 128,
            px == t.rgba@,
            len == px.len(),
            out@.len() == k,
            forall|j: int| 0 <= j < k ==> out@[j] == #[trigger] sample(px, w as nat, h as nat, nw as nat, nh as nat, j),
        decreases total - k,
    {
        let p = k / 4;
        let c = k % 4;
        let x = p % nw;
        let y = p / nw;
        proof {
            assert(p < nw * nh) by (nonlinear_arith)
                requires
                    k < nw * nh * 4,
                    p == k / 4,
            ;
            lemma_sample_bounds(p as nat, nw as nat, nh as nat, w as nat, h as nat);
        }
        assert(x * (w as u64) <= 128 * 0xFFFF_FFFF) by (nonlinear_arith)
            requires
                x < 128,
                w <= 0xFFFF_FFFF,
        ;
        assert(y * (h as u64) <= 128 * 0xFFFF_FFFF) by (nonlinear_arith)
            requires
                y < 128,
                h <= 0xFFFF_FFFF,
        ;
        let sx = x * (w as u64) / nw;
        let sy = y * (h as u64) / nh;
        assert(sy * w + sx <= 0xFFFF_FFFF * 0xFFFF_FFFF + 0xFFFF_FFFF) by (nonlinear_arith)
            requires
                sy <= h,
                sx <= w,
                h <= 0xFFFF_FFFF,
                w <= 0xFFFF_FFFF,
        ;
        let base: u64 = sy * (w as u64) + sx;
        let src: u128 = (base as u128) * 4 + (c as u128);
        let v: u8 = if src < len as u128 {
            t.rgba[src as usize]
        } else {
            0
        };
        assert(v == sample(px, w as nat, h as nat, nw as nat, nh as nat, k as int));
        out.push(v);
        k = k + 1;
    }
    let nwv = nw as u32;
    let nhv = nh as u32;
    let r = DecodedTexture { name: t.name.clone(), width: nwv, height: nhv, format: t.format, rgba: out };
    assert(r.rgba@ =~= Seq::new(
        (nw as nat) * (nh as nat) * 4,
        |j: int| sample(px, w as nat, h as nat, nw as nat, nh as nat, j),
    ));
    r
}

/// Position of the first `key` in `ks`.
pub open spec fn seq_position(ks: Seq<Seq<char>>, key: Seq<char>) -> Option<int>
    decreases ks.len(),
{
    if ks.len() == 0 {
        None
    } else {
        match seq_position(ks.drop_last(), key) {
            Some(i) => Some(i),
            None => if ks.last() == key {
                Some(ks.len() - 1)
            } else {
                None
            },
        }
    }
}

/// The diffuse names of the shaders as plain values.
pub open spec fn name_views(names: Seq<Option<String>>) -> Seq<Option<Seq<char>>> {
    names.map_values(|o: Option<String>| crate::shaders::opt_str(o))
}

/// After the first `n` shaders: the textures picked (each downscaled, each
/// once), their keys, and each shader's index into them (-1: none).
pub open spec fn pick(names: Seq<Option<Seq<char>>>, m: Seq<TexView>, n: nat) -> (Seq<TexView>, Seq<Seq<char>>, Seq<i16>)
    decreases n,
{
    if n == 0 {
        (Seq::empty(), Seq::empty(), Seq::empty())
    } else {
        let (ts, ks, ix) = pick(names, m, (n - 1) as nat);
        match names[n - 1] {
            None => (ts, ks, ix.push(-1i16)),
            Some(nm) => {
                let key = lowercase(nm);
                match first_keyed(m, key) {
                    None => (ts, ks, ix.push(-1i16)),
                    Some(mi) => match seq_position(ks, key) {
                        Some(i) => (ts, ks, ix.push(i as i16)),
                        None => (ts.push(spec_downscale(m[mi])), ks.push(key), ix.push(ts.len() as i16)),
                    },
                }
            },
        }
    }
}

proof fn lemma_distinct_first(m: Seq<TexView>, i: int)
    requires
        keys_distinct(m),
        0 <= i < m.len(),
    ensures
        first_keyed(m, tex_key(m[i])) == Some(i),
    decreases m.len(),
{
    if i == m.len() - 1 {
        assert forall|j: int| 0 <= j < m.drop_last().len() implies tex_key(#[trigger] m.drop_last()[j]) != tex_key(m[i]) by {
            assert(m.drop_last()[j] == m[j]);
        }
        lemma_first_keyed_none(m.drop_last(), tex_key(m[i]));
    } else {
        assert(keys_distinct(m.drop_last())) by {
            assert forall|a: int, b: int| 0 <= a < b < m.drop_last().len() implies tex_key(#[trigger] m.drop_last()[a])
                != tex_key(#[trigger] m.drop_last()[b]) by {
                assert(m.drop_last()[a] == m[a]);
                assert(m.drop_last()[b] == m[b]);
            }
        }
        assert(m.drop_last()[i] == m[i]);
        lemma_distinct_first(m.drop_last(), i);
    }
}

fn key_position(ks: &Vec<String>, key: &String) -> (r: Option<usize>)
    ensures
        match r {
            Some(i) => seq_position(ks@.map_values(|s: String| s@), key@) == Some(i as int),
            None => seq_position(ks@.map_values(|s: String| s@), key@) is None,
        },
{
    let ghost kv = ks@.map_values(|s: String| s@);
    let mut i: usize = 0;
    while i < ks.len()
        invariant
            i <= ks@.len(),
            kv == ks@.map_values(|s: String| s@),
            seq_position(kv.take(i as int), key@) is None,
        decreases ks.len() - i,
    {
        assert(kv.take(i + 1).drop_last() =~= kv.take(i as int));
        assert(kv.take(i + 1).last() == ks@[i as int]@);
        if ks[i] == *key {
            proof {
                lemma_position_prefix(kv, key@, i as int);
            }
            return Some(i);
        }
        i += 1;
    }
    assert(kv.take(ks@.len() as int) =~= kv);
    None
}

proof fn lemma_position_prefix(ks: Seq<Seq<char>>, key: Seq<char>, i: int)
    requires
        0 <= i < ks.len(),
        seq_position(ks.take(i + 1), key) == Some(i),
    ensures
        seq_position(ks, key) == Some(i),
    decreases ks.len(),
{
    if ks.len() == i + 1 {
        assert(ks.take(i + 1) =~= ks);
    } else {
        assert(ks.drop_last().take(i + 1) =~= ks.take(i + 1));
        lemma_position_prefix(ks.drop_last(), key, i);
    }
}

/// The textures the shaders draw (each found in `map` under its lower-cased
/// name, downscaled, and listed once) and, per shader, the index of its
/// texture in that list or -1.
pub fn shader_textures(names: &[Option<String>], map: &TextureMap) -> (res: (Vec<DecodedTexture>, Vec<i16>))
    requires
        map.wf(),
    ensures
        tex_views(res.0@) == pick(name_views(names@), map.entries(), names@.len()).0,
        res.1@ == pick(name_views(names@), map.entries(), names@.len()).2,
{
    let ghost nv = name_views(names@);
    let ghost m = map.entries();
    let mut textures: Vec<DecodedTexture> = Vec::new();
    let mut by_name: Vec<String> = Vec::new();
    let mut idx: Vec<i16> = Vec::new();
    let mut si: usize = 0;
    while si < names.len()
        invariant
            si <= names@.len(),
            map.wf(),
            nv == name_views(names@),
            m == map.entries(),
            (tex_views(textures@), by_name@.map_values(|s: String| s@), idx@) == pick(nv, m, si as nat),
        decreases names.len() - si,
    {
        assert(nv[si as int] == crate::shaders::opt_str(names@[si as int]));
        let ghost prev = pick(nv, m, si as nat);
        let ghost ks0 = by_name@.map_values(|s: String| s@);
        match &names[si] {
            None => {
                idx.push(-1);
                assert(pick(nv, m, (si + 1) as nat) == (prev.0, prev.1, prev.2.push(-1i16)));
            },
            Some(tname) => {
                let key = crate::archive::lower(tname.as_str());
                match map.get(&key) {
                    None => {
                        proof {
                            lemma_first_keyed_none(m, key@);
                        }
                        idx.push(-1);
                    },
                    Some(tex) => {
                        proof {
                            let i = choose|i: int|
                                0 <= i < map.textures@.len() && *tex == map.textures@[i] && tex_key(
                                    #[trigger] map.entries()[i],
                                ) == key@;
                            lemma_distinct_first(m, i);
                            assert(m[i] == map.textures@[i]@);
                        }
                        match key_position(&by_name, &key) {
                            Some(i) => {
                                idx.push(#[verifier::truncate] (i as i16));
                                assert(nv[si as int] == Some(tname@));
                                assert(key@ == lowercase(tname@));
                                assert(first_keyed(m, key@) is Some);
                                assert(seq_position(prev.1, key@) == Some(i as int));
                                assert(pick(nv, m, (si + 1) as nat) == (prev.0, prev.1, prev.2.push(#[verifier::truncate] ((i as int) as i16))));
                            },
                            None => {
                                let i = #[verifier::truncate] (textures.len() as i16);
                                let small = downscale(tex);
                                let ghost before_t = textures@;
                                let ghost before_k = by_name@;
                                textures.push(small);
                                by_name.push(key);
                                idx.push(i);
                                proof {
                                    assert(tex_views(textures@) =~= tex_views(before_t).push(small@));
                                    assert(by_name@.map_values(|s: String| s@) =~= before_k.map_values(
                                        |s: String| s@,
                                    ).push(key@));
                                }
                            },
                        }
                    },
                }
            },
        }
        si += 1;
    }
    (textures, idx)
}

// ---- the vehicle -----------------------------------------------------------------------

/// Why a vehicle could not be built.
pub enum PipelineError {
    /// No file of that name in the archive.
    NotFound(String),
    /// The archive could not give the file's bytes.
    Archive(ArchiveError),
    /// The resource does not decode.
    Decode(DecodeError),
    /// The geometry at this position has an index or an attribute list that
    /// does not fit its vertices.
    Malformed(usize),
}

/// A vehicle's decoded `.yft`: the resource, its mesh and its skeleton.
pub struct VehicleModel {
    pub rsc: Rsc7,
    pub mesh: Mesh,
    pub bones: Vec<Bone>,
}

/// Whether `r` is what reading the resource bytes `b` gives: the resource
/// `Rsc7::parse` makes of them, or its error.
pub open spec fn resource_outcome(b: Seq<u8>, r: Result<Rsc7, PipelineError>) -> bool {
    match r {
        Ok(rsc) => parse_outcome(b, Ok(rsc)),
        Err(PipelineError::Decode(e)) => parse_outcome(b, Err(e)),
        Err(_) => false,
    }
}

/// Whether `r` is what decoding the `.yft` resource bytes `b` gives: the
/// parse error; else a model whose resource is what the bytes parse to (its
/// mesh and skeleton as `load_model` states); else the error of decoding the
/// mesh, or failing that of parsing the skeleton, of that resource.
pub open spec fn model_outcome(b: Seq<u8>, r: Result<VehicleModel, PipelineError>) -> bool {
    match spec_inflated_body(b) {
        Err(e) => r matches Err(PipelineError::Decode(x)) && x == e,
        Ok(_) => match r {
            Ok(m) => parse_outcome(b, Ok(m.rsc)),
            Err(PipelineError::Decode(e)) => exists|rsc: Rsc7|
                {
                    &&& #[trigger] parse_outcome(b, Ok(rsc))
                    &&& match crate::yft::spec_decode(rsc) {
                        Err(x) => x == e,
                        Ok(_) => crate::skeleton::spec_parse(rsc) matches Err(x) && x == e,
                    }
                },
            Err(_) => false,
        },
    }
}

/// The RSC7 resource `file_name` of the archive, extracted and inflated.
pub fn read_resource(veh: &Archive, keys: &GtaKeys, file_name: &str) -> (r: Result<Rsc7, PipelineError>)
    requires
        veh.wf(),
        keys_sound(*keys),
    ensures
        first_answering(veh.files@, lookup_key(file_name@)) is None <==> r matches Err(
            PipelineError::NotFound(_),
        ),
        r matches Err(PipelineError::NotFound(n)) ==> n@ == file_name@,
        first_answering(veh.files@, lookup_key(file_name@)) matches Some(k) ==> {
            let i = veh.files@[k].entry_index;
            match veh.extracted(i, Some(keys)) {
                None => r matches Err(PipelineError::Archive(_)),
                Some(b) => resource_outcome(b, r),
            }
        },
{
    let file = match veh.find_file(file_name) {
        Some(f) => f,
        None => {
            return Err(PipelineError::NotFound(file_name.to_owned()));
        },
    };
    proof {
        crate::archive::lemma_first_answering(veh.files@, lookup_key(file_name@));
    }
    let bytes = match veh.extract(file, Some(keys)) {
        Ok(b) => b,
        Err(e) => return Err(PipelineError::Archive(e)),
    };
    match Rsc7::parse(bytes.as_slice()) {
        Ok(r) => Ok(r),
        Err(e) => Err(PipelineError::Decode(e)),
    }
}

/// Find, extract and decode `{name}.yft`: its mesh and its skeleton.
pub fn load_model(veh: &Archive, keys: &GtaKeys, name: &str) -> (r: Result<VehicleModel, PipelineError>)
    requires
        veh.wf(),
        keys_sound(*keys),
    ensures
        first_answering(veh.files@, lookup_key(name@ + ".yft"@)) is None <==> r matches Err(
            PipelineError::NotFound(_),
        ),
        r matches Err(PipelineError::NotFound(n)) ==> n@ == name@ + ".yft"@,
        r matches Ok(m) ==> (crate::yft::spec_decode(m.rsc) matches Ok((gs, cs)) && views(m.mesh.geometries@) == gs
            && m.mesh.children@ == cs),
        r matches Ok(m) ==> crate::skeleton::spec_parse(m.rsc) == Ok::<_, DecodeError>(bone_views(m.bones@)),
        first_answering(veh.files@, lookup_key(name@ + ".yft"@)) matches Some(k) ==> {
            let i = veh.files@[k].entry_index;
            match veh.extracted(i, Some(keys)) {
                None => r matches Err(PipelineError::Archive(_)),
                Some(b) => model_outcome(b, r),
            }
        },
{
    let nc = chars_of(name);
    let yft_name = joined(nc.as_slice(), ".yft");
    let rsc = match read_resource(veh, keys, yft_name.as_str()) {
        Ok(r) => r,
        Err(e) => return Err(e),
    };
    let mesh = match crate::yft::decode(&rsc) {
        Ok(m) => m,
        Err(e) => return Err(PipelineError::Decode(e)),
    };
    let bones = match crate::skeleton::parse(&rsc) {
        Ok(b) => b,
        Err(e) => return Err(PipelineError::Decode(e)),
    };
    Ok(VehicleModel { rsc, mesh, bones })
}

/// Each shader's diffuse texture name, or none at all where the shader list
/// does not decode.
pub open spec fn shader_names(rsc: Rsc7) -> Seq<Option<Seq<char>>> {
    match spec_shader_ptrs(rsc) {
        Err(_) => Seq::empty(),
        Ok(ptrs) => ptrs.map_values(|sh: u64| spec_shader_info(rsc, sh).0),
    }
}

/// The first geometry that is not well formed.
pub open spec fn first_malformed(gs: Seq<crate::yft::GeometryView>) -> Option<int>
    decreases gs.len(),
{
    if gs.len() == 0 {
        None
    } else {
        match first_malformed(gs.drop_last()) {
            Some(i) => Some(i),
            None => if !geometry_wf(gs.last()) {
                Some(gs.len() - 1)
            } else {
                None
            },
        }
    }
}

proof fn lemma_no_malformed(gs: Seq<crate::yft::GeometryView>)
    requires
        first_malformed(gs) is None,
    ensures
        forall|i: int| 0 <= i < gs.len() ==> geometry_wf(#[trigger] gs[i]),
    decreases gs.len(),
{
    if gs.len() > 0 {
        lemma_no_malformed(gs.drop_last());
        assert forall|i: int| 0 <= i < gs.len() implies geometry_wf(#[trigger] gs[i]) by {
            if i < gs.len() - 1 {
                assert(gs.drop_last()[i] == gs[i]);
            }
        }
    }
}

/// The wire bytes of a vehicle: its parts (`world` is each bone's world rest
/// transform, as f32 bits) and, when asked for, the textures its shaders
/// draw, found among every dictionary the vehicle uses (see `texture_map`),
/// downscaled and listed once, with each shader's index into that list.
#[verifier::spinoff_prover]
pub fn build_vehicle(
    veh: &Archive,
    keys: &GtaKeys,
    name: &str,
    model: &VehicleModel,
    world: &[([u32; 3], [u32; 4])],
    include_textures: bool,
) -> (r: Result<Vec<u8>, PipelineError>)
    requires
        veh.wf(),
        keys_sound(*keys),
    ensures
        match first_malformed(views(model.mesh.geometries@)) {
            Some(i) => r matches Err(PipelineError::Malformed(j)) && j == i,
            None => r is Ok,
        },
        r matches Ok(b) ==> exists|ts: Seq<DecodedTexture>, ix: Seq<i16>|
            {
                &&& b@ == spec_serialize(spec_group(views(model.mesh.geometries@), model.bones@, world@), ts, ix)
                &&& !include_textures ==> ts.len() == 0 && ix.len() == 0
                &&& include_textures ==> exists|m: Seq<TexView>|
                    {
                        &&& vehicle_textures(*veh, keys, name@, model.rsc, m)
                        &&& keys_distinct(m)
                        &&& tex_views(ts) == pick(shader_names(model.rsc), m, shader_names(model.rsc).len()).0
                        &&& ix == pick(shader_names(model.rsc), m, shader_names(model.rsc).len()).2
                    }
            },
{
    let ghost gs = views(model.mesh.geometries@);
    let mut gi: usize = 0;
    while gi < model.mesh.geometries.len()
        invariant
            gi <= model.mesh.geometries@.len(),
            gs == views(model.mesh.geometries@),
            first_malformed(gs.take(gi as int)) is None,
        decreases model.mesh.geometries.len() - gi,
    {
        assert(gs.take(gi + 1).drop_last() =~= gs.take(gi as int));
        assert(gs.take(gi + 1).last() == model.mesh.geometries@[gi as int]@);
        if !is_well_formed(&model.mesh.geometries[gi]) {
            proof {
                lemma_malformed_prefix(gs, gi as int);
            }
            return Err(PipelineError::Malformed(gi));
        }
        gi += 1;
    }
    assert(gs.take(gs.len() as int) =~= gs);
    proof {
        lemma_no_malformed(gs);
        assert forall|i: int| 0 <= i < model.mesh.geometries@.len() implies geometry_wf(
            #[trigger] model.mesh.geometries@[i]@,
        ) by {
            assert(gs[i] == model.mesh.geometries@[i]@);
        }
    }
    let parts = group(&model.mesh, model.bones.as_slice(), world);
    let ghost pv = spec_group(gs, model.bones@, world@);
    if !include_textures {
        let texs: Vec<DecodedTexture> = Vec::new();
        let idx: Vec<i16> = Vec::new();
        let out = serialize(parts.as_slice(), texs.as_slice(), idx.as_slice());
        assert(out@ == spec_serialize(pv, texs@, idx@));
        return Ok(out);
    }
    let names = match diffuse_names(&model.rsc) {
        Ok(n) => n,
        Err(_) => Vec::new(),
    };
    assert(name_views(names@) =~= shader_names(model.rsc));
    let map = texture_map(veh, keys, name, &model.rsc);
    let (texs, idx) = shader_textures(names.as_slice(), &map);
    let out = serialize(parts.as_slice(), texs.as_slice(), idx.as_slice());
    assert(out@ == spec_serialize(pv, texs@, idx@));
    assert(keys_distinct(map.entries()));
    Ok(out)
}

proof fn lemma_malformed_prefix(gs: Seq<crate::yft::GeometryView>, i: int)
    requires
        0 <= i < gs.len(),
        first_malformed(gs.take(i)) is None,
        !geometry_wf(gs[i]),
    ensures
        first_malformed(gs) == Some(i),
    decreases gs.len(),
{
    assert(gs.take(i + 1).drop_last() =~= gs.take(i));
    assert(gs.take(i + 1).last() == gs[i]);
    if gs.len() == i + 1 {
        assert(gs.take(i + 1) =~= gs);
    } else {
        assert(gs.drop_last().take(i) =~= gs.take(i));
        assert(gs.drop_last()[i] == gs[i]);
        lemma_malformed_prefix(gs.drop_last(), i);
    }
}

// ---- properties of the texture list ---------------------------------------------------

/// A downscaled texture fits `TEXTURE_MAX_SIDE` on both sides and keeps its
/// name and format; one that is shrunk holds exactly its new size in RGBA.
pub proof fn downscale_fits(t: TexView)
    ensures
        spec_downscale(t).1 <= TEXTURE_MAX_SIDE,
        spec_downscale(t).2 <= TEXTURE_MAX_SIDE || spec_downscale(t) == t,
        spec_downscale(t).0 == t.0,
        spec_downscale(t).3 == t.3,
        spec_downscale(t) != t ==> spec_downscale(t).4.len() == (spec_downscale(t).1 as nat) * (
        spec_downscale(t).2 as nat) * 4,
{
    if !(t.1 <= TEXTURE_MAX_SIDE && t.2 <= TEXTURE_MAX_SIDE) {
        let big: nat = if t.1 >= t.2 { t.1 as nat } else { t.2 as nat };
        lemma_side_bound(t.1 as nat, big);
        lemma_side_bound(t.2 as nat, big);
    }
}

proof fn lemma_seq_position(ks: Seq<Seq<char>>, key: Seq<char>)
    ensures
        seq_position(ks, key) matches Some(i) ==> 0 <= i < ks.len() && ks[i] == key,
        seq_position(ks, key) is None ==> forall|i: int| 0 <= i < ks.len() ==> ks[i] != key,
    decreases ks.len(),
{
    if ks.len() > 0 {
        lemma_seq_position(ks.drop_last(), key);
        assert forall|i: int| 0 <= i < ks.len() - 1 implies ks[i] == ks.drop_last()[i] by {}
    }
}

/// Shader `i`'s index is -1 exactly when it has no diffuse name or the map
/// holds no texture of that name; otherwise it points into the list, at the
/// downscaled texture the map holds under that name. The list names each
/// texture once.
pub proof fn pick_points_at_named(names: Seq<Option<Seq<char>>>, m: Seq<TexView>, n: nat)
    requires
        n <= names.len(),
        n < 0x8000,
    ensures
        pick(names, m, n).2.len() == n,
        pick(names, m, n).0.len() == pick(names, m, n).1.len(),
        pick(names, m, n).0.len() <= n,
        forall|a: int, b: int| 0 <= a < b < pick(names, m, n).1.len() ==> #[trigger] pick(names, m, n).1[a] != #[trigger] pick(names, m, n).1[b],
        forall|j: int|
            0 <= j < pick(names, m, n).1.len() ==> (first_keyed(m, #[trigger] pick(names, m, n).1[j]) matches Some(mj)
                && pick(names, m, n).0[j] == spec_downscale(m[mj])),
        forall|i: int|
            0 <= i < n ==> {
                let x = #[trigger] pick(names, m, n).2[i];
                match names[i] {
                    None => x == -1,
                    Some(nm) => match first_keyed(m, lowercase(nm)) {
                        None => x == -1,
                        Some(mi) => {
                            &&& 0 <= x < pick(names, m, n).0.len()
                            &&& pick(names, m, n).1[x as int] == lowercase(nm)
                            &&& pick(names, m, n).0[x as int] == spec_downscale(m[mi])
                        },
                    },
                }
            },
    decreases n,
{
    if n > 0 {
        let k = (n - 1) as nat;
        pick_points_at_named(names, m, k);
        let (ts, ks, ix) = pick(names, m, k);
        let (ts2, ks2, ix2) = pick(names, m, n);
        assert forall|i: int| 0 <= i < k implies ix2[i] == ix[i] by {}
        assert forall|i: int| 0 <= i < ts.len() implies ts2[i] == ts[i] && ks2[i] == ks[i] by {}
        assert forall|j: int| 0 <= j < ks.len() implies (first_keyed(m, #[trigger] ks2[j]) matches Some(mj)
            && ts2[j] == spec_downscale(m[mj])) by {
            assert(ks2[j] == ks[j]);
            assert(ts2[j] == ts[j]);
        }
        match names[k as int] {
            None => {},
            Some(nm) => {
                let key = lowercase(nm);
                match first_keyed(m, key) {
                    None => {},
                    Some(mi) => {
                        lemma_seq_position(ks, key);
                        match seq_position(ks, key) {
                            Some(p) => {
                                assert(ix2[k as int] == p as i16);
                                assert((p as i16) as int == p);
                            },
                            None => {
                                assert(ix2[k as int] == ts.len() as i16);
                                assert((ts.len() as i16) as int == ts.len());
                            },
                        }
                    },
                }
            },
        }
        assert forall|i: int| 0 <= i < n implies {
            let x = #[trigger] pick(names, m, n).2[i];
            match names[i] {
                None => x == -1,
                Some(nm) => match first_keyed(m, lowercase(nm)) {
                    None => x == -1,
                    Some(mi) => {
                        &&& 0 <= x < pick(names, m, n).0.len()
                        &&& pick(names, m, n).1[x as int] == lowercase(nm)
                        &&& pick(names, m, n).0[x as int] == spec_downscale(m[mi])
                    },
                },
            }
        } by {
            if i < k {
                assert(ix2[i] == ix[i]);
                let x = ix[i];
                if let Some(nm) = names[i] {
                    if first_keyed(m, lowercase(nm)) is Some {
                        assert(0 <= x < ts.len());
                        assert(ts2[x as int] == ts[x as int]);
                        assert(ks2[x as int] == ks[x as int]);
                    }
                }
            }
        }
    }
}


proof fn lemma_first_keyed_some(s: Seq<TexView>, k: Seq<char>)
    requires
        has_key(s, k),
    ensures
        first_keyed(s, k) matches Some(j) && 0 <= j < s.len() && tex_key(s[j]) == k,
    decreases s.len(),
{
    let i = choose|i: int| 0 <= i < s.len() && tex_key(#[trigger] s[i]) == k;
    if i < s.len() - 1 {
        assert(s.drop_last()[i] == s[i]);
        lemma_first_keyed_some(s.drop_last(), k);
        let j = first_keyed(s.drop_last(), k)->Some_0;
        assert(s.drop_last()[j] == s[j]);
    } else {
        if has_key(s.drop_last(), k) {
            lemma_first_keyed_some(s.drop_last(), k);
            let j = first_keyed(s.drop_last(), k)->Some_0;
            assert(s.drop_last()[j] == s[j]);
        } else {
            lemma_first_keyed_none(s.drop_last(), k);
        }
    }
}

proof fn lemma_first_keyed_prefix(m: Seq<TexView>, e: Seq<TexView>, k: Seq<char>)
    requires
        e.len() <= m.len(),
        m.take(e.len() as int) == e,
        first_keyed(e, k) is Some,
    ensures
        first_keyed(m, k) == first_keyed(e, k),
    decreases m.len(),
{
    if m.len() == e.len() {
        assert(m =~= e);
    } else {
        assert(m.drop_last().take(e.len() as int) =~= m.take(e.len() as int));
        lemma_first_keyed_prefix(m.drop_last(), e, k);
    }
}

proof fn lemma_embedded_is_dictionary(rsc: Rsc7)
    requires
        spec_decode_dictionary_at(rsc, spec_embedded_txd_ptr(rsc)) is Ok,
    ensures
        embedded_textures(rsc) == spec_decode_dictionary_at(rsc, spec_embedded_txd_ptr(rsc))->Ok_0,
{
}

proof fn lemma_take_chain(a: Seq<TexView>, s: Seq<TexView>, e: Seq<TexView>)
    requires
        e.len() <= a.len(),
        a.take(e.len() as int) == e,
    ensures
        merge(a, s).len() >= e.len(),
        merge(a, s).take(e.len() as int) == e,
{
    lemma_merge_prefix(a, s);
    assert(merge(a, s).take(e.len() as int) =~= merge(a, s).take(a.len() as int).take(e.len() as int));
}

/// The dictionary embedded in a vehicle's `.yft` comes before every `.ytd`:
/// looking up any name it holds in the vehicle's texture map gives its own
/// texture of that name (the first, where it holds several), whatever the
/// `.ytd` sources hold.
pub proof fn embedded_textures_win(veh: Archive, keys: &GtaKeys, name: Seq<char>, rsc: Rsc7, m: Seq<TexView>, k: Seq<char>)
    requires
        vehicle_textures(veh, keys, name, rsc, m),
        spec_decode_dictionary_at(rsc, spec_embedded_txd_ptr(rsc)) matches Ok(ts) && has_key(ts, k),
    ensures
        ({
            let ts = spec_decode_dictionary_at(rsc, spec_embedded_txd_ptr(rsc))->Ok_0;
            &&& first_keyed(m, k) matches Some(j)
            &&& first_keyed(ts, k) matches Some(i)
            &&& 0 <= j < m.len()
            &&& 0 <= i < ts.len()
            &&& m[j] == ts[i]
        }),
{
    let ts = spec_decode_dictionary_at(rsc, spec_embedded_txd_ptr(rsc))->Ok_0;
    let (own, hi, share, worn) = choose|own: Seq<TexView>, hi: Seq<TexView>, share: Seq<TexView>, worn: Seq<TexView>|
        {
            &&& m == #[trigger] merge(
                merge(merge(merge(merge(Seq::empty(), embedded_textures(rsc)), own), hi), share),
                worn,
            )
            &&& source_textures(veh, keys, trim_hi(name) + ".ytd"@, own)
            &&& source_textures(veh, keys, trim_hi(name) + "+hi.ytd"@, hi)
            &&& source_textures(veh, keys, "vehshare.ytd"@, share)
            &&& source_textures(veh, keys, "vehshare_worn.ytd"@, worn)
        };
    let e = merge(Seq::empty(), ts);
    lemma_embedded_is_dictionary(rsc);
    assert(e.take(e.len() as int) =~= e);
    lemma_take_chain(e, own, e);
    lemma_take_chain(merge(e, own), hi, e);
    lemma_take_chain(merge(merge(e, own), hi), share, e);
    lemma_take_chain(merge(merge(merge(e, own), hi), share), worn, e);
    merge_first_wins(ts);
    assert(has_key(e, k));
    lemma_first_keyed_some(e, k);
    let x = first_keyed(e, k)->Some_0;
    lemma_first_keyed_prefix(m, e, k);
    assert(first_keyed(ts, tex_key(e[x])) matches Some(i) && ts[i] == e[x]);
    lemma_first_keyed_range(ts, k);
    assert(m[x] == e[x]) by {
        assert(m.take(e.len() as int)[x] == m[x]);
    }
}

} // verus!
