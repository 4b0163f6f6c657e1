//! GTA5 `handling.meta` (plain XML): locating one vehicle's CHandlingData
//! block and the text of its scalar and vector fields.
//!
//! handling.meta is a flat XML list of `<Item type="CHandlingData">` blocks.
//! The fields needed are simple `<fName value="N" />` scalars and
//! `<vecName x="X" y="Y" z="Z" />` vectors, and each vehicle's fields live
//! between its `<handlingName>` tag and the next one. The numbers themselves
//! are parsed by the caller.

use vstd::prelude::*;
use crate::text::{chars_of, concat, find, find_first, head, string_from_chars, tail};

verus! {

pub open spec fn opt_chars(o: Option<String>) -> Option<Seq<char>> {
    match o {
        Some(s) => Some(s@),
        None => None,
    }
}

pub open spec fn value_needle(tag: Seq<char>) -> Seq<char> {
    seq!['<'] + tag + seq![' ', 'v', 'a', 'l', 'u', 'e', '=', '"']
}

/// The text of `<tag value="TEXT"` in `block` (first occurrence), up to the
/// closing quote.
pub open spec fn spec_value_text(block: Seq<char>, tag: Seq<char>) -> Option<Seq<char>> {
    let needle = value_needle(tag);
    match find_first(block, needle) {
        None => None,
        Some(i) => {
            let rest = block.subrange(i + needle.len(), block.len() as int);
            match find_first(rest, seq!['"']) {
                None => None,
                Some(e) => Some(rest.subrange(0, e)),
            }
        },
    }
}

/// The text of attribute `a="TEXT"` in `seg`.
pub open spec fn spec_attr_text(seg: Seq<char>, a: char) -> Option<Seq<char>> {
    match find_first(seg, seq![a, '=', '"']) {
        None => None,
        Some(p) => {
            let s = seg.subrange(p + 3, seg.len() as int);
            match find_first(s, seq!['"']) {
                None => None,
                Some(e) => Some(s.subrange(0, e)),
            }
        },
    }
}

/// The x, y, z attribute texts of `<tag ... />` in `block` (`None` when the
/// tag is absent; the element ends at the first `/>`, or the block's end).
pub open spec fn spec_vec3_text(block: Seq<char>, tag: Seq<char>) -> Option<(Option<Seq<char>>, Option<Seq<char>>, Option<Seq<char>>)> {
    match find_first(block, seq!['<'] + tag + seq![' ']) {
        None => None,
        Some(i) => {
            let rest = block.subrange(i, block.len() as int);
            let end = match find_first(rest, seq!['/', '>']) {
                Some(e) => e,
                None => rest.len() as int,
            };
            let seg = rest.subrange(0, end);
            Some((spec_attr_text(seg, 'x'), spec_attr_text(seg, 'y'), spec_attr_text(seg, 'z')))
        },
    }
}

pub open spec fn name_needle(name: Seq<char>) -> Seq<char> {
    seq!['<', 'h', 'a', 'n', 'd', 'l', 'i', 'n', 'g', 'N', 'a', 'm', 'e', '>'] + name + seq![
        '<',
        '/',
        'h',
        'a',
        'n',
        'd',
        'l',
        'i',
        'n',
        'g',
        'N',
        'a',
        'm',
        'e',
        '>',
    ]
}

/// A vehicle's block: from its exact `<handlingName>NAME</handlingName>` tag
/// up to the next `<handlingName>` (or the end of the file).
pub open spec fn spec_block(xml: Seq<char>, name: Seq<char>) -> Option<Seq<char>> {
    let needle = name_needle(name);
    match find_first(xml, needle) {
        None => None,
        Some(start) => {
            let rest = xml.subrange(start, xml.len() as int);
            let after = rest.subrange(needle.len() as int, rest.len() as int);
            let end = match find_first(
                after,
                seq!['<', 'h', 'a', 'n', 'd', 'l', 'i', 'n', 'g', 'N', 'a', 'm', 'e', '>'],
            ) {
                Some(i) => needle.len() + i,
                None => rest.len() as int,
            };
            Some(rest.subrange(0, end))
        },
    }
}

/// The text of `<tag value="TEXT"`.
pub fn value_text(block: &[char], tag: &[char]) -> (r: Option<Vec<char>>)
    ensures
        match r {
            Some(v) => spec_value_text(block@, tag@) == Some(v@),
            None => spec_value_text(block@, tag@) is None,
        },
{
    let pre = vec!['<'];
    let post = vec![' ', 'v', 'a', 'l', 'u', 'e', '=', '"'];
    let a = concat(pre.as_slice(), tag);
    let needle = concat(a.as_slice(), post.as_slice());
    assert(needle@ =~= value_needle(tag@));
    let i = match find(block, needle.as_slice()) {
        Some(i) => i,
        None => return None,
    };
    proof {
        crate::text::lemma_find_first(block@, needle@);
    }
    let blen = block.len();
    assert(i + needle.len() <= blen);
    let rest = tail(block, i + needle.len());
    let quote = vec!['"'];
    assert(quote@ =~= seq!['"']);
    let e = match find(rest.as_slice(), quote.as_slice()) {
        Some(e) => e,
        None => return None,
    };
    proof {
        crate::text::lemma_find_first(rest@, quote@);
    }
    Some(head(rest.as_slice(), e))
}

fn attr_text(seg: &[char], a: char) -> (r: Option<Vec<char>>)
    ensures
        match r {
            Some(v) => spec_attr_text(seg@, a) == Some(v@),
            None => spec_attr_text(seg@, a) is None,
        },
{
    let n = vec![a, '=', '"'];
    assert(n@ =~= seq![a, '=', '"']);
    let p = match find(seg, n.as_slice()) {
        Some(p) => p,
        None => return None,
    };
    proof {
        crate::text::lemma_find_first(seg@, n@);
    }
    let slen = seg.len();
    assert(p + 3 <= slen);
    let s = tail(seg, p + 3);
    let quote = vec!['"'];
    assert(quote@ =~= seq!['"']);
    let e = match find(s.as_slice(), quote.as_slice()) {
        Some(e) => e,
        None => return None,
    };
    proof {
        crate::text::lemma_find_first(s@, quote@);
    }
    Some(head(s.as_slice(), e))
}

/// The x, y, z attribute texts of a vector field.
pub struct Vec3Text {
    pub x: Option<String>,
    pub y: Option<String>,
    pub z: Option<String>,
}

pub open spec fn vec3_view(v: Option<Vec3Text>) -> Option<(Option<Seq<char>>, Option<Seq<char>>, Option<Seq<char>>)> {
    match v {
        Some(t) => Some((opt_chars(t.x), opt_chars(t.y), opt_chars(t.z))),
        None => None,
    }
}

fn opt_string(v: Option<Vec<char>>) -> (s: Option<String>)
    ensures
        opt_chars(s) == match v {
            Some(c) => Some(c@),
            None => None::<Seq<char>>,
        },
{
    match v {
        Some(c) => Some(string_from_chars(c.as_slice())),
        None => None,
    }
}

/// The x, y, z texts of `<tag x="X" y="Y" z="Z" />`.
pub fn vec3_text(block: &[char], tag: &[char]) -> (r: Option<Vec3Text>)
    ensures
        vec3_view(r) == spec_vec3_text(block@, tag@),
{
    let pre = vec!['<'];
    let post = vec![' '];
    let a = concat(pre.as_slice(), tag);
    let needle = concat(a.as_slice(), post.as_slice());
    assert(needle@ =~= seq!['<'] + tag@ + seq![' ']);
    let i = match find(block, needle.as_slice()) {
        Some(i) => i,
        None => return None,
    };
    proof {
        crate::text::lemma_find_first(block@, needle@);
    }
    let rest = tail(block, i);
    let close = vec!['/', '>'];
    assert(close@ =~= seq!['/', '>']);
    let end = match find(rest.as_slice(), close.as_slice()) {
        Some(e) => {
            proof {
                crate::text::lemma_find_first(rest@, close@);
            }
            e
        },
        None => rest.len(),
    };
    let seg = head(rest.as_slice(), end);
    let x = opt_string(attr_text(seg.as_slice(), 'x'));
    let y = opt_string(attr_text(seg.as_slice(), 'y'));
    let z = opt_string(attr_text(seg.as_slice(), 'z'));
    Some(Vec3Text { x, y, z })
}

/// A vehicle's handling block, looked up by its exact handlingName.
pub fn handling_block(xml: &[char], name: &[char]) -> (r: Option<Vec<char>>)
    ensures
        match r {
            Some(v) => spec_block(xml@, name@) == Some(v@),
            None => spec_block(xml@, name@) is None,
        },
{
    let open_tag = vec!['<', 'h', 'a', 'n', 'd', 'l', 'i', 'n', 'g', 'N', 'a', 'm', 'e', '>'];
    let close_tag = vec!['<', '/', 'h', 'a', 'n', 'd', 'l', 'i', 'n', 'g', 'N', 'a', 'm', 'e', '>'];
    let a = concat(open_tag.as_slice(), name);
    let needle = concat(a.as_slice(), close_tag.as_slice());
    assert(needle@ =~= name_needle(name@));
    let start = match find(xml, needle.as_slice()) {
        Some(s) => s,
        None => return None,
    };
    proof {
        crate::text::lemma_find_first(xml@, needle@);
    }
    let rest = tail(xml, start);
    let after = tail(rest.as_slice(), needle.len());
    assert(open_tag@ =~= seq!['<', 'h', 'a', 'n', 'd', 'l', 'i', 'n', 'g', 'N', 'a', 'm', 'e', '>']);
    let end = match find(after.as_slice(), open_tag.as_slice()) {
        Some(i) => {
            proof {
                crate::text::lemma_find_first(after@, open_tag@);
            }
            assert(needle.len() + i <= rest.len());
            needle.len() + i
        },
        None => rest.len(),
    };
    Some(head(rest.as_slice(), end))
}

/// The raw texts of one vehicle's handling fields.
pub struct HandlingText {
    pub mass: Option<String>,
    pub drag_coeff: Option<String>,
    pub drive_bias_front: Option<String>,
    pub drive_gears: Option<String>,
    pub drive_force: Option<String>,
    pub drive_max_flat_vel: Option<String>,
    pub brake_force: Option<String>,
    pub brake_bias_front: Option<String>,
    pub handbrake_force: Option<String>,
    pub steering_lock: Option<String>,
    pub traction_curve_max: Option<String>,
    pub traction_curve_min: Option<String>,
    pub traction_curve_lateral: Option<String>,
    pub traction_bias_front: Option<String>,
    pub low_speed_traction_loss: Option<String>,
    pub suspension_force: Option<String>,
    pub suspension_comp_damp: Option<String>,
    pub suspension_rebound_damp: Option<String>,
    pub suspension_upper_limit: Option<String>,
    pub suspension_lower_limit: Option<String>,
    pub suspension_raise: Option<String>,
    pub suspension_bias_front: Option<String>,
    pub anti_roll_force: Option<String>,
    pub anti_roll_bias_front: Option<String>,
    pub seat_offset_x: Option<String>,
    pub seat_offset_y: Option<String>,
    pub seat_offset_z: Option<String>,
    pub com_offset: Option<Vec3Text>,
    pub inertia_mult: Option<Vec3Text>,
}

fn field(block: &Vec<char>, tag: &str) -> (r: Option<String>)
    ensures
        opt_chars(r) == spec_value_text(block@, tag@),
{
    let t = chars_of(tag);
    opt_string(value_text(block.as_slice(), t.as_slice()))
}

fn vec_field(block: &Vec<char>, tag: &str) -> (r: Option<Vec3Text>)
    ensures
        vec3_view(r) == spec_vec3_text(block@, tag@),
{
    let t = chars_of(tag);
    vec3_text(block.as_slice(), t.as_slice())
}

/// Look up a vehicle's handling block by `<handlingName>NAME</handlingName>`
/// (exact tag, so `ZION` does not match `ZION2`) and extract its field texts.
pub fn parse_fields(xml: &str, name: &str) -> (res: Option<HandlingText>)
    ensures
        res is Some <==> spec_block(xml@, name@) is Some,
            res matches Some(h) ==> opt_chars(h.mass) == spec_value_text(spec_block(xml@, name@)->Some_0, "fMass"@),
            res matches Some(h) ==> opt_chars(h.drag_coeff) == spec_value_text(spec_block(xml@, name@)->Some_0, "fInitialDragCoeff"@),
            res matches Some(h) ==> opt_chars(h.drive_bias_front) == spec_value_text(spec_block(xml@, name@)->Some_0, "fDriveBiasFront"@),
            res matches Some(h) ==> opt_chars(h.drive_gears) == spec_value_text(spec_block(xml@, name@)->Some_0, "nInitialDriveGears"@),
            res matches Some(h) ==> opt_chars(h.drive_force) == spec_value_text(spec_block(xml@, name@)->Some_0, "fInitialDriveForce"@),
            res matches Some(h) ==> opt_chars(h.drive_max_flat_vel) == spec_value_text(spec_block(xml@, name@)->Some_0, "fInitialDriveMaxFlatVel"@),
            res matches Some(h) ==> opt_chars(h.brake_force) == spec_value_text(spec_block(xml@, name@)->Some_0, "fBrakeForce"@),
            res matches Some(h) ==> opt_chars(h.brake_bias_front) == spec_value_text(spec_block(xml@, name@)->Some_0, "fBrakeBiasFront"@),
            res matches Some(h) ==> opt_chars(h.handbrake_force) == spec_value_text(spec_block(xml@, name@)->Some_0, "fHandBrakeForce"@),
            res matches Some(h) ==> opt_chars(h.steering_lock) == spec_value_text(spec_block(xml@, name@)->Some_0, "fSteeringLock"@),
            res matches Some(h) ==> opt_chars(h.traction_curve_max) == spec_value_text(spec_block(xml@, name@)->Some_0, "fTractionCurveMax"@),
            res matches Some(h) ==> opt_chars(h.traction_curve_min) == spec_value_text(spec_block(xml@, name@)->Some_0, "fTractionCurveMin"@),
            res matches Some(h) ==> opt_chars(h.traction_curve_lateral) == spec_value_text(spec_block(xml@, name@)->Some_0, "fTractionCurveLateral"@),
            res matches Some(h) ==> opt_chars(h.traction_bias_front) == spec_value_text(spec_block(xml@, name@)->Some_0, "fTractionBiasFront"@),
            res matches Some(h) ==> opt_chars(h.low_speed_traction_loss) == spec_value_text(spec_block(xml@, name@)->Some_0, "fLowSpeedTractionLossMult"@),
            res matches Some(h) ==> opt_chars(h.suspension_force) == spec_value_text(spec_block(xml@, name@)->Some_0, "fSuspensionForce"@),
            res matches Some(h) ==> opt_chars(h.suspension_comp_damp) == spec_value_text(spec_block(xml@, name@)->Some_0, "fSuspensionCompDamp"@),
            res matches Some(h) ==> opt_chars(h.suspension_rebound_damp) == spec_value_text(spec_block(xml@, name@)->Some_0, "fSuspensionReboundDamp"@),
            res matches Some(h) ==> opt_chars(h.suspension_upper_limit) == spec_value_text(spec_block(xml@, name@)->Some_0, "fSuspensionUpperLimit"@),
            res matches Some(h) ==> opt_chars(h.suspension_lower_limit) == spec_value_text(spec_block(xml@, name@)->Some_0, "fSuspensionLowerLimit"@),
            res matches Some(h) ==> opt_chars(h.suspension_raise) == spec_value_text(spec_block(xml@, name@)->Some_0, "fSuspensionRaise"@),
            res matches Some(h) ==> opt_chars(h.suspension_bias_front) == spec_value_text(spec_block(xml@, name@)->Some_0, "fSuspensionBiasFront"@),
            res matches Some(h) ==> opt_chars(h.anti_roll_force) == spec_value_text(spec_block(xml@, name@)->Some_0, "fAntiRollBarForce"@),
            res matches Some(h) ==> opt_chars(h.anti_roll_bias_front) == spec_value_text(spec_block(xml@, name@)->Some_0, "fAntiRollBarBiasFront"@),
            res matches Some(h) ==> opt_chars(h.seat_offset_x) == spec_value_text(spec_block(xml@, name@)->Some_0, "fSeatOffsetDistX"@),
            res matches Some(h) ==> opt_chars(h.seat_offset_y) == spec_value_text(spec_block(xml@, name@)->Some_0, "fSeatOffsetDistY"@),
            res matches Some(h) ==> opt_chars(h.seat_offset_z) == spec_value_text(spec_block(xml@, name@)->Some_0, "fSeatOffsetDistZ"@),
            res matches Some(h) ==> vec3_view(h.com_offset) == spec_vec3_text(spec_block(xml@, name@)->Some_0, "vecCentreOfMassOffset"@),
            res matches Some(h) ==> vec3_view(h.inertia_mult) == spec_vec3_text(spec_block(xml@, name@)->Some_0, "vecInertiaMultiplier"@),
{
    let x = chars_of(xml);
    let n = chars_of(name);
    let b = match handling_block(x.as_slice(), n.as_slice()) {
        Some(b) => b,
        None => return None,
    };
    let mass = field(&b, "fMass");
    let drag_coeff = field(&b, "fInitialDragCoeff");
    let drive_bias_front = field(&b, "fDriveBiasFront");
    let drive_gears = field(&b, "nInitialDriveGears");
    let drive_force = field(&b, "fInitialDriveForce");
    let drive_max_flat_vel = field(&b, "fInitialDriveMaxFlatVel");
    let brake_force = field(&b, "fBrakeForce");
    let brake_bias_front = field(&b, "fBrakeBiasFront");
    let handbrake_force = field(&b, "fHandBrakeForce");
    let steering_lock = field(&b, "fSteeringLock");
    let traction_curve_max = field(&b, "fTractionCurveMax");
    let traction_curve_min = field(&b, "fTractionCurveMin");
    let traction_curve_lateral = field(&b, "fTractionCurveLateral");
    let traction_bias_front = field(&b, "fTractionBiasFront");
    let low_speed_traction_loss = field(&b, "fLowSpeedTractionLossMult");
    let suspension_force = field(&b, "fSuspensionForce");
    let suspension_comp_damp = field(&b, "fSuspensionCompDamp");
    let suspension_rebound_damp = field(&b, "fSuspensionReboundDamp");
    let suspension_upper_limit = field(&b, "fSuspensionUpperLimit");
    let suspension_lower_limit = field(&b, "fSuspensionLowerLimit");
    let suspension_raise = field(&b, "fSuspensionRaise");
    let suspension_bias_front = field(&b, "fSuspensionBiasFront");
    let anti_roll_force = field(&b, "fAntiRollBarForce");
    let anti_roll_bias_front = field(&b, "fAntiRollBarBiasFront");
    let seat_offset_x = field(&b, "fSeatOffsetDistX");
    let seat_offset_y = field(&b, "fSeatOffsetDistY");
    let seat_offset_z = field(&b, "fSeatOffsetDistZ");
    let com_offset = vec_field(&b, "vecCentreOfMassOffset");
    let inertia_mult = vec_field(&b, "vecInertiaMultiplier");
    Some(HandlingText { mass, drag_coeff, drive_bias_front, drive_gears, drive_force, drive_max_flat_vel, brake_force, brake_bias_front, handbrake_force, steering_lock, traction_curve_max, traction_curve_min, traction_curve_lateral, traction_bias_front, low_speed_traction_loss, suspension_force, suspension_comp_damp, suspension_rebound_damp, suspension_upper_limit, suspension_lower_limit, suspension_raise, suspension_bias_front, anti_roll_force, anti_roll_bias_front, seat_offset_x, seat_offset_y, seat_offset_z, com_offset, inertia_mult })
}

/// The `<handlingName>` opening tag.
pub open spec fn name_open_tag() -> Seq<char> {
    seq!['<', 'h', 'a', 'n', 'd', 'l', 'i', 'n', 'g', 'N', 'a', 'm', 'e', '>']
}

/// A vehicle's block begins with its own exact
/// `<handlingName>NAME</handlingName>` tag, so a vehicle whose name merely
/// begins with NAME (`ZION2` for `ZION`) is not taken for it, and past that
/// tag the block holds no other `<handlingName>`.
pub proof fn block_is_exact_vehicle(xml: Seq<char>, name: Seq<char>)
    ensures
        spec_block(xml, name) matches Some(b) ==> {
            &&& b.len() >= name_needle(name).len()
            &&& b.subrange(0, name_needle(name).len() as int) == name_needle(name)
            &&& forall|j: int|
                name_needle(name).len() <= j ==> !crate::text::matches_at(b, name_open_tag(), j)
        },
{
    let needle = name_needle(name);
    crate::text::lemma_find_first(xml, needle);
    if let Some(start) = find_first(xml, needle) {
        let rest = xml.subrange(start, xml.len() as int);
        let after = rest.subrange(needle.len() as int, rest.len() as int);
        let tag = name_open_tag();
        assert(tag =~= seq!['<', 'h', 'a', 'n', 'd', 'l', 'i', 'n', 'g', 'N', 'a', 'm', 'e', '>']);
        crate::text::lemma_find_first(after, tag);
        let b = spec_block(xml, name)->Some_0;
        assert(b.subrange(0, needle.len() as int) =~= needle);
        assert forall|j: int| needle.len() <= j implies !crate::text::matches_at(b, tag, j) by {
            if crate::text::matches_at(b, tag, j) {
                let k = j - needle.len();
                assert(after.subrange(k, k + tag.len()) =~= b.subrange(j, j + tag.len()));
                assert(crate::text::matches_at(after, tag, k));
            }
        }
    }
}

} // verus!
