use gtaveh::parts::{articulated_hinge, extract, group, is_well_formed, F32_ONE, HINGE_MAX_ANGLE};
use gtaveh::skeleton::Bone;
use gtaveh::yft::{Geometry, Mesh};

fn chars(s: &str) -> Vec<char> {
    s.chars().collect()
}

fn bone(name: &str) -> Bone {
    Bone { index: 0, name: name.into(), tag: 0, parent: -1, translation: [0; 3], rotation: [0; 4], scale: [0; 3] }
}

/// Six vertices, two triangles: the first weighted to bone 0, the second to bone 1.
fn skinned() -> Geometry {
    let positions: Vec<[u32; 3]> = (0..6).map(|i| [i, 0, 0]).collect();
    Geometry {
        shader_index: 2,
        positions,
        normals: vec![],
        uvs: (0..6).map(|i| [i, i]).collect(),
        colors: vec![],
        indices: vec![0, 1, 2, 3, 4, 5],
        stride: 36,
        fvf_flags: 0,
        fvf_types: 0,
        part: "body".into(),
        skinned: true,
        bone_idx: vec![[0, 1, 0, 0], [0, 0, 0, 0], [0, 0, 0, 0], [1, 0, 0, 0], [1, 0, 0, 0], [1, 0, 0, 0]],
        bone_wt: vec![[200, 55, 0, 0], [255, 0, 0, 0], [255, 0, 0, 0], [255, 0, 0, 0], [255, 0, 0, 0], [255, 0, 0, 0]],
        transform: None,
    }
}

#[test]
fn hinge_axes() {
    assert_eq!(articulated_hinge(&chars("door_dside_f")), Some([0, 0, F32_ONE]));
    assert_eq!(articulated_hinge(&chars("door_")), Some([0, 0, F32_ONE]));
    assert_eq!(articulated_hinge(&chars("bonnet")), Some([F32_ONE, 0, 0]));
    assert_eq!(articulated_hinge(&chars("hood")), Some([F32_ONE, 0, 0]));
    assert_eq!(articulated_hinge(&chars("boot")), Some([F32_ONE, 0, 0]));
    assert_eq!(articulated_hinge(&chars("boots")), None);
    assert_eq!(articulated_hinge(&chars("wheel_lf")), None);
    assert_eq!(articulated_hinge(&chars("door")), None);
    assert_eq!(F32_ONE, 1.0f32.to_bits());
    assert_eq!(HINGE_MAX_ANGLE, 1.22f32.to_bits());
}

#[test]
fn well_formed_geometry() {
    let g = skinned();
    assert!(is_well_formed(&g));
    let mut bad = skinned();
    bad.indices[4] = 6;
    assert!(!is_well_formed(&bad));
    let mut short_uvs = skinned();
    short_uvs.uvs.pop();
    assert!(!is_well_formed(&short_uvs));
    // a trailing partial triangle is not walked, so its index is not checked
    let mut tail = skinned();
    tail.indices.push(99);
    assert!(is_well_formed(&tail));
    // attribute lists longer than the vertex list are fine
    let mut long = skinned();
    long.uvs.push([9, 9]);
    long.normals = (0..7).map(|i| [i, 1, 0]).collect();
    long.bone_idx.push([0, 0, 0, 0]);
    long.bone_wt.push([255, 0, 0, 0]);
    assert!(is_well_formed(&long));
    let mut short_weights = skinned();
    short_weights.bone_wt.pop();
    assert!(!is_well_formed(&short_weights));
    // shorter lists are fine as long as every vertex a triangle uses is in them
    let mut first_only = skinned();
    first_only.indices.truncate(3);
    first_only.uvs.truncate(3);
    first_only.normals = vec![[0, 0, 1]; 3];
    first_only.bone_idx.truncate(3);
    first_only.bone_wt.truncate(3);
    assert!(is_well_formed(&first_only));
    first_only.normals.pop();
    assert!(!is_well_formed(&first_only));
}

#[test]
fn extract_reads_only_used_vertices() {
    let mut g = skinned();
    g.uvs.truncate(3);
    g.bone_idx.truncate(3);
    g.bone_wt.truncate(3);
    let e = extract(&g, &vec![(2, 0, 1)]);
    assert_eq!(e.positions, vec![[2, 0, 0], [0, 0, 0], [1, 0, 0]]);
    assert_eq!(e.uvs, vec![[2, 2], [0, 0], [1, 1]]);
    assert_eq!(e.indices, vec![0, 1, 2]);
}

#[test]
fn extract_reads_longer_attribute_lists() {
    let mut g = skinned();
    g.normals = (0..8).map(|i| [0, i, 0]).collect();
    g.uvs.push([7, 7]);
    let e = extract(&g, &vec![(3, 4, 5)]);
    assert_eq!(e.positions, vec![[3, 0, 0], [4, 0, 0], [5, 0, 0]]);
    assert_eq!(e.normals, vec![[0, 3, 0], [0, 4, 0], [0, 5, 0]]);
    assert_eq!(e.uvs, vec![[3, 3], [4, 4], [5, 5]]);
}

#[test]
fn extract_remaps_vertices() {
    let g = skinned();
    let e = extract(&g, &vec![(3, 4, 5), (5, 3, 4)]);
    assert_eq!(e.positions, vec![[3, 0, 0], [4, 0, 0], [5, 0, 0]]);
    assert_eq!(e.uvs, vec![[3, 3], [4, 4], [5, 5]]);
    assert_eq!(e.indices, vec![0, 1, 2, 2, 0, 1]);
    assert_eq!(e.bone_idx.len(), 3);
    assert_eq!(e.shader_index, 2);
    assert!(e.normals.is_empty());
}

#[test]
fn extract_keeps_triangle_count() {
    let g = skinned();
    let tris = vec![(0, 1, 2), (0, 1, 2), (3, 4, 5)];
    let e = extract(&g, &tris);
    assert_eq!(e.indices.len(), 3 * tris.len());
    assert_eq!(e.positions.len(), 6);
}

#[test]
fn group_splits_door_from_body() {
    let mesh = Mesh { geometries: vec![skinned()], children: vec![] };
    let bones = vec![bone("chassis"), bone("door_dside_f")];
    let world = vec![([1, 2, 3], [0; 4]), ([4, 5, 6], [0; 4])];
    let parts = group(&mesh, &bones, &world);
    assert_eq!(parts.len(), 2);
    assert_eq!(parts[0].name, "body");
    assert!(!parts[0].articulated && parts[0].hinge.is_none());
    assert_eq!(parts[0].geometries.len(), 1);
    assert_eq!(parts[0].geometries[0].positions, vec![[0, 0, 0], [1, 0, 0], [2, 0, 0]]);
    assert_eq!(parts[1].name, "door_dside_f");
    assert!(parts[1].articulated);
    let h = parts[1].hinge.as_ref().unwrap();
    assert_eq!(h.pos, [4, 5, 6]);
    assert_eq!(h.axis, [0, 0, F32_ONE]);
    assert_eq!((h.min_angle, h.max_angle), (0, HINGE_MAX_ANGLE));
    assert_eq!(parts[1].geometries[0].positions, vec![[3, 0, 0], [4, 0, 0], [5, 0, 0]]);
    // every triangle lands in exactly one part
    let tris: usize = parts.iter().flat_map(|p| p.geometries.iter()).map(|g| g.indices.len() / 3).sum();
    assert_eq!(tris, 2);
}

#[test]
fn dominant_bone_by_summed_weight() {
    // corner 0 gives bone 1 weight 55, but bone 0 carries 200 + 255 + 255
    let mut g = skinned();
    g.indices = vec![0, 1, 2];
    let mesh = Mesh { geometries: vec![g], children: vec![] };
    let bones = vec![bone("chassis"), bone("bonnet")];
    let parts = group(&mesh, &bones, &[]);
    assert_eq!(parts.len(), 1);
    assert_eq!(parts[0].geometries[0].indices.len(), 3);
    // bone 1 wins once it carries the most
    let mut g2 = skinned();
    g2.indices = vec![0, 1, 2];
    g2.bone_idx = vec![[1, 0, 0, 0], [1, 0, 0, 0], [0, 0, 0, 0]];
    let mesh2 = Mesh { geometries: vec![g2], children: vec![] };
    let parts2 = group(&mesh2, &bones, &[]);
    assert_eq!(parts2.len(), 2);
    assert_eq!(parts2[1].name, "bonnet");
    assert!(parts2[0].geometries.is_empty());
    // no world entry: the hinge sits at the origin
    assert_eq!(parts2[1].hinge.as_ref().unwrap().pos, [0, 0, 0]);
    assert_eq!(parts2[1].hinge.as_ref().unwrap().axis, [F32_ONE, 0, 0]);
}

#[test]
fn unskinned_goes_to_body() {
    let mut g = skinned();
    g.skinned = false;
    let mesh = Mesh { geometries: vec![g], children: vec![] };
    let parts = group(&mesh, &[bone("door_pside_f")], &[]);
    assert_eq!(parts.len(), 1);
    assert_eq!(parts[0].geometries[0].indices.len(), 6);
}
