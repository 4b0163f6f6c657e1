use gtaveh::parts::{Hinge, Part};
use gtaveh::textures::{DecodedTexture, TextureFormat};
use gtaveh::wire::serialize;
use gtaveh::yft::Geometry;

fn geometry(shader: u16, positions: Vec<[u32; 3]>, normals: Vec<[u32; 3]>, uvs: Vec<[u32; 2]>, indices: Vec<u32>) -> Geometry {
    Geometry {
        shader_index: shader,
        positions,
        normals,
        uvs,
        colors: vec![],
        indices,
        stride: 0,
        fvf_flags: 0,
        fvf_types: 0,
        part: String::new(),
        skinned: false,
        bone_idx: vec![],
        bone_wt: vec![],
        transform: None,
    }
}

#[test]
fn empty_blob_is_the_header() {
    let b = serialize(&[], &[], &[]);
    assert_eq!(b, vec![b'G', b'V', b'E', b'H', 3, 0, 0, 0, 0, 0, 0, 0, 0, 0, 0, 0]);
}

#[test]
fn header_counts() {
    let parts = vec![
        Part { name: "body".into(), articulated: false, hinge: None, geometries: vec![] },
        Part { name: "b".into(), articulated: false, hinge: None, geometries: vec![] },
    ];
    let texs = vec![DecodedTexture { name: "t".into(), width: 0, height: 0, format: TextureFormat::DXT1, rgba: vec![] }];
    let b = serialize(&parts, &texs, &[]);
    assert_eq!(&b[0..4], b"GVEH");
    assert_eq!(u32::from_le_bytes(b[8..12].try_into().unwrap()), 2);
    assert_eq!(u32::from_le_bytes(b[12..16].try_into().unwrap()), 1);
}

#[test]
fn part_with_geometry_layout() {
    let one = 1.0f32.to_bits();
    let g = geometry(1, vec![[one, 0, 0]], vec![[0, one, 0]], vec![], vec![0, 0, 0]);
    let p = Part { name: "body".into(), articulated: false, hinge: None, geometries: vec![g] };
    let b = serialize(&[p], &[], &[-1, 5]);
    let mut want = vec![b'G', b'V', b'E', b'H', 3, 0, 0, 0, 1, 0, 0, 0, 0, 0, 0, 0];
    want.extend_from_slice(&[4, 0, b'b', b'o', b'd', b'y', 0, 0]); // name, not articulated
    want.extend_from_slice(&1u32.to_le_bytes()); // geometry count
    want.extend_from_slice(&1u16.to_le_bytes()); // shader index
    want.extend_from_slice(&5i16.to_le_bytes()); // texture index of shader 1
    want.extend_from_slice(&[1, 0]); // normals, no uvs
    want.extend_from_slice(&1u32.to_le_bytes()); // vertex count
    want.extend_from_slice(&3u32.to_le_bytes()); // index count
    for f in [1.0f32, 0.0, 0.0, 0.0, 1.0, 0.0] {
        want.extend_from_slice(&f.to_le_bytes());
    }
    want.extend_from_slice(&[0, 0, 0, 0, 0, 0]);
    assert_eq!(b, want);
}

#[test]
fn shader_without_entry_has_no_texture() {
    let g = geometry(7, vec![], vec![], vec![], vec![]);
    let p = Part { name: "x".into(), articulated: false, hinge: None, geometries: vec![g] };
    let b = serialize(&[p], &[], &[3]);
    // header 16 + name 3 + flags 2 + count 4 + shader 2 -> texture index at 27
    assert_eq!(i16::from_le_bytes(b[27..29].try_into().unwrap()), -1);
}

#[test]
fn articulated_part_carries_hinge() {
    let h = Hinge { pos: [1, 2, 3], axis: [4, 5, 6], min_angle: 7, max_angle: 8 };
    let p = Part { name: "door_dside_f".into(), articulated: true, hinge: Some(h), geometries: vec![] };
    let b = serialize(&[p], &[], &[]);
    let at = 16 + 2 + 12;
    assert_eq!(&b[at..at + 2], &[1, 0]);
    let words: Vec<u32> = (0..8).map(|k| u32::from_le_bytes(b[at + 2 + 4 * k..at + 6 + 4 * k].try_into().unwrap())).collect();
    assert_eq!(words, vec![1, 2, 3, 4, 5, 6, 7, 8]);
    assert_eq!(u32::from_le_bytes(b[at + 34..at + 38].try_into().unwrap()), 0);
}

#[test]
fn texture_record() {
    let t = DecodedTexture { name: "ab".into(), width: 1, height: 1, format: TextureFormat::A8R8G8B8, rgba: vec![9, 8, 7, 6] };
    let b = serialize(&[], &[t], &[]);
    assert_eq!(&b[16..], &[2, 0, b'a', b'b', 1, 0, 1, 0, 9, 8, 7, 6]);
}
