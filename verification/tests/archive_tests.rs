use gtaveh::archive::{default_keys_dir, keys_usable, name_has, name_starts_with, Archive, ArchiveError, EntryKind, FileEntry};
use gtaveh::listing::listing;
use rpf_archive::{GtaKeys, RpfBuilder, RpfEncryption};

fn rsc7_bytes() -> Vec<u8> {
    let mut b = Vec::new();
    b.extend_from_slice(&0x37435352u32.to_le_bytes());
    b.extend_from_slice(&0u32.to_le_bytes());
    b.extend_from_slice(&(1u32 << 27).to_le_bytes());
    b.extend_from_slice(&0u32.to_le_bytes());
    b.extend_from_slice(&[1, 2, 3, 4]);
    b
}

fn build(files: &[(&str, Vec<u8>)]) -> Vec<u8> {
    let mut builder = RpfBuilder::new(RpfEncryption::None);
    for (path, data) in files {
        builder.add_file(path, data.clone());
    }
    builder.build(None).unwrap()
}

fn sample() -> Archive {
    let bytes = build(&[
        ("handling.meta", b"<xml/>".to_vec()),
        ("data/Zion_Hi.yft", rsc7_bytes()),
        ("data/deep/vehshare.ytd", b"abc".to_vec()),
    ]);
    match Archive::from_bytes(bytes, "vehicles.rpf", None) {
        Ok(a) => a,
        Err(_) => panic!("archive did not parse"),
    }
}

#[test]
fn counts_entries_and_directories() {
    let a = sample();
    assert_eq!(a.name, "vehicles.rpf");
    // root, data, deep + three files
    assert_eq!(a.entry_count, 6);
    assert_eq!(a.dir_count, 3);
    assert!(a.dir_count <= a.entry_count);
    assert_eq!(a.list_files().len(), 3);
}

#[test]
fn files_in_search_order() {
    let a = sample();
    let names: Vec<&str> = a.list_files().iter().map(|f| f.name.as_str()).collect();
    assert_eq!(names, vec!["handling.meta", "Zion_Hi.yft", "vehshare.ytd"]);
    let paths: Vec<&str> = a.list_files().iter().map(|f| f.path.as_str()).collect();
    assert_eq!(paths, vec!["handling.meta", "data/zion_hi.yft", "data/deep/vehshare.ytd"]);
}

#[test]
fn find_by_name_or_path_ignoring_case() {
    let a = sample();
    assert_eq!(a.find_file("zion_hi.yft").unwrap().name, "Zion_Hi.yft");
    assert_eq!(a.find_file("ZION_HI.YFT").unwrap().name, "Zion_Hi.yft");
    assert_eq!(a.find_file("data/zion_hi.yft").unwrap().name, "Zion_Hi.yft");
    assert_eq!(a.find_file("DATA\\Deep\\VehShare.ytd").unwrap().name, "vehshare.ytd");
    assert!(a.find_file("zion.yft").is_none());
    assert!(a.find_file("deep/vehshare.ytd").is_none());
}

#[test]
fn extract_and_kind() {
    let a = sample();
    let meta = a.find_file("handling.meta").unwrap();
    assert_eq!(a.entry_kind(meta), EntryKind::BinaryFile);
    match a.extract(meta, None) {
        Ok(b) => assert_eq!(b, b"<xml/>".to_vec()),
        Err(_) => panic!("extract failed"),
    }
    let yft = a.find_file("zion_hi.yft").unwrap();
    assert!(yft.is_resource);
    assert_eq!(a.entry_kind(yft), EntryKind::ResourceFile);
    match a.extract(yft, None) {
        Ok(b) => {
            assert_eq!(&b[0..4], b"RSC7");
            assert_eq!(&b[16..], &[1, 2, 3, 4]);
        }
        Err(_) => panic!("extract failed"),
    }
}

#[test]
fn extracting_a_directory_is_refused() {
    let a = sample();
    let root = FileEntry { name: "root".into(), path: String::new(), entry_index: 0, size: 0, mem_size: 0, is_resource: false };
    assert_eq!(a.entry_kind(&root), EntryKind::Directory);
    match a.extract(&root, None) {
        Err(ArchiveError::Extract { name, .. }) => assert_eq!(name, "root"),
        _ => panic!("expected an extract error"),
    }
}

#[test]
fn garbage_is_not_an_archive() {
    match Archive::from_bytes(vec![1, 2, 3], "junk.rpf", None) {
        Err(ArchiveError::Parse { name, .. }) => assert_eq!(name, "junk.rpf"),
        _ => panic!("expected a parse error"),
    }
}

#[test]
fn nested_archive() {
    let inner = build(&[("zion.yft", rsc7_bytes())]);
    let outer_bytes = build(&[("levels/gta5/vehicles.rpf", inner), ("x.txt", b"x".to_vec())]);
    let outer = match Archive::from_bytes(outer_bytes, "x64e.rpf", None) {
        Ok(a) => a,
        Err(_) => panic!("outer did not parse"),
    };
    let veh = match outer.open_nested("vehicles.rpf", None) {
        Ok(v) => v,
        Err(_) => panic!("nested did not open"),
    };
    assert_eq!(veh.name, "vehicles.rpf");
    assert!(veh.find_file("ZION.yft").is_some());
    match outer.open_nested("missing.rpf", None) {
        Err(ArchiveError::NotFound { name, archive }) => {
            assert_eq!(name, "missing.rpf");
            assert_eq!(archive, "x64e.rpf");
        }
        _ => panic!("expected not found"),
    }
    match outer.open_nested("x.txt", None) {
        Err(ArchiveError::Parse { name, .. }) => assert_eq!(name, "x.txt"),
        _ => panic!("expected a parse error"),
    }
}

#[test]
fn other_versions_are_unsupported() {
    let mut bytes = 0x30465052u32.to_le_bytes().to_vec();
    bytes.extend_from_slice(&[0u8; 12]);
    match Archive::from_bytes(bytes, "old.rpf", None) {
        Err(ArchiveError::Unsupported { name, magic }) => {
            assert_eq!(name, "old.rpf");
            assert_eq!(magic, 0x30465052);
        }
        _ => panic!("expected an unsupported archive"),
    }
    let mut img3 = 0xA94E2A52u32.to_le_bytes().to_vec();
    img3.extend_from_slice(&[0xff; 60]);
    assert!(matches!(Archive::from_bytes(img3, "x.img", None), Err(ArchiveError::Unsupported { .. })));
}

/// An RPF7 table of one directory whose child range is `[start, start + count)`.
fn one_directory(start: u32, count: u32) -> Vec<u8> {
    let mut b = 0x52504637u32.to_le_bytes().to_vec();
    b.extend_from_slice(&1u32.to_le_bytes());
    b.extend_from_slice(&16u32.to_le_bytes());
    b.extend_from_slice(&0u32.to_le_bytes());
    b.extend_from_slice(&0u32.to_le_bytes());
    b.extend_from_slice(&0x7FFFFF00u32.to_le_bytes());
    b.extend_from_slice(&start.to_le_bytes());
    b.extend_from_slice(&count.to_le_bytes());
    b.extend_from_slice(b"root\0\0\0\0\0\0\0\0\0\0\0\0");
    b
}

#[test]
fn a_directory_listing_itself_is_refused() {
    match Archive::from_bytes(one_directory(0, 1), "loop.rpf", None) {
        Err(ArchiveError::Unordered { name }) => assert_eq!(name, "loop.rpf"),
        _ => panic!("expected an unordered table"),
    }
    // a range past the end of the table holds nothing, so it is no loop
    match Archive::from_bytes(one_directory(5, 3), "empty.rpf", None) {
        Ok(a) => {
            assert_eq!(a.entry_count, 1);
            assert_eq!(a.dir_count, 1);
            assert!(a.list_files().is_empty());
        }
        Err(_) => panic!("expected an archive"),
    }
}

fn dir_entry(start: u32, count: u32) -> [u8; 16] {
    let mut e = [0u8; 16];
    e[4..8].copy_from_slice(&0x7FFFFF00u32.to_le_bytes());
    e[8..12].copy_from_slice(&start.to_le_bytes());
    e[12..16].copy_from_slice(&count.to_le_bytes());
    e
}

#[test]
fn a_shared_child_is_refused() {
    let mut file = [0u8; 16];
    file[2] = 1;
    file[8] = 1;
    let entries = [dir_entry(1, 2), dir_entry(2, 1), file];
    let mut b = 0x52504637u32.to_le_bytes().to_vec();
    b.extend_from_slice(&3u32.to_le_bytes());
    b.extend_from_slice(&16u32.to_le_bytes());
    b.extend_from_slice(&0u32.to_le_bytes());
    for e in entries.iter() {
        b.extend_from_slice(e);
    }
    b.extend_from_slice(&[0u8; 16]);
    match Archive::from_bytes(b.clone(), "shared.rpf", None) {
        Err(ArchiveError::Unordered { name }) => assert_eq!(name, "shared.rpf"),
        _ => panic!("expected an unordered table"),
    }
    // the same entries as a proper tree: the root holds the directory, the
    // directory the file
    b[16..32].copy_from_slice(&dir_entry(1, 1));
    match Archive::from_bytes(b, "tree.rpf", None) {
        Ok(a) => {
            assert_eq!(a.dir_count, 2);
            assert_eq!(a.list_files().len(), 1);
            assert_eq!(a.list_files()[0].entry_index, 2);
        }
        Err(_) => panic!("expected an archive"),
    }
}

/// A chain of `dirs` directories, each holding the next, the last holding one
/// file.
fn chain(dirs: u32) -> Vec<u8> {
    let mut b = 0x52504637u32.to_le_bytes().to_vec();
    b.extend_from_slice(&(dirs + 1).to_le_bytes());
    b.extend_from_slice(&16u32.to_le_bytes());
    b.extend_from_slice(&0u32.to_le_bytes());
    for i in 0..dirs {
        b.extend_from_slice(&dir_entry(i + 1, 1));
    }
    let mut file = [0u8; 16];
    file[2] = 1;
    file[8] = 1;
    b.extend_from_slice(&file);
    b.extend_from_slice(&[0u8; 16]);
    b
}

#[test]
fn nesting_is_bounded() {
    match Archive::from_bytes(chain(64), "deep.rpf", None) {
        Ok(a) => {
            assert_eq!(a.dir_count, 64);
            assert_eq!(a.list_files().len(), 1);
            assert_eq!(a.list_files()[0].entry_index, 64);
        }
        Err(_) => panic!("expected an archive"),
    }
    match Archive::from_bytes(chain(66), "deeper.rpf", None) {
        Err(ArchiveError::Unordered { name }) => assert_eq!(name, "deeper.rpf"),
        _ => panic!("expected the table to be refused"),
    }
}

#[test]
fn a_truncated_table_is_a_parse_error() {
    let mut b = one_directory(0, 0);
    b.truncate(40);
    match Archive::from_bytes(b, "cut.rpf", None) {
        Err(ArchiveError::Parse { name, .. }) => assert_eq!(name, "cut.rpf"),
        _ => panic!("expected a parse error"),
    }
}

#[test]
fn key_sets_are_checked() {
    let tables = || Box::new([[[0u32; 256]; 16]; 17]);
    let full = GtaKeys { aes_key: [0; 32], ng_keys: vec![vec![0u8; 272]; 101], ng_decrypt_tables: tables() };
    assert!(keys_usable(&full));
    let none = GtaKeys { aes_key: [0; 32], ng_keys: Vec::new(), ng_decrypt_tables: tables() };
    assert!(!keys_usable(&none));
    let mut short = vec![vec![0u8; 272]; 101];
    short[100].truncate(271);
    let short = GtaKeys { aes_key: [0; 32], ng_keys: short, ng_decrypt_tables: tables() };
    assert!(!keys_usable(&short));
    let more = GtaKeys { aes_key: [0; 32], ng_keys: vec![vec![0u8; 300]; 120], ng_decrypt_tables: tables() };
    assert!(keys_usable(&more));
}

#[test]
fn ascii_case_does_not_matter() {
    let a = sample();
    for p in ["handling.meta", "data/zion_hi.yft", "data/deep/vehshare.ytd"] {
        let up = p.to_ascii_uppercase();
        let back = p.replace('/', "\\");
        assert_eq!(a.find_file(p).unwrap().entry_index, a.find_file(&up).unwrap().entry_index);
        assert_eq!(a.find_file(p).unwrap().entry_index, a.find_file(&back).unwrap().entry_index);
        assert_eq!(a.find_file(p).unwrap().entry_index, a.find_file(&back.to_ascii_uppercase()).unwrap().entry_index);
    }
}

#[test]
fn keys_dir_default() {
    assert_eq!(default_keys_dir(), "C:\\Users\\nic10\\Downloads\\archive");
}

#[test]
fn listing_filter_ignores_case() {
    assert!(name_has("Zion_Hi.yft", "ZION"));
    assert!(name_has("Zion_Hi.yft", "_hi."));
    assert!(name_has("Zion_Hi.yft", ""));
    assert!(!name_has("Zion_Hi.yft", "adder"));
    assert!(!name_has("zion", "zion_hi"));
}

#[test]
fn listing_sorts_and_filters() {
    let a = sample();
    assert_eq!(listing(a.list_files(), None), vec!["Zion_Hi.yft", "handling.meta", "vehshare.ytd"]);
    assert_eq!(listing(a.list_files(), Some("ZION")), vec!["Zion_Hi.yft"]);
    assert_eq!(listing(a.list_files(), Some(".Y")), vec!["Zion_Hi.yft", "vehshare.ytd"]);
    assert!(listing(a.list_files(), Some("adder")).is_empty());
}

#[test]
fn related_names_ignore_case() {
    assert!(name_starts_with("Zion_Hi.yft", "zion"));
    assert!(name_starts_with("zion.ytd", "ZION"));
    assert!(name_starts_with("zion.ytd", ""));
    assert!(!name_starts_with("adder.yft", "zion"));
    assert!(!name_starts_with("zi", "zion"));
}
