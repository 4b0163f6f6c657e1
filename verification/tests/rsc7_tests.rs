use gtaveh::rsc7::{size_from_flags, version_from_flags, DecodeError, Rsc7, Segment};
use std::io::Write;

fn deflate(data: &[u8]) -> Vec<u8> {
    let mut enc = flate2::write::DeflateEncoder::new(Vec::new(), flate2::Compression::default());
    enc.write_all(data).unwrap();
    enc.finish().unwrap()
}

fn resource(version: u32, sys_flags: u32, gfx_flags: u32, body: &[u8]) -> Vec<u8> {
    let mut out = Vec::new();
    out.extend_from_slice(&0x37435352u32.to_le_bytes());
    out.extend_from_slice(&version.to_le_bytes());
    out.extend_from_slice(&sys_flags.to_le_bytes());
    out.extend_from_slice(&gfx_flags.to_le_bytes());
    out.extend_from_slice(body);
    out
}

fn rsc(system: Vec<u8>, graphics: Vec<u8>) -> Rsc7 {
    Rsc7 { version: 0, system_flags: 0, graphics_flags: 0, compressed_len: 0, system, graphics }
}

#[test]
fn size_from_flags_values() {
    assert_eq!(size_from_flags(0), 0);
    assert_eq!(size_from_flags(1 << 27), 0x200);
    assert_eq!(size_from_flags((1 << 27) | 1), 0x400);
    assert_eq!(size_from_flags(1 << 4), 0x200 * 256);
    assert_eq!(size_from_flags(3 << 17), 0x200 * 48);
    // the version nibble does not count toward the size
    assert_eq!(size_from_flags(0xA800_0000), 0x200);
    assert_eq!(size_from_flags(0xFFFF_FFFF), 95_009_374_208);
}

#[test]
fn version_from_flags_values() {
    assert_eq!(version_from_flags(0xA000_0000, 0x2000_0000), 162);
    assert_eq!(version_from_flags(0x5000_0000, 0x2000_0000), 0x52);
    assert_eq!(version_from_flags(0x0FFF_FFFF, 0x0FFF_FFFF), 0);
}

#[test]
fn classify_pointers() {
    assert_eq!(Rsc7::classify(0), None);
    assert_eq!(Rsc7::classify(0x5000_0010), Some((Segment::System, 0x10)));
    assert_eq!(Rsc7::classify(0x6000_0020), Some((Segment::Graphics, 0x20)));
    assert_eq!(Rsc7::classify(0x7000_0000), None);
    assert_eq!(Rsc7::classify(0x5FFF_FFFF), Some((Segment::System, 0x0FFF_FFFF)));
}

#[test]
fn classify_ignores_high_word() {
    assert_eq!(Rsc7::classify(0xFFFF_FFFF_5000_0010), Some((Segment::System, 0x10)));
    assert_eq!(Rsc7::classify(0x1234_5678_6000_0004), Rsc7::classify(0x6000_0004));
    // a pointer whose low word is zero is as null as null
    assert_eq!(Rsc7::classify(0x1_0000_0000), None);
}

#[test]
fn parse_too_small() {
    assert_eq!(Rsc7::parse(&[0u8; 10]).err(), Some(DecodeError::TooSmall(10)));
}

#[test]
fn parse_bad_magic() {
    let mut b = resource(0, 0, 0, &[]);
    b[0] = b'X';
    assert!(matches!(Rsc7::parse(&b), Err(DecodeError::BadMagic(_))));
}

#[test]
fn parse_bad_deflate() {
    let b = resource(0, 1 << 27, 0, &[0xFF, 0xFF, 0xFF, 0xFF]);
    assert_eq!(Rsc7::parse(&b).err(), Some(DecodeError::Inflate));
}

#[test]
fn parse_system_truncated() {
    let body = deflate(&[1, 2, 3]);
    let b = resource(0, 1 << 27, 0, &body);
    assert_eq!(
        Rsc7::parse(&b).err(),
        Some(DecodeError::SystemTruncated { decompressed: 3, system: 0x200 })
    );
}

#[test]
fn parse_splits_segments() {
    // system: 0x200 bytes, graphics: 0x200 bytes
    let mut data = vec![0u8; 0x400];
    for (i, b) in data.iter_mut().enumerate() {
        *b = (i % 251) as u8;
    }
    let body = deflate(&data);
    let sys = 0x1000_0000 | (1 << 27);
    let gfx = 0x2000_0000 | (1 << 27);
    let b = resource(7, sys, gfx, &body);
    let r = Rsc7::parse(&b).unwrap();
    assert_eq!(r.version, 7);
    assert_eq!(r.system_flags, sys);
    assert_eq!(r.graphics_flags, gfx);
    assert_eq!(r.compressed_len, body.len());
    // the segments hold the inflated bytes, not the compressed ones
    assert_eq!(r.system, data[..0x200].to_vec());
    assert_eq!(r.graphics, data[0x200..].to_vec());
    assert_eq!(r.system.len(), size_from_flags(r.system_flags));
}

#[test]
fn parse_short_graphics_keeps_what_remains() {
    let data = vec![9u8; 0x200 + 10];
    let b = resource(0, 1 << 27, 1 << 27, &deflate(&data));
    let r = Rsc7::parse(&b).unwrap();
    assert_eq!(r.system.len(), 0x200);
    assert_eq!(r.graphics, vec![9u8; 10]);
    assert!(r.graphics.len() <= size_from_flags(r.graphics_flags));
}

#[test]
fn typed_reads_are_little_endian() {
    let mut sys = vec![0u8; 32];
    sys[4..12].copy_from_slice(&0x1122_3344_5566_7788u64.to_le_bytes());
    let r = rsc(sys, vec![0xAB, 0xCD]);
    assert_eq!(r.u8_at(0x5000_0000, 4).unwrap(), 0x88);
    assert_eq!(r.u16_at(0x5000_0000, 4).unwrap(), 0x7788);
    assert_eq!(r.u32_at(0x5000_0004, 0).unwrap(), 0x5566_7788);
    assert_eq!(r.u64_at(0x5000_0000, 4).unwrap(), 0x1122_3344_5566_7788);
    assert_eq!(r.u16_at(0x6000_0000, 0).unwrap(), 0xCDAB);
    assert_eq!(r.at(0x5000_0004, 2).unwrap(), &[0x88, 0x77]);
}

#[test]
fn at_errors() {
    let r = rsc(vec![0u8; 16], vec![]);
    assert_eq!(r.at(0, 1).err(), Some(DecodeError::InvalidPointer(0)));
    assert_eq!(r.at(0x3000_0000, 1).err(), Some(DecodeError::InvalidPointer(0x3000_0000)));
    assert_eq!(r.at(0x5000_000F, 2).err(), Some(DecodeError::OutOfBounds { ptr: 0x5000_000F, len: 2 }));
    assert_eq!(r.u32_at(0x6000_0000, 0).err(), Some(DecodeError::OutOfBounds { ptr: 0x6000_0000, len: 4 }));
    assert!(r.at(0x5000_0010, 0).is_ok());
}

#[test]
fn str_at_reads_to_nul() {
    let mut sys = b"xxhello\0world".to_vec();
    sys.push(0);
    let r = rsc(sys, b"end".to_vec());
    assert_eq!(r.str_at(0x5000_0002), "hello");
    assert_eq!(r.str_at(0x5000_0008), "world");
    // no terminator: up to the segment's end
    assert_eq!(r.str_at(0x6000_0000), "end");
    assert_eq!(r.str_at(0), "");
    assert_eq!(r.str_at(0x7000_0000), "");
}

#[test]
fn str_at_replaces_invalid_utf8() {
    let r = rsc(vec![b'a', 0xFF, b'b', 0], vec![]);
    assert_eq!(r.str_at(0x5000_0000), "a\u{FFFD}b");
}

#[test]
fn ptr_array_reads_words() {
    let mut sys = vec![0u8; 24];
    sys[0..8].copy_from_slice(&0x5000_0010u64.to_le_bytes());
    sys[8..16].copy_from_slice(&0u64.to_le_bytes());
    sys[16..24].copy_from_slice(&0x6000_0000u64.to_le_bytes());
    let r = rsc(sys, vec![]);
    assert_eq!(r.ptr_array(0x5000_0000, 3).unwrap(), vec![0x5000_0010, 0, 0x6000_0000]);
    assert_eq!(r.ptr_array(0x5000_0000, 0).unwrap(), Vec::<u64>::new());
    assert!(matches!(r.ptr_array(0x5000_0000, 4), Err(DecodeError::OutOfBounds { .. })));
}

#[test]
fn str_at_ascii_at_tagged_pointers() {
    let r = rsc(b"ab\0cd".to_vec(), vec![]);
    assert_eq!(r.str_at(0x5000_0000), "ab");
    assert_eq!(r.str_at(0x5000_0003), "cd");
    assert_eq!(r.str_at(0x5000_0002), "");
    assert_eq!(r.str_at(0x5000_0005), "");
    assert_eq!(r.str_at(0), "");
    assert_eq!(r.str_at(0x6000_0000), "");
    assert_eq!(r.str_at(0x7000_0001), "");
}
