//! Stock images: UBI, UBIFS and JFFS2, their compression methods and their checksums.

use std::collections::BTreeMap;
use std::io::Write;

use fiberhome_factory::bytes;
use fiberhome_factory::codec::{decompress, rtime};
use fiberhome_factory::crc::{check_crc, crc32_register};
use fiberhome_factory::import::extract;
use fiberhome_factory::jffs2::jffs2;
use fiberhome_factory::lzo::stays_in_bounds;
use fiberhome_factory::tree;
use fiberhome_factory::ubi::ubi;
use fiberhome_factory::ubifs::{node, ubifs};

fn put_u32(data: &mut [u8], offset: usize, value: u32) {
    data[offset..offset + 4].copy_from_slice(&value.to_le_bytes());
}

fn finish_jffs2_header(data: &mut [u8], kind: u16) {
    data[0..2].copy_from_slice(&0x1985u16.to_le_bytes());
    data[2..4].copy_from_slice(&kind.to_le_bytes());
    put_u32(data, 4, data.len() as u32);
    put_u32(data, 8, crc32_register(&data[..8], 0));
}

fn dirent_of(parent: u32, version: u32, name: &[u8], ino: u32) -> Vec<u8> {
    let mut node = vec![0; 40 + name.len()];
    put_u32(&mut node, 12, parent);
    put_u32(&mut node, 16, version);
    put_u32(&mut node, 20, ino);
    node[28] = name.len() as u8;
    node[29] = 8;
    node[40..].copy_from_slice(name);
    finish_jffs2_header(&mut node, 0xe001);
    let node_crc = crc32_register(&node[..32], 0);
    put_u32(&mut node, 32, node_crc);
    put_u32(&mut node, 36, crc32_register(name, 0));
    node
}

fn jffs2_dirent(name: &[u8], ino: u32) -> Vec<u8> {
    dirent_of(1, 1, name, ino)
}

/// An inode node: version, file size, offset, unpacked size, compression method and data.
fn inode_of(version: u32, size: u32, offset: u32, unpacked: u32, method: u8, data: &[u8]) -> Vec<u8> {
    let mut node = vec![0; 68 + data.len()];
    put_u32(&mut node, 12, 8);
    put_u32(&mut node, 16, version);
    put_u32(&mut node, 20, 0x81a4);
    put_u32(&mut node, 28, size);
    put_u32(&mut node, 44, offset);
    put_u32(&mut node, 48, data.len() as u32);
    put_u32(&mut node, 52, unpacked);
    node[56] = method;
    node[68..].copy_from_slice(data);
    finish_jffs2_header(&mut node, 0xe002);
    put_u32(&mut node, 60, crc32_register(data, 0));
    let node_crc = crc32_register(&node[..60], 0);
    put_u32(&mut node, 64, node_crc);
    node
}

fn jffs2_inode(data: &[u8], corrupt: bool) -> Vec<u8> {
    let mut node = vec![0; 68 + data.len()];
    put_u32(&mut node, 12, 8);
    put_u32(&mut node, 16, 3);
    put_u32(&mut node, 20, 0x81a4);
    put_u32(&mut node, 28, data.len() as u32);
    put_u32(&mut node, 48, data.len() as u32);
    put_u32(&mut node, 52, data.len() as u32);
    node[68..].copy_from_slice(data);
    finish_jffs2_header(&mut node, 0xe002);
    put_u32(&mut node, 60, crc32_register(data, 0));
    let node_crc = crc32_register(&node[..60], 0);
    put_u32(&mut node, 64, node_crc);
    if corrupt {
        node[68] ^= 1;
    }
    node
}

fn append_jffs2_node(image: &mut Vec<u8>, node: &[u8]) {
    image.extend_from_slice(node);
    image.resize((image.len() + 3) & !3, 0xff);
}

fn make_node(kind: u8, mut data: Vec<u8>) -> Vec<u8> {
    data[..4].copy_from_slice(&0x06101831u32.to_le_bytes());
    let len = data.len() as u32;
    data[16..20].copy_from_slice(&len.to_le_bytes());
    data[20] = kind;
    let checksum = crc32_register(&data[8..], u32::MAX);
    data[4..8].copy_from_slice(&checksum.to_le_bytes());
    data
}

#[test]
fn dirty_master_uses_committed_index() {
    let sb = make_node(6, vec![0; 64]);
    let index = make_node(9, vec![0; 28]);
    let mut raw_master = vec![0; 64];
    raw_master[40..44].copy_from_slice(&1u32.to_le_bytes());
    raw_master[48..52].copy_from_slice(&3u32.to_le_bytes());
    raw_master[56..60].copy_from_slice(&28u32.to_le_bytes());
    let master = make_node(7, raw_master);
    let lebs = BTreeMap::from([
        (0, sb.as_slice()),
        (1, master.as_slice()),
        (3, index.as_slice()),
    ]);
    let (files, warning) = ubifs(&lebs).unwrap();
    assert!(warning);
    assert!(files.is_empty());

    let mut corrupt = index.clone();
    corrupt[24] ^= 1;
    let lebs = BTreeMap::from([
        (0, sb.as_slice()),
        (1, master.as_slice()),
        (3, corrupt.as_slice()),
    ]);
    assert!(ubifs(&lebs).is_err());
}

#[test]
fn jffs2_skips_corrupt_inode_copy() {
    let mut image = Vec::new();
    append_jffs2_node(&mut image, &jffs2_dirent(b"tr.conf", 8));
    append_jffs2_node(&mut image, &jffs2_inode(b"hello", true));
    append_jffs2_node(&mut image, &jffs2_inode(b"hello", false));

    let (files, damaged) = jffs2(&image).unwrap();
    assert!(damaged);
    assert_eq!(files.get("tr.conf").unwrap().as_slice(), b"hello");
}

fn zlib(data: &[u8]) -> Vec<u8> {
    let mut e = flate2::write::ZlibEncoder::new(Vec::new(), flate2::Compression::best());
    e.write_all(data).unwrap();
    e.finish().unwrap()
}

fn deflate(data: &[u8]) -> Vec<u8> {
    let mut e = flate2::write::DeflateEncoder::new(Vec::new(), flate2::Compression::best());
    e.write_all(data).unwrap();
    e.finish().unwrap()
}

fn sample() -> Vec<u8> {
    let mut d = Vec::new();
    for i in 0..600u32 {
        d.push((i % 7) as u8 * 3);
        d.push(b'x');
    }
    d
}

#[test]
fn crc_of_check_string() {
    assert_eq!(crc32_register(b"123456789", u32::MAX) ^ u32::MAX, 0xcbf4_3926);
    assert_eq!(crc32_register(b"", 7), 7);
}

#[test]
fn crc_register_goes_on_where_it_stopped() {
    let whole = crc32_register(b"production data", u32::MAX);
    let first = crc32_register(b"production ", u32::MAX);
    assert_eq!(crc32_register(b"data", first), whole);
}

#[test]
fn one_wrong_byte_changes_the_register() {
    assert_ne!(crc32_register(b"abcd", 0), crc32_register(b"abce", 0));
    assert_ne!(crc32_register(b"abcd", 0), crc32_register(b"bbcd", 0));
}

#[test]
fn crc_mismatch_is_reported() {
    let actual = crc32_register(b"123456789", u32::MAX);
    assert!(check_crc(b"123456789", u32::MAX, actual).is_ok());
    assert_eq!(
        check_crc(b"123456789", u32::MAX, 0x1f).unwrap_err(),
        "Stock image CRC mismatch: stored 0x0000001f, calculated 0x340bc6d9"
    );
}

#[test]
fn stored_blocks_are_kept() {
    assert_eq!(decompress(b"abc", 3, 0).unwrap(), b"abc");
}

#[test]
fn lzo_blocks_are_unpacked() {
    let d = sample();
    let packed = lzokay_native::compress(&d).unwrap();
    assert!(packed.len() < d.len());
    assert!(stays_in_bounds(&packed));
    assert_eq!(decompress(&packed, d.len(), 1).unwrap(), d);
    assert_eq!(
        decompress(&packed, d.len() + 1, 1).unwrap_err(),
        "Decompressed length differs from the node header"
    );
}

#[test]
fn short_lzo_streams_stay_in_bounds() {
    for n in 1..64usize {
        let d: Vec<u8> = (0..n).map(|i| (i * i) as u8).collect();
        let packed = lzokay_native::compress(&d).unwrap();
        assert_eq!(decompress(&packed, n, 1).unwrap(), d);
    }
}

#[test]
fn lzo_stream_that_reaches_too_far_back_is_refused() {
    // Four literals, then a copy from far before them.
    let stream = [21, 1, 2, 3, 4, 0x40, 0xff, 17, 0, 0];
    assert!(!stays_in_bounds(&stream));
    assert_eq!(
        decompress(&stream, 8, 1).unwrap_err(),
        "LZO stream reaches back before its start"
    );
}

#[test]
fn truncated_lzo_stream_is_refused() {
    assert!(decompress(&[], 4, 1).is_err());
    assert!(decompress(&[21, 1, 2], 4, 1).is_err());
}

#[test]
fn zlib_blocks_are_unpacked() {
    let d = sample();
    assert_eq!(decompress(&zlib(&d), d.len(), 2).unwrap(), d);
    assert_eq!(
        decompress(&zlib(&d), d.len() - 1, 2).unwrap_err(),
        "Decompressed length differs from the node header"
    );
    assert!(decompress(b"no zlib stream", 4, 2).is_err());
}

#[test]
fn deflate_blocks_are_unpacked() {
    let d = sample();
    assert_eq!(decompress(&deflate(&d), d.len(), 4).unwrap(), d);
    assert!(decompress(&zlib(&d), d.len(), 4).is_err());
}

#[test]
fn unknown_compression_and_large_blocks_are_refused() {
    assert_eq!(
        decompress(b"", 0, 3).unwrap_err(),
        "Unsupported compression type 3"
    );
    assert_eq!(
        decompress(b"", 0x100_0001, 0).unwrap_err(),
        "File block is too large"
    );
}

#[test]
fn rtime_runs_repeat_earlier_bytes() {
    assert_eq!(rtime(&[b'a', 0, b'b', 0, b'a', 3], 6).unwrap(), b"ababab");
    assert_eq!(rtime(&[b'a', 4], 5).unwrap(), b"aaaaa");
    assert_eq!(rtime(&[], 0).unwrap(), b"");
}

#[test]
fn rtime_length_is_checked() {
    assert_eq!(
        rtime(&[b'a', 4], 4).unwrap_err(),
        "RTIME output exceeds the declared length"
    );
    assert_eq!(
        rtime(&[b'a', 0], 2).unwrap_err(),
        "RTIME output is shorter than the declared length"
    );
    assert_eq!(
        rtime(&[], 0x100_0001).unwrap_err(),
        "RTIME output is too large"
    );
}

#[test]
fn integers_are_read_in_both_orders() {
    let d = [1u8, 2, 3, 4, 5, 6, 7, 8, 9];
    assert_eq!(bytes::le16(&d, 1).unwrap(), 0x0302);
    assert_eq!(bytes::le32(&d, 0).unwrap(), 0x0403_0201);
    assert_eq!(bytes::le64(&d, 1).unwrap(), 0x0908_0706_0504_0302);
    assert_eq!(bytes::be32(&d, 0).unwrap(), 0x0102_0304);
    assert_eq!(bytes::be64(&d, 0).unwrap(), 0x0102_0304_0506_0708);
    assert_eq!(bytes::le32(&d, 6).unwrap_err(), "Image data is truncated");
    assert_eq!(
        bytes::bytes(&d, usize::MAX, 1).unwrap_err(),
        "Length overflow"
    );
}

#[test]
fn entry_names_are_checked() {
    assert_eq!(tree::name(b"factory_conf").unwrap(), "factory_conf");
    assert_eq!(tree::name("光".as_bytes()).unwrap(), "光");
    for bad in [&b""[..], b".", b"..", b"a/b", b"a\0"] {
        assert_eq!(tree::name(bad).unwrap_err(), "Invalid directory entry name");
    }
    assert_eq!(
        tree::name(&[0x61, 0xff]).unwrap_err(),
        "invalid utf-8 sequence of 1 bytes from index 1"
    );
}

fn one_file(nodes: &[Vec<u8>]) -> Vec<u8> {
    let mut image = Vec::new();
    append_jffs2_node(&mut image, &jffs2_dirent(b"f", 8));
    for n in nodes {
        append_jffs2_node(&mut image, n);
    }
    image
}

#[test]
fn jffs2_methods_are_unpacked() {
    let d = sample();
    let len = d.len() as u32;
    let packed = [
        (0u8, d.clone()),
        (6, zlib(&d)),
        (7, lzokay_native::compress(&d).unwrap()),
    ];
    for (method, data) in packed {
        let image = one_file(&[inode_of(1, len, 0, len, method, &data)]);
        let (files, damaged) = extract(&image).unwrap();
        assert!(!damaged);
        assert_eq!(files.get("f").unwrap(), &d);
    }
    let image = one_file(&[inode_of(1, 3, 0, 3, 1, b"")]);
    assert_eq!(jffs2(&image).unwrap().0.get("f").unwrap(), &[0, 0, 0]);
    let image = one_file(&[inode_of(1, 5, 0, 5, 2, &[b'a', 4])]);
    assert_eq!(jffs2(&image).unwrap().0.get("f").unwrap(), b"aaaaa");
    let image = one_file(&[inode_of(1, 1, 0, 1, 9, b"a")]);
    assert_eq!(
        jffs2(&image).err().unwrap(),
        "Unsupported JFFS2 compression type 9"
    );
}

#[test]
fn jffs2_nodes_apply_in_version_order() {
    let image = one_file(&[
        inode_of(2, 6, 2, 4, 0, b"XXXX"),
        inode_of(1, 4, 0, 4, 0, b"abcd"),
        inode_of(3, 3, 0, 0, 0, b""),
    ]);
    assert_eq!(jffs2(&image).unwrap().0.get("f").unwrap(), b"abX");
}

#[test]
fn jffs2_newer_entry_wins() {
    let mut image = Vec::new();
    append_jffs2_node(&mut image, &dirent_of(1, 5, b"f", 8));
    append_jffs2_node(&mut image, &dirent_of(1, 4, b"f", 0));
    append_jffs2_node(&mut image, &jffs2_inode(b"hello", false));
    assert_eq!(jffs2(&image).unwrap().0.get("f").unwrap(), b"hello");
    append_jffs2_node(&mut image, &dirent_of(1, 6, b"f", 0));
    assert!(jffs2(&image).unwrap().0.is_empty());
}

#[test]
fn jffs2_directories_become_paths() {
    let mut image = Vec::new();
    append_jffs2_node(&mut image, &dirent_of(1, 1, b"wlan", 30));
    append_jffs2_node(&mut image, &dirent_of(30, 1, b"f", 8));
    append_jffs2_node(&mut image, &jffs2_inode(b"hello", false));
    let (files, _) = jffs2(&image).unwrap();
    assert_eq!(files.get("wlan/f").unwrap(), b"hello");
    assert!(files.get("f").is_none());
    append_jffs2_node(&mut image, &dirent_of(30, 1, b"loop", 1));
    assert_eq!(
        jffs2(&image).err().unwrap(),
        "Filesystem tree contains a cycle or duplicate reference"
    );
}

#[test]
fn jffs2_damage_and_obsolete_nodes_are_passed_over() {
    let mut obsolete = jffs2_dirent(b"g", 8);
    obsolete[3] &= !0x20;
    let mut bad_name = jffs2_dirent(b"h", 8);
    bad_name[40] ^= 1;
    let mut bad_header = jffs2_dirent(b"i", 8);
    bad_header[8] ^= 1;
    let mut image = one_file(&[jffs2_inode(b"hello", false), obsolete]);
    assert!(!jffs2(&image).unwrap().1);
    append_jffs2_node(&mut image, &bad_name);
    let (files, damaged) = jffs2(&image).unwrap();
    assert!(damaged);
    assert!(files.get("h").is_none());
    let image = one_file(&[jffs2_inode(b"hello", false), bad_header]);
    let (files, damaged) = jffs2(&image).unwrap();
    assert!(damaged);
    assert!(files.get("i").is_none());
    assert_eq!(files.get("f").unwrap(), b"hello");
}

#[test]
fn jffs2_limits_are_checked() {
    let fails = |nodes: &[Vec<u8>]| jffs2(&one_file(nodes)).err().unwrap();
    assert_eq!(
        fails(&[inode_of(1, 2, 1, 2, 0, b"ab")]),
        "JFFS2 data exceeds the inode size"
    );
    assert_eq!(
        fails(&[inode_of(1, 0x100_0001, 0, 0, 0, b"")]),
        "f is too large"
    );
    assert_eq!(
        fails(&[
            inode_of(1, 0x100_0001, 0, 0, 0, b""),
            inode_of(2, 1, 0, 1, 0, b"a"),
        ]),
        "JFFS2 file is too large"
    );
    let mut short = jffs2_dirent(b"f", 8);
    put_u32(&mut short, 4, 8);
    assert_eq!(jffs2(&short).err().unwrap(), "Invalid JFFS2 node length");
    put_u32(&mut short, 4, 4000);
    assert_eq!(jffs2(&short).err().unwrap(), "Image data is truncated");
}

/// A logical eraseblock that is filled with nodes, eight bytes aligned.
struct Leb {
    number: u32,
    data: Vec<u8>,
}

impl Leb {
    fn put(&mut self, node: Vec<u8>) -> (u32, u32, u32) {
        let at = (self.number, self.data.len() as u32, node.len() as u32);
        self.data.extend_from_slice(&node);
        while self.data.len() % 8 != 0 {
            self.data.push(0xff);
        }
        at
    }
}

fn index_node(branches: &[(u32, u32, u32)]) -> Vec<u8> {
    let mut n = vec![0; 28 + 20 * branches.len()];
    n[24..26].copy_from_slice(&(branches.len() as u16).to_le_bytes());
    for (i, b) in branches.iter().enumerate() {
        put_u32(&mut n, 28 + 20 * i, b.0);
        put_u32(&mut n, 32 + 20 * i, b.1);
        put_u32(&mut n, 36 + 20 * i, b.2);
    }
    make_node(9, n)
}

fn inode_node(ino: u32, size: u64) -> Vec<u8> {
    let mut n = vec![0; 160];
    put_u32(&mut n, 24, ino);
    n[48..56].copy_from_slice(&size.to_le_bytes());
    put_u32(&mut n, 104, 0x81a4);
    make_node(0, n)
}

fn dent_node(parent: u32, name: &[u8], ino: u64) -> Vec<u8> {
    let mut n = vec![0; 57 + name.len()];
    put_u32(&mut n, 24, parent);
    n[40..48].copy_from_slice(&ino.to_le_bytes());
    n[50..52].copy_from_slice(&(name.len() as u16).to_le_bytes());
    n[56..56 + name.len()].copy_from_slice(name);
    make_node(2, n)
}

fn data_node(ino: u32, block: u32, size: u32, method: u16, data: &[u8]) -> Vec<u8> {
    let mut n = vec![0; 48 + data.len()];
    put_u32(&mut n, 24, ino);
    put_u32(&mut n, 28, 0x2000_0000 | block);
    put_u32(&mut n, 40, size);
    n[44..46].copy_from_slice(&method.to_le_bytes());
    n[48..].copy_from_slice(data);
    make_node(1, n)
}

fn master_node(sequence: u64, flags: u32, root: (u32, u32, u32)) -> Vec<u8> {
    let mut n = vec![0; 64];
    n[8..16].copy_from_slice(&sequence.to_le_bytes());
    put_u32(&mut n, 40, flags);
    put_u32(&mut n, 48, root.0);
    put_u32(&mut n, 52, root.1);
    put_u32(&mut n, 56, root.2);
    make_node(7, n)
}

/// A volume with a deflated, an LZO packed and a stored file, the last in a directory.
fn volume() -> (Vec<(u32, Vec<u8>)>, (u32, u32, u32)) {
    let d = sample();
    let mut leb = Leb { number: 3, data: Vec::new() };
    let mut branches = Vec::new();
    branches.push(leb.put(dent_node(1, b"a", 65)));
    branches.push(leb.put(dent_node(1, b"b", 66)));
    branches.push(leb.put(dent_node(1, b"wlan", 67)));
    branches.push(leb.put(dent_node(67, b"c", 68)));
    branches.push(leb.put(inode_node(65, d.len() as u64)));
    branches.push(leb.put(inode_node(66, d.len() as u64)));
    branches.push(leb.put(inode_node(68, 4100)));
    branches.push(leb.put(data_node(65, 0, d.len() as u32, 2, &deflate(&d))));
    let packed = lzokay_native::compress(&d).unwrap();
    branches.push(leb.put(data_node(66, 0, d.len() as u32, 1, &packed)));
    branches.push(leb.put(data_node(68, 1, 8, 0, b"tailXXXX")));
    let root = leb.put(index_node(&branches));
    (
        vec![
            (0, make_node(6, vec![0; 64])),
            (1, master_node(5, 0, root)),
            (3, leb.data),
        ],
        root,
    )
}

fn as_lebs(v: &[(u32, Vec<u8>)]) -> BTreeMap<u32, &[u8]> {
    v.iter().map(|(l, d)| (*l, d.as_slice())).collect()
}

fn check_volume_files(files: &fiberhome_factory::names::Files) {
    let d = sample();
    assert_eq!(files.get("a").unwrap(), &d);
    assert_eq!(files.get("b").unwrap(), &d);
    let c = files.get("wlan/c").unwrap();
    assert_eq!(c.len(), 4100);
    assert!(c[..4096].iter().all(|b| *b == 0));
    assert_eq!(&c[4096..], b"tail");
}

#[test]
fn ubifs_files_are_read() {
    let (v, _) = volume();
    let (files, warning) = ubifs(&as_lebs(&v)).unwrap();
    assert!(!warning);
    check_volume_files(&files);
}

#[test]
fn ubifs_blocks_are_put_in_order() {
    let mut leb = Leb { number: 3, data: Vec::new() };
    let branches = [
        leb.put(data_node(65, 1, 4, 0, b"tail")),
        leb.put(data_node(66, 0, 2, 0, b"no")),
        leb.put(data_node(65, 0, 4096, 0, &[7; 4096])),
        leb.put(inode_node(65, 4100)),
        leb.put(dent_node(1, b"a", 65)),
    ];
    let root = leb.put(index_node(&branches));
    let v = [
        (0, make_node(6, vec![0; 64])),
        (2, {
            let mut m = master_node(1, 0, root);
            m.resize(96, 0xff);
            m
        }),
        (3, leb.data),
    ];
    let (files, _) = ubifs(&as_lebs(&v)).unwrap();
    let a = files.get("a").unwrap();
    assert_eq!(a.len(), 4100);
    assert!(a[..4096].iter().all(|b| *b == 7));
    assert_eq!(&a[4096..], b"tail");
}

#[test]
fn directory_entries_stand_in_order() {
    let mut dents = tree::Dents::new();
    for (parent, name, ino) in [(2u64, "b", 1u64), (1, "b", 2), (1, "ab", 3), (1, "a", 4), (1, "b", 5)] {
        dents.put(tree::Dent {
            parent,
            name: name.to_string(),
            version: 0,
            ino,
        });
    }
    let order: Vec<(u64, &str, u64)> = (0..dents.len())
        .map(|i| {
            let d = dents.get(i);
            (d.parent, d.name.as_str(), d.ino)
        })
        .collect();
    assert_eq!(order, [(1, "a", 4), (1, "ab", 3), (1, "b", 5), (2, "b", 1)]);
}

#[test]
fn ubifs_newest_master_is_used() {
    let (mut v, root) = volume();
    let empty = (3, 0, 28);
    let mut masters = master_node(9, 1, root);
    masters.extend(master_node(7, 0, empty));
    masters.extend(vec![0; 32]);
    v.push((2, masters));
    let (files, warning) = ubifs(&as_lebs(&v)).unwrap();
    assert!(warning);
    check_volume_files(&files);
}

#[test]
fn ubifs_faults_are_reported() {
    let (v, root) = volume();
    let fails = |v: &[(u32, Vec<u8>)]| ubifs(&as_lebs(v)).err().unwrap();
    assert_eq!(fails(&v[1..]), "UBIFS superblock is missing");
    assert_eq!(
        fails(&[v[0].clone(), v[2].clone()]),
        "UBIFS master node is missing"
    );
    assert_eq!(
        fails(&[v[0].clone(), v[1].clone()]),
        "UBIFS index references a missing LEB"
    );
    let with_root = |r| {
        fails(&[v[0].clone(), (1, master_node(1, 0, r)), v[2].clone()])
    };
    assert_eq!(
        with_root((root.0, root.1, root.2 + 1)),
        "UBIFS index node length mismatch"
    );
    assert_eq!(with_root((3, 4, 28)), "Invalid UBIFS node header");
    let mut key = vec![0; 64];
    key[27] = 1;
    assert_eq!(
        fails(&[(0, make_node(6, key)), v[1].clone(), v[2].clone()]),
        "Unsupported UBIFS key format"
    );
    assert_eq!(
        fails(&[(0, make_node(6, vec![0; 24])), v[1].clone(), v[2].clone()]),
        "UBIFS superblock is truncated"
    );
    let of = |n: Vec<u8>| {
        let root = (3, 0, n.len() as u32);
        fails(&[v[0].clone(), (1, master_node(1, 0, root)), (3, n)])
    };
    assert_eq!(
        of(make_node(8, vec![0; 24])),
        "UBIFS index contains unknown node type 8"
    );
    assert_eq!(
        of(make_node(9, vec![0; 30])),
        "Unsupported UBIFS index branch format"
    );
    assert_eq!(
        of(data_node(1, 0, 4097, 0, b"")),
        "UBIFS data block exceeds 4096 bytes"
    );
    assert_eq!(
        of(index_node(&[(3, 0, 48)])),
        "UBIFS index contains a duplicate reference"
    );
    let mut leb = Leb { number: 3, data: Vec::new() };
    let parts = [
        leb.put(dent_node(1, b"a", 65)),
        leb.put(inode_node(65, 4096)),
        leb.put(data_node(65, 1, 1, 0, b"x")),
    ];
    let root = leb.put(index_node(&parts));
    assert_eq!(
        fails(&[v[0].clone(), (1, master_node(1, 0, root)), (3, leb.data)]),
        "UBIFS data block exceeds the file size"
    );
    assert_eq!(node(&[0; 10], 0).unwrap_err(), "Image data is truncated");
    let mut short = make_node(9, vec![0; 28]);
    put_u32(&mut short, 16, 20);
    assert_eq!(node(&short, 0).unwrap_err(), "Invalid UBIFS node length");
}

const PEB: usize = 0x1_0000;

fn put_be32(d: &mut [u8], offset: usize, value: u32) {
    d[offset..offset + 4].copy_from_slice(&value.to_be_bytes());
}

/// A physical eraseblock that holds block `leb` of a volume, with the copy flag and the checksum
/// of the first `checked` bytes of its data.
fn peb(volume: u32, leb: u32, sequence: u64, copy: bool, checked: u32, data: &[u8]) -> Vec<u8> {
    let mut p = vec![0xff; PEB];
    p[..64].fill(0);
    p[..4].copy_from_slice(b"UBI#");
    put_be32(&mut p, 16, 64);
    put_be32(&mut p, 20, 128);
    let crc = crc32_register(&p[..60], u32::MAX);
    put_be32(&mut p, 60, crc);
    p[64..128].fill(0);
    p[64..68].copy_from_slice(b"UBI!");
    p[69] = 1;
    p[70] = copy as u8;
    put_be32(&mut p, 72, volume);
    put_be32(&mut p, 76, leb);
    put_be32(&mut p, 84, checked);
    p[104..112].copy_from_slice(&sequence.to_be_bytes());
    p[128..128 + data.len()].copy_from_slice(data);
    let crc = crc32_register(&p[128..128 + checked as usize], u32::MAX);
    put_be32(&mut p, 96, crc);
    let crc = crc32_register(&p[64..124], u32::MAX);
    put_be32(&mut p, 124, crc);
    p
}

fn table_record(name: &[u8]) -> Vec<u8> {
    let mut r = vec![0; 172];
    r[14..16].copy_from_slice(&(name.len() as u16).to_be_bytes());
    r[16..16 + name.len()].copy_from_slice(name);
    let crc = crc32_register(&r[..168], u32::MAX);
    put_be32(&mut r, 168, crc);
    r
}

/// A volume table in which the production data is the second volume.
fn volume_table() -> Vec<u8> {
    let mut t = table_record(b"rootfs");
    t.extend(table_record(b"fhdata"));
    t
}

fn ubi_image(pebs: &[Vec<u8>]) -> Vec<u8> {
    let mut d = Vec::new();
    for p in pebs {
        d.extend_from_slice(p);
    }
    d
}

#[test]
fn ubi_image_is_extracted() {
    let (v, _) = volume();
    let mut pebs = vec![peb(0x7fff_efff, 0, 1, false, 0, &volume_table())];
    pebs.push(vec![0xff; PEB]);
    pebs.swap(0, 1);
    pebs.insert(0, peb(1, v[0].0, 2, false, 0, &v[0].1));
    pebs.swap(1, 2);
    for (l, d) in &v[1..] {
        pebs.push(peb(1, *l, 3, false, 0, d));
    }
    let (files, warning) = extract(&ubi_image(&pebs)).unwrap();
    assert!(!warning);
    check_volume_files(&files);
}

#[test]
fn ubi_newest_copy_is_used() {
    let (v, root) = volume();
    let table = peb(0x7fff_efff, 1, 1, false, 0, &volume_table());
    let dirty = master_node(5, 1, root);
    let base = [
        table,
        peb(1, 0, 1, false, 0, &v[0].1),
        peb(1, 3, 1, false, 0, &v[2].1),
    ];
    let with = |more: &[Vec<u8>]| {
        let mut all = base.to_vec();
        all.extend_from_slice(more);
        ubi(&ubi_image(&all)).unwrap().1
    };
    let clean = peb(1, 1, 4, false, 0, &v[1].1);
    assert!(!with(&[clean.clone(), peb(1, 1, 4, false, 0, &dirty)]));
    assert!(with(&[clean.clone(), peb(1, 1, 5, false, 0, &dirty)]));
    assert!(with(&[peb(1, 1, 5, false, 0, &dirty), clean.clone()]));
    // A copy counts only if the checksum of its data confirms it.
    let copied = peb(1, 1, 5, true, 64, &dirty);
    let mut broken = copied.clone();
    broken[140] ^= 1;
    assert!(with(&[clean.clone(), copied]));
    assert!(!with(&[clean, broken]));
}

#[test]
fn ubi_faults_are_reported() {
    let fails = |d: &[u8]| extract(d).err().unwrap();
    assert_eq!(fails(b"UBI#"), "Unable to determine the UBI eraseblock size");
    assert_eq!(fails(b"nothing known"), "Unsupported factory image format");
    let table = peb(0x7fff_efff, 0, 1, false, 0, &volume_table());
    let other = peb(1, 0, 1, false, 0, b"");
    assert_eq!(
        fails(&ubi_image(&[other.clone(), other.clone()])),
        "UBI volume table is missing"
    );
    assert_eq!(
        fails(&ubi_image(&[table.clone(), other.clone(), vec![0; PEB]])),
        "Invalid UBI erase counter header"
    );
    let none = peb(0x7fff_efff, 0, 1, false, 0, &table_record(b"rootfs"));
    let mut zeros = none.clone();
    zeros[128 + 172..].fill(0);
    assert_eq!(
        fails(&ubi_image(&[zeros, other.clone()])),
        "UBI image has no fhdata volume"
    );
    assert_eq!(
        fails(&ubi_image(&[none, other.clone()])),
        "Invalid UBI volume name length"
    );
    let mut update = table_record(b"fhdata");
    update[13] = 1;
    let crc = crc32_register(&update[..168], u32::MAX);
    put_be32(&mut update, 168, crc);
    assert_eq!(
        fails(&ubi_image(&[peb(0x7fff_efff, 0, 1, false, 0, &update), other.clone()])),
        "fhdata volume update is incomplete"
    );
    let mut vid = other.clone();
    vid[67] = b'?';
    assert_eq!(fails(&ubi_image(&[table.clone(), vid])), "Invalid UBI VID header");
    let mut offset = other.clone();
    put_be32(&mut offset, 20, PEB as u32 + 1);
    let crc = crc32_register(&offset[..60], u32::MAX);
    put_be32(&mut offset, 60, crc);
    assert_eq!(
        fails(&ubi_image(&[table.clone(), offset])),
        "Invalid UBI data offset"
    );
    assert_eq!(
        fails(&ubi_image(&[table, peb(1, 5, 1, false, 0, b"")])),
        "UBIFS superblock is missing"
    );
}

#[test]
fn dirty_flag_changes_the_warning_alone() {
    let (clean, root) = volume();
    let mut dirty = clean.clone();
    dirty[1].1[40] ^= 1;
    assert!(ubifs(&as_lebs(&dirty)).is_err());
    let checksum = crc32_register(&dirty[1].1[8..], u32::MAX);
    put_u32(&mut dirty[1].1, 4, checksum);
    assert_eq!(dirty[1].1, master_node(5, 1, root));
    for (v, expected) in [(clean, false), (dirty, true)] {
        let (files, warning) = ubifs(&as_lebs(&v)).unwrap();
        assert_eq!(warning, expected);
        check_volume_files(&files);
    }
}

#[test]
fn jffs2_node_order_does_not_matter() {
    let nodes = [
        dirent_of(1, 4, b"f", 0),
        dirent_of(1, 5, b"f", 8),
        inode_of(1, 4, 0, 4, 0, b"abcd"),
        inode_of(2, 6, 2, 4, 0, b"XXXX"),
        inode_of(3, 3, 0, 0, 0, b""),
    ];
    let mut orders = Vec::new();
    for i in 0..5 {
        for j in 0..5 {
            let mut order: Vec<usize> = (0..5).collect();
            order.swap(i, j);
            order.rotate_left((i + j) % 5);
            orders.push(order);
        }
    }
    for order in orders {
        let mut image = Vec::new();
        for i in order {
            append_jffs2_node(&mut image, &nodes[i]);
        }
        let (files, damaged) = jffs2(&image).unwrap();
        assert!(!damaged);
        assert_eq!(files.get("f").unwrap(), b"abX");
    }
}
