use lib::cmd::{list_path, load_root, put_file, read_path, remove_path, CmdError, ListEntry, Listing};
use lib::dir::{
    daddent, dlookup, get_dirent, icreate, ilookup, iunlink, same_chars, split_path,
    string_chars, try_dlookup, try_ilookup, visible_name,
};
use lib::fs::{Dinode, SuperBlock, BSIZE, DIRENT_SIZE, ROOT_INODE_NUMBER, T_DIR, T_FILE};
use lib::libfs::{
    bmap, get_superblock, iget, ialloc, inode_in_image, iread, itruncate, iwrite, try_bmap,
    try_ialloc, try_iread, try_iwrite,
};

const NBLOCKS: usize = 40;
const INODESTART: usize = 2;
const NINODES: u32 = 32;

fn put32(img: &mut Vec<u8>, p: usize, v: u32) {
    img[p..p + 4].copy_from_slice(&v.to_le_bytes());
}

fn put16(img: &mut Vec<u8>, p: usize, v: u16) {
    img[p..p + 2].copy_from_slice(&v.to_le_bytes());
}

fn inode_off(inum: usize) -> usize {
    BSIZE * (inum / 16 + INODESTART) + 64 * (inum % 16)
}

fn set_inode(img: &mut Vec<u8>, inum: usize, file_type: i16, nlink: i16, size: u32, addrs: &[u32]) {
    let p = inode_off(inum);
    put16(img, p, file_type as u16);
    put16(img, p + 6, nlink as u16);
    put32(img, p + 8, size);
    for (i, a) in addrs.iter().enumerate() {
        put32(img, p + 12 + 4 * i, *a);
    }
}

fn set_entry(img: &mut Vec<u8>, p: usize, inum: u16, name: &str) {
    put16(img, p, inum);
    for (i, b) in name.bytes().enumerate() {
        img[p + 2 + i] = b;
    }
}

/// A small image: root directory (inode 1, block 10) holding ".", ".." and
/// "hello"; "hello" is inode 2, 5 bytes "world" in block 11.
fn sample_image() -> Vec<u8> {
    let mut img = vec![0u8; NBLOCKS * BSIZE];
    let sb = BSIZE;
    put32(&mut img, sb, 0x10203040);
    put32(&mut img, sb + 4, NBLOCKS as u32);
    put32(&mut img, sb + 8, 20);
    put32(&mut img, sb + 12, NINODES);
    put32(&mut img, sb + 16, 0);
    put32(&mut img, sb + 20, 0);
    put32(&mut img, sb + 24, INODESTART as u32);
    put32(&mut img, sb + 28, 4);
    set_inode(&mut img, 1, T_DIR, 1, 48, &[10]);
    set_inode(&mut img, 2, T_FILE, 1, 5, &[11]);
    set_entry(&mut img, 10 * BSIZE, 1, ".");
    set_entry(&mut img, 10 * BSIZE + 16, 1, "..");
    set_entry(&mut img, 10 * BSIZE + 32, 2, "hello");
    img[11 * BSIZE..11 * BSIZE + 5].copy_from_slice(b"world");
    img
}

fn root_of(img: &Vec<u8>) -> Dinode {
    iget(img, &get_superblock(img), ROOT_INODE_NUMBER)
}

fn s(x: &str) -> String {
    x.to_string()
}

#[test]
fn superblock_fields_are_read_little_endian() {
    let img = sample_image();
    let sb = get_superblock(&img);
    assert_eq!(
        sb,
        SuperBlock {
            magic: 0x10203040,
            size: 40,
            nblocks: 20,
            ninodes: 32,
            nlog: 0,
            logstart: 0,
            inodestart: 2,
            bmapstart: 4,
        }
    );
}

#[test]
fn iget_reads_the_root_record() {
    let img = sample_image();
    let root = root_of(&img);
    assert_eq!(root.pos, 2 * BSIZE + 64);
    assert_eq!(root.inum, 1);
    assert_eq!(root.file_type, T_DIR);
    assert_eq!(root.nlink, 1);
    assert_eq!(root.size, 48);
    assert_eq!(root.addrs[0], 10);
    assert_eq!(root.addrs[1], 0);
}

#[test]
fn iget_reads_negative_fields_as_signed() {
    let mut img = sample_image();
    put16(&mut img, inode_off(5) + 2, 0xffff);
    let sb = get_superblock(&img);
    let d = iget(&img, &sb, 5);
    assert_eq!(d.major, -1);
    assert_eq!(d.inum, 5);
}

#[test]
fn inode_in_image_tells_whether_the_record_fits() {
    let img = sample_image();
    let sb = get_superblock(&img);
    assert!(inode_in_image(&img, &sb, 31));
    assert!(inode_in_image(&img, &sb, (NBLOCKS - INODESTART) * 16 - 1));
    assert!(!inode_in_image(&img, &sb, (NBLOCKS - INODESTART) * 16));
    assert!(!inode_in_image(&img, &sb, usize::MAX));
}

#[test]
fn bmap_direct_indirect_and_beyond() {
    let mut img = sample_image();
    let mut addrs = [0u32; 13];
    addrs[0] = 11;
    addrs[12] = 20;
    set_inode(&mut img, 3, T_FILE, 1, 0, &addrs);
    put32(&mut img, 20 * BSIZE + 4 * 3, 21);
    let sb = get_superblock(&img);
    let ip = iget(&img, &sb, 3);
    assert_eq!(bmap(&img, &ip, 0), 11 * BSIZE);
    assert_eq!(bmap(&img, &ip, 15), 21 * BSIZE);
    assert_eq!(bmap(&img, &ip, 12 + 256), 0);
    assert_eq!(try_bmap(&img, &ip, 12 + 255), Some(0));
}

#[test]
fn bmap_reports_an_indirect_block_outside_the_image() {
    let img = sample_image();
    let mut ip = root_of(&img);
    ip.addrs[12] = 1000;
    assert_eq!(try_bmap(&img, &ip, 12), None);
}

#[test]
fn iread_stops_at_the_size() {
    let img = sample_image();
    let sb = get_superblock(&img);
    let ip = iget(&img, &sb, 2);
    assert_eq!(iread(&img, &ip, 100, 0), b"world".to_vec());
    assert_eq!(iread(&img, &ip, 3, 1), b"orl".to_vec());
    assert_eq!(iread(&img, &ip, 10, 5), Vec::<u8>::new());
}

#[test]
fn iread_past_the_size_is_refused() {
    let img = sample_image();
    let sb = get_superblock(&img);
    let ip = iget(&img, &sb, 2);
    assert_eq!(try_iread(&img, &ip, 10, 6), None);
    assert_eq!(try_iread(&img, &ip, usize::MAX, 1), None);
}

#[test]
fn iwrite_then_iread_gives_the_bytes_back() {
    let mut img = sample_image();
    let sb = get_superblock(&img);
    let ip = iget(&img, &sb, 2);
    let data: Vec<u8> = (0..2000u32).map(|i| (i % 251) as u8).collect();
    let mut addrs = [0u32; 13];
    addrs[0] = 11;
    addrs[1] = 12;
    set_inode(&mut img, 2, T_FILE, 1, 5, &addrs);
    let ip = Dinode { addrs, ..ip };
    let before = img.clone();
    iwrite(&mut img, &ip, 3, &data);
    assert_eq!(&img[10 * BSIZE..11 * BSIZE], &before[10 * BSIZE..11 * BSIZE]);
    assert_eq!(&img[..ip.pos + 8], &before[..ip.pos + 8]);
    assert_eq!(&img[ip.pos + 12..10 * BSIZE], &before[ip.pos + 12..10 * BSIZE]);
    assert_eq!(&img[13 * BSIZE..], &before[13 * BSIZE..]);
    let again = iget(&img, &sb, 2);
    assert_eq!(again.size, 2003);
    assert_eq!(iread(&img, &again, 2000, 3), data);
    assert_eq!(iread(&img, &again, 3, 0), b"wor".to_vec());
}

#[test]
fn iwrite_inside_the_size_keeps_the_size() {
    let mut img = sample_image();
    let sb = get_superblock(&img);
    let ip = iget(&img, &sb, 2);
    iwrite(&mut img, &ip, 1, &b"ak".to_vec());
    let again = iget(&img, &sb, 2);
    assert_eq!(again.size, 5);
    assert_eq!(iread(&img, &again, 5, 0), b"wakld".to_vec());
}

#[test]
fn iwrite_outside_the_image_is_refused() {
    let mut img = sample_image();
    let sb = get_superblock(&img);
    let mut ip = iget(&img, &sb, 2);
    ip.addrs[0] = 40;
    assert!(try_iwrite(&mut img, &ip, 1000, &vec![1, 2, 3]) == false);
}

#[test]
fn ialloc_takes_the_first_free_inode() {
    let mut img = sample_image();
    let sb = get_superblock(&img);
    let d = ialloc(&mut img, T_FILE).unwrap();
    assert_eq!(d.inum, 3);
    assert_eq!(d.file_type, T_FILE);
    assert_eq!(iget(&img, &sb, 3), d);
}

#[test]
fn ialloc_writes_a_negative_type_as_its_bits() {
    let mut img = sample_image();
    let sb = get_superblock(&img);
    let d = ialloc(&mut img, -2).unwrap();
    assert_eq!(iget(&img, &sb, d.inum as usize).file_type, -2);
}

#[test]
fn ialloc_gives_none_when_every_inode_is_used() {
    let mut img = sample_image();
    for inum in 3..NINODES as usize {
        set_inode(&mut img, inum, T_FILE, 1, 0, &[]);
    }
    let before = img.clone();
    assert_eq!(ialloc(&mut img, T_FILE), None);
    assert_eq!(img, before);
}

#[test]
fn ialloc_on_a_short_image_is_refused() {
    let mut img = vec![0u8; 1000];
    assert_eq!(try_ialloc(&mut img, T_FILE), None);
}

#[test]
fn get_dirent_parses_an_entry() {
    let buf = vec![2, 1, b'a', b'b', 0, 0, 0, 0, 0, 0, 0, 0, 0, 0, 0, b'z'];
    let de = get_dirent(&buf);
    assert_eq!(de.inum, 0x0102);
    assert_eq!(de.name[0], b'a');
    assert_eq!(de.name[1], b'b');
    assert_eq!(de.name[13], b'z');
    let short = get_dirent(&vec![7, 0, b'q']);
    assert_eq!(short.inum, 7);
    assert_eq!(short.name[0], b'q');
    assert_eq!(short.name[1], 0);
}

#[test]
fn visible_name_drops_zero_bytes() {
    let mut name = [0u8; 14];
    name[0] = b'a';
    name[2] = b'b';
    name[13] = 0xe9;
    assert_eq!(visible_name(&name), vec!['a', 'b', '\u{e9}']);
    assert!(same_chars(&vec!['a', 'b'], &vec!['a', 'b']));
    assert!(!same_chars(&vec!['a', 'b'], &vec!['a']));
    assert!(!same_chars(&vec!['a', 'b'], &vec!['a', 'c']));
}

#[test]
fn split_path_drops_empty_names() {
    let names = split_path(&s("/a//bc/"));
    assert_eq!(names, vec![vec!['a'], vec!['b', 'c']]);
    assert!(split_path(&s("///")).is_empty());
    assert!(split_path(&s("")).is_empty());
    assert_eq!(string_chars(&s("hé")), vec!['h', 'é']);
}

#[test]
fn dlookup_finds_the_entry_and_its_offset() {
    let img = sample_image();
    let root = root_of(&img);
    let (d, off) = dlookup(&img, &root, &s("hello")).unwrap();
    assert_eq!(off, 32);
    assert_eq!(d.inum, 2);
    assert_eq!(d.size, 5);
    let (dot, off) = dlookup(&img, &root, &s(".")).unwrap();
    assert_eq!(off, 0);
    assert_eq!(dot.inum, 1);
    assert_eq!(dlookup(&img, &root, &s("hell")), None);
    assert_eq!(dlookup(&img, &root, &s("")), None);
}

#[test]
fn dlookup_reads_stored_bytes_as_latin1_characters() {
    let mut img = sample_image();
    img[10 * BSIZE + 32 + 2] = 0xe9;
    let root = root_of(&img);
    assert!(dlookup(&img, &root, &s("\u{e9}ello")).is_some());
}

#[test]
fn dlookup_on_a_truncated_entry_is_refused() {
    let img = sample_image();
    let mut root = root_of(&img);
    root.size = 49;
    assert_eq!(try_dlookup(&img, &root, &vec!['x']), None);
}

#[test]
fn ilookup_walks_paths() {
    let img = sample_image();
    let root = root_of(&img);
    assert_eq!(ilookup(&img, &root, &s("/")).unwrap(), root);
    assert_eq!(ilookup(&img, &root, &s("")).unwrap(), root);
    assert_eq!(ilookup(&img, &root, &s("hello")).unwrap().inum, 2);
    assert_eq!(ilookup(&img, &root, &s("//hello/")).unwrap().inum, 2);
    assert_eq!(ilookup(&img, &root, &s("./../hello")).unwrap().inum, 2);
    assert_eq!(ilookup(&img, &root, &s("nope")), None);
    assert_eq!(ilookup(&img, &root, &s("hello/x")), None);
    assert_eq!(try_ilookup(&img, &root, &s("hello")).unwrap().unwrap().inum, 2);
}

#[test]
fn daddent_appends_past_the_last_used_slot() {
    let mut img = sample_image();
    let root = root_of(&img);
    let sb = get_superblock(&img);
    let mut ip = iget(&img, &sb, 3);
    ip.inum = 3;
    daddent(&mut img, &root, &s("new"), &mut ip);
    assert_eq!(ip.nlink, 1);
    let again = root_of(&img);
    assert_eq!(again.size, 64);
    let e = iread(&img, &again, DIRENT_SIZE, 48);
    assert_eq!(e, vec![3, 0, b'n', b'e', b'w', 0, 0, 0, 0, 0, 0, 0, 0, 0, 0, 0]);
}

#[test]
fn daddent_reuses_a_cleared_slot() {
    let mut img = sample_image();
    put16(&mut img, 10 * BSIZE + 16, 0);
    let root = root_of(&img);
    let sb = get_superblock(&img);
    let mut ip = iget(&img, &sb, 7);
    daddent(&mut img, &root, &s("averyverylongname"), &mut ip);
    let again = root_of(&img);
    assert_eq!(again.size, 48);
    let e = iread(&img, &again, DIRENT_SIZE, 16);
    assert_eq!(&e[0..2], &[7, 0]);
    assert_eq!(&e[2..16], b"averyverylongn");
}

#[test]
fn daddent_into_an_empty_directory_stores_no_name() {
    let mut img = sample_image();
    set_inode(&mut img, 4, T_DIR, 1, 0, &[12]);
    let sb = get_superblock(&img);
    let dir = iget(&img, &sb, 4);
    let mut ip = iget(&img, &sb, 2);
    daddent(&mut img, &dir, &s("x"), &mut ip);
    let again = iget(&img, &sb, 4);
    assert_eq!(again.size, 16);
    assert_eq!(iread(&img, &again, 16, 0), vec![2, 0, 0, 0, 0, 0, 0, 0, 0, 0, 0, 0, 0, 0, 0, 0]);
    assert_eq!(ip.nlink, 2);
}

#[test]
fn icreate_makes_a_file_that_lookup_then_finds() {
    let mut img = sample_image();
    let root = root_of(&img);
    let ip = icreate(&mut img, &root, &s("/new")).unwrap();
    assert_eq!(ip.inum, 3);
    assert_eq!(ip.file_type, T_FILE);
    assert_eq!(ip.nlink, 1);
    let root2 = root_of(&img);
    let found = ilookup(&img, &root2, &s("new")).unwrap();
    assert_eq!(found.inum, 3);
    assert_eq!(found.file_type, T_FILE);
}

#[test]
fn icreate_of_an_existing_name_gives_none() {
    let mut img = sample_image();
    let root = root_of(&img);
    let before = img.clone();
    assert_eq!(icreate(&mut img, &root, &s("hello")), None);
    assert_eq!(img, before);
    assert_eq!(icreate(&mut img, &root, &s("/")).unwrap(), root);
}

#[test]
fn iunlink_clears_the_entry() {
    let mut img = sample_image();
    let root = root_of(&img);
    iunlink(&mut img, &root, &s("/hello"));
    assert_eq!(ilookup(&img, &root, &s("hello")), None);
    assert_eq!(iread(&img, &root, 16, 32), vec![0u8; 16]);
    assert!(ilookup(&img, &root, &s("..")).is_some());
}

#[test]
fn iunlink_leaves_dot_names_and_missing_names_alone() {
    let mut img = sample_image();
    let root = root_of(&img);
    let before = img.clone();
    iunlink(&mut img, &root, &s("."));
    iunlink(&mut img, &root, &s(".."));
    iunlink(&mut img, &root, &s("missing"));
    assert_eq!(img, before);
}

#[test]
fn itruncate_zeroes_the_data_blocks() {
    let mut img = sample_image();
    let sb = get_superblock(&img);
    let ip = iget(&img, &sb, 2);
    itruncate(&mut img, &ip);
    assert!(img[11 * BSIZE..12 * BSIZE].iter().all(|b| *b == 0));
    assert_eq!(iget(&img, &sb, 2).size, 5);
    assert_eq!(&img[10 * BSIZE + 34..10 * BSIZE + 39], b"hello");
}

#[test]
fn itruncate_zeroes_the_indirect_block_of_a_large_file() {
    let mut img = sample_image();
    let mut addrs = [0u32; 13];
    for i in 0..12 {
        addrs[i] = 20 + i as u32;
    }
    addrs[12] = 33;
    set_inode(&mut img, 3, T_FILE, 1, 13 * 1024, &addrs);
    put32(&mut img, 33 * BSIZE, 34);
    for b in 20..35 {
        img[b * BSIZE + 1] = 9;
    }
    let sb = get_superblock(&img);
    let ip = iget(&img, &sb, 3);
    itruncate(&mut img, &ip);
    for b in 20..32 {
        assert_eq!(img[b * BSIZE + 1], 0, "block {}", b);
    }
    assert_eq!(img[32 * BSIZE + 1], 9);
    assert_eq!(img[33 * BSIZE + 1], 0);
    assert_eq!(img[34 * BSIZE + 1], 9);
}

#[test]
fn load_root_needs_the_root_record_in_the_image() {
    assert_eq!(load_root(&vec![0u8; 100]), None);
    let img = sample_image();
    assert_eq!(load_root(&img).unwrap(), root_of(&img));
    assert_eq!(load_root(&img[..2 * BSIZE + 100].to_vec()), None);
}

#[test]
fn ls_lists_a_directory() {
    let img = sample_image();
    let root = root_of(&img);
    let mut dot = [0u8; 14];
    dot[0] = b'.';
    match list_path(&img, &root, &s("/")).unwrap() {
        Listing::Directory(v) => {
            assert_eq!(v.len(), 3);
            assert_eq!(v[0], ListEntry { name: dot, file_type: T_DIR, inum: 1, size: 48 });
            assert_eq!(v[2].inum, 2);
            assert_eq!(v[2].file_type, T_FILE);
            assert_eq!(v[2].size, 5);
            assert_eq!(&v[2].name[0..6], b"hello\0");
        }
        Listing::Single(_) => panic!("expected a directory"),
    }
}

#[test]
fn ls_skips_cleared_entries_and_shows_files() {
    let mut img = sample_image();
    put16(&mut img, 10 * BSIZE + 16, 0);
    let root = root_of(&img);
    match list_path(&img, &root, &s("")).unwrap() {
        Listing::Directory(v) => assert_eq!(v.len(), 2),
        Listing::Single(_) => panic!("expected a directory"),
    }
    match list_path(&img, &root, &s("hello")).unwrap() {
        Listing::Single(d) => assert_eq!(d.inum, 2),
        Listing::Directory(_) => panic!("expected a file"),
    }
    assert_eq!(list_path(&img, &root, &s("zzz")), Err(CmdError::NotFound));
}

#[test]
fn get_reads_a_whole_file() {
    let img = sample_image();
    let root = root_of(&img);
    assert_eq!(read_path(&img, &root, &s("/hello")).unwrap(), b"world".to_vec());
    assert_eq!(read_path(&img, &root, &s("/nope")), Err(CmdError::NotFound));
}

#[test]
fn get_of_a_file_outside_the_image_is_malformed() {
    let mut img = sample_image();
    set_inode(&mut img, 2, T_FILE, 1, 5, &[1000]);
    let root = root_of(&img);
    assert_eq!(read_path(&img, &root, &s("/hello")), Err(CmdError::Malformed));
}

#[test]
fn put_then_get_gives_the_data_back() {
    let mut img = sample_image();
    let root = root_of(&img);
    let data: Vec<u8> = (0..1500u32).map(|i| (i * 7 % 256) as u8).collect();
    let mut addrs = [0u32; 13];
    addrs[0] = 11;
    addrs[1] = 12;
    set_inode(&mut img, 2, T_FILE, 1, 5, &addrs);
    assert_eq!(put_file(&mut img, &root, &s("hello"), &data), Ok(()));
    assert_eq!(read_path(&img, &root, &s("hello")).unwrap(), data);
}

#[test]
fn put_of_a_new_name_creates_it() {
    let mut img = sample_image();
    let root = root_of(&img);
    assert_eq!(put_file(&mut img, &root, &s("new"), &vec![]), Ok(()));
    let root2 = root_of(&img);
    let d = ilookup(&img, &root2, &s("new")).unwrap();
    assert_eq!(d.size, 0);
    assert_eq!(d.file_type, T_FILE);
}

#[test]
fn put_over_a_directory_is_refused() {
    let mut img = sample_image();
    let root = root_of(&img);
    let before = img.clone();
    assert_eq!(put_file(&mut img, &root, &s("/"), &vec![1]), Err(CmdError::NotAFile));
    assert_eq!(img, before);
}

#[test]
fn put_when_no_inode_is_free_cannot_create() {
    let mut img = sample_image();
    for inum in 3..NINODES as usize {
        set_inode(&mut img, inum, T_FILE, 1, 0, &[]);
    }
    let root = root_of(&img);
    assert_eq!(put_file(&mut img, &root, &s("x"), &vec![1]), Err(CmdError::CannotCreate));
}

#[test]
fn rm_removes_a_file_but_not_a_directory() {
    let mut img = sample_image();
    let root = root_of(&img);
    assert_eq!(remove_path(&mut img, &root, &s("/")), Err(CmdError::IsADirectory));
    assert_eq!(remove_path(&mut img, &root, &s("nope")), Err(CmdError::NotFound));
    assert_eq!(remove_path(&mut img, &root, &s("hello")), Ok(()));
    assert_eq!(ilookup(&img, &root, &s("hello")), None);
    assert_eq!(read_path(&img, &root, &s("hello")), Err(CmdError::NotFound));
}

#[test]
fn a_short_image_is_malformed_for_every_command() {
    let mut img = vec![0u8; 2000];
    let mut root = Dinode {
        pos: 0,
        inum: 1,
        file_type: T_DIR,
        major: 0,
        minor: 0,
        nlink: 1,
        size: 16,
        addrs: [0; 13],
    };
    root.addrs[0] = 5;
    assert_eq!(list_path(&img, &root, &s("a")), Err(CmdError::Malformed));
    assert_eq!(read_path(&img, &root, &s("a")), Err(CmdError::Malformed));
    assert_eq!(remove_path(&mut img, &root, &s("a")), Err(CmdError::Malformed));
    assert_eq!(put_file(&mut img, &root, &s("a"), &vec![1]), Err(CmdError::Malformed));
}

/// The sample image with a subdirectory "d" (inode 4, block 12) entered in
/// the root, holding ".", ".." and the file "f" (inode 5, block 13, "abc").
fn nested_image() -> Vec<u8> {
    let mut img = sample_image();
    set_inode(&mut img, 1, T_DIR, 1, 64, &[10]);
    set_entry(&mut img, 10 * BSIZE + 48, 4, "d");
    set_inode(&mut img, 4, T_DIR, 1, 48, &[12]);
    set_entry(&mut img, 12 * BSIZE, 4, ".");
    set_entry(&mut img, 12 * BSIZE + 16, 1, "..");
    set_entry(&mut img, 12 * BSIZE + 32, 5, "f");
    set_inode(&mut img, 5, T_FILE, 1, 3, &[13, 14]);
    img[13 * BSIZE..13 * BSIZE + 3].copy_from_slice(b"abc");
    img
}

#[test]
fn put_then_get_through_a_subdirectory() {
    let mut img = nested_image();
    let root = root_of(&img);
    let data: Vec<u8> = (0..1800u32).map(|i| (i * 13 % 251) as u8).collect();
    assert_eq!(put_file(&mut img, &root, &s("d/f"), &data), Ok(()));
    assert_eq!(read_path(&img, &root, &s("/d/f")).unwrap(), data);
    let f = ilookup(&img, &root, &s("d/f")).unwrap();
    assert_eq!(f.inum, 5);
    assert_eq!(f.size, 1800);
    assert_eq!(read_path(&img, &root, &s("hello")).unwrap(), b"world".to_vec());
}

#[test]
fn put_then_get_shrinks_the_size_to_the_data() {
    let mut img = sample_image();
    let root = root_of(&img);
    assert_eq!(put_file(&mut img, &root, &s("hello"), &vec![b'h', b'i']), Ok(()));
    assert_eq!(read_path(&img, &root, &s("hello")).unwrap(), vec![b'h', b'i']);
    assert_eq!(ilookup(&img, &root, &s("hello")).unwrap().size, 2);
}

#[test]
fn put_then_get_of_a_created_file() {
    let mut img = sample_image();
    let root = root_of(&img);
    let data: Vec<u8> = (0..100u32).map(|i| (i + 1) as u8).collect();
    assert_eq!(put_file(&mut img, &root, &s("fresh"), &data), Ok(()));
    let root2 = root_of(&img);
    assert_eq!(read_path(&img, &root2, &s("fresh")).unwrap(), data);
    let d = ilookup(&img, &root2, &s("fresh")).unwrap();
    assert_eq!(d.inum, 3);
    assert_eq!(d.size, 100);
}

#[test]
fn lookup_of_joined_paths_composes() {
    let img = nested_image();
    let root = root_of(&img);
    let d = ilookup(&img, &root, &s("d")).unwrap();
    assert_eq!(d.inum, 4);
    let f = ilookup(&img, &d, &s("f")).unwrap();
    assert_eq!(ilookup(&img, &root, &s("d/f")).unwrap(), f);
    assert_eq!(ilookup(&img, &root, &s("//d//f/")).unwrap(), f);
    assert_eq!(ilookup(&img, &root, &s("d/./../d/f")).unwrap(), f);
    assert_eq!(ilookup(&img, &root, &s("d/nope")), None);
}

#[test]
fn one_name_lookup_is_a_directory_lookup() {
    let img = nested_image();
    let root = root_of(&img);
    let (d, off) = dlookup(&img, &root, &s("d")).unwrap();
    assert_eq!(off, 48);
    assert_eq!(ilookup(&img, &root, &s("/d/")).unwrap(), d);
    assert_eq!(dlookup(&img, &root, &s("zz")), None);
    assert_eq!(ilookup(&img, &root, &s("zz")), None);
}

#[test]
fn allocations_never_hand_out_a_number_twice() {
    let mut img = sample_image();
    let sb = get_superblock(&img);
    let before = iget(&img, &sb, 3);
    let a = ialloc(&mut img, T_FILE).unwrap();
    let b = ialloc(&mut img, T_DIR).unwrap();
    assert_eq!(a.inum, 3);
    assert_eq!(b.inum, 4);
    assert!(b.inum > a.inum);
    let again = iget(&img, &sb, 3);
    assert_eq!(again.file_type, T_FILE);
    assert_eq!(again.size, before.size);
    assert_eq!(again.nlink, before.nlink);
    assert_eq!(again.addrs, before.addrs);
}

#[test]
fn added_entry_is_found_through_the_record_read_back() {
    let mut img = sample_image();
    let root = root_of(&img);
    let sb = get_superblock(&img);
    let mut ip = iget(&img, &sb, 6);
    daddent(&mut img, &root, &s("added"), &mut ip);
    let root2 = root_of(&img);
    let (d, off) = dlookup(&img, &root2, &s("added")).unwrap();
    assert_eq!(d.inum, 6);
    assert_eq!(off, 48);
    assert_eq!(dlookup(&img, &root, &s("added")), None);
}

#[test]
fn rm_through_a_subdirectory_clears_the_entry() {
    let mut img = nested_image();
    let root = root_of(&img);
    assert_eq!(remove_path(&mut img, &root, &s("d/f")), Ok(()));
    assert_eq!(ilookup(&img, &root, &s("d/f")), None);
    assert_eq!(iread(&img, &iget(&img, &get_superblock(&img), 4), 16, 32), vec![0u8; 16]);
    assert!(ilookup(&img, &root, &s("d")).is_some());
}

#[test]
fn reading_in_two_parts_gives_one_read() {
    let mut img = sample_image();
    let sb = get_superblock(&img);
    let mut addrs = [0u32; 13];
    addrs[0] = 11;
    addrs[1] = 12;
    set_inode(&mut img, 2, T_FILE, 1, 1500, &addrs);
    for i in 0..1500usize {
        let b = if i < 1024 { 11 * BSIZE + i } else { 12 * BSIZE + i - 1024 };
        img[b] = (i % 253) as u8;
    }
    let ip = iget(&img, &sb, 2);
    let whole = iread(&img, &ip, 1000, 100);
    let mut parts = iread(&img, &ip, 700, 100);
    parts.extend(iread(&img, &ip, 300, 800));
    assert_eq!(parts, whole);
    assert_eq!(whole[0], 100);
    assert_eq!(whole[999], (1099 % 253) as u8);
    let mut small = iread(&img, &ip, 2, 0);
    small.extend(iread(&img, &ip, 3, 2));
    assert_eq!(small, iread(&img, &ip, 5, 0));
}
