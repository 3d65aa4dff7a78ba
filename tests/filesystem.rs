use std::collections::HashMap;

use bbrdb::error::LibBBRDBError;
use bbrdb::fat::{
    assemble_file, best_fat_slot, image_block, bytes_to_blocks, calc_file_checksum, check_nand_sizes, chksum_file_data,
    chksum_file_name, fat_slot_block, same_lowercase, write_file_blocks,
};
use bbrdb::fs::{check_fat_checksum, encode_fat_block, fix_fat_checksum, next_block_size, parse_fat_block};
use bbrdb::names::canonical_name;
use bbrdb::player::BBPlayer;
use bbrdb::{FATEntry, FSBlock, FSFooter, FSType, Fat, FileEntry, FileValid, _Fat};

fn raw_block(first: bool, seqno: u32, link: u16) -> Vec<u8> {
    let mut b = vec![0u8; 0x4000];
    b[0x3FF4..0x3FF8].copy_from_slice(if first { b"BBFS" } else { b"BBFL" });
    b[0x3FF8..0x3FFC].copy_from_slice(&seqno.to_be_bytes());
    b[0x3FFC..0x3FFE].copy_from_slice(&link.to_be_bytes());
    fix_fat_checksum(&mut b);
    b
}

fn empty_fat(cardsize: u32, seqno: u32) -> Fat {
    let fragments = cardsize / 4096;
    let mut partial = _Fat::new();
    for k in 0..fragments {
        let link = if k + 1 < fragments { (cardsize - 2 - k) as u16 } else { 0 };
        let block = parse_fat_block(&raw_block(k == 0, seqno, link)).unwrap();
        assert_eq!(partial.add_block(block, 0), Ok(link));
    }
    Fat::from_partial(partial, cardsize).unwrap()
}

fn store(fat: &mut Fat, device: &mut HashMap<u16, Vec<u8>>, data: &[u8], name: &[u8]) {
    assert_eq!(fat.validate_file_write(name, data.len() as u32, false), Ok(true));
    let blocks = fat.write_blocks_to_temp_file(data.len() as u32).unwrap();
    let chunks = write_file_blocks(data, &blocks).unwrap();
    for (b, c) in blocks.iter().zip(chunks) {
        device.insert(*b, c);
    }
    fat.update_fs();
    assert_eq!(fat.rename_file(b"temp.tmp", name), Ok(true));
    fat.update_fs();
}

fn load(fat: &Fat, device: &HashMap<u16, Vec<u8>>, name: &[u8]) -> Option<Vec<u8>> {
    let (plan, size) = fat.read_plan(name)?;
    let blocks: Vec<Vec<u8>> = plan.iter().map(|b| device[b].clone()).collect();
    Some(assemble_file(&blocks, size))
}

#[test]
fn checksum_fix_then_check() {
    let mut b = vec![0x12u8; 0x4000];
    assert!(check_fat_checksum(&b).is_err());
    fix_fat_checksum(&mut b);
    assert_eq!(check_fat_checksum(&b), Ok(()));
    let sum = b.chunks(2).fold(0u16, |a, c| a.wrapping_add(u16::from_be_bytes([c[0], c[1]])));
    assert_eq!(sum, 0xCAD7);
    b[10] ^= 1;
    assert!(matches!(check_fat_checksum(&b), Err(LibBBRDBError::InvalidFATChecksum(_))));
}

#[test]
fn fs_block_parse_and_write_back() {
    let mut raw = raw_block(true, 0x100, 0x0FFE);
    raw[0x80] = 0x00;
    raw[0x81] = 0x41;
    raw[0x82] = 0xFF;
    raw[0x83] = 0xFF;
    fix_fat_checksum(&mut raw);
    let block = parse_fat_block(&raw).unwrap();
    assert_eq!(block.fat[0x40], FATEntry::Chain(0x41));
    assert_eq!(block.fat[0x41], FATEntry::EndOfChain);
    assert_eq!(block.footer.fs_type, FSType::Bbfs);
    assert_eq!(block.footer.seqno, 0x100);
    assert_eq!(block.footer.link_block, 0x0FFE);
    assert_eq!(block.to_bytes(), raw);
    assert_eq!(encode_fat_block(&block), raw);
    let mut bad = raw.clone();
    bad[0x2000 + 11] = 7;
    fix_fat_checksum(&mut bad);
    assert_eq!(parse_fat_block(&bad).unwrap_err(), LibBBRDBError::MalformedFSBlock);
    assert_eq!(FSBlock::parse(&raw[..100]).unwrap_err(), LibBBRDBError::MalformedFSBlock);
}

#[test]
fn fat_entry_values() {
    assert_eq!(FATEntry::from_u16(0), FATEntry::Free);
    assert_eq!(FATEntry::from_u16(0xFFFF), FATEntry::EndOfChain);
    assert_eq!(FATEntry::from_u16(0xFFFE), FATEntry::BadBlock);
    assert_eq!(FATEntry::from_u16(0xFFFD), FATEntry::Reserved);
    assert_eq!(FATEntry::from_u16(0x1234), FATEntry::Chain(0x1234));
    assert_eq!(FATEntry::Chain(0x40).to_u16(), 0x40);
    assert_eq!(FATEntry::BadBlock.to_u16(), 0xFFFE);
}

#[test]
fn continuation_fragment_shares_seqno() {
    let mut partial = _Fat::new();
    let first = parse_fat_block(&raw_block(true, 0x100, 0x0FFE)).unwrap();
    assert_eq!(partial.add_block(first, 0), Ok(0x0FFE));
    let other = parse_fat_block(&raw_block(false, 0x101, 0)).unwrap();
    assert_eq!(partial.add_block(other, 0), Err(LibBBRDBError::CorruptFS));
    let next = parse_fat_block(&raw_block(false, 0x100, 0)).unwrap();
    assert_eq!(partial.add_block(next, 0), Ok(0));
    let fat = Fat::from_partial(partial, 8192).unwrap();
    assert_eq!(fat.seqno(), 0x100);
    assert_eq!(fat.cardsize(), 8192);
    assert_eq!(fat.files().len(), 409);
}

#[test]
fn incomplete_fat_is_refused() {
    assert_eq!(Fat::from_partial(_Fat::new(), 4096).unwrap_err(), LibBBRDBError::NoFAT);
    let mut partial = _Fat::new();
    partial.add_block(parse_fat_block(&raw_block(true, 1, 0)).unwrap(), 3).unwrap();
    assert_eq!(Fat::from_partial(partial, 8192).unwrap_err(), LibBBRDBError::CorruptFS);
}

#[test]
fn fifteen_fragments_commit_around_the_current_slot() {
    let mut fat = empty_fat(0xF000, 9);
    let mut big = _Fat::new();
    big.add_block(parse_fat_block(&raw_block(true, 1, 0)).unwrap(), 0).unwrap();
    assert_eq!(Fat::from_partial(big, 0x10000).unwrap_err(), LibBBRDBError::UnhandledCardSize);
    let writes = fat.update_fs();
    assert_eq!(writes.len(), 15);
    for (k, w) in writes.iter().enumerate() {
        assert_eq!(w.0, 0xF000 - (1 + k as u32) - 1);
        assert_ne!(w.0, 0xF000 - 1);
    }
    assert_eq!(fat.blkno(), 1);
    assert_eq!(fat.seqno(), 10);
}

#[test]
fn write_then_read_gives_data_back() {
    let mut fat = empty_fat(4096, 7);
    let mut device = HashMap::new();
    let data = vec![0x41u8; 0x3FFF];
    store(&mut fat, &mut device, &data, b"test.bin");
    let i = fat.find_file(b"TEST.BIN").unwrap();
    let entry = fat.files()[i];
    assert_eq!(entry.size, 0x4000);
    assert_eq!(entry.pad, 1);
    assert_eq!(entry.start, FATEntry::Chain(0x40));
    assert_eq!(load(&fat, &device, b"test.bin"), Some(data));
    assert_eq!(fat.find_file(b"temp.tmp"), None);
}

#[test]
fn write_then_read_round_trips() {
    let mut fat = empty_fat(4096, 1);
    let mut device = HashMap::new();
    let a: Vec<u8> = (0..40000u32).map(|i| (i * 7) as u8).collect();
    let b = vec![3u8; 5];
    let c: Vec<u8> = vec![];
    store(&mut fat, &mut device, &a, b"a.dat");
    store(&mut fat, &mut device, &b, b"b");
    store(&mut fat, &mut device, &c, b"empty.z");
    assert_eq!(load(&fat, &device, b"a.dat"), Some(a.clone()));
    assert_eq!(load(&fat, &device, b"b"), Some(b));
    assert_eq!(load(&fat, &device, b"empty.z"), Some(c));
    assert_eq!(load(&fat, &device, b"missing"), None);
    let listing = fat.ListFiles();
    assert_eq!(listing.len(), 3);
    assert!(listing.contains(&("a.dat".to_string(), 40000)));
    assert!(listing.contains(&("b".to_string(), 5)));
    assert!(listing.contains(&("empty.z".to_string(), 0)));
    let d: Vec<u8> = vec![9u8; 100];
    store(&mut fat, &mut device, &d, b"a.dat");
    assert_eq!(load(&fat, &device, b"a.dat"), Some(d));
    assert_eq!(fat.ListFiles().len(), 3);
}

#[test]
fn block_sizes_at_the_boundary() {
    let mut e = FileEntry::default();
    e.set_size(0x4000);
    assert_eq!((e.size, e.pad), (0x4000, 0));
    e.set_size(0x4001);
    assert_eq!((e.size, e.pad), (0x8000, 0x3FFF));
    assert_eq!(e.size(), 0x4001);
    e.set_size(0);
    assert_eq!((e.size, e.pad), (0, 0));
    assert_eq!(next_block_size(1), 0x4000);
    assert_eq!(bytes_to_blocks(0x4001), 2);
    assert_eq!(bytes_to_blocks(0), 0);
}

#[test]
fn no_slot_for_a_410th_file() {
    let mut fat = empty_fat(4096, 1);
    let mut device = HashMap::new();
    for n in 0..409 {
        let name = format!("f{}", n);
        store(&mut fat, &mut device, &[1], name.as_bytes());
    }
    assert_eq!(fat.write_blocks_to_temp_file(1), Err(LibBBRDBError::NoEmptyFileSlots));
}

#[test]
fn too_big_for_free_blocks() {
    let fat = empty_fat(4096, 1);
    let free = fat.get_free_block_count() as u32;
    assert_eq!(free, 4096);
    let limit = free * 0x4000;
    assert_eq!(fat.validate_file_write(b"x.bin", limit, false), Ok(true));
    assert_eq!(
        fat.validate_file_write(b"X.Bin", limit + 1, false),
        Err(LibBBRDBError::FileTooBig("x.bin".to_string(), limit + 1, limit))
    );
}

#[test]
fn no_free_blocks_left() {
    let mut fat = empty_fat(4096, 1);
    let free_data = 4096 - 0x40 - 16;
    assert_eq!(fat.write_blocks_to_temp_file(((free_data + 1) * 0x4000) as u32), Err(LibBBRDBError::NoFreeBlocks));
    let blocks = fat.write_blocks_to_temp_file((free_data * 0x4000) as u32).unwrap();
    assert_eq!(blocks.len(), free_data);
    assert_eq!(blocks[0], 0x40);
    assert_eq!(*blocks.last().unwrap() as usize, 4096 - 17);
}

#[test]
fn same_data_twice_writes_nothing() {
    let mut fat = empty_fat(4096, 1);
    let mut device = HashMap::new();
    store(&mut fat, &mut device, &[5, 6, 7], b"s.bin");
    assert_eq!(fat.validate_file_write(b"s.bin", 3, true), Ok(false));
    assert_eq!(fat.validate_file_write(b"s.bin", 3, false), Ok(true));
}

#[test]
fn delete_then_write_is_a_plain_write() {
    let mut device = HashMap::new();
    let mut one = empty_fat(4096, 1);
    store(&mut one, &mut device, &[1, 2, 3], b"n.bin");
    one.delete_file(b"n.bin");
    let before = one.entries().clone();
    one.delete_file(b"n.bin");
    assert_eq!(one.entries(), &before);
    assert_eq!(one.find_file(b"n.bin"), None);
    let stats = one.CardStats();
    assert_eq!(stats.free, 4096);
}

#[test]
fn rename_to_itself_changes_nothing() {
    let mut fat = empty_fat(4096, 1);
    let mut device = HashMap::new();
    store(&mut fat, &mut device, &[1], b"a.bin");
    let seqno = fat.seqno();
    assert_eq!(fat.rename_file(b"a.bin", b"a.bin"), Ok(false));
    assert_eq!(fat.rename_file(b"a.bin", b"A.BIN"), Ok(false));
    assert_eq!(fat.seqno(), seqno);
    assert!(matches!(fat.rename_file(b"zz", b"yy"), Err(LibBBRDBError::FileNotFound(_))));
    assert!(matches!(fat.rename_file(b"a.bin", b"toolongname"), Err(LibBBRDBError::FileNameTooLong(_))));
}

#[test]
fn rename_after_checksum_commits_next_generation() {
    let mut fat = empty_fat(4096, 0x20);
    let mut device = HashMap::new();
    store(&mut fat, &mut device, &[1, 2], b"data.bin");
    let seqno = fat.seqno();
    let blkno = fat.blkno();
    fat.delete_file(b"temp.tmp");
    let blocks = fat.write_blocks_to_temp_file(4).unwrap();
    assert_eq!(fat.rename_file(b"temp.tmp", b"data.bin"), Ok(true));
    assert_eq!(fat.find_file(b"temp.tmp"), None);
    let i = fat.find_file(b"data.bin").unwrap();
    assert_eq!(fat.files()[i].start, FATEntry::Chain(blocks[0]));
    let writes = fat.update_fs();
    assert_eq!(writes.len(), 1);
    assert_eq!(fat.seqno(), seqno + 1);
    assert_eq!(fat.blkno(), (blkno + 1) % 16);
    assert_eq!(writes[0].0, 4096 - (blkno + 1) % 16 - 1);
    let block = parse_fat_block(&writes[0].1).unwrap();
    assert_eq!(block.footer.seqno, seqno + 1);
    assert_eq!(block.footer.fs_type, FSType::Bbfs);
    assert_eq!(block.footer.link_block, 0);
}

#[test]
fn commit_of_two_fragments_links_them() {
    let mut fat = empty_fat(8192, 5);
    let writes = fat.update_fs();
    assert_eq!(writes.len(), 2);
    assert_eq!(writes[0].0, 8192 - 1 - 1);
    assert_eq!(writes[1].0, 8192 - 2 - 1);
    assert!(writes.iter().all(|w| w.0 != 8192 - 0 - 1));
    let first = parse_fat_block(&writes[0].1).unwrap();
    let second = parse_fat_block(&writes[1].1).unwrap();
    assert_eq!(first.footer.link_block as u32, writes[1].0);
    assert_eq!(second.footer.link_block, 0);
    assert_eq!(second.footer.fs_type, FSType::Bbfl);
    assert_eq!(first.footer.seqno, 6);
    assert_eq!(second.footer.seqno, 6);
    assert_eq!(fat.blkno(), 1);
    let blocks = fat.blocks();
    assert_eq!(blocks.len(), 2);
    assert_eq!(blocks[0].footer.seqno, 7);
}

#[test]
fn stats_add_up() {
    let mut fat = empty_fat(4096, 1);
    let mut device = HashMap::new();
    store(&mut fat, &mut device, &vec![0u8; 0x8001], b"big");
    let stats = fat.CardStats();
    assert_eq!(stats.used, 3);
    assert_eq!(stats.free, 4093);
    assert_eq!(stats.bad, 0);
    assert_eq!(stats.free + stats.used + stats.bad, 4096);
    assert_eq!(fat.check(), Ok(()));
}

#[test]
fn broken_chain_is_reported() {
    let mut raw = raw_block(true, 1, 0);
    raw[0x2000 + 11] = 1;
    raw[0x2000] = b'x';
    raw[0x2000 + 12] = 0x00;
    raw[0x2000 + 13] = 0x50;
    fix_fat_checksum(&mut raw);
    let mut partial = _Fat::new();
    partial.add_block(parse_fat_block(&raw).unwrap(), 0).unwrap();
    let fat = Fat::from_partial(partial, 4096).unwrap();
    assert_eq!(fat.check(), Err(LibBBRDBError::CorruptFS));
}

#[test]
fn listed_names_are_lowercase() {
    let mut fat = empty_fat(4096, 1);
    let mut device = HashMap::new();
    store(&mut fat, &mut device, &[1], b"MiXeD.TxT");
    assert_eq!(fat.ListFiles(), vec![("mixed.txt".to_string(), 1)]);
}

#[test]
fn file_names() {
    assert_eq!(canonical_name(b"Test.BIN").unwrap(), (b"test".to_vec(), b"bin".to_vec()));
    assert_eq!(canonical_name(b"noext").unwrap(), (b"noext".to_vec(), vec![]));
    assert!(matches!(canonical_name(b"toolong12.bin"), Err(LibBBRDBError::FileNameTooLong(_))));
    assert!(matches!(canonical_name(b"a.abcd"), Err(LibBBRDBError::FileNameTooLong(_))));
    assert!(matches!(canonical_name(b".bin"), Err(LibBBRDBError::InvalidFilename(_))));
    assert!(matches!(canonical_name(b"a.b.c"), Err(LibBBRDBError::InvalidFilename(_))));
    assert!(matches!(canonical_name(b"a\0b"), Err(LibBBRDBError::InvalidFilename(_))));
    assert!(same_lowercase(b"ABC", b"abc"));
    assert!(!same_lowercase(b"ABC", b"abd"));
    let mut e = FileEntry::default();
    e.set_name(b"Game.Sav").unwrap();
    assert_eq!(&e.name, b"game\0\0\0\0");
    assert_eq!(&e.ext, b"sav");
    assert_eq!(e.format_name(), "game.sav");
    e.valid = FileValid::Valid;
    assert!(e.answers_to(b"GAME.SAV"));
    e.clear();
    assert!(!e.valid());
}

#[test]
fn checksum_command_parts() {
    assert_eq!(calc_file_checksum(&[0xFF, 0xFF, 2]), 0x200);
    assert_eq!(calc_file_checksum(&vec![0xFF; 0x0101_0102]), 0xFFu32.wrapping_mul(0x0101_0102));
    let (len, name) = chksum_file_name(b"Temp.tmp").unwrap();
    assert_eq!(len, 12);
    assert_eq!(chksum_file_name(b"abc").unwrap(), (4, b"abc\0".to_vec()));
    assert_eq!(name, b"temp.tmp\0\0\0\0".to_vec());
    assert!(chksum_file_name(b"waytoolongname").is_err());
    assert_eq!(chksum_file_data(0x01020304, 0x10), vec![1, 2, 3, 4, 0, 0, 0, 0x10]);
}

#[test]
fn choose_latest_fat() {
    let f = |t: FSType, seqno: u32| Some(FSFooter { fs_type: t, seqno, link_block: 0, chksum: 0 });
    let footers = vec![f(FSType::Bbfs, 3), None, f(FSType::Bbfl, 9), f(FSType::Bbfs, 5), f(FSType::Bbfs, 5)];
    assert_eq!(best_fat_slot(&footers), Some(4));
    assert_eq!(best_fat_slot(&[None, f(FSType::Bbfl, 1)]), None);
    assert_eq!(fat_slot_block(4096, 0), 4095);
}

#[test]
fn nand_image_sizes() {
    assert_eq!(check_nand_sizes(2 * 0x4000, None, 2), Ok(()));
    assert_eq!(check_nand_sizes(0x4000, None, 2), Err(LibBBRDBError::InvalidNANDSize(0x4000, 0x8000)));
    assert_eq!(check_nand_sizes(0x8000, Some(16), 2), Err(LibBBRDBError::InvalidSpareSize(16, 32)));
}

#[test]
fn session_without_fat() {
    let p = BBPlayer::new(Err(LibBBRDBError::NoFAT), 4096).unwrap();
    assert!(p.fat.is_none());
    assert_eq!(p.cardsize, 4096);
    assert!(BBPlayer::new(Err(LibBBRDBError::Timeout), 4096).is_err());
}

#[test]
fn new_data_avoids_blocks_in_use() {
    let mut fat = empty_fat(4096, 1);
    let mut device = HashMap::new();
    store(&mut fat, &mut device, &vec![1u8; 0x8000], b"one");
    let (first, _) = fat.read_plan(b"one").unwrap();
    fat.delete_file(b"temp.tmp");
    let blocks = fat.write_blocks_to_temp_file(0x4000 * 3).unwrap();
    for b in &blocks {
        assert!(!first.contains(b));
        assert!((0x40..4096 - 16).contains(&(*b as usize)));
    }
    assert_eq!(blocks, vec![0x42, 0x43, 0x44]);
    assert_eq!(load(&fat, &device, b"one"), Some(vec![1u8; 0x8000]));
}

#[test]
fn odd_length_buffer_fails_the_check() {
    let mut b = vec![0u8; 0x4000];
    fix_fat_checksum(&mut b);
    let mut odd = b.clone();
    odd.push(0);
    assert!(matches!(check_fat_checksum(&odd), Err(LibBBRDBError::InvalidFATChecksum(0xCAD7))));
    assert!(parse_fat_block(&odd).is_err());
}

#[test]
fn failed_checksum_keeps_temp_file() {
    let mut fat = empty_fat(4096, 1);
    fat.delete_file(b"temp.tmp");
    fat.write_blocks_to_temp_file(10).unwrap();
    assert!(matches!(
        fat.check_and_cleanup_temp_file(b"out.bin", 0x1234, false),
        Err(LibBBRDBError::ChecksumFailed(_, 0x1234))
    ));
    assert!(fat.find_file(b"temp.tmp").is_some());
    assert_eq!(fat.find_file(b"out.bin"), None);
    assert_eq!(fat.check_and_cleanup_temp_file(b"out.bin", 0x1234, true), Ok(true));
    assert_eq!(fat.find_file(b"temp.tmp"), None);
    assert!(fat.find_file(b"out.bin").is_some());
}

#[test]
fn data_is_cut_into_padded_blocks() {
    assert_eq!(write_file_blocks(&[1, 2], &[0x40, 0x41]), Err(LibBBRDBError::IncorrectNumBlocks(1, 2)));
    let data: Vec<u8> = (0..0x4001u32).map(|i| (i % 251) as u8).collect();
    let blocks = write_file_blocks(&data, &[0x40, 0x41]).unwrap();
    assert_eq!(blocks.len(), 2);
    assert_eq!(&blocks[0][..], &data[..0x4000]);
    assert_eq!(blocks[1][0], data[0x4000]);
    assert!(blocks[1][1..].iter().all(|b| *b == 0));
    let empty = write_file_blocks(&[], &[0x40]).unwrap();
    assert_eq!(empty, vec![vec![0u8; 0x4000]]);
}

#[test]
fn image_pieces() {
    let image: Vec<u8> = (0..48u32).map(|i| i as u8).collect();
    assert_eq!(image_block(&image, 0, 16), Some((0..16u8).collect::<Vec<u8>>()));
    assert_eq!(image_block(&image, 2, 16), Some((32..48u8).collect::<Vec<u8>>()));
    assert_eq!(image_block(&image, 3, 16), None);
    assert_eq!(image_block(&image, usize::MAX, 16), None);
}

#[test]
fn matched_checksum_renames_temp_file() {
    let mut fat = empty_fat(4096, 1);
    fat.write_blocks_to_temp_file(0x3FFF).unwrap();
    assert_eq!(fat.check_and_cleanup_temp_file(b"TEST.BIN", 7, true), Ok(true));
    let i = fat.find_file(b"test.bin").unwrap();
    assert_eq!((fat.files()[i].size, fat.files()[i].pad), (0x4000, 1));
    assert_eq!(fat.find_file(b"temp.tmp"), None);
    let mut e = FileEntry::default();
    assert!(matches!(e.set_name(b"muchtoolong.x"), Err(LibBBRDBError::FileNameTooLong(_))));
    assert!(matches!(e.set_name(b"a.b.c"), Err(LibBBRDBError::InvalidFilename(_))));
}

#[test]
fn stored_names_are_checked() {
    let mut fat = empty_fat(4096, 1);
    let mut device = HashMap::new();
    assert!(fat.names_are_ok());
    store(&mut fat, &mut device, &[1], b"Ok.Txt");
    assert!(fat.names_are_ok());
    let mut raw = raw_block(true, 1, 0);
    raw[0x2000] = b'A';
    raw[0x2000 + 11] = 1;
    raw[0x2000 + 12] = 0xFF;
    raw[0x2000 + 13] = 0xFF;
    fix_fat_checksum(&mut raw);
    let mut partial = _Fat::new();
    partial.add_block(parse_fat_block(&raw).unwrap(), 0).unwrap();
    let upper = Fat::from_partial(partial, 4096).unwrap();
    assert!(!upper.names_are_ok());
}
