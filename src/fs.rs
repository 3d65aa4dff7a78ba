//! The on-disk layout of the file system.
//!
//! A file-system block is one NAND block: 0x1000 big-endian FAT entries,
//! 409 directory entries of 20 bytes, and a 12-byte footer (magic, sequence
//! number, link to the next fragment, checksum). Its 16-bit big-endian words
//! sum to 0xCAD7.
use vstd::prelude::*;

use crate::commands::{be32, be32_bytes, be32_value};
use crate::constants::{BLOCK_CHUNK_SIZE, BLOCK_SIZE, FAT_CHECKSUM, NUM_FILE_ENTRIES};
use crate::error::LibBBRDBError;
use crate::names::{canonical_name, canonical_parts, name_ok, pad_to, padded};

verus! {

/// One entry of the file-allocation table.
#[derive(Debug, Clone, Copy, PartialEq, Eq, Structural)]
pub enum FATEntry {
    Free,
    EndOfChain,
    BadBlock,
    Reserved,
    /// The next block of a file.
    Chain(u16),
}

/// The value stored for an entry.
pub open spec fn entry_value(e: FATEntry) -> u16 {
    match e {
        FATEntry::Free => 0,
        FATEntry::EndOfChain => 0xFFFF,
        FATEntry::BadBlock => 0xFFFE,
        FATEntry::Reserved => 0xFFFD,
        FATEntry::Chain(n) => n,
    }
}

/// The entry that a stored value stands for.
pub open spec fn entry_of(v: u16) -> FATEntry {
    if v == 0 {
        FATEntry::Free
    } else if v == 0xFFFF {
        FATEntry::EndOfChain
    } else if v == 0xFFFE {
        FATEntry::BadBlock
    } else if v == 0xFFFD {
        FATEntry::Reserved
    } else {
        FATEntry::Chain(v)
    }
}

/// Whether an entry can be stored: a chain link is none of the special values.
pub open spec fn entry_ok(e: FATEntry) -> bool {
    match e {
        FATEntry::Chain(n) => n != 0 && n < 0xFFFD,
        _ => true,
    }
}

/// Every stored value reads back as an entry that stores as that value, and
/// every entry that can be stored reads back as itself.
pub proof fn lemma_entry_round_trip(v: u16, e: FATEntry)
    ensures
        entry_value(entry_of(v)) == v,
        entry_ok(entry_of(v)),
        entry_ok(e) ==> entry_of(entry_value(e)) == e,
{
}

impl FATEntry {
    /// Decodes a stored value.
    pub fn from_u16(v: u16) -> (r: Self)
        ensures
            r == entry_of(v),
    {
        if v == 0 {
            FATEntry::Free
        } else if v == 0xFFFF {
            FATEntry::EndOfChain
        } else if v == 0xFFFE {
            FATEntry::BadBlock
        } else if v == 0xFFFD {
            FATEntry::Reserved
        } else {
            FATEntry::Chain(v)
        }
    }

    /// The value stored for this entry.
    pub fn to_u16(self) -> (r: u16)
        ensures
            r == entry_value(self),
    {
        match self {
            FATEntry::Free => 0,
            FATEntry::EndOfChain => 0xFFFF,
            FATEntry::BadBlock => 0xFFFE,
            FATEntry::Reserved => 0xFFFD,
            FATEntry::Chain(n) => n,
        }
    }
}

/// Whether a directory slot holds a file.
#[derive(Debug, Clone, Copy, PartialEq, Eq, Structural)]
pub enum FileValid {
    Invalid,
    Valid,
}

/// One directory entry.
#[derive(Debug, Clone, Copy, PartialEq, Eq)]
pub struct FileEntry {
    /// The base name, NUL padded.
    pub name: [u8; 8],
    /// The extension, NUL padded.
    pub ext: [u8; 3],
    pub valid: FileValid,
    /// The first block of the file.
    pub start: FATEntry,
    /// NUL bytes appended to fill the last block.
    pub pad: u16,
    /// The size rounded up to whole blocks.
    pub size: u32,
}

/// Whether a directory entry is an unused, zeroed slot.
pub open spec fn is_blank(f: FileEntry) -> bool {
    &&& f.name@ == Seq::new(8, |i: int| 0u8)
    &&& f.ext@ == Seq::new(3, |i: int| 0u8)
    &&& f.valid == FileValid::Invalid
    &&& f.start == FATEntry::Free
    &&& f.pad == 0
    &&& f.size == 0
}

impl Default for FileEntry {
    fn default() -> (r: Self)
        ensures
            is_blank(r),
    {
        let r = FileEntry {
            name: [0u8; 8],
            ext: [0u8; 3],
            valid: FileValid::Invalid,
            start: FATEntry::Free,
            pad: 0,
            size: 0,
        };
        assert(r.name@ =~= Seq::new(8, |i: int| 0u8));
        assert(r.ext@ =~= Seq::new(3, |i: int| 0u8));
        r
    }
}

/// The two big-endian bytes of `v`.
pub open spec fn be16(v: u16) -> Seq<u8> {
    seq![(v / 256) as u8, (v % 256) as u8]
}

/// The number that two big-endian bytes spell.
pub open spec fn be16_value(a: u8, b: u8) -> u16 {
    (a * 256 + b) as u16
}

/// The byte stored for a slot's validity.
pub open spec fn valid_byte(v: FileValid) -> u8 {
    match v {
        FileValid::Invalid => 0,
        FileValid::Valid => 1,
    }
}

/// The 20 bytes stored for a directory entry.
pub open spec fn file_entry_bytes(f: FileEntry) -> Seq<u8> {
    f.name@ + f.ext@ + seq![valid_byte(f.valid)] + be16(entry_value(f.start)) + be16(f.pad) + be32(f.size)
}

/// The kind of a file-system block: the first fragment of a FAT generation
/// or a continuation.
#[derive(Debug, Clone, Copy, PartialEq, Eq, Structural)]
pub enum FSType {
    Bbfs,
    Bbfl,
}

/// The magic bytes of each kind of block.
pub open spec fn magic_bytes(t: FSType) -> Seq<u8> {
    match t {
        FSType::Bbfs => seq![0x42u8, 0x42u8, 0x46u8, 0x53u8],
        FSType::Bbfl => seq![0x42u8, 0x42u8, 0x46u8, 0x4Cu8],
    }
}

/// The trailer of a file-system block.
#[derive(Debug, Clone, Copy, PartialEq, Eq, Structural)]
pub struct FSFooter {
    pub fs_type: FSType,
    /// The generation this block belongs to.
    pub seqno: u32,
    /// The NAND block of the next fragment, or 0 for the last one.
    pub link_block: u16,
    pub chksum: u16,
}

/// The 12 bytes stored for a footer.
pub open spec fn footer_bytes(f: FSFooter) -> Seq<u8> {
    magic_bytes(f.fs_type) + be32(f.seqno) + be16(f.link_block) + be16(f.chksum)
}

/// A decoded file-system block.
#[derive(Debug, Clone)]
pub struct FSBlock {
    pub fat: Vec<FATEntry>,
    pub entries: Vec<FileEntry>,
    pub footer: FSFooter,
}

/// The bytes stored for a run of FAT entries.
pub open spec fn fat_bytes(s: Seq<FATEntry>) -> Seq<u8>
    decreases s.len(),
{
    if s.len() == 0 {
        seq![]
    } else {
        fat_bytes(s.drop_last()) + be16(entry_value(s.last()))
    }
}

/// The bytes stored for a run of directory entries.
pub open spec fn entries_bytes(s: Seq<FileEntry>) -> Seq<u8>
    decreases s.len(),
{
    if s.len() == 0 {
        seq![]
    } else {
        entries_bytes(s.drop_last()) + file_entry_bytes(s.last())
    }
}

/// The bytes stored for a file-system block.
pub open spec fn block_bytes(b: FSBlock) -> Seq<u8> {
    fat_bytes(b.fat@) + entries_bytes(b.entries@) + footer_bytes(b.footer)
}

impl FSBlock {
    /// Whether the block has a full table and a full directory.
    pub open spec fn wf(&self) -> bool {
        &&& self.fat@.len() == BLOCK_CHUNK_SIZE
        &&& self.entries@.len() == NUM_FILE_ENTRIES
        &&& forall|i: int| 0 <= i < self.fat@.len() ==> entry_ok(#[trigger] self.fat@[i])
    }
}

proof fn lemma_fat_bytes_len(s: Seq<FATEntry>)
    ensures
        fat_bytes(s).len() == 2 * s.len(),
    decreases s.len(),
{
    if s.len() > 0 {
        lemma_fat_bytes_len(s.drop_last());
    }
}

proof fn lemma_entries_bytes_len(s: Seq<FileEntry>)
    ensures
        entries_bytes(s).len() == 20 * s.len(),
    decreases s.len(),
{
    if s.len() > 0 {
        lemma_entries_bytes_len(s.drop_last());
    }
}

/// A block's bytes are 0x4000 long.
pub proof fn lemma_block_bytes_len(b: FSBlock)
    requires
        b.wf(),
    ensures
        block_bytes(b).len() == BLOCK_SIZE,
{
    lemma_fat_bytes_len(b.fat@);
    lemma_entries_bytes_len(b.entries@);
}

fn push16(out: &mut Vec<u8>, v: u16)
    ensures
        final(out)@ == old(out)@ + be16(v),
{
    out.push((v / 256) as u8);
    out.push((v % 256) as u8);
    assert(final(out)@ =~= old(out)@ + be16(v));
}

fn push_all(out: &mut Vec<u8>, s: &[u8])
    ensures
        final(out)@ == old(out)@ + s@,
{
    let mut i: usize = 0;
    while i < s.len()
        invariant
            i <= s@.len(),
            out@ == old(out)@ + s@.take(i as int),
        decreases s@.len() - i,
    {
        out.push(s[i]);
        i = i + 1;
        assert(s@.take(i as int) =~= s@.take(i - 1).push(s@[i - 1]));
    }
    assert(s@.take(i as int) =~= s@);
}

impl FileEntry {
    /// Writes the entry's 20 bytes after `out`.
    pub fn write_to(&self, out: &mut Vec<u8>)
        ensures
            final(out)@ == old(out)@ + file_entry_bytes(*self),
    {
        push_all(out, self.name.as_slice());
        push_all(out, self.ext.as_slice());
        out.push(match self.valid {
            FileValid::Invalid => 0u8,
            FileValid::Valid => 1u8,
        });
        push16(out, self.start.to_u16());
        push16(out, self.pad);
        let mut s = be32_bytes(self.size);
        out.append(&mut s);
        assert(final(out)@ =~= old(out)@ + file_entry_bytes(*self));
    }
}

impl FSFooter {
    /// Writes the footer's 12 bytes after `out`.
    pub fn write_to(&self, out: &mut Vec<u8>)
        ensures
            final(out)@ == old(out)@ + footer_bytes(*self),
    {
        let mut m: Vec<u8> = match self.fs_type {
            FSType::Bbfs => vec![0x42u8, 0x42u8, 0x46u8, 0x53u8],
            FSType::Bbfl => vec![0x42u8, 0x42u8, 0x46u8, 0x4Cu8],
        };
        assert(m@ =~= magic_bytes(self.fs_type));
        out.append(&mut m);
        let mut s = be32_bytes(self.seqno);
        out.append(&mut s);
        push16(out, self.link_block);
        push16(out, self.chksum);
        assert(final(out)@ =~= old(out)@ + footer_bytes(*self));
    }
}

impl FSBlock {
    /// The bytes stored for this block.
    pub fn to_bytes(&self) -> (r: Vec<u8>)
        ensures
            r@ == block_bytes(*self),
    {
        let mut out: Vec<u8> = Vec::new();
        let mut i: usize = 0;
        while i < self.fat.len()
            invariant
                i <= self.fat@.len(),
                out@ == fat_bytes(self.fat@.take(i as int)),
            decreases self.fat@.len() - i,
        {
            push16(&mut out, self.fat[i].to_u16());
            i = i + 1;
            assert(self.fat@.take(i as int).drop_last() =~= self.fat@.take(i - 1));
        }
        assert(self.fat@.take(i as int) =~= self.fat@);
        let ghost fat_part = out@;
        let mut j: usize = 0;
        while j < self.entries.len()
            invariant
                j <= self.entries@.len(),
                out@ == fat_part + entries_bytes(self.entries@.take(j as int)),
            decreases self.entries@.len() - j,
        {
            let ghost before = out@;
            self.entries[j].write_to(&mut out);
            j = j + 1;
            assert(self.entries@.take(j as int).drop_last() =~= self.entries@.take(j - 1));
            assert(out@ =~= fat_part + entries_bytes(self.entries@.take(j as int)));
        }
        assert(self.entries@.take(j as int) =~= self.entries@);
        let ghost head = out@;
        self.footer.write_to(&mut out);
        assert(out@ =~= block_bytes(*self));
        out
    }
}

/// The value of the `i`th 16-bit big-endian word of `d`.
pub open spec fn word_at(d: Seq<u8>, i: int) -> int {
    d[2 * i] * 256 + d[2 * i + 1]
}

/// The sum of the first `n` words of `d`.
pub open spec fn word_sum(d: Seq<u8>, n: nat) -> int
    decreases n,
{
    if n == 0 { 0 } else { word_sum(d, (n - 1) as nat) + word_at(d, n - 1) }
}

/// Whether the words of `d` sum to the file-system checksum.
pub open spec fn checksum_ok(d: Seq<u8>) -> bool {
    d.len() % 2 == 0 && word_sum(d, d.len() / 2) % 65536 == FAT_CHECKSUM
}

proof fn lemma_word_sum_prefix(d1: Seq<u8>, d2: Seq<u8>, n: nat)
    requires
        2 * n as int <= d1.len(),
        2 * n as int <= d2.len(),
        d1.take(2 * n as int) == d2.take(2 * n as int),
    ensures
        word_sum(d1, n) == word_sum(d2, n),
    decreases n,
{
    if n > 0 {
        assert(d1.take(2 * n as int)[2 * n as int - 2] == d1[2 * n as int - 2]);
        assert(d2.take(2 * n as int)[2 * n as int - 2] == d2[2 * n as int - 2]);
        assert(d1.take(2 * n as int)[2 * n as int - 1] == d1[2 * n as int - 1]);
        assert(d2.take(2 * n as int)[2 * n as int - 1] == d2[2 * n as int - 1]);
        assert(d1.take(2 * (n - 1) as int) =~= d1.take(2 * n as int).take(2 * (n - 1) as int));
        assert(d2.take(2 * (n - 1) as int) =~= d2.take(2 * n as int).take(2 * (n - 1) as int));
        lemma_word_sum_prefix(d1, d2, (n - 1) as nat);
    }
}

/// Sums the first `n` words of `data`, modulo 2^16.
fn sum_words(data: &[u8], n: usize) -> (r: u16)
    requires
        2 * n <= data@.len(),
    ensures
        r == word_sum(data@, n as nat) % 65536,
{
    let mut sum: u16 = 0;
    let mut i: usize = 0;
    while i < n
        invariant
            i <= n,
            2 * n <= data.len(),
            sum == word_sum(data@, i as nat) % 65536,
        decreases n - i,
    {
        let w: u32 = data[2 * i] as u32 * 256 + data[2 * i + 1] as u32;
        proof {
            vstd::arithmetic::div_mod::lemma_add_mod_noop(word_sum(data@, i as nat), w as int, 65536);
        }
        sum = ((sum as u32 + w) % 65536) as u16;
        i = i + 1;
    }
    sum
}

/// Checks that the words of a file-system block sum to 0xCAD7.
///
/// A buffer of odd length is no file-system block and fails the check.
pub fn check_fat_checksum(data: &[u8]) -> (r: Result<(), LibBBRDBError>)
    ensures
        r is Ok <==> checksum_ok(data@),
        r is Err ==> r->Err_0 == LibBBRDBError::InvalidFATChecksum((word_sum(data@, data@.len() / 2) % 65536) as u16),
{
    let sum = sum_words(data, data.len() / 2);
    if sum != FAT_CHECKSUM || data.len() % 2 != 0 {
        Err(LibBBRDBError::InvalidFATChecksum(sum))
    } else {
        Ok(())
    }
}

/// Sets the last word of a file-system block so that its words sum to 0xCAD7.
pub fn fix_fat_checksum(data: &mut Vec<u8>)
    requires
        old(data)@.len() == BLOCK_SIZE,
    ensures
        final(data)@.len() == BLOCK_SIZE,
        final(data)@.take(BLOCK_SIZE - 2) == old(data)@.take(BLOCK_SIZE - 2),
        checksum_ok(final(data)@),
{
    let sum = sum_words(data.as_slice(), (BLOCK_SIZE - 2) / 2);
    let checksum: u16 = ((FAT_CHECKSUM as u32 + 65536 - sum as u32) % 65536) as u16;
    let ghost before = data@;
    data.set(BLOCK_SIZE - 2, (checksum / 256) as u8);
    data.set(BLOCK_SIZE - 1, (checksum % 256) as u8);
    proof {
        assert(data@.take(BLOCK_SIZE - 2) =~= before.take(BLOCK_SIZE - 2));
        lemma_word_sum_prefix(data@, before, ((BLOCK_SIZE - 2) / 2) as nat);
        let s = word_sum(before, ((BLOCK_SIZE - 2) / 2) as nat);
        assert(word_at(data@, (BLOCK_SIZE / 2 - 1) as int) == checksum);
        assert(word_sum(data@, (BLOCK_SIZE / 2) as nat) == s + checksum);
        assert((s + checksum) % 65536 == FAT_CHECKSUM) by {
            vstd::arithmetic::div_mod::lemma_add_mod_noop(s, checksum as int, 65536);
        }
    }
}

/// Offset of the directory in a file-system block.
pub const ENTRIES_OFFSET: usize = 0x2000;

/// Offset of the footer in a file-system block.
pub const FOOTER_OFFSET: usize = 0x3FF4;

/// The validity byte of the `j`th directory entry of a block.
pub open spec fn valid_byte_at(d: Seq<u8>, j: int) -> u8 {
    d[ENTRIES_OFFSET + 20 * j + 11]
}

/// Whether `d` reads as a file-system block: 0x4000 bytes, each validity
/// byte 0 or 1, and a known magic.
pub open spec fn block_parses(d: Seq<u8>) -> bool {
    &&& d.len() == BLOCK_SIZE
    &&& forall|j: int| 0 <= j < NUM_FILE_ENTRIES ==> #[trigger] valid_byte_at(d, j) <= 1
    &&& (d.subrange(FOOTER_OFFSET as int, FOOTER_OFFSET + 4) == magic_bytes(FSType::Bbfs)
        || d.subrange(FOOTER_OFFSET as int, FOOTER_OFFSET + 4) == magic_bytes(FSType::Bbfl))
}

fn read16(d: &[u8], o: usize) -> (r: u16)
    requires
        o + 2 <= d.len(),
    ensures
        be16(r) == d@.subrange(o as int, o + 2),
{
    let r: u16 = d[o] as u16 * 256 + d[o + 1] as u16;
    assert(be16(r) =~= d@.subrange(o as int, o + 2));
    r
}

/// The bytes of a big-endian word are the digits it was built from.
proof fn lemma_be32_split(r: u32, a: u8, b: u8, c: u8, e: u8)
    requires
        r == a * 0x1000000 + b * 0x10000 + c * 0x100 + e,
    ensures
        be32(r) == seq![a, b, c, e],
{
    let x = r as int;
    assert(x / 0x1000000 == a) by (nonlinear_arith)
        requires x == a * 0x1000000 + b * 0x10000 + c * 0x100 + e, 0 <= a < 256, 0 <= b < 256, 0 <= c < 256, 0 <= e < 256;
    assert(x / 0x10000 % 256 == b) by (nonlinear_arith)
        requires x == a * 0x1000000 + b * 0x10000 + c * 0x100 + e, 0 <= a < 256, 0 <= b < 256, 0 <= c < 256, 0 <= e < 256;
    assert(x / 0x100 % 256 == c) by (nonlinear_arith)
        requires x == a * 0x1000000 + b * 0x10000 + c * 0x100 + e, 0 <= a < 256, 0 <= b < 256, 0 <= c < 256, 0 <= e < 256;
    assert(x % 256 == e) by (nonlinear_arith)
        requires x == a * 0x1000000 + b * 0x10000 + c * 0x100 + e, 0 <= a < 256, 0 <= b < 256, 0 <= c < 256, 0 <= e < 256;
    assert(be32(r) =~= seq![a, b, c, e]);
}

fn read32(d: &[u8], o: usize) -> (r: u32)
    requires
        o + 4 <= d.len(),
    ensures
        be32(r) == d@.subrange(o as int, o + 4),
{
    let r: u32 = d[o] as u32 * 0x1000000 + d[o + 1] as u32 * 0x10000 + d[o + 2] as u32 * 0x100
        + d[o + 3] as u32;
    proof {
        lemma_be32_split(r, d@[o as int], d@[o + 1], d@[o + 2], d@[o + 3]);
    }
    assert(be32(r) =~= d@.subrange(o as int, o + 4));
    r
}

impl FileEntry {
    /// Decodes the directory entry stored at offset `o` of `d`; `None` where
    /// its validity byte is neither 0 nor 1.
    pub fn parse(d: &[u8], o: usize) -> (r: Option<FileEntry>)
        requires
            o + 20 <= d.len(),
        ensures
            r is Some <==> d@[o + 11] <= 1,
            r is Some ==> file_entry_bytes(r->Some_0) == d@.subrange(o as int, o + 20),
    {
        let valid = if d[o + 11] == 0 {
            FileValid::Invalid
        } else if d[o + 11] == 1 {
            FileValid::Valid
        } else {
            return None;
        };
        let name: [u8; 8] = [d[o], d[o + 1], d[o + 2], d[o + 3], d[o + 4], d[o + 5], d[o + 6], d[o + 7]];
        let ext: [u8; 3] = [d[o + 8], d[o + 9], d[o + 10]];
        let start = read16(d, o + 12);
        let pad = read16(d, o + 14);
        let size = read32(d, o + 16);
        proof {
            lemma_entry_round_trip(start, FATEntry::Free);
        }
        let f = FileEntry { name, ext, valid, start: FATEntry::from_u16(start), pad, size };
        assert(file_entry_bytes(f) =~= d@.subrange(o as int, o + 20));
        Some(f)
    }
}

impl FSBlock {
    /// Decodes a file-system block; the stored checksum is kept as read.
    pub fn parse(d: &[u8]) -> (r: Result<FSBlock, LibBBRDBError>)
        ensures
            r is Ok <==> block_parses(d@),
            r is Ok ==> r->Ok_0.wf() && block_bytes(r->Ok_0) == d@,
            r is Err ==> r->Err_0 == LibBBRDBError::MalformedFSBlock,
    {
        if d.len() != BLOCK_SIZE {
            return Err(LibBBRDBError::MalformedFSBlock);
        }
        let mut fat: Vec<FATEntry> = Vec::new();
        let mut i: usize = 0;
        while i < BLOCK_CHUNK_SIZE
            invariant
                i <= BLOCK_CHUNK_SIZE,
                d@.len() == BLOCK_SIZE,
                fat@.len() == i,
                fat_bytes(fat@) == d@.subrange(0, 2 * i as int),
                forall|k: int| 0 <= k < i ==> entry_ok(#[trigger] fat@[k]),
            decreases BLOCK_CHUNK_SIZE - i,
        {
            let v = read16(d, 2 * i);
            proof {
                lemma_entry_round_trip(v, FATEntry::Free);
            }
            let ghost before = fat@;
            fat.push(FATEntry::from_u16(v));
            assert(fat@.drop_last() =~= before);
            assert(d@.subrange(0, 2 * (i + 1) as int) =~= d@.subrange(0, 2 * i as int) + d@.subrange(
                2 * i as int,
                2 * i + 2,
            ));
            i = i + 1;
        }
        let mut entries: Vec<FileEntry> = Vec::new();
        let mut j: usize = 0;
        while j < NUM_FILE_ENTRIES
            invariant
                j <= NUM_FILE_ENTRIES,
                d@.len() == BLOCK_SIZE,
                entries@.len() == j,
                entries_bytes(entries@) == d@.subrange(ENTRIES_OFFSET as int, ENTRIES_OFFSET + 20 * j),
                forall|k: int| 0 <= k < j ==> #[trigger] valid_byte_at(d@, k) <= 1,
            decreases NUM_FILE_ENTRIES - j,
        {
            let o = ENTRIES_OFFSET + 20 * j;
            match FileEntry::parse(d, o) {
                Some(f) => {
                    let ghost before = entries@;
                    entries.push(f);
                    assert(entries@.drop_last() =~= before);
                    assert(d@.subrange(ENTRIES_OFFSET as int, ENTRIES_OFFSET + 20 * (j + 1)) =~= d@.subrange(
                        ENTRIES_OFFSET as int,
                        ENTRIES_OFFSET + 20 * j,
                    ) + d@.subrange(o as int, o + 20));
                },
                None => {
                    assert(!(valid_byte_at(d@, j as int) <= 1));
                    return Err(LibBBRDBError::MalformedFSBlock);
                },
            }
            j = j + 1;
        }
        let o = FOOTER_OFFSET;
        let fs_type = if d[o] == 0x42 && d[o + 1] == 0x42 && d[o + 2] == 0x46 && d[o + 3] == 0x53 {
            FSType::Bbfs
        } else if d[o] == 0x42 && d[o + 1] == 0x42 && d[o + 2] == 0x46 && d[o + 3] == 0x4C {
            FSType::Bbfl
        } else {
            return Err(LibBBRDBError::MalformedFSBlock);
        };
        assert(magic_bytes(fs_type) =~= d@.subrange(o as int, o + 4));
        let seqno = read32(d, o + 4);
        let link_block = read16(d, o + 8);
        let chksum = read16(d, o + 10);
        let footer = FSFooter { fs_type, seqno, link_block, chksum };
        assert(footer_bytes(footer) =~= d@.subrange(o as int, BLOCK_SIZE as int));
        let b = FSBlock { fat, entries, footer };
        assert(block_bytes(b) =~= d@);
        Ok(b)
    }
}

/// Checks the checksum of a block read from the card, then decodes it.
pub fn parse_fat_block(nand: &[u8]) -> (r: Result<FSBlock, LibBBRDBError>)
    ensures
        r is Ok <==> (checksum_ok(nand@) && block_parses(nand@)),
        r is Ok ==> r->Ok_0.wf() && block_bytes(r->Ok_0) == nand@,
{
    check_fat_checksum(nand)?;
    FSBlock::parse(nand)
}

/// Encodes a block for writing: its bytes with the checksum word set.
pub fn encode_fat_block(block: &FSBlock) -> (r: Vec<u8>)
    requires
        block.wf(),
    ensures
        r@.len() == BLOCK_SIZE,
        r@.take(BLOCK_SIZE - 2) == block_bytes(*block).take(BLOCK_SIZE - 2),
        checksum_ok(r@),
{
    let mut data = block.to_bytes();
    proof {
        lemma_block_bytes_len(*block);
    }
    fix_fat_checksum(&mut data);
    data
}

/// Whether the entry stores the base `b` and the extension `e`.
pub open spec fn stores_name(f: FileEntry, b: Seq<u8>, e: Seq<u8>) -> bool {
    f.name@ == padded(b, 8) && f.ext@ == padded(e, 3)
}

/// Whether an entry is a file in use that answers to `name`.
pub open spec fn answers_to(f: FileEntry, name: Seq<u8>) -> bool {
    &&& f.valid == FileValid::Valid
    &&& name_ok(name)
    &&& stores_name(f, canonical_parts(name).0, canonical_parts(name).1)
}

/// Rounds a size up to whole blocks.
pub open spec fn block_round_up(size: nat) -> nat {
    (((size + 0x3FFF) / 0x4000) * 0x4000) as nat
}

/// Rounds `size` up to whole blocks.
pub fn next_block_size(size: u32) -> (r: u32)
    requires
        size <= 0xFFFF_C000,
    ensures
        r == block_round_up(size as nat),
        size <= r < size + BLOCK_SIZE,
        r % (BLOCK_SIZE as u32) == 0,
{
    (size + (BLOCK_SIZE as u32 - 1)) / BLOCK_SIZE as u32 * BLOCK_SIZE as u32
}

fn to_array8(v: &Vec<u8>) -> (r: [u8; 8])
    requires
        v@.len() == 8,
    ensures
        r@ == v@,
{
    let r = [v[0], v[1], v[2], v[3], v[4], v[5], v[6], v[7]];
    assert(r@ =~= v@);
    r
}

fn to_array3(v: &Vec<u8>) -> (r: [u8; 3])
    requires
        v@.len() == 3,
    ensures
        r@ == v@,
{
    let r = [v[0], v[1], v[2]];
    assert(r@ =~= v@);
    r
}

fn same_bytes(a: &[u8], b: &Vec<u8>) -> (r: bool)
    ensures
        r == (a@ == b@),
{
    if a.len() != b.len() {
        return false;
    }
    let mut i: usize = 0;
    while i < a.len()
        invariant
            i <= a@.len(),
            a@.len() == b@.len(),
            forall|k: int| 0 <= k < i ==> a@[k] == b@[k],
        decreases a@.len() - i,
    {
        if a[i] != b[i] {
            return false;
        }
        i = i + 1;
    }
    assert(a@ =~= b@);
    true
}

impl FileEntry {
    /// Whether the slot holds a file.
    pub fn valid(&self) -> (r: bool)
        ensures
            r == (self.valid == FileValid::Valid),
    {
        match self.valid {
            FileValid::Valid => true,
            FileValid::Invalid => false,
        }
    }

    /// Whether the entry stores the base `b` and extension `e`, each padded
    /// with NUL bytes.
    pub fn has_name(&self, b: &Vec<u8>, e: &Vec<u8>) -> (r: bool)
        requires
            b@.len() <= 8,
            e@.len() <= 3,
        ensures
            r == stores_name(*self, b@, e@),
    {
        let pb = pad_to(b, 8);
        let pe = pad_to(e, 3);
        same_bytes(self.name.as_slice(), &pb) && same_bytes(self.ext.as_slice(), &pe)
    }

    /// Whether this is a file in use that answers to `filename`.
    pub fn answers_to(&self, filename: &[u8]) -> (r: bool)
        ensures
            r == answers_to(*self, filename@),
    {
        if !self.valid() {
            return false;
        }
        match canonical_name(filename) {
            Ok((b, e)) => self.has_name(&b, &e),
            Err(_) => false,
        }
    }

    /// Stores `filename`, folded to lower case and NUL padded.
    pub fn set_name(&mut self, filename: &[u8]) -> (r: Result<(), LibBBRDBError>)
        ensures
            r is Ok <==> name_ok(filename@),
            r is Ok ==> stores_name(*final(self), canonical_parts(filename@).0, canonical_parts(filename@).1),
            r is Ok ==> final(self).valid == old(self).valid && final(self).start == old(self).start
                && final(self).pad == old(self).pad && final(self).size == old(self).size,
            r is Err ==> *final(self) == *old(self),
            r is Err ==> (r->Err_0 is FileNameTooLong || r->Err_0 is InvalidFilename),
            r is Err ==> (r->Err_0 is FileNameTooLong <==> (crate::names::ascii_no_nul(filename@)
                && crate::names::too_long(filename@))),
    {
        let (b, e) = canonical_name(filename)?;
        let pb = pad_to(&b, 8);
        let pe = pad_to(&e, 3);
        self.name = to_array8(&pb);
        self.ext = to_array3(&pe);
        Ok(())
    }

    /// Records a file of `filesize` bytes: the size rounded up to whole
    /// blocks, and the padding that fills the last one.
    pub fn set_size(&mut self, filesize: u32)
        requires
            filesize <= 0xFFFF_C000,
        ensures
            final(self).size == block_round_up(filesize as nat),
            final(self).pad == final(self).size - filesize,
            final(self).size - final(self).pad == filesize,
            final(self).name == old(self).name && final(self).ext == old(self).ext,
            final(self).valid == old(self).valid && final(self).start == old(self).start,
    {
        let padded = next_block_size(filesize);
        let diff = padded - filesize;
        self.size = padded;
        self.pad = diff as u16;
    }

    /// Empties the slot.
    pub fn clear(&mut self)
        ensures
            is_blank(*final(self)),
    {
        *self = FileEntry::default();
    }

    /// The length of the file's contents: its size less the padding.
    pub fn size(&self) -> (r: usize)
        ensures
            r == (if self.pad <= self.size { self.size - self.pad } else { 0 }),
    {
        if self.pad as u32 <= self.size {
            (self.size - self.pad as u32) as usize
        } else {
            0
        }
    }
}

} // verus!
