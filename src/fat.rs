//! The whole-card FAT held in memory, and the file operations on it.
//!
//! A FAT generation is read from the last blocks of the card, changed here,
//! and written back to other slots under the next sequence number. Every
//! operation works on the in-memory copy; what must go to the card is handed
//! back as plain data.
use vstd::prelude::*;

use crate::constants::{MAX_CARD_SIZE, BLOCK_CHUNK_SIZE, BLOCK_SIZE, FIRST_DATA_BLOCK, NUM_FATS, NUM_FILE_ENTRIES};
use crate::error::LibBBRDBError;
use crate::fs::{answers_to, block_bytes, checksum_ok, encode_fat_block, entries_bytes, fat_bytes, file_entry_bytes, footer_bytes, entry_ok, is_blank, stores_name, FATEntry, FSBlock, FSFooter, FSType, FileEntry, FileValid};
use crate::names::{ascii_chars, canonical_name, temp_name, temp_file_name, lemma_temp_name_ok, canonical_parts, is_ascii_bytes, lower_seq, name_ok, until_nul, DOT};

verus! {

/// A FAT read from the card's blocks, before it is known to be complete.
#[derive(Debug)]
pub struct _Fat {
    pub entries: Vec<FATEntry>,
    pub files: Vec<FileEntry>,
    pub seqno: Option<u32>,
    pub blkno: Option<u32>,
}

impl _Fat {
    /// An empty FAT, before any block is added.
    pub fn new() -> (r: Self)
        ensures
            r.entries@.len() == 0,
            r.files@.len() == 0,
            r.seqno is None,
            r.blkno is None,
    {
        _Fat { entries: Vec::new(), files: Vec::new(), seqno: None, blkno: None }
    }

    /// Whether every entry read so far can be stored.
    pub open spec fn wf(&self) -> bool {
        &&& self.entries@.len() % (BLOCK_CHUNK_SIZE as nat) == 0
        &&& self.entries@.len() <= 0x10000
        &&& forall|i: int| 0 <= i < self.entries@.len() ==> entry_ok(#[trigger] self.entries@[i])
        &&& (self.files@.len() == 0 || self.files@.len() == NUM_FILE_ENTRIES)
    }

    /// Whether a fragment fits after the ones already added: same generation,
    /// same slot, and room left for its entries.
    pub open spec fn accepts(&self, block: FSBlock, num: u32) -> bool {
        &&& (self.seqno is Some ==> self.seqno->Some_0 == block.footer.seqno)
        &&& (self.blkno is Some ==> self.blkno->Some_0 == num)
        &&& self.entries@.len() + BLOCK_CHUNK_SIZE <= 0x10000
    }

    /// Adds one fragment of a FAT generation read from slot `num`, and gives
    /// the NAND block of the next fragment (0 after the last).
    ///
    /// Only the first fragment's directory is kept. A fragment of another
    /// generation, or one too many, leaves the FAT unchanged and is refused.
    pub fn add_block(&mut self, block: FSBlock, num: u32) -> (r: Result<u16, LibBBRDBError>)
        requires
            old(self).wf(),
            block.wf(),
        ensures
            r is Ok <==> old(self).accepts(block, num),
            r is Err ==> r->Err_0 == LibBBRDBError::CorruptFS && *final(self) == *old(self),
            r is Ok ==> {
                &&& r->Ok_0 == block.footer.link_block
                &&& final(self).wf()
                &&& final(self).entries@ == old(self).entries@ + block.fat@
                &&& final(self).files@ == (if old(self).files@.len() == 0 {
                    block.entries@
                } else {
                    old(self).files@
                })
                &&& final(self).seqno == Some(block.footer.seqno)
                &&& final(self).blkno == Some(num)
            },
    {
        let link = block.footer.link_block;
        match self.seqno {
            Some(n) => {
                if n != block.footer.seqno {
                    return Err(LibBBRDBError::CorruptFS);
                }
            },
            None => {},
        }
        match self.blkno {
            Some(n) => {
                if n != num {
                    return Err(LibBBRDBError::CorruptFS);
                }
            },
            None => {},
        }
        if self.entries.len() > 0x10000 - BLOCK_CHUNK_SIZE {
            return Err(LibBBRDBError::CorruptFS);
        }
        let FSBlock { fat, entries, footer } = block;
        let mut fat = fat;
        let mut entries = entries;
        let ghost old_entries = self.entries@;
        self.entries.append(&mut fat);
        if self.files.len() == 0 {
            self.files.append(&mut entries);
        }
        self.seqno = Some(footer.seqno);
        self.blkno = Some(num);
        assert forall|i: int| 0 <= i < self.entries@.len() implies entry_ok(#[trigger] self.entries@[i]) by {
            if i >= old_entries.len() {
                assert(self.entries@[i] == block.fat@[i - old_entries.len()]);
            }
        }
        Ok(link)
    }
}

/// The FAT of a card: one entry per block, the directory, and the generation
/// and slot it was read from.
#[derive(Debug)]
pub struct Fat {
    entries: Vec<FATEntry>,
    files: Vec<FileEntry>,
    seqno: u32,
    blkno: u32,
}

/// Counts how many entries satisfy a predicate.
pub open spec fn count_where(s: Seq<FATEntry>, p: spec_fn(FATEntry) -> bool) -> nat
    decreases s.len(),
{
    if s.len() == 0 {
        0
    } else {
        count_where(s.drop_last(), p) + if p(s.last()) { 1nat } else { 0nat }
    }
}

/// Whether an entry marks a free block.
pub open spec fn is_free(e: FATEntry) -> bool {
    e == FATEntry::Free
}

/// Whether an entry marks a bad block.
pub open spec fn is_bad(e: FATEntry) -> bool {
    e == FATEntry::BadBlock
}

/// Whether an entry marks a block in use: neither free nor bad.
pub open spec fn is_used(e: FATEntry) -> bool {
    e != FATEntry::Free && e != FATEntry::BadBlock
}

/// Whether, from `e`, the end of the chain is reached within `fuel` links,
/// each through a chain entry naming a block of the card.
pub open spec fn ends_within(entries: Seq<FATEntry>, e: FATEntry, fuel: nat) -> bool
    decreases fuel,
{
    if e == FATEntry::EndOfChain {
        true
    } else if fuel == 0 {
        false
    } else {
        match e {
            FATEntry::Chain(b) => b < entries.len() && ends_within(entries, entries[b as int], (fuel - 1) as nat),
            _ => false,
        }
    }
}

/// Whether a chain from `start` is sound: it reaches the end within as many
/// links as the card has blocks, through chain links only.
pub open spec fn chain_ok(entries: Seq<FATEntry>, start: FATEntry) -> bool {
    ends_within(entries, start, entries.len())
}

/// The blocks visited by following at most `n` links from `e`.
pub open spec fn chain_blocks(entries: Seq<FATEntry>, e: FATEntry, n: nat) -> Seq<u16>
    decreases n,
{
    if n == 0 {
        seq![]
    } else {
        match e {
            FATEntry::Chain(b) => if b < entries.len() {
                seq![b] + chain_blocks(entries, entries[b as int], (n - 1) as nat)
            } else {
                seq![]
            },
            _ => seq![],
        }
    }
}

impl Fat {
    /// The entry of every block of the card.
    pub closed spec fn spec_entries(&self) -> Seq<FATEntry> {
        self.entries@
    }

    /// The directory.
    pub closed spec fn spec_files(&self) -> Seq<FileEntry> {
        self.files@
    }

    /// The generation this FAT was read as.
    pub closed spec fn spec_seqno(&self) -> u32 {
        self.seqno
    }

    /// The slot, counted from the end of the card, of its first fragment.
    pub closed spec fn spec_blkno(&self) -> u32 {
        self.blkno
    }

    /// The FAT covers a whole number of fragments, at most fifteen so that a
    /// new generation fits beside the current one in the sixteen slots,
    /// holds a full directory, and stores only entries that can be written
    /// back.
    pub open spec fn wf(&self) -> bool {
        &&& self.spec_entries().len() > 0
        &&& self.spec_entries().len() % (BLOCK_CHUNK_SIZE as nat) == 0
        &&& self.spec_entries().len() <= MAX_CARD_SIZE
        &&& self.spec_files().len() == NUM_FILE_ENTRIES
        &&& self.spec_blkno() < NUM_FATS
        &&& forall|i: int| 0 <= i < self.spec_entries().len() ==> entry_ok(#[trigger] self.spec_entries()[i])
    }

    /// Whether the chain of every file in use is sound.
    pub open spec fn chains_ok(&self) -> bool {
        forall|i: int|
            0 <= i < self.spec_files().len() && (#[trigger] self.spec_files()[i]).valid == FileValid::Valid
                ==> chain_ok(self.spec_entries(), self.spec_files()[i].start)
    }

    /// Whether every file in use stores a lower-case 8.3 name.
    pub open spec fn names_ok(&self) -> bool {
        forall|i: int|
            0 <= i < self.spec_files().len() && (#[trigger] self.spec_files()[i]).valid == FileValid::Valid
                ==> entry_name_ok(self.spec_files()[i])
    }

    /// The generation number.
    pub fn seqno(&self) -> (r: u32)
        ensures
            r == self.spec_seqno(),
    {
        self.seqno
    }

    /// The slot of the first fragment, counted from the end of the card.
    pub fn blkno(&self) -> (r: u32)
        ensures
            r == self.spec_blkno(),
    {
        self.blkno
    }

    /// The number of blocks on the card.
    pub fn cardsize(&self) -> (r: usize)
        ensures
            r == self.spec_entries().len(),
    {
        self.entries.len()
    }

    /// The entry of every block.
    pub fn entries(&self) -> (r: &Vec<FATEntry>)
        ensures
            r@ == self.spec_entries(),
    {
        &self.entries
    }

    /// The directory.
    pub fn files(&self) -> (r: &Vec<FileEntry>)
        ensures
            r@ == self.spec_files(),
    {
        &self.files
    }

    /// Completes a FAT read from `cardsize` blocks: it must have come from a
    /// slot, in one generation, and cover every block of the card.
    pub fn from_partial(value: _Fat, cardsize: u32) -> (r: Result<Fat, LibBBRDBError>)
        requires
            value.wf(),
        ensures
            r is Ok <==> (value.seqno is Some && value.blkno is Some && value.blkno->Some_0 < NUM_FATS
                && value.entries@.len() == cardsize && cardsize > 0 && cardsize <= MAX_CARD_SIZE
                && value.files@.len() == NUM_FILE_ENTRIES),
            r is Err ==> (r->Err_0 == LibBBRDBError::NoFAT <==> (value.seqno is None || value.blkno is None)),
            r is Err && value.seqno is Some && value.blkno is Some ==> (r->Err_0 == LibBBRDBError::UnhandledCardSize
                <==> cardsize > MAX_CARD_SIZE),
            r is Err ==> (r->Err_0 is NoFAT || r->Err_0 is CorruptFS || r->Err_0 is UnhandledCardSize),
            r is Ok ==> {
                &&& r->Ok_0.wf()
                &&& r->Ok_0.spec_entries() == value.entries@
                &&& r->Ok_0.spec_files() == value.files@
                &&& r->Ok_0.spec_seqno() == value.seqno->Some_0
                &&& r->Ok_0.spec_blkno() == value.blkno->Some_0
            },
    {
        let _Fat { entries, files, seqno, blkno } = value;
        let (seqno, blkno) = match (seqno, blkno) {
            (Some(s), Some(b)) => (s, b),
            _ => {
                return Err(LibBBRDBError::NoFAT);
            },
        };
        if cardsize > MAX_CARD_SIZE {
            return Err(LibBBRDBError::UnhandledCardSize);
        }
        if blkno >= NUM_FATS || entries.len() != cardsize as usize || cardsize == 0 || files.len()
            != NUM_FILE_ENTRIES {
            return Err(LibBBRDBError::CorruptFS);
        }
        Ok(Fat { entries, files, seqno, blkno })
    }
}

/// Free, used and bad block counts of a card, with its FAT generation.
#[derive(Debug, Clone, Copy, PartialEq, Eq, Structural)]
pub struct CardStats {
    pub free: usize,
    pub used: usize,
    pub bad: usize,
    pub seqno: u32,
}

/// Each entry is exactly one of free, bad or used, so the three counts add up
/// to the number of entries.
pub proof fn lemma_counts_partition(s: Seq<FATEntry>)
    ensures
        count_where(s, |e: FATEntry| is_free(e)) + count_where(s, |e: FATEntry| is_bad(e)) + count_where(
            s,
            |e: FATEntry| is_used(e),
        ) == s.len(),
    decreases s.len(),
{
    if s.len() > 0 {
        lemma_counts_partition(s.drop_last());
    }
}

proof fn lemma_count_step(s: Seq<FATEntry>, i: int, p: spec_fn(FATEntry) -> bool)
    requires
        0 <= i < s.len(),
    ensures
        count_where(s.take(i + 1), p) == count_where(s.take(i), p) + if p(s[i]) { 1nat } else { 0nat },
{
    assert(s.take(i + 1).drop_last() =~= s.take(i));
}

proof fn lemma_count_bound(s: Seq<FATEntry>, p: spec_fn(FATEntry) -> bool)
    ensures
        count_where(s, p) <= s.len(),
    decreases s.len(),
{
    if s.len() > 0 {
        lemma_count_bound(s.drop_last(), p);
    }
}

impl Fat {
    /// Counts the free, used and bad blocks.
    #[allow(non_snake_case)]
    pub fn CardStats(&self) -> (r: CardStats)
        ensures
            r.free == count_where(self.spec_entries(), |e: FATEntry| is_free(e)),
            r.bad == count_where(self.spec_entries(), |e: FATEntry| is_bad(e)),
            r.used == count_where(self.spec_entries(), |e: FATEntry| is_used(e)),
            r.free + r.used + r.bad == self.spec_entries().len(),
            r.seqno == self.spec_seqno(),
    {
        let ghost s = self.entries@;
        let mut free: usize = 0;
        let mut used: usize = 0;
        let mut bad: usize = 0;
        let mut i: usize = 0;
        while i < self.entries.len()
            invariant
                i <= s.len(),
                s == self.entries@,
                free == count_where(s.take(i as int), |e: FATEntry| is_free(e)),
                bad == count_where(s.take(i as int), |e: FATEntry| is_bad(e)),
                used == count_where(s.take(i as int), |e: FATEntry| is_used(e)),
            decreases s.len() - i,
        {
            proof {
                lemma_count_step(s, i as int, |e: FATEntry| is_free(e));
                lemma_count_step(s, i as int, |e: FATEntry| is_bad(e));
                lemma_count_step(s, i as int, |e: FATEntry| is_used(e));
                lemma_counts_partition(s.take(i as int));
            }
            match self.entries[i] {
                FATEntry::Free => free = free + 1,
                FATEntry::BadBlock => bad = bad + 1,
                _ => used = used + 1,
            }
            i = i + 1;
        }
        proof {
            assert(s.take(i as int) =~= s);
            lemma_counts_partition(s);
        }
        CardStats { free, used, bad, seqno: self.seqno }
    }

    /// The number of free blocks.
    pub fn get_free_block_count(&self) -> (r: usize)
        ensures
            r == count_where(self.spec_entries(), |e: FATEntry| is_free(e)),
    {
        let ghost s = self.entries@;
        let mut free: usize = 0;
        let mut i: usize = 0;
        while i < self.entries.len()
            invariant
                i <= s.len(),
                s == self.entries@,
                free == count_where(s.take(i as int), |e: FATEntry| is_free(e)),
            decreases s.len() - i,
        {
            proof {
                lemma_count_step(s, i as int, |e: FATEntry| is_free(e));
                lemma_count_bound(s.take(i as int), |e: FATEntry| is_free(e));
            }
            if self.entries[i] == FATEntry::Free {
                free = free + 1;
            }
            i = i + 1;
        }
        assert(s.take(i as int) =~= s);
        free
    }

    /// Whether the chain from `start` is sound.
    pub fn chain_is_ok(&self, start: FATEntry) -> (r: bool)
        ensures
            r == chain_ok(self.spec_entries(), start),
    {
        let ghost s = self.entries@;
        let len = self.entries.len();
        let mut cur = start;
        let mut fuel: usize = len;
        loop
            invariant
                s == self.entries@,
                len == s.len(),
                fuel <= len,
                ends_within(s, start, len as nat) == ends_within(s, cur, fuel as nat),
            decreases fuel,
        {
            if cur == FATEntry::EndOfChain {
                return true;
            }
            if fuel == 0 {
                return false;
            }
            match cur {
                FATEntry::Chain(b) => {
                    if (b as usize) < len {
                        cur = self.entries[b as usize];
                        fuel = fuel - 1;
                    } else {
                        return false;
                    }
                },
                _ => {
                    return false;
                },
            }
        }
    }

    /// Checks that the chain of every file in use is sound.
    pub fn check(&self) -> (r: Result<(), LibBBRDBError>)
        ensures
            r is Ok <==> self.chains_ok(),
            r is Err ==> r->Err_0 == LibBBRDBError::CorruptFS,
    {
        let mut i: usize = 0;
        while i < self.files.len()
            invariant
                i <= self.spec_files().len(),
                forall|j: int|
                    0 <= j < i && (#[trigger] self.spec_files()[j]).valid == FileValid::Valid ==> chain_ok(
                        self.spec_entries(),
                        self.spec_files()[j].start,
                    ),
            decreases self.spec_files().len() - i,
        {
            let f = &self.files[i];
            if f.valid == FileValid::Valid && !self.chain_is_ok(f.start) {
                return Err(LibBBRDBError::CorruptFS);
            }
            i = i + 1;
        }
        Ok(())
    }
}

/// The slot of the first file in use that answers to `name`.
#[verifier::opaque]
pub open spec fn lookup(files: Seq<FileEntry>, name: Seq<u8>) -> Option<int> {
    if exists|i: int|
        0 <= i < files.len() && answers_to(#[trigger] files[i], name) && forall|k: int|
            0 <= k < i ==> !answers_to(#[trigger] files[k], name) {
        Some(
            choose|i: int|
                0 <= i < files.len() && answers_to(#[trigger] files[i], name) && forall|k: int|
                    0 <= k < i ==> !answers_to(#[trigger] files[k], name),
        )
    } else {
        None
    }
}

/// Identifies the first answering slot.
pub proof fn lemma_lookup_first(files: Seq<FileEntry>, name: Seq<u8>, i: int)
    requires
        0 <= i < files.len(),
        answers_to(files[i], name),
        forall|k: int| 0 <= k < i ==> !answers_to(#[trigger] files[k], name),
    ensures
        lookup(files, name) == Some(i),
{
    reveal(lookup);
    let j = choose|j: int|
        0 <= j < files.len() && answers_to(#[trigger] files[j], name) && forall|k: int|
            0 <= k < j ==> !answers_to(#[trigger] files[k], name);
    if j < i {
        assert(!answers_to(files[j], name));
    } else if i < j {
        assert(!answers_to(files[i], name));
    }
}

/// What freeing a chain does: each block visited, at most `fuel` of them, is
/// marked free before its link is followed.
pub open spec fn free_chain(entries: Seq<FATEntry>, next: FATEntry, fuel: nat) -> Seq<FATEntry>
    decreases fuel,
{
    if fuel == 0 {
        entries
    } else {
        match next {
            FATEntry::Chain(b) => if b < entries.len() {
                free_chain(entries.update(b as int, FATEntry::Free), entries[b as int], (fuel - 1) as nat)
            } else {
                entries
            },
            _ => entries,
        }
    }
}

proof fn lemma_free_chain_wf(entries: Seq<FATEntry>, next: FATEntry, fuel: nat)
    requires
        forall|i: int| 0 <= i < entries.len() ==> entry_ok(#[trigger] entries[i]),
    ensures
        free_chain(entries, next, fuel).len() == entries.len(),
        forall|i: int| 0 <= i < entries.len() ==> entry_ok(#[trigger] free_chain(entries, next, fuel)[i]),
    decreases fuel,
{
    if fuel > 0 {
        if let FATEntry::Chain(b) = next {
            if b < entries.len() {
                let e2 = entries.update(b as int, FATEntry::Free);
                assert forall|i: int| 0 <= i < e2.len() implies entry_ok(#[trigger] e2[i]) by {}
                lemma_free_chain_wf(e2, entries[b as int], (fuel - 1) as nat);
            }
        }
    }
}

/// Whether `after` is `before` with the file answering to `name`, if any,
/// deleted: its slot emptied and its chain freed.
pub open spec fn deleted_from(before: Fat, after: Fat, name: Seq<u8>) -> bool {
    &&& after.spec_seqno() == before.spec_seqno()
    &&& after.spec_blkno() == before.spec_blkno()
    &&& match lookup(before.spec_files(), name) {
        None => after.spec_entries() == before.spec_entries() && after.spec_files() == before.spec_files(),
        Some(i) => {
            &&& after.spec_entries() == free_chain(
                before.spec_entries(),
                before.spec_files()[i].start,
                before.spec_entries().len(),
            )
            &&& after.spec_files().len() == before.spec_files().len()
            &&& is_blank(after.spec_files()[i])
            &&& forall|k: int| 0 <= k < before.spec_files().len() && k != i ==> after.spec_files()[k] == before.spec_files()[k]
        },
    }
}

/// Whether no two files in use store the same name.
pub open spec fn unique_names(files: Seq<FileEntry>) -> bool {
    forall|i: int, j: int|
        0 <= i < files.len() && 0 <= j < files.len() && i != j && (#[trigger] files[i]).valid == FileValid::Valid
            && (#[trigger] files[j]).valid == FileValid::Valid ==> !(files[i].name == files[j].name
            && files[i].ext == files[j].ext)
}

/// Deleting a file and then deleting it again changes nothing the second
/// time: once deleted, no file answers to the name, so a write that starts by
/// deleting its target finds the same state either way.
pub proof fn lemma_delete_twice(a: Fat, b: Fat, c: Fat, name: Seq<u8>)
    requires
        unique_names(a.spec_files()),
        deleted_from(a, b, name),
        deleted_from(b, c, name),
    ensures
        c.spec_entries() == b.spec_entries(),
        c.spec_files() == b.spec_files(),
        c.spec_seqno() == b.spec_seqno(),
        c.spec_blkno() == b.spec_blkno(),
{
    lemma_none_after_delete(a, b, name);
}

proof fn lemma_same_name(f: FileEntry, g: FileEntry, name: Seq<u8>)
    requires
        answers_to(f, name),
        answers_to(g, name),
    ensures
        f.name == g.name && f.ext == g.ext,
{
    assert(f.name@ == g.name@);
    assert(f.ext@ == g.ext@);
    assert(f.name =~= g.name);
    assert(f.ext =~= g.ext);
}

proof fn lemma_none_after_delete(a: Fat, b: Fat, name: Seq<u8>)
    requires
        unique_names(a.spec_files()),
        deleted_from(a, b, name),
    ensures
        lookup(b.spec_files(), name) is None,
{
    let fa = a.spec_files();
    let fb = b.spec_files();
    lemma_lookup_some(fa, name);
    if lookup(fa, name) is Some {
        let i = lookup(fa, name)->Some_0;
        assert forall|k: int| 0 <= k < fb.len() implies !answers_to(#[trigger] fb[k], name) by {
            if k != i && answers_to(fb[k], name) {
                assert(fb[k] == fa[k]);
                lemma_same_name(fa[k], fa[i], name);
            }
        }
        lemma_lookup_none(fb, name);
    } else {
        assert(fb == fa);
    }
}

/// No answering slot: the lookup finds none.
pub proof fn lemma_lookup_none(files: Seq<FileEntry>, name: Seq<u8>)
    requires
        forall|k: int| 0 <= k < files.len() ==> !answers_to(#[trigger] files[k], name),
    ensures
        lookup(files, name) is None,
{
    reveal(lookup);
}

/// What the lookup finds answers to the name.
pub proof fn lemma_lookup_some(files: Seq<FileEntry>, name: Seq<u8>)
    ensures
        lookup(files, name) is Some ==> {
            let i = lookup(files, name)->Some_0;
            0 <= i < files.len() && answers_to(files[i], name) && forall|k: int|
                0 <= k < i ==> !answers_to(#[trigger] files[k], name)
        },
{
    reveal(lookup);
}

impl Fat {
    /// The slot of the first file in use that answers to `filename`.
    pub fn find_file(&self, filename: &[u8]) -> (r: Option<usize>)
        ensures
            r is Some ==> lookup(self.spec_files(), filename@) == Some(r->Some_0 as int),
            r is Some ==> r->Some_0 < self.spec_files().len() && answers_to(self.spec_files()[r->Some_0 as int], filename@),
            r is None ==> lookup(self.spec_files(), filename@) is None,
    {
        let ghost name = filename@;
        let mut i: usize = 0;
        while i < self.files.len()
            invariant
                i <= self.files@.len(),
                name == filename@,
                forall|k: int| 0 <= k < i ==> !answers_to(#[trigger] self.files@[k], name),
            decreases self.files@.len() - i,
        {
            if self.files[i].answers_to(filename) {
                proof {
                    lemma_lookup_first(self.files@, name, i as int);
                }
                return Some(i);
            }
            i = i + 1;
        }
        proof {
            lemma_lookup_none(self.files@, name);
        }
        None
    }

    /// Marks every block of the chain from `start` free, following at most as
    /// many links as the card has blocks.
    fn free_blocks(&mut self, start: FATEntry)
        requires
            old(self).wf(),
        ensures
            final(self).wf(),
            final(self).spec_entries() == free_chain(old(self).spec_entries(), start, old(self).spec_entries().len()),
            final(self).spec_files() == old(self).spec_files(),
            final(self).spec_seqno() == old(self).spec_seqno(),
            final(self).spec_blkno() == old(self).spec_blkno(),
    {
        let ghost target = free_chain(self.entries@, start, self.entries@.len());
        proof {
            lemma_free_chain_wf(self.entries@, start, self.entries@.len());
        }
        let len = self.entries.len();
        let mut next = start;
        let mut fuel: usize = len;
        loop
            invariant
                self.entries@.len() == len,
                fuel <= len,
                free_chain(self.entries@, next, fuel as nat) == target,
                self.files@ == old(self).files@,
                self.seqno == old(self).seqno,
                self.blkno == old(self).blkno,
            ensures
                self.entries@ == target,
                self.files@ == old(self).files@,
                self.seqno == old(self).seqno,
                self.blkno == old(self).blkno,
            decreases fuel,
        {
            if fuel == 0 {
                break;
            }
            match next {
                FATEntry::Chain(b) => {
                    if (b as usize) < len {
                        next = self.entries[b as usize];
                        self.entries.set(b as usize, FATEntry::Free);
                        fuel = fuel - 1;
                    } else {
                        break;
                    }
                },
                _ => {
                    break;
                },
            }
        }
    }

    /// Deletes the file that answers to `filename`, if there is one: its slot
    /// is emptied and its blocks freed.
    pub fn delete_file(&mut self, filename: &[u8])
        requires
            old(self).wf(),
        ensures
            final(self).wf(),
            deleted_from(*old(self), *final(self), filename@),
            old(self).names_ok() ==> final(self).names_ok(),
    {
        match self.find_file(filename) {
            None => {},
            Some(i) => {
                let start = self.files[i].start;
                let mut f = self.files[i];
                f.clear();
                self.files.set(i, f);
                self.free_blocks(start);
            },
        }
        proof {
            lemma_delete_names(*old(self), *self, filename@);
        }
    }
}

/// Whether `after` is `before` with the file in slot `i` renamed to `to`,
/// after the file answering to `to`, if any, was deleted.
pub open spec fn renamed_from(before: Fat, after: Fat, i: int, to: Seq<u8>) -> bool {
    let fb = before.spec_files();
    let fa = after.spec_files();
    &&& after.spec_seqno() == before.spec_seqno()
    &&& after.spec_blkno() == before.spec_blkno()
    &&& fa.len() == fb.len()
    &&& 0 <= i < fb.len()
    &&& stores_name(fa[i], canonical_parts(to).0, canonical_parts(to).1)
    &&& fa[i].valid == fb[i].valid && fa[i].start == fb[i].start && fa[i].pad == fb[i].pad && fa[i].size
        == fb[i].size
    &&& match lookup(fb, to) {
        None => {
            &&& after.spec_entries() == before.spec_entries()
            &&& forall|k: int| 0 <= k < fb.len() && k != i ==> fa[k] == fb[k]
        },
        Some(j) => {
            &&& j != i
            &&& after.spec_entries() == free_chain(before.spec_entries(), fb[j].start, before.spec_entries().len())
            &&& is_blank(fa[j])
            &&& forall|k: int| 0 <= k < fb.len() && k != i && k != j ==> fa[k] == fb[k]
        },
    }
}

/// Whether two names are the same once folded to lower case.
pub fn same_lowercase(a: &[u8], b: &[u8]) -> (r: bool)
    ensures
        r == (lower_seq(a@) == lower_seq(b@)),
{
    let x = a;
    let y = b;
    if x.len() != y.len() {
        assert(lower_seq(a@).len() != lower_seq(b@).len());
        return false;
    }
    let mut i: usize = 0;
    while i < x.len()
        invariant
            i <= x@.len(),
            x@ == a@,
            y@ == b@,
            x@.len() == y@.len(),
            forall|k: int| 0 <= k < i ==> lower_seq(x@)[k] == lower_seq(y@)[k],
        decreases x@.len() - i,
    {
        let p: u8 = if 65 <= x[i] && x[i] <= 90 { x[i] + 32 } else { x[i] };
        let q: u8 = if 65 <= y[i] && y[i] <= 90 { y[i] + 32 } else { y[i] };
        if p != q {
            assert(lower_seq(x@)[i as int] != lower_seq(y@)[i as int]);
            return false;
        }
        i = i + 1;
    }
    assert(lower_seq(x@) =~= lower_seq(y@));
    true
}

impl Fat {
    /// Renames the file that answers to `from` to `to`, deleting any file
    /// that answers to `to` first. Gives whether anything changed.
    ///
    /// Names that are the same in lower case, or that store the same, leave
    /// the FAT as it is.
    pub fn rename_file(&mut self, from: &[u8], to: &[u8]) -> (r: Result<bool, LibBBRDBError>)
        requires
            old(self).wf(),
        ensures
            final(self).wf(),
            lower_seq(from@) == lower_seq(to@) ==> r == Ok::<bool, LibBBRDBError>(false),
            r is Err || r == Ok::<bool, LibBBRDBError>(false) ==> *final(self) == *old(self),
            lower_seq(from@) != lower_seq(to@) && !name_ok(to@) ==> r is Err
                && (r->Err_0 is FileNameTooLong || r->Err_0 is InvalidFilename),
            lower_seq(from@) != lower_seq(to@) && name_ok(to@) && lookup(
                old(self).spec_files(),
                from@,
            ) is None ==> r is Err && r->Err_0 is FileNotFound,
            lower_seq(from@) != lower_seq(to@) && name_ok(to@) && lookup(old(self).spec_files(), from@) is Some ==> r is Ok,
            r == Ok::<bool, LibBBRDBError>(true) ==> renamed_from(
                *old(self),
                *final(self),
                lookup(old(self).spec_files(), from@)->Some_0,
                to@,
            ),
            r == Ok::<bool, LibBBRDBError>(true) ==> entry_name_ok(
                final(self).spec_files()[lookup(old(self).spec_files(), from@)->Some_0],
            ),
            old(self).names_ok() ==> final(self).names_ok(),
            r is Ok && lookup(old(self).spec_files(), from@) is Some && lower_seq(from@)
                != lower_seq(to@) ==> (r->Ok_0 <==> !answers_to(
                old(self).spec_files()[lookup(old(self).spec_files(), from@)->Some_0],
                to@,
            )),
    {
        if same_lowercase(from, to) {
            return Ok(false);
        }
        match canonical_name(to) {
            Ok(_) => {},
            Err(e) => {
                return Err(e);
            },
        }
        let i = match self.find_file(from) {
            Some(i) => i,
            None => {
                return Err(LibBBRDBError::FileNotFound(crate::names::lossy_string(from)));
            },
        };
        if self.files[i].answers_to(to) {
            return Ok(false);
        }
        let ghost before = *self;
        proof {
            lemma_lookup_some(self.files@, to@);
        }
        self.delete_file(to);
        let mut f = self.files[i];
        match f.set_name(to) {
            Ok(()) => {},
            Err(e) => {
                assert(false);
                return Err(e);
            },
        }
        self.files.set(i, f);
        proof {
            lemma_rename_names(before, *self, i as int, to@);
        }
        Ok(true)
    }
}

/// The name of an entry as shown to callers: the base, then `.` and the
/// extension when there is one, each cut at its first NUL.
pub open spec fn display_name(f: FileEntry) -> Seq<u8> {
    let b = until_nul(f.name@);
    let e = until_nul(f.ext@);
    if e.len() > 0 { b + seq![DOT] + e } else { b }
}

/// The length of an entry's contents.
pub open spec fn logical_size(f: FileEntry) -> nat {
    if f.pad <= f.size { (f.size - f.pad) as nat } else { 0 }
}

/// The names and lengths of the files in use, in directory order.
pub open spec fn listing(files: Seq<FileEntry>) -> Seq<(Seq<u8>, nat)>
    decreases files.len(),
{
    if files.len() == 0 {
        seq![]
    } else {
        let f = files.last();
        listing(files.drop_last()) + if f.valid == FileValid::Valid {
            seq![(display_name(f), logical_size(f))]
        } else {
            seq![]
        }
    }
}

impl FileEntry {
    /// The stored name as bytes: base, then `.` and extension if any.
    pub fn format_name_bytes(&self) -> (r: Vec<u8>)
        ensures
            r@ == display_name(*self),
    {
        let mut b = crate::names::copy_until_nul(self.name.as_slice());
        let mut e = crate::names::copy_until_nul(self.ext.as_slice());
        if e.len() > 0 {
            b.push(DOT);
            b.append(&mut e);
        }
        b
    }

    /// The stored name: base, then `.` and extension if any.
    pub fn format_name(&self) -> (r: String)
        ensures
            is_ascii_bytes(display_name(*self)) ==> r@ == ascii_chars(display_name(*self)),
    {
        let b = self.format_name_bytes();
        crate::names::lossy_string(b.as_slice())
    }
}

impl Fat {
    /// The name and length of every file in use.
    #[allow(non_snake_case)]
    pub fn ListFiles(&self) -> (r: Vec<(String, usize)>)
        ensures
            r@.len() == listing(self.spec_files()).len(),
            forall|k: int|
                0 <= k < r@.len() ==> (#[trigger] r@[k]).1 == listing(self.spec_files())[k].1 && (is_ascii_bytes(
                    listing(self.spec_files())[k].0,
                ) ==> r@[k].0@ == ascii_chars(listing(self.spec_files())[k].0)),
            self.names_ok() ==> forall|k: int|
                0 <= k < r@.len() ==> crate::names::listed_name_ok(#[trigger] listing(self.spec_files())[k].0)
                    && r@[k].0@ == ascii_chars(listing(self.spec_files())[k].0),
    {
        proof {
            if self.names_ok() {
                lemma_listed_names(self.files@);
            }
        }
        let mut out: Vec<(String, usize)> = Vec::new();
        let mut i: usize = 0;
        while i < self.files.len()
            invariant
                i <= self.files@.len(),
                out@.len() == listing(self.files@.take(i as int)).len(),
                forall|k: int|
                    0 <= k < out@.len() ==> (#[trigger] out@[k]).1 == listing(self.files@.take(i as int))[k].1
                        && (is_ascii_bytes(listing(self.files@.take(i as int))[k].0) ==> out@[k].0@
                        == ascii_chars(listing(self.files@.take(i as int))[k].0)),
            decreases self.files@.len() - i,
        {
            let ghost prev = listing(self.files@.take(i as int));
            let f = &self.files[i];
            assert(self.files@.take(i + 1).drop_last() =~= self.files@.take(i as int));
            if f.valid() {
                let name = f.format_name();
                out.push((name, f.size()));
            }
            i = i + 1;
        }
        assert(self.files@.take(i as int) =~= self.files@);
        out
    }
}

/// Number of blocks that `n` bytes fill.
pub open spec fn blocks_for(n: nat) -> nat {
    (n + BLOCK_SIZE - 1) as nat / BLOCK_SIZE as nat
}

/// `n` bytes fill this many blocks.
pub fn bytes_to_blocks(n: usize) -> (r: usize)
    ensures
        r == blocks_for(n as nat),
{
    n / BLOCK_SIZE + if n % BLOCK_SIZE == 0 { 0 } else { 1 }
}

impl Fat {
    /// The blocks to read for the file that answers to `filename`, in order,
    /// and its length; `None` where no file answers.
    pub fn read_plan(&self, filename: &[u8]) -> (r: Option<(Vec<u16>, usize)>)
        ensures
            r is None <==> lookup(self.spec_files(), filename@) is None,
            r is Some ==> {
                let f = self.spec_files()[lookup(self.spec_files(), filename@)->Some_0];
                &&& r->Some_0.1 == logical_size(f)
                &&& r->Some_0.0@ == chain_blocks(self.spec_entries(), f.start, blocks_for(logical_size(f)))
            },
    {
        let i = match self.find_file(filename) {
            Some(i) => i,
            None => {
                return None;
            },
        };
        let f = &self.files[i];
        let size = f.size();
        let n = bytes_to_blocks(size);
        let ghost s = self.entries@;
        let ghost target = chain_blocks(s, f.start, n as nat);
        let mut out: Vec<u16> = Vec::new();
        let mut cur = f.start;
        let mut left: usize = n;
        loop
            invariant
                s == self.entries@,
                left <= n,
                out@ + chain_blocks(s, cur, left as nat) == target,
            ensures
                out@ == target,
            decreases left,
        {
            if left == 0 {
                assert(out@ =~= target);
                break;
            }
            match cur {
                FATEntry::Chain(b) => {
                    if (b as usize) < self.entries.len() {
                        let ghost before = out@;
                        out.push(b);
                        assert(before + chain_blocks(s, cur, left as nat) =~= out@ + chain_blocks(
                            s,
                            s[b as int],
                            (left - 1) as nat,
                        ));
                        cur = self.entries[b as usize];
                        left = left - 1;
                    } else {
                        assert(out@ =~= target);
                        break;
                    }
                },
                _ => {
                    assert(out@ =~= target);
                    break;
                },
            }
        }
        Some((out, size))
    }
}

/// The contents of a list of buffers, one after the other.
pub open spec fn flatten(s: Seq<Seq<u8>>) -> Seq<u8>
    decreases s.len(),
{
    if s.len() == 0 {
        seq![]
    } else {
        flatten(s.drop_last()) + s.last()
    }
}

/// The first `size` bytes of the blocks read, or all of them when they hold
/// fewer.
pub open spec fn assembled(blocks: Seq<Seq<u8>>, size: nat) -> Seq<u8> {
    let f = flatten(blocks);
    if f.len() <= size { f } else { f.take(size as int) }
}

/// Joins the blocks read for a file and cuts the result to its length.
pub fn assemble_file(blocks: &Vec<Vec<u8>>, size: usize) -> (r: Vec<u8>)
    ensures
        r@ == assembled(crate::rdb::views(blocks@), size as nat),
{
    let ghost v = crate::rdb::views(blocks@);
    let mut out: Vec<u8> = Vec::new();
    let mut i: usize = 0;
    while i < blocks.len()
        invariant
            i <= blocks@.len(),
            v == crate::rdb::views(blocks@),
            out@ == assembled(v.take(i as int), size as nat),
        decreases blocks@.len() - i,
    {
        let ghost prev = flatten(v.take(i as int));
        assert(v.take(i + 1).drop_last() =~= v.take(i as int));
        assert(v[i as int] == blocks@[i as int]@);
        let b = &blocks[i];
        let mut k: usize = 0;
        while k < b.len() && out.len() < size
            invariant
                k <= b@.len(),
                out@.len() <= size,
                out@ == assembled(v.take(i as int), size as nat) + b@.take(k as int),
                k > 0 ==> prev.len() <= size,
                out@.len() == (if prev.len() <= size { prev.len() } else { size as nat }) + k,
            decreases b@.len() - k,
        {
            out.push(b[k]);
            k = k + 1;
            assert(b@.take(k as int) =~= b@.take(k - 1).push(b@[k - 1]));
        }
        proof {
            let next = flatten(v.take(i + 1));
            assert(next == prev + b@);
            if prev.len() <= size {
                assert(assembled(v.take(i as int), size as nat) == prev);
                if k == b@.len() {
                    assert(b@.take(k as int) =~= b@);
                    assert(out@ =~= assembled(v.take(i + 1), size as nat));
                } else {
                    assert(out@.len() == size);
                    assert(out@ =~= assembled(v.take(i + 1), size as nat));
                }
            } else {
                assert(out@ =~= assembled(v.take(i + 1), size as nat));
            }
        }
        i = i + 1;
    }
    assert(v.take(i as int) =~= v);
    out
}

/// Blocks that a file of `size` bytes takes on the card: at least one.
pub open spec fn data_blocks(size: nat) -> nat {
    if size == 0 { 1 } else { blocks_for(size) }
}

/// The free blocks of the data area: past the reserved blocks at the start,
/// before the FAT slots at the end.
pub open spec fn data_free_count(entries: Seq<FATEntry>) -> nat {
    count_where(entries.subrange(FIRST_DATA_BLOCK as int, entries.len() - NUM_FATS), |e: FATEntry| is_free(e))
}

/// Whether `l` is what allocation picks: free blocks of the data area in
/// increasing order, passing over no free block before the last one picked.
pub open spec fn greedy_alloc(entries: Seq<FATEntry>, l: Seq<u16>) -> bool {
    &&& forall|k: int|
        0 <= k < l.len() ==> FIRST_DATA_BLOCK <= #[trigger] l[k] < entries.len() - NUM_FATS && entries[l[k] as int]
            == FATEntry::Free
    &&& forall|j: int, k: int| 0 <= j < k < l.len() ==> #[trigger] l[j] < #[trigger] l[k]
    &&& forall|x: int|
        FIRST_DATA_BLOCK <= x < (if l.len() > 0 { l.last() as int } else { FIRST_DATA_BLOCK as int })
            && #[trigger] entries[x] == FATEntry::Free ==> l.contains(x as u16)
}

/// Whether `after` is `before` with the blocks of `l` chained in order, the
/// last ending the chain.
pub open spec fn linked(before: Seq<FATEntry>, after: Seq<FATEntry>, l: Seq<u16>) -> bool {
    &&& after.len() == before.len()
    &&& l.len() > 0
    &&& forall|k: int| 0 <= k < l.len() - 1 ==> after[#[trigger] l[k] as int] == FATEntry::Chain(l[k + 1])
    &&& after[l.last() as int] == FATEntry::EndOfChain
    &&& forall|i: int| 0 <= i < before.len() && !l.contains(i as u16) ==> #[trigger] after[i] == before[i]
}

/// Whether two FATs hold the same entries, directory, generation and slot.
pub open spec fn same_fat(a: Fat, b: Fat) -> bool {
    &&& a.spec_entries() == b.spec_entries()
    &&& a.spec_files() == b.spec_files()
    &&& a.spec_seqno() == b.spec_seqno()
    &&& a.spec_blkno() == b.spec_blkno()
}

/// The first empty directory slot.
pub open spec fn first_blank_slot(files: Seq<FileEntry>, i: int) -> bool {
    0 <= i < files.len() && files[i].valid == FileValid::Invalid && forall|k: int|
        0 <= k < i ==> (#[trigger] files[k]).valid == FileValid::Valid
}

/// What creating the temporary file of `size` bytes does to `before`.
pub open spec fn temp_created(before: Fat, after: Fat, size: nat, r: Result<Vec<u16>, LibBBRDBError>) -> bool {
    let all_used = forall|k: int| 0 <= k < before.spec_files().len() ==> (#[trigger] before.spec_files()[k]).valid
        == FileValid::Valid;
    &&& (r is Err ==> same_fat(before, after))
    &&& (r is Err ==> (r->Err_0 == LibBBRDBError::NoEmptyFileSlots <==> all_used))
    &&& (r is Err ==> (r->Err_0 == LibBBRDBError::NoFreeBlocks <==> (!all_used && data_free_count(
        before.spec_entries(),
    ) < data_blocks(size))))
    &&& (r is Err ==> (r->Err_0 is NoEmptyFileSlots || r->Err_0 is NoFreeBlocks))
    &&& (r is Ok <==> (!all_used && data_free_count(before.spec_entries()) >= data_blocks(size)))
    &&& (r is Ok ==> {
        let l = r->Ok_0@;
        let fb = before.spec_files();
        let fa = after.spec_files();
        &&& l.len() == data_blocks(size)
        &&& greedy_alloc(before.spec_entries(), l)
        &&& linked(before.spec_entries(), after.spec_entries(), l)
        &&& chain_ok(after.spec_entries(), FATEntry::Chain(l[0]))
        &&& after.spec_seqno() == before.spec_seqno()
        &&& after.spec_blkno() == before.spec_blkno()
        &&& fa.len() == fb.len()
        &&& exists|i: int| {
            &&& first_blank_slot(fb, i)
            &&& fa[i].valid == FileValid::Valid
            &&& fa[i].start == FATEntry::Chain(l[0])
            &&& stores_name(fa[i], temp_name().take(4), temp_name().skip(5))
            &&& entry_name_ok(fa[i])
            &&& fa[i].size == crate::fs::block_round_up(size)
            &&& fa[i].size - fa[i].pad == size
            &&& forall|k: int| 0 <= k < fb.len() && k != i ==> fa[k] == fb[k]
        }
    })
}

proof fn lemma_count_sub_step(e: Seq<FATEntry>, a: int, p: int, q: spec_fn(FATEntry) -> bool)
    requires
        0 <= a <= p < e.len(),
    ensures
        count_where(e.subrange(a, p + 1), q) == count_where(e.subrange(a, p), q) + if q(e[p]) { 1nat } else { 0nat },
{
    assert(e.subrange(a, p + 1).drop_last() =~= e.subrange(a, p));
}

proof fn lemma_count_sub_mono(e: Seq<FATEntry>, a: int, p: int, q: int, f: spec_fn(FATEntry) -> bool)
    requires
        0 <= a <= p <= q <= e.len(),
    ensures
        count_where(e.subrange(a, p), f) <= count_where(e.subrange(a, q), f),
    decreases q - p,
{
    if p < q {
        lemma_count_sub_mono(e, a, p, q - 1, f);
        lemma_count_sub_step(e, a, q - 1, f);
    }
}

impl Fat {
    /// The first empty directory slot.
    pub fn find_blank_file_entry(&self) -> (r: Result<usize, LibBBRDBError>)
        ensures
            r is Ok ==> first_blank_slot(self.spec_files(), r->Ok_0 as int),
            r is Err ==> r->Err_0 == LibBBRDBError::NoEmptyFileSlots && forall|k: int|
                0 <= k < self.spec_files().len() ==> (#[trigger] self.spec_files()[k]).valid == FileValid::Valid,
    {
        let mut i: usize = 0;
        while i < self.files.len()
            invariant
                i <= self.files@.len(),
                forall|k: int| 0 <= k < i ==> (#[trigger] self.files@[k]).valid == FileValid::Valid,
            decreases self.files@.len() - i,
        {
            if !self.files[i].valid() {
                return Ok(i);
            }
            i = i + 1;
        }
        Err(LibBBRDBError::NoEmptyFileSlots)
    }

    /// Picks `n` free blocks of the data area, lowest first.
    pub fn collect_free_blocks(&self, n: usize) -> (r: Result<Vec<u16>, LibBBRDBError>)
        requires
            self.wf(),
        ensures
            r is Ok <==> data_free_count(self.spec_entries()) >= n,
            r is Ok ==> r->Ok_0@.len() == n && greedy_alloc(self.spec_entries(), r->Ok_0@),
            r is Err ==> r->Err_0 == LibBBRDBError::NoFreeBlocks,
    {
        let ghost e = self.entries@;
        let end = self.entries.len() - NUM_FATS as usize;
        let mut out: Vec<u16> = Vec::new();
        if n == 0 {
            assert(greedy_alloc(e, out@));
            return Ok(out);
        }
        let mut p: usize = FIRST_DATA_BLOCK;
        assert(e.subrange(FIRST_DATA_BLOCK as int, FIRST_DATA_BLOCK as int) =~= Seq::<FATEntry>::empty());
        while p < end
            invariant
                e == self.entries@,
                e.len() <= 0x10000,
                e.len() % 0x1000 == 0,
                e.len() > 0,
                end == e.len() - NUM_FATS,
                FIRST_DATA_BLOCK <= p <= end,
                0 < n,
                out@.len() < n,
                out@.len() == count_where(e.subrange(FIRST_DATA_BLOCK as int, p as int), |x: FATEntry| is_free(x)),
                forall|k: int| 0 <= k < out@.len() ==> FIRST_DATA_BLOCK <= #[trigger] out@[k] < p && e[out@[k] as int] == FATEntry::Free,
                forall|j: int, k: int| 0 <= j < k < out@.len() ==> #[trigger] out@[j] < #[trigger] out@[k],
                forall|x: int| FIRST_DATA_BLOCK <= x < p && #[trigger] e[x] == FATEntry::Free ==> out@.contains(x as u16),
            decreases end - p,
        {
            proof {
                lemma_count_sub_step(e, FIRST_DATA_BLOCK as int, p as int, |x: FATEntry| is_free(x));
            }
            if self.entries[p] == FATEntry::Free {
                let ghost before = out@;
                out.push(p as u16);
                assert forall|x: int| FIRST_DATA_BLOCK <= x < p + 1 && #[trigger] e[x] == FATEntry::Free implies out@.contains(x as u16) by {
                    if x < p {
                        assert(before.contains(x as u16));
                        let w = choose|w: int| 0 <= w < before.len() && before[w] == x as u16;
                        assert(out@[w] == x as u16);
                    } else {
                        assert(out@[out@.len() - 1] == x as u16);
                    }
                }
                if out.len() == n {
                    proof {
                        lemma_count_sub_mono(e, FIRST_DATA_BLOCK as int, p + 1, end as int, |x: FATEntry| is_free(x));
                    }
                    assert(out@.last() == p as u16);
                    assert forall|x: int| FIRST_DATA_BLOCK <= x < out@.last() as int && #[trigger] e[x] == FATEntry::Free implies out@.contains(x as u16) by {
                        assert(x < p + 1);
                    }
                    return Ok(out);
                }
            }
            p = p + 1;
        }
        Err(LibBBRDBError::NoFreeBlocks)
    }

    /// Chains the blocks of `l` in order, the last ending the chain.
    fn link_blocks(&mut self, l: &Vec<u16>)
        requires
            old(self).wf(),
            l@.len() > 0,
            greedy_alloc(old(self).spec_entries(), l@),
        ensures
            final(self).wf(),
            linked(old(self).spec_entries(), final(self).spec_entries(), l@),
            final(self).spec_files() == old(self).spec_files(),
            final(self).spec_seqno() == old(self).spec_seqno(),
            final(self).spec_blkno() == old(self).spec_blkno(),
    {
        let ghost before = self.entries@;
        let n = l.len();
        let mut k: usize = 0;
        while k < n
            invariant
                n == l@.len(),
                k <= n,
                self.entries@.len() == before.len(),
                before.len() <= 0x10000,
                greedy_alloc(before, l@),
                forall|j: int| 0 <= j < k && j < n - 1 ==> self.entries@[#[trigger] l@[j] as int] == FATEntry::Chain(l@[j + 1]),
                k == n ==> self.entries@[l@.last() as int] == FATEntry::EndOfChain,
                forall|i: int|
                    0 <= i < before.len() && !l@.subrange(0, k as int).contains(i as u16) ==> #[trigger] self.entries@[i] == before[i],
                forall|i: int| 0 <= i < self.entries@.len() ==> entry_ok(#[trigger] self.entries@[i]),
                self.files@ == old(self).files@,
                self.seqno == old(self).seqno,
                self.blkno == old(self).blkno,
            decreases n - k,
        {
            let b = l[k];
            let v = if k + 1 < n { FATEntry::Chain(l[k + 1]) } else { FATEntry::EndOfChain };
            let ghost prev = self.entries@;
            self.entries.set(b as usize, v);
            proof {
                assert forall|j: int| 0 <= j < k + 1 && j < n - 1 implies self.entries@[#[trigger] l@[j] as int] == FATEntry::Chain(l@[j + 1]) by {
                    if j < k {
                        assert(l@[j] < l@[k as int]);
                    }
                }
                assert forall|i: int|
                    0 <= i < before.len() && !l@.subrange(0, k + 1).contains(i as u16) implies #[trigger] self.entries@[i] == before[i] by {
                    assert(l@.subrange(0, k + 1)[k as int] == b);
                    if l@.subrange(0, k as int).contains(i as u16) {
                        let w = choose|w: int| 0 <= w < k && l@.subrange(0, k as int)[w] == i as u16;
                        assert(l@.subrange(0, k + 1)[w] == i as u16);
                    }
                }
                if k + 1 == n {
                    assert(l@.last() == b);
                }
                assert forall|i: int| 0 <= i < self.entries@.len() implies entry_ok(#[trigger] self.entries@[i]) by {
                    if i == b as int && k + 1 < n {
                        assert(l@[k + 1] >= FIRST_DATA_BLOCK);
                    }
                }
            }
            k = k + 1;
        }
        proof {
            assert(l@.subrange(0, n as int) =~= l@);
        }
    }
}

impl Fat {
    /// Deletes any earlier temporary file, then creates `temp.tmp` for
    /// `size` bytes: a directory entry in the first empty slot and a chain
    /// of the first free blocks of the data area. Gives the blocks, in order,
    /// that the data goes to.
    pub fn write_blocks_to_temp_file(&mut self, size: u32) -> (r: Result<Vec<u16>, LibBBRDBError>)
        requires
            old(self).wf(),
            size <= 0xFFFF_C000,
        ensures
            final(self).wf(),
            exists|mid: Fat| #[trigger] deleted_from(*old(self), mid, temp_name()) && temp_created(mid, *final(self), size as nat, r),
            old(self).names_ok() ==> final(self).names_ok(),
            (forall|k: int| 0 <= k < old(self).spec_files().len() ==> (#[trigger] old(self).spec_files()[k]).valid
                == FileValid::Valid) && lookup(old(self).spec_files(), temp_name()) is None ==> r
                == Err::<Vec<u16>, LibBBRDBError>(LibBBRDBError::NoEmptyFileSlots) && same_fat(*old(self), *final(self)),
    {
        let temp = temp_file_name();
        self.delete_file(temp.as_slice());
        let ghost mid = *self;
        let slot = match self.find_blank_file_entry() {
            Ok(i) => i,
            Err(e) => {
                assert(deleted_from(*old(self), mid, temp_name()) && temp_created(mid, *self, size as nat, Err(e)));
                proof {
                    lemma_delete_names(*old(self), mid, temp_name());
                    lemma_temp_names(mid, *self, size as nat, Err(e));
                }
                return Err(e);
            },
        };
        let n: usize = if size == 0 { 1 } else { bytes_to_blocks(size as usize) };
        let blocks = match self.collect_free_blocks(n) {
            Ok(b) => b,
            Err(e) => {
                assert(deleted_from(*old(self), mid, temp_name()) && temp_created(mid, *self, size as nat, Err(e)));
                proof {
                    lemma_delete_names(*old(self), mid, temp_name());
                    lemma_temp_names(mid, *self, size as nat, Err(e));
                }
                return Err(e);
            },
        };
        let mut f = self.files[slot];
        proof {
            lemma_temp_name_ok();
        }
        match f.set_name(temp.as_slice()) {
            Ok(()) => {},
            Err(e) => {
                assert(false);
            },
        }
        f.valid = FileValid::Valid;
        f.start = FATEntry::Chain(blocks[0]);
        f.set_size(size);
        self.files.set(slot, f);
        self.link_blocks(&blocks);
        let r: Result<Vec<u16>, LibBBRDBError> = Ok(blocks);
        proof {
            lemma_set_name_ok(self.files@[slot as int], temp_name());
            lemma_count_bound(
                mid.spec_entries().subrange(FIRST_DATA_BLOCK as int, mid.spec_entries().len() - NUM_FATS),
                |e: FATEntry| is_free(e),
            );
            lemma_linked_chain(mid.spec_entries(), self.entries@, blocks@, 0, self.entries@.len());
        }
        assert(temp_created(mid, *self, size as nat, r)) by {
            assert(first_blank_slot(mid.spec_files(), slot as int));
        }
        proof {
            lemma_delete_names(*old(self), mid, temp_name());
            lemma_temp_names(mid, *self, size as nat, r);
        }
        r
    }
}

/// The `k`th block of data written for `d`: its slice of `d`, NUL padded to
/// a whole block.
pub open spec fn data_chunk(d: Seq<u8>, k: int) -> Seq<u8> {
    let start = k * BLOCK_SIZE;
    let end = if start + BLOCK_SIZE <= d.len() { start + BLOCK_SIZE } else { d.len() as int };
    crate::names::padded(d.subrange(start, end), BLOCK_SIZE as nat)
}

/// Cuts `data` into the blocks written for it, the last NUL padded, at least
/// one block; refuses a list of target blocks of another length.
pub fn write_file_blocks(data: &[u8], blocks: &[u16]) -> (r: Result<Vec<Vec<u8>>, LibBBRDBError>)
    ensures
        r is Ok <==> blocks@.len() == data_blocks(data@.len()),
        r is Err ==> r->Err_0 == LibBBRDBError::IncorrectNumBlocks(data_blocks(data@.len()) as usize, blocks@.len() as usize),
        r is Ok ==> r->Ok_0@.len() == blocks@.len() && forall|k: int|
            0 <= k < r->Ok_0@.len() ==> (#[trigger] r->Ok_0@[k])@ == data_chunk(data@, k),
{
    let n: usize = if data.len() == 0 { 1 } else { bytes_to_blocks(data.len()) };
    if blocks.len() != n {
        return Err(LibBBRDBError::IncorrectNumBlocks(n, blocks.len()));
    }
    let mut out: Vec<Vec<u8>> = Vec::new();
    let mut k: usize = 0;
    let mut start: usize = 0;
    while k < n
        invariant
            k <= n,
            n == data_blocks(data@.len()),
            k < n ==> start == k * BLOCK_SIZE,
            k < n ==> (start < data@.len() || data@.len() == 0),
            out@.len() == k,
            forall|j: int| 0 <= j < k ==> (#[trigger] out@[j])@ == data_chunk(data@, j),
        decreases n - k,
    {
        let end: usize = if data.len() - start >= BLOCK_SIZE { start + BLOCK_SIZE } else { data.len() };
        let piece = crate::rdb::slice_to_vec(&data[start..end]);
        let b = crate::names::pad_to(&piece, BLOCK_SIZE);
        out.push(b);
        proof {
            let len = data@.len() as int;
            let kk = k as int;
            assert(out@[kk]@ == data_chunk(data@, kk));
            if kk + 1 < n {
                assert(len > 0);
                vstd::arithmetic::div_mod::lemma_fundamental_div_mod(len + 16383, 16384);
                let nn = n as int;
                assert(nn * 16384 <= len + 16383);
                assert((kk + 1) * 16384 <= (nn - 1) * 16384) by (nonlinear_arith)
                    requires kk + 1 <= nn - 1;
                assert((kk + 1) * 16384 < len);
                assert((kk + 1) * 16384 == start + 16384) by (nonlinear_arith)
                    requires start == kk * 16384;
            }
        }
        k = k + 1;
        if k < n {
            start = start + BLOCK_SIZE;
        }
    }
    Ok(out)
}

/// The sum of the bytes of `d`.
pub open spec fn byte_sum(d: Seq<u8>) -> nat
    decreases d.len(),
{
    if d.len() == 0 { 0 } else { byte_sum(d.drop_last()) + d.last() as nat }
}

/// The checksum the card computes over a file: the sum of its bytes modulo
/// 2^32.
pub fn calc_file_checksum(data: &[u8]) -> (r: u32)
    ensures
        r == byte_sum(data@) % 0x1_0000_0000,
{
    let mut sum: u32 = 0;
    let mut i: usize = 0;
    while i < data.len()
        invariant
            i <= data@.len(),
            sum == byte_sum(data@.take(i as int)) % 0x1_0000_0000,
        decreases data@.len() - i,
    {
        proof {
            assert(data@.take(i + 1).drop_last() =~= data@.take(i as int));
            vstd::arithmetic::div_mod::lemma_add_mod_noop(byte_sum(data@.take(i as int)) as int, data@[i as int] as int, 0x1_0000_0000);
        }
        sum = sum.wrapping_add(data[i] as u32);
        i = i + 1;
    }
    assert(data@.take(i as int) =~= data@);
    sum
}

/// The byte budget for writing a file: the free blocks, plus those of the
/// file it replaces.
pub open spec fn write_budget(fat: Fat, name: Seq<u8>) -> nat {
    let free = count_where(fat.spec_entries(), |e: FATEntry| is_free(e));
    match lookup(fat.spec_files(), name) {
        Some(i) => (free + blocks_for(fat.spec_files()[i].size as nat)) * BLOCK_SIZE as nat,
        None => free * BLOCK_SIZE as nat,
    }
}

impl Fat {
    /// Decides whether writing `size` bytes to `filename` goes ahead.
    ///
    /// `checksum_matches` is the card's verdict on whether the file already
    /// there holds the same data; where it does, nothing is written (`false`).
    /// Otherwise the data must fit in the free blocks plus those of the file it
    /// replaces.
    pub fn validate_file_write(&self, filename: &[u8], size: u32, checksum_matches: bool) -> (r: Result<bool, LibBBRDBError>)
        requires
            self.wf(),
        ensures
            lookup(self.spec_files(), filename@) is Some && checksum_matches ==> r == Ok::<bool, LibBBRDBError>(false),
            !(lookup(self.spec_files(), filename@) is Some && checksum_matches) ==> {
                &&& size <= write_budget(*self, filename@) ==> r == Ok::<bool, LibBBRDBError>(true)
                &&& size > write_budget(*self, filename@) ==> {
                    &&& r is Err
                    &&& r->Err_0 is FileTooBig
                    &&& r->Err_0->FileTooBig_1 == size
                    &&& r->Err_0->FileTooBig_2 == shown_budget(write_budget(*self, filename@))
                    &&& is_ascii_bytes(filename@) ==> r->Err_0->FileTooBig_0@ == ascii_chars(lower_seq(filename@))
                }
            },
    {
        let free = self.get_free_block_count();
        proof {
            lemma_count_bound(self.entries@, |e: FATEntry| is_free(e));
        }
        let budget: u64 = match self.find_file(filename) {
            Some(i) => {
                if checksum_matches {
                    return Ok(false);
                }
                let blocks = bytes_to_blocks(self.files[i].size as usize);
                (free as u64 + blocks as u64) * BLOCK_SIZE as u64
            },
            None => free as u64 * BLOCK_SIZE as u64,
        };
        if size as u64 <= budget {
            Ok(true)
        } else {
            let shown: u32 = if budget > 0xFFFF_FFFF { 0xFFFF_FFFF } else { budget as u32 };
            let lower = crate::names::lower_bytes(filename);
            proof {
                crate::names::lemma_lower_ascii(filename@);
            }
            Err(LibBBRDBError::FileTooBig(crate::names::lossy_string(lower.as_slice()), size, shown))
        }
    }
}

/// A byte budget as an error reports it: capped at the largest `u32`.
pub open spec fn shown_budget(n: nat) -> u32 {
    if n > u32::MAX { u32::MAX } else { n as u32 }
}

/// `n` rounded up to a multiple of four.
pub open spec fn round4(n: nat) -> nat {
    ((n + 3) / 4) * 4
}

/// The name and its length as the card's file-checksum command takes them:
/// the name in lower case with its terminating NUL, NUL padded to a multiple
/// of four bytes; the length is that padded length.
pub fn chksum_file_name(filename: &[u8]) -> (r: Result<(u32, Vec<u8>), LibBBRDBError>)
    ensures
        r is Ok <==> name_ok(filename@),
        r is Err ==> (r->Err_0 is FileNameTooLong || r->Err_0 is InvalidFilename),
        r is Ok ==> r->Ok_0.0 == round4((filename@.len() + 1) as nat),
        r is Ok ==> r->Ok_0.1@ == crate::names::padded(lower_seq(filename@).push(0u8), round4((filename@.len() + 1) as nat)),
{
    match canonical_name(filename) {
        Ok(_) => {},
        Err(e) => {
            return Err(e);
        },
    }
    let mut v = crate::names::lower_bytes(filename);
    v.push(0);
    let len = v.len();
    let total = (len + 3) / 4 * 4;
    let padded = crate::names::pad_to(&v, total);
    Ok((total as u32, padded))
}

/// The checksum and size that follow the name in the file-checksum command.
pub fn chksum_file_data(chksum: u32, size: u32) -> (r: Vec<u8>)
    ensures
        r@ == crate::commands::be32(chksum) + crate::commands::be32(size),
{
    let mut v = crate::commands::be32_bytes(chksum);
    let mut w = crate::commands::be32_bytes(size);
    v.append(&mut w);
    v
}

/// The number of fragments a FAT of `len` entries is written as.
pub open spec fn fragment_count(len: nat) -> nat {
    len / BLOCK_CHUNK_SIZE as nat
}

/// The footer of the `k`th fragment written for generation `seqno`.
pub open spec fn fragment_footer(seqno: u32, k: int, link: u16) -> FSFooter {
    FSFooter {
        fs_type: if k == 0 { FSType::Bbfs } else { FSType::Bbfl },
        seqno: seqno,
        link_block: link,
        chksum: 0,
    }
}

/// The entries of the `k`th fragment.
pub open spec fn fragment_entries(entries: Seq<FATEntry>, k: int) -> Seq<FATEntry> {
    entries.subrange(k * BLOCK_CHUNK_SIZE, (k + 1) * BLOCK_CHUNK_SIZE)
}

impl Fat {
    /// The fragments of this FAT as written for the next generation: the
    /// entries in runs of 0x1000, the directory in the first fragment only,
    /// the next sequence number in every footer, links and checksums zero.
    pub fn blocks(&self) -> (r: Vec<FSBlock>)
        requires
            self.wf(),
        ensures
            r@.len() == fragment_count(self.spec_entries().len()),
            forall|k: int| 0 <= k < r@.len() ==> {
                let b = #[trigger] r@[k];
                &&& b.wf()
                &&& b.fat@ == fragment_entries(self.spec_entries(), k)
                &&& (k == 0 ==> b.entries@ == self.spec_files())
                &&& (k != 0 ==> forall|j: int| 0 <= j < b.entries@.len() ==> is_blank(#[trigger] b.entries@[j]))
                &&& b.footer == fragment_footer(self.spec_seqno().wrapping_add(1), k, 0)
            },
    {
        let count = self.entries.len() / BLOCK_CHUNK_SIZE;
        let seqno = self.seqno.wrapping_add(1);
        let mut out: Vec<FSBlock> = Vec::new();
        let mut k: usize = 0;
        while k < count
            invariant
                self.wf(),
                count == fragment_count(self.entries@.len()),
                seqno == self.seqno.wrapping_add(1),
                k <= count,
                out@.len() == k,
                forall|m: int| 0 <= m < k ==> {
                    let b = #[trigger] out@[m];
                    &&& b.wf()
                    &&& b.fat@ == fragment_entries(self.entries@, m)
                    &&& (m == 0 ==> b.entries@ == self.files@)
                    &&& (m != 0 ==> forall|j: int| 0 <= j < b.entries@.len() ==> is_blank(#[trigger] b.entries@[j]))
                    &&& b.footer == fragment_footer(seqno, m, 0)
                },
            decreases count - k,
        {
            let base = k * BLOCK_CHUNK_SIZE;
            assert((k + 1) * BLOCK_CHUNK_SIZE <= self.entries@.len()) by (nonlinear_arith)
                requires k < count, count == self.entries@.len() / 4096, self.entries@.len() >= 0;
            let mut fat: Vec<FATEntry> = Vec::new();
            let mut i: usize = 0;
            while i < BLOCK_CHUNK_SIZE
                invariant
                    self.wf(),
                    base == k * BLOCK_CHUNK_SIZE,
                    base + BLOCK_CHUNK_SIZE <= self.entries@.len(),
                    i <= BLOCK_CHUNK_SIZE,
                    fat@ == self.entries@.subrange(base as int, base + i),
                decreases BLOCK_CHUNK_SIZE - i,
            {
                fat.push(self.entries[base + i]);
                i = i + 1;
                assert(fat@ =~= self.entries@.subrange(base as int, base + i));
            }
            let mut entries: Vec<FileEntry> = Vec::new();
            let mut j: usize = 0;
            while j < NUM_FILE_ENTRIES
                invariant
                    self.wf(),
                    j <= NUM_FILE_ENTRIES,
                    entries@.len() == j,
                    k == 0 ==> entries@ == self.files@.take(j as int),
                    k != 0 ==> forall|m: int| 0 <= m < j ==> is_blank(#[trigger] entries@[m]),
                decreases NUM_FILE_ENTRIES - j,
            {
                if k == 0 {
                    entries.push(self.files[j]);
                    assert(entries@ =~= self.files@.take(j + 1));
                } else {
                    entries.push(FileEntry::default());
                }
                j = j + 1;
            }
            assert(k == 0 ==> entries@ =~= self.files@);
            let footer = FSFooter {
                fs_type: if k == 0 { FSType::Bbfs } else { FSType::Bbfl },
                seqno,
                link_block: 0,
                chksum: 0,
            };
            let b = FSBlock { fat, entries, footer };
            assert(b.wf()) by {
                assert forall|x: int| 0 <= x < b.fat@.len() implies entry_ok(#[trigger] b.fat@[x]) by {
                    assert(b.fat@[x] == self.entries@[base + x]);
                }
            }
            out.push(b);
            k = k + 1;
        }
        out
    }
}

/// The slot, counted from the end of the card, that the `k`th fragment of the
/// next generation goes to: the slots that follow the current first one.
pub open spec fn commit_slot(fat: Fat, k: int) -> int {
    (fat.spec_blkno() + 1 + k) % (NUM_FATS as int)
}

/// The NAND block that the `k`th fragment of the next generation goes to.
pub open spec fn commit_addr(fat: Fat, k: int) -> int {
    fat.spec_entries().len() - commit_slot(fat, k) - 1
}

/// The link stored in the `k`th fragment of the next generation.
pub open spec fn commit_link(fat: Fat, k: int) -> u16 {
    if k + 1 < fragment_count(fat.spec_entries().len()) { commit_addr(fat, k + 1) as u16 } else { 0 }
}

/// The bytes of the `k`th fragment of the next generation, before its
/// checksum is set.
pub open spec fn fragment_bytes(fat: Fat, k: int) -> Seq<u8> {
    fat_bytes(fragment_entries(fat.spec_entries(), k)) + (if k == 0 {
        entries_bytes(fat.spec_files())
    } else {
        Seq::new((NUM_FILE_ENTRIES * 20) as nat, |i: int| 0u8)
    }) + footer_bytes(fragment_footer(fat.spec_seqno().wrapping_add(1), k, commit_link(fat, k)))
}

proof fn lemma_blank_entries_bytes(s: Seq<FileEntry>)
    requires
        forall|j: int| 0 <= j < s.len() ==> is_blank(#[trigger] s[j]),
    ensures
        entries_bytes(s) == Seq::new(20 * s.len(), |i: int| 0u8),
    decreases s.len(),
{
    if s.len() > 0 {
        lemma_blank_entries_bytes(s.drop_last());
        let f = s.last();
        assert(is_blank(s[s.len() - 1]));
        assert(file_entry_bytes(f) =~= Seq::new(20, |i: int| 0u8));
        assert(entries_bytes(s) =~= Seq::new(20 * s.len(), |i: int| 0u8));
    }
}

impl Fat {
    /// Prepares the commit of this FAT as the next generation: every fragment,
    /// linked to the next and with its checksum set, with the NAND block it
    /// goes to. The FAT then stands for the new generation.
    pub fn update_fs(&mut self) -> (r: Vec<(u32, Vec<u8>)>)
        requires
            old(self).wf(),
        ensures
            final(self).wf(),
            final(self).spec_entries() == old(self).spec_entries(),
            final(self).spec_files() == old(self).spec_files(),
            final(self).spec_seqno() == old(self).spec_seqno().wrapping_add(1),
            final(self).spec_blkno() == commit_slot(*old(self), 0),
            final(self).spec_blkno() == (old(self).spec_blkno() + 1) % (NUM_FATS as int),
            old(self).names_ok() ==> final(self).names_ok(),
            r@.len() == fragment_count(old(self).spec_entries().len()),
            forall|k: int| 0 <= k < r@.len() ==> {
                let w = #[trigger] r@[k];
                &&& w.0 == commit_addr(*old(self), k)
                &&& w.0 != old(self).spec_entries().len() - old(self).spec_blkno() - 1
                &&& w.1@.len() == BLOCK_SIZE
                &&& checksum_ok(w.1@)
                &&& w.1@.take(BLOCK_SIZE - 2) == fragment_bytes(*old(self), k).take(BLOCK_SIZE - 2)
            },
    {
        let ghost before = *self;
        let mut blocks = self.blocks();
        let ghost all = blocks@;
        let count = blocks.len();
        let len = self.entries.len();
        let mut out: Vec<(u32, Vec<u8>)> = Vec::new();
        let mut k: usize = 0;
        proof {
            lemma_fragment_count_bound(*self);
        }
        assert(count <= 15);
        while k < count
            invariant
                self.wf(),
                same_fat(*self, before),
                len == self.entries@.len(),
                count == all.len(),
                blocks@ == all.skip(k as int),
                count == fragment_count(len as nat),
                count <= 15,
                k <= count,
                out@.len() == k,
                forall|m: int| 0 <= m < all.len() ==> {
                    let b = #[trigger] all[m];
                    &&& b.wf()
                    &&& b.fat@ == fragment_entries(self.spec_entries(), m)
                    &&& (m == 0 ==> b.entries@ == self.spec_files())
                    &&& (m != 0 ==> forall|j: int| 0 <= j < b.entries@.len() ==> is_blank(#[trigger] b.entries@[j]))
                    &&& b.footer == fragment_footer(self.spec_seqno().wrapping_add(1), m, 0)
                },
                forall|m: int| 0 <= m < k ==> {
                    let w = #[trigger] out@[m];
                    &&& w.0 == commit_addr(before, m)
                    &&& w.0 != before.spec_entries().len() - before.spec_blkno() - 1
                    &&& w.1@.len() == BLOCK_SIZE
                    &&& checksum_ok(w.1@)
                    &&& w.1@.take(BLOCK_SIZE - 2) == fragment_bytes(before, m).take(BLOCK_SIZE - 2)
                },
            decreases count - k,
        {
            let slot = (self.blkno as usize + 1 + k) % NUM_FATS as usize;
            let addr = (len - slot - 1) as u32;
            let link: u16 = if k + 1 < count {
                let next_slot = (self.blkno as usize + 2 + k) % NUM_FATS as usize;
                (len - next_slot - 1) as u16
            } else {
                0
            };
            let mut b = blocks.remove(0);
            assert(b == all[k as int]);
            assert(blocks@ =~= all.skip(k + 1));
            b.footer.link_block = link;
            let bytes = encode_fat_block(&b);
            proof {
                let kk = k as int;
                let ghost fb = fragment_bytes(before, kk);
                if kk != 0 {
                    lemma_blank_entries_bytes(b.entries@);
                    assert(entries_bytes(b.entries@) =~= Seq::new((NUM_FILE_ENTRIES * 20) as nat, |i: int| 0u8));
                }
                assert(b.footer == fragment_footer(before.spec_seqno().wrapping_add(1), kk, commit_link(before, kk)));
                assert(block_bytes(b) == fb);
            }
            out.push((addr, bytes));
            k = k + 1;
        }
        self.seqno = self.seqno.wrapping_add(1);
        self.blkno = ((self.blkno as usize + 1) % NUM_FATS as usize) as u32;
        out
    }
}

proof fn lemma_chain_follows(after: Seq<FATEntry>, l: Seq<u16>, j: int, m: nat)
    requires
        forall|k: int| 0 <= k < l.len() ==> (#[trigger] l[k]) < after.len(),
        forall|k: int| 0 <= k < l.len() - 1 ==> after[#[trigger] l[k] as int] == FATEntry::Chain(l[k + 1]),
        after[l.last() as int] == FATEntry::EndOfChain,
        0 <= j < l.len(),
        j + m <= l.len(),
    ensures
        chain_blocks(after, FATEntry::Chain(l[j]), m) == l.subrange(j, j + m),
    decreases m,
{
    if m > 0 {
        if j + 1 < l.len() {
            lemma_chain_follows(after, l, j + 1, (m - 1) as nat);
            assert(chain_blocks(after, FATEntry::Chain(l[j]), m) =~= l.subrange(j, j + m));
        } else {
            assert(m == 1);
            assert(chain_blocks(after, FATEntry::EndOfChain, 0) == Seq::<u16>::empty());
            assert(chain_blocks(after, FATEntry::Chain(l[j]), m) =~= l.subrange(j, j + m));
        }
    }
}

proof fn lemma_chunks_flatten(d: Seq<u8>, k: nat)
    requires
        k <= data_blocks(d.len()),
    ensures
        flatten(Seq::new(k, |i: int| data_chunk(d, i))) == crate::names::padded(
            d.take(if k * BLOCK_SIZE <= d.len() { (k * BLOCK_SIZE) as int } else { d.len() as int }),
            k * BLOCK_SIZE as nat,
        ),
    decreases k,
{
    let len = d.len() as int;
    if k == 0 {
        assert(flatten(Seq::new(0, |i: int| data_chunk(d, i))) =~= crate::names::padded(d.take(0), 0));
    } else {
        let kk = (k - 1) as nat;
        lemma_chunks_flatten(d, kk);
        let s = Seq::new(k, |i: int| data_chunk(d, i));
        assert(s.drop_last() =~= Seq::new(kk, |i: int| data_chunk(d, i)));
        let start = kk * BLOCK_SIZE;
        assert(start == kk * 16384);
        assert(start < len || len == 0) by {
            if len > 0 {
                vstd::arithmetic::div_mod::lemma_fundamental_div_mod(len + 16383, 16384);
                assert(kk + 1 <= (len + 16383) / 16384);
                assert((kk + 1) * 16384 <= len + 16383) by (nonlinear_arith)
                    requires kk + 1 <= (len + 16383) / 16384, 16384 * ((len + 16383) / 16384) <= len + 16383;
            }
        }
        assert(k * BLOCK_SIZE == start + 16384) by (nonlinear_arith)
            requires start == kk * 16384, k == kk + 1;
        let end = if start + 16384 <= len { start + 16384 } else { len };
        assert(flatten(s) =~= crate::names::padded(
            d.take(if k * BLOCK_SIZE <= d.len() { (k * BLOCK_SIZE) as int } else { d.len() as int }),
            k * BLOCK_SIZE as nat,
        ));
    }
}

/// A write followed by a read gives the data back: the chain that allocation
/// links is read back block for block, and the blocks written for `d`, read
/// in that order and cut to the file's length, are `d`.
pub proof fn lemma_write_then_read(before: Seq<FATEntry>, after: Seq<FATEntry>, l: Seq<u16>, d: Seq<u8>)
    requires
        before.len() <= 0x10000,
        greedy_alloc(before, l),
        linked(before, after, l),
        l.len() == data_blocks(d.len()),
    ensures
        chain_blocks(after, FATEntry::Chain(l[0]), blocks_for(d.len())) == l.take(blocks_for(d.len()) as int),
        assembled(Seq::new(blocks_for(d.len()), |k: int| data_chunk(d, k)), d.len()) == d,
{
    let n = blocks_for(d.len());
    assert(n <= l.len());
    assert forall|k: int| 0 <= k < l.len() implies (#[trigger] l[k]) < after.len() by {}
    lemma_chain_follows(after, l, 0, n);
    assert(l.subrange(0, n as int) =~= l.take(n as int));
    lemma_chunks_flatten(d, n);
    let len = d.len() as int;
    if len > 0 {
        vstd::arithmetic::div_mod::lemma_fundamental_div_mod(len + 16383, 16384);
        assert(n * 16384 >= len) by (nonlinear_arith)
            requires n == (len + 16383) / 16384, len + 16383 == 16384 * ((len + 16383) / 16384) + (len + 16383) % 16384,
                (len + 16383) % 16384 < 16384;
    }
    let f = flatten(Seq::new(n, |k: int| data_chunk(d, k)));
    assert(d.take(len) =~= d);
    assert(f.take(len) =~= d);
}

/// Where a commit writes: the new generation's fragments go to the FAT
/// slots that follow the current first fragment's, at the end of the card,
/// never to the current first fragment itself, and carry a higher sequence
/// number; so an interrupted commit leaves the current generation readable.
pub proof fn lemma_commit_slots(fat: Fat, k: int)
    requires
        fat.wf(),
        0 <= k < fragment_count(fat.spec_entries().len()),
    ensures
        commit_slot(fat, k) != fat.spec_blkno(),
        commit_addr(fat, k) != fat.spec_entries().len() - fat.spec_blkno() - 1,
        fat.spec_entries().len() - NUM_FATS <= commit_addr(fat, k) < fat.spec_entries().len(),
        fat.spec_seqno() < u32::MAX ==> fat.spec_seqno().wrapping_add(1) > fat.spec_seqno(),
{
    lemma_fragment_count_bound(fat);
}

proof fn lemma_fragment_count_bound(fat: Fat)
    requires
        fat.wf(),
    ensures
        1 <= fragment_count(fat.spec_entries().len()) <= 15,
        fat.spec_entries().len() >= 4096,
{
    let len = fat.spec_entries().len();
    assert(len / 4096 <= 15) by (nonlinear_arith)
        requires len <= 0xF000;
    assert(len >= 4096) by (nonlinear_arith)
        requires len > 0, len % 4096 == 0;
    assert(len / 4096 >= 1) by (nonlinear_arith)
        requires len >= 4096;
}

/// Whether `f` is a first fragment.
pub open spec fn is_first_fragment(f: Option<FSFooter>) -> bool {
    f is Some && f->Some_0.fs_type == FSType::Bbfs
}

/// Picks the FAT generation to load from the footers read from the FAT slots
/// (`None` where a slot did not read as a file-system block): the first
/// fragment with the highest sequence number, the later slot on a tie.
pub fn best_fat_slot(footers: &[Option<FSFooter>]) -> (r: Option<u32>)
    requires
        footers@.len() <= NUM_FATS,
    ensures
        r is None <==> forall|g: int| 0 <= g < footers@.len() ==> !is_first_fragment(#[trigger] footers@[g]),
        r is Some ==> {
            let f = r->Some_0 as int;
            &&& 0 <= f < footers@.len()
            &&& is_first_fragment(footers@[f])
            &&& forall|g: int| 0 <= g < footers@.len() && is_first_fragment(#[trigger] footers@[g]) ==> footers@[g]->Some_0.seqno <= footers@[f]->Some_0.seqno
            &&& forall|g: int| f < g < footers@.len() && is_first_fragment(#[trigger] footers@[g]) ==> footers@[g]->Some_0.seqno < footers@[f]->Some_0.seqno
        },
{
    let mut best: Option<u32> = None;
    let mut best_seqno: u32 = 0;
    let mut g: usize = 0;
    while g < footers.len()
        invariant
            g <= footers@.len() <= NUM_FATS,
            best is None ==> forall|h: int| 0 <= h < g ==> !is_first_fragment(#[trigger] footers@[h]),
            best is Some ==> {
                let f = best->Some_0 as int;
                &&& 0 <= f < g
                &&& is_first_fragment(footers@[f])
                &&& best_seqno == footers@[f]->Some_0.seqno
                &&& forall|h: int| 0 <= h < g && is_first_fragment(#[trigger] footers@[h]) ==> footers@[h]->Some_0.seqno <= best_seqno
                &&& forall|h: int| f < h < g && is_first_fragment(#[trigger] footers@[h]) ==> footers@[h]->Some_0.seqno < best_seqno
            },
        decreases footers@.len() - g,
    {
        match footers[g] {
            Some(f) => {
                if f.fs_type == FSType::Bbfs && (best.is_none() || f.seqno >= best_seqno) {
                    best = Some(g as u32);
                    best_seqno = f.seqno;
                }
            },
            None => {},
        }
        g = g + 1;
    }
    best
}

/// The NAND block of FAT slot `f` on a card of `cardsize` blocks: slots count
/// back from the last block.
pub fn fat_slot_block(cardsize: u32, f: u32) -> (r: u32)
    requires
        f < NUM_FATS,
        cardsize >= NUM_FATS,
    ensures
        r == cardsize - f - 1,
{
    cardsize - f - 1
}

/// Checks the sizes of a whole-card image against the card: `num_blocks`
/// blocks of data, and as many spare areas where spare data is given.
pub fn check_nand_sizes(nand_len: usize, spare_len: Option<usize>, num_blocks: u32) -> (r: Result<(), LibBBRDBError>)
    ensures
        nand_len != num_blocks * BLOCK_SIZE ==> r == Err::<(), _>(
            LibBBRDBError::InvalidNANDSize(nand_len, (num_blocks * BLOCK_SIZE) as usize),
        ),
        nand_len == num_blocks * BLOCK_SIZE && spare_len is Some && spare_len->Some_0 != num_blocks * crate::constants::SPARE_SIZE ==> r == Err::<(), _>(
            LibBBRDBError::InvalidSpareSize(spare_len->Some_0, (num_blocks * crate::constants::SPARE_SIZE) as usize),
        ),
        nand_len == num_blocks * BLOCK_SIZE && (spare_len is None || spare_len->Some_0 == num_blocks * crate::constants::SPARE_SIZE) ==> r == Ok::<(), LibBBRDBError>(()),
{
    let want: u64 = num_blocks as u64 * BLOCK_SIZE as u64;
    if nand_len as u64 != want {
        return Err(LibBBRDBError::InvalidNANDSize(nand_len, want as usize));
    }
    match spare_len {
        Some(s) => {
            let want_spare: u64 = num_blocks as u64 * crate::constants::SPARE_SIZE as u64;
            if s as u64 != want_spare {
                return Err(LibBBRDBError::InvalidSpareSize(s, want_spare as usize));
            }
        },
        None => {},
    }
    Ok(())
}

/// Whether an entry's stored name is a lower-case 8.3 name: a base of one to
/// eight bytes and an extension of up to three, lower-case ASCII without `.`.
pub open spec fn entry_name_ok(f: FileEntry) -> bool {
    let b = until_nul(f.name@);
    let e = until_nul(f.ext@);
    &&& b.len() >= 1
    &&& crate::names::stored_part_ok(b, 8)
    &&& crate::names::stored_part_ok(e, 3)
}

/// Storing a name gives an entry whose stored name is a lower-case 8.3 name.
pub proof fn lemma_set_name_ok(f: FileEntry, name: Seq<u8>)
    requires
        name_ok(name),
        stores_name(f, canonical_parts(name).0, canonical_parts(name).1),
    ensures
        entry_name_ok(f),
        until_nul(f.name@) == canonical_parts(name).0,
        until_nul(f.ext@) == canonical_parts(name).1,
{
    reveal(name_ok);
    reveal(canonical_parts);
    let b = crate::names::name_parts(name).0;
    let e = crate::names::name_parts(name).1;
    if !crate::names::no_dot(name) {
        let q = choose|q: int| !(0 <= q < name.len() ==> name[q] != DOT);
        crate::names::lemma_first_dot_exists(name, q);
        let p = choose|p: int| crate::names::is_first_dot(name, p);
        assert(b == name.take(p));
        assert(e == name.skip(p + 1));
        assert forall|j: int| 0 <= j < b.len() implies 0 < #[trigger] b[j] < 128 by {
            assert(b[j] == name[j]);
        }
        assert forall|j: int| 0 <= j < e.len() implies 0 < #[trigger] e[j] < 128 by {
            assert(e[j] == name[p + 1 + j]);
        }
        assert(crate::names::no_dot(b));
    } else {
        assert(b == name);
        assert(e =~= Seq::<u8>::empty());
    }
    crate::names::lemma_lower_part_ok(b, 8);
    crate::names::lemma_lower_part_ok(e, 3);
    crate::names::lemma_until_nul_padded(lower_seq(b), 8);
    crate::names::lemma_until_nul_padded(lower_seq(e), 3);
}

/// Every name listed for a directory whose stored names are lower-case 8.3
/// names is a lower-case 8.3 name.
pub proof fn lemma_listed_names(files: Seq<FileEntry>)
    requires
        forall|i: int| 0 <= i < files.len() && (#[trigger] files[i]).valid == FileValid::Valid ==> entry_name_ok(files[i]),
    ensures
        forall|k: int| 0 <= k < listing(files).len() ==> crate::names::listed_name_ok(#[trigger] listing(files)[k].0)
            && is_ascii_bytes(listing(files)[k].0),
    decreases files.len(),
{
    if files.len() > 0 {
        let rest = files.drop_last();
        assert forall|i: int| 0 <= i < rest.len() && (#[trigger] rest[i]).valid == FileValid::Valid implies entry_name_ok(rest[i]) by {
            assert(rest[i] == files[i]);
        }
        lemma_listed_names(rest);
        let f = files.last();
        if f.valid == FileValid::Valid {
            assert(files[files.len() - 1] == f);
            lemma_display_name_ok(f);
        }
        assert forall|k: int| 0 <= k < listing(files).len() implies crate::names::listed_name_ok(#[trigger] listing(files)[k].0)
            && is_ascii_bytes(listing(files)[k].0) by {
            if k < listing(rest).len() {
                assert(listing(files)[k] == listing(rest)[k]);
            }
        }
    }
}

proof fn lemma_display_name_ok(f: FileEntry)
    requires
        entry_name_ok(f),
    ensures
        crate::names::listed_name_ok(display_name(f)),
        is_ascii_bytes(display_name(f)),
{
    let b = until_nul(f.name@);
    let e = until_nul(f.ext@);
    let s = display_name(f);
    let bl = b.len() as int;
    assert(crate::names::stored_part_ok(b, 8));
    assert(crate::names::stored_part_ok(e, 3));
    assert(s.take(bl) =~= b);
    if e.len() > 0 {
        assert(s.skip(bl + 1) =~= e);
        assert(s[bl] == DOT);
    } else {
        assert(s =~= b);
    }
    assert forall|j: int| 0 <= j < s.len() implies 0 < #[trigger] s[j] < 128 && !(65 <= s[j] <= 90) by {
        if j < bl {
            assert(s[j] == b[j]);
            assert(0 < b[j] < 128 && b[j] != DOT && !(65 <= b[j] <= 90));
        } else if j > bl {
            assert(s[j] == e[j - bl - 1]);
            assert(0 < e[j - bl - 1] < 128 && e[j - bl - 1] != DOT && !(65 <= e[j - bl - 1] <= 90));
        }
    }
    assert(crate::names::no_dot(s.take(bl)));
    assert(e.len() > 0 ==> crate::names::no_dot(s.skip(bl + 1)));
    assert(1 <= bl <= 8 && bl <= s.len());
    assert(bl == s.len() || (s[bl] == DOT && s.len() - bl - 1 <= 3 && crate::names::no_dot(s.skip(bl + 1))));
    assert(forall|j: int| 0 <= j < s.len() ==> 0 < #[trigger] s[j] < 128 && !(65 <= s[j] <= 90));
}

proof fn lemma_sound_chain_not_free(entries: Seq<FATEntry>, e: FATEntry, fuel: nat, n: nat, j: int)
    requires
        ends_within(entries, e, fuel),
        0 <= j < chain_blocks(entries, e, n).len(),
    ensures
        entries[chain_blocks(entries, e, n)[j] as int] != FATEntry::Free,
    decreases n,
{
    if let FATEntry::Chain(b) = e {
        let next = entries[b as int];
        if fuel > 0 && n > 0 {
            assert(ends_within(entries, next, (fuel - 1) as nat));
            if j > 0 {
                assert(chain_blocks(entries, e, n)[j] == chain_blocks(entries, next, (n - 1) as nat)[j - 1]);
                lemma_sound_chain_not_free(entries, next, (fuel - 1) as nat, (n - 1) as nat, j - 1);
            } else {
                assert(next != FATEntry::Free) by {
                    if next == FATEntry::Free {
                        assert(!ends_within(entries, next, (fuel - 1) as nat));
                    }
                }
            }
        }
    }
}

/// Allocation leaves the files there untouched: no block it picks lies on
/// the sound chain of a file.
pub proof fn lemma_alloc_avoids_files(entries: Seq<FATEntry>, l: Seq<u16>, start: FATEntry, k: int, j: int)
    requires
        greedy_alloc(entries, l),
        chain_ok(entries, start),
        0 <= k < l.len(),
        0 <= j < chain_blocks(entries, start, entries.len()).len(),
    ensures
        l[k] != chain_blocks(entries, start, entries.len())[j],
{
    lemma_sound_chain_not_free(entries, start, entries.len(), entries.len(), j);
}

impl Fat {
    /// Finishes a write once the card has checked the temporary file: where
    /// its checksum matched, the temporary file takes the name `filename`;
    /// where it did not, nothing changes and the write fails.
    pub fn check_and_cleanup_temp_file(&mut self, filename: &[u8], chksum: u32, matched: bool) -> (r: Result<
        bool,
        LibBBRDBError,
    >)
        requires
            old(self).wf(),
        ensures
            final(self).wf(),
            old(self).names_ok() ==> final(self).names_ok(),
            !matched ==> r is Err && r->Err_0 is ChecksumFailed && r->Err_0->ChecksumFailed_1 == chksum,
            r is Err || r == Ok::<bool, LibBBRDBError>(false) ==> *final(self) == *old(self),
            matched && lower_seq(temp_name()) != lower_seq(filename@) && name_ok(filename@) && lookup(
                old(self).spec_files(),
                temp_name(),
            ) is Some ==> r is Ok,
            matched && lookup(old(self).spec_files(), temp_name()) is None && lower_seq(temp_name()) != lower_seq(filename@)
                ==> r is Err,
            matched && lower_seq(temp_name()) != lower_seq(filename@) && name_ok(filename@) && lookup(
                old(self).spec_files(),
                temp_name(),
            ) is Some ==> r == Ok::<bool, LibBBRDBError>(true),
            r == Ok::<bool, LibBBRDBError>(true) ==> renamed_from(
                *old(self),
                *final(self),
                lookup(old(self).spec_files(), temp_name())->Some_0,
                filename@,
            ),
    {
        proof {
            lemma_lookup_some(self.files@, temp_name());
            if lookup(self.files@, temp_name()) is Some {
                let t = lookup(self.files@, temp_name())->Some_0;
                if answers_to(self.files@[t], filename@) {
                    lemma_temp_answers(self.files@[t], filename@);
                }
            }
        }
        if !matched {
            return Err(LibBBRDBError::ChecksumFailed(crate::names::lossy_string(filename), chksum));
        }
        let temp = temp_file_name();
        self.rename_file(temp.as_slice(), filename)
    }
}

proof fn lemma_delete_names(a: Fat, b: Fat, name: Seq<u8>)
    requires
        deleted_from(a, b, name),
    ensures
        a.names_ok() ==> b.names_ok(),
{
    lemma_lookup_some(a.spec_files(), name);
    if a.names_ok() {
        if lookup(a.spec_files(), name) is Some {
            let i = lookup(a.spec_files(), name)->Some_0;
            assert forall|k: int|
                0 <= k < b.spec_files().len() && (#[trigger] b.spec_files()[k]).valid == FileValid::Valid implies entry_name_ok(
                b.spec_files()[k],
            ) by {
                if k != i {
                    assert(b.spec_files()[k] == a.spec_files()[k]);
                }
            }
        }
    }
}

proof fn lemma_rename_names(a: Fat, b: Fat, i: int, to: Seq<u8>)
    requires
        renamed_from(a, b, i, to),
        name_ok(to),
    ensures
        entry_name_ok(b.spec_files()[i]),
        a.names_ok() ==> b.names_ok(),
{
    lemma_set_name_ok(b.spec_files()[i], to);
    lemma_lookup_some(a.spec_files(), to);
    if a.names_ok() {
        assert forall|k: int|
            0 <= k < b.spec_files().len() && (#[trigger] b.spec_files()[k]).valid == FileValid::Valid implies entry_name_ok(
            b.spec_files()[k],
        ) by {
            if k != i {
                if lookup(a.spec_files(), to) is Some {
                    let j = lookup(a.spec_files(), to)->Some_0;
                    if k != j {
                        assert(b.spec_files()[k] == a.spec_files()[k]);
                    }
                } else {
                    assert(b.spec_files()[k] == a.spec_files()[k]);
                }
            }
        }
    }
}

proof fn lemma_temp_names(a: Fat, b: Fat, size: nat, r: Result<Vec<u16>, LibBBRDBError>)
    requires
        temp_created(a, b, size, r),
    ensures
        a.names_ok() ==> b.names_ok(),
{
    if a.names_ok() && r is Ok {
        let fa = a.spec_files();
        let fb = b.spec_files();
        let i = choose|i: int| {
            &&& first_blank_slot(fa, i)
            &&& fb[i].valid == FileValid::Valid
            &&& fb[i].start == FATEntry::Chain(r->Ok_0@[0])
            &&& stores_name(fb[i], temp_name().take(4), temp_name().skip(5))
            &&& entry_name_ok(fb[i])
            &&& fb[i].size == crate::fs::block_round_up(size)
            &&& fb[i].size - fb[i].pad == size
            &&& forall|k: int| 0 <= k < fa.len() && k != i ==> fb[k] == fa[k]
        };
        assert forall|k: int| 0 <= k < fb.len() && (#[trigger] fb[k]).valid == FileValid::Valid implies entry_name_ok(fb[k]) by {
            if k != i {
                assert(fb[k] == fa[k]);
            }
        }
    }
}

/// A chain that allocation links is sound: it reaches its end through its
/// own blocks, one link per block.
proof fn lemma_linked_chain(before: Seq<FATEntry>, after: Seq<FATEntry>, l: Seq<u16>, j: int, fuel: nat)
    requires
        greedy_alloc(before, l),
        linked(before, after, l),
        0 <= j < l.len(),
        fuel >= l.len() - j,
    ensures
        ends_within(after, FATEntry::Chain(l[j]), fuel),
    decreases l.len() - j,
{
    assert(l[j] < after.len());
    if j + 1 < l.len() {
        lemma_linked_chain(before, after, l, j + 1, (fuel - 1) as nat);
        assert(after[l[j] as int] == FATEntry::Chain(l[j + 1]));
    } else {
        assert(after[l[j] as int] == FATEntry::EndOfChain);
        assert(ends_within(after, FATEntry::EndOfChain, (fuel - 1) as nat));
    }
}

/// A slot that answers to a name makes the lookup find one.
pub proof fn lemma_lookup_exists(files: Seq<FileEntry>, name: Seq<u8>, k: int)
    requires
        0 <= k < files.len(),
        answers_to(files[k], name),
    ensures
        lookup(files, name) is Some,
    decreases k,
{
    if forall|j: int| 0 <= j < k ==> !answers_to(#[trigger] files[j], name) {
        lemma_lookup_first(files, name, k);
    } else {
        let j = choose|j: int| 0 <= j < k && answers_to(#[trigger] files[j], name);
        lemma_lookup_exists(files, name, j);
    }
}

/// Writing `d` under a fresh name and reading it back gives `d`: after the
/// temporary file is created for `d` and renamed to `name`, the lookup of
/// `name` finds a file of `d`'s length whose chain is the blocks the data was
/// written to, and those blocks, read in order and cut to that length, are `d`.
pub proof fn lemma_write_rename_read(
    a: Fat,
    m: Fat,
    b: Fat,
    c: Fat,
    l: Vec<u16>,
    d: Seq<u8>,
    name: Seq<u8>,
)
    requires
        a.wf(),
        unique_names(a.spec_files()),
        name_ok(name),
        deleted_from(a, m, temp_name()),
        temp_created(m, b, d.len(), Ok(l)),
        lookup(b.spec_files(), name) is None,
        lookup(b.spec_files(), temp_name()) is Some,
        renamed_from(b, c, lookup(b.spec_files(), temp_name())->Some_0, name),
    ensures
        lookup(c.spec_files(), name) is Some,
        ({
            let f = c.spec_files()[lookup(c.spec_files(), name)->Some_0];
            &&& logical_size(f) == d.len()
            &&& chain_blocks(c.spec_entries(), f.start, blocks_for(d.len())) == l@.take(
                blocks_for(d.len()) as int,
            )
            &&& assembled(Seq::new(blocks_for(d.len()), |k: int| data_chunk(d, k)), d.len()) == d
        }),
{
    let fm = m.spec_files();
    let fb = b.spec_files();
    let fc = c.spec_files();
    let i = choose|i: int| {
        &&& first_blank_slot(fm, i)
        &&& fb[i].valid == FileValid::Valid
        &&& fb[i].start == FATEntry::Chain(l@[0])
        &&& stores_name(fb[i], temp_name().take(4), temp_name().skip(5))
        &&& entry_name_ok(fb[i])
        &&& fb[i].size == crate::fs::block_round_up(d.len())
        &&& fb[i].size - fb[i].pad == d.len()
        &&& forall|k: int| 0 <= k < fm.len() && k != i ==> fb[k] == fm[k]
    };
    lemma_none_after_delete(a, m, temp_name());
    lemma_lookup_some(fb, temp_name());
    let t = lookup(fb, temp_name())->Some_0;
    if t != i {
        assert(fb[t] == fm[t]);
        lemma_lookup_exists(fm, temp_name(), t);
    }
    assert(t == i);
    assert(c.spec_entries() == b.spec_entries());
    assert(answers_to(fc[i], name));
    assert forall|k: int| 0 <= k < i implies !answers_to(#[trigger] fc[k], name) by {
        if answers_to(fc[k], name) {
            assert(fc[k] == fb[k]);
            lemma_lookup_exists(fb, name, k);
        }
    }
    lemma_lookup_first(fc, name, i);
    assert(fc[i].pad <= fc[i].size);
    if lookup(a.spec_files(), temp_name()) is Some {
        let j = lookup(a.spec_files(), temp_name())->Some_0;
        lemma_free_chain_wf(a.spec_entries(), a.spec_files()[j].start, a.spec_entries().len());
    }
    lemma_write_then_read(m.spec_entries(), b.spec_entries(), l@, d);
}

/// The temporary file answers to no name that differs from `temp.tmp` in
/// lower case.
proof fn lemma_temp_answers(f: FileEntry, name: Seq<u8>)
    requires
        answers_to(f, temp_name()),
        answers_to(f, name),
    ensures
        lower_seq(name) == lower_seq(temp_name()),
{
    crate::names::lemma_temp_name_ok();
    lemma_set_name_ok(f, temp_name());
    lemma_set_name_ok(f, name);
    assert(canonical_parts(name).1 == temp_name().skip(5));
    crate::names::lemma_parts_join(name);
    assert(lower_seq(temp_name()) =~= temp_name());
    assert(temp_name() =~= temp_name().take(4) + seq![DOT] + temp_name().skip(5));
}

/// The `i`th piece of `unit` bytes of a whole-card image (a block's data or
/// its spare area); `None` where the image ends before it.
pub fn image_block(image: &[u8], i: usize, unit: usize) -> (r: Option<Vec<u8>>)
    requires
        unit > 0,
    ensures
        r is Some <==> (i + 1) * unit <= image@.len(),
        r is Some ==> r->Some_0@ == image@.subrange(i * unit, (i + 1) * unit),
{
    let len = image.len();
    let q = len / unit;
    proof {
        vstd::arithmetic::div_mod::lemma_fundamental_div_mod(len as int, unit as int);
        let qi = q as int;
        let ui = unit as int;
        let ii = i as int;
        let li = len as int;
        assert((ii + 1) * ui <= li <==> ii < qi) by (nonlinear_arith)
            requires li == ui * qi + li % ui, 0 <= li % ui < ui, ui > 0, qi >= 0, ii >= 0;
        assert(ii < qi ==> (ii + 1) * ui <= ui * qi) by (nonlinear_arith)
            requires ui > 0, ii >= 0;
        assert(ii * ui + ui == (ii + 1) * ui) by (nonlinear_arith);
    }
    if i >= q {
        return None;
    }
    let start = i * unit;
    let end = start + unit;
    Some(crate::rdb::slice_to_vec(&image[start..end]))
}

fn part_ok(s: &Vec<u8>, max: usize) -> (r: bool)
    ensures
        r == crate::names::stored_part_ok(s@, max as nat),
{
    if s.len() > max {
        return false;
    }
    let mut i: usize = 0;
    while i < s.len()
        invariant
            i <= s@.len(),
            forall|j: int| 0 <= j < i ==> 0 < #[trigger] s@[j] < 128 && s@[j] != DOT && !(65 <= s@[j] <= 90),
        decreases s@.len() - i,
    {
        let b = s[i];
        if !(0 < b && b < 128 && b != DOT && !(65 <= b && b <= 90)) {
            return false;
        }
        i = i + 1;
    }
    true
}

impl FileEntry {
    /// Whether the stored name is a lower-case 8.3 name.
    pub fn name_is_ok(&self) -> (r: bool)
        ensures
            r == entry_name_ok(*self),
    {
        let b = crate::names::copy_until_nul(self.name.as_slice());
        let e = crate::names::copy_until_nul(self.ext.as_slice());
        b.len() >= 1 && part_ok(&b, 8) && part_ok(&e, 3)
    }
}

impl Fat {
    /// Whether every file in use stores a lower-case 8.3 name, as files
    /// written by this library do; a FAT read from a card may hold others.
    pub fn names_are_ok(&self) -> (r: bool)
        ensures
            r == self.names_ok(),
    {
        let mut i: usize = 0;
        while i < self.files.len()
            invariant
                i <= self.files@.len(),
                forall|k: int|
                    0 <= k < i && (#[trigger] self.files@[k]).valid == FileValid::Valid ==> entry_name_ok(self.files@[k]),
            decreases self.files@.len() - i,
        {
            if self.files[i].valid() && !self.files[i].name_is_ok() {
                return false;
            }
            i = i + 1;
        }
        true
    }
}

} // verus!
