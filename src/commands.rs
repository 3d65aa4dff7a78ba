//! The command layer: a command is a big-endian id and argument sent as host
//! data; the device answers with the complement of the id and a number of
//! big-endian status words.
use vstd::prelude::*;

use crate::constants::{BLOCK_SIZE, CARD_SIZE_UNIT, MAX_CARD_SIZE, SPARE_SIZE, STATUS_OFFSET};
use crate::error::{card_error_of, CardError, LibBBRDBError};

verus! {

/// Commands understood by the console's debug monitor.
#[derive(Debug, Clone, Copy, PartialEq, Eq, Structural)]
pub enum Command {
    Ping,
    PowerOff,
    WriteBlock,
    ReadBlock,
    ReadDir,
    WriteFile,
    ReadFile,
    DeleteFile,
    ScanBlocks,
    RenameFile,
    WriteBlockAndSpare,
    ReadBlockAndSpare,
    InitFS,
    SumFile,
    FreeBlocks,
    GetNumBlocks,
    SetSeqNo,
    GetSeqNo,
    StatFile,
    ReadFileBlock,
    WriteFileBlock,
    CreateFile,
    ChksumFile,
    SetLED,
    SetTime,
    GetBBID,
    SignHash,
}

/// The numeric id of each command.
pub open spec fn command_id(c: Command) -> u32 {
    match c {
        Command::Ping => 0x01,
        Command::PowerOff => 0x02,
        Command::WriteBlock => 0x06,
        Command::ReadBlock => 0x07,
        Command::ReadDir => 0x08,
        Command::WriteFile => 0x09,
        Command::ReadFile => 0x0A,
        Command::DeleteFile => 0x0B,
        Command::ScanBlocks => 0x0D,
        Command::RenameFile => 0x0F,
        Command::WriteBlockAndSpare => 0x10,
        Command::ReadBlockAndSpare => 0x11,
        Command::InitFS => 0x12,
        Command::SumFile => 0x13,
        Command::FreeBlocks => 0x14,
        Command::GetNumBlocks => 0x15,
        Command::SetSeqNo => 0x16,
        Command::GetSeqNo => 0x17,
        Command::StatFile => 0x18,
        Command::ReadFileBlock => 0x19,
        Command::WriteFileBlock => 0x1A,
        Command::CreateFile => 0x1B,
        Command::ChksumFile => 0x1C,
        Command::SetLED => 0x1D,
        Command::SetTime => 0x1E,
        Command::GetBBID => 0x1F,
        Command::SignHash => 0x20,
    }
}

/// The four big-endian bytes of `v`.
pub open spec fn be32(v: u32) -> Seq<u8> {
    seq![(v / 0x1000000) as u8, (v / 0x10000 % 256) as u8, (v / 0x100 % 256) as u8, (v % 256) as u8]
}

/// The number that four big-endian bytes spell.
pub open spec fn be32_value(s: Seq<u8>) -> u32 {
    (s[0] * 0x1000000 + s[1] * 0x10000 + s[2] * 0x100 + s[3]) as u32
}

/// Writes `v` as four big-endian bytes.
pub fn be32_bytes(v: u32) -> (r: Vec<u8>)
    ensures
        r@ == be32(v),
{
    vec![(v / 0x1000000) as u8, (v / 0x10000 % 256) as u8, (v / 0x100 % 256) as u8, (v % 256) as u8]
}

impl Command {
    /// The numeric id of this command.
    pub fn id(self) -> (r: u32)
        ensures
            r == command_id(self),
    {
        match self {
            Command::Ping => 0x01,
            Command::PowerOff => 0x02,
            Command::WriteBlock => 0x06,
            Command::ReadBlock => 0x07,
            Command::ReadDir => 0x08,
            Command::WriteFile => 0x09,
            Command::ReadFile => 0x0A,
            Command::DeleteFile => 0x0B,
            Command::ScanBlocks => 0x0D,
            Command::RenameFile => 0x0F,
            Command::WriteBlockAndSpare => 0x10,
            Command::ReadBlockAndSpare => 0x11,
            Command::InitFS => 0x12,
            Command::SumFile => 0x13,
            Command::FreeBlocks => 0x14,
            Command::GetNumBlocks => 0x15,
            Command::SetSeqNo => 0x16,
            Command::GetSeqNo => 0x17,
            Command::StatFile => 0x18,
            Command::ReadFileBlock => 0x19,
            Command::WriteFileBlock => 0x1A,
            Command::CreateFile => 0x1B,
            Command::ChksumFile => 0x1C,
            Command::SetLED => 0x1D,
            Command::SetTime => 0x1E,
            Command::GetBBID => 0x1F,
            Command::SignHash => 0x20,
        }
    }

    /// The host data that issues this command with `args`.
    pub fn payload<T: CommandArgs>(self, args: T) -> (r: Vec<u8>)
        ensures
            r@ == be32(command_id(self)) + args.encoding(),
    {
        let mut data = be32_bytes(self.id());
        let mut a = args.encode();
        data.append(&mut a);
        data
    }

    /// The first word of a good reply to this command.
    pub fn echo(self) -> (r: u32)
        ensures
            r == 0xFFFF_FFFF - command_id(self),
    {
        0xFFFF_FFFFu32 - self.id()
    }
}

/// What can stand as the argument of a command.
pub trait CommandArgs: Sized {
    /// The bytes that follow the command id.
    spec fn encoding(&self) -> Seq<u8>;

    /// Writes the argument out.
    fn encode(self) -> (r: Vec<u8>)
        ensures
            r@ == self.encoding(),
    ;
}

impl CommandArgs for u32 {
    open spec fn encoding(&self) -> Seq<u8> {
        be32(*self)
    }

    fn encode(self) -> (r: Vec<u8>) {
        be32_bytes(self)
    }
}

impl CommandArgs for Vec<u8> {
    open spec fn encoding(&self) -> Seq<u8> {
        self@
    }

    fn encode(self) -> (r: Vec<u8>) {
        self
    }
}

impl<'a> CommandArgs for &'a [u8] {
    open spec fn encoding(&self) -> Seq<u8> {
        (**self)@
    }

    fn encode(self) -> (r: Vec<u8>) {
        let mut v: Vec<u8> = Vec::new();
        let mut i: usize = 0;
        while i < self.len()
            invariant
                i <= self@.len(),
                v@ == self@.take(i as int),
            decreases self@.len() - i,
        {
            v.push(self[i]);
            i = i + 1;
            assert(self@.take(i as int) =~= self@.take(i - 1).push(self@[i - 1]));
        }
        assert(self@.take(i as int) =~= self@);
        v
    }
}

/// The big-endian words of `d`; a trailing partial word is dropped.
pub open spec fn words_of(d: Seq<u8>) -> Seq<u32>
    decreases d.len(),
{
    if d.len() < 4 {
        seq![]
    } else {
        seq![be32_value(d)] + words_of(d.skip(4))
    }
}

/// Reads a reply as big-endian words.
pub fn get_response(data: &[u8]) -> (r: Vec<u32>)
    ensures
        r@ == words_of(data@),
{
    let mut rv: Vec<u32> = Vec::new();
    let mut i: usize = 0;
    assert(data@.skip(0) =~= data@);
    assert(rv@ + words_of(data@) =~= words_of(data@));
    while data.len() - i >= 4
        invariant
            i <= data@.len(),
            rv@ + words_of(data@.skip(i as int)) == words_of(data@),
        decreases data@.len() - i,
    {
        let ghost rest = data@.skip(i as int);
        let w: u32 = data[i] as u32 * 0x1000000 + data[i + 1] as u32 * 0x10000 + data[i + 2] as u32
            * 0x100 + data[i + 3] as u32;
        let ghost before = rv@;
        rv.push(w);
        proof {
            assert(rest.skip(4) =~= data@.skip(i + 4));
            assert(rv@ + words_of(data@.skip(i + 4)) =~= before + words_of(rest));
        }
        i = i + 4;
    }
    assert(data@.skip(i as int).len() < 4);
    assert(rv@ + words_of(data@.skip(i as int)) =~= rv@);
    rv
}

/// Checks the complement echo that starts every reply and hands back the
/// status words after it.
pub fn check_cmd_response(command: Command, words: &[u32]) -> (r: Result<Vec<u32>, LibBBRDBError>)
    ensures
        r is Ok <==> (words@.len() > 0 && words@[0] == 0xFFFF_FFFF - command_id(command)),
        r is Ok ==> r->Ok_0@ == words@.skip(1),
        r is Err ==> r->Err_0 == LibBBRDBError::IncorrectCmdResponse(
            if words@.len() > 0 { words@[0] } else { 0 },
            (0xFFFF_FFFF - command_id(command)) as u32,
        ),
{
    let expected = command.echo();
    let c: u32 = if words.len() > 0 { words[0] } else { 0 };
    if words.len() == 0 || c != expected {
        return Err(LibBBRDBError::IncorrectCmdResponse(c, expected));
    }
    let mut rv: Vec<u32> = Vec::new();
    let mut i: usize = 1;
    while i < words.len()
        invariant
            1 <= i <= words@.len(),
            rv@ == words@.subrange(1, i as int),
        decreases words@.len() - i,
    {
        rv.push(words[i]);
        i = i + 1;
        assert(words@.subrange(1, i as int) =~= words@.subrange(1, i - 1).push(words@[i - 1]));
    }
    assert(words@.subrange(1, i as int) =~= words@.skip(1));
    Ok(rv)
}

/// The outcome of a status word: zero is success, anything else a card error.
pub open spec fn status_result(status: u32) -> Result<(), LibBBRDBError> {
    if status == 0 {
        Ok(())
    } else {
        Err(LibBBRDBError::CardError(card_error_of(status as i32)))
    }
}

/// Maps a status word to the outcome of an operation.
pub fn check_status(status: u32) -> (r: Result<(), LibBBRDBError>)
    ensures
        r == status_result(status),
{
    if status == 0 {
        Ok(())
    } else {
        Err(LibBBRDBError::CardError(CardError::from_u32(status)))
    }
}

/// The number of set bits of `x`.
pub open spec fn ones(x: nat) -> nat
    decreases x,
{
    if x == 0 { 0 } else { x % 2 + ones(x / 2) }
}

/// The number of zero bits of a byte.
pub open spec fn zero_bits(b: u8) -> nat {
    ones((255 - b) as nat)
}

/// Counts the zero bits of a byte.
pub fn count_zero_bits(b: u8) -> (r: u32)
    ensures
        r as nat == zero_bits(b),
        r <= 8,
{
    let mut x: u8 = 255 - b;
    let mut c: u32 = 0;
    let mut steps: u32 = 0;
    assert(x < pow2_u8(8)) by {
        reveal_with_fuel(pow2_u8, 9);
    }
    while x > 0
        invariant
            c as nat + ones(x as nat) == zero_bits(b),
            c <= steps,
            steps <= 8,
            x < pow2_u8(8 - steps),
        decreases x,
    {
        assert(steps < 8) by {
            reveal_with_fuel(pow2_u8, 9);
        }
        c = c + (x % 2) as u32;
        x = x / 2;
        steps = steps + 1;
        assert(x < pow2_u8(8 - steps)) by {
            reveal_with_fuel(pow2_u8, 9);
        }
    }
    c
}

/// `2` to the power `n`, for the bit count above.
pub open spec fn pow2_u8(n: int) -> nat
    decreases n,
{
    if n <= 0 { 1 } else { 2 * pow2_u8(n - 1) }
}

/// Decodes the reply to a block read: the status word, the block and its
/// spare area.
pub fn check_block_read(status: u32, nand: Vec<u8>, spare: Vec<u8>) -> (r: Result<(Vec<u8>, Vec<u8>), LibBBRDBError>)
    ensures
        spare@.len() != SPARE_SIZE ==> r == Err::<(Vec<u8>, Vec<u8>), _>(
            LibBBRDBError::InvalidSpareSize(spare@.len() as usize, SPARE_SIZE),
        ),
        spare@.len() == SPARE_SIZE && zero_bits(spare@[STATUS_OFFSET as int]) > 1 ==> r == Err::<(Vec<u8>, Vec<u8>), _>(
            LibBBRDBError::CardError(CardError::BadBlock(nand, spare)),
        ),
        spare@.len() == SPARE_SIZE && zero_bits(spare@[STATUS_OFFSET as int]) <= 1 && status != 0 ==> r == Err::<(Vec<u8>, Vec<u8>), _>(
            LibBBRDBError::CardError(card_error_of(status as i32)),
        ),
        spare@.len() == SPARE_SIZE && zero_bits(spare@[STATUS_OFFSET as int]) <= 1 && status == 0 ==> r == Ok::<_, LibBBRDBError>((nand, spare)),
{
    if spare.len() != SPARE_SIZE {
        return Err(LibBBRDBError::InvalidSpareSize(spare.len(), SPARE_SIZE));
    }
    if count_zero_bits(spare[STATUS_OFFSET]) > 1 {
        return Err(LibBBRDBError::CardError(CardError::BadBlock(nand, spare)));
    }
    if status != 0 {
        return Err(LibBBRDBError::CardError(CardError::from_u32(status)));
    }
    Ok((nand, spare))
}

/// The size of a card: a positive multiple of 4096 blocks, with at most
/// fifteen FAT fragments so that two FAT generations fit in the FAT slots.
pub open spec fn valid_card_size(n: u32) -> bool {
    n > 0 && n % CARD_SIZE_UNIT == 0 && n <= MAX_CARD_SIZE
}

/// Checks the block count that the card reports.
pub fn check_card_size(n: u32) -> (r: Result<u32, LibBBRDBError>)
    ensures
        r is Ok <==> valid_card_size(n),
        r is Ok ==> r->Ok_0 == n,
        r is Err ==> r->Err_0 == LibBBRDBError::UnhandledCardSize,
{
    if n > 0 && n % CARD_SIZE_UNIT == 0 && n <= MAX_CARD_SIZE {
        Ok(n)
    } else {
        Err(LibBBRDBError::UnhandledCardSize)
    }
}

/// Decodes the reply to the block-count query: a negative word is a card error.
pub fn num_blocks_result(resp: u32) -> (r: Result<u32, LibBBRDBError>)
    ensures
        (resp as i32) < 0 ==> r == Err::<u32, _>(LibBBRDBError::CardError(card_error_of(resp as i32))),
        (resp as i32) >= 0 ==> r == Ok::<u32, LibBBRDBError>(resp),
{
    if (resp as i32) < 0 {
        Err(LibBBRDBError::CardError(CardError::from_u32(resp)))
    } else {
        Ok(resp)
    }
}

/// The list of bad blocks that a block scan reports: one byte per block,
/// non-zero for a bad one.
pub fn bad_block_list(data: &[u8]) -> (r: Vec<bool>)
    ensures
        r@.len() == data@.len(),
        forall|i: int| 0 <= i < data@.len() ==> r@[i] == (data@[i] != 0),
{
    let mut rv: Vec<bool> = Vec::new();
    let mut i: usize = 0;
    while i < data.len()
        invariant
            i <= data@.len(),
            rv@.len() == i,
            forall|j: int| 0 <= j < i ==> rv@[j] == (data@[j] != 0),
        decreases data@.len() - i,
    {
        rv.push(data[i] != 0);
        i = i + 1;
    }
    rv
}

/// A calendar date and time of day, as the console's clock takes it.
#[derive(Debug, Clone, Copy, PartialEq, Eq, Structural)]
pub struct TimeData {
    pub year: u32,
    pub month: u8,
    pub day: u8,
    /// Days since Monday.
    pub weekday: u8,
    pub hour: u8,
    pub minute: u8,
    pub second: u8,
}

/// The eight bytes that set the clock.
pub open spec fn time_bytes(t: TimeData) -> Seq<u8> {
    seq![(t.year % 100) as u8, t.month, t.day, t.weekday, 0u8, t.hour, t.minute, t.second]
}

impl TimeData {
    /// The eight bytes that set the clock: the first four go as the command's
    /// argument, the rest as host data after it.
    pub fn payload(&self) -> (r: Vec<u8>)
        ensures
            r@ == time_bytes(*self),
    {
        vec![(self.year % 100) as u8, self.month, self.day, self.weekday, 0, self.hour, self.minute, self.second]
    }
}

/// Decodes the status of the set-time command: a negative word is an error.
pub fn set_time_result(status: u32) -> (r: Result<(), LibBBRDBError>)
    ensures
        (status as i32) < 0 ==> r == Err::<(), _>(LibBBRDBError::SetTime(status as i32)),
        (status as i32) >= 0 ==> r == Ok::<(), LibBBRDBError>(()),
{
    if (status as i32) < 0 {
        Err(LibBBRDBError::SetTime(status as i32))
    } else {
        Ok(())
    }
}

/// What a dump of the card records for one block: the data and spare read,
/// also those of a block marked bad; zeros where the block could not be read.
pub fn dump_block(r: Result<(Vec<u8>, Vec<u8>), LibBBRDBError>) -> (out: (Vec<u8>, Vec<u8>))
    ensures
        r is Ok ==> out.0@ == r->Ok_0.0@ && out.1@ == r->Ok_0.1@,
        r is Err && r->Err_0 is CardError && r->Err_0->CardError_0 is BadBlock ==> out.0@
            == r->Err_0->CardError_0->BadBlock_0@ && out.1@ == r->Err_0->CardError_0->BadBlock_1@,
        r is Err && !(r->Err_0 is CardError && r->Err_0->CardError_0 is BadBlock) ==> out.0@ == Seq::new(
            BLOCK_SIZE as nat,
            |i: int| 0u8,
        ) && out.1@ == Seq::new(SPARE_SIZE as nat, |i: int| 0u8),
{
    match r {
        Ok((n, s)) => (n, s),
        Err(LibBBRDBError::CardError(CardError::BadBlock(n, s))) => (n, s),
        Err(_) => {
            let n = vec![0u8; BLOCK_SIZE];
            let s = vec![0u8; SPARE_SIZE];
            assert(n@ =~= Seq::new(BLOCK_SIZE as nat, |i: int| 0u8));
            assert(s@ =~= Seq::new(SPARE_SIZE as nat, |i: int| 0u8));
            (n, s)
        },
    }
}

} // verus!
