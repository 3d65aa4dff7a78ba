//! Packet framing of the remote debugger protocol.
//!
//! A short packet is one header byte `(tag << 2) | len` followed by `len`
//! (at most three) payload bytes. A block packet has a header with length 0,
//! an explicit length byte and up to 254 payload bytes. Packets are batched,
//! eighty to a bulk transfer.
use vstd::prelude::*;

use crate::constants::{BB_PRODUCT_ID, IQUE_VENDOR_ID, RDB_BLOCKS_PER_CHUNK, RDB_BLOCK_SIZE, RDB_VENDOR_ID};
use crate::error::LibBBRDBError;

verus! {

/// The tag of a packet, which says what it carries and in which direction.
#[derive(Debug, Clone, Copy, PartialEq, Eq, Structural)]
pub enum RDBCommand {
    DevicePrint,
    DeviceFault,
    DeviceLogCT,
    DeviceLog,
    DeviceReadyForData,
    DeviceDataCT,
    DeviceData,
    DeviceDebug,
    DeviceRamRom,
    DeviceDebugDone,
    DeviceDebugReady,
    DeviceKDebug,
    DeviceProfData,
    DeviceDataB,
    DeviceSync,
    HostLogDone,
    HostDebug,
    HostDebugCT,
    HostData,
    HostDataDone,
    HostReqRamRom,
    HostFreeRamRom,
    HostKDebug,
    HostProfSignal,
    HostDataB,
    HostSyncDone,
    HostDebugDone,
}

/// The wire value of each tag.
pub open spec fn tag_of(c: RDBCommand) -> u8 {
    match c {
        RDBCommand::DevicePrint => 1,
        RDBCommand::DeviceFault => 2,
        RDBCommand::DeviceLogCT => 3,
        RDBCommand::DeviceLog => 4,
        RDBCommand::DeviceReadyForData => 5,
        RDBCommand::DeviceDataCT => 6,
        RDBCommand::DeviceData => 7,
        RDBCommand::DeviceDebug => 8,
        RDBCommand::DeviceRamRom => 9,
        RDBCommand::DeviceDebugDone => 10,
        RDBCommand::DeviceDebugReady => 11,
        RDBCommand::DeviceKDebug => 12,
        RDBCommand::HostLogDone => 13,
        RDBCommand::HostDebug => 14,
        RDBCommand::HostDebugCT => 15,
        RDBCommand::HostData => 16,
        RDBCommand::HostDataDone => 17,
        RDBCommand::HostReqRamRom => 18,
        RDBCommand::HostFreeRamRom => 19,
        RDBCommand::HostKDebug => 20,
        RDBCommand::HostProfSignal => 21,
        RDBCommand::DeviceProfData => 22,
        RDBCommand::DeviceDataB => 23,
        RDBCommand::HostDataB => 24,
        RDBCommand::DeviceSync => 25,
        RDBCommand::HostSyncDone => 26,
        RDBCommand::HostDebugDone => 27,
    }
}

/// Tags in use run from 1 to 27 without a gap.
pub open spec fn is_known_tag(v: u8) -> bool {
    1 <= v <= 27
}

impl RDBCommand {
    /// The wire value of this tag.
    pub fn tag(self) -> (r: u8)
        ensures
            r == tag_of(self),
            is_known_tag(r),
    {
        match self {
            RDBCommand::DevicePrint => 1,
            RDBCommand::DeviceFault => 2,
            RDBCommand::DeviceLogCT => 3,
            RDBCommand::DeviceLog => 4,
            RDBCommand::DeviceReadyForData => 5,
            RDBCommand::DeviceDataCT => 6,
            RDBCommand::DeviceData => 7,
            RDBCommand::DeviceDebug => 8,
            RDBCommand::DeviceRamRom => 9,
            RDBCommand::DeviceDebugDone => 10,
            RDBCommand::DeviceDebugReady => 11,
            RDBCommand::DeviceKDebug => 12,
            RDBCommand::HostLogDone => 13,
            RDBCommand::HostDebug => 14,
            RDBCommand::HostDebugCT => 15,
            RDBCommand::HostData => 16,
            RDBCommand::HostDataDone => 17,
            RDBCommand::HostReqRamRom => 18,
            RDBCommand::HostFreeRamRom => 19,
            RDBCommand::HostKDebug => 20,
            RDBCommand::HostProfSignal => 21,
            RDBCommand::DeviceProfData => 22,
            RDBCommand::DeviceDataB => 23,
            RDBCommand::HostDataB => 24,
            RDBCommand::DeviceSync => 25,
            RDBCommand::HostSyncDone => 26,
            RDBCommand::HostDebugDone => 27,
        }
    }

    /// Decodes a wire tag; an unknown one is handed back as the error.
    pub fn try_from(value: u8) -> (r: Result<Self, u8>)
        ensures
            r is Ok <==> is_known_tag(value),
            r is Ok ==> tag_of(r->Ok_0) == value,
            r is Err ==> r->Err_0 == value,
    {
        match value {
            1 => Ok(RDBCommand::DevicePrint),
            2 => Ok(RDBCommand::DeviceFault),
            3 => Ok(RDBCommand::DeviceLogCT),
            4 => Ok(RDBCommand::DeviceLog),
            5 => Ok(RDBCommand::DeviceReadyForData),
            6 => Ok(RDBCommand::DeviceDataCT),
            7 => Ok(RDBCommand::DeviceData),
            8 => Ok(RDBCommand::DeviceDebug),
            9 => Ok(RDBCommand::DeviceRamRom),
            10 => Ok(RDBCommand::DeviceDebugDone),
            11 => Ok(RDBCommand::DeviceDebugReady),
            12 => Ok(RDBCommand::DeviceKDebug),
            13 => Ok(RDBCommand::HostLogDone),
            14 => Ok(RDBCommand::HostDebug),
            15 => Ok(RDBCommand::HostDebugCT),
            16 => Ok(RDBCommand::HostData),
            17 => Ok(RDBCommand::HostDataDone),
            18 => Ok(RDBCommand::HostReqRamRom),
            19 => Ok(RDBCommand::HostFreeRamRom),
            20 => Ok(RDBCommand::HostKDebug),
            21 => Ok(RDBCommand::HostProfSignal),
            22 => Ok(RDBCommand::DeviceProfData),
            23 => Ok(RDBCommand::DeviceDataB),
            24 => Ok(RDBCommand::HostDataB),
            25 => Ok(RDBCommand::DeviceSync),
            26 => Ok(RDBCommand::HostSyncDone),
            27 => Ok(RDBCommand::HostDebugDone),
            _ => Err(value),
        }
    }

    /// Whether a packet with this tag carries an explicit length byte.
    pub fn has_explicit_length(self) -> (r: bool)
        ensures
            r == (self == RDBCommand::DeviceDataB),
    {
        match self {
            RDBCommand::DeviceDataB => true,
            _ => false,
        }
    }
}

/// Decoding a tag gives back the command that was encoded.
pub proof fn lemma_tag_round_trip(c: RDBCommand, d: RDBCommand)
    ensures
        tag_of(c) == tag_of(d) ==> c == d,
        is_known_tag(tag_of(c)),
{
}

/// What kind of unit a USB device is.
#[derive(Debug, Clone, Copy, PartialEq, Eq, Structural)]
pub enum RDBType {
    Retail,
    Emsmon,
    Unknown,
}

/// Classifies a device by its vendor and product ids.
pub fn bbp_type(vendor_id: u16, product_id: u16) -> (r: RDBType)
    ensures
        r == (if product_id != BB_PRODUCT_ID {
            RDBType::Unknown
        } else if vendor_id == IQUE_VENDOR_ID {
            RDBType::Retail
        } else if vendor_id == RDB_VENDOR_ID {
            RDBType::Emsmon
        } else {
            RDBType::Unknown
        }),
{
    if product_id != BB_PRODUCT_ID {
        RDBType::Unknown
    } else if vendor_id == IQUE_VENDOR_ID {
        RDBType::Retail
    } else if vendor_id == RDB_VENDOR_ID {
        RDBType::Emsmon
    } else {
        RDBType::Unknown
    }
}

/// The header byte of a packet.
pub open spec fn hdr_of(cmd: RDBCommand, len: nat) -> u8 {
    (tag_of(cmd) * 4 + len) as u8
}

/// A short packet carrying `c`: always four bytes, the payload followed by
/// NUL padding.
pub open spec fn short_packet(cmd: RDBCommand, c: Seq<u8>) -> Seq<u8> {
    seq![hdr_of(cmd, c.len())] + c + Seq::new((3 - c.len()) as nat, |i: int| 0u8)
}

/// A block packet carrying `c`.
pub open spec fn block_packet(cmd: RDBCommand, c: Seq<u8>) -> Seq<u8> {
    seq![hdr_of(cmd, 0), c.len() as u8] + c
}

pub fn encode_rdb_hdr(cmd: RDBCommand, len: usize) -> (r: u8)
    requires
        len < 4,
    ensures
        r == hdr_of(cmd, len as nat),
{
    cmd.tag() * 4 + len as u8
}

/// Encodes a short packet.
pub fn encode_rdb_packet(cmd: RDBCommand, data: &[u8]) -> (r: Vec<u8>)
    requires
        data@.len() < 4,
    ensures
        r@ == short_packet(cmd, data@),
{
    let mut rv: Vec<u8> = Vec::new();
    rv.push(encode_rdb_hdr(cmd, data.len()));
    let mut i: usize = 0;
    while i < data.len()
        invariant
            i <= data@.len(),
            rv@ == seq![hdr_of(cmd, data@.len())] + data@.take(i as int),
        decreases data@.len() - i,
    {
        rv.push(data[i]);
        i = i + 1;
        assert(data@.take(i as int) =~= data@.take(i - 1).push(data@[i - 1]));
    }
    assert(data@.take(i as int) =~= data@);
    let ghost head = rv@;
    while rv.len() < 4
        invariant
            head.len() == 1 + data@.len(),
            data@.len() < 4,
            head.len() <= rv@.len() <= 4,
            rv@ == head + Seq::new((rv@.len() - head.len()) as nat, |j: int| 0u8),
        decreases 4 - rv@.len(),
    {
        rv.push(0);
        assert(rv@ =~= head + Seq::new((rv@.len() - head.len()) as nat, |j: int| 0u8));
    }
    assert(rv@ =~= short_packet(cmd, data@));
    rv
}

/// Encodes a block packet.
pub fn encode_rdb_block_packet(cmd: RDBCommand, data: &[u8]) -> (r: Vec<u8>)
    requires
        data@.len() <= RDB_BLOCK_SIZE,
    ensures
        r@ == block_packet(cmd, data@),
{
    let mut rv: Vec<u8> = Vec::new();
    rv.push(encode_rdb_hdr(cmd, 0));
    rv.push(data.len() as u8);
    let mut i: usize = 0;
    while i < data.len()
        invariant
            i <= data@.len() <= RDB_BLOCK_SIZE,
            rv@ == seq![hdr_of(cmd, 0), data@.len() as u8] + data@.take(i as int),
        decreases data@.len() - i,
    {
        rv.push(data[i]);
        i = i + 1;
        assert(data@.take(i as int) =~= data@.take(i - 1).push(data@[i - 1]));
    }
    assert(data@.take(i as int) =~= data@);
    rv
}

/// How a payload is cut into packets.
#[derive(Debug, Clone, Copy, PartialEq, Eq, Structural)]
pub enum PacketKind {
    /// Short packets of three bytes.
    Short,
    /// Block packets of up to 254 bytes.
    Block,
    /// Pieces of up to 254 bytes, each sent short when under four bytes long.
    Mixed,
}

/// The payload size of the pieces of each kind.
pub open spec fn piece_size(kind: PacketKind) -> nat {
    if kind == PacketKind::Short { 3 } else { RDB_BLOCK_SIZE as nat }
}

/// The packet that carries one piece.
pub open spec fn packet_of(cmd: RDBCommand, c: Seq<u8>, kind: PacketKind) -> Seq<u8> {
    if kind == PacketKind::Short || (kind == PacketKind::Mixed && c.len() < 4) {
        short_packet(cmd, c)
    } else {
        block_packet(cmd, c)
    }
}

/// The packets that carry `d`, one after the other.
pub open spec fn packet_stream(cmd: RDBCommand, d: Seq<u8>, kind: PacketKind) -> Seq<u8>
    decreases d.len(),
{
    let n = piece_size(kind);
    if d.len() == 0 {
        seq![]
    } else if d.len() <= n {
        packet_of(cmd, d, kind)
    } else {
        packet_of(cmd, d.take(n as int), kind) + packet_stream(cmd, d.skip(n as int), kind)
    }
}

/// The bulk transfers that carry `d`: its packets, eighty to a transfer.
pub open spec fn packet_frames(cmd: RDBCommand, d: Seq<u8>, kind: PacketKind) -> Seq<Seq<u8>>
    decreases d.len(),
{
    let n = piece_size(kind) * RDB_BLOCKS_PER_CHUNK;
    if d.len() == 0 {
        seq![]
    } else if d.len() <= n {
        seq![packet_stream(cmd, d, kind)]
    } else {
        seq![packet_stream(cmd, d.take(n as int), kind)] + packet_frames(cmd, d.skip(n as int), kind)
    }
}

/// The byte contents of a list of buffers.
pub open spec fn views(v: Seq<Vec<u8>>) -> Seq<Seq<u8>> {
    v.map_values(|b: Vec<u8>| b@)
}

fn encode_packet(cmd: RDBCommand, c: &[u8], kind: PacketKind) -> (r: Vec<u8>)
    requires
        c@.len() <= piece_size(kind),
    ensures
        r@ == packet_of(cmd, c@, kind),
{
    match kind {
        PacketKind::Short => encode_rdb_packet(cmd, c),
        PacketKind::Block => encode_rdb_block_packet(cmd, c),
        PacketKind::Mixed => {
            if c.len() < 4 {
                encode_rdb_packet(cmd, c)
            } else {
                encode_rdb_block_packet(cmd, c)
            }
        },
    }
}

fn append(out: &mut Vec<u8>, s: &Vec<u8>)
    ensures
        final(out)@ == old(out)@ + s@,
{
    let mut i: usize = 0;
    while i < s.len()
        invariant
            i <= s@.len(),
            out@ == old(out)@ + s@.take(i as int),
        decreases s@.len() - i,
    {
        out.push(s[i]);
        i = i + 1;
        assert(s@.take(i as int) =~= s@.take(i - 1).push(s@[i - 1]));
    }
    assert(s@.take(i as int) =~= s@);
}

fn encode_stream(cmd: RDBCommand, d: &[u8], kind: PacketKind) -> (r: Vec<u8>)
    ensures
        r@ == packet_stream(cmd, d@, kind),
{
    let n: usize = match kind {
        PacketKind::Short => 3,
        _ => RDB_BLOCK_SIZE,
    };
    let mut out: Vec<u8> = Vec::new();
    let mut i: usize = 0;
    assert(d@.skip(0) =~= d@);
    assert(out@ + packet_stream(cmd, d@, kind) =~= packet_stream(cmd, d@, kind));
    while i < d.len()
        invariant
            i <= d@.len(),
            n == piece_size(kind),
            out@ + packet_stream(cmd, d@.skip(i as int), kind) == packet_stream(cmd, d@, kind),
        decreases d@.len() - i,
    {
        let ghost rest = d@.skip(i as int);
        let end: usize = if d.len() - i <= n { d.len() } else { i + n };
        let p = encode_packet(cmd, &d[i..end], kind);
        append(&mut out, &p);
        proof {
            if rest.len() <= n {
                assert(d@.subrange(i as int, end as int) =~= rest);
                assert(d@.skip(end as int) =~= Seq::<u8>::empty());
            } else {
                assert(d@.subrange(i as int, end as int) =~= rest.take(n as int));
                assert(d@.skip(end as int) =~= rest.skip(n as int));
            }
        }
        i = end;
    }
    assert(d@.skip(i as int) =~= Seq::<u8>::empty());
    assert(d@.skip(0) =~= d@);
    out
}

fn encode_frames(cmd: RDBCommand, d: &[u8], kind: PacketKind) -> (r: Vec<Vec<u8>>)
    ensures
        views(r@) == packet_frames(cmd, d@, kind),
{
    let n: usize = match kind {
        PacketKind::Short => 3 * RDB_BLOCKS_PER_CHUNK,
        _ => RDB_BLOCK_SIZE * RDB_BLOCKS_PER_CHUNK,
    };
    let mut out: Vec<Vec<u8>> = Vec::new();
    let mut i: usize = 0;
    assert(d@.skip(0) =~= d@);
    assert(views(out@) + packet_frames(cmd, d@, kind) =~= packet_frames(cmd, d@, kind));
    while i < d.len()
        invariant
            i <= d@.len(),
            n == piece_size(kind) * RDB_BLOCKS_PER_CHUNK,
            views(out@) + packet_frames(cmd, d@.skip(i as int), kind) == packet_frames(cmd, d@, kind),
        decreases d@.len() - i,
    {
        let ghost rest = d@.skip(i as int);
        let end: usize = if d.len() - i <= n { d.len() } else { i + n };
        let s = encode_stream(cmd, &d[i..end], kind);
        let ghost before = out@;
        out.push(s);
        proof {
            assert(views(out@) =~= views(before) + seq![s@]);
            if rest.len() <= n {
                assert(d@.subrange(i as int, end as int) =~= rest);
                assert(d@.skip(end as int) =~= Seq::<u8>::empty());
            } else {
                assert(d@.subrange(i as int, end as int) =~= rest.take(n as int));
                assert(d@.skip(end as int) =~= rest.skip(n as int));
            }
        }
        i = end;
    }
    assert(d@.skip(i as int) =~= Seq::<u8>::empty());
    assert(d@.skip(0) =~= d@);
    out
}

/// The bulk transfers that send `data` as short packets tagged `cmd`.
pub fn frame_rdb_data(cmd: RDBCommand, data: &[u8]) -> (r: Vec<Vec<u8>>)
    ensures
        views(r@) == packet_frames(cmd, data@, PacketKind::Short),
{
    encode_frames(cmd, data, PacketKind::Short)
}

/// The bulk transfers that send `data` as block packets of host data.
pub fn frame_rdb_block_data(data: &[u8]) -> (r: Vec<Vec<u8>>)
    ensures
        views(r@) == packet_frames(RDBCommand::HostDataB, data@, PacketKind::Block),
{
    encode_frames(RDBCommand::HostDataB, data, PacketKind::Block)
}

/// The bulk transfers that send `data` tagged `cmd` in pieces of up to 254
/// bytes, the short ones as short packets.
pub fn frame_rdb_packets(cmd: RDBCommand, data: &[u8]) -> (r: Vec<Vec<u8>>)
    ensures
        views(r@) == packet_frames(cmd, data@, PacketKind::Mixed),
{
    encode_frames(cmd, data, PacketKind::Mixed)
}

/// How host data is sent: more than sixteen bytes of plain host data go as
/// block packets, anything else as short packets.
pub open spec fn host_frames(cmd: RDBCommand, d: Seq<u8>) -> Seq<Seq<u8>> {
    if d.len() > 16 && cmd == RDBCommand::HostData {
        packet_frames(RDBCommand::HostDataB, d, PacketKind::Block)
    } else {
        packet_frames(cmd, d, PacketKind::Short)
    }
}

/// The bulk transfers that write `data` to the device under `cmd`.
pub fn frame_host_data(cmd: RDBCommand, data: &[u8]) -> (r: Vec<Vec<u8>>)
    ensures
        views(r@) == host_frames(cmd, data@),
{
    if data.len() > 16 && cmd == RDBCommand::HostData {
        frame_rdb_block_data(data)
    } else {
        frame_rdb_data(cmd, data)
    }
}

/// Splits a header byte into its tag and its length.
pub fn decode_rdb_cmd_len(byte: u8) -> (r: Result<(RDBCommand, u8), LibBBRDBError>)
    ensures
        r is Ok <==> is_known_tag(byte / 4),
        r is Ok ==> tag_of(r->Ok_0.0) == byte / 4 && r->Ok_0.1 == byte % 4,
        r is Err ==> r->Err_0 == LibBBRDBError::RDBUnknown(byte / 4),
{
    match RDBCommand::try_from(byte / 4) {
        Ok(c) => Ok((c, byte % 4)),
        Err(v) => Err(LibBBRDBError::RDBUnknown(v)),
    }
}

/// The unsigned number that a big-endian byte string spells.
pub open spec fn be_value(s: Seq<u8>) -> nat
    decreases s.len(),
{
    if s.len() == 0 {
        0
    } else {
        be_value(s.drop_last()) * 256 + s.last() as nat
    }
}

/// `256` to the power `n`.
pub open spec fn pow256(n: nat) -> nat
    decreases n,
{
    if n == 0 { 1 } else { 256 * pow256((n - 1) as nat) }
}

/// A big-endian number of `n` bytes is below `256^n`.
pub proof fn lemma_be_value_bound(s: Seq<u8>)
    ensures
        be_value(s) < pow256(s.len()),
    decreases s.len(),
{
    if s.len() > 0 {
        lemma_be_value_bound(s.drop_last());
        let a = be_value(s.drop_last());
        let p = pow256((s.len() - 1) as nat);
        let b = s.last();
        assert(a * 256 + b < 256 * p) by (nonlinear_arith)
            requires a < p, b < 256;
    }
}

/// Appending a byte shifts the number left by eight bits.
pub proof fn lemma_be_value_push(s: Seq<u8>, b: u8)
    ensures
        be_value(s.push(b)) == be_value(s) * 256 + b,
{
    assert(s.push(b).drop_last() =~= s);
}

/// The last (up to) four bytes of `d`, the ones that `to_u32` reads.
pub open spec fn low_word_bytes(d: Seq<u8>) -> Seq<u8> {
    if d.len() >= 4 { d.subrange(d.len() - 4, d.len() as int) } else { d }
}

/// Reads the last (up to) four bytes of `data` as a big-endian number.
pub fn to_u32(data: &[u8]) -> (r: u32)
    ensures
        r as nat == be_value(low_word_bytes(data@)),
{
    let start: usize = if data.len() >= 4 { data.len() - 4 } else { 0 };
    let mut acc: u32 = 0;
    let mut i: usize = start;
    proof {
        assert(data@.subrange(start as int, start as int) =~= Seq::<u8>::empty());
    }
    while i < data.len()
        invariant
            start <= i <= data@.len(),
            data@.len() - start <= 4,
            acc as nat == be_value(data@.subrange(start as int, i as int)),
        decreases data@.len() - i,
    {
        let ghost prefix = data@.subrange(start as int, i as int);
        proof {
            assert(data@.subrange(start as int, i + 1) =~= prefix.push(data@[i as int]));
            lemma_be_value_push(prefix, data@[i as int]);
            lemma_be_value_bound(data@.subrange(start as int, i + 1));
            reveal_with_fuel(pow256, 5);
        }
        acc = acc * 256 + data[i] as u32;
        i = i + 1;
    }
    proof {
        assert(data@.subrange(start as int, data@.len() as int) =~= low_word_bytes(data@));
    }
    acc
}

/// The payload of a bulk read: every four-byte group is a short packet of
/// device data, whose header gives how many of the next three bytes count.
pub open spec fn bulk_payload(d: Seq<u8>) -> Seq<u8>
    decreases d.len(),
{
    if d.len() < 4 {
        seq![]
    } else {
        d.subrange(1, 1 + (d[0] % 4) as int) + bulk_payload(d.skip(4))
    }
}

/// Whether every four-byte group of `d` is tagged as device data.
pub open spec fn all_device_data(d: Seq<u8>) -> bool
    decreases d.len(),
{
    d.len() < 4 || (d[0] / 4 == tag_of(RDBCommand::DeviceData) && all_device_data(d.skip(4)))
}

/// How many bytes a bulk read of `len` payload bytes takes.
pub fn rdb_bulk_read_len(len: u32) -> (r: u64)
    ensures
        r == ((len as nat + 2) / 3) * 4,
{
    ((len as u64 + 2) / 3) * 4
}

/// Unpacks the data of a bulk read.
pub fn decode_rdb_bulk(data: &[u8]) -> (r: Result<Vec<u8>, LibBBRDBError>)
    ensures
        r is Ok <==> (data@.len() % 4 == 0 && all_device_data(data@)),
        r is Ok ==> r->Ok_0@ == bulk_payload(data@),
        r is Err ==> (r->Err_0 == LibBBRDBError::WrongDataLength <==> data@.len() % 4 != 0),
{
    if data.len() % 4 != 0 {
        return Err(LibBBRDBError::WrongDataLength);
    }
    let mut rv: Vec<u8> = Vec::new();
    let mut i: usize = 0;
    assert(data@.skip(0) =~= data@);
    assert(rv@ + bulk_payload(data@) =~= bulk_payload(data@));
    while i < data.len()
        invariant
            i <= data@.len(),
            i % 4 == 0,
            data@.len() % 4 == 0,
            rv@ + bulk_payload(data@.skip(i as int)) == bulk_payload(data@),
            all_device_data(data@) == all_device_data(data@.skip(i as int)),
        decreases data@.len() - i,
    {
        let ghost rest = data@.skip(i as int);
        let (cmd, len) = match decode_rdb_cmd_len(data[i]) {
            Ok(p) => p,
            Err(e) => {
                assert(!all_device_data(rest));
                return Err(e);
            },
        };
        if cmd != RDBCommand::DeviceData {
            assert(!all_device_data(rest));
            return Err(LibBBRDBError::RDBUnexpected(cmd, vec![RDBCommand::DeviceData]));
        }
        let ghost before = rv@;
        let mut k: usize = 0;
        while k < len as usize
            invariant
                k <= len as usize <= 3,
                i + 4 <= data.len(),
                rv@ == before + data@.subrange(i + 1, i + 1 + k),
            decreases len as usize - k,
        {
            rv.push(data[i + 1 + k]);
            k = k + 1;
            assert(data@.subrange(i + 1, i + 1 + k) =~= data@.subrange(i + 1, i + k) + seq![data@[i + k]]);
        }
        proof {
            assert(rest.subrange(1, 1 + (rest[0] % 4) as int) =~= data@.subrange(i + 1, i + 1 + k));
            assert(rest.skip(4) =~= data@.skip(i + 4));
            assert(rv@ + bulk_payload(data@.skip(i + 4)) =~= before + bulk_payload(rest));
        }
        i = i + 4;
    }
    assert(data@.skip(i as int) =~= Seq::<u8>::empty());
    Ok(rv)
}

/// The byte count announced by a device-data count packet, the start of
/// every chunk the device sends.
pub fn chunk_count(cmd: RDBCommand, data: &[u8]) -> (r: Result<u32, LibBBRDBError>)
    ensures
        r is Ok <==> cmd == RDBCommand::DeviceDataCT,
        r is Ok ==> r->Ok_0 as nat == be_value(low_word_bytes(data@)),
        r is Err ==> r->Err_0 is RDBUnexpected && r->Err_0->RDBUnexpected_0 == cmd,
{
    if cmd != RDBCommand::DeviceDataCT {
        return Err(LibBBRDBError::RDBUnexpected(cmd, vec![RDBCommand::DeviceDataCT]));
    }
    Ok(to_u32(data))
}

/// Whether a packet is the device's go-ahead for the next command.
pub fn is_ready_for_data(cmd: RDBCommand) -> (r: bool)
    ensures
        r == (cmd == RDBCommand::DeviceReadyForData),
{
    cmd == RDBCommand::DeviceReadyForData
}

/// Copies a slice into a new vector.
pub fn slice_to_vec(s: &[u8]) -> (r: Vec<u8>)
    ensures
        r@ == s@,
{
    let mut v: Vec<u8> = Vec::new();
    let mut i: usize = 0;
    while i < s.len()
        invariant
            i <= s@.len(),
            v@ == s@.take(i as int),
        decreases s@.len() - i,
    {
        v.push(s[i]);
        i = i + 1;
        assert(s@.take(i as int) =~= s@.take(i - 1).push(s@[i - 1]));
    }
    assert(s@.take(i as int) =~= s@);
    v
}

} // verus!
