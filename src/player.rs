//! The console-side session state, and the piecemeal transfer format of the
//! player's own monitor: data goes out in pieces of up to three bytes, each
//! after a byte `0x40 + len`, and comes back in pieces after a byte
//! `0x1C + len`.
use vstd::prelude::*;

use crate::error::LibBBRDBError;
use crate::fat::Fat;

verus! {

/// What the session knows of the card once it is initialised.
#[derive(Debug)]
pub struct BBPlayer {
    /// The FAT, where the card holds one.
    pub fat: Option<Fat>,
    /// The number of blocks on the card.
    pub cardsize: u32,
}

/// The first byte of an outgoing piece.
pub const PIECEMEAL_CHUNK_SEND: u8 = 0x40;

/// The first byte of an incoming piece, less its length.
pub const PIECEMEAL_CHUNK_RECV: u8 = 0x1C;

/// The acknowledgement byte.
pub const ACK: u8 = 0x44;

/// The first byte of a length reply.
pub const DATA_LENGTH_REPLY: u8 = 0x1B;

/// The first byte of a chunked transfer.
pub const SEND_CHUNK: u8 = 0x63;

/// The first byte of the ready signal, which the other three follow as zeros.
pub const READY: u8 = 0x15;

/// The outgoing pieces of `d`, one after the other.
pub open spec fn piecemeal_encoding(d: Seq<u8>) -> Seq<u8>
    decreases d.len(),
{
    if d.len() == 0 {
        seq![]
    } else if d.len() <= 3 {
        seq![(PIECEMEAL_CHUNK_SEND + d.len()) as u8] + d
    } else {
        seq![(PIECEMEAL_CHUNK_SEND + 3) as u8] + d.take(3) + piecemeal_encoding(d.skip(3))
    }
}

/// The chunks of a chunked transfer of `d`, at most `n` payload bytes each.
pub open spec fn chunked_encoding(d: Seq<u8>, n: nat) -> Seq<Seq<u8>>
    decreases d.len(),
{
    if d.len() == 0 || n == 0 {
        seq![]
    } else if d.len() <= n {
        seq![seq![SEND_CHUNK, d.len() as u8] + d]
    } else {
        seq![seq![SEND_CHUNK, n as u8] + d.take(n as int)] + chunked_encoding(d.skip(n as int), n)
    }
}

/// The outcome of decoding incoming pieces until `want` bytes are had.
pub open spec fn piecemeal_decoding(d: Seq<u8>, want: nat) -> Result<Seq<u8>, LibBBRDBError>
    decreases d.len(),
{
    if want == 0 || d.len() == 0 {
        Ok(seq![])
    } else {
        let tu = d[0];
        if !(0x1D <= tu <= 0x1F) {
            Err(LibBBRDBError::UnexpectedPiecemealChunkType(tu))
        } else {
            let k = (tu - PIECEMEAL_CHUNK_RECV) as nat;
            if d.len() - 1 < k {
                Err(LibBBRDBError::PiecemealChunkTooShort(tu, (PIECEMEAL_CHUNK_RECV + d.len() - 1) as u8))
            } else {
                match piecemeal_decoding(d.skip(1 + k as int), if want > k { (want - k) as nat } else { 0 }) {
                    Ok(rest) => Ok(d.subrange(1, 1 + k as int) + rest),
                    Err(e) => Err(e),
                }
            }
        }
    }
}

impl BBPlayer {
    /// The session state of a card of `cardsize` blocks, given what reading
    /// its FAT gave: a card without a FAT is still usable for raw access.
    pub fn new(fat: Result<Fat, LibBBRDBError>, cardsize: u32) -> (r: Result<Self, LibBBRDBError>)
        ensures
            fat is Ok ==> r is Ok && r->Ok_0.fat == Some(fat->Ok_0) && r->Ok_0.cardsize == cardsize,
            fat is Err && fat->Err_0 == LibBBRDBError::NoFAT ==> r is Ok && r->Ok_0.fat is None
                && r->Ok_0.cardsize == cardsize,
            fat is Err && fat->Err_0 != LibBBRDBError::NoFAT ==> r == Err::<Self, _>(fat->Err_0),
    {
        match fat {
            Ok(f) => Ok(BBPlayer { fat: Some(f), cardsize }),
            Err(LibBBRDBError::NoFAT) => Ok(BBPlayer { fat: None, cardsize }),
            Err(e) => Err(e),
        }
    }

    /// The bulk transfer that issues command `command` with argument `arg`:
    /// both big-endian, as outgoing pieces.
    pub fn send_command(command: u32, arg: u32) -> (r: Vec<u8>)
        ensures
            r@ == piecemeal_encoding(crate::commands::be32(command) + crate::commands::be32(arg)),
    {
        let mut message = crate::commands::be32_bytes(command);
        let mut a = crate::commands::be32_bytes(arg);
        message.append(&mut a);
        BBPlayer::encode_piecemeal_data(message.as_slice())
    }

    /// The acknowledgement that ends a received transfer.
    pub fn send_ack() -> (r: Vec<u8>)
        ensures
            r@ == seq![ACK],
    {
        let r = vec![ACK];
        assert(r@ =~= seq![ACK]);
        r
    }

    /// Encodes `data` as outgoing pieces.
    pub fn encode_piecemeal_data(data: &[u8]) -> (r: Vec<u8>)
        ensures
            r@ == piecemeal_encoding(data@),
    {
        let mut out: Vec<u8> = Vec::new();
        let mut i: usize = 0;
        assert(data@.skip(0) =~= data@);
        assert(out@ + piecemeal_encoding(data@) =~= piecemeal_encoding(data@));
        while i < data.len()
            invariant
                i <= data@.len(),
                out@ + piecemeal_encoding(data@.skip(i as int)) == piecemeal_encoding(data@),
            decreases data@.len() - i,
        {
            let ghost rest = data@.skip(i as int);
            let ghost before = out@;
            let n: usize = if data.len() - i < 3 { data.len() - i } else { 3 };
            out.push(PIECEMEAL_CHUNK_SEND + n as u8);
            let mut k: usize = 0;
            while k < n
                invariant
                    k <= n <= 3,
                    i + n <= data.len(),
                    out@ == before + seq![(PIECEMEAL_CHUNK_SEND + n) as u8] + data@.subrange(i as int, i + k),
                decreases n - k,
            {
                out.push(data[i + k]);
                k = k + 1;
                assert(data@.subrange(i as int, i + k) =~= data@.subrange(i as int, i + k - 1).push(data@[i + k - 1]));
            }
            proof {
                if rest.len() <= 3 {
                    assert(data@.subrange(i as int, i + n) =~= rest);
                    assert(data@.skip(i + n) =~= Seq::<u8>::empty());
                } else {
                    assert(data@.subrange(i as int, i + n) =~= rest.take(3));
                    assert(data@.skip(i + n) =~= rest.skip(3));
                }
                assert(out@ + piecemeal_encoding(data@.skip(i + n)) =~= before + piecemeal_encoding(rest));
            }
            i = i + n;
        }
        assert(data@.skip(i as int) =~= Seq::<u8>::empty());
        out
    }

    /// The bulk transfer that sends `data` as outgoing pieces.
    pub fn send_piecemeal_data(data: &[u8]) -> (r: Vec<u8>)
        ensures
            r@ == piecemeal_encoding(data@),
    {
        BBPlayer::encode_piecemeal_data(data)
    }

    /// The bulk transfers that send `data` in chunks of at most
    /// `transfer_size` bytes, each a chunk marker, a length and the payload.
    pub fn send_chunked_data(data: &[u8], transfer_size: usize) -> (r: Vec<Vec<u8>>)
        requires
            3 <= transfer_size <= 257,
        ensures
            crate::rdb::views(r@) == chunked_encoding(data@, (transfer_size - 2) as nat),
    {
        let n = transfer_size - 2;
        let mut out: Vec<Vec<u8>> = Vec::new();
        let mut i: usize = 0;
        assert(data@.skip(0) =~= data@);
        assert(crate::rdb::views(out@) + chunked_encoding(data@, n as nat) =~= chunked_encoding(data@, n as nat));
        while i < data.len()
            invariant
                1 <= n <= 255,
                i <= data@.len(),
                crate::rdb::views(out@) + chunked_encoding(data@.skip(i as int), n as nat) == chunked_encoding(data@, n as nat),
            decreases data@.len() - i,
        {
            let ghost rest = data@.skip(i as int);
            let ghost before = out@;
            let end: usize = if data.len() - i <= n { data.len() } else { i + n };
            let count = (end - i) as u8;
            let mut c: Vec<u8> = vec![SEND_CHUNK, count];
            let mut piece = crate::rdb::slice_to_vec(&data[i..end]);
            c.append(&mut piece);
            out.push(c);
            proof {
                assert(crate::rdb::views(out@) =~= crate::rdb::views(before) + seq![c@]);
                if rest.len() <= n {
                    assert(data@.subrange(i as int, end as int) =~= rest);
                    assert(data@.skip(end as int) =~= Seq::<u8>::empty());
                } else {
                    assert(data@.subrange(i as int, end as int) =~= rest.take(n as int));
                    assert(data@.skip(end as int) =~= rest.skip(n as int));
                }
            }
            i = end;
        }
        assert(data@.skip(i as int) =~= Seq::<u8>::empty());
        out
    }

    /// Decodes incoming pieces into exactly `expected_len` bytes.
    pub fn decode_piecemeal_data(data: &[u8], expected_len: usize) -> (r: Result<Vec<u8>, LibBBRDBError>)
        ensures
            piecemeal_decoding(data@, expected_len as nat) is Err ==> r == Err::<Vec<u8>, _>(
                piecemeal_decoding(data@, expected_len as nat)->Err_0,
            ),
            piecemeal_decoding(data@, expected_len as nat) is Ok ==> {
                let got = piecemeal_decoding(data@, expected_len as nat)->Ok_0;
                &&& got.len() == expected_len ==> r is Ok && r->Ok_0@ == got
                &&& got.len() != expected_len ==> r == Err::<Vec<u8>, _>(
                    LibBBRDBError::TransferLength(expected_len, got.len() as usize),
                )
            },
    {
        let mut buf: Vec<u8> = Vec::new();
        let mut i: usize = 0;
        let ghost total = piecemeal_decoding(data@, expected_len as nat);
        assert(data@.skip(0) =~= data@);
        loop
            invariant
                i <= data@.len(),
                total == piecemeal_decoding(data@, expected_len as nat),
                buf@.len() <= expected_len || piecemeal_decoding(data@.skip(i as int), 0) == Ok::<Seq<u8>, LibBBRDBError>(seq![]),
                match piecemeal_decoding(data@.skip(i as int), if buf@.len() < expected_len { (expected_len - buf@.len()) as nat } else { 0 }) {
                    Ok(rest) => total is Ok && total->Ok_0 == buf@ + rest,
                    Err(e) => total == Err::<Seq<u8>, LibBBRDBError>(e),
                },
            ensures
                total is Ok ==> buf@ == total->Ok_0,
                total is Err ==> false,
            decreases data@.len() - i,
        {
            let ghost rest = data@.skip(i as int);
            let ghost want: nat = if buf@.len() < expected_len { (expected_len - buf@.len()) as nat } else { 0 };
            if buf.len() >= expected_len || i >= data.len() {
                assert(piecemeal_decoding(rest, want) == Ok::<Seq<u8>, LibBBRDBError>(seq![]));
                assert(buf@ + seq![] =~= buf@);
                break;
            }
            let tu = data[i];
            if !(0x1D <= tu && tu <= 0x1F) {
                return Err(LibBBRDBError::UnexpectedPiecemealChunkType(tu));
            }
            let k = (tu - PIECEMEAL_CHUNK_RECV) as usize;
            if data.len() - i - 1 < k {
                return Err(LibBBRDBError::PiecemealChunkTooShort(tu, PIECEMEAL_CHUNK_RECV + (data.len() - i - 1) as u8));
            }
            let ghost before = buf@;
            let mut j: usize = 0;
            while j < k
                invariant
                    j <= k <= 3,
                    i + 1 + k <= data.len(),
                    buf@ == before + data@.subrange(i + 1, i + 1 + j),
                decreases k - j,
            {
                buf.push(data[i + 1 + j]);
                j = j + 1;
                assert(data@.subrange(i + 1, i + 1 + j) =~= data@.subrange(i + 1, i + j) + seq![data@[i + j]]);
            }
            proof {
                assert(rest.skip(1 + k as int) =~= data@.skip(i + 1 + k));
                assert(rest.subrange(1, 1 + k as int) =~= data@.subrange(i + 1, i + 1 + k));
            }
            i = i + 1 + k;
        }
        if buf.len() != expected_len {
            return Err(LibBBRDBError::TransferLength(expected_len, buf.len()));
        }
        Ok(buf)
    }

    /// One round of waiting for the player: the four bytes read are the ready
    /// signal or not; a reply of another length is an error.
    pub fn wait_ready(buf: &[u8]) -> (r: Result<bool, LibBBRDBError>)
        ensures
            buf@.len() != 4 ==> r == Err::<bool, _>(LibBBRDBError::TransferLength(4, buf@.len() as usize)),
            buf@.len() == 4 ==> r == Ok::<bool, LibBBRDBError>(buf@ == seq![READY, 0u8, 0u8, 0u8]),
    {
        if buf.len() != 4 {
            return Err(LibBBRDBError::TransferLength(4, buf.len()));
        }
        let ready = buf[0] == READY && buf[1] == 0 && buf[2] == 0 && buf[3] == 0;
        assert(ready == (buf@ =~= seq![READY, 0u8, 0u8, 0u8]));
        Ok(ready)
    }

    /// Decodes a length reply: a stray ready signal gives `None` (read the
    /// next reply); a good one gives its low 24 bits.
    pub fn receive_unknown_reply(reply: &[u8]) -> (r: Result<Option<usize>, LibBBRDBError>)
        ensures
            reply@ == seq![READY, 0u8, 0u8, 0u8] ==> r == Ok::<Option<usize>, LibBBRDBError>(None),
            reply@ != seq![READY, 0u8, 0u8, 0u8] && (reply@.len() != 4 || reply@[0] != DATA_LENGTH_REPLY) ==> r
                == Err::<Option<usize>, _>(LibBBRDBError::IncorrectDataLengthReply(
                if reply@.len() > 0 { Some(reply@[0]) } else { None },
                reply@.len() as usize,
            )),
            reply@.len() == 4 && reply@[0] == DATA_LENGTH_REPLY ==> r == Ok::<Option<usize>, LibBBRDBError>(
                Some((reply@[1] * 0x10000 + reply@[2] * 0x100 + reply@[3]) as usize),
            ),
    {
        if reply.len() == 4 && reply[0] == READY && reply[1] == 0 && reply[2] == 0 && reply[3] == 0 {
            assert(reply@ =~= seq![READY, 0u8, 0u8, 0u8]);
            return Ok(None);
        }
        if reply.len() == 4 && reply[0] == DATA_LENGTH_REPLY {
            return Ok(Some(reply[1] as usize * 0x10000 + reply[2] as usize * 0x100 + reply[3] as usize));
        }
        proof {
            if reply@.len() == 4 {
                assert(reply@ != seq![READY, 0u8, 0u8, 0u8]) by {
                    if reply@ == seq![READY, 0u8, 0u8, 0u8] {
                        assert(reply@[0] == READY);
                    }
                }
            }
        }
        let first: Option<u8> = if reply.len() > 0 { Some(reply[0]) } else { None };
        Err(LibBBRDBError::IncorrectDataLengthReply(first, reply.len()))
    }

    /// Decodes a length reply and checks it against the largest reply
    /// expected: an empty or longer one is refused.
    pub fn receive_reply(expected_len: usize, reply: &[u8]) -> (r: Result<Option<usize>, LibBBRDBError>)
        ensures
            match BBPlayer::spec_length(reply@) {
                Err(e) => r == Err::<Option<usize>, _>(e),
                Ok(None) => r == Ok::<Option<usize>, LibBBRDBError>(None),
                Ok(Some(n)) => if n == 0 || n > expected_len {
                    r == Err::<Option<usize>, _>(LibBBRDBError::InvalidReplyLength(expected_len, n))
                } else {
                    r == Ok::<Option<usize>, LibBBRDBError>(Some(n))
                },
            },
    {
        match BBPlayer::receive_unknown_reply(reply) {
            Err(e) => Err(e),
            Ok(None) => Ok(None),
            Ok(Some(n)) => {
                if n == 0 || n > expected_len {
                    Err(LibBBRDBError::InvalidReplyLength(expected_len, n))
                } else {
                    Ok(Some(n))
                }
            },
        }
    }

    /// What `receive_unknown_reply` makes of a length reply.
    pub open spec fn spec_length(reply: Seq<u8>) -> Result<Option<usize>, LibBBRDBError> {
        if reply == seq![READY, 0u8, 0u8, 0u8] {
            Ok(None)
        } else if reply.len() != 4 || reply[0] != DATA_LENGTH_REPLY {
            Err(LibBBRDBError::IncorrectDataLengthReply(
                if reply.len() > 0 { Some(reply[0]) } else { None },
                reply.len() as usize,
            ))
        } else {
            Ok(Some((reply[1] * 0x10000 + reply[2] * 0x100 + reply[3]) as usize))
        }
    }
}

} // verus!
