use vstd::prelude::*;

use crate::error::Error;
use crate::keys::clone_bytes;

verus! {

/// The status word a device answers with when the user rejects the
/// request on the device itself.
pub const DENY_STATUS: u16 = 0x6985;

/// Map a response status word to the library's error taxonomy: the
/// device's "denied" code becomes `UserRefused`, anything else stays an
/// opaque device failure carrying the raw message.
pub fn status_to_error(status: u16, message: &Vec<u8>) -> (r: Error)
    ensures
        status == DENY_STATUS ==> r == Error::UserRefused,
        status != DENY_STATUS ==> (r matches Error::Device(m) && m@ == message@),
{
    if status == DENY_STATUS {
        Error::UserRefused
    } else {
        Error::Device(clone_bytes(message))
    }
}

/// A 16-bit big-endian value.
pub open spec fn be16(hi: u8, lo: u8) -> int {
    hi * 0x100 + lo
}

/// A 32-bit big-endian encoding of `n`.
pub open spec fn be32_bytes(n: int) -> Seq<u8>
    recommends
        0 <= n < 0x1_0000_0000,
{
    seq![
        ((n / 0x100_0000) % 0x100) as u8,
        ((n / 0x1_0000) % 0x100) as u8,
        ((n / 0x100) % 0x100) as u8,
        (n % 0x100) as u8,
    ]
}

/// Decode the 4-byte big-endian length prefix of a simulator response.
pub fn decode_be32(b: &[u8]) -> (r: u32)
    requires
        b@.len() == 4,
    ensures
        r == (b@[0] as int) * 0x100_0000 + (b@[1] as int) * 0x1_0000 + (b@[2] as int) * 0x100 + (
        b@[3] as int),
{
    (b[0] as u32) * 0x100_0000 + (b[1] as u32) * 0x1_0000 + (b[2] as u32) * 0x100 + (b[3] as u32)
}

/// The command frame one transport sends: class, instruction, p1, p2, one
/// byte with the payload length, then the payload.
pub open spec fn apdu_wire(cla: u8, ins: u8, p1: u8, p2: u8, data: Seq<u8>) -> Seq<u8>
    recommends
        data.len() <= 255,
{
    seq![cla, ins, p1, p2, data.len() as u8] + data
}

/// Relies on ledger_bitcoin_client's `APDUCommand::encode`: the frame is
/// class, instruction, p1, p2, one byte holding the payload length, then
/// the payload bytes themselves.
#[verifier::external_body]
fn encode_apdu_command(cla: u8, ins: u8, p1: u8, p2: u8, data: &Vec<u8>) -> (r: Vec<u8>)
    requires
        data@.len() <= 255,
    ensures
        r@ == apdu_wire(cla, ins, p1, p2, data@),
{
    let cmd = ledger_bitcoin_client::apdu::APDUCommand {
        cla,
        ins,
        p1,
        p2,
        data: data.clone(),
    };
    cmd.encode()
}

/// Frame a command for the simulator transport: the command frame,
/// preceded by its length as four big-endian bytes. The one-byte length
/// field of the frame itself caps the payload at 255 bytes.
pub fn frame_simulator_command(cla: u8, ins: u8, p1: u8, p2: u8, data: &Vec<u8>) -> (r: Vec<u8>)
    requires
        data@.len() <= 255,
    ensures
        r@ == be32_bytes(5 + data@.len() as int) + apdu_wire(cla, ins, p1, p2, data@),
{
    let wire = encode_apdu_command(cla, ins, p1, p2, data);
    let n: usize = wire.len();
    let mut out: Vec<u8> = Vec::new();
    out.push(((n / 0x100_0000) % 0x100) as u8);
    out.push(((n / 0x1_0000) % 0x100) as u8);
    out.push(((n / 0x100) % 0x100) as u8);
    out.push((n % 0x100) as u8);
    proof {
        assert(out@ =~= be32_bytes(n as int));
    }
    let ghost prefix = out@;
    let mut j: usize = 0;
    while j < wire.len()
        invariant
            j <= wire.len(),
            out@ == prefix + wire@.subrange(0, j as int),
        decreases wire.len() - j,
    {
        out.push(wire[j]);
        proof {
            assert(out@ =~= prefix + wire@.subrange(0, j + 1));
        }
        j += 1;
    }
    proof {
        assert(wire@.subrange(0, wire@.len() as int) =~= wire@);
    }
    out
}

/// Relies on ledger-apdu's `APDUAnswer::from_answer`: a response shorter
/// than two bytes is rejected; otherwise the last two bytes, big endian,
/// are the status word and everything before them is the payload.
#[verifier::external_body]
fn split_apdu_answer(resp: &Vec<u8>) -> (r: Option<(u16, Vec<u8>)>)
    ensures
        match r {
            Some((sw, data)) => resp@.len() >= 2 && sw == be16(
                resp@[resp@.len() - 2],
                resp@[resp@.len() - 1],
            ) && data@ == resp@.take(resp@.len() - 2),
            None => resp@.len() < 2,
        },
{
    match ledger_apdu::APDUAnswer::from_answer(resp.clone()) {
        Ok(a) => {
            let sw = a.retcode();
            let data = a.data().to_vec();
            Some((sw, data))
        },
        Err(_) => None,
    }
}

/// Split a raw device response into its status word and payload; a
/// response too short to carry a status word is an opaque device failure.
pub fn decode_simulator_response(resp: &Vec<u8>) -> (r: Result<(u16, Vec<u8>), Error>)
    ensures
        match r {
            Ok((sw, data)) => resp@.len() >= 2 && sw == be16(
                resp@[resp@.len() - 2],
                resp@[resp@.len() - 1],
            ) && data@ == resp@.take(resp@.len() - 2),
            Err(e) => resp@.len() < 2 && e matches Error::Device(_),
        },
{
    match split_apdu_answer(resp) {
        Some(p) => Ok(p),
        None => Err(Error::Device(Vec::new())),
    }
}

} // verus!
