use vstd::prelude::*;

verus! {

/// A message of the client–daemon exchange.
#[derive(Clone, Copy, PartialEq, Eq, Structural, Debug)]
pub enum Message {
    Init,
    Terminate,
    Invalid,
}

/// What one received frame holds.
#[derive(Clone, Copy, PartialEq, Eq, Structural, Debug)]
pub enum Buffer {
    Message(Message),
    End,
    Invalid,
}

pub open spec fn init_bytes() -> Seq<u8> {
    seq![105u8, 110u8, 105u8, 116u8]
}

pub open spec fn terminate_bytes() -> Seq<u8> {
    seq![116u8, 101u8, 114u8, 109u8, 105u8, 110u8, 97u8, 116u8, 101u8]
}

pub open spec fn invalid_bytes() -> Seq<u8> {
    seq![
        109u8, 101u8, 115u8, 115u8, 97u8, 103u8, 101u8, 32u8, 110u8, 111u8, 32u8, 105u8, 110u8,
        32u8, 99u8, 111u8, 114u8, 114u8, 101u8, 99u8, 116u8, 32u8, 102u8, 111u8, 114u8, 109u8,
        97u8, 116u8,
    ]
}

/// The bytes that stand for a message on the wire, in ASCII: `init`, `terminate`,
/// and `message no in correct format`.
pub open spec fn message_bytes(m: Message) -> Seq<u8> {
    match m {
        Message::Init => init_bytes(),
        Message::Terminate => terminate_bytes(),
        Message::Invalid => invalid_bytes(),
    }
}

/// What a received frame means: an empty frame ends the exchange, the two known
/// words are messages, anything else is invalid.
pub open spec fn frame_meaning(b: Seq<u8>) -> Buffer {
    if b.len() == 0 {
        Buffer::End
    } else if b == init_bytes() {
        Buffer::Message(Message::Init)
    } else if b == terminate_bytes() {
        Buffer::Message(Message::Terminate)
    } else {
        Buffer::Invalid
    }
}

/// The length that a frame header announces: four bytes, most significant first.
pub open spec fn header_value(b: Seq<u8>) -> int {
    b[0] as int * 0x1000000 + b[1] as int * 0x10000 + b[2] as int * 0x100 + b[3] as int
}

/// The bytes to send for `mes`.
pub fn encode(mes: Message) -> (r: Vec<u8>)
    ensures
        r@ == message_bytes(mes),
{
    let r = match mes {
        Message::Init => vec![105u8, 110u8, 105u8, 116u8],
        Message::Terminate => vec![116u8, 101u8, 114u8, 109u8, 105u8, 110u8, 97u8, 116u8, 101u8],
        Message::Invalid => vec![
            109u8, 101u8, 115u8, 115u8, 97u8, 103u8, 101u8, 32u8, 110u8, 111u8, 32u8, 105u8,
            110u8, 32u8, 99u8, 111u8, 114u8, 114u8, 101u8, 99u8, 116u8, 32u8, 102u8, 111u8,
            114u8, 109u8, 97u8, 116u8,
        ],
    };
    assert(r@ =~= message_bytes(mes));
    r
}

fn same_bytes(a: &Vec<u8>, b: &Vec<u8>) -> (r: bool)
    ensures
        r == (a@ == b@),
{
    if a.len() != b.len() {
        return false;
    }
    let mut i: usize = 0;
    while i < a.len()
        invariant
            a@.len() == b@.len(),
            i <= a@.len(),
            forall|j: int| 0 <= j < i ==> a@[j] == b@[j],
        decreases a@.len() - i,
    {
        if a[i] != b[i] {
            return false;
        }
        i = i + 1;
    }
    assert(a@ =~= b@);
    true
}

/// What a received frame means.
pub fn decode(buffer: &Vec<u8>) -> (r: Buffer)
    ensures
        r == frame_meaning(buffer@),
{
    if buffer.len() == 0 {
        Buffer::End
    } else if same_bytes(buffer, &encode(Message::Init)) {
        Buffer::Message(Message::Init)
    } else if same_bytes(buffer, &encode(Message::Terminate)) {
        Buffer::Message(Message::Terminate)
    } else {
        Buffer::Invalid
    }
}

/// The length that a frame header announces.
pub fn frame_length(header: [u8; 4]) -> (r: u32)
    ensures
        r as int == header_value(header@),
{
    let b0 = header[0] as u32;
    let b1 = header[1] as u32;
    let b2 = header[2] as u32;
    let b3 = header[3] as u32;
    b0 * 0x1000000 + b1 * 0x10000 + b2 * 0x100 + b3
}

/// Whether a client's handshake succeeded, given the daemon's answer to `Init`:
/// only `Terminate` is a success.
pub fn handshake_accepted(reply: Buffer) -> (r: bool)
    ensures
        r == (reply == Buffer::Message(Message::Terminate)),
{
    match reply {
        Buffer::Message(Message::Terminate) => true,
        _ => false,
    }
}

/// The daemon's answer to one frame from a client: the message to send back, if
/// any, and whether to close the connection afterwards. `Init` is answered with
/// `Terminate` and ends the exchange, as does an empty frame without an answer;
/// anything else is answered with `Invalid`.
pub fn daemon_reply(buf: Buffer) -> (r: (Option<Message>, bool))
    ensures
        r == match buf {
            Buffer::End => (None, true),
            Buffer::Message(Message::Init) => (Some(Message::Terminate), true),
            _ => (Some(Message::Invalid), false),
        },
{
    match buf {
        Buffer::End => (None, true),
        Buffer::Message(Message::Init) => (Some(Message::Terminate), true),
        _ => (Some(Message::Invalid), false),
    }
}

} // verus!
