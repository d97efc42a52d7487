//! Pairing with the browser extension over native messaging: framed messages on the
//! standard streams, each answered with the port and the token of the daemon.
use vstd::prelude::*;

verus! {

/// The four bytes of a length, least significant first.
pub open spec fn length_bytes(n: nat) -> Seq<u8> {
    seq![
        (n % 256) as u8,
        ((n / 256) % 256) as u8,
        ((n / 65536) % 256) as u8,
        ((n / 16777216) % 256) as u8,
    ]
}

/// The length that four bytes write, least significant first.
pub open spec fn length_value(b: Seq<u8>) -> nat {
    (b[0] + 256 * b[1] + 65536 * b[2] + 16777216 * b[3]) as nat
}

/// A message with its length in front of it. The length is cut to 32 bits.
pub open spec fn framed(body: Seq<u8>) -> Seq<u8> {
    length_bytes(body.len()) + body
}

/// A message with its length in front of it.
pub fn frame(body: &Vec<u8>) -> (r: Vec<u8>)
    ensures
        r@ == framed(body@),
{
    let n = body.len();
    let mut r: Vec<u8> = Vec::new();
    r.push((n % 256) as u8);
    r.push(((n / 256) % 256) as u8);
    r.push(((n / 65536) % 256) as u8);
    r.push(((n / 16777216) % 256) as u8);
    assert(r@ =~= length_bytes(n as nat));
    let ghost head = r@;
    let mut i: usize = 0;
    assert(head + body@.take(0) =~= head);
    while i < body.len()
        invariant
            i <= body@.len(),
            r@ == head + body@.take(i as int),
        decreases body@.len() - i,
    {
        r.push(body[i]);
        i += 1;
        assert(head + body@.take(i as int) =~= (head + body@.take(i - 1)).push(body@[i - 1]));
    }
    assert(body@.take(i as int) =~= body@);
    r
}

/// The length of the message that follows these four bytes.
pub fn frame_length(prefix: [u8; 4]) -> (r: u32)
    ensures
        r == length_value(prefix@),
{
    prefix[0] as u32 + 256 * prefix[1] as u32 + 65536 * prefix[2] as u32 + 16777216
        * prefix[3] as u32
}

/// A message that is written is read back: its first four bytes tell how long it is, and
/// as many bytes after them are the message. So it is for messages whose length fits in
/// 32 bits.
pub proof fn law_frame_is_read_back(body: Seq<u8>)
    requires
        body.len() < 0x1_0000_0000,
    ensures
        framed(body).len() == 4 + body.len(),
        length_value(framed(body).take(4)) == body.len(),
        framed(body).subrange(4, 4 + body.len() as int) == body,
{
    let n = body.len();
    assert(framed(body).take(4) =~= length_bytes(n));
    assert(framed(body).subrange(4, 4 + n as int) =~= body);
    assert(n == n % 256 + 256 * (n / 256 % 256) + 65536 * (n / 65536 % 256) + 16777216 * (n
        / 16777216 % 256)) by (nonlinear_arith)
        requires
            n < 0x1_0000_0000,
    ;
}

/// Messages that are written one after the other are read one after the other: what
/// follows a message does not change how it is read.
pub proof fn law_frames_do_not_run_together(body: Seq<u8>, rest: Seq<u8>)
    requires
        body.len() < 0x1_0000_0000,
    ensures
        length_value((framed(body) + rest).take(4)) == body.len(),
        (framed(body) + rest).subrange(4, 4 + body.len() as int) == body,
        (framed(body) + rest).skip(4 + body.len() as int) == rest,
{
    law_frame_is_read_back(body);
    let all = framed(body) + rest;
    assert(all.take(4) =~= framed(body).take(4));
    assert(all.subrange(4, 4 + body.len() as int) =~= framed(body).subrange(4, 4 + body.len() as int));
    assert(all.skip(4 + body.len() as int) =~= rest);
}

/// What the extension gets.
pub struct PairReply {
    pub ok: bool,
    pub port: Option<u16>,
    pub token: Option<String>,
    pub error: Option<String>,
}

/// The reply to the extension, given the port and the token that are stored, if a
/// readable configuration is.
pub fn pair_reply(stored: Option<(u16, String)>) -> (r: PairReply)
    ensures
        match stored {
            Some((port, token)) => {
                &&& r.ok
                &&& r.port == Some(port)
                &&& r.token == Some(token)
                &&& r.error is None
            },
            None => {
                &&& !r.ok
                &&& r.port is None
                &&& r.token is None
                &&& r.error matches Some(e) && e@
                    == "ClipCloak isn't running \u{2014} open the tray app once to pair."@
            },
        },
{
    match stored {
        Some((port, token)) => PairReply {
            ok: true,
            port: Some(port),
            token: Some(token),
            error: None,
        },
        None => PairReply {
            ok: false,
            port: None,
            token: None,
            error: Some(
                "ClipCloak isn't running \u{2014} open the tray app once to pair.".to_owned(),
            ),
        },
    }
}

/// What has happened on the standard streams.
pub enum HostEvent {
    /// The host was started, or a reply was written.
    Idle,
    /// Four bytes were read.
    Prefix([u8; 4]),
    /// As many bytes as were announced were read.
    Message,
    /// The input has ended, or reading or writing failed.
    Closed,
}

/// What to do next on the standard streams.
pub enum HostAction {
    /// Read four bytes.
    ReadPrefix,
    /// Read this many bytes.
    ReadMessage(u32),
    /// Write the reply.
    WriteReply,
    /// Stop.
    Stop,
}

/// What to do after what has happened: every message is answered once, until a stream
/// is closed.
pub fn host_step(event: HostEvent) -> (r: HostAction)
    ensures
        match event {
            HostEvent::Idle => r is ReadPrefix,
            HostEvent::Prefix(b) => r matches HostAction::ReadMessage(n) && n == length_value(b@),
            HostEvent::Message => r is WriteReply,
            HostEvent::Closed => r is Stop,
        },
{
    match event {
        HostEvent::Idle => HostAction::ReadPrefix,
        HostEvent::Prefix(b) => HostAction::ReadMessage(frame_length(b)),
        HostEvent::Message => HostAction::WriteReply,
        HostEvent::Closed => HostAction::Stop,
    }
}

/// The length stands in front of a message in four bytes, the least significant one first.
pub proof fn law_length_comes_least_significant_first(body: Seq<u8>)
    requires
        body.len() < 0x1_0000_0000,
    ensures
        framed(body)[0] + 0x100 * framed(body)[1] + 0x1_0000 * framed(body)[2] + 0x100_0000
            * framed(body)[3] == body.len(),
        length_value(framed(body)) == framed(body)[0] + 0x100 * framed(body)[1] + 0x1_0000
            * framed(body)[2] + 0x100_0000 * framed(body)[3],
        forall|i: int| 0 <= i < body.len() ==> framed(body)[4 + i] == #[trigger] body[i],
{
    law_frame_is_read_back(body);
    assert forall|i: int| 0 <= i < 4 implies framed(body).take(4)[i] == framed(body)[i] by {}
    assert(framed(body).take(4)[0] == framed(body)[0]);
    assert(framed(body).take(4)[1] == framed(body)[1]);
    assert(framed(body).take(4)[2] == framed(body)[2]);
    assert(framed(body).take(4)[3] == framed(body)[3]);
}

/// Four bytes are read as a length, each worth 256 times the one before it.
pub proof fn law_each_byte_of_a_length_counts(a: u8, b: u8, c: u8, d: u8)
    ensures
        length_value(seq![a, b, c, d]) == a + 256 * (b + 256 * (c + 256 * d)),
{
}

} // verus!
