//! The qsh wire protocol.
//!
//! A session is one bidirectional stream carrying a sequence of frames. Every
//! frame is `[kind: u8][len: u32be][payload: len bytes]`.
//!
//! Structured payloads are postcard-encoded; the three byte-stream payloads
//! (stdin, stdout, stderr) are raw and never transformed in any way: no newline
//! translation, no encoding conversion.

use vstd::prelude::*;
use vstd::utf8::{decode_utf8, encode_utf8, valid_utf8};
use vstd::utf8::{encode_utf8_decode_utf8, encode_utf8_valid_utf8};

use crate::text::{
    decimal, decimal_text, same, strip_prefix, texts, to_upper, uppercase, without_prefix,
};

verus! {

/// Protocol version carried in [`Request`]. Bumped on incompatible changes.
pub const PROTOCOL_VERSION: u32 = 1;

/// Largest accepted frame payload. Data frames are chunked well below this.
pub const MAX_FRAME: usize = 1048576;

/// Chunk size used when forwarding byte streams.
pub const CHUNK: usize = 65536;

/// Stream reset code that marks output the server gave up on: the bytes
/// received so far are not all the bytes that the process wrote.
pub const RESET_ABANDONED: u32 = 1;

/// Number of bytes in front of a frame's payload.
pub const HEADER: usize = 5;

/// ALPN protocol identifier negotiated during the TLS handshake.
pub open spec fn alpn() -> Seq<u8> {
    seq![113u8, 115u8, 104u8, 47u8, 49u8]
}

/// ALPN protocol identifier negotiated during the TLS handshake: `qsh/1`.
pub fn alpn_id() -> (id: Vec<u8>)
    ensures
        id@ == alpn(),
{
    let id: Vec<u8> = vec![113u8, 115u8, 104u8, 47u8, 49u8];
    assert(id@ =~= alpn());
    id
}

/// Terminal geometry, in character cells.
#[derive(Debug, Clone, Copy, PartialEq, Eq, Structural)]
pub struct PtySize {
    pub cols: u16,
    pub rows: u16,
}

impl Default for PtySize {
    fn default() -> (size: PtySize)
        ensures
            size == (PtySize { cols: 80, rows: 24 }),
    {
        PtySize { cols: 80, rows: 24 }
    }
}

/// Request for a pseudo terminal on the remote side.
#[derive(Debug, Clone)]
pub struct PtyRequest {
    pub term: String,
    pub size: PtySize,
}

/// The first frame a client sends. `command == None` means "start my login
/// shell"; otherwise the argv is executed directly, never through `sh -c`.
#[derive(Debug, Clone)]
pub struct Request {
    pub version: u32,
    /// Account the client believes it is logging in as. Purely a cross-check:
    /// the authoritative mapping lives on the server.
    pub user: Option<String>,
    pub command: Option<Vec<String>>,
    pub pty: Option<PtyRequest>,
    pub env: Vec<(String, String)>,
}

/// How the remote process terminated.
#[derive(Debug, Clone, Copy)]
pub struct ExitStatus {
    pub code: i32,
    pub signal: Option<i32>,
}

impl ExitStatus {
    /// The status a shell would report for this termination.
    pub open spec fn shell_status(&self) -> int {
        match self.signal {
            Some(sig) => 128 + sig,
            None => self.code as int,
        }
    }

    /// The status a shell would report for this termination.
    pub fn wait_status(&self) -> (status: i32)
        requires
            self.shell_status() <= i32::MAX,
        ensures
            status == self.shell_status(),
    {
        match self.signal {
            Some(sig) => 128 + sig,
            None => self.code,
        }
    }
}

/// A protocol frame.
#[derive(Debug, Clone)]
pub enum Frame {
    Request(Request),
    /// Server acknowledges that the remote process was started.
    Started,
    Stdin(Vec<u8>),
    Stdout(Vec<u8>),
    Stderr(Vec<u8>),
    StdinEof,
    Resize(PtySize),
    /// Signal name without the `SIG` prefix, e.g. `INT`, `TERM`, `HUP`.
    Signal(String),
    Exit(ExitStatus),
    /// Session could not be established or failed fatally; human-readable.
    Error(String),
}

/// What a [`PtyRequest`] holds.
#[verifier::ext_equal]
pub struct PtyRequestView {
    pub term: Seq<char>,
    pub size: PtySize,
}

/// What a [`Request`] holds.
#[verifier::ext_equal]
pub struct RequestView {
    pub version: u32,
    pub user: Option<Seq<char>>,
    pub command: Option<Seq<Seq<char>>>,
    pub pty: Option<PtyRequestView>,
    pub env: Seq<(Seq<char>, Seq<char>)>,
}

/// What a [`Frame`] holds.
#[verifier::ext_equal]
pub enum FrameView {
    Request(RequestView),
    Started,
    Stdin(Seq<u8>),
    Stdout(Seq<u8>),
    Stderr(Seq<u8>),
    StdinEof,
    Resize(PtySize),
    Signal(Seq<char>),
    Exit(ExitStatus),
    Error(Seq<char>),
}

impl View for PtyRequest {
    type V = PtyRequestView;

    open spec fn view(&self) -> PtyRequestView {
        PtyRequestView { term: self.term@, size: self.size }
    }
}

/// The views of the pairs of `env`.
pub open spec fn pairs(env: Seq<(String, String)>) -> Seq<(Seq<char>, Seq<char>)> {
    env.map_values(|p: (String, String)| (p.0@, p.1@))
}

impl View for Request {
    type V = RequestView;

    open spec fn view(&self) -> RequestView {
        RequestView {
            version: self.version,
            user: match self.user {
                Some(u) => Some(u@),
                None => None,
            },
            command: match self.command {
                Some(c) => Some(texts(c@)),
                None => None,
            },
            pty: match self.pty {
                Some(p) => Some(p@),
                None => None,
            },
            env: pairs(self.env@),
        }
    }
}

impl View for Frame {
    type V = FrameView;

    open spec fn view(&self) -> FrameView {
        match *self {
            Frame::Request(r) => FrameView::Request(r@),
            Frame::Started => FrameView::Started,
            Frame::Stdin(b) => FrameView::Stdin(b@),
            Frame::Stdout(b) => FrameView::Stdout(b@),
            Frame::Stderr(b) => FrameView::Stderr(b@),
            Frame::StdinEof => FrameView::StdinEof,
            Frame::Resize(s) => FrameView::Resize(s),
            Frame::Signal(s) => FrameView::Signal(s@),
            Frame::Exit(s) => FrameView::Exit(s),
            Frame::Error(s) => FrameView::Error(s@),
        }
    }
}

// ---------------------------------------------------------------------------
// The encoding of structured payloads
// ---------------------------------------------------------------------------

/// `n` in groups of seven bits, the lowest first; every byte but the last has
/// its top bit set.
pub open spec fn varint(n: nat) -> Seq<u8>
    decreases n,
{
    if n < 128 {
        seq![n as u8]
    } else {
        seq![(n % 128 + 128) as u8] + varint(n / 128)
    }
}

/// The signed numbers in the order 0, -1, 1, -2, 2, and so on.
pub open spec fn zigzag(n: int) -> nat {
    if n >= 0 {
        (2 * n) as nat
    } else {
        (-2 * n - 1) as nat
    }
}

/// A text: the number of its UTF-8 bytes, then the bytes.
pub open spec fn encoded_text(s: Seq<char>) -> Seq<u8> {
    varint(encode_utf8(s).len()) + encode_utf8(s)
}

/// A list: the number of its items, then the items.
pub open spec fn encoded_list(items: Seq<Seq<u8>>) -> Seq<u8> {
    varint(items.len()) + items.flatten()
}

/// An optional item: 0, or 1 and the item.
pub open spec fn encoded_option(item: Option<Seq<u8>>) -> Seq<u8> {
    match item {
        None => seq![0u8],
        Some(bytes) => seq![1u8] + bytes,
    }
}

/// A terminal size: the columns, then the rows.
pub open spec fn encoded_size(size: PtySize) -> Seq<u8> {
    varint(size.cols as nat) + varint(size.rows as nat)
}

/// An exit status: the code, then the signal.
pub open spec fn encoded_exit(status: ExitStatus) -> Seq<u8> {
    varint(zigzag(status.code as int)) + encoded_option(
        match status.signal {
            None => None,
            Some(sig) => Some(varint(zigzag(sig as int))),
        },
    )
}

/// A request: its fields in the order of their declaration.
pub open spec fn encoded_request(r: RequestView) -> Seq<u8> {
    varint(r.version as nat) + encoded_option(
        match r.user {
            None => None,
            Some(u) => Some(encoded_text(u)),
        },
    ) + encoded_option(
        match r.command {
            None => None,
            Some(c) => Some(encoded_list(c.map_values(|s: Seq<char>| encoded_text(s)))),
        },
    ) + encoded_option(
        match r.pty {
            None => None,
            Some(p) => Some(encoded_text(p.term) + encoded_size(p.size)),
        },
    ) + encoded_list(
        r.env.map_values(|e: (Seq<char>, Seq<char>)| encoded_text(e.0) + encoded_text(e.1)),
    )
}

/// The error of postcard's encoder and decoder.
#[verifier::external_type_specification]
#[verifier::external_body]
pub struct ExPostcardError(postcard::Error);

/// What `postcard::from_bytes` reads as a request, `None` where it fails.
pub uninterp spec fn decoded_request(bytes: Seq<u8>) -> Option<RequestView>;

/// What `postcard::from_bytes` reads as a terminal size, `None` where it fails.
pub uninterp spec fn decoded_size(bytes: Seq<u8>) -> Option<PtySize>;

/// What `postcard::from_bytes` reads as an exit status, `None` where it fails.
pub uninterp spec fn decoded_exit(bytes: Seq<u8>) -> Option<ExitStatus>;

/// `postcard::to_stdvec` on the fields of a request. Writing to a growing
/// vector never fails, and the bytes are the fields' encodings in order.
#[verifier::external_body]
fn request_bytes(r: &Request) -> (out: Result<Vec<u8>, postcard::Error>)
    ensures
        out is Ok,
        out->Ok_0@ == encoded_request(r@),
{
    let pty = r.pty.as_ref().map(|p| (&p.term, (p.size.cols, p.size.rows)));
    postcard::to_stdvec(&(r.version, &r.user, &r.command, pty, &r.env))
}

/// `postcard::to_stdvec` on a terminal size.
#[verifier::external_body]
fn size_bytes(s: &PtySize) -> (out: Result<Vec<u8>, postcard::Error>)
    ensures
        out is Ok,
        out->Ok_0@ == encoded_size(*s),
{
    postcard::to_stdvec(&(s.cols, s.rows))
}

/// `postcard::to_stdvec` on an exit status.
#[verifier::external_body]
fn exit_bytes(s: &ExitStatus) -> (out: Result<Vec<u8>, postcard::Error>)
    ensures
        out is Ok,
        out->Ok_0@ == encoded_exit(*s),
{
    postcard::to_stdvec(&(s.code, s.signal))
}

/// `postcard::from_bytes` at the fields of a request. The result depends on the
/// bytes alone, and the encoding of a request is read as that request.
#[verifier::external_body]
fn request_from(bytes: &[u8]) -> (out: Result<Request, postcard::Error>)
    ensures
        match out {
            Ok(r) => decoded_request(bytes@) == Some(r@),
            Err(_) => decoded_request(bytes@) is None,
        },
        forall|v: RequestView|
            #[trigger] encoded_request(v) == bytes@ ==> out is Ok && out->Ok_0@ == v,
{
    let (version, user, command, pty, env) = postcard::from_bytes(bytes)?;
    let pty: Option<(String, (u16, u16))> = pty;
    let pty = pty.map(|(term, (cols, rows))| PtyRequest { term, size: PtySize { cols, rows } });
    Ok(Request { version, user, command, pty, env })
}

/// `postcard::from_bytes` at a terminal size. The result depends on the bytes
/// alone, and the encoding of a size is read as that size.
#[verifier::external_body]
fn size_from(bytes: &[u8]) -> (out: Result<PtySize, postcard::Error>)
    ensures
        match out {
            Ok(s) => decoded_size(bytes@) == Some(s),
            Err(_) => decoded_size(bytes@) is None,
        },
        forall|v: PtySize|
            #[trigger] encoded_size(v) == bytes@ ==> out is Ok && out->Ok_0 == v,
{
    let (cols, rows) = postcard::from_bytes(bytes)?;
    Ok(PtySize { cols, rows })
}

/// `postcard::from_bytes` at an exit status. The result depends on the bytes
/// alone, and the encoding of a status is read as that status.
#[verifier::external_body]
fn exit_from(bytes: &[u8]) -> (out: Result<ExitStatus, postcard::Error>)
    ensures
        match out {
            Ok(s) => decoded_exit(bytes@) == Some(s),
            Err(_) => decoded_exit(bytes@) is None,
        },
        forall|v: ExitStatus|
            #[trigger] encoded_exit(v) == bytes@ ==> out is Ok && out->Ok_0 == v,
{
    let (code, signal) = postcard::from_bytes(bytes)?;
    Ok(ExitStatus { code, signal })
}

/// The message of a postcard error. Nothing is claimed of its wording.
#[verifier::external_body]
fn postcard_error_text(e: &postcard::Error) -> (out: String) {
    e.to_string()
}

/// `String::from_utf8` succeeds on valid UTF-8 only, and then gives the
/// characters that the bytes encode.
#[verifier::external_body]
pub(crate) fn text_from_utf8(bytes: Vec<u8>) -> (out: Option<String>)
    ensures
        match out {
            Some(s) => valid_utf8(bytes@) && s@ == decode_utf8(bytes@),
            None => !valid_utf8(bytes@),
        },
{
    String::from_utf8(bytes).ok()
}

// ---------------------------------------------------------------------------
// Frames
// ---------------------------------------------------------------------------

/// Why a frame could not be written or read.
#[derive(Debug, Clone)]
pub enum FrameError {
    /// The payload is longer than [`MAX_FRAME`].
    PayloadTooLarge,
    /// The header announces a payload longer than [`MAX_FRAME`].
    TooLong(u32),
    /// The stream ended inside the payload.
    Truncated,
    /// No frame has this kind.
    UnknownKind(u8),
    /// A text payload is not UTF-8.
    NotUtf8,
    /// A structured payload could not be encoded or decoded.
    Malformed(String),
}

impl FrameError {
    /// What the error says.
    pub open spec fn text(&self) -> Seq<char> {
        match *self {
            FrameError::PayloadTooLarge => "frame payload too large"@,
            FrameError::TooLong(len) => "frame of "@ + decimal(len as nat)
                + " bytes exceeds limit"@,
            FrameError::Truncated => "early eof"@,
            FrameError::UnknownKind(kind) => "unknown frame kind "@ + decimal(kind as nat),
            FrameError::NotUtf8 => "payload is not valid UTF-8"@,
            FrameError::Malformed(why) => why@,
        }
    }

    /// What the error says.
    pub fn message(&self) -> (out: String)
        ensures
            out@ == self.text(),
    {
        match self {
            FrameError::PayloadTooLarge => "frame payload too large".to_owned(),
            FrameError::TooLong(len) => {
                let mut out = "frame of ".to_owned();
                out.append(decimal_text(*len as u64).as_str());
                out.append(" bytes exceeds limit");
                out
            },
            FrameError::Truncated => "early eof".to_owned(),
            FrameError::UnknownKind(kind) => {
                let mut out = "unknown frame kind ".to_owned();
                out.append(decimal_text(*kind as u64).as_str());
                out
            },
            FrameError::NotUtf8 => "payload is not valid UTF-8".to_owned(),
            FrameError::Malformed(why) => why.clone(),
        }
    }
}

impl FrameView {
    /// The byte that names the frame's kind.
    pub open spec fn kind(self) -> u8 {
        match self {
            FrameView::Request(_) => 1,
            FrameView::Stdin(_) => 2,
            FrameView::Stdout(_) => 3,
            FrameView::Stderr(_) => 4,
            FrameView::StdinEof => 5,
            FrameView::Resize(_) => 6,
            FrameView::Signal(_) => 7,
            FrameView::Exit(_) => 8,
            FrameView::Error(_) => 9,
            FrameView::Started => 10,
        }
    }

    /// The bytes that follow the frame's header.
    pub open spec fn payload(self) -> Seq<u8> {
        match self {
            FrameView::Request(r) => encoded_request(r),
            FrameView::Stdin(b) => b,
            FrameView::Stdout(b) => b,
            FrameView::Stderr(b) => b,
            FrameView::StdinEof => Seq::empty(),
            FrameView::Resize(s) => encoded_size(s),
            FrameView::Signal(s) => encode_utf8(s),
            FrameView::Exit(s) => encoded_exit(s),
            FrameView::Error(s) => encode_utf8(s),
            FrameView::Started => Seq::empty(),
        }
    }

    /// Is the payload short enough to be sent?
    pub open spec fn fits(self) -> bool {
        self.payload().len() <= MAX_FRAME
    }

    /// The frame on the wire: its kind, the length of its payload, the payload.
    pub open spec fn wire(self) -> Seq<u8> {
        seq![self.kind()] + be32(self.payload().len()) + self.payload()
    }

    /// The frame of this kind with this payload.
    pub open spec fn decoded(kind: u8, payload: Seq<u8>) -> Option<FrameView> {
        if kind == 1 {
            match decoded_request(payload) {
                Some(r) => Some(FrameView::Request(r)),
                None => None,
            }
        } else if kind == 2 {
            Some(FrameView::Stdin(payload))
        } else if kind == 3 {
            Some(FrameView::Stdout(payload))
        } else if kind == 4 {
            Some(FrameView::Stderr(payload))
        } else if kind == 5 {
            Some(FrameView::StdinEof)
        } else if kind == 6 {
            match decoded_size(payload) {
                Some(s) => Some(FrameView::Resize(s)),
                None => None,
            }
        } else if kind == 7 && valid_utf8(payload) {
            Some(FrameView::Signal(decode_utf8(payload)))
        } else if kind == 8 {
            match decoded_exit(payload) {
                Some(s) => Some(FrameView::Exit(s)),
                None => None,
            }
        } else if kind == 9 && valid_utf8(payload) {
            Some(FrameView::Error(decode_utf8(payload)))
        } else if kind == 10 {
            Some(FrameView::Started)
        } else {
            None
        }
    }
}

/// Is `e` the error of a payload that frames of this kind do not have?
pub open spec fn decode_error(kind: u8, e: FrameError) -> bool {
    if kind == 1 || kind == 6 || kind == 8 {
        e is Malformed
    } else if kind == 7 || kind == 9 {
        e is NotUtf8
    } else {
        e == FrameError::UnknownKind(kind)
    }
}

/// `n` in four bytes, the highest first.
pub open spec fn be32(n: nat) -> Seq<u8> {
    seq![
        (n / 16777216 % 256) as u8,
        (n / 65536 % 256) as u8,
        (n / 256 % 256) as u8,
        (n % 256) as u8,
    ]
}

/// The number that the four bytes after the first write, the highest first.
pub open spec fn announced(input: Seq<u8>) -> nat {
    (input[1] as nat) * 16777216 + (input[2] as nat) * 65536 + (input[3] as nat) * 256 + (
    input[4] as nat)
}

impl Frame {
    /// The byte that names the frame's kind.
    pub fn kind(&self) -> (k: u8)
        ensures
            k == self@.kind(),
    {
        match self {
            Frame::Request(_) => 1,
            Frame::Stdin(_) => 2,
            Frame::Stdout(_) => 3,
            Frame::Stderr(_) => 4,
            Frame::StdinEof => 5,
            Frame::Resize(_) => 6,
            Frame::Signal(_) => 7,
            Frame::Exit(_) => 8,
            Frame::Error(_) => 9,
            Frame::Started => 10,
        }
    }

    /// The frame's payload, unless it is too long to be sent.
    pub fn payload(&self) -> (out: Result<Vec<u8>, FrameError>)
        ensures
            match out {
                Ok(bytes) => bytes@ == self@.payload() && self@.fits(),
                Err(e) => !self@.fits() && e is PayloadTooLarge,
            },
    {
        let encoded: Result<Vec<u8>, postcard::Error> = match self {
            Frame::Request(r) => request_bytes(r),
            Frame::Resize(s) => size_bytes(s),
            Frame::Exit(s) => exit_bytes(s),
            Frame::Signal(s) => Ok(bytes_of(s.as_str().as_bytes())),
            Frame::Error(s) => Ok(bytes_of(s.as_str().as_bytes())),
            Frame::Stdin(b) => Ok(bytes_of(b.as_slice())),
            Frame::Stdout(b) => Ok(bytes_of(b.as_slice())),
            Frame::Stderr(b) => Ok(bytes_of(b.as_slice())),
            Frame::Started => Ok(Vec::new()),
            Frame::StdinEof => Ok(Vec::new()),
        };
        match encoded {
            Ok(bytes) => {
                assert(bytes@ =~= self@.payload());
                if bytes.len() > MAX_FRAME {
                    Err(FrameError::PayloadTooLarge)
                } else {
                    Ok(bytes)
                }
            },
            Err(e) => Err(FrameError::Malformed(postcard_error_text(&e))),
        }
    }

    /// The frame of this kind with this payload.
    pub fn decode(kind: u8, payload: Vec<u8>) -> (out: Result<Frame, FrameError>)
        ensures
            match out {
                Ok(f) => FrameView::decoded(kind, payload@) == Some(f@),
                Err(e) => FrameView::decoded(kind, payload@) is None && decode_error(kind, e),
            },
            forall|f: FrameView|
                f.kind() == kind && #[trigger] f.payload() == payload@ ==> out is Ok
                    && FrameView::decoded(kind, payload@) == Some(f),
    {
        let ghost bytes = payload@;
        proof {
            assert forall|s: Seq<char>| #[trigger] encode_utf8(s) == bytes implies valid_utf8(bytes)
                && decode_utf8(bytes) == s by {
                encode_utf8_valid_utf8(s);
                encode_utf8_decode_utf8(s);
            }
        }
        match kind {
            1 => match request_from(payload.as_slice()) {
                Ok(r) => Ok(Frame::Request(r)),
                Err(e) => Err(FrameError::Malformed(postcard_error_text(&e))),
            },
            2 => Ok(Frame::Stdin(payload)),
            3 => Ok(Frame::Stdout(payload)),
            4 => Ok(Frame::Stderr(payload)),
            5 => Ok(Frame::StdinEof),
            6 => match size_from(payload.as_slice()) {
                Ok(s) => Ok(Frame::Resize(s)),
                Err(e) => Err(FrameError::Malformed(postcard_error_text(&e))),
            },
            7 => match text_from_utf8(payload) {
                Some(s) => Ok(Frame::Signal(s)),
                None => Err(FrameError::NotUtf8),
            },
            8 => match exit_from(payload.as_slice()) {
                Ok(s) => Ok(Frame::Exit(s)),
                Err(e) => Err(FrameError::Malformed(postcard_error_text(&e))),
            },
            9 => match text_from_utf8(payload) {
                Some(s) => Ok(Frame::Error(s)),
                None => Err(FrameError::NotUtf8),
            },
            10 => Ok(Frame::Started),
            _ => Err(FrameError::UnknownKind(kind)),
        }
    }
}

/// A copy of `bytes`.
fn bytes_of(bytes: &[u8]) -> (out: Vec<u8>)
    ensures
        out@ == bytes@,
{
    let mut out: Vec<u8> = Vec::new();
    out.extend_from_slice(bytes);
    assert(out@ =~= bytes@);
    out
}

/// Appends a single frame to `out`; a frame that does not fit is refused and
/// leaves `out` as it was.
pub fn write_frame(out: &mut Vec<u8>, frame: &Frame) -> (r: Result<(), FrameError>)
    ensures
        match r {
            Ok(()) => frame@.fits() && final(out)@ == old(out)@ + frame@.wire(),
            Err(e) => !frame@.fits() && e is PayloadTooLarge && final(out)@ == old(out)@,
        },
{
    let mut payload = match frame.payload() {
        Ok(payload) => payload,
        Err(e) => return Err(e),
    };
    let len: u32 = payload.len() as u32;
    let ghost before = out@;
    out.push(frame.kind());
    out.push((len / 16777216) as u8);
    out.push((len / 65536 % 256) as u8);
    out.push((len / 256 % 256) as u8);
    out.push((len % 256) as u8);
    out.append(&mut payload);
    assert(out@ =~= before + frame@.wire());
    Ok(())
}

/// The length of the payload that a frame's header announces.
pub fn payload_len(header: &[u8]) -> (r: Result<usize, FrameError>)
    requires
        header@.len() >= HEADER,
    ensures
        match r {
            Ok(len) => len == announced(header@) && len <= MAX_FRAME,
            Err(e) => announced(header@) > MAX_FRAME && (e matches FrameError::TooLong(n) && n
                == announced(header@)),
        },
{
    let len: u32 = (header[1] as u32) * 16777216 + (header[2] as u32) * 65536 + (header[3] as u32)
        * 256 + (header[4] as u32);
    if len > MAX_FRAME as u32 {
        return Err(FrameError::TooLong(len));
    }
    Ok(len as usize)
}

/// Reads a single frame from the front of `input`, together with the number of
/// bytes it takes. Returns `Ok(None)` at the end of the stream, which is
/// anywhere before the end of a header. Whatever [`write_frame`] wrote is read
/// back as it was, whatever follows it.
pub fn read_frame(input: &[u8]) -> (r: Result<Option<(Frame, usize)>, FrameError>)
    ensures
        input@.len() < HEADER <==> r matches Ok(None),
        input@.len() >= HEADER ==> {
            let len = announced(input@);
            let body = input@.subrange(HEADER as int, HEADER + len);
            match r {
                Ok(None) => false,
                Ok(Some((frame, used))) => {
                    &&& len <= MAX_FRAME
                    &&& HEADER + len <= input@.len()
                    &&& used == HEADER + len
                    &&& FrameView::decoded(input@[0], body) == Some(frame@)
                },
                Err(FrameError::TooLong(n)) => n == len && len > MAX_FRAME,
                Err(FrameError::Truncated) => len <= MAX_FRAME && input@.len() < HEADER + len,
                Err(e) => {
                    &&& len <= MAX_FRAME
                    &&& HEADER + len <= input@.len()
                    &&& FrameView::decoded(input@[0], body) is None
                    &&& decode_error(input@[0], e)
                },
            }
        },
        forall|f: FrameView|
            f.fits() && (#[trigger] f.wire()).is_prefix_of(input@) ==> (r matches Ok(
                Some((g, used)),
            ) && g@ == f && used == f.wire().len()),
{
    if input.len() < HEADER {
        proof {
            assert forall|f: FrameView| f.fits() && (#[trigger] f.wire()).is_prefix_of(
                input@,
            ) implies false by {
                assert(f.wire().len() >= HEADER);
            }
        }
        return Ok(None);
    }
    proof {
        assert forall|f: FrameView| f.fits() && (#[trigger] f.wire()).is_prefix_of(input@) implies {
            &&& f.kind() == input@[0]
            &&& announced(input@) == f.payload().len()
            &&& f.payload() == input@.subrange(HEADER as int, HEADER + announced(input@))
            &&& HEADER + announced(input@) <= input@.len()
        } by {
            lemma_wire_prefix(f, input@);
        }
    }
    let len: usize = match payload_len(input) {
        Ok(len) => len,
        Err(e) => return Err(e),
    };
    if input.len() - HEADER < len {
        return Err(FrameError::Truncated);
    }
    let payload = bytes_of(vstd::slice::slice_subrange(input, HEADER, HEADER + len));
    match Frame::decode(input[0], payload) {
        Ok(frame) => Ok(Some((frame, HEADER + len))),
        Err(e) => Err(e),
    }
}

proof fn lemma_wire_prefix(f: FrameView, input: Seq<u8>)
    requires
        f.fits(),
        f.wire().is_prefix_of(input),
    ensures
        HEADER + announced(input) <= input.len(),
        f.kind() == input[0],
        announced(input) == f.payload().len(),
        f.payload() == input.subrange(HEADER as int, HEADER + announced(input)),
{
    let n = f.payload().len();
    let w = f.wire();
    assert(w.len() == HEADER + n);
    assert(w =~= input.take(w.len() as int));
    assert forall|i: int| 0 <= i < w.len() implies w[i] == input[i] by {
        assert(input.take(w.len() as int)[i] == input[i]);
    }
    assert(w[0] == f.kind());
    assert(w[1] == be32(n)[0] && w[2] == be32(n)[1] && w[3] == be32(n)[2] && w[4] == be32(n)[3]);
    assert(input[1] == (n / 16777216 % 256) as u8);
    assert(input[2] == (n / 65536 % 256) as u8);
    assert(input[3] == (n / 256 % 256) as u8);
    assert(input[4] == (n % 256) as u8);
    assert(announced(input) == n);
    assert forall|i: int| 0 <= i < n implies f.payload()[i] == input[HEADER + i] by {
        assert(w[HEADER + i] == f.payload()[i]);
    }
    assert(f.payload() =~= input.subrange(HEADER as int, HEADER + n));
}

/// The frames one after the other on the wire.
pub open spec fn stream(frames: Seq<FrameView>) -> Seq<u8>
    decreases frames.len(),
{
    if frames.len() == 0 {
        Seq::empty()
    } else {
        frames[0].wire() + stream(frames.drop_first())
    }
}

/// A stream of frames begins with the first of them, and what is left after it
/// is the stream of the others: reading frame by frame gives back the frames
/// that were written, in order, with nothing left over.
pub proof fn law_stream_reads_in_order(frames: Seq<FrameView>)
    requires
        frames.len() > 0,
    ensures
        frames[0].wire().is_prefix_of(stream(frames)),
        stream(frames).skip(frames[0].wire().len() as int) == stream(frames.drop_first()),
        stream(frames.drop_last()) + frames.last().wire() == stream(frames),
    decreases frames.len(),
{
    let w = frames[0].wire();
    assert(stream(frames).take(w.len() as int) =~= w);
    assert(stream(frames).skip(w.len() as int) =~= stream(frames.drop_first()));
    if frames.len() == 1 {
        assert(frames.drop_last() =~= Seq::empty());
        assert(frames.drop_first() =~= Seq::empty());
        assert(stream(frames.drop_first()) =~= Seq::empty());
        assert(stream(frames.drop_last()) + frames.last().wire() =~= stream(frames));
    } else {
        law_stream_reads_in_order(frames.drop_first());
        assert(frames.drop_first().drop_last() =~= frames.drop_last().drop_first());
        assert(frames.drop_last()[0] == frames[0]);
        assert(stream(frames.drop_last()) + frames.last().wire() =~= frames[0].wire() + (stream(
            frames.drop_first().drop_last(),
        ) + frames.drop_first().last().wire()));
    }
}

/// Bytes of the three data streams reach the wire untouched: behind the header
/// stand exactly the bytes that were sent.
pub proof fn law_data_is_sent_untouched(bytes: Seq<u8>)
    ensures
        FrameView::Stdin(bytes).wire().skip(HEADER as int) == bytes,
        FrameView::Stdout(bytes).wire().skip(HEADER as int) == bytes,
        FrameView::Stderr(bytes).wire().skip(HEADER as int) == bytes,
{
    assert(FrameView::Stdin(bytes).wire().skip(HEADER as int) =~= bytes);
    assert(FrameView::Stdout(bytes).wire().skip(HEADER as int) =~= bytes);
    assert(FrameView::Stderr(bytes).wire().skip(HEADER as int) =~= bytes);
}

// ---------------------------------------------------------------------------
// Signals
// ---------------------------------------------------------------------------

/// A signal that a client can ask for by its name.
#[derive(Debug, Clone, Copy, PartialEq, Eq, Structural)]
pub enum Signal {
    Hup,
    Int,
    Quit,
    Ill,
    Abrt,
    Kill,
    Alrm,
    Term,
    Usr1,
    Usr2,
    Pipe,
    Cont,
    Tstp,
    Winch,
}

/// The number of a signal that has the same number on every system.
pub open spec fn fixed_number(s: Signal) -> Option<i32> {
    match s {
        Signal::Hup => Some(1),
        Signal::Int => Some(2),
        Signal::Quit => Some(3),
        Signal::Ill => Some(4),
        Signal::Abrt => Some(6),
        Signal::Kill => Some(9),
        Signal::Alrm => Some(14),
        Signal::Term => Some(15),
        _ => None,
    }
}

/// Can this be the number of the signal? Systems differ in some of them.
pub open spec fn may_number(s: Signal, n: i32) -> bool {
    match fixed_number(s) {
        Some(k) => n == k,
        None => 1 <= n <= 31,
    }
}

/// The constants of `libc`: the number that the system has for each signal. It
/// is one of the ordinary signals, and for eight of them it is the same on every
/// Unix; of the others nothing more is claimed.
#[verifier::external_body]
fn system_number(s: Signal) -> (n: i32)
    ensures
        may_number(s, n),
{
    match s {
        Signal::Hup => libc::SIGHUP, Signal::Int => libc::SIGINT,
        Signal::Quit => libc::SIGQUIT, Signal::Ill => libc::SIGILL,
        Signal::Abrt => libc::SIGABRT, Signal::Kill => libc::SIGKILL,
        Signal::Alrm => libc::SIGALRM, Signal::Term => libc::SIGTERM,
        Signal::Usr1 => libc::SIGUSR1, Signal::Usr2 => libc::SIGUSR2,
        Signal::Pipe => libc::SIGPIPE, Signal::Cont => libc::SIGCONT,
        Signal::Tstp => libc::SIGTSTP, Signal::Winch => libc::SIGWINCH,
    }
}

/// The signal with this name, which is in upper case and has no `SIG` in front.
pub open spec fn bare_signal(n: Seq<char>) -> Option<Signal> {
    if n == "HUP"@ {
        Some(Signal::Hup)
    } else if n == "INT"@ {
        Some(Signal::Int)
    } else if n == "QUIT"@ {
        Some(Signal::Quit)
    } else if n == "ILL"@ {
        Some(Signal::Ill)
    } else if n == "ABRT"@ {
        Some(Signal::Abrt)
    } else if n == "KILL"@ {
        Some(Signal::Kill)
    } else if n == "ALRM"@ {
        Some(Signal::Alrm)
    } else if n == "TERM"@ {
        Some(Signal::Term)
    } else if n == "USR1"@ {
        Some(Signal::Usr1)
    } else if n == "USR2"@ {
        Some(Signal::Usr2)
    } else if n == "PIPE"@ {
        Some(Signal::Pipe)
    } else if n == "CONT"@ {
        Some(Signal::Cont)
    } else if n == "TSTP"@ {
        Some(Signal::Tstp)
    } else if n == "WINCH"@ {
        Some(Signal::Winch)
    } else {
        None
    }
}

/// The signal with this name, with or without `SIG` in front; what follows `SIG`
/// may be in lower case.
pub open spec fn named_signal(name: Seq<char>) -> Option<Signal> {
    match without_prefix(name, "SIG"@) {
        Some(rest) => bare_signal(uppercase(rest)),
        None => bare_signal(uppercase(name)),
    }
}

/// The signal with this name (with or without `SIG` prefix).
pub fn signal_named(name: &str) -> (r: Option<Signal>)
    ensures
        r == named_signal(name@),
{
    let n = match strip_prefix(name, "SIG") {
        Some(rest) => to_upper(rest.as_str()),
        None => to_upper(name),
    };
    let n: &str = n.as_str();
    if same(n, "HUP") {
        Some(Signal::Hup)
    } else if same(n, "INT") {
        Some(Signal::Int)
    } else if same(n, "QUIT") {
        Some(Signal::Quit)
    } else if same(n, "ILL") {
        Some(Signal::Ill)
    } else if same(n, "ABRT") {
        Some(Signal::Abrt)
    } else if same(n, "KILL") {
        Some(Signal::Kill)
    } else if same(n, "ALRM") {
        Some(Signal::Alrm)
    } else if same(n, "TERM") {
        Some(Signal::Term)
    } else if same(n, "USR1") {
        Some(Signal::Usr1)
    } else if same(n, "USR2") {
        Some(Signal::Usr2)
    } else if same(n, "PIPE") {
        Some(Signal::Pipe)
    } else if same(n, "CONT") {
        Some(Signal::Cont)
    } else if same(n, "TSTP") {
        Some(Signal::Tstp)
    } else if same(n, "WINCH") {
        Some(Signal::Winch)
    } else {
        None
    }
}

impl Signal {
    /// The number that the system has for the signal.
    pub fn number(self) -> (n: i32)
        ensures
            may_number(self, n),
    {
        system_number(self)
    }
}

/// Map a signal name (with or without `SIG` prefix) to the number that the
/// system has for it.
pub fn signal_number(name: &str) -> (r: Option<i32>)
    ensures
        match named_signal(name@) {
            Some(s) => r is Some && may_number(s, r->0),
            None => r is None,
        },
{
    match signal_named(name) {
        Some(s) => Some(s.number()),
        None => None,
    }
}

/// The name of a signal, without `SIG` in front.
pub open spec fn signal_name(s: Signal) -> Seq<char> {
    match s {
        Signal::Hup => "HUP"@,
        Signal::Int => "INT"@,
        Signal::Quit => "QUIT"@,
        Signal::Ill => "ILL"@,
        Signal::Abrt => "ABRT"@,
        Signal::Kill => "KILL"@,
        Signal::Alrm => "ALRM"@,
        Signal::Term => "TERM"@,
        Signal::Usr1 => "USR1"@,
        Signal::Usr2 => "USR2"@,
        Signal::Pipe => "PIPE"@,
        Signal::Cont => "CONT"@,
        Signal::Tstp => "TSTP"@,
        Signal::Winch => "WINCH"@,
    }
}

proof fn lemma_bare_signal(s: Signal)
    ensures
        bare_signal(signal_name(s)) == Some(s),
        signal_name(s).len() > 0,
        uppercase(signal_name(s)) == signal_name(s),
        without_prefix(signal_name(s), "SIG"@) is None,
{
    reveal_strlit("SIG");
    reveal_strlit("HUP");
    reveal_strlit("INT");
    reveal_strlit("QUIT");
    reveal_strlit("ILL");
    reveal_strlit("ABRT");
    reveal_strlit("KILL");
    reveal_strlit("ALRM");
    reveal_strlit("TERM");
    reveal_strlit("USR1");
    reveal_strlit("USR2");
    reveal_strlit("PIPE");
    reveal_strlit("CONT");
    reveal_strlit("TSTP");
    reveal_strlit("WINCH");
    assert("HUP"@[0] == 'H' && "INT"@[0] == 'I' && "INT"@[1] == 'N' && "QUIT"@[0] == 'Q');
    assert("ILL"@[0] == 'I' && "ILL"@[1] == 'L' && "ABRT"@[0] == 'A' && "ABRT"@[1] == 'B');
    assert("KILL"@[0] == 'K' && "ALRM"@[0] == 'A' && "ALRM"@[1] == 'L' && "TERM"@[0] == 'T');
    assert("TERM"@[1] == 'E' && "USR1"@[0] == 'U' && "USR2"@[0] == 'U' && "USR1"@[3] == '1');
    assert("USR2"@[3] == '2' && "PIPE"@[0] == 'P' && "CONT"@[0] == 'C' && "TSTP"@[0] == 'T');
    assert("TSTP"@[1] == 'S' && "WINCH"@[0] == 'W');
    let n = signal_name(s);
    assert(uppercase(n) =~= n);
    if "SIG"@.is_prefix_of(n) {
        assert("SIG"@[0] == n.take(3)[0]);
    }
}

/// Every signal goes by its own name, with or without `SIG` in front, and what
/// stands behind that in whatever case; and a name that is no signal's is none.
pub proof fn law_signal_names(s: Signal)
    ensures
        named_signal(signal_name(s)) == Some(s),
        named_signal("SIG"@ + signal_name(s)) == Some(s),
        forall|name: Seq<char>|
            uppercase(name) == signal_name(s) ==> #[trigger] named_signal("SIG"@ + name) == Some(s),
        forall|name: Seq<char>| #[trigger]
            named_signal(name) == Some(s) ==> uppercase(name) == signal_name(s) || (
            "SIG"@.is_prefix_of(name) && uppercase(name.skip(3)) == signal_name(s)),
{
    lemma_bare_signal(s);
    reveal_strlit("SIG");
    let n = signal_name(s);
    assert forall|name: Seq<char>| uppercase(name) == signal_name(s) implies #[trigger] named_signal(
        "SIG"@ + name,
    ) == Some(s) by {
        let full = "SIG"@ + name;
        assert(full.take(3) =~= "SIG"@);
        assert(full.skip(3) =~= name);
    }
    assert(("SIG"@ + n).take(3) =~= "SIG"@);
    assert(("SIG"@ + n).skip(3) =~= n);
    assert forall|name: Seq<char>| #[trigger] named_signal(name) == Some(s) implies uppercase(name)
        == signal_name(s) || ("SIG"@.is_prefix_of(name) && uppercase(name.skip(3))
        == signal_name(s)) by {}
}

/// The kind of a frame tells what it is: no two sorts of frames share one.
pub proof fn law_kinds_differ(a: FrameView, b: FrameView)
    requires
        a.kind() == b.kind(),
    ensures
        a is Request == b is Request,
        a is Started == b is Started,
        a is Stdin == b is Stdin,
        a is Stdout == b is Stdout,
        a is Stderr == b is Stderr,
        a is StdinEof == b is StdinEof,
        a is Resize == b is Resize,
        a is Signal == b is Signal,
        a is Exit == b is Exit,
        a is Error == b is Error,
{
}

/// What a frame looks like on the wire: one byte that names its kind, the length
/// of the payload in four, the highest first, and the payload. Data of up to a
/// mebibyte is carried, and no more; a text is carried as UTF-8; the start and the
/// end of the input carry nothing.
pub proof fn law_wire_format(f: FrameView, data: Seq<u8>, text: Seq<char>)
    requires
        f.fits(),
    ensures
        ({
            let w = f.wire();
            &&& w.len() == 5 + f.payload().len()
            &&& w[1] * 16777216 + w[2] * 65536 + w[3] * 256 + w[4] == f.payload().len()
            &&& w.skip(5) == f.payload()
            &&& w[0] == (match f {
                FrameView::Request(_) => 1int,
                FrameView::Stdin(_) => 2,
                FrameView::Stdout(_) => 3,
                FrameView::Stderr(_) => 4,
                FrameView::StdinEof => 5,
                FrameView::Resize(_) => 6,
                FrameView::Signal(_) => 7,
                FrameView::Exit(_) => 8,
                FrameView::Error(_) => 9,
                FrameView::Started => 10,
            })
            &&& FrameView::Stdin(data).fits() <==> data.len() <= 1048576
            &&& FrameView::Stdout(data).fits() <==> data.len() <= 1048576
            &&& FrameView::Stderr(data).fits() <==> data.len() <= 1048576
            &&& FrameView::Signal(text).payload() == encode_utf8(text)
            &&& FrameView::Error(text).payload() == encode_utf8(text)
            &&& FrameView::StdinEof.payload().len() == 0
            &&& FrameView::Started.payload().len() == 0
        }),
{
    let w = f.wire();
    let n = f.payload().len();
    assert(w[0] == f.kind());
    assert(w[1] == be32(n)[0] && w[2] == be32(n)[1] && w[3] == be32(n)[2] && w[4] == be32(n)[3]);
    assert(w.skip(5) =~= f.payload());
}

/// Whatever bytes a frame of data carries are the data, none added and none
/// left out; text is taken as it was written, if it is text; and a byte that
/// names no kind makes no frame.
pub proof fn law_payloads_are_taken_as_they_are(payload: Seq<u8>, text: Seq<char>, kind: u8)
    ensures
        FrameView::decoded(2, payload) == Some(FrameView::Stdin(payload)),
        FrameView::decoded(3, payload) == Some(FrameView::Stdout(payload)),
        FrameView::decoded(4, payload) == Some(FrameView::Stderr(payload)),
        FrameView::decoded(7, encode_utf8(text)) == Some(FrameView::Signal(text)),
        FrameView::decoded(9, encode_utf8(text)) == Some(FrameView::Error(text)),
        !valid_utf8(payload) ==> FrameView::decoded(7, payload) is None && FrameView::decoded(
            9,
            payload,
        ) is None,
        FrameView::decoded(5, payload) == Some(FrameView::StdinEof),
        FrameView::decoded(10, payload) == Some(FrameView::Started),
        kind == 0 || kind > 10 ==> FrameView::decoded(kind, payload) is None && decode_error(
            kind,
            FrameError::UnknownKind(kind),
        ),
{
    encode_utf8_valid_utf8(text);
    encode_utf8_decode_utf8(text);
}

/// The length that a header announces is the one that was written into it.
pub proof fn law_announced_lengths(kind: u8, n: nat, rest: Seq<u8>)
    requires
        n < 0x1_0000_0000,
    ensures
        announced(seq![kind] + be32(n) + rest) == n,
{
    let input = seq![kind] + be32(n) + rest;
    assert(input[1] == be32(n)[0] && input[2] == be32(n)[1]);
    assert(input[3] == be32(n)[2] && input[4] == be32(n)[3]);
}

} // verus!
