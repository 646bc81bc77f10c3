//! Control-protocol codec: the JSON text frames carried beside the binary
//! terminal stream. Frames are handled as UTF-8 bytes; the encoder emits the
//! canonical form of each message and the decoder accepts the grammar with
//! arbitrary field order, whitespace, and string escapes.

use vstd::prelude::*;

verus! {

pub const QUOTE: u8 = 0x22;
pub const BACKSLASH: u8 = 0x5c;
pub const SLASH: u8 = 0x2f;
pub const LBRACE: u8 = 0x7b;
pub const RBRACE: u8 = 0x7d;
pub const COLON: u8 = 0x3a;
pub const COMMA: u8 = 0x2c;

/// JSON whitespace.
pub open spec fn is_ws(b: u8) -> bool {
    b == 0x20 || b == 0x09 || b == 0x0a || b == 0x0d
}

pub open spec fn is_digit(b: u8) -> bool {
    0x30 <= b <= 0x39
}

/// Spec-level model of a control message; the executable twin is
/// [`ControlMessage`].
pub enum ControlModel {
    Resize { rows: u16, cols: u16 },
    Ping,
    Pong,
    Session { id: Seq<u8> },
    Error { message: Seq<u8> },
    Metrics,
}

/// A control message of the text sub-protocol. String payloads are carried as
/// UTF-8 bytes.
pub enum ControlMessage {
    Resize { rows: u16, cols: u16 },
    Ping,
    Pong,
    Session { id: Vec<u8> },
    Error { message: Vec<u8> },
    Metrics,
}

impl View for ControlMessage {
    type V = ControlModel;

    open spec fn view(&self) -> ControlModel {
        match self {
            ControlMessage::Resize { rows, cols } => ControlModel::Resize {
                rows: *rows,
                cols: *cols,
            },
            ControlMessage::Ping => ControlModel::Ping,
            ControlMessage::Pong => ControlModel::Pong,
            ControlMessage::Session { id } => ControlModel::Session { id: id@ },
            ControlMessage::Error { message } => ControlModel::Error { message: message@ },
            ControlMessage::Metrics => ControlModel::Metrics,
        }
    }
}

// ---------------------------------------------------------------------------
// Field names and command tags, as byte sequences.
// ---------------------------------------------------------------------------

pub open spec fn key_cmd() -> Seq<u8> {
    seq!['c' as u8, 'm' as u8, 'd' as u8]
}

pub open spec fn key_rows() -> Seq<u8> {
    seq!['r' as u8, 'o' as u8, 'w' as u8, 's' as u8]
}

pub open spec fn key_cols() -> Seq<u8> {
    seq!['c' as u8, 'o' as u8, 'l' as u8, 's' as u8]
}

pub open spec fn key_id() -> Seq<u8> {
    seq!['i' as u8, 'd' as u8]
}

pub open spec fn key_message() -> Seq<u8> {
    seq!['m' as u8, 'e' as u8, 's' as u8, 's' as u8, 'a' as u8, 'g' as u8, 'e' as u8]
}

pub open spec fn tag_resize() -> Seq<u8> {
    seq!['r' as u8, 'e' as u8, 's' as u8, 'i' as u8, 'z' as u8, 'e' as u8]
}

pub open spec fn tag_ping() -> Seq<u8> {
    seq!['p' as u8, 'i' as u8, 'n' as u8, 'g' as u8]
}

pub open spec fn tag_pong() -> Seq<u8> {
    seq!['p' as u8, 'o' as u8, 'n' as u8, 'g' as u8]
}

pub open spec fn tag_session() -> Seq<u8> {
    seq!['s' as u8, 'e' as u8, 's' as u8, 's' as u8, 'i' as u8, 'o' as u8, 'n' as u8]
}

pub open spec fn tag_error() -> Seq<u8> {
    seq!['e' as u8, 'r' as u8, 'r' as u8, 'o' as u8, 'r' as u8]
}

pub open spec fn tag_metrics() -> Seq<u8> {
    seq!['m' as u8, 'e' as u8, 't' as u8, 'r' as u8, 'i' as u8, 'c' as u8, 's' as u8]
}

// ---------------------------------------------------------------------------
// Encoding.
// ---------------------------------------------------------------------------

/// Hex digit for one nibble, lowercase.
pub open spec fn hex_digit(n: nat) -> u8
    recommends
        n < 16,
{
    if n < 10 {
        (0x30 + n) as u8
    } else {
        (0x57 + n) as u8
    }
}

/// How one byte of string content appears inside a JSON string: quote and
/// backslash get a two-byte escape, control bytes the six-byte `\u00XX` form,
/// all else stands as itself.
pub open spec fn escape_byte(b: u8) -> Seq<u8> {
    if b == QUOTE {
        seq![BACKSLASH, QUOTE]
    } else if b == BACKSLASH {
        seq![BACKSLASH, BACKSLASH]
    } else if b < 0x20 {
        seq![
            BACKSLASH,
            'u' as u8,
            '0' as u8,
            '0' as u8,
            hex_digit((b / 16) as nat),
            hex_digit((b % 16) as nat),
        ]
    } else {
        seq![b]
    }
}

pub open spec fn escape_bytes(s: Seq<u8>) -> Seq<u8>
    decreases s.len(),
{
    if s.len() == 0 {
        Seq::empty()
    } else {
        escape_byte(s[0]) + escape_bytes(s.drop_first())
    }
}

/// A byte sequence wrapped in quotes verbatim (for fixed names that need no
/// escaping).
pub open spec fn quoted(s: Seq<u8>) -> Seq<u8> {
    seq![QUOTE] + s + seq![QUOTE]
}

/// A JSON string carrying arbitrary content: quotes around the escaped bytes.
pub open spec fn json_string(s: Seq<u8>) -> Seq<u8> {
    seq![QUOTE] + escape_bytes(s) + seq![QUOTE]
}

/// Decimal digits of `n`, no sign, no leading zeros.
pub open spec fn dec_digits(n: nat) -> Seq<u8>
    decreases n,
{
    if n < 10 {
        seq![(0x30 + n) as u8]
    } else {
        dec_digits(n / 10).push((0x30 + n % 10) as u8)
    }
}

/// The canonical wire form of a control message: one JSON object, `cmd` tag
/// first, no whitespace.
pub open spec fn encode_model(m: ControlModel) -> Seq<u8> {
    match m {
        ControlModel::Ping => seq![LBRACE] + quoted(key_cmd()) + seq![COLON] + quoted(tag_ping())
            + seq![RBRACE],
        ControlModel::Pong => seq![LBRACE] + quoted(key_cmd()) + seq![COLON] + quoted(tag_pong())
            + seq![RBRACE],
        ControlModel::Metrics => seq![LBRACE] + quoted(key_cmd()) + seq![COLON] + quoted(
            tag_metrics(),
        ) + seq![RBRACE],
        ControlModel::Resize { rows, cols } => seq![LBRACE] + quoted(key_cmd()) + seq![COLON]
            + quoted(tag_resize()) + seq![COMMA] + quoted(key_rows()) + seq![COLON] + dec_digits(
            rows as nat,
        ) + seq![COMMA] + quoted(key_cols()) + seq![COLON] + dec_digits(cols as nat)
            + seq![RBRACE],
        ControlModel::Session { id } => seq![LBRACE] + quoted(key_cmd()) + seq![COLON] + quoted(
            tag_session(),
        ) + seq![COMMA] + quoted(key_id()) + seq![COLON] + json_string(id) + seq![RBRACE],
        ControlModel::Error { message } => seq![LBRACE] + quoted(key_cmd()) + seq![COLON] + quoted(
            tag_error(),
        ) + seq![COMMA] + quoted(key_message()) + seq![COLON] + json_string(message)
            + seq![RBRACE],
    }
}

proof fn lemma_escape_bytes_snoc(s: Seq<u8>, b: u8)
    ensures
        escape_bytes(s.push(b)) == escape_bytes(s) + escape_byte(b),
    decreases s.len(),
{
    if s.len() == 0 {
        assert(s.push(b).drop_first() =~= Seq::<u8>::empty());
        assert(escape_bytes(Seq::<u8>::empty()) =~= Seq::<u8>::empty());
        assert(s.push(b)[0] == b);
        assert(escape_bytes(s.push(b)) =~= escape_bytes(s) + escape_byte(b));
    } else {
        assert(s.push(b).drop_first() =~= s.drop_first().push(b));
        lemma_escape_bytes_snoc(s.drop_first(), b);
        assert(escape_byte(s[0]) + (escape_bytes(s.drop_first()) + escape_byte(b)) =~= (escape_byte(
            s[0],
        ) + escape_bytes(s.drop_first())) + escape_byte(b));
    }
}

fn hex_digit_exec(n: u8) -> (r: u8)
    requires
        n < 16,
    ensures
        r == hex_digit(n as nat),
{
    if n < 10 {
        0x30 + n
    } else {
        0x57 + n
    }
}

/// Append the escaped form of `s` to `out`.
fn push_escaped(out: &mut Vec<u8>, s: &[u8])
    ensures
        final(out)@ == old(out)@ + escape_bytes(s@),
{
    let n = s.len();
    let mut i: usize = 0;
    proof {
        assert(s@.take(0) =~= Seq::<u8>::empty());
        assert(out@ =~= out@ + escape_bytes(s@.take(0)));
    }
    while i < n
        invariant
            0 <= i <= n,
            n == s@.len(),
            out@ == old(out)@ + escape_bytes(s@.take(i as int)),
        decreases n - i,
    {
        let b = s[i];
        proof {
            assert(s@.take(i as int + 1) =~= s@.take(i as int).push(b));
            lemma_escape_bytes_snoc(s@.take(i as int), b);
        }
        let ghost pre = out@;
        if b == QUOTE {
            out.push(BACKSLASH);
            out.push(QUOTE);
        } else if b == BACKSLASH {
            out.push(BACKSLASH);
            out.push(BACKSLASH);
        } else if b < 0x20 {
            out.push(BACKSLASH);
            out.push('u' as u8);
            out.push('0' as u8);
            out.push('0' as u8);
            out.push(hex_digit_exec(b / 16));
            out.push(hex_digit_exec(b % 16));
        } else {
            out.push(b);
        }
        proof {
            assert(out@ =~= pre + escape_byte(b));
            assert(pre + escape_byte(b) =~= old(out)@ + escape_bytes(s@.take(i as int + 1)));
        }
        i = i + 1;
    }
    proof {
        assert(s@.take(n as int) =~= s@);
    }
}

/// Append the decimal digits of `n` to `out`.
fn push_decimal(out: &mut Vec<u8>, n: u64)
    ensures
        final(out)@ == old(out)@ + dec_digits(n as nat),
    decreases n,
{
    if n < 10 {
        out.push(0x30 + n as u8);
        proof {
            assert(out@ =~= old(out)@ + dec_digits(n as nat));
        }
    } else {
        push_decimal(out, n / 10);
        out.push(0x30 + (n % 10) as u8);
        proof {
            assert(out@ =~= old(out)@ + dec_digits(n as nat));
        }
    }
}

/// Append `name` wrapped in quotes, where `name` is one of the fixed field
/// names or tags below.
fn push_key_cmd(out: &mut Vec<u8>)
    ensures
        final(out)@ == old(out)@ + quoted(key_cmd()),
{
    out.push(QUOTE);
    out.push('c' as u8);
    out.push('m' as u8);
    out.push('d' as u8);
    out.push(QUOTE);
    proof {
        assert(out@ =~= old(out)@ + quoted(key_cmd()));
    }
}

fn push_key_rows(out: &mut Vec<u8>)
    ensures
        final(out)@ == old(out)@ + quoted(key_rows()),
{
    out.push(QUOTE);
    out.push('r' as u8);
    out.push('o' as u8);
    out.push('w' as u8);
    out.push('s' as u8);
    out.push(QUOTE);
    proof {
        assert(out@ =~= old(out)@ + quoted(key_rows()));
    }
}

fn push_key_cols(out: &mut Vec<u8>)
    ensures
        final(out)@ == old(out)@ + quoted(key_cols()),
{
    out.push(QUOTE);
    out.push('c' as u8);
    out.push('o' as u8);
    out.push('l' as u8);
    out.push('s' as u8);
    out.push(QUOTE);
    proof {
        assert(out@ =~= old(out)@ + quoted(key_cols()));
    }
}

fn push_key_id(out: &mut Vec<u8>)
    ensures
        final(out)@ == old(out)@ + quoted(key_id()),
{
    out.push(QUOTE);
    out.push('i' as u8);
    out.push('d' as u8);
    out.push(QUOTE);
    proof {
        assert(out@ =~= old(out)@ + quoted(key_id()));
    }
}

fn push_key_message(out: &mut Vec<u8>)
    ensures
        final(out)@ == old(out)@ + quoted(key_message()),
{
    out.push(QUOTE);
    out.push('m' as u8);
    out.push('e' as u8);
    out.push('s' as u8);
    out.push('s' as u8);
    out.push('a' as u8);
    out.push('g' as u8);
    out.push('e' as u8);
    out.push(QUOTE);
    proof {
        assert(out@ =~= old(out)@ + quoted(key_message()));
    }
}

fn push_tag_resize(out: &mut Vec<u8>)
    ensures
        final(out)@ == old(out)@ + quoted(tag_resize()),
{
    out.push(QUOTE);
    out.push('r' as u8);
    out.push('e' as u8);
    out.push('s' as u8);
    out.push('i' as u8);
    out.push('z' as u8);
    out.push('e' as u8);
    out.push(QUOTE);
    proof {
        assert(out@ =~= old(out)@ + quoted(tag_resize()));
    }
}

fn push_tag_ping(out: &mut Vec<u8>)
    ensures
        final(out)@ == old(out)@ + quoted(tag_ping()),
{
    out.push(QUOTE);
    out.push('p' as u8);
    out.push('i' as u8);
    out.push('n' as u8);
    out.push('g' as u8);
    out.push(QUOTE);
    proof {
        assert(out@ =~= old(out)@ + quoted(tag_ping()));
    }
}

fn push_tag_pong(out: &mut Vec<u8>)
    ensures
        final(out)@ == old(out)@ + quoted(tag_pong()),
{
    out.push(QUOTE);
    out.push('p' as u8);
    out.push('o' as u8);
    out.push('n' as u8);
    out.push('g' as u8);
    out.push(QUOTE);
    proof {
        assert(out@ =~= old(out)@ + quoted(tag_pong()));
    }
}

fn push_tag_session(out: &mut Vec<u8>)
    ensures
        final(out)@ == old(out)@ + quoted(tag_session()),
{
    out.push(QUOTE);
    out.push('s' as u8);
    out.push('e' as u8);
    out.push('s' as u8);
    out.push('s' as u8);
    out.push('i' as u8);
    out.push('o' as u8);
    out.push('n' as u8);
    out.push(QUOTE);
    proof {
        assert(out@ =~= old(out)@ + quoted(tag_session()));
    }
}

fn push_tag_error(out: &mut Vec<u8>)
    ensures
        final(out)@ == old(out)@ + quoted(tag_error()),
{
    out.push(QUOTE);
    out.push('e' as u8);
    out.push('r' as u8);
    out.push('r' as u8);
    out.push('o' as u8);
    out.push('r' as u8);
    out.push(QUOTE);
    proof {
        assert(out@ =~= old(out)@ + quoted(tag_error()));
    }
}

fn push_tag_metrics(out: &mut Vec<u8>)
    ensures
        final(out)@ == old(out)@ + quoted(tag_metrics()),
{
    out.push(QUOTE);
    out.push('m' as u8);
    out.push('e' as u8);
    out.push('t' as u8);
    out.push('r' as u8);
    out.push('i' as u8);
    out.push('c' as u8);
    out.push('s' as u8);
    out.push(QUOTE);
    proof {
        assert(out@ =~= old(out)@ + quoted(tag_metrics()));
    }
}

/// Encode a control message in its canonical wire form.
pub fn encode_control(m: &ControlMessage) -> (r: Vec<u8>)
    ensures
        r@ == encode_model(m@),
{
    let mut out: Vec<u8> = Vec::new();
    out.push(LBRACE);
    match m {
        ControlMessage::Ping => {
            push_key_cmd(&mut out);
            out.push(COLON);
            push_tag_ping(&mut out);
            out.push(RBRACE);
            proof {
                assert(out@ =~= encode_model(m@));
            }
        },
        ControlMessage::Pong => {
            push_key_cmd(&mut out);
            out.push(COLON);
            push_tag_pong(&mut out);
            out.push(RBRACE);
            proof {
                assert(out@ =~= encode_model(m@));
            }
        },
        ControlMessage::Metrics => {
            push_key_cmd(&mut out);
            out.push(COLON);
            push_tag_metrics(&mut out);
            out.push(RBRACE);
            proof {
                assert(out@ =~= encode_model(m@));
            }
        },
        ControlMessage::Resize { rows, cols } => {
            push_key_cmd(&mut out);
            out.push(COLON);
            push_tag_resize(&mut out);
            out.push(COMMA);
            push_key_rows(&mut out);
            out.push(COLON);
            push_decimal(&mut out, *rows as u64);
            out.push(COMMA);
            push_key_cols(&mut out);
            out.push(COLON);
            push_decimal(&mut out, *cols as u64);
            out.push(RBRACE);
            proof {
                assert(out@ =~= encode_model(m@));
            }
        },
        ControlMessage::Session { id } => {
            push_key_cmd(&mut out);
            out.push(COLON);
            push_tag_session(&mut out);
            out.push(COMMA);
            push_key_id(&mut out);
            out.push(COLON);
            out.push(QUOTE);
            push_escaped(&mut out, id.as_slice());
            out.push(QUOTE);
            out.push(RBRACE);
            proof {
                assert(out@ =~= encode_model(m@));
            }
        },
        ControlMessage::Error { message } => {
            push_key_cmd(&mut out);
            out.push(COLON);
            push_tag_error(&mut out);
            out.push(COMMA);
            push_key_message(&mut out);
            out.push(COLON);
            out.push(QUOTE);
            push_escaped(&mut out, message.as_slice());
            out.push(QUOTE);
            out.push(RBRACE);
            proof {
                assert(out@ =~= encode_model(m@));
            }
        },
    }
    out
}

// ---------------------------------------------------------------------------
// The metrics response frame.
// ---------------------------------------------------------------------------

pub open spec fn key_status() -> Seq<u8> {
    seq!['s' as u8, 't' as u8, 'a' as u8, 't' as u8, 'u' as u8, 's' as u8]
}

pub open spec fn val_healthy() -> Seq<u8> {
    seq!['h' as u8, 'e' as u8, 'a' as u8, 'l' as u8, 't' as u8, 'h' as u8, 'y' as u8]
}

pub open spec fn key_uptime_secs() -> Seq<u8> {
    seq![
        'u' as u8,
        'p' as u8,
        't' as u8,
        'i' as u8,
        'm' as u8,
        'e' as u8,
        '_' as u8,
        's' as u8,
        'e' as u8,
        'c' as u8,
        's' as u8,
    ]
}

pub open spec fn key_sessions_active() -> Seq<u8> {
    seq![
        's' as u8,
        'e' as u8,
        's' as u8,
        's' as u8,
        'i' as u8,
        'o' as u8,
        'n' as u8,
        's' as u8,
        '_' as u8,
        'a' as u8,
        'c' as u8,
        't' as u8,
        'i' as u8,
        'v' as u8,
        'e' as u8,
    ]
}

pub open spec fn key_connections_total() -> Seq<u8> {
    seq![
        'c' as u8,
        'o' as u8,
        'n' as u8,
        'n' as u8,
        'e' as u8,
        'c' as u8,
        't' as u8,
        'i' as u8,
        'o' as u8,
        'n' as u8,
        's' as u8,
        '_' as u8,
        't' as u8,
        'o' as u8,
        't' as u8,
        'a' as u8,
        'l' as u8,
    ]
}

/// The snapshot answered to a `metrics` request: a status tag, the uptime,
/// the live session count, and the running connection counter.
pub open spec fn metrics_bytes(uptime_secs: u64, sessions_active: u64, connections_total: u64)
    -> Seq<u8> {
    seq![LBRACE] + quoted(key_status()) + seq![COLON] + quoted(val_healthy()) + seq![COMMA]
        + quoted(key_uptime_secs()) + seq![COLON] + dec_digits(uptime_secs as nat) + seq![COMMA]
        + quoted(key_sessions_active()) + seq![COLON] + dec_digits(sessions_active as nat)
        + seq![COMMA] + quoted(key_connections_total()) + seq![COLON] + dec_digits(
        connections_total as nat,
    ) + seq![RBRACE]
}

fn push_ascii_quoted(out: &mut Vec<u8>, s: &[u8])
    requires
        plain_bytes(s@),
    ensures
        final(out)@ == old(out)@ + quoted(s@),
{
    out.push(QUOTE);
    let n = s.len();
    let mut i: usize = 0;
    while i < n
        invariant
            0 <= i <= n,
            n == s@.len(),
            out@ == old(out)@ + seq![QUOTE] + s@.take(i as int),
        decreases n - i,
    {
        out.push(s[i]);
        proof {
            assert(s@.take(i as int).push(s@[i as int]) =~= s@.take(i as int + 1));
            assert(out@ =~= old(out)@ + seq![QUOTE] + s@.take(i as int + 1));
        }
        i = i + 1;
    }
    out.push(QUOTE);
    proof {
        assert(s@.take(n as int) =~= s@);
        assert(out@ =~= old(out)@ + quoted(s@));
    }
}

fn push_key_status(out: &mut Vec<u8>)
    ensures
        final(out)@ == old(out)@ + quoted(key_status()),
{
    let mut k: Vec<u8> = Vec::new();
    k.push('s' as u8);
    k.push('t' as u8);
    k.push('a' as u8);
    k.push('t' as u8);
    k.push('u' as u8);
    k.push('s' as u8);
    proof {
        assert(k@ =~= key_status());
        assert(plain_bytes(k@));
    }
    push_ascii_quoted(out, k.as_slice());
}

fn push_val_healthy(out: &mut Vec<u8>)
    ensures
        final(out)@ == old(out)@ + quoted(val_healthy()),
{
    let mut k: Vec<u8> = Vec::new();
    k.push('h' as u8);
    k.push('e' as u8);
    k.push('a' as u8);
    k.push('l' as u8);
    k.push('t' as u8);
    k.push('h' as u8);
    k.push('y' as u8);
    proof {
        assert(k@ =~= val_healthy());
        assert(plain_bytes(k@));
    }
    push_ascii_quoted(out, k.as_slice());
}

fn push_key_uptime_secs(out: &mut Vec<u8>)
    ensures
        final(out)@ == old(out)@ + quoted(key_uptime_secs()),
{
    let mut k: Vec<u8> = Vec::new();
    k.push('u' as u8);
    k.push('p' as u8);
    k.push('t' as u8);
    k.push('i' as u8);
    k.push('m' as u8);
    k.push('e' as u8);
    k.push('_' as u8);
    k.push('s' as u8);
    k.push('e' as u8);
    k.push('c' as u8);
    k.push('s' as u8);
    proof {
        assert(k@ =~= key_uptime_secs());
        assert(plain_bytes(k@));
    }
    push_ascii_quoted(out, k.as_slice());
}

fn push_key_sessions_active(out: &mut Vec<u8>)
    ensures
        final(out)@ == old(out)@ + quoted(key_sessions_active()),
{
    let mut k: Vec<u8> = Vec::new();
    k.push('s' as u8);
    k.push('e' as u8);
    k.push('s' as u8);
    k.push('s' as u8);
    k.push('i' as u8);
    k.push('o' as u8);
    k.push('n' as u8);
    k.push('s' as u8);
    k.push('_' as u8);
    k.push('a' as u8);
    k.push('c' as u8);
    k.push('t' as u8);
    k.push('i' as u8);
    k.push('v' as u8);
    k.push('e' as u8);
    proof {
        assert(k@ =~= key_sessions_active());
        assert(plain_bytes(k@));
    }
    push_ascii_quoted(out, k.as_slice());
}

fn push_key_connections_total(out: &mut Vec<u8>)
    ensures
        final(out)@ == old(out)@ + quoted(key_connections_total()),
{
    let mut k: Vec<u8> = Vec::new();
    k.push('c' as u8);
    k.push('o' as u8);
    k.push('n' as u8);
    k.push('n' as u8);
    k.push('e' as u8);
    k.push('c' as u8);
    k.push('t' as u8);
    k.push('i' as u8);
    k.push('o' as u8);
    k.push('n' as u8);
    k.push('s' as u8);
    k.push('_' as u8);
    k.push('t' as u8);
    k.push('o' as u8);
    k.push('t' as u8);
    k.push('a' as u8);
    k.push('l' as u8);
    proof {
        assert(k@ =~= key_connections_total());
        assert(plain_bytes(k@));
    }
    push_ascii_quoted(out, k.as_slice());
}

/// Encode the metrics response frame.
pub fn encode_metrics(uptime_secs: u64, sessions_active: u64, connections_total: u64) -> (r: Vec<
    u8,
>)
    ensures
        r@ == metrics_bytes(uptime_secs, sessions_active, connections_total),
{
    let mut out: Vec<u8> = Vec::new();
    out.push(LBRACE);
    push_key_status(&mut out);
    out.push(COLON);
    push_val_healthy(&mut out);
    out.push(COMMA);
    push_key_uptime_secs(&mut out);
    out.push(COLON);
    push_decimal(&mut out, uptime_secs);
    out.push(COMMA);
    push_key_sessions_active(&mut out);
    out.push(COLON);
    push_decimal(&mut out, sessions_active);
    out.push(COMMA);
    push_key_connections_total(&mut out);
    out.push(COLON);
    push_decimal(&mut out, connections_total);
    out.push(RBRACE);
    proof {
        assert(out@ =~= metrics_bytes(uptime_secs, sessions_active, connections_total));
    }
    out
}

// ---------------------------------------------------------------------------
// Decoding: the grammar, as specification functions over byte sequences.
// Each parser takes the remaining input and yields the parsed value plus the
// leftover input, or nothing when the input does not match.
// ---------------------------------------------------------------------------

/// Value of one hex digit, either case.
pub open spec fn hex_val(b: u8) -> Option<u8> {
    if 0x30 <= b <= 0x39 {
        Some((b - 0x30) as u8)
    } else if 0x61 <= b <= 0x66 {
        Some((b - 0x61 + 10) as u8)
    } else if 0x41 <= b <= 0x46 {
        Some((b - 0x41 + 10) as u8)
    } else {
        None
    }
}

/// UTF-8 encoding of a code point below 0x10000.
pub open spec fn utf8_of(cp: nat) -> Seq<u8>
    recommends
        cp < 0x10000,
{
    if cp < 0x80 {
        seq![cp as u8]
    } else if cp < 0x800 {
        seq![(0xc0 + cp / 64) as u8, (0x80 + cp % 64) as u8]
    } else {
        seq![(0xe0 + cp / 4096) as u8, (0x80 + (cp / 64) % 64) as u8, (0x80 + cp % 64) as u8]
    }
}

/// One string escape, starting at the backslash: the bytes it denotes and the
/// rest of the input. `\uXXXX` is accepted for code points outside the
/// surrogate range; surrogate pairs are not supported.
pub open spec fn parse_escape(s: Seq<u8>) -> Option<(Seq<u8>, Seq<u8>)> {
    if s.len() < 2 || s[0] != BACKSLASH {
        None
    } else {
        let e = s[1];
        if e == QUOTE {
            Some((seq![QUOTE], s.skip(2)))
        } else if e == BACKSLASH {
            Some((seq![BACKSLASH], s.skip(2)))
        } else if e == SLASH {
            Some((seq![SLASH], s.skip(2)))
        } else if e == 'b' as u8 {
            Some((seq![0x08u8], s.skip(2)))
        } else if e == 'f' as u8 {
            Some((seq![0x0cu8], s.skip(2)))
        } else if e == 'n' as u8 {
            Some((seq![0x0au8], s.skip(2)))
        } else if e == 'r' as u8 {
            Some((seq![0x0du8], s.skip(2)))
        } else if e == 't' as u8 {
            Some((seq![0x09u8], s.skip(2)))
        } else if e == 'u' as u8 {
            if s.len() < 6 {
                None
            } else {
                match (hex_val(s[2]), hex_val(s[3]), hex_val(s[4]), hex_val(s[5])) {
                    (Some(h1), Some(h2), Some(h3), Some(h4)) => {
                        let cp = h1 * 4096 + h2 * 256 + h3 * 16 + h4;
                        if 0xd800 <= cp < 0xe000 {
                            None
                        } else {
                            Some((utf8_of(cp as nat), s.skip(6)))
                        }
                    },
                    _ => None,
                }
            }
        } else {
            None
        }
    }
}

/// String contents up to and including the closing quote (the opening quote
/// has been consumed): the decoded bytes and the rest after the quote.
pub open spec fn parse_str_rest(s: Seq<u8>) -> Option<(Seq<u8>, Seq<u8>)>
    decreases s.len(),
    via parse_str_rest_dec
{
    if s.len() == 0 {
        None
    } else if s[0] == QUOTE {
        Some((Seq::empty(), s.drop_first()))
    } else if s[0] == BACKSLASH {
        match parse_escape(s) {
            None => None,
            Some((dec, rest)) => match parse_str_rest(rest) {
                None => None,
                Some((content, rest2)) => Some((dec + content, rest2)),
            },
        }
    } else if s[0] < 0x20 {
        None
    } else {
        match parse_str_rest(s.drop_first()) {
            None => None,
            Some((content, rest2)) => Some((seq![s[0]] + content, rest2)),
        }
    }
}

#[via_fn]
proof fn parse_str_rest_dec(s: Seq<u8>) {
}

/// A whole JSON string, opening quote first.
pub open spec fn parse_string(s: Seq<u8>) -> Option<(Seq<u8>, Seq<u8>)> {
    if s.len() > 0 && s[0] == QUOTE {
        parse_str_rest(s.drop_first())
    } else {
        None
    }
}

/// Longest digit prefix and the rest.
pub open spec fn take_digits(s: Seq<u8>) -> (Seq<u8>, Seq<u8>)
    decreases s.len(),
{
    if s.len() == 0 || !is_digit(s[0]) {
        (Seq::empty(), s)
    } else {
        let tail = take_digits(s.drop_first());
        (seq![s[0]] + tail.0, tail.1)
    }
}

/// Value of a digit string.
pub open spec fn digits_val(d: Seq<u8>) -> nat
    decreases d.len(),
{
    if d.len() == 0 {
        0
    } else {
        (digits_val(d.drop_last()) * 10 + (d.last() - 0x30)) as nat
    }
}

/// A non-negative integer literal: no sign, no leading zero, and at most five
/// digits (the protocol carries nothing beyond terminal geometry).
pub open spec fn parse_number(s: Seq<u8>) -> Option<(nat, Seq<u8>)> {
    let d = take_digits(s).0;
    let r = take_digits(s).1;
    if d.len() == 0 {
        None
    } else if d.len() > 1 && d[0] == 0x30 {
        None
    } else if d.len() > 5 {
        None
    } else {
        Some((digits_val(d), r))
    }
}

/// Input with leading JSON whitespace removed.
pub open spec fn skip_ws(s: Seq<u8>) -> Seq<u8>
    decreases s.len(),
{
    if s.len() > 0 && is_ws(s[0]) {
        skip_ws(s.drop_first())
    } else {
        s
    }
}

/// Spec-level model of a member value; the executable twin is [`JsonValue`].
pub enum JsonValueModel {
    Str(Seq<u8>),
    Num(nat),
}

/// A member value as the decoder materialises it: the control protocol only
/// carries strings and small numbers.
pub enum JsonValue {
    Str(Vec<u8>),
    Num(u32),
}

impl View for JsonValue {
    type V = JsonValueModel;

    open spec fn view(&self) -> JsonValueModel {
        match self {
            JsonValue::Str(v) => JsonValueModel::Str(v@),
            JsonValue::Num(n) => JsonValueModel::Num(*n as nat),
        }
    }
}

pub open spec fn parse_value(s: Seq<u8>) -> Option<(JsonValueModel, Seq<u8>)> {
    if s.len() == 0 {
        None
    } else if s[0] == QUOTE {
        match parse_string(s) {
            Some((c, r)) => Some((JsonValueModel::Str(c), r)),
            None => None,
        }
    } else if is_digit(s[0]) {
        match parse_number(s) {
            Some((n, r)) => Some((JsonValueModel::Num(n), r)),
            None => None,
        }
    } else {
        None
    }
}

/// One `"key" : value` member.
pub open spec fn parse_pair(s: Seq<u8>) -> Option<((Seq<u8>, JsonValueModel), Seq<u8>)> {
    match parse_string(s) {
        None => None,
        Some((k, r)) => {
            let r1 = skip_ws(r);
            if r1.len() > 0 && r1[0] == COLON {
                let r2 = skip_ws(r1.drop_first());
                match parse_value(r2) {
                    None => None,
                    Some((v, r3)) => Some(((k, v), r3)),
                }
            } else {
                None
            }
        },
    }
}

pub proof fn lemma_skip_ws_len(s: Seq<u8>)
    ensures
        skip_ws(s).len() <= s.len(),
    decreases s.len(),
{
    if s.len() > 0 && is_ws(s[0]) {
        lemma_skip_ws_len(s.drop_first());
    }
}

pub proof fn lemma_parse_str_rest_len(s: Seq<u8>)
    ensures
        parse_str_rest(s) matches Some(cr) ==> cr.1.len() < s.len(),
    decreases s.len(),
{
    if s.len() > 0 && s[0] == BACKSLASH {
        match parse_escape(s) {
            Some((dec, rest)) => lemma_parse_str_rest_len(rest),
            None => (),
        }
    } else if s.len() > 0 && s[0] != QUOTE && s[0] >= 0x20 {
        lemma_parse_str_rest_len(s.drop_first());
    }
}

pub proof fn lemma_parse_string_len(s: Seq<u8>)
    ensures
        parse_string(s) matches Some(cr) ==> cr.1.len() < s.len(),
{
    if s.len() > 0 && s[0] == QUOTE {
        lemma_parse_str_rest_len(s.drop_first());
    }
}

pub proof fn lemma_take_digits_len(s: Seq<u8>)
    ensures
        take_digits(s).0.len() + take_digits(s).1.len() == s.len(),
    decreases s.len(),
{
    if s.len() > 0 && is_digit(s[0]) {
        lemma_take_digits_len(s.drop_first());
    }
}

pub proof fn lemma_parse_value_len(s: Seq<u8>)
    ensures
        parse_value(s) matches Some(vr) ==> vr.1.len() < s.len(),
{
    lemma_parse_string_len(s);
    lemma_take_digits_len(s);
}

pub proof fn lemma_parse_pair_len(s: Seq<u8>)
    ensures
        parse_pair(s) matches Some(pr) ==> pr.1.len() < s.len(),
{
    lemma_parse_string_len(s);
    match parse_string(s) {
        Some((k, r)) => {
            lemma_skip_ws_len(r);
            let r1 = skip_ws(r);
            if r1.len() > 0 && r1[0] == COLON {
                lemma_skip_ws_len(r1.drop_first());
                lemma_parse_value_len(skip_ws(r1.drop_first()));
            }
        },
        None => (),
    }
}

/// One or more comma-separated members; the leftover is returned with its
/// leading whitespace already removed.
pub open spec fn parse_pairs(s: Seq<u8>) -> Option<(Seq<(Seq<u8>, JsonValueModel)>, Seq<u8>)>
    decreases s.len(),
    via parse_pairs_dec
{
    match parse_pair(s) {
        None => None,
        Some((p, r)) => {
            let r1 = skip_ws(r);
            if r1.len() > 0 && r1[0] == COMMA {
                let r2 = skip_ws(r1.drop_first());
                match parse_pairs(r2) {
                    None => None,
                    Some((ps, r3)) => Some((seq![p] + ps, r3)),
                }
            } else {
                Some((seq![p], r1))
            }
        },
    }
}

#[via_fn]
proof fn parse_pairs_dec(s: Seq<u8>) {
    lemma_parse_pair_len(s);
    match parse_pair(s) {
        Some((p, r)) => {
            lemma_skip_ws_len(r);
            let r1 = skip_ws(r);
            if r1.len() > 0 && r1[0] == COMMA {
                lemma_skip_ws_len(r1.drop_first());
            }
        },
        None => (),
    }
}

/// A whole frame: exactly one JSON object and nothing but whitespace around
/// it; the members in order of appearance.
pub open spec fn parse_object(s: Seq<u8>) -> Option<Seq<(Seq<u8>, JsonValueModel)>> {
    let t = skip_ws(s);
    if t.len() > 0 && t[0] == LBRACE {
        let u = skip_ws(t.drop_first());
        if u.len() > 0 && u[0] == RBRACE {
            if skip_ws(u.drop_first()).len() == 0 {
                Some(Seq::empty())
            } else {
                None
            }
        } else {
            match parse_pairs(u) {
                None => None,
                Some((ps, r)) => {
                    if r.len() > 0 && r[0] == RBRACE && skip_ws(r.drop_first()).len() == 0 {
                        Some(ps)
                    } else {
                        None
                    }
                },
            }
        }
    } else {
        None
    }
}

// ---------------------------------------------------------------------------
// Interpretation of a parsed object as a control message.
// ---------------------------------------------------------------------------

/// First value under `k`, in order of appearance.
pub open spec fn lookup_pair(ps: Seq<(Seq<u8>, JsonValueModel)>, k: Seq<u8>) -> Option<
    JsonValueModel,
>
    decreases ps.len(),
{
    if ps.len() == 0 {
        None
    } else if ps[0].0 == k {
        Some(ps[0].1)
    } else {
        lookup_pair(ps.drop_first(), k)
    }
}

/// How often `k` occurs among the member names.
pub open spec fn count_key(ps: Seq<(Seq<u8>, JsonValueModel)>, k: Seq<u8>) -> nat
    decreases ps.len(),
{
    if ps.len() == 0 {
        0
    } else {
        count_key(ps.drop_last(), k) + (if ps.last().0 == k {
            1nat
        } else {
            0nat
        })
    }
}

/// The control message a member list denotes: the `cmd` tag picks the
/// variant, its fields must each occur exactly once, unrelated members are
/// ignored.
pub open spec fn interpret_model(ps: Seq<(Seq<u8>, JsonValueModel)>) -> Option<ControlModel> {
    if count_key(ps, key_cmd()) != 1 {
        None
    } else {
        match lookup_pair(ps, key_cmd()) {
            Some(JsonValueModel::Str(tag)) => {
                if tag == tag_ping() {
                    Some(ControlModel::Ping)
                } else if tag == tag_pong() {
                    Some(ControlModel::Pong)
                } else if tag == tag_metrics() {
                    Some(ControlModel::Metrics)
                } else if tag == tag_resize() {
                    if count_key(ps, key_rows()) == 1 && count_key(ps, key_cols()) == 1 {
                        match (lookup_pair(ps, key_rows()), lookup_pair(ps, key_cols())) {
                            (Some(JsonValueModel::Num(r)), Some(JsonValueModel::Num(c))) => {
                                if r <= u16::MAX && c <= u16::MAX {
                                    Some(ControlModel::Resize { rows: r as u16, cols: c as u16 })
                                } else {
                                    None
                                }
                            },
                            _ => None,
                        }
                    } else {
                        None
                    }
                } else if tag == tag_session() {
                    if count_key(ps, key_id()) == 1 {
                        match lookup_pair(ps, key_id()) {
                            Some(JsonValueModel::Str(id)) => Some(ControlModel::Session { id }),
                            _ => None,
                        }
                    } else {
                        None
                    }
                } else if tag == tag_error() {
                    if count_key(ps, key_message()) == 1 {
                        match lookup_pair(ps, key_message()) {
                            Some(JsonValueModel::Str(message)) => Some(
                                ControlModel::Error { message },
                            ),
                            _ => None,
                        }
                    } else {
                        None
                    }
                } else {
                    None
                }
            },
            _ => None,
        }
    }
}

/// What a text frame means: `None` for anything malformed or unknown.
pub open spec fn decode_spec(s: Seq<u8>) -> Option<ControlModel> {
    match parse_object(s) {
        None => None,
        Some(ps) => interpret_model(ps),
    }
}

// ---------------------------------------------------------------------------
// The executable decoder. Each function carries a position into the frame and
// is proved equal to the specification parser on the corresponding suffix.
// ---------------------------------------------------------------------------

/// Powers of ten, to bound the accumulated value of a digit prefix.
pub open spec fn ten_to(n: nat) -> nat
    decreases n,
{
    if n == 0 {
        1
    } else {
        10 * ten_to((n - 1) as nat)
    }
}

proof fn lemma_ten_to_le(a: nat, b: nat)
    requires
        a <= b,
    ensures
        ten_to(a) <= ten_to(b),
    decreases b,
{
    if a < b {
        lemma_ten_to_le(a, (b - 1) as nat);
        assert(ten_to(b) == 10 * ten_to((b - 1) as nat));
        assert(ten_to((b - 1) as nat) >= 1) by {
            lemma_ten_to_pos((b - 1) as nat);
        }
    }
}

proof fn lemma_ten_to_pos(n: nat)
    ensures
        ten_to(n) >= 1,
    decreases n,
{
    if n > 0 {
        lemma_ten_to_pos((n - 1) as nat);
    }
}

fn hex_val_exec(b: u8) -> (r: Option<u8>)
    ensures
        r == hex_val(b),
{
    if 0x30 <= b && b <= 0x39 {
        Some(b - 0x30)
    } else if 0x61 <= b && b <= 0x66 {
        Some(b - 0x61 + 10)
    } else if 0x41 <= b && b <= 0x46 {
        Some(b - 0x41 + 10)
    } else {
        None
    }
}

fn parse_escape_at(s: &[u8], pos: usize) -> (r: Option<(Vec<u8>, usize)>)
    requires
        pos <= s@.len(),
    ensures
        match r {
            Some(vp) => pos < vp.1 <= s@.len() && parse_escape(s@.skip(pos as int)) == Some(
                (vp.0@, s@.skip(vp.1 as int)),
            ),
            None => parse_escape(s@.skip(pos as int)) is None,
        },
{
    let ghost t = s@.skip(pos as int);
    let n = s.len();
    if n - pos < 2 || s[pos] != BACKSLASH {
        proof {
            assert(t.len() < 2 || t[0] != BACKSLASH);
        }
        return None;
    }
    proof {
        assert(t[0] == s@[pos as int]);
        assert(t[1] == s@[pos as int + 1]);
        assert(t.skip(2) =~= s@.skip(pos as int + 2));
    }
    let e = s[pos + 1];
    let mut v: Vec<u8> = Vec::new();
    if e == QUOTE {
        v.push(QUOTE);
        proof {
            assert(v@ =~= seq![QUOTE]);
        }
        return Some((v, pos + 2));
    }
    if e == BACKSLASH {
        v.push(BACKSLASH);
        proof {
            assert(v@ =~= seq![BACKSLASH]);
        }
        return Some((v, pos + 2));
    }
    if e == SLASH {
        v.push(SLASH);
        proof {
            assert(v@ =~= seq![SLASH]);
        }
        return Some((v, pos + 2));
    }
    if e == 'b' as u8 {
        v.push(0x08);
        proof {
            assert(v@ =~= seq![0x08u8]);
        }
        return Some((v, pos + 2));
    }
    if e == 'f' as u8 {
        v.push(0x0c);
        proof {
            assert(v@ =~= seq![0x0cu8]);
        }
        return Some((v, pos + 2));
    }
    if e == 'n' as u8 {
        v.push(0x0a);
        proof {
            assert(v@ =~= seq![0x0au8]);
        }
        return Some((v, pos + 2));
    }
    if e == 'r' as u8 {
        v.push(0x0d);
        proof {
            assert(v@ =~= seq![0x0du8]);
        }
        return Some((v, pos + 2));
    }
    if e == 't' as u8 {
        v.push(0x09);
        proof {
            assert(v@ =~= seq![0x09u8]);
        }
        return Some((v, pos + 2));
    }
    if e != 'u' as u8 {
        return None;
    }
    if n - pos < 6 {
        return None;
    }
    proof {
        assert(t[2] == s@[pos as int + 2]);
        assert(t[3] == s@[pos as int + 3]);
        assert(t[4] == s@[pos as int + 4]);
        assert(t[5] == s@[pos as int + 5]);
        assert(t.skip(6) =~= s@.skip(pos as int + 6));
    }
    let h1 = match hex_val_exec(s[pos + 2]) {
        Some(h) => h,
        None => {
            return None;
        },
    };
    let h2 = match hex_val_exec(s[pos + 3]) {
        Some(h) => h,
        None => {
            return None;
        },
    };
    let h3 = match hex_val_exec(s[pos + 4]) {
        Some(h) => h,
        None => {
            return None;
        },
    };
    let h4 = match hex_val_exec(s[pos + 5]) {
        Some(h) => h,
        None => {
            return None;
        },
    };
    let cp: u32 = (h1 as u32) * 4096 + (h2 as u32) * 256 + (h3 as u32) * 16 + (h4 as u32);
    if 0xd800 <= cp && cp < 0xe000 {
        return None;
    }
    if cp < 0x80 {
        v.push(cp as u8);
        proof {
            assert(v@ =~= utf8_of(cp as nat));
        }
    } else if cp < 0x800 {
        v.push(0xc0 + (cp / 64) as u8);
        v.push(0x80 + (cp % 64) as u8);
        proof {
            assert(v@ =~= utf8_of(cp as nat));
        }
    } else {
        v.push(0xe0 + (cp / 4096) as u8);
        v.push(0x80 + ((cp / 64) % 64) as u8);
        v.push(0x80 + (cp % 64) as u8);
        proof {
            assert(v@ =~= utf8_of(cp as nat));
        }
    }
    Some((v, pos + 6))
}

fn parse_string_at(s: &[u8], pos: usize) -> (r: Option<(Vec<u8>, usize)>)
    requires
        pos <= s@.len(),
    ensures
        match r {
            Some(vp) => pos < vp.1 <= s@.len() && parse_string(s@.skip(pos as int)) == Some(
                (vp.0@, s@.skip(vp.1 as int)),
            ),
            None => parse_string(s@.skip(pos as int)) is None,
        },
{
    let n = s.len();
    if pos >= n || s[pos] != QUOTE {
        proof {
            let t = s@.skip(pos as int);
            assert(t.len() == 0 || t[0] != QUOTE);
        }
        return None;
    }
    proof {
        let t = s@.skip(pos as int);
        assert(t[0] == s@[pos as int]);
        assert(t.drop_first() =~= s@.skip(pos as int + 1));
    }
    let start = pos + 1;
    let mut cur = start;
    let mut out: Vec<u8> = Vec::new();
    loop
        invariant
            pos < start <= cur <= n,
            start == pos + 1,
            n == s@.len(),
            parse_string(s@.skip(pos as int)) == parse_str_rest(s@.skip(start as int)),
            match parse_str_rest(s@.skip(cur as int)) {
                Some(cr) => parse_str_rest(s@.skip(start as int)) == Some(
                    (out@ + cr.0, cr.1),
                ),
                None => parse_str_rest(s@.skip(start as int)) is None,
            },
        decreases n - cur,
    {
        let ghost t = s@.skip(cur as int);
        if cur >= n {
            return None;
        }
        proof {
            assert(t[0] == s@[cur as int]);
            assert(t.drop_first() =~= s@.skip(cur as int + 1));
        }
        let b = s[cur];
        if b == QUOTE {
            proof {
                assert(out@ + Seq::<u8>::empty() =~= out@);
            }
            return Some((out, cur + 1));
        }
        if b == BACKSLASH {
            match parse_escape_at(s, cur) {
                None => {
                    return None;
                },
                Some((dec, p2)) => {
                    let ghost pre = out@;
                    out.extend_from_slice(dec.as_slice());
                    proof {
                        assert(out@ == pre + dec@);
                        let t2 = s@.skip(p2 as int);
                        match parse_str_rest(t2) {
                            Some(cr) => {
                                assert(parse_str_rest(t) == Some(((dec@ + cr.0), cr.1)));
                                assert(pre + (dec@ + cr.0) =~= (pre + dec@) + cr.0);
                            },
                            None => {
                                assert(parse_str_rest(t) is None);
                            },
                        }
                    }
                    cur = p2;
                },
            }
        } else if b < 0x20 {
            return None;
        } else {
            let ghost pre = out@;
            out.push(b);
            proof {
                assert(out@ == pre.push(b));
                let t2 = s@.skip(cur as int + 1);
                match parse_str_rest(t2) {
                    Some(cr) => {
                        assert(parse_str_rest(t) == Some(((seq![b] + cr.0), cr.1)));
                        assert(pre + (seq![b] + cr.0) =~= pre.push(b) + cr.0);
                    },
                    None => {
                        assert(parse_str_rest(t) is None);
                    },
                }
            }
            cur = cur + 1;
        }
    }
}

fn parse_number_at(s: &[u8], pos: usize) -> (r: Option<(u32, usize)>)
    requires
        pos <= s@.len(),
    ensures
        match r {
            Some(vp) => pos < vp.1 <= s@.len() && parse_number(s@.skip(pos as int)) == Some(
                (vp.0 as nat, s@.skip(vp.1 as int)),
            ),
            None => parse_number(s@.skip(pos as int)) is None,
        },
{
    let n = s.len();
    if pos >= n || !(0x30 <= s[pos] && s[pos] <= 0x39) {
        proof {
            let t = s@.skip(pos as int);
            assert(t.len() == 0 || !is_digit(t[0]));
            assert(take_digits(t).0.len() == 0);
        }
        return None;
    }
    let mut cur = pos + 1;
    let mut val: u32 = (s[pos] - 0x30) as u32;
    proof {
        let t = s@.skip(pos as int);
        assert(t[0] == s@[pos as int]);
        assert(t.drop_first() =~= s@.skip(pos as int + 1));
        assert(take_digits(t) == (seq![t[0]] + take_digits(t.drop_first()).0, take_digits(
            t.drop_first(),
        ).1));
        let prefix = s@.subrange(pos as int, pos as int + 1);
        assert(prefix =~= seq![s@[pos as int]]);
        assert(seq![t[0]] + take_digits(t.drop_first()).0 =~= prefix + take_digits(
            t.drop_first(),
        ).0);
        assert(prefix.drop_last() =~= Seq::<u8>::empty());
        assert(digits_val(Seq::<u8>::empty()) == 0);
        assert(digits_val(prefix) == s@[pos as int] - 0x30);
        assert(ten_to(1) == 10) by {
            assert(ten_to(0) == 1);
        }
    }
    while cur < n && 0x30 <= s[cur] && s[cur] <= 0x39
        invariant
            pos < cur <= n,
            n == s@.len(),
            cur - pos <= 5,
            forall|j: int| pos <= j < cur ==> is_digit(s@[j]),
            take_digits(s@.skip(pos as int)) == (
                s@.subrange(pos as int, cur as int) + take_digits(s@.skip(cur as int)).0,
                take_digits(s@.skip(cur as int)).1,
            ),
            val == digits_val(s@.subrange(pos as int, cur as int)),
            val < ten_to((cur - pos) as nat),
        decreases n - cur,
    {
        let ghost t = s@.skip(cur as int);
        proof {
            assert(t[0] == s@[cur as int]);
            assert(t.drop_first() =~= s@.skip(cur as int + 1));
        }
        if cur - pos == 5 {
            // A sixth digit exists, so the digit prefix is longer than five.
            proof {
                assert(take_digits(t).0.len() >= 1);
                assert(take_digits(s@.skip(pos as int)).0.len() > 5);
            }
            return None;
        }
        let d = s[cur];
        proof {
            let prefix = s@.subrange(pos as int, cur as int);
            let prefix2 = s@.subrange(pos as int, cur as int + 1);
            assert(prefix2.drop_last() =~= prefix);
            assert(prefix2.last() == d);
            assert(take_digits(t) == (seq![d] + take_digits(t.drop_first()).0, take_digits(
                t.drop_first(),
            ).1));
            assert(prefix + (seq![d] + take_digits(t.drop_first()).0) =~= prefix2 + take_digits(
                t.drop_first(),
            ).0);
            let k = (cur - pos) as nat;
            lemma_ten_to_le(k, 4);
            assert(ten_to(4) == 10000) by {
                assert(ten_to(0) == 1);
                assert(ten_to(1) == 10);
                assert(ten_to(2) == 100);
                assert(ten_to(3) == 1000);
            }
            assert(ten_to((k + 1) as nat) == 10 * ten_to(k));
        }
        val = val * 10 + (d - 0x30) as u32;
        cur = cur + 1;
    }
    proof {
        let t = s@.skip(cur as int);
        assert(t.len() == 0 || !is_digit(t[0]));
        assert(take_digits(t) == (Seq::<u8>::empty(), t));
        let prefix = s@.subrange(pos as int, cur as int);
        assert(prefix + Seq::<u8>::empty() =~= prefix);
        assert(take_digits(s@.skip(pos as int)).0 == prefix);
        assert(prefix.len() >= 1);
        assert(prefix[0] == s@[pos as int]);
    }
    if cur - pos > 1 && s[pos] == 0x30 {
        return None;
    }
    Some((val, cur))
}

/// Position of the first byte at or after `pos` that is not JSON whitespace.
fn skip_ws_at(s: &[u8], pos: usize) -> (r: usize)
    requires
        pos <= s@.len(),
    ensures
        pos <= r <= s@.len(),
        s@.skip(r as int) == skip_ws(s@.skip(pos as int)),
    decreases s@.len() - pos,
{
    let n = s.len();
    if pos < n {
        let b = s[pos];
        proof {
            let t = s@.skip(pos as int);
            assert(t[0] == s@[pos as int]);
            assert(t.drop_first() =~= s@.skip(pos as int + 1));
        }
        if b == 0x20 || b == 0x09 || b == 0x0a || b == 0x0d {
            return skip_ws_at(s, pos + 1);
        }
    }
    pos
}

fn parse_value_at(s: &[u8], pos: usize) -> (r: Option<(JsonValue, usize)>)
    requires
        pos <= s@.len(),
    ensures
        match r {
            Some(vp) => pos < vp.1 <= s@.len() && parse_value(s@.skip(pos as int)) == Some(
                (vp.0@, s@.skip(vp.1 as int)),
            ),
            None => parse_value(s@.skip(pos as int)) is None,
        },
{
    let n = s.len();
    if pos >= n {
        return None;
    }
    proof {
        assert(s@.skip(pos as int)[0] == s@[pos as int]);
    }
    let b = s[pos];
    if b == QUOTE {
        match parse_string_at(s, pos) {
            Some((v, p)) => Some((JsonValue::Str(v), p)),
            None => None,
        }
    } else if 0x30 <= b && b <= 0x39 {
        match parse_number_at(s, pos) {
            Some((v, p)) => Some((JsonValue::Num(v), p)),
            None => None,
        }
    } else {
        None
    }
}

/// The members of an executable pair list, as the specification sees them.
pub open spec fn pairs_view(v: Seq<(Vec<u8>, JsonValue)>) -> Seq<(Seq<u8>, JsonValueModel)> {
    Seq::new(v.len(), |i: int| (v[i].0@, v[i].1@))
}

fn parse_pair_at(s: &[u8], pos: usize) -> (r: Option<((Vec<u8>, JsonValue), usize)>)
    requires
        pos <= s@.len(),
    ensures
        match r {
            Some(vp) => pos < vp.1 <= s@.len() && parse_pair(s@.skip(pos as int)) == Some(
                ((vp.0.0@, vp.0.1@), s@.skip(vp.1 as int)),
            ),
            None => parse_pair(s@.skip(pos as int)) is None,
        },
{
    let k = match parse_string_at(s, pos) {
        Some(kp) => kp,
        None => {
            return None;
        },
    };
    let p1 = skip_ws_at(s, k.1);
    proof {
        assert(p1 < s@.len() ==> s@.skip(p1 as int)[0] == s@[p1 as int]);
    }
    if p1 >= s.len() || s[p1] != COLON {
        return None;
    }
    proof {
        assert(s@.skip(p1 as int).drop_first() =~= s@.skip(p1 as int + 1));
    }
    let p2 = skip_ws_at(s, p1 + 1);
    match parse_value_at(s, p2) {
        Some((v, p3)) => Some(((k.0, v), p3)),
        None => None,
    }
}

fn parse_pairs_at(s: &[u8], pos: usize) -> (r: Option<(Vec<(Vec<u8>, JsonValue)>, usize)>)
    requires
        pos <= s@.len(),
    ensures
        match r {
            Some(vp) => pos <= vp.1 <= s@.len() && parse_pairs(s@.skip(pos as int)) == Some(
                (pairs_view(vp.0@), s@.skip(vp.1 as int)),
            ),
            None => parse_pairs(s@.skip(pos as int)) is None,
        },
{
    let n = s.len();
    let mut acc: Vec<(Vec<u8>, JsonValue)> = Vec::new();
    let mut cur = pos;
    loop
        invariant
            pos <= cur <= n,
            n == s@.len(),
            match parse_pairs(s@.skip(cur as int)) {
                Some(pr) => parse_pairs(s@.skip(pos as int)) == Some(
                    (pairs_view(acc@) + pr.0, pr.1),
                ),
                None => parse_pairs(s@.skip(pos as int)) is None,
            },
        decreases n - cur,
    {
        let pair = match parse_pair_at(s, cur) {
            Some(p) => p,
            None => {
                return None;
            },
        };
        let ghost t = s@.skip(cur as int);
        let ghost pre = acc@;
        acc.push(pair.0);
        let p1 = skip_ws_at(s, pair.1);
        proof {
            assert(pairs_view(acc@) =~= pairs_view(pre).push((pair.0.0@, pair.0.1@)));
        }
        if p1 < n && s[p1] == COMMA {
            proof {
                assert(s@.skip(p1 as int)[0] == s@[p1 as int]);
                assert(s@.skip(p1 as int).drop_first() =~= s@.skip(p1 as int + 1));
            }
            let p2 = skip_ws_at(s, p1 + 1);
            proof {
                match parse_pairs(s@.skip(p2 as int)) {
                    Some(pr) => {
                        assert(parse_pairs(t) == Some(
                            (seq![(pair.0.0@, pair.0.1@)] + pr.0, pr.1),
                        ));
                        assert(pairs_view(pre) + (seq![(pair.0.0@, pair.0.1@)] + pr.0)
                            =~= pairs_view(acc@) + pr.0);
                    },
                    None => {
                        assert(parse_pairs(t) is None);
                    },
                }
            }
            cur = p2;
        } else {
            proof {
                let t1 = s@.skip(p1 as int);
                assert(t1.len() == 0 || t1[0] != COMMA);
                assert(parse_pairs(t) == Some((seq![(pair.0.0@, pair.0.1@)], t1)));
                assert(pairs_view(pre) + seq![(pair.0.0@, pair.0.1@)] =~= pairs_view(acc@));
                assert(pairs_view(acc@) + Seq::<(Seq<u8>, JsonValueModel)>::empty() =~= pairs_view(
                    acc@,
                ));
            }
            return Some((acc, p1));
        }
    }
}

/// Parse one whole frame into its member list, or nothing when the frame is
/// not a single well-formed object.
fn parse_object_frame(s: &[u8]) -> (r: Option<Vec<(Vec<u8>, JsonValue)>>)
    ensures
        match r {
            Some(v) => parse_object(s@) == Some(pairs_view(v@)),
            None => parse_object(s@) is None,
        },
{
    let n = s.len();
    proof {
        assert(s@.skip(0) =~= s@);
    }
    let p0 = skip_ws_at(s, 0);
    if p0 >= n || s[p0] != LBRACE {
        proof {
            let t = skip_ws(s@);
            assert(p0 < n ==> t[0] == s@[p0 as int]);
        }
        return None;
    }
    proof {
        assert(skip_ws(s@)[0] == s@[p0 as int]);
        assert(skip_ws(s@).drop_first() =~= s@.skip(p0 as int + 1));
    }
    let p1 = skip_ws_at(s, p0 + 1);
    if p1 < n && s[p1] == RBRACE {
        proof {
            let u = skip_ws(s@.skip(p0 as int + 1));
            assert(u[0] == s@[p1 as int]);
            assert(u.drop_first() =~= s@.skip(p1 as int + 1));
        }
        let p2 = skip_ws_at(s, p1 + 1);
        if p2 == n {
            proof {
                assert(pairs_view(Seq::<(Vec<u8>, JsonValue)>::empty()) =~= Seq::<
                    (Seq<u8>, JsonValueModel),
                >::empty());
            }
            return Some(Vec::new());
        } else {
            return None;
        }
    }
    proof {
        let u = skip_ws(s@.skip(p0 as int + 1));
        assert(u.len() == 0 || u[0] != RBRACE) by {
            if u.len() > 0 {
                assert(u[0] == s@[p1 as int]);
            }
        }
    }
    let pairs = match parse_pairs_at(s, p1) {
        Some(pr) => pr,
        None => {
            return None;
        },
    };
    let p2 = pairs.1;
    proof {
        assert(p2 < n ==> s@.skip(p2 as int)[0] == s@[p2 as int]);
    }
    if p2 >= n || s[p2] != RBRACE {
        return None;
    }
    proof {
        assert(s@.skip(p2 as int).drop_first() =~= s@.skip(p2 as int + 1));
    }
    let p3 = skip_ws_at(s, p2 + 1);
    if p3 == n {
        Some(pairs.0)
    } else {
        None
    }
}

// ---------------------------------------------------------------------------
// Interpreting the member list.
// ---------------------------------------------------------------------------

/// The field names the interpreter looks up.
#[derive(Clone, Copy)]
enum KeyName {
    Cmd,
    Rows,
    Cols,
    Id,
    Message,
}

spec fn key_name_bytes(k: KeyName) -> Seq<u8> {
    match k {
        KeyName::Cmd => key_cmd(),
        KeyName::Rows => key_rows(),
        KeyName::Cols => key_cols(),
        KeyName::Id => key_id(),
        KeyName::Message => key_message(),
    }
}

fn key_matches(k: KeyName, b: &Vec<u8>) -> (r: bool)
    ensures
        r == (b@ == key_name_bytes(k)),
{
    let r = match k {
        KeyName::Cmd => b.len() == 3 && b[0] == 'c' as u8 && b[1] == 'm' as u8 && b[2]
            == 'd' as u8,
        KeyName::Rows => b.len() == 4 && b[0] == 'r' as u8 && b[1] == 'o' as u8 && b[2]
            == 'w' as u8 && b[3] == 's' as u8,
        KeyName::Cols => b.len() == 4 && b[0] == 'c' as u8 && b[1] == 'o' as u8 && b[2]
            == 'l' as u8 && b[3] == 's' as u8,
        KeyName::Id => b.len() == 2 && b[0] == 'i' as u8 && b[1] == 'd' as u8,
        KeyName::Message => b.len() == 7 && b[0] == 'm' as u8 && b[1] == 'e' as u8 && b[2]
            == 's' as u8 && b[3] == 's' as u8 && b[4] == 'a' as u8 && b[5] == 'g' as u8 && b[6]
            == 'e' as u8,
    };
    proof {
        if r {
            assert(b@ =~= key_name_bytes(k));
        }
    }
    r
}

/// The command tags the protocol knows.
#[derive(Clone, Copy)]
enum TagName {
    Resize,
    Ping,
    Pong,
    Session,
    Error,
    Metrics,
}

spec fn tag_name_bytes(t: TagName) -> Seq<u8> {
    match t {
        TagName::Resize => tag_resize(),
        TagName::Ping => tag_ping(),
        TagName::Pong => tag_pong(),
        TagName::Session => tag_session(),
        TagName::Error => tag_error(),
        TagName::Metrics => tag_metrics(),
    }
}

fn tag_matches(t: TagName, b: &Vec<u8>) -> (r: bool)
    ensures
        r == (b@ == tag_name_bytes(t)),
{
    let r = match t {
        TagName::Resize => b.len() == 6 && b[0] == 'r' as u8 && b[1] == 'e' as u8 && b[2]
            == 's' as u8 && b[3] == 'i' as u8 && b[4] == 'z' as u8 && b[5] == 'e' as u8,
        TagName::Ping => b.len() == 4 && b[0] == 'p' as u8 && b[1] == 'i' as u8 && b[2]
            == 'n' as u8 && b[3] == 'g' as u8,
        TagName::Pong => b.len() == 4 && b[0] == 'p' as u8 && b[1] == 'o' as u8 && b[2]
            == 'n' as u8 && b[3] == 'g' as u8,
        TagName::Session => b.len() == 7 && b[0] == 's' as u8 && b[1] == 'e' as u8 && b[2]
            == 's' as u8 && b[3] == 's' as u8 && b[4] == 'i' as u8 && b[5] == 'o' as u8 && b[6]
            == 'n' as u8,
        TagName::Error => b.len() == 5 && b[0] == 'e' as u8 && b[1] == 'r' as u8 && b[2]
            == 'r' as u8 && b[3] == 'o' as u8 && b[4] == 'r' as u8,
        TagName::Metrics => b.len() == 7 && b[0] == 'm' as u8 && b[1] == 'e' as u8 && b[2]
            == 't' as u8 && b[3] == 'r' as u8 && b[4] == 'i' as u8 && b[5] == 'c' as u8 && b[6]
            == 's' as u8,
    };
    proof {
        if r {
            assert(b@ =~= tag_name_bytes(t));
        }
    }
    r
}

proof fn lemma_lookup_first(ps: Seq<(Seq<u8>, JsonValueModel)>, k: Seq<u8>, i: int)
    requires
        0 <= i < ps.len(),
        ps[i].0 == k,
        forall|j: int| 0 <= j < i ==> ps[j].0 != k,
    ensures
        lookup_pair(ps, k) == Some(ps[i].1),
    decreases ps.len(),
{
    if i > 0 {
        lemma_lookup_first(ps.drop_first(), k, i - 1);
    }
}

proof fn lemma_lookup_absent(ps: Seq<(Seq<u8>, JsonValueModel)>, k: Seq<u8>)
    requires
        forall|j: int| 0 <= j < ps.len() ==> ps[j].0 != k,
    ensures
        lookup_pair(ps, k) is None,
    decreases ps.len(),
{
    if ps.len() > 0 {
        lemma_lookup_absent(ps.drop_first(), k);
    }
}

/// Index of the first member named `k`, if any.
fn find_key(pairs: &Vec<(Vec<u8>, JsonValue)>, k: KeyName) -> (r: Option<usize>)
    ensures
        match r {
            Some(i) => i < pairs@.len() && lookup_pair(pairs_view(pairs@), key_name_bytes(k))
                == Some(pairs@[i as int].1@),
            None => lookup_pair(pairs_view(pairs@), key_name_bytes(k)) is None,
        },
{
    let n = pairs.len();
    let mut i: usize = 0;
    while i < n
        invariant
            0 <= i <= n,
            n == pairs@.len(),
            forall|j: int| 0 <= j < i ==> pairs_view(pairs@)[j].0 != key_name_bytes(k),
        decreases n - i,
    {
        if key_matches(k, &pairs[i].0) {
            proof {
                lemma_lookup_first(pairs_view(pairs@), key_name_bytes(k), i as int);
            }
            return Some(i);
        }
        i = i + 1;
    }
    proof {
        lemma_lookup_absent(pairs_view(pairs@), key_name_bytes(k));
    }
    None
}

/// How many members are named `k`.
fn count_key_exec(pairs: &Vec<(Vec<u8>, JsonValue)>, k: KeyName) -> (r: usize)
    ensures
        r as nat == count_key(pairs_view(pairs@), key_name_bytes(k)),
{
    let n = pairs.len();
    let mut cnt: usize = 0;
    let mut i: usize = 0;
    proof {
        assert(pairs_view(pairs@).take(0) =~= Seq::<(Seq<u8>, JsonValueModel)>::empty());
    }
    while i < n
        invariant
            0 <= i <= n,
            cnt <= i,
            n == pairs@.len(),
            cnt as nat == count_key(pairs_view(pairs@).take(i as int), key_name_bytes(k)),
        decreases n - i,
    {
        proof {
            assert(pairs_view(pairs@).take(i as int + 1).drop_last() =~= pairs_view(pairs@).take(
                i as int,
            ));
        }
        if key_matches(k, &pairs[i].0) {
            cnt = cnt + 1;
        }
        i = i + 1;
    }
    proof {
        assert(pairs_view(pairs@).take(n as int) =~= pairs_view(pairs@));
    }
    cnt
}

/// The control message a member list denotes; mirrors [`interpret_model`].
fn interpret_pairs(pairs: &Vec<(Vec<u8>, JsonValue)>) -> (r: Option<ControlMessage>)
    ensures
        r is Some <==> interpret_model(pairs_view(pairs@)) is Some,
        r matches Some(m) ==> interpret_model(pairs_view(pairs@)) == Some(m@),
{
    if count_key_exec(pairs, KeyName::Cmd) != 1 {
        return None;
    }
    let ci = match find_key(pairs, KeyName::Cmd) {
        Some(i) => i,
        None => {
            return None;
        },
    };
    let tag = match &pairs[ci].1 {
        JsonValue::Str(v) => v,
        JsonValue::Num(_) => {
            return None;
        },
    };
    if tag_matches(TagName::Ping, tag) {
        Some(ControlMessage::Ping)
    } else if tag_matches(TagName::Pong, tag) {
        Some(ControlMessage::Pong)
    } else if tag_matches(TagName::Metrics, tag) {
        Some(ControlMessage::Metrics)
    } else if tag_matches(TagName::Resize, tag) {
        if count_key_exec(pairs, KeyName::Rows) != 1 || count_key_exec(pairs, KeyName::Cols) != 1 {
            return None;
        }
        let ri = match find_key(pairs, KeyName::Rows) {
            Some(i) => i,
            None => {
                return None;
            },
        };
        let cli = match find_key(pairs, KeyName::Cols) {
            Some(i) => i,
            None => {
                return None;
            },
        };
        let rv = match &pairs[ri].1 {
            JsonValue::Num(v) => *v,
            JsonValue::Str(_) => {
                return None;
            },
        };
        let cv = match &pairs[cli].1 {
            JsonValue::Num(v) => *v,
            JsonValue::Str(_) => {
                return None;
            },
        };
        if rv <= 65535 && cv <= 65535 {
            Some(ControlMessage::Resize { rows: rv as u16, cols: cv as u16 })
        } else {
            None
        }
    } else if tag_matches(TagName::Session, tag) {
        if count_key_exec(pairs, KeyName::Id) != 1 {
            return None;
        }
        let ii = match find_key(pairs, KeyName::Id) {
            Some(i) => i,
            None => {
                return None;
            },
        };
        match &pairs[ii].1 {
            JsonValue::Str(v) => Some(
                ControlMessage::Session { id: vstd::slice::slice_to_vec(v.as_slice()) },
            ),
            JsonValue::Num(_) => None,
        }
    } else if tag_matches(TagName::Error, tag) {
        if count_key_exec(pairs, KeyName::Message) != 1 {
            return None;
        }
        let mi = match find_key(pairs, KeyName::Message) {
            Some(i) => i,
            None => {
                return None;
            },
        };
        match &pairs[mi].1 {
            JsonValue::Str(v) => Some(
                ControlMessage::Error { message: vstd::slice::slice_to_vec(v.as_slice()) },
            ),
            JsonValue::Num(_) => None,
        }
    } else {
        None
    }
}

// ---------------------------------------------------------------------------
// Round trip: decoding a canonical encoding yields the encoded message.
// ---------------------------------------------------------------------------

/// Bytes that stand for themselves inside a JSON string.
pub open spec fn plain_bytes(s: Seq<u8>) -> bool {
    forall|i: int| 0 <= i < s.len() ==> s[i] != QUOTE && s[i] != BACKSLASH && s[i] >= 0x20
}

proof fn lemma_escape_plain(s: Seq<u8>)
    requires
        plain_bytes(s),
    ensures
        escape_bytes(s) == s,
    decreases s.len(),
{
    if s.len() > 0 {
        lemma_escape_plain(s.drop_first());
        assert(escape_byte(s[0]) =~= seq![s[0]]);
        assert(seq![s[0]] + s.drop_first() =~= s);
    }
}

proof fn lemma_hex_val_digit(n: nat)
    requires
        n < 16,
    ensures
        hex_val(hex_digit(n)) == Some(n as u8),
{
}

proof fn lemma_str_rest_roundtrip(content: Seq<u8>, rest: Seq<u8>)
    ensures
        parse_str_rest(escape_bytes(content) + seq![QUOTE] + rest) == Some((content, rest)),
    decreases content.len(),
{
    let input = escape_bytes(content) + seq![QUOTE] + rest;
    if content.len() == 0 {
        assert(escape_bytes(content) =~= Seq::<u8>::empty());
        assert(input[0] == QUOTE);
        assert(input.drop_first() =~= rest);
    } else {
        let c0 = content[0];
        let tail = content.drop_first();
        lemma_str_rest_roundtrip(tail, rest);
        let inner = escape_bytes(tail) + seq![QUOTE] + rest;
        assert(input =~= escape_byte(c0) + inner);
        if c0 == QUOTE {
            assert(input[0] == BACKSLASH);
            assert(input[1] == QUOTE);
            assert(input.skip(2) =~= inner);
            assert(parse_escape(input) == Some((seq![QUOTE], inner)));
            assert(seq![QUOTE] + tail =~= content);
        } else if c0 == BACKSLASH {
            assert(input[0] == BACKSLASH);
            assert(input[1] == BACKSLASH);
            assert(input.skip(2) =~= inner);
            assert(parse_escape(input) == Some((seq![BACKSLASH], inner)));
            assert(seq![BACKSLASH] + tail =~= content);
        } else if c0 < 0x20 {
            assert(input[0] == BACKSLASH);
            assert(input[1] == 'u' as u8);
            assert(input[2] == '0' as u8);
            assert(input[3] == '0' as u8);
            assert(input[4] == hex_digit((c0 / 16) as nat));
            assert(input[5] == hex_digit((c0 % 16) as nat));
            assert(input.skip(6) =~= inner);
            assert(hex_val('0' as u8) == Some(0u8));
            lemma_hex_val_digit((c0 / 16) as nat);
            lemma_hex_val_digit((c0 % 16) as nat);
            let cp = (c0 / 16) * 16 + (c0 % 16);
            vstd::arithmetic::div_mod::lemma_fundamental_div_mod(c0 as int, 16);
            assert(cp == c0);
            assert(utf8_of(cp as nat) =~= seq![c0]);
            assert(parse_escape(input) == Some((seq![c0], inner)));
            assert(seq![c0] + tail =~= content);
        } else {
            assert(input[0] == c0);
            assert(input.drop_first() =~= inner);
            assert(seq![c0] + tail =~= content);
        }
    }
}

proof fn lemma_string_roundtrip(content: Seq<u8>, rest: Seq<u8>)
    ensures
        parse_string(json_string(content) + rest) == Some((content, rest)),
{
    let input = json_string(content) + rest;
    assert(input[0] == QUOTE);
    assert(input.drop_first() =~= escape_bytes(content) + seq![QUOTE] + rest);
    lemma_str_rest_roundtrip(content, rest);
}

proof fn lemma_dec_digits_are_digits(n: nat)
    ensures
        dec_digits(n).len() >= 1,
        forall|i: int| 0 <= i < dec_digits(n).len() ==> is_digit(#[trigger] dec_digits(n)[i]),
        n >= 10 ==> dec_digits(n)[0] != 0x30,
        n < 10 ==> dec_digits(n) == seq![(0x30 + n) as u8],
    decreases n,
{
    if n >= 10 {
        lemma_dec_digits_are_digits(n / 10);
        assert(n / 10 >= 1);
    }
}

proof fn lemma_dec_digits_len_le(n: nat, k: nat)
    requires
        k >= 1,
        n < ten_to(k),
    ensures
        dec_digits(n).len() <= k,
    decreases k,
{
    if n < 10 {
    } else {
        assert(k >= 2) by {
            if k == 1 {
                assert(ten_to(1) == 10) by {
                    assert(ten_to(0) == 1);
                }
            }
        }
        assert(ten_to(k) == 10 * ten_to((k - 1) as nat));
        vstd::arithmetic::div_mod::lemma_multiply_divide_lt(
            n as int,
            10,
            ten_to((k - 1) as nat) as int,
        );
        lemma_dec_digits_len_le(n / 10, (k - 1) as nat);
    }
}

proof fn lemma_digits_val_dec(n: nat)
    ensures
        digits_val(dec_digits(n)) == n,
    decreases n,
{
    if n < 10 {
        assert(dec_digits(n) == seq![(0x30 + n) as u8]);
        assert(dec_digits(n).drop_last() =~= Seq::<u8>::empty());
        assert(digits_val(Seq::<u8>::empty()) == 0);
    } else {
        lemma_digits_val_dec(n / 10);
        assert(dec_digits(n).drop_last() =~= dec_digits(n / 10));
        vstd::arithmetic::div_mod::lemma_fundamental_div_mod(n as int, 10);
    }
}

proof fn lemma_take_digits_prefix(d: Seq<u8>, rest: Seq<u8>)
    requires
        forall|i: int| 0 <= i < d.len() ==> is_digit(#[trigger] d[i]),
        rest.len() == 0 || !is_digit(rest[0]),
    ensures
        take_digits(d + rest) == (d, rest),
    decreases d.len(),
{
    if d.len() == 0 {
        assert(d + rest =~= rest);
        assert(take_digits(rest) == (Seq::<u8>::empty(), rest));
        assert(Seq::<u8>::empty() =~= d);
    } else {
        assert((d + rest)[0] == d[0]);
        assert((d + rest).drop_first() =~= d.drop_first() + rest);
        lemma_take_digits_prefix(d.drop_first(), rest);
        assert(seq![d[0]] + d.drop_first() =~= d);
    }
}

proof fn lemma_number_roundtrip(n: nat, rest: Seq<u8>)
    requires
        n <= 65535,
        rest.len() == 0 || !is_digit(rest[0]),
    ensures
        parse_number(dec_digits(n) + rest) == Some((n, rest)),
{
    lemma_dec_digits_are_digits(n);
    lemma_take_digits_prefix(dec_digits(n), rest);
    assert(ten_to(5) == 100000) by {
        assert(ten_to(0) == 1);
        assert(ten_to(1) == 10);
        assert(ten_to(2) == 100);
        assert(ten_to(3) == 1000);
        assert(ten_to(4) == 10000);
    }
    lemma_dec_digits_len_le(n, 5);
    lemma_digits_val_dec(n);
}

proof fn lemma_pair_str_roundtrip(k: Seq<u8>, content: Seq<u8>, rest: Seq<u8>)
    requires
        plain_bytes(k),
        k.len() > 0,
    ensures
        parse_pair(quoted(k) + seq![COLON] + json_string(content) + rest) == Some(
            ((k, JsonValueModel::Str(content)), rest),
        ),
{
    let input = quoted(k) + seq![COLON] + json_string(content) + rest;
    let after_k = seq![COLON] + json_string(content) + rest;
    lemma_escape_plain(k);
    assert(input =~= json_string(k) + after_k);
    lemma_string_roundtrip(k, after_k);
    assert(after_k[0] == COLON);
    assert(skip_ws(after_k) == after_k);
    let after_colon = json_string(content) + rest;
    assert(after_k.drop_first() =~= after_colon);
    assert(after_colon[0] == QUOTE);
    assert(skip_ws(after_colon) == after_colon);
    lemma_string_roundtrip(content, rest);
}

proof fn lemma_pair_num_roundtrip(k: Seq<u8>, n: nat, rest: Seq<u8>)
    requires
        plain_bytes(k),
        k.len() > 0,
        n <= 65535,
        rest.len() > 0,
        !is_digit(rest[0]),
        !is_ws(rest[0]),
        rest[0] != QUOTE,
    ensures
        parse_pair(quoted(k) + seq![COLON] + dec_digits(n) + rest) == Some(
            ((k, JsonValueModel::Num(n)), rest),
        ),
{
    let input = quoted(k) + seq![COLON] + dec_digits(n) + rest;
    let after_k = seq![COLON] + dec_digits(n) + rest;
    lemma_escape_plain(k);
    assert(input =~= json_string(k) + after_k);
    lemma_string_roundtrip(k, after_k);
    assert(after_k[0] == COLON);
    assert(skip_ws(after_k) == after_k);
    let after_colon = dec_digits(n) + rest;
    assert(after_k.drop_first() =~= after_colon);
    lemma_dec_digits_are_digits(n);
    assert(after_colon[0] == dec_digits(n)[0]);
    assert(is_digit(after_colon[0]));
    assert(!is_ws(after_colon[0]) && after_colon[0] != QUOTE);
    assert(skip_ws(after_colon) == after_colon);
    lemma_number_roundtrip(n, rest);
}

/// The canonical encoding of any control message decodes back to that
/// message: the codec loses nothing, whatever the payload bytes or geometry.
pub proof fn lemma_control_roundtrip(m: ControlModel)
    ensures
        decode_spec(encode_model(m)) == Some(m),
{
    let enc = encode_model(m);
    assert(plain_bytes(key_cmd()));
    assert(plain_bytes(key_rows()));
    assert(plain_bytes(key_cols()));
    assert(plain_bytes(key_id()));
    assert(plain_bytes(key_message()));
    assert(plain_bytes(tag_resize()));
    assert(plain_bytes(tag_ping()));
    assert(plain_bytes(tag_pong()));
    assert(plain_bytes(tag_session()));
    assert(plain_bytes(tag_error()));
    assert(plain_bytes(tag_metrics()));
    match m {
        ControlModel::Ping => {
            lemma_tagonly_roundtrip(tag_ping());
            assert(interpret_model(seq![(key_cmd(), JsonValueModel::Str(tag_ping()))]) == Some(
                ControlModel::Ping,
            )) by {
                lemma_interpret_tagonly(tag_ping());
            }
        },
        ControlModel::Pong => {
            lemma_tagonly_roundtrip(tag_pong());
            lemma_interpret_tagonly(tag_pong());
        },
        ControlModel::Metrics => {
            lemma_tagonly_roundtrip(tag_metrics());
            lemma_interpret_tagonly(tag_metrics());
        },
        ControlModel::Session { id } => {
            lemma_payload_roundtrip(tag_session(), key_id(), id);
            lemma_interpret_payload(tag_session(), key_id(), id);
        },
        ControlModel::Error { message } => {
            lemma_payload_roundtrip(tag_error(), key_message(), message);
            lemma_interpret_payload(tag_error(), key_message(), message);
        },
        ControlModel::Resize { rows, cols } => {
            lemma_resize_roundtrip(rows, cols);
            lemma_interpret_resize(rows, cols);
        },
    }
}

/// Member list of a tag-only message (`ping`, `pong`, `metrics`).
spec fn tagonly_pairs(tag: Seq<u8>) -> Seq<(Seq<u8>, JsonValueModel)> {
    seq![(key_cmd(), JsonValueModel::Str(tag))]
}

/// Member list of a message with one string payload (`session`, `error`).
spec fn payload_pairs(tag: Seq<u8>, key: Seq<u8>, payload: Seq<u8>) -> Seq<
    (Seq<u8>, JsonValueModel),
> {
    seq![(key_cmd(), JsonValueModel::Str(tag)), (key, JsonValueModel::Str(payload))]
}

/// Member list of a resize message.
spec fn resize_pairs(rows: u16, cols: u16) -> Seq<(Seq<u8>, JsonValueModel)> {
    seq![
        (key_cmd(), JsonValueModel::Str(tag_resize())),
        (key_rows(), JsonValueModel::Num(rows as nat)),
        (key_cols(), JsonValueModel::Num(cols as nat)),
    ]
}

proof fn lemma_tagonly_roundtrip(tag: Seq<u8>)
    requires
        plain_bytes(tag),
    ensures
        parse_object(
            seq![LBRACE] + quoted(key_cmd()) + seq![COLON] + quoted(tag) + seq![RBRACE],
        ) == Some(tagonly_pairs(tag)),
{
    let enc = seq![LBRACE] + quoted(key_cmd()) + seq![COLON] + quoted(tag) + seq![RBRACE];
    assert(plain_bytes(key_cmd()));
    assert(enc[0] == LBRACE);
    assert(skip_ws(enc) == enc);
    let after_lb = quoted(key_cmd()) + seq![COLON] + quoted(tag) + seq![RBRACE];
    assert(enc.drop_first() =~= after_lb);
    assert(after_lb[0] == QUOTE);
    assert(skip_ws(after_lb) == after_lb);
    lemma_escape_plain(tag);
    assert(after_lb =~= quoted(key_cmd()) + seq![COLON] + json_string(tag) + seq![RBRACE]);
    lemma_pair_str_roundtrip(key_cmd(), tag, seq![RBRACE]);
    let r1 = seq![RBRACE];
    assert(skip_ws(r1) == r1);
    assert(r1[0] == RBRACE);
    assert(parse_pairs(after_lb) == Some((tagonly_pairs(tag), r1)));
    assert(r1.drop_first() =~= Seq::<u8>::empty());
    assert(skip_ws(Seq::<u8>::empty()).len() == 0);
}

proof fn lemma_interpret_tagonly(tag: Seq<u8>)
    requires
        tag == tag_ping() || tag == tag_pong() || tag == tag_metrics(),
    ensures
        tag == tag_ping() ==> interpret_model(tagonly_pairs(tag)) == Some(ControlModel::Ping),
        tag == tag_pong() ==> interpret_model(tagonly_pairs(tag)) == Some(ControlModel::Pong),
        tag == tag_metrics() ==> interpret_model(tagonly_pairs(tag)) == Some(ControlModel::Metrics),
{
    let ps = tagonly_pairs(tag);
    let ps0 = Seq::<(Seq<u8>, JsonValueModel)>::empty();
    assert(ps.drop_last() =~= ps0);
    assert(count_key(ps0, key_cmd()) == 0);
    assert(count_key(ps, key_cmd()) == 1);
    assert(lookup_pair(ps, key_cmd()) == Some(JsonValueModel::Str(tag)));
    assert(tag_ping() != tag_pong()) by {
        assert(tag_ping()[1] == 'i' as u8);
        assert(tag_pong()[1] == 'o' as u8);
    }
    assert(tag_ping().len() == 4 && tag_metrics().len() == 7 && tag_pong().len() == 4);
}

proof fn lemma_payload_roundtrip(tag: Seq<u8>, key: Seq<u8>, payload: Seq<u8>)
    requires
        plain_bytes(tag),
        plain_bytes(key),
        key.len() > 0,
    ensures
        parse_object(
            seq![LBRACE] + quoted(key_cmd()) + seq![COLON] + quoted(tag) + seq![COMMA] + quoted(key)
                + seq![COLON] + json_string(payload) + seq![RBRACE],
        ) == Some(payload_pairs(tag, key, payload)),
{
    let enc = seq![LBRACE] + quoted(key_cmd()) + seq![COLON] + quoted(tag) + seq![COMMA] + quoted(
        key,
    ) + seq![COLON] + json_string(payload) + seq![RBRACE];
    assert(plain_bytes(key_cmd()));
    assert(enc[0] == LBRACE);
    assert(skip_ws(enc) == enc);
    let second = quoted(key) + seq![COLON] + json_string(payload) + seq![RBRACE];
    let after_lb = quoted(key_cmd()) + seq![COLON] + quoted(tag) + seq![COMMA] + second;
    assert(enc.drop_first() =~= after_lb);
    assert(after_lb[0] == QUOTE);
    assert(skip_ws(after_lb) == after_lb);
    lemma_escape_plain(tag);
    assert(after_lb =~= quoted(key_cmd()) + seq![COLON] + json_string(tag) + (seq![COMMA]
        + second));
    lemma_pair_str_roundtrip(key_cmd(), tag, seq![COMMA] + second);
    let r1 = seq![COMMA] + second;
    assert(r1[0] == COMMA);
    assert(skip_ws(r1) == r1);
    assert(r1.drop_first() =~= second);
    assert(second[0] == QUOTE);
    assert(skip_ws(second) == second);
    lemma_pair_str_roundtrip(key, payload, seq![RBRACE]);
    let r2 = seq![RBRACE];
    assert(skip_ws(r2) == r2);
    assert(r2[0] == RBRACE);
    assert(parse_pairs(second) == Some((seq![(key, JsonValueModel::Str(payload))], r2)));
    assert(parse_pairs(after_lb) == Some(
        (
            seq![(key_cmd(), JsonValueModel::Str(tag))] + seq![(key, JsonValueModel::Str(payload))],
            r2,
        ),
    ));
    assert(seq![(key_cmd(), JsonValueModel::Str(tag))] + seq![(key, JsonValueModel::Str(payload))]
        =~= payload_pairs(tag, key, payload));
    assert(r2.drop_first() =~= Seq::<u8>::empty());
    assert(skip_ws(Seq::<u8>::empty()).len() == 0);
}

proof fn lemma_interpret_payload(tag: Seq<u8>, key: Seq<u8>, payload: Seq<u8>)
    requires
        tag == tag_session() && key == key_id() || tag == tag_error() && key == key_message(),
    ensures
        tag == tag_session() ==> interpret_model(payload_pairs(tag, key, payload)) == Some(
            ControlModel::Session { id: payload },
        ),
        tag == tag_error() ==> interpret_model(payload_pairs(tag, key, payload)) == Some(
            ControlModel::Error { message: payload },
        ),
{
    let ps = payload_pairs(tag, key, payload);
    assert(key_cmd() != key_id() && key_cmd() != key_message()) by {
        assert(key_cmd().len() == 3 && key_id().len() == 2 && key_message().len() == 7);
    }
    let ps0 = Seq::<(Seq<u8>, JsonValueModel)>::empty();
    let ps1 = seq![(key_cmd(), JsonValueModel::Str(tag))];
    assert(ps1.drop_last() =~= ps0);
    assert(ps.drop_last() =~= ps1);
    assert(count_key(ps0, key_cmd()) == 0 && count_key(ps0, key) == 0);
    assert(count_key(ps1, key_cmd()) == 1 && count_key(ps1, key) == 0);
    assert(count_key(ps, key_cmd()) == 1);
    assert(count_key(ps, key) == 1);
    assert(lookup_pair(ps, key_cmd()) == Some(JsonValueModel::Str(tag)));
    assert(ps.drop_first() =~= seq![(key, JsonValueModel::Str(payload))]);
    assert(lookup_pair(seq![(key, JsonValueModel::Str(payload))], key) == Some(
        JsonValueModel::Str(payload),
    ));
    assert(lookup_pair(ps, key) == Some(JsonValueModel::Str(payload)));
    assert(tag_session() != tag_ping() && tag_session() != tag_pong() && tag_session()
        != tag_metrics() && tag_session() != tag_resize() && tag_session() != tag_error()) by {
        assert(tag_session().len() == 7 && tag_ping().len() == 4 && tag_pong().len() == 4
            && tag_resize().len() == 6 && tag_error().len() == 5);
        assert(tag_session()[0] == 's' as u8);
        assert(tag_metrics()[0] == 'm' as u8);
    }
    assert(tag_error() != tag_ping() && tag_error() != tag_pong() && tag_error() != tag_metrics()
        && tag_error() != tag_resize()) by {
        assert(tag_error().len() == 5 && tag_ping().len() == 4 && tag_pong().len() == 4
            && tag_metrics().len() == 7 && tag_resize().len() == 6);
    }
}

proof fn lemma_resize_roundtrip(rows: u16, cols: u16)
    ensures
        parse_object(
            seq![LBRACE] + quoted(key_cmd()) + seq![COLON] + quoted(tag_resize()) + seq![COMMA]
                + quoted(key_rows()) + seq![COLON] + dec_digits(rows as nat) + seq![COMMA] + quoted(
                key_cols(),
            ) + seq![COLON] + dec_digits(cols as nat) + seq![RBRACE],
        ) == Some(resize_pairs(rows, cols)),
{
    let enc = seq![LBRACE] + quoted(key_cmd()) + seq![COLON] + quoted(tag_resize()) + seq![COMMA]
        + quoted(key_rows()) + seq![COLON] + dec_digits(rows as nat) + seq![COMMA] + quoted(
        key_cols(),
    ) + seq![COLON] + dec_digits(cols as nat) + seq![RBRACE];
    assert(plain_bytes(key_cmd()) && plain_bytes(key_rows()) && plain_bytes(key_cols())
        && plain_bytes(tag_resize()));
    assert(enc[0] == LBRACE);
    assert(skip_ws(enc) == enc);
    let third = quoted(key_cols()) + seq![COLON] + dec_digits(cols as nat) + seq![RBRACE];
    let second = quoted(key_rows()) + seq![COLON] + dec_digits(rows as nat) + (seq![COMMA] + third);
    let after_lb = quoted(key_cmd()) + seq![COLON] + quoted(tag_resize()) + (seq![COMMA] + second);
    assert(enc.drop_first() =~= after_lb);
    assert(after_lb[0] == QUOTE);
    assert(skip_ws(after_lb) == after_lb);
    lemma_escape_plain(tag_resize());
    assert(after_lb =~= quoted(key_cmd()) + seq![COLON] + json_string(tag_resize()) + (seq![COMMA]
        + second));
    lemma_pair_str_roundtrip(key_cmd(), tag_resize(), seq![COMMA] + second);
    let r1 = seq![COMMA] + second;
    assert(r1[0] == COMMA);
    assert(skip_ws(r1) == r1);
    assert(r1.drop_first() =~= second);
    assert(second[0] == QUOTE);
    assert(skip_ws(second) == second);
    assert(second =~= quoted(key_rows()) + seq![COLON] + dec_digits(rows as nat) + (seq![COMMA]
        + third));
    lemma_pair_num_roundtrip(key_rows(), rows as nat, seq![COMMA] + third);
    let r2 = seq![COMMA] + third;
    assert(r2[0] == COMMA);
    assert(skip_ws(r2) == r2);
    assert(r2.drop_first() =~= third);
    assert(third[0] == QUOTE);
    assert(skip_ws(third) == third);
    lemma_pair_num_roundtrip(key_cols(), cols as nat, seq![RBRACE]);
    let r3 = seq![RBRACE];
    assert(skip_ws(r3) == r3);
    assert(r3[0] == RBRACE);
    assert(parse_pairs(third) == Some((seq![(key_cols(), JsonValueModel::Num(cols as nat))], r3)));
    assert(parse_pairs(second) == Some(
        (
            seq![(key_rows(), JsonValueModel::Num(rows as nat))] + seq![
                (key_cols(), JsonValueModel::Num(cols as nat)),
            ],
            r3,
        ),
    ));
    assert(parse_pairs(after_lb) == Some(
        (
            seq![(key_cmd(), JsonValueModel::Str(tag_resize()))] + (seq![
                (key_rows(), JsonValueModel::Num(rows as nat)),
            ] + seq![(key_cols(), JsonValueModel::Num(cols as nat))]),
            r3,
        ),
    ));
    assert(seq![(key_cmd(), JsonValueModel::Str(tag_resize()))] + (seq![
        (key_rows(), JsonValueModel::Num(rows as nat)),
    ] + seq![(key_cols(), JsonValueModel::Num(cols as nat))]) =~= resize_pairs(rows, cols));
    assert(r3.drop_first() =~= Seq::<u8>::empty());
    assert(skip_ws(Seq::<u8>::empty()).len() == 0);
}

proof fn lemma_interpret_resize(rows: u16, cols: u16)
    ensures
        interpret_model(resize_pairs(rows, cols)) == Some(
            ControlModel::Resize { rows, cols },
        ),
{
    let ps = resize_pairs(rows, cols);
    assert(key_cmd() != key_rows() && key_cmd() != key_cols()) by {
        assert(key_cmd().len() == 3 && key_rows().len() == 4 && key_cols().len() == 4);
    }
    assert(key_rows() != key_cols()) by {
        assert(key_rows()[0] == 'r' as u8);
        assert(key_cols()[0] == 'c' as u8);
    }
    let ps0 = Seq::<(Seq<u8>, JsonValueModel)>::empty();
    let ps1 = seq![(key_cmd(), JsonValueModel::Str(tag_resize()))];
    let ps2 = seq![
        (key_cmd(), JsonValueModel::Str(tag_resize())),
        (key_rows(), JsonValueModel::Num(rows as nat)),
    ];
    assert(ps1.drop_last() =~= ps0);
    assert(ps2.drop_last() =~= ps1);
    assert(ps.drop_last() =~= ps2);
    assert(count_key(ps0, key_cmd()) == 0 && count_key(ps0, key_rows()) == 0 && count_key(
        ps0,
        key_cols(),
    ) == 0);
    assert(count_key(ps1, key_cmd()) == 1 && count_key(ps1, key_rows()) == 0 && count_key(
        ps1,
        key_cols(),
    ) == 0);
    assert(count_key(ps2, key_cmd()) == 1 && count_key(ps2, key_rows()) == 1 && count_key(
        ps2,
        key_cols(),
    ) == 0);
    assert(count_key(ps, key_cmd()) == 1);
    assert(count_key(ps, key_rows()) == 1);
    assert(count_key(ps, key_cols()) == 1);
    assert(lookup_pair(ps, key_cmd()) == Some(JsonValueModel::Str(tag_resize())));
    let qs1 = seq![
        (key_rows(), JsonValueModel::Num(rows as nat)),
        (key_cols(), JsonValueModel::Num(cols as nat)),
    ];
    let qs2 = seq![(key_cols(), JsonValueModel::Num(cols as nat))];
    assert(ps.drop_first() =~= qs1);
    assert(qs1.drop_first() =~= qs2);
    assert(lookup_pair(qs2, key_cols()) == Some(JsonValueModel::Num(cols as nat)));
    assert(lookup_pair(qs1, key_rows()) == Some(JsonValueModel::Num(rows as nat)));
    assert(lookup_pair(qs1, key_cols()) == Some(JsonValueModel::Num(cols as nat)));
    assert(lookup_pair(ps, key_rows()) == Some(JsonValueModel::Num(rows as nat)));
    assert(lookup_pair(ps, key_cols()) == Some(JsonValueModel::Num(cols as nat)));
    assert(tag_resize() != tag_ping() && tag_resize() != tag_pong() && tag_resize()
        != tag_metrics()) by {
        assert(tag_resize().len() == 6 && tag_ping().len() == 4 && tag_pong().len() == 4
            && tag_metrics().len() == 7);
    }
    assert((rows as nat) as u16 == rows);
    assert((cols as nat) as u16 == cols);
}

/// Canonical encodings are injective: two distinct messages never share a
/// wire frame.
pub proof fn lemma_encode_injective(m1: ControlModel, m2: ControlModel)
    requires
        encode_model(m1) == encode_model(m2),
    ensures
        m1 == m2,
{
    lemma_control_roundtrip(m1);
    lemma_control_roundtrip(m2);
}

/// Decode one text frame. Anything that is not a single well-formed object
/// naming a known command in the expected shape yields `None`.
pub fn decode_control(frame: &[u8]) -> (r: Option<ControlMessage>)
    ensures
        r is Some <==> decode_spec(frame@) is Some,
        r matches Some(m) ==> decode_spec(frame@) == Some(m@),
{
    match parse_object_frame(frame) {
        None => None,
        Some(pairs) => interpret_pairs(&pairs),
    }
}

} // verus!
