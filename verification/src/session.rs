//! Session identity and the launch configuration of the terminal-multiplexer
//! child: the hyphenated text form of a session id, the short session name
//! derived from it, and the exact program, arguments and environment the
//! child is spawned with.

use vstd::prelude::*;
use crate::codec::hex_digit;

verus! {

pub const DASH: u8 = 0x2d;

/// The `n` least-significant nibbles of `v` as lowercase hex, most
/// significant first.
pub open spec fn hex_seq(v: u128, n: nat) -> Seq<u8>
    decreases n,
{
    if n == 0 {
        Seq::empty()
    } else {
        hex_seq(v / 16, (n - 1) as nat).push(hex_digit((v % 16) as nat))
    }
}

/// The canonical text of a 128-bit session id: 32 lowercase hex digits in
/// five hyphen-separated groups of 8, 4, 4, 4 and 12.
pub open spec fn uuid_text(id: u128) -> Seq<u8> {
    hex_seq(id / 0x1000000000000000000000000, 8) + seq![DASH] + hex_seq(
        id / 0x100000000000000000000,
        4,
    ) + seq![DASH] + hex_seq(id / 0x10000000000000000, 4) + seq![DASH] + hex_seq(
        id / 0x1000000000000,
        4,
    ) + seq![DASH] + hex_seq(id, 12)
}

/// The short session name handed to the child: `d` followed by the first
/// eight hex digits of the session id.
pub open spec fn short_name_text(id: u128) -> Seq<u8> {
    seq!['d' as u8] + hex_seq(id / 0x1000000000000000000000000, 8)
}

fn hex_digit_exec(n: u8) -> (r: u8)
    requires
        n < 16,
    ensures
        r == hex_digit(n as nat),
{
    if n < 10 {
        0x30 + n
    } else {
        0x57 + n
    }
}

/// Append the `n` least-significant nibbles of `v` in hex.
fn push_hex(out: &mut Vec<u8>, v: u128, n: usize)
    ensures
        final(out)@ == old(out)@ + hex_seq(v, n as nat),
    decreases n,
{
    if n == 0 {
        proof {
            assert(out@ =~= old(out)@ + hex_seq(v, 0));
        }
    } else {
        push_hex(out, v / 16, n - 1);
        out.push(hex_digit_exec((v % 16) as u8));
        proof {
            assert(out@ =~= old(out)@ + hex_seq(v, n as nat));
        }
    }
}

/// The hyphenated text of a session id.
pub fn session_id_text(id: u128) -> (r: Vec<u8>)
    ensures
        r@ == uuid_text(id),
{
    let mut out: Vec<u8> = Vec::new();
    push_hex(&mut out, id / 0x1000000000000000000000000, 8);
    out.push(DASH);
    push_hex(&mut out, id / 0x100000000000000000000, 4);
    out.push(DASH);
    push_hex(&mut out, id / 0x10000000000000000, 4);
    out.push(DASH);
    push_hex(&mut out, id / 0x1000000000000, 4);
    out.push(DASH);
    push_hex(&mut out, id, 12);
    proof {
        assert(out@ =~= uuid_text(id));
    }
    out
}

/// The short session name for the child's session argument.
pub fn short_session_name(id: u128) -> (r: Vec<u8>)
    ensures
        r@ == short_name_text(id),
{
    let mut out: Vec<u8> = Vec::new();
    out.push('d' as u8);
    push_hex(&mut out, id / 0x1000000000000000000000000, 8);
    proof {
        assert(out@ =~= short_name_text(id));
    }
    out
}

// ---------------------------------------------------------------------------
// Launch configuration.
// ---------------------------------------------------------------------------

pub open spec fn program_name() -> Seq<u8> {
    seq!['z' as u8, 'e' as u8, 'l' as u8, 'l' as u8, 'i' as u8, 'j' as u8]
}

pub open spec fn session_flag() -> Seq<u8> {
    seq![DASH, 's' as u8]
}

pub open spec fn env_term_key() -> Seq<u8> {
    seq!['T' as u8, 'E' as u8, 'R' as u8, 'M' as u8]
}

pub open spec fn env_term_value() -> Seq<u8> {
    seq![
        'x' as u8,
        't' as u8,
        'e' as u8,
        'r' as u8,
        'm' as u8,
        DASH,
        '2' as u8,
        '5' as u8,
        '6' as u8,
        'c' as u8,
        'o' as u8,
        'l' as u8,
        'o' as u8,
        'r' as u8,
    ]
}

pub open spec fn env_colorterm_key() -> Seq<u8> {
    seq![
        'C' as u8,
        'O' as u8,
        'L' as u8,
        'O' as u8,
        'R' as u8,
        'T' as u8,
        'E' as u8,
        'R' as u8,
        'M' as u8,
    ]
}

pub open spec fn env_colorterm_value() -> Seq<u8> {
    seq!['t' as u8, 'r' as u8, 'u' as u8, 'e' as u8, 'c' as u8, 'o' as u8, 'l' as u8, 'o' as u8,
        'r' as u8]
}

pub open spec fn env_editor_key() -> Seq<u8> {
    seq!['E' as u8, 'D' as u8, 'I' as u8, 'T' as u8, 'O' as u8, 'R' as u8]
}

pub open spec fn env_editor_value() -> Seq<u8> {
    seq!['h' as u8, 'x' as u8]
}

/// Everything needed to spawn the terminal-multiplexer child attached to the
/// session's terminal, as plain bytes.
pub struct SpawnPlan {
    pub program: Vec<u8>,
    pub args: Vec<Vec<u8>>,
    pub env: Vec<(Vec<u8>, Vec<u8>)>,
}

/// What a correct launch configuration for session `id` holds.
pub open spec fn plan_for(p: SpawnPlan, id: u128) -> bool {
    &&& p.program@ == program_name()
    &&& p.args@.len() == 2
    &&& p.args@[0]@ == session_flag()
    &&& p.args@[1]@ == short_name_text(id)
    &&& p.env@.len() == 3
    &&& p.env@[0].0@ == env_term_key() && p.env@[0].1@ == env_term_value()
    &&& p.env@[1].0@ == env_colorterm_key() && p.env@[1].1@ == env_colorterm_value()
    &&& p.env@[2].0@ == env_editor_key() && p.env@[2].1@ == env_editor_value()
}

/// The launch configuration for session `id`: the multiplexer binary, its
/// session-name argument derived from the id, and the terminal environment.
pub fn spawn_plan(id: u128) -> (r: SpawnPlan)
    ensures
        plan_for(r, id),
{
    let mut program: Vec<u8> = Vec::new();
    program.push('z' as u8);
    program.push('e' as u8);
    program.push('l' as u8);
    program.push('l' as u8);
    program.push('i' as u8);
    program.push('j' as u8);
    let mut flag: Vec<u8> = Vec::new();
    flag.push(DASH);
    flag.push('s' as u8);
    let name = short_session_name(id);
    let mut args: Vec<Vec<u8>> = Vec::new();
    args.push(flag);
    args.push(name);
    let mut term_k: Vec<u8> = Vec::new();
    term_k.push('T' as u8);
    term_k.push('E' as u8);
    term_k.push('R' as u8);
    term_k.push('M' as u8);
    let mut term_v: Vec<u8> = Vec::new();
    term_v.push('x' as u8);
    term_v.push('t' as u8);
    term_v.push('e' as u8);
    term_v.push('r' as u8);
    term_v.push('m' as u8);
    term_v.push(DASH);
    term_v.push('2' as u8);
    term_v.push('5' as u8);
    term_v.push('6' as u8);
    term_v.push('c' as u8);
    term_v.push('o' as u8);
    term_v.push('l' as u8);
    term_v.push('o' as u8);
    term_v.push('r' as u8);
    let mut color_k: Vec<u8> = Vec::new();
    color_k.push('C' as u8);
    color_k.push('O' as u8);
    color_k.push('L' as u8);
    color_k.push('O' as u8);
    color_k.push('R' as u8);
    color_k.push('T' as u8);
    color_k.push('E' as u8);
    color_k.push('R' as u8);
    color_k.push('M' as u8);
    let mut color_v: Vec<u8> = Vec::new();
    color_v.push('t' as u8);
    color_v.push('r' as u8);
    color_v.push('u' as u8);
    color_v.push('e' as u8);
    color_v.push('c' as u8);
    color_v.push('o' as u8);
    color_v.push('l' as u8);
    color_v.push('o' as u8);
    color_v.push('r' as u8);
    let mut editor_k: Vec<u8> = Vec::new();
    editor_k.push('E' as u8);
    editor_k.push('D' as u8);
    editor_k.push('I' as u8);
    editor_k.push('T' as u8);
    editor_k.push('O' as u8);
    editor_k.push('R' as u8);
    let mut editor_v: Vec<u8> = Vec::new();
    editor_v.push('h' as u8);
    editor_v.push('x' as u8);
    let mut env: Vec<(Vec<u8>, Vec<u8>)> = Vec::new();
    env.push((term_k, term_v));
    env.push((color_k, color_v));
    env.push((editor_k, editor_v));
    let r = SpawnPlan { program, args, env };
    proof {
        assert(r.program@ =~= program_name());
        assert(r.args@[0]@ =~= session_flag());
        assert(r.env@[0].0@ =~= env_term_key());
        assert(r.env@[0].1@ =~= env_term_value());
        assert(r.env@[1].0@ =~= env_colorterm_key());
        assert(r.env@[1].1@ =~= env_colorterm_value());
        assert(r.env@[2].0@ =~= env_editor_key());
        assert(r.env@[2].1@ =~= env_editor_value());
    }
    r
}

/// Relies on uuid::Uuid::new_v4 and Uuid::as_u128: a freshly drawn random
/// version-4 id. The value is random, so nothing is promised of it.
#[verifier::external_body]
fn fresh_session_id() -> u128 {
    uuid::Uuid::new_v4().as_u128()
}

/// A newly drawn session id together with the launch configuration derived
/// from it. The id is random; whatever it is, the plan fits it.
pub fn new_session_request() -> (r: (u128, SpawnPlan))
    ensures
        plan_for(r.1, r.0),
{
    let id = fresh_session_id();
    let plan = spawn_plan(id);
    (id, plan)
}

} // verus!