//! Opcode classification.
//!
//! The navigation engine needs to know, for each executed instruction,
//! whether it opens a call frame, closes one, or transfers control; the
//! opcode byte decides.

use vstd::prelude::*;
use vstd::string::StringExecFns;

verus! {

pub const OP_STOP: u8 = 0x00;
pub const OP_JUMP: u8 = 0x56;
pub const OP_JUMPI: u8 = 0x57;
pub const OP_RJUMP: u8 = 0xE0;
pub const OP_RJUMPI: u8 = 0xE1;
pub const OP_RJUMPV: u8 = 0xE2;
pub const OP_CALLF: u8 = 0xE3;
pub const OP_RETF: u8 = 0xE4;
pub const OP_JUMPF: u8 = 0xE5;
pub const OP_CREATE: u8 = 0xF0;
pub const OP_CALL: u8 = 0xF1;
pub const OP_RETURN: u8 = 0xF3;
pub const OP_DELEGATECALL: u8 = 0xF4;
pub const OP_CREATE2: u8 = 0xF5;
pub const OP_STATICCALL: u8 = 0xFA;
pub const OP_REVERT: u8 = 0xFD;
pub const OP_INVALID: u8 = 0xFE;
pub const OP_SELFDESTRUCT: u8 = 0xFF;

/// Call-family opcodes open a new call frame.
pub open spec fn is_call_family(op: u8) -> bool {
    op == OP_CALL || op == OP_DELEGATECALL || op == OP_STATICCALL || op == OP_CREATE
        || op == OP_CREATE2
}

/// Terminal-family opcodes close the current call frame.
pub open spec fn is_terminal_family(op: u8) -> bool {
    op == OP_RETURN || op == OP_REVERT || op == OP_STOP || op == OP_SELFDESTRUCT
        || op == OP_INVALID
}

/// Jump-family opcodes transfer control explicitly, including the
/// function call and return instructions of multi-section bytecode.
pub open spec fn is_jump_family(op: u8) -> bool {
    op == OP_JUMP || op == OP_JUMPI || op == OP_JUMPF || op == OP_RJUMP || op == OP_RJUMPI
        || op == OP_RJUMPV || op == OP_CALLF || op == OP_RETF
}

/// How one classified opcode changes the call depth when executed
/// forward in time.
pub open spec fn call_delta(op: u8) -> int {
    if is_call_family(op) {
        1
    } else if is_terminal_family(op) {
        -1
    } else {
        0
    }
}

pub fn is_call_op(op: u8) -> (r: bool)
    ensures
        r == is_call_family(op),
{
    op == OP_CALL || op == OP_DELEGATECALL || op == OP_STATICCALL || op == OP_CREATE
        || op == OP_CREATE2
}

pub fn is_terminal_op(op: u8) -> (r: bool)
    ensures
        r == is_terminal_family(op),
{
    op == OP_RETURN || op == OP_REVERT || op == OP_STOP || op == OP_SELFDESTRUCT
        || op == OP_INVALID
}

pub fn is_jump_op(op: u8) -> (r: bool)
    ensures
        r == is_jump_family(op),
{
    op == OP_JUMP || op == OP_JUMPI || op == OP_JUMPF || op == OP_RJUMP || op == OP_RJUMPI
        || op == OP_RJUMPV || op == OP_CALLF || op == OP_RETF
}

/// The names of the opcodes the engine classifies, in byte order.
pub open spec fn opcode_names() -> Seq<Seq<char>> {
    seq![
        "STOP"@,
        "JUMP"@,
        "JUMPI"@,
        "RJUMP"@,
        "RJUMPI"@,
        "RJUMPV"@,
        "CALLF"@,
        "RETF"@,
        "JUMPF"@,
        "CREATE"@,
        "CALL"@,
        "RETURN"@,
        "DELEGATECALL"@,
        "CREATE2"@,
        "STATICCALL"@,
        "REVERT"@,
        "INVALID"@,
        "SELFDESTRUCT"@,
    ]
}

/// The static opcode-name table used for display.
pub fn opcode_list() -> (r: Vec<String>)
    ensures
        r.deep_view() == opcode_names(),
{
    let mut r: Vec<String> = Vec::new();
    r.push(String::from_str("STOP"));
    r.push(String::from_str("JUMP"));
    r.push(String::from_str("JUMPI"));
    r.push(String::from_str("RJUMP"));
    r.push(String::from_str("RJUMPI"));
    r.push(String::from_str("RJUMPV"));
    r.push(String::from_str("CALLF"));
    r.push(String::from_str("RETF"));
    r.push(String::from_str("JUMPF"));
    r.push(String::from_str("CREATE"));
    r.push(String::from_str("CALL"));
    r.push(String::from_str("RETURN"));
    r.push(String::from_str("DELEGATECALL"));
    r.push(String::from_str("CREATE2"));
    r.push(String::from_str("STATICCALL"));
    r.push(String::from_str("REVERT"));
    r.push(String::from_str("INVALID"));
    r.push(String::from_str("SELFDESTRUCT"));
    assert(r.deep_view() =~~= opcode_names());
    r
}

} // verus!
