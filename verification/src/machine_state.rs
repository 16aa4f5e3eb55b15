//! The catalog of operational states: a closed enumeration with total,
//! panic-free conversion to and from names, and a canonical order used for
//! statistics output.

use vstd::prelude::*;

use crate::str_order::str_eq;

verus! {

/// One operational state of a node, or the sentinel `UNKNOWN` for anything
/// the catalog does not recognize.
#[allow(non_camel_case_types)]
#[derive(Clone, Copy, Debug, PartialEq, Eq, Structural)]
pub enum MachineState {
    UNKNOWN,
    NOT_RUNNING_W_ERROR,
    NOT_RUNNING_WO_ERROR,
    PRODUCTION_100,
    PRODUCTION_LT_100,
    PROGRAM_INTERRUPTION,
    WARMUP,
    NOT_SWITCHED_ON,
}

/// The name of each state.
pub open spec fn spec_lookup_by_id(state_id: MachineState) -> Seq<char> {
    match state_id {
        MachineState::WARMUP => "warmup"@,
        MachineState::PRODUCTION_LT_100 => "production_lt_100"@,
        MachineState::PRODUCTION_100 => "production_100"@,
        MachineState::NOT_RUNNING_W_ERROR => "not_running_w_error"@,
        MachineState::NOT_RUNNING_WO_ERROR => "not_running_wo_error"@,
        MachineState::NOT_SWITCHED_ON => "not_switched_on"@,
        MachineState::PROGRAM_INTERRUPTION => "program_interruption"@,
        MachineState::UNKNOWN => "unknown"@,
    }
}

/// The state a name resolves to; any unrecognized name degrades to `UNKNOWN`.
pub open spec fn spec_lookup_by_name(name: Seq<char>) -> MachineState {
    if name == "warmup"@ {
        MachineState::WARMUP
    } else if name == "production_lt_100"@ {
        MachineState::PRODUCTION_LT_100
    } else if name == "production_100"@ {
        MachineState::PRODUCTION_100
    } else if name == "not_running_w_error"@ {
        MachineState::NOT_RUNNING_W_ERROR
    } else if name == "not_running_wo_error"@ {
        MachineState::NOT_RUNNING_WO_ERROR
    } else if name == "not_switched_on"@ {
        MachineState::NOT_SWITCHED_ON
    } else if name == "program_interruption"@ {
        MachineState::PROGRAM_INTERRUPTION
    } else {
        MachineState::UNKNOWN
    }
}

/// The seven named states in canonical order; `UNKNOWN` is excluded.
pub open spec fn canonical_states() -> Seq<MachineState> {
    seq![
        MachineState::NOT_SWITCHED_ON,
        MachineState::WARMUP,
        MachineState::PROGRAM_INTERRUPTION,
        MachineState::PRODUCTION_LT_100,
        MachineState::PRODUCTION_100,
        MachineState::NOT_RUNNING_WO_ERROR,
        MachineState::NOT_RUNNING_W_ERROR,
    ]
}

/// The name of a state; total over the enumeration, `UNKNOWN` included.
pub fn lookup_by_id(state_id: MachineState) -> (r: &'static str)
    ensures
        r@ == spec_lookup_by_id(state_id),
{
    match state_id {
        MachineState::WARMUP => "warmup",
        MachineState::PRODUCTION_LT_100 => "production_lt_100",
        MachineState::PRODUCTION_100 => "production_100",
        MachineState::NOT_RUNNING_W_ERROR => "not_running_w_error",
        MachineState::NOT_RUNNING_WO_ERROR => "not_running_wo_error",
        MachineState::NOT_SWITCHED_ON => "not_switched_on",
        MachineState::PROGRAM_INTERRUPTION => "program_interruption",
        MachineState::UNKNOWN => "unknown",
    }
}

/// Resolves a free-form name to a state; never fails, unrecognized input
/// yields `UNKNOWN`.
pub fn lookup_by_name(name: &str) -> (r: MachineState)
    ensures
        r == spec_lookup_by_name(name@),
{
    if str_eq(name, "warmup") {
        MachineState::WARMUP
    } else if str_eq(name, "production_lt_100") {
        MachineState::PRODUCTION_LT_100
    } else if str_eq(name, "production_100") {
        MachineState::PRODUCTION_100
    } else if str_eq(name, "not_running_w_error") {
        MachineState::NOT_RUNNING_W_ERROR
    } else if str_eq(name, "not_running_wo_error") {
        MachineState::NOT_RUNNING_WO_ERROR
    } else if str_eq(name, "not_switched_on") {
        MachineState::NOT_SWITCHED_ON
    } else if str_eq(name, "program_interruption") {
        MachineState::PROGRAM_INTERRUPTION
    } else {
        MachineState::UNKNOWN
    }
}

/// The seven named states in canonical order, for building statistics output.
pub fn ordered_states() -> (v: Vec<MachineState>)
    ensures
        v@ == canonical_states(),
{
    let mut v: Vec<MachineState> = Vec::new();
    v.push(MachineState::NOT_SWITCHED_ON);
    v.push(MachineState::WARMUP);
    v.push(MachineState::PROGRAM_INTERRUPTION);
    v.push(MachineState::PRODUCTION_LT_100);
    v.push(MachineState::PRODUCTION_100);
    v.push(MachineState::NOT_RUNNING_WO_ERROR);
    v.push(MachineState::NOT_RUNNING_W_ERROR);
    proof {
        assert(v@ =~= canonical_states());
    }
    v
}

/// Converting a state to its name and back yields the state again:
/// name lookup inverts the name of every state, the sentinel included.
pub proof fn lemma_lookup_roundtrip(state_id: MachineState)
    ensures
        spec_lookup_by_name(spec_lookup_by_id(state_id)) == state_id,
{
    reveal_strlit("warmup");
    reveal_strlit("production_lt_100");
    reveal_strlit("production_100");
    reveal_strlit("not_running_w_error");
    reveal_strlit("not_running_wo_error");
    reveal_strlit("not_switched_on");
    reveal_strlit("program_interruption");
    reveal_strlit("unknown");
    assert("warmup"@.len() == 6);
    assert("production_lt_100"@.len() == 17);
    assert("production_100"@.len() == 14);
    assert("not_running_w_error"@.len() == 19);
    assert("not_running_wo_error"@.len() == 20);
    assert("not_switched_on"@.len() == 15);
    assert("program_interruption"@.len() == 20);
    assert("unknown"@.len() == 7);
    assert("program_interruption"@[0] == 'p');
    assert("not_running_wo_error"@[0] == 'n');
}

/// A name that resolves to a named state is that state's name: lookup by
/// name inverts lookup by id on every recognized name.
pub proof fn lemma_name_roundtrip(name: Seq<char>)
    requires
        spec_lookup_by_name(name) != MachineState::UNKNOWN,
    ensures
        spec_lookup_by_id(spec_lookup_by_name(name)) == name,
{
}

} // verus!
