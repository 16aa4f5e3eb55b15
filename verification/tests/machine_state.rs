use birds_eye_view::machine_state::lookup_by_id;
use birds_eye_view::machine_state::lookup_by_name;
use birds_eye_view::machine_state::ordered_states;
use birds_eye_view::machine_state::MachineState;

#[test]
fn test_lookup_by_id() {
    let result = lookup_by_id(MachineState::WARMUP);
    assert_eq!(result, "warmup");
}

#[test]
fn test_lookup_by_name() {
    let result = lookup_by_name("warmup");
    assert_eq!(result, MachineState::WARMUP);
}

#[test]
fn lookup_round_trip_all_states() {
    let all = [
        MachineState::UNKNOWN,
        MachineState::NOT_RUNNING_W_ERROR,
        MachineState::NOT_RUNNING_WO_ERROR,
        MachineState::PRODUCTION_100,
        MachineState::PRODUCTION_LT_100,
        MachineState::PROGRAM_INTERRUPTION,
        MachineState::WARMUP,
        MachineState::NOT_SWITCHED_ON,
    ];
    for st in all.iter() {
        assert_eq!(lookup_by_name(lookup_by_id(*st)), *st);
    }
}

#[test]
fn lookup_by_name_degrades_to_unknown() {
    assert_eq!(lookup_by_name("bogus"), MachineState::UNKNOWN);
    assert_eq!(lookup_by_name(""), MachineState::UNKNOWN);
    assert_eq!(lookup_by_name("Warmup"), MachineState::UNKNOWN);
    assert_eq!(lookup_by_name("warmup "), MachineState::UNKNOWN);
}

#[test]
fn ordered_states_are_canonical() {
    let states = ordered_states();
    assert_eq!(states.len(), 7);
    let expected = vec![
        "not_switched_on",
        "warmup",
        "program_interruption",
        "production_lt_100",
        "production_100",
        "not_running_wo_error",
        "not_running_w_error",
    ];
    for (k, st) in states.iter().enumerate() {
        assert_eq!(lookup_by_id(*st), expected[k]);
    }
}
