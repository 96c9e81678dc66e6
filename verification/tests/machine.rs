use snails_machine::{
    turing_machine_from_config, BuilderError, Config, ConfigError, ConfigTransition, Direction,
    State, Status, Transition, TuringMachine, TuringMachineBuilder,
};

fn to_vec_string(v: Vec<&str>) -> Vec<String> {
    v.iter().map(|s| s.to_string()).collect()
}

#[test]
fn test_builder() {
    let tm = TuringMachineBuilder::new()
        .add_states(&["A", "B"])
        .add_transition("A", "B", "0", "1", Direction::Right)
        .unwrap()
        .set_initial_state("A")
        .unwrap()
        .set_accept_states(&["B"])
        .unwrap()
        .set_tape(vec!["0".to_string(), "1".to_string()])
        .set_blank_symbol("0")
        .build()
        .unwrap();

    let mut tm = tm;
    while !tm.step() {}

    assert_eq!(tm.tape, vec!["1".to_string(), "1".to_string()]);
    assert_eq!(tm.status, Status::Accept);
}

fn two_state_machine() -> TuringMachine {
    TuringMachineBuilder::new()
        .add_states(&["A", "B"])
        .add_transition("A", "B", "0", "1", Direction::Right)
        .unwrap()
        .set_initial_state("A")
        .unwrap()
        .set_accept_states(&["B"])
        .unwrap()
        .set_tape(to_vec_string(vec!["0", "1"]))
        .set_blank_symbol("0")
        .build()
        .unwrap()
}

#[test]
fn single_transition_trace() {
    // A (initial), B (accept), A->B on read "0" write "1" moving right,
    // tape ["0","1"], blank "0": one transition, then accept
    let mut tm = two_state_machine();
    while !tm.step() {}

    assert_eq!(tm.tape, to_vec_string(vec!["1", "1"]));
    assert_eq!(tm.status, Status::Accept);
    assert_eq!(tm.snapshots.len(), 1);
    let snap = &tm.snapshots[0];
    assert_eq!(snap.read, "0");
    assert_eq!(snap.write, "1");
    assert_eq!(snap.current_state, "A");
    assert_eq!(snap.next_state, "B");
    assert_eq!(snap.status, Status::Running);
    assert_eq!(snap.tape, to_vec_string(vec!["0", "1"]));
    assert_eq!(snap.tape_ptr, 0);
    assert_eq!(snap.start_ptr, 0);
}

#[test]
fn snapshots_count_transitions_and_stay_running() {
    // B has no transition on "1": two transitions happen, then reject
    let mut tm = TuringMachineBuilder::new()
        .add_states(&["A", "B"])
        .add_transition("A", "A", "0", "0", Direction::Right)
        .unwrap()
        .add_transition("A", "B", "1", "1", Direction::Right)
        .unwrap()
        .set_initial_state("A")
        .unwrap()
        .set_accept_states(&[])
        .unwrap()
        .set_tape(to_vec_string(vec!["0", "1"]))
        .set_blank_symbol("0")
        .build()
        .unwrap();

    let mut steps = 0;
    while !tm.step() {
        steps += 1;
    }
    assert_eq!(tm.snapshots.len(), steps);
    assert_eq!(steps, 2);
    assert!(tm.snapshots.iter().all(|s| s.status == Status::Running));
    assert_eq!(tm.status, Status::Reject);
}

#[test]
fn stuck_machine_halts_immediately() {
    // no transition matches the symbol under the head: zero snapshots,
    // accept iff the current state is an accept state
    let mut accepting = TuringMachineBuilder::new()
        .add_state("A")
        .set_initial_state("A")
        .unwrap()
        .set_accept_states(&["A"])
        .unwrap()
        .set_tape(to_vec_string(vec!["0"]))
        .set_blank_symbol("0")
        .build()
        .unwrap();
    assert!(accepting.step());
    assert_eq!(accepting.snapshots.len(), 0);
    assert_eq!(accepting.status, Status::Accept);
    assert_eq!(accepting.tape, to_vec_string(vec!["0"]));

    let mut rejecting = TuringMachineBuilder::new()
        .add_state("A")
        .set_initial_state("A")
        .unwrap()
        .set_accept_states(&[])
        .unwrap()
        .set_tape(to_vec_string(vec!["0"]))
        .set_blank_symbol("0")
        .build()
        .unwrap();
    assert!(rejecting.step());
    assert_eq!(rejecting.snapshots.len(), 0);
    assert_eq!(rejecting.status, Status::Reject);
}

#[test]
fn left_move_at_zero_grows_front_and_bumps_offset() {
    let mut tm = TuringMachineBuilder::new()
        .add_state("A")
        .add_transition("A", "A", "0", "x", Direction::Left)
        .unwrap()
        .set_initial_state("A")
        .unwrap()
        .set_accept_states(&[])
        .unwrap()
        .set_tape(to_vec_string(vec!["0", "0"]))
        .set_blank_symbol("_")
        .build()
        .unwrap();

    assert!(!tm.step());
    assert_eq!(tm.tape, to_vec_string(vec!["_", "x", "0"]));
    assert_eq!(tm.tape_ptr, 0);
    assert_eq!(tm.start_ptr, 1);
    // the old first cell keeps its offset-adjusted position: index 1 now,
    // offset 1, so still absolute position 0
    assert_eq!(tm.tape_ptr as isize - tm.start_ptr as isize, -1);
}

#[test]
fn right_move_past_end_appends_blank() {
    let mut tm = TuringMachineBuilder::new()
        .add_state("A")
        .add_transition("A", "A", "0", "y", Direction::Right)
        .unwrap()
        .set_initial_state("A")
        .unwrap()
        .set_accept_states(&[])
        .unwrap()
        .set_tape(to_vec_string(vec!["0"]))
        .set_blank_symbol("_")
        .build()
        .unwrap();

    assert!(!tm.step());
    assert_eq!(tm.tape, to_vec_string(vec!["y", "_"]));
    assert_eq!(tm.tape_ptr, 1);
    assert_eq!(tm.start_ptr, 0);
}

#[test]
fn empty_tape_materializes_one_blank_cell() {
    let mut tm = TuringMachineBuilder::new()
        .add_state("A")
        .set_initial_state("A")
        .unwrap()
        .set_blank_symbol("_")
        .build()
        .unwrap();
    assert_eq!(tm.tape, to_vec_string(vec!["_"]));
    assert!(tm.step());
    assert_eq!(tm.status, Status::Reject);
}

#[test]
fn builder_rejects_bad_input() {
    assert!(matches!(
        TuringMachineBuilder::new()
            .add_state("A")
            .add_transition("A", "X", "0", "1", Direction::Right),
        Err(BuilderError::StateNotFound(n)) if n == "X"
    ));
    assert!(matches!(
        TuringMachineBuilder::new()
            .add_state("A")
            .add_transition("A", "A", "0", "1", Direction::Right)
            .unwrap()
            .add_transition("A", "A", "0", "0", Direction::Left),
        Err(BuilderError::DuplicateTransition { from, read }) if from == "A" && read == "0"
    ));
    assert!(matches!(
        TuringMachineBuilder::new().add_state("A").set_initial_state("B"),
        Err(BuilderError::StateNotFound(n)) if n == "B"
    ));
    assert!(matches!(
        TuringMachineBuilder::new().add_state("A").set_accept_states(&["A", "C"]),
        Err(BuilderError::StateNotFound(n)) if n == "C"
    ));
    assert!(matches!(
        TuringMachineBuilder::new().add_state("A").build(),
        Err(BuilderError::MissingInitialState)
    ));
    assert!(matches!(
        TuringMachineBuilder::new()
            .add_state("A")
            .set_initial_state("A")
            .unwrap()
            .build(),
        Err(BuilderError::MissingBlankSymbol)
    ));
}

#[test]
fn batch_transitions() {
    let mut tm = TuringMachineBuilder::new()
        .add_states(&["A", "B"])
        .add_transitions(&[
            ("A", "A", "0", "0", Direction::Right),
            ("A", "B", "1", "1", Direction::Right),
        ])
        .unwrap()
        .set_initial_state("A")
        .unwrap()
        .set_accept_states(&["B"])
        .unwrap()
        .set_tape(to_vec_string(vec!["0", "0", "1"]))
        .set_blank_symbol("0")
        .build()
        .unwrap();
    while !tm.step() {}
    assert_eq!(tm.status, Status::Accept);
    assert_eq!(tm.snapshots.len(), 3);

    // the first bad row aborts the batch with its own error
    assert!(matches!(
        TuringMachineBuilder::new().add_state("A").add_transitions(&[
            ("A", "A", "0", "0", Direction::Right),
            ("A", "A", "0", "1", Direction::Left),
        ]),
        Err(BuilderError::DuplicateTransition { from, read }) if from == "A" && read == "0"
    ));
}

#[test]
fn state_transition_lookup() {
    let mut a = State::new("A", Vec::new());
    a.add_transition(Transition::new(1, "0", "1", Direction::Right));
    a.add_transitions(vec![Transition::new(0, "1", "0", Direction::Left)]);

    let (to, write, dir) = a.transition("1").unwrap();
    assert_eq!(to, 0);
    assert_eq!(write, "0");
    assert_eq!(dir, Direction::Left);
    assert!(a.transition("2").is_err());
}

#[test]
fn status_names() {
    assert_eq!(Status::Running.name(), "Running");
    assert_eq!(Status::Accept.name(), "Accept");
    assert_eq!(Status::Reject.name(), "Reject");
}

fn config_row(from: &str, to: &str, read: &str, write: &str, direction: Direction) -> ConfigTransition {
    ConfigTransition {
        from: from.to_string(),
        to: to.to_string(),
        read: read.to_string(),
        write: write.to_string(),
        direction,
    }
}

#[test]
fn machine_from_config_runs() {
    let config = Config {
        transitions: vec![config_row("A", "B", "0", "1", Direction::Right)],
        initial_state: "A".to_string(),
        accept_states: vec!["B".to_string()],
        blank: "0".to_string(),
    };
    let mut tm = turing_machine_from_config(&config, "01".to_string()).unwrap();
    while !tm.step() {}
    assert_eq!(tm.tape, to_vec_string(vec!["1", "1"]));
    assert_eq!(tm.status, Status::Accept);
    assert_eq!(tm.snapshots.len(), 1);
}

#[test]
fn config_errors_are_reported() {
    let base = || Config {
        transitions: vec![
            config_row("A", "B", "0", "1", Direction::Right),
            config_row("B", "A", "1", "0", Direction::Left),
        ],
        initial_state: "A".to_string(),
        accept_states: vec!["B".to_string()],
        blank: "0".to_string(),
    };

    let mut c = base();
    c.initial_state = "X".to_string();
    assert!(matches!(
        turing_machine_from_config(&c, "0".to_string()),
        Err(ConfigError::UnknownInitialState { name, valid })
            if name == "X" && valid == to_vec_string(vec!["A", "B"])
    ));

    let mut c = base();
    c.accept_states = vec!["B".to_string(), "Z".to_string()];
    assert!(matches!(
        turing_machine_from_config(&c, "0".to_string()),
        Err(ConfigError::UnknownAcceptState { accept_states, valid })
            if accept_states == to_vec_string(vec!["B", "Z"])
                && valid == to_vec_string(vec!["A", "B"])
    ));

    let mut c = base();
    c.transitions.push(config_row("A", "A", "0", "0", Direction::Left));
    assert!(matches!(
        turing_machine_from_config(&c, "0".to_string()),
        Err(ConfigError::DuplicateTransition { from, read }) if from == "A" && read == "0"
    ));

    let c = base();
    assert!(matches!(
        turing_machine_from_config(&c, "0z".to_string()),
        Err(ConfigError::InvalidSymbol(e)) if e.text == "z"
    ));
}
