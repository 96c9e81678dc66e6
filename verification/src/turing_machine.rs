use crate::state::{find_transition, Direction, State, StateModel, TransitionModel};
use crate::util::clone_string_vec;
use vstd::prelude::*;

verus! {

/// The machine's run status. It starts `Running` and becomes terminal only
/// when no transition matches the current state and the symbol under the
/// head: `Accept` when that state is an accept state, `Reject` otherwise.
#[derive(Debug, Clone, Copy, PartialEq, Eq, Hash, Structural)]
pub enum Status {
    Running,
    Accept,
    Reject,
}

impl Status {
    /// The status's display name.
    pub fn name(&self) -> (r: String)
        ensures
            *self is Running ==> r@ == "Running"@,
            *self is Accept ==> r@ == "Accept"@,
            *self is Reject ==> r@ == "Reject"@,
    {
        match self {
            Status::Running => "Running".to_owned(),
            Status::Accept => "Accept".to_owned(),
            Status::Reject => "Reject".to_owned(),
        }
    }
}

/// Mathematical image of a `Snapshot`.
#[verifier::ext_equal]
pub struct SnapshotModel {
    pub current_state: Seq<char>,
    pub next_state: Seq<char>,
    pub tape: Seq<Seq<char>>,
    pub tape_ptr: int,
    pub start_ptr: int,
    pub read: Seq<char>,
    pub write: Seq<char>,
    pub status: Status,
}

/// An immutable record of one transition: the source and target state
/// names, the tape as it was *before* this step's write, the head position
/// and left-growth offset at that moment, the symbols read and written, and
/// the status at the time of capture (always `Running`). The ordered
/// sequence of snapshots is the machine's execution trace.
#[derive(Debug, Clone)]
pub struct Snapshot {
    pub current_state: String,
    pub next_state: String,
    pub tape: Vec<String>,
    pub tape_ptr: usize,
    pub start_ptr: usize,
    pub read: String,
    pub write: String,
    pub status: Status,
}

impl View for Snapshot {
    type V = SnapshotModel;

    open spec fn view(&self) -> SnapshotModel {
        SnapshotModel {
            current_state: self.current_state@,
            next_state: self.next_state@,
            tape: self.tape.deep_view(),
            tape_ptr: self.tape_ptr as int,
            start_ptr: self.start_ptr as int,
            read: self.read@,
            write: self.write@,
            status: self.status,
        }
    }
}

impl DeepView for Snapshot {
    type V = SnapshotModel;

    open spec fn deep_view(&self) -> SnapshotModel {
        self.view()
    }
}

/// Mathematical image of a whole machine configuration, over which the
/// stepping relation `spec_step` is defined.
#[verifier::ext_equal]
pub struct MachineModel {
    pub states: Seq<StateModel>,
    pub current_state: int,
    pub accept_states: Seq<int>,
    pub tape: Seq<Seq<char>>,
    pub tape_ptr: int,
    pub start_ptr: int,
    pub blank: Seq<char>,
    pub status: Status,
    pub snapshots: Seq<SnapshotModel>,
}

/// The transition the machine would take now: the first edge of the current
/// state matching the symbol under the head.
pub open spec fn current_transition(m: MachineModel) -> Option<TransitionModel> {
    find_transition(m.states[m.current_state].transitions, m.tape[m.tape_ptr])
}

/// No transition matches the current state and the symbol under the head:
/// the machine's normal halting condition.
pub open spec fn is_stuck(m: MachineModel) -> bool {
    current_transition(m) is None
}

/// The current state is one of the accept states.
pub open spec fn accepts(m: MachineModel) -> bool {
    exists|i: int| 0 <= i < m.accept_states.len() && #[trigger] m.accept_states[i]
        == m.current_state
}

/// One step of the machine. When stuck, the status resolves to `Accept` or
/// `Reject` and nothing else changes (no snapshot is recorded). Otherwise a
/// snapshot of the pre-write configuration is appended, the write symbol
/// replaces the cell under the head, the head moves (growing the tape by one
/// blank cell at whichever end it would leave, bumping `start_ptr` on growth
/// at the front), and the machine continues in the transition's target state.
pub open spec fn spec_step(m: MachineModel) -> MachineModel {
    match current_transition(m) {
        None => MachineModel {
            status: if accepts(m) {
                Status::Accept
            } else {
                Status::Reject
            },
            ..m
        },
        Some(t) => {
            let snap = SnapshotModel {
                current_state: m.states[m.current_state].name,
                next_state: m.states[t.to].name,
                tape: m.tape,
                tape_ptr: m.tape_ptr,
                start_ptr: m.start_ptr,
                read: m.tape[m.tape_ptr],
                write: t.write,
                status: m.status,
            };
            let written = m.tape.update(m.tape_ptr, t.write);
            if t.move_head is Left {
                if m.tape_ptr == 0 {
                    MachineModel {
                        current_state: t.to,
                        tape: seq![m.blank] + written,
                        tape_ptr: 0,
                        start_ptr: m.start_ptr + 1,
                        snapshots: m.snapshots.push(snap),
                        ..m
                    }
                } else {
                    MachineModel {
                        current_state: t.to,
                        tape: written,
                        tape_ptr: m.tape_ptr - 1,
                        snapshots: m.snapshots.push(snap),
                        ..m
                    }
                }
            } else {
                if m.tape_ptr + 1 == written.len() {
                    MachineModel {
                        current_state: t.to,
                        tape: written.push(m.blank),
                        tape_ptr: m.tape_ptr + 1,
                        snapshots: m.snapshots.push(snap),
                        ..m
                    }
                } else {
                    MachineModel {
                        current_state: t.to,
                        tape: written,
                        tape_ptr: m.tape_ptr + 1,
                        snapshots: m.snapshots.push(snap),
                        ..m
                    }
                }
            }
        },
    }
}

/// `n` steps of the machine.
pub open spec fn spec_step_n(m: MachineModel, n: nat) -> MachineModel
    decreases n,
{
    if n == 0 {
        m
    } else {
        spec_step(spec_step_n(m, (n - 1) as nat))
    }
}

/// Every transition of every state targets a state of the registry.
pub open spec fn states_wf(states: Seq<StateModel>) -> bool {
    forall|i: int, j: int|
        0 <= i < states.len() && 0 <= j < states[i].transitions.len() ==> 0 <= (
        #[trigger] states[i].transitions[j]).to < states.len()
}

/// Configuration invariant: indices are in range, the tape is never empty,
/// the head and the left-growth offset stay on the tape, every recorded
/// snapshot was captured while `Running`, and a terminal status is only ever
/// reached in a stuck configuration.
pub open spec fn model_wf(m: MachineModel) -> bool {
    &&& states_wf(m.states)
    &&& 0 <= m.current_state < m.states.len()
    &&& m.tape.len() > 0
    &&& 0 <= m.tape_ptr < m.tape.len()
    &&& 0 <= m.start_ptr < m.tape.len()
    &&& (forall|i: int|
        0 <= i < m.snapshots.len() ==> (#[trigger] m.snapshots[i]).status is Running)
    &&& (!(m.status is Running) ==> is_stuck(m))
}

/// Stepping preserves the configuration invariant.
pub proof fn lemma_step_preserves_wf(m: MachineModel)
    requires
        model_wf(m),
    ensures
        model_wf(spec_step(m)),
{
    match current_transition(m) {
        None => {},
        Some(t) => {
            crate::state::lemma_find_transition_member(
                m.states[m.current_state].transitions,
                m.tape[m.tape_ptr],
            );
            assert(m.states[m.current_state].transitions.contains(t));
            let j = choose|j: int|
                0 <= j < m.states[m.current_state].transitions.len()
                    && m.states[m.current_state].transitions[j] == t;
            assert(0 <= t.to < m.states.len());
            assert(m.status is Running);
        },
    }
}

/// The invariant holds after any number of steps; in particular every
/// snapshot ever recorded has status `Running`.
pub proof fn lemma_step_n_preserves_wf(m: MachineModel, n: nat)
    requires
        model_wf(m),
    ensures
        model_wf(spec_step_n(m, n)),
        forall|i: int|
            0 <= i < spec_step_n(m, n).snapshots.len() ==> (#[trigger] spec_step_n(
                m,
                n,
            ).snapshots[i]).status is Running,
    decreases n,
{
    if n > 0 {
        lemma_step_n_preserves_wf(m, (n - 1) as nat);
        lemma_step_preserves_wf(spec_step_n(m, (n - 1) as nat));
    }
}

/// A machine whose current state has no transition matching the symbol
/// under the head halts immediately: the step records no snapshot, changes
/// neither tape nor head nor state, and resolves the status to `Accept`
/// exactly when the current state is an accept state, else `Reject`.
pub proof fn lemma_halt_immediate(m: MachineModel)
    requires
        model_wf(m),
        is_stuck(m),
    ensures
        spec_step(m).snapshots == m.snapshots,
        spec_step(m).status == (if accepts(m) {
            Status::Accept
        } else {
            Status::Reject
        }),
        spec_step(m).tape == m.tape,
        spec_step(m).tape_ptr == m.tape_ptr,
        spec_step(m).start_ptr == m.start_ptr,
        spec_step(m).current_state == m.current_state,
        spec_step(m).states == m.states,
{
}

/// Left movement at head index 0 grows the tape by exactly one blank cell
/// at the front and increases the left-growth offset by exactly one. Every
/// existing cell keeps its offset-adjusted position (the old index `i` cell
/// sits at index `i + 1`, and `i - start_ptr` is unchanged), and the head,
/// now on the new front cell, moves one offset-adjusted position to the
/// left, exactly as a left move from any other index does.
pub proof fn lemma_left_growth(m: MachineModel)
    requires
        model_wf(m),
        !is_stuck(m),
        current_transition(m)->Some_0.move_head is Left,
        m.tape_ptr == 0,
    ensures
        spec_step(m).tape.len() == m.tape.len() + 1,
        spec_step(m).tape[0] == m.blank,
        spec_step(m).start_ptr == m.start_ptr + 1,
        spec_step(m).tape_ptr == 0,
        forall|i: int|
            0 < i < m.tape.len() ==> spec_step(m).tape[i + 1] == m.tape[i] && (i + 1)
                - spec_step(m).start_ptr == i - m.start_ptr,
        spec_step(m).tape[m.tape_ptr + 1] == current_transition(m)->Some_0.write,
        spec_step(m).tape_ptr - spec_step(m).start_ptr == (m.tape_ptr - m.start_ptr) - 1,
        spec_step(m).snapshots.len() == m.snapshots.len() + 1,
{
    let t = current_transition(m)->Some_0;
    let written = m.tape.update(m.tape_ptr, t.write);
    assert(spec_step(m).tape == seq![m.blank] + written);
}

/// A growable tape with a head, a state registry, accept states, and an
/// append-only snapshot trace, stepped until no transition applies.
#[derive(Debug)]
pub struct TuringMachine {
    states: Vec<State>,
    pub current_state: usize,
    accept_states: Vec<usize>,
    pub tape: Vec<String>,
    pub tape_ptr: usize,
    pub start_ptr: usize,
    pub blank: String,
    pub status: Status,
    pub snapshots: Vec<Snapshot>,
}

impl View for TuringMachine {
    type V = MachineModel;

    closed spec fn view(&self) -> MachineModel {
        MachineModel {
            states: self.states.deep_view(),
            current_state: self.current_state as int,
            accept_states: Seq::new(self.accept_states@.len(), |i: int| self.accept_states@[i] as int),
            tape: self.tape.deep_view(),
            tape_ptr: self.tape_ptr as int,
            start_ptr: self.start_ptr as int,
            blank: self.blank@,
            status: self.status,
            snapshots: self.snapshots.deep_view(),
        }
    }
}

/// Is `x` one of the indices in `v`?
fn contains_index(v: &Vec<usize>, x: usize) -> (r: bool)
    ensures
        r == exists|i: int| 0 <= i < v@.len() && v@[i] == x,
{
    let mut i: usize = 0;
    while i < v.len()
        invariant
            i <= v@.len(),
            forall|j: int| 0 <= j < i ==> v@[j] != x,
        decreases v@.len() - i,
    {
        if v[i] == x {
            return true;
        }
        i += 1;
    }
    false
}

impl TuringMachine {
    /// Configuration invariant of the executable machine.
    pub open spec fn wf(&self) -> bool {
        model_wf(self@)
    }

    /// A machine in its initial configuration: head at index 0, no growth
    /// yet, status `Running`, no snapshots. An empty initial tape is
    /// materialized as a single blank cell so that a read at the head always
    /// succeeds.
    pub fn new(
        states: Vec<State>,
        initial_state: usize,
        accept_states: Vec<usize>,
        tape: Vec<String>,
        blank: String,
    ) -> (m: Self)
        requires
            states_wf(states.deep_view()),
            initial_state < states@.len(),
        ensures
            m.wf(),
            m@ == (MachineModel {
                states: states.deep_view(),
                current_state: initial_state as int,
                accept_states: Seq::new(accept_states@.len(), |i: int| accept_states@[i] as int),
                tape: if tape@.len() == 0 {
                    seq![blank@]
                } else {
                    tape.deep_view()
                },
                tape_ptr: 0,
                start_ptr: 0,
                blank: blank@,
                status: Status::Running,
                snapshots: Seq::empty(),
            }),
    {
        let tape = if tape.is_empty() {
            let mut v: Vec<String> = Vec::new();
            v.push(blank.clone());
            proof {
                assert(v.deep_view() =~= seq![blank@]);
            }
            v
        } else {
            tape
        };
        let m = TuringMachine {
            states,
            current_state: initial_state,
            accept_states,
            tape,
            tape_ptr: 0,
            start_ptr: 0,
            blank,
            status: Status::Running,
            snapshots: Vec::new(),
        };
        proof {
            assert(m.snapshots.deep_view() =~= Seq::<SnapshotModel>::empty());
            assert(m@ =~~= (MachineModel {
                states: m.states.deep_view(),
                current_state: m.current_state as int,
                accept_states: Seq::new(m.accept_states@.len(), |i: int| m.accept_states@[i] as int),
                tape: m.tape.deep_view(),
                tape_ptr: 0,
                start_ptr: 0,
                blank: m.blank@,
                status: Status::Running,
                snapshots: Seq::empty(),
            }));
        }
        m
    }

    /// Performs one transition, or halts. Returns true exactly when the
    /// machine is stuck, in which case only the status changes (to `Accept`
    /// iff the current state is an accept state, else `Reject`) and no
    /// snapshot is recorded. Otherwise a snapshot of the pre-write
    /// configuration is appended and tape, head, offset and current state
    /// advance as `spec_step` describes.
    pub fn step(&mut self) -> (halted: bool)
        requires
            old(self).wf(),
        ensures
            final(self).wf(),
            final(self)@ == spec_step(old(self)@),
            halted == is_stuck(old(self)@),
    {
        proof {
            assert(self@.tape[self.tape_ptr as int] == self.tape@[self.tape_ptr as int]@);
        }
        let read = self.tape[self.tape_ptr].clone();
        let cur = self.current_state;
        proof {
            assert(self@.states[cur as int] == self.states@[cur as int]@);
        }
        let tr = self.states[cur].transition(read.as_str());
        match tr {
            Err(_) => {
                let accept = contains_index(&self.accept_states, cur);
                proof {
                    if accept {
                        let i = choose|i: int|
                            0 <= i < self.accept_states@.len() && self.accept_states@[i] == cur;
                        assert(self@.accept_states[i] == cur as int);
                        assert(accepts(self@));
                    }
                    if accepts(self@) {
                        let i = choose|i: int|
                            0 <= i < self@.accept_states.len() && self@.accept_states[i]
                                == self@.current_state;
                        assert(self.accept_states@[i] == cur);
                        assert(accept);
                    }
                }
                let ghost pre = self@;
                self.status = if accept {
                    Status::Accept
                } else {
                    Status::Reject
                };
                proof {
                    assert(self@ =~~= spec_step(pre));
                    lemma_step_preserves_wf(pre);
                }
                true
            },
            Ok((to, write, dir)) => {
                let ghost pre = self@;
                let ghost t = current_transition(pre)->Some_0;
                proof {
                    assert(t == (TransitionModel {
                        to: to as int,
                        read: read@,
                        write: write@,
                        move_head: dir,
                    }));
                    crate::state::lemma_find_transition_member(
                        pre.states[pre.current_state].transitions,
                        pre.tape[pre.tape_ptr],
                    );
                    let j = choose|j: int|
                        0 <= j < pre.states[pre.current_state].transitions.len()
                            && pre.states[pre.current_state].transitions[j] == t;
                    assert(0 <= t.to < pre.states.len());
                    assert(pre.status is Running);
                    assert(self@.states[to as int] == self.states@[to as int]@);
                }
                let cur_state = &self.states[cur];
                proof {
                    assert(*cur_state == self.states@[cur as int]);
                    assert(self@.states[cur as int] == self.states@[cur as int]@);
                    crate::state::lemma_state_view_name(*cur_state);
                }
                let cur_name = cur_state.name.clone();
                let to_state = &self.states[to];
                proof {
                    assert(*to_state == self.states@[to as int]);
                    crate::state::lemma_state_view_name(*to_state);
                }
                let to_name = to_state.name.clone();
                let snap = Snapshot {
                    current_state: cur_name,
                    next_state: to_name,
                    tape: clone_string_vec(&self.tape),
                    tape_ptr: self.tape_ptr,
                    start_ptr: self.start_ptr,
                    read,
                    write: write.clone(),
                    status: self.status,
                };
                proof {
                    assert(snap@.current_state == pre.states[pre.current_state].name);
                    assert(snap@.next_state == pre.states[t.to].name);
                    assert(snap@.tape == pre.tape);
                    assert(snap@.read == pre.tape[pre.tape_ptr]);
                    assert(snap@.write == t.write);
                    assert(snap@ =~~= (SnapshotModel {
                        current_state: pre.states[pre.current_state].name,
                        next_state: pre.states[t.to].name,
                        tape: pre.tape,
                        tape_ptr: pre.tape_ptr,
                        start_ptr: pre.start_ptr,
                        read: pre.tape[pre.tape_ptr],
                        write: t.write,
                        status: pre.status,
                    }));
                }
                let ghost snaps_pre = self.snapshots.deep_view();
                self.snapshots.push(snap);
                proof {
                    assert(self.snapshots.deep_view() =~= snaps_pre.push(snap@));
                }
                let ghost tape_pre = self.tape.deep_view();
                self.tape[self.tape_ptr] = write;
                proof {
                    assert(self.tape.deep_view() =~= tape_pre.update(pre.tape_ptr, t.write));
                }
                self.current_state = to;
                let ghost written = pre.tape.update(pre.tape_ptr, t.write);
                match dir {
                    Direction::Left => {
                        if self.tape_ptr == 0 {
                            self.tape.insert(0, self.blank.clone());
                            let len_now = self.tape.len();
                            proof {
                                assert(self.tape.deep_view() =~= seq![pre.blank] + written);
                                assert(self.tape.deep_view().len() == self.tape@.len());
                                assert(self.start_ptr < pre.tape.len());
                                assert(pre.tape.len() < len_now);
                            }
                            self.start_ptr = self.start_ptr + 1;
                        } else {
                            self.tape_ptr = self.tape_ptr - 1;
                        }
                    },
                    Direction::Right => {
                        let len = self.tape.len();
                        proof {
                            assert(self.tape.deep_view().len() == self.tape@.len());
                            assert(self.tape_ptr < len);
                        }
                        self.tape_ptr = self.tape_ptr + 1;
                        if self.tape_ptr == len {
                            self.tape.push(self.blank.clone());
                            proof {
                                assert(self.tape.deep_view() =~= written.push(pre.blank));
                            }
                        }
                    },
                }
                proof {
                    assert(self@ =~~= spec_step(pre));
                    lemma_step_preserves_wf(pre);
                }
                false
            },
        }
    }

}

/// How many of the first `n` steps actually take a transition (the others
/// are halting steps on a stuck configuration, which change nothing but the
/// status).
pub open spec fn steps_taken(m: MachineModel, n: nat) -> nat
    decreases n,
{
    if n == 0 {
        0
    } else {
        steps_taken(m, (n - 1) as nat) + if is_stuck(spec_step_n(m, (n - 1) as nat)) {
            0nat
        } else {
            1nat
        }
    }
}

/// The trace is the execution, one snapshot per transition: after any
/// number of steps the number of recorded snapshots has grown by exactly the
/// number of transitions actually taken, and every recorded snapshot's
/// status is `Running`. Driving the machine to completion means stepping
/// until `step` reports a halt; no step budget is imposed here, and a
/// machine that never gets stuck runs forever.
pub proof fn lemma_trace_length(m: MachineModel, n: nat)
    requires
        model_wf(m),
    ensures
        spec_step_n(m, n).snapshots.len() == m.snapshots.len() + steps_taken(m, n),
        forall|i: int|
            0 <= i < spec_step_n(m, n).snapshots.len() ==> (#[trigger] spec_step_n(
                m,
                n,
            ).snapshots[i]).status is Running,
    decreases n,
{
    lemma_step_n_preserves_wf(m, n);
    if n > 0 {
        lemma_trace_length(m, (n - 1) as nat);
        lemma_step_n_preserves_wf(m, (n - 1) as nat);
    }
}

} // verus!
