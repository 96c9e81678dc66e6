use crate::state::{find_transition, Direction, State, StateModel, Transition, TransitionModel};
use crate::turing_machine::{states_wf, MachineModel, Status, TuringMachine};
use vstd::prelude::*;

verus! {

/// Errors raised while assembling a machine by hand.
#[derive(Debug)]
pub enum BuilderError {
    /// A transition endpoint, the initial state or an accept state names a
    /// state that was never added.
    StateNotFound(String),
    /// A second transition for the same (state, read symbol) pair: the
    /// machine is deterministic, so the pair must be unique.
    DuplicateTransition { from: String, read: String },
    /// `build` was called without `set_initial_state`.
    MissingInitialState,
    /// `build` was called without `set_blank_symbol`.
    MissingBlankSymbol,
}

/// Index of the first state named `name`, if any.
pub open spec fn find_state_index(states: Seq<StateModel>, name: Seq<char>) -> Option<int>
    decreases states.len(),
{
    if states.len() == 0 {
        None
    } else if states[0].name == name {
        Some(0)
    } else {
        match find_state_index(states.drop_first(), name) {
            Some(i) => Some(i + 1),
            None => None,
        }
    }
}

/// What `find_state_index` returns: an in-range index of a state with that
/// name, or a guarantee that no state carries it.
pub proof fn lemma_find_state_index(ts: Seq<StateModel>, name: Seq<char>)
    ensures
        find_state_index(ts, name) matches Some(i) ==> 0 <= i < ts.len() && ts[i as int].name
            == name,
        find_state_index(ts, name) is None ==> forall|j: int|
            0 <= j < ts.len() ==> ts[j].name != name,
    decreases ts.len(),
{
    if ts.len() > 0 && ts[0].name != name {
        lemma_find_state_index(ts.drop_first(), name);
        match find_state_index(ts.drop_first(), name) {
            Some(i) => {
                assert(ts.drop_first()[i] == ts[i + 1]);
            },
            None => {
                assert forall|j: int| 0 <= j < ts.len() implies ts[j].name != name by {
                    if j > 0 {
                        assert(ts.drop_first()[j - 1] == ts[j]);
                    }
                }
            },
        }
    }
}

/// Scanning past names that do not match only shifts the found index.
proof fn lemma_find_state_skip(ts: Seq<StateModel>, name: Seq<char>, i: int)
    requires
        0 <= i <= ts.len(),
        forall|j: int| 0 <= j < i ==> ts[j].name != name,
    ensures
        find_state_index(ts, name) == (match find_state_index(ts.skip(i), name) {
            Some(k) => Some(k + i),
            None => None::<int>,
        }),
    decreases i,
{
    if i == 0 {
        assert(ts.skip(0) =~= ts);
    } else {
        lemma_find_state_skip(ts, name, i - 1);
        assert(ts.skip(i - 1).len() > 0);
        assert(ts.skip(i - 1)[0] == ts[i - 1]);
        assert(ts.skip(i - 1).drop_first() =~= ts.skip(i));
    }
}

/// Index of the first state of `states` named `name`, if any.
pub(crate) fn find_state(states: &Vec<State>, name: &str) -> (r: Option<usize>)
    ensures
        r matches Some(i) ==> find_state_index(states.deep_view(), name@) == Some(i as int),
        r is None <==> find_state_index(states.deep_view(), name@) is None,
{
    let name_owned: String = name.to_owned();
    let n = states.len();
    let mut i: usize = 0;
    while i < n
        invariant
            name_owned@ == name@,
            n == states@.len(),
            i <= n,
            forall|j: int| 0 <= j < i ==> states.deep_view()[j].name != name@,
        decreases n - i,
    {
        let st = &states[i];
        proof {
            assert(*st == states@[i as int]);
            assert(states.deep_view()[i as int] == states@[i as int]@);
            crate::state::lemma_state_view_name(*st);
        }
        if st.name == name_owned {
            proof {
                lemma_find_state_skip(states.deep_view(), name@, i as int);
                assert(states.deep_view().skip(i as int)[0] == states.deep_view()[i as int]);
            }
            return Some(i);
        }
        i += 1;
    }
    proof {
        lemma_find_state_skip(states.deep_view(), name@, n as int);
        assert(states.deep_view().skip(n as int).len() == 0);
    }
    None
}

/// Mathematical image of the builder.
#[verifier::ext_equal]
pub struct BuilderModel {
    pub states: Seq<StateModel>,
    pub initial_state: Option<int>,
    pub accept_states: Seq<int>,
    pub tape: Seq<Seq<char>>,
    pub blank_symbol: Option<Seq<char>>,
}

/// Adding one name to the registry: a fresh state replaces an existing one
/// of the same name (resetting its transitions), otherwise it is appended.
pub open spec fn add_state_model(states: Seq<StateModel>, name: Seq<char>) -> Seq<StateModel> {
    let fresh = StateModel { name, transitions: Seq::empty() };
    match find_state_index(states, name) {
        Some(i) => states.update(i, fresh),
        None => states.push(fresh),
    }
}

/// Adding a batch of names, left to right.
pub open spec fn add_states_model(states: Seq<StateModel>, names: Seq<Seq<char>>) -> Seq<
    StateModel,
>
    decreases names.len(),
{
    if names.len() == 0 {
        states
    } else {
        add_state_model(add_states_model(states, names.drop_last()), names.last())
    }
}

/// Resolving accept-state names to indices, failing on the first name that
/// is not registered.
pub open spec fn resolve_states(states: Seq<StateModel>, names: Seq<Seq<char>>) -> Result<
    Seq<int>,
    Seq<char>,
>
    decreases names.len(),
{
    if names.len() == 0 {
        Ok(Seq::empty())
    } else {
        match find_state_index(states, names[0]) {
            None => Err(names[0]),
            Some(i) => match resolve_states(states, names.drop_first()) {
                Ok(rest) => Ok(seq![i] + rest),
                Err(e) => Err(e),
            },
        }
    }
}

/// The character sequences of a slice of string slices.
pub open spec fn strs_view(names: Seq<&str>) -> Seq<Seq<char>> {
    Seq::new(names.len(), |i: int| names[i]@)
}

/// One batch row, `(from, to, read, write, direction)`, as sequences.
pub open spec fn rows_view(rows: Seq<(&str, &str, &str, &str, Direction)>) -> Seq<
    (Seq<char>, Seq<char>, Seq<char>, Seq<char>, Direction),
> {
    Seq::new(rows.len(), |i: int| (rows[i].0@, rows[i].1@, rows[i].2@, rows[i].3@, rows[i].4))
}

/// Whether one row can be registered against this registry: both endpoints
/// exist and the source state has no edge yet for the read symbol.
pub open spec fn row_ok(
    states: Seq<StateModel>,
    row: (Seq<char>, Seq<char>, Seq<char>, Seq<char>, Direction),
) -> bool {
    &&& find_state_index(states, row.0) is Some
    &&& find_state_index(states, row.1) is Some
    &&& find_transition(
        states[find_state_index(states, row.0)->Some_0].transitions,
        row.2,
    ) is None
}

/// The registry after registering one row.
pub open spec fn apply_row(
    states: Seq<StateModel>,
    row: (Seq<char>, Seq<char>, Seq<char>, Seq<char>, Direction),
) -> Seq<StateModel> {
    let fi = find_state_index(states, row.0)->Some_0;
    let ti = find_state_index(states, row.1)->Some_0;
    states.update(
        fi,
        StateModel {
            name: states[fi].name,
            transitions: states[fi].transitions.push(
                TransitionModel { to: ti, read: row.2, write: row.3, move_head: row.4 },
            ),
        },
    )
}

/// The registry after registering a batch of rows, in order.
pub open spec fn apply_rows(
    states: Seq<StateModel>,
    rows: Seq<(Seq<char>, Seq<char>, Seq<char>, Seq<char>, Direction)>,
) -> Seq<StateModel>
    decreases rows.len(),
{
    if rows.len() == 0 {
        states
    } else {
        apply_row(apply_rows(states, rows.drop_last()), rows.last())
    }
}

/// Every row of the batch can be registered, each against the registry the
/// rows before it produced.
pub open spec fn rows_ok(
    states: Seq<StateModel>,
    rows: Seq<(Seq<char>, Seq<char>, Seq<char>, Seq<char>, Direction)>,
) -> bool
    decreases rows.len(),
{
    if rows.len() == 0 {
        true
    } else {
        rows_ok(states, rows.drop_last()) && row_ok(
            apply_rows(states, rows.drop_last()),
            rows.last(),
        )
    }
}

/// The first row of the batch that cannot be registered, if any.
pub open spec fn first_bad_row(
    states: Seq<StateModel>,
    rows: Seq<(Seq<char>, Seq<char>, Seq<char>, Seq<char>, Direction)>,
) -> Option<int>
    decreases rows.len(),
{
    if rows.len() == 0 {
        None
    } else {
        match first_bad_row(states, rows.drop_last()) {
            Some(i) => Some(i),
            None => if row_ok(apply_rows(states, rows.drop_last()), rows.last()) {
                None
            } else {
                Some(rows.len() - 1)
            },
        }
    }
}

/// A batch is fully registrable exactly when it has no bad row.
proof fn lemma_rows_ok_no_bad(
    states: Seq<StateModel>,
    rows: Seq<(Seq<char>, Seq<char>, Seq<char>, Seq<char>, Direction)>,
)
    ensures
        rows_ok(states, rows) <==> first_bad_row(states, rows) is None,
    decreases rows.len(),
{
    if rows.len() > 0 {
        lemma_rows_ok_no_bad(states, rows.drop_last());
    }
}

/// Once a prefix of the batch holds a bad row, the batch reports that one.
proof fn lemma_first_bad_row_extends(
    states: Seq<StateModel>,
    rows: Seq<(Seq<char>, Seq<char>, Seq<char>, Seq<char>, Direction)>,
    m: int,
)
    requires
        0 <= m <= rows.len(),
        first_bad_row(states, rows.take(m)) is Some,
    ensures
        first_bad_row(states, rows) == first_bad_row(states, rows.take(m)),
    decreases rows.len() - m,
{
    if m < rows.len() {
        assert(rows.take(m + 1).drop_last() =~= rows.take(m));
        lemma_first_bad_row_extends(states, rows, m + 1);
    } else {
        assert(rows.take(m) =~= rows);
    }
}

/// Step-by-step assembly of a `TuringMachine`: a state registry, the
/// deterministic transition table, the initial and accept states, the
/// initial tape and the blank symbol. Construction-time errors (an unknown
/// state name, a duplicate transition, a missing initial state or blank)
/// are rejected here, so the machine itself never sees them.
pub struct TuringMachineBuilder {
    states: Vec<State>,
    initial_state: Option<usize>,
    accept_states: Vec<usize>,
    tape: Vec<String>,
    blank_symbol: Option<String>,
}

impl View for TuringMachineBuilder {
    type V = BuilderModel;

    closed spec fn view(&self) -> BuilderModel {
        BuilderModel {
            states: self.states.deep_view(),
            initial_state: match self.initial_state {
                Some(i) => Some(i as int),
                None => None,
            },
            accept_states: Seq::new(self.accept_states@.len(), |i: int| self.accept_states@[i] as int),
            tape: self.tape.deep_view(),
            blank_symbol: match self.blank_symbol {
                Some(b) => Some(b@),
                None => None,
            },
        }
    }
}

impl TuringMachineBuilder {
    /// Builder invariant: the initial state and every accept state are
    /// in-range indices, and every transition targets a registered state.
    pub open spec fn wf(&self) -> bool {
        &&& states_wf(self@.states)
        &&& (self@.initial_state matches Some(i) ==> 0 <= i < self@.states.len())
        &&& (forall|j: int|
            0 <= j < self@.accept_states.len() ==> 0 <= #[trigger] self@.accept_states[j]
                < self@.states.len())
    }

    /// An empty builder: no states, nothing set.
    pub fn new() -> (b: Self)
        ensures
            b.wf(),
            b@ == (BuilderModel {
                states: Seq::<StateModel>::empty(),
                initial_state: None::<int>,
                accept_states: Seq::<int>::empty(),
                tape: Seq::<Seq<char>>::empty(),
                blank_symbol: None::<Seq<char>>,
            }),
    {
        let b = TuringMachineBuilder {
            states: Vec::new(),
            initial_state: None,
            accept_states: Vec::new(),
            tape: Vec::new(),
            blank_symbol: None,
        };
        proof {
            assert(b@ =~~= (BuilderModel {
                states: Seq::<StateModel>::empty(),
                initial_state: None::<int>,
                accept_states: Seq::<int>::empty(),
                tape: Seq::<Seq<char>>::empty(),
                blank_symbol: None::<Seq<char>>,
            }));
        }
        b
    }

    /// Registers a state with no transitions under `name`. Re-adding a name
    /// replaces that state with a fresh one (its outgoing transitions are
    /// reset); edges of other states keep their targets, since indices do
    /// not move.
    pub fn add_state(self, name: &str) -> (b: Self)
        requires
            self.wf(),
        ensures
            b.wf(),
            b@ == (BuilderModel { states: add_state_model(self@.states, name@), ..self@ }),
    {
        let mut b = self;
        match find_state(&b.states, name) {
            Some(i) => {
                proof {
                    lemma_find_state_index(b.states.deep_view(), name@);
                }
                let ghost pre = b.states.deep_view();
                let empty_ts: Vec<Transition> = Vec::new();
                proof {
                    assert(empty_ts.deep_view() =~= Seq::<TransitionModel>::empty());
                }
                b.states[i] = State::new(name, empty_ts);
                proof {
                    assert(b.states.deep_view() =~= pre.update(
                        i as int,
                        StateModel { name: name@, transitions: Seq::empty() },
                    ));
                    assert(b@ =~~= (BuilderModel {
                        states: add_state_model(pre, name@),
                        ..self@
                    }));
                }
            },
            None => {
                let ghost pre = b.states.deep_view();
                let empty_ts: Vec<Transition> = Vec::new();
                proof {
                    assert(empty_ts.deep_view() =~= Seq::<TransitionModel>::empty());
                }
                b.states.push(State::new(name, empty_ts));
                proof {
                    assert(b.states.deep_view() =~= pre.push(
                        StateModel { name: name@, transitions: Seq::empty() },
                    ));
                    assert(b@ =~~= (BuilderModel {
                        states: add_state_model(pre, name@),
                        ..self@
                    }));
                }
            },
        }
        proof {
            assert forall|i: int, j: int|
                0 <= i < b@.states.len() && 0 <= j < b@.states[i].transitions.len() implies 0 <= (
            #[trigger] b@.states[i].transitions[j]).to < b@.states.len() by {
                if i < self@.states.len() && b@.states[i] == self@.states[i] {
                    assert(0 <= self@.states[i].transitions[j].to < self@.states.len());
                }
            }
        }
        b
    }

    /// Registers a batch of states, in order, as `add_state` does one.
    pub fn add_states(self, names: &[&str]) -> (b: Self)
        requires
            self.wf(),
        ensures
            b.wf(),
            b@ == (BuilderModel {
                states: add_states_model(self@.states, strs_view(names@)),
                ..self@
            }),
    {
        let ghost orig = self@;
        let mut b = self;
        let n = names.len();
        let mut i: usize = 0;
        proof {
            assert(strs_view(names@).take(0) =~= Seq::<Seq<char>>::empty());
        }
        while i < n
            invariant
                orig.initial_state == b@.initial_state,
                orig.accept_states == b@.accept_states,
                orig.tape == b@.tape,
                orig.blank_symbol == b@.blank_symbol,
                n == names@.len(),
                i <= n,
                b.wf(),
                b@.states == add_states_model(orig.states, strs_view(names@).take(i as int)),
            decreases n - i,
        {
            let name: &str = names[i];
            b = b.add_state(name);
            proof {
                let ns = strs_view(names@);
                assert(ns.take(i + 1).drop_last() =~= ns.take(i as int));
                assert(ns.take(i + 1).last() == name@);
            }
            i += 1;
        }
        proof {
            assert(strs_view(names@).take(n as int) =~= strs_view(names@));
        }
        b
    }

    /// Registers the deterministic edge `(from, read) -> (to, write,
    /// direction)`. Fails with `StateNotFound` when either endpoint is not a
    /// registered state (`from` is checked first), and with
    /// `DuplicateTransition` when `from` already has an edge reading `read`.
    pub fn add_transition(
        self,
        from: &str,
        to: &str,
        read: &str,
        write: &str,
        direction: Direction,
    ) -> (r: Result<Self, BuilderError>)
        requires
            self.wf(),
        ensures
            r is Ok <==> (find_state_index(self@.states, from@) is Some && find_state_index(
                self@.states,
                to@,
            ) is Some && find_transition(
                self@.states[find_state_index(self@.states, from@)->Some_0].transitions,
                read@,
            ) is None),
            r matches Ok(b) ==> b.wf() && b@ == (BuilderModel {
                states: {
                    let fi = find_state_index(self@.states, from@)->Some_0;
                    let ti = find_state_index(self@.states, to@)->Some_0;
                    self@.states.update(
                        fi,
                        StateModel {
                            name: self@.states[fi].name,
                            transitions: self@.states[fi].transitions.push(
                                TransitionModel {
                                    to: ti,
                                    read: read@,
                                    write: write@,
                                    move_head: direction,
                                },
                            ),
                        },
                    )
                },
                ..self@
            }),
            find_state_index(self@.states, from@) is None ==> (r matches Err(
                BuilderError::StateNotFound(n),
            ) && n@ == from@),
            (find_state_index(self@.states, from@) is Some && find_state_index(
                self@.states,
                to@,
            ) is None) ==> (r matches Err(BuilderError::StateNotFound(n)) && n@ == to@),
            (find_state_index(self@.states, from@) is Some && find_state_index(
                self@.states,
                to@,
            ) is Some && find_transition(
                self@.states[find_state_index(self@.states, from@)->Some_0].transitions,
                read@,
            ) is Some) ==> (r matches Err(BuilderError::DuplicateTransition { from: f, read: rd })
                && f@ == from@ && rd@ == read@),
    {
        let fi = match find_state(&self.states, from) {
            Some(i) => i,
            None => {
                return Err(BuilderError::StateNotFound(from.to_owned()));
            },
        };
        let ti = match find_state(&self.states, to) {
            Some(i) => i,
            None => {
                return Err(BuilderError::StateNotFound(to.to_owned()));
            },
        };
        proof {
            lemma_find_state_index(self.states.deep_view(), from@);
            lemma_find_state_index(self.states.deep_view(), to@);
            assert(self@.states[fi as int] == self.states@[fi as int]@);
        }
        let from_state = &self.states[fi];
        proof {
            assert(*from_state == self.states@[fi as int]);
        }
        if from_state.transition(read).is_ok() {
            return Err(
                BuilderError::DuplicateTransition { from: from.to_owned(), read: read.to_owned() },
            );
        }
        let ghost pre = self@;
        let mut b = self;
        let mut st = b.states.remove(fi);
        st.add_transition(Transition::new(ti, read, write, direction));
        let ghost st_new = st@;
        b.states.insert(fi, st);
        proof {
            assert(b.states.deep_view() =~= pre.states.update(fi as int, st_new));
            assert(b@ =~~= (BuilderModel {
                states: pre.states.update(
                    fi as int,
                    StateModel {
                        name: pre.states[fi as int].name,
                        transitions: pre.states[fi as int].transitions.push(
                            TransitionModel {
                                to: ti as int,
                                read: read@,
                                write: write@,
                                move_head: direction,
                            },
                        ),
                    },
                ),
                ..pre
            }));
            assert forall|i: int, j: int|
                0 <= i < b@.states.len() && 0 <= j < b@.states[i].transitions.len() implies 0 <= (
            #[trigger] b@.states[i].transitions[j]).to < b@.states.len() by {
                if i != fi as int {
                    assert(b@.states[i] == pre.states[i]);
                    assert(0 <= pre.states[i].transitions[j].to < pre.states.len());
                } else {
                    if j < pre.states[fi as int].transitions.len() {
                        assert(b@.states[i].transitions[j] == pre.states[i].transitions[j]);
                        assert(0 <= pre.states[i].transitions[j].to < pre.states.len());
                    }
                }
            }
        }
        Ok(b)
    }

    /// Registers a batch of edges, in order, as `add_transition` does one;
    /// the first row that cannot be registered aborts the batch with that
    /// row's error (transitions registered before it are discarded with the
    /// builder).
    pub fn add_transitions(self, transitions: &[(&str, &str, &str, &str, Direction)]) -> (r:
        Result<Self, BuilderError>)
        requires
            self.wf(),
        ensures
            r is Ok <==> rows_ok(self@.states, rows_view(transitions@)),
            r matches Ok(b) ==> b.wf() && b@ == (BuilderModel {
                states: apply_rows(self@.states, rows_view(transitions@)),
                ..self@
            }),
            r is Err ==> ({
                let rows = rows_view(transitions@);
                let i = first_bad_row(self@.states, rows)->Some_0;
                let st = apply_rows(self@.states, rows.take(i));
                &&& first_bad_row(self@.states, rows) is Some
                &&& (find_state_index(st, rows[i].0) is None ==> (r matches Err(
                    BuilderError::StateNotFound(n),
                ) && n@ == rows[i].0))
                &&& (find_state_index(st, rows[i].0) is Some && find_state_index(st, rows[i].1)
                    is None ==> (r matches Err(BuilderError::StateNotFound(n)) && n@ == rows[i].1))
                &&& (find_state_index(st, rows[i].0) is Some && find_state_index(st, rows[i].1)
                    is Some ==> (r matches Err(BuilderError::DuplicateTransition { from, read })
                    && from@ == rows[i].0 && read@ == rows[i].2))
            }),
    {
        let ghost rows = rows_view(transitions@);
        let ghost orig = self@;
        let mut b = self;
        let n = transitions.len();
        let mut i: usize = 0;
        proof {
            assert(rows.take(0)
                =~= Seq::<(Seq<char>, Seq<char>, Seq<char>, Seq<char>, Direction)>::empty());
        }
        while i < n
            invariant
                rows == rows_view(transitions@),
                orig == self@,
                orig.initial_state == b@.initial_state,
                orig.accept_states == b@.accept_states,
                orig.tape == b@.tape,
                orig.blank_symbol == b@.blank_symbol,
                n == transitions@.len(),
                i <= n,
                b.wf(),
                b@.states == apply_rows(orig.states, rows.take(i as int)),
                rows_ok(orig.states, rows.take(i as int)),
                first_bad_row(orig.states, rows.take(i as int)) is None,
            decreases n - i,
        {
            let row = transitions[i];
            proof {
                assert(row == transitions@[i as int]);
                assert(rows[i as int] == (row.0@, row.1@, row.2@, row.3@, row.4));
                assert(rows.take(i + 1).drop_last() =~= rows.take(i as int));
                assert(rows.take(i + 1).last() == rows[i as int]);
            }
            let (from, to, read, write, direction) = row;
            let ghost pre = b@;
            b = match b.add_transition(from, to, read, write, direction) {
                Ok(nb) => nb,
                Err(e) => {
                    proof {
                        let here = rows[i as int];
                        assert(!row_ok(apply_rows(orig.states, rows.take(i as int)), here));
                        assert(first_bad_row(orig.states, rows.take(i + 1)) == Some(i as int));
                        lemma_first_bad_row_extends(orig.states, rows, i + 1);
                        lemma_rows_ok_no_bad(orig.states, rows);
                    }
                    return Err(e);
                },
            };
            proof {
                assert(row_ok(apply_rows(orig.states, rows.take(i as int)), rows[i as int]));
                assert(rows_ok(orig.states, rows.take(i + 1)));
                assert(first_bad_row(orig.states, rows.take(i + 1)) is None);
                assert(b@.states == apply_row(pre.states, rows[i as int]));
            }
            i += 1;
        }
        proof {
            assert(rows.take(n as int) =~= rows);
        }
        Ok(b)
    }

    /// Sets the state the machine starts in; it must be registered.
    pub fn set_initial_state(self, name: &str) -> (r: Result<Self, BuilderError>)
        requires
            self.wf(),
        ensures
            r is Ok <==> find_state_index(self@.states, name@) is Some,
            r matches Ok(b) ==> b.wf() && b@ == (BuilderModel {
                initial_state: Some(find_state_index(self@.states, name@)->Some_0),
                ..self@
            }),
            r matches Err(e) ==> (e matches BuilderError::StateNotFound(n) && n@ == name@),
    {
        match find_state(&self.states, name) {
            Some(i) => {
                proof {
                    lemma_find_state_index(self.states.deep_view(), name@);
                }
                let mut b = self;
                b.initial_state = Some(i);
                proof {
                    assert(b@ =~~= (BuilderModel {
                        initial_state: Some(i as int),
                        ..self@
                    }));
                }
                Ok(b)
            },
            None => Err(BuilderError::StateNotFound(name.to_owned())),
        }
    }

    /// Sets (replacing any previous choice) the accept states; every name
    /// must be registered, and the first unknown one is reported.
    pub fn set_accept_states(self, names: &[&str]) -> (r: Result<Self, BuilderError>)
        requires
            self.wf(),
        ensures
            r is Ok <==> resolve_states(self@.states, strs_view(names@)) is Ok,
            r matches Ok(b) ==> b.wf() && b@ == (BuilderModel {
                accept_states: resolve_states(self@.states, strs_view(names@))->Ok_0,
                ..self@
            }),
            r matches Err(e) ==> (e matches BuilderError::StateNotFound(n) && resolve_states(
                self@.states,
                strs_view(names@),
            ) == Err::<Seq<int>, Seq<char>>(n@)),
    {
        let ghost ns = strs_view(names@);
        let mut accepts: Vec<usize> = Vec::new();
        let n = names.len();
        let mut i: usize = 0;
        proof {
            assert(ns.skip(0) =~= ns);
            match resolve_states(self@.states, ns) {
                Ok(rest) => {
                    assert(Seq::new(accepts@.len(), |j: int| accepts@[j] as int) + rest =~= rest);
                },
                Err(_) => {},
            }
        }
        while i < n
            invariant
                ns == strs_view(names@),
                n == names@.len(),
                i <= n,
                accepts@.len() == i,
                forall|j: int|
                    0 <= j < i ==> 0 <= #[trigger] accepts@[j] < self@.states.len(),
                resolve_states(self@.states, ns) == (match resolve_states(
                    self@.states,
                    ns.skip(i as int),
                ) {
                    Ok(rest) => Ok::<Seq<int>, Seq<char>>(
                        Seq::new(accepts@.len(), |j: int| accepts@[j] as int) + rest,
                    ),
                    Err(e) => Err::<Seq<int>, Seq<char>>(e),
                }),
                self.wf(),
            decreases n - i,
        {
            let name: &str = names[i];
            match find_state(&self.states, name) {
                Some(k) => {
                    let ghost before = Seq::new(accepts@.len(), |j: int| accepts@[j] as int);
                    proof {
                        lemma_find_state_index(self.states.deep_view(), name@);
                    }
                    accepts.push(k);
                    proof {
                        assert(ns.skip(i as int).len() > 0);
                        assert(ns.skip(i as int)[0] == name@);
                        assert(ns.skip(i as int).drop_first() =~= ns.skip(i + 1));
                        let now = Seq::new(accepts@.len(), |j: int| accepts@[j] as int);
                        assert(now =~= before.push(k as int));
                        match resolve_states(self@.states, ns.skip(i + 1)) {
                            Ok(rest) => {
                                assert(before + (seq![k as int] + rest) =~= now + rest);
                            },
                            Err(_) => {},
                        }
                    }
                },
                None => {
                    proof {
                        assert(ns.skip(i as int).len() > 0);
                        assert(ns.skip(i as int)[0] == name@);
                        assert(resolve_states(self@.states, ns.skip(i as int)) == Err::<
                            Seq<int>,
                            Seq<char>,
                        >(name@));
                    }
                    return Err(BuilderError::StateNotFound(name.to_owned()));
                },
            }
            i += 1;
        }
        proof {
            assert(ns.skip(n as int).len() == 0);
            assert(resolve_states(self@.states, ns.skip(n as int)) == Ok::<Seq<int>, Seq<char>>(
                Seq::empty(),
            ));
            let now = Seq::new(accepts@.len(), |j: int| accepts@[j] as int);
            assert(now + Seq::<int>::empty() =~= now);
        }
        let mut b = self;
        b.accept_states = accepts;
        proof {
            assert(b@ =~~= (BuilderModel {
                accept_states: resolve_states(self@.states, ns)->Ok_0,
                ..self@
            }));
        }
        Ok(b)
    }

    /// Sets the initial tape contents.
    pub fn set_tape(self, tape: Vec<String>) -> (b: Self)
        requires
            self.wf(),
        ensures
            b.wf(),
            b@ == (BuilderModel { tape: tape.deep_view(), ..self@ }),
    {
        let ghost td = tape.deep_view();
        let mut b = self;
        b.tape = tape;
        proof {
            assert(b@ =~~= (BuilderModel { tape: td, ..self@ }));
        }
        b
    }

    /// Sets the blank symbol used when the tape grows.
    pub fn set_blank_symbol(self, blank_symbol: &str) -> (b: Self)
        requires
            self.wf(),
        ensures
            b.wf(),
            b@ == (BuilderModel { blank_symbol: Some(blank_symbol@), ..self@ }),
    {
        let mut b = self;
        b.blank_symbol = Some(blank_symbol.to_owned());
        proof {
            assert(b@ =~~= (BuilderModel { blank_symbol: Some(blank_symbol@), ..self@ }));
        }
        b
    }

    /// Assembles the machine in its initial configuration. The initial
    /// state and the blank symbol must have been set; everything else
    /// defaults (no accept states, empty tape, which the machine turns into
    /// one blank cell).
    pub fn build(self) -> (r: Result<TuringMachine, BuilderError>)
        requires
            self.wf(),
        ensures
            self@.initial_state is None ==> r matches Err(BuilderError::MissingInitialState),
            self@.initial_state is Some && self@.blank_symbol is None ==> r matches Err(
                BuilderError::MissingBlankSymbol,
            ),
            self@.initial_state is Some && self@.blank_symbol is Some ==> (r matches Ok(m)
                && m.wf() && m@ == (MachineModel {
                states: self@.states,
                current_state: self@.initial_state->Some_0,
                accept_states: self@.accept_states,
                tape: if self@.tape.len() == 0 {
                    seq![self@.blank_symbol->Some_0]
                } else {
                    self@.tape
                },
                tape_ptr: 0,
                start_ptr: 0,
                blank: self@.blank_symbol->Some_0,
                status: Status::Running,
                snapshots: Seq::empty(),
            })),
    {
        let TuringMachineBuilder { states, initial_state, accept_states, tape, blank_symbol } =
            self;
        let initial = match initial_state {
            Some(i) => i,
            None => {
                return Err(BuilderError::MissingInitialState);
            },
        };
        let blank = match blank_symbol {
            Some(b) => b,
            None => {
                return Err(BuilderError::MissingBlankSymbol);
            },
        };
        let m = TuringMachine::new(states, initial, accept_states, tape, blank);
        Ok(m)
    }
}

} // verus!
