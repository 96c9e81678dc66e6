use crate::builder::{find_state, find_state_index, lemma_find_state_index};
use crate::state::{
    find_transition, lemma_find_transition_member, lemma_find_transition_none, Direction, State,
    StateModel, Transition, TransitionModel,
};
use crate::tokenizer::{string_to_tape, tokenize_spec, InvalidSymbol};
use crate::turing_machine::{states_wf, MachineModel, Status, TuringMachine};
use crate::util::clone_string_vec;
use vstd::prelude::*;

verus! {

/// One row of a parsed machine definition: a transition given by state
/// names and symbols.
#[derive(Debug, Clone)]
pub struct ConfigTransition {
    pub from: String,
    pub to: String,
    pub read: String,
    pub write: String,
    pub direction: Direction,
}

/// Mathematical image of a `ConfigTransition`.
#[verifier::ext_equal]
pub struct ConfigTransitionModel {
    pub from: Seq<char>,
    pub to: Seq<char>,
    pub read: Seq<char>,
    pub write: Seq<char>,
    pub direction: Direction,
}

impl View for ConfigTransition {
    type V = ConfigTransitionModel;

    open spec fn view(&self) -> ConfigTransitionModel {
        ConfigTransitionModel {
            from: self.from@,
            to: self.to@,
            read: self.read@,
            write: self.write@,
            direction: self.direction,
        }
    }
}

impl DeepView for ConfigTransition {
    type V = ConfigTransitionModel;

    open spec fn deep_view(&self) -> ConfigTransitionModel {
        self.view()
    }
}

/// A parsed machine definition: the transition table, the initial state
/// name, the accept state names, and the blank symbol. How such a value is
/// read from disk (and in which serialization format) is the caller's
/// business; the machine is constructed and validated here.
#[derive(Debug)]
pub struct Config {
    pub transitions: Vec<ConfigTransition>,
    pub initial_state: String,
    pub accept_states: Vec<String>,
    pub blank: String,
}

/// Mathematical image of a `Config`.
#[verifier::ext_equal]
pub struct ConfigModel {
    pub transitions: Seq<ConfigTransitionModel>,
    pub initial_state: Seq<char>,
    pub accept_states: Seq<Seq<char>>,
    pub blank: Seq<char>,
}

impl View for Config {
    type V = ConfigModel;

    open spec fn view(&self) -> ConfigModel {
        ConfigModel {
            transitions: self.transitions.deep_view(),
            initial_state: self.initial_state@,
            accept_states: self.accept_states.deep_view(),
            blank: self.blank@,
        }
    }
}

/// Errors of machine construction from a parsed definition. Each carries
/// the context needed for a precise diagnostic.
#[derive(Debug)]
pub enum ConfigError {
    /// The initial state's name occurs in no transition; `valid` lists every
    /// state name the transition table mentions.
    UnknownInitialState { name: String, valid: Vec<String> },
    /// Some accept state's name occurs in no transition; the whole accept
    /// list and every valid state name are reported.
    UnknownAcceptState { accept_states: Vec<String>, valid: Vec<String> },
    /// Two transitions leave the same state on the same read symbol: the
    /// machine must be deterministic.
    DuplicateTransition { from: String, read: String },
    /// The raw tape string cannot be tokenized over the machine's alphabet.
    InvalidSymbol(InvalidSymbol),
}

/// Appends `x` unless it is already present.
pub open spec fn push_unique(acc: Seq<Seq<char>>, x: Seq<char>) -> Seq<Seq<char>> {
    if acc.contains(x) {
        acc
    } else {
        acc.push(x)
    }
}

/// The state names a transition table mentions, each once, in order of
/// first occurrence (`from` before `to`, row by row).
pub open spec fn collect_names(ts: Seq<ConfigTransitionModel>) -> Seq<Seq<char>>
    decreases ts.len(),
{
    if ts.len() == 0 {
        Seq::empty()
    } else {
        push_unique(push_unique(collect_names(ts.drop_last()), ts.last().from), ts.last().to)
    }
}

/// The tape symbols a transition table mentions (`read` before `write`,
/// row by row), each once, in order of first occurrence: the machine's
/// alphabet.
pub open spec fn collect_symbols(ts: Seq<ConfigTransitionModel>) -> Seq<Seq<char>>
    decreases ts.len(),
{
    if ts.len() == 0 {
        Seq::empty()
    } else {
        push_unique(push_unique(collect_symbols(ts.drop_last()), ts.last().read), ts.last().write)
    }
}

/// Index of the first occurrence of `name` in `names`, if any.
pub open spec fn find_name_index(names: Seq<Seq<char>>, name: Seq<char>) -> Option<int>
    decreases names.len(),
{
    if names.len() == 0 {
        None
    } else if names[0] == name {
        Some(0)
    } else {
        match find_name_index(names.drop_first(), name) {
            Some(i) => Some(i + 1),
            None => None,
        }
    }
}

/// What `find_name_index` returns: an in-range index of the name, or a
/// guarantee of absence; present exactly when the sequence contains it.
pub proof fn lemma_find_name_index(names: Seq<Seq<char>>, name: Seq<char>)
    ensures
        find_name_index(names, name) matches Some(i) ==> 0 <= i < names.len() && names[i as int]
            == name,
        find_name_index(names, name) is None <==> !names.contains(name),
    decreases names.len(),
{
    if names.len() > 0 && names[0] != name {
        lemma_find_name_index(names.drop_first(), name);
        match find_name_index(names.drop_first(), name) {
            Some(i) => {
                assert(names.drop_first()[i] == names[i + 1]);
            },
            None => {
                if names.contains(name) {
                    let j = choose|j: int| 0 <= j < names.len() && names[j] == name;
                    assert(names.drop_first()[j - 1] == names[j]);
                }
            },
        }
    }
}

/// A registry whose state names mirror `names` is searched the same way.
proof fn lemma_find_state_vs_name(states: Seq<StateModel>, names: Seq<Seq<char>>, x: Seq<char>)
    requires
        states.len() == names.len(),
        forall|k: int| 0 <= k < names.len() ==> (#[trigger] states[k]).name == names[k],
    ensures
        find_state_index(states, x) == find_name_index(names, x),
    decreases names.len(),
{
    if names.len() > 0 {
        assert forall|k: int|
            0 <= k < names.drop_first().len() implies (#[trigger] states.drop_first()[k]).name
            == names.drop_first()[k] by {
            assert(states.drop_first()[k] == states[k + 1]);
            assert(names.drop_first()[k] == names[k + 1]);
        }
        lemma_find_state_vs_name(states.drop_first(), names.drop_first(), x);
    }
}

/// `push_unique` keeps what is there and never introduces duplicates.
proof fn lemma_push_unique(acc: Seq<Seq<char>>, x: Seq<char>)
    requires
        forall|i: int, j: int|
            0 <= i < acc.len() && 0 <= j < acc.len() && i != j ==> acc[i] != acc[j],
    ensures
        forall|i: int, j: int|
            0 <= i < push_unique(acc, x).len() && 0 <= j < push_unique(acc, x).len() && i != j
                ==> push_unique(acc, x)[i] != push_unique(acc, x)[j],
        push_unique(acc, x).contains(x),
        forall|y: Seq<char>| acc.contains(y) ==> push_unique(acc, x).contains(y),
        forall|y: Seq<char>| push_unique(acc, x).contains(y) ==> acc.contains(y) || y == x,
{
    let out = push_unique(acc, x);
    if acc.contains(x) {
    } else {
        assert(out[acc.len() as int] == x);
        assert forall|i: int, j: int|
            0 <= i < out.len() && 0 <= j < out.len() && i != j implies out[i] != out[j] by {
            if i < acc.len() && j < acc.len() {
            } else if i < acc.len() {
                assert(out[i] == acc[i]);
                if out[i] == x {
                    assert(acc.contains(x));
                }
            } else {
                assert(out[j] == acc[j]);
                if out[j] == x {
                    assert(acc.contains(x));
                }
            }
        }
        assert forall|y: Seq<char>| acc.contains(y) implies out.contains(y) by {
            let i = choose|i: int| 0 <= i < acc.len() && acc[i] == y;
            assert(out[i] == y);
        }
        assert forall|y: Seq<char>| out.contains(y) implies acc.contains(y) || y == x by {
            let i = choose|i: int| 0 <= i < out.len() && out[i] == y;
            if i < acc.len() {
                assert(acc[i] == y);
            }
        }
    }
}

/// The collected names are pairwise distinct and cover exactly the `from`
/// and `to` fields of the table.
pub proof fn lemma_collect_names(ts: Seq<ConfigTransitionModel>)
    ensures
        forall|i: int, j: int|
            0 <= i < collect_names(ts).len() && 0 <= j < collect_names(ts).len() && i != j
                ==> collect_names(ts)[i] != collect_names(ts)[j],
        forall|i: int|
            0 <= i < ts.len() ==> collect_names(ts).contains((#[trigger] ts[i]).from)
                && collect_names(ts).contains(ts[i].to),
    decreases ts.len(),
{
    if ts.len() > 0 {
        lemma_collect_names(ts.drop_last());
        let prev = collect_names(ts.drop_last());
        lemma_push_unique(prev, ts.last().from);
        lemma_push_unique(push_unique(prev, ts.last().from), ts.last().to);
        assert forall|i: int|
            0 <= i < ts.len() implies collect_names(ts).contains((#[trigger] ts[i]).from)
            && collect_names(ts).contains(ts[i].to) by {
            if i < ts.len() - 1 {
                assert(ts.drop_last()[i] == ts[i]);
                assert(prev.contains(ts[i].from) && prev.contains(ts[i].to));
            }
        }
    }
}

/// The collected alphabet covers exactly the `read` and `write` fields.
pub proof fn lemma_collect_symbols(ts: Seq<ConfigTransitionModel>)
    ensures
        forall|i: int|
            0 <= i < ts.len() ==> collect_symbols(ts).contains((#[trigger] ts[i]).read)
                && collect_symbols(ts).contains(ts[i].write),
    decreases ts.len(),
{
    if ts.len() > 0 {
        lemma_collect_symbols(ts.drop_last());
        let prev = collect_symbols(ts.drop_last());
        assert forall|i: int|
            0 <= i < ts.len() implies collect_symbols(ts).contains((#[trigger] ts[i]).read)
            && collect_symbols(ts).contains(ts[i].write) by {
            assert(collect_symbols(ts) == push_unique(
                push_unique(prev, ts.last().read),
                ts.last().write,
            ));
            if i < ts.len() - 1 {
                assert(ts.drop_last()[i] == ts[i]);
                assert(prev.contains(ts[i].read) && prev.contains(ts[i].write));
                assert forall|y: Seq<char>|
                    prev.contains(y) implies collect_symbols(ts).contains(y) by {
                    let k = choose|k: int| 0 <= k < prev.len() && prev[k] == y;
                    assert(push_unique(prev, ts.last().read)[k] == y);
                    assert(push_unique(prev, ts.last().read).contains(y));
                    let q = push_unique(prev, ts.last().read);
                    let k2 = choose|k2: int| 0 <= k2 < q.len() && q[k2] == y;
                    assert(push_unique(q, ts.last().write)[k2] == y);
                }
            } else {
                let q = push_unique(prev, ts.last().read);
                assert(q.contains(ts.last().read)) by {
                    if !prev.contains(ts.last().read) {
                        assert(q[prev.len() as int] == ts.last().read);
                    }
                }
                let k = choose|k: int| 0 <= k < q.len() && q[k] == ts.last().read;
                assert(push_unique(q, ts.last().write)[k] == ts.last().read);
                assert(push_unique(q, ts.last().write).contains(ts.last().write)) by {
                    if q.contains(ts.last().write) {
                        let k2 = choose|k2: int| 0 <= k2 < q.len() && q[k2] == ts.last().write;
                        assert(push_unique(q, ts.last().write)[k2] == ts.last().write);
                    } else {
                        assert(push_unique(q, ts.last().write)[q.len() as int] == ts.last().write);
                    }
                }
            }
        }
    }
}

/// The transitions of the table that leave the state called `name`, in
/// table order, with their targets resolved to registry indices.
pub open spec fn trans_for(
    ts: Seq<ConfigTransitionModel>,
    names: Seq<Seq<char>>,
    name: Seq<char>,
) -> Seq<TransitionModel>
    decreases ts.len(),
{
    if ts.len() == 0 {
        Seq::empty()
    } else {
        let rest = trans_for(ts.drop_last(), names, name);
        if ts.last().from == name {
            rest.push(
                TransitionModel {
                    to: find_name_index(names, ts.last().to)->Some_0,
                    read: ts.last().read,
                    write: ts.last().write,
                    move_head: ts.last().direction,
                },
            )
        } else {
            rest
        }
    }
}

/// The state registry a transition table describes: one state per collected
/// name, carrying the table's transitions that leave it.
pub open spec fn built_states(
    ts: Seq<ConfigTransitionModel>,
    names: Seq<Seq<char>>,
) -> Seq<StateModel> {
    Seq::new(names.len(), |k: int| StateModel { name: names[k], transitions: trans_for(ts, names, names[k]) })
}

/// A state's resolved transitions read a symbol exactly when some table row
/// leaving that state reads it.
proof fn lemma_trans_for_reads(
    ts: Seq<ConfigTransitionModel>,
    names: Seq<Seq<char>>,
    name: Seq<char>,
    r: Seq<char>,
)
    ensures
        (exists|k: int|
            0 <= k < trans_for(ts, names, name).len() && (#[trigger] trans_for(
                ts,
                names,
                name,
            )[k]).read == r) <==> (exists|j: int|
            0 <= j < ts.len() && (#[trigger] ts[j]).from == name && ts[j].read == r),
    decreases ts.len(),
{
    if ts.len() > 0 {
        lemma_trans_for_reads(ts.drop_last(), names, name, r);
        let prev = trans_for(ts.drop_last(), names, name);
        let cur = trans_for(ts, names, name);
        if exists|k: int| 0 <= k < cur.len() && (#[trigger] cur[k]).read == r {
            let k = choose|k: int| 0 <= k < cur.len() && (#[trigger] cur[k]).read == r;
            if k < prev.len() {
                assert(prev[k].read == r);
                let j = choose|j: int|
                    0 <= j < ts.drop_last().len() && (#[trigger] ts.drop_last()[j]).from == name
                        && ts.drop_last()[j].read == r;
                assert(ts[j] == ts.drop_last()[j]);
            } else {
                assert(ts.last().from == name && ts.last().read == r);
                assert(ts[ts.len() - 1].from == name && ts[ts.len() - 1].read == r);
            }
        }
        if exists|j: int| 0 <= j < ts.len() && (#[trigger] ts[j]).from == name && ts[j].read == r {
            let j = choose|j: int|
                0 <= j < ts.len() && (#[trigger] ts[j]).from == name && ts[j].read == r;
            if j < ts.len() - 1 {
                assert(ts.drop_last()[j] == ts[j]);
                let k = choose|k: int|
                    0 <= k < prev.len() && (#[trigger] prev[k]).read == r;
                assert(cur[k] == prev[k]);
            } else {
                assert(cur[cur.len() - 1].read == r);
            }
        }
    }
}

/// Whether row `i` repeats the (state, read symbol) pair of an earlier row.
pub open spec fn dup_at(ts: Seq<ConfigTransitionModel>, i: int) -> bool {
    exists|j: int|
        0 <= j < i && (#[trigger] ts[j]).from == ts[i].from && ts[j].read == ts[i].read
}

/// The first row that repeats an earlier row's (state, read symbol) pair.
pub open spec fn first_dup(ts: Seq<ConfigTransitionModel>) -> Option<int>
    decreases ts.len(),
{
    if ts.len() == 0 {
        None
    } else {
        match first_dup(ts.drop_last()) {
            Some(i) => Some(i),
            None => if dup_at(ts, ts.len() - 1) {
                Some(ts.len() - 1)
            } else {
                None
            },
        }
    }
}

/// Once a prefix holds a duplicate, the whole table reports the same one.
proof fn lemma_first_dup_extends(ts: Seq<ConfigTransitionModel>, m: int)
    requires
        0 <= m <= ts.len(),
        first_dup(ts.take(m)) is Some,
    ensures
        first_dup(ts) == first_dup(ts.take(m)),
    decreases ts.len() - m,
{
    if m < ts.len() {
        assert(ts.take(m + 1).drop_last() =~= ts.take(m));
        lemma_first_dup_extends(ts, m + 1);
    } else {
        assert(ts.take(m) =~= ts);
    }
}

/// The accept names resolved to registry indices (meaningful when every
/// name is present).
pub open spec fn accept_indices(names: Seq<Seq<char>>, accs: Seq<Seq<char>>) -> Seq<int> {
    Seq::new(accs.len(), |j: int| find_name_index(names, accs[j])->Some_0)
}

/// Does `v` hold a string with exactly these characters?
fn contains_string(v: &Vec<String>, s: &String) -> (r: bool)
    ensures
        r == v.deep_view().contains(s@),
{
    let mut i: usize = 0;
    while i < v.len()
        invariant
            i <= v@.len(),
            forall|j: int| 0 <= j < i ==> v.deep_view()[j] != s@,
        decreases v@.len() - i,
    {
        proof {
            assert(v.deep_view()[i as int] == v@[i as int]@);
        }
        if v[i] == *s {
            proof {
                assert(v.deep_view()[i as int] == s@);
            }
            return true;
        }
        i += 1;
    }
    proof {
        if v.deep_view().contains(s@) {
            let j = choose|j: int| 0 <= j < v.deep_view().len() && v.deep_view()[j] == s@;
            assert(false);
        }
    }
    false
}

/// Builds the machine a parsed definition describes: the state registry is
/// derived from the transition table (every `from`/`to` name, first
/// occurrence order), the table is checked deterministic, the initial and
/// accept state names are validated against the registry, and the raw tape
/// string is tokenized over the alphabet of all `read`/`write` symbols.
/// Errors, in order of precedence: a duplicate (state, read) pair; an
/// unknown initial state; an unknown accept state; an untokenizable tape.
#[verifier::loop_isolation(false)]
#[verifier::rlimit(30)]
pub fn turing_machine_from_config(config: &Config, tape: String) -> (r: Result<
    TuringMachine,
    ConfigError,
>)
    ensures
        ({
            let c = config@;
            let names = collect_names(c.transitions);
            let alpha = collect_symbols(c.transitions);
            &&& (first_dup(c.transitions) matches Some(i) ==> (r matches Err(
                ConfigError::DuplicateTransition { from, read },
            ) && from@ == c.transitions[i].from && read@ == c.transitions[i].read))
            &&& (first_dup(c.transitions) is None && find_name_index(names, c.initial_state)
                is None ==> (r matches Err(ConfigError::UnknownInitialState { name, valid })
                && name@ == c.initial_state && valid.deep_view() == names))
            &&& (first_dup(c.transitions) is None && find_name_index(names, c.initial_state)
                is Some && !(forall|j: int|
                0 <= j < c.accept_states.len() ==> names.contains(#[trigger] c.accept_states[j]))
                ==> (r matches Err(ConfigError::UnknownAcceptState { accept_states, valid })
                && accept_states.deep_view() == c.accept_states && valid.deep_view() == names))
            &&& (first_dup(c.transitions) is None && find_name_index(names, c.initial_state)
                is Some && (forall|j: int|
                0 <= j < c.accept_states.len() ==> names.contains(#[trigger] c.accept_states[j]))
                && tokenize_spec(alpha, tape@) is Err ==> (r matches Err(
                ConfigError::InvalidSymbol(e),
            ) && e.text@ == tokenize_spec(alpha, tape@)->Err_0 && e.alphabet.deep_view() == alpha))
            &&& (first_dup(c.transitions) is None && find_name_index(names, c.initial_state)
                is Some && (forall|j: int|
                0 <= j < c.accept_states.len() ==> names.contains(#[trigger] c.accept_states[j]))
                && tokenize_spec(alpha, tape@) is Ok ==> (r matches Ok(m) && m.wf() && m@ == (
            MachineModel {
                states: built_states(c.transitions, names),
                current_state: find_name_index(names, c.initial_state)->Some_0,
                accept_states: accept_indices(names, c.accept_states),
                tape: {
                    let toks = tokenize_spec(alpha, tape@)->Ok_0;
                    if toks.len() == 0 {
                        seq![c.blank]
                    } else {
                        toks
                    }
                },
                tape_ptr: 0,
                start_ptr: 0,
                blank: c.blank,
                status: Status::Running,
                snapshots: Seq::empty(),
            })))
        }),
{
    let ghost c = config@;
    let ghost cts = c.transitions;
    let n = config.transitions.len();

    // the state names the table mentions, in order of first occurrence
    let mut names: Vec<String> = Vec::new();
    let mut i: usize = 0;
    proof {
        assert(cts.take(0) =~= Seq::<ConfigTransitionModel>::empty());
        assert(names.deep_view() =~= collect_names(cts.take(0)));
    }
    while i < n
        invariant
            i <= n,
            names.deep_view() == collect_names(cts.take(i as int)),
        decreases n - i,
    {
        let t = &config.transitions[i];
        proof {
            assert(*t == config.transitions@[i as int]);
            assert(cts[i as int] == config.transitions@[i as int]@);
            assert(cts.take(i + 1).drop_last() =~= cts.take(i as int));
            assert(cts.take(i + 1).last() == cts[i as int]);
        }
        let ghost before = names.deep_view();
        if !contains_string(&names, &t.from) {
            names.push(t.from.clone());
            proof {
                assert(names.deep_view() =~= before.push(cts[i as int].from));
            }
        }
        let ghost mid = names.deep_view();
        proof {
            assert(mid == push_unique(before, cts[i as int].from));
        }
        if !contains_string(&names, &t.to) {
            names.push(t.to.clone());
            proof {
                assert(names.deep_view() =~= mid.push(cts[i as int].to));
            }
        }
        proof {
            assert(names.deep_view() == push_unique(mid, cts[i as int].to));
        }
        i += 1;
    }
    proof {
        assert(cts.take(n as int) =~= cts);
    }
    let ghost nd = names.deep_view();
    proof {
        lemma_collect_names(cts);
    }

    // one bare state per name
    let mut states: Vec<State> = Vec::new();
    let mut k: usize = 0;
    while k < names.len()
        invariant
            k <= names@.len(),
            states@.len() == k,
            forall|l: int| 0 <= l < k ==> (#[trigger] states.deep_view()[l]).name == nd[l],
            forall|l: int|
                0 <= l < k ==> (#[trigger] states.deep_view()[l]).transitions
                    == Seq::<TransitionModel>::empty(),
        decreases names@.len() - k,
    {
        let empty_ts: Vec<Transition> = Vec::new();
        let nm = &names[k];
        proof {
            assert(empty_ts.deep_view() =~= Seq::<TransitionModel>::empty());
            assert(*nm == names@[k as int]);
            assert(nd[k as int] == names@[k as int]@);
        }
        let ns = State::new(nm.as_str(), empty_ts);
        let ghost nsg = ns@;
        let ghost pre_deep = states.deep_view();
        states.push(ns);
        proof {
            assert(states.deep_view() =~= pre_deep.push(nsg));
            assert(nsg.name == nd[k as int]);
        }
        k += 1;
    }
    proof {
        assert(states@.len() == nd.len());
        assert forall|l: int|
            0 <= l < nd.len() implies (#[trigger] states.deep_view()[l]).transitions == trans_for(
            cts.take(0),
            nd,
            nd[l],
        ) by {
            assert(cts.take(0) =~= Seq::<ConfigTransitionModel>::empty());
        }
        assert(first_dup(cts.take(0)) is None) by {
            assert(cts.take(0) =~= Seq::<ConfigTransitionModel>::empty());
        }
    }

    // wire the transitions, rejecting duplicates of a (state, read) pair
    let mut i: usize = 0;
    while i < n
        invariant
            i <= n,
            states@.len() == nd.len(),
            forall|l: int| 0 <= l < nd.len() ==> (#[trigger] states.deep_view()[l]).name == nd[l],
            forall|l: int|
                0 <= l < nd.len() ==> (#[trigger] states.deep_view()[l]).transitions == trans_for(
                    cts.take(i as int),
                    nd,
                    nd[l],
                ),
            states_wf(states.deep_view()),
            first_dup(cts.take(i as int)) is None,
        decreases n - i,
    {
        let t = &config.transitions[i];
        proof {
            assert(*t == config.transitions@[i as int]);
            assert(cts[i as int] == config.transitions@[i as int]@);
            lemma_find_state_vs_name(states.deep_view(), nd, cts[i as int].from);
            lemma_find_state_vs_name(states.deep_view(), nd, cts[i as int].to);
            lemma_find_name_index(nd, cts[i as int].from);
            lemma_find_name_index(nd, cts[i as int].to);
        }
        let fi = match find_state(&states, t.from.as_str()) {
            Some(x) => x,
            None => {
                proof {
                    assert(nd.contains(cts[i as int].from));
                    assert(false);
                }
                vstd::pervasive::unreached()
            },
        };
        let ti = match find_state(&states, t.to.as_str()) {
            Some(x) => x,
            None => {
                proof {
                    assert(nd.contains(cts[i as int].to));
                    assert(false);
                }
                vstd::pervasive::unreached()
            },
        };
        let from_state = &states[fi];
        proof {
            assert(*from_state == states@[fi as int]);
            assert(states.deep_view()[fi as int] == states@[fi as int]@);
            lemma_find_state_index(states.deep_view(), cts[i as int].from);
            lemma_find_state_index(states.deep_view(), cts[i as int].to);
        }
        let ghost ftrans = states.deep_view()[fi as int].transitions;
        match from_state.transition(t.read.as_str()) {
            Ok(_) => {
                // a second edge for this (state, read) pair
                proof {
                    lemma_find_transition_member(ftrans, cts[i as int].read);
                    let e = find_transition(ftrans, cts[i as int].read)->Some_0;
                    let ki = choose|ki: int| 0 <= ki < ftrans.len() && ftrans[ki] == e;
                    lemma_trans_for_reads(
                        cts.take(i as int),
                        nd,
                        nd[fi as int],
                        cts[i as int].read,
                    );
                    let j = choose|j: int|
                        0 <= j < cts.take(i as int).len() && (#[trigger] cts.take(
                            i as int,
                        )[j]).from == nd[fi as int] && cts.take(i as int)[j].read == cts[
                            i as int
                        ].read;
                    assert(cts.take(i + 1)[j] == cts[j]);
                    assert(cts.take(i + 1)[i as int] == cts[i as int]);
                    assert(dup_at(cts.take(i + 1), i as int));
                    assert(cts.take(i + 1).drop_last() =~= cts.take(i as int));
                    assert(first_dup(cts.take(i + 1)) == Some(i as int));
                    lemma_first_dup_extends(cts, i + 1);
                }
                return Err(
                    ConfigError::DuplicateTransition {
                        from: t.from.clone(),
                        read: t.read.clone(),
                    },
                );
            },
            Err(_) => {
                proof {
                    lemma_find_transition_none(ftrans, cts[i as int].read);
                    lemma_trans_for_reads(
                        cts.take(i as int),
                        nd,
                        nd[fi as int],
                        cts[i as int].read,
                    );
                    assert(!dup_at(cts.take(i + 1), i as int)) by {
                        if dup_at(cts.take(i + 1), i as int) {
                            let j = choose|j: int|
                                0 <= j < i && (#[trigger] cts.take(i + 1)[j]).from == cts.take(
                                    i + 1,
                                )[i as int].from && cts.take(i + 1)[j].read == cts.take(
                                    i + 1,
                                )[i as int].read;
                            assert(cts.take(i as int)[j] == cts[j]);
                            assert(cts.take(i as int)[j].from == nd[fi as int]);
                            assert(cts.take(i as int)[j].read == cts[i as int].read);
                        }
                    }
                    assert(cts.take(i + 1).drop_last() =~= cts.take(i as int));
                    assert(first_dup(cts.take(i + 1)) is None);
                }
            },
        }
        let ghost pre_states = states.deep_view();
        let mut st = states.remove(fi);
        st.add_transition(Transition::new(ti, t.read.as_str(), t.write.as_str(), t.direction));
        let ghost st_new = st@;
        states.insert(fi, st);
        proof {
            assert(states.deep_view() =~= pre_states.update(fi as int, st_new));
            assert(cts.take(i + 1).drop_last() =~= cts.take(i as int));
            assert(cts.take(i + 1).last() == cts[i as int]);
            assert forall|l: int|
                0 <= l < nd.len() implies (#[trigger] states.deep_view()[l]).transitions
                == trans_for(cts.take(i + 1), nd, nd[l]) by {
                if l == fi as int {
                    assert(states.deep_view()[l].transitions == ftrans.push(
                        TransitionModel {
                            to: ti as int,
                            read: cts[i as int].read,
                            write: cts[i as int].write,
                            move_head: cts[i as int].direction,
                        },
                    ));
                    assert(find_name_index(nd, cts[i as int].to) == Some(ti as int));
                } else {
                    assert(states.deep_view()[l] == pre_states[l]);
                    assert(nd[l] != nd[fi as int] || l == fi as int) by {
                        lemma_collect_names(cts);
                    }
                }
            }
            assert forall|a: int, b: int|
                0 <= a < states.deep_view().len() && 0 <= b
                    < states.deep_view()[a].transitions.len() implies 0 <= (
            #[trigger] states.deep_view()[a].transitions[b]).to < states.deep_view().len() by {
                if a == fi as int && b == states.deep_view()[a].transitions.len() - 1 {
                    lemma_find_name_index(nd, cts[i as int].to);
                } else {
                    assert(states.deep_view()[a].transitions[b]
                        == pre_states[a].transitions[b]);
                }
            }
        }
        i += 1;
    }
    proof {
        assert(cts.take(n as int) =~= cts);
        lemma_find_name_index(nd, c.initial_state);
        lemma_find_state_vs_name(states.deep_view(), nd, c.initial_state);
    }

    // the initial state must be one of the table's states
    let initial = match find_state(&states, config.initial_state.as_str()) {
        Some(x) => x,
        None => {
            return Err(
                ConfigError::UnknownInitialState {
                    name: config.initial_state.clone(),
                    valid: names,
                },
            );
        },
    };

    // so must every accept state
    let mut accepts: Vec<usize> = Vec::new();
    let mut j: usize = 0;
    let na = config.accept_states.len();
    while j < na
        invariant
            j <= na,
            na == c.accept_states.len(),
            accepts@.len() == j,
            forall|l: int|
                0 <= l < j ==> Some(#[trigger] accepts@[l] as int) == find_name_index(
                    nd,
                    c.accept_states[l],
                ),
            forall|l: int| 0 <= l < j ==> 0 <= #[trigger] accepts@[l] < states@.len(),
            forall|l: int| 0 <= l < j ==> nd.contains(#[trigger] c.accept_states[l]),
        decreases na - j,
    {
        proof {
            assert(c.accept_states[j as int] == config.accept_states@[j as int]@);
            lemma_find_state_vs_name(states.deep_view(), nd, c.accept_states[j as int]);
            lemma_find_name_index(nd, c.accept_states[j as int]);
        }
        let name = &config.accept_states[j];
        match find_state(&states, name.as_str()) {
            Some(x) => {
                proof {
                    lemma_find_state_index(states.deep_view(), c.accept_states[j as int]);
                }
                accepts.push(x);
            },
            None => {
                return Err(
                    ConfigError::UnknownAcceptState {
                        accept_states: clone_string_vec(&config.accept_states),
                        valid: names,
                    },
                );
            },
        }
        j += 1;
    }

    // the alphabet: every symbol a transition reads or writes
    let mut alphabet: Vec<String> = Vec::new();
    let mut i: usize = 0;
    proof {
        assert(cts.take(0) =~= Seq::<ConfigTransitionModel>::empty());
        assert(alphabet.deep_view() =~= collect_symbols(cts.take(0)));
    }
    while i < n
        invariant
            i <= n,
            alphabet.deep_view() == collect_symbols(cts.take(i as int)),
        decreases n - i,
    {
        let t = &config.transitions[i];
        proof {
            assert(*t == config.transitions@[i as int]);
            assert(cts[i as int] == config.transitions@[i as int]@);
            assert(cts.take(i + 1).drop_last() =~= cts.take(i as int));
            assert(cts.take(i + 1).last() == cts[i as int]);
        }
        let ghost before = alphabet.deep_view();
        if !contains_string(&alphabet, &t.read) {
            alphabet.push(t.read.clone());
            proof {
                assert(alphabet.deep_view() =~= before.push(cts[i as int].read));
            }
        }
        let ghost mid = alphabet.deep_view();
        proof {
            assert(mid == push_unique(before, cts[i as int].read));
        }
        if !contains_string(&alphabet, &t.write) {
            alphabet.push(t.write.clone());
            proof {
                assert(alphabet.deep_view() =~= mid.push(cts[i as int].write));
            }
        }
        proof {
            assert(alphabet.deep_view() == push_unique(mid, cts[i as int].write));
        }
        i += 1;
    }
    proof {
        assert(cts.take(n as int) =~= cts);
        lemma_collect_symbols(cts);
        lemma_find_name_index(nd, c.initial_state);
        assert(nd.contains(c.initial_state));
        assert(cts.len() > 0) by {
            if cts.len() == 0 {
                assert(nd =~= Seq::<Seq<char>>::empty());
            }
        }
        assert(alphabet.deep_view().contains(cts[0].read));
        assert(alphabet@.len() == alphabet.deep_view().len());
        assert(alphabet@.len() > 0);
    }

    // tokenize the raw tape over the alphabet
    let toks = match string_to_tape(tape.as_str(), &alphabet) {
        Ok(v) => v,
        Err(e) => {
            return Err(ConfigError::InvalidSymbol(e));
        },
    };

    let m = TuringMachine::new(states, initial, accepts, toks, config.blank.clone());
    proof {
        assert(m@.states =~~= built_states(cts, nd));
        assert(m@.accept_states =~= accept_indices(nd, c.accept_states));
        assert(m@ =~~= (MachineModel {
            states: built_states(cts, nd),
            current_state: find_name_index(nd, c.initial_state)->Some_0,
            accept_states: accept_indices(nd, c.accept_states),
            tape: {
                let toks_s = tokenize_spec(collect_symbols(cts), tape@)->Ok_0;
                if toks_s.len() == 0 {
                    seq![c.blank]
                } else {
                    toks_s
                }
            },
            tape_ptr: 0,
            start_ptr: 0,
            blank: c.blank,
            status: Status::Running,
            snapshots: Seq::empty(),
        }));
    }
    Ok(m)
}

} // verus!
