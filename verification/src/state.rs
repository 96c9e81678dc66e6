use vstd::prelude::*;

verus! {

/// Signal that no transition of the current state matches the symbol under
/// the head. This is not a malformed-machine error: it is the machine's
/// normal halting condition, which the engine resolves into a terminal
/// `Accept` or `Reject` status.
#[derive(Debug, Clone, Copy, PartialEq, Eq, Structural)]
pub struct Stuck;

/// Which way the head moves after a transition writes its symbol.
#[derive(Debug, Clone, Copy, PartialEq, Eq, Structural)]
pub enum Direction {
    Left,
    Right,
}

/// Mathematical image of a `Transition`: the target state's index in the
/// owning registry, and the symbols as character sequences.
#[verifier::ext_equal]
pub struct TransitionModel {
    pub to: int,
    pub read: Seq<char>,
    pub write: Seq<char>,
    pub move_head: Direction,
}

/// One edge of the state graph: when `read` is under the head, write
/// `write`, move the head in direction `move_head`, and continue at the
/// state stored at index `to` of the owning state registry.
#[derive(Debug, Clone)]
pub struct Transition {
    to: usize,
    read: String,
    write: String,
    move_head: Direction,
}

impl View for Transition {
    type V = TransitionModel;

    closed spec fn view(&self) -> TransitionModel {
        TransitionModel {
            to: self.to as int,
            read: self.read@,
            write: self.write@,
            move_head: self.move_head,
        }
    }
}

impl DeepView for Transition {
    type V = TransitionModel;

    open spec fn deep_view(&self) -> TransitionModel {
        self.view()
    }
}

impl Transition {
    pub fn new(to: usize, read: &str, write: &str, move_head: Direction) -> (t: Self)
        ensures
            t@ == (TransitionModel { to: to as int, read: read@, write: write@, move_head }),
    {
        Transition { to, read: read.to_owned(), write: write.to_owned(), move_head }
    }
}

/// Mathematical image of a `State`.
#[verifier::ext_equal]
pub struct StateModel {
    pub name: Seq<char>,
    pub transitions: Seq<TransitionModel>,
}

/// A named state together with its ordered list of outgoing transitions.
#[derive(Debug, Clone)]
pub struct State {
    pub name: String,
    pub(crate) transitions: Vec<Transition>,
}

impl View for State {
    type V = StateModel;

    closed spec fn view(&self) -> StateModel {
        StateModel { name: self.name@, transitions: self.transitions.deep_view() }
    }
}

impl DeepView for State {
    type V = StateModel;

    open spec fn deep_view(&self) -> StateModel {
        self.view()
    }
}

/// The first transition of `ts` whose `read` symbol equals `read`, if any.
/// The machine is deterministic by construction, so the first match is the
/// only one whenever the graph was built through the checked constructors.
pub open spec fn find_transition(ts: Seq<TransitionModel>, read: Seq<char>) -> Option<
    TransitionModel,
>
    decreases ts.len(),
{
    if ts.len() == 0 {
        None
    } else if ts[0].read == read {
        Some(ts[0])
    } else {
        find_transition(ts.drop_first(), read)
    }
}

/// Scanning past a prefix without a match does not change the result of
/// `find_transition`.
proof fn lemma_find_transition_skip(ts: Seq<TransitionModel>, read: Seq<char>, i: int)
    requires
        0 <= i <= ts.len(),
        forall|j: int| 0 <= j < i ==> ts[j].read != read,
    ensures
        find_transition(ts, read) == find_transition(ts.skip(i), read),
    decreases i,
{
    if i == 0 {
        assert(ts.skip(0) =~= ts);
    } else {
        lemma_find_transition_skip(ts, read, i - 1);
        assert(ts.skip(i - 1).len() > 0);
        assert(ts.skip(i - 1)[0] == ts[i - 1]);
        assert(ts.skip(i - 1).drop_first() =~= ts.skip(i));
    }
}

/// What `find_transition` returns is an element of the list, and it reads
/// the symbol looked for.
pub proof fn lemma_find_transition_member(ts: Seq<TransitionModel>, read: Seq<char>)
    ensures
        find_transition(ts, read) matches Some(t) ==> ts.contains(t) && t.read == read,
    decreases ts.len(),
{
    if ts.len() > 0 && ts[0].read != read {
        lemma_find_transition_member(ts.drop_first(), read);
        match find_transition(ts, read) {
            Some(t) => {
                let i = choose|i: int| 0 <= i < ts.drop_first().len() && ts.drop_first()[i] == t;
                assert(ts[i + 1] == t);
            },
            None => {},
        }
    }
}

/// `find_transition` comes back empty exactly when no transition of the
/// list reads the symbol.
pub proof fn lemma_find_transition_none(ts: Seq<TransitionModel>, read: Seq<char>)
    ensures
        find_transition(ts, read) is None <==> forall|k: int|
            0 <= k < ts.len() ==> (#[trigger] ts[k]).read != read,
    decreases ts.len(),
{
    if ts.len() > 0 {
        lemma_find_transition_none(ts.drop_first(), read);
        if ts[0].read != read {
            if find_transition(ts, read) is None {
                assert forall|k: int| 0 <= k < ts.len() implies (#[trigger] ts[k]).read != read by {
                    if k > 0 {
                        assert(ts.drop_first()[k - 1] == ts[k]);
                    }
                }
            }
            if forall|k: int| 0 <= k < ts.len() ==> (#[trigger] ts[k]).read != read {
                assert forall|k: int|
                    0 <= k < ts.drop_first().len() implies (#[trigger] ts.drop_first()[k]).read
                    != read by {
                    assert(ts.drop_first()[k] == ts[k + 1]);
                }
            }
        }
    }
}

/// A state's model carries exactly the state's name.
pub(crate) proof fn lemma_state_view_name(s: State)
    ensures
        s@.name == s.name@,
{
}

impl State {
    pub fn new(name: &str, transitions: Vec<Transition>) -> (s: Self)
        ensures
            s@ == (StateModel { name: name@, transitions: transitions.deep_view() }),
    {
        Self { name: name.to_owned(), transitions }
    }

    /// Appends one outgoing transition. Determinism (at most one transition
    /// per read symbol) is the business of the checked constructors
    /// (`TuringMachineBuilder::add_transition`, the config loader), which
    /// reject a duplicate before ever pushing it here.
    pub fn add_transition(&mut self, transition: Transition)
        ensures
            final(self)@ == (StateModel {
                name: old(self)@.name,
                transitions: old(self)@.transitions.push(transition@),
            }),
    {
        let ghost pre = self.transitions.deep_view();
        self.transitions.push(transition);
        proof {
            assert(self.transitions.deep_view() =~= pre.push(transition@));
        }
    }

    /// Appends a batch of outgoing transitions, in order.
    pub fn add_transitions(&mut self, transitions: Vec<Transition>)
        ensures
            final(self)@ == (StateModel {
                name: old(self)@.name,
                transitions: old(self)@.transitions + transitions.deep_view(),
            }),
    {
        let ghost pre = self.transitions.deep_view();
        let ghost added = transitions.deep_view();
        let mut ts = transitions;
        self.transitions.append(&mut ts);
        proof {
            assert(self.transitions.deep_view() =~= pre + added);
        }
    }

    /// Looks up the transition consuming `read`: the `(target state index,
    /// symbol to write, head movement)` triple of the first matching edge,
    /// or `Stuck` when no edge of this state matches.
    pub fn transition(&self, read: &str) -> (r: Result<(usize, String, Direction), Stuck>)
        ensures
            r is Ok ==> find_transition(self@.transitions, read@) == Some(
                TransitionModel {
                    to: r->Ok_0.0 as int,
                    read: read@,
                    write: r->Ok_0.1@,
                    move_head: r->Ok_0.2,
                },
            ),
            r is Err <==> find_transition(self@.transitions, read@) is None,
    {
        let read_owned: String = read.to_owned();
        let n = self.transitions.len();
        let mut i: usize = 0;
        while i < n
            invariant
                read_owned@ == read@,
                n == self.transitions.len(),
                i <= n,
                forall|j: int| 0 <= j < i ==> self@.transitions[j].read != read@,
            decreases n - i,
        {
            let t = &self.transitions[i];
            proof {
                assert(*t == self.transitions@[i as int]);
                assert(self@.transitions[i as int] == self.transitions@[i as int]@);
            }
            if t.read == read_owned {
                proof {
                    lemma_find_transition_skip(self@.transitions, read@, i as int);
                    assert(self@.transitions.len() == self.transitions@.len());
                    let rest = self@.transitions.skip(i as int);
                    assert(rest.len() > 0);
                    assert(rest[0] == self@.transitions[i as int]);
                    assert(rest[0].read == read@);
                    assert(find_transition(rest, read@) == Some(rest[0]));
                }
                return Ok((t.to, t.write.clone(), t.move_head));
            }
            i += 1;
        }
        proof {
            lemma_find_transition_skip(self@.transitions, read@, n as int);
            assert(self@.transitions.skip(n as int).len() == 0);
        }
        Err(Stuck)
    }
}

} // verus!
