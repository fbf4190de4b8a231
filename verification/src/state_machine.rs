//! The shared finite automaton.
//!
//! States are numbered densely from 0 (the start state). Each state owns an
//! ordered list of outgoing edges, each guarded by a [`CharacterSet`]; a state
//! may carry a final binding (an opaque handler payload) and capture tags that
//! open and close a named parameter span while the matcher walks the graph.

use vstd::prelude::*;

verus! {

/// A predicate over a single input character: one literal character, an
/// explicit inclusion set, or "any character except an excluded set".
///
/// Two sets are equal for edge-merging purposes when they are structurally
/// equal: the same variant over the same character sequence.
pub enum CharacterSet {
    /// Accepts exactly one character.
    Literal(char),
    /// Accepts exactly the listed characters.
    Include(Vec<char>),
    /// Accepts every character except the listed ones.
    ExcludeAll(Vec<char>),
}

/// The mathematical model of a [`CharacterSet`].
pub enum CharacterSetView {
    Literal(char),
    Include(Seq<char>),
    ExcludeAll(Seq<char>),
}

impl View for CharacterSet {
    type V = CharacterSetView;

    open spec fn view(&self) -> CharacterSetView {
        match self {
            CharacterSet::Literal(c) => CharacterSetView::Literal(*c),
            CharacterSet::Include(v) => CharacterSetView::Include(v@),
            CharacterSet::ExcludeAll(v) => CharacterSetView::ExcludeAll(v@),
        }
    }
}

/// `s` with every occurrence of `c` removed, order otherwise preserved.
pub open spec fn remove_char(s: Seq<char>, c: char) -> Seq<char>
    decreases s.len(),
{
    if s.len() == 0 {
        s
    } else if s[0] == c {
        remove_char(s.drop_first(), c)
    } else {
        seq![s[0]] + remove_char(s.drop_first(), c)
    }
}

impl CharacterSetView {
    /// Whether the class accepts the character `c`.
    pub open spec fn accepts(self, c: char) -> bool {
        match self {
            CharacterSetView::Literal(l) => c == l,
            CharacterSetView::Include(s) => s.contains(c),
            CharacterSetView::ExcludeAll(s) => !s.contains(c),
        }
    }

    /// The class after `c` is inserted into the accepted set.
    pub open spec fn spec_insert(self, c: char) -> CharacterSetView {
        match self {
            CharacterSetView::Literal(l) => CharacterSetView::Include(seq![l, c]),
            CharacterSetView::Include(s) => CharacterSetView::Include(s.push(c)),
            CharacterSetView::ExcludeAll(s) => CharacterSetView::ExcludeAll(remove_char(s, c)),
        }
    }

    /// The class after `c` is removed from the accepted set.
    pub open spec fn spec_remove(self, c: char) -> CharacterSetView {
        match self {
            CharacterSetView::Literal(l) => if l == c {
                CharacterSetView::Include(Seq::empty())
            } else {
                CharacterSetView::Literal(l)
            },
            CharacterSetView::Include(s) => CharacterSetView::Include(remove_char(s, c)),
            CharacterSetView::ExcludeAll(s) => CharacterSetView::ExcludeAll(s.push(c)),
        }
    }
}

fn contains_char(v: &Vec<char>, c: char) -> (r: bool)
    ensures
        r == v@.contains(c),
{
    let mut i: usize = 0;
    while i < v.len()
        invariant
            i <= v@.len(),
            forall|j: int| 0 <= j < i ==> v@[j] != c,
        decreases v@.len() - i,
    {
        if v[i] == c {
            return true;
        }
        i += 1;
    }
    assert(!v@.contains(c));
    false
}

fn remove_char_vec(v: &Vec<char>, c: char) -> (r: Vec<char>)
    ensures
        r@ == remove_char(v@, c),
{
    let mut out: Vec<char> = Vec::new();
    let mut i: usize = 0;
    proof {
        assert(out@ + remove_char(v@.skip(0), c) =~= remove_char(v@, c)) by {
            assert(v@.skip(0) =~= v@);
        }
    }
    while i < v.len()
        invariant
            i <= v@.len(),
            out@ + remove_char(v@.skip(i as int), c) == remove_char(v@, c),
        decreases v@.len() - i,
    {
        proof {
            assert(v@.skip(i as int).len() > 0);
            assert(v@.skip(i as int)[0] == v@[i as int]);
            assert(v@.skip(i as int).drop_first() =~= v@.skip(i as int + 1));
        }
        if v[i] != c {
            out.push(v[i]);
            proof {
                assert(out@ + remove_char(v@.skip(i as int + 1), c) =~= head_between(
                    out@.drop_last(),
                    v@[i as int],
                    remove_char(v@.skip(i as int + 1), c),
                ));
            }
        }
        i += 1;
    }
    proof {
        assert(v@.skip(i as int) =~= Seq::<char>::empty());
        assert(remove_char(v@.skip(i as int), c) =~= Seq::<char>::empty());
        assert(out@ + remove_char(v@.skip(i as int), c) =~= out@);
    }
    out
}

/// `prefix + [c] + rest`, the shape `remove_char` produces on a kept head.
pub open spec fn head_between(prefix: Seq<char>, c: char, rest: Seq<char>) -> Seq<char> {
    prefix + (seq![c] + rest)
}

fn char_vecs_equal(a: &Vec<char>, b: &Vec<char>) -> (r: bool)
    ensures
        r == (a@ == b@),
{
    if a.len() != b.len() {
        return false;
    }
    let mut i: usize = 0;
    while i < a.len()
        invariant
            a@.len() == b@.len(),
            i <= a@.len(),
            forall|j: int| 0 <= j < i ==> a@[j] == b@[j],
        decreases a@.len() - i,
    {
        if a[i] != b[i] {
            return false;
        }
        i += 1;
    }
    proof {
        assert(a@ =~= b@);
    }
    true
}

impl CharacterSet {
    /// The class accepting exactly `c`.
    pub fn from_char(c: char) -> (r: Self)
        ensures
            r@ == CharacterSetView::Literal(c),
    {
        CharacterSet::Literal(c)
    }

    /// The class accepting every character.
    pub fn any() -> (r: Self)
        ensures
            r@ == CharacterSetView::ExcludeAll(Seq::<char>::empty()),
    {
        let v: Vec<char> = Vec::new();
        proof {
            assert(v@ =~= Seq::<char>::empty());
        }
        CharacterSet::ExcludeAll(v)
    }

    /// The class accepting exactly the listed characters.
    pub fn from_chars(chars: Vec<char>) -> (r: Self)
        ensures
            r@ == CharacterSetView::Include(chars@),
    {
        CharacterSet::Include(chars)
    }

    /// Insert `c` into the accepted set, converting the underlying set form.
    pub fn insert(self, c: char) -> (r: Self)
        ensures
            r@ == self@.spec_insert(c),
    {
        match self {
            CharacterSet::Literal(l) => {
                let mut v: Vec<char> = Vec::new();
                v.push(l);
                v.push(c);
                proof {
                    assert(v@ =~= seq![l, c]);
                }
                CharacterSet::Include(v)
            },
            CharacterSet::Include(mut v) => {
                v.push(c);
                CharacterSet::Include(v)
            },
            CharacterSet::ExcludeAll(v) => {
                let w = remove_char_vec(&v, c);
                CharacterSet::ExcludeAll(w)
            },
        }
    }

    /// Remove `c` from the accepted set, converting the underlying set form.
    pub fn remove(self, c: char) -> (r: Self)
        ensures
            r@ == self@.spec_remove(c),
    {
        match self {
            CharacterSet::Literal(l) => {
                if l == c {
                    let v: Vec<char> = Vec::new();
                    proof {
                        assert(v@ =~= Seq::<char>::empty());
                    }
                    CharacterSet::Include(v)
                } else {
                    CharacterSet::Literal(l)
                }
            },
            CharacterSet::Include(v) => {
                let w = remove_char_vec(&v, c);
                CharacterSet::Include(w)
            },
            CharacterSet::ExcludeAll(mut v) => {
                v.push(c);
                CharacterSet::ExcludeAll(v)
            },
        }
    }

    /// Whether the class accepts the character `c`.
    pub fn accepts(&self, c: char) -> (r: bool)
        ensures
            r == self@.accepts(c),
    {
        match self {
            CharacterSet::Literal(l) => *l == c,
            CharacterSet::Include(v) => contains_char(v, c),
            CharacterSet::ExcludeAll(v) => !contains_char(v, c),
        }
    }

    /// Structural equality: same variant over the same character sequence.
    pub fn equals(&self, other: &Self) -> (r: bool)
        ensures
            r == (self@ == other@),
    {
        match (self, other) {
            (CharacterSet::Literal(a), CharacterSet::Literal(b)) => *a == *b,
            (CharacterSet::Include(a), CharacterSet::Include(b)) => char_vecs_equal(a, b),
            (CharacterSet::ExcludeAll(a), CharacterSet::ExcludeAll(b)) => char_vecs_equal(a, b),
            _ => false,
        }
    }
}

} // verus!

verus! {

use vstd::string::*;

/// One outgoing edge: a character class guarding a transition to `target`.
pub struct Edge {
    pub class: CharacterSet,
    pub target: usize,
}

#[verifier::ext_equal]
pub struct EdgeView {
    pub class: CharacterSetView,
    pub target: int,
}

impl View for Edge {
    type V = EdgeView;

    open spec fn view(&self) -> EdgeView {
        EdgeView { class: self.class@, target: self.target as int }
    }
}

/// One state of the automaton.
pub struct State<T> {
    /// Outgoing edges, in insertion order; earlier edges take precedence.
    pub edges: Vec<Edge>,
    /// The payload bound to this state if it is final.
    pub binding: Option<T>,
    /// Name of the capture span that opens when the walk enters this state.
    pub capture_begin: Option<String>,
    /// Name of the capture span that closes when the walk leaves this state.
    pub capture_end: Option<String>,
}

#[verifier::ext_equal]
pub struct StateView<T> {
    pub edges: Seq<EdgeView>,
    pub binding: Option<T>,
    pub capture_begin: Option<Seq<char>>,
    pub capture_end: Option<Seq<char>>,
}

impl<T> View for State<T> {
    type V = StateView<T>;

    open spec fn view(&self) -> StateView<T> {
        StateView {
            edges: self.edges@.map_values(|e: Edge| e@),
            binding: self.binding,
            capture_begin: match self.capture_begin {
                Option::Some(ref s) => Option::Some(s@),
                Option::None => Option::None,
            },
            capture_end: match self.capture_end {
                Option::Some(ref s) => Option::Some(s@),
                Option::None => Option::None,
            },
        }
    }
}

/// The shared automaton: all states, indexed by id; state 0 is the start.
pub struct StateMachine<T> {
    pub states: Vec<State<T>>,
}

#[verifier::ext_equal]
pub struct MachineView<T> {
    pub states: Seq<StateView<T>>,
}

impl<T> View for StateMachine<T> {
    type V = MachineView<T>;

    open spec fn view(&self) -> MachineView<T> {
        MachineView { states: self.states@.map_values(|s: State<T>| s@) }
    }
}

/// A state with no edges, no binding and no capture tags.
pub open spec fn empty_state_view<T>() -> StateView<T> {
    StateView {
        edges: Seq::empty(),
        binding: Option::None,
        capture_begin: Option::None,
        capture_end: Option::None,
    }
}

/// The machine holding only the start state.
pub open spec fn spec_new_machine<T>() -> MachineView<T> {
    MachineView { states: seq![empty_state_view::<T>()] }
}

/// Growing the graph neither changes nor adds final bindings: every old state
/// keeps its binding and every new state has none.
pub open spec fn bindings_preserved<T>(m0: MachineView<T>, m1: MachineView<T>) -> bool {
    &&& m1.states.len() >= m0.states.len()
    &&& forall|s: int| #![trigger m1.states[s]]
        0 <= s < m1.states.len() ==> m1.states[s].binding
            == (if s < m0.states.len() { m0.states[s].binding } else { Option::<T>::None })
}

pub proof fn lemma_bindings_preserved_trans<T>(a: MachineView<T>, b: MachineView<T>, c: MachineView<T>)
    requires
        bindings_preserved(a, b),
        bindings_preserved(b, c),
    ensures
        bindings_preserved(a, c),
{
    assert forall|s: int| 0 <= s < c.states.len() implies #[trigger] c.states[s].binding
        == (if s < a.states.len() { a.states[s].binding } else { Option::<T>::None }) by {
        if s < b.states.len() {
            assert(b.states[s].binding == (if s < a.states.len() { a.states[s].binding } else { Option::<T>::None }));
        }
    }
}

impl<T> MachineView<T> {
    /// Well-formedness: there is a start state and every edge target is a
    /// valid state id.
    pub open spec fn wf(self) -> bool {
        &&& self.states.len() >= 1
        &&& forall|s: int, e: int|
            0 <= s < self.states.len() && 0 <= e < self.states[s].edges.len()
                ==> 0 <= (#[trigger] self.states[s].edges[e]).target < self.states.len()
    }
}

/// Index of the first edge at or after `i` whose class equals `class`
/// structurally.
pub open spec fn spec_find_equal(edges: Seq<EdgeView>, class: CharacterSetView, i: int) -> Option<int>
    decreases edges.len() - i,
{
    if i < 0 || i >= edges.len() {
        Option::None
    } else if edges[i].class == class {
        Option::Some(i)
    } else {
        spec_find_equal(edges, class, i + 1)
    }
}

/// The machine and the reached state after `add_edge(state, class)`: the
/// target of the first structurally equal edge if one exists, otherwise the
/// machine grown by a fresh state reached by a new edge appended to `state`.
pub open spec fn spec_add_edge<T>(m: MachineView<T>, state: int, class: CharacterSetView) -> (MachineView<T>, int) {
    match spec_find_equal(m.states[state].edges, class, 0) {
        Option::Some(j) => (m, m.states[state].edges[j].target),
        Option::None => {
            let fresh = m.states.len() as int;
            let st = m.states[state];
            let updated = StateView {
                edges: st.edges.push(EdgeView { class, target: fresh }),
                binding: st.binding,
                capture_begin: st.capture_begin,
                capture_end: st.capture_end,
            };
            (MachineView { states: m.states.update(state, updated).push(empty_state_view()) }, fresh)
        },
    }
}

/// The machine after `add_alias_edge(state, class, target)`: one edge
/// appended, no new state.
pub open spec fn spec_add_alias_edge<T>(m: MachineView<T>, state: int, class: CharacterSetView, target: int) -> MachineView<T> {
    let st = m.states[state];
    let updated = StateView {
        edges: st.edges.push(EdgeView { class, target }),
        binding: st.binding,
        capture_begin: st.capture_begin,
        capture_end: st.capture_end,
    };
    MachineView { states: m.states.update(state, updated) }
}

/// The machine after `mark_final(state, handler)`.
pub open spec fn spec_mark_final<T>(m: MachineView<T>, state: int, handler: T) -> MachineView<T> {
    let st = m.states[state];
    let updated = StateView {
        edges: st.edges,
        binding: Option::Some(handler),
        capture_begin: st.capture_begin,
        capture_end: st.capture_end,
    };
    MachineView { states: m.states.update(state, updated) }
}

/// The machine after `mark_capture_begin(state, name)`.
pub open spec fn spec_mark_capture_begin<T>(m: MachineView<T>, state: int, name: Seq<char>) -> MachineView<T> {
    let st = m.states[state];
    let updated = StateView {
        edges: st.edges,
        binding: st.binding,
        capture_begin: Option::Some(name),
        capture_end: st.capture_end,
    };
    MachineView { states: m.states.update(state, updated) }
}

/// The machine after `mark_capture_end(state, name)`.
pub open spec fn spec_mark_capture_end<T>(m: MachineView<T>, state: int, name: Seq<char>) -> MachineView<T> {
    let st = m.states[state];
    let updated = StateView {
        edges: st.edges,
        binding: st.binding,
        capture_begin: st.capture_begin,
        capture_end: Option::Some(name),
    };
    MachineView { states: m.states.update(state, updated) }
}

impl<T> StateMachine<T> {
    /// A machine holding only the start state.
    pub fn new() -> (r: Self)
        ensures
            r@ == spec_new_machine::<T>(),
            r@.wf(),
    {
        let mut states: Vec<State<T>> = Vec::new();
        states.push(State { edges: Vec::new(), binding: Option::None, capture_begin: Option::None, capture_end: Option::None });
        let r = StateMachine { states };
        proof {
            assert(r@ =~~= spec_new_machine::<T>());
        }
        r
    }

    /// Add an edge out of `state` over `class`, sharing any existing edge
    /// whose class is structurally equal; returns the target state.
    pub fn add_edge(&mut self, state: usize, class: CharacterSet) -> (t: usize)
        requires
            old(self)@.wf(),
            (state as int) < old(self)@.states.len(),
        ensures
            final(self)@ == spec_add_edge(old(self)@, state as int, class@).0,
            t as int == spec_add_edge(old(self)@, state as int, class@).1,
            final(self)@.wf(),
            (t as int) < final(self)@.states.len(),
            old(self)@.states.len() <= final(self)@.states.len(),
            bindings_preserved(old(self)@, final(self)@),
    {
        let ghost m0 = self@;
        let n = self.states[state].edges.len();
        let mut j: usize = 0;
        while j < n
            invariant
                self@ == m0,
                m0.wf(),
                (state as int) < m0.states.len(),
                n == m0.states[state as int].edges.len(),
                j <= n,
                self.states@.len() == m0.states.len(),
                spec_find_equal(m0.states[state as int].edges, class@, 0)
                    == spec_find_equal(m0.states[state as int].edges, class@, j as int),
            decreases n - j,
        {
            proof {
                assert(m0.states[state as int] == self.states@[state as int]@);
                assert(m0.states[state as int].edges[j as int] == self.states@[state as int].edges@[j as int]@);
            }
            if self.states[state].edges[j].class.equals(&class) {
                let t = self.states[state].edges[j].target;
                proof {
                    assert(spec_find_equal(m0.states[state as int].edges, class@, j as int) == Option::Some(j as int));
                    assert(t as int == m0.states[state as int].edges[j as int].target);
                }
                return t;
            }
            j += 1;
        }
        proof {
            assert(spec_find_equal(m0.states[state as int].edges, class@, 0) is None);
        }
        let fresh = self.states.len();
        self.states[state].edges.push(Edge { class, target: fresh });
        self.states.push(State { edges: Vec::new(), binding: Option::None, capture_begin: Option::None, capture_end: Option::None });
        proof {
            let expected = spec_add_edge(m0, state as int, class@).0;
            assert(self@.states.len() == expected.states.len());
            assert forall|s: int| 0 <= s < expected.states.len() implies self@.states[s] =~~= expected.states[s] by {
                if s == state as int {
                    assert(self@.states[s].edges =~~= expected.states[s].edges);
                } else if s < m0.states.len() {
                    assert(self@.states[s] == m0.states[s]);
                }
            }
            assert(self@ =~~= expected);
        }
        fresh
    }

    /// Append an edge from `state` over `class` to the existing `target`.
    pub fn add_alias_edge(&mut self, state: usize, class: CharacterSet, target: usize)
        requires
            old(self)@.wf(),
            (state as int) < old(self)@.states.len(),
            (target as int) < old(self)@.states.len(),
        ensures
            final(self)@ == spec_add_alias_edge(old(self)@, state as int, class@, target as int),
            final(self)@.wf(),
            final(self)@.states.len() == old(self)@.states.len(),
            bindings_preserved(old(self)@, final(self)@),
    {
        let ghost m0 = self@;
        self.states[state].edges.push(Edge { class, target });
        proof {
            let expected = spec_add_alias_edge(m0, state as int, class@, target as int);
            assert forall|s: int| 0 <= s < expected.states.len() implies self@.states[s] =~~= expected.states[s] by {
                if s == state as int {
                    assert(self@.states[s].edges =~~= expected.states[s].edges);
                } else {
                    assert(self@.states[s] == m0.states[s]);
                }
            }
            assert(self@ =~~= expected);
        }
    }

    /// Mark `state` final and bind `handler` to it; a later mark replaces an
    /// earlier binding.
    pub fn mark_final(&mut self, state: usize, handler: T)
        requires
            old(self)@.wf(),
            (state as int) < old(self)@.states.len(),
        ensures
            final(self)@ == spec_mark_final(old(self)@, state as int, handler),
            final(self)@.wf(),
            final(self)@.states.len() == old(self)@.states.len(),
            forall|s: int| #![trigger final(self)@.states[s]]
                0 <= s < final(self)@.states.len() ==> final(self)@.states[s].binding
                    == (if s == state as int { Option::Some(handler) } else { old(self)@.states[s].binding }),
    {
        let ghost m0 = self@;
        self.states[state].binding = Option::Some(handler);
        proof {
            let expected = spec_mark_final(m0, state as int, handler);
            assert forall|s: int| 0 <= s < expected.states.len() implies self@.states[s] =~~= expected.states[s] by {
                if s != state as int {
                    assert(self@.states[s] == m0.states[s]);
                }
            }
            assert(self@ =~~= expected);
        }
    }

    /// Tag `state` so that a capture span named `name` opens when the walk
    /// enters it.
    pub fn mark_capture_begin(&mut self, state: usize, name: &str)
        requires
            old(self)@.wf(),
            (state as int) < old(self)@.states.len(),
        ensures
            final(self)@ == spec_mark_capture_begin(old(self)@, state as int, name@),
            final(self)@.wf(),
            final(self)@.states.len() == old(self)@.states.len(),
            bindings_preserved(old(self)@, final(self)@),
    {
        let ghost m0 = self@;
        self.states[state].capture_begin = Option::Some(String::from_str(name));
        proof {
            let expected = spec_mark_capture_begin(m0, state as int, name@);
            assert forall|s: int| 0 <= s < expected.states.len() implies self@.states[s] =~~= expected.states[s] by {
                if s != state as int {
                    assert(self@.states[s] == m0.states[s]);
                }
            }
            assert(self@ =~~= expected);
        }
    }

    /// Tag `state` so that the capture span named `name` closes when the walk
    /// leaves it.
    pub fn mark_capture_end(&mut self, state: usize, name: &str)
        requires
            old(self)@.wf(),
            (state as int) < old(self)@.states.len(),
        ensures
            final(self)@ == spec_mark_capture_end(old(self)@, state as int, name@),
            final(self)@.wf(),
            final(self)@.states.len() == old(self)@.states.len(),
            bindings_preserved(old(self)@, final(self)@),
    {
        let ghost m0 = self@;
        self.states[state].capture_end = Option::Some(String::from_str(name));
        proof {
            let expected = spec_mark_capture_end(m0, state as int, name@);
            assert forall|s: int| 0 <= s < expected.states.len() implies self@.states[s] =~~= expected.states[s] by {
                if s != state as int {
                    assert(self@.states[s] == m0.states[s]);
                }
            }
            assert(self@ =~~= expected);
        }
    }
}

} // verus!

verus! {

/// The name-to-value mapping produced by a match, in insertion order; a later
/// entry for the same name overrides an earlier one, as in a map.
pub struct Params {
    pub entries: Vec<(String, String)>,
}

/// The map described by an entry list: entries applied left to right.
pub open spec fn map_of(entries: Seq<(String, String)>) -> Map<Seq<char>, Seq<char>>
    decreases entries.len(),
{
    if entries.len() == 0 {
        Map::empty()
    } else {
        map_of(entries.drop_last()).insert(entries.last().0@, entries.last().1@)
    }
}

impl View for Params {
    type V = Map<Seq<char>, Seq<char>>;

    open spec fn view(&self) -> Map<Seq<char>, Seq<char>> {
        map_of(self.entries@)
    }
}

proof fn lemma_map_of_found(entries: Seq<(String, String)>, name: Seq<char>, j: int)
    requires
        0 <= j < entries.len(),
        entries[j].0@ == name,
        forall|k: int| j < k < entries.len() ==> (#[trigger] entries[k]).0@ != name,
    ensures
        map_of(entries).contains_key(name),
        map_of(entries)[name] == entries[j].1@,
    decreases entries.len(),
{
    if j == entries.len() - 1 {
    } else {
        assert(entries.drop_last()[j] == entries[j]);
        assert(forall|k: int| j < k < entries.drop_last().len()
            ==> (#[trigger] entries.drop_last()[k]).0@ != name);
        lemma_map_of_found(entries.drop_last(), name, j);
        assert(entries.last().0@ != name);
    }
}

proof fn lemma_map_of_absent(entries: Seq<(String, String)>, name: Seq<char>)
    requires
        forall|k: int| 0 <= k < entries.len() ==> (#[trigger] entries[k]).0@ != name,
    ensures
        !map_of(entries).contains_key(name),
    decreases entries.len(),
{
    if entries.len() > 0 {
        assert(forall|k: int| 0 <= k < entries.drop_last().len()
            ==> (#[trigger] entries.drop_last()[k]).0@ != name);
        lemma_map_of_absent(entries.drop_last(), name);
        assert(entries.last().0@ != name);
    }
}

impl Params {
    /// An empty mapping.
    pub fn new() -> (r: Self)
        ensures
            r@ == Map::<Seq<char>, Seq<char>>::empty(),
    {
        let r = Params { entries: Vec::new() };
        proof {
            assert(r.entries@.len() == 0);
        }
        r
    }

    /// Bind `name` to `value`, overriding any earlier binding of `name`.
    pub fn insert(&mut self, name: String, value: String)
        ensures
            final(self)@ == old(self)@.insert(name@, value@),
    {
        self.entries.push((name, value));
        proof {
            assert(self.entries@.drop_last() =~= old(self).entries@);
        }
    }

    /// Look `name` up; the value of the latest binding, if any.
    pub fn get(&self, name: &str) -> (r: Option<&String>)
        ensures
            (match r {
                Option::Some(v) => self@.contains_key(name@) && v@ == self@[name@],
                Option::None => !self@.contains_key(name@),
            }),
    {
        let key = String::from_str(name);
        let mut j: usize = self.entries.len();
        while j > 0
            invariant
                j <= self.entries@.len(),
                key@ == name@,
                forall|k: int| j <= k < self.entries@.len() ==> (#[trigger] self.entries@[k]).0@ != name@,
            decreases j,
        {
            j -= 1;
            if self.entries[j].0 == key {
                proof {
                    lemma_map_of_found(self.entries@, name@, j as int);
                }
                return Option::Some(&self.entries[j].1);
            }
        }
        proof {
            lemma_map_of_absent(self.entries@, name@);
        }
        Option::None
    }

    /// Whether no name is bound.
    pub fn is_empty(&self) -> (r: bool)
        ensures
            r == (self@ == Map::<Seq<char>, Seq<char>>::empty()),
    {
        let r = self.entries.len() == 0;
        proof {
            if self.entries@.len() != 0 {
                assert(map_of(self.entries@).contains_key(self.entries@.last().0@));
                assert(self@ != Map::<Seq<char>, Seq<char>>::empty());
            } else {
                assert(self@ == Map::<Seq<char>, Seq<char>>::empty());
            }
        }
        r
    }
}

/// A successful match: the payload bound to the accepting state and the
/// captured parameters.
pub struct Match<T> {
    pub handler: T,
    pub params: Params,
}

/// The matcher's abstract state between two characters: the current state,
/// the capture span still open (name and start index), and the spans already
/// closed.
#[verifier::ext_equal]
pub struct ScanFrame {
    pub state: int,
    pub open_capture: Option<(Seq<char>, int)>,
    pub params: Map<Seq<char>, Seq<char>>,
}

/// Index of the first edge at or after `i` whose class accepts `ch`.
pub open spec fn spec_first_accepting(edges: Seq<EdgeView>, ch: char, i: int) -> Option<int>
    decreases edges.len() - i,
{
    if i < 0 || i >= edges.len() {
        Option::None
    } else if edges[i].class.accepts(ch) {
        Option::Some(i)
    } else {
        spec_first_accepting(edges, ch, i + 1)
    }
}

/// The state reached from `s` on `ch`: the target of the first accepting
/// edge, in insertion order.
pub open spec fn spec_step<T>(m: MachineView<T>, s: int, ch: char) -> Option<int> {
    match spec_first_accepting(m.states[s].edges, ch, 0) {
        Option::Some(j) => Option::Some(m.states[s].edges[j].target),
        Option::None => Option::None,
    }
}

/// The frame after consuming `input[i]` over the edge into `t`: an open span
/// closes when the walk leaves its end-tagged anchor, and a span opens (or
/// extends) when the walk enters a begin-tagged state.
pub open spec fn spec_advance<T>(m: MachineView<T>, f: ScanFrame, input: Seq<char>, i: int, t: int) -> ScanFrame {
    let src = m.states[f.state];
    let tgt = m.states[t];
    let after_close = match f.open_capture {
        Option::Some(oc) => {
            if src.capture_end == Option::Some(oc.0) && tgt.capture_begin != Option::Some(oc.0) {
                ScanFrame {
                    state: f.state,
                    open_capture: Option::None,
                    params: f.params.insert(oc.0, input.subrange(oc.1, i)),
                }
            } else {
                f
            }
        },
        Option::None => f,
    };
    let after_open = match tgt.capture_begin {
        Option::Some(n) => match after_close.open_capture {
            Option::Some(oc2) => if oc2.0 == n {
                after_close
            } else {
                ScanFrame {
                    state: f.state,
                    open_capture: Option::Some((n, i)),
                    params: after_close.params.insert(oc2.0, input.subrange(oc2.1, i)),
                }
            },
            Option::None => ScanFrame {
                state: f.state,
                open_capture: Option::Some((n, i)),
                params: after_close.params,
            },
        },
        Option::None => after_close,
    };
    ScanFrame { state: t, open_capture: after_open.open_capture, params: after_open.params }
}

/// The whole scan from index `i` in frame `f`: `None` when some character has
/// no accepting edge, otherwise the frame at the end of the input.
pub open spec fn spec_scan<T>(m: MachineView<T>, input: Seq<char>, i: int, f: ScanFrame) -> Option<ScanFrame>
    decreases input.len() - i,
{
    if i < 0 || i >= input.len() {
        Option::Some(f)
    } else {
        match spec_step(m, f.state, input[i]) {
            Option::Some(t) => spec_scan(m, input, i + 1, spec_advance(m, f, input, i, t)),
            Option::None => Option::None,
        }
    }
}

/// The scan starts at state 0 with no open span and no parameters.
pub open spec fn spec_initial_frame() -> ScanFrame {
    ScanFrame { state: 0, open_capture: Option::None, params: Map::empty() }
}

/// The parameters reported at the end of the input: a still-open span closes
/// at the input's end.
pub open spec fn spec_finish_params(f: ScanFrame, input: Seq<char>) -> Map<Seq<char>, Seq<char>> {
    match f.open_capture {
        Option::Some(oc) => f.params.insert(oc.0, input.subrange(oc.1, input.len() as int)),
        Option::None => f.params,
    }
}

/// What matching `input` returns: the binding of the state the scan ends on,
/// with the captured parameters, or `None` when the scan dies or ends on a
/// state with no binding.
pub open spec fn spec_process<T>(m: MachineView<T>, input: Seq<char>) -> Option<(T, Map<Seq<char>, Seq<char>>)> {
    match spec_scan(m, input, 0, spec_initial_frame()) {
        Option::Some(f) => match m.states[f.state].binding {
            Option::Some(h) => Option::Some((h, spec_finish_params(f, input))),
            Option::None => Option::None,
        },
        Option::None => Option::None,
    }
}

/// The frame described by the matcher's executable state.
pub open spec fn frame_model(state: int, open_name: Option<String>, open_start: int, params: Map<Seq<char>, Seq<char>>) -> ScanFrame {
    ScanFrame {
        state,
        open_capture: match open_name {
            Option::Some(nm) => Option::Some((nm@, open_start)),
            Option::None => Option::None,
        },
        params,
    }
}

impl<T> StateMachine<T> {
    /// The target of the first edge out of `s`, in insertion order, whose
    /// class accepts `ch`.
    fn first_accepting(&self, s: usize, ch: char) -> (r: Option<usize>)
        requires
            self@.wf(),
            (s as int) < self@.states.len(),
        ensures
            (match r {
                Option::Some(t) => spec_step(self@, s as int, ch) == Option::Some(t as int)
                    && (t as int) < self@.states.len(),
                Option::None => spec_step(self@, s as int, ch) is None,
            }),
    {
        let n = self.states[s].edges.len();
        let mut j: usize = 0;
        while j < n
            invariant
                self@.wf(),
                (s as int) < self@.states.len(),
                n == self@.states[s as int].edges.len(),
                j <= n,
                spec_first_accepting(self@.states[s as int].edges, ch, 0)
                    == spec_first_accepting(self@.states[s as int].edges, ch, j as int),
            decreases n - j,
        {
            proof {
                assert(self@.states[s as int] == self.states@[s as int]@);
                assert(self@.states[s as int].edges[j as int] == self.states@[s as int].edges@[j as int]@);
            }
            if self.states[s].edges[j].class.accepts(ch) {
                let t = self.states[s].edges[j].target;
                proof {
                    assert(spec_first_accepting(self@.states[s as int].edges, ch, j as int) == Option::Some(j as int));
                }
                return Option::Some(t);
            }
            j += 1;
        }
        Option::None
    }
}

impl<T: Copy> StateMachine<T> {
    /// Match `input` against the automaton in one left-to-right scan: at each
    /// character the first accepting edge of the current state is taken; the
    /// match succeeds exactly when the whole input is consumed on a state
    /// bound to a payload.
    pub fn process(&self, input: &str) -> (r: Option<Match<T>>)
        requires
            self@.wf(),
        ensures
            (match r {
                Option::Some(mt) => spec_process(self@, input@) == Option::Some((mt.handler, mt.params@)),
                Option::None => spec_process(self@, input@) is None,
            }),
            (r matches Option::Some(mt) ==> exists|s: int|
                0 <= s < self@.states.len() && #[trigger] self@.states[s].binding == Option::Some(mt.handler)),
    {
        let n = input.unicode_len();
        let mut i: usize = 0;
        let mut cur: usize = 0;
        let mut open_name: Option<String> = Option::None;
        let mut open_start: usize = 0;
        let mut params = Params::new();
        proof {
            assert(frame_model(0, Option::None, 0, Map::empty()) == spec_initial_frame());
        }
        while i < n
            invariant
                self@.wf(),
                n == input@.len(),
                i <= n,
                (cur as int) < self@.states.len(),
                open_name is Some ==> open_start <= i,
                spec_scan(self@, input@, i as int, frame_model(cur as int, open_name, open_start as int, params@))
                    == spec_scan(self@, input@, 0, spec_initial_frame()),
            decreases n - i,
        {
            let ghost f_pre = frame_model(cur as int, open_name, open_start as int, params@);
            let ghost i0 = i as int;
            let ch = input.get_char(i);
            match self.first_accepting(cur, ch) {
                Option::None => {
                    proof {
                        assert(spec_scan(self@, input@, i0, f_pre) is None);
                    }
                    return Option::None;
                },
                Option::Some(t) => {
                    proof {
                        assert(self@.states[t as int] == self.states@[t as int]@);
                        assert(self@.states[cur as int] == self.states@[cur as int]@);
                    }
                    // close the open span when the walk leaves its end-tagged
                    // anchor for a state that does not re-open it
                    let mut close_now: bool = false;
                    match (&open_name, &self.states[cur].capture_end) {
                        (Option::Some(nm), Option::Some(en)) => {
                            if *nm == *en {
                                close_now = match &self.states[t].capture_begin {
                                    Option::Some(bn) => !(*bn == *nm),
                                    Option::None => true,
                                };
                            }
                        },
                        _ => {},
                    }
                    if close_now {
                        let prev = open_name;
                        open_name = Option::None;
                        if let Option::Some(nm) = prev {
                            let value = String::from_str(input.substring_char(open_start, i));
                            params.insert(nm, value);
                        }
                    }
                    // open a span, or extend the one already anchored here
                    let mut same_open: bool = false;
                    match (&open_name, &self.states[t].capture_begin) {
                        (Option::Some(nm), Option::Some(bn)) => {
                            same_open = *nm == *bn;
                        },
                        _ => {},
                    }
                    if !same_open {
                        match &self.states[t].capture_begin {
                            Option::Some(bn) => {
                                let fresh_name = bn.clone();
                                let prev2 = open_name;
                                open_name = Option::Some(fresh_name);
                                if let Option::Some(nm2) = prev2 {
                                    let value2 = String::from_str(input.substring_char(open_start, i));
                                    params.insert(nm2, value2);
                                }
                                open_start = i;
                            },
                            Option::None => {},
                        }
                    }
                    cur = t;
                    i += 1;
                    proof {
                        let f_post = frame_model(cur as int, open_name, open_start as int, params@);
                        assert(f_post =~~= spec_advance(self@, f_pre, input@, i0, t as int));
                        assert(spec_scan(self@, input@, i0, f_pre)
                            == spec_scan(self@, input@, i0 + 1, spec_advance(self@, f_pre, input@, i0, t as int)));
                    }
                },
            }
        }
        let ghost f_end = frame_model(cur as int, open_name, open_start as int, params@);
        proof {
            assert(spec_scan(self@, input@, i as int, f_end) == Option::Some(f_end));
        }
        // a span still open at the end of the input closes there
        let tail = open_name;
        if let Option::Some(nm) = tail {
            let value = String::from_str(input.substring_char(open_start, n));
            params.insert(nm, value);
        }
        proof {
            assert(params@ == spec_finish_params(f_end, input@));
            assert(self@.states[cur as int] == self.states@[cur as int]@);
        }
        match &self.states[cur].binding {
            Option::Some(h) => {
                let handler: T = *h;
                proof {
                    assert(self@.states[cur as int].binding == Option::Some(handler));
                }
                Option::Some(Match { handler, params })
            },
            Option::None => Option::None,
        }
    }
}

} // verus!

verus! {

proof fn lemma_find_equal_some(edges: Seq<EdgeView>, class: CharacterSetView, i: int, j: int)
    requires
        0 <= i <= j < edges.len(),
        edges[j].class == class,
    ensures
        (match spec_find_equal(edges, class, i) {
            Option::Some(k) => i <= k < edges.len() && edges[k].class == class,
            Option::None => false,
        }),
    decreases j - i,
{
    if edges[i].class == class {
    } else {
        lemma_find_equal_some(edges, class, i + 1, j);
    }
}

/// Prefix sharing: adding an edge over a class that some edge of `state`
/// already carries allocates nothing — the machine is unchanged and the walk
/// converges on an existing target. A template registered later thus reuses,
/// edge by edge, the path of an earlier template sharing its prefix.
pub proof fn lemma_prefix_sharing<T>(m: MachineView<T>, state: int, class: CharacterSetView, j: int)
    requires
        0 <= state < m.states.len(),
        0 <= j < m.states[state].edges.len(),
        m.states[state].edges[j].class == class,
    ensures
        spec_add_edge(m, state, class).0 == m,
        exists|k: int| 0 <= k < m.states[state].edges.len()
            && (#[trigger] m.states[state].edges[k]).class == class
            && spec_add_edge(m, state, class).1 == m.states[state].edges[k].target,
{
    lemma_find_equal_some(m.states[state].edges, class, 0, j);
    match spec_find_equal(m.states[state].edges, class, 0) {
        Option::Some(k0) => {
            assert(0 <= k0 < m.states[state].edges.len()
                && m.states[state].edges[k0].class == class
                && spec_add_edge(m, state, class).1 == m.states[state].edges[k0].target);
        },
        Option::None => {
            assert(false);
        },
    }
}

proof fn lemma_first_accepting_at(edges: Seq<EdgeView>, ch: char, i: int, j: int)
    requires
        0 <= i <= j < edges.len(),
        edges[j].class.accepts(ch),
        forall|k: int| i <= k < j ==> !(#[trigger] edges[k]).class.accepts(ch),
    ensures
        spec_first_accepting(edges, ch, i) == Option::Some(j),
    decreases j - i,
{
    if i < j {
        lemma_first_accepting_at(edges, ch, i + 1, j);
    }
}

/// Earlier-inserted edges take precedence: when edge `j` of the current state
/// accepts the next character and no earlier edge does, the scan steps along
/// edge `j`. A literal edge inserted before a wildcard edge therefore wins
/// whenever both would accept the character.
pub proof fn lemma_first_edge_wins<T>(m: MachineView<T>, s: int, ch: char, j: int)
    requires
        0 <= s < m.states.len(),
        0 <= j < m.states[s].edges.len(),
        m.states[s].edges[j].class.accepts(ch),
        forall|k: int| 0 <= k < j ==> !(#[trigger] m.states[s].edges[k]).class.accepts(ch),
    ensures
        spec_step(m, s, ch) == Option::Some(m.states[s].edges[j].target),
{
    lemma_first_accepting_at(m.states[s].edges, ch, 0, j);
}

} // verus!
