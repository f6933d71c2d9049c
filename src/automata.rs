pub mod deterministic_input;
pub mod state;
pub mod transition;

use vstd::prelude::*;
use vstd::set_lib::{lemma_int_range, lemma_len_subset, set_int_range};
use state::State;
use transition::Transition;

verus! {

/// The mathematical picture of an automaton: tag sets of states, symbols as
/// character sequences, and each state's outgoing edges as (symbol, target).
pub struct AutomataModel {
    pub alphabet: Seq<Seq<char>>,
    pub states: Seq<Set<Seq<char>>>,
    pub entry_state: usize,
    pub accept_states: Seq<usize>,
    pub transitions: Seq<Seq<(Seq<char>, usize)>>,
}

/// Targets of the edges in `ts` labelled `symbol`, in edge order.
pub open spec fn targets_on(ts: Seq<(Seq<char>, usize)>, symbol: Seq<char>) -> Seq<usize>
    decreases ts.len(),
{
    if ts.len() == 0 {
        Seq::empty()
    } else {
        let rest = targets_on(ts.drop_last(), symbol);
        if ts.last().0 == symbol {
            rest.push(ts.last().1)
        } else {
            rest
        }
    }
}

impl AutomataModel {
    /// Every index held refers to a state, each state has one edge list,
    /// and no edge list holds the same edge twice.
    pub open spec fn wf(self) -> bool {
        &&& self.transitions.len() == self.states.len()
        &&& forall|s: int, k: int|
            0 <= s < self.transitions.len() && 0 <= k < self.transitions[s].len()
                ==> #[trigger] self.transitions[s][k].1 < self.states.len()
        &&& forall|s: int| 0 <= s < self.transitions.len() ==> #[trigger] self.transitions[s].no_duplicates()
        &&& forall|i: int|
            0 <= i < self.accept_states.len() ==> #[trigger] self.accept_states[i] < self.states.len()
        &&& self.states.len() > 0 ==> self.entry_state < self.states.len()
        &&& self.states.len() == 0 ==> self.entry_state == 0
    }

    /// Each state has exactly one edge per symbol of the alphabet: as many
    /// edges as symbols, no symbol on two of them, and every edge labelled
    /// with a symbol of the alphabet.
    pub open spec fn is_det(self) -> bool {
        forall|s: int|
            0 <= s < self.transitions.len() ==> {
                &&& #[trigger] self.transitions[s].len() == self.alphabet.len()
                &&& forall|j: int, k: int|
                    0 <= j < k < self.transitions[s].len() ==> self.transitions[s][j].0
                        != self.transitions[s][k].0
                &&& forall|k: int|
                    0 <= k < self.transitions[s].len() ==> self.alphabet.contains(#[trigger] self.transitions[s][k].0)
            }
    }

    /// The index of the first state whose tag set is `tags`.
    pub open spec fn first_with(self, tags: Set<Seq<char>>) -> usize {
        choose|i: usize|
            (i as int) < self.states.len() && self.states[i as int] == tags && forall|j: int|
                0 <= j < i ==> self.states[j] != tags
    }

    /// `c` holds the target of every epsilon edge that leaves one of its states.
    pub open spec fn eps_closed(self, c: Set<usize>) -> bool {
        forall|q: usize, k: int|
            c.contains(q) && (q as int) < self.transitions.len() && 0 <= k < self.transitions[q as int].len()
                && #[trigger] self.transitions[q as int][k].0.len() == 0
                ==> c.contains(self.transitions[q as int][k].1)
    }

    /// Every epsilon edge leaving state `q` ends in `c`.
    pub open spec fn eps_succs_in(self, q: usize, c: Set<usize>) -> bool {
        forall|k: int|
            0 <= k < self.transitions[q as int].len() && #[trigger] self.transitions[q as int][k].0.len() == 0
                ==> c.contains(self.transitions[q as int][k].1)
    }

    /// Every tag carried by some state.
    pub open spec fn all_tags(self) -> Set<Seq<char>> {
        Set::new(|t: Seq<char>| exists|q: int| 0 <= q < self.states.len() && #[trigger] self.states[q].contains(t))
    }

    /// Each tag that a state carries names a state of its own: some state has
    /// exactly that one tag.
    pub open spec fn tags_resolve(self) -> bool {
        forall|t: Seq<char>| #[trigger] self.all_tags().contains(t) ==> self.states.contains(set![t])
    }

    /// The tags of the states in `c`, together.
    pub open spec fn union_tags(self, c: Set<usize>) -> Set<Seq<char>> {
        Set::new(|t: Seq<char>| exists|q: usize| c.contains(q) && (q as int) < self.states.len() && #[trigger] self.states[q as int].contains(t))
    }

    /// `tags` shares a tag with some accepting state.
    pub open spec fn touches_accepting(self, tags: Set<Seq<char>>) -> bool {
        exists|i: int, t: Seq<char>|
            0 <= i < self.accept_states.len() && #[trigger] self.states[self.accept_states[i] as int].contains(t) && tags.contains(t)
    }

    /// The states that an edge labelled `symbol` reaches from a state named
    /// by one of `tags`.
    pub open spec fn step_set(self, tags: Set<Seq<char>>, symbol: Seq<char>) -> Set<usize> {
        Set::new(|q: usize| exists|t: Seq<char>| tags.contains(t)
            && #[trigger] targets_on(self.transitions[self.first_with(set![t]) as int], symbol).contains(q))
    }

    /// Edge `k` of state `s` of `d` is one that the subset construction makes
    /// from this automaton: it leads to the state whose tags are those of the
    /// epsilon-closure of the states that its symbol reaches from state `s`.
    pub open spec fn subset_edge(self, d: AutomataModel, s: int, k: int) -> bool {
        &&& self.step_set(d.states[s], d.transitions[s][k].0) != Set::<usize>::empty()
        &&& exists|c: Set<usize>|
            self.is_closure_of(self.step_set(d.states[s], d.transitions[s][k].0), c)
                && d.states[d.transitions[s][k].1 as int] == #[trigger] self.union_tags(c)
    }

    /// State `s` of `d` has an edge labelled `symbol`, unless that symbol
    /// reaches no state of this automaton from the states it stands for.
    pub open spec fn expanded(self, d: AutomataModel, s: int, symbol: Seq<char>) -> bool {
        ||| self.step_set(d.states[s], symbol) == Set::<usize>::empty()
        ||| exists|k: int| 0 <= k < d.transitions[s].len() && #[trigger] d.transitions[s][k].0 == symbol
    }

    /// `d` is what the subset construction makes of this automaton, with at
    /// most one state added last to complete it (see `is_dead_slot`):
    /// - state 0 carries the tags of the epsilon-closure of the entry state;
    /// - every other state is the target of an edge from a state before it
    ///   (the added state too, when the alphabet has no repeats, so it is
    ///   added only where some symbol reaches nothing), and carries tags of
    ///   this automaton only;
    /// - the accepting states are listed once each;
    /// - no two states carry the same tags;
    /// - a state accepts exactly when it shares a tag with an accepting state;
    /// - every edge is a subset-construction edge (its symbol reaches some
    ///   source state), or leads to the added state on a symbol that reaches
    ///   nothing; the added state's own edges lead back to it;
    /// - every state has an edge for each symbol that reaches something;
    /// - with an alphabet free of repeats, `d` is deterministic and total.
    pub open spec fn determinized_as(self, d: AutomataModel) -> bool {
        &&& d.alphabet == self.alphabet
        &&& d.states.len() > 0
        &&& d.entry_state == 0
        &&& d.accept_states.no_duplicates()
        &&& exists|c: Set<usize>| self.is_closure_of(set![self.entry_state], c) && d.states[0] == self.union_tags(c)
        &&& self.alphabet.no_duplicates() ==> d.is_det()
        &&& forall|i: int|
            0 <= i < d.states.len() ==> (#[trigger] d.states[i]).subset_of(self.all_tags()) || is_dead_slot(d, i)
        &&& forall|i: int|
            0 < i < d.states.len() && !is_dead_slot(d, i) ==> #[trigger] entered_from_before(d, i)
        &&& self.alphabet.no_duplicates() ==> forall|i: int|
            0 < i < d.states.len() ==> #[trigger] entered_from_before(d, i)
        &&& forall|i: int|
            0 <= i < d.states.len() ==> (d.accept_states.contains(i as usize)
                == self.touches_accepting(#[trigger] d.states[i])) || is_dead_slot(d, i)
        &&& forall|i: int, j: int| 0 <= i < j < d.states.len() ==> d.states[i] != d.states[j] || is_dead_slot(d, j)
        &&& forall|s: int, k: int|
            0 <= s < d.transitions.len() && 0 <= k < d.transitions[s].len()
                ==> self.alphabet.contains(#[trigger] d.transitions[s][k].0)
        &&& forall|s: int, k: int|
            0 <= s < d.transitions.len() && 0 <= k < d.transitions[s].len() ==> {
                ||| #[trigger] self.subset_edge(d, s, k)
                ||| self.step_set(d.states[s], d.transitions[s][k].0) == Set::<usize>::empty()
                    && is_dead_slot(d, d.transitions[s][k].1 as int)
                ||| is_dead_slot(d, s)
            }
        &&& forall|s: int, b: int|
            0 <= s < d.states.len() && 0 <= b < self.alphabet.len() && !is_dead_slot(d, s)
                ==> #[trigger] self.expanded(d, s, self.alphabet[b])
    }

    /// State `p` has an edge labelled `symbol`.
    pub open spec fn has_edge_on(self, p: int, symbol: Seq<char>) -> bool {
        exists|k: int| 0 <= k < self.transitions[p].len() && #[trigger] self.transitions[p][k].0 == symbol
    }

    /// Every state has an edge for every symbol of the alphabet.
    pub open spec fn is_total(self) -> bool {
        forall|p: int, b: int|
            0 <= p < self.states.len() && 0 <= b < self.alphabet.len() ==> #[trigger] self.has_edge_on(p, self.alphabet[b])
    }

    /// Every edge is labelled with a symbol of the alphabet.
    pub open spec fn labels_in_alphabet(self) -> bool {
        forall|p: int, k: int|
            0 <= p < self.transitions.len() && 0 <= k < self.transitions[p].len()
                ==> self.alphabet.contains(#[trigger] self.transitions[p][k].0)
    }

    /// Every state carries exactly one tag.
    pub open spec fn one_tag_each(self) -> bool {
        forall|p: int| 0 <= p < self.states.len() ==> #[trigger] self.states[p] == set![self.states[p].choose()]
    }

    /// One visit of the stack walk: each epsilon edge of `ts`, in order, whose
    /// target is not yet found pushes that target on the stack and on the
    /// found list.
    pub open spec fn scan_edges(self, ts: Seq<(Seq<char>, usize)>, stack: Seq<usize>, found: Seq<usize>) -> (Seq<usize>, Seq<usize>)
        decreases ts.len(),
    {
        if ts.len() == 0 {
            (stack, found)
        } else {
            let sf = self.scan_edges(ts.drop_last(), stack, found);
            let t = ts.last();
            if t.0.len() == 0 && !sf.1.contains(t.1) {
                (sf.0.push(t.1), sf.1.push(t.1))
            } else {
                sf
            }
        }
    }

    /// The found list when the stack walk ends: it pops the top state and
    /// visits its edges, until the stack is empty or `fuel` runs out.
    pub open spec fn eps_walk(self, stack: Seq<usize>, found: Seq<usize>, fuel: nat) -> Seq<usize>
        decreases fuel,
    {
        if fuel == 0 || stack.len() == 0 {
            found
        } else {
            let sf = self.scan_edges(self.transitions[stack.last() as int], stack.drop_last(), found);
            self.eps_walk(sf.0, sf.1, (fuel - 1) as nat)
        }
    }

    /// `c` is the epsilon-closure of `seeds`: the least set of states that holds
    /// the seeds and is closed under epsilon edges.
    pub open spec fn is_closure_of(self, seeds: Set<usize>, c: Set<usize>) -> bool {
        &&& seeds.subset_of(c)
        &&& self.eps_closed(c)
        &&& forall|d: Set<usize>| seeds.subset_of(d) && #[trigger] self.eps_closed(d) ==> c.subset_of(d)
    }
}

/// A sequence of distinct indices below `bound` is no longer than `bound`.
proof fn lemma_distinct_below(s: Seq<usize>, bound: int)
    requires
        0 <= bound,
        s.no_duplicates(),
        forall|i: int| 0 <= i < s.len() ==> (#[trigger] s[i] as int) < bound,
    ensures
        s.len() <= bound,
{
    let t = s.map_values(|x: usize| x as int);
    assert(t.no_duplicates()) by {
        assert forall|i: int, j: int| 0 <= i < t.len() && 0 <= j < t.len() && i != j implies t[i] != t[j] by {
            assert(s[i] != s[j]);
        }
    }
    t.unique_seq_to_set();
    lemma_int_range(0, bound);
    assert(t.to_set().subset_of(set_int_range(0, bound))) by {
        assert forall|x: int| t.to_set().contains(x) implies set_int_range(0, bound).contains(x) by {
            let i = choose|i: int| 0 <= i < t.len() && t[i] == x;
            assert(s[i] as int == x);
        }
    }
    lemma_len_subset(t.to_set(), set_int_range(0, bound));
}

/// The sets whose elements all lie in `u`.
pub open spec fn subsets_of(u: Set<Seq<char>>) -> Set<Set<Seq<char>>> {
    Set::new(|x: Set<Seq<char>>| x.subset_of(u))
}

proof fn lemma_subsets_finite(u: Set<Seq<char>>)
    requires
        u.finite(),
    ensures
        subsets_of(u).finite(),
    decreases u.len(),
{
    if u.len() == 0 {
        u.lemma_len0_is_empty();
        assert(subsets_of(u) =~= set![Set::<Seq<char>>::empty()]) by {
            assert forall|x: Set<Seq<char>>| subsets_of(u).contains(x) implies x == Set::<Seq<char>>::empty() by {
                assert(x =~= Set::<Seq<char>>::empty());
            }
        }
    } else {
        let a = u.choose();
        let rest = u.remove(a);
        lemma_subsets_finite(rest);
        let with_a = subsets_of(rest).map(|x: Set<Seq<char>>| x.insert(a));
        subsets_of(rest).lemma_map_finite(|x: Set<Seq<char>>| x.insert(a));
        assert(subsets_of(u) =~= subsets_of(rest).union(with_a)) by {
            assert forall|x: Set<Seq<char>>| subsets_of(u).contains(x) implies
                subsets_of(rest).union(with_a).contains(x) by {
                if x.contains(a) {
                    assert(subsets_of(rest).contains(x.remove(a)));
                    assert(x.remove(a).insert(a) =~= x);
                } else {
                    assert(x.subset_of(rest));
                }
            }
            assert forall|x: Set<Seq<char>>| subsets_of(rest).union(with_a).contains(x) implies
                subsets_of(u).contains(x) by {
                if !subsets_of(rest).contains(x) {
                    let y = choose|y: Set<Seq<char>>| subsets_of(rest).contains(y) && y.insert(a) == x;
                }
            }
        }
    }
}

/// Distinct sets, each within the finite set `u`, are no more than the
/// subsets of `u`.
proof fn lemma_distinct_subsets(s: Seq<Set<Seq<char>>>, u: Set<Seq<char>>)
    requires
        u.finite(),
        s.no_duplicates(),
        forall|i: int| 0 <= i < s.len() ==> (#[trigger] s[i]).subset_of(u),
    ensures
        s.len() <= subsets_of(u).len(),
{
    lemma_subsets_finite(u);
    s.unique_seq_to_set();
    assert(s.to_set().subset_of(subsets_of(u)));
    lemma_len_subset(s.to_set(), subsets_of(u));
}

proof fn lemma_all_tags_finite(m: AutomataModel, n: int)
    requires
        0 <= n <= m.states.len(),
        forall|q: int| 0 <= q < m.states.len() ==> (#[trigger] m.states[q]).finite(),
    ensures
        Set::new(|t: Seq<char>| exists|q: int| 0 <= q < n && #[trigger] m.states[q].contains(t)).finite(),
    decreases n,
{
    let u = Set::new(|t: Seq<char>| exists|q: int| 0 <= q < n && #[trigger] m.states[q].contains(t));
    if n == 0 {
        assert(u =~= Set::<Seq<char>>::empty());
    } else {
        lemma_all_tags_finite(m, n - 1);
        let v = Set::new(|t: Seq<char>| exists|q: int| 0 <= q < n - 1 && #[trigger] m.states[q].contains(t));
        assert(u =~= v.union(m.states[n - 1]));
    }
}

/// `targets_on` holds exactly the targets of the edges with that label.
pub(crate) proof fn lemma_targets_on(ts: Seq<(Seq<char>, usize)>, symbol: Seq<char>)
    ensures
        forall|q: usize| #[trigger] targets_on(ts, symbol).contains(q)
            <==> exists|k: int| 0 <= k < ts.len() && ts[k] == (symbol, q),
    decreases ts.len(),
{
    if ts.len() > 0 {
        lemma_targets_on(ts.drop_last(), symbol);
        let rest = targets_on(ts.drop_last(), symbol);
        assert forall|q: usize| #[trigger] targets_on(ts, symbol).contains(q)
            <==> exists|k: int| 0 <= k < ts.len() && ts[k] == (symbol, q) by {
            if targets_on(ts, symbol).contains(q) {
                if rest.contains(q) {
                    let k = choose|k: int| 0 <= k < ts.drop_last().len() && ts.drop_last()[k] == (symbol, q);
                    assert(ts[k] == (symbol, q));
                } else {
                    assert(ts[ts.len() - 1] == (symbol, q));
                }
            }
            if exists|k: int| 0 <= k < ts.len() && ts[k] == (symbol, q) {
                let k = choose|k: int| 0 <= k < ts.len() && ts[k] == (symbol, q);
                if k < ts.len() - 1 {
                    assert(ts.drop_last()[k] == (symbol, q));
                    assert(rest.contains(q));
                    if ts.last().0 == symbol {
                        assert(rest.push(ts.last().1)[rest.index_of(q)] == q);
                    }
                } else {
                    assert(targets_on(ts, symbol) == rest.push(q));
                    assert(rest.push(q)[rest.len() as int] == q);
                }
            }
        }
    }
}

proof fn lemma_push_to_set<A>(s: Seq<A>, x: A)
    ensures
        s.push(x).to_set() == s.to_set().insert(x),
{
    assert forall|y: A| s.push(x).to_set().contains(y) implies s.to_set().insert(x).contains(y) by {
        let w = choose|w: int| 0 <= w < s.push(x).len() && s.push(x)[w] == y;
        if w < s.len() {
            assert(s[w] == y);
        }
    }
    assert forall|y: A| s.to_set().insert(x).contains(y) implies s.push(x).to_set().contains(y) by {
        if y == x {
            assert(s.push(x)[s.len() as int] == x);
        } else {
            let w = choose|w: int| 0 <= w < s.len() && s[w] == y;
            assert(s.push(x)[w] == y);
        }
    }
    assert(s.push(x).to_set() =~= s.to_set().insert(x));
}

/// The tags held in `v`, as a set.
pub open spec fn tag_set(v: Seq<String>) -> Set<Seq<char>> {
    v.map_values(|s: String| s@).to_set()
}

/// Whether `v` holds the tag `t`.
fn holds_tag(v: &Vec<String>, t: &String) -> (r: bool)
    ensures
        r == tag_set(v@).contains(t@),
{
    let mut i: usize = 0;
    while i < v.len()
        invariant
            i <= v@.len(),
            forall|j: int| 0 <= j < i ==> v@[j]@ != t@,
        decreases v@.len() - i,
    {
        if v[i] == *t {
            assert(v@.map_values(|s: String| s@)[i as int] == t@);
            return true;
        }
        i += 1;
    }
    let ghost tags = v@.map_values(|s: String| s@);
    assert forall|j: int| 0 <= j < tags.len() implies #[trigger] tags[j] != t@ by {
        assert(v@[j]@ != t@);
    }
    false
}

/// Slot `i` of `d` holds the state added to complete it: the last state,
/// tagged `!` alone, not accepting, and with every edge leading back to it.
pub open spec fn is_dead_slot(d: AutomataModel, i: int) -> bool {
    &&& i == d.states.len() - 1
    &&& d.states[i] == set![seq!['!']]
    &&& !d.accept_states.contains(i as usize)
    &&& forall|k: int| 0 <= k < d.transitions[i].len() ==> #[trigger] d.transitions[i][k].1 == i as usize
}

/// Whether some edge of `ts` is labelled `symbol`.
fn has_label(ts: &Vec<Transition>, symbol: &String) -> (r: bool)
    ensures
        r == exists|k: int| 0 <= k < ts@.len() && (#[trigger] ts@[k])@.0 == symbol@,
{
    let mut k: usize = 0;
    while k < ts.len()
        invariant
            k <= ts@.len(),
            forall|j: int| 0 <= j < k ==> (#[trigger] ts@[j])@.0 != symbol@,
        decreases ts@.len() - k,
    {
        if ts[k].has_symbol(symbol) {
            return true;
        }
        k += 1;
    }
    false
}

/// State `i` of `d` is the target of an edge that leaves a state before it.
pub open spec fn entered_from_before(d: AutomataModel, i: int) -> bool {
    exists|s: int, k: int| 0 <= s < i && 0 <= k < d.transitions[s].len() && #[trigger] d.transitions[s][k].1 == i as usize
}

/// Whether `x` occurs in `v`.
fn holds_index(v: &Vec<usize>, x: usize) -> (r: bool)
    ensures
        r == v@.contains(x),
{
    let mut i: usize = 0;
    while i < v.len()
        invariant
            i <= v@.len(),
            forall|j: int| 0 <= j < i ==> v@[j] != x,
        decreases v@.len() - i,
    {
        if v[i] == x {
            return true;
        }
        i += 1;
    }
    false
}

/// Something that designates a state of an automaton: its index, or the state
/// itself, found by its tags.
pub trait AutomataIndex {
    /// This designates a state of `automata`.
    spec fn refers_in(&self, automata: AutomataModel) -> bool;

    /// The index of the designated state.
    spec fn spec_index(&self, automata: AutomataModel) -> usize;

    fn index(&self, automata: &Automata) -> (r: usize)
        requires
            automata@.wf(),
            self.refers_in(automata@),
        ensures
            r == self.spec_index(automata@),
            (r as int) < automata@.states.len(),
    ;
}

impl AutomataIndex for usize {
    open spec fn refers_in(&self, automata: AutomataModel) -> bool {
        (*self as int) < automata.states.len()
    }

    open spec fn spec_index(&self, automata: AutomataModel) -> usize {
        *self
    }

    fn index(&self, automata: &Automata) -> (r: usize) {
        *self
    }
}

impl AutomataIndex for State {
    open spec fn refers_in(&self, automata: AutomataModel) -> bool {
        automata.states.contains(self@)
    }

    open spec fn spec_index(&self, automata: AutomataModel) -> usize {
        automata.first_with(self@)
    }

    fn index(&self, automata: &Automata) -> (r: usize) {
        match automata.find(self) {
            Some(i) => i,
            None => {
                proof {
                    let j = choose|j: int| 0 <= j < automata@.states.len() && automata@.states[j] == self@;
                }
                0
            },
        }
    }
}

/// A finite automaton: states identified by their tags, an alphabet, an
/// entry state, accepting states, and for each state its outgoing edges.
/// Indices into `states` name states everywhere else.
pub struct Automata {
    alphabet: Vec<String>,
    states: Vec<State>,
    entry_state: usize,
    accept_states: Vec<usize>,
    transitions: Vec<Vec<Transition>>,
}

impl View for Automata {
    type V = AutomataModel;

    closed spec fn view(&self) -> AutomataModel {
        AutomataModel {
            alphabet: self.alphabet@.map_values(|s: String| s@),
            states: self.states@.map_values(|s: State| s@),
            entry_state: self.entry_state,
            accept_states: self.accept_states@,
            transitions: self.transitions@.map_values(
                |ts: Vec<Transition>| ts@.map_values(|t: Transition| t@),
            ),
        }
    }
}

impl Automata {
    pub fn new() -> (r: Self)
        ensures
            r@.wf(),
            r@.alphabet.len() == 0,
            r@.states.len() == 0,
            r@.accept_states.len() == 0,
            r@.entry_state == 0,
    {
        Automata {
            alphabet: Vec::new(),
            states: Vec::new(),
            entry_state: 0,
            accept_states: Vec::new(),
            transitions: Vec::new(),
        }
    }

    pub fn len(&self) -> (r: usize)
        ensures
            r == self@.states.len(),
    {
        self.states.len()
    }

    pub fn is_empty(&self) -> (r: bool)
        ensures
            r == (self@.states.len() == 0),
    {
        self.states.len() == 0
    }

    pub fn alphabet(&self) -> (r: &Vec<String>)
        ensures
            r@.map_values(|s: String| s@) == self@.alphabet,
    {
        &self.alphabet
    }

    pub fn states(&self) -> (r: &Vec<State>)
        ensures
            r@.map_values(|s: State| s@) == self@.states,
    {
        &self.states
    }

    pub fn accept_states(&self) -> (r: &Vec<usize>)
        ensures
            r@ == self@.accept_states,
    {
        &self.accept_states
    }

    pub fn entry_state(&self) -> (r: usize)
        ensures
            r == self@.entry_state,
    {
        self.entry_state
    }

    /// The designated state.
    pub fn state<I: AutomataIndex>(&self, index: I) -> (r: &State)
        requires
            self@.wf(),
            index.refers_in(self@),
        ensures
            r@ == self@.states[index.spec_index(self@) as int],
    {
        let i = index.index(self);
        &self.states[i]
    }

    /// The index of the first state with the same tag set as `state`.
    pub fn find(&self, state: &State) -> (r: Option<usize>)
        ensures
            match r {
                Some(i) => {
                    &&& (i as int) < self@.states.len()
                    &&& self@.states[i as int] == state@
                    &&& forall|j: int| 0 <= j < i ==> self@.states[j] != state@
                    &&& i == self@.first_with(state@)
                },
                None => !self@.states.contains(state@),
            },
    {
        let mut i: usize = 0;
        while i < self.states.len()
            invariant
                i <= self@.states.len(),
                forall|j: int| 0 <= j < i ==> self@.states[j] != state@,
            decreases self.states@.len() - i,
        {
            if self.states[i] == *state {
                proof {
                    let w = self@.first_with(state@);
                    assert((i as int) < self@.states.len() && self@.states[i as int] == state@
                        && forall|j: int| 0 <= j < i ==> self@.states[j] != state@);
                    if w != i {
                        if w < i {
                            assert(self@.states[w as int] != state@);
                        } else {
                            assert(self@.states[i as int] != state@);
                        }
                    }
                }
                return Some(i);
            }
            i += 1;
        }
        None
    }

    /// Appends a state with no outgoing edges; its index is the old length.
    pub fn push_state(&mut self, state: State)
        requires
            old(self)@.wf(),
        ensures
            final(self)@ == (AutomataModel {
                states: old(self)@.states.push(state@),
                transitions: old(self)@.transitions.push(Seq::empty()),
                ..old(self)@
            }),
            final(self)@.wf(),
    {
        let ghost s0 = self@;
        let no_edges: Vec<Transition> = Vec::new();
        assert(no_edges@.map_values(|t: Transition| t@) =~= Seq::<(Seq<char>, usize)>::empty());
        self.states.push(state);
        self.transitions.push(no_edges);
        assert(self@.states =~= s0.states.push(state@));
        assert(self@.transitions =~= s0.transitions.push(Seq::empty()));
    }

    pub fn push_symbol(&mut self, symbol: &str)
        ensures
            final(self)@ == (AutomataModel { alphabet: old(self)@.alphabet.push(symbol@), ..old(self)@ }),
    {
        let ghost s0 = self@;
        self.alphabet.push(symbol.to_owned());
        assert(self@.alphabet =~= s0.alphabet.push(symbol@));
    }

    pub fn push_accept_state<I: AutomataIndex>(&mut self, index: I)
        requires
            old(self)@.wf(),
            index.refers_in(old(self)@),
        ensures
            final(self)@ == (AutomataModel {
                accept_states: old(self)@.accept_states.push(index.spec_index(old(self)@)),
                ..old(self)@
            }),
            final(self)@.wf(),
    {
        let i = index.index(self);
        self.accept_states.push(i);
    }

    pub fn set_entry_state<I: AutomataIndex>(&mut self, index: I)
        requires
            old(self)@.wf(),
            index.refers_in(old(self)@),
        ensures
            final(self)@ == (AutomataModel { entry_state: index.spec_index(old(self)@), ..old(self)@ }),
            final(self)@.wf(),
    {
        self.entry_state = index.index(self);
    }

    /// Adds `transition` to the edges of the designated state, unless an equal
    /// edge is there already.
    pub fn push_transition_from<I: AutomataIndex>(&mut self, index: I, transition: Transition)
        requires
            old(self)@.wf(),
            index.refers_in(old(self)@),
            (transition@.1 as int) < old(self)@.states.len(),
        ensures
            ({
                let i = index.spec_index(old(self)@) as int;
                let ts = old(self)@.transitions[i];
                final(self)@ == (AutomataModel {
                    transitions: old(self)@.transitions.update(
                        i,
                        if ts.contains(transition@) { ts } else { ts.push(transition@) },
                    ),
                    ..old(self)@
                })
            }),
            final(self)@.wf(),
    {
        let ghost s0 = self@;
        let i = index.index(self);
        let mut found = false;
        let mut k: usize = 0;
        while k < self.transitions[i].len()
            invariant
                self@ == s0,
                (i as int) < s0.transitions.len(),
                s0.wf(),
                k <= s0.transitions[i as int].len(),
                found == exists|j: int| 0 <= j < k && s0.transitions[i as int][j] == transition@,
            decreases s0.transitions[i as int].len() - k,
        {
            let ghost cur = s0.transitions[i as int][k as int];
            assert(self.transitions@[i as int]@[k as int]@ == cur);
            if self.transitions[i][k] == transition {
                found = true;
            }
            assert(found ==> exists|j: int| 0 <= j <= k && s0.transitions[i as int][j] == transition@);
            k += 1;
        }
        if found {
            assert(s0.transitions.update(i as int, s0.transitions[i as int]) =~= s0.transitions);
        } else {
            assert(!s0.transitions[i as int].contains(transition@));
            self.transitions[i].push(transition);
            assert(self@.transitions =~= s0.transitions.update(
                i as int,
                s0.transitions[i as int].push(transition@),
            )) by {
                assert(self@.transitions[i as int] =~= s0.transitions[i as int].push(transition@));
            }
            assert forall|s: int| 0 <= s < self@.transitions.len() implies
                #[trigger] self@.transitions[s].no_duplicates() by {
                if s == i {
                    assert(s0.transitions[s].no_duplicates());
                }
            }
        }
    }

    /// The outgoing edges of the designated state.
    pub fn transitions_from<I: AutomataIndex>(&self, index: I) -> (r: &Vec<Transition>)
        requires
            self@.wf(),
            index.refers_in(self@),
        ensures
            r@.map_values(|t: Transition| t@) == self@.transitions[index.spec_index(self@) as int],
    {
        let i = index.index(self);
        &self.transitions[i]
    }

    /// The targets of the edges labelled `symbol` that leave the designated state.
    pub fn move_from_with<I: AutomataIndex>(&self, index: I, symbol: &str) -> (r: Vec<usize>)
        requires
            self@.wf(),
            index.refers_in(self@),
        ensures
            r@ == targets_on(self@.transitions[index.spec_index(self@) as int], symbol@),
    {
        let i = index.index(self);
        let ghost ts = self@.transitions[i as int];
        let wanted = symbol.to_owned();
        let mut r: Vec<usize> = Vec::new();
        let mut k: usize = 0;
        while k < self.transitions[i].len()
            invariant
                (i as int) < self@.transitions.len(),
                ts == self@.transitions[i as int],
                wanted@ == symbol@,
                k <= ts.len(),
                r@ == targets_on(ts.subrange(0, k as int), symbol@),
            decreases ts.len() - k,
        {
            let t = &self.transitions[i][k];
            assert(ts.subrange(0, k + 1).drop_last() =~= ts.subrange(0, k as int));
            if t.has_symbol(&wanted) {
                r.push(t.end_state());
            }
            k += 1;
        }
        assert(ts.subrange(0, ts.len() as int) =~= ts);
        r
    }

    /// Whether every state has exactly one edge per symbol of the alphabet.
    pub fn is_deterministic(&self) -> (r: bool)
        ensures
            r == self@.is_det(),
    {
        let n = self.alphabet.len();
        let mut s: usize = 0;
        while s < self.transitions.len()
            invariant
                n == self@.alphabet.len(),
                s <= self@.transitions.len(),
                forall|p: int|
                    0 <= p < s ==> {
                        &&& #[trigger] self@.transitions[p].len() == self@.alphabet.len()
                        &&& forall|j: int, k: int|
                            0 <= j < k < self@.transitions[p].len() ==> self@.transitions[p][j].0
                                != self@.transitions[p][k].0
                        &&& forall|k: int|
                            0 <= k < self@.transitions[p].len() ==> self@.alphabet.contains(#[trigger] self@.transitions[p][k].0)
                    },
            decreases self@.transitions.len() - s,
        {
            let ts = &self.transitions[s];
            let ghost mts = self@.transitions[s as int];
            assert(ts@.len() == mts.len());
            if ts.len() != n {
                return false;
            }
            let mut k: usize = 1;
            while k < ts.len()
                invariant
                    (s as int) < self@.transitions.len(),
                    ts@.len() == self@.alphabet.len(),
                    mts == self@.transitions[s as int],
                    mts.len() == ts@.len(),
                    forall|c: int| 0 <= c < ts@.len() ==> #[trigger] ts@[c]@ == mts[c],
                    1 <= k <= ts@.len() || ts@.len() == 0,
                    forall|j: int, c: int| 0 <= j < c < k && c < mts.len() ==> mts[j].0 != mts[c].0,
                decreases ts@.len() - k,
            {
                let mut j: usize = 0;
                while j < k
                    invariant
                        (s as int) < self@.transitions.len(),
                        ts@.len() == self@.alphabet.len(),
                        mts == self@.transitions[s as int],
                        mts.len() == ts@.len(),
                        forall|c: int| 0 <= c < ts@.len() ==> #[trigger] ts@[c]@ == mts[c],
                        1 <= k < ts@.len(),
                        j <= k,
                        forall|i: int| 0 <= i < j ==> mts[i].0 != mts[k as int].0,
                    decreases k - j,
                {
                    if ts[j].same_symbol(&ts[k]) {
                        assert(mts[j as int].0 == mts[k as int].0);
                        assert(!self@.is_det()) by {
                            assert(self@.transitions[s as int].len() == self@.alphabet.len());
                        }
                        return false;
                    }
                    j += 1;
                }
                k += 1;
            }
            let mut k: usize = 0;
            while k < ts.len()
                invariant
                    (s as int) < self@.transitions.len(),
                    mts == self@.transitions[s as int],
                    mts.len() == ts@.len(),
                    forall|c: int| 0 <= c < ts@.len() ==> #[trigger] ts@[c]@ == mts[c],
                    k <= ts@.len(),
                    forall|c: int| 0 <= c < k ==> self@.alphabet.contains(#[trigger] mts[c].0),
                decreases ts@.len() - k,
            {
                if !self.in_alphabet(&ts[k]) {
                    assert(!self@.alphabet.contains(mts[k as int].0));
                    assert(!self@.is_det()) by {
                        assert(self@.transitions[s as int][k as int] == mts[k as int]);
                    }
                    return false;
                }
                k += 1;
            }
            s += 1;
        }
        true
    }

    /// Whether `t` is labelled with a symbol of the alphabet.
    fn in_alphabet(&self, t: &Transition) -> (r: bool)
        ensures
            r == self@.alphabet.contains(t@.0),
    {
        let mut a: usize = 0;
        while a < self.alphabet.len()
            invariant
                a <= self@.alphabet.len(),
                forall|b: int| 0 <= b < a ==> self@.alphabet[b] != t@.0,
            decreases self@.alphabet.len() - a,
        {
            assert(self.alphabet@[a as int]@ == self@.alphabet[a as int]);
            if t.has_symbol(&self.alphabet[a]) {
                return true;
            }
            a += 1;
        }
        false
    }

    /// The state whose tags are those of all the states in `c`.
    fn union_of(&self, c: &Vec<usize>) -> (r: State)
        requires
            self@.wf(),
            forall|i: int| 0 <= i < c@.len() ==> (#[trigger] c@[i] as int) < self@.states.len(),
        ensures
            r@ == self@.union_tags(c@.to_set()),
    {
        let ghost m = self@;
        let mut tags: Vec<String> = Vec::new();
        let mut i: usize = 0;
        while i < c.len()
            invariant
                m == self@,
                m.wf(),
                i <= c@.len(),
                forall|i: int| 0 <= i < c@.len() ==> (#[trigger] c@[i] as int) < m.states.len(),
                tag_set(tags@) == m.union_tags(c@.subrange(0, i as int).to_set()),
            decreases c@.len() - i,
        {
            let q = c[i];
            let src = self.states[q].tags();
            let ghost before = tag_set(tags@);
            let ghost qs = self.states@[q as int].tag_seq();
            assert(m.states[q as int] == qs.to_set());
            let mut j: usize = 0;
            while j < src.len()
                invariant
                    j <= src@.len(),
                    src@.map_values(|t: String| t@) == qs,
                    tag_set(tags@) == before.union(qs.subrange(0, j as int).to_set()),
                decreases src@.len() - j,
            {
                let ghost prev = tags@;
                let ghost t = src@[j as int]@;
                assert(qs[j as int] == t);
                if !holds_tag(&tags, &src[j]) {
                    tags.push(src[j].clone());
                    assert(tags@.map_values(|s: String| s@) =~= prev.map_values(|s: String| s@).push(t));
                    proof {
                        lemma_push_to_set(prev.map_values(|s: String| s@), t);
                    }
                } else {
                    assert(tag_set(prev).insert(t) =~= tag_set(prev));
                }
                assert(tag_set(tags@) == tag_set(prev).insert(t));
                assert(qs.subrange(0, j + 1) =~= qs.subrange(0, j as int).push(t));
                proof {
                    lemma_push_to_set(qs.subrange(0, j as int), t);
                }
                assert(tag_set(tags@) =~= before.union(qs.subrange(0, j + 1).to_set()));
                j += 1;
            }
            assert(qs.subrange(0, qs.len() as int) =~= qs);
            assert(c@.subrange(0, i + 1) =~= c@.subrange(0, i as int).push(q));
            assert(m.union_tags(c@.subrange(0, i + 1).to_set()) =~= before.union(m.states[q as int])) by {
                let a = c@.subrange(0, i as int).to_set();
                let b = c@.subrange(0, i + 1).to_set();
                assert forall|t: Seq<char>| m.union_tags(b).contains(t) implies before.union(m.states[q as int]).contains(t) by {
                    let p = choose|p: usize| b.contains(p) && (p as int) < m.states.len() && #[trigger] m.states[p as int].contains(t);
                    if p != q {
                        assert(a.contains(p));
                        assert(m.union_tags(a).contains(t));
                    }
                }
                assert forall|t: Seq<char>| before.union(m.states[q as int]).contains(t) implies m.union_tags(b).contains(t) by {
                    if before.contains(t) {
                        let p = choose|p: usize| a.contains(p) && (p as int) < m.states.len() && #[trigger] m.states[p as int].contains(t);
                        assert(b.contains(p));
                    } else {
                        assert(c@.subrange(0, i + 1)[i as int] == q);
                        assert(b.contains(q));
                    }
                }
            }
            i += 1;
        }
        assert(c@.subrange(0, c@.len() as int) =~= c@);
        let r = State::from_tags(tags);
        r
    }

    /// Whether `st` shares a tag with an accepting state.
    fn touches_accepting(&self, st: &State) -> (r: bool)
        requires
            self@.wf(),
        ensures
            r == self@.touches_accepting(st@),
    {
        let ghost m = self@;
        let mut i: usize = 0;
        while i < self.accept_states.len()
            invariant
                m == self@,
                m.wf(),
                i <= m.accept_states.len(),
                forall|a: int, t: Seq<char>|
                    0 <= a < i && #[trigger] m.states[m.accept_states[a] as int].contains(t) ==> !st@.contains(t),
            decreases m.accept_states.len() - i,
        {
            let q = self.accept_states[i];
            let src = self.states[q].tags();
            let ghost qs = self.states@[q as int].tag_seq();
            let mut j: usize = 0;
            while j < src.len()
                invariant
                    m == self@,
                    (i as int) < m.accept_states.len(),
                    q == m.accept_states[i as int],
                    (q as int) < m.states.len(),
                    m.states[q as int] == qs.to_set(),
                    j <= src@.len(),
                    src@.map_values(|t: String| t@) == qs,
                    forall|c: int| 0 <= c < j ==> !st@.contains(#[trigger] qs[c]),
                decreases src@.len() - j,
            {
                assert(qs[j as int] == src@[j as int]@);
                if st.has_tag(&src[j]) {
                    assert(m.states[m.accept_states[i as int] as int].contains(qs[j as int]));
                    return true;
                }
                j += 1;
            }
            assert forall|a: int, t: Seq<char>|
                0 <= a < i + 1 && #[trigger] m.states[m.accept_states[a] as int].contains(t) implies !st@.contains(t) by {
                if a == i {
                    let c = choose|c: int| 0 <= c < qs.len() && qs[c] == t;
                }
            }
            i += 1;
        }
        false
    }

    /// The states that an edge labelled `symbol` reaches from the states
    /// named by the tags of `st`.
    fn step(&self, st: &State, symbol: &str) -> (r: Vec<usize>)
        requires
            self@.wf(),
            self@.tags_resolve(),
            st@.subset_of(self@.all_tags()),
        ensures
            r@.to_set() == self@.step_set(st@, symbol@),
            forall|i: int| 0 <= i < r@.len() ==> (#[trigger] r@[i] as int) < self@.states.len(),
    {
        let ghost m = self@;
        let src = st.tags();
        let ghost ss = st.tag_seq();
        let mut r: Vec<usize> = Vec::new();
        let mut i: usize = 0;
        while i < src.len()
            invariant
                m == self@,
                m.wf(),
                m.tags_resolve(),
                st@.subset_of(m.all_tags()),
                st@ == ss.to_set(),
                src@.map_values(|t: String| t@) == ss,
                i <= src@.len(),
                forall|k: int| 0 <= k < r@.len() ==> (#[trigger] r@[k] as int) < m.states.len(),
                r@.to_set() == Set::new(|q: usize| exists|t: Seq<char>| ss.subrange(0, i as int).contains(t)
                    && #[trigger] targets_on(m.transitions[m.first_with(set![t]) as int], symbol@).contains(q)),
            decreases src@.len() - i,
        {
            let ghost t = ss[i as int];
            assert(src@[i as int]@ == t);
            assert(st@.contains(t));
            let one = State::from_tag(src[i].as_str());
            let found = self.find(&one);
            let p = match found {
                Some(p) => p,
                None => {
                    assert(m.states.contains(set![t]));
                    0
                },
            };
            let moved = self.move_from_with(p, symbol);
            let ghost tt = targets_on(m.transitions[p as int], symbol@);
            proof {
                lemma_targets_on(m.transitions[p as int], symbol@);
                assert forall|q: usize| #[trigger] tt.contains(q) implies (q as int) < m.states.len() by {
                    let kk = choose|kk: int| 0 <= kk < m.transitions[p as int].len() && m.transitions[p as int][kk] == (symbol@, q);
                    assert(m.transitions[p as int][kk].1 < m.states.len());
                }
            }
            let ghost r0 = r@;
            let mut k: usize = 0;
            while k < moved.len()
                invariant
                    m == self@,
                    m.wf(),
                    (p as int) < m.states.len(),
                    moved@ == tt,
                    forall|q: usize| #[trigger] tt.contains(q) ==> (q as int) < m.states.len(),
                    k <= moved@.len(),
                    r@ == r0 + tt.subrange(0, k as int),
                    forall|k: int| 0 <= k < r0.len() ==> (#[trigger] r0[k] as int) < m.states.len(),
                decreases moved@.len() - k,
            {
                r.push(moved[k]);
                assert(tt.contains(tt[k as int]));
                assert(r@ =~= r0 + tt.subrange(0, k + 1));
                k += 1;
            }
            assert(tt.subrange(0, tt.len() as int) =~= tt);
            assert forall|kk: int| 0 <= kk < r@.len() implies (#[trigger] r@[kk] as int) < m.states.len() by {
                if kk >= r0.len() {
                    assert(tt.contains(tt[kk - r0.len()]));
                }
            }
            assert(ss.subrange(0, i + 1) =~= ss.subrange(0, i as int).push(t));
            assert(r@.to_set() =~= Set::new(|q: usize| exists|u: Seq<char>| ss.subrange(0, i + 1).contains(u)
                && #[trigger] targets_on(m.transitions[m.first_with(set![u]) as int], symbol@).contains(q))) by {
                let prev = Set::new(|q: usize| exists|u: Seq<char>| ss.subrange(0, i as int).contains(u)
                    && #[trigger] targets_on(m.transitions[m.first_with(set![u]) as int], symbol@).contains(q));
                assert(r0.to_set() == prev);
                assert(p == m.first_with(set![t]));
                assert forall|q: usize| r@.to_set().contains(q) implies exists|u: Seq<char>| ss.subrange(0, i + 1).contains(u)
                    && #[trigger] targets_on(m.transitions[m.first_with(set![u]) as int], symbol@).contains(q) by {
                    let w = choose|w: int| 0 <= w < r@.len() && r@[w] == q;
                    if w < r0.len() {
                        assert(r0[w] == q);
                        assert(prev.contains(q));
                        let u = choose|u: Seq<char>| ss.subrange(0, i as int).contains(u)
                            && #[trigger] targets_on(m.transitions[m.first_with(set![u]) as int], symbol@).contains(q);
                        let z = choose|z: int| 0 <= z < i && ss.subrange(0, i as int)[z] == u;
                        assert(ss.subrange(0, i + 1)[z] == u);
                    } else {
                        assert(tt[w - r0.len()] == q);
                        assert(ss.subrange(0, i + 1)[i as int] == t);
                        assert(targets_on(m.transitions[m.first_with(set![t]) as int], symbol@).contains(q));
                    }
                }
                assert forall|q: usize| (exists|u: Seq<char>| ss.subrange(0, i + 1).contains(u)
                    && #[trigger] targets_on(m.transitions[m.first_with(set![u]) as int], symbol@).contains(q))
                    implies r@.to_set().contains(q) by {
                    let u = choose|u: Seq<char>| ss.subrange(0, i + 1).contains(u)
                        && #[trigger] targets_on(m.transitions[m.first_with(set![u]) as int], symbol@).contains(q);
                    let z = choose|z: int| 0 <= z < i + 1 && #[trigger] ss.subrange(0, i + 1)[z] == u;
                    if z < i {
                        assert(ss.subrange(0, i as int)[z] == u);
                        assert(prev.contains(q));
                        let w = choose|w: int| 0 <= w < r0.len() && r0[w] == q;
                        assert(r@[w] == q);
                    } else {
                        assert(u == t);
                        let w = choose|w: int| 0 <= w < tt.len() && tt[w] == q;
                        assert(r@[r0.len() + w] == q);
                    }
                }
            }
            i += 1;
        }
        assert(ss.subrange(0, ss.len() as int) =~= ss);
        assert(r@.to_set() =~= m.step_set(st@, symbol@));
        r
    }

    /// The deterministic automaton that the subset construction gives, made
    /// total with one more state, tagged `!`, where every missing edge leads.
    /// Its state 0 stands for the epsilon-closure of the entry state; each
    /// state carries the tags of the source states it stands for.
    #[verifier::rlimit(100)]
    pub fn to_deterministic(&self) -> (r: Self)
        requires
            self@.wf(),
            self@.states.len() > 0,
            self@.tags_resolve(),
        ensures
            r@.wf(),
            self@.determinized_as(r@),
    {
        let ghost m = self@;
        let ghost u = m.all_tags();
        proof {
            broadcast use vstd::seq_lib::seq_to_set_is_finite;
            lemma_all_tags_finite(m, m.states.len() as int);
            assert(u =~= Set::new(|t: Seq<char>| exists|q: int| 0 <= q < m.states.len() as int && #[trigger] m.states[q].contains(t)));
        }
        let mut seed: Vec<usize> = Vec::new();
        seed.push(self.entry_state);
        let seed_slice = seed.as_slice();
        assert(seed_slice@[0] == m.entry_state);
        let start = self.e_closure_set(seed_slice);
        assert(start@[0] == m.entry_state);
        let first = self.union_of(&start);
        proof {
            assert(start@.subrange(0, 1).to_set() =~= set![m.entry_state]) by {
                assert(start@.subrange(0, 1)[0] == m.entry_state);
            }
            assert forall|t: Seq<char>| first@.contains(t) implies u.contains(t) by {
                let q = choose|q: usize| start@.to_set().contains(q) && (q as int) < m.states.len() && #[trigger] m.states[q as int].contains(t);
            }
        }
        let first_accepts = self.touches_accepting(&first);
        let mut afd = Automata::new();
        afd.push_state(first);
        let mut a: usize = 0;
        while a < self.alphabet.len()
            invariant
                m == self@,
                a <= m.alphabet.len(),
                afd@.alphabet == m.alphabet.subrange(0, a as int),
                afd@.wf(),
                afd@.states.len() == 1,
                afd@.transitions[0].len() == 0,
                afd@.accept_states.len() == 0,
                afd@.entry_state == 0,
                afd@.states[0] == m.union_tags(start@.to_set()),
            decreases m.alphabet.len() - a,
        {
            afd.push_symbol(self.alphabet[a].as_str());
            assert(afd@.alphabet =~= m.alphabet.subrange(0, a + 1));
            a += 1;
        }
        assert(afd@.alphabet =~= m.alphabet);
        if first_accepts {
            afd.push_accept_state(0usize);
        }
        let ghost first_tags = afd@.states[0];
        proof {
            assert forall|i: int| 0 <= i < afd@.states.len() implies (afd@.accept_states.contains(i as usize)
                == m.touches_accepting(#[trigger] afd@.states[i])) by {
                if first_accepts {
                    assert(afd@.accept_states[0] == 0);
                }
            }
            lemma_distinct_subsets(afd@.states, u);
        }
        let mut pending: Vec<usize> = Vec::new();
        pending.push(0);
        assert(pending@[0] == 0);
        while pending.len() > 0
            invariant
                m == self@,
                m.wf(),
                m.tags_resolve(),
                u == m.all_tags(),
                u.finite(),
                afd@.wf(),
                afd@.alphabet == m.alphabet,
                afd@.states.len() > 0,
                afd@.entry_state == 0,
                afd@.states[0] == first_tags,
                forall|i: int| 0 <= i < afd@.states.len() ==> (#[trigger] afd@.states[i]).subset_of(u),
                afd@.states.no_duplicates(),
                afd@.states.len() <= subsets_of(u).len(),
                afd@.accept_states.no_duplicates(),
                forall|i: int| 0 <= i < afd@.states.len() ==> (afd@.accept_states.contains(i as usize)
                    == m.touches_accepting(#[trigger] afd@.states[i])),
                pending@.no_duplicates(),
                forall|j: int| 0 <= j < pending@.len() ==> (#[trigger] pending@[j] as int) < afd@.states.len(),
                forall|j: int| 0 <= j < pending@.len() ==> afd@.transitions[#[trigger] pending@[j] as int].len() == 0,
                forall|s: int, k: int|
                    0 <= s < afd@.transitions.len() && 0 <= k < afd@.transitions[s].len()
                        ==> m.alphabet.contains(#[trigger] afd@.transitions[s][k].0),
                m.alphabet.no_duplicates() ==> forall|s: int, j: int, k: int|
                    0 <= s < afd@.transitions.len() && 0 <= j < k < afd@.transitions[s].len()
                        ==> #[trigger] afd@.transitions[s][j].0 != #[trigger] afd@.transitions[s][k].0,
                forall|s: int, k: int|
                    0 <= s < afd@.transitions.len() && 0 <= k < afd@.transitions[s].len()
                        ==> #[trigger] m.subset_edge(afd@, s, k),
                forall|s: int, b: int|
                    0 <= s < afd@.states.len() && 0 <= b < m.alphabet.len() && !pending@.contains(s as usize)
                        ==> #[trigger] m.expanded(afd@, s, m.alphabet[b]),
                forall|i: int| 0 < i < afd@.states.len() ==> #[trigger] entered_from_before(afd@, i),
            decreases subsets_of(u).len() - afd@.states.len(), pending@.len(),
        {
            let ghost pending0 = pending@;
            let cur = pending.pop().unwrap();
            assert(pending0 == pending@.push(cur));
            assert(pending0[pending0.len() - 1] == cur);
            assert(!pending@.contains(cur)) by {
                if pending@.contains(cur) {
                    let w = choose|w: int| 0 <= w < pending@.len() && pending@[w] == cur;
                    assert(pending0[w] == pending0[pending0.len() - 1]);
                }
            }
            let ghost d0 = afd@;
            let ghost p0 = pending@;
            assert forall|j: int| 0 <= j < p0.len() implies (#[trigger] p0[j] as int) < afd@.states.len() && afd@.transitions[p0[j] as int].len() == 0 by {
                assert(pending0[j] == p0[j]);
            }
            let state_count = afd.states.len();
            assert(state_count as int == afd@.states.len());
            assert forall|s: int, b: int|
                0 <= s < afd@.states.len() && 0 <= b < m.alphabet.len() && !pending@.contains(s as usize)
                    && (s != cur || b < 0) implies #[trigger] m.expanded(afd@, s, m.alphabet[b]) by {
                if pending0.contains(s as usize) {
                    let w = choose|w: int| 0 <= w < pending0.len() && pending0[w] == s as usize;
                    if w < p0.len() {
                        assert(p0[w] == s as usize);
                        assert(pending@[w] == s as usize);
                    } else {
                        assert(pending0[p0.len() as int] == cur);
                    }
                }
                assert(!pending0.contains(s as usize));
            }
            let mut a: usize = 0;
            while a < self.alphabet.len()
                invariant
                    m == self@,
                    m.wf(),
                    m.tags_resolve(),
                    u == m.all_tags(),
                    u.finite(),
                    a <= m.alphabet.len(),
                    (cur as int) < afd@.states.len(),
                    !pending@.contains(cur),
                    afd@.wf(),
                    afd@.alphabet == m.alphabet,
                    afd@.states.len() > 0,
                    afd@.entry_state == 0,
                    afd@.states[0] == first_tags,
                    d0.states.len() <= afd@.states.len(),
                    pending@.len() - p0.len() == afd@.states.len() - d0.states.len(),
                    forall|i: int| 0 < i < afd@.states.len() ==> #[trigger] entered_from_before(afd@, i),

                    forall|s: int, k: int|
                        0 <= s < afd@.transitions.len() && 0 <= k < afd@.transitions[s].len()
                            ==> #[trigger] m.subset_edge(afd@, s, k),
                    forall|s: int, b: int|
                        0 <= s < afd@.states.len() && 0 <= b < m.alphabet.len() && !pending@.contains(s as usize)
                            && (s != cur || b < a) ==> #[trigger] m.expanded(afd@, s, m.alphabet[b]),
                    forall|i: int| 0 <= i < afd@.states.len() ==> (#[trigger] afd@.states[i]).subset_of(u),
                    afd@.states.no_duplicates(),
                    afd@.states.len() <= subsets_of(u).len(),
                    afd@.accept_states.no_duplicates(),
                forall|i: int| 0 <= i < afd@.states.len() ==> (afd@.accept_states.contains(i as usize)
                        == m.touches_accepting(#[trigger] afd@.states[i])),
                    pending@.no_duplicates(),
                    forall|j: int| 0 <= j < pending@.len() ==> (#[trigger] pending@[j] as int) < afd@.states.len(),
                    forall|j: int| 0 <= j < pending@.len() ==> afd@.transitions[#[trigger] pending@[j] as int].len() == 0,
                    forall|k: int| 0 <= k < afd@.transitions[cur as int].len()
                        ==> m.alphabet.subrange(0, a as int).contains(#[trigger] afd@.transitions[cur as int][k].0),
                    forall|s: int, k: int|
                        0 <= s < afd@.transitions.len() && 0 <= k < afd@.transitions[s].len()
                            ==> m.alphabet.contains(#[trigger] afd@.transitions[s][k].0),
                    m.alphabet.no_duplicates() ==> forall|s: int, j: int, k: int|
                        0 <= s < afd@.transitions.len() && 0 <= j < k < afd@.transitions[s].len()
                            ==> #[trigger] afd@.transitions[s][j].0 != #[trigger] afd@.transitions[s][k].0,
                decreases m.alphabet.len() - a,
            {
                let symbol = &self.alphabet[a];
                let ghost sym = m.alphabet[a as int];
                assert(symbol@ == sym);
                let ghost d1 = afd@;
                assert(afd.states@[cur as int]@ == afd@.states[cur as int]);
                assert(afd@.states[cur as int].subset_of(u));
                let next = self.step(&afd.states[cur], symbol.as_str());
                if next.len() > 0 {
                    let reached = self.e_closure_set(next.as_slice());
                    let target = self.union_of(&reached);
                    assert(target@.subset_of(u)) by {
                        assert forall|t: Seq<char>| target@.contains(t) implies u.contains(t) by {
                            let q = choose|q: usize| reached@.to_set().contains(q) && (q as int) < m.states.len() && #[trigger] m.states[q as int].contains(t);
                        }
                    }
                    let accepts = self.touches_accepting(&target);
                    let idx = match afd.find(&target) {
                        Some(i) => i,
                        None => {
                            let ghost before = afd@;
                            let ghost pb = pending@;
                            let ghost tt = target@;
                            afd.push_state(target);
                            let n = afd.len() - 1;
                            pending.push(n);
                            if accepts {
                                afd.push_accept_state(n);
                            }
                            proof {
                                assert(afd@.states == before.states.push(tt));
                                assert(!before.states.contains(tt));
                                assert(afd@.states.no_duplicates()) by {
                                    assert forall|i: int, j: int| 0 <= i < j < afd@.states.len() implies afd@.states[i] != afd@.states[j] by {
                                        if j == afd@.states.len() - 1 {
                                            assert(before.states[i] == afd@.states[i]);
                                        }
                                    }
                                }
                                assert forall|i: int| 0 <= i < afd@.states.len() implies (#[trigger] afd@.states[i]).subset_of(u) by {
                                    if i < before.states.len() {
                                        assert(before.states[i] == afd@.states[i]);
                                    }
                                }
                                lemma_distinct_subsets(afd@.states, u);
                                assert(!pb.contains(n)) by {
                                    if pb.contains(n) {
                                        let w = choose|w: int| 0 <= w < pb.len() && pb[w] == n;
                                    }
                                }
                                assert forall|i: int| 0 <= i < afd@.states.len() implies (afd@.accept_states.contains(i as usize)
                                    == m.touches_accepting(#[trigger] afd@.states[i])) by {
                                    if i < before.states.len() {
                                        assert(before.states[i] == afd@.states[i]);
                                        if accepts {
                                            assert(afd@.accept_states == before.accept_states.push(n));
                                            if afd@.accept_states.contains(i as usize) {
                                                let w = choose|w: int| 0 <= w < afd@.accept_states.len() && afd@.accept_states[w] == i as usize;
                                                assert(w < before.accept_states.len());
                                                assert(before.accept_states[w] == i as usize);
                                            }
                                            if before.accept_states.contains(i as usize) {
                                                let w = choose|w: int| 0 <= w < before.accept_states.len() && before.accept_states[w] == i as usize;
                                                assert(afd@.accept_states[w] == i as usize);
                                            }
                                        }
                                    } else {
                                        if accepts {
                                            assert(afd@.accept_states[afd@.accept_states.len() - 1] == n);
                                        } else {
                                            if afd@.accept_states.contains(n) {
                                                let w = choose|w: int| 0 <= w < afd@.accept_states.len() && afd@.accept_states[w] == n;
                                                assert(before.accept_states[w] < before.states.len());
                                            }
                                        }
                                    }
                                }
                                assert forall|j: int| 0 <= j < pending@.len() implies
                                    (#[trigger] pending@[j] as int) < afd@.states.len() && afd@.transitions[pending@[j] as int].len() == 0 by {
                                    if j < pb.len() {
                                        assert(pb[j] == pending@[j]);
                                    }
                                }
                                assert(pending@.no_duplicates()) by {
                                    assert forall|i: int, j: int| 0 <= i < j < pending@.len() implies pending@[i] != pending@[j] by {
                                        if j == pending@.len() - 1 {
                                            assert(pb[i] == pending@[i]);
                                        } else {
                                            assert(pb[i] == pending@[i] && pb[j] == pending@[j]);
                                        }
                                    }
                                }
                                assert(!pending@.contains(cur)) by {
                                    if pending@.contains(cur) {
                                        let w = choose|w: int| 0 <= w < pending@.len() && pending@[w] == cur;
                                        if w < pb.len() {
                                            assert(pb[w] == cur);
                                        }
                                    }
                                }
                                assert(afd@.transitions == before.transitions.push(Seq::empty()));
                                assert forall|s: int, k: int|
                                    0 <= s < afd@.transitions.len() && 0 <= k < afd@.transitions[s].len()
                                        implies #[trigger] m.subset_edge(afd@, s, k) by {
                                    assert(s < before.transitions.len());
                                    assert(m.subset_edge(before, s, k));
                                    assert(afd@.transitions[s] == before.transitions[s]);
                                    assert(afd@.states[s] == before.states[s]);
                                    let j = before.transitions[s][k].1 as int;
                                    assert(afd@.states[j] == before.states[j]);
                                    let c = choose|c: Set<usize>|
                                        m.is_closure_of(m.step_set(before.states[s], before.transitions[s][k].0), c)
                                            && before.states[before.transitions[s][k].1 as int] == #[trigger] m.union_tags(c);
                                }
                                assert forall|s: int, b: int|
                                    0 <= s < afd@.states.len() && 0 <= b < m.alphabet.len() && !pending@.contains(s as usize)
                                        && (s != cur || b < a) implies #[trigger] m.expanded(afd@, s, m.alphabet[b]) by {
                                    if s == n {
                                        assert(pending@[pending@.len() - 1] == n);
                                    } else {
                                        assert(afd@.transitions[s] == before.transitions[s]);
                                        assert(afd@.states[s] == before.states[s]);
                                        if pb.contains(s as usize) {
                                            let w = choose|w: int| 0 <= w < pb.len() && pb[w] == s as usize;
                                            assert(pending@[w] == s as usize);
                                        }
                                        assert(m.expanded(before, s, m.alphabet[b]));
                                        if m.step_set(before.states[s], m.alphabet[b]) != Set::<usize>::empty() {
                                            let k = choose|k: int| 0 <= k < before.transitions[s].len() && #[trigger] before.transitions[s][k].0 == m.alphabet[b];
                                            assert(afd@.transitions[s][k].0 == m.alphabet[b]);
                                        }
                                    }
                                }
                            }
                            n
                        },
                    };
                    let ghost d2 = afd@;
                    assert(forall|q: int| 0 <= q < d1.transitions.len() ==> d2.transitions[q] == d1.transitions[q]);
                    assert(d2.transitions.len() == d1.transitions.len() || (d2.transitions.len() == d1.transitions.len() + 1
                        && idx as int == d1.transitions.len()));
                    let edge = Transition::new(symbol.as_str(), idx);
                    afd.push_transition_from(cur, edge);
                    proof {
                        let ts = d2.transitions[cur as int];
                        let c = reached@.to_set();
                        assert forall|i: int| 0 < i < afd@.states.len() implies #[trigger] entered_from_before(afd@, i) by {
                            if i < d1.states.len() {
                                assert(entered_from_before(d1, i));
                                let (s, k) = choose|s: int, k: int|
                                    0 <= s < i && 0 <= k < d1.transitions[s].len() && #[trigger] d1.transitions[s][k].1 == i as usize;
                                assert(d2.transitions[s] == d1.transitions[s]);
                                if s == cur {
                                    assert(afd@.transitions[s][k] == ts[k]);
                                } else {
                                    assert(afd@.transitions[s] == d2.transitions[s]);
                                }
                                assert(afd@.transitions[s][k].1 == i as usize);
                            } else {
                                assert(idx as int == i);
                                if ts.contains((sym, idx)) {
                                    let k = choose|k: int| 0 <= k < ts.len() && ts[k] == (sym, idx);
                                    assert(ts[k].1 < d1.states.len());
                                }
                                assert(afd@.transitions[cur as int][ts.len() as int].1 == idx);
                            }
                        }
                        assert(reached@.subrange(0, next@.len() as int) =~= next@);
                        assert(next@.to_set().contains(next@[0]));
                        assert(m.step_set(d1.states[cur as int], sym) != Set::<usize>::empty());
                        assert(m.is_closure_of(m.step_set(d1.states[cur as int], sym), c));
                        assert(d2.states[idx as int] == m.union_tags(c));
                        assert(d2.states[cur as int] == d1.states[cur as int]);
                        assert(afd@.states == d2.states);
                        assert forall|s: int, k: int|
                            0 <= s < afd@.transitions.len() && 0 <= k < afd@.transitions[s].len()
                                implies #[trigger] m.subset_edge(afd@, s, k) by {
                            if s == cur && k >= ts.len() {
                                assert(afd@.transitions[s][k] == (sym, idx));
                                assert(m.is_closure_of(m.step_set(afd@.states[s], afd@.transitions[s][k].0), c)
                                    && afd@.states[afd@.transitions[s][k].1 as int] == m.union_tags(c));
                            } else {
                                assert(afd@.transitions[s][k] == d2.transitions[s][k]);
                                assert(m.subset_edge(d2, s, k));
                                let cc = choose|cc: Set<usize>|
                                    m.is_closure_of(m.step_set(d2.states[s], d2.transitions[s][k].0), cc)
                                        && d2.states[d2.transitions[s][k].1 as int] == #[trigger] m.union_tags(cc);
                            }
                        }
                        assert forall|s: int, b: int|
                            0 <= s < afd@.states.len() && 0 <= b < m.alphabet.len() && !pending@.contains(s as usize)
                                && (s != cur || b < a + 1) implies #[trigger] m.expanded(afd@, s, m.alphabet[b]) by {
                            if s == cur && b == a {
                                if ts.contains((sym, idx)) {
                                    let k = choose|k: int| 0 <= k < ts.len() && ts[k] == (sym, idx);
                                    assert(afd@.transitions[s][k].0 == sym);
                                } else {
                                    assert(afd@.transitions[s][ts.len() as int].0 == sym);
                                }
                            } else {
                                assert(m.expanded(d2, s, m.alphabet[b]));
                                if m.step_set(d2.states[s], m.alphabet[b]) != Set::<usize>::empty() {
                                    let k = choose|k: int| 0 <= k < d2.transitions[s].len() && #[trigger] d2.transitions[s][k].0 == m.alphabet[b];
                                    if s == cur {
                                        assert(afd@.transitions[s][k] == ts[k]);
                                    }
                                    assert(afd@.transitions[s][k].0 == m.alphabet[b]);
                                }
                            }
                        }
                        assert forall|k: int| 0 <= k < afd@.transitions[cur as int].len() implies
                            m.alphabet.subrange(0, a + 1).contains(#[trigger] afd@.transitions[cur as int][k].0) by {
                            if k < ts.len() {
                                assert(afd@.transitions[cur as int][k] == ts[k]);
                                let w = choose|w: int| 0 <= w < a && m.alphabet.subrange(0, a as int)[w] == ts[k].0;
                                assert(m.alphabet.subrange(0, a + 1)[w] == ts[k].0);
                            } else {
                                assert(afd@.transitions[cur as int][k].0 == sym);
                                assert(m.alphabet.subrange(0, a + 1)[a as int] == sym);
                            }
                        }
                        assert forall|s: int, k: int|
                            0 <= s < afd@.transitions.len() && 0 <= k < afd@.transitions[s].len()
                                implies m.alphabet.contains(#[trigger] afd@.transitions[s][k].0) by {
                            if s == cur && k >= ts.len() {
                                assert(m.alphabet[a as int] == sym);
                            } else {
                                assert(afd@.transitions[s][k] == d2.transitions[s][k]);
                            }
                        }
                        if m.alphabet.no_duplicates() {
                            assert forall|s: int, j: int, k: int|
                                0 <= s < afd@.transitions.len() && 0 <= j < k < afd@.transitions[s].len()
                                    implies #[trigger] afd@.transitions[s][j].0 != #[trigger] afd@.transitions[s][k].0 by {
                                if s == cur && k >= ts.len() {
                                    assert(afd@.transitions[s][j] == ts[j]);
                                    let w = choose|w: int| 0 <= w < a && m.alphabet.subrange(0, a as int)[w] == ts[j].0;
                                    assert(m.alphabet[w] != m.alphabet[a as int]);
                                } else {
                                    assert(afd@.transitions[s][k] == d2.transitions[s][k]);
                                    assert(afd@.transitions[s][j] == d2.transitions[s][j]);
                                }
                            }
                        }
                        assert forall|j: int| 0 <= j < pending@.len() implies afd@.transitions[#[trigger] pending@[j] as int].len() == 0 by {
                            assert(pending@[j] != cur);
                        }
                    }
                } else {
                    proof {
                        assert(next@.to_set() =~= Set::<usize>::empty());
                        assert(m.expanded(afd@, cur as int, sym));
                        assert forall|k: int| 0 <= k < afd@.transitions[cur as int].len() implies
                            m.alphabet.subrange(0, a + 1).contains(#[trigger] afd@.transitions[cur as int][k].0) by {
                            let w = choose|w: int| 0 <= w < a && m.alphabet.subrange(0, a as int)[w] == afd@.transitions[cur as int][k].0;
                            assert(m.alphabet.subrange(0, a + 1)[w] == afd@.transitions[cur as int][k].0);
                        }
                    }
                }
                a += 1;
            }
        }
        proof {
            assert(m.is_closure_of(set![m.entry_state], start@.to_set()) && afd@.states[0] == m.union_tags(start@.to_set()));
        }
        if afd.is_deterministic() {
            return afd;
        }
        let ghost before_dead = afd@;
        let never = State::from_tag("!");
        proof {
            reveal_strlit("!");
            assert("!"@ =~= seq!['!']);
            assert(never@ =~= set![seq!['!']]);
        }
        afd.push_state(never);
        let dead = afd.len() - 1;
        let ghost dd = afd@;
        proof {
            assert(afd@.transitions == before_dead.transitions.push(Seq::empty()));
            assert(afd@.states == before_dead.states.push(set![seq!['!']]));
            assert forall|q: int, k: int|
                0 <= q < afd@.transitions.len() && 0 <= k < afd@.transitions[q].len()
                    implies #[trigger] m.subset_edge(afd@, q, k) by {
                assert(q < before_dead.transitions.len());
                assert(m.subset_edge(before_dead, q, k));
                assert(afd@.transitions[q] == before_dead.transitions[q]);
                let j = before_dead.transitions[q][k].1 as int;
                assert(afd@.states[j] == before_dead.states[j]);
                assert(afd@.states[q] == before_dead.states[q]);
                let c = choose|c: Set<usize>|
                    m.is_closure_of(m.step_set(before_dead.states[q], before_dead.transitions[q][k].0), c)
                        && before_dead.states[before_dead.transitions[q][k].1 as int] == #[trigger] m.union_tags(c);
            }
            assert forall|i: int| 0 < i < dead implies #[trigger] entered_from_before(afd@, i) by {
                assert(entered_from_before(before_dead, i));
                let (s, k) = choose|s: int, k: int|
                    0 <= s < i && 0 <= k < before_dead.transitions[s].len() && #[trigger] before_dead.transitions[s][k].1 == i as usize;
                assert(afd@.transitions[s] == before_dead.transitions[s]);
                assert(afd@.transitions[s][k].1 == i as usize);
            }
            assert forall|q: int, b: int|
                0 <= q < dead && 0 <= b < m.alphabet.len() implies #[trigger] m.expanded(afd@, q, m.alphabet[b]) by {
                assert(m.expanded(before_dead, q, m.alphabet[b]));
                assert(afd@.transitions[q] == before_dead.transitions[q]);
                assert(afd@.states[q] == before_dead.states[q]);
            }
            assert forall|s: int, k: int|
                0 <= s < afd@.transitions.len() && 0 <= k < afd@.transitions[s].len()
                    implies m.alphabet.contains(#[trigger] afd@.transitions[s][k].0) by {
                assert(s < before_dead.transitions.len());
                assert(afd@.transitions[s] == before_dead.transitions[s]);
            }
            if m.alphabet.no_duplicates() {
                assert forall|s: int, j: int, k: int|
                    0 <= s < afd@.transitions.len() && 0 <= j < k < afd@.transitions[s].len()
                        implies #[trigger] afd@.transitions[s][j].0 != #[trigger] afd@.transitions[s][k].0 by {
                    assert(s < before_dead.transitions.len());
                    assert(afd@.transitions[s] == before_dead.transitions[s]);
                }
            }
        }
        let ghost mut added = false;
        let mut s: usize = 0;
        while s < afd.transitions.len()
            invariant
                m == self@,
                !before_dead.is_det(),
                before_dead.transitions.len() == dead as int,
                before_dead.alphabet == m.alphabet,
                added ==> entered_from_before(afd@, dead as int),
                forall|p: int| s <= p < dead ==> #[trigger] afd@.transitions[p] == before_dead.transitions[p],
                !added ==> forall|p: int| 0 <= p < s && p < dead ==> #[trigger] afd@.transitions[p] == before_dead.transitions[p],
                afd@.wf(),
                afd@.alphabet == m.alphabet,
                afd@.states == dd.states,
                afd@.accept_states == dd.accept_states,
                forall|k: int| 0 <= k < afd@.transitions[dead as int].len() ==> #[trigger] afd@.transitions[dead as int][k].1 == dead,
                afd@.entry_state == dd.entry_state,
                (dead as int) == dd.states.len() - 1,
                s <= afd@.transitions.len(),
                forall|i: int| 0 < i < dead ==> #[trigger] entered_from_before(afd@, i),

                forall|q: int, k: int|
                    0 <= q < afd@.transitions.len() && 0 <= k < afd@.transitions[q].len() ==> {
                        ||| #[trigger] m.subset_edge(afd@, q, k)
                        ||| m.step_set(afd@.states[q], afd@.transitions[q][k].0) == Set::<usize>::empty()
                            && afd@.transitions[q][k].1 == dead
                        ||| q == dead
                    },
                forall|q: int, b: int|
                    0 <= q < dead && 0 <= b < m.alphabet.len() ==> #[trigger] m.expanded(afd@, q, m.alphabet[b]),

                forall|s: int, k: int|
                    0 <= s < afd@.transitions.len() && 0 <= k < afd@.transitions[s].len()
                        ==> m.alphabet.contains(#[trigger] afd@.transitions[s][k].0),
                m.alphabet.no_duplicates() ==> forall|s: int, j: int, k: int|
                    0 <= s < afd@.transitions.len() && 0 <= j < k < afd@.transitions[s].len()
                        ==> #[trigger] afd@.transitions[s][j].0 != #[trigger] afd@.transitions[s][k].0,
                m.alphabet.no_duplicates() ==> forall|p: int|
                    0 <= p < s ==> #[trigger] afd@.transitions[p].len() == m.alphabet.len(),
            decreases afd@.transitions.len() - s,
        {
            if afd.transitions[s].len() != self.alphabet.len() {
                let mut a: usize = 0;
                while a < self.alphabet.len()
                    invariant
                        m == self@,
                        added ==> entered_from_before(afd@, dead as int),
                        forall|p: int| s < p < dead ==> #[trigger] afd@.transitions[p] == before_dead.transitions[p],
                        !added ==> forall|p: int| 0 <= p <= s && p < dead ==> #[trigger] afd@.transitions[p] == before_dead.transitions[p],
                        afd@.wf(),
                        afd@.alphabet == m.alphabet,
                        afd@.states == dd.states,
                        afd@.accept_states == dd.accept_states,
                forall|k: int| 0 <= k < afd@.transitions[dead as int].len() ==> #[trigger] afd@.transitions[dead as int][k].1 == dead,
                        afd@.entry_state == dd.entry_state,
                        (dead as int) == dd.states.len() - 1,
                        (s as int) < afd@.transitions.len(),
                        forall|i: int| 0 < i < dead ==> #[trigger] entered_from_before(afd@, i),

        forall|q: int, k: int|
                            0 <= q < afd@.transitions.len() && 0 <= k < afd@.transitions[q].len() ==> {
                                ||| #[trigger] m.subset_edge(afd@, q, k)
                                ||| m.step_set(afd@.states[q], afd@.transitions[q][k].0) == Set::<usize>::empty()
                                    && afd@.transitions[q][k].1 == dead
                                ||| q == dead
                            },
                        forall|q: int, b: int|
                            0 <= q < dead && 0 <= b < m.alphabet.len() ==> #[trigger] m.expanded(afd@, q, m.alphabet[b]),

                        a <= m.alphabet.len(),
                        forall|s: int, k: int|
                            0 <= s < afd@.transitions.len() && 0 <= k < afd@.transitions[s].len()
                                ==> m.alphabet.contains(#[trigger] afd@.transitions[s][k].0),
                        m.alphabet.no_duplicates() ==> forall|s: int, j: int, k: int|
                            0 <= s < afd@.transitions.len() && 0 <= j < k < afd@.transitions[s].len()
                                ==> #[trigger] afd@.transitions[s][j].0 != #[trigger] afd@.transitions[s][k].0,
                        m.alphabet.no_duplicates() ==> forall|p: int|
                            0 <= p < s ==> #[trigger] afd@.transitions[p].len() == m.alphabet.len(),
                        forall|b: int| #![trigger m.alphabet[b]] 0 <= b < a ==> exists|k: int|
                            0 <= k < afd@.transitions[s as int].len() && #[trigger] afd@.transitions[s as int][k].0 == m.alphabet[b],
                    decreases m.alphabet.len() - a,
                {
                    let ghost d3 = afd@;
                    assert(self.alphabet@[a as int]@ == m.alphabet[a as int]);
                    assert forall|k: int| 0 <= k < afd.transitions@[s as int]@.len() implies
                        (#[trigger] afd.transitions@[s as int]@[k])@ == d3.transitions[s as int][k] by {}
                    if !has_label(&afd.transitions[s], &self.alphabet[a]) {
                        let edge = Transition::new(self.alphabet[a].as_str(), dead);
                        afd.transitions[s].push(edge);
                        proof {
                            let ts = d3.transitions[s as int];
                            assert(afd@.transitions[s as int] =~= ts.push((m.alphabet[a as int], dead)));
                            assert(afd@.transitions =~= d3.transitions.update(s as int, ts.push((m.alphabet[a as int], dead))));
                            if added {
                                assert(entered_from_before(d3, dead as int));
                                let (q, k) = choose|q: int, k: int|
                                    0 <= q < dead && 0 <= k < d3.transitions[q].len() && #[trigger] d3.transitions[q][k].1 == dead;
                                if q == s {
                                    assert(afd@.transitions[q][k] == ts[k]);
                                } else {
                                    assert(afd@.transitions[q] == d3.transitions[q]);
                                }
                                assert(afd@.transitions[q][k].1 == dead);
                            }
                            if (s as int) < dead {
                                assert(afd@.transitions[s as int][ts.len() as int].1 == dead);
                                assert(entered_from_before(afd@, dead as int));
                                added = true;
                            }
                            assert forall|p: int| s < p < dead implies #[trigger] afd@.transitions[p] == before_dead.transitions[p] by {
                                assert(afd@.transitions[p] == d3.transitions[p]);
                            }
                            if !added {
                                assert forall|p: int| 0 <= p <= s && p < dead implies #[trigger] afd@.transitions[p] == before_dead.transitions[p] by {
                                    assert(afd@.transitions[p] == d3.transitions[p]);
                                }
                            }
                            assert forall|k: int| 0 <= k < ts.len() implies ts[k].0 != m.alphabet[a as int] by {
                                assert(afd.transitions@[s as int]@.len() >= 0);
                            }
                            assert(!ts.contains((m.alphabet[a as int], dead)));
                            assert forall|q: int, k: int|
                                0 <= q < afd@.transitions.len() && 0 <= k < afd@.transitions[q].len()
                                    implies #[trigger] afd@.transitions[q][k].1 < afd@.states.len() by {
                                if q == s && k == ts.len() {
                                } else {
                                    assert(afd@.transitions[q][k] == d3.transitions[q][k]);
                                }
                            }
                            assert forall|q: int| 0 <= q < afd@.transitions.len() implies #[trigger] afd@.transitions[q].no_duplicates() by {
                                if q != s {
                                    assert(afd@.transitions[q] == d3.transitions[q]);
                                } else {
                                    assert(ts.no_duplicates());
                                    assert forall|i: int, j: int| 0 <= i < afd@.transitions[q].len() && 0 <= j < afd@.transitions[q].len() && i != j
                                        implies afd@.transitions[q][i] != afd@.transitions[q][j] by {
                                        if j == ts.len() {
                                            assert(afd@.transitions[q][i] == ts[i]);
                                        } else if i == ts.len() {
                                            assert(afd@.transitions[q][j] == ts[j]);
                                        } else {
                                            assert(afd@.transitions[q][i] == ts[i]);
                                            assert(afd@.transitions[q][j] == ts[j]);
                                        }
                                    }
                                }
                            }
                            assert forall|q: int, k: int|
                                0 <= q < afd@.transitions.len() && 0 <= k < afd@.transitions[q].len()
                                    implies m.alphabet.contains(#[trigger] afd@.transitions[q][k].0) by {
                                if q == s && k == ts.len() {
                                    assert(m.alphabet[a as int] == afd@.transitions[q][k].0);
                                } else {
                                    assert(afd@.transitions[q][k] == d3.transitions[q][k]);
                                }
                            }
                            if m.alphabet.no_duplicates() {
                                assert forall|q: int, j: int, k: int|
                                    0 <= q < afd@.transitions.len() && 0 <= j < k < afd@.transitions[q].len()
                                        implies #[trigger] afd@.transitions[q][j].0 != #[trigger] afd@.transitions[q][k].0 by {
                                    if q == s && k == ts.len() {
                                        assert(afd@.transitions[q][j] == ts[j]);
                                    } else {
                                        assert(afd@.transitions[q][k] == d3.transitions[q][k]);
                                        assert(afd@.transitions[q][j] == d3.transitions[q][j]);
                                    }
                                }
                                assert forall|p: int| 0 <= p < s implies #[trigger] afd@.transitions[p].len() == m.alphabet.len() by {
                                    assert(afd@.transitions[p] == d3.transitions[p]);
                                }
                            }
                            assert forall|q: int, k: int|
                                0 <= q < afd@.transitions.len() && 0 <= k < afd@.transitions[q].len() implies {
                                    ||| #[trigger] m.subset_edge(afd@, q, k)
                                    ||| m.step_set(afd@.states[q], afd@.transitions[q][k].0) == Set::<usize>::empty()
                                        && afd@.transitions[q][k].1 == dead
                                    ||| q == dead
                                } by {
                                if q == s && k == ts.len() {
                                    if q != dead {
                                        assert(m.expanded(d3, q, m.alphabet[a as int]));
                                        if m.step_set(d3.states[q], m.alphabet[a as int]) != Set::<usize>::empty() {
                                            let kk = choose|kk: int| 0 <= kk < d3.transitions[q].len() && #[trigger] d3.transitions[q][kk].0 == m.alphabet[a as int];
                                            assert(ts[kk].0 != m.alphabet[a as int]);
                                        }
                                    }
                                } else {
                                    assert(afd@.transitions[q][k] == d3.transitions[q][k]);
                                    if m.subset_edge(d3, q, k) {
                                        let c = choose|c: Set<usize>|
                                            m.is_closure_of(m.step_set(d3.states[q], d3.transitions[q][k].0), c)
                                                && d3.states[d3.transitions[q][k].1 as int] == #[trigger] m.union_tags(c);
                                        assert(m.subset_edge(afd@, q, k));
                                    }
                                }
                            }
                            assert forall|i: int| 0 < i < dead implies #[trigger] entered_from_before(afd@, i) by {
                                assert(entered_from_before(d3, i));
                                let (q, k) = choose|q: int, k: int|
                                    0 <= q < i && 0 <= k < d3.transitions[q].len() && #[trigger] d3.transitions[q][k].1 == i as usize;
                                if q == s {
                                    assert(afd@.transitions[q][k] == ts[k]);
                                } else {
                                    assert(afd@.transitions[q] == d3.transitions[q]);
                                }
                                assert(afd@.transitions[q][k].1 == i as usize);
                            }
                            assert forall|q: int, b: int|
                                0 <= q < dead && 0 <= b < m.alphabet.len() implies #[trigger] m.expanded(afd@, q, m.alphabet[b]) by {
                                assert(m.expanded(d3, q, m.alphabet[b]));
                                if m.step_set(d3.states[q], m.alphabet[b]) != Set::<usize>::empty() {
                                    let kk = choose|kk: int| 0 <= kk < d3.transitions[q].len() && #[trigger] d3.transitions[q][kk].0 == m.alphabet[b];
                                    assert(afd@.transitions[q][kk] == d3.transitions[q][kk]);
                                }
                            }
                            assert forall|b: int| #![trigger m.alphabet[b]] 0 <= b < a + 1 implies exists|k: int|
                                0 <= k < afd@.transitions[s as int].len() && #[trigger] afd@.transitions[s as int][k].0 == m.alphabet[b] by {
                                if b < a {
                                    let k = choose|k: int| 0 <= k < ts.len() && #[trigger] d3.transitions[s as int][k].0 == m.alphabet[b];
                                    assert(afd@.transitions[s as int][k] == ts[k]);
                                } else {
                                    assert(afd@.transitions[s as int][ts.len() as int].0 == m.alphabet[b]);
                                }
                            }
                        }
                    } else {
                        proof {
                            let k = choose|k: int| 0 <= k < afd.transitions@[s as int]@.len() && (#[trigger] afd.transitions@[s as int]@[k])@.0 == m.alphabet[a as int];
                            assert(afd@.transitions[s as int][k].0 == m.alphabet[a as int]);
                        }
                    }
                    a += 1;
                }
                proof {
                    if m.alphabet.no_duplicates() {
                        let ts = afd@.transitions[s as int];
                        let sy = ts.map_values(|t: (Seq<char>, usize)| t.0);
                        assert(sy.no_duplicates()) by {
                            assert forall|i: int, j: int| 0 <= i < sy.len() && 0 <= j < sy.len() && i != j implies sy[i] != sy[j] by {
                                if i < j {
                                    assert(ts[i].0 != ts[j].0);
                                } else {
                                    assert(ts[j].0 != ts[i].0);
                                }
                            }
                        }
                        assert(sy.to_set() =~= m.alphabet.to_set()) by {
                            assert forall|x: Seq<char>| sy.to_set().contains(x) implies m.alphabet.to_set().contains(x) by {
                                let i = choose|i: int| 0 <= i < sy.len() && sy[i] == x;
                                assert(m.alphabet.contains(afd@.transitions[s as int][i].0));
                            }
                            assert forall|x: Seq<char>| m.alphabet.to_set().contains(x) implies sy.to_set().contains(x) by {
                                let b = choose|b: int| 0 <= b < m.alphabet.len() && m.alphabet[b] == x;
                                let k = choose|k: int| 0 <= k < afd@.transitions[s as int].len() && #[trigger] afd@.transitions[s as int][k].0 == m.alphabet[b];
                                assert(sy[k] == x);
                            }
                        }
                        sy.unique_seq_to_set();
                        m.alphabet.unique_seq_to_set();
                    }
                }
            }
            s += 1;
        }
        proof {
            if m.alphabet.no_duplicates() && !added {
                assert(before_dead.is_det()) by {
                    assert forall|p: int| 0 <= p < before_dead.transitions.len() implies
                        #[trigger] before_dead.transitions[p].len() == before_dead.alphabet.len() by {
                        assert(afd@.transitions[p] == before_dead.transitions[p]);
                        assert(afd@.transitions[p].len() == m.alphabet.len());
                    }
                    assert forall|p: int, j: int, k: int| 0 <= p < before_dead.transitions.len() && 0 <= j < k < before_dead.transitions[p].len()
                        implies #[trigger] before_dead.transitions[p][j].0 != #[trigger] before_dead.transitions[p][k].0 by {
                        assert(afd@.transitions[p] == before_dead.transitions[p]);
                        assert(afd@.transitions[p][j].0 != afd@.transitions[p][k].0);
                    }
                    assert forall|p: int, k: int| 0 <= p < before_dead.transitions.len() && 0 <= k < before_dead.transitions[p].len()
                        implies before_dead.alphabet.contains(#[trigger] before_dead.transitions[p][k].0) by {
                        assert(afd@.transitions[p] == before_dead.transitions[p]);
                        assert(m.alphabet.contains(afd@.transitions[p][k].0));
                    }
                }
            }
            assert(afd@.states == before_dead.states.push(set![seq!['!']]));
            assert(afd@.accept_states == before_dead.accept_states);
            assert(!afd@.accept_states.contains(dead)) by {
                if afd@.accept_states.contains(dead) {
                    let w = choose|w: int| 0 <= w < before_dead.accept_states.len() && before_dead.accept_states[w] == dead;
                }
            }
            assert(is_dead_slot(afd@, dead as int));
            assert forall|i: int| 0 <= i < afd@.states.len() implies (#[trigger] afd@.states[i]).subset_of(m.all_tags())
                || is_dead_slot(afd@, i) by {
                if i < before_dead.states.len() {
                    assert(afd@.states[i] == before_dead.states[i]);
                }
            }
            assert forall|i: int| 0 <= i < afd@.states.len() implies (afd@.accept_states.contains(i as usize)
                == m.touches_accepting(#[trigger] afd@.states[i])) || is_dead_slot(afd@, i) by {
                if i < before_dead.states.len() {
                    assert(afd@.states[i] == before_dead.states[i]);
                }
            }
            assert forall|i: int, j: int| 0 <= i < j < afd@.states.len() implies afd@.states[i] != afd@.states[j]
                || is_dead_slot(afd@, j) by {
                if j < before_dead.states.len() {
                    assert(afd@.states[i] == before_dead.states[i]);
                    assert(afd@.states[j] == before_dead.states[j]);
                }
            }
            assert(afd@.states[0] == before_dead.states[0]);
            assert forall|q: int, k: int|
                0 <= q < afd@.transitions.len() && 0 <= k < afd@.transitions[q].len() implies {
                    ||| #[trigger] m.subset_edge(afd@, q, k)
                    ||| m.step_set(afd@.states[q], afd@.transitions[q][k].0) == Set::<usize>::empty()
                        && is_dead_slot(afd@, afd@.transitions[q][k].1 as int)
                    ||| is_dead_slot(afd@, q)
                } by {}
        }
        afd
    }

    /// The states reachable from the designated seeds through epsilon edges,
    /// the seeds included. The seeds come first, in their order; each other
    /// state follows once, in the order the stack walk `eps_walk` finds it.
    pub fn e_closure_set<I: AutomataIndex>(&self, input: &[I]) -> (r: Vec<usize>)
        requires
            self@.wf(),
            forall|i: int| 0 <= i < input@.len() ==> (#[trigger] input@[i]).refers_in(self@),
        ensures
            input@.len() <= r@.len(),
            forall|i: int| 0 <= i < input@.len() ==> r@[i] == (#[trigger] input@[i]).spec_index(self@),
            forall|i: int| 0 <= i < r@.len() ==> (#[trigger] r@[i] as int) < self@.states.len(),
            forall|i: int, j: int| 0 <= i < j < r@.len() && input@.len() <= j ==> r@[i] != r@[j],
            self@.is_closure_of(r@.subrange(0, input@.len() as int).to_set(), r@.to_set()),
            r@ == self@.eps_walk(
                r@.subrange(0, input@.len() as int),
                r@.subrange(0, input@.len() as int),
                (input@.len() + self@.states.len()) as nat,
            ),
    {
        let ghost m = self@;
        let ghost n = input@.len() as int;
        let ghost bound = m.states.len() as int;
        let mut stack: Vec<usize> = Vec::new();
        let mut closure: Vec<usize> = Vec::new();
        let mut i: usize = 0;
        while i < input.len()
            invariant
                m == self@,
                m.wf(),
                bound == m.states.len(),
                n == input@.len(),
                forall|i: int| 0 <= i < input@.len() ==> (#[trigger] input@[i]).refers_in(m),
                i <= input@.len(),
                stack@ == closure@,
                closure@.len() == i,
                forall|j: int| 0 <= j < i ==> closure@[j] == (#[trigger] input@[j]).spec_index(m),
                forall|j: int| 0 <= j < closure@.len() ==> (#[trigger] closure@[j] as int) < bound,
            decreases input@.len() - i,
        {
            let q = input[i].index(self);
            let ghost before = closure@;
            stack.push(q);
            closure.push(q);
            assert forall|j: int| 0 <= j < closure@.len() implies (#[trigger] closure@[j] as int) < bound by {
                if j < before.len() {
                    assert(before[j] == closure@[j]);
                }
            }
            assert forall|j: int| 0 <= j < closure@.len() implies closure@[j] == (#[trigger] input@[j]).spec_index(m) by {
                if j < before.len() {
                    assert(before[j] == closure@[j]);
                }
            }
            i += 1;
        }
        let ghost seeds = closure@;
        let ghost seed_set = seeds.to_set();
        assert(closure@.subrange(0, n) =~= seeds);
        while stack.len() > 0
            invariant
                m == self@,
                m.wf(),
                bound == m.states.len(),
                n == input@.len(),
                n <= closure@.len(),
                closure@.subrange(0, n) == seeds,
                seed_set == seeds.to_set(),
                forall|j: int| 0 <= j < closure@.len() ==> (#[trigger] closure@[j] as int) < bound,
                forall|i: int, j: int| 0 <= i < j < closure@.len() && n <= j ==> closure@[i] != closure@[j],
                forall|j: int| 0 <= j < stack@.len() ==> closure@.contains(#[trigger] stack@[j]),
                forall|j: int| 0 <= j < stack@.len() ==> (#[trigger] stack@[j] as int) < bound,
                forall|q: usize|
                    closure@.contains(q) && !stack@.contains(q) ==> #[trigger] m.eps_succs_in(q, closure@.to_set()),
                forall|d: Set<usize>|
                    seed_set.subset_of(d) && #[trigger] m.eps_closed(d) ==> closure@.to_set().subset_of(d),
                closure@.len() - n <= bound,
                m.eps_walk(stack@, closure@, (n + bound - closure@.len() + stack@.len()) as nat)
                    == m.eps_walk(seeds, seeds, (n + bound) as nat),
            decreases bound - (closure@.len() - n), stack@.len(),
        {
            let ghost old_stack = stack@;
            let q = stack.pop().unwrap();
            assert(old_stack == stack@.push(q));
            assert(closure@.contains(q) && (q as int) < bound) by {
                assert(old_stack[old_stack.len() - 1] == q);
            }
            let ghost after_pop = stack@;
            let ghost closure0 = closure@;
            let ts = &self.transitions[q];
            let ghost mts = m.transitions[q as int];
            let mut k: usize = 0;
            while k < ts.len()
                invariant
                    m == self@,
                    m.wf(),
                    bound == m.states.len(),
                    n == input@.len(),
                    (q as int) < bound,
                    mts == m.transitions[q as int],
                    ts@.len() == mts.len(),
                    forall|c: int| 0 <= c < ts@.len() ==> #[trigger] ts@[c]@ == mts[c],
                    k <= mts.len(),
                    n <= closure0.len() <= closure@.len(),
                    closure@.subrange(0, closure0.len() as int) == closure0,
                    closure0.subrange(0, n) == seeds,
                    closure0.contains(q),
                    seed_set == seeds.to_set(),
                    old_stack == after_pop.push(q),
                    closure0.len() - n <= bound,
                    m.eps_walk(old_stack, closure0, (n + bound - closure0.len() + old_stack.len()) as nat)
                        == m.eps_walk(seeds, seeds, (n + bound) as nat),
                    (stack@, closure@) == m.scan_edges(mts.take(k as int), after_pop, closure0),
                    stack@.subrange(0, after_pop.len() as int) == after_pop,
                    stack@.len() - after_pop.len() == closure@.len() - closure0.len(),
                    forall|j: int|
                        closure0.len() <= j < closure@.len() ==> stack@[after_pop.len() + j - closure0.len()]
                            == #[trigger] closure@[j],
                    forall|j: int| 0 <= j < closure@.len() ==> (#[trigger] closure@[j] as int) < bound,
                    forall|i: int, j: int| 0 <= i < j < closure@.len() && n <= j ==> closure@[i] != closure@[j],
                    forall|j: int| 0 <= j < stack@.len() ==> closure@.contains(#[trigger] stack@[j]),
                    forall|j: int| 0 <= j < stack@.len() ==> (#[trigger] stack@[j] as int) < bound,
                    forall|x: usize|
                        closure0.contains(x) && !old_stack.contains(x) ==> #[trigger] m.eps_succs_in(x, closure0.to_set()),
                    forall|c: int|
                        0 <= c < k && #[trigger] mts[c].0.len() == 0 ==> closure@.contains(mts[c].1),
                    forall|d: Set<usize>|
                        seed_set.subset_of(d) && #[trigger] m.eps_closed(d) ==> closure@.to_set().subset_of(d),
                decreases mts.len() - k,
            {
                let t = &ts[k];
                assert(t@ == mts[k as int]);
                assert(mts.take(k + 1).drop_last() =~= mts.take(k as int));
                assert(mts.take(k + 1).last() == mts[k as int]);
                if t.is_epsilon() {
                    let e = t.end_state();
                    if !holds_index(&closure, e) {
                        let ghost before = closure@;
                        stack.push(e);
                        closure.push(e);
                        assert(closure@.subrange(0, closure0.len() as int) =~= closure0) by {
                            assert(before.subrange(0, closure0.len() as int) == closure0);
                        }
                        assert forall|j: int| 0 <= j < n implies closure@[j] == closure0[j] by {
                            assert(before.subrange(0, closure0.len() as int)[j] == closure0[j]);
                        }
                        assert(closure@.subrange(0, n) =~= closure0.subrange(0, n));
                        assert forall|x: usize| before.contains(x) implies closure@.contains(x) by {
                            let w = choose|w: int| 0 <= w < before.len() && before[w] == x;
                            assert(closure@[w] == x);
                        }
                        assert(closure@[closure@.len() - 1] == e);
                        assert forall|d: Set<usize>|
                            seed_set.subset_of(d) && #[trigger] m.eps_closed(d) implies closure@.to_set().subset_of(d) by {
                            assert(before.to_set().subset_of(d));
                            assert(d.contains(q));
                            assert(m.transitions[q as int][k as int].0.len() == 0);
                            assert(d.contains(e));
                            assert forall|x: usize| closure@.to_set().contains(x) implies d.contains(x) by {
                                let w = choose|w: int| 0 <= w < closure@.len() && closure@[w] == x;
                                if w < before.len() {
                                    assert(before[w] == x);
                                }
                            }
                        }
                        assert forall|j: int| 0 <= j < stack@.len() implies closure@.contains(#[trigger] stack@[j]) by {
                            if j < stack@.len() - 1 {
                                assert(before.contains(stack@[j]));
                            }
                        }
                        assert forall|j: int| 0 <= j < closure@.len() implies (#[trigger] closure@[j] as int) < bound by {
                            if j < before.len() {
                                assert(before[j] == closure@[j]);
                            }
                        }
                        assert(stack@.subrange(0, after_pop.len() as int) =~= after_pop);
                        assert forall|j: int| closure0.len() <= j < closure@.len() implies
                            stack@[after_pop.len() + j - closure0.len()] == #[trigger] closure@[j] by {
                            if j < closure@.len() - 1 {
                                assert(before[j] == closure@[j]);
                            }
                        }
                        proof {
                            lemma_distinct_below(closure@.subrange(n, closure@.len() as int), bound);
                        }
                    }
                }
                k += 1;
            }
            proof {
                let c = closure@;
                assert(mts.take(mts.len() as int) =~= mts);
                assert(old_stack.last() == q);
                assert(old_stack.drop_last() =~= after_pop);
                assert(m.eps_walk(old_stack, closure0, (n + bound - closure0.len() + old_stack.len()) as nat)
                    == m.eps_walk(stack@, c, (n + bound - closure0.len() + old_stack.len() - 1) as nat));
                assert forall|x: usize| closure0.contains(x) implies c.contains(x) by {
                    let w = choose|w: int| 0 <= w < closure0.len() && closure0[w] == x;
                    assert(c.subrange(0, closure0.len() as int)[w] == x);
                }
                assert forall|x: usize| c.contains(x) && !stack@.contains(x) implies #[trigger] m.eps_succs_in(x, c.to_set()) by {
                    if x == q {
                        assert forall|kk: int|
                            0 <= kk < m.transitions[x as int].len() && #[trigger] m.transitions[x as int][kk].0.len() == 0
                            implies c.to_set().contains(m.transitions[x as int][kk].1) by {
                            assert(mts[kk].0.len() == 0);
                        }
                    } else {
                        let w = choose|w: int| 0 <= w < c.len() && c[w] == x;
                        if w >= closure0.len() {
                            let sj = after_pop.len() + (w - closure0.len());
                            assert(stack@[sj] == x);
                        } else {
                            assert(closure0[w] == x);
                            assert(closure0.contains(x));
                            if old_stack.contains(x) {
                                let sj = choose|sj: int| 0 <= sj < old_stack.len() && old_stack[sj] == x;
                                assert(sj < after_pop.len());
                                assert(after_pop[sj] == x);
                                assert(stack@.subrange(0, after_pop.len() as int)[sj] == x);
                                assert(stack@[sj] == x);
                            }
                            assert(m.eps_succs_in(x, closure0.to_set()));
                            assert forall|kk: int|
                                0 <= kk < m.transitions[x as int].len() && #[trigger] m.transitions[x as int][kk].0.len() == 0
                                implies c.to_set().contains(m.transitions[x as int][kk].1) by {
                                assert(closure0.to_set().contains(m.transitions[x as int][kk].1));
                            }
                        }
                    }
                }
                lemma_distinct_below(c.subrange(n, c.len() as int), bound);
            }
        }
        proof {
            let c = closure@;
            assert(m.eps_walk(stack@, c, (n + bound - c.len() + stack@.len()) as nat) == c);
            assert(c.subrange(0, n) == seeds);
            assert forall|q: usize, k: int|
                c.to_set().contains(q) && (q as int) < m.transitions.len() && 0 <= k < m.transitions[q as int].len()
                    && #[trigger] m.transitions[q as int][k].0.len() == 0
                implies c.to_set().contains(m.transitions[q as int][k].1) by {
                assert(m.eps_succs_in(q, c.to_set()));
            }
            assert(seed_set.subset_of(c.to_set())) by {
                assert forall|x: usize| seed_set.contains(x) implies c.to_set().contains(x) by {
                    let w = choose|w: int| 0 <= w < seeds.len() && seeds[w] == x;
                    assert(c.subrange(0, n)[w] == x);
                }
            }
        }
        closure
    }
}

} // verus!
