// What determinizing does to an automaton that is already deterministic.
use vstd::prelude::*;
use super::{entered_from_before, is_dead_slot, lemma_targets_on, targets_on, AutomataModel};

verus! {

/// The state `first_with` picks exists once some state carries the tags.
proof fn lemma_first_with(m: AutomataModel, v: Set<Seq<char>>, i: int)
    requires
        0 <= i < m.states.len(),
        m.states.len() <= usize::MAX,
        m.states[i] == v,
    ensures
        (m.first_with(v) as int) < m.states.len(),
        m.states[m.first_with(v) as int] == v,
    decreases i,
{
    if exists|j: int| 0 <= j < i && m.states[j] == v {
        let j = choose|j: int| 0 <= j < i && m.states[j] == v;
        lemma_first_with(m, v, j);
    } else {
        let w = i as usize;
        assert((w as int) < m.states.len() && m.states[w as int] == v && forall|j: int| 0 <= j < w ==> m.states[j] != v);
    }
}

/// Facts about an automaton with no epsilon edge, every state carrying one
/// tag, and exactly one edge per symbol from each state.
proof fn lemma_plain_step(a: AutomataModel, q: int, symbol: Seq<char>)
    requires
        a.wf(),
        a.states.len() <= usize::MAX,
        a.is_det(),
        !a.alphabet.contains(Seq::<char>::empty()),
        a.labels_in_alphabet(),
        a.is_total(),
        a.one_tag_each(),
        0 <= q < a.states.len(),
        a.alphabet.contains(symbol),
    ensures
        exists|p: int, k: int|
            0 <= p < a.states.len() && 0 <= k < a.transitions[p].len() && a.states[p] == a.states[q]
                && a.transitions[p][k].0 == symbol
                && a.step_set(a.states[q], symbol) == set![a.transitions[p][k].1]
                && (#[trigger] a.transitions[p][k].1 as int) < a.states.len(),
{
    let t = a.states[q].choose();
    assert(a.states[q] == set![t]);
    lemma_first_with(a, set![t], q);
    let p = a.first_with(set![t]) as int;
    let b = choose|b: int| 0 <= b < a.alphabet.len() && a.alphabet[b] == symbol;
    assert(a.has_edge_on(p, a.alphabet[b]));
    let k = choose|k: int| 0 <= k < a.transitions[p].len() && #[trigger] a.transitions[p][k].0 == a.alphabet[b];
    let target = a.transitions[p][k].1;
    lemma_targets_on(a.transitions[p], symbol);
    assert(a.step_set(a.states[q], symbol) =~= set![target]) by {
        assert forall|x: usize| a.step_set(a.states[q], symbol).contains(x) implies x == target by {
            let u = choose|u: Seq<char>| a.states[q].contains(u)
                && #[trigger] targets_on(a.transitions[a.first_with(set![u]) as int], symbol).contains(x);
            assert(u == t);
            let k2 = choose|k2: int| 0 <= k2 < a.transitions[p].len() && a.transitions[p][k2] == (symbol, x);
            if k2 != k {
                if k2 < k {
                    assert(a.transitions[p][k2].0 != a.transitions[p][k].0);
                } else {
                    assert(a.transitions[p][k].0 != a.transitions[p][k2].0);
                }
            }
        }
        assert(a.states[q].contains(t));
        assert(a.transitions[p][k] == (symbol, target));
        assert(targets_on(a.transitions[a.first_with(set![t]) as int], symbol).contains(target));
    }
}

/// With no epsilon edge, a set of states is its own epsilon-closure.
proof fn lemma_plain_closure(a: AutomataModel, seeds: Set<usize>, c: Set<usize>)
    requires
        !a.alphabet.contains(Seq::<char>::empty()),
        a.labels_in_alphabet(),
        a.is_closure_of(seeds, c),
    ensures
        c == seeds,
{
    assert(a.eps_closed(seeds)) by {
        assert forall|q: usize, k: int|
            seeds.contains(q) && (q as int) < a.transitions.len() && 0 <= k < a.transitions[q as int].len()
                && #[trigger] a.transitions[q as int][k].0.len() == 0
            implies seeds.contains(a.transitions[q as int][k].1) by {
            assert(a.alphabet.contains(a.transitions[q as int][k].0));
            assert(a.transitions[q as int][k].0 =~= Seq::<char>::empty());
        }
    }
    assert(c =~= seeds);
}

proof fn lemma_union_one(a: AutomataModel, q: usize)
    requires
        (q as int) < a.states.len(),
    ensures
        a.union_tags(set![q]) == a.states[q as int],
{
    assert(a.union_tags(set![q]) =~= a.states[q as int]);
}

/// What `lemma_kept_state` needs of `d`, taken from `determinized_as`.
pub open spec fn built_from(a: AutomataModel, d: AutomataModel) -> bool {
    &&& exists|c: Set<usize>| a.is_closure_of(set![a.entry_state], c) && d.states[0] == a.union_tags(c)
    &&& forall|i: int| 0 < i < d.states.len() ==> #[trigger] entered_from_before(d, i)
    &&& forall|s: int, k: int|
        0 <= s < d.transitions.len() && 0 <= k < d.transitions[s].len()
            ==> a.alphabet.contains(#[trigger] d.transitions[s][k].0)
    &&& forall|s: int, k: int|
        0 <= s < d.transitions.len() && 0 <= k < d.transitions[s].len() ==> {
            ||| #[trigger] a.subset_edge(d, s, k)
            ||| a.step_set(d.states[s], d.transitions[s][k].0) == Set::<usize>::empty()
                && is_dead_slot(d, d.transitions[s][k].1 as int)
            ||| is_dead_slot(d, s)
        }
}

/// Edge `k` of state `s` of `d` copies an edge of a source state with the
/// tags of state `s`: same symbol, and a target with the same tags.
pub open spec fn copies_edge(a: AutomataModel, d: AutomataModel, s: int, k: int) -> bool {
    exists|p: int, k2: int|
        0 <= p < a.states.len() && 0 <= k2 < a.transitions[p].len() && a.states[p] == d.states[s]
            && a.transitions[p][k2].0 == d.transitions[s][k].0
            && #[trigger] a.states[a.transitions[p][k2].1 as int] == d.states[d.transitions[s][k].1 as int]
}

/// The source state that edge `k` of state `s` of `d` copies, when state `s`
/// carries the tags of source state `q`.
proof fn lemma_kept_edge(a: AutomataModel, d: AutomataModel, s: int, k: int, q: int)
    requires
        a.wf(),
        a.states.len() <= usize::MAX,
        a.is_det(),
        !a.alphabet.contains(Seq::<char>::empty()),
        a.labels_in_alphabet(),
        a.is_total(),
        a.one_tag_each(),
        d.wf(),
        built_from(a, d),
        0 <= s < d.transitions.len(),
        0 <= k < d.transitions[s].len(),
        !is_dead_slot(d, s),
        0 <= q < a.states.len(),
        a.states[q] == d.states[s],
    ensures
        copies_edge(a, d, s, k),
{
    let symbol = d.transitions[s][k].0;
    assert(a.alphabet.contains(symbol));
    lemma_plain_step(a, q, symbol);
    let (p, k2) = choose|p: int, k2: int|
        0 <= p < a.states.len() && 0 <= k2 < a.transitions[p].len() && a.states[p] == a.states[q]
            && a.transitions[p][k2].0 == symbol
            && a.step_set(a.states[q], symbol) == set![a.transitions[p][k2].1]
            && (#[trigger] a.transitions[p][k2].1 as int) < a.states.len();
    let target = a.transitions[p][k2].1;
    assert(set![target].contains(target));
    assert(a.subset_edge(d, s, k));
    let c = choose|c: Set<usize>|
        a.is_closure_of(a.step_set(d.states[s], d.transitions[s][k].0), c)
            && d.states[d.transitions[s][k].1 as int] == #[trigger] a.union_tags(c);
    lemma_plain_closure(a, set![target], c);
    lemma_union_one(a, target);
    assert(a.states[a.transitions[p][k2].1 as int] == d.states[d.transitions[s][k].1 as int]);
}

/// Each state of `d` that is not the added one carries the tags of a state
/// of `a`, when `a` is already deterministic and total.
proof fn lemma_kept_state(a: AutomataModel, d: AutomataModel, i: int)
    requires
        a.wf(),
        a.states.len() > 0,
        a.states.len() <= usize::MAX,
        a.is_det(),
        !a.alphabet.contains(Seq::<char>::empty()),
        a.labels_in_alphabet(),
        a.is_total(),
        a.one_tag_each(),
        d.wf(),
        d.states.len() <= usize::MAX,
        built_from(a, d),
        0 <= i < d.states.len(),
    ensures
        a.states.contains(d.states[i]),
    decreases i,
{
    if i == 0 {
        let c = choose|c: Set<usize>| a.is_closure_of(set![a.entry_state], c) && d.states[0] == a.union_tags(c);
        lemma_plain_closure(a, set![a.entry_state], c);
        lemma_union_one(a, a.entry_state);
        assert(a.states[a.entry_state as int] == d.states[0]);
    } else {
        assert(entered_from_before(d, i));
        let (s, k) = choose|s: int, k: int| 0 <= s < i && 0 <= k < d.transitions[s].len() && #[trigger] d.transitions[s][k].1 == i as usize;
        assert(!is_dead_slot(d, s));
        lemma_kept_state(a, d, s);
        let q = choose|q: int| 0 <= q < a.states.len() && a.states[q] == d.states[s];
        lemma_kept_edge(a, d, s, k, q);
        let (p, k2) = choose|p: int, k2: int|
            0 <= p < a.states.len() && 0 <= k2 < a.transitions[p].len() && a.states[p] == d.states[s]
                && a.transitions[p][k2].0 == d.transitions[s][k].0
                && #[trigger] a.states[a.transitions[p][k2].1 as int] == d.states[d.transitions[s][k].1 as int];
        assert((i as usize) as int == i);
        assert(a.states[a.transitions[p][k2].1 as int] == d.states[i]);
    }
}

/// Determinizing an automaton that is already deterministic and total, whose
/// states carry one tag each and that has no epsilon edge, keeps its shape:
/// state 0 carries the tags of the entry state, every state of the result
/// carries the tags of a source state (so no `!` state is added unless a
/// source state is tagged `!`), and every edge of a state that is not the
/// added one copies an edge of that source state, with the same symbol, to a
/// source state with the tags of the edge's target.
pub proof fn lemma_deterministic_input_kept(a: AutomataModel, d: AutomataModel)
    requires
        a.wf(),
        a.states.len() > 0,
        a.states.len() <= usize::MAX,
        a.is_det(),
        a.alphabet.no_duplicates(),
        !a.alphabet.contains(Seq::<char>::empty()),
        a.labels_in_alphabet(),
        a.is_total(),
        a.one_tag_each(),
        d.wf(),
        d.states.len() <= usize::MAX,
        a.determinized_as(d),
    ensures
        d.states[0] == a.states[a.entry_state as int],
        forall|i: int| 0 <= i < d.states.len() ==> a.states.contains(#[trigger] d.states[i]),
        !a.states.contains(set![seq!['!']]) ==> forall|i: int| 0 <= i < d.states.len() ==> !is_dead_slot(d, i),
        forall|i: int, k: int|
            0 <= i < d.transitions.len() && 0 <= k < d.transitions[i].len() && !is_dead_slot(d, i)
                ==> #[trigger] copies_edge(a, d, i, k),
{
    assert(built_from(a, d));
    let c = choose|c: Set<usize>| a.is_closure_of(set![a.entry_state], c) && d.states[0] == a.union_tags(c);
    lemma_plain_closure(a, set![a.entry_state], c);
    lemma_union_one(a, a.entry_state);
    assert forall|i: int| 0 <= i < d.states.len() implies a.states.contains(#[trigger] d.states[i]) by {
        lemma_kept_state(a, d, i);
    }
    assert forall|i: int, k: int|
        0 <= i < d.transitions.len() && 0 <= k < d.transitions[i].len() && !is_dead_slot(d, i)
            implies #[trigger] copies_edge(a, d, i, k) by {
        lemma_kept_state(a, d, i);
        let q = choose|q: int| 0 <= q < a.states.len() && a.states[q] == d.states[i];
        lemma_kept_edge(a, d, i, k, q);
    }
}

} // verus!
