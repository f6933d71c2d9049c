use vstd::prelude::*;
use vstd::string::StrSliceExecFns;

verus! {

/// `a` comes before `b` when their characters are compared in turn, as
/// strings compare.
pub open spec fn tag_lt(a: Seq<char>, b: Seq<char>) -> bool
    decreases a.len(),
{
    if a.len() == 0 {
        b.len() > 0
    } else if b.len() == 0 {
        false
    } else if a[0] != b[0] {
        (a[0] as int) < (b[0] as int)
    } else {
        tag_lt(a.drop_first(), b.drop_first())
    }
}

/// The tags are in increasing order, so none appears twice.
pub open spec fn tags_sorted(v: Seq<Seq<char>>) -> bool {
    forall|i: int, j: int| 0 <= i < j < v.len() ==> tag_lt(#[trigger] v[i], #[trigger] v[j])
}

proof fn lemma_tag_lt_total(a: Seq<char>, b: Seq<char>)
    ensures
        !tag_lt(a, a),
        a != b ==> tag_lt(a, b) || tag_lt(b, a),
        !(tag_lt(a, b) && tag_lt(b, a)),
    decreases a.len(),
{
    if a.len() > 0 && b.len() > 0 {
        lemma_tag_lt_total(a.drop_first(), b.drop_first());
        lemma_tag_lt_total(a.drop_first(), a.drop_first());
        if a[0] == b[0] && a != b {
            assert(a.drop_first() != b.drop_first()) by {
                if a.drop_first() == b.drop_first() {
                    assert forall|i: int| 0 <= i < a.len() implies a[i] == b[i] by {
                        if i > 0 {
                            assert(a[i] == a.drop_first()[i - 1]);
                            assert(b[i] == b.drop_first()[i - 1]);
                        }
                    }
                    assert(a =~= b);
                }
            }
        }
        if a[0] != b[0] {
            assert((a[0] as int) != (b[0] as int));
        }
    } else if a.len() > 0 {
        lemma_tag_lt_total(a.drop_first(), a.drop_first());
    } else {
        if b.len() == 0 {
            assert(a =~= b);
        }
    }
}

proof fn lemma_tag_lt_trans(a: Seq<char>, b: Seq<char>, c: Seq<char>)
    requires
        tag_lt(a, b),
        tag_lt(b, c),
    ensures
        tag_lt(a, c),
    decreases a.len(),
{
    if a.len() > 0 && b.len() > 0 && c.len() > 0 {
        if a[0] == b[0] && b[0] == c[0] {
            lemma_tag_lt_trans(a.drop_first(), b.drop_first(), c.drop_first());
        }
    }
}

/// Whether `a` comes before `b`.
fn tag_less(a: &String, b: &String) -> (r: bool)
    ensures
        r == tag_lt(a@, b@),
{
    let sa = a.as_str();
    let sb = b.as_str();
    let la = sa.unicode_len();
    let lb = sb.unicode_len();
    let mut i: usize = 0;
    assert(a@.skip(0) =~= a@ && b@.skip(0) =~= b@);
    while i < la && i < lb
        invariant
            sa@ == a@,
            sb@ == b@,
            la == a@.len(),
            lb == b@.len(),
            i <= la,
            i <= lb,
            tag_lt(a@, b@) == tag_lt(a@.skip(i as int), b@.skip(i as int)),
        decreases la - i,
    {
        let ca = sa.get_char(i);
        let cb = sb.get_char(i);
        assert(a@.skip(i as int)[0] == ca && b@.skip(i as int)[0] == cb);
        if ca != cb {
            return ca < cb;
        }
        assert(a@.skip(i as int).drop_first() =~= a@.skip(i + 1));
        assert(b@.skip(i as int).drop_first() =~= b@.skip(i + 1));
        i += 1;
    }
    assert(i == la ==> a@.skip(i as int).len() == 0);
    assert(i == lb ==> b@.skip(i as int).len() == 0);
    i < lb
}

/// Puts `t` into the sorted `tags` at its place, unless it is there.
fn insert_tag(tags: &mut Vec<String>, t: &String)
    requires
        tags_sorted(old(tags)@.map_values(|s: String| s@)),
    ensures
        tags_sorted(final(tags)@.map_values(|s: String| s@)),
        final(tags)@.map_values(|s: String| s@).to_set() == old(tags)@.map_values(|s: String| s@).to_set().insert(t@),
{
    let ghost v0 = tags@.map_values(|s: String| s@);
    let mut p: usize = 0;
    while p < tags.len() && tag_less(&tags[p], t)
        invariant
            tags@.map_values(|s: String| s@) == v0,
            p <= v0.len(),
            forall|j: int| 0 <= j < p ==> tag_lt(#[trigger] v0[j], t@),
        decreases v0.len() - p,
    {
        assert(v0[p as int] == tags@[p as int]@);
        p += 1;
    }
    if p < tags.len() {
        assert(v0[p as int] == tags@[p as int]@);
        if tags[p] == *t {
            assert(v0.to_set().insert(t@) =~= v0.to_set());
            return;
        }
    }
    proof {
        if (p as int) < v0.len() {
            lemma_tag_lt_total(v0[p as int], t@);
        }
    }
    tags.insert(p, t.clone());
    proof {
        let v = tags@.map_values(|s: String| s@);
        assert(v =~= v0.insert(p as int, t@));
        assert forall|i: int, j: int| 0 <= i < j < v.len() implies tag_lt(#[trigger] v[i], #[trigger] v[j]) by {
            if j < p {
            } else if j == p {
                assert(v[i] == v0[i]);
            } else if i == p {
                assert(v[j] == v0[j - 1]);
                if j - 1 > p {
                    lemma_tag_lt_trans(t@, v0[p as int], v0[j - 1]);
                }
            } else if i < p {
                assert(v[i] == v0[i] && v[j] == v0[j - 1]);
            } else {
                assert(v[i] == v0[i - 1] && v[j] == v0[j - 1]);
            }
        }
        assert(v.to_set() =~= v0.to_set().insert(t@)) by {
            assert forall|x: Seq<char>| v.to_set().contains(x) implies v0.to_set().insert(t@).contains(x) by {
                let w = choose|w: int| 0 <= w < v.len() && v[w] == x;
                if w < p {
                    assert(v0[w] == x);
                } else if w > p {
                    assert(v0[w - 1] == x);
                }
            }
            assert forall|x: Seq<char>| v0.to_set().insert(t@).contains(x) implies v.to_set().contains(x) by {
                if x == t@ {
                    assert(v[p as int] == x);
                } else {
                    let w = choose|w: int| 0 <= w < v0.len() && v0[w] == x;
                    if w < p {
                        assert(v[w] == x);
                    } else {
                        assert(v[w + 1] == x);
                    }
                }
            }
        }
    }
}

/// A state, identified by its set of tags. A state of a determinized automaton
/// carries the tags of every source state it stands for.
pub struct State {
    tags: Vec<String>,
}

impl View for State {
    type V = Set<Seq<char>>;

    open spec fn view(&self) -> Set<Seq<char>> {
        self.tag_seq().to_set()
    }
}

impl State {
    /// The tags in the order in which they are stored.
    pub closed spec fn tag_seq(&self) -> Seq<Seq<char>> {
        self.tags@.map_values(|t: String| t@)
    }

    pub fn new() -> (r: Self)
        ensures
            r.tag_seq() == Seq::<Seq<char>>::empty(),
            r@ == Set::<Seq<char>>::empty(),
            tags_sorted(r.tag_seq()),
    {
        let r = State { tags: Vec::new() };
        assert(r.tag_seq() =~= Seq::<Seq<char>>::empty());
        r
    }

    pub fn tags(&self) -> (r: &Vec<String>)
        ensures
            r@.map_values(|t: String| t@) == self.tag_seq(),
    {
        &self.tags
    }

    /// The state with the single tag `tag`.
    pub fn from_tag(tag: &str) -> (r: Self)
        ensures
            r.tag_seq() == seq![tag@],
            r@ == set![tag@],
            tags_sorted(r.tag_seq()),
    {
        let mut tags: Vec<String> = Vec::new();
        tags.push(tag.to_owned());
        let r = State { tags };
        assert(r.tag_seq() =~= seq![tag@]);
        assert(r@ =~= set![tag@]) by {
            assert(r.tag_seq()[0] == tag@);
        }
        r
    }

    /// The state whose tags are those of `tags`, sorted and without repeats.
    pub fn from_tags(tags: Vec<String>) -> (r: Self)
        ensures
            r@ == tags@.map_values(|t: String| t@).to_set(),
            tags_sorted(r.tag_seq()),
    {
        let ghost vs = tags@.map_values(|t: String| t@);
        let mut sorted: Vec<String> = Vec::new();
        assert(sorted@.map_values(|t: String| t@) =~= Seq::<Seq<char>>::empty());
        assert(vs.take(0) =~= Seq::<Seq<char>>::empty());
        let mut i: usize = 0;
        while i < tags.len()
            invariant
                i <= tags@.len(),
                vs == tags@.map_values(|t: String| t@),
                tags_sorted(sorted@.map_values(|t: String| t@)),
                sorted@.map_values(|t: String| t@).to_set() == vs.take(i as int).to_set(),
            decreases tags@.len() - i,
        {
            insert_tag(&mut sorted, &tags[i]);
            proof {
                assert(vs.take(i + 1) =~= vs.take(i as int) + seq![vs[i as int]]);
                Seq::<Seq<char>>::lemma_to_set_insert_commutes(vs.take(i as int), vs[i as int]);
            }
            i += 1;
        }
        assert(vs.take(tags@.len() as int) =~= vs);
        State { tags: sorted }
    }

    /// Whether `tag` is one of the tags of this state.
    pub fn has_tag(&self, tag: &String) -> (r: bool)
        ensures
            r == self@.contains(tag@),
    {
        let mut i: usize = 0;
        while i < self.tags.len()
            invariant
                i <= self.tags@.len(),
                forall|j: int| 0 <= j < i ==> self.tag_seq()[j] != tag@,
            decreases self.tags@.len() - i,
        {
            if self.tags[i] == *tag {
                assert(self.tag_seq()[i as int] == tag@);
                return true;
            }
            i += 1;
        }
        assert(!self.tag_seq().contains(tag@));
        false
    }

    /// Whether every tag of this state is a tag of `other`.
    pub fn tags_within(&self, other: &State) -> (r: bool)
        ensures
            r == self@.subset_of(other@),
    {
        let mut i: usize = 0;
        while i < self.tags.len()
            invariant
                i <= self.tags@.len(),
                forall|j: int| 0 <= j < i ==> other@.contains(#[trigger] self.tag_seq()[j]),
            decreases self.tags@.len() - i,
        {
            if !other.has_tag(&self.tags[i]) {
                assert(self@.contains(self.tag_seq()[i as int]));
                return false;
            }
            i += 1;
        }
        assert forall|t: Seq<char>| self@.contains(t) implies other@.contains(t) by {
            let j = choose|j: int| 0 <= j < self.tag_seq().len() && self.tag_seq()[j] == t;
        }
        true
    }
}

impl PartialEq for State {
    fn eq(&self, other: &State) -> (r: bool) {
        let r = self.tags_within(other) && other.tags_within(self);
        proof {
            if r {
                assert(self@ =~= other@);
            }
        }
        r
    }
}

impl vstd::std_specs::cmp::PartialEqSpecImpl for State {
    open spec fn obeys_eq_spec() -> bool {
        true
    }

    open spec fn eq_spec(&self, other: &State) -> bool {
        self@ == other@
    }
}

impl<'a> From<&'a str> for State {
    fn from(tag: &'a str) -> (r: State)
        ensures
            r@ == set![tag@],
    {
        State::from_tag(tag)
    }
}

impl<'a> vstd::std_specs::convert::FromSpecImpl<&'a str> for State {
    /// Callers learn the result from `from`'s own `ensures`.
    open spec fn obeys_from_spec() -> bool {
        false
    }

    open spec fn from_spec(v: &'a str) -> State {
        vstd::pervasive::arbitrary()
    }
}

} // verus!
