use vstd::prelude::*;

verus! {

/// An edge leaving an implicit source state: a symbol and the index of the
/// state it leads to. The empty symbol marks an epsilon transition.
pub struct Transition {
    symbol: String,
    end_state: usize,
}

impl View for Transition {
    type V = (Seq<char>, usize);

    closed spec fn view(&self) -> (Seq<char>, usize) {
        (self.symbol@, self.end_state)
    }
}

impl Transition {
    pub fn new(symbol: &str, end: usize) -> (r: Self)
        ensures
            r@ == (symbol@, end),
    {
        Transition { symbol: symbol.to_owned(), end_state: end }
    }

    pub fn symbol(&self) -> (r: &str)
        ensures
            r@ == self@.0,
    {
        self.symbol.as_str()
    }

    pub fn end_state(&self) -> (r: usize)
        ensures
            r == self@.1,
    {
        self.end_state
    }
}

impl Transition {
    /// Whether this edge is labelled `symbol`.
    pub fn has_symbol(&self, symbol: &String) -> (r: bool)
        ensures
            r == (self@.0 == symbol@),
    {
        self.symbol == *symbol
    }

    /// Whether this edge and `other` carry the same label.
    pub fn same_symbol(&self, other: &Transition) -> (r: bool)
        ensures
            r == (self@.0 == other@.0),
    {
        self.symbol == other.symbol
    }

    /// Whether this is an epsilon edge.
    pub fn is_epsilon(&self) -> (r: bool)
        ensures
            r == (self@.0.len() == 0),
    {
        self.symbol.as_str().is_empty()
    }
}

impl Clone for Transition {
    fn clone(&self) -> (r: Self)
        ensures
            r@ == self@,
    {
        Transition { symbol: self.symbol.clone(), end_state: self.end_state }
    }
}

impl PartialEq for Transition {
    fn eq(&self, other: &Transition) -> (r: bool) {
        self.end_state == other.end_state && self.symbol == other.symbol
    }
}

impl vstd::std_specs::cmp::PartialEqSpecImpl for Transition {
    open spec fn obeys_eq_spec() -> bool {
        true
    }

    open spec fn eq_spec(&self, other: &Transition) -> bool {
        self@ == other@
    }
}

} // verus!
