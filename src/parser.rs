use vstd::prelude::*;
use crate::automata::state::State;
use crate::automata::transition::Transition;
use crate::automata::{Automata, AutomataModel};

verus! {

/// Something that builds an automaton from a description it holds.
pub trait AutomataParser {
    fn parse(&self) -> Automata;
}

/// Names the file that an automaton is read from.
pub struct FileParser {
    filename: String,
}

impl FileParser {
    pub fn new() -> (r: Self)
        ensures
            r.filename() == Seq::<char>::empty(),
    {
        FileParser { filename: String::new() }
    }

    pub fn with_filename(filename: &str) -> (r: Self)
        ensures
            r.filename() == filename@,
    {
        FileParser { filename: filename.to_owned() }
    }

    pub fn change_filename(&mut self, filename: &str)
        ensures
            final(self).filename() == filename@,
    {
        self.filename = filename.to_owned();
    }

    /// The name of the file to read, as characters.
    pub closed spec fn filename(&self) -> Seq<char> {
        self.filename@
    }

    /// The name of the file to read.
    pub fn file_name(&self) -> (r: &str)
        ensures
            r@ == self.filename(),
    {
        self.filename.as_str()
    }
}

/// Why a description could not be read.
pub enum ParseError {
    /// A line that should hold a count does not.
    BadCount,
    /// A line holds fewer items than its section announced.
    MissingItems,
    /// An accept state names no state.
    UnknownState,
    /// More transitions than announced.
    ExtraTransition,
    /// A transition line does not hold three words.
    BadTransition,
    /// A transition starts at a state that does not exist.
    UnknownBeginState,
    /// A transition ends at a state that does not exist.
    UnknownEndState,
    /// A line before any section header.
    UnexpectedLine,
}

/// The part of a description that the next line belongs to.
pub enum Section {
    Nothing,
    NumberOfStates,
    States,
    NumberOfAcceptStates,
    AcceptStates,
    NumberOfSymbols,
    Symbols,
    NumberOfTransitions,
    Transitions,
}

/// Where reading a description stands after some of its lines.
pub struct Reading {
    pub section: Section,
    pub found: nat,
    pub expected: nat,
    pub automaton: AutomataModel,
}

/// The section that follows a count line.
pub open spec fn after_count(s: Section) -> Section {
    match s {
        Section::NumberOfStates => Section::States,
        Section::NumberOfAcceptStates => Section::AcceptStates,
        Section::NumberOfSymbols => Section::Symbols,
        _ => Section::Transitions,
    }
}

/// `a` with one state per word, each tagged with that word.
pub open spec fn with_states(a: AutomataModel, ws: Seq<Seq<char>>) -> AutomataModel
    decreases ws.len(),
{
    if ws.len() == 0 {
        a
    } else {
        let b = with_states(a, ws.drop_last());
        AutomataModel {
            states: b.states.push(set![ws.last()]),
            transitions: b.transitions.push(Seq::empty()),
            ..b
        }
    }
}

/// `a` with the state named by each word made accepting, or the error for
/// the first word that names no state.
pub open spec fn with_accepts(a: AutomataModel, ws: Seq<Seq<char>>) -> Result<AutomataModel, ParseError>
    decreases ws.len(),
{
    if ws.len() == 0 {
        Ok(a)
    } else {
        match with_accepts(a, ws.drop_last()) {
            Ok(b) => if b.states.contains(set![ws.last()]) {
                Ok(AutomataModel {
                    accept_states: b.accept_states.push(b.first_with(set![ws.last()])),
                    ..b
                })
            } else {
                Err(ParseError::UnknownState)
            },
            Err(e) => Err(e),
        }
    }
}

/// `a` with each word added to the alphabet.
pub open spec fn with_symbols(a: AutomataModel, ws: Seq<Seq<char>>) -> AutomataModel
    decreases ws.len(),
{
    if ws.len() == 0 {
        a
    } else {
        let b = with_symbols(a, ws.drop_last());
        AutomataModel { alphabet: b.alphabet.push(ws.last()), ..b }
    }
}

/// `a` with the edge `e` added to state `from`, unless it is there already.
pub open spec fn with_edge(a: AutomataModel, from: usize, e: (Seq<char>, usize)) -> AutomataModel {
    let ts = a.transitions[from as int];
    AutomataModel {
        transitions: a.transitions.update(from as int, if ts.contains(e) { ts } else { ts.push(e) }),
        ..a
    }
}

/// The reading after one more line.
pub open spec fn read_line(rd: Reading, text: Seq<char>) -> Result<Reading, ParseError> {
    let l = trimmed(text);
    let ws = ascii_words(l);
    let a = rd.automaton;
    if l == "Estados"@ {
        Ok(Reading { section: Section::NumberOfStates, ..rd })
    } else if l == "Estados de aceptación"@ || l == "Estados de aceptaciÃ³n"@ {
        Ok(Reading { section: Section::NumberOfAcceptStates, ..rd })
    } else if l == "Alfabeto"@ {
        Ok(Reading { section: Section::NumberOfSymbols, ..rd })
    } else if l == "Transiciones"@ {
        Ok(Reading { section: Section::NumberOfTransitions, ..rd })
    } else if l.len() == 0 {
        Ok(rd)
    } else {
        match rd.section {
            Section::NumberOfStates | Section::NumberOfAcceptStates | Section::NumberOfSymbols
            | Section::NumberOfTransitions => match count_value(l) {
                Some(n) => Ok(Reading { section: after_count(rd.section), expected: n as nat, ..rd }),
                None => Err(ParseError::BadCount),
            },
            Section::States => if rd.expected > ws.len() {
                Err(ParseError::MissingItems)
            } else {
                Ok(Reading { automaton: with_states(a, ws), ..rd })
            },
            Section::AcceptStates => if rd.expected > ws.len() {
                Err(ParseError::MissingItems)
            } else {
                match with_accepts(a, ws) {
                    Ok(b) => Ok(Reading { automaton: b, ..rd }),
                    Err(e) => Err(e),
                }
            },
            Section::Symbols => if rd.expected > ws.len() {
                Err(ParseError::MissingItems)
            } else {
                Ok(Reading { automaton: with_symbols(a, ws), ..rd })
            },
            Section::Transitions => if rd.found == rd.expected {
                Err(ParseError::ExtraTransition)
            } else if ws.len() != 3 {
                Err(ParseError::BadTransition)
            } else if !a.states.contains(set![ws[0]]) {
                Err(ParseError::UnknownBeginState)
            } else if !a.states.contains(set![ws[2]]) {
                Err(ParseError::UnknownEndState)
            } else {
                let symbol = if ws[1] == "-1"@ { Seq::<char>::empty() } else { ws[1] };
                Ok(Reading {
                    automaton: with_edge(a, a.first_with(set![ws[0]]), (symbol, a.first_with(set![ws[2]]))),
                    found: rd.found + 1,
                    ..rd
                })
            },
            Section::Nothing => Err(ParseError::UnexpectedLine),
        }
    }
}

/// The reading before any line.
pub open spec fn start_reading() -> Reading {
    Reading {
        section: Section::Nothing,
        found: 0,
        expected: 0,
        automaton: AutomataModel {
            alphabet: Seq::empty(),
            states: Seq::empty(),
            entry_state: 0,
            accept_states: Seq::empty(),
            transitions: Seq::empty(),
        },
    }
}

/// The reading after all of `lines`, or the first error met.
pub open spec fn read_lines(lines: Seq<Seq<char>>) -> Result<Reading, ParseError>
    decreases lines.len(),
{
    if lines.len() == 0 {
        Ok(start_reading())
    } else {
        match read_lines(lines.drop_last()) {
            Ok(rd) => read_line(rd, lines.last()),
            Err(e) => Err(e),
        }
    }
}

/// Once reading fails, reading more lines fails the same way.
proof fn lemma_error_sticks(lines: Seq<Seq<char>>, i: int, e: ParseError)
    requires
        0 <= i <= lines.len(),
        read_lines(lines.take(i)) == Err::<Reading, ParseError>(e),
    ensures
        read_lines(lines) == Err::<Reading, ParseError>(e),
    decreases lines.len() - i,
{
    if i < lines.len() {
        assert(lines.take(i + 1).drop_last() =~= lines.take(i));
        lemma_error_sticks(lines, i + 1, e);
    } else {
        assert(lines.take(i) =~= lines);
    }
}

/// A character with the Unicode `White_Space` property.
pub open spec fn is_white_space(c: char) -> bool {
    let v = c as int;
    ||| 0x09 <= v <= 0x0D
    ||| v == 0x20 || v == 0x85 || v == 0xA0 || v == 0x1680
    ||| 0x2000 <= v <= 0x200A
    ||| v == 0x2028 || v == 0x2029 || v == 0x202F || v == 0x205F || v == 0x3000
}

/// `s` without its leading white space.
pub open spec fn trim_start(s: Seq<char>) -> Seq<char>
    decreases s.len(),
{
    if s.len() > 0 && is_white_space(s[0]) {
        trim_start(s.drop_first())
    } else {
        s
    }
}

/// `s` without its trailing white space.
pub open spec fn trim_end(s: Seq<char>) -> Seq<char>
    decreases s.len(),
{
    if s.len() > 0 && is_white_space(s.last()) {
        trim_end(s.drop_last())
    } else {
        s
    }
}

/// What `str::trim` makes of a line: the line without the white space
/// around it.
pub open spec fn trimmed(s: Seq<char>) -> Seq<char> {
    trim_end(trim_start(s))
}

/// An ASCII white-space character: space, tab, line feed, form feed or
/// carriage return.
pub open spec fn is_ascii_white_space(c: char) -> bool {
    c == ' ' || c == '\t' || c == '\n' || c == '\x0C' || c == '\r'
}

/// The words of `s` that are complete, and the word still being read.
pub open spec fn words_so_far(s: Seq<char>) -> (Seq<Seq<char>>, Seq<char>)
    decreases s.len(),
{
    if s.len() == 0 {
        (Seq::empty(), Seq::empty())
    } else {
        let (ws, cur) = words_so_far(s.drop_last());
        if is_ascii_white_space(s.last()) {
            if cur.len() > 0 {
                (ws.push(cur), Seq::empty())
            } else {
                (ws, cur)
            }
        } else {
            (ws, cur.push(s.last()))
        }
    }
}

/// What `str::split_ascii_whitespace` makes of a line: its maximal runs of
/// characters other than ASCII white space, in order.
pub open spec fn ascii_words(s: Seq<char>) -> Seq<Seq<char>> {
    let (ws, cur) = words_so_far(s);
    if cur.len() > 0 {
        ws.push(cur)
    } else {
        ws
    }
}

/// The number that the ASCII digits `d` spell in base ten.
pub open spec fn digits_value(d: Seq<char>) -> int
    decreases d.len(),
{
    if d.len() == 0 {
        0
    } else {
        digits_value(d.drop_last()) * 10 + (d.last() as int - '0' as int)
    }
}

/// What `str::parse::<usize>` makes of a word: an optional `+`, then one or
/// more ASCII digits whose value fits in `usize`.
pub open spec fn count_value(s: Seq<char>) -> Option<usize> {
    let d = if s.len() > 0 && s[0] == '+' { s.drop_first() } else { s };
    if d.len() > 0 && (forall|i: int| 0 <= i < d.len() ==> '0' as int <= #[trigger] d[i] as int <= '9' as int)
        && digits_value(d) <= usize::MAX {
        Some(digits_value(d) as usize)
    } else {
        None
    }
}

/// Relies on `str::trim`: the line without the whitespace around it.
#[verifier::external_body]
fn trim_line(s: &str) -> (r: String)
    ensures
        r@ == trimmed(s@),
{
    s.trim().to_owned()
}

/// Relies on `str::split_ascii_whitespace`: the words of the line, in order.
#[verifier::external_body]
fn split_words(s: &str) -> (r: Vec<String>)
    ensures
        r@.map_values(|w: String| w@) == ascii_words(s@),
{
    s.split_ascii_whitespace().map(|w| w.to_owned()).collect()
}

/// Relies on `str::parse::<usize>`: the number a word spells, if any.
#[verifier::external_body]
fn parse_count(s: &str) -> (r: Option<usize>)
    ensures
        r == count_value(s@),
{
    s.parse::<usize>().ok()
}

/// With the accept states as with the whole reading: a failure sticks.
proof fn lemma_accept_error_sticks(a: AutomataModel, ws: Seq<Seq<char>>, i: int, e: ParseError)
    requires
        0 <= i <= ws.len(),
        with_accepts(a, ws.take(i)) == Err::<AutomataModel, ParseError>(e),
    ensures
        with_accepts(a, ws) == Err::<AutomataModel, ParseError>(e),
    decreases ws.len() - i,
{
    if i < ws.len() {
        assert(ws.take(i + 1).drop_last() =~= ws.take(i));
        lemma_accept_error_sticks(a, ws, i + 1, e);
    } else {
        assert(ws.take(i) =~= ws);
    }
}

/// Adds one state per word, tagged with that word.
fn add_states(automata: &mut Automata, words: &Vec<String>)
    requires
        old(automata)@.wf(),
    ensures
        final(automata)@ == with_states(old(automata)@, words@.map_values(|w: String| w@)),
        final(automata)@.wf(),
        final(automata)@.entry_state == old(automata)@.entry_state,
        old(automata)@.one_tag_each() ==> final(automata)@.one_tag_each(),
{
    let ghost a0 = automata@;
    let ghost ws = words@.map_values(|w: String| w@);
    let mut k: usize = 0;
    while k < words.len()
        invariant
            k <= words@.len(),
            ws == words@.map_values(|w: String| w@),
            automata@.wf(),
            automata@ == with_states(a0, ws.take(k as int)),
            automata@.entry_state == a0.entry_state,
            a0.one_tag_each() ==> automata@.one_tag_each(),
        decreases words@.len() - k,
    {
        let ghost before = automata@;
        let ghost tag = ws[k as int];
        let state = State::from_tag(words[k].as_str());
        automata.push_state(state);
        assert(ws.take(k + 1).drop_last() =~= ws.take(k as int));
        assert(ws.take(k + 1).last() == tag);
        proof {
            if a0.one_tag_each() {
                assert forall|p: int| 0 <= p < automata@.states.len() implies
                    #[trigger] automata@.states[p] == set![automata@.states[p].choose()] by {
                    if p < before.states.len() {
                        assert(automata@.states[p] == before.states[p]);
                    } else {
                        assert(automata@.states[p] == set![tag]);
                        assert(set![tag].contains(tag));
                        assert(set![tag].contains(set![tag].choose()));
                    }
                }
            }
        }
        k += 1;
    }
    assert(ws.take(words@.len() as int) =~= ws);
}

/// Makes the state named by each word accepting; fails on a word that names
/// no state.
fn add_accepts(automata: &mut Automata, words: &Vec<String>) -> (r: Result<(), ParseError>)
    requires
        old(automata)@.wf(),
    ensures
        match with_accepts(old(automata)@, words@.map_values(|w: String| w@)) {
            Ok(b) => r is Ok && final(automata)@ == b,
            Err(e) => r == Err::<(), ParseError>(e),
        },
        final(automata)@.wf(),
        final(automata)@.states == old(automata)@.states,
        final(automata)@.entry_state == old(automata)@.entry_state,
{
    let ghost a0 = automata@;
    let ghost ws = words@.map_values(|w: String| w@);
    let mut known = true;
    let mut k: usize = 0;
    while k < words.len() && known
        invariant
            k <= words@.len(),
            ws == words@.map_values(|w: String| w@),
            automata@.wf(),
            automata@.states == a0.states,
            automata@.entry_state == a0.entry_state,
            known ==> with_accepts(a0, ws.take(k as int)) == Ok::<AutomataModel, ParseError>(automata@),
            !known ==> with_accepts(a0, ws) == Err::<AutomataModel, ParseError>(ParseError::UnknownState),
        decreases words@.len() - k,
    {
        let ghost tag = ws[k as int];
        let state = State::from_tag(words[k].as_str());
        assert(ws.take(k + 1).drop_last() =~= ws.take(k as int));
        assert(ws.take(k + 1).last() == tag);
        match automata.find(&state) {
            Some(index) => automata.push_accept_state(index),
            None => {
                proof {
                    assert(!automata@.states.contains(set![tag]));
                    assert(with_accepts(a0, ws.take(k + 1)) == Err::<AutomataModel, ParseError>(ParseError::UnknownState));
                    lemma_accept_error_sticks(a0, ws, k + 1, ParseError::UnknownState);
                }
                known = false;
            },
        }
        k += 1;
    }
    if !known {
        return Err(ParseError::UnknownState);
    }
    assert(ws.take(words@.len() as int) =~= ws);
    Ok(())
}

/// Adds each word to the alphabet.
fn add_symbols(automata: &mut Automata, words: &Vec<String>)
    ensures
        final(automata)@ == with_symbols(old(automata)@, words@.map_values(|w: String| w@)),
{
    let ghost a0 = automata@;
    let ghost ws = words@.map_values(|w: String| w@);
    let mut k: usize = 0;
    while k < words.len()
        invariant
            k <= words@.len(),
            ws == words@.map_values(|w: String| w@),
            automata@ == with_symbols(a0, ws.take(k as int)),
        decreases words@.len() - k,
    {
        automata.push_symbol(words[k].as_str());
        assert(ws.take(k + 1).drop_last() =~= ws.take(k as int));
        assert(ws.take(k + 1).last() == ws[k as int]);
        k += 1;
    }
    assert(ws.take(words@.len() as int) =~= ws);
}

/// Builds an automaton from the lines of its description, as `read_lines`
/// reads them: a header line (`Estados`, `Estados de aceptación`,
/// `Alfabeto`, `Transiciones`) opens each section, whose first line is a
/// count; states are named by one tag each, and a transition line reads
/// `begin symbol end`, with `-1` for the empty symbol. Blank lines are
/// skipped.
pub fn parse_description(lines: &Vec<String>) -> (r: Result<Automata, ParseError>)
    ensures
        match read_lines(lines@.map_values(|l: String| l@)) {
            Ok(rd) => r matches Ok(a) && a@ == rd.automaton,
            Err(e) => r matches Err(f) && f == e,
        },
        r matches Ok(a) ==> {
            &&& a@.wf()
            &&& a@.one_tag_each()
            &&& a@.tags_resolve()
            &&& a@.entry_state == 0
        },
{
    let ghost ls = lines@.map_values(|l: String| l@);
    let states_header = "Estados".to_owned();
    let accept_header = "Estados de aceptación".to_owned();
    // The same header after a second UTF-8 encoding, as some editors save it.
    let accept_header_twice_encoded = "Estados de aceptaciÃ³n".to_owned();
    let alphabet_header = "Alfabeto".to_owned();
    let transitions_header = "Transiciones".to_owned();
    let epsilon_mark = "-1".to_owned();
    let mut expecting = Section::Nothing;
    let mut total_found: usize = 0;
    let mut total_expected: usize = 0;
    let mut automata = Automata::new();
    proof {
        assert(ls.take(0) =~= Seq::<Seq<char>>::empty());
        assert(automata@.alphabet =~= Seq::<Seq<char>>::empty());
        assert(automata@.states =~= Seq::<Set<Seq<char>>>::empty());
        assert(automata@.accept_states =~= Seq::<usize>::empty());
        assert(automata@.transitions =~= Seq::<Seq<(Seq<char>, usize)>>::empty());
        assert(automata@ == start_reading().automaton);
    }
    let mut i: usize = 0;
    while i < lines.len()
        invariant
            i <= lines@.len(),
            ls == lines@.map_values(|l: String| l@),
            total_found <= i,
            states_header@ == "Estados"@,
            accept_header@ == "Estados de aceptación"@,
            accept_header_twice_encoded@ == "Estados de aceptaciÃ³n"@,
            alphabet_header@ == "Alfabeto"@,
            transitions_header@ == "Transiciones"@,
            epsilon_mark@ == "-1"@,
            automata@.wf(),
            automata@.one_tag_each(),
            automata@.entry_state == 0,
            read_lines(ls.take(i as int)) == Ok::<Reading, ParseError>(Reading {
                section: expecting,
                found: total_found as nat,
                expected: total_expected as nat,
                automaton: automata@,
            }),
        decreases lines@.len() - i,
    {
        let ghost rd = Reading {
            section: expecting,
            found: total_found as nat,
            expected: total_expected as nat,
            automaton: automata@,
        };
        let ghost text = ls[i as int];
        proof {
            assert(ls.take(i + 1).drop_last() =~= ls.take(i as int));
            assert(ls.take(i + 1).last() == text);
            assert(read_lines(ls.take(i + 1)) == read_line(rd, text));
        }
        let line = trim_line(lines[i].as_str());
        if line == states_header {
            expecting = Section::NumberOfStates;
        } else if line == accept_header || line == accept_header_twice_encoded {
            expecting = Section::NumberOfAcceptStates;
        } else if line == alphabet_header {
            expecting = Section::NumberOfSymbols;
        } else if line == transitions_header {
            expecting = Section::NumberOfTransitions;
        } else if !line.as_str().is_empty() {
            match expecting {
                Section::NumberOfStates | Section::NumberOfAcceptStates | Section::NumberOfSymbols
                | Section::NumberOfTransitions => {
                    total_expected = match parse_count(line.as_str()) {
                        Some(n) => n,
                        None => {
                            proof {
                                lemma_error_sticks(ls, i + 1, ParseError::BadCount);
                            }
                            return Err(ParseError::BadCount);
                        },
                    };
                    expecting = match expecting {
                        Section::NumberOfStates => Section::States,
                        Section::NumberOfAcceptStates => Section::AcceptStates,
                        Section::NumberOfSymbols => Section::Symbols,
                        _ => Section::Transitions,
                    };
                },
                Section::States => {
                    let words = split_words(line.as_str());
                    if total_expected > words.len() {
                        proof {
                            lemma_error_sticks(ls, i + 1, ParseError::MissingItems);
                        }
                        return Err(ParseError::MissingItems);
                    }
                    add_states(&mut automata, &words);
                },
                Section::AcceptStates => {
                    let words = split_words(line.as_str());
                    if total_expected > words.len() {
                        proof {
                            lemma_error_sticks(ls, i + 1, ParseError::MissingItems);
                        }
                        return Err(ParseError::MissingItems);
                    }
                    let ghost before = automata@;
                    match add_accepts(&mut automata, &words) {
                        Ok(()) => {
                            assert(automata@.states == before.states);
                        },
                        Err(e) => {
                            proof {
                                lemma_error_sticks(ls, i + 1, e);
                            }
                            return Err(e);
                        },
                    }
                },
                Section::Symbols => {
                    let words = split_words(line.as_str());
                    if total_expected > words.len() {
                        proof {
                            lemma_error_sticks(ls, i + 1, ParseError::MissingItems);
                        }
                        return Err(ParseError::MissingItems);
                    }
                    let ghost before = automata@;
                    add_symbols(&mut automata, &words);
                    proof {
                        lemma_symbols_keep(before, words@.map_values(|w: String| w@));
                        assert forall|p: int| 0 <= p < automata@.states.len() implies
                            #[trigger] automata@.states[p] == set![automata@.states[p].choose()] by {
                            assert(automata@.states[p] == before.states[p]);
                        }
                    }
                },
                Section::Transitions => {
                    if total_found == total_expected {
                        proof {
                            lemma_error_sticks(ls, i + 1, ParseError::ExtraTransition);
                        }
                        return Err(ParseError::ExtraTransition);
                    }
                    let words = split_words(line.as_str());
                    let ghost ws = words@.map_values(|w: String| w@);
                    if words.len() != 3 {
                        proof {
                            lemma_error_sticks(ls, i + 1, ParseError::BadTransition);
                        }
                        return Err(ParseError::BadTransition);
                    }
                    assert(ws[0] == words@[0]@ && ws[1] == words@[1]@ && ws[2] == words@[2]@);
                    let begin = match automata.find(&State::from_tag(words[0].as_str())) {
                        Some(index) => index,
                        None => {
                            proof {
                                lemma_error_sticks(ls, i + 1, ParseError::UnknownBeginState);
                            }
                            return Err(ParseError::UnknownBeginState);
                        },
                    };
                    let end = match automata.find(&State::from_tag(words[2].as_str())) {
                        Some(index) => index,
                        None => {
                            proof {
                                lemma_error_sticks(ls, i + 1, ParseError::UnknownEndState);
                            }
                            return Err(ParseError::UnknownEndState);
                        },
                    };
                    let edge = if words[1] == epsilon_mark {
                        proof {
                            reveal_strlit("");
                            assert(""@ =~= Seq::<char>::empty());
                        }
                        Transition::new("", end)
                    } else {
                        Transition::new(words[1].as_str(), end)
                    };
                    let ghost before = automata@;
                    automata.push_transition_from(begin, edge);
                    assert(automata@.states == before.states);
                    assert forall|p: int| 0 <= p < automata@.states.len() implies
                        #[trigger] automata@.states[p] == set![automata@.states[p].choose()] by {
                        assert(automata@.states[p] == before.states[p]);
                    }
                    total_found += 1;
                },
                Section::Nothing => {
                    proof {
                        lemma_error_sticks(ls, i + 1, ParseError::UnexpectedLine);
                    }
                    return Err(ParseError::UnexpectedLine);
                },
            }
        }
        i += 1;
    }
    proof {
        assert(ls.take(lines@.len() as int) =~= ls);
        let a = automata@;
        assert forall|t: Seq<char>| #[trigger] a.all_tags().contains(t) implies a.states.contains(set![t]) by {
            let q = choose|q: int| 0 <= q < a.states.len() && #[trigger] a.states[q].contains(t);
            assert(a.states[q] == set![a.states[q].choose()]);
        }
    }
    Ok(automata)
}

/// Adding symbols leaves the states alone.
proof fn lemma_symbols_keep(a: AutomataModel, ws: Seq<Seq<char>>)
    ensures
        with_symbols(a, ws).states == a.states,
        with_symbols(a, ws).transitions == a.transitions,
        with_symbols(a, ws).accept_states == a.accept_states,
        with_symbols(a, ws).entry_state == a.entry_state,
    decreases ws.len(),
{
    if ws.len() > 0 {
        lemma_symbols_keep(a, ws.drop_last());
    }
}

} // verus!
