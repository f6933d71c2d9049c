pub mod automata;
pub mod parser;

pub use automata::state::State;
pub use automata::transition::Transition;
pub use automata::{Automata, AutomataIndex, AutomataModel};
pub use parser::{parse_description, AutomataParser, FileParser, ParseError};
