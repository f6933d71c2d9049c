use nfa2dfa::{parse_description, FileParser, ParseError};

fn lines(text: &[&str]) -> Vec<String> {
    text.iter().map(|s| s.to_string()).collect()
}

fn sample_text() -> Vec<String> {
    lines(&[
        "Estados",
        "3",
        "p q r",
        "",
        "Estados de aceptación",
        "1",
        "r",
        "",
        "Alfabeto",
        "2",
        "a b",
        "",
        "Transiciones",
        "3",
        "p a q",
        "  q -1 r  ",
        "r b p",
    ])
}

#[test]
fn parses_a_description() {
    let automata = match parse_description(&sample_text()) {
        Ok(a) => a,
        Err(_) => panic!("description refused"),
    };
    assert_eq!(automata.len(), 3);
    assert_eq!(automata.accept_states(), &vec![2]);
    assert_eq!(automata.alphabet(), &vec!["a".to_string(), "b".to_string()]);
    assert_eq!(automata.move_from_with(0, "a"), vec![1]);
    assert_eq!(automata.move_from_with(1, ""), vec![2]);
    assert_eq!(automata.move_from_with(2, "b"), vec![0]);
    assert_eq!(automata.entry_state(), 0);

    let dfa = automata.to_deterministic();
    assert!(dfa.is_deterministic());
}

#[test]
fn twice_encoded_accept_header_is_read() {
    let mut text = sample_text();
    text[4] = "Estados de aceptaciÃ³n".to_string();
    assert!(parse_description(&text).is_ok());
}

#[test]
fn parse_errors() {
    assert!(matches!(parse_description(&lines(&["p"])), Err(ParseError::UnexpectedLine)));
    assert!(matches!(parse_description(&lines(&["Estados", "x"])), Err(ParseError::BadCount)));
    assert!(matches!(
        parse_description(&lines(&["Estados", "3", "p q"])),
        Err(ParseError::MissingItems)
    ));
    assert!(matches!(
        parse_description(&lines(&["Estados", "1", "p", "Estados de aceptación", "1", "z"])),
        Err(ParseError::UnknownState)
    ));
    assert!(matches!(
        parse_description(&lines(&["Estados", "1", "p", "Transiciones", "1", "p a"])),
        Err(ParseError::BadTransition)
    ));
    assert!(matches!(
        parse_description(&lines(&["Estados", "1", "p", "Transiciones", "1", "z a p"])),
        Err(ParseError::UnknownBeginState)
    ));
    assert!(matches!(
        parse_description(&lines(&["Estados", "1", "p", "Transiciones", "1", "p a z"])),
        Err(ParseError::UnknownEndState)
    ));
    assert!(matches!(
        parse_description(&lines(&["Estados", "1", "p", "Transiciones", "1", "p a p", "p b p"])),
        Err(ParseError::ExtraTransition)
    ));
}

#[test]
fn file_parser_names() {
    let mut parser = FileParser::new();
    assert_eq!(parser.file_name(), "");
    parser.change_filename("in.txt");
    assert_eq!(parser.file_name(), "in.txt");
    assert_eq!(FileParser::with_filename("x").file_name(), "x");
}

#[test]
fn headers_are_trimmed() {
    let text = lines(&["  Estados ", "1", "p", "\tAlfabeto", "1", "a"]);
    let automata = match parse_description(&text) {
        Ok(a) => a,
        Err(_) => panic!("description refused"),
    };
    assert_eq!(automata.len(), 1);
    assert_eq!(automata.alphabet(), &vec!["a".to_string()]);
}

#[test]
fn counts_and_words() {
    let text = lines(&["Estados", "+2", "p\tq", "Alfabeto", "1", "a"]);
    let automata = match parse_description(&text) {
        Ok(a) => a,
        Err(_) => panic!("description refused"),
    };
    assert_eq!(automata.len(), 2);
    assert!(matches!(parse_description(&lines(&["Estados", "-1"])), Err(ParseError::BadCount)));
    assert!(matches!(
        parse_description(&lines(&["Estados", "99999999999999999999999"])),
        Err(ParseError::BadCount)
    ));
}
