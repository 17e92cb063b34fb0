use ll_syntax_proofer::symbol::Symbol;
use ll_syntax_proofer::token::{
    find_key_word, get_key_word_map, get_opt_map, KeyWord, Token, TokenType,
};

fn spell(entries: &Vec<(String, KeyWord)>, text: &str) -> Option<KeyWord> {
    find_key_word(entries, &text.to_string())
}

#[test]
fn binary_operators() {
    for k in [
        KeyWord::ADD,
        KeyWord::SUB,
        KeyWord::MUL,
        KeyWord::DIV,
        KeyWord::MOD,
        KeyWord::POW,
        KeyWord::ASS,
        KeyWord::EQU,
        KeyWord::NEQ,
        KeyWord::GR,
        KeyWord::LE,
        KeyWord::GRE,
        KeyWord::LEE,
        KeyWord::CON,
        KeyWord::DOT,
        KeyWord::COM,
        KeyWord::AND,
        KeyWord::OR,
    ] {
        assert!(k.is_binary_operator());
        assert!(!k.is_unique_operator());
        assert!(!k.is_divide_operator());
    }
    assert!(!KeyWord::NOT.is_binary_operator());
    assert!(!KeyWord::SEM.is_binary_operator());
    assert!(!KeyWord::WHI.is_binary_operator());
}

#[test]
fn unary_operators() {
    for k in [KeyWord::LEN, KeyWord::MIN, KeyWord::NOT] {
        assert!(k.is_unique_operator());
        assert!(!k.is_binary_operator());
    }
    assert!(!KeyWord::SUB.is_unique_operator());
    assert!(!KeyWord::IF.is_unique_operator());
}

#[test]
fn brackets() {
    for k in
        [KeyWord::LSM, KeyWord::RSM, KeyWord::LMI, KeyWord::RMI, KeyWord::LLA, KeyWord::RLA]
    {
        assert!(k.is_divide_operator());
        assert!(!k.is_binary_operator());
    }
    assert!(!KeyWord::COM.is_divide_operator());
    assert!(!KeyWord::END.is_divide_operator());
}

#[test]
fn display_strings() {
    assert_eq!(KeyWord::ADD.get_display_str(), "+");
    assert_eq!(KeyWord::SUB.get_display_str(), "-");
    assert_eq!(KeyWord::MIN.get_display_str(), "-");
    assert_eq!(KeyWord::NEQ.get_display_str(), "~=");
    assert_eq!(KeyWord::CON.get_display_str(), "..");
    assert_eq!(KeyWord::NOT.get_display_str(), "not");
    assert_eq!(KeyWord::LLA.get_display_str(), "{");
    assert_eq!(KeyWord::ELI.get_display_str(), "elseif");
    assert_eq!(KeyWord::FUN.get_display_str(), "function");
    assert_eq!(KeyWord::WHI.get_display_str(), "while");
}

#[test]
fn operator_spellings_are_listed() {
    let map = get_opt_map();
    assert_eq!(map.len(), 27);
    assert_eq!(spell(&map, "+"), Some(KeyWord::ADD));
    assert_eq!(spell(&map, "=="), Some(KeyWord::EQU));
    assert_eq!(spell(&map, "="), Some(KeyWord::ASS));
    assert_eq!(spell(&map, ".."), Some(KeyWord::CON));
    assert_eq!(spell(&map, "and"), Some(KeyWord::AND));
    assert_eq!(spell(&map, ";"), Some(KeyWord::SEM));
    assert_eq!(spell(&map, "..."), None);
    assert_eq!(spell(&map, "while"), None);
    assert_eq!(spell(&map, ""), None);
}

#[test]
fn minus_sign_spells_the_unary_operator() {
    assert_eq!(spell(&get_opt_map(), "-"), Some(KeyWord::MIN));
    assert_eq!(get_opt_map().iter().filter(|e| e.0 == "-").count(), 1);
    assert!(get_opt_map().iter().all(|e| e.1 != KeyWord::SUB));
}

#[test]
fn no_spelling_stands_twice() {
    for map in [get_opt_map(), get_key_word_map()] {
        for (i, a) in map.iter().enumerate() {
            for b in map[i + 1..].iter() {
                assert_ne!(a.0, b.0);
            }
        }
    }
}

#[test]
fn operator_spellings_are_short() {
    for (text, _) in get_opt_map().iter() {
        let n = text.chars().count();
        assert!(1 <= n && n <= 3);
    }
}

#[test]
fn every_operator_spelling_is_the_display_string_of_its_key_word() {
    for (text, key_word) in get_opt_map().iter() {
        assert_eq!(text.as_str(), key_word.get_display_str());
    }
    for (text, key_word) in get_key_word_map().iter() {
        assert_eq!(text.as_str(), key_word.get_display_str());
    }
}

#[test]
fn reserved_words_are_listed() {
    let map = get_key_word_map();
    assert_eq!(map.len(), 18);
    assert_eq!(spell(&map, "break"), Some(KeyWord::BRK));
    assert_eq!(spell(&map, "elseif"), Some(KeyWord::ELI));
    assert_eq!(spell(&map, "else"), Some(KeyWord::ELS));
    assert_eq!(spell(&map, "while"), Some(KeyWord::WHI));
    assert_eq!(spell(&map, "and"), None);
    assert_eq!(spell(&map, "While"), None);
    assert_eq!(spell(&map, "+"), None);
}

#[test]
fn later_entry_counts() {
    let map = vec![("x".to_string(), KeyWord::ADD), ("x".to_string(), KeyWord::MUL)];
    assert_eq!(spell(&map, "x"), Some(KeyWord::MUL));
}

#[test]
fn token_kinds_name_their_terminals() {
    assert_eq!(TokenType::OptKeyWord(KeyWord::LEE).to_str(), "<=");
    assert_eq!(TokenType::ID("x".to_string()).to_str(), "id");
    assert_eq!(TokenType::String("x".to_string()).to_str(), "str");
    assert_eq!(TokenType::Number("1.5".to_string()).to_str(), "num");
    assert_eq!(TokenType::EOF.to_str(), "eof");
}

#[test]
fn token_keeps_what_it_was_made_of() {
    let t = Token::new(TokenType::ID("count".to_string()), "count".to_string(), 3, 9);
    assert_eq!(t.raw_data, "count".to_string());
    assert_eq!((t.line, t.column), (3, 9));
    assert_eq!(t.get_id(), Some(&"count".to_string()));
    assert_eq!(t.get_num(), None);
    assert_eq!(t.get_key_word(), None);
}

#[test]
fn token_gives_numeral_and_key_word() {
    let n = Token::new(TokenType::Number("12.5".to_string()), "12.5".to_string(), 1, 1);
    assert_eq!(n.get_num(), Some(&"12.5".to_string()));
    assert_eq!(n.get_id(), None);
    let k = Token::new(TokenType::OptKeyWord(KeyWord::IF), "if".to_string(), 1, 1);
    assert_eq!(k.get_key_word(), Some(&KeyWord::IF));
    assert_eq!(k.get_num(), None);
    let s = Token::new(TokenType::String("if".to_string()), "if".to_string(), 1, 1);
    assert_eq!(s.get_key_word(), None);
    assert_eq!(s.get_id(), None);
}

#[test]
fn token_stands_for_a_terminal() {
    let t = Token::new(TokenType::OptKeyWord(KeyWord::WHI), "while".to_string(), 2, 4);
    assert_eq!(t.to_symbol().text, "while".to_string());
    assert!(t.to_symbol().is_end_symbol());
    let id = Token::new(TokenType::ID("Count".to_string()), "Count".to_string(), 2, 4);
    assert_eq!(id.to_symbol().text, "id".to_string());
    let l = id.to_lookahead();
    assert_eq!(l.symbol.text, "id".to_string());
    assert_eq!((l.line, l.column), (2, 4));
}

#[test]
fn key_word_makes_a_token_kind() {
    assert!(matches!(TokenType::from(KeyWord::FOR), TokenType::OptKeyWord(KeyWord::FOR)));
    assert_eq!(TokenType::from(KeyWord::NEQ).to_str(), "~=");
}

#[test]
fn tokens_are_equal_by_their_text() {
    let a = Token::new(TokenType::ID("x".to_string()), "x".to_string(), 1, 1);
    let b = Token::new(TokenType::String("x".to_string()), "x".to_string(), 9, 9);
    let c = Token::new(TokenType::ID("x".to_string()), "y".to_string(), 1, 1);
    assert!(a == b);
    assert!(a != c);
}

#[test]
fn key_word_is_compared_with_a_token() {
    let t = Token::new(TokenType::OptKeyWord(KeyWord::IF), "if".to_string(), 1, 1);
    assert!(KeyWord::IF == t);
    assert!(KeyWord::IN != t);
    let id = Token::new(TokenType::ID("if".to_string()), "if".to_string(), 1, 1);
    assert!(KeyWord::IF != id);
}

#[test]
fn token_is_compared_with_a_symbol() {
    let t = Token::new(TokenType::OptKeyWord(KeyWord::IF), "if".to_string(), 1, 1);
    assert!(t == Symbol::from("if"));
    assert!(t != Symbol::from("id"));
    let id = Token::new(TokenType::ID("if".to_string()), "if".to_string(), 1, 1);
    assert!(id == Symbol::from("id"));
    assert!(id != Symbol::from("if"));
    assert!(Token::eof() == Symbol::eof_symbol());
}

#[test]
fn end_token_stands_for_the_end_of_input() {
    let t = Token::eof();
    assert!(matches!(t.type_id, TokenType::EOF));
    assert_eq!(t.raw_data, "".to_string());
    assert_eq!((t.line, t.column), (0, 0));
    assert_eq!(t.to_symbol().text, "eof".to_string());
    assert!(t.to_symbol() == Symbol::eof_symbol());
}
