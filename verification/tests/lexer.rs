use ll_syntax_proofer::lexer::{LexError, Lexer};
use ll_syntax_proofer::token::{KeyWord, Token, TokenType};

fn lex(text: &str) -> Vec<Token> {
    Lexer::new(&text.to_string()).tokens().unwrap()
}

fn id(t: &Token) -> String {
    match &t.type_id {
        TokenType::ID(s) => s.clone(),
        _ => panic!("no identifier"),
    }
}

fn key(t: &Token) -> KeyWord {
    match &t.type_id {
        TokenType::OptKeyWord(k) => *k,
        _ => panic!("no key word"),
    }
}

fn num(t: &Token) -> String {
    match &t.type_id {
        TokenType::Number(s) => s.clone(),
        _ => panic!("no number"),
    }
}

fn text(t: &Token) -> String {
    match &t.type_id {
        TokenType::String(s) => s.clone(),
        _ => panic!("no string"),
    }
}

fn place(t: &Token) -> (usize, usize) {
    (t.line, t.column)
}

fn is_end(t: &Token) -> bool {
    matches!(t.type_id, TokenType::EOF) && t.raw_data.is_empty() && place(t) == (0, 0)
}

#[test]
fn new_lexer_stands_at_line_one_column_one() {
    let l = Lexer::new(&"ab".to_string());
    assert_eq!(l.chars, vec!['a', 'b']);
    assert_eq!((l.pos, l.cur_line, l.cur_column, l.eof), (0, 1, 1, false));
    assert_eq!(l.opt_hash_map.len(), 27);
    assert_eq!(l.key_word_hash_map.len(), 18);
}

#[test]
fn try_new_gives_the_same_lexer() {
    let l = Lexer::try_new(&"a b".to_string()).unwrap();
    assert_eq!(l.chars, vec!['a', ' ', 'b']);
    assert_eq!((l.pos, l.cur_line, l.cur_column, l.eof), (0, 1, 1, false));
}

#[test]
fn empty_text_gives_the_end_token_once() {
    let mut l = Lexer::new(&"".to_string());
    assert!(is_end(&l.get_next_token().unwrap().unwrap()));
    assert!(l.eof);
    assert!(l.get_next_token().unwrap().is_none());
    assert!(l.get_next_token().unwrap().is_none());
}

#[test]
fn statement_is_cut_into_tokens() {
    let t = lex("local a = 123 + 6 b = 1");
    assert_eq!(t.len(), 10);
    assert_eq!(key(&t[0]), KeyWord::LOC);
    assert_eq!(t[0].raw_data, "local".to_string());
    assert_eq!(place(&t[0]), (1, 1));
    assert_eq!(id(&t[1]), "a".to_string());
    assert_eq!(place(&t[1]), (1, 7));
    assert_eq!(key(&t[2]), KeyWord::ASS);
    assert_eq!(place(&t[2]), (1, 9));
    assert_eq!(num(&t[3]), "123".to_string());
    assert_eq!(t[3].raw_data, "123".to_string());
    assert_eq!(place(&t[3]), (1, 11));
    assert_eq!(key(&t[4]), KeyWord::ADD);
    assert_eq!(place(&t[4]), (1, 15));
    assert_eq!(num(&t[5]), "6".to_string());
    assert_eq!(id(&t[6]), "b".to_string());
    assert_eq!(place(&t[6]), (1, 19));
    assert_eq!(key(&t[7]), KeyWord::ASS);
    assert_eq!(num(&t[8]), "1".to_string());
    assert_eq!(place(&t[8]), (1, 23));
    assert!(is_end(&t[9]));
}

#[test]
fn reserved_words_and_identifiers() {
    let t = lex("while whilex _x1 End");
    assert_eq!(key(&t[0]), KeyWord::WHI);
    assert_eq!(id(&t[1]), "whilex".to_string());
    assert_eq!(id(&t[2]), "_x1".to_string());
    assert_eq!(id(&t[3]), "End".to_string());
}

#[test]
fn and_or_not_are_read_as_identifiers() {
    let t = lex("and or not");
    assert_eq!(id(&t[0]), "and".to_string());
    assert_eq!(id(&t[1]), "or".to_string());
    assert_eq!(id(&t[2]), "not".to_string());
}

#[test]
fn numeral_takes_letters_dots_and_underscores() {
    let t = lex("12ab 1.5 1..2 3_0");
    assert_eq!(num(&t[0]), "12ab".to_string());
    assert_eq!(num(&t[1]), "1.5".to_string());
    assert_eq!(num(&t[2]), "1..2".to_string());
    assert_eq!(num(&t[3]), "3_0".to_string());
    assert_eq!(place(&t[3]), (1, 15));
}

#[test]
fn longest_operator_is_taken() {
    let t = lex("a==b ~= c<=d .. e<f = (");
    assert_eq!(key(&t[1]), KeyWord::EQU);
    assert_eq!(t[1].raw_data, "==".to_string());
    assert_eq!(place(&t[2]), (1, 4));
    assert_eq!(key(&t[3]), KeyWord::NEQ);
    assert_eq!(key(&t[5]), KeyWord::LEE);
    assert_eq!(place(&t[6]), (1, 12));
    assert_eq!(key(&t[7]), KeyWord::CON);
    assert_eq!(key(&t[9]), KeyWord::LE);
    assert_eq!(key(&t[11]), KeyWord::ASS);
    assert_eq!(key(&t[12]), KeyWord::LSM);
}

#[test]
fn operators_next_to_each_other_are_parted() {
    let t = lex("(){}[];,#x");
    let keys: Vec<KeyWord> = t[..9].iter().map(key).collect();
    assert_eq!(
        keys,
        vec![
            KeyWord::LSM,
            KeyWord::RSM,
            KeyWord::LLA,
            KeyWord::RLA,
            KeyWord::LMI,
            KeyWord::RMI,
            KeyWord::SEM,
            KeyWord::COM,
            KeyWord::LEN
        ]
    );
    assert_eq!(place(&t[9]), (1, 10));
}

#[test]
fn operator_at_the_end_moves_on_by_the_length_tried() {
    let mut l = Lexer::new(&"=".to_string());
    let t = l.get_next_token().unwrap().unwrap();
    assert_eq!(key(&t), KeyWord::ASS);
    assert_eq!(t.raw_data, "=".to_string());
    assert_eq!((l.pos, l.cur_column), (1, 4));
    let mut l = Lexer::new(&"a ==".to_string());
    l.get_next_token().unwrap();
    let t = l.get_next_token().unwrap().unwrap();
    assert_eq!(key(&t), KeyWord::EQU);
    assert_eq!((l.pos, l.cur_column), (4, 6));
}

#[test]
fn unknown_operator_is_refused() {
    let mut l = Lexer::new(&"!".to_string());
    assert_eq!(
        l.get_next_token().err(),
        Some(LexError::UnknownOperator { line: 1, column: 1 })
    );
    assert_eq!((l.pos, l.cur_column), (0, 1));
    let mut l = Lexer::new(&"a\n @".to_string());
    assert_eq!(l.tokens().err(), Some(LexError::UnknownOperator { line: 2, column: 2 }));
}

#[test]
fn single_minus_is_the_binary_operator() {
    let t = lex("a - b -");
    assert_eq!(key(&t[1]), KeyWord::SUB);
    assert_eq!(t[1].raw_data, "-".to_string());
    assert_eq!(place(&t[1]), (1, 3));
    assert_eq!(place(&t[2]), (1, 5));
    assert_eq!(key(&t[3]), KeyWord::SUB);
    assert!(is_end(&t[4]));
}

#[test]
fn comment_runs_to_the_end_of_the_line() {
    let t = lex("a -- b c\n  d --e");
    assert_eq!(t.len(), 3);
    assert_eq!(id(&t[0]), "a".to_string());
    assert_eq!(id(&t[1]), "d".to_string());
    assert_eq!(place(&t[1]), (2, 3));
    assert!(is_end(&t[2]));
}

#[test]
fn comment_at_the_end_still_begins_a_line() {
    let mut l = Lexer::new(&"--x".to_string());
    assert!(is_end(&l.get_next_token().unwrap().unwrap()));
    assert_eq!((l.cur_line, l.cur_column), (2, 1));
}

#[test]
fn string_runs_to_the_closing_quote() {
    let t = lex("\"hi there\" x \"\"");
    assert_eq!(text(&t[0]), "hi there".to_string());
    assert_eq!(t[0].raw_data, "hi there".to_string());
    assert_eq!(place(&t[0]), (1, 1));
    assert_eq!(place(&t[1]), (1, 12));
    assert_eq!(text(&t[2]), "".to_string());
    assert_eq!(place(&t[2]), (1, 14));
}

#[test]
fn string_without_closing_quote_runs_to_the_end() {
    let mut l = Lexer::new(&"\"abc".to_string());
    let t = l.get_next_token().unwrap().unwrap();
    assert_eq!(text(&t), "abc".to_string());
    assert_eq!((l.pos, l.cur_column), (4, 6));
    assert!(is_end(&l.get_next_token().unwrap().unwrap()));
}

#[test]
fn line_feed_inside_a_string_begins_no_line() {
    let t = lex("\"a\nb\" c");
    assert_eq!(text(&t[0]), "a\nb".to_string());
    assert_eq!(place(&t[1]), (1, 7));
}

#[test]
fn lines_and_columns_are_counted() {
    let t = lex("a\n\n  b\tc\r\nd");
    assert_eq!(place(&t[0]), (1, 1));
    assert_eq!(place(&t[1]), (3, 3));
    assert_eq!(place(&t[2]), (3, 5));
    assert_eq!(place(&t[3]), (4, 1));
}

#[test]
fn word_takes_as_many_columns_as_bytes() {
    let t = lex("é x");
    assert_eq!(id(&t[0]), "é".to_string());
    assert_eq!(place(&t[1]), (1, 4));
    let t = lex("日本x y");
    assert_eq!(id(&t[0]), "日本x".to_string());
    assert_eq!(place(&t[1]), (1, 9));
}

#[test]
fn letters_beyond_ascii_behind_a_blank_are_passed_over() {
    let t = lex("a é b");
    assert_eq!(t.len(), 3);
    assert_eq!(id(&t[0]), "a".to_string());
    assert_eq!(id(&t[1]), "b".to_string());
    assert_eq!(place(&t[1]), (1, 5));
}

#[test]
fn take_word_reads_the_longest_run() {
    let mut l = Lexer::new(&"aaab".to_string());
    assert_eq!(l.take_word(|c: &char| *c == 'a'), "aaa".to_string());
    assert_eq!(l.pos, 3);
    assert_eq!(l.take_word(|c: &char| *c == 'a'), "".to_string());
    assert_eq!(l.take_word(|_c: &char| true), "b".to_string());
    assert_eq!(l.pos, 4);
    assert_eq!(l.cur_column, 1);
}

#[test]
fn advance_and_new_line_move_the_place() {
    let mut l = Lexer::new(&"".to_string());
    l.iter_advance(5);
    assert_eq!((l.cur_line, l.cur_column), (1, 6));
    l.iter_new_line();
    assert_eq!((l.cur_line, l.cur_column), (2, 1));
}

#[test]
fn tokens_stand_for_terminals() {
    let t = lex("x = 1");
    let names: Vec<String> = t.iter().map(|t| t.to_symbol().text).collect();
    assert_eq!(
        names,
        vec!["id".to_string(), "=".to_string(), "num".to_string(), "eof".to_string()]
    );
}
