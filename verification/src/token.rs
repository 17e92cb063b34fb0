use crate::driver::{Lookahead, LookaheadView};
use crate::symbol::Symbol;
use vstd::prelude::*;
use vstd::string::StringExecFns;

verus! {

/// The operators, the delimiters and the reserved words of the language.
#[allow(non_camel_case_types)]
#[derive(Clone, Copy, Debug, PartialEq, Eq, Hash, Structural)]
pub enum KeyWord {
    /// `+`
    ADD,
    /// binary `-`
    SUB,
    /// `*`
    MUL,
    /// `/`
    DIV,
    /// `%`
    MOD,
    /// `^`
    POW,
    /// `=`
    ASS,
    /// `==`
    EQU,
    /// `~=`
    NEQ,
    /// `>`
    GR,
    /// `<`
    LE,
    /// `>=`
    GRE,
    /// `<=`
    LEE,
    /// `..`
    CON,
    /// `.`
    DOT,
    /// `and`
    AND,
    /// `or`
    OR,
    /// `#`
    LEN,
    /// unary `-`
    MIN,
    /// `not`
    NOT,
    /// `(`
    LSM,
    /// `)`
    RSM,
    /// `[`
    LMI,
    /// `]`
    RMI,
    /// `{`
    LLA,
    /// `}`
    RLA,
    /// `,`
    COM,
    /// `;`
    SEM,
    /// `break`
    BRK,
    /// `do`
    DO,
    /// `else`
    ELS,
    /// `elseif`
    ELI,
    /// `end`
    END,
    /// `false`
    FAL,
    /// `for`
    FOR,
    /// `function`
    FUN,
    /// `if`
    IF,
    /// `in`
    IN,
    /// `local`
    LOC,
    /// `nil`
    NIL,
    /// `repeat`
    REP,
    /// `return`
    RET,
    /// `then`
    THE,
    /// `true`
    TRU,
    /// `until`
    UNT,
    /// `while`
    WHI,
}

/// The operators that stand between two operands, the comma among them.
pub open spec fn binary_operator(k: KeyWord) -> bool {
    k == KeyWord::ADD
        || k == KeyWord::SUB
        || k == KeyWord::MUL
        || k == KeyWord::DIV
        || k == KeyWord::MOD
        || k == KeyWord::POW
        || k == KeyWord::ASS
        || k == KeyWord::EQU
        || k == KeyWord::NEQ
        || k == KeyWord::GR
        || k == KeyWord::LE
        || k == KeyWord::GRE
        || k == KeyWord::LEE
        || k == KeyWord::CON
        || k == KeyWord::DOT
        || k == KeyWord::COM
        || k == KeyWord::AND
        || k == KeyWord::OR
}

/// The operators that stand before one operand.
pub open spec fn unique_operator(k: KeyWord) -> bool {
    k == KeyWord::LEN || k == KeyWord::MIN || k == KeyWord::NOT
}

/// The brackets of all three kinds.
pub open spec fn divide_operator(k: KeyWord) -> bool {
    k == KeyWord::LSM
        || k == KeyWord::RSM
        || k == KeyWord::LMI
        || k == KeyWord::RMI
        || k == KeyWord::LLA
        || k == KeyWord::RLA
}

/// How a key word is written.
pub open spec fn display_str(k: KeyWord) -> Seq<char> {
    match k {
        KeyWord::ADD => "+"@,
        KeyWord::SUB => "-"@,
        KeyWord::MUL => "*"@,
        KeyWord::DIV => "/"@,
        KeyWord::MOD => "%"@,
        KeyWord::POW => "^"@,
        KeyWord::ASS => "="@,
        KeyWord::EQU => "=="@,
        KeyWord::NEQ => "~="@,
        KeyWord::GR => ">"@,
        KeyWord::LE => "<"@,
        KeyWord::GRE => ">="@,
        KeyWord::LEE => "<="@,
        KeyWord::CON => ".."@,
        KeyWord::DOT => "."@,
        KeyWord::AND => "and"@,
        KeyWord::OR => "or"@,
        KeyWord::LEN => "#"@,
        KeyWord::MIN => "-"@,
        KeyWord::NOT => "not"@,
        KeyWord::LSM => "("@,
        KeyWord::RSM => ")"@,
        KeyWord::LMI => "["@,
        KeyWord::RMI => "]"@,
        KeyWord::LLA => "{"@,
        KeyWord::RLA => "}"@,
        KeyWord::COM => ","@,
        KeyWord::SEM => ";"@,
        KeyWord::BRK => "break"@,
        KeyWord::DO => "do"@,
        KeyWord::ELS => "else"@,
        KeyWord::ELI => "elseif"@,
        KeyWord::END => "end"@,
        KeyWord::FAL => "false"@,
        KeyWord::FOR => "for"@,
        KeyWord::FUN => "function"@,
        KeyWord::IF => "if"@,
        KeyWord::IN => "in"@,
        KeyWord::LOC => "local"@,
        KeyWord::NIL => "nil"@,
        KeyWord::REP => "repeat"@,
        KeyWord::RET => "return"@,
        KeyWord::THE => "then"@,
        KeyWord::TRU => "true"@,
        KeyWord::UNT => "until"@,
        KeyWord::WHI => "while"@,
    }
}

impl KeyWord {
    pub fn is_binary_operator(&self) -> (r: bool)
        ensures
            r == binary_operator(*self),
    {
        match *self {
            KeyWord::ADD
            | KeyWord::SUB
            | KeyWord::MUL
            | KeyWord::DIV
            | KeyWord::MOD
            | KeyWord::POW
            | KeyWord::ASS
            | KeyWord::EQU
            | KeyWord::NEQ
            | KeyWord::GR
            | KeyWord::LE
            | KeyWord::GRE
            | KeyWord::LEE
            | KeyWord::CON
            | KeyWord::DOT
            | KeyWord::COM
            | KeyWord::AND
            | KeyWord::OR => true,
            _ => false,
        }
    }

    pub fn is_unique_operator(&self) -> (r: bool)
        ensures
            r == unique_operator(*self),
    {
        match *self {
            KeyWord::LEN | KeyWord::MIN | KeyWord::NOT => true,
            _ => false,
        }
    }

    pub fn is_divide_operator(&self) -> (r: bool)
        ensures
            r == divide_operator(*self),
    {
        match *self {
            KeyWord::LSM
            | KeyWord::RSM
            | KeyWord::LMI
            | KeyWord::RMI
            | KeyWord::LLA
            | KeyWord::RLA => true,
            _ => false,
        }
    }

    pub fn get_display_str(&self) -> (r: &'static str)
        ensures
            r@ == display_str(*self),
    {
        match *self {
            KeyWord::ADD => "+",
            KeyWord::SUB => "-",
            KeyWord::MUL => "*",
            KeyWord::DIV => "/",
            KeyWord::MOD => "%",
            KeyWord::POW => "^",
            KeyWord::ASS => "=",
            KeyWord::EQU => "==",
            KeyWord::NEQ => "~=",
            KeyWord::GR => ">",
            KeyWord::LE => "<",
            KeyWord::GRE => ">=",
            KeyWord::LEE => "<=",
            KeyWord::CON => "..",
            KeyWord::DOT => ".",
            KeyWord::AND => "and",
            KeyWord::OR => "or",
            KeyWord::LEN => "#",
            KeyWord::MIN => "-",
            KeyWord::NOT => "not",
            KeyWord::LSM => "(",
            KeyWord::RSM => ")",
            KeyWord::LMI => "[",
            KeyWord::RMI => "]",
            KeyWord::LLA => "{",
            KeyWord::RLA => "}",
            KeyWord::COM => ",",
            KeyWord::SEM => ";",
            KeyWord::BRK => "break",
            KeyWord::DO => "do",
            KeyWord::ELS => "else",
            KeyWord::ELI => "elseif",
            KeyWord::END => "end",
            KeyWord::FAL => "false",
            KeyWord::FOR => "for",
            KeyWord::FUN => "function",
            KeyWord::IF => "if",
            KeyWord::IN => "in",
            KeyWord::LOC => "local",
            KeyWord::NIL => "nil",
            KeyWord::REP => "repeat",
            KeyWord::RET => "return",
            KeyWord::THE => "then",
            KeyWord::TRU => "true",
            KeyWord::UNT => "until",
            KeyWord::WHI => "while",
        }
    }
}

/// No spelling stands twice in the list.
pub open spec fn distinct_spellings(entries: Seq<(Seq<char>, KeyWord)>) -> bool {
    forall|i: int, j: int|
        #![trigger entries[i], entries[j]]
        0 <= i < j < entries.len() ==> entries[i].0 != entries[j].0
}

/// A list of spellings with the key word each stands for. Of two entries
/// with one spelling the later one counts.
pub open spec fn spellings(entries: Seq<(String, KeyWord)>) -> Seq<(Seq<char>, KeyWord)> {
    Seq::new(entries.len(), |i: int| (entries[i].0@, entries[i].1))
}

/// The key word that a list gives for a spelling: that of the last entry
/// with this spelling.
pub open spec fn key_word_of(entries: Seq<(Seq<char>, KeyWord)>, text: Seq<char>) -> Option<KeyWord>
    decreases entries.len(),
{
    if entries.len() == 0 {
        None
    } else if entries.last().0 == text {
        Some(entries.last().1)
    } else {
        key_word_of(entries.drop_last(), text)
    }
}

/// The spellings of the operators and delimiters, each once. The minus
/// sign spells the unary operator.
pub open spec fn operator_spellings() -> Seq<(Seq<char>, KeyWord)> {
    seq![
        ("+"@, KeyWord::ADD),
        ("*"@, KeyWord::MUL),
        ("/"@, KeyWord::DIV),
        ("%"@, KeyWord::MOD),
        ("^"@, KeyWord::POW),
        ("="@, KeyWord::ASS),
        ("=="@, KeyWord::EQU),
        ("~="@, KeyWord::NEQ),
        (">"@, KeyWord::GR),
        ("<"@, KeyWord::LE),
        (">="@, KeyWord::GRE),
        ("<="@, KeyWord::LEE),
        (".."@, KeyWord::CON),
        ("."@, KeyWord::DOT),
        ("and"@, KeyWord::AND),
        ("or"@, KeyWord::OR),
        ("#"@, KeyWord::LEN),
        ("-"@, KeyWord::MIN),
        ("not"@, KeyWord::NOT),
        ("("@, KeyWord::LSM),
        (")"@, KeyWord::RSM),
        ("["@, KeyWord::LMI),
        ("]"@, KeyWord::RMI),
        ("{"@, KeyWord::LLA),
        ("}"@, KeyWord::RLA),
        (","@, KeyWord::COM),
        (";"@, KeyWord::SEM),
    ]
}

/// A number made of the length of a text and of its first three
/// characters: texts with different numbers differ.
pub open spec fn spelling_code(t: Seq<char>) -> int {
    t.len() * 0x1000000 + (if t.len() > 0 {
        t[0] as int
    } else {
        0
    }) * 0x10000 + (if t.len() > 1 {
        t[1] as int
    } else {
        0
    }) * 0x100 + (if t.len() > 2 {
        t[2] as int
    } else {
        0
    })
}

/// No operator or delimiter is spelled like another.
pub proof fn lemma_operator_spellings_distinct()
    ensures
        distinct_spellings(operator_spellings()),
{
    let s = operator_spellings();
    reveal_strlit("+");
    reveal_strlit("*");
    reveal_strlit("/");
    reveal_strlit("%");
    reveal_strlit("^");
    reveal_strlit("=");
    reveal_strlit("==");
    reveal_strlit("~=");
    reveal_strlit(">");
    reveal_strlit("<");
    reveal_strlit(">=");
    reveal_strlit("<=");
    reveal_strlit("..");
    reveal_strlit(".");
    reveal_strlit("and");
    reveal_strlit("or");
    reveal_strlit("#");
    reveal_strlit("-");
    reveal_strlit("not");
    reveal_strlit("(");
    reveal_strlit(")");
    reveal_strlit("[");
    reveal_strlit("]");
    reveal_strlit("{");
    reveal_strlit("}");
    reveal_strlit(",");
    reveal_strlit(";");
    assert(spelling_code(s[0].0) == 19595264);
    assert(spelling_code(s[1].0) == 19529728);
    assert(spelling_code(s[2].0) == 19857408);
    assert(spelling_code(s[3].0) == 19202048);
    assert(spelling_code(s[4].0) == 22937600);
    assert(spelling_code(s[5].0) == 20774912);
    assert(spelling_code(s[6].0) == 37567744);
    assert(spelling_code(s[7].0) == 41827584);
    assert(spelling_code(s[8].0) == 20840448);
    assert(spelling_code(s[9].0) == 20709376);
    assert(spelling_code(s[10].0) == 37633280);
    assert(spelling_code(s[11].0) == 37502208);
    assert(spelling_code(s[12].0) == 36580864);
    assert(spelling_code(s[13].0) == 19791872);
    assert(spelling_code(s[14].0) == 56716900);
    assert(spelling_code(s[15].0) == 40858112);
    assert(spelling_code(s[16].0) == 19070976);
    assert(spelling_code(s[17].0) == 19726336);
    assert(spelling_code(s[18].0) == 57569140);
    assert(spelling_code(s[19].0) == 19398656);
    assert(spelling_code(s[20].0) == 19464192);
    assert(spelling_code(s[21].0) == 22740992);
    assert(spelling_code(s[22].0) == 22872064);
    assert(spelling_code(s[23].0) == 24838144);
    assert(spelling_code(s[24].0) == 24969216);
    assert(spelling_code(s[25].0) == 19660800);
    assert(spelling_code(s[26].0) == 20643840);
    assert forall|i: int, j: int|
        #![trigger s[i], s[j]]
        0 <= i < j < s.len() implies s[i].0 != s[j].0 by {
        assert(spelling_code(s[i].0) != spelling_code(s[j].0));
    }
}

/// The spellings of the operators and delimiters, each once. The minus
/// sign spells the unary operator.
pub fn get_opt_map() -> (r: Vec<(String, KeyWord)>)
    ensures
        spellings(r@) == operator_spellings(),
        distinct_spellings(spellings(r@)),
{
    let mut r: Vec<(String, KeyWord)> = Vec::new();
    r.push((String::from_str("+"), KeyWord::ADD));
    r.push((String::from_str("*"), KeyWord::MUL));
    r.push((String::from_str("/"), KeyWord::DIV));
    r.push((String::from_str("%"), KeyWord::MOD));
    r.push((String::from_str("^"), KeyWord::POW));
    r.push((String::from_str("="), KeyWord::ASS));
    r.push((String::from_str("=="), KeyWord::EQU));
    r.push((String::from_str("~="), KeyWord::NEQ));
    r.push((String::from_str(">"), KeyWord::GR));
    r.push((String::from_str("<"), KeyWord::LE));
    r.push((String::from_str(">="), KeyWord::GRE));
    r.push((String::from_str("<="), KeyWord::LEE));
    r.push((String::from_str(".."), KeyWord::CON));
    r.push((String::from_str("."), KeyWord::DOT));
    r.push((String::from_str("and"), KeyWord::AND));
    r.push((String::from_str("or"), KeyWord::OR));
    r.push((String::from_str("#"), KeyWord::LEN));
    r.push((String::from_str("-"), KeyWord::MIN));
    r.push((String::from_str("not"), KeyWord::NOT));
    r.push((String::from_str("("), KeyWord::LSM));
    r.push((String::from_str(")"), KeyWord::RSM));
    r.push((String::from_str("["), KeyWord::LMI));
    r.push((String::from_str("]"), KeyWord::RMI));
    r.push((String::from_str("{"), KeyWord::LLA));
    r.push((String::from_str("}"), KeyWord::RLA));
    r.push((String::from_str(","), KeyWord::COM));
    r.push((String::from_str(";"), KeyWord::SEM));
    assert(spellings(r@) =~= operator_spellings());
    proof {
        lemma_operator_spellings_distinct();
    }
    r
}

/// The reserved words.
pub open spec fn reserved_words() -> Seq<(Seq<char>, KeyWord)> {
    seq![
        ("break"@, KeyWord::BRK),
        ("do"@, KeyWord::DO),
        ("else"@, KeyWord::ELS),
        ("elseif"@, KeyWord::ELI),
        ("end"@, KeyWord::END),
        ("false"@, KeyWord::FAL),
        ("for"@, KeyWord::FOR),
        ("function"@, KeyWord::FUN),
        ("if"@, KeyWord::IF),
        ("in"@, KeyWord::IN),
        ("local"@, KeyWord::LOC),
        ("nil"@, KeyWord::NIL),
        ("repeat"@, KeyWord::REP),
        ("return"@, KeyWord::RET),
        ("then"@, KeyWord::THE),
        ("true"@, KeyWord::TRU),
        ("until"@, KeyWord::UNT),
        ("while"@, KeyWord::WHI),
    ]
}

/// No reserved word is spelled like another.
pub proof fn lemma_reserved_words_distinct()
    ensures
        distinct_spellings(reserved_words()),
{
    let s = reserved_words();
    reveal_strlit("break");
    reveal_strlit("do");
    reveal_strlit("else");
    reveal_strlit("elseif");
    reveal_strlit("end");
    reveal_strlit("false");
    reveal_strlit("for");
    reveal_strlit("function");
    reveal_strlit("if");
    reveal_strlit("in");
    reveal_strlit("local");
    reveal_strlit("nil");
    reveal_strlit("repeat");
    reveal_strlit("return");
    reveal_strlit("then");
    reveal_strlit("true");
    reveal_strlit("until");
    reveal_strlit("while");
    assert(spelling_code(s[0].0) == 90337893);
    assert(spelling_code(s[1].0) == 40136448);
    assert(spelling_code(s[2].0) == 73755763);
    assert(spelling_code(s[3].0) == 107310195);
    assert(spelling_code(s[4].0) == 56979044);
    assert(spelling_code(s[5].0) == 90595692);
    assert(spelling_code(s[6].0) == 57044850);
    assert(spelling_code(s[7].0) == 140932462);
    assert(spelling_code(s[8].0) == 40461824);
    assert(spelling_code(s[9].0) == 40463872);
    assert(spelling_code(s[10].0) == 90992483);
    assert(spelling_code(s[11].0) == 57567596);
    assert(spelling_code(s[12].0) == 108160368);
    assert(spelling_code(s[13].0) == 108160372);
    assert(spelling_code(s[14].0) == 74737765);
    assert(spelling_code(s[15].0) == 74740341);
    assert(spelling_code(s[16].0) == 91582068);
    assert(spelling_code(s[17].0) == 91711593);
    assert forall|i: int, j: int|
        #![trigger s[i], s[j]]
        0 <= i < j < s.len() implies s[i].0 != s[j].0 by {
        assert(spelling_code(s[i].0) != spelling_code(s[j].0));
    }
}

/// The reserved words.
pub fn get_key_word_map() -> (r: Vec<(String, KeyWord)>)
    ensures
        spellings(r@) == reserved_words(),
        distinct_spellings(spellings(r@)),
{
    let mut r: Vec<(String, KeyWord)> = Vec::new();
    r.push((String::from_str("break"), KeyWord::BRK));
    r.push((String::from_str("do"), KeyWord::DO));
    r.push((String::from_str("else"), KeyWord::ELS));
    r.push((String::from_str("elseif"), KeyWord::ELI));
    r.push((String::from_str("end"), KeyWord::END));
    r.push((String::from_str("false"), KeyWord::FAL));
    r.push((String::from_str("for"), KeyWord::FOR));
    r.push((String::from_str("function"), KeyWord::FUN));
    r.push((String::from_str("if"), KeyWord::IF));
    r.push((String::from_str("in"), KeyWord::IN));
    r.push((String::from_str("local"), KeyWord::LOC));
    r.push((String::from_str("nil"), KeyWord::NIL));
    r.push((String::from_str("repeat"), KeyWord::REP));
    r.push((String::from_str("return"), KeyWord::RET));
    r.push((String::from_str("then"), KeyWord::THE));
    r.push((String::from_str("true"), KeyWord::TRU));
    r.push((String::from_str("until"), KeyWord::UNT));
    r.push((String::from_str("while"), KeyWord::WHI));
    assert(spellings(r@) =~= reserved_words());
    proof {
        lemma_reserved_words_distinct();
    }
    r
}

/// The key word that the list gives for `text`.
pub fn find_key_word(entries: &Vec<(String, KeyWord)>, text: &String) -> (r: Option<KeyWord>)
    ensures
        r == key_word_of(spellings(entries@), text@),
{
    let mut i: usize = entries.len();
    assert(spellings(entries@).take(i as int) =~= spellings(entries@));
    while i > 0
        invariant
            i <= entries.len(),
            key_word_of(spellings(entries@), text@) == key_word_of(
                spellings(entries@).take(i as int),
                text@,
            ),
        decreases i,
    {
        let ghost part = spellings(entries@).take(i as int);
        assert(part.drop_last() =~= spellings(entries@).take(i - 1));
        assert(part.last() == (entries[i - 1].0@, entries[i - 1].1));
        if entries[i - 1].0 == *text {
            return Some(entries[i - 1].1);
        }
        i -= 1;
    }
    None
}

/// What kind of token a piece of source text is. A number is held as the
/// text of its numeral.
#[derive(Debug)]
pub enum TokenType {
    OptKeyWord(KeyWord),
    ID(String),
    String(String),
    Number(String),
    EOF,
}

/// The mathematical value of the kind of a token.
pub enum KindView {
    OptKeyWord(KeyWord),
    ID(Seq<char>),
    Text(Seq<char>),
    Number(Seq<char>),
    EOF,
}

impl View for TokenType {
    type V = KindView;

    open spec fn view(&self) -> KindView {
        match *self {
            TokenType::OptKeyWord(k) => KindView::OptKeyWord(k),
            TokenType::ID(s) => KindView::ID(s@),
            TokenType::String(s) => KindView::Text(s@),
            TokenType::Number(s) => KindView::Number(s@),
            TokenType::EOF => KindView::EOF,
        }
    }
}

impl From<KeyWord> for TokenType {
    fn from(key_word: KeyWord) -> (r: TokenType) {
        TokenType::OptKeyWord(key_word)
    }
}

impl vstd::std_specs::convert::FromSpecImpl<KeyWord> for TokenType {
    open spec fn obeys_from_spec() -> bool {
        true
    }

    open spec fn from_spec(key_word: KeyWord) -> TokenType {
        TokenType::OptKeyWord(key_word)
    }
}

/// The name of the terminal that a token of this kind stands for.
pub open spec fn terminal_name(t: TokenType) -> Seq<char> {
    match t {
        TokenType::OptKeyWord(k) => display_str(k),
        TokenType::Number(_) => "num"@,
        TokenType::String(_) => "str"@,
        TokenType::ID(_) => "id"@,
        TokenType::EOF => "eof"@,
    }
}

impl TokenType {
    /// The name of the terminal that a token of this kind stands for: the
    /// spelling of a key word, and `num`, `str`, `id` or `eof`.
    pub fn to_str(&self) -> (r: &'static str)
        ensures
            r@ == terminal_name(*self),
    {
        match self {
            TokenType::OptKeyWord(key_word) => key_word.get_display_str(),
            TokenType::Number(_) => "num",
            TokenType::String(_) => "str",
            TokenType::ID(_) => "id",
            TokenType::EOF => "eof",
        }
    }
}

/// A token: its kind, its text, and the line and column where it begins.
#[derive(Debug)]
pub struct Token {
    pub type_id: TokenType,
    pub raw_data: String,
    pub line: usize,
    pub column: usize,
}

/// The mathematical value of a token.
pub struct TokenView {
    pub kind: KindView,
    pub raw: Seq<char>,
    pub line: usize,
    pub column: usize,
}

impl View for Token {
    type V = TokenView;

    open spec fn view(&self) -> TokenView {
        TokenView {
            kind: self.type_id@,
            raw: self.raw_data@,
            line: self.line,
            column: self.column,
        }
    }
}

impl Token {
    pub fn new(type_id: TokenType, raw_data: String, line: usize, column: usize) -> (r: Token)
        ensures
            r.type_id == type_id,
            r.raw_data == raw_data,
            r.line == line,
            r.column == column,
    {
        Token { type_id, raw_data, line, column }
    }

    /// The name of an identifier token.
    pub fn get_id(&self) -> (r: Option<&String>)
        ensures
            match self.type_id {
                TokenType::ID(id) => r == Some(&id),
                _ => r.is_none(),
            },
    {
        match &self.type_id {
            TokenType::ID(id) => Some(id),
            _ => None,
        }
    }

    /// The numeral of a number token.
    pub fn get_num(&self) -> (r: Option<&String>)
        ensures
            match self.type_id {
                TokenType::Number(num) => r == Some(&num),
                _ => r.is_none(),
            },
    {
        match &self.type_id {
            TokenType::Number(num) => Some(num),
            _ => None,
        }
    }

    /// The key word of an operator or reserved-word token.
    pub fn get_key_word(&self) -> (r: Option<&KeyWord>)
        ensures
            match self.type_id {
                TokenType::OptKeyWord(key) => r == Some(&key),
                _ => r.is_none(),
            },
    {
        match &self.type_id {
            TokenType::OptKeyWord(key) => Some(key),
            _ => None,
        }
    }

    /// The terminal that the token stands for.
    pub fn to_symbol(&self) -> (r: Symbol)
        ensures
            r@ == terminal_name(self.type_id),
    {
        Symbol { text: String::from_str(self.type_id.to_str()) }
    }

    /// The token as the parser sees it: its terminal and its place.
    pub fn to_lookahead(&self) -> (r: Lookahead)
        ensures
            r@ == (LookaheadView {
                symbol: terminal_name(self.type_id),
                line: self.line,
                column: self.column,
            }),
    {
        Lookahead { symbol: self.to_symbol(), line: self.line, column: self.column }
    }

    /// The token that ends every token stream.
    pub fn eof() -> (r: Token)
        ensures
            r.type_id == TokenType::EOF,
            r.raw_data@ == Seq::<char>::empty(),
            r.line == 0,
            r.column == 0,
    {
        Token { type_id: TokenType::EOF, raw_data: String::new(), line: 0, column: 0 }
    }
}

/// Two tokens are the same when their texts are.
impl PartialEq for Token {
    fn eq(&self, token: &Token) -> (r: bool) {
        token.raw_data == self.raw_data
    }
}

impl vstd::std_specs::cmp::PartialEqSpecImpl for Token {
    open spec fn obeys_eq_spec() -> bool {
        true
    }

    open spec fn eq_spec(&self, token: &Token) -> bool {
        token.raw_data@ == self.raw_data@
    }
}

/// A key word is a token when the token is of its kind.
impl PartialEq<Token> for KeyWord {
    fn eq(&self, token: &Token) -> (r: bool) {
        match token.type_id {
            TokenType::OptKeyWord(key_word) => key_word == *self,
            _ => false,
        }
    }
}

impl vstd::std_specs::cmp::PartialEqSpecImpl<Token> for KeyWord {
    open spec fn obeys_eq_spec() -> bool {
        true
    }

    open spec fn eq_spec(&self, token: &Token) -> bool {
        token.type_id@ == KindView::OptKeyWord(*self)
    }
}

/// A token is a symbol when it stands for the terminal of that name.
impl PartialEq<Symbol> for Token {
    fn eq(&self, symbol: &Symbol) -> (r: bool) {
        self.to_symbol() == *symbol
    }
}

impl vstd::std_specs::cmp::PartialEqSpecImpl<Symbol> for Token {
    open spec fn obeys_eq_spec() -> bool {
        true
    }

    open spec fn eq_spec(&self, symbol: &Symbol) -> bool {
        terminal_name(self.type_id) == symbol@
    }
}

} // verus!
