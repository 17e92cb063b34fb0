use crate::chars::{char_is_alphanumeric, char_is_numeric, string_of, to_chars};
use crate::token::{
    find_key_word, get_key_word_map, get_opt_map, key_word_of, operator_spellings,
    reserved_words, spellings, KeyWord, KindView, Token, TokenType, TokenView,
};
use vstd::prelude::*;
use vstd::string::StrSliceExecFns;
use vstd::string::StringExecFns;
use vstd::utf8::{encode_scalar, encode_utf8};

verus! {

/// A character of the visible part of ASCII, `!` to `~`.
pub open spec fn graphic(c: char) -> bool {
    '!' <= c && c <= '~'
}

/// A character of an identifier or reserved word.
pub open spec fn id_char(c: char) -> bool {
    char_is_alphanumeric(c) || c == '_'
}

/// A character of a numeral.
pub open spec fn num_char(c: char) -> bool {
    char_is_alphanumeric(c) || c == '.' || c == '_'
}

/// A character inside a string.
pub open spec fn str_char(c: char) -> bool {
    c != '"'
}

/// The condition [`id_char`] as a value.
pub open spec fn id_class() -> spec_fn(char) -> bool {
    |c: char| id_char(c)
}

/// The condition [`num_char`] as a value.
pub open spec fn num_class() -> spec_fn(char) -> bool {
    |c: char| num_char(c)
}

/// The condition [`str_char`] as a value.
pub open spec fn str_class() -> spec_fn(char) -> bool {
    |c: char| str_char(c)
}

/// The number of bytes that the text takes in UTF-8.
pub open spec fn byte_len(text: Seq<char>) -> nat {
    encode_utf8(text).len()
}

/// How many characters at the front of `rest` meet the condition.
pub open spec fn run_len(rest: Seq<char>, class: spec_fn(char) -> bool) -> nat
    decreases rest.len(),
{
    if rest.len() > 0 && class(rest[0]) {
        1 + run_len(rest.skip(1), class)
    } else {
        0
    }
}

/// Where a lexer stands: the text not yet read, the line and column of its
/// first character, and whether the end token was given out.
pub struct Scan {
    pub rest: Seq<char>,
    pub line: int,
    pub column: int,
    pub eof: bool,
}

/// What the lexer is doing between two tokens.
pub enum Mode {
    /// It is about to read a token.
    Start,
    /// It is passing over characters outside the visible part of ASCII.
    Blank,
    /// It is passing over the rest of a comment line.
    Comment,
}

pub open spec fn mode_rank(mode: Mode) -> nat {
    match mode {
        Mode::Start => 0,
        Mode::Blank => 1,
        Mode::Comment => 2,
    }
}

/// What a request for the next token gives.
pub enum Lexed {
    /// A token.
    Token(TokenView),
    /// Nothing: the end token was given out before.
    End,
    /// A failure: no operator begins at this line and column.
    Unknown { line: int, column: int },
}

/// Why the lexer stopped.
#[derive(Clone, Copy, Debug, PartialEq, Eq, Structural)]
pub enum LexError {
    /// No operator begins at this line and column.
    UnknownOperator { line: usize, column: usize },
}

/// The scan after `n` characters of one line, that take `width` columns.
pub open spec fn moved(s: Scan, n: int, width: int) -> Scan {
    Scan { rest: s.rest.skip(n), line: s.line, column: s.column + width, eof: s.eof }
}

/// The scan at the first character of the next line, `n` characters on.
pub open spec fn next_line(s: Scan, n: int) -> Scan {
    Scan { rest: s.rest.skip(n), line: s.line + 1, column: 1, eof: s.eof }
}

/// The token of this kind and text that begins where the scan stands.
pub open spec fn token_at(s: Scan, kind: KindView, raw: Seq<char>) -> TokenView {
    TokenView { kind, raw, line: s.line as usize, column: s.column as usize }
}

/// The end token.
pub open spec fn end_token() -> TokenView {
    TokenView { kind: KindView::EOF, raw: Seq::empty(), line: 0, column: 0 }
}

/// The first `len` characters of the text, or all of it if it is shorter.
pub open spec fn front(rest: Seq<char>, len: int) -> Seq<char> {
    if len <= rest.len() {
        rest.take(len)
    } else {
        rest
    }
}

/// The key word that an identifier spells, or the identifier itself.
pub open spec fn word_kind(word: Seq<char>) -> KindView {
    match key_word_of(reserved_words(), word) {
        Some(k) => KindView::OptKeyWord(k),
        None => KindView::ID(word),
    }
}

/// The operator that begins the text: the longest of at most three
/// characters that is a spelling of one, the text itself counting for any
/// length it falls short of. The column moves on by the length tried.
pub open spec fn operator_token(s: Scan) -> (Lexed, Scan) {
    let three = key_word_of(operator_spellings(), front(s.rest, 3));
    let two = key_word_of(operator_spellings(), front(s.rest, 2));
    let one = key_word_of(operator_spellings(), front(s.rest, 1));
    if three is Some {
        (
            Lexed::Token(token_at(s, KindView::OptKeyWord(three->0), front(s.rest, 3))),
            moved(s, front(s.rest, 3).len() as int, 3),
        )
    } else if two is Some {
        (
            Lexed::Token(token_at(s, KindView::OptKeyWord(two->0), front(s.rest, 2))),
            moved(s, front(s.rest, 2).len() as int, 2),
        )
    } else if one is Some {
        (
            Lexed::Token(token_at(s, KindView::OptKeyWord(one->0), front(s.rest, 1))),
            moved(s, front(s.rest, 1).len() as int, 1),
        )
    } else {
        (Lexed::Unknown { line: s.line, column: s.column }, s)
    }
}

/// The next token from where the scan stands, and the scan behind it.
///
/// At the end of the text the end token is given once, then nothing. A
/// numeric character begins a numeral, the longest run of alphanumeric
/// characters, dots and underscores. An alphanumeric character or an
/// underscore begins a word, the longest run of such characters: a
/// reserved word or an identifier. A double quote begins a string, which
/// runs to the next double quote or to the end of the text. Words take as
/// many columns as they have bytes, a string two more. Characters outside
/// the visible part of ASCII are passed over, one column each, a line feed
/// beginning a new line. Two minus signs begin a comment that runs to the
/// end of the line; one alone is the binary minus. Anything else must begin
/// an operator.
pub open spec fn next_from(s: Scan, mode: Mode) -> (Lexed, Scan)
    decreases s.rest.len(), mode_rank(mode),
{
    match mode {
        Mode::Comment => {
            if s.rest.len() == 0 {
                next_from(next_line(s, 0), Mode::Start)
            } else if s.rest[0] == '\n' {
                next_from(next_line(s, 1), Mode::Start)
            } else {
                next_from(moved(s, 1, 0), Mode::Comment)
            }
        },
        Mode::Blank => {
            if s.rest.len() > 0 && s.rest[0] == '\n' {
                next_from(next_line(s, 1), Mode::Blank)
            } else if s.rest.len() > 0 && !graphic(s.rest[0]) {
                next_from(moved(s, 1, 1), Mode::Blank)
            } else {
                next_from(s, Mode::Start)
            }
        },
        Mode::Start => {
            if s.rest.len() == 0 {
                if s.eof {
                    (Lexed::End, s)
                } else {
                    (
                        Lexed::Token(end_token()),
                        Scan { rest: s.rest, line: s.line, column: s.column, eof: true },
                    )
                }
            } else {
                let c = s.rest[0];
                if char_is_numeric(c) {
                    let n = run_len(s.rest, num_class()) as int;
                    let word = s.rest.take(n);
                    (
                        Lexed::Token(token_at(s, KindView::Number(word), word)),
                        moved(s, n, byte_len(word) as int),
                    )
                } else if id_char(c) {
                    let n = run_len(s.rest, id_class()) as int;
                    let word = s.rest.take(n);
                    (
                        Lexed::Token(token_at(s, word_kind(word), word)),
                        moved(s, n, byte_len(word) as int),
                    )
                } else if c == '"' {
                    let inner = s.rest.skip(1);
                    let n = run_len(inner, str_class()) as int;
                    let text = inner.take(n);
                    let used = if n < inner.len() {
                        n + 2
                    } else {
                        n + 1
                    };
                    (
                        Lexed::Token(token_at(s, KindView::Text(text), text)),
                        moved(s, used, byte_len(text) as int + 2),
                    )
                } else if c == '\n' {
                    next_from(next_line(s, 1), Mode::Blank)
                } else if !graphic(c) {
                    next_from(moved(s, 1, 1), Mode::Blank)
                } else if c == '-' {
                    if s.rest.len() > 1 && s.rest[1] == '-' {
                        next_from(moved(s, 2, 1), Mode::Comment)
                    } else {
                        (
                            Lexed::Token(
                                token_at(s, KindView::OptKeyWord(KeyWord::SUB), seq!['-']),
                            ),
                            moved(s, 1, 1),
                        )
                    }
                } else {
                    operator_token(s)
                }
            }
        },
    }
}

/// The scan behind a comment: at the first character of the next line, or
/// at the end of the text, which counts as a new line too.
pub open spec fn after_comment(s: Scan) -> Scan
    decreases s.rest.len(),
{
    if s.rest.len() == 0 {
        next_line(s, 0)
    } else if s.rest[0] == '\n' {
        next_line(s, 1)
    } else {
        after_comment(moved(s, 1, 0))
    }
}

/// The scan behind the characters outside the visible part of ASCII that
/// the text goes on with.
pub open spec fn after_blank(s: Scan) -> Scan
    decreases s.rest.len(),
{
    if s.rest.len() > 0 && s.rest[0] == '\n' {
        after_blank(next_line(s, 1))
    } else if s.rest.len() > 0 && !graphic(s.rest[0]) {
        after_blank(moved(s, 1, 1))
    } else {
        s
    }
}

/// What the result of a request for a token stands for.
pub open spec fn lexed_of(r: Result<Option<Token>, LexError>) -> Lexed {
    match r {
        Ok(Some(t)) => Lexed::Token(t@),
        Ok(None) => Lexed::End,
        Err(LexError::UnknownOperator { line, column }) => Lexed::Unknown {
            line: line as int,
            column: column as int,
        },
    }
}

/// The scan after `k` requests for a token.
pub open spec fn scan_after(s: Scan, k: nat) -> Scan
    decreases k,
{
    if k == 0 {
        s
    } else {
        next_from(scan_after(s, (k - 1) as nat), Mode::Start).1
    }
}

/// What the request gives that comes after `k` others.
pub open spec fn lexed_at(s: Scan, k: nat) -> Lexed {
    next_from(scan_after(s, k), Mode::Start).0
}

/// A text takes no more than four bytes for each character, and no fewer
/// than one.
pub proof fn lemma_byte_len(text: Seq<char>)
    ensures
        text.len() <= byte_len(text) <= 4 * text.len(),
    decreases text.len(),
{
    if text.len() > 0 {
        lemma_byte_len(text.drop_first());
        let first = encode_scalar(text[0] as u32);
        assert(1 <= first.len() <= 4);
    }
}

/// A run is no longer than the text; it ends at the first character that
/// does not meet the condition.
pub proof fn lemma_run_len(rest: Seq<char>, class: spec_fn(char) -> bool)
    ensures
        run_len(rest, class) <= rest.len(),
        forall|i: int| 0 <= i < run_len(rest, class) ==> class(#[trigger] rest[i]),
        run_len(rest, class) < rest.len() ==> !class(rest[run_len(rest, class) as int]),
    decreases rest.len(),
{
    if rest.len() > 0 && class(rest[0]) {
        let tail = rest.skip(1);
        lemma_run_len(tail, class);
        assert forall|i: int| 0 <= i < run_len(rest, class) implies class(#[trigger] rest[i]) by {
            if i > 0 {
                assert(rest[i] == tail[i - 1]);
            }
        }
        if run_len(rest, class) < rest.len() {
            assert(rest[run_len(rest, class) as int] == tail[run_len(tail, class) as int]);
        }
    }
}

/// A prefix of characters that meet the condition, ended by one that does
/// not or by the end of the text, is the run.
pub proof fn lemma_run_found(rest: Seq<char>, class: spec_fn(char) -> bool, n: int)
    requires
        0 <= n <= rest.len(),
        forall|i: int| 0 <= i < n ==> class(#[trigger] rest[i]),
        n < rest.len() ==> !class(rest[n]),
    ensures
        run_len(rest, class) == n,
    decreases n,
{
    if n > 0 {
        let tail = rest.skip(1);
        assert forall|i: int| 0 <= i < n - 1 implies class(#[trigger] tail[i]) by {
            assert(tail[i] == rest[i + 1]);
        }
        if n - 1 < tail.len() {
            assert(tail[n - 1] == rest[n]);
        }
        lemma_run_found(tail, class, n - 1);
    }
}

/// A lexer: the text, how far it was read, and the line and column of the
/// next character.
pub struct Lexer {
    pub chars: Vec<char>,
    pub pos: usize,
    pub opt_hash_map: Vec<(String, KeyWord)>,
    pub key_word_hash_map: Vec<(String, KeyWord)>,
    pub cur_line: usize,
    pub cur_column: usize,
    pub eof: bool,
}

impl View for Lexer {
    type V = Scan;

    open spec fn view(&self) -> Scan {
        Scan {
            rest: self.chars@.skip(self.pos as int),
            line: self.cur_line as int,
            column: self.cur_column as int,
            eof: self.eof,
        }
    }
}

impl Lexer {
    /// The characters not yet read.
    pub open spec fn left(&self) -> int {
        self.chars.len() - self.pos
    }

    /// The lexer holds the two lists of spellings, and line and column can
    /// still be counted to the end of the text.
    pub open spec fn wf(&self) -> bool {
        &&& self.pos <= self.chars.len()
        &&& self.cur_column + 4 * self.left() + 4 <= usize::MAX
        &&& self.cur_line + self.left() + 1 <= usize::MAX
        &&& spellings(self.opt_hash_map@) == operator_spellings()
        &&& spellings(self.key_word_hash_map@) == reserved_words()
    }

    /// A lexer at the beginning of the text, line 1 and column 1.
    pub fn new(source_code: &String) -> (r: Lexer)
        requires
            4 * source_code@.len() + 5 <= usize::MAX,
        ensures
            r.wf(),
            r@ == (Scan { rest: source_code@, line: 1, column: 1, eof: false }),
    {
        let chars = to_chars(source_code.as_str());
        assert(chars@.skip(0) =~= chars@);
        Lexer {
            chars,
            pos: 0,
            opt_hash_map: get_opt_map(),
            key_word_hash_map: get_key_word_map(),
            cur_line: 1,
            cur_column: 1,
            eof: false,
        }
    }

    /// A lexer at the beginning of the text, unless the text is too long
    /// for its columns to be counted.
    pub fn try_new(source_code: &String) -> (r: Option<Lexer>)
        ensures
            match r {
                Some(lexer) => 4 * source_code@.len() + 5 <= usize::MAX && lexer.wf() && lexer@
                    == (Scan { rest: source_code@, line: 1, column: 1, eof: false }),
                None => 4 * source_code@.len() + 5 > usize::MAX,
            },
    {
        let n = source_code.as_str().unicode_len();
        if n > (usize::MAX - 5) / 4 {
            None
        } else {
            Some(Lexer::new(source_code))
        }
    }

    /// Moves on by `n` columns.
    pub fn iter_advance(&mut self, n: usize)
        requires
            old(self).cur_column + n <= usize::MAX,
        ensures
            final(self).cur_column == old(self).cur_column + n,
            final(self).chars == old(self).chars,
            final(self).pos == old(self).pos,
            final(self).opt_hash_map == old(self).opt_hash_map,
            final(self).key_word_hash_map == old(self).key_word_hash_map,
            final(self).cur_line == old(self).cur_line,
            final(self).eof == old(self).eof,
    {
        self.cur_column += n;
    }

    /// Moves on to the first column of the next line.
    pub fn iter_new_line(&mut self)
        requires
            old(self).cur_line < usize::MAX,
        ensures
            final(self).cur_line == old(self).cur_line + 1,
            final(self).cur_column == 1,
            final(self).chars == old(self).chars,
            final(self).pos == old(self).pos,
            final(self).opt_hash_map == old(self).opt_hash_map,
            final(self).key_word_hash_map == old(self).key_word_hash_map,
            final(self).eof == old(self).eof,
    {
        self.cur_line += 1;
        self.cur_column = 1;
    }

    /// Reads the longest run of characters that pass the filter.
    pub fn take_word<F: Fn(&char) -> bool>(&mut self, filter: F) -> (r: String)
        requires
            old(self).pos <= old(self).chars.len(),
            forall|c: &char| call_requires(filter, (c,)),
        ensures
            final(self).pos == old(self).pos + r@.len(),
            final(self).pos <= old(self).chars.len(),
            r@ == old(self).chars@.subrange(old(self).pos as int, final(self).pos as int),
            forall|i: int|
                old(self).pos <= i < final(self).pos ==> call_ensures(
                    filter,
                    (&old(self).chars[i],),
                    true,
                ),
            final(self).pos < old(self).chars.len() ==> call_ensures(
                filter,
                (&old(self).chars[final(self).pos as int],),
                false,
            ),
            final(self).chars == old(self).chars,
            final(self).opt_hash_map == old(self).opt_hash_map,
            final(self).key_word_hash_map == old(self).key_word_hash_map,
            final(self).cur_line == old(self).cur_line,
            final(self).cur_column == old(self).cur_column,
            final(self).eof == old(self).eof,
    {
        let from = self.pos;
        let mut i: usize = from;
        let mut open = true;
        while open && i < self.chars.len()
            invariant
                from <= i <= self.chars.len(),
                *self == *old(self),
                from == self.pos,
                forall|c: &char| call_requires(filter, (c,)),
                forall|j: int| from <= j < i ==> call_ensures(filter, (&self.chars[j],), true),
                !open ==> i < self.chars.len() && call_ensures(
                    filter,
                    (&self.chars[i as int],),
                    false,
                ),
            decreases
                    self.chars.len() - i,
                    if open {
                        1int
                    } else {
                        0int
                    },
        {
            if filter(&self.chars[i]) {
                i += 1;
            } else {
                open = false;
            }
        }
        let word = string_of(&self.chars, from, i);
        self.pos = i;
        word
    }
}

impl Lexer {
    /// Everything but the place in the text is as before.
    pub open spec fn same_text(&self, other: &Lexer) -> bool {
        &&& self.chars == other.chars
        &&& self.opt_hash_map == other.opt_hash_map
        &&& self.key_word_hash_map == other.key_word_hash_map
    }

    /// Reads a numeral.
    pub fn parse_number(&mut self) -> (r: (TokenType, String))
        requires
            old(self).wf(),
        ensures
            final(self).wf(),
            final(self).same_text(old(self)),
            ({
                let n = run_len(old(self)@.rest, num_class()) as int;
                let word = old(self)@.rest.take(n);
                &&& r.0@ == KindView::Number(word)
                &&& r.1@ == word
                &&& final(self)@ == moved(old(self)@, n, byte_len(word) as int)
                &&& final(self).left() == old(self).left() - n
            }),
    {
        let num_filter = |ch: &char| -> (b: bool)
            ensures
                b == num_char(*ch),
            { ch.is_alphanumeric() || *ch == '.' || *ch == '_' };
        let ghost rest = self@.rest;
        let num_str = self.take_word(num_filter);
        proof {
            let n = num_str@.len() as int;
            assert forall|i: int| 0 <= i < n implies num_class()(#[trigger] rest[i]) by {
                assert(call_ensures(num_filter, (&old(self).chars[old(self).pos + i],), true));
            }
            lemma_run_found(rest, num_class(), n);
            lemma_byte_len(num_str@);
            assert(rest.take(n) =~= num_str@);
            assert(self.chars@.skip(self.pos as int) =~= rest.skip(n));
        }
        self.iter_advance(num_str.as_str().len());
        let number = num_str.clone();
        (TokenType::Number(number), num_str)
    }

    /// Reads a word: a reserved word or an identifier.
    pub fn parse_id(&mut self) -> (r: (TokenType, String))
        requires
            old(self).wf(),
        ensures
            final(self).wf(),
            final(self).same_text(old(self)),
            ({
                let n = run_len(old(self)@.rest, id_class()) as int;
                let word = old(self)@.rest.take(n);
                &&& r.0@ == word_kind(word)
                &&& r.1@ == word
                &&& final(self)@ == moved(old(self)@, n, byte_len(word) as int)
                &&& final(self).left() == old(self).left() - n
            }),
    {
        let char_filter = |ch: &char| -> (b: bool)
            ensures
                b == id_char(*ch),
            { ch.is_alphanumeric() || *ch == '_' };
        let ghost rest = self@.rest;
        let id_str = self.take_word(char_filter);
        proof {
            let n = id_str@.len() as int;
            assert forall|i: int| 0 <= i < n implies id_class()(#[trigger] rest[i]) by {
                assert(call_ensures(char_filter, (&old(self).chars[old(self).pos + i],), true));
            }
            lemma_run_found(rest, id_class(), n);
            lemma_byte_len(id_str@);
            assert(rest.take(n) =~= id_str@);
            assert(self.chars@.skip(self.pos as int) =~= rest.skip(n));
        }
        self.iter_advance(id_str.as_str().len());
        match find_key_word(&self.key_word_hash_map, &id_str) {
            Some(key_word) => (TokenType::OptKeyWord(key_word), id_str),
            None => {
                let name = id_str.clone();
                (TokenType::ID(name), id_str)
            },
        }
    }

    /// Reads a string, from its opening double quote to the closing one or
    /// to the end of the text.
    pub fn parse_str(&mut self) -> (r: (TokenType, String))
        requires
            old(self).wf(),
            old(self).pos < old(self).chars.len(),
        ensures
            final(self).wf(),
            final(self).same_text(old(self)),
            ({
                let inner = old(self)@.rest.skip(1);
                let n = run_len(inner, str_class()) as int;
                let text = inner.take(n);
                let used = if n < inner.len() {
                    n + 2
                } else {
                    n + 1
                };
                &&& r.0@ == KindView::Text(text)
                &&& r.1@ == text
                &&& final(self)@ == moved(old(self)@, used, byte_len(text) as int + 2)
                &&& final(self).left() == old(self).left() - used
            }),
    {
        let str_filter = |ch: &char| -> (b: bool)
            ensures
                b == str_char(*ch),
            { *ch != '"' };
        let ghost rest = self@.rest;
        let ghost inner = rest.skip(1);
        self.pos += 1;
        let ghost at = self.pos;
        assert(self.chars@.skip(self.pos as int) =~= inner);
        let text = self.take_word(str_filter);
        proof {
            let n = text@.len() as int;
            assert forall|i: int| 0 <= i < n implies str_class()(#[trigger] inner[i]) by {
                assert(call_ensures(str_filter, (&old(self).chars[at + i],), true));
            }
            lemma_run_found(inner, str_class(), n);
            lemma_byte_len(text@);
            assert(inner.take(n) =~= text@);
        }
        if self.pos < self.chars.len() {
            self.pos += 1;
        }
        proof {
            assert(self.chars@.skip(self.pos as int) =~= rest.skip(self.pos - old(self).pos));
        }
        self.iter_advance(text.as_str().len() + 2);
        let content = text.clone();
        (TokenType::String(content), text)
    }

    /// Passes over the rest of a comment line, the line feed included.
    pub fn skip_comment(&mut self)
        requires
            old(self).pos <= old(self).chars.len(),
            old(self).cur_line + old(self).left() + 2 <= usize::MAX,
            4 * old(self).left() + 5 <= usize::MAX,
            spellings(old(self).opt_hash_map@) == operator_spellings(),
            spellings(old(self).key_word_hash_map@) == reserved_words(),
        ensures
            final(self).wf(),
            final(self).same_text(old(self)),
            final(self).left() <= old(self).left(),
            final(self).eof == old(self).eof,
            final(self)@ == after_comment(old(self)@),
            next_from(final(self)@, Mode::Start) == next_from(old(self)@, Mode::Comment),
    {
        let ghost goal = next_from(self@, Mode::Comment);
        let ghost end = after_comment(self@);
        while self.pos < self.chars.len() && self.chars[self.pos] != '\n'
            invariant
                self.pos <= self.chars.len(),
                self.same_text(old(self)),
                self.cur_line == old(self).cur_line,
                self.cur_column == old(self).cur_column,
                self.eof == old(self).eof,
                self.left() <= old(self).left(),
                goal == next_from(self@, Mode::Comment),
                end == after_comment(self@),
            decreases self.chars.len() - self.pos,
        {
            let ghost before = self@;
            self.pos += 1;
            assert(self@ == moved(before, 1, 0)) by {
                assert(self@.rest =~= before.rest.skip(1));
            }
        }
        let ghost before = self@;
        if self.pos < self.chars.len() {
            self.pos += 1;
            assert(self.chars@.skip(self.pos as int) =~= before.rest.skip(1));
        } else {
            assert(self.chars@.skip(self.pos as int) =~= before.rest.skip(0));
        }
        self.iter_new_line();
    }

    /// Passes over characters outside the visible part of ASCII: each takes
    /// a column, and a line feed begins a new line.
    pub fn skip_blank(&mut self)
        requires
            old(self).wf(),
        ensures
            final(self).wf(),
            final(self).same_text(old(self)),
            final(self).left() <= old(self).left(),
            final(self).left() == old(self).left() ==> old(self).left() == 0 || graphic(
                old(self)@.rest[0],
            ),
            final(self).eof == old(self).eof,
            final(self)@ == after_blank(old(self)@),
            next_from(final(self)@, Mode::Start) == next_from(old(self)@, Mode::Blank),
    {
        let ghost goal = next_from(self@, Mode::Blank);
        let ghost end = after_blank(self@);
        let mut open = true;
        while open && self.pos < self.chars.len()
            invariant
                self.wf(),
                self.same_text(old(self)),
                self.eof == old(self).eof,
                self.left() <= old(self).left(),
                self.left() == old(self).left() ==> self.pos == old(self).pos && (open
                    || graphic(old(self)@.rest[0])),
                open ==> goal == next_from(self@, Mode::Blank),
                !open ==> goal == next_from(self@, Mode::Start),
                !open ==> self.pos < self.chars.len() && graphic(self.chars[self.pos as int]),
                end == after_blank(self@),
            decreases
                    self.chars.len() - self.pos,
                    if open {
                        1int
                    } else {
                        0int
                    },
        {
            let c = self.chars[self.pos];
            let ghost before = self@;
            assert(before.rest[0] == c);
            if c == '\n' {
                self.iter_new_line();
                self.pos += 1;
                assert(self@ == next_line(before, 1)) by {
                    assert(self@.rest =~= before.rest.skip(1));
                }
            } else if !(c >= '!' && c <= '~') {
                self.iter_advance(1);
                self.pos += 1;
                assert(self@ == moved(before, 1, 1)) by {
                    assert(self@.rest =~= before.rest.skip(1));
                }
            } else {
                open = false;
            }
        }
        assert(after_blank(self@) == self@) by {
            if self.pos < self.chars.len() {
                assert(self@.rest[0] == self.chars[self.pos as int]);
            }
        }
    }
}

impl Lexer {
    /// The operator spelled by the next `len` characters, or by all that is
    /// left if that is less.
    fn operator_of(&self, len: usize) -> (r: (Option<KeyWord>, String))
        requires
            self.wf(),
            1 <= len <= 3,
        ensures
            r.1@ == front(self@.rest, len as int),
            r.0 == key_word_of(operator_spellings(), r.1@),
    {
        let end = if self.chars.len() - self.pos >= len {
            self.pos + len
        } else {
            self.chars.len()
        };
        let text = string_of(&self.chars, self.pos, end);
        proof {
            if len <= self@.rest.len() {
                assert(self@.rest.take(len as int) =~= text@);
            } else {
                assert(self@.rest =~= text@);
            }
        }
        (find_key_word(&self.opt_hash_map, &text), text)
    }

    /// Reads `len` characters, or all that is left if that is less, and
    /// moves on by `len` columns.
    fn take_operator(&mut self, len: usize)
        requires
            old(self).wf(),
            old(self).pos < old(self).chars.len(),
            1 <= len <= 3,
        ensures
            final(self).wf(),
            final(self).same_text(old(self)),
            final(self).eof == old(self).eof,
            final(self)@ == moved(
                old(self)@,
                front(old(self)@.rest, len as int).len() as int,
                len as int,
            ),
            final(self).left() < old(self).left(),
    {
        let ghost before = self@;
        if self.chars.len() - self.pos >= len {
            self.pos += len;
            assert(self.chars@.skip(self.pos as int) =~= before.rest.skip(len as int));
        } else {
            self.pos = self.chars.len();
            assert(self.chars@.skip(self.pos as int) =~= before.rest.skip(
                before.rest.len() as int,
            ));
        }
        self.iter_advance(len);
    }

    /// Reads an operator: the longest of at most three characters.
    pub fn parser_operator(&mut self) -> (r: Result<(TokenType, String), LexError>)
        requires
            old(self).wf(),
            old(self).pos < old(self).chars.len(),
        ensures
            final(self).wf(),
            final(self).same_text(old(self)),
            final(self).eof == old(self).eof,
            match r {
                Ok((kind, raw)) => operator_token(old(self)@) == (
                    Lexed::Token(token_at(old(self)@, kind@, raw@)),
                    final(self)@,
                ) && final(self).left() < old(self).left(),
                Err(e) => operator_token(old(self)@) == (
                    lexed_of(Err::<Option<Token>, LexError>(e)),
                    final(self)@,
                ) && *final(self) == *old(self),
            },
    {
        let (three, text) = self.operator_of(3);
        if let Some(key_word) = three {
            self.take_operator(3);
            return Ok((TokenType::OptKeyWord(key_word), text));
        }
        let (two, text) = self.operator_of(2);
        if let Some(key_word) = two {
            self.take_operator(2);
            return Ok((TokenType::OptKeyWord(key_word), text));
        }
        let (one, text) = self.operator_of(1);
        if let Some(key_word) = one {
            self.take_operator(1);
            return Ok((TokenType::OptKeyWord(key_word), text));
        }
        Err(LexError::UnknownOperator { line: self.cur_line, column: self.cur_column })
    }

    /// Reads what a minus sign begins: a comment, behind which the next
    /// token is read, or the binary minus, which begins at the line and
    /// column given.
    pub fn handle_sub_and_comment(&mut self, cur_line: usize, cur_column: usize) -> (r: Result<
        Option<Token>,
        LexError,
    >)
        requires
            old(self).wf(),
            old(self).pos < old(self).chars.len(),
            cur_line == old(self).cur_line,
            cur_column == old(self).cur_column,
        ensures
            final(self).wf(),
            final(self).same_text(old(self)),
            final(self).left() <= old(self).left(),
            old(self).eof ==> final(self).eof,
            r matches Ok(Some(_)) ==> final(self).left() < old(self).left() || (!old(self).eof
                && final(self).eof),
            ({
                let s = old(self)@;
                (lexed_of(r), final(self)@) == (if s.rest.len() > 1 && s.rest[1] == '-' {
                    next_from(moved(s, 2, 1), Mode::Comment)
                } else {
                    (
                        Lexed::Token(token_at(s, KindView::OptKeyWord(KeyWord::SUB), seq!['-'])),
                        moved(s, 1, 1),
                    )
                })
            }),
        decreases old(self).left(), 0int,
    {
        let ghost s = self@;
        self.pos += 1;
        self.iter_advance(1);
        assert(self@ == moved(s, 1, 1)) by {
            assert(self@.rest =~= s.rest.skip(1));
        }
        if self.pos < self.chars.len() && self.chars[self.pos] == '-' {
            assert(s.rest[1] == '-');
            self.pos += 1;
            assert(self@ == moved(s, 2, 1)) by {
                assert(self@.rest =~= s.rest.skip(2));
            }
            self.skip_comment();
            return self.get_next_token();
        }
        proof {
            if s.rest.len() > 1 {
                assert(s.rest[1] == self.chars[self.pos as int]);
            }
            reveal_strlit("-");
            assert("-"@ =~= seq!['-']);
        }
        Ok(
            Some(
                Token::new(
                    TokenType::OptKeyWord(KeyWord::SUB),
                    String::from_str("-"),
                    cur_line,
                    cur_column,
                ),
            ),
        )
    }

    /// The next token: at the end of the text the end token once, then
    /// nothing.
    pub fn get_next_token(&mut self) -> (r: Result<Option<Token>, LexError>)
        requires
            old(self).wf(),
        ensures
            final(self).wf(),
            final(self).same_text(old(self)),
            final(self).left() <= old(self).left(),
            old(self).eof ==> final(self).eof,
            r matches Ok(Some(_)) ==> final(self).left() < old(self).left() || (!old(self).eof
                && final(self).eof),
            (lexed_of(r), final(self)@) == next_from(old(self)@, Mode::Start),
        decreases old(self).left(), 1int,
    {
        let ghost s = self@;
        if self.pos >= self.chars.len() {
            if !self.eof {
                self.eof = true;
                return Ok(Some(Token::eof()));
            } else {
                return Ok(None);
            }
        }
        let c = self.chars[self.pos];
        assert(s.rest[0] == c);
        let cur_line = self.cur_line;
        let cur_column = self.cur_column;
        let token_info: (TokenType, String);
        if c.is_numeric() {
            proof {
                lemma_run_len(s.rest, num_class());
                if run_len(s.rest, num_class()) == 0 {
                    assert(!num_class()(s.rest[0]));
                }
            }
            token_info = self.parse_number();
        } else if c.is_alphanumeric() || c == '_' {
            proof {
                lemma_run_len(s.rest, id_class());
                if run_len(s.rest, id_class()) == 0 {
                    assert(!id_class()(s.rest[0]));
                }
            }
            token_info = self.parse_id();
        } else if c == '"' {
            token_info = self.parse_str();
        } else if !(c >= '!' && c <= '~') {
            self.skip_blank();
            return self.get_next_token();
        } else if c == '-' {
            return self.handle_sub_and_comment(cur_line, cur_column);
        } else {
            match self.parser_operator() {
                Ok(info) => {
                    token_info = info;
                },
                Err(e) => {
                    return Err(e);
                },
            }
        }
        Ok(Some(Token::new(token_info.0, token_info.1, cur_line, cur_column)))
    }

    /// All tokens from here up to the end token, which comes last.
    pub fn tokens(&mut self) -> (r: Result<Vec<Token>, LexError>)
        requires
            old(self).wf(),
        ensures
            final(self).wf(),
            final(self).same_text(old(self)),
            match r {
                Ok(v) => {
                    &&& forall|i: int|
                        0 <= i < v.len() ==> lexed_at(old(self)@, i as nat) == Lexed::Token(
                            #[trigger] v[i]@,
                        )
                    &&& lexed_at(old(self)@, v.len() as nat) == Lexed::End
                    &&& final(self)@ == scan_after(old(self)@, (v.len() + 1) as nat)
                },
                Err(e) => exists|k: nat|
                    {
                        &&& forall|i: nat| i < k ==> #[trigger] lexed_at(old(self)@, i) is Token
                        &&& lexed_at(old(self)@, k) == lexed_of(Err::<Option<Token>, LexError>(e))
                        &&& final(self)@ == scan_after(old(self)@, k + 1)
                    },
            },
    {
        let mut out: Vec<Token> = Vec::new();
        let ghost start = self@;
        loop
            invariant
                self.wf(),
                self.same_text(old(self)),
                start == old(self)@,
                self@ == scan_after(start, out.len() as nat),
                forall|i: int|
                    0 <= i < out.len() ==> lexed_at(start, i as nat) == Lexed::Token(
                        #[trigger] out[i]@,
                    ),
            decreases self.left() + if self.eof {
                0int
            } else {
                1int
            },
        {
            let ghost k = out.len() as nat;
            match self.get_next_token() {
                Ok(Some(token)) => {
                    let ghost prev = out@;
                    out.push(token);
                    proof {
                        assert(scan_after(start, (k + 1) as nat) == next_from(
                            scan_after(start, k),
                            Mode::Start,
                        ).1);
                        assert forall|i: int| 0 <= i < out.len() implies lexed_at(
                            start,
                            i as nat,
                        ) == Lexed::Token(#[trigger] out[i]@) by {
                            if i < k {
                                assert(out[i] == prev[i]);
                            }
                        }
                    }
                },
                Ok(None) => {
                    proof {
                        assert(lexed_at(start, k) == Lexed::End);
                        assert(scan_after(start, (k + 1) as nat) == next_from(
                            scan_after(start, k),
                            Mode::Start,
                        ).1);
                    }
                    return Ok(out);
                },
                Err(e) => {
                    proof {
                        assert(lexed_at(start, k) == lexed_of(Err::<Option<Token>, LexError>(e)));
                        assert(scan_after(start, (k + 1) as nat) == next_from(
                            scan_after(start, k),
                            Mode::Start,
                        ).1);
                        assert forall|i: nat| i < k implies #[trigger] lexed_at(
                            start,
                            i,
                        ) is Token by {
                            assert(lexed_at(start, i) == Lexed::Token(out[i as int]@));
                        }
                    }
                    return Err(e);
                },
            }
        }
    }
}

} // verus!
