//! Splits a line of SQL into tokens: runs of letters (identifiers and
//! keywords), runs of digits (numbers), single operator symbols, and single
//! other characters (unknown, which includes white space).
//!
//! Positions count characters. Runs of letters or digits are cut out of the
//! text by position, and the end of the text is found by counting bytes, so
//! those steps need the text before them ASCII (see `step_reads_ascii`);
//! letters and digits beyond ASCII are those that `char::is_alphabetic` and
//! `char::is_numeric` report.

use vstd::prelude::*;
use vstd::string::StrSliceExecFns;

use crate::text::{
    all_ascii, char_to_string, is_ascii_digit, is_ascii_letter, str_eq, to_owned_string, to_upper,
    upper,
};

verus! {

#[derive(Debug, Clone, Copy, PartialEq, Eq, Structural)]
pub enum TokenType {
    Identifier,
    Keyword,
    Number,
    Symbol,
    Unknown,
}

#[derive(Debug)]
pub struct Token {
    pub token_type: TokenType,
    pub value: String,
}

/// A token as a value: its type and its text.
pub type TokenView = (TokenType, Seq<char>);

impl View for Token {
    type V = TokenView;

    open spec fn view(&self) -> TokenView {
        (self.token_type, self.value@)
    }
}

impl Token {
    pub fn new(token_type: TokenType, value: String) -> (t: Self)
        ensures
            t.token_type == token_type,
            t.value == value,
    {
        Token { token_type, value }
    }
}

/// The operator symbols: the characters of `"=!=<><=>=(),;*"`.
pub open spec fn is_symbol_char(c: char) -> bool {
    c == '=' || c == '!' || c == '<' || c == '>' || c == '(' || c == ')' || c == ',' || c == ';'
        || c == '*'
}

/// The reserved words, in upper case.
pub open spec fn is_keyword(w: Seq<char>) -> bool {
    ||| w == "SELECT"@
    ||| w == "INSERT"@
    ||| w == "CREATE"@
    ||| w == "TABLE"@
    ||| w == "FROM"@
    ||| w == "WHERE"@
    ||| w == "AND"@
    ||| w == "OR"@
    ||| w == "INTO"@
    ||| w == "VALUES"@
    ||| w == "INT"@
    ||| w == "TEXT"@
    ||| w == "EXIT"@
    ||| w == "HELP"@
}

/// Whether `c` has the Unicode Alphabetic property, as `char::is_alphabetic`
/// reports it.
pub uninterp spec fn unicode_alphabetic(c: char) -> bool;

/// Whether `c` has a Unicode numeric general category, as
/// `char::is_numeric` reports it.
pub uninterp spec fn unicode_numeric(c: char) -> bool;

/// `char::is_alphabetic`: whether `c` has the Unicode Alphabetic property.
/// Its result is only named.
#[verifier::external_body]
fn char_is_alphabetic(c: char) -> (r: bool)
    ensures
        r == unicode_alphabetic(c),
{
    c.is_alphabetic()
}

/// `char::is_numeric`: whether `c` is in a Unicode numeric category. Its
/// result is only named.
#[verifier::external_body]
fn char_is_numeric(c: char) -> (r: bool)
    ensures
        r == unicode_numeric(c),
{
    c.is_numeric()
}

/// A letter: `A`-`Z` or `a`-`z` among ASCII characters, an alphabetic
/// character among the others.
pub open spec fn is_letter(c: char) -> bool {
    if (c as u32) < 128 {
        is_ascii_letter(c)
    } else {
        unicode_alphabetic(c)
    }
}

/// A digit: `0`-`9` among ASCII characters, a numeric character among the
/// others.
pub open spec fn is_digit(c: char) -> bool {
    if (c as u32) < 128 {
        is_ascii_digit(c)
    } else {
        unicode_numeric(c)
    }
}

/// The end of the run of letters starting at `pos`.
pub open spec fn letters_end(s: Seq<char>, pos: int) -> int
    decreases s.len() - pos,
{
    if pos < 0 || pos >= s.len() || !is_letter(s[pos]) {
        pos
    } else {
        letters_end(s, pos + 1)
    }
}

/// The end of the run of digits starting at `pos`.
pub open spec fn digits_end(s: Seq<char>, pos: int) -> int
    decreases s.len() - pos,
{
    if pos < 0 || pos >= s.len() || !is_digit(s[pos]) {
        pos
    } else {
        digits_end(s, pos + 1)
    }
}

/// The type of a word: a keyword when its upper-case form is reserved.
pub open spec fn word_type(w: Seq<char>) -> TokenType {
    if is_keyword(upper(w)) {
        TokenType::Keyword
    } else {
        TokenType::Identifier
    }
}

/// The token starting at `pos` and the position after it.
pub open spec fn next_token(s: Seq<char>, pos: int) -> Option<(TokenView, int)> {
    if pos < 0 || pos >= s.len() {
        None
    } else if is_letter(s[pos]) {
        let e = letters_end(s, pos);
        Some(((word_type(s.subrange(pos, e)), s.subrange(pos, e)), e))
    } else if is_digit(s[pos]) {
        let e = digits_end(s, pos);
        Some(((TokenType::Number, s.subrange(pos, e)), e))
    } else if is_symbol_char(s[pos]) {
        Some(((TokenType::Symbol, seq![s[pos]]), pos + 1))
    } else {
        Some(((TokenType::Unknown, seq![s[pos]]), pos + 1))
    }
}

/// Finding the token at `pos` reads and cuts out only what it can: the
/// text before the end of a run of letters or digits is ASCII, since the run
/// is cut out by position; and a step at the end of the text, or whose run
/// reaches it, needs the whole text ASCII, since the end is found by
/// counting bytes. Single characters of other kinds need nothing.
pub open spec fn step_reads_ascii(s: Seq<char>, pos: int) -> bool {
    if pos >= s.len() {
        all_ascii(s)
    } else if pos < 0 {
        false
    } else if is_letter(s[pos]) {
        run_reads_ascii(s, letters_end(s, pos))
    } else if is_digit(s[pos]) {
        run_reads_ascii(s, digits_end(s, pos))
    } else {
        true
    }
}

/// A run ending at `e` can be cut out: the text before `e` is ASCII, and
/// so is the whole text when the run reaches its end.
pub open spec fn run_reads_ascii(s: Seq<char>, e: int) -> bool {
    &&& all_ascii(s.subrange(0, e))
    &&& e >= s.len() ==> all_ascii(s)
}

/// All tokens from `pos` to the end of `s`.
pub open spec fn tokens_from(s: Seq<char>, pos: int) -> Seq<TokenView>
    decreases s.len() - pos,
{
    if pos < 0 || pos >= s.len() {
        Seq::empty()
    } else {
        match next_token(s, pos) {
            Some((tok, next)) => if pos < next <= s.len() {
                seq![tok] + tokens_from(s, next)
            } else {
                Seq::empty()
            },
            None => Seq::empty(),
        }
    }
}

/// All tokens of `s`.
pub open spec fn tokens_of(s: Seq<char>) -> Seq<TokenView> {
    tokens_from(s, 0)
}

/// The texts of tokens, one after the other.
pub open spec fn spelled(ts: Seq<TokenView>) -> Seq<char>
    decreases ts.len(),
{
    if ts.len() == 0 {
        Seq::empty()
    } else {
        ts[0].1 + spelled(ts.drop_first())
    }
}

proof fn lemma_letters_end(s: Seq<char>, pos: int)
    requires
        0 <= pos <= s.len(),
    ensures
        pos <= letters_end(s, pos) <= s.len(),
        forall|j: int| pos <= j < letters_end(s, pos) ==> is_letter(#[trigger] s[j]),
        letters_end(s, pos) < s.len() ==> !is_letter(s[letters_end(s, pos)]),
    decreases s.len() - pos,
{
    if pos < s.len() && is_letter(s[pos]) {
        lemma_letters_end(s, pos + 1);
    }
}

proof fn lemma_digits_end(s: Seq<char>, pos: int)
    requires
        0 <= pos <= s.len(),
    ensures
        pos <= digits_end(s, pos) <= s.len(),
    decreases s.len() - pos,
{
    if pos < s.len() && is_digit(s[pos]) {
        lemma_digits_end(s, pos + 1);
    }
}

/// The token at `pos` ends after `pos` and within the text.
proof fn lemma_next_token_advances(s: Seq<char>, pos: int)
    requires
        0 <= pos < s.len(),
    ensures
        next_token(s, pos) matches Some((tok, next)) && pos < next <= s.len(),
{
    if is_letter(s[pos]) {
        lemma_letters_end(s, pos + 1);
    } else if is_digit(s[pos]) {
        lemma_digits_end(s, pos + 1);
    }
}

proof fn lemma_letters_end_char(s: Seq<char>, pos: int, e: int)
    requires
        0 <= pos <= e <= s.len(),
        forall|j: int| pos <= j < e ==> is_letter(#[trigger] s[j]),
        e == s.len() || !is_letter(s[e]),
    ensures
        letters_end(s, pos) == e,
    decreases e - pos,
{
    if pos < e {
        lemma_letters_end_char(s, pos + 1, e);
    }
}

proof fn lemma_digits_end_char(s: Seq<char>, pos: int, e: int)
    requires
        0 <= pos <= e <= s.len(),
        forall|j: int| pos <= j < e ==> is_digit(#[trigger] s[j]),
        e == s.len() || !is_digit(s[e]),
    ensures
        digits_end(s, pos) == e,
    decreases e - pos,
{
    if pos < e {
        lemma_digits_end_char(s, pos + 1, e);
    }
}

pub fn is_alphabetic(c: char) -> (r: bool)
    ensures
        r == is_letter(c),
{
    if (c as u32) < 128 {
        ('a' <= c && c <= 'z') || ('A' <= c && c <= 'Z')
    } else {
        char_is_alphabetic(c)
    }
}

pub fn is_numeric(c: char) -> (r: bool)
    ensures
        r == is_digit(c),
{
    if (c as u32) < 128 {
        '0' <= c && c <= '9'
    } else {
        char_is_numeric(c)
    }
}

pub fn is_symbol(c: char) -> (r: bool)
    ensures
        r == is_symbol_char(c),
{
    c == '=' || c == '!' || c == '<' || c == '>' || c == '(' || c == ')' || c == ',' || c == ';'
        || c == '*'
}

/// Whether an upper-case word is reserved.
pub fn is_keyword_word(w: &str) -> (r: bool)
    ensures
        r == is_keyword(w@),
{
    str_eq(w, "SELECT") || str_eq(w, "INSERT") || str_eq(w, "CREATE") || str_eq(w, "TABLE")
        || str_eq(w, "FROM") || str_eq(w, "WHERE") || str_eq(w, "AND") || str_eq(w, "OR")
        || str_eq(w, "INTO") || str_eq(w, "VALUES") || str_eq(w, "INT") || str_eq(w, "TEXT")
        || str_eq(w, "EXIT") || str_eq(w, "HELP")
}

pub struct Tokenizer {
    input: String,
    position: usize,
}

impl Tokenizer {
    /// The text being tokenized.
    pub closed spec fn text(self) -> Seq<char> {
        self.input@
    }

    /// The current position, in characters.
    pub closed spec fn pos(self) -> nat {
        self.position as nat
    }

    pub fn new(input: String) -> (t: Self)
        ensures
            t.text() == input@,
            t.pos() == 0,
    {
        Tokenizer { input, position: 0 }
    }

    /// The next token and the position after it, or `None` at the end.
    pub fn get_next_token(&mut self) -> (r: Option<Token>)
        requires
            step_reads_ascii(old(self).text(), old(self).pos() as int),
        ensures
            final(self).text() == old(self).text(),
            match next_token(old(self).text(), old(self).pos() as int) {
                Some((tok, next)) => r matches Some(t) && t@ == tok && final(self).pos() == next,
                None => r is None && final(self).pos() == old(self).pos(),
            },
    {
        let len = self.input.as_str().unicode_len();
        if self.position >= len {
            return None;
        }
        let current_char = self.input.as_str().get_char(self.position);
        if is_alphabetic(current_char) {
            return self.collect_identifier();
        } else if is_numeric(current_char) {
            return self.collect_number();
        } else if is_symbol(current_char) {
            return self.collect_operator();
        } else {
            self.position += 1;
            return Some(Token::new(TokenType::Unknown, char_to_string(current_char)));
        }
    }

    /// A keyword token made of the current character.
    pub fn collect_keywords(&mut self) -> (r: Option<Token>)
        requires
            old(self).pos() < old(self).text().len(),
        ensures
            final(self).text() == old(self).text(),
            final(self).pos() == old(self).pos() + 1,
            r matches Some(t) && t@ == (TokenType::Keyword, seq![old(self).text()[old(self).pos() as int]]),
    {
        let len = self.input.as_str().unicode_len();
        let current_char = self.input.as_str().get_char(self.position);
        assert(self.position < len);
        self.position += 1;
        Some(Token::new(TokenType::Keyword, char_to_string(current_char)))
    }

    /// The run of letters at the current position, as a keyword or an
    /// identifier.
    pub fn collect_identifier(&mut self) -> (r: Option<Token>)
        requires
            old(self).pos() <= old(self).text().len(),
            run_reads_ascii(old(self).text(), letters_end(old(self).text(), old(self).pos() as int)),
        ensures
            final(self).text() == old(self).text(),
            final(self).pos() == letters_end(old(self).text(), old(self).pos() as int),
            r matches Some(t) && t@ == ({
                let w = old(self).text().subrange(old(self).pos() as int, final(self).pos() as int);
                (word_type(w), w)
            }),
    {
        let len = self.input.as_str().unicode_len();
        let start_pos = self.position;
        while self.position < len && is_alphabetic(self.input.as_str().get_char(self.position))
            invariant
                len == self.input@.len(),
                start_pos <= self.position <= len,
                self.input@ == old(self).input@,
                start_pos == old(self).position,
                forall|j: int| start_pos <= j < self.position ==> is_letter(#[trigger] self.input@[j]),
            decreases len - self.position,
        {
            self.position += 1;
        }
        proof {
            lemma_letters_end_char(self.input@, start_pos as int, self.position as int);
        }
        let word = to_owned_string(self.input.as_str().substring_char(start_pos, self.position));
        let upper_word = to_upper(word.as_str());
        let token_type = if is_keyword_word(upper_word.as_str()) {
            TokenType::Keyword
        } else {
            TokenType::Identifier
        };
        Some(Token::new(token_type, word))
    }

    /// The run of digits at the current position.
    pub fn collect_number(&mut self) -> (r: Option<Token>)
        requires
            old(self).pos() <= old(self).text().len(),
            run_reads_ascii(old(self).text(), digits_end(old(self).text(), old(self).pos() as int)),
        ensures
            final(self).text() == old(self).text(),
            final(self).pos() == digits_end(old(self).text(), old(self).pos() as int),
            r matches Some(t) && t@ == (
                TokenType::Number,
                old(self).text().subrange(old(self).pos() as int, final(self).pos() as int),
            ),
    {
        let len = self.input.as_str().unicode_len();
        let start_pos = self.position;
        while self.position < len && is_numeric(self.input.as_str().get_char(self.position))
            invariant
                len == self.input@.len(),
                start_pos <= self.position <= len,
                self.input@ == old(self).input@,
                start_pos == old(self).position,
                forall|j: int| start_pos <= j < self.position ==> is_digit(#[trigger] self.input@[j]),
            decreases len - self.position,
        {
            self.position += 1;
        }
        proof {
            lemma_digits_end_char(self.input@, start_pos as int, self.position as int);
        }
        let word = to_owned_string(self.input.as_str().substring_char(start_pos, self.position));
        Some(Token::new(TokenType::Number, word))
    }

    /// A symbol token made of the current character.
    pub fn collect_operator(&mut self) -> (r: Option<Token>)
        requires
            old(self).pos() < old(self).text().len(),
        ensures
            final(self).text() == old(self).text(),
            final(self).pos() == old(self).pos() + 1,
            r matches Some(t) && t@ == (TokenType::Symbol, seq![old(self).text()[old(self).pos() as int]]),
    {
        let len = self.input.as_str().unicode_len();
        let current_char = self.input.as_str().get_char(self.position);
        assert(self.position < len);
        self.position += 1;
        Some(Token::new(TokenType::Symbol, char_to_string(current_char)))
    }

    /// All remaining tokens.
    pub fn tokenize(&mut self) -> (tokens: Vec<Token>)
        requires
            all_ascii(old(self).text()),
        ensures
            final(self).text() == old(self).text(),
            tokens@.map_values(|t: Token| t@) == tokens_from(old(self).text(), old(self).pos() as int),
            final(self).pos() == if old(self).pos() <= old(self).text().len() {
                old(self).text().len()
            } else {
                old(self).pos()
            },
    {
        let mut tokens: Vec<Token> = Vec::new();
        loop
            invariant
                self.text() == old(self).text(),
                all_ascii(self.text()),
                tokens@.map_values(|t: Token| t@) + tokens_from(self.text(), self.pos() as int)
                    == tokens_from(old(self).text(), old(self).pos() as int),
                old(self).pos() <= old(self).text().len() ==> self.pos() <= self.text().len(),
                old(self).pos() > old(self).text().len() ==> self.pos() == old(self).pos(),
            decreases self.text().len() - self.pos(),
        {
            let ghost before = self.pos() as int;
            proof {
                if before < self.text().len() {
                    lemma_next_token_advances(self.text(), before);
                    lemma_ascii_step(self.text(), before);
                }
            }
            match self.get_next_token() {
                Some(token) => {
                    proof {
                        assert(self.pos() > before);
                        assert(tokens_from(self.text(), before) == seq![token@] + tokens_from(
                            self.text(),
                            self.pos() as int,
                        ));
                    }
                    tokens.push(token);
                    proof {
                        assert(tokens@.map_values(|t: Token| t@) =~= tokens@.drop_last().map_values(
                            |t: Token| t@,
                        ).push(tokens@.last()@));
                    }
                }
                None => {
                    proof {
                        assert(tokens_from(self.text(), before) =~= Seq::<TokenView>::empty());
                        assert(tokens@.map_values(|t: Token| t@) + Seq::<TokenView>::empty()
                            =~= tokens@.map_values(|t: Token| t@));
                    }
                    return tokens;
                },
            }
        }
    }
}

/// In an ASCII text, every step reads ASCII.
proof fn lemma_ascii_step(s: Seq<char>, pos: int)
    requires
        all_ascii(s),
        0 <= pos,
    ensures
        step_reads_ascii(s, pos),
{
    if pos < s.len() {
        if is_letter(s[pos]) {
            lemma_letters_end(s, pos);
            let e = letters_end(s, pos);
            assert forall|i: int| 0 <= i < s.subrange(0, e).len() implies (#[trigger] s.subrange(0, e)[i] as u32) < 128 by {
                assert(s.subrange(0, e)[i] == s[i]);
            }
        } else if is_digit(s[pos]) {
            lemma_digits_end(s, pos);
            let e = digits_end(s, pos);
            assert forall|i: int| 0 <= i < s.subrange(0, e).len() implies (#[trigger] s.subrange(0, e)[i] as u32) < 128 by {
                assert(s.subrange(0, e)[i] == s[i]);
            }
        }
    }
}

/// The tokens of a text, one after the other, spell the text: nothing is
/// lost or added, white space included.
pub proof fn lemma_tokens_spell_text(s: Seq<char>)
    ensures
        spelled(tokens_of(s)) == s,
{
    lemma_tokens_spell_from(s, 0);
    assert(s.subrange(0, s.len() as int) =~= s);
}

proof fn lemma_tokens_spell_from(s: Seq<char>, pos: int)
    requires
        0 <= pos <= s.len(),
    ensures
        spelled(tokens_from(s, pos)) == s.subrange(pos, s.len() as int),
    decreases s.len() - pos,
{
    if pos < s.len() {
        lemma_next_token_advances(s, pos);
        let (tok, next) = next_token(s, pos)->Some_0;
        lemma_tokens_spell_from(s, next);
        assert(tokens_from(s, pos) == seq![tok] + tokens_from(s, next));
        assert((seq![tok] + tokens_from(s, next)).drop_first() =~= tokens_from(s, next));
        assert(tok.1 == s.subrange(pos, next));
        assert(s.subrange(pos, s.len() as int) =~= s.subrange(pos, next) + s.subrange(next, s.len() as int));
    } else {
        assert(s.subrange(pos, s.len() as int) =~= Seq::<char>::empty());
    }
}


/// The operator symbols `=`, `!`, `<`, `>`, `(`, `)`, `,`, `;` and `*`
/// are each a token of their own, of type `Symbol`, wherever they stand.
pub proof fn lemma_symbol_chars_are_symbols(s: Seq<char>, pos: int)
    requires
        0 <= pos < s.len(),
        s[pos] == '=' || s[pos] == '!' || s[pos] == '<' || s[pos] == '>' || s[pos] == '(' || s[pos] == ')'
            || s[pos] == ',' || s[pos] == ';' || s[pos] == '*',
    ensures
        next_token(s, pos) == Some(((TokenType::Symbol, seq![s[pos]]), pos + 1)),
{
}

/// A text of one operator symbol is that one `Symbol` token.
pub proof fn lemma_symbol_alone(c: char)
    requires
        c == '=' || c == '!' || c == '<' || c == '>' || c == '(' || c == ')' || c == ',' || c == ';' || c == '*',
    ensures
        tokens_of(seq![c]) == seq![(TokenType::Symbol, seq![c])],
{
    let s = seq![c];
    lemma_symbol_chars_are_symbols(s, 0);
    assert(tokens_from(s, 1) == Seq::<TokenView>::empty());
    assert(tokens_of(s) =~= seq![(TokenType::Symbol, seq![c])]);
}

/// A space, and any ASCII character that is no letter, digit or operator
/// symbol, is a token of its own of type `Unknown`.
pub proof fn lemma_other_ascii_is_unknown(s: Seq<char>, pos: int)
    requires
        0 <= pos < s.len(),
        (s[pos] as u32) < 128,
        !('a' <= s[pos] <= 'z' || 'A' <= s[pos] <= 'Z' || '0' <= s[pos] <= '9'),
        !(s[pos] == '=' || s[pos] == '!' || s[pos] == '<' || s[pos] == '>' || s[pos] == '(' || s[pos] == ')'
            || s[pos] == ',' || s[pos] == ';' || s[pos] == '*'),
    ensures
        next_token(s, pos) == Some(((TokenType::Unknown, seq![s[pos]]), pos + 1)),
{
}


/// A run of ASCII letters is one token holding the whole run, up to the
/// first character that is no letter; it is a keyword exactly when its
/// upper-case form is one of the reserved words, else an identifier.
pub proof fn lemma_letter_run_token(s: Seq<char>, pos: int, e: int)
    requires
        0 <= pos < e <= s.len(),
        forall|j: int| pos <= j < e ==> 'a' <= #[trigger] s[j] <= 'z' || 'A' <= s[j] <= 'Z',
        e == s.len() || ((s[e] as u32) < 128 && !('a' <= s[e] <= 'z' || 'A' <= s[e] <= 'Z')),
    ensures
        next_token(s, pos) matches Some((tok, next)) && next == e && tok.1 == s.subrange(pos, e) && (tok.0
            == TokenType::Keyword <==> (upper(tok.1) == "SELECT"@ || upper(tok.1) == "INSERT"@ || upper(tok.1)
            == "CREATE"@ || upper(tok.1) == "TABLE"@ || upper(tok.1) == "FROM"@ || upper(tok.1) == "WHERE"@
            || upper(tok.1) == "AND"@ || upper(tok.1) == "OR"@ || upper(tok.1) == "INTO"@ || upper(tok.1)
            == "VALUES"@ || upper(tok.1) == "INT"@ || upper(tok.1) == "TEXT"@ || upper(tok.1) == "EXIT"@
            || upper(tok.1) == "HELP"@)) && (tok.0 == TokenType::Keyword || tok.0 == TokenType::Identifier),
{
    assert forall|j: int| pos <= j < e implies is_letter(#[trigger] s[j]) by {}
    lemma_letters_end_char(s, pos, e);
}

/// A run of ASCII digits is one `Number` token holding the whole run, up to
/// the first character that is no digit.
pub proof fn lemma_digit_run_token(s: Seq<char>, pos: int, e: int)
    requires
        0 <= pos < e <= s.len(),
        forall|j: int| pos <= j < e ==> '0' <= #[trigger] s[j] <= '9',
        e == s.len() || ((s[e] as u32) < 128 && !('0' <= s[e] <= '9')),
    ensures
        next_token(s, pos) == Some(((TokenType::Number, s.subrange(pos, e)), e)),
{
    assert forall|j: int| pos <= j < e implies is_digit(#[trigger] s[j]) by {}
    lemma_digits_end_char(s, pos, e);
}

} // verus!
