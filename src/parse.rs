//! The command language: a line is lexed into keywords, identifiers and
//! quoted literals, and the tokens are read as one command.
//!
//! ```text
//! GET <ident> | PUT <ident> "<literal>" | DELETE <ident>
//! BEGIN | COMMIT | ROLLBACK | EXIT
//! ```
use crate::command::{Command, DeleteCommand, GetCommand, PutCommand};
use crate::text::string_of_chars;
use vstd::prelude::*;
use vstd::string::StrSliceExecFns;

verus! {

/// Whether a character has the Unicode `White_Space` property.
pub open spec fn is_space(c: char) -> bool {
    let u = c as u32;
    (0x9 <= u <= 0xd) || u == 0x20 || u == 0x85 || u == 0xa0 || u == 0x1680 || (0x2000 <= u <= 0x200a)
        || u == 0x2028 || u == 0x2029 || u == 0x202f || u == 0x205f || u == 0x3000
}

/// Whether a character is Unicode alphabetic or numeric.
pub uninterp spec fn is_word_char(c: char) -> bool;

/// Whether a character may stand in a word: alphanumeric or `_`.
pub open spec fn is_ident_char(c: char) -> bool {
    is_word_char(c) || c == '_'
}

/// Whether a character has the Unicode `White_Space` property.
fn char_is_whitespace(c: char) -> (r: bool)
    ensures
        r == is_space(c),
{
    let u = c as u32;
    (0x9 <= u && u <= 0xd) || u == 0x20 || u == 0x85 || u == 0xa0 || u == 0x1680 || (0x2000 <= u
        && u <= 0x200a) || u == 0x2028 || u == 0x2029 || u == 0x202f || u == 0x205f || u == 0x3000
}

/// Relies on `char::is_alphanumeric`: Unicode `Alphabetic` or `Numeric`, a
/// property of the character alone.
#[verifier::external_body]
fn char_is_alphanumeric(c: char) -> (r: bool)
    ensures
        r == is_word_char(c),
{
    c.is_alphanumeric()
}


/// A command word.
#[derive(Debug, Clone, Copy, PartialEq, Eq)]
pub enum Keyword {
    Get,
    Put,
    Delete,
    Exit,
    Begin,
    Commit,
    Rollback,
}

/// A token of a command line.
#[derive(Debug, Clone, PartialEq)]
pub enum Token {
    Keyword(Keyword),
    Ident(String),
    Literal(String),
}

/// A token as plain values.
pub enum TokenModel {
    Keyword(Keyword),
    Ident(Seq<char>),
    Literal(Seq<char>),
}

impl View for Token {
    type V = TokenModel;

    open spec fn view(&self) -> TokenModel {
        match self {
            Token::Keyword(k) => TokenModel::Keyword(*k),
            Token::Ident(s) => TokenModel::Ident(s@),
            Token::Literal(s) => TokenModel::Literal(s@),
        }
    }
}

/// What the tokens hold.
pub open spec fn tokens_model(ts: Seq<Token>) -> Seq<TokenModel> {
    ts.map_values(|t: Token| t@)
}

/// Why a line is not a command.
#[derive(Debug, Clone, Copy, PartialEq, Eq)]
pub enum ParseError {
    /// A character that no token can hold.
    UnexpectedCharacter(char),
    /// A backslash in a literal before a character other than `"`, `\`, `n`, `t`.
    InvalidEscape(char),
    /// A literal without its closing quote.
    UnterminatedLiteral,
    /// An empty line.
    UnexpectedEnd,
    /// A line that does not start with a command word.
    ExpectedKeyword,
    /// A command word without the identifier that it needs.
    ExpectedIdentifier(Keyword),
    /// `PUT` and an identifier without a literal.
    ExpectedLiteral,
    /// More tokens after a complete command.
    UnexpectedToken,
}

/// A command as plain values.
pub enum CommandModel {
    Put(Seq<char>, Seq<char>),
    Delete(Seq<char>),
    Get(Seq<char>),
    Begin,
    Commit,
    Rollback,
    Exit,
}

impl View for Command {
    type V = CommandModel;

    open spec fn view(&self) -> CommandModel {
        match self {
            Command::Put(PutCommand(k, v)) => CommandModel::Put(k@, v@),
            Command::Delete(DeleteCommand(k)) => CommandModel::Delete(k@),
            Command::Get(GetCommand(k)) => CommandModel::Get(k@),
            Command::Begin => CommandModel::Begin,
            Command::Commit => CommandModel::Commit,
            Command::Rollback => CommandModel::Rollback,
            Command::Exit => CommandModel::Exit,
        }
    }
}

/// The command word that a word spells, in upper or lower case.
pub open spec fn keyword_of(w: Seq<char>) -> Option<Keyword> {
    if w == seq!['G', 'E', 'T'] || w == seq!['g', 'e', 't'] {
        Some(Keyword::Get)
    } else if w == seq!['P', 'U', 'T'] || w == seq!['p', 'u', 't'] {
        Some(Keyword::Put)
    } else if w == seq!['D', 'E', 'L', 'E', 'T', 'E'] || w == seq!['d', 'e', 'l', 'e', 't', 'e'] {
        Some(Keyword::Delete)
    } else if w == seq!['E', 'X', 'I', 'T'] || w == seq!['e', 'x', 'i', 't'] {
        Some(Keyword::Exit)
    } else if w == seq!['B', 'E', 'G', 'I', 'N'] || w == seq!['b', 'e', 'g', 'i', 'n'] {
        Some(Keyword::Begin)
    } else if w == seq!['C', 'O', 'M', 'M', 'I', 'T'] || w == seq!['c', 'o', 'm', 'm', 'i', 't'] {
        Some(Keyword::Commit)
    } else if w == seq!['R', 'O', 'L', 'L', 'B', 'A', 'C', 'K'] || w == seq![
        'r',
        'o',
        'l',
        'l',
        'b',
        'a',
        'c',
        'k',
    ] {
        Some(Keyword::Rollback)
    } else {
        None
    }
}

/// The token of a word: its command word, else an identifier.
pub open spec fn word_token(w: Seq<char>) -> TokenModel {
    match keyword_of(w) {
        Some(k) => TokenModel::Keyword(k),
        None => TokenModel::Ident(w),
    }
}

/// Number of word characters from offset `i` on.
pub open spec fn word_len(s: Seq<char>, i: int) -> nat
    decreases s.len() - i,
{
    if 0 <= i < s.len() && is_ident_char(s[i]) {
        1 + word_len(s, i + 1)
    } else {
        0
    }
}

/// What an escaped character stands for.
pub open spec fn unescape(c: char) -> Option<char> {
    if c == '"' {
        Some('"')
    } else if c == '\\' {
        Some('\\')
    } else if c == 'n' {
        Some('\n')
    } else if c == 't' {
        Some('\t')
    } else {
        None
    }
}

/// The body of a literal from offset `i` (just past its opening quote):
/// its characters and the offset past its closing quote.
pub open spec fn literal_at(s: Seq<char>, i: int) -> Result<(Seq<char>, int), ParseError>
    decreases s.len() - i,
{
    if i < 0 || i >= s.len() {
        Err(ParseError::UnterminatedLiteral)
    } else if s[i] == '"' {
        Ok((Seq::empty(), i + 1))
    } else if s[i] == '\\' {
        if i + 1 >= s.len() {
            Err(ParseError::UnterminatedLiteral)
        } else {
            match unescape(s[i + 1]) {
                Some(c) => match literal_at(s, i + 2) {
                    Ok((rest, j)) => Ok((seq![c] + rest, j)),
                    Err(e) => Err(e),
                },
                None => Err(ParseError::InvalidEscape(s[i + 1])),
            }
        }
    } else {
        match literal_at(s, i + 1) {
            Ok((rest, j)) => Ok((seq![s[i]] + rest, j)),
            Err(e) => Err(e),
        }
    }
}

/// The tokens of `s` from offset `i` on. White space separates tokens; a
/// word ends at white space (which it consumes) or at the end; a literal
/// runs from `"` to the next unescaped `"`.
pub open spec fn lex_at(s: Seq<char>, i: int) -> Result<Seq<TokenModel>, ParseError>
    decreases s.len() - i,
{
    if i < 0 || i >= s.len() {
        Ok(Seq::empty())
    } else if is_space(s[i]) {
        lex_at(s, i + 1)
    } else if is_ident_char(s[i]) {
        let j = i + word_len(s, i);
        if j >= s.len() {
            Ok(seq![word_token(s.subrange(i, j))])
        } else if !is_space(s[j]) {
            Err(ParseError::UnexpectedCharacter(s[j]))
        } else {
            match lex_at(s, j + 1) {
                Ok(rest) => Ok(seq![word_token(s.subrange(i, j))] + rest),
                Err(e) => Err(e),
            }
        }
    } else if s[i] == '"' {
        match literal_at(s, i + 1) {
            Ok((body, j)) => if i < j <= s.len() {
                match lex_at(s, j) {
                    Ok(rest) => Ok(seq![TokenModel::Literal(body)] + rest),
                    Err(e) => Err(e),
                }
            } else {
                Err(ParseError::UnterminatedLiteral)
            },
            Err(e) => Err(e),
        }
    } else {
        Err(ParseError::UnexpectedCharacter(s[i]))
    }
}

/// The command that a list of tokens spells.
pub open spec fn parse_tokens_spec(ts: Seq<TokenModel>) -> Result<CommandModel, ParseError> {
    if ts.len() == 0 {
        Err(ParseError::UnexpectedEnd)
    } else {
        match ts[0] {
            TokenModel::Keyword(k) => match k {
                Keyword::Exit => Ok(CommandModel::Exit),
                Keyword::Begin => if ts.len() == 1 { Ok(CommandModel::Begin) } else { Err(ParseError::UnexpectedToken) },
                Keyword::Commit => if ts.len() == 1 { Ok(CommandModel::Commit) } else { Err(ParseError::UnexpectedToken) },
                Keyword::Rollback => if ts.len() == 1 { Ok(CommandModel::Rollback) } else { Err(ParseError::UnexpectedToken) },
                _ => if ts.len() < 2 || !(ts[1] is Ident) {
                    Err(ParseError::ExpectedIdentifier(k))
                } else {
                    let id = ts[1]->Ident_0;
                    match k {
                        Keyword::Put => if ts.len() < 3 || !(ts[2] is Literal) {
                            Err(ParseError::ExpectedLiteral)
                        } else if ts.len() > 3 {
                            Err(ParseError::UnexpectedToken)
                        } else {
                            Ok(CommandModel::Put(id, ts[2]->Literal_0))
                        },
                        Keyword::Get => if ts.len() > 2 { Err(ParseError::UnexpectedToken) } else { Ok(CommandModel::Get(id)) },
                        _ => if ts.len() > 2 { Err(ParseError::UnexpectedToken) } else { Ok(CommandModel::Delete(id)) },
                    }
                },
            },
            _ => Err(ParseError::ExpectedKeyword),
        }
    }
}

/// The command that a line spells.
pub open spec fn parse_spec(s: Seq<char>) -> Result<CommandModel, ParseError> {
    match lex_at(s, 0) {
        Ok(ts) => parse_tokens_spec(ts),
        Err(e) => Err(e),
    }
}

/// Reads a command line.
pub fn parse_command(input: &str) -> (r: Result<Command, ParseError>)
    ensures
        match r {
            Ok(c) => parse_spec(input@) == Ok::<CommandModel, ParseError>(c@),
            Err(e) => parse_spec(input@) == Err::<CommandModel, ParseError>(e),
        },
{
    let tokens = Lexer::new(input).lex()?;
    parse_tokens(&tokens)
}

impl std::str::FromStr for Command {
    type Err = ParseError;

    fn from_str(s: &str) -> Result<Command, ParseError> {
        parse_command(s)
    }
}

/// The lexer's state: the line, the position, the word or literal being
/// read, and the tokens so far.
#[derive(Debug)]
pub struct Lexer {
    pub input: Vec<char>,
    pub pos: usize,
    pub buffer: Vec<char>,
    pub tokens: Vec<Token>,
}

impl Lexer {
    /// A lexer at the start of `input`.
    pub fn new(input: &str) -> (r: Lexer)
        ensures
            r.input@ == input@,
            r.pos == 0,
            r.buffer@ == Seq::<char>::empty(),
            r.tokens@ == Seq::<Token>::empty(),
    {
        let n = input.unicode_len();
        let mut chars: Vec<char> = Vec::new();
        let mut i: usize = 0;
        while i < n
            invariant
                n == input@.len(),
                i <= n,
                chars@ == input@.subrange(0, i as int),
            decreases n - i,
        {
            chars.push(input.get_char(i));
            i = i + 1;
            assert(chars@ =~= input@.subrange(0, i as int));
        }
        assert(input@.subrange(0, i as int) =~= input@);
        Lexer { input: chars, pos: 0, buffer: Vec::new(), tokens: Vec::new() }
    }

    /// The tokens of the whole line.
    pub fn lex(self) -> (r: Result<Vec<Token>, ParseError>)
        requires
            self.pos == 0,
            self.tokens@ == Seq::<Token>::empty(),
            self.buffer@ == Seq::<char>::empty(),
        ensures
            match r {
                Ok(ts) => lex_at(self.input@, 0) == Ok::<Seq<TokenModel>, ParseError>(tokens_model(ts@)),
                Err(e) => lex_at(self.input@, 0) == Err::<Seq<TokenModel>, ParseError>(e),
            },
    {
        let mut lexer = self;
        lexer.run()
    }

    fn run(&mut self) -> (r: Result<Vec<Token>, ParseError>)
        requires
            old(self).pos == 0,
            old(self).tokens@ == Seq::<Token>::empty(),
            old(self).buffer@ == Seq::<char>::empty(),
        ensures
            match r {
                Ok(ts) => lex_at(old(self).input@, 0) == Ok::<Seq<TokenModel>, ParseError>(tokens_model(ts@)),
                Err(e) => lex_at(old(self).input@, 0) == Err::<Seq<TokenModel>, ParseError>(e),
            },
    {
        let ghost s = self.input@;
        assert(tokens_model(self.tokens@) =~= Seq::<TokenModel>::empty());
        while self.pos < self.input.len()
            invariant
                s == self.input@,
                self.input == old(self).input,
                self.pos <= s.len(),
                self.buffer@ == Seq::<char>::empty(),
                match lex_at(s, self.pos as int) {
                    Ok(rest) => lex_at(s, 0) == Ok::<Seq<TokenModel>, ParseError>(tokens_model(self.tokens@) + rest),
                    Err(e) => lex_at(s, 0) == Err::<Seq<TokenModel>, ParseError>(e),
                },
            decreases s.len() - self.pos,
        {
            let c = self.input[self.pos];
            let ghost p0 = self.pos as int;
            let ghost tk0 = tokens_model(self.tokens@);
            if char_is_whitespace(c) {
                self.pos = self.pos + 1;
            } else if char_is_alphanumeric(c) || c == '_' {
                self.lex_alphanumeric()?;
                proof {
                    let j = p0 + word_len(s, p0);
                    let tok = word_token(s.subrange(p0, j));
                    assert(tk0.push(tok) + Seq::<TokenModel>::empty() =~= tk0 + seq![tok]);
                    match lex_at(s, self.pos as int) {
                        Ok(rest) => {
                            assert(tk0.push(tok) + rest =~= tk0 + (seq![tok] + rest));
                        },
                        Err(_) => {},
                    }
                }
            } else if c == '"' {
                self.lex_literal()?;
                proof {
                    let tok = TokenModel::Literal(literal_at(s, p0 + 1)->Ok_0.0);
                    match lex_at(s, self.pos as int) {
                        Ok(rest) => {
                            assert(tk0.push(tok) + rest =~= tk0 + (seq![tok] + rest));
                        },
                        Err(_) => {},
                    }
                }
            } else {
                return Err(ParseError::UnexpectedCharacter(c));
            }
        }
        assert(tokens_model(self.tokens@) + Seq::<TokenModel>::empty() =~= tokens_model(self.tokens@));
        let mut out: Vec<Token> = Vec::new();
        std::mem::swap(&mut out, &mut self.tokens);
        Ok(out)
    }

    /// Reads the word at the position, and the white space after it. A word
    /// is made of alphanumeric characters and `_`.
    pub fn lex_alphanumeric(&mut self) -> (r: Result<(), ParseError>)
        requires
            old(self).pos < old(self).input@.len(),
            is_ident_char(old(self).input@[old(self).pos as int]),
            old(self).buffer@ == Seq::<char>::empty(),
        ensures
            final(self).input == old(self).input,
            final(self).buffer@ == Seq::<char>::empty(),
            ({
                let s = old(self).input@;
                let i = old(self).pos as int;
                let j = i + word_len(s, i);
                &&& j <= s.len()
                &&& match r {
                    Ok(()) => {
                        &&& !(j < s.len() && !is_space(s[j]))
                        &&& final(self).pos == (if j < s.len() { j + 1 } else { j })
                        &&& tokens_model(final(self).tokens@) == tokens_model(old(self).tokens@).push(word_token(s.subrange(i, j)))
                    },
                    Err(e) => j < s.len() && !is_space(s[j]) && e == ParseError::UnexpectedCharacter(s[j]),
                }
            }),
    {
        let ghost s = self.input@;
        let ghost i = self.pos as int;
        let ghost t0 = tokens_model(self.tokens@);
        proof {
            lemma_word_len_bound(s, i);
        }
        let n = self.input.len();
        let mut end: usize = self.pos;
        while end < n && (char_is_alphanumeric(self.input[end]) || self.input[end] == '_')
            invariant
                s == self.input@,
                self.input == old(self).input,
                n == s.len(),
                self.pos == i,
                i <= end <= s.len(),
                self.buffer@ == s.subrange(i, end as int),
                forall|k: int| i <= k < end ==> is_ident_char(#[trigger] s[k]),
                tokens_model(self.tokens@) == t0,
                self.tokens == old(self).tokens,
            decreases s.len() - end,
        {
            self.buffer.push(self.input[end]);
            end = end + 1;
            assert(self.buffer@ =~= s.subrange(i, end as int));
        }
        proof {
            lemma_word_len_exact(s, i, end as int);
        }
        if end < n {
            let c = self.input[end];
            if char_is_whitespace(c) {
                self.pos = end + 1;
            } else {
                self.buffer = Vec::new();
                return Err(ParseError::UnexpectedCharacter(c));
            }
        } else {
            self.pos = end;
        }
        let word = string_of_chars(&self.buffer);
        let token = match keyword_from(&self.buffer) {
            Some(k) => Token::Keyword(k),
            None => Token::Ident(word),
        };
        let ghost tv = token@;
        self.tokens.push(token);
        assert(tokens_model(self.tokens@) =~= t0.push(tv));
        self.buffer = Vec::new();
        Ok(())
    }

    /// Reads the literal that starts at the position, quotes included.
    pub fn lex_literal(&mut self) -> (r: Result<(), ParseError>)
        requires
            old(self).pos < old(self).input@.len(),
            old(self).input@[old(self).pos as int] == '"',
            old(self).buffer@ == Seq::<char>::empty(),
        ensures
            final(self).input == old(self).input,
            final(self).buffer@ == Seq::<char>::empty(),
            r is Err ==> literal_at(old(self).input@, old(self).pos + 1) == Err::<(Seq<char>, int), ParseError>(
                r->Err_0,
            ),
            r is Ok ==> literal_at(old(self).input@, old(self).pos + 1) is Ok,
            r is Ok ==> final(self).pos == literal_at(old(self).input@, old(self).pos + 1)->Ok_0.1,
            r is Ok ==> old(self).pos < final(self).pos <= old(self).input@.len(),
            r is Ok ==> tokens_model(final(self).tokens@) == tokens_model(old(self).tokens@).push(
                TokenModel::Literal(literal_at(old(self).input@, old(self).pos + 1)->Ok_0.0),
            ),
    {
        let ghost s = self.input@;
        let ghost i = self.pos as int;
        let ghost t0 = tokens_model(self.tokens@);
        let n = self.input.len();
        self.pos = self.pos + 1;
        proof {
            match literal_at(s, i + 1) {
                Ok((rest, j)) => {
                    assert(self.buffer@ + rest =~= rest);
                },
                Err(_) => {},
            }
        }
        loop
            invariant
                s == self.input@,
                n == s.len(),
                i == old(self).pos as int,
                t0 == tokens_model(old(self).tokens@),
                self.input == old(self).input,
                i + 1 <= self.pos <= s.len(),
                tokens_model(self.tokens@) == t0,
                match literal_at(s, self.pos as int) {
                    Ok((rest, j)) => literal_at(s, i + 1) == Ok::<(Seq<char>, int), ParseError>((self.buffer@ + rest, j)),
                    Err(e) => literal_at(s, i + 1) == Err::<(Seq<char>, int), ParseError>(e),
                },
            decreases s.len() - self.pos,
        {
            if self.pos >= n {
                self.buffer = Vec::new();
                return Err(ParseError::UnterminatedLiteral);
            }
            let c = self.input[self.pos];
            let ghost before = self.buffer@;
            if c == '"' {
                self.pos = self.pos + 1;
                assert(self.buffer@ + Seq::<char>::empty() =~= self.buffer@);
                let lit = string_of_chars(&self.buffer);
                let ghost tv = TokenModel::Literal(lit@);
                self.tokens.push(Token::Literal(lit));
                assert(tokens_model(self.tokens@) =~= t0.push(tv));
                self.buffer = Vec::new();
                return Ok(());
            } else if c == '\\' {
                if self.pos + 1 >= n {
                    self.buffer = Vec::new();
                    return Err(ParseError::UnterminatedLiteral);
                }
                let e = self.input[self.pos + 1];
                let u = if e == '"' {
                    '"'
                } else if e == '\\' {
                    '\\'
                } else if e == 'n' {
                    '\n'
                } else if e == 't' {
                    '\t'
                } else {
                    self.buffer = Vec::new();
                    return Err(ParseError::InvalidEscape(e));
                };
                self.buffer.push(u);
                self.pos = self.pos + 2;
                proof {
                    match literal_at(s, self.pos as int) {
                        Ok((rest, j)) => {
                            assert(before + (seq![u] + rest) =~= self.buffer@ + rest);
                        },
                        Err(_) => {},
                    }
                }
            } else {
                self.buffer.push(c);
                self.pos = self.pos + 1;
                proof {
                    match literal_at(s, self.pos as int) {
                        Ok((rest, j)) => {
                            assert(before + (seq![c] + rest) =~= self.buffer@ + rest);
                        },
                        Err(_) => {},
                    }
                }
            }
        }
    }
}

/// The command word that the characters spell, if any.
fn keyword_from(w: &Vec<char>) -> (r: Option<Keyword>)
    ensures
        r == keyword_of(w@),
{
    if chars_equal(w, &vec!['G', 'E', 'T']) || chars_equal(w, &vec!['g', 'e', 't']) {
        Some(Keyword::Get)
    } else if chars_equal(w, &vec!['P', 'U', 'T']) || chars_equal(w, &vec!['p', 'u', 't']) {
        Some(Keyword::Put)
    } else if chars_equal(w, &vec!['D', 'E', 'L', 'E', 'T', 'E']) || chars_equal(
        w,
        &vec!['d', 'e', 'l', 'e', 't', 'e'],
    ) {
        Some(Keyword::Delete)
    } else if chars_equal(w, &vec!['E', 'X', 'I', 'T']) || chars_equal(w, &vec!['e', 'x', 'i', 't']) {
        Some(Keyword::Exit)
    } else if chars_equal(w, &vec!['B', 'E', 'G', 'I', 'N']) || chars_equal(
        w,
        &vec!['b', 'e', 'g', 'i', 'n'],
    ) {
        Some(Keyword::Begin)
    } else if chars_equal(w, &vec!['C', 'O', 'M', 'M', 'I', 'T']) || chars_equal(
        w,
        &vec!['c', 'o', 'm', 'm', 'i', 't'],
    ) {
        Some(Keyword::Commit)
    } else if chars_equal(w, &vec!['R', 'O', 'L', 'L', 'B', 'A', 'C', 'K']) || chars_equal(
        w,
        &vec!['r', 'o', 'l', 'l', 'b', 'a', 'c', 'k'],
    ) {
        Some(Keyword::Rollback)
    } else {
        None
    }
}

/// Whether two character lists are equal.
fn chars_equal(a: &Vec<char>, b: &Vec<char>) -> (r: bool)
    ensures
        r == (a@ == b@),
{
    if a.len() != b.len() {
        return false;
    }
    let mut i: usize = 0;
    while i < a.len()
        invariant
            a@.len() == b@.len(),
            i <= a@.len(),
            forall|k: int| 0 <= k < i ==> a@[k] == b@[k],
        decreases a@.len() - i,
    {
        if a[i] != b[i] {
            return false;
        }
        i = i + 1;
    }
    assert(a@ =~= b@);
    true
}

proof fn lemma_word_len_bound(s: Seq<char>, i: int)
    requires
        0 <= i <= s.len(),
    ensures
        i + word_len(s, i) <= s.len(),
    decreases s.len() - i,
{
    if i < s.len() && is_ident_char(s[i]) {
        lemma_word_len_bound(s, i + 1);
    }
}

/// Word characters from `i` up to `p`, and none at `p`, make a word of
/// length `p - i`.
proof fn lemma_word_len_exact(s: Seq<char>, i: int, p: int)
    requires
        0 <= i <= p <= s.len(),
        forall|k: int| i <= k < p ==> is_ident_char(#[trigger] s[k]),
        p == s.len() || !is_ident_char(s[p]),
    ensures
        word_len(s, i) == p - i,
    decreases p - i,
{
    if i < p {
        lemma_word_len_exact(s, i + 1, p);
    }
}

/// Word characters from `i` up to `p` lie within the word at `i`.
proof fn lemma_word_len_exact_prefix(s: Seq<char>, i: int, p: int)
    requires
        0 <= i <= p <= s.len(),
        forall|k: int| i <= k < p ==> is_ident_char(#[trigger] s[k]),
    ensures
        p <= i + word_len(s, i),
    decreases p - i,
{
    if i < p {
        lemma_word_len_exact_prefix(s, i + 1, p);
    }
}

/// The identifier at `pos`, after the command word `keyword`.
pub fn parse_identifier(tokens: &Vec<Token>, pos: usize, keyword: Keyword) -> (r: Result<String, ParseError>)
    ensures
        match r {
            Ok(id) => pos < tokens@.len() && tokens@[pos as int]@ == TokenModel::Ident(id@),
            Err(e) => e == ParseError::ExpectedIdentifier(keyword) && !(pos < tokens@.len() && tokens@[pos as int] is Ident),
        },
{
    if pos < tokens.len() {
        match &tokens[pos] {
            Token::Ident(id) => Ok(id.clone()),
            _ => Err(ParseError::ExpectedIdentifier(keyword)),
        }
    } else {
        Err(ParseError::ExpectedIdentifier(keyword))
    }
}

/// `PUT <ident>` read; the literal and the end follow.
pub fn process_put_keyword_with_key(ident: String, tokens: &Vec<Token>) -> (r: Result<Command, ParseError>)
    requires
        tokens@.len() >= 2,
        tokens@[0]@ == TokenModel::Keyword(Keyword::Put),
        tokens@[1]@ == TokenModel::Ident(ident@),
    ensures
        match r {
            Ok(c) => parse_tokens_spec(tokens_model(tokens@)) == Ok::<CommandModel, ParseError>(c@),
            Err(e) => parse_tokens_spec(tokens_model(tokens@)) == Err::<CommandModel, ParseError>(e),
        },
{
    if tokens.len() >= 3 {
        match &tokens[2] {
            Token::Literal(literal) => {
                if tokens.len() > 3 {
                    return Err(ParseError::UnexpectedToken);
                }
                Ok(Command::Put(PutCommand(ident, literal.clone())))
            },
            _ => Err(ParseError::ExpectedLiteral),
        }
    } else {
        Err(ParseError::ExpectedLiteral)
    }
}

/// `PUT` read; the rest of the command follows.
pub fn process_put_keyword(tokens: &Vec<Token>) -> (r: Result<Command, ParseError>)
    requires
        tokens@.len() >= 1,
        tokens@[0]@ == TokenModel::Keyword(Keyword::Put),
    ensures
        match r {
            Ok(c) => parse_tokens_spec(tokens_model(tokens@)) == Ok::<CommandModel, ParseError>(c@),
            Err(e) => parse_tokens_spec(tokens_model(tokens@)) == Err::<CommandModel, ParseError>(e),
        },
{
    let ident = parse_identifier(tokens, 1, Keyword::Put)?;
    process_put_keyword_with_key(ident, tokens)
}

/// `GET` read; the identifier and the end follow.
pub fn process_get_keyword(tokens: &Vec<Token>) -> (r: Result<Command, ParseError>)
    requires
        tokens@.len() >= 1,
        tokens@[0]@ == TokenModel::Keyword(Keyword::Get),
    ensures
        match r {
            Ok(c) => parse_tokens_spec(tokens_model(tokens@)) == Ok::<CommandModel, ParseError>(c@),
            Err(e) => parse_tokens_spec(tokens_model(tokens@)) == Err::<CommandModel, ParseError>(e),
        },
{
    let ident = parse_identifier(tokens, 1, Keyword::Get)?;
    if tokens.len() > 2 {
        return Err(ParseError::UnexpectedToken);
    }
    Ok(Command::Get(GetCommand(ident)))
}

/// `DELETE` read; the identifier and the end follow.
pub fn process_delete_keyword(tokens: &Vec<Token>) -> (r: Result<Command, ParseError>)
    requires
        tokens@.len() >= 1,
        tokens@[0]@ == TokenModel::Keyword(Keyword::Delete),
    ensures
        match r {
            Ok(c) => parse_tokens_spec(tokens_model(tokens@)) == Ok::<CommandModel, ParseError>(c@),
            Err(e) => parse_tokens_spec(tokens_model(tokens@)) == Err::<CommandModel, ParseError>(e),
        },
{
    let ident = parse_identifier(tokens, 1, Keyword::Delete)?;
    if tokens.len() > 2 {
        return Err(ParseError::UnexpectedToken);
    }
    Ok(Command::Delete(DeleteCommand(ident)))
}

/// The command that the tokens spell.
pub fn parse_tokens(tokens: &Vec<Token>) -> (r: Result<Command, ParseError>)
    ensures
        match r {
            Ok(c) => parse_tokens_spec(tokens_model(tokens@)) == Ok::<CommandModel, ParseError>(c@),
            Err(e) => parse_tokens_spec(tokens_model(tokens@)) == Err::<CommandModel, ParseError>(e),
        },
{
    if tokens.len() == 0 {
        return Err(ParseError::UnexpectedEnd);
    }
    let only = tokens.len() == 1;
    match &tokens[0] {
        Token::Keyword(k) => match k {
            Keyword::Get => process_get_keyword(tokens),
            Keyword::Put => process_put_keyword(tokens),
            Keyword::Delete => process_delete_keyword(tokens),
            Keyword::Exit => Ok(Command::Exit),
            Keyword::Begin => if only { Ok(Command::Begin) } else { Err(ParseError::UnexpectedToken) },
            Keyword::Commit => if only { Ok(Command::Commit) } else { Err(ParseError::UnexpectedToken) },
            Keyword::Rollback => if only { Ok(Command::Rollback) } else { Err(ParseError::UnexpectedToken) },
        },
        _ => Err(ParseError::ExpectedKeyword),
    }
}

} // verus!
