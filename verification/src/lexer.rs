//! Tokens of the expression language and the lexer that finds them.

use vstd::prelude::*;

verus! {

/// The classes of token.
#[derive(Clone, Copy, Debug, PartialEq, Eq, Structural)]
pub enum TokenKind {
    /// A variable name.
    Var,
    /// `!`
    Not,
    /// `&` or `*`
    And,
    /// `|` or `+`
    Or,
    /// `(`
    OpenRound,
    /// `)`
    CloseRound,
    /// `[`
    OpenSquare,
    /// `]`
    CloseSquare,
}

/// A token: its class and the characters `start..end` of the text it spans.
#[derive(Clone, Copy, Debug, PartialEq, Eq, Structural)]
pub struct Token {
    pub kind: TokenKind,
    pub start: usize,
    pub end: usize,
}

/// What the parser was looking for where it gave up.
#[derive(Clone, Copy, Debug, PartialEq, Eq, Structural)]
pub enum Expected {
    /// A character of the language: the one found is none.
    Symbol,
    /// A variable name: the word found has digits only.
    Variable,
    /// A variable, a negation or an opening bracket.
    Operand,
    /// A binary operator or the end of the text.
    Operator,
    /// The bracket that closes the one last opened.
    Closing,
}

/// Why a text is no expression: the character position at which the parser
/// gave up (the length of the text where it ran out) and what it wanted there.
#[derive(Clone, Copy, Debug, PartialEq, Eq, Structural)]
pub struct SyntaxError {
    pub position: usize,
    pub expected: Expected,
}

/// Space, tab, line feed and carriage return separate tokens.
pub open spec fn is_space(c: char) -> bool {
    c == ' ' || c == '\t' || c == '\n' || c == '\r'
}

/// The decimal digits.
pub open spec fn is_digit(c: char) -> bool {
    '0' <= c <= '9'
}

/// The characters of a word: letters, digits and the underscore.
pub open spec fn is_word(c: char) -> bool {
    ('a' <= c <= 'z') || ('A' <= c <= 'Z') || is_digit(c) || c == '_'
}

/// The class of the token that the one character `c` makes, if it makes one.
pub open spec fn symbol_kind(c: char) -> Option<TokenKind> {
    if c == '!' {
        Some(TokenKind::Not)
    } else if c == '&' || c == '*' {
        Some(TokenKind::And)
    } else if c == '|' || c == '+' {
        Some(TokenKind::Or)
    } else if c == '(' {
        Some(TokenKind::OpenRound)
    } else if c == ')' {
        Some(TokenKind::CloseRound)
    } else if c == '[' {
        Some(TokenKind::OpenSquare)
    } else if c == ']' {
        Some(TokenKind::CloseSquare)
    } else {
        None
    }
}

/// The number of word characters from position `i` on, up to the first
/// character that is none.
pub open spec fn word_len(s: Seq<char>, i: int) -> nat
    decreases s.len() - i,
{
    if 0 <= i < s.len() && is_word(s[i]) {
        1 + word_len(s, i + 1)
    } else {
        0
    }
}

/// The characters `i..j` of `s` are all digits.
pub open spec fn all_digits(s: Seq<char>, i: int, j: int) -> bool {
    forall|k: int| i <= k < j ==> is_digit(#[trigger] s[k])
}

/// `tokens` before what `rest` holds, or the error of `rest`.
pub open spec fn after(tokens: Seq<Token>, rest: Result<Seq<Token>, SyntaxError>) -> Result<
    Seq<Token>,
    SyntaxError,
> {
    match rest {
        Ok(more) => Ok(tokens + more),
        Err(error) => Err(error),
    }
}

/// A word never runs past the end of the text.
pub proof fn lemma_word_len_bound(s: Seq<char>, i: int)
    requires
        0 <= i <= s.len(),
    ensures
        i + word_len(s, i) <= s.len(),
    decreases s.len() - i,
{
    if i < s.len() && is_word(s[i]) {
        lemma_word_len_bound(s, i + 1);
    }
}

/// The tokens of `s` from position `i` on. White space is skipped; a word is
/// the longest run of word characters and must hold a character that is no
/// digit; any other character is a token by itself or an error.
pub open spec fn lex(s: Seq<char>, i: int) -> Result<Seq<Token>, SyntaxError>
    decreases s.len() - i,
{
    if i < 0 || i >= s.len() {
        Ok(Seq::empty())
    } else if is_space(s[i]) {
        lex(s, i + 1)
    } else if is_word(s[i]) {
        let j = i + 1 + word_len(s, i + 1);
        if all_digits(s, i, j) {
            Err(SyntaxError { position: i as usize, expected: Expected::Variable })
        } else {
            proof {
                lemma_word_len_bound(s, i + 1);
            }
            after(
                seq![Token { kind: TokenKind::Var, start: i as usize, end: j as usize }],
                lex(s, j),
            )
        }
    } else {
        match symbol_kind(s[i]) {
            Some(kind) => after(
                seq![Token { kind, start: i as usize, end: (i + 1) as usize }],
                lex(s, i + 1),
            ),
            None => Err(SyntaxError { position: i as usize, expected: Expected::Symbol }),
        }
    }
}

/// A name that the lexer reads as one variable: word characters, one at
/// least, and not digits only.
pub open spec fn is_name(name: Seq<char>) -> bool {
    &&& name.len() >= 1
    &&& forall|k: int| 0 <= k < name.len() ==> is_word(#[trigger] name[k])
    &&& exists|k: int| 0 <= k < name.len() && !is_digit(#[trigger] name[k])
}

/// The characters counted by `word_len` are word characters.
proof fn lemma_word_chars(s: Seq<char>, i: int)
    requires
        0 <= i,
    ensures
        i + word_len(s, i) <= s.len() || word_len(s, i) == 0,
        forall|k: int| i <= k < i + word_len(s, i) ==> is_word(#[trigger] s[k]),
    decreases s.len() - i,
{
    if i < s.len() && is_word(s[i]) {
        lemma_word_chars(s, i + 1);
    }
}

/// Every variable token that the lexer finds spans a name.
pub proof fn lemma_lex_names(s: Seq<char>, i: int)
    requires
        0 <= i,
        s.len() <= usize::MAX,
        lex(s, i) is Ok,
    ensures
        forall|k: int|
            0 <= k < lex(s, i)->Ok_0.len() && (#[trigger] lex(s, i)->Ok_0[k]).kind == TokenKind::Var
                ==> is_name(
                s.subrange(lex(s, i)->Ok_0[k].start as int, lex(s, i)->Ok_0[k].end as int),
            ),
    decreases s.len() - i,
{
    let found = lex(s, i)->Ok_0;
    if i >= s.len() {
    } else if is_space(s[i]) {
        lemma_lex_names(s, i + 1);
    } else if is_word(s[i]) {
        let j = i + 1 + word_len(s, i + 1);
        lemma_word_chars(s, i + 1);
        lemma_lex_names(s, j);
        let rest = lex(s, j)->Ok_0;
        let name = s.subrange(i, j);
        let d = choose|d: int| i <= d < j && !is_digit(#[trigger] s[d]);
        assert(!is_digit(name[d - i]));
        assert(is_name(name));
        assert forall|k: int| 0 <= k < found.len() && (#[trigger] found[k]).kind == TokenKind::Var implies is_name(
            s.subrange(found[k].start as int, found[k].end as int),
        ) by {
            if k > 0 {
                assert(found[k] == rest[k - 1]);
            }
        }
    } else {
        lemma_lex_names(s, i + 1);
        let rest = lex(s, i + 1)->Ok_0;
        assert forall|k: int| 0 <= k < found.len() && (#[trigger] found[k]).kind == TokenKind::Var implies is_name(
            s.subrange(found[k].start as int, found[k].end as int),
        ) by {
            if k > 0 {
                assert(found[k] == rest[k - 1]);
            }
        }
    }
}

/// Every token spans characters of the text, in the order of the tokens.
pub open spec fn spans_valid(s: Seq<char>, tokens: Seq<Token>) -> bool {
    forall|k: int|
        0 <= k < tokens.len() ==> (#[trigger] tokens[k]).start < tokens[k].end <= s.len()
}

fn is_space_char(c: char) -> (r: bool)
    ensures
        r == is_space(c),
{
    c == ' ' || c == '\t' || c == '\n' || c == '\r'
}

fn is_digit_char(c: char) -> (r: bool)
    ensures
        r == is_digit(c),
{
    '0' <= c && c <= '9'
}

fn is_word_char(c: char) -> (r: bool)
    ensures
        r == is_word(c),
{
    ('a' <= c && c <= 'z') || ('A' <= c && c <= 'Z') || is_digit_char(c) || c == '_'
}

fn symbol_of(c: char) -> (r: Option<TokenKind>)
    ensures
        r == symbol_kind(c),
{
    if c == '!' {
        Some(TokenKind::Not)
    } else if c == '&' || c == '*' {
        Some(TokenKind::And)
    } else if c == '|' || c == '+' {
        Some(TokenKind::Or)
    } else if c == '(' {
        Some(TokenKind::OpenRound)
    } else if c == ')' {
        Some(TokenKind::CloseRound)
    } else if c == '[' {
        Some(TokenKind::OpenSquare)
    } else if c == ']' {
        Some(TokenKind::CloseSquare)
    } else {
        None
    }
}

/// The characters of `text`.
fn chars_of(text: &str) -> (r: Vec<char>)
    ensures
        r@ == text@,
{
    let mut out: Vec<char> = Vec::new();
    for c in it: text.chars()
        invariant
            out@ == it.seq().take(it.index() as int),
            it.seq() == text@,
    {
        out.push(c);
    }
    out
}

/// Splits `input` into its tokens, or says where no token could be read.
pub fn tokenize(input: &str) -> (r: Result<Vec<Token>, SyntaxError>)
    ensures
        match r {
            Ok(tokens) => lex(input@, 0) == Ok::<Seq<Token>, SyntaxError>(tokens@) && spans_valid(
                input@,
                tokens@,
            ),
            Err(error) => lex(input@, 0) == Err::<Seq<Token>, SyntaxError>(error),
        },
        input@.len() <= usize::MAX,
{
    let chars = chars_of(input);
    let n = chars.len();
    let ghost s = input@;
    let mut tokens: Vec<Token> = Vec::new();
    let mut i: usize = 0;
    proof {
        assert(after(tokens@, lex(s, 0)) == lex(s, 0)) by {
            match lex(s, 0) {
                Ok(more) => {
                    assert(tokens@ + more =~= more);
                },
                Err(_) => {},
            }
        }
    }
    while i < n
        invariant
            i <= n,
            s == input@,
            n == s.len(),
            chars@ == s,
            lex(s, 0) == after(tokens@, lex(s, i as int)),
            spans_valid(s, tokens@),
        decreases n - i,
    {
        let c = chars[i];
        if is_space_char(c) {
            i += 1;
        } else if is_word_char(c) {
            let start = i;
            let mut numeric = is_digit_char(c);
            i += 1;
            while i < n && is_word_char(chars[i])
                invariant
                    start < i <= n,
                    n == s.len(),
                    chars@ == s,
                    word_len(s, start + 1) == (i - start - 1) + word_len(s, i as int),
                    numeric == all_digits(s, start as int, i as int),
                decreases n - i,
            {
                numeric = numeric && is_digit_char(chars[i]);
                i += 1;
            }
            if numeric {
                assert(word_len(s, i as int) == 0);
                return Err(SyntaxError { position: start, expected: Expected::Variable });
            }
            let token = Token { kind: TokenKind::Var, start, end: i };
            proof {
                lemma_after_push(tokens@, token, lex(s, i as int));
            }
            tokens.push(token);
        } else {
            match symbol_of(c) {
                Some(kind) => {
                    let token = Token { kind, start: i, end: i + 1 };
                    proof {
                        lemma_after_push(tokens@, token, lex(s, i + 1));
                    }
                    tokens.push(token);
                    i += 1;
                },
                None => {
                    return Err(SyntaxError { position: i, expected: Expected::Symbol });
                },
            }
        }
    }
    proof {
        assert(tokens@ + Seq::<Token>::empty() =~= tokens@);
    }
    Ok(tokens)
}

/// Putting a token in front of the rest is putting it behind what came before.
proof fn lemma_after_push(
    tokens: Seq<Token>,
    token: Token,
    rest: Result<Seq<Token>, SyntaxError>,
)
    ensures
        after(tokens, after(seq![token], rest)) == after(tokens.push(token), rest),
{
    match rest {
        Ok(more) => {
            assert(tokens + (seq![token] + more) =~= tokens.push(token) + more);
        },
        Err(_) => {},
    }
}

} // verus!
