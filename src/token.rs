use vstd::prelude::*;

verus! {

/// A source range, `start..end` in characters, within a named file.
#[derive(Debug, Clone)]
pub struct Span {
    pub file: String,
    pub start: usize,
    pub end: usize,
}

#[derive(Debug, Clone)]
pub struct Token {
    pub span: Span,
    pub kind: TokenKind,
    pub excerpt: Option<String>,
}

#[derive(Debug, Copy, Clone, Eq, PartialEq, Structural)]
pub enum TokenKind {
    End,
    Error,
    Whitespace,
    Comment,
    LineBreak,
    Identifier,
    Number,
    String,
    ParenOpen,
    ParenClose,
    BracketOpen,
    BracketClose,
    BraceOpen,
    BraceClose,
    Dot,
    Comma,
    Colon,
    Arrow,
    Hash,
    Equal,
    Plus,
    Minus,
    Asterisk,
    Slash,
    Percent,
    Exclamation,
    Ampersand,
    VerticalBar,
    Circumflex,
    Tilde,
    AmpersandAmpersand,
    VerticalBarVerticalBar,
    EqualEqual,
    ExclamationEqual,
    LessThan,
    LessThanEqual,
    GreaterThan,
    GreaterThanEqual,
}

impl TokenKind {
    pub open spec fn carries_text(self) -> bool {
        self == TokenKind::Identifier || self == TokenKind::Number || self == TokenKind::String
    }

    /// Whether tokens of this kind keep the source text they cover.
    pub fn needs_excerpt(self) -> (r: bool)
        ensures
            r == self.carries_text(),
    {
        self == TokenKind::Identifier || self == TokenKind::Number || self == TokenKind::String
    }
}

/// The character classes that a token's body is made of.
pub enum CharClass {
    Whitespace,
    NotLineBreak,
    IdentifierMid,
    NumberMid,
    NotQuote,
}

pub open spec fn spec_is_whitespace(c: char) -> bool {
    c == ' ' || c == '\t' || c == '\r'
}

pub open spec fn spec_is_identifier_start(c: char) -> bool {
    ('a' <= c && c <= 'z') || ('A' <= c && c <= 'Z') || c == '_'
}

pub open spec fn spec_is_identifier_mid(c: char) -> bool {
    spec_is_identifier_start(c) || ('0' <= c && c <= '9')
}

pub open spec fn spec_is_number_start(c: char) -> bool {
    '0' <= c && c <= '9'
}

pub open spec fn spec_is_number_mid(c: char) -> bool {
    spec_is_identifier_mid(c) || c == '.' || c == '\''
}

pub open spec fn in_class(cls: CharClass, c: char) -> bool {
    match cls {
        CharClass::Whitespace => spec_is_whitespace(c),
        CharClass::NotLineBreak => c != '\n',
        CharClass::IdentifierMid => spec_is_identifier_mid(c),
        CharClass::NumberMid => spec_is_number_mid(c),
        CharClass::NotQuote => c != '"',
    }
}

/// The first index at or after `i` whose character is not in `cls`, or the
/// length of `s` if there is none.
pub open spec fn run_end(cls: CharClass, s: Seq<char>, i: int) -> int
    decreases s.len() - i,
{
    if 0 <= i < s.len() && in_class(cls, s[i]) {
        run_end(cls, s, i + 1)
    } else {
        i
    }
}

pub proof fn lemma_run_end_bounds(cls: CharClass, s: Seq<char>, i: int)
    requires
        0 <= i <= s.len(),
    ensures
        i <= run_end(cls, s, i) <= s.len(),
        run_end(cls, s, i) == s.len() || !in_class(cls, s[run_end(cls, s, i)]),
    decreases s.len() - i,
{
    if i < s.len() && in_class(cls, s[i]) {
        lemma_run_end_bounds(cls, s, i + 1);
    }
}

pub open spec fn spec_whitespace(s: Seq<char>) -> Option<(TokenKind, nat)> {
    if s.len() > 0 && spec_is_whitespace(s[0]) {
        Some((TokenKind::Whitespace, run_end(CharClass::Whitespace, s, 0) as nat))
    } else {
        None
    }
}

pub open spec fn spec_comment(s: Seq<char>) -> Option<(TokenKind, nat)> {
    if s.len() > 0 && s[0] == ';' {
        Some((TokenKind::Comment, run_end(CharClass::NotLineBreak, s, 0) as nat))
    } else {
        None
    }
}

pub open spec fn spec_identifier(s: Seq<char>) -> Option<(TokenKind, nat)> {
    if s.len() > 0 && spec_is_identifier_start(s[0]) {
        Some((TokenKind::Identifier, run_end(CharClass::IdentifierMid, s, 0) as nat))
    } else {
        None
    }
}

pub open spec fn spec_number(s: Seq<char>) -> Option<(TokenKind, nat)> {
    if s.len() > 0 && spec_is_number_start(s[0]) {
        Some((TokenKind::Number, run_end(CharClass::NumberMid, s, 0) as nat))
    } else {
        None
    }
}

/// A string token runs from its opening quote up to, not including, the
/// closing quote; without a closing quote there is no string token.
pub open spec fn spec_string(s: Seq<char>) -> Option<(TokenKind, nat)> {
    if s.len() > 0 && s[0] == '"' && run_end(CharClass::NotQuote, s, 1) < s.len() {
        Some((TokenKind::String, run_end(CharClass::NotQuote, s, 1) as nat))
    } else {
        None
    }
}

pub open spec fn two_char_kind(a: char, b: char) -> Option<TokenKind> {
    if a == '-' && b == '>' {
        Some(TokenKind::Arrow)
    } else if a == '&' && b == '&' {
        Some(TokenKind::AmpersandAmpersand)
    } else if a == '|' && b == '|' {
        Some(TokenKind::VerticalBarVerticalBar)
    } else if a == '=' && b == '=' {
        Some(TokenKind::EqualEqual)
    } else if a == '!' && b == '=' {
        Some(TokenKind::ExclamationEqual)
    } else if a == '<' && b == '=' {
        Some(TokenKind::LessThanEqual)
    } else if a == '>' && b == '=' {
        Some(TokenKind::GreaterThanEqual)
    } else {
        None
    }
}

pub open spec fn one_char_kind(c: char) -> Option<TokenKind> {
    if c == '\n' { Some(TokenKind::LineBreak) }
    else if c == '(' { Some(TokenKind::ParenOpen) }
    else if c == ')' { Some(TokenKind::ParenClose) }
    else if c == '[' { Some(TokenKind::BracketOpen) }
    else if c == ']' { Some(TokenKind::BracketClose) }
    else if c == '{' { Some(TokenKind::BraceOpen) }
    else if c == '}' { Some(TokenKind::BraceClose) }
    else if c == '.' { Some(TokenKind::Dot) }
    else if c == ',' { Some(TokenKind::Comma) }
    else if c == ':' { Some(TokenKind::Colon) }
    else if c == '#' { Some(TokenKind::Hash) }
    else if c == '+' { Some(TokenKind::Plus) }
    else if c == '-' { Some(TokenKind::Minus) }
    else if c == '*' { Some(TokenKind::Asterisk) }
    else if c == '/' { Some(TokenKind::Slash) }
    else if c == '%' { Some(TokenKind::Percent) }
    else if c == '^' { Some(TokenKind::Circumflex) }
    else if c == '~' { Some(TokenKind::Tilde) }
    else if c == '&' { Some(TokenKind::Ampersand) }
    else if c == '|' { Some(TokenKind::VerticalBar) }
    else if c == '=' { Some(TokenKind::Equal) }
    else if c == '!' { Some(TokenKind::Exclamation) }
    else if c == '<' { Some(TokenKind::LessThan) }
    else if c == '>' { Some(TokenKind::GreaterThan) }
    else { None }
}

/// Operators and punctuation; a two-character operator wins over its
/// one-character prefix.
pub open spec fn spec_fixed(s: Seq<char>) -> Option<(TokenKind, nat)> {
    if s.len() >= 2 && two_char_kind(s[0], s[1]).is_some() {
        Some((two_char_kind(s[0], s[1]).unwrap(), 2))
    } else if s.len() >= 1 && one_char_kind(s[0]).is_some() {
        Some((one_char_kind(s[0]).unwrap(), 1))
    } else {
        None
    }
}

/// The kind and length of the token at the start of a non-empty `s`.
pub open spec fn next_token(s: Seq<char>) -> (TokenKind, nat) {
    if spec_whitespace(s).is_some() { spec_whitespace(s).unwrap() }
    else if spec_comment(s).is_some() { spec_comment(s).unwrap() }
    else if spec_identifier(s).is_some() { spec_identifier(s).unwrap() }
    else if spec_number(s).is_some() { spec_number(s).unwrap() }
    else if spec_string(s).is_some() { spec_string(s).unwrap() }
    else if spec_fixed(s).is_some() { spec_fixed(s).unwrap() }
    else { (TokenKind::Error, 1) }
}

pub proof fn lemma_next_token_len(s: Seq<char>)
    requires
        s.len() > 0,
    ensures
        1 <= next_token(s).1 <= s.len(),
{
    lemma_run_end_bounds(CharClass::Whitespace, s, 0);
    lemma_run_end_bounds(CharClass::NotLineBreak, s, 0);
    lemma_run_end_bounds(CharClass::IdentifierMid, s, 0);
    lemma_run_end_bounds(CharClass::NumberMid, s, 0);
    lemma_run_end_bounds(CharClass::NotQuote, s, 1);
}

/// The tokens of `src` from index `i` on, as (kind, start, end), closed by an
/// end token at the end of the source.
pub open spec fn lex(src: Seq<char>, i: int) -> Seq<(TokenKind, int, int)>
    decreases src.len() - i,
{
    if i < 0 || i >= src.len() {
        seq![(TokenKind::End, i, i)]
    } else {
        let t = next_token(src.subrange(i, src.len() as int));
        let l = t.1 as int;
        if l <= 0 || i + l > src.len() {
            seq![(TokenKind::End, i, i)]
        } else {
            seq![(t.0, i, i + l)] + lex(src, i + l)
        }
    }
}

pub fn is_whitespace(c: char) -> (r: bool)
    ensures
        r == spec_is_whitespace(c),
{
    c == ' ' || c == '\t' || c == '\r'
}

pub fn is_identifier_start(c: char) -> (r: bool)
    ensures
        r == spec_is_identifier_start(c),
{
    ('a' <= c && c <= 'z') || ('A' <= c && c <= 'Z') || c == '_'
}

pub fn is_identifier_mid(c: char) -> (r: bool)
    ensures
        r == spec_is_identifier_mid(c),
{
    ('a' <= c && c <= 'z') || ('A' <= c && c <= 'Z') || ('0' <= c && c <= '9') || c == '_'
}

pub fn is_number_start(c: char) -> (r: bool)
    ensures
        r == spec_is_number_start(c),
{
    '0' <= c && c <= '9'
}

pub fn is_number_mid(c: char) -> (r: bool)
    ensures
        r == spec_is_number_mid(c),
{
    ('a' <= c && c <= 'z') || ('A' <= c && c <= 'Z') || ('0' <= c && c <= '9') || c == '_'
        || c == '.' || c == '\''
}

pub fn check_for_whitespace(src: &[char]) -> (r: Option<(TokenKind, usize)>)
    requires
        src@.len() > 0,
    ensures
        r matches Some((k, l)) ==> spec_whitespace(src@) == Some((k, l as nat)),
        r is None ==> spec_whitespace(src@) is None,
{
    let mut length: usize = 0;
    if !is_whitespace(src[length]) {
        return None;
    }
    while length < src.len() && is_whitespace(src[length])
        invariant
            length <= src@.len(),
            run_end(CharClass::Whitespace, src@, length as int)
                == run_end(CharClass::Whitespace, src@, 0),
        decreases src@.len() - length,
    {
        length += 1;
    }
    Some((TokenKind::Whitespace, length))
}

pub fn check_for_comment(src: &[char]) -> (r: Option<(TokenKind, usize)>)
    requires
        src@.len() > 0,
    ensures
        r matches Some((k, l)) ==> spec_comment(src@) == Some((k, l as nat)),
        r is None ==> spec_comment(src@) is None,
{
    let mut length: usize = 0;
    if src[length] != ';' {
        return None;
    }
    while length < src.len() && src[length] != '\n'
        invariant
            length <= src@.len(),
            run_end(CharClass::NotLineBreak, src@, length as int)
                == run_end(CharClass::NotLineBreak, src@, 0),
        decreases src@.len() - length,
    {
        length += 1;
    }
    Some((TokenKind::Comment, length))
}

pub fn check_for_identifier(src: &[char]) -> (r: Option<(TokenKind, usize)>)
    requires
        src@.len() > 0,
    ensures
        r matches Some((k, l)) ==> spec_identifier(src@) == Some((k, l as nat)),
        r is None ==> spec_identifier(src@) is None,
{
    let mut length: usize = 0;
    if !is_identifier_start(src[length]) {
        return None;
    }
    while length < src.len() && is_identifier_mid(src[length])
        invariant
            length <= src@.len(),
            run_end(CharClass::IdentifierMid, src@, length as int)
                == run_end(CharClass::IdentifierMid, src@, 0),
        decreases src@.len() - length,
    {
        length += 1;
    }
    Some((TokenKind::Identifier, length))
}

pub fn check_for_number(src: &[char]) -> (r: Option<(TokenKind, usize)>)
    requires
        src@.len() > 0,
    ensures
        r matches Some((k, l)) ==> spec_number(src@) == Some((k, l as nat)),
        r is None ==> spec_number(src@) is None,
{
    let mut length: usize = 0;
    if !is_number_start(src[length]) {
        return None;
    }
    while length < src.len() && is_number_mid(src[length])
        invariant
            length <= src@.len(),
            run_end(CharClass::NumberMid, src@, length as int)
                == run_end(CharClass::NumberMid, src@, 0),
        decreases src@.len() - length,
    {
        length += 1;
    }
    Some((TokenKind::Number, length))
}

pub fn check_for_string(src: &[char]) -> (r: Option<(TokenKind, usize)>)
    requires
        src@.len() > 0,
    ensures
        r matches Some((k, l)) ==> spec_string(src@) == Some((k, l as nat)),
        r is None ==> spec_string(src@) is None,
{
    let mut length: usize = 0;
    if src[length] != '"' {
        return None;
    }
    length += 1;
    while length < src.len() && src[length] != '"'
        invariant
            1 <= length <= src@.len(),
            run_end(CharClass::NotQuote, src@, length as int)
                == run_end(CharClass::NotQuote, src@, 1),
        decreases src@.len() - length,
    {
        length += 1;
    }
    if length >= src.len() {
        return None;
    }
    if src[length] != '"' {
        return None;
    }
    Some((TokenKind::String, length))
}

pub fn check_for_fixed(src: &[char]) -> (r: Option<(TokenKind, usize)>)
    ensures
        r matches Some((k, l)) ==> spec_fixed(src@) == Some((k, l as nat)),
        r is None ==> spec_fixed(src@) is None,
{
    if src.len() >= 2 {
        let a = src[0];
        let b = src[1];
        let two = if a == '-' && b == '>' {
            Some(TokenKind::Arrow)
        } else if a == '&' && b == '&' {
            Some(TokenKind::AmpersandAmpersand)
        } else if a == '|' && b == '|' {
            Some(TokenKind::VerticalBarVerticalBar)
        } else if a == '=' && b == '=' {
            Some(TokenKind::EqualEqual)
        } else if a == '!' && b == '=' {
            Some(TokenKind::ExclamationEqual)
        } else if a == '<' && b == '=' {
            Some(TokenKind::LessThanEqual)
        } else if a == '>' && b == '=' {
            Some(TokenKind::GreaterThanEqual)
        } else {
            None
        };
        if let Some(k) = two {
            return Some((k, 2));
        }
    }
    if src.len() == 0 {
        return None;
    }
    let c = src[0];
    let one = if c == '\n' { Some(TokenKind::LineBreak) }
        else if c == '(' { Some(TokenKind::ParenOpen) }
        else if c == ')' { Some(TokenKind::ParenClose) }
        else if c == '[' { Some(TokenKind::BracketOpen) }
        else if c == ']' { Some(TokenKind::BracketClose) }
        else if c == '{' { Some(TokenKind::BraceOpen) }
        else if c == '}' { Some(TokenKind::BraceClose) }
        else if c == '.' { Some(TokenKind::Dot) }
        else if c == ',' { Some(TokenKind::Comma) }
        else if c == ':' { Some(TokenKind::Colon) }
        else if c == '#' { Some(TokenKind::Hash) }
        else if c == '+' { Some(TokenKind::Plus) }
        else if c == '-' { Some(TokenKind::Minus) }
        else if c == '*' { Some(TokenKind::Asterisk) }
        else if c == '/' { Some(TokenKind::Slash) }
        else if c == '%' { Some(TokenKind::Percent) }
        else if c == '^' { Some(TokenKind::Circumflex) }
        else if c == '~' { Some(TokenKind::Tilde) }
        else if c == '&' { Some(TokenKind::Ampersand) }
        else if c == '|' { Some(TokenKind::VerticalBar) }
        else if c == '=' { Some(TokenKind::Equal) }
        else if c == '!' { Some(TokenKind::Exclamation) }
        else if c == '<' { Some(TokenKind::LessThan) }
        else if c == '>' { Some(TokenKind::GreaterThan) }
        else { None };
    match one {
        Some(k) => Some((k, 1)),
        None => None,
    }
}

/// Relies on `String::push`: appends one character.
#[verifier::external_body]
fn push_char(s: &mut String, c: char)
    ensures
        final(s)@ == old(s)@.push(c),
{
    s.push(c);
}

fn excerpt_of(src: &[char], start: usize, end: usize) -> (r: String)
    requires
        start <= end <= src@.len(),
    ensures
        r@ == src@.subrange(start as int, end as int),
{
    let mut r = String::new();
    let mut i = start;
    while i < end
        invariant
            start <= i <= end <= src@.len(),
            r@ == src@.subrange(start as int, i as int),
        decreases end - i,
    {
        push_char(&mut r, src[i]);
        assert(src@.subrange(start as int, i + 1) == src@.subrange(start as int, i as int).push(
            src@[i as int],
        ));
        i += 1;
    }
    r
}

pub open spec fn token_model(t: Token) -> (TokenKind, int, int) {
    (t.kind, t.span.start as int, t.span.end as int)
}

/// A token keeps the text it covers exactly when its kind carries text.
pub open spec fn excerpt_ok(t: Token, src: Seq<char>) -> bool {
    if t.kind.carries_text() {
        t.excerpt matches Some(e) && e@ == src.subrange(t.span.start as int, t.span.end as int)
    } else {
        t.excerpt is None
    }
}

proof fn lemma_lex_step(src: Seq<char>, i: int)
    requires
        0 <= i < src.len(),
    ensures
        ({
            let t = next_token(src.subrange(i, src.len() as int));
            &&& 1 <= t.1 <= src.len() - i
            &&& lex(src, i) == seq![(t.0, i, i + t.1)] + lex(src, i + t.1)
        }),
{
    lemma_next_token_len(src.subrange(i, src.len() as int));
}

/// Splits `src` into tokens, each with its kind, its span and, for
/// identifiers, numbers and strings, the text it covers; the last token is
/// an end token at the end of the source.
pub fn tokenize(src_filename: String, src: &[char]) -> (r: Vec<Token>)
    ensures
        r@.len() == lex(src@, 0).len(),
        forall|k: int|
            0 <= k < r@.len() ==> {
                &&& #[trigger] token_model(r@[k]) == lex(src@, 0)[k]
                &&& r@[k].span.file@ == src_filename@
                &&& excerpt_ok(r@[k], src@)
            },
{
    let mut tokens: Vec<Token> = Vec::new();
    let mut index: usize = 0;
    while index < src.len()
        invariant
            index <= src@.len(),
            tokens@.len() + lex(src@, index as int).len() == lex(src@, 0).len(),
            forall|k: int|
                0 <= k < lex(src@, index as int).len() ==> #[trigger] lex(src@, index as int)[k]
                    == lex(src@, 0)[tokens@.len() + k],
            forall|k: int|
                0 <= k < tokens@.len() ==> {
                    &&& #[trigger] token_model(tokens@[k]) == lex(src@, 0)[k]
                    &&& tokens@[k].span.file@ == src_filename@
                    &&& excerpt_ok(tokens@[k], src@)
                },
        decreases src@.len() - index,
    {
        let rest = vstd::slice::slice_subrange(src, index, src.len());
        proof {
            lemma_lex_step(src@, index as int);
        }
        let (kind, length) = match check_for_whitespace(rest) {
            Some(t) => t,
            None => match check_for_comment(rest) {
                Some(t) => t,
                None => match check_for_identifier(rest) {
                    Some(t) => t,
                    None => match check_for_number(rest) {
                        Some(t) => t,
                        None => match check_for_string(rest) {
                            Some(t) => t,
                            None => match check_for_fixed(rest) {
                                Some(t) => t,
                                None => (TokenKind::Error, 1),
                            },
                        },
                    },
                },
            },
        };
        let end = index + length;
        let excerpt = if kind.needs_excerpt() {
            Some(excerpt_of(src, index, end))
        } else {
            None
        };
        let token = Token {
            span: Span { file: src_filename.clone(), start: index, end },
            kind,
            excerpt,
        };
        proof {
            let step = lex(src@, index as int);
            assert(step[0] == lex(src@, 0)[tokens@.len() as int]);
            assert forall|k: int| 0 <= k < lex(src@, end as int).len() implies #[trigger] lex(
                src@,
                end as int,
            )[k] == lex(src@, 0)[tokens@.len() + 1 + k] by {
                assert(lex(src@, end as int)[k] == step[k + 1]);
            }
        }
        tokens.push(token);
        index = end;
    }
    let end_token = Token {
        span: Span { file: src_filename.clone(), start: index, end: index },
        kind: TokenKind::End,
        excerpt: None,
    };
    proof {
        assert(lex(src@, index as int)[0] == lex(src@, 0)[tokens@.len() as int]);
    }
    tokens.push(end_token);
    tokens
}

} // verus!
