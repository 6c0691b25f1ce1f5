//! Lexical tokens of the query language and the lexer that produces them.

use vstd::prelude::*;

verus! {

/// A lexical token.
///
/// Keyword and symbol tokens carry no payload.  `Strings` carries the text
/// between (and excluding) the delimiting double quotes, with escape
/// sequences preserved literally.  `Top` and `Tail` carry the raw matched
/// selector text, case-normalised to upper case (for example `TOP(15)`).
/// `Number` carries the raw matched text of the numeric literal.
/// `Error` stands for a maximal run of input that matches no rule.
/// `Eof` is never produced by the lexer; the parser uses it as the token
/// past the end of the sequence.
#[derive(Debug)]
pub enum Token {
    Create,
    Fn,
    Select,
    CountC,
    CountL,
    CountW,
    Star,
    From,
    Top(String),
    Tail(String),
    Where,
    Export,
    Number(String),
    Strings(String),
    LeftParen,
    RightParen,
    LeftBrace,
    RightBrace,
    Plus,
    Minus,
    Slash,
    Assign,
    True,
    False,
    Eos,
    Let,
    NotEquals,
    Like,
    NotLike,
    Regex,
    Eof,
    Error,
}

/// The mathematical value of a [`Token`]: the same variants, with each
/// text payload abstracted to its character sequence.
pub enum TokenModel {
    Create,
    Fn,
    Select,
    CountC,
    CountL,
    CountW,
    Star,
    From,
    Top(Seq<char>),
    Tail(Seq<char>),
    Where,
    Export,
    Number(Seq<char>),
    Strings(Seq<char>),
    LeftParen,
    RightParen,
    LeftBrace,
    RightBrace,
    Plus,
    Minus,
    Slash,
    Assign,
    True,
    False,
    Eos,
    Let,
    NotEquals,
    Like,
    NotLike,
    Regex,
    Eof,
    Error,
}

impl View for Token {
    type V = TokenModel;

    open spec fn view(&self) -> TokenModel {
        match self {
            Token::Create => TokenModel::Create,
            Token::Fn => TokenModel::Fn,
            Token::Select => TokenModel::Select,
            Token::CountC => TokenModel::CountC,
            Token::CountL => TokenModel::CountL,
            Token::CountW => TokenModel::CountW,
            Token::Star => TokenModel::Star,
            Token::From => TokenModel::From,
            Token::Top(s) => TokenModel::Top(s@),
            Token::Tail(s) => TokenModel::Tail(s@),
            Token::Where => TokenModel::Where,
            Token::Export => TokenModel::Export,
            Token::Number(s) => TokenModel::Number(s@),
            Token::Strings(s) => TokenModel::Strings(s@),
            Token::LeftParen => TokenModel::LeftParen,
            Token::RightParen => TokenModel::RightParen,
            Token::LeftBrace => TokenModel::LeftBrace,
            Token::RightBrace => TokenModel::RightBrace,
            Token::Plus => TokenModel::Plus,
            Token::Minus => TokenModel::Minus,
            Token::Slash => TokenModel::Slash,
            Token::Assign => TokenModel::Assign,
            Token::True => TokenModel::True,
            Token::False => TokenModel::False,
            Token::Eos => TokenModel::Eos,
            Token::Let => TokenModel::Let,
            Token::NotEquals => TokenModel::NotEquals,
            Token::Like => TokenModel::Like,
            Token::NotLike => TokenModel::NotLike,
            Token::Regex => TokenModel::Regex,
            Token::Eof => TokenModel::Eof,
            Token::Error => TokenModel::Error,
        }
    }
}

impl DeepView for Token {
    type V = TokenModel;

    open spec fn deep_view(&self) -> TokenModel {
        self.view()
    }
}

impl Clone for Token {
    fn clone(&self) -> (other: Token)
        ensures
            other == *self,
    {
        match self {
            Token::Create => Token::Create,
            Token::Fn => Token::Fn,
            Token::Select => Token::Select,
            Token::CountC => Token::CountC,
            Token::CountL => Token::CountL,
            Token::CountW => Token::CountW,
            Token::Star => Token::Star,
            Token::From => Token::From,
            Token::Top(s) => Token::Top(s.clone()),
            Token::Tail(s) => Token::Tail(s.clone()),
            Token::Where => Token::Where,
            Token::Export => Token::Export,
            Token::Number(s) => Token::Number(s.clone()),
            Token::Strings(s) => Token::Strings(s.clone()),
            Token::LeftParen => Token::LeftParen,
            Token::RightParen => Token::RightParen,
            Token::LeftBrace => Token::LeftBrace,
            Token::RightBrace => Token::RightBrace,
            Token::Plus => Token::Plus,
            Token::Minus => Token::Minus,
            Token::Slash => Token::Slash,
            Token::Assign => Token::Assign,
            Token::True => Token::True,
            Token::False => Token::False,
            Token::Eos => Token::Eos,
            Token::Let => Token::Let,
            Token::NotEquals => Token::NotEquals,
            Token::Like => Token::Like,
            Token::NotLike => Token::NotLike,
            Token::Regex => Token::Regex,
            Token::Eof => Token::Eof,
            Token::Error => Token::Error,
        }
    }
}

impl PartialEq for Token {
    #[verifier::rlimit(60)]
    fn eq(&self, other: &Token) -> (r: bool) {
        match (self, other) {
            (Token::Create, Token::Create) => true,
            (Token::Fn, Token::Fn) => true,
            (Token::Select, Token::Select) => true,
            (Token::CountC, Token::CountC) => true,
            (Token::CountL, Token::CountL) => true,
            (Token::CountW, Token::CountW) => true,
            (Token::Star, Token::Star) => true,
            (Token::From, Token::From) => true,
            (Token::Top(a), Token::Top(b)) => *a == *b,
            (Token::Tail(a), Token::Tail(b)) => *a == *b,
            (Token::Where, Token::Where) => true,
            (Token::Export, Token::Export) => true,
            (Token::Number(a), Token::Number(b)) => *a == *b,
            (Token::Strings(a), Token::Strings(b)) => *a == *b,
            (Token::LeftParen, Token::LeftParen) => true,
            (Token::RightParen, Token::RightParen) => true,
            (Token::LeftBrace, Token::LeftBrace) => true,
            (Token::RightBrace, Token::RightBrace) => true,
            (Token::Plus, Token::Plus) => true,
            (Token::Minus, Token::Minus) => true,
            (Token::Slash, Token::Slash) => true,
            (Token::Assign, Token::Assign) => true,
            (Token::True, Token::True) => true,
            (Token::False, Token::False) => true,
            (Token::Eos, Token::Eos) => true,
            (Token::Let, Token::Let) => true,
            (Token::NotEquals, Token::NotEquals) => true,
            (Token::Like, Token::Like) => true,
            (Token::NotLike, Token::NotLike) => true,
            (Token::Regex, Token::Regex) => true,
            (Token::Eof, Token::Eof) => true,
            (Token::Error, Token::Error) => true,
            _ => false,
        }
    }
}

impl Token {
    /// The text payload carried by a `Strings`, `Top` or `Tail` token.
    pub fn text(self) -> (s: String)
        requires
            self@ is Strings || self@ is Top || self@ is Tail,
        ensures
            s@ == (match self@ {
                TokenModel::Strings(t) => t,
                TokenModel::Top(t) => t,
                TokenModel::Tail(t) => t,
                _ => Seq::<char>::empty(),
            }),
    {
        match self {
            Token::Strings(s) => s,
            Token::Top(s) => s,
            Token::Tail(s) => s,
            _ => String::new(),
        }
    }
}

impl vstd::std_specs::cmp::PartialEqSpecImpl for Token {
    open spec fn obeys_eq_spec() -> bool {
        true
    }

    open spec fn eq_spec(&self, other: &Token) -> bool {
        self@ == other@
    }
}

/// The characters the lexer discards between tokens: space, tab, newline
/// and form feed.
pub open spec fn is_ws_char(c: char) -> bool {
    c == ' ' || c == '\t' || c == '\n' || c == '\u{c}'
}

/// An ASCII decimal digit.
pub open spec fn is_digit_char(c: char) -> bool {
    48 <= (c as u32) && (c as u32) <= 57
}

/// ASCII upper-casing of a single character; everything but a lower-case
/// ASCII letter is left unchanged.
pub open spec fn upper_char(c: char) -> char {
    match c {
        'a' => 'A',
        'b' => 'B',
        'c' => 'C',
        'd' => 'D',
        'e' => 'E',
        'f' => 'F',
        'g' => 'G',
        'h' => 'H',
        'i' => 'I',
        'j' => 'J',
        'k' => 'K',
        'l' => 'L',
        'm' => 'M',
        'n' => 'N',
        'o' => 'O',
        'p' => 'P',
        'q' => 'Q',
        'r' => 'R',
        's' => 'S',
        't' => 'T',
        'u' => 'U',
        'v' => 'V',
        'w' => 'W',
        'x' => 'X',
        'y' => 'Y',
        'z' => 'Z',
        _ => c,
    }
}

/// `kw` occurs at position `i` of `s`, compared case-insensitively
/// (`kw` itself is written in upper case).
pub open spec fn match_keyword_ci(s: Seq<char>, i: int, kw: Seq<char>) -> bool {
    &&& 0 <= i
    &&& i + kw.len() <= s.len()
    &&& forall|j: int| 0 <= j < kw.len() ==> upper_char(s[i + j]) == kw[j]
}

/// `kw` occurs at position `i` of `s`, compared exactly.
pub open spec fn match_exact(s: Seq<char>, i: int, kw: Seq<char>) -> bool {
    &&& 0 <= i
    &&& i + kw.len() <= s.len()
    &&& forall|j: int| 0 <= j < kw.len() ==> s[i + j] == kw[j]
}

/// Length of the maximal run of decimal digits starting at position `i`.
pub open spec fn digit_run(s: Seq<char>, i: int) -> int
    decreases s.len() - i,
{
    if 0 <= i < s.len() && is_digit_char(s[i]) {
        1 + digit_run(s, i + 1)
    } else {
        0
    }
}

/// Length of the maximal run of characters other than a newline starting
/// at position `i` (the body of a line comment).
pub open spec fn non_nl_run(s: Seq<char>, i: int) -> int
    decreases s.len() - i,
{
    if 0 <= i < s.len() && s[i] != '\n' {
        1 + non_nl_run(s, i + 1)
    } else {
        0
    }
}

/// A line comment `--` starts at position `i`.
pub open spec fn is_comment_at(s: Seq<char>, i: int) -> bool {
    0 <= i && i + 2 <= s.len() && s[i] == '-' && s[i + 1] == '-'
}

/// Scans the inside of a string literal from position `j` (just past the
/// opening quote).  Returns the position just past the closing quote, or
/// `None` if the literal never closes.  A backslash escapes the next
/// character, which may be anything but a newline.
pub open spec fn str_scan(s: Seq<char>, j: int) -> Option<int>
    decreases s.len() - j,
{
    if j < 0 || j >= s.len() {
        None
    } else if s[j] == '"' {
        Some(j + 1)
    } else if s[j] == '\\' {
        if j + 1 < s.len() && s[j + 1] != '\n' {
            str_scan(s, j + 2)
        } else {
            None
        }
    } else {
        str_scan(s, j + 1)
    }
}

/// Length of a bounded-range selector (`prefix` is `TOP(` or `TAIL(`,
/// matched case-insensitively, then one or more digits, then `)`), or 0
/// when no selector starts at `i`.
pub open spec fn selector_len(s: Seq<char>, i: int, prefix: Seq<char>) -> int {
    if match_keyword_ci(s, i, prefix) {
        let d = digit_run(s, i + prefix.len());
        if d > 0 && i + prefix.len() + d < s.len() && s[i + prefix.len() + d] == ')' {
            prefix.len() + d + 1
        } else {
            0
        }
    } else {
        0
    }
}

/// The payload carried by a matched selector: the matched text upper-cased,
/// which is the upper-case prefix, the digits, and the closing parenthesis.
pub open spec fn selector_payload(s: Seq<char>, i: int, prefix: Seq<char>) -> Seq<char> {
    prefix + s.subrange(i + prefix.len(), i + prefix.len() + digit_run(s, i + prefix.len()))
        + ")"@
}

/// Length of a numeric literal starting at `i`: one or more digits,
/// optionally followed by a fractional separator and one or more digits;
/// 0 when no numeric literal starts there.
pub open spec fn number_len(s: Seq<char>, i: int) -> int {
    let d1 = digit_run(s, i);
    if d1 == 0 {
        0
    } else if i + d1 < s.len() && s[i + d1] == '.' && digit_run(s, i + d1 + 1) > 0 {
        d1 + 1 + digit_run(s, i + d1 + 1)
    } else {
        d1
    }
}

/// The token that matches at position `i` of `s` under longest-match-first
/// lexing, together with the length of its matched text; `None` when no
/// token rule matches there.  Whitespace and comments are handled
/// separately (they produce no token) and take priority where they
/// overlap a token rule (a `--` comment over a minus sign).
pub open spec fn token_match_at(s: Seq<char>, i: int) -> Option<(TokenModel, int)> {
    if i < 0 || i >= s.len() {
        None
    } else if match_keyword_ci(s, i, "CREATE"@) {
        Some((TokenModel::Create, "CREATE"@.len() as int))
    } else if match_keyword_ci(s, i, "SELECT"@) {
        Some((TokenModel::Select, "SELECT"@.len() as int))
    } else if match_keyword_ci(s, i, "COUNTC"@) {
        Some((TokenModel::CountC, "COUNTC"@.len() as int))
    } else if match_keyword_ci(s, i, "COUNTL"@) {
        Some((TokenModel::CountL, "COUNTL"@.len() as int))
    } else if match_keyword_ci(s, i, "COUNTW"@) {
        Some((TokenModel::CountW, "COUNTW"@.len() as int))
    } else if match_keyword_ci(s, i, "FROM"@) {
        Some((TokenModel::From, "FROM"@.len() as int))
    } else if match_keyword_ci(s, i, "WHERE"@) {
        Some((TokenModel::Where, "WHERE"@.len() as int))
    } else if match_keyword_ci(s, i, "NOTLIKE"@) {
        Some((TokenModel::NotLike, "NOTLIKE"@.len() as int))
    } else if match_keyword_ci(s, i, "LIKE"@) {
        Some((TokenModel::Like, "LIKE"@.len() as int))
    } else if match_keyword_ci(s, i, "REGEX"@) {
        Some((TokenModel::Regex, "REGEX"@.len() as int))
    } else if match_exact(s, i, "fn"@) {
        Some((TokenModel::Fn, "fn"@.len() as int))
    } else if match_exact(s, i, "true"@) {
        Some((TokenModel::True, "true"@.len() as int))
    } else if match_exact(s, i, "false"@) {
        Some((TokenModel::False, "false"@.len() as int))
    } else if match_exact(s, i, "let"@) {
        Some((TokenModel::Let, "let"@.len() as int))
    } else if selector_len(s, i, "TOP("@) > 0 {
        Some((TokenModel::Top(selector_payload(s, i, "TOP("@)), selector_len(s, i, "TOP("@)))
    } else if selector_len(s, i, "TAIL("@) > 0 {
        Some((TokenModel::Tail(selector_payload(s, i, "TAIL("@)), selector_len(s, i, "TAIL("@)))
    } else if number_len(s, i) > 0 {
        Some((TokenModel::Number(s.subrange(i, i + number_len(s, i))), number_len(s, i)))
    } else if s[i] == '"' && str_scan(s, i + 1) is Some {
        let e = str_scan(s, i + 1)->Some_0;
        Some((TokenModel::Strings(s.subrange(i + 1, e - 1)), e - i))
    } else if i + 2 <= s.len() && s[i] == '!' && s[i + 1] == '=' {
        Some((TokenModel::NotEquals, 2))
    } else if s[i] == '*' {
        Some((TokenModel::Star, 1))
    } else if s[i] == '>' {
        Some((TokenModel::Export, 1))
    } else if s[i] == '(' {
        Some((TokenModel::LeftParen, 1))
    } else if s[i] == ')' {
        Some((TokenModel::RightParen, 1))
    } else if s[i] == '{' {
        Some((TokenModel::LeftBrace, 1))
    } else if s[i] == '}' {
        Some((TokenModel::RightBrace, 1))
    } else if s[i] == '+' {
        Some((TokenModel::Plus, 1))
    } else if s[i] == '-' {
        Some((TokenModel::Minus, 1))
    } else if s[i] == '/' {
        Some((TokenModel::Slash, 1))
    } else if s[i] == '=' {
        Some((TokenModel::Assign, 1))
    } else if s[i] == ';' {
        Some((TokenModel::Eos, 1))
    } else {
        None
    }
}

/// Some lexer rule (whitespace, comment, or a token) applies at position `i`.
pub open spec fn rule_matches_at(s: Seq<char>, i: int) -> bool {
    &&& 0 <= i < s.len()
    &&& {
        ||| is_ws_char(s[i])
        ||| is_comment_at(s, i)
        ||| token_match_at(s, i) is Some
    }
}

/// End of the maximal unmatched run starting at `i`: the first position at
/// or after `i` where some rule matches again, or the end of the input.
pub open spec fn error_run_end(s: Seq<char>, i: int) -> int
    decreases s.len() - i,
{
    if i < 0 || i >= s.len() {
        i
    } else if rule_matches_at(s, i) {
        i
    } else {
        error_run_end(s, i + 1)
    }
}

/// The digit run starting at `i` stays inside `s`, consists of digits, and
/// is maximal.
pub proof fn lemma_digit_run_bounds(s: Seq<char>, i: int)
    requires
        0 <= i <= s.len(),
    ensures
        0 <= digit_run(s, i),
        i + digit_run(s, i) <= s.len(),
        forall|k: int| i <= k < i + digit_run(s, i) ==> is_digit_char(s[k]),
        i + digit_run(s, i) < s.len() ==> !is_digit_char(s[i + digit_run(s, i)]),
    decreases s.len() - i,
{
    if i < s.len() && is_digit_char(s[i]) {
        lemma_digit_run_bounds(s, i + 1);
    }
}

/// The comment body starting at `i` stays inside `s` and stops at a newline
/// or at the end of the input.
pub proof fn lemma_non_nl_run_bounds(s: Seq<char>, i: int)
    requires
        0 <= i <= s.len(),
    ensures
        0 <= non_nl_run(s, i),
        i + non_nl_run(s, i) <= s.len(),
        i + non_nl_run(s, i) < s.len() ==> s[i + non_nl_run(s, i)] == '\n',
    decreases s.len() - i,
{
    if i < s.len() && s[i] != '\n' {
        lemma_non_nl_run_bounds(s, i + 1);
    }
}

/// A closed string literal ends after its opening position and inside `s`.
pub proof fn lemma_str_scan_bounds(s: Seq<char>, j: int)
    requires
        0 <= j <= s.len(),
    ensures
        str_scan(s, j) matches Some(e) ==> j < e <= s.len(),
    decreases s.len() - j,
{
    if j < s.len() && s[j] != '"' {
        if s[j] == '\\' {
            if j + 1 < s.len() && s[j + 1] != '\n' {
                lemma_str_scan_bounds(s, j + 2);
            }
        } else {
            lemma_str_scan_bounds(s, j + 1);
        }
    }
}

/// Every token match has positive length and stays inside the input.
pub proof fn lemma_token_match_len(s: Seq<char>, i: int)
    ensures
        token_match_at(s, i) matches Some(p) ==> 0 < p.1 && 0 <= i && i + p.1 <= s.len(),
{
    if token_match_at(s, i) is Some {
        reveal_strlit("CREATE");
        reveal_strlit("SELECT");
        reveal_strlit("COUNTC");
        reveal_strlit("COUNTL");
        reveal_strlit("COUNTW");
        reveal_strlit("FROM");
        reveal_strlit("WHERE");
        reveal_strlit("NOTLIKE");
        reveal_strlit("LIKE");
        reveal_strlit("REGEX");
        reveal_strlit("fn");
        reveal_strlit("true");
        reveal_strlit("false");
        reveal_strlit("let");
        reveal_strlit("TOP(");
        reveal_strlit("TAIL(");
        lemma_digit_run_bounds(s, i);
        if 0 <= i + "TOP("@.len() <= s.len() {
            lemma_digit_run_bounds(s, i + "TOP("@.len());
        }
        if 0 <= i + "TAIL("@.len() <= s.len() {
            lemma_digit_run_bounds(s, i + "TAIL("@.len());
        }
        if 0 <= i < s.len() {
            let d1 = digit_run(s, i);
            if 0 <= i + d1 + 1 <= s.len() {
                lemma_digit_run_bounds(s, i + d1 + 1);
            }
            lemma_str_scan_bounds(s, i + 1);
        }
    }
}

/// The end of an unmatched run lies at or after its start, inside the input.
pub proof fn lemma_error_run_end_bounds(s: Seq<char>, i: int)
    requires
        0 <= i <= s.len(),
    ensures
        i <= error_run_end(s, i) <= s.len(),
    decreases s.len() - i,
{
    if i < s.len() && !rule_matches_at(s, i) {
        lemma_error_run_end_bounds(s, i + 1);
    }
}

/// The token sequence produced from position `i` of `s` onward: whitespace
/// and comments are skipped, the token rules are applied longest-match-first,
/// and each maximal unmatched run yields one `Error` token.
pub open spec fn lex_from(s: Seq<char>, i: int) -> Seq<TokenModel>
    decreases s.len() - i,
        when 0 <= i
        via lex_from_decreases
{
    if i >= s.len() {
        Seq::empty()
    } else if is_ws_char(s[i]) {
        lex_from(s, i + 1)
    } else if is_comment_at(s, i) {
        lex_from(s, i + 2 + non_nl_run(s, i + 2))
    } else {
        match token_match_at(s, i) {
            Some(p) => seq![p.0] + lex_from(s, i + p.1),
            None => seq![TokenModel::Error] + lex_from(s, error_run_end(s, i + 1)),
        }
    }
}

#[via_fn]
proof fn lex_from_decreases(s: Seq<char>, i: int) {
    if 0 <= i < s.len() {
        if is_comment_at(s, i) {
            lemma_non_nl_run_bounds(s, i + 2);
        }
        lemma_token_match_len(s, i);
        lemma_error_run_end_bounds(s, i + 1);
    }
}

/// The token sequence of the whole script text.
pub open spec fn spec_tokenize(s: Seq<char>) -> Seq<TokenModel> {
    lex_from(s, 0)
}

/// A digit run is unchanged by the text standing before its start.
proof fn lemma_digit_run_shift(a: Seq<char>, b: Seq<char>, i: int)
    requires
        0 <= i,
    ensures
        digit_run(a + b, a.len() + i) == digit_run(b, i),
    decreases b.len() - i,
{
    if i < b.len() {
        assert((a + b)[a.len() + i] == b[i]);
        if is_digit_char(b[i]) {
            lemma_digit_run_shift(a, b, i + 1);
        }
    }
}

/// A comment body is unchanged by the text standing before its start.
proof fn lemma_non_nl_run_shift(a: Seq<char>, b: Seq<char>, i: int)
    requires
        0 <= i,
    ensures
        non_nl_run(a + b, a.len() + i) == non_nl_run(b, i),
    decreases b.len() - i,
{
    if i < b.len() {
        assert((a + b)[a.len() + i] == b[i]);
        if b[i] != '\n' {
            lemma_non_nl_run_shift(a, b, i + 1);
        }
    }
}

/// A string literal's extent is unchanged by the text standing before it.
proof fn lemma_str_scan_shift(a: Seq<char>, b: Seq<char>, j: int)
    requires
        0 <= j,
    ensures
        str_scan(a + b, a.len() + j) == (match str_scan(b, j) {
            Some(e) => Some(a.len() + e),
            None => None::<int>,
        }),
    decreases b.len() - j,
{
    if j < b.len() {
        assert((a + b)[a.len() + j] == b[j]);
        if b[j] == '"' {
        } else if b[j] == '\\' {
            if j + 1 < b.len() {
                assert((a + b)[a.len() + j + 1] == b[j + 1]);
                if b[j + 1] != '\n' {
                    lemma_str_scan_shift(a, b, j + 2);
                }
            }
        } else {
            lemma_str_scan_shift(a, b, j + 1);
        }
    }
}

/// A case-insensitive keyword match is unchanged by the text before it.
proof fn lemma_match_ci_shift(a: Seq<char>, b: Seq<char>, i: int, kw: Seq<char>)
    requires
        0 <= i,
    ensures
        match_keyword_ci(a + b, a.len() + i, kw) == match_keyword_ci(b, i, kw),
{
    if match_keyword_ci(b, i, kw) {
        assert forall|j: int| 0 <= j < kw.len() implies upper_char((a + b)[a.len() + i + j])
            == kw[j] by {
            assert((a + b)[a.len() + i + j] == b[i + j]);
        }
    }
    if match_keyword_ci(a + b, a.len() + i, kw) {
        assert forall|j: int| 0 <= j < kw.len() implies upper_char(b[i + j]) == kw[j] by {
            assert((a + b)[a.len() + i + j] == b[i + j]);
        }
    }
}

/// An exact keyword match is unchanged by the text before it.
proof fn lemma_match_exact_shift(a: Seq<char>, b: Seq<char>, i: int, kw: Seq<char>)
    requires
        0 <= i,
    ensures
        match_exact(a + b, a.len() + i, kw) == match_exact(b, i, kw),
{
    if match_exact(b, i, kw) {
        assert forall|j: int| 0 <= j < kw.len() implies (a + b)[a.len() + i + j] == kw[j] by {
            assert((a + b)[a.len() + i + j] == b[i + j]);
        }
    }
    if match_exact(a + b, a.len() + i, kw) {
        assert forall|j: int| 0 <= j < kw.len() implies b[i + j] == kw[j] by {
            assert((a + b)[a.len() + i + j] == b[i + j]);
        }
    }
}

/// The token matched at a position is unchanged by the text before it.
proof fn lemma_token_match_shift(a: Seq<char>, b: Seq<char>, i: int)
    requires
        0 <= i,
    ensures
        token_match_at(a + b, a.len() + i) == token_match_at(b, i),
{
    let t = a + b;
    let w = a.len() as int;
    lemma_match_ci_shift(a, b, i, "CREATE"@);
    lemma_match_ci_shift(a, b, i, "SELECT"@);
    lemma_match_ci_shift(a, b, i, "COUNTC"@);
    lemma_match_ci_shift(a, b, i, "COUNTL"@);
    lemma_match_ci_shift(a, b, i, "COUNTW"@);
    lemma_match_ci_shift(a, b, i, "FROM"@);
    lemma_match_ci_shift(a, b, i, "WHERE"@);
    lemma_match_ci_shift(a, b, i, "NOTLIKE"@);
    lemma_match_ci_shift(a, b, i, "LIKE"@);
    lemma_match_ci_shift(a, b, i, "REGEX"@);
    lemma_match_exact_shift(a, b, i, "fn"@);
    lemma_match_exact_shift(a, b, i, "true"@);
    lemma_match_exact_shift(a, b, i, "false"@);
    lemma_match_exact_shift(a, b, i, "let"@);
    lemma_match_ci_shift(a, b, i, "TOP("@);
    lemma_match_ci_shift(a, b, i, "TAIL("@);
    if i < b.len() {
        lemma_digit_run_bounds(b, i);
        lemma_digit_run_shift(a, b, i);
        let d1 = digit_run(b, i);
        lemma_digit_run_bounds(b, i + d1);
        if i + d1 + 1 <= b.len() {
            lemma_digit_run_bounds(b, i + d1 + 1);
        }
        lemma_digit_run_shift(a, b, i + d1 + 1);
        let ptop = "TOP("@.len() as int;
        let ptail = "TAIL("@.len() as int;
        if i + ptop <= b.len() {
            lemma_digit_run_bounds(b, i + ptop);
        }
        lemma_digit_run_shift(a, b, i + ptop);
        if i + ptail <= b.len() {
            lemma_digit_run_bounds(b, i + ptail);
        }
        lemma_digit_run_shift(a, b, i + ptail);
        lemma_str_scan_shift(a, b, i + 1);
        assert(t[w + i] == b[i]);
        if w + i + 1 < t.len() {
            assert(t[w + i + 1] == b[i + 1]);
        }
        if 0 <= i + d1 < b.len() {
            assert(t[w + i + d1] == b[i + d1]);
        }
        if 0 <= i + ptop + digit_run(b, i + ptop) < b.len() {
            assert(t[w + i + ptop + digit_run(b, i + ptop)] == b[i + ptop + digit_run(b, i + ptop)]);
        }
        if 0 <= i + ptail + digit_run(b, i + ptail) < b.len() {
            assert(t[w + i + ptail + digit_run(b, i + ptail)] == b[i + ptail + digit_run(
                b,
                i + ptail,
            )]);
        }
        assert(selector_len(t, w + i, "TOP("@) == selector_len(b, i, "TOP("@));
        assert(selector_len(t, w + i, "TAIL("@) == selector_len(b, i, "TAIL("@));
        if selector_len(b, i, "TOP("@) > 0 {
            assert(selector_payload(t, w + i, "TOP("@) =~= selector_payload(b, i, "TOP("@));
        }
        if selector_len(b, i, "TAIL("@) > 0 {
            assert(selector_payload(t, w + i, "TAIL("@) =~= selector_payload(b, i, "TAIL("@));
        }
        assert(number_len(t, w + i) == number_len(b, i));
        if number_len(b, i) > 0 {
            assert(t.subrange(w + i, w + i + number_len(b, i)) =~= b.subrange(
                i,
                i + number_len(b, i),
            ));
        }
        if b[i] == '"' && str_scan(b, i + 1) is Some {
            let e = str_scan(b, i + 1)->Some_0;
            lemma_str_scan_bounds(b, i + 1);
            assert(t.subrange(w + i + 1, w + e - 1) =~= b.subrange(i + 1, e - 1));
        }
    }
}

/// Whether any rule matches at a position is unchanged by the text before
/// it.
proof fn lemma_rule_matches_shift(a: Seq<char>, b: Seq<char>, i: int)
    requires
        0 <= i,
    ensures
        rule_matches_at(a + b, a.len() + i) == rule_matches_at(b, i),
{
    lemma_token_match_shift(a, b, i);
    if i < b.len() {
        assert((a + b)[a.len() + i] == b[i]);
        if i + 1 < b.len() {
            assert((a + b)[a.len() + i + 1] == b[i + 1]);
        }
    }
}

/// The end of an unmatched run is unchanged by the text before its start.
proof fn lemma_error_run_end_shift(a: Seq<char>, b: Seq<char>, i: int)
    requires
        0 <= i,
    ensures
        error_run_end(a + b, a.len() + i) == a.len() + error_run_end(b, i),
    decreases b.len() - i,
{
    lemma_rule_matches_shift(a, b, i);
    if i < b.len() && !rule_matches_at(b, i) {
        lemma_error_run_end_shift(a, b, i + 1);
    }
}

/// Lexing looks only forward: the tokens produced from a position onward
/// depend only on the text from that position onward.
#[verifier::rlimit(100)]
#[verifier::spinoff_prover]
proof fn lemma_lex_from_shift(a: Seq<char>, b: Seq<char>, i: int)
    requires
        0 <= i,
    ensures
        lex_from(a + b, a.len() + i) == lex_from(b, i),
    decreases b.len() - i,
{
    let t = a + b;
    let w = a.len() as int;
    if i >= b.len() {
        assert(lex_from(t, w + i) == Seq::<TokenModel>::empty());
    } else {
        assert(t[w + i] == b[i]);
        lemma_token_match_shift(a, b, i);
        if is_ws_char(b[i]) {
            lemma_lex_from_shift(a, b, i + 1);
        } else if is_comment_at(b, i) {
            assert(t[w + i + 1] == b[i + 1]);
            lemma_non_nl_run_shift(a, b, i + 2);
            lemma_non_nl_run_bounds(b, i + 2);
            lemma_lex_from_shift(a, b, i + 2 + non_nl_run(b, i + 2));
        } else {
            if i + 1 < b.len() {
                assert(t[w + i + 1] == b[i + 1]);
            }
            assert(is_comment_at(t, w + i) == is_comment_at(b, i));
            match token_match_at(b, i) {
                Some(p) => {
                    lemma_token_match_len(b, i);
                    lemma_lex_from_shift(a, b, i + p.1);
                },
                None => {
                    lemma_error_run_end_shift(a, b, i + 1);
                    lemma_error_run_end_bounds(b, i + 1);
                    lemma_lex_from_shift(a, b, error_run_end(b, i + 1));
                },
            }
        }
    }
}

/// Lexing looks only forward: the tokens produced from the boundary of a
/// prefix onward are exactly the suffix's own tokens.
pub proof fn lemma_lex_suffix(prefix: Seq<char>, suffix: Seq<char>)
    ensures
        lex_from(prefix + suffix, prefix.len() as int) == spec_tokenize(suffix),
{
    lemma_lex_from_shift(prefix, suffix, 0);
}

/// Positions holding only whitespace are skipped without a trace.
proof fn lemma_lex_skips_ws_span(t: Seq<char>, j: int, end: int)
    requires
        0 <= j <= end <= t.len(),
        forall|k: int| j <= k < end ==> is_ws_char(#[trigger] t[k]),
    ensures
        lex_from(t, j) == lex_from(t, end),
    decreases end - j,
{
    if j < end {
        lemma_lex_skips_ws_span(t, j + 1, end);
    }
}

/// Extra whitespace in front of the input changes nothing: the token
/// sequence of the padded text equals that of the text itself.
pub proof fn lemma_ws_insertion(padding: Seq<char>, rest: Seq<char>)
    requires
        forall|k: int| 0 <= k < padding.len() ==> is_ws_char(#[trigger] padding[k]),
    ensures
        spec_tokenize(padding + rest) == spec_tokenize(rest),
{
    let t = padding + rest;
    assert forall|k: int| 0 <= k < padding.len() implies is_ws_char(#[trigger] t[k]) by {
        assert(t[k] == padding[k]);
    }
    lemma_lex_skips_ws_span(t, 0, padding.len() as int);
    lemma_lex_from_shift(padding, rest, 0);
}

/// A whole `--` comment line in front of the input changes nothing: the
/// token sequence of the padded text equals that of the text itself.
pub proof fn lemma_comment_line_insertion(comment: Seq<char>, rest: Seq<char>)
    requires
        comment.len() >= 2,
        comment[0] == '-',
        comment[1] == '-',
        forall|k: int| 0 <= k < comment.len() ==> #[trigger] comment[k] != '\n',
    ensures
        spec_tokenize(comment + seq!['\n'] + rest) == spec_tokenize(rest),
{
    let line = comment + seq!['\n'];
    let t = line + rest;
    assert(is_comment_at(t, 0));
    assert forall|k: int| 2 <= k < comment.len() implies #[trigger] t[k] != '\n' by {
        assert(t[k] == comment[k]);
    }
    assert(t[comment.len() as int] == '\n');
    lemma_non_nl_run_exact(t, 2, comment.len() as int);
    assert(lex_from(t, 0) == lex_from(t, comment.len() as int));
    assert(is_ws_char(t[comment.len() as int]));
    lemma_lex_skips_ws_span(t, comment.len() as int, line.len() as int);
    lemma_lex_from_shift(line, rest, 0);
}

/// Whitespace inserted where the lexer stands between tokens changes
/// nothing: from that boundary on, the padded text lexes exactly as the
/// unpadded text does from the same boundary.
pub proof fn lemma_ws_insertion_at_boundary(s1: Seq<char>, padding: Seq<char>, s2: Seq<char>)
    requires
        forall|k: int| 0 <= k < padding.len() ==> is_ws_char(#[trigger] padding[k]),
    ensures
        lex_from(s1 + padding + s2, s1.len() as int) == lex_from(s1 + s2, s1.len() as int),
{
    let t = s1 + padding + s2;
    let b = s1.len() as int;
    let e = b + padding.len() as int;
    assert(t =~= (s1 + padding) + s2);
    assert forall|k: int| b <= k < e implies is_ws_char(#[trigger] t[k]) by {
        assert(t[k] == padding[k - b]);
    }
    lemma_lex_skips_ws_span(t, b, e);
    lemma_lex_from_shift(s1 + padding, s2, 0);
    lemma_lex_from_shift(s1, s2, 0);
}

/// A whole `--` comment line inserted where the lexer stands between
/// tokens changes nothing: from that boundary on, the padded text lexes
/// exactly as the unpadded text does from the same boundary.
pub proof fn lemma_comment_insertion_at_boundary(s1: Seq<char>, comment: Seq<char>, s2: Seq<char>)
    requires
        comment.len() >= 2,
        comment[0] == '-',
        comment[1] == '-',
        forall|k: int| 0 <= k < comment.len() ==> #[trigger] comment[k] != '\n',
    ensures
        lex_from(s1 + comment + seq!['\n'] + s2, s1.len() as int) == lex_from(
            s1 + s2,
            s1.len() as int,
        ),
{
    let line = comment + seq!['\n'];
    let t = s1 + comment + seq!['\n'] + s2;
    let b = s1.len() as int;
    let ce = b + comment.len() as int;
    assert(t =~= (s1 + line) + s2);
    assert(t[b] == comment[0]);
    assert(t[b + 1] == comment[1]);
    assert(is_comment_at(t, b));
    assert forall|k: int| b + 2 <= k < ce implies #[trigger] t[k] != '\n' by {
        assert(t[k] == comment[k - b]);
    }
    assert(t[ce] == '\n');
    lemma_non_nl_run_exact(t, b + 2, ce);
    assert(lex_from(t, b) == lex_from(t, ce));
    assert(is_ws_char(t[ce]));
    lemma_lex_skips_ws_span(t, ce, b + line.len() as int);
    lemma_lex_from_shift(s1 + line, s2, 0);
    lemma_lex_from_shift(s1, s2, 0);
}

/// A run of non-newline characters that ends at a newline has that exact
/// length.
proof fn lemma_non_nl_run_exact(t: Seq<char>, j: int, end: int)
    requires
        0 <= j <= end < t.len(),
        forall|k: int| j <= k < end ==> #[trigger] t[k] != '\n',
        t[end] == '\n',
    ensures
        non_nl_run(t, j) == end - j,
    decreases end - j,
{
    if j < end {
        lemma_non_nl_run_exact(t, j + 1, end);
    }
}

/// No token rule ever matches as the end-of-input marker.
pub proof fn lemma_token_match_not_eof(s: Seq<char>, i: int)
    ensures
        token_match_at(s, i) matches Some(p) ==> !(p.0 is Eof),
{
}

/// The lexer never emits the end-of-input marker as a token.
pub proof fn lemma_lex_from_no_eof(s: Seq<char>, i: int)
    requires
        0 <= i,
    ensures
        forall|k: int|
            0 <= k < lex_from(s, i).len() ==> !((#[trigger] lex_from(s, i)[k]) is Eof),
    decreases s.len() - i,
{
    if i < s.len() {
        if is_ws_char(s[i]) {
            lemma_lex_from_no_eof(s, i + 1);
        } else if is_comment_at(s, i) {
            lemma_non_nl_run_bounds(s, i + 2);
            lemma_lex_from_no_eof(s, i + 2 + non_nl_run(s, i + 2));
        } else {
            lemma_token_match_len(s, i);
            lemma_token_match_not_eof(s, i);
            lemma_error_run_end_bounds(s, i + 1);
            match token_match_at(s, i) {
                Some(p) => {
                    lemma_lex_from_no_eof(s, i + p.1);
                },
                None => {
                    lemma_lex_from_no_eof(s, error_run_end(s, i + 1));
                },
            }
        }
    }
}

/// ASCII upper-casing of a single character.
fn upper(c: char) -> (r: char)
    ensures
        r == upper_char(c),
{
    match c {
        'a' => 'A',
        'b' => 'B',
        'c' => 'C',
        'd' => 'D',
        'e' => 'E',
        'f' => 'F',
        'g' => 'G',
        'h' => 'H',
        'i' => 'I',
        'j' => 'J',
        'k' => 'K',
        'l' => 'L',
        'm' => 'M',
        'n' => 'N',
        'o' => 'O',
        'p' => 'P',
        'q' => 'Q',
        'r' => 'R',
        's' => 'S',
        't' => 'T',
        'u' => 'U',
        'v' => 'V',
        'w' => 'W',
        'x' => 'X',
        'y' => 'Y',
        'z' => 'Z',
        _ => c,
    }
}

/// Whitespace test matching `is_ws_char`.
fn is_ws(c: char) -> (r: bool)
    ensures
        r == is_ws_char(c),
{
    c == ' ' || c == '\t' || c == '\n' || c == '\u{c}'
}

/// Decimal-digit test matching `is_digit_char`.
pub(crate) fn is_digit(c: char) -> (r: bool)
    ensures
        r == is_digit_char(c),
{
    let u = c as u32;
    48 <= u && u <= 57
}

/// The characters of `s`, in order, as a vector.
pub(crate) fn chars_vec(s: &str) -> (v: Vec<char>)
    ensures
        v@ == s@,
{
    let n = s.unicode_len();
    let mut v: Vec<char> = Vec::new();
    let mut i: usize = 0;
    while i < n
        invariant
            n == s@.len(),
            i <= n,
            v@ == s@.subrange(0, i as int),
        decreases n - i,
    {
        v.push(s.get_char(i));
        proof {
            assert(v@ =~= s@.subrange(0, i + 1));
        }
        i = i + 1;
    }
    proof {
        assert(v@ =~= s@);
    }
    v
}

/// Case-insensitive keyword match at position `i` (`kw` is upper case).
fn kw_match_ci(v: &Vec<char>, i: usize, kw: &str) -> (r: bool)
    requires
        i <= v@.len(),
    ensures
        r == match_keyword_ci(v@, i as int, kw@),
{
    let m = kw.unicode_len();
    if v.len() - i < m {
        return false;
    }
    let mut j: usize = 0;
    while j < m
        invariant
            i + m <= v@.len(),
            v@.len() <= usize::MAX,
            j <= m,
            m == kw@.len(),
            forall|k: int| 0 <= k < j ==> upper_char(v@[i + k]) == kw@[k],
        decreases m - j,
    {
        if upper(v[i + j]) != kw.get_char(j) {
            proof {
                assert(upper_char(v@[i + j as int]) != kw@[j as int]);
            }
            return false;
        }
        j = j + 1;
    }
    true
}

/// Exact keyword match at position `i`.
fn kw_match_exact(v: &Vec<char>, i: usize, kw: &str) -> (r: bool)
    requires
        i <= v@.len(),
    ensures
        r == match_exact(v@, i as int, kw@),
{
    let m = kw.unicode_len();
    if v.len() - i < m {
        return false;
    }
    let mut j: usize = 0;
    while j < m
        invariant
            i + m <= v@.len(),
            v@.len() <= usize::MAX,
            j <= m,
            m == kw@.len(),
            forall|k: int| 0 <= k < j ==> v@[i + k] == kw@[k],
        decreases m - j,
    {
        if v[i + j] != kw.get_char(j) {
            proof {
                assert(v@[i + j as int] != kw@[j as int]);
            }
            return false;
        }
        j = j + 1;
    }
    true
}

/// Length of the maximal digit run starting at `i`.
pub(crate) fn digit_run_len(v: &Vec<char>, i: usize) -> (r: usize)
    requires
        i <= v@.len(),
    ensures
        r as int == digit_run(v@, i as int),
{
    let mut j = i;
    while j < v.len() && is_digit(v[j])
        invariant
            i <= j <= v@.len(),
            digit_run(v@, i as int) == j - i + digit_run(v@, j as int),
        decreases v@.len() - j,
    {
        j = j + 1;
    }
    j - i
}

/// Length of the maximal run without a newline starting at `i`.
fn non_nl_run_len(v: &Vec<char>, i: usize) -> (r: usize)
    requires
        i <= v@.len(),
    ensures
        r as int == non_nl_run(v@, i as int),
{
    let mut j = i;
    while j < v.len() && v[j] != '\n'
        invariant
            i <= j <= v@.len(),
            non_nl_run(v@, i as int) == j - i + non_nl_run(v@, j as int),
        decreases v@.len() - j,
    {
        j = j + 1;
    }
    j - i
}

/// Scans a string literal's inside from `j0`; returns the position just
/// past the closing quote.
fn str_scan_end(v: &Vec<char>, j0: usize) -> (r: Option<usize>)
    requires
        j0 <= v@.len(),
    ensures
        match r {
            Some(e) => str_scan(v@, j0 as int) == Some(e as int),
            None => str_scan(v@, j0 as int) is None,
        },
{
    let mut j = j0;
    loop
        invariant
            j0 <= j <= v@.len(),
            str_scan(v@, j0 as int) == str_scan(v@, j as int),
        decreases v@.len() - j,
    {
        if j >= v.len() {
            return None;
        }
        let c = v[j];
        if c == '"' {
            return Some(j + 1);
        }
        if c == '\\' {
            if j + 1 < v.len() && v[j + 1] != '\n' {
                j = j + 2;
            } else {
                return None;
            }
        } else {
            j = j + 1;
        }
    }
}

/// Matches a bounded-range selector at `i` with the given upper-case
/// prefix (`TOP(` or `TAIL(`); returns its upper-cased payload and length.
fn selector_match(v: &Vec<char>, input: &str, i: usize, prefix: &str) -> (r: Option<(String, usize)>)
    requires
        v@ == input@,
        i <= v@.len(),
    ensures
        match r {
            Some(p) => selector_len(v@, i as int, prefix@) == p.1 as int && p.0@
                == selector_payload(v@, i as int, prefix@) && p.1 > 0,
            None => selector_len(v@, i as int, prefix@) == 0,
        },
{
    let n = v.len();
    if !kw_match_ci(v, i, prefix) {
        return None;
    }
    let m = prefix.unicode_len();
    let d = digit_run_len(v, i + m);
    proof {
        lemma_digit_run_bounds(v@, i + m as int);
    }
    if d == 0 {
        return None;
    }
    if i + m + d >= n {
        return None;
    }
    if v[i + m + d] != ')' {
        return None;
    }
    let digits = input.substring_char(i + m, i + m + d);
    let payload = String::from_str(prefix).concat(digits).concat(")");
    Some((payload, m + d + 1))
}

/// Matches a numeric literal at `i`; returns its raw text and length.
fn number_match(v: &Vec<char>, input: &str, i: usize) -> (r: Option<(String, usize)>)
    requires
        v@ == input@,
        i < v@.len(),
    ensures
        match r {
            Some(p) => number_len(v@, i as int) == p.1 as int && p.0@ == v@.subrange(
                i as int,
                i + p.1,
            ) && p.1 > 0,
            None => number_len(v@, i as int) == 0,
        },
{
    let n = v.len();
    let d1 = digit_run_len(v, i);
    proof {
        lemma_digit_run_bounds(v@, i as int);
    }
    if d1 == 0 {
        return None;
    }
    let mut l = d1;
    if i + d1 < n && v[i + d1] == '.' {
        let d2 = digit_run_len(v, i + d1 + 1);
        proof {
            lemma_digit_run_bounds(v@, i + d1 + 1 as int);
        }
        if d2 > 0 {
            l = d1 + 1 + d2;
        }
    }
    let raw = String::from_str(input.substring_char(i, i + l));
    Some((raw, l))
}

/// The token match at position `i`, mirroring `token_match_at`.
fn token_match(v: &Vec<char>, input: &str, i: usize) -> (r: Option<(Token, usize)>)
    requires
        v@ == input@,
        i < v@.len(),
    ensures
        match r {
            Some(p) => token_match_at(v@, i as int) == Some((p.0@, p.1 as int)),
            None => token_match_at(v@, i as int) is None,
        },
{
    let n = v.len();
    if kw_match_ci(v, i, "CREATE") {
        return Some((Token::Create, "CREATE".unicode_len()));
    }
    if kw_match_ci(v, i, "SELECT") {
        return Some((Token::Select, "SELECT".unicode_len()));
    }
    if kw_match_ci(v, i, "COUNTC") {
        return Some((Token::CountC, "COUNTC".unicode_len()));
    }
    if kw_match_ci(v, i, "COUNTL") {
        return Some((Token::CountL, "COUNTL".unicode_len()));
    }
    if kw_match_ci(v, i, "COUNTW") {
        return Some((Token::CountW, "COUNTW".unicode_len()));
    }
    if kw_match_ci(v, i, "FROM") {
        return Some((Token::From, "FROM".unicode_len()));
    }
    if kw_match_ci(v, i, "WHERE") {
        return Some((Token::Where, "WHERE".unicode_len()));
    }
    if kw_match_ci(v, i, "NOTLIKE") {
        return Some((Token::NotLike, "NOTLIKE".unicode_len()));
    }
    if kw_match_ci(v, i, "LIKE") {
        return Some((Token::Like, "LIKE".unicode_len()));
    }
    if kw_match_ci(v, i, "REGEX") {
        return Some((Token::Regex, "REGEX".unicode_len()));
    }
    if kw_match_exact(v, i, "fn") {
        return Some((Token::Fn, "fn".unicode_len()));
    }
    if kw_match_exact(v, i, "true") {
        return Some((Token::True, "true".unicode_len()));
    }
    if kw_match_exact(v, i, "false") {
        return Some((Token::False, "false".unicode_len()));
    }
    if kw_match_exact(v, i, "let") {
        return Some((Token::Let, "let".unicode_len()));
    }
    match selector_match(v, input, i, "TOP(") {
        Some((payload, l)) => {
            return Some((Token::Top(payload), l));
        },
        None => {},
    }
    match selector_match(v, input, i, "TAIL(") {
        Some((payload, l)) => {
            return Some((Token::Tail(payload), l));
        },
        None => {},
    }
    match number_match(v, input, i) {
        Some((raw, l)) => {
            return Some((Token::Number(raw), l));
        },
        None => {},
    }
    let c = v[i];
    if c == '"' {
        match str_scan_end(v, i + 1) {
            Some(e) => {
                proof {
                    lemma_str_scan_bounds(v@, i + 1 as int);
                }
                let payload = String::from_str(input.substring_char(i + 1, e - 1));
                return Some((Token::Strings(payload), e - i));
            },
            None => {
                return None;
            },
        }
    }
    if c == '!' {
        if i + 1 < n && v[i + 1] == '=' {
            return Some((Token::NotEquals, 2));
        }
        return None;
    }
    if c == '*' {
        return Some((Token::Star, 1));
    }
    if c == '>' {
        return Some((Token::Export, 1));
    }
    if c == '(' {
        return Some((Token::LeftParen, 1));
    }
    if c == ')' {
        return Some((Token::RightParen, 1));
    }
    if c == '{' {
        return Some((Token::LeftBrace, 1));
    }
    if c == '}' {
        return Some((Token::RightBrace, 1));
    }
    if c == '+' {
        return Some((Token::Plus, 1));
    }
    if c == '-' {
        return Some((Token::Minus, 1));
    }
    if c == '/' {
        return Some((Token::Slash, 1));
    }
    if c == '=' {
        return Some((Token::Assign, 1));
    }
    if c == ';' {
        return Some((Token::Eos, 1));
    }
    None
}

/// Some lexer rule applies at position `i`.
fn rule_matches(v: &Vec<char>, input: &str, i: usize) -> (r: bool)
    requires
        v@ == input@,
        i < v@.len(),
    ensures
        r == rule_matches_at(v@, i as int),
{
    if is_ws(v[i]) {
        return true;
    }
    let n = v.len();
    if i + 1 < n && v[i] == '-' && v[i + 1] == '-' {
        return true;
    }
    token_match(v, input, i).is_some()
}

/// First position at or after `i0` where some rule matches, or the end.
fn error_run(v: &Vec<char>, input: &str, i0: usize) -> (r: usize)
    requires
        v@ == input@,
        i0 <= v@.len(),
    ensures
        r as int == error_run_end(v@, i0 as int),
        i0 <= r <= v@.len(),
{
    let mut i = i0;
    loop
        invariant
            v@ == input@,
            i0 <= i <= v@.len(),
            error_run_end(v@, i0 as int) == error_run_end(v@, i as int),
        decreases v@.len() - i,
    {
        if i >= v.len() {
            return i;
        }
        if rule_matches(v, input, i) {
            return i;
        }
        i = i + 1;
    }
}

/// Lexes the whole script text into its token sequence.
///
/// Keywords are matched case-insensitively, string literals keep their
/// escape sequences literally, whitespace and `--` line comments produce
/// no token, and each maximal unmatched run yields one `Error` token.
#[verifier::rlimit(100)]
pub fn generate(input: &str) -> (tokens: Vec<Token>)
    ensures
        tokens.deep_view() == spec_tokenize(input@),
{
    let ghost s = input@;
    let v = chars_vec(input);
    let n = v.len();
    let mut tokens: Vec<Token> = Vec::new();
    let mut i: usize = 0;
    while i < n
        invariant
            v@ == input@,
            s == input@,
            n == v@.len(),
            i <= n,
            tokens.deep_view() + lex_from(s, i as int) == spec_tokenize(s),
        decreases v@.len() - i,
    {
        let ghost dv = tokens.deep_view();
        let c = v[i];
        if is_ws(c) {
            i = i + 1;
        } else if i + 1 < n && c == '-' && v[i + 1] == '-' {
            let run = non_nl_run_len(&v, i + 2);
            proof {
                lemma_non_nl_run_bounds(s, i + 2 as int);
            }
            i = i + 2 + run;
        } else {
            match token_match(&v, input, i) {
                Some((t, l)) => {
                    proof {
                        lemma_token_match_len(s, i as int);
                        assert(lex_from(s, i as int) == seq![t@] + lex_from(s, i + l as int));
                    }
                    tokens.push(t);
                    proof {
                        assert(tokens.deep_view() =~= dv + seq![t@]);
                        assert((dv + seq![t@]) + lex_from(s, i + l as int) =~= dv + (seq![t@]
                            + lex_from(s, i + l as int)));
                    }
                    i = i + l;
                },
                None => {
                    proof {
                        lemma_error_run_end_bounds(s, i + 1 as int);
                        assert(lex_from(s, i as int) == seq![TokenModel::Error] + lex_from(
                            s,
                            error_run_end(s, i + 1 as int),
                        ));
                    }
                    tokens.push(Token::Error);
                    let e = error_run(&v, input, i + 1);
                    proof {
                        assert(tokens.deep_view() =~= dv + seq![TokenModel::Error]);
                        assert((dv + seq![TokenModel::Error]) + lex_from(s, e as int) =~= dv + (
                        seq![TokenModel::Error] + lex_from(s, e as int)));
                    }
                    i = e;
                },
            }
        }
    }
    proof {
        assert(tokens.deep_view() + lex_from(s, i as int) =~= tokens.deep_view());
    }
    tokens
}

} // verus!
