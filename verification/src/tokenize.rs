//! Lexical analysis of JSON-like text.
//!
//! `tokenize` scans its input character by character and produces the
//! corresponding token sequence, or the first lexical error. The whole
//! behaviour is pinned down by the spec function [`spec_tokenize`], which the
//! executable scanner is proved to implement exactly.

use vstd::prelude::*;
use vstd::string::*;

verus! {

/// The mathematical model of a token: payloads are character sequences.
pub enum TokenView {
    LeftBrace,
    RightBrace,
    LeftBracket,
    RightBracket,
    Comma,
    Colon,
    Null,
    False,
    True,
    Number(Seq<char>),
    String(Seq<char>),
}

/// A minimal, classified unit of lexical structure.
///
/// `Number` carries the numeral text exactly as it stood in the input
/// (digits with at most one decimal point, at least one digit); decoding it
/// into a machine float is left to callers. `String` carries the body with
/// the delimiting quotes stripped.
#[derive(Debug, PartialEq, Eq)]
pub enum Token {
    LeftBrace,
    RightBrace,
    LeftBracket,
    RightBracket,
    Comma,
    Colon,
    Null,
    False,
    True,
    Number(String),
    String(String),
}

impl View for Token {
    type V = TokenView;

    open spec fn view(&self) -> TokenView {
        match self {
            Token::LeftBrace => TokenView::LeftBrace,
            Token::RightBrace => TokenView::RightBrace,
            Token::LeftBracket => TokenView::LeftBracket,
            Token::RightBracket => TokenView::RightBracket,
            Token::Comma => TokenView::Comma,
            Token::Colon => TokenView::Colon,
            Token::Null => TokenView::Null,
            Token::False => TokenView::False,
            Token::True => TokenView::True,
            Token::Number(text) => TokenView::Number(text@),
            Token::String(body) => TokenView::String(body@),
        }
    }
}

impl DeepView for Token {
    type V = TokenView;

    open spec fn deep_view(&self) -> TokenView {
        self.view()
    }
}

/// A lexical failure; the first one aborts the whole tokenization.
#[derive(Debug, PartialEq, Eq, Clone)]
pub enum TokenizeError {
    /// A fixed keyword (`null`, `true`, `false`) or a quoted string deviated
    /// from its expected shape or ran past the end of the input.
    UnterminatedLiteral,
    /// The accumulated numeral text holds no digit, so it decodes to nothing.
    InvalidNumber,
    /// The character at the scan position starts no token.
    UnexpectedCharacter(char),
}

/// Whether `c` is one of the six structural punctuation characters.
pub open spec fn is_punct(c: char) -> bool {
    c == '{' || c == '}' || c == '[' || c == ']' || c == ',' || c == ':'
}

/// The structural token a punctuation character maps to.
pub open spec fn punct_token(c: char) -> TokenView {
    if c == '{' {
        TokenView::LeftBrace
    } else if c == '}' {
        TokenView::RightBrace
    } else if c == '[' {
        TokenView::LeftBracket
    } else if c == ']' {
        TokenView::RightBracket
    } else if c == ',' {
        TokenView::Comma
    } else {
        TokenView::Colon
    }
}

/// Whether `c` is an ASCII decimal digit.
pub open spec fn is_digit(c: char) -> bool {
    '0' as u32 <= c as u32 && c as u32 <= '9' as u32
}

/// The characters of the keyword `null`.
pub open spec fn null_lit() -> Seq<char> {
    seq!['n', 'u', 'l', 'l']
}

/// The characters of the keyword `true`.
pub open spec fn true_lit() -> Seq<char> {
    seq!['t', 'r', 'u', 'e']
}

/// The characters of the keyword `false`.
pub open spec fn false_lit() -> Seq<char> {
    seq!['f', 'a', 'l', 's', 'e']
}

/// How many characters, starting at `i`, the greedy numeral scan accepts:
/// ASCII digits, plus at most one decimal point (`seen_dot` records whether
/// one was already taken).
pub open spec fn numeral_len(s: Seq<char>, i: int, seen_dot: bool) -> nat
    decreases s.len() - i when 0 <= i
{
    if i < s.len() {
        if is_digit(s[i]) {
            1 + numeral_len(s, i + 1, seen_dot)
        } else if s[i] == '.' && !seen_dot {
            1 + numeral_len(s, i + 1, true)
        } else {
            0
        }
    } else {
        0
    }
}

/// The distance from `i` to the next `"` character, if there is one.
pub open spec fn quote_dist(s: Seq<char>, i: int) -> Option<nat>
    decreases s.len() - i when 0 <= i
{
    if i < s.len() {
        if s[i] == '"' {
            Some(0nat)
        } else {
            match quote_dist(s, i + 1) {
                Some(d) => Some(1 + d),
                None => None,
            }
        }
    } else {
        None
    }
}

/// One scanner step: the token found at position `i` and the position of the
/// first unconsumed character, or the lexical error.
pub type StepResult = Result<(TokenView, int), TokenizeError>;

/// Keyword scan: the input from `i` on must spell `lit` in full; anything
/// short of that — a mismatch or the input running out — is one error.
pub open spec fn spec_scan_literal(s: Seq<char>, i: int, lit: Seq<char>, token: TokenView) -> StepResult {
    if i + lit.len() <= s.len() && s.subrange(i, i + lit.len()) == lit {
        Ok((token, i + lit.len()))
    } else {
        Err(TokenizeError::UnterminatedLiteral)
    }
}

/// Whether the character sequence holds at least one ASCII digit.
pub open spec fn has_digit(text: Seq<char>) -> bool {
    exists|k: int| 0 <= k < text.len() && is_digit(text[k])
}

/// Numeral scan: greedily take digits and at most one decimal point; the
/// numeral decodes exactly when it holds at least one digit.
pub open spec fn spec_scan_number(s: Seq<char>, i: int) -> StepResult {
    let end = i + numeral_len(s, i, false);
    let numeral = s.subrange(i, end);
    if has_digit(numeral) {
        Ok((TokenView::Number(numeral), end))
    } else {
        Err(TokenizeError::InvalidNumber)
    }
}

/// String scan: everything between the opening quote at `i` and the next
/// quote becomes the body; a missing closing quote is an error.
pub open spec fn spec_scan_string(s: Seq<char>, i: int) -> StepResult {
    match quote_dist(s, i + 1) {
        Some(d) => Ok((TokenView::String(s.subrange(i + 1, i + 1 + d)), i + 2 + d)),
        None => Err(TokenizeError::UnterminatedLiteral),
    }
}

/// Classify the character at `i` and scan one token there.
pub open spec fn spec_step(s: Seq<char>, i: int) -> StepResult
    recommends
        0 <= i < s.len(),
{
    let c = s[i];
    if is_punct(c) {
        Ok((punct_token(c), i + 1))
    } else if c == 'n' {
        spec_scan_literal(s, i, null_lit(), TokenView::Null)
    } else if c == 't' {
        spec_scan_literal(s, i, true_lit(), TokenView::True)
    } else if c == 'f' {
        spec_scan_literal(s, i, false_lit(), TokenView::False)
    } else if is_digit(c) || c == '.' {
        spec_scan_number(s, i)
    } else if c == '"' {
        spec_scan_string(s, i)
    } else {
        Err(TokenizeError::UnexpectedCharacter(c))
    }
}

/// The token sequence of the input from position `i` to the end: scan one
/// token, then the rest; the first error aborts. A step that fails to
/// advance within bounds cannot arise (see `lemma_step_in_range`); the
/// guard only keeps the definition total.
pub open spec fn spec_tokenize_from(s: Seq<char>, i: int) -> Result<Seq<TokenView>, TokenizeError>
    decreases s.len() - i when 0 <= i
{
    if i >= s.len() {
        Ok(Seq::empty())
    } else {
        match spec_step(s, i) {
            Ok((token, next)) => if i < next <= s.len() {
                match spec_tokenize_from(s, next) {
                    Ok(rest) => Ok(seq![token] + rest),
                    Err(e) => Err(e),
                }
            } else {
                Err(TokenizeError::UnterminatedLiteral)
            },
            Err(e) => Err(e),
        }
    }
}

/// The token sequence of the whole input, or its first lexical error.
pub open spec fn spec_tokenize(s: Seq<char>) -> Result<Seq<TokenView>, TokenizeError> {
    spec_tokenize_from(s, 0)
}

/// The numeral scan never runs past the end of the input.
pub proof fn lemma_numeral_len_bound(s: Seq<char>, i: int, seen_dot: bool)
    requires
        0 <= i <= s.len(),
    ensures
        i + numeral_len(s, i, seen_dot) <= s.len(),
    decreases s.len() - i,
{
    if i < s.len() {
        if is_digit(s[i]) {
            lemma_numeral_len_bound(s, i + 1, seen_dot);
        } else if s[i] == '.' && !seen_dot {
            lemma_numeral_len_bound(s, i + 1, true);
        }
    }
}

/// `quote_dist` finds exactly the first quote at or after `i`: a distance
/// points at a quote with none before it, and `None` means there is none.
pub proof fn lemma_quote_dist(s: Seq<char>, i: int)
    requires
        0 <= i,
    ensures
        match quote_dist(s, i) {
            Some(d) => i + d < s.len() && s[i + d] == '"' && (forall|k: int|
                i <= k < i + d ==> s[k] != '"'),
            None => forall|k: int| i <= k < s.len() ==> s[k] != '"',
        },
    decreases s.len() - i,
{
    if i < s.len() && s[i] != '"' {
        lemma_quote_dist(s, i + 1);
    }
}

/// A quote at `j` with none between `a` and `j` pins the distance down.
pub proof fn lemma_quote_dist_found(s: Seq<char>, a: int, j: int)
    requires
        0 <= a <= j < s.len(),
        s[j] == '"',
        forall|k: int| a <= k < j ==> s[k] != '"',
    ensures
        quote_dist(s, a) == Some((j - a) as nat),
    decreases j - a,
{
    if a < j {
        lemma_quote_dist_found(s, a + 1, j);
    }
}

/// No quote from `a` to the end means the distance is `None`.
pub proof fn lemma_quote_dist_none(s: Seq<char>, a: int)
    requires
        0 <= a,
        forall|k: int| a <= k < s.len() ==> s[k] != '"',
    ensures
        quote_dist(s, a) == None::<nat>,
    decreases s.len() - a,
{
    if a < s.len() {
        lemma_quote_dist_none(s, a + 1);
    }
}

/// A successful scanner step always advances the cursor and stays in bounds,
/// so the guard in `spec_tokenize_from` never takes its error branch.
pub proof fn lemma_step_in_range(s: Seq<char>, i: int)
    requires
        0 <= i < s.len(),
    ensures
        spec_step(s, i) matches Ok((token, next)) ==> i < next <= s.len(),
{
    if is_digit(s[i]) || s[i] == '.' {
        lemma_numeral_len_bound(s, i, false);
    }
    if s[i] == '"' {
        lemma_quote_dist(s, i + 1);
    }
}

/// Scans a numeral at `*curr_index`: greedily accumulates ASCII digits and
/// at most one decimal point, leaves the cursor on the first character it
/// did not take, and fails when the accumulated text holds no digit.
fn tokenize_float(s: &str, curr_index: &mut usize) -> (r: Result<Token, TokenizeError>)
    requires
        *old(curr_index) <= s@.len(),
    ensures
        match r {
            Ok(token) => spec_scan_number(s@, *old(curr_index) as int) == Ok::<
                (TokenView, int),
                TokenizeError,
            >((token@, *final(curr_index) as int)) && *old(curr_index) < *final(curr_index)
                <= s@.len(),
            Err(e) => spec_scan_number(s@, *old(curr_index) as int) == Err::<
                (TokenView, int),
                TokenizeError,
            >(e),
        },
{
    let len = s.unicode_len();
    let start: usize = *curr_index;
    let mut i: usize = start;
    let mut has_decimal = false;
    let mut saw_digit = false;
    while i < len
        invariant
            start <= i <= len,
            len == s@.len(),
            numeral_len(s@, start as int, false) == (i - start) + numeral_len(
                s@,
                i as int,
                has_decimal,
            ),
            saw_digit == exists|k: int| start <= k < i && is_digit(s@[k]),
        ensures
            start <= i <= len,
            numeral_len(s@, start as int, false) == i - start,
            saw_digit == exists|k: int| start <= k < i && is_digit(s@[k]),
        decreases len - i,
    {
        let c = s.get_char(i);
        if '0' as u32 <= c as u32 && c as u32 <= '9' as u32 {
            proof {
                assert(is_digit(s@[i as int]));
            }
            saw_digit = true;
            i = i + 1;
        } else if c == '.' && !has_decimal {
            has_decimal = true;
            i = i + 1;
        } else {
            break;
        }
    }
    let ghost end = *curr_index + numeral_len(s@, *curr_index as int, false);
    let ghost numeral = s@.subrange(start as int, end);
    assert(end == i);
    if saw_digit {
        let text = s.substring_char(start, i);
        *curr_index = i;
        proof {
            let k = choose|k: int| start <= k < i && is_digit(s@[k]);
            assert(numeral[k - start] == s@[k]);
        }
        Ok(Token::Number(String::from_str(text)))
    } else {
        proof {
            assert(forall|k: int| 0 <= k < numeral.len() ==> numeral[k] == s@[start + k]);
        }
        Err(TokenizeError::InvalidNumber)
    }
}

/// Scans the keyword `null` at `*index` and leaves the cursor just past it;
/// a mismatch, or the input running out first, is one error.
fn tokenize_null(s: &str, index: &mut usize) -> (r: Result<Token, TokenizeError>)
    requires
        *old(index) < s@.len(),
    ensures
        match r {
            Ok(token) => spec_scan_literal(s@, *old(index) as int, null_lit(), TokenView::Null)
                == Ok::<(TokenView, int), TokenizeError>((token@, *final(index) as int)) && *old(
                index,
            ) < *final(index) <= s@.len(),
            Err(e) => spec_scan_literal(s@, *old(index) as int, null_lit(), TokenView::Null)
                == Err::<(TokenView, int), TokenizeError>(e),
        },
{
    let len = s.unicode_len();
    let i = *index;
    if len - i < 4 {
        return Err(TokenizeError::UnterminatedLiteral);
    }
    proof {
        let sub = s@.subrange(i as int, i as int + 4);
        assert(sub[0] == s@[i as int] && sub[1] == s@[i as int + 1] && sub[2] == s@[i as int + 2]
            && sub[3] == s@[i as int + 3]);
    }
    if s.get_char(i) == 'n' && s.get_char(i + 1) == 'u' && s.get_char(i + 2) == 'l' && s.get_char(
        i + 3,
    ) == 'l' {
        *index = i + 4;
        proof {
            assert(s@.subrange(i as int, i as int + 4) =~= null_lit());
        }
        Ok(Token::Null)
    } else {
        Err(TokenizeError::UnterminatedLiteral)
    }
}

/// Scans the keyword `true` at `*index`, by the same rules as `null`.
fn tokenize_true(s: &str, index: &mut usize) -> (r: Result<Token, TokenizeError>)
    requires
        *old(index) < s@.len(),
    ensures
        match r {
            Ok(token) => spec_scan_literal(s@, *old(index) as int, true_lit(), TokenView::True)
                == Ok::<(TokenView, int), TokenizeError>((token@, *final(index) as int)) && *old(
                index,
            ) < *final(index) <= s@.len(),
            Err(e) => spec_scan_literal(s@, *old(index) as int, true_lit(), TokenView::True)
                == Err::<(TokenView, int), TokenizeError>(e),
        },
{
    let len = s.unicode_len();
    let i = *index;
    if len - i < 4 {
        return Err(TokenizeError::UnterminatedLiteral);
    }
    proof {
        let sub = s@.subrange(i as int, i as int + 4);
        assert(sub[0] == s@[i as int] && sub[1] == s@[i as int + 1] && sub[2] == s@[i as int + 2]
            && sub[3] == s@[i as int + 3]);
    }
    if s.get_char(i) == 't' && s.get_char(i + 1) == 'r' && s.get_char(i + 2) == 'u' && s.get_char(
        i + 3,
    ) == 'e' {
        *index = i + 4;
        proof {
            assert(s@.subrange(i as int, i as int + 4) =~= true_lit());
        }
        Ok(Token::True)
    } else {
        Err(TokenizeError::UnterminatedLiteral)
    }
}

/// Scans the keyword `false` at `*index`, by the same rules as `null`.
fn tokenize_false(s: &str, index: &mut usize) -> (r: Result<Token, TokenizeError>)
    requires
        *old(index) < s@.len(),
    ensures
        match r {
            Ok(token) => spec_scan_literal(s@, *old(index) as int, false_lit(), TokenView::False)
                == Ok::<(TokenView, int), TokenizeError>((token@, *final(index) as int)) && *old(
                index,
            ) < *final(index) <= s@.len(),
            Err(e) => spec_scan_literal(s@, *old(index) as int, false_lit(), TokenView::False)
                == Err::<(TokenView, int), TokenizeError>(e),
        },
{
    let len = s.unicode_len();
    let i = *index;
    if len - i < 5 {
        return Err(TokenizeError::UnterminatedLiteral);
    }
    proof {
        let sub = s@.subrange(i as int, i as int + 5);
        assert(sub[0] == s@[i as int] && sub[1] == s@[i as int + 1] && sub[2] == s@[i as int + 2]
            && sub[3] == s@[i as int + 3] && sub[4] == s@[i as int + 4]);
    }
    if s.get_char(i) == 'f' && s.get_char(i + 1) == 'a' && s.get_char(i + 2) == 'l' && s.get_char(
        i + 3,
    ) == 's' && s.get_char(i + 4) == 'e' {
        *index = i + 5;
        proof {
            assert(s@.subrange(i as int, i as int + 5) =~= false_lit());
        }
        Ok(Token::False)
    } else {
        Err(TokenizeError::UnterminatedLiteral)
    }
}

/// Scans a quoted string whose opening quote stands at `*curr_index`: the
/// token carries the body with the delimiters stripped, the cursor ends just
/// past the closing quote, and a missing closing quote is an explicit
/// failure rather than a read past the end of the input.
fn tokenize_string(s: &str, curr_index: &mut usize) -> (r: Result<Token, TokenizeError>)
    requires
        *old(curr_index) < s@.len(),
    ensures
        match r {
            Ok(token) => spec_scan_string(s@, *old(curr_index) as int) == Ok::<
                (TokenView, int),
                TokenizeError,
            >((token@, *final(curr_index) as int)) && *old(curr_index) < *final(curr_index)
                <= s@.len(),
            Err(e) => spec_scan_string(s@, *old(curr_index) as int) == Err::<
                (TokenView, int),
                TokenizeError,
            >(e),
        },
{
    let len = s.unicode_len();
    let start: usize = *curr_index;
    let mut j: usize = start + 1;
    while j < len
        invariant
            start == *old(curr_index),
            start + 1 <= j <= len,
            len == s@.len(),
            forall|k: int| start + 1 <= k < j ==> s@[k] != '"',
        decreases len - j,
    {
        if s.get_char(j) == '"' {
            let body = s.substring_char(start + 1, j);
            *curr_index = j + 1;
            proof {
                lemma_quote_dist_found(s@, start as int + 1, j as int);
            }
            return Ok(Token::String(String::from_str(body)));
        }
        j = j + 1;
    }
    proof {
        lemma_quote_dist_none(s@, start as int + 1);
    }
    Err(TokenizeError::UnterminatedLiteral)
}

/// Classifies the character at `*index` and scans exactly one token there,
/// leaving the cursor on the first character the token did not consume.
fn make_token(s: &str, index: &mut usize) -> (r: Result<Token, TokenizeError>)
    requires
        *old(index) < s@.len(),
        s@.len() <= usize::MAX,
    ensures
        match r {
            Ok(token) => spec_step(s@, *old(index) as int) == Ok::<
                (TokenView, int),
                TokenizeError,
            >((token@, *final(index) as int)) && *old(index) < *final(index) <= s@.len(),
            Err(e) => spec_step(s@, *old(index) as int) == Err::<(TokenView, int), TokenizeError>(
                e,
            ),
        },
{
    let ch = s.get_char(*index);
    match ch {
        '[' => {
            *index = *index + 1;
            Ok(Token::LeftBracket)
        },
        ']' => {
            *index = *index + 1;
            Ok(Token::RightBracket)
        },
        '{' => {
            *index = *index + 1;
            Ok(Token::LeftBrace)
        },
        '}' => {
            *index = *index + 1;
            Ok(Token::RightBrace)
        },
        ',' => {
            *index = *index + 1;
            Ok(Token::Comma)
        },
        ':' => {
            *index = *index + 1;
            Ok(Token::Colon)
        },
        'n' => tokenize_null(s, index),
        'f' => tokenize_false(s, index),
        't' => tokenize_true(s, index),
        '"' => tokenize_string(s, index),
        c if ('0' as u32 <= c as u32 && c as u32 <= '9' as u32) || c == '.' => tokenize_float(
            s,
            index,
        ),
        _ => Err(TokenizeError::UnexpectedCharacter(ch)),
    }
}

/// Converts raw JSON-formatted text into its ordered token sequence.
///
/// The result is exactly what [`spec_tokenize`] says of the input's
/// characters: every token in left-to-right source order on success, and on
/// the first lexical failure the error alone — no partial sequence escapes.
/// The empty input yields the empty sequence.
pub fn tokenize(input: String) -> (r: Result<Vec<Token>, TokenizeError>)
    ensures
        match r {
            Ok(tokens) => spec_tokenize(input@) == Ok::<Seq<TokenView>, TokenizeError>(
                tokens.deep_view(),
            ),
            Err(e) => spec_tokenize(input@) == Err::<Seq<TokenView>, TokenizeError>(e),
        },
{
    let s = input.as_str();
    let len = s.unicode_len();
    let mut index: usize = 0;
    let mut tokens: Vec<Token> = Vec::new();
    proof {
        if spec_tokenize_from(input@, 0) is Ok {
            let rest = spec_tokenize_from(input@, 0)->Ok_0;
            assert(tokens.deep_view() + rest =~= rest);
        }
    }
    while index < len
        invariant
            index <= len,
            len == s@.len(),
            s@ == input@,
            match spec_tokenize_from(input@, index as int) {
                Ok(rest) => spec_tokenize(input@) == Ok::<Seq<TokenView>, TokenizeError>(
                    tokens.deep_view() + rest,
                ),
                Err(e) => spec_tokenize(input@) == Err::<Seq<TokenView>, TokenizeError>(e),
            },
        decreases len - index,
    {
        let ghost prev = index as int;
        let ghost prev_tokens = tokens.deep_view();
        let token = match make_token(s, &mut index) {
            Ok(token) => token,
            Err(e) => {
                return Err(e);
            },
        };
        tokens.push(token);
        proof {
            assert(tokens.deep_view() =~= prev_tokens.push(token@));
            if spec_tokenize_from(input@, index as int) is Ok {
                let rest = spec_tokenize_from(input@, index as int)->Ok_0;
                assert(spec_tokenize_from(input@, prev) == Ok::<Seq<TokenView>, TokenizeError>(
                    seq![token@] + rest,
                ));
                assert(prev_tokens + (seq![token@] + rest) =~= tokens.deep_view() + rest);
            }
        }
    }
    proof {
        assert(tokens.deep_view() + Seq::<TokenView>::empty() =~= tokens.deep_view());
    }
    Ok(tokens)
}

proof fn lemma_punctuation_tokens_from(s: Seq<char>, i: int)
    requires
        0 <= i <= s.len(),
        forall|k: int| 0 <= k < s.len() ==> is_punct(s[k]),
    ensures
        spec_tokenize_from(s, i) == Ok::<Seq<TokenView>, TokenizeError>(
            Seq::new((s.len() - i) as nat, |k: int| punct_token(s[i + k])),
        ),
    decreases s.len() - i,
{
    if i >= s.len() {
        assert(Seq::new((s.len() - i) as nat, |k: int| punct_token(s[i + k]))
            =~= Seq::<TokenView>::empty());
    } else {
        lemma_punctuation_tokens_from(s, i + 1);
        let rest = Seq::new((s.len() - i - 1) as nat, |k: int| punct_token(s[i + 1 + k]));
        assert(seq![punct_token(s[i])] + rest =~= Seq::new(
            (s.len() - i) as nat,
            |k: int| punct_token(s[i + k]),
        ));
    }
}

/// Law: an input made of punctuation characters alone tokenizes to the
/// corresponding structural tokens, one per character, in input order.
pub proof fn lemma_punctuation_tokens(s: Seq<char>)
    requires
        forall|k: int| 0 <= k < s.len() ==> is_punct(s[k]),
    ensures
        spec_tokenize(s) == Ok::<Seq<TokenView>, TokenizeError>(
            Seq::new(s.len(), |k: int| punct_token(s[k])),
        ),
{
    lemma_punctuation_tokens_from(s, 0);
    assert(Seq::new((s.len() - 0) as nat, |k: int| punct_token(s[0 + k])) =~= Seq::new(
        s.len(),
        |k: int| punct_token(s[k]),
    ));
}

/// Whether a token, if it is a number, carries at least one digit.
pub open spec fn number_token_decodes(t: TokenView) -> bool {
    match t {
        TokenView::Number(numeral) => has_digit(numeral),
        _ => true,
    }
}

proof fn lemma_number_tokens_decode_from(s: Seq<char>, i: int)
    requires
        0 <= i,
        spec_tokenize_from(s, i) is Ok,
    ensures
        forall|k: int|
            0 <= k < spec_tokenize_from(s, i)->Ok_0.len() ==> number_token_decodes(
                spec_tokenize_from(s, i)->Ok_0[k],
            ),
    decreases s.len() - i,
{
    if i < s.len() {
        let (token, next) = spec_step(s, i)->Ok_0;
        lemma_number_tokens_decode_from(s, next);
        let rest = spec_tokenize_from(s, next)->Ok_0;
        assert(spec_tokenize_from(s, i)->Ok_0 == seq![token] + rest);
        let c = s[i];
        if is_punct(c) {
            assert(token == punct_token(c));
        } else if c == 'n' {
            assert(token == TokenView::Null);
        } else if c == 't' {
            assert(token == TokenView::True);
        } else if c == 'f' {
            assert(token == TokenView::False);
        } else if is_digit(c) || c == '.' {
            let numeral = s.subrange(i, i + numeral_len(s, i, false));
            assert(token == TokenView::Number(numeral));
            assert(has_digit(numeral));
        } else {
            assert(token is String);
        }
        assert(number_token_decodes(token));
        assert forall|k: int| 0 <= k < (seq![token] + rest).len() implies number_token_decodes(
            (seq![token] + rest)[k],
        ) by {
            if k == 0 {
                assert((seq![token] + rest)[0] == token);
            } else {
                assert((seq![token] + rest)[k] == rest[k - 1]);
            }
        }
    }
}

/// Law: every token is delivered fully formed — in particular, every number
/// token in a tokenization carries at least one digit, so its numeral text
/// always decodes to a numeric value.
pub proof fn lemma_number_tokens_decode(s: Seq<char>, tokens: Seq<TokenView>)
    requires
        spec_tokenize(s) == Ok::<Seq<TokenView>, TokenizeError>(tokens),
    ensures
        forall|k: int| 0 <= k < tokens.len() ==> number_token_decodes(tokens[k]),
{
    lemma_number_tokens_decode_from(s, 0);
    assert forall|k: int| 0 <= k < tokens.len() implies number_token_decodes(tokens[k]) by {
        assert(tokens[k] == spec_tokenize_from(s, 0)->Ok_0[k]);
    }
}

/// Law: tokenization is a pure function of the input text — any two results
/// that the contract of `tokenize` admits for the same character sequence
/// are one and the same, so identical inputs always tokenize identically.
pub proof fn lemma_tokenize_deterministic(
    s: Seq<char>,
    r1: Result<Seq<TokenView>, TokenizeError>,
    r2: Result<Seq<TokenView>, TokenizeError>,
)
    requires
        r1 == spec_tokenize(s),
        r2 == spec_tokenize(s),
    ensures
        r1 == r2,
{
}


} // verus!

