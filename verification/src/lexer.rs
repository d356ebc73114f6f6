//! Lexer: turns one line of source text into an ordered token sequence.
//!
//! Rule priority, first match wins: whitespace run, string literal,
//! reserved words (`module`, `where`), equals operator, alphanumeric symbol.
//! A token's span is a half-open range of character offsets: start inclusive,
//! end exclusive. Lexing is all-or-nothing: on failure no token list escapes.

use vstd::prelude::*;

verus! {

/// Half-open range of character offsets within one line:
/// `start` inclusive, `end` exclusive.
#[derive(Clone, Copy, PartialEq, Eq, Debug)]
pub struct Span {
    pub start: usize,
    pub end: usize,
}

/// The classification of one token, with its content where it varies.
#[derive(PartialEq, Eq, Debug)]
pub enum TokenContent {
    Module,
    Where,
    Equals,
    StrLit(String),
    Space(usize),
    Symbol(String),
}

/// One classified, source-positioned lexical unit.
#[derive(PartialEq, Eq, Debug)]
pub struct Token {
    pub span: Span,
    pub content: TokenContent,
}

/// Why lexing a line failed.
#[derive(Clone, Copy, PartialEq, Eq, Debug)]
pub enum LexError {
    /// A `"` opened a string literal and no closing `"` follows.
    UnterminatedString,
    /// A string literal with no characters between its quotes.
    EmptyString,
    /// A character that starts no rule.
    IllegalChar,
    /// The requested position lies at or past the end of the input.
    UnexpectedEnd,
}

/// Mathematical counterpart of [`TokenContent`].
pub enum SpecContent {
    Module,
    Where,
    Equals,
    StrLit(Seq<char>),
    Space(nat),
    Symbol(Seq<char>),
}

/// Mathematical counterpart of [`Token`]: offsets as unbounded integers.
pub struct SpecToken {
    pub start: int,
    pub end: int,
    pub content: SpecContent,
}

impl View for TokenContent {
    type V = SpecContent;

    open spec fn view(&self) -> SpecContent {
        match self {
            TokenContent::Module => SpecContent::Module,
            TokenContent::Where => SpecContent::Where,
            TokenContent::Equals => SpecContent::Equals,
            TokenContent::StrLit(s) => SpecContent::StrLit(s@),
            TokenContent::Space(n) => SpecContent::Space(*n as nat),
            TokenContent::Symbol(s) => SpecContent::Symbol(s@),
        }
    }
}

impl View for Token {
    type V = SpecToken;

    open spec fn view(&self) -> SpecToken {
        SpecToken {
            start: self.span.start as int,
            end: self.span.end as int,
            content: self.content@,
        }
    }
}

pub open spec fn tokens_view(ts: Seq<Token>) -> Seq<SpecToken> {
    ts.map_values(|t: Token| t@)
}

/// The whitespace characters a whitespace run consists of.
pub open spec fn is_space_char(c: char) -> bool {
    c == ' ' || c == '\t'
}

/// Whether `char::is_alphanumeric` holds of `c`: membership of the character
/// in the Unicode Alphabetic or Number categories, a function of the
/// character alone.
pub uninterp spec fn is_alphanum(c: char) -> bool;

/// Relies on `char::is_alphanumeric`: a pure classification of the character
/// by the fixed Unicode tables of the standard library.
#[verifier::external_body]
fn alphanumeric(c: char) -> (r: bool)
    ensures
        r == is_alphanum(c),
{
    c.is_alphanumeric()
}

/// Index of the first occurrence of `c` at or after `pos`, if any.
pub open spec fn find_char(s: Seq<char>, pos: int, c: char) -> Option<int>
    decreases s.len() - pos,
{
    if 0 <= pos < s.len() {
        if s[pos] == c {
            Some(pos)
        } else {
            find_char(s, pos + 1, c)
        }
    } else {
        None
    }
}

/// Length of the run of whitespace characters starting at `pos`.
pub open spec fn space_run(s: Seq<char>, pos: int) -> int
    decreases s.len() - pos,
{
    if 0 <= pos < s.len() && is_space_char(s[pos]) {
        1 + space_run(s, pos + 1)
    } else {
        0
    }
}

/// Length of the run of alphanumeric characters starting at `pos`.
pub open spec fn symbol_run(s: Seq<char>, pos: int) -> int
    decreases s.len() - pos,
{
    if 0 <= pos < s.len() && is_alphanum(s[pos]) {
        1 + symbol_run(s, pos + 1)
    } else {
        0
    }
}

pub open spec fn module_kw() -> Seq<char> {
    "module"@
}

pub open spec fn where_kw() -> Seq<char> {
    "where"@
}

/// The keyword `kw` occurs in `s` starting at `pos`.
pub open spec fn has_kw(s: Seq<char>, pos: int, kw: Seq<char>) -> bool {
    0 <= pos && pos + kw.len() <= s.len() && s.subrange(pos, pos + kw.len()) == kw
}

/// The string-literal rule at `pos`: a `"`, at least one character that is
/// not a `"`, and a closing `"`. The token's span includes both quotes; its
/// content excludes them. No escape processing.
pub open spec fn spec_lex_string(s: Seq<char>, pos: int) -> Result<(SpecToken, int), LexError> {
    if !(0 <= pos < s.len()) {
        Err(LexError::UnexpectedEnd)
    } else if s[pos] != '"' {
        Err(LexError::IllegalChar)
    } else {
        match find_char(s, pos + 1, '"') {
            None => Err(LexError::UnterminatedString),
            Some(close) => if close == pos + 1 {
                Err(LexError::EmptyString)
            } else {
                Ok(
                    (
                        SpecToken {
                            start: pos,
                            end: close + 1,
                            content: SpecContent::StrLit(s.subrange(pos + 1, close)),
                        },
                        close + 1,
                    ),
                )
            },
        }
    }
}

/// One lexing step at `pos`: the token the highest-priority matching rule
/// yields, with the position just past it.
pub open spec fn spec_step(s: Seq<char>, pos: int) -> Result<(SpecToken, int), LexError>
    recommends
        0 <= pos < s.len(),
{
    if is_space_char(s[pos]) {
        let n = space_run(s, pos);
        Ok(
            (
                SpecToken { start: pos, end: pos + n, content: SpecContent::Space(n as nat) },
                pos + n,
            ),
        )
    } else if s[pos] == '"' {
        spec_lex_string(s, pos)
    } else if has_kw(s, pos, module_kw()) {
        Ok((SpecToken { start: pos, end: pos + 6, content: SpecContent::Module }, pos + 6))
    } else if has_kw(s, pos, where_kw()) {
        Ok((SpecToken { start: pos, end: pos + 5, content: SpecContent::Where }, pos + 5))
    } else if s[pos] == '=' {
        Ok((SpecToken { start: pos, end: pos + 1, content: SpecContent::Equals }, pos + 1))
    } else if is_alphanum(s[pos]) {
        let n = symbol_run(s, pos);
        Ok(
            (
                SpecToken {
                    start: pos,
                    end: pos + n,
                    content: SpecContent::Symbol(s.subrange(pos, pos + n)),
                },
                pos + n,
            ),
        )
    } else {
        Err(LexError::IllegalChar)
    }
}

proof fn lemma_space_run_bounds(s: Seq<char>, pos: int)
    requires
        0 <= pos <= s.len(),
    ensures
        0 <= space_run(s, pos),
        pos + space_run(s, pos) <= s.len(),
    decreases s.len() - pos,
{
    if pos < s.len() && is_space_char(s[pos]) {
        lemma_space_run_bounds(s, pos + 1);
    }
}

proof fn lemma_symbol_run_bounds(s: Seq<char>, pos: int)
    requires
        0 <= pos <= s.len(),
    ensures
        0 <= symbol_run(s, pos),
        pos + symbol_run(s, pos) <= s.len(),
    decreases s.len() - pos,
{
    if pos < s.len() && is_alphanum(s[pos]) {
        lemma_symbol_run_bounds(s, pos + 1);
    }
}

pub proof fn lemma_find_char_bounds(s: Seq<char>, pos: int, c: char)
    requires
        0 <= pos,
    ensures
        match find_char(s, pos, c) {
            Some(i) => pos <= i < s.len() && s[i] == c,
            None => true,
        },
    decreases s.len() - pos,
{
    if 0 <= pos < s.len() && s[pos] != c {
        lemma_find_char_bounds(s, pos + 1, c);
    }
}

/// Searching a suffix finds the same occurrence, shifted by the suffix's
/// start.
pub proof fn lemma_find_char_shift(s: Seq<char>, pos: int, k: int, c: char)
    requires
        0 <= pos <= s.len(),
        0 <= k,
    ensures
        find_char(s.skip(pos), k, c) == match find_char(s, pos + k, c) {
            Some(i) => Some(i - pos),
            None => None::<int>,
        },
    decreases s.len() - pos - k,
{
    if 0 <= k < s.skip(pos).len() {
        assert(s.skip(pos)[k] == s[pos + k]);
        if s[pos + k] != c {
            lemma_find_char_shift(s, pos, k + 1, c);
        }
    }
}

/// Every successful lexing step consumes at least one character and stays
/// inside the input, and its token spans exactly the consumed range.
pub proof fn lemma_step_progress(s: Seq<char>, pos: int)
    requires
        0 <= pos < s.len(),
    ensures
        match spec_step(s, pos) {
            Ok((t, p2)) => pos < p2 <= s.len() && t.start == pos && t.end == p2,
            Err(_) => true,
        },
{
    lemma_space_run_bounds(s, pos);
    lemma_space_run_bounds(s, pos + 1);
    lemma_symbol_run_bounds(s, pos);
    lemma_symbol_run_bounds(s, pos + 1);
    lemma_find_char_bounds(s, pos + 1, '"');
    reveal_strlit("module");
    reveal_strlit("where");
    assert(module_kw().len() == 6);
    assert(where_kw().len() == 5);
}

/// The tokens of `s` from `pos` to the end, under the rule priority of
/// [`spec_step`]; lexing fails as a whole if any step fails.
pub open spec fn spec_lex_from(s: Seq<char>, pos: int) -> Result<Seq<SpecToken>, LexError>
    decreases s.len() - pos
        via spec_lex_from_decreases
{
    if !(0 <= pos < s.len()) {
        Ok(Seq::empty())
    } else {
        match spec_step(s, pos) {
            Err(e) => Err(e),
            Ok((t, p2)) => match spec_lex_from(s, p2) {
                Err(e) => Err(e),
                Ok(rest) => Ok(seq![t] + rest),
            },
        }
    }
}

#[via_fn]
proof fn spec_lex_from_decreases(s: Seq<char>, pos: int) {
    if 0 <= pos < s.len() {
        lemma_step_progress(s, pos);
    }
}

/// The token sequence of one whole line, or the error of the first failing
/// step.
pub open spec fn spec_lex(s: Seq<char>) -> Result<Seq<SpecToken>, LexError> {
    spec_lex_from(s, 0)
}

pub open spec fn lex_result_view(r: Result<Vec<Token>, LexError>) -> Result<
    Seq<SpecToken>,
    LexError,
> {
    match r {
        Ok(ts) => Ok(tokens_view(ts@)),
        Err(e) => Err(e),
    }
}

/// Whether the characters of `kw` occur in `input` starting at `pos`.
fn has_kw_at(input: &str, pos: usize, kw: &str) -> (b: bool)
    requires
        pos <= input@.len(),
    ensures
        b == has_kw(input@, pos as int, kw@),
{
    let n = input.unicode_len();
    let k = kw.unicode_len();
    if k > n - pos {
        return false;
    }
    let mut j: usize = 0;
    while j < k
        invariant
            n == input@.len(),
            k == kw@.len(),
            pos + k <= n,
            0 <= j <= k,
            forall|x: int| 0 <= x < j ==> input@[pos + x] == kw@[x],
        decreases k - j,
    {
        if input.get_char(pos + j) != kw.get_char(j) {
            assert(input@.subrange(pos as int, pos + k) != kw@) by {
                assert(input@.subrange(pos as int, pos + k)[j as int] != kw@[j as int]);
            }
            return false;
        }
        j += 1;
    }
    assert(input@.subrange(pos as int, pos + k) =~= kw@);
    true
}

/// Lexes a string literal at `pos`: a `"`, at least one character that is
/// not a `"`, and a closing `"`. Returns the token and the position just
/// past the closing quote.
pub fn lex_single_line_string(input: &str, pos: usize) -> (r: Result<(Token, usize), LexError>)
    ensures
        match r {
            Ok((t, p2)) => spec_lex_string(input@, pos as int) == Ok::<_, LexError>(
                (t@, p2 as int),
            ) && pos < p2 <= input@.len(),
            Err(e) => spec_lex_string(input@, pos as int) == Err::<(SpecToken, int), _>(e),
        },
{
    let n = input.unicode_len();
    if pos >= n {
        return Err(LexError::UnexpectedEnd);
    }
    if input.get_char(pos) != '"' {
        return Err(LexError::IllegalChar);
    }
    let mut i: usize = pos + 1;
    while i < n && input.get_char(i) != '"'
        invariant
            n == input@.len(),
            pos < i <= n,
            input@[pos as int] == '"',
            find_char(input@, pos + 1, '"') == find_char(input@, i as int, '"'),
        decreases n - i,
    {
        i += 1;
    }
    if i == n {
        return Err(LexError::UnterminatedString);
    }
    if i == pos + 1 {
        return Err(LexError::EmptyString);
    }
    let text = input.substring_char(pos + 1, i).to_owned();
    let t = Token {
        span: Span { start: pos, end: i + 1 },
        content: TokenContent::StrLit(text),
    };
    assert(t@.content == SpecContent::StrLit(input@.subrange(pos + 1, i as int)));
    Ok((t, i + 1))
}

/// One lexing step of the executable lexer, equal to [`spec_step`].
fn lex_step(input: &str, pos: usize) -> (r: Result<(Token, usize), LexError>)
    requires
        pos < input@.len(),
    ensures
        match r {
            Ok((t, p2)) => spec_step(input@, pos as int) == Ok::<_, LexError>((t@, p2 as int))
                && pos < p2 <= input@.len(),
            Err(e) => spec_step(input@, pos as int) == Err::<(SpecToken, int), _>(e),
        },
{
    let ghost s = input@;
    let n = input.unicode_len();
    let c = input.get_char(pos);
    if c == ' ' || c == '\t' {
        let mut i: usize = pos + 1;
        while i < n && (input.get_char(i) == ' ' || input.get_char(i) == '\t')
            invariant
                n == s.len(),
                s == input@,
                pos < i <= n,
                space_run(s, pos as int) == i - pos + space_run(s, i as int),
            decreases n - i,
        {
            i += 1;
        }
        let t = Token {
            span: Span { start: pos, end: i },
            content: TokenContent::Space(i - pos),
        };
        Ok((t, i))
    } else if c == '"' {
        lex_single_line_string(input, pos)
    } else if has_kw_at(input, pos, "module") {
        proof {
            reveal_strlit("module");
        }
        let t = Token { span: Span { start: pos, end: pos + 6 }, content: TokenContent::Module };
        Ok((t, pos + 6))
    } else if has_kw_at(input, pos, "where") {
        proof {
            reveal_strlit("where");
        }
        let t = Token { span: Span { start: pos, end: pos + 5 }, content: TokenContent::Where };
        Ok((t, pos + 5))
    } else if c == '=' {
        let t = Token { span: Span { start: pos, end: pos + 1 }, content: TokenContent::Equals };
        Ok((t, pos + 1))
    } else if alphanumeric(c) {
        let mut i: usize = pos + 1;
        while i < n && alphanumeric(input.get_char(i))
            invariant
                n == s.len(),
                s == input@,
                pos < i <= n,
                symbol_run(s, pos as int) == i - pos + symbol_run(s, i as int),
            decreases n - i,
        {
            i += 1;
        }
        let text = input.substring_char(pos, i).to_owned();
        let t = Token {
            span: Span { start: pos, end: i },
            content: TokenContent::Symbol(text),
        };
        Ok((t, i))
    } else {
        Err(LexError::IllegalChar)
    }
}

/// Lexes one whole line under the fixed rule priority. On success the tokens
/// consume the entire input in source order; on failure no partial token
/// list is returned.
pub fn lex_line(input: &str) -> (r: Result<Vec<Token>, LexError>)
    ensures
        lex_result_view(r) == spec_lex(input@),
{
    let ghost s = input@;
    let n = input.unicode_len();
    let mut toks: Vec<Token> = Vec::new();
    let mut pos: usize = 0;
    while pos < n
        invariant
            n == s.len(),
            s == input@,
            0 <= pos <= n,
            spec_lex(s) == match spec_lex_from(s, pos as int) {
                Ok(rest) => Ok::<_, LexError>(tokens_view(toks@) + rest),
                Err(e) => Err::<Seq<SpecToken>, _>(e),
            },
        decreases n - pos,
    {
        match lex_step(input, pos) {
            Err(e) => {
                return Err(e);
            },
            Ok((t, p2)) => {
                let ghost old_toks = toks@;
                toks.push(t);
                assert(tokens_view(toks@) =~= tokens_view(old_toks) + seq![t@]);
                assert(tokens_view(old_toks) + (seq![t@] + spec_lex_from(s, p2 as int)->Ok_0)
                    =~= tokens_view(toks@) + spec_lex_from(s, p2 as int)->Ok_0);
                pos = p2;
            },
        }
    }
    assert(spec_lex_from(s, pos as int) == Ok::<Seq<SpecToken>, LexError>(Seq::empty()));
    assert(tokens_view(toks@) + Seq::<SpecToken>::empty() =~= tokens_view(toks@));
    Ok(toks)
}

/// The concatenation of the source substrings spanned by the tokens, in
/// token order.
pub open spec fn concat_spans(s: Seq<char>, ts: Seq<SpecToken>) -> Seq<char>
    decreases ts.len(),
{
    if ts.len() == 0 {
        Seq::empty()
    } else {
        s.subrange(ts[0].start, ts[0].end) + concat_spans(s, ts.drop_first())
    }
}

proof fn lemma_lex_from_spans(s: Seq<char>, pos: int)
    requires
        0 <= pos <= s.len(),
        spec_lex_from(s, pos) is Ok,
    ensures
        ({
            let ts = spec_lex_from(s, pos)->Ok_0;
            &&& (pos < s.len() ==> ts.len() > 0)
            &&& (pos == s.len() ==> ts.len() == 0)
            &&& (ts.len() > 0 ==> ts[0].start == pos && ts[ts.len() - 1].end == s.len())
            &&& (forall|i: int| 0 <= i < ts.len() ==> ts[i].start < ts[i].end)
            &&& (forall|i: int| 0 <= i && i + 1 < ts.len() ==> #[trigger] ts[i].end == ts[i
                + 1].start)
        }),
    decreases s.len() - pos,
{
    let ts = spec_lex_from(s, pos)->Ok_0;
    if pos < s.len() {
        lemma_step_progress(s, pos);
        let (t, p2) = spec_step(s, pos)->Ok_0;
        let rest = spec_lex_from(s, p2)->Ok_0;
        lemma_lex_from_spans(s, p2);
        assert(ts == seq![t] + rest);
        assert(ts[0] == t);
        assert(forall|i: int| 1 <= i < ts.len() ==> ts[i] == rest[i - 1]);
        if rest.len() == 0 {
            assert(p2 == s.len());
        }
    }
}

/// Law: the spans of a successful lex are in strictly forward source order.
/// Each token's span is nonempty, consecutive spans abut exactly (no overlap,
/// no gap), the first starts at offset zero and the last ends at the input's
/// length.
pub proof fn lemma_lex_spans_contiguous(s: Seq<char>)
    requires
        spec_lex(s) is Ok,
    ensures
        ({
            let ts = spec_lex(s)->Ok_0;
            &&& (ts.len() > 0 ==> ts[0].start == 0 && ts[ts.len() - 1].end == s.len())
            &&& (ts.len() == 0 ==> s.len() == 0)
            &&& (forall|i: int| 0 <= i < ts.len() ==> ts[i].start < ts[i].end)
            &&& (forall|i: int| 0 <= i && i + 1 < ts.len() ==> #[trigger] ts[i].end == ts[i
                + 1].start)
        }),
{
    lemma_lex_from_spans(s, 0);
}

proof fn lemma_round_trip_from(s: Seq<char>, pos: int)
    requires
        0 <= pos <= s.len(),
        spec_lex_from(s, pos) is Ok,
    ensures
        concat_spans(s, spec_lex_from(s, pos)->Ok_0) == s.subrange(pos, s.len() as int),
    decreases s.len() - pos,
{
    let ts = spec_lex_from(s, pos)->Ok_0;
    if pos == s.len() {
        assert(ts.len() == 0);
        assert(concat_spans(s, ts) =~= s.subrange(pos, s.len() as int));
    } else {
        lemma_step_progress(s, pos);
        let (t, p2) = spec_step(s, pos)->Ok_0;
        let rest = spec_lex_from(s, p2)->Ok_0;
        lemma_round_trip_from(s, p2);
        assert(ts == seq![t] + rest);
        assert(ts.drop_first() =~= rest);
        assert(ts[0] == t);
        assert(concat_spans(s, ts) == s.subrange(pos, p2) + concat_spans(s, rest));
        assert(s.subrange(pos, p2) + s.subrange(p2, s.len() as int) =~= s.subrange(
            pos,
            s.len() as int,
        ));
    }
}

proof fn lemma_space_run_full(s: Seq<char>, pos: int)
    requires
        0 <= pos <= s.len(),
        forall|i: int| 0 <= i < s.len() ==> is_space_char(#[trigger] s[i]),
    ensures
        space_run(s, pos) == s.len() - pos,
    decreases s.len() - pos,
{
    if pos < s.len() {
        lemma_space_run_full(s, pos + 1);
    }
}

/// Law: a nonempty line consisting solely of whitespace characters lexes to
/// exactly one whitespace token, recording the run's length and spanning the
/// whole line.
pub proof fn lemma_all_spaces_single_token(s: Seq<char>)
    requires
        s.len() > 0,
        forall|i: int| 0 <= i < s.len() ==> is_space_char(#[trigger] s[i]),
    ensures
        spec_lex(s) == Ok::<_, LexError>(
            seq![
                SpecToken { start: 0, end: s.len() as int, content: SpecContent::Space(s.len()) },
            ],
        ),
{
    lemma_space_run_full(s, 0);
    let t = SpecToken { start: 0, end: s.len() as int, content: SpecContent::Space(s.len()) };
    assert(spec_step(s, 0) == Ok::<_, LexError>((t, s.len() as int)));
    assert(spec_lex_from(s, s.len() as int) == Ok::<Seq<SpecToken>, LexError>(Seq::empty()));
    assert(seq![t] + Seq::<SpecToken>::empty() =~= seq![t]);
}

/// Round-trip law: concatenating the source substrings spanned by the tokens
/// of a successful lex reconstructs the input exactly.
pub proof fn lemma_lex_round_trip(s: Seq<char>)
    requires
        spec_lex(s) is Ok,
    ensures
        concat_spans(s, spec_lex(s)->Ok_0) == s,
{
    lemma_round_trip_from(s, 0);
    assert(s.subrange(0, s.len() as int) =~= s);
}

} // verus!
