//! Hover: the token category shown for a cursor position on one line.
//!
//! Convention, chosen deliberately: a token is reported for a column iff its
//! span contains that column — start-inclusive, end-exclusive. Spans of one
//! line never overlap, so at most one token qualifies; past the line's end,
//! or on a line that does not lex, nothing does.

use vstd::prelude::*;

use crate::lexer::{SpecContent, SpecToken, TokenContent, lex_line, spec_lex, tokens_view};

verus! {

/// The human-readable category name of a token content.
pub open spec fn spec_describe(c: SpecContent) -> Seq<char> {
    match c {
        SpecContent::Module => "module keyword"@,
        SpecContent::Where => "where keyword"@,
        SpecContent::Equals => "equals operator"@,
        SpecContent::StrLit(_) => "string literal"@,
        SpecContent::Space(_) => "whitespace"@,
        SpecContent::Symbol(_) => "symbol"@,
    }
}

/// The first token whose span contains `col`: start inclusive, end exclusive.
pub open spec fn spec_token_at(ts: Seq<SpecToken>, col: int) -> Option<SpecToken>
    decreases ts.len(),
{
    if ts.len() == 0 {
        None
    } else if ts[0].start <= col < ts[0].end {
        Some(ts[0])
    } else {
        spec_token_at(ts.drop_first(), col)
    }
}

/// What hovering at column `col` of `l` reports: the category of the token
/// covering that column, or nothing when the line does not lex or no token
/// covers it.
pub open spec fn spec_hover(l: Seq<char>, col: int) -> Option<Seq<char>> {
    match spec_lex(l) {
        Err(_) => None,
        Ok(ts) => match spec_token_at(ts, col) {
            None => None,
            Some(t) => Some(spec_describe(t.content)),
        },
    }
}

/// The category name of one token content.
pub fn describe_content(c: &TokenContent) -> (r: &'static str)
    ensures
        r@ == spec_describe(c@),
{
    match c {
        TokenContent::Module => "module keyword",
        TokenContent::Where => "where keyword",
        TokenContent::Equals => "equals operator",
        TokenContent::StrLit(_) => "string literal",
        TokenContent::Space(_) => "whitespace",
        TokenContent::Symbol(_) => "symbol",
    }
}

/// Re-lexes one line and reports the category of the token whose span
/// contains `col`, under the start-inclusive, end-exclusive convention.
#[verifier::loop_isolation(false)]
pub fn hover_category(line: &str, col: usize) -> (r: Option<&'static str>)
    ensures
        match r {
            Some(d) => spec_hover(line@, col as int) == Some(d@),
            None => spec_hover(line@, col as int) is None,
        },
{
    let toks = match lex_line(line) {
        Err(_) => {
            return None;
        },
        Ok(toks) => toks,
    };
    let ghost ts = tokens_view(toks@);
    let mut i: usize = 0;
    assert(ts.skip(0) =~= ts);
    while i < toks.len()
        invariant
            0 <= i <= toks.len(),
            spec_token_at(ts, col as int) == spec_token_at(ts.skip(i as int), col as int),
        decreases toks.len() - i,
    {
        assert(ts.skip(i as int)[0] == ts[i as int]);
        assert(ts.skip(i as int).drop_first() =~= ts.skip(i + 1));
        assert(ts[i as int] == toks@[i as int]@);
        if toks[i].span.start <= col && col < toks[i].span.end {
            return Some(describe_content(&toks[i].content));
        }
        i += 1;
    }
    None
}

} // verus!
