//! Per-line partial parsing and the associative combination of line results.
//!
//! One line parses to a [`PartialExpr`]: an ordered run of atoms, where an
//! atom is a complete construct (a module header, a finished definition), a
//! definition opened on one line and awaiting its value (`name =`), or a bare
//! value that closes such an opening from an earlier line. Combining two runs
//! concatenates them and joins an opening at the seam with a value right
//! after it. The operation is associative with the empty run as identity, so
//! per-line results may be folded in any grouping.

use vstd::prelude::*;

use crate::lexer::{LexError, SpecContent, SpecToken, Token, TokenContent, tokens_view};

verus! {

/// A literal or identifier value, as written on a source line.
#[derive(PartialEq, Eq, Debug)]
pub enum Value {
    /// A string literal's content.
    Str(String),
    /// An identifier reference.
    Sym(String),
}

/// One parsed construct, complete or awaiting its other half.
#[derive(PartialEq, Eq, Debug)]
pub enum Atom {
    /// A module header: `module <name> where`.
    Header(String),
    /// A finished definition: `<name> = <value>`.
    Def(String, Value),
    /// A definition opened without its value: `<name> =`.
    Open(String),
    /// A bare value, which closes an [`Atom::Open`] directly before it.
    Val(Value),
}

/// An intermediate parse result: nothing, or an ordered run of atoms.
#[derive(PartialEq, Eq, Debug)]
pub enum PartialExpr {
    Empty,
    Partial(Vec<Atom>),
}

/// Why a line, or the whole document, does not parse.
#[derive(Clone, Copy, PartialEq, Eq, Debug)]
pub enum ParseError {
    /// The line did not lex.
    Lex(LexError),
    /// The line's tokens match no line form of the grammar.
    Unparsable,
    /// The document does not begin with a module header.
    MissingHeader,
    /// A second module header, or one not on the first parsed line.
    MisplacedHeader,
    /// A definition was opened and never received its value.
    Incomplete,
    /// A bare value with no open definition before it.
    OrphanValue,
    /// Two definitions share one name.
    DuplicateDefinition,
}

/// Mathematical counterpart of [`Value`].
pub enum SpecValue {
    Str(Seq<char>),
    Sym(Seq<char>),
}

/// Mathematical counterpart of [`Atom`].
pub enum SpecAtom {
    Header(Seq<char>),
    Def(Seq<char>, SpecValue),
    Open(Seq<char>),
    Val(SpecValue),
}

impl View for Value {
    type V = SpecValue;

    open spec fn view(&self) -> SpecValue {
        match self {
            Value::Str(s) => SpecValue::Str(s@),
            Value::Sym(s) => SpecValue::Sym(s@),
        }
    }
}

impl View for Atom {
    type V = SpecAtom;

    open spec fn view(&self) -> SpecAtom {
        match self {
            Atom::Header(s) => SpecAtom::Header(s@),
            Atom::Def(s, v) => SpecAtom::Def(s@, v@),
            Atom::Open(s) => SpecAtom::Open(s@),
            Atom::Val(v) => SpecAtom::Val(v@),
        }
    }
}

impl View for PartialExpr {
    type V = Seq<SpecAtom>;

    open spec fn view(&self) -> Seq<SpecAtom> {
        match self {
            PartialExpr::Empty => Seq::empty(),
            PartialExpr::Partial(v) => v@.map_values(|a: Atom| a@),
        }
    }
}

/// No opening is immediately followed by a value: every such pair has been
/// joined into a definition.
pub open spec fn joined(ats: Seq<SpecAtom>) -> bool {
    forall|i: int|
        0 <= i && i + 1 < ats.len() ==> !((#[trigger] ats[i]) is Open && ats[i + 1] is Val)
}

/// A well-formed partial result: the `Partial` variant is nonempty (so the
/// empty run has one representation) and its atoms are joined.
pub open spec fn partial_wf(p: PartialExpr) -> bool {
    &&& (p is Partial ==> p@.len() > 0)
    &&& joined(p@)
}

/// Whether joining `a + b` reduces at the seam: `a` ends with an opening and
/// `b` begins with the value that closes it.
pub open spec fn seam_reduces(a: Seq<SpecAtom>, b: Seq<SpecAtom>) -> bool {
    a.len() > 0 && b.len() > 0 && a.last() is Open && b.first() is Val
}

/// Concatenation of two atom runs, joining an opening and a value that meet
/// at the seam into one definition.
pub open spec fn spec_join(a: Seq<SpecAtom>, b: Seq<SpecAtom>) -> Seq<SpecAtom> {
    if seam_reduces(a, b) {
        a.drop_last() + seq![SpecAtom::Def(a.last()->Open_0, b.first()->Val_0)] + b.drop_first()
    } else {
        a + b
    }
}

/// A per-line or combined result: an atom run, or the errors collected so
/// far.
pub open spec fn spec_combine(
    l: Result<Seq<SpecAtom>, Seq<ParseError>>,
    r: Result<Seq<SpecAtom>, Seq<ParseError>>,
) -> Result<Seq<SpecAtom>, Seq<ParseError>> {
    match (l, r) {
        (Ok(a), Ok(b)) => Ok(spec_join(a, b)),
        (Ok(_), Err(e)) => Err(e),
        (Err(e), Ok(_)) => Err(e),
        (Err(e1), Err(e2)) => Err(e1 + e2),
    }
}

pub open spec fn part_result_view(r: Result<PartialExpr, Vec<ParseError>>) -> Result<
    Seq<SpecAtom>,
    Seq<ParseError>,
> {
    match r {
        Ok(p) => Ok(p@),
        Err(es) => Err(es@),
    }
}

/// Identity law: the empty run is a left and right identity of [`spec_join`].
pub proof fn lemma_join_identity(x: Seq<SpecAtom>)
    ensures
        spec_join(Seq::empty(), x) == x,
        spec_join(x, Seq::empty()) == x,
{
    assert(Seq::<SpecAtom>::empty() + x =~= x);
    assert(x + Seq::<SpecAtom>::empty() =~= x);
}

/// Identity law lifted to line results: combining with an error-free empty
/// result changes nothing, on either side.
pub proof fn lemma_combine_identity(x: Result<Seq<SpecAtom>, Seq<ParseError>>)
    ensures
        spec_combine(Ok(Seq::empty()), x) == x,
        spec_combine(x, Ok(Seq::empty())) == x,
{
    match x {
        Ok(a) => {
            lemma_join_identity(a);
        },
        Err(_) => {},
    }
}

/// Error accumulation law: when both sides carry errors, the combined result
/// carries every error of both, exactly once each, in either combination
/// order; in particular two single-error lines combine to exactly two errors.
pub proof fn lemma_error_accumulation(e1: Seq<ParseError>, e2: Seq<ParseError>)
    ensures
        spec_combine(Err(e1), Err(e2)) == Err::<Seq<SpecAtom>, _>(e1 + e2),
        spec_combine(Err(e1), Err(e2))->Err_0.len() == e1.len() + e2.len(),
        spec_combine(Err(e1), Err(e2))->Err_0.to_multiset() == spec_combine(
            Err(e2),
            Err(e1),
        )->Err_0.to_multiset(),
{
    vstd::seq_lib::lemma_seq_union_to_multiset_commutative(e1, e2);
}

/// Joining preserves the joined normal form.
pub proof fn lemma_join_joined(a: Seq<SpecAtom>, b: Seq<SpecAtom>)
    requires
        joined(a),
        joined(b),
    ensures
        joined(spec_join(a, b)),
{
    let j = spec_join(a, b);
    let m = a.len() as int;
    if seam_reduces(a, b) {
        let d = SpecAtom::Def(a.last()->Open_0, b.first()->Val_0);
        assert(j.len() == m + b.len() - 1);
        assert(forall|i: int| 0 <= i < m - 1 ==> j[i] == a[i]);
        assert(j[m - 1] == d);
        assert(forall|i: int| m <= i < j.len() ==> j[i] == b[i - m + 1]);
        assert forall|i: int| 0 <= i && i + 1 < j.len() implies !((#[trigger] j[i]) is Open && j[i
            + 1] is Val) by {
            if i + 1 < m - 1 {
                assert(j[i] == a[i] && j[i + 1] == a[i + 1]);
            } else if i + 1 == m - 1 {
                assert(j[i] == a[i] && j[i + 1] == d);
            } else if i == m - 1 {
                assert(j[i] == d);
            } else {
                assert(j[i] == b[i - m + 1] && j[i + 1] == b[i - m + 2]);
            }
        }
    } else {
        assert(j.len() == m + b.len());
        assert(forall|i: int| 0 <= i < m ==> j[i] == a[i]);
        assert(forall|i: int| m <= i < j.len() ==> j[i] == b[i - m]);
        assert forall|i: int| 0 <= i && i + 1 < j.len() implies !((#[trigger] j[i]) is Open && j[i
            + 1] is Val) by {
            if i + 1 < m {
                assert(j[i] == a[i] && j[i + 1] == a[i + 1]);
            } else if i + 1 == m {
                assert(j[i] == a[i] && j[i + 1] == b[0]);
                assert(!(a[m - 1] is Open && b[0] is Val));
            } else {
                assert(j[i] == b[i - m] && j[i + 1] == b[i - m + 1]);
            }
        }
    }
}

/// Associativity law: an ordered sequence of atom runs may be folded
/// left-to-right, right-to-left, or by any balanced grouping — the joined
/// result is the same.
pub proof fn lemma_join_associative(a: Seq<SpecAtom>, b: Seq<SpecAtom>, c: Seq<SpecAtom>)
    ensures
        spec_join(spec_join(a, b), c) == spec_join(a, spec_join(b, c)),
{
    if b.len() == 0 {
        assert(a + b =~= a);
        assert(b + c =~= c);
    } else {
        let ab = spec_join(a, b);
        let bc = spec_join(b, c);
        if seam_reduces(a, b) {
            let d = SpecAtom::Def(a.last()->Open_0, b.first()->Val_0);
            assert(ab == a.drop_last() + seq![d] + b.drop_first());
            if b.len() == 1 {
                assert(ab =~= a.drop_last() + seq![d]);
                assert(ab.last() == d);
                assert(!seam_reduces(ab, c));
                assert(!seam_reduces(b, c));
                assert(bc == b + c);
                assert(bc.first() == b.first());
                assert(seam_reduces(a, bc));
                assert(bc.drop_first() =~= c);
                assert(spec_join(ab, c) =~= spec_join(a, bc));
            } else {
                assert(ab.last() == b.last());
                assert(bc.len() > 0);
                if seam_reduces(b, c) {
                    let e = SpecAtom::Def(b.last()->Open_0, c.first()->Val_0);
                    assert(seam_reduces(ab, c));
                    assert(spec_join(ab, c) == ab.drop_last() + seq![e] + c.drop_first());
                    assert(ab.drop_last() =~= a.drop_last() + seq![d]
                        + b.drop_first().drop_last());
                    assert(bc == b.drop_last() + seq![e] + c.drop_first());
                    assert(bc.first() == b.first());
                    assert(seam_reduces(a, bc));
                    assert(spec_join(a, bc) == a.drop_last() + seq![d] + bc.drop_first());
                    assert(bc.drop_first() =~= b.drop_last().drop_first() + seq![e]
                        + c.drop_first());
                    assert(b.drop_first().drop_last() =~= b.drop_last().drop_first());
                    assert(spec_join(ab, c) =~= spec_join(a, bc));
                } else {
                    assert(!seam_reduces(ab, c));
                    assert(spec_join(ab, c) == ab + c);
                    assert(bc == b + c);
                    assert(bc.first() == b.first());
                    assert(seam_reduces(a, bc));
                    assert(spec_join(a, bc) == a.drop_last() + seq![d] + bc.drop_first());
                    assert(bc.drop_first() =~= b.drop_first() + c);
                    assert(spec_join(ab, c) =~= spec_join(a, bc));
                }
            }
        } else {
            assert(ab == a + b);
            assert(ab.last() == b.last());
            if seam_reduces(b, c) {
                let e = SpecAtom::Def(b.last()->Open_0, c.first()->Val_0);
                assert(seam_reduces(ab, c));
                assert(spec_join(ab, c) == ab.drop_last() + seq![e] + c.drop_first());
                assert(ab.drop_last() =~= a + b.drop_last());
                assert(bc == b.drop_last() + seq![e] + c.drop_first());
                if b.len() == 1 {
                    assert(bc =~= seq![e] + c.drop_first());
                    assert(bc.first() == e);
                    assert(!seam_reduces(a, bc));
                    assert(spec_join(a, bc) == a + bc);
                    assert(spec_join(ab, c) =~= spec_join(a, bc));
                } else {
                    assert(bc.first() == b.first());
                    assert(!seam_reduces(a, bc));
                    assert(spec_join(a, bc) == a + bc);
                    assert(spec_join(ab, c) =~= spec_join(a, bc));
                }
            } else {
                assert(!seam_reduces(ab, c));
                assert(bc == b + c);
                assert(bc.first() == b.first());
                assert(!seam_reduces(a, bc));
                assert((a + b) + c =~= a + (b + c));
            }
        }
    }
}

pub open spec fn atoms_view(v: Seq<Atom>) -> Seq<SpecAtom> {
    v.map_values(|a: Atom| a@)
}

fn is_open_atom(a: &Atom) -> (r: bool)
    ensures
        r == (a@ is Open),
{
    matches!(a, Atom::Open(_))
}

fn is_val_atom(a: &Atom) -> (r: bool)
    ensures
        r == (a@ is Val),
{
    matches!(a, Atom::Val(_))
}

/// Joins two well-formed partial results as [`spec_join`] does.
fn join(a: PartialExpr, b: PartialExpr) -> (r: PartialExpr)
    requires
        partial_wf(a),
        partial_wf(b),
    ensures
        r@ == spec_join(a@, b@),
        partial_wf(r),
{
    proof {
        lemma_join_joined(a@, b@);
    }
    match (a, b) {
        (PartialExpr::Empty, bb) => {
            proof {
                lemma_join_identity(bb@);
            }
            bb
        },
        (aa, PartialExpr::Empty) => {
            proof {
                lemma_join_identity(aa@);
            }
            aa
        },
        (PartialExpr::Partial(mut va), PartialExpr::Partial(mut vb)) => {
            let ghost av = atoms_view(va@);
            let ghost bv = atoms_view(vb@);
            let la = va.len() - 1;
            if is_open_atom(&va[la]) && is_val_atom(&vb[0]) {
                assert(seam_reduces(av, bv));
                let opened = va.pop().unwrap();
                let closer = vb.remove(0);
                match (opened, closer) {
                    (Atom::Open(n), Atom::Val(v)) => {
                        assert(av.last() == SpecAtom::Open(n@));
                        assert(bv.first() == SpecAtom::Val(v@));
                        va.push(Atom::Def(n, v));
                        va.append(&mut vb);
                        assert(atoms_view(va@) =~= av.drop_last() + seq![
                            SpecAtom::Def(av.last()->Open_0, bv.first()->Val_0),
                        ] + bv.drop_first());
                        PartialExpr::Partial(va)
                    },
                    _ => {
                        proof {
                            assert(false);
                        }
                        PartialExpr::Empty
                    },
                }
            } else {
                assert(!seam_reduces(av, bv));
                va.append(&mut vb);
                assert(atoms_view(va@) =~= av + bv);
                PartialExpr::Partial(va)
            }
        },
    }
}

/// Merges two per-line (or already combined) results: error-free runs are
/// joined; if either side carries errors the result carries the
/// concatenation of both error sets and no value.
pub fn combine_parts(
    left: Result<PartialExpr, Vec<ParseError>>,
    right: Result<PartialExpr, Vec<ParseError>>,
) -> (r: Result<PartialExpr, Vec<ParseError>>)
    requires
        left matches Ok(p) ==> partial_wf(p),
        right matches Ok(p) ==> partial_wf(p),
    ensures
        part_result_view(r) == spec_combine(part_result_view(left), part_result_view(right)),
        r matches Ok(p) ==> partial_wf(p),
{
    match (left, right) {
        (Ok(a), Ok(b)) => Ok(join(a, b)),
        (Ok(_), Err(e)) => Err(e),
        (Err(e), Ok(_)) => Err(e),
        (Err(mut e1), Err(mut e2)) => {
            e1.append(&mut e2);
            Err(e1)
        },
    }
}

/// The token contents of a line with its whitespace runs left out.
pub open spec fn significant(cs: Seq<SpecContent>) -> Seq<SpecContent>
    decreases cs.len(),
{
    if cs.len() == 0 {
        Seq::empty()
    } else if cs[0] is Space {
        significant(cs.drop_first())
    } else {
        seq![cs[0]] + significant(cs.drop_first())
    }
}

pub open spec fn contents_of(ts: Seq<SpecToken>) -> Seq<SpecContent> {
    ts.map_values(|t: SpecToken| t.content)
}

/// Token contents that may stand as a value: string literals and symbols.
pub open spec fn is_value_content(c: SpecContent) -> bool {
    c is StrLit || c is Symbol
}

pub open spec fn value_of(c: SpecContent) -> SpecValue
    recommends
        is_value_content(c),
{
    if c is StrLit {
        SpecValue::Str(c->StrLit_0)
    } else {
        SpecValue::Sym(c->Symbol_0)
    }
}

/// The line forms of the grammar, over a line's significant token contents:
/// a blank line contributes nothing; `module <name> where` opens a module;
/// `<name> = <value>` is a finished definition; `<name> =` opens a
/// definition; a bare value closes one. Anything else is a line error.
pub open spec fn spec_parse_sig(st: Seq<SpecContent>) -> Result<Seq<SpecAtom>, ParseError> {
    if st.len() == 0 {
        Ok(Seq::empty())
    } else if st.len() == 3 && st[0] is Module && st[1] is Symbol && st[2] is Where {
        Ok(seq![SpecAtom::Header(st[1]->Symbol_0)])
    } else if st.len() == 3 && st[0] is Symbol && st[1] is Equals && is_value_content(st[2]) {
        Ok(seq![SpecAtom::Def(st[0]->Symbol_0, value_of(st[2]))])
    } else if st.len() == 2 && st[0] is Symbol && st[1] is Equals {
        Ok(seq![SpecAtom::Open(st[0]->Symbol_0)])
    } else if st.len() == 1 && is_value_content(st[0]) {
        Ok(seq![SpecAtom::Val(value_of(st[0]))])
    } else {
        Err(ParseError::Unparsable)
    }
}

/// What one line's token sequence contributes to the document.
pub open spec fn spec_parse_line(ts: Seq<SpecToken>) -> Result<Seq<SpecAtom>, ParseError> {
    spec_parse_sig(significant(contents_of(ts)))
}

fn content_dup(c: &TokenContent) -> (r: TokenContent)
    ensures
        r@ == c@,
{
    match c {
        TokenContent::Module => TokenContent::Module,
        TokenContent::Where => TokenContent::Where,
        TokenContent::Equals => TokenContent::Equals,
        TokenContent::StrLit(s) => TokenContent::StrLit(s.clone()),
        TokenContent::Space(n) => TokenContent::Space(*n),
        TokenContent::Symbol(s) => TokenContent::Symbol(s.clone()),
    }
}

/// Parses one line's token sequence into its partial contribution, or a
/// line-scoped error that leaves sibling lines unaffected.
pub fn parse_partial(tokens: &Vec<Token>) -> (r: Result<PartialExpr, ParseError>)
    ensures
        match r {
            Ok(p) => spec_parse_line(tokens_view(tokens@)) == Ok::<_, ParseError>(p@)
                && partial_wf(p),
            Err(e) => spec_parse_line(tokens_view(tokens@)) == Err::<Seq<SpecAtom>, _>(e),
        },
{
    let ghost cs = contents_of(tokens_view(tokens@));
    let mut sig: Vec<TokenContent> = Vec::new();
    let mut i: usize = 0;
    assert(cs.skip(0) =~= cs);
    assert(sig@.map_values(|c: TokenContent| c@) + significant(cs) =~= significant(cs));
    while i < tokens.len()
        invariant
            0 <= i <= tokens.len(),
            cs == contents_of(tokens_view(tokens@)),
            significant(cs) == sig@.map_values(|c: TokenContent| c@) + significant(
                cs.skip(i as int),
            ),
        decreases tokens.len() - i,
    {
        assert(cs.skip(i as int).drop_first() =~= cs.skip(i + 1));
        assert(cs.skip(i as int)[0] == tokens@[i as int].content@);
        let ghost old_sig = sig@;
        match &tokens[i].content {
            TokenContent::Space(_) => {},
            other => {
                sig.push(content_dup(other));
                assert(sig@.map_values(|c: TokenContent| c@) =~= old_sig.map_values(
                    |c: TokenContent| c@,
                ).push(tokens@[i as int].content@));
                assert(old_sig.map_values(|c: TokenContent| c@).push(
                    tokens@[i as int].content@,
                ) + significant(cs.skip(i + 1)) =~= old_sig.map_values(|c: TokenContent| c@) + (
                seq![cs.skip(i as int)[0]] + significant(cs.skip(i + 1))));
            },
        }
        i += 1;
    }
    assert(cs.skip(tokens@.len() as int) =~= Seq::empty());
    let ghost st = significant(cs);
    assert(st == sig@.map_values(|c: TokenContent| c@) + significant(
        cs.skip(tokens@.len() as int),
    ));
    assert(st =~= sig@.map_values(|c: TokenContent| c@));
    if sig.len() == 0 {
        Ok(PartialExpr::Empty)
    } else if sig.len() == 3 {
        match (&sig[0], &sig[1], &sig[2]) {
            (TokenContent::Module, TokenContent::Symbol(n), TokenContent::Where) => {
                let p = PartialExpr::Partial(vec![Atom::Header(n.clone())]);
                assert(p@ =~= seq![SpecAtom::Header(st[1]->Symbol_0)]);
                Ok(p)
            },
            (TokenContent::Symbol(n), TokenContent::Equals, TokenContent::StrLit(s)) => {
                let p = PartialExpr::Partial(
                    vec![Atom::Def(n.clone(), Value::Str(s.clone()))],
                );
                assert(p@ =~= seq![SpecAtom::Def(st[0]->Symbol_0, value_of(st[2]))]);
                Ok(p)
            },
            (TokenContent::Symbol(n), TokenContent::Equals, TokenContent::Symbol(s)) => {
                let p = PartialExpr::Partial(
                    vec![Atom::Def(n.clone(), Value::Sym(s.clone()))],
                );
                assert(p@ =~= seq![SpecAtom::Def(st[0]->Symbol_0, value_of(st[2]))]);
                Ok(p)
            },
            _ => Err(ParseError::Unparsable),
        }
    } else if sig.len() == 2 {
        match (&sig[0], &sig[1]) {
            (TokenContent::Symbol(n), TokenContent::Equals) => {
                let p = PartialExpr::Partial(vec![Atom::Open(n.clone())]);
                assert(p@ =~= seq![SpecAtom::Open(st[0]->Symbol_0)]);
                Ok(p)
            },
            _ => Err(ParseError::Unparsable),
        }
    } else if sig.len() == 1 {
        match &sig[0] {
            TokenContent::StrLit(s) => {
                let p = PartialExpr::Partial(vec![Atom::Val(Value::Str(s.clone()))]);
                assert(p@ =~= seq![SpecAtom::Val(value_of(st[0]))]);
                Ok(p)
            },
            TokenContent::Symbol(s) => {
                let p = PartialExpr::Partial(vec![Atom::Val(Value::Sym(s.clone()))]);
                assert(p@ =~= seq![SpecAtom::Val(value_of(st[0]))]);
                Ok(p)
            },
            _ => Err(ParseError::Unparsable),
        }
    } else {
        Err(ParseError::Unparsable)
    }
}

/// Associativity law lifted to line results: combining per-line results —
/// each an atom run or an error set — may be grouped either way; values join
/// associatively and error sets concatenate associatively, so any reduction
/// order over a line sequence yields one final value and one error set.
pub proof fn lemma_combine_associative(
    x: Result<Seq<SpecAtom>, Seq<ParseError>>,
    y: Result<Seq<SpecAtom>, Seq<ParseError>>,
    z: Result<Seq<SpecAtom>, Seq<ParseError>>,
)
    ensures
        spec_combine(spec_combine(x, y), z) == spec_combine(x, spec_combine(y, z)),
{
    match (x, y, z) {
        (Ok(a), Ok(b), Ok(c)) => {
            lemma_join_associative(a, b, c);
        },
        (Err(e1), Err(e2), Err(e3)) => {
            assert((e1 + e2) + e3 =~= e1 + (e2 + e3));
        },
        _ => {},
    }
}

} // verus!
