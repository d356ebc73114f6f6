//! The module-level syntax tree, the finalizer that judges a fully combined
//! partial result, and the whole-document parse.
//!
//! AST values exist only after a successful whole-document parse; every edit
//! re-parses the document from scratch.

use vstd::prelude::*;

use crate::lexer::{find_char, lex_line, lemma_find_char_bounds, lemma_find_char_shift, spec_lex};
use crate::parser::{
    Atom, ParseError, PartialExpr, SpecAtom, SpecValue, Value, atoms_view, combine_parts,
    parse_partial, part_result_view, partial_wf, spec_combine, spec_parse_line,
};

verus! {

/// A value expression: a string literal or an identifier reference.
#[derive(PartialEq, Eq, Debug)]
pub enum Expr {
    StrLit(String),
    Ident(String),
}

/// One named binding: an optional type expression and a value expression.
#[derive(PartialEq, Eq, Debug)]
pub struct Definition {
    pub name: String,
    pub def_type: Option<Expr>,
    pub def_expr: Expr,
}

/// A module name as written in an import.
#[derive(PartialEq, Eq, Debug)]
pub struct ModuleName {
    pub value: String,
}

/// How an import refers to the imported module's members.
#[derive(Clone, Copy, PartialEq, Eq, Debug)]
pub enum ModuleReference {
    WildCard,
    Single,
    Many,
}

/// One import: a target module and the kind of reference to it.
#[derive(PartialEq, Eq, Debug)]
pub struct Import {
    pub name: ModuleName,
    pub reference: ModuleReference,
}

/// A named collection of ordered imports and ordered definitions.
#[derive(PartialEq, Eq, Debug)]
pub struct Module {
    pub name: String,
    pub imports: Vec<Import>,
    pub definitions: Vec<Definition>,
}

/// A named collection of local modules and imported packages. Ownership is a
/// tree: a package exclusively owns its modules and its imported packages.
pub struct Package {
    pub name: String,
    pub local_modules: Vec<Module>,
    pub imported_packages: Vec<Package>,
}

/// Mathematical counterpart of [`Expr`].
pub enum SpecExpr {
    StrLit(Seq<char>),
    Ident(Seq<char>),
}

/// Mathematical counterpart of [`Definition`].
pub struct SpecDefinition {
    pub name: Seq<char>,
    pub def_type: Option<SpecExpr>,
    pub def_expr: SpecExpr,
}

/// Mathematical counterpart of [`Import`].
pub struct SpecImport {
    pub name: Seq<char>,
    pub reference: ModuleReference,
}

/// Mathematical counterpart of [`Module`].
pub struct SpecModule {
    pub name: Seq<char>,
    pub imports: Seq<SpecImport>,
    pub definitions: Seq<SpecDefinition>,
}

impl View for Expr {
    type V = SpecExpr;

    open spec fn view(&self) -> SpecExpr {
        match self {
            Expr::StrLit(s) => SpecExpr::StrLit(s@),
            Expr::Ident(s) => SpecExpr::Ident(s@),
        }
    }
}

impl View for Definition {
    type V = SpecDefinition;

    open spec fn view(&self) -> SpecDefinition {
        SpecDefinition {
            name: self.name@,
            def_type: match &self.def_type {
                Some(e) => Some(e@),
                None => None,
            },
            def_expr: self.def_expr@,
        }
    }
}

impl View for Import {
    type V = SpecImport;

    open spec fn view(&self) -> SpecImport {
        SpecImport { name: self.name.value@, reference: self.reference }
    }
}

impl View for Module {
    type V = SpecModule;

    open spec fn view(&self) -> SpecModule {
        SpecModule {
            name: self.name@,
            imports: self.imports@.map_values(|i: Import| i@),
            definitions: self.definitions@.map_values(|d: Definition| d@),
        }
    }
}

/// The expression a parsed value denotes.
pub open spec fn spec_value_expr(v: SpecValue) -> SpecExpr {
    match v {
        SpecValue::Str(s) => SpecExpr::StrLit(s),
        SpecValue::Sym(s) => SpecExpr::Ident(s),
    }
}

/// The definition a finished [`SpecAtom::Def`] denotes.
pub open spec fn spec_def_of(a: SpecAtom) -> SpecDefinition
    recommends
        a is Def,
{
    SpecDefinition { name: a->Def_0, def_type: None, def_expr: spec_value_expr(a->Def_1) }
}

/// Definition names are pairwise distinct.
pub open spec fn distinct_names(defs: Seq<SpecDefinition>) -> bool {
    forall|i: int, j: int|
        0 <= i < j < defs.len() ==> (#[trigger] defs[i].name) != (#[trigger] defs[j].name)
}

/// A well-formed module: definition names unique within the module.
pub open spec fn module_wf(m: SpecModule) -> bool {
    distinct_names(m.definitions)
}

/// Judges a fully combined atom run: a document is complete when one module
/// header opens it and everything after it is a finished definition with a
/// fresh name. Each failure names the first check that fails, in this order:
/// a missing header, a misplaced second header, an unclosed opening, an
/// orphan value, a duplicate definition name.
pub open spec fn spec_finalize(atoms: Seq<SpecAtom>) -> Result<SpecModule, ParseError> {
    if atoms.len() == 0 || !(atoms[0] is Header) {
        Err(ParseError::MissingHeader)
    } else if exists|i: int| 1 <= i < atoms.len() && (#[trigger] atoms[i]) is Header {
        Err(ParseError::MisplacedHeader)
    } else if exists|i: int| 1 <= i < atoms.len() && (#[trigger] atoms[i]) is Open {
        Err(ParseError::Incomplete)
    } else if exists|i: int| 1 <= i < atoms.len() && (#[trigger] atoms[i]) is Val {
        Err(ParseError::OrphanValue)
    } else {
        let defs = atoms.skip(1).map_values(|a: SpecAtom| spec_def_of(a));
        if !distinct_names(defs) {
            Err(ParseError::DuplicateDefinition)
        } else {
            Ok(SpecModule { name: atoms[0]->Header_0, imports: Seq::empty(), definitions: defs })
        }
    }
}

/// Law: a finalized module is well formed — its definition names are unique.
pub proof fn lemma_finalize_wf(atoms: Seq<SpecAtom>)
    requires
        spec_finalize(atoms) is Ok,
    ensures
        module_wf(spec_finalize(atoms)->Ok_0),
{
}

fn value_expr(v: &Value) -> (r: Expr)
    ensures
        r@ == spec_value_expr(v@),
{
    match v {
        Value::Str(s) => Expr::StrLit(s.clone()),
        Value::Sym(s) => Expr::Ident(s.clone()),
    }
}

/// Judges the combined result of every line, as [`spec_finalize`] does: the
/// complete module AST, or the first reason the document is incomplete.
#[verifier::loop_isolation(false)]
pub fn complete_expression(part: PartialExpr) -> (r: Result<Module, ParseError>)
    ensures
        match r {
            Ok(m) => spec_finalize(part@) == Ok::<_, ParseError>(m@),
            Err(e) => spec_finalize(part@) == Err::<SpecModule, _>(e),
        },
{
    let atoms: Vec<Atom> = match part {
        PartialExpr::Empty => {
            return Err(ParseError::MissingHeader);
        },
        PartialExpr::Partial(v) => v,
    };
    let ghost av = atoms_view(atoms@);
    if atoms.len() == 0 {
        return Err(ParseError::MissingHeader);
    }
    assert(av[0] == atoms@[0]@);
    let name: String = match &atoms[0] {
        Atom::Header(n) => n.clone(),
        _ => {
            return Err(ParseError::MissingHeader);
        },
    };
    assert(av[0] is Header && name@ == av[0]->Header_0);
    let mut i: usize = 1;
    while i < atoms.len()
        invariant
            1 <= i <= atoms.len(),
            forall|k: int| 1 <= k < i ==> !((#[trigger] av[k]) is Header),
        decreases atoms.len() - i,
    {
        assert(av[i as int] == atoms@[i as int]@);
        if let Atom::Header(_) = &atoms[i] {
            assert(av[i as int] is Header);
            return Err(ParseError::MisplacedHeader);
        }
        i += 1;
    }
    assert(forall|k: int| 1 <= k < av.len() ==> !((#[trigger] av[k]) is Header));
    let mut i: usize = 1;
    while i < atoms.len()
        invariant
            1 <= i <= atoms.len(),
            forall|k: int| 1 <= k < i ==> !((#[trigger] av[k]) is Open),
        decreases atoms.len() - i,
    {
        assert(av[i as int] == atoms@[i as int]@);
        if let Atom::Open(_) = &atoms[i] {
            assert(av[i as int] is Open);
            return Err(ParseError::Incomplete);
        }
        i += 1;
    }
    assert(forall|k: int| 1 <= k < av.len() ==> !((#[trigger] av[k]) is Open));
    let mut i: usize = 1;
    while i < atoms.len()
        invariant
            1 <= i <= atoms.len(),
            forall|k: int| 1 <= k < i ==> !((#[trigger] av[k]) is Val),
        decreases atoms.len() - i,
    {
        assert(av[i as int] == atoms@[i as int]@);
        if let Atom::Val(_) = &atoms[i] {
            assert(av[i as int] is Val);
            return Err(ParseError::OrphanValue);
        }
        i += 1;
    }
    assert(forall|k: int| 1 <= k < av.len() ==> !((#[trigger] av[k]) is Val));
    let ghost spec_defs = av.skip(1).map_values(|a: SpecAtom| spec_def_of(a));
    let mut defs: Vec<Definition> = Vec::new();
    let mut i: usize = 1;
    while i < atoms.len()
        invariant
            1 <= i <= atoms.len(),
            defs@.map_values(|d: Definition| d@) == spec_defs.take(i - 1),
        decreases atoms.len() - i,
    {
        assert(av[i as int] == atoms@[i as int]@);
        let ghost old_views = defs@.map_values(|d: Definition| d@);
        match &atoms[i] {
            Atom::Def(n, v) => {
                defs.push(Definition { name: n.clone(), def_type: None, def_expr: value_expr(v) });
                assert(spec_defs[i - 1] == spec_def_of(av[i as int]));
                assert(defs@.map_values(|d: Definition| d@) =~= old_views.push(
                    spec_def_of(av[i as int]),
                ));
                assert(spec_defs.take(i as int) =~= spec_defs.take(i - 1).push(
                    spec_defs[i - 1],
                ));
            },
            _ => {
                proof {
                    assert(av[i as int] is Def);
                    assert(false);
                }
                return Err(ParseError::MissingHeader);
            },
        }
        i += 1;
    }
    assert(defs@.map_values(|d: Definition| d@) =~= spec_defs);
    let mut j: usize = 0;
    while j < defs.len()
        invariant
            0 <= j <= defs.len(),
            forall|x: int, y: int|
                0 <= x < j && x < y < spec_defs.len() ==> (#[trigger] spec_defs[x].name) != (
                #[trigger] spec_defs[y].name),
        decreases defs.len() - j,
    {
        let mut k: usize = j + 1;
        while k < defs.len()
            invariant
                j < k <= defs.len(),
                forall|y: int|
                    j < y < k ==> (#[trigger] spec_defs[y].name) != spec_defs[j as int].name,
            decreases defs.len() - k,
        {
            assert(spec_defs[j as int] == defs@[j as int]@);
            assert(spec_defs[k as int] == defs@[k as int]@);
            if defs[j].name == defs[k].name {
                assert(spec_defs[j as int].name == spec_defs[k as int].name);
                assert(!distinct_names(spec_defs));
                return Err(ParseError::DuplicateDefinition);
            }
            k += 1;
        }
        j += 1;
    }
    assert(distinct_names(spec_defs));
    let m = Module { name, imports: Vec::new(), definitions: defs };
    assert(m@.imports =~= Seq::<SpecImport>::empty());
    assert(m@ == spec_finalize(av)->Ok_0);
    Ok(m)
}

/// A line with a trailing carriage return stripped.
pub open spec fn strip_cr(l: Seq<char>) -> Seq<char> {
    if l.len() > 0 && l.last() == '\r' {
        l.drop_last()
    } else {
        l
    }
}

/// The lines of a document: split on `'\n'`, each line's trailing `'\r'`
/// stripped, with no empty line after a terminating `'\n'`.
pub open spec fn spec_lines(s: Seq<char>) -> Seq<Seq<char>>
    decreases s.len()
        via spec_lines_decreases
{
    if s.len() == 0 {
        Seq::empty()
    } else {
        match find_char(s, 0, '\n') {
            None => seq![strip_cr(s)],
            Some(i) => seq![strip_cr(s.take(i))] + spec_lines(s.skip(i + 1)),
        }
    }
}

#[via_fn]
proof fn spec_lines_decreases(s: Seq<char>) {
    if s.len() > 0 {
        lemma_find_char_bounds(s, 0, '\n');
    }
}

/// What one line contributes at the document level: its atom run, or a
/// single line-scoped error.
pub open spec fn spec_line_result(l: Seq<char>) -> Result<Seq<SpecAtom>, Seq<ParseError>> {
    match spec_lex(l) {
        Err(le) => Err(seq![ParseError::Lex(le)]),
        Ok(ts) => match spec_parse_line(ts) {
            Err(pe) => Err(seq![pe]),
            Ok(atoms) => Ok(atoms),
        },
    }
}

/// The left-to-right fold of per-line results under [`spec_combine`],
/// starting from the empty run. By the combiner's associativity and identity
/// laws, any other reduction grouping yields the same result.
pub open spec fn spec_fold_lines(
    rs: Seq<Result<Seq<SpecAtom>, Seq<ParseError>>>,
) -> Result<Seq<SpecAtom>, Seq<ParseError>>
    decreases rs.len(),
{
    if rs.len() == 0 {
        Ok(Seq::empty())
    } else {
        spec_combine(spec_fold_lines(rs.drop_last()), rs.last())
    }
}

/// The right-to-left fold of per-line results under [`spec_combine`].
pub open spec fn spec_fold_lines_right(
    rs: Seq<Result<Seq<SpecAtom>, Seq<ParseError>>>,
) -> Result<Seq<SpecAtom>, Seq<ParseError>>
    decreases rs.len(),
{
    if rs.len() == 0 {
        Ok(Seq::empty())
    } else {
        spec_combine(rs.first(), spec_fold_lines_right(rs.drop_first()))
    }
}

/// Fold-order law: folding an ordered sequence of per-line results
/// left-to-right and right-to-left yields the same combined result, by the
/// combiner's identity and associativity.
pub proof fn lemma_fold_order_irrelevant(rs: Seq<Result<Seq<SpecAtom>, Seq<ParseError>>>)
    ensures
        spec_fold_lines(rs) == spec_fold_lines_right(rs),
    decreases rs.len(),
{
    if rs.len() == 0 {
    } else if rs.len() == 1 {
        crate::parser::lemma_combine_identity(rs[0]);
        assert(rs.drop_last() =~= Seq::empty());
        assert(rs.drop_first() =~= Seq::empty());
        assert(rs.last() == rs.first());
        assert(spec_fold_lines(rs.drop_last()) == Ok::<Seq<SpecAtom>, Seq<ParseError>>(
            Seq::empty(),
        ));
        assert(spec_fold_lines_right(rs.drop_first()) == Ok::<Seq<SpecAtom>, Seq<ParseError>>(
            Seq::empty(),
        ));
        assert(spec_fold_lines(rs) == spec_combine(Ok(Seq::empty()), rs.last()));
        assert(spec_fold_lines_right(rs) == spec_combine(rs.first(), Ok(Seq::empty())));
    } else {
        let dl = rs.drop_last();
        let df = rs.drop_first();
        let x = spec_fold_lines(dl.drop_first());
        lemma_fold_order_irrelevant(dl);
        lemma_fold_order_irrelevant(df);
        lemma_fold_order_irrelevant(dl.drop_first());
        assert(dl.drop_first() =~= df.drop_last());
        assert(dl.first() == rs.first());
        assert(df.last() == rs.last());
        assert(spec_fold_lines(rs) == spec_combine(spec_fold_lines(dl), rs.last()));
        assert(spec_fold_lines(dl) == spec_fold_lines_right(dl));
        assert(spec_fold_lines_right(dl) == spec_combine(rs.first(), spec_fold_lines_right(
            dl.drop_first(),
        )));
        assert(spec_fold_lines_right(dl.drop_first()) == x);
        assert(spec_fold_lines(rs) == spec_combine(
            spec_combine(rs.first(), x),
            rs.last(),
        ));
        crate::parser::lemma_combine_associative(rs.first(), x, rs.last());
        assert(spec_fold_lines(df) == spec_combine(spec_fold_lines(df.drop_last()), df.last()));
        assert(spec_fold_lines(df.drop_last()) == x);
        assert(spec_combine(x, rs.last()) == spec_fold_lines(df));
        assert(spec_fold_lines(rs) == spec_combine(rs.first(), spec_fold_lines_right(df)));
        assert(spec_fold_lines_right(rs) == spec_combine(rs.first(), spec_fold_lines_right(df)));
    }
}

/// The whole-document parse: every line lexed and parsed, the per-line
/// results folded, and the fold finalized.
pub open spec fn spec_parse_expr(s: Seq<char>) -> Result<SpecModule, Seq<ParseError>> {
    match spec_fold_lines(spec_lines(s).map_values(|l: Seq<char>| spec_line_result(l))) {
        Err(es) => Err(es),
        Ok(atoms) => match spec_finalize(atoms) {
            Err(pe) => Err(seq![pe]),
            Ok(m) => Ok(m),
        },
    }
}

/// Parses a whole document: lexes and parses each line, accumulating every
/// line's error rather than stopping at the first, combines the per-line
/// results, and finalizes the combination into a module AST.
#[verifier::loop_isolation(false)]
#[verifier::rlimit(50)]
pub fn parse_expr(input: &str) -> (r: Result<Module, Vec<ParseError>>)
    ensures
        match r {
            Ok(m) => spec_parse_expr(input@) == Ok::<_, Seq<ParseError>>(m@),
            Err(es) => spec_parse_expr(input@) == Err::<SpecModule, _>(es@),
        },
{
    let ghost s = input@;
    let n = input.unicode_len();
    let mut acc: Result<PartialExpr, Vec<ParseError>> = Ok(PartialExpr::Empty);
    let mut pos: usize = 0;
    let ghost mut processed: Seq<Seq<char>> = Seq::empty();
    proof {
        assert(s.skip(0) =~= s);
        assert(processed + spec_lines(s) =~= spec_lines(s));
    }
    while pos < n
        invariant
            0 <= pos <= n,
            spec_lines(s) == processed + spec_lines(s.skip(pos as int)),
            part_result_view(acc) == spec_fold_lines(
                processed.map_values(|l: Seq<char>| spec_line_result(l)),
            ),
            acc matches Ok(p) ==> partial_wf(p),
        decreases n - pos,
    {
        let ghost suffix = s.skip(pos as int);
        let mut j: usize = pos;
        while j < n && input.get_char(j) != '\n'
            invariant
                pos <= j <= n,
                find_char(s, pos as int, '\n') == find_char(s, j as int, '\n'),
            decreases n - j,
        {
            j += 1;
        }
        proof {
            lemma_find_char_shift(s, pos as int, 0, '\n');
        }
        let line_end = j;
        let next_pos = if j < n {
            assert(find_char(suffix, 0, '\n') == Some(j - pos));
            j + 1
        } else {
            assert(find_char(suffix, 0, '\n') is None);
            n
        };
        let content_end = if line_end > pos && input.get_char(line_end - 1) == '\r' {
            line_end - 1
        } else {
            line_end
        };
        let line = input.substring_char(pos, content_end);
        proof {
            if j < n {
                assert(suffix.take(j - pos) =~= s.subrange(pos as int, line_end as int));
                assert(strip_cr(suffix.take(j - pos)) =~= line@);
                assert(suffix.skip(j - pos + 1) =~= s.skip(next_pos as int));
                assert(spec_lines(suffix) == seq![line@] + spec_lines(s.skip(next_pos as int)));
            } else {
                assert(suffix =~= s.subrange(pos as int, n as int));
                assert(strip_cr(suffix) =~= line@);
                assert(spec_lines(suffix) == seq![line@]);
                assert(s.skip(n as int) =~= Seq::<char>::empty());
                assert(spec_lines(suffix) =~= seq![line@] + spec_lines(s.skip(next_pos as int)));
            }
        }
        let line_res: Result<PartialExpr, Vec<ParseError>> = match lex_line(line) {
            Err(le) => {
                let es = vec![ParseError::Lex(le)];
                assert(es@ =~= seq![ParseError::Lex(le)]);
                Err(es)
            },
            Ok(ts) => match parse_partial(&ts) {
                Err(pe) => {
                    let es = vec![pe];
                    assert(es@ =~= seq![pe]);
                    Err(es)
                },
                Ok(p) => Ok(p),
            },
        };
        assert(part_result_view(line_res) == spec_line_result(line@));
        acc = combine_parts(acc, line_res);
        proof {
            let old_processed = processed;
            processed = processed + seq![line@];
            assert(spec_lines(s) == processed + spec_lines(s.skip(next_pos as int))) by {
                assert(old_processed + (seq![line@] + spec_lines(s.skip(next_pos as int)))
                    =~= (old_processed + seq![line@]) + spec_lines(s.skip(next_pos as int)));
            }
            let rs = processed.map_values(|l: Seq<char>| spec_line_result(l));
            let old_rs = old_processed.map_values(|l: Seq<char>| spec_line_result(l));
            assert(rs.drop_last() =~= old_rs);
            assert(rs.last() == spec_line_result(line@));
        }
        pos = next_pos;
    }
    proof {
        assert(s.skip(n as int) =~= Seq::<char>::empty());
        assert(processed + Seq::<Seq<char>>::empty() =~= processed);
        assert(spec_lines(s) == processed);
    }
    match acc {
        Err(es) => Err(es),
        Ok(p) => match complete_expression(p) {
            Ok(m) => Ok(m),
            Err(pe) => {
                let es = vec![pe];
                assert(es@ =~= seq![pe]);
                Err(es)
            },
        },
    }
}

} // verus!
