//! Style sheets: selectors and declarations.
use crate::source::{
    fail, is_at, is_soft, lemma_prepend_push, lemma_run_end_bounds, list_model_of, list_outcome,
    model_of, or_else, outcome, prepend, rewind, run_end, views, ws_end, CharClass, ErrorKind,
    Expected, is_ascii_letter, is_word, lemma_run_end_at, lemma_subrange_chars, ParseError, Source,
};
use vstd::prelude::*;

verus! {

#[derive(Debug, PartialEq)]
pub struct Stylesheet {
    pub rules: Vec<Rule>,
}

#[derive(Debug, PartialEq)]
pub struct Rule {
    pub selectors: Vec<Selector>,
    pub declarations: Vec<Declaration>,
}

pub type Selector = SimpleSelector;

/// A selector without combinators.
#[derive(Debug, PartialEq)]
pub enum SimpleSelector {
    /// `*`
    UniversalSelector,
    /// `h1`
    TypeSelector { tag_name: String },
    /// `a[href=value]`, `a[href~=value]`
    AttributeSelector {
        tag_name: String,
        op: AttributeSelectorOp,
        attribute: String,
        value: String,
    },
    /// `.name`
    ClassSelector { class_name: String },
    /// `#name`
    IdSelector { id_name: String },
}

/// The supported attribute selector operators.
#[derive(Clone, Copy, Debug, PartialEq, Eq, Structural)]
pub enum AttributeSelectorOp {
    /// `=`
    Eq,
    /// `~=`
    Contain,
}

#[derive(Debug, PartialEq)]
pub struct Declaration {
    pub name: String,
    pub value: CSSValue,
}

#[derive(Debug, PartialEq, Clone)]
pub enum CSSValue {
    Keyword(String),
}

/// What a `CSSValue` stands for.
pub enum CssValueModel {
    Keyword(Seq<char>),
}

/// What a `Declaration` stands for.
pub struct DeclarationModel {
    pub name: Seq<char>,
    pub value: CssValueModel,
}

/// What a `SimpleSelector` stands for.
pub enum SelectorModel {
    Universal,
    Type { tag_name: Seq<char> },
    Attribute {
        tag_name: Seq<char>,
        op: AttributeSelectorOp,
        attribute: Seq<char>,
        value: Seq<char>,
    },
    Class { class_name: Seq<char> },
    Id { id_name: Seq<char> },
}

/// What a `Rule` stands for.
pub struct RuleModel {
    pub selectors: Seq<SelectorModel>,
    pub declarations: Seq<DeclarationModel>,
}

impl View for Rule {
    type V = RuleModel;

    open spec fn view(&self) -> RuleModel {
        RuleModel { selectors: views(self.selectors@), declarations: views(self.declarations@) }
    }
}

impl View for Stylesheet {
    type V = Seq<RuleModel>;

    open spec fn view(&self) -> Seq<RuleModel> {
        views(self.rules@)
    }
}

impl View for AttributeSelectorOp {
    type V = AttributeSelectorOp;

    open spec fn view(&self) -> AttributeSelectorOp {
        *self
    }
}

impl View for CSSValue {
    type V = CssValueModel;

    open spec fn view(&self) -> CssValueModel {
        match self {
            CSSValue::Keyword(k) => CssValueModel::Keyword(k@),
        }
    }
}

impl View for Declaration {
    type V = DeclarationModel;

    open spec fn view(&self) -> DeclarationModel {
        DeclarationModel { name: self.name@, value: self.value@ }
    }
}

impl View for SimpleSelector {
    type V = SelectorModel;

    open spec fn view(&self) -> SelectorModel {
        match self {
            SimpleSelector::UniversalSelector => SelectorModel::Universal,
            SimpleSelector::TypeSelector { tag_name } => SelectorModel::Type { tag_name: tag_name@ },
            SimpleSelector::AttributeSelector { tag_name, op, attribute, value } =>
                SelectorModel::Attribute {
                tag_name: tag_name@,
                op: *op,
                attribute: attribute@,
                value: value@,
            },
            SimpleSelector::ClassSelector { class_name } => SelectorModel::Class {
                class_name: class_name@,
            },
            SimpleSelector::IdSelector { id_name } => SelectorModel::Id { id_name: id_name@ },
        }
    }
}

// ---------------------------------------------------------------------------
// The grammar, as functions from a text and a position to a result.

/// `name : value`, each a run of letters, with optional whitespace around `:`.
pub open spec fn declaration_spec(s: Seq<char>, i: int) -> Result<(DeclarationModel, int), ParseError> {
    let a = run_end(s, i, CharClass::Letter);
    let b = ws_end(s, a);
    let c = ws_end(s, b + 1);
    let d = run_end(s, c, CharClass::Letter);
    if a == i {
        Err(fail(i, ErrorKind::Syntax(Expected::Letter)))
    } else if !is_at(s, b, ':') {
        Err(fail(b, ErrorKind::Syntax(Expected::Char(':'))))
    } else if d == c {
        Err(fail(c, ErrorKind::Syntax(Expected::Letter)))
    } else {
        Ok(
            (
                DeclarationModel {
                    name: s.subrange(i, a),
                    value: CssValueModel::Keyword(s.subrange(c, d)),
                },
                d,
            ),
        )
    }
}

/// Declarations, each followed by optional whitespace, separated and
/// optionally ended by `;` and optional whitespace.
pub open spec fn declarations_spec(s: Seq<char>, i: int) -> Result<
    (Seq<DeclarationModel>, int),
    ParseError,
>
    decreases s.len() - i,
{
    match declaration_spec(s, i) {
        Err(e) => if is_soft(e, i) {
            Ok((seq![], i))
        } else {
            Err(e)
        },
        Ok((d, j)) => {
            let k = ws_end(s, j);
            let m = ws_end(s, k + 1);
            if is_at(s, k, ';') {
                proof {
                    lemma_declaration_spec_advances(s, i);
                    lemma_run_end_bounds(s, j, CharClass::Space);
                    lemma_run_end_bounds(s, k + 1, CharClass::Space);
                }
                prepend(seq![d], declarations_spec(s, m))
            } else {
                Ok((seq![d], k))
            }
        },
    }
}

pub open spec fn universal_selector_spec(s: Seq<char>, i: int) -> Result<(SelectorModel, int), ParseError> {
    if is_at(s, i, '*') {
        Ok((SelectorModel::Universal, i + 1))
    } else {
        Err(fail(i, ErrorKind::Syntax(Expected::Char('*'))))
    }
}

/// `#` and a run of letters.
pub open spec fn id_selector_spec(s: Seq<char>, i: int) -> Result<(SelectorModel, int), ParseError> {
    let a = run_end(s, i + 1, CharClass::Letter);
    if !is_at(s, i, '#') {
        Err(fail(i, ErrorKind::Syntax(Expected::Char('#'))))
    } else if a == i + 1 {
        Err(fail(i + 1, ErrorKind::Syntax(Expected::Letter)))
    } else {
        Ok((SelectorModel::Id { id_name: s.subrange(i + 1, a) }, a))
    }
}

/// `.` and a run of letters.
pub open spec fn class_selector_spec(s: Seq<char>, i: int) -> Result<(SelectorModel, int), ParseError> {
    let a = run_end(s, i + 1, CharClass::Letter);
    if !is_at(s, i, '.') {
        Err(fail(i, ErrorKind::Syntax(Expected::Char('.'))))
    } else if a == i + 1 {
        Err(fail(i + 1, ErrorKind::Syntax(Expected::Letter)))
    } else {
        Ok((SelectorModel::Class { class_name: s.subrange(i + 1, a) }, a))
    }
}

/// A run of letters.
pub open spec fn type_selector_spec(s: Seq<char>, i: int) -> Result<(SelectorModel, int), ParseError> {
    let a = run_end(s, i, CharClass::Letter);
    if a == i {
        Err(fail(i, ErrorKind::Syntax(Expected::Letter)))
    } else {
        Ok((SelectorModel::Type { tag_name: s.subrange(i, a) }, a))
    }
}

/// The operator that a run of operator characters spells, if it is one.
pub open spec fn op_of(sym: Seq<char>) -> Option<AttributeSelectorOp> {
    if sym == seq!['='] {
        Some(AttributeSelectorOp::Eq)
    } else if sym == seq!['~', '='] {
        Some(AttributeSelectorOp::Contain)
    } else {
        None
    }
}

/// `name op value`: letters, a run of operator characters, letters. A run
/// that is neither `=` nor `~=` is an invalid operator.
pub open spec fn attribute_spec(s: Seq<char>, i: int) -> Result<
    ((Seq<char>, AttributeSelectorOp, Seq<char>), int),
    ParseError,
> {
    let a = run_end(s, i, CharClass::Letter);
    let o = run_end(s, a, CharClass::OpChar);
    let v = run_end(s, o, CharClass::Letter);
    if a == i {
        Err(fail(i, ErrorKind::Syntax(Expected::Letter)))
    } else if o == a {
        Err(fail(a, ErrorKind::Syntax(Expected::Operator)))
    } else if op_of(s.subrange(a, o)) is None {
        Err(fail(a, ErrorKind::InvalidAttributeSelectorOp))
    } else if v == o {
        Err(fail(o, ErrorKind::Syntax(Expected::Letter)))
    } else {
        Ok(((s.subrange(i, a), op_of(s.subrange(a, o))->Some_0, s.subrange(o, v)), v))
    }
}

/// `tag[name op value]` before backtracking.
pub open spec fn attribute_selector_body(s: Seq<char>, i: int) -> Result<(SelectorModel, int), ParseError> {
    let a = run_end(s, i, CharClass::Letter);
    if a == i {
        Err(fail(i, ErrorKind::Syntax(Expected::Letter)))
    } else if !is_at(s, a, '[') {
        Err(fail(a, ErrorKind::Syntax(Expected::Char('['))))
    } else {
        match attribute_spec(s, a + 1) {
            Err(e) => Err(e),
            Ok(((attr, op, value), e)) => if is_at(s, e, ']') {
                Ok(
                    (
                        SelectorModel::Attribute {
                            tag_name: s.subrange(i, a),
                            op,
                            attribute: attr,
                            value,
                        },
                        e + 1,
                    ),
                )
            } else {
                Err(fail(e, ErrorKind::Syntax(Expected::Char(']'))))
            },
        }
    }
}

/// `tag[name op value]`, under a backtracking marker: a syntactic failure
/// gives the input back.
pub open spec fn attribute_selector_spec(s: Seq<char>, i: int) -> Result<
    (SelectorModel, int),
    ParseError,
> {
    match attribute_selector_body(s, i) {
        Err(e) => Err(rewind(e, i)),
        Ok(r) => Ok(r),
    }
}

/// Universal, id, class, attribute and type selectors, tried in this order.
pub open spec fn simple_selector_spec(s: Seq<char>, i: int) -> Result<(SelectorModel, int), ParseError> {
    or_else(
        universal_selector_spec(s, i),
        i,
        or_else(
            id_selector_spec(s, i),
            i,
            or_else(
                class_selector_spec(s, i),
                i,
                or_else(attribute_selector_spec(s, i), i, type_selector_spec(s, i)),
            ),
        ),
    )
}

/// One or more simple selectors separated by `,` with optional whitespace
/// around it.
pub open spec fn selectors_spec(s: Seq<char>, i: int) -> Result<(Seq<SelectorModel>, int), ParseError>
    decreases s.len() - i,
{
    match simple_selector_spec(s, i) {
        Err(e) => Err(e),
        Ok((sel, j)) => {
            let k = ws_end(s, j);
            let m = ws_end(s, k + 1);
            if is_at(s, k, ',') {
                proof {
                    lemma_simple_selector_spec_advances(s, i);
                    lemma_run_end_bounds(s, j, CharClass::Space);
                    lemma_run_end_bounds(s, k + 1, CharClass::Space);
                }
                prepend(seq![sel], selectors_spec(s, m))
            } else {
                Ok((seq![sel], j))
            }
        },
    }
}

// ---------------------------------------------------------------------------
// The parsers. Each reads `src` from position `i` on.

pub fn declaration_at(src: &Source, i: usize) -> (r: Result<(Declaration, usize), ParseError>)
    requires
        src.wf(),
        i <= src@.len(),
    ensures
        model_of(r) == declaration_spec(src@, i as int),
        r matches Ok((_, j)) ==> i < j <= src@.len(),
{
    proof {
        lemma_declaration_spec_advances(src@, i as int);
    }
    let a = src.scan(i, CharClass::Letter);
    if a == i {
        return Err(ParseError { position: i, kind: ErrorKind::Syntax(Expected::Letter) });
    }
    let b = src.skip_ws(a);
    if !src.is_at(b, ':') {
        return Err(ParseError { position: b, kind: ErrorKind::Syntax(Expected::Char(':')) });
    }
    let c = src.skip_ws(b + 1);
    let d = src.scan(c, CharClass::Letter);
    if d == c {
        return Err(ParseError { position: c, kind: ErrorKind::Syntax(Expected::Letter) });
    }
    let decl = Declaration { name: src.slice(i, a), value: CSSValue::Keyword(src.slice(c, d)) };
    Ok((decl, d))
}

pub fn declarations_at(src: &Source, i: usize) -> (r: Result<(Vec<Declaration>, usize), ParseError>)
    requires
        src.wf(),
        i <= src@.len(),
    ensures
        list_model_of(r) == declarations_spec(src@, i as int),
        r matches Ok((_, j)) ==> i <= j <= src@.len(),
{
    let ghost s = src@;
    let mut out: Vec<Declaration> = Vec::new();
    let mut pos: usize = i;
    loop
        invariant
            src.wf(),
            s == src@,
            i <= pos <= s.len(),
            declarations_spec(s, i as int) == prepend(views(out@), declarations_spec(s, pos as int)),
        decreases s.len() - pos,
    {
        match declaration_at(src, pos) {
            Err(e) => {
                if e.kind.is_syntax() && e.position == pos {
                    proof {
                        assert(views(out@) + seq![] =~= views(out@));
                    }
                    return Ok((out, pos));
                }
                return Err(e);
            },
            Ok((d, j)) => {
                let k = src.skip_ws(j);
                let ghost dm = d@;
                let ghost old_out = out@;
                out.push(d);
                proof {
                    assert(views(out@) =~= views(old_out).push(dm));
                    lemma_prepend_push(views(old_out), dm, declarations_spec(s, ws_end(s, k + 1)));
                }
                if src.is_at(k, ';') {
                    pos = src.skip_ws(k + 1);
                } else {
                    proof {
                        assert(views(old_out) + seq![dm] =~= views(out@));
                    }
                    return Ok((out, k));
                }
            },
        }
    }
}

pub fn universal_selector_at(src: &Source, i: usize) -> (r: Result<(Selector, usize), ParseError>)
    requires
        src.wf(),
        i <= src@.len(),
    ensures
        model_of(r) == universal_selector_spec(src@, i as int),
        r matches Ok((_, j)) ==> i < j <= src@.len(),
{
    if src.is_at(i, '*') {
        Ok((SimpleSelector::UniversalSelector, i + 1))
    } else {
        Err(ParseError { position: i, kind: ErrorKind::Syntax(Expected::Char('*')) })
    }
}

pub fn id_selector_at(src: &Source, i: usize) -> (r: Result<(Selector, usize), ParseError>)
    requires
        src.wf(),
        i <= src@.len(),
    ensures
        model_of(r) == id_selector_spec(src@, i as int),
        r matches Ok((_, j)) ==> i < j <= src@.len(),
{
    if !src.is_at(i, '#') {
        return Err(ParseError { position: i, kind: ErrorKind::Syntax(Expected::Char('#')) });
    }
    let a = src.scan(i + 1, CharClass::Letter);
    if a == i + 1 {
        return Err(ParseError { position: i + 1, kind: ErrorKind::Syntax(Expected::Letter) });
    }
    Ok((SimpleSelector::IdSelector { id_name: src.slice(i + 1, a) }, a))
}

pub fn class_selector_at(src: &Source, i: usize) -> (r: Result<(Selector, usize), ParseError>)
    requires
        src.wf(),
        i <= src@.len(),
    ensures
        model_of(r) == class_selector_spec(src@, i as int),
        r matches Ok((_, j)) ==> i < j <= src@.len(),
{
    if !src.is_at(i, '.') {
        return Err(ParseError { position: i, kind: ErrorKind::Syntax(Expected::Char('.')) });
    }
    let a = src.scan(i + 1, CharClass::Letter);
    if a == i + 1 {
        return Err(ParseError { position: i + 1, kind: ErrorKind::Syntax(Expected::Letter) });
    }
    Ok((SimpleSelector::ClassSelector { class_name: src.slice(i + 1, a) }, a))
}

pub fn type_selector_at(src: &Source, i: usize) -> (r: Result<(Selector, usize), ParseError>)
    requires
        src.wf(),
        i <= src@.len(),
    ensures
        model_of(r) == type_selector_spec(src@, i as int),
        r matches Ok((_, j)) ==> i < j <= src@.len(),
{
    let a = src.scan(i, CharClass::Letter);
    if a == i {
        return Err(ParseError { position: i, kind: ErrorKind::Syntax(Expected::Letter) });
    }
    Ok((SimpleSelector::TypeSelector { tag_name: src.slice(i, a) }, a))
}

/// The operator that the characters from `a` up to `o` spell, if any.
fn op_between(src: &Source, a: usize, o: usize) -> (r: Option<AttributeSelectorOp>)
    requires
        src.wf(),
        a <= o <= src@.len(),
    ensures
        r == op_of(src@.subrange(a as int, o as int)),
{
    let ghost sym = src@.subrange(a as int, o as int);
    if o - a == 1 && src.chars[a] == '=' {
        assert(sym =~= seq!['=']);
        Some(AttributeSelectorOp::Eq)
    } else if o - a == 2 && src.chars[a] == '~' && src.chars[a + 1] == '=' {
        assert(sym =~= seq!['~', '=']);
        assert(sym != seq!['=']);
        Some(AttributeSelectorOp::Contain)
    } else {
        assert(sym != seq!['=']) by {
            if sym == seq!['='] {
                assert(sym.len() == 1);
                assert(sym[0] == '=');
            }
        }
        assert(sym != seq!['~', '=']) by {
            if sym == seq!['~', '='] {
                assert(sym.len() == 2);
                assert(sym[0] == '~' && sym[1] == '=');
            }
        }
        None
    }
}

pub fn attribute_at(src: &Source, i: usize) -> (r: Result<
    ((String, AttributeSelectorOp, String), usize),
    ParseError,
>)
    requires
        src.wf(),
        i <= src@.len(),
    ensures
        model_of(r) == attribute_spec(src@, i as int),
        r matches Ok((_, j)) ==> i < j <= src@.len(),
{
    let a = src.scan(i, CharClass::Letter);
    if a == i {
        return Err(ParseError { position: i, kind: ErrorKind::Syntax(Expected::Letter) });
    }
    let o = src.scan(a, CharClass::OpChar);
    if o == a {
        return Err(ParseError { position: a, kind: ErrorKind::Syntax(Expected::Operator) });
    }
    let op = match op_between(src, a, o) {
        Some(op) => op,
        None => {
            return Err(ParseError { position: a, kind: ErrorKind::InvalidAttributeSelectorOp });
        },
    };
    let v = src.scan(o, CharClass::Letter);
    if v == o {
        return Err(ParseError { position: o, kind: ErrorKind::Syntax(Expected::Letter) });
    }
    Ok(((src.slice(i, a), op, src.slice(o, v)), v))
}

pub fn attribute_selector_at(src: &Source, i: usize) -> (r: Result<(Selector, usize), ParseError>)
    requires
        src.wf(),
        i <= src@.len(),
    ensures
        model_of(r) == attribute_selector_spec(src@, i as int),
        r matches Ok((_, j)) ==> i < j <= src@.len(),
{
    let a = src.scan(i, CharClass::Letter);
    if a == i {
        return Err(ParseError { position: i, kind: ErrorKind::Syntax(Expected::Letter) });
    }
    if !src.is_at(a, '[') {
        return Err(ParseError { position: i, kind: ErrorKind::Syntax(Expected::Char('[')) });
    }
    match attribute_at(src, a + 1) {
        Err(e) => {
            if e.kind.is_syntax() {
                Err(ParseError { position: i, kind: e.kind })
            } else {
                Err(e)
            }
        },
        Ok(((attribute, op, value), e)) => {
            if src.is_at(e, ']') {
                let tag_name = src.slice(i, a);
                Ok((SimpleSelector::AttributeSelector { tag_name, op, attribute, value }, e + 1))
            } else {
                Err(ParseError { position: i, kind: ErrorKind::Syntax(Expected::Char(']')) })
            }
        },
    }
}

/// Whether a failure at `start` lets the next alternative be tried.
fn soft(e: &ParseError, start: usize) -> (r: bool)
    ensures
        r == is_soft(*e, start as int),
{
    e.kind.is_syntax() && e.position == start
}

pub fn simple_selector_at(src: &Source, i: usize) -> (r: Result<(Selector, usize), ParseError>)
    requires
        src.wf(),
        i <= src@.len(),
    ensures
        model_of(r) == simple_selector_spec(src@, i as int),
        r matches Ok((_, j)) ==> i < j <= src@.len(),
{
    proof {
        lemma_simple_selector_spec_advances(src@, i as int);
    }
    let r = universal_selector_at(src, i);
    if let Err(e) = &r {
        if soft(e, i) {
            let r = id_selector_at(src, i);
            if let Err(e) = &r {
                if soft(e, i) {
                    let r = class_selector_at(src, i);
                    if let Err(e) = &r {
                        if soft(e, i) {
                            let r = attribute_selector_at(src, i);
                            if let Err(e) = &r {
                                if soft(e, i) {
                                    return type_selector_at(src, i);
                                }
                            }
                            return r;
                        }
                    }
                    return r;
                }
            }
            return r;
        }
    }
    r
}

pub fn selectors_at(src: &Source, i: usize) -> (r: Result<(Vec<Selector>, usize), ParseError>)
    requires
        src.wf(),
        i <= src@.len(),
    ensures
        list_model_of(r) == selectors_spec(src@, i as int),
        r matches Ok((_, j)) ==> i <= j <= src@.len(),
{
    let ghost s = src@;
    let mut out: Vec<Selector> = Vec::new();
    let mut pos: usize = i;
    loop
        invariant
            src.wf(),
            s == src@,
            i <= pos <= s.len(),
            selectors_spec(s, i as int) == prepend(views(out@), selectors_spec(s, pos as int)),
        decreases s.len() - pos,
    {
        match simple_selector_at(src, pos) {
            Err(e) => {
                return Err(e);
            },
            Ok((sel, j)) => {
                let k = src.skip_ws(j);
                let ghost sm = sel@;
                let ghost old_out = out@;
                out.push(sel);
                proof {
                    assert(views(out@) =~= views(old_out).push(sm));
                    lemma_prepend_push(views(old_out), sm, selectors_spec(s, ws_end(s, k + 1)));
                }
                if src.is_at(k, ',') {
                    pos = src.skip_ws(k + 1);
                } else {
                    proof {
                        assert(views(old_out) + seq![sm] =~= views(out@));
                    }
                    return Ok((out, j));
                }
            },
        }
    }
}

pub fn rule_at(src: &Source, i: usize) -> (r: Result<(Rule, usize), ParseError>)
    requires
        src.wf(),
        i <= src@.len(),
    ensures
        model_of(r) == rule_spec(src@, i as int),
        r matches Ok((_, j)) ==> i < j <= src@.len(),
{
    proof {
        lemma_rule_spec_advances(src@, i as int);
    }
    let (selectors, j) = match selectors_at(src, i) {
        Ok(v) => v,
        Err(e) => {
            return Err(e);
        },
    };
    let b = src.skip_ws(j);
    if !src.is_at(b, '{') {
        return Err(ParseError { position: b, kind: ErrorKind::Syntax(Expected::Char('{')) });
    }
    let c = src.skip_ws(b + 1);
    let (declarations, d) = match declarations_at(src, c) {
        Ok(v) => v,
        Err(e) => {
            return Err(e);
        },
    };
    if !src.is_at(d, '}') {
        return Err(ParseError { position: d, kind: ErrorKind::Syntax(Expected::Char('}')) });
    }
    Ok((Rule { selectors, declarations }, d + 1))
}

pub fn stylesheet_at(src: &Source, i: usize) -> (r: Result<(Stylesheet, usize), ParseError>)
    requires
        src.wf(),
        i <= src@.len(),
    ensures
        model_of(r) == stylesheet_spec(src@, i as int),
        r matches Ok((_, j)) ==> i <= j <= src@.len(),
{
    let ghost s = src@;
    let mut rules: Vec<Rule> = Vec::new();
    let mut pos: usize = src.skip_ws(i);
    loop
        invariant
            src.wf(),
            s == src@,
            i <= pos <= s.len(),
            stylesheet_spec(s, i as int) == prepend(views(rules@), rules_spec(s, pos as int)),
        decreases s.len() - pos,
    {
        match rule_at(src, pos) {
            Err(e) => {
                if e.kind.is_syntax() && e.position == pos {
                    proof {
                        assert(views(rules@) + seq![] =~= views(rules@));
                    }
                    return Ok((Stylesheet { rules }, pos));
                }
                return Err(e);
            },
            Ok((rule, j)) => {
                let ghost rm = rule@;
                let ghost before = rules@;
                rules.push(rule);
                proof {
                    assert(views(rules@) =~= views(before).push(rm));
                    lemma_prepend_push(views(before), rm, rules_spec(s, ws_end(s, j as int)));
                }
                pos = src.skip_ws(j);
            },
        }
    }
}

// ---------------------------------------------------------------------------
// Entry points: each parses a prefix of `input` and hands back the rest.

/// A run, possibly empty, of spaces and newlines.
pub fn whitespaces(input: &str) -> (r: (String, &str))
    ensures
        r.0@ == input@.subrange(0, ws_end(input@, 0)),
        r.1@ == input@.subrange(ws_end(input@, 0), input@.len() as int),
{
    let src = Source::new(input);
    let j = src.skip_ws(0);
    (src.slice(0, j), src.rest(j))
}

/// A rule: `selectors { declarations }`.
pub fn rule(input: &str) -> (r: Result<(Rule, &str), ParseError>)
    ensures
        outcome(r, input@, rule_spec(input@, 0)),
{
    let src = Source::new(input);
    match rule_at(&src, 0) {
        Ok((v, j)) => Ok((v, src.rest(j))),
        Err(e) => Err(e),
    }
}

/// A style sheet: rules, with optional whitespace around them.
pub fn stylesheet(input: &str) -> (r: Result<(Stylesheet, &str), ParseError>)
    ensures
        outcome(r, input@, stylesheet_spec(input@, 0)),
{
    let src = Source::new(input);
    match stylesheet_at(&src, 0) {
        Ok((v, j)) => Ok((v, src.rest(j))),
        Err(e) => Err(e),
    }
}

/// A declaration: `name: value`.
pub fn declaration(input: &str) -> (r: Result<(Declaration, &str), ParseError>)
    ensures
        outcome(r, input@, declaration_spec(input@, 0)),
{
    let src = Source::new(input);
    match declaration_at(&src, 0) {
        Ok((v, j)) => Ok((v, src.rest(j))),
        Err(e) => Err(e),
    }
}

/// A simple selector: universal, id, class, attribute or type, tried in this order.
pub fn simple_selector(input: &str) -> (r: Result<(Selector, &str), ParseError>)
    ensures
        outcome(r, input@, simple_selector_spec(input@, 0)),
{
    let src = Source::new(input);
    match simple_selector_at(&src, 0) {
        Ok((v, j)) => Ok((v, src.rest(j))),
        Err(e) => Err(e),
    }
}

/// The universal selector `*`.
pub fn universal_selector(input: &str) -> (r: Result<(Selector, &str), ParseError>)
    ensures
        outcome(r, input@, universal_selector_spec(input@, 0)),
{
    let src = Source::new(input);
    match universal_selector_at(&src, 0) {
        Ok((v, j)) => Ok((v, src.rest(j))),
        Err(e) => Err(e),
    }
}

/// An id selector: `#name`.
pub fn id_selector(input: &str) -> (r: Result<(Selector, &str), ParseError>)
    ensures
        outcome(r, input@, id_selector_spec(input@, 0)),
{
    let src = Source::new(input);
    match id_selector_at(&src, 0) {
        Ok((v, j)) => Ok((v, src.rest(j))),
        Err(e) => Err(e),
    }
}

/// A class selector: `.name`.
pub fn class_selector(input: &str) -> (r: Result<(Selector, &str), ParseError>)
    ensures
        outcome(r, input@, class_selector_spec(input@, 0)),
{
    let src = Source::new(input);
    match class_selector_at(&src, 0) {
        Ok((v, j)) => Ok((v, src.rest(j))),
        Err(e) => Err(e),
    }
}

/// A type selector: a tag name.
pub fn type_selector(input: &str) -> (r: Result<(Selector, &str), ParseError>)
    ensures
        outcome(r, input@, type_selector_spec(input@, 0)),
{
    let src = Source::new(input);
    match type_selector_at(&src, 0) {
        Ok((v, j)) => Ok((v, src.rest(j))),
        Err(e) => Err(e),
    }
}

/// An attribute selector: `tag[name=value]` or `tag[name~=value]`.
pub fn attribute_selector(input: &str) -> (r: Result<(Selector, &str), ParseError>)
    ensures
        outcome(r, input@, attribute_selector_spec(input@, 0)),
{
    let src = Source::new(input);
    match attribute_selector_at(&src, 0) {
        Ok((v, j)) => Ok((v, src.rest(j))),
        Err(e) => Err(e),
    }
}

/// The bracketed part of an attribute selector: name, operator, value.
pub fn attribute(input: &str) -> (r: Result<((String, AttributeSelectorOp, String), &str), ParseError>)
    ensures
        outcome(r, input@, attribute_spec(input@, 0)),
{
    let src = Source::new(input);
    match attribute_at(&src, 0) {
        Ok((v, j)) => Ok((v, src.rest(j))),
        Err(e) => Err(e),
    }
}

/// Declarations separated, and optionally ended, by `;`.
pub fn declarations(input: &str) -> (r: Result<(Vec<Declaration>, &str), ParseError>)
    ensures
        list_outcome(r, input@, declarations_spec(input@, 0)),
{
    let src = Source::new(input);
    match declarations_at(&src, 0) {
        Ok((v, j)) => Ok((v, src.rest(j))),
        Err(e) => Err(e),
    }
}

/// A comma-separated list of simple selectors.
pub fn selectors(input: &str) -> (r: Result<(Vec<Selector>, &str), ParseError>)
    ensures
        list_outcome(r, input@, selectors_spec(input@, 0)),
{
    let src = Source::new(input);
    match selectors_at(&src, 0) {
        Ok((v, j)) => Ok((v, src.rest(j))),
        Err(e) => Err(e),
    }
}

// ---------------------------------------------------------------------------
// Laws.

/// A declaration as written: its name and keyword with the whitespace runs
/// around `:`, after the keyword and after the `;` that may follow it.
pub struct DeclarationLayout {
    pub name: Seq<char>,
    pub before_colon: Seq<char>,
    pub after_colon: Seq<char>,
    pub value: Seq<char>,
    pub after_value: Seq<char>,
    pub after_semicolon: Seq<char>,
}

/// A run, possibly empty, of spaces and newlines.
pub open spec fn is_ws_run(w: Seq<char>) -> bool {
    forall|k: int| 0 <= k < w.len() ==> CharClass::Space.contains(#[trigger] w[k])
}

/// Name and keyword are words; the runs around them are whitespace.
pub open spec fn is_plain_layout(d: DeclarationLayout) -> bool {
    &&& is_word(d.name)
    &&& is_word(d.value)
    &&& is_ws_run(d.before_colon)
    &&& is_ws_run(d.after_colon)
    &&& is_ws_run(d.after_value)
    &&& is_ws_run(d.after_semicolon)
}

pub open spec fn layout_model(d: DeclarationLayout) -> DeclarationModel {
    DeclarationModel { name: d.name, value: CssValueModel::Keyword(d.value) }
}

/// `name : value` with its runs, up to where `;` may stand.
pub open spec fn layout_text(d: DeclarationLayout) -> Seq<char> {
    d.name + d.before_colon + seq![':'] + d.after_colon + d.value + d.after_value
}

/// `;` and the run after it.
pub open spec fn separator_text(d: DeclarationLayout) -> Seq<char> {
    seq![';'] + d.after_semicolon
}

/// The declarations one after another, each but the last followed by its
/// separator; the last too where `ended` holds.
pub open spec fn layouts_text(ds: Seq<DeclarationLayout>, ended: bool) -> Seq<char>
    decreases ds.len(),
{
    if ds.len() == 0 {
        seq![]
    } else if ds.len() == 1 {
        if ended {
            layout_text(ds[0]) + separator_text(ds[0])
        } else {
            layout_text(ds[0])
        }
    } else {
        layout_text(ds[0]) + separator_text(ds[0]) + layouts_text(ds.drop_first(), ended)
    }
}

/// A text that cannot go on with the list: it is empty or starts with
/// neither a letter nor whitespace, nor with `;` after a declaration that has
/// none.
pub open spec fn ends_list(c: Option<char>, ended: bool) -> bool {
    match c {
        None => true,
        Some(x) => !is_ascii_letter(x) && !CharClass::Space.contains(x) && (ended || x != ';'),
    }
}

pub open spec fn first_char(s: Seq<char>, i: int) -> Option<char> {
    if 0 <= i < s.len() {
        Some(s[i])
    } else {
        None
    }
}

proof fn lemma_ws_run_at(s: Seq<char>, i: int, w: Seq<char>)
    requires
        0 <= i,
        i + w.len() <= s.len(),
        is_ws_run(w),
        forall|k: int| 0 <= k < w.len() ==> s[i + k] == #[trigger] w[k],
        i + w.len() == s.len() || !CharClass::Space.contains(s[i + w.len()]),
    ensures
        ws_end(s, i) == i + w.len(),
{
    assert forall|x: int| i <= x < i + w.len() implies CharClass::Space.contains(#[trigger] s[x]) by {
        assert(s[i + (x - i)] == w[x - i]);
    }
    lemma_run_end_at(s, i, i + w.len(), CharClass::Space);
}

#[verifier::rlimit(50)]
proof fn lemma_declarations_from(s: Seq<char>, i: int, ds: Seq<DeclarationLayout>, ended: bool)
    requires
        0 <= i,
        i + layouts_text(ds, ended).len() <= s.len() <= usize::MAX,
        ds.len() > 0,
        forall|k: int| 0 <= k < ds.len() ==> is_plain_layout(#[trigger] ds[k]),
        s.subrange(i, i + layouts_text(ds, ended).len()) == layouts_text(ds, ended),
        ends_list(first_char(s, i + layouts_text(ds, ended).len()), ended),
    ensures
        declarations_spec(s, i) == Ok::<(Seq<DeclarationModel>, int), ParseError>(
            (ds.map_values(|d: DeclarationLayout| layout_model(d)), i + layouts_text(
                ds,
                ended,
            ).len()),
        ),
    decreases ds.len(),
{
    let t = layouts_text(ds, ended);
    let d = ds[0];
    assert(is_plain_layout(ds[0]));
    let l = layout_text(d);
    let rest = ds.drop_first();
    let more = ds.len() > 1;
    let tail = if more {
        separator_text(d) + layouts_text(rest, ended)
    } else if ended {
        separator_text(d)
    } else {
        Seq::<char>::empty()
    };
    assert(t =~= l + tail);
    lemma_subrange_chars(s, i, t);
    let end = i + t.len();
    let n = d.name.len() as int;
    let w1 = d.before_colon.len() as int;
    let w2 = d.after_colon.len() as int;
    let vl = d.value.len() as int;
    let w3 = d.after_value.len() as int;
    let a = i + n;
    let b = a + w1;
    let c = b + 1 + w2;
    let e = c + vl;
    let k = e + w3;
    assert(l.len() == n + w1 + 1 + w2 + vl + w3);
    assert forall|x: int| 0 <= x < l.len() implies s[i + x] == #[trigger] l[x] by {
        assert(s[i + x] == t[x]);
    }
    // the name
    assert forall|x: int| i <= x < a implies CharClass::Letter.contains(#[trigger] s[x]) by {
        assert(s[i + (x - i)] == l[x - i]);
        assert(l[x - i] == d.name[x - i]);
    }
    assert(s[a] == l[n]);
    if w1 > 0 {
        assert(l[n] == d.before_colon[0]);
        assert(CharClass::Space.contains(d.before_colon[0]));
    }
    lemma_run_end_at(s, i, a, CharClass::Letter);
    // the run before `:`
    assert forall|x: int| 0 <= x < w1 implies s[a + x] == #[trigger] d.before_colon[x] by {
        assert(s[i + (n + x)] == l[n + x]);
    }
    assert(s[b] == l[n + w1]);
    lemma_ws_run_at(s, a, d.before_colon);
    // the run after `:`
    assert forall|x: int| 0 <= x < w2 implies s[b + 1 + x] == #[trigger] d.after_colon[x] by {
        assert(s[i + (n + w1 + 1 + x)] == l[n + w1 + 1 + x]);
    }
    assert(s[c] == l[n + w1 + 1 + w2]);
    assert(l[n + w1 + 1 + w2] == d.value[0]);
    lemma_ws_run_at(s, b + 1, d.after_colon);
    // the keyword
    assert forall|x: int| c <= x < e implies CharClass::Letter.contains(#[trigger] s[x]) by {
        assert(s[i + (x - i)] == l[x - i]);
        assert(l[x - i] == d.value[x - c]);
    }
    // what follows the declaration
    if tail.len() > 0 {
        assert(s[k] == t[l.len() as int]);
        assert(t[l.len() as int] == tail[0]);
        assert(tail[0] == ';');
    } else {
        assert(k == end);
    }
    if w3 > 0 {
        assert(s[e] == l[n + w1 + 1 + w2 + vl]);
        assert(l[n + w1 + 1 + w2 + vl] == d.after_value[0]);
        assert(CharClass::Space.contains(d.after_value[0]));
    }
    lemma_run_end_at(s, c, e, CharClass::Letter);
    assert forall|x: int| 0 <= x < w3 implies s[e + x] == #[trigger] d.after_value[x] by {
        assert(s[i + (n + w1 + 1 + w2 + vl + x)] == l[n + w1 + 1 + w2 + vl + x]);
    }
    lemma_ws_run_at(s, e, d.after_value);
    assert(s.subrange(i, a) =~= d.name) by {
        assert forall|x: int| 0 <= x < n implies s.subrange(i, a)[x] == d.name[x] by {
            assert(s[i + x] == l[x]);
        }
    }
    assert(s.subrange(c, e) =~= d.value) by {
        assert forall|x: int| 0 <= x < vl implies s.subrange(c, e)[x] == d.value[x] by {
            assert(s[i + (n + w1 + 1 + w2 + x)] == l[n + w1 + 1 + w2 + x]);
        }
    }
    assert(declaration_spec(s, i) == Ok::<(DeclarationModel, int), ParseError>(
        (layout_model(d), e),
    ));
    let models = ds.map_values(|d: DeclarationLayout| layout_model(d));
    if tail.len() == 0 {
        assert(models =~= seq![layout_model(d)]);
    } else {
        let w4 = d.after_semicolon.len() as int;
        let m = k + 1 + w4;
        let sep = separator_text(d);
        assert forall|x: int| 0 <= x < w4 implies s[k + 1 + x] == #[trigger] d.after_semicolon[x] by {
            assert(s[i + (l.len() + 1 + x)] == t[l.len() + 1 + x]);
            assert(t[l.len() + 1 + x] == tail[1 + x]);
            assert(tail[1 + x] == sep[1 + x]);
        }
        if more {
            let rt = layouts_text(rest, ended);
            assert(tail =~= sep + rt);
            assert(m + rt.len() == end);
            assert forall|x: int| 0 <= x < rt.len() implies s[m + x] == #[trigger] rt[x] by {
                assert(s[i + (l.len() + sep.len() + x)] == t[l.len() + sep.len() + x]);
            }
            assert(is_plain_layout(rest[0]));
            assert(rt =~= layout_text(rest[0]) + (if rest.len() > 1 || ended {
                separator_text(rest[0]) + (if rest.len() > 1 {
                    layouts_text(rest.drop_first(), ended)
                } else {
                    Seq::<char>::empty()
                })
            } else {
                Seq::<char>::empty()
            }));
            assert(s[m] == rt[0]);
            assert(rt[0] == rest[0].name[0]);
            lemma_ws_run_at(s, k + 1, d.after_semicolon);
            assert(s.subrange(m, m + rt.len()) =~= rt) by {
                assert forall|x: int| 0 <= x < rt.len() implies s.subrange(m, m + rt.len())[x]
                    == rt[x] by {
                    assert(s[m + x] == rt[x]);
                }
            }
            assert forall|x: int| 0 <= x < rest.len() implies is_plain_layout(#[trigger] rest[x]) by {
                assert(rest[x] == ds[x + 1]);
            }
            lemma_declarations_from(s, m, rest, ended);
            assert(models =~= seq![layout_model(d)] + rest.map_values(
                |d: DeclarationLayout| layout_model(d),
            ));
        } else {
            assert(m == end);
            lemma_ws_run_at(s, k + 1, d.after_semicolon);
            lemma_run_end_at(s, m, m, CharClass::Letter);
            assert(models =~= seq![layout_model(d)]);
            assert(seq![layout_model(d)] + Seq::<DeclarationModel>::empty() =~= models);
        }
    }
}

/// Declarations written one after another, each `name : value` with any
/// runs of spaces and newlines around `:` and after it, separated by `;` and
/// a run, the last one with or without its own `;` and run, parse to exactly
/// those declarations in order. What follows is left, so the rest is empty
/// when the text ends with the last separator (where all fits in memory).
pub proof fn lemma_declarations_round_trip(
    ds: Seq<DeclarationLayout>,
    ended: bool,
    rest: Seq<char>,
)
    requires
        forall|k: int| 0 <= k < ds.len() ==> is_plain_layout(#[trigger] ds[k]),
        ends_list(first_char(rest, 0), ended),
        layouts_text(ds, ended).len() + rest.len() <= usize::MAX,
    ensures
        declarations_spec(layouts_text(ds, ended) + rest, 0) == Ok::<
            (Seq<DeclarationModel>, int),
            ParseError,
        >(
            (ds.map_values(|d: DeclarationLayout| layout_model(d)), layouts_text(
                ds,
                ended,
            ).len() as int),
        ),
{
    let t = layouts_text(ds, ended);
    let s = t + rest;
    if ds.len() == 0 {
        assert(ds.map_values(|d: DeclarationLayout| layout_model(d)) =~= seq![]);
        assert(s =~= rest);
        lemma_run_end_at(s, 0, 0, CharClass::Letter);
    } else {
        assert(s.subrange(0, t.len() as int) =~= t);
        assert(first_char(s, t.len() as int) == first_char(rest, 0));
        lemma_declarations_from(s, 0, ds, ended);
    }
}

/// `selectors { declarations }`, with optional whitespace before and
/// inside the braces.
pub open spec fn rule_spec(s: Seq<char>, i: int) -> Result<(RuleModel, int), ParseError> {
    match selectors_spec(s, i) {
        Err(e) => Err(e),
        Ok((sels, j)) => {
            let b = ws_end(s, j);
            let c = ws_end(s, b + 1);
            if !is_at(s, b, '{') {
                Err(fail(b, ErrorKind::Syntax(Expected::Char('{'))))
            } else {
                match declarations_spec(s, c) {
                    Err(e) => Err(e),
                    Ok((ds, d)) => if is_at(s, d, '}') {
                        Ok((RuleModel { selectors: sels, declarations: ds }, d + 1))
                    } else {
                        Err(fail(d, ErrorKind::Syntax(Expected::Char('}'))))
                    },
                }
            }
        },
    }
}

/// Rules, each followed by optional whitespace.
pub open spec fn rules_spec(s: Seq<char>, i: int) -> Result<(Seq<RuleModel>, int), ParseError>
    decreases s.len() - i,
{
    match rule_spec(s, i) {
        Err(e) => if is_soft(e, i) {
            Ok((seq![], i))
        } else {
            Err(e)
        },
        Ok((r, j)) => {
            proof {
                lemma_rule_spec_advances(s, i);
                lemma_run_end_bounds(s, j, CharClass::Space);
            }
            prepend(seq![r], rules_spec(s, ws_end(s, j)))
        },
    }
}

/// Optional whitespace, then rules.
pub open spec fn stylesheet_spec(s: Seq<char>, i: int) -> Result<(Seq<RuleModel>, int), ParseError> {
    rules_spec(s, ws_end(s, i))
}

pub proof fn lemma_selectors_spec_advances(s: Seq<char>, i: int)
    requires
        0 <= i <= s.len(),
    ensures
        selectors_spec(s, i) matches Ok((_, j)) ==> i < j <= s.len(),
    decreases s.len() - i,
{
    lemma_simple_selector_spec_advances(s, i);
    if let Ok((_, j)) = simple_selector_spec(s, i) {
        lemma_run_end_bounds(s, j, CharClass::Space);
        let k = ws_end(s, j);
        if is_at(s, k, ',') {
            lemma_run_end_bounds(s, k + 1, CharClass::Space);
            lemma_selectors_spec_advances(s, ws_end(s, k + 1));
        }
    }
}

pub proof fn lemma_declarations_spec_advances(s: Seq<char>, i: int)
    requires
        0 <= i <= s.len(),
    ensures
        declarations_spec(s, i) matches Ok((_, j)) ==> i <= j <= s.len(),
    decreases s.len() - i,
{
    lemma_declaration_spec_advances(s, i);
    if let Ok((_, j)) = declaration_spec(s, i) {
        lemma_run_end_bounds(s, j, CharClass::Space);
        let k = ws_end(s, j);
        if is_at(s, k, ';') {
            lemma_run_end_bounds(s, k + 1, CharClass::Space);
            lemma_declarations_spec_advances(s, ws_end(s, k + 1));
        }
    }
}

pub proof fn lemma_rule_spec_advances(s: Seq<char>, i: int)
    ensures
        rule_spec(s, i) matches Ok((_, j)) ==> i < j && (0 <= i ==> j <= s.len()),
{
    if 0 <= i <= s.len() {
        lemma_selectors_spec_advances(s, i);
        if let Ok((_, j)) = selectors_spec(s, i) {
            lemma_run_end_bounds(s, j, CharClass::Space);
            let b = ws_end(s, j);
            if is_at(s, b, '{') {
                lemma_run_end_bounds(s, b + 1, CharClass::Space);
                lemma_declarations_spec_advances(s, ws_end(s, b + 1));
            }
        }
    } else {
        lemma_simple_selector_spec_advances(s, i);
    }
}

/// Where a run of letters is not followed by a bracketed attribute part that
/// reads, the attribute selector gives back all it read and the type selector
/// takes the run: the whole letter run is the tag name and the rest is left.
pub proof fn lemma_type_selector_after_attribute_attempt(t: Seq<char>, rest: Seq<char>)
    requires
        is_word(t),
        rest.len() == 0 || !is_ascii_letter(rest[0]),
        t.len() + rest.len() <= usize::MAX,
        attribute_selector_body(t + rest, 0) matches Err(e) ==> e.kind is Syntax,
    ensures
        attribute_selector_spec(t + rest, 0) is Err ==> attribute_selector_spec(t + rest, 0)
            == Err::<(SelectorModel, int), ParseError>(
            fail(0, attribute_selector_body(t + rest, 0)->Err_0.kind),
        ),
        rest.len() == 0 || rest[0] != '[' ==> attribute_selector_spec(t + rest, 0) is Err,
        attribute_selector_spec(t + rest, 0) is Err ==> simple_selector_spec(t + rest, 0) == Ok::<
            (SelectorModel, int),
            ParseError,
        >((SelectorModel::Type { tag_name: t }, t.len() as int)),
{
    let s = t + rest;
    let n = t.len() as int;
    assert forall|k: int| 0 <= k < n implies CharClass::Letter.contains(#[trigger] s[k]) by {
        assert(s[k] == t[k]);
    }
    if rest.len() > 0 {
        assert(s[n] == rest[0]);
    }
    lemma_run_end_at(s, 0, n, CharClass::Letter);
    lemma_run_end_at(s, 1, n, CharClass::Letter);
    assert(s[0] == t[0]);
    assert(s.subrange(0, n) =~= t);
}

pub proof fn lemma_declaration_spec_advances(s: Seq<char>, i: int)
    ensures
        declaration_spec(s, i) matches Ok((_, j)) ==> i < j && (0 <= i ==> j <= s.len()),
{
    let a = run_end(s, i, CharClass::Letter);
    if 0 <= i <= s.len() {
        lemma_run_end_bounds(s, i, CharClass::Letter);
        lemma_run_end_bounds(s, a, CharClass::Space);
        let b = ws_end(s, a);
        if is_at(s, b, ':') {
            lemma_run_end_bounds(s, b + 1, CharClass::Space);
            lemma_run_end_bounds(s, ws_end(s, b + 1), CharClass::Letter);
        }
    }
}

pub proof fn lemma_simple_selector_spec_advances(s: Seq<char>, i: int)
    ensures
        simple_selector_spec(s, i) matches Ok((_, j)) ==> i < j && (0 <= i ==> j <= s.len()),
{
    if 0 <= i <= s.len() {
        lemma_run_end_bounds(s, i, CharClass::Letter);
        if i + 1 <= s.len() {
            lemma_run_end_bounds(s, i + 1, CharClass::Letter);
        }
        let a = run_end(s, i, CharClass::Letter);
        if is_at(s, a, '[') {
            lemma_run_end_bounds(s, a + 1, CharClass::Letter);
            let b = run_end(s, a + 1, CharClass::Letter);
            lemma_run_end_bounds(s, b, CharClass::OpChar);
            lemma_run_end_bounds(s, run_end(s, b, CharClass::OpChar), CharClass::Letter);
        }
    }
}

} // verus!
