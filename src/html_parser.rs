//! Markup: attributes, tags, text and elements.
use crate::dom::{
    lemma_pairs_map_absent, lemma_pairs_map_lookup, lemma_pairs_map_update, pairs_map,
    unique_names, AttrMap, Element, Node, NodeModel, Text,
};
use crate::source::{
    fail, is_at, is_soft, lemma_prepend_push, lemma_run_end_bounds, list_model_of, list_outcome,
    is_ascii_letter, is_word, lemma_run_end_at, lemma_subrange_chars, model_of, outcome, prepend,
    run_end, views, ws_end, CharClass, ErrorKind, Expected, ParseError, Source,
};
use vstd::prelude::*;

verus! {

// ---------------------------------------------------------------------------
// The grammar, as functions from a text and a position to a result.

/// `name = "value"`: a name of letters and `-`, optional whitespace around
/// `=`, and a non-empty value in double quotes without a `"` in it.
pub open spec fn attribute_spec(s: Seq<char>, i: int) -> Result<((Seq<char>, Seq<char>), int), ParseError> {
    let a = run_end(s, i, CharClass::NameChar);
    let b = ws_end(s, a);
    let c = ws_end(s, b + 1);
    let d = run_end(s, c + 1, CharClass::Except('"'));
    if a == i {
        Err(fail(i, ErrorKind::Syntax(Expected::NameChar)))
    } else if !is_at(s, b, '=') {
        Err(fail(b, ErrorKind::Syntax(Expected::Char('='))))
    } else if !is_at(s, c, '"') {
        Err(fail(c, ErrorKind::Syntax(Expected::Char('"'))))
    } else if d == c + 1 {
        Err(fail(c + 1, ErrorKind::Syntax(Expected::ValueChar)))
    } else if !is_at(s, d, '"') {
        Err(fail(d, ErrorKind::Syntax(Expected::Char('"'))))
    } else {
        Ok(((s.subrange(i, a), s.subrange(c + 1, d)), d + 1))
    }
}

/// Attributes, each followed by optional whitespace, as (name, value) pairs
/// in the order of the text. Whitespace after the last attribute is taken
/// too, so that `<p id="x" >` reads as an open tag.
pub open spec fn attribute_list_spec(s: Seq<char>, i: int) -> Result<
    (Seq<(Seq<char>, Seq<char>)>, int),
    ParseError,
>
    decreases s.len() - i,
{
    match attribute_spec(s, i) {
        Err(e) => if is_soft(e, i) {
            Ok((seq![], i))
        } else {
            Err(e)
        },
        Ok((p, j)) => {
            proof {
                lemma_attribute_spec_advances(s, i);
                lemma_run_end_bounds(s, j, CharClass::Space);
            }
            prepend(seq![p], attribute_list_spec(s, ws_end(s, j)))
        },
    }
}

/// Attributes folded into a map; a later value of a name replaces an earlier.
pub open spec fn attributes_spec(s: Seq<char>, i: int) -> Result<
    (Map<Seq<char>, Seq<char>>, int),
    ParseError,
> {
    match attribute_list_spec(s, i) {
        Ok((p, j)) => Ok((pairs_map(p), j)),
        Err(e) => Err(e),
    }
}

/// `<tag attributes>`: a tag name of letters, optional whitespace,
/// attributes and `>`.
pub open spec fn open_tag_spec(s: Seq<char>, i: int) -> Result<
    ((Seq<char>, Map<Seq<char>, Seq<char>>), int),
    ParseError,
> {
    let a = run_end(s, i + 1, CharClass::Letter);
    let b = ws_end(s, a);
    if !is_at(s, i, '<') {
        Err(fail(i, ErrorKind::Syntax(Expected::Char('<'))))
    } else if a == i + 1 {
        Err(fail(i + 1, ErrorKind::Syntax(Expected::Letter)))
    } else {
        match attributes_spec(s, b) {
            Err(e) => Err(e),
            Ok((attrs, c)) => if is_at(s, c, '>') {
                Ok(((s.subrange(i + 1, a), attrs), c + 1))
            } else {
                Err(fail(c, ErrorKind::Syntax(Expected::Char('>'))))
            },
        }
    }
}

/// `</tag>`, giving the tag name.
pub open spec fn close_tag_spec(s: Seq<char>, i: int) -> Result<(Seq<char>, int), ParseError> {
    let a = run_end(s, i + 2, CharClass::Letter);
    if !is_at(s, i, '<') {
        Err(fail(i, ErrorKind::Syntax(Expected::Char('<'))))
    } else if !is_at(s, i + 1, '/') {
        Err(fail(i + 1, ErrorKind::Syntax(Expected::Char('/'))))
    } else if a == i + 2 {
        Err(fail(i + 2, ErrorKind::Syntax(Expected::Letter)))
    } else if !is_at(s, a, '>') {
        Err(fail(a, ErrorKind::Syntax(Expected::Char('>'))))
    } else {
        Ok((s.subrange(i + 2, a), a + 1))
    }
}

/// The longest non-empty run of characters other than `<`.
pub open spec fn text_spec(s: Seq<char>, i: int) -> Result<(NodeModel, int), ParseError> {
    let a = run_end(s, i, CharClass::Except('<'));
    if a == i {
        Err(fail(i, ErrorKind::Syntax(Expected::TextChar)))
    } else {
        Ok((NodeModel::Text { data: s.subrange(i, a) }, a))
    }
}

/// An open tag, the contents, and a close tag that names the same tag.
/// `depth` is how many levels of elements may still be opened: an element
/// past them fails as nested too deep.
pub open spec fn element_spec(s: Seq<char>, i: int, depth: nat) -> Result<(NodeModel, int), ParseError>
    decreases s.len() - i, 0int,
{
    match open_tag_spec(s, i) {
        Err(e) => Err(e),
        Ok(((tag, attrs), j)) => if depth == 0 {
            Err(fail(i, ErrorKind::NestingTooDeep))
        } else {
            proof {
                lemma_open_tag_spec_advances(s, i);
            }
            match contents_spec(s, j, (depth - 1) as nat) {
                Err(e) => Err(e),
                Ok((children, k)) => match close_tag_spec(s, k) {
                    Err(e) => Err(e),
                    Ok((close, e)) => if close == tag {
                        Ok((NodeModel::Element { tag_name: tag, attributes: attrs, children }, e))
                    } else {
                        Err(fail(k, ErrorKind::MismatchedTagName))
                    },
                },
            }
        },
    }
}

/// Elements and texts, as many as follow one another. Each element is tried
/// first and then text, both under a backtracking marker; a semantic failure
/// of an element ends the parse. (An element always ends after its start and
/// within the text, see `lemma_element_spec_advances`; the bound on `j`
/// states it so that the recursion is seen to end.)
pub open spec fn contents_spec(s: Seq<char>, i: int, depth: nat) -> Result<
    (Seq<NodeModel>, int),
    ParseError,
>
    decreases s.len() - i, 1int,
{
    match element_spec(s, i, depth) {
        Ok((n, j)) => if i < j <= s.len() {
            prepend(seq![n], contents_spec(s, j, depth))
        } else {
            Ok((seq![], i))
        },
        Err(e) => if !(e.kind is Syntax) {
            Err(e)
        } else {
            match text_spec(s, i) {
                Ok((t, j)) => {
                    proof {
                        if 0 <= i <= s.len() {
                            lemma_run_end_bounds(s, i, CharClass::Except('<'));
                        }
                    }
                    prepend(seq![t], contents_spec(s, j, depth))
                },
                Err(_) => Ok((seq![], i)),
            }
        },
    }
}

/// How deep `element` and `contents` let elements nest.
pub const MAX_NESTING: usize = 256;

// ---------------------------------------------------------------------------
// The parsers. Each reads `src` from position `i` on.

pub fn attribute_at(src: &Source, i: usize) -> (r: Result<((String, String), usize), ParseError>)
    requires
        src.wf(),
        i <= src@.len(),
    ensures
        model_of(r) == attribute_spec(src@, i as int),
        r matches Ok((_, j)) ==> i < j <= src@.len(),
{
    let a = src.scan(i, CharClass::NameChar);
    if a == i {
        return Err(ParseError { position: i, kind: ErrorKind::Syntax(Expected::NameChar) });
    }
    let b = src.skip_ws(a);
    if !src.is_at(b, '=') {
        return Err(ParseError { position: b, kind: ErrorKind::Syntax(Expected::Char('=')) });
    }
    let c = src.skip_ws(b + 1);
    if !src.is_at(c, '"') {
        return Err(ParseError { position: c, kind: ErrorKind::Syntax(Expected::Char('"')) });
    }
    let d = src.scan(c + 1, CharClass::Except('"'));
    if d == c + 1 {
        return Err(ParseError { position: c + 1, kind: ErrorKind::Syntax(Expected::ValueChar) });
    }
    if !src.is_at(d, '"') {
        return Err(ParseError { position: d, kind: ErrorKind::Syntax(Expected::Char('"')) });
    }
    Ok(((src.slice(i, a), src.slice(c + 1, d)), d + 1))
}

pub fn attributes_at(src: &Source, i: usize) -> (r: Result<(AttrMap, usize), ParseError>)
    requires
        src.wf(),
        i <= src@.len(),
    ensures
        model_of(r) == attributes_spec(src@, i as int),
        r matches Ok((_, j)) ==> i <= j <= src@.len(),
{
    let ghost s = src@;
    let ghost mut acc: Seq<(Seq<char>, Seq<char>)> = seq![];
    let mut map = AttrMap::new();
    let mut pos: usize = i;
    loop
        invariant
            src.wf(),
            s == src@,
            i <= pos <= s.len(),
            map@ == pairs_map(acc),
            attribute_list_spec(s, i as int) == prepend(acc, attribute_list_spec(s, pos as int)),
        decreases s.len() - pos,
    {
        match attribute_at(src, pos) {
            Err(e) => {
                if e.kind.is_syntax() && e.position == pos {
                    proof {
                        assert(acc + seq![] =~= acc);
                    }
                    return Ok((map, pos));
                }
                return Err(e);
            },
            Ok(((name, value), j)) => {
                let ghost item = (name@, value@);
                proof {
                    lemma_prepend_push(acc, item, attribute_list_spec(s, ws_end(s, j as int)));
                    assert(acc.push(item).drop_last() =~= acc);
                    acc = acc.push(item);
                }
                map.insert(name, value);
                pos = src.skip_ws(j);
            },
        }
    }
}

pub fn open_tag_at(src: &Source, i: usize) -> (r: Result<((String, AttrMap), usize), ParseError>)
    requires
        src.wf(),
        i <= src@.len(),
    ensures
        model_of(r) == open_tag_spec(src@, i as int),
        r matches Ok((_, j)) ==> i < j <= src@.len(),
{
    if !src.is_at(i, '<') {
        return Err(ParseError { position: i, kind: ErrorKind::Syntax(Expected::Char('<')) });
    }
    let a = src.scan(i + 1, CharClass::Letter);
    if a == i + 1 {
        return Err(ParseError { position: i + 1, kind: ErrorKind::Syntax(Expected::Letter) });
    }
    let b = src.skip_ws(a);
    match attributes_at(src, b) {
        Err(e) => Err(e),
        Ok((attrs, c)) => {
            if src.is_at(c, '>') {
                Ok(((src.slice(i + 1, a), attrs), c + 1))
            } else {
                Err(ParseError { position: c, kind: ErrorKind::Syntax(Expected::Char('>')) })
            }
        },
    }
}

pub fn close_tag_at(src: &Source, i: usize) -> (r: Result<(String, usize), ParseError>)
    requires
        src.wf(),
        i <= src@.len(),
    ensures
        model_of(r) == close_tag_spec(src@, i as int),
        r matches Ok((_, j)) ==> i < j <= src@.len(),
{
    if !src.is_at(i, '<') {
        return Err(ParseError { position: i, kind: ErrorKind::Syntax(Expected::Char('<')) });
    }
    if !src.is_at(i + 1, '/') {
        return Err(ParseError { position: i + 1, kind: ErrorKind::Syntax(Expected::Char('/')) });
    }
    let a = src.scan(i + 2, CharClass::Letter);
    if a == i + 2 {
        return Err(ParseError { position: i + 2, kind: ErrorKind::Syntax(Expected::Letter) });
    }
    if !src.is_at(a, '>') {
        return Err(ParseError { position: a, kind: ErrorKind::Syntax(Expected::Char('>')) });
    }
    Ok((src.slice(i + 2, a), a + 1))
}

pub fn text_at(src: &Source, i: usize) -> (r: Result<(Box<Node>, usize), ParseError>)
    requires
        src.wf(),
        i <= src@.len(),
    ensures
        model_of(r) == text_spec(src@, i as int),
        r matches Ok((_, j)) ==> i < j <= src@.len(),
{
    let a = src.scan(i, CharClass::Except('<'));
    if a == i {
        return Err(ParseError { position: i, kind: ErrorKind::Syntax(Expected::TextChar) });
    }
    Ok((Text::new(src.slice(i, a)), a))
}

pub fn element_at(src: &Source, i: usize, depth: usize) -> (r: Result<(Box<Node>, usize), ParseError>)
    requires
        src.wf(),
        i <= src@.len(),
    ensures
        model_of(r) == element_spec(src@, i as int, depth as nat),
        r matches Ok((_, j)) ==> i < j <= src@.len(),
    decreases src@.len() - i, 0int,
{
    let ((tag, attrs), j) = match open_tag_at(src, i) {
        Ok(v) => v,
        Err(e) => {
            return Err(e);
        },
    };
    if depth == 0 {
        return Err(ParseError { position: i, kind: ErrorKind::NestingTooDeep });
    }
    let (children, k) = match contents_at(src, j, depth - 1) {
        Ok(v) => v,
        Err(e) => {
            return Err(e);
        },
    };
    match close_tag_at(src, k) {
        Err(e) => Err(e),
        Ok((close, e)) => {
            if close == tag {
                Ok((Element::new(tag, attrs, children), e))
            } else {
                Err(ParseError { position: k, kind: ErrorKind::MismatchedTagName })
            }
        },
    }
}

pub fn contents_at(src: &Source, i: usize, depth: usize) -> (r: Result<
    (Vec<Box<Node>>, usize),
    ParseError,
>)
    requires
        src.wf(),
        i <= src@.len(),
    ensures
        list_model_of(r) == contents_spec(src@, i as int, depth as nat),
        r matches Ok((_, j)) ==> i <= j <= src@.len(),
    decreases src@.len() - i, 1int,
{
    let ghost s = src@;
    let mut out: Vec<Box<Node>> = Vec::new();
    let mut pos: usize = i;
    loop
        invariant
            src.wf(),
            s == src@,
            i <= pos <= s.len(),
            contents_spec(s, i as int, depth as nat) == prepend(
                views(out@),
                contents_spec(s, pos as int, depth as nat),
            ),
        decreases s.len() - pos,
    {
        let (node, j) = match element_at(src, pos, depth) {
            Ok(v) => v,
            Err(e) => {
                if !e.kind.is_syntax() {
                    return Err(e);
                }
                match text_at(src, pos) {
                    Ok(v) => v,
                    Err(_) => {
                        proof {
                            assert(views(out@) + seq![] =~= views(out@));
                        }
                        return Ok((out, pos));
                    },
                }
            },
        };
        let ghost nm = node@;
        let ghost old_out = out@;
        out.push(node);
        proof {
            assert(views(out@) =~= views(old_out).push(nm));
            lemma_prepend_push(views(old_out), nm, contents_spec(s, j as int, depth as nat));
        }
        pos = j;
    }
}

// ---------------------------------------------------------------------------
// Entry points: each parses a prefix of `input` and hands back the rest.

/// An attribute: `name="value"`.
pub fn attribute(input: &str) -> (r: Result<((String, String), &str), ParseError>)
    ensures
        outcome(r, input@, attribute_spec(input@, 0)),
{
    let src = Source::new(input);
    match attribute_at(&src, 0) {
        Ok((v, j)) => Ok((v, src.rest(j))),
        Err(e) => Err(e),
    }
}

/// Attributes separated by whitespace, as a map.
pub fn attributes(input: &str) -> (r: Result<(AttrMap, &str), ParseError>)
    ensures
        outcome(r, input@, attributes_spec(input@, 0)),
{
    let src = Source::new(input);
    match attributes_at(&src, 0) {
        Ok((v, j)) => Ok((v, src.rest(j))),
        Err(e) => Err(e),
    }
}

/// An open tag: `<tag name="value">`, as the tag name and its attributes.
pub fn open_tag(input: &str) -> (r: Result<((String, AttrMap), &str), ParseError>)
    ensures
        outcome(r, input@, open_tag_spec(input@, 0)),
{
    let src = Source::new(input);
    match open_tag_at(&src, 0) {
        Ok((v, j)) => Ok((v, src.rest(j))),
        Err(e) => Err(e),
    }
}

/// A close tag: `</tag>`, as the tag name.
pub fn close_tag(input: &str) -> (r: Result<(String, &str), ParseError>)
    ensures
        outcome(r, input@, close_tag_spec(input@, 0)),
{
    let src = Source::new(input);
    match close_tag_at(&src, 0) {
        Ok((v, j)) => Ok((v, src.rest(j))),
        Err(e) => Err(e),
    }
}

/// A text node: everything up to the next `<`.
pub fn text(input: &str) -> (r: Result<(Box<Node>, &str), ParseError>)
    ensures
        outcome(r, input@, text_spec(input@, 0)),
{
    let src = Source::new(input);
    match text_at(&src, 0) {
        Ok((v, j)) => Ok((v, src.rest(j))),
        Err(e) => Err(e),
    }
}

/// An element with its contents, whose close tag names its open tag, with
/// at most `MAX_NESTING` levels of elements.
pub fn element(input: &str) -> (r: Result<(Box<Node>, &str), ParseError>)
    ensures
        outcome(r, input@, element_spec(input@, 0, MAX_NESTING as nat)),
{
    let src = Source::new(input);
    match element_at(&src, 0, MAX_NESTING) {
        Ok((v, j)) => Ok((v, src.rest(j))),
        Err(e) => Err(e),
    }
}

/// The elements and texts at the start of `input`, with at most
/// `MAX_NESTING` levels of elements.
pub fn contents(input: &str) -> (r: Result<(Vec<Box<Node>>, &str), ParseError>)
    ensures
        list_outcome(r, input@, contents_spec(input@, 0, MAX_NESTING as nat)),
{
    let src = Source::new(input);
    match contents_at(&src, 0, MAX_NESTING) {
        Ok((v, j)) => Ok((v, src.rest(j))),
        Err(e) => Err(e),
    }
}

// ---------------------------------------------------------------------------
// Laws.

/// A non-empty run of ASCII letters and `-`.
pub open spec fn is_attribute_name(t: Seq<char>) -> bool {
    t.len() > 0 && forall|k: int| 0 <= k < t.len() ==> CharClass::NameChar.contains(#[trigger] t[k])
}

/// A non-empty run of characters other than `"`.
pub open spec fn is_attribute_value(t: Seq<char>) -> bool {
    t.len() > 0 && forall|k: int| 0 <= k < t.len() ==> #[trigger] t[k] != '"'
}

pub open spec fn is_attribute_pair(p: (Seq<char>, Seq<char>)) -> bool {
    is_attribute_name(p.0) && is_attribute_value(p.1)
}

/// `name="value"`
pub open spec fn attribute_text(p: (Seq<char>, Seq<char>)) -> Seq<char> {
    p.0 + seq!['=', '"'] + p.1 + seq!['"']
}

/// Each attribute's text, with a space in front of it.
pub open spec fn attributes_text(ps: Seq<(Seq<char>, Seq<char>)>) -> Seq<char>
    decreases ps.len(),
{
    if ps.len() == 0 {
        seq![]
    } else {
        seq![' '] + attribute_text(ps[0]) + attributes_text(ps.drop_first())
    }
}

/// `<tag name="value" ...>`
pub open spec fn open_tag_text(tag: Seq<char>, ps: Seq<(Seq<char>, Seq<char>)>) -> Seq<char> {
    seq!['<'] + tag + attributes_text(ps) + seq!['>']
}

proof fn lemma_attribute_list_of_text(s: Seq<char>, p: int, ps: Seq<(Seq<char>, Seq<char>)>)
    requires
        0 <= p,
        p + attributes_text(ps).len() < s.len() <= usize::MAX,
        s.subrange(p, p + attributes_text(ps).len() + 1) == attributes_text(ps) + seq!['>'],
        forall|k: int| 0 <= k < ps.len() ==> is_attribute_pair(#[trigger] ps[k]),
    ensures
        attribute_list_spec(s, ws_end(s, p)) == Ok::<(Seq<(Seq<char>, Seq<char>)>, int), ParseError>(
            (ps, p + attributes_text(ps).len()),
        ),
    decreases ps.len(),
{
    let t = attributes_text(ps) + seq!['>'];
    lemma_subrange_chars(s, p, t);
    if ps.len() == 0 {
        assert(s[p] == t[0]);
        lemma_run_end_at(s, p, p, CharClass::Space);
        lemma_run_end_at(s, p, p, CharClass::NameChar);
        assert(seq![] =~= ps);
    } else {
        let pair = ps[0];
        assert(is_attribute_pair(ps[0]));
        let rest = ps.drop_first();
        let name = pair.0;
        let value = pair.1;
        let item = attribute_text(pair);
        let rt = attributes_text(rest);
        let n = name.len() as int;
        let vl = value.len() as int;
        assert(t =~= seq![' '] + item + (rt + seq!['>']));
        assert(item.len() == n + vl + 3);
        let q = p + 1;
        let a = q + n;
        let d = a + 2 + vl;
        assert forall|k: int| 0 <= k < item.len() implies s[q + k] == #[trigger] item[k] by {
            assert(s[p + (1 + k)] == t[1 + k]);
        }
        assert(s[p] == t[0]);
        assert(s[q] == item[0]);
        lemma_run_end_at(s, p, q, CharClass::Space);
        assert forall|k: int| q <= k < a implies CharClass::NameChar.contains(#[trigger] s[k]) by {
            assert(s[q + (k - q)] == item[k - q]);
        }
        assert(s[a] == item[n]);
        assert(s[a + 1] == item[n + 1]);
        lemma_run_end_at(s, q, a, CharClass::NameChar);
        lemma_run_end_at(s, a, a, CharClass::Space);
        lemma_run_end_at(s, a + 1, a + 1, CharClass::Space);
        assert forall|k: int| a + 2 <= k < d implies CharClass::Except('"').contains(
            #[trigger] s[k],
        ) by {
            assert(s[q + (k - q)] == item[k - q]);
            assert(item[k - q] == value[k - a - 2]);
        }
        assert(s[d] == item[n + vl + 2]);
        lemma_run_end_at(s, a + 2, d, CharClass::Except('"'));
        assert(s.subrange(q, a) =~= name) by {
            assert forall|k: int| 0 <= k < n implies s.subrange(q, a)[k] == name[k] by {
                assert(s[q + k] == item[k]);
            }
        }
        assert(s.subrange(a + 2, d) =~= value) by {
            assert forall|k: int| 0 <= k < vl implies s.subrange(a + 2, d)[k] == value[k] by {
                assert(s[q + (n + 2 + k)] == item[n + 2 + k]);
            }
        }
        assert(attribute_spec(s, q) == Ok::<((Seq<char>, Seq<char>), int), ParseError>(
            (pair, d + 1),
        ));
        assert(s.subrange(d + 1, d + 1 + rt.len() + 1) =~= rt + seq!['>']) by {
            assert forall|k: int| 0 <= k < rt.len() + 1 implies s.subrange(
                d + 1,
                d + 1 + rt.len() + 1,
            )[k] == (rt + seq!['>'])[k] by {
                assert(s[p + (n + vl + 4 + k)] == t[n + vl + 4 + k]);
            }
        }
        assert forall|k: int| 0 <= k < rest.len() implies is_attribute_pair(#[trigger] rest[k]) by {
            assert(rest[k] == ps[k + 1]);
        }
        lemma_attribute_list_of_text(s, d + 1, rest);
        assert(seq![pair] + rest =~= ps);
    }
}

proof fn lemma_open_tag_of_text(s: Seq<char>, i: int, tag: Seq<char>, ps: Seq<(Seq<char>, Seq<char>)>)
    requires
        0 <= i,
        i + open_tag_text(tag, ps).len() <= s.len() <= usize::MAX,
        s.subrange(i, i + open_tag_text(tag, ps).len()) == open_tag_text(tag, ps),
        is_word(tag),
        forall|k: int| 0 <= k < ps.len() ==> is_attribute_pair(#[trigger] ps[k]),
    ensures
        open_tag_spec(s, i) == Ok::<((Seq<char>, Map<Seq<char>, Seq<char>>), int), ParseError>(
            ((tag, pairs_map(ps)), i + open_tag_text(tag, ps).len()),
        ),
{
    let ot = open_tag_text(tag, ps);
    let at = attributes_text(ps);
    let n = tag.len() as int;
    let a = i + 1 + n;
    lemma_subrange_chars(s, i, ot);
    assert(ot =~= seq!['<'] + tag + (at + seq!['>']));
    assert(s[i] == ot[0]);
    assert forall|k: int| i + 1 <= k < a implies CharClass::Letter.contains(#[trigger] s[k]) by {
        assert(s[i + (k - i)] == ot[k - i]);
        assert(ot[k - i] == tag[k - i - 1]);
    }
    assert(s[a] == ot[1 + n]);
    assert(ot[1 + n] == (at + seq!['>'])[0]);
    if ps.len() > 0 {
        assert(at[0] == ' ');
    }
    lemma_run_end_at(s, i + 1, a, CharClass::Letter);
    assert(s.subrange(a, a + at.len() + 1) =~= at + seq!['>']) by {
        assert forall|k: int| 0 <= k < at.len() + 1 implies s.subrange(a, a + at.len() + 1)[k]
            == (at + seq!['>'])[k] by {
            assert(s[i + (1 + n + k)] == ot[1 + n + k]);
        }
    }
    lemma_attribute_list_of_text(s, a, ps);
    assert(s.subrange(i + 1, a) =~= tag) by {
        assert forall|k: int| 0 <= k < n implies s.subrange(i + 1, a)[k] == tag[k] by {
            assert(s[i + (1 + k)] == ot[1 + k]);
        }
    }
    assert(s[a + at.len()] == ot[1 + n + at.len()]);
    assert(ot[1 + n + at.len()] == (at + seq!['>'])[at.len() as int]);
}

/// An open tag written from a tag name and attributes with distinct names,
/// in any order and followed by any text, parses back to that tag name and to
/// a map that holds exactly those attributes, and leaves the text after `>`
/// (where the whole fits in memory).
pub proof fn lemma_open_tag_round_trip(
    tag: Seq<char>,
    ps: Seq<(Seq<char>, Seq<char>)>,
    rest: Seq<char>,
)
    requires
        is_word(tag),
        forall|k: int| 0 <= k < ps.len() ==> is_attribute_pair(#[trigger] ps[k]),
        unique_names(ps),
        open_tag_text(tag, ps).len() + rest.len() <= usize::MAX,
    ensures
        open_tag_spec(open_tag_text(tag, ps) + rest, 0) == Ok::<
            ((Seq<char>, Map<Seq<char>, Seq<char>>), int),
            ParseError,
        >(((tag, pairs_map(ps)), open_tag_text(tag, ps).len() as int)),
        forall|k: int|
            0 <= k < ps.len() ==> pairs_map(ps).contains_key(#[trigger] ps[k].0) && pairs_map(
                ps,
            )[ps[k].0] == ps[k].1,
        forall|name: Seq<char>| #[trigger]
            pairs_map(ps).contains_key(name) ==> exists|k: int| 0 <= k < ps.len() && ps[k].0 == name,
{
    let ot = open_tag_text(tag, ps);
    let s = ot + rest;
    assert(s.subrange(0, ot.len() as int) =~= ot);
    lemma_open_tag_of_text(s, 0, tag, ps);
    assert forall|k: int| 0 <= k < ps.len() implies pairs_map(ps).contains_key(#[trigger] ps[k].0)
        && pairs_map(ps)[ps[k].0] == ps[k].1 by {
        lemma_pairs_map_lookup(ps, k);
    }
    assert forall|name: Seq<char>| #[trigger] pairs_map(ps).contains_key(name) implies exists|k: int|
        0 <= k < ps.len() && ps[k].0 == name by {
        if forall|k: int| 0 <= k < ps.len() ==> ps[k].0 != name {
            lemma_pairs_map_absent(ps, name);
        }
    }
}

/// A document tree as it is written, its attributes in the order of the text.
pub enum Markup {
    Element {
        tag_name: Seq<char>,
        attributes: Seq<(Seq<char>, Seq<char>)>,
        children: Seq<Markup>,
    },
    Text { data: Seq<char> },
}

/// `</tag>`
pub open spec fn close_tag_text(tag: Seq<char>) -> Seq<char> {
    seq!['<', '/'] + tag + seq!['>']
}

/// The text of a tree: an element as its open tag, its children's text and
/// its close tag; a text as itself.
pub open spec fn markup_text(m: Markup) -> Seq<char>
    decreases m,
{
    match m {
        Markup::Element { tag_name, attributes, children } => open_tag_text(tag_name, attributes)
            + markups_text(children) + close_tag_text(tag_name),
        Markup::Text { data } => data,
    }
}

/// The texts of trees, one after another.
pub open spec fn markups_text(cs: Seq<Markup>) -> Seq<char>
    decreases cs,
{
    if cs.len() == 0 {
        seq![]
    } else {
        markup_text(cs[0]) + markups_text(cs.drop_first())
    }
}

/// The node that a tree stands for, its attributes as a map.
pub open spec fn markup_model(m: Markup) -> NodeModel
    decreases m,
{
    match m {
        Markup::Element { tag_name, attributes, children } => NodeModel::Element {
            tag_name,
            attributes: pairs_map(attributes),
            children: markups_model(children),
        },
        Markup::Text { data } => NodeModel::Text { data },
    }
}

pub open spec fn markups_model(cs: Seq<Markup>) -> Seq<NodeModel>
    decreases cs,
{
    if cs.len() == 0 {
        seq![]
    } else {
        seq![markup_model(cs[0])] + markups_model(cs.drop_first())
    }
}

/// How many levels of elements a tree has.
pub open spec fn markup_depth(m: Markup) -> nat
    decreases m,
{
    match m {
        Markup::Element { children, .. } => 1 + markups_depth(children),
        Markup::Text { .. } => 0,
    }
}

/// The largest depth among trees.
pub open spec fn markups_depth(cs: Seq<Markup>) -> nat
    decreases cs,
{
    if cs.len() == 0 {
        0
    } else {
        let first = markup_depth(cs[0]);
        let rest = markups_depth(cs.drop_first());
        if first >= rest {
            first
        } else {
            rest
        }
    }
}

/// A non-empty text without `<`.
pub open spec fn is_text_data(t: Seq<char>) -> bool {
    t.len() > 0 && forall|k: int| 0 <= k < t.len() ==> #[trigger] t[k] != '<'
}

/// A tree that the grammar can read back: tag names are words, attributes
/// are well formed with distinct names, texts are non-empty and hold no `<`.
pub open spec fn markup_wf(m: Markup) -> bool
    decreases m,
{
    match m {
        Markup::Element { tag_name, attributes, children } => {
            &&& is_word(tag_name)
            &&& forall|k: int|
                0 <= k < attributes.len() ==> is_attribute_pair(#[trigger] attributes[k])
            &&& unique_names(attributes)
            &&& markups_wf(children)
        },
        Markup::Text { data } => is_text_data(data),
    }
}

/// Well-formed trees, no two texts next to each other (they would read back
/// as one).
pub open spec fn markups_wf(cs: Seq<Markup>) -> bool
    decreases cs,
{
    if cs.len() == 0 {
        true
    } else {
        &&& markup_wf(cs[0])
        &&& markups_wf(cs.drop_first())
        &&& !(cs.len() > 1 && cs[0] is Text && cs[1] is Text)
    }
}

proof fn lemma_element_of_text(s: Seq<char>, i: int, m: Markup, depth: nat)
    requires
        m is Element,
        markup_wf(m),
        markup_depth(m) <= depth,
        0 <= i,
        i + markup_text(m).len() <= s.len() <= usize::MAX,
        s.subrange(i, i + markup_text(m).len()) == markup_text(m),
    ensures
        element_spec(s, i, depth) == Ok::<(NodeModel, int), ParseError>(
            (markup_model(m), i + markup_text(m).len()),
        ),
    decreases m,
{
    let tag = m->tag_name;
    let ps = m->attributes;
    let children = m->children;
    let mt = markup_text(m);
    let ot = open_tag_text(tag, ps);
    let ct = markups_text(children);
    let cl = close_tag_text(tag);
    assert(mt == ot + ct + cl);
    lemma_subrange_chars(s, i, mt);
    let j = i + ot.len();
    let k = j + ct.len();
    let n = tag.len() as int;
    assert(s.subrange(i, j) =~= ot) by {
        assert forall|x: int| 0 <= x < ot.len() implies s.subrange(i, j)[x] == ot[x] by {
            assert(s[i + x] == mt[x]);
        }
    }
    lemma_open_tag_of_text(s, i, tag, ps);
    assert(s.subrange(j, k) =~= ct) by {
        assert forall|x: int| 0 <= x < ct.len() implies s.subrange(j, k)[x] == ct[x] by {
            assert(s[i + (ot.len() + x)] == mt[ot.len() + x]);
        }
    }
    assert forall|x: int| 0 <= x < cl.len() implies s[k + x] == #[trigger] cl[x] by {
        assert(s[i + (ot.len() + ct.len() + x)] == mt[ot.len() + ct.len() + x]);
    }
    assert(s[k] == cl[0]);
    assert(s[k + 1] == cl[1]);
    lemma_contents_of_text(s, j, children, (depth - 1) as nat);
    assert forall|x: int| k + 2 <= x < k + 2 + n implies CharClass::Letter.contains(#[trigger] s[x]) by {
        assert(s[k + (x - k)] == cl[x - k]);
        assert(cl[x - k] == tag[x - k - 2]);
    }
    assert(s[k + 2 + n] == cl[2 + n]);
    lemma_run_end_at(s, k + 2, k + 2 + n, CharClass::Letter);
    assert(s.subrange(k + 2, k + 2 + n) =~= tag) by {
        assert forall|x: int| 0 <= x < n implies s.subrange(k + 2, k + 2 + n)[x] == tag[x] by {
            assert(s[k + (2 + x)] == cl[2 + x]);
        }
    }
    assert(close_tag_spec(s, k) == Ok::<(Seq<char>, int), ParseError>((tag, k + cl.len())));
}

proof fn lemma_markups_text_starts_with_tag(cs: Seq<Markup>)
    requires
        cs.len() > 0,
        cs[0] is Element,
    ensures
        markups_text(cs).len() > 0,
        markups_text(cs)[0] == '<',
{
    assert(markup_text(cs[0])[0] == open_tag_text(cs[0]->tag_name, cs[0]->attributes)[0]);
}

proof fn lemma_contents_of_text(s: Seq<char>, i: int, cs: Seq<Markup>, depth: nat)
    requires
        markups_wf(cs),
        markups_depth(cs) <= depth,
        0 <= i,
        i + markups_text(cs).len() + 2 <= s.len() <= usize::MAX,
        s.subrange(i, i + markups_text(cs).len()) == markups_text(cs),
        s[i + markups_text(cs).len()] == '<',
        s[i + markups_text(cs).len() + 1] == '/',
    ensures
        contents_spec(s, i, depth) == Ok::<(Seq<NodeModel>, int), ParseError>(
            (markups_model(cs), i + markups_text(cs).len()),
        ),
    decreases cs,
{
    let ct = markups_text(cs);
    if cs.len() == 0 {
        assert(ct.len() == 0);
        lemma_run_end_at(s, i + 1, i + 1, CharClass::Letter);
        lemma_run_end_at(s, i, i, CharClass::Except('<'));
        assert(open_tag_spec(s, i) == Err::<((Seq<char>, Map<Seq<char>, Seq<char>>), int), ParseError>(
            fail(i + 1, ErrorKind::Syntax(Expected::Letter)),
        ));
        assert(element_spec(s, i, depth) == Err::<(NodeModel, int), ParseError>(
            fail(i + 1, ErrorKind::Syntax(Expected::Letter)),
        ));
        assert(text_spec(s, i) is Err);
        assert(markups_model(cs) =~= seq![]);
    } else {
        let first = cs[0];
        let rest = cs.drop_first();
        let ft = markup_text(first);
        let rt = markups_text(rest);
        assert(ct == ft + rt);
        lemma_subrange_chars(s, i, ct);
        let j = i + ft.len();
        assert(s.subrange(i, j) =~= ft) by {
            assert forall|x: int| 0 <= x < ft.len() implies s.subrange(i, j)[x] == ft[x] by {
                assert(s[i + x] == ct[x]);
            }
        }
        assert(s.subrange(j, j + rt.len()) =~= rt) by {
            assert forall|x: int| 0 <= x < rt.len() implies s.subrange(j, j + rt.len())[x]
                == rt[x] by {
                assert(s[i + (ft.len() + x)] == ct[ft.len() + x]);
            }
        }
        if first is Element {
            lemma_element_of_text(s, i, first, depth);
        } else {
            let data = first->data;
            assert(markup_wf(first));
            assert(is_text_data(data));
            assert(s[i] == ct[0]);
            assert(ct[0] == data[0]);
            assert forall|x: int| i <= x < j implies CharClass::Except('<').contains(
                #[trigger] s[x],
            ) by {
                assert(s[i + (x - i)] == ct[x - i]);
            }
            if rest.len() > 0 {
                lemma_markups_text_starts_with_tag(rest);
                assert(s[j] == ct[ft.len() as int]);
            }
            lemma_run_end_at(s, i, j, CharClass::Except('<'));
            assert(s.subrange(i, j) =~= data);
            assert(element_spec(s, i, depth) == Err::<(NodeModel, int), ParseError>(
                fail(i, ErrorKind::Syntax(Expected::Char('<'))),
            ));
        }
        assert(markups_model(cs) == seq![markup_model(first)] + markups_model(rest));
        lemma_contents_of_text(s, j, rest, depth);
    }
}

/// A well-formed element, written out, parses back to the tree it was
/// written from, given room for its depth: the whole text is read and
/// nothing is left.
pub proof fn lemma_element_round_trip(m: Markup, depth: nat)
    requires
        m is Element,
        markup_wf(m),
        markup_depth(m) <= depth,
        markup_text(m).len() <= usize::MAX,
    ensures
        element_spec(markup_text(m), 0, depth) == Ok::<(NodeModel, int), ParseError>(
            (markup_model(m), markup_text(m).len() as int),
        ),
{
    let t = markup_text(m);
    assert(t.subrange(0, t.len() as int) =~= t);
    lemma_element_of_text(t, 0, m, depth);
}

/// Pairs with distinct names that make the same map as `ps`.
proof fn lemma_distinct_pairs(ps: Seq<(Seq<char>, Seq<char>)>) -> (qs: Seq<(Seq<char>, Seq<char>)>)
    requires
        forall|k: int| 0 <= k < ps.len() ==> is_attribute_pair(#[trigger] ps[k]),
    ensures
        forall|k: int| 0 <= k < qs.len() ==> is_attribute_pair(#[trigger] qs[k]),
        unique_names(qs),
        pairs_map(qs) == pairs_map(ps),
    decreases ps.len(),
{
    if ps.len() == 0 {
        ps
    } else {
        let init = ps.drop_last();
        let last = ps.last();
        assert(is_attribute_pair(ps[ps.len() - 1]));
        let d = lemma_distinct_pairs(init);
        if exists|k: int| 0 <= k < d.len() && d[k].0 == last.0 {
            let idx = choose|k: int| 0 <= k < d.len() && d[k].0 == last.0;
            let qs = d.update(idx, (d[idx].0, last.1));
            lemma_pairs_map_update(d, idx, last.1);
            assert(is_attribute_pair(d[idx]));
            assert forall|k: int| 0 <= k < qs.len() implies is_attribute_pair(#[trigger] qs[k]) by {
                if k != idx {
                    assert(qs[k] == d[k]);
                }
            }
            assert forall|a: int, b: int| 0 <= a < b < qs.len() implies qs[a].0 != qs[b].0 by {
                assert(qs[a].0 == d[a].0);
                assert(qs[b].0 == d[b].0);
            }
            qs
        } else {
            let qs = d.push(last);
            assert(qs.drop_last() =~= d);
            assert forall|k: int| 0 <= k < qs.len() implies is_attribute_pair(#[trigger] qs[k]) by {
                if k < d.len() {
                    assert(qs[k] == d[k]);
                }
            }
            assert forall|a: int, b: int| 0 <= a < b < qs.len() implies qs[a].0 != qs[b].0 by {
                assert(qs[a] == d[a]);
                if b < d.len() {
                    assert(qs[b] == d[b]);
                }
            }
            qs
        }
    }
}

proof fn lemma_parsed_attributes_valid(s: Seq<char>, i: int)
    requires
        0 <= i <= s.len(),
        attribute_list_spec(s, i) is Ok,
    ensures
        forall|k: int|
            0 <= k < attribute_list_spec(s, i)->Ok_0.0.len() ==> is_attribute_pair(
                #[trigger] attribute_list_spec(s, i)->Ok_0.0[k],
            ),
    decreases s.len() - i,
{
    if let Ok((p, j)) = attribute_spec(s, i) {
        let a = run_end(s, i, CharClass::NameChar);
        let b = ws_end(s, a);
        let c = ws_end(s, b + 1);
        let d = run_end(s, c + 1, CharClass::Except('"'));
        lemma_run_end_bounds(s, i, CharClass::NameChar);
        lemma_run_end_bounds(s, a, CharClass::Space);
        lemma_run_end_bounds(s, b + 1, CharClass::Space);
        lemma_run_end_bounds(s, c + 1, CharClass::Except('"'));
        assert(is_attribute_name(p.0)) by {
            assert forall|k: int| 0 <= k < p.0.len() implies CharClass::NameChar.contains(
                #[trigger] p.0[k],
            ) by {
                assert(p.0[k] == s[i + k]);
            }
        }
        assert(is_attribute_value(p.1)) by {
            assert forall|k: int| 0 <= k < p.1.len() implies #[trigger] p.1[k] != '"' by {
                assert(p.1[k] == s[c + 1 + k]);
                assert(CharClass::Except('"').contains(s[c + 1 + k]));
            }
        }
        lemma_attribute_spec_advances(s, i);
        lemma_run_end_bounds(s, j, CharClass::Space);
        let next = ws_end(s, j);
        lemma_parsed_attributes_valid(s, next);
        let rest = attribute_list_spec(s, next)->Ok_0.0;
        let all = attribute_list_spec(s, i)->Ok_0.0;
        assert(all == seq![p] + rest);
        assert forall|k: int| 0 <= k < all.len() implies is_attribute_pair(#[trigger] all[k]) by {
            if k > 0 {
                assert(all[k] == rest[k - 1]);
            }
        }
    }
}

proof fn lemma_parsed_element(s: Seq<char>, i: int, depth: nat) -> (m: Markup)
    requires
        0 <= i <= s.len(),
        element_spec(s, i, depth) is Ok,
    ensures
        m is Element,
        markup_wf(m),
        markup_depth(m) <= depth,
        markup_model(m) == element_spec(s, i, depth)->Ok_0.0,
    decreases s.len() - i, 0int,
{
    let a = run_end(s, i + 1, CharClass::Letter);
    let b = ws_end(s, a);
    lemma_run_end_bounds(s, i + 1, CharClass::Letter);
    lemma_run_end_bounds(s, a, CharClass::Space);
    let ps = attribute_list_spec(s, b)->Ok_0.0;
    lemma_parsed_attributes_valid(s, b);
    let qs = lemma_distinct_pairs(ps);
    let tag = s.subrange(i + 1, a);
    assert(is_word(tag)) by {
        assert forall|k: int| 0 <= k < tag.len() implies is_ascii_letter(#[trigger] tag[k]) by {
            assert(tag[k] == s[i + 1 + k]);
            assert(CharClass::Letter.contains(s[i + 1 + k]));
        }
    }
    lemma_open_tag_spec_advances(s, i);
    let j = open_tag_spec(s, i)->Ok_0.1;
    let cs = lemma_parsed_contents(s, j, (depth - 1) as nat);
    Markup::Element { tag_name: tag, attributes: qs, children: cs }
}

proof fn lemma_parsed_contents(s: Seq<char>, i: int, depth: nat) -> (cs: Seq<Markup>)
    requires
        0 <= i <= s.len(),
        contents_spec(s, i, depth) is Ok,
    ensures
        markups_wf(cs),
        markups_depth(cs) <= depth,
        markups_model(cs) == contents_spec(s, i, depth)->Ok_0.0,
        i == s.len() || s[i] == '<' ==> cs.len() == 0 || cs[0] is Element,
    decreases s.len() - i, 1int,
{
    match element_spec(s, i, depth) {
        Ok((n, j)) => {
            if i < j <= s.len() {
                let m = lemma_parsed_element(s, i, depth);
                let rest = lemma_parsed_contents(s, j, depth);
                let cs = seq![m] + rest;
                assert(cs.drop_first() =~= rest);
                assert(cs[0] == m);
                assert(markups_model(cs) == seq![markup_model(m)] + markups_model(rest));
                assert(markups_depth(cs) <= depth);
                cs
            } else {
                seq![]
            }
        },
        Err(e) => {
            let t = run_end(s, i, CharClass::Except('<'));
            lemma_run_end_bounds(s, i, CharClass::Except('<'));
            if t == i {
                seq![]
            } else {
                let data = s.subrange(i, t);
                assert(is_text_data(data)) by {
                    assert forall|k: int| 0 <= k < data.len() implies #[trigger] data[k] != '<' by {
                        assert(data[k] == s[i + k]);
                        assert(CharClass::Except('<').contains(s[i + k]));
                    }
                }
                let rest = lemma_parsed_contents(s, t, depth);
                let m = Markup::Text { data };
                let cs = seq![m] + rest;
                assert(cs.drop_first() =~= rest);
                assert(cs[0] == m);
                if rest.len() > 0 {
                    assert(cs[1] == rest[0]);
                }
                assert(markup_wf(m));
                assert(markups_model(cs) == seq![markup_model(m)] + markups_model(rest));
                assert(markup_depth(m) == 0);
                assert(markups_depth(cs) <= depth);
                cs
            }
        },
    }
}

/// Parsing, printing what was parsed and parsing again gives the same tree:
/// whatever element the grammar reads is the reading of a well-formed tree,
/// and that tree's text (where it fits in memory) reads back to it in full
/// under the same nesting bound.
pub proof fn lemma_parse_print_parse(s: Seq<char>, depth: nat)
    requires
        element_spec(s, 0, depth) is Ok,
    ensures
        exists|m: Markup|
            #![trigger markup_model(m)]
            m is Element && markup_wf(m) && markup_model(m) == element_spec(s, 0, depth)->Ok_0.0
                && (markup_text(m).len() <= usize::MAX ==> element_spec(markup_text(m), 0, depth)
                == Ok::<(NodeModel, int), ParseError>(
                (element_spec(s, 0, depth)->Ok_0.0, markup_text(m).len() as int),
            )),
{
    let m = lemma_parsed_element(s, 0, depth);
    if markup_text(m).len() <= usize::MAX {
        lemma_element_round_trip(m, depth);
    }
}

/// Every element's attributes have distinct names, as when a map is written
/// out.
pub open spec fn attrs_unique(m: Markup) -> bool
    decreases m,
{
    match m {
        Markup::Element { attributes, children, .. } => unique_names(attributes)
            && all_attrs_unique(children),
        Markup::Text { .. } => true,
    }
}

pub open spec fn all_attrs_unique(cs: Seq<Markup>) -> bool
    decreases cs,
{
    if cs.len() == 0 {
        true
    } else {
        attrs_unique(cs[0]) && all_attrs_unique(cs.drop_first())
    }
}

proof fn lemma_markups_model_at(cs: Seq<Markup>, k: int)
    requires
        0 <= k < cs.len(),
    ensures
        markups_model(cs).len() == cs.len(),
        markups_model(cs)[k] == markup_model(cs[k]),
    decreases cs.len(),
{
    let rest = cs.drop_first();
    if k > 0 {
        lemma_markups_model_at(rest, k - 1);
        assert(rest[k - 1] == cs[k]);
    } else if rest.len() > 0 {
        lemma_markups_model_at(rest, 0);
    } else {
        assert(markups_model(rest) =~= Seq::<NodeModel>::empty());
    }
}

proof fn lemma_markups_model_len(cs: Seq<Markup>)
    ensures
        markups_model(cs).len() == cs.len(),
{
    if cs.len() > 0 {
        lemma_markups_model_at(cs, 0);
    }
}

proof fn lemma_attribute_pairs_of_same_map(
    ps: Seq<(Seq<char>, Seq<char>)>,
    ps0: Seq<(Seq<char>, Seq<char>)>,
)
    requires
        unique_names(ps),
        unique_names(ps0),
        pairs_map(ps) == pairs_map(ps0),
        forall|k: int| 0 <= k < ps0.len() ==> is_attribute_pair(#[trigger] ps0[k]),
    ensures
        forall|k: int| 0 <= k < ps.len() ==> is_attribute_pair(#[trigger] ps[k]),
{
    assert forall|k: int| 0 <= k < ps.len() implies is_attribute_pair(#[trigger] ps[k]) by {
        lemma_pairs_map_lookup(ps, k);
        let key = ps[k].0;
        if forall|j: int| 0 <= j < ps0.len() ==> ps0[j].0 != key {
            lemma_pairs_map_absent(ps0, key);
        }
        let j = choose|j: int| 0 <= j < ps0.len() && ps0[j].0 == key;
        lemma_pairs_map_lookup(ps0, j);
        assert(is_attribute_pair(ps0[j]));
        assert(ps[k] == ps0[j]);
    }
}

/// Two trees that stand for the same node, the second well formed and the
/// first with distinct attribute names, are both well formed and equally
/// deep.
proof fn lemma_same_model_tree(m: Markup, m0: Markup)
    requires
        markup_model(m) == markup_model(m0),
        markup_wf(m0),
        attrs_unique(m),
    ensures
        markup_wf(m),
        markup_depth(m) == markup_depth(m0),
    decreases m,
{
    match m {
        Markup::Element { tag_name, attributes, children } => {
            assert(m0 is Element);
            lemma_attribute_pairs_of_same_map(attributes, m0->attributes);
            lemma_same_model_trees(children, m0->children);
        },
        Markup::Text { data } => {
            assert(m0 is Text);
        },
    }
}

proof fn lemma_same_model_trees(cs: Seq<Markup>, cs0: Seq<Markup>)
    requires
        markups_model(cs) == markups_model(cs0),
        markups_wf(cs0),
        all_attrs_unique(cs),
    ensures
        markups_wf(cs),
        markups_depth(cs) == markups_depth(cs0),
    decreases cs,
{
    lemma_markups_model_len(cs);
    lemma_markups_model_len(cs0);
    assert(cs.len() == cs0.len());
    if cs.len() > 0 {
        let rest = cs.drop_first();
        let rest0 = cs0.drop_first();
        lemma_markups_model_at(cs, 0);
        lemma_markups_model_at(cs0, 0);
        assert(markup_model(cs[0]) == markup_model(cs0[0]));
        assert(markups_wf(cs0) ==> markup_wf(cs0[0]) && markups_wf(rest0));
        assert(all_attrs_unique(cs) ==> attrs_unique(cs[0]) && all_attrs_unique(rest));
        lemma_same_model_tree(cs[0], cs0[0]);
        lemma_markups_model_len(rest);
        lemma_markups_model_len(rest0);
        assert(markups_model(rest) =~= markups_model(rest0)) by {
            assert forall|k: int| 0 <= k < rest.len() implies markups_model(rest)[k]
                == markups_model(rest0)[k] by {
                lemma_markups_model_at(rest, k);
                lemma_markups_model_at(rest0, k);
                lemma_markups_model_at(cs, k + 1);
                lemma_markups_model_at(cs0, k + 1);
                assert(rest[k] == cs[k + 1]);
                assert(rest0[k] == cs0[k + 1]);
            }
        }
        lemma_same_model_trees(rest, rest0);
        if cs.len() > 1 {
            lemma_markups_model_at(cs, 1);
            lemma_markups_model_at(cs0, 1);
            assert(markup_model(cs[0]) is Text <==> cs[0] is Text);
            assert(markup_model(cs0[0]) is Text <==> cs0[0] is Text);
            assert(markup_model(cs[1]) is Text <==> cs[1] is Text);
            assert(markup_model(cs0[1]) is Text <==> cs0[1] is Text);
        }
    }
}

/// Every printing of a parsed element reads back to it: a tree that stands
/// for the parsed node, each element's attributes written once in any order,
/// has a text that parses to the same node in full under the same nesting
/// bound (where the text fits in memory).
pub proof fn lemma_every_printing_parses_back(s: Seq<char>, depth: nat, m: Markup)
    requires
        element_spec(s, 0, depth) is Ok,
        m is Element,
        markup_model(m) == element_spec(s, 0, depth)->Ok_0.0,
        attrs_unique(m),
        markup_text(m).len() <= usize::MAX,
    ensures
        element_spec(markup_text(m), 0, depth) == Ok::<(NodeModel, int), ParseError>(
            (element_spec(s, 0, depth)->Ok_0.0, markup_text(m).len() as int),
        ),
{
    let m0 = lemma_parsed_element(s, 0, depth);
    lemma_same_model_tree(m, m0);
    lemma_element_round_trip(m, depth);
}

pub proof fn lemma_close_tag_spec_advances(s: Seq<char>, i: int)
    requires
        0 <= i <= s.len(),
    ensures
        close_tag_spec(s, i) matches Ok((_, j)) ==> i < j <= s.len(),
{
    if i + 2 <= s.len() {
        lemma_run_end_bounds(s, i + 2, CharClass::Letter);
    }
}

/// An element that parses ends after its start and within the text.
pub proof fn lemma_element_spec_advances(s: Seq<char>, i: int, depth: nat)
    requires
        0 <= i <= s.len(),
    ensures
        element_spec(s, i, depth) matches Ok((_, j)) ==> i < j <= s.len(),
    decreases s.len() - i, 0int,
{
    lemma_open_tag_spec_advances(s, i);
    if let Ok((_, j)) = open_tag_spec(s, i) {
        if depth > 0 {
            lemma_contents_spec_advances(s, j, (depth - 1) as nat);
            if let Ok((_, k)) = contents_spec(s, j, (depth - 1) as nat) {
                lemma_close_tag_spec_advances(s, k);
            }
        }
    }
}

/// Contents that parse end at or after their start and within the text.
pub proof fn lemma_contents_spec_advances(s: Seq<char>, i: int, depth: nat)
    requires
        0 <= i <= s.len(),
    ensures
        contents_spec(s, i, depth) matches Ok((_, j)) ==> i <= j <= s.len(),
    decreases s.len() - i, 1int,
{
    lemma_element_spec_advances(s, i, depth);
    match element_spec(s, i, depth) {
        Ok((_, j)) => {
            if i < j <= s.len() {
                lemma_contents_spec_advances(s, j, depth);
            }
        },
        Err(_) => {
            lemma_run_end_bounds(s, i, CharClass::Except('<'));
            if let Ok((_, j)) = text_spec(s, i) {
                lemma_contents_spec_advances(s, j, depth);
            }
        },
    }
}

pub proof fn lemma_attribute_spec_advances(s: Seq<char>, i: int)
    ensures
        attribute_spec(s, i) matches Ok((_, j)) ==> i < j && (0 <= i ==> j <= s.len()),
{
    if 0 <= i <= s.len() {
        lemma_run_end_bounds(s, i, CharClass::NameChar);
        let a = run_end(s, i, CharClass::NameChar);
        lemma_run_end_bounds(s, a, CharClass::Space);
        let b = ws_end(s, a);
        if is_at(s, b, '=') {
            lemma_run_end_bounds(s, b + 1, CharClass::Space);
            let c = ws_end(s, b + 1);
            if is_at(s, c, '"') {
                lemma_run_end_bounds(s, c + 1, CharClass::Except('"'));
            }
        }
    }
}

pub proof fn lemma_attribute_list_spec_advances(s: Seq<char>, i: int)
    requires
        0 <= i <= s.len(),
    ensures
        attribute_list_spec(s, i) matches Ok((_, j)) ==> i <= j <= s.len(),
    decreases s.len() - i,
{
    lemma_attribute_spec_advances(s, i);
    if let Ok((_, j)) = attribute_spec(s, i) {
        lemma_run_end_bounds(s, j, CharClass::Space);
        lemma_attribute_list_spec_advances(s, ws_end(s, j));
    }
}

pub proof fn lemma_open_tag_spec_advances(s: Seq<char>, i: int)
    ensures
        open_tag_spec(s, i) matches Ok((_, j)) ==> i < j && (0 <= i ==> j <= s.len()),
{
    if 0 <= i < s.len() {
        lemma_run_end_bounds(s, i + 1, CharClass::Letter);
        let a = run_end(s, i + 1, CharClass::Letter);
        lemma_run_end_bounds(s, a, CharClass::Space);
        lemma_attribute_list_spec_advances(s, ws_end(s, a));
    }
}

} // verus!
