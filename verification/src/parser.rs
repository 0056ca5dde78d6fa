//! Turning a note's text into a node and its outgoing links.
//!
//! The YAML front matter is parsed with gray_matter; the rest is this module's own.

use vstd::prelude::*;

use gray_matter::engine::YAML;
use gray_matter::Matter;

use crate::front::{field, string_items, string_list, views, FrontValue};
use crate::text::{
    chars_of, concat, contains_in, contains_seq, lines, lines_from, next_line, next_piece,
    split_from, split_on, string_of, substring, trim, trim_bounds,
};
use crate::text::{is_white, lemma_next_occ, next_occ, occurs_at, trim_end, trim_start};
use crate::types::{ParsedEdge, ParsedNode};
use crate::wiki_links::{extract_wiki_links, links_view, wiki_links};

verus! {

// ---------------------------------------------------------------------------
// Front matter delimiters
// ---------------------------------------------------------------------------

/// `---`
pub open spec fn dashes() -> Seq<char> {
    seq!['-', '-', '-']
}

/// A line that is, once trimmed, `---`.
pub open spec fn is_delim(l: Seq<char>) -> bool {
    trim(l) == dashes()
}

/// Index of the first delimiter line among `ls[j..]`.
pub open spec fn first_delim_from(ls: Seq<Seq<char>>, j: int) -> Option<int>
    decreases ls.len() - j,
{
    if j < 0 || j >= ls.len() {
        None
    } else if is_delim(ls[j]) {
        Some(j)
    } else {
        first_delim_from(ls, j + 1)
    }
}

/// Lines joined with `\n` between them.
pub open spec fn join_lines(ls: Seq<Seq<char>>) -> Seq<char>
    decreases ls.len(),
{
    if ls.len() == 0 {
        Seq::empty()
    } else if ls.len() == 1 {
        ls[0]
    } else {
        join_lines(ls.drop_last()) + seq!['\n'] + ls.last()
    }
}

/// The body of a note whose front matter could not be parsed: when the first line
/// is a delimiter and a later line closes it, the lines after the closing one,
/// joined with `\n`; otherwise the whole text.
pub open spec fn strip_frontmatter_spec(c: Seq<char>) -> Seq<char> {
    let ls = lines(c);
    if ls.len() > 0 && is_delim(ls[0]) {
        match first_delim_from(ls, 1) {
            Some(k) => join_lines(ls.subrange(k + 1, ls.len() as int)),
            None => c,
        }
    } else {
        c
    }
}

fn is_delim_line(v: &Vec<char>, lo: usize, hi: usize) -> (r: bool)
    requires
        lo <= hi <= v@.len(),
    ensures
        r == is_delim(v@.subrange(lo as int, hi as int)),
{
    let (a, b) = trim_bounds(v, lo, hi);
    assert(dashes().len() == 3);
    if b - a != 3 {
        return false;
    }
    let r = v[a] == '-' && v[a + 1] == '-' && v[a + 2] == '-';
    assert(r == (v@.subrange(a as int, b as int) =~= dashes()));
    r
}

proof fn lemma_lines_from_end(v: Seq<char>)
    ensures
        lines_from(v, v.len() as int) == Seq::<Seq<char>>::empty(),
{
}

/// The text of a note after its front matter, found by looking for `---` lines
/// (used when the front matter is malformed).
pub fn strip_frontmatter_raw(content: &str) -> (r: String)
    ensures
        r@ == strip_frontmatter_spec(content@),
{
    let v = chars_of(content);
    let ghost ls = lines(v@);
    if v.len() == 0 {
        return string_of(v.as_slice());
    }
    let (lo0, hi0, mut pos) = next_line(&v, 0);
    assert(ls[0] == v@.subrange(lo0 as int, hi0 as int));
    if !is_delim_line(&v, lo0, hi0) {
        return string_of(v.as_slice());
    }
    // Look for the closing delimiter.
    let ghost mut j: int = 1;
    let mut closed = false;
    while pos < v.len() && !closed
        invariant
            0 < pos <= v@.len(),
            1 <= j <= ls.len(),
            v@ == content@,
            ls == lines(v@),
            ls.subrange(j, ls.len() as int) == lines_from(v@, pos as int),
            closed ==> first_delim_from(ls, 1) == Some(j - 1),
            !closed ==> first_delim_from(ls, 1) == first_delim_from(ls, j),
        decreases v@.len() - pos,
    {
        let (lo, hi, nx) = next_line(&v, pos);
        assert(j < ls.len()) by {
            assert(ls.subrange(j, ls.len() as int).len() > 0);
        }
        assert(ls[j] == v@.subrange(lo as int, hi as int)) by {
            assert(ls.subrange(j, ls.len() as int)[0] == ls[j]);
        }
        assert(ls.subrange(j + 1, ls.len() as int) =~= ls.subrange(j, ls.len() as int).drop_first());
        if is_delim_line(&v, lo, hi) {
            closed = true;
        }
        pos = nx;
        proof {
            j = j + 1;
        }
    }
    if !closed {
        proof {
            lemma_lines_from_end(v@);
            assert(ls.subrange(j, ls.len() as int).len() == 0);
            assert(j == ls.len());
        }
        return string_of(v.as_slice());
    }
    // Join the lines after the closing delimiter.
    let ghost rest = ls.subrange(j, ls.len() as int);
    let ghost mut done: Seq<Seq<char>> = Seq::empty();
    let mut out: Vec<char> = Vec::new();
    let mut first = true;
    while pos < v.len()
        invariant
            pos <= v@.len(),
            v@ == content@,
            rest == done + lines_from(v@, pos as int),
            out@ == join_lines(done),
            first == (done.len() == 0),
        decreases v@.len() - pos,
    {
        let (lo, hi, nx) = next_line(&v, pos);
        let ghost line = v@.subrange(lo as int, hi as int);
        if !first {
            out.push('\n');
        }
        let mut k = lo;
        let ghost o = out@;
        while k < hi
            invariant
                lo <= k <= hi <= v@.len(),
                out@ == o + v@.subrange(lo as int, k as int),
            decreases hi - k,
        {
            out.push(v[k]);
            k = k + 1;
        }
        proof {
            let nd = done.push(line);
            assert(nd.drop_last() =~= done);
            if done.len() == 0 {
                assert(out@ =~= join_lines(nd));
            } else {
                assert(out@ =~= join_lines(done) + seq!['\n'] + line);
            }
            assert(rest =~= nd + lines_from(v@, nx as int));
            done = nd;
        }
        first = false;
        pos = nx;
    }
    proof {
        lemma_lines_from_end(v@);
        assert(rest =~= done);
    }
    string_of(out.as_slice())
}

// ---------------------------------------------------------------------------
// Tags and title
// ---------------------------------------------------------------------------

/// `tags`
pub open spec fn tags_key() -> Seq<char> {
    seq!['t', 'a', 'g', 's']
}

/// `title`
pub open spec fn title_key() -> Seq<char> {
    seq!['t', 'i', 't', 'l', 'e']
}

/// The tags that the front matter lists under `tags`.
pub fn extract_tags(fm: &FrontValue) -> (r: Vec<String>)
    ensures
        views(r@) == string_list(field(*fm, tags_key())),
{
    proof {
        reveal_strlit("tags");
    }
    let v = fm.get("tags");
    assert("tags"@ =~= tags_key());
    string_items(v)
}

/// What `Path::file_stem` gives for a path written as `p`: the final component
/// without its last extension, if there is a final component.
pub uninterp spec fn path_file_stem(p: Seq<char>) -> Option<Seq<char>>;

/// `Path::file_stem` of the path `id`, as a string. The stem of a path made from a
/// `&str` is valid UTF-8, so its conversion back to `&str` always succeeds.
#[verifier::external_body]
fn file_stem(id: &str) -> (r: Option<String>)
    ensures
        r matches Some(s) ==> path_file_stem(id@) == Some(s@),
        r is None ==> path_file_stem(id@) is None,
{
    std::path::Path::new(id).file_stem().and_then(|s| s.to_str()).map(|s| s.to_string())
}

/// The title of a note: the front matter's `title` when it is a string, else the
/// file stem of its id, else the id.
pub open spec fn title_spec(fm: FrontValue, id: Seq<char>) -> Seq<char> {
    match field(fm, title_key()) {
        Some(FrontValue::Str(t)) => t@,
        _ => match path_file_stem(id) {
            Some(s) => s,
            None => id,
        },
    }
}

/// The title of the note `id` with front matter `fm`.
pub fn extract_title(fm: &FrontValue, id: &str) -> (r: String)
    ensures
        r@ == title_spec(*fm, id@),
{
    proof {
        reveal_strlit("title");
    }
    assert("title"@ =~= title_key());
    match fm.get("title") {
        Some(FrontValue::Str(t)) => {
            return t.clone();
        },
        _ => {},
    }
    match file_stem(id) {
        Some(s) => s,
        None => string_of(chars_of(id).as_slice()),
    }
}

// ---------------------------------------------------------------------------
// Paragraphs
// ---------------------------------------------------------------------------

/// The paragraph separator, a blank line.
pub open spec fn para_sep() -> Seq<char> {
    seq!['\n', '\n']
}

/// The first paragraph among `ps` that, trimmed, is neither empty nor a heading.
pub open spec fn first_para_in(ps: Seq<Seq<char>>) -> Seq<char>
    decreases ps.len(),
{
    if ps.len() == 0 {
        Seq::empty()
    } else {
        let t = trim(ps[0]);
        if t.len() == 0 || t[0] == '#' {
            first_para_in(ps.drop_first())
        } else {
            t
        }
    }
}

/// The first paragraph of a note body: paragraphs are separated by `\n\n`;
/// empty ones and headings are skipped; the result is trimmed.
pub open spec fn first_paragraph_spec(body: Seq<char>) -> Seq<char> {
    first_para_in(split_on(body, para_sep()))
}

/// The first paragraph of `body` (empty when there is none).
pub fn extract_first_paragraph(body: &str) -> (r: String)
    ensures
        r@ == first_paragraph_spec(body@),
{
    let v = chars_of(body);
    let sep = vec!['\n', '\n'];
    assert(sep@ =~= para_sep());
    let mut i: usize = 0;
    loop
        invariant
            i <= v@.len(),
            v@ == body@,
            sep@ == para_sep(),
            first_para_in(split_from(v@, sep@, i as int)) == first_paragraph_spec(v@),
        decreases v@.len() - i,
    {
        let (end, next) = next_piece(&v, &sep, i);
        let (a, b) = trim_bounds(&v, i, end);
        let ghost ps = split_from(v@, sep@, i as int);
        assert(ps[0] == v@.subrange(i as int, end as int));
        if b > a && v[a] != '#' {
            return substring(&v, a, b);
        }
        assert(trim(ps[0]) == v@.subrange(a as int, b as int));
        assert(b > a ==> trim(ps[0])[0] == v@[a as int]);
        assert(first_para_in(ps) == first_para_in(ps.drop_first()));
        match next {
            Some(n) => {
                assert(ps.drop_first() =~= split_from(v@, sep@, n as int));
                i = n;
            },
            None => {
                assert(ps.drop_first() =~= Seq::<Seq<char>>::empty());
                assert(first_para_in(ps.drop_first()) == Seq::<char>::empty());
                return String::new();
            },
        }
    }
}

/// The paragraph (trimmed) of the first among `ps` that contains `needle`.
pub open spec fn context_in(ps: Seq<Seq<char>>, needle: Seq<char>) -> Seq<char>
    decreases ps.len(),
{
    if ps.len() == 0 {
        Seq::empty()
    } else if contains_seq(ps[0], needle) {
        trim(ps[0])
    } else {
        context_in(ps.drop_first(), needle)
    }
}

/// The context of a link to `target` in `body`: the first paragraph that contains
/// `[[target`, trimmed; empty when none does.
pub open spec fn context_spec(target: Seq<char>, body: Seq<char>) -> Seq<char> {
    context_in(split_on(body, para_sep()), seq!['[', '['] + target)
}

/// The paragraph of `body` in which a link to `target_raw` is written.
pub fn find_context(target_raw: &str, body: &str) -> (r: String)
    ensures
        r@ == context_spec(target_raw@, body@),
{
    let v = chars_of(body);
    let t = chars_of(target_raw);
    let mut needle = vec!['[', '['];
    let mut k: usize = 0;
    while k < t.len()
        invariant
            k <= t@.len(),
            t@ == target_raw@,
            needle@ == seq!['[', '['] + t@.subrange(0, k as int),
        decreases t@.len() - k,
    {
        needle.push(t[k]);
        k = k + 1;
    }
    assert(t@.subrange(0, t@.len() as int) =~= t@);
    let sep = vec!['\n', '\n'];
    assert(sep@ =~= para_sep());
    let mut i: usize = 0;
    loop
        invariant
            i <= v@.len(),
            v@ == body@,
            sep@ == para_sep(),
            needle@ == seq!['[', '['] + target_raw@,
            context_in(split_from(v@, sep@, i as int), needle@) == context_spec(
                target_raw@,
                v@,
            ),
        decreases v@.len() - i,
    {
        let (end, next) = next_piece(&v, &sep, i);
        let ghost ps = split_from(v@, sep@, i as int);
        assert(ps[0] == v@.subrange(i as int, end as int));
        if contains_in(&v, i, end, &needle) {
            let (a, b) = trim_bounds(&v, i, end);
            return substring(&v, a, b);
        }
        assert(context_in(ps, needle@) == context_in(ps.drop_first(), needle@));
        match next {
            Some(n) => {
                assert(ps.drop_first() =~= split_from(v@, sep@, n as int));
                i = n;
            },
            None => {
                assert(ps.drop_first() =~= Seq::<Seq<char>>::empty());
                assert(context_in(ps.drop_first(), needle@) == Seq::<char>::empty());
                return String::new();
            },
        }
    }
}

// ---------------------------------------------------------------------------
// Whole notes
// ---------------------------------------------------------------------------

/// What parsing a note's front matter gave: the data, if any, and the text after it.
#[derive(Debug)]
pub struct MatterParse {
    pub data: Option<FrontValue>,
    pub content: String,
}

/// The front matter and body of a note, from its text and the outcome of parsing
/// its front matter: a parsed object is kept (anything else becomes the empty
/// object) with the body the parser gave; a failed parse gives the empty object
/// and the text after the `---` lines.
pub open spec fn split_front(content: Seq<char>, matter: Result<MatterParse, String>) -> (
    Option<FrontValue>,
    Seq<char>,
) {
    match matter {
        Ok(m) => (
            match m.data {
                Some(d) => if d is Object {
                    Some(d)
                } else {
                    None
                },
                None => None,
            },
            m.content@,
        ),
        Err(_) => (None, strip_frontmatter_spec(content)),
    }
}

/// The front matter and body of a note (see `split_front`; `None` stands for the
/// empty object in its first part).
pub fn parse_file_content_from(content: &str, matter: Result<MatterParse, String>) -> (r: (
    FrontValue,
    String,
))
    ensures
        ({
            let (fm, body) = split_front(content@, matter);
            &&& r.1@ == body
            &&& match fm {
                Some(d) => r.0 == d,
                None => r.0 matches FrontValue::Object(es) && es@.len() == 0,
            }
        }),
{
    match matter {
        Ok(m) => {
            let fm = match m.data {
                Some(d) => if d.is_object() {
                    d
                } else {
                    FrontValue::empty_object()
                },
                None => FrontValue::empty_object(),
            };
            (fm, m.content)
        },
        Err(_) => (FrontValue::empty_object(), strip_frontmatter_raw(content)),
    }
}

/// The links of a note, each with its source and context.
pub open spec fn edges_spec(id: Seq<char>, content: Seq<char>, body: Seq<char>) -> Seq<
    (Seq<char>, Seq<char>, Seq<char>),
> {
    wiki_links(content).map_values(
        |l: (Seq<char>, Option<Seq<char>>, Option<Seq<char>>)| (id, l.0, context_spec(l.0, body)),
    )
}

/// The views of a list of edges.
pub open spec fn edges_view(v: Seq<ParsedEdge>) -> Seq<(Seq<char>, Seq<char>, Seq<char>)> {
    v.map_values(|e: ParsedEdge| e@)
}

/// The node and links of the note `id`, from its text and front-matter parse.
/// Links are looked for in the whole text; their context in the body.
pub fn parse_document_from(id: &str, content: &str, matter: Result<MatterParse, String>) -> (r: (
    ParsedNode,
    Vec<ParsedEdge>,
))
    ensures
        ({
            let (fm, body) = split_front(content@, matter);
            let node = r.0;
            &&& node.id@ == id@
            &&& match fm {
                Some(d) => node.frontmatter == d,
                None => node.frontmatter matches FrontValue::Object(es) && es@.len() == 0,
            }
            &&& views(node.tags@) == string_list(field(node.frontmatter, tags_key()))
            &&& node.title@ == title_spec(node.frontmatter, id@)
            &&& node.first_paragraph@ == first_paragraph_spec(body)
            &&& edges_view(r.1@) == edges_spec(id@, content@, body)
        }),
{
    let ghost sf = split_front(content@, matter);
    let (frontmatter, body) = parse_file_content_from(content, matter);
    let tags = extract_tags(&frontmatter);
    let title = extract_title(&frontmatter, id);
    let first_paragraph = extract_first_paragraph(body.as_str());
    let links = extract_wiki_links(content);
    let mut edges: Vec<ParsedEdge> = Vec::new();
    let mut i: usize = 0;
    while i < links.len()
        invariant
            i <= links@.len(),
            links_view(links@) == wiki_links(content@),
            body@ == sf.1,
            edges_view(edges@) == edges_spec(id@, content@, body@).subrange(0, i as int),
        decreases links@.len() - i,
    {
        let target = &links[i].target;
        let context = find_context(target.as_str(), body.as_str());
        let e = ParsedEdge {
            source: string_of(chars_of(id).as_slice()),
            target_raw: target.clone(),
            context,
        };
        let ghost o = edges@;
        edges.push(e);
        proof {
            assert(links_view(links@)[i as int] == links@[i as int]@);
            assert(edges_view(edges@) =~= edges_view(o).push(e@));
            assert(edges_spec(id@, content@, body@).subrange(0, i + 1) =~= edges_spec(
                id@,
                content@,
                body@,
            ).subrange(0, i as int).push(e@));
        }
        i = i + 1;
    }
    assert(edges_spec(id@, content@, body@).subrange(0, links@.len() as int) =~= edges_spec(
        id@,
        content@,
        body@,
    ));
    let node = ParsedNode {
        id: string_of(chars_of(id).as_slice()),
        title,
        tags,
        frontmatter,
        first_paragraph,
    };
    (node, edges)
}

#[verifier::external_type_specification]
#[verifier::external_body]
pub struct ExJsonValue(serde_json::Value);

/// What gray_matter's YAML engine gives for a note's text: `None` when the
/// front matter does not parse; else the front-matter data, if there is any,
/// as a `FrontValue`, and the text after the front matter.
pub uninterp spec fn yaml_front_matter(content: Seq<char>) -> Option<(Option<FrontValue>, Seq<char>)>;

/// A JSON value as a `FrontValue`, variant for variant: numbers keep their JSON
/// text, objects their entries in the map's order.
#[verifier::external_body]
fn front_value_of(v: &serde_json::Value) -> FrontValue {
    match v {
        serde_json::Value::Null => FrontValue::Null,
        serde_json::Value::Bool(b) => FrontValue::Bool(*b),
        serde_json::Value::Number(n) => FrontValue::Number(n.to_string()),
        serde_json::Value::String(s) => FrontValue::Str(s.clone()),
        serde_json::Value::Array(a) => FrontValue::Array(a.iter().map(front_value_of).collect()),
        serde_json::Value::Object(m) => {
            FrontValue::Object(m.iter().map(|(k, x)| (k.clone(), front_value_of(x))).collect())
        },
    }
}

/// `gray_matter::Matter::<YAML>::parse` into `serde_json::Value`: on success
/// the front-matter data (converted to a `FrontValue`) and the text after the
/// front matter; on failure the parser's message. Claimed: the outcome is a
/// function of the text alone.
#[verifier::external_body]
pub(crate) fn front_matter(content: &str) -> (r: Result<(Option<FrontValue>, String), String>)
    ensures
        match r {
            Ok(p) => yaml_front_matter(content@) == Some((p.0, p.1@)),
            Err(_) => yaml_front_matter(content@) is None,
        },
{
    match Matter::<YAML>::new().parse::<serde_json::Value>(content) {
        Ok(entity) => Ok((entity.data.as_ref().map(front_value_of), entity.content)),
        Err(e) => Err(e.to_string()),
    }
}

/// The front matter and body of a note: when the front matter parses, its data
/// is kept if it is an object (the empty object stands for anything else) with
/// the text after the front matter; when it does not, the empty object and the
/// text after the `---` lines.
pub open spec fn front_of(content: Seq<char>) -> (Option<FrontValue>, Seq<char>) {
    match yaml_front_matter(content) {
        Some((data, body)) => (
            match data {
                Some(d) => if d is Object {
                    Some(d)
                } else {
                    None
                },
                None => None,
            },
            body,
        ),
        None => (None, strip_frontmatter_spec(content)),
    }
}

/// The outcome of parsing a note's front matter.
fn parse_matter(content: &str) -> (r: Result<MatterParse, String>)
    ensures
        split_front(content@, r) == front_of(content@),
{
    match front_matter(content) {
        Ok((data, body)) => Ok(MatterParse { data, content: body }),
        Err(e) => Err(e),
    }
}

/// The front matter and body of a note (see `front_of`; `None` stands for the
/// empty object in its first part).
pub fn parse_file_content(content: &str) -> (r: (FrontValue, String))
    ensures
        ({
            let (fm, body) = front_of(content@);
            &&& r.1@ == body
            &&& match fm {
                Some(d) => r.0 == d,
                None => r.0 matches FrontValue::Object(es) && es@.len() == 0,
            }
        }),
{
    let matter = parse_matter(content);
    parse_file_content_from(content, matter)
}

/// The node and links of the note `id`, from its text. Links are looked for in
/// the whole text; their context in the body.
pub fn parse_document(id: &str, content: &str) -> (r: (ParsedNode, Vec<ParsedEdge>))
    ensures
        ({
            let (fm, body) = front_of(content@);
            let node = r.0;
            &&& node.id@ == id@
            &&& match fm {
                Some(d) => node.frontmatter == d,
                None => node.frontmatter matches FrontValue::Object(es) && es@.len() == 0,
            }
            &&& views(node.tags@) == string_list(field(node.frontmatter, tags_key()))
            &&& node.title@ == title_spec(node.frontmatter, id@)
            &&& node.first_paragraph@ == first_paragraph_spec(body)
            &&& edges_view(r.1@) == edges_spec(id@, content@, body)
        }),
{
    let matter = parse_matter(content);
    parse_document_from(id, content, matter)
}

// ---------------------------------------------------------------------------
// Laws on paragraphs and link contexts
// ---------------------------------------------------------------------------

proof fn lemma_trim_start_shape(s: Seq<char>)
    ensures
        trim_start(s).len() > 0 ==> !is_white(trim_start(s)[0]),
        forall|p: Seq<char>, i: int|
            #[trigger] occurs_at(s, p, i) && p.len() > 0 && !is_white(p[0]) ==> contains_seq(
                trim_start(s),
                p,
            ),
    decreases s.len(),
{
    if s.len() > 0 && is_white(s[0]) {
        lemma_trim_start_shape(s.drop_first());
        assert forall|p: Seq<char>, i: int|
            #[trigger] occurs_at(s, p, i) && p.len() > 0 && !is_white(p[0]) implies contains_seq(
                trim_start(s),
                p,
            ) by {
            if i == 0 {
                assert(s.subrange(0, p.len() as int)[0] == s[0]);
            }
            assert(s.drop_first().subrange(i - 1, i - 1 + p.len()) =~= s.subrange(i, i + p.len()));
            assert(occurs_at(s.drop_first(), p, i - 1));
        }
    } else {
        assert forall|p: Seq<char>, i: int|
            #[trigger] occurs_at(s, p, i) && p.len() > 0 && !is_white(p[0]) implies contains_seq(
                trim_start(s),
                p,
            ) by {
            assert(occurs_at(trim_start(s), p, i));
        }
    }
}

proof fn lemma_trim_end_shape(s: Seq<char>)
    ensures
        s.len() > 0 && !is_white(s[0]) ==> trim_end(s).len() > 0,
        forall|p: Seq<char>, i: int|
            #[trigger] occurs_at(s, p, i) && p.len() > 0 && !is_white(p.last()) ==> contains_seq(
                trim_end(s),
                p,
            ),
    decreases s.len(),
{
    if s.len() > 0 && is_white(s.last()) {
        lemma_trim_end_shape(s.drop_last());
        if s.len() > 0 && !is_white(s[0]) {
            assert(s.len() > 1);
            assert(s.drop_last()[0] == s[0]);
        }
        assert forall|p: Seq<char>, i: int|
            #[trigger] occurs_at(s, p, i) && p.len() > 0 && !is_white(p.last()) implies contains_seq(
                trim_end(s),
                p,
            ) by {
            if i + p.len() == s.len() {
                assert(s.subrange(i, i + p.len())[p.len() - 1] == s.last());
            }
            assert(s.drop_last().subrange(i, i + p.len()) =~= s.subrange(i, i + p.len()));
            assert(occurs_at(s.drop_last(), p, i));
        }
    } else {
        assert forall|p: Seq<char>, i: int|
            #[trigger] occurs_at(s, p, i) && p.len() > 0 && !is_white(p.last()) implies contains_seq(
                trim_end(s),
                p,
            ) by {
            assert(occurs_at(trim_end(s), p, i));
        }
    }
}

/// A piece that holds `needle` (which starts with a non-blank character) is
/// not blank once trimmed, and keeps `needle` when it also ends with one.
proof fn lemma_trim_keeps(s: Seq<char>, needle: Seq<char>)
    requires
        contains_seq(s, needle),
        needle.len() > 0,
        !is_white(needle[0]),
    ensures
        trim(s).len() > 0,
        !is_white(needle.last()) ==> contains_seq(trim(s), needle),
{
    let i = choose|i: int| occurs_at(s, needle, i);
    lemma_trim_start_shape(s);
    assert(contains_seq(trim_start(s), needle));
    let ts = trim_start(s);
    let j = choose|j: int| occurs_at(ts, needle, j);
    assert(ts.len() > 0);
    lemma_trim_end_shape(ts);
}

proof fn lemma_context_in(ps: Seq<Seq<char>>, needle: Seq<char>)
    requires
        needle.len() > 0,
        !is_white(needle[0]),
    ensures
        (context_in(ps, needle).len() == 0) <==> forall|k: int|
            0 <= k < ps.len() ==> !contains_seq(#[trigger] ps[k], needle),
        context_in(ps, needle).len() > 0 ==> exists|k: int|
            0 <= k < ps.len() && context_in(ps, needle) == trim(#[trigger] ps[k]) && contains_seq(
                ps[k],
                needle,
            ) && forall|j: int| 0 <= j < k ==> !contains_seq(#[trigger] ps[j], needle),
        context_in(ps, needle).len() > 0 && !is_white(needle.last()) ==> contains_seq(
            context_in(ps, needle),
            needle,
        ),
    decreases ps.len(),
{
    if ps.len() > 0 {
        if contains_seq(ps[0], needle) {
            lemma_trim_keeps(ps[0], needle);
        } else {
            let rest = ps.drop_first();
            lemma_context_in(rest, needle);
            assert forall|k: int| 0 <= k < rest.len() implies rest[k] == ps[k + 1] by {}
            if context_in(ps, needle).len() == 0 {
                assert forall|k: int| 0 <= k < ps.len() implies !contains_seq(#[trigger] ps[k], needle) by {
                    if k > 0 {
                        assert(rest[k - 1] == ps[k]);
                    }
                }
            } else {
                let k = choose|k: int|
                    0 <= k < rest.len() && context_in(rest, needle) == trim(#[trigger] rest[k])
                        && contains_seq(rest[k], needle) && forall|j: int|
                        0 <= j < k ==> !contains_seq(#[trigger] rest[j], needle);
                assert(ps[k + 1] == rest[k]);
                assert forall|j: int| 0 <= j < k + 1 implies !contains_seq(#[trigger] ps[j], needle) by {
                    if j > 0 {
                        assert(rest[j - 1] == ps[j]);
                    }
                }
            }
            if forall|k: int| 0 <= k < ps.len() ==> !contains_seq(#[trigger] ps[k], needle) {
                assert forall|k: int| 0 <= k < rest.len() implies !contains_seq(#[trigger] rest[k], needle) by {
                    assert(rest[k] == ps[k + 1]);
                }
            }
        }
    }
}

/// The context of a link to `target` is the first paragraph of the body (the
/// pieces between blank lines, `\n\n`) in which `[[target` is written, trimmed;
/// it is empty exactly when no paragraph holds `[[target`, and it holds
/// `[[target` itself unless the target ends with whitespace.
pub proof fn lemma_context_paragraph(target: Seq<char>, body: Seq<char>)
    ensures
        ({
            let needle = seq!['[', '['] + target;
            let ps = split_on(body, seq!['\n', '\n']);
            let c = context_spec(target, body);
            &&& (c.len() == 0) <==> forall|k: int| 0 <= k < ps.len() ==> !contains_seq(#[trigger] ps[k], needle)
            &&& c.len() > 0 ==> exists|k: int|
                0 <= k < ps.len() && c == trim(#[trigger] ps[k]) && contains_seq(ps[k], needle)
                    && forall|j: int| 0 <= j < k ==> !contains_seq(#[trigger] ps[j], needle)
            &&& c.len() > 0 && (target.len() == 0 || !is_white(target.last())) ==> contains_seq(c, needle)
        }),
{
    let needle = seq!['[', '['] + target;
    assert(para_sep() =~= seq!['\n', '\n']);
    assert(needle[0] == '[');
    assert(!is_white('['));
    if target.len() > 0 {
        assert(needle.last() == target.last());
    } else {
        assert(needle.last() == '[');
    }
    lemma_context_in(split_on(body, para_sep()), needle);
}

/// A body without a blank line is one paragraph: unless it is blank or a
/// heading, its first paragraph is the whole body, trimmed.
pub proof fn lemma_first_paragraph_single(body: Seq<char>)
    requires
        !contains_seq(body, seq!['\n', '\n']),
        trim(body).len() > 0,
        trim(body)[0] != '#',
    ensures
        first_paragraph_spec(body) == trim(body),
{
    let p = seq!['\n', '\n'];
    assert(para_sep() =~= p);
    lemma_next_occ(body, p, 0);
    if next_occ(body, p, 0) < body.len() {
        assert(occurs_at(body, p, next_occ(body, p, 0)));
    }
    assert(body.subrange(0, body.len() as int) =~= body);
    let ps = split_on(body, p);
    assert(ps =~= seq![body]);
    assert(ps.drop_first() =~= Seq::<Seq<char>>::empty());
}

/// The first paragraph is the trim of one whole piece between blank lines
/// (`\n\n`): the first that is neither blank nor a heading; it is empty when
/// every piece is blank or a heading.
pub proof fn lemma_first_paragraph_piece(body: Seq<char>)
    ensures
        ({
            let ps = split_on(body, seq!['\n', '\n']);
            let r = first_paragraph_spec(body);
            ||| (r.len() == 0 && forall|k: int|
                0 <= k < ps.len() ==> trim(#[trigger] ps[k]).len() == 0 || trim(ps[k])[0] == '#')
            ||| exists|k: int|
                0 <= k < ps.len() && r == trim(#[trigger] ps[k]) && r.len() > 0 && r[0] != '#'
                    && forall|j: int|
                    0 <= j < k ==> trim(#[trigger] ps[j]).len() == 0 || trim(ps[j])[0] == '#'
        }),
{
    assert(para_sep() =~= seq!['\n', '\n']);
    lemma_first_para_in(split_on(body, para_sep()));
}

proof fn lemma_first_para_in(ps: Seq<Seq<char>>)
    ensures
        ({
            let r = first_para_in(ps);
            ||| (r.len() == 0 && forall|k: int|
                0 <= k < ps.len() ==> trim(#[trigger] ps[k]).len() == 0 || trim(ps[k])[0] == '#')
            ||| exists|k: int|
                0 <= k < ps.len() && r == trim(#[trigger] ps[k]) && r.len() > 0 && r[0] != '#'
                    && forall|j: int|
                    0 <= j < k ==> trim(#[trigger] ps[j]).len() == 0 || trim(ps[j])[0] == '#'
        }),
    decreases ps.len(),
{
    if ps.len() > 0 {
        let t = trim(ps[0]);
        if !(t.len() == 0 || t[0] == '#') {
            assert(first_para_in(ps) == trim(ps[0]));
        } else {
            let rest = ps.drop_first();
            lemma_first_para_in(rest);
            let r = first_para_in(rest);
            if r.len() == 0 && forall|k: int|
                0 <= k < rest.len() ==> trim(#[trigger] rest[k]).len() == 0 || trim(rest[k])[0] == '#' {
                assert forall|k: int| 0 <= k < ps.len() implies trim(#[trigger] ps[k]).len() == 0 || trim(ps[k])[0] == '#' by {
                    if k > 0 {
                        assert(rest[k - 1] == ps[k]);
                    }
                }
            } else {
                let k = choose|k: int|
                    0 <= k < rest.len() && r == trim(#[trigger] rest[k]) && r.len() > 0 && r[0] != '#'
                        && forall|j: int|
                        0 <= j < k ==> trim(#[trigger] rest[j]).len() == 0 || trim(rest[j])[0] == '#';
                assert(ps[k + 1] == rest[k]);
                assert forall|j: int| 0 <= j < k + 1 implies trim(#[trigger] ps[j]).len() == 0 || trim(ps[j])[0] == '#' by {
                    if j > 0 {
                        assert(rest[j - 1] == ps[j]);
                    }
                }
            }
        }
    }
}

} // verus!
