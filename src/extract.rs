use vstd::prelude::*;
use vstd::string::*;
use crate::node::{Handle, Node, attr_value, is_none_name, same_str};
use crate::dom::Dom;
use crate::document::Document;
use crate::render::{RenderNodeData, Vision};
use crate::traverse::{SkipRule, NoSkip, NoneTagSkip, skip_fn, pre_kids, descendants_text_spec, children_text_spec, lemma_pre_kids_valid};
use crate::lookup::{first_elem, first_ld_json, spec_head, spec_body};

verus! {

/// The fields extracted from a rendered article page.
pub struct Feature {
    pub url: String,
    pub title: String,
    pub image: String,
    pub content: String,
    pub feature: String,
}

impl Feature {
    pub fn new() -> (r: Feature)
        ensures
            r.url@ == Seq::<char>::empty(),
            r.title@ == Seq::<char>::empty(),
            r.image@ == Seq::<char>::empty(),
            r.content@ == Seq::<char>::empty(),
            r.feature@ == Seq::<char>::empty(),
    {
        Feature { url: String::new(), title: String::new(), image: String::new(), content: String::new(), feature: String::new() }
    }
}

/// `s` with every run of spaces shortened to a single space.
pub open spec fn collapse_spec(s: Seq<char>) -> Seq<char>
    decreases s.len(),
{
    if s.len() == 0 {
        s
    } else if s.len() >= 2 && s.last() == ' ' && s[s.len() - 2] == ' ' {
        collapse_spec(s.drop_last())
    } else {
        collapse_spec(s.drop_last()).push(s.last())
    }
}

/// Unicode White_Space.
pub open spec fn is_white(c: char) -> bool {
    c == '\t' || ('\n' <= c && c <= '\r') || c == ' ' || c == '\u{85}' || c == '\u{a0}' || c == '\u{1680}'
        || ('\u{2000}' <= c && c <= '\u{200a}') || c == '\u{2028}' || c == '\u{2029}' || c == '\u{202f}'
        || c == '\u{205f}' || c == '\u{3000}'
}

pub open spec fn trim_start_spec(s: Seq<char>) -> Seq<char>
    decreases s.len(),
{
    if s.len() > 0 && is_white(s[0]) {
        trim_start_spec(s.drop_first())
    } else {
        s
    }
}

pub open spec fn trim_end_spec(s: Seq<char>) -> Seq<char>
    decreases s.len(),
{
    if s.len() > 0 && is_white(s.last()) {
        trim_end_spec(s.drop_last())
    } else {
        s
    }
}

/// `s` without leading and trailing white space.
pub open spec fn trim_spec(s: Seq<char>) -> Seq<char> {
    trim_end_spec(trim_start_spec(s))
}

/// Decimal digits of `n`.
pub open spec fn nat_text(n: nat) -> Seq<char>
    decreases n,
{
    if n < 10 {
        seq![('0' as int + n) as char]
    } else {
        nat_text(n / 10).push(('0' as int + n % 10) as char)
    }
}

/// Decimal form of `v`, with `-` when negative.
pub open spec fn int_text_spec(v: int) -> Seq<char> {
    if v < 0 {
        seq!['-'] + nat_text((-v) as nat)
    } else {
        nat_text(v as nat)
    }
}

/// Whether `c` has the Unicode Uppercase property.
pub uninterp spec fn is_upper(c: char) -> bool;

/// The string at member `inner` of the object at member `outer` of the JSON
/// document `s`, if the text is JSON and holds such a string.
pub uninterp spec fn json_str_at(s: Seq<char>, outer: Seq<char>, inner: Seq<char>) -> Option<Seq<char>>;

/// Relies on regex's `Regex::replace_all` with the pattern ` +` and the
/// replacement ` `: each maximal run of spaces becomes one space.
#[verifier::external_body]
fn collapse_spaces(s: &str) -> (r: String)
    ensures
        r@ == collapse_spec(s@),
{
    regex::Regex::new(" +").unwrap().replace_all(s, " ").to_string()
}

fn is_white_char(c: char) -> (r: bool)
    ensures
        r == is_white(c),
{
    c == '\t' || ('\n' <= c && c <= '\r') || c == ' ' || c == '\u{85}' || c == '\u{a0}' || c == '\u{1680}'
        || ('\u{2000}' <= c && c <= '\u{200a}') || c == '\u{2028}' || c == '\u{2029}' || c == '\u{202f}'
        || c == '\u{205f}' || c == '\u{3000}'
}

/// `s` without leading and trailing white space.
pub fn trim(s: &str) -> (r: String)
    ensures
        r@ == trim_spec(s@),
{
    let n = s.unicode_len();
    let mut a: usize = 0;
    proof {
        assert(s@.subrange(0, n as int) == s@);
    }
    while a < n && is_white_char(s.get_char(a))
        invariant
            n == s@.len(),
            a <= n,
            trim_start_spec(s@) == trim_start_spec(s@.subrange(a as int, n as int)),
        decreases n - a,
    {
        proof {
            assert(s@.subrange(a as int, n as int).drop_first() == s@.subrange(a + 1 as int, n as int));
        }
        a += 1;
    }
    let ghost front = s@.subrange(a as int, n as int);
    proof {
        assert(trim_start_spec(s@) == front);
    }
    let mut b: usize = n;
    while b > a && is_white_char(s.get_char(b - 1))
        invariant
            n == s@.len(),
            a <= b <= n,
            front == s@.subrange(a as int, n as int),
            trim_end_spec(front) == trim_end_spec(s@.subrange(a as int, b as int)),
        decreases b - a,
    {
        proof {
            assert(s@.subrange(a as int, b as int).drop_last() == s@.subrange(a as int, b - 1 as int));
            assert(s@.subrange(a as int, b as int).last() == s@[b - 1]);
        }
        b -= 1;
    }
    proof {
        if b > a {
            assert(s@.subrange(a as int, b as int).last() == s@[b - 1]);
        }
    }
    s.substring_char(a, b).to_owned()
}

/// Relies on `char::is_uppercase`.
#[verifier::external_body]
fn char_is_uppercase(c: char) -> (r: bool)
    ensures
        r == is_upper(c),
{
    c.is_uppercase()
}

/// Relies on the `Display` of `i32`: decimal digits, `-` when negative.
#[verifier::external_body]
fn int_text(v: i32) -> (r: String)
    ensures
        r@ == int_text_spec(v as int),
{
    v.to_string()
}

/// Relies on `serde_json::from_str::<Value>`, `Value::get` (twice) and
/// `Value::as_str`: the result depends on the three texts alone.
#[verifier::external_body]
fn json_string_member(s: &str, outer: &str, inner: &str) -> (r: Option<String>)
    ensures
        opt_string_view(r) == json_str_at(s@, outer@, inner@),
{
    let v: serde_json::Value = serde_json::from_str(s).ok()?;
    v.get(outer)?.get(inner)?.as_str().map(str::to_string)
}

/// `p` occurs in `s`.
pub open spec fn has_sub(s: Seq<char>, p: Seq<char>) -> bool {
    exists|i: int| 0 <= i && i + p.len() <= s.len() && #[trigger] s.subrange(i, i + p.len()) == p
}

pub fn contains_str(s: &str, p: &str) -> (r: bool)
    ensures
        r == has_sub(s@, p@),
{
    let n = s.unicode_len();
    let m = p.unicode_len();
    if m > n {
        return false;
    }
    let mut i: usize = 0;
    loop
        invariant
            n == s@.len(),
            m == p@.len(),
            m <= n,
            i <= n - m,
            forall|j: int| 0 <= j < i ==> #[trigger] s@.subrange(j, j + m) != p@,
        decreases n - m - i,
    {
        if same_str(s.substring_char(i, i + m), p) {
            return true;
        }
        if i == n - m {
            return false;
        }
        i += 1;
    }
}

pub open spec fn has_upper(t: Seq<char>) -> bool {
    exists|i: int| 0 <= i < t.len() && is_upper(#[trigger] t[i])
}

fn any_upper(t: &str) -> (r: bool)
    ensures
        r == has_upper(t@),
{
    let n = t.unicode_len();
    let mut i: usize = 0;
    while i < n
        invariant
            n == t@.len(),
            i <= n,
            forall|j: int| 0 <= j < i ==> !is_upper(#[trigger] t@[j]),
        decreases n - i,
    {
        if char_is_uppercase(t.get_char(i)) {
            return true;
        }
        i += 1;
    }
    false
}

pub open spec fn is_rubbish_class(c: Option<Seq<char>>) -> bool {
    c matches Some(t) && (has_sub(t, "featured-video"@) || has_sub(t, "speechkit-wrapper"@) || has_sub(t, "image-ct"@))
}

/// A link whose first child is a `strong` element with text holding an
/// upper-case letter.
pub open spec fn is_strong_link<ND>(dom: &Dom<ND>, n: Handle) -> bool {
    let cs = dom.children_of(n);
    &&& dom.node(n).spec_tag_name() == "a"@
    &&& cs.len() > 0
    &&& dom.node(cs[0]) is Element
    &&& dom.node(cs[0]).spec_tag_name() == "strong"@
    &&& has_upper(descendants_text_spec(dom, skip_fn(dom, &NoneTagSkip), cs[0]))
}

/// Leaves out of an article's text: non-rendering elements, media and audio
/// widgets, and emphasised links.
pub struct ContentSkip;

impl<ND> SkipRule<ND> for ContentSkip {
    open spec fn skips(&self, dom: &Dom<ND>, n: Handle) -> bool {
        let node = dom.node(n);
        &&& node is Element
        &&& (is_none_name(node.spec_tag_name()) || is_rubbish_class(attr_value(node.spec_attrs(), "class"@))
            || is_strong_link(dom, n))
    }

    fn skip(&self, dom: &Dom<ND>, n: Handle) -> (r: bool) {
        let node = dom.get(n);
        if !node.is_element_node() {
            return false;
        }
        if node.is_none_tag() {
            return true;
        }
        if let Some(c) = node.attr("class") {
            let c = c.as_str();
            if contains_str(c, "featured-video") || contains_str(c, "speechkit-wrapper") || contains_str(c, "image-ct") {
                return true;
            }
        }
        let tag = node.tag_name();
        if same_str(tag.as_str(), "a") {
            if let Some(f) = dom.first_child(n) {
                proof {
                    assert(dom.node_wf(n));
                    assert(dom.kid_wf(n, 0));
                }
                let child = dom.get(f);
                if child.is_element_node() {
                    let ct = child.tag_name();
                    if same_str(ct.as_str(), "strong") {
                        let text = dom.descendants_text(f);
                        return any_upper(text.as_str());
                    }
                }
            }
        }
        false
    }
}

pub open spec fn is_article_class(c: Option<Seq<char>>) -> bool {
    c matches Some(t) && has_sub(t, "article-body"@)
}

/// The first element among `ids` whose class names `article-body`.
pub open spec fn first_article<ND>(dom: &Dom<ND>, ids: Seq<Handle>) -> Option<Handle>
    decreases ids.len(),
{
    if ids.len() == 0 {
        None
    } else if dom.node(ids[0]) is Element && is_article_class(attr_value(dom.node(ids[0]).spec_attrs(), "class"@)) {
        Some(ids[0])
    } else {
        first_article(dom, ids.drop_first())
    }
}

pub open spec fn title_of<ND>(dom: &Dom<ND>, d: Handle) -> Option<Seq<char>> {
    match spec_head(dom, d) {
        Some(h) => match first_elem(dom, dom.children_of(h), Some("title"@)) {
            Some(t) => Some(collapse_spec(children_text_spec(dom, t))),
            None => None,
        },
        None => None,
    }
}

pub open spec fn content_of<ND>(dom: &Dom<ND>, d: Handle) -> Option<Seq<char>> {
    match spec_body(dom, d) {
        Some(b) => {
            let node = match first_article(dom, pre_kids(dom, skip_fn(dom, &NoSkip), b, 0)) {
                Some(m) => m,
                None => b,
            };
            Some(trim_spec(collapse_spec(descendants_text_spec(dom, skip_fn(dom, &ContentSkip), node))))
        },
        None => None,
    }
}

pub open spec fn vision_text(v: Vision) -> Seq<char> {
    int_text_spec(v.width as int) + seq![':'] + int_text_spec(v.height as int) + seq![':'] + int_text_spec(v.xpos as int)
        + seq![':'] + int_text_spec(v.ypos as int) + seq![':'] + int_text_spec(v.visible as int)
}

pub open spec fn feature_of(dom: &Dom<RenderNodeData>, d: Handle) -> Option<Seq<char>> {
    match spec_body(dom, d) {
        Some(b) => Some(vision_text(dom.node(b).spec_data().vision)),
        None => None,
    }
}

/// The JSON-LD text in the head, if any.
pub open spec fn ld_json_of<ND>(dom: &Dom<ND>, d: Handle) -> Option<Seq<char>> {
    match spec_head(dom, d) {
        Some(h) => match first_ld_json(dom, dom.children_of(h)) {
            Some(t) => Some(children_text_spec(dom, t)),
            None => None,
        },
        None => None,
    }
}

fn has_head<ND>(dom: &Dom<ND>, d: Handle) -> (r: bool)
    requires
        dom.wf(),
        dom.valid(d),
    ensures
        r == spec_head(dom, d) is Some,
{
    let top = dom.document_node(d);
    match dom.first_element_child(top, None) {
        Some(root) => dom.first_element_child(root, Some("head")).is_some(),
        None => false,
    }
}

fn has_body<ND>(dom: &Dom<ND>, d: Handle) -> (r: bool)
    requires
        dom.wf(),
        dom.valid(d),
    ensures
        r == spec_body(dom, d) is Some,
{
    let top = dom.document_node(d);
    match dom.first_element_child(top, None) {
        Some(root) => dom.first_element_child(root, Some("body")).is_some(),
        None => false,
    }
}

/// The page title with runs of spaces collapsed.
pub fn find_title<ND>(dom: &Dom<ND>, d: Handle) -> (r: Option<String>)
    requires
        dom.wf(),
        dom.valid(d),
    ensures
        opt_string_view(r) == title_of(dom, d),
{
    if !has_head(dom, d) {
        return None;
    }
    match dom.title(d) {
        Some(t) => Some(collapse_spaces(t.as_str())),
        None => None,
    }
}

pub open spec fn opt_string_view(o: Option<String>) -> Option<Seq<char>> {
    match o {
        Some(s) => Some(s@),
        None => None,
    }
}

/// The lead image URL of the page's JSON-LD, at `image.url`.
pub open spec fn image_of<ND>(dom: &Dom<ND>, d: Handle) -> Option<Seq<char>> {
    match ld_json_of(dom, d) {
        Some(t) => json_str_at(t, "image"@, "url"@),
        None => None,
    }
}

/// The lead image URL: the `url` of the `image` object in the page's
/// JSON-LD.
pub fn find_image<ND>(dom: &Dom<ND>, d: Handle) -> (r: Option<String>)
    requires
        dom.wf(),
        dom.valid(d),
    ensures
        opt_string_view(r) == image_of(dom, d),
{
    if !has_head(dom, d) {
        return None;
    }
    match dom.ld_json(d) {
        Some(t) => json_string_member(t.as_str(), "image", "url"),
        None => None,
    }
}

/// The first element under `b`, in pre-order, whose class names
/// `article-body`.
fn find_article<ND>(dom: &Dom<ND>, b: Handle) -> (r: Option<Handle>)
    requires
        dom.wf(),
        dom.valid(b),
    ensures
        r == first_article(dom, pre_kids(dom, skip_fn(dom, &NoSkip), b, 0)),
        r matches Some(m) ==> dom.valid(m),
{
    let ids = dom.descendants(b);
    let mut i: usize = 0;
    proof {
        assert(ids@.skip(0) == ids@);
        lemma_pre_kids_valid(dom, skip_fn(dom, &NoSkip), b, 0);
    }
    while i < ids.len()
        invariant
            dom.wf(),
            0 <= i <= ids@.len(),
            first_article(dom, ids@.skip(i as int)) == first_article(dom, ids@),
            ids@ == pre_kids(dom, skip_fn(dom, &NoSkip), b, 0),
            forall|j: int| 0 <= j < ids@.len() ==> dom.valid(#[trigger] ids@[j]),
        decreases ids@.len() - i,
    {
        proof {
            assert(ids@.skip(i as int).drop_first() == ids@.skip(i + 1 as int));
            assert(ids@.skip(i as int)[0] == ids@[i as int]);
        }
        let k = ids[i];
        let node = dom.get(k);
        if node.is_element_node() {
            if let Some(c) = node.attr("class") {
                if contains_str(c.as_str(), "article-body") {
                    return Some(k);
                }
            }
        }
        i += 1;
    }
    proof {
        assert(ids@.skip(ids@.len() as int) == Seq::<Handle>::empty());
    }
    None
}

/// The article text: the text of the article-body element (else of the
/// body), without skipped parts, runs of spaces collapsed, trimmed.
pub fn find_content<ND>(dom: &Dom<ND>, d: Handle) -> (r: Option<String>)
    requires
        dom.wf(),
        dom.valid(d),
    ensures
        opt_string_view(r) == content_of(dom, d),
{
    if !has_body(dom, d) {
        return None;
    }
    let body = dom.body(d);
    let node = match find_article(dom, body) {
        Some(m) => m,
        None => body,
    };
    let text = dom.descendants_text_skip(node, &ContentSkip);
    let collapsed = collapse_spaces(text.as_str());
    Some(trim(collapsed.as_str()))
}

fn push_str(s: &mut String, t: &str)
    ensures
        final(s)@ == old(s)@ + t@,
{
    s.append(t);
}

/// The body's vision record as `width:height:xpos:ypos:visible`.
pub fn find_feature(dom: &Dom<RenderNodeData>, d: Handle) -> (r: Option<String>)
    requires
        dom.wf(),
        dom.valid(d),
    ensures
        opt_string_view(r) == feature_of(dom, d),
{
    if !has_body(dom, d) {
        return None;
    }
    let body = dom.body(d);
    let v = dom.get(body).custom_node_data().vision;
    proof {
        reveal_strlit(":");
    }
    let mut s = int_text(v.width);
    push_str(&mut s, ":");
    push_str(&mut s, int_text(v.height).as_str());
    push_str(&mut s, ":");
    push_str(&mut s, int_text(v.xpos).as_str());
    push_str(&mut s, ":");
    push_str(&mut s, int_text(v.ypos).as_str());
    push_str(&mut s, ":");
    push_str(&mut s, int_text(v.visible).as_str());
    Some(s)
}

/// Extracts the feature of a rendered page. Fails with `not found title`
/// when the head has no title, else with `not found content` when there is
/// no body.
pub fn parse_html(url: String, doc: &Document<RenderNodeData>) -> (r: Result<Feature, String>)
    requires
        doc.wf(),
    ensures
        r is Ok <==> (title_of(&doc.dom, doc.document) is Some && content_of(&doc.dom, doc.document) is Some),
        r matches Ok(f) ==> {
            &&& f.url == url
            &&& title_of(&doc.dom, doc.document) == Some(f.title@)
            &&& content_of(&doc.dom, doc.document) == Some(f.content@)
            &&& feature_of(&doc.dom, doc.document) == Some(f.feature@)
            &&& f.image@ == match image_of(&doc.dom, doc.document) {
                Some(u) => u,
                None => Seq::<char>::empty(),
            }
        },
        r matches Err(e) ==> (title_of(&doc.dom, doc.document) is None && e@ == "not found title"@)
            || (title_of(&doc.dom, doc.document) is Some && content_of(&doc.dom, doc.document) is None
            && e@ == "not found content"@),
{
    let dom = &doc.dom;
    let d = doc.document;
    let title = match find_title(dom, d) {
        Some(t) => t,
        None => { return Err(String::from_str("not found title")); },
    };
    let image = match find_image(dom, d) {
        Some(i) => i,
        None => String::new(),
    };
    let content = match find_content(dom, d) {
        Some(c) => c,
        None => { return Err(String::from_str("not found content")); },
    };
    let feature = match find_feature(dom, d) {
        Some(f) => f,
        None => { return Err(String::from_str("not found content")); },
    };
    Ok(Feature { url, title, image, content, feature })
}

} // verus!
