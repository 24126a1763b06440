use vstd::prelude::*;
use vstd::string::*;

verus! {

/// Index of a node in its `Dom` arena.
pub type Handle = usize;

/// A qualified element or attribute name, held as plain strings.
pub struct QualName {
    pub prefix: Option<String>,
    pub ns: String,
    pub local: String,
}

/// One attribute of an element.
pub struct Attribute {
    pub name: QualName,
    pub value: String,
}

/// Navigation links of one node. `first_child` and `next_sibling` are the
/// downward/forward edges; `parent`, `prev_sibling` and `last_child` are the
/// back-references.
#[derive(Clone, Copy)]
pub struct NodeData {
    pub parent: Option<Handle>,
    pub prev_sibling: Option<Handle>,
    pub next_sibling: Option<Handle>,
    pub first_child: Option<Handle>,
    pub last_child: Option<Handle>,
}

impl NodeData {
    pub open spec fn is_empty(&self) -> bool {
        &&& self.parent is None
        &&& self.prev_sibling is None
        &&& self.next_sibling is None
        &&& self.first_child is None
        &&& self.last_child is None
    }

    pub fn new() -> (r: NodeData)
        ensures
            r.is_empty(),
    {
        NodeData {
            parent: None,
            prev_sibling: None,
            next_sibling: None,
            first_child: None,
            last_child: None,
        }
    }
}

/// The variants of a tree node. `data` is the caller-supplied payload.
#[allow(inconsistent_fields)]
pub enum Node<ND> {
    Text { data: ND, text: String },
    Comment { data: ND, text: String },
    Element { data: ND, name: QualName, attrs: Vec<Attribute>, template_contents: Option<Handle> },
    Document { data: ND },
    DocType { data: ND, name: String, public_id: String, system_id: String },
}

/// Two qualified names denote the same name.
pub open spec fn same_qual_name(a: QualName, b: QualName) -> bool {
    &&& a.ns@ == b.ns@
    &&& a.local@ == b.local@
    &&& match (a.prefix, b.prefix) {
        (None, None) => true,
        (Some(x), Some(y)) => x@ == y@,
        _ => false,
    }
}

/// The printed form of a qualified name: `prefix:local`, or `local` alone.
pub open spec fn qual_name_text(n: QualName) -> Seq<char> {
    match n.prefix {
        None => n.local@,
        Some(p) => p@ + seq![':'] + n.local@,
    }
}

/// Tag names that the text helpers treat as inline content.
pub open spec fn is_inline_name(t: Seq<char>) -> bool {
    t == "a"@ || t == "abbr"@ || t == "acronym"@ || t == "b"@ || t == "bdo"@ || t == "big"@
        || t == "br"@ || t == "button"@ || t == "cite"@ || t == "code"@ || t == "dfn"@
        || t == "em"@ || t == "i"@ || t == "img"@ || t == "input"@ || t == "kbd"@
        || t == "label"@ || t == "map"@ || t == "object"@ || t == "output"@ || t == "q"@
        || t == "samp"@ || t == "script"@ || t == "select"@ || t == "small"@ || t == "span"@
        || t == "strong"@ || t == "sub"@ || t == "sup"@ || t == "textarea"@ || t == "time"@
        || t == "tt"@ || t == "u"@ || t == "var"@
}

/// Tag names of elements that render no text.
pub open spec fn is_none_name(t: Seq<char>) -> bool {
    t == "script"@ || t == "style"@
}

pub open spec fn opt_view(o: Option<String>) -> Option<Seq<char>> {
    match o {
        Some(s) => Some(s@),
        None => None,
    }
}

/// Index of the first attribute at or after `i` whose local name is `name`,
/// or the length of `attrs` when there is none.
pub open spec fn attr_pos(attrs: Seq<Attribute>, name: Seq<char>, i: int) -> int
    decreases attrs.len() - i,
{
    if i >= attrs.len() {
        attrs.len() as int
    } else if attrs[i].name.local@ == name {
        i
    } else {
        attr_pos(attrs, name, i + 1)
    }
}

/// The value of the first attribute whose local name is `name`.
pub open spec fn attr_value(attrs: Seq<Attribute>, name: Seq<char>) -> Option<Seq<char>> {
    let k = attr_pos(attrs, name, 0);
    if 0 <= k < attrs.len() {
        Some(attrs[k].value@)
    } else {
        None
    }
}

pub open spec fn has_attr_named(attrs: Seq<Attribute>, n: QualName) -> bool {
    exists|i: int| 0 <= i < attrs.len() && same_qual_name(#[trigger] attrs[i].name, n)
}

/// `cur` extended, in order, by each attribute of `add` whose name is not
/// present by then.
pub open spec fn merge_attrs(cur: Seq<Attribute>, add: Seq<Attribute>) -> Seq<Attribute>
    decreases add.len(),
{
    if add.len() == 0 {
        cur
    } else {
        let a = add[0];
        merge_attrs(if has_attr_named(cur, a.name) { cur } else { cur.push(a) }, add.drop_first())
    }
}

/// The character sequences are equal.
pub fn same_str(a: &str, b: &str) -> (r: bool)
    ensures
        r == (a@ == b@),
{
    a.to_owned() == b.to_owned()
}

fn same_opt_str(a: &Option<String>, b: &Option<String>) -> (r: bool)
    ensures
        r == (match (*a, *b) {
            (None, None) => true,
            (Some(x), Some(y)) => x@ == y@,
            _ => false,
        }),
{
    match (a, b) {
        (None, None) => true,
        (Some(x), Some(y)) => *x == *y,
        _ => false,
    }
}

pub fn same_name(a: &QualName, b: &QualName) -> (r: bool)
    ensures
        r == same_qual_name(*a, *b),
{
    a.ns == b.ns && a.local == b.local && same_opt_str(&a.prefix, &b.prefix)
}

/// The printed form of a qualified name.
pub fn format_qual_name(name: &QualName) -> (r: String)
    ensures
        r@ == qual_name_text(*name),
{
    match &name.prefix {
        None => name.local.clone(),
        Some(p) => {
            let s = p.clone().concat(":");
            proof {
                reveal_strlit(":");
            }
            s.concat(name.local.as_str())
        },
    }
}

fn has_attr(attrs: &Vec<Attribute>, n: &QualName) -> (r: bool)
    ensures
        r == has_attr_named(attrs@, *n),
{
    let mut i: usize = 0;
    while i < attrs.len()
        invariant
            i <= attrs@.len(),
            forall|j: int| 0 <= j < i ==> !same_qual_name(#[trigger] attrs@[j].name, *n),
        decreases attrs@.len() - i,
    {
        if same_name(&attrs[i].name, n) {
            return true;
        }
        i += 1;
    }
    false
}

/// Index of the first attribute whose local name is `name`.
fn find_attr(attrs: &Vec<Attribute>, name: &str) -> (r: usize)
    ensures
        r == attr_pos(attrs@, name@, 0),
        r <= attrs@.len(),
{
    let mut i: usize = 0;
    while i < attrs.len()
        invariant
            i <= attrs@.len(),
            attr_pos(attrs@, name@, 0) == attr_pos(attrs@, name@, i as int),
        decreases attrs@.len() - i,
    {
        if same_str(attrs[i].name.local.as_str(), name) {
            return i;
        }
        i += 1;
    }
    i
}

impl<ND> Node<ND> {
    pub open spec fn is_container(&self) -> bool {
        self is Element || self is Document
    }

    pub open spec fn spec_is_text(&self) -> bool {
        self is Text
    }

    pub open spec fn spec_is_element(&self) -> bool {
        self is Element
    }

    /// The printed tag name of an element.
    pub open spec fn spec_tag_name(&self) -> Seq<char> {
        match self {
            Node::Element { name, .. } => qual_name_text(*name),
            _ => Seq::empty(),
        }
    }

    pub open spec fn spec_text(&self) -> Seq<char> {
        match self {
            Node::Text { text, .. } => text@,
            _ => Seq::empty(),
        }
    }

    pub open spec fn spec_template(&self) -> Option<Handle> {
        match self {
            Node::Element { template_contents, .. } => *template_contents,
            _ => None,
        }
    }

    pub open spec fn spec_attrs(&self) -> Seq<Attribute> {
        match self {
            Node::Element { attrs, .. } => attrs@,
            _ => Seq::empty(),
        }
    }

    pub open spec fn spec_data(&self) -> ND {
        match self {
            Node::Text { data, .. } => *data,
            Node::Comment { data, .. } => *data,
            Node::Element { data, .. } => *data,
            Node::Document { data } => *data,
            Node::DocType { data, .. } => *data,
        }
    }

    pub fn new_text_node(text: String, data: ND) -> (r: Self)
        ensures
            r == (Node::Text { data, text }),
    {
        Node::Text { data, text }
    }

    pub fn new_comment_node(text: String, data: ND) -> (r: Self)
        ensures
            r == (Node::Comment { data, text }),
    {
        Node::Comment { data, text }
    }

    pub fn new_document_node(data: ND) -> (r: Self)
        ensures
            r == (Node::Document { data }),
    {
        Node::Document { data }
    }

    pub fn new_doctype_node(name: String, public_id: String, system_id: String, data: ND) -> (r: Self)
        ensures
            r == (Node::DocType { data, name, public_id, system_id }),
    {
        Node::DocType { data, name, public_id, system_id }
    }

    pub fn is_text_node(&self) -> (r: bool)
        ensures
            r == self.spec_is_text(),
    {
        match self {
            Node::Text { .. } => true,
            _ => false,
        }
    }

    pub fn is_element_node(&self) -> (r: bool)
        ensures
            r == self.spec_is_element(),
    {
        match self {
            Node::Element { .. } => true,
            _ => false,
        }
    }

    pub fn has_children(&self) -> (r: bool)
        ensures
            r == self.is_container(),
    {
        match self {
            Node::Element { .. } | Node::Document { .. } => true,
            _ => false,
        }
    }

    pub fn custom_node_data(&self) -> (r: &ND)
        ensures
            *r == self.spec_data(),
    {
        match self {
            Node::Text { data, .. } => data,
            Node::Comment { data, .. } => data,
            Node::Element { data, .. } => data,
            Node::Document { data } => data,
            Node::DocType { data, .. } => data,
        }
    }

    pub open spec fn same_except_attrs(&self, other: Node<ND>) -> bool {
        match (*self, other) {
            (
                Node::Element { data: d1, name: n1, template_contents: t1, .. },
                Node::Element { data: d2, name: n2, template_contents: t2, .. },
            ) => d1 == d2 && n1 == n2 && t1 == t2,
            _ => false,
        }
    }

    pub fn name(&self) -> (r: &QualName)
        requires
            self is Element,
        ensures
            self matches Node::Element { name, .. } && *r == name,
    {
        match self {
            Node::Element { name, .. } => name,
            _ => unreached(),
        }
    }

    pub fn tag_name(&self) -> (r: String)
        requires
            self is Element,
        ensures
            r@ == self.spec_tag_name(),
    {
        format_qual_name(self.name())
    }

    pub fn text(&self) -> (r: String)
        requires
            self is Text,
        ensures
            r@ == self.spec_text(),
    {
        match self {
            Node::Text { text, .. } => text.clone(),
            _ => String::new(),
        }
    }

    pub fn comment(&self) -> (r: String)
        requires
            self is Comment,
        ensures
            self matches Node::Comment { text, .. } && r@ == text@,
    {
        match self {
            Node::Comment { text, .. } => text.clone(),
            _ => String::new(),
        }
    }

    pub fn attrs(&self) -> (r: &Vec<Attribute>)
        requires
            self is Element,
        ensures
            r@ == self.spec_attrs(),
    {
        match self {
            Node::Element { attrs, .. } => attrs,
            _ => unreached(),
        }
    }

    /// The value of the first attribute named `name`.
    pub fn attr(&self, name: &str) -> (r: Option<String>)
        requires
            self is Element,
        ensures
            opt_view(r) == attr_value(self.spec_attrs(), name@),
    {
        let attrs = self.attrs();
        let k = find_attr(attrs, name);
        if k < attrs.len() {
            Some(attrs[k].value.clone())
        } else {
            None
        }
    }

    /// Removes the first attribute named `name` and returns its value; the
    /// last attribute takes its place.
    pub fn pop_attr(&mut self, name: &str) -> (r: Option<String>)
        requires
            *old(self) is Element,
        ensures
            opt_view(r) == attr_value(old(self).spec_attrs(), name@),
            final(self).same_except_attrs(*old(self)),
            ({
                let a = old(self).spec_attrs();
                let k = attr_pos(a, name@, 0);
                final(self).spec_attrs() == if k < a.len() { a.update(k, a.last()).drop_last() } else { a }
            }),
    {
        match self {
            Node::Element { attrs, .. } => {
                let k = find_attr(attrs, name);
                if k < attrs.len() {
                    let a = attrs.swap_remove(k);
                    Some(a.value)
                } else {
                    None
                }
            },
            _ => None,
        }
    }

    /// Appends each attribute of `add` whose name is not on the element yet.
    pub fn add_attrs_if_missing(&mut self, add: Vec<Attribute>)
        requires
            *old(self) is Element,
        ensures
            final(self).same_except_attrs(*old(self)),
            final(self).spec_attrs() == merge_attrs(old(self).spec_attrs(), add@),
    {
        match self {
            Node::Element { attrs, .. } => {
                let mut rest = add;
                let ghost start = attrs@;
                while rest.len() > 0
                    invariant
                        merge_attrs(start, add@) == merge_attrs(attrs@, rest@),
                    decreases rest@.len(),
                {
                    let a = rest.remove(0);
                    if !has_attr(attrs, &a.name) {
                        attrs.push(a);
                    }
                }
            },
            _ => {},
        }
    }

    pub fn is_inline_tag(&self) -> (r: bool)
        requires
            self is Element,
        ensures
            r == is_inline_name(self.spec_tag_name()),
    {
        let t = self.tag_name();
        let t = t.as_str();
        same_str(t, "a") || same_str(t, "abbr") || same_str(t, "acronym") || same_str(t, "b")
            || same_str(t, "bdo") || same_str(t, "big") || same_str(t, "br") || same_str(t, "button")
            || same_str(t, "cite") || same_str(t, "code") || same_str(t, "dfn") || same_str(t, "em")
            || same_str(t, "i") || same_str(t, "img") || same_str(t, "input") || same_str(t, "kbd")
            || same_str(t, "label") || same_str(t, "map") || same_str(t, "object") || same_str(t, "output")
            || same_str(t, "q") || same_str(t, "samp") || same_str(t, "script") || same_str(t, "select")
            || same_str(t, "small") || same_str(t, "span") || same_str(t, "strong") || same_str(t, "sub")
            || same_str(t, "sup") || same_str(t, "textarea") || same_str(t, "time") || same_str(t, "tt")
            || same_str(t, "u") || same_str(t, "var")
    }

    pub fn is_none_tag(&self) -> (r: bool)
        requires
            self is Element,
        ensures
            r == is_none_name(self.spec_tag_name()),
    {
        let t = self.tag_name();
        same_str(t.as_str(), "script") || same_str(t.as_str(), "style")
    }

    /// The same node with payload `d`.
    pub open spec fn with_data(&self, d: ND) -> Node<ND> {
        match *self {
            Node::Text { text, .. } => Node::Text { data: d, text },
            Node::Comment { text, .. } => Node::Comment { data: d, text },
            Node::Element { name, attrs, template_contents, .. } => Node::Element { data: d, name, attrs, template_contents },
            Node::Document { .. } => Node::Document { data: d },
            Node::DocType { name, public_id, system_id, .. } => Node::DocType { data: d, name, public_id, system_id },
        }
    }

    pub fn set_custom_node_data(&mut self, d: ND)
        ensures
            *final(self) == old(self).with_data(d),
    {
        match self {
            Node::Text { data, .. } => { *data = d; },
            Node::Comment { data, .. } => { *data = d; },
            Node::Element { data, .. } => { *data = d; },
            Node::Document { data } => { *data = d; },
            Node::DocType { data, .. } => { *data = d; },
        }
    }

    /// Appends `t` to the text of a text node.
    pub fn push_text(&mut self, t: &str)
        requires
            *old(self) is Text,
        ensures
            *final(self) is Text,
            final(self).spec_data() == old(self).spec_data(),
            final(self).spec_text() == old(self).spec_text() + t@,
    {
        match self {
            Node::Text { text, .. } => {
                text.append(t);
            },
            _ => {},
        }
    }

    /// The template contents of a `template` element.
    pub fn template_contents(&self) -> (r: Option<Handle>)
        requires
            self is Element,
        ensures
            r == self.spec_template(),
    {
        match self {
            Node::Element { template_contents, .. } => *template_contents,
            _ => None,
        }
    }
}

} // verus!
