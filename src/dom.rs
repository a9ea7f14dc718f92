use vstd::prelude::*;
use crate::attributes::{AttrMap, attrs_text};

verus! {

broadcast use vstd::std_specs::vec::axiom_vec_index_decreases;

/// A node of the document tree: a run of text, or an element with its
/// children in order.
pub struct Node {
    children: Vec<Node>,
    node_type: NodeType,
}

enum NodeType {
    Text(String),
    Element(ElementData),
}

/// The tag name and attributes of an element.
pub struct ElementData {
    tag_name: String,
    attributes: AttrMap,
}

/// `2 * indent` spaces.
pub open spec fn spaces(indent: nat) -> Seq<char> {
    Seq::new(2 * indent, |i: int| ' ')
}

/// `<tag` followed by the rendered attributes and `>`.
pub open spec fn open_tag(tag: Seq<char>, attrs: Map<Seq<char>, Seq<char>>) -> Seq<char> {
    seq!['<'] + tag + attrs_text(attrs) + seq!['>']
}

/// `</tag>`.
pub open spec fn close_tag(tag: Seq<char>) -> Seq<char> {
    seq!['<', '/'] + tag + seq!['>']
}

impl ElementData {
    pub closed spec fn tag(&self) -> Seq<char> {
        self.tag_name@
    }

    pub closed spec fn attrs(&self) -> Map<Seq<char>, Seq<char>> {
        self.attributes@
    }
}

impl Node {
    pub closed spec fn is_text(&self) -> bool {
        self.node_type is Text
    }

    /// The content of a text node.
    pub closed spec fn text(&self) -> Seq<char> {
        match &self.node_type {
            NodeType::Text(t) => t@,
            NodeType::Element(_) => Seq::<char>::empty(),
        }
    }

    /// The tag name of an element.
    pub closed spec fn tag(&self) -> Seq<char> {
        match &self.node_type {
            NodeType::Text(_) => Seq::<char>::empty(),
            NodeType::Element(e) => e.tag(),
        }
    }

    /// The attributes of an element.
    pub closed spec fn attrs(&self) -> Map<Seq<char>, Seq<char>> {
        match &self.node_type {
            NodeType::Text(_) => Map::<Seq<char>, Seq<char>>::empty(),
            NodeType::Element(e) => e.attrs(),
        }
    }

    pub closed spec fn kids(&self) -> Seq<Node> {
        self.children@
    }

    /// Rendering the tree at `indent` keeps every level of indentation
    /// within `usize`.
    pub closed spec fn fits(&self, indent: nat) -> bool
        decreases self, self.kids().len() + 1,
    {
        indent <= usize::MAX && self.kids_fit(0, indent + 1)
    }

    /// The children from index `from` on all fit at `indent`.
    pub closed spec fn kids_fit(&self, from: nat, indent: nat) -> bool
        decreases self, self.kids().len() - from,
    {
        from < self.children.len() ==> self.children[from as int].fits(indent) && self.kids_fit(
            from + 1,
            indent,
        )
    }

    /// The text of the tree rendered at nesting level `indent`.
    pub closed spec fn rendered(&self, indent: nat) -> Seq<char>
        decreases self, self.kids().len() + 1,
    {
        match &self.node_type {
            NodeType::Text(t) => spaces(indent) + t@,
            NodeType::Element(e) => if self.children.len() == 0 {
                spaces(indent) + open_tag(e.tag(), e.attrs()) + close_tag(e.tag())
            } else {
                spaces(indent) + open_tag(e.tag(), e.attrs()) + seq!['\n'] + self.rendered_kids(
                    0,
                    indent + 1,
                ) + spaces(indent) + close_tag(e.tag())
            },
        }
    }

    /// The children from index `from` on, each rendered at `indent` and
    /// followed by a newline.
    pub closed spec fn rendered_kids(&self, from: nat, indent: nat) -> Seq<char>
        decreases self, self.kids().len() - from,
    {
        if from < self.children.len() {
            self.children[from as int].rendered(indent) + seq!['\n'] + self.rendered_kids(
                from + 1,
                indent,
            )
        } else {
            Seq::<char>::empty()
        }
    }
}

/// The string of `2 * indent` spaces followed by `string`.
pub fn with_indent(indent: usize, string: String) -> (r: String)
    ensures
        r@ == spaces(indent as nat) + string@,
{
    let mut r = String::new();
    let mut i: usize = 0;
    while i < indent
        invariant
            i <= indent,
            r@ == spaces(i as nat),
        decreases indent - i,
    {
        r.append("  ");
        proof {
            reveal_strlit("  ");
        }
        assert(r@ =~= spaces((i + 1) as nat));
        i += 1;
    }
    assert(r@ =~= spaces(indent as nat));
    r.append(string.as_str());
    r
}

/// `</tag>` as a string.
fn closing_tag(tag: &str) -> (r: String)
    ensures
        r@ == close_tag(tag@),
{
    let mut r = String::from_str("</");
    r.append(tag);
    r.append(">");
    proof {
        reveal_strlit("</");
        reveal_strlit(">");
    }
    assert(r@ =~= close_tag(tag@));
    r
}

impl Node {
    /// A text node holding `text` as it is.
    pub fn new_text(text: String) -> (r: Self)
        ensures
            r.is_text(),
            r.text() == text@,
            r.kids().len() == 0,
    {
        Self { children: Vec::new(), node_type: NodeType::Text(text) }
    }

    /// An element with the given tag name, attributes and children, taken
    /// as they are.
    pub fn new_elem(tag_name: String, attributes: AttrMap, children: Vec<Node>) -> (r: Self)
        ensures
            !r.is_text(),
            r.tag() == tag_name@,
            r.attrs() == attributes@,
            r.kids() == children@,
    {
        Self { children, node_type: NodeType::Element(ElementData { tag_name, attributes }) }
    }

    /// The tree rendered at nesting level `indent`: text indented and
    /// written as it is; an element's attributes sorted by name, and its
    /// children each on a line of their own, one level deeper.
    pub fn p_tree(&self, indent: usize) -> (r: String)
        requires
            self.fits(indent as nat),
        ensures
            r@ == self.rendered(indent as nat),
        decreases self,
    {
        match &self.node_type {
            NodeType::Text(text) => with_indent(indent, text.clone()),
            NodeType::Element(el_data) => {
                let mut head = String::from_str("<");
                head.append(el_data.tag_name.as_str());
                let mut element_string = with_indent(indent, head);
                let attrs = el_data.attributes.render();
                element_string.append(attrs.as_str());
                element_string.append(">");
                proof {
                    reveal_strlit("<");
                    reveal_strlit(">");
                    reveal_strlit("\n");
                }
                assert(element_string@ =~= spaces(indent as nat) + open_tag(el_data.tag(), el_data.attrs()));
                if self.children.len() > 0 {
                    element_string.append("\n");
                    let ghost base = element_string@;
                    assert(self.children[0].fits((indent + 1) as nat)) by {
                        lemma_fits(self, indent as nat);
                    }
                    let mut i: usize = 0;
                    while i < self.children.len()
                        invariant
                            i <= self.children.len(),
                            indent + 1 <= usize::MAX,
                            self.fits(indent as nat),
                            element_string@ + self.rendered_kids(i as nat, (indent + 1) as nat) == base
                                + self.rendered_kids(0, (indent + 1) as nat),
                        decreases self.children.len() - i,
                    {
                        proof {
                            lemma_fits(self, indent as nat);
                            assert(self.kids()[i as int] == self.children[i as int]);
                        }
                        let child = self.children[i].p_tree(indent + 1);
                        let ghost before = element_string@;
                        element_string.append(child.as_str());
                        element_string.append("\n");
                        proof {
                            reveal_strlit("\n");
                        }
                        assert(element_string@ =~= before + child@ + seq!['\n']);
                        assert(element_string@ + self.rendered_kids((i + 1) as nat, (indent + 1) as nat)
                            =~= before + self.rendered_kids(i as nat, (indent + 1) as nat));
                        i += 1;
                    }
                    let close = closing_tag(el_data.tag_name.as_str());
                    let closing = with_indent(indent, close);
                    element_string.append(closing.as_str());
                } else {
                    let close = closing_tag(el_data.tag_name.as_str());
                    element_string.append(close.as_str());
                }
                element_string
            },
        }
    }

    /// The whole tree rendered from nesting level 0.
    pub fn to_string(&self) -> (r: String)
        requires
            self.fits(0),
        ensures
            r@ == self.rendered(0),
    {
        self.p_tree(0)
    }
}

/// What `fits` asks of a node: its own indent fits in `usize`, and each
/// child fits one level deeper.
pub proof fn lemma_fits(n: &Node, indent: nat)
    ensures
        n.fits(indent) == (indent <= usize::MAX && forall|i: int|
            0 <= i < n.kids().len() ==> #[trigger] n.kids()[i].fits(indent + 1)),
{
    lemma_kids_fit(n, 0, indent + 1);
}

proof fn lemma_kids_fit(n: &Node, from: nat, indent: nat)
    ensures
        n.kids_fit(from, indent) == (forall|i: int|
            from <= i < n.kids().len() ==> #[trigger] n.kids()[i].fits(indent)),
    decreases n.kids().len() - from,
{
    if from < n.kids().len() {
        lemma_kids_fit(n, from + 1, indent);
        assert(n.kids()[from as int] == n.children[from as int]);
        if n.kids()[from as int].fits(indent) && n.kids_fit(from + 1, indent) {
            assert forall|i: int| from <= i < n.kids().len() implies #[trigger] n.kids()[i].fits(indent) by {
                if i > from {
                    assert(from + 1 <= i);
                }
            }
        }
    }
}

/// How a node renders: a text node as its indentation and its text as it
/// is; an element as its indentation, its opening tag with the attributes
/// sorted by name, then either its closing tag at once, or a newline, its
/// children one level deeper, and its indented closing tag.
pub proof fn lemma_rendered(n: &Node, indent: nat)
    ensures
        n.rendered(indent) == (if n.is_text() {
            spaces(indent) + n.text()
        } else if n.kids().len() == 0 {
            spaces(indent) + open_tag(n.tag(), n.attrs()) + close_tag(n.tag())
        } else {
            spaces(indent) + open_tag(n.tag(), n.attrs()) + seq!['\n'] + n.rendered_kids(0, indent + 1)
                + spaces(indent) + close_tag(n.tag())
        }),
{
}

/// How the children from `from` on render: the child at `from` followed by a
/// newline, then the rest; nothing once past the last child.
pub proof fn lemma_rendered_kids(n: &Node, from: nat, indent: nat)
    ensures
        n.rendered_kids(from, indent) == (if from < n.kids().len() {
            n.kids()[from as int].rendered(indent) + seq!['\n'] + n.rendered_kids(from + 1, indent)
        } else {
            Seq::<char>::empty()
        }),
{
}

proof fn lemma_kids_same(a: Node, b: Node, from: nat, indent: nat)
    requires
        a.kids() == b.kids(),
    ensures
        a.rendered_kids(from, indent) == b.rendered_kids(from, indent),
    decreases a.kids().len() - from,
{
    if from < a.kids().len() {
        lemma_kids_same(a, b, from + 1, indent);
    }
}

/// An element renders the same whichever order its attributes were inserted
/// in: the text depends only on its tag name, the map of its attributes and
/// its children, and so every rendering of one tree is the same.
pub proof fn lemma_render_ignores_insertion_order(a: Node, b: Node, indent: nat)
    requires
        !a.is_text(),
        !b.is_text(),
        a.tag() == b.tag(),
        a.attrs() == b.attrs(),
        a.kids() == b.kids(),
    ensures
        a.rendered(indent) == b.rendered(indent),
{
    lemma_kids_same(a, b, 0, indent + 1);
}

} // verus!
