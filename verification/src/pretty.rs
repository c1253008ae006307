//! The diagnostic pretty-printer: a depth-first rendering of a subtree as
//! indented lines, two spaces deeper per level.

use vstd::prelude::*;

use crate::dom::AttrMap;
use crate::dom::ElementData;
use crate::dom::Node;
use crate::dom::NodeType;

verus! {

/// `k` space characters.
pub open spec fn spaces(k: nat) -> Seq<char>
    decreases k,
{
    if k == 0 {
        Seq::empty()
    } else {
        spaces((k - 1) as nat) + " "@
    }
}

fn make_spaces(k: usize) -> (s: String)
    ensures
        s@ == spaces(k as nat),
{
    let mut s = String::new();
    let mut i: usize = 0;
    while i < k
        invariant
            i <= k,
            s@ == spaces(i as nat),
        decreases k - i,
    {
        s.append(" ");
        i += 1;
    }
    s
}

/// One attribute pair as the element line shows it: `"name": "value"`.
pub open spec fn attr_debug(p: (Seq<char>, Seq<char>)) -> Seq<char> {
    "\""@ + p.0 + "\": \""@ + p.1 + "\""@
}

/// The attribute pairs joined with `, `, in insertion order.
pub open spec fn attrs_debug(m: Seq<(Seq<char>, Seq<char>)>) -> Seq<char>
    decreases m.len(),
{
    if m.len() == 0 {
        Seq::empty()
    } else if m.len() == 1 {
        attr_debug(m[0])
    } else {
        attrs_debug(m.drop_last()) + ", "@ + attr_debug(m.last())
    }
}

/// The debug form of an element payload: its tag name and its attributes.
pub open spec fn element_debug(e: ElementData) -> Seq<char> {
    "ElementData { tag_name: \""@ + e.tag_name@ + "\", attributes: {"@ + attrs_debug(e.attributes@)
        + "} }"@
}

/// The content line of a node, without indentation: the raw text of a text
/// node, the debug form of an element, or a comment between `<-!--` and `-->`.
pub open spec fn content_line(nt: NodeType) -> Seq<char> {
    match nt {
        NodeType::Text(t) => t@,
        NodeType::Element(e) => element_debug(e),
        NodeType::Comment(c) => "<-!--"@ + c@ + "-->"@,
    }
}

/// The closing lines a node contributes after its children: `<tag/>` for an
/// element, nothing for text or a comment.
pub open spec fn close_lines(nt: NodeType, ind: Seq<char>) -> Seq<Seq<char>> {
    match nt {
        NodeType::Element(e) => seq![ind + "<"@ + e.tag_name@ + "/>"@],
        NodeType::Text(_) => Seq::empty(),
        NodeType::Comment(_) => Seq::empty(),
    }
}

/// The lines of the subtree rooted at `n`, indented by `ind`: the node's own
/// content line, every child's lines two spaces deeper, in sequence order,
/// then the node's closing line where it has one.
pub open spec fn render(n: Node, ind: Seq<char>) -> Seq<Seq<char>>
    decreases n,
{
    seq![ind + content_line(n.node_type)] + render_seq(n.children@, ind + "  "@) + close_lines(
        n.node_type,
        ind,
    )
}

/// The lines of the subtrees rooted at `cs`, one after the other, in order.
pub open spec fn render_seq(cs: Seq<Node>, ind: Seq<char>) -> Seq<Seq<char>>
    decreases cs,
{
    if cs.len() == 0 {
        Seq::empty()
    } else {
        render_seq(cs.drop_last(), ind) + render(cs.last(), ind)
    }
}

fn attrs_body(m: &AttrMap) -> (s: String)
    ensures
        s@ == attrs_debug(m@),
{
    let mut s = String::new();
    let n = m.len();
    proof {
        assert(m@.take(0) =~= Seq::<(Seq<char>, Seq<char>)>::empty());
    }
    let mut i: usize = 0;
    while i < n
        invariant
            i <= n,
            n == m@.len(),
            s@ == attrs_debug(m@.take(i as int)),
        decreases n - i,
    {
        if i > 0 {
            s.append(", ");
        }
        let p = m.entry(i);
        s.append("\"");
        s.append(p.0.as_str());
        s.append("\": \"");
        s.append(p.1.as_str());
        s.append("\"");
        proof {
            assert(m@.take(i + 1).drop_last() =~= m@.take(i as int));
            assert(m@.take(i + 1).last() == m@[i as int]);
            assert(s@ =~= attrs_debug(m@.take(i + 1)));
        }
        i += 1;
    }
    proof {
        assert(m@.take(n as int) =~= m@);
    }
    s
}

fn element_line(e: &ElementData) -> (s: String)
    ensures
        s@ == element_debug(*e),
{
    let mut s = String::from_str("ElementData { tag_name: \"");
    s.append(e.tag_name.as_str());
    s.append("\", attributes: {");
    let body = attrs_body(&e.attributes);
    s.append(body.as_str());
    s.append("} }");
    proof {
        assert(s@ =~= element_debug(*e));
    }
    s
}

fn node_line(ind: &String, nt: &NodeType) -> (s: String)
    ensures
        s@ == ind@ + content_line(*nt),
{
    let mut s = ind.clone();
    match nt {
        NodeType::Text(t) => {
            s.append(t.as_str());
        },
        NodeType::Element(e) => {
            let el = element_line(e);
            s.append(el.as_str());
        },
        NodeType::Comment(c) => {
            s.append("<-!--");
            s.append(c.as_str());
            s.append("-->");
            proof {
                assert(s@ =~= ind@ + content_line(*nt));
            }
        },
    }
    s
}

fn render_lines(n: &Node, ind: &String) -> (lines: Vec<String>)
    ensures
        lines.deep_view() == render(*n, ind@),
    decreases *n,
{
    let mut lines: Vec<String> = Vec::new();
    let head = node_line(ind, &n.node_type);
    let ghost head_view = head@;
    lines.push(head);
    let mut deeper = ind.clone();
    deeper.append("  ");
    let k = n.children.len();
    proof {
        assert(n.children@.take(0) =~= Seq::<Node>::empty());
        assert(lines.deep_view() =~= seq![head_view] + render_seq(
            n.children@.take(0),
            deeper@,
        ));
    }
    let mut i: usize = 0;
    while i < k
        invariant
            i <= k,
            k == n.children@.len(),
            deeper@ == ind@ + "  "@,
            lines.deep_view() == seq![head_view] + render_seq(n.children@.take(i as int), deeper@),
            head_view == ind@ + content_line(n.node_type),
        decreases k - i,
    {
        let mut sub = render_lines(&n.children[i], &deeper);
        let ghost pre = lines.deep_view();
        let ghost sub_view = sub.deep_view();
        lines.append(&mut sub);
        proof {
            assert(lines.deep_view() =~= pre + sub_view);
            assert(n.children@.take(i + 1).drop_last() =~= n.children@.take(i as int));
            assert(n.children@.take(i + 1).last() == n.children@[i as int]);
            assert(lines.deep_view() =~= seq![head_view] + render_seq(
                n.children@.take(i + 1),
                deeper@,
            ));
        }
        i += 1;
    }
    proof {
        assert(n.children@.take(k as int) =~= n.children@);
    }
    match &n.node_type {
        NodeType::Element(e) => {
            let mut close = ind.clone();
            close.append("<");
            close.append(e.tag_name.as_str());
            close.append("/>");
            let ghost pre = lines.deep_view();
            let ghost close_view = close@;
            lines.push(close);
            proof {
                assert(lines.deep_view() =~= pre.push(close_view));
                assert(close_view == ind@ + "<"@ + e.tag_name@ + "/>"@);
                assert(lines.deep_view() =~= render(*n, ind@));
            }
        },
        NodeType::Text(_) => {
            proof {
                assert(lines.deep_view() =~= render(*n, ind@));
            }
        },
        NodeType::Comment(_) => {
            proof {
                assert(lines.deep_view() =~= render(*n, ind@));
            }
        },
    }
    lines
}

/// The indented lines of the subtree rooted at `n`, starting `indent_size`
/// spaces deep: each node's content line, children two spaces deeper, and a
/// `<tag/>` closing line after each element's children.
pub fn pretty_print(n: &Node, indent_size: usize) -> (lines: Vec<String>)
    ensures
        lines.deep_view() == render(*n, spaces(indent_size as nat)),
{
    let ind = make_spaces(indent_size);
    render_lines(n, &ind)
}

/// How many nodes the subtree rooted at `n` holds, `n` included.
pub open spec fn node_count(n: Node) -> nat
    decreases n,
{
    1 + node_count_seq(n.children@)
}

/// How many nodes the subtrees rooted at `cs` hold together.
pub open spec fn node_count_seq(cs: Seq<Node>) -> nat
    decreases cs,
{
    if cs.len() == 0 {
        0
    } else {
        node_count_seq(cs.drop_last()) + node_count(cs.last())
    }
}

/// How many element nodes the subtree rooted at `n` holds.
pub open spec fn element_count(n: Node) -> nat
    decreases n,
{
    (if n.node_type is Element {
        1nat
    } else {
        0nat
    }) + element_count_seq(n.children@)
}

/// How many element nodes the subtrees rooted at `cs` hold together.
pub open spec fn element_count_seq(cs: Seq<Node>) -> nat
    decreases cs,
{
    if cs.len() == 0 {
        0
    } else {
        element_count_seq(cs.drop_last()) + element_count(cs.last())
    }
}

/// Law: printing visits every node of the subtree exactly once — the printed
/// lines number one content line per node, plus one closing line per element
/// node, whatever the indentation.
pub proof fn lemma_render_line_count(n: Node, ind: Seq<char>)
    ensures
        render(n, ind).len() == node_count(n) + element_count(n),
    decreases n,
{
    lemma_render_seq_line_count(n.children@, ind + "  "@);
}

/// Law: the lines of a sequence of subtrees number the sum over the subtrees.
pub proof fn lemma_render_seq_line_count(cs: Seq<Node>, ind: Seq<char>)
    ensures
        render_seq(cs, ind).len() == node_count_seq(cs) + element_count_seq(cs),
    decreases cs,
{
    if cs.len() > 0 {
        lemma_render_seq_line_count(cs.drop_last(), ind);
        lemma_render_line_count(cs.last(), ind);
    }
}

/// Where the lines of the `j`th of the subtrees `cs` begin, relative to the
/// parent's first line: one for the parent's content line, then the lines of
/// the earlier subtrees.
pub open spec fn child_line_offset(cs: Seq<Node>, ind: Seq<char>, j: int) -> int {
    1 + render_seq(cs.take(j), ind).len() as int
}

proof fn lemma_render_seq_block(cs: Seq<Node>, ind: Seq<char>, j: int)
    requires
        0 <= j < cs.len(),
    ensures
        render_seq(cs.take(j), ind).len() + render(cs[j], ind).len() <= render_seq(cs, ind).len(),
        render_seq(cs, ind).subrange(
            render_seq(cs.take(j), ind).len() as int,
            render_seq(cs.take(j), ind).len() + render(cs[j], ind).len() as int,
        ) == render(cs[j], ind),
    decreases cs,
{
    let d = cs.drop_last();
    if j == cs.len() - 1 {
        assert(cs.take(j) =~= d);
        assert(cs[j] == cs.last());
        assert(render_seq(cs, ind) == render_seq(d, ind) + render(cs.last(), ind));
        assert(render_seq(cs, ind).subrange(
            render_seq(d, ind).len() as int,
            render_seq(d, ind).len() + render(cs.last(), ind).len() as int,
        ) =~= render(cs.last(), ind));
    } else {
        lemma_render_seq_block(d, ind, j);
        assert(d.take(j) =~= cs.take(j));
        assert(d[j] == cs[j]);
        let lo: int = render_seq(cs.take(j), ind).len() as int;
        let hi: int = lo + render(cs[j], ind).len();
        assert(render_seq(cs, ind) == render_seq(d, ind) + render(cs.last(), ind));
        assert(render_seq(cs, ind).subrange(lo, hi) =~= render_seq(d, ind).subrange(lo, hi));
    }
}

/// Law: document order — the parent's content line comes first, and the whole
/// rendering of each child follows as one contiguous block, two spaces deeper,
/// children in sequence order.
pub proof fn lemma_render_document_order(n: Node, ind: Seq<char>)
    ensures
        render(n, ind).len() >= 1,
        render(n, ind)[0] == ind + content_line(n.node_type),
        forall|j: int|
            0 <= j < n.children@.len() ==> render(n, ind).subrange(
                child_line_offset(n.children@, ind + "  "@, j),
                child_line_offset(n.children@, ind + "  "@, j) + render(
                    n.children@[j],
                    ind + "  "@,
                ).len(),
            ) == render(n.children@[j], ind + "  "@),
{
    let cs = n.children@;
    let deeper = ind + "  "@;
    assert forall|j: int| 0 <= j < cs.len() implies render(n, ind).subrange(
        child_line_offset(cs, deeper, j),
        child_line_offset(cs, deeper, j) + render(cs[j], deeper).len(),
    ) == render(cs[j], deeper) by {
        lemma_render_seq_block(cs, deeper, j);
        let lo: int = render_seq(cs.take(j), deeper).len() as int;
        let hi: int = lo + render(cs[j], deeper).len();
        assert(render(n, ind).subrange(1 + lo, 1 + hi) =~= render_seq(cs, deeper).subrange(
            lo,
            hi,
        ));
    }
}

} // verus!
