//! In-memory document tree model for a toy markup engine: node variants,
//! attribute storage, and a deterministic indentation-based rendering of a
//! tree, one line per node.

pub mod dom;

use vstd::prelude::*;

verus! {

use crate::dom::{
    attrs_text, children_height, create_node, height, node_text, pretty_print, rendered,
    rendered_children, spaces, views_of, Node,
};

/// Builds the sample tree and renders it; printing the returned lines is
/// left to the caller.
pub fn add_node() -> (r: Vec<String>)
    ensures
        views_of(r@) == seq![
            "root attr1=\"value1\" attr2=\"value2\""@,
            "  text_node1"@,
            "  text_node2"@,
        ],
{
    let node = create_node();
    proof {
        let cs = node.children@;
        let c0 = cs[0];
        let c1 = cs[1];
        let tail = cs.subrange(1, 2);
        assert(tail.len() == 1 && tail[0] == c1);
        assert(tail.subrange(1, 1) =~= Seq::<Node>::empty());
        assert(children_height(Seq::<Node>::empty()) == 0);
        assert(height(c0) == 1 && height(c1) == 1);
        assert(children_height(tail) == 1);
        assert(children_height(cs) == 1);
        assert(height(node) == 2);
    }
    let r = pretty_print(&node);
    proof {
        reveal_strlit("root");
        reveal_strlit("attr1");
        reveal_strlit("value1");
        reveal_strlit("attr2");
        reveal_strlit("value2");
        reveal_strlit("text_node1");
        reveal_strlit("text_node2");
        reveal_strlit("root attr1=\"value1\" attr2=\"value2\"");
        reveal_strlit("  text_node1");
        reveal_strlit("  text_node2");
        let cs = node.children@;
        let c0 = cs[0];
        let c1 = cs[1];
        let tail = cs.subrange(1, 2);
        assert(tail.len() == 1 && tail[0] == c1);
        assert(tail.subrange(1, 1) =~= Seq::<Node>::empty());
        assert(c0.children@ =~= Seq::<Node>::empty());
        assert(c1.children@ =~= Seq::<Node>::empty());
        assert(rendered_children(Seq::<Node>::empty(), 4) =~= Seq::<Seq<char>>::empty());
        assert(rendered_children(Seq::<Node>::empty(), 2) =~= Seq::<Seq<char>>::empty());
        let attrs = seq![("attr1"@, "value1"@), ("attr2"@, "value2"@)];
        assert(attrs.subrange(1, 2)[0] == attrs[1]);
        assert(attrs.subrange(1, 2).subrange(1, 1) =~= Seq::<(Seq<char>, Seq<char>)>::empty());
        assert(attrs_text(Seq::<(Seq<char>, Seq<char>)>::empty()) == Seq::<char>::empty());
        let part1 = seq![' '] + "attr1"@ + seq!['=', '"'] + "value1"@ + seq!['"'];
        let part2 = seq![' '] + "attr2"@ + seq!['=', '"'] + "value2"@ + seq!['"'];
        assert(attrs_text(attrs.subrange(1, 2)) =~= part2);
        assert(attrs_text(attrs) =~= part1 + part2);
        assert(node_text(node.node_type) =~= "root"@ + part1 + part2);
        let line0 = spaces(0) + node_text(node.node_type);
        assert(line0 =~= "root attr1=\"value1\" attr2=\"value2\""@);
        let line1 = spaces(2) + node_text(c0.node_type);
        assert(line1 =~= "  text_node1"@);
        let line2 = spaces(2) + node_text(c1.node_type);
        assert(line2 =~= "  text_node2"@);
        assert(rendered(c0, 2) =~= seq![line1]);
        assert(rendered(c1, 2) =~= seq![line2]);
        assert(rendered_children(tail, 2) =~= seq![line2]);
        assert(rendered_children(cs, 2) =~= seq![line1, line2]);
        assert(rendered(node, 0) =~= seq![line0, line1, line2]);
        assert(views_of(r@) =~= seq![
            "root attr1=\"value1\" attr2=\"value2\""@,
            "  text_node1"@,
            "  text_node2"@,
        ]);
    }
    r
}

} // verus!
