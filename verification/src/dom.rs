//! Document tree model: node variants, attribute storage, and the
//! indentation-based pretty printer over a tree of nodes.

use vstd::prelude::*;

verus! {

/// First index in `s` whose name component equals `name`, if any.
pub open spec fn find_key(s: Seq<(Seq<char>, Seq<char>)>, name: Seq<char>) -> Option<int>
    decreases s.len(),
{
    if s.len() == 0 {
        None
    } else if s[0].0 == name {
        Some(0)
    } else {
        match find_key(s.subrange(1, s.len() as int), name) {
            Some(i) => Some(i + 1),
            None => None,
        }
    }
}

/// The value stored under `name`, going by the first matching entry.
pub open spec fn attr_lookup(s: Seq<(Seq<char>, Seq<char>)>, name: Seq<char>) -> Option<
    Seq<char>,
> {
    match find_key(s, name) {
        Some(i) => Some(s[i].1),
        None => None,
    }
}

/// `find_key` returns the first index holding `name`, or tells that no
/// entry holds it.
pub proof fn lemma_find_key(s: Seq<(Seq<char>, Seq<char>)>, name: Seq<char>)
    ensures
        match find_key(s, name) {
            Some(i) => 0 <= i < s.len() && s[i].0 == name && (forall|k: int|
                0 <= k < i ==> s[k].0 != name),
            None => forall|k: int| 0 <= k < s.len() ==> s[k].0 != name,
        },
    decreases s.len(),
{
    if s.len() > 0 && s[0].0 != name {
        let t = s.subrange(1, s.len() as int);
        lemma_find_key(t, name);
        assert(forall|k: int| 1 <= k < s.len() ==> s[k] == t[k - 1]);
        match find_key(t, name) {
            Some(i) => {
                assert(find_key(s, name) == Some(i + 1));
            },
            None => {
                assert(forall|k: int| 0 <= k < s.len() ==> s[k].0 != name);
            },
        }
    }
}

/// Attribute container of an element: name/value pairs kept in insertion
/// order, with pairwise distinct names.
pub struct AttrMap {
    entries: Vec<(String, String)>,
}

impl View for AttrMap {
    type V = Seq<(Seq<char>, Seq<char>)>;

    closed spec fn view(&self) -> Seq<(Seq<char>, Seq<char>)> {
        self.entries@.map_values(|p: (String, String)| (p.0@, p.1@))
    }
}

impl AttrMap {
    /// Attribute names are pairwise distinct.
    pub open spec fn wf(self) -> bool {
        forall|i: int, j: int| 0 <= i < j < self@.len() ==> self@[i].0 != self@[j].0
    }

    pub fn new() -> (r: AttrMap)
        ensures
            r@ == Seq::<(Seq<char>, Seq<char>)>::empty(),
            r.wf(),
    {
        let r = AttrMap { entries: Vec::new() };
        proof {
            assert(r@ =~= Seq::<(Seq<char>, Seq<char>)>::empty());
        }
        r
    }

    /// Binds `name` to `value`: replaces the value in place when the name is
    /// already present, else appends a new entry at the end.
    pub fn insert(&mut self, name: String, value: String)
        ensures
            final(self)@ == (match find_key(old(self)@, name@) {
                Some(i) => old(self)@.update(i, (name@, value@)),
                None => old(self)@.push((name@, value@)),
            }),
            old(self).wf() ==> final(self).wf(),
    {
        let n = self.entries.len();
        let mut i: usize = 0;
        while i < n
            invariant
                *self == *old(self),
                n == self.entries.len(),
                i <= n,
                forall|k: int| 0 <= k < i ==> self@[k].0 != name@,
            decreases n - i,
        {
            if self.entries[i].0 == name {
                proof {
                    assert(self@[i as int].0 == name@);
                    lemma_find_key(self@, name@);
                    assert(find_key(self@, name@) == Some(i as int));
                }
                self.entries.set(i, (name, value));
                proof {
                    assert(self@ =~= old(self)@.update(i as int, (name@, value@)));
                    assert(forall|k: int|
                        0 <= k < self@.len() ==> self@[k].0 == old(self)@[k].0);
                }
                return ;
            }
            i += 1;
        }
        proof {
            lemma_find_key(self@, name@);
            assert(find_key(self@, name@) is None);
        }
        self.entries.push((name, value));
        proof {
            assert(self@ =~= old(self)@.push((name@, value@)));
        }
    }

    /// The value bound to `name`, cloned out of the map, if any.
    pub fn get(&self, name: &String) -> (r: Option<String>)
        ensures
            match attr_lookup(self@, name@) {
                Some(v) => r is Some && r->Some_0@ == v,
                None => r is None,
            },
    {
        let n = self.entries.len();
        let mut i: usize = 0;
        while i < n
            invariant
                n == self.entries.len(),
                i <= n,
                forall|k: int| 0 <= k < i ==> self@[k].0 != name@,
            decreases n - i,
        {
            if self.entries[i].0 == *name {
                proof {
                    assert(self@[i as int].0 == name@);
                    lemma_find_key(self@, name@);
                    assert(find_key(self@, name@) == Some(i as int));
                }
                return Some(self.entries[i].1.clone());
            }
            i += 1;
        }
        proof {
            lemma_find_key(self@, name@);
        }
        None
    }
}

/// The views of a sequence of owned strings.
pub open spec fn views_of(lines: Seq<String>) -> Seq<Seq<char>> {
    lines.map_values(|l: String| l@)
}

pub proof fn lemma_views_of_push(lines: Seq<String>, l: String)
    ensures
        views_of(lines.push(l)) == views_of(lines).push(l@),
{
    assert(views_of(lines.push(l)) =~= views_of(lines).push(l@));
}

/// The pieces of `s` between single space characters, kept in order and
/// with empty pieces retained, exactly as splitting on one space yields
/// them; an empty `s` gives one empty piece.
pub open spec fn split_tokens(s: Seq<char>) -> Seq<Seq<char>>
    decreases s.len(),
{
    if s.len() == 0 {
        seq![Seq::<char>::empty()]
    } else {
        let rest = split_tokens(s.drop_last());
        if s.last() == ' ' {
            rest.push(Seq::<char>::empty())
        } else {
            rest.update(rest.len() - 1, rest.last().push(s.last()))
        }
    }
}

/// Keeps the first occurrence of each piece of `s`, in order.
pub open spec fn dedup_views(s: Seq<Seq<char>>) -> Seq<Seq<char>>
    decreases s.len(),
{
    if s.len() == 0 {
        Seq::<Seq<char>>::empty()
    } else {
        let rest = dedup_views(s.drop_last());
        if rest.contains(s.last()) {
            rest
        } else {
            rest.push(s.last())
        }
    }
}

/// Deduplication keeps exactly the pieces of `s`, each of them once.
pub proof fn lemma_dedup_views(s: Seq<Seq<char>>)
    ensures
        forall|t: Seq<char>| #[trigger] dedup_views(s).contains(t) <==> s.contains(t),
        forall|k1: int, k2: int|
            0 <= k1 < k2 < dedup_views(s).len() ==> dedup_views(s)[k1] != dedup_views(s)[k2],
    decreases s.len(),
{
    if s.len() > 0 {
        let d = s.drop_last();
        let x = s.last();
        lemma_dedup_views(d);
        assert forall|t: Seq<char>| #[trigger] s.contains(t) implies (d.contains(t) || t
            == x) by {
            let i = choose|i: int| 0 <= i < s.len() && s[i] == t;
            if i < s.len() - 1 {
                assert(d[i] == t);
            }
        }
        assert forall|t: Seq<char>| #[trigger] d.contains(t) implies s.contains(t) by {
            let i = choose|i: int| 0 <= i < d.len() && d[i] == t;
            assert(s[i] == t);
        }
        assert(s[s.len() - 1] == x);
        assert(s.contains(x));
        if !dedup_views(d).contains(x) {
            let p = dedup_views(d).push(x);
            assert(dedup_views(s) == p);
            assert forall|t: Seq<char>| #[trigger] p.contains(t) implies s.contains(t) by {
                let i = choose|i: int| 0 <= i < p.len() && p[i] == t;
                if i < p.len() - 1 {
                    assert(dedup_views(d)[i] == t);
                    assert(dedup_views(d).contains(t));
                }
            }
            assert forall|t: Seq<char>| #[trigger] s.contains(t) implies p.contains(t) by {
                if d.contains(t) {
                    assert(dedup_views(d).contains(t));
                    let i = choose|i: int|
                        0 <= i < dedup_views(d).len() && dedup_views(d)[i] == t;
                    assert(p[i] == t);
                } else {
                    assert(p[p.len() - 1] == t);
                }
            }
            assert forall|k1: int, k2: int| 0 <= k1 < k2 < p.len() implies p[k1]
                != p[k2] by {
                if k2 == p.len() - 1 {
                    assert(p[k1] == dedup_views(d)[k1]);
                    assert(dedup_views(d).contains(dedup_views(d)[k1]));
                }
            }
        }
    }
}

/// The class tokens of an attribute map: the split of the "class" value,
/// or nothing when that attribute is absent.
pub open spec fn class_tokens(attrs: Seq<(Seq<char>, Seq<char>)>) -> Seq<Seq<char>> {
    match attr_lookup(attrs, "class"@) {
        Some(v) => split_tokens(v),
        None => Seq::<Seq<char>>::empty(),
    }
}

/// Splits `s` on single space characters, keeping empty pieces.
fn split_string(s: &str) -> (r: Vec<String>)
    ensures
        views_of(r@) == split_tokens(s@),
{
    let n = s.unicode_len();
    let mut r: Vec<String> = Vec::new();
    let mut cur = String::new();
    let mut i: usize = 0;
    while i < n
        invariant
            i <= n,
            n == s@.len(),
            views_of(r@).push(cur@) == split_tokens(s@.take(i as int)),
        decreases n - i,
    {
        let ghost prefix = s@.take(i as int);
        let ghost cur0 = cur@;
        let c = s.get_char(i);
        if c == ' ' {
            proof {
                lemma_views_of_push(r@, cur);
            }
            r.push(cur);
            cur = String::new();
        } else {
            let piece = s.substring_char(i, i + 1);
            proof {
                assert(piece@ =~= seq![s@[i as int]]);
            }
            cur.append(piece);
        }
        i += 1;
        proof {
            let next = s@.take(i as int);
            assert(next.drop_last() =~= prefix);
            assert(next.last() == s@[i - 1]);
            let rest = split_tokens(prefix);
            if c == ' ' {
                assert(views_of(r@) == rest);
                assert(views_of(r@).push(cur@) == split_tokens(next));
            } else {
                assert(cur@ =~= cur0.push(c));
                assert(rest.last() == cur0);
                assert(rest.update(rest.len() - 1, cur0.push(c)) =~= views_of(r@).push(
                    cur@,
                ));
                assert(views_of(r@).push(cur@) == split_tokens(next));
            }
        }
    }
    proof {
        assert(s@.take(n as int) =~= s@);
        lemma_views_of_push(r@, cur);
    }
    r.push(cur);
    r
}

/// Whether some string of `v` has the same characters as `s`.
fn contains_string(v: &Vec<String>, s: &String) -> (r: bool)
    ensures
        r == views_of(v@).contains(s@),
{
    let n = v.len();
    let mut i: usize = 0;
    while i < n
        invariant
            i <= n,
            n == v@.len(),
            forall|k: int| 0 <= k < i ==> v@[k]@ != s@,
        decreases n - i,
    {
        if v[i] == *s {
            proof {
                assert(views_of(v@)[i as int] == s@);
            }
            return true;
        }
        i += 1;
    }
    proof {
        assert forall|k: int| 0 <= k < views_of(v@).len() implies views_of(v@)[k]
            != s@ by {
            assert(v@[k]@ != s@);
        }
    }
    false
}

/// Tag name and attributes of an element node.
pub struct ElementData {
    pub tag_name: String,
    pub attributes: AttrMap,
}

/// The closed set of node variants: a text run, an element, or a comment.
pub enum NodeType {
    Text(String),
    Element(ElementData),
    Comment(String),
}

/// One entry of the document tree: a variant plus the ordered children it
/// exclusively owns.
pub struct Node {
    pub children: Vec<Node>,
    pub node_type: NodeType,
}

/// `n` space characters.
pub open spec fn spaces(n: nat) -> Seq<char> {
    Seq::new(n, |i: int| ' ')
}

/// The attribute block of an element line: one leading space before each
/// pair, each pair rendered as name="value", in container order.
pub open spec fn attrs_text(entries: Seq<(Seq<char>, Seq<char>)>) -> Seq<char>
    decreases entries.len(),
{
    if entries.len() == 0 {
        Seq::<char>::empty()
    } else {
        seq![' '] + entries[0].0 + seq!['=', '"'] + entries[0].1 + seq!['"'] + attrs_text(
            entries.subrange(1, entries.len() as int),
        )
    }
}

/// The text of one node's own line, indentation aside: the raw content of
/// a text run, the wrapped content of a comment, or the tag name of an
/// element followed by its attribute block.
pub open spec fn node_text(k: NodeType) -> Seq<char> {
    match k {
        NodeType::Text(t) => t@,
        NodeType::Element(d) => d.tag_name@ + attrs_text(d.attributes@),
        NodeType::Comment(c) => seq!['<', '!', '-', '-'] + c@ + seq!['-', '-', '>'],
    }
}

/// The lines the pretty printer owes a subtree whose root line is indented
/// by `indent` spaces: the node's own line, then the lines of each child
/// in order, indented two spaces further.
pub open spec fn rendered(n: Node, indent: nat) -> Seq<Seq<char>>
    decreases n,
{
    seq![spaces(indent) + node_text(n.node_type)] + rendered_children(
        n.children@,
        indent + 2,
    )
}

/// The concatenated lines of a sequence of subtrees, in order.
pub open spec fn rendered_children(cs: Seq<Node>, indent: nat) -> Seq<Seq<char>>
    decreases cs,
{
    if cs.len() == 0 {
        Seq::<Seq<char>>::empty()
    } else {
        rendered(cs[0], indent) + rendered_children(
            cs.subrange(1, cs.len() as int),
            indent,
        )
    }
}

/// The number of nodes of a tree.
pub open spec fn node_count(n: Node) -> nat
    decreases n,
{
    1 + count_children(n.children@)
}

/// The number of nodes of a sequence of subtrees.
pub open spec fn count_children(cs: Seq<Node>) -> nat
    decreases cs,
{
    if cs.len() == 0 {
        0
    } else {
        node_count(cs[0]) + count_children(cs.subrange(1, cs.len() as int))
    }
}

/// The height of a tree: 1 for a leaf.
pub open spec fn height(n: Node) -> nat
    decreases n,
{
    1 + children_height(n.children@)
}

/// The largest height among a sequence of subtrees, 0 when there is none.
pub open spec fn children_height(cs: Seq<Node>) -> nat
    decreases cs,
{
    if cs.len() == 0 {
        0
    } else {
        let h = height(cs[0]);
        let rest = children_height(cs.subrange(1, cs.len() as int));
        if h > rest {
            h
        } else {
            rest
        }
    }
}

/// Renders the attribute block of `m`.
fn format_attrs(m: &AttrMap) -> (r: String)
    ensures
        r@ == attrs_text(m@),
{
    proof {
        reveal_strlit(" ");
        reveal_strlit("=\"");
        reveal_strlit("\"");
        assert(" "@ =~= seq![' ']);
        assert("=\""@ =~= seq!['=', '"']);
        assert("\""@ =~= seq!['"']);
    }
    let n = m.entries.len();
    let mut out = String::new();
    let mut i: usize = 0;
    proof {
        assert(m@.skip(0) =~= m@);
        assert(out@ + attrs_text(m@) =~= attrs_text(m@));
    }
    while i < n
        invariant
            i <= n,
            n == m@.len(),
            n == m.entries@.len(),
            out@ + attrs_text(m@.skip(i as int)) == attrs_text(m@),
            " "@ == seq![' '],
            "=\""@ == seq!['=', '"'],
            "\""@ == seq!['"'],
        decreases n - i,
    {
        let ghost i0 = i as int;
        let ghost out0 = out@;
        out.append(" ");
        out.append(m.entries[i].0.as_str());
        out.append("=\"");
        out.append(m.entries[i].1.as_str());
        out.append("\"");
        proof {
            let s = m@.skip(i0);
            assert(s[0] == m@[i0]);
            assert(s.subrange(1, s.len() as int) =~= m@.skip(i0 + 1));
            assert(out@ =~= out0 + seq![' '] + m@[i0].0 + seq!['=', '"'] + m@[i0].1
                + seq!['"']);
            assert(out@ + attrs_text(m@.skip(i0 + 1)) =~= out0 + attrs_text(s));
        }
        i += 1;
    }
    proof {
        assert(m@.skip(n as int) =~= Seq::<(Seq<char>, Seq<char>)>::empty());
        assert(out@ + attrs_text(m@.skip(n as int)) =~= out@);
    }
    out
}

impl Node {
    /// Builds a node from its variant and an already-constructed child
    /// sequence, taking ownership of both.
    pub fn new(node_type: NodeType, children: Vec<Node>) -> (r: Node)
        ensures
            r.node_type == node_type,
            r.children@ == children@,
    {
        Node { node_type, children }
    }
}

/// One subtree is at most as tall as the tallest of its sequence.
proof fn lemma_child_height(cs: Seq<Node>, i: int)
    requires
        0 <= i < cs.len(),
    ensures
        height(cs[i]) <= children_height(cs),
    decreases cs.len(),
{
    if i > 0 {
        lemma_child_height(cs.subrange(1, cs.len() as int), i - 1);
    }
}

/// Renders the subtree rooted at `n`, one line per node, the root line
/// indented by `indent_size` spaces and each level below it by two more.
/// The bound on `indent_size` only keeps the indentation arithmetic
/// within the machine word.
pub fn pretty_print_with_indent(n: &Node, indent_size: usize) -> (r: Vec<String>)
    requires
        indent_size + 2 * (height(*n) - 1) <= usize::MAX,
    ensures
        views_of(r@) == rendered(*n, indent_size as nat),
    decreases *n,
{
    proof {
        reveal_strlit(" ");
        reveal_strlit("<!--");
        reveal_strlit("-->");
        assert(" "@ =~= seq![' ']);
        assert("<!--"@ =~= seq!['<', '!', '-', '-']);
        assert("-->"@ =~= seq!['-', '-', '>']);
    }
    let mut line = String::new();
    let mut j: usize = 0;
    proof {
        assert(line@ =~= spaces(0));
    }
    while j < indent_size
        invariant
            j <= indent_size,
            line@ == spaces(j as nat),
            " "@ == seq![' '],
        decreases indent_size - j,
    {
        line.append(" ");
        proof {
            assert(line@ =~= spaces((j + 1) as nat));
        }
        j += 1;
    }
    let ghost pad = spaces(indent_size as nat);
    match &n.node_type {
        NodeType::Text(t) => {
            line.append(t.as_str());
        },
        NodeType::Comment(c) => {
            line.append("<!--");
            line.append(c.as_str());
            line.append("-->");
        },
        NodeType::Element(d) => {
            line.append(d.tag_name.as_str());
            let block = format_attrs(&d.attributes);
            line.append(block.as_str());
        },
    }
    proof {
        assert(line@ =~= pad + node_text(n.node_type));
    }
    let mut r: Vec<String> = Vec::new();
    r.push(line);
    let m = n.children.len();
    let ghost deeper = indent_size as nat + 2;
    proof {
        assert(views_of(r@) =~= seq![pad + node_text(n.node_type)]);
        assert(n.children@.skip(0) =~= n.children@);
        assert(views_of(r@) + rendered_children(n.children@, deeper) == rendered(
            *n,
            indent_size as nat,
        ));
    }
    let mut i: usize = 0;
    while i < m
        invariant
            i <= m,
            m == n.children@.len(),
            indent_size + 2 * (height(*n) - 1) <= usize::MAX,
            views_of(r@) + rendered_children(n.children@.skip(i as int), deeper)
                == rendered(*n, indent_size as nat),
            deeper == indent_size as nat + 2,
        decreases m - i,
    {
        proof {
            lemma_child_height(n.children@, i as int);
            assert(height(n.children@[i as int]) >= 1);
        }
        let ghost r0 = r@;
        let mut sub = pretty_print_with_indent(&n.children[i], indent_size + 2);
        let ghost sub0 = sub@;
        r.append(&mut sub);
        proof {
            assert(views_of(r@) =~= views_of(r0) + views_of(sub0));
            let s = n.children@.skip(i as int);
            assert(s[0] == n.children@[i as int]);
            assert(s.subrange(1, s.len() as int) =~= n.children@.skip(i as int + 1));
            assert(rendered_children(s, deeper) == views_of(sub0) + rendered_children(
                n.children@.skip(i as int + 1),
                deeper,
            ));
            assert(views_of(r@) + rendered_children(n.children@.skip(i as int + 1), deeper)
                =~= (views_of(r0) + rendered_children(s, deeper)));
        }
        i += 1;
    }
    proof {
        assert(n.children@.skip(m as int) =~= Seq::<Node>::empty());
        assert(views_of(r@) + rendered_children(n.children@.skip(m as int), deeper)
            =~= views_of(r@));
    }
    r
}

/// One line is printed for each node: the rendering of a tree has exactly
/// as many lines as the tree has nodes, whatever the indentation.
pub proof fn lemma_line_count(n: Node, indent: nat)
    ensures
        rendered(n, indent).len() == node_count(n),
    decreases n,
{
    lemma_children_line_count(n.children@, indent + 2);
}

proof fn lemma_children_line_count(cs: Seq<Node>, indent: nat)
    ensures
        rendered_children(cs, indent).len() == count_children(cs),
    decreases cs,
{
    if cs.len() > 0 {
        lemma_line_count(cs[0], indent);
        lemma_children_line_count(cs.subrange(1, cs.len() as int), indent);
    }
}

/// Where the lines of child `i` stand inside the rendering of its
/// sequence: right after the lines of the children before it.
proof fn lemma_child_line_position(cs: Seq<Node>, indent: nat, i: int)
    requires
        0 <= i < cs.len(),
    ensures
        count_children(cs.take(i)) + rendered(cs[i], indent).len() <= rendered_children(
            cs,
            indent,
        ).len(),
        forall|k: int|
            0 <= k < rendered(cs[i], indent).len() ==> rendered_children(cs, indent)[
                count_children(cs.take(i)) + k] == rendered(cs[i], indent)[k],
    decreases cs.len(),
{
    let tail = cs.subrange(1, cs.len() as int);
    lemma_line_count(cs[0], indent);
    if i == 0 {
        assert(cs.take(0) =~= Seq::<Node>::empty());
    } else {
        lemma_child_line_position(tail, indent, i - 1);
        assert(cs.take(i).subrange(1, cs.take(i).len() as int) =~= tail.take(i - 1));
        assert(cs.take(i)[0] == cs[0]);
        assert(tail[i - 1] == cs[i]);
        assert forall|k: int| 0 <= k < rendered(cs[i], indent).len() implies
            rendered_children(cs, indent)[count_children(cs.take(i)) + k] == rendered(
            cs[i],
            indent,
        )[k] by {
            assert(rendered_children(tail, indent)[count_children(tail.take(i - 1)) + k]
                == rendered(tail[i - 1], indent)[k]);
        }
    }
}

/// For every parent and child: each prints its own line first, the child's
/// line stands inside the parent's rendering right after the lines of the
/// children before it, and it is indented exactly two spaces further than
/// the parent's own line.
pub proof fn lemma_child_indentation(n: Node, indent: nat, i: int)
    requires
        0 <= i < n.children@.len(),
    ensures
        rendered(n, indent)[0] == spaces(indent) + node_text(n.node_type),
        ({
            let j = 1 + count_children(n.children@.take(i)) as int;
            &&& 0 < j < rendered(n, indent).len()
            &&& rendered(n, indent)[j] == spaces((indent + 2) as nat) + node_text(
                n.children@[i].node_type,
            )
        }),
        spaces((indent + 2) as nat) == spaces(indent) + seq![' ', ' '],
{
    let cs = n.children@;
    let deeper = (indent + 2) as nat;
    lemma_line_count(n, indent);
    lemma_children_line_count(cs, deeper);
    lemma_child_line_position(cs, deeper, i);
    lemma_line_count(cs[i], deeper);
    assert(node_count(cs[i]) >= 1);
    assert(rendered(cs[i], deeper)[0] == spaces(deeper) + node_text(
        cs[i].node_type,
    ));
    assert(rendered_children(cs, deeper)[count_children(cs.take(i)) as int] == rendered(
        cs[i],
        deeper,
    )[0]);
    assert(rendered(n, indent)[1 + count_children(cs.take(i)) as int] == rendered_children(
        cs,
        deeper,
    )[count_children(cs.take(i)) as int]);
    assert(spaces(deeper) =~= spaces(indent) + seq![' ', ' ']);
}

/// Renders a whole tree, the root at indentation zero. Children are
/// supplied up front and owned exclusively, so every tree is finite and
/// acyclic, and the traversal always terminates: the recursion carries a
/// structural `decreases` measure. The bound on the tree's height only
/// keeps the indentation arithmetic within the machine word; every tree
/// that fits in memory satisfies it.
pub fn pretty_print(n: &Node) -> (r: Vec<String>)
    requires
        2 * (height(*n) - 1) <= usize::MAX,
    ensures
        views_of(r@) == rendered(*n, 0),
        r@.len() == node_count(*n),
{
    proof {
        lemma_line_count(*n, 0);
    }
    pretty_print_with_indent(n, 0)
}

impl ElementData {
    /// Builds element metadata from a tag name and an attribute map. The
    /// caller is responsible for supplying a non-empty tag name.
    pub fn new(tag_name: String, attributes: AttrMap) -> (r: ElementData)
        ensures
            r.tag_name@ == tag_name@,
            r.attributes == attributes,
    {
        ElementData { tag_name, attributes }
    }

    /// The distinct class tokens of this element: the "class" attribute
    /// value split on single spaces, each token listed once, or nothing
    /// when the attribute is absent.
    /// The set reading of the result comes with `lemma_dedup_views`: the
    /// result holds exactly the class tokens, each of them once.
    pub fn get_classes(&self) -> (r: Vec<String>)
        ensures
            views_of(r@) == dedup_views(class_tokens(self.attributes@)),
            forall|t: Seq<char>| #[trigger]
                views_of(r@).contains(t) <==> class_tokens(self.attributes@).contains(t),
            forall|k1: int, k2: int| 0 <= k1 < k2 < r@.len() ==> r@[k1]@ != r@[k2]@,
    {
        let key = String::from_str("class");
        let ghost toks = class_tokens(self.attributes@);
        proof {
            lemma_dedup_views(toks);
        }
        match self.attributes.get(&key) {
            None => {
                let r: Vec<String> = Vec::new();
                proof {
                    assert(views_of(r@) =~= Seq::<Seq<char>>::empty());
                    assert(toks =~= Seq::<Seq<char>>::empty());
                }
                r
            },
            Some(c) => {
                let parts = split_string(c.as_str());
                proof {
                    assert(toks == views_of(parts@));
                }
                let m = parts.len();
                let mut r: Vec<String> = Vec::new();
                proof {
                    assert(views_of(r@) =~= Seq::<Seq<char>>::empty());
                    assert(views_of(parts@).take(0) =~= Seq::<Seq<char>>::empty());
                }
                let mut i: usize = 0;
                while i < m
                    invariant
                        i <= m,
                        m == parts@.len(),
                        toks == views_of(parts@),
                        views_of(r@) == dedup_views(views_of(parts@).take(i as int)),
                    decreases m - i,
                {
                    let ghost done = views_of(parts@).take(i as int);
                    let ghost r0 = r@;
                    let present = contains_string(&r, &parts[i]);
                    if !present {
                        r.push(parts[i].clone());
                        proof {
                            lemma_views_of_push(r0, parts@[i as int]);
                            assert(views_of(r@) == dedup_views(done).push(
                                parts@[i as int]@,
                            ));
                        }
                    }
                    proof {
                        let next = views_of(parts@).take(i + 1);
                        assert(next.drop_last() =~= done);
                        assert(next.last() == parts@[i as int]@);
                        assert(views_of(r@) == dedup_views(next));
                    }
                    i += 1;
                }
                proof {
                    assert(views_of(parts@).take(m as int) =~= views_of(parts@));
                    assert forall|k1: int, k2: int|
                        0 <= k1 < k2 < r@.len() implies r@[k1]@ != r@[k2]@ by {
                        assert(views_of(r@)[k1] == r@[k1]@);
                        assert(views_of(r@)[k2] == r@[k2]@);
                    }
                }
                r
            },
        }
    }

    /// The value of the "id" attribute, if it is set.
    pub fn get_id(&self) -> (r: Option<String>)
        ensures
            match attr_lookup(self.attributes@, "id"@) {
                Some(v) => r is Some && r->Some_0@ == v,
                None => r is None,
            },
    {
        let key = String::from_str("id");
        self.attributes.get(&key)
    }
}

/// Builds the sample tree: a "root" element carrying two attributes, with
/// two text children.
pub fn create_node() -> (r: Node)
    ensures
        r.node_type matches NodeType::Element(d) && d.tag_name@ == "root"@ && d.attributes@
            == seq![("attr1"@, "value1"@), ("attr2"@, "value2"@)],
        r.children@.len() == 2,
        r.children@[0].node_type matches NodeType::Text(t) && t@ == "text_node1"@,
        r.children@[0].children@.len() == 0,
        r.children@[1].node_type matches NodeType::Text(t) && t@ == "text_node2"@,
        r.children@[1].children@.len() == 0,
{
    let node_type1 = NodeType::Text(String::from_str("text_node1"));
    let node1 = Node::new(node_type1, Vec::new());

    let node_type2 = NodeType::Text(String::from_str("text_node2"));
    let node2 = Node::new(node_type2, Vec::new());

    let mut root_element_data_attrs = AttrMap::new();
    root_element_data_attrs.insert(String::from_str("attr1"), String::from_str("value1"));
    proof {
        reveal_strlit("attr1");
        reveal_strlit("attr2");
        assert(("attr1"@)[4] != ("attr2"@)[4]);
        assert(root_element_data_attrs@ =~= seq![("attr1"@, "value1"@)]);
    }
    root_element_data_attrs.insert(String::from_str("attr2"), String::from_str("value2"));
    proof {
        let s = seq![("attr1"@, "value1"@)];
        assert(s.subrange(1, 1) =~= Seq::<(Seq<char>, Seq<char>)>::empty());
        assert(find_key(s.subrange(1, 1), "attr2"@) is None);
        assert(find_key(s, "attr2"@) is None);
        assert(root_element_data_attrs@ =~= seq![
            ("attr1"@, "value1"@),
            ("attr2"@, "value2"@),
        ]);
    }

    let root_element_data = ElementData::new(
        String::from_str("root"),
        root_element_data_attrs,
    );

    let root_type = NodeType::Element(root_element_data);
    let mut root_children: Vec<Node> = Vec::new();
    root_children.push(node1);
    root_children.push(node2);
    let root = Node::new(root_type, root_children);
    root
}

} // verus!
