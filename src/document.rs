//! The document model: a node tree that mirrors the source text, indexed by logical key, so
//! that edits can be written back without disturbing untouched lines.
use vstd::prelude::*;
use crate::error::{ConfigError, ParseResult};
use crate::text::{join, owned, push_str, push_char, views};
use crate::table::{find_index, keys_unique, lookup, lemma_lookup_at};

verus! {

/// One construct of a configuration file, with the text it was read from.
#[derive(Debug)]
pub enum DocumentNode {
    /// A comment; `text` follows the `#`.
    Comment { text: String, line: usize },
    /// An empty line.
    BlankLine { line: usize },
    /// `$NAME = value`.
    VariableDef { name: String, value: String, raw: String, line: usize },
    /// `key = value`.
    Assignment { key: Vec<String>, value: String, raw: String, line: usize },
    /// `name { ... }`.
    CategoryBlock {
        name: String,
        nodes: Vec<DocumentNode>,
        open_line: usize,
        close_line: usize,
        raw_open: String,
    },
    /// `name[key] { ... }`.
    SpecialCategoryBlock {
        name: String,
        key: Option<String>,
        nodes: Vec<DocumentNode>,
        open_line: usize,
        close_line: usize,
        raw_open: String,
    },
    /// `keyword [flags] = value`.
    HandlerCall { keyword: String, flags: Option<String>, value: String, raw: String, line: usize },
    /// `source = path`.
    Source { path: String, raw: String, line: usize },
    /// `# hyprlang <directive> [args]`.
    CommentDirective { directive_type: String, args: Option<String>, raw: String, line: usize },
}

/// The kind of node that a location points at.
#[derive(Debug, Clone, Copy, PartialEq, Eq, Structural)]
pub enum NodeType {
    VariableDef,
    Assignment,
    HandlerCall,
    CategoryBlock,
    SpecialCategoryBlock,
}

/// The position of a node: its index at each level, from the root down.
#[derive(Debug)]
pub struct NodeLocation {
    pub path: Vec<usize>,
    pub node_type: NodeType,
}

/// The indentation of nesting depth `depth`: two spaces per level.
pub open spec fn indentation(depth: nat) -> Seq<char>
    decreases depth,
{
    if depth == 0 {
        Seq::empty()
    } else {
        indentation((depth - 1) as nat) + seq![' ', ' ']
    }
}

/// The text of `nodes` at nesting depth `depth`.
pub open spec fn render(nodes: Seq<DocumentNode>, depth: nat) -> Seq<char>
    decreases nodes,
{
    if nodes.len() == 0 {
        Seq::empty()
    } else {
        render(nodes.subrange(0, nodes.len() - 1), depth) + render_node(nodes[nodes.len() - 1], depth)
    }
}

/// The text of one node at nesting depth `depth`; a block renders its children one level
/// deeper and closes with `}`.
pub open spec fn render_node(node: DocumentNode, depth: nat) -> Seq<char>
    decreases node,
{
    let ind = indentation(depth);
    match node {
        DocumentNode::Comment { text, .. } => ind + seq!['#'] + text@ + seq!['\n'],
        DocumentNode::BlankLine { .. } => seq!['\n'],
        DocumentNode::VariableDef { raw, .. } => ind + raw@ + seq!['\n'],
        DocumentNode::Assignment { raw, .. } => ind + raw@ + seq!['\n'],
        DocumentNode::CategoryBlock { raw_open, nodes, .. } => ind + raw_open@ + seq!['\n'] + render(
            nodes@,
            depth + 1,
        ) + ind + seq!['}', '\n'],
        DocumentNode::SpecialCategoryBlock { raw_open, nodes, .. } => ind + raw_open@ + seq!['\n']
            + render(nodes@, depth + 1) + ind + seq!['}', '\n'],
        DocumentNode::HandlerCall { raw, .. } => ind + raw@ + seq!['\n'],
        DocumentNode::Source { raw, .. } => ind + raw@ + seq!['\n'],
        DocumentNode::CommentDirective { raw, .. } => ind + raw@ + seq!['\n'],
    }
}

fn push_line(out: &mut String, indent: &str, text: &str)
    ensures
        final(out)@ == old(out)@ + indent@ + text@ + seq!['\n'],
{
    push_str(out, indent);
    push_str(out, text);
    push_char(out, '\n');
}

fn render_nodes(nodes: &Vec<DocumentNode>, out: &mut String, indent: &str, Ghost(depth): Ghost<nat>)
    requires
        indent@ == indentation(depth),
    ensures
        final(out)@ == old(out)@ + render(nodes@, depth),
    decreases nodes@, 0nat,
{
    let mut i: usize = 0;
    assert(nodes@.subrange(0, 0) =~= Seq::<DocumentNode>::empty());
    while i < nodes.len()
        invariant
            indent@ == indentation(depth),
            0 <= i <= nodes@.len(),
            out@ == old(out)@ + render(nodes@.subrange(0, i as int), depth),
        decreases nodes@.len() - i,
    {
        proof {
            assert(decreases_to!(nodes@ => nodes@[i as int]));
        }
        render_one(&nodes[i], out, indent, Ghost(depth));
        proof {
            let s = nodes@.subrange(0, i + 1);
            assert(s.subrange(0, s.len() - 1) =~= nodes@.subrange(0, i as int));
            assert(s[s.len() - 1] == nodes@[i as int]);
            assert(out@ =~= old(out)@ + render(s, depth));
        }
        i += 1;
    }
    assert(nodes@.subrange(0, nodes@.len() as int) =~= nodes@);
}

fn render_block(raw_open: &String, children: &Vec<DocumentNode>, out: &mut String, indent: &str, Ghost(depth): Ghost<nat>)
    requires
        indent@ == indentation(depth),
    ensures
        final(out)@ == old(out)@ + (indentation(depth) + raw_open@ + seq!['\n'] + render(children@, depth + 1)
            + indentation(depth) + seq!['}', '\n']),
    decreases children@, 1nat,
{
    push_line(out, indent, raw_open.as_str());
    let mut inner = owned(indent);
    push_str(&mut inner, "  ");
    proof {
        reveal_strlit("  ");
        assert(inner@ =~= indentation(depth + 1));
    }
    let ghost mid = out@;
    render_nodes(children, out, inner.as_str(), Ghost(depth + 1));
    push_str(out, indent);
    push_char(out, '}');
    push_char(out, '\n');
    assert(out@ =~= old(out)@ + (indentation(depth) + raw_open@ + seq!['\n'] + render(children@, depth + 1)
        + indentation(depth) + seq!['}', '\n']));
}

fn render_one(node: &DocumentNode, out: &mut String, indent: &str, Ghost(depth): Ghost<nat>)
    requires
        indent@ == indentation(depth),
    ensures
        final(out)@ == old(out)@ + render_node(*node, depth),
    decreases node, 2nat,
{
    let ghost ind = indentation(depth);
    match node {
        DocumentNode::Comment { text, .. } => {
            push_str(out, indent);
            push_char(out, '#');
            push_str(out, text.as_str());
            push_char(out, '\n');
            assert(out@ =~= old(out)@ + (ind + seq!['#'] + text@ + seq!['\n']));
        },
        DocumentNode::BlankLine { .. } => {
            push_char(out, '\n');
        },
        DocumentNode::VariableDef { raw, .. } => {
            push_line(out, indent, raw.as_str());
            assert(out@ =~= old(out)@ + (ind + raw@ + seq!['\n']));
        },
        DocumentNode::Assignment { raw, .. } => {
            push_line(out, indent, raw.as_str());
            assert(out@ =~= old(out)@ + (ind + raw@ + seq!['\n']));
        },
        DocumentNode::CategoryBlock { raw_open, nodes, .. } => {
            render_block(raw_open, nodes, out, indent, Ghost(depth));
        },
        DocumentNode::SpecialCategoryBlock { raw_open, nodes, .. } => {
            render_block(raw_open, nodes, out, indent, Ghost(depth));
        },
        DocumentNode::HandlerCall { raw, .. } => {
            push_line(out, indent, raw.as_str());
            assert(out@ =~= old(out)@ + (ind + raw@ + seq!['\n']));
        },
        DocumentNode::Source { raw, .. } => {
            push_line(out, indent, raw.as_str());
            assert(out@ =~= old(out)@ + (ind + raw@ + seq!['\n']));
        },
        DocumentNode::CommentDirective { raw, .. } => {
            push_line(out, indent, raw.as_str());
            assert(out@ =~= old(out)@ + (ind + raw@ + seq!['\n']));
        },
    }
}

/// A logical key, a node path and the node's kind.
pub type Entry = (Seq<char>, Seq<int>, NodeType);

/// A path of indices as integers.
pub open spec fn ints(p: Seq<usize>) -> Seq<int> {
    p.map_values(|x: usize| x as int)
}

/// `k` qualified by the category path `cats`.
pub open spec fn qualified(cats: Seq<Seq<char>>, k: Seq<char>) -> Seq<char> {
    if cats.len() == 0 {
        k
    } else {
        join(cats, ":"@) + ":"@ + k
    }
}

/// The path segment that a special category block adds.
pub open spec fn special_segment(name: Seq<char>, key: Option<String>) -> Seq<char> {
    match key {
        Some(k) => name + "["@ + k@ + "]"@,
        None => name,
    }
}

/// The keyed nodes of `nodes`, depth first: `prefix` is the path of their parent and `cats`
/// the category path around them.
pub open spec fn entries(nodes: Seq<DocumentNode>, prefix: Seq<int>, cats: Seq<Seq<char>>) -> Seq<Entry>
    decreases nodes,
{
    if nodes.len() == 0 {
        Seq::empty()
    } else {
        entries(nodes.subrange(0, nodes.len() - 1), prefix, cats) + node_entries(
            nodes[nodes.len() - 1],
            prefix.push(nodes.len() - 1),
            cats,
        )
    }
}

/// The keyed nodes of `node`, which stands at `path`.
pub open spec fn node_entries(node: DocumentNode, path: Seq<int>, cats: Seq<Seq<char>>) -> Seq<Entry>
    decreases node,
{
    match node {
        DocumentNode::VariableDef { name, .. } => seq![("$"@ + name@, path, NodeType::VariableDef)],
        DocumentNode::Assignment { key, .. } => seq![
            (qualified(cats, join(views(key@), ":"@)), path, NodeType::Assignment),
        ],
        DocumentNode::HandlerCall { keyword, .. } => seq![
            (qualified(cats, keyword@), path, NodeType::HandlerCall),
        ],
        DocumentNode::CategoryBlock { name, nodes, .. } => entries(nodes@, path, cats.push(name@)),
        DocumentNode::SpecialCategoryBlock { name, key, nodes, .. } => entries(
            nodes@,
            path,
            cats.push(special_segment(name@, key)),
        ),
        _ => Seq::empty(),
    }
}

/// The locations recorded for `k`, in document order.
pub open spec fn locations_for(es: Seq<Entry>, k: Seq<char>) -> Seq<(Seq<int>, NodeType)>
    decreases es.len(),
{
    if es.len() == 0 {
        Seq::empty()
    } else {
        let e = es[es.len() - 1];
        let before = locations_for(es.subrange(0, es.len() - 1), k);
        if e.0 == k {
            before.push((e.1, e.2))
        } else {
            before
        }
    }
}

/// The mathematical content of a location.
pub open spec fn loc_view(l: NodeLocation) -> (Seq<int>, NodeType) {
    (ints(l.path@), l.node_type)
}

pub open spec fn loc_views(ls: Seq<NodeLocation>) -> Seq<(Seq<int>, NodeType)> {
    ls.map_values(|l: NodeLocation| loc_view(l))
}

pub open spec fn entry_views(es: Seq<(String, NodeLocation)>) -> Seq<Entry> {
    es.map_values(|e: (String, NodeLocation)| (e.0@, ints(e.1.path@), e.1.node_type))
}

fn copy_path(p: &Vec<usize>) -> (r: Vec<usize>)
    ensures
        r@ == p@,
{
    let mut out: Vec<usize> = Vec::new();
    let mut i: usize = 0;
    while i < p.len()
        invariant
            0 <= i <= p@.len(),
            out@ == p@.take(i as int),
        decreases p@.len() - i,
    {
        out.push(p[i]);
        i += 1;
        assert(out@ =~= p@.take(i as int));
    }
    assert(p@.take(p@.len() as int) =~= p@);
    out
}

fn copy_location(l: &NodeLocation) -> (r: NodeLocation)
    ensures
        loc_view(r) == loc_view(*l),
{
    NodeLocation { path: copy_path(&l.path), node_type: l.node_type }
}

pub(crate) fn qualify(cats: &Vec<String>, k: &str) -> (r: String)
    ensures
        r@ == qualified(views(cats@), k@),
{
    if cats.len() == 0 {
        return owned(k);
    }
    let mut out = crate::text::join_strings(cats.as_slice(), cats.len(), ":");
    assert(cats@.take(cats@.len() as int) =~= cats@);
    push_str(&mut out, ":");
    push_str(&mut out, k);
    out
}

fn push_entry(out: &mut Vec<(String, NodeLocation)>, key: String, path: Vec<usize>, t: NodeType)
    ensures
        entry_views(final(out)@) == entry_views(old(out)@).push((key@, ints(path@), t)),
{
    let ghost pre = out@;
    out.push((key, NodeLocation { path, node_type: t }));
    assert(entry_views(out@) =~= entry_views(pre).push((key@, ints(path@), t)));
}

fn collect_entries(nodes: &Vec<DocumentNode>, prefix: &Vec<usize>, cats: &Vec<String>, out: &mut Vec<(String, NodeLocation)>)
    ensures
        entry_views(final(out)@) == entry_views(old(out)@) + entries(nodes@, ints(prefix@), views(cats@)),
    decreases nodes@, 0nat,
{
    let mut i: usize = 0;
    assert(nodes@.subrange(0, 0) =~= Seq::<DocumentNode>::empty());
    assert(entry_views(out@) + Seq::<Entry>::empty() =~= entry_views(out@));
    while i < nodes.len()
        invariant
            0 <= i <= nodes@.len(),
            entry_views(out@) == entry_views(old(out)@) + entries(nodes@.subrange(0, i as int), ints(prefix@), views(cats@)),
        decreases nodes@.len() - i,
    {
        let mut path = copy_path(prefix);
        path.push(i);
        proof {
            assert(decreases_to!(nodes@ => nodes@[i as int]));
        }
        let ghost mid = entry_views(out@);
        collect_node(&nodes[i], &path, cats, out);
        proof {
            let sub = nodes@.subrange(0, i + 1);
            assert(sub.subrange(0, sub.len() - 1) =~= nodes@.subrange(0, i as int));
            assert(sub[sub.len() - 1] == nodes@[i as int]);
            assert(ints(path@) =~= ints(prefix@).push(i as int));
            assert(entries(sub, ints(prefix@), views(cats@)) == entries(nodes@.subrange(0, i as int), ints(prefix@), views(cats@))
                + node_entries(nodes@[i as int], ints(prefix@).push(i as int), views(cats@)));
            assert(entry_views(out@) =~= entry_views(old(out)@) + entries(sub, ints(prefix@), views(cats@)));
        }
        i += 1;
    }
    assert(nodes@.subrange(0, nodes@.len() as int) =~= nodes@);
}

fn collect_node(node: &DocumentNode, path: &Vec<usize>, cats: &Vec<String>, out: &mut Vec<(String, NodeLocation)>)
    ensures
        entry_views(final(out)@) == entry_views(old(out)@) + node_entries(*node, ints(path@), views(cats@)),
    decreases node, 1nat,
{
    match node {
        DocumentNode::VariableDef { name, .. } => {
            let mut k = owned("$");
            push_str(&mut k, name.as_str());
            push_entry(out, k, copy_path(path), NodeType::VariableDef);
            assert(entry_views(out@) =~= entry_views(old(out)@) + node_entries(*node, ints(path@), views(cats@)));
        },
        DocumentNode::Assignment { key, .. } => {
            let joined = crate::text::join_strings(key.as_slice(), key.len(), ":");
            assert(key@.take(key@.len() as int) =~= key@);
            let k = qualify(cats, joined.as_str());
            push_entry(out, k, copy_path(path), NodeType::Assignment);
            assert(entry_views(out@) =~= entry_views(old(out)@) + node_entries(*node, ints(path@), views(cats@)));
        },
        DocumentNode::HandlerCall { keyword, .. } => {
            let k = qualify(cats, keyword.as_str());
            push_entry(out, k, copy_path(path), NodeType::HandlerCall);
            assert(entry_views(out@) =~= entry_views(old(out)@) + node_entries(*node, ints(path@), views(cats@)));
        },
        DocumentNode::CategoryBlock { name, nodes, .. } => {
            let mut inner = crate::text::clone_strings(cats.as_slice());
            inner.push(name.clone());
            assert(views(inner@) =~= views(cats@).push(name@));
            proof {
                assert(decreases_to!(node => nodes@));
            }
            collect_entries(nodes, path, &inner, out);
        },
        DocumentNode::SpecialCategoryBlock { name, key, nodes, .. } => {
            let mut seg = name.clone();
            match key {
                Some(k) => {
                    push_str(&mut seg, "[");
                    push_str(&mut seg, k.as_str());
                    push_str(&mut seg, "]");
                },
                None => {},
            }
            let mut inner = crate::text::clone_strings(cats.as_slice());
            inner.push(seg);
            assert(views(inner@) =~= views(cats@).push(special_segment(name@, *key)));
            proof {
                assert(decreases_to!(node => nodes@));
            }
            collect_entries(nodes, path, &inner, out);
        },
        _ => {
            assert(entry_views(out@) =~= entry_views(old(out)@) + node_entries(*node, ints(path@), views(cats@)));
        },
    }
}

/// Whether `idx` maps each key to its locations in `es`, in order, and holds no key
/// without locations.
pub open spec fn index_matches(idx: Seq<(String, Vec<NodeLocation>)>, es: Seq<Entry>) -> bool {
    &&& keys_unique(idx)
    &&& forall|k: Seq<char>|
        match #[trigger] lookup(idx, k) {
            Some(v) => loc_views(v@) == locations_for(es, k) && v@.len() > 0,
            None => locations_for(es, k).len() == 0,
        }
}

fn group_entries(es: &Vec<(String, NodeLocation)>) -> (r: Vec<(String, Vec<NodeLocation>)>)
    ensures
        index_matches(r@, entry_views(es@)),
{
    let ghost all = entry_views(es@);
    let mut idx: Vec<(String, Vec<NodeLocation>)> = Vec::new();
    let mut i: usize = 0;
    proof {
        assert(all.take(0) =~= Seq::<Entry>::empty());
        assert forall|k: Seq<char>| #[trigger] lookup(idx@, k) is None by {}
    }
    while i < es.len()
        invariant
            all == entry_views(es@),
            0 <= i <= es@.len(),
            index_matches(idx@, all.take(i as int)),
        decreases es@.len() - i,
    {
        let key = &es[i].0;
        let loc = copy_location(&es[i].1);
        let ghost e = all[i as int];
        assert(e == (key@, loc_view(loc).0, loc_view(loc).1));
        let ghost pre = idx@;
        let mut locs: Vec<NodeLocation> = match crate::table::remove(&mut idx, key.as_str()) {
            Some(v) => v,
            None => Vec::new(),
        };
        let ghost before = locs@;
        locs.push(loc);
        assert(loc_views(locs@) =~= loc_views(before).push(loc_view(loc)));
        crate::table::insert(&mut idx, key.as_str(), locs);
        proof {
            let t = all.take(i + 1);
            assert(t.subrange(0, t.len() - 1) =~= all.take(i as int));
            assert(t[t.len() - 1] == e);
            assert forall|k: Seq<char>| match #[trigger] lookup(idx@, k) {
                Some(v) => loc_views(v@) == locations_for(t, k) && v@.len() > 0,
                None => locations_for(t, k).len() == 0,
            } by {
                if k == key@ {
                    match lookup(pre, k) {
                        Some(v) => { assert(before == v@); },
                        None => { assert(before.len() == 0); assert(loc_views(before) =~= locations_for(all.take(i as int), k)); },
                    }
                } else {
                    assert(lookup(idx@, k) == lookup(pre, k));
                }
            }
        }
        i += 1;
    }
    assert(all.take(es@.len() as int) =~= all);
    idx
}

/// The node at `path` below `nodes`, if there is one.
pub open spec fn node_at(nodes: Seq<DocumentNode>, path: Seq<int>) -> Option<DocumentNode>
    decreases path.len(),
{
    if path.len() == 0 || path[0] < 0 || path[0] >= nodes.len() {
        None
    } else if path.len() == 1 {
        Some(nodes[path[0]])
    } else {
        match nodes[path[0]] {
            DocumentNode::CategoryBlock { nodes: ch, .. } => node_at(ch@, path.skip(1)),
            DocumentNode::SpecialCategoryBlock { nodes: ch, .. } => node_at(ch@, path.skip(1)),
            _ => None,
        }
    }
}

/// Whether `n` is a node of kind `t`.
pub open spec fn has_kind(n: DocumentNode, t: NodeType) -> bool {
    match t {
        NodeType::VariableDef => n is VariableDef,
        NodeType::Assignment => n is Assignment,
        NodeType::HandlerCall => n is HandlerCall,
        NodeType::CategoryBlock => n is CategoryBlock,
        NodeType::SpecialCategoryBlock => n is SpecialCategoryBlock,
    }
}

/// The children of a block; nothing for other nodes.
pub open spec fn children(n: DocumentNode) -> Seq<DocumentNode> {
    match n {
        DocumentNode::CategoryBlock { nodes, .. } => nodes@,
        DocumentNode::SpecialCategoryBlock { nodes, .. } => nodes@,
        _ => Seq::empty(),
    }
}

proof fn lemma_node_at_prefix(nodes: Seq<DocumentNode>, m: int, q: Seq<int>)
    requires
        0 <= m <= nodes.len(),
        node_at(nodes.subrange(0, m), q) is Some,
    ensures
        node_at(nodes, q) == node_at(nodes.subrange(0, m), q),
{
    assert(nodes.subrange(0, m)[q[0]] == nodes[q[0]]);
}

proof fn lemma_entries_point(nodes: Seq<DocumentNode>, prefix: Seq<int>, cats: Seq<Seq<char>>, j: int)
    requires
        0 <= j < entries(nodes, prefix, cats).len(),
    ensures
        ({
            let e = entries(nodes, prefix, cats)[j];
            &&& e.1.len() > prefix.len()
            &&& e.1.subrange(0, prefix.len() as int) == prefix
            &&& node_at(nodes, e.1.skip(prefix.len() as int)) matches Some(n) && has_kind(n, e.2)
        }),
    decreases nodes, 0nat,
{
    assert(nodes.len() > 0);
    let n = nodes.len() as int;
    let sub = nodes.subrange(0, n - 1);
    let first = entries(sub, prefix, cats);
    let last = nodes[n - 1];
    let p = prefix.push(n - 1);
    let second = node_entries(last, p, cats);
    assert(entries(nodes, prefix, cats) == first + second);
    if j < first.len() {
        assert(decreases_to!(nodes => sub));
        lemma_entries_point(sub, prefix, cats, j);
        let e = first[j];
        lemma_node_at_prefix(nodes, n - 1, e.1.skip(prefix.len() as int));
    } else {
        assert(decreases_to!(nodes => nodes[n - 1]));
        lemma_node_entries_point(last, p, cats, j - first.len());
        let e = second[j - first.len()];
        let q = e.1.skip(prefix.len() as int);
        assert(e.1.subrange(0, prefix.len() as int) =~= e.1.subrange(0, p.len() as int).subrange(0, prefix.len() as int));
        assert(p.subrange(0, prefix.len() as int) =~= prefix);
        assert(q[0] == n - 1) by {
            assert(q[0] == e.1[prefix.len() as int]);
            assert(e.1.subrange(0, p.len() as int)[prefix.len() as int] == p[prefix.len() as int]);
        }
        assert(q.skip(1) =~= e.1.skip(p.len() as int));
        if e.1.len() == p.len() {
            assert(q.len() == 1);
        }
    }
}

proof fn lemma_node_entries_point(node: DocumentNode, path: Seq<int>, cats: Seq<Seq<char>>, j: int)
    requires
        0 <= j < node_entries(node, path, cats).len(),
    ensures
        ({
            let e = node_entries(node, path, cats)[j];
            &&& e.1.len() >= path.len()
            &&& e.1.subrange(0, path.len() as int) == path
            &&& e.1.len() == path.len() ==> has_kind(node, e.2)
            &&& e.1.len() > path.len() ==> (node_at(children(node), e.1.skip(path.len() as int)) matches Some(n)
                && has_kind(n, e.2))
        }),
    decreases node, 1nat,
{
    match node {
        DocumentNode::CategoryBlock { name, nodes, .. } => {
            assert(decreases_to!(node => nodes@));
            lemma_entries_point(nodes@, path, cats.push(name@), j);
        },
        DocumentNode::SpecialCategoryBlock { name, key, nodes, .. } => {
            assert(decreases_to!(node => nodes@));
            lemma_entries_point(nodes@, path, cats.push(special_segment(name@, key)), j);
        },
        _ => {
            assert(path.subrange(0, path.len() as int) =~= path);
        },
    }
}

/// Every location of the index points at a node of the kind it records.
pub proof fn lemma_indexed_nodes_exist(nodes: Seq<DocumentNode>, k: Seq<char>, j: int)
    requires
        0 <= j < locations_for(entries(nodes, Seq::empty(), Seq::empty()), k).len(),
    ensures
        ({
            let l = locations_for(entries(nodes, Seq::empty(), Seq::empty()), k)[j];
            node_at(nodes, l.0) matches Some(n) && has_kind(n, l.1)
        }),
{
    let es = entries(nodes, Seq::empty(), Seq::empty());
    let m = lemma_location_source(es, k, j);
    lemma_entries_point(nodes, Seq::empty(), Seq::empty(), m);
    assert(es[m].1.skip(0) =~= es[m].1);
}

proof fn lemma_location_source(es: Seq<Entry>, k: Seq<char>, j: int) -> (m: int)
    requires
        0 <= j < locations_for(es, k).len(),
    ensures
        0 <= m < es.len(),
        es[m].0 == k,
        locations_for(es, k)[j] == (es[m].1, es[m].2),
    decreases es.len(),
{
    let sub = es.subrange(0, es.len() - 1);
    let e = es[es.len() - 1];
    if e.0 == k && j == locations_for(sub, k).len() {
        es.len() - 1
    } else {
        let m = lemma_location_source(sub, k, j);
        m
    }
}

/// `new` is `old` with the node at `path` replaced by `node`, the blocks on the way keeping
/// everything but the changed child.
pub open spec fn replaced(old: Seq<DocumentNode>, new: Seq<DocumentNode>, path: Seq<int>, node: DocumentNode) -> bool
    decreases path.len(),
{
    &&& path.len() >= 1
    &&& 0 <= path[0] < old.len()
    &&& new.len() == old.len()
    &&& forall|j: int| 0 <= j < old.len() && j != path[0] ==> new[j] == old[j]
    &&& if path.len() == 1 {
        new[path[0]] == node
    } else {
        same_shell(old[path[0]], new[path[0]]) && replaced(
            children(old[path[0]]),
            children(new[path[0]]),
            path.skip(1),
            node,
        )
    }
}

/// `new` is `old` without the node at `path`, the blocks on the way keeping everything but
/// the removed child.
pub open spec fn removed(old: Seq<DocumentNode>, new: Seq<DocumentNode>, path: Seq<int>) -> bool
    decreases path.len(),
{
    &&& path.len() >= 1
    &&& 0 <= path[0] < old.len()
    &&& if path.len() == 1 {
        new == old.remove(path[0])
    } else {
        &&& new.len() == old.len()
        &&& forall|j: int| 0 <= j < old.len() && j != path[0] ==> new[j] == old[j]
        &&& same_shell(old[path[0]], new[path[0]])
        &&& removed(children(old[path[0]]), children(new[path[0]]), path.skip(1))
    }
}

/// Two blocks that agree on everything but their children.
pub open spec fn same_shell(a: DocumentNode, b: DocumentNode) -> bool {
    match (a, b) {
        (
            DocumentNode::CategoryBlock { name: n1, open_line: o1, close_line: c1, raw_open: r1, .. },
            DocumentNode::CategoryBlock { name: n2, open_line: o2, close_line: c2, raw_open: r2, .. },
        ) => n1 == n2 && o1 == o2 && c1 == c2 && r1 == r2,
        (
            DocumentNode::SpecialCategoryBlock {
                name: n1,
                key: k1,
                open_line: o1,
                close_line: c1,
                raw_open: r1,
                ..
            },
            DocumentNode::SpecialCategoryBlock {
                name: n2,
                key: k2,
                open_line: o2,
                close_line: c2,
                raw_open: r2,
                ..
            },
        ) => n1 == n2 && k1 == k2 && o1 == o2 && c1 == c2 && r1 == r2,
        _ => false,
    }
}

fn replace_node(nodes: &mut Vec<DocumentNode>, path: &Vec<usize>, d: usize, node: DocumentNode)
    requires
        d < path@.len(),
        node_at(old(nodes)@, ints(path@).skip(d as int)) is Some,
    ensures
        replaced(old(nodes)@, final(nodes)@, ints(path@).skip(d as int), node),
    decreases path@.len() - d,
{
    let ghost q = ints(path@).skip(d as int);
    let len = path.len();
    let i = path[d];
    assert(q[0] == i);
    if d + 1 == len {
        nodes.set(i, node);
        return;
    }
    assert(q.skip(1) =~= ints(path@).skip(d + 1));
    let ghost pre = nodes@;
    let taken = nodes.remove(i);
    match taken {
        DocumentNode::CategoryBlock { name, nodes: mut ch, open_line, close_line, raw_open } => {
            replace_node(&mut ch, path, d + 1, node);
            nodes.insert(i, DocumentNode::CategoryBlock { name, nodes: ch, open_line, close_line, raw_open });
        },
        DocumentNode::SpecialCategoryBlock { name, key, nodes: mut ch, open_line, close_line, raw_open } => {
            replace_node(&mut ch, path, d + 1, node);
            nodes.insert(
                i,
                DocumentNode::SpecialCategoryBlock { name, key, nodes: ch, open_line, close_line, raw_open },
            );
        },
        other => {
            nodes.insert(i, other);
        },
    }
    assert forall|j: int| 0 <= j < pre.len() && j != i implies nodes@[j] == pre[j] by {
        if j < i {
            assert(nodes@[j] == pre[j]);
        } else {
            assert(nodes@[j] == pre[j]);
        }
    }
}

fn remove_node(nodes: &mut Vec<DocumentNode>, path: &Vec<usize>, d: usize)
    requires
        d < path@.len(),
        node_at(old(nodes)@, ints(path@).skip(d as int)) is Some,
    ensures
        removed(old(nodes)@, final(nodes)@, ints(path@).skip(d as int)),
    decreases path@.len() - d,
{
    let ghost q = ints(path@).skip(d as int);
    let len = path.len();
    let i = path[d];
    assert(q[0] == i);
    if d + 1 == len {
        nodes.remove(i);
        return;
    }
    assert(q.skip(1) =~= ints(path@).skip(d + 1));
    let ghost pre = nodes@;
    let taken = nodes.remove(i);
    match taken {
        DocumentNode::CategoryBlock { name, nodes: mut ch, open_line, close_line, raw_open } => {
            remove_node(&mut ch, path, d + 1);
            nodes.insert(i, DocumentNode::CategoryBlock { name, nodes: ch, open_line, close_line, raw_open });
        },
        DocumentNode::SpecialCategoryBlock { name, key, nodes: mut ch, open_line, close_line, raw_open } => {
            remove_node(&mut ch, path, d + 1);
            nodes.insert(
                i,
                DocumentNode::SpecialCategoryBlock { name, key, nodes: ch, open_line, close_line, raw_open },
            );
        },
        other => {
            nodes.insert(i, other);
        },
    }
    assert forall|j: int| 0 <= j < pre.len() && j != i implies nodes@[j] == pre[j] by {
        assert(nodes@[j] == pre[j]);
    }
}

/// Whether no part of `parts` holds `c`.
pub open spec fn free_of(parts: Seq<Seq<char>>, c: char) -> bool {
    forall|i: int| 0 <= i < parts.len() ==> !parts[i].contains(c)
}

/// The parts of `s` between its `:` separators.
fn split_key(s: &str) -> (r: Vec<String>)
    ensures
        r@.len() > 0,
        join(views(r@), ":"@) == s@,
        free_of(views(r@), ':'),
{
    let v = crate::text::chars_of(s);
    let mut parts: Vec<String> = Vec::new();
    let mut cur: Vec<char> = Vec::new();
    let mut i: usize = 0;
    proof {
        reveal_strlit(":");
    }
    while i < v.len()
        invariant
            ":"@ == seq![':'],
            0 <= i <= v@.len(),
            v@ == s@,
            join(views(parts@).push(cur@), ":"@) == v@.take(i as int),
            free_of(views(parts@), ':'),
            !cur@.contains(':'),
        decreases v@.len() - i,
    {
        let c = v[i];
        let ghost ps = views(parts@);
        if c == ':' {
            let part = crate::text::string_of(&cur);
            parts.push(part);
            cur = Vec::new();
            proof {
                assert(views(parts@) =~= ps.push(part@));
                let xs = views(parts@).push(cur@);
                assert(xs.drop_last() =~= views(parts@));
                assert(join(xs, ":"@) == join(views(parts@), ":"@) + ":"@ + cur@);
                assert(views(parts@).drop_last() =~= ps);
                if ps.len() == 0 {
                    assert(join(views(parts@), ":"@) == part@);
                }
                assert(join(views(parts@), ":"@) == join(ps.push(part@), ":"@));
                assert(v@.take(i + 1) =~= v@.take(i as int).push(':'));
                assert(join(xs, ":"@) =~= v@.take(i + 1));
                assert forall|k: int| 0 <= k < views(parts@).len() implies !views(parts@)[k].contains(':') by {
                    if k < ps.len() {
                        assert(views(parts@)[k] == ps[k]);
                    }
                }
            }
        } else {
            let ghost old_cur = cur@;
            cur.push(c);
            proof {
                let before = ps.push(old_cur);
                let after = ps.push(cur@);
                assert(after.drop_last() =~= ps);
                assert(before.drop_last() =~= ps);
                if ps.len() == 0 {
                    assert(join(after, ":"@) == cur@);
                    assert(join(before, ":"@) == old_cur);
                } else {
                    assert(join(after, ":"@) == join(ps, ":"@) + ":"@ + cur@);
                    assert(join(before, ":"@) == join(ps, ":"@) + ":"@ + old_cur);
                }
                assert(v@.take(i + 1) =~= v@.take(i as int).push(c));
                assert(join(after, ":"@) =~= v@.take(i + 1));
                assert(!cur@.contains(':')) by {
                    if cur@.contains(':') {
                        let k = choose|k: int| 0 <= k < cur@.len() && cur@[k] == ':';
                        if k < old_cur.len() {
                            assert(old_cur[k] == ':');
                        }
                    }
                }
            }
        }
        i += 1;
    }
    let last = crate::text::string_of(&cur);
    let ghost ps = views(parts@);
    parts.push(last);
    proof {
        assert(views(parts@) =~= ps.push(cur@));
        assert(v@.take(v@.len() as int) =~= v@);
        assert forall|k: int| 0 <= k < views(parts@).len() implies !views(parts@)[k].contains(':') by {
            if k < ps.len() {
                assert(views(parts@)[k] == ps[k]);
            }
        }
    }
    parts
}

/// The text of a variable definition.
pub open spec fn variable_line(name: Seq<char>, value: Seq<char>) -> Seq<char> {
    "$"@ + name + " = "@ + value
}

/// The text of an assignment or a handler call.
pub open spec fn assignment_line(key: Seq<char>, value: Seq<char>) -> Seq<char> {
    key + " = "@ + value
}

fn line_of(first: &str, key: &str, value: &str) -> (r: String)
    ensures
        r@ == first@ + key@ + " = "@ + value@,
{
    let mut out = owned(first);
    push_str(&mut out, key);
    push_str(&mut out, " = ");
    push_str(&mut out, value);
    out
}

/// `new` is `old` with the node at `path` replaced by the node that `new` holds there.
pub open spec fn rewritten(old: Seq<DocumentNode>, new: Seq<DocumentNode>, path: Seq<int>) -> bool {
    node_at(new, path) is Some && replaced(old, new, path, node_at(new, path)->0)
}

proof fn lemma_replaced_at(old: Seq<DocumentNode>, new: Seq<DocumentNode>, path: Seq<int>, node: DocumentNode)
    requires
        replaced(old, new, path, node),
    ensures
        node_at(new, path) == Some(node),
    decreases path.len(),
{
    if path.len() > 1 {
        lemma_replaced_at(children(old[path[0]]), children(new[path[0]]), path.skip(1), node);
    }
}

fn block_children_mut(n: &mut DocumentNode) -> (r: &mut Vec<DocumentNode>)
    requires
        *old(n) is CategoryBlock || *old(n) is SpecialCategoryBlock,
    ensures
        r@ == children(*old(n)),
        same_shell(*old(n), *final(n)),
        children(*final(n)) == final(r)@,
{
    match n {
        DocumentNode::CategoryBlock { nodes, .. } => nodes,
        DocumentNode::SpecialCategoryBlock { nodes, .. } => nodes,
        _ => unreached(),
    }
}

fn node_mut<'a>(nodes: &'a mut Vec<DocumentNode>, path: &Vec<usize>, d: usize) -> (r: &'a mut DocumentNode)
    requires
        d < path@.len(),
        node_at(old(nodes)@, ints(path@).skip(d as int)) is Some,
    ensures
        Some(*r) == node_at(old(nodes)@, ints(path@).skip(d as int)),
        replaced(old(nodes)@, final(nodes)@, ints(path@).skip(d as int), *final(r)),
    decreases path@.len() - d,
{
    let ghost q = ints(path@).skip(d as int);
    let len = path.len();
    let i = path[d];
    assert(q[0] == i);
    if d + 1 == len {
        return &mut nodes[i];
    }
    assert(q.skip(1) =~= ints(path@).skip(d + 1));
    let ch = block_children_mut(&mut nodes[i]);
    node_mut(ch, path, d + 1)
}

/// Whether `a` and `b` index the same keys wherever they stand.
pub open spec fn same_keys(a: DocumentNode, b: DocumentNode) -> bool {
    forall|p: Seq<int>, c: Seq<Seq<char>>| #[trigger] node_entries(a, p, c) == node_entries(b, p, c)
}

proof fn lemma_entries_pointwise(a: Seq<DocumentNode>, b: Seq<DocumentNode>, prefix: Seq<int>, cats: Seq<Seq<char>>)
    requires
        a.len() == b.len(),
        forall|j: int|
            0 <= j < a.len() ==> #[trigger] node_entries(a[j], prefix.push(j), cats) == node_entries(
                b[j],
                prefix.push(j),
                cats,
            ),
    ensures
        entries(a, prefix, cats) == entries(b, prefix, cats),
    decreases a.len(),
{
    if a.len() > 0 {
        let n = a.len() as int;
        let sa = a.subrange(0, n - 1);
        let sb = b.subrange(0, n - 1);
        assert forall|j: int| 0 <= j < sa.len() implies #[trigger] node_entries(sa[j], prefix.push(j), cats)
            == node_entries(sb[j], prefix.push(j), cats) by {
            assert(sa[j] == a[j]);
            assert(sb[j] == b[j]);
            assert(node_entries(a[j], prefix.push(j), cats) == node_entries(b[j], prefix.push(j), cats));
        }
        lemma_entries_pointwise(sa, sb, prefix, cats);
        assert(node_entries(a[n - 1], prefix.push(n - 1), cats) == node_entries(b[n - 1], prefix.push(n - 1), cats));
    }
}

proof fn lemma_entries_replaced(old: Seq<DocumentNode>, new: Seq<DocumentNode>, path: Seq<int>, node: DocumentNode)
    requires
        replaced(old, new, path, node),
        node_at(old, path) matches Some(o) && same_keys(o, node),
    ensures
        forall|prefix: Seq<int>, cats: Seq<Seq<char>>| #[trigger] entries(new, prefix, cats) == entries(old, prefix, cats),
    decreases path.len(),
{
    let i = path[0];
    if path.len() > 1 {
        lemma_entries_replaced(children(old[i]), children(new[i]), path.skip(1), node);
    }
    assert forall|prefix: Seq<int>, cats: Seq<Seq<char>>| #[trigger] entries(new, prefix, cats) == entries(old, prefix, cats) by {
        assert forall|j: int| 0 <= j < old.len() implies #[trigger] node_entries(old[j], prefix.push(j), cats)
            == node_entries(new[j], prefix.push(j), cats) by {
            if j == i {
                if path.len() == 1 {
                    let o = node_at(old, path)->0;
                    assert(node_entries(o, prefix.push(j), cats) == node_entries(node, prefix.push(j), cats));
                } else {
                    match old[i] {
                        DocumentNode::CategoryBlock { name, nodes, .. } => {
                            assert(entries(children(new[i]), prefix.push(j), cats.push(name@)) == entries(
                                children(old[i]),
                                prefix.push(j),
                                cats.push(name@),
                            ));
                        },
                        DocumentNode::SpecialCategoryBlock { name, key, nodes, .. } => {
                            let seg = special_segment(name@, key);
                            assert(entries(children(new[i]), prefix.push(j), cats.push(seg)) == entries(
                                children(old[i]),
                                prefix.push(j),
                                cats.push(seg),
                            ));
                        },
                        _ => {},
                    }
                }
            }
        }
        lemma_entries_pointwise(new, old, prefix, cats);
    }
}

/// Whether looking `key` up in `doc` finds an assignment of `value` at its first location.
pub open spec fn finds_value(doc_tree: Seq<DocumentNode>, key: Seq<char>, value: Seq<char>) -> bool {
    let ls = locations_for(entries(doc_tree, Seq::empty(), Seq::empty()), key);
    &&& ls.len() > 0
    &&& node_at(doc_tree, ls[0].0) matches Some(DocumentNode::Assignment { value: v, .. }) && v@ == value
}

/// `after` is `before` with variable `name` set to `value`: its first definition rewritten in
/// place, or a new definition appended.
pub open spec fn variable_set(before: ConfigDocument, after: ConfigDocument, name: Seq<char>, value: Seq<char>) -> bool {
            let ls = locations_for(before.keyed(), "$"@ + name);
            if ls.len() > 0 {
                match node_at(before.tree(), ls[0].0) {
                    Some(DocumentNode::VariableDef { name: n, line, .. }) => {
                        &&& rewritten(before.tree(), after.tree(), ls[0].0)
                        &&& (node_at(after.tree(), ls[0].0) matches Some(
                            DocumentNode::VariableDef { name: n2, value: v2, raw: r2, line: l2 },
                        ) && n2 == n && v2@ == value && r2@ == variable_line(name, value) && l2
                            == line)
                    },
                    _ => after.tree() == before.tree(),
                }
            } else {
                &&& after.tree().len() == before.tree().len() + 1
                &&& after.tree().take(before.tree().len() as int) == before.tree()
                &&& (after.tree().last() matches DocumentNode::VariableDef {
                    name: n2,
                    value: v2,
                    raw: r2,
                    line: l2,
                } && n2@ == name && v2@ == value && r2@ == variable_line(name, value) && l2 == before.tree().len() + 1)
            }
}

/// A configuration document: its node tree and the index of its keys.
pub struct ConfigDocument {
    /// The top-level nodes.
    pub nodes: Vec<DocumentNode>,
    key_index: Vec<(String, Vec<NodeLocation>)>,
    /// The file the document was read from, if any.
    pub source_path: Option<String>,
}

impl ConfigDocument {
    /// The top-level nodes.
    pub closed spec fn tree(&self) -> Seq<DocumentNode> {
        self.nodes@
    }

    /// The file the document was read from, if any.
    pub closed spec fn source(&self) -> Option<String> {
        self.source_path
    }

    /// The keyed nodes of the document, depth first.
    pub open spec fn keyed(&self) -> Seq<Entry> {
        entries(self.tree(), Seq::empty(), Seq::empty())
    }

    /// The index agrees with the nodes.
    pub closed spec fn wf(&self) -> bool {
        index_matches(self.key_index@, self.keyed())
    }

    pub fn new() -> (r: Self)
        ensures
            r.wf(),
            r.tree().len() == 0,
            r.source() is None,
    {
        let r = ConfigDocument { nodes: Vec::new(), key_index: Vec::new(), source_path: None };
        assert forall|k: Seq<char>| #[trigger] lookup(r.key_index@, k) is None by {}
        r
    }

    /// A document holding `nodes`, indexed.
    pub fn with_nodes(nodes: Vec<DocumentNode>) -> (r: Self)
        ensures
            r.wf(),
            r.tree() == nodes@,
            r.source() is None,
    {
        let mut doc = ConfigDocument { nodes, key_index: Vec::new(), source_path: None };
        doc.rebuild_index();
        doc
    }

    /// Rebuilds the index from the nodes.
    pub fn rebuild_index(&mut self)
        ensures
            final(self).wf(),
            final(self).tree() == old(self).tree(),
            final(self).source() == old(self).source(),
    {
        let mut es: Vec<(String, NodeLocation)> = Vec::new();
        let prefix: Vec<usize> = Vec::new();
        let cats: Vec<String> = Vec::new();
        collect_entries(&self.nodes, &prefix, &cats, &mut es);
        assert(entry_views(es@) =~= self.keyed()) by {
            assert(views(cats@) =~= Seq::<Seq<char>>::empty());
            assert(ints(prefix@) =~= Seq::<int>::empty());
            assert(entry_views(Seq::<(String, NodeLocation)>::empty()) =~= Seq::<Entry>::empty());
        }
        self.key_index = group_entries(&es);
    }

    /// The document as text: each node's source line, blocks indented by two spaces per level.
    pub fn serialize(&self) -> (r: String)
        ensures
            r@ == render(self.tree(), 0),
    {
        let mut out = String::new();
        let indent = String::new();
        render_nodes(&self.nodes, &mut out, indent.as_str(), Ghost(0));
        assert(out@ =~= render(self.nodes@, 0));
        out
    }

    /// The locations of the nodes that define `key`, in document order.
    pub fn get_locations(&self, key: &str) -> (r: Option<&Vec<NodeLocation>>)
        requires
            self.wf(),
        ensures
            match r {
                Some(v) => loc_views(v@) == locations_for(self.keyed(), key@) && v@.len() > 0,
                None => locations_for(self.keyed(), key@).len() == 0,
            },
    {
        match find_index(&self.key_index, key) {
            Some(i) => {
                proof {
                    lemma_lookup_at(self.key_index@, i as int);
                    assert(lookup(self.key_index@, key@) is Some);
                }
                Some(&self.key_index[i].1)
            },
            None => {
                assert(lookup(self.key_index@, key@) is None);
                None
            },
        }
    }

    /// The node at `location`.
    pub fn get_node_at(&self, location: &NodeLocation) -> (r: ParseResult<&DocumentNode>)
        ensures
            match node_at(self.tree(), ints(location.path@)) {
                Some(n) => r matches Ok(x) && *x == n,
                None => r matches Err(ConfigError::Custom { .. }),
            },
    {
        let path = &location.path;
        let n = path.len();
        if n == 0 {
            return Err(ConfigError::custom("empty node path"));
        }
        let mut current: &Vec<DocumentNode> = &self.nodes;
        assert(current@ == self.tree());
        let mut d: usize = 0;
        assert(ints(path@).skip(0) =~= ints(path@));
        while d + 1 < n
            invariant
                n == path@.len(),
                0 <= d < n,
                path@ == location.path@,
                node_at(self.tree(), ints(path@)) == node_at(current@, ints(path@).skip(d as int)),
            decreases n - d,
        {
            let i = path[d];
            let ghost rest = ints(path@).skip(d as int);
            assert(rest[0] == i);
            assert(rest.skip(1) =~= ints(path@).skip(d + 1));
            assert(rest.len() >= 2);
            if i >= current.len() {
                assert(node_at(current@, rest) is None);
                return Err(ConfigError::custom("node path out of bounds"));
            }
            current = match &current[i] {
                DocumentNode::CategoryBlock { nodes: ch, .. } => ch,
                DocumentNode::SpecialCategoryBlock { nodes: ch, .. } => ch,
                _ => {
                    assert(node_at(current@, rest) is None);
                    return Err(ConfigError::custom("node path runs through a node that is not a block"));
                },
            };
            d += 1;
        }
        let i = path[d];
        if i >= current.len() {
            return Err(ConfigError::custom("node path out of bounds"));
        }
        Ok(&current[i])
    }

    /// The path of the first node that defines `key`, if any.
    fn first_location(&self, key: &str) -> (r: Option<Vec<usize>>)
        requires
            self.wf(),
        ensures
            match r {
                Some(p) => {
                    &&& locations_for(self.keyed(), key@).len() > 0
                    &&& ints(p@) == locations_for(self.keyed(), key@)[0].0
                    &&& (node_at(self.tree(), ints(p@)) matches Some(n) && has_kind(
                        n,
                        locations_for(self.keyed(), key@)[0].1,
                    ))
                },
                None => locations_for(self.keyed(), key@).len() == 0,
            },
    {
        match self.get_locations(key) {
            Some(v) => {
                proof {
                    lemma_indexed_nodes_exist(self.tree(), key@, 0);
                    assert(loc_views(v@)[0] == loc_view(v@[0]));
                }
                Some(copy_path(&v[0].path))
            },
            None => None,
        }
    }

    /// Sets variable `name` to `value`: the first definition is rewritten in place, or a new
    /// definition is put first.
    pub fn update_or_insert_variable(&mut self, name: &str, value: &str) -> (r: ParseResult<()>)
        requires
            old(self).wf(),
            old(self).tree().len() < usize::MAX,
        ensures
            r is Ok,
            final(self).wf(),
            final(self).source() == old(self).source(),
            variable_set(*old(self), *final(self), name@, value@),
    {
        let mut key = owned("$");
        push_str(&mut key, name);
        let raw = line_of("$", name, value);
        match self.first_location(key.as_str()) {
            Some(path) => {
                let loc = NodeLocation { path, node_type: NodeType::VariableDef };
                let replacement = match self.get_node_at(&loc) {
                    Ok(DocumentNode::VariableDef { name: n, line, .. }) => DocumentNode::VariableDef {
                        name: n.clone(),
                        value: owned(value),
                        raw,
                        line: *line,
                    },
                    _ => return Ok(()),
                };
                let ghost target = replacement;
                assert(ints(loc.path@).skip(0) =~= ints(loc.path@));
                assert(self.nodes@ == self.tree());
                replace_node(&mut self.nodes, &loc.path, 0, replacement);
                proof {
                    assert(ints(loc.path@).skip(0) =~= ints(loc.path@));
                    lemma_replaced_at(old(self).tree(), self.tree(), ints(loc.path@), target);
                }
            },
            None => {
                let line = self.nodes.len() + 1;
                self.nodes.push(DocumentNode::VariableDef { name: owned(name), value: owned(value), raw, line });
                assert(self.tree().take(old(self).tree().len() as int) =~= old(self).tree());
            },
        }
        self.rebuild_index();
        Ok(())
    }

    /// Sets `key_path` to `value`: the first assignment of the key is rewritten in place, or
    /// a new assignment is appended.
    pub fn update_or_insert_value(&mut self, key_path: &str, value: &str) -> (r: ParseResult<()>)
        requires
            old(self).wf(),
            old(self).tree().len() < usize::MAX,
        ensures
            r is Ok,
            final(self).wf(),
            final(self).source() == old(self).source(),
            ({
                let ls = locations_for(old(self).keyed(), key_path@);
                if ls.len() > 0 {
                    match node_at(old(self).tree(), ls[0].0) {
                        Some(DocumentNode::Assignment { key: k, line, .. }) => {
                            &&& rewritten(old(self).tree(), final(self).tree(), ls[0].0)
                            &&& (node_at(final(self).tree(), ls[0].0) matches Some(
                                DocumentNode::Assignment { key: k2, value: v2, raw: r2, line: l2 },
                            ) && k2@ == k@ && v2@ == value@ && r2@ == assignment_line(
                                join(views(k@), ":"@),
                                value@,
                            ) && l2 == line)
                        },
                        _ => final(self).tree() == old(self).tree(),
                    }
                } else {
                    &&& final(self).tree().len() == old(self).tree().len() + 1
                    &&& final(self).tree().take(old(self).tree().len() as int) == old(self).tree()
                    &&& (final(self).tree().last() matches DocumentNode::Assignment {
                        key: k2,
                        value: v2,
                        raw: r2,
                        line: l2,
                    } && join(views(k2@), ":"@) == key_path@ && free_of(views(k2@), ':') && v2@
                        == value@ && r2@ == assignment_line(key_path@, value@) && l2
                        == old(self).tree().len() + 1)
                }
            }),
            ({
                let ls = locations_for(old(self).keyed(), key_path@);
                ls.len() == 0 || node_at(old(self).tree(), ls[0].0) matches Some(DocumentNode::Assignment { .. })
            }) ==> finds_value(final(self).tree(), key_path@, value@),
    {
        match self.first_location(key_path) {
            Some(path) => {
                let loc = NodeLocation { path, node_type: NodeType::Assignment };
                let replacement = match self.get_node_at(&loc) {
                    Ok(DocumentNode::Assignment { key, line, .. }) => {
                        let joined = crate::text::join_strings(key.as_slice(), key.len(), ":");
                        assert(key@.take(key@.len() as int) =~= key@);
                        DocumentNode::Assignment {
                            key: crate::text::clone_strings(key.as_slice()),
                            value: owned(value),
                            raw: line_of("", joined.as_str(), value),
                            line: *line,
                        }
                    },
                    _ => return Ok(()),
                };
                proof {
                    reveal_strlit("");
                }
                let ghost target = replacement;
                assert(ints(loc.path@).skip(0) =~= ints(loc.path@));
                assert(self.nodes@ == self.tree());
                replace_node(&mut self.nodes, &loc.path, 0, replacement);
                proof {
                    lemma_replaced_at(old(self).tree(), self.tree(), ints(loc.path@), target);
                    let o = node_at(old(self).tree(), ints(loc.path@))->0;
                    assert(same_keys(o, target)) by {
                        assert forall|p: Seq<int>, c: Seq<Seq<char>>| #[trigger] node_entries(o, p, c) == node_entries(target, p, c) by {
                            match (o, target) {
                                (DocumentNode::Assignment { key: k1, .. }, DocumentNode::Assignment { key: k2, .. }) => {
                                    assert(views(k1@) == views(k2@));
                                },
                                _ => {},
                            }
                        }
                    }
                    lemma_entries_replaced(old(self).tree(), self.tree(), ints(loc.path@), target);
                    assert(self.keyed() == old(self).keyed());
                }
            },
            None => {
                proof {
                    reveal_strlit("");
                }
                let line = self.nodes.len() + 1;
                let fresh = DocumentNode::Assignment {
                    key: split_key(key_path),
                    value: owned(value),
                    raw: line_of("", key_path, value),
                    line,
                };
                let ghost added = fresh;
                self.nodes.push(fresh);
                proof {
                    let t = self.tree();
                    let n = old(self).tree().len() as int;
                    assert(t.take(n) =~= old(self).tree());
                    assert(t.subrange(0, n) =~= old(self).tree());
                    assert(t[n] == added);
                    let e = entries(old(self).tree(), Seq::empty(), Seq::empty());
                    assert(entries(t, Seq::empty(), Seq::empty()) == e + node_entries(added, Seq::<int>::empty().push(n), Seq::empty()));
                    let ne = node_entries(added, Seq::<int>::empty().push(n), Seq::empty());
                    assert(ne.len() == 1 && ne[0].0 == key_path@ && ne[0].1 == seq![n]);
                    let all = e + ne;
                    assert(all.subrange(0, all.len() - 1) =~= e);
                    assert(locations_for(all, key_path@) == locations_for(e, key_path@).push((seq![n], NodeType::Assignment)));
                    assert(seq![n].skip(1).len() == 0);
                    assert(node_at(t, seq![n]) == Some(added));
                }
            },
        }
        self.rebuild_index();
        Ok(())
    }

    /// Appends the handler call `keyword = value`.
    pub fn add_handler_call(&mut self, keyword: &str, value: &str) -> (r: ParseResult<()>)
        requires
            old(self).wf(),
            old(self).tree().len() < usize::MAX,
        ensures
            r is Ok,
            final(self).wf(),
            final(self).source() == old(self).source(),
            final(self).tree().len() == old(self).tree().len() + 1,
            final(self).tree().take(old(self).tree().len() as int) == old(self).tree(),
            final(self).tree().last() matches DocumentNode::HandlerCall {
                keyword: k2,
                flags: f2,
                value: v2,
                raw: r2,
                line: l2,
            } && k2@ == keyword@ && f2 is None && v2@ == value@ && r2@ == assignment_line(
                keyword@,
                value@,
            ) && l2 == old(self).tree().len() + 1,
    {
        proof {
            reveal_strlit("");
        }
        let line = self.nodes.len() + 1;
        self.nodes.push(DocumentNode::HandlerCall {
            keyword: owned(keyword),
            flags: None,
            value: owned(value),
            raw: line_of("", keyword, value),
            line,
        });
        assert(self.tree().take(old(self).tree().len() as int) =~= old(self).tree());
        self.rebuild_index();
        Ok(())
    }

    /// Removes the first node that defines `key_path`, if any.
    pub fn remove_value(&mut self, key_path: &str) -> (r: ParseResult<()>)
        requires
            old(self).wf(),
        ensures
            r is Ok,
            final(self).wf(),
            final(self).source() == old(self).source(),
            ({
                let ls = locations_for(old(self).keyed(), key_path@);
                if ls.len() > 0 {
                    removed(old(self).tree(), final(self).tree(), ls[0].0)
                } else {
                    final(self).tree() == old(self).tree()
                }
            }),
    {
        match self.first_location(key_path) {
            Some(path) => {
                let loc = NodeLocation { path, node_type: NodeType::Assignment };
                let r = self.remove_node_at(&loc);
                self.rebuild_index();
                r
            },
            None => Ok(()),
        }
    }

    /// Removes the first definition of variable `name`, if any.
    pub fn remove_variable(&mut self, name: &str) -> (r: ParseResult<()>)
        requires
            old(self).wf(),
        ensures
            r is Ok,
            final(self).wf(),
            final(self).source() == old(self).source(),
            ({
                let ls = locations_for(old(self).keyed(), "$"@ + name@);
                if ls.len() > 0 {
                    removed(old(self).tree(), final(self).tree(), ls[0].0)
                } else {
                    final(self).tree() == old(self).tree()
                }
            }),
    {
        let mut key = owned("$");
        push_str(&mut key, name);
        self.remove_value(key.as_str())
    }

    /// Removes the node at `location`; the index is left as it was.
    fn remove_node_at(&mut self, location: &NodeLocation) -> (r: ParseResult<()>)
        ensures
            final(self).source() == old(self).source(),
            match node_at(old(self).tree(), ints(location.path@)) {
                Some(_) => r is Ok && removed(old(self).tree(), final(self).tree(), ints(location.path@)),
                None => r is Err && final(self).tree() == old(self).tree(),
            },
    {
        match self.get_node_at(location) {
            Ok(_) => {},
            Err(e) => return Err(e),
        }
        assert(ints(location.path@).skip(0) =~= ints(location.path@));
        assert(self.nodes@ == self.tree());
        remove_node(&mut self.nodes, &location.path, 0);
        Ok(())
    }

    /// The node at `location`, to be changed in place; after a change that touches a key,
    /// call `rebuild_index`.
    pub fn get_node_at_mut(&mut self, location: &NodeLocation) -> (r: ParseResult<&mut DocumentNode>)
        ensures
            final(self).source() == old(self).source(),
            match node_at(old(self).tree(), ints(location.path@)) {
                Some(n) => r matches Ok(x) && *x == n && replaced(
                    old(self).tree(),
                    final(self).tree(),
                    ints(location.path@),
                    *final(x),
                ),
                None => r is Err && final(self).tree() == old(self).tree(),
            },
    {
        match self.get_node_at(location) {
            Ok(_) => {},
            Err(e) => return Err(e),
        }
        assert(ints(location.path@).skip(0) =~= ints(location.path@));
        assert(self.nodes@ == self.tree());
        Ok(node_mut(&mut self.nodes, &location.path, 0))
    }

    /// The number of top-level nodes.
    pub fn node_count(&self) -> (r: usize)
        ensures
            r == self.tree().len(),
    {
        self.nodes.len()
    }
}

} // verus!
