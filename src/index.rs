use vstd::prelude::*;
use vstd::string::*;
use crate::text::{contains, contains_exec, doc_title, doc_title_exec, ends_with, ends_with_exec, eq_exec, stem, stem_exec};

verus! {

broadcast use vstd::string::group_string_axioms;

/// One entry of a source directory, as listed by the host.
pub enum Node {
    /// A directory with its entries.
    Dir { name: String, children: Vec<Node> },
    /// A regular file; `content` is its text where the title needs it.
    File { name: String, content: String },
    /// A symbolic link, never followed.
    Link { name: String },
}

/// One line of the generated index.
pub struct IndexEntry {
    pub title: String,
    pub link: Option<String>,
    pub depth: usize,
}

/// What an index entry stands for: its title, its link target if any, and
/// its nesting depth.
pub struct EntryView {
    pub title: Seq<char>,
    pub link: Option<Seq<char>>,
    pub depth: nat,
}

impl View for IndexEntry {
    type V = EntryView;

    open spec fn view(&self) -> EntryView {
        EntryView {
            title: self.title@,
            link: match self.link {
                Some(l) => Some(l@),
                None => None,
            },
            depth: self.depth as nat,
        }
    }
}

pub open spec fn views(s: Seq<IndexEntry>) -> Seq<EntryView> {
    s.map_values(|e: IndexEntry| e@)
}

pub open spec fn is_draft(name: Seq<char>) -> bool {
    contains(name, "(draft)"@)
}

/// A markdown document that gets an entry of its own.
pub open spec fn is_listed_doc(name: Seq<char>) -> bool {
    ends_with(name, ".md"@) && name != "README.md"@ && name != "SUMMARY.md"@ && !is_draft(name)
}

pub open spec fn is_readme(n: Node) -> bool {
    match n {
        Node::File { name, .. } => name@ == "README.md"@,
        _ => false,
    }
}

pub open spec fn has_readme(s: Seq<Node>) -> bool {
    exists|i: int| 0 <= i < s.len() && is_readme(s[i])
}

pub open spec fn dir_entry(name: Seq<char>, path: Seq<char>, depth: nat, readme: bool) -> EntryView {
    EntryView {
        title: name,
        link: if readme {
            Some("./"@ + path + name + "/README.md"@)
        } else {
            None
        },
        depth,
    }
}

/// Entries for one node met during the walk of the directory at `path`
/// (relative, ending in `/` unless empty); at the root, documents wait for
/// the end of the index.
pub open spec fn node_body(n: Node, path: Seq<char>, depth: nat, root: bool) -> Seq<EntryView>
    decreases n,
{
    match n {
        Node::Dir { name, children } => if is_draft(name@) {
            seq![]
        } else {
            seq![dir_entry(name@, path, depth, has_readme(children@))] + seq_body(
                children@,
                path + name@ + "/"@,
                depth + 1,
                false,
            )
        },
        Node::File { name, content } => if !root && is_listed_doc(name@) {
            seq![
                EntryView {
                    title: doc_title(name@, content@),
                    link: Some("./"@ + path + name@),
                    depth,
                },
            ]
        } else {
            seq![]
        },
        Node::Link { .. } => seq![],
    }
}

pub open spec fn seq_body(s: Seq<Node>, path: Seq<char>, depth: nat, root: bool) -> Seq<EntryView>
    decreases s,
{
    if s.len() == 0 {
        seq![]
    } else {
        seq_body(s.drop_last(), path, depth, root) + node_body(s.last(), path, depth, root)
    }
}

/// The flat entries for the root's own documents, titled by file name.
pub open spec fn root_tail(s: Seq<Node>) -> Seq<EntryView>
    decreases s.len(),
{
    if s.len() == 0 {
        seq![]
    } else {
        root_tail(s.drop_last()) + match s.last() {
            Node::File { name, .. } => if is_listed_doc(name@) {
                seq![EntryView { title: stem(name@), link: Some("./"@ + name@), depth: 0 }]
            } else {
                seq![]
            },
            _ => seq![],
        }
    }
}

pub open spec fn node_height(n: Node) -> nat
    decreases n,
{
    match n {
        Node::Dir { children, .. } => 1 + seq_height(children@),
        _ => 0,
    }
}

pub open spec fn seq_height(s: Seq<Node>) -> nat
    decreases s,
{
    if s.len() == 0 {
        0
    } else {
        let a = seq_height(s.drop_last());
        let b = node_height(s.last());
        if a >= b {
            a
        } else {
            b
        }
    }
}

proof fn lemma_height_bound(s: Seq<Node>, i: int)
    requires
        0 <= i < s.len(),
    ensures
        node_height(s[i]) <= seq_height(s),
    decreases s.len(),
{
    if i < s.len() - 1 {
        lemma_height_bound(s.drop_last(), i);
    }
}

fn has_readme_exec(s: &Vec<Node>) -> (r: bool)
    ensures
        r == has_readme(s@),
{
    let mut i: usize = 0;
    while i < s.len()
        invariant
            i <= s@.len(),
            forall|j: int| 0 <= j < i ==> !is_readme(s@[j]),
        decreases s.len() - i,
    {
        match &s[i] {
            Node::File { name, .. } => {
                if eq_exec(name.as_str(), "README.md") {
                    return true;
                }
            },
            _ => {},
        }
        i = i + 1;
    }
    false
}

/// Whether a file name is a markdown document that gets an entry of its own.
pub fn is_listed_doc_exec(name: &str) -> (r: bool)
    ensures
        r == is_listed_doc(name@),
{
    ends_with_exec(name, ".md") && !eq_exec(name, "README.md") && !eq_exec(name, "SUMMARY.md")
        && !contains_exec(name, "(draft)")
}

/// Whether a directory name marks a draft, which the walk never enters.
pub fn is_draft_name(name: &str) -> (r: bool)
    ensures
        r == is_draft(name@),
{
    contains_exec(name, "(draft)")
}

/// Whether the walk needs the text of a file with this name: only for
/// documents below the root, whose titles come from their first line.
pub fn needs_content(name: &str, at_root: bool) -> (r: bool)
    ensures
        r == (!at_root && is_listed_doc(name@)),
{
    !at_root && is_listed_doc_exec(name)
}

fn push_entry(out: &mut Vec<IndexEntry>, e: IndexEntry)
    ensures
        views(final(out)@) == views(old(out)@).push(e@),
{
    out.push(e);
    assert(views(final(out)@) =~= views(old(out)@).push(e@));
}

fn walk(nodes: &Vec<Node>, path: &String, depth: usize, root: bool, out: &mut Vec<IndexEntry>)
    requires
        depth + seq_height(nodes@) <= usize::MAX,
    ensures
        views(final(out)@) == views(old(out)@) + seq_body(nodes@, path@, depth as nat, root),
    decreases nodes,
{
    let mut i: usize = 0;
    assert(views(out@) =~= views(old(out)@) + seq_body(nodes@.take(0), path@, depth as nat, root));
    while i < nodes.len()
        invariant
            i <= nodes@.len(),
            depth + seq_height(nodes@) <= usize::MAX,
            views(out@) == views(old(out)@) + seq_body(nodes@.take(i as int), path@, depth as nat, root),
        decreases nodes.len() - i,
    {
        let ghost before = views(out@);
        assert(nodes@.take(i + 1).drop_last() =~= nodes@.take(i as int));
        assert(nodes@.take(i + 1).last() == nodes@[i as int]);
        proof {
            lemma_height_bound(nodes@, i as int);
        }
        assert(seq_body(nodes@.take(i + 1), path@, depth as nat, root) == seq_body(
            nodes@.take(i as int),
            path@,
            depth as nat,
            root,
        ) + node_body(nodes@[i as int], path@, depth as nat, root));
        match &nodes[i] {
            Node::Dir { name, children } => {
                if !contains_exec(name.as_str(), "(draft)") {
                    let readme = has_readme_exec(children);
                    let link = if readme {
                        let mut l = String::from_str("./");
                        l.append(path.as_str());
                        l.append(name.as_str());
                        l.append("/README.md");
                        Some(l)
                    } else {
                        None
                    };
                    push_entry(out, IndexEntry { title: name.clone(), link, depth });
                    let mut sub = path.clone();
                    sub.append(name.as_str());
                    sub.append("/");
                    walk(children, &sub, depth + 1, false, out);
                    assert(views(out@) =~= before + node_body(nodes@[i as int], path@, depth as nat, root));
                } else {
                    assert(views(out@) =~= before + node_body(nodes@[i as int], path@, depth as nat, root));
                }
            },
            Node::File { name, content } => {
                if !root && is_listed_doc_exec(name.as_str()) {
                    let title = doc_title_exec(name.as_str(), content.as_str());
                    let mut l = String::from_str("./");
                    l.append(path.as_str());
                    l.append(name.as_str());
                    push_entry(out, IndexEntry { title, link: Some(l), depth });
                }
                assert(views(out@) =~= before + node_body(nodes@[i as int], path@, depth as nat, root));
            },
            Node::Link { .. } => {},
        }
        assert(views(out@) =~= views(old(out)@) + seq_body(nodes@.take(i + 1), path@, depth as nat, root));
        i = i + 1;
    }
    assert(nodes@.take(nodes@.len() as int) =~= nodes@);
}

fn collect_root_docs(nodes: &Vec<Node>, out: &mut Vec<IndexEntry>)
    ensures
        views(final(out)@) == views(old(out)@) + root_tail(nodes@),
{
    let mut i: usize = 0;
    assert(views(out@) =~= views(old(out)@) + root_tail(nodes@.take(0)));
    while i < nodes.len()
        invariant
            i <= nodes@.len(),
            views(out@) == views(old(out)@) + root_tail(nodes@.take(i as int)),
        decreases nodes.len() - i,
    {
        let ghost before = views(out@);
        assert(nodes@.take(i + 1).drop_last() =~= nodes@.take(i as int));
        match &nodes[i] {
            Node::File { name, .. } => {
                if is_listed_doc_exec(name.as_str()) {
                    let mut l = String::from_str("./");
                    l.append(name.as_str());
                    push_entry(out, IndexEntry { title: stem_exec(name.as_str()), link: Some(l), depth: 0 });
                }
            },
            _ => {},
        }
        assert(views(out@) =~= views(old(out)@) + root_tail(nodes@.take(i + 1)));
        i = i + 1;
    }
    assert(nodes@.take(nodes@.len() as int) =~= nodes@);
}

/// The entries of the index for a source tree given by its root's entries:
/// the walk of the tree, then the root's own documents.
pub fn index_entries(root: &Vec<Node>) -> (r: Vec<IndexEntry>)
    requires
        seq_height(root@) <= usize::MAX,
    ensures
        views(r@) == seq_body(root@, seq![], 0, true) + root_tail(root@),
{
    let mut out: Vec<IndexEntry> = Vec::new();
    let path = String::new();
    assert(path@ =~= Seq::<char>::empty());
    assert(views(out@) =~= Seq::<EntryView>::empty());
    walk(root, &path, 0, true, &mut out);
    collect_root_docs(root, &mut out);
    assert(views(out@) =~= seq_body(root@, seq![], 0, true) + root_tail(root@));
    out
}

pub open spec fn indent(d: nat) -> Seq<char>
    decreases d,
{
    if d == 0 {
        seq![]
    } else {
        indent((d - 1) as nat) + "    "@
    }
}

/// One entry as a markdown list item.
pub open spec fn entry_line(e: EntryView) -> Seq<char> {
    indent(e.depth) + "- "@ + match e.link {
        Some(l) => "["@ + e.title + "]("@ + l + ")"@,
        None => e.title,
    } + "\n"@
}

pub open spec fn render_lines(es: Seq<EntryView>) -> Seq<char>
    decreases es.len(),
{
    if es.len() == 0 {
        seq![]
    } else {
        render_lines(es.drop_last()) + entry_line(es.last())
    }
}

pub open spec fn header() -> Seq<char> {
    "# Summary\n\n## Content\n\n"@
}

pub open spec fn welcome() -> Seq<char> {
    "---\n# Welcome\n\n- [About](./README.md)\n"@
}

/// The whole index document for a source tree.
pub open spec fn summary_text(root: Seq<Node>) -> Seq<char> {
    header() + (if has_readme(root) {
        welcome()
    } else {
        seq![]
    }) + render_lines(seq_body(root, seq![], 0, true) + root_tail(root))
}

fn append_line(out: &mut String, e: &IndexEntry)
    ensures
        final(out)@ == old(out)@ + entry_line(e@),
{
    let mut d: usize = 0;
    assert(out@ =~= old(out)@ + indent(0));
    while d < e.depth
        invariant
            d <= e.depth,
            out@ == old(out)@ + indent(d as nat),
        decreases e.depth - d,
    {
        out.append("    ");
        d = d + 1;
        assert(out@ =~= old(out)@ + indent(d as nat));
    }
    out.append("- ");
    match &e.link {
        Some(l) => {
            out.append("[");
            out.append(e.title.as_str());
            out.append("](");
            out.append(l.as_str());
            out.append(")");
        },
        None => {
            out.append(e.title.as_str());
        },
    }
    out.append("\n");
    assert(out@ =~= old(out)@ + entry_line(e@));
}

/// Renders entries as the list lines of the index, in order.
pub fn render_entries(es: &Vec<IndexEntry>, out: &mut String)
    ensures
        final(out)@ == old(out)@ + render_lines(views(es@)),
{
    let mut i: usize = 0;
    assert(views(es@.take(0)) =~= Seq::<EntryView>::empty());
    assert(out@ =~= old(out)@ + render_lines(views(es@.take(0))));
    while i < es.len()
        invariant
            i <= es@.len(),
            out@ == old(out)@ + render_lines(views(es@.take(i as int))),
        decreases es.len() - i,
    {
        append_line(out, &es[i]);
        assert(views(es@.take(i + 1)).drop_last() =~= views(es@.take(i as int)));
        assert(views(es@.take(i + 1)).last() == es@[i as int]@);
        assert(out@ =~= old(out)@ + render_lines(views(es@.take(i + 1))));
        i = i + 1;
    }
    assert(es@.take(es@.len() as int) =~= es@);
}

/// The index document for a source tree given by its root's entries.
pub fn build_index(root: &Vec<Node>) -> (r: String)
    requires
        seq_height(root@) <= usize::MAX,
    ensures
        r@ == summary_text(root@),
{
    let es = index_entries(root);
    let mut out = String::from_str("# Summary\n\n## Content\n\n");
    if has_readme_exec(root) {
        out.append("---\n# Welcome\n\n- [About](./README.md)\n");
    }
    render_entries(&es, &mut out);
    assert(out@ =~= summary_text(root@));
    out
}

proof fn lemma_body_concat(a: Seq<Node>, b: Seq<Node>, path: Seq<char>, depth: nat, root: bool)
    ensures
        seq_body(a + b, path, depth, root) == seq_body(a, path, depth, root) + seq_body(b, path, depth, root),
    decreases b.len(),
{
    if b.len() == 0 {
        assert(a + b =~= a);
        assert(seq_body(a, path, depth, root) + seq_body(b, path, depth, root) =~= seq_body(a, path, depth, root));
    } else {
        lemma_body_concat(a, b.drop_last(), path, depth, root);
        assert((a + b).drop_last() =~= a + b.drop_last());
        assert((a + b).last() == b.last());
        assert(seq_body(a + b, path, depth, root) =~= seq_body(a, path, depth, root) + seq_body(b, path, depth, root));
    }
}

proof fn lemma_tail_concat(a: Seq<Node>, b: Seq<Node>)
    ensures
        root_tail(a + b) == root_tail(a) + root_tail(b),
    decreases b.len(),
{
    if b.len() == 0 {
        assert(a + b =~= a);
        assert(root_tail(a) + root_tail(b) =~= root_tail(a));
    } else {
        lemma_tail_concat(a, b.drop_last());
        assert((a + b).drop_last() =~= a + b.drop_last());
        assert((a + b).last() == b.last());
        assert(root_tail(a + b) =~= root_tail(a) + root_tail(b));
    }
}

proof fn lemma_single(x: Node, path: Seq<char>, depth: nat, root: bool)
    ensures
        seq_body(seq![x], path, depth, root) == node_body(x, path, depth, root),
{
    assert(seq![x].drop_last() =~= Seq::<Node>::empty());
    assert(seq![x].last() == x);
    assert(seq_body(Seq::<Node>::empty(), path, depth, root) =~= Seq::<EntryView>::empty());
    assert(seq_body(seq![x], path, depth, root) =~= node_body(x, path, depth, root));
}

proof fn lemma_readme_split(a: Seq<Node>, x: Node, b: Seq<Node>)
    requires
        !is_readme(x),
    ensures
        has_readme(a + seq![x] + b) == has_readme(a + b),
{
    let s = a + seq![x] + b;
    let t = a + b;
    if has_readme(s) {
        let i = choose|i: int| 0 <= i < s.len() && is_readme(s[i]);
        if i < a.len() {
            assert(t[i] == s[i]);
        } else {
            assert(t[i - 1] == s[i]);
        }
    }
    if has_readme(t) {
        let i = choose|i: int| 0 <= i < t.len() && is_readme(t[i]);
        if i < a.len() {
            assert(s[i] == t[i]);
        } else {
            assert(s[i + 1] == t[i]);
        }
    }
}

/// A node that adds no entry anywhere can be removed from any listing
/// without changing the index.
proof fn lemma_silent_node(a: Seq<Node>, x: Node, b: Seq<Node>)
    requires
        !is_readme(x),
        forall|path: Seq<char>, depth: nat, root: bool| #[trigger] node_body(x, path, depth, root) == Seq::<EntryView>::empty(),
        root_tail(seq![x]) == Seq::<EntryView>::empty(),
    ensures
        forall|path: Seq<char>, depth: nat, root: bool| #[trigger] seq_body(a + seq![x] + b, path, depth, root) == seq_body(a + b, path, depth, root),
        root_tail(a + seq![x] + b) == root_tail(a + b),
        summary_text(a + seq![x] + b) == summary_text(a + b),
{
    assert forall|path: Seq<char>, depth: nat, root: bool| #[trigger] seq_body(a + seq![x] + b, path, depth, root) == seq_body(a + b, path, depth, root) by {
        lemma_body_concat(a + seq![x], b, path, depth, root);
        lemma_body_concat(a, seq![x], path, depth, root);
        lemma_body_concat(a, b, path, depth, root);
        lemma_single(x, path, depth, root);
        assert(seq_body(a, path, depth, root) + seq_body(seq![x], path, depth, root) =~= seq_body(a, path, depth, root));
    }
    lemma_tail_concat(a + seq![x], b);
    lemma_tail_concat(a, seq![x]);
    lemma_tail_concat(a, b);
    assert(root_tail(a) + root_tail(seq![x]) =~= root_tail(a));
    lemma_readme_split(a, x, b);
    assert(seq_body(a + seq![x] + b, seq![], 0, true) == seq_body(a + b, seq![], 0, true));
}

/// A directory whose name holds `(draft)` contributes nothing: the index is
/// the same as for the listing without it, at any level of the tree.
pub proof fn draft_dir_is_omitted(a: Seq<Node>, d: Node, b: Seq<Node>)
    requires
        d is Dir,
        is_draft(d->Dir_name@),
    ensures
        forall|path: Seq<char>, depth: nat, root: bool| #[trigger] seq_body(a + seq![d] + b, path, depth, root) == seq_body(a + b, path, depth, root),
        summary_text(a + seq![d] + b) == summary_text(a + b),
{
    assert(root_tail(seq![d]) =~= Seq::<EntryView>::empty()) by {
        assert(seq![d].drop_last() =~= Seq::<Node>::empty());
        assert(seq![d].last() == d);
        assert(root_tail(Seq::<Node>::empty()) =~= Seq::<EntryView>::empty());
    }
    lemma_silent_node(a, d, b);
}

/// A symbolic link contributes nothing, whatever it points to.
pub proof fn link_is_omitted(a: Seq<Node>, l: Node, b: Seq<Node>)
    requires
        l is Link,
    ensures
        forall|path: Seq<char>, depth: nat, root: bool| #[trigger] seq_body(a + seq![l] + b, path, depth, root) == seq_body(a + b, path, depth, root),
        summary_text(a + seq![l] + b) == summary_text(a + b),
{
    assert(root_tail(seq![l]) =~= Seq::<EntryView>::empty()) by {
        assert(seq![l].drop_last() =~= Seq::<Node>::empty());
        assert(seq![l].last() == l);
        assert(root_tail(Seq::<Node>::empty()) =~= Seq::<EntryView>::empty());
    }
    lemma_silent_node(a, l, b);
}

/// An index file left in the root by an earlier run does not change the
/// index, so building twice on an unchanged tree gives the same text.
pub proof fn previous_index_is_ignored(a: Seq<Node>, f: Node, b: Seq<Node>)
    requires
        f is File,
        f->File_name@ == "SUMMARY.md"@,
    ensures
        summary_text(a + seq![f] + b) == summary_text(a + b),
{
    reveal_strlit("SUMMARY.md");
    reveal_strlit("README.md");
    assert(f->File_name@ != "README.md"@) by {
        assert(f->File_name@[0] != "README.md"@[0]);
    }
    assert(root_tail(seq![f]) =~= Seq::<EntryView>::empty()) by {
        assert(seq![f].drop_last() =~= Seq::<Node>::empty());
        assert(seq![f].last() == f);
        assert(root_tail(Seq::<Node>::empty()) =~= Seq::<EntryView>::empty());
    }
    lemma_silent_node(a, f, b);
}

proof fn lemma_render_concat(x: Seq<EntryView>, y: Seq<EntryView>)
    ensures
        render_lines(x + y) == render_lines(x) + render_lines(y),
    decreases y.len(),
{
    if y.len() == 0 {
        assert(x + y =~= x);
        assert(render_lines(x) + render_lines(y) =~= render_lines(x));
    } else {
        lemma_render_concat(x, y.drop_last());
        assert((x + y).drop_last() =~= x + y.drop_last());
        assert((x + y).last() == y.last());
        assert(render_lines(x + y) =~= render_lines(x) + render_lines(y));
    }
}

proof fn lemma_tail_flat(s: Seq<Node>)
    ensures
        forall|i: int| 0 <= i < root_tail(s).len() ==> (#[trigger] root_tail(s)[i]).depth == 0,
    decreases s.len(),
{
    if s.len() > 0 {
        lemma_tail_flat(s.drop_last());
    }
}

/// The root's own documents come after the whole walk of the tree, as
/// unindented entries.
pub proof fn root_docs_listed_last(root: Seq<Node>)
    ensures
        summary_text(root) == header() + (if has_readme(root) {
            welcome()
        } else {
            seq![]
        }) + render_lines(seq_body(root, seq![], 0, true)) + render_lines(root_tail(root)),
        forall|i: int| 0 <= i < root_tail(root).len() ==> (#[trigger] root_tail(root)[i]).depth == 0,
{
    lemma_render_concat(seq_body(root, seq![], 0, true), root_tail(root));
    lemma_tail_flat(root);
}

proof fn lemma_pair(x: Node, y: Node, path: Seq<char>, depth: nat, root: bool)
    ensures
        seq_body(seq![x, y], path, depth, root) == node_body(x, path, depth, root) + node_body(y, path, depth, root),
        root_tail(seq![x, y]) == root_tail(seq![x]) + root_tail(seq![y]),
{
    lemma_body_concat(seq![x], seq![y], path, depth, root);
    lemma_single(x, path, depth, root);
    lemma_single(y, path, depth, root);
    lemma_tail_concat(seq![x], seq![y]);
    assert(seq![x] + seq![y] =~= seq![x, y]);
}

/// Where a root document stands relative to a directory in the listing does
/// not change the index: root documents are never interleaved with the tree.
pub proof fn root_doc_order_vs_dir(a: Seq<Node>, x: Node, y: Node, b: Seq<Node>)
    requires
        x is File,
        y is Dir,
    ensures
        summary_text(a + seq![x, y] + b) == summary_text(a + seq![y, x] + b),
{
    let s = a + seq![x, y] + b;
    let t = a + seq![y, x] + b;
    let p = Seq::<char>::empty();
    lemma_pair(x, y, p, 0, true);
    lemma_pair(y, x, p, 0, true);
    lemma_body_concat(a + seq![x, y], b, p, 0, true);
    lemma_body_concat(a, seq![x, y], p, 0, true);
    lemma_body_concat(a + seq![y, x], b, p, 0, true);
    lemma_body_concat(a, seq![y, x], p, 0, true);
    assert(node_body(x, p, 0, true) =~= Seq::<EntryView>::empty());
    assert(seq_body(s, p, 0, true) =~= seq_body(t, p, 0, true));
    lemma_tail_concat(a + seq![x, y], b);
    lemma_tail_concat(a, seq![x, y]);
    lemma_tail_concat(a + seq![y, x], b);
    lemma_tail_concat(a, seq![y, x]);
    assert(root_tail(seq![y]) =~= Seq::<EntryView>::empty()) by {
        assert(seq![y].drop_last() =~= Seq::<Node>::empty());
        assert(seq![y].last() == y);
        assert(root_tail(Seq::<Node>::empty()) =~= Seq::<EntryView>::empty());
    }
    assert(root_tail(s) =~= root_tail(t));
    let n = a.len() as int;
    assert forall|i: int| 0 <= i < s.len() && i != n && i != n + 1 implies s[i] == t[i] by {}
    assert(s[n] == t[n + 1] && s[n + 1] == t[n]);
    if has_readme(s) {
        let i = choose|i: int| 0 <= i < s.len() && is_readme(s[i]);
        if i == n {
            assert(is_readme(t[n + 1]));
        } else if i == n + 1 {
            assert(is_readme(t[n]));
        } else {
            assert(is_readme(t[i]));
        }
    }
    if has_readme(t) {
        let i = choose|i: int| 0 <= i < t.len() && is_readme(t[i]);
        if i == n {
            assert(is_readme(s[n + 1]));
        } else if i == n + 1 {
            assert(is_readme(s[n]));
        } else {
            assert(is_readme(s[i]));
        }
    }
}

/// An entry of the root that can never give a line: a link, a file that is
/// not markdown, or a draft directory.
pub open spec fn is_silent_root_entry(n: Node) -> bool {
    match n {
        Node::Dir { name, .. } => is_draft(name@),
        Node::File { name, .. } => !ends_with(name@, ".md"@),
        Node::Link { .. } => true,
    }
}

/// A tree without markdown documents and without other directories than
/// drafts gives the header alone.
pub proof fn no_docs_gives_header_only(root: Seq<Node>)
    requires
        forall|i: int| 0 <= i < root.len() ==> is_silent_root_entry(#[trigger] root[i]),
    ensures
        summary_text(root) == header(),
{
    lemma_silent_parts(root);
    reveal_strlit("README.md");
    reveal_strlit(".md");
    if has_readme(root) {
        let i = choose|i: int| 0 <= i < root.len() && is_readme(root[i]);
        assert(is_silent_root_entry(root[i]));
        assert(root[i]->File_name@.subrange(6, 9) =~= ".md"@);
    }
    assert(render_lines(Seq::<EntryView>::empty()) =~= Seq::<char>::empty());
    assert(seq_body(root, seq![], 0, true) + root_tail(root) =~= Seq::<EntryView>::empty());
    assert(summary_text(root) =~= header());
}

proof fn lemma_silent_parts(root: Seq<Node>)
    requires
        forall|i: int| 0 <= i < root.len() ==> is_silent_root_entry(#[trigger] root[i]),
    ensures
        seq_body(root, seq![], 0, true) == Seq::<EntryView>::empty(),
        root_tail(root) == Seq::<EntryView>::empty(),
    decreases root.len(),
{
    reveal_strlit(".md");
    if root.len() > 0 {
        lemma_silent_parts(root.drop_last());
        let x = root.last();
        assert(is_silent_root_entry(root[root.len() - 1]));
        assert(node_body(x, seq![], 0, true) =~= Seq::<EntryView>::empty());
        assert(seq_body(root, seq![], 0, true) =~= Seq::<EntryView>::empty());
        assert(root_tail(root) =~= Seq::<EntryView>::empty());
    }
}

pub open spec fn capped(h: nat) -> nat {
    if h <= usize::MAX {
        h
    } else {
        usize::MAX as nat
    }
}

/// Height of a listing (directories nested below it), capped at `usize::MAX`.
pub fn tree_height(nodes: &Vec<Node>) -> (r: usize)
    ensures
        r as nat == capped(seq_height(nodes@)),
    decreases nodes,
{
    let mut r: usize = 0;
    let mut i: usize = 0;
    while i < nodes.len()
        invariant
            i <= nodes@.len(),
            r as nat == capped(seq_height(nodes@.take(i as int))),
        decreases nodes.len() - i,
    {
        assert(nodes@.take(i + 1).drop_last() =~= nodes@.take(i as int));
        assert(nodes@.take(i + 1).last() == nodes@[i as int]);
        let h: usize = match &nodes[i] {
            Node::Dir { children, .. } => {
                let c = tree_height(children);
                if c == usize::MAX {
                    usize::MAX
                } else {
                    c + 1
                }
            },
            _ => 0,
        };
        assert(h as nat == capped(node_height(nodes@[i as int])));
        if h > r {
            r = h;
        }
        i = i + 1;
    }
    assert(nodes@.take(nodes@.len() as int) =~= nodes@);
    r
}

/// A file named like the index itself.
pub open spec fn is_index_file(n: Node) -> bool {
    match n {
        Node::File { name, .. } => name@ == "SUMMARY.md"@,
        _ => false,
    }
}

/// A listing with the index files taken out.
pub open spec fn without_index(s: Seq<Node>) -> Seq<Node> {
    s.filter(|n: Node| !is_index_file(n))
}

proof fn lemma_readme_last(s: Seq<Node>)
    requires
        s.len() > 0,
    ensures
        has_readme(s) == (has_readme(s.drop_last()) || is_readme(s.last())),
{
    let d = s.drop_last();
    if has_readme(s) {
        let i = choose|i: int| 0 <= i < s.len() && is_readme(s[i]);
        if i < d.len() {
            assert(d[i] == s[i]);
        }
    }
    if has_readme(d) {
        let i = choose|i: int| 0 <= i < d.len() && is_readme(d[i]);
        assert(s[i] == d[i]);
    }
}

proof fn lemma_without_index(s: Seq<Node>)
    ensures
        seq_body(without_index(s), seq![], 0, true) == seq_body(s, seq![], 0, true),
        root_tail(without_index(s)) == root_tail(s),
        has_readme(without_index(s)) == has_readme(s),
    decreases s.len(),
{
    let w = without_index(s);
    if s.len() == 0 {
        assert(w =~= s);
    } else {
        let d = s.drop_last();
        let x = s.last();
        let wd = without_index(d);
        lemma_without_index(d);
        lemma_readme_last(s);
        assert(d.push(x) =~= s);
        d.lemma_filter_push(x, |n: Node| !is_index_file(n));
        assert(w == if !is_index_file(x) {
            wd.push(x)
        } else {
            wd
        });
        if is_index_file(x) {
            reveal_strlit("SUMMARY.md");
            reveal_strlit("README.md");
            assert(!is_readme(x)) by {
                assert(x->File_name@[0] != "README.md"@[0]);
            }
            assert(node_body(x, seq![], 0, true) =~= Seq::<EntryView>::empty());
            assert(seq_body(s, seq![], 0, true) =~= seq_body(d, seq![], 0, true));
            assert(root_tail(s) =~= root_tail(d));
        } else {
            assert(w.drop_last() =~= wd);
            assert(w.last() == x);
            lemma_readme_last(w);
        }
    }
}

/// Listings that differ only by index files give the same index: a rebuild
/// of an unchanged tree, with or without the output of the earlier run in
/// its root, gives the same text.
pub proof fn rebuild_gives_same_text(first: Seq<Node>, second: Seq<Node>)
    requires
        without_index(first) == without_index(second),
    ensures
        summary_text(first) == summary_text(second),
{
    lemma_without_index(first);
    lemma_without_index(second);
}

} // verus!
