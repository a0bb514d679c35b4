use vstd::prelude::*;
use crate::pattern::texts_of;
use crate::pattern::FilterSpec;
use crate::tree::{
    built, distinct_throughout, law_build_ignores_listing_order, lemma_trees_of, opt_tree,
    sorted_copy, tree_of, trees_of, Node, Tree,
};

verus! {

/// Connector before every child but the last.
pub const BRANCH: &'static str = "├── ";

/// Prefix for the children of a child that has later siblings.
pub const LINE: &'static str = "│   ";

/// Connector before the last child.
pub const CORNER: &'static str = "└── ";

/// Prefix for the children of a last child.
pub const BLANK: &'static str = "    ";

/// Line printed in place of a tree when nothing survives filtering.
pub const NO_MATCHES: &'static str = "(No files found matching patterns)";

/// The lines for `t`, drawn below `prefix`; `last` when no sibling follows it.
pub open spec fn entry_lines(t: Tree, prefix: Seq<char>, last: bool) -> Seq<Seq<char>>
    decreases t, 0int,
{
    let connector = if last { CORNER@ } else { BRANCH@ };
    let head = seq![prefix + connector + t.name];
    if t.is_dir {
        let extension = if last { BLANK@ } else { LINE@ };
        head + lines_from(t.children, prefix + extension, 0)
    } else {
        head
    }
}

/// The lines for `nodes[i..]`, drawn below `prefix`.
pub open spec fn lines_from(nodes: Seq<Tree>, prefix: Seq<char>, i: int) -> Seq<Seq<char>>
    decreases nodes, nodes.len() - i,
{
    if i < 0 || i >= nodes.len() {
        Seq::empty()
    } else {
        entry_lines(nodes[i], prefix, i == nodes.len() - 1) + lines_from(nodes, prefix, i + 1)
    }
}

/// The whole drawing: the root's name, then its children, or the fixed
/// line when nothing survived.
pub open spec fn drawing(root_name: Seq<char>, root: Option<Tree>) -> Seq<Seq<char>> {
    match root {
        Some(t) => seq![root_name] + lines_from(t.children, Seq::empty(), 0),
        None => seq![root_name, NO_MATCHES@],
    }
}

proof fn lemma_texts_push(v: Seq<String>, x: String)
    ensures
        texts_of(v.push(x)) == texts_of(v).push(x@),
{
    assert(texts_of(v.push(x)) =~= texts_of(v).push(x@));
}

/// Appends to `out` the lines for `nodes`, drawn below `prefix`.
fn render_children(nodes: &Vec<Node>, prefix: &String, out: &mut Vec<String>)
    ensures
        texts_of(final(out)@) == texts_of(old(out)@) + lines_from(trees_of(nodes@), prefix@, 0),
    decreases nodes,
{
    let ghost s = trees_of(nodes@);
    proof {
        lemma_trees_of(nodes@);
    }
    let n = nodes.len();
    let mut i: usize = 0;
    while i < n
        invariant
            n == nodes@.len(),
            i <= n,
            s == trees_of(nodes@),
            s.len() == n,
            forall|j: int| 0 <= j < n ==> #[trigger] s[j] == tree_of(nodes@[j]),
            texts_of(out@) + lines_from(s, prefix@, i as int) == texts_of(old(out)@) + lines_from(
                s,
                prefix@,
                0,
            ),
        decreases n - i,
    {
        let node = &nodes[i];
        let last = i == n - 1;
        let ghost before = texts_of(out@);
        let mut line = prefix.clone();
        if last {
            line.append(CORNER);
        } else {
            line.append(BRANCH);
        }
        line.append(node.name.as_str());
        proof {
            lemma_texts_push(out@, line);
        }
        out.push(line);
        if node.is_dir {
            let mut extended = prefix.clone();
            if last {
                extended.append(BLANK);
            } else {
                extended.append(LINE);
            }
            proof {
                assert(decreases_to!(*nodes => nodes@));
                assert(decreases_to!(nodes@ => nodes@[i as int]));
                assert(decreases_to!(nodes@[i as int] => nodes@[i as int].children));
            }
            render_children(&node.children, &extended, out);
        }
        assert(texts_of(out@) =~= before + entry_lines(s[i as int], prefix@, last));
        i = i + 1;
    }
    assert(lines_from(s, prefix@, n as int) =~= Seq::empty());
    assert(texts_of(out@) + Seq::<Seq<char>>::empty() =~= texts_of(out@));
}

/// The lines that draw `root`: its name, then its children with connectors,
/// or the fixed "no matches" line when `root` is `None`.
pub fn draw_lines(root_name: &str, root: &Option<Node>) -> (r: Vec<String>)
    ensures
        texts_of(r@) == drawing(root_name@, opt_tree(*root)),
{
    let mut out: Vec<String> = Vec::new();
    out.push(String::from_str(root_name));
    assert(texts_of(out@) =~= seq![root_name@]);
    match root {
        Some(node) => {
            render_children(&node.children, &String::new(), &mut out);
        },
        None => {
            let fixed = String::from_str(NO_MATCHES);
            proof {
                lemma_texts_push(out@, fixed);
            }
            out.push(fixed);
            assert(seq![root_name@].push(NO_MATCHES@) =~= seq![root_name@, NO_MATCHES@]);
        },
    }
    out
}

/// Each child is drawn with the branch connector unless it is the last,
/// which gets the corner; the children of a directory follow its line,
/// drawn below the prefix extended by a vertical line, or by blanks after
/// the last child.
pub proof fn law_connectors(nodes: Seq<Tree>, prefix: Seq<char>, i: int)
    requires
        0 <= i < nodes.len(),
    ensures
        ({
            let last = i == nodes.len() - 1;
            let lines = lines_from(nodes, prefix, i);
            let below = lines_from(
                nodes[i].children,
                prefix + if last {
                    BLANK@
                } else {
                    LINE@
                },
                0,
            );
            &&& lines[0] == prefix + (if last {
                CORNER@
            } else {
                BRANCH@
            }) + nodes[i].name
            &&& nodes[i].is_dir ==> lines.subrange(1, 1 + below.len() as int) == below
            &&& !nodes[i].is_dir ==> lines.subrange(1, lines.len() as int) == lines_from(
                nodes,
                prefix,
                i + 1,
            )
        }),
{
    let last = i == nodes.len() - 1;
    let lines = lines_from(nodes, prefix, i);
    let head = entry_lines(nodes[i], prefix, last);
    assert(lines == head + lines_from(nodes, prefix, i + 1));
    if nodes[i].is_dir {
        let below = lines_from(nodes[i].children, prefix + if last { BLANK@ } else { LINE@ }, 0);
        assert(lines.subrange(1, 1 + below.len() as int) =~= below);
    } else {
        assert(lines.subrange(1, lines.len() as int) =~= lines_from(nodes, prefix, i + 1));
    }
}

/// Two snapshots of one filesystem state, whatever order each directory
/// was listed in, draw the same lines.
pub proof fn law_drawing_ignores_listing_order(root_name: Seq<char>, t1: Tree, t2: Tree, f: FilterSpec)
    requires
        distinct_throughout(t1),
        distinct_throughout(t2),
        sorted_copy(t1) == sorted_copy(t2),
    ensures
        drawing(root_name, built(t1, f)) == drawing(root_name, built(t2, f)),
{
    law_build_ignores_listing_order(t1, t2, f);
}

} // verus!
