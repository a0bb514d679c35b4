use vstd::prelude::*;
use crate::pattern::{Filter, FilterSpec};

verus! {

/// A file or a directory with its contents: both what was read from disk and
/// what survives filtering take this shape.
pub struct Tree {
    pub name: Seq<char>,
    pub path: Seq<char>,
    pub is_dir: bool,
    pub children: Seq<Tree>,
}

/// One filesystem entry. A directory owns its children; a file has none.
pub struct Node {
    pub name: String,
    pub path: String,
    pub is_dir: bool,
    pub children: Vec<Node>,
}

pub open spec fn tree_of(n: Node) -> Tree
    decreases n,
{
    Tree { name: n.name@, path: n.path@, is_dir: n.is_dir, children: trees_of(n.children@) }
}

pub open spec fn trees_of(s: Seq<Node>) -> Seq<Tree>
    decreases s,
{
    if s.len() == 0 {
        Seq::empty()
    } else {
        trees_of(s.subrange(0, s.len() - 1)).push(tree_of(s[s.len() - 1]))
    }
}

pub open spec fn opt_tree(o: Option<Node>) -> Option<Tree> {
    match o {
        Some(n) => Some(tree_of(n)),
        None => None,
    }
}

pub proof fn lemma_trees_of(s: Seq<Node>)
    ensures
        trees_of(s).len() == s.len(),
        forall|i: int| 0 <= i < s.len() ==> #[trigger] trees_of(s)[i] == tree_of(s[i]),
    decreases s.len(),
{
    if s.len() > 0 {
        lemma_trees_of(s.subrange(0, s.len() - 1));
    }
}

/// Names in order: lexicographic by character code, a prefix first.
pub open spec fn name_le(a: Seq<char>, b: Seq<char>) -> bool
    decreases a.len(),
{
    if a.len() == 0 {
        true
    } else if b.len() == 0 {
        false
    } else if (a[0] as u32) != (b[0] as u32) {
        (a[0] as u32) < (b[0] as u32)
    } else {
        name_le(a.drop_first(), b.drop_first())
    }
}

/// Whether `a` comes no later than `b` in name order.
pub fn names_in_order(a: &str, b: &str) -> (r: bool)
    ensures
        r == name_le(a@, b@),
{
    let la = a.unicode_len();
    let lb = b.unicode_len();
    let mut i: usize = 0;
    assert(a@.skip(0) =~= a@);
    assert(b@.skip(0) =~= b@);
    while i < la && i < lb
        invariant
            la == a@.len(),
            lb == b@.len(),
            i <= la,
            i <= lb,
            name_le(a@, b@) == name_le(a@.skip(i as int), b@.skip(i as int)),
        decreases la - i,
    {
        let ca = a.get_char(i);
        let cb = b.get_char(i);
        assert(a@.skip(i as int)[0] == ca);
        assert(b@.skip(i as int)[0] == cb);
        if ca as u32 != cb as u32 {
            return (ca as u32) < (cb as u32);
        }
        assert(a@.skip(i as int).drop_first() =~= a@.skip(i + 1));
        assert(b@.skip(i as int).drop_first() =~= b@.skip(i + 1));
        i = i + 1;
    }
    i == la
}

/// Puts `x` after the leading run of `s` whose names come no later than its own.
pub open spec fn insert_by_name(x: Tree, s: Seq<Tree>) -> Seq<Tree>
    decreases s.len(),
{
    if s.len() == 0 {
        seq![x]
    } else if name_le(s[0].name, x.name) {
        seq![s[0]] + insert_by_name(x, s.drop_first())
    } else {
        seq![x] + s
    }
}

/// Stable insertion sort by name.
pub open spec fn sort_by_name(s: Seq<Tree>) -> Seq<Tree>
    decreases s.len(),
{
    if s.len() == 0 {
        s
    } else {
        insert_by_name(s.last(), sort_by_name(s.drop_last()))
    }
}

/// What survives of `t` under filter `f`: nothing when its name is excluded;
/// a file only when its name is included; a directory only when something
/// inside it survives, with the survivors sorted by name.
pub open spec fn built(t: Tree, f: FilterSpec) -> Option<Tree>
    decreases t,
{
    if f.excludes_name(t.name) {
        None
    } else if !t.is_dir {
        if f.includes_name(t.name) {
            Some(Tree { name: t.name, path: t.path, is_dir: false, children: Seq::empty() })
        } else {
            None
        }
    } else {
        let kept = survivors(t.children, f);
        if kept.len() == 0 {
            None
        } else {
            Some(Tree { name: t.name, path: t.path, is_dir: true, children: sort_by_name(kept) })
        }
    }
}

/// What survives of each of `s`, in the order of `s`.
pub open spec fn survivors(s: Seq<Tree>, f: FilterSpec) -> Seq<Tree>
    decreases s,
{
    if s.len() == 0 {
        Seq::empty()
    } else {
        let rest = survivors(s.subrange(0, s.len() - 1), f);
        match built(s[s.len() - 1], f) {
            Some(t) => rest.push(t),
            None => rest,
        }
    }
}

proof fn lemma_insert_position(x: Tree, s: Seq<Tree>, p: int)
    requires
        0 <= p <= s.len(),
        forall|j: int| 0 <= j < p ==> name_le(#[trigger] s[j].name, x.name),
        p < s.len() ==> !name_le(s[p].name, x.name),
    ensures
        insert_by_name(x, s) == s.insert(p, x),
    decreases s.len(),
{
    if s.len() == 0 {
        assert(seq![x] =~= s.insert(p, x));
    } else if p == 0 {
        assert(seq![x] + s =~= s.insert(p, x));
    } else {
        let t = s.drop_first();
        assert forall|j: int| 0 <= j < p - 1 implies name_le(#[trigger] t[j].name, x.name) by {
            assert(t[j] == s[j + 1]);
        }
        lemma_insert_position(x, t, p - 1);
        assert(seq![s[0]] + t.insert(p - 1, x) =~= s.insert(p, x));
    }
}

/// Inserts `x` into `v` where `insert_by_name` puts it.
fn insert_node(v: &mut Vec<Node>, x: Node)
    ensures
        trees_of(final(v)@) == insert_by_name(tree_of(x), trees_of(old(v)@)),
{
    proof {
        lemma_trees_of(v@);
    }
    let ghost s = trees_of(v@);
    let mut p: usize = 0;
    let mut searching = true;
    while searching && p < v.len()
        invariant
            p <= v@.len(),
            s == trees_of(v@),
            s.len() == v@.len(),
            forall|j: int| 0 <= j < s.len() ==> #[trigger] s[j] == tree_of(v@[j]),
            forall|j: int| 0 <= j < p ==> name_le(#[trigger] s[j].name, x.name@),
            !searching ==> p < v@.len() && !name_le(s[p as int].name, x.name@),
        decreases v@.len() - p, if searching { 1int } else { 0int },
    {
        if names_in_order(v[p].name.as_str(), x.name.as_str()) {
            p = p + 1;
        } else {
            searching = false;
        }
    }
    proof {
        lemma_insert_position(tree_of(x), s, p as int);
    }
    v.insert(p, x);
    proof {
        lemma_trees_of(v@);
        assert(trees_of(v@) =~= s.insert(p as int, tree_of(x)));
    }
}

/// Builds what survives of `entry` under `filter`.
pub fn build(entry: &Node, filter: &Filter) -> (r: Option<Node>)
    ensures
        opt_tree(r) == built(tree_of(*entry), filter@),
    decreases entry,
{
    let ghost t = tree_of(*entry);
    if filter.is_excluded(entry.name.as_str()) {
        return None;
    }
    if !entry.is_dir {
        if filter.is_included(entry.name.as_str()) {
            let leaf = Node {
                name: entry.name.clone(),
                path: entry.path.clone(),
                is_dir: false,
                children: Vec::new(),
            };
            assert(trees_of(leaf.children@) =~= Seq::<Tree>::empty());
            return Some(leaf);
        }
        return None;
    }
    let ghost kids = trees_of(entry.children@);
    proof {
        lemma_trees_of(entry.children@);
    }
    let mut kept: Vec<Node> = Vec::new();
    let mut i: usize = 0;
    while i < entry.children.len()
        invariant
            i <= entry.children@.len(),
            kids == trees_of(entry.children@),
            kids.len() == entry.children@.len(),
            forall|j: int| 0 <= j < kids.len() ==> #[trigger] kids[j] == tree_of(entry.children@[j]),
            trees_of(kept@) == sort_by_name(survivors(kids.take(i as int), filter@)),
        decreases entry.children@.len() - i,
    {
        let ghost before = kids.take(i as int);
        assert(kids.take(i + 1).subrange(0, i as int) =~= before);
        assert(kids.take(i + 1)[i as int] == tree_of(entry.children@[i as int]));
        proof {
            assert(decreases_to!(*entry => entry.children));
            assert(decreases_to!(entry.children => entry.children@));
            assert(decreases_to!(entry.children@ => entry.children@[i as int]));
        }
        match build(&entry.children[i], filter) {
            Some(n) => {
                let ghost rest = survivors(before, filter@);
                assert(rest.push(tree_of(n)).drop_last() =~= rest);
                insert_node(&mut kept, n);
            },
            None => {},
        }
        i = i + 1;
    }
    assert(kids.take(entry.children@.len() as int) =~= kids);
    if kept.len() == 0 {
        proof {
            lemma_trees_of(kept@);
            lemma_sort_len(survivors(kids, filter@));
        }
        return None;
    }
    Some(Node { name: entry.name.clone(), path: entry.path.clone(), is_dir: true, children: kept })
}

proof fn lemma_insert_len(x: Tree, s: Seq<Tree>)
    ensures
        insert_by_name(x, s).len() == s.len() + 1,
    decreases s.len(),
{
    if s.len() > 0 {
        lemma_insert_len(x, s.drop_first());
    }
}

proof fn lemma_sort_len(s: Seq<Tree>)
    ensures
        sort_by_name(s).len() == s.len(),
    decreases s.len(),
{
    if s.len() > 0 {
        lemma_sort_len(s.drop_last());
        lemma_insert_len(s.last(), sort_by_name(s.drop_last()));
    }
}

/// Consecutive names are in name order.
pub open spec fn sorted_by_name(s: Seq<Tree>) -> bool {
    forall|i: int| 0 <= i < s.len() - 1 ==> name_le(#[trigger] s[i].name, s[i + 1].name)
}

/// Any two names are in order one way or the other.
pub proof fn lemma_name_le_total(a: Seq<char>, b: Seq<char>)
    ensures
        name_le(a, b) || name_le(b, a),
    decreases a.len(),
{
    if a.len() > 0 && b.len() > 0 {
        if (a[0] as u32) == (b[0] as u32) {
            lemma_name_le_total(a.drop_first(), b.drop_first());
        }
    }
}

proof fn lemma_insert_sorted(x: Tree, s: Seq<Tree>)
    requires
        sorted_by_name(s),
    ensures
        sorted_by_name(insert_by_name(x, s)),
        insert_by_name(x, s).len() > 0,
        insert_by_name(x, s)[0] == x || (s.len() > 0 && insert_by_name(x, s)[0] == s[0]),
    decreases s.len(),
{
    if s.len() > 0 {
        let r = insert_by_name(x, s);
        if name_le(s[0].name, x.name) {
            let t = s.drop_first();
            assert(sorted_by_name(t)) by {
                assert forall|i: int| 0 <= i < t.len() - 1 implies name_le(
                    #[trigger] t[i].name,
                    t[i + 1].name,
                ) by {
                    assert(t[i] == s[i + 1]);
                    assert(t[i + 1] == s[i + 2]);
                }
            }
            lemma_insert_sorted(x, t);
            let u = insert_by_name(x, t);
            assert(r == seq![s[0]] + u);
            assert forall|i: int| 0 <= i < r.len() - 1 implies name_le(
                #[trigger] r[i].name,
                r[i + 1].name,
            ) by {
                if i == 0 {
                    assert(r[1] == u[0]);
                    if t.len() > 0 && u[0] == t[0] {
                        assert(t[0] == s[1]);
                    }
                } else {
                    assert(r[i] == u[i - 1]);
                    assert(r[i + 1] == u[i]);
                }
            }
        } else {
            lemma_name_le_total(s[0].name, x.name);
            assert(r == seq![x] + s);
            assert forall|i: int| 0 <= i < r.len() - 1 implies name_le(
                #[trigger] r[i].name,
                r[i + 1].name,
            ) by {
                if i > 0 {
                    assert(r[i] == s[i - 1]);
                    assert(r[i + 1] == s[i]);
                }
            }
        }
    }
}

/// Sorting puts the names in order.
pub proof fn lemma_sort_sorted(s: Seq<Tree>)
    ensures
        sorted_by_name(sort_by_name(s)),
    decreases s.len(),
{
    if s.len() > 0 {
        lemma_sort_sorted(s.drop_last());
        lemma_insert_sorted(s.last(), sort_by_name(s.drop_last()));
    }
}

proof fn lemma_insert_contains(x: Tree, s: Seq<Tree>)
    ensures
        forall|y: Tree| #[trigger] insert_by_name(x, s).contains(y) <==> (y == x || s.contains(y)),
    decreases s.len(),
{
    let r = insert_by_name(x, s);
    if s.len() == 0 {
        assert forall|y: Tree| r.contains(y) <==> (y == x || s.contains(y)) by {
            if r.contains(y) {
                assert(r[0] == x);
            }
            if y == x {
                assert(r[0] == x);
            }
        }
    } else if name_le(s[0].name, x.name) {
        let t = s.drop_first();
        lemma_insert_contains(x, t);
        let u = insert_by_name(x, t);
        assert forall|y: Tree| r.contains(y) <==> (y == x || s.contains(y)) by {
            if r.contains(y) {
                let k = choose|k: int| 0 <= k < r.len() && r[k] == y;
                if k > 0 {
                    assert(u[k - 1] == y);
                    assert(u.contains(y));
                    if t.contains(y) {
                        let m = choose|m: int| 0 <= m < t.len() && t[m] == y;
                        assert(s[m + 1] == y);
                    }
                } else {
                    assert(s[0] == y);
                }
            }
            if y == x {
                assert(u.contains(y));
                let m = choose|m: int| 0 <= m < u.len() && u[m] == y;
                assert(r[m + 1] == y);
            }
            if s.contains(y) {
                let m = choose|m: int| 0 <= m < s.len() && s[m] == y;
                if m == 0 {
                    assert(r[0] == y);
                } else {
                    assert(t[m - 1] == y);
                    assert(u.contains(y));
                    let k = choose|k: int| 0 <= k < u.len() && u[k] == y;
                    assert(r[k + 1] == y);
                }
            }
        }
    } else {
        assert forall|y: Tree| r.contains(y) <==> (y == x || s.contains(y)) by {
            if r.contains(y) {
                let k = choose|k: int| 0 <= k < r.len() && r[k] == y;
                if k > 0 {
                    assert(s[k - 1] == y);
                }
            }
            if y == x {
                assert(r[0] == y);
            }
            if s.contains(y) {
                let m = choose|m: int| 0 <= m < s.len() && s[m] == y;
                assert(r[m + 1] == y);
            }
        }
    }
}

/// Sorting keeps exactly the items it was given.
pub proof fn lemma_sort_contains(s: Seq<Tree>)
    ensures
        forall|y: Tree| #[trigger] sort_by_name(s).contains(y) <==> s.contains(y),
    decreases s.len(),
{
    if s.len() > 0 {
        let d = s.drop_last();
        lemma_sort_contains(d);
        lemma_insert_contains(s.last(), sort_by_name(d));
        assert forall|y: Tree| #[trigger] sort_by_name(s).contains(y) <==> s.contains(y) by {
            if d.contains(y) {
                let m = choose|m: int| 0 <= m < d.len() && d[m] == y;
                assert(s[m] == y);
            }
            if s.contains(y) {
                let m = choose|m: int| 0 <= m < s.len() && s[m] == y;
                if m < s.len() - 1 {
                    assert(d[m] == y);
                }
            }
        }
    }
}

/// Every directory in `t` holds something, down to the files.
pub open spec fn no_empty_dirs(t: Tree) -> bool
    decreases t,
{
    !t.is_dir || (t.children.len() > 0 && all_no_empty_dirs(t.children))
}

pub open spec fn all_no_empty_dirs(s: Seq<Tree>) -> bool
    decreases s,
{
    s.len() == 0 || (all_no_empty_dirs(s.subrange(0, s.len() - 1)) && no_empty_dirs(
        s[s.len() - 1],
    ))
}

/// `t` with every directory's contents sorted by name and files childless.
pub open spec fn sorted_copy(t: Tree) -> Tree
    decreases t,
{
    Tree {
        name: t.name,
        path: t.path,
        is_dir: t.is_dir,
        children: if t.is_dir {
            sort_by_name(sorted_copies(t.children))
        } else {
            Seq::empty()
        },
    }
}

pub open spec fn sorted_copies(s: Seq<Tree>) -> Seq<Tree>
    decreases s,
{
    if s.len() == 0 {
        Seq::empty()
    } else {
        sorted_copies(s.subrange(0, s.len() - 1)).push(sorted_copy(s[s.len() - 1]))
    }
}

/// With no include and no exclude patterns, a tree with no empty directory
/// comes back whole, each directory's contents sorted by name.
pub proof fn law_empty_filter_keeps_all(t: Tree, f: FilterSpec)
    requires
        f.includes.len() == 0,
        f.excludes.len() == 0,
        no_empty_dirs(t),
    ensures
        built(t, f) == Some(sorted_copy(t)),
    decreases t,
{
    if t.is_dir {
        lemma_empty_filter_keeps_all_seq(t.children, f);
    }
}

proof fn lemma_empty_filter_keeps_all_seq(s: Seq<Tree>, f: FilterSpec)
    requires
        f.includes.len() == 0,
        f.excludes.len() == 0,
        all_no_empty_dirs(s),
    ensures
        survivors(s, f) == sorted_copies(s),
    decreases s,
{
    if s.len() > 0 {
        lemma_empty_filter_keeps_all_seq(s.subrange(0, s.len() - 1), f);
        law_empty_filter_keeps_all(s[s.len() - 1], f);
    }
}

/// Every directory in a built tree lists its contents sorted by name.
pub open spec fn sorted_throughout(t: Tree) -> bool
    decreases t,
{
    sorted_by_name(t.children) && all_sorted_throughout(t.children)
}

pub open spec fn all_sorted_throughout(s: Seq<Tree>) -> bool
    decreases s,
{
    s.len() == 0 || (all_sorted_throughout(s.subrange(0, s.len() - 1)) && sorted_throughout(
        s[s.len() - 1],
    ))
}

proof fn lemma_all_sorted_index(s: Seq<Tree>)
    ensures
        all_sorted_throughout(s) <==> forall|i: int|
            0 <= i < s.len() ==> sorted_throughout(#[trigger] s[i]),
    decreases s.len(),
{
    if s.len() > 0 {
        let d = s.subrange(0, s.len() - 1);
        lemma_all_sorted_index(d);
        assert forall|i: int| 0 <= i < d.len() implies d[i] == s[i] by {}
    }
}

/// Whatever survives filtering has every directory's contents sorted by name.
pub proof fn law_built_sorted(t: Tree, f: FilterSpec)
    ensures
        built(t, f) matches Some(r) ==> sorted_throughout(r),
    decreases t,
{
    if !f.excludes_name(t.name) && t.is_dir {
        let kept = survivors(t.children, f);
        lemma_survivors_sorted(t.children, f);
        lemma_sort_sorted(kept);
        lemma_sort_contains(kept);
        lemma_all_sorted_index(kept);
        let sorted = sort_by_name(kept);
        assert forall|i: int| 0 <= i < sorted.len() implies sorted_throughout(
            #[trigger] sorted[i],
        ) by {
            assert(sorted.contains(sorted[i]));
            let m = choose|m: int| 0 <= m < kept.len() && kept[m] == sorted[i];
        }
        lemma_all_sorted_index(sorted);
    } else if !f.excludes_name(t.name) {
        assert(sorted_by_name(Seq::<Tree>::empty()));
    }
}

proof fn lemma_survivors_sorted(s: Seq<Tree>, f: FilterSpec)
    ensures
        all_sorted_throughout(survivors(s, f)),
    decreases s,
{
    if s.len() > 0 {
        let d = s.subrange(0, s.len() - 1);
        lemma_survivors_sorted(d, f);
        law_built_sorted(s[s.len() - 1], f);
        match built(s[s.len() - 1], f) {
            Some(r) => {
                assert(survivors(s, f).subrange(0, survivors(s, f).len() - 1) =~= survivors(d, f));
            },
            None => {},
        }
    }
}

/// Some node of `t` is named `n`.
pub open spec fn occurs(n: Seq<char>, t: Tree) -> bool
    decreases t,
{
    t.name == n || occurs_in(n, t.children)
}

pub open spec fn occurs_in(n: Seq<char>, s: Seq<Tree>) -> bool
    decreases s,
{
    s.len() > 0 && (occurs_in(n, s.subrange(0, s.len() - 1)) || occurs(n, s[s.len() - 1]))
}

proof fn lemma_occurs_in_index(n: Seq<char>, s: Seq<Tree>)
    ensures
        occurs_in(n, s) <==> exists|i: int| 0 <= i < s.len() && occurs(n, #[trigger] s[i]),
    decreases s.len(),
{
    if s.len() > 0 {
        let d = s.subrange(0, s.len() - 1);
        lemma_occurs_in_index(n, d);
        if occurs_in(n, d) {
            let i = choose|i: int| 0 <= i < d.len() && occurs(n, #[trigger] d[i]);
            assert(s[i] == d[i]);
        }
        if exists|i: int| 0 <= i < s.len() && occurs(n, #[trigger] s[i]) {
            let i = choose|i: int| 0 <= i < s.len() && occurs(n, #[trigger] s[i]);
            if i < s.len() - 1 {
                assert(d[i] == s[i]);
            }
        }
    }
}

/// No node whose name an exclude pattern matches survives filtering,
/// anywhere in the tree.
pub proof fn law_excluded_never_appears(t: Tree, f: FilterSpec, n: Seq<char>)
    requires
        f.excludes_name(n),
    ensures
        built(t, f) matches Some(r) ==> !occurs(n, r),
    decreases t,
{
    if !f.excludes_name(t.name) {
        if t.is_dir {
            let kept = survivors(t.children, f);
            lemma_survivors_exclude(t.children, f, n);
            lemma_sort_contains(kept);
            let sorted = sort_by_name(kept);
            lemma_occurs_in_index(n, kept);
            lemma_occurs_in_index(n, sorted);
            if occurs_in(n, sorted) {
                let i = choose|i: int| 0 <= i < sorted.len() && occurs(n, #[trigger] sorted[i]);
                assert(sorted.contains(sorted[i]));
                let m = choose|m: int| 0 <= m < kept.len() && kept[m] == sorted[i];
                assert(occurs(n, kept[m]));
            }
        } else {
            assert(!occurs_in(n, Seq::<Tree>::empty()));
        }
    }
}

proof fn lemma_survivors_exclude(s: Seq<Tree>, f: FilterSpec, n: Seq<char>)
    requires
        f.excludes_name(n),
    ensures
        !occurs_in(n, survivors(s, f)),
    decreases s,
{
    if s.len() > 0 {
        let d = s.subrange(0, s.len() - 1);
        lemma_survivors_exclude(d, f, n);
        law_excluded_never_appears(s[s.len() - 1], f, n);
        let k = survivors(s, f);
        match built(s[s.len() - 1], f) {
            Some(r) => {
                assert(k.subrange(0, k.len() - 1) =~= survivors(d, f));
            },
            None => {},
        }
    }
}

/// Some file of `t` passes the filter through directories none of which is
/// excluded.
pub open spec fn reaches_file(t: Tree, f: FilterSpec) -> bool
    decreases t,
{
    !f.excludes_name(t.name) && if !t.is_dir {
        f.includes_name(t.name)
    } else {
        reaches_any(t.children, f)
    }
}

pub open spec fn reaches_any(s: Seq<Tree>, f: FilterSpec) -> bool
    decreases s,
{
    s.len() > 0 && (reaches_any(s.subrange(0, s.len() - 1), f) || reaches_file(
        s[s.len() - 1],
        f,
    ))
}

/// An entry survives filtering exactly when some file inside it passes:
/// directories left empty are pruned, however deep the emptiness goes.
pub proof fn law_survives_iff_reaches_file(t: Tree, f: FilterSpec)
    ensures
        built(t, f) is Some <==> reaches_file(t, f),
    decreases t,
{
    if t.is_dir {
        lemma_survivors_nonempty(t.children, f);
    }
}

proof fn lemma_survivors_nonempty(s: Seq<Tree>, f: FilterSpec)
    ensures
        survivors(s, f).len() > 0 <==> reaches_any(s, f),
    decreases s,
{
    if s.len() > 0 {
        lemma_survivors_nonempty(s.subrange(0, s.len() - 1), f);
        law_survives_iff_reaches_file(s[s.len() - 1], f);
    }
}

/// No two entries share a name, as in one directory.
pub open spec fn distinct_names(s: Seq<Tree>) -> bool {
    forall|i: int, j: int|
        0 <= i < s.len() && 0 <= j < s.len() && i != j ==> #[trigger] s[i].name != #[trigger] s[j].name
}

proof fn lemma_char_code_injective(c: char, d: char)
    requires
        (c as u32) == (d as u32),
    ensures
        c == d,
{
}

proof fn lemma_name_le_antisymmetric(a: Seq<char>, b: Seq<char>)
    requires
        name_le(a, b),
        name_le(b, a),
    ensures
        a == b,
    decreases a.len(),
{
    if a.len() == 0 {
        assert(a =~= b);
    } else {
        lemma_char_code_injective(a[0], b[0]);
        lemma_name_le_antisymmetric(a.drop_first(), b.drop_first());
        assert forall|i: int| 0 <= i < a.len() implies a[i] == b[i] by {
            if i > 0 {
                assert(a[i] == a.drop_first()[i - 1]);
                assert(b[i] == b.drop_first()[i - 1]);
            }
        }
        assert(a =~= b);
    }
}

proof fn lemma_name_le_transitive(a: Seq<char>, b: Seq<char>, c: Seq<char>)
    requires
        name_le(a, b),
        name_le(b, c),
    ensures
        name_le(a, c),
    decreases a.len(),
{
    if a.len() > 0 && (a[0] as u32) == (b[0] as u32) && (b[0] as u32) == (c[0] as u32) {
        lemma_name_le_transitive(a.drop_first(), b.drop_first(), c.drop_first());
    }
}

proof fn lemma_sorted_pairwise(s: Seq<Tree>)
    requires
        sorted_by_name(s),
    ensures
        forall|i: int, j: int| 0 <= i <= j < s.len() ==> name_le(#[trigger] s[i].name, #[trigger] s[j].name),
    decreases s.len(),
{
    if s.len() > 0 {
        let d = s.drop_last();
        assert(sorted_by_name(d)) by {
            assert forall|i: int| 0 <= i < d.len() - 1 implies name_le(
                #[trigger] d[i].name,
                d[i + 1].name,
            ) by {
                assert(d[i] == s[i]);
                assert(d[i + 1] == s[i + 1]);
            }
        }
        lemma_sorted_pairwise(d);
        assert forall|i: int, j: int| 0 <= i <= j < s.len() implies name_le(
            #[trigger] s[i].name,
            #[trigger] s[j].name,
        ) by {
            if j < s.len() - 1 {
                assert(d[i] == s[i]);
                assert(d[j] == s[j]);
            } else if i == j {
                lemma_name_le_reflexive(s[i].name);
            } else {
                assert(d[i] == s[i]);
                assert(d[j - 1] == s[j - 1]);
                assert(name_le(s[i].name, s[j - 1].name));
                lemma_name_le_transitive(s[i].name, s[j - 1].name, s[j].name);
            }
        }
    }
}

proof fn lemma_name_le_reflexive(a: Seq<char>)
    ensures
        name_le(a, a),
    decreases a.len(),
{
    if a.len() > 0 {
        lemma_name_le_reflexive(a.drop_first());
    }
}

/// Two sequences sorted by name, each without a repeated name, that hold
/// the same items are the same sequence.
proof fn lemma_sorted_unique(r1: Seq<Tree>, r2: Seq<Tree>)
    requires
        sorted_by_name(r1),
        sorted_by_name(r2),
        distinct_names(r1),
        distinct_names(r2),
        forall|x: Tree| r1.contains(x) <==> r2.contains(x),
    ensures
        r1 == r2,
    decreases r1.len(),
{
    if r1.len() == 0 {
        if r2.len() > 0 {
            assert(r2.contains(r2[0]));
        }
        assert(r1 =~= r2);
    } else {
        assert(r1.contains(r1[0]));
        let k = choose|k: int| 0 <= k < r2.len() && r2[k] == r1[0];
        assert(r2.contains(r2[0]));
        let m = choose|m: int| 0 <= m < r1.len() && r1[m] == r2[0];
        lemma_sorted_pairwise(r1);
        lemma_sorted_pairwise(r2);
        assert(name_le(r2[0].name, r2[k].name));
        assert(name_le(r1[0].name, r1[m].name));
        lemma_name_le_antisymmetric(r2[0].name, r2[k].name);
        assert(k == 0);
        let t1 = r1.drop_first();
        let t2 = r2.drop_first();
        assert forall|x: Tree| t1.contains(x) <==> (r1.contains(x) && x != r1[0]) by {
            if t1.contains(x) {
                let i = choose|i: int| 0 <= i < t1.len() && t1[i] == x;
                assert(r1[i + 1] == x);
            }
            if r1.contains(x) && x != r1[0] {
                let i = choose|i: int| 0 <= i < r1.len() && r1[i] == x;
                assert(t1[i - 1] == x);
            }
        }
        assert forall|x: Tree| t2.contains(x) <==> (r2.contains(x) && x != r2[0]) by {
            if t2.contains(x) {
                let i = choose|i: int| 0 <= i < t2.len() && t2[i] == x;
                assert(r2[i + 1] == x);
            }
            if r2.contains(x) && x != r2[0] {
                let i = choose|i: int| 0 <= i < r2.len() && r2[i] == x;
                assert(t2[i - 1] == x);
            }
        }
        assert(sorted_by_name(t1)) by {
            assert forall|i: int| 0 <= i < t1.len() - 1 implies name_le(
                #[trigger] t1[i].name,
                t1[i + 1].name,
            ) by {
                assert(t1[i] == r1[i + 1]);
                assert(t1[i + 1] == r1[i + 2]);
            }
        }
        assert(sorted_by_name(t2)) by {
            assert forall|i: int| 0 <= i < t2.len() - 1 implies name_le(
                #[trigger] t2[i].name,
                t2[i + 1].name,
            ) by {
                assert(t2[i] == r2[i + 1]);
                assert(t2[i + 1] == r2[i + 2]);
            }
        }
        assert(distinct_names(t1)) by {
            assert forall|i: int, j: int|
                0 <= i < t1.len() && 0 <= j < t1.len() && i != j implies #[trigger] t1[i].name
                != #[trigger] t1[j].name by {
                assert(t1[i] == r1[i + 1]);
                assert(t1[j] == r1[j + 1]);
            }
        }
        assert(distinct_names(t2)) by {
            assert forall|i: int, j: int|
                0 <= i < t2.len() && 0 <= j < t2.len() && i != j implies #[trigger] t2[i].name
                != #[trigger] t2[j].name by {
                assert(t2[i] == r2[i + 1]);
                assert(t2[j] == r2[j + 1]);
            }
        }
        lemma_sorted_unique(t1, t2);
        assert(r1 =~= seq![r1[0]] + t1);
        assert(r2 =~= seq![r2[0]] + t2);
    }
}

proof fn lemma_built_name(t: Tree, f: FilterSpec)
    ensures
        built(t, f) matches Some(r) ==> r.name == t.name,
{
}

proof fn lemma_survivors_members(s: Seq<Tree>, f: FilterSpec)
    ensures
        forall|x: Tree| #[trigger]
            survivors(s, f).contains(x) <==> exists|i: int|
                0 <= i < s.len() && built(#[trigger] s[i], f) == Some(x),
    decreases s.len(),
{
    if s.len() > 0 {
        let d = s.subrange(0, s.len() - 1);
        let rest = survivors(d, f);
        let k = survivors(s, f);
        lemma_survivors_members(d, f);
        assert forall|x: Tree| #[trigger]
            k.contains(x) <==> exists|i: int| 0 <= i < s.len() && built(#[trigger] s[i], f) == Some(x) by {
            if k.contains(x) {
                let j = choose|j: int| 0 <= j < k.len() && k[j] == x;
                if j < rest.len() {
                    assert(rest[j] == x);
                    assert(rest.contains(x));
                    let i = choose|i: int| 0 <= i < d.len() && built(#[trigger] d[i], f) == Some(x);
                    assert(d[i] == s[i]);
                } else {
                    assert(built(s[s.len() - 1], f) == Some(x));
                }
            }
            if exists|i: int| 0 <= i < s.len() && built(#[trigger] s[i], f) == Some(x) {
                let i = choose|i: int| 0 <= i < s.len() && built(#[trigger] s[i], f) == Some(x);
                if i < s.len() - 1 {
                    assert(d[i] == s[i]);
                    assert(rest.contains(x));
                    let j = choose|j: int| 0 <= j < rest.len() && rest[j] == x;
                    assert(k[j] == x);
                } else {
                    assert(k[k.len() - 1] == x);
                }
            }
        }
    }
}

proof fn lemma_survivors_distinct(s: Seq<Tree>, f: FilterSpec)
    requires
        distinct_names(s),
    ensures
        distinct_names(survivors(s, f)),
    decreases s.len(),
{
    if s.len() > 0 {
        let d = s.subrange(0, s.len() - 1);
        let last = s[s.len() - 1];
        let rest = survivors(d, f);
        assert(distinct_names(d)) by {
            assert forall|i: int, j: int|
                0 <= i < d.len() && 0 <= j < d.len() && i != j implies #[trigger] d[i].name
                != #[trigger] d[j].name by {
                assert(d[i] == s[i]);
                assert(d[j] == s[j]);
            }
        }
        lemma_survivors_distinct(d, f);
        lemma_survivors_members(d, f);
        lemma_built_name(last, f);
        match built(last, f) {
            Some(x) => {
                let k = rest.push(x);
                assert forall|i: int| 0 <= i < rest.len() implies #[trigger] rest[i].name != x.name by {
                    assert(rest.contains(rest[i]));
                    let j = choose|j: int| 0 <= j < d.len() && built(#[trigger] d[j], f) == Some(rest[i]);
                    lemma_built_name(d[j], f);
                    assert(d[j] == s[j]);
                }
                assert forall|i: int, j: int|
                    0 <= i < k.len() && 0 <= j < k.len() && i != j implies #[trigger] k[i].name
                    != #[trigger] k[j].name by {
                    if i < rest.len() && j < rest.len() {
                        assert(k[i] == rest[i]);
                        assert(k[j] == rest[j]);
                    } else if i < rest.len() {
                        assert(k[i] == rest[i]);
                    } else {
                        assert(k[j] == rest[j]);
                    }
                }
            },
            None => {},
        }
    }
}

proof fn lemma_insert_at(x: Tree, s: Seq<Tree>) -> (p: int)
    ensures
        0 <= p <= s.len(),
        insert_by_name(x, s) == s.insert(p, x),
    decreases s.len(),
{
    if s.len() == 0 {
        assert(seq![x] =~= s.insert(0, x));
        0
    } else if name_le(s[0].name, x.name) {
        let t = s.drop_first();
        let q = lemma_insert_at(x, t);
        assert(seq![s[0]] + t.insert(q, x) =~= s.insert(q + 1, x));
        q + 1
    } else {
        assert(seq![x] + s =~= s.insert(0, x));
        0
    }
}

proof fn lemma_sort_distinct(s: Seq<Tree>)
    requires
        distinct_names(s),
    ensures
        distinct_names(sort_by_name(s)),
    decreases s.len(),
{
    if s.len() > 0 {
        let d = s.drop_last();
        let x = s.last();
        assert(distinct_names(d)) by {
            assert forall|i: int, j: int|
                0 <= i < d.len() && 0 <= j < d.len() && i != j implies #[trigger] d[i].name
                != #[trigger] d[j].name by {
                assert(d[i] == s[i]);
                assert(d[j] == s[j]);
            }
        }
        lemma_sort_distinct(d);
        lemma_sort_contains(d);
        let u = sort_by_name(d);
        lemma_sort_len(d);
        assert forall|i: int| 0 <= i < u.len() implies #[trigger] u[i].name != x.name by {
            assert(u.contains(u[i]));
            let j = choose|j: int| 0 <= j < d.len() && d[j] == u[i];
            assert(d[j] == s[j]);
        }
        let p = lemma_insert_at(x, u);
        let k = u.insert(p, x);
        assert forall|i: int, j: int|
            0 <= i < k.len() && 0 <= j < k.len() && i != j implies #[trigger] k[i].name
            != #[trigger] k[j].name by {
            if i != p && j != p {
                let a = if i < p { i } else { i - 1 };
                let b = if j < p { j } else { j - 1 };
                assert(k[i] == u[a]);
                assert(k[j] == u[b]);
            } else if i == p {
                let b = if j < p { j } else { j - 1 };
                assert(k[j] == u[b]);
            } else {
                let a = if i < p { i } else { i - 1 };
                assert(k[i] == u[a]);
            }
        }
    }
}

/// No directory in `t` lists two entries under one name.
pub open spec fn distinct_throughout(t: Tree) -> bool
    decreases t,
{
    distinct_names(t.children) && all_distinct_throughout(t.children)
}

pub open spec fn all_distinct_throughout(s: Seq<Tree>) -> bool
    decreases s,
{
    s.len() == 0 || (all_distinct_throughout(s.subrange(0, s.len() - 1))
        && distinct_throughout(s[s.len() - 1]))
}

proof fn lemma_all_distinct_index(s: Seq<Tree>)
    ensures
        all_distinct_throughout(s) <==> forall|i: int|
            0 <= i < s.len() ==> distinct_throughout(#[trigger] s[i]),
    decreases s.len(),
{
    if s.len() > 0 {
        let d = s.subrange(0, s.len() - 1);
        lemma_all_distinct_index(d);
        assert forall|i: int| 0 <= i < d.len() implies d[i] == s[i] by {}
    }
}

proof fn lemma_sorted_copies_index(s: Seq<Tree>)
    ensures
        sorted_copies(s).len() == s.len(),
        forall|i: int| 0 <= i < s.len() ==> #[trigger] sorted_copies(s)[i] == sorted_copy(s[i]),
    decreases s.len(),
{
    if s.len() > 0 {
        lemma_sorted_copies_index(s.subrange(0, s.len() - 1));
    }
}

/// Building from a snapshot or from the same snapshot with every listing
/// sorted gives the same tree.
proof fn lemma_built_of_sorted_copy(t: Tree, f: FilterSpec)
    requires
        distinct_throughout(t),
    ensures
        built(sorted_copy(t), f) == built(t, f),
    decreases t,
{
    if !f.excludes_name(t.name) && t.is_dir {
        let c = t.children;
        let copies = sorted_copies(c);
        let sc = sort_by_name(copies);
        lemma_sorted_copies_index(c);
        lemma_all_distinct_index(c);
        assert forall|i: int| 0 <= i < c.len() implies built(#[trigger] copies[i], f) == built(
            c[i],
            f,
        ) by {
            lemma_built_of_sorted_copy(c[i], f);
        }
        assert(distinct_names(copies)) by {
            assert forall|i: int, j: int|
                0 <= i < copies.len() && 0 <= j < copies.len() && i != j implies #[trigger] copies[i].name
                != #[trigger] copies[j].name by {
                assert(copies[i].name == c[i].name);
                assert(copies[j].name == c[j].name);
            }
        }
        lemma_sort_distinct(copies);
        lemma_sort_contains(copies);
        let k1 = survivors(sc, f);
        let k2 = survivors(c, f);
        lemma_survivors_members(sc, f);
        lemma_survivors_members(c, f);
        assert forall|x: Tree| k1.contains(x) <==> k2.contains(x) by {
            if k1.contains(x) {
                let i = choose|i: int| 0 <= i < sc.len() && built(#[trigger] sc[i], f) == Some(x);
                assert(sc.contains(sc[i]));
                let j = choose|j: int| 0 <= j < copies.len() && copies[j] == sc[i];
                assert(built(c[j], f) == Some(x));
            }
            if k2.contains(x) {
                let i = choose|i: int| 0 <= i < c.len() && built(#[trigger] c[i], f) == Some(x);
                assert(copies.contains(copies[i]));
                assert(sc.contains(copies[i]));
                let j = choose|j: int| 0 <= j < sc.len() && sc[j] == copies[i];
                assert(built(sc[j], f) == Some(x));
            }
        }
        if k1.len() > 0 {
            assert(k1.contains(k1[0]));
        }
        if k2.len() > 0 {
            assert(k2.contains(k2[0]));
        }
        if k1.len() > 0 && k2.len() > 0 {
            lemma_survivors_distinct(sc, f);
            lemma_survivors_distinct(c, f);
            lemma_sort_distinct(k1);
            lemma_sort_distinct(k2);
            lemma_sort_sorted(k1);
            lemma_sort_sorted(k2);
            lemma_sort_contains(k1);
            lemma_sort_contains(k2);
            lemma_sorted_unique(sort_by_name(k1), sort_by_name(k2));
        }
    }
}

/// Two snapshots of one filesystem state, whatever order each directory
/// was listed in (the same entries once every listing is sorted by name),
/// build the same tree.
pub proof fn law_build_ignores_listing_order(t1: Tree, t2: Tree, f: FilterSpec)
    requires
        distinct_throughout(t1),
        distinct_throughout(t2),
        sorted_copy(t1) == sorted_copy(t2),
    ensures
        built(t1, f) == built(t2, f),
{
    lemma_built_of_sorted_copy(t1, f);
    lemma_built_of_sorted_copy(t2, f);
}

} // verus!
