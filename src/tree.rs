//! The in-memory scan tree: nodes, their mathematical reading, and the
//! lemmas that relate a node to the subtree found under a path.
use vstd::prelude::*;

verus! {

broadcast use vstd::std_specs::vec::group_vec_axioms;

/// One file or directory of a scanned subtree.
///
/// `path` holds the node's components relative to the scan root (the root's
/// own `path` is empty), so a node is found again by walking those names
/// down from the root.
#[derive(Debug)]
pub struct Node {
    pub name: String,
    pub size: u64,
    pub is_dir: bool,
    pub children: Vec<Node>,
    pub path: Vec<String>,
}

/// The components of a path, as character sequences.
pub open spec fn comps(p: Seq<String>) -> Seq<Seq<char>> {
    p.map_values(|s: String| s@)
}

/// Taking components of a part of a path is taking part of its components.
pub proof fn lemma_comps_subrange(p: Seq<String>, a: int, b: int)
    requires
        0 <= a <= b <= p.len(),
    ensures
        comps(p.subrange(a, b)) == comps(p).subrange(a, b),
{
    assert(comps(p.subrange(a, b)) =~= comps(p).subrange(a, b));
}

/// `i` is the index of the child of `n` called `name`.
pub open spec fn child_named(n: Node, name: Seq<char>, i: int) -> bool {
    0 <= i < n.children@.len() && n.children@[i].name@ == name
}

/// No two entries of `s` share a name.
pub open spec fn names_unique(s: Seq<Node>) -> bool {
    forall|i: int, j: int|
        0 <= i < s.len() && 0 <= j < s.len() && i != j ==> s[i].name@ != s[j].name@
}

/// The subtree of `n` reached by following the names of `p`, if every one
/// of them is there.
pub open spec fn lookup(n: Node, p: Seq<Seq<char>>) -> Option<Node>
    decreases p.len(),
{
    if p.len() == 0 {
        Some(n)
    } else if exists|i: int| child_named(n, p[0], i) {
        lookup(n.children@[choose|i: int| child_named(n, p[0], i)], p.drop_first())
    } else {
        None
    }
}

/// Names are unique among siblings, and each child's path is its parent's
/// path followed by its own name, all the way down.
pub open spec fn wf(n: Node) -> bool
    decreases n,
{
    &&& names_unique(n.children@)
    &&& forall|i: int|
        0 <= i < n.children@.len() ==> {
            &&& comps((#[trigger] n.children@[i]).path@) == comps(n.path@).push(n.children@[i].name@)
            &&& wf(n.children@[i])
        }
}

/// `p` is a prefix of `q`.
pub open spec fn is_prefix(p: Seq<Seq<char>>, q: Seq<Seq<char>>) -> bool {
    p.len() <= q.len() && q.subrange(0, p.len() as int) == p
}

/// A path that leads to a directory.
pub open spec fn is_dir_node(o: Option<Node>) -> bool {
    match o {
        Some(n) => n.is_dir,
        None => false,
    }
}

/// What a path leads to, kind and size, with the children left out.
pub open spec fn summary(o: Option<Node>) -> Option<(bool, u64)> {
    match o {
        Some(n) => Some((n.is_dir, n.size)),
        None => None,
    }
}

/// Two lookups agree on whether the path is there, on its kind, and on a
/// file's size.
pub open spec fn shape_kept(a: Option<Node>, b: Option<Node>) -> bool {
    match (a, b) {
        (Some(x), Some(y)) => x.is_dir == y.is_dir && (!x.is_dir ==> x.size == y.size),
        (None, None) => true,
        _ => false,
    }
}

/// Looking a path up under a child named by its first component.
pub proof fn lemma_lookup_step(n: Node, p: Seq<Seq<char>>, i: int)
    requires
        names_unique(n.children@),
        p.len() > 0,
        child_named(n, p[0], i),
    ensures
        lookup(n, p) == lookup(n.children@[i], p.drop_first()),
{
    let j = choose|j: int| child_named(n, p[0], j);
    assert(child_named(n, p[0], j));
    assert(i == j);
}

/// A path whose first component names no child leads nowhere.
pub proof fn lemma_lookup_missing(n: Node, p: Seq<Seq<char>>)
    requires
        p.len() > 0,
        forall|i: int| !child_named(n, p[0], i),
    ensures
        lookup(n, p) is None,
{
}

/// Going one name further from a node reached by `q`.
pub proof fn lemma_lookup_append(root: Node, q: Seq<Seq<char>>, cur: Node, x: Seq<char>, j: int)
    requires
        wf(root),
        lookup(root, q) == Some(cur),
        child_named(cur, x, j),
    ensures
        lookup(root, q.push(x)) == Some(cur.children@[j]),
    decreases q.len(),
{
    let q2 = q.push(x);
    if q.len() == 0 {
        lemma_lookup_step(root, q2, j);
        assert(q2.drop_first() =~= Seq::<Seq<char>>::empty());
    } else {
        let i = choose|i: int| child_named(root, q[0], i);
        lemma_lookup_step(root, q, i);
        lemma_lookup_step(root, q2, i);
        assert(q2.drop_first() =~= q.drop_first().push(x));
        lemma_lookup_append(root.children@[i], q.drop_first(), cur, x, j);
    }
}

/// A name that the node reached by `q` does not have leads nowhere.
pub proof fn lemma_lookup_append_missing(root: Node, q: Seq<Seq<char>>, cur: Node, x: Seq<char>)
    requires
        wf(root),
        lookup(root, q) == Some(cur),
        forall|j: int| 0 <= j < cur.children@.len() ==> cur.children@[j].name@ != x,
    ensures
        lookup(root, q.push(x)) is None,
    decreases q.len(),
{
    let q2 = q.push(x);
    if q.len() == 0 {
        assert forall|j: int| !child_named(root, q2[0], j) by {
            if 0 <= j < cur.children@.len() {
                assert(cur.children@[j].name@ != x);
            }
        }
        lemma_lookup_missing(root, q2);
    } else {
        let i = choose|i: int| child_named(root, q[0], i);
        lemma_lookup_step(root, q, i);
        lemma_lookup_step(root, q2, i);
        assert(q2.drop_first() =~= q.drop_first().push(x));
        lemma_lookup_append_missing(root.children@[i], q.drop_first(), cur, x);
    }
}

impl Node {
    /// A node with no children and size zero.
    pub fn new(name: String, path: Vec<String>, is_dir: bool) -> (r: Node)
        ensures
            r.name == name,
            r.path == path,
            r.is_dir == is_dir,
            r.size == 0,
            r.children@.len() == 0,
    {
        Node { name, path, is_dir, size: 0, children: Vec::new() }
    }

    /// The node at `target`, by its components relative to this node.
    pub fn find(&self, target: &Vec<String>) -> (r: Option<&Node>)
        requires
            wf(*self),
        ensures
            match r {
                Some(m) => lookup(*self, comps(target@)) == Some(*m),
                None => lookup(*self, comps(target@)) is None,
            },
    {
        let ghost t = comps(target@);
        let mut cur: &Node = self;
        let mut i: usize = 0;
        assert(t.subrange(0, t.len() as int) =~= t);
        while i < target.len()
            invariant
                i <= target@.len(),
                t == comps(target@),
                wf(*cur),
                lookup(*self, t) == lookup(*cur, t.subrange(i as int, t.len() as int)),
            decreases target@.len() - i,
        {
            let ghost rest = t.subrange(i as int, t.len() as int);
            assert(rest[0] == target@[i as int]@);
            match find_child(cur, &target[i]) {
                Some(j) => {
                    proof {
                        lemma_lookup_step(*cur, rest, j as int);
                        assert(rest.drop_first() =~= t.subrange(i + 1, t.len() as int));
                    }
                    cur = &cur.children[j];
                },
                None => {
                    proof {
                        lemma_lookup_missing(*cur, rest);
                    }
                    return None;
                },
            }
            i = i + 1;
        }
        assert(t.subrange(i as int, t.len() as int) =~= Seq::<Seq<char>>::empty());
        Some(cur)
    }
}

/// The index of the child called `name`, if there is one.
pub fn find_child(n: &Node, name: &String) -> (r: Option<usize>)
    ensures
        match r {
            Some(i) => child_named(*n, name@, i as int),
            None => forall|i: int| 0 <= i < n.children@.len() ==> n.children@[i].name@ != name@,
        },
{
    let mut i: usize = 0;
    while i < n.children.len()
        invariant
            i <= n.children@.len(),
            forall|j: int| 0 <= j < i ==> n.children@[j].name@ != name@,
        decreases n.children@.len() - i,
    {
        if n.children[i].name == *name {
            return Some(i);
        }
        i = i + 1;
    }
    None
}

} // verus!
