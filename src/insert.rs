//! Inserting walked entries into the tree, creating the directories on the
//! way on demand.
use vstd::prelude::*;
use crate::tree::{Node, comps, child_named, names_unique, lookup, wf, is_prefix, find_child,
    lemma_lookup_step, lemma_lookup_missing};

verus! {

broadcast use vstd::std_specs::vec::group_vec_axioms;

/// The size a node has after an insertion ending at it: a file's length is
/// added to what the node held (saturating), a directory keeps its size.
pub open spec fn size_after(before: Option<Node>, file_size: Option<u64>) -> u64 {
    let held: u64 = match before {
        Some(m) => m.size,
        None => 0,
    };
    match file_size {
        Some(s) => held.saturating_add(s),
        None => held,
    }
}

/// A path that leads to a directory of the given size.
pub open spec fn dir_sized(o: Option<Node>, size: u64) -> bool {
    match o {
        Some(n) => n.is_dir && n.size == size,
        None => false,
    }
}

/// `after` is `before` with the path `r` inserted, as a file of the given
/// length when `file_size` is `Some`, as a directory otherwise: every other
/// path leads where it did, each proper prefix of `r` leads to a directory
/// of the size it had (zero where it is new), and `r` itself to a node of
/// the right kind and size.
pub open spec fn inserted(before: Node, after: Node, r: Seq<Seq<char>>, file_size: Option<u64>) -> bool {
    &&& forall|p: Seq<Seq<char>>| !is_prefix(p, r) ==> #[trigger] lookup(after, p) == lookup(before, p)
    &&& forall|k: int|
        0 < k < r.len() ==> dir_sized(
            #[trigger] lookup(after, r.subrange(0, k)),
            size_after(lookup(before, r.subrange(0, k)), None),
        )
    &&& lookup(after, r) matches Some(m) && m.is_dir == (file_size is None) && m.size == size_after(
        lookup(before, r),
        file_size,
    )
}

/// A copy of a path.
pub fn copy_path(p: &Vec<String>) -> (r: Vec<String>)
    ensures
        r@ == p@,
{
    let mut r: Vec<String> = Vec::new();
    let mut i: usize = 0;
    while i < p.len()
        invariant
            i <= p@.len(),
            r@ == p@.subrange(0, i as int),
        decreases p@.len() - i,
    {
        r.push(p[i].clone());
        i = i + 1;
        assert(r@ =~= p@.subrange(0, i as int));
    }
    assert(r@ =~= p@);
    r
}

/// Two nodes with the same children lead to the same subtrees below them.
proof fn lemma_lookup_same_children(a: Node, b: Node, p: Seq<Seq<char>>)
    requires
        a.children == b.children,
        names_unique(a.children@),
        p.len() > 0,
    ensures
        lookup(a, p) == lookup(b, p),
{
    if exists|i: int| child_named(a, p[0], i) {
        let i = choose|i: int| child_named(a, p[0], i);
        lemma_lookup_step(a, p, i);
        lemma_lookup_step(b, p, i);
    } else {
        assert forall|i: int| !child_named(b, p[0], i) by {
            assert(!child_named(a, p[0], i));
        }
        lemma_lookup_missing(a, p);
        lemma_lookup_missing(b, p);
    }
}

/// A node without children leads nowhere below itself.
proof fn lemma_lookup_leaf(a: Node, p: Seq<Seq<char>>)
    requires
        a.children@.len() == 0,
        p.len() > 0,
    ensures
        lookup(a, p) is None,
{
    lemma_lookup_missing(a, p);
}

/// Inserts the components `c[i..]` below `node`.
fn insert_from(node: &mut Node, c: &Vec<String>, i: usize, file_size: Option<u64>)
    requires
        wf(*old(node)),
        i < c@.len(),
    ensures
        wf(*final(node)),
        final(node).name == old(node).name,
        final(node).path == old(node).path,
        final(node).is_dir == old(node).is_dir,
        final(node).size == old(node).size,
        inserted(*old(node), *final(node), comps(c@).subrange(i as int, c@.len() as int), file_size),
    decreases c@.len() - i,
{
    let ghost before = *node;
    let ghost r = comps(c@).subrange(i as int, c@.len() as int);
    let ghost r1 = r.drop_first();
    let name = &c[i];
    let is_leaf = i == c.len() - 1;
    let idx = match find_child(node, name) {
        Some(j) => j,
        None => {
            let mut path = copy_path(&node.path);
            path.push(name.clone());
            node.children.push(Node::new(name.clone(), path, !is_leaf));
            node.children.len() - 1
        },
    };
    let ghost mid = *node;
    let ghost old_child = mid.children@[idx as int];
    let ghost pre_rec = Node { is_dir: true, ..old_child };
    assert(r[0] == name@);
    assert(names_unique(mid.children@));
    assert(wf(old_child));
    proof {
        // Before the insertion, `r` led to the child now at `idx`, or nowhere.
        if idx < before.children@.len() {
            lemma_lookup_step(before, r, idx as int);
        } else {
            lemma_lookup_missing(before, r);
            if r1.len() > 0 {
                lemma_lookup_leaf(old_child, r1);
            }
        }
    }
    let child = &mut node.children[idx];
    if is_leaf {
        match file_size {
            Some(s) => {
                child.is_dir = false;
                child.size = child.size.saturating_add(s);
            },
            None => {
                child.is_dir = true;
            },
        }
    } else {
        child.is_dir = true;
        insert_from(child, c, i + 1, file_size);
    }
    let ghost new_child = node.children@[idx as int];
    proof {
        assert(node.children@ == mid.children@.update(idx as int, new_child));
        assert(names_unique(node.children@));
        assert forall|j: int| 0 <= j < node.children@.len() implies {
            &&& comps((#[trigger] node.children@[j]).path@) == comps(node.path@).push(
                node.children@[j].name@,
            )
            &&& wf(node.children@[j])
        } by {
            if j == idx {
                assert(comps(mid.children@[j].path@) == comps(node.path@).push(
                    mid.children@[j].name@,
                )) by {
                    if idx >= before.children@.len() {
                        assert(comps(mid.children@[j].path@) =~= comps(node.path@).push(name@));
                    }
                }
            }
        }
        assert(wf(*node));
        lemma_lookup_step(*node, r, idx as int);
        assert(r.drop_first() == r1);
        if !is_leaf {
            assert(r1 =~= comps(c@).subrange(i + 1, c@.len() as int));
            lemma_lookup_same_children(pre_rec, old_child, r1);
        }
        assert forall|p: Seq<Seq<char>>| !is_prefix(p, r) implies #[trigger] lookup(*node, p) == lookup(before, p) by {
            if p.len() == 0 {
                assert(r.subrange(0, 0) =~= p);
            }
            if p[0] == name@ {
                lemma_lookup_step(*node, p, idx as int);
                lemma_lookup_step(mid, p, idx as int);
                let p1 = p.drop_first();
                if p1.len() == 0 {
                    assert(r1.subrange(0, 0) =~= p1);
                }
                assert(!is_prefix(p1, r1)) by {
                    if is_prefix(p1, r1) {
                        assert forall|k: int| 0 <= k < p.len() implies r.subrange(0, p.len() as int)[k]
                            == p[k] by {
                            if k > 0 {
                                assert(p[k] == p1[k - 1]);
                                assert(p1[k - 1] == r1.subrange(0, p1.len() as int)[k - 1]);
                            }
                        }
                        assert(r.subrange(0, p.len() as int) =~= p);
                    }
                }
                if is_leaf {
                    lemma_lookup_same_children(new_child, old_child, p1);
                } else {
                    lemma_lookup_same_children(pre_rec, old_child, p1);
                }
                if idx < before.children@.len() {
                    lemma_lookup_step(before, p, idx as int);
                } else {
                    lemma_lookup_missing(before, p);
                    lemma_lookup_leaf(old_child, p1);
                }
            } else {
                if exists|j: int| child_named(before, p[0], j) {
                    let j = choose|j: int| child_named(before, p[0], j);
                    lemma_lookup_step(before, p, j);
                    lemma_lookup_step(*node, p, j);
                } else {
                    assert forall|j: int| !child_named(*node, p[0], j) by {
                        if j != idx {
                            assert(!child_named(before, p[0], j));
                        }
                    }
                    lemma_lookup_missing(before, p);
                    lemma_lookup_missing(*node, p);
                }
            }
        }
        assert forall|k: int| 0 < k < r.len() implies dir_sized(
            #[trigger] lookup(*node, r.subrange(0, k)),
            size_after(lookup(before, r.subrange(0, k)), None),
        ) by {
            let q = r.subrange(0, k);
            lemma_lookup_step(*node, q, idx as int);
            if idx < before.children@.len() {
                lemma_lookup_step(before, q, idx as int);
            } else {
                lemma_lookup_missing(before, q);
            }
            if k == 1 {
                assert(q.drop_first() =~= Seq::<Seq<char>>::empty());
            } else {
                let q1 = r1.subrange(0, k - 1);
                assert(q.drop_first() =~= q1);
                lemma_lookup_same_children(pre_rec, old_child, q1);
                if idx >= before.children@.len() {
                    lemma_lookup_leaf(old_child, q1);
                }
            }
        }
    }
}

/// Makes sure the directory at `c` (components relative to `root`) exists,
/// creating the missing ones on the way, and marks it a directory; sizes are
/// left as they are.
pub fn ensure_dir_path(root: &mut Node, c: &Vec<String>)
    requires
        wf(*old(root)),
    ensures
        wf(*final(root)),
        final(root).name == old(root).name,
        final(root).path == old(root).path,
        final(root).is_dir == old(root).is_dir,
        c@.len() == 0 ==> *final(root) == *old(root),
        c@.len() > 0 ==> inserted(*old(root), *final(root), comps(c@), None),
{
    if c.len() > 0 {
        insert_from(root, c, 0, None);
        assert(comps(c@).subrange(0, c@.len() as int) =~= comps(c@));
    }
}

/// Adds a file of `size` bytes at `c`, creating the directories on the way;
/// a file met twice has both lengths added up (saturating).
pub fn add_file_to_tree(root: &mut Node, c: &Vec<String>, size: u64)
    requires
        wf(*old(root)),
    ensures
        wf(*final(root)),
        final(root).name == old(root).name,
        final(root).path == old(root).path,
        final(root).is_dir == old(root).is_dir,
        c@.len() == 0 ==> *final(root) == *old(root),
        c@.len() > 0 ==> inserted(*old(root), *final(root), comps(c@), Some(size)),
{
    if c.len() > 0 {
        insert_from(root, c, 0, Some(size));
        assert(comps(c@).subrange(0, c@.len() as int) =~= comps(c@));
    }
}

} // verus!
