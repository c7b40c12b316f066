//! Removing a node and its subtree from the tree, with the sizes of its
//! ancestors summed again.
use vstd::prelude::*;
use crate::tree::{Node, comps, child_named, names_unique, lookup, wf, is_prefix, is_dir_node,
    find_child, lemma_lookup_step, lemma_lookup_missing};
use crate::aggregate::{sum_sizes, sat, aggregated, sums_fit, lemma_sum_nonneg, lemma_sum_update,
    lemma_sum_remove};

verus! {

broadcast use vstd::std_specs::vec::group_vec_axioms;

/// Why a node could not be taken out of the tree.
#[derive(Debug, PartialEq, Eq, Structural)]
pub enum DeleteError {
    /// The empty path names the root, which is never removed.
    IsRoot,
    /// No node is found under the given path.
    NotFound,
}

/// Every proper prefix of `r` leads to a directory below `n`.
pub open spec fn dirs_above(n: Node, r: Seq<Seq<char>>) -> bool {
    forall|k: int| 0 <= k < r.len() ==> is_dir_node(#[trigger] lookup(n, r.subrange(0, k)))
}

/// The size of what `p` leads to (zero where it leads nowhere).
pub open spec fn size_at(n: Node, p: Seq<Seq<char>>) -> int {
    match lookup(n, p) {
        Some(m) => m.size as int,
        None => 0,
    }
}

/// `after` is `before` with the node at `r` and its subtree taken out: `r`
/// leads nowhere, paths that neither lie above nor below `r` lead where they
/// did, and every proper prefix of `r` still leads to a node of the same kind.
pub open spec fn removed(before: Node, after: Node, r: Seq<Seq<char>>) -> bool {
    &&& lookup(after, r) is None
    &&& forall|p: Seq<Seq<char>>|
        !is_prefix(p, r) && !is_prefix(r, p) ==> #[trigger] lookup(after, p) == lookup(before, p)
    &&& forall|k: int|
        0 <= k < r.len() ==> {
            &&& (#[trigger] lookup(after, r.subrange(0, k))) is Some
            &&& lookup(after, r.subrange(0, k))->0.is_dir == lookup(before, r.subrange(0, k))->0.is_dir
        }
}

/// Where the tree was aggregated with sums that fit, and every node above `r`
/// is a directory, each of them lost exactly the size of the node at `r`.
pub open spec fn ancestors_shrunk(before: Node, after: Node, r: Seq<Seq<char>>) -> bool {
    aggregated(before) && sums_fit(before) && dirs_above(before, r) ==> forall|k: int|
        0 <= k < r.len() ==> #[trigger] size_at(after, r.subrange(0, k)) == size_at(
            before,
            r.subrange(0, k),
        ) - size_at(before, r)
}

/// The saturating sum of the sizes of `n`'s children.
pub fn children_total(n: &Node) -> (t: u64)
    ensures
        t == sat(sum_sizes(n.children@)),
{
    let mut t: u64 = 0;
    let mut i: usize = 0;
    while i < n.children.len()
        invariant
            i <= n.children@.len(),
            t == sat(sum_sizes(n.children@.subrange(0, i as int))),
        decreases n.children@.len() - i,
    {
        proof {
            assert(n.children@.subrange(0, i + 1).drop_last() =~= n.children@.subrange(0, i as int));
            lemma_sum_nonneg(n.children@.subrange(0, i as int));
        }
        t = t.saturating_add(n.children[i].size);
        i = i + 1;
    }
    assert(n.children@.subrange(0, i as int) =~= n.children@);
    t
}

/// Takes out the node at `c[i..]` below `node`, if there is one, and sums
/// the sizes of the directories on the way again.
fn remove_below(node: &mut Node, c: &Vec<String>, i: usize)
    requires
        wf(*old(node)),
        i < c@.len(),
        lookup(*old(node), comps(c@).subrange(i as int, c@.len() as int)) is Some,
    ensures
        wf(*final(node)),
        final(node).name == old(node).name,
        final(node).path == old(node).path,
        final(node).is_dir == old(node).is_dir,
        removed(*old(node), *final(node), comps(c@).subrange(i as int, c@.len() as int)),
        ancestors_shrunk(*old(node), *final(node), comps(c@).subrange(i as int, c@.len() as int)),
        aggregated(*old(node)) ==> aggregated(*final(node)) && final(node).size <= old(node).size,
        aggregated(*old(node)) && sums_fit(*old(node)) ==> sums_fit(*final(node)),
    decreases c@.len() - i,
{
    let ghost before = *node;
    let ghost r = comps(c@).subrange(i as int, c@.len() as int);
    let ghost r1 = r.drop_first();
    assert(r[0] == c@[i as int]@);
    let idx = match find_child(node, &c[i]) {
        Some(j) => j,
        None => {
            proof {
                lemma_lookup_missing(before, r);
            }
            return;
        },
    };
    proof {
        lemma_lookup_step(before, r, idx as int);
    }
    let ghost old_child = before.children@[idx as int];
    if i == c.len() - 1 {
        node.children.remove(idx);
        proof {
            lemma_sum_remove(before.children@, idx as int);
        }
    } else {
        assert(r1 =~= comps(c@).subrange(i + 1, c@.len() as int));
        remove_below(&mut node.children[idx], c, i + 1);
        proof {
            lemma_sum_update(before.children@, idx as int, node.children@[idx as int]);
        }
    }
    if node.is_dir {
        node.size = children_total(node);
    }
    proof {
        lemma_sum_nonneg(node.children@);
        let fin = node.children@;
        assert(names_unique(fin));
        assert(wf(*node));
        assert forall|p: Seq<Seq<char>>| !is_prefix(p, r) && !is_prefix(r, p) implies #[trigger] lookup(*node, p)
            == lookup(before, p) by {
            if p.len() == 0 {
                assert(r.subrange(0, 0) =~= p);
            }
            if p[0] == r[0] {
                let p1 = p.drop_first();
                if p1.len() == 0 {
                    assert(r1.subrange(0, 0) =~= p1);
                }
                if r1.len() == 0 {
                    assert(p.subrange(0, 1) =~= r);
                }
                assert(!is_prefix(p1, r1)) by {
                    if is_prefix(p1, r1) {
                        assert forall|k: int| 0 <= k < p.len() implies r.subrange(0, p.len() as int)[k]
                            == p[k] by {
                            if k > 0 {
                                assert(p[k] == p1[k - 1]);
                                assert(p1[k - 1] == r1.subrange(0, p1.len() as int)[k - 1]);
                            }
                        }
                        assert(r.subrange(0, p.len() as int) =~= p);
                    }
                }
                assert(!is_prefix(r1, p1)) by {
                    if is_prefix(r1, p1) {
                        assert forall|k: int| 0 <= k < r.len() implies p.subrange(0, r.len() as int)[k]
                            == r[k] by {
                            if k > 0 {
                                assert(r[k] == r1[k - 1]);
                                assert(r1[k - 1] == p1.subrange(0, r1.len() as int)[k - 1]);
                            }
                        }
                        assert(p.subrange(0, r.len() as int) =~= r);
                    }
                }
                lemma_lookup_step(before, p, idx as int);
                lemma_lookup_step(*node, p, idx as int);
            } else {
                if exists|j: int| child_named(before, p[0], j) {
                    let j = choose|j: int| child_named(before, p[0], j);
                    lemma_lookup_step(before, p, j);
                    if i == c.len() - 1 {
                        let j2 = if j < idx { j } else { j - 1 };
                        assert(fin[j2] == before.children@[j]);
                        lemma_lookup_step(*node, p, j2);
                    } else {
                        lemma_lookup_step(*node, p, j);
                    }
                } else {
                    assert forall|j: int| !child_named(*node, p[0], j) by {
                        if 0 <= j < fin.len() {
                            if i == c.len() - 1 {
                                let j2 = if j < idx { j } else { j + 1 };
                                assert(fin[j] == before.children@[j2]);
                                assert(!child_named(before, p[0], j2));
                            } else {
                                assert(!child_named(before, p[0], j));
                            }
                        }
                    }
                    lemma_lookup_missing(before, p);
                    lemma_lookup_missing(*node, p);
                }
            }
        }
        if i == c.len() - 1 {
            assert forall|j: int| !child_named(*node, r[0], j) by {
                if 0 <= j < fin.len() {
                    let j2 = if j < idx { j } else { j + 1 };
                    assert(fin[j] == before.children@[j2]);
                }
            }
            lemma_lookup_missing(*node, r);
        } else {
            lemma_lookup_step(*node, r, idx as int);
        }
        assert forall|k: int| 0 <= k < r.len() implies {
            &&& (#[trigger] lookup(*node, r.subrange(0, k))) is Some
            &&& lookup(*node, r.subrange(0, k))->0.is_dir == lookup(before, r.subrange(0, k))->0.is_dir
        } by {
            let q = r.subrange(0, k);
            if k == 0 {
                assert(q =~= Seq::<Seq<char>>::empty());
            } else {
                lemma_lookup_step(*node, q, idx as int);
                lemma_lookup_step(before, q, idx as int);
                assert(q.drop_first() =~= r1.subrange(0, k - 1));
            }
        }
        if aggregated(before) && sums_fit(before) && dirs_above(before, r) {
            assert(r.subrange(0, 0) =~= Seq::<Seq<char>>::empty());
            assert(is_dir_node(lookup(before, r.subrange(0, 0))));
            assert(aggregated(old_child));
            assert(sums_fit(old_child));
            assert(before.size == sum_sizes(before.children@));
            lemma_sum_nonneg(before.children@);
            if i < c.len() - 1 {
                let new_child = fin[idx as int];
                assert forall|k: int| 0 <= k < r1.len() implies is_dir_node(
                    #[trigger] lookup(old_child, r1.subrange(0, k)),
                ) by {
                    let q = r.subrange(0, k + 1);
                    assert(is_dir_node(lookup(before, q)));
                    lemma_lookup_step(before, q, idx as int);
                    assert(q.drop_first() =~= r1.subrange(0, k));
                }
                assert(r1.subrange(0, 0) =~= Seq::<Seq<char>>::empty());
                assert(size_at(new_child, r1.subrange(0, 0)) == size_at(old_child, r1.subrange(0, 0))
                    - size_at(old_child, r1));
                assert(new_child.size == old_child.size - size_at(before, r));
            }
            assert forall|k: int| 0 <= k < r.len() implies #[trigger] size_at(*node, r.subrange(0, k))
                == size_at(before, r.subrange(0, k)) - size_at(before, r) by {
                let q = r.subrange(0, k);
                if k == 0 {
                    assert(q =~= Seq::<Seq<char>>::empty());
                    assert(size_at(*node, q) == node.size);
                    assert(size_at(before, q) == before.size);
                    assert(size_at(before, r) == size_at(old_child, r1));
                    if i == c.len() - 1 {
                        assert(size_at(old_child, r1) == old_child.size);
                        assert(sum_sizes(fin) == sum_sizes(before.children@) - old_child.size);
                    } else {
                        assert(sum_sizes(fin) == sum_sizes(before.children@) - old_child.size
                            + fin[idx as int].size);
                    }
                    lemma_sum_nonneg(fin);
                    assert(node.size == sum_sizes(fin));
                } else {
                    lemma_lookup_step(*node, q, idx as int);
                    lemma_lookup_step(before, q, idx as int);
                    assert(q.drop_first() =~= r1.subrange(0, k - 1));
                    assert(size_at(fin[idx as int], r1.subrange(0, k - 1)) == size_at(
                        old_child,
                        r1.subrange(0, k - 1),
                    ) - size_at(old_child, r1));
                }
            }
        }
    }
}

impl Node {
    /// Takes the node at `target` (its components relative to this root) out
    /// of the tree, with its whole subtree, and sums the sizes of the
    /// directories above it again. The root itself is never removed; on an
    /// error the tree is left as it was.
    pub fn delete_node(&mut self, target: &Vec<String>) -> (r: Result<(), DeleteError>)
        requires
            wf(*old(self)),
        ensures
            wf(*final(self)),
            final(self).name == old(self).name,
            final(self).path == old(self).path,
            final(self).is_dir == old(self).is_dir,
            r == Err::<(), DeleteError>(DeleteError::IsRoot) <==> target@.len() == 0,
            r == Err::<(), DeleteError>(DeleteError::NotFound) <==> target@.len() > 0 && lookup(
                *old(self),
                comps(target@),
            ) is None,
            r is Err ==> *final(self) == *old(self),
            r is Ok ==> removed(*old(self), *final(self), comps(target@)),
            r is Ok ==> ancestors_shrunk(*old(self), *final(self), comps(target@)),
            aggregated(*old(self)) ==> aggregated(*final(self)),
            aggregated(*old(self)) && sums_fit(*old(self)) ==> sums_fit(*final(self)),
    {
        if target.len() == 0 {
            return Err(DeleteError::IsRoot);
        }
        assert(comps(target@).subrange(0, target@.len() as int) =~= comps(target@));
        if self.find(target).is_none() {
            return Err(DeleteError::NotFound);
        }
        remove_below(self, target, 0);
        Ok(())
    }
}

} // verus!
