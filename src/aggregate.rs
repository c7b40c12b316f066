//! Bottom-up size aggregation and the canonical order of children.
use vstd::prelude::*;
use crate::tree::{Node, comps, child_named, names_unique, lookup, wf, shape_kept, summary,
    lemma_lookup_step, lemma_lookup_missing};

verus! {

broadcast use vstd::std_specs::vec::group_vec_axioms;

/// The sum of the sizes of `s`, without any bound.
pub open spec fn sum_sizes(s: Seq<Node>) -> int
    decreases s.len(),
{
    if s.len() == 0 {
        0
    } else {
        sum_sizes(s.drop_last()) + s.last().size
    }
}

/// `x`, capped at the largest `u64`.
pub open spec fn sat(x: int) -> u64 {
    if x > u64::MAX {
        u64::MAX
    } else {
        x as u64
    }
}

/// Every directory's size is the (saturating) sum of its children's sizes,
/// all the way down.
pub open spec fn aggregated(n: Node) -> bool
    decreases n,
{
    n.is_dir ==> {
        &&& n.size == sat(sum_sizes(n.children@))
        &&& forall|i: int| 0 <= i < n.children@.len() ==> aggregated(#[trigger] n.children@[i])
    }
}

/// No directory's children add up to more than a `u64` holds, so that every
/// aggregated size is the exact sum.
pub open spec fn sums_fit(n: Node) -> bool
    decreases n,
{
    n.is_dir ==> {
        &&& sum_sizes(n.children@) <= u64::MAX
        &&& forall|i: int| 0 <= i < n.children@.len() ==> sums_fit(#[trigger] n.children@[i])
    }
}

/// A sum of sizes is never negative.
pub proof fn lemma_sum_nonneg(s: Seq<Node>)
    ensures
        sum_sizes(s) >= 0,
    decreases s.len(),
{
    if s.len() > 0 {
        lemma_sum_nonneg(s.drop_last());
    }
}

/// Replacing one entry changes the sum by the difference of the two sizes.
pub proof fn lemma_sum_update(s: Seq<Node>, i: int, x: Node)
    requires
        0 <= i < s.len(),
    ensures
        sum_sizes(s.update(i, x)) == sum_sizes(s) - s[i].size + x.size,
    decreases s.len(),
{
    let t = s.update(i, x);
    if i < s.len() - 1 {
        assert(t.drop_last() =~= s.drop_last().update(i, x));
        lemma_sum_update(s.drop_last(), i, x);
    } else {
        assert(t.drop_last() =~= s.drop_last());
    }
}

/// Removing one entry takes its size off the sum.
pub proof fn lemma_sum_remove(s: Seq<Node>, i: int)
    requires
        0 <= i < s.len(),
    ensures
        sum_sizes(s.remove(i)) == sum_sizes(s) - s[i].size,
    decreases s.len(),
{
    let t = s.remove(i);
    if i < s.len() - 1 {
        assert(t.drop_last() =~= s.drop_last().remove(i));
        lemma_sum_remove(s.drop_last(), i);
    } else {
        assert(t =~= s.drop_last());
    }
}

/// Inserting one entry adds its size to the sum.
pub proof fn lemma_sum_insert(s: Seq<Node>, i: int, x: Node)
    requires
        0 <= i <= s.len(),
    ensures
        sum_sizes(s.insert(i, x)) == sum_sizes(s) + x.size,
    decreases s.len(),
{
    let t = s.insert(i, x);
    if i < s.len() {
        assert(t.drop_last() =~= s.drop_last().insert(i, x));
        lemma_sum_insert(s.drop_last(), i, x);
    } else {
        assert(t.drop_last() =~= s);
    }
}

/// Sets every directory's size to the saturating sum of its children's
/// sizes, bottom-up, and returns the node's own size. Files keep their size,
/// and nothing else changes.
pub fn calculate_dir_sizes(node: &mut Node) -> (total: u64)
    requires
        wf(*old(node)),
    ensures
        total == final(node).size,
        wf(*final(node)),
        aggregated(*final(node)),
        final(node).name == old(node).name,
        final(node).path == old(node).path,
        final(node).is_dir == old(node).is_dir,
        !old(node).is_dir ==> *final(node) == *old(node),
        forall|p: Seq<Seq<char>>| shape_kept(#[trigger] lookup(*old(node), p), lookup(*final(node), p)),
    decreases *old(node),
{
    if !node.is_dir {
        return node.size;
    }
    let ghost before = *node;
    assert(before == *old(node));
    let mut total: u64 = 0;
    let mut i: usize = 0;
    while i < node.children.len()
        invariant
            node.name == before.name,
            node.path == before.path,
            node.is_dir == before.is_dir,
            node.is_dir,
            wf(before),
            before == *old(node),
            i <= node.children@.len(),
            node.children@.len() == before.children@.len(),
            total == sat(sum_sizes(node.children@.subrange(0, i as int))),
            forall|j: int| i <= j < node.children@.len() ==> node.children@[j] == before.children@[j],
            forall|j: int|
                0 <= j < i ==> {
                    let (a, b) = (before.children@[j], #[trigger] node.children@[j]);
                    &&& wf(b)
                    &&& aggregated(b)
                    &&& b.name == a.name
                    &&& b.path == a.path
                    &&& b.is_dir == a.is_dir
                    &&& forall|p: Seq<Seq<char>>| shape_kept(#[trigger] lookup(a, p), lookup(b, p))
                },
        decreases node.children@.len() - i,
    {
        let ghost prev = node.children@;
        assert(decreases_to!(before => before.children@[i as int]));
        assert(node.children@[i as int] == before.children@[i as int]);
        let c = calculate_dir_sizes(&mut node.children[i]);
        proof {
            let t = node.children@.subrange(0, i + 1);
            assert(t.drop_last() =~= prev.subrange(0, i as int));
            lemma_sum_nonneg(prev.subrange(0, i as int));
        }
        total = total.saturating_add(c);
        i = i + 1;
    }
    node.size = total;
    proof {
        assert(node.children@.subrange(0, i as int) =~= node.children@);
        assert(names_unique(node.children@));
        assert forall|p: Seq<Seq<char>>| shape_kept(#[trigger] lookup(before, p), lookup(*node, p)) by {
            if p.len() > 0 {
                if exists|j: int| child_named(before, p[0], j) {
                    let j = choose|j: int| child_named(before, p[0], j);
                    lemma_lookup_step(before, p, j);
                    lemma_lookup_step(*node, p, j);
                    assert(shape_kept(lookup(before.children@[j], p.drop_first()),
                        lookup(node.children@[j], p.drop_first())));
                } else {
                    assert forall|j: int| !child_named(*node, p[0], j) by {
                        assert(!child_named(before, p[0], j));
                    }
                    lemma_lookup_missing(before, p);
                    lemma_lookup_missing(*node, p);
                }
            }
        }
    }
    total
}

/// Sizes never grow along `s`.
pub open spec fn sorted_by_size(s: Seq<Node>) -> bool {
    forall|i: int, j: int| 0 <= i < j < s.len() ==> s[i].size >= s[j].size
}

/// Every node's children are in descending order of size, all the way down.
pub open spec fn sorted_tree(n: Node) -> bool
    decreases n,
{
    &&& sorted_by_size(n.children@)
    &&& forall|i: int| 0 <= i < n.children@.len() ==> sorted_tree(#[trigger] n.children@[i])
}

/// Some entry of `perm` is `i`.
pub open spec fn hits(perm: Seq<int>, i: int) -> bool {
    exists|j: int| 0 <= j < perm.len() && perm[j] == i
}

/// `b` holds the entries of `a` in another order: `b[j]` is `a[perm[j]]`,
/// and every index of `a` is used exactly once.
pub open spec fn permutes(a: Seq<Node>, b: Seq<Node>, perm: Seq<int>) -> bool {
    &&& b.len() == a.len()
    &&& perm.len() == b.len()
    &&& forall|j: int| 0 <= j < b.len() ==> 0 <= #[trigger] perm[j] < a.len() && b[j] == a[perm[j]]
    &&& forall|j1: int, j2: int|
        0 <= j1 < b.len() && 0 <= j2 < b.len() && j1 != j2 ==> perm[j1] != perm[j2]
    &&& forall|i: int| 0 <= i < a.len() ==> #[trigger] hits(perm, i)
}

/// The nodes of `v` in descending order of size (insertion sort; nodes of
/// equal size may come in any order).
pub fn sort_by_size(v: Vec<Node>) -> (r: Vec<Node>)
    ensures
        sorted_by_size(r@),
        sum_sizes(r@) == sum_sizes(v@),
        exists|perm: Seq<int>| permutes(v@, r@, perm),
{
    let ghost orig = v@;
    let mut v = v;
    let mut r: Vec<Node> = Vec::new();
    let ghost mut perm: Seq<int> = Seq::empty();
    while v.len() > 0
        invariant
            v@ == orig.subrange(0, v@.len() as int),
            sorted_by_size(r@),
            sum_sizes(r@) + sum_sizes(v@) == sum_sizes(orig),
            r@.len() + v@.len() == orig.len(),
            perm.len() == r@.len(),
            forall|j: int|
                0 <= j < r@.len() ==> v@.len() <= #[trigger] perm[j] < orig.len() && r@[j] == orig[perm[j]],
            forall|j1: int, j2: int|
                0 <= j1 < r@.len() && 0 <= j2 < r@.len() && j1 != j2 ==> perm[j1] != perm[j2],
            forall|i: int| v@.len() <= i < orig.len() ==> #[trigger] hits(perm, i),
        decreases v@.len(),
    {
        let ghost v0 = v@;
        let ghost r0 = r@;
        let ghost perm0 = perm;
        let x = v.pop().unwrap();
        let k = v.len();
        assert(v0.drop_last() == v@);
        let mut pos: usize = 0;
        while pos < r.len() && r[pos].size >= x.size
            invariant
                pos <= r@.len(),
                r@ == r0,
                forall|j: int| 0 <= j < pos ==> r@[j].size >= x.size,
            decreases r@.len() - pos,
        {
            pos = pos + 1;
        }
        proof {
            lemma_sum_insert(r@, pos as int, x);
        }
        r.insert(pos, x);
        proof {
            perm = perm0.insert(pos as int, k as int);
            assert(r@ == r0.insert(pos as int, x));
            assert forall|a: int, b: int| 0 <= a < b < r@.len() implies r@[a].size >= r@[b].size by {
                if a < pos && b == pos {
                } else if a == pos {
                    assert(r0[pos as int].size < x.size);
                    assert(r@[b] == r0[b - 1]);
                } else if a < pos {
                    if b > pos {
                        assert(r@[b] == r0[b - 1]);
                    }
                } else {
                    assert(r@[a] == r0[a - 1]);
                    assert(r@[b] == r0[b - 1]);
                }
            }
            assert forall|j: int| 0 <= j < r@.len() implies v@.len() <= #[trigger] perm[j] < orig.len()
                && r@[j] == orig[perm[j]] by {
                if j < pos {
                    assert(perm[j] == perm0[j]);
                } else if j > pos {
                    assert(perm[j] == perm0[j - 1]);
                }
            }
            assert forall|i: int| v@.len() <= i < orig.len() implies #[trigger] hits(perm, i) by {
                if i == k {
                    assert(perm[pos as int] == i);
                } else {
                    assert(hits(perm0, i));
                    let j = choose|j: int| 0 <= j < perm0.len() && perm0[j] == i;
                    if j < pos {
                        assert(perm[j] == i);
                    } else {
                        assert(perm[j + 1] == i);
                    }
                }
            }
        }
    }
    assert(permutes(orig, r@, perm));
    r
}

/// Orders the children of every node by descending size. Nothing but the
/// order changes: each path leads to a node of the same kind and size, and
/// sizes that were aggregated stay so.
pub fn sort_tree(node: &mut Node)
    requires
        wf(*old(node)),
    ensures
        wf(*final(node)),
        sorted_tree(*final(node)),
        final(node).name == old(node).name,
        final(node).path == old(node).path,
        final(node).is_dir == old(node).is_dir,
        final(node).size == old(node).size,
        aggregated(*old(node)) ==> aggregated(*final(node)),
        forall|p: Seq<Seq<char>>| summary(#[trigger] lookup(*final(node), p)) == summary(lookup(*old(node), p)),
    decreases *old(node),
{
    let ghost before = *node;
    assert(before == *old(node));
    let mut i: usize = 0;
    while i < node.children.len()
        invariant
            node.name == before.name,
            node.path == before.path,
            node.is_dir == before.is_dir,
            node.size == before.size,
            wf(before),
            before == *old(node),
            i <= node.children@.len(),
            node.children@.len() == before.children@.len(),
            sum_sizes(node.children@) == sum_sizes(before.children@),
            forall|j: int| i <= j < node.children@.len() ==> node.children@[j] == before.children@[j],
            forall|j: int|
                0 <= j < i ==> {
                    let (a, b) = (before.children@[j], #[trigger] node.children@[j]);
                    &&& wf(b)
                    &&& sorted_tree(b)
                    &&& b.name == a.name
                    &&& b.path == a.path
                    &&& b.is_dir == a.is_dir
                    &&& b.size == a.size
                    &&& aggregated(a) ==> aggregated(b)
                    &&& forall|p: Seq<Seq<char>>| summary(#[trigger] lookup(b, p)) == summary(lookup(a, p))
                },
        decreases node.children@.len() - i,
    {
        let ghost prev = node.children@;
        assert(decreases_to!(before => before.children@[i as int]));
        assert(node.children@[i as int] == before.children@[i as int]);
        sort_tree(&mut node.children[i]);
        proof {
            lemma_sum_update(prev, i as int, node.children@[i as int]);
            assert(node.children@ == prev.update(i as int, node.children@[i as int]));
        }
        i = i + 1;
    }
    let ghost mid = node.children@;
    let mut children: Vec<Node> = Vec::new();
    std::mem::swap(&mut node.children, &mut children);
    node.children = sort_by_size(children);
    proof {
        let perm = choose|perm: Seq<int>| permutes(mid, node.children@, perm);
        let fin = node.children@;
        assert(names_unique(fin)) by {
            assert forall|a: int, b: int| 0 <= a < fin.len() && 0 <= b < fin.len() && a != b implies
                fin[a].name@ != fin[b].name@ by {
                assert(perm[a] != perm[b]);
                assert(fin[a] == mid[perm[a]]);
                assert(fin[b] == mid[perm[b]]);
            }
        }
        assert forall|j: int| 0 <= j < fin.len() implies {
            &&& comps((#[trigger] fin[j]).path@) == comps(node.path@).push(fin[j].name@)
            &&& wf(fin[j])
        } by {
            assert(fin[j] == mid[perm[j]]);
            assert(comps(before.children@[perm[j]].path@) == comps(before.path@).push(
                before.children@[perm[j]].name@,
            ));
        }
        assert(wf(*node));
        assert forall|j: int| 0 <= j < fin.len() implies sorted_tree(#[trigger] fin[j]) by {
            assert(fin[j] == mid[perm[j]]);
        }
        if aggregated(before) && node.is_dir {
            assert forall|j: int| 0 <= j < fin.len() implies aggregated(#[trigger] fin[j]) by {
                assert(fin[j] == mid[perm[j]]);
                assert(aggregated(before.children@[perm[j]]));
            }
        }
        assert forall|p: Seq<Seq<char>>| summary(#[trigger] lookup(*node, p)) == summary(lookup(before, p)) by {
            if p.len() > 0 {
                if exists|i: int| child_named(before, p[0], i) {
                    let i = choose|i: int| child_named(before, p[0], i);
                    assert(hits(perm, i));
                    let j = choose|j: int| 0 <= j < perm.len() && perm[j] == i;
                    assert(fin[j] == mid[i]);
                    lemma_lookup_step(before, p, i);
                    lemma_lookup_step(*node, p, j);
                    assert(summary(lookup(mid[i], p.drop_first())) == summary(
                        lookup(before.children@[i], p.drop_first()),
                    ));
                } else {
                    assert forall|j: int| !child_named(*node, p[0], j) by {
                        if 0 <= j < fin.len() {
                            assert(fin[j] == mid[perm[j]]);
                            assert(!child_named(before, p[0], perm[j]));
                        }
                    }
                    lemma_lookup_missing(before, p);
                    lemma_lookup_missing(*node, p);
                }
            }
        }
    }
}

} // verus!
