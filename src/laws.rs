//! Properties that relate several operations of the library.
use vstd::prelude::*;
use crate::tree::{Node, lookup, wf, is_prefix, child_named, names_unique, shape_kept, summary,
    is_dir_node, lemma_lookup_step, lemma_lookup_missing};
use crate::aggregate::{sum_sizes, aggregated, sums_fit, lemma_sum_nonneg, lemma_sum_remove};
use crate::scan::{WalkEntry, file_count, count_u64, tree_of, agrees_at};
use crate::delete::{removed, dirs_above};
use crate::cursor::{follows, same_tree};

verus! {

/// In an aggregated tree whose sums fit in a `u64`, a directory's size is
/// exactly the sum of its children's sizes.
pub proof fn lemma_dir_size_is_sum(n: Node)
    requires
        aggregated(n),
        sums_fit(n),
        n.is_dir,
    ensures
        n.size == sum_sizes(n.children@),
{
    lemma_sum_nonneg(n.children@);
}

/// The file count published while a walk goes on never goes down: after
/// more entries it is at least what it was.
pub proof fn lemma_count_monotone(es: Seq<WalkEntry>, more: Seq<WalkEntry>)
    ensures
        count_u64(file_count(es)) <= count_u64(file_count(es + more)),
    decreases more.len(),
{
    if more.len() > 0 {
        let shorter = more.drop_last();
        lemma_count_monotone(es, shorter);
        assert((es + more).drop_last() =~= es + shorter);
    }
}

/// Where a path leads nowhere, no longer path through it leads anywhere.
pub proof fn lemma_gone_below(n: Node, r: Seq<Seq<char>>, q: Seq<Seq<char>>)
    requires
        lookup(n, r) is None,
    ensures
        lookup(n, r + q) is None,
    decreases r.len(),
{
    assert(r.len() > 0);
    let rq = r + q;
    assert(rq[0] == r[0]);
    if exists|i: int| child_named(n, r[0], i) {
        let i = choose|i: int| child_named(n, r[0], i);
        assert(rq.drop_first() =~= r.drop_first() + q);
        lemma_gone_below(n.children@[i], r.drop_first(), q);
    }
}

/// After the node at `d` was deleted, its whole subtree is gone from the tree.
pub proof fn lemma_deleted_subtree_gone(before: Node, after: Node, d: Seq<Seq<char>>, q: Seq<Seq<char>>)
    requires
        removed(before, after, d),
    ensures
        lookup(after, d + q) is None,
{
    lemma_gone_below(after, d, q);
}

/// A cursor viewing the directory at `d`, rebuilt after that directory was
/// deleted, views its parent.
pub proof fn lemma_cursor_to_parent(
    before: Node,
    after: Node,
    d: Seq<Seq<char>>,
    nodes: Seq<Node>,
)
    requires
        d.len() > 0,
        removed(before, after, d),
        follows(nodes, after, d),
    ensures
        nodes.len() == d.len(),
        same_tree(nodes.last(), lookup(after, d.drop_last())->0),
{
    let n = nodes.len() as int;
    assert(d.subrange(0, d.len() as int) =~= d);
    if n <= d.len() - 1 {
        assert(lookup(after, d.subrange(0, n)) is Some);
    }
    assert(d.drop_last() =~= d.subrange(0, n - 1));
}

/// A cursor viewing the directory at `t`, rebuilt after an unrelated node at
/// `s` was deleted (neither lies below the other), views the same directory,
/// unchanged.
pub proof fn lemma_cursor_kept(
    before: Node,
    after: Node,
    s: Seq<Seq<char>>,
    t: Seq<Seq<char>>,
    nodes: Seq<Node>,
)
    requires
        lookup(before, t) is Some,
        !is_prefix(s, t),
        !is_prefix(t, s),
        removed(before, after, s),
        follows(nodes, after, t),
    ensures
        nodes.len() == t.len() + 1,
        lookup(after, t) == lookup(before, t),
        same_tree(nodes.last(), lookup(before, t)->0),
{
    let n = nodes.len() as int;
    assert(t.subrange(0, t.len() as int) =~= t);
    if n <= t.len() {
        let q = t.subrange(0, n);
        assert(lookup(after, q) is None);
        if is_prefix(q, s) {
            assert(n < s.len()) by {
                if n >= s.len() {
                    assert(s =~= q);
                    assert(t.subrange(0, s.len() as int) =~= s);
                }
            }
            assert(s.subrange(0, n) =~= q);
            assert(lookup(after, s.subrange(0, n)) is Some);
        } else {
            assert(!is_prefix(s, q)) by {
                if is_prefix(s, q) {
                    assert(t.subrange(0, s.len() as int) =~= q.subrange(0, s.len() as int));
                }
            }
            assert(lookup(after, q) == lookup(before, q));
            crate::laws::lemma_prefix_found(before, t, n);
        }
    }
}

/// Every prefix of a path that leads somewhere leads somewhere too.
pub proof fn lemma_prefix_found(n: Node, t: Seq<Seq<char>>, k: int)
    requires
        lookup(n, t) is Some,
        0 <= k <= t.len(),
    ensures
        lookup(n, t.subrange(0, k)) is Some,
    decreases k,
{
    if k > 0 {
        let i = choose|i: int| child_named(n, t[0], i);
        assert(t.subrange(0, k).drop_first() =~= t.drop_first().subrange(0, k - 1));
        lemma_prefix_found(n.children@[i], t.drop_first(), k - 1);
        assert(child_named(n, t.subrange(0, k)[0], i));
    }
}

/// Every child of `sa` has a namesake of the same size in `sb`, and every
/// child of `sb` a namesake in `sa`.
pub open spec fn matched(sa: Seq<Node>, sb: Seq<Node>) -> bool {
    &&& forall|i: int| 0 <= i < sa.len() ==> has_twin(#[trigger] sa[i], sb)
    &&& forall|j: int| 0 <= j < sb.len() ==> has_namesake(#[trigger] sb[j], sa)
}

/// Some entry of `s` has the name and size of `x`.
#[verifier::opaque]
pub open spec fn has_twin(x: Node, s: Seq<Node>) -> bool {
    exists|j: int| 0 <= j < s.len() && s[j].name@ == x.name@ && s[j].size == x.size
}

/// Some entry of `s` has the name of `y`.
#[verifier::opaque]
pub open spec fn has_namesake(y: Node, s: Seq<Node>) -> bool {
    exists|i: int| 0 <= i < s.len() && s[i].name@ == y.name@
}

/// Children matched by name and size add up to the same total, whatever
/// their order.
pub proof fn lemma_sum_matched(sa: Seq<Node>, sb: Seq<Node>)
    requires
        names_unique(sa),
        names_unique(sb),
        matched(sa, sb),
    ensures
        sum_sizes(sa) == sum_sizes(sb),
    decreases sa.len(),
{
    if sa.len() == 0 {
        if sb.len() > 0 {
            assert(has_namesake(sb[0], sa));
            reveal(has_namesake);
        }
        assert(sb =~= Seq::<Node>::empty());
    } else {
        let last = sa.len() - 1;
        assert(has_twin(sa[last], sb));
        reveal(has_twin);
        let j = choose|j: int| 0 <= j < sb.len() && sb[j].name@ == sa[last].name@ && sb[j].size == sa[last].size;
        let sa2 = sa.drop_last();
        let sb2 = sb.remove(j);
        assert forall|i: int| 0 <= i < sa2.len() implies has_twin(#[trigger] sa2[i], sb2) by {
            assert(sa2[i] == sa[i]);
            assert(has_twin(sa[i], sb));
            reveal(has_twin);
            let k = choose|k: int| 0 <= k < sb.len() && sb[k].name@ == sa[i].name@ && sb[k].size == sa[i].size;
            assert(k != j);
            if k < j {
                assert(sb2[k] == sb[k]);
            } else {
                assert(sb2[k - 1] == sb[k]);
            }
        }
        assert forall|k: int| 0 <= k < sb2.len() implies has_namesake(#[trigger] sb2[k], sa2) by {
            let k0 = if k < j { k } else { k + 1 };
            assert(sb2[k] == sb[k0]);
            assert(has_namesake(sb[k0], sa));
            reveal(has_namesake);
            let i = choose|i: int| 0 <= i < sa.len() && sa[i].name@ == sb[k0].name@;
            assert(i != last);
            assert(sa2[i] == sa[i]);
        }
        assert(names_unique(sb2)) by {
            assert forall|a: int, b: int| 0 <= a < sb2.len() && 0 <= b < sb2.len() && a != b implies
                sb2[a].name@ != sb2[b].name@ by {
                let a0 = if a < j { a } else { a + 1 };
                let b0 = if b < j { b } else { b + 1 };
                assert(sb2[a] == sb[a0]);
                assert(sb2[b] == sb[b0]);
            }
        }
        assert(names_unique(sa2));
        lemma_sum_matched(sa2, sb2);
        lemma_sum_remove(sb, j);
    }
}

/// Two aggregated trees that agree on which paths exist, on their kinds and
/// on file sizes agree on every size reached through directories too.
pub proof fn lemma_same_shape_same_sizes(a: Node, b: Node)
    requires
        wf(a),
        wf(b),
        aggregated(a),
        aggregated(b),
        a.is_dir == b.is_dir,
        !a.is_dir ==> a.size == b.size,
        forall|p: Seq<Seq<char>>| p.len() > 0 ==> shape_kept(#[trigger] lookup(a, p), lookup(b, p)),
    ensures
        a.size == b.size,
        forall|p: Seq<Seq<char>>| dirs_above(a, p) ==> #[trigger] summary(lookup(a, p)) == summary(lookup(b, p)),
    decreases a,
{
    if a.is_dir {
        let sa = a.children@;
        let sb = b.children@;
        assert forall|i: int| 0 <= i < sa.len() implies {
            &&& child_named(b, (#[trigger] sa[i]).name@, partner(b, sa[i].name@))
            &&& shape_sub(sa[i], sb[partner(b, sa[i].name@)])
        } by {
            let x = sa[i].name@;
            let px = seq![x];
            lemma_lookup_step(a, px, i);
            assert(px.drop_first() =~= Seq::<Seq<char>>::empty());
            assert(shape_kept(lookup(a, px), lookup(b, px)));
            if !(exists|j: int| child_named(b, x, j)) {
                lemma_lookup_missing(b, px);
            }
            let j = partner(b, x);
            lemma_lookup_step(b, px, j);
            assert forall|q: Seq<Seq<char>>| q.len() > 0 implies shape_kept(
                #[trigger] lookup(sa[i], q),
                lookup(sb[j], q),
            ) by {
                let pq = px + q;
                assert(pq[0] == x);
                assert(pq.drop_first() =~= q);
                lemma_lookup_step(a, pq, i);
                lemma_lookup_step(b, pq, j);
                assert(shape_kept(lookup(a, pq), lookup(b, pq)));
            }
            assert(decreases_to!(a => a.children@[i]));
            lemma_same_shape_same_sizes(sa[i], sb[j]);
        }
        assert(matched(sa, sb)) by {
            reveal(has_twin);
            reveal(has_namesake);
            assert forall|i: int| 0 <= i < sa.len() implies has_twin(#[trigger] sa[i], sb) by {
                let j = partner(b, sa[i].name@);
                assert(shape_sub(sa[i], sb[j]));
            }
            assert forall|j: int| 0 <= j < sb.len() implies has_namesake(#[trigger] sb[j], sa) by {
                let y = sb[j].name@;
                let py = seq![y];
                lemma_lookup_step(b, py, j);
                assert(shape_kept(lookup(a, py), lookup(b, py)));
                if !(exists|i: int| child_named(a, y, i)) {
                    lemma_lookup_missing(a, py);
                }
            }
        }
        lemma_sum_matched(sa, sb);
        assert forall|p: Seq<Seq<char>>| dirs_above(a, p) implies #[trigger] summary(lookup(a, p)) == summary(
            lookup(b, p),
        ) by {
            if p.len() > 0 {
                assert(p.subrange(0, 0) =~= Seq::<Seq<char>>::empty());
                if exists|i: int| child_named(a, p[0], i) {
                    let i = choose|i: int| child_named(a, p[0], i);
                    let j = partner(b, sa[i].name@);
                    assert(shape_sub(sa[i], sb[j]));
                    lemma_lookup_step(a, p, i);
                    lemma_lookup_step(b, p, j);
                    let p1 = p.drop_first();
                    assert(dirs_above(sa[i], p1)) by {
                        assert forall|k: int| 0 <= k < p1.len() implies is_dir_node(
                            #[trigger] lookup(sa[i], p1.subrange(0, k)),
                        ) by {
                            let q = p.subrange(0, k + 1);
                            assert(is_dir_node(lookup(a, q)));
                            lemma_lookup_step(a, q, i);
                            assert(q.drop_first() =~= p1.subrange(0, k));
                        }
                    }
                } else {
                    lemma_lookup_missing(a, p);
                    assert(shape_kept(lookup(a, p), lookup(b, p)));
                }
            }
        }
    } else {
        assert forall|p: Seq<Seq<char>>| dirs_above(a, p) implies #[trigger] summary(lookup(a, p)) == summary(
            lookup(b, p),
        ) by {
            if p.len() > 0 {
                assert(p.subrange(0, 0) =~= Seq::<Seq<char>>::empty());
                assert(is_dir_node(lookup(a, p.subrange(0, 0))));
            }
        }
    }
}

/// The index of the child of `n` called `x`, where there is one.
pub open spec fn partner(n: Node, x: Seq<char>) -> int {
    choose|j: int| child_named(n, x, j)
}

/// The pair of a child of one tree and its namesake in the other: same kind
/// and size, and the subtrees below agree on every size reached through
/// directories.
pub open spec fn shape_sub(x: Node, y: Node) -> bool {
    &&& x.size == y.size
    &&& x.is_dir == y.is_dir
    &&& forall|p: Seq<Seq<char>>| dirs_above(x, p) ==> #[trigger] summary(lookup(x, p)) == summary(lookup(y, p))
}

/// Scanning the same entries twice gives the same tree: the same paths,
/// kinds and sizes (for every path reached through directories), whatever
/// order equal-sized siblings came in.
pub proof fn lemma_rescan_same(a: Node, b: Node, name: Seq<char>, es: Seq<WalkEntry>)
    requires
        tree_of(a, name, es),
        tree_of(b, name, es),
    ensures
        a.name@ == b.name@,
        a.size == b.size,
        forall|p: Seq<Seq<char>>| dirs_above(a, p) ==> #[trigger] summary(lookup(a, p)) == summary(lookup(b, p)),
{
    assert forall|p: Seq<Seq<char>>| p.len() > 0 implies shape_kept(#[trigger] lookup(a, p), lookup(b, p)) by {
        assert(agrees_at(lookup(a, p), es, p));
        assert(agrees_at(lookup(b, p), es, p));
    }
    lemma_same_shape_same_sizes(a, b);
}

} // verus!
