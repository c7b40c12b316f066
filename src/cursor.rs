//! A browsing cursor into a scanned tree: the chain of directories from the
//! root down to the one being viewed, and its repair after the tree changed.
use vstd::prelude::*;
use crate::tree::{Node, comps, lookup, wf, is_prefix, find_child};
use crate::insert::copy_path;

verus! {

broadcast use vstd::std_specs::vec::group_vec_axioms;

/// `a` is a copy of `b`: same names, sizes, kinds and paths, all the way down.
pub open spec fn same_tree(a: Node, b: Node) -> bool
    decreases a,
{
    &&& a.name@ == b.name@
    &&& a.size == b.size
    &&& a.is_dir == b.is_dir
    &&& comps(a.path@) == comps(b.path@)
    &&& a.children@.len() == b.children@.len()
    &&& forall|i: int|
        0 <= i < a.children@.len() ==> same_tree(#[trigger] a.children@[i], b.children@[i])
}

/// Two nodes that match field by field, with children that are copies of
/// each other, are copies.
proof fn lemma_same_tree_intro(a: Node, b: Node)
    requires
        a.name@ == b.name@,
        a.size == b.size,
        a.is_dir == b.is_dir,
        comps(a.path@) == comps(b.path@),
        a.children@.len() == b.children@.len(),
        forall|i: int| 0 <= i < a.children@.len() ==> same_tree(#[trigger] a.children@[i], b.children@[i]),
    ensures
        same_tree(a, b),
{
}

/// `nodes` are copies of the nodes met walking the components of `t` down
/// from `root`, as far as they go: one for the root and one for each
/// component found, stopping at the first that is missing.
pub open spec fn follows(nodes: Seq<Node>, root: Node, t: Seq<Seq<char>>) -> bool {
    &&& 1 <= nodes.len() <= t.len() + 1
    &&& forall|k: int|
        0 <= k < nodes.len() ==> {
            &&& (#[trigger] lookup(root, t.subrange(0, k))) is Some
            &&& same_tree(nodes[k], lookup(root, t.subrange(0, k))->0)
        }
    &&& nodes.len() <= t.len() ==> lookup(root, t.subrange(0, nodes.len() as int)) is None
}

/// The components of `p` below `base`, or none when `p` does not lie below it.
pub open spec fn below(base: Seq<Seq<char>>, p: Seq<Seq<char>>) -> Seq<Seq<char>> {
    if is_prefix(base, p) {
        p.subrange(base.len() as int, p.len() as int)
    } else {
        Seq::empty()
    }
}

/// Relies on `String::push_str`: appends `s` to `out`.
#[verifier::external_body]
fn append(out: &mut String, s: &str)
    ensures
        final(out)@ == old(out)@ + s@,
{
    out.push_str(s);
}

/// The names of `nodes`, joined by " / ".
pub open spec fn joined_names(nodes: Seq<Node>) -> Seq<char>
    decreases nodes.len(),
{
    if nodes.len() == 0 {
        Seq::empty()
    } else if nodes.len() == 1 {
        nodes[0].name@
    } else {
        joined_names(nodes.drop_last()) + " / "@ + nodes.last().name@
    }
}

impl Node {
    /// A copy of this node and its whole subtree.
    pub fn copy(&self) -> (r: Node)
        ensures
            same_tree(r, *self),
        decreases *self,
    {
        let mut children: Vec<Node> = Vec::new();
        let mut i: usize = 0;
        while i < self.children.len()
            invariant
                i <= self.children@.len(),
                children@.len() == i,
                forall|j: int| 0 <= j < i ==> #[trigger] same_tree(children@[j], self.children@[j]),
            decreases self.children@.len() - i,
        {
            assert(decreases_to!(*self => self.children@[i as int]));
            let c = self.children[i].copy();
            children.push(c);
            i = i + 1;
        }
        let r = Node {
            name: self.name.clone(),
            size: self.size,
            is_dir: self.is_dir,
            children,
            path: copy_path(&self.path),
        };
        assert(comps(r.path@) =~= comps(self.path@));
        assert(forall|j: int|
            0 <= j < r.children@.len() ==> #[trigger] same_tree(r.children@[j], self.children@[j]));
        proof {
            lemma_same_tree_intro(r, *self);
        }
        r
    }
}

/// The components of `p` after those of `base`, when `base` is a prefix of it.
fn strip_base(base: &Vec<String>, p: &Vec<String>) -> (r: Option<Vec<String>>)
    ensures
        match r {
            Some(rest) => is_prefix(comps(base@), comps(p@)) && comps(rest@) == below(
                comps(base@),
                comps(p@),
            ),
            None => !is_prefix(comps(base@), comps(p@)),
        },
{
    if base.len() > p.len() {
        return None;
    }
    let mut i: usize = 0;
    while i < base.len()
        invariant
            base@.len() <= p@.len(),
            i <= base@.len(),
            forall|j: int| 0 <= j < i ==> base@[j]@ == p@[j]@,
        decreases base@.len() - i,
    {
        if base[i] != p[i] {
            proof {
                if is_prefix(comps(base@), comps(p@)) {
                    assert(comps(p@).subrange(0, base@.len() as int)[i as int] == comps(base@)[i as int]);
                }
            }
            return None;
        }
        i = i + 1;
    }
    assert(comps(p@).subrange(0, base@.len() as int) =~= comps(base@));
    let mut rest: Vec<String> = Vec::new();
    let mut k: usize = base.len();
    while k < p.len()
        invariant
            base@.len() <= k <= p@.len(),
            rest@ == p@.subrange(base@.len() as int, k as int),
        decreases p@.len() - k,
    {
        rest.push(p[k].clone());
        k = k + 1;
        assert(rest@ =~= p@.subrange(base@.len() as int, k as int));
    }
    proof {
        crate::tree::lemma_comps_subrange(p@, base@.len() as int, p@.len() as int);
    }
    Some(rest)
}

/// Where a frontend is in the tree: copies of the directories from the root
/// down to the one being viewed, and the selected row there.
pub struct NavigationState {
    pub path: Vec<Node>,
    pub selected: usize,
}

impl NavigationState {
    /// The cursor at the root.
    pub fn new(root: Node) -> (r: NavigationState)
        ensures
            r.path@ == seq![root],
            r.selected == 0,
    {
        let mut path: Vec<Node> = Vec::new();
        path.push(root);
        assert(path@ =~= seq![root]);
        NavigationState { path, selected: 0 }
    }

    /// The directory being viewed.
    pub fn current(&self) -> (r: &Node)
        requires
            self.path@.len() > 0,
        ensures
            *r == self.path@.last(),
    {
        &self.path[self.path.len() - 1]
    }

    /// The names from the root down to the current directory, joined by " / ".
    pub fn breadcrumb(&self) -> (r: String)
        ensures
            r@ == joined_names(self.path@),
    {
        let mut out = String::new();
        let mut i: usize = 0;
        while i < self.path.len()
            invariant
                i <= self.path@.len(),
                out@ == joined_names(self.path@.subrange(0, i as int)),
            decreases self.path@.len() - i,
        {
            let ghost before = out@;
            if i > 0 {
                append(&mut out, " / ");
            }
            append(&mut out, self.path[i].name.as_str());
            proof {
                let s = self.path@.subrange(0, i + 1);
                assert(s.drop_last() =~= self.path@.subrange(0, i as int));
                if i == 0 {
                    assert(before =~= Seq::<char>::empty());
                    assert(out@ =~= s[0].name@);
                }
            }
            i = i + 1;
        }
        assert(self.path@.subrange(0, i as int) =~= self.path@);
        out
    }

    /// Enters the child directory at `index` of the current one; nothing
    /// happens (and `false` comes back) when there is no such child or it is
    /// a file.
    pub fn drill_down(&mut self, index: usize) -> (r: bool)
        requires
            old(self).path@.len() > 0,
        ensures
            r == (index < old(self).path@.last().children@.len()
                && old(self).path@.last().children@[index as int].is_dir),
            r ==> final(self).path@.len() == old(self).path@.len() + 1
                && final(self).path@.subrange(0, old(self).path@.len() as int) == old(self).path@
                && same_tree(final(self).path@.last(), old(self).path@.last().children@[index as int])
                && final(self).selected == 0,
            !r ==> *final(self) == *old(self),
    {
        let n = self.path.len();
        if index < self.path[n - 1].children.len() && self.path[n - 1].children[index].is_dir {
            let child = self.path[n - 1].children[index].copy();
            self.path.push(child);
            self.selected = 0;
            assert(self.path@.subrange(0, n as int) =~= old(self).path@);
            true
        } else {
            false
        }
    }

    /// Goes back to the parent directory; nothing happens (and `false` comes
    /// back) at the root.
    pub fn drill_up(&mut self) -> (r: bool)
        ensures
            r == (old(self).path@.len() > 1),
            r ==> final(self).path@ == old(self).path@.drop_last() && final(self).selected == 0,
            !r ==> *final(self) == *old(self),
    {
        if self.path.len() > 1 {
            self.path.pop();
            self.selected = 0;
            true
        } else {
            false
        }
    }

    /// Rebuilds the cursor on `root` after the tree changed: walks the
    /// components of the path that was being viewed down from the new root
    /// and stops at the first one that is gone, so the cursor lands on the
    /// nearest directory that still exists (the root when the old path does
    /// not lie below it). The selection goes back to the first row.
    pub fn rebuild_from_root(&mut self, root: &Node)
        requires
            wf(*root),
        ensures
            final(self).selected == 0,
            follows(
                final(self).path@,
                *root,
                if old(self).path@.len() == 0 {
                    Seq::empty()
                } else {
                    below(comps(root.path@), comps(old(self).path@.last().path@))
                },
            ),
    {
        let ghost t = if self.path@.len() == 0 {
            Seq::<Seq<char>>::empty()
        } else {
            below(comps(root.path@), comps(self.path@.last().path@))
        };
        let rest = if self.path.len() == 0 {
            Vec::new()
        } else {
            match strip_base(&root.path, &self.path[self.path.len() - 1].path) {
                Some(r) => r,
                None => Vec::new(),
            }
        };
        assert(comps(rest@) == t);
        let mut nodes: Vec<Node> = Vec::new();
        nodes.push(root.copy());
        let mut cur: &Node = root;
        let mut i: usize = 0;
        assert(t.subrange(0, 0) =~= Seq::<Seq<char>>::empty());
        while i < rest.len()
            invariant
                comps(rest@) == t,
                wf(*cur),
                wf(*root),
                i <= rest@.len(),
                nodes@.len() == i + 1,
                lookup(*root, t.subrange(0, i as int)) == Some(*cur),
                forall|k: int|
                    0 <= k <= i ==> {
                        &&& (#[trigger] lookup(*root, t.subrange(0, k))) is Some
                        &&& same_tree(nodes@[k], lookup(*root, t.subrange(0, k))->0)
                    },
            ensures
                i == rest@.len() || lookup(*root, t.subrange(0, i + 1)) is None,
            decreases rest@.len() - i,
        {
            match find_child(cur, &rest[i]) {
                Some(j) => {
                    proof {
                        crate::tree::lemma_lookup_append(*root, t.subrange(0, i as int), *cur, t[i as int], j as int);
                        assert(t.subrange(0, i as int).push(t[i as int]) =~= t.subrange(0, i + 1));
                    }
                    cur = &cur.children[j];
                    nodes.push(cur.copy());
                    i = i + 1;
                },
                None => {
                    proof {
                        assert(t[i as int] == rest@[i as int]@);
                        crate::tree::lemma_lookup_append_missing(*root, t.subrange(0, i as int), *cur, t[i as int]);
                        assert(t.subrange(0, i as int).push(t[i as int]) =~= t.subrange(0, i + 1));
                    }
                    break;
                },
            }
        }
        self.path = nodes;
        self.selected = 0;
    }
}

} // verus!
