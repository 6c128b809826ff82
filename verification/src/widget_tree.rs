//! Paths through a tree of widget identifiers: resolving a path to a widget, the widgets a
//! path visits, and finding the path to a widget by a depth-first search.

use vstd::prelude::*;
use std::collections::HashMap;
use crate::widget_path::{WidgetId, WidgetPath};

verus! {

/// What path resolution reads of a widget: its identifier and its direct children, in the
/// order the widget visits them.
pub struct WidgetNode {
    /// The widget's identifier.
    pub id: WidgetId,
    /// The widget's direct children.
    pub children: Vec<WidgetNode>,
}

/// The first of the widgets from `i` on with identifier `id`, or `c.len()` when none has it.
pub open spec fn child_index(c: Seq<WidgetNode>, id: WidgetId, i: int) -> int
    decreases c.len() - i,
{
    if i >= c.len() || i < 0 {
        c.len() as int
    } else if c[i].id == id {
        i
    } else {
        child_index(c, id, i + 1)
    }
}

proof fn lemma_child_index(c: Seq<WidgetNode>, id: WidgetId, i: int)
    requires
        0 <= i <= c.len(),
    ensures
        i <= child_index(c, id, i) <= c.len(),
        child_index(c, id, i) < c.len() ==> c[child_index(c, id, i)].id == id,
        forall|j: int| i <= j < child_index(c, id, i) ==> (#[trigger] c[j]).id != id,
    decreases c.len() - i,
{
    if i < c.len() && c[i].id != id {
        lemma_child_index(c, id, i + 1);
    }
}

/// The widget reached from `n` by stepping, for each identifier of `rest` in turn, to the
/// first child with that identifier; none when a step finds no such child.
pub open spec fn descend(n: WidgetNode, rest: Seq<WidgetId>) -> Option<WidgetNode>
    decreases rest.len(),
{
    if rest.len() == 0 {
        Some(n)
    } else {
        let i = child_index(n.children@, rest[0], 0);
        if 0 <= i < n.children@.len() {
            descend(n.children@[i], rest.drop_first())
        } else {
            None
        }
    }
}

/// The widget a root-to-descendant path of identifiers leads to from `root`: none when the
/// path is empty, does not start at `root`, or breaks off.
pub open spec fn walked(root: WidgetNode, path: Seq<WidgetId>) -> Option<WidgetNode> {
    if path.len() == 0 || root.id != path[0] {
        None
    } else {
        descend(root, path.drop_first())
    }
}

/// How many identifiers of `rest`, from the first, can be followed down from `n`.
pub open spec fn prefix_reach(n: WidgetNode, rest: Seq<WidgetId>) -> nat
    decreases rest.len(),
{
    if rest.len() == 0 {
        0
    } else {
        let i = child_index(n.children@, rest[0], 0);
        if 0 <= i < n.children@.len() {
            1 + prefix_reach(n.children@[i], rest.drop_first())
        } else {
            0
        }
    }
}

/// The identifiers of the widgets at depths `idx..` of `path` reached from `n` (which stands
/// at depth `idx`), root first, keeping those at depths in `start..end`.
pub open spec fn visited(n: WidgetNode, path: Seq<WidgetId>, idx: int, start: int, end: int) -> Seq<WidgetId>
    decreases path.len() - idx,
{
    if idx < 0 || idx >= path.len() || n.id != path[idx] {
        Seq::empty()
    } else {
        let here: Seq<WidgetId> = if start <= idx && idx < end {
            seq![n.id]
        } else {
            Seq::empty()
        };
        if idx + 1 < path.len() {
            let i = child_index(n.children@, path[idx + 1], 0);
            if 0 <= i < n.children@.len() {
                here + visited(n.children@[i], path, idx + 1, start, end)
            } else {
                here
            }
        } else {
            here
        }
    }
}

/// The parent-child edges of `path` from depth `idx` on, as pairs of the parent reached from
/// `n` and the identifier of the child the path goes on to, root first.
pub open spec fn edges(n: WidgetNode, path: Seq<WidgetId>, idx: int) -> Seq<(WidgetId, WidgetId)>
    decreases path.len() - idx,
{
    if idx < 0 || idx >= path.len() || n.id != path[idx] || idx + 1 >= path.len() {
        Seq::empty()
    } else {
        let i = child_index(n.children@, path[idx + 1], 0);
        let here = seq![(n.id, path[idx + 1])];
        if 0 <= i < n.children@.len() {
            here + edges(n.children@[i], path, idx + 1)
        } else {
            here
        }
    }
}

/// The widgets along `path` from depth `idx` on that receive an event, deepest first.
pub open spec fn emission(n: WidgetNode, path: Seq<WidgetId>, idx: int) -> Seq<WidgetId>
    decreases path.len() - idx,
{
    if idx < 0 || idx >= path.len() || n.id != path[idx] {
        Seq::empty()
    } else if idx + 1 < path.len() {
        let i = child_index(n.children@, path[idx + 1], 0);
        if 0 <= i < n.children@.len() {
            emission(n.children@[i], path, idx + 1).push(n.id)
        } else {
            seq![n.id]
        }
    } else {
        seq![n.id]
    }
}

/// The path from `n` to the first widget with identifier `id` in depth-first order, children
/// in order, a widget before its children.
pub open spec fn dfs_path(n: WidgetNode, id: WidgetId) -> Option<Seq<WidgetId>>
    decreases n, 0int,
{
    if n.id == id {
        Some(seq![n.id])
    } else {
        match dfs_among(n.children@, id, 0) {
            Some(p) => Some(seq![n.id] + p),
            None => None,
        }
    }
}

/// The path to the first widget with identifier `id` below the widgets `c` from `k` on.
pub open spec fn dfs_among(c: Seq<WidgetNode>, id: WidgetId, k: int) -> Option<Seq<WidgetId>>
    decreases c, c.len() - k,
{
    if k < 0 || k >= c.len() {
        None
    } else {
        match dfs_path(c[k], id) {
            Some(p) => Some(p),
            None => dfs_among(c, id, k + 1),
        }
    }
}

impl WidgetNode {
    /// Returns the index of the first direct child with identifier `id`, if any.
    pub fn child_position(&self, id: WidgetId) -> (r: Option<usize>)
        ensures
            match r {
                Some(i) => i as int == child_index(self.children@, id, 0) && i < self.children@.len(),
                None => child_index(self.children@, id, 0) >= self.children@.len(),
            },
    {
        proof {
            lemma_child_index(self.children@, id, 0);
        }
        let n = self.children.len();
        let mut i: usize = 0;
        while i < n
            invariant
                n == self.children@.len(),
                0 <= i <= n,
                child_index(self.children@, id, 0) == child_index(self.children@, id, i as int),
            decreases n - i,
        {
            if self.children[i].id == id {
                return Some(i);
            }
            i += 1;
        }
        None
    }

    /// Returns the direct child with identifier `id`: the first one when several have it.
    pub fn get_child(&self, id: WidgetId) -> (r: Option<&WidgetNode>)
        ensures
            match r {
                Some(c) => {
                    let i = child_index(self.children@, id, 0);
                    0 <= i < self.children@.len() && *c == self.children@[i]
                },
                None => child_index(self.children@, id, 0) >= self.children@.len(),
            },
    {
        match self.child_position(id) {
            Some(i) => Some(&self.children[i]),
            None => None,
        }
    }

    /// Returns the widget that the identifiers `rest` lead to from here, one child at a time.
    fn descend_to(&self, rest: &[WidgetId], k: usize) -> (r: Option<&WidgetNode>)
        requires
            k <= rest@.len(),
        ensures
            match descend(*self, rest@.skip(k as int)) {
                Some(w) => r matches Some(c) && *c == w,
                None => r is None,
            },
        decreases rest@.len() - k,
    {
        if k == rest.len() {
            return Some(self);
        }
        proof {
            assert(rest@.skip(k as int).drop_first() =~= rest@.skip(k as int + 1));
        }
        match self.child_position(rest[k]) {
            Some(i) => self.children[i].descend_to(rest, k + 1),
            None => None,
        }
    }

    /// Returns the widget that `path` leads to from this root: `None` when the path is empty,
    /// does not start here, or names a child that is not there.
    pub fn walk_path(&self, path: &[WidgetId]) -> (r: Option<&WidgetNode>)
        ensures
            match walked(*self, path@) {
                Some(w) => r matches Some(c) && *c == w,
                None => r is None,
            },
    {
        if path.len() == 0 || self.id != path[0] {
            return None;
        }
        proof {
            assert(path@.skip(1) =~= path@.drop_first());
        }
        self.descend_to(path, 1)
    }

    /// Returns how many identifiers of `remaining`, from the first, can be followed down from
    /// here, added to `len`.
    pub fn valid_prefix_len(&self, remaining: &[WidgetId], len: &mut usize)
        requires
            *old(len) + remaining@.len() <= usize::MAX,
        ensures
            *final(len) == *old(len) + prefix_reach(*self, remaining@),
        decreases remaining@.len(),
    {
        proof {
            lemma_prefix_reach_bound(*self, remaining@);
        }
        if remaining.len() == 0 {
            return;
        }
        match self.child_position(remaining[0]) {
            Some(i) => {
                *len += 1;
                let rest = slice_from(remaining, 1);
                proof {
                    assert(rest@ =~= remaining@.drop_first());
                }
                self.children[i].valid_prefix_len(rest, len);
            },
            None => {},
        }
    }

    /// Returns the identifiers of the widgets along `path` from depth `idx` (this widget) on
    /// whose depth lies in `start..end`, root first: what a visit of those widgets reaches.
    pub fn path_members(&self, path: &[WidgetId], idx: usize, start: usize, end: usize) -> (r: Vec<WidgetId>)
        ensures
            r@ == visited(*self, path@, idx as int, start as int, end as int),
        decreases path@.len() - idx,
    {
        if idx >= path.len() || self.id != path[idx] {
            return Vec::new();
        }
        let mut out: Vec<WidgetId> = Vec::new();
        if idx >= start && idx < end {
            out.push(self.id);
        }
        if idx + 1 < path.len() {
            match self.child_position(path[idx + 1]) {
                Some(i) => {
                    let mut below = self.children[i].path_members(path, idx + 1, start, end);
                    out.append(&mut below);
                },
                None => {},
            }
        }
        proof {
            let here: Seq<WidgetId> = if start <= idx && idx < end {
                seq![self.id]
            } else {
                Seq::empty()
            };
            assert(here =~= if idx >= start && idx < end {
                Seq::empty().push(self.id)
            } else {
                Seq::empty()
            });
        }
        out
    }

    /// Returns the parent-child edges of `path` from depth `idx` (this widget) on, as pairs
    /// of the parent and the identifier of the child the path goes on to, root first.
    pub fn path_edges(&self, path: &[WidgetId], idx: usize) -> (r: Vec<(WidgetId, WidgetId)>)
        ensures
            r@ == edges(*self, path@, idx as int),
        decreases path@.len() - idx,
    {
        if idx >= path.len() || self.id != path[idx] || idx + 1 >= path.len() {
            return Vec::new();
        }
        let mut out: Vec<(WidgetId, WidgetId)> = Vec::new();
        out.push((self.id, path[idx + 1]));
        match self.child_position(path[idx + 1]) {
            Some(i) => {
                let mut below = self.children[i].path_edges(path, idx + 1);
                out.append(&mut below);
            },
            None => {},
        }
        out
    }

    /// Returns the widgets along `path` from depth `idx` (this widget) on that receive an
    /// event sent down the path, in the order they receive it: deepest first.
    pub fn emission_order(&self, path: &[WidgetId], idx: usize) -> (r: Vec<WidgetId>)
        ensures
            r@ == emission(*self, path@, idx as int),
        decreases path@.len() - idx,
    {
        if idx >= path.len() || self.id != path[idx] {
            return Vec::new();
        }
        let mut out: Vec<WidgetId> = Vec::new();
        if idx + 1 < path.len() {
            match self.child_position(path[idx + 1]) {
                Some(i) => {
                    out = self.children[i].emission_order(path, idx + 1);
                },
                None => {},
            }
        }
        out.push(self.id);
        out
    }

    /// Appends to `path` the identifiers from this widget down to the first widget with
    /// identifier `id` in depth-first order, and returns whether there is one; `path` is left
    /// as it was when there is none.
    pub fn find_dfs_path(&self, id: WidgetId, path: &mut Vec<WidgetId>) -> (r: bool)
        ensures
            r == dfs_path(*self, id) is Some,
            match dfs_path(*self, id) {
                Some(p) => final(path)@ == old(path)@ + p,
                None => final(path)@ == old(path)@,
            },
        decreases *self, 0int,
    {
        path.push(self.id);
        if self.id == id {
            return true;
        }
        proof {
            assert(decreases_to!(*self => self.children));
            assert(decreases_to!(self.children => self.children@));
        }
        let ghost base = path@;
        let n = self.children.len();
        let mut found = false;
        let mut k: usize = 0;
        while k < n && !found
            invariant
                n == self.children@.len(),
                0 <= k <= n,
                self.id != id,
                decreases_to!(*self => self.children@),
                !found ==> path@ == base,
                !found ==> dfs_among(self.children@, id, 0) == dfs_among(self.children@, id, k as int),
                found ==> match dfs_among(self.children@, id, 0) {
                    Some(p) => path@ == base + p,
                    None => false,
                },
            decreases n - k,
        {
            proof {
                assert(decreases_to!(self.children@ => self.children@[k as int]));
            }
            found = self.children[k].find_dfs_path(id, path);
            k += 1;
        }
        if !found {
            proof {
                assert(dfs_among(self.children@, id, k as int) is None);
            }
            path.pop();
            proof {
                assert(path@ =~= old(path)@);
            }
        } else {
            proof {
                assert(base == old(path)@.push(self.id));
                let p = dfs_among(self.children@, id, 0).unwrap();
                assert(base + p =~= old(path)@ + (seq![self.id] + p));
            }
        }
        found
    }
}

/// Whether path `p` leads from `root` to a widget with identifier `id`.
pub open spec fn resolves(root: WidgetNode, p: Seq<WidgetId>, id: WidgetId) -> bool {
    walked(root, p) matches Some(w) && w.id == id
}

/// Whether the children of every widget in a tree have distinct identifiers.
pub open spec fn distinct_children(n: WidgetNode) -> bool
    decreases n,
{
    &&& forall|i: int, j: int|
        0 <= i < j < n.children@.len() ==> (#[trigger] n.children@[i]).id != (#[trigger] n.children@[j]).id
    &&& forall|i: int| 0 <= i < n.children@.len() ==> distinct_children(#[trigger] n.children@[i])
}

/// Whether `cache` holds for `id` a path that still leads from `root` to that widget.
pub open spec fn cache_hit(root: WidgetNode, id: WidgetId, cache: Map<u64, Vec<WidgetId>>) -> bool {
    cache.contains_key(id.0) && resolves(root, cache[id.0]@, id)
}

/// A path found by the depth-first search starts at the widget it searched from.
proof fn lemma_dfs_path_head(n: WidgetNode, id: WidgetId)
    ensures
        dfs_path(n, id) matches Some(p) ==> p.len() > 0 && p[0] == n.id,
{
}

/// A path found below the widgets `c` from `k` on is found below one of them.
proof fn lemma_dfs_among_source(c: Seq<WidgetNode>, id: WidgetId, k: int)
    requires
        dfs_among(c, id, k) is Some,
    ensures
        exists|j: int| k <= j < c.len() && #[trigger] dfs_path(c[j], id) == dfs_among(c, id, k) && forall|m: int|
            k <= m < j ==> dfs_path(#[trigger] c[m], id) is None,
    decreases c.len() - k,
{
    if dfs_path(c[k], id) is None {
        lemma_dfs_among_source(c, id, k + 1);
        let j = choose|j: int| k + 1 <= j < c.len() && #[trigger] dfs_path(c[j], id) == dfs_among(c, id, k + 1) && forall|m: int|
            k + 1 <= m < j ==> dfs_path(#[trigger] c[m], id) is None;
        assert(k <= j < c.len() && dfs_path(c[j], id) == dfs_among(c, id, k) && forall|m: int|
            k <= m < j ==> dfs_path(#[trigger] c[m], id) is None);
    } else {
        assert(dfs_path(c[k], id) == dfs_among(c, id, k));
    }
}

/// In a tree whose widgets' children have distinct identifiers, the path the depth-first
/// search finds leads back to the widget it found.
pub proof fn lemma_dfs_path_resolves(n: WidgetNode, id: WidgetId)
    requires
        distinct_children(n),
        dfs_path(n, id) is Some,
    ensures
        resolves(n, dfs_path(n, id).unwrap(), id),
    decreases n,
{
    let p = dfs_path(n, id).unwrap();
    if n.id == id {
        assert(p.drop_first() =~= Seq::<WidgetId>::empty());
    } else {
        let c = n.children@;
        lemma_dfs_among_source(c, id, 0);
        let j = choose|j: int| 0 <= j < c.len() && #[trigger] dfs_path(c[j], id) == dfs_among(c, id, 0) && forall|m: int|
            0 <= m < j ==> dfs_path(#[trigger] c[m], id) is None;
        let q = dfs_path(c[j], id).unwrap();
        lemma_dfs_path_head(c[j], id);
        assert(p.drop_first() =~= q);
        lemma_child_index(c, c[j].id, 0);
        let i = child_index(c, c[j].id, 0);
        assert(i == j) by {
            if i < j {
                assert(c[i].id == c[j].id);
            }
        }
        assert(decreases_to!(n => n.children));
        assert(decreases_to!(n.children => c));
        assert(decreases_to!(c => c[j]));
        lemma_dfs_path_resolves(c[j], id);
        assert(q.drop_first() =~= p.drop_first().drop_first());
    }
}

/// Returns a copy of `ids`.
fn copy_ids(ids: &Vec<WidgetId>) -> (r: Vec<WidgetId>)
    ensures
        r@ == ids@,
{
    let mut out: Vec<WidgetId> = Vec::new();
    let mut i: usize = 0;
    while i < ids.len()
        invariant
            0 <= i <= ids@.len(),
            out@ == ids@.take(i as int),
        decreases ids@.len() - i,
    {
        out.push(ids[i]);
        i += 1;
        proof {
            assert(out@ =~= ids@.take(i as int));
        }
    }
    proof {
        assert(ids@.take(ids@.len() as int) =~= ids@);
    }
    out
}

/// Returns the path from `root` to the widget with identifier `id`: the one `cache` holds for
/// it while that still leads to the widget, otherwise the one a depth-first search finds,
/// which the cache then keeps in place of the stale one (dropped when the search finds none).
pub fn resolve_cached_path(root: &WidgetNode, id: WidgetId, cache: &mut HashMap<u64, Vec<WidgetId>>) -> (r: Option<WidgetPath>)
    ensures
        cache_hit(*root, id, old(cache)@) ==> (r matches Some(p) && p@ == old(cache)@[id.0]@)
            && final(cache)@ == old(cache)@,
        !cache_hit(*root, id, old(cache)@) ==> match dfs_path(*root, id) {
            Some(found) => {
                &&& (r matches Some(p) && p@ == found)
                &&& final(cache)@.dom() == old(cache)@.dom().insert(id.0)
                &&& final(cache)@[id.0]@ == found
                &&& forall|k: u64| k != id.0 && #[trigger] old(cache)@.contains_key(k) ==> final(cache)@[k] == old(cache)@[k]
            },
            None => r is None && final(cache)@ == old(cache)@.remove(id.0),
        },
        distinct_children(*root) ==> (r matches Some(p) ==> resolves(*root, p@, id)),
{
    broadcast use vstd::std_specs::hash::group_hash_axioms;
    let cached = match cache.get(&id.0) {
        Some(ids) => Some(copy_ids(ids)),
        None => None,
    };
    if let Some(ids) = cached {
        let hit = match root.walk_path(ids.as_slice()) {
            Some(w) => w.id == id,
            None => false,
        };
        if hit {
            return Some(WidgetPath::from_ids(ids));
        }
        cache.remove(&id.0);
    } else {
        proof {
            assert(old(cache)@.remove(id.0) =~= old(cache)@);
        }
    }
    let mut ids: Vec<WidgetId> = Vec::new();
    if root.find_dfs_path(id, &mut ids) {
        proof {
            assert(ids@ =~= dfs_path(*root, id).unwrap());
            if distinct_children(*root) {
                lemma_dfs_path_resolves(*root, id);
            }
        }
        let kept = copy_ids(&ids);
        cache.insert(id.0, kept);
        Some(WidgetPath::from_ids(ids))
    } else {
        None
    }
}

proof fn lemma_prefix_reach_bound(n: WidgetNode, rest: Seq<WidgetId>)
    ensures
        prefix_reach(n, rest) <= rest.len(),
    decreases rest.len(),
{
    if rest.len() > 0 {
        let i = child_index(n.children@, rest[0], 0);
        if 0 <= i < n.children@.len() {
            lemma_prefix_reach_bound(n.children@[i], rest.drop_first());
        }
    }
}

/// Returns `s` without its first `k` entries.
fn slice_from(s: &[WidgetId], k: usize) -> (r: &[WidgetId])
    requires
        k <= s@.len(),
    ensures
        r@ == s@.skip(k as int),
{
    let (_, tail) = s.split_at(k);
    proof {
        assert(tail@ =~= s@.skip(k as int));
    }
    tail
}

impl WidgetPath {
    /// Returns the widget this path leads to from `root`.
    pub fn get<'a>(&self, root: &'a WidgetNode) -> (r: Option<&'a WidgetNode>)
        ensures
            match walked(*root, self@) {
                Some(w) => r matches Some(c) && *c == w,
                None => r is None,
            },
    {
        root.walk_path(self.as_slice())
    }

    /// Returns the identifiers of the widgets on this path from `root` whose depth lies in
    /// `start..end`, root first.
    pub fn members(&self, root: &WidgetNode, start: usize, end: usize) -> (r: Vec<WidgetId>)
        ensures
            r@ == visited(*root, self@, 0, start as int, end as int),
    {
        root.path_members(self.as_slice(), 0, start, end)
    }

    /// Returns the parent-child edges of this path from `root`, root first.
    pub fn edges(&self, root: &WidgetNode) -> (r: Vec<(WidgetId, WidgetId)>)
        ensures
            r@ == edges(*root, self@, 0),
    {
        root.path_edges(self.as_slice(), 0)
    }

    /// Returns the widgets on this path from `root` that receive an event sent down it, in
    /// the order they receive it: deepest first.
    pub fn emission(&self, root: &WidgetNode) -> (r: Vec<WidgetId>)
        ensures
            r@ == emission(*root, self@, 0),
    {
        root.emission_order(self.as_slice(), 0)
    }
}

} // verus!
