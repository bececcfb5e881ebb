//! A segment trie mapping path patterns to handlers.
//!
//! Nodes live in an arena: node 0 is the root, `on[n]` is the handler of node
//! `n`, `any[n]` its wildcard child, and `edges` lists the literal children as
//! `(parent, segment, child)` triples.
use vstd::prelude::*;

use crate::text::{chars_of, split_on, split_str, trim_of, trim_str};

verus! {

/// Removes every leading `c`.
pub open spec fn strip_front(s: Seq<char>, c: char) -> Seq<char>
    decreases s.len(),
{
    if s.len() > 0 && s[0] == c {
        strip_front(s.drop_first(), c)
    } else {
        s
    }
}

/// Removes every trailing `c`.
pub open spec fn strip_back(s: Seq<char>, c: char) -> Seq<char>
    decreases s.len(),
{
    if s.len() > 0 && s.last() == c {
        strip_back(s.drop_last(), c)
    } else {
        s
    }
}

/// The segments of a path or pattern: whitespace trimmed, then leading and
/// trailing slashes removed, then split on every slash.
pub open spec fn segments(path: Seq<char>) -> Seq<Seq<char>> {
    split_on(strip_back(strip_front(trim_of(path), '/'), '/'), '/')
}

/// Stripping never lengthens a string.
pub proof fn lemma_strip_len(s: Seq<char>, c: char)
    ensures
        strip_front(s, c).len() <= s.len(),
        strip_back(s, c).len() <= s.len(),
    decreases s.len(),
{
    if s.len() > 0 {
        lemma_strip_len(s.drop_first(), c);
        lemma_strip_len(s.drop_last(), c);
    }
}

/// A path has at most one segment more than it has characters.
pub proof fn lemma_segments_len(path: Seq<char>)
    ensures
        1 <= segments(path).len() <= path.len() + 1,
{
    let t = trim_of(path);
    crate::text::lemma_trim_len(path);
    lemma_strip_len(t, '/');
    lemma_strip_len(strip_front(t, '/'), '/');
    crate::text::lemma_split_on_len(strip_back(strip_front(t, '/'), '/'), '/');
    crate::text::lemma_split_on_nonempty(strip_back(strip_front(t, '/'), '/'), '/');
}

/// The pattern segment that matches any single path segment.
pub open spec fn wildcard() -> Seq<char> {
    seq!['*']
}

/// No segment is the wildcard token.
pub open spec fn is_literal(segs: Seq<Seq<char>>) -> bool {
    forall|i: int| 0 <= i < segs.len() ==> segs[i] != wildcard()
}

/// The child of `n` under literal `seg` in an edge list (the latest entry wins).
pub open spec fn edge_child(edges: Seq<(usize, String, usize)>, n: int, seg: Seq<char>) -> Option<
    int,
>
    decreases edges.len(),
{
    if edges.len() == 0 {
        None
    } else if edges.last().0 == n && edges.last().1@ == seg {
        Some(edges.last().2 as int)
    } else {
        edge_child(edges.drop_last(), n, seg)
    }
}

/// An edge list with no child of `n` under `seg` has no such edge at all.
pub proof fn lemma_edge_child_none(edges: Seq<(usize, String, usize)>, n: int, seg: Seq<char>)
    requires
        edge_child(edges, n, seg) is None,
    ensures
        forall|k: int| 0 <= k < edges.len() ==> !(edges[k].0 == n && edges[k].1@ == seg),
    decreases edges.len(),
{
    if edges.len() > 0 {
        lemma_edge_child_none(edges.drop_last(), n, seg);
        assert forall|k: int| 0 <= k < edges.len() implies !(edges[k].0 == n && edges[k].1@
            == seg) by {
            if k < edges.len() - 1 {
                assert(edges[k] == edges.drop_last()[k]);
            }
        }
    }
}

/// A child found in a well-ordered edge list comes after its parent.
pub proof fn lemma_edge_child_bound(edges: Seq<(usize, String, usize)>, n: int, seg: Seq<char>, len: int)
    requires
        forall|k: int| 0 <= k < edges.len() ==> #[trigger] edges[k].0 < edges[k].2 < len,
        edge_child(edges, n, seg) is Some,
    ensures
        n < edge_child(edges, n, seg)->0 < len,
    decreases edges.len(),
{
    if !(edges.last().0 == n && edges.last().1@ == seg) {
        lemma_edge_child_bound(edges.drop_last(), n, seg, len);
    }
}

/// With no edge from `n` under `seg` there is no such child.
pub proof fn lemma_edge_child_absent(edges: Seq<(usize, String, usize)>, n: int, seg: Seq<char>)
    requires
        forall|k: int| 0 <= k < edges.len() ==> !(#[trigger] edges[k].0 == n && edges[k].1@ == seg),
    ensures
        edge_child(edges, n, seg) is None,
    decreases edges.len(),
{
    if edges.len() > 0 {
        assert(!(edges[edges.len() - 1].0 == n && edges[edges.len() - 1].1@ == seg));
        assert forall|k: int| 0 <= k < edges.drop_last().len() implies !(
        #[trigger] edges.drop_last()[k].0 == n && edges.drop_last()[k].1@ == seg) by {
            assert(edges.drop_last()[k] == edges[k]);
        }
        lemma_edge_child_absent(edges.drop_last(), n, seg);
    }
}

/// The prefixes of `segs` of length at most `i`.
pub open spec fn prefix_set(segs: Seq<Seq<char>>, i: int) -> Set<Seq<Seq<char>>> {
    Set::new(|q: Seq<Seq<char>>| exists|j: int| 0 <= j <= i && q == segs.take(j))
}

/// All prefixes of `segs`, `segs` itself and the empty path included.
pub open spec fn prefixes(segs: Seq<Seq<char>>) -> Set<Seq<Seq<char>>> {
    prefix_set(segs, segs.len() as int)
}

/// The descent of routing over a set of tree paths, from segment `i` at path
/// `p`, with `catch` the deepest wildcard path met so far: at each step the
/// wildcard child (if present) becomes the fallback, then the descent takes
/// the child named by the segment, else the wildcard child, else stops. It
/// returns the final path and the fallback.
pub open spec fn walk_paths(
    paths: Set<Seq<Seq<char>>>,
    segs: Seq<Seq<char>>,
    i: int,
    p: Seq<Seq<char>>,
    catch: Option<Seq<Seq<char>>>,
) -> (Seq<Seq<char>>, Option<Seq<Seq<char>>>)
    decreases segs.len() - i,
{
    if i < 0 || i >= segs.len() {
        (p, catch)
    } else {
        let w = p.push(wildcard());
        let catch2 = if paths.contains(w) {
            Some(w)
        } else {
            catch
        };
        if paths.contains(p.push(segs[i])) {
            walk_paths(paths, segs, i + 1, p.push(segs[i]), catch2)
        } else if paths.contains(w) {
            walk_paths(paths, segs, i + 1, w, catch2)
        } else {
            (p, catch2)
        }
    }
}

/// The handler that routing finds for `path` in a tree with these paths and
/// handlers: the one of the path where the descent ends, else the one of the
/// deepest wildcard met on the way, else none.
pub open spec fn route_in<H>(
    paths: Set<Seq<Seq<char>>>,
    handlers: Map<Seq<Seq<char>>, H>,
    path: Seq<char>,
) -> Option<H> {
    let root_catch = if paths.contains(seq![wildcard()]) {
        Some(seq![wildcard()])
    } else {
        None
    };
    let (end, catch) = walk_paths(paths, segments(path), 0, Seq::empty(), root_catch);
    if handlers.contains_key(end) {
        Some(handlers[end])
    } else {
        match catch {
            Some(w) => if handlers.contains_key(w) {
                Some(handlers[w])
            } else {
                None
            },
            None => None,
        }
    }
}

pub struct Route<H> {
    on: Vec<Option<H>>,
    any: Vec<Option<usize>>,
    edges: Vec<(usize, String, usize)>,
}

impl<H> Route<H> {
    /// Number of nodes.
    pub closed spec fn len(&self) -> int {
        self.on@.len() as int
    }

    /// The literal child of node `n` under `seg`.
    pub closed spec fn child(&self, n: int, seg: Seq<char>) -> Option<int> {
        edge_child(self.edges@, n, seg)
    }

    /// The wildcard child of node `n`.
    pub closed spec fn wild(&self, n: int) -> Option<int> {
        match self.any@[n] {
            Some(c) => Some(c as int),
            None => None,
        }
    }

    /// The handler of node `n`.
    pub closed spec fn handler(&self, n: int) -> Option<H> {
        self.on@[n]
    }

    /// The arena's shape: a root exists, every child comes after its parent,
    /// no literal edge carries the wildcard token, and each node has at most
    /// one literal child per segment.
    pub closed spec fn shape_ok(&self) -> bool {
        &&& self.on@.len() >= 1
        &&& self.any@.len() == self.on@.len()
        &&& forall|n: int|
            0 <= n < self.len() ==> (#[trigger] self.any@[n] matches Some(c) ==> n < c < self.len())
        &&& forall|k: int|
            0 <= k < self.edges@.len() ==> #[trigger] self.edges@[k].0 < self.edges@[k].2
                < self.len() && self.edges@[k].1@ != wildcard()
        &&& forall|j: int, k: int|
            0 <= j < k < self.edges@.len() ==> !(#[trigger] self.edges@[j].0
                == #[trigger] self.edges@[k].0 && self.edges@[j].1@ == self.edges@[k].1@)
    }

    /// Distinct paths lead to distinct nodes.
    pub closed spec fn injective(&self) -> bool {
        forall|q1: Seq<Seq<char>>, q2: Seq<Seq<char>>|
            #[trigger] self.reach(q1) is Some && self.reach(q1) == #[trigger] self.reach(q2) ==> q1
                == q2
    }

    /// Well-formed: a sound arena in which each node stands for one path.
    pub closed spec fn wf(&self) -> bool {
        self.shape_ok() && self.injective()
    }

    /// One registration step from node `n`: a wildcard segment follows the
    /// wildcard child, any other segment the literal child.
    pub open spec fn step(&self, n: int, seg: Seq<char>) -> Option<int> {
        if seg == wildcard() {
            self.wild(n)
        } else {
            self.child(n, seg)
        }
    }

    /// The node that a pattern's segments lead to from the root, if every
    /// step exists.
    pub open spec fn reach(&self, segs: Seq<Seq<char>>) -> Option<int>
        decreases segs.len(),
    {
        if segs.len() == 0 {
            Some(0)
        } else {
            match self.reach(segs.drop_last()) {
                Some(n) => self.step(n, segs.last()),
                None => None,
            }
        }
    }

    /// The handler registered for exactly these pattern segments.
    pub open spec fn handler_at(&self, segs: Seq<Seq<char>>) -> Option<H> {
        match self.reach(segs) {
            Some(n) => self.handler(n),
            None => None,
        }
    }

    /// The descent of `route` from segment `i` at node `cur`, with `catch` the
    /// deepest wildcard node met so far: it returns the final node and the
    /// fallback. A literal child is preferred, then the wildcard child; with
    /// neither the descent stops.
    pub open spec fn walk(&self, segs: Seq<Seq<char>>, i: int, cur: int, catch: Option<int>) -> (
        int,
        Option<int>,
    )
        decreases segs.len() - i,
    {
        if i < 0 || i >= segs.len() {
            (cur, catch)
        } else {
            let catch2 = match self.wild(cur) {
                Some(w) => Some(w),
                None => catch,
            };
            match self.child(cur, segs[i]) {
                Some(c) => self.walk(segs, i + 1, c, catch2),
                None => match self.wild(cur) {
                    Some(w) => self.walk(segs, i + 1, w, catch2),
                    None => (cur, catch2),
                },
            }
        }
    }

    /// What the descent over the nodes gives for a path.
    pub closed spec fn node_route(&self, path: Seq<char>) -> Option<H> {
        let (end, catch) = self.walk(segments(path), 0, 0, self.wild(0));
        match self.handler(end) {
            Some(h) => Some(h),
            None => match catch {
                Some(w) => self.handler(w),
                None => None,
            },
        }
    }

    /// The segment paths that lead to a node from the root. The wildcard
    /// child of the node for `p` is the node for `p.push(wildcard())`.
    pub open spec fn paths(&self) -> Set<Seq<Seq<char>>> {
        Set::new(|q: Seq<Seq<char>>| self.reach(q) is Some)
    }

    /// The handler registered for each pattern (as segments) that has one.
    pub open spec fn handlers(&self) -> Map<Seq<Seq<char>>, H> {
        Map::new(
            |q: Seq<Seq<char>>| self.handler_at(q) is Some,
            |q: Seq<Seq<char>>| self.handler_at(q)->0,
        )
    }

    /// What `route` returns for a path, over the model.
    pub open spec fn spec_route(&self, path: Seq<char>) -> Option<H> {
        route_in(self.paths(), self.handlers(), path)
    }

    /// `next` keeps every node, wildcard child, literal child and handler of
    /// `self`, and its new nodes have no handler.
    pub closed spec fn extends(&self, next: &Self) -> bool {
        &&& next.len() >= self.len()
        &&& forall|n: int|
            0 <= n < self.len() && #[trigger] self.wild(n) is Some ==> next.wild(n) == self.wild(n)
        &&& forall|n: int, seg: Seq<char>|
            0 <= n < self.len() && #[trigger] self.child(n, seg) is Some ==> next.child(n, seg)
                == self.child(n, seg)
        &&& forall|n: int| 0 <= n < self.len() ==> #[trigger] next.handler(n) == self.handler(n)
        &&& forall|n: int| self.len() <= n < next.len() ==> #[trigger] next.handler(n) is None
    }

    /// A reached node is in the arena.
    proof fn lemma_reach_bound(&self, segs: Seq<Seq<char>>)
        requires
            self.shape_ok(),
            self.reach(segs) is Some,
        ensures
            0 <= self.reach(segs)->0 < self.len(),
        decreases segs.len(),
    {
        if segs.len() > 0 {
            self.lemma_reach_bound(segs.drop_last());
            let n = self.reach(segs.drop_last())->0;
            if segs.last() == wildcard() {
                assert(self.any@[n] matches Some(c) ==> n < c < self.len());
            } else {
                lemma_edge_child_bound(self.edges@, n, segs.last(), self.len());
            }
        }
    }

    /// Growing the tree keeps where each path led.
    proof fn lemma_reach_kept(&self, next: &Self, segs: Seq<Seq<char>>)
        requires
            self.wf(),
            self.extends(next),
            self.reach(segs) is Some,
        ensures
            next.reach(segs) == self.reach(segs),
        decreases segs.len(),
    {
        if segs.len() > 0 {
            self.lemma_reach_kept(next, segs.drop_last());
            self.lemma_reach_bound(segs.drop_last());
            let n = self.reach(segs.drop_last())->0;
            if segs.last() == wildcard() {
                assert(self.wild(n) is Some);
            } else {
                assert(self.child(n, segs.last()) is Some);
            }
        }
    }

    /// Growth composes.
    proof fn lemma_extends_trans(&self, mid: &Self, next: &Self)
        requires
            self.extends(mid),
            mid.extends(next),
        ensures
            self.extends(next),
    {
        assert forall|n: int, seg: Seq<char>|
            0 <= n < self.len() && #[trigger] self.child(n, seg) is Some implies next.child(n, seg)
            == self.child(n, seg) by {
            assert(mid.child(n, seg) is Some);
        }
        assert forall|n: int| 0 <= n < self.len() && #[trigger] self.wild(n) is Some implies next.wild(
            n,
        ) == self.wild(n) by {
            assert(mid.wild(n) is Some);
        }
        assert forall|n: int| self.len() <= n < next.len() implies #[trigger] next.handler(n) is None by {
            if n < mid.len() {
                assert(mid.handler(n) is None);
            }
        }
    }

    /// A tree extends itself.
    proof fn lemma_extends_refl(&self)
        ensures
            self.extends(self),
    {
    }

    /// A router with only a root and no handler.
    pub fn new() -> (r: Self)
        ensures
            r.wf(),
            r.paths() == Set::<Seq<Seq<char>>>::empty().insert(Seq::empty()),
            r.handlers() == Map::<Seq<Seq<char>>, H>::empty(),
            forall|path: Seq<char>| #[trigger] r.spec_route(path) is None,
            r.len() == 1,
    {
        let mut on: Vec<Option<H>> = Vec::new();
        on.push(None);
        let mut any: Vec<Option<usize>> = Vec::new();
        any.push(None);
        let r = Route { on, any, edges: Vec::new() };
        proof {
            assert(r.shape_ok());
            assert forall|q: Seq<Seq<char>>| #[trigger] r.reach(q) is Some implies q.len() == 0 by {
                if q.len() > 0 && r.reach(q.drop_last()) is Some {
                    r.lemma_reach_bound(q.drop_last());
                }
            }
            assert(r.reach(Seq::empty()) == Some(0int));
            assert forall|q1: Seq<Seq<char>>, q2: Seq<Seq<char>>|
                #[trigger] r.reach(q1) is Some && r.reach(q1) == #[trigger] r.reach(q2) implies q1
                == q2 by {
                assert(q1 =~= q2);
            }
            assert forall|q: Seq<Seq<char>>|
                r.paths().contains(q) == Set::<Seq<Seq<char>>>::empty().insert(
                    Seq::empty(),
                ).contains(q) by {
                if q.len() == 0 {
                    assert(q =~= Seq::<Seq<char>>::empty());
                }
            }
            assert(r.paths() =~= Set::<Seq<Seq<char>>>::empty().insert(Seq::empty()));
            assert(r.handlers() =~= Map::<Seq<Seq<char>>, H>::empty());
        }
        r
    }

    /// The descent over nodes follows the descent over paths.
    proof fn lemma_walk_model(
        &self,
        segs: Seq<Seq<char>>,
        i: int,
        p: Seq<Seq<char>>,
        n: int,
        cp: Option<Seq<Seq<char>>>,
        cn: Option<int>,
    )
        requires
            self.wf(),
            self.reach(p) == Some(n),
            match cp {
                Some(q) => self.reach(q) is Some && cn == self.reach(q),
                None => cn is None,
            },
        ensures
            self.reach(walk_paths(self.paths(), segs, i, p, cp).0) == Some(
                self.walk(segs, i, n, cn).0,
            ),
            match walk_paths(self.paths(), segs, i, p, cp).1 {
                Some(q) => self.reach(q) is Some && self.walk(segs, i, n, cn).1 == self.reach(q),
                None => self.walk(segs, i, n, cn).1 is None,
            },
        decreases segs.len() - i,
    {
        if 0 <= i < segs.len() {
            let w = p.push(wildcard());
            let l = p.push(segs[i]);
            assert(w.drop_last() =~= p);
            assert(l.drop_last() =~= p);
            assert(self.reach(w) == self.wild(n));
            assert(self.reach(l) == self.step(n, segs[i]));
            let catch_p = if self.paths().contains(w) {
                Some(w)
            } else {
                cp
            };
            let catch_n = match self.wild(n) {
                Some(x) => Some(x),
                None => cn,
            };
            if segs[i] == wildcard() {
                lemma_edge_child_absent(self.edges@, n, segs[i]);
            }
            if self.paths().contains(l) {
                self.lemma_walk_model(segs, i + 1, l, self.reach(l)->0, catch_p, catch_n);
            } else if self.paths().contains(w) {
                self.lemma_walk_model(segs, i + 1, w, self.reach(w)->0, catch_p, catch_n);
            }
        }
    }

    /// Routing over the model agrees with the descent over nodes.
    proof fn lemma_route_model(&self, path: Seq<char>)
        requires
            self.wf(),
        ensures
            self.spec_route(path) == self.node_route(path),
    {
        let root = seq![wildcard()];
        let e = Seq::<Seq<char>>::empty();
        assert(root.drop_last() =~= e);
        assert(self.reach(e) == Some(0int));
        assert(self.reach(root) == self.wild(0));
        let cp = if self.paths().contains(root) {
            Some(root)
        } else {
            None
        };
        self.lemma_walk_model(segments(path), 0, e, 0, cp, self.wild(0));
    }

    /// Whether a segment is the wildcard token.
    fn is_wildcard(seg: &String) -> (r: bool)
        ensures
            r == (seg@ == wildcard()),
    {
        let s = seg.as_str();
        if s.unicode_len() == 1 && s.get_char(0) == '*' {
            assert(s@ =~= wildcard());
            true
        } else {
            false
        }
    }

    /// The segments of `path`, as `route` and `add` see them.
    pub fn segment_vec(path: &str) -> (r: Vec<String>)
        ensures
            r@.map_values(|p: String| p@) == segments(path@),
            r@.len() >= 1,
    {
        let t = trim_str(path);
        let cs = chars_of(t);
        let n = cs.len();
        let mut i: usize = 0;
        assert(t@.subrange(0, n as int) =~= t@);
        while i < n && cs[i] == '/'
            invariant
                cs@ == t@,
                n == t@.len(),
                i <= n,
                strip_front(t@.subrange(i as int, n as int), '/') == strip_front(t@, '/'),
            decreases n - i,
        {
            assert(t@.subrange(i as int, n as int).drop_first() =~= t@.subrange(
                i as int + 1,
                n as int,
            ));
            i = i + 1;
        }
        assert(strip_front(t@, '/') == t@.subrange(i as int, n as int));
        let mut j: usize = n;
        while j > i && cs[j - 1] == '/'
            invariant
                cs@ == t@,
                n == t@.len(),
                i <= j <= n,
                strip_back(t@.subrange(i as int, j as int), '/') == strip_back(
                    t@.subrange(i as int, n as int),
                    '/',
                ),
            decreases j - i,
        {
            assert(t@.subrange(i as int, j as int).drop_last() =~= t@.subrange(
                i as int,
                j as int - 1,
            ));
            j = j - 1;
        }
        let inner = t.substring_char(i, j);
        assert(strip_back(t@.subrange(i as int, n as int), '/') == inner@);
        let r = split_str(inner, '/');
        proof {
            crate::text::lemma_split_on_nonempty(inner@, '/');
            assert(r@.len() == r@.map_values(|p: String| p@).len());
        }
        r
    }

    /// The literal child of node `n` under `seg`.
    fn find_child(&self, n: usize, seg: &String) -> (r: Option<usize>)
        ensures
            match r {
                Some(c) => self.child(n as int, seg@) == Some(c as int),
                None => self.child(n as int, seg@) is None,
            },
    {
        let mut k: usize = self.edges.len();
        assert(self.edges@.subrange(0, k as int) =~= self.edges@);
        while k > 0
            invariant
                k <= self.edges@.len(),
                edge_child(self.edges@.subrange(0, k as int), n as int, seg@) == self.child(
                    n as int,
                    seg@,
                ),
            decreases k,
        {
            let e = &self.edges[k - 1];
            assert(self.edges@.subrange(0, k as int).drop_last() =~= self.edges@.subrange(
                0,
                k as int - 1,
            ));
            if e.0 == n && e.1 == *seg {
                return Some(e.2);
            }
            k = k - 1;
        }
        None
    }

    /// Appends a node without handler or children and returns its index.
    fn push_node(&mut self) -> (c: usize)
        requires
            old(self).shape_ok(),
        ensures
            c == old(self).len(),
            final(self).len() == old(self).len() + 1,
            final(self).on@ == old(self).on@.push(None),
            final(self).any@ == old(self).any@.push(None),
            final(self).edges@ == old(self).edges@,
            final(self).shape_ok(),
            old(self).extends(final(self)),
    {
        let c = self.on.len();
        self.on.push(None);
        self.any.push(None);
        proof {
            let o = *old(self);
            assert forall|m: int, seg: Seq<char>|
                0 <= m < o.len() && #[trigger] o.child(m, seg) is Some implies self.child(m, seg)
                == o.child(m, seg) by {}
            assert forall|m: int| 0 <= m < self.len() implies (#[trigger] self.any@[m] matches Some(
                d,
            ) ==> m < d < self.len()) by {
                if m < o.len() {
                    assert(o.any@[m] matches Some(d) ==> m < d < o.len());
                }
            }
        }
        c
    }

    /// Adding child `c` (a new node) of the node for `p` under `s` adds the
    /// path `p.push(s)` and changes no other.
    proof fn lemma_add_child(
        &self,
        new: &Self,
        p: Seq<Seq<char>>,
        s: Seq<char>,
        n: int,
        c: int,
        q: Seq<Seq<char>>,
    )
        requires
            self.wf(),
            self.reach(p) == Some(n),
            self.step(n, s) is None,
            c == self.len(),
            forall|m: int, t: Seq<char>|
                0 <= m < self.len() && !(m == n && t == s) ==> #[trigger] new.step(m, t)
                    == self.step(m, t),
            new.step(n, s) == Some(c),
            forall|t: Seq<char>| #[trigger] new.step(c, t) is None,
        ensures
            new.reach(q) == if q == p.push(s) {
                Some(c)
            } else {
                self.reach(q)
            },
        decreases q.len(),
    {
        if q.len() > 0 {
            let q0 = q.drop_last();
            let t = q.last();
            self.lemma_add_child(new, p, s, n, c, q0);
            assert(p.push(s).drop_last() =~= p);
            if q == p.push(s) {
                assert(q0 =~= p);
            }
            if q0 == p.push(s) {
                assert(self.reach(q0) == self.step(n, s));
            } else {
                match self.reach(q0) {
                    Some(m) => {
                        self.lemma_reach_bound(q0);
                        if m == n && t == s {
                            assert(q0 == p);
                            assert(q =~= p.push(s));
                        }
                    },
                    None => {},
                }
            }
        }
    }

    /// The wildcard child of the node for `p`, created if missing.
    fn any_route(&mut self, n: usize, Ghost(p): Ghost<Seq<Seq<char>>>) -> (c: usize)
        requires
            old(self).wf(),
            old(self).reach(p) == Some(n as int),
        ensures
            final(self).wf(),
            old(self).extends(final(self)),
            c < final(self).len() <= old(self).len() + 1,
            forall|q: Seq<Seq<char>>|
                #[trigger] final(self).reach(q) == if q == p.push(wildcard()) {
                    Some(c as int)
                } else {
                    old(self).reach(q)
                },
            old(self).reach(p.push(wildcard())) is None ==> c == old(self).len(),
    {
        let ghost o = *self;
        let ghost w = wildcard();
        proof {
            assert(p.push(w).drop_last() =~= p);
            o.lemma_reach_bound(p);
        }
        match self.any[n] {
            Some(c) => {
                proof {
                    self.lemma_extends_refl();
                    assert(self.any@[n as int] matches Some(d) ==> n < d < self.len());
                    assert forall|q: Seq<Seq<char>>|
                        #[trigger] self.reach(q) == if q == p.push(w) {
                            Some(c as int)
                        } else {
                            o.reach(q)
                        } by {
                        if q == p.push(w) {
                            assert(q.drop_last() =~= p);
                        }
                    }
                }
                c
            },
            None => {
                let c = self.push_node();
                let ghost mid = *self;
                self.any.set(n, Some(c));
                proof {
                    assert forall|m: int|
                        0 <= m < mid.len() && #[trigger] mid.wild(m) is Some implies self.wild(m)
                        == mid.wild(m) by {}
                    assert forall|m: int, seg: Seq<char>|
                        0 <= m < mid.len() && #[trigger] mid.child(m, seg) is Some implies self.child(
                            m,
                            seg,
                        ) == mid.child(m, seg) by {}
                    assert(mid.extends(self));
                    o.lemma_extends_trans(&mid, self);
                    assert forall|m: int| 0 <= m < self.len() implies (#[trigger] self.any@[m] matches Some(
                        d,
                    ) ==> m < d < self.len()) by {
                        if m != n {
                            assert(mid.any@[m] matches Some(d) ==> m < d < mid.len());
                        }
                    }
                    assert(self.shape_ok());
                    assert forall|m: int, t: Seq<char>|
                        0 <= m < o.len() && !(m == n && t == w) implies #[trigger] self.step(m, t)
                        == o.step(m, t) by {}
                    assert(self.step(n as int, w) == Some(c as int));
                    assert forall|t: Seq<char>| #[trigger] self.step(c as int, t) is None by {
                        if t != w {
                            assert forall|k: int| 0 <= k < self.edges@.len() implies !(
                            #[trigger] self.edges@[k].0 == c && self.edges@[k].1@ == t) by {
                                assert(o.edges@[k].0 < o.edges@[k].2 < o.len());
                            }
                            lemma_edge_child_absent(self.edges@, c as int, t);
                        }
                    }
                    assert forall|q: Seq<Seq<char>>|
                        #[trigger] self.reach(q) == if q == p.push(w) {
                            Some(c as int)
                        } else {
                            o.reach(q)
                        } by {
                        o.lemma_add_child(self, p, w, n as int, c as int, q);
                    }
                    assert forall|q1: Seq<Seq<char>>, q2: Seq<Seq<char>>|
                        #[trigger] self.reach(q1) is Some && self.reach(q1) == #[trigger] self.reach(
                            q2,
                        ) implies q1 == q2 by {
                        if o.reach(q1) is Some {
                            o.lemma_reach_bound(q1);
                        }
                        if o.reach(q2) is Some {
                            o.lemma_reach_bound(q2);
                        }
                    }
                }
                c
            },
        }
    }

    /// The literal child under `seg` of the node for `p`, created if missing.
    fn distinct_route(&mut self, n: usize, seg: &String, Ghost(p): Ghost<Seq<Seq<char>>>) -> (c:
        usize)
        requires
            old(self).wf(),
            old(self).reach(p) == Some(n as int),
            seg@ != wildcard(),
        ensures
            final(self).wf(),
            old(self).extends(final(self)),
            c < final(self).len() <= old(self).len() + 1,
            forall|q: Seq<Seq<char>>|
                #[trigger] final(self).reach(q) == if q == p.push(seg@) {
                    Some(c as int)
                } else {
                    old(self).reach(q)
                },
            old(self).reach(p.push(seg@)) is None ==> c == old(self).len(),
    {
        let ghost o = *self;
        let ghost s = seg@;
        let ghost w = wildcard();
        proof {
            assert(p.push(s).drop_last() =~= p);
            o.lemma_reach_bound(p);
        }
        match self.find_child(n, seg) {
            Some(c) => {
                proof {
                    self.lemma_extends_refl();
                    lemma_edge_child_bound(self.edges@, n as int, seg@, self.len());
                    assert forall|q: Seq<Seq<char>>|
                        #[trigger] self.reach(q) == if q == p.push(s) {
                            Some(c as int)
                        } else {
                            o.reach(q)
                        } by {
                        if q == p.push(s) {
                            assert(q.drop_last() =~= p);
                        }
                    }
                }
                c
            },
            None => {
                proof {
                    lemma_edge_child_none(o.edges@, n as int, seg@);
                }
                let c = self.push_node();
                let ghost mid = *self;
                let key = seg.clone();
                self.edges.push((n, key, c));
                proof {
                    assert(self.edges@.drop_last() =~= mid.edges@);
                    assert forall|m: int, t: Seq<char>|
                        0 <= m < mid.len() && #[trigger] mid.child(m, t) is Some implies self.child(
                            m,
                            t,
                        ) == mid.child(m, t) by {
                        if m == n && t == seg@ {
                            assert(o.child(m, t) == mid.child(m, t));
                        }
                    }
                    assert(mid.extends(self));
                    o.lemma_extends_trans(&mid, self);
                    assert forall|j: int, k: int|
                        0 <= j < k < self.edges@.len() implies !(#[trigger] self.edges@[j].0
                        == #[trigger] self.edges@[k].0 && self.edges@[j].1@ == self.edges@[k].1@) by {
                        if k == self.edges@.len() - 1 {
                            assert(o.edges@[j] == self.edges@[j]);
                        } else {
                            assert(mid.edges@[j] == self.edges@[j]);
                            assert(mid.edges@[k] == self.edges@[k]);
                        }
                    }
                    assert forall|k: int| 0 <= k < self.edges@.len() implies #[trigger] self.edges@[k].0
                        < self.edges@[k].2 < self.len() && self.edges@[k].1@ != wildcard() by {
                        if k < self.edges@.len() - 1 {
                            assert(mid.edges@[k] == self.edges@[k]);
                        }
                    }
                    assert(self.shape_ok());
                    assert forall|m: int, t: Seq<char>|
                        0 <= m < o.len() && !(m == n && t == s) implies #[trigger] self.step(m, t)
                        == o.step(m, t) by {}
                    assert(self.step(n as int, s) == Some(c as int));
                    assert forall|t: Seq<char>| #[trigger] self.step(c as int, t) is None by {
                        if t != w {
                            assert forall|k: int| 0 <= k < o.edges@.len() implies !(
                            #[trigger] o.edges@[k].0 == c && o.edges@[k].1@ == t) by {
                                assert(o.edges@[k].0 < o.edges@[k].2 < o.len());
                            }
                            lemma_edge_child_absent(o.edges@, c as int, t);
                        }
                    }
                    assert forall|q: Seq<Seq<char>>|
                        #[trigger] self.reach(q) == if q == p.push(s) {
                            Some(c as int)
                        } else {
                            o.reach(q)
                        } by {
                        o.lemma_add_child(self, p, s, n as int, c as int, q);
                    }
                    assert forall|q1: Seq<Seq<char>>, q2: Seq<Seq<char>>|
                        #[trigger] self.reach(q1) is Some && self.reach(q1) == #[trigger] self.reach(
                            q2,
                        ) implies q1 == q2 by {
                        if o.reach(q1) is Some {
                            o.lemma_reach_bound(q1);
                        }
                        if o.reach(q2) is Some {
                            o.lemma_reach_bound(q2);
                        }
                    }
                }
                c
            },
        }
    }

    /// Reaching depends on the children only, not on the handlers.
    proof fn lemma_reach_same_shape(&self, other: &Self, segs: Seq<Seq<char>>)
        requires
            self.any@ == other.any@,
            self.edges@ == other.edges@,
        ensures
            self.reach(segs) == other.reach(segs),
        decreases segs.len(),
    {
        if segs.len() > 0 {
            self.lemma_reach_same_shape(other, segs.drop_last());
        }
    }

    /// Every prefix of a reachable path is reachable.
    proof fn lemma_reach_prefix(&self, segs: Seq<Seq<char>>, k: int)
        requires
            0 <= k <= segs.len(),
            self.reach(segs) is Some,
        ensures
            self.reach(segs.take(k)) is Some,
        decreases segs.len(),
    {
        if k == segs.len() {
            assert(segs.take(k) =~= segs);
        } else {
            assert(segs.drop_last().take(k) =~= segs.take(k));
            self.lemma_reach_prefix(segs.drop_last(), k);
        }
    }

    /// On a reachable literal path the descent follows the path exactly.
    proof fn lemma_walk_literal(&self, segs: Seq<Seq<char>>, i: int, x: int, catch: Option<int>)
        requires
            self.wf(),
            is_literal(segs),
            0 <= i <= segs.len(),
            self.reach(segs) is Some,
            self.reach(segs.take(i)) == Some(x),
        ensures
            self.walk(segs, i, x, catch).0 == self.reach(segs)->0,
        decreases segs.len() - i,
    {
        if i == segs.len() {
            assert(segs.take(i) =~= segs);
        } else {
            self.lemma_reach_prefix(segs, i + 1);
            assert(segs.take(i + 1).drop_last() =~= segs.take(i));
            assert(segs[i] != wildcard());
            let y = self.child(x, segs[i])->0;
            let catch2 = match self.wild(x) {
                Some(w) => Some(w),
                None => catch,
            };
            self.lemma_walk_literal(segs, i + 1, y, catch2);
        }
    }

    /// Registers `handler` for `pattern`. Segments equal to `*` follow (and
    /// create) wildcard children, the others literal children. The tree gains
    /// exactly the pattern's prefixes as paths, and the pattern's handler is
    /// set, replacing an earlier one; nothing else changes.
    pub fn add(&mut self, pattern: &str, handler: H)
        requires
            old(self).wf(),
        ensures
            final(self).wf(),
            final(self).paths() == old(self).paths().union(prefixes(segments(pattern@))),
            final(self).handlers() == old(self).handlers().insert(segments(pattern@), handler),
            old(self).len() <= final(self).len() <= old(self).len() + segments(pattern@).len(),
            final(self).len() <= old(self).len() + pattern@.len() + 1,
    {
        proof {
            lemma_segments_len(pattern@);
        }
        let parts = Self::segment_vec(pattern);
        let ghost ss = segments(pattern@);
        let ghost o = *self;
        proof {
            o.lemma_extends_refl();
            assert(ss.take(0) =~= Seq::<Seq<char>>::empty());
            assert(o.reach(ss.take(0)) == Some(0int));
            assert forall|q: Seq<Seq<char>>| prefix_set(ss, 0).contains(q) implies o.paths().contains(
                q,
            ) by {
                let j = choose|j: int| 0 <= j <= 0 && q == ss.take(j);
            }
            assert(o.paths().union(prefix_set(ss, 0)) =~= o.paths());
            assert(o.handlers() =~= o.handlers());
        }
        let mut cur: usize = 0;
        let mut i: usize = 0;
        while i < parts.len()
            invariant
                o.wf(),
                self.wf(),
                o.extends(self),
                parts@.map_values(|p: String| p@) == ss,
                i <= parts@.len(),
                cur < self.len(),
                self.len() <= o.len() + i,
                self.reach(ss.take(i as int)) == Some(cur as int),
                self.paths() == o.paths().union(prefix_set(ss, i as int)),
                self.handlers() == o.handlers(),
            decreases parts@.len() - i,
        {
            let ghost before = *self;
            let ghost p = ss.take(i as int);
            let ghost pp = ss.take(i as int + 1);
            proof {
                assert(pp =~= p.push(ss[i as int]));
            }
            assert(parts@[i as int]@ == ss[i as int]);
            if Self::is_wildcard(&parts[i]) {
                cur = self.any_route(cur, Ghost(p));
            } else {
                cur = self.distinct_route(cur, &parts[i], Ghost(p));
            }
            proof {
                o.lemma_extends_trans(&before, self);
                assert(self.reach(pp) == Some(cur as int));
                assert(self.paths() =~= before.paths().insert(pp));
                assert forall|q: Seq<Seq<char>>|
                    prefix_set(ss, i as int + 1).contains(q) implies prefix_set(
                    ss,
                    i as int,
                ).insert(pp).contains(q) by {
                    let j = choose|j: int| 0 <= j <= i as int + 1 && q == ss.take(j);
                    if j <= i {
                        assert(prefix_set(ss, i as int).contains(q));
                    }
                }
                assert forall|q: Seq<Seq<char>>|
                    prefix_set(ss, i as int).insert(pp).contains(q) implies prefix_set(
                    ss,
                    i as int + 1,
                ).contains(q) by {
                    if q != pp {
                        let j = choose|j: int| 0 <= j <= i as int && q == ss.take(j);
                        assert(0 <= j <= i as int + 1 && q == ss.take(j));
                    } else {
                        assert(q == ss.take(i as int + 1));
                    }
                }
                assert(prefix_set(ss, i as int + 1) =~= prefix_set(ss, i as int).insert(pp));
                assert(self.paths() =~= o.paths().union(prefix_set(ss, i as int + 1)));
                assert forall|q: Seq<Seq<char>>| #[trigger]
                    self.handler_at(q) == before.handler_at(q) by {
                    if before.reach(q) is Some {
                        before.lemma_reach_kept(self, q);
                        before.lemma_reach_bound(q);
                        let m = before.reach(q)->0;
                        assert(self.handler(m) == before.handler(m));
                    } else if q == pp {
                        assert(before.reach(p.push(ss[i as int])) is None);
                        assert(cur as int == before.len());
                        assert(self.handler(cur as int) is None);
                    }
                }
                assert(self.handlers() =~= before.handlers());
            }
            i = i + 1;
        }
        proof {
            assert(ss.take(i as int) =~= ss);
        }
        let ghost mid = *self;
        self.on.set(cur, Some(handler));
        proof {
            assert forall|q: Seq<Seq<char>>| #[trigger] self.reach(q) == mid.reach(q) by {
                mid.lemma_reach_same_shape(self, q);
            }
            assert forall|m: int| 0 <= m < self.len() implies (#[trigger] self.any@[m] matches Some(
                d,
            ) ==> m < d < self.len()) by {
                assert(mid.any@[m] matches Some(d) ==> m < d < mid.len());
            }
            assert(self.shape_ok());
            assert(self.injective());
            assert(self.paths() =~= mid.paths());
            assert forall|q: Seq<Seq<char>>| #[trigger]
                self.handler_at(q) == if q == ss {
                    Some(handler)
                } else {
                    mid.handler_at(q)
                } by {
                assert(self.reach(ss) == Some(cur as int));
                if q != ss && mid.reach(q) is Some {
                    assert(mid.reach(q) != mid.reach(ss));
                    let m = mid.reach(q)->0;
                    mid.lemma_reach_bound(q);
                    assert(self.handler(m) == mid.handler(m));
                }
            }
            assert(self.handlers() =~= o.handlers().insert(ss, handler));
        }
    }

    /// The handler for `path`: the one on the node where the descent ends,
    /// else the one on the deepest wildcard node met on the way, else none.
    pub fn route(&self, path: &str) -> (r: Option<&H>)
        requires
            self.wf(),
        ensures
            match r {
                Some(h) => self.spec_route(path@) == Some(*h),
                None => self.spec_route(path@) is None,
            },
    {
        let parts = Self::segment_vec(path);
        proof {
            self.lemma_route_model(path@);
        }
        let ghost ss = segments(path@);
        let ghost goal = self.walk(ss, 0, 0, self.wild(0));
        let mut cur: usize = 0;
        let mut catch: Option<usize> = self.any[0];
        let mut done = false;
        let mut i: usize = 0;
        while i < parts.len() && !done
            invariant
                self.wf(),
                parts@.map_values(|p: String| p@) == ss,
                i <= parts@.len(),
                cur < self.len(),
                catch matches Some(w) ==> w < self.len(),
                goal == if done {
                    (cur as int, opt_int(catch))
                } else {
                    self.walk(ss, i as int, cur as int, opt_int(catch))
                },
            decreases parts@.len() - i,
        {
            assert(parts@[i as int]@ == ss[i as int]);
            assert(self.any@[cur as int] matches Some(c) ==> cur < c < self.len());
            if let Some(w) = self.any[cur] {
                catch = Some(w);
            }
            match self.find_child(cur, &parts[i]) {
                Some(c) => {
                    proof {
                        lemma_edge_child_bound(self.edges@, cur as int, ss[i as int], self.len());
                    }
                    cur = c;
                },
                None => match self.any[cur] {
                    Some(w) => {
                        cur = w;
                    },
                    None => {
                        done = true;
                    },
                },
            }
            i = i + 1;
        }
        assert(goal == (cur as int, opt_int(catch)));
        assert(self.node_route(path@) == match self.handler(cur as int) {
            Some(h) => Some(h),
            None => match opt_int(catch) {
                Some(w) => self.handler(w),
                None => None,
            },
        });
        match &self.on[cur] {
            Some(h) => Some(h),
            None => match catch {
                Some(w) => match &self.on[w] {
                    Some(h) => Some(h),
                    None => None,
                },
                None => None,
            },
        }
    }

    /// The dump of node `n` at indentation `ind`: whether it has a handler,
    /// its wildcard child, then its literal children, each followed by its
    /// own dump, indented further.
    pub open spec fn dump(&self, n: int, ind: nat) -> Seq<char>
        decreases self.len() - n, self.n_edges() + 1,
    {
        if n < 0 || n >= self.len() {
            Seq::empty()
        } else {
            let wild = match self.wild(n) {
                Some(c) => if n < c < self.len() {
                    spaces(ind) + " wildcrd:\n"@ + self.dump(c, ind + 2)
                } else {
                    Seq::empty()
                },
                None => spaces(ind) + " wildcrd: no\n"@,
            };
            let stat = if self.has_children(n) {
                spaces(ind) + " statics:\n"@ + self.dump_edges(n, ind, self.n_edges())
            } else {
                Seq::empty()
            };
            self.dump_head(n, ind) + wild + stat
        }
    }

    /// The first line of a node's dump.
    pub open spec fn dump_head(&self, n: int, ind: nat) -> Seq<char> {
        spaces(ind) + " handler: "@ + (if self.handler(n) is Some {
            "yes"@
        } else {
            "no"@
        }) + "\n"@
    }

    /// Number of literal edges.
    pub closed spec fn n_edges(&self) -> int {
        self.edges@.len() as int
    }

    /// Literal edge `k` as (parent, segment, child).
    pub closed spec fn edge_at(&self, k: int) -> (int, Seq<char>, int) {
        (self.edges@[k].0 as int, self.edges@[k].1@, self.edges@[k].2 as int)
    }

    /// Node `n` has a literal child.
    pub open spec fn has_children(&self, n: int) -> bool {
        exists|k: int| 0 <= k < self.n_edges() && #[trigger] self.edge_at(k).0 == n
    }

    /// The dumps of the literal children of `n` among the first `k` edges.
    pub open spec fn dump_edges(&self, n: int, ind: nat, k: int) -> Seq<char>
        decreases self.len() - n, k,
    {
        if k <= 0 || k > self.n_edges() || n < 0 {
            Seq::empty()
        } else {
            let e = self.edge_at(k - 1);
            let rest = self.dump_edges(n, ind, k - 1);
            if e.0 == n && n < e.2 < self.len() {
                rest + spaces(ind) + " * "@ + e.1 + "\n"@ + self.dump(e.2, ind + 4)
            } else {
                rest
            }
        }
    }

    /// Appends `ind` spaces.
    fn push_spaces(out: &mut String, ind: usize)
        ensures
            final(out)@ == old(out)@ + spaces(ind as nat),
    {
        let mut i: usize = 0;
        while i < ind
            invariant
                i <= ind,
                out@ == old(out)@ + spaces(i as nat),
            decreases ind - i,
        {
            out.append(" ");
            proof {
                reveal_strlit(" ");
            }
            i = i + 1;
            assert(out@ =~= old(out)@ + spaces(i as nat));
        }
    }

    /// Appends the dump of node `n`.
    #[verifier::rlimit(40)]
    fn print_route(&self, n: usize, ind: usize, out: &mut String)
        requires
            self.shape_ok(),
            n < self.len(),
            ind + 4 * (self.len() - n) <= usize::MAX,
        ensures
            final(out)@ == old(out)@ + self.dump(n as int, ind as nat),
        decreases self.len() - n, self.n_edges() + 1,
    {
        let ghost o = out@;
        Self::push_spaces(out, ind);
        out.append(" handler: ");
        if self.on[n].is_some() {
            out.append("yes");
        } else {
            out.append("no");
        }
        out.append("\n");
        assert(out@ =~= o + self.dump_head(n as int, ind as nat));
        let ghost o1 = out@;
        assert(self.any@[n as int] matches Some(c) ==> n < c < self.len());
        match self.any[n] {
            Some(c) => {
                Self::push_spaces(out, ind);
                out.append(" wildcrd:\n");
                self.print_route(c, ind + 2, out);
            },
            None => {
                Self::push_spaces(out, ind);
                out.append(" wildcrd: no\n");
            },
        }
        let ghost o2 = out@;
        let mut k: usize = 0;
        let mut found = false;
        while k < self.edges.len()
            invariant
                k <= self.edges@.len(),
                found == exists|j: int| 0 <= j < k && #[trigger] self.edge_at(j).0 == n,
            decreases self.edges@.len() - k,
        {
            assert(self.edge_at(k as int).0 == self.edges@[k as int].0 as int);
            if self.edges[k].0 == n {
                found = true;
            }
            k = k + 1;
        }
        if found {
            Self::push_spaces(out, ind);
            out.append(" statics:\n");
            self.print_edges(n, ind, self.edges.len(), out);
        }
        assert(o2 =~= o1 + match self.wild(n as int) {
            Some(c) => spaces(ind as nat) + " wildcrd:\n"@ + self.dump(c, (ind + 2) as nat),
            None => spaces(ind as nat) + " wildcrd: no\n"@,
        });
        assert(out@ =~= old(out)@ + self.dump(n as int, ind as nat));
    }

    /// Appends the dumps of the literal children of `n` among the first `k`
    /// edges.
    fn print_edges(&self, n: usize, ind: usize, k: usize, out: &mut String)
        requires
            self.shape_ok(),
            n < self.len(),
            k <= self.edges@.len(),
            ind + 4 * (self.len() - n) <= usize::MAX,
        ensures
            final(out)@ == old(out)@ + self.dump_edges(n as int, ind as nat, k as int),
        decreases self.len() - n, k,
    {
        if k == 0 {
            assert(out@ =~= old(out)@ + self.dump_edges(n as int, ind as nat, k as int));
            return;
        }
        self.print_edges(n, ind, k - 1, out);
        let e = &self.edges[k - 1];
        if e.0 == n {
            Self::push_spaces(out, ind);
            out.append(" * ");
            out.append(e.1.as_str());
            out.append("\n");
            self.print_route(e.2, ind + 4, out);
        }
        assert(out@ =~= old(out)@ + self.dump_edges(n as int, ind as nat, k as int));
    }

    /// The number of nodes, the root included.
    pub fn node_count(&self) -> (r: usize)
        ensures
            r == self.len(),
    {
        self.on.len()
    }

    /// A dump of the whole tree, depth first from the root, for operators.
    pub fn print(&self) -> (r: String)
        requires
            self.wf(),
            4 * self.len() <= usize::MAX,
        ensures
            r@ == self.dump(0, 0),
    {
        let mut out = String::new();
        self.print_route(0, 0, &mut out);
        out
    }
}

/// `n` spaces.
pub open spec fn spaces(n: nat) -> Seq<char> {
    Seq::new(n, |i: int| ' ')
}

/// An optional index as a mathematical integer.
pub open spec fn opt_int(o: Option<usize>) -> Option<int> {
    match o {
        Some(v) => Some(v as int),
        None => None,
    }
}

/// Once a literal pattern has been registered with `add`, `route` on that
/// same path returns the handler registered for it last, whatever was
/// registered before and whatever wildcards exist.
pub proof fn lemma_literal_route_returns_last_handler<H>(r: Route<H>, pattern: Seq<char>, h: H)
    requires
        r.wf(),
        is_literal(segments(pattern)),
        r.handlers().contains_key(segments(pattern)),
        r.handlers()[segments(pattern)] == h,
    ensures
        r.spec_route(pattern) == Some(h),
{
    let ss = segments(pattern);
    assert(r.handler_at(ss) == Some(h));
    assert(ss.take(0) =~= Seq::<Seq<char>>::empty());
    r.lemma_walk_literal(ss, 0, 0, r.wild(0));
    r.lemma_route_model(pattern);
}

} // verus!
