//! Visiting the descendants of an entity in a tree-shaped relation, with the
//! visitor steering the walk.

use vstd::prelude::*;
use crate::id::EntityId;
use crate::relation::{
    ids_view, lemma_parent_in_sources, lemma_up_compose, lemma_up_step, link_sources, no_cycle, parent_of, targets,
    up, GraphV, RelationGraph,
};

verus! {

/// What a descendant visitor wants to do after seeing one entity.
#[derive(Clone, Copy, Debug, PartialEq, Eq, Structural)]
pub enum Walk {
    /// Continue into this entity's sources.
    Descend,
    /// Keep walking elsewhere, but skip this entity's subtree.
    Prune,
    /// Stop the whole traversal immediately.
    Stop,
}

/// The entities of a visit record, in visit order.
pub open spec fn visit_ids(v: Seq<(EntityId, Walk)>) -> Seq<u64> {
    v.map_values(|x: (EntityId, Walk)| x.0.0)
}

/// `d` lies strictly below `root`: following targets from `d` reaches `root`
/// in one step or more.
pub open spec fn below(g: GraphV, d: u64, root: u64) -> bool {
    exists|k: nat| k >= 1 && #[trigger] up(targets(g), d, k) == Some(root)
}

/// `x` is due a visit once the first `upto` visits are done: its target is the
/// root, or an entity among them whose answer was to descend.
pub open spec fn due(links: Seq<(u64, u64)>, v: Seq<(EntityId, Walk)>, root: u64, x: u64, upto: int) -> bool {
    ||| parent_of(links, x) == Some(root)
    ||| exists|j: int| 0 <= j < upto && #[trigger] v[j].1 == Walk::Descend && parent_of(links, x) == Some(v[j].0.0)
}

/// The last visit asked to stop.
pub open spec fn stopped(v: Seq<(EntityId, Walk)>) -> bool {
    v.len() > 0 && v.last().1 == Walk::Stop
}

proof fn lemma_concat_no_dup(a: Seq<u64>, b: Seq<u64>)
    requires
        a.no_duplicates(),
        b.no_duplicates(),
        forall|x: u64| a.contains(x) ==> !b.contains(x),
    ensures
        (a + b).no_duplicates(),
{
    let s = a + b;
    assert forall|i: int, j: int| 0 <= i < s.len() && 0 <= j < s.len() && i != j implies s[i] != s[j] by {
        if i < a.len() && j >= a.len() {
            assert(a.contains(s[i]));
            assert(b[j - a.len()] == s[j]);
            assert(b.contains(s[j]));
        } else if j < a.len() && i >= a.len() {
            assert(a.contains(s[j]));
            assert(b[i - a.len()] == s[i]);
            assert(b.contains(s[i]));
        } else if i >= a.len() && j >= a.len() {
            assert(b[i - a.len()] == s[i] && b[j - a.len()] == s[j]);
        }
    }
}

/// Distinct entities that all have a target number no more than the links.
proof fn lemma_distinct_sources_bounded(links: Seq<(u64, u64)>, s: Seq<u64>)
    requires
        s.no_duplicates(),
        forall|i: int| 0 <= i < s.len() ==> parent_of(links, #[trigger] s[i]) is Some,
    ensures
        s.len() <= links.len(),
{
    assert forall|x: u64| s.to_set().contains(x) implies link_sources(links).to_set().contains(x) by {
        let i = choose|i: int| 0 <= i < s.len() && s[i] == x;
        assert(parent_of(links, s[i]) is Some);
        lemma_parent_in_sources(links, x);
    }
    s.unique_seq_to_set();
    link_sources(links).lemma_cardinality_of_set();
    vstd::set_lib::lemma_len_subset(s.to_set(), link_sources(links).to_set());
}

/// A source of an entity below `root` is below `root` too.
proof fn lemma_below_step(g: GraphV, c: u64, n: u64, root: u64)
    requires
        parent_of(g.links, c) == Some(n),
        below(g, n, root),
    ensures
        below(g, c, root),
{
    let p = targets(g);
    let k = choose|k: nat| k >= 1 && #[trigger] up(p, n, k) == Some(root);
    lemma_up_step(p, c, 0);
    lemma_up_compose(p, c, 1, k);
    assert(up(p, c, 1 + k) == Some(root));
}

/// In an acyclic relation nothing is below itself.
proof fn lemma_not_below_self(g: GraphV, x: u64)
    requires
        no_cycle(targets(g)),
    ensures
        !below(g, x, x),
{
    if below(g, x, x) {
        let k = choose|k: nat| k >= 1 && #[trigger] up(targets(g), x, k) == Some(x);
        assert(up(targets(g), x, k) != Some(x));
    }
}


/// A walk whose every answer was to descend and that ran to its end has seen
/// every descendant of its root.
pub proof fn lemma_full_walk_sees_every_descendant(g: GraphV, v: Seq<(EntityId, Walk)>, root: u64, d: u64)
    requires
        forall|i: int| 0 <= i < v.len() ==> #[trigger] v[i].1 == Walk::Descend,
        forall|x: u64| #[trigger] due(g.links, v, root, x, v.len() as int) ==> visit_ids(v).contains(x),
        below(g, d, root),
    ensures
        visit_ids(v).contains(d),
{
    let p = targets(g);
    let k = choose|k: nat| k >= 1 && #[trigger] up(p, d, k) == Some(root);
    lemma_seen_at_depth(g, v, root, d, k);
}

proof fn lemma_seen_at_depth(g: GraphV, v: Seq<(EntityId, Walk)>, root: u64, d: u64, k: nat)
    requires
        forall|i: int| 0 <= i < v.len() ==> #[trigger] v[i].1 == Walk::Descend,
        forall|x: u64| #[trigger] due(g.links, v, root, x, v.len() as int) ==> visit_ids(v).contains(x),
        k >= 1,
        up(targets(g), d, k) == Some(root),
    ensures
        visit_ids(v).contains(d),
    decreases k,
{
    let p = targets(g);
    lemma_up_step(p, d, 0);
    lemma_up_compose(p, d, 1, (k - 1) as nat);
    assert(1 + (k - 1) as nat == k);
    if k == 1 {
        assert(due(g.links, v, root, d, v.len() as int));
    } else {
        let n = p(d)->0;
        assert(up(p, n, (k - 1) as nat) == Some(root));
        lemma_seen_at_depth(g, v, root, n, (k - 1) as nat);
        let j = choose|j: int| 0 <= j < visit_ids(v).len() && visit_ids(v)[j] == n;
        assert(v[j].1 == Walk::Descend);
        assert(v[j].0.0 == n);
        assert(due(g.links, v, root, d, v.len() as int));
    }
}

impl RelationGraph {
    /// Walk the descendants of `root` in a tree-shaped relation, asking `visit`
    /// about each one: descend into its sources, prune its subtree, or stop the
    /// whole walk. The root itself is not visited; the order among siblings is
    /// unspecified. Returns each visit with its answer, in visit order: every
    /// descendant is seen at most once, each one only after the root or its own
    /// target asked to descend, and unless a visit asked to stop, every entity
    /// so due was seen.
    pub fn walk_descendants<F: Fn(EntityId) -> Walk>(&self, root: EntityId, visit: F) -> (r: Vec<(EntityId, Walk)>)
        requires
            self@.kind.acyclic,
            forall|e: EntityId| #[trigger] visit.requires((e,)),
        ensures
            forall|i: int| 0 <= i < r@.len() ==> visit.ensures((#[trigger] r@[i].0,), r@[i].1),
            visit_ids(r@).no_duplicates(),
            forall|i: int| 0 <= i < r@.len() ==> below(self@, #[trigger] r@[i].0.0, root.0),
            forall|i: int| 0 <= i < r@.len() ==> due(self@.links, r@, root.0, #[trigger] r@[i].0.0, i),
            forall|i: int| 0 <= i < r@.len() - 1 ==> #[trigger] r@[i].1 != Walk::Stop,
            !stopped(r@) ==> forall|d: u64|
                #[trigger] due(self@.links, r@, root.0, d, r@.len() as int) ==> visit_ids(r@).contains(d),
    {
        self.check_wf();
        let ghost g = self@;
        let ghost lv = g.links;
        let mut stack = self.sources_of(root);
        let mut out: Vec<(EntityId, Walk)> = Vec::new();
        let mut halted = false;
        proof {
            assert forall|i: int| 0 <= i < stack@.len() implies below(g, #[trigger] stack@[i].0, root.0) by {
                assert(ids_view(stack@)[i] == stack@[i].0);
                assert(ids_view(stack@).contains(stack@[i].0));
                lemma_up_step(targets(g), stack@[i].0, 0);
                assert(up(targets(g), stack@[i].0, 1) == Some(root.0));
            }
            assert forall|i: int| 0 <= i < stack@.len() implies due(lv, out@, root.0, #[trigger] stack@[i].0, 0) by {
                assert(ids_view(stack@)[i] == stack@[i].0);
                assert(ids_view(stack@).contains(stack@[i].0));
            }
            assert forall|d: u64| #[trigger] due(lv, out@, root.0, d, 0) implies ids_view(stack@).contains(d) by {}
            assert(visit_ids(out@) =~= Seq::empty());
            lemma_concat_no_dup(visit_ids(out@), ids_view(stack@));
            assert forall|i: int| 0 <= i < ids_view(stack@).len() implies parent_of(lv, #[trigger] ids_view(stack@)[i])
                is Some by {
                assert(ids_view(stack@).contains(ids_view(stack@)[i]));
            }
            lemma_distinct_sources_bounded(lv, ids_view(stack@));
        }
        while !halted && stack.len() > 0
            invariant
                g == self@,
                lv == g.links,
                no_cycle(targets(g)),
                forall|e: EntityId| #[trigger] visit.requires((e,)),
                forall|i: int| 0 <= i < out@.len() ==> visit.ensures((#[trigger] out@[i].0,), out@[i].1),
                visit_ids(out@).no_duplicates(),
                ids_view(stack@).no_duplicates(),
                forall|x: u64| visit_ids(out@).contains(x) ==> !ids_view(stack@).contains(x),
                forall|i: int| 0 <= i < out@.len() ==> below(g, #[trigger] out@[i].0.0, root.0),
                forall|i: int| 0 <= i < stack@.len() ==> below(g, #[trigger] stack@[i].0, root.0),
                forall|i: int| 0 <= i < out@.len() ==> due(lv, out@, root.0, #[trigger] out@[i].0.0, i),
                forall|i: int| 0 <= i < stack@.len() ==> due(lv, out@, root.0, #[trigger] stack@[i].0, out@.len() as int),
                forall|i: int| 0 <= i < out@.len() - 1 ==> #[trigger] out@[i].1 != Walk::Stop,
                halted <==> stopped(out@),
                !halted ==> forall|d: u64| #[trigger] due(lv, out@, root.0, d, out@.len() as int) ==> visit_ids(
                    out@,
                ).contains(d) || ids_view(stack@).contains(d),
                out@.len() + stack@.len() <= lv.len(),
            decreases lv.len() - out@.len(),
        {
            let ghost out0 = out@;
            let ghost stack0 = stack@;
            let n = stack.pop().unwrap();
            let w = visit(n);
            out.push((n, w));
            let ghost m = out0.len() as int;
            let ghost rest = stack@;
            proof {
                assert(stack0[stack0.len() - 1] == n);
                assert(rest =~= stack0.subrange(0, stack0.len() - 1));
                assert(out@ =~= out0.push((n, w)));
                assert(visit_ids(out@) =~= visit_ids(out0).push(n.0));
                assert(ids_view(rest) =~= ids_view(stack0).subrange(0, stack0.len() - 1));
                assert(ids_view(stack0)[stack0.len() - 1] == n.0);
                assert(ids_view(stack0).contains(n.0));
                assert(below(g, n.0, root.0));
                // the record so far is unchanged below `m`
                assert forall|x: u64, upto: int| 0 <= upto <= m && #[trigger] due(lv, out0, root.0, x, upto) implies due(
                    lv,
                    out@,
                    root.0,
                    x,
                    upto,
                ) by {
                    if parent_of(lv, x) != Some(root.0) {
                        let j = choose|j: int|
                            0 <= j < upto && #[trigger] out0[j].1 == Walk::Descend && parent_of(lv, x) == Some(out0[j].0.0);
                        assert(out@[j] == out0[j]);
                    }
                }
                assert forall|x: u64, upto: int| 0 <= upto <= m && #[trigger] due(lv, out@, root.0, x, upto) implies due(
                    lv,
                    out0,
                    root.0,
                    x,
                    upto,
                ) by {
                    if parent_of(lv, x) != Some(root.0) {
                        let j = choose|j: int|
                            0 <= j < upto && #[trigger] out@[j].1 == Walk::Descend && parent_of(lv, x) == Some(out@[j].0.0);
                        assert(out@[j] == out0[j]);
                    }
                }
                assert(due(lv, out0, root.0, n.0, m));
                assert forall|i: int| 0 <= i < out@.len() implies due(lv, out@, root.0, #[trigger] out@[i].0.0, i) by {
                    if i < m {
                        assert(out@[i] == out0[i]);
                        assert(due(lv, out0, root.0, out0[i].0.0, i));
                    }
                }
                assert forall|i: int| 0 <= i < out@.len() implies below(g, #[trigger] out@[i].0.0, root.0) by {
                    if i < m {
                        assert(out@[i] == out0[i]);
                    }
                }
                assert forall|i: int| 0 <= i < out@.len() implies visit.ensures((#[trigger] out@[i].0,), out@[i].1) by {
                    if i < m {
                        assert(out@[i] == out0[i]);
                    }
                }
                assert(visit_ids(out@).no_duplicates()) by {
                    assert(!visit_ids(out0).contains(n.0));
                }
                assert forall|i: int| 0 <= i < rest.len() implies due(lv, out@, root.0, #[trigger] rest[i].0, out@.len() as int) by {
                    assert(rest[i] == stack0[i]);
                    assert(due(lv, out0, root.0, stack0[i].0, m));
                    if parent_of(lv, rest[i].0) != Some(root.0) {
                        let j = choose|j: int|
                            0 <= j < m && #[trigger] out0[j].1 == Walk::Descend && parent_of(lv, rest[i].0) == Some(out0[j].0.0);
                        assert(out@[j] == out0[j]);
                    }
                }
                assert forall|i: int| 0 <= i < rest.len() implies below(g, #[trigger] rest[i].0, root.0) by {
                    assert(rest[i] == stack0[i]);
                }
                assert forall|x: u64| visit_ids(out@).contains(x) implies !ids_view(rest).contains(x) by {
                    if ids_view(rest).contains(x) {
                        let i = choose|i: int| 0 <= i < ids_view(rest).len() && ids_view(rest)[i] == x;
                        assert(ids_view(stack0)[i] == x);
                        assert(ids_view(stack0).contains(x));
                        if x == n.0 {
                            assert(ids_view(stack0)[stack0.len() - 1] == x);
                        } else {
                            let k = choose|k: int| 0 <= k < visit_ids(out@).len() && visit_ids(out@)[k] == x;
                            assert(k < m);
                            assert(visit_ids(out0)[k] == x);
                            assert(visit_ids(out0).contains(x));
                        }
                    }
                }
            }
            if w == Walk::Descend {
                let mut children = self.sources_of(n);
                let ghost kid_seq = children@;
                let ghost kids = ids_view(children@);
                proof {
                    assert forall|c: u64| kids.contains(c) implies !visit_ids(out@).contains(c) && !ids_view(rest).contains(
                        c,
                    ) by {
                        assert(parent_of(lv, c) == Some(n.0));
                        if c == n.0 {
                            lemma_up_step(targets(g), c, 0);
                            assert(up(targets(g), c, 1) == Some(c));
                        }
                        lemma_not_below_self(g, root.0);
                        if visit_ids(out0).contains(c) {
                            let k = choose|k: int| 0 <= k < visit_ids(out0).len() && visit_ids(out0)[k] == c;
                            assert(out0[k].0.0 == c);
                            assert(due(lv, out0, root.0, c, k));
                            if parent_of(lv, c) != Some(root.0) {
                                let j = choose|j: int|
                                    0 <= j < k && #[trigger] out0[j].1 == Walk::Descend && parent_of(lv, c) == Some(
                                        out0[j].0.0,
                                    );
                                assert(visit_ids(out0)[j] == n.0);
                                assert(visit_ids(out0).contains(n.0));
                            }
                        }
                        if ids_view(rest).contains(c) {
                            let i = choose|i: int| 0 <= i < ids_view(rest).len() && ids_view(rest)[i] == c;
                            assert(rest[i].0 == c);
                            assert(due(lv, out0, root.0, c, m));
                            if parent_of(lv, c) != Some(root.0) {
                                let j = choose|j: int|
                                    0 <= j < m && #[trigger] out0[j].1 == Walk::Descend && parent_of(lv, c) == Some(
                                        out0[j].0.0,
                                    );
                                assert(visit_ids(out0)[j] == n.0);
                                assert(visit_ids(out0).contains(n.0));
                            }
                        }
                    }
                }
                stack.append(&mut children);
                proof {
                    assert(stack@ =~= rest + kid_seq);
                    assert(ids_view(stack@) =~= ids_view(rest) + kids);
                    assert forall|x: u64| ids_view(rest).contains(x) implies !kids.contains(x) by {}
                    lemma_concat_no_dup(ids_view(rest), kids);
                    assert forall|i: int| 0 <= i < stack@.len() implies due(lv, out@, root.0, #[trigger] stack@[i].0, out@.len() as int) by {
                        if i >= rest.len() {
                            assert(stack@[i] == kid_seq[i - rest.len()]);
                            assert(kids[i - rest.len()] == stack@[i].0);
                            assert(kids.contains(stack@[i].0));
                            assert(out@[m].1 == Walk::Descend);
                        } else {
                            assert(stack@[i] == rest[i]);
                        }
                    }
                    assert forall|i: int| 0 <= i < stack@.len() implies below(g, #[trigger] stack@[i].0, root.0) by {
                        if i >= rest.len() {
                            assert(stack@[i] == kid_seq[i - rest.len()]);
                            assert(kids[i - rest.len()] == stack@[i].0);
                            assert(kids.contains(stack@[i].0));
                            lemma_below_step(g, stack@[i].0, n.0, root.0);
                        } else {
                            assert(stack@[i] == rest[i]);
                        }
                    }
                    assert forall|x: u64| visit_ids(out@).contains(x) implies !ids_view(stack@).contains(x) by {
                        if ids_view(stack@).contains(x) {
                            let i = choose|i: int| 0 <= i < ids_view(stack@).len() && ids_view(stack@)[i] == x;
                            if i < rest.len() {
                                assert(ids_view(rest)[i] == x);
                                assert(ids_view(rest).contains(x));
                            } else {
                                assert(kids[i - rest.len()] == x);
                                assert(kids.contains(x));
                            }
                        }
                    }
                    assert forall|d: u64| #[trigger] due(lv, out@, root.0, d, out@.len() as int) implies visit_ids(
                        out@,
                    ).contains(d) || ids_view(stack@).contains(d) by {
                        if parent_of(lv, d) == Some(n.0) {
                            assert(kids.contains(d));
                            let i = choose|i: int| 0 <= i < kids.len() && kids[i] == d;
                            assert(ids_view(stack@)[rest.len() + i] == d);
                        } else if parent_of(lv, d) == Some(root.0) {
                            assert(due(lv, out0, root.0, d, m));
                            if ids_view(stack0).contains(d) && d != n.0 {
                                let i = choose|i: int| 0 <= i < ids_view(stack0).len() && ids_view(stack0)[i] == d;
                                assert(i != stack0.len() - 1);
                                assert(ids_view(stack@)[i] == d);
                            } else if visit_ids(out0).contains(d) {
                                let k = choose|k: int| 0 <= k < visit_ids(out0).len() && visit_ids(out0)[k] == d;
                                assert(visit_ids(out@)[k] == d);
                            } else {
                                assert(visit_ids(out@)[m] == d);
                            }
                        } else {
                            let j = choose|j: int|
                                0 <= j < out@.len() && #[trigger] out@[j].1 == Walk::Descend && parent_of(lv, d) == Some(
                                    out@[j].0.0,
                                );
                            assert(j < m);
                            assert(out@[j] == out0[j]);
                            assert(due(lv, out0, root.0, d, m));
                            if ids_view(stack0).contains(d) && d != n.0 {
                                let i = choose|i: int| 0 <= i < ids_view(stack0).len() && ids_view(stack0)[i] == d;
                                assert(i != stack0.len() - 1);
                                assert(ids_view(stack@)[i] == d);
                            } else if visit_ids(out0).contains(d) {
                                let k = choose|k: int| 0 <= k < visit_ids(out0).len() && visit_ids(out0)[k] == d;
                                assert(visit_ids(out@)[k] == d);
                            } else {
                                assert(visit_ids(out@)[m] == d);
                            }
                        }
                    }
                    lemma_concat_no_dup(visit_ids(out@), ids_view(stack@));
                    let seen = visit_ids(out@) + ids_view(stack@);
                    assert forall|i: int| 0 <= i < seen.len() implies parent_of(lv, #[trigger] seen[i]) is Some by {
                        if i < out@.len() {
                            assert(seen[i] == out@[i].0.0);
                            assert(below(g, out@[i].0.0, root.0));
                        } else {
                            assert(seen[i] == stack@[i - out@.len()].0);
                            assert(below(g, stack@[i - out@.len()].0, root.0));
                        }
                        let x = seen[i];
                        let k = choose|k: nat| k >= 1 && #[trigger] up(targets(g), x, k) == Some(root.0);
                        lemma_up_compose(targets(g), x, 1, (k - 1) as nat);
                        lemma_up_step(targets(g), x, 0);
                        assert(1 + (k - 1) as nat == k);
                    }
                    lemma_distinct_sources_bounded(lv, seen);
                }
            } else {
                if w == Walk::Stop {
                    halted = true;
                }
                proof {
                    assert forall|i: int| 0 <= i < out@.len() - 1 implies #[trigger] out@[i].1 != Walk::Stop by {
                        assert(out@[i] == out0[i]);
                        assert(!stopped(out0) || out0.len() == 0);
                    }
                    assert forall|d: u64| !halted && #[trigger] due(lv, out@, root.0, d, out@.len() as int) implies visit_ids(
                        out@,
                    ).contains(d) || ids_view(stack@).contains(d) by {
                        if parent_of(lv, d) != Some(root.0) {
                            let j = choose|j: int|
                                0 <= j < out@.len() && #[trigger] out@[j].1 == Walk::Descend && parent_of(lv, d) == Some(
                                    out@[j].0.0,
                                );
                            assert(j < m);
                            assert(out@[j] == out0[j]);
                        }
                        assert(due(lv, out0, root.0, d, m));
                        if ids_view(stack0).contains(d) && d != n.0 {
                            let i = choose|i: int| 0 <= i < ids_view(stack0).len() && ids_view(stack0)[i] == d;
                            assert(i != stack0.len() - 1);
                            assert(ids_view(stack@)[i] == d);
                        } else if visit_ids(out0).contains(d) {
                            let k = choose|k: int| 0 <= k < visit_ids(out0).len() && visit_ids(out0)[k] == d;
                            assert(visit_ids(out@)[k] == d);
                        } else {
                            assert(visit_ids(out@)[m] == d);
                        }
                    }
                }
            }
            proof {
                assert forall|i: int| 0 <= i < out@.len() - 1 implies #[trigger] out@[i].1 != Walk::Stop by {
                    assert(out@[i] == out0[i]);
                }
            }
        }
        out
    }
}

} // verus!
