//! The order of a walk over a tree in which nothing fails: each entry comes
//! first, then everything below it, last-listed child first, then what was
//! pending before it.
use vstd::prelude::*;
use crate::walker::EntryKind;

verus! {

/// Whether every entry of `s` has a rank below `bound`.
pub open spec fn ranked<T>(rank: spec_fn(T) -> nat, bound: nat, s: Seq<T>) -> bool {
    forall|i: int| 0 <= i < s.len() ==> #[trigger] rank(s[i]) < bound
}

/// Whether the tree has no cycle: a directory's children rank below it.
pub open spec fn acyclic<T>(
    kind: spec_fn(T) -> EntryKind,
    children: spec_fn(T) -> Seq<T>,
    rank: spec_fn(T) -> nat,
) -> bool {
    forall|e: T| #[trigger] kind(e) is Dir ==> ranked(rank, rank(e), children(e))
}

/// The results of a walk over `pending` in a tree where `kind` gives each
/// entry's metadata and `children` each directory's resolved listing: the
/// last pending entry, then the walk of its children, then the walk of the
/// rest. Entries ranked at or above `bound` are not descended into.
pub open spec fn walk_of<T>(
    kind: spec_fn(T) -> EntryKind,
    children: spec_fn(T) -> Seq<T>,
    rank: spec_fn(T) -> nat,
    bound: nat,
    pending: Seq<T>,
) -> Seq<(T, EntryKind)>
    decreases bound, pending.len(),
{
    if pending.len() == 0 {
        Seq::empty()
    } else {
        let e = pending.last();
        let below = if kind(e) is Dir && rank(e) < bound {
            walk_of(kind, children, rank, rank(e), children(e))
        } else {
            Seq::empty()
        };
        seq![(e, kind(e))] + below + walk_of(kind, children, rank, bound, pending.drop_last())
    }
}

/// The walk does not depend on the bound, as long as every pending entry
/// ranks below it.
proof fn lemma_walk_bound<T>(
    kind: spec_fn(T) -> EntryKind,
    children: spec_fn(T) -> Seq<T>,
    rank: spec_fn(T) -> nat,
    b1: nat,
    b2: nat,
    s: Seq<T>,
)
    requires
        ranked(rank, b1, s),
        ranked(rank, b2, s),
    ensures
        walk_of(kind, children, rank, b1, s) == walk_of(kind, children, rank, b2, s),
    decreases s.len(),
{
    if s.len() > 0 {
        let init = s.drop_last();
        assert(rank(s[s.len() - 1]) < b1);
        assert(rank(s[s.len() - 1]) < b2);
        assert forall|i: int| 0 <= i < init.len() implies #[trigger] rank(init[i]) < b1 && rank(
            init[i],
        ) < b2 by {
            assert(init[i] == s[i]);
        }
        lemma_walk_bound(kind, children, rank, b1, b2, init);
    }
}

/// Walking `a + b` walks `b` first, from its end, then `a`.
proof fn lemma_walk_append<T>(
    kind: spec_fn(T) -> EntryKind,
    children: spec_fn(T) -> Seq<T>,
    rank: spec_fn(T) -> nat,
    bound: nat,
    a: Seq<T>,
    b: Seq<T>,
)
    ensures
        walk_of(kind, children, rank, bound, a + b) == walk_of(kind, children, rank, bound, b)
            + walk_of(kind, children, rank, bound, a),
    decreases b.len(),
{
    if b.len() == 0 {
        assert(a + b == a);
    } else {
        let ab = a + b;
        assert(ab.last() == b.last());
        assert(ab.drop_last() == a + b.drop_last());
        lemma_walk_append(kind, children, rank, bound, a, b.drop_last());
        let e = b.last();
        let below = if kind(e) is Dir && rank(e) < bound {
            walk_of(kind, children, rank, rank(e), children(e))
        } else {
            Seq::<(T, EntryKind)>::empty()
        };
        let wa = walk_of(kind, children, rank, bound, a);
        let wb = walk_of(kind, children, rank, bound, b.drop_last());
        assert(seq![(e, kind(e))] + below + (wb + wa) == (seq![(e, kind(e))] + below + wb) + wa);
    }
}

/// One step of a walk in an acyclic tree: visiting the last pending entry
/// yields it with its kind, and the rest of the walk is the walk of what is
/// then pending: the other entries with, for a directory, its children on
/// top. With `DirIter::settle`, which leaves exactly that pending, a walk
/// driven step by step with the tree's metadata and listings yields
/// `walk_of` of the root's listing, in that order.
pub proof fn lemma_walk_step<T>(
    kind: spec_fn(T) -> EntryKind,
    children: spec_fn(T) -> Seq<T>,
    rank: spec_fn(T) -> nat,
    bound: nat,
    pending: Seq<T>,
)
    requires
        acyclic(kind, children, rank),
        ranked(rank, bound, pending),
        pending.len() > 0,
    ensures
        ({
            let e = pending.last();
            let pushed = if kind(e) is Dir {
                children(e)
            } else {
                Seq::empty()
            };
            walk_of(kind, children, rank, bound, pending) == seq![(e, kind(e))] + walk_of(
                kind,
                children,
                rank,
                bound,
                pending.drop_last() + pushed,
            )
        }),
{
    let e = pending.last();
    let init = pending.drop_last();
    assert(rank(pending[pending.len() - 1]) < bound);
    if kind(e) is Dir {
        let cs = children(e);
        assert(ranked(rank, rank(e), cs));
        assert forall|i: int| 0 <= i < cs.len() implies #[trigger] rank(cs[i]) < bound by {
            assert(rank(cs[i]) < rank(e));
        }
        lemma_walk_bound(kind, children, rank, rank(e), bound, cs);
        lemma_walk_append(kind, children, rank, bound, init, cs);
        let wc = walk_of(kind, children, rank, bound, cs);
        let wi = walk_of(kind, children, rank, bound, init);
        assert(seq![(e, kind(e))] + wc + wi == seq![(e, kind(e))] + (wc + wi));
    } else {
        assert(init + Seq::<T>::empty() == init);
        assert(seq![(e, kind(e))] + Seq::<(T, EntryKind)>::empty() == seq![(e, kind(e))]);
    }
}

/// Whether `x` comes after position `t` among the walk's results.
pub open spec fn comes_after<T>(w: Seq<(T, EntryKind)>, t: int, x: T) -> bool {
    exists|u: int| t < u < w.len() && #[trigger] w[u].0 == x
}

/// What a walk in an acyclic tree reaches: every pending entry, each with
/// its own kind, and after each directory every one of its children, so
/// everything below the pending entries.
pub proof fn lemma_walk_complete<T>(
    kind: spec_fn(T) -> EntryKind,
    children: spec_fn(T) -> Seq<T>,
    rank: spec_fn(T) -> nat,
    bound: nat,
    pending: Seq<T>,
)
    requires
        acyclic(kind, children, rank),
        ranked(rank, bound, pending),
    ensures
        ({
            let w = walk_of(kind, children, rank, bound, pending);
            &&& forall|i: int|
                0 <= i < pending.len() ==> exists|t: int| 0 <= t < w.len() && #[trigger] w[t].0
                    == #[trigger] pending[i]
            &&& forall|t: int| 0 <= t < w.len() ==> #[trigger] w[t].1 == kind(w[t].0)
            &&& forall|t: int, j: int|
                0 <= t < w.len() && w[t].1 is Dir && 0 <= j < children(w[t].0).len()
                    ==> #[trigger] comes_after(w, t, children(w[t].0)[j])
        }),
    decreases bound, pending.len(),
{
    let w = walk_of(kind, children, rank, bound, pending);
    if pending.len() > 0 {
        let e = pending.last();
        let init = pending.drop_last();
        assert(rank(pending[pending.len() - 1]) < bound);
        assert forall|i: int| 0 <= i < init.len() implies #[trigger] rank(init[i]) < bound by {
            assert(init[i] == pending[i]);
        }
        lemma_walk_complete(kind, children, rank, bound, init);
        let rest = walk_of(kind, children, rank, bound, init);
        let below = if kind(e) is Dir {
            walk_of(kind, children, rank, rank(e), children(e))
        } else {
            Seq::<(T, EntryKind)>::empty()
        };
        if kind(e) is Dir {
            lemma_walk_complete(kind, children, rank, rank(e), children(e));
        }
        let head = seq![(e, kind(e))] + below;
        assert(w == head + rest);
        let off = head.len() as int;
        assert forall|t: int| 0 <= t < rest.len() implies w[off + t] == rest[t] by {}
        assert forall|t: int| 0 <= t < below.len() implies w[1 + t] == below[t] by {}
        assert forall|i: int| 0 <= i < pending.len() implies exists|t: int|
            0 <= t < w.len() && #[trigger] w[t].0 == #[trigger] pending[i] by {
            if i == pending.len() - 1 {
                assert(w[0].0 == pending[i]);
            } else {
                assert(init[i] == pending[i]);
                let t = choose|t: int| 0 <= t < rest.len() && #[trigger] rest[t].0 == init[i];
                assert(w[off + t].0 == pending[i]);
            }
        }
        assert forall|t: int| 0 <= t < w.len() implies #[trigger] w[t].1 == kind(w[t].0) by {
            if t == 0 {
            } else if t < off {
                assert(w[t] == below[t - 1]);
            } else {
                assert(w[t] == rest[t - off]);
            }
        }
        assert forall|t: int, j: int|
            0 <= t < w.len() && w[t].1 is Dir && 0 <= j < children(w[t].0).len() implies #[trigger] comes_after(
                w,
                t,
                children(w[t].0)[j],
            ) by {
            if t == 0 {
                assert(w[0] == (e, kind(e)));
                let c = children(e)[j];
                assert(children(e)[j] == c);
                let v = choose|v: int| 0 <= v < below.len() && #[trigger] below[v].0 == c;
                assert(w[1 + v].0 == c);
            } else if t < off {
                assert(w[t] == below[t - 1]);
                let c = children(below[t - 1].0)[j];
                assert(comes_after(below, t - 1, c));
                let v = choose|v: int| t - 1 < v < below.len() && #[trigger] below[v].0 == c;
                assert(w[1 + v].0 == c);
            } else {
                assert(w[t] == rest[t - off]);
                let c = children(rest[t - off].0)[j];
                assert(comes_after(rest, t - off, c));
                let v = choose|v: int| t - off < v < rest.len() && #[trigger] rest[v].0 == c;
                assert(w[off + v].0 == c);
            }
        }
    } else {
        assert(w.len() == 0);
    }
}

} // verus!
