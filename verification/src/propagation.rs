//! Constraint propagation, stated by its outcome: restricting a square
//! gives the largest board that keeps every square that had a candidate
//! nonempty and has the value of every newly known square removed from the
//! square's peers.

use crate::board::{
    are_peers, board_wf, lemma_known_subset, lemma_known_value, lemma_refines_antisym,
    lemma_refines_trans, lemma_refines_wf, lemma_total_lt, refines, total, Board,
};
use crate::SudokuError;
use vstd::prelude::*;
use vstd::set_lib::lemma_len_subset;

verus! {

/// No square that had a candidate in `g` is empty in `h`.
pub open spec fn keeps_nonempty(g: Board, h: Board) -> bool {
    forall|i: int| 0 <= i < g.len() && g[i].len() > 0 ==> (#[trigger] h[i]).len() > 0
}

/// Every square that is known in `h` and was not known in `g` has had its
/// value removed from all its peers.
pub open spec fn settled(g: Board, h: Board) -> bool {
    forall|i: int, j: int|
        #[trigger] are_peers(i, j) && g[i].len() != 1 && h[i].len() == 1 ==> h[i].disjoint(h[j])
}

/// `h` can be reached from `g` by removing candidates without emptying a
/// square and without leaving a newly known square unpropagated.
pub open spec fn consistent(g: Board, h: Board) -> bool {
    refines(h, g) && keeps_nonempty(g, h) && settled(g, h)
}

/// `h` is consistent with `g` and keeps only candidates from `allowed` in
/// square `c`.
pub open spec fn admits(g: Board, h: Board, c: int, allowed: Set<int>) -> bool {
    consistent(g, h) && h[c].subset_of(allowed)
}

/// `p` is what propagation makes of `g` when square `c` is restricted to
/// `allowed`: the largest board that `g` admits under that restriction.
pub open spec fn is_propagation(g: Board, p: Board, c: int, allowed: Set<int>) -> bool {
    &&& admits(g, p, c, allowed)
    &&& forall|h: Board| #[trigger] admits(g, h, c, allowed) ==> refines(h, p)
}

/// The restriction of square `c` to `allowed` cannot be met from `g`.
pub open spec fn no_propagation(g: Board, c: int, allowed: Set<int>) -> bool {
    forall|h: Board| !#[trigger] admits(g, h, c, allowed)
}

/// The propagation of the restriction of square `c` to `allowed`, where
/// there is one.
pub open spec fn propagate(g: Board, c: int, allowed: Set<int>) -> Option<Board> {
    if exists|p: Board| is_propagation(g, p, c, allowed) {
        Some(choose|p: Board| is_propagation(g, p, c, allowed))
    } else {
        None
    }
}

/// What eliminating the candidate `v` from square `c` gives.
pub open spec fn eliminate_spec(g: Board, c: int, v: int) -> Result<Board, SudokuError> {
    match propagate(g, c, g[c].remove(v)) {
        Some(p) => Ok(p),
        None => Err(SudokuError::RemovingKnownValue),
    }
}

/// Square `c` is known, and its value is not `v`.
pub open spec fn assigns_to_known(g: Board, c: int, v: int) -> bool {
    g[c].len() == 1 && !g[c].contains(v)
}

/// What assigning the value `v` to square `c` gives.
pub open spec fn assign_spec(g: Board, c: int, v: int) -> Result<Board, SudokuError> {
    if assigns_to_known(g, c, v) {
        Err(SudokuError::AssigningToKnownCell)
    } else {
        match propagate(g, c, set![v]) {
            Some(p) => Ok(p),
            None => Err(SudokuError::RemovingKnownValue),
        }
    }
}

/// Consistency is transitive.
pub proof fn lemma_consistent_trans(a: Board, b: Board, c: Board)
    requires
        board_wf(a),
        consistent(a, b),
        consistent(b, c),
    ensures
        consistent(a, c),
{
    lemma_refines_trans(a, b, c);
    lemma_refines_wf(b, a);
    assert forall|i: int| 0 <= i < a.len() && a[i].len() > 0 implies (#[trigger] c[i]).len()
        > 0 by {
        assert(b[i].len() > 0);
    }
    assert forall|i: int, j: int|
        #[trigger] are_peers(i, j) && a[i].len() != 1 && c[i].len() == 1 implies c[i].disjoint(
        c[j],
    ) by {
        assert(c[i].subset_of(b[i]));
        assert(c[j].subset_of(b[j]));
        if b[i].len() == 1 {
            assert(b[i].disjoint(b[j]));
        } else {
            assert(c[i].disjoint(c[j]));
        }
    }
}

/// A board that is consistent with `g` and refines a board `b` between the
/// two is consistent with `b` as well.
pub proof fn lemma_consistent_rebase(g: Board, b: Board, h: Board)
    requires
        board_wf(g),
        refines(b, g),
        consistent(g, h),
        refines(h, b),
    ensures
        consistent(b, h),
{
    lemma_refines_wf(b, g);
    lemma_refines_wf(h, b);
    assert forall|i: int| 0 <= i < b.len() && b[i].len() > 0 implies (#[trigger] h[i]).len()
        > 0 by {
        assert(b[i].subset_of(g[i]));
        if g[i].len() == 0 {
            assert(b[i].len() <= g[i].len());
        }
    }
    assert forall|i: int, j: int|
        #[trigger] are_peers(i, j) && b[i].len() != 1 && h[i].len() == 1 implies h[i].disjoint(
        h[j],
    ) by {
        assert(0 <= i < 81);
        assert(h[i].len() <= b[i].len());
        assert(b[i].len() <= g[i].len());
    }
}

/// Propagation has at most one result.
pub proof fn lemma_propagation_unique(g: Board, p: Board, q: Board, c: int, allowed: Set<int>)
    requires
        is_propagation(g, p, c, allowed),
        is_propagation(g, q, c, allowed),
    ensures
        p == q,
{
    lemma_refines_antisym(p, q);
}

/// A board that is a propagation is the propagation.
pub proof fn lemma_propagate_some(g: Board, p: Board, c: int, allowed: Set<int>)
    requires
        is_propagation(g, p, c, allowed),
    ensures
        propagate(g, c, allowed) == Some(p),
{
    let q = choose|q: Board| is_propagation(g, q, c, allowed);
    lemma_propagation_unique(g, p, q, c, allowed);
}

/// A restriction that cannot be met has no propagation.
pub proof fn lemma_propagate_none(g: Board, c: int, allowed: Set<int>)
    requires
        no_propagation(g, c, allowed),
    ensures
        propagate(g, c, allowed) is None,
{
    if exists|p: Board| is_propagation(g, p, c, allowed) {
        let p = choose|p: Board| is_propagation(g, p, c, allowed);
        assert(admits(g, p, c, allowed));
    }
}

/// Whether a restriction can be met, and what its propagation is, depends
/// only on which candidates of the square it allows.
pub proof fn lemma_propagation_same(g: Board, c: int, a: Set<int>, a2: Set<int>)
    requires
        0 <= c < g.len(),
        forall|d: int| g[c].contains(d) ==> (a.contains(d) <==> a2.contains(d)),
    ensures
        forall|h: Board| admits(g, h, c, a) <==> admits(g, h, c, a2),
        forall|p: Board| is_propagation(g, p, c, a) <==> is_propagation(g, p, c, a2),
        no_propagation(g, c, a) <==> no_propagation(g, c, a2),
{
    assert forall|h: Board| admits(g, h, c, a) <==> admits(g, h, c, a2) by {
        if consistent(g, h) {
            assert(h[c].subset_of(g[c]));
        }
    }
    assert forall|p: Board| is_propagation(g, p, c, a) <==> is_propagation(g, p, c, a2) by {
        if is_propagation(g, p, c, a) {
            assert forall|h: Board| #[trigger] admits(g, h, c, a2) implies refines(h, p) by {
                assert(admits(g, h, c, a));
            }
        }
        if is_propagation(g, p, c, a2) {
            assert forall|h: Board| #[trigger] admits(g, h, c, a) implies refines(h, p) by {
                assert(admits(g, h, c, a2));
            }
        }
    }
    if no_propagation(g, c, a) {
        assert forall|h: Board| !#[trigger] admits(g, h, c, a2) by {
            assert(!admits(g, h, c, a));
        }
    }
    if no_propagation(g, c, a2) {
        assert forall|h: Board| !#[trigger] admits(g, h, c, a) by {
            assert(!admits(g, h, c, a2));
        }
    }
}

/// Restricting square `c` of `g` to `a`, where this does not make the square
/// known, changes that square alone.
pub proof fn lemma_restrict_plain(g: Board, c: int, a: Set<int>)
    requires
        board_wf(g),
        0 <= c < 81,
        a.subset_of(g[c]),
        a.len() != 1 || g[c].len() == 1,
        a.len() > 0 || g[c].len() == 0,
    ensures
        is_propagation(g, g.update(c, a), c, a),
{
    let b = g.update(c, a);
    assert(refines(b, g));
    assert(keeps_nonempty(g, b));
    assert(settled(g, b)) by {
        assert forall|i: int, j: int|
            #[trigger] are_peers(i, j) && g[i].len() != 1 && b[i].len() == 1 implies b[i].disjoint(
            b[j],
        ) by {
            assert(i != c);
        }
    }
    assert forall|h: Board| #[trigger] admits(g, h, c, a) implies refines(h, b) by {
        assert forall|i: int| 0 <= i < b.len() implies (#[trigger] h[i]).subset_of(b[i]) by {
            assert(h[i].subset_of(g[i]));
        }
    }
}

/// Eliminating a value that is no candidate of the square changes nothing.
pub proof fn lemma_eliminate_absent(g: Board, c: int, v: int)
    requires
        board_wf(g),
        0 <= c < 81,
        !g[c].contains(v),
    ensures
        is_propagation(g, g, c, g[c].remove(v)),
        eliminate_spec(g, c, v) == Ok::<Board, SudokuError>(g),
{
    let a = g[c].remove(v);
    assert(a =~= g[c]);
    lemma_restrict_plain(g, c, a);
    assert(g.update(c, a) =~= g);
    lemma_propagate_some(g, g, c, a);
}

/// Eliminating a value a second time changes nothing.
pub proof fn lemma_eliminate_twice(g: Board, c: int, v: int)
    requires
        board_wf(g),
        0 <= c < 81,
    ensures
        eliminate_spec(g, c, v) matches Ok(p) ==> eliminate_spec(p, c, v) == Ok::<
            Board,
            SudokuError,
        >(p),
{
    lemma_propagate_is(g, c, g[c].remove(v));
    match eliminate_spec(g, c, v) {
        Ok(p) => {
            lemma_refines_wf(p, g);
            lemma_eliminate_absent(p, c, v);
        },
        Err(_) => {},
    }
}

/// What `g` admits under a restriction of square `c` that is at least as
/// tight as `a`, and as tight as `a1` on the propagation `b` of `a`, `b`
/// admits under `a1`.
proof fn lemma_chain_admits(
    g: Board,
    b: Board,
    c: int,
    a: Set<int>,
    a1: Set<int>,
    a2: Set<int>,
    h: Board,
)
    requires
        board_wf(g),
        0 <= c < 81,
        is_propagation(g, b, c, a),
        forall|d: int| g[c].contains(d) && a2.contains(d) ==> a.contains(d),
        forall|d: int| b[c].contains(d) && a2.contains(d) ==> a1.contains(d),
        admits(g, h, c, a2),
    ensures
        admits(b, h, c, a1),
{
    assert(h[c].subset_of(g[c]));
    assert(admits(g, h, c, a));
    assert(refines(h, b));
    lemma_consistent_rebase(g, b, h);
    assert(h[c].subset_of(b[c]));
}

/// Two restrictions of the same square, one after the other, propagate to
/// what the tighter one alone propagates to.
pub proof fn lemma_propagation_chain(
    g: Board,
    b: Board,
    b2: Board,
    c: int,
    a: Set<int>,
    a1: Set<int>,
    a2: Set<int>,
)
    requires
        board_wf(g),
        0 <= c < 81,
        is_propagation(g, b, c, a),
        is_propagation(b, b2, c, a1),
        forall|d: int| g[c].contains(d) && a2.contains(d) ==> a.contains(d),
        forall|d: int| b[c].contains(d) ==> (a1.contains(d) <==> a2.contains(d)),
    ensures
        is_propagation(g, b2, c, a2),
{
    lemma_consistent_trans(g, b, b2);
    assert(b2[c].subset_of(b[c]));
    assert forall|h: Board| #[trigger] admits(g, h, c, a2) implies refines(h, b2) by {
        lemma_chain_admits(g, b, c, a, a1, a2, h);
    }
}

/// Where the second of two restrictions of the same square cannot be met,
/// the tighter one alone cannot be met either.
pub proof fn lemma_propagation_chain_fails(
    g: Board,
    b: Board,
    c: int,
    a: Set<int>,
    a1: Set<int>,
    a2: Set<int>,
)
    requires
        board_wf(g),
        0 <= c < 81,
        is_propagation(g, b, c, a),
        no_propagation(b, c, a1),
        forall|d: int| g[c].contains(d) && a2.contains(d) ==> a.contains(d),
        forall|d: int| b[c].contains(d) && a2.contains(d) ==> a1.contains(d),
    ensures
        no_propagation(g, c, a2),
{
    assert forall|h: Board| !#[trigger] admits(g, h, c, a2) by {
        if admits(g, h, c, a2) {
            lemma_chain_admits(g, b, c, a, a1, a2, h);
        }
    }
}

/// In each square, the candidates that some board admitted by `g` under the
/// restriction keeps.
pub open spec fn union_of_admitted(g: Board, c: int, allowed: Set<int>) -> Board {
    Seq::new(
        g.len(),
        |i: int|
            Set::new(
                |d: int| exists|h: Board| #[trigger] admits(g, h, c, allowed) && h[i].contains(d),
            ),
    )
}

/// Where a restriction can be met at all, it has a propagation: the boards
/// that `g` admits have a largest one, their union.
pub proof fn lemma_propagation_exists(g: Board, c: int, allowed: Set<int>, h0: Board)
    requires
        board_wf(g),
        0 <= c < 81,
        admits(g, h0, c, allowed),
    ensures
        is_propagation(g, union_of_admitted(g, c, allowed), c, allowed),
{
    let u = union_of_admitted(g, c, allowed);
    assert forall|i: int| 0 <= i < g.len() implies (#[trigger] u[i]).subset_of(g[i]) by {
        assert forall|d: int| u[i].contains(d) implies g[i].contains(d) by {
            let h = choose|h: Board| #[trigger] admits(g, h, c, allowed) && h[i].contains(d);
            assert(h[i].subset_of(g[i]));
        }
    }
    assert(refines(u, g));
    lemma_refines_wf(u, g);
    assert forall|h: Board| #[trigger] admits(g, h, c, allowed) implies refines(h, u) by {
        assert forall|i: int| 0 <= i < u.len() implies (#[trigger] h[i]).subset_of(u[i]) by {
            assert forall|d: int| h[i].contains(d) implies u[i].contains(d) by {
                assert(admits(g, h, c, allowed) && h[i].contains(d));
            }
        }
    }
    assert(refines(h0, u));
    assert forall|i: int| 0 <= i < g.len() && g[i].len() > 0 implies (#[trigger] u[i]).len()
        > 0 by {
        assert(h0[i].len() > 0);
        assert(h0[i].subset_of(u[i]));
        lemma_len_subset(h0[i], u[i]);
    }
    assert forall|i: int, j: int|
        #[trigger] are_peers(i, j) && g[i].len() != 1 && u[i].len() == 1 implies u[i].disjoint(
        u[j],
    ) by {
        assert forall|d: int| u[i].contains(d) implies !u[j].contains(d) by {
            if u[j].contains(d) {
                let h = choose|h: Board| #[trigger] admits(g, h, c, allowed) && h[j].contains(d);
                assert(refines(h, u));
                assert(h[i].subset_of(u[i]));
                assert(u[i].len() <= g[i].len());
                assert(h[i].len() > 0);
                lemma_known_subset(h[i], u[i]);
                assert(h[i].disjoint(h[j]));
            }
        }
    }
    assert forall|d: int| u[c].contains(d) implies allowed.contains(d) by {
        let h = choose|h: Board| #[trigger] admits(g, h, c, allowed) && h[c].contains(d);
        assert(h[c].subset_of(allowed));
    }
}

/// What `propagate` returns is the propagation of the restriction, and it
/// returns nothing only where the restriction cannot be met.
pub proof fn lemma_propagate_is(g: Board, c: int, allowed: Set<int>)
    requires
        board_wf(g),
        0 <= c < 81,
    ensures
        match propagate(g, c, allowed) {
            Some(p) => is_propagation(g, p, c, allowed),
            None => no_propagation(g, c, allowed),
        },
{
    if propagate(g, c, allowed) is None {
        assert forall|h: Board| !#[trigger] admits(g, h, c, allowed) by {
            if admits(g, h, c, allowed) {
                lemma_propagation_exists(g, c, allowed, h);
            }
        }
    }
}

/// What `spreading` is stated about: square `c` of `g` has several
/// candidates, and `a` keeps exactly one of them.
pub open spec fn spreading_from(g: Board, c: int, a: Set<int>) -> bool {
    &&& board_wf(g)
    &&& 0 <= c < 81
    &&& a.subset_of(g[c])
    &&& a.len() == 1
    &&& g[c].len() != 1
}

/// The state of a board `b` while the value of square `c`, which the
/// restriction of `g` to `a` has just made known, is removed from its peers
/// `ps`: the first `k` of them are done.
pub open spec fn spreading(g: Board, c: int, a: Set<int>, ps: Seq<int>, k: int, b: Board) -> bool {
    &&& refines(b, g.update(c, a))
    &&& keeps_nonempty(g, b)
    &&& forall|l: int| 0 <= l < k ==> b[c].disjoint(b[#[trigger] ps[l]])
    &&& forall|i: int, j: int|
        #[trigger] are_peers(i, j) && i != c && g[i].len() != 1 && b[i].len() == 1
            ==> b[i].disjoint(b[j])
    &&& forall|h: Board| #[trigger] admits(g, h, c, a) ==> refines(h, b)
}

/// While a value spreads, the board refines the one it started from, has
/// fewer candidates, and square `c` holds exactly `a`.
pub proof fn lemma_spreading_facts(g: Board, c: int, a: Set<int>, ps: Seq<int>, k: int, b: Board)
    requires
        spreading_from(g, c, a),
        spreading(g, c, a, ps, k, b),
    ensures
        board_wf(b),
        refines(b, g),
        b[c] == a,
        total(b) < total(g),
{
    let b1 = g.update(c, a);
    assert(refines(b1, g));
    lemma_refines_trans(g, b1, b);
    lemma_refines_wf(b, g);
    lemma_len_subset(a, g[c]);
    assert(b[c].subset_of(b1[c]));
    lemma_known_subset(b[c], a);
    lemma_total_lt(b, g, c);
}

/// Spreading starts from the board in which square `c` has been restricted.
pub proof fn lemma_spreading_init(g: Board, c: int, a: Set<int>, ps: Seq<int>)
    requires
        spreading_from(g, c, a),
    ensures
        spreading(g, c, a, ps, 0, g.update(c, a)),
{
    let b = g.update(c, a);
    assert(refines(b, b));
    assert(keeps_nonempty(g, b));
    assert forall|i: int, j: int|
        #[trigger] are_peers(i, j) && i != c && g[i].len() != 1 && b[i].len()
            == 1 implies b[i].disjoint(b[j]) by {}
    assert forall|h: Board| #[trigger] admits(g, h, c, a) implies refines(h, b) by {
        assert forall|i: int| 0 <= i < b.len() implies (#[trigger] h[i]).subset_of(b[i]) by {
            assert(h[i].subset_of(g[i]));
        }
    }
}

/// Whatever `g` admits under the restriction of `c` to `a` is also admitted
/// by the spreading board when the value `w` of `c` is taken from its peer `p`.
pub proof fn lemma_spreading_admits(
    g: Board,
    c: int,
    a: Set<int>,
    ps: Seq<int>,
    k: int,
    b: Board,
    p: int,
    w: int,
    h: Board,
)
    requires
        spreading_from(g, c, a),
        spreading(g, c, a, ps, k, b),
        are_peers(c, p),
        a.contains(w),
        admits(g, h, c, a),
    ensures
        admits(b, h, p, b[p].remove(w)),
{
    lemma_spreading_facts(g, c, a, ps, k, b);
    assert(refines(h, b));
    lemma_consistent_rebase(g, b, h);
    lemma_len_subset(a, g[c]);
    assert(h[c].len() > 0);
    lemma_known_subset(h[c], a);
    assert(h[c].disjoint(h[p]));
    assert(h[c].contains(w));
    assert(h[p].subset_of(b[p]));
    assert(h[p].subset_of(b[p].remove(w)));
}

/// One more peer is done: the value `w` of square `c` has been propagated
/// out of its peer `ps[k]`.
pub proof fn lemma_spreading_step(
    g: Board,
    c: int,
    a: Set<int>,
    ps: Seq<int>,
    k: int,
    b: Board,
    w: int,
    b2: Board,
)
    requires
        spreading_from(g, c, a),
        spreading(g, c, a, ps, k, b),
        0 <= k < ps.len(),
        forall|l: int| 0 <= l < ps.len() ==> are_peers(c, #[trigger] ps[l]),
        a.contains(w),
        is_propagation(b, b2, ps[k], b[ps[k]].remove(w)),
    ensures
        spreading(g, c, a, ps, k + 1, b2),
{
    let p = ps[k];
    let b1 = g.update(c, a);
    lemma_spreading_facts(g, c, a, ps, k, b);
    lemma_refines_trans(b1, b, b2);
    lemma_refines_wf(b2, b);
    assert(keeps_nonempty(g, b2)) by {
        assert forall|i: int| 0 <= i < g.len() && g[i].len() > 0 implies (#[trigger] b2[i]).len()
            > 0 by {
            assert(b[i].len() > 0);
        }
    }
    lemma_len_subset(a, g[c]);
    assert(b2[c].subset_of(b1[c]));
    lemma_known_subset(b2[c], a);
    assert forall|l: int| 0 <= l < k + 1 implies b2[c].disjoint(b2[#[trigger] ps[l]]) by {
        if l < k {
            assert(b[c].disjoint(b[ps[l]]));
            assert(are_peers(c, p));
            assert(are_peers(c, ps[l]));
            assert(b2[ps[l]].subset_of(b[ps[l]]));
        } else {
            assert(b2[p].subset_of(b[p].remove(w)));
            assert forall|d: int| b2[c].contains(d) implies !b2[p].contains(d) by {
                lemma_known_value(a, w, d);
            }
        }
    }
    assert forall|i: int, j: int|
        #[trigger] are_peers(i, j) && i != c && g[i].len() != 1 && b2[i].len()
            == 1 implies b2[i].disjoint(b2[j]) by {
        assert(b2[i].subset_of(b[i]));
        assert(b2[j].subset_of(b[j]));
        if b[i].len() == 1 {
            assert(b[i].disjoint(b[j]));
        }
    }
    assert forall|h: Board| #[trigger] admits(g, h, c, a) implies refines(h, b2) by {
        lemma_spreading_admits(g, c, a, ps, k, b, p, w, h);
    }
}

/// Removing the value of square `c` from a peer failed: then the
/// restriction of `c` to `a` cannot be met at all.
pub proof fn lemma_spreading_fails(
    g: Board,
    c: int,
    a: Set<int>,
    ps: Seq<int>,
    k: int,
    b: Board,
    p: int,
    w: int,
)
    requires
        spreading_from(g, c, a),
        spreading(g, c, a, ps, k, b),
        are_peers(c, p),
        a.contains(w),
        no_propagation(b, p, b[p].remove(w)),
    ensures
        no_propagation(g, c, a),
{
    assert forall|h: Board| !#[trigger] admits(g, h, c, a) by {
        if admits(g, h, c, a) {
            lemma_spreading_admits(g, c, a, ps, k, b, p, w, h);
        }
    }
}

/// Once the value has been removed from every peer, the board is the
/// propagation of the restriction.
pub proof fn lemma_spreading_done(g: Board, c: int, a: Set<int>, ps: Seq<int>, b: Board)
    requires
        spreading_from(g, c, a),
        spreading(g, c, a, ps, ps.len() as int, b),
        forall|j: int| are_peers(c, j) ==> ps.contains(j),
    ensures
        is_propagation(g, b, c, a),
{
    lemma_spreading_facts(g, c, a, ps, ps.len() as int, b);
    assert forall|i: int, j: int|
        #[trigger] are_peers(i, j) && g[i].len() != 1 && b[i].len() == 1 implies b[i].disjoint(
        b[j],
    ) by {
        if i == c {
            assert(ps.contains(j));
            let l = choose|l: int| 0 <= l < ps.len() && ps[l] == j;
            assert(b[c].disjoint(b[ps[l]]));
        }
    }
}

} // verus!
