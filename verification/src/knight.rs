//! The mathematical model of knight moves and knight paths.
//!
//! Everything here is specification and proof: squares, the knight-move
//! relation, paths, reachability, and shortest distances, together with
//! the general laws the search in `crate::graph` is proved against.

use vstd::prelude::*;

verus! {

/// A chess position `(x, y)`, compared by value.
pub type ChessPos = (isize, isize);

/// A square lies on a `w` by `h` board when both coordinates are between
/// 1 and the corresponding dimension, inclusive.
pub open spec fn on_board(w: int, h: int, p: ChessPos) -> bool {
    1 <= p.0 && p.0 <= w && 1 <= p.1 && p.1 <= h
}

/// Two squares are one knight move apart when their coordinates differ
/// by one of the eight offsets (±1, ±2) and (±2, ±1).
pub open spec fn knight_jump(a: ChessPos, b: ChessPos) -> bool {
    let dx: int = b.0 - a.0;
    let dy: int = b.1 - a.1;
    ||| (dx == 1 || dx == -1) && (dy == 2 || dy == -2)
    ||| (dx == 2 || dx == -2) && (dy == 1 || dy == -1)
}

/// A non-empty sequence of on-board squares in which each consecutive
/// pair is one knight move apart.
pub open spec fn is_knight_path(w: int, h: int, p: Seq<ChessPos>) -> bool {
    &&& p.len() >= 1
    &&& (forall|i: int| 0 <= i < p.len() ==> on_board(w, h, #[trigger] p[i]))
    &&& (forall|i: int| 0 <= i < p.len() - 1 ==> knight_jump(#[trigger] p[i], p[i + 1]))
}

/// `p` is a knight path that starts at `a` and ends at `b`.
pub open spec fn connects(w: int, h: int, p: Seq<ChessPos>, a: ChessPos, b: ChessPos) -> bool {
    &&& is_knight_path(w, h, p)
    &&& p[0] == a
    &&& p[p.len() - 1] == b
}

/// Some knight path joins `a` to `b` in exactly `n` moves.
pub open spec fn has_kpath(w: int, h: int, a: ChessPos, b: ChessPos, n: nat) -> bool {
    exists|p: Seq<ChessPos>| #[trigger] connects(w, h, p, a, b) && p.len() == n + 1
}

/// Some knight path joins `a` to `b`.
pub open spec fn reachable(w: int, h: int, a: ChessPos, b: ChessPos) -> bool {
    exists|n: nat| has_kpath(w, h, a, b, n)
}

/// `d` is the length, in knight moves, of a shortest knight path from
/// `a` to `b`.
pub open spec fn is_shortest(w: int, h: int, a: ChessPos, b: ChessPos, d: nat) -> bool {
    &&& has_kpath(w, h, a, b, d)
    &&& (forall|m: nat| m < d ==> !has_kpath(w, h, a, b, m))
}

/// A set of squares that no single knight move leaves.
pub open spec fn knight_closed(w: int, h: int, s: Set<ChessPos>) -> bool {
    forall|u: ChessPos, v: ChessPos|
        s.contains(u) && on_board(w, h, v) && #[trigger] knight_jump(u, v) ==> s.contains(v)
}

/// The one-square sequence holding the knight-move candidate reached
/// from `pos` by the offset `(dx, dy)`, or the empty sequence when that
/// candidate falls off the board.
pub open spec fn cand_seq(w: int, h: int, pos: ChessPos, dx: int, dy: int) -> Seq<ChessPos> {
    let x: int = pos.0 + dx;
    let y: int = pos.1 + dy;
    if 1 <= x && x <= w && 1 <= y && y <= h {
        seq![(x as isize, y as isize)]
    } else {
        Seq::empty()
    }
}

/// The in-bounds knight moves from `pos`, with the eight candidate
/// offsets taken in a fixed order and the off-board ones filtered out.
pub open spec fn next_moves_spec(w: int, h: int, pos: ChessPos) -> Seq<ChessPos> {
    cand_seq(w, h, pos, -1, -2) + cand_seq(w, h, pos, -1, 2) + cand_seq(w, h, pos, 1, -2)
        + cand_seq(w, h, pos, 1, 2) + cand_seq(w, h, pos, -2, -1) + cand_seq(w, h, pos, -2, 1)
        + cand_seq(w, h, pos, 2, -1) + cand_seq(w, h, pos, 2, 1)
}

/// A square alone is a knight path of zero moves.
pub proof fn lemma_kpath_refl(w: int, h: int, a: ChessPos)
    requires
        on_board(w, h, a),
    ensures
        has_kpath(w, h, a, a, 0),
{
    let p = seq![a];
    assert(p[0] == a);
    assert(connects(w, h, p, a, a));
}

/// A zero-move knight path joins a square only to itself.
pub proof fn lemma_kpath_zero(w: int, h: int, a: ChessPos, b: ChessPos)
    requires
        has_kpath(w, h, a, b, 0),
    ensures
        a == b,
{
    let p = choose|p: Seq<ChessPos>| #[trigger] connects(w, h, p, a, b) && p.len() == 0 + 1;
    assert(p[0] == p[p.len() - 1]);
}

/// A knight path extends by one move to any on-board knight neighbour
/// of its last square.
pub proof fn lemma_kpath_extend(w: int, h: int, a: ChessPos, b: ChessPos, c: ChessPos, n: nat)
    requires
        has_kpath(w, h, a, b, n),
        on_board(w, h, c),
        knight_jump(b, c),
    ensures
        has_kpath(w, h, a, c, n + 1),
{
    let p = choose|p: Seq<ChessPos>| #[trigger] connects(w, h, p, a, b) && p.len() == n + 1;
    let q = p.push(c);
    assert forall|i: int| 0 <= i < q.len() implies on_board(w, h, #[trigger] q[i]) by {
        if i < p.len() {
            assert(q[i] == p[i]);
        } else {
            assert(q[i] == c);
        }
    }
    assert forall|i: int| 0 <= i < q.len() - 1 implies knight_jump(#[trigger] q[i], q[i + 1]) by {
        if i < p.len() - 1 {
            assert(q[i] == p[i]);
            assert(q[i + 1] == p[i + 1]);
        } else {
            assert(q[i] == p[p.len() - 1]);
            assert(q[i + 1] == c);
        }
    }
    assert(q[0] == p[0]);
    assert(q[q.len() - 1] == c);
    assert(connects(w, h, q, a, c) && q.len() == (n + 1) + 1);
}

/// Each prefix of a knight path is a knight path to the square where
/// the prefix stops.
pub proof fn lemma_kpath_prefix(
    w: int,
    h: int,
    p: Seq<ChessPos>,
    a: ChessPos,
    b: ChessPos,
    j: int,
)
    requires
        connects(w, h, p, a, b),
        0 <= j < p.len(),
    ensures
        has_kpath(w, h, a, p[j], j as nat),
{
    let q = p.subrange(0, j + 1);
    assert forall|i: int| 0 <= i < q.len() implies on_board(w, h, #[trigger] q[i]) by {
        assert(q[i] == p[i]);
    }
    assert forall|i: int| 0 <= i < q.len() - 1 implies knight_jump(#[trigger] q[i], q[i + 1]) by {
        assert(q[i] == p[i]);
        assert(q[i + 1] == p[i + 1]);
    }
    assert(q[0] == a);
    assert(q[q.len() - 1] == p[j]);
    assert(connects(w, h, q, a, p[j]) && q.len() == (j as nat) + 1);
}

/// Knight paths reverse: a path from `a` to `b` read backwards is a
/// path from `b` to `a` of the same length.
pub proof fn lemma_kpath_symmetric(w: int, h: int, a: ChessPos, b: ChessPos, n: nat)
    requires
        has_kpath(w, h, a, b, n),
    ensures
        has_kpath(w, h, b, a, n),
{
    let p = choose|p: Seq<ChessPos>| #[trigger] connects(w, h, p, a, b) && p.len() == n + 1;
    let len: int = p.len() as int;
    let q = Seq::new(p.len(), |i: int| p[len - 1 - i]);
    assert forall|i: int| 0 <= i < q.len() implies on_board(w, h, #[trigger] q[i]) by {
        assert(q[i] == p[len - 1 - i]);
    }
    assert forall|i: int| 0 <= i < q.len() - 1 implies knight_jump(#[trigger] q[i], q[i + 1]) by {
        let j: int = len - 2 - i;
        assert(knight_jump(p[j], p[j + 1]));
        assert(q[i] == p[j + 1]);
        assert(q[i + 1] == p[j]);
    }
    assert(q[0] == b);
    assert(q[q.len() - 1] == a);
    assert(connects(w, h, q, b, a) && q.len() == n + 1);
}

/// Law: reachability between two squares does not depend on which of
/// them the knight starts from.
pub proof fn lemma_reachable_symmetric(w: int, h: int, a: ChessPos, b: ChessPos)
    requires
        reachable(w, h, a, b),
    ensures
        reachable(w, h, b, a),
{
    let n = choose|n: nat| has_kpath(w, h, a, b, n);
    lemma_kpath_symmetric(w, h, a, b, n);
}

/// Law: the shortest knight distance is symmetric; searching from `a`
/// to `b` and from `b` to `a` yields the same number of moves.
pub proof fn lemma_distance_symmetric(w: int, h: int, a: ChessPos, b: ChessPos, d1: nat, d2: nat)
    requires
        is_shortest(w, h, a, b, d1),
        is_shortest(w, h, b, a, d2),
    ensures
        d1 == d2,
{
    lemma_kpath_symmetric(w, h, a, b, d1);
    lemma_kpath_symmetric(w, h, b, a, d2);
    assert(!(d1 < d2) && !(d2 < d1));
}

/// Law: from any on-board square to itself the shortest distance is
/// zero, and zero is shortest only from a square to itself.
pub proof fn lemma_zero_distance(w: int, h: int, a: ChessPos)
    requires
        on_board(w, h, a),
    ensures
        is_shortest(w, h, a, a, 0),
        forall|d: nat| is_shortest(w, h, a, a, d) ==> d == 0,
{
    lemma_kpath_refl(w, h, a);
    assert forall|d: nat| is_shortest(w, h, a, a, d) implies d == 0 by {
        if d > 0 {
            assert(!has_kpath(w, h, a, a, 0));
        }
    }
}

/// Law: a zero-move path from a square to itself is that square alone.
pub proof fn lemma_zero_distance_path(w: int, h: int, a: ChessPos, p: Seq<ChessPos>)
    requires
        connects(w, h, p, a, a),
        p.len() == 1,
    ensures
        p == seq![a],
{
    assert(p =~= seq![a]);
}

/// A knight path that starts inside a knight-closed set ends inside it.
pub proof fn lemma_closed_set_path(
    w: int,
    h: int,
    s: Set<ChessPos>,
    p: Seq<ChessPos>,
    a: ChessPos,
    b: ChessPos,
)
    requires
        connects(w, h, p, a, b),
        knight_closed(w, h, s),
        s.contains(a),
    ensures
        s.contains(b),
    decreases p.len(),
{
    if p.len() == 1 {
        assert(p[0] == p[p.len() - 1]);
    } else {
        assert(knight_jump(p[0], p[1]));
        assert(on_board(w, h, p[1]));
        assert(s.contains(p[1]));
        let q = p.subrange(1, p.len() as int);
        assert forall|i: int| 0 <= i < q.len() implies on_board(w, h, #[trigger] q[i]) by {
            assert(q[i] == p[i + 1]);
        }
        assert forall|i: int| 0 <= i < q.len() - 1 implies knight_jump(
            #[trigger] q[i],
            q[i + 1],
        ) by {
            assert(q[i] == p[i + 1]);
            assert(q[i + 1] == p[i + 2]);
        }
        assert(q[q.len() - 1] == p[p.len() - 1]);
        assert(connects(w, h, q, p[1], b));
        lemma_closed_set_path(w, h, s, q, p[1], b);
    }
}

/// No square outside a knight-closed set is reachable from inside it.
pub proof fn lemma_closed_set_unreachable(
    w: int,
    h: int,
    s: Set<ChessPos>,
    a: ChessPos,
    b: ChessPos,
)
    requires
        knight_closed(w, h, s),
        s.contains(a),
        !s.contains(b),
    ensures
        !reachable(w, h, a, b),
{
    if reachable(w, h, a, b) {
        let n = choose|n: nat| has_kpath(w, h, a, b, n);
        let p = choose|p: Seq<ChessPos>| #[trigger] connects(w, h, p, a, b) && p.len() == n + 1;
        lemma_closed_set_path(w, h, s, p, a, b);
    }
}

/// On a knight path that starts inside `s` and ends outside, some first
/// square lies outside `s`; the returned index points at it.
pub proof fn lemma_first_exit(
    w: int,
    h: int,
    s: Set<ChessPos>,
    p: Seq<ChessPos>,
    a: ChessPos,
    b: ChessPos,
) -> (j: int)
    requires
        connects(w, h, p, a, b),
        s.contains(a),
        !s.contains(b),
    ensures
        1 <= j < p.len(),
        !s.contains(p[j]),
        s.contains(p[j - 1]),
        forall|i: int| 0 <= i < j ==> s.contains(#[trigger] p[i]),
    decreases p.len(),
{
    assert(p[0] == a);
    assert(p.len() >= 2) by {
        if p.len() == 1 {
            assert(p[0] == p[p.len() - 1]);
        }
    }
    if !s.contains(p[1]) {
        1
    } else {
        let q = p.subrange(1, p.len() as int);
        assert forall|i: int| 0 <= i < q.len() implies on_board(w, h, #[trigger] q[i]) by {
            assert(q[i] == p[i + 1]);
        }
        assert forall|i: int| 0 <= i < q.len() - 1 implies knight_jump(
            #[trigger] q[i],
            q[i + 1],
        ) by {
            assert(q[i] == p[i + 1]);
            assert(q[i + 1] == p[i + 2]);
        }
        assert(q[q.len() - 1] == p[p.len() - 1]);
        assert(connects(w, h, q, p[1], b));
        let j1 = lemma_first_exit(w, h, s, q, p[1], b);
        assert(q[j1] == p[j1 + 1]);
        assert(q[j1 - 1] == p[j1]);
        assert forall|i: int| 0 <= i < j1 + 1 implies s.contains(#[trigger] p[i]) by {
            if i > 0 {
                assert(q[i - 1] == p[i]);
            }
        }
        j1 + 1
    }
}

/// Membership in one concatenation step, both ways.
proof fn lemma_concat_contains_all<A>(a: Seq<A>, b: Seq<A>)
    ensures
        forall|x: A|
            #![trigger (a + b).contains(x)]
            #![trigger a.contains(x)]
            #![trigger b.contains(x)]
            (a + b).contains(x) <==> (a.contains(x) || b.contains(x)),
{
    assert forall|x: A|
        (a + b).contains(x) <==> (a.contains(x) || b.contains(x)) by {
        if (a + b).contains(x) {
            let i = choose|i: int| 0 <= i < (a + b).len() && (a + b)[i] == x;
            if i < a.len() {
                assert(a[i] == x);
            } else {
                assert(b[i - a.len()] == x);
            }
        }
        if a.contains(x) {
            let i = choose|i: int| 0 <= i < a.len() && a[i] == x;
            assert((a + b)[i] == x);
        }
        if b.contains(x) {
            let i = choose|i: int| 0 <= i < b.len() && b[i] == x;
            assert((a + b)[a.len() + i] == x);
        }
    }
}

/// Concatenating duplicate-free sequences with no element in common
/// yields a duplicate-free sequence.
proof fn lemma_concat_no_duplicates<A>(a: Seq<A>, b: Seq<A>)
    requires
        a.no_duplicates(),
        b.no_duplicates(),
        forall|x: A| a.contains(x) ==> !b.contains(x),
    ensures
        (a + b).no_duplicates(),
{
    assert forall|i: int, j: int|
        0 <= i < (a + b).len() && 0 <= j < (a + b).len() && i != j implies (a + b)[i] != (
    a + b)[j] by {
        if i < a.len() && j < a.len() {
            assert((a + b)[i] == a[i] && (a + b)[j] == a[j]);
        } else if i < a.len() && j >= a.len() {
            assert((a + b)[i] == a[i] && (a + b)[j] == b[j - a.len()]);
            if a[i] == b[j - a.len()] {
                assert(a.contains(a[i]));
                assert(b.contains(b[j - a.len()]));
            }
        } else if i >= a.len() && j < a.len() {
            assert((a + b)[i] == b[i - a.len()] && (a + b)[j] == a[j]);
            if a[j] == b[i - a.len()] {
                assert(a.contains(a[j]));
                assert(b.contains(b[i - a.len()]));
            }
        } else {
            assert((a + b)[i] == b[i - a.len()] && (a + b)[j] == b[j - a.len()]);
        }
    }
}

/// What a member of one candidate sequence is: the square offset from
/// `pos` by exactly `(dx, dy)`, lying on the board.
proof fn lemma_cand_member(w: int, h: int, pos: ChessPos, dx: int, dy: int, x: ChessPos)
    requires
        w <= isize::MAX as int,
        h <= isize::MAX as int,
        cand_seq(w, h, pos, dx, dy).contains(x),
    ensures
        x.0 == pos.0 + dx,
        x.1 == pos.1 + dy,
        on_board(w, h, x),
{
    let c = cand_seq(w, h, pos, dx, dy);
    let i = choose|i: int| 0 <= i < c.len() && c[i] == x;
    assert(i == 0);
}

/// Law: the move generator is exact.  Every listed square is an
/// on-board knight move from `pos`; every on-board knight move from
/// `pos` is listed; and no square is listed twice.
pub proof fn lemma_next_moves_exact(w: int, h: int, pos: ChessPos)
    requires
        w <= isize::MAX as int,
        h <= isize::MAX as int,
    ensures
        forall|q: ChessPos| #[trigger]
            next_moves_spec(w, h, pos).contains(q) ==> on_board(w, h, q) && knight_jump(pos, q),
        forall|q: ChessPos|
            on_board(w, h, q) && #[trigger] knight_jump(pos, q) ==> next_moves_spec(
                w,
                h,
                pos,
            ).contains(q),
        next_moves_spec(w, h, pos).no_duplicates(),
{
    let c1 = cand_seq(w, h, pos, -1, -2);
    let c2 = cand_seq(w, h, pos, -1, 2);
    let c3 = cand_seq(w, h, pos, 1, -2);
    let c4 = cand_seq(w, h, pos, 1, 2);
    let c5 = cand_seq(w, h, pos, -2, -1);
    let c6 = cand_seq(w, h, pos, -2, 1);
    let c7 = cand_seq(w, h, pos, 2, -1);
    let c8 = cand_seq(w, h, pos, 2, 1);
    let t2 = c1 + c2;
    let t3 = t2 + c3;
    let t4 = t3 + c4;
    let t5 = t4 + c5;
    let t6 = t5 + c6;
    let t7 = t6 + c7;
    let s = t7 + c8;
    assert(s == next_moves_spec(w, h, pos));
    lemma_concat_contains_all(c1, c2);
    lemma_concat_contains_all(t2, c3);
    lemma_concat_contains_all(t3, c4);
    lemma_concat_contains_all(t4, c5);
    lemma_concat_contains_all(t5, c6);
    lemma_concat_contains_all(t6, c7);
    lemma_concat_contains_all(t7, c8);

    // Soundness: every member of `s` comes from one of the eight candidates.
    assert forall|q: ChessPos| #[trigger]
        s.contains(q) implies on_board(w, h, q) && knight_jump(pos, q) by {
        if c1.contains(q) {
            lemma_cand_member(w, h, pos, -1, -2, q);
        } else if c2.contains(q) {
            lemma_cand_member(w, h, pos, -1, 2, q);
        } else if c3.contains(q) {
            lemma_cand_member(w, h, pos, 1, -2, q);
        } else if c4.contains(q) {
            lemma_cand_member(w, h, pos, 1, 2, q);
        } else if c5.contains(q) {
            lemma_cand_member(w, h, pos, -2, -1, q);
        } else if c6.contains(q) {
            lemma_cand_member(w, h, pos, -2, 1, q);
        } else if c7.contains(q) {
            lemma_cand_member(w, h, pos, 2, -1, q);
        } else {
            assert(c8.contains(q));
            lemma_cand_member(w, h, pos, 2, 1, q);
        }
    }

    // Completeness: each on-board knight move from `pos` is some candidate.
    assert forall|q: ChessPos|
        on_board(w, h, q) && #[trigger] knight_jump(pos, q) implies s.contains(q) by {
        let dx: int = q.0 - pos.0;
        let dy: int = q.1 - pos.1;
        let c = cand_seq(w, h, pos, dx, dy);
        assert(c == seq![(q.0, q.1)]);
        assert(c[0] == q);
        assert(c.contains(q));
        assert(c == c1 || c == c2 || c == c3 || c == c4 || c == c5 || c == c6 || c == c7
            || c == c8);
    }

    // No duplicates: different offsets land on different squares.
    assert(c1.no_duplicates());
    assert(c2.no_duplicates());
    assert(c3.no_duplicates());
    assert(c4.no_duplicates());
    assert(c5.no_duplicates());
    assert(c6.no_duplicates());
    assert(c7.no_duplicates());
    assert(c8.no_duplicates());
    assert forall|x: ChessPos| t2.contains(x) implies (x.0 == pos.0 - 1 && (x.1 == pos.1 - 2 || x.1
        == pos.1 + 2)) by {
        if c1.contains(x) {
            lemma_cand_member(w, h, pos, -1, -2, x);
        } else {
            lemma_cand_member(w, h, pos, -1, 2, x);
        }
    }
    assert forall|x: ChessPos| c1.contains(x) implies !c2.contains(x) by {
        if c1.contains(x) && c2.contains(x) {
            lemma_cand_member(w, h, pos, -1, -2, x);
            lemma_cand_member(w, h, pos, -1, 2, x);
        }
    }
    lemma_concat_no_duplicates(c1, c2);
    assert forall|x: ChessPos| t2.contains(x) implies !c3.contains(x) by {
        if c3.contains(x) {
            lemma_cand_member(w, h, pos, 1, -2, x);
        }
    }
    lemma_concat_no_duplicates(t2, c3);
    assert forall|x: ChessPos| t3.contains(x) implies (x.0 == pos.0 - 1 || (x.0 == pos.0 + 1 && x.1
        == pos.1 - 2)) by {
        if c3.contains(x) {
            lemma_cand_member(w, h, pos, 1, -2, x);
        }
    }
    assert forall|x: ChessPos| t3.contains(x) implies !c4.contains(x) by {
        if c4.contains(x) {
            lemma_cand_member(w, h, pos, 1, 2, x);
        }
    }
    lemma_concat_no_duplicates(t3, c4);
    assert forall|x: ChessPos| t4.contains(x) implies (x.0 == pos.0 - 1 || x.0 == pos.0 + 1) by {
        if c4.contains(x) {
            lemma_cand_member(w, h, pos, 1, 2, x);
        }
    }
    assert forall|x: ChessPos| t4.contains(x) implies !c5.contains(x) by {
        if c5.contains(x) {
            lemma_cand_member(w, h, pos, -2, -1, x);
        }
    }
    lemma_concat_no_duplicates(t4, c5);
    assert forall|x: ChessPos| t5.contains(x) implies (x.0 == pos.0 - 1 || x.0 == pos.0 + 1 || (x.0
        == pos.0 - 2 && x.1 == pos.1 - 1)) by {
        if c5.contains(x) {
            lemma_cand_member(w, h, pos, -2, -1, x);
        }
    }
    assert forall|x: ChessPos| t5.contains(x) implies !c6.contains(x) by {
        if c6.contains(x) {
            lemma_cand_member(w, h, pos, -2, 1, x);
        }
    }
    lemma_concat_no_duplicates(t5, c6);
    assert forall|x: ChessPos| t6.contains(x) implies (x.0 == pos.0 - 1 || x.0 == pos.0 + 1 || x.0
        == pos.0 - 2) by {
        if c6.contains(x) {
            lemma_cand_member(w, h, pos, -2, 1, x);
        }
    }
    assert forall|x: ChessPos| t6.contains(x) implies !c7.contains(x) by {
        if c7.contains(x) {
            lemma_cand_member(w, h, pos, 2, -1, x);
        }
    }
    lemma_concat_no_duplicates(t6, c7);
    assert forall|x: ChessPos| t7.contains(x) implies (x.0 == pos.0 - 1 || x.0 == pos.0 + 1 || x.0
        == pos.0 - 2 || (x.0 == pos.0 + 2 && x.1 == pos.1 - 1)) by {
        if c7.contains(x) {
            lemma_cand_member(w, h, pos, 2, -1, x);
        }
    }
    assert forall|x: ChessPos| t7.contains(x) implies !c8.contains(x) by {
        if c8.contains(x) {
            lemma_cand_member(w, h, pos, 2, 1, x);
        }
    }
    lemma_concat_no_duplicates(t7, c8);
}

} // verus!
