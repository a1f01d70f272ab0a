//! The board and the verified breadth-first knight search.

use vstd::prelude::*;

verus! {

use crate::knight::{
    on_board, knight_jump, connects, has_kpath, reachable, is_shortest, knight_closed,
    cand_seq, next_moves_spec, lemma_kpath_zero, lemma_kpath_extend, lemma_kpath_prefix,
    lemma_zero_distance, lemma_zero_distance_path, lemma_kpath_symmetric,
    lemma_distance_symmetric, lemma_closed_set_unreachable, lemma_first_exit,
    lemma_next_moves_exact,
};

pub use crate::knight::ChessPos;

/// The row-major slot of square `p` in a table with one slot per square
/// of a board `w` squares wide.
spec fn sq_idx(w: int, p: ChessPos) -> int {
    (p.1 - 1) * w + (p.0 - 1)
}

proof fn lemma_sq_idx_bounds(w: int, h: int, p: ChessPos)
    requires
        on_board(w, h, p),
    ensures
        0 <= sq_idx(w, p) < w * h,
{
    assert(0 <= (p.1 - 1) * w + (p.0 - 1) < w * h) by (nonlinear_arith)
        requires
            1 <= p.0 <= w,
            1 <= p.1 <= h,
    ;
}

proof fn lemma_sq_idx_injective(w: int, h: int, p: ChessPos, q: ChessPos)
    requires
        on_board(w, h, p),
        on_board(w, h, q),
        sq_idx(w, p) == sq_idx(w, q),
    ensures
        p == q,
{
    assert(p.0 == q.0 && p.1 == q.1) by (nonlinear_arith)
        requires
            1 <= p.0 <= w,
            1 <= q.0 <= w,
            1 <= p.1,
            1 <= q.1,
            (p.1 - 1) * w + (p.0 - 1) == (q.1 - 1) * w + (q.0 - 1),
    ;
}

/// A record of one reached square: its parent on a shortest path and
/// its distance from the start, in moves.
type VisitRecord = (ChessPos, usize);

/// How many slots of a visited table are filled.
spec fn num_some(s: Seq<Option<VisitRecord>>) -> int
    decreases s.len(),
{
    if s.len() == 0 {
        0
    } else {
        num_some(s.drop_last()) + (if s.last() is Some {
            1int
        } else {
            0int
        })
    }
}

proof fn lemma_num_some_bounds(s: Seq<Option<VisitRecord>>)
    ensures
        0 <= num_some(s) <= s.len(),
    decreases s.len(),
{
    if s.len() > 0 {
        lemma_num_some_bounds(s.drop_last());
    }
}

proof fn lemma_num_some_all_none(s: Seq<Option<VisitRecord>>)
    requires
        forall|i: int| 0 <= i < s.len() ==> s[i] is None,
    ensures
        num_some(s) == 0,
    decreases s.len(),
{
    if s.len() > 0 {
        assert(s.last() is None);
        lemma_num_some_all_none(s.drop_last());
    }
}

proof fn lemma_num_some_update(s: Seq<Option<VisitRecord>>, i: int, v: Option<VisitRecord>)
    requires
        0 <= i < s.len(),
        s[i] is None,
        v is Some,
    ensures
        num_some(s.update(i, v)) == num_some(s) + 1,
    decreases s.len(),
{
    if i == s.len() - 1 {
        assert(s.update(i, v).drop_last() =~= s.drop_last());
        assert(s.update(i, v).last() == v);
    } else {
        assert(s.update(i, v).drop_last() =~= s.drop_last().update(i, v));
        lemma_num_some_update(s.drop_last(), i, v);
        assert(s.update(i, v).last() == s.last());
    }
}

/// A rectangular chess board, given by its dimensions.  A square `(x, y)`
/// is valid on it when `1 <= x <= width` and `1 <= y <= height`; a board
/// with a dimension below 1 simply has no valid squares.
#[derive(Clone, Copy, Debug, Default)]
pub struct ChessBoard {
    pub width: isize,
    pub height: isize,
}

impl ChessBoard {
    /// The board width as a mathematical integer.
    pub open spec fn w(self) -> int {
        self.width as int
    }

    /// The board height as a mathematical integer.
    pub open spec fn h(self) -> int {
        self.height as int
    }

    /// The square `p` is valid on this board.
    pub open spec fn on(self, p: ChessPos) -> bool {
        on_board(self.w(), self.h(), p)
    }

    /// The board is small enough for a table with one slot per square.
    pub open spec fn area_fits(self) -> bool {
        0 < self.width && 0 < self.height ==> self.width * self.height <= usize::MAX
    }

    /// Initializes a new board with the given dimensions.
    pub fn new(width: isize, height: isize) -> (board: Self)
        ensures
            board.width == width,
            board.height == height,
    {
        ChessBoard { width, height }
    }

    /// Return true if `m` is a valid position on the board.
    pub fn is_valid(&self, m: &ChessPos) -> (r: bool)
        ensures
            r == self.on(*m),
    {
        m.0 > 0 && m.1 > 0 && m.0 <= self.width && m.1 <= self.height
    }

    /// The table slot of a valid square, computed without overflow.
    fn index_of(&self, p: ChessPos) -> (i: usize)
        requires
            self.on(p),
            self.area_fits(),
        ensures
            i as int == sq_idx(self.w(), p),
            i < self.w() * self.h(),
    {
        proof {
            lemma_sq_idx_bounds(self.w(), self.h(), p);
        }
        let x: usize = (p.0 - 1) as usize;
        let y: usize = (p.1 - 1) as usize;
        y * (self.width as usize) + x
    }

    /// Push the square offset from `pos` by `(dx, dy)` onto `r`, when
    /// that square is valid on the board.
    fn push_move(&self, r: &mut Vec<ChessPos>, pos: ChessPos, dx: isize, dy: isize)
        requires
            -2 <= dx <= 2,
            -2 <= dy <= 2,
        ensures
            final(r)@ == old(r)@ + cand_seq(self.w(), self.h(), pos, dx as int, dy as int),
    {
        let x: i128 = pos.0 as i128 + dx as i128;
        let y: i128 = pos.1 as i128 + dy as i128;
        if 1 <= x && x <= self.width as i128 && 1 <= y && y <= self.height as i128 {
            r.push((x as isize, y as isize));
            proof {
                assert(r@ =~= old(r)@ + cand_seq(self.w(), self.h(), pos, dx as int, dy as int));
            }
        } else {
            proof {
                assert(r@ =~= old(r)@ + cand_seq(self.w(), self.h(), pos, dx as int, dy as int));
            }
        }
    }

    /// Return the valid moves from `pos` for this board: the knight's
    /// eight candidate offsets in a fixed order, filtered to the board.
    pub fn next_moves(&self, pos: ChessPos) -> (r: Vec<ChessPos>)
        ensures
            r@ == next_moves_spec(self.w(), self.h(), pos),
    {
        let mut r: Vec<ChessPos> = Vec::new();
        self.push_move(&mut r, pos, -1, -2);
        self.push_move(&mut r, pos, -1, 2);
        self.push_move(&mut r, pos, 1, -2);
        self.push_move(&mut r, pos, 1, 2);
        self.push_move(&mut r, pos, -2, -1);
        self.push_move(&mut r, pos, -2, 1);
        self.push_move(&mut r, pos, 2, -1);
        self.push_move(&mut r, pos, 2, 1);
        proof {
            assert(r@ =~= next_moves_spec(self.w(), self.h(), pos));
        }
        r
    }

    /// Breadth-first search for the fewest knight moves from
    /// `start_pos` to `dest`.  On success the result carries that
    /// number together with one shortest path; when no knight path
    /// exists it says so; an off-board endpoint is rejected outright.
    #[verifier::rlimit(100)]
    pub fn bfs(&self, start_pos: ChessPos, dest: ChessPos) -> (r: BfsOutcome)
        requires
            self.area_fits(),
        ensures
            bfs_post(*self, start_pos, dest, r),
    {
        let ghost gw: int = self.w();
        let ghost gh: int = self.h();
        if !self.is_valid(&start_pos) || !self.is_valid(&dest) {
            return BfsOutcome::InvalidSquare;
        }
        if start_pos.0 == dest.0 && start_pos.1 == dest.1 {
            let mut path: Vec<ChessPos> = Vec::new();
            path.push(start_pos);
            proof {
                lemma_zero_distance(gw, gh, start_pos);
                assert(path@ =~= seq![start_pos]);
                assert(path@[0] == start_pos);
                assert(connects(gw, gh, path@, start_pos, dest));
            }
            return BfsOutcome::Found { distance: 0, path };
        }
        assert(start_pos != dest);

        // One table slot per square, all initially unvisited.
        assert((self.width as usize) * (self.height as usize) == gw * gh);
        let n: usize = (self.width as usize) * (self.height as usize);
        let mut visited: Vec<Option<VisitRecord>> = Vec::new();
        while visited.len() < n
            invariant
                visited@.len() <= n,
                forall|i: int| 0 <= i < visited@.len() ==> visited@[i] is None,
            decreases n - visited.len(),
        {
            visited.push(None);
        }
        let ghost vm_init = visited@;
        proof {
            lemma_num_some_all_none(vm_init);
        }

        // Record the start square at distance zero.
        let is = self.index_of(start_pos);
        visited.set(is, Some((start_pos, 0)));
        proof {
            lemma_num_some_update(vm_init, is as int, Some((start_pos, 0usize)));
            lemma_zero_distance(gw, gh, start_pos);
            assert(marked(*self, visited@, start_pos));
            assert(rec_of(*self, visited@, start_pos) == (start_pos, 0usize));
            assert forall|p: ChessPos| #[trigger] marked(*self, visited@, p) implies
                visit_record_ok(*self, start_pos, visited@, p) by {
                lemma_sq_idx_bounds(gw, gh, p);
                if sq_idx(gw, p) == is as int {
                    lemma_sq_idx_injective(gw, gh, p, start_pos);
                } else {
                    assert(visited@[sq_idx(gw, p)] == vm_init[sq_idx(gw, p)]);
                }
            }
            assert(visited_inv(*self, start_pos, visited@));
            assert(!marked(*self, visited@, dest)) by {
                if marked(*self, visited@, dest) {
                    lemma_sq_idx_bounds(gw, gh, dest);
                    if sq_idx(gw, dest) == is as int {
                        lemma_sq_idx_injective(gw, gh, dest, start_pos);
                    } else {
                        assert(visited@[sq_idx(gw, dest)] == vm_init[sq_idx(gw, dest)]);
                    }
                }
            }
        }

        // Seed the frontier with the knight moves out of the start square.
        let nbrs0 = self.next_moves(start_pos);
        let mut queue: Vec<(ChessPos, ChessPos)> = Vec::new();
        let mut k: usize = 0;
        while k < nbrs0.len()
            invariant
                k <= nbrs0@.len(),
                queue@.len() == k,
                forall|i: int| 0 <= i < k ==> queue@[i] == (nbrs0@[i], start_pos),
            decreases nbrs0@.len() - k,
        {
            let m = nbrs0[k];
            queue.push((m, start_pos));
            k = k + 1;
        }
        let mut head: usize = 0;
        let mut found = false;
        proof {
            lemma_next_moves_exact(gw, gh, start_pos);
            let qs0 = queue@.subrange(0, queue@.len() as int);
            assert(qs0 =~= queue@);
            assert forall|i: int| 0 <= i < qs0.len() implies entry_ok(*self, visited@, #[trigger] qs0[i])
                && entry_tent(*self, visited@, qs0[i]) == 1 by {
                assert(qs0[i] == (nbrs0@[i], start_pos));
                assert(next_moves_spec(gw, gh, start_pos).contains(nbrs0@[i]));
            }
            assert(queue_entries_ok(*self, visited@, qs0));
            assert(queue_sorted(*self, visited@, qs0));
            assert forall|u: ChessPos, v: ChessPos|
                #![trigger marked(*self, visited@, u), knight_jump(u, v)]
                marked(*self, visited@, u) && self.on(v) && knight_jump(u, v) && !marked(
                    *self,
                    visited@,
                    v,
                ) implies exists|i: int|
                0 <= i < qs0.len() && #[trigger] qs0[i] == (v, u) by {
                lemma_sq_idx_bounds(gw, gh, u);
                if sq_idx(gw, u) != is as int {
                    assert(visited@[sq_idx(gw, u)] == vm_init[sq_idx(gw, u)]);
                }
                lemma_sq_idx_injective(gw, gh, u, start_pos);
                assert(u == start_pos);
                assert(next_moves_spec(gw, gh, start_pos).contains(v));
                let i = choose|i: int| 0 <= i < nbrs0@.len() && nbrs0@[i] == v;
                assert(qs0[i] == (v, u));
            }
            assert(frontier_complete(*self, visited@, qs0));
        }

        while !found && head < queue.len()
            invariant
                self.area_fits(),
                gw == self.w(),
                gh == self.h(),
                self.on(start_pos),
                self.on(dest),
                start_pos != dest,
                visited_inv(*self, start_pos, visited@),
                head <= queue@.len(),
                queue_entries_ok(
                    *self,
                    visited@,
                    queue@.subrange(head as int, queue@.len() as int),
                ),
                queue_sorted(*self, visited@, queue@.subrange(head as int, queue@.len() as int)),
                !found ==> !marked(*self, visited@, dest) && frontier_complete(
                    *self,
                    visited@,
                    queue@.subrange(head as int, queue@.len() as int),
                ),
                found ==> marked(*self, visited@, dest),
            decreases gw * gh - num_some(visited@), queue@.len() - head,
        {
            proof {
                lemma_num_some_bounds(visited@);
            }
            let ghost qs = queue@.subrange(head as int, queue@.len() as int);
            let e = queue[head];
            let pos = e.0;
            let parent = e.1;
            proof {
                assert(qs[0] == e);
                assert(entry_ok(*self, visited@, qs[0]));
            }
            head = head + 1;
            let ghost qs1 = queue@.subrange(head as int, queue@.len() as int);
            proof {
                assert(qs1 =~= qs.subrange(1, qs.len() as int));
                assert(forall|i: int| 0 <= i < qs1.len() ==> #[trigger] qs1[i] == qs[i + 1]);
            }
            let ip = self.index_of(pos);
            let vp = visited[ip];
            if vp.is_none() {
                proof {
                    assert(!marked(*self, visited@, pos));
                    lemma_pop_shortest(*self, start_pos, visited@, qs);
                }
                let ipar = self.index_of(parent);
                let pd = visited[ipar].unwrap();
                let ghost vm0 = visited@;
                proof {
                    assert(pd == rec_of(*self, vm0, parent));
                    assert(visit_record_ok(*self, start_pos, vm0, parent));
                    assert(pd.1 + 1 <= num_some(vm0));
                }
                let d: usize = pd.1 + 1;
                visited.set(ip, Some((parent, d)));
                proof {
                    lemma_mark_new(*self, start_pos, vm0, pos, parent, d, visited@);
                    assert forall|i: int| 0 <= i < qs1.len() implies entry_ok(
                        *self,
                        visited@,
                        #[trigger] qs1[i],
                    ) && entry_tent(*self, visited@, qs1[i]) == entry_tent(*self, vm0, qs1[i])
                        && d as int <= entry_tent(*self, visited@, qs1[i]) <= d as int + 1 by {
                        assert(qs1[i] == qs[i + 1]);
                        assert(entry_ok(*self, vm0, qs[i + 1]));
                        let par2 = qs1[i].1;
                        assert(marked(*self, vm0, par2));
                        assert(par2 != pos);
                        assert(rec_of(*self, visited@, par2) == rec_of(*self, vm0, par2));
                        assert(marked(*self, visited@, par2));
                        assert(entry_tent(*self, vm0, qs[0]) <= entry_tent(*self, vm0, qs[i + 1]));
                        assert(entry_tent(*self, vm0, qs[i + 1]) <= entry_tent(*self, vm0, qs[0])
                            + 1);
                        assert(entry_tent(*self, vm0, qs[0]) == d as int);
                    }
                    assert(queue_entries_ok(*self, visited@, qs1));
                    assert forall|i: int, j: int| 0 <= i <= j < qs1.len() implies entry_tent(
                        *self,
                        visited@,
                        #[trigger] qs1[i],
                    ) <= entry_tent(*self, visited@, #[trigger] qs1[j]) && entry_tent(
                        *self,
                        visited@,
                        qs1[j],
                    ) <= entry_tent(*self, visited@, qs1[i]) + 1 by {
                        assert(qs1[i] == qs[i + 1]);
                        assert(qs1[j] == qs[j + 1]);
                        assert(entry_tent(*self, vm0, qs[i + 1]) <= entry_tent(*self, vm0, qs[j + 1]));
                        assert(entry_tent(*self, vm0, qs[j + 1]) <= entry_tent(*self, vm0, qs[i + 1])
                            + 1);
                    }
                    assert(queue_sorted(*self, visited@, qs1));
                }
                if pos.0 == dest.0 && pos.1 == dest.1 {
                    found = true;
                    proof {
                        assert(pos == dest);
                        assert(marked(*self, visited@, dest));
                        assert(num_some(visited@) == num_some(vm0) + 1);
                        lemma_num_some_bounds(visited@);
                    }
                } else {
                    proof {
                        assert(pos != dest);
                        assert(!marked(*self, visited@, dest));
                    }
                    let nbrs = self.next_moves(pos);
                    let ghost base = queue@;
                    let mut k2: usize = 0;
                    proof {
                        lemma_next_moves_exact(gw, gh, pos);
                        assert(base.subrange(head as int, base.len() as int) =~= qs1);
                        assert forall|u: ChessPos, v: ChessPos|
                            #![trigger marked(*self, visited@, u), knight_jump(u, v)]
                            marked(*self, visited@, u) && self.on(v) && knight_jump(u, v)
                                && !marked(*self, visited@, v) implies (exists|i: int|
                            0 <= i < qs1.len() && #[trigger] qs1[i] == (v, u)) || (u == pos
                            && exists|kk: int|
                            k2 <= kk < nbrs@.len() && nbrs@[kk] == v) by {
                            if u == pos {
                                assert(next_moves_spec(gw, gh, pos).contains(v));
                                let kk = choose|kk: int|
                                    0 <= kk < nbrs@.len() && nbrs@[kk] == v;
                                assert(k2 <= kk < nbrs@.len() && nbrs@[kk] == v);
                            } else {
                                assert(marked(*self, vm0, u));
                                assert(!marked(*self, vm0, v));
                                assert(marked(*self, visited@, pos));
                                assert(v != pos);
                                let i = choose|i: int| 0 <= i < qs.len() && #[trigger] qs[i] == (
                                v,
                                u,
                                );
                                assert(i != 0);
                                assert(qs1[i - 1] == qs[i]);
                            }
                        }
                    }
                    while k2 < nbrs.len()
                        invariant
                            self.area_fits(),
                            gw == self.w(),
                            gh == self.h(),
                            self.on(start_pos),
                            self.on(dest),
                            start_pos != dest,
                            self.on(pos),
                            pos != dest,
                            visited_inv(*self, start_pos, visited@),
                            marked(*self, visited@, pos),
                            rec_of(*self, visited@, pos) == (parent, d),
                            !marked(*self, visited@, dest),
                            num_some(visited@) == num_some(vm0) + 1,
                            nbrs@ == next_moves_spec(gw, gh, pos),
                            k2 <= nbrs@.len(),
                            head as int <= base.len(),
                            queue@.len() == base.len() + k2,
                            forall|i: int| 0 <= i < base.len() ==> #[trigger] queue@[i] == base[i],
                            forall|i: int|
                                0 <= i < k2 ==> #[trigger] queue@[base.len() + i] == (
                                nbrs@[i],
                                pos,
                                ),
                            queue_entries_ok(
                                *self,
                                visited@,
                                queue@.subrange(head as int, queue@.len() as int),
                            ),
                            queue_sorted(
                                *self,
                                visited@,
                                queue@.subrange(head as int, queue@.len() as int),
                            ),
                            forall|i: int|
                                0 <= i < queue@.len() - head ==> d as int <= entry_tent(
                                    *self,
                                    visited@,
                                    #[trigger] queue@.subrange(
                                        head as int,
                                        queue@.len() as int,
                                    )[i],
                                ) <= d as int + 1,
                            forall|u: ChessPos, v: ChessPos|
                                #![trigger marked(*self, visited@, u), knight_jump(u, v)]
                                marked(*self, visited@, u) && self.on(v) && knight_jump(u, v)
                                    && !marked(*self, visited@, v) ==> (exists|i: int|
                                0 <= i < queue@.len() - head && #[trigger] queue@.subrange(
                                    head as int,
                                    queue@.len() as int,
                                )[i] == (v, u)) || (u == pos && exists|kk: int|
                                k2 <= kk < nbrs@.len() && nbrs@[kk] == v),
                        decreases nbrs@.len() - k2,
                    {
                        let ghost sub_old = queue@.subrange(head as int, queue@.len() as int);
                        let m = nbrs[k2];
                        queue.push((m, pos));
                        k2 = k2 + 1;
                        proof {
                            lemma_next_moves_exact(gw, gh, pos);
                            let sub_new = queue@.subrange(head as int, queue@.len() as int);
                            assert(sub_new =~= sub_old.push((m, pos)));
                            assert(next_moves_spec(gw, gh, pos).contains(m));
                            assert(entry_ok(*self, visited@, (m, pos)));
                            assert(entry_tent(*self, visited@, (m, pos)) == d + 1);
                            assert forall|i: int| 0 <= i < sub_new.len() implies entry_ok(
                                *self,
                                visited@,
                                #[trigger] sub_new[i],
                            ) && d as int <= entry_tent(*self, visited@, sub_new[i]) <= d as int
                                + 1 by {
                                if i < sub_old.len() {
                                    assert(sub_new[i] == sub_old[i]);
                                } else {
                                    assert(sub_new[i] == (m, pos));
                                }
                            }
                            assert(queue_sorted(*self, visited@, sub_new));
                            assert forall|u: ChessPos, v: ChessPos|
                                #![trigger marked(*self, visited@, u), knight_jump(u, v)]
                                marked(*self, visited@, u) && self.on(v) && knight_jump(u, v)
                                    && !marked(*self, visited@, v) implies (exists|i: int|
                                0 <= i < sub_new.len() && #[trigger] sub_new[i] == (v, u)) || (u
                                == pos && exists|kk: int|
                                k2 <= kk < nbrs@.len() && nbrs@[kk] == v) by {
                                if exists|i: int|
                                    0 <= i < sub_old.len() && #[trigger] sub_old[i] == (v, u) {
                                    let i = choose|i: int|
                                        0 <= i < sub_old.len() && #[trigger] sub_old[i] == (v, u);
                                    assert(sub_new[i] == (v, u));
                                } else {
                                    let kk = choose|kk: int|
                                        k2 - 1 <= kk < nbrs@.len() && nbrs@[kk] == v;
                                    if kk == k2 - 1 {
                                        assert(v == m && u == pos);
                                        assert(sub_new[sub_new.len() - 1] == (v, u));
                                    } else {
                                        assert(k2 <= kk < nbrs@.len() && nbrs@[kk] == v);
                                    }
                                }
                            }
                        }
                    }
                    proof {
                        let sub = queue@.subrange(head as int, queue@.len() as int);
                        assert forall|u: ChessPos, v: ChessPos|
                            #![trigger marked(*self, visited@, u), knight_jump(u, v)]
                            marked(*self, visited@, u) && self.on(v) && knight_jump(u, v)
                                && !marked(*self, visited@, v) implies exists|i: int|
                            0 <= i < sub.len() && #[trigger] sub[i] == (v, u) by {
                            assert(!(exists|kk: int| k2 <= kk < nbrs@.len() && nbrs@[kk] == v));
                        }
                        assert(frontier_complete(*self, visited@, sub));
                        lemma_num_some_bounds(visited@);
                    }
                }
            } else {
                proof {
                    assert(marked(*self, visited@, pos));
                    assert forall|i: int, j: int| 0 <= i <= j < qs1.len() implies entry_tent(
                        *self,
                        visited@,
                        #[trigger] qs1[i],
                    ) <= entry_tent(*self, visited@, #[trigger] qs1[j]) && entry_tent(
                        *self,
                        visited@,
                        qs1[j],
                    ) <= entry_tent(*self, visited@, qs1[i]) + 1 by {
                        assert(qs1[i] == qs[i + 1]);
                        assert(qs1[j] == qs[j + 1]);
                    }
                    assert forall|u: ChessPos, v: ChessPos|
                        #![trigger marked(*self, visited@, u), knight_jump(u, v)]
                        marked(*self, visited@, u) && self.on(v) && knight_jump(u, v) && !marked(
                            *self,
                            visited@,
                            v,
                        ) implies exists|i: int|
                        0 <= i < qs1.len() && #[trigger] qs1[i] == (v, u) by {
                        let i = choose|i: int| 0 <= i < qs.len() && #[trigger] qs[i] == (v, u);
                        assert(v != pos);
                        assert(i != 0);
                        assert(qs1[i - 1] == qs[i]);
                    }
                }
            }
        }

        if !found {
            proof {
                let qs = queue@.subrange(head as int, queue@.len() as int);
                assert(qs.len() == 0);
                let s = Set::new(|x: ChessPos| marked(*self, visited@, x));
                assert forall|u: ChessPos, v: ChessPos|
                    s.contains(u) && on_board(gw, gh, v) && #[trigger] knight_jump(u, v) implies s
                    .contains(v) by {
                    assert(marked(*self, visited@, u));
                    if !marked(*self, visited@, v) {
                        let i = choose|i: int| 0 <= i < qs.len() && #[trigger] qs[i] == (v, u);
                        assert(false);
                    }
                }
                assert(knight_closed(gw, gh, s));
                assert(s.contains(start_pos));
                assert(!s.contains(dest));
                lemma_closed_set_unreachable(gw, gh, s, start_pos, dest);
            }
            return BfsOutcome::Unreachable;
        }

        // Walk the parent pointers back from the destination, then turn
        // the walk around to run from start to destination.
        let id = self.index_of(dest);
        let rd = visited[id].unwrap();
        let total: usize = rd.1;
        proof {
            assert(rd == rec_of(*self, visited@, dest));
            assert(visit_record_ok(*self, start_pos, visited@, dest));
        }
        let mut rev: Vec<ChessPos> = Vec::new();
        rev.push(dest);
        let mut cur: ChessPos = dest;
        let mut cd: usize = total;
        while cd > 0
            invariant
                self.area_fits(),
                gw == self.w(),
                gh == self.h(),
                self.on(start_pos),
                visited_inv(*self, start_pos, visited@),
                marked(*self, visited@, cur),
                rec_of(*self, visited@, cur).1 == cd,
                cd <= total,
                rev@.len() == total - cd + 1,
                rev@[0] == dest,
                rev@[rev@.len() - 1] == cur,
                forall|i: int| 0 <= i < rev@.len() ==> self.on(#[trigger] rev@[i]),
                forall|i: int|
                    0 <= i < rev@.len() - 1 ==> knight_jump(#[trigger] rev@[i + 1], rev@[i]),
            decreases cd,
        {
            proof {
                assert(visit_record_ok(*self, start_pos, visited@, cur));
                assert(cur != start_pos);
            }
            let ic = self.index_of(cur);
            let rc = visited[ic].unwrap();
            proof {
                assert(rc == rec_of(*self, visited@, cur));
                assert(marked(*self, visited@, rc.0));
                assert(knight_jump(rc.0, cur));
            }
            cur = rc.0;
            cd = cd - 1;
            rev.push(cur);
        }
        proof {
            assert(visit_record_ok(*self, start_pos, visited@, cur));
            assert(is_shortest(gw, gh, start_pos, cur, 0));
            lemma_kpath_zero(gw, gh, start_pos, cur);
            assert(cur == start_pos);
        }
        let mut path: Vec<ChessPos> = Vec::new();
        let mut rem: usize = rev.len();
        while rem > 0
            invariant
                rem <= rev@.len(),
                path@.len() == rev@.len() - rem,
                forall|i: int|
                    0 <= i < path@.len() ==> #[trigger] path@[i] == rev@[rev@.len() - 1 - i],
            decreases rem,
        {
            rem = rem - 1;
            let q2 = rev[rem];
            path.push(q2);
        }
        proof {
            let pseq = path@;
            let len: int = rev@.len() as int;
            assert(pseq.len() == len);
            assert(pseq.len() == total + 1);
            assert(pseq[0] == rev@[len - 1]);
            assert(pseq[pseq.len() - 1] == rev@[0]);
            assert forall|i: int| 0 <= i < pseq.len() implies on_board(gw, gh, #[trigger] pseq[i]) by {
                assert(pseq[i] == rev@[len - 1 - i]);
            }
            assert forall|i: int| 0 <= i < pseq.len() - 1 implies knight_jump(
                #[trigger] pseq[i],
                pseq[i + 1],
            ) by {
                let j: int = len - 2 - i;
                assert(pseq[i] == rev@[j + 1]);
                assert(pseq[i + 1] == rev@[j]);
                assert(knight_jump(rev@[j + 1], rev@[j]));
            }
            assert(connects(gw, gh, pseq, start_pos, dest));
            assert(is_shortest(gw, gh, start_pos, dest, total as nat));
        }
        BfsOutcome::Found { distance: total, path }
    }
}

/// Square `p` has been reached and recorded in the visited table `vm`.
spec fn marked(b: ChessBoard, vm: Seq<Option<VisitRecord>>, p: ChessPos) -> bool {
    b.on(p) && vm[sq_idx(b.w(), p)] is Some
}

/// The record of a reached square.
spec fn rec_of(b: ChessBoard, vm: Seq<Option<VisitRecord>>, p: ChessPos) -> VisitRecord {
    vm[sq_idx(b.w(), p)].unwrap()
}

/// What the record of one reached square says, and why it is right:
/// the recorded distance is the true shortest distance from `start`,
/// and every square but `start` points at a reached parent one knight
/// move away and one move closer to `start`.
spec fn visit_record_ok(
    b: ChessBoard,
    start: ChessPos,
    vm: Seq<Option<VisitRecord>>,
    p: ChessPos,
) -> bool {
    let par = rec_of(b, vm, p).0;
    let d = rec_of(b, vm, p).1;
    &&& is_shortest(b.w(), b.h(), start, p, d as nat)
    &&& d + 1 <= num_some(vm)
    &&& (p != start ==> marked(b, vm, par) && knight_jump(par, p) && d >= 1 && rec_of(
        b,
        vm,
        par,
    ).1 + 1 == d)
}

/// The visited table is sound: it has one slot per square, `start` is
/// recorded at distance zero, and every record is right.
spec fn visited_inv(b: ChessBoard, start: ChessPos, vm: Seq<Option<VisitRecord>>) -> bool {
    &&& vm.len() == b.w() * b.h()
    &&& b.on(start)
    &&& marked(b, vm, start)
    &&& rec_of(b, vm, start) == (start, 0usize)
    &&& forall|p: ChessPos| #[trigger] marked(b, vm, p) ==> visit_record_ok(b, start, vm, p)
}

/// A pending queue entry `(square, parent)` would record its square at
/// this distance.
spec fn entry_tent(b: ChessBoard, vm: Seq<Option<VisitRecord>>, e: (ChessPos, ChessPos)) -> int {
    rec_of(b, vm, e.1).1 + 1
}

/// A queue entry is well formed: an on-board square, one knight move
/// from an already reached parent.
spec fn entry_ok(b: ChessBoard, vm: Seq<Option<VisitRecord>>, e: (ChessPos, ChessPos)) -> bool {
    b.on(e.0) && marked(b, vm, e.1) && knight_jump(e.1, e.0)
}

spec fn queue_entries_ok(
    b: ChessBoard,
    vm: Seq<Option<VisitRecord>>,
    qs: Seq<(ChessPos, ChessPos)>,
) -> bool {
    forall|i: int| 0 <= i < qs.len() ==> entry_ok(b, vm, #[trigger] qs[i])
}

/// The queue is what a breadth-first frontier looks like: tentative
/// distances never decrease along it and span at most two values.
spec fn queue_sorted(
    b: ChessBoard,
    vm: Seq<Option<VisitRecord>>,
    qs: Seq<(ChessPos, ChessPos)>,
) -> bool {
    forall|i: int, j: int|
        0 <= i <= j < qs.len() ==> entry_tent(b, vm, #[trigger] qs[i]) <= entry_tent(
            b,
            vm,
            #[trigger] qs[j],
        ) && entry_tent(b, vm, qs[j]) <= entry_tent(b, vm, qs[i]) + 1
}

/// Every knight move that leaves the reached region still waits in the
/// queue, paired with the reached parent it was generated from.
spec fn frontier_complete(
    b: ChessBoard,
    vm: Seq<Option<VisitRecord>>,
    qs: Seq<(ChessPos, ChessPos)>,
) -> bool {
    forall|u: ChessPos, v: ChessPos|
        #![trigger marked(b, vm, u), knight_jump(u, v)]
        marked(b, vm, u) && b.on(v) && knight_jump(u, v) && !marked(b, vm, v) ==> exists|i: int|
            0 <= i < qs.len() && #[trigger] qs[i] == (v, u)
}

/// The outcome of one breadth-first knight search over a board.
#[derive(Debug, PartialEq, Eq)]
pub enum BfsOutcome {
    /// The destination was reached: the fewest number of knight moves
    /// needed, and one shortest path from start to destination,
    /// inclusive of both.
    Found { distance: usize, path: Vec<ChessPos> },
    /// Start and destination are both on the board, but no sequence of
    /// knight moves joins them.
    Unreachable,
    /// The start or the destination square is off the board.
    InvalidSquare,
}

/// What `ChessBoard::bfs` promises of its result.  A `Found` outcome
/// carries a knight path from start to destination whose length is the
/// true shortest distance; `Unreachable` says no knight path exists;
/// `InvalidSquare` comes exactly when an endpoint is off the board.
pub open spec fn bfs_post(b: ChessBoard, start: ChessPos, dest: ChessPos, r: BfsOutcome) -> bool {
    match r {
        BfsOutcome::Found { distance, path } => {
            &&& b.on(start)
            &&& b.on(dest)
            &&& connects(b.w(), b.h(), path@, start, dest)
            &&& path@.len() == distance + 1
            &&& is_shortest(b.w(), b.h(), start, dest, distance as nat)
        },
        BfsOutcome::Unreachable => b.on(start) && b.on(dest) && !reachable(
            b.w(),
            b.h(),
            start,
            dest,
        ),
        BfsOutcome::InvalidSquare => !(b.on(start) && b.on(dest)),
    }
}

/// Law: the knight-move graph is undirected, so searching between two
/// squares gives the same kind of outcome in both directions, and the
/// same distance when both directions succeed.
pub proof fn lemma_bfs_symmetric(
    b: ChessBoard,
    a: ChessPos,
    c: ChessPos,
    r1: BfsOutcome,
    r2: BfsOutcome,
)
    requires
        bfs_post(b, a, c, r1),
        bfs_post(b, c, a, r2),
    ensures
        r1 is InvalidSquare <==> r2 is InvalidSquare,
        r1 is Unreachable <==> r2 is Unreachable,
        r1 is Found <==> r2 is Found,
        (r1 is Found && r2 is Found) ==> r1->Found_distance == r2->Found_distance,
{
    let w: int = b.w();
    let h: int = b.h();
    if r1 is Found && r2 is Unreachable {
        let d1 = r1->Found_distance;
        lemma_kpath_symmetric(w, h, a, c, d1 as nat);
        assert(reachable(w, h, c, a));
    }
    if r2 is Found && r1 is Unreachable {
        let d2 = r2->Found_distance;
        lemma_kpath_symmetric(w, h, c, a, d2 as nat);
        assert(reachable(w, h, a, c));
    }
    if r1 is Found && r2 is Found {
        let d1 = r1->Found_distance;
        let d2 = r2->Found_distance;
        lemma_distance_symmetric(w, h, a, c, d1 as nat, d2 as nat);
    }
}

/// Law: the kind of outcome is determined by the inputs alone.  With
/// an off-board endpoint the search is rejected; with both endpoints
/// on the board it finds a path exactly when one exists.
pub proof fn lemma_bfs_total(b: ChessBoard, a: ChessPos, c: ChessPos, r: BfsOutcome)
    requires
        bfs_post(b, a, c, r),
    ensures
        r is InvalidSquare <==> !(b.on(a) && b.on(c)),
        b.on(a) && b.on(c) ==> (r is Found <==> reachable(b.w(), b.h(), a, c)),
        b.on(a) && b.on(c) ==> (r is Unreachable <==> !reachable(b.w(), b.h(), a, c)),
{
    match r {
        BfsOutcome::Found { distance, path } => {
            assert(has_kpath(b.w(), b.h(), a, c, distance as nat));
            assert(reachable(b.w(), b.h(), a, c));
        },
        BfsOutcome::Unreachable => {},
        BfsOutcome::InvalidSquare => {},
    }
}

/// Law: from a valid square to itself the search succeeds with
/// distance zero, and its path is that one square alone.
pub proof fn lemma_bfs_self(b: ChessBoard, a: ChessPos, r: BfsOutcome)
    requires
        b.on(a),
        bfs_post(b, a, a, r),
    ensures
        r is Found,
        r matches BfsOutcome::Found { distance, path } ==> distance == 0 && path@ == seq![a],
{
    let w: int = b.w();
    let h: int = b.h();
    lemma_zero_distance(w, h, a);
    match r {
        BfsOutcome::Found { distance, path } => {
            assert(is_shortest(w, h, a, a, distance as nat));
            assert(distance == 0);
            lemma_zero_distance_path(w, h, a, path@);
        },
        BfsOutcome::Unreachable => {
            assert(reachable(w, h, a, a));
        },
        BfsOutcome::InvalidSquare => {},
    }
}

/// Marking one new square keeps the visited table sound and leaves
/// every other record unchanged.
proof fn lemma_mark_new(
    b: ChessBoard,
    start: ChessPos,
    vm: Seq<Option<VisitRecord>>,
    pos: ChessPos,
    parent: ChessPos,
    d: usize,
    vm2: Seq<Option<VisitRecord>>,
)
    requires
        visited_inv(b, start, vm),
        b.on(pos),
        !marked(b, vm, pos),
        marked(b, vm, parent),
        knight_jump(parent, pos),
        d as int == rec_of(b, vm, parent).1 + 1,
        is_shortest(b.w(), b.h(), start, pos, d as nat),
        vm2 == vm.update(sq_idx(b.w(), pos), Some((parent, d))),
    ensures
        visited_inv(b, start, vm2),
        num_some(vm2) == num_some(vm) + 1,
        marked(b, vm2, pos),
        rec_of(b, vm2, pos) == (parent, d),
        forall|x: ChessPos| #[trigger] marked(b, vm, x) ==> marked(b, vm2, x),
        forall|x: ChessPos|
            b.on(x) && x != pos ==> (#[trigger] marked(b, vm2, x) <==> marked(b, vm, x)),
        forall|x: ChessPos| b.on(x) && x != pos ==> #[trigger] rec_of(b, vm2, x) == rec_of(
            b,
            vm,
            x,
        ),
{
    let w: int = b.w();
    let h: int = b.h();
    lemma_sq_idx_bounds(w, h, pos);
    let ip: int = sq_idx(w, pos);
    lemma_num_some_update(vm, ip, Some((parent, d)));
    assert forall|x: ChessPos| b.on(x) && x != pos implies vm2[sq_idx(w, x)] == vm[#[trigger] sq_idx(
        w,
        x,
    )] by {
        lemma_sq_idx_bounds(w, h, x);
        if sq_idx(w, x) == ip {
            lemma_sq_idx_injective(w, h, x, pos);
        }
    }
    assert(start != pos);
    assert(parent != pos);
    assert(rec_of(b, vm2, start) == rec_of(b, vm, start));
    assert forall|p: ChessPos| #[trigger] marked(b, vm2, p) implies visit_record_ok(
        b,
        start,
        vm2,
        p,
    ) by {
        lemma_sq_idx_bounds(w, h, p);
        if sq_idx(w, p) == ip {
            lemma_sq_idx_injective(w, h, p, pos);
            assert(p == pos);
            assert(rec_of(b, vm2, pos) == (parent, d));
            assert(visit_record_ok(b, start, vm, parent));
            assert(rec_of(b, vm2, parent) == rec_of(b, vm, parent));
            assert(marked(b, vm2, parent));
            assert(rec_of(b, vm, parent).1 + 1 <= num_some(vm));
        } else {
            assert(p != pos);
            assert(marked(b, vm, p));
            assert(visit_record_ok(b, start, vm, p));
            assert(rec_of(b, vm2, p) == rec_of(b, vm, p));
            let par = rec_of(b, vm, p).0;
            if p != start {
                assert(marked(b, vm, par));
                assert(par != pos);
                assert(rec_of(b, vm2, par) == rec_of(b, vm, par));
                assert(marked(b, vm2, par));
            }
        }
    }
}

/// The head of a breadth-first queue, when not yet reached, is about to
/// be recorded at its true shortest distance: no knight path from
/// `start` gets to it in fewer moves than through its queued parent.
proof fn lemma_pop_shortest(
    b: ChessBoard,
    start: ChessPos,
    vm: Seq<Option<VisitRecord>>,
    qs: Seq<(ChessPos, ChessPos)>,
)
    requires
        visited_inv(b, start, vm),
        queue_entries_ok(b, vm, qs),
        queue_sorted(b, vm, qs),
        frontier_complete(b, vm, qs),
        qs.len() >= 1,
        !marked(b, vm, qs[0].0),
    ensures
        is_shortest(b.w(), b.h(), start, qs[0].0, (rec_of(b, vm, qs[0].1).1 + 1) as nat),
{
    let w: int = b.w();
    let h: int = b.h();
    let wsq = qs[0].0;
    let u = qs[0].1;
    assert(entry_ok(b, vm, qs[0]));
    assert(marked(b, vm, u));
    assert(visit_record_ok(b, start, vm, u));
    let du = rec_of(b, vm, u).1;
    let t: int = du + 1;
    lemma_kpath_extend(w, h, start, u, wsq, du as nat);
    assert forall|m: nat| m < t implies !has_kpath(w, h, start, wsq, m) by {
        if has_kpath(w, h, start, wsq, m) {
            let p = choose|p: Seq<ChessPos>| #[trigger] connects(w, h, p, start, wsq) && p.len()
                == m + 1;
            let s = Set::new(|x: ChessPos| marked(b, vm, x));
            assert(s.contains(start));
            assert(!s.contains(wsq));
            let j = lemma_first_exit(w, h, s, p, start, wsq);
            let prev = p[j - 1];
            let vtx = p[j];
            assert(s.contains(prev));
            assert(marked(b, vm, prev));
            assert(visit_record_ok(b, start, vm, prev));
            let dprev = rec_of(b, vm, prev).1;
            lemma_kpath_prefix(w, h, p, start, wsq, j - 1);
            assert(dprev <= j - 1) by {
                if j - 1 < dprev {
                    assert(!has_kpath(w, h, start, prev, (j - 1) as nat));
                }
            }
            assert(knight_jump(p[j - 1], p[j]));
            assert(knight_jump(prev, vtx));
            assert(on_board(w, h, vtx));
            assert(!marked(b, vm, vtx));
            let qi = choose|i: int| 0 <= i < qs.len() && #[trigger] qs[i] == (vtx, prev);
            assert(entry_tent(b, vm, qs[qi]) == dprev + 1);
            assert(entry_tent(b, vm, qs[0]) <= entry_tent(b, vm, qs[qi]));
            assert(j <= m);
            assert(false);
        }
    }
    assert(is_shortest(w, h, start, wsq, t as nat));
}

} // verus!
