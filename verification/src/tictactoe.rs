use vstd::prelude::*;

use crate::traits::GameTrait;

verus! {

/// A small 3-by-3 board game for exercising the engine: players 1 and 2 fill
/// empty cells in turn, and three equal marks on a row, a column or a
/// diagonal win. Player 0 stands for "nobody": it is the winner reported for
/// a drawn (full) board.
#[derive(Clone, Copy, PartialEq, Eq, Debug, Hash)]
pub struct TicTacToe {
    pub c0: u8,
    pub c1: u8,
    pub c2: u8,
    pub c3: u8,
    pub c4: u8,
    pub c5: u8,
    pub c6: u8,
    pub c7: u8,
    pub c8: u8,
    /// The player to move, 1 or 2.
    pub player: u8,
}

/// The mark in cell `i`, or 0 outside the board.
pub open spec fn cell(s: TicTacToe, i: int) -> u8 {
    if i == 0 {
        s.c0
    } else if i == 1 {
        s.c1
    } else if i == 2 {
        s.c2
    } else if i == 3 {
        s.c3
    } else if i == 4 {
        s.c4
    } else if i == 5 {
        s.c5
    } else if i == 6 {
        s.c6
    } else if i == 7 {
        s.c7
    } else if i == 8 {
        s.c8
    } else {
        0
    }
}

/// The mark that owns the whole line `(a, b, c)`, or 0.
pub open spec fn line(s: TicTacToe, a: int, b: int, c: int) -> u8 {
    if cell(s, a) != 0 && cell(s, a) == cell(s, b) && cell(s, b) == cell(s, c) {
        cell(s, a)
    } else {
        0
    }
}

/// The winner of the board: the first full line in reading order, or 0.
pub open spec fn winner_of(s: TicTacToe) -> u8 {
    if line(s, 0, 1, 2) != 0 {
        line(s, 0, 1, 2)
    } else if line(s, 3, 4, 5) != 0 {
        line(s, 3, 4, 5)
    } else if line(s, 6, 7, 8) != 0 {
        line(s, 6, 7, 8)
    } else if line(s, 0, 3, 6) != 0 {
        line(s, 0, 3, 6)
    } else if line(s, 1, 4, 7) != 0 {
        line(s, 1, 4, 7)
    } else if line(s, 2, 5, 8) != 0 {
        line(s, 2, 5, 8)
    } else if line(s, 0, 4, 8) != 0 {
        line(s, 0, 4, 8)
    } else if line(s, 2, 4, 6) != 0 {
        line(s, 2, 4, 6)
    } else {
        0
    }
}

/// The indices of the empty cells from `i` upwards, in increasing order.
pub open spec fn empties_from(s: TicTacToe, i: int) -> Seq<u8>
    decreases 9 - i,
{
    if i < 0 || i >= 9 {
        Seq::empty()
    } else if cell(s, i) == 0 {
        seq![i as u8] + empties_from(s, i + 1)
    } else {
        empties_from(s, i + 1)
    }
}

/// The board after `player` marks cell `m` (cells untouched for `m` outside
/// the board), with the turn passed to the other player.
pub open spec fn played(s: TicTacToe, m: u8) -> TicTacToe {
    let next: u8 = if s.player == 1 {
        2
    } else {
        1
    };
    let p = s.player;
    if m == 0 {
        TicTacToe { c0: p, player: next, ..s }
    } else if m == 1 {
        TicTacToe { c1: p, player: next, ..s }
    } else if m == 2 {
        TicTacToe { c2: p, player: next, ..s }
    } else if m == 3 {
        TicTacToe { c3: p, player: next, ..s }
    } else if m == 4 {
        TicTacToe { c4: p, player: next, ..s }
    } else if m == 5 {
        TicTacToe { c5: p, player: next, ..s }
    } else if m == 6 {
        TicTacToe { c6: p, player: next, ..s }
    } else if m == 7 {
        TicTacToe { c7: p, player: next, ..s }
    } else if m == 8 {
        TicTacToe { c8: p, player: next, ..s }
    } else {
        TicTacToe { player: next, ..s }
    }
}

/// Members of the empty-cell list are board cells from `i` upwards that are
/// empty.
proof fn lemma_empties_member(s: TicTacToe, i: int, x: u8)
    requires
        empties_from(s, i).contains(x),
    ensures
        i <= x < 9,
        cell(s, x as int) == 0,
    decreases 9 - i,
{
    if i < 0 || i >= 9 {
        assert(false);
    } else if cell(s, i) == 0 {
        let e = empties_from(s, i);
        let k = choose|k: int| 0 <= k < e.len() && e[k] == x;
        if k == 0 {
        } else {
            assert(empties_from(s, i + 1)[k - 1] == x);
            assert(empties_from(s, i + 1).contains(x));
            lemma_empties_member(s, i + 1, x);
        }
    } else {
        lemma_empties_member(s, i + 1, x);
    }
}

/// Filling the empty cell `m` with a non-empty mark removes exactly one
/// entry from the empty-cell list at or after `m`.
proof fn lemma_empties_after(s: TicTacToe, m: u8, i: int)
    requires
        0 <= i,
        m < 9,
        cell(s, m as int) == 0,
        s.player != 0,
    ensures
        empties_from(played(s, m), i).len() == empties_from(s, i).len() - (if i <= m as int {
            1int
        } else {
            0int
        }),
    decreases 9 - i,
{
    if i < 0 || i >= 9 {
    } else {
        lemma_empties_after(s, m, i + 1);
        assert(i != m as int ==> cell(played(s, m), i) == cell(s, i));
        assert(cell(played(s, m), m as int) == s.player);
    }
}

/// Two boards with the same cells have empty-cell lists of the same length.
proof fn lemma_empties_same(a: TicTacToe, b: TicTacToe, i: int)
    requires
        forall|j: int| 0 <= j < 9 ==> cell(a, j) == cell(b, j),
    ensures
        empties_from(a, i).len() == empties_from(b, i).len(),
    decreases 9 - i,
{
    if i < 0 || i >= 9 {
    } else {
        lemma_empties_same(a, b, i + 1);
    }
}

impl TicTacToe {
    /// The empty board, with player 1 to move.
    pub fn new() -> (s: Self)
        ensures
            s == (TicTacToe {
                c0: 0,
                c1: 0,
                c2: 0,
                c3: 0,
                c4: 0,
                c5: 0,
                c6: 0,
                c7: 0,
                c8: 0,
                player: 1u8,
            }),
    {
        TicTacToe { c0: 0, c1: 0, c2: 0, c3: 0, c4: 0, c5: 0, c6: 0, c7: 0, c8: 0, player: 1 }
    }

    /// The mark in cell `i`, or 0 outside the board.
    pub fn cell_at(&self, i: usize) -> (r: u8)
        ensures
            r == cell(*self, i as int),
    {
        if i == 0 {
            self.c0
        } else if i == 1 {
            self.c1
        } else if i == 2 {
            self.c2
        } else if i == 3 {
            self.c3
        } else if i == 4 {
            self.c4
        } else if i == 5 {
            self.c5
        } else if i == 6 {
            self.c6
        } else if i == 7 {
            self.c7
        } else if i == 8 {
            self.c8
        } else {
            0
        }
    }

    /// The winner of the board so far, or 0.
    pub fn winner_now(&self) -> (r: u8)
        ensures
            r == winner_of(*self),
    {
        let s = *self;
        if s.c0 != 0 && s.c0 == s.c1 && s.c1 == s.c2 {
            s.c0
        } else if s.c3 != 0 && s.c3 == s.c4 && s.c4 == s.c5 {
            s.c3
        } else if s.c6 != 0 && s.c6 == s.c7 && s.c7 == s.c8 {
            s.c6
        } else if s.c0 != 0 && s.c0 == s.c3 && s.c3 == s.c6 {
            s.c0
        } else if s.c1 != 0 && s.c1 == s.c4 && s.c4 == s.c7 {
            s.c1
        } else if s.c2 != 0 && s.c2 == s.c5 && s.c5 == s.c8 {
            s.c2
        } else if s.c0 != 0 && s.c0 == s.c4 && s.c4 == s.c8 {
            s.c0
        } else if s.c2 != 0 && s.c2 == s.c4 && s.c4 == s.c6 {
            s.c2
        } else {
            0
        }
    }
}

impl GameTrait for TicTacToe {
    type Player = u8;

    type Move = u8;

    open spec fn legal_moves_spec(&self) -> Seq<u8> {
        empties_from(*self, 0)
    }

    open spec fn turn_spec(&self) -> u8 {
        self.player
    }

    open spec fn is_final_spec(&self) -> bool {
        winner_of(*self) != 0 || empties_from(*self, 0).len() == 0
    }

    open spec fn next_spec(&self, m: u8) -> TicTacToe {
        played(*self, m)
    }

    open spec fn winner_spec(&self) -> u8 {
        winner_of(*self)
    }

    fn legals_moves(&self) -> (r: Vec<u8>) {
        let mut r: Vec<u8> = Vec::new();
        let mut i: usize = 0;
        while i < 9
            invariant
                i <= 9,
                empties_from(*self, 0) =~= r@ + empties_from(*self, i as int),
            decreases 9 - i,
        {
            if self.cell_at(i) == 0 {
                r.push(i as u8);
                proof {
                    assert(empties_from(*self, i as int) =~= seq![i as u8] + empties_from(
                        *self,
                        i as int + 1,
                    ));
                }
            }
            i = i + 1;
        }
        proof {
            assert(empties_from(*self, 9) =~= Seq::<u8>::empty());
            assert(r@ =~= r@ + empties_from(*self, 9));
        }
        r
    }

    fn player_turn(&self) -> (r: u8) {
        self.player
    }

    fn hash(&self) -> u64 {
        let mut h: u64 = 0;
        h = h * 4 + self.c0 as u64;
        h = h * 4 + self.c1 as u64;
        h = h * 4 + self.c2 as u64;
        h = h * 4 + self.c3 as u64;
        h = h * 4 + self.c4 as u64;
        h = h * 4 + self.c5 as u64;
        h = h * 4 + self.c6 as u64;
        h = h * 4 + self.c7 as u64;
        h = h * 4 + self.c8 as u64;
        h * 4 + self.player as u64
    }

    fn is_final(&self) -> (r: bool) {
        if self.winner_now() != 0 {
            true
        } else {
            let legals = self.legals_moves();
            legals.len() == 0
        }
    }

    fn do_move(&mut self, m: &u8) {
        let p = self.player;
        let mv = *m;
        if mv == 0 {
            self.c0 = p;
        } else if mv == 1 {
            self.c1 = p;
        } else if mv == 2 {
            self.c2 = p;
        } else if mv == 3 {
            self.c3 = p;
        } else if mv == 4 {
            self.c4 = p;
        } else if mv == 5 {
            self.c5 = p;
        } else if mv == 6 {
            self.c6 = p;
        } else if mv == 7 {
            self.c7 = p;
        } else if mv == 8 {
            self.c8 = p;
        }
        self.player = if p == 1 {
            2
        } else {
            1
        };
    }

    fn get_winner(&self) -> (r: u8) {
        self.winner_now()
    }

    fn clone_state(&self) -> (r: Self) {
        *self
    }

    fn players_equal(a: &u8, b: &u8) -> (r: bool) {
        *a == *b
    }

    open spec fn measure_spec(&self) -> nat {
        empties_from(*self, 0).len() + (if self.player == 0 {
            1nat
        } else {
            0nat
        })
    }

    proof fn lemma_nonfinal_has_moves(&self) {
    }

    proof fn lemma_do_move_decreases(&self, m: u8) {
        lemma_empties_member(*self, 0, m);
        let s2 = played(*self, m);
        if self.player == 0 {
            assert forall|j: int| 0 <= j < 9 implies cell(s2, j) == cell(*self, j) by {}
            lemma_empties_same(s2, *self, 0);
            assert(s2.player != 0);
        } else {
            lemma_empties_after(*self, m, 0);
        }
    }
}

} // verus!
