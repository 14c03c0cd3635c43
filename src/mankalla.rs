//! The board engine: sowing, capture, termination and turn alternation.

use vstd::prelude::*;

use crate::codec::{decimal, u8_text};

verus! {

/// Upper bound on the total number of marbles a board may hold, so that every
/// counter and every partial sum fits in a `u8`.
pub const MAX_MARBLES: u8 = 255;

/// The two sides of the board.
#[derive(Clone, Copy, PartialEq, Eq, Structural, Hash, Debug)]
pub enum Player {
    Player1,
    Player2,
}

/// Board state: fourteen counters and the side to move.
///
/// Layout, as seen from player one:
/// ```text
///  13 12 11 10  9  8  7
///      0  1  2  3  4  5  6
/// ```
/// Pits `0..6` belong to player one and `6` is its scoring pit; pits `7..13`
/// belong to player two and `13` is its scoring pit.
#[derive(Clone, Copy, PartialEq, Eq, Hash, Debug)]
pub struct MankallaGameState {
    fields: [u8; 14],
    player_to_move: Player,
}

/// The game as an environment: initial state, legal actions, transitions.
pub struct MankallaGame;

/// Sum of `f[lo..hi]`.
pub open spec fn sum_range(f: Seq<u8>, lo: int, hi: int) -> int
    decreases hi - lo,
{
    if hi <= lo {
        0
    } else {
        sum_range(f, lo, hi - 1) + f[hi - 1] as int
    }
}

/// All marbles on the board.
pub open spec fn total(f: Seq<u8>) -> int {
    sum_range(f, 0, 14)
}

/// Marbles in the six playing pits starting at `base` (0 or 7).
pub open spec fn side_sum(f: Seq<u8>, base: int) -> int {
    sum_range(f, base, base + 6)
}

/// Index of a player's scoring pit.
pub open spec fn store_of(p: Player) -> int {
    match p {
        Player::Player1 => 6,
        Player::Player2 => 13,
    }
}

/// Index of a player's first playing pit.
pub open spec fn base_of(p: Player) -> int {
    match p {
        Player::Player1 => 0,
        Player::Player2 => 7,
    }
}

pub open spec fn other(p: Player) -> Player {
    match p {
        Player::Player1 => Player::Player2,
        Player::Player2 => Player::Player1,
    }
}

/// Whether pit `i` is one of the six playing pits of `p`.
pub open spec fn owns_pit(p: Player, i: int) -> bool {
    base_of(p) <= i < base_of(p) + 6
}

/// Drops `n` marbles one by one into the pits after `pos`, wrapping after 13.
/// Returns the new counters and the pit that received the last marble.
pub open spec fn sow(f: Seq<u8>, pos: int, n: nat) -> (Seq<u8>, int)
    decreases n,
{
    if n == 0 {
        (f, pos)
    } else {
        let next = (pos + 1) % 14;
        sow(f.update(next, (f[next] + 1) as u8), next, (n - 1) as nat)
    }
}

/// The capture rule: the last marble landed at `last` in a previously empty
/// playing pit of the mover, and the opposite pit is not empty.
pub open spec fn steals(f: Seq<u8>, last: int, p: Player) -> bool {
    &&& owns_pit(p, last)
    &&& f[last] == 1
    &&& f[12 - last] > 0
}

/// The board after the capture rule has been applied.
pub open spec fn after_steal(f: Seq<u8>, last: int, p: Player) -> Seq<u8> {
    if steals(f, last, p) {
        let s = store_of(p);
        f.update(s, (f[s] + f[last] + f[12 - last]) as u8).update(last, 0).update(12 - last, 0)
    } else {
        f
    }
}

/// Whether one side's playing pits are all empty.
pub open spec fn game_over(f: Seq<u8>) -> bool {
    side_sum(f, 0) == 0 || side_sum(f, 7) == 0
}

/// Every marble swept into its owner's scoring pit; all playing pits empty.
pub open spec fn harvest(f: Seq<u8>) -> Seq<u8> {
    Seq::new(
        14,
        |k: int|
            if k == 6 {
                (side_sum(f, 0) + f[6]) as u8
            } else if k == 13 {
                (side_sum(f, 7) + f[13]) as u8
            } else {
                0u8
            },
    )
}

/// The mover-centric projection: the mover's six pits, then the opponent's.
pub open spec fn projection(f: Seq<u8>, p: Player) -> Seq<u8> {
    let b = base_of(p);
    let o = base_of(other(p));
    Seq::new(12, |k: int| if k < 6 { f[b + k] } else { f[o + k - 6] })
}

/// Legal actions among the first `k` slots of a projected state, in
/// increasing order: those whose pit holds a marble.
pub open spec fn legal_upto(s: Seq<u8>, k: int) -> Seq<u8>
    decreases k,
{
    if k <= 0 {
        Seq::empty()
    } else if s[k - 1] > 0 {
        legal_upto(s, k - 1).push((k - 1) as u8)
    } else {
        legal_upto(s, k - 1)
    }
}

/// Legal actions of a projected state.
pub open spec fn legal_actions(s: Seq<u8>) -> Seq<u8> {
    legal_upto(s, 6)
}

pub proof fn lemma_legal_upto(s: Seq<u8>, k: int)
    requires
        0 <= k <= 6,
        s.len() == 12,
    ensures
        forall|a: u8| legal_upto(s, k).contains(a) <==> (a < k && s[a as int] > 0),
        legal_upto(s, k).len() == 0 <==> forall|j: int| 0 <= j < k ==> s[j] == 0,
    decreases k,
{
    if k > 0 {
        lemma_legal_upto(s, k - 1);
        let prev = legal_upto(s, k - 1);
        if s[k - 1] > 0 {
            assert(prev.push((k - 1) as u8).contains((k - 1) as u8)) by {
                assert(prev.push((k - 1) as u8)[prev.len() as int] == (k - 1) as u8);
            }
            assert forall|a: u8| legal_upto(s, k).contains(a) <==> (a < k && s[a as int] > 0) by {
                if a < k - 1 && s[a as int] > 0 {
                    assert(prev.contains(a));
                    let j = choose|j: int| 0 <= j < prev.len() && prev[j] == a;
                    assert(prev.push((k - 1) as u8)[j] == a);
                }
                if legal_upto(s, k).contains(a) && a != (k - 1) as u8 {
                    let q = prev.push((k - 1) as u8);
                    let j = choose|j: int| 0 <= j < q.len() && #[trigger] q[j] == a;
                    assert(prev.contains(a)) by { assert(prev[j] == a); }
                }
            }
        }
    }
}


/// Physical pit for action `a` of player `p`.
pub open spec fn pit_for(p: Player, a: u8) -> int {
    base_of(p) + a
}

/// Sowing the contents of the pit chosen by action `a`: the counters after
/// the pit is emptied and its marbles sown, and the pit of the last marble.
pub open spec fn sown(f: Seq<u8>, p: Player, a: u8) -> (Seq<u8>, int) {
    let pit = pit_for(p, a);
    sow(f.update(pit, 0), pit, f[pit] as nat)
}

/// Pit that receives the last marble of action `a`.
pub open spec fn last_pit(f: Seq<u8>, p: Player, a: u8) -> int {
    sown(f, p, a).1
}

/// Counters after sowing and the capture rule, before the termination check.
pub open spec fn before_check(f: Seq<u8>, p: Player, a: u8) -> Seq<u8> {
    after_steal(sown(f, p, a).0, last_pit(f, p, a), p)
}

/// Whether action `a` ends the game.
pub open spec fn move_ends_game(f: Seq<u8>, p: Player, a: u8) -> bool {
    game_over(before_check(f, p, a))
}

/// Counters once action `a` has been played in full (harvested if it ends the game).
pub open spec fn board_after(f: Seq<u8>, p: Player, a: u8) -> Seq<u8> {
    if move_ends_game(f, p, a) {
        harvest(before_check(f, p, a))
    } else {
        before_check(f, p, a)
    }
}

/// Side to move after a move of `p` whose last marble fell in pit `last`:
/// the same player after landing in its own scoring pit, else the other.
pub open spec fn next_mover(p: Player, last: int) -> Player {
    if last == store_of(p) {
        p
    } else {
        other(p)
    }
}

/// Change of player one's score minus change of player two's, from the
/// point of view of the mover `p`.
pub open spec fn reward_of(before: Seq<u8>, after: Seq<u8>, p: Player) -> int {
    let d = (after[6] - before[6]) - (after[13] - before[13]);
    match p {
        Player::Player1 => d,
        Player::Player2 => -d,
    }
}

pub proof fn lemma_sum_nonneg(f: Seq<u8>, lo: int, hi: int)
    ensures
        sum_range(f, lo, hi) >= 0,
    decreases hi - lo,
{
    if hi > lo {
        lemma_sum_nonneg(f, lo, hi - 1);
    }
}

pub proof fn lemma_sum_update(f: Seq<u8>, lo: int, hi: int, i: int, v: u8)
    requires
        0 <= lo,
        hi <= f.len(),
        0 <= i < f.len(),
    ensures
        sum_range(f.update(i, v), lo, hi) == sum_range(f, lo, hi) + (if lo <= i < hi {
            v - f[i]
        } else {
            0
        }),
    decreases hi - lo,
{
    if hi > lo {
        lemma_sum_update(f, lo, hi - 1, i, v);
    }
}

pub proof fn lemma_elem_le_sum(f: Seq<u8>, lo: int, hi: int, i: int)
    requires
        lo <= i < hi,
    ensures
        f[i] <= sum_range(f, lo, hi),
    decreases hi - lo,
{
    if i < hi - 1 {
        lemma_elem_le_sum(f, lo, hi - 1, i);
    } else {
        lemma_sum_nonneg(f, lo, hi - 1);
    }
}

pub proof fn lemma_sum_split(f: Seq<u8>, lo: int, mid: int, hi: int)
    requires
        lo <= mid <= hi,
    ensures
        sum_range(f, lo, hi) == sum_range(f, lo, mid) + sum_range(f, mid, hi),
    decreases hi - mid,
{
    if hi > mid {
        lemma_sum_split(f, lo, mid, hi - 1);
    }
}

/// The board splits into the two sides and the two scoring pits.
pub proof fn lemma_total_parts(f: Seq<u8>)
    ensures
        total(f) == side_sum(f, 0) + f[6] + side_sum(f, 7) + f[13],
{
    lemma_sum_split(f, 0, 6, 14);
    lemma_sum_split(f, 6, 7, 14);
    lemma_sum_split(f, 7, 13, 14);
    reveal_with_fuel(sum_range, 2);
}

/// Sowing keeps the total and keeps every counter within a `u8`.
pub proof fn lemma_sow_total(f: Seq<u8>, pos: int, n: nat)
    requires
        f.len() == 14,
        0 <= pos < 14,
        total(f) + n <= 255,
    ensures
        total(sow(f, pos, n).0) == total(f) + n,
        sow(f, pos, n).0.len() == 14,
        0 <= sow(f, pos, n).1 < 14,
    decreases n,
{
    if n > 0 {
        let next = (pos + 1) % 14;
        lemma_elem_le_sum(f, 0, 14, next);
        let g = f.update(next, (f[next] + 1) as u8);
        lemma_sum_update(f, 0, 14, next, (f[next] + 1) as u8);
        lemma_sow_total(g, next, (n - 1) as nat);
    }
}

/// Whether `step` accepts action `a` in state `s`: an index below six whose
/// pit holds at least one marble.
pub open spec fn accepts(s: MankallaGameState, a: u8) -> bool {
    a < 6 && s.board()[pit_for(s.mover(), a)] > 0
}

pub proof fn lemma_steal_total(f: Seq<u8>, last: int, p: Player)
    requires
        f.len() == 14,
        total(f) <= 255,
        0 <= last < 14,
    ensures
        after_steal(f, last, p).len() == 14,
        total(after_steal(f, last, p)) == total(f),
{
    if steals(f, last, p) {
        let s = store_of(p);
        let j = 12 - last;
        let v = (f[s] + f[last] + f[j]) as u8;
        lemma_elem_le_sum(f, 0, 14, s);
        lemma_sum_update(f, 0, 14, s, 0);
        lemma_elem_le_sum(f.update(s, 0), 0, 14, last);
        lemma_sum_update(f.update(s, 0), 0, 14, last, 0);
        lemma_elem_le_sum(f.update(s, 0).update(last, 0), 0, 14, j);
        let g1 = f.update(s, v);
        lemma_sum_update(f, 0, 14, s, v);
        lemma_sum_update(g1, 0, 14, last, 0);
        lemma_sum_update(g1.update(last, 0), 0, 14, j, 0);
    }
}

pub proof fn lemma_harvest(f: Seq<u8>)
    requires
        f.len() == 14,
        total(f) <= 255,
    ensures
        total(harvest(f)) == total(f),
        side_sum(harvest(f), 0) == 0,
        side_sum(harvest(f), 7) == 0,
        harvest(f)[6] + harvest(f)[13] == total(f),
        forall|k: int| 0 <= k < 14 && k != 6 && k != 13 ==> harvest(f)[k] == 0,
{
    lemma_total_parts(f);
    lemma_sum_nonneg(f, 0, 6);
    lemma_sum_nonneg(f, 7, 13);
    lemma_total_parts(harvest(f));
    reveal_with_fuel(sum_range, 7);
}

/// Marble conservation: playing a legal move never changes the total number
/// of marbles on the board, whether or not it ends the game.
pub proof fn lemma_marbles_conserved(s: MankallaGameState, a: u8)
    requires
        s.wf(),
        accepts(s, a),
    ensures
        total(board_after(s.board(), s.mover(), a)) == total(s.board()),
        board_after(s.board(), s.mover(), a).len() == 14,
{
    let f = s.board();
    let pit = pit_for(s.mover(), a);
    lemma_sum_update(f, 0, 14, pit, 0);
    lemma_elem_le_sum(f, 0, 14, pit);
    lemma_sow_total(f.update(pit, 0), pit, f[pit] as nat);
    let g = sown(f, s.mover(), a);
    lemma_steal_total(g.0, g.1, s.mover());
    if move_ends_game(f, s.mover(), a) {
        lemma_harvest(before_check(f, s.mover(), a));
    }
}

/// Legal-action soundness: in a state where play goes on, there is at least
/// one legal action, and `step` accepts every legal action.
pub proof fn lemma_live_has_actions(s: MankallaGameState)
    requires
        s.is_live(),
    ensures
        legal_actions(s.relevant()).len() > 0,
        forall|a: u8| legal_actions(s.relevant()).contains(a) ==> accepts(s, a),
{
    let f = s.board();
    let b = base_of(s.mover());
    lemma_legal_upto(s.relevant(), 6);
    if legal_actions(s.relevant()).len() == 0 {
        assert(sum_range(f, b, b + 6) == 0) by {
            reveal_with_fuel(sum_range, 7);
            assert(s.relevant()[0] == 0 && s.relevant()[1] == 0 && s.relevant()[2] == 0);
            assert(s.relevant()[3] == 0 && s.relevant()[4] == 0 && s.relevant()[5] == 0);
        }
    }
}

/// A terminal move sweeps the board: all twelve playing pits end empty and
/// the two scoring pits together hold every marble that was on the board.
pub proof fn lemma_terminal_sweep(s: MankallaGameState, a: u8)
    requires
        s.wf(),
        accepts(s, a),
        move_ends_game(s.board(), s.mover(), a),
    ensures
        forall|k: int|
            0 <= k < 14 && k != 6 && k != 13 ==> #[trigger] board_after(s.board(), s.mover(), a)[k]
                == 0,
        board_after(s.board(), s.mover(), a)[6] + board_after(s.board(), s.mover(), a)[13]
            == total(s.board()),
{
    let f = s.board();
    let pit = pit_for(s.mover(), a);
    lemma_sum_update(f, 0, 14, pit, 0);
    lemma_elem_le_sum(f, 0, 14, pit);
    lemma_sow_total(f.update(pit, 0), pit, f[pit] as nat);
    let g = sown(f, s.mover(), a);
    lemma_steal_total(g.0, g.1, s.mover());
    lemma_harvest(before_check(f, s.mover(), a));
}

/// Free turn: after a move that does not end the game, the same player moves
/// again exactly when the last marble fell in that player's scoring pit.
pub proof fn lemma_free_turn(s: MankallaGameState, a: u8)
    requires
        s.wf(),
        accepts(s, a),
        !move_ends_game(s.board(), s.mover(), a),
    ensures
        next_mover(s.mover(), last_pit(s.board(), s.mover(), a)) == s.mover()
            <==> last_pit(s.board(), s.mover(), a) == store_of(s.mover()),
{
}

/// A counter's decimal text, right-aligned in two columns.
pub open spec fn cell_text(v: u8) -> Seq<char> {
    let t = decimal(v as nat);
    if t.len() < 2 {
        seq![' '] + t
    } else {
        t
    }
}

/// The cells of the counters at the indices `order`, one after another.
pub open spec fn cells(f: Seq<u8>, order: Seq<int>) -> Seq<char>
    decreases order.len(),
{
    if order.len() == 0 {
        Seq::empty()
    } else {
        cells(f, order.drop_last()) + cell_text(f[order.last()])
    }
}

/// The board as two lines: player two's pits and scoring pit, right to left,
/// above player one's pits and scoring pit, shifted by one cell.
pub open spec fn board_text(f: Seq<u8>) -> Seq<char> {
    cells(f, seq![13, 12, 11, 10, 9, 8, 7]) + seq!['\n', ' ', ' '] + cells(
        f,
        seq![0, 1, 2, 3, 4, 5, 6],
    )
}

/// Writes the cells of `f` at the indices `order`.
fn write_cells(f: &[u8; 14], order: &[usize; 7]) -> (r: String)
    requires
        forall|k: int| 0 <= k < 7 ==> order@[k] < 14,
    ensures
        r@ == cells(f@, order@.map_values(|i: usize| i as int)),
{
    let ghost ord = order@.map_values(|i: usize| i as int);
    let mut r = String::new();
    let mut k: usize = 0;
    assert(ord.take(0) =~= Seq::<int>::empty());
    while k < 7
        invariant
            k <= 7,
            ord == order@.map_values(|i: usize| i as int),
            forall|j: int| 0 <= j < 7 ==> order@[j] < 14,
            r@ == cells(f@, ord.take(k as int)),
        decreases 7 - k,
    {
        let v = f[order[k]];
        let t = u8_text(v);
        assert(ord.take(k + 1).drop_last() =~= ord.take(k as int));
        assert(ord.take(k + 1).last() == order@[k as int] as int);
        if v < 10 {
            proof {
                reveal_with_fuel(decimal, 1);
            }
            r.append(" ");
            proof {
                reveal_strlit(" ");
            }
        } else {
            proof {
                reveal_with_fuel(decimal, 2);
            }
        }
        let ghost before = r@;
        r.append(t.as_str());
        assert(r@ =~= before + t@);
        k = k + 1;
    }
    assert(ord.take(7) =~= ord);
    r
}

impl MankallaGameState {
    /// The counters as a sequence of fourteen values.
    pub closed spec fn board(&self) -> Seq<u8> {
        self.fields@
    }

    pub closed spec fn mover(&self) -> Player {
        self.player_to_move
    }

    /// Every counter and every sum of counters fits in a `u8`.
    pub open spec fn wf(&self) -> bool {
        total(self.board()) <= MAX_MARBLES
    }

    /// A state from which play can go on: both sides hold marbles.
    pub open spec fn is_live(&self) -> bool {
        self.wf() && !game_over(self.board())
    }

    pub open spec fn relevant(&self) -> Seq<u8> {
        projection(self.board(), self.mover())
    }

    /// The opening position: six marbles in each playing pit, player one to move.
    pub fn initial() -> (r: Self)
        ensures
            r.board() == seq![6u8, 6, 6, 6, 6, 6, 0, 6, 6, 6, 6, 6, 6, 0],
            r.mover() == Player::Player1,
            r.is_live(),
    {
        let r = MankallaGameState {
            fields: [6, 6, 6, 6, 6, 6, 0, 6, 6, 6, 6, 6, 6, 0],
            player_to_move: Player::Player1,
        };
        assert(r.fields@ =~= seq![6u8, 6, 6, 6, 6, 6, 0, 6, 6, 6, 6, 6, 6, 0]);
        proof {
            reveal_with_fuel(sum_range, 15);
        }
        r
    }

    /// A position given by its counters and side to move; `None` when the
    /// counters hold more than `MAX_MARBLES` marbles in all.
    pub fn from_fields(fields: [u8; 14], player_to_move: Player) -> (r: Option<Self>)
        ensures
            r is Some <==> total(fields@) <= MAX_MARBLES,
            r matches Some(s) ==> s.board() == fields@ && s.mover() == player_to_move,
    {
        let mut sum: u32 = 0;
        let mut k: usize = 0;
        while k < 14
            invariant
                k <= 14,
                sum == sum_range(fields@, 0, k as int),
                sum <= 255 * k,
            decreases 14 - k,
        {
            sum = sum + fields[k] as u32;
            k = k + 1;
        }
        if sum <= MAX_MARBLES as u32 {
            Some(MankallaGameState { fields, player_to_move })
        } else {
            None
        }
    }

    /// Score of `player`: the contents of its scoring pit.
    pub fn get_points(&self, player: &Player) -> (r: u8)
        ensures
            r == self.board()[store_of(*player)],
    {
        match player {
            Player::Player1 => self.fields[6],
            Player::Player2 => self.fields[13],
        }
    }

    /// Applies the capture rule for a move of the side to move whose last
    /// marble fell in pit `i`.
    pub fn handle_steal(&mut self, i: usize)
        requires
            old(self).wf(),
            i < 14,
        ensures
            final(self).board() == after_steal(old(self).board(), i as int, old(self).mover()),
            final(self).mover() == old(self).mover(),
            total(final(self).board()) == total(old(self).board()),
            final(self).wf(),
    {
        let ghost f = self.fields@;
        let p = self.player_to_move;
        let takes = match p {
            Player::Player1 => i < 6 && self.fields[i] == 1 && self.fields[12 - i] > 0,
            Player::Player2 => 6 < i && i < 13 && self.fields[i] == 1 && self.fields[12 - i] > 0,
        };
        if takes {
            let s: usize = match p {
                Player::Player1 => 6,
                Player::Player2 => 13,
            };
            let j: usize = 12 - i;
            proof {
                let v = (f[s as int] + f[i as int] + f[j as int]) as u8;
                let g1 = f.update(s as int, v);
                let g2 = g1.update(i as int, 0);
                lemma_sum_update(f, 0, 14, s as int, v);
                lemma_sum_update(g1, 0, 14, i as int, 0);
                lemma_sum_update(g2, 0, 14, j as int, 0);
                lemma_elem_le_sum(f, 0, 14, s as int);
                lemma_elem_le_sum(f.update(s as int, 0), 0, 14, i as int);
                lemma_sum_update(f, 0, 14, s as int, 0);
                lemma_elem_le_sum(f.update(s as int, 0).update(i as int, 0), 0, 14, j as int);
                lemma_sum_update(f.update(s as int, 0), 0, 14, i as int, 0);
            }
            self.fields[s] = self.fields[s] + self.fields[i] + self.fields[j];
            self.fields[i] = 0;
            self.fields[j] = 0;
        }
    }

    /// Ends the game when one side's playing pits are all empty: every
    /// marble goes to its owner's scoring pit. Returns whether it did.
    pub fn handle_if_game_finished(&mut self) -> (r: bool)
        requires
            old(self).wf(),
        ensures
            r == game_over(old(self).board()),
            final(self).board() == (if r {
                harvest(old(self).board())
            } else {
                old(self).board()
            }),
            final(self).mover() == old(self).mover(),
            total(final(self).board()) == total(old(self).board()),
            final(self).wf(),
    {
        let ghost f = self.fields@;
        let mut p1_sum: u32 = 0;
        let mut p2_sum: u32 = 0;
        let mut k: usize = 0;
        while k < 6
            invariant
                k <= 6,
                self.fields@ == f,
                p1_sum == sum_range(f, 0, k as int),
                p2_sum == sum_range(f, 7, 7 + k),
                p1_sum <= 255 * k,
                p2_sum <= 255 * k,
            decreases 6 - k,
        {
            p1_sum = p1_sum + self.fields[k] as u32;
            p2_sum = p2_sum + self.fields[7 + k] as u32;
            k = k + 1;
        }
        if p1_sum != 0 && p2_sum != 0 {
            return false;
        }
        proof {
            lemma_total_parts(f);
            lemma_sum_nonneg(f, 0, 6);
            lemma_sum_nonneg(f, 7, 13);
        }
        let p1_total = (p1_sum + self.fields[6] as u32) as u8;
        let p2_total = (p2_sum + self.fields[13] as u32) as u8;
        let mut k: usize = 0;
        while k < 14
            invariant
                k <= 14,
                self.fields@.len() == 14,
                self.player_to_move == old(self).player_to_move,
                forall|j: int| 0 <= j < k ==> self.fields@[j] == 0,
            decreases 14 - k,
        {
            self.fields[k] = 0;
            k = k + 1;
        }
        self.fields[6] = p1_total;
        self.fields[13] = p2_total;
        assert(self.fields@ =~= harvest(f));
        proof {
            lemma_total_parts(self.fields@);
            reveal_with_fuel(sum_range, 7);
        }
        true
    }

    /// Passes the turn to the other side unless the last marble of the move
    /// fell in pit `i`, the mover's own scoring pit.
    pub fn handle_switch_player(&mut self, i: usize)
        ensures
            final(self).board() == old(self).board(),
            final(self).mover() == next_mover(old(self).mover(), i as int),
    {
        if self.player_to_move == Player::Player1 && i != 6
            || self.player_to_move == Player::Player2 && i != 13
        {
            self.player_to_move = match self.player_to_move {
                Player::Player1 => Player::Player2,
                Player::Player2 => Player::Player1,
            }
        }
    }

    /// The board as text, as `board_text` describes.
    pub fn to_text(&self) -> (r: String)
        ensures
            r@ == board_text(self.board()),
    {
        let top = write_cells(&self.fields, &[13, 12, 11, 10, 9, 8, 7]);
        let bottom = write_cells(&self.fields, &[0, 1, 2, 3, 4, 5, 6]);
        let mut r = top;
        r.append("\n  ");
        r.append(bottom.as_str());
        proof {
            reveal_strlit("\n  ");
        }
        assert(seq![13usize, 12, 11, 10, 9, 8, 7].map_values(|i: usize| i as int) =~= seq![
            13int,
            12,
            11,
            10,
            9,
            8,
            7,
        ]);
        assert(seq![0usize, 1, 2, 3, 4, 5, 6].map_values(|i: usize| i as int) =~= seq![
            0int,
            1,
            2,
            3,
            4,
            5,
            6,
        ]);
        assert(r@ =~= board_text(self.board()));
        r
    }

    /// The fourteen counters.
    pub fn fields(&self) -> (r: [u8; 14])
        ensures
            r@ == self.board(),
    {
        self.fields
    }

    /// The side to move.
    pub fn get_player_to_move(&self) -> (r: Player)
        ensures
            r == self.mover(),
    {
        self.player_to_move
    }
}

impl MankallaGameState {
    /// The learning key of this state: the mover's six playing pits, then the
    /// opponent's six; scoring pits and the side to move are left out.
    pub fn action_relevant_state(&self) -> (r: [u8; 12])
        ensures
            r@ == self.relevant(),
    {
        let (b, o): (usize, usize) = match self.player_to_move {
            Player::Player1 => (0, 7),
            Player::Player2 => (7, 0),
        };
        let mut r: [u8; 12] = [0u8; 12];
        let mut k: usize = 0;
        while k < 6
            invariant
                k <= 6,
                r@.len() == 12,
                b == base_of(self.mover()),
                o == base_of(other(self.mover())),
                self.board() == self.fields@,
                forall|j: int|
                    0 <= j < k ==> #[trigger] r@[j] == self.fields@[b + j] && r@[j + 6] == self.fields@[o + j],
            decreases 6 - k,
        {
            r[k] = self.fields[b + k];
            r[k + 6] = self.fields[o + k];
            k = k + 1;
        }
        assert forall|j: int| 6 <= j < 12 implies r@[j] == self.relevant()[j] by {
            assert(r@[j - 6] == self.fields@[b + j - 6]);
        }
        assert(r@ =~= self.relevant());
        r
    }
}

impl vstd::std_specs::convert::FromSpecImpl<MankallaGameState> for [u8; 12] {
    open spec fn obeys_from_spec() -> bool {
        true
    }

    open spec fn from_spec(v: MankallaGameState) -> [u8; 12] {
        choose|r: [u8; 12]| r@ == v.relevant()
    }
}

impl Default for MankallaGameState {
    /// The opening position.
    fn default() -> (r: Self)
        ensures
            r.board() == seq![6u8, 6, 6, 6, 6, 6, 0, 6, 6, 6, 6, 6, 6, 0],
            r.mover() == Player::Player1,
            r.is_live(),
    {
        MankallaGameState::initial()
    }
}

impl From<MankallaGameState> for [u8; 12] {
    fn from(value: MankallaGameState) -> (r: [u8; 12])
        ensures
            r@ == value.relevant(),
    {
        let r = value.action_relevant_state();
        let ghost c = choose|c: [u8; 12]| c@ == value.relevant();
        assert(r =~= c);
        r
    }
}

impl MankallaGame {
    /// The opening position.
    pub fn new() -> (r: MankallaGameState)
        ensures
            r.board() == seq![6u8, 6, 6, 6, 6, 6, 0, 6, 6, 6, 6, 6, 6, 0],
            r.mover() == Player::Player1,
            r.is_live(),
    {
        MankallaGameState::initial()
    }

    /// Legal actions of a projected state: the indices among the mover's
    /// six pits that hold at least one marble, in increasing order.
    pub fn actions(state: &[u8; 12]) -> (r: Vec<u8>)
        ensures
            r@ == legal_actions(state@),
            forall|a: u8| r@.contains(a) <==> (a < 6 && state@[a as int] > 0),
    {
        let mut r: Vec<u8> = Vec::new();
        let mut k: usize = 0;
        while k < 6
            invariant
                k <= 6,
                r@ == legal_upto(state@, k as int),
            decreases 6 - k,
        {
            if state[k] > 0 {
                r.push(k as u8);
            }
            k = k + 1;
        }
        proof {
            lemma_legal_upto(state@, 6);
        }
        r
    }

    /// Plays `action` for the side to move. Returns the next state, or
    /// `None` when the move ends the game, and the change of player one's
    /// score minus that of player two, negated when player two moved.
    pub fn step(state: &MankallaGameState, action: &u8) -> (r: (Option<MankallaGameState>, i32))
        requires
            state.wf(),
            accepts(*state, *action),
        ensures
            r.0 is None <==> move_ends_game(state.board(), state.mover(), *action),
            r.0 matches Some(n) ==> {
                &&& n.board() == board_after(state.board(), state.mover(), *action)
                &&& n.mover() == next_mover(state.mover(), last_pit(state.board(), state.mover(), *action))
                &&& n.is_live()
            },
            r.1 == reward_of(
                state.board(),
                board_after(state.board(), state.mover(), *action),
                state.mover(),
            ),
    {
        let mut next = *state;
        let p1_points = next.get_points(&Player::Player1);
        let p2_points = next.get_points(&Player::Player2);
        let mut i: usize = match next.player_to_move {
            Player::Player1 => *action as usize,
            Player::Player2 => (*action + 7) as usize,
        };
        let ghost f = state.fields@;
        let ghost pit = i as int;
        let mut marbles_to_move = next.fields[i];
        next.fields[i] = 0;
        let ghost f0 = next.fields@;
        proof {
            lemma_sum_update(f, 0, 14, pit, 0);
            lemma_elem_le_sum(f, 0, 14, pit);
        }
        while marbles_to_move > 0
            invariant
                i < 14,
                next.player_to_move == state.player_to_move,
                sow(next.fields@, i as int, marbles_to_move as nat) == sow(f0, pit, f[pit] as nat),
                total(next.fields@) + marbles_to_move == total(f),
                total(f) <= 255,
            decreases marbles_to_move,
        {
            proof {
                lemma_elem_le_sum(next.fields@, 0, 14, (i as int + 1) % 14);
                lemma_sum_update(
                    next.fields@,
                    0,
                    14,
                    (i as int + 1) % 14,
                    (next.fields@[(i as int + 1) % 14] + 1) as u8,
                );
            }
            i = (i + 1) % 14;
            next.fields[i] = next.fields[i] + 1;
            marbles_to_move = marbles_to_move - 1;
        }
        assert(next.fields@ == sown(f, state.mover(), *action).0);
        next.handle_steal(i);
        let finished = next.handle_if_game_finished();
        let mut reward: i32 = (next.get_points(&Player::Player1) as i32 - p1_points as i32) - (
        next.get_points(&Player::Player2) as i32 - p2_points as i32);
        if next.player_to_move == Player::Player2 {
            reward = -reward;
        }
        if finished {
            return (None, reward);
        }
        next.handle_switch_player(i);
        proof {
            lemma_total_parts(next.fields@);
        }
        (Some(next), reward)
    }
}

} // verus!
