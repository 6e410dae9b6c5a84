use crate::board::{
    lemma_picked_up_total, lemma_sown_total, lemma_sum_extend, lemma_sum_fill, lemma_sum_split,
    lemma_walk_range, rendered, seeds_of, sum, walk, BoardView, Cup, CupPos, MancalaBoard, Move,
    SowFilter,
};
use crate::{GameState, MancalaError, Player};
use compare::Compare;
use std::cmp::Ordering;
use vstd::prelude::*;

verus! {

/// Cups on the whole board of a standard game.
pub const BOARD_SIZE: usize = 12;

/// Seeds in each cup when a standard game starts.
pub const STARTING_COUNT: usize = 4;

/// Laps of relay sowing after which a move is given up as endless. Relay
/// sowing need not come to rest on every board (two cups each holding a
/// seed relay forever), and no real game comes near this many laps.
pub const RELAY_LIMIT: u64 = 18446744073709551615;

/// One sowing of `p`'s hand from index `s`, skipping the starting cup: the
/// board after it, and the index of the cup that took the last seed.
pub open spec fn sow_step(v: BoardView, p: Player, s: int) -> (BoardView, int) {
    (
        v.sown(p, s, SowFilter::SkipStart),
        walk(SowFilter::SkipStart, v.seeds.len() as int, s, v.hand_of(p)),
    )
}

/// Relay sowing once the last seed fell into the cup at `last`: while that cup
/// holds more than one seed, `p` lifts it and sows on from it. The board and
/// the cup where the relay came to rest, or `None` when it has not come to
/// rest within `fuel` laps.
pub open spec fn relay(v: BoardView, p: Player, last: int, fuel: nat) -> Option<(BoardView, int)>
    decreases fuel,
{
    if v.seeds[last] <= 1 {
        Some((v, last))
    } else if fuel == 0 {
        None
    } else {
        let next = sow_step(v.picked_up(last, p), p, last);
        relay(next.0, p, next.1, (fuel - 1) as nat)
    }
}

/// The board after `p` lifts their cup `cup`, sows it with relays and, when
/// the relay rests on one of `p`'s own cups, banks the opponent's cup facing it.
pub open spec fn simulate(v: BoardView, p: Player, cup: int) -> Result<BoardView, MancalaError> {
    if !(0 <= cup < v.half()) {
        Err(MancalaError::NoSuchCup)
    } else {
        let s = v.index_of(p, cup);
        let lifted = v.picked_up(s, p);
        if lifted.hand_of(p) == 0 {
            Err(MancalaError::NoSeedsToSow)
        } else {
            let first = sow_step(lifted, p, s);
            match relay(first.0, p, first.1, RELAY_LIMIT as nat) {
                None => Err(MancalaError::NoSeedsToSow),
                Some(rest) => Ok(
                    if rest.0.owner_at(rest.1) == p {
                        rest.0.picked_up(rest.0.mirror(rest.1), p).banked(p)
                    } else {
                        rest.0
                    },
                ),
            }
        }
    }
}

/// Every cup emptied into its own owner's bank.
pub open spec fn swept(v: BoardView) -> BoardView {
    BoardView {
        seeds: Seq::new(v.seeds.len(), |i: int| 0nat),
        bank: (
            v.bank.0 + sum(v.seeds.subrange(0, v.half())),
            v.bank.1 + sum(v.seeds.subrange(v.half(), v.seeds.len() as int)),
        ),
        hand: v.hand,
    }
}

/// The result of a finished game, from `p`'s side: the larger bank wins.
pub open spec fn verdict(v: BoardView, p: Player) -> GameState {
    if v.bank_of(p) > v.bank_of(p.other()) {
        GameState::Won(p)
    } else if v.bank_of(p) < v.bank_of(p.other()) {
        GameState::Won(p.other())
    } else {
        GameState::Draw
    }
}

/// Playing `cup` leaves `p`'s opponent with seeds.
pub open spec fn feeds(v: BoardView, p: Player, cup: int) -> bool {
    match simulate(v, p, cup) {
        Ok(w) => !w.starving(p.other()),
        Err(_) => false,
    }
}

/// Some cup of `p` other than `cup` would feed the opponent.
pub open spec fn feeding_alternative(v: BoardView, p: Player, cup: int) -> bool {
    exists|i: int| 0 <= i < BOARD_SIZE / 2 && i != cup && #[trigger] feeds(v, p, i)
}

/// Board and state once `p`'s move produced `w`: the game ends when the
/// opponent is left starving.
pub open spec fn finish(w: BoardView, p: Player) -> (BoardView, GameState) {
    if w.starving(p.other()) {
        (swept(w), verdict(swept(w), p))
    } else {
        (w, GameState::InProgress(p.other()))
    }
}

/// What playing `cup` does to a game with board `v` in state `state`: the new
/// board and state, or the error that refuses the move.
pub open spec fn outcome(v: BoardView, state: GameState, cup: int) -> Result<
    (BoardView, GameState),
    MancalaError,
> {
    match state {
        GameState::InProgress(p) => {
            if cup >= BOARD_SIZE / 2 || cup >= v.half() {
                Err(MancalaError::NoSuchCup)
            } else if v.seeds[v.index_of(p, cup)] == 0 {
                Err(MancalaError::NoSeedsToSow)
            } else {
                match simulate(v, p, cup) {
                    Err(e) => Err(e),
                    Ok(w) => {
                        if v.starving(p.other()) && w.starving(p.other()) && feeding_alternative(
                            v,
                            p,
                            cup,
                        ) {
                            Err(MancalaError::MustFeedError)
                        } else {
                            Ok(finish(w, p))
                        }
                    },
                }
            }
        },
        _ => Ok((v, state)),
    }
}

/// Relies on compare::natural, whose comparator orders values by `Ord::cmp`.
#[verifier::external_body]
fn compare_counts(a: usize, b: usize) -> (r: Ordering)
    ensures
        (r == Ordering::Less) == (a < b),
        (r == Ordering::Greater) == (a > b),
        (r == Ordering::Equal) == (a == b),
{
    compare::natural().compare(&a, &b)
}

/// A game of Ayoayo: the board and whose turn it is, or how the game ended.
#[derive(Debug, PartialEq)]
pub struct Ayoayo {
    pub board: MancalaBoard,
    pub state: GameState,
}

impl Clone for Ayoayo {
    fn clone(&self) -> (r: Ayoayo)
        ensures
            r.board.cups@ == self.board.cups@,
            r.board@ == self.board@,
            r.board.log() == self.board.log(),
            r.state == self.state,
    {
        Ayoayo { board: self.board.clone(), state: self.state }
    }
}

/// Relay sowing keeps every seed and leaves both hands empty.
proof fn lemma_relay(v: BoardView, p: Player, last: int, fuel: nat)
    requires
        v.seeds.len() >= 2,
        v.seeds.len() % 2 == 0,
        0 <= last < v.seeds.len(),
        v.hand == (0nat, 0nat),
    ensures
        relay(v, p, last, fuel) matches Some(r) ==> {
            &&& r.0.total() == v.total()
            &&& r.0.hand == (0nat, 0nat)
            &&& r.0.seeds.len() == v.seeds.len()
            &&& 0 <= r.1 < v.seeds.len()
        },
    decreases fuel,
{
    if v.seeds[last] > 1 && fuel > 0 {
        let lifted = v.picked_up(last, p);
        lemma_picked_up_total(v, last, p);
        lemma_sown_total(lifted, p, last, SowFilter::SkipStart);
        lemma_walk_range(SowFilter::SkipStart, v.seeds.len() as int, last, lifted.hand_of(p));
        let next = sow_step(lifted, p, last);
        assert(next.0.hand == (0nat, 0nat)) by {
            assert(next.0.hand_of(p) == 0 && next.0.hand_of(p.other()) == 0);
        }
        lemma_relay(next.0, p, next.1, (fuel - 1) as nat);
    }
}

/// A move keeps every seed: the board, banks and hands hold as many after it
/// as before, and it ends with both hands empty.
pub proof fn lemma_simulate(v: BoardView, p: Player, cup: int)
    requires
        v.seeds.len() % 2 == 0,
        v.hand == (0nat, 0nat),
    ensures
        simulate(v, p, cup) matches Ok(w) ==> {
            &&& w.total() == v.total()
            &&& w.hand == (0nat, 0nat)
            &&& w.seeds.len() == v.seeds.len()
        },
{
    if 0 <= cup < v.half() {
        let s = v.index_of(p, cup);
        let lifted = v.picked_up(s, p);
        lemma_picked_up_total(v, s, p);
        if lifted.hand_of(p) > 0 {
            lemma_sown_total(lifted, p, s, SowFilter::SkipStart);
            lemma_walk_range(SowFilter::SkipStart, v.seeds.len() as int, s, lifted.hand_of(p));
            let first = sow_step(lifted, p, s);
            assert(first.0.hand == (0nat, 0nat)) by {
                assert(first.0.hand_of(p) == 0 && first.0.hand_of(p.other()) == 0);
            }
            lemma_relay(first.0, p, first.1, RELAY_LIMIT as nat);
            if let Some(rest) = relay(first.0, p, first.1, RELAY_LIMIT as nat) {
                if rest.0.owner_at(rest.1) == p {
                    let m = rest.0.mirror(rest.1);
                    lemma_picked_up_total(rest.0, m, p);
                    let taken = rest.0.picked_up(m, p);
                    assert(taken.banked(p).hand == (0nat, 0nat)) by {
                        assert(taken.banked(p).hand_of(p) == 0);
                        assert(taken.banked(p).hand_of(p.other()) == 0);
                    }
                }
            }
        }
    }
}

impl Ayoayo {
    /// A standard game: six cups a side with four seeds each, empty banks,
    /// player one to move.
    pub fn new() -> (r: Ayoayo)
        ensures
            r.wf(),
            r.state == GameState::InProgress(Player::Player1),
            r.board@.seeds == Seq::new(BOARD_SIZE as nat, |i: int| STARTING_COUNT as nat),
            r.board@.bank == (0nat, 0nat),
            r.board@.total() == BOARD_SIZE * STARTING_COUNT,
            r.board.log() == Seq::<Seq<Move>>::empty(),
    {
        let h = BOARD_SIZE / 2;
        let mut cups: Vec<Cup> = Vec::new();
        let mut i: usize = 0;
        while i < BOARD_SIZE
            invariant
                h == BOARD_SIZE / 2,
                i <= BOARD_SIZE,
                cups@.len() == i,
                forall|x: int|
                    0 <= x < i ==> #[trigger] cups@[x] == (Cup {
                        owner: if x < h { Player::Player1 } else { Player::Player2 },
                        seeds: STARTING_COUNT,
                        pos: (if x < h { x } else { x - h }) as usize,
                    }),
            decreases BOARD_SIZE - i,
        {
            let owner = if i < h { Player::Player1 } else { Player::Player2 };
            let pos = if i < h { i } else { i - h };
            cups.push(Cup { owner, seeds: STARTING_COUNT, pos });
            i = i + 1;
        }
        assert(seeds_of(cups@) =~= Seq::new(BOARD_SIZE as nat, |i: int| STARTING_COUNT as nat));
        proof {
            lemma_sum_fill(BOARD_SIZE as nat, STARTING_COUNT as nat);
        }
        let board = MancalaBoard::new(cups, &[Player::Player1, Player::Player2]);
        Ayoayo { board, state: GameState::InProgress(Player::Player1) }
    }

    /// The board drawn as two lines, as `MancalaBoard::render` draws it.
    pub fn render(&self) -> (r: String)
        requires
            self.wf(),
        ensures
            r@ == rendered(self.board@),
    {
        self.board.render()
    }

    /// The board is laid out and holds no more seeds than a count can, and
    /// nobody has seeds in hand.
    pub open spec fn wf(self) -> bool {
        &&& self.board.wf()
        &&& self.board@.hand == (0nat, 0nat)
    }

    /// Plays `player`'s cup `cup` on this game's board, relays included;
    /// the state is left alone.
    fn sow(&mut self, player: Player, cup: usize) -> (r: Result<(), MancalaError>)
        requires
            old(self).board.wf(),
        ensures
            final(self).board.wf(),
            final(self).state == old(self).state,
            match simulate(old(self).board@, player, cup as int) {
                Ok(w) => r is Ok && final(self).board@ == w,
                Err(e) => r == Err::<(), MancalaError>(e),
            },
    {
        let ghost v = self.board@;
        let ghost n = self.board.cups@.len() as int;
        let pos = CupPos { owner: player, pos: cup };
        if self.board.pickup(pos, player).is_none() {
            return Err(MancalaError::NoSuchCup);
        }
        let ghost s = v.index_of(player, cup as int);
        let mut last = match self.board.sow(player, pos, SowFilter::SkipStart) {
            Ok(c) => c,
            Err(e) => return Err(e),
        };
        let ghost mut li: int = walk(SowFilter::SkipStart, n, s, v.picked_up(s, player).hand_of(player));
        proof {
            lemma_walk_range(SowFilter::SkipStart, n, s, v.picked_up(s, player).hand_of(player));
            lemma_sown_total(v.picked_up(s, player), player, s, SowFilter::SkipStart);
            assert(self.board.cups@.len() == self.board@.seeds.len());
        }
        let mut fuel: u64 = RELAY_LIMIT;
        while last.seeds > 1
            invariant
                self.board.wf(),
                self.state == old(self).state,
                v == old(self).board@,
                self.board.cups@.len() == n,
                n >= 2,
                0 <= li < n,
                last == self.board.cups@[li],
                simulate(v, player, cup as int) == match relay(self.board@, player, li, fuel as nat) {
                    None => Err(MancalaError::NoSeedsToSow),
                    Some(rest) => Ok(
                        if rest.0.owner_at(rest.1) == player {
                            rest.0.picked_up(rest.0.mirror(rest.1), player).banked(player)
                        } else {
                            rest.0
                        },
                    ),
                },
            decreases fuel,
        {
            let ghost cur = self.board@;
            assert(cur.seeds[li] == last.seeds as nat);
            if fuel == 0 {
                assert(relay(cur, player, li, 0) is None);
                return Err(MancalaError::NoSeedsToSow);
            }
            let lp = last.position();
            assert(cur.index_of(lp.owner, lp.pos as int) == li);
            self.board.pickup(lp, player);
            let ghost k = cur.picked_up(li, player).hand_of(player);
            last = match self.board.sow(player, lp, SowFilter::SkipStart) {
                Ok(c) => c,
                Err(e) => return Err(e),
            };
            proof {
                lemma_walk_range(SowFilter::SkipStart, n, li, k);
                lemma_sown_total(cur.picked_up(li, player), player, li, SowFilter::SkipStart);
                assert(self.board.cups@.len() == self.board@.seeds.len());
                li = walk(SowFilter::SkipStart, n, li, k);
            }
            fuel = fuel - 1;
        }
        if last.owner == player {
            let ghost cur = self.board@;
            let mirror = CupPos { owner: player.next_player(), pos: last.pos };
            assert(cur.index_of(mirror.owner, mirror.pos as int) == cur.mirror(li));
            self.board.pickup(mirror, player);
            self.board.bank(player);
        }
        Ok(())
    }

    /// Ends the game after `player`'s move: every cup is emptied into its own
    /// owner's bank, and the larger bank wins.
    fn win_state(&mut self, player: Player)
        requires
            old(self).board.wf(),
            old(self).board@.hand == (0nat, 0nat),
        ensures
            final(self).board.wf(),
            final(self).board@ == swept(old(self).board@),
            final(self).state == verdict(swept(old(self).board@), player),
    {
        let n = self.board.cups.len();
        let ghost v = self.board@;
        let ghost h = v.half();
        let mut i: usize = 0;
        while i < n
            invariant
                self.board.wf(),
                self.board.cups@.len() == n,
                v.seeds.len() == n,
                h == n / 2,
                i <= n,
                self.board@.hand == (0nat, 0nat),
                self.board@.seeds == Seq::new(n as nat, |x: int| if x < i { 0nat } else { v.seeds[x] }),
                self.board@.bank.0 == v.bank.0 + sum(v.seeds.subrange(0, if i < h { i as int } else { h })),
                self.board@.bank.1 == v.bank.1 + sum(v.seeds.subrange(h, if i < h { h } else { i as int })),
            decreases n - i,
        {
            let c = self.board.cups[i];
            let ghost cur = self.board@;
            assert(cur.index_of(c.owner, c.pos as int) == i);
            assert(cur.seeds[i as int] == v.seeds[i as int]);
            self.board.pickup(c.position(), c.owner);
            self.board.bank(c.owner);
            proof {
                if i < h {
                    lemma_sum_extend(v.seeds, 0, i as int);
                } else {
                    lemma_sum_extend(v.seeds, h, i as int);
                }
                assert(self.board@.seeds =~= Seq::new(
                    n as nat,
                    |x: int| if x < i + 1 { 0nat } else { v.seeds[x] },
                ));
            }
            i = i + 1;
        }
        assert(self.board@.seeds =~= swept(v).seeds);
        let mine = self.board.bank.get(player);
        let theirs = self.board.bank.get(player.next_player());
        self.state = match compare_counts(mine, theirs) {
            Ordering::Less => GameState::Won(player.next_player()),
            Ordering::Greater => GameState::Won(player),
            Ordering::Equal => GameState::Draw,
        };
    }

    /// Plays the cup `cup` of the player whose turn it is. A finished game
    /// takes no more moves and stays as it is; a refused move changes nothing.
    pub fn play(&mut self, cup: usize) -> (r: Result<(), MancalaError>)
        requires
            old(self).wf(),
        ensures
            final(self).wf(),
            match outcome(old(self).board@, old(self).state, cup as int) {
                Ok(next) => r is Ok && final(self).board@ == next.0 && final(self).state == next.1,
                Err(e) => r == Err::<(), MancalaError>(e) && *final(self) == *old(self),
            },
            !(old(self).state is InProgress) ==> r is Ok && *final(self) == *old(self),
            old(self).state is InProgress && cup >= BOARD_SIZE / 2 ==> r == Err::<(), MancalaError>(
                MancalaError::NoSuchCup,
            ),
            r is Ok && old(self).state is InProgress && final(self).state is InProgress ==> final(self).state
                == GameState::InProgress(old(self).state->InProgress_0.other()),
            final(self).board@.total() == old(self).board@.total(),
            final(self).board@.hand == (0nat, 0nat),
    {
        let player = match self.state {
            GameState::InProgress(p) => p,
            _ => return Ok(()),
        };
        let ghost v = self.board@;
        proof {
            lemma_conservation(*self, cup as int);
        }
        if cup >= BOARD_SIZE / 2 {
            return Err(MancalaError::NoSuchCup);
        }
        match self.board.get_cup(CupPos { owner: player, pos: cup }) {
            Some(c) => {
                if c.seeds == 0 {
                    return Err(MancalaError::NoSeedsToSow);
                }
            },
            None => return Err(MancalaError::NoSuchCup),
        }
        let opponent = player.next_player();
        let must_feed = self.board.starving(opponent);
        let mut test_board = self.clone();
        match test_board.sow(player, cup) {
            Ok(()) => {},
            Err(e) => return Err(e),
        }
        proof {
            lemma_simulate(v, player, cup as int);
        }
        if must_feed && test_board.board.starving(opponent) {
            let mut any_not_starving = false;
            let mut i: usize = 0;
            while i < BOARD_SIZE / 2
                invariant
                    self.wf(),
                    *self == *old(self),
                    v == self.board@,
                    i <= BOARD_SIZE / 2,
                    opponent == player.other(),
                    any_not_starving == exists|j: int|
                        0 <= j < i && j != cup && #[trigger] feeds(v, player, j),
                decreases BOARD_SIZE / 2 - i,
            {
                if i != cup {
                    let mut alternative = self.clone();
                    let fed = match alternative.sow(player, i) {
                        Ok(()) => !alternative.board.starving(opponent),
                        Err(_) => false,
                    };
                    assert(fed == feeds(v, player, i as int));
                    any_not_starving = any_not_starving || fed;
                }
                proof {
                    if !any_not_starving {
                        assert forall|j: int| 0 <= j < i + 1 && j != cup implies !#[trigger] feeds(
                            v,
                            player,
                            j,
                        ) by {
                            if j < i {
                            } else {
                                assert(j == i);
                            }
                        }
                    } else {
                        assert(exists|j: int|
                            0 <= j < i + 1 && j != cup && #[trigger] feeds(v, player, j));
                    }
                }
                i = i + 1;
            }
            if any_not_starving {
                return Err(MancalaError::MustFeedError);
            }
        }
        self.board = test_board.board;
        if self.board.starving(opponent) {
            self.win_state(player);
        } else {
            self.state = GameState::InProgress(opponent);
        }
        Ok(())
    }
}

impl Default for Ayoayo {
    fn default() -> (r: Ayoayo)
        ensures
            r.wf(),
            r.state == GameState::InProgress(Player::Player1),
            r.board@.seeds == Seq::new(BOARD_SIZE as nat, |i: int| STARTING_COUNT as nat),
            r.board@.bank == (0nat, 0nat),
    {
        Ayoayo::new()
    }
}

/// Seeds are never made or lost: whatever cup is played, the seeds on the
/// board and in the two banks add up afterwards to what they did before, so a
/// game started with `Ayoayo::new` always holds `BOARD_SIZE * STARTING_COUNT`.
/// Both hands are empty after every move.
pub proof fn lemma_conservation(g: Ayoayo, cup: int)
    requires
        g.wf(),
    ensures
        outcome(g.board@, g.state, cup) matches Ok(next) ==> {
            &&& next.0.total() == g.board@.total()
            &&& next.0.hand == (0nat, 0nat)
        },
{
    let v = g.board@;
    if let GameState::InProgress(p) = g.state {
        lemma_simulate(v, p, cup);
        if let Ok(w) = simulate(v, p, cup) {
            lemma_sum_split(w.seeds, w.half());
            lemma_sum_fill(w.seeds.len(), 0);
        }
    }
}

/// A move that does not end the game hands the turn to the other player.
pub proof fn lemma_turn_alternation(g: Ayoayo, cup: int)
    requires
        g.wf(),
        g.state is InProgress,
    ensures
        outcome(g.board@, g.state, cup) matches Ok(next) ==> (next.1 is InProgress ==> next.1
            == GameState::InProgress(g.state->InProgress_0.other())),
{
}

/// Must-feed: when the opponent of the player to move is starving, a move
/// that leaves them starving is refused with `MustFeedError` as soon as some
/// cup of the mover would feed them; and when none would, every move that can
/// be carried out is accepted.
pub proof fn lemma_must_feed(g: Ayoayo, cup: int)
    requires
        g.wf(),
        g.state is InProgress,
        g.board@.starving(g.state->InProgress_0.other()),
        0 <= cup < BOARD_SIZE / 2,
    ensures
        ({
            let p = g.state->InProgress_0;
            let v = g.board@;
            match simulate(v, p, cup) {
                Ok(w) => (exists|i: int| 0 <= i < BOARD_SIZE / 2 && #[trigger] feeds(v, p, i))
                    && w.starving(p.other()) ==> outcome(v, g.state, cup) == Err::<
                    (BoardView, GameState),
                    MancalaError,
                >(MancalaError::MustFeedError),
                Err(_) => true,
            }
        }),
        ({
            let p = g.state->InProgress_0;
            let v = g.board@;
            (forall|i: int| 0 <= i < BOARD_SIZE / 2 ==> !#[trigger] feeds(v, p, i)) && (simulate(
                v,
                p,
                cup,
            ) is Ok) ==> outcome(v, g.state, cup) is Ok
        }),
{
    let p = g.state->InProgress_0;
    let v = g.board@;
    if let Ok(w) = simulate(v, p, cup) {
        assert(v.picked_up(v.index_of(p, cup), p).hand_of(p) == v.seeds[v.index_of(p, cup)]);
        if w.starving(p.other()) && exists|i: int| 0 <= i < BOARD_SIZE / 2 && #[trigger] feeds(v, p, i) {
            let i = choose|i: int| 0 <= i < BOARD_SIZE / 2 && #[trigger] feeds(v, p, i);
            assert(i != cup);
            assert(feeding_alternative(v, p, cup));
        }
    }
}

} // verus!
