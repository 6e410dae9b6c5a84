use crate::{MancalaError, Player};
use itertools::Itertools;
use vstd::prelude::*;

verus! {

/// One pit of the board: who owns it, how many seeds it holds, and its index
/// on its owner's side.
#[derive(Clone, Copy, Debug, PartialEq, Eq, Structural)]
pub struct Cup {
    pub owner: Player,
    pub seeds: usize,
    pub pos: usize,
}

/// The identity of a cup, without its contents.
#[derive(Clone, Copy, Debug, PartialEq, Eq, Structural)]
pub struct CupPos {
    pub owner: Player,
    pub pos: usize,
}

impl Cup {
    /// Where this cup stands.
    pub fn position(&self) -> (r: CupPos)
        ensures
            r == (CupPos { owner: self.owner, pos: self.pos }),
    {
        CupPos { owner: self.owner, pos: self.pos }
    }
}

/// Sum of a sequence of counts.
pub open spec fn sum(s: Seq<nat>) -> nat
    decreases s.len(),
{
    if s.len() == 0 {
        0
    } else {
        sum(s.drop_last()) + s.last()
    }
}

/// Changing one count changes the sum by the difference; no count exceeds the sum.
pub proof fn lemma_sum_update(s: Seq<nat>, i: int, v: nat)
    requires
        0 <= i < s.len(),
    ensures
        sum(s.update(i, v)) + s[i] == sum(s) + v,
        s[i] <= sum(s),
    decreases s.len(),
{
    let t = s.update(i, v);
    if i == s.len() - 1 {
        assert(t.drop_last() =~= s.drop_last());
    } else {
        assert(t.drop_last() =~= s.drop_last().update(i, v));
        lemma_sum_update(s.drop_last(), i, v);
    }
}

/// A run of counts one longer adds its last count to the sum.
pub proof fn lemma_sum_extend(s: Seq<nat>, a: int, b: int)
    requires
        0 <= a <= b < s.len(),
    ensures
        sum(s.subrange(a, b + 1)) == sum(s.subrange(a, b)) + s[b],
{
    assert(s.subrange(a, b + 1).drop_last() =~= s.subrange(a, b));
}

/// The sum of a sequence is the sums of its two parts around `m`.
pub proof fn lemma_sum_split(s: Seq<nat>, m: int)
    requires
        0 <= m <= s.len(),
    ensures
        sum(s) == sum(s.subrange(0, m)) + sum(s.subrange(m, s.len() as int)),
    decreases s.len(),
{
    if m == s.len() {
        assert(s.subrange(0, m) =~= s);
        assert(s.subrange(m, s.len() as int).len() == 0);
    } else {
        let d = s.drop_last();
        lemma_sum_split(d, m);
        assert(d.subrange(0, m) =~= s.subrange(0, m));
        assert(d.subrange(m, d.len() as int) =~= s.subrange(m, s.len() - 1));
        lemma_sum_extend(s, m, s.len() - 1);
        assert(s.subrange(0, s.len() as int) =~= s);
    }
}

/// `n` counts of `c` sum to `n * c`.
pub proof fn lemma_sum_fill(n: nat, c: nat)
    ensures
        sum(Seq::new(n, |i: int| c)) == n * c,
    decreases n,
{
    let s = Seq::new(n, |i: int| c);
    if n > 0 {
        let d = Seq::new((n - 1) as nat, |i: int| c);
        assert(s.drop_last() =~= d);
        lemma_sum_fill((n - 1) as nat, c);
        assert(sum(s) == sum(d) + c);
        assert(n * c == (n - 1) * c + c) by (nonlinear_arith);
    } else {
        assert(s.len() == 0);
    }
}

/// Seeds scored for good by each player.
#[derive(Clone, Copy, Debug, PartialEq, Eq, Structural)]
pub struct Bank {
    pub player1: usize,
    pub player2: usize,
}

impl Bank {
    pub open spec fn spec_get(self, player: Player) -> nat {
        match player {
            Player::Player1 => self.player1 as nat,
            Player::Player2 => self.player2 as nat,
        }
    }

    pub fn new() -> (r: Bank)
        ensures
            r.player1 == 0,
            r.player2 == 0,
    {
        Bank { player1: 0, player2: 0 }
    }

    /// Adds `count` seeds to `player`'s bank and returns the new amount.
    pub fn deposit(&mut self, player: Player, count: usize) -> (r: usize)
        requires
            old(self).spec_get(player) + count <= usize::MAX,
        ensures
            r == final(self).spec_get(player),
            final(self).spec_get(player) == old(self).spec_get(player) + count,
            final(self).spec_get(player.other()) == old(self).spec_get(player.other()),
    {
        match player {
            Player::Player1 => {
                self.player1 = self.player1 + count;
                self.player1
            },
            Player::Player2 => {
                self.player2 = self.player2 + count;
                self.player2
            },
        }
    }

    pub fn get(&self, player: Player) -> (r: usize)
        ensures
            r == self.spec_get(player),
    {
        match player {
            Player::Player1 => self.player1,
            Player::Player2 => self.player2,
        }
    }
}

/// Seeds each player has lifted and not yet sown.
#[derive(Clone, Copy, Debug, PartialEq, Eq, Structural)]
pub struct InHand {
    pub player1: usize,
    pub player2: usize,
}

impl InHand {
    pub open spec fn spec_get(self, player: Player) -> nat {
        match player {
            Player::Player1 => self.player1 as nat,
            Player::Player2 => self.player2 as nat,
        }
    }

    pub fn new() -> (r: InHand)
        ensures
            r.player1 == 0,
            r.player2 == 0,
    {
        InHand { player1: 0, player2: 0 }
    }

    /// Adds `seeds` to what `player` holds and returns the new amount.
    pub fn take(&mut self, player: Player, seeds: usize) -> (r: usize)
        requires
            old(self).spec_get(player) + seeds <= usize::MAX,
        ensures
            r == final(self).spec_get(player),
            final(self).spec_get(player) == old(self).spec_get(player) + seeds,
            final(self).spec_get(player.other()) == old(self).spec_get(player.other()),
    {
        match player {
            Player::Player1 => {
                self.player1 = self.player1 + seeds;
                self.player1
            },
            Player::Player2 => {
                self.player2 = self.player2 + seeds;
                self.player2
            },
        }
    }

    /// Empties `player`'s hand and returns what it held.
    pub fn drop(&mut self, player: Player) -> (r: usize)
        ensures
            r == old(self).spec_get(player),
            final(self).spec_get(player) == 0,
            final(self).spec_get(player.other()) == old(self).spec_get(player.other()),
    {
        match player {
            Player::Player1 => {
                let start = self.player1;
                self.player1 = 0;
                start
            },
            Player::Player2 => {
                let start = self.player2;
                self.player2 = 0;
                start
            },
        }
    }

    pub fn get(&self, player: Player) -> (r: usize)
        ensures
            r == self.spec_get(player),
    {
        match player {
            Player::Player1 => self.player1,
            Player::Player2 => self.player2,
        }
    }
}


/// One step of play, as kept in a board's history.
#[derive(Clone, Copy, Debug, PartialEq, Eq, Structural)]
pub enum Move {
    Pickup(CupPos),
    Place(CupPos),
    Bank(Player, usize),
}

/// Which cups a sowing may drop seeds into, given the cup it started from.
#[derive(Clone, Copy, Debug, PartialEq, Eq, Structural)]
pub enum SowFilter {
    /// Every cup but the one the seeds were lifted from.
    SkipStart,
    /// Only the cups of the side opposite the starting cup.
    OpponentOnly,
}

impl SowFilter {
    /// Whether a sowing that started at `start` may drop a seed into `c`.
    pub open spec fn accepts(self, c: CupPos, start: CupPos) -> bool {
        match self {
            SowFilter::SkipStart => c != start,
            SowFilter::OpponentOnly => c.owner != start.owner,
        }
    }

    /// On a board of `n` cups, the first cup after index `i` in the cyclic
    /// order that this filter accepts for a sowing started at index `s`.
    pub open spec fn spec_next(self, n: int, s: int, i: int) -> int {
        let h = n / 2;
        match self {
            SowFilter::SkipStart => {
                let t = if i + 1 < n { i + 1 } else { 0 };
                if t == s {
                    if t + 1 < n { t + 1 } else { 0 }
                } else {
                    t
                }
            },
            SowFilter::OpponentOnly => {
                let lo = if s < h { h } else { 0 };
                if lo <= i + 1 < lo + h { i + 1 } else { lo }
            },
        }
    }

    pub fn next(&self, n: usize, s: usize, i: usize) -> (r: usize)
        requires
            n >= 2,
            n % 2 == 0,
            s < n,
            i < n,
        ensures
            r == self.spec_next(n as int, s as int, i as int),
            r < n,
    {
        let h = n / 2;
        match self {
            SowFilter::SkipStart => {
                let t = if i + 1 < n { i + 1 } else { 0 };
                if t == s {
                    if t + 1 < n { t + 1 } else { 0 }
                } else {
                    t
                }
            },
            SowFilter::OpponentOnly => {
                let lo = if s < h { h } else { 0 };
                if lo <= i + 1 && i + 1 < lo + h { i + 1 } else { lo }
            },
        }
    }
}

/// The cup at index `i` of the sowing order on a board of `n` cups.
pub open spec fn position_at(n: int, i: int) -> CupPos {
    if i < n / 2 {
        CupPos { owner: Player::Player1, pos: i as usize }
    } else {
        CupPos { owner: Player::Player2, pos: (i - n / 2) as usize }
    }
}

/// The index `e` places after `i` in the cyclic order, for `0 <= e <= n`.
pub open spec fn ahead(n: int, i: int, e: int) -> int {
    if i + e < n {
        i + e
    } else {
        i + e - n
    }
}

/// A step of a filter is the first cup after `i`, going round the board,
/// that the filter accepts for a sowing started at `s`: the cups it passes
/// over are refused, and it stops at most one full lap on.
pub proof fn lemma_next_is_first_accepted(f: SowFilter, n: int, s: int, i: int)
    requires
        2 <= n <= usize::MAX,
        n % 2 == 0,
        0 <= s < n,
        0 <= i < n,
    ensures
        ({
            let r = f.spec_next(n, s, i);
            let d = if r > i { r - i } else { r + n - i };
            &&& 0 <= r < n
            &&& r == ahead(n, i, d)
            &&& 1 <= d <= n
            &&& f.accepts(position_at(n, r), position_at(n, s))
            &&& forall|e: int|
                1 <= e < d ==> !f.accepts(#[trigger] position_at(n, ahead(n, i, e)), position_at(n, s))
        }),
{
    let h = n / 2;
    let r = f.spec_next(n, s, i);
    let d = if r > i { r - i } else { r + n - i };
    assert forall|x: int, y: int| 0 <= x < n && 0 <= y < n && x != y implies position_at(n, x)
        != position_at(n, y) by {
        if position_at(n, x) == position_at(n, y) {
            assert(position_at(n, x).pos == position_at(n, y).pos);
        }
    }
    assert forall|e: int| 1 <= e < d implies !f.accepts(
        #[trigger] position_at(n, ahead(n, i, e)),
        position_at(n, s),
    ) by {
        let x = ahead(n, i, e);
        match f {
            SowFilter::SkipStart => {
                assert(x == s);
            },
            SowFilter::OpponentOnly => {
                assert(position_at(n, x).owner == position_at(n, s).owner);
            },
        }
    }
}

/// The index reached after `j` steps of `f` from index `s` on a board of `n` cups.
pub open spec fn walk(f: SowFilter, n: int, s: int, j: nat) -> int
    decreases j,
{
    if j == 0 {
        s
    } else {
        f.spec_next(n, s, walk(f, n, s, (j - 1) as nat))
    }
}

/// The seed counts after `k` seeds were sown one by one with `f` from index `s`.
pub open spec fn sown_seeds(seeds: Seq<nat>, f: SowFilter, s: int, k: nat) -> Seq<nat>
    decreases k,
{
    if k == 0 {
        seeds
    } else {
        let before = sown_seeds(seeds, f, s, (k - 1) as nat);
        let w = walk(f, seeds.len() as int, s, k);
        before.update(w, before[w] + 1)
    }
}

/// A walk never leaves the board.
pub proof fn lemma_walk_range(f: SowFilter, n: int, s: int, j: nat)
    requires
        n >= 2,
        n % 2 == 0,
        0 <= s < n,
    ensures
        0 <= walk(f, n, s, j) < n,
    decreases j,
{
    if j > 0 {
        lemma_walk_range(f, n, s, (j - 1) as nat);
    }
}

/// Sowing `k` seeds keeps the number of cups and adds `k` to the seeds on the board.
pub proof fn lemma_sown_seeds(seeds: Seq<nat>, f: SowFilter, s: int, k: nat)
    requires
        seeds.len() >= 2,
        seeds.len() % 2 == 0,
        0 <= s < seeds.len(),
    ensures
        sown_seeds(seeds, f, s, k).len() == seeds.len(),
        sum(sown_seeds(seeds, f, s, k)) == sum(seeds) + k,
    decreases k,
{
    if k > 0 {
        let before = sown_seeds(seeds, f, s, (k - 1) as nat);
        let w = walk(f, seeds.len() as int, s, k);
        lemma_sown_seeds(seeds, f, s, (k - 1) as nat);
        lemma_walk_range(f, seeds.len() as int, s, k);
        lemma_sum_update(before, w, before[w] + 1);
    }
}

/// The model of a board: the seed count of every cup in sowing order, then
/// each player's bank and hand, player one first.
pub struct BoardView {
    pub seeds: Seq<nat>,
    pub bank: (nat, nat),
    pub hand: (nat, nat),
}

impl BoardView {
    /// Number of cups on each side.
    pub open spec fn half(self) -> int {
        self.seeds.len() as int / 2
    }

    /// Index of a player's cup in the sowing order.
    pub open spec fn index_of(self, owner: Player, pos: int) -> int {
        match owner {
            Player::Player1 => pos,
            Player::Player2 => self.half() + pos,
        }
    }

    pub open spec fn owner_at(self, i: int) -> Player {
        if i < self.half() {
            Player::Player1
        } else {
            Player::Player2
        }
    }

    pub open spec fn pos_at(self, i: int) -> int {
        if i < self.half() {
            i
        } else {
            i - self.half()
        }
    }

    pub open spec fn cup_pos_at(self, i: int) -> CupPos {
        position_at(self.seeds.len() as int, i)
    }

    /// The opponent's cup at the same index as the cup at `i`.
    pub open spec fn mirror(self, i: int) -> int {
        self.index_of(self.owner_at(i).other(), self.pos_at(i))
    }

    pub open spec fn hand_of(self, p: Player) -> nat {
        match p {
            Player::Player1 => self.hand.0,
            Player::Player2 => self.hand.1,
        }
    }

    pub open spec fn bank_of(self, p: Player) -> nat {
        match p {
            Player::Player1 => self.bank.0,
            Player::Player2 => self.bank.1,
        }
    }

    pub open spec fn with_hand(self, p: Player, v: nat) -> BoardView {
        BoardView {
            seeds: self.seeds,
            bank: self.bank,
            hand: match p {
                Player::Player1 => (v, self.hand.1),
                Player::Player2 => (self.hand.0, v),
            },
        }
    }

    pub open spec fn with_bank(self, p: Player, v: nat) -> BoardView {
        BoardView {
            seeds: self.seeds,
            bank: match p {
                Player::Player1 => (v, self.bank.1),
                Player::Player2 => (self.bank.0, v),
            },
            hand: self.hand,
        }
    }

    pub open spec fn with_seeds(self, seeds: Seq<nat>) -> BoardView {
        BoardView { seeds, bank: self.bank, hand: self.hand }
    }

    /// Every cup of `p` is empty.
    pub open spec fn starving(self, p: Player) -> bool {
        forall|j: int| 0 <= j < self.half() ==> self.seeds[#[trigger] self.index_of(p, j)] == 0
    }

    /// The cup at `i` emptied into `p`'s hand, which held nothing else after.
    pub open spec fn picked_up(self, i: int, p: Player) -> BoardView {
        self.with_hand(p, self.seeds[i]).with_seeds(self.seeds.update(i, 0))
    }

    /// `p`'s hand moved into `p`'s bank.
    pub open spec fn banked(self, p: Player) -> BoardView {
        self.with_bank(p, self.bank_of(p) + self.hand_of(p)).with_hand(p, 0)
    }

    /// `p`'s hand sown with `f` from index `s`.
    pub open spec fn sown(self, p: Player, s: int, f: SowFilter) -> BoardView {
        self.with_seeds(sown_seeds(self.seeds, f, s, self.hand_of(p))).with_hand(p, 0)
    }

    /// All seeds of the board, the banks and the hands together.
    pub open spec fn total(self) -> nat {
        sum(self.seeds) + self.bank.0 + self.bank.1 + self.hand.0 + self.hand.1
    }
}

/// Picking a cup up moves its seeds into the hand and drops what the hand held before.
pub proof fn lemma_picked_up_total(v: BoardView, i: int, p: Player)
    requires
        0 <= i < v.seeds.len(),
    ensures
        v.picked_up(i, p).total() + v.hand_of(p) == v.total(),
        v.picked_up(i, p).hand_of(p) == v.seeds[i],
        v.picked_up(i, p).hand_of(p.other()) == v.hand_of(p.other()),
{
    lemma_sum_update(v.seeds, i, 0);
}

/// Sowing moves the hand onto the board: no seed is made or lost, and the hand is empty after.
pub proof fn lemma_sown_total(v: BoardView, p: Player, s: int, f: SowFilter)
    requires
        v.seeds.len() >= 2,
        v.seeds.len() % 2 == 0,
        0 <= s < v.seeds.len(),
    ensures
        v.sown(p, s, f).total() == v.total(),
        v.sown(p, s, f).seeds.len() == v.seeds.len(),
        v.sown(p, s, f).hand_of(p) == 0,
        v.sown(p, s, f).hand_of(p.other()) == v.hand_of(p.other()),
{
    lemma_sown_seeds(v.seeds, f, s, v.hand_of(p));
}

/// The cups stand in sowing order: player one's by increasing index, then
/// player two's the same way.
pub open spec fn laid_out(cups: Seq<Cup>) -> bool {
    let h = cups.len() / 2;
    &&& cups.len() % 2 == 0
    &&& forall|i: int|
        0 <= i < cups.len() ==> (#[trigger] cups[i]).owner == (if i < h {
            Player::Player1
        } else {
            Player::Player2
        }) && cups[i].pos == (if i < h { i } else { i - h })
}

pub open spec fn seeds_of(cups: Seq<Cup>) -> Seq<nat> {
    cups.map_values(|c: Cup| c.seeds as nat)
}

/// Appends `m` to the last group of a history; a history with no group stays empty.
pub open spec fn logged(log: Seq<Seq<Move>>, m: Seq<Move>) -> Seq<Seq<Move>> {
    if log.len() == 0 {
        log
    } else {
        log.update(log.len() - 1, log.last() + m)
    }
}

/// Recording two runs of entries one after the other records them joined.
proof fn lemma_logged_twice(log: Seq<Seq<Move>>, a: Seq<Move>, b: Seq<Move>)
    ensures
        logged(logged(log, a), b) == logged(log, a + b),
{
    if log.len() > 0 {
        assert(log.last() + a + b =~= log.last() + (a + b));
        assert(logged(logged(log, a), b) =~= logged(log, a + b));
    }
}

/// The history entries of sowing `k` seeds with `f` from index `s`.
pub open spec fn places(v: BoardView, f: SowFilter, s: int, k: nat) -> Seq<Move> {
    Seq::new(k, |j: int| Move::Place(v.cup_pos_at(walk(f, v.seeds.len() as int, s, (j + 1) as nat))))
}

/// The cups in their fixed sowing order, both players' banks and hands, and
/// a history of moves grouped as the caller opened groups.
#[derive(Debug, PartialEq)]
pub struct MancalaBoard {
    pub cups: Vec<Cup>,
    pub bank: Bank,
    pub in_hand: InHand,
    pub moves: Vec<Vec<Move>>,
}

impl View for MancalaBoard {
    type V = BoardView;

    open spec fn view(&self) -> BoardView {
        BoardView {
            seeds: seeds_of(self.cups@),
            bank: (self.bank.player1 as nat, self.bank.player2 as nat),
            hand: (self.in_hand.player1 as nat, self.in_hand.player2 as nat),
        }
    }
}

impl MancalaBoard {
    /// The history, one sequence of moves per group.
    pub open spec fn log(self) -> Seq<Seq<Move>> {
        self.moves@.map_values(|g: Vec<Move>| g@)
    }

    /// The cups stand in sowing order, and all the seeds of the board, banks
    /// and hands together can be counted in a `usize`.
    pub open spec fn wf(self) -> bool {
        &&& laid_out(self.cups@)
        &&& self@.total() <= usize::MAX
    }

    /// Builds a board from cups given in sowing order, with empty banks and
    /// hands for both players and no history. Both players always have their
    /// stores, whichever `_players` are named.
    pub fn new(cups: Vec<Cup>, _players: &[Player]) -> (r: MancalaBoard)
        requires
            laid_out(cups@),
            sum(seeds_of(cups@)) <= usize::MAX,
        ensures
            r.wf(),
            r.cups@ == cups@,
            r@.bank == (0nat, 0nat),
            r@.hand == (0nat, 0nat),
            r.log() == Seq::<Seq<Move>>::empty(),
    {
        let r = MancalaBoard { cups, bank: Bank::new(), in_hand: InHand::new(), moves: Vec::new() };
        assert(r.log() =~= Seq::<Seq<Move>>::empty());
        r
    }

    /// Opens a new, empty group in the history.
    pub fn new_move(&mut self)
        ensures
            final(self).cups == old(self).cups,
            final(self).bank == old(self).bank,
            final(self).in_hand == old(self).in_hand,
            final(self).log() == old(self).log().push(Seq::<Move>::empty()),
    {
        self.moves.push(Vec::new());
        assert(self.log() =~= old(self).log().push(Seq::<Move>::empty()));
    }

    /// Adds `m` to the open group of the history, if there is one.
    fn record(&mut self, m: Move)
        ensures
            final(self).cups == old(self).cups,
            final(self).bank == old(self).bank,
            final(self).in_hand == old(self).in_hand,
            final(self).log() == logged(old(self).log(), seq![m]),
    {
        let ghost before = self.moves@;
        match self.moves.pop() {
            Some(mut group) => {
                assert(group@ == old(self).log().last());
                group.push(m);
                let ghost grown = group@;
                self.moves.push(group);
                assert(self.log().len() == before.len());
                assert(grown == old(self).log().last() + seq![m]);
                assert(self.log()[before.len() - 1] == grown);
                assert forall|i: int| 0 <= i < before.len() - 1 implies self.log()[i]
                    == old(self).log()[i] by {
                    assert(self.moves@[i] == before[i]);
                }
                assert(self.log() =~= logged(old(self).log(), seq![m]));
            },
            None => {},
        }
    }

    fn index_of(&self, cup: CupPos) -> (r: usize)
        requires
            self.wf(),
            (cup.pos as int) < self@.half(),
        ensures
            r == self@.index_of(cup.owner, cup.pos as int),
            r < self.cups@.len(),
    {
        match cup.owner {
            Player::Player1 => cup.pos,
            Player::Player2 => self.cups.len() / 2 + cup.pos,
        }
    }

    /// The cup at `cup`, or `None` where the board has no such cup.
    pub fn get_cup(&self, cup: CupPos) -> (r: Option<Cup>)
        requires
            self.wf(),
        ensures
            r == if (cup.pos as int) < self@.half() {
                Some(self.cups@[self@.index_of(cup.owner, cup.pos as int)])
            } else {
                None
            },
    {
        if cup.pos < self.cups.len() / 2 {
            Some(self.cups[self.index_of(cup)])
        } else {
            None
        }
    }

    /// Whether every cup of `player` is empty.
    pub fn starving(&self, player: Player) -> (r: bool)
        requires
            self.wf(),
        ensures
            r == self@.starving(player),
    {
        let h = self.cups.len() / 2;
        let mut j: usize = 0;
        while j < h
            invariant
                self.wf(),
                h == self@.half(),
                j <= h,
                forall|jj: int| 0 <= jj < j ==> self@.seeds[#[trigger] self@.index_of(player, jj)] == 0,
            decreases h - j,
        {
            let i = self.index_of(CupPos { owner: player, pos: j });
            if self.cups[i].seeds != 0 {
                return false;
            }
            j = j + 1;
        }
        true
    }

    /// Empties the cup at `cup` into `player`'s hand, which then holds those
    /// seeds and nothing else. `None`, and no change, where there is no such cup.
    pub fn pickup(&mut self, cup: CupPos, player: Player) -> (r: Option<()>)
        requires
            old(self).wf(),
        ensures
            final(self).wf(),
            (cup.pos as int) < old(self)@.half() ==> {
                let i = old(self)@.index_of(cup.owner, cup.pos as int);
                &&& r == Some(())
                &&& final(self)@ == old(self)@.picked_up(i, player)
                &&& final(self).log() == if old(self)@.seeds[i] > 0 {
                    logged(old(self).log(), seq![Move::Pickup(cup)])
                } else {
                    old(self).log()
                }
            },
            (cup.pos as int) >= old(self)@.half() ==> r is None && *final(self) == *old(self),
    {
        if cup.pos >= self.cups.len() / 2 {
            return None;
        }
        let i = self.index_of(cup);
        let c = self.cups[i];
        proof {
            lemma_sum_update(self@.seeds, i as int, 0);
        }
        self.cups.set(i, Cup { owner: c.owner, seeds: 0, pos: c.pos });
        self.in_hand.drop(player);
        self.in_hand.take(player, c.seeds);
        if c.seeds > 0 {
            self.record(Move::Pickup(cup));
        }
        assert(self@.seeds =~= old(self)@.seeds.update(i as int, 0));
        assert(self@ == old(self)@.picked_up(i as int, player));
        Some(())
    }

    /// Moves `player`'s hand into `player`'s bank.
    pub fn bank(&mut self, player: Player)
        requires
            old(self).wf(),
        ensures
            final(self).wf(),
            final(self).cups == old(self).cups,
            final(self)@ == old(self)@.banked(player),
            final(self).log() == if old(self)@.hand_of(player) > 0 {
                logged(old(self).log(), seq![Move::Bank(player, old(self)@.hand_of(player) as usize)])
            } else {
                old(self).log()
            },
    {
        let value = self.in_hand.drop(player);
        self.bank.deposit(player, value);
        if value > 0 {
            self.record(Move::Bank(player, value));
        }
    }

    /// Sows `player`'s hand one seed per cup, walking the sowing order from
    /// just after `cup` and passing over the cups that `filter` refuses, then
    /// empties the hand. Returns the last cup that received a seed.
    pub fn sow(&mut self, player: Player, cup: CupPos, filter: SowFilter) -> (r: Result<
        Cup,
        MancalaError,
    >)
        requires
            old(self).wf(),
        ensures
            final(self).wf(),
            old(self)@.hand_of(player) == 0 ==> r == Err::<Cup, MancalaError>(
                MancalaError::NoSeedsToSow,
            ) && *final(self) == *old(self),
            old(self)@.hand_of(player) > 0 && (cup.pos as int) >= old(self)@.half() ==> r == Err::<
                Cup,
                MancalaError,
            >(MancalaError::NoSuchCup) && *final(self) == *old(self),
            old(self)@.hand_of(player) > 0 && (cup.pos as int) < old(self)@.half() ==> {
                let s = old(self)@.index_of(cup.owner, cup.pos as int);
                let k = old(self)@.hand_of(player);
                &&& final(self)@ == old(self)@.sown(player, s, filter)
                &&& r == Ok::<Cup, MancalaError>(
                    final(self).cups@[walk(filter, old(self).cups@.len() as int, s, k)],
                )
                &&& final(self).log() == logged(old(self).log(), places(old(self)@, filter, s, k))
            },
    {
        let n = self.cups.len();
        let k = self.in_hand.get(player);
        if k == 0 {
            return Err(MancalaError::NoSeedsToSow);
        }
        if cup.pos >= n / 2 {
            return Err(MancalaError::NoSuchCup);
        }
        let s = self.index_of(cup);
        let ghost seeds0 = self@.seeds;
        let ghost log0 = self.log();
        let ghost v0 = self@;
        let mut i = s;
        let mut j: usize = 0;
        while j < k
            invariant
                laid_out(self.cups@),
                self.cups@.len() == n,
                n >= 2,
                s < n,
                seeds0.len() == n,
                seeds0 == v0.seeds,
                k == v0.hand_of(player),
                sum(seeds0) + k <= usize::MAX,
                j <= k,
                self.bank == old(self).bank,
                self.in_hand == old(self).in_hand,
                v0 == old(self)@,
                i == walk(filter, n as int, s as int, j as nat),
                self@.seeds == sown_seeds(seeds0, filter, s as int, j as nat),
                self.log() == logged(log0, places(v0, filter, s as int, j as nat)),
            decreases k - j,
        {
            proof {
                lemma_sown_seeds(seeds0, filter, s as int, j as nat);
                lemma_walk_range(filter, n as int, s as int, (j + 1) as nat);
            }
            i = filter.next(n, s, i);
            let c = self.cups[i];
            proof {
                assert(self.cups@[i as int] == c);
                lemma_sum_update(self@.seeds, i as int, 0);
            }
            self.cups.set(i, Cup { owner: c.owner, seeds: c.seeds + 1, pos: c.pos });
            let ghost before = self.log();
            self.record(Move::Place(CupPos { owner: c.owner, pos: c.pos }));
            proof {
                assert(self@.seeds =~= sown_seeds(seeds0, filter, s as int, (j + 1) as nat));
                assert(v0.cup_pos_at(i as int) == CupPos { owner: c.owner, pos: c.pos });
                lemma_logged_twice(
                    log0,
                    places(v0, filter, s as int, j as nat),
                    seq![Move::Place(CupPos { owner: c.owner, pos: c.pos })],
                );
                assert(places(v0, filter, s as int, (j + 1) as nat) =~= places(
                    v0,
                    filter,
                    s as int,
                    j as nat,
                ) + seq![Move::Place(CupPos { owner: c.owner, pos: c.pos })]);
                assert(self.log() =~= logged(log0, places(v0, filter, s as int, (j + 1) as nat)));
            }
            j = j + 1;
        }
        self.in_hand.drop(player);
        proof {
            lemma_sown_seeds(seeds0, filter, s as int, k as nat);
        }
        assert(self@ == old(self)@.sown(player, s as int, filter));
        Ok(self.cups[i])
    }
}

impl Clone for MancalaBoard {
    fn clone(&self) -> (r: MancalaBoard)
        ensures
            r.cups@ == self.cups@,
            r.bank == self.bank,
            r.in_hand == self.in_hand,
            r.log() == self.log(),
    {
        let cups = self.cups.clone();
        assert(cups@ =~= self.cups@);
        let mut moves: Vec<Vec<Move>> = Vec::new();
        let mut g: usize = 0;
        while g < self.moves.len()
            invariant
                g <= self.moves@.len(),
                moves@.len() == g,
                forall|x: int| 0 <= x < g ==> (#[trigger] moves@[x])@ == self.moves@[x]@,
            decreases self.moves@.len() - g,
        {
            let group = self.moves[g].clone();
            assert(group@ =~= self.moves@[g as int]@);
            moves.push(group);
            g = g + 1;
        }
        let r = MancalaBoard { cups, bank: self.bank, in_hand: self.in_hand, moves };
        assert(r.log() =~= self.log());
        r
    }
}

/// The glyphs for counts from zero to twenty, the way a cup is drawn: the
/// circled numerals up to ten, then the run of enclosed numerals that starts
/// at U+2470.
pub open spec fn numerals() -> Seq<char> {
    "\u{24EA}\u{2460}\u{2461}\u{2462}\u{2463}\u{2464}\u{2465}\u{2466}\u{2467}\u{2468}\u{2469}\u{2470}\u{2471}\u{2472}\u{2473}\u{2474}\u{2475}\u{2476}\u{2477}\u{2478}\u{2479}"@
}

pub open spec fn digits() -> Seq<char> {
    "0123456789"@
}

/// `n` in decimal digits.
pub open spec fn decimal(n: nat) -> Seq<char>
    decreases n,
{
    if n < 10 {
        digits().subrange(n as int, n + 1int)
    } else {
        decimal(n / 10) + digits().subrange((n % 10) as int, (n % 10) as int + 1)
    }
}

/// How a cup holding `n` seeds is drawn: its glyph up to twenty, decimal
/// digits beyond.
pub open spec fn cell(n: nat) -> Seq<char> {
    if n < 21 {
        numerals().subrange(n as int, n + 1int)
    } else {
        decimal(n)
    }
}

/// The parts in order, with `sep` between each two.
pub open spec fn joined(parts: Seq<Seq<char>>, sep: Seq<char>) -> Seq<char>
    decreases parts.len(),
{
    if parts.len() == 0 {
        Seq::empty()
    } else if parts.len() == 1 {
        parts[0]
    } else {
        joined(parts.drop_last(), sep) + sep + parts.last()
    }
}

/// A run of cups drawn left to right, separated by bars.
pub open spec fn row(seeds: Seq<nat>) -> Seq<char> {
    joined(seeds.map_values(|n: nat| cell(n)), "|"@)
}

/// The board as two lines: player one's bank and cups, then player two's
/// cups and bank.
pub open spec fn rendered(v: BoardView) -> Seq<char> {
    decimal(v.bank.0) + " - "@ + row(v.seeds.subrange(0, v.half())) + "\n"@ + row(
        v.seeds.subrange(v.half(), v.seeds.len() as int),
    ) + " - "@ + decimal(v.bank.1)
}

/// Relies on `ToString` for `usize`, which writes the number in decimal digits.
#[verifier::external_body]
fn decimal_string(n: usize) -> (r: String)
    ensures
        r@ == decimal(n as nat),
{
    n.to_string()
}

/// Relies on itertools' `Itertools::join`, which writes the items in order
/// with `sep` between each two, and nothing for no items.
#[verifier::external_body]
fn join_parts(parts: &Vec<String>, sep: &str) -> (r: String)
    ensures
        r@ == joined(parts@.map_values(|p: String| p@), sep@),
{
    parts.iter().join(sep)
}

fn cell_string(n: usize) -> (r: String)
    ensures
        r@ == cell(n as nat),
{
    if n < 21 {
        let table = "\u{24EA}\u{2460}\u{2461}\u{2462}\u{2463}\u{2464}\u{2465}\u{2466}\u{2467}\u{2468}\u{2469}\u{2470}\u{2471}\u{2472}\u{2473}\u{2474}\u{2475}\u{2476}\u{2477}\u{2478}\u{2479}";
        proof {
            reveal_strlit("\u{24EA}\u{2460}\u{2461}\u{2462}\u{2463}\u{2464}\u{2465}\u{2466}\u{2467}\u{2468}\u{2469}\u{2470}\u{2471}\u{2472}\u{2473}\u{2474}\u{2475}\u{2476}\u{2477}\u{2478}\u{2479}");
        }
        String::from_str(table.substring_char(n, n + 1))
    } else {
        decimal_string(n)
    }
}

impl MancalaBoard {
    fn row_string(&self, from: usize, to: usize) -> (r: String)
        requires
            from <= to <= self.cups@.len(),
        ensures
            r@ == row(self@.seeds.subrange(from as int, to as int)),
    {
        let mut parts: Vec<String> = Vec::new();
        let mut i = from;
        while i < to
            invariant
                from <= i <= to <= self.cups@.len(),
                parts@.map_values(|p: String| p@) == self@.seeds.subrange(from as int, i as int).map_values(
                    |n: nat| cell(n),
                ),
            decreases to - i,
        {
            let part = cell_string(self.cups[i].seeds);
            let ghost before = parts@;
            parts.push(part);
            proof {
                let a = parts@.map_values(|p: String| p@);
                let b = self@.seeds.subrange(from as int, i + 1).map_values(|n: nat| cell(n));
                let prev = self@.seeds.subrange(from as int, i as int).map_values(|n: nat| cell(n));
                assert(before.map_values(|p: String| p@) == prev);
                assert forall|x: int| 0 <= x < a.len() implies a[x] == b[x] by {
                    if x < i - from {
                        assert(a[x] == before.map_values(|p: String| p@)[x]);
                        assert(prev[x] == b[x]);
                    } else {
                        assert(a[x] == part@);
                    }
                }
                assert(a =~= b);
            }
            i = i + 1;
        }
        let bar = "|";
        join_parts(&parts, bar)
    }

    /// The board drawn as two lines: `<bank one> - <player one's cups>`,
    /// then `<player two's cups> - <bank two>`, cups by increasing index and
    /// separated by `|`.
    pub fn render(&self) -> (r: String)
        requires
            self.wf(),
        ensures
            r@ == rendered(self@),
    {
        let h = self.cups.len() / 2;
        let mut out = decimal_string(self.bank.player1);
        out.append(" - ");
        let top = self.row_string(0, h);
        out.append(top.as_str());
        out.append("\n");
        let bottom = self.row_string(h, self.cups.len());
        out.append(bottom.as_str());
        out.append(" - ");
        let last = decimal_string(self.bank.player2);
        out.append(last.as_str());
        out
    }
}

} // verus!
