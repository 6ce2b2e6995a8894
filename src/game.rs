use crate::components::{Stone, Player, PlayerType, AILvl, count_occupied, count_tiles, occupied_first};
use rand::Rng;
use vstd::multiset::Multiset;
use vstd::prelude::*;

verus! {

/// Highest pip count on a tile.
pub const STONE_MAX_DOTS: u8 = 6;

/// Number of tiles in a full set: one per unordered pair of pip counts.
pub fn calc_amount_stones() -> (r: u8)
    ensures
        r == (STONE_MAX_DOTS + 1) * (STONE_MAX_DOTS + 2) / 2,
        r == 28,
{
    (STONE_MAX_DOTS + 1) * (STONE_MAX_DOTS + 2) / 2
}

/// High count of the tile in a slot.
pub open spec fn high(o: Option<Stone>) -> int {
    match o {
        Some(s) => s.0 as int,
        None => 0,
    }
}

/// Low count of the tile in a slot.
pub open spec fn low(o: Option<Stone>) -> int {
    match o {
        Some(s) => s.1 as int,
        None => 0,
    }
}

/// The tiles whose high count is `j`, low count descending from `j` to 0.
pub open spec fn row(j: int) -> Seq<Option<Stone>> {
    Seq::new((j + 1) as nat, |t: int| Some(Stone(j as u8, (j - t) as u8)))
}

/// The rows with high count above `j`, highest first.
pub open spec fn rows_above(j: int) -> Seq<Option<Stone>>
    decreases STONE_MAX_DOTS - j,
{
    if j >= STONE_MAX_DOTS {
        Seq::empty()
    } else {
        rows_above(j + 1) + row(j + 1)
    }
}

/// The full set in its laid-out order: (6,6), (6,5), ..., (6,0), (5,5), ..., (0,0).
pub open spec fn full_set() -> Seq<Option<Stone>> {
    rows_above(-1)
}

/// The rows above `j` hold each tile with high count above `j` once and no other.
proof fn lemma_rows_above(j: int)
    requires
        -1 <= j <= STONE_MAX_DOTS,
    ensures
        forall|i: int| 0 <= i < rows_above(j).len() ==> {
            &&& #[trigger] rows_above(j)[i] is Some
            &&& j < high(rows_above(j)[i]) <= STONE_MAX_DOTS
            &&& low(rows_above(j)[i]) <= high(rows_above(j)[i])
        },
        forall|i: int, k: int|
            0 <= i < k < rows_above(j).len() ==> #[trigger] rows_above(j)[i] != #[trigger] rows_above(j)[k],
        forall|a: u8, b: u8|
            j < a <= STONE_MAX_DOTS && b <= a ==> #[trigger] rows_above(j).contains(Some(Stone(a, b))),
    decreases STONE_MAX_DOTS - j,
{
    if j < STONE_MAX_DOTS {
        lemma_rows_above(j + 1);
        let pre = rows_above(j + 1);
        let r = row(j + 1);
        let s = rows_above(j);
        assert(s == pre + r);
        assert forall|i: int, k: int| 0 <= i < k < s.len() implies #[trigger] s[i] != #[trigger] s[k] by {
            if k < pre.len() {
                assert(s[i] == pre[i] && s[k] == pre[k]);
            } else if i >= pre.len() {
                assert(s[i] == r[i - pre.len()]);
                assert(s[k] == r[k - pre.len()]);
            } else {
                assert(s[i] == pre[i]);
                assert(s[k] == r[k - pre.len()]);
            }
        }
        assert forall|a: u8, b: u8| j < a <= STONE_MAX_DOTS && b <= a implies #[trigger] s.contains(Some(Stone(a, b))) by {
            if a > j + 1 {
                assert(pre.contains(Some(Stone(a, b))));
                let i = choose|i: int| 0 <= i < pre.len() && pre[i] == Some(Stone(a, b));
                assert(s[i] == pre[i]);
            } else {
                let i = pre.len() + (a - b);
                assert(s[i] == r[a - b]);
            }
        }
    }
}

/// A full set has 28 tiles, every tile `(a, b)` with `0 <= b <= a <= 6`
/// stands in it exactly once, and it holds no other tile.
pub proof fn lemma_full_set()
    ensures
        full_set().len() == 28,
        forall|i: int| 0 <= i < full_set().len() ==> {
            &&& #[trigger] full_set()[i] is Some
            &&& low(full_set()[i]) <= high(full_set()[i]) <= STONE_MAX_DOTS
        },
        forall|i: int, k: int|
            0 <= i < k < full_set().len() ==> #[trigger] full_set()[i] != #[trigger] full_set()[k],
        forall|a: u8, b: u8|
            b <= a <= STONE_MAX_DOTS ==> #[trigger] full_set().contains(Some(Stone(a, b))),
{
    lemma_rows_above(-1);
    assert(rows_above(6).len() == 0);
    assert(rows_above(5).len() == 7);
    assert(rows_above(4).len() == 13);
    assert(rows_above(3).len() == 18);
    assert(rows_above(2).len() == 22);
    assert(rows_above(1).len() == 25);
    assert(rows_above(0).len() == 27);
    assert(rows_above(-1).len() == 28);
}

/// A full set, in its laid-out order; `size` is only the capacity to reserve.
pub fn new_domino_set(size: usize) -> (r: Vec<Option<Stone>>)
    ensures
        r@ == full_set(),
{
    let mut set: Vec<Option<Stone>> = Vec::with_capacity(size);
    let mut n: u8 = 0;
    while n <= STONE_MAX_DOTS
        invariant
            n <= STONE_MAX_DOTS + 1,
            set@ == rows_above(STONE_MAX_DOTS - n),
        decreases STONE_MAX_DOTS + 1 - n,
    {
        let j: u8 = STONE_MAX_DOTS - n;
        let ghost base = set@;
        let mut t: u8 = 0;
        while t <= j
            invariant
                j <= STONE_MAX_DOTS,
                t <= j + 1,
                set@ == base + row(j as int).subrange(0, t as int),
            decreases j + 1 - t,
        {
            set.push(Some(Stone(j, j - t)));
            assert(row(j as int).subrange(0, t + 1) =~= row(j as int).subrange(0, t as int).push(
                Some(Stone(j, (j - t) as u8)),
            ));
            t = t + 1;
        }
        assert(row(j as int).subrange(0, j + 1) =~= row(j as int));
        assert(rows_above(j - 1) == rows_above(j as int) + row(j as int));
        n = n + 1;
    }
    set
}

/// Why a game could not be set up, or a tile could not be drawn.
#[derive(Debug, PartialEq, Eq, Structural)]
pub enum GameError {
    /// The player count is outside 2..=4, or there are more humans than players.
    Config,
    /// No tile is left in the set.
    DrawFromEmptySet,
}

/// Emptying an occupied slot takes one tile off the count.
pub proof fn lemma_count_clear(s: Seq<Option<Stone>>, i: int)
    requires
        0 <= i < s.len(),
        s[i] is Some,
    ensures
        count_occupied(s.update(i, None)) + 1 == count_occupied(s),
    decreases s.len(),
{
    let u = s.update(i, None);
    if i == s.len() - 1 {
        assert(u.drop_last() =~= s.drop_last());
    } else {
        assert(u.drop_last() =~= s.drop_last().update(i, None));
        lemma_count_clear(s.drop_last(), i);
    }
}

/// Appending a tile adds one to the count.
pub proof fn lemma_count_push(s: Seq<Option<Stone>>, t: Stone)
    ensures
        count_occupied(s.push(Some(t))) == count_occupied(s) + 1,
{
    assert(s.push(Some(t)).drop_last() =~= s);
}

/// The tiles held in the slots of `s`.
pub open spec fn tiles(s: Seq<Option<Stone>>) -> Multiset<Stone>
    decreases s.len(),
{
    if s.len() == 0 {
        Multiset::empty()
    } else {
        match s.last() {
            Some(t) => tiles(s.drop_last()).insert(t),
            None => tiles(s.drop_last()),
        }
    }
}

/// The tiles held in the hands of `ps`.
pub open spec fn hand_tiles(ps: Seq<Player>) -> Multiset<Stone>
    decreases ps.len(),
{
    if ps.len() == 0 {
        Multiset::empty()
    } else {
        hand_tiles(ps.drop_last()).add(tiles(ps.last().stones@))
    }
}

/// Emptying a slot takes its tile out of the multiset.
pub proof fn lemma_tiles_clear(s: Seq<Option<Stone>>, i: int, t: Stone)
    requires
        0 <= i < s.len(),
        s[i] == Some(t),
    ensures
        tiles(s.update(i, None)).insert(t) =~= tiles(s),
    decreases s.len(),
{
    let u = s.update(i, None);
    if i == s.len() - 1 {
        assert(u.drop_last() =~= s.drop_last());
    } else {
        assert(u.drop_last() =~= s.drop_last().update(i, None));
        lemma_tiles_clear(s.drop_last(), i, t);
    }
}

/// Appending a tile puts it into the multiset.
pub proof fn lemma_tiles_push(s: Seq<Option<Stone>>, t: Stone)
    ensures
        tiles(s.push(Some(t))) =~= tiles(s).insert(t),
{
    assert(s.push(Some(t)).drop_last() =~= s);
}

/// A tile counted in the multiset stands in some slot.
pub proof fn lemma_tiles_contains(s: Seq<Option<Stone>>, x: Stone)
    requires
        tiles(s).count(x) > 0,
    ensures
        s.contains(Some(x)),
    decreases s.len(),
{
    if s.len() > 0 {
        if s.last() != Some(x) {
            lemma_tiles_contains(s.drop_last(), x);
            let i = choose|i: int| 0 <= i < s.drop_last().len() && s.drop_last()[i] == Some(x);
            assert(s[i] == Some(x));
        } else {
            assert(s[s.len() - 1] == Some(x));
        }
    }
}

/// Slots that hold pairwise different tiles count each tile at most once.
pub proof fn lemma_tiles_distinct(s: Seq<Option<Stone>>)
    requires
        forall|i: int| 0 <= i < s.len() ==> #[trigger] s[i] is Some,
        forall|i: int, k: int| 0 <= i < k < s.len() ==> #[trigger] s[i] != #[trigger] s[k],
    ensures
        forall|x: Stone| #[trigger] tiles(s).count(x) <= 1,
    decreases s.len(),
{
    if s.len() > 0 {
        let d = s.drop_last();
        assert forall|i: int, k: int| 0 <= i < k < d.len() implies #[trigger] d[i] != #[trigger] d[k] by {
            assert(d[i] == s[i] && d[k] == s[k]);
        }
        lemma_tiles_distinct(d);
        let t = s.last()->0;
        if tiles(d).count(t) > 0 {
            lemma_tiles_contains(d, t);
            let i = choose|i: int| 0 <= i < d.len() && d[i] == Some(t);
            assert(s[i] == s[s.len() - 1]);
        }
    }
}

/// Giving player `p` a hand with one tile more puts that tile into the
/// hands' multiset.
pub proof fn lemma_hand_tiles_update(ps: Seq<Player>, p: int, pl: Player, t: Stone)
    requires
        0 <= p < ps.len(),
        tiles(pl.stones@) =~= tiles(ps[p].stones@).insert(t),
    ensures
        hand_tiles(ps.update(p, pl)) =~= hand_tiles(ps).insert(t),
    decreases ps.len(),
{
    let u = ps.update(p, pl);
    if p == ps.len() - 1 {
        assert(u.drop_last() =~= ps.drop_last());
    } else {
        assert(u.drop_last() =~= ps.drop_last().update(p, pl));
        lemma_hand_tiles_update(ps.drop_last(), p, pl, t);
    }
}

/// Empty hands hold no tile.
pub proof fn lemma_hand_tiles_empty(ps: Seq<Player>)
    requires
        forall|q: int| 0 <= q < ps.len() ==> (#[trigger] ps[q]).stones@.len() == 0,
    ensures
        hand_tiles(ps) =~= Multiset::<Stone>::empty(),
    decreases ps.len(),
{
    if ps.len() > 0 {
        assert(ps.last() == ps[ps.len() - 1]);
        lemma_hand_tiles_empty(ps.drop_last());
    }
}

/// A full set holds no tile twice.
pub proof fn lemma_full_set_once()
    ensures
        forall|x: Stone| #[trigger] tiles(full_set()).count(x) <= 1,
{
    lemma_full_set();
    lemma_tiles_distinct(full_set());
}

/// Takes out of `set` the tile of its `r`-th occupied slot (counted from 0):
/// the slot `i` that is occupied and has `r` occupied slots before it.
pub fn take_remaining(set: &mut Vec<Option<Stone>>, r: usize) -> (t: Stone)
    requires
        r < count_occupied(old(set)@),
    ensures
        exists|i: int|
            0 <= i < old(set)@.len() && old(set)@[i] == Some(t) && count_occupied(
                old(set)@.subrange(0, i),
            ) == r && final(set)@ == old(set)@.update(i, None),
        count_occupied(final(set)@) + 1 == count_occupied(old(set)@),
{
    let n = set.len();
    let mut c: usize = 0;
    let mut i: usize = 0;
    while i < n
        invariant
            n == set@.len(),
            set@ == old(set)@,
            r < count_occupied(set@),
            i <= n,
            c == count_occupied(set@.subrange(0, i as int)),
            c <= r,
        decreases n - i,
    {
        proof {
            assert(set@.subrange(0, i + 1).drop_last() =~= set@.subrange(0, i as int));
        }
        match set[i] {
            Some(t) => {
                if c == r {
                    set.set(i, None);
                    proof {
                        lemma_count_clear(old(set)@, i as int);
                    }
                    return t;
                }
                c = c + 1;
            },
            None => {},
        }
        i = i + 1;
    }
    proof {
        assert(set@.subrange(0, n as int) =~= set@);
    }
    // Not reached: the slot is found before the loop ends.
    Stone(0, 0)
}

/// Relies on rand's `thread_rng().gen_range(0..n)`: a value below `n`, for
/// `n > 0` (it panics on an empty range). Which value comes is left open.
#[verifier::external_body]
fn random_below(n: usize) -> (r: usize)
    requires
        n > 0,
    ensures
        r < n,
{
    rand::thread_rng().gen_range(0..n)
}

/// A match: the tile set, the players in turn order, whether the match is
/// still on, whose turn comes next, and the slot that the opening turn must
/// empty, if any.
#[derive(Debug)]
pub struct Game {
    pub domino_set: Vec<Option<Stone>>,
    pub players: Vec<Player>,
    pub started: bool,
    pub playing: usize,
    pub priority: Option<usize>,
}

/// Slot `o` holds the double `(v, v)`.
pub open spec fn is_double_of(o: Option<Stone>, v: int) -> bool {
    o matches Some(t) && t.0 == v && t.1 == v
}

/// Player `p` holds the double `(v, v)` in slot `j`.
pub open spec fn holds_double(ps: Seq<Player>, p: int, j: int, v: int) -> bool {
    &&& 0 <= p < ps.len()
    &&& 0 <= j < ps[p].stones@.len()
    &&& is_double_of(ps[p].stones@[j], v)
}

/// Slot `j` of player `p` is the first place, players in order and then
/// slots in order, that holds `(v, v)`.
pub open spec fn first_double(ps: Seq<Player>, v: int, p: int, j: int) -> bool {
    &&& holds_double(ps, p, j, v)
    &&& forall|q: int, k: int|
        (q < p || (q == p && k < j)) ==> !#[trigger] holds_double(ps, q, k, v)
}

/// No hand holds a double with more pips than `v`, up to the highest count.
pub open spec fn no_double_above(ps: Seq<Player>, v: int) -> bool {
    forall|w: int, q: int, k: int|
        v < w <= STONE_MAX_DOTS ==> !#[trigger] holds_double(ps, q, k, w)
}

/// The opening slot: slot `j` of player `p` holds the highest double in play,
/// and is the first place that holds it.
pub open spec fn is_opening(ps: Seq<Player>, p: int, j: int) -> bool {
    exists|v: int| 0 <= v <= STONE_MAX_DOTS && no_double_above(ps, v) && #[trigger] first_double(ps, v, p, j)
}

/// The first slot of `stones` that holds `(v, v)`.
fn find_double_in_hand(stones: &Vec<Option<Stone>>, v: u8) -> (r: Option<usize>)
    ensures
        r matches Some(j) ==> j < stones@.len() && is_double_of(stones@[j as int], v as int)
            && forall|k: int| 0 <= k < j ==> !is_double_of(#[trigger] stones@[k], v as int),
        r is None ==> forall|k: int| 0 <= k < stones@.len() ==> !is_double_of(#[trigger] stones@[k], v as int),
{
    let mut j: usize = 0;
    while j < stones.len()
        invariant
            j <= stones@.len(),
            forall|k: int| 0 <= k < j ==> !is_double_of(#[trigger] stones@[k], v as int),
        decreases stones@.len() - j,
    {
        if let Some(t) = stones[j] {
            if t.0 == v && t.1 == v {
                return Some(j);
            }
        }
        j = j + 1;
    }
    None
}

/// The first place, players in order and then slots in order, that holds `(v, v)`.
fn find_double(players: &Vec<Player>, v: u8) -> (r: Option<(usize, usize)>)
    ensures
        r matches Some((p, j)) ==> first_double(players@, v as int, p as int, j as int),
        r is None ==> forall|q: int, k: int| !#[trigger] holds_double(players@, q, k, v as int),
{
    let mut p: usize = 0;
    while p < players.len()
        invariant
            p <= players@.len(),
            forall|q: int, k: int| q < p ==> !#[trigger] holds_double(players@, q, k, v as int),
        decreases players@.len() - p,
    {
        match find_double_in_hand(&players[p].stones, v) {
            Some(j) => {
                assert forall|q: int, k: int| (q < p || (q == p && k < j)) implies !#[trigger] holds_double(
                    players@,
                    q,
                    k,
                    v as int,
                ) by {
                    if q == p && 0 <= k {
                        assert(!is_double_of(players@[q].stones@[k], v as int));
                    }
                }
                return Some((p, j));
            },
            None => {
                assert forall|q: int, k: int| q < p + 1 implies !#[trigger] holds_double(players@, q, k, v as int) by {
                    if q == p && 0 <= k < players@[q].stones@.len() {
                        assert(!is_double_of(players@[q].stones@[k], v as int));
                    }
                }
            },
        }
        p = p + 1;
    }
    None
}

impl Game {
    /// The player count is in 2..=4 and the turn points at one of them.
    pub open spec fn wf(&self) -> bool {
        &&& 2 <= self.players@.len() <= 4
        &&& self.playing < self.players@.len()
    }

    pub fn playing(&self) -> (r: usize)
        ensures
            r == self.playing,
    {
        self.playing
    }

    pub fn priority(&self) -> (r: Option<usize>)
        ensures
            r == self.priority,
    {
        self.priority
    }

    pub fn started(&self) -> (r: bool)
        ensures
            r == self.started,
    {
        self.started
    }

    pub fn players(&self) -> (r: &Vec<Player>)
        ensures
            r == self.players,
    {
        &self.players
    }

    pub fn domino_set(&self) -> (r: &Vec<Option<Stone>>)
        ensures
            r == self.domino_set,
    {
        &self.domino_set
    }

    /// Number of tiles left in the set.
    pub fn remaining(&self) -> (r: usize)
        ensures
            r == count_occupied(self.domino_set@),
    {
        count_tiles(&self.domino_set)
    }

    /// Draws the tile of the `r`-th occupied slot of the set (counted from 0),
    /// emptying that slot; an error where fewer than `r + 1` tiles are left.
    pub fn draw_nth(&mut self, r: usize) -> (res: Result<Stone, GameError>)
        ensures
            final(self).players == old(self).players,
            final(self).started == old(self).started,
            final(self).playing == old(self).playing,
            final(self).priority == old(self).priority,
            (r >= count_occupied(old(self).domino_set@)) == (res is Err),
            res is Err ==> res == Err::<Stone, GameError>(GameError::DrawFromEmptySet)
                && final(self).domino_set@ == old(self).domino_set@,
            res matches Ok(t) ==> exists|i: int|
                0 <= i < old(self).domino_set@.len() && old(self).domino_set@[i] == Some(t)
                    && count_occupied(old(self).domino_set@.subrange(0, i)) == r
                    && final(self).domino_set@ == old(self).domino_set@.update(i, None),
            res is Ok ==> count_occupied(final(self).domino_set@) + 1 == count_occupied(old(self).domino_set@),
    {
        if r >= count_tiles(&self.domino_set) {
            return Err(GameError::DrawFromEmptySet);
        }
        Ok(take_remaining(&mut self.domino_set, r))
    }

    /// Draws a tile chosen at random among those left, emptying its slot; an
    /// error where none is left.
    pub fn draw(&mut self) -> (res: Result<Stone, GameError>)
        ensures
            final(self).players == old(self).players,
            final(self).started == old(self).started,
            final(self).playing == old(self).playing,
            final(self).priority == old(self).priority,
            (count_occupied(old(self).domino_set@) == 0) == (res is Err),
            res is Err ==> res == Err::<Stone, GameError>(GameError::DrawFromEmptySet)
                && final(self).domino_set@ == old(self).domino_set@,
            res matches Ok(t) ==> exists|i: int|
                0 <= i < old(self).domino_set@.len() && old(self).domino_set@[i] == Some(t)
                    && final(self).domino_set@ == old(self).domino_set@.update(i, None),
            res is Ok ==> count_occupied(final(self).domino_set@) + 1 == count_occupied(old(self).domino_set@),
    {
        let n = count_tiles(&self.domino_set);
        if n == 0 {
            return Err(GameError::DrawFromEmptySet);
        }
        let r = random_below(n);
        self.draw_nth(r)
    }

    /// Deals one tile at random from the set to player `p`: the tile's slot
    /// in the set is emptied and the tile goes to the end of the hand. An
    /// error, with nothing changed, where the set is empty.
    fn give_stone(&mut self, p: usize) -> (res: Result<(), GameError>)
        requires
            p < old(self).players@.len(),
        ensures
            final(self).players@.len() == old(self).players@.len(),
            final(self).domino_set@.len() == old(self).domino_set@.len(),
            forall|q: int| 0 <= q < old(self).players@.len() && q != p ==> #[trigger] final(self).players@[q] == old(self).players@[q],
            final(self).players@[p as int].typ == old(self).players@[p as int].typ,
            final(self).started == old(self).started,
            final(self).playing == old(self).playing,
            final(self).priority == old(self).priority,
            (count_occupied(old(self).domino_set@) == 0) == (res is Err),
            res is Err ==> res == Err::<(), GameError>(GameError::DrawFromEmptySet)
                && final(self).domino_set@ == old(self).domino_set@
                && final(self).players == old(self).players,
            res is Ok ==> exists|i: int, t: Stone|
                0 <= i < old(self).domino_set@.len() && #[trigger] old(self).domino_set@[i] == Some(t)
                    && final(self).domino_set@ == old(self).domino_set@.update(i, None)
                    && final(self).players@[p as int].stones@ == #[trigger] old(self).players@[p as int].stones@.push(Some(t)),
            res is Ok ==> count_occupied(final(self).domino_set@) + 1 == count_occupied(old(self).domino_set@),
            tiles(final(self).domino_set@).add(hand_tiles(final(self).players@))
                == tiles(old(self).domino_set@).add(hand_tiles(old(self).players@)),
    {
        match self.draw() {
            Ok(t) => {
                let ghost mid = self.players@;
                self.players[p].stones.push(Some(t));
                proof {
                    let i = choose|i: int|
                        0 <= i < old(self).domino_set@.len() && old(self).domino_set@[i] == Some(t)
                            && self.domino_set@ == old(self).domino_set@.update(i, None);
                    lemma_tiles_clear(old(self).domino_set@, i, t);
                    lemma_tiles_push(mid[p as int].stones@, t);
                    assert(self.players@ =~= mid.update(p as int, self.players@[p as int]));
                    lemma_hand_tiles_update(mid, p as int, self.players@[p as int], t);
                    assert(tiles(self.domino_set@).add(hand_tiles(self.players@))
                        =~= tiles(old(self).domino_set@).add(hand_tiles(old(self).players@)));
                    assert(self.players@[p as int].stones@ == old(self).players@[p as int].stones@.push(Some(t)));
                }
                Ok(())
            },
            Err(e) => Err(e),
        }
    }

    /// Deals seven tiles to each player in turn, one at a time.
    fn give_initial_stones(&mut self)
        requires
            count_occupied(old(self).domino_set@) >= 7 * old(self).players@.len(),
        ensures
            final(self).players@.len() == old(self).players@.len(),
            forall|q: int| 0 <= q < old(self).players@.len() ==> {
                &&& (#[trigger] final(self).players@[q]).typ == old(self).players@[q].typ
                &&& final(self).players@[q].stones@.len() == old(self).players@[q].stones@.len() + 7
                &&& count_occupied(final(self).players@[q].stones@) == count_occupied(old(self).players@[q].stones@) + 7
            },
            count_occupied(final(self).domino_set@) + 7 * old(self).players@.len() == count_occupied(old(self).domino_set@),
            final(self).domino_set@.len() == old(self).domino_set@.len(),
            tiles(final(self).domino_set@).add(hand_tiles(final(self).players@))
                == tiles(old(self).domino_set@).add(hand_tiles(old(self).players@)),
            final(self).started == old(self).started,
            final(self).playing == old(self).playing,
            final(self).priority == old(self).priority,
    {
        let n = self.players.len();
        let mut p: usize = 0;
        while p < n
            invariant
                n == self.players@.len(),
                n == old(self).players@.len(),
                p <= n,
                count_occupied(self.domino_set@) + 7 * p == count_occupied(old(self).domino_set@),
                self.domino_set@.len() == old(self).domino_set@.len(),
                count_occupied(old(self).domino_set@) >= 7 * n,
                forall|q: int| 0 <= q < p ==> {
                    &&& (#[trigger] self.players@[q]).typ == old(self).players@[q].typ
                    &&& self.players@[q].stones@.len() == old(self).players@[q].stones@.len() + 7
                    &&& count_occupied(self.players@[q].stones@) == count_occupied(old(self).players@[q].stones@) + 7
                },
                forall|q: int| p <= q < n ==> #[trigger] self.players@[q] == old(self).players@[q],
                tiles(self.domino_set@).add(hand_tiles(self.players@))
                    == tiles(old(self).domino_set@).add(hand_tiles(old(self).players@)),
                self.started == old(self).started,
                self.playing == old(self).playing,
                self.priority == old(self).priority,
            decreases n - p,
        {
            let mut k: usize = 0;
            while k < 7
                invariant
                    n == self.players@.len(),
                    n == old(self).players@.len(),
                    p < n,
                    k <= 7,
                    count_occupied(self.domino_set@) + 7 * p + k == count_occupied(old(self).domino_set@),
                    self.domino_set@.len() == old(self).domino_set@.len(),
                    count_occupied(old(self).domino_set@) >= 7 * n,
                    forall|q: int| 0 <= q < p ==> {
                        &&& (#[trigger] self.players@[q]).typ == old(self).players@[q].typ
                        &&& self.players@[q].stones@.len() == old(self).players@[q].stones@.len() + 7
                        &&& count_occupied(self.players@[q].stones@) == count_occupied(old(self).players@[q].stones@) + 7
                    },
                    self.players@[p as int].typ == old(self).players@[p as int].typ,
                    self.players@[p as int].stones@.len() == old(self).players@[p as int].stones@.len() + k,
                    count_occupied(self.players@[p as int].stones@) == count_occupied(old(self).players@[p as int].stones@) + k,
                    forall|q: int| p < q < n ==> #[trigger] self.players@[q] == old(self).players@[q],
                    tiles(self.domino_set@).add(hand_tiles(self.players@))
                        == tiles(old(self).domino_set@).add(hand_tiles(old(self).players@)),
                    self.started == old(self).started,
                    self.playing == old(self).playing,
                    self.priority == old(self).priority,
                decreases 7 - k,
            {
                let ghost before = self.players@[p as int].stones@;
                let ghost set_before = self.domino_set@;
                let res = self.give_stone(p);
                proof {
                    assert(res is Ok);
                    let (i, t) = choose|i: int, t: Stone|
                        0 <= i < set_before.len() && #[trigger] set_before[i] == Some(t)
                            && self.players@[p as int].stones@ == #[trigger] before.push(Some(t));
                    lemma_count_push(before, t);
                }
                k = k + 1;
            }
            p = p + 1;
        }
    }

    /// Adds `num_players` players with empty hands: the first `num_humans`
    /// human, the others automated.
    fn add_players(&mut self, num_players: u8, num_humans: u8, num_tiles: u8)
        ensures
            final(self).players@.len() == old(self).players@.len() + num_players,
            forall|q: int| 0 <= q < old(self).players@.len() ==> #[trigger] final(self).players@[q] == old(self).players@[q],
            forall|q: int| 0 <= q < num_players ==> {
                &&& (#[trigger] final(self).players@[old(self).players@.len() + q]).stones@.len() == 0
                &&& final(self).players@[old(self).players@.len() + q].typ.is_human() == (q < num_humans)
            },
            final(self).domino_set == old(self).domino_set,
            final(self).started == old(self).started,
            final(self).playing == old(self).playing,
            final(self).priority == old(self).priority,
    {
        let ghost base = self.players@.len();
        let mut i: u8 = 0;
        while i < num_players
            invariant
                i <= num_players,
                base == old(self).players@.len(),
                self.players@.len() == base + i,
                forall|q: int| 0 <= q < base ==> #[trigger] self.players@[q] == old(self).players@[q],
                forall|q: int| 0 <= q < i ==> {
                    &&& (#[trigger] self.players@[base + q]).stones@.len() == 0
                    &&& self.players@[base + q].typ.is_human() == (q < num_humans)
                },
                self.domino_set == old(self).domino_set,
                self.started == old(self).started,
                self.playing == old(self).playing,
                self.priority == old(self).priority,
            decreases num_players - i,
        {
            let typ = if i < num_humans {
                PlayerType::Human
            } else {
                PlayerType::AI(AILvl::Easy)
            };
            let p = Player::new(typ, Vec::with_capacity((num_tiles / num_players) as usize));
            self.players.push(p);
            i = i + 1;
        }
    }

    /// Finds who opens: the holder of the highest double, the first such
    /// place with players in order and then slots in order. That player's
    /// turn comes next and that slot is the one the opening turn empties.
    /// Where no hand holds a double, nothing changes.
    pub fn create_priority(&mut self)
        ensures
            final(self).players == old(self).players,
            final(self).domino_set == old(self).domino_set,
            final(self).started == old(self).started,
            no_double_above(old(self).players@, -1) ==> final(self).playing == old(self).playing
                && final(self).priority == old(self).priority,
            !no_double_above(old(self).players@, -1) ==> final(self).priority is Some
                && is_opening(old(self).players@, final(self).playing as int, final(self).priority->0 as int),
    {
        let mut n: u8 = 0;
        while n <= STONE_MAX_DOTS
            invariant
                n <= STONE_MAX_DOTS + 1,
                no_double_above(self.players@, STONE_MAX_DOTS - n),
                self.players == old(self).players,
                self.domino_set == old(self).domino_set,
                self.started == old(self).started,
                self.playing == old(self).playing,
                self.priority == old(self).priority,
            decreases STONE_MAX_DOTS + 1 - n,
        {
            let v: u8 = STONE_MAX_DOTS - n;
            match find_double(&self.players, v) {
                Some((p, j)) => {
                    self.playing = p;
                    self.priority = Some(j);
                    assert(first_double(self.players@, v as int, p as int, j as int));
                    return;
                },
                None => {},
            }
            n = n + 1;
        }
    }

    /// Whose turn it is; the turn passes on to the next player, cyclically.
    fn player_playing(&mut self) -> (r: usize)
        requires
            old(self).wf(),
        ensures
            r == old(self).playing,
            final(self).playing == (old(self).playing + 1) % (old(self).players@.len() as int),
            final(self).wf(),
            final(self).players == old(self).players,
            final(self).domino_set == old(self).domino_set,
            final(self).started == old(self).started,
            final(self).priority == old(self).priority,
    {
        let i = self.playing;
        self.playing = (i + 1) % self.players.len();
        i
    }

    /// One turn. The turn passes on first. Where an opening slot is pending,
    /// the player whose turn it was has that slot emptied, and the match goes
    /// on. Otherwise that player plays (`choice` is the slot a human picked,
    /// see `Player::play`) and the match ends.
    pub fn run(&mut self, choice: usize)
        requires
            old(self).wf(),
        ensures
            final(self).wf(),
            final(self).playing == (old(self).playing + 1) % (old(self).players@.len() as int),
            final(self).priority is None,
            final(self).domino_set == old(self).domino_set,
            final(self).players@.len() == old(self).players@.len(),
            forall|q: int| 0 <= q < old(self).players@.len() && q != old(self).playing ==> #[trigger] final(self).players@[q] == old(self).players@[q],
            final(self).players@[old(self).playing as int].typ == old(self).players@[old(self).playing as int].typ,
            ({
                let cur = old(self).players@[old(self).playing as int];
                match old(self).priority {
                    Some(j) => {
                        &&& final(self).started == old(self).started
                        &&& final(self).players@[old(self).playing as int].stones@ == (if j < cur.stones@.len() {
                            cur.stones@.update(j as int, None)
                        } else {
                            cur.stones@
                        })
                    },
                    None => {
                        &&& final(self).started == false
                        &&& final(self).players@[old(self).playing as int].stones@ == cur.played(choice)
                    },
                }
            }),
    {
        let priority = self.priority.take();
        let i = self.player_playing();
        if let Some(j) = priority {
            if j < self.players[i].stones.len() {
                self.players[i].stones.set(j, None);
            }
            return;
        } else {
            self.players[i].play(choice);
        }
        self.started = false;
    }

    /// Sets up a match: checks the counts, lays out a full set, seats the
    /// players (the first `num_humans` human, no humans where it is `None`),
    /// deals seven tiles to each, and finds who opens. The match is then on.
    /// An error, before anything is built, where the player count is outside
    /// 2..=4 or there are more humans than players. Any number of humans from
    /// 0 up to the player count is accepted: the number of humans is not
    /// itself held to 2..=4.
    pub fn start(num_players: u8, num_humans: Option<u8>) -> (r: Result<Game, GameError>)
        ensures
            ({
                let h = match num_humans {
                    Some(h) => h,
                    None => 0,
                };
                &&& (2 <= num_players <= 4 && h <= num_players) == (r is Ok)
                &&& r is Err ==> r == Err::<Game, GameError>(GameError::Config)
                &&& r matches Ok(g) ==> {
                    &&& g.wf()
                    &&& g.started
                    &&& g.players@.len() == num_players
                    &&& forall|q: int| 0 <= q < num_players ==> {
                        &&& (#[trigger] g.players@[q]).typ.is_human() == (q < h)
                        &&& g.players@[q].stones@.len() == 7
                        &&& count_occupied(g.players@[q].stones@) == 7
                    }
                    &&& g.domino_set@.len() == 28
                    &&& count_occupied(g.domino_set@) == 28 - 7 * num_players
                    &&& tiles(g.domino_set@).add(hand_tiles(g.players@)) == tiles(full_set())
                    &&& no_double_above(g.players@, -1) ==> g.playing == 0 && g.priority is None
                    &&& !no_double_above(g.players@, -1) ==> g.priority is Some
                        && is_opening(g.players@, g.playing as int, g.priority->0 as int)
                }
            }),
    {
        let num_humans = match num_humans {
            Some(h) => h,
            None => 0,
        };
        if num_players < 2 || num_players > 4 || num_players < num_humans {
            return Err(GameError::Config);
        }
        let amount = calc_amount_stones();
        let players: Vec<Player> = Vec::with_capacity(num_players as usize);
        let domino_set = new_domino_set(amount as usize);
        let mut game = Game { domino_set, players, started: true, playing: 0, priority: None };
        proof {
            lemma_full_set();
            lemma_count_all(full_set());
        }
        game.add_players(num_players, num_humans, amount);
        let ghost seated = game.players@;
        proof {
            assert forall|q: int| 0 <= q < seated.len() implies (#[trigger] seated[q]).stones@.len() == 0 by {
                assert(seated[0 + q] == seated[q]);
            }
            lemma_hand_tiles_empty(seated);
            assert(tiles(full_set()).add(hand_tiles(seated)) =~= tiles(full_set()));
        }
        game.give_initial_stones();
        let ghost dealt = game.players@;
        game.create_priority();
        proof {
            assert forall|q: int| 0 <= q < num_players implies {
                &&& (#[trigger] game.players@[q]).typ.is_human() == (q < num_humans)
                &&& game.players@[q].stones@.len() == 7
                &&& count_occupied(game.players@[q].stones@) == 7
            } by {
                assert(seated[0 + q] == seated[q]);
                lemma_count_len(seated[q].stones@);
                assert(game.players@[q] == dealt[q]);
            }
        }
        Ok(game)
    }

    /// A match over the given tile set and players, in turn order; it is on,
    /// player 0 is to play and no opening slot is set. An error where the
    /// player count is outside 2..=4.
    pub fn with_players(domino_set: Vec<Option<Stone>>, players: Vec<Player>) -> (r: Result<Game, GameError>)
        ensures
            (2 <= players@.len() <= 4) == (r is Ok),
            r is Err ==> r == Err::<Game, GameError>(GameError::Config),
            r matches Ok(g) ==> {
                &&& g.wf()
                &&& g.domino_set == domino_set
                &&& g.players == players
                &&& g.started
                &&& g.playing == 0
                &&& g.priority is None
            },
    {
        if players.len() < 2 || players.len() > 4 {
            return Err(GameError::Config);
        }
        Ok(Game { domino_set, players, started: true, playing: 0, priority: None })
    }
}

/// A hand whose every slot is occupied counts every slot.
pub proof fn lemma_count_all(s: Seq<Option<Stone>>)
    requires
        forall|i: int| 0 <= i < s.len() ==> #[trigger] s[i] is Some,
    ensures
        count_occupied(s) == s.len(),
    decreases s.len(),
{
    if s.len() > 0 {
        lemma_count_all(s.drop_last());
    }
}

/// The count of a hand never passes its length.
pub proof fn lemma_count_len(s: Seq<Option<Stone>>)
    ensures
        count_occupied(s) <= s.len(),
    decreases s.len(),
{
    if s.len() > 0 {
        lemma_count_len(s.drop_last());
    }
}

/// At most one slot opens a match: the highest double in play, at its first
/// place with players in order and then slots in order.
pub proof fn lemma_opening_unique(ps: Seq<Player>, p1: int, j1: int, p2: int, j2: int)
    requires
        is_opening(ps, p1, j1),
        is_opening(ps, p2, j2),
    ensures
        p1 == p2 && j1 == j2,
{
    let v1 = choose|v: int| 0 <= v <= STONE_MAX_DOTS && no_double_above(ps, v) && #[trigger] first_double(ps, v, p1, j1);
    let v2 = choose|v: int| 0 <= v <= STONE_MAX_DOTS && no_double_above(ps, v) && #[trigger] first_double(ps, v, p2, j2);
    if v1 < v2 {
        assert(!holds_double(ps, p2, j2, v2));
    }
    if v2 < v1 {
        assert(!holds_double(ps, p1, j1, v1));
    }
    if p1 < p2 || (p1 == p2 && j1 < j2) {
        assert(!holds_double(ps, p1, j1, v2));
    }
    if p2 < p1 || (p2 == p1 && j2 < j1) {
        assert(!holds_double(ps, p2, j2, v1));
    }
}

/// Where the tiles left in the set and those in the hands are together a
/// full set, no tile stands twice among them.
pub proof fn lemma_no_tile_twice(set: Seq<Option<Stone>>, ps: Seq<Player>)
    requires
        tiles(set).add(hand_tiles(ps)) == tiles(full_set()),
    ensures
        forall|x: Stone| #[trigger] tiles(set).add(hand_tiles(ps)).count(x) <= 1,
{
    lemma_full_set_once();
}

} // verus!
