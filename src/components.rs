use vstd::prelude::*;

verus! {

/// One domino tile: the two pip counts, high first as the set lays them out.
#[derive(Clone, Copy, Debug, PartialEq, Eq, Structural)]
pub struct Stone(pub u8, pub u8);

/// Level of an automated player; it names the player's kind and nothing more.
#[derive(Debug)]
pub enum AILvl {
    Easy,
}

/// How a player picks the tile to play.
#[derive(Debug)]
pub enum PlayerType {
    Human,
    AI(AILvl),
}

/// A player: a kind and a hand of slots, which a play empties without moving
/// the other slots.
#[derive(Debug)]
pub struct Player {
    pub typ: PlayerType,
    pub stones: Vec<Option<Stone>>,
}

/// The occupied slots of `s`, in order.
pub open spec fn occupied(s: Seq<Option<Stone>>) -> Seq<Option<Stone>>
    decreases s.len(),
{
    if s.len() == 0 {
        Seq::empty()
    } else if s.last() is Some {
        occupied(s.drop_last()).push(s.last())
    } else {
        occupied(s.drop_last())
    }
}

/// The empty slots of `s`.
pub open spec fn vacant(s: Seq<Option<Stone>>) -> Seq<Option<Stone>>
    decreases s.len(),
{
    if s.len() == 0 {
        Seq::empty()
    } else if s.last() is Some {
        vacant(s.drop_last())
    } else {
        vacant(s.drop_last()).push(s.last())
    }
}

/// Number of tiles held in `s`.
pub open spec fn count_occupied(s: Seq<Option<Stone>>) -> nat {
    occupied(s).len()
}

/// The hand with its occupied slots moved to the front, each part in its
/// former order.
pub open spec fn occupied_first(s: Seq<Option<Stone>>) -> Seq<Option<Stone>> {
    occupied(s) + vacant(s)
}

/// Every slot of `occupied(s)` holds a tile, every slot of `vacant(s)` none,
/// and together they have as many slots as `s`.
pub proof fn lemma_partition(s: Seq<Option<Stone>>)
    ensures
        forall|i: int| 0 <= i < occupied(s).len() ==> #[trigger] occupied(s)[i] is Some,
        forall|i: int| 0 <= i < vacant(s).len() ==> #[trigger] vacant(s)[i] is None,
        occupied(s).len() + vacant(s).len() == s.len(),
    decreases s.len(),
{
    if s.len() > 0 {
        lemma_partition(s.drop_last());
    }
}

impl PlayerType {
    pub open spec fn is_human(&self) -> bool {
        self is Human
    }
}

impl Player {
    pub fn new(typ: PlayerType, stones: Vec<Option<Stone>>) -> (r: Self)
        ensures
            r.stones@ == stones@,
            r.typ == typ,
    {
        Self { typ, stones }
    }

    /// Whether the player chooses through outside input.
    pub fn is_human(&self) -> (r: bool)
        ensures
            r == self.typ.is_human(),
    {
        match self.typ {
            PlayerType::Human => true,
            PlayerType::AI(_) => false,
        }
    }

    /// Moves the occupied slots to the front, keeping the order within the
    /// occupied ones and within the empty ones.
    pub fn sort_stones(&mut self)
        ensures
            final(self).stones@ == occupied_first(old(self).stones@),
            final(self).typ == old(self).typ,
    {
        let n = self.stones.len();
        let mut front: Vec<Option<Stone>> = Vec::with_capacity(n);
        let mut back: Vec<Option<Stone>> = Vec::new();
        let mut i: usize = 0;
        while i < n
            invariant
                n == self.stones@.len(),
                self.stones@ == old(self).stones@,
                self.typ == old(self).typ,
                i <= n,
                front@ == occupied(self.stones@.subrange(0, i as int)),
                back@ == vacant(self.stones@.subrange(0, i as int)),
            decreases n - i,
        {
            let s = self.stones[i];
            proof {
                let pre = self.stones@.subrange(0, i as int);
                let nxt = self.stones@.subrange(0, i as int + 1);
                assert(nxt.drop_last() =~= pre);
                assert(nxt.last() == s);
            }
            if s.is_some() {
                front.push(s);
            } else {
                back.push(s);
            }
            i = i + 1;
        }
        proof {
            assert(self.stones@.subrange(0, n as int) =~= self.stones@);
        }
        front.append(&mut back);
        self.stones = front;
    }

    /// Number of tiles in the hand.
    pub fn count_stones(&self) -> (r: usize)
        ensures
            r == count_occupied(self.stones@),
    {
        count_tiles(&self.stones)
    }

    /// The slot that a play empties: `choice` for a human, the first for an
    /// automated player.
    pub open spec fn slot_for(&self, choice: usize) -> int {
        if self.typ.is_human() {
            choice as int
        } else {
            0
        }
    }

    /// The hand after a play of `choice`: sorted occupied-first, with the
    /// played slot emptied where it lies inside the hand.
    pub open spec fn played(&self, choice: usize) -> Seq<Option<Stone>> {
        let sorted = occupied_first(self.stones@);
        let slot = self.slot_for(choice);
        if slot < sorted.len() {
            sorted.update(slot, None)
        } else {
            sorted
        }
    }

    /// Sorts the hand occupied-first, then empties the chosen slot and returns
    /// what it held. A human plays the slot `choice`; an automated player plays
    /// the first slot and `choice` is not read. A slot past the hand's end, or
    /// an empty one, gives `None`.
    pub fn play(&mut self, choice: usize) -> (r: Option<Stone>)
        ensures
            final(self).typ == old(self).typ,
            final(self).stones@ == old(self).played(choice),
            ({
                let sorted = occupied_first(old(self).stones@);
                let slot = old(self).slot_for(choice);
                if slot < sorted.len() {
                    r == sorted[slot] && final(self).stones@ == sorted.update(slot, None)
                } else {
                    r is None && final(self).stones@ == sorted
                }
            }),
            r == (if old(self).slot_for(choice) < count_occupied(old(self).stones@) {
                occupied(old(self).stones@)[old(self).slot_for(choice)]
            } else {
                None
            }),
    {
        self.sort_stones();
        proof {
            let s = old(self).stones@;
            let slot = old(self).slot_for(choice);
            lemma_partition(s);
            let cnt = occupied(s).len() as int;
            if slot < self.stones@.len() && slot >= cnt {
                assert(self.stones@[slot] == vacant(s)[slot - cnt]);
            }
        }
        match self.typ {
            PlayerType::Human => self.human_play(choice),
            PlayerType::AI(_) => self.ai_play(),
        }
    }

    /// Empties slot `i` and returns what it held; `None` past the hand's end.
    fn take_slot(&mut self, i: usize) -> (r: Option<Stone>)
        ensures
            final(self).typ == old(self).typ,
            i < old(self).stones@.len() ==> r == old(self).stones@[i as int]
                && final(self).stones@ == old(self).stones@.update(i as int, None),
            i >= old(self).stones@.len() ==> r is None && final(self).stones@ == old(self).stones@,
    {
        if i < self.stones.len() {
            let r = self.stones[i];
            self.stones.set(i, None);
            r
        } else {
            None
        }
    }

    /// A human plays the slot that they picked.
    fn human_play(&mut self, choice: usize) -> (r: Option<Stone>)
        ensures
            final(self).typ == old(self).typ,
            choice < old(self).stones@.len() ==> r == old(self).stones@[choice as int]
                && final(self).stones@ == old(self).stones@.update(choice as int, None),
            choice >= old(self).stones@.len() ==> r is None && final(self).stones@ == old(self).stones@,
    {
        self.take_slot(choice)
    }

    /// An automated player plays its first slot.
    fn ai_play(&mut self) -> (r: Option<Stone>)
        ensures
            final(self).typ == old(self).typ,
            0 < old(self).stones@.len() ==> r == old(self).stones@[0]
                && final(self).stones@ == old(self).stones@.update(0, None),
            0 == old(self).stones@.len() ==> r is None && final(self).stones@ == old(self).stones@,
    {
        self.take_slot(0)
    }

    /// The text that shows the hand to a human: a heading line, then one
    /// line per tile held, numbered from 1 in hand order, as `\t<n>: [<high>|<low>]`.
    pub fn listing(&self) -> (r: Vec<u8>)
        ensures
            r@ == listing_text(self.stones@),
    {
        let mut out: Vec<u8> = Vec::new();
        out.push(89); // Y
        out.push(111); // o
        out.push(117); // u
        out.push(114); // r
        out.push(32); // space
        out.push(83); // S
        out.push(116); // t
        out.push(111); // o
        out.push(110); // n
        out.push(101); // e
        out.push(115); // s
        out.push(58); // :
        out.push(10); // newline
        assert(out@ =~= listing_heading());
        let n = self.stones.len();
        let mut k: usize = 0;
        let mut i: usize = 0;
        while i < n
            invariant
                n == self.stones@.len(),
                i <= n,
                k == count_occupied(self.stones@.subrange(0, i as int)),
                k <= i,
                out@ == listing_heading() + tile_lines(occupied(self.stones@.subrange(0, i as int))),
            decreases n - i,
        {
            let ghost pre = self.stones@.subrange(0, i as int);
            proof {
                assert(self.stones@.subrange(0, i as int + 1).drop_last() =~= pre);
            }
            if let Some(t) = self.stones[i] {
                k = k + 1;
                let ghost before = out@;
                out.push(9);
                push_decimal(&mut out, k);
                out.push(58);
                out.push(32);
                out.push(91);
                push_decimal(&mut out, t.0 as usize);
                out.push(124);
                push_decimal(&mut out, t.1 as usize);
                out.push(93);
                out.push(10);
                proof {
                    let occ = occupied(self.stones@.subrange(0, i as int + 1));
                    assert(occ.drop_last() == occupied(pre));
                    assert(occ.last() == Some(t));
                    assert(out@ =~= before + tile_line(k as nat, t));
                }
            }
            i = i + 1;
        }
        proof {
            assert(self.stones@.subrange(0, n as int) =~= self.stones@);
        }
        out
    }

    /// The 0-based slot that an input line names, where it names one: the
    /// line, trimmed, is a number `n` with `1 <= n <=` the number of tiles
    /// held, and the slot is `n - 1` of the occupied-first hand.
    pub fn human_choice(&self, line: &[u8]) -> (r: Option<usize>)
        ensures
            r == (match parse_index_spec(line@) {
                Some(n) => if 1 <= n <= count_occupied(self.stones@) {
                    Some((n - 1) as usize)
                } else {
                    None
                },
                None => None,
            }),
    {
        match parse_index(line) {
            Some(n) => {
                let c = self.count_stones();
                if 1 <= n && n <= c {
                    Some(n - 1)
                } else {
                    None
                }
            },
            None => None,
        }
    }
}

/// Number of occupied slots in `s`.
pub fn count_tiles(s: &Vec<Option<Stone>>) -> (r: usize)
    ensures
        r == count_occupied(s@),
{
    let n = s.len();
    let mut c: usize = 0;
    let mut i: usize = 0;
    while i < n
        invariant
            n == s@.len(),
            i <= n,
            c == count_occupied(s@.subrange(0, i as int)),
            c <= i,
        decreases n - i,
    {
        proof {
            assert(s@.subrange(0, i as int + 1).drop_last() =~= s@.subrange(0, i as int));
        }
        if s[i].is_some() {
            c = c + 1;
        }
        i = i + 1;
    }
    proof {
        assert(s@.subrange(0, n as int) =~= s@);
    }
    c
}

/// The decimal digits of `n`, most significant first.
pub open spec fn decimal(n: nat) -> Seq<u8>
    decreases n,
{
    if n < 10 {
        seq![(48 + n) as u8]
    } else {
        decimal(n / 10).push((48 + n % 10) as u8)
    }
}

/// Appends the decimal digits of `n`.
pub fn push_decimal(out: &mut Vec<u8>, n: usize)
    ensures
        final(out)@ == old(out)@ + decimal(n as nat),
    decreases n,
{
    if n >= 10 {
        push_decimal(out, n / 10);
    }
    out.push((48 + n % 10) as u8);
    assert(out@ =~= old(out)@ + decimal(n as nat));
}

/// The heading line of a hand's listing: `Your Stones:`.
pub open spec fn listing_heading() -> Seq<u8> {
    seq![89u8, 111, 117, 114, 32, 83, 116, 111, 110, 101, 115, 58, 10]
}

/// The listing line of tile `t` under number `n`: `\t<n>: [<high>|<low>]`.
pub open spec fn tile_line(n: nat, t: Stone) -> Seq<u8> {
    seq![9u8] + decimal(n) + seq![58u8, 32, 91] + decimal(t.0 as nat) + seq![124u8] + decimal(t.1 as nat)
        + seq![93u8, 10]
}

/// One listing line per occupied slot of `occ`, numbered from 1.
pub open spec fn tile_lines(occ: Seq<Option<Stone>>) -> Seq<u8>
    decreases occ.len(),
{
    if occ.len() == 0 {
        Seq::empty()
    } else {
        match occ.last() {
            Some(t) => tile_lines(occ.drop_last()) + tile_line(occ.len(), t),
            None => tile_lines(occ.drop_last()),
        }
    }
}

/// The listing of a hand: the heading, then its tiles in hand order.
pub open spec fn listing_text(s: Seq<Option<Stone>>) -> Seq<u8> {
    listing_heading() + tile_lines(occupied(s))
}

pub open spec fn is_space(b: u8) -> bool {
    b == 32 || (9 <= b <= 13)
}

pub open spec fn is_digit(b: u8) -> bool {
    48 <= b <= 57
}

/// `s` without its leading white space.
pub open spec fn trim_start(s: Seq<u8>) -> Seq<u8>
    decreases s.len(),
{
    if s.len() > 0 && is_space(s[0]) {
        trim_start(s.drop_first())
    } else {
        s
    }
}

/// `s` without its trailing white space.
pub open spec fn trim_end(s: Seq<u8>) -> Seq<u8>
    decreases s.len(),
{
    if s.len() > 0 && is_space(s.last()) {
        trim_end(s.drop_last())
    } else {
        s
    }
}

/// The number that the decimal digits `s` write.
pub open spec fn digits_value(s: Seq<u8>) -> int
    decreases s.len(),
{
    if s.len() == 0 {
        0
    } else {
        digits_value(s.drop_last()) * 10 + (s.last() - 48)
    }
}

/// The line between its white space, without one leading `+`.
pub open spec fn unsigned_digits(s: Seq<u8>) -> Seq<u8> {
    let t = trim_end(trim_start(s));
    if t.len() > 0 && t[0] == 43 {
        t.drop_first()
    } else {
        t
    }
}

/// The unsigned number that a line holds between white space, written with
/// an optional leading `+`, if it holds one that fits in `usize`.
pub open spec fn parse_index_spec(s: Seq<u8>) -> Option<usize> {
    let t = unsigned_digits(s);
    if t.len() > 0 && (forall|i: int| 0 <= i < t.len() ==> is_digit(#[trigger] t[i]))
        && digits_value(t) <= usize::MAX {
        Some(digits_value(t) as usize)
    } else {
        None
    }
}

/// A prefix of digits writes no more than the whole.
pub proof fn lemma_digits_prefix(t: Seq<u8>, k: int)
    requires
        0 <= k <= t.len(),
        forall|i: int| 0 <= i < t.len() ==> is_digit(#[trigger] t[i]),
    ensures
        0 <= digits_value(t.subrange(0, k)) <= digits_value(t),
    decreases t.len(),
{
    if k < t.len() {
        assert(t.drop_last().subrange(0, k) =~= t.subrange(0, k));
        lemma_digits_prefix(t.drop_last(), k);
    } else {
        assert(t.subrange(0, k) =~= t);
        if t.len() > 0 {
            lemma_digits_prefix(t.drop_last(), k - 1);
            assert(t.drop_last().subrange(0, k - 1) =~= t.drop_last());
        }
    }
}

/// Reads a line as an unsigned decimal number between white space, with an
/// optional leading `+`; `None` where it holds anything else or a number past
/// `usize::MAX`. White space here is ASCII white space (space, tab, line feed,
/// vertical tab, form feed, carriage return); other Unicode white space is
/// not trimmed.
pub fn parse_index(line: &[u8]) -> (r: Option<usize>)
    ensures
        r == parse_index_spec(line@),
{
    let len = line.len();
    let mut a: usize = 0;
    assert(line@.subrange(0, len as int) =~= line@);
    while a < len && (line[a] == 32 || (9 <= line[a] && line[a] <= 13))
        invariant
            len == line@.len(),
            a <= len,
            trim_start(line@) == trim_start(line@.subrange(a as int, len as int)),
        decreases len - a,
    {
        assert(line@.subrange(a as int, len as int).drop_first() =~= line@.subrange(a + 1, len as int));
        a = a + 1;
    }
    let mut b: usize = len;
    while b > a && (line[b - 1] == 32 || (9 <= line[b - 1] && line[b - 1] <= 13))
        invariant
            len == line@.len(),
            a <= b <= len,
            trim_start(line@) == line@.subrange(a as int, len as int),
            trim_end(trim_start(line@)) == trim_end(line@.subrange(a as int, b as int)),
        decreases b - a,
    {
        assert(line@.subrange(a as int, b as int).drop_last() =~= line@.subrange(a as int, b - 1));
        b = b - 1;
    }
    assert(trim_end(trim_start(line@)) == line@.subrange(a as int, b as int));
    if a < b && line[a] == 43 {
        assert(line@.subrange(a as int, b as int).drop_first() =~= line@.subrange(a + 1, b as int));
        a = a + 1;
    }
    let ghost t = line@.subrange(a as int, b as int);
    assert(unsigned_digits(line@) == t);
    if a == b {
        return None;
    }
    let mut v: usize = 0;
    let mut k: usize = a;
    while k < b
        invariant
            len == line@.len(),
            a <= k <= b <= len,
            t == line@.subrange(a as int, b as int),
            unsigned_digits(line@) == t,
            forall|i: int| 0 <= i < k - a ==> is_digit(#[trigger] t[i]),
            v == digits_value(t.subrange(0, k - a)),
        decreases b - k,
    {
        let d = line[k];
        assert(t.subrange(0, k - a + 1).drop_last() =~= t.subrange(0, k - a));
        if d < 48 || d > 57 {
            assert(!is_digit(t[k - a]));
            return None;
        }
        assert(digits_value(t.subrange(0, k - a + 1)) == v * 10 + (d - 48));
        match v.checked_mul(10) {
            Some(m) => match m.checked_add((d - 48) as usize) {
                Some(w) => {
                    v = w;
                },
                None => {
                    proof { overflow_means_none(t, k - a + 1); }
                    return None;
                },
            },
            None => {
                proof {
                    overflow_means_none(t, k - a + 1);
                }
                return None;
            },
        }
        k = k + 1;
    }
    assert(t.subrange(0, b - a) =~= t);
    Some(v)
}

/// Where a prefix of `t` already writes a number past `usize::MAX`, `t`
/// reads as no index.
proof fn overflow_means_none(t: Seq<u8>, k: int)
    requires
        0 < k <= t.len(),
        digits_value(t.subrange(0, k)) > usize::MAX,
    ensures
        (t.len() > 0 && (forall|i: int| 0 <= i < t.len() ==> is_digit(#[trigger] t[i]))
            && digits_value(t) <= usize::MAX) == false,
{
    if forall|i: int| 0 <= i < t.len() ==> is_digit(#[trigger] t[i]) {
        lemma_digits_prefix(t, k);
    }
}

} // verus!
