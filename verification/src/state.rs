//! Five-level limit order book. Prices and volumes are fixed-point integers
//! (see `FIXED_SCALE`): a price of 1.08345 is stored as 108345.

use crate::clock::{duration_nanos, since_unix_epoch, system_now};
use vstd::prelude::*;

verus! {

broadcast use vstd::array::group_array_axioms;

/// One depth level: (price, volume). A slot whose price is 0 is empty.
pub type Level = (i64, i64);

/// Whether price `a` ranks strictly ahead of price `b` on a side: higher
/// prices first for bids (`desc`), lower prices first for asks.
pub open spec fn ranks_before(a: i64, b: i64, desc: bool) -> bool {
    if desc { a > b } else { a < b }
}

/// Inserts `x` into a sequence ordered by price priority, after every level
/// that does not rank strictly behind it (a stable insertion).
pub open spec fn insert_sorted(s: Seq<Level>, x: Level, desc: bool) -> Seq<Level>
    decreases s.len(),
{
    if s.len() == 0 {
        seq![x]
    } else if ranks_before(x.0, s[0].0, desc) {
        seq![x] + s
    } else {
        seq![s[0]] + insert_sorted(s.drop_first(), x, desc)
    }
}

/// Stable sort of levels by price priority.
pub open spec fn sort_levels(s: Seq<Level>, desc: bool) -> Seq<Level>
    decreases s.len(),
{
    if s.len() == 0 {
        s
    } else {
        insert_sorted(sort_levels(s.drop_last(), desc), s.last(), desc)
    }
}

/// The levels of `s` whose price is positive, in their order.
pub open spec fn positive_levels(s: Seq<Level>) -> Seq<Level>
    decreases s.len(),
{
    if s.len() == 0 {
        s
    } else if s.last().0 > 0 {
        positive_levels(s.drop_last()).push(s.last())
    } else {
        positive_levels(s.drop_last())
    }
}

/// The five slots filled from the front of `s`, empty slots after it.
pub open spec fn fill_slots(s: Seq<Level>) -> Seq<Level> {
    Seq::new(5, |i: int| if i < s.len() { s[i] } else { (0i64, 0i64) })
}

/// Index of the first slot holding `price`.
pub open spec fn slot_of(s: Seq<Level>, price: i64) -> Option<int>
    decreases s.len(),
{
    if s.len() == 0 {
        None
    } else {
        match slot_of(s.drop_last(), price) {
            Some(i) => Some(i),
            None => if s.last().0 == price { Some(s.len() - 1) } else { None },
        }
    }
}

/// Every slot holding `price` emptied.
pub open spec fn remove_levels(s: Seq<Level>, price: i64) -> Seq<Level> {
    Seq::new(s.len(), |i: int| if s[i].0 == price { (0i64, 0i64) } else { s[i] })
}

/// What `BookSide::update` makes of the levels `s`.
pub open spec fn update_levels(s: Seq<Level>, price: i64, volume: i64, desc: bool) -> Seq<Level> {
    if volume <= 0 {
        remove_levels(s, price)
    } else {
        match slot_of(s, price) {
            Some(i) => s.update(i, (price, volume)),
            None => fill_slots(sort_levels(positive_levels(s).push((price, volume)), desc)),
        }
    }
}

/// One side of the book: five price levels.
#[derive(Debug, Clone, Copy)]
pub struct BookSide {
    pub prices: [i64; 5],
    pub volumes: [i64; 5],
}

impl View for BookSide {
    type V = Seq<Level>;

    open spec fn view(&self) -> Seq<Level> {
        Seq::new(5, |i: int| (self.prices@[i], self.volumes@[i]))
    }
}

proof fn lemma_insert_at(s: Seq<Level>, x: Level, desc: bool, j: int)
    requires
        0 <= j <= s.len(),
        forall|k: int| 0 <= k < j ==> !ranks_before(x.0, #[trigger] s[k].0, desc),
        j == s.len() || ranks_before(x.0, s[j].0, desc),
    ensures
        insert_sorted(s, x, desc) == s.insert(j, x),
    decreases s.len(),
{
    if s.len() == 0 {
        assert(s.insert(j, x) =~= seq![x]);
    } else if j == 0 {
        assert(s.insert(0, x) =~= seq![x] + s);
    } else {
        let t = s.drop_first();
        assert forall|k: int| 0 <= k < j - 1 implies !ranks_before(x.0, #[trigger] t[k].0, desc) by {
            assert(t[k] == s[k + 1]);
        }
        lemma_insert_at(t, x, desc, j - 1);
        assert(s.insert(j, x) =~= seq![s[0]] + t.insert(j - 1, x));
    }
}

/// Inserts a level into `v`, kept in price-priority order.
fn insert_level(v: &mut Vec<Level>, x: Level, desc: bool)
    ensures
        final(v)@ == insert_sorted(old(v)@, x, desc),
{
    let mut j: usize = 0;
    while j < v.len()
        invariant
            j <= v.len(),
            forall|k: int| 0 <= k < j ==> !ranks_before(x.0, #[trigger] v@[k].0, desc),
        ensures
            j <= v.len(),
            forall|k: int| 0 <= k < j ==> !ranks_before(x.0, #[trigger] v@[k].0, desc),
            j == v.len() || ranks_before(x.0, v@[j as int].0, desc),
        decreases v.len() - j,
    {
        let before = if desc { x.0 > v[j].0 } else { x.0 < v[j].0 };
        if before {
            break;
        }
        j += 1;
    }
    proof {
        lemma_insert_at(v@, x, desc, j as int);
    }
    v.insert(j, x);
}

impl BookSide {
    /// An empty side.
    pub fn new() -> (side: Self)
        ensures
            side@ == Seq::new(5, |i: int| (0i64, 0i64)),
    {
        let side = Self { prices: [0i64; 5], volumes: [0i64; 5] };
        assert(side@ =~= Seq::new(5, |i: int| (0i64, 0i64)));
        side
    }

    /// Sets the volume at `price`, inserting the price as a new level when
    /// it is not on the side; a volume of zero or less removes the price.
    /// `side_type` 0 ranks bids (highest price first), anything else asks.
    pub fn update(&mut self, price: i64, volume: i64, side_type: u8)
        ensures
            final(self)@ == update_levels(old(self)@, price, volume, side_type == 0),
            volume > 0 ==> match slot_of(old(self)@, price) {
                Some(i) => final(self).prices@ == old(self).prices@ && final(self).volumes@ == old(
                    self,
                ).volumes@.update(i, volume),
                None => true,
            },
    {
        proof {
            if volume > 0 {
                if let Some(i) = slot_of(old(self)@, price) {
                    lemma_update_existing_changes_one_slot(old(self)@, price, volume, side_type == 0, i);
                    lemma_slot_of(old(self)@, price);
                }
            }
        }
        if volume <= 0 {
            self.remove(price);
            return;
        }
        let ghost start = self@;
        let mut i: usize = 0;
        while i < 5
            invariant
                i <= 5,
                volume > 0,
                start == old(self)@,
                self@ == start,
                self.prices@ == old(self).prices@,
                self.volumes@ == old(self).volumes@,
                forall|k: int| 0 <= k < i ==> self.prices@[k] != price,
            decreases 5 - i,
        {
            if self.prices[i] == price {
                proof {
                    assert(slot_of(start, price) == Some(i as int)) by {
                        lemma_slot_of_first(start, price, i as int);
                    }
                }
                self.volumes[i] = volume;
                assert(self@ =~= start.update(i as int, (price, volume)));
                assert(self.volumes@ =~= old(self).volumes@.update(i as int, volume));
                return;
            }
            i += 1;
        }
        proof {
            lemma_slot_of_none(start, price);
        }
        let desc = side_type == 0;
        let mut sorted: Vec<Level> = Vec::new();
        let mut k: usize = 0;
        while k < 5
            invariant
                k <= 5,
                self@ == start,
                sorted@ == sort_levels(positive_levels(start.take(k as int)), desc),
            decreases 5 - k,
        {
            proof {
                assert(start.take(k + 1).drop_last() =~= start.take(k as int));
            }
            if self.prices[k] > 0 {
                insert_level(&mut sorted, (self.prices[k], self.volumes[k]), desc);
                proof {
                    let p = positive_levels(start.take(k as int));
                    assert(p.push(start[k as int]).drop_last() =~= p);
                }
            }
            k += 1;
        }
        assert(start.take(5) =~= start);
        insert_level(&mut sorted, (price, volume), desc);
        proof {
            let p = positive_levels(start);
            assert(p.push((price, volume)).drop_last() =~= p);
        }
        let ghost target = fill_slots(sorted@);
        let mut m: usize = 0;
        while m < 5
            invariant
                m <= 5,
                target == fill_slots(sorted@),
                forall|q: int| 0 <= q < m ==> (#[trigger] self.prices@[q], self.volumes@[q]) == target[q],
            decreases 5 - m,
        {
            if m < sorted.len() {
                self.prices[m] = sorted[m].0;
                self.volumes[m] = sorted[m].1;
            } else {
                self.prices[m] = 0;
                self.volumes[m] = 0;
            }
            m += 1;
        }
        assert(self@ =~= target);
    }

    /// Empties every slot holding `price`.
    pub fn remove(&mut self, price: i64)
        ensures
            final(self)@ == remove_levels(old(self)@, price),
    {
        let ghost start = self@;
        let mut i: usize = 0;
        while i < 5
            invariant
                i <= 5,
                start.len() == 5,
                forall|q: int| 0 <= q < i ==> (#[trigger] self.prices@[q], self.volumes@[q]) == remove_levels(start, price)[q],
                forall|q: int| i <= q < 5 ==> (#[trigger] self.prices@[q], self.volumes@[q]) == start[q],
            decreases 5 - i,
        {
            if self.prices[i] == price {
                self.prices[i] = 0;
                self.volumes[i] = 0;
            }
            i += 1;
        }
        assert(self@ =~= remove_levels(start, price));
    }
}

proof fn lemma_slot_of_first(s: Seq<Level>, price: i64, i: int)
    requires
        0 <= i < s.len(),
        s[i].0 == price,
        forall|k: int| 0 <= k < i ==> s[k].0 != price,
    ensures
        slot_of(s, price) == Some(i),
    decreases s.len(),
{
    if i < s.len() - 1 {
        lemma_slot_of_first(s.drop_last(), price, i);
    } else {
        lemma_slot_of_none(s.drop_last(), price);
    }
}

proof fn lemma_slot_of_none(s: Seq<Level>, price: i64)
    requires
        forall|k: int| 0 <= k < s.len() ==> s[k].0 != price,
    ensures
        slot_of(s, price) is None,
    decreases s.len(),
{
    if s.len() > 0 {
        lemma_slot_of_none(s.drop_last(), price);
    }
}

/// The positive prices of the side are strictly ranked by slot: every
/// non-empty level ranks ahead of every non-empty level in a later slot.
pub open spec fn levels_ordered(s: Seq<Level>, desc: bool) -> bool {
    forall|i: int, j: int|
        0 <= i < j < s.len() && #[trigger] s[i].0 > 0 && #[trigger] s[j].0 > 0 ==> ranks_before(
            s[i].0,
            s[j].0,
            desc,
        )
}

/// The volume at the first slot holding `price`.
pub open spec fn volume_at(s: Seq<Level>, price: i64) -> Option<i64> {
    match slot_of(s, price) {
        Some(i) => Some(s[i].1),
        None => None,
    }
}

/// No level ranks ahead of an earlier one.
pub open spec fn sorted_by(s: Seq<Level>, desc: bool) -> bool {
    forall|i: int, j: int| 0 <= i < j < s.len() ==> !ranks_before(#[trigger] s[j].0, #[trigger] s[i].0, desc)
}

/// No two positive levels share a price.
pub open spec fn prices_distinct(s: Seq<Level>) -> bool {
    forall|i: int, j: int|
        0 <= i < s.len() && 0 <= j < s.len() && i != j && #[trigger] s[i].0 > 0 && #[trigger] s[j].0 > 0
            ==> s[i].0 != s[j].0
}

/// Where `insert_sorted` puts its level.
pub open spec fn insert_pos(s: Seq<Level>, x: Level, desc: bool) -> int
    decreases s.len(),
{
    if s.len() == 0 {
        0
    } else if ranks_before(x.0, s[0].0, desc) {
        0
    } else {
        1 + insert_pos(s.drop_first(), x, desc)
    }
}

proof fn lemma_insert_pos(s: Seq<Level>, x: Level, desc: bool)
    ensures
        0 <= insert_pos(s, x, desc) <= s.len(),
        insert_sorted(s, x, desc) == s.insert(insert_pos(s, x, desc), x),
        forall|k: int| 0 <= k < insert_pos(s, x, desc) ==> !ranks_before(x.0, #[trigger] s[k].0, desc),
        insert_pos(s, x, desc) < s.len() ==> ranks_before(x.0, s[insert_pos(s, x, desc)].0, desc),
    decreases s.len(),
{
    if s.len() == 0 {
        assert(s.insert(0, x) =~= seq![x]);
    } else if ranks_before(x.0, s[0].0, desc) {
        assert(s.insert(0, x) =~= seq![x] + s);
    } else {
        let t = s.drop_first();
        lemma_insert_pos(t, x, desc);
        let p = insert_pos(t, x, desc);
        assert(s.insert(p + 1, x) =~= seq![s[0]] + t.insert(p, x));
        assert forall|k: int| 0 <= k < p + 1 implies !ranks_before(x.0, #[trigger] s[k].0, desc) by {
            if k > 0 {
                assert(s[k] == t[k - 1]);
            }
        }
        if p < t.len() {
            assert(s[p + 1] == t[p]);
        }
    }
}

/// The sort keeps the length and the levels: each level of the result is
/// one of `s`, and each level of `s` is in the result.
proof fn lemma_sort_levels_contents(s: Seq<Level>, desc: bool)
    ensures
        sort_levels(s, desc).len() == s.len(),
        forall|k: int| 0 <= k < s.len() ==> s.contains(#[trigger] sort_levels(s, desc)[k]),
        forall|m: int| 0 <= m < s.len() ==> sort_levels(s, desc).contains(#[trigger] s[m]),
    decreases s.len(),
{
    if s.len() > 0 {
        let s0 = s.drop_last();
        let x = s.last();
        lemma_sort_levels_contents(s0, desc);
        let t = sort_levels(s0, desc);
        lemma_insert_pos(t, x, desc);
        let p = insert_pos(t, x, desc);
        let r = t.insert(p, x);
        assert forall|k: int| 0 <= k < s.len() implies s.contains(#[trigger] r[k]) by {
            if k < p {
                assert(r[k] == t[k]);
                assert(s0.contains(t[k]));
                let m = choose|m: int| 0 <= m < s0.len() && s0[m] == t[k];
                assert(s[m] == t[k]);
            } else if k == p {
                assert(s[s.len() - 1] == x);
            } else {
                assert(r[k] == t[k - 1]);
                assert(s0.contains(t[k - 1]));
                let m = choose|m: int| 0 <= m < s0.len() && s0[m] == t[k - 1];
                assert(s[m] == t[k - 1]);
            }
        }
        assert forall|m: int| 0 <= m < s.len() implies r.contains(#[trigger] s[m]) by {
            if m < s.len() - 1 {
                assert(s[m] == s0[m]);
                assert(t.contains(s0[m]));
                let k = choose|k: int| 0 <= k < t.len() && t[k] == s0[m];
                if k < p {
                    assert(r[k] == t[k]);
                } else {
                    assert(r[k + 1] == t[k]);
                }
            } else {
                assert(r[p] == x);
            }
        }
    }
}

/// The sort orders the levels by price priority.
proof fn lemma_sort_levels_sorted(s: Seq<Level>, desc: bool)
    ensures
        sorted_by(sort_levels(s, desc), desc),
    decreases s.len(),
{
    if s.len() > 0 {
        let s0 = s.drop_last();
        let x = s.last();
        lemma_sort_levels_sorted(s0, desc);
        let t = sort_levels(s0, desc);
        lemma_insert_pos(t, x, desc);
        let p = insert_pos(t, x, desc);
        let r = t.insert(p, x);
        assert forall|i: int, j: int| 0 <= i < j < r.len() implies !ranks_before(#[trigger] r[j].0, #[trigger] r[i].0, desc) by {
            if j < p {
                assert(r[i] == t[i] && r[j] == t[j]);
            } else if j == p {
                assert(r[i] == t[i]);
            } else if i < p {
                assert(r[i] == t[i] && r[j] == t[j - 1]);
            } else if i == p {
                assert(r[j] == t[j - 1]);
                if j - 1 > p {
                    assert(!ranks_before(t[j - 1].0, t[p].0, desc));
                }
            } else {
                assert(r[i] == t[i - 1] && r[j] == t[j - 1]);
            }
        }
    }
}

/// The sort keeps distinct positive prices distinct.
proof fn lemma_sort_levels_distinct(s: Seq<Level>, desc: bool)
    requires
        prices_distinct(s),
    ensures
        prices_distinct(sort_levels(s, desc)),
    decreases s.len(),
{
    if s.len() > 0 {
        let s0 = s.drop_last();
        let x = s.last();
        assert(prices_distinct(s0)) by {
            assert forall|i: int, j: int|
                0 <= i < s0.len() && 0 <= j < s0.len() && i != j && #[trigger] s0[i].0 > 0 && #[trigger] s0[j].0
                    > 0 implies s0[i].0 != s0[j].0 by {
                assert(s0[i] == s[i] && s0[j] == s[j]);
            }
        }
        lemma_sort_levels_distinct(s0, desc);
        lemma_sort_levels_contents(s0, desc);
        let t = sort_levels(s0, desc);
        lemma_insert_pos(t, x, desc);
        let p = insert_pos(t, x, desc);
        let r = t.insert(p, x);
        assert forall|k: int| 0 <= k < t.len() && t[k].0 > 0 && x.0 > 0 implies #[trigger] t[k].0 != x.0 by {
            assert(s0.contains(t[k]));
            let m = choose|m: int| 0 <= m < s0.len() && s0[m] == t[k];
            assert(s[m] == t[k]);
            assert(s[s.len() - 1] == x);
        }
        assert forall|i: int, j: int|
            0 <= i < r.len() && 0 <= j < r.len() && i != j && #[trigger] r[i].0 > 0 && #[trigger] r[j].0 > 0
                implies r[i].0 != r[j].0 by {
            let ti = if i < p { i } else { i - 1 };
            let tj = if j < p { j } else { j - 1 };
            if i != p && j != p {
                assert(r[i] == t[ti] && r[j] == t[tj]);
            } else if i == p {
                assert(r[j] == t[tj]);
            } else {
                assert(r[i] == t[ti]);
            }
        }
    }
}

/// What `positive_levels` keeps: levels of `s` with a positive price; when
/// `s` is ordered their prices are distinct.
proof fn lemma_positive_levels(s: Seq<Level>, desc: bool)
    ensures
        positive_levels(s).len() <= s.len(),
        forall|k: int| 0 <= k < positive_levels(s).len() ==> (#[trigger] positive_levels(s)[k]).0 > 0,
        forall|k: int| 0 <= k < positive_levels(s).len() ==> s.contains(#[trigger] positive_levels(s)[k]),
        levels_ordered(s, desc) ==> prices_distinct(positive_levels(s)),
    decreases s.len(),
{
    if s.len() > 0 {
        let s0 = s.drop_last();
        lemma_positive_levels(s0, desc);
        let q = positive_levels(s0);
        assert forall|k: int| 0 <= k < q.len() implies s.contains(#[trigger] q[k]) by {
            let m = choose|m: int| 0 <= m < s0.len() && s0[m] == q[k];
            assert(s[m] == q[k]);
        }
        if levels_ordered(s, desc) {
            assert(levels_ordered(s0, desc)) by {
                assert forall|i: int, j: int|
                    0 <= i < j < s0.len() && #[trigger] s0[i].0 > 0 && #[trigger] s0[j].0 > 0 implies ranks_before(
                    s0[i].0,
                    s0[j].0,
                    desc,
                ) by {
                    assert(s0[i] == s[i] && s0[j] == s[j]);
                }
            }
        }
        if s.last().0 > 0 {
            let r = q.push(s.last());
            assert(positive_levels(s) == r);
            if levels_ordered(s, desc) {
                assert forall|k: int| 0 <= k < q.len() implies #[trigger] q[k].0 != s.last().0 by {
                    let m = choose|m: int| 0 <= m < s0.len() && s0[m] == q[k];
                    assert(s[m] == q[k]);
                    assert(s[m].0 > 0 && s[s.len() - 1].0 > 0);
                    assert(ranks_before(s[m].0, s[s.len() - 1].0, desc));
                }
                assert forall|i: int, j: int|
                    0 <= i < r.len() && 0 <= j < r.len() && i != j && #[trigger] r[i].0 > 0 && #[trigger] r[j].0
                        > 0 implies r[i].0 != r[j].0 by {
                    if i < q.len() && j < q.len() {
                        assert(r[i] == q[i] && r[j] == q[j]);
                    } else if i < q.len() {
                        assert(r[i] == q[i]);
                    } else {
                        assert(r[j] == q[j]);
                    }
                }
            }
        }
    }
}

/// Every positive level of `s` is kept by `positive_levels`.
proof fn lemma_positive_levels_complete(s: Seq<Level>, m: int)
    requires
        0 <= m < s.len(),
        s[m].0 > 0,
    ensures
        positive_levels(s).contains(s[m]),
    decreases s.len(),
{
    let s0 = s.drop_last();
    if m < s.len() - 1 {
        assert(s0[m] == s[m]);
        lemma_positive_levels_complete(s0, m);
        let i = choose|i: int| 0 <= i < positive_levels(s0).len() && positive_levels(s0)[i] == s[m];
        if s.last().0 > 0 {
            assert(positive_levels(s)[i] == s[m]);
        }
    } else {
        let q = positive_levels(s0);
        assert(positive_levels(s)[q.len() as int] == s[m]);
    }
}

proof fn lemma_slot_of(s: Seq<Level>, price: i64)
    ensures
        match slot_of(s, price) {
            Some(i) => 0 <= i < s.len() && s[i].0 == price && forall|k: int|
                0 <= k < i ==> #[trigger] s[k].0 != price,
            None => forall|k: int| 0 <= k < s.len() ==> #[trigger] s[k].0 != price,
        },
    decreases s.len(),
{
    if s.len() > 0 {
        let s0 = s.drop_last();
        lemma_slot_of(s0, price);
        match slot_of(s0, price) {
            Some(i) => {
                assert(s[i] == s0[i]);
                assert forall|k: int| 0 <= k < i implies #[trigger] s[k].0 != price by {
                    assert(s[k] == s0[k]);
                }
            },
            None => {
                assert forall|k: int| 0 <= k < s0.len() implies #[trigger] s[k].0 != price by {
                    assert(s[k] == s0[k]);
                }
            },
        }
    }
}

/// An empty side is ordered.
pub proof fn lemma_empty_side_ordered(desc: bool)
    ensures
        levels_ordered(Seq::new(5, |i: int| (0i64, 0i64)), desc),
{
}

/// Every update of a side keeps its non-empty levels strictly ranked by
/// price priority, from best to worst.
pub proof fn lemma_update_keeps_order(s: Seq<Level>, price: i64, volume: i64, desc: bool)
    requires
        s.len() == 5,
        levels_ordered(s, desc),
    ensures
        levels_ordered(update_levels(s, price, volume, desc), desc),
        update_levels(s, price, volume, desc).len() == 5,
{
    lemma_slot_of(s, price);
    let r = update_levels(s, price, volume, desc);
    if volume <= 0 {
        lemma_remove_keeps_order(s, price, desc);
    } else {
        match slot_of(s, price) {
            Some(i) => {
                assert forall|a: int, b: int|
                    0 <= a < b < r.len() && #[trigger] r[a].0 > 0 && #[trigger] r[b].0 > 0 implies ranks_before(
                    r[a].0,
                    r[b].0,
                    desc,
                ) by {
                    assert(r[a].0 == s[a].0 && r[b].0 == s[b].0);
                }
            },
            None => {
                let x = (price, volume);
                lemma_positive_levels(s, desc);
                let q = positive_levels(s);
                let e = q.push(x);
                assert(prices_distinct(e)) by {
                    assert forall|i: int, j: int|
                        0 <= i < e.len() && 0 <= j < e.len() && i != j && #[trigger] e[i].0 > 0 && #[trigger] e[j].0
                            > 0 implies e[i].0 != e[j].0 by {
                        if i < q.len() && j < q.len() {
                            assert(e[i] == q[i] && e[j] == q[j]);
                        } else if i < q.len() {
                            assert(e[i] == q[i]);
                            let m = choose|m: int| 0 <= m < s.len() && s[m] == q[i];
                        } else {
                            assert(e[j] == q[j]);
                            let m = choose|m: int| 0 <= m < s.len() && s[m] == q[j];
                        }
                    }
                }
                lemma_sort_levels_contents(e, desc);
                lemma_sort_levels_sorted(e, desc);
                lemma_sort_levels_distinct(e, desc);
                let t = sort_levels(e, desc);
                assert(r == fill_slots(t));
                assert forall|a: int, b: int|
                    0 <= a < b < r.len() && #[trigger] r[a].0 > 0 && #[trigger] r[b].0 > 0 implies ranks_before(
                    r[a].0,
                    r[b].0,
                    desc,
                ) by {
                    assert(b < t.len());
                    assert(r[a] == t[a] && r[b] == t[b]);
                    assert(!ranks_before(t[b].0, t[a].0, desc));
                    assert(t[a].0 != t[b].0);
                }
            },
        }
    }
}

/// Removing a price keeps the non-empty levels strictly ranked.
pub proof fn lemma_remove_keeps_order(s: Seq<Level>, price: i64, desc: bool)
    requires
        levels_ordered(s, desc),
    ensures
        levels_ordered(remove_levels(s, price), desc),
        remove_levels(s, price).len() == s.len(),
{
    let r = remove_levels(s, price);
    assert forall|a: int, b: int|
        0 <= a < b < r.len() && #[trigger] r[a].0 > 0 && #[trigger] r[b].0 > 0 implies ranks_before(
        r[a].0,
        r[b].0,
        desc,
    ) by {
        assert(r[a] == s[a] && r[b] == s[b]);
    }
}

/// A read after a write: after setting a positive volume at a positive
/// price, the price holds that volume, unless it was a new price, all five
/// levels were taken and every one of them ranks ahead of it.
pub proof fn lemma_update_then_volume(s: Seq<Level>, price: i64, volume: i64, desc: bool)
    requires
        s.len() == 5,
        levels_ordered(s, desc),
        price > 0,
        volume > 0,
        slot_of(s, price) is Some || positive_levels(s).len() < 5 || exists|m: int|
            0 <= m < 5 && s[m].0 > 0 && ranks_before(price, #[trigger] s[m].0, desc),
    ensures
        volume_at(update_levels(s, price, volume, desc), price) == Some(volume),
{
    lemma_slot_of(s, price);
    let r = update_levels(s, price, volume, desc);
    match slot_of(s, price) {
        Some(i) => {
            assert forall|k: int| 0 <= k < i implies #[trigger] r[k].0 != price by {
                assert(r[k] == s[k]);
            }
            assert forall|k: int| 0 <= k < i implies #[trigger] r.take(i + 1)[k].0 != price by {
                assert(r.take(i + 1)[k] == r[k]);
            }
            lemma_slot_of_first(r, price, i);
        },
        None => {
            let x = (price, volume);
            lemma_positive_levels(s, desc);
            let q = positive_levels(s);
            let e = q.push(x);
            assert(prices_distinct(e)) by {
                assert forall|a: int, b: int|
                    0 <= a < e.len() && 0 <= b < e.len() && a != b && #[trigger] e[a].0 > 0 && #[trigger] e[b].0
                        > 0 implies e[a].0 != e[b].0 by {
                    if a < q.len() && b < q.len() {
                        assert(e[a] == q[a] && e[b] == q[b]);
                    } else if a < q.len() {
                        assert(e[a] == q[a]);
                        let w = choose|w: int| 0 <= w < s.len() && s[w] == q[a];
                    } else {
                        assert(e[b] == q[b]);
                        let w = choose|w: int| 0 <= w < s.len() && s[w] == q[b];
                    }
                }
            }
            lemma_sort_levels_contents(e, desc);
            lemma_sort_levels_distinct(e, desc);
            lemma_sort_levels_sorted(e, desc);
            let t = sort_levels(e, desc);
            assert(e[e.len() - 1] == x);
            assert(t.contains(x));
            let k = choose|k: int| 0 <= k < t.len() && t[k] == x;
            if k >= 5 {
                assert(q.len() >= 5);
                let m = choose|m: int| 0 <= m < 5 && s[m].0 > 0 && ranks_before(price, #[trigger] s[m].0, desc);
                lemma_positive_levels_complete(s, m);
                assert(q.contains(s[m]));
                let qi = choose|qi: int| 0 <= qi < q.len() && q[qi] == s[m];
                assert(e[qi] == s[m]);
                assert(t.contains(e[qi]));
                let j = choose|j: int| 0 <= j < t.len() && t[j] == e[qi];
                assert(j != k);
                if j < k {
                    assert(!ranks_before(t[k].0, t[j].0, desc));
                } else {
                    assert(false);
                }
            }
            assert(r[k] == x);
            assert forall|j: int| 0 <= j < k implies #[trigger] r[j].0 != price by {
                assert(r[j] == t[j]);
                if t[j].0 == price {
                    assert(t[j].0 > 0 && t[k].0 > 0);
                }
            }
            lemma_slot_of_first(r, price, k);
        },
    }
}

/// After a price is removed from a side it holds no volume there, unless
/// the price is 0, which also marks empty slots.
pub proof fn lemma_remove_then_absent(s: Seq<Level>, price: i64)
    requires
        price != 0,
    ensures
        volume_at(remove_levels(s, price), price) is None,
{
    let r = remove_levels(s, price);
    assert forall|k: int| 0 <= k < r.len() implies #[trigger] r[k].0 != price by {}
    lemma_slot_of_none(r, price);
}

proof fn lemma_positive_levels_concat(a: Seq<Level>, b: Seq<Level>)
    ensures
        positive_levels(a + b) == positive_levels(a) + positive_levels(b),
    decreases b.len(),
{
    if b.len() == 0 {
        assert(a + b =~= a);
        assert(positive_levels(a) + positive_levels(b) =~= positive_levels(a));
    } else {
        lemma_positive_levels_concat(a, b.drop_last());
        assert((a + b).drop_last() =~= a + b.drop_last());
        assert((a + b).last() == b.last());
        if b.last().0 > 0 {
            assert(positive_levels(a) + positive_levels(b.drop_last()).push(b.last()) =~= (positive_levels(a)
                + positive_levels(b.drop_last())).push(b.last()));
        }
    }
}

proof fn lemma_positive_levels_all(a: Seq<Level>)
    requires
        forall|k: int| 0 <= k < a.len() ==> #[trigger] a[k].0 > 0,
    ensures
        positive_levels(a) == a,
    decreases a.len(),
{
    if a.len() > 0 {
        lemma_positive_levels_all(a.drop_last());
        assert(a.drop_last().push(a.last()) =~= a);
    }
}

proof fn lemma_positive_levels_none(a: Seq<Level>)
    requires
        forall|k: int| 0 <= k < a.len() ==> #[trigger] a[k].0 <= 0,
    ensures
        positive_levels(a) == Seq::<Level>::empty(),
    decreases a.len(),
{
    if a.len() > 0 {
        lemma_positive_levels_none(a.drop_last());
    }
}

/// On an ordered side the non-empty levels come in price priority.
proof fn lemma_positive_levels_sorted(s: Seq<Level>, desc: bool)
    requires
        levels_ordered(s, desc),
    ensures
        sorted_by(positive_levels(s), desc),
    decreases s.len(),
{
    if s.len() > 0 {
        let s0 = s.drop_last();
        assert(levels_ordered(s0, desc)) by {
            assert forall|i: int, j: int|
                0 <= i < j < s0.len() && #[trigger] s0[i].0 > 0 && #[trigger] s0[j].0 > 0 implies ranks_before(
                s0[i].0,
                s0[j].0,
                desc,
            ) by {
                assert(s0[i] == s[i] && s0[j] == s[j]);
            }
        }
        lemma_positive_levels_sorted(s0, desc);
        lemma_positive_levels(s0, desc);
        let q = positive_levels(s0);
        if s.last().0 > 0 {
            let r = q.push(s.last());
            assert forall|i: int, j: int| 0 <= i < j < r.len() implies !ranks_before(
                #[trigger] r[j].0,
                #[trigger] r[i].0,
                desc,
            ) by {
                assert(r[i] == q[i]);
                if j < q.len() {
                    assert(r[j] == q[j]);
                } else {
                    let m = choose|m: int| 0 <= m < s0.len() && s0[m] == q[i];
                    assert(s[m] == q[i]);
                    assert(ranks_before(s[m].0, s[s.len() - 1].0, desc));
                }
            }
        }
    }
}

/// Sorting levels that are already in price priority leaves them as they
/// are.
proof fn lemma_sort_levels_identity(q: Seq<Level>, desc: bool)
    requires
        sorted_by(q, desc),
    ensures
        sort_levels(q, desc) == q,
    decreases q.len(),
{
    if q.len() > 0 {
        let q0 = q.drop_last();
        let x = q.last();
        assert(sorted_by(q0, desc)) by {
            assert forall|i: int, j: int| 0 <= i < j < q0.len() implies !ranks_before(
                #[trigger] q0[j].0,
                #[trigger] q0[i].0,
                desc,
            ) by {
                assert(q0[i] == q[i] && q0[j] == q[j]);
            }
        }
        lemma_sort_levels_identity(q0, desc);
        lemma_insert_pos(q0, x, desc);
        let p = insert_pos(q0, x, desc);
        if p < q0.len() {
            assert(q0[p] == q[p]);
            assert(!ranks_before(q[q.len() - 1].0, q[p].0, desc));
        }
        assert(q0.insert(q0.len() as int, x) =~= q);
    }
}

/// The sort keeps every level as many times as it occurs.
proof fn lemma_sort_levels_multiset(s: Seq<Level>, desc: bool)
    ensures
        sort_levels(s, desc).to_multiset() == s.to_multiset(),
    decreases s.len(),
{
    if s.len() > 0 {
        let s0 = s.drop_last();
        let x = s.last();
        lemma_sort_levels_multiset(s0, desc);
        let t = sort_levels(s0, desc);
        lemma_insert_pos(t, x, desc);
        vstd::seq_lib::to_multiset_insert(t, insert_pos(t, x, desc), x);
        vstd::seq_lib::to_multiset_build(s0, x);
        assert(s0.push(x) =~= s);
    }
}

/// After a new price comes onto a side with a free slot and is removed
/// again, the side's non-empty levels are its old ones in price priority.
proof fn lemma_remove_new_level_sorts(s: Seq<Level>, price: i64, volume: i64, desc: bool)
    requires
        s.len() == 5,
        price > 0,
        volume > 0,
        slot_of(s, price) is None,
        positive_levels(s).len() < 5,
    ensures
        positive_levels(remove_levels(update_levels(s, price, volume, desc), price)) == sort_levels(
            positive_levels(s),
            desc,
        ),
{
    let x = (price, volume);
    lemma_slot_of(s, price);
    lemma_positive_levels(s, desc);
    let q = positive_levels(s);
    lemma_sort_levels_contents(q, desc);
    let sq = sort_levels(q, desc);
    let e = q.push(x);
    assert(e.drop_last() =~= q);
    lemma_insert_pos(sq, x, desc);
    let k = insert_pos(sq, x, desc);
    let t = sq.insert(k, x);
    assert(sort_levels(e, desc) == t);
    let r = fill_slots(t);
    assert(update_levels(s, price, volume, desc) == r);
    let u = remove_levels(r, price);
    assert forall|i: int| 0 <= i < sq.len() implies #[trigger] sq[i].0 != price && sq[i].0 > 0 by {
        assert(q.contains(sq[i]));
        let j = choose|j: int| 0 <= j < q.len() && q[j] == sq[i];
        let m = choose|m: int| 0 <= m < s.len() && s[m] == q[j];
    }
    let head = sq.take(k);
    let tail = sq.skip(k);
    let gap = Seq::new((5 - t.len()) as nat, |i: int| (0i64, 0i64));
    assert(u =~= head + seq![(0i64, 0i64)] + tail + gap) by {
        assert forall|i: int| 0 <= i < 5 implies #[trigger] u[i] == (head + seq![(0i64, 0i64)] + tail + gap)[i] by {
            if i < k {
                assert(t[i] == sq[i]);
            } else if i == k {
                assert(t[i] == x);
            } else if i < t.len() {
                assert(t[i] == sq[i - 1]);
            }
        }
    }
    lemma_positive_levels_concat(head + seq![(0i64, 0i64)] + tail, gap);
    lemma_positive_levels_concat(head + seq![(0i64, 0i64)], tail);
    lemma_positive_levels_concat(head, seq![(0i64, 0i64)]);
    lemma_positive_levels_none(gap);
    lemma_positive_levels_none(seq![(0i64, 0i64)]);
    assert forall|i: int| 0 <= i < head.len() implies #[trigger] head[i].0 > 0 by {
        assert(head[i] == sq[i]);
    }
    assert forall|i: int| 0 <= i < tail.len() implies #[trigger] tail[i].0 > 0 by {
        assert(tail[i] == sq[k + i]);
    }
    lemma_positive_levels_all(head);
    lemma_positive_levels_all(tail);
    assert(head + tail =~= sq);
    assert(positive_levels(u) =~= head + tail);
}

/// Removing a price that an update has just brought onto a side as a new
/// level, while a slot was free, gives back the side's non-empty levels:
/// each level as many times as before, whatever order the side was in.
pub proof fn lemma_remove_undoes_new_level(s: Seq<Level>, price: i64, volume: i64, desc: bool)
    requires
        s.len() == 5,
        price > 0,
        volume > 0,
        slot_of(s, price) is None,
        positive_levels(s).len() < 5,
    ensures
        positive_levels(remove_levels(update_levels(s, price, volume, desc), price)).to_multiset()
            == positive_levels(s).to_multiset(),
{
    lemma_remove_new_level_sorts(s, price, volume, desc);
    lemma_sort_levels_multiset(positive_levels(s), desc);
}

/// On a side whose levels are strictly ranked, removing a price that an
/// update has just brought on as a new level, while a slot was free, gives
/// back the same non-empty levels in the same order.
pub proof fn lemma_remove_undoes_new_level_in_order(s: Seq<Level>, price: i64, volume: i64, desc: bool)
    requires
        s.len() == 5,
        levels_ordered(s, desc),
        price > 0,
        volume > 0,
        slot_of(s, price) is None,
        positive_levels(s).len() < 5,
    ensures
        positive_levels(remove_levels(update_levels(s, price, volume, desc), price)) == positive_levels(s),
{
    lemma_remove_new_level_sorts(s, price, volume, desc);
    lemma_positive_levels_sorted(s, desc);
    lemma_sort_levels_identity(positive_levels(s), desc);
}

/// Setting a positive volume at a price already on the side changes that
/// slot alone: it takes the new volume, every other slot keeps its level.
pub proof fn lemma_update_existing_changes_one_slot(s: Seq<Level>, price: i64, volume: i64, desc: bool, i: int)
    requires
        volume > 0,
        slot_of(s, price) == Some(i),
    ensures
        update_levels(s, price, volume, desc).len() == s.len(),
        update_levels(s, price, volume, desc)[i] == (price, volume),
        forall|k: int| 0 <= k < s.len() && k != i ==> #[trigger] update_levels(s, price, volume, desc)[k] == s[k],
{
    lemma_slot_of(s, price);
}

/// Sum of the volumes of the levels.
pub open spec fn total_volume(s: Seq<Level>) -> int
    decreases s.len(),
{
    if s.len() == 0 {
        0
    } else {
        total_volume(s.drop_last()) + s.last().1
    }
}

/// The sides after one FIX book entry: action '2' deletes `price` from the
/// side, any other action sets its volume; side '0' is the bid side, any
/// other the ask side.
pub open spec fn apply_entry(
    bids: Seq<Level>,
    asks: Seq<Level>,
    action: char,
    side: char,
    price: i64,
    volume: i64,
) -> (Seq<Level>, Seq<Level>) {
    if side == '0' {
        (if action == '2' { remove_levels(bids, price) } else { update_levels(bids, price, volume, true) }, asks)
    } else {
        (bids, if action == '2' { remove_levels(asks, price) } else { update_levels(asks, price, volume, false) })
    }
}

/// An exact quotient of two integers, `numerator / denominator`, with a
/// positive denominator.
#[derive(Debug, Clone, Copy, PartialEq, Eq)]
pub struct Fraction {
    pub numerator: i128,
    pub denominator: i128,
}

/// The book: bid and ask sides and the time of the last change, in
/// nanoseconds since the Unix epoch.
pub struct OrderBook {
    pub bids: BookSide,
    pub asks: BookSide,
    pub last_update: u128,
}

impl OrderBook {
    /// An empty book.
    pub fn new() -> (book: Self)
        ensures
            book.bids@ == Seq::new(5, |i: int| (0i64, 0i64)),
            book.asks@ == Seq::new(5, |i: int| (0i64, 0i64)),
            book.last_update == 0,
    {
        Self { bids: BookSide::new(), asks: BookSide::new(), last_update: 0 }
    }

    /// Applies one FIX book entry (MDUpdateAction `action`, MDEntryType
    /// `side`) and stamps the book with `now` (nanoseconds since the Unix
    /// epoch), or keeps the old stamp when there is no reading.
    pub fn apply_entry_at(&mut self, action: char, side: char, price: i64, volume: i64, now: Option<u128>)
        ensures
            (final(self).bids@, final(self).asks@) == apply_entry(
                old(self).bids@,
                old(self).asks@,
                action,
                side,
                price,
                volume,
            ),
            final(self).last_update == match now {
                Some(t) => t,
                None => old(self).last_update,
            },
    {
        let side_type: u8 = if side == '0' { 0 } else { 1 };
        if action == '2' {
            if side_type == 0 {
                self.bids.remove(price);
            } else {
                self.asks.remove(price);
            }
        } else {
            if side_type == 0 {
                self.bids.update(price, volume, 0);
            } else {
                self.asks.update(price, volume, 1);
            }
        }
        if let Some(t) = now {
            self.last_update = t;
        }
    }

    /// Applies one FIX book entry (MDUpdateAction `action`, MDEntryType
    /// `side`) and stamps the book with the current time (see
    /// `apply_entry_at`); a clock that reads before the Unix epoch leaves
    /// the old stamp.
    pub fn update_from_fix(&mut self, action: char, side: char, price: i64, volume: i64)
        ensures
            (final(self).bids@, final(self).asks@) == apply_entry(
                old(self).bids@,
                old(self).asks@,
                action,
                side,
                price,
                volume,
            ),
    {
        let now = system_now();
        let stamp = match since_unix_epoch(&now) {
            Ok(elapsed) => Some(duration_nanos(&elapsed)),
            Err(_) => None,
        };
        self.apply_entry_at(action, side, price, volume, stamp);
    }

    /// Mid price of the best levels, `(best bid + best ask) / 2`, when both
    /// best slots hold a positive price.
    pub fn get_mid_price(&self) -> (mid: Option<Fraction>)
        ensures
            mid == (if self.bids.prices@[0] > 0 && self.asks.prices@[0] > 0 {
                Some(Fraction {
                    numerator: (self.bids.prices@[0] + self.asks.prices@[0]) as i128,
                    denominator: 2,
                })
            } else {
                None
            }),
    {
        if self.bids.prices[0] > 0 && self.asks.prices[0] > 0 {
            Some(Fraction {
                numerator: self.bids.prices[0] as i128 + self.asks.prices[0] as i128,
                denominator: 2,
            })
        } else {
            None
        }
    }

    /// Volume-weighted micro price of the best levels,
    /// `(bid * ask_volume + ask * bid_volume) / (bid_volume + ask_volume)`,
    /// when the two best volumes add up to more than zero.
    pub fn get_micro_price(&self) -> (micro: Option<Fraction>)
        ensures
            ({
                let vb = self.bids.volumes@[0] as int;
                let va = self.asks.volumes@[0] as int;
                micro == (if vb + va > 0 {
                    Some(Fraction {
                        numerator: (self.bids.prices@[0] * va + self.asks.prices@[0] * vb) as i128,
                        denominator: (vb + va) as i128,
                    })
                } else {
                    None
                })
            }),
    {
        let vb = self.bids.volumes[0] as i128;
        let va = self.asks.volumes[0] as i128;
        if vb + va > 0 {
            let pb = self.bids.prices[0] as i128;
            let pa = self.asks.prices[0] as i128;
            assert(-0x7fff_ffff_ffff_ffff <= va && -0x7fff_ffff_ffff_ffff <= vb);
            proof {
                lemma_product_bound(pb, va);
                lemma_product_bound(pa, vb);
            }
            Some(Fraction { numerator: pb * va + pa * vb, denominator: vb + va })
        } else {
            None
        }
    }

    /// Total volume on each side: (bids, asks).
    pub fn get_total_liquidity(&self) -> (totals: (i128, i128))
        ensures
            totals.0 == total_volume(self.bids@),
            totals.1 == total_volume(self.asks@),
            totals.0 == self.bids.volumes@[0] + self.bids.volumes@[1] + self.bids.volumes@[2]
                + self.bids.volumes@[3] + self.bids.volumes@[4],
            totals.1 == self.asks.volumes@[0] + self.asks.volumes@[1] + self.asks.volumes@[2]
                + self.asks.volumes@[3] + self.asks.volumes@[4],
    {
        proof {
            lemma_side_total_is_sum_of_volumes(self.bids);
            lemma_side_total_is_sum_of_volumes(self.asks);
        }
        (side_volume(&self.bids), side_volume(&self.asks))
    }
}

proof fn lemma_product_bound(p: i128, v: i128)
    requires
        -0x8000_0000_0000_0000 <= p <= 0x7fff_ffff_ffff_ffff,
        -0x7fff_ffff_ffff_ffff <= v <= 0x7fff_ffff_ffff_ffff,
    ensures
        -0x8000_0000_0000_0000 * 0x7fff_ffff_ffff_ffff <= p * v <= 0x8000_0000_0000_0000 * 0x7fff_ffff_ffff_ffff,
{
    assert(-0x8000_0000_0000_0000 * 0x7fff_ffff_ffff_ffff <= p * v <= 0x8000_0000_0000_0000 * 0x7fff_ffff_ffff_ffff) by (nonlinear_arith)
        requires
            -0x8000_0000_0000_0000 <= p <= 0x7fff_ffff_ffff_ffff,
            -0x7fff_ffff_ffff_ffff <= v <= 0x7fff_ffff_ffff_ffff;
}

/// The total volume of levels is the sum over every level: one more level
/// adds its volume, none gives 0.
pub proof fn lemma_total_volume_push(s: Seq<Level>, l: Level)
    ensures
        total_volume(s.push(l)) == total_volume(s) + l.1,
        total_volume(Seq::<Level>::empty()) == 0,
{
    assert(s.push(l).drop_last() =~= s);
}

/// The liquidity of a side is the sum of its five volumes.
pub proof fn lemma_side_total_is_sum_of_volumes(side: BookSide)
    ensures
        total_volume(side@) == side.volumes@[0] + side.volumes@[1] + side.volumes@[2] + side.volumes@[3]
            + side.volumes@[4],
{
    let s = side@;
    assert(s.take(0) =~= Seq::<Level>::empty());
    assert(s.take(1) =~= s.take(0).push(s[0]));
    assert(s.take(2) =~= s.take(1).push(s[1]));
    assert(s.take(3) =~= s.take(2).push(s[2]));
    assert(s.take(4) =~= s.take(3).push(s[3]));
    assert(s =~= s.take(4).push(s[4]));
    lemma_total_volume_push(s.take(0), s[0]);
    lemma_total_volume_push(s.take(1), s[1]);
    lemma_total_volume_push(s.take(2), s[2]);
    lemma_total_volume_push(s.take(3), s[3]);
    lemma_total_volume_push(s.take(4), s[4]);
}

fn side_volume(side: &BookSide) -> (total: i128)
    ensures
        total == total_volume(side@),
{
    let mut total: i128 = 0;
    let mut i: usize = 0;
    while i < 5
        invariant
            i <= 5,
            total == total_volume(side@.take(i as int)),
            -0x8000_0000_0000_0000 * i <= total <= 0x8000_0000_0000_0000 * i,
        decreases 5 - i,
    {
        assert(side@.take(i + 1).drop_last() =~= side@.take(i as int));
        total = total + side.volumes[i] as i128;
        i += 1;
    }
    assert(side@.take(5) =~= side@);
    total
}

} // verus!
