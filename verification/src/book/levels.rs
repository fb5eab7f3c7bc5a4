//! Price levels: a map from decimal prices to values, kept in ascending order of
//! price.  Prices are keys by numeric value, so `1.5` and `1.50` name the same level;
//! a level keeps the price it was created with.

use vstd::prelude::*;

use crate::decimal::{decimal_eq, decimal_lt, Dec};

verus! {

/// The levels' prices ascend strictly by value.
pub open spec fn strictly_ascending<V>(s: Seq<(Dec, V)>) -> bool {
    forall|i: int, j: int| 0 <= i < j < s.len() ==> #[trigger] s[i].0.val() < #[trigger] s[j].0.val()
}

/// Whether some level has a price of value `v`.
pub open spec fn has_price<V>(s: Seq<(Dec, V)>, v: int) -> bool {
    exists|i: int| 0 <= i < s.len() && #[trigger] s[i].0.val() == v
}

/// The position of the level whose price has value `v`, or -1 when there is none.
pub open spec fn index_of<V>(s: Seq<(Dec, V)>, v: int) -> int
    decreases s.len(),
{
    if s.len() == 0 {
        -1
    } else if s.last().0.val() == v {
        s.len() - 1
    } else {
        index_of(s.drop_last(), v)
    }
}

/// The position at which a level of price value `v` belongs: after every level of
/// lower price.
pub open spec fn insert_pos<V>(s: Seq<(Dec, V)>, v: int) -> int
    decreases s.len(),
{
    if s.len() == 0 {
        0
    } else if s.last().0.val() < v {
        s.len() as int
    } else {
        insert_pos(s.drop_last(), v)
    }
}

/// The value stored at the price of value `v`, if any.
pub open spec fn value_at<V>(s: Seq<(Dec, V)>, v: int) -> Option<V> {
    if index_of(s, v) >= 0 {
        Some(s[index_of(s, v)].1)
    } else {
        None
    }
}

pub proof fn lemma_index_of<V>(s: Seq<(Dec, V)>, v: int)
    ensures
        -1 <= index_of(s, v) < s.len(),
        index_of(s, v) >= 0 ==> s[index_of(s, v)].0.val() == v,
        index_of(s, v) >= 0 <==> has_price(s, v),
        strictly_ascending(s) ==> forall|i: int|
            0 <= i < s.len() && #[trigger] s[i].0.val() == v ==> i == index_of(s, v),
    decreases s.len(),
{
    if s.len() > 0 {
        lemma_index_of(s.drop_last(), v);
        if s.last().0.val() != v {
            if has_price(s, v) {
                let i = choose|i: int| 0 <= i < s.len() && #[trigger] s[i].0.val() == v;
                assert(s.drop_last()[i].0.val() == v);
            }
            if index_of(s, v) >= 0 {
                assert(s[index_of(s, v)].0.val() == v);
            }
        } else {
            assert(s[s.len() - 1].0.val() == v);
        }
    }
}

pub proof fn lemma_insert_pos<V>(s: Seq<(Dec, V)>, v: int)
    requires
        strictly_ascending(s),
    ensures
        0 <= insert_pos(s, v) <= s.len(),
        forall|j: int| 0 <= j < insert_pos(s, v) ==> #[trigger] s[j].0.val() < v,
        forall|j: int| insert_pos(s, v) <= j < s.len() ==> #[trigger] s[j].0.val() >= v,
    decreases s.len(),
{
    if s.len() > 0 {
        lemma_insert_pos(s.drop_last(), v);
        if s.last().0.val() < v {
            assert forall|j: int| 0 <= j < s.len() implies #[trigger] s[j].0.val() < v by {
                if j < s.len() - 1 {
                    assert(s[j].0.val() < s[s.len() - 1].0.val());
                }
            }
        } else {
            assert forall|j: int| insert_pos(s, v) <= j < s.len() implies #[trigger] s[j].0.val()
                >= v by {
                if j < s.len() - 1 {
                    assert(s.drop_last()[j] == s[j]);
                }
            }
            assert forall|j: int| 0 <= j < insert_pos(s, v) implies #[trigger] s[j].0.val() < v by {
                assert(s.drop_last()[j] == s[j]);
            }
        }
    }
}

/// The value found at a price of a well-formed side is the one at the unique position
/// holding that price.
pub proof fn lemma_value_at_position<V>(s: Seq<(Dec, V)>, j: int)
    requires
        strictly_ascending(s),
        0 <= j < s.len(),
    ensures
        value_at(s, s[j].0.val()) == Some(s[j].1),
{
    lemma_index_of(s, s[j].0.val());
}

/// Replacing the value of a level changes the value at its price only.
pub proof fn lemma_update_value<V>(s: Seq<(Dec, V)>, i: int, x: V, w: int)
    requires
        strictly_ascending(s),
        0 <= i < s.len(),
    ensures
        strictly_ascending(s.update(i, (s[i].0, x))),
        value_at(s.update(i, (s[i].0, x)), w) == (if w == s[i].0.val() {
            Some(x)
        } else {
            value_at(s, w)
        }),
{
    let t = s.update(i, (s[i].0, x));
    assert forall|a: int, b: int| 0 <= a < b < t.len() implies #[trigger] t[a].0.val()
        < #[trigger] t[b].0.val() by {
        assert(t[a].0 == s[a].0 && t[b].0 == s[b].0);
    }
    lemma_index_of(s, w);
    lemma_index_of(t, w);
    if has_price(t, w) {
        let j = index_of(t, w);
        assert(t[j].0 == s[j].0);
        if j == i {
            assert(t[i].1 == x);
        } else {
            lemma_value_at_position(s, j);
        }
    } else {
        if has_price(s, w) {
            let j = index_of(s, w);
            assert(t[j].0.val() == w);
        }
    }
}

/// Adding a level at a new price, in its place, sets the value at that price only.
pub proof fn lemma_insert_value<V>(s: Seq<(Dec, V)>, k: Dec, x: V, w: int)
    requires
        strictly_ascending(s),
        !has_price(s, k.val()),
    ensures
        strictly_ascending(s.insert(insert_pos(s, k.val()), (k, x))),
        value_at(s.insert(insert_pos(s, k.val()), (k, x)), w) == (if w == k.val() {
            Some(x)
        } else {
            value_at(s, w)
        }),
{
    lemma_insert_pos(s, k.val());
    lemma_index_of(s, k.val());
    let p = insert_pos(s, k.val());
    let t = s.insert(p, (k, x));
    assert forall|a: int, b: int| 0 <= a < b < t.len() implies #[trigger] t[a].0.val()
        < #[trigger] t[b].0.val() by {
        if b < p {
            assert(t[a] == s[a] && t[b] == s[b]);
        } else if a > p {
            assert(t[a] == s[a - 1] && t[b] == s[b - 1]);
        } else if a == p {
            assert(t[b] == s[b - 1]);
            assert(s[b - 1].0.val() != k.val());
        } else {
            assert(t[a] == s[a]);
            if b != p {
                assert(t[b] == s[b - 1]);
            }
        }
    }
    lemma_index_of(t, w);
    if w == k.val() {
        assert(t[p] == (k, x));
        assert(t[p].0.val() == w);
        assert(strictly_ascending(t));
        assert(index_of(t, w) == p);
    } else if has_price(t, w) {
        let j = index_of(t, w);
        assert(j != p);
        assert(t[j].0.val() == w);
        if j < p {
            assert(t[j] == s[j]);
            lemma_value_at_position(s, j);
            assert(value_at(s, w) == Some(t[j].1));
        } else {
            assert(t[j] == s[j - 1]);
            lemma_value_at_position(s, j - 1);
            assert(value_at(s, w) == Some(t[j].1));
        }
        assert(value_at(t, w) == Some(t[j].1));
    } else {
        lemma_index_of(s, w);
        if has_price(s, w) {
            let j = index_of(s, w);
            if j < p {
                assert(t[j] == s[j]);
                assert(t[j].0.val() == w);
            } else {
                assert(t[j + 1] == s[j]);
                assert(t[j + 1].0.val() == w);
            }
        }
        assert(value_at(s, w) is None);
        assert(value_at(t, w) is None);
    }
}

/// Removing a level removes the value at its price only.
pub proof fn lemma_remove_value<V>(s: Seq<(Dec, V)>, i: int, w: int)
    requires
        strictly_ascending(s),
        0 <= i < s.len(),
    ensures
        strictly_ascending(s.remove(i)),
        value_at(s.remove(i), w) == (if w == s[i].0.val() {
            None
        } else {
            value_at(s, w)
        }),
{
    let t = s.remove(i);
    assert forall|a: int, b: int| 0 <= a < b < t.len() implies #[trigger] t[a].0.val()
        < #[trigger] t[b].0.val() by {
        let a2 = if a < i { a } else { a + 1 };
        let b2 = if b < i { b } else { b + 1 };
        assert(t[a] == s[a2] && t[b] == s[b2]);
    }
    lemma_index_of(t, w);
    lemma_index_of(s, w);
    if has_price(t, w) {
        let j = index_of(t, w);
        let j2 = if j < i { j } else { j + 1 };
        assert(t[j] == s[j2]);
        assert(j2 != i);
        lemma_value_at_position(s, j2);
    } else if has_price(s, w) {
        let j = index_of(s, w);
        if j < i {
            assert(t[j] == s[j]);
        } else if j > i {
            assert(t[j - 1] == s[j]);
        }
    }
}

/// The levels' prices, in order.
pub open spec fn prices<V>(s: Seq<(Dec, V)>) -> Seq<Dec> {
    s.map_values(|p: (Dec, V)| p.0)
}

/// Lookups depend on the prices alone.
pub proof fn lemma_same_prices<V, W>(s: Seq<(Dec, V)>, t: Seq<(Dec, W)>, v: int)
    requires
        prices(s) == prices(t),
    ensures
        index_of(s, v) == index_of(t, v),
        insert_pos(s, v) == insert_pos(t, v),
        has_price(s, v) == has_price(t, v),
        strictly_ascending(s) == strictly_ascending(t),
    decreases s.len(),
{
    assert(s.len() == prices(s).len());
    assert(t.len() == prices(t).len());
    assert forall|i: int| 0 <= i < s.len() implies #[trigger] s[i].0 == t[i].0 by {
        assert(prices(s)[i] == s[i].0);
        assert(prices(t)[i] == t[i].0);
    }
    if s.len() > 0 {
        assert(prices(s.drop_last()) =~= prices(t.drop_last()));
        lemma_same_prices(s.drop_last(), t.drop_last(), v);
        assert(s.last().0 == t.last().0);
    }
    if has_price(s, v) {
        let i = choose|i: int| 0 <= i < s.len() && #[trigger] s[i].0.val() == v;
        assert(t[i].0.val() == v);
    }
    if has_price(t, v) {
        let i = choose|i: int| 0 <= i < t.len() && #[trigger] t[i].0.val() == v;
        assert(s[i].0.val() == v);
    }
    if strictly_ascending(s) {
        assert forall|i: int, j: int| 0 <= i < j < t.len() implies #[trigger] t[i].0.val()
            < #[trigger] t[j].0.val() by {
            assert(s[i].0.val() < s[j].0.val());
        }
    }
    if strictly_ascending(t) {
        assert forall|i: int, j: int| 0 <= i < j < s.len() implies #[trigger] s[i].0.val()
            < #[trigger] s[j].0.val() by {
            assert(t[i].0.val() < t[j].0.val());
        }
    }
}

/// A map from prices to values, in ascending order of price.
#[derive(Debug, PartialEq, Clone)]
pub struct PriceLevels<V> {
    levels: Vec<(Dec, V)>,
}

impl<V> View for PriceLevels<V> {
    type V = Seq<(Dec, V)>;

    closed spec fn view(&self) -> Seq<(Dec, V)> {
        self.levels@
    }
}

impl<V> PriceLevels<V> {
    /// The levels ascend strictly by price.
    pub open spec fn wf(&self) -> bool {
        strictly_ascending(self@)
    }

    pub fn new() -> (r: Self)
        ensures
            r@ == Seq::<(Dec, V)>::empty(),
            r.wf(),
    {
        PriceLevels { levels: Vec::new() }
    }

    /// The number of price levels.
    pub fn len(&self) -> (r: usize)
        ensures
            r == self@.len(),
    {
        self.levels.len()
    }

    pub fn is_empty(&self) -> (r: bool)
        ensures
            r == (self@.len() == 0),
    {
        self.levels.len() == 0
    }

    /// The position of the level at `price`, or the position where it belongs.
    pub(crate) fn search(&self, price: &Dec) -> (r: Result<usize, usize>)
        requires
            self.wf(),
        ensures
            r is Ok <==> index_of(self@, price.val()) >= 0,
            r matches Ok(i) ==> i as int == index_of(self@, price.val()),
            r matches Err(p) ==> p as int == insert_pos(self@, price.val()),
            r matches Ok(i) ==> i < self@.len() && self@[i as int].0.val() == price.val(),
            r matches Err(p) ==> p <= self@.len() && !has_price(self@, price.val()),
    {
        proof {
            lemma_index_of(self@, price.val());
            lemma_insert_pos(self@, price.val());
        }
        let mut i: usize = 0;
        while i < self.levels.len() && decimal_lt(&self.levels[i].0, price)
            invariant
                i <= self.levels@.len(),
                self.wf(),
                forall|j: int| 0 <= j < i ==> #[trigger] self@[j].0.val() < price.val(),
            decreases self.levels@.len() - i,
        {
            i = i + 1;
        }
        proof {
            lemma_index_of(self@, price.val());
            lemma_insert_pos(self@, price.val());
        }
        if i < self.levels.len() && decimal_eq(&self.levels[i].0, price) {
            Ok(i)
        } else {
            proof {
                assert forall|j: int| 0 <= j < self@.len() implies #[trigger] self@[j].0.val()
                    != price.val() by {
                    if j > i {
                        assert(self@[i as int].0.val() < self@[j].0.val());
                    }
                }
                if insert_pos(self@, price.val()) < i {
                    let k = insert_pos(self@, price.val());
                    assert(self@[k].0.val() < price.val());
                }
                if insert_pos(self@, price.val()) > i {
                    assert(self@[i as int].0.val() >= price.val());
                }
            }
            Err(i)
        }
    }

    /// The value at `price`, if a level there exists.
    pub fn get(&self, price: &Dec) -> (r: Option<&V>)
        requires
            self.wf(),
        ensures
            r == (match value_at(self@, price.val()) {
                Some(x) => Some(&x),
                None => None,
            }),
    {
        match self.search(price) {
            Ok(i) => Some(&self.levels[i].1),
            Err(_) => None,
        }
    }

    pub fn contains_key(&self, price: &Dec) -> (r: bool)
        requires
            self.wf(),
        ensures
            r == has_price(self@, price.val()),
    {
        proof {
            lemma_index_of(self@, price.val());
        }
        match self.search(price) {
            Ok(_) => true,
            Err(_) => false,
        }
    }

    /// The price and value of the level at `price`, if it exists.
    pub fn get_key_value(&self, price: &Dec) -> (r: Option<(&Dec, &V)>)
        requires
            self.wf(),
        ensures
            r == (if index_of(self@, price.val()) >= 0 {
                Some((&self@[index_of(self@, price.val())].0, &self@[index_of(self@, price.val())].1))
            } else {
                None
            }),
    {
        match self.search(price) {
            Ok(i) => Some((&self.levels[i].0, &self.levels[i].1)),
            Err(_) => None,
        }
    }

    /// The level of lowest price.
    pub fn first_key_value(&self) -> (r: Option<(&Dec, &V)>)
        ensures
            r == (if self@.len() > 0 {
                Some((&self@[0].0, &self@[0].1))
            } else {
                None
            }),
    {
        if self.levels.len() > 0 {
            Some((&self.levels[0].0, &self.levels[0].1))
        } else {
            None
        }
    }

    /// The level of highest price.
    pub fn last_key_value(&self) -> (r: Option<(&Dec, &V)>)
        ensures
            r == (if self@.len() > 0 {
                Some((&self@.last().0, &self@.last().1))
            } else {
                None
            }),
    {
        let n = self.levels.len();
        if n > 0 {
            Some((&self.levels[n - 1].0, &self.levels[n - 1].1))
        } else {
            None
        }
    }

    /// The value at position `i`, to change in place.
    pub(crate) fn value_mut(&mut self, i: usize) -> (r: &mut V)
        requires
            i < old(self)@.len(),
        ensures
            *r == old(self)@[i as int].1,
            final(self)@ == old(self)@.update(i as int, (old(self)@[i as int].0, *final(r))),
    {
        &mut self.levels[i].1
    }

    /// The value at position `i`.
    pub(crate) fn value_ref(&self, i: usize) -> (r: &V)
        requires
            i < self@.len(),
        ensures
            *r == self@[i as int].1,
    {
        &self.levels[i].1
    }

    /// The value at `price`, to change in place, if a level there exists.
    pub fn get_mut(&mut self, price: &Dec) -> (r: Option<&mut V>)
        requires
            old(self).wf(),
        ensures
            index_of(old(self)@, price.val()) >= 0 ==> {
                let i = index_of(old(self)@, price.val());
                &&& r is Some
                &&& *r.unwrap() == old(self)@[i].1
                &&& final(self)@ == old(self)@.update(i, (old(self)@[i].0, *final(r.unwrap())))
            },
            index_of(old(self)@, price.val()) < 0 ==> r is None && final(self)@ == old(self)@,
    {
        match self.search(price) {
            Ok(i) => Some(self.value_mut(i)),
            Err(_) => None,
        }
    }

    /// Adds a level at `price` holding `value`, where no level of that price exists.
    pub(crate) fn insert_new(&mut self, price: Dec, value: V)
        requires
            old(self).wf(),
            !has_price(old(self)@, price.val()),
        ensures
            final(self)@ == old(self)@.insert(insert_pos(old(self)@, price.val()), (price, value)),
            final(self).wf(),
    {
        proof {
            lemma_index_of(self@, price.val());
            lemma_insert_pos(self@, price.val());
        }
        let ghost old_s = self@;
        let pos = match self.search(&price) {
            Ok(i) => i,
            Err(p) => p,
        };
        self.levels.insert(pos, (price, value));
        proof {
            let s = self@;
            assert forall|i: int, j: int| 0 <= i < j < s.len() implies #[trigger] s[i].0.val()
                < #[trigger] s[j].0.val() by {
                if j < pos {
                    assert(s[i] == old_s[i] && s[j] == old_s[j]);
                } else if i > pos {
                    assert(s[i] == old_s[i - 1] && s[j] == old_s[j - 1]);
                } else if i == pos {
                    assert(s[j] == old_s[j - 1]);
                    assert(old_s[j - 1].0.val() != price.val());
                } else {
                    assert(s[i] == old_s[i]);
                    if j == pos {
                    } else {
                        assert(s[j] == old_s[j - 1]);
                        assert(old_s[i].0.val() < old_s[pos as int].0.val() || pos as int == i);
                    }
                }
            }
        }
    }

    /// Removes the level at position `i`.
    pub(crate) fn remove_at(&mut self, i: usize) -> (r: (Dec, V))
        requires
            old(self).wf(),
            i < old(self)@.len(),
        ensures
            r == old(self)@[i as int],
            final(self)@ == old(self)@.remove(i as int),
            final(self).wf(),
    {
        let ghost old_s = self@;
        let r = self.levels.remove(i);
        proof {
            let s = self@;
            assert forall|a: int, b: int| 0 <= a < b < s.len() implies #[trigger] s[a].0.val()
                < #[trigger] s[b].0.val() by {
                let a2 = if a < i { a } else { a + 1 };
                let b2 = if b < i { b } else { b + 1 };
                assert(s[a] == old_s[a2] && s[b] == old_s[b2]);
            }
        }
        r
    }

    /// Removes the level at `price`, returning its value, if it exists.
    pub fn remove(&mut self, price: &Dec) -> (r: Option<V>)
        requires
            old(self).wf(),
        ensures
            final(self).wf(),
            index_of(old(self)@, price.val()) >= 0 ==> r == Some(
                old(self)@[index_of(old(self)@, price.val())].1,
            ) && final(self)@ == old(self)@.remove(index_of(old(self)@, price.val())),
            index_of(old(self)@, price.val()) < 0 ==> r is None && final(self)@ == old(self)@,
    {
        match self.search(price) {
            Ok(i) => {
                let (_, v) = self.remove_at(i);
                Some(v)
            },
            Err(_) => None,
        }
    }
}

} // verus!
