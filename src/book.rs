use std::collections::BTreeMap;

use vstd::prelude::*;

use crate::order::{lemma_order_lt_irreflexive, order_lt, Order, SearchTime, TypeOrder, EPS};

verus! {

broadcast use vstd::std_specs::btree::group_btree_axioms;

/// The symbol of the traded instrument.
#[derive(Debug, Clone)]
pub struct Asset(pub String);

impl Asset {
    /// An asset named `name`.
    pub fn new(name: &str) -> (r: Asset)
        ensures
            r.0@ == name@,
    {
        Asset(name.to_string())
    }
}

/// Strictly increasing under the book order.
pub open spec fn sorted(s: Seq<Order>) -> bool {
    forall|i: int, j: int| 0 <= i < j < s.len() ==> order_lt(#[trigger] s[i], #[trigger] s[j])
}

/// The number of elements of `s` that satisfy `f`.
pub open spec fn count_where(s: Seq<Order>, f: spec_fn(Order) -> bool) -> nat
    decreases s.len(),
{
    if s.len() == 0 {
        0
    } else {
        count_where(s.drop_last(), f) + if f(s.last()) {
            1nat
        } else {
            0nat
        }
    }
}

/// Where `s` splits into a prefix that satisfies `f` and a suffix that does
/// not, the split point is the count of elements that satisfy `f`.
pub proof fn lemma_count_where_split(s: Seq<Order>, f: spec_fn(Order) -> bool, k: int)
    requires
        0 <= k <= s.len(),
        forall|i: int| 0 <= i < k ==> f(#[trigger] s[i]),
        forall|i: int| k <= i < s.len() ==> !f(#[trigger] s[i]),
    ensures
        count_where(s, f) == k,
    decreases s.len(),
{
    if s.len() > 0 {
        let t = s.drop_last();
        if k == s.len() {
            assert forall|i: int| 0 <= i < k - 1 implies f(#[trigger] t[i]) by {
                assert(t[i] == s[i]);
            }
            lemma_count_where_split(t, f, k - 1);
        } else {
            assert forall|i: int| 0 <= i < k implies f(#[trigger] t[i]) by {
                assert(t[i] == s[i]);
            }
            assert forall|i: int| k <= i < t.len() implies !f(#[trigger] t[i]) by {
                assert(t[i] == s[i]);
            }
            lemma_count_where_split(t, f, k);
        }
    }
}

/// The boundary probe of a book of `side` at `price`: earliest arrival,
/// quantity 0, identifier -1.
pub open spec fn probe(side: TypeOrder, price: i64) -> Order {
    Order { type_order: side, price, quantity: 0, time: 0, hash: -1i64 }
}

/// Index of the first order of `s` that does not sort before the probe of
/// `side` at `price`.
pub open spec fn lower_index(s: Seq<Order>, side: TypeOrder, price: i64) -> int {
    rank(s, probe(side, price))
}

/// Index one past the last order of `s` that does not sort after the probe
/// of `side` at `price`.
pub open spec fn upper_index(s: Seq<Order>, side: TypeOrder, price: i64) -> int {
    count_where(s, |x: Order| !order_lt(probe(side, price), x)) as int
}

/// Index at which `o` stands, or would stand, in the sorted `s`.
pub open spec fn rank(s: Seq<Order>, o: Order) -> int {
    count_where(s, |x: Order| order_lt(x, o)) as int
}

/// The identifiers of the orders in `s`.
pub open spec fn ids(s: Seq<Order>) -> Set<i64> {
    Set::new(|h: i64| exists|i: int| 0 <= i < s.len() && s[i].hash == h)
}

/// `o` with its quantity replaced by `q`.
pub open spec fn with_quantity(o: Order, q: u64) -> Order {
    Order { quantity: q, ..o }
}

/// Matching `need` against `s` from its first order on: each order that
/// holds less than what is still needed is consumed whole; the first that
/// holds at least as much is reduced by it, and kept only if more than the
/// fill tolerance remains. The scan stops once no more than the tolerance is
/// needed. Returns the orders left, the quantity still needed, and the price
/// of the last order traded against, if any.
pub open spec fn fill_fwd(s: Seq<Order>, need: nat) -> (Seq<Order>, nat, Option<i64>)
    decreases s.len(),
{
    if need <= EPS || s.len() == 0 {
        (s, need, None)
    } else if s[0].quantity >= need {
        let left = (s[0].quantity - need) as u64;
        (
            if left > EPS {
                s.update(0, with_quantity(s[0], left))
            } else {
                s.skip(1)
            },
            0,
            Some(s[0].price),
        )
    } else {
        let t = fill_fwd(s.skip(1), (need - s[0].quantity) as nat);
        (t.0, t.1, if t.2 is Some { t.2 } else { Some(s[0].price) })
    }
}

/// As `fill_fwd`, scanning `s` from its last order back.
pub open spec fn fill_back(s: Seq<Order>, need: nat) -> (Seq<Order>, nat, Option<i64>)
    decreases s.len(),
{
    if need <= EPS || s.len() == 0 {
        (s, need, None)
    } else if s.last().quantity >= need {
        let left = (s.last().quantity - need) as u64;
        (
            if left > EPS {
                s.update(s.len() - 1, with_quantity(s.last(), left))
            } else {
                s.drop_last()
            },
            0,
            Some(s.last().price),
        )
    } else {
        let t = fill_back(s.drop_last(), (need - s.last().quantity) as nat);
        (t.0, t.1, if t.2 is Some { t.2 } else { Some(s.last().price) })
    }
}

/// A scan that ends with more than the tolerance still needed has consumed
/// every order it was given.
pub proof fn lemma_fill_fwd_exhausts(s: Seq<Order>, need: nat)
    ensures
        fill_fwd(s, need).1 > EPS ==> fill_fwd(s, need).0.len() == 0,
    decreases s.len(),
{
    if need > EPS && s.len() > 0 && s[0].quantity < need {
        lemma_fill_fwd_exhausts(s.skip(1), (need - s[0].quantity) as nat);
    }
}

/// As `lemma_fill_fwd_exhausts`, for the backward scan.
pub proof fn lemma_fill_back_exhausts(s: Seq<Order>, need: nat)
    ensures
        fill_back(s, need).1 > EPS ==> fill_back(s, need).0.len() == 0,
    decreases s.len(),
{
    if need > EPS && s.len() > 0 && s.last().quantity < need {
        lemma_fill_back_exhausts(s.drop_last(), (need - s.last().quantity) as nat);
    }
}

/// One side of the market: the orders sorted by the book order, and an
/// index from identifier to order.
pub struct OrderBook {
    pub book_type: TypeOrder,
    pub tree: Vec<Order>,
    pub references: BTreeMap<i64, Order>,
    pub asset: Asset,
}

impl OrderBook {
    /// The book's orders in book order.
    pub open spec fn orders(&self) -> Seq<Order> {
        self.tree@
    }

    /// The identifiers in the index are exactly those of the sorted orders,
    /// each mapped to its order; the orders are strictly sorted, all of the
    /// book's side, all above the fill tolerance, and all stamped after the
    /// probes' stamp 0.
    pub open spec fn wf(&self) -> bool {
        &&& sorted(self.tree@)
        &&& forall|i: int|
            0 <= i < self.tree@.len() ==> (#[trigger] self.tree@[i]).type_order == self.book_type
                && self.tree@[i].quantity > EPS && self.tree@[i].time > 0
        &&& forall|i: int|
            0 <= i < self.tree@.len() ==> self.references@.contains_key(
                (#[trigger] self.tree@[i]).hash,
            ) && self.references@[self.tree@[i].hash] == self.tree@[i]
        &&& forall|h: i64| #[trigger]
            self.references@.contains_key(h) ==> exists|i: int|
                0 <= i < self.tree@.len() && (#[trigger] self.tree@[i]).hash == h
    }

    /// `after` is `before` with the order `hash` cancelled: dropped from
    /// the index and from the sorted orders if it was there, and nothing
    /// changed if it was not.
    pub open spec fn cancelled(before: OrderBook, after: OrderBook, hash: i64) -> bool {
        &&& after.wf()
        &&& after.book_type == before.book_type
        &&& after.asset == before.asset
        &&& after.references@ == before.references@.remove(hash)
        &&& before.references@.contains_key(hash) ==> after.tree@ == before.tree@.remove(
            rank(before.tree@, before.references@[hash]),
        )
        &&& !before.references@.contains_key(hash) ==> after.tree@ == before.tree@
    }

    /// An empty book for one side of `name`.
    pub fn new(book_type: TypeOrder, name: Asset) -> (r: OrderBook)
        ensures
            r.wf(),
            r.book_type == book_type,
            r.asset == name,
            r.tree@ == Seq::<Order>::empty(),
            r.references@ == Map::<i64, Order>::empty(),
    {
        OrderBook { book_type, tree: Vec::new(), references: BTreeMap::new(), asset: name }
    }

    /// Number of orders in the book.
    pub fn len(&self) -> (r: usize)
        ensures
            r == self.tree@.len(),
    {
        self.tree.len()
    }
}


impl OrderBook {
    /// A boundary probe at `price`: never inserted, it only marks where a
    /// scan at that price starts. It carries the earliest or the latest
    /// arrival stamp, quantity 0 and identifier -1.
    pub fn create_fantom_order_for_search(&self, search_type: SearchTime, price: i64) -> (r: Order)
        ensures
            r.type_order == self.book_type,
            r.price == price,
            r.quantity == 0,
            r.hash == -1,
            r.time == (match search_type {
                SearchTime::Lower => 0,
                SearchTime::Upper => u64::MAX,
            }),
    {
        let time: u64 = match search_type {
            SearchTime::Lower => 0,
            SearchTime::Upper => u64::MAX,
        };
        Order { type_order: self.book_type, price, quantity: 0, hash: -1, time }
    }

    /// Index of the first order that does not sort before the
    /// earliest-stamped probe at `price`: in a bid book the first bid at
    /// `price` or above, in an ask book the first ask above `price` (resting
    /// orders are stamped after 0, so asks at `price` sort before the probe).
    pub fn lower_bound(&self, price: i64) -> (r: usize)
        requires
            self.wf(),
        ensures
            r == lower_index(self.tree@, self.book_type, price),
            r <= self.tree@.len(),
            forall|i: int| 0 <= i < r ==> (#[trigger] self.tree@[i]).price <= price,
            forall|i: int| r <= i < self.tree@.len() ==> (#[trigger] self.tree@[i]).price >= price,
            self.book_type == TypeOrder::Buy ==> forall|i: int|
                0 <= i < r ==> (#[trigger] self.tree@[i]).price < price,
            self.book_type == TypeOrder::Sell ==> forall|i: int|
                r <= i < self.tree@.len() ==> (#[trigger] self.tree@[i]).price > price,
    {
        let fantom = self.create_fantom_order_for_search(SearchTime::Lower, price);
        self.position_of(&fantom)
    }

    /// Index one past the last order that does not sort after the probe at
    /// `price`: in an ask book one past the last ask at `price` or below, in
    /// a bid book one past the last bid below `price`.
    ///
    /// The probe carries the earliest stamp here too, as it does for
    /// `lower_bound`; whether the upper boundary should rather use the latest
    /// stamp is left open, and the direction comes from the search alone.
    pub fn upper_bound(&self, price: i64) -> (r: usize)
        requires
            self.wf(),
        ensures
            r == upper_index(self.tree@, self.book_type, price),
            r <= self.tree@.len(),
            forall|i: int| 0 <= i < r ==> (#[trigger] self.tree@[i]).price <= price,
            forall|i: int| r <= i < self.tree@.len() ==> (#[trigger] self.tree@[i]).price >= price,
            self.book_type == TypeOrder::Sell ==> forall|i: int|
                r <= i < self.tree@.len() ==> (#[trigger] self.tree@[i]).price > price,
            self.book_type == TypeOrder::Buy ==> forall|i: int|
                0 <= i < r ==> (#[trigger] self.tree@[i]).price < price,
    {
        let fantom = self.create_fantom_order_for_search(SearchTime::Lower, price);
        let mut lo: usize = 0;
        let mut hi: usize = self.tree.len();
        while lo < hi
            invariant
                self.wf(),
                fantom == probe(self.book_type, price),
                lo <= hi <= self.tree@.len(),
                forall|i: int| 0 <= i < lo ==> !order_lt(fantom, #[trigger] self.tree@[i]),
                forall|i: int| hi <= i < self.tree@.len() ==> order_lt(fantom, #[trigger] self.tree@[i]),
            decreases hi - lo,
        {
            let mid = lo + (hi - lo) / 2;
            if !fantom.precedes(&self.tree[mid]) {
                lo = mid + 1;
            } else {
                hi = mid;
            }
        }
        proof {
            lemma_count_where_split(self.tree@, |x: Order| !order_lt(fantom, x), lo as int);
        }
        lo
    }

    /// Index of the first order that does not sort before `order`.
    fn position_of(&self, order: &Order) -> (r: usize)
        requires
            self.wf(),
            order.type_order == self.book_type,
        ensures
            r == rank(self.tree@, *order),
            r <= self.tree@.len(),
            forall|i: int| 0 <= i < r ==> order_lt(#[trigger] self.tree@[i], *order),
            forall|i: int| r <= i < self.tree@.len() ==> !order_lt(#[trigger] self.tree@[i], *order),
    {
        let mut lo: usize = 0;
        let mut hi: usize = self.tree.len();
        while lo < hi
            invariant
                self.wf(),
                order.type_order == self.book_type,
                lo <= hi <= self.tree@.len(),
                forall|i: int| 0 <= i < lo ==> order_lt(#[trigger] self.tree@[i], *order),
                forall|i: int| hi <= i < self.tree@.len() ==> !order_lt(#[trigger] self.tree@[i], *order),
            decreases hi - lo,
        {
            let mid = lo + (hi - lo) / 2;
            if self.tree[mid].precedes(order) {
                lo = mid + 1;
            } else {
                hi = mid;
            }
        }
        proof {
            lemma_count_where_split(self.tree@, |x: Order| order_lt(x, *order), lo as int);
        }
        lo
    }
}


impl OrderBook {
    /// Inserts `order` at its place in the sorted orders and in the index.
    pub fn add_order(&mut self, order: Order)
        requires
            old(self).wf(),
            order.type_order == old(self).book_type,
            order.quantity > EPS,
            order.time > 0,
            !old(self).references@.contains_key(order.hash),
        ensures
            final(self).wf(),
            final(self).book_type == old(self).book_type,
            final(self).asset == old(self).asset,
            final(self).tree@ == old(self).tree@.insert(rank(old(self).tree@, order), order),
            final(self).references@ == old(self).references@.insert(order.hash, order),
            final(self).references@.dom() == old(self).references@.dom().insert(order.hash),
            final(self).references@.dom() == ids(final(self).tree@),
    {
        let pos = self.position_of(&order);
        let ghost s = self.tree@;
        let ghost m = self.references@;
        self.tree.insert(pos, order);
        self.references.insert(order.hash, order);
        proof {
            let t = self.tree@;
            assert forall|i: int| 0 <= i < s.len() implies (#[trigger] s[i]).hash != order.hash by {
                assert(m.contains_key(s[i].hash));
            }
            assert forall|i: int, j: int| 0 <= i < j < t.len() implies order_lt(
                #[trigger] t[i],
                #[trigger] t[j],
            ) by {
                if j < pos {
                    assert(t[i] == s[i] && t[j] == s[j]);
                } else if j == pos {
                    assert(t[i] == s[i]);
                } else if i == pos {
                    assert(t[j] == s[j - 1]);
                    assert(!order_lt(s[j - 1], order));
                } else if i < pos {
                    assert(t[i] == s[i] && t[j] == s[j - 1]);
                } else {
                    assert(t[i] == s[i - 1] && t[j] == s[j - 1]);
                }
            }
            assert forall|i: int| 0 <= i < t.len() implies self.references@.contains_key(
                (#[trigger] t[i]).hash,
            ) && self.references@[t[i].hash] == t[i] by {
                if i < pos {
                    assert(t[i] == s[i]);
                } else if i > pos {
                    assert(t[i] == s[i - 1]);
                }
            }
            assert forall|h: i64| #[trigger]
                self.references@.contains_key(h) implies exists|i: int|
                    0 <= i < t.len() && (#[trigger] t[i]).hash == h by {
                if h == order.hash {
                    assert(t[pos as int].hash == h);
                } else {
                    let k = choose|k: int| 0 <= k < s.len() && (#[trigger] s[k]).hash == h;
                    if k < pos {
                        assert(t[k].hash == h);
                    } else {
                        assert(t[k + 1].hash == h);
                    }
                }
            }
            assert forall|i: int| 0 <= i < t.len() implies (#[trigger] t[i]).type_order
                == self.book_type && t[i].quantity > EPS && t[i].time > 0 by {
                if i < pos {
                    assert(t[i] == s[i]);
                } else if i > pos {
                    assert(t[i] == s[i - 1]);
                }
            }
            assert(self.references@.dom() =~= m.dom().insert(order.hash));
            assert(self.references@.dom() =~= ids(t));
        }
    }

    /// Removes the order at index `i` from the sorted orders and the index.
    fn remove_at(&mut self, i: usize)
        requires
            old(self).wf(),
            i < old(self).tree@.len(),
        ensures
            final(self).wf(),
            final(self).book_type == old(self).book_type,
            final(self).asset == old(self).asset,
            final(self).tree@ == old(self).tree@.remove(i as int),
            final(self).references@ == old(self).references@.remove(old(self).tree@[i as int].hash),
    {
        let ghost s = self.tree@;
        let ghost m = self.references@;
        let h = self.tree[i].hash;
        self.tree.remove(i);
        self.references.remove(&h);
        proof {
            let t = self.tree@;
            assert forall|k: int| 0 <= k < s.len() && k != i implies (#[trigger] s[k]).hash != h by {
                if s[k].hash == h {
                    assert(m[h] == s[k] && m[h] == s[i as int]);
                    lemma_order_lt_irreflexive(s[k]);
                }
            }
            assert forall|a: int, b: int| 0 <= a < b < t.len() implies order_lt(
                #[trigger] t[a],
                #[trigger] t[b],
            ) by {
                if b < i {
                    assert(t[a] == s[a] && t[b] == s[b]);
                } else if a < i {
                    assert(t[a] == s[a] && t[b] == s[b + 1]);
                } else {
                    assert(t[a] == s[a + 1] && t[b] == s[b + 1]);
                }
            }
            assert forall|k: int| 0 <= k < t.len() implies self.references@.contains_key(
                (#[trigger] t[k]).hash,
            ) && self.references@[t[k].hash] == t[k] by {
                if k < i {
                    assert(t[k] == s[k]);
                } else {
                    assert(t[k] == s[k + 1]);
                }
            }
            assert forall|g: i64| #[trigger]
                self.references@.contains_key(g) implies exists|k: int|
                    0 <= k < t.len() && (#[trigger] t[k]).hash == g by {
                let k = choose|k: int| 0 <= k < s.len() && (#[trigger] s[k]).hash == g;
                if k < i {
                    assert(t[k].hash == g);
                } else {
                    assert(t[k - 1].hash == g);
                }
            }
        }
    }

    /// Sets the quantity of the order at index `i` to `q`.
    fn reduce_at(&mut self, i: usize, q: u64)
        requires
            old(self).wf(),
            i < old(self).tree@.len(),
            q > EPS,
        ensures
            final(self).wf(),
            final(self).book_type == old(self).book_type,
            final(self).asset == old(self).asset,
            final(self).tree@ == old(self).tree@.update(
                i as int,
                with_quantity(old(self).tree@[i as int], q),
            ),
            final(self).references@ == old(self).references@.insert(
                old(self).tree@[i as int].hash,
                with_quantity(old(self).tree@[i as int], q),
            ),
    {
        let ghost s = self.tree@;
        let ghost m = self.references@;
        let mut o = self.tree[i];
        o.quantity = q;
        self.tree[i] = o;
        self.references.insert(o.hash, o);
        proof {
            let t = self.tree@;
            assert forall|k: int| 0 <= k < s.len() && k != i implies (#[trigger] s[k]).hash
                != o.hash by {
                if s[k].hash == o.hash {
                    assert(m[o.hash] == s[k] && m[o.hash] == s[i as int]);
                    lemma_order_lt_irreflexive(s[k]);
                }
            }
            assert forall|a: int, b: int| 0 <= a < b < t.len() implies order_lt(
                #[trigger] t[a],
                #[trigger] t[b],
            ) by {
                assert(order_lt(s[a], s[b]));
            }
            assert forall|k: int| 0 <= k < t.len() implies self.references@.contains_key(
                (#[trigger] t[k]).hash,
            ) && self.references@[t[k].hash] == t[k] by {
                if k != i {
                    assert(t[k] == s[k]);
                }
            }
            assert forall|g: i64| #[trigger]
                self.references@.contains_key(g) implies exists|k: int|
                    0 <= k < t.len() && (#[trigger] t[k]).hash == g by {
                if g == o.hash {
                    assert(t[i as int].hash == g);
                } else {
                    let k = choose|k: int| 0 <= k < s.len() && (#[trigger] s[k]).hash == g;
                    assert(t[k].hash == g);
                }
            }
        }
    }

    /// Cancels the order with identifier `hash`, if the book holds one.
    pub fn erase_order(&mut self, hash: i64)
        requires
            old(self).wf(),
        ensures
            final(self).wf(),
            final(self).book_type == old(self).book_type,
            final(self).asset == old(self).asset,
            final(self).references@ == old(self).references@.remove(hash),
            old(self).references@.contains_key(hash) ==> final(self).tree@ == old(self).tree@.remove(
                rank(old(self).tree@, old(self).references@[hash]),
            ),
            !old(self).references@.contains_key(hash) ==> final(self).tree@ == old(self).tree@,
            OrderBook::cancelled(*old(self), *final(self), hash),
    {
        match self.references.get(&hash) {
            Some(found) => {
                let order = *found;
                let ghost s = self.tree@;
                proof {
                    let k = choose|k: int| 0 <= k < s.len() && (#[trigger] s[k]).hash == hash;
                    assert(self.references@[s[k].hash] == s[k]);
                }
                let pos = self.position_of(&order);
                proof {
                    let k = choose|k: int| 0 <= k < s.len() && (#[trigger] s[k]).hash == hash;
                    assert(s[k] == order);
                    lemma_order_lt_irreflexive(order);
                    if (pos as int) < k {
                        assert(order_lt(s[pos as int], s[k]));
                    }
                    assert(pos as int == k);
                }
                self.remove_at(pos);
            },
            None => {},
        }
    }
}

impl OrderBook {
    /// Matches `need` against the orders from index `start` to the end,
    /// in book order, as `fill_fwd` says. Returns the quantity still needed
    /// and the last traded price.
    pub(crate) fn fill_ascending(&mut self, start: usize, need: u64) -> (r: (u64, Option<i64>))
        requires
            old(self).wf(),
            start <= old(self).tree@.len(),
        ensures
            final(self).wf(),
            final(self).book_type == old(self).book_type,
            final(self).asset == old(self).asset,
            forall|h: i64| #[trigger] final(self).references@.contains_key(h) ==> old(
                self,
            ).references@.contains_key(h),
            ({
                let t = fill_fwd(
                    old(self).tree@.subrange(start as int, old(self).tree@.len() as int),
                    need as nat,
                );
                &&& final(self).tree@ == old(self).tree@.subrange(0, start as int) + t.0
                &&& r.0 == t.1
                &&& r.1 == t.2
            }),
    {
        let ghost s0 = self.tree@;
        let ghost target = fill_fwd(s0.subrange(start as int, s0.len() as int), need as nat);
        let mut need = need;
        let mut last: Option<i64> = None;
        while need > EPS && start < self.tree.len()
            invariant
                self.wf(),
                self.book_type == old(self).book_type,
                self.asset == old(self).asset,
                forall|h: i64| #[trigger] self.references@.contains_key(h) ==> old(
                    self,
                ).references@.contains_key(h),
                start <= self.tree@.len(),
                self.tree@.subrange(0, start as int) == s0.subrange(0, start as int),
                ({
                    let cur = fill_fwd(
                        self.tree@.subrange(start as int, self.tree@.len() as int),
                        need as nat,
                    );
                    &&& cur.0 == target.0
                    &&& cur.1 == target.1
                    &&& if cur.2 is Some {
                        cur.2 == target.2
                    } else {
                        last == target.2
                    }
                }),
            decreases self.tree@.len(), need,
        {
            let ghost s = self.tree@;
            let ghost suffix = s.subrange(start as int, s.len() as int);
            let resting = self.tree[start];
            assert(suffix[0] == resting);
            if resting.quantity >= need {
                let left = resting.quantity - need;
                if left > EPS {
                    self.reduce_at(start, left);
                    assert(self.tree@.subrange(start as int, self.tree@.len() as int)
                        =~= suffix.update(0, with_quantity(resting, left)));
                } else {
                    self.remove_at(start);
                    assert(self.tree@.subrange(start as int, self.tree@.len() as int)
                        =~= suffix.skip(1));
                }
                assert(self.tree@.subrange(0, start as int) =~= s.subrange(0, start as int));
                last = Some(resting.price);
                need = 0;
            } else {
                self.remove_at(start);
                assert(self.tree@.subrange(start as int, self.tree@.len() as int) =~= suffix.skip(1));
                assert(self.tree@.subrange(0, start as int) =~= s.subrange(0, start as int));
                last = Some(resting.price);
                need = need - resting.quantity;
            }
        }
        proof {
            assert(self.tree@ =~= self.tree@.subrange(0, start as int) + self.tree@.subrange(
                start as int,
                self.tree@.len() as int,
            ));
        }
        (need, last)
    }

    /// Matches `need` against the orders below index `end`, from the one
    /// just below it back to the first, as `fill_back` says. Returns the
    /// quantity still needed and the last traded price.
    pub(crate) fn fill_descending(&mut self, end: usize, need: u64) -> (r: (u64, Option<i64>))
        requires
            old(self).wf(),
            end <= old(self).tree@.len(),
        ensures
            final(self).wf(),
            final(self).book_type == old(self).book_type,
            final(self).asset == old(self).asset,
            forall|h: i64| #[trigger] final(self).references@.contains_key(h) ==> old(
                self,
            ).references@.contains_key(h),
            ({
                let t = fill_back(old(self).tree@.subrange(0, end as int), need as nat);
                &&& final(self).tree@ == t.0 + old(self).tree@.subrange(
                    end as int,
                    old(self).tree@.len() as int,
                )
                &&& r.0 == t.1
                &&& r.1 == t.2
            }),
    {
        let ghost s0 = self.tree@;
        let ghost rest = s0.subrange(end as int, s0.len() as int);
        let ghost target = fill_back(s0.subrange(0, end as int), need as nat);
        let mut need = need;
        let mut last: Option<i64> = None;
        let mut end = end;
        while need > EPS && end > 0
            invariant
                self.wf(),
                self.book_type == old(self).book_type,
                self.asset == old(self).asset,
                forall|h: i64| #[trigger] self.references@.contains_key(h) ==> old(
                    self,
                ).references@.contains_key(h),
                end <= self.tree@.len(),
                self.tree@.subrange(end as int, self.tree@.len() as int) == rest,
                ({
                    let cur = fill_back(self.tree@.subrange(0, end as int), need as nat);
                    &&& cur.0 == target.0
                    &&& cur.1 == target.1
                    &&& if cur.2 is Some {
                        cur.2 == target.2
                    } else {
                        last == target.2
                    }
                }),
            decreases end, need,
        {
            let ghost s = self.tree@;
            let ghost prefix = s.subrange(0, end as int);
            let i = end - 1;
            let resting = self.tree[i];
            assert(prefix.last() == resting);
            if resting.quantity >= need {
                let left = resting.quantity - need;
                if left > EPS {
                    self.reduce_at(i, left);
                    assert(self.tree@.subrange(0, end as int) =~= prefix.update(
                        i as int,
                        with_quantity(resting, left),
                    ));
                    assert(self.tree@.subrange(end as int, self.tree@.len() as int)
                        =~= s.subrange(end as int, s.len() as int));
                    need = 0;
                } else {
                    self.remove_at(i);
                    assert(self.tree@.subrange(0, i as int) =~= prefix.drop_last());
                    assert(self.tree@.subrange(i as int, self.tree@.len() as int)
                        =~= s.subrange(end as int, s.len() as int));
                    need = 0;
                    end = i;
                }
                last = Some(resting.price);
            } else {
                self.remove_at(i);
                assert(self.tree@.subrange(0, i as int) =~= prefix.drop_last());
                assert(self.tree@.subrange(i as int, self.tree@.len() as int)
                    =~= s.subrange(end as int, s.len() as int));
                last = Some(resting.price);
                need = need - resting.quantity;
                end = i;
            }
        }
        proof {
            assert(self.tree@ =~= self.tree@.subrange(0, end as int) + self.tree@.subrange(
                end as int,
                self.tree@.len() as int,
            ));
        }
        (need, last)
    }
}

} // verus!
