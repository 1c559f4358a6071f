//! The order book: for each side, the resting orders grouped into price levels
//! kept in ascending price order.
use crate::indexer::spot_order::{OrderType, SpotOrder};
use crate::prices::{ascending, lemma_ascending_unique, lemma_increasing, lemma_prices_ordered};
use crate::text::str_eq;
use std::collections::BTreeMap;
use vstd::prelude::*;
use vstd::std_specs::btree::{axiom_spec_keys_iter, spec_keys_iter};
use vstd::std_specs::iter::IteratorSpec;

verus! {

broadcast use vstd::seq_lib::group_seq_properties;

/// A price level as the contracts see it: its price and its orders in arrival order.
pub type Level = (u128, Seq<SpotOrder>);

/// Both sides of a book as the contracts see them: buy levels, then sell levels.
pub type BookState = (Seq<Level>, Seq<Level>);

/// All orders resting at one price, in arrival order.
pub struct PriceLevel {
    pub price: u128,
    pub orders: Vec<SpotOrder>,
}

/// The levels of one side as the contracts see them.
pub open spec fn levels_view(t: Seq<PriceLevel>) -> Seq<Level> {
    t.map_values(|l: PriceLevel| (l.price, l.orders@))
}

/// The orders of a level.
pub open spec fn level_orders() -> spec_fn(Level) -> Seq<SpotOrder> {
    |l: Level| l.1
}

/// The orders of a side, level after level, in ascending price.
pub open spec fn orders_of(t: Seq<Level>) -> Seq<SpotOrder> {
    t.map_values(level_orders()).flatten()
}

/// Well-formed side: prices strictly ascend, no level is empty, and every order of a
/// level has that level's price and the side's type.
pub open spec fn wf_side(t: Seq<Level>, side: OrderType) -> bool {
    &&& forall|i: int, j: int| 0 <= i < j < t.len() ==> t[i].0 < t[j].0
    &&& forall|i: int| 0 <= i < t.len() ==> (#[trigger] t[i]).1.len() > 0
    &&& forall|i: int, k: int|
        0 <= i < t.len() && 0 <= k < t[i].1.len() ==> (#[trigger] t[i].1[k]).price == t[i].0
            && t[i].1[k].order_type == side
}

/// Index of the first level whose price is not below `p`.
pub open spec fn insertion_point(t: Seq<Level>, p: u128) -> int
    decreases t.len(),
{
    if t.len() == 0 {
        0
    } else if t[0].0 < p {
        1 + insertion_point(t.drop_first(), p)
    } else {
        0
    }
}

/// A side after `o` joins it: appended to the level of its price, or a new level at its place.
pub open spec fn tree_add(t: Seq<Level>, o: SpotOrder) -> Seq<Level> {
    let pos = insertion_point(t, o.price);
    if pos < t.len() && t[pos].0 == o.price {
        t.update(pos, (o.price, t[pos].1.push(o)))
    } else {
        t.insert(pos, (o.price, seq![o]))
    }
}

/// An order whose id is not `id`.
pub open spec fn id_differs(id: Seq<char>) -> spec_fn(SpotOrder) -> bool {
    |o: SpotOrder| o.id@ != id
}

/// The orders of a level whose id is not `id`.
pub open spec fn without_id(orders: Seq<SpotOrder>, id: Seq<char>) -> Seq<SpotOrder> {
    orders.filter(id_differs(id))
}

/// A level with the orders of id `id` taken out.
pub open spec fn strip_id(id: Seq<char>) -> spec_fn(Level) -> Level {
    |l: Level| (l.0, without_id(l.1, id))
}

/// A level that still holds an order.
pub open spec fn nonempty_level() -> spec_fn(Level) -> bool {
    |l: Level| l.1.len() > 0
}

/// A side after every order with id `id` leaves it; levels left empty disappear.
pub open spec fn tree_remove_id(t: Seq<Level>, id: Seq<char>) -> Seq<Level> {
    t.map_values(strip_id(id)).filter(nonempty_level())
}

/// A level priced within `[min, max]`.
pub open spec fn price_within(min: u128, max: u128) -> spec_fn(Level) -> bool {
    |l: Level| min <= l.0 && l.0 <= max
}

/// The levels of a side whose price lies in `[min, max]`.
pub open spec fn levels_in_range(t: Seq<Level>, min: u128, max: u128) -> Seq<Level> {
    t.filter(price_within(min, max))
}

/// The first order with id `id`, scanning from the front.
pub open spec fn find_by_id(s: Seq<SpotOrder>, id: Seq<char>) -> Option<SpotOrder>
    decreases s.len(),
{
    if s.len() == 0 {
        None
    } else if s[0].id@ == id {
        Some(s[0])
    } else {
        find_by_id(s.drop_first(), id)
    }
}

/// One side of a book.
pub open spec fn state_side(s: BookState, side: OrderType) -> Seq<Level> {
    match side {
        OrderType::Buy => s.0,
        OrderType::Sell => s.1,
    }
}

/// A book with one side replaced.
pub open spec fn state_with_side(s: BookState, side: OrderType, t: Seq<Level>) -> BookState {
    match side {
        OrderType::Buy => (t, s.1),
        OrderType::Sell => (s.0, t),
    }
}

/// Both sides well formed.
pub open spec fn book_wf(s: BookState) -> bool {
    wf_side(s.0, OrderType::Buy) && wf_side(s.1, OrderType::Sell)
}

/// The book after `add_order(o)`.
pub open spec fn book_add(s: BookState, o: SpotOrder) -> BookState {
    state_with_side(s, o.order_type, tree_add(state_side(s, o.order_type), o))
}

/// The book after `remove_order(id, side)`: one side, or both when no side is given.
pub open spec fn book_remove(s: BookState, id: Seq<char>, side: Option<OrderType>) -> BookState {
    match side {
        Some(t) => state_with_side(s, t, tree_remove_id(state_side(s, t), id)),
        None => (tree_remove_id(s.0, id), tree_remove_id(s.1, id)),
    }
}

/// What `get_order(id, side)` returns.
pub open spec fn book_get(s: BookState, id: Seq<char>, side: OrderType) -> Option<SpotOrder> {
    find_by_id(orders_of(state_side(s, side)), id)
}

/// The book after `update_order(o)`.
pub open spec fn book_update(s: BookState, o: SpotOrder) -> BookState {
    book_add(book_remove(s, o.id@, Some(o.order_type)), o)
}

/// The orders of one side whose price lies in `[min, max]`, in ascending price.
pub open spec fn book_range(s: BookState, min: u128, max: u128, side: OrderType) -> Seq<SpotOrder> {
    orders_of(levels_in_range(state_side(s, side), min, max))
}

// ----------------------------------------------------------------------------------------
// Lemmas about the side operations
// ----------------------------------------------------------------------------------------

proof fn lemma_insertion_point(t: Seq<Level>, p: u128)
    ensures
        0 <= insertion_point(t, p) <= t.len(),
        forall|k: int| 0 <= k < insertion_point(t, p) ==> t[k].0 < p,
        insertion_point(t, p) < t.len() ==> t[insertion_point(t, p)].0 >= p,
    decreases t.len(),
{
    if t.len() > 0 && t[0].0 < p {
        lemma_insertion_point(t.drop_first(), p);
        assert forall|k: int| 0 <= k < insertion_point(t, p) implies t[k].0 < p by {
            if k > 0 {
                assert(t[k] == t.drop_first()[k - 1]);
            }
        }
    }
}

/// `find_by_id` over a concatenation looks in the first part, then the second.
pub proof fn lemma_find_concat(a: Seq<SpotOrder>, b: Seq<SpotOrder>, id: Seq<char>)
    ensures
        find_by_id(a + b, id) == (match find_by_id(a, id) {
            Some(x) => Some(x),
            None => find_by_id(b, id),
        }),
    decreases a.len(),
{
    if a.len() == 0 {
        assert(a + b =~= b);
    } else {
        assert((a + b)[0] == a[0]);
        if a[0].id@ != id {
            assert((a + b).drop_first() =~= a.drop_first() + b);
            lemma_find_concat(a.drop_first(), b, id);
        }
    }
}

/// `find_by_id` finds nothing exactly when no order has that id; what it finds is an
/// order of the sequence with that id.
pub proof fn lemma_find_spec(s: Seq<SpotOrder>, id: Seq<char>)
    ensures
        find_by_id(s, id) is None <==> forall|k: int| 0 <= k < s.len() ==> s[k].id@ != id,
        find_by_id(s, id) matches Some(x) ==> x.id@ == id && s.contains(x),
    decreases s.len(),
{
    if s.len() > 0 {
        lemma_find_spec(s.drop_first(), id);
        if s[0].id@ != id {
            assert forall|k: int|
                0 <= k < s.len() && (forall|j: int|
                    0 <= j < s.drop_first().len() ==> s.drop_first()[j].id@ != id) implies s[k].id@
                != id by {
                if k > 0 {
                    assert(s[k] == s.drop_first()[k - 1]);
                }
            }
            if let Some(x) = find_by_id(s, id) {
                let j = choose|j: int| 0 <= j < s.drop_first().len() && s.drop_first()[j] == x;
                assert(s[j + 1] == x);
            }
        }
    }
}

/// The orders of levels with one more level at the end: the earlier orders, then that
/// level's.
pub proof fn lemma_orders_of_push(t: Seq<Level>, l: Level)
    ensures
        orders_of(t.push(l)) == orders_of(t) + l.1,
{
    let f = level_orders();
    assert(t.push(l).map_values(f) =~= t.map_values(f).push(l.1));
    t.map_values(f).lemma_flatten_push(l.1);
}

/// The orders of two runs of levels one after the other: the first run's, then the
/// second's.
pub proof fn lemma_orders_of_concat(a: Seq<Level>, b: Seq<Level>)
    ensures
        orders_of(a + b) == orders_of(a) + orders_of(b),
{
    let f = level_orders();
    assert((a + b).map_values(f) =~= a.map_values(f) + b.map_values(f));
    vstd::seq_lib::lemma_flatten_concat(a.map_values(f), b.map_values(f));
}

proof fn lemma_orders_of_single(l: Level)
    ensures
        orders_of(seq![l]) == l.1,
{
    let f = level_orders();
    assert(seq![l].map_values(f) =~= seq![l.1]);
    seq![l.1].lemma_flatten_singleton();
}

/// The orders of a side split around level `i`.
proof fn lemma_orders_of_split(t: Seq<Level>, i: int)
    requires
        0 <= i < t.len(),
    ensures
        orders_of(t) == orders_of(t.take(i)) + t[i].1 + orders_of(t.skip(i + 1)),
{
    assert(t =~= t.take(i) + (seq![t[i]] + t.skip(i + 1)));
    lemma_orders_of_concat(t.take(i), seq![t[i]] + t.skip(i + 1));
    lemma_orders_of_concat(seq![t[i]], t.skip(i + 1));
    lemma_orders_of_single(t[i]);
    assert(orders_of(t.take(i)) + (t[i].1 + orders_of(t.skip(i + 1))) =~= orders_of(t.take(i))
        + t[i].1 + orders_of(t.skip(i + 1)));
}

/// Adding an order keeps a side well formed.
proof fn lemma_tree_add_wf(t: Seq<Level>, o: SpotOrder)
    requires
        wf_side(t, o.order_type),
    ensures
        wf_side(tree_add(t, o), o.order_type),
{
    lemma_insertion_point(t, o.price);
    let pos = insertion_point(t, o.price);
    let r = tree_add(t, o);
    if pos < t.len() && t[pos].0 == o.price {
        assert forall|i: int, k: int|
            0 <= i < r.len() && 0 <= k < r[i].1.len() implies (#[trigger] r[i].1[k]).price
            == r[i].0 && r[i].1[k].order_type == o.order_type by {
            if i == pos && k == t[pos].1.len() {
                assert(r[i].1[k] == o);
            } else if i == pos {
                assert(r[i].1[k] == t[i].1[k]);
            }
        }
    } else {
        assert forall|i: int, j: int| 0 <= i < j < r.len() implies r[i].0 < r[j].0 by {
            if j < pos {
            } else if j == pos {
            } else if i < pos {
                assert(r[j] == t[j - 1]);
            } else if i == pos {
                assert(r[j] == t[j - 1]);
                assert(t[pos].0 >= o.price);
            } else {
                assert(r[j] == t[j - 1]);
                assert(r[i] == t[i - 1]);
            }
        }
        assert forall|i: int| 0 <= i < r.len() implies (#[trigger] r[i]).1.len() > 0 by {
            if i > pos {
                assert(r[i] == t[i - 1]);
            }
        }
        assert forall|i: int, k: int|
            0 <= i < r.len() && 0 <= k < r[i].1.len() implies (#[trigger] r[i].1[k]).price
            == r[i].0 && r[i].1[k].order_type == o.order_type by {
            if i > pos {
                assert(r[i] == t[i - 1]);
            }
        }
    }
}

/// Removing an id keeps a side well formed.
proof fn lemma_tree_remove_wf(t: Seq<Level>, id: Seq<char>, side: OrderType)
    requires
        wf_side(t, side),
    ensures
        wf_side(tree_remove_id(t, id), side),
    decreases t.len(),
{
    reveal(Seq::filter);
    let f = strip_id(id);
    let g = nonempty_level();
    if t.len() > 0 {
        let s = t.drop_last();
        assert(wf_side(s, side)) by {
            assert forall|i: int, k: int|
                0 <= i < s.len() && 0 <= k < s[i].1.len() implies (#[trigger] s[i].1[k]).price
                == s[i].0 && s[i].1[k].order_type == side by {
                assert(s[i] == t[i]);
            }
        }
        lemma_tree_remove_wf(s, id, side);
        assert(t.map_values(f).drop_last() =~= s.map_values(f));
        let rest = tree_remove_id(s, id);
        let l = f(t.last());
        let kept = without_id(t.last().1, id);
        assert(forall|k: int|
            0 <= k < kept.len() ==> t.last().1.contains(#[trigger] kept[k])) by {
            assert forall|k: int| 0 <= k < kept.len() implies t.last().1.contains(
                #[trigger] kept[k],
            ) by {
                assert(kept.contains(kept[k]));
                t.last().1.lemma_filter_contains_rev(id_differs(id), kept[k]);
            }
        }
        // every price kept so far is below the last level's price
        assert(forall|j: int| 0 <= j < rest.len() ==> #[trigger] rest[j].0 < t.last().0) by {
            lemma_tree_remove_prices(s, id);
            assert forall|j: int| 0 <= j < rest.len() implies #[trigger] rest[j].0 < t.last().0 by {
                let a = choose|a: int| 0 <= a < s.len() && s[a].0 == rest[j].0;
                assert(s[a] == t[a]);
            }
        }
        if g(l) {
            let r = rest.push(l);
            assert(tree_remove_id(t, id) == r);
            assert forall|i: int, k: int|
                0 <= i < r.len() && 0 <= k < r[i].1.len() implies (#[trigger] r[i].1[k]).price
                == r[i].0 && r[i].1[k].order_type == side by {
                if i == rest.len() {
                    assert(t.last().1.contains(kept[k]));
                    let m = choose|m: int| 0 <= m < t.last().1.len() && t.last().1[m] == kept[k];
                    assert(t[t.len() - 1].1[m] == kept[k]);
                }
            }
        } else {
            assert(tree_remove_id(t, id) == rest);
        }
    } else {
        assert(tree_remove_id(t, id) =~= Seq::<Level>::empty());
    }
}

/// Every level price after removing an id was a level price before.
proof fn lemma_tree_remove_prices(t: Seq<Level>, id: Seq<char>)
    ensures
        forall|j: int|
            0 <= j < tree_remove_id(t, id).len() ==> exists|a: int|
                0 <= a < t.len() && t[a].0 == (#[trigger] tree_remove_id(t, id)[j]).0,
    decreases t.len(),
{
    reveal(Seq::filter);
    let f = strip_id(id);
    if t.len() > 0 {
        let s = t.drop_last();
        lemma_tree_remove_prices(s, id);
        assert(t.map_values(f).drop_last() =~= s.map_values(f));
        let rest = tree_remove_id(s, id);
        assert forall|j: int| 0 <= j < tree_remove_id(t, id).len() implies exists|a: int|
            0 <= a < t.len() && t[a].0 == (#[trigger] tree_remove_id(t, id)[j]).0 by {
            if j < rest.len() {
                assert(tree_remove_id(t, id)[j] == rest[j]);
                let a = choose|a: int| 0 <= a < s.len() && s[a].0 == rest[j].0;
                assert(t[a] == s[a]);
            } else {
                assert(tree_remove_id(t, id)[j].0 == t[t.len() - 1].0);
            }
        }
    }
}

// ----------------------------------------------------------------------------------------
// Executable side operations
// ----------------------------------------------------------------------------------------

/// A copy of a list of orders.
pub fn clone_orders(v: &Vec<SpotOrder>) -> (r: Vec<SpotOrder>)
    ensures
        r@ == v@,
{
    let mut r: Vec<SpotOrder> = Vec::new();
    let n = v.len();
    let mut i: usize = 0;
    while i < n
        invariant
            n == v@.len(),
            i <= n,
            r@ == v@.take(i as int),
        decreases n - i,
    {
        r.push(v[i].clone());
        assert(v@.take(i + 1) =~= v@.take(i as int).push(v@[i as int]));
        i = i + 1;
    }
    assert(v@.take(n as int) =~= v@);
    r
}

/// One side of the book: the orders resting at each price, in arrival order.
pub type SideMap = BTreeMap<u128, Vec<SpotOrder>>;

/// The prices of `s` in ascending order, where they can be so listed.
pub open spec fn sorted_prices(s: Set<u128>) -> Seq<u128> {
    choose|ps: Seq<u128>| ascending(ps, s)
}

/// The levels of a side's map, in ascending price.
pub open spec fn map_levels(m: Map<u128, Vec<SpotOrder>>) -> Seq<Level> {
    sorted_prices(m.dom()).map_values(|p: u128| (p, m[p]@))
}

/// The prices of a side's map are listed in ascending order.
pub open spec fn side_listed(m: Map<u128, Vec<SpotOrder>>) -> bool {
    ascending(sorted_prices(m.dom()), m.dom())
}

/// The prices of some levels, in order.
pub open spec fn level_prices(t: Seq<Level>) -> Seq<u128> {
    t.map_values(|l: Level| l.0)
}

/// Levels of strictly ascending prices are the levels of a map that holds exactly their
/// prices, each with that level's orders.
proof fn lemma_map_levels_of(m: Map<u128, Vec<SpotOrder>>, t: Seq<Level>)
    requires
        forall|i: int, j: int| 0 <= i < j < t.len() ==> t[i].0 < t[j].0,
        m.dom() == level_prices(t).to_set(),
        forall|i: int| 0 <= i < t.len() ==> m[#[trigger] t[i].0]@ == t[i].1,
    ensures
        side_listed(m),
        map_levels(m) == t,
{
    let ps = level_prices(t);
    assert forall|i: int, j: int| 0 <= i < j < ps.len() implies ps[i] < ps[j] by {
        assert(t[i].0 < t[j].0);
    }
    assert(ps.no_duplicates()) by {
        assert forall|i: int, j: int| 0 <= i < ps.len() && 0 <= j < ps.len() && i != j implies ps[i]
            != ps[j] by {
            if i < j {
                assert(t[i].0 < t[j].0);
            } else {
                assert(t[j].0 < t[i].0);
            }
        }
    }
    assert(ascending(ps, m.dom()));
    lemma_ascending_unique(sorted_prices(m.dom()), ps, m.dom());
    assert forall|i: int| 0 <= i < t.len() implies #[trigger] map_levels(m)[i] == t[i] by {
        assert(ps[i] == t[i].0);
        assert(m[t[i].0]@ == t[i].1);
    }
    assert(map_levels(m) =~= t);
}

/// The prices of a side's map, ascending.
pub fn map_prices(m: &SideMap) -> (r: Vec<u128>)
    ensures
        side_listed(m@),
        r@ == sorted_prices(m@.dom()),
{
    broadcast use vstd::std_specs::btree::group_btree_axioms;

    let mut r: Vec<u128> = Vec::new();
    proof {
        lemma_prices_ordered();
    }
    proof {
        axiom_spec_keys_iter(m);
    }
    let ghost keys = spec_keys_iter(m).remaining().unref();
    for x in it: m.keys()
        invariant
            keys == it.seq().unref(),
            r@ == it.seq().unref().take(it.index()),
    {
        r.push(*x);
    }
    assert(r@ =~= keys);
    proof {
        lemma_increasing(spec_keys_iter(m).remaining());
        assert(ascending(r@, m@.dom()));
        lemma_ascending_unique(sorted_prices(m@.dom()), r@, m@.dom());
    }
    r
}

/// The orders resting at `price` on a side.
pub fn level_at_price(m: &SideMap, price: u128) -> (r: &Vec<SpotOrder>)
    requires
        m@.contains_key(price),
    ensures
        *r == m@[price],
{
    broadcast use vstd::std_specs::btree::group_btree_axioms;

    proof {
        lemma_prices_ordered();
    }
    m.get(&price).unwrap()
}

/// Rests `order` on a side, after the orders already at its price.
fn add_to_tree(tree: &mut SideMap, order: SpotOrder)
    requires
        side_listed(old(tree)@),
        wf_side(map_levels(old(tree)@), order.order_type),
    ensures
        side_listed(final(tree)@),
        map_levels(final(tree)@) == tree_add(map_levels(old(tree)@), order),
        wf_side(map_levels(final(tree)@), order.order_type),
{
    broadcast use vstd::std_specs::btree::group_btree_axioms;

    proof {
        lemma_prices_ordered();
    }
    let ghost m0 = tree@;
    let ghost t = map_levels(m0);
    let ghost o = order;
    let price = order.price;
    let mut level = match tree.remove(&price) {
        Some(v) => v,
        None => Vec::new(),
    };
    let ghost prior = level@;
    assert(prior == (if m0.contains_key(price) {
        m0[price]@
    } else {
        Seq::<SpotOrder>::empty()
    }));
    level.push(order);
    tree.insert(price, level);
    proof {
        let ps = sorted_prices(m0.dom());
        let pos = insertion_point(t, price);
        lemma_insertion_point(t, price);
        lemma_tree_add_wf(t, o);
        let t2 = tree_add(t, o);
        assert(level_prices(t) =~= ps);
        assert(tree@ == m0.insert(price, tree@[price]));
        assert(tree@[price]@ == prior.push(o));
        if pos < t.len() && t[pos].0 == price {
            assert(ps.to_set().contains(ps[pos]));
            assert(level_prices(t2) =~= level_prices(t));
            assert(tree@.dom() =~= level_prices(t2).to_set());
            assert forall|i: int| 0 <= i < t2.len() implies tree@[#[trigger] t2[i].0]@ == t2[i].1 by {
                if i != pos {
                    if i < pos {
                        assert(t[i].0 < t[pos].0);
                    } else {
                        assert(t[pos].0 < t[i].0);
                    }
                }
            }
        } else {
            assert(!m0.contains_key(price)) by {
                if m0.contains_key(price) {
                    assert(ps.to_set().contains(price));
                    let k = choose|k: int| 0 <= k < ps.len() && ps[k] == price;
                    assert(t[k].0 == price);
                    if k > pos {
                        assert(t[pos].0 < t[k].0);
                    }
                }
            }
            assert(level_prices(t2) =~= level_prices(t).insert(pos, price));
            assert(tree@.dom() =~= level_prices(t2).to_set()) by {
                assert forall|x: u128| tree@.dom().contains(x) implies level_prices(t2).to_set().contains(x) by {
                    if x != price {
                        assert(ps.to_set().contains(x));
                        let k = choose|k: int| 0 <= k < ps.len() && ps[k] == x;
                        if k < pos {
                            assert(level_prices(t2)[k] == x);
                        } else {
                            assert(level_prices(t2)[k + 1] == x);
                        }
                    } else {
                        assert(level_prices(t2)[pos] == x);
                    }
                }
                assert forall|x: u128| level_prices(t2).to_set().contains(x) implies tree@.dom().contains(x) by {
                    let k = choose|k: int| 0 <= k < level_prices(t2).len() && level_prices(t2)[k] == x;
                    if k < pos {
                        assert(ps.to_set().contains(ps[k]));
                    } else if k > pos {
                        assert(ps.to_set().contains(ps[k - 1]));
                    }
                }
            }
            assert forall|i: int| 0 <= i < t2.len() implies tree@[#[trigger] t2[i].0]@ == t2[i].1 by {
                if i < pos {
                    assert(t2[i] == t[i]);
                    assert(ps.to_set().contains(ps[i]));
                } else if i > pos {
                    assert(t2[i] == t[i - 1]);
                    assert(ps.to_set().contains(ps[i - 1]));
                } else {
                    assert(prior.push(o) =~= seq![o]);
                }
            }
        }
        lemma_map_levels_of(tree@, t2);
    }
}

/// Moves a side's levels, in ascending price, out of its map, which is left empty.
fn take_levels(m: &mut SideMap) -> (r: Vec<PriceLevel>)
    ensures
        levels_view(r@) == map_levels(old(m)@),
{
    broadcast use vstd::std_specs::btree::group_btree_axioms;

    proof {
        lemma_prices_ordered();
    }
    let ghost m0 = m@;
    let ghost t = map_levels(m0);
    let prices = map_prices(m);
    let mut r: Vec<PriceLevel> = Vec::new();
    let n = prices.len();
    let mut i: usize = 0;
    while i < n
        invariant
            n == prices@.len(),
            i <= n,
            prices@ == sorted_prices(m0.dom()),
            side_listed(m0),
            t == map_levels(m0),
            r@.len() == i,
            levels_view(r@) == t.take(i as int),
            forall|k: int|
                i <= k < n ==> m@.contains_key(#[trigger] prices@[k]) && m@[prices@[k]] == m0[prices@[k]],
        decreases n - i,
    {
        let price = prices[i];
        assert(m@.contains_key(price));
        let ghost before = m@;
        let ghost rb = r@;
        match m.remove(&price) {
            Some(orders) => {
                r.push(PriceLevel { price, orders });
            },
            None => {
                assert(false);
            },
        }
        proof {
            assert(r@.len() == i + 1);
            assert(r@ =~= rb.push(r@[i as int]));
            assert(t.take(i + 1) =~= t.take(i as int).push(t[i as int]));
            assert(levels_view(r@) =~= levels_view(rb).push((r@[i as int].price, r@[i as int].orders@)));
            assert forall|k: int| i + 1 <= k < n implies m@.contains_key(#[trigger] prices@[k])
                && m@[prices@[k]] == m0[prices@[k]] by {
                assert(prices@[i as int] < prices@[k]);
                assert(before.contains_key(prices@[k]));
            }
        }
        i = i + 1;
    }
    assert(t.take(n as int) =~= t);
    r
}

/// A side's map holding the given levels, of strictly ascending prices.
fn levels_map(v: Vec<PriceLevel>) -> (r: SideMap)
    requires
        forall|i: int, j: int| 0 <= i < j < v@.len() ==> v@[i].price < v@[j].price,
    ensures
        side_listed(r@),
        map_levels(r@) == levels_view(v@),
{
    broadcast use vstd::std_specs::btree::group_btree_axioms;

    proof {
        lemma_prices_ordered();
    }
    let ghost lv = v@;
    let ghost t = levels_view(lv);
    let mut v = v;
    let mut r: SideMap = BTreeMap::new();
    while v.len() > 0
        invariant
            v@ == lv.take(v@.len() as int),
            v@.len() <= lv.len(),
            t == levels_view(lv),
            forall|i: int, j: int| 0 <= i < j < lv.len() ==> lv[i].price < lv[j].price,
            forall|x: u128|
                #[trigger] r@.contains_key(x) <==> exists|j: int| v@.len() <= j < lv.len() && lv[j].price == x,
            forall|j: int| v@.len() <= j < lv.len() ==> r@[#[trigger] lv[j].price]@ == lv[j].orders@,
        decreases v@.len(),
    {
        let ghost k = v@.len() - 1;
        let level = v.pop().unwrap();
        proof {
            assert(level == lv[k]);
            assert(v@ =~= lv.take(k));
        }
        let ghost rb = r@;
        r.insert(level.price, level.orders);
        proof {
            assert forall|x: u128| #[trigger] r@.contains_key(x) <==> exists|j: int|
                k <= j < lv.len() && lv[j].price == x by {
                if r@.contains_key(x) && x != lv[k].price {
                    assert(rb.contains_key(x));
                }
                if exists|j: int| k <= j < lv.len() && lv[j].price == x {
                    let j = choose|j: int| k <= j < lv.len() && lv[j].price == x;
                    if j > k {
                        assert(rb.contains_key(x));
                    }
                }
            }
            assert forall|j: int| k <= j < lv.len() implies r@[#[trigger] lv[j].price]@ == lv[j].orders@ by {
                if j > k {
                    assert(lv[k].price < lv[j].price);
                }
            }
        }
    }
    proof {
        assert forall|i: int, j: int| 0 <= i < j < t.len() implies t[i].0 < t[j].0 by {
            assert(lv[i].price < lv[j].price);
        }
        assert(r@.dom() =~= level_prices(t).to_set()) by {
            assert forall|x: u128| r@.dom().contains(x) implies level_prices(t).to_set().contains(x) by {
                let j = choose|j: int| 0 <= j < lv.len() && lv[j].price == x;
                assert(level_prices(t)[j] == x);
            }
            assert forall|x: u128| level_prices(t).to_set().contains(x) implies r@.dom().contains(x) by {
                let j = choose|j: int| 0 <= j < level_prices(t).len() && level_prices(t)[j] == x;
                assert(lv[j].price == x);
            }
        }
        assert forall|i: int| 0 <= i < t.len() implies r@[#[trigger] t[i].0]@ == t[i].1 by {
            assert(t[i].0 == lv[i].price);
        }
        lemma_map_levels_of(r@, t);
    }
    r
}

fn remove_levels_with_id(tree: &mut Vec<PriceLevel>, id: &str, Ghost(side): Ghost<OrderType>)
    requires
        wf_side(levels_view(old(tree)@), side),
    ensures
        levels_view(final(tree)@) == tree_remove_id(levels_view(old(tree)@), id@),
        wf_side(levels_view(final(tree)@), side),
{
    let ghost t = levels_view(tree@);
    let ghost f = strip_id(id@);
    let ghost g = nonempty_level();
    let ghost p = id_differs(id@);
    let mut kept_levels: Vec<PriceLevel> = Vec::new();
    let n = tree.len();
    let mut i: usize = 0;
    while i < n
        invariant
            n == tree@.len(),
            t == levels_view(tree@),
            t.len() == n,
            f == strip_id(id@),
            g == nonempty_level(),
            p == id_differs(id@),
            i <= n,
            levels_view(kept_levels@) == t.take(i as int).map_values(f).filter(g),
        decreases n - i,
    {
        let level = &tree[i];
        let m = level.orders.len();
        let mut kept: Vec<SpotOrder> = Vec::new();
        let mut j: usize = 0;
        while j < m
            invariant
                m == level.orders@.len(),
                p == id_differs(id@),
                j <= m,
                kept@ == level.orders@.take(j as int).filter(p),
            decreases m - j,
        {
            let o = &level.orders[j];
            assert(level.orders@.take(j + 1) =~= level.orders@.take(j as int).push(*o));
            proof {
                level.orders@.take(j as int).lemma_filter_push(*o, p);
            }
            if !str_eq(o.id.as_str(), id) {
                kept.push(o.clone());
            }
            j = j + 1;
        }
        assert(level.orders@.take(m as int) =~= level.orders@);
        assert(t.take(i + 1) =~= t.take(i as int).push(t[i as int]));
        assert(t.take(i + 1).map_values(f) =~= t.take(i as int).map_values(f).push(
            f(t[i as int]),
        ));
        proof {
            t.take(i as int).map_values(f).lemma_filter_push(f(t[i as int]), g);
        }
        if kept.len() > 0 {
            kept_levels.push(PriceLevel { price: level.price, orders: kept });
        }
        assert(levels_view(kept_levels@) =~= t.take(i + 1).map_values(f).filter(g));
        i = i + 1;
    }
    assert(t.take(n as int) =~= t);
    *tree = kept_levels;
    proof {
        lemma_tree_remove_wf(t, id@, side);
    }
}

fn find_in_tree(tree: &SideMap, id: &str) -> (r: Option<SpotOrder>)
    ensures
        r == find_by_id(orders_of(map_levels(tree@)), id@),
{
    let ghost t = map_levels(tree@);
    let prices = map_prices(tree);
    let n = prices.len();
    let mut i: usize = 0;
    while i < n
        invariant
            n == prices@.len(),
            prices@ == sorted_prices(tree@.dom()),
            side_listed(tree@),
            t == map_levels(tree@),
            t.len() == n,
            i <= n,
            find_by_id(orders_of(t.take(i as int)), id@) is None,
        decreases n - i,
    {
        let level = level_at_price(tree, prices[i]);
        let m = level.len();
        let mut j: usize = 0;
        while j < m
            invariant
                m == level@.len(),
                t == map_levels(tree@),
                t.len() == n,
                i < n,
                level@ == t[i as int].1,
                find_by_id(orders_of(t.take(i as int)), id@) is None,
                j <= m,
                find_by_id(level@.take(j as int), id@) is None,
            decreases m - j,
        {
            let o = &level[j];
            if str_eq(o.id.as_str(), id) {
                proof {
                    let s = level@;
                    assert(s =~= s.take(j as int) + s.skip(j as int));
                    lemma_find_concat(s.take(j as int), s.skip(j as int), id@);
                    assert(s.skip(j as int)[0] == *o);
                    lemma_orders_of_split(t, i as int);
                    lemma_find_concat(orders_of(t.take(i as int)), s, id@);
                    lemma_find_concat(
                        orders_of(t.take(i as int)) + s,
                        orders_of(t.skip(i + 1)),
                        id@,
                    );
                }
                return Some(o.clone());
            }
            proof {
                let s = level@;
                assert(s.take(j + 1) =~= s.take(j as int) + seq![*o]);
                lemma_find_concat(s.take(j as int), seq![*o], id@);
                reveal_with_fuel(find_by_id, 2);
                assert(seq![*o].drop_first().len() == 0);
                assert(find_by_id(seq![*o], id@) is None);
            }
            j = j + 1;
        }
        proof {
            assert(level@.take(m as int) =~= level@);
            assert(t.take(i + 1) =~= t.take(i as int).push(t[i as int]));
            lemma_orders_of_push(t.take(i as int), t[i as int]);
            lemma_find_concat(orders_of(t.take(i as int)), t[i as int].1, id@);
        }
        i = i + 1;
    }
    assert(t.take(n as int) =~= t);
    None
}

fn collect_range(tree: &SideMap, price_min: u128, price_max: u128) -> (r: Vec<SpotOrder>)
    ensures
        r@ == orders_of(levels_in_range(map_levels(tree@), price_min, price_max)),
{
    let ghost t = map_levels(tree@);
    let prices = map_prices(tree);
    let ghost g = price_within(price_min, price_max);
    let mut result: Vec<SpotOrder> = Vec::new();
    let n = prices.len();
    let mut i: usize = 0;
    while i < n
        invariant
            n == prices@.len(),
            prices@ == sorted_prices(tree@.dom()),
            side_listed(tree@),
            t == map_levels(tree@),
            t.len() == n,
            g == price_within(price_min, price_max),
            i <= n,
            result@ == orders_of(t.take(i as int).filter(g)),
        decreases n - i,
    {
        let price = prices[i];
        assert(t.take(i + 1) =~= t.take(i as int).push(t[i as int]));
        proof {
            t.take(i as int).lemma_filter_push(t[i as int], g);
        }
        if price_min <= price && price <= price_max {
            let mut copy = clone_orders(level_at_price(tree, price));
            result.append(&mut copy);
            proof {
                lemma_orders_of_push(t.take(i as int).filter(g), t[i as int]);
            }
        }
        i = i + 1;
    }
    assert(t.take(n as int) =~= t);
    result
}

// ----------------------------------------------------------------------------------------
// The book
// ----------------------------------------------------------------------------------------

/// The resting buy and sell orders: for each side, the orders at each price in arrival order,
/// the prices kept in ascending order.
pub struct OrderBook {
    buy_orders: SideMap,
    sell_orders: SideMap,
}

impl View for OrderBook {
    type V = BookState;

    closed spec fn view(&self) -> BookState {
        (map_levels(self.buy_orders@), map_levels(self.sell_orders@))
    }
}

impl Clone for OrderBook {
    fn clone(&self) -> (r: Self)
        ensures
            r@ == self@,
            self.wf() ==> r.wf(),
    {
        OrderBook { buy_orders: self.buy_orders.clone(), sell_orders: self.sell_orders.clone() }
    }
}

impl Default for OrderBook {
    fn default() -> (r: Self)
        ensures
            r@ == (Seq::<Level>::empty(), Seq::<Level>::empty()),
            r.wf(),
    {
        let r = OrderBook { buy_orders: BTreeMap::new(), sell_orders: BTreeMap::new() };
        proof {
            assert(level_prices(Seq::<Level>::empty()).to_set() =~= Set::<u128>::empty());
            assert(r.buy_orders@.dom() =~= Set::<u128>::empty());
            assert(r.sell_orders@.dom() =~= Set::<u128>::empty());
            lemma_map_levels_of(r.buy_orders@, Seq::<Level>::empty());
            lemma_map_levels_of(r.sell_orders@, Seq::<Level>::empty());
        }
        r
    }
}

impl OrderBook {
    /// Both sides' prices are listed in ascending order.
    pub closed spec fn listed(&self) -> bool {
        side_listed(self.buy_orders@) && side_listed(self.sell_orders@)
    }

    /// The book's invariant: both sides well formed.
    pub open spec fn wf(&self) -> bool {
        book_wf(self@) && self.listed()
    }

    /// An empty book.
    pub fn new() -> (r: Self)
        ensures
            r@ == (Seq::<Level>::empty(), Seq::<Level>::empty()),
            r.wf(),
    {
        Self::default()
    }

    /// Rests `order` on its side, after the orders already at its price.
    pub fn add_order(&mut self, order: SpotOrder)
        requires
            old(self).wf(),
        ensures
            final(self).wf(),
            final(self)@ == book_add(old(self)@, order),
    {
        match order.order_type {
            OrderType::Buy => add_to_tree(&mut self.buy_orders, order),
            OrderType::Sell => add_to_tree(&mut self.sell_orders, order),
        }
    }

    /// The orders of one side priced within `[price_min, price_max]`, in ascending price.
    pub fn get_orders_in_range(&self, price_min: u128, price_max: u128, order_type: OrderType) -> (r:
        Vec<SpotOrder>)
        requires
            price_min <= price_max,
        ensures
            r@ == book_range(self@, price_min, price_max, order_type),
    {
        match order_type {
            OrderType::Buy => collect_range(&self.buy_orders, price_min, price_max),
            OrderType::Sell => collect_range(&self.sell_orders, price_min, price_max),
        }
    }

    /// The buy side: the orders at each price, prices ascending.
    pub fn get_buy_orders(&self) -> (r: &SideMap)
        ensures
            map_levels(r@) == self@.0,
    {
        &self.buy_orders
    }

    /// The sell side: the orders at each price, prices ascending.
    pub fn get_sell_orders(&self) -> (r: &SideMap)
        ensures
            map_levels(r@) == self@.1,
    {
        &self.sell_orders
    }

    /// The first order with id `id` on one side, scanning in ascending price.
    pub fn get_order(&self, id: &str, order_type: OrderType) -> (r: Option<SpotOrder>)
        ensures
            r == book_get(self@, id@, order_type),
    {
        match order_type {
            OrderType::Buy => find_in_tree(&self.buy_orders, id),
            OrderType::Sell => find_in_tree(&self.sell_orders, id),
        }
    }

    /// Replaces every order with `order.id` on `order`'s side by `order`.
    pub fn update_order(&mut self, order: SpotOrder)
        requires
            old(self).wf(),
        ensures
            final(self).wf(),
            final(self)@ == book_update(old(self)@, order),
    {
        let id = order.id.clone();
        self.remove_order(id.as_str(), Some(order.order_type));
        self.add_order(order);
    }

    /// Removes every order with id `id` from one side, or from both when no side is given.
    pub fn remove_order(&mut self, id: &str, order_type: Option<OrderType>)
        requires
            old(self).wf(),
        ensures
            final(self).wf(),
            final(self)@ == book_remove(old(self)@, id@, order_type),
    {
        match order_type {
            Some(OrderType::Buy) => {
                Self::remove_order_from_tree(&mut self.buy_orders, id, Ghost(OrderType::Buy));
            },
            Some(OrderType::Sell) => {
                Self::remove_order_from_tree(&mut self.sell_orders, id, Ghost(OrderType::Sell));
            },
            None => {
                Self::remove_order_from_tree(&mut self.buy_orders, id, Ghost(OrderType::Buy));
                Self::remove_order_from_tree(&mut self.sell_orders, id, Ghost(OrderType::Sell));
            },
        }
    }

    /// Removes every order with id `id` from one side's levels, dropping levels left empty.
    fn remove_order_from_tree(target_tree: &mut SideMap, id: &str, Ghost(side): Ghost<OrderType>)
        requires
            wf_side(map_levels(old(target_tree)@), side),
        ensures
            side_listed(final(target_tree)@),
            map_levels(final(target_tree)@) == tree_remove_id(map_levels(old(target_tree)@), id@),
            wf_side(map_levels(final(target_tree)@), side),
    {
        let mut levels = take_levels(target_tree);
        remove_levels_with_id(&mut levels, id, Ghost(side));
        proof {
            let t = levels_view(levels@);
            assert forall|i: int, j: int| 0 <= i < j < levels@.len() implies levels@[i].price < levels@[j].price by {
                assert(t[i].0 < t[j].0);
            }
        }
        *target_tree = levels_map(levels);
    }
}

// ----------------------------------------------------------------------------------------
// Laws of the book
// ----------------------------------------------------------------------------------------

proof fn lemma_find_none_concat(a: Seq<SpotOrder>, b: Seq<SpotOrder>, id: Seq<char>)
    ensures
        find_by_id(a + b, id) is None <==> (find_by_id(a, id) is None && find_by_id(b, id) is None),
{
    lemma_find_concat(a, b, id);
}

/// Looking up the id of a freshly added order on its side finds that order, when no order
/// with that id rested on that side before.
pub proof fn lemma_get_after_add(s: BookState, o: SpotOrder)
    requires
        book_get(s, o.id@, o.order_type) is None,
    ensures
        book_get(book_add(s, o), o.id@, o.order_type) == Some(o),
{
    let t = state_side(s, o.order_type);
    let id = o.id@;
    let pos = insertion_point(t, o.price);
    lemma_insertion_point(t, o.price);
    let r = tree_add(t, o);
    assert(state_side(book_add(s, o), o.order_type) == r);
    reveal_with_fuel(find_by_id, 2);
    if pos < t.len() && t[pos].0 == o.price {
        lemma_orders_of_split(t, pos);
        lemma_orders_of_split(r, pos);
        assert(r.take(pos) =~= t.take(pos));
        assert(r.skip(pos + 1) =~= t.skip(pos + 1));
        lemma_find_none_concat(orders_of(t.take(pos)) + t[pos].1, orders_of(t.skip(pos + 1)), id);
        lemma_find_none_concat(orders_of(t.take(pos)), t[pos].1, id);
        lemma_find_concat(t[pos].1, seq![o], id);
        lemma_find_concat(orders_of(t.take(pos)), t[pos].1.push(o), id);
        lemma_find_concat(orders_of(t.take(pos)) + t[pos].1.push(o), orders_of(t.skip(pos + 1)), id);
        assert(t[pos].1.push(o) =~= t[pos].1 + seq![o]);
    } else {
        assert(t =~= t.take(pos) + t.skip(pos));
        lemma_orders_of_concat(t.take(pos), t.skip(pos));
        lemma_orders_of_split(r, pos);
        assert(r.take(pos) =~= t.take(pos));
        assert(r.skip(pos + 1) =~= t.skip(pos));
        lemma_orders_of_single((o.price, seq![o]));
        lemma_find_none_concat(orders_of(t.take(pos)), orders_of(t.skip(pos)), id);
        lemma_find_concat(orders_of(t.take(pos)), seq![o], id);
        lemma_find_concat(orders_of(t.take(pos)) + seq![o], orders_of(t.skip(pos)), id);
    }
}

/// Removing an id keeps every other order of the side, in the same order.
pub proof fn lemma_remove_keeps_others(t: Seq<Level>, id: Seq<char>)
    ensures
        orders_of(tree_remove_id(t, id)) == orders_of(t).filter(id_differs(id)),
    decreases t.len(),
{
    reveal(Seq::filter);
    let f = strip_id(id);
    let g = nonempty_level();
    if t.len() == 0 {
        assert(tree_remove_id(t, id) =~= Seq::<Level>::empty());
        assert(orders_of(t) =~= Seq::<SpotOrder>::empty());
        assert(orders_of(Seq::<Level>::empty()) =~= Seq::<SpotOrder>::empty());
    } else {
        let s = t.drop_last();
        let l = t.last();
        lemma_remove_keeps_others(s, id);
        assert(t =~= s.push(l));
        assert(t.map_values(f) =~= s.map_values(f).push(f(l)));
        s.map_values(f).lemma_filter_push(f(l), g);
        lemma_orders_of_push(s, l);
        Seq::filter_distributes_over_add(orders_of(s), l.1, id_differs(id));
        if g(f(l)) {
            lemma_orders_of_push(tree_remove_id(s, id), f(l));
        } else {
            assert(without_id(l.1, id) =~= Seq::<SpotOrder>::empty());
        }
    }
}

/// After removal, no order with that id is found on a side the removal covered.
pub proof fn lemma_get_after_remove(s: BookState, id: Seq<char>, side: Option<OrderType>, t: OrderType)
    requires
        side is None || side == Some(t),
    ensures
        book_get(book_remove(s, id, side), id, t) is None,
{
    let before = state_side(s, t);
    assert(state_side(book_remove(s, id, side), t) == tree_remove_id(before, id));
    lemma_remove_keeps_others(before, id);
    let r = orders_of(before).filter(id_differs(id));
    assert forall|k: int| 0 <= k < r.len() implies r[k].id@ != id by {
        orders_of(before).lemma_filter_pred(id_differs(id), k);
    }
    lemma_find_spec(r, id);
}

/// Updating an order makes it the one found under its id on its side.
pub proof fn lemma_get_after_update(s: BookState, o: SpotOrder)
    ensures
        book_get(book_update(s, o), o.id@, o.order_type) == Some(o),
{
    let removed = book_remove(s, o.id@, Some(o.order_type));
    lemma_get_after_remove(s, o.id@, Some(o.order_type), o.order_type);
    lemma_get_after_add(removed, o);
}

/// What a lookup finds carries the id looked up and rests on the side looked at.
pub proof fn lemma_get_found(s: BookState, id: Seq<char>, t: OrderType)
    requires
        book_wf(s),
        book_get(s, id, t) is Some,
    ensures
        book_get(s, id, t)->0.id@ == id,
        book_get(s, id, t)->0.order_type == t,
{
    let side = state_side(s, t);
    let all = orders_of(side);
    lemma_find_spec(all, id);
    lemma_full_range(s, t);
    lemma_range_sorted(side, t, 0, u128::MAX);
    let x = book_get(s, id, t)->0;
    let k = choose|k: int| 0 <= k < all.len() && all[k] == x;
    assert(book_range(s, 0, u128::MAX, t)[k] == x);
}

/// Adding an order puts exactly that one order among the orders of its side.
pub proof fn lemma_add_inserts(t: Seq<Level>, o: SpotOrder)
    ensures
        exists|k: int|
            0 <= k <= orders_of(t).len() && orders_of(tree_add(t, o)) == orders_of(t).insert(k, o),
        orders_of(tree_add(t, o)).to_multiset() == orders_of(t).to_multiset().insert(o),
{
    let pos = insertion_point(t, o.price);
    lemma_insertion_point(t, o.price);
    let r = tree_add(t, o);
    let a = orders_of(t.take(pos));
    if pos < t.len() && t[pos].0 == o.price {
        lemma_orders_of_split(t, pos);
        lemma_orders_of_split(r, pos);
        assert(r.take(pos) =~= t.take(pos));
        assert(r.skip(pos + 1) =~= t.skip(pos + 1));
        let k: int = (a.len() + t[pos].1.len()) as int;
        assert(orders_of(r) =~= orders_of(t).insert(k, o));
        vstd::seq_lib::to_multiset_insert(orders_of(t), k, o);
    } else {
        assert(t =~= t.take(pos) + t.skip(pos));
        lemma_orders_of_concat(t.take(pos), t.skip(pos));
        lemma_orders_of_split(r, pos);
        assert(r.take(pos) =~= t.take(pos));
        assert(r.skip(pos + 1) =~= t.skip(pos));
        lemma_orders_of_single((o.price, seq![o]));
        let k = a.len() as int;
        assert(orders_of(r) =~= orders_of(t).insert(k, o));
        vstd::seq_lib::to_multiset_insert(orders_of(t), k, o);
    }
}

/// The full price range lists every order of a side.
pub proof fn lemma_full_range(s: BookState, side: OrderType)
    ensures
        book_range(s, 0, u128::MAX, side) == orders_of(state_side(s, side)),
{
    let t = state_side(s, side);
    lemma_filter_all(t, price_within(0, u128::MAX));
}

proof fn lemma_filter_all(t: Seq<Level>, p: spec_fn(Level) -> bool)
    requires
        forall|l: Level| #[trigger] p(l),
    ensures
        t.filter(p) == t,
    decreases t.len(),
{
    reveal(Seq::filter);
    if t.len() > 0 {
        lemma_filter_all(t.drop_last(), p);
        assert(t.drop_last().push(t.last()) =~= t);
    }
}

/// A filter keeps a sequence whole when every element passes it.
proof fn lemma_filter_keeps_all<A>(s: Seq<A>, p: spec_fn(A) -> bool)
    requires
        forall|i: int| 0 <= i < s.len() ==> #[trigger] p(s[i]),
    ensures
        s.filter(p) == s,
    decreases s.len(),
{
    reveal(Seq::filter);
    if s.len() > 0 {
        lemma_filter_keeps_all(s.drop_last(), p);
        assert(p(s[s.len() - 1]));
        assert(s.drop_last().push(s.last()) =~= s);
    }
}

/// A well-formed side holding no order of id `id` is left whole by removing `id`.
proof fn lemma_remove_absent(t: Seq<Level>, id: Seq<char>, side: OrderType)
    requires
        wf_side(t, side),
        forall|i: int, k: int| 0 <= i < t.len() && 0 <= k < t[i].1.len() ==> (#[trigger] t[i].1[k]).id@ != id,
    ensures
        tree_remove_id(t, id) == t,
{
    let f = strip_id(id);
    assert forall|i: int| 0 <= i < t.len() implies #[trigger] f(t[i]) == t[i] by {
        assert forall|k: int| 0 <= k < t[i].1.len() implies #[trigger] id_differs(id)(t[i].1[k]) by {}
        lemma_filter_keeps_all(t[i].1, id_differs(id));
    }
    assert(t.map_values(f) =~= t);
    lemma_filter_keeps_all(t, nonempty_level());
}

/// Adding an order whose id is absent from its side, then removing that id from that side,
/// gives back the book as it was.
#[verifier::spinoff_prover]
#[verifier::rlimit(40)]
pub proof fn lemma_remove_undoes_add(s: BookState, o: SpotOrder)
    requires
        book_wf(s),
        book_get(s, o.id@, o.order_type) is None,
    ensures
        book_remove(book_add(s, o), o.id@, Some(o.order_type)) == s,
{
    let t = state_side(s, o.order_type);
    let id = o.id@;
    let f = strip_id(id);
    let g = nonempty_level();
    let pos = insertion_point(t, o.price);
    lemma_insertion_point(t, o.price);
    lemma_find_spec(orders_of(t), id);
    assert forall|i: int, k: int| 0 <= i < t.len() && 0 <= k < t[i].1.len() implies (
    #[trigger] t[i].1[k]).id@ != id by {
        lemma_orders_of_split(t, i);
        let j = orders_of(t.take(i)).len() + k;
        assert(orders_of(t)[j] == t[i].1[k]);
    }
    lemma_remove_absent(t, id, o.order_type);
    let u = tree_add(t, o);
    let stripped_o = without_id(seq![o], id);
    assert(stripped_o =~= Seq::<SpotOrder>::empty()) by {
        reveal_with_fuel(Seq::filter, 2);
        assert(seq![o].drop_last() =~= Seq::<SpotOrder>::empty());
    }
    if pos < t.len() && t[pos].0 == o.price {
        assert(u.map_values(f) =~= t.map_values(f)) by {
            t[pos].1.lemma_filter_push(o, id_differs(id));
        }
    } else {
        assert(u =~= t.take(pos) + (seq![(o.price, seq![o])] + t.skip(pos)));
        assert(u.map_values(f) =~= t.take(pos).map_values(f) + (seq![f((o.price, seq![o]))]
            + t.skip(pos).map_values(f)));
        assert(t.map_values(f) =~= t.take(pos).map_values(f) + t.skip(pos).map_values(f));
        Seq::filter_distributes_over_add(
            t.take(pos).map_values(f),
            seq![f((o.price, seq![o]))] + t.skip(pos).map_values(f),
            g,
        );
        Seq::filter_distributes_over_add(seq![f((o.price, seq![o]))], t.skip(pos).map_values(f), g);
        Seq::filter_distributes_over_add(t.take(pos).map_values(f), t.skip(pos).map_values(f), g);
        assert(seq![f((o.price, seq![o]))].filter(g) =~= Seq::<Level>::empty()) by {
            reveal_with_fuel(Seq::filter, 2);
            assert(seq![f((o.price, seq![o]))].drop_last() =~= Seq::<Level>::empty());
        }
        assert(seq![f((o.price, seq![o]))].filter(g) + t.skip(pos).map_values(f).filter(g)
            =~= t.skip(pos).map_values(f).filter(g));
    }
    assert(tree_remove_id(u, id) == tree_remove_id(t, id));
}

/// A range query lists orders priced within the range, in ascending price.
pub proof fn lemma_range_sorted(t: Seq<Level>, side: OrderType, min: u128, max: u128)
    requires
        wf_side(t, side),
    ensures
        ({
            let r = orders_of(levels_in_range(t, min, max));
            &&& forall|i: int| 0 <= i < r.len() ==> min <= (#[trigger] r[i]).price <= max
            &&& forall|i: int| 0 <= i < r.len() ==> (#[trigger] r[i]).order_type == side
            &&& forall|i: int, j: int| 0 <= i < j < r.len() ==> r[i].price <= r[j].price
        }),
{
    lemma_range_sorted_rec(t, side, min, max);
}

proof fn lemma_range_sorted_rec(t: Seq<Level>, side: OrderType, min: u128, max: u128)
    requires
        wf_side(t, side),
    ensures
        ({
            let r = orders_of(levels_in_range(t, min, max));
            &&& forall|i: int| 0 <= i < r.len() ==> min <= (#[trigger] r[i]).price <= max
            &&& forall|i: int| 0 <= i < r.len() ==> (#[trigger] r[i]).order_type == side
            &&& forall|i: int, j: int| 0 <= i < j < r.len() ==> r[i].price <= r[j].price
            &&& forall|i: int|
                0 <= i < r.len() ==> exists|a: int| 0 <= a < t.len() && t[a].0 == (#[trigger] r[i]).price
        }),
    decreases t.len(),
{
    reveal(Seq::filter);
    let g = price_within(min, max);
    if t.len() == 0 {
        assert(levels_in_range(t, min, max) =~= Seq::<Level>::empty());
        assert(orders_of(Seq::<Level>::empty()) =~= Seq::<SpotOrder>::empty());
    } else {
        let s = t.drop_last();
        let l = t.last();
        assert(wf_side(s, side)) by {
            assert forall|i: int, k: int|
                0 <= i < s.len() && 0 <= k < s[i].1.len() implies (#[trigger] s[i].1[k]).price
                == s[i].0 && s[i].1[k].order_type == side by {
                assert(s[i] == t[i]);
            }
        }
        lemma_range_sorted_rec(s, side, min, max);
        assert(t =~= s.push(l));
        s.lemma_filter_push(l, g);
        let rs = orders_of(levels_in_range(s, min, max));
        if g(l) {
            lemma_orders_of_push(levels_in_range(s, min, max), l);
            let r = rs + l.1;
            assert forall|i: int| 0 <= i < r.len() implies exists|a: int|
                0 <= a < t.len() && t[a].0 == (#[trigger] r[i]).price by {
                if i < rs.len() {
                    assert(r[i] == rs[i]);
                    let a = choose|a: int| 0 <= a < s.len() && s[a].0 == rs[i].price;
                    assert(t[a] == s[a]);
                } else {
                    assert(r[i] == t[t.len() - 1].1[i - rs.len()]);
                }
            }
            assert forall|i: int, j: int| 0 <= i < j < r.len() implies r[i].price <= r[j].price by {
                if j >= rs.len() {
                    assert(r[j] == t[t.len() - 1].1[j - rs.len()]);
                    if i < rs.len() {
                        assert(r[i] == rs[i]);
                        let a = choose|a: int| 0 <= a < s.len() && s[a].0 == rs[i].price;
                        assert(t[a] == s[a]);
                    } else {
                        assert(r[i] == t[t.len() - 1].1[i - rs.len()]);
                    }
                } else {
                    assert(r[i] == rs[i]);
                    assert(r[j] == rs[j]);
                }
            }
            assert forall|i: int| 0 <= i < r.len() implies min <= (#[trigger] r[i]).price <= max
                && r[i].order_type == side by {
                if i >= rs.len() {
                    assert(r[i] == t[t.len() - 1].1[i - rs.len()]);
                } else {
                    assert(r[i] == rs[i]);
                }
            }
        } else {
            assert forall|i: int| 0 <= i < rs.len() implies exists|a: int|
                0 <= a < t.len() && t[a].0 == (#[trigger] rs[i]).price by {
                let a = choose|a: int| 0 <= a < s.len() && s[a].0 == rs[i].price;
                assert(t[a] == s[a]);
            }
        }
    }
}

} // verus!
