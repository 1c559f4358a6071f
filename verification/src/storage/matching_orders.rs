//! The ids of orders currently handed to a matcher.
use crate::text::str_eq;
use vstd::prelude::*;

verus! {

/// The set of ids held by a list of strings.
pub open spec fn id_set(v: Seq<String>) -> Set<Seq<char>> {
    Set::new(|s: Seq<char>| exists|i: int| 0 <= i < v.len() && v[i]@ == s)
}

/// No id occurs twice in the list.
pub open spec fn distinct_ids(v: Seq<String>) -> bool {
    forall|i: int, j: int| 0 <= i < j < v.len() ==> v[i]@ != v[j]@
}

/// A set of order ids.
pub struct MatchingOrders {
    orders: Vec<String>,
}

impl View for MatchingOrders {
    type V = Set<Seq<char>>;

    closed spec fn view(&self) -> Set<Seq<char>> {
        id_set(self.orders@)
    }
}

impl Clone for MatchingOrders {
    fn clone(&self) -> (r: Self)
        ensures
            r@ == self@,
            r.wf() == self.wf(),
    {
        MatchingOrders { orders: self.get_all_unchecked() }
    }
}

impl Default for MatchingOrders {
    fn default() -> (r: Self)
        ensures
            r@ == Set::<Seq<char>>::empty(),
            r.wf(),
    {
        let r = MatchingOrders { orders: Vec::new() };
        assert(id_set(r.orders@) =~= Set::<Seq<char>>::empty());
        r
    }
}

impl MatchingOrders {
    /// The set's invariant: every id is held once.
    pub closed spec fn wf(&self) -> bool {
        distinct_ids(self.orders@)
    }

    /// An empty set.
    pub fn new() -> (r: Self)
        ensures
            r@ == Set::<Seq<char>>::empty(),
            r.wf(),
    {
        Self::default()
    }

    /// Position of `order_id` in the list, if present.
    fn position(&self, order_id: &str) -> (r: Option<usize>)
        ensures
            match r {
                Some(i) => i < self.orders@.len() && self.orders@[i as int]@ == order_id@,
                None => forall|i: int| 0 <= i < self.orders@.len() ==> self.orders@[i]@ != order_id@,
            },
    {
        let n = self.orders.len();
        let mut i: usize = 0;
        while i < n
            invariant
                n == self.orders@.len(),
                i <= n,
                forall|k: int| 0 <= k < i ==> self.orders@[k]@ != order_id@,
            decreases n - i,
        {
            if str_eq(self.orders[i].as_str(), order_id) {
                return Some(i);
            }
            i = i + 1;
        }
        None
    }

    /// Puts `order_id` in the set.
    pub fn add(&mut self, order_id: &str)
        requires
            old(self).wf(),
        ensures
            final(self).wf(),
            final(self)@ == old(self)@.insert(order_id@),
    {
        match self.position(order_id) {
            Some(_) => {
                assert(id_set(self.orders@) =~= id_set(self.orders@).insert(order_id@));
            },
            None => {
                let ghost before = self.orders@;
                self.orders.push(order_id.to_owned());
                assert forall|s: Seq<char>| #[trigger] id_set(self.orders@).contains(s) <==> id_set(before).insert(
                    order_id@,
                ).contains(s) by {
                    if s == order_id@ {
                        assert(self.orders@[before.len() as int]@ == s);
                    } else if id_set(before).contains(s) {
                        let i = choose|i: int| 0 <= i < before.len() && before[i]@ == s;
                        assert(self.orders@[i] == before[i]);
                    } else if id_set(self.orders@).contains(s) {
                        let i = choose|i: int| 0 <= i < self.orders@.len() && self.orders@[i]@ == s;
                        assert(self.orders@[i] == before[i]);
                    }
                }
                assert(id_set(self.orders@) =~= id_set(before).insert(order_id@));
            },
        }
    }

    /// Takes `order_id` out of the set.
    pub fn remove(&mut self, order_id: &str)
        requires
            old(self).wf(),
        ensures
            final(self).wf(),
            final(self)@ == old(self)@.remove(order_id@),
    {
        match self.position(order_id) {
            Some(i) => {
                let ghost before = self.orders@;
                self.orders.remove(i);
                assert forall|s: Seq<char>| #[trigger] id_set(self.orders@).contains(s) <==> id_set(before).remove(
                    order_id@,
                ).contains(s) by {
                    if id_set(self.orders@).contains(s) {
                        let k = choose|k: int| 0 <= k < self.orders@.len() && self.orders@[k]@ == s;
                        if k < i {
                            assert(self.orders@[k] == before[k]);
                        } else {
                            assert(self.orders@[k] == before[k + 1]);
                        }
                    }
                    if id_set(before).remove(order_id@).contains(s) {
                        let k = choose|k: int| 0 <= k < before.len() && before[k]@ == s;
                        if k < i {
                            assert(self.orders@[k] == before[k]);
                        } else {
                            assert(self.orders@[k - 1] == before[k]);
                        }
                    }
                }
                assert(id_set(self.orders@) =~= id_set(before).remove(order_id@));
            },
            None => {
                assert(id_set(self.orders@) =~= id_set(self.orders@).remove(order_id@));
            },
        }
    }

    /// Whether `order_id` is in the set.
    pub fn contains(&self, order_id: &str) -> (r: bool)
        ensures
            r == self@.contains(order_id@),
    {
        match self.position(order_id) {
            Some(_) => true,
            None => false,
        }
    }

    /// Every id of the set, each once.
    pub fn get_all(&self) -> (r: Vec<String>)
        requires
            self.wf(),
        ensures
            id_set(r@) == self@,
            distinct_ids(r@),
    {
        self.get_all_unchecked()
    }

    fn get_all_unchecked(&self) -> (r: Vec<String>)
        ensures
            r@ == self.orders@,
    {
        let mut r: Vec<String> = Vec::new();
        let n = self.orders.len();
        let mut i: usize = 0;
        while i < n
            invariant
                n == self.orders@.len(),
                i <= n,
                r@ == self.orders@.take(i as int),
            decreases n - i,
        {
            r.push(self.orders[i].clone());
            assert(self.orders@.take(i + 1) =~= self.orders@.take(i as int).push(self.orders@[i as int]));
            i = i + 1;
        }
        assert(self.orders@.take(n as int) =~= self.orders@);
        r
    }
}

/// After `add(id)`, `contains(id)` answers true; after `remove(id)` it answers false; and
/// neither touches any other id.
pub proof fn lemma_add_remove_contains(s: Set<Seq<char>>, id: Seq<char>, other: Seq<char>)
    requires
        other != id,
    ensures
        s.insert(id).contains(id),
        !s.remove(id).contains(id),
        s.insert(id).contains(other) == s.contains(other),
        s.remove(id).contains(other) == s.contains(other),
{
}

} // verus!
