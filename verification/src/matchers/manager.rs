//! Book-keeping of the connected matchers and of the batches each one is working on.
use crate::text::str_eq;
use vstd::prelude::*;

verus! {

/// What is known of one matcher.
#[derive(Debug, Clone, Copy, PartialEq, Eq, Structural)]
pub struct MatcherInfo {
    pub load: usize,
    pub active_batches: usize,
}

/// A matcher's name and record.
pub type MatcherEntry = (String, MatcherInfo);

/// Names held once each.
pub open spec fn distinct_names(v: Seq<MatcherEntry>) -> bool {
    forall|i: int, j: int| 0 <= i < j < v.len() ==> v[i].0@ != v[j].0@
}

/// The position of a name in the list.
pub open spec fn name_index(v: Seq<MatcherEntry>, k: Seq<char>) -> int {
    choose|i: int| 0 <= i < v.len() && v[i].0@ == k
}

/// The name occurs in the list.
pub open spec fn has_name(v: Seq<MatcherEntry>, k: Seq<char>) -> bool {
    exists|i: int| 0 <= i < v.len() && v[i].0@ == k
}

/// The list as a map from name to record.
pub open spec fn matcher_map(v: Seq<MatcherEntry>) -> Map<Seq<char>, MatcherInfo> {
    Map::new(|k: Seq<char>| has_name(v, k), |k: Seq<char>| v[name_index(v, k)].1)
}

proof fn lemma_index_of(v: Seq<MatcherEntry>, i: int)
    requires
        distinct_names(v),
        0 <= i < v.len(),
    ensures
        has_name(v, v[i].0@),
        name_index(v, v[i].0@) == i,
        matcher_map(v).contains_key(v[i].0@),
        matcher_map(v)[v[i].0@] == v[i].1,
{
    assert(has_name(v, v[i].0@));
    let j = name_index(v, v[i].0@);
    if j != i {
        if j < i {
            assert(v[j].0@ != v[i].0@);
        } else {
            assert(v[i].0@ != v[j].0@);
        }
    }
}

proof fn lemma_map_update(v: Seq<MatcherEntry>, i: int, x: MatcherInfo)
    requires
        distinct_names(v),
        0 <= i < v.len(),
    ensures
        distinct_names(v.update(i, (v[i].0, x))),
        matcher_map(v.update(i, (v[i].0, x))) == matcher_map(v).insert(v[i].0@, x),
{
    let w = v.update(i, (v[i].0, x));
    assert(distinct_names(w)) by {
        assert forall|a: int, b: int| 0 <= a < b < w.len() implies w[a].0@ != w[b].0@ by {
            assert(w[a].0 == v[a].0);
            assert(w[b].0 == v[b].0);
        }
    }
    assert forall|k: Seq<char>| #[trigger] has_name(w, k) <==> has_name(v, k) by {
        if has_name(w, k) {
            let j = choose|j: int| 0 <= j < w.len() && w[j].0@ == k;
            assert(v[j].0@ == k);
        }
        if has_name(v, k) {
            let j = choose|j: int| 0 <= j < v.len() && v[j].0@ == k;
            assert(w[j].0@ == k);
        }
    }
    assert forall|k: Seq<char>| has_name(w, k) implies #[trigger] matcher_map(w)[k] == matcher_map(
        v,
    ).insert(v[i].0@, x)[k] by {
        let j = choose|j: int| 0 <= j < w.len() && w[j].0@ == k;
        lemma_index_of(w, j);
        assert(v[j].0@ == k);
        lemma_index_of(v, j);
    }
    lemma_index_of(v, i);
    assert(matcher_map(w) =~= matcher_map(v).insert(v[i].0@, x));
}

proof fn lemma_map_push(v: Seq<MatcherEntry>, e: MatcherEntry)
    requires
        distinct_names(v),
        !has_name(v, e.0@),
    ensures
        distinct_names(v.push(e)),
        matcher_map(v.push(e)) == matcher_map(v).insert(e.0@, e.1),
{
    let w = v.push(e);
    assert(distinct_names(w)) by {
        assert forall|a: int, b: int| 0 <= a < b < w.len() implies w[a].0@ != w[b].0@ by {
            if b == v.len() {
                assert(w[a] == v[a]);
            } else {
                assert(w[a] == v[a]);
                assert(w[b] == v[b]);
            }
        }
    }
    assert forall|k: Seq<char>| #[trigger] has_name(w, k) <==> (has_name(v, k) || k == e.0@) by {
        if has_name(w, k) {
            let j = choose|j: int| 0 <= j < w.len() && w[j].0@ == k;
            if j < v.len() {
                assert(v[j] == w[j]);
            }
        }
        if has_name(v, k) {
            let j = choose|j: int| 0 <= j < v.len() && v[j].0@ == k;
            assert(w[j] == v[j]);
        }
        if k == e.0@ {
            assert(w[v.len() as int] == e);
        }
    }
    assert forall|k: Seq<char>| has_name(w, k) implies #[trigger] matcher_map(w)[k] == matcher_map(
        v,
    ).insert(e.0@, e.1)[k] by {
        let j = choose|j: int| 0 <= j < w.len() && w[j].0@ == k;
        lemma_index_of(w, j);
        if j < v.len() {
            assert(v[j] == w[j]);
            lemma_index_of(v, j);
        }
    }
    assert(matcher_map(w) =~= matcher_map(v).insert(e.0@, e.1));
}

proof fn lemma_map_remove(v: Seq<MatcherEntry>, i: int)
    requires
        distinct_names(v),
        0 <= i < v.len(),
    ensures
        distinct_names(v.remove(i)),
        matcher_map(v.remove(i)) == matcher_map(v).remove(v[i].0@),
{
    let w = v.remove(i);
    assert(distinct_names(w)) by {
        assert forall|a: int, b: int| 0 <= a < b < w.len() implies w[a].0@ != w[b].0@ by {
            let a2 = if a < i { a } else { a + 1 };
            let b2 = if b < i { b } else { b + 1 };
            assert(w[a] == v[a2]);
            assert(w[b] == v[b2]);
        }
    }
    assert forall|k: Seq<char>| #[trigger] has_name(w, k) <==> (has_name(v, k) && k != v[i].0@) by {
        if has_name(w, k) {
            let j = choose|j: int| 0 <= j < w.len() && w[j].0@ == k;
            let j2 = if j < i { j } else { j + 1 };
            assert(w[j] == v[j2]);
            assert(v[j2].0@ != v[i].0@);
        }
        if has_name(v, k) && k != v[i].0@ {
            let j = choose|j: int| 0 <= j < v.len() && v[j].0@ == k;
            if j < i {
                assert(w[j] == v[j]);
            } else {
                assert(w[j - 1] == v[j]);
            }
        }
    }
    assert forall|k: Seq<char>| has_name(w, k) implies #[trigger] matcher_map(w)[k] == matcher_map(
        v,
    ).remove(v[i].0@)[k] by {
        let j = choose|j: int| 0 <= j < w.len() && w[j].0@ == k;
        lemma_index_of(w, j);
        let j2 = if j < i { j } else { j + 1 };
        assert(w[j] == v[j2]);
        lemma_index_of(v, j2);
    }
    assert(matcher_map(w) =~= matcher_map(v).remove(v[i].0@));
}

/// The connected matchers by name.
#[derive(Debug)]
pub struct MatcherManager {
    matchers: Vec<MatcherEntry>,
}

impl View for MatcherManager {
    type V = Map<Seq<char>, MatcherInfo>;

    closed spec fn view(&self) -> Map<Seq<char>, MatcherInfo> {
        matcher_map(self.matchers@)
    }
}

impl MatcherManager {
    /// Every name held once.
    pub closed spec fn wf(&self) -> bool {
        distinct_names(self.matchers@)
    }

    /// No matcher yet.
    pub fn new() -> (r: Self)
        ensures
            r.wf(),
            r@ == Map::<Seq<char>, MatcherInfo>::empty(),
    {
        let r = Self { matchers: Vec::new() };
        assert(matcher_map(r.matchers@) =~= Map::<Seq<char>, MatcherInfo>::empty());
        r
    }

    fn position(&self, uuid: &String) -> (r: Option<usize>)
        ensures
            match r {
                Some(i) => i < self.matchers@.len() && self.matchers@[i as int].0@ == uuid@,
                None => !has_name(self.matchers@, uuid@),
            },
    {
        let n = self.matchers.len();
        let mut i: usize = 0;
        while i < n
            invariant
                n == self.matchers@.len(),
                i <= n,
                forall|k: int| 0 <= k < i ==> self.matchers@[k].0@ != uuid@,
            decreases n - i,
        {
            if str_eq(self.matchers[i].0.as_str(), uuid.as_str()) {
                return Some(i);
            }
            i = i + 1;
        }
        None
    }

    /// Registers a matcher with no load and no batch; a matcher of that name starts over.
    pub fn add_matcher(&mut self, uuid: String)
        requires
            old(self).wf(),
        ensures
            final(self).wf(),
            final(self)@ == old(self)@.insert(uuid@, MatcherInfo { load: 0, active_batches: 0 }),
    {
        let fresh = MatcherInfo { load: 0, active_batches: 0 };
        match self.position(&uuid) {
            Some(i) => {
                proof {
                    lemma_map_update(self.matchers@, i as int, fresh);
                }
                let name = self.matchers[i].0.clone();
                self.matchers.set(i, (name, fresh));
            },
            None => {
                proof {
                    lemma_map_push(self.matchers@, (uuid, fresh));
                }
                self.matchers.push((uuid, fresh));
            },
        }
    }

    /// Forgets a matcher.
    pub fn remove_matcher(&mut self, uuid: &String)
        requires
            old(self).wf(),
        ensures
            final(self).wf(),
            final(self)@ == old(self)@.remove(uuid@),
    {
        match self.position(uuid) {
            Some(i) => {
                proof {
                    lemma_map_remove(self.matchers@, i as int);
                }
                self.matchers.remove(i);
            },
            None => {
                assert(matcher_map(self.matchers@) =~= matcher_map(self.matchers@).remove(uuid@));
            },
        }
    }

    /// A matcher with the fewest active batches, or nothing when none is connected.
    pub fn select_matcher(&mut self) -> (r: Option<String>)
        requires
            old(self).wf(),
        ensures
            *final(self) == *old(self),
            r is None <==> old(self)@.dom().is_empty(),
            r matches Some(k) ==> old(self)@.contains_key(k@) && forall|j: Seq<char>|
                #[trigger] old(self)@.contains_key(j) ==> old(self)@[k@].active_batches <= old(
                    self,
                )@[j].active_batches,
    {
        let n = self.matchers.len();
        if n == 0 {
            assert(matcher_map(self.matchers@).dom() =~= Set::<Seq<char>>::empty());
            return None;
        }
        let mut best: usize = 0;
        let mut i: usize = 1;
        while i < n
            invariant
                n == self.matchers@.len(),
                1 <= i <= n,
                best < i,
                forall|k: int|
                    0 <= k < i ==> self.matchers@[best as int].1.active_batches
                        <= #[trigger] self.matchers@[k].1.active_batches,
            decreases n - i,
        {
            if self.matchers[i].1.active_batches < self.matchers[best].1.active_batches {
                best = i;
            }
            i = i + 1;
        }
        proof {
            lemma_index_of(self.matchers@, best as int);
            assert forall|j: Seq<char>| #[trigger]
                matcher_map(self.matchers@).contains_key(j) implies matcher_map(
                self.matchers@,
            )[self.matchers@[best as int].0@].active_batches <= matcher_map(
                self.matchers@,
            )[j].active_batches by {
                let k = choose|k: int| 0 <= k < self.matchers@.len() && self.matchers@[k].0@ == j;
                lemma_index_of(self.matchers@, k);
            }
            assert(matcher_map(self.matchers@).dom().contains(self.matchers@[best as int].0@));
        }
        Some(self.matchers[best].0.clone())
    }

    /// Adds `load` to a matcher's load; unknown matchers are ignored.
    pub fn increase_load(&mut self, uuid: &String, load: usize)
        requires
            old(self).wf(),
            old(self)@.contains_key(uuid@) ==> old(self)@[uuid@].load + load <= usize::MAX,
        ensures
            final(self).wf(),
            final(self)@ == (if old(self)@.contains_key(uuid@) {
                old(self)@.insert(
                    uuid@,
                    MatcherInfo { load: (old(self)@[uuid@].load + load) as usize, ..old(self)@[uuid@] },
                )
            } else {
                old(self)@
            }),
    {
        match self.position(uuid) {
            Some(i) => {
                proof {
                    lemma_index_of(self.matchers@, i as int);
                }
                let mut info = self.matchers[i].1;
                info.load = info.load + load;
                proof {
                    lemma_map_update(self.matchers@, i as int, info);
                }
                let name = self.matchers[i].0.clone();
                self.matchers.set(i, (name, info));
            },
            None => {},
        }
    }

    /// Counts one more batch for a matcher; unknown matchers are ignored.
    pub fn increase_active_batches(&mut self, uuid: &String)
        requires
            old(self).wf(),
            old(self)@.contains_key(uuid@) ==> old(self)@[uuid@].active_batches < usize::MAX,
        ensures
            final(self).wf(),
            final(self)@ == (if old(self)@.contains_key(uuid@) {
                old(self)@.insert(
                    uuid@,
                    MatcherInfo {
                        active_batches: (old(self)@[uuid@].active_batches + 1) as usize,
                        ..old(self)@[uuid@]
                    },
                )
            } else {
                old(self)@
            }),
    {
        match self.position(uuid) {
            Some(i) => {
                proof {
                    lemma_index_of(self.matchers@, i as int);
                }
                let mut info = self.matchers[i].1;
                info.active_batches = info.active_batches + 1;
                proof {
                    lemma_map_update(self.matchers@, i as int, info);
                }
                let name = self.matchers[i].0.clone();
                self.matchers.set(i, (name, info));
            },
            None => {},
        }
    }

    /// Counts one batch fewer for a matcher, never below zero; unknown matchers are ignored.
    pub fn decrease_active_batches(&mut self, uuid: &String)
        requires
            old(self).wf(),
        ensures
            final(self).wf(),
            final(self)@ == (if old(self)@.contains_key(uuid@) && old(self)@[uuid@].active_batches
                > 0 {
                old(self)@.insert(
                    uuid@,
                    MatcherInfo {
                        active_batches: (old(self)@[uuid@].active_batches - 1) as usize,
                        ..old(self)@[uuid@]
                    },
                )
            } else {
                old(self)@
            }),
    {
        match self.position(uuid) {
            Some(i) => {
                proof {
                    lemma_index_of(self.matchers@, i as int);
                }
                let mut info = self.matchers[i].1;
                if info.active_batches > 0 {
                    info.active_batches = info.active_batches - 1;
                    proof {
                        lemma_map_update(self.matchers@, i as int, info);
                    }
                    let name = self.matchers[i].0.clone();
                    self.matchers.set(i, (name, info));
                }
            },
            None => {},
        }
    }

    /// A matcher's active batches; zero for an unknown matcher.
    pub fn get_active_batches(&self, uuid: &String) -> (r: usize)
        requires
            self.wf(),
        ensures
            r == (if self@.contains_key(uuid@) {
                self@[uuid@].active_batches
            } else {
                0
            }),
    {
        match self.position(uuid) {
            Some(i) => {
                proof {
                    lemma_index_of(self.matchers@, i as int);
                }
                self.matchers[i].1.active_batches
            },
            None => 0,
        }
    }

    /// Sets every matcher's load and active batches to zero.
    pub fn reset_load(&mut self)
        requires
            old(self).wf(),
        ensures
            final(self).wf(),
            final(self)@.dom() == old(self)@.dom(),
            forall|k: Seq<char>| #[trigger]
                final(self)@.contains_key(k) ==> final(self)@[k] == (MatcherInfo {
                    load: 0,
                    active_batches: 0,
                }),
    {
        let n = self.matchers.len();
        let ghost orig = self.matchers@;
        let mut i: usize = 0;
        while i < n
            invariant
                n == self.matchers@.len(),
                n == orig.len(),
                i <= n,
                distinct_names(orig),
                forall|k: int| 0 <= k < n ==> (#[trigger] self.matchers@[k]).0 == orig[k].0,
                forall|k: int|
                    0 <= k < i ==> (#[trigger] self.matchers@[k]).1 == (MatcherInfo {
                        load: 0,
                        active_batches: 0,
                    }),
            decreases n - i,
        {
            let name = self.matchers[i].0.clone();
            self.matchers.set(i, (name, MatcherInfo { load: 0, active_batches: 0 }));
            i = i + 1;
        }
        proof {
            let v = self.matchers@;
            assert(distinct_names(v)) by {
                assert forall|a: int, b: int| 0 <= a < b < v.len() implies v[a].0@ != v[b].0@ by {
                    assert(v[a].0 == orig[a].0);
                    assert(v[b].0 == orig[b].0);
                }
            }
            assert forall|k: Seq<char>| #[trigger] has_name(v, k) <==> has_name(orig, k) by {
                if has_name(v, k) {
                    let j = choose|j: int| 0 <= j < v.len() && v[j].0@ == k;
                    assert(v[j].0 == orig[j].0);
                }
                if has_name(orig, k) {
                    let j = choose|j: int| 0 <= j < orig.len() && orig[j].0@ == k;
                    assert(v[j].0 == orig[j].0);
                }
            }
            assert(matcher_map(v).dom() =~= matcher_map(orig).dom());
            assert forall|k: Seq<char>| #[trigger]
                matcher_map(v).contains_key(k) implies matcher_map(v)[k] == (MatcherInfo {
                load: 0,
                active_batches: 0,
            }) by {
                let j = choose|j: int| 0 <= j < v.len() && v[j].0@ == k;
                lemma_index_of(v, j);
            }
        }
    }
}

} // verus!
