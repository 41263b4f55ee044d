//! A map that tells its observers about every change.
use crate::map::{
    exact_keys, lemma_filter, lemma_filter_step, lemma_without_keeps, with, without, VecMap,
};
use vstd::prelude::*;
use vstd::std_specs::cmp::PartialEqSpec;

verus! {

/// A change of an [`ObservableHashMap`].
#[derive(Clone, Copy, Debug)]
pub enum Event<K, V> {
    /// The key was not there and now is.
    Added(K),
    /// The key was there; its value before the change and after it.
    Updated(K, V, V),
    /// The key was there and now is not.
    Removed(K),
}

/// An event, with the observers to which it is yet to be delivered.
#[derive(Debug)]
pub struct Notice<K, V> {
    pub event: Event<K, V>,
    pub observers: Vec<u64>,
}

/// A map that queues a notice of every change for the observers of that moment. Whoever delivers
/// the notices takes them with `take_notices`, and reports with `observer_closed` an observer that
/// can no longer be reached.
#[derive(Debug)]
pub struct ObservableHashMap<K, V> {
    map: VecMap<K, V>,
    observers: Vec<u64>,
    next_observer: u64,
    notices: Vec<Notice<K, V>>,
}

/// `event` tells of a change of `key` from `prev` to `new`.
pub open spec fn tells_of_update<K, V: Clone>(event: Event<K, V>, key: K, prev: V, new: V) -> bool {
    match event {
        Event::Updated(k, p, n) => k == key && cloned(prev, p) && cloned(new, n),
        _ => false,
    }
}

/// What observers are told, applied to the keys that were there at first.
pub open spec fn replay<K, V>(keys: Set<K>, notices: Seq<Notice<K, V>>) -> Set<K>
    decreases notices.len(),
{
    if notices.len() == 0 {
        keys
    } else {
        let before = replay(keys, notices.drop_last());
        match notices.last().event {
            Event::Added(key) => before.insert(key),
            Event::Updated(_, _, _) => before,
            Event::Removed(key) => before.remove(key),
        }
    }
}

/// `results` says of each observer to whom the notice goes whether it could be delivered.
pub open spec fn is_delivered<K, V, F: Fn(u64, &Event<K, V>) -> bool>(
    send: F,
    notice: Notice<K, V>,
    results: Seq<bool>,
) -> bool {
    &&& results.len() == notice.observers@.len()
    &&& forall|j: int|
        0 <= j < results.len() ==> call_ensures(
            send,
            (notice.observers@[j], &notice.event),
            #[trigger] results[j],
        )
}

/// `results` says of each notice, and of each observer to whom it goes, whether it could be
/// delivered.
pub open spec fn are_delivered<K, V, F: Fn(u64, &Event<K, V>) -> bool>(
    send: F,
    notices: Seq<Notice<K, V>>,
    results: Seq<Seq<bool>>,
) -> bool {
    &&& results.len() == notices.len()
    &&& forall|i: int|
        0 <= i < notices.len() ==> is_delivered(send, notices[i], #[trigger] results[i])
}

/// Something could not be delivered to the observer.
pub open spec fn has_failed<K, V>(
    notices: Seq<Notice<K, V>>,
    results: Seq<Seq<bool>>,
    id: u64,
) -> bool {
    exists|i: int, j: int|
        0 <= i < notices.len() && 0 <= j < notices[i].observers@.len() && notices[i].observers@[j]
            == id && !(#[trigger] results[i][j])
}

/// The observers to whom everything could be delivered.
pub open spec fn is_open<K, V>(
    notices: Seq<Notice<K, V>>,
    results: Seq<Seq<bool>>,
) -> spec_fn(u64) -> bool {
    |id: u64| !has_failed(notices, results, id)
}

impl<K, V> ObservableHashMap<K, V> {
    /// The map itself.
    pub closed spec fn map(&self) -> VecMap<K, V> {
        self.map
    }

    /// The keys, in the order in which they were first inserted.
    pub open spec fn order(&self) -> Seq<K> {
        self.map().order()
    }

    /// The observers, in the order in which they were added.
    pub closed spec fn observers(&self) -> Seq<u64> {
        self.observers@
    }

    /// The number of observers that were ever added.
    pub closed spec fn observers_made(&self) -> nat {
        self.next_observer as nat
    }

    /// The notices that were not taken yet, oldest first.
    pub closed spec fn notices(&self) -> Seq<Notice<K, V>> {
        self.notices@
    }

    /// `self` is `before` with `event` queued for the observers, if there are any.
    pub open spec fn notified(&self, before: Self, event: Event<K, V>) -> bool {
        &&& self.observers() == before.observers()
        &&& self.observers_made() == before.observers_made()
        &&& if before.observers().len() == 0 {
            self.notices() == before.notices()
        } else {
            &&& self.notices().len() == before.notices().len() + 1
            &&& self.notices().drop_last() == before.notices()
            &&& self.notices().last().event == event
            &&& self.notices().last().observers@ == before.observers()
        }
    }

    /// What observers are told tells them which keys are there, if they know which keys were there
    /// at `start`.
    pub open spec fn is_told(&self, start: Set<K>) -> bool {
        replay(start, self.notices()) == self@.dom()
    }

    /// `self` has the observers and the notices of `before`.
    pub open spec fn same_notices(&self, before: Self) -> bool {
        &&& self.observers() == before.observers()
        &&& self.observers_made() == before.observers_made()
        &&& self.notices() == before.notices()
    }
}

impl<K, V> View for ObservableHashMap<K, V> {
    type V = Map<K, V>;

    open spec fn view(&self) -> Map<K, V> {
        self.map()@
    }
}

impl<K: Copy + PartialEq, V> ObservableHashMap<K, V> {
    /// The keys can be told apart, none occurs twice, and no observer is listed twice, nor told of
    /// anything twice. Only observers that were added are told of anything.
    pub closed spec fn wf(&self) -> bool {
        &&& self.map.wf()
        &&& self.observers@.no_duplicates()
        &&& forall|i: int|
            0 <= i < self.observers@.len() ==> (#[trigger] self.observers@[i]) < self.next_observer
        &&& forall|i: int|
            0 <= i < self.notices@.len() ==> (#[trigger] self.notices@[i]).observers@.no_duplicates()
        &&& forall|i: int, j: int|
            0 <= i < self.notices@.len() && 0 <= j < self.notices@[i].observers@.len() ==> (
            #[trigger] self.notices@[i].observers@[j]) < self.next_observer
    }

    /// The keys are those that the order lists, each of them once, and so it is with observers.
    pub proof fn lemma_order(&self)
        requires
            self.wf(),
        ensures
            exact_keys::<K>(),
            self.map().wf(),
            self.order().no_duplicates(),
            self@.dom() == self.order().to_set(),
            self@.dom().finite(),
            self@.dom().len() == self.order().len(),
            forall|k: K| #[trigger] self@.contains_key(k) <==> self.order().contains(k),
            self.observers().no_duplicates(),
            forall|i: int|
                0 <= i < self.observers().len() ==> (#[trigger] self.observers()[i])
                    < self.observers_made(),
            forall|i: int|
                0 <= i < self.notices().len() ==> (
                #[trigger] self.notices()[i]).observers@.no_duplicates(),
            forall|i: int, j: int|
                0 <= i < self.notices().len() && 0 <= j < self.notices()[i].observers@.len() ==> (
                #[trigger] self.notices()[i].observers@[j]) < self.observers_made(),
    {
        self.map.lemma_order();
    }

    /// Makes an empty map without observers.
    pub fn new() -> (r: Self)
        ensures
            exact_keys::<K>() ==> r.wf(),
            r@ == Map::<K, V>::empty(),
            r.order() == Seq::<K>::empty(),
            r.observers() == Seq::<u64>::empty(),
            r.observers_made() == 0,
            r.notices() == Seq::<Notice<K, V>>::empty(),
    {
        ObservableHashMap { map: VecMap::new(), observers: Vec::new(), next_observer: 0, notices: Vec::new() }
    }

    /// Makes an observable map of `map`, without observers.
    pub fn from(map: VecMap<K, V>) -> (r: Self)
        ensures
            map.wf() ==> r.wf(),
            r.map() == map,
            r.observers() == Seq::<u64>::empty(),
            r.observers_made() == 0,
            r.notices() == Seq::<Notice<K, V>>::empty(),
    {
        ObservableHashMap { map, observers: Vec::new(), next_observer: 0, notices: Vec::new() }
    }

    fn notify_observers(&mut self, event: Event<K, V>)
        requires
            old(self).wf(),
        ensures
            final(self).wf(),
            final(self).map() == old(self).map(),
            final(self).notified(*old(self), event),
    {
        if self.observers.len() > 0 {
            let observers = self.observers.clone();
            assert(observers@ =~= self.observers@);
            self.notices.push(Notice { event, observers });
            assert(self.notices@.drop_last() =~= old(self).notices@);
            assert forall|i: int, j: int|
                0 <= i < self.notices@.len() && 0 <= j < self.notices@[i].observers@.len() implies (
            #[trigger] self.notices@[i].observers@[j]) < self.next_observer by {
                if i < old(self).notices@.len() {
                    assert(self.notices@[i] == old(self).notices@[i]);
                    assert(old(self).notices@[i].observers@[j] < old(self).next_observer);
                }
            }
        }
    }

    /// Adds an observer, who gets a notice of every change from now on, and of none from before. The
    /// observer is told apart from all others by the number that is returned.
    pub fn add_observer(&mut self) -> (r: u64)
        requires
            old(self).wf(),
            old(self).observers_made() < u64::MAX,
        ensures
            final(self).wf(),
            final(self).map() == old(self).map(),
            r == old(self).observers_made(),
            !old(self).observers().contains(r),
            final(self).observers() == old(self).observers().push(r),
            final(self).observers_made() == old(self).observers_made() + 1,
            final(self).notices() == old(self).notices(),
            forall|i: int|
                0 <= i < old(self).notices().len() ==> !(
                #[trigger] old(self).notices()[i]).observers@.contains(r),
    {
        let id: u64 = self.next_observer;
        self.next_observer = id + 1;
        self.observers.push(id);
        id
    }

    /// Drops the observer `id`, to whom notices can no longer be delivered; all others stay.
    pub fn observer_closed(&mut self, id: u64)
        requires
            old(self).wf(),
        ensures
            final(self).wf(),
            final(self).map() == old(self).map(),
            final(self).observers() == without(old(self).observers(), id),
            final(self).observers_made() == old(self).observers_made(),
            final(self).notices() == old(self).notices(),
    {
        let mut kept: Vec<u64> = Vec::new();
        let mut i: usize = 0;
        assert(self.observers@.take(0) =~= Seq::<u64>::empty());
        while i < self.observers.len()
            invariant
                i <= self.observers@.len(),
                *self == *old(self),
                kept@ == without(self.observers@.take(i as int), id),
            decreases self.observers@.len() - i,
        {
            proof {
                reveal(Seq::filter);
                assert(self.observers@.take(i + 1).drop_last() =~= self.observers@.take(i as int));
            }
            let observer: u64 = self.observers[i];
            if observer != id {
                kept.push(observer);
            }
            i += 1;
        }
        assert(self.observers@.take(i as int) =~= self.observers@);
        proof {
            lemma_without_keeps(self.observers@, id);
            assert forall|j: int| 0 <= j < kept@.len() implies (#[trigger] kept@[j])
                < self.next_observer by {
                assert(kept@.contains(kept@[j]));
            }
        }
        self.observers = kept;
    }

    /// Takes the queued notices, oldest first.
    pub fn take_notices(&mut self) -> (r: Vec<Notice<K, V>>)
        requires
            old(self).wf(),
        ensures
            final(self).wf(),
            final(self).map() == old(self).map(),
            final(self).observers() == old(self).observers(),
            final(self).observers_made() == old(self).observers_made(),
            r@ == old(self).notices(),
            final(self).notices() == Seq::<Notice<K, V>>::empty(),
    {
        let mut taken: Vec<Notice<K, V>> = Vec::new();
        std::mem::swap(&mut self.notices, &mut taken);
        taken
    }

    /// Delivers the queued notices, oldest first, each to all of its observers: `send` delivers an
    /// event to an observer, and says whether it could. The observers to whom something could not be
    /// delivered are dropped; all others stay.
    pub fn deliver<F: Fn(u64, &Event<K, V>) -> bool>(&mut self, send: &F)
        requires
            old(self).wf(),
            forall|id: u64, event: Event<K, V>| #[trigger] call_requires(*send, (id, &event)),
        ensures
            final(self).wf(),
            final(self).map() == old(self).map(),
            final(self).observers_made() == old(self).observers_made(),
            final(self).notices() == Seq::<Notice<K, V>>::empty(),
            exists|results: Seq<Seq<bool>>| #[trigger]
                are_delivered(*send, old(self).notices(), results) && final(self).observers()
                    == old(self).observers().filter(is_open(old(self).notices(), results)),
    {
        let notices = self.take_notices();
        let ghost mut results: Seq<Seq<bool>> = Seq::empty();
        let mut closed: Vec<u64> = Vec::new();
        let mut i: usize = 0;
        while i < notices.len()
            invariant
                i <= notices@.len(),
                forall|id: u64, event: Event<K, V>| #[trigger] call_requires(*send, (id, &event)),
                results.len() == i,
                forall|k: int|
                    0 <= k < i ==> is_delivered(*send, notices@[k], #[trigger] results[k]),
                forall|id: u64| #[trigger]
                    closed@.contains(id) <==> has_failed(notices@.take(i as int), results, id),
            decreases notices@.len() - i,
        {
            let notice = &notices[i];
            let ghost mut row: Seq<bool> = Seq::empty();
            let ghost before = closed@;
            let mut j: usize = 0;
            while j < notice.observers.len()
                invariant
                    j <= notice.observers@.len(),
                    forall|id: u64, event: Event<K, V>| #[trigger]
                        call_requires(*send, (id, &event)),
                    row.len() == j,
                    forall|k: int|
                        0 <= k < j ==> call_ensures(
                            *send,
                            (notice.observers@[k], &notice.event),
                            #[trigger] row[k],
                        ),
                    forall|id: u64| #[trigger]
                        closed@.contains(id) <==> before.contains(id) || exists|k: int|
                            0 <= k < j && notice.observers@[k] == id && !(#[trigger] row[k]),
                decreases notice.observers@.len() - j,
            {
                let id: u64 = notice.observers[j];
                let ok = send(id, &notice.event);
                let ghost shut = closed@;
                let ghost longer = row.push(ok);
                if !ok {
                    closed.push(id);
                }
                proof {
                    assert forall|other: u64| #[trigger] closed@.contains(other)
                        <==> before.contains(other) || exists|k: int|
                        0 <= k < j + 1 && notice.observers@[k] == other && !(
                        #[trigger] longer[k]) by {
                        if closed@.contains(other) {
                            if shut.contains(other) {
                                if !before.contains(other) {
                                    let k = choose|k: int|
                                        0 <= k < j && notice.observers@[k] == other && !(
                                        #[trigger] row[k]);
                                    assert(!longer[k]);
                                }
                            } else {
                                assert(!ok && other == id) by {
                                    let m = closed@.index_of(other);
                                    if m < shut.len() {
                                        assert(shut[m] == other);
                                    }
                                }
                                assert(!longer[j as int]);
                            }
                        }
                        if before.contains(other) {
                            assert(shut.contains(other));
                            assert(closed@[shut.index_of(other)] == other);
                        }
                        if exists|k: int|
                            0 <= k < j + 1 && notice.observers@[k] == other && !(
                            #[trigger] longer[k]) {
                            let k = choose|k: int|
                                0 <= k < j + 1 && notice.observers@[k] == other && !(
                                #[trigger] longer[k]);
                            if k < j {
                                assert(!row[k]);
                                assert(shut.contains(other));
                                assert(closed@[shut.index_of(other)] == other);
                            } else {
                                assert(closed@[shut.len() as int] == other);
                            }
                        }
                    }
                    row = longer;
                }
                j += 1;
            }
            proof {
                let more = results.push(row);
                let seen = notices@.take(i as int);
                let seen2 = notices@.take(i + 1);
                assert forall|id: u64| #[trigger] closed@.contains(id) <==> has_failed(
                    seen2,
                    more,
                    id,
                ) by {
                    if before.contains(id) {
                        let (a, b) = choose|a: int, b: int|
                            0 <= a < seen.len() && 0 <= b < seen[a].observers@.len()
                                && seen[a].observers@[b] == id && !(#[trigger] results[a][b]);
                        assert(seen2[a] == seen[a]);
                        assert(!more[a][b]);
                    }
                    if exists|k: int|
                        0 <= k < j && notice.observers@[k] == id && !(#[trigger] row[k]) {
                        let k = choose|k: int|
                            0 <= k < j && notice.observers@[k] == id && !(#[trigger] row[k]);
                        assert(seen2[i as int] == *notice);
                        assert(!more[i as int][k]);
                    }
                    if has_failed(seen2, more, id) {
                        let (a, b) = choose|a: int, b: int|
                            0 <= a < seen2.len() && 0 <= b < seen2[a].observers@.len()
                                && seen2[a].observers@[b] == id && !(#[trigger] more[a][b]);
                        if a < i {
                            assert(seen[a] == seen2[a]);
                            assert(!results[a][b]);
                            assert(has_failed(seen, results, id));
                        } else {
                            assert(!row[b]);
                        }
                    }
                }
                results = more;
            }
            i += 1;
        }
        let ghost pred = is_open(notices@, results);
        assert(notices@.take(i as int) =~= notices@);
        assert(are_delivered(*send, notices@, results));
        let mut kept: Vec<u64> = Vec::new();
        let mut i: usize = 0;
        assert(self.observers@.take(0).filter(pred) =~= Seq::<u64>::empty()) by {
            reveal(Seq::filter);
        }
        while i < self.observers.len()
            invariant
                i <= self.observers@.len(),
                pred == is_open(notices@, results),
                forall|id: u64| #[trigger]
                    closed@.contains(id) <==> has_failed(notices@, results, id),
                kept@ == self.observers@.take(i as int).filter(pred),
            decreases self.observers@.len() - i,
        {
            proof {
                lemma_filter_step(self.observers@, pred, i as int);
            }
            let id: u64 = self.observers[i];
            if !contains_id(&closed, id) {
                kept.push(id);
            }
            i += 1;
        }
        proof {
            assert(self.observers@.take(i as int) =~= self.observers@);
            lemma_filter(self.observers@, pred);
            assert forall|j: int| 0 <= j < kept@.len() implies (#[trigger] kept@[j])
                < self.next_observer by {
                assert(kept@.contains(kept@[j]));
            }
        }
        self.observers = kept;
    }

    /// Whether `key` is in the map.
    pub fn contains_key(&self, key: &K) -> (r: bool)
        requires
            self.wf(),
        ensures
            r == self@.contains_key(*key),
    {
        self.map.contains_key(key)
    }

    /// The value of `key`, if the map has one.
    pub fn get(&self, key: &K) -> (r: Option<&V>)
        requires
            self.wf(),
        ensures
            match r {
                Some(v) => self@.contains_key(*key) && *v == self@[*key],
                None => !self@.contains_key(*key),
            },
    {
        self.map.get(key)
    }

    /// The entries in order.
    pub fn iter(&self) -> (r: &Vec<(K, V)>)
        requires
            self.wf(),
        ensures
            r@.len() == self.order().len(),
            forall|i: int|
                0 <= i < r@.len() ==> {
                    &&& (#[trigger] r@[i]).0 == self.order()[i]
                    &&& self@.contains_key(r@[i].0)
                    &&& r@[i].1 == self@[r@[i].0]
                },
    {
        self.map.iter()
    }

    /// The keys in order.
    pub fn keys(&self) -> (r: Vec<K>)
        requires
            self.wf(),
        ensures
            r@ == self.order(),
    {
        self.map.keys()
    }

    /// The number of keys.
    pub fn len(&self) -> (r: usize)
        requires
            self.wf(),
        ensures
            r == self.order().len(),
            r == self@.dom().len(),
    {
        self.map.len()
    }

    /// Whether there is no key.
    pub fn is_empty(&self) -> (r: bool)
        requires
            self.wf(),
        ensures
            r == (self@ == Map::<K, V>::empty()),
            r == (self.order().len() == 0),
    {
        self.map.is_empty()
    }

    /// Takes `key` out and hands back the value that it had. The observers get a notice if there
    /// was one.
    pub fn remove(&mut self, key: &K) -> (r: Option<V>)
        requires
            old(self).wf(),
        ensures
            final(self).wf(),
            r == old(self)@.get(*key),
            final(self)@ == old(self)@.remove(*key),
            final(self).order() == without(old(self).order(), *key),
            r is Some ==> final(self).notified(*old(self), Event::Removed(*key)),
            r is None ==> final(self).same_notices(*old(self)),
            forall|start: Set<K>|
                old(self).observers().len() > 0 && old(self).is_told(start) ==> #[trigger] final(self).is_told(start),
    {
        let prev_value = self.map.remove(key);
        if prev_value.is_some() {
            self.notify_observers(Event::Removed(*key));
        }
        proof {
            if prev_value is None {
                assert(self@.dom() =~= old(self)@.dom());
            }
            assert(self@.dom() =~= old(self)@.dom().remove(*key));
            lemma_told(*old(self), *self, Event::Removed(*key), prev_value is Some);
        }
        prev_value
    }
}

impl<K: Copy + PartialEq, V: Clone> ObservableHashMap<K, V> {
    /// Sets the value of `key` and hands back the value that it had. The observers get a notice.
    pub fn insert(&mut self, key: K, value: V) -> (r: Option<V>)
        requires
            old(self).wf(),
        ensures
            final(self).wf(),
            r == old(self)@.get(key),
            final(self)@ == old(self)@.insert(key, value),
            final(self).order() == with(old(self).order(), key),
            match r {
                Some(prev) => exists|event: Event<K, V>| #[trigger]
                    tells_of_update(event, key, prev, value) && final(self).notified(
                        *old(self),
                        event,
                    ),
                None => final(self).notified(*old(self), Event::Added(key)),
            },
            forall|start: Set<K>|
                old(self).observers().len() > 0 && old(self).is_told(start) ==> #[trigger] final(self).is_told(start),
    {
        let prev_value = self.map.insert(key, value);
        let event = match (prev_value.as_ref(), self.map.get(&key)) {
            (Some(prev), Some(new)) => {
                let event = Event::Updated(key, prev.clone(), new.clone());
                assert(tells_of_update(event, key, *prev, *new));
                event
            },
            _ => Event::Added(key),
        };
        self.notify_observers(event);
        proof {
            if old(self)@.contains_key(key) {
                assert(self@.dom() =~= old(self)@.dom());
            } else {
                assert(self@.dom() =~= old(self)@.dom().insert(key));
            }
            lemma_told(*old(self), *self, event, true);
        }
        prev_value
    }

    /// A copy of the map, without observers.
    pub fn clone(&self) -> (r: Self)
        requires
            self.wf(),
        ensures
            r.wf(),
            r@.dom() == self@.dom(),
            forall|k: K| #[trigger] self@.contains_key(k) ==> cloned(self@[k], r@[k]),
            r.order() == self.order(),
            r.observers() == Seq::<u64>::empty(),
            r.observers_made() == 0,
            r.notices() == Seq::<Notice<K, V>>::empty(),
    {
        let copy = self.map.clone();
        Self::from(copy)
    }
}

impl<K: Copy + PartialEq, V: Clone + PartialEq> ObservableHashMap<K, V> {
    /// Hands a copy of the value of `key` to `updater` and stores what comes back. Nothing changes,
    /// and the result is false, if `key` is not in the map or the value comes back equal.
    pub fn update<F: FnMut(V) -> V>(&mut self, key: &K, mut updater: F) -> (r: bool)
        requires
            old(self).wf(),
            V::obeys_eq_spec(),
            old(self)@.contains_key(*key) ==> forall|v: V|
                cloned(old(self)@[*key], v) ==> #[trigger] call_requires(updater, (v,)),
        ensures
            final(self).wf(),
            !old(self)@.contains_key(*key) ==> !r && *final(self) == *old(self),
            old(self)@.contains_key(*key) ==> exists|given: V, updated: V|
                {
                    &&& cloned(old(self)@[*key], given)
                    &&& #[trigger] call_ensures(updater, (given,), updated)
                    &&& r == !updated.eq_spec(&old(self)@[*key])
                    &&& !r ==> *final(self) == *old(self)
                    &&& r ==> {
                        &&& final(self)@ == old(self)@.insert(*key, updated)
                        &&& final(self).order() == old(self).order()
                        &&& exists|event: Event<K, V>| #[trigger]
                            tells_of_update(event, *key, old(self)@[*key], updated) && final(self).notified(*old(self), event)
                    }
                },
            forall|start: Set<K>|
                old(self).observers().len() > 0 && old(self).is_told(start) ==> #[trigger] final(self).is_told(start),
    {
        proof {
            self.lemma_order();
        }
        let prev_value = match self.map.get(key) {
            Some(v) => v,
            None => {
                return false;
            },
        };
        let given = prev_value.clone();
        let updated = updater(given);
        if updated == *prev_value {
            return false;
        }
        let event = Event::Updated(*key, prev_value.clone(), updated.clone());
        assert(tells_of_update(event, *key, *prev_value, updated));
        self.map.insert(*key, updated);
        self.notify_observers(event);
        proof {
            assert(self@.dom() =~= old(self)@.dom());
            lemma_told(*old(self), *self, event, true);
        }
        true
    }
}

impl<K: Copy + PartialEq, V> Default for ObservableHashMap<K, V> {
    fn default() -> (r: Self)
        ensures
            exact_keys::<K>() ==> r.wf(),
            r@ == Map::<K, V>::empty(),
            r.order() == Seq::<K>::empty(),
            r.observers() == Seq::<u64>::empty(),
            r.observers_made() == 0,
            r.notices() == Seq::<Notice<K, V>>::empty(),
    {
        Self::new()
    }
}

impl<K: Copy + PartialEq, V> From<ObservableHashMap<K, V>> for VecMap<K, V> {
    fn from(val: ObservableHashMap<K, V>) -> (r: Self) {
        val.map
    }
}

impl<K: Copy + PartialEq, V> vstd::std_specs::convert::FromSpecImpl<ObservableHashMap<K, V>> for VecMap<K, V> {
    open spec fn obeys_from_spec() -> bool {
        true
    }

    open spec fn from_spec(val: ObservableHashMap<K, V>) -> Self {
        val.map()
    }
}

/// Whether `id` is in the list.
fn contains_id(list: &Vec<u64>, id: u64) -> (r: bool)
    ensures
        r == list@.contains(id),
{
    let mut i: usize = 0;
    while i < list.len()
        invariant
            i <= list@.len(),
            forall|j: int| 0 <= j < i ==> #[trigger] list@[j] != id,
        decreases list@.len() - i,
    {
        if list[i] == id {
            assert(list@[i as int] == id);
            return true;
        }
        i += 1;
    }
    false
}

/// If a change is queued as an event that tells of it, observers can still tell which keys are
/// there.
proof fn lemma_told<K, V>(
    before: ObservableHashMap<K, V>,
    after: ObservableHashMap<K, V>,
    event: Event<K, V>,
    queued: bool,
)
    requires
        if queued {
            after.notified(before, event)
        } else {
            after.same_notices(before) && after@.dom() == before@.dom()
        },
        queued ==> after@.dom() == (match event {
            Event::Added(key) => before@.dom().insert(key),
            Event::Updated(_, _, _) => before@.dom(),
            Event::Removed(key) => before@.dom().remove(key),
        }),
    ensures
        forall|start: Set<K>|
            before.observers().len() > 0 && before.is_told(start) ==> #[trigger] after.is_told(start),
{
}

/// Every observer that stays was told of each change that it was to be told of, and once only; every
/// observer to whom something could not be delivered is dropped, and no other.
pub proof fn law_open_observers_are_told_once<K, V, F: Fn(u64, &Event<K, V>) -> bool>(
    send: F,
    observers: Seq<u64>,
    notices: Seq<Notice<K, V>>,
    results: Seq<Seq<bool>>,
    i: int,
    id: u64,
)
    requires
        are_delivered(send, notices, results),
        0 <= i < notices.len(),
        notices[i].observers@.no_duplicates(),
        notices[i].observers@.contains(id),
        observers.contains(id),
    ensures
        observers.filter(is_open(notices, results)).contains(id) <==> !has_failed(
            notices,
            results,
            id,
        ),
        observers.filter(is_open(notices, results)).contains(id) ==> call_ensures(
            send,
            (id, &notices[i].event),
            true,
        ),
        exists|j: int|
            {
                &&& 0 <= j < notices[i].observers@.len()
                &&& #[trigger] notices[i].observers@[j] == id
                &&& forall|k: int|
                    0 <= k < notices[i].observers@.len() && #[trigger] notices[i].observers@[k] == id
                        ==> k == j
            },
{
    lemma_filter(observers, is_open(notices, results));
    let j = notices[i].observers@.index_of(id);
    assert(notices[i].observers@[j] == id);
    assert(is_delivered(send, notices[i], results[i]));
    assert(call_ensures(send, (notices[i].observers@[j], &notices[i].event), results[i][j]));
    if !results[i][j] {
        assert(has_failed(notices, results, id));
    }
}

/// Filters that agree on all items give the same.
proof fn lemma_same_filter(list: Seq<u64>, one: spec_fn(u64) -> bool, other: spec_fn(u64) -> bool)
    requires
        forall|i: int| 0 <= i < list.len() ==> one(#[trigger] list[i]) == other(list[i]),
    ensures
        list.filter(one) == list.filter(other),
    decreases list.len(),
{
    reveal(Seq::filter);
    if list.len() > 0 {
        let rest = list.drop_last();
        assert forall|i: int| 0 <= i < rest.len() implies one(#[trigger] rest[i]) == other(
            rest[i],
        ) by {
            assert(rest[i] == list[i]);
        }
        lemma_same_filter(rest, one, other);
        assert(one(list[list.len() - 1]) == other(list[list.len() - 1]));
    }
}

/// The observers that can still be reached.
pub open spec fn is_reachable(closed: Set<u64>) -> spec_fn(u64) -> bool {
    |id: u64| !closed.contains(id)
}

/// When there is a change and then its notice is delivered, however many of the observers can no
/// longer be reached: the event is sent to each observer once, those that cannot be reached are
/// dropped, and all others stay in their order.
pub proof fn law_changes_reach_open_observers<
    K: Copy + PartialEq,
    V,
    F: Fn(u64, &Event<K, V>) -> bool,
>(
    send: F,
    before: ObservableHashMap<K, V>,
    after: ObservableHashMap<K, V>,
    event: Event<K, V>,
    closed: Set<u64>,
    results: Seq<Seq<bool>>,
)
    requires
        before.wf(),
        before.notices().len() == 0,
        after.notified(before, event),
        are_delivered(send, after.notices(), results),
        forall|id: u64, e: Event<K, V>, r: bool| #[trigger]
            call_ensures(send, (id, &e), r) ==> r == !closed.contains(id),
    ensures
        before.observers().filter(is_open(after.notices(), results)) == before.observers().filter(
            is_reachable(closed),
        ),
        before.observers().len() > 0 ==> {
            &&& after.notices().len() == 1
            &&& after.notices()[0].event == event
            &&& after.notices()[0].observers@ == before.observers()
            &&& before.observers().no_duplicates()
            &&& forall|j: int|
                0 <= j < before.observers().len() ==> #[trigger] results[0][j] == !closed.contains(
                    before.observers()[j],
                )
        },
{
    let list = before.observers();
    before.lemma_order();
    if list.len() > 0 {
        let notice = after.notices()[0];
        assert(after.notices().last() == notice);
        assert(is_delivered(send, notice, results[0]));
        assert forall|j: int| 0 <= j < list.len() implies #[trigger] results[0][j]
            == !closed.contains(list[j]) by {
            assert(call_ensures(send, (notice.observers@[j], &notice.event), results[0][j]));
        }
        assert forall|j: int| 0 <= j < list.len() implies is_open(after.notices(), results)(
            #[trigger] list[j],
        ) == is_reachable(closed)(list[j]) by {
            let id = list[j];
            assert(results[0][j] == !closed.contains(id));
            if closed.contains(id) {
                assert(has_failed(after.notices(), results, id));
            }
            if has_failed(after.notices(), results, id) {
                let (a, b) = choose|a: int, b: int|
                    0 <= a < after.notices().len() && 0 <= b
                        < after.notices()[a].observers@.len() && after.notices()[a].observers@[b]
                        == id && !(#[trigger] results[a][b]);
                assert(a == 0 && list[b] == id);
            }
        }
    }
    lemma_same_filter(list, is_open(after.notices(), results), is_reachable(closed));
}

} // verus!
