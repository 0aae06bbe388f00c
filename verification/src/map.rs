use crate::hlc::HLC;
use crate::set::{tokens_contain, tokens_insert, tokens_union, Token};
use crate::str_map::StrMap;
use crate::strings::chars_lt;
use crate::CrdtValue;
use vstd::prelude::*;

verus! {

/// A key of the map: its value (none for a key known only from a remove),
/// the tags of the puts that wrote it, and the tags that removes took away.
#[derive(Debug)]
pub struct MapEntry<V> {
    pub value: Option<V>,
    pub live: Vec<Token>,
    pub removed: Vec<Token>,
}

impl<V: Clone> Clone for MapEntry<V> {
    fn clone(&self) -> (r: Self)
        ensures
            value_cloned(self.value, r.value),
            r.live@ == self.live@,
            r.removed@ == self.removed@,
    {
        let live = self.live.clone();
        let removed = self.removed.clone();
        assert(live@ =~= self.live@);
        assert(removed@ =~= self.removed@);
        let value = match &self.value {
            Some(v) => Some(v.clone()),
            None => None,
        };
        MapEntry { value, live, removed }
    }
}

/// Map CRDT with observed-remove semantics.
/// Keys can be added, updated, and removed concurrently: each put is tagged,
/// a remove takes away the tags it observed (and is kept for a key not seen
/// yet), and a key stays in the map while one of its tags has not been
/// removed.
#[derive(Debug)]
pub struct MapCrdt<V: CrdtValue> {
    node_id: u128,
    entries: StrMap<MapEntry<V>>,
}

/// An operation on a map, as sent to other replicas.
#[derive(Debug)]
pub enum MapOp<V: CrdtValue> {
    Put { key: String, value: V, tag: Token },
    Remove { key: String, tags: Vec<Token> },
    Update { key: String, op: V::Op },
}

/// The recorded keys of a map: each with its value (none for a key known
/// only from a remove), its put tags and its removed tags.
pub type MapState<V> = Map<Seq<char>, (Option<V>, Set<Token>, Set<Token>)>;

/// `n` is a clone of `a`: both none, or both a value, `n`'s a clone of `a`'s.
pub open spec fn value_cloned<V: Clone>(a: Option<V>, n: Option<V>) -> bool {
    match a {
        Some(x) => n is Some && cloned(x, n->Some_0),
        None => n is None,
    }
}

/// `n` is what merging the value `b` into `a` gives: both merged when both
/// are there, otherwise the one there (cloned when it comes from `b`).
pub open spec fn value_merged<V: CrdtValue>(a: Option<V>, b: Option<V>, n: Option<V>) -> bool {
    match (a, b) {
        (Some(x), Some(y)) => n is Some && V::merged(x, y, n->Some_0),
        (Some(x), None) => n == Some(x),
        (None, _) => value_cloned(b, n),
    }
}

/// Some put tag has not been removed.
pub open spec fn tags_present(live: Set<Token>, removed: Set<Token>) -> bool {
    !live.subset_of(removed)
}

/// The keys in the map, with their values.
pub open spec fn visible<V>(m: MapState<V>) -> Map<Seq<char>, V> {
    Map::new(
        |k: Seq<char>| m.contains_key(k) && tags_present(m[k].1, m[k].2) && m[k].0 is Some,
        |k: Seq<char>| m[k].0->Some_0,
    )
}

/// The value recorded for `k`, or none.
pub open spec fn value_of<V>(m: MapState<V>, k: Seq<char>) -> Option<V> {
    if m.contains_key(k) {
        m[k].0
    } else {
        None
    }
}

/// The removed tags recorded for `k`, or none.
pub open spec fn removed_tags<V>(m: MapState<V>, k: Seq<char>) -> Set<Token> {
    if m.contains_key(k) {
        m[k].2
    } else {
        Set::empty()
    }
}

/// The put tags recorded for `k`, or none.
pub open spec fn live_tags<V>(m: MapState<V>, k: Seq<char>) -> Set<Token> {
    if m.contains_key(k) {
        m[k].1
    } else {
        Set::empty()
    }
}

/// A put of `v` under `k` with tag `t`, unless `t` was removed already.
pub open spec fn map_put<V>(m: MapState<V>, k: Seq<char>, v: V, t: Token) -> MapState<V> {
    if removed_tags(m, k).contains(t) {
        m
    } else {
        m.insert(k, (Some(v), live_tags(m, k).insert(t), removed_tags(m, k)))
    }
}

/// A local put of `v` under `k` with the fresh tag `t`: the tag is live, and
/// no longer counted as removed.
pub open spec fn map_put_local<V>(m: MapState<V>, k: Seq<char>, v: V, t: Token) -> MapState<V> {
    m.insert(k, (Some(v), live_tags(m, k).insert(t), removed_tags(m, k).remove(t)))
}

/// A remove of the tags `ts` of `k`, recorded whether or not `k` is.
pub open spec fn map_remove<V>(m: MapState<V>, k: Seq<char>, ts: Set<Token>) -> MapState<V> {
    m.insert(k, (value_of(m, k), live_tags(m, k), removed_tags(m, k).union(ts)))
}

spec fn entry_view<V>(e: MapEntry<V>) -> (Option<V>, Set<Token>, Set<Token>) {
    (e.value, e.live@.to_set(), e.removed@.to_set())
}

spec fn entry_good<V>(e: MapEntry<V>) -> bool {
    &&& e.live@.no_duplicates()
    &&& e.removed@.no_duplicates()
    &&& e.value is None ==> e.live@.len() == 0
}

/// A good entry with a put tag not removed holds a value.
proof fn lemma_present_has_value<V>(e: MapEntry<V>)
    requires
        entry_good(e),
    ensures
        tags_present(e.live@.to_set(), e.removed@.to_set()) ==> e.value is Some,
{
    if e.live@.len() == 0 {
        assert(e.live@.to_set() =~= Set::<Token>::empty());
    }
}

/// Whether some tag of `live` is not in `removed`.
fn tags_present_exec(live: &Vec<Token>, removed: &Vec<Token>) -> (b: bool)
    ensures
        b == tags_present(live@.to_set(), removed@.to_set()),
{
    let mut i: usize = 0;
    while i < live.len()
        invariant
            i <= live@.len(),
            forall|j: int| 0 <= j < i ==> removed@.contains(#[trigger] live@[j]),
        decreases live.len() - i,
    {
        if !tokens_contain(removed, &live[i]) {
            proof {
                assert(live@.to_set().contains(live@[i as int]));
            }
            return true;
        }
        i += 1;
    }
    proof {
        assert forall|t: Token| live@.to_set().contains(t) implies removed@.to_set().contains(t) by {
            let j = choose|j: int| 0 <= j < live@.len() && live@[j] == t;
            assert(removed@.contains(live@[j]));
        }
    }
    false
}

impl<V: CrdtValue> MapCrdt<V> {
    /// The node this replica edits as.
    pub closed spec fn node(self) -> u128 {
        self.node_id
    }

    /// Every recorded key, with its value, its put tags and its removed tags.
    pub closed spec fn state(self) -> MapState<V> {
        self.entries.map().map_values(|e: MapEntry<V>| entry_view(e))
    }

    /// The keys in the map, with their values.
    pub open spec fn view(self) -> Map<Seq<char>, V> {
        visible(self.state())
    }

    /// The representation invariant: entries sorted by key, with distinct tags.
    pub closed spec fn wf(self) -> bool {
        &&& self.entries.wf()
        &&& forall|i: int|
            0 <= i < self.entries.vals().len() ==> entry_good(#[trigger] self.entries.vals()[i])
    }

    /// The map records finitely many keys.
    pub proof fn lemma_wf(self)
        requires
            self.wf(),
        ensures
            self.state().dom().finite(),
            self.view().dom().finite(),
    {
        self.entries.lemma_map();
        assert(self.state().dom() =~= self.entries.map().dom());
        assert(self.view().dom() =~= self.state().dom().filter(
            |k: Seq<char>| tags_present(self.state()[k].1, self.state()[k].2) && self.state()[k].0 is Some,
        ));
    }

    proof fn lemma_entries_good(self)
        requires
            self.wf(),
        ensures
            forall|k: Seq<char>| #[trigger]
                self.entries.map().contains_key(k) ==> entry_good(self.entries.map()[k]),
    {
        self.entries.lemma_map();
        assert forall|k: Seq<char>| #[trigger] self.entries.map().contains_key(k) implies entry_good(
            self.entries.map()[k],
        ) by {
            let i = choose|i: int| 0 <= i < self.entries.keys().len() && self.entries.keys()[i] == k;
            assert(self.entries.map()[self.entries.keys()[i]] == self.entries.vals()[i]);
        }
    }

    proof fn lemma_wf_from_map(self)
        requires
            self.entries.wf(),
            forall|k: Seq<char>| #[trigger]
                self.entries.map().contains_key(k) ==> entry_good(self.entries.map()[k]),
        ensures
            self.wf(),
    {
        self.entries.lemma_map();
        assert forall|j: int| 0 <= j < self.entries.vals().len() implies entry_good(
            #[trigger] self.entries.vals()[j],
        ) by {
            assert(self.entries.map().contains_key(self.entries.keys()[j]));
        }
    }

    /// An empty map for node `node_id`.
    pub fn new(node_id: u128) -> (m: Self)
        ensures
            m.wf(),
            m.node() == node_id,
            m.state() == MapState::<V>::empty(),
            m.view() == Map::<Seq<char>, V>::empty(),
    {
        let m = MapCrdt { node_id, entries: StrMap::new() };
        assert(m.state() =~= MapState::<V>::empty());
        assert(m.view() =~= Map::<Seq<char>, V>::empty());
        m
    }

    /// The index of `key` if it is in the map.
    fn find_visible(&self, key: &str) -> (r: Option<usize>)
        requires
            self.wf(),
        ensures
            match r {
                Some(i) => i < self.entries.keys().len() && self.entries.keys()[i as int] == key@
                    && self.view().contains_key(key@) && self.state()[key@] == entry_view(
                    self.entries.vals()[i as int],
                ) && self.entries.vals()[i as int].value is Some,
                None => !self.view().contains_key(key@),
            },
    {
        proof {
            self.entries.lemma_map();
        }
        match self.entries.find(key) {
            Some(i) => {
                let e = self.entries.value_at(i);
                proof {
                    assert(entry_good(*e));
                    lemma_present_has_value(*e);
                }
                if tags_present_exec(&e.live, &e.removed) {
                    Some(i)
                } else {
                    None
                }
            },
            None => None,
        }
    }

    /// The value under `key`.
    pub fn get(&self, key: &str) -> (r: Option<&V>)
        requires
            self.wf(),
        ensures
            match r {
                Some(v) => self.view().contains_key(key@) && *v == self.view()[key@],
                None => !self.view().contains_key(key@),
            },
    {
        match self.find_visible(key) {
            Some(i) => Some(self.entries.value_at(i).value.as_ref().unwrap()),
            None => None,
        }
    }

    /// Record `ne` as the entry of `key`.
    fn put_entry(&mut self, key: &String, ne: MapEntry<V>)
        requires
            old(self).wf(),
            entry_good(ne),
        ensures
            final(self).wf(),
            final(self).node() == old(self).node(),
            final(self).state() == old(self).state().insert(key@, entry_view(ne)),
    {
        let ghost gne = ne;
        proof {
            old(self).lemma_entries_good();
        }
        self.entries.insert(key.clone(), ne);
        proof {
            self.lemma_wf_from_map();
            assert(self.state() =~= old(self).state().insert(key@, entry_view(gne)));
        }
    }

    /// The tags recorded for `key`: its put tags and its removed tags.
    fn tags_at(&self, key: &String) -> (r: (Vec<Token>, Vec<Token>))
        requires
            self.wf(),
        ensures
            r.0@.no_duplicates(),
            r.1@.no_duplicates(),
            r.0@.to_set() == live_tags(self.state(), key@),
            r.1@.to_set() == removed_tags(self.state(), key@),
    {
        proof {
            self.entries.lemma_map();
        }
        match self.entries.find(key.as_str()) {
            Some(i) => {
                let e = self.entries.value_at(i);
                assert(entry_good(*e));
                let live = e.live.clone();
                let removed = e.removed.clone();
                assert(live@ =~= e.live@);
                assert(removed@ =~= e.removed@);
                (live, removed)
            },
            None => {
                let live: Vec<Token> = Vec::new();
                let removed: Vec<Token> = Vec::new();
                assert(live@.to_set() =~= Set::<Token>::empty());
                assert(removed@.to_set() =~= Set::<Token>::empty());
                (live, removed)
            },
        }
    }

    /// Record a put of a clone of `value` under `key` with tag `tag`, unless
    /// the tag was removed already.
    fn put_tagged(&mut self, key: &String, value: &V, tag: Token)
        requires
            old(self).wf(),
        ensures
            final(self).wf(),
            final(self).node() == old(self).node(),
            final(self).state() == map_put(
                old(self).state(),
                key@,
                final(self).state()[key@].0->Some_0,
                tag,
            ),
            !removed_tags(old(self).state(), key@).contains(tag) ==> final(self).state()[key@].0 is Some
                && cloned(*value, final(self).state()[key@].0->Some_0),
    {
        let (mut live, removed) = self.tags_at(key);
        if tokens_contain(&removed, &tag) {
            return;
        }
        tokens_insert(&mut live, tag);
        let ne = MapEntry { value: Some(value.clone()), live, removed };
        self.put_entry(key, ne);
    }

    /// Record a local put of a clone of `value` under `key` with the fresh
    /// tag `tag`.
    fn put_local_tagged(&mut self, key: &String, value: &V, tag: Token)
        requires
            old(self).wf(),
        ensures
            final(self).wf(),
            final(self).node() == old(self).node(),
            final(self).state() == map_put_local(
                old(self).state(),
                key@,
                final(self).state()[key@].0->Some_0,
                tag,
            ),
            final(self).state()[key@].0 is Some,
            cloned(*value, final(self).state()[key@].0->Some_0),
    {
        let (mut live, removed) = self.tags_at(key);
        tokens_insert(&mut live, tag);
        let mut one: Vec<Token> = Vec::new();
        one.push(tag);
        let rest = crate::set::tokens_without(&removed, &one);
        proof {
            assert(one@[0] == tag);
            assert(one@.to_set().contains(tag));
            assert forall|x: Token| one@.to_set().contains(x) implies x == tag by {
                let j = choose|j: int| 0 <= j < one@.len() && one@[j] == x;
            }
            assert(rest@.to_set() =~= removed@.to_set().remove(tag));
        }
        let ne = MapEntry { value: Some(value.clone()), live, removed: rest };
        self.put_entry(key, ne);
    }

    /// Put `value` under `key` with a fresh tag stamped by `clock`; returns
    /// the operation to send to other replicas.
    pub fn put(&mut self, key: String, value: V, clock: &mut HLC) -> (op: MapOp<V>)
        requires
            old(self).wf(),
            old(clock).logical < u64::MAX,
        ensures
            final(self).wf(),
            final(self).node() == old(self).node(),
            old(clock).precedes(*final(clock)),
            exists|wall: u64| *final(clock) == #[trigger] old(clock).ticked(wall),
            op == (MapOp::Put {
                key,
                value,
                tag: Token { node_id: old(self).node(), timestamp: *final(clock) },
            }),
            final(self).state() == map_put_local(
                old(self).state(),
                key@,
                final(self).state()[key@].0->Some_0,
                Token { node_id: old(self).node(), timestamp: *final(clock) },
            ),
            final(self).state()[key@].0 is Some,
            cloned(value, final(self).state()[key@].0->Some_0),
            final(self).view().contains_key(key@),
    {
        let tag = Token { node_id: self.node_id, timestamp: clock.now() };
        self.put_local_tagged(&key, &value, tag);
        proof {
            let e = self.state()[key@];
            assert(e.1.contains(tag) && !e.2.contains(tag));
        }
        MapOp::Put { key, value, tag }
    }

    /// Take the tags `ts` away from the key at index `i`.
    fn remove_tags_at(&mut self, i: usize, ts: &Vec<Token>)
        requires
            old(self).wf(),
            i < old(self).entries.keys().len(),
        ensures
            final(self).wf(),
            final(self).node() == old(self).node(),
            final(self).entries.keys() == old(self).entries.keys(),
            final(self).state() == map_remove(
                old(self).state(),
                old(self).entries.keys()[i as int],
                ts@.to_set(),
            ),
    {
        let ghost before = self.entries;
        proof {
            before.lemma_map();
        }
        assert(entry_good(self.entries.vals()[i as int]));
        tokens_union(&mut self.entries.entries[i].1.removed, ts);
        proof {
            let k = before.keys()[i as int];
            let nv = self.entries.vals()[i as int];
            assert(self.entries.keys() =~= before.keys());
            assert(self.entries.vals() =~= before.vals().update(i as int, nv));
            crate::str_map::lemma_sorted_no_duplicates(before.keys());
            crate::str_map::lemma_map_of_update(before.keys(), before.vals(), i as int, nv);
            assert(old(self).state()[k] == entry_view(before.vals()[i as int]));
            assert forall|j: int| 0 <= j < self.entries.vals().len() implies entry_good(
                #[trigger] self.entries.vals()[j],
            ) by {
                if j != i {
                    assert(self.entries.vals()[j] == before.vals()[j]);
                }
            }
            assert(self.state() =~= map_remove(old(self).state(), k, ts@.to_set()));
        }
    }

    /// Remove `key`, taking away every tag this replica has observed for
    /// it; returns the operation to send to other replicas, or `None` if
    /// the key is not in the map.
    pub fn remove(&mut self, key: &str, _clock: &mut HLC) -> (op: Option<MapOp<V>>)
        requires
            old(self).wf(),
        ensures
            final(self).wf(),
            final(self).node() == old(self).node(),
            *final(_clock) == *old(_clock),
            !old(self).view().contains_key(key@) ==> op is None && final(self).state() == old(
                self,
            ).state(),
            old(self).view().contains_key(key@) ==> final(self).state() == map_remove(
                old(self).state(),
                key@,
                live_tags(old(self).state(), key@),
            ) && match op {
                Some(MapOp::Remove { key: k, tags }) => k@ == key@ && tags@.to_set() == live_tags(
                    old(self).state(),
                    key@,
                ),
                _ => false,
            },
            final(self).view() == old(self).view().remove(key@),
    {
        match self.find_visible(key) {
            Some(i) => {
                let tags = self.entries.value_at(i).live.clone();
                assert(tags@ =~= self.entries.vals()[i as int].live@);
                self.remove_tags_at(i, &tags);
                proof {
                    let o = old(self).state()[key@];
                    assert(o.1.subset_of(o.2.union(o.1)));
                    assert(self.view() =~= old(self).view().remove(key@));
                }
                Some(MapOp::Remove { key: key.to_owned(), tags })
            },
            None => {
                assert(old(self).view().remove(key@) =~= old(self).view());
                None
            },
        }
    }

    /// Apply `op` to the value at index `i`.
    fn apply_at(&mut self, i: usize, op: &V::Op)
        requires
            old(self).wf(),
            i < old(self).entries.keys().len(),
            old(self).entries.vals()[i as int].value is Some,
            old(self).entries.vals()[i as int].value->Some_0.can_apply(op),
        ensures
            final(self).wf(),
            final(self).node() == old(self).node(),
            final(self).entries.keys() == old(self).entries.keys(),
            ({
                let k = old(self).entries.keys()[i as int];
                let o = old(self).state()[k];
                let n = final(self).state()[k];
                &&& final(self).state() == old(self).state().insert(k, (n.0, o.1, o.2))
                &&& n.0 is Some
                &&& V::applied(o.0->Some_0, *op, n.0->Some_0)
            }),
    {
        let ghost before = self.entries;
        proof {
            before.lemma_map();
        }
        match self.entries.entries[i].1.value.as_mut() {
            Some(v) => v.apply(op),
            None => {},
        }
        proof {
            let k = before.keys()[i as int];
            let nv = self.entries.vals()[i as int];
            assert(self.entries.keys() =~= before.keys());
            assert(self.entries.vals() =~= before.vals().update(i as int, nv));
            crate::str_map::lemma_sorted_no_duplicates(before.keys());
            crate::str_map::lemma_map_of_update(before.keys(), before.vals(), i as int, nv);
            assert(old(self).state()[k] == entry_view(before.vals()[i as int]));
            assert forall|j: int| 0 <= j < self.entries.vals().len() implies entry_good(
                #[trigger] self.entries.vals()[j],
            ) by {
                if j != i {
                    assert(self.entries.vals()[j] == before.vals()[j]);
                }
            }
            assert(self.state()[k] == entry_view(nv));
            assert(self.state() =~= old(self).state().insert(k, entry_view(nv)));
        }
    }

    /// Apply `op` to the value under `key`; returns the operation to send
    /// to other replicas, or `None` if the key is not in the map.
    pub fn update(&mut self, key: &str, op: V::Op) -> (r: Option<MapOp<V>>)
        requires
            old(self).wf(),
            old(self).view().contains_key(key@) ==> old(self).view()[key@].can_apply(&op),
        ensures
            final(self).wf(),
            final(self).node() == old(self).node(),
            !old(self).view().contains_key(key@) ==> r is None && final(self).state() == old(
                self,
            ).state(),
            old(self).view().contains_key(key@) ==> {
                let o = old(self).state()[key@];
                let n = final(self).state()[key@];
                &&& final(self).state() == old(self).state().insert(key@, (n.0, o.1, o.2))
                &&& n.0 is Some
                &&& V::applied(o.0->Some_0, op, n.0->Some_0)
                &&& r matches Some(MapOp::Update { key: k, op: p }) && k@ == key@ && p == op
            },
    {
        match self.find_visible(key) {
            Some(i) => {
                self.apply_at(i, &op);
                Some(MapOp::Update { key: key.to_owned(), op })
            },
            None => None,
        }
    }

    /// Mutable access to the value under `key`.
    pub fn get_mut(&mut self, key: &str) -> (r: Option<&mut V>)
        requires
            old(self).wf(),
        ensures
            match r {
                Some(v) => {
                    let o = old(self).state()[key@];
                    &&& old(self).view().contains_key(key@)
                    &&& *v == old(self).view()[key@]
                    &&& final(self).wf()
                    &&& final(self).node() == old(self).node()
                    &&& final(self).state() == old(self).state().insert(
                        key@,
                        (Some(*final(v)), o.1, o.2),
                    )
                },
                None => !old(self).view().contains_key(key@) && *final(self) == *old(self),
            },
    {
        match self.find_visible(key) {
            Some(i) => {
                let ghost before = self.entries;
                proof {
                    before.lemma_map();
                }
                let r = self.entries.entries[i].1.value.as_mut().unwrap();
                proof {
                    let e = before.vals()[i as int];
                    let ne = MapEntry { value: Some(*final(r)), live: e.live, removed: e.removed };
                    crate::str_map::lemma_sorted_no_duplicates(before.keys());
                    crate::str_map::lemma_map_of_update(before.keys(), before.vals(), i as int, ne);
                    assert(after_borrow(self.entries).keys() =~= before.keys());
                    assert(after_borrow(self.entries).vals() =~= before.vals().update(i as int, ne));
                    assert forall|j: int| 0 <= j < before.vals().len() implies entry_good(
                        #[trigger] before.vals().update(i as int, ne)[j],
                    ) by {
                        if j != i {
                            assert(before.vals().update(i as int, ne)[j] == before.vals()[j]);
                        }
                    }
                    assert(before.map().insert(key@, ne).map_values(|e: MapEntry<V>| entry_view(e))
                        =~= old(self).state().insert(key@, entry_view(ne)));
                }
                Some(r)
            },
            None => None,
        }
    }

    /// Apply an operation received from another replica.
    pub fn apply_op(&mut self, op: &MapOp<V>)
        requires
            old(self).wf(),
            *op matches MapOp::Update { key, op: o } ==> (old(self).view().contains_key(key@) ==> old(
                self,
            ).view()[key@].can_apply(&o)),
        ensures
            final(self).wf(),
            final(self).node() == old(self).node(),
            match *op {
                MapOp::Put { key, value, tag } => {
                    &&& final(self).state() == map_put(
                        old(self).state(),
                        key@,
                        final(self).state()[key@].0->Some_0,
                        tag,
                    )
                    &&& !removed_tags(old(self).state(), key@).contains(tag) ==> (final(self).state()[key@].0 is Some
                        && cloned(value, final(self).state()[key@].0->Some_0))
                },
                MapOp::Remove { key, tags } => final(self).state() == map_remove(
                    old(self).state(),
                    key@,
                    tags@.to_set(),
                ),
                MapOp::Update { key, op: o } => {
                    &&& !old(self).view().contains_key(key@) ==> final(self).state() == old(
                        self,
                    ).state()
                    &&& old(self).view().contains_key(key@) ==> {
                        let p = old(self).state()[key@];
                        let n = final(self).state()[key@];
                        &&& final(self).state() == old(self).state().insert(key@, (n.0, p.1, p.2))
                        &&& n.0 is Some
                        &&& V::applied(p.0->Some_0, o, n.0->Some_0)
                    }
                },
            },
    {
        match op {
            MapOp::Put { key, value, tag } => {
                self.put_tagged(key, value, *tag);
            },
            MapOp::Remove { key, tags } => {
                proof {
                    self.entries.lemma_map();
                }
                match self.entries.find(key.as_str()) {
                    Some(i) => {
                        self.remove_tags_at(i, tags);
                    },
                    None => {
                        let mut removed: Vec<Token> = Vec::new();
                        assert(removed@.to_set() =~= Set::<Token>::empty());
                        tokens_union(&mut removed, tags);
                        let live: Vec<Token> = Vec::new();
                        assert(live@.to_set() =~= Set::<Token>::empty());
                        assert(Set::<Token>::empty().union(tags@.to_set()) =~= tags@.to_set());
                        self.put_entry(key, MapEntry { value: None, live, removed });
                    },
                }
            },
            MapOp::Update { key, op } => {
                match self.find_visible(key.as_str()) {
                    Some(i) => {
                        self.apply_at(i, op);
                    },
                    None => {},
                }
            },
        }
    }

    /// Merge the entry `oe` of another replica into the key at index `i`:
    /// the values merged, the tags of both.
    fn merge_at(&mut self, i: usize, oe: &MapEntry<V>)
        requires
            old(self).wf(),
            i < old(self).entries.keys().len(),
            entry_good(*oe),
            old(self).entries.vals()[i as int].value is Some && oe.value is Some ==> old(
                self,
            ).entries.vals()[i as int].value->Some_0.can_merge(&oe.value->Some_0),
        ensures
            final(self).wf(),
            final(self).node() == old(self).node(),
            final(self).entries.keys() == old(self).entries.keys(),
            ({
                let k = old(self).entries.keys()[i as int];
                let o = old(self).state()[k];
                let n = final(self).state()[k];
                &&& final(self).state() == old(self).state().insert(
                    k,
                    (n.0, o.1.union(oe.live@.to_set()), o.2.union(oe.removed@.to_set())),
                )
                &&& value_merged(o.0, oe.value, n.0)
            }),
    {
        let ghost before = self.entries;
        proof {
            before.lemma_map();
        }
        assert(entry_good(self.entries.vals()[i as int]));
        match &oe.value {
            Some(ov) => {
                if self.entries.entries[i].1.value.is_some() {
                    match self.entries.entries[i].1.value.as_mut() {
                        Some(v) => v.merge(ov),
                        None => {},
                    }
                } else {
                    self.entries.entries[i].1.value = Some(ov.clone());
                }
            },
            None => {},
        }
        tokens_union(&mut self.entries.entries[i].1.live, &oe.live);
        tokens_union(&mut self.entries.entries[i].1.removed, &oe.removed);
        proof {
            let k = before.keys()[i as int];
            let nv = self.entries.vals()[i as int];
            let ov0 = before.vals()[i as int];
            if nv.value is None {
                assert(ov0.value is None && oe.value is None);
                assert(ov0.live@.to_set() =~= Set::<Token>::empty());
                assert(oe.live@.to_set() =~= Set::<Token>::empty());
                if nv.live@.len() > 0 {
                    assert(nv.live@.to_set().contains(nv.live@[0]));
                }
            }
            assert(self.entries.keys() =~= before.keys());
            assert(self.entries.vals() =~= before.vals().update(i as int, nv));
            crate::str_map::lemma_sorted_no_duplicates(before.keys());
            crate::str_map::lemma_map_of_update(before.keys(), before.vals(), i as int, nv);
            assert(old(self).state()[k] == entry_view(before.vals()[i as int]));
            assert forall|j: int| 0 <= j < self.entries.vals().len() implies entry_good(
                #[trigger] self.entries.vals()[j],
            ) by {
                if j != i {
                    assert(self.entries.vals()[j] == before.vals()[j]);
                }
            }
            assert(self.state()[k] == entry_view(nv));
            assert(self.state() =~= old(self).state().insert(k, entry_view(nv)));
        }
    }

    /// Merge the state of another replica: the keys recorded by either;
    /// for keys both record, the values merged and the tags of both; for
    /// keys only `other` records, a clone of its entry.
    pub fn merge(&mut self, other: &MapCrdt<V>)
        requires
            old(self).wf(),
            other.wf(),
            forall|k: Seq<char>|
                #[trigger] old(self).state().contains_key(k) && other.state().contains_key(k) && old(
                    self,
                ).state()[k].0 is Some && other.state()[k].0 is Some ==> old(
                    self,
                ).state()[k].0->Some_0.can_merge(&other.state()[k].0->Some_0),
        ensures
            final(self).wf(),
            final(self).node() == old(self).node(),
            final(self).state().dom() == old(self).state().dom().union(other.state().dom()),
            forall|k: Seq<char>|
                #[trigger] old(self).state().contains_key(k) && !other.state().contains_key(k)
                    ==> final(self).state()[k] == old(self).state()[k],
            forall|k: Seq<char>|
                !old(self).state().contains_key(k) && #[trigger] other.state().contains_key(k) ==> {
                    &&& value_cloned(other.state()[k].0, final(self).state()[k].0)
                    &&& final(self).state()[k].1 == other.state()[k].1
                    &&& final(self).state()[k].2 == other.state()[k].2
                },
            forall|k: Seq<char>|
                #[trigger] old(self).state().contains_key(k) && other.state().contains_key(k) ==> {
                    &&& value_merged(old(self).state()[k].0, other.state()[k].0, final(self).state()[k].0)
                    &&& final(self).state()[k].1 == old(self).state()[k].1.union(other.state()[k].1)
                    &&& final(self).state()[k].2 == old(self).state()[k].2.union(other.state()[k].2)
                },
    {
        let ghost ok = other.entries.keys();
        let ghost ov = other.entries.vals();
        let ghost om = other.state();
        let ghost sm = old(self).state();
        proof {
            other.entries.lemma_map();
            old(self).entries.lemma_map();
        }
        let n = other.entries.len();
        let mut i: usize = 0;
        assert(ok.take(0) =~= Seq::<Seq<char>>::empty());
        assert(self.state().dom() =~= sm.dom().union(ok.take(0).to_set()));
        while i < n
            invariant
                n == ok.len(),
                ok == other.entries.keys(),
                ov == other.entries.vals(),
                om == other.state(),
                other.wf(),
                ok.no_duplicates(),
                ok.len() == ov.len(),
                forall|j: int|
                    0 <= j < ok.len() ==> #[trigger] om.contains_key(ok[j]) && om[ok[j]] == entry_view(
                        ov[j],
                    ),
                forall|k: Seq<char>| #[trigger] om.contains_key(k) <==> ok.contains(k),
                forall|k: Seq<char>|
                    #[trigger] sm.contains_key(k) && om.contains_key(k) && sm[k].0 is Some && om[k].0 is Some
                        ==> sm[k].0->Some_0.can_merge(&om[k].0->Some_0),
                i <= n,
                self.wf(),
                self.node() == old(self).node(),
                self.state().dom() == sm.dom().union(ok.take(i as int).to_set()),
                forall|k: Seq<char>|
                    #[trigger] sm.contains_key(k) && !ok.take(i as int).contains(k) ==> self.state()[k]
                        == sm[k],
                forall|k: Seq<char>|
                    !sm.contains_key(k) && #[trigger] ok.take(i as int).contains(k) ==> {
                        &&& value_cloned(om[k].0, self.state()[k].0)
                        &&& self.state()[k].1 == om[k].1
                        &&& self.state()[k].2 == om[k].2
                    },
                forall|k: Seq<char>|
                    sm.contains_key(k) && #[trigger] ok.take(i as int).contains(k) ==> {
                        &&& value_merged(sm[k].0, om[k].0, self.state()[k].0)
                        &&& self.state()[k].1 == sm[k].1.union(om[k].1)
                        &&& self.state()[k].2 == sm[k].2.union(om[k].2)
                    },
            decreases n - i,
        {
            let key = other.entries.key_at(i);
            let oe = other.entries.value_at(i);
            let ghost k = ok[i as int];
            let ghost before = self.state();
            proof {
                self.entries.lemma_map();
                assert(ok.take(i + 1) =~= ok.take(i as int).push(k));
                assert(!ok.take(i as int).contains(k)) by {
                    if ok.take(i as int).contains(k) {
                        let j = choose|j: int| 0 <= j < i && ok.take(i as int)[j] == k;
                        assert(ok[j] == k);
                    }
                }
                assert(om[k] == entry_view(*oe));
            }
            match self.entries.find(key.as_str()) {
                Some(j) => {
                    proof {
                        assert(sm.contains_key(k)) by {
                            assert(self.state().contains_key(k));
                            if !sm.contains_key(k) {
                                assert(ok.take(i as int).to_set().contains(k));
                            }
                        }
                        assert(self.state()[k] == entry_view(self.entries.vals()[j as int]));
                        assert(self.state()[k] == sm[k]);
                    }
                    proof {
                        other.lemma_entries_good();
                        assert(other.entries.map()[k] == *oe);
                    }
                    self.merge_at(j, oe);
                },
                None => {
                    let c = oe.clone();
                    let ghost gc = c;
                    proof {
                        other.lemma_entries_good();
                        self.lemma_entries_good();
                        assert(other.entries.map()[k] == *oe);
                    }
                    self.entries.insert(key.clone(), c);
                    proof {
                        self.lemma_wf_from_map();
                        if sm.contains_key(k) {
                            assert(before.dom().contains(k));
                            assert(before.contains_key(k));
                        }
                        assert(!sm.contains_key(k));
                        assert(self.state() =~= before.insert(k, entry_view(gc)));
                    }
                },
            }
            proof {
                let t0 = ok.take(i as int);
                let t1 = ok.take(i + 1);
                assert(t1 == t0.push(k));
                assert forall|x: Seq<char>| t1.to_set().contains(x) == (t0.to_set().contains(x) || x == k) by {
                    if t1.contains(x) {
                        let j = choose|j: int| 0 <= j < t1.len() && t1[j] == x;
                        if j < i {
                            assert(t0[j] == x);
                        }
                    }
                    if t0.contains(x) {
                        let j = choose|j: int| 0 <= j < t0.len() && t0[j] == x;
                        assert(t1[j] == x);
                    }
                    if x == k {
                        assert(t1[i as int] == x);
                    }
                }
                assert(self.state().dom() =~= sm.dom().union(ok.take(i + 1).to_set()));
                assert forall|x: Seq<char>| #[trigger] sm.contains_key(x) && !t1.contains(x) implies self.state()[x] == sm[x] by {
                    assert(t1.to_set().contains(x) == (t0.to_set().contains(x) || x == k));
                    assert(before.dom().contains(x));
                }
                assert forall|x: Seq<char>| sm.contains_key(x) && #[trigger] t1.contains(x) implies {
                    &&& value_merged(sm[x].0, om[x].0, self.state()[x].0)
                    &&& self.state()[x].1 == sm[x].1.union(om[x].1)
                    &&& self.state()[x].2 == sm[x].2.union(om[x].2)
                } by {
                    assert(t1.to_set().contains(x) == (t0.to_set().contains(x) || x == k));
                    if x != k {
                        assert(t0.contains(x));
                        assert(before.dom().contains(x));
                    }
                }
                assert forall|x: Seq<char>| !sm.contains_key(x) && #[trigger] t1.contains(x) implies {
                    &&& value_cloned(om[x].0, self.state()[x].0)
                    &&& self.state()[x].1 == om[x].1
                    &&& self.state()[x].2 == om[x].2
                } by {
                    assert(t1.to_set().contains(x) == (t0.to_set().contains(x) || x == k));
                    if x != k {
                        assert(t0.contains(x));
                        assert(before.dom().contains(x));
                    }
                }
            }
            i += 1;
        }
        proof {
            assert(ok.take(n as int) =~= ok);
            assert forall|x: Seq<char>| ok.to_set().contains(x) == om.dom().contains(x) by {}
            assert(self.state().dom() =~= sm.dom().union(om.dom()));
        }
    }

    /// The indices of the keys in the map, in increasing order.
    fn visible_indices(&self) -> (r: Vec<usize>)
        requires
            self.wf(),
        ensures
            r@.len() == self.view().dom().len(),
            forall|a: int|
                0 <= a < r@.len() ==> #[trigger] r@[a] < self.entries.keys().len()
                    && self.view().contains_key(self.entries.keys()[r@[a] as int])
                    && self.state()[self.entries.keys()[r@[a] as int]] == entry_view(
                    self.entries.vals()[r@[a] as int],
                ) && self.entries.vals()[r@[a] as int].value is Some,
            forall|a: int, b: int| 0 <= a < b < r@.len() ==> r@[a] < r@[b],
            forall|k: Seq<char>| #[trigger]
                self.view().contains_key(k) ==> exists|a: int|
                    0 <= a < r@.len() && self.entries.keys()[#[trigger] r@[a] as int] == k,
    {
        proof {
            self.entries.lemma_map();
        }
        let ghost ks = self.entries.keys();
        let mut r: Vec<usize> = Vec::new();
        let mut i: usize = 0;
        while i < self.entries.len()
            invariant
                self.wf(),
                ks == self.entries.keys(),
                ks.no_duplicates(),
                ks.len() == self.entries.vals().len(),
                forall|j: int|
                    0 <= j < ks.len() ==> #[trigger] self.entries.map().contains_key(ks[j])
                        && self.entries.map()[ks[j]] == self.entries.vals()[j],
                i <= ks.len(),
                forall|a: int|
                    0 <= a < r@.len() ==> #[trigger] r@[a] < i && self.view().contains_key(ks[r@[a] as int]),
                forall|a: int, b: int| 0 <= a < b < r@.len() ==> r@[a] < r@[b],
                forall|j: int|
                    0 <= j < i && self.view().contains_key(ks[j]) ==> exists|a: int|
                        0 <= a < r@.len() && #[trigger] r@[a] == j,
            decreases ks.len() - i,
        {
            let e = self.entries.value_at(i);
            let ghost before = r@;
            proof {
                assert(entry_good(*e));
                lemma_present_has_value(*e);
            }
            if tags_present_exec(&e.live, &e.removed) {
                r.push(i);
                proof {
                    assert(self.view().contains_key(ks[i as int]));
                    assert forall|j: int|
                        0 <= j < i + 1 && self.view().contains_key(ks[j]) implies exists|a: int|
                        0 <= a < r@.len() && #[trigger] r@[a] == j by {
                        if j < i {
                            let a = choose|a: int| 0 <= a < before.len() && #[trigger] before[a] == j;
                            assert(r@[a] == j);
                        } else {
                            assert(r@[before.len() as int] == j);
                        }
                    }
                }
            } else {
                proof {
                    assert(!self.view().contains_key(ks[i as int]));
                    assert forall|j: int|
                        0 <= j < i + 1 && self.view().contains_key(ks[j]) implies exists|a: int|
                        0 <= a < r@.len() && #[trigger] r@[a] == j by {
                        if j == i {
                            assert(false);
                        }
                    }
                }
            }
            i += 1;
        }
        proof {
            let ksr = r@.map_values(|j: usize| ks[j as int]);
            assert forall|a: int, b: int| 0 <= a < ksr.len() && 0 <= b < ksr.len() && a != b implies ksr[a]
                != ksr[b] by {
                assert(r@[a] != r@[b]) by {
                    if a < b {
                        assert(r@[a] < r@[b]);
                    } else {
                        assert(r@[b] < r@[a]);
                    }
                }
            }
            assert forall|k: Seq<char>| ksr.to_set().contains(k) == self.view().dom().contains(k) by {
                if ksr.to_set().contains(k) {
                    let a = choose|a: int| 0 <= a < ksr.len() && ksr[a] == k;
                    assert(self.view().contains_key(ks[r@[a] as int]));
                }
                if self.view().dom().contains(k) {
                    assert(self.entries.map().contains_key(k));
                    let j = choose|j: int| 0 <= j < ks.len() && ks[j] == k;
                    let a = choose|a: int| 0 <= a < r@.len() && #[trigger] r@[a] == j;
                    assert(ksr[a] == k);
                }
            }
            assert(ksr.to_set() =~= self.view().dom());
            ksr.unique_seq_to_set();
            assert forall|k: Seq<char>| #[trigger] self.view().contains_key(k) implies exists|a: int|
                0 <= a < r@.len() && self.entries.keys()[#[trigger] r@[a] as int] == k by {
                assert(self.entries.map().contains_key(k));
                let j = choose|j: int| 0 <= j < ks.len() && ks[j] == k;
                let a = choose|a: int| 0 <= a < r@.len() && #[trigger] r@[a] == j;
                assert(self.entries.keys()[r@[a] as int] == k);
            }
        }
        r
    }

    /// The keys in the map, in increasing order.
    pub fn keys(&self) -> (r: Vec<&str>)
        requires
            self.wf(),
        ensures
            r@.len() == self.view().dom().len(),
            forall|i: int| 0 <= i < r@.len() ==> self.view().contains_key(#[trigger] r@[i]@),
            forall|k: Seq<char>| #[trigger]
                self.view().contains_key(k) ==> exists|i: int| 0 <= i < r@.len() && (#[trigger] r@[i])@ == k,
            forall|i: int, j: int| 0 <= i < j < r@.len() ==> chars_lt(r@[i]@, r@[j]@),
    {
        let idx = self.visible_indices();
        let mut r: Vec<&str> = Vec::new();
        let mut a: usize = 0;
        while a < idx.len()
            invariant
                self.wf(),
                a <= idx@.len(),
                r@.len() == a,
                forall|b: int|
                    0 <= b < idx@.len() ==> #[trigger] idx@[b] < self.entries.keys().len(),
                forall|b: int| 0 <= b < a ==> (#[trigger] r@[b])@ == self.entries.keys()[idx@[b] as int],
            decreases idx@.len() - a,
        {
            r.push(self.entries.key_at(idx[a]).as_str());
            a += 1;
        }
        proof {
            assert forall|i: int, j: int| 0 <= i < j < r@.len() implies chars_lt(r@[i]@, r@[j]@) by {
                assert(idx@[i] < idx@[j]);
            }
            assert forall|k: Seq<char>| #[trigger] self.view().contains_key(k) implies exists|i: int|
                0 <= i < r@.len() && (#[trigger] r@[i])@ == k by {
                let b = choose|b: int| 0 <= b < idx@.len() && self.entries.keys()[#[trigger] idx@[b] as int] == k;
                assert(r@[b]@ == k);
            }
        }
        r
    }

    /// The keys in the map with their values, in increasing order of key.
    pub fn iter(&self) -> (r: Vec<(&str, &V)>)
        requires
            self.wf(),
        ensures
            r@.len() == self.view().dom().len(),
            forall|i: int|
                0 <= i < r@.len() ==> self.view().contains_key(#[trigger] r@[i].0@) && *r@[i].1
                    == self.view()[r@[i].0@],
            forall|k: Seq<char>| #[trigger]
                self.view().contains_key(k) ==> exists|i: int| 0 <= i < r@.len() && (#[trigger] r@[i]).0@ == k,
            forall|i: int, j: int| 0 <= i < j < r@.len() ==> chars_lt(r@[i].0@, r@[j].0@),
    {
        let idx = self.visible_indices();
        let mut r: Vec<(&str, &V)> = Vec::new();
        let mut a: usize = 0;
        while a < idx.len()
            invariant
                self.wf(),
                a <= idx@.len(),
                r@.len() == a,
                forall|b: int|
                    0 <= b < idx@.len() ==> #[trigger] idx@[b] < self.entries.keys().len()
                        && self.entries.vals()[idx@[b] as int].value is Some
                        && self.view().contains_key(self.entries.keys()[idx@[b] as int])
                        && self.state()[self.entries.keys()[idx@[b] as int]] == entry_view(
                        self.entries.vals()[idx@[b] as int],
                    ),
                forall|b: int|
                    0 <= b < a ==> (#[trigger] r@[b]).0@ == self.entries.keys()[idx@[b] as int] && *r@[b].1
                        == self.entries.vals()[idx@[b] as int].value->Some_0,
            decreases idx@.len() - a,
        {
            let j = idx[a];
            r.push((self.entries.key_at(j).as_str(), self.entries.value_at(j).value.as_ref().unwrap()));
            a += 1;
        }
        proof {
            assert forall|i: int, j: int| 0 <= i < j < r@.len() implies chars_lt(r@[i].0@, r@[j].0@) by {
                assert(idx@[i] < idx@[j]);
            }
            assert forall|k: Seq<char>| #[trigger] self.view().contains_key(k) implies exists|i: int|
                0 <= i < r@.len() && (#[trigger] r@[i]).0@ == k by {
                let b = choose|b: int| 0 <= b < idx@.len() && self.entries.keys()[#[trigger] idx@[b] as int] == k;
                assert(r@[b].0@ == k);
            }
        }
        r
    }

    /// Number of keys in the map.
    pub fn len(&self) -> (n: usize)
        requires
            self.wf(),
        ensures
            n == self.view().dom().len(),
    {
        self.visible_indices().len()
    }

    /// Whether the map has no key.
    pub fn is_empty(&self) -> (b: bool)
        requires
            self.wf(),
        ensures
            b == (self.view().dom().len() == 0),
    {
        self.len() == 0
    }
}

impl<V: CrdtValue> MapCrdt<V> {
    /// The replica's node and its recorded keys, in increasing order: each
    /// key with a clone of its value, its put tags and its removed tags.
    pub fn to_parts(&self) -> (r: (u128, Vec<(String, Option<V>, Vec<Token>, Vec<Token>)>))
        requires
            self.wf(),
        ensures
            r.0 == self.node(),
            forall|i: int|
                0 <= i < r.1@.len() ==> self.state().contains_key(#[trigger] r.1@[i].0@) && value_cloned(
                    self.state()[r.1@[i].0@].0,
                    r.1@[i].1,
                ) && self.state()[r.1@[i].0@].1 == r.1@[i].2@.to_set() && self.state()[r.1@[i].0@].2
                    == r.1@[i].3@.to_set(),
            forall|k: Seq<char>| #[trigger]
                self.state().contains_key(k) ==> exists|i: int| #![trigger r.1@[i]]
                    0 <= i < r.1@.len() && r.1@[i].0@ == k,
            forall|i: int, j: int| 0 <= i < j < r.1@.len() ==> chars_lt(r.1@[i].0@, r.1@[j].0@),
    {
        proof {
            self.entries.lemma_map();
        }
        let ghost ks = self.entries.keys();
        let mut out: Vec<(String, Option<V>, Vec<Token>, Vec<Token>)> = Vec::new();
        let mut i: usize = 0;
        while i < self.entries.len()
            invariant
                self.wf(),
                ks == self.entries.keys(),
                i <= ks.len(),
                out@.len() == i,
                forall|j: int| #![trigger out@[j]]
                    0 <= j < i ==> out@[j].0@ == ks[j] && value_cloned(self.entries.vals()[j].value, out@[j].1)
                        && out@[j].2@ == self.entries.vals()[j].live@ && out@[j].3@
                        == self.entries.vals()[j].removed@,
            decreases ks.len() - i,
        {
            let k = self.entries.key_at(i).clone();
            let e = self.entries.value_at(i).clone();
            let ghost before = out@;
            out.push((k, e.value, e.live, e.removed));
            assert forall|j: int| #![trigger out@[j]] 0 <= j < i + 1 implies out@[j].0@ == ks[j] && value_cloned(
                self.entries.vals()[j].value,
                out@[j].1,
            ) && out@[j].2@ == self.entries.vals()[j].live@ && out@[j].3@
                == self.entries.vals()[j].removed@ by {
                if j < i {
                    assert(out@[j] == before[j]);
                }
            }
            i += 1;
        }
        let r = (self.node_id, out);
        proof {
            assert forall|i: int| 0 <= i < r.1@.len() implies self.state().contains_key(
                #[trigger] r.1@[i].0@,
            ) && value_cloned(self.state()[r.1@[i].0@].0, r.1@[i].1) && self.state()[r.1@[i].0@].1
                == r.1@[i].2@.to_set() && self.state()[r.1@[i].0@].2 == r.1@[i].3@.to_set() by {
                assert(r.1@[i].0@ == ks[i]);
                assert(self.entries.map()[ks[i]] == self.entries.vals()[i]);
            }
            assert forall|k: Seq<char>| #[trigger] self.state().contains_key(k) implies exists|i: int|
                #![trigger r.1@[i]] 0 <= i < r.1@.len() && r.1@[i].0@ == k by {
                assert(self.entries.map().contains_key(k));
                assert(ks.contains(k));
                let i = choose|i: int| 0 <= i < ks.len() && ks[i] == k;
                assert(r.1@[i].0@ == ks[i]);
            }
            assert forall|i: int, j: int| 0 <= i < j < r.1@.len() implies chars_lt(r.1@[i].0@, r.1@[j].0@) by {
                assert(r.1@[i].0@ == ks[i] && r.1@[j].0@ == ks[j]);
            }
        }
        r
    }

    /// A replica from its node and recorded keys, or `None` when they break
    /// the representation invariant: keys not in strictly increasing order,
    /// a key with repeated tags, or a key with put tags and no value.
    pub fn from_parts(node_id: u128, entries: Vec<(String, Option<V>, Vec<Token>, Vec<Token>)>) -> (r: Option<
        Self,
    >)
        ensures
            r is Some <==> (forall|i: int, j: int|
                0 <= i < j < entries@.len() ==> chars_lt(entries@[i].0@, entries@[j].0@)) && (forall|
                i: int,
            |
                0 <= i < entries@.len() ==> (#[trigger] entries@[i]).2@.no_duplicates()
                    && entries@[i].3@.no_duplicates() && (entries@[i].1 is None ==> entries@[i].2@.len()
                    == 0)),
            r matches Some(m) ==> {
                &&& m.wf()
                &&& m.node() == node_id
                &&& forall|i: int|
                    0 <= i < entries@.len() ==> m.state().contains_key(#[trigger] entries@[i].0@)
                        && m.state()[entries@[i].0@] == (entries@[i].1, entries@[i].2@.to_set(), entries@[i].3@.to_set())
                &&& forall|k: Seq<char>| #[trigger]
                    m.state().contains_key(k) ==> exists|i: int| 0 <= i < entries@.len() && entries@[i].0@ == k
            },
    {
        let ghost all = entries@;
        let n = entries.len();
        let mut i: usize = 0;
        while i < n
            invariant
                n == all.len(),
                all == entries@,
                i <= n,
                forall|a: int, b: int| 0 <= a < b < i ==> chars_lt(all[a].0@, all[b].0@),
                forall|a: int|
                    0 <= a < i ==> (#[trigger] all[a]).2@.no_duplicates() && all[a].3@.no_duplicates() && (
                    all[a].1 is None ==> all[a].2@.len() == 0),
            decreases n - i,
        {
            if i > 0 {
                if crate::strings::str_order(entries[i - 1].0.as_str(), entries[i].0.as_str())
                    != crate::strings::StrOrder::Less {
                    return None;
                }
                proof {
                    assert forall|a: int, b: int| 0 <= a < b < i + 1 implies chars_lt(all[a].0@, all[b].0@) by {
                        if b == i && a < i - 1 {
                            crate::strings::lemma_chars_lt_transitive(all[a].0@, all[i - 1].0@, all[b].0@);
                        }
                    }
                }
            }
            if !crate::set::tokens_distinct(&entries[i].2) || !crate::set::tokens_distinct(&entries[i].3)
                || (entries[i].1.is_none() && entries[i].2.len() > 0) {
                return None;
            }
            i += 1;
        }
        let mut rest = entries;
        let mut built: Vec<(String, MapEntry<V>)> = Vec::new();
        while rest.len() > 0
            invariant
                built@.len() + rest@.len() == all.len(),
                rest@ == all.skip(built@.len() as int),
                forall|j: int| #![trigger built@[j]]
                    0 <= j < built@.len() ==> built@[j].0@ == all[j].0@ && built@[j].1.value == all[j].1
                        && built@[j].1.live@ == all[j].2@ && built@[j].1.removed@ == all[j].3@,
            decreases rest.len(),
        {
            let ghost before = built@;
            let ghost rb = rest@;
            let (k, value, live, removed) = rest.remove(0);
            built.push((k, MapEntry { value, live, removed }));
            assert(rest@ =~= all.skip(built@.len() as int));
            assert forall|j: int| #![trigger built@[j]] 0 <= j < built@.len() implies built@[j].0@ == all[j].0@
                && built@[j].1.value == all[j].1 && built@[j].1.live@ == all[j].2@ && built@[j].1.removed@
                == all[j].3@ by {
                if j < before.len() {
                    assert(built@[j] == before[j]);
                } else {
                    assert(rb[0] == all[j]);
                }
            }
        }
        let m = MapCrdt { node_id, entries: StrMap { entries: built } };
        proof {
            let ks = m.entries.keys();
            assert forall|a: int, b: int| 0 <= a < b < ks.len() implies chars_lt(ks[a], ks[b]) by {
                assert(ks[a] == all[a].0@ && ks[b] == all[b].0@);
            }
            assert(m.entries.wf());
            assert forall|j: int| 0 <= j < m.entries.vals().len() implies entry_good(
                #[trigger] m.entries.vals()[j],
            ) by {
                assert(m.entries.vals()[j] == built@[j].1);
            }
            m.entries.lemma_map();
            assert forall|i: int| 0 <= i < all.len() implies m.state().contains_key(#[trigger] all[i].0@)
                && m.state()[all[i].0@] == (all[i].1, all[i].2@.to_set(), all[i].3@.to_set()) by {
                assert(ks[i] == all[i].0@);
                assert(m.entries.map()[ks[i]] == m.entries.vals()[i]);
            }
            assert forall|k: Seq<char>| #[trigger] m.state().contains_key(k) implies exists|i: int|
                0 <= i < all.len() && all[i].0@ == k by {
                assert(m.entries.map().contains_key(k));
                let i = choose|i: int| 0 <= i < ks.len() && ks[i] == k;
                assert(ks[i] == all[i].0@);
            }
        }
        Some(m)
    }
}

impl<V: CrdtValue> Clone for MapOp<V> {
    fn clone(&self) -> (r: Self)
        ensures
            match (*self, r) {
                (MapOp::Put { key: k, value: v, tag: t }, MapOp::Put { key: l, value: w, tag: u }) => k
                    == l && cloned(v, w) && t == u,
                (MapOp::Remove { key: k, tags: t }, MapOp::Remove { key: l, tags: u }) => k == l && t@
                    == u@,
                (MapOp::Update { key: k, op: o }, MapOp::Update { key: l, op: p }) => k == l
                    && cloned(o, p),
                _ => false,
            },
    {
        match self {
            MapOp::Put { key, value, tag } => MapOp::Put { key: key.clone(), value: value.clone(), tag: *tag },
            MapOp::Remove { key, tags } => {
                let c = tags.clone();
                assert(c@ =~= tags@);
                MapOp::Remove { key: key.clone(), tags: c }
            },
            MapOp::Update { key, op } => MapOp::Update { key: key.clone(), op: op.clone() },
        }
    }
}

impl<V: CrdtValue> Clone for MapCrdt<V> {
    fn clone(&self) -> (r: Self)
        ensures
            r.node() == self.node(),
            self.wf() ==> r.wf(),
            self.wf() ==> r.state().dom() == self.state().dom(),
            self.wf() ==> forall|k: Seq<char>| #[trigger]
                self.state().contains_key(k) ==> value_cloned(self.state()[k].0, r.state()[k].0)
                    && r.state()[k].1 == self.state()[k].1 && r.state()[k].2 == self.state()[k].2,
    {
        let r = MapCrdt { node_id: self.node_id, entries: self.entries.clone() };
        proof {
            if self.wf() {
                self.entries.lemma_map();
                r.entries.lemma_map();
                assert forall|j: int| 0 <= j < r.entries.vals().len() implies entry_good(
                    #[trigger] r.entries.vals()[j],
                ) by {
                    assert(cloned(self.entries.vals()[j], r.entries.vals()[j]));
                }
                assert(r.state().dom() =~= self.state().dom());
                assert forall|k: Seq<char>| #[trigger] self.state().contains_key(k) implies value_cloned(
                    self.state()[k].0,
                    r.state()[k].0,
                ) && r.state()[k].1 == self.state()[k].1 && r.state()[k].2 == self.state()[k].2 by {
                    let j = choose|j: int| 0 <= j < self.entries.keys().len() && self.entries.keys()[j] == k;
                    assert(self.entries.map()[k] == self.entries.vals()[j]);
                    assert(r.entries.map()[k] == r.entries.vals()[j]);
                    assert(cloned(self.entries.vals()[j], r.entries.vals()[j]));
                }
            }
        }
        r
    }
}

impl<V: CrdtValue> CrdtValue for MapCrdt<V> {
    type Op = MapOp<V>;

    open spec fn can_apply(&self, op: &MapOp<V>) -> bool {
        &&& self.wf()
        &&& *op matches MapOp::Update { key, op: o } ==> (self.view().contains_key(key@)
            ==> self.view()[key@].can_apply(&o))
    }

    open spec fn can_merge(&self, other: &Self) -> bool {
        &&& self.wf()
        &&& other.wf()
        &&& forall|k: Seq<char>|
            #[trigger] self.state().contains_key(k) && other.state().contains_key(k) && self.state()[k].0 is Some
                && other.state()[k].0 is Some ==> self.state()[k].0->Some_0.can_merge(
                &other.state()[k].0->Some_0,
            )
    }

    /// As `apply_op` states.
    open spec fn applied(old: Self, op: MapOp<V>, new: Self) -> bool {
        &&& new.wf()
        &&& new.node() == old.node()
        &&& match op {
            MapOp::Put { key, value, tag } => {
                &&& new.state() == map_put(old.state(), key@, new.state()[key@].0->Some_0, tag)
                &&& !removed_tags(old.state(), key@).contains(tag) ==> (new.state()[key@].0 is Some
                    && cloned(value, new.state()[key@].0->Some_0))
            },
            MapOp::Remove { key, tags } => new.state() == map_remove(old.state(), key@, tags@.to_set()),
            MapOp::Update { key, op: o } => {
                &&& !old.view().contains_key(key@) ==> new.state() == old.state()
                &&& old.view().contains_key(key@) ==> {
                    let p = old.state()[key@];
                    let n = new.state()[key@];
                    &&& new.state() == old.state().insert(key@, (n.0, p.1, p.2))
                    &&& n.0 is Some
                    &&& V::applied(p.0->Some_0, o, n.0->Some_0)
                }
            },
        }
    }

    /// As `merge` states.
    open spec fn merged(old: Self, other: Self, new: Self) -> bool {
        &&& new.wf()
        &&& new.node() == old.node()
        &&& new.state().dom() == old.state().dom().union(other.state().dom())
        &&& forall|k: Seq<char>|
            #[trigger] old.state().contains_key(k) && !other.state().contains_key(k) ==> new.state()[k]
                == old.state()[k]
        &&& forall|k: Seq<char>|
            !old.state().contains_key(k) && #[trigger] other.state().contains_key(k) ==> {
                &&& value_cloned(other.state()[k].0, new.state()[k].0)
                &&& new.state()[k].1 == other.state()[k].1
                &&& new.state()[k].2 == other.state()[k].2
            }
        &&& forall|k: Seq<char>|
            #[trigger] old.state().contains_key(k) && other.state().contains_key(k) ==> {
                &&& value_merged(old.state()[k].0, other.state()[k].0, new.state()[k].0)
                &&& new.state()[k].1 == old.state()[k].1.union(other.state()[k].1)
                &&& new.state()[k].2 == old.state()[k].2.union(other.state()[k].2)
            }
    }

    fn apply(&mut self, op: &MapOp<V>) {
        self.apply_op(op);
    }

    fn merge(&mut self, other: &Self) {
        MapCrdt::merge(self, other);
    }
}

/// A put that a concurrent remove did not observe survives it, whichever
/// is applied first, with the value it put.
pub proof fn lemma_unobserved_put_survives<V>(
    m: MapState<V>,
    k: Seq<char>,
    v: V,
    t: Token,
    ts: Set<Token>,
)
    requires
        !ts.contains(t),
        !removed_tags(m, k).contains(t),
    ensures
        visible(map_remove(map_put(m, k, v, t), k, ts)).contains_key(k),
        visible(map_remove(map_put(m, k, v, t), k, ts))[k] == v,
        visible(map_put(map_remove(m, k, ts), k, v, t)).contains_key(k),
        visible(map_put(map_remove(m, k, ts), k, v, t))[k] == v,
        map_remove(map_put(m, k, v, t), k, ts) == map_put(map_remove(m, k, ts), k, v, t),
{
    let a = map_remove(map_put(m, k, v, t), k, ts);
    assert(a[k].1.contains(t) && !a[k].2.contains(t));
    let r = map_remove(m, k, ts);
    assert(!removed_tags(r, k).contains(t));
    let b = map_put(r, k, v, t);
    assert(b[k].1.contains(t) && !b[k].2.contains(t));
    assert(a =~= b);
}

/// A remove that observed every put tag of a key takes it out, and the key
/// stays out after merging with a replica whose put tags for it the remove
/// observed: `live` and `removed` are the remover's tags after the remove,
/// `other_live` and `other_removed` those of the other replica.
pub proof fn lemma_observed_remove_wins(
    live: Set<Token>,
    removed: Set<Token>,
    other_live: Set<Token>,
    other_removed: Set<Token>,
)
    requires
        live.subset_of(removed),
        other_live.subset_of(live),
    ensures
        !tags_present(live, removed),
        !tags_present(live.union(other_live), removed.union(other_removed)),
        !tags_present(other_live.union(live), other_removed.union(removed)),
{
}

/// Merging two replicas either way records the same keys with the same
/// tags, so the same keys are in the map; the values under keys both
/// record are merged either way, and agree as far as `V`'s merge does.
pub proof fn lemma_map_merge_keys_converge<V: CrdtValue>(
    a: MapCrdt<V>,
    b: MapCrdt<V>,
    ab: MapCrdt<V>,
    ba: MapCrdt<V>,
)
    requires
        MapCrdt::<V>::merged(a, b, ab),
        MapCrdt::<V>::merged(b, a, ba),
    ensures
        ab.state().dom() == ba.state().dom(),
        forall|k: Seq<char>| #[trigger]
            ab.state().contains_key(k) ==> ab.state()[k].1 == ba.state()[k].1 && ab.state()[k].2
                == ba.state()[k].2,
        ab.view().dom() == ba.view().dom(),
{
    let sa = a.state();
    let sb = b.state();
    assert(ab.state().dom() =~= ba.state().dom());
    assert forall|k: Seq<char>| #[trigger] ab.state().contains_key(k) implies ab.state()[k].1
        == ba.state()[k].1 && ab.state()[k].2 == ba.state()[k].2 by {
        if sa.contains_key(k) && sb.contains_key(k) {
            assert(sa[k].1.union(sb[k].1) =~= sb[k].1.union(sa[k].1));
            assert(sa[k].2.union(sb[k].2) =~= sb[k].2.union(sa[k].2));
        }
    }
    assert forall|k: Seq<char>| #[trigger] ab.state().contains_key(k) implies (ab.state()[k].0 is Some
        <==> ba.state()[k].0 is Some) by {
        if sa.contains_key(k) && sb.contains_key(k) {
            assert(sa[k].0 is Some || sb[k].0 is Some ==> ab.state()[k].0 is Some);
            assert(sa[k].0 is Some || sb[k].0 is Some ==> ba.state()[k].0 is Some);
        }
    }
    assert(ab.view().dom() =~= ba.view().dom());
}

/// Merging a replica with itself keeps its keys, their tags, and so the
/// keys in the map.
pub proof fn lemma_map_merge_self_keeps_keys<V: CrdtValue>(a: MapCrdt<V>, aa: MapCrdt<V>)
    requires
        MapCrdt::<V>::merged(a, a, aa),
    ensures
        aa.state().dom() == a.state().dom(),
        forall|k: Seq<char>| #[trigger]
            a.state().contains_key(k) ==> aa.state()[k].1 == a.state()[k].1 && aa.state()[k].2
                == a.state()[k].2,
        aa.view().dom() == a.view().dom(),
{
    let s = a.state();
    assert(aa.state().dom() =~= s.dom());
    assert forall|k: Seq<char>| #[trigger] s.contains_key(k) implies aa.state()[k].1 == s[k].1
        && aa.state()[k].2 == s[k].2 by {
        assert(s[k].1.union(s[k].1) =~= s[k].1);
        assert(s[k].2.union(s[k].2) =~= s[k].2);
    }
    assert forall|k: Seq<char>| #[trigger] s.contains_key(k) implies (aa.state()[k].0 is Some <==> s[k].0
        is Some) by {}
    assert(aa.view().dom() =~= a.view().dom());
}

} // verus!
