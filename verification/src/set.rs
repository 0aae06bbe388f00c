use crate::hlc::HLC;
use crate::CrdtValue;
use crate::str_map::{map_of, StrMap};
use crate::strings::chars_lt;
use vstd::prelude::*;

verus! {

/// Unique token for add/remove operations.
#[derive(Clone, Copy, Debug, PartialEq, Eq, Structural, Hash)]
pub struct Token {
    pub node_id: u128,
    pub timestamp: HLC,
}

/// The tokens recorded for one value: those of its adds not removed, and
/// those removed.
#[derive(Debug)]
struct TokenEntry {
    live: Vec<Token>,
    removed: Vec<Token>,
}

/// Observed-Remove Set CRDT of strings. A remove takes away the add tokens
/// it observed and keeps them as tombstones, so that neither a late delivery
/// of those adds nor a merge with an older replica brings them back.
#[derive(Debug)]
pub struct SetCrdt {
    node_id: u128,
    elements: StrMap<TokenEntry>,
}

/// An operation on a set, as sent to other replicas.
#[derive(Debug)]
pub enum SetOp {
    Add { value: String, token: Token },
    Remove { value: String, tokens: Vec<Token> },
}

/// The state of a set: for each value, the tokens of its adds not removed
/// and the tokens removed.
pub type TokenState = Map<Seq<char>, (Set<Token>, Set<Token>)>;

/// The tokens recorded for `v`, or none.
pub open spec fn entry_of(m: TokenState, v: Seq<char>) -> (Set<Token>, Set<Token>) {
    if m.contains_key(v) {
        m[v]
    } else {
        (Set::empty(), Set::empty())
    }
}

/// `v` is in the set: some add of it is not removed.
pub open spec fn present(m: TokenState, v: Seq<char>) -> bool {
    entry_of(m, v).0 != Set::<Token>::empty()
}

/// The values in the set.
pub open spec fn live_keys(m: TokenState) -> Set<Seq<char>> {
    m.dom().filter(|k: Seq<char>| present(m, k))
}

/// Adding `v` with token `t`, unless `t` was removed already.
pub open spec fn set_add(m: TokenState, v: Seq<char>, t: Token) -> TokenState {
    if entry_of(m, v).1.contains(t) {
        m
    } else {
        m.insert(v, (entry_of(m, v).0.insert(t), entry_of(m, v).1))
    }
}

/// A local add of `v` with the fresh token `t`: the token is live, and no
/// longer counted as removed.
pub open spec fn set_add_local(m: TokenState, v: Seq<char>, t: Token) -> TokenState {
    m.insert(v, (entry_of(m, v).0.insert(t), entry_of(m, v).1.remove(t)))
}

/// Removing the tokens `ts` of `v`: they leave the add tokens and join the
/// removed ones.
pub open spec fn set_remove(m: TokenState, v: Seq<char>, ts: Set<Token>) -> TokenState {
    m.insert(v, (entry_of(m, v).0.difference(ts), entry_of(m, v).1.union(ts)))
}

/// The tokens of one value after a merge: every add token of either side
/// that neither side removed, and every removed token of either side.
pub open spec fn entry_join(x: (Set<Token>, Set<Token>), y: (Set<Token>, Set<Token>)) -> (
    Set<Token>,
    Set<Token>,
) {
    (x.0.union(y.0).difference(x.1.union(y.1)), x.1.union(y.1))
}

/// Merging two replicas, value by value.
pub open spec fn set_join(a: TokenState, b: TokenState) -> TokenState {
    Map::new(
        |k: Seq<char>| a.contains_key(k) || b.contains_key(k),
        |k: Seq<char>| entry_join(entry_of(a, k), entry_of(b, k)),
    )
}

/// No token of a value is both live and removed.
pub open spec fn entries_disjoint(m: TokenState) -> bool {
    forall|k: Seq<char>| #[trigger] m.contains_key(k) ==> m[k].0.disjoint(m[k].1)
}

spec fn entry_sets(e: TokenEntry) -> (Set<Token>, Set<Token>) {
    (e.live@.to_set(), e.removed@.to_set())
}

spec fn token_state(m: Map<Seq<char>, TokenEntry>) -> TokenState {
    m.map_values(|e: TokenEntry| entry_sets(e))
}

spec fn entry_good(e: TokenEntry) -> bool {
    &&& e.live@.no_duplicates()
    &&& e.removed@.no_duplicates()
    &&& e.live@.to_set().disjoint(e.removed@.to_set())
}

/// Add `t` to `ts` unless it is there.
pub(crate) fn tokens_insert(ts: &mut Vec<Token>, t: Token)
    requires
        old(ts)@.no_duplicates(),
    ensures
        final(ts)@.no_duplicates(),
        final(ts)@.to_set() == old(ts)@.to_set().insert(t),
        final(ts)@.len() > 0,
{
    let mut i: usize = 0;
    while i < ts.len()
        invariant
            ts@ == old(ts)@,
            old(ts)@.no_duplicates(),
            i <= ts@.len(),
            forall|j: int| 0 <= j < i ==> ts@[j] != t,
        decreases ts.len() - i,
    {
        if ts[i] == t {
            assert(ts@.to_set().contains(t)) by { assert(ts@[i as int] == t); }
            assert(ts@.to_set() =~= ts@.to_set().insert(t));
            return;
        }
        i += 1;
    }
    let ghost before = ts@;
    ts.push(t);
    assert forall|a: int, b: int| 0 <= a < ts@.len() && 0 <= b < ts@.len() && a != b implies ts@[a] != ts@[b] by {
        if a < before.len() && b < before.len() {
            assert(ts@[a] == before[a] && ts@[b] == before[b]);
        } else if a < before.len() {
            assert(ts@[a] == before[a]);
        } else {
            assert(ts@[b] == before[b]);
        }
    }
    assert(ts@ == before.push(t));
    proof {
        lemma_to_set_push(before, t);
    }
}

pub(crate) proof fn lemma_to_set_push<A>(s: Seq<A>, x: A)
    ensures
        s.push(x).to_set() == s.to_set().insert(x),
{
    assert forall|y: A| s.push(x).to_set().contains(y) == s.to_set().insert(x).contains(y) by {
        if s.push(x).contains(y) {
            let j = choose|j: int| 0 <= j < s.push(x).len() && s.push(x)[j] == y;
            if j < s.len() {
                assert(s[j] == y);
            }
        }
        if s.contains(y) {
            let j = choose|j: int| 0 <= j < s.len() && s[j] == y;
            assert(s.push(x)[j] == y);
        }
        if y == x {
            assert(s.push(x)[s.len() as int] == x);
        }
    }
    assert(s.push(x).to_set() =~= s.to_set().insert(x));
}

/// Whether `ts` holds `t`.
pub(crate) fn tokens_contain(ts: &Vec<Token>, t: &Token) -> (b: bool)
    ensures
        b == ts@.contains(*t),
{
    let mut i: usize = 0;
    while i < ts.len()
        invariant
            i <= ts@.len(),
            forall|j: int| 0 <= j < i ==> ts@[j] != *t,
        decreases ts.len() - i,
    {
        if ts[i] == *t {
            return true;
        }
        i += 1;
    }
    false
}

/// The tokens of `ts` that are not in `rm`.
pub(crate) fn tokens_without(ts: &Vec<Token>, rm: &Vec<Token>) -> (r: Vec<Token>)
    requires
        ts@.no_duplicates(),
    ensures
        r@.no_duplicates(),
        r@.to_set() == ts@.to_set().difference(rm@.to_set()),
{
    let mut r: Vec<Token> = Vec::new();
    let mut i: usize = 0;
    while i < ts.len()
        invariant
            i <= ts@.len(),
            ts@.no_duplicates(),
            r@.no_duplicates(),
            forall|x: Token| r@.contains(x) <==> (exists|j: int| 0 <= j < i && ts@[j] == x) && !rm@.contains(x),
        decreases ts.len() - i,
    {
        let t = ts[i];
        if !tokens_contain(rm, &t) {
            let ghost before = r@;
            r.push(t);
            assert forall|x: Token| r@.contains(x) <==> (exists|j: int| 0 <= j < i + 1 && ts@[j] == x)
                && !rm@.contains(x) by {
                if r@.contains(x) {
                    let j = choose|j: int| 0 <= j < r@.len() && r@[j] == x;
                    if j < before.len() {
                        assert(before[j] == x);
                        assert(before.contains(x));
                    }
                }
                if (exists|j: int| 0 <= j < i + 1 && ts@[j] == x) && !rm@.contains(x) {
                    if x == t {
                        assert(r@[before.len() as int] == x);
                    } else {
                        let j = choose|j: int| 0 <= j < i + 1 && ts@[j] == x;
                        assert(j < i);
                        assert(before.contains(x));
                        let k = choose|k: int| 0 <= k < before.len() && before[k] == x;
                        assert(r@[k] == x);
                    }
                }
            }
            assert forall|a: int, b: int| 0 <= a < r@.len() && 0 <= b < r@.len() && a != b implies r@[a]
                != r@[b] by {
                if a == before.len() as int {
                    if before.contains(t) {
                        let j = choose|j: int| 0 <= j < i && ts@[j] == t;
                    }
                    assert(!before.contains(t)) by {
                        if before.contains(t) {
                            let j = choose|j: int| 0 <= j < i && ts@[j] == t;
                            assert(ts@[i as int] == t);
                        }
                    }
                    assert(r@[b] == before[b]);
                } else if b == before.len() as int {
                    assert(!before.contains(t)) by {
                        if before.contains(t) {
                            let j = choose|j: int| 0 <= j < i && ts@[j] == t;
                            assert(ts@[i as int] == t);
                        }
                    }
                    assert(r@[a] == before[a]);
                } else {
                    assert(r@[a] == before[a] && r@[b] == before[b]);
                }
            }
        } else {
            assert forall|x: Token| r@.contains(x) <==> (exists|j: int| 0 <= j < i + 1 && ts@[j] == x)
                && !rm@.contains(x) by {
                if (exists|j: int| 0 <= j < i + 1 && ts@[j] == x) && !rm@.contains(x) {
                    let j = choose|j: int| 0 <= j < i + 1 && ts@[j] == x;
                    if j == i {
                        assert(x == t);
                    }
                }
            }
        }
        i += 1;
    }
    assert(r@.to_set() =~= ts@.to_set().difference(rm@.to_set()));
    r
}

/// Add every token of `src` to `dst`.
pub(crate) fn tokens_union(dst: &mut Vec<Token>, src: &Vec<Token>)
    requires
        old(dst)@.no_duplicates(),
    ensures
        final(dst)@.no_duplicates(),
        final(dst)@.to_set() == old(dst)@.to_set().union(src@.to_set()),
{
    let ghost start = dst@.to_set();
    let mut j: usize = 0;
    assert(src@.take(0) =~= Seq::<Token>::empty());
    assert(start.union(Seq::<Token>::empty().to_set()) =~= start);
    while j < src.len()
        invariant
            j <= src@.len(),
            dst@.no_duplicates(),
            dst@.to_set() == start.union(src@.take(j as int).to_set()),
        decreases src.len() - j,
    {
        tokens_insert(dst, src[j]);
        assert(src@.take(j + 1) =~= src@.take(j as int).push(src@[j as int]));
        proof {
            lemma_to_set_push(src@.take(j as int), src@[j as int]);
        }
        assert(dst@.to_set() =~= start.union(src@.take(j + 1).to_set()));
        j += 1;
    }
    assert(src@.take(src.len() as int) =~= src@);
}

/// Joining with a replica extended by a value it did not hold: that value's
/// entry is joined in.
proof fn lemma_join_insert(a: TokenState, b: TokenState, k: Seq<char>, e: (Set<Token>, Set<Token>))
    requires
        !b.contains_key(k),
    ensures
        set_join(a, b.insert(k, e)) == set_join(a, b).insert(
            k,
            entry_join(entry_of(set_join(a, b), k), e),
        ),
{
    let l = set_join(a, b.insert(k, e));
    let r = set_join(a, b).insert(k, entry_join(entry_of(set_join(a, b), k), e));
    assert forall|x: Seq<char>| #[trigger] l.contains_key(x) implies l[x] == r[x] by {
        if x == k {
            let ea = entry_of(a, k);
            let z = (Set::<Token>::empty(), Set::<Token>::empty());
            assert(entry_of(b, k) == z);
            let mid = entry_join(ea, z);
            assert(entry_of(set_join(a, b), k) == mid) by {
                if !a.contains_key(k) {
                    assert(mid.0 =~= Set::<Token>::empty());
                    assert(mid.1 =~= Set::<Token>::empty());
                }
            }
            assert(entry_join(mid, e).0 =~= entry_join(ea, e).0);
            assert(entry_join(mid, e).1 =~= entry_join(ea, e).1);
        }
    }
    assert(l =~= r);
}

/// Joining with an empty replica changes nothing.
proof fn lemma_join_empty(a: TokenState)
    requires
        entries_disjoint(a),
    ensures
        set_join(a, Map::empty()) == a,
{
    assert forall|x: Seq<char>| #[trigger] a.contains_key(x) implies set_join(a, Map::empty())[x]
        == a[x] by {
        let z = (Set::<Token>::empty(), Set::<Token>::empty());
        assert(entry_join(a[x], z).0 =~= a[x].0);
        assert(entry_join(a[x], z).1 =~= a[x].1);
    }
    assert(set_join(a, Map::empty()) =~= a);
}

impl SetCrdt {
    /// The node this replica adds as.
    pub closed spec fn node(self) -> u128 {
        self.node_id
    }

    /// The state: for each value recorded, its add tokens not removed and
    /// its removed tokens.
    pub closed spec fn view(self) -> TokenState {
        token_state(self.elements.map())
    }

    /// The representation invariant: entries sorted by value, each with
    /// distinct tokens, none both live and removed.
    pub closed spec fn wf(self) -> bool {
        &&& self.elements.wf()
        &&& forall|i: int|
            0 <= i < self.elements.vals().len() ==> entry_good(#[trigger] self.elements.vals()[i])
    }

    /// Finitely many values are recorded, each with finitely many tokens,
    /// none of them both live and removed.
    pub proof fn lemma_wf(self)
        requires
            self.wf(),
        ensures
            self.view().dom().finite(),
            entries_disjoint(self.view()),
            forall|v: Seq<char>| #[trigger]
                self.view().contains_key(v) ==> self.view()[v].0.finite() && self.view()[v].1.finite(),
    {
        self.elements.lemma_map();
        assert(self.view().dom() =~= self.elements.map().dom());
        assert forall|v: Seq<char>| #[trigger] self.view().contains_key(v) implies self.view()[v].0.finite()
            && self.view()[v].1.finite() && self.view()[v].0.disjoint(self.view()[v].1) by {
            let i = choose|i: int| 0 <= i < self.elements.keys().len() && self.elements.keys()[i] == v;
            let e = self.elements.vals()[i];
            assert(self.view()[v] == entry_sets(e));
            e.live@.unique_seq_to_set();
            e.removed@.unique_seq_to_set();
        }
    }

    /// Under the representation invariant, every entry is good.
    proof fn lemma_entries_good(self)
        requires
            self.wf(),
        ensures
            forall|k: Seq<char>| #[trigger]
                self.elements.map().contains_key(k) ==> entry_good(self.elements.map()[k]),
    {
        self.elements.lemma_map();
        assert forall|k: Seq<char>| #[trigger] self.elements.map().contains_key(k) implies entry_good(
            self.elements.map()[k],
        ) by {
            let i = choose|i: int| 0 <= i < self.elements.keys().len() && self.elements.keys()[i] == k;
            assert(self.elements.map()[self.elements.keys()[i]] == self.elements.vals()[i]);
        }
    }

    /// Sorted entries that are all good are well formed.
    proof fn lemma_wf_from_map(self)
        requires
            self.elements.wf(),
            forall|k: Seq<char>| #[trigger]
                self.elements.map().contains_key(k) ==> entry_good(self.elements.map()[k]),
        ensures
            self.wf(),
    {
        self.elements.lemma_map();
        assert forall|j: int| 0 <= j < self.elements.vals().len() implies entry_good(
            #[trigger] self.elements.vals()[j],
        ) by {
            assert(self.elements.map().contains_key(self.elements.keys()[j]));
        }
    }

    /// An empty set for node `node_id`.
    pub fn new(node_id: u128) -> (s: Self)
        ensures
            s.wf(),
            s.node() == node_id,
            s.view() == TokenState::empty(),
    {
        let s = SetCrdt { node_id, elements: StrMap::new() };
        assert(s.view() =~= TokenState::empty());
        s
    }

    /// The tokens recorded for `value`: its live ones and its removed ones.
    fn entry_at(&self, value: &String) -> (r: (Vec<Token>, Vec<Token>))
        requires
            self.wf(),
        ensures
            r.0@.no_duplicates(),
            r.1@.no_duplicates(),
            r.0@.to_set().disjoint(r.1@.to_set()),
            (r.0@.to_set(), r.1@.to_set()) == entry_of(self.view(), value@),
    {
        proof {
            self.elements.lemma_map();
        }
        match self.elements.find(value.as_str()) {
            Some(i) => {
                let e = self.elements.value_at(i);
                let live = e.live.clone();
                let removed = e.removed.clone();
                assert(live@ =~= e.live@);
                assert(removed@ =~= e.removed@);
                (live, removed)
            },
            None => {
                let live: Vec<Token> = Vec::new();
                let removed: Vec<Token> = Vec::new();
                assert(live@.to_set() =~= Set::<Token>::empty());
                assert(removed@.to_set() =~= Set::<Token>::empty());
                (live, removed)
            },
        }
    }

    /// Record `live` and `removed` as the tokens of `value`.
    fn put_entry(&mut self, value: &String, live: Vec<Token>, removed: Vec<Token>)
        requires
            old(self).wf(),
            live@.no_duplicates(),
            removed@.no_duplicates(),
            live@.to_set().disjoint(removed@.to_set()),
        ensures
            final(self).wf(),
            final(self).node() == old(self).node(),
            final(self).view() == old(self).view().insert(
                value@,
                (live@.to_set(), removed@.to_set()),
            ),
    {
        let e = TokenEntry { live, removed };
        let ghost ge = e;
        proof {
            old(self).lemma_entries_good();
        }
        self.elements.insert(value.clone(), e);
        proof {
            self.lemma_wf_from_map();
            assert(self.view() =~= old(self).view().insert(value@, entry_sets(ge)));
        }
    }

    /// Whether `value` is in the set.
    pub fn contains(&self, value: &String) -> (b: bool)
        requires
            self.wf(),
        ensures
            b == present(self.view(), value@),
    {
        let (live, _removed) = self.entry_at(value);
        proof {
            if live.len() > 0 {
                assert(live@.to_set().contains(live@[0]));
            } else {
                assert(live@.to_set() =~= Set::<Token>::empty());
            }
        }
        live.len() > 0
    }

    /// Add `value` with a fresh token stamped by `clock`; returns the
    /// operation to send to other replicas.
    pub fn add(&mut self, value: String, clock: &mut HLC) -> (op: SetOp)
        requires
            old(self).wf(),
            old(clock).logical < u64::MAX,
        ensures
            final(self).wf(),
            final(self).node() == old(self).node(),
            op == (SetOp::Add {
                value,
                token: Token { node_id: old(self).node(), timestamp: *final(clock) },
            }),
            final(self).view() == set_add_local(
                old(self).view(),
                value@,
                Token { node_id: old(self).node(), timestamp: *final(clock) },
            ),
            present(final(self).view(), value@),
            old(clock).precedes(*final(clock)),
            exists|wall: u64| *final(clock) == #[trigger] old(clock).ticked(wall),
    {
        let token = Token { node_id: self.node_id, timestamp: clock.now() };
        self.add_local_token(&value, token);
        SetOp::Add { value, token }
    }

    /// Record token `t` of `value` as live, and not removed.
    fn add_local_token(&mut self, value: &String, t: Token)
        requires
            old(self).wf(),
        ensures
            final(self).wf(),
            final(self).node() == old(self).node(),
            final(self).view() == set_add_local(old(self).view(), value@, t),
            present(final(self).view(), value@),
    {
        let (mut live, removed) = self.entry_at(value);
        tokens_insert(&mut live, t);
        let mut one: Vec<Token> = Vec::new();
        one.push(t);
        let rest = tokens_without(&removed, &one);
        proof {
            assert(one@ =~= seq![t]);
            assert(one@.to_set().contains(t)) by {
                assert(one@[0] == t);
            }
            assert forall|x: Token| one@.to_set().contains(x) implies x == t by {
                let j = choose|j: int| 0 <= j < one@.len() && one@[j] == x;
            }
            assert(rest@.to_set() =~= removed@.to_set().remove(t));
        }
        let ghost l = live@.to_set();
        self.put_entry(value, live, rest);
        proof {
            assert(self.view()[value@].0.contains(t));
        }
    }

    /// Record token `t` of `value`, unless it was removed already.
    fn add_token(&mut self, value: &String, t: Token)
        requires
            old(self).wf(),
        ensures
            final(self).wf(),
            final(self).node() == old(self).node(),
            final(self).view() == set_add(old(self).view(), value@, t),
    {
        let (mut live, removed) = self.entry_at(value);
        if tokens_contain(&removed, &t) {
            return;
        }
        let ghost l0 = live@.to_set();
        tokens_insert(&mut live, t);
        self.put_entry(value, live, removed);
    }

    /// Remove `value`, with every token this replica has observed for it;
    /// returns the operation to send to other replicas, or `None` if the
    /// value is not in the set.
    pub fn remove(&mut self, value: &String, _clock: &mut HLC) -> (op: Option<SetOp>)
        requires
            old(self).wf(),
        ensures
            final(self).wf(),
            final(self).node() == old(self).node(),
            *final(_clock) == *old(_clock),
            !present(old(self).view(), value@) ==> op is None && final(self).view() == old(
                self,
            ).view(),
            present(old(self).view(), value@) ==> final(self).view() == set_remove(
                old(self).view(),
                value@,
                entry_of(old(self).view(), value@).0,
            ) && match op {
                Some(SetOp::Remove { value: v, tokens }) => v == *value && tokens@.to_set()
                    == entry_of(old(self).view(), value@).0 && tokens@.no_duplicates(),
                _ => false,
            },
    {
        let (live, mut removed) = self.entry_at(value);
        if live.len() == 0 {
            assert(live@.to_set() =~= Set::<Token>::empty());
            return None;
        }
        assert(live@.to_set().contains(live@[0]));
        let ghost l = live@.to_set();
        tokens_union(&mut removed, &live);
        let gone = live.clone();
        assert(gone@ =~= live@);
        let rest: Vec<Token> = Vec::new();
        assert(rest@.to_set() =~= l.difference(l));
        self.put_entry(value, rest, removed);
        Some(SetOp::Remove { value: value.clone(), tokens: gone })
    }

    /// Apply an operation received from another replica.
    pub fn apply_op(&mut self, op: &SetOp)
        requires
            old(self).wf(),
        ensures
            final(self).wf(),
            final(self).node() == old(self).node(),
            final(self).view() == match *op {
                SetOp::Add { value, token } => set_add(old(self).view(), value@, token),
                SetOp::Remove { value, tokens } => set_remove(
                    old(self).view(),
                    value@,
                    tokens@.to_set(),
                ),
            },
    {
        match op {
            SetOp::Add { value, token } => {
                self.add_token(value, *token);
            },
            SetOp::Remove { value, tokens } => {
                let (live, mut removed) = self.entry_at(value);
                let rest = tokens_without(&live, tokens);
                tokens_union(&mut removed, tokens);
                self.put_entry(value, rest, removed);
            },
        }
    }

    /// Merge the state of another replica: for each value, every add token
    /// of either side that neither side removed, and every removed token.
    pub fn merge(&mut self, other: &SetCrdt)
        requires
            old(self).wf(),
            other.wf(),
        ensures
            final(self).wf(),
            final(self).node() == old(self).node(),
            final(self).view() == set_join(old(self).view(), other.view()),
    {
        let ghost ok = other.elements.keys();
        let ghost ov = other.elements.vals();
        proof {
            other.elements.lemma_map();
            old(self).lemma_wf();
            assert(ok.take(0) =~= Seq::<Seq<char>>::empty());
            assert(token_state(map_of(ok.take(0), ov.take(0))) =~= TokenState::empty());
            lemma_join_empty(old(self).view());
        }
        let n = other.elements.len();
        let mut i: usize = 0;
        while i < n
            invariant
                n == ok.len(),
                ok == other.elements.keys(),
                ov == other.elements.vals(),
                other.wf(),
                ok.no_duplicates(),
                ok.len() == ov.len(),
                i <= n,
                self.wf(),
                self.node() == old(self).node(),
                self.view() == set_join(
                    old(self).view(),
                    token_state(map_of(ok.take(i as int), ov.take(i as int))),
                ),
            decreases n - i,
        {
            let key = other.elements.key_at(i);
            let oe = other.elements.value_at(i);
            let ghost part = token_state(map_of(ok.take(i as int), ov.take(i as int)));
            let ghost before = self.view();
            let (mut live, mut removed) = self.entry_at(key);
            tokens_union(&mut removed, &oe.removed);
            tokens_union(&mut live, &oe.live);
            let rest = tokens_without(&live, &removed);
            assert(rest@.to_set().disjoint(removed@.to_set()));
            self.put_entry(key, rest, removed);
            proof {
                assert(ok.take(i as int).insert(i as int, ok[i as int]) =~= ok.take(i + 1));
                assert(ov.take(i as int).insert(i as int, ov[i as int]) =~= ov.take(i + 1));
                assert(!ok.take(i as int).contains(ok[i as int])) by {
                    if ok.take(i as int).contains(ok[i as int]) {
                        let j = choose|j: int| 0 <= j < i && ok.take(i as int)[j] == ok[i as int];
                        assert(ok[j] == ok[i as int]);
                    }
                }
                crate::str_map::lemma_map_of_insert(
                    ok.take(i as int),
                    ov.take(i as int),
                    i as int,
                    ok[i as int],
                    ov[i as int],
                );
                let next = token_state(map_of(ok.take(i + 1), ov.take(i + 1)));
                assert(next =~= part.insert(ok[i as int], entry_sets(ov[i as int])));
                assert(!part.contains_key(ok[i as int]));
                lemma_join_insert(old(self).view(), part, ok[i as int], entry_sets(ov[i as int]));
                assert(self.view() =~= set_join(old(self).view(), next));
            }
            i += 1;
        }
        proof {
            assert(ok.take(n as int) =~= ok);
            assert(ov.take(n as int) =~= ov);
        }
    }

    /// The values in the set, in increasing order.
    pub fn iter(&self) -> (r: Vec<&String>)
        requires
            self.wf(),
        ensures
            r@.len() == live_keys(self.view()).len(),
            forall|i: int| 0 <= i < r@.len() ==> present(self.view(), #[trigger] r@[i]@),
            forall|v: Seq<char>| present(self.view(), v) ==> exists|i: int|
                0 <= i < r@.len() && (#[trigger] r@[i])@ == v,
            forall|i: int, j: int| 0 <= i < j < r@.len() ==> chars_lt(r@[i]@, r@[j]@),
    {
        proof {
            self.elements.lemma_map();
        }
        let ghost ks = self.elements.keys();
        let mut r: Vec<&String> = Vec::new();
        let ghost mut idx: Seq<int> = Seq::empty();
        let mut i: usize = 0;
        while i < self.elements.len()
            invariant
                self.wf(),
                ks == self.elements.keys(),
                i <= ks.len(),
                idx.len() == r@.len(),
                forall|a: int|
                    0 <= a < r@.len() ==> 0 <= #[trigger] idx[a] < i && ks[idx[a]] == r@[a]@
                        && self.elements.vals()[idx[a]].live@.len() > 0,
                forall|j: int|
                    0 <= j < i && self.elements.vals()[j].live@.len() > 0 ==> exists|a: int|
                        0 <= a < r@.len() && (#[trigger] r@[a])@ == ks[j],
                forall|a: int, b: int| 0 <= a < b < r@.len() ==> chars_lt(r@[a]@, r@[b]@),
            decreases ks.len() - i,
        {
            if self.elements.value_at(i).live.len() > 0 {
                let ghost before = r@;
                let ghost bidx = idx;
                r.push(self.elements.key_at(i));
                proof {
                    idx = idx.push(i as int);
                    assert(r@[before.len() as int]@ == ks[i as int]);
                    assert forall|a: int, b: int| 0 <= a < b < r@.len() implies chars_lt(
                        r@[a]@,
                        r@[b]@,
                    ) by {
                        if b == before.len() {
                            assert(r@[a] == before[a]);
                            assert(bidx[a] < i);
                        } else {
                            assert(r@[a] == before[a] && r@[b] == before[b]);
                        }
                    }
                    assert forall|a: int|
                        0 <= a < r@.len() implies 0 <= #[trigger] idx[a] < i + 1 && ks[idx[a]] == r@[a]@
                        && self.elements.vals()[idx[a]].live@.len() > 0 by {
                        if a < before.len() {
                            assert(r@[a] == before[a]);
                            assert(idx[a] == bidx[a]);
                        }
                    }
                    assert forall|j: int|
                        0 <= j < i + 1 && self.elements.vals()[j].live@.len() > 0 implies exists|a: int|
                        0 <= a < r@.len() && (#[trigger] r@[a])@ == ks[j] by {
                        if j < i {
                            let a = choose|a: int| 0 <= a < before.len() && (#[trigger] before[a])@ == ks[j];
                            assert(r@[a] == before[a]);
                        } else {
                            assert(r@[before.len() as int]@ == ks[j]);
                        }
                    }
                }
            }
            i += 1;
        }
        proof {
            self.lemma_present_keys();
            let rs = r@.map_values(|s: &String| s@);
            assert forall|a: int, b: int| 0 <= a < rs.len() && 0 <= b < rs.len() && a != b implies rs[a]
                != rs[b] by {
                if a < b {
                    crate::strings::lemma_chars_lt_irreflexive(rs[a]);
                } else {
                    crate::strings::lemma_chars_lt_irreflexive(rs[b]);
                }
            }
            assert forall|v: Seq<char>| rs.to_set().contains(v) == live_keys(self.view()).contains(v) by {
                if rs.to_set().contains(v) {
                    let a = choose|a: int| 0 <= a < rs.len() && rs[a] == v;
                    assert(r@[a]@ == v);
                    let j = idx[a];
                    assert(present(self.view(), ks[j]));
                }
                if live_keys(self.view()).contains(v) {
                    let j = choose|j: int| 0 <= j < ks.len() && ks[j] == v;
                    assert(self.elements.vals()[j].live@.len() > 0);
                    let a = choose|a: int| 0 <= a < r@.len() && (#[trigger] r@[a])@ == ks[j];
                    assert(rs[a] == v);
                }
            }
            assert(rs.to_set() =~= live_keys(self.view()));
            rs.unique_seq_to_set();
            assert forall|i: int| 0 <= i < r@.len() implies present(self.view(), #[trigger] r@[i]@) by {
                let j = idx[i];
                assert(present(self.view(), ks[j]));
            }
            assert forall|v: Seq<char>| present(self.view(), v) implies exists|i: int|
                0 <= i < r@.len() && (#[trigger] r@[i])@ == v by {
                assert(live_keys(self.view()).contains(v));
                let j = choose|j: int| 0 <= j < ks.len() && ks[j] == v;
            }
        }
        r
    }

    /// A value is in the set exactly when its entry holds a live token.
    proof fn lemma_present_keys(self)
        requires
            self.wf(),
        ensures
            forall|j: int|
                0 <= j < self.elements.keys().len() ==> (present(
                    self.view(),
                    #[trigger] self.elements.keys()[j],
                ) <==> self.elements.vals()[j].live@.len() > 0),
            forall|v: Seq<char>| #[trigger]
                present(self.view(), v) ==> self.elements.keys().contains(v),
    {
        self.elements.lemma_map();
        assert forall|j: int| 0 <= j < self.elements.keys().len() implies (present(
            self.view(),
            #[trigger] self.elements.keys()[j],
        ) <==> self.elements.vals()[j].live@.len() > 0) by {
            let e = self.elements.vals()[j];
            if e.live@.len() > 0 {
                assert(e.live@.to_set().contains(e.live@[0]));
            } else {
                assert(e.live@.to_set() =~= Set::<Token>::empty());
            }
        }
    }

    /// Number of values in the set.
    pub fn len(&self) -> (n: usize)
        requires
            self.wf(),
        ensures
            n == live_keys(self.view()).len(),
    {
        self.iter().len()
    }

    /// Whether the set has no value.
    pub fn is_empty(&self) -> (b: bool)
        requires
            self.wf(),
        ensures
            b == (live_keys(self.view()).len() == 0),
    {
        self.len() == 0
    }
}

/// Whether the tokens of `v` are distinct.
pub(crate) fn tokens_distinct(v: &Vec<Token>) -> (b: bool)
    ensures
        b == v@.no_duplicates(),
{
    let mut i: usize = 0;
    while i < v.len()
        invariant
            i <= v@.len(),
            forall|a: int, c: int| 0 <= a < i && 0 <= c < i && a != c ==> v@[a] != v@[c],
        decreases v.len() - i,
    {
        let mut j: usize = 0;
        while j < i
            invariant
                j <= i < v@.len(),
                forall|c: int| 0 <= c < j ==> v@[c] != v@[i as int],
            decreases i - j,
        {
            if v[j] == v[i] {
                return false;
            }
            j += 1;
        }
        i += 1;
    }
    true
}

/// Whether no token of `a` is in `b`.
fn tokens_disjoint(a: &Vec<Token>, b: &Vec<Token>) -> (r: bool)
    ensures
        r == a@.to_set().disjoint(b@.to_set()),
{
    let mut i: usize = 0;
    while i < a.len()
        invariant
            i <= a@.len(),
            forall|j: int| 0 <= j < i ==> !b@.contains(#[trigger] a@[j]),
        decreases a.len() - i,
    {
        if tokens_contain(b, &a[i]) {
            assert(a@.to_set().contains(a@[i as int]) && b@.to_set().contains(a@[i as int]));
            return false;
        }
        i += 1;
    }
    assert forall|t: Token| a@.to_set().contains(t) implies !b@.to_set().contains(t) by {
        let j = choose|j: int| 0 <= j < a@.len() && a@[j] == t;
        assert(!b@.contains(a@[j]));
    }
    true
}

impl SetCrdt {
    /// The replica's node and its entries, in increasing order of value:
    /// each value with its live tokens and its removed tokens.
    pub fn to_parts(&self) -> (r: (u128, Vec<(String, Vec<Token>, Vec<Token>)>))
        requires
            self.wf(),
        ensures
            r.0 == self.node(),
            forall|i: int|
                0 <= i < r.1@.len() ==> self.view().contains_key(#[trigger] r.1@[i].0@) && self.view()[r.1@[i].0@]
                    == (r.1@[i].1@.to_set(), r.1@[i].2@.to_set()),
            forall|v: Seq<char>| #[trigger]
                self.view().contains_key(v) ==> exists|i: int| #![trigger r.1@[i]] 0 <= i < r.1@.len() && r.1@[i].0@ == v,
            forall|i: int, j: int| 0 <= i < j < r.1@.len() ==> chars_lt(r.1@[i].0@, r.1@[j].0@),
    {
        proof {
            self.elements.lemma_map();
        }
        let ghost ks = self.elements.keys();
        let mut out: Vec<(String, Vec<Token>, Vec<Token>)> = Vec::new();
        let mut i: usize = 0;
        while i < self.elements.len()
            invariant
                self.wf(),
                ks == self.elements.keys(),
                i <= ks.len(),
                out@.len() == i,
                forall|j: int| #![trigger out@[j]]
                    0 <= j < i ==> out@[j].0@ == ks[j] && (out@[j].1@.to_set(), out@[j].2@.to_set())
                        == entry_sets(self.elements.vals()[j]),
            decreases ks.len() - i,
        {
            let k = self.elements.key_at(i).clone();
            let e = self.elements.value_at(i);
            let live = e.live.clone();
            let removed = e.removed.clone();
            assert(live@ =~= e.live@);
            assert(removed@ =~= e.removed@);
            let ghost before = out@;
            out.push((k, live, removed));
            assert forall|j: int| #![trigger out@[j]] 0 <= j < i + 1 implies out@[j].0@ == ks[j] && (
            out@[j].1@.to_set(), out@[j].2@.to_set()) == entry_sets(self.elements.vals()[j]) by {
                if j < i {
                    assert(out@[j] == before[j]);
                }
            }
            i += 1;
        }
        let r = (self.node_id, out);
        proof {
            assert forall|i: int| 0 <= i < r.1@.len() implies self.view().contains_key(
                #[trigger] r.1@[i].0@,
            ) && self.view()[r.1@[i].0@] == (r.1@[i].1@.to_set(), r.1@[i].2@.to_set()) by {
                assert(r.1@[i].0@ == ks[i]);
            }
            assert forall|v: Seq<char>| #[trigger] self.view().contains_key(v) implies exists|i: int| #![trigger r.1@[i]]
                0 <= i < r.1@.len() && r.1@[i].0@ == v by {
                assert(self.elements.map().contains_key(v));
                assert(ks.contains(v));
                let i = choose|i: int| 0 <= i < ks.len() && ks[i] == v;
                assert(r.1@[i].0@ == ks[i]);
                assert(0 <= i < r.1@.len() && r.1@[i].0@ == v);
            }
            assert forall|i: int, j: int| 0 <= i < j < r.1@.len() implies chars_lt(r.1@[i].0@, r.1@[j].0@) by {
                assert(r.1@[i].0@ == ks[i] && r.1@[j].0@ == ks[j]);
            }
        }
        r
    }

    /// A replica from its node and entries, or `None` when they break the
    /// representation invariant: values not in strictly increasing order, a
    /// value with repeated tokens, or a token both live and removed.
    pub fn from_parts(node_id: u128, entries: Vec<(String, Vec<Token>, Vec<Token>)>) -> (r: Option<
        Self,
    >)
        ensures
            r is Some <==> (forall|i: int, j: int|
                0 <= i < j < entries@.len() ==> chars_lt(entries@[i].0@, entries@[j].0@)) && (forall|
                i: int,
            |
                0 <= i < entries@.len() ==> (#[trigger] entries@[i]).1@.no_duplicates()
                    && entries@[i].2@.no_duplicates() && entries@[i].1@.to_set().disjoint(
                    entries@[i].2@.to_set(),
                )),
            r matches Some(s) ==> {
                &&& s.wf()
                &&& s.node() == node_id
                &&& forall|i: int|
                    0 <= i < entries@.len() ==> s.view().contains_key(#[trigger] entries@[i].0@)
                        && s.view()[entries@[i].0@] == (entries@[i].1@.to_set(), entries@[i].2@.to_set())
                &&& forall|v: Seq<char>| #[trigger]
                    s.view().contains_key(v) ==> exists|i: int| 0 <= i < entries@.len() && entries@[i].0@ == v
            },
    {
        let ghost all = entries@;
        let n = entries.len();
        let mut i: usize = 0;
        while i < n
            invariant
                n == all.len(),
                all == entries@,
                i <= n,
                forall|a: int, b: int| 0 <= a < b < i ==> chars_lt(all[a].0@, all[b].0@),
                forall|a: int|
                    0 <= a < i ==> (#[trigger] all[a]).1@.no_duplicates() && all[a].2@.no_duplicates()
                        && all[a].1@.to_set().disjoint(all[a].2@.to_set()),
            decreases n - i,
        {
            if i > 0 {
                if crate::strings::str_order(entries[i - 1].0.as_str(), entries[i].0.as_str())
                    != crate::strings::StrOrder::Less {
                    return None;
                }
                proof {
                    assert forall|a: int, b: int| 0 <= a < b < i + 1 implies chars_lt(all[a].0@, all[b].0@) by {
                        if b == i && a < i - 1 {
                            crate::strings::lemma_chars_lt_transitive(all[a].0@, all[i - 1].0@, all[b].0@);
                        }
                    }
                }
            }
            if !tokens_distinct(&entries[i].1) || !tokens_distinct(&entries[i].2) || !tokens_disjoint(
                &entries[i].1,
                &entries[i].2,
            ) {
                return None;
            }
            i += 1;
        }
        let mut rest = entries;
        let mut built: Vec<(String, TokenEntry)> = Vec::new();
        while rest.len() > 0
            invariant
                built@.len() + rest@.len() == all.len(),
                rest@ == all.skip(built@.len() as int),
                forall|j: int| #![trigger built@[j]]
                    0 <= j < built@.len() ==> built@[j].0@ == all[j].0@ && built@[j].1.live@ == all[j].1@
                        && built@[j].1.removed@ == all[j].2@,
            decreases rest.len(),
        {
            let ghost before = built@;
            let ghost rb = rest@;
            let (k, live, removed) = rest.remove(0);
            built.push((k, TokenEntry { live, removed }));
            assert(rest@ =~= all.skip(built@.len() as int));
            assert forall|j: int| #![trigger built@[j]] 0 <= j < built@.len() implies built@[j].0@ == all[j].0@
                && built@[j].1.live@ == all[j].1@ && built@[j].1.removed@ == all[j].2@ by {
                if j < before.len() {
                    assert(built@[j] == before[j]);
                } else {
                    assert(rb[0] == all[j]);
                }
            }
        }
        let s = SetCrdt { node_id, elements: StrMap { entries: built } };
        proof {
            let ks = s.elements.keys();
            assert forall|a: int, b: int| 0 <= a < b < ks.len() implies chars_lt(ks[a], ks[b]) by {
                assert(ks[a] == all[a].0@ && ks[b] == all[b].0@);
            }
            assert(s.elements.wf());
            assert forall|j: int| 0 <= j < s.elements.vals().len() implies entry_good(
                #[trigger] s.elements.vals()[j],
            ) by {
                assert(s.elements.vals()[j] == built@[j].1);
            }
            s.elements.lemma_map();
            assert forall|i: int| 0 <= i < all.len() implies s.view().contains_key(#[trigger] all[i].0@)
                && s.view()[all[i].0@] == (all[i].1@.to_set(), all[i].2@.to_set()) by {
                assert(ks[i] == all[i].0@);
                assert(s.elements.map()[ks[i]] == s.elements.vals()[i]);
            }
            assert forall|v: Seq<char>| #[trigger] s.view().contains_key(v) implies exists|i: int|
                0 <= i < all.len() && all[i].0@ == v by {
                let i = choose|i: int| 0 <= i < ks.len() && ks[i] == v;
                assert(ks[i] == all[i].0@);
            }
        }
        Some(s)
    }
}

impl Clone for SetOp {
    fn clone(&self) -> (r: Self)
        ensures
            match (*self, r) {
                (SetOp::Add { value: v, token: t }, SetOp::Add { value: w, token: u }) => v == w && t
                    == u,
                (SetOp::Remove { value: v, tokens: t }, SetOp::Remove { value: w, tokens: u }) => v
                    == w && t@ == u@,
                _ => false,
            },
    {
        match self {
            SetOp::Add { value, token } => SetOp::Add { value: value.clone(), token: *token },
            SetOp::Remove { value, tokens } => {
                let c = tokens.clone();
                assert(c@ =~= tokens@);
                SetOp::Remove { value: value.clone(), tokens: c }
            },
        }
    }
}

impl Clone for SetCrdt {
    fn clone(&self) -> (r: Self)
        ensures
            r.node() == self.node(),
            r.view() == self.view(),
            self.wf() ==> r.wf(),
    {
        let mut entries: Vec<(String, TokenEntry)> = Vec::new();
        let mut i: usize = 0;
        while i < self.elements.entries.len()
            invariant
                i <= self.elements.entries@.len(),
                entries@.len() == i,
                forall|j: int|
                    0 <= j < i ==> (#[trigger] entries@[j]).0@ == self.elements.entries@[j].0@
                        && entries@[j].1.live@ == self.elements.entries@[j].1.live@
                        && entries@[j].1.removed@ == self.elements.entries@[j].1.removed@,
            decreases self.elements.entries.len() - i,
        {
            let k = self.elements.entries[i].0.clone();
            let live = self.elements.entries[i].1.live.clone();
            let removed = self.elements.entries[i].1.removed.clone();
            assert(live@ =~= self.elements.entries@[i as int].1.live@);
            assert(removed@ =~= self.elements.entries@[i as int].1.removed@);
            entries.push((k, TokenEntry { live, removed }));
            i += 1;
        }
        let r = SetCrdt { node_id: self.node_id, elements: StrMap { entries } };
        proof {
            assert(r.elements.keys() =~= self.elements.keys());
            assert forall|j: int| 0 <= j < r.elements.vals().len() implies entry_sets(
                #[trigger] r.elements.vals()[j],
            ) == entry_sets(self.elements.vals()[j]) by {}
            assert forall|k: Seq<char>| #[trigger] r.view().contains_key(k) implies r.view()[k]
                == self.view()[k] by {
                let ks = self.elements.keys();
                assert(ks.contains(k));
                let idx = ks.index_of(k);
                assert(0 <= idx < ks.len());
                assert(entry_sets(r.elements.vals()[idx]) == entry_sets(self.elements.vals()[idx]));
            }
            assert(r.view().dom() =~= self.view().dom());
            assert(r.view() =~= self.view());
        }
        r
    }
}

impl CrdtValue for SetCrdt {
    type Op = SetOp;

    open spec fn can_apply(&self, op: &SetOp) -> bool {
        self.wf()
    }

    open spec fn can_merge(&self, other: &Self) -> bool {
        self.wf() && other.wf()
    }

    /// As `apply_op` states.
    open spec fn applied(old: Self, op: SetOp, new: Self) -> bool {
        &&& new.wf()
        &&& new.node() == old.node()
        &&& new.view() == match op {
            SetOp::Add { value, token } => set_add(old.view(), value@, token),
            SetOp::Remove { value, tokens } => set_remove(old.view(), value@, tokens@.to_set()),
        }
    }

    /// As `merge` states.
    open spec fn merged(old: Self, other: Self, new: Self) -> bool {
        &&& new.wf()
        &&& new.node() == old.node()
        &&& new.view() == set_join(old.view(), other.view())
    }

    fn apply(&mut self, op: &SetOp) {
        self.apply_op(op);
    }

    fn merge(&mut self, other: &Self) {
        SetCrdt::merge(self, other);
    }
}

/// Add wins over a concurrent remove: a remove that did not observe the
/// token of an add commutes with it, and the value stays in the set.
pub proof fn lemma_add_wins(m: TokenState, v: Seq<char>, t: Token, ts: Set<Token>)
    requires
        !ts.contains(t),
        !entry_of(m, v).1.contains(t),
    ensures
        set_remove(set_add(m, v, t), v, ts) == set_add(set_remove(m, v, ts), v, t),
        present(set_remove(set_add(m, v, t), v, ts), v),
{
    let e = entry_of(m, v);
    let l = set_remove(set_add(m, v, t), v, ts);
    let r = set_add(set_remove(m, v, ts), v, t);
    assert(e.0.insert(t).difference(ts) =~= e.0.difference(ts).insert(t));
    assert(l =~= r);
    assert(l[v].0.contains(t));
}

/// A remove that observed every add token of a value wins over an older
/// replica: merging, in either order, with a replica whose add tokens for
/// that value the remove saw leaves the value out.
pub proof fn lemma_observed_remove_wins(a: TokenState, b: TokenState, v: Seq<char>)
    requires
        entry_of(b, v).0.subset_of(entry_of(a, v).0),
    ensures
        !present(set_join(set_remove(a, v, entry_of(a, v).0), b), v),
        !present(set_join(b, set_remove(a, v, entry_of(a, v).0)), v),
{
    let ar = set_remove(a, v, entry_of(a, v).0);
    let ea = entry_of(a, v);
    let eb = entry_of(b, v);
    assert(entry_of(ar, v) == (ea.0.difference(ea.0), ea.1.union(ea.0)));
    assert(entry_of(set_join(ar, b), v).0 =~= Set::<Token>::empty());
    assert(entry_of(set_join(b, ar), v).0 =~= Set::<Token>::empty());
}

/// Merging replicas is commutative.
pub proof fn lemma_set_join_commutative(a: TokenState, b: TokenState)
    ensures
        set_join(a, b) == set_join(b, a),
{
    assert forall|k: Seq<char>| #[trigger] set_join(a, b).contains_key(k) implies set_join(a, b)[k]
        == set_join(b, a)[k] by {
        let x = entry_of(a, k);
        let y = entry_of(b, k);
        assert(entry_join(x, y).0 =~= entry_join(y, x).0);
        assert(entry_join(x, y).1 =~= entry_join(y, x).1);
    }
    assert(set_join(a, b) =~= set_join(b, a));
}

/// Merging replicas is associative.
pub proof fn lemma_set_join_associative(a: TokenState, b: TokenState, c: TokenState)
    ensures
        set_join(set_join(a, b), c) == set_join(a, set_join(b, c)),
{
    let l = set_join(set_join(a, b), c);
    let r = set_join(a, set_join(b, c));
    let z = (Set::<Token>::empty(), Set::<Token>::empty());
    assert forall|k: Seq<char>| #[trigger] l.contains_key(k) implies l[k] == r[k] by {
        let x = entry_of(a, k);
        let y = entry_of(b, k);
        let w = entry_of(c, k);
        let xy = entry_of(set_join(a, b), k);
        let yw = entry_of(set_join(b, c), k);
        if a.contains_key(k) || b.contains_key(k) {
            assert(xy == entry_join(x, y));
        } else {
            assert(x == z && y == z);
            assert(xy.0 =~= entry_join(x, y).0);
            assert(xy.1 =~= entry_join(x, y).1);
        }
        if b.contains_key(k) || c.contains_key(k) {
            assert(yw == entry_join(y, w));
        } else {
            assert(y == z && w == z);
            assert(yw.0 =~= entry_join(y, w).0);
            assert(yw.1 =~= entry_join(y, w).1);
        }
        assert(entry_join(entry_join(x, y), w).0 =~= entry_join(x, entry_join(y, w)).0);
        assert(entry_join(entry_join(x, y), w).1 =~= entry_join(x, entry_join(y, w)).1);
    }
    assert(l =~= r);
}

/// Merging a replica with itself changes nothing.
pub proof fn lemma_set_join_idempotent(a: TokenState)
    requires
        entries_disjoint(a),
    ensures
        set_join(a, a) == a,
{
    assert forall|k: Seq<char>| #[trigger] a.contains_key(k) implies set_join(a, a)[k] == a[k] by {
        assert(entry_join(a[k], a[k]).0 =~= a[k].0);
        assert(entry_join(a[k], a[k]).1 =~= a[k].1);
    }
    assert(set_join(a, a) =~= a);
}

} // verus!
