//! The collections the contract keeps: fee tiers in the order they were
//! added, pools by key, and pool keys in the order the pools were created.
use crate::contracts::errors::InvariantError;
use crate::contracts::storage::{FeeTier, Pool, PoolKey};
use vstd::prelude::*;

verus! {

/// The map that an association list stands for: a later entry wins over an earlier one.
pub open spec fn assoc_map<K, V>(s: Seq<(K, V)>) -> Map<K, V>
    decreases s.len(),
{
    if s.len() == 0 {
        Map::empty()
    } else {
        assoc_map(s.drop_last()).insert(s.last().0, s.last().1)
    }
}

/// No key occurs twice in the association list.
pub open spec fn keys_distinct<K, V>(s: Seq<(K, V)>) -> bool {
    forall|i: int, j: int| 0 <= i < j < s.len() ==> #[trigger] s[i].0 != #[trigger] s[j].0
}

/// A key is in the map exactly when some entry has it.
pub proof fn lemma_assoc_map_dom<K, V>(s: Seq<(K, V)>, k: K)
    ensures
        assoc_map(s).dom().contains(k) <==> exists|i: int| 0 <= i < s.len() && #[trigger] s[i].0 == k,
    decreases s.len(),
{
    if s.len() > 0 {
        let t = s.drop_last();
        lemma_assoc_map_dom(t, k);
        if exists|i: int| 0 <= i < t.len() && #[trigger] t[i].0 == k {
            let i = choose|i: int| 0 <= i < t.len() && #[trigger] t[i].0 == k;
            assert(s[i].0 == k);
        }
        if exists|i: int| 0 <= i < s.len() && #[trigger] s[i].0 == k {
            let i = choose|i: int| 0 <= i < s.len() && #[trigger] s[i].0 == k;
            if i < t.len() {
                assert(t[i].0 == k);
            }
        }
    }
}

/// With distinct keys, the map gives each entry's key that entry's value.
pub proof fn lemma_assoc_map_index<K, V>(s: Seq<(K, V)>, i: int)
    requires
        keys_distinct(s),
        0 <= i < s.len(),
    ensures
        assoc_map(s).dom().contains(s[i].0),
        assoc_map(s)[s[i].0] == s[i].1,
    decreases s.len(),
{
    let t = s.drop_last();
    if i < s.len() - 1 {
        assert(keys_distinct(t)) by {
            assert forall|a: int, b: int| 0 <= a < b < t.len() implies #[trigger] t[a].0 != #[trigger] t[b].0 by {
                assert(s[a].0 != s[b].0);
            }
        }
        assert(t[i] == s[i]);
        lemma_assoc_map_index(t, i);
        assert(s[i].0 != s[s.len() - 1].0);
    }
}

/// Replacing the value of an entry replaces that key's value in the map.
pub proof fn lemma_assoc_map_update<K, V>(s: Seq<(K, V)>, i: int, v: V)
    requires
        keys_distinct(s),
        0 <= i < s.len(),
    ensures
        keys_distinct(s.update(i, (s[i].0, v))),
        assoc_map(s.update(i, (s[i].0, v))) == assoc_map(s).insert(s[i].0, v),
    decreases s.len(),
{
    let u = s.update(i, (s[i].0, v));
    let t = s.drop_last();
    assert(keys_distinct(u)) by {
        assert forall|a: int, b: int| 0 <= a < b < u.len() implies #[trigger] u[a].0 != #[trigger] u[b].0 by {
            assert(s[a].0 != s[b].0);
        }
    }
    if i == s.len() - 1 {
        assert(u.drop_last() =~= t);
        lemma_assoc_map_dom(t, s[i].0);
        assert(!assoc_map(t).dom().contains(s[i].0)) by {
            if assoc_map(t).dom().contains(s[i].0) {
                let j = choose|j: int| 0 <= j < t.len() && #[trigger] t[j].0 == s[i].0;
                assert(s[j].0 == s[i].0);
            }
        }
        assert(assoc_map(u) =~= assoc_map(s).insert(s[i].0, v));
    } else {
        assert(keys_distinct(t)) by {
            assert forall|a: int, b: int| 0 <= a < b < t.len() implies #[trigger] t[a].0 != #[trigger] t[b].0 by {
                assert(s[a].0 != s[b].0);
            }
        }
        lemma_assoc_map_update(t, i, v);
        assert(u.drop_last() =~= t.update(i, (t[i].0, v)));
        assert(s[i].0 != s[s.len() - 1].0);
        assert(assoc_map(u) =~= assoc_map(s).insert(s[i].0, v));
    }
}

/// Removing an entry removes its key from the map.
pub proof fn lemma_assoc_map_remove<K, V>(s: Seq<(K, V)>, i: int)
    requires
        keys_distinct(s),
        0 <= i < s.len(),
    ensures
        keys_distinct(s.remove(i)),
        assoc_map(s.remove(i)) == assoc_map(s).remove(s[i].0),
    decreases s.len(),
{
    let u = s.remove(i);
    let t = s.drop_last();
    assert(keys_distinct(u)) by {
        assert forall|a: int, b: int| 0 <= a < b < u.len() implies #[trigger] u[a].0 != #[trigger] u[b].0 by {
            let a2 = if a < i { a } else { a + 1 };
            let b2 = if b < i { b } else { b + 1 };
            assert(s[a2].0 != s[b2].0);
        }
    }
    assert(keys_distinct(t)) by {
        assert forall|a: int, b: int| 0 <= a < b < t.len() implies #[trigger] t[a].0 != #[trigger] t[b].0 by {
            assert(s[a].0 != s[b].0);
        }
    }
    if i == s.len() - 1 {
        assert(u =~= t);
        lemma_assoc_map_dom(t, s[i].0);
        assert(!assoc_map(t).dom().contains(s[i].0)) by {
            if assoc_map(t).dom().contains(s[i].0) {
                let j = choose|j: int| 0 <= j < t.len() && #[trigger] t[j].0 == s[i].0;
                assert(s[j].0 == s[i].0);
            }
        }
        assert(assoc_map(u) =~= assoc_map(s).remove(s[i].0));
    } else {
        lemma_assoc_map_remove(t, i);
        assert(u.drop_last() =~= t.remove(i));
        assert(u.last() == s.last());
        assert(s[i].0 != s[s.len() - 1].0);
        assert(assoc_map(u) =~= assoc_map(s).remove(s[i].0));
    }
}

/// Fee tiers in the order they were added, none twice.
pub struct FeeTiers {
    fee_tiers: Vec<FeeTier>,
}

impl View for FeeTiers {
    type V = Seq<FeeTier>;

    closed spec fn view(&self) -> Seq<FeeTier> {
        self.fee_tiers@
    }
}

impl FeeTiers {
    /// No fee tier occurs twice.
    pub closed spec fn wf(&self) -> bool {
        self.fee_tiers@.no_duplicates()
    }

    /// No fee tiers.
    pub fn new() -> (res: FeeTiers)
        ensures
            res.wf(),
            res@ == Seq::<FeeTier>::empty(),
    {
        FeeTiers { fee_tiers: Vec::new() }
    }

    /// Whether `fee_tier` has been added.
    pub fn contains(&self, fee_tier: FeeTier) -> (res: bool)
        ensures
            res == self@.contains(fee_tier),
    {
        let mut i: usize = 0;
        while i < self.fee_tiers.len()
            invariant
                i <= self.fee_tiers.len(),
                forall|j: int| 0 <= j < i ==> self.fee_tiers@[j] != fee_tier,
            decreases self.fee_tiers.len() - i,
        {
            if self.fee_tiers[i] == fee_tier {
                return true;
            }
            i = i + 1;
        }
        false
    }

    /// Appends `fee_tier`; one already there is refused with `FeeTierAlreadyExist`.
    pub fn add(&mut self, fee_tier: FeeTier) -> (res: Result<(), InvariantError>)
        requires
            old(self).wf(),
        ensures
            final(self).wf(),
            old(self)@.contains(fee_tier) ==> res == Err::<(), InvariantError>(
                InvariantError::FeeTierAlreadyExist,
            ) && final(self)@ == old(self)@,
            !old(self)@.contains(fee_tier) ==> res == Ok::<(), InvariantError>(()) && final(self)@ == old(self)@.push(fee_tier),
    {
        if self.contains(fee_tier) {
            return Err(InvariantError::FeeTierAlreadyExist);
        }
        self.fee_tiers.push(fee_tier);
        Ok(())
    }

    /// Removes `fee_tier`, keeping the others in order; one not there is
    /// refused with `FeeTierNotFound`.
    pub fn remove(&mut self, fee_tier: FeeTier) -> (res: Result<(), InvariantError>)
        requires
            old(self).wf(),
        ensures
            final(self).wf(),
            !old(self)@.contains(fee_tier) ==> res == Err::<(), InvariantError>(
                InvariantError::FeeTierNotFound,
            ) && final(self)@ == old(self)@,
            old(self)@.contains(fee_tier) ==> res == Ok::<(), InvariantError>(()) && final(self)@ == old(self)@.remove(
                old(self)@.index_of(fee_tier),
            ),
    {
        let mut i: usize = 0;
        while i < self.fee_tiers.len()
            invariant
                i <= self.fee_tiers.len(),
                self.fee_tiers@ == old(self).fee_tiers@,
                self.fee_tiers@.no_duplicates(),
                forall|j: int| 0 <= j < i ==> self.fee_tiers@[j] != fee_tier,
            decreases self.fee_tiers.len() - i,
        {
            if self.fee_tiers[i] == fee_tier {
                let ghost before = self.fee_tiers@;
                proof {
                    assert(before.contains(fee_tier));
                    let k = before.index_of(fee_tier);
                    assert(before[k] == fee_tier);
                    assert(k == i as int);
                }
                self.fee_tiers.remove(i);
                proof {
                    assert forall|a: int, b: int|
                        0 <= a < self.fee_tiers@.len() && 0 <= b < self.fee_tiers@.len() && a != b
                        implies self.fee_tiers@[a] != self.fee_tiers@[b] by {
                        let a2 = if a < i { a } else { a + 1 };
                        let b2 = if b < i { b } else { b + 1 };
                        before.remove_ensures(i as int);
                        assert(self.fee_tiers@[a] == before[a2]);
                        assert(self.fee_tiers@[b] == before[b2]);
                        assert(a2 != b2);
                    }
                }
                return Ok(());
            }
            i = i + 1;
        }
        Err(InvariantError::FeeTierNotFound)
    }

    /// The fee tiers of a list in which none occurs twice; `None` otherwise.
    pub fn from_vec(fee_tiers: Vec<FeeTier>) -> (res: Option<FeeTiers>)
        ensures
            res is Some <==> fee_tiers@.no_duplicates(),
            res matches Some(f) ==> f.wf() && f@ == fee_tiers@,
    {
        let mut res = FeeTiers::new();
        let mut i: usize = 0;
        while i < fee_tiers.len()
            invariant
                i <= fee_tiers.len(),
                res.wf(),
                res@ == fee_tiers@.take(i as int),
            decreases fee_tiers.len() - i,
        {
            let ghost before = res@;
            if res.add(fee_tiers[i]).is_err() {
                proof {
                    let j = choose|j: int| 0 <= j < before.len() && before[j] == fee_tiers@[i as int];
                    assert(fee_tiers@[j] == fee_tiers@[i as int]);
                }
                return None;
            }
            i = i + 1;
            assert(res@ =~= fee_tiers@.take(i as int));
        }
        assert(fee_tiers@.take(i as int) =~= fee_tiers@);
        Some(res)
    }

    /// All fee tiers, in the order they were added.
    pub fn get_all(&self) -> (res: Vec<FeeTier>)
        ensures
            res@ == self@,
    {
        let mut res: Vec<FeeTier> = Vec::new();
        let mut i: usize = 0;
        while i < self.fee_tiers.len()
            invariant
                i <= self.fee_tiers.len(),
                res@ == self.fee_tiers@.take(i as int),
            decreases self.fee_tiers.len() - i,
        {
            res.push(self.fee_tiers[i]);
            i = i + 1;
            assert(res@ =~= self.fee_tiers@.take(i as int));
        }
        assert(self.fee_tiers@.take(i as int) =~= self.fee_tiers@);
        res
    }
}

/// Pools by key.
pub struct Pools {
    entries: Vec<(PoolKey, Pool)>,
}

impl View for Pools {
    type V = Map<PoolKey, Pool>;

    closed spec fn view(&self) -> Map<PoolKey, Pool> {
        assoc_map(self.entries@)
    }
}

/// The keys of an association list, in order.
pub open spec fn assoc_keys<K, V>(s: Seq<(K, V)>) -> Seq<K> {
    s.map_values(|e: (K, V)| e.0)
}

impl Pools {
    /// No key is stored twice.
    pub closed spec fn wf(&self) -> bool {
        keys_distinct(self.entries@)
    }

    /// The stored entries, in the order the pools were added.
    pub closed spec fn entry_list(&self) -> Seq<(PoolKey, Pool)> {
        self.entries@
    }

    /// The pool map is the map of the entry list, whose keys are distinct.
    pub proof fn lemma_view(&self)
        ensures
            self@ == assoc_map(self.entry_list()),
            self.wf() <==> keys_distinct(self.entry_list()),
    {
    }

    /// No pools.
    pub fn new() -> (res: Pools)
        ensures
            res.wf(),
            res@ == Map::<PoolKey, Pool>::empty(),
            res.entry_list() == Seq::<(PoolKey, Pool)>::empty(),
    {
        Pools { entries: Vec::new() }
    }

    /// The index of the entry for `key`, if there is one.
    fn find(&self, key: PoolKey) -> (res: Option<usize>)
        requires
            self.wf(),
        ensures
            match res {
                Some(i) => i < self.entries@.len() && self.entries@[i as int].0 == key
                    && self@.dom().contains(key) && self@[key] == self.entries@[i as int].1,
                None => !self@.dom().contains(key),
            },
    {
        let mut i: usize = 0;
        while i < self.entries.len()
            invariant
                i <= self.entries.len(),
                self.wf(),
                forall|j: int| 0 <= j < i ==> #[trigger] self.entries@[j].0 != key,
            decreases self.entries.len() - i,
        {
            if self.entries[i].0 == key {
                proof {
                    lemma_assoc_map_index(self.entries@, i as int);
                }
                return Some(i);
            }
            i = i + 1;
        }
        proof {
            lemma_assoc_map_dom(self.entries@, key);
        }
        None
    }

    /// The pool with key `key`, or `PoolNotFound`.
    pub fn get(&self, key: PoolKey) -> (res: Result<Pool, InvariantError>)
        requires
            self.wf(),
        ensures
            self@.dom().contains(key) ==> res == Ok::<Pool, InvariantError>(self@[key]),
            !self@.dom().contains(key) ==> res == Err::<Pool, InvariantError>(
                InvariantError::PoolNotFound,
            ),
    {
        match self.find(key) {
            Some(i) => Ok(self.entries[i].1),
            None => Err(InvariantError::PoolNotFound),
        }
    }

    /// Stores a new pool under `key`; a key already used is refused with `PoolAlreadyExist`.
    pub fn add(&mut self, key: PoolKey, pool: &Pool) -> (res: Result<(), InvariantError>)
        requires
            old(self).wf(),
        ensures
            final(self).wf(),
            old(self)@.dom().contains(key) ==> res == Err::<(), InvariantError>(
                InvariantError::PoolAlreadyExist,
            ) && final(self)@ == old(self)@,
            !old(self)@.dom().contains(key) ==> res == Ok::<(), InvariantError>(()) && final(self)@ == old(self)@.insert(
                key,
                *pool,
            ),
            res is Ok ==> final(self).entry_list() == old(self).entry_list().push((key, *pool)),
            res is Err ==> final(self).entry_list() == old(self).entry_list(),
    {
        if self.find(key).is_some() {
            return Err(InvariantError::PoolAlreadyExist);
        }
        let ghost before = self.entries@;
        self.entries.push((key, *pool));
        proof {
            lemma_assoc_map_dom(before, key);
            assert forall|a: int, b: int| 0 <= a < b < self.entries@.len() implies
                #[trigger] self.entries@[a].0 != #[trigger] self.entries@[b].0 by {
                if b == before.len() {
                    assert(before[a].0 != key);
                } else {
                    assert(before[a].0 != before[b].0);
                }
            }
            assert(self.entries@.drop_last() =~= before);
        }
        Ok(())
    }

    /// Replaces the pool stored under `key`; a key not used is refused with `PoolNotFound`.
    pub fn update(&mut self, key: PoolKey, pool: &Pool) -> (res: Result<(), InvariantError>)
        requires
            old(self).wf(),
        ensures
            final(self).wf(),
            !old(self)@.dom().contains(key) ==> res == Err::<(), InvariantError>(
                InvariantError::PoolNotFound,
            ) && final(self)@ == old(self)@,
            old(self)@.dom().contains(key) ==> res == Ok::<(), InvariantError>(()) && final(self)@ == old(self)@.insert(
                key,
                *pool,
            ),
            assoc_keys(final(self).entry_list()) == assoc_keys(old(self).entry_list()),
    {
        match self.find(key) {
            Some(i) => {
                proof {
                    lemma_assoc_map_update(self.entries@, i as int, *pool);
                }
                let ghost before = self.entries@;
                self.entries.set(i, (key, *pool));
                assert(assoc_keys(self.entries@) =~= assoc_keys(before));
                Ok(())
            },
            None => Err(InvariantError::PoolNotFound),
        }
    }

    /// The pools of an entry list whose keys are distinct; `None` if a key repeats.
    pub fn from_entries(entries: Vec<(PoolKey, Pool)>) -> (res: Option<Pools>)
        ensures
            res is Some <==> keys_distinct(entries@),
            res matches Some(p) ==> p.wf() && p.entry_list() == entries@,
    {
        let mut res = Pools::new();
        let mut i: usize = 0;
        while i < entries.len()
            invariant
                i <= entries.len(),
                res.wf(),
                res.entry_list() == entries@.take(i as int),
            decreases entries.len() - i,
        {
            let ghost before = res.entry_list();
            let (key, pool) = entries[i];
            proof {
                lemma_assoc_map_dom(before, key);
            }
            if res.add(key, &pool).is_err() {
                proof {
                    let j = choose|j: int| 0 <= j < before.len() && #[trigger] before[j].0 == key;
                    assert(entries@[j].0 == entries@[i as int].0);
                }
                return None;
            }
            i = i + 1;
            assert(res.entry_list() =~= entries@.take(i as int));
        }
        assert(entries@.take(i as int) =~= entries@);
        Some(res)
    }

    /// A copy of the entries, in the order the pools were added.
    pub fn entries(&self) -> (res: Vec<(PoolKey, Pool)>)
        ensures
            res@ == self.entry_list(),
    {
        let mut res: Vec<(PoolKey, Pool)> = Vec::new();
        let mut i: usize = 0;
        while i < self.entries.len()
            invariant
                i <= self.entries.len(),
                res@ == self.entries@.take(i as int),
            decreases self.entries.len() - i,
        {
            res.push(self.entries[i]);
            i = i + 1;
            assert(res@ =~= self.entries@.take(i as int));
        }
        assert(self.entries@.take(i as int) =~= self.entries@);
        res
    }
}

/// Pool keys in the order their pools were created, none twice.
pub struct PoolKeys {
    pool_keys: Vec<PoolKey>,
}

impl View for PoolKeys {
    type V = Seq<PoolKey>;

    closed spec fn view(&self) -> Seq<PoolKey> {
        self.pool_keys@
    }
}

/// The keys at positions `offset .. offset + size` of `keys`, as far as there are any.
pub open spec fn spec_page(keys: Seq<PoolKey>, size: nat, offset: nat) -> Seq<PoolKey> {
    let end = if offset + size > keys.len() { keys.len() } else { offset + size };
    if offset >= end {
        Seq::empty()
    } else {
        keys.subrange(offset as int, end as int)
    }
}

impl PoolKeys {
    /// No key occurs twice and the count fits a `u16`.
    pub closed spec fn wf(&self) -> bool {
        &&& self.pool_keys@.no_duplicates()
        &&& self.pool_keys@.len() <= u16::MAX
    }

    /// No keys.
    pub fn new() -> (res: PoolKeys)
        ensures
            res.wf(),
            res@ == Seq::<PoolKey>::empty(),
    {
        PoolKeys { pool_keys: Vec::new() }
    }

    /// Whether `key` has been added.
    pub fn contains(&self, key: PoolKey) -> (res: bool)
        ensures
            res == self@.contains(key),
    {
        let mut i: usize = 0;
        while i < self.pool_keys.len()
            invariant
                i <= self.pool_keys.len(),
                forall|j: int| 0 <= j < i ==> self.pool_keys@[j] != key,
            decreases self.pool_keys.len() - i,
        {
            if self.pool_keys[i] == key {
                return true;
            }
            i = i + 1;
        }
        false
    }

    /// Appends `key`; one already there is refused with `PoolKeyAlreadyExist`, and
    /// a count that would pass `u16::MAX` with `AddOverflow`.
    pub fn add(&mut self, key: PoolKey) -> (res: Result<(), InvariantError>)
        requires
            old(self).wf(),
        ensures
            final(self).wf(),
            old(self)@.contains(key) ==> res == Err::<(), InvariantError>(
                InvariantError::PoolKeyAlreadyExist,
            ) && final(self)@ == old(self)@,
            !old(self)@.contains(key) && old(self)@.len() == u16::MAX ==> res == Err::<(), InvariantError>(
                InvariantError::AddOverflow(u16::MAX as u128, 1),
            ) && final(self)@ == old(self)@,
            !old(self)@.contains(key) && old(self)@.len() < u16::MAX ==> res == Ok::<(), InvariantError>(())
                && final(self)@ == old(self)@.push(key),
    {
        if self.contains(key) {
            return Err(InvariantError::PoolKeyAlreadyExist);
        }
        if self.pool_keys.len() >= 65535 {
            return Err(InvariantError::AddOverflow(65535, 1));
        }
        let ghost before = self.pool_keys@;
        self.pool_keys.push(key);
        proof {
            assert forall|a: int, b: int|
                0 <= a < self.pool_keys@.len() && 0 <= b < self.pool_keys@.len() && a != b
                implies self.pool_keys@[a] != self.pool_keys@[b] by {
                if a < before.len() && b < before.len() {
                    assert(before[a] != before[b]);
                } else if a < before.len() {
                    assert(before[a] != key);
                } else {
                    assert(before[b] != key);
                }
            }
        }
        Ok(())
    }

    /// The keys at positions `offset .. offset + size`, as far as there are any.
    pub fn get_all(&self, size: u16, offset: u16) -> (res: Vec<PoolKey>)
        requires
            self.wf(),
        ensures
            res@ == spec_page(self@, size as nat, offset as nat),
    {
        let count = self.pool_keys.len();
        let wanted = offset as usize + size as usize;
        let end = if wanted > count { count } else { wanted };
        let mut res: Vec<PoolKey> = Vec::new();
        let mut i: usize = offset as usize;
        if i >= end {
            return res;
        }
        while i < end
            invariant
                offset <= i <= end <= self.pool_keys@.len(),
                res@ == self.pool_keys@.subrange(offset as int, i as int),
            decreases end - i,
        {
            res.push(self.pool_keys[i]);
            i = i + 1;
            assert(res@ =~= self.pool_keys@.subrange(offset as int, i as int));
        }
        res
    }

    /// The keys of a list in which none occurs twice and whose length fits a
    /// `u16`; `None` otherwise.
    pub fn from_vec(pool_keys: Vec<PoolKey>) -> (res: Option<PoolKeys>)
        ensures
            res is Some <==> pool_keys@.no_duplicates() && pool_keys@.len() <= u16::MAX,
            res matches Some(k) ==> k.wf() && k@ == pool_keys@,
    {
        if pool_keys.len() > 65535 {
            return None;
        }
        let mut res = PoolKeys::new();
        let mut i: usize = 0;
        while i < pool_keys.len()
            invariant
                i <= pool_keys.len() <= u16::MAX,
                res.wf(),
                res@ == pool_keys@.take(i as int),
            decreases pool_keys.len() - i,
        {
            let ghost before = res@;
            if res.add(pool_keys[i]).is_err() {
                proof {
                    let j = choose|j: int| 0 <= j < before.len() && before[j] == pool_keys@[i as int];
                    assert(pool_keys@[j] == pool_keys@[i as int]);
                }
                return None;
            }
            i = i + 1;
            assert(res@ =~= pool_keys@.take(i as int));
        }
        assert(pool_keys@.take(i as int) =~= pool_keys@);
        Some(res)
    }

    /// How many keys there are.
    pub fn count(&self) -> (res: u16)
        requires
            self.wf(),
        ensures
            res == self@.len(),
    {
        self.pool_keys.len() as u16
    }
}

} // verus!
