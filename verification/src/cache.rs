//! The two caches in front of the user directory: one of users by name, one of
//! credentials that were found good. An entry counts until it expires; times
//! are nanoseconds on a clock that never goes back.
use crate::db::{UserRecord, UserView};
use crate::text;
use vstd::hash_map::StringHashMap;
use vstd::prelude::*;

verus! {

/// What a cache holds under a key: the value, and when it expires.
pub type Entries<K, V> = Map<K, (V, int)>;

/// The value under a key, unless there is none or it has expired.
pub open spec fn looked_up<K, V>(m: Entries<K, V>, key: K, now: int) -> Option<V> {
    if m.contains_key(key) && m[key].1 > now {
        Some(m[key].0)
    } else {
        None
    }
}

/// The entries after a value was put under a key; a lifetime of zero turns the
/// cache off.
pub open spec fn added<K, V>(m: Entries<K, V>, key: K, v: V, ttl: int, now: int) -> Entries<K, V> {
    if ttl == 0 {
        m
    } else {
        m.insert(key, (v, now + ttl))
    }
}

/// The entries that have not expired.
pub open spec fn unexpired<K, V>(m: Entries<K, V>, now: int) -> Entries<K, V> {
    m.restrict(m.dom().filter(|k: K| m[k].1 > now))
}

/// A map from texts to values that expire. `keys` has every key of the map,
/// and maybe some that were removed.
#[verifier::reject_recursive_types(V)]
struct TextCache<V> {
    map: StringHashMap<(V, u128)>,
    keys: Vec<String>,
    ttl: u128,
}

impl<V> TextCache<V> {
    spec fn wf(&self) -> bool {
        forall|k: Seq<char>| #[trigger]
            self.map@.contains_key(k) ==> text::texts(self.keys@).contains(k)
    }

    spec fn entries(&self) -> Entries<Seq<char>, V> {
        Map::new(
            |k: Seq<char>| self.map@.contains_key(k),
            |k: Seq<char>| (self.map@[k].0, self.map@[k].1 as int),
        )
    }

    fn new(ttl: u128) -> (r: Self)
        ensures
            r.wf(),
            r.entries() == Map::<Seq<char>, (V, int)>::empty(),
            r.ttl == ttl,
    {
        let r = TextCache { map: StringHashMap::new(), keys: Vec::new(), ttl };
        assert(r.entries() =~= Map::empty());
        r
    }

    fn get(&self, key: &str, now: u128) -> (r: Option<&V>)
        ensures
            match r {
                Some(v) => looked_up(self.entries(), key@, now as int) == Some(*v),
                None => looked_up(self.entries(), key@, now as int) is None,
            },
    {
        match self.map.get(key) {
            Some(e) => {
                if e.1 > now {
                    Some(&e.0)
                } else {
                    None
                }
            },
            None => None,
        }
    }

    fn insert(&mut self, key: String, v: V, now: u128)
        requires
            old(self).wf(),
            now + old(self).ttl <= u128::MAX,
        ensures
            final(self).wf(),
            final(self).ttl == old(self).ttl,
            final(self).entries() == added(
                old(self).entries(),
                key@,
                v,
                old(self).ttl as int,
                now as int,
            ),
    {
        if self.ttl == 0 {
            return;
        }
        let ghost before = *self;
        let ghost k = key@;
        if !self.map.contains_key(key.as_str()) {
            self.keys.push(key.clone());
        }
        self.map.insert(key, (v, now + self.ttl));
        proof {
            let a = text::texts(before.keys@);
            let b = text::texts(self.keys@);
            assert forall|x: Seq<char>| #[trigger] self.map@.contains_key(x) implies b.contains(
                x,
            ) by {
                if before.map@.contains_key(x) {
                    let i = choose|i: int| 0 <= i < a.len() && a[i] == x;
                    assert(b[i] == x);
                } else {
                    assert(b[b.len() - 1] == k);
                }
            }
            assert(self.entries() =~= before.entries().insert(k, (v, now + before.ttl)));
        }
    }

    fn clear(&mut self)
        ensures
            final(self).wf(),
            final(self).ttl == old(self).ttl,
            final(self).entries() == Map::<Seq<char>, (V, int)>::empty(),
    {
        self.map.clear();
        self.keys = Vec::new();
        assert(self.entries() =~= Map::empty());
    }

    fn remove(&mut self, key: &str)
        requires
            old(self).wf(),
        ensures
            final(self).wf(),
            final(self).ttl == old(self).ttl,
            final(self).entries() == old(self).entries().remove(key@),
    {
        let ghost before = *self;
        self.map.remove(key);
        assert(self.entries() =~= before.entries().remove(key@));
    }

    fn sweep(&mut self, now: u128)
        requires
            old(self).wf(),
        ensures
            final(self).wf(),
            final(self).ttl == old(self).ttl,
            final(self).entries() == unexpired(old(self).entries(), now as int),
    {
        let ghost start = self.map@;
        let ghost first = self.entries();
        let ghost keys = text::texts(self.keys@);
        let mut old_keys: Vec<String> = Vec::new();
        std::mem::swap(&mut self.keys, &mut old_keys);
        let mut kept: Vec<String> = Vec::new();
        assert(text::texts(old_keys@) =~= keys);
        for key in it: old_keys
            invariant
                it.seq() == old_keys@,
                text::texts(old_keys@) == keys,
                forall|k: Seq<char>| #[trigger] start.contains_key(k) ==> keys.contains(k),
                self.ttl == old(self).ttl,
                forall|k: Seq<char>| #[trigger]
                    self.map@.contains_key(k) ==> start.contains_key(k) && self.map@[k]
                        == start[k],
                forall|k: Seq<char>| #[trigger]
                    start.contains_key(k) && start[k].1 > now ==> self.map@.contains_key(k),
                forall|j: int|
                    0 <= j < it.index() && self.map@.contains_key(#[trigger] keys[j])
                        ==> start[keys[j]].1 > now && text::texts(kept@).contains(keys[j]),
        {
            let ghost i = it.index() as int;
            let ghost before = self.map@;
            let ghost had = text::texts(kept@);
            assert(keys[i] == key@);
            let ghost k = key@;
            let live = match self.map.get(key.as_str()) {
                Some(e) => e.1 > now,
                None => false,
            };
            if live {
                kept.push(key);
            } else {
                self.map.remove(key.as_str());
            }
            proof {
                let has = text::texts(kept@);
                assert forall|j: int|
                    0 <= j < i + 1 && self.map@.contains_key(
                        #[trigger] keys[j],
                    ) implies start[keys[j]].1 > now && has.contains(keys[j]) by {
                    if had.contains(keys[j]) {
                        let h = choose|h: int| 0 <= h < had.len() && had[h] == keys[j];
                        assert(has[h] == keys[j]);
                    }
                    if live {
                        assert(has[has.len() - 1] == k);
                    }
                }
            }
        }
        self.keys = kept;
        proof {
            assert forall|k: Seq<char>| #[trigger] self.map@.contains_key(k) implies start[k].1
                > now && text::texts(self.keys@).contains(k) by {
                assert(keys.contains(k));
                let j = choose|j: int| 0 <= j < keys.len() && keys[j] == k;
                assert(self.map@.contains_key(keys[j]));
            }
            let u = unexpired(first, now as int);
            assert forall|k: Seq<char>| self.entries().contains_key(k) <==> u.contains_key(k) by {
                if u.contains_key(k) {
                    assert(start.contains_key(k) && start[k].1 > now);
                }
                if self.entries().contains_key(k) {
                    assert(self.map@.contains_key(k));
                    assert(start.contains_key(k));
                    assert(first.contains_key(k));
                }
            }
            assert(self.entries() =~= u);
        }
    }
}

/// Credentials that were found good, each under its digest, with whether the
/// user is a superuser.
pub struct AuthCache {
    cache: TextCache<bool>,
}

/// The entries of a cache of credentials and the lifetime of an entry.
pub struct AuthCacheView {
    pub entries: Entries<Seq<u8>, bool>,
    pub ttl: int,
}

impl View for AuthCache {
    type V = AuthCacheView;

    closed spec fn view(&self) -> AuthCacheView {
        let e = self.cache.entries();
        AuthCacheView {
            entries: Map::new(
                |k: Seq<u8>| e.contains_key(text::hex(k)),
                |k: Seq<u8>| e[text::hex(k)],
            ),
            ttl: self.cache.ttl as int,
        }
    }
}

impl AuthCache {
    /// What holds of every cache.
    pub closed spec fn wf(&self) -> bool {
        self.cache.wf()
    }

    /// An empty cache whose entries live for `ttl`; zero turns it off.
    pub fn new(ttl: u128) -> (r: Self)
        ensures
            r.wf(),
            r@ == (AuthCacheView { entries: Map::empty(), ttl: ttl as int }),
    {
        let r = AuthCache { cache: TextCache::new(ttl) };
        assert(r@.entries =~= Map::empty());
        r
    }

    /// Whether the user with these credentials is a superuser, if they are known
    /// to be good.
    pub fn get(&self, key: &[u8; 32], now: u128) -> (r: Option<bool>)
        ensures
            r == looked_up(self@.entries, key@, now as int),
    {
        let k = text::hex_of(key.as_slice());
        match self.cache.get(k.as_str(), now) {
            Some(v) => Some(*v),
            None => None,
        }
    }

    /// Notes that credentials are good.
    pub fn insert(&mut self, key: [u8; 32], superuser: bool, now: u128)
        requires
            old(self).wf(),
            now + old(self)@.ttl <= u128::MAX,
        ensures
            final(self).wf(),
            final(self)@ == (AuthCacheView {
                entries: added(
                    old(self)@.entries,
                    key@,
                    superuser,
                    old(self)@.ttl,
                    now as int,
                ),
                ..old(self)@
            }),
    {
        let ghost before = self@.entries;
        self.cache.insert(text::hex_of(key.as_slice()), superuser, now);
        proof {
            assert forall|k: Seq<u8>| #[trigger] text::hex(k) == text::hex(key@) implies k
                == key@ by {
                text::lemma_hex_injective(k, key@);
            }
            assert(self@.entries =~= added(before, key@, superuser, self@.ttl, now as int));
        }
    }

    /// Forgets all credentials, among them those of the named user: an entry
    /// does not tell whose it is.
    pub fn purge_user(&mut self, _username: &str)
        ensures
            final(self).wf(),
            final(self)@ == (AuthCacheView { entries: Map::empty(), ..old(self)@ }),
    {
        self.cache.clear();
        assert(self@.entries =~= Map::empty());
    }

    /// Drops what has expired.
    pub fn sweep(&mut self, now: u128)
        requires
            old(self).wf(),
        ensures
            final(self).wf(),
            final(self)@ == (AuthCacheView {
                entries: unexpired(old(self)@.entries, now as int),
                ..old(self)@
            }),
    {
        let ghost before = self@.entries;
        self.cache.sweep(now);
        assert(self@.entries =~= unexpired(before, now as int));
    }
}

/// Users by name.
pub struct UserCache {
    cache: TextCache<UserRecord>,
}

/// The entries of a cache of users and the lifetime of an entry.
pub struct UserCacheView {
    pub entries: Entries<Seq<char>, UserView>,
    pub ttl: int,
}

impl View for UserCache {
    type V = UserCacheView;

    closed spec fn view(&self) -> UserCacheView {
        let e = self.cache.entries();
        UserCacheView {
            entries: Map::new(|k: Seq<char>| e.contains_key(k), |k: Seq<char>| (e[k].0@, e[k].1)),
            ttl: self.cache.ttl as int,
        }
    }
}

impl UserCache {
    /// What holds of every cache.
    pub closed spec fn wf(&self) -> bool {
        self.cache.wf()
    }

    /// An empty cache whose entries live for `ttl`; zero turns it off.
    pub fn new(ttl: u128) -> (r: Self)
        ensures
            r.wf(),
            r@ == (UserCacheView { entries: Map::empty(), ttl: ttl as int }),
    {
        let r = UserCache { cache: TextCache::new(ttl) };
        assert(r@.entries =~= Map::empty());
        r
    }

    /// The user with a name, if cached.
    pub fn get(&self, username: &str, now: u128) -> (r: Option<UserRecord>)
        ensures
            match r {
                Some(u) => looked_up(self@.entries, username@, now as int) == Some(u@),
                None => looked_up(self@.entries, username@, now as int) is None,
            },
    {
        match self.cache.get(username, now) {
            Some(u) => Some(u.duplicate()),
            None => None,
        }
    }

    /// Caches a user under a name.
    pub fn insert(&mut self, username: String, record: UserRecord, now: u128)
        requires
            old(self).wf(),
            now + old(self)@.ttl <= u128::MAX,
        ensures
            final(self).wf(),
            final(self)@ == (UserCacheView {
                entries: added(
                    old(self)@.entries,
                    username@,
                    record@,
                    old(self)@.ttl,
                    now as int,
                ),
                ..old(self)@
            }),
    {
        let ghost before = self@.entries;
        let ghost name = username@;
        let ghost user = record@;
        self.cache.insert(username, record, now);
        assert(self@.entries =~= added(before, name, user, self@.ttl, now as int));
    }

    /// Forgets the user with a name.
    pub fn purge(&mut self, username: &str)
        requires
            old(self).wf(),
        ensures
            final(self).wf(),
            final(self)@ == (UserCacheView {
                entries: old(self)@.entries.remove(username@),
                ..old(self)@
            }),
    {
        let ghost before = self@.entries;
        self.cache.remove(username);
        assert(self@.entries =~= before.remove(username@));
    }

    /// Drops what has expired.
    pub fn sweep(&mut self, now: u128)
        requires
            old(self).wf(),
        ensures
            final(self).wf(),
            final(self)@ == (UserCacheView {
                entries: unexpired(old(self)@.entries, now as int),
                ..old(self)@
            }),
    {
        let ghost before = self@.entries;
        self.cache.sweep(now);
        assert(self@.entries =~= unexpired(before, now as int));
    }
}

/// What was put in is found under its key until its lifetime is over, and no
/// longer.
pub proof fn law_entry_lives_for_its_lifetime<K, V>(
    m: Entries<K, V>,
    key: K,
    v: V,
    ttl: int,
    put_at: int,
    now: int,
)
    requires
        ttl > 0,
    ensures
        looked_up(added(m, key, v, ttl, put_at), key, now) == (if now < put_at + ttl {
            Some(v)
        } else {
            None
        }),
{
}

/// Dropping what has expired changes no answer, then or later.
pub proof fn law_sweep_changes_no_answer<K, V>(m: Entries<K, V>, swept_at: int, key: K, now: int)
    requires
        swept_at <= now,
    ensures
        looked_up(unexpired(m, swept_at), key, now) == looked_up(m, key, now),
{
}

/// An answer is an entry that has not expired.
pub proof fn law_what_is_remembered<K, V>(m: Entries<K, V>, key: K, now: int, v: V)
    ensures
        looked_up(m, key, now) == Some(v) <==> m.contains_key(key) && m[key].0 == v && now
            < m[key].1,
{
}

/// An entry for one key changes nothing for another, and none is kept where the
/// lifetime is zero.
pub proof fn law_entries_do_not_interfere<K, V>(
    m: Entries<K, V>,
    key: K,
    v: V,
    ttl: int,
    put_at: int,
    other: K,
    now: int,
)
    ensures
        other != key ==> looked_up(added(m, key, v, ttl, put_at), other, now) == looked_up(
            m,
            other,
            now,
        ),
        ttl == 0 ==> added(m, key, v, ttl, put_at) == m,
{
}

/// A sweep drops exactly the entries that have expired.
pub proof fn law_sweep_drops_what_expired<K, V>(m: Entries<K, V>, key: K, now: int)
    ensures
        unexpired(m, now).contains_key(key) <==> m.contains_key(key) && now < m[key].1,
        unexpired(m, now).contains_key(key) ==> unexpired(m, now)[key] == m[key],
{
}

} // verus!
