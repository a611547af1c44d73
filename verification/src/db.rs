//! The user directory: its records, the passwords, and what each operation
//! does to the users.
use crate::sort;
use crate::sort::Ranked;
use crate::text;
use argon2::password_hash::rand_core::OsRng;
use argon2::password_hash::{PasswordHash, PasswordHasher, PasswordVerifier, SaltString};
use argon2::{Algorithm, Argon2, Params, Version};
use hmac::{Hmac, Mac};
use sha2::Sha256;
use std::collections::VecDeque;
use vstd::prelude::*;
use vstd::utf8::*;

verus! {

/// A user as the directory keeps it.
#[derive(Clone, Debug)]
pub struct UserRecord {
    pub username: String,
    pub userid: String,
    pub password_hash: String,
    pub superuser: bool,
    pub admin: bool,
}

/// A user to be put into the directory.
#[derive(Clone, Debug)]
pub struct NewUser {
    pub username: String,
    pub userid: String,
    pub password_hash: String,
    pub superuser: bool,
    pub admin: bool,
}

/// A user.
pub struct UserView {
    pub username: Seq<char>,
    pub userid: Seq<char>,
    pub password_hash: Seq<char>,
    pub superuser: bool,
    pub admin: bool,
}

impl View for UserRecord {
    type V = UserView;

    open spec fn view(&self) -> UserView {
        UserView {
            username: self.username@,
            userid: self.userid@,
            password_hash: self.password_hash@,
            superuser: self.superuser,
            admin: self.admin,
        }
    }
}

impl View for NewUser {
    type V = UserView;

    open spec fn view(&self) -> UserView {
        UserView {
            username: self.username@,
            userid: self.userid@,
            password_hash: self.password_hash@,
            superuser: self.superuser,
            admin: self.admin,
        }
    }
}

impl UserRecord {
    /// A copy of the record.
    pub fn duplicate(&self) -> (r: UserRecord)
        ensures
            r@ == self@,
    {
        UserRecord {
            username: self.username.clone(),
            userid: self.userid.clone(),
            password_hash: self.password_hash.clone(),
            superuser: self.superuser,
            admin: self.admin,
        }
    }
}

impl NewUser {
    /// The record of the user.
    pub fn into_record(self) -> (r: UserRecord)
        ensures
            r@ == self@,
    {
        UserRecord {
            username: self.username,
            userid: self.userid,
            password_hash: self.password_hash,
            superuser: self.superuser,
            admin: self.admin,
        }
    }
}

impl UserRecord {
    /// The user to be put into another directory.
    pub fn into_new(self) -> (r: NewUser)
        ensures
            r@ == self@,
    {
        NewUser {
            username: self.username,
            userid: self.userid,
            password_hash: self.password_hash,
            superuser: self.superuser,
            admin: self.admin,
        }
    }
}

/// The file that a `redb://` url names, or none if it is no such url.
pub fn store_path(url: &str) -> (r: Option<String>)
    ensures
        match r {
            Some(path) => url@ == "redb://"@ + path@,
            None => !text::begins_with(url@, "redb://"@),
        },
{
    let r = text::strip_prefix(url, "redb://");
    proof {
        if r is Some {
            let n = "redb://"@.len() as int;
            assert(url@ =~= url@.take(n) + url@.skip(n));
        }
    }
    r
}

/// The file that holds the users: the one that a `redb://` or a `sqlite://` url
/// names, or none if it is neither. The file is one of redb under both.
pub fn user_store_path(url: &str) -> (r: Option<String>)
    ensures
        match r {
            Some(path) => url@ == "redb://"@ + path@ || url@ == "sqlite://"@ + path@,
            None => !text::begins_with(url@, "redb://"@) && !text::begins_with(
                url@,
                "sqlite://"@,
            ),
        },
{
    match store_path(url) {
        Some(path) => Some(path),
        None => {
            let r = text::strip_prefix(url, "sqlite://");
            proof {
                if r is Some {
                    let n = "sqlite://"@.len() as int;
                    assert(url@ =~= url@.take(n) + url@.skip(n));
                }
            }
            r
        },
    }
}

/// The users of a directory, by name.
pub type Users = Map<Seq<char>, UserView>;

/// Users after others were put in, each in place of one with the name.
pub open spec fn upserted(users: Users, new: Seq<UserView>) -> Users
    decreases new.len(),
{
    if new.len() == 0 {
        users
    } else {
        upserted(users, new.drop_last()).insert(new.last().username, new.last())
    }
}

/// A directory: its users, and the verifiers that are kept of their passwords, by
/// the names of the users.
#[verifier::ext_equal]
pub struct Directory {
    pub users: Users,
    pub verifiers: Map<Seq<char>, Seq<u8>>,
}

impl Directory {
    /// The directory with a user, in place of one with the name; a verifier under
    /// the name was of another password and goes.
    pub open spec fn put(self, user: UserView) -> Directory {
        Directory {
            users: self.users.insert(user.username, user),
            verifiers: self.verifiers.remove(user.username),
        }
    }

    /// The directory after a user was inserted: one who is there already stays.
    pub open spec fn inserted(self, user: UserView) -> Directory {
        if self.users.contains_key(user.username) {
            self
        } else {
            self.put(user)
        }
    }

    /// The directory after users were put in, each in place of one with the name.
    pub open spec fn upserted(self, new: Seq<UserView>) -> Directory
        decreases new.len(),
    {
        if new.len() == 0 {
            self
        } else {
            self.upserted(new.drop_last()).put(new.last())
        }
    }

    /// The directory without a user and the verifier of the user's password.
    pub open spec fn deleted(self, name: Seq<char>) -> Directory {
        Directory { users: self.users.remove(name), verifiers: self.verifiers.remove(name) }
    }

    /// The directory after one thing was written to it.
    pub open spec fn wrote(self, w: Write) -> Directory {
        match w {
            Write::PutUser(rec) => Directory {
                users: self.users.insert(rec@.username, rec@),
                ..self
            },
            Write::RemoveUser(name) => Directory { users: self.users.remove(name@), ..self },
            Write::RemoveVerifier(name) => Directory {
                verifiers: self.verifiers.remove(name@),
                ..self
            },
        }
    }

    /// The directory after things were written to it, one after the other.
    pub open spec fn wrote_all(self, writes: Seq<Write>) -> Directory
        decreases writes.len(),
    {
        if writes.len() == 0 {
            self
        } else {
            self.wrote_all(writes.drop_last()).wrote(writes.last())
        }
    }
}

/// One thing to write to the tables of a directory.
#[derive(Clone, Debug)]
pub enum Write {
    PutUser(UserRecord),
    RemoveUser(String),
    RemoveVerifier(String),
}

/// Appends what to write to put a user in.
fn push_user(writes: &mut Vec<Write>, user: NewUser)
    ensures
        forall|d: Directory| #[trigger]
            d.wrote_all(final(writes)@) == d.wrote_all(old(writes)@).put(user@),
        final(writes)@.len() == old(writes)@.len() + 2,
{
    let ghost before = writes@;
    let name = user.username.clone();
    writes.push(Write::RemoveVerifier(name));
    let ghost half = writes@;
    writes.push(Write::PutUser(user.into_record()));
    proof {
        assert forall|d: Directory| #[trigger]
            d.wrote_all(writes@) == d.wrote_all(before).put(user@) by {
            assert(writes@.drop_last() =~= half);
            assert(half.drop_last() =~= before);
            assert(d.wrote_all(half) == d.wrote_all(before).wrote(half.last()));
            assert(d.wrote_all(writes@) =~= d.wrote_all(before).put(user@));
        }
    }
}

/// What to write to insert a user, in this order: nothing if the name is taken.
pub fn plan_insert(user: NewUser, taken: bool) -> (r: Vec<Write>)
    ensures
        r@.len() == 0 <==> taken,
        forall|d: Directory|
            taken == d.users.contains_key(user@.username) ==> #[trigger] d.wrote_all(r@)
                == d.inserted(user@),
{
    let mut r: Vec<Write> = Vec::new();
    let ghost none = r@;
    assert forall|d: Directory| #[trigger] d.wrote_all(none) == d by {}
    if !taken {
        push_user(&mut r, user);
    }
    r
}

/// What to write to delete a user, in this order.
pub fn plan_delete(username: &str) -> (r: Vec<Write>)
    ensures
        forall|d: Directory| #[trigger] d.wrote_all(r@) == d.deleted(username@),
{
    let mut r: Vec<Write> = Vec::new();
    let ghost none = r@;
    r.push(Write::RemoveUser(username.to_owned()));
    let ghost half = r@;
    r.push(Write::RemoveVerifier(username.to_owned()));
    proof {
        assert forall|d: Directory| #[trigger] d.wrote_all(r@) == d.deleted(username@) by {
            assert(r@.drop_last() =~= half);
            assert(half.drop_last() =~= none);
            assert(d.wrote_all(none) == d);
            assert(d.wrote_all(half) == d.wrote(half.last()));
            assert(d.wrote_all(r@) =~= d.deleted(username@));
        }
    }
    r
}

/// The users of a list.
pub open spec fn new_views(users: Seq<NewUser>) -> Seq<UserView> {
    Seq::new(users.len(), |i: int| users[i]@)
}

/// The users of a list.
pub open spec fn record_views(users: Seq<UserRecord>) -> Seq<UserView> {
    Seq::new(users.len(), |i: int| users[i]@)
}

/// What to write to put users in, in this order.
pub fn plan_upserts(users: Vec<NewUser>) -> (r: Vec<Write>)
    ensures
        forall|d: Directory| #[trigger] d.wrote_all(r@) == d.upserted(new_views(users@)),
        r@.len() == 2 * users@.len(),
{
    let ghost all = new_views(users@);
    let mut r: Vec<Write> = Vec::new();
    assert(all.take(0).len() == 0);
    for user in it: users
        invariant
            it.seq() == users@,
            all == new_views(users@),
            r@.len() == 2 * it.index(),
            forall|d: Directory| #[trigger]
                d.wrote_all(r@) == d.upserted(all.take(it.index() as int)),
    {
        let ghost before = r@;
        let ghost k = it.index() as int;
        let ghost v = user@;
        push_user(&mut r, user);
        proof {
            assert(all.take(k + 1).drop_last() =~= all.take(k));
            assert(all.take(k + 1).last() == v);
            assert forall|d: Directory| #[trigger]
                d.wrote_all(r@) == d.upserted(all.take(k + 1)) by {
                assert(d.wrote_all(before) == d.upserted(all.take(k)));
            }
        }
    }
    assert(all.take(all.len() as int) =~= all);
    r
}

/// Records as users to be put into another directory.
pub fn to_new_users(users: Vec<UserRecord>) -> (r: Vec<NewUser>)
    ensures
        new_views(r@) == record_views(users@),
{
    let ghost all = record_views(users@);
    let mut r: Vec<NewUser> = Vec::new();
    assert(new_views(r@) =~= all.take(0));
    for user in it: users
        invariant
            it.seq() == users@,
            all == record_views(users@),
            new_views(r@) == all.take(it.index() as int),
    {
        let ghost before = new_views(r@);
        let ghost v = user@;
        r.push(user.into_new());
        assert(new_views(r@) =~= before.push(v));
        assert(all.take(it.index() + 1) =~= all.take(it.index() as int).push(v));
    }
    assert(all.take(all.len() as int) =~= all);
    r
}

impl Ranked for UserRecord {
    open spec fn ranks(&self, other: &Self) -> bool {
        text::comes_by(encode_utf8(self.username@), encode_utf8(other.username@))
    }

    proof fn ranks_total(a: &Self, b: &Self) {
        text::lemma_comes_by_total(encode_utf8(a.username@), encode_utf8(b.username@));
    }

    proof fn ranks_transitive(a: &Self, b: &Self, c: &Self) {
        text::lemma_comes_by_transitive(
            encode_utf8(a.username@),
            encode_utf8(b.username@),
            encode_utf8(c.username@),
        );
    }

    fn at_most(&self, other: &Self) -> (r: bool) {
        text::in_order(self.username.as_str(), other.username.as_str())
    }
}

/// The records in the order of their names.
pub fn list_users(users: Vec<UserRecord>) -> (r: Vec<UserRecord>)
    ensures
        sort::sorts(r@, users@),
        r@.to_multiset() == users@.to_multiset(),
        forall|i: int, j: int|
            #![trigger r@[i], r@[j]]
            0 <= i < j < r@.len() ==> text::comes_by(
                encode_utf8(r@[i].username@),
                encode_utf8(r@[j].username@),
            ),
{
    let ghost all = users@;
    let mut queue: VecDeque<UserRecord> = VecDeque::new();
    for user in it: users
        invariant
            it.seq() == all,
            queue@ == all.take(it.index() as int),
    {
        queue.push_back(user);
        assert(queue@ =~= all.take(it.index() + 1));
    }
    assert(queue@ =~= all);
    let mut sorted = sort::sort(queue);
    let ghost out = sorted@;
    let mut r: Vec<UserRecord> = Vec::new();
    while sorted.len() > 0
        invariant
            r@ + sorted@ == out,
        decreases sorted.len(),
    {
        let ghost left = sorted@;
        let ghost had = r@;
        if let Some(user) = sorted.pop_front() {
            r.push(user);
            assert(r@ + sorted@ =~= had + left);
        }
    }
    assert(r@ =~= out);
    r
}

/// Inserting a user makes the user known if the name was free, and changes
/// nothing if it was not; nobody else is touched.
pub proof fn law_insert(d: Directory, user: UserView, other: Seq<char>)
    ensures
        d.inserted(user).users.contains_key(user.username),
        !d.users.contains_key(user.username) ==> d.inserted(user).users[user.username] == user,
        d.users.contains_key(user.username) ==> d.inserted(user) == d,
        d.inserted(user).inserted(user) == d.inserted(user),
        other != user.username ==> {
            &&& d.inserted(user).users.contains_key(other) == d.users.contains_key(other)
            &&& d.inserted(user).users[other] == d.users[other]
            &&& d.inserted(user).verifiers.contains_key(other) == d.verifiers.contains_key(other)
            &&& d.inserted(user).verifiers[other] == d.verifiers[other]
        },
{
}

/// After users were put in, each is known as in the last entry with the name.
pub proof fn law_upsert(d: Directory, new: Seq<UserView>, i: int)
    requires
        0 <= i < new.len(),
        forall|j: int| i < j < new.len() ==> (#[trigger] new[j]).username != new[i].username,
    ensures
        d.upserted(new).users.contains_key(new[i].username),
        d.upserted(new).users[new[i].username] == new[i],
{
    law_upsert_forgets_verifiers(d, new, new[i].username);
    lemma_upsert(d.users, new, i);
}

proof fn lemma_upsert(users: Users, new: Seq<UserView>, i: int)
    requires
        0 <= i < new.len(),
        forall|j: int| i < j < new.len() ==> (#[trigger] new[j]).username != new[i].username,
    ensures
        upserted(users, new).contains_key(new[i].username),
        upserted(users, new)[new[i].username] == new[i],
    decreases new.len(),
{
    if i < new.len() - 1 {
        let rest = new.drop_last();
        assert(rest[i] == new[i]);
        assert(new[new.len() - 1].username != new[i].username);
        assert forall|j: int| i < j < rest.len() implies (#[trigger] rest[j]).username
            != rest[i].username by {
            assert(rest[j] == new[j]);
        }
        lemma_upsert(users, rest, i);
    }
}

/// Putting the same users in once more changes nothing.
pub proof fn law_upsert_again(d: Directory, new: Seq<UserView>)
    ensures
        d.upserted(new).upserted(new) == d.upserted(new),
{
    let once = d.upserted(new);
    let twice = once.upserted(new);
    law_upsert_forgets_verifiers(d, new, Seq::empty());
    law_upsert_forgets_verifiers(once, new, Seq::empty());
    lemma_upsert_same(once.users, new, new.len() as int, d.users);
    assert(new.take(new.len() as int) =~= new);
    assert(twice.users =~= once.users);
    assert forall|name: Seq<char>|
        #![trigger twice.verifiers.dom().contains(name)]
        #![trigger once.verifiers.dom().contains(name)]
        #![trigger twice.verifiers[name]]
        twice.verifiers.dom().contains(name) == once.verifiers.dom().contains(name) && (
        once.verifiers.dom().contains(name) ==> twice.verifiers[name] == once.verifiers[name]) by {
        law_upsert_forgets_verifiers(d, new, name);
        law_upsert_forgets_verifiers(once, new, name);
    }
    assert(twice.verifiers =~= once.verifiers);
}

/// Putting in the first `n` of users that are known as their last entries gives
/// something that the rest turns into the same again.
proof fn lemma_upsert_same(known: Users, new: Seq<UserView>, n: int, users: Users)
    requires
        0 <= n <= new.len(),
        known == upserted(users, new),
    ensures
        forall|name: Seq<char>|
            known.contains_key(name) == upserted(known, new.take(n)).contains_key(name),
        forall|name: Seq<char>|
            known.contains_key(name) && !named_from(new, 0, n, name) ==> upserted(
                known,
                new.take(n),
            )[name] == known[name],
        forall|name: Seq<char>|
            named_from(new, 0, n, name) && !named_from(new, n, new.len() as int, name)
                ==> upserted(known, new.take(n))[name] == known[name],
    decreases n,
{
    let u = upserted(known, new.take(n));
    if n == 0 {
        assert(new.take(0).len() == 0);
    } else {
        let w = upserted(known, new.take(n - 1));
        lemma_upsert_same(known, new, n - 1, users);
        assert(new.take(n).drop_last() =~= new.take(n - 1));
        assert(new.take(n).last() == new[n - 1]);
        let k = new[n - 1].username;
        assert(u == w.insert(k, new[n - 1]));
        lemma_upsert_has(users, new, n - 1);
        assert forall|name: Seq<char>|
            known.contains_key(name) && !named_from(new, 0, n, name) implies u[name]
            == known[name] by {
            if name == k {
                assert(new[n - 1].username == name);
            }
            if named_from(new, 0, n - 1, name) {
                let j = choose|j: int| 0 <= j < n - 1 && (#[trigger] new[j]).username == name;
                assert(new[j].username == name);
            }
        }
        assert forall|name: Seq<char>|
            named_from(new, 0, n, name) && !named_from(
                new,
                n,
                new.len() as int,
                name,
            ) implies u[name] == known[name] by {
            if name == k {
                assert forall|j: int| n - 1 < j < new.len() implies (#[trigger] new[j]).username
                    != k by {
                    if new[j].username == k {
                        assert(named_from(new, n, new.len() as int, name));
                    }
                }
                lemma_upsert(users, new, n - 1);
            } else {
                let j = choose|j: int| 0 <= j < n && (#[trigger] new[j]).username == name;
                assert(named_from(new, 0, n - 1, name)) by {
                    assert(new[j].username == name);
                }
                if named_from(new, n - 1, new.len() as int, name) {
                    let h = choose|h: int|
                        n - 1 <= h < new.len() && (#[trigger] new[h]).username == name;
                    assert(new[h].username == name);
                    assert(named_from(new, n, new.len() as int, name));
                }
            }
        }
    }
}

/// Whether one of the users from `lo` up to `hi` has a name.
spec fn named_from(new: Seq<UserView>, lo: int, hi: int, name: Seq<char>) -> bool {
    exists|j: int| lo <= j < hi && (#[trigger] new[j]).username == name
}

proof fn lemma_upsert_has(users: Users, new: Seq<UserView>, i: int)
    requires
        0 <= i < new.len(),
    ensures
        upserted(users, new).contains_key(new[i].username),
    decreases new.len(),
{
    if i < new.len() - 1 {
        let rest = new.drop_last();
        assert(rest[i] == new[i]);
        lemma_upsert_has(users, rest, i);
    }
}

/// Putting users into a directory does to its users what it does to users alone,
/// and leaves no verifier under their names; the other verifiers stay.
pub proof fn law_upsert_forgets_verifiers(d: Directory, new: Seq<UserView>, name: Seq<char>)
    ensures
        d.upserted(new).users == upserted(d.users, new),
        d.upserted(new).verifiers.contains_key(name) <==> d.verifiers.contains_key(name)
            && forall|i: int| 0 <= i < new.len() ==> (#[trigger] new[i]).username != name,
        d.upserted(new).verifiers.contains_key(name) ==> d.upserted(new).verifiers[name]
            == d.verifiers[name],
    decreases new.len(),
{
    if new.len() > 0 {
        let rest = new.drop_last();
        law_upsert_forgets_verifiers(d, rest, name);
        let n = new.len() - 1;
        if forall|i: int| 0 <= i < new.len() ==> (#[trigger] new[i]).username != name {
            assert forall|i: int| 0 <= i < rest.len() implies (#[trigger] rest[i]).username
                != name by {
                assert(rest[i] == new[i]);
            }
            assert(new[n].username != name);
        }
        if d.upserted(new).verifiers.contains_key(name) {
            assert forall|i: int| 0 <= i < new.len() implies (#[trigger] new[i]).username
                != name by {
                if i < n {
                    assert(rest[i] == new[i]);
                }
            }
        }
    }
}

/// A deleted user is unknown and has no verifier, the name is free again, and
/// nobody else is touched.
pub proof fn law_delete(d: Directory, name: Seq<char>, user: UserView, other: Seq<char>)
    requires
        user.username == name,
    ensures
        !d.deleted(name).users.contains_key(name),
        !d.deleted(name).verifiers.contains_key(name),
        d.deleted(name).inserted(user).users[name] == user,
        !d.deleted(name).inserted(user).verifiers.contains_key(name),
        d.deleted(name).deleted(name) == d.deleted(name),
        other != name ==> {
            &&& d.deleted(name).users.contains_key(other) == d.users.contains_key(other)
            &&& d.deleted(name).users[other] == d.users[other]
            &&& d.deleted(name).verifiers.contains_key(other) == d.verifiers.contains_key(other)
            &&& d.deleted(name).verifiers[other] == d.verifiers[other]
        },
{
    assert(d.deleted(name).deleted(name) =~= d.deleted(name));
}

/// The largest number of lanes that eight times still fits a `u32`.
pub const LANES_LIMIT: u32 = 0x1FFF_FFFF;

/// Why a password was not hashed.
#[derive(Clone, Copy, Debug, PartialEq, Eq, Structural)]
pub enum HashError {
    MemoryTooLittle,
    TimeTooSmall,
    ThreadsTooFew,
    ThreadsTooMany,
    PasswordTooLong,
}

/// What Argon2 says of a memory cost, a time cost and a number of lanes.
pub open spec fn costs_verdict(m_cost: u32, t_cost: u32, p_cost: u32) -> Result<(), HashError> {
    if m_cost < 8 || m_cost < p_cost * 8 {
        Err(HashError::MemoryTooLittle)
    } else if t_cost < 1 {
        Err(HashError::TimeTooSmall)
    } else if p_cost < 1 {
        Err(HashError::ThreadsTooFew)
    } else if p_cost > 0xFF_FFFF {
        Err(HashError::ThreadsTooMany)
    } else {
        Ok(())
    }
}

/// `argon2::Params::new` with the default output length: the costs are taken, or
/// the first of these is wrong: the memory (under 8 KiB, or under 8 KiB a lane),
/// the time, the number of lanes. It multiplies the lanes by 8 in a `u32`.
#[verifier::external_body]
fn check_costs(m_cost: u32, t_cost: u32, p_cost: u32) -> (r: Result<(), HashError>)
    requires
        p_cost <= LANES_LIMIT,
    ensures
        r == costs_verdict(m_cost, t_cost, p_cost),
{
    match Params::new(m_cost, t_cost, p_cost, None) {
        Ok(_) => Ok(()),
        Err(argon2::Error::MemoryTooLittle) => Err(HashError::MemoryTooLittle),
        Err(argon2::Error::TimeTooSmall) => Err(HashError::TimeTooSmall),
        Err(argon2::Error::ThreadsTooFew) => Err(HashError::ThreadsTooFew),
        Err(_) => Err(HashError::ThreadsTooMany),
    }
}

/// The text between the algorithm and the salt of a password hash, where the
/// costs are, if the hash is in the PHC string format.
pub uninterp spec fn phc_costs(stored: Seq<char>) -> Option<Seq<char>>;

/// `argon2::password_hash::PasswordHash::new` and the `params` of what it reads:
/// the text of the costs if the hash can be read. It does not panic, whatever the
/// text.
#[verifier::external_body]
fn read_costs(stored: &str) -> (r: Option<String>)
    ensures
        match r {
            Some(costs) => phc_costs(stored@) == Some(costs@),
            None => phc_costs(stored@) is None,
        },
{
    match PasswordHash::new(stored) {
        Ok(hash) => Some(hash.params.as_str().to_owned()),
        Err(_) => None,
    }
}

/// Whether Argon2, with the costs and the salt of a stored hash, makes the hash
/// out of a password.
pub uninterp spec fn argon2_accepts(stored: Seq<char>, password: Seq<u8>) -> bool;

/// `argon2::Argon2::verify_password` on a hash that is read first: whether the
/// password gives the hash, and no password does if it cannot be read. It
/// multiplies the lanes by 8 in a `u32`. The memory that the hash asks for is
/// taken to be there.
#[verifier::external_body]
fn argon2_verify(stored: &str, password: &[u8]) -> (r: bool)
    requires
        phc_costs(stored@) matches Some(costs) ==> lanes_in(costs) <= LANES_LIMIT,
    ensures
        r == argon2_accepts(stored@, password@),
        phc_costs(stored@) is None ==> !r,
{
    match PasswordHash::new(stored) {
        Ok(hash) => Argon2::default().verify_password(password, &hash).is_ok(),
        Err(_) => false,
    }
}

/// The costs as they stand in a hash.
pub open spec fn costs_text(m_cost: u32, t_cost: u32, p_cost: u32) -> Seq<char> {
    "m="@ + text::decimal(m_cost as nat) + ",t="@ + text::decimal(t_cost as nat) + ",p="@
        + text::decimal(p_cost as nat)
}

/// How a hash at given costs begins: the algorithm, its version and the costs.
pub open spec fn hash_front(m_cost: u32, t_cost: u32, p_cost: u32) -> Seq<char> {
    "$argon2id$v=19$"@ + costs_text(m_cost, t_cost, p_cost) + "$"@
}

/// `argon2::Argon2::hash_password` with Argon2id in version 0x13 and a salt from
/// the random number generator of the system: it gives a hash in the PHC string
/// format, at the given costs, that accepts the password, unless the password is
/// longer than 2^32 - 1 bytes. Nothing is said of what follows the costs in the
/// hash, for the salt is random. The memory asked for is taken to be there.
#[verifier::external_body]
fn argon2id_hash(password: &[u8], m_cost: u32, t_cost: u32, p_cost: u32) -> (r: Option<String>)
    requires
        costs_verdict(m_cost, t_cost, p_cost) is Ok,
    ensures
        r is Some <==> password@.len() <= 0xFFFF_FFFF,
        r matches Some(hash) ==> {
            &&& text::begins_with(hash@, hash_front(m_cost, t_cost, p_cost))
            &&& phc_costs(hash@) == Some(costs_text(m_cost, t_cost, p_cost))
            &&& argon2_accepts(hash@, password@)
        },
{
    let salt = SaltString::generate(&mut OsRng);
    let params = Params::new(m_cost, t_cost, p_cost, None).ok()?;
    let argon2 = Argon2::new(Algorithm::Argon2id, Version::V0x13, params);
    let hash = argon2.hash_password(password, &salt).ok()?;
    Some(hash.to_string())
}

/// The number of lanes among costs of the form `name=value`: the last `p`.
pub open spec fn last_lanes(costs: Seq<Seq<char>>) -> nat
    decreases costs.len(),
{
    if costs.len() == 0 {
        0
    } else if text::begins_with(costs.last(), "p="@) {
        match text::parse_bounded(costs.last().skip(2), u32::MAX as nat) {
            Some(n) => n,
            None => 0,
        }
    } else {
        last_lanes(costs.drop_last())
    }
}

/// The number of lanes that the text of the costs asks for, or zero if it names
/// none.
pub open spec fn lanes_in(costs: Seq<char>) -> nat {
    last_lanes(text::split(costs, ','))
}

/// The costs as they stand in a hash ask for the number of lanes they were made
/// with.
proof fn lemma_lanes_in_costs(m_cost: u32, t_cost: u32, p_cost: u32)
    ensures
        lanes_in(costs_text(m_cost, t_cost, p_cost)) == p_cost,
{
    reveal_strlit("m=");
    reveal_strlit(",t=");
    reveal_strlit(",p=");
    reveal_strlit("p=");
    let m = "m="@ + text::decimal(m_cost as nat);
    let t = seq!['t', '='] + text::decimal(t_cost as nat);
    let p = "p="@ + text::decimal(p_cost as nat);
    let s = costs_text(m_cost, t_cost, p_cost);
    assert(s =~= m + seq![','] + (t + seq![','] + p));
    lemma_no_comma("m="@, m_cost as nat);
    lemma_no_comma(seq!['t', '='], t_cost as nat);
    lemma_no_comma("p="@, p_cost as nat);
    text::lemma_split_first(m, ',', t + seq![','] + p);
    text::lemma_split_first(t, ',', p);
    text::lemma_split_single(p, ',');
    let pieces = text::split(s, ',');
    assert(pieces.last() == p);
    assert(p.take(2) =~= "p="@);
    assert(p.skip(2) =~= text::decimal(p_cost as nat));
    text::lemma_decimal(p_cost as nat);
}

proof fn lemma_no_comma(name: Seq<char>, n: nat)
    requires
        !name.contains(','),
    ensures
        !(name + text::decimal(n)).contains(','),
{
    let s = name + text::decimal(n);
    text::lemma_decimal(n);
    if s.contains(',') {
        let i = choose|i: int| 0 <= i < s.len() && s[i] == ',';
        if i < name.len() {
            assert(name[i] == ',');
        } else {
            assert(text::is_digit(text::decimal(n)[i - name.len()]));
        }
    }
}

/// The number of lanes that the text of the costs asks for, or zero if it names
/// none.
pub fn lanes_of(costs: &str) -> (r: u32)
    ensures
        r == lanes_in(costs@),
{
    let chars = text::chars_of(costs);
    let pieces = text::split_chars(chars.as_slice(), ',');
    let ghost all = text::contents(pieces@);
    let mut i: usize = pieces.len();
    assert(all.take(i as int) =~= all);
    while i > 0
        invariant
            i <= pieces.len(),
            all == text::contents(pieces@),
            all == text::split(costs@, ','),
            lanes_in(costs@) == last_lanes(all.take(i as int)),
        decreases i,
    {
        let piece = text::string_of(pieces[i - 1].as_slice());
        assert(all.take(i as int).last() == piece@);
        assert(all.take(i as int).drop_last() =~= all.take(i - 1));
        proof {
            reveal_strlit("p=");
        }
        if let Some(value) = text::strip_prefix(piece.as_str(), "p=") {
            return match text::parse_number(value.as_str(), u32::MAX as u64) {
                Some(n) => n as u32,
                None => 0,
            };
        }
        i -= 1;
    }
    0
}

/// Whether a password is the one of a stored hash.
pub open spec fn password_matches(stored: Seq<char>, password: Seq<char>) -> bool {
    match phc_costs(stored) {
        Some(costs) => lanes_in(costs) <= LANES_LIMIT && argon2_accepts(
            stored,
            encode_utf8(password),
        ),
        None => false,
    }
}

/// Whether a password is the one of a stored hash. What cannot be a hash is the
/// hash of no password.
pub fn verify_password(stored_hash: &str, password: &str) -> (r: bool)
    ensures
        r == password_matches(stored_hash@, password@),
{
    match read_costs(stored_hash) {
        Some(costs) => {
            if lanes_of(costs.as_str()) > LANES_LIMIT {
                return false;
            }
            argon2_verify(stored_hash, password.as_bytes())
        },
        None => false,
    }
}

/// What comes of hashing a password at given costs, but for the hash itself.
pub open spec fn hash_verdict(
    password: Seq<char>,
    m_cost: u32,
    t_cost: u32,
    p_cost: u32,
) -> Result<(), HashError> {
    if p_cost > LANES_LIMIT {
        Err(HashError::ThreadsTooMany)
    } else if costs_verdict(m_cost, t_cost, p_cost) is Ok && encode_utf8(password).len()
        > 0xFFFF_FFFF {
        Err(HashError::PasswordTooLong)
    } else {
        costs_verdict(m_cost, t_cost, p_cost)
    }
}

/// A hash of a password, at a memory cost in KiB, a time cost and a number of
/// lanes. The password matches it.
pub fn hash_password(password: &str, m_cost: u32, t_cost: u32, p_cost: u32) -> (r: Result<
    String,
    HashError,
>)
    ensures
        match r {
            Ok(hash) => {
                &&& hash_verdict(password@, m_cost, t_cost, p_cost) is Ok
                &&& password_matches(hash@, password@)
                &&& text::begins_with(hash@, hash_front(m_cost, t_cost, p_cost))
            },
            Err(e) => hash_verdict(password@, m_cost, t_cost, p_cost) == Err::<(), HashError>(e),
        },
{
    if p_cost > LANES_LIMIT {
        return Err(HashError::ThreadsTooMany);
    }
    match check_costs(m_cost, t_cost, p_cost) {
        Ok(_) => match argon2id_hash(password.as_bytes(), m_cost, t_cost, p_cost) {
            Some(hash) => {
                proof {
                    lemma_lanes_in_costs(m_cost, t_cost, p_cost);
                }
                Ok(hash)
            },
            None => Err(HashError::PasswordTooLong),
        },
        Err(e) => Err(e),
    }
}

/// The bytes of a user name and a password, with a zero byte between them.
pub open spec fn credential(username: Seq<char>, password: Seq<char>) -> Seq<u8> {
    encode_utf8(username) + seq![0u8] + encode_utf8(password)
}

/// The bytes of a user name and a password, with a zero byte between them.
pub fn credential_bytes(username: &str, password: &str) -> (r: Vec<u8>)
    ensures
        r@ == credential(username@, password@),
{
    let mut r: Vec<u8> = Vec::new();
    r.extend_from_slice(username.as_bytes());
    r.push(0);
    r.extend_from_slice(password.as_bytes());
    assert(r@ =~= credential(username@, password@));
    r
}

/// The HMAC-SHA256 code of data under a key.
pub uninterp spec fn hmac_sha256(key: Seq<u8>, data: Seq<u8>) -> Seq<u8>;

/// `hmac::Hmac::<Sha256>`, with `new_from_slice`, `update` and `finalize`: the code
/// of the data under the key. It takes a key of any length.
#[verifier::external_body]
fn hmac_code(key: &[u8], data: &[u8]) -> (r: Vec<u8>)
    ensures
        r@ == hmac_sha256(key@, data@),
{
    match <Hmac<Sha256> as Mac>::new_from_slice(key) {
        Ok(mac) => mac.chain_update(data).finalize().into_bytes().to_vec(),
        Err(_) => Vec::new(),
    }
}

/// `hmac::Hmac::<Sha256>`, with `new_from_slice`, `update` and `verify_slice`:
/// whether a code is the code of the data under the key, compared in constant
/// time. It takes a key and a code of any length.
#[verifier::external_body]
fn hmac_check(key: &[u8], data: &[u8], code: &[u8]) -> (r: bool)
    ensures
        r == (code@ == hmac_sha256(key@, data@)),
{
    match <Hmac<Sha256> as Mac>::new_from_slice(key) {
        Ok(mac) => mac.chain_update(data).verify_slice(code).is_ok(),
        Err(_) => false,
    }
}

/// The verifier of a user's password under a pepper.
pub open spec fn verifier_of(
    pepper: Seq<u8>,
    username: Seq<char>,
    password: Seq<char>,
) -> Seq<u8> {
    hmac_sha256(pepper, credential(username, password))
}

/// A verifier: a code by which a password can be checked faster than by its
/// hash, by those who have the pepper.
pub fn compute_verifier(pepper: &[u8], username: &str, password: &str) -> (r: Vec<u8>)
    ensures
        r@ == verifier_of(pepper@, username@, password@),
{
    let data = credential_bytes(username, password);
    hmac_code(pepper, data.as_slice())
}

/// Whether a password is the one that a stored verifier was made of.
pub fn verify_fast(pepper: &[u8], username: &str, password: &str, stored: &[u8]) -> (r: bool)
    ensures
        r == (stored@ == verifier_of(pepper@, username@, password@)),
{
    let data = credential_bytes(username, password);
    hmac_check(pepper, data.as_slice(), stored)
}

/// A record, and a user to be put in, are seen as what they hold.
pub proof fn law_users_as_seen(r: UserRecord, n: NewUser)
    ensures
        r@.username == r.username@,
        r@.userid == r.userid@,
        r@.password_hash == r.password_hash@,
        r@.superuser == r.superuser,
        r@.admin == r.admin,
        n@.username == n.username@,
        n@.userid == n.userid@,
        n@.password_hash == n.password_hash@,
        n@.superuser == n.superuser,
        n@.admin == n.admin,
{
}

/// Lists of users are seen as their users are, one for one.
pub proof fn law_lists_as_seen(records: Seq<UserRecord>, new: Seq<NewUser>, i: int)
    ensures
        record_views(records).len() == records.len(),
        new_views(new).len() == new.len(),
        0 <= i < records.len() ==> record_views(records)[i] == records[i]@,
        0 <= i < new.len() ==> new_views(new)[i] == new[i]@,
{
}

/// What each thing that is written does to a directory, and what several do.
pub proof fn law_writes(d: Directory, ws: Seq<Write>, w: Write)
    ensures
        d.wrote_all(Seq::empty()) == d,
        d.wrote_all(ws.push(w)) == d.wrote_all(ws).wrote(w),
        w matches Write::PutUser(rec) ==> d.wrote(w).users == d.users.insert(rec.username@, rec@)
            && d.wrote(w).verifiers == d.verifiers,
        w matches Write::RemoveUser(name) ==> d.wrote(w).users == d.users.remove(name@)
            && d.wrote(w).verifiers == d.verifiers,
        w matches Write::RemoveVerifier(name) ==> d.wrote(w).users == d.users
            && d.wrote(w).verifiers == d.verifiers.remove(name@),
{
    assert(ws.push(w).drop_last() =~= ws);
}

/// A user that is put in is known under the own name and has no verifier, whether
/// inserted or put in place of another, and nobody else is touched; one that is
/// deleted is gone, and the verifier too.
pub proof fn law_putting_in(d: Directory, user: UserView, new: Seq<UserView>)
    ensures
        d.put(user).users == d.users.insert(user.username, user),
        d.put(user).verifiers == d.verifiers.remove(user.username),
        !d.users.contains_key(user.username) ==> d.inserted(user) == d.put(user),
        d.users.contains_key(user.username) ==> d.inserted(user) == d,
        d.deleted(user.username).users == d.users.remove(user.username),
        d.deleted(user.username).verifiers == d.verifiers.remove(user.username),
        d.upserted(Seq::empty()) == d,
        d.upserted(new.push(user)) == d.upserted(new).put(user),
{
    assert(new.push(user).drop_last() =~= new);
}

/// Users whose names are not among those that were put in stay as they were.
pub proof fn law_upsert_touches_nobody_else(d: Directory, new: Seq<UserView>, name: Seq<char>)
    requires
        forall|i: int| 0 <= i < new.len() ==> (#[trigger] new[i]).username != name,
    ensures
        d.upserted(new).users.contains_key(name) == d.users.contains_key(name),
        d.upserted(new).users[name] == d.users[name],
    decreases new.len(),
{
    if new.len() > 0 {
        let rest = new.drop_last();
        assert forall|i: int| 0 <= i < rest.len() implies (#[trigger] rest[i]).username
            != name by {
            assert(rest[i] == new[i]);
        }
        assert(new[new.len() - 1].username != name);
        law_upsert_touches_nobody_else(d, rest, name);
    }
}

/// Users rank by the bytes of their names.
pub proof fn law_users_rank_by_name(a: UserRecord, b: UserRecord)
    ensures
        a.ranks(&b) <==> text::comes_by(encode_utf8(a.username@), encode_utf8(b.username@)),
{
}

/// Passwords are hashed with at least 8 KiB, and 8 KiB a lane, at least one pass,
/// and from one to 2^24 - 1 lanes.
pub proof fn law_costs(m_cost: u32, t_cost: u32, p_cost: u32)
    ensures
        costs_verdict(m_cost, t_cost, p_cost) is Ok <==> {
            &&& m_cost >= 8
            &&& m_cost >= 8 * p_cost
            &&& t_cost >= 1
            &&& 1 <= p_cost < 0x100_0000
        },
        costs_verdict(m_cost, t_cost, p_cost) == Err::<(), HashError>(HashError::MemoryTooLittle)
            <==> m_cost < 8 || m_cost < 8 * p_cost,
        costs_verdict(m_cost, t_cost, p_cost) == Err::<(), HashError>(HashError::TimeTooSmall)
            <==> m_cost >= 8 && m_cost >= 8 * p_cost && t_cost == 0,
        costs_verdict(m_cost, t_cost, p_cost) == Err::<(), HashError>(HashError::ThreadsTooFew)
            <==> m_cost >= 8 && t_cost > 0 && p_cost == 0,
{
}

/// A password is hashed at costs that can be, unless it is too long.
pub proof fn law_what_is_hashed(password: Seq<char>, m_cost: u32, t_cost: u32, p_cost: u32)
    ensures
        p_cost < 0x2000_0000 && encode_utf8(password).len() < 0x1_0000_0000 ==> hash_verdict(
            password,
            m_cost,
            t_cost,
            p_cost,
        ) == costs_verdict(m_cost, t_cost, p_cost),
        p_cost >= 0x2000_0000 ==> hash_verdict(password, m_cost, t_cost, p_cost) == Err::<
            (),
            HashError,
        >(HashError::ThreadsTooMany),
        hash_verdict(password, m_cost, t_cost, p_cost) == Err::<(), HashError>(
            HashError::PasswordTooLong,
        ) <==> costs_verdict(m_cost, t_cost, p_cost) is Ok && encode_utf8(password).len()
            >= 0x1_0000_0000,
        hash_verdict(password, m_cost, t_cost, p_cost) is Ok ==> costs_verdict(
            m_cost,
            t_cost,
            p_cost,
        ) is Ok,
{
}

/// A hash begins with the algorithm, its version and the costs.
pub proof fn law_front_of_a_hash(m_cost: u32, t_cost: u32, p_cost: u32)
    ensures
        hash_front(m_cost, t_cost, p_cost) == "$argon2id$v=19$m="@ + text::decimal(m_cost as nat)
            + ",t="@ + text::decimal(t_cost as nat) + ",p="@ + text::decimal(p_cost as nat) + "$"@,
{
    reveal_strlit("$argon2id$v=19$m=");
    reveal_strlit("$argon2id$v=19$");
    reveal_strlit("m=");
    assert("$argon2id$v=19$m="@ =~= "$argon2id$v=19$"@ + "m="@);
    assert(hash_front(m_cost, t_cost, p_cost) =~= "$argon2id$v=19$m="@ + text::decimal(
        m_cost as nat,
    ) + ",t="@ + text::decimal(t_cost as nat) + ",p="@ + text::decimal(p_cost as nat) + "$"@);
}

/// The lanes of a hash are read from the last of its costs that names them.
pub proof fn law_lanes(front: Seq<char>, p_cost: u32, other: Seq<char>)
    requires
        !other.contains(','),
        other.len() < 2 || other[0] != 'p' || other[1] != '=',
    ensures
        lanes_in(front + seq![','] + ("p="@ + text::decimal(p_cost as nat))) == p_cost,
        lanes_in("p="@ + text::decimal(p_cost as nat)) == p_cost,
        lanes_in(front + seq![','] + other) == lanes_in(front),
        lanes_in(other) == 0,
{
    reveal_strlit("p=");
    let p = "p="@ + text::decimal(p_cost as nat);
    lemma_no_comma("p="@, p_cost as nat);
    text::law_split(front, p, ',');
    text::law_split(p, p, ',');
    text::law_split(front, other, ',');
    text::law_split(other, other, ',');
    text::lemma_decimal(p_cost as nat);
    assert(p.take(2) =~= "p="@);
    assert(p.skip(2) =~= text::decimal(p_cost as nat));
    assert((text::split(front, ',') + seq![p]).last() == p);
    assert((text::split(front, ',') + seq![other]).drop_last() =~= text::split(front, ','));
    assert((text::split(front, ',') + seq![other]).last() == other);
    if text::begins_with(other, "p="@) {
        assert(other.take(2)[0] == 'p' && other.take(2)[1] == '=');
    }
    assert(seq![other].drop_last() =~= Seq::empty());
    assert(last_lanes(Seq::empty()) == 0);
    assert(seq![other].last() == other);
    assert(seq![p].last() == p);
}

/// A password matches a hash if the hash can be read, asks for no more lanes than
/// can be counted, and was made of the bytes of the password.
pub proof fn law_who_knows_the_password(stored: Seq<char>, password: Seq<char>)
    ensures
        password_matches(stored, password) <==> {
            &&& phc_costs(stored) is Some
            &&& lanes_in(phc_costs(stored)->0) < 0x2000_0000
            &&& argon2_accepts(stored, encode_utf8(password))
        },
{
}

/// Different credentials have different bytes, unless a user name holds a zero
/// character.
pub proof fn law_credentials_are_told_apart(
    username: Seq<char>,
    password: Seq<char>,
    other_username: Seq<char>,
    other_password: Seq<char>,
)
    requires
        !username.contains('\0'),
        !other_username.contains('\0'),
        credential(username, password) == credential(other_username, other_password),
    ensures
        username == other_username,
        password == other_password,
{
    let a = encode_utf8(username);
    let b = encode_utf8(other_username);
    let c = credential(username, password);
    let d = credential(other_username, other_password);
    text::lemma_no_zero_byte(username);
    text::lemma_no_zero_byte(other_username);
    assert(c[a.len() as int] == 0u8);
    assert(d[b.len() as int] == 0u8);
    if a.len() < b.len() {
        assert(d[a.len() as int] == b[a.len() as int]);
        assert(b.contains(b[a.len() as int]));
    }
    if b.len() < a.len() {
        assert(c[b.len() as int] == a[b.len() as int]);
        assert(a.contains(a[b.len() as int]));
    }
    let n = a.len() as int;
    assert(c.take(n) =~= a);
    assert(d.take(n) =~= b);
    assert(c.skip(n + 1) =~= encode_utf8(password));
    assert(d.skip(n + 1) =~= encode_utf8(other_password));
    text::lemma_utf8_injective(username, other_username);
    text::lemma_utf8_injective(password, other_password);
}

/// The bytes of credentials hold the whole user name and the whole password, and
/// a verifier is the code of those bytes under the pepper.
pub proof fn law_verifiers(pepper: Seq<u8>, username: Seq<char>, password: Seq<char>)
    ensures
        credential(username, password).len() == encode_utf8(username).len() + 1 + encode_utf8(
            password,
        ).len(),
        verifier_of(pepper, username, password) == hmac_sha256(
            pepper,
            encode_utf8(username) + seq![0u8] + encode_utf8(password),
        ),
{
}

/// What stands behind the last `p=` is read as a number, and as zero if it is none.
pub proof fn law_lanes_are_read(front: Seq<char>, number: Seq<char>)
    requires
        !number.contains(','),
    ensures
        lanes_in(front + seq![','] + ("p="@ + number)) == (match text::parse_bounded(
            number,
            0xFFFF_FFFF,
        ) {
            Some(n) => n,
            None => 0,
        }),
{
    reveal_strlit("p=");
    let p = "p="@ + number;
    assert(!p.contains(',')) by {
        if p.contains(',') {
            let i = choose|i: int| 0 <= i < p.len() && p[i] == ',';
            if i >= 2 {
                assert(number.contains(number[i - 2]));
            }
        }
    }
    text::law_split(front, p, ',');
    text::law_split(p, p, ',');
    assert(p.take(2) =~= "p="@);
    assert(p.skip(2) =~= number);
    assert((text::split(front, ',') + seq![p]).last() == p);
}

} // verus!
