//! The vault that hands out secrets by name.
use crate::text;
use vstd::prelude::*;

verus! {

/// A vault, at an address.
#[derive(Clone, Debug)]
pub struct VaultClient {
    addr: String,
}

impl View for VaultClient {
    type V = Seq<char>;

    closed spec fn view(&self) -> Seq<char> {
        self.addr@
    }
}

/// `s` without the slashes at its end.
pub open spec fn without_slashes(s: Seq<char>) -> Seq<char>
    decreases s.len(),
{
    if s.len() > 0 && s.last() == '/' {
        without_slashes(s.drop_last())
    } else {
        s
    }
}

/// A character of a secret's name as it stands in a url.
pub open spec fn encode_char(c: char) -> Seq<char> {
    if c == '%' {
        seq!['%', '2', '5']
    } else if c == '/' {
        seq!['%', '2', 'F']
    } else {
        seq![c]
    }
}

/// A secret's name as it stands in a url.
pub open spec fn encoded(name: Seq<char>) -> Seq<char>
    decreases name.len(),
{
    if name.len() == 0 {
        Seq::empty()
    } else {
        encoded(name.drop_last()) + encode_char(name.last())
    }
}

/// The url of a secret.
pub open spec fn secret_url(addr: Seq<char>, name: Seq<char>) -> Seq<char> {
    addr + "/v1/secrets/"@ + encoded(name)
}

/// A secret's name as it stands in a url: `%` and `/` are escaped.
pub fn encode_name(name: &str) -> (r: String)
    ensures
        r@ == encoded(name@),
{
    let chars = text::chars_of(name);
    let mut r = String::new();
    let mut i: usize = 0;
    assert(chars@.take(0) =~= Seq::empty());
    assert(r@ =~= Seq::empty());
    while i < chars.len()
        invariant
            i <= chars.len(),
            r@ == encoded(chars@.take(i as int)),
        decreases chars.len() - i,
    {
        let ghost before = r@;
        let c = chars[i];
        if c == '%' || c == '/' {
            r.push('%');
            r.push('2');
            r.push(if c == '%' {
                '5'
            } else {
                'F'
            });
        } else {
            r.push(c);
        }
        assert(r@ =~= before + encode_char(c));
        i += 1;
        assert(chars@.take(i as int).drop_last() =~= chars@.take(i - 1));
    }
    assert(chars@.take(i as int) =~= chars@);
    r
}

impl VaultClient {
    /// The vault at the address that the environment gives, if it gives one; the
    /// address is taken without slashes at its end.
    pub fn from_env(addr: Option<String>) -> (r: Option<VaultClient>)
        ensures
            match addr {
                Some(a) => if a@.len() > 0 {
                    r matches Some(v) && v@ == without_slashes(a@)
                } else {
                    r is None
                },
                None => r is None,
            },
    {
        match addr {
            Some(a) => {
                let chars = text::chars_of(a.as_str());
                if chars.len() == 0 {
                    return None;
                }
                let mut n: usize = chars.len();
                assert(chars@.take(n as int) =~= chars@);
                while n > 0 && chars[n - 1] == '/'
                    invariant
                        n <= chars.len(),
                        without_slashes(chars@) == without_slashes(chars@.take(n as int)),
                    decreases n,
                {
                    assert(chars@.take(n as int).drop_last() =~= chars@.take(n - 1));
                    n -= 1;
                }
                let kept = text::copy_range(chars.as_slice(), 0, n);
                assert(kept@ =~= chars@.take(n as int));
                Some(VaultClient { addr: text::string_of(kept.as_slice()) })
            },
            None => None,
        }
    }

    /// The url of a secret.
    pub fn secret_url(&self, name: &str) -> (r: String)
        ensures
            r@ == secret_url(self@, name@),
    {
        let base = text::concat(self.addr.as_str(), "/v1/secrets/");
        text::concat(base.as_str(), encode_name(name).as_str())
    }
}

/// What the vault has answered.
#[derive(Clone, Debug)]
pub enum VaultReply {
    /// Nothing came back that could be read.
    Failed,
    /// A response with a status code; its value, where the body has one.
    Answer { status: u16, value: Option<String> },
}

/// What the vault has said of a secret.
#[derive(Clone, Debug)]
pub enum Secret {
    /// The vault cannot be asked, or has refused.
    Unavailable,
    /// There is no such secret, or it has no value.
    Missing,
    /// The value.
    Value(String),
}

impl VaultClient {
    /// What an answer of the vault says of the secret that was asked for: a status
    /// that is not found says that there is none, any other client or server error
    /// is a failure.
    pub fn get_value(reply: VaultReply) -> (r: Secret)
        ensures
            match reply {
                VaultReply::Failed => r is Unavailable,
                VaultReply::Answer { status, value } => if status == 404 {
                    r is Missing
                } else if 400 <= status < 600 {
                    r is Unavailable
                } else {
                    match value {
                        Some(v) => r == Secret::Value(v),
                        None => r is Missing,
                    }
                },
            },
    {
        match reply {
            VaultReply::Failed => Secret::Unavailable,
            VaultReply::Answer { status, value } => {
                if status == 404 {
                    Secret::Missing
                } else if 400 <= status && status < 600 {
                    Secret::Unavailable
                } else {
                    match value {
                        Some(v) => Secret::Value(v),
                        None => Secret::Missing,
                    }
                }
            },
        }
    }
}

/// A name stands in a url as one segment.
pub proof fn law_encoded_name_is_one_segment(name: Seq<char>)
    ensures
        !encoded(name).contains('/'),
    decreases name.len(),
{
    if name.len() > 0 {
        law_encoded_name_is_one_segment(name.drop_last());
        let a = encoded(name.drop_last());
        let b = encode_char(name.last());
        assert forall|i: int| 0 <= i < encoded(name).len() implies encoded(name)[i] != '/' by {
            if i < a.len() {
                assert(a.contains(a[i]));
            } else {
                assert(encoded(name)[i] == b[i - a.len()]);
            }
        }
    }
}

/// Different secrets have different urls.
pub proof fn law_different_names_have_different_urls(
    addr: Seq<char>,
    name: Seq<char>,
    other: Seq<char>,
)
    requires
        secret_url(addr, name) == secret_url(addr, other),
    ensures
        name == other,
{
    let head = addr + "/v1/secrets/"@;
    let n = head.len() as int;
    assert(secret_url(addr, name).skip(n) =~= encoded(name));
    assert(secret_url(addr, other).skip(n) =~= encoded(other));
    lemma_encoded_front(name);
    lemma_encoded_front(other);
    lemma_encoded_injective(name, other);
}

/// A name as it stands in a url, seen from the front.
spec fn encoded_front(name: Seq<char>) -> Seq<char>
    decreases name.len(),
{
    if name.len() == 0 {
        Seq::empty()
    } else {
        encode_char(name[0]) + encoded_front(name.drop_first())
    }
}

proof fn lemma_encoded_front(name: Seq<char>)
    ensures
        encoded(name) == encoded_front(name),
    decreases name.len(),
{
    if name.len() == 1 {
        assert(encoded(name.drop_last()) =~= Seq::empty());
        assert(encoded_front(name.drop_first()) =~= Seq::empty());
        assert(name.last() == name[0]);
        assert(encoded(name) =~= encoded_front(name));
    } else if name.len() > 1 {
        let mid = name.drop_first().drop_last();
        lemma_encoded_front(name.drop_last());
        lemma_encoded_front(name.drop_first());
        lemma_encoded_front(mid);
        assert(name.drop_last().drop_first() =~= mid);
        assert(name.drop_first().last() == name.last());
        assert(name.drop_last()[0] == name[0]);
        assert(encoded(name) =~= encode_char(name[0]) + (encoded(mid) + encode_char(name.last())));
    }
}

proof fn lemma_encoded_injective(a: Seq<char>, b: Seq<char>)
    requires
        encoded_front(a) == encoded_front(b),
    ensures
        a == b,
    decreases a.len(),
{
    let x = encoded_front(a);
    let y = encoded_front(b);
    assert(a.len() > 0 ==> x.len() > 0);
    assert(b.len() > 0 ==> y.len() > 0);
    if a.len() > 0 && b.len() > 0 {
        let ca = encode_char(a[0]);
        let cb = encode_char(b[0]);
        assert(x[0] == ca[0] && y[0] == cb[0]);
        if ca[0] == '%' {
            assert(x[2] == ca[2]);
            assert(y[2] == cb[2]);
        }
        assert(ca == cb);
        assert(a[0] == b[0]);
        assert(x.skip(ca.len() as int) =~= encoded_front(a.drop_first()));
        assert(y.skip(cb.len() as int) =~= encoded_front(b.drop_first()));
        lemma_encoded_injective(a.drop_first(), b.drop_first());
        assert(a =~= seq![a[0]] + a.drop_first());
        assert(b =~= seq![b[0]] + b.drop_first());
    } else {
        assert(a =~= b);
    }
}

/// Slashes at the end of an address are dropped, all of them, and nothing else.
pub proof fn law_slashes_at_the_end(s: Seq<char>)
    ensures
        s.len() == 0 || s.last() != '/' ==> without_slashes(s) == s,
        without_slashes(s + seq!['/']) == without_slashes(s),
{
    let t = s + seq!['/'];
    assert(t.last() == '/');
    assert(t.drop_last() =~= s);
}

/// In a url `%` and `/` are escaped, and every other character of a name stands for
/// itself.
pub proof fn law_escapes(a: Seq<char>, b: Seq<char>, c: char)
    ensures
        encoded(Seq::empty()) == Seq::<char>::empty(),
        encoded(seq!['%']) == "%25"@,
        encoded(seq!['/']) == "%2F"@,
        c != '%' && c != '/' ==> encoded(seq![c]) == seq![c],
        encoded(a + b) == encoded(a) + encoded(b),
    decreases b.len(),
{
    reveal_strlit("%25");
    reveal_strlit("%2F");
    lemma_encoded_one('%');
    lemma_encoded_one('/');
    lemma_encoded_one(c);
    assert(encoded(seq!['%']) =~= "%25"@);
    assert(encoded(seq!['/']) =~= "%2F"@);
    if b.len() > 0 {
        law_escapes(a, b.drop_last(), c);
        assert((a + b).drop_last() =~= a + b.drop_last());
        assert(encoded(a + b) =~= encoded(a) + encoded(b));
    } else {
        assert(a + b =~= a);
        assert(encoded(a + b) =~= encoded(a) + encoded(b));
    }
}

proof fn lemma_encoded_one(c: char)
    ensures
        encoded(seq![c]) == encode_char(c),
{
    assert(seq![c].drop_last() =~= Seq::empty());
    assert(encoded(seq![c].drop_last()) =~= Seq::empty());
    assert(encoded(seq![c]) =~= encode_char(c));
}

/// A secret is found behind the address of the vault, under its name.
pub proof fn law_where_secrets_are(addr: Seq<char>, name: Seq<char>)
    ensures
        secret_url(addr, name) == addr + "/v1/secrets/"@ + encoded(name),
{
}

} // verus!
