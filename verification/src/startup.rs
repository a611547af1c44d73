//! What a node starts with: numbers and switches from the environment, the
//! token of the management API, and the pepper.
use crate::text;
use crate::vault::Secret;
use argon2::password_hash::rand_core::{OsRng, RngCore};
use vstd::prelude::*;
use vstd::utf8::*;

verus! {

/// A number from the environment, or a default where there is none that fits.
pub open spec fn setting(value: Option<Seq<char>>, max: nat, default: nat) -> nat {
    match value {
        Some(s) => match text::parse_bounded(s, max) {
            Some(n) => n,
            None => default,
        },
        None => default,
    }
}

/// A number from the environment, or a default where there is none that fits.
pub fn number_or(value: Option<&str>, max: u64, default: u64) -> (r: u64)
    ensures
        r == setting(text::given(value), max as nat, default as nat),
{
    match value {
        Some(s) => match text::parse_number(s, max) {
            Some(n) => n,
            None => default,
        },
        None => default,
    }
}

/// A cost of hashing from the environment, or its default.
pub fn env_u32(value: Option<&str>, default: u32) -> (r: u32)
    ensures
        r == setting(text::given(value), u32::MAX as nat, default as nat),
{
    match value {
        Some(s) => match text::parse_number(s, u32::MAX as u64) {
            Some(n) => n as u32,
            None => default,
        },
        None => default,
    }
}

/// A number from the environment that is not zero, or a default where there is
/// none that fits.
pub fn positive_or(value: Option<&str>, max: u64, default: u64) -> (r: u64)
    ensures
        r == (if setting(text::given(value), max as nat, 0) > 0 {
            setting(text::given(value), max as nat, 0)
        } else {
            default as nat
        }),
{
    let n = number_or(value, max, 0);
    if n > 0 {
        n
    } else {
        default
    }
}

/// The costs at which passwords are hashed.
#[derive(Clone, Copy, Debug, PartialEq, Eq, Structural)]
pub struct HashCosts {
    /// The memory in KiB.
    pub m_cost: u32,
    /// The number of passes.
    pub t_cost: u32,
    /// The number of lanes.
    pub p_cost: u32,
}

/// The costs at which passwords are hashed, each from the environment or by
/// default: 9 MiB, two passes and one lane.
pub fn hash_costs(m_cost: Option<&str>, t_cost: Option<&str>, p_cost: Option<&str>) -> (r:
    HashCosts)
    ensures
        r.m_cost == setting(text::given(m_cost), u32::MAX as nat, 9216),
        r.t_cost == setting(text::given(t_cost), u32::MAX as nat, 2),
        r.p_cost == setting(text::given(p_cost), u32::MAX as nat, 1),
{
    HashCosts {
        m_cost: env_u32(m_cost, 9216),
        t_cost: env_u32(t_cost, 2),
        p_cost: env_u32(p_cost, 1),
    }
}

/// How many passwords may be hashed at a time: what the environment says, unless
/// that is zero, or else as many as the machine runs threads, or four where that
/// is unknown.
pub fn hash_concurrency(value: Option<&str>, threads: Option<usize>) -> (r: usize)
    ensures
        r == (if setting(text::given(value), usize::MAX as nat, 0) > 0 {
            setting(text::given(value), usize::MAX as nat, 0)
        } else {
            match threads {
                Some(n) => n as nat,
                None => 4,
            }
        }),
{
    let default: usize = match threads {
        Some(n) => n,
        None => 4,
    };
    positive_or(value, usize::MAX as u64, default as u64) as usize
}

/// How long the caches remember, in nanoseconds: so many seconds as the
/// environment says, or 300.
pub fn cache_lifetime(secs: Option<&str>) -> (r: u128)
    ensures
        r == setting(text::given(secs), u64::MAX as nat, 300) * 1_000_000_000,
{
    number_or(secs, u64::MAX, 300) as u128 * 1_000_000_000
}

/// The seconds between two sweeps of the caches.
pub const SWEEP_SECS: u64 = 60;

/// The number of messages that the queue may hold; none is set by default, which
/// zero stands for.
pub fn max_msgs(value: Option<&str>) -> (r: usize)
    ensures
        r == setting(text::given(value), usize::MAX as nat, 0),
{
    number_or(value, usize::MAX as u64, 0) as usize
}

/// The memory that the queue may use, in bytes: 256 MiB by default; zero is no
/// limit.
pub fn max_bytes(value: Option<&str>) -> (r: usize)
    ensures
        r == setting(text::given(value), usize::MAX as nat, 256 * 1024 * 1024),
{
    number_or(value, usize::MAX as u64, 268_435_456) as usize
}

/// The seconds between two flushes of the queue to the disk: 5 by default; none
/// is made if it is zero.
pub fn flush_interval(value: Option<&str>) -> (r: Option<u64>)
    ensures
        match r {
            Some(secs) => secs > 0 && secs == setting(text::given(value), u64::MAX as nat, 5),
            None => setting(text::given(value), u64::MAX as nat, 5) == 0,
        },
{
    let secs = number_or(value, u64::MAX, 5);
    if secs > 0 {
        Some(secs)
    } else {
        None
    }
}

/// The number of threads that keep the cluster together: what the environment
/// says, unless that is zero, or else six.
pub fn raft_workers(value: Option<&str>) -> (r: usize)
    ensures
        r == (if setting(text::given(value), usize::MAX as nat, 0) > 0 {
            setting(text::given(value), usize::MAX as nat, 0)
        } else {
            6
        }),
{
    positive_or(value, usize::MAX as u64, 6) as usize
}

/// A character with an upper case ASCII letter made lower case.
pub open spec fn lowered(c: char) -> char {
    if 'A' <= c <= 'Z' {
        (c as u32 + 32) as char
    } else {
        c
    }
}

/// A text with upper case ASCII letters made lower case.
pub open spec fn lowercase(s: Seq<char>) -> Seq<char> {
    s.map_values(|c: char| lowered(c))
}

/// Whether a switch in the environment is on: it is `1`, or `true` in any case.
pub fn flag(value: Option<&str>) -> (r: bool)
    ensures
        r == (text::given(value) matches Some(s) && (s == "1"@ || lowercase(s) == "true"@)),
{
    match value {
        Some(s) => text::str_eq(s, "1") || is_true(s),
        None => false,
    }
}

fn is_true(s: &str) -> (r: bool)
    ensures
        r == (lowercase(s@) == "true"@),
{
    let c = text::chars_of(s);
    proof {
        reveal_strlit("true");
    }
    if c.len() != 4 {
        assert(lowercase(s@).len() != "true"@.len());
        return false;
    }
    let r = (c[0] == 't' || c[0] == 'T') && (c[1] == 'r' || c[1] == 'R') && (c[2] == 'u' || c[2]
        == 'U') && (c[3] == 'e' || c[3] == 'E');
    proof {
        let l = lowercase(s@);
        assert(l[0] == lowered(c@[0]) && l[1] == lowered(c@[1]) && l[2] == lowered(c@[2]) && l[3]
            == lowered(c@[3]));
        if r {
            assert(l =~= "true"@);
        } else {
            assert("true"@[0] == 't' && "true"@[1] == 'r' && "true"@[2] == 'u' && "true"@[3]
                == 'e');
        }
    }
    r
}

/// The number of messages in flight that a client may have: what is configured,
/// or as many as there can be where that is zero.
pub fn max_inflight(configured: u16) -> (r: u16)
    ensures
        r == (if configured == 0 {
            u16::MAX
        } else {
            configured
        }),
{
    if configured == 0 {
        u16::MAX
    } else {
        configured
    }
}

/// `rand_core::OsRng::fill_bytes` on 24 bytes: bytes from the random number
/// generator of the system. Nothing is said of them, for they are random.
#[verifier::external_body]
fn random_bytes() -> (r: [u8; 24]) {
    let mut buf = [0u8; 24];
    OsRng.fill_bytes(&mut buf);
    buf
}

/// The token that random bytes make: their hexadecimal notation.
pub fn token_of(bytes: &[u8; 24]) -> (r: String)
    ensures
        r@ == text::hex(bytes@),
        r@.len() == 48,
{
    proof {
        lemma_hex_len(bytes@);
    }
    text::hex_of(bytes.as_slice())
}

proof fn lemma_hex_len(b: Seq<u8>)
    ensures
        text::hex(b).len() == 2 * b.len(),
    decreases b.len(),
{
    if b.len() > 0 {
        lemma_hex_len(b.drop_last());
    }
}

/// A token for one run: 24 random bytes in hexadecimal notation.
pub fn random_token() -> (r: String)
    ensures
        exists|bytes: Seq<u8>| bytes.len() == 24 && r@ == #[trigger] text::hex(bytes),
        r@.len() == 48,
{
    let bytes = random_bytes();
    let r = token_of(&bytes);
    assert(bytes@.len() == 24 && r@ == text::hex(bytes@));
    r
}

/// The token that a node starts with: the one of the vault, where it has one, or
/// else the one it was configured with or has made up.
pub fn initial_token(configured: String, from_vault: Option<Secret>) -> (r: String)
    ensures
        r == (match from_vault {
            Some(Secret::Value(v)) => v,
            _ => configured,
        }),
{
    match from_vault {
        Some(Secret::Value(v)) => v,
        _ => configured,
    }
}

/// The bytes of a text.
pub fn bytes_of(s: &str) -> (r: Vec<u8>)
    ensures
        r@ == encode_utf8(s@),
{
    let mut r: Vec<u8> = Vec::new();
    r.extend_from_slice(s.as_bytes());
    assert(r@ =~= encode_utf8(s@));
    r
}

/// The pepper that a node starts with: the one of the vault, where it has one, or
/// else the one of the environment, where it is not empty.
pub fn initial_pepper(from_env: Option<String>, from_vault: Option<Secret>) -> (r: Option<Vec<u8>>)
    ensures
        match from_vault {
            Some(Secret::Value(v)) => r matches Some(p) && p@ == encode_utf8(v@),
            _ => match from_env {
                Some(e) => if e@.len() > 0 {
                    r matches Some(p) && p@ == encode_utf8(e@)
                } else {
                    r is None
                },
                None => r is None,
            },
        },
{
    match from_vault {
        Some(Secret::Value(v)) => Some(bytes_of(v.as_str())),
        _ => match from_env {
            Some(e) => if text::chars_of(e.as_str()).len() > 0 {
                Some(bytes_of(e.as_str()))
            } else {
                None
            },
            None => None,
        },
    }
}

/// A number that the environment sets is taken if it is one that fits, and the default
/// if not; the digits of every number that fits are read as that number.
pub proof fn law_settings(s: Seq<char>, n: nat, max: nat, default: nat)
    ensures
        setting(None, max, default) == default,
        text::parse_bounded(s, max) is None ==> setting(Some(s), max, default) == default,
        text::parse_bounded(s, max) matches Some(read) ==> setting(Some(s), max, default) == read,
        n <= max ==> setting(Some(text::decimal(n)), max, default) == n,
        SWEEP_SECS == 60,
{
    text::lemma_decimal(n);
}

/// Upper case ASCII letters are made lower case, and nothing else changes.
pub proof fn law_lower_case(s: Seq<char>, i: int)
    requires
        0 <= i < s.len(),
    ensures
        lowercase(s).len() == s.len(),
        !('A' <= s[i] <= 'Z') ==> lowercase(s)[i] == s[i],
        'A' <= s[i] <= 'Z' ==> 'a' <= lowercase(s)[i] <= 'z' && lowercase(s)[i] as u32 == s[i] as u32
            + 32,
{
}

} // verus!
