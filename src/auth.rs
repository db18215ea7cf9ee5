//! Tenant identification: a request names its tenant by an API key, which
//! must be one of the configured keys.
use vstd::prelude::*;
use crate::text::{trim, trim_of};

verus! {

/// The key a request was accepted under; it is the tenant's identity.
#[derive(Debug)]
pub struct ApiKey(pub String);

/// Why a request was not accepted.
#[derive(Clone, Copy, Debug, PartialEq, Eq, Structural)]
pub enum AuthError {
    /// The request carries no key.
    Missing,
    /// The key is unreadable or not configured.
    Invalid,
}

/// The key header of a request, as far as the transport could read it.
#[derive(Debug)]
pub enum KeyHeader {
    Absent,
    /// Present, but not visible text.
    Unreadable,
    Text(String),
}

/// The key accepted when none are configured.
pub const DEV_KEY: &'static str = "dev-key";

/// Separator of configured keys.
pub const KEY_SEPARATOR: char = ',';

pub open spec fn has_key(keys: Seq<String>, key: Seq<char>) -> bool {
    exists|i: int| 0 <= i < keys.len() && #[trigger] keys[i]@ == key
}

/// Accepts a request whose key header holds one of `keys`.
pub fn authenticate(header: KeyHeader, keys: &Vec<String>) -> (r: Result<ApiKey, AuthError>)
    ensures
        match header {
            KeyHeader::Absent => r == Err::<ApiKey, AuthError>(AuthError::Missing),
            KeyHeader::Unreadable => r == Err::<ApiKey, AuthError>(AuthError::Invalid),
            KeyHeader::Text(key) => if has_key(keys@, key@) {
                r matches Ok(k) && k.0@ == key@
            } else {
                r == Err::<ApiKey, AuthError>(AuthError::Invalid)
            },
        },
{
    match header {
        KeyHeader::Absent => Err(AuthError::Missing),
        KeyHeader::Unreadable => Err(AuthError::Invalid),
        KeyHeader::Text(key) => if contains_key(keys, &key) {
            Ok(ApiKey(key))
        } else {
            Err(AuthError::Invalid)
        },
    }
}

fn contains_key(keys: &Vec<String>, key: &String) -> (r: bool)
    ensures
        r == has_key(keys@, key@),
{
    let mut i: usize = 0;
    while i < keys.len()
        invariant
            i <= keys@.len(),
            forall|j: int| 0 <= j < i ==> #[trigger] keys@[j]@ != key@,
        decreases keys@.len() - i,
    {
        if keys[i] == *key {
            assert(keys@[i as int]@ == key@);
            return true;
        }
        i = i + 1;
    }
    false
}

/// The pieces of `s` between separators, empty ones included: `"a,,b"` has
/// three pieces and the empty string has one.
pub open spec fn comma_pieces(s: Seq<char>) -> Seq<Seq<char>>
    decreases s.len(),
{
    if s.len() == 0 {
        seq![Seq::<char>::empty()]
    } else {
        let p = comma_pieces(s.drop_last());
        if s.last() == KEY_SEPARATOR {
            p.push(Seq::empty())
        } else {
            p.update(p.len() - 1, p.last().push(s.last()))
        }
    }
}

/// Relies on `str::split` with a `char` pattern: the pieces between
/// separators, in order, empty ones included.
#[verifier::external_body]
fn split_keys(s: &str) -> (r: Vec<String>)
    ensures
        r@.map_values(|p: String| p@) == comma_pieces(s@),
{
    s.split(KEY_SEPARATOR).map(|p| p.to_string()).collect()
}

/// The keys a configuration value names, trimmed.
pub open spec fn is_configured_key(configured: Seq<char>, key: Seq<char>) -> bool {
    key.len() > 0 && exists|i: int| 0 <= i < comma_pieces(configured).len()
        && trim_of(#[trigger] comma_pieces(configured)[i]) == key
}

/// The accepted keys: each non-empty trimmed piece of the configured list,
/// once, or the development key when nothing is configured.
pub fn default_api_keys(configured: Option<String>) -> (r: Vec<String>)
    ensures
        configured is None ==> r@.len() == 1 && r@[0]@ == DEV_KEY@,
        configured matches Some(c) ==> {
            &&& forall|i: int, j: int| 0 <= i < j < r@.len() ==> (#[trigger] r@[i])@ != (#[trigger] r@[j])@
            &&& forall|key: Seq<char>| has_key(r@, key) <==> is_configured_key(c@, key)
        },
{
    let c = match configured {
        None => {
            let mut keys: Vec<String> = Vec::new();
            keys.push(DEV_KEY.to_owned());
            return keys;
        },
        Some(c) => c,
    };
    let pieces = split_keys(c.as_str());
    let ghost ps = comma_pieces(c@);
    assert(pieces@.len() == ps.len());
    let mut keys: Vec<String> = Vec::new();
    let mut i: usize = 0;
    while i < pieces.len()
        invariant
            i <= pieces@.len(),
            ps == comma_pieces(c@),
            pieces@.map_values(|p: String| p@) == ps,
            pieces@.len() == ps.len(),
            forall|a: int, b: int| 0 <= a < b < keys@.len() ==> (#[trigger] keys@[a])@ != (#[trigger] keys@[b])@,
            forall|key: Seq<char>| has_key(keys@, key) <==>
                (key.len() > 0 && exists|j: int| 0 <= j < i && trim_of(#[trigger] ps[j]) == key),
        decreases pieces@.len() - i,
    {
        assert(pieces@[i as int]@ == ps[i as int]);
        let key = trim(pieces[i].as_str());
        let mut seen = false;
        let mut k: usize = 0;
        while k < keys.len()
            invariant
                k <= keys@.len(),
                seen == exists|q: int| 0 <= q < k && #[trigger] keys@[q]@ == key@,
            decreases keys@.len() - k,
        {
            if keys[k] == key {
                seen = true;
            }
            k = k + 1;
        }
        let ghost before = keys@;
        let ghost trimmed = key@;
        assert(trimmed == trim_of(ps[i as int]));
        let pushed = key.as_str().unicode_len() > 0 && !seen;
        if pushed {
            keys.push(key);
        }
        proof {
            assert forall|q: int| 0 <= q < before.len() implies #[trigger] keys@[q] == before[q] by {}
            assert forall|k2: Seq<char>| has_key(keys@, k2) <==>
                (k2.len() > 0 && exists|j: int| 0 <= j < i + 1 && trim_of(#[trigger] ps[j]) == k2) by {
                if has_key(keys@, k2) {
                    let q = choose|q: int| 0 <= q < keys@.len() && #[trigger] keys@[q]@ == k2;
                    if q < before.len() {
                        assert(before[q]@ == k2);
                        assert(has_key(before, k2));
                    } else {
                        assert(k2 == trimmed);
                        assert(trim_of(ps[i as int]) == k2);
                    }
                }
                if k2.len() > 0 && exists|j: int| 0 <= j < i + 1 && trim_of(#[trigger] ps[j]) == k2 {
                    let j = choose|j: int| 0 <= j < i + 1 && trim_of(#[trigger] ps[j]) == k2;
                    if j < i {
                        assert(has_key(before, k2));
                        let q = choose|q: int| 0 <= q < before.len() && #[trigger] before[q]@ == k2;
                        assert(keys@[q]@ == k2);
                    } else if pushed {
                        assert(keys@[before.len() as int]@ == k2);
                    } else {
                        let q = choose|q: int| 0 <= q < before.len() && #[trigger] before[q]@ == trimmed;
                        assert(keys@[q]@ == k2);
                    }
                }
            }
        }
        i = i + 1;
    }
    keys
}

} // verus!
