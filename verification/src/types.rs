//! Plain data carried across the core's boundary, and small shared
//! helpers for the surrounding service.

use vstd::prelude::*;
use crate::text::vec_chars;

verus! {

/// A user as the surrounding service sees it.
#[derive(Clone, Debug)]
pub struct User {
    pub id: String,
    pub name: String,
}

/// The claims of an authentication token (verified outside the core).
#[derive(Clone, Debug)]
pub struct Claims {
    pub sub: String,
    pub iat: usize,
    pub exp: usize,
    pub iss: Option<String>,
    pub aud: Option<String>,
}

/// The consistent error shape API handlers answer with.
#[derive(Clone, Debug)]
pub struct ApiError {
    pub message: String,
}

/// Client keys of a push subscription.
#[derive(Clone, Debug)]
pub struct PushKeys {
    pub p256dh: String,
    pub auth: String,
}

/// One push subscription.
#[derive(Clone, Debug)]
pub struct PushSubscription {
    pub endpoint: String,
    pub expiration_time: Option<i64>,
    pub keys: PushKeys,
}

/// One push notification.
#[derive(Clone, Debug)]
pub struct PushMessage {
    pub title: Option<String>,
    pub body: Option<String>,
    pub url: Option<String>,
    pub icon: Option<String>,
    pub badge: Option<String>,
}

/// Two characters are equal up to ASCII case.
pub open spec fn char_eq_nocase(a: char, b: char) -> bool {
    ||| a == b
    ||| (a as u32 == b as u32 + 32 && 65 <= b as u32 <= 90)
    ||| (b as u32 == a as u32 + 32 && 65 <= a as u32 <= 90)
}

/// Two texts are equal up to ASCII case, character for character.
pub open spec fn eq_ignore_ascii_case_spec(a: Seq<char>, b: Seq<char>) -> bool {
    a.len() == b.len() && forall|i: int| 0 <= i < a.len() ==> char_eq_nocase(a[i], b[i])
}

fn chars_eq_nocase(a: char, b: char) -> (r: bool)
    ensures
        r == char_eq_nocase(a, b),
{
    let au: u32 = a as u32;
    let bu: u32 = b as u32;
    a == b || (au == bu + 32 && 65 <= bu && bu <= 90) || (bu == au + 32 && 65 <= au && au <= 90)
}

/// Whether `email` is the default administrator address, compared
/// without regard to ASCII case.
pub fn is_admin_email(email: &str) -> (r: bool)
    ensures
        r == eq_ignore_ascii_case_spec(email@, "admin@example.com"@),
{
    let e = vec_chars(email);
    let a = vec_chars("admin@example.com");
    let n: usize = e.len();
    if n != a.len() {
        return false;
    }
    let mut i: usize = 0;
    while i < n
        invariant
            i <= n,
            n == e@.len(),
            n == a@.len(),
            e@ == email@,
            a@ == "admin@example.com"@,
            forall|j: int| 0 <= j < i ==> char_eq_nocase(e@[j], a@[j]),
        decreases n - i,
    {
        if !chars_eq_nocase(e[i], a[i]) {
            return false;
        }
        i = i + 1;
    }
    true
}

} // verus!
