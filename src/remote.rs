//! Rules of the key-value store client: request addresses, the TTL floor, and
//! what a reply means.
use vstd::prelude::*;
use vstd::string::StringExecFns;
use vstd::utf8::{decode_utf8, valid_utf8};

use crate::error::Error;

verus! {

/// Workers KV Parameters
pub struct KV {
    account_id: String,
    namespace_id: String,
    auth_token: String,
}

impl KV {
    pub closed spec fn account(&self) -> String {
        self.account_id
    }

    pub closed spec fn namespace(&self) -> String {
        self.namespace_id
    }

    pub closed spec fn token(&self) -> String {
        self.auth_token
    }
}

/// Initialize KV parameters
pub fn init_kv(account: &str, namespace: &str, token: &str) -> (r: KV)
    ensures
        r.account()@ == account@,
        r.namespace()@ == namespace@,
        r.token()@ == token@,
{
    KV { account_id: account.to_owned(), namespace_id: namespace.to_owned(), auth_token: token.to_owned() }
}

/// Lowest expiration TTL, in seconds, that the store accepts on a write.
pub const MIN_TTL: u64 = 60;

/// Digit character of `d < 10`.
pub open spec fn digit(d: nat) -> char {
    seq!['0', '1', '2', '3', '4', '5', '6', '7', '8', '9'][d as int]
}

/// Decimal digits of `n`, most significant first, with no leading zero.
pub open spec fn decimal(n: nat) -> Seq<char>
    decreases n,
{
    if n < 10 {
        seq![digit(n)]
    } else {
        decimal(n / 10).push(digit(n % 10))
    }
}

/// Relies on `u64`'s `to_string`, through `Display`: the decimal digits of the
/// value.
#[verifier::external_body]
fn decimal_string(n: u64) -> (r: String)
    ensures
        r@ == decimal(n as nat),
{
    n.to_string()
}

/// The text that `String::from_utf8_lossy` makes of some bytes.
pub uninterp spec fn lossy_text(b: Seq<u8>) -> Seq<char>;

/// Relies on `String::from_utf8_lossy`: valid UTF-8 is read as it is; other
/// bytes give replacement characters.
#[verifier::external_body]
fn lossy_string(b: &[u8]) -> (r: String)
    ensures
        r@ == lossy_text(b@),
        valid_utf8(b@) ==> r@ == decode_utf8(b@),
{
    String::from_utf8_lossy(b).into_owned()
}

/// Address of the value under `key` in the namespace of `account`.
pub open spec fn value_url(account: Seq<char>, namespace: Seq<char>, key: Seq<char>) -> Seq<char> {
    "https://api.cloudflare.com/client/v4/accounts/"@ + account + "/storage/kv/namespaces/"@
        + namespace + "/values/"@ + key
}

/// Address of a write of `key`, with the TTL as a query where one is given.
pub open spec fn put_url_spec(account: Seq<char>, namespace: Seq<char>, key: Seq<char>, ttl: Option<u64>) -> Seq<char> {
    match ttl {
        Some(t) => value_url(account, namespace, key) + "?expiration_ttl="@ + decimal(t as nat),
        None => value_url(account, namespace, key),
    }
}

/// A status in 200..=299.
pub open spec fn is_success(status: u16) -> bool {
    200 <= status <= 299
}

/// What a write's reply means: any status but success fails with
/// `KVHttpStatus`, carrying the body as text.
pub open spec fn write_reply_spec(status: u16, body: Seq<u8>, r: Result<(), Error>) -> bool {
    if is_success(status) {
        r is Ok
    } else {
        r matches Err(Error::KVHttpStatus(s, text)) && s == status && text@ == lossy_text(body)
    }
}

impl KV {
    /// Address of the value under `key`.
    pub fn value_url(&self, key: &str) -> (r: String)
        ensures
            r@ == value_url(self.account()@, self.namespace()@, key@),
    {
        let mut url = "https://api.cloudflare.com/client/v4/accounts/".to_owned();
        url.append(self.account_id.as_str());
        url.append("/storage/kv/namespaces/");
        url.append(self.namespace_id.as_str());
        url.append("/values/");
        url.append(key);
        url
    }

    /// Value of the authorization header of every request.
    pub fn auth_header(&self) -> (r: String)
        ensures
            r@ == "Bearer "@ + self.token()@,
    {
        let mut h = "Bearer ".to_owned();
        h.append(self.auth_token.as_str());
        h
    }

    /// Address of a write of `key`. A TTL under 60 seconds is refused with
    /// `TTLTooShort` before any request is made.
    pub fn put_url(&self, key: &str, expiration_ttl: Option<u64>) -> (r: Result<String, Error>)
        ensures
            (expiration_ttl matches Some(t) && t < MIN_TTL) <==> r is Err,
            r matches Err(e) ==> e is TTLTooShort,
            r matches Ok(u) ==> u@ == put_url_spec(self.account()@, self.namespace()@, key@, expiration_ttl),
    {
        let mut url = self.value_url(key);
        match expiration_ttl {
            Some(ttl) => {
                if ttl < MIN_TTL {
                    return Err(Error::TTLTooShort);
                }
                url.append("?expiration_ttl=");
                let digits = decimal_string(ttl);
                url.append(digits.as_str());
                Ok(url)
            },
            None => Ok(url),
        }
    }
}

/// What a read's reply means: the body on success; any other status means
/// the store has no value under `key`, and fails with `KVKeyNotFound`.
pub fn get_reply(key: &str, status: u16, body: Vec<u8>) -> (r: Result<Vec<u8>, Error>)
    ensures
        is_success(status) <==> r is Ok,
        r matches Ok(b) ==> b@ == body@,
        r matches Err(e) ==> (e matches Error::KVKeyNotFound(k, s) && k@ == key@ && s == status),
{
    if 200 <= status && status <= 299 {
        Ok(body)
    } else {
        Err(Error::KVKeyNotFound(key.to_owned(), status))
    }
}

/// What the reply to a write or a delete means.
pub fn write_reply(status: u16, body: &[u8]) -> (r: Result<(), Error>)
    ensures
        write_reply_spec(status, body@, r),
{
    if 200 <= status && status <= 299 {
        Ok(())
    } else {
        Err(Error::KVHttpStatus(status, lossy_string(body)))
    }
}

/// What the store's verdict on a write means: `success` or a `Message` that
/// names the key and carries the store's errors and messages.
pub fn put_verdict(key: &str, success: bool, errors: &str, messages: &str) -> (r: Result<(), Error>)
    ensures
        success <==> r is Ok,
        r matches Err(e) ==> (e matches Error::Message(m) && m@ == "writing key "@ + key@ + ": errors:"@
            + errors@ + " messages:"@ + messages@),
{
    if success {
        Ok(())
    } else {
        let mut m = "writing key ".to_owned();
        m.append(key);
        m.append(": errors:");
        m.append(errors);
        m.append(" messages:");
        m.append(messages);
        Err(Error::Message(m))
    }
}

} // verus!
