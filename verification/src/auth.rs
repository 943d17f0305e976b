//! User tokens: a token carries `id;email;mac`, base64-encoded, where the
//! mac is a keyed digest of `id;email` under the server's secret. The
//! decimal formatting and parsing of ids and the splitting and checking of
//! tokens are verified; the base64 coding, the keyed digest and the
//! password hashing are relied on through their contracts.

use vstd::prelude::*;
use vstd::string::StringSliceAdditionalSpecFns;

verus! {

pub type UserId = i32;

pub type UserToken = String;

/// An authentication failure, as the surrounding service reports it.
#[derive(Debug)]
pub enum AuthError {
    EmailExists,
    ImproperCredentials,
    WrongCredentials,
    Forbidden,
    Internal,
}

impl AuthError {
    /// The HTTP status code this failure maps to.
    pub fn status(&self) -> (code: u16)
        ensures
            code == match *self {
                AuthError::WrongCredentials => 403u16,
                AuthError::Forbidden => 403u16,
                AuthError::EmailExists => 400u16,
                AuthError::ImproperCredentials => 400u16,
                AuthError::Internal => 500u16,
            },
    {
        match self {
            AuthError::WrongCredentials => 403,
            AuthError::Forbidden => 403,
            AuthError::EmailExists => 400,
            AuthError::ImproperCredentials => 400,
            AuthError::Internal => 500,
        }
    }
}

/// What the DB knows of a user when checking a login.
pub struct UserAuth {
    pub id: UserId,
    pub password: String,
}

/// The base64 encoding (standard alphabet, padded) of a byte sequence.
pub uninterp spec fn b64_of(bytes: Seq<u8>) -> Seq<char>;

/// What base64 decoding yields for a string: the bytes, or nothing where
/// the string is not base64 (decoding is lenient about padding, so this
/// is not simply the inverse of [`b64_of`]).
pub uninterp spec fn b64_decode_of(token: Seq<char>) -> Option<Seq<u8>>;

/// The keyed digest of a message, as 64 lowercase hex digit bytes.
pub uninterp spec fn keyed_digest_of(key: Seq<u8>, msg: Seq<u8>) -> Seq<u8>;

/// Whether a password matches a stored bcrypt hash.
pub uninterp spec fn bcrypt_matches(password: Seq<u8>, hash: Seq<char>) -> bool;

/// Relies on base64::encode: the standard, padded encoding of the bytes,
/// a function of the bytes alone — and base64::decode gives the bytes
/// back from it.
#[verifier::external_body]
fn b64_encode(bytes: &Vec<u8>) -> (r: String)
    ensures
        r@ == b64_of(bytes@),
        b64_decode_of(r@) == Some(bytes@),
{
    base64::encode(bytes.as_slice())
}

/// Relies on base64::decode: what a string decodes to is a function of
/// the string alone.
#[verifier::external_body]
fn b64_decode(token: &str) -> (r: Option<Vec<u8>>)
    ensures
        match r {
            Some(bytes) => b64_decode_of(token@) == Some(bytes@),
            None => b64_decode_of(token@) is None,
        },
{
    base64::decode(token).ok()
}

/// A lowercase hex digit byte.
pub open spec fn is_hex_digit(b: u8) -> bool {
    (48 <= b <= 57) || (97 <= b <= 102)
}

/// Relies on blake3::keyed_hash: the digest depends on key and message
/// alone; its hex form is 64 lowercase hex digit bytes.
#[verifier::external_body]
fn keyed_hash_hex(key: &Vec<u8>, msg: &Vec<u8>) -> (r: Vec<u8>)
    requires
        key@.len() == 32,
    ensures
        r@ == keyed_digest_of(key@, msg@),
        r@.len() == 64,
        forall|i: int| 0 <= i < r@.len() ==> is_hex_digit(#[trigger] r@[i]),
{
    let k: [u8; 32] = key.as_slice().try_into().unwrap();
    blake3::keyed_hash(&k, msg.as_slice()).to_hex().as_str().as_bytes().to_vec()
}

/// Relies on bcrypt::verify: whether a password matches a hash is a
/// function of the two alone; an unparsable hash yields `None`.
#[verifier::external_body]
fn bcrypt_verify(password: &str, hash: &str) -> (r: Option<bool>)
    ensures
        r matches Some(b) ==> b == bcrypt_matches(password.spec_bytes(), hash@),
{
    bcrypt::verify(password, hash).ok()
}

/// Relies on bcrypt::hash: its output verifies against the hashed
/// password. The salt is drawn fresh, so nothing more is stated.
#[verifier::external_body]
fn bcrypt_hash(password: &str, cost: u32) -> (r: Option<String>)
    requires
        4 <= cost <= 31,
    ensures
        r matches Some(h) ==> bcrypt_matches(password.spec_bytes(), h@),
{
    bcrypt::hash(password, cost).ok()
}

/// The work factor used when a new password is stored.
pub const HASH_COST: u32 = 5;

/// Hash a password for storage. The result, if any, verifies against the
/// password.
pub fn hash_password(password: &str) -> (r: Option<String>)
    ensures
        r matches Some(h) ==> bcrypt_matches(password.spec_bytes(), h@),
{
    bcrypt_hash(password, HASH_COST)
}

/// One byte of the base secret, as the key derivation reads it.
pub fn generate_hash_secret(base: &Vec<u8>, i: usize) -> (b: u8)
    requires
        i < base@.len(),
    ensures
        b == base@[i as int],
{
    base[i]
}

/// The signing key: the first 32 bytes of the base secret, which must be
/// at least that long.
pub fn hash_secret(base: &Vec<u8>) -> (key: Vec<u8>)
    requires
        base@.len() >= 32,
    ensures
        key@ =~= base@.subrange(0, 32),
{
    let mut key: Vec<u8> = Vec::new();
    let mut i: usize = 0;
    while i < 32
        invariant
            i <= 32,
            base@.len() >= 32,
            key@ =~= base@.subrange(0, i as int),
        decreases 32 - i,
    {
        key.push(generate_hash_secret(base, i));
        proof {
            assert(key@ =~= base@.subrange(0, i as int + 1));
        }
        i += 1;
    }
    key
}

// ---------- decimal formatting and parsing of ids ----------

/// The decimal digit bytes of a non-negative number, most significant
/// first, without leading zeros.
pub open spec fn dec_digits(n: nat) -> Seq<u8>
    decreases n,
{
    if n < 10 {
        seq![(48 + n) as u8]
    } else {
        dec_digits(n / 10) + seq![(48 + n % 10) as u8]
    }
}

/// The decimal byte form of an integer, with a leading minus sign when it
/// is negative.
pub open spec fn dec_bytes_of(n: int) -> Seq<u8> {
    if n < 0 {
        seq![45u8] + dec_digits((-n) as nat)
    } else {
        dec_digits(n as nat)
    }
}

fn format_u64(n: u64) -> (r: Vec<u8>)
    ensures
        r@ == dec_digits(n as nat),
    decreases n,
{
    let d: u8 = (n % 10) as u8 + 48;
    if n < 10 {
        let mut v: Vec<u8> = Vec::new();
        v.push(d);
        proof {
            assert(v@ =~= dec_digits(n as nat));
        }
        v
    } else {
        let mut v = format_u64(n / 10);
        v.push(d);
        proof {
            assert(v@ =~= dec_digits((n / 10) as nat) + seq![(48 + (n as nat) % 10) as u8]);
        }
        v
    }
}

/// The decimal byte form of an id, exactly as `dec_bytes_of` states it.
pub fn format_i32(n: i32) -> (r: Vec<u8>)
    ensures
        r@ == dec_bytes_of(n as int),
{
    if n < 0 {
        let mag: u64 = (-(n as i64)) as u64;
        let mut v: Vec<u8> = Vec::new();
        v.push(45);
        let mut rest = format_u64(mag);
        v.append(&mut rest);
        proof {
            assert(mag as nat == (-(n as int)) as nat);
            assert(v@ =~= seq![45u8] + dec_digits((-(n as int)) as nat));
        }
        v
    } else {
        format_u64(n as u64)
    }
}

/// A decimal digit byte.
pub open spec fn is_dec_digit(b: u8) -> bool {
    48 <= b <= 57
}

pub open spec fn all_digits(s: Seq<u8>) -> bool {
    forall|i: int| 0 <= i < s.len() ==> is_dec_digit(#[trigger] s[i])
}

/// The value of a digit string, most significant first.
pub open spec fn dec_value(s: Seq<u8>) -> int
    decreases s.len(),
{
    if s.len() == 0 {
        0
    } else {
        dec_value(s.drop_last()) * 10 + (s.last() - 48)
    }
}

/// What `str::parse::<i32>` accepts on these bytes: an optional sign, one
/// or more digits (leading zeros allowed), and a value within range.
pub open spec fn parse_i32_spec(s: Seq<u8>) -> Option<i32> {
    let has_sign = s.len() > 0 && (s[0] == 43 || s[0] == 45);
    let digits = if has_sign {
        s.drop_first()
    } else {
        s
    };
    if digits.len() == 0 || !all_digits(digits) {
        None
    } else {
        let v = if s.len() > 0 && s[0] == 45 {
            -dec_value(digits)
        } else {
            dec_value(digits)
        };
        if i32::MIN as int <= v <= i32::MAX as int {
            Some(v as i32)
        } else {
            None
        }
    }
}

proof fn lemma_dec_value_nonneg(s: Seq<u8>)
    requires
        all_digits(s),
    ensures
        dec_value(s) >= 0,
    decreases s.len(),
{
    if s.len() > 0 {
        assert(all_digits(s.drop_last()));
        lemma_dec_value_nonneg(s.drop_last());
        assert(is_dec_digit(s[s.len() - 1]));
    }
}

/// A digit string is worth at least any of its prefixes.
proof fn lemma_dec_value_prefix_le(s: Seq<u8>, k: int)
    requires
        all_digits(s),
        0 <= k <= s.len(),
    ensures
        dec_value(s.take(k)) <= dec_value(s),
    decreases s.len() - k,
{
    if k == s.len() {
        assert(s.take(k) =~= s);
    } else {
        lemma_dec_value_prefix_le(s, k + 1);
        assert(s.take(k + 1).drop_last() =~= s.take(k));
        assert(all_digits(s.take(k)));
        lemma_dec_value_nonneg(s.take(k));
        assert(is_dec_digit(s[k]));
        assert(dec_value(s.take(k + 1)) == dec_value(s.take(k)) * 10 + (s[k] - 48));
    }
}

/// Parse an id from decimal bytes, exactly as `parse_i32_spec` states it.
#[verifier::loop_isolation(false)]
pub fn parse_i32(s: &Vec<u8>) -> (r: Option<i32>)
    ensures
        r == parse_i32_spec(s@),
{
    if s.len() == 0 {
        return None;
    }
    let neg = s[0] == 45;
    let start: usize = if s[0] == 45 || s[0] == 43 {
        1
    } else {
        0
    };
    let ghost digits = s@.subrange(start as int, s@.len() as int);
    proof {
        if start == 1 {
            assert(digits =~= s@.drop_first());
        } else {
            assert(digits =~= s@);
        }
    }
    if s.len() == start {
        return None;
    }
    let bound: i64 = if neg {
        2147483648
    } else {
        2147483647
    };
    let mut acc: i64 = 0;
    let mut i: usize = start;
    while i < s.len()
        invariant
            start <= i <= s@.len(),
            s@.len() > start,
            digits == s@.subrange(start as int, s@.len() as int),
            bound == (if neg {
                2147483648int
            } else {
                2147483647int
            }),
            acc == dec_value(s@.subrange(start as int, i as int)),
            0 <= acc <= bound,
            forall|k: int| start <= k < i ==> is_dec_digit(#[trigger] s@[k]),
        decreases s@.len() - i,
    {
        let b = s[i];
        if b < 48 || b > 57 {
            proof {
                assert(digits[i - start] == s@[i as int]);
                assert(!all_digits(digits));
            }
            return None;
        }
        proof {
            assert(s@.subrange(start as int, i as int + 1).drop_last() =~= s@.subrange(
                start as int,
                i as int,
            ));
        }
        acc = acc * 10 + ((b - 48) as i64);
        if acc > bound {
            proof {
                let pre = s@.subrange(start as int, i as int + 1);
                if all_digits(digits) {
                    assert(pre =~= digits.take(i - start + 1));
                    lemma_dec_value_prefix_le(digits, i - start + 1);
                    lemma_dec_value_nonneg(digits);
                }
            }
            return None;
        }
        i += 1;
    }
    proof {
        assert(s@.subrange(start as int, i as int) =~= digits);
        assert(all_digits(digits));
        lemma_dec_value_nonneg(digits);
    }
    if neg {
        Some((-acc) as i32)
    } else {
        Some(acc as i32)
    }
}

// ---------- token layout ----------

/// The signed part of a token: `id;email`.
pub open spec fn token_info(id: int, email: Seq<u8>) -> Seq<u8> {
    dec_bytes_of(id) + seq![59u8] + email
}

/// The full token payload before encoding: `id;email;mac`.
pub open spec fn token_payload(key: Seq<u8>, id: int, email: Seq<u8>) -> Seq<u8> {
    token_info(id, email) + seq![59u8] + keyed_digest_of(key, token_info(id, email))
}

/// The first separator byte at or after `from`.
pub open spec fn find_sep_spec(s: Seq<u8>, from: int) -> Option<int>
    decreases s.len() - from when from <= s.len()
{
    if from >= s.len() {
        None
    } else if s[from] == 59 {
        Some(from)
    } else {
        find_sep_spec(s, from + 1)
    }
}

fn find_sep(s: &Vec<u8>, from: usize) -> (r: Option<usize>)
    requires
        from <= s@.len(),
    ensures
        r matches Some(p) ==> from <= p < s@.len() && find_sep_spec(s@, from as int) == Some(
            p as int,
        ),
        r is None ==> find_sep_spec(s@, from as int) is None,
{
    let mut i: usize = from;
    while i < s.len()
        invariant
            from <= i <= s@.len(),
            find_sep_spec(s@, from as int) == find_sep_spec(s@, i as int),
        decreases s@.len() - i,
    {
        if s[i] == 59 {
            return Some(i);
        }
        i += 1;
    }
    None
}

/// The three fields of a raw token: the bytes before the first separator,
/// between the first and the second, and from there to the third or the
/// end. Anything after a third separator is ignored.
pub open spec fn token_fields(s: Seq<u8>) -> Option<(Seq<u8>, Seq<u8>, Seq<u8>)> {
    match find_sep_spec(s, 0) {
        None => None,
        Some(p1) => match find_sep_spec(s, p1 + 1) {
            None => None,
            Some(p2) => {
                let end = match find_sep_spec(s, p2 + 1) {
                    None => s.len() as int,
                    Some(p3) => p3,
                };
                Some((s.subrange(0, p1), s.subrange(p1 + 1, p2), s.subrange(p2 + 1, end)))
            },
        },
    }
}

/// Which user id, if any, a raw token payload proves: its first field
/// parses as an id, and its third field equals the keyed digest of
/// `id;email` — with the id in canonical decimal form.
pub open spec fn token_accepts(key: Seq<u8>, payload: Seq<u8>) -> Option<i32> {
    match token_fields(payload) {
        None => None,
        Some(fields) => match parse_i32_spec(fields.0) {
            None => None,
            Some(id) => if fields.2 == keyed_digest_of(key, token_info(id as int, fields.1)) {
                Some(id)
            } else {
                None
            },
        },
    }
}

/// Copy `v[lo..hi]` out as a fresh vector.
fn copy_range(v: &Vec<u8>, lo: usize, hi: usize) -> (r: Vec<u8>)
    requires
        lo <= hi <= v@.len(),
    ensures
        r@ =~= v@.subrange(lo as int, hi as int),
{
    let mut r: Vec<u8> = Vec::new();
    let mut i: usize = lo;
    while i < hi
        invariant
            lo <= i <= hi <= v@.len(),
            r@ =~= v@.subrange(lo as int, i as int),
        decreases hi - i,
    {
        r.push(v[i]);
        proof {
            assert(r@ =~= v@.subrange(lo as int, i as int + 1));
        }
        i += 1;
    }
    r
}

/// Byte-for-byte equality of two vectors.
fn eq_bytes(a: &Vec<u8>, b: &Vec<u8>) -> (r: bool)
    ensures
        r == (a@ =~= b@),
{
    if a.len() != b.len() {
        return false;
    }
    let mut i: usize = 0;
    while i < a.len()
        invariant
            i <= a@.len(),
            a@.len() == b@.len(),
            forall|k: int| 0 <= k < i ==> a@[k] == b@[k],
        decreases a@.len() - i,
    {
        if a[i] != b[i] {
            return false;
        }
        i += 1;
    }
    true
}

/// The keyed digest over `id;email`, with the id in canonical decimal
/// bytes.
fn token_hash_bytes(key: &Vec<u8>, id: i32, email: &Vec<u8>) -> (r: Vec<u8>)
    requires
        key@.len() == 32,
    ensures
        r@ == keyed_digest_of(key@, token_info(id as int, email@)),
        r@.len() == 64,
{
    let mut msg = format_i32(id);
    msg.push(59);
    let mut em = copy_range(email, 0, email.len());
    msg.append(&mut em);
    proof {
        assert(email@.subrange(0, email@.len() as int) =~= email@);
        assert(msg@ =~= token_info(id as int, email@));
    }
    keyed_hash_hex(key, &msg)
}

/// The keyed digest over `id;email` for a user, as hex digit bytes.
pub fn generate_token_hash(key: &Vec<u8>, id: UserId, email: &str) -> (r: Vec<u8>)
    requires
        key@.len() == 32,
    ensures
        r@ == keyed_digest_of(key@, token_info(id as int, email.spec_bytes())),
        r@.len() == 64,
{
    let em = vstd::slice::slice_to_vec(email.as_bytes());
    token_hash_bytes(key, id, &em)
}

/// The login token issued to a user: `id;email;mac`, base64-encoded.
pub fn generate_user_token(key: &Vec<u8>, id: UserId, email: &str) -> (r: String)
    requires
        key@.len() == 32,
    ensures
        r@ == b64_of(token_payload(key@, id as int, email.spec_bytes())),
        b64_decode_of(r@) == Some(token_payload(key@, id as int, email.spec_bytes())),
{
    let em = vstd::slice::slice_to_vec(email.as_bytes());
    let mut payload = format_i32(id);
    payload.push(59);
    let mut em2 = copy_range(&em, 0, em.len());
    payload.append(&mut em2);
    proof {
        assert(em@.subrange(0, em@.len() as int) =~= em@);
        assert(payload@ =~= token_info(id as int, email.spec_bytes()));
    }
    let mut mac = token_hash_bytes(key, id, &em);
    payload.push(59);
    payload.append(&mut mac);
    proof {
        assert(payload@ =~= token_payload(key@, id as int, email.spec_bytes()));
    }
    b64_encode(&payload)
}

/// Which user id a raw token resolves to: what its bytes decode to,
/// checked by [`token_accepts`].
pub open spec fn verify_spec(key: Seq<u8>, token: Seq<char>) -> Option<i32> {
    match b64_decode_of(token) {
        None => None,
        Some(payload) => token_accepts(key, payload),
    }
}

/// Check a presented token: decode it, split it into `id;email;mac`, and
/// accept the id exactly when the mac is the keyed digest of `id;email`.
pub fn verify_token(key: &Vec<u8>, token: &str) -> (r: Option<UserId>)
    requires
        key@.len() == 32,
    ensures
        r == verify_spec(key@, token@),
{
    let bytes = match b64_decode(token) {
        None => {
            return None;
        },
        Some(b) => b,
    };
    let n = bytes.len();
    let p1 = match find_sep(&bytes, 0) {
        None => {
            return None;
        },
        Some(p) => p,
    };
    let p2 = match find_sep(&bytes, p1 + 1) {
        None => {
            return None;
        },
        Some(p) => p,
    };
    let end = match find_sep(&bytes, p2 + 1) {
        None => n,
        Some(p) => p,
    };
    let idb = copy_range(&bytes, 0, p1);
    let email = copy_range(&bytes, p1 + 1, p2);
    let mac = copy_range(&bytes, p2 + 1, end);
    let id = match parse_i32(&idb) {
        None => {
            return None;
        },
        Some(id) => id,
    };
    let expected = token_hash_bytes(key, id, &email);
    if eq_bytes(&mac, &expected) {
        proof {
            assert(token_accepts(key@, bytes@) == Some(id));
        }
        Some(id)
    } else {
        proof {
            assert(token_accepts(key@, bytes@) is None);
        }
        None
    }
}

/// Which user, if any, a request cookie belongs to.
pub fn authenticate(key: &Vec<u8>, token: &str) -> (r: Option<UserId>)
    requires
        key@.len() == 32,
    ensures
        r == verify_spec(key@, token@),
{
    verify_token(key, token)
}

/// What registration demands of fresh credentials, exactly as the service
/// checks them: an email of 3 to 59 bytes, and a password whose length is
/// not 5 to 11 bytes.
pub open spec fn creds_acceptable(email_len: int, password_len: int) -> bool {
    3 <= email_len < 60 && !(5 <= password_len < 12)
}

/// Whether fresh credentials are acceptable for registration.
pub fn validate_credentials(email: &str, password: &str) -> (ok: bool)
    ensures
        ok == creds_acceptable(
            email.spec_bytes().len() as usize as int,
            password.spec_bytes().len() as usize as int,
        ),
{
    let el = email.len();
    let pl = password.len();
    3 <= el && el < 60 && !(5 <= pl && pl < 12)
}

/// What registration decides before touching storage: improper
/// credentials are refused first, then an email that is already taken;
/// only then may the caller hash the password, insert the row and issue
/// the new user's token.
pub fn register_precheck(email: &str, password: &str, email_exists: bool) -> (r: Result<
    (),
    AuthError,
>)
    ensures
        !creds_acceptable(
            email.spec_bytes().len() as usize as int,
            password.spec_bytes().len() as usize as int,
        ) ==> (r matches Err(e) && e is ImproperCredentials),
        creds_acceptable(
            email.spec_bytes().len() as usize as int,
            password.spec_bytes().len() as usize as int,
        ) && email_exists ==> (r matches Err(e) && e is EmailExists),
        creds_acceptable(
            email.spec_bytes().len() as usize as int,
            password.spec_bytes().len() as usize as int,
        ) && !email_exists ==> r is Ok,
{
    if !validate_credentials(email, password) {
        Err(AuthError::ImproperCredentials)
    } else if email_exists {
        Err(AuthError::EmailExists)
    } else {
        Ok(())
    }
}

// ---------- the round-trip law of issued tokens ----------

proof fn lemma_dec_digits_are_digits(n: nat)
    ensures
        dec_digits(n).len() >= 1,
        all_digits(dec_digits(n)),
    decreases n,
{
    if n >= 10 {
        lemma_dec_digits_are_digits(n / 10);
        assert forall|i: int| 0 <= i < dec_digits(n).len() implies is_dec_digit(
            #[trigger] dec_digits(n)[i],
        ) by {
            if i < dec_digits(n / 10).len() {
                assert(dec_digits(n / 10)[i] == dec_digits(n)[i]);
                assert(is_dec_digit(dec_digits(n / 10)[i]));
            }
        }
    }
}

proof fn lemma_dec_value_of_digits(n: nat)
    ensures
        dec_value(dec_digits(n)) == n,
    decreases n,
{
    if n < 10 {
        assert(dec_digits(n).drop_last() =~= Seq::<u8>::empty());
        assert(dec_value(Seq::<u8>::empty()) == 0);
        assert(dec_digits(n).last() == (48 + n) as u8);
    } else {
        lemma_dec_value_of_digits(n / 10);
        assert(dec_digits(n).drop_last() =~= dec_digits(n / 10));
        assert(dec_digits(n).last() == (48 + n % 10) as u8);
    }
}

/// The canonical decimal form of an id parses back to the id.
proof fn lemma_parse_dec_bytes(n: i32)
    ensures
        parse_i32_spec(dec_bytes_of(n as int)) == Some(n),
{
    let s = dec_bytes_of(n as int);
    if n >= 0 {
        lemma_dec_digits_are_digits(n as nat);
        lemma_dec_value_of_digits(n as nat);
        assert(is_dec_digit(s[0]));
    } else {
        let mag = (-(n as int)) as nat;
        lemma_dec_digits_are_digits(mag);
        lemma_dec_value_of_digits(mag);
        assert(s[0] == 45u8);
        assert(s.drop_first() =~= dec_digits(mag));
    }
}

proof fn lemma_find_sep_at(s: Seq<u8>, from: int, p: int)
    requires
        0 <= from <= p < s.len(),
        s[p] == 59,
        forall|k: int| from <= k < p ==> s[k] != 59,
    ensures
        find_sep_spec(s, from) == Some(p),
    decreases p - from,
{
    if from < p {
        lemma_find_sep_at(s, from + 1, p);
    }
}

proof fn lemma_find_sep_none(s: Seq<u8>, from: int)
    requires
        0 <= from <= s.len(),
        forall|k: int| from <= k < s.len() ==> s[k] != 59,
    ensures
        find_sep_spec(s, from) is None,
    decreases s.len() - from,
{
    if from < s.len() {
        lemma_find_sep_none(s, from + 1);
    }
}

/// A token the service issued verifies back to the same user id: the
/// payload splits exactly at the separators it was built from, the id
/// reads back from its canonical decimal form, and the digest matches —
/// so a token whose bytes decode to that payload, as
/// [`generate_user_token`] promises of its result, authenticates as `id`.
/// The digest hypotheses state what `keyed_hash_hex` returns of every
/// digest — hex digit bytes — and the email must carry no separator byte.
pub proof fn lemma_token_round_trip(
    key: Seq<u8>,
    id: i32,
    email: Seq<u8>,
    digest: Seq<u8>,
    token: Seq<char>,
)
    requires
        digest == keyed_digest_of(key, token_info(id as int, email)),
        forall|i: int| 0 <= i < digest.len() ==> is_hex_digit(#[trigger] digest[i]),
        forall|i: int| 0 <= i < email.len() ==> email[i] != 59,
        b64_decode_of(token) == Some(token_payload(key, id as int, email)),
    ensures
        token_accepts(key, token_payload(key, id as int, email)) == Some(id),
        verify_spec(key, token) == Some(id),
{
    let dec = dec_bytes_of(id as int);
    let payload = token_payload(key, id as int, email);
    let p1 = dec.len() as int;
    let p2 = p1 + 1 + email.len() as int;

    if id >= 0 {
        lemma_dec_digits_are_digits(id as nat);
    } else {
        lemma_dec_digits_are_digits((-(id as int)) as nat);
        assert forall|k: int| 0 <= k < dec.len() implies dec[k] != 59 by {
            if k > 0 {
                assert(dec[k] == dec_digits((-(id as int)) as nat)[k - 1]);
                assert(is_dec_digit(dec[k]));
            }
        }
    }
    assert forall|k: int| 0 <= k < dec.len() implies dec[k] != 59 by {
        if id >= 0 {
            assert(is_dec_digit(dec[k]));
        }
    }

    // the payload splits at the two separators it was built from
    assert(payload[p1] == 59);
    assert forall|k: int| 0 <= k < p1 implies payload[k] != 59 by {
        assert(payload[k] == dec[k]);
    }
    lemma_find_sep_at(payload, 0, p1);
    assert(payload[p2] == 59);
    assert forall|k: int| p1 + 1 <= k < p2 implies payload[k] != 59 by {
        assert(payload[k] == email[k - p1 - 1]);
    }
    lemma_find_sep_at(payload, p1 + 1, p2);
    assert forall|k: int| p2 + 1 <= k < payload.len() implies payload[k] != 59 by {
        assert(payload[k] == digest[k - p2 - 1]);
        assert(is_hex_digit(payload[k]));
    }
    lemma_find_sep_none(payload, p2 + 1);

    // the three fields are the id bytes, the email and the digest
    assert(payload.subrange(0, p1) =~= dec);
    assert(payload.subrange(p1 + 1, p2) =~= email);
    assert(payload.subrange(p2 + 1, payload.len() as int) =~= digest);

    lemma_parse_dec_bytes(id);
}

/// Decide a login from the stored row: an unknown email or a wrong (or
/// uncheckable) password is rejected as wrong credentials, and a matching
/// password is answered with a fresh token for the stored id.
pub fn login(key: &Vec<u8>, stored: Option<UserAuth>, email: &str, given_password: &str) -> (r:
    Result<UserToken, AuthError>)
    requires
        key@.len() == 32,
    ensures
        stored is None ==> (r matches Err(e) && e is WrongCredentials),
        r matches Ok(t) ==> {
            &&& stored matches Some(ua)
            &&& bcrypt_matches(given_password.spec_bytes(), ua.password@)
            &&& t@ == b64_of(token_payload(key@, ua.id as int, email.spec_bytes()))
        },
        r matches Err(e) ==> e is WrongCredentials,
{
    match stored {
        None => Err(AuthError::WrongCredentials),
        Some(ua) => {
            match bcrypt_verify(given_password, ua.password.as_str()) {
                Some(true) => Ok(generate_user_token(key, ua.id, email)),
                _ => Err(AuthError::WrongCredentials),
            }
        },
    }
}

} // verus!
