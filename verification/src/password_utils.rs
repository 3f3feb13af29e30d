//! The credential utility: handle derivation, random passwords, password
//! hashing and verification, and bearer-style session tokens of the form
//! `identifier:timestamp:random-suffix` with a one-hour expiry window.

use vstd::prelude::*;

use pbkdf2::password_hash::PasswordHash;
use pbkdf2::password_hash::PasswordHasher;
use pbkdf2::password_hash::PasswordVerifier;
use pbkdf2::password_hash::SaltString;
use pbkdf2::password_hash::rand_core::OsRng;
use pbkdf2::Pbkdf2;
use rand::seq::SliceRandom;
use rand::Rng;

use crate::codec::char_digit;
use crate::codec::dec_text;
use crate::codec::digits_val;
use crate::codec::is_digit;
use crate::codec::lemma_dec_text_digits;
use crate::codec::lemma_digits_val_of;
use crate::errors::StoreError;
use crate::text::chars_to_string;
use crate::text::str_to_chars;

verus! {

pub const LOWER_CASE: &'static str = "abcdefghijklmnopqrstuvxyz";

pub const UPPER_CASE: &'static str = "ABCDEFGHIJKLMNOPQRSTUVXYZ";

pub const SPECIAL_CHARACTER: &'static str = "!@#$%&*()_-+=,.:;?/|";

pub const NUMBERS: &'static str = "1234567890";

pub open spec fn lower_case_chars() -> Seq<char> {
    "abcdefghijklmnopqrstuvxyz"@
}

pub open spec fn upper_case_chars() -> Seq<char> {
    "ABCDEFGHIJKLMNOPQRSTUVXYZ"@
}

pub open spec fn special_chars() -> Seq<char> {
    "!@#$%&*()_-+=,.:;?/|"@
}

pub open spec fn number_chars() -> Seq<char> {
    "1234567890"@
}

/// The character class the first password position draws from.
pub open spec fn begin_class() -> Seq<char> {
    lower_case_chars() + special_chars() + number_chars()
}

/// The character class the seven middle positions draw from.
pub open spec fn middle_class() -> Seq<char> {
    lower_case_chars() + upper_case_chars() + number_chars() + special_chars()
}

/// The character class the last position draws from.
pub open spec fn end_class() -> Seq<char> {
    lower_case_chars() + upper_case_chars() + number_chars()
}

/// The shape of a generated password: nine characters, each drawn from
/// the class its position prescribes.
pub open spec fn password_shape(p: Seq<char>) -> bool {
    &&& p.len() == 9
    &&& begin_class().contains(p[0])
    &&& forall|k: int| 1 <= k <= 7 ==> middle_class().contains(#[trigger] p[k])
    &&& end_class().contains(p[8])
}

/// Relies on rand's `SliceRandom::choose`: some element of the slice.
#[verifier::external_body]
fn pick_char(l: &Vec<char>) -> (c: char)
    requires
        l@.len() > 0,
    ensures
        l@.contains(c),
{
    *l.as_slice().choose(&mut rand::thread_rng()).unwrap()
}

fn password(library: String, size: u32) -> (r: String)
    requires
        library@.len() > 0,
    ensures
        r@.len() == size,
        forall|k: int| 0 <= k < r@.len() ==> library@.contains(#[trigger] r@[k]),
{
    let l = str_to_chars(library.as_str());
    let mut out: Vec<char> = Vec::new();
    let mut i: u32 = 0;
    while i < size
        invariant
            l@ == library@,
            l@.len() > 0,
            i <= size,
            out@.len() == i,
            forall|k: int| 0 <= k < out@.len() ==> library@.contains(#[trigger] out@[k]),
        decreases size - i,
    {
        out.push(pick_char(&l));
        i += 1;
    }
    chars_to_string(&out)
}

/// A nine-character password: one character from the begin class, seven
/// from the middle class, one from the end class, in that order.
pub fn generate_random_password() -> (r: String)
    ensures
        password_shape(r@),
{
    let mut begin = String::new();
    begin.append("abcdefghijklmnopqrstuvxyz");
    begin.append("!@#$%&*()_-+=,.:;?/|");
    begin.append("1234567890");
    proof {
        assert(begin@ =~= begin_class());
        reveal_strlit("abcdefghijklmnopqrstuvxyz");
        assert(begin@.len() > 0);
    }
    let password_begin = password(begin, 1);
    let mut middle = String::new();
    middle.append("abcdefghijklmnopqrstuvxyz");
    middle.append("ABCDEFGHIJKLMNOPQRSTUVXYZ");
    middle.append("1234567890");
    middle.append("!@#$%&*()_-+=,.:;?/|");
    proof {
        assert(middle@ =~= middle_class());
    }
    let password_middle = password(middle, 7);
    let mut end = String::new();
    end.append("abcdefghijklmnopqrstuvxyz");
    end.append("ABCDEFGHIJKLMNOPQRSTUVXYZ");
    end.append("1234567890");
    proof {
        assert(end@ =~= end_class());
    }
    let password_end = password(end, 1);
    let mut out = password_begin;
    out.append(password_middle.as_str());
    out.append(password_end.as_str());
    proof {
        assert(password_shape(out@));
    }
    out
}

/// The lowercase form of a string, as `str::to_lowercase` computes it;
/// it depends on the characters alone.
pub uninterp spec fn lower_of(s: Seq<char>) -> Seq<char>;

/// Relies on `str::to_lowercase`: the result is a function of the
/// characters, and it is empty exactly when the input is empty.
#[verifier::external_body]
fn lowercase(s: &str) -> (r: String)
    ensures
        r@ == lower_of(s@),
        (s@.len() == 0) == (r@.len() == 0),
{
    s.to_lowercase()
}

/// The handle derived from a name: the first character of the lowercased
/// first name, then the whole lowercased last name.
pub open spec fn handle_text(first_name: Seq<char>, last_name: Seq<char>) -> Seq<char> {
    lower_of(first_name).take(1) + lower_of(last_name)
}

/// Derive a login handle from a name; an empty first name is rejected.
pub fn generate_handle(first_name: String, last_name: String) -> (r: Result<String, StoreError>)
    ensures
        match r {
            Ok(h) => first_name@.len() > 0 && h@ == handle_text(first_name@, last_name@),
            Err(e) => e == StoreError::InvalidInput && first_name@.len() == 0,
        },
{
    if first_name.as_str().is_empty() {
        return Err(StoreError::InvalidInput);
    }
    let fl = lowercase(first_name.as_str());
    let ll = lowercase(last_name.as_str());
    let flc = str_to_chars(fl.as_str());
    let llc = str_to_chars(ll.as_str());
    let mut out: Vec<char> = Vec::new();
    out.push(flc[0]);
    let n = llc.len();
    let mut i: usize = 0;
    while i < n
        invariant
            n == llc@.len(),
            i <= n,
            out@ == seq![llc@.first()].take(0) + seq![flc@[0]] + llc@.take(i as int),
        decreases n - i,
    {
        out.push(llc[i]);
        proof {
            assert(out@ =~= seq![llc@.first()].take(0) + seq![flc@[0]] + llc@.take(i + 1));
        }
        i += 1;
    }
    proof {
        assert(out@ =~= lower_of(first_name@).take(1) + lower_of(last_name@));
    }
    Ok(chars_to_string(&out))
}

/// The prefix of every digest produced with pbkdf2's default algorithm:
/// the PHC identifier of PBKDF2-SHA256.
pub open spec fn phc_prefix() -> Seq<char> {
    "$pbkdf2-sha256$"@
}

/// Whether the PHC digest string is well formed, as pbkdf2's
/// `PasswordHash::new` decides it; it depends on the text alone.
pub uninterp spec fn digest_parses(d: Seq<char>) -> bool;

/// Whether the password reproduces the digest, as pbkdf2's
/// `verify_password` decides it; it depends on its arguments alone.
pub uninterp spec fn verifies_of(p: Seq<char>, d: Seq<char>) -> bool;

/// Relies on pbkdf2's `Pbkdf2.hash_password` with a fresh `OsRng` salt:
/// on success the returned PHC string is well formed, verifies against
/// the hashed password, and begins with the fixed identifier of the
/// default algorithm, PBKDF2-SHA256, followed by its parameters.
#[verifier::external_body]
fn pbkdf2_hash(password: &str) -> (r: Option<String>)
    ensures
        r matches Some(h) ==> digest_parses(h@) && verifies_of(password@, h@),
        r matches Some(h) ==> h@.len() > phc_prefix().len() && h@.subrange(
            0,
            phc_prefix().len() as int,
        ) == phc_prefix(),
{
    let salt = SaltString::generate(&mut OsRng);
    match Pbkdf2.hash_password(password.as_bytes(), &salt) {
        Ok(h) => Some(h.to_string()),
        Err(_) => None,
    }
}

/// Relies on pbkdf2's `PasswordHash::new` and `Pbkdf2.verify_password`:
/// the digest is parsed, then the password is checked against it; both
/// depend on their text arguments alone.
#[verifier::external_body]
fn pbkdf2_verify(password: &str, digest: &str) -> (r: Option<bool>)
    ensures
        (r is Some) == digest_parses(digest@),
        r matches Some(b) ==> b == verifies_of(password@, digest@),
{
    match PasswordHash::new(digest) {
        Ok(h) => Some(Pbkdf2.verify_password(password.as_bytes(), &h).is_ok()),
        Err(_) => None,
    }
}

/// Hash a password with a fresh random salt into a PHC digest string,
/// which always begins with the PBKDF2-SHA256 identifier.
pub fn hash_password(password: String) -> (r: Result<String, StoreError>)
    ensures
        match r {
            Ok(h) => digest_parses(h@) && verifies_of(password@, h@) && h@.len()
                > phc_prefix().len() && h@.subrange(0, phc_prefix().len() as int) == phc_prefix(),
            Err(e) => e == StoreError::InvalidInput,
        },
{
    match pbkdf2_hash(password.as_str()) {
        Some(h) => Ok(h),
        None => Err(StoreError::InvalidInput),
    }
}

/// Check a password against a stored digest; an unparsable digest never
/// verifies.
pub fn verify_hashed_password(password: String, hashed_password: String) -> (r: bool)
    ensures
        r == (digest_parses(hashed_password@) && verifies_of(password@, hashed_password@)),
{
    match pbkdf2_verify(password.as_str(), hashed_password.as_str()) {
        Some(b) => b,
        None => false,
    }
}

// ---------------------------------------------------------------------
// Session tokens.
// ---------------------------------------------------------------------

/// The token minted for `id` at time `ts` with the given random suffix.
pub open spec fn token_text(id: Seq<char>, ts: u64, suffix: Seq<char>) -> Seq<char> {
    id + seq![':'] + dec_text(ts as int) + seq![':'] + suffix
}

pub open spec fn has_colon(s: Seq<char>) -> bool {
    exists|k: int| 0 <= k < s.len() && s[k] == ':'
}

/// The first position at or after `i` holding a colon, or the length.
pub open spec fn colon_end(s: Seq<char>, i: int) -> int
    decreases s.len() - i,
{
    if i < 0 || i >= s.len() {
        s.len() as int
    } else if s[i] == ':' {
        i
    } else {
        colon_end(s, i + 1)
    }
}

pub open spec fn all_digits(s: Seq<char>, i: int, j: int) -> bool {
    forall|q: int| i <= q < j ==> is_digit(#[trigger] s[q])
}

/// The value of the digits at positions `i..j`, if they are digits and
/// fit in a `u64`.
pub open spec fn spec_field_val(s: Seq<char>, i: int, j: int) -> Option<u64> {
    if j <= i {
        None
    } else if !all_digits(s, i, j) {
        None
    } else if digits_val(s, i, j) > u64::MAX {
        None
    } else {
        Some(digits_val(s, i, j) as u64)
    }
}

/// The issue timestamp of a token: the decimal field between the first
/// colon and the next colon (or the end).
pub open spec fn spec_token_timestamp(s: Seq<char>) -> Option<u64> {
    let c1 = colon_end(s, 0);
    if c1 == s.len() {
        None
    } else {
        spec_field_val(s, c1 + 1, colon_end(s, c1 + 1))
    }
}

/// A token issued at `issued` is fresh at `now` while less than one hour
/// has elapsed.
pub open spec fn token_fresh(issued: u64, now: u64) -> bool {
    now - issued < 3600
}

fn find_colon(text: &Vec<char>, from: usize) -> (r: usize)
    requires
        from <= text@.len(),
    ensures
        r == colon_end(text@, from as int),
        from <= r <= text@.len(),
        r < text@.len() ==> text@[r as int] == ':',
{
    let n = text.len();
    let mut k: usize = from;
    while k < n && text[k] != ':'
        invariant
            from <= k <= n == text@.len(),
            colon_end(text@, from as int) == colon_end(text@, k as int),
        decreases n - k,
    {
        k += 1;
    }
    k
}

proof fn lemma_digits_val_nonneg(s: Seq<char>, i: int, j: int)
    ensures
        digits_val(s, i, j) >= 0,
    decreases j - i,
{
    if i < j {
        lemma_digits_val_nonneg(s, i, j - 1);
        assert(char_digit(s[j - 1]) >= 0);
    }
}

proof fn lemma_digits_val_grows(s: Seq<char>, i: int, k: int, j: int)
    requires
        i <= k <= j,
        digits_val(s, i, k) > u64::MAX,
    ensures
        digits_val(s, i, j) > u64::MAX,
    decreases j - k,
{
    if k < j {
        lemma_digits_val_nonneg(s, i, j - 1);
        lemma_digits_val_grows(s, i, k, j - 1);
        assert(digits_val(s, i, j) == digits_val(s, i, j - 1) * 10 + char_digit(s[j - 1]));
        assert(digits_val(s, i, j - 1) * 10 > u64::MAX) by (nonlinear_arith)
            requires
                digits_val(s, i, j - 1) > u64::MAX,
        ;
        assert(char_digit(s[j - 1]) >= 0);
    }
}

fn parse_u64_field(text: &Vec<char>, i: usize, j: usize) -> (r: Option<u64>)
    requires
        i <= j <= text@.len(),
    ensures
        r == spec_field_val(text@, i as int, j as int),
{
    if j <= i {
        return None;
    }
    let mut acc: u64 = 0;
    let mut over: bool = false;
    let mut k: usize = i;
    while k < j
        invariant
            i <= k <= j <= text@.len(),
            all_digits(text@, i as int, k as int),
            !over ==> acc as int == digits_val(text@, i as int, k as int),
            over ==> digits_val(text@, i as int, k as int) > u64::MAX,
        decreases j - k,
    {
        let c = text[k];
        let d: u64 = match c {
            '0' => 0,
            '1' => 1,
            '2' => 2,
            '3' => 3,
            '4' => 4,
            '5' => 5,
            '6' => 6,
            '7' => 7,
            '8' => 8,
            '9' => 9,
            _ => {
                proof {
                    assert(!is_digit(text@[k as int]));
                }
                return None;
            },
        };
        proof {
            assert(is_digit(text@[k as int]));
            assert(d as int == char_digit(text@[k as int]));
            assert(digits_val(text@, i as int, k + 1) == digits_val(text@, i as int, k as int) * 10
                + char_digit(text@[k as int]));
        }
        if over {
            proof {
                lemma_digits_val_nonneg(text@, i as int, k as int);
                assert(digits_val(text@, i as int, k as int) * 10 > u64::MAX) by (nonlinear_arith)
                    requires
                        digits_val(text@, i as int, k as int) > u64::MAX,
                ;
            }
        } else {
            match acc.checked_mul(10) {
                None => {
                    over = true;
                },
                Some(x) => {
                    match x.checked_add(d) {
                        None => {
                            over = true;
                        },
                        Some(y) => {
                            acc = y;
                        },
                    }
                },
            }
        }
        k += 1;
    }
    if over {
        return None;
    }
    Some(acc)
}

/// Whether a token, read at time `now`, is within its one-hour window.
/// A token without a well-formed timestamp field is invalid.
pub fn validate_token_at(token: &str, now: u64) -> (r: Result<bool, StoreError>)
    ensures
        match r {
            Ok(b) => spec_token_timestamp(token@) matches Some(ts) && b == token_fresh(ts, now),
            Err(e) => e == StoreError::InvalidToken && spec_token_timestamp(token@) is None,
        },
{
    let chars = str_to_chars(token);
    let c1 = find_colon(&chars, 0);
    if c1 == chars.len() {
        return Err(StoreError::InvalidToken);
    }
    let c2 = find_colon(&chars, c1 + 1);
    match parse_u64_field(&chars, c1 + 1, c2) {
        None => Err(StoreError::InvalidToken),
        Some(ts) => {
            if now < ts {
                Ok(true)
            } else {
                Ok(now - ts < 3600)
            }
        },
    }
}

/// Relies on std's `SystemTime::now` and `duration_since`: whole seconds
/// since the Unix epoch, or nothing when the clock reads before it.
#[verifier::external_body]
fn now_seconds() -> (r: Option<u64>)
{
    match std::time::SystemTime::now().duration_since(std::time::UNIX_EPOCH) {
        Ok(d) => Some(d.as_secs()),
        Err(_) => None,
    }
}

/// Relies on rand's `Alphanumeric` distribution: `n` characters drawn
/// from a-z, A-Z and 0-9, so none of them is a colon.
#[verifier::external_body]
fn random_alphanumeric(n: usize) -> (r: String)
    ensures
        r@.len() == n,
        forall|k: int| 0 <= k < r@.len() ==> r@[k] != ':',
{
    rand::thread_rng().sample_iter(&rand::distributions::Alphanumeric).take(n).map(
        char::from,
    ).collect()
}

fn contains_colon(s: &str) -> (r: bool)
    ensures
        r == has_colon(s@),
{
    let chars = str_to_chars(s);
    let n = chars.len();
    let mut k: usize = 0;
    while k < n
        invariant
            k <= n == s@.len(),
            chars@ == s@,
            forall|q: int| 0 <= q < k ==> s@[q] != ':',
        decreases n - k,
    {
        if chars[k] == ':' {
            return true;
        }
        k += 1;
    }
    false
}

/// Build the token text `id:timestamp:suffix`; an identifier or suffix
/// that itself contains the delimiter is rejected.
pub fn make_session_token(id: &String, timestamp: u64, suffix: &String) -> (r: Result<
    String,
    StoreError,
>)
    ensures
        match r {
            Ok(t) => !has_colon(id@) && !has_colon(suffix@) && t@ == token_text(
                id@,
                timestamp,
                suffix@,
            ),
            Err(e) => e == StoreError::InvalidInput && (has_colon(id@) || has_colon(suffix@)),
        },
{
    if contains_colon(id.as_str()) || contains_colon(suffix.as_str()) {
        return Err(StoreError::InvalidInput);
    }
    let mut out: Vec<char> = Vec::new();
    let idc = str_to_chars(id.as_str());
    let n = idc.len();
    let mut k: usize = 0;
    while k < n
        invariant
            k <= n == id@.len(),
            idc@ == id@,
            out@ == id@.take(k as int),
        decreases n - k,
    {
        out.push(idc[k]);
        proof {
            assert(out@ =~= id@.take(k + 1));
        }
        k += 1;
    }
    proof {
        assert(out@ =~= id@);
    }
    out.push(':');
    crate::codec::append_dec(&mut out, timestamp);
    out.push(':');
    let sfc = str_to_chars(suffix.as_str());
    let m = sfc.len();
    let ghost mid = out@;
    let mut k2: usize = 0;
    while k2 < m
        invariant
            k2 <= m == suffix@.len(),
            sfc@ == suffix@,
            out@ == mid + suffix@.take(k2 as int),
        decreases m - k2,
    {
        out.push(sfc[k2]);
        proof {
            assert(out@ =~= mid + suffix@.take(k2 + 1));
        }
        k2 += 1;
    }
    proof {
        assert(out@ =~= token_text(id@, timestamp, suffix@));
    }
    Ok(chars_to_string(&out))
}

/// Mint a session token for `id`: the identifier, the current Unix time,
/// and a 30-character random suffix, joined by colons. An identifier
/// containing the delimiter is rejected; when the clock is unreadable no
/// token can be minted.
pub fn generate_session_token(id: String) -> (r: Result<String, StoreError>)
    ensures
        match r {
            Ok(t) => !has_colon(id@) && (exists|ts: u64, suffix: Seq<char>|
                t@ == token_text(id@, ts, suffix) && !has_colon(suffix) && suffix.len() == 30),
            Err(e) => (has_colon(id@) && e == StoreError::InvalidInput) || (!has_colon(id@) && e
                == StoreError::InvalidToken),
        },
{
    if contains_colon(id.as_str()) {
        return Err(StoreError::InvalidInput);
    }
    let ts = match now_seconds() {
        None => {
            return Err(StoreError::InvalidToken);
        },
        Some(ts) => ts,
    };
    let suffix = random_alphanumeric(30);
    proof {
        assert(!has_colon(suffix@));
    }
    match make_session_token(&id, ts, &suffix) {
        Ok(t) => {
            proof {
                assert(t@ == token_text(id@, ts, suffix@) && !has_colon(suffix@) && suffix@.len()
                    == 30);
            }
            Ok(t)
        },
        Err(_) => Err(StoreError::InvalidToken),
    }
}

/// Whether the token's issue time is within the last hour of the clock's
/// current reading; a malformed token is reported as invalid.
pub fn validate_token_expiration(token: String) -> (r: Result<bool, StoreError>)
    ensures
        match r {
            Ok(b) => spec_token_timestamp(token@) is Some,
            Err(e) => e == StoreError::InvalidToken,
        },
        spec_token_timestamp(token@) is None ==> r is Err,
{
    match now_seconds() {
        None => Err(StoreError::InvalidToken),
        Some(now) => validate_token_at(token.as_str(), now),
    }
}

proof fn lemma_colon_run(s: Seq<char>, i: int, j: int)
    requires
        0 <= i <= j <= s.len(),
        forall|q: int| i <= q < j ==> s[q] != ':',
        j == s.len() || s[j] == ':',
    ensures
        colon_end(s, i) == j,
    decreases j - i,
{
    if i < j {
        lemma_colon_run(s, i + 1, j);
    }
}

/// A token minted at time `ts` parses back to `ts`; it is fresh when
/// validated at once, and no longer fresh 3601 seconds later.
pub proof fn lemma_fresh_token_validates(id: Seq<char>, ts: u64, suffix: Seq<char>)
    requires
        !has_colon(id),
        !has_colon(suffix),
    ensures
        spec_token_timestamp(token_text(id, ts, suffix)) == Some(ts),
        token_fresh(ts, ts),
        ts + 3601 <= u64::MAX ==> !token_fresh(ts, (ts + 3601) as u64),
{
    let t = token_text(id, ts, suffix);
    let d = dec_text(ts as int);
    lemma_dec_text_digits(ts as int);
    let c1 = id.len() as int;
    let c2 = c1 + 1 + d.len();
    assert forall|q: int| 0 <= q < c1 implies t[q] != ':' by {
        assert(t[q] == id[q]);
    }
    assert(t[c1] == ':');
    lemma_colon_run(t, 0, c1);
    assert forall|q: int| c1 + 1 <= q < c2 implies t[q] != ':' by {
        assert(t[q] == d[q - (c1 + 1)]);
        assert(is_digit(d[q - (c1 + 1)]));
    }
    assert(t[c2] == ':');
    lemma_colon_run(t, c1 + 1, c2);
    assert(colon_end(t, c1 + 1) == c2);
    assert forall|q: int| c1 + 1 <= q < c2 implies is_digit(#[trigger] t[q]) by {
        assert(t[q] == d[q - (c1 + 1)]);
    }
    assert(t.subrange(c1 + 1, c2) =~= d);
    lemma_digits_val_of(t, c1 + 1, ts as int);
    assert(digits_val(t, c1 + 1, c2) == ts as int);
    assert(spec_field_val(t, c1 + 1, c2) == Some(ts));
}

} // verus!
