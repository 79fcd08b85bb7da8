//! Access tokens that are kept as a digest and expire an hour after issue.

use vstd::prelude::*;
use vstd::string::StringExecFns;
use vstd::utf8::*;

verus! {

/// Seconds for which a token stays valid after it was issued.
pub const TOKEN_LIFETIME_SECS: i64 = 3600;

/// A point in time: whole seconds since 1970-01-01 00:00:00 UTC, and the
/// nanoseconds since that whole second.
#[derive(Clone, Copy, Debug, PartialEq, Eq, Structural)]
pub struct Timestamp {
    pub secs: i64,
    pub nanos: u32,
}

/// A token as it is kept: the digest of its secret, the repository it is for,
/// and the moment it stops being valid.
#[derive(Clone, Debug, PartialEq, Eq)]
pub struct SecureToken {
    pub hash: String,
    pub repo: String,
    pub expires: Timestamp,
}

/// The SHA-256 digest of `data`.
pub uninterp spec fn sha256(data: Seq<u8>) -> Seq<u8>;

/// The lower-case hexadecimal digit of a number below 16.
pub open spec fn hex_digit(n: int) -> char {
    if n == 0 {
        '0'
    } else if n == 1 {
        '1'
    } else if n == 2 {
        '2'
    } else if n == 3 {
        '3'
    } else if n == 4 {
        '4'
    } else if n == 5 {
        '5'
    } else if n == 6 {
        '6'
    } else if n == 7 {
        '7'
    } else if n == 8 {
        '8'
    } else if n == 9 {
        '9'
    } else if n == 10 {
        'a'
    } else if n == 11 {
        'b'
    } else if n == 12 {
        'c'
    } else if n == 13 {
        'd'
    } else if n == 14 {
        'e'
    } else {
        'f'
    }
}

/// Bytes written as lower-case hexadecimal: two digits per byte, the high
/// half of the byte first.
pub open spec fn lower_hex(bytes: Seq<u8>) -> Seq<char> {
    Seq::new(
        2 * bytes.len(),
        |i: int|
            if i % 2 == 0 {
                hex_digit(bytes[i / 2] as int / 16)
            } else {
                hex_digit(bytes[i / 2] as int % 16)
            },
    )
}

/// The form in which the secret `token` is kept: the hexadecimal SHA-256
/// digest of its UTF-8 bytes.
pub open spec fn token_hash(token: Seq<char>) -> Seq<char> {
    lower_hex(sha256(encode_utf8(token)))
}

/// Calls `sha2::Sha256::digest` on `data` and copies the digest out. Trusted:
/// the result is the SHA-256 digest of `data`, which depends on `data` alone
/// and has 32 bytes (the output size that the `sha2` crate fixes for
/// `Sha256`).
#[verifier::external_body]
fn sha256_digest(data: &[u8]) -> (digest: Vec<u8>)
    ensures
        digest@ == sha256(data@),
        digest@.len() == 32,
{
    <sha2::Sha256 as sha2::Digest>::digest(data).to_vec()
}

/// Calls `chrono::Utc::now` and takes the result apart with
/// `DateTime::timestamp` and `DateTime::timestamp_subsec_nanos`. Trusted: the
/// seconds lie strictly between -2^48 and 2^48, which holds of every
/// `DateTime`, since `timestamp` computes them from a day count of 32 bits and
/// a second of the day. Nothing is claimed of the moment itself. `Utc::now`
/// panics where the system clock stands before 1970.
#[verifier::external_body]
fn utc_now() -> (now: Timestamp)
    ensures
        -0x1_0000_0000_0000 < now.secs < 0x1_0000_0000_0000,
{
    let moment = chrono::Utc::now();
    Timestamp { secs: moment.timestamp(), nanos: moment.timestamp_subsec_nanos() }
}

/// The one-character text of a hexadecimal digit.
fn hex_digit_text(n: u8) -> (text: &'static str)
    requires
        n < 16,
    ensures
        text@ == seq![hex_digit(n as int)],
{
    proof {
        reveal_strlit("0");
        reveal_strlit("1");
        reveal_strlit("2");
        reveal_strlit("3");
        reveal_strlit("4");
        reveal_strlit("5");
        reveal_strlit("6");
        reveal_strlit("7");
        reveal_strlit("8");
        reveal_strlit("9");
        reveal_strlit("a");
        reveal_strlit("b");
        reveal_strlit("c");
        reveal_strlit("d");
        reveal_strlit("e");
        reveal_strlit("f");
    }
    let text = if n == 0 {
        "0"
    } else if n == 1 {
        "1"
    } else if n == 2 {
        "2"
    } else if n == 3 {
        "3"
    } else if n == 4 {
        "4"
    } else if n == 5 {
        "5"
    } else if n == 6 {
        "6"
    } else if n == 7 {
        "7"
    } else if n == 8 {
        "8"
    } else if n == 9 {
        "9"
    } else if n == 10 {
        "a"
    } else if n == 11 {
        "b"
    } else if n == 12 {
        "c"
    } else if n == 13 {
        "d"
    } else if n == 14 {
        "e"
    } else {
        "f"
    };
    assert(text@ =~= seq![hex_digit(n as int)]);
    text
}

/// Writes `bytes` as lower-case hexadecimal.
pub fn to_lower_hex(bytes: &Vec<u8>) -> (hex: String)
    ensures
        hex@ == lower_hex(bytes@),
{
    let mut hex = String::new();
    let mut i: usize = 0;
    while i < bytes.len()
        invariant
            i <= bytes@.len(),
            hex@ == lower_hex(bytes@.take(i as int)),
        decreases bytes.len() - i,
    {
        let byte: u8 = bytes[i];
        let ghost before = hex@;
        hex.append(hex_digit_text(byte / 16));
        hex.append(hex_digit_text(byte % 16));
        proof {
            let done = bytes@.take(i as int);
            let next = bytes@.take(i + 1);
            assert(next.len() == i + 1);
            assert forall|k: int| 0 <= k < 2 * (i + 1) implies hex@[k] == lower_hex(next)[k] by {
                if k < 2 * i {
                    assert(hex@[k] == before[k]);
                    assert(before[k] == lower_hex(done)[k]);
                    assert(done[k / 2] == next[k / 2]);
                } else {
                    assert(next[k / 2] == byte);
                }
            }
            assert(hex@ =~= lower_hex(next));
        }
        i += 1;
    }
    proof {
        assert(bytes@.take(bytes@.len() as int) =~= bytes@);
    }
    hex
}

impl SecureToken {
    /// The token for the secret `token` and the repository `repo`, issued at
    /// `now`: it keeps the digest of the secret, never the secret, and expires
    /// `TOKEN_LIFETIME_SECS` after `now`.
    pub fn issued_at(token: &str, repo: &str, now: Timestamp) -> (issued: SecureToken)
        requires
            now.secs + TOKEN_LIFETIME_SECS <= i64::MAX,
        ensures
            issued.hash@ == token_hash(token@),
            issued.hash@.len() == 64,
            issued.repo@ == repo@,
            issued.expires.secs == now.secs + TOKEN_LIFETIME_SECS,
            issued.expires.nanos == now.nanos,
    {
        let digest = sha256_digest(token.as_bytes());
        SecureToken {
            hash: to_lower_hex(&digest),
            repo: repo.to_owned(),
            expires: Timestamp { secs: now.secs + TOKEN_LIFETIME_SECS, nanos: now.nanos },
        }
    }

    /// The token for the secret `token` and the repository `repo`, issued at
    /// the moment of the call. Whatever the clock says, the token keeps the
    /// digest of the secret and the repository as given.
    pub fn new(token: &str, repo: &str) -> (issued: SecureToken)
        ensures
            issued.hash@ == token_hash(token@),
            issued.hash@.len() == 64,
            issued.repo@ == repo@,
            -0x1_0000_0000_0000 + TOKEN_LIFETIME_SECS < issued.expires.secs < 0x1_0000_0000_0000
                + TOKEN_LIFETIME_SECS,
    {
        let now = utc_now();
        SecureToken::issued_at(token, repo, now)
    }
}

} // verus!
