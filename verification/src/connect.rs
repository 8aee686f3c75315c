use vstd::prelude::*;
use vstd::string::StringExecFns;
use vstd::utf8::{encode_utf8, encode_utf8_decode_utf8, encode_utf8_valid_utf8, is_ascii_chars,
    is_ascii_chars_encode_utf8};

use crate::codec::utf8_to_string;

verus! {

/// Bytes that the form-urlencoded serializer passes through unchanged:
/// ASCII alphanumerics and `*`, `-`, `.`, `_`.
pub open spec fn form_unchanged(b: u8) -> bool {
    ||| b == 42
    ||| b == 45
    ||| b == 46
    ||| 48 <= b <= 57
    ||| 65 <= b <= 90
    ||| b == 95
    ||| 97 <= b <= 122
}

/// The upper-case hexadecimal digit of a value below sixteen.
pub open spec fn hex_upper(n: u8) -> char
    recommends
        n < 16,
{
    if n < 10 {
        ((48 + n) as u8) as char
    } else {
        ((55 + n) as u8) as char
    }
}

/// One byte's form-urlencoded serialization: kept, `+` for a space, or a
/// percent escape with upper-case hexadecimal digits.
pub open spec fn form_encoded_byte(b: u8) -> Seq<char> {
    if form_unchanged(b) {
        seq![b as char]
    } else if b == 32 {
        seq!['+']
    } else {
        seq!['%', hex_upper(b / 16), hex_upper(b % 16)]
    }
}

/// A byte string's form-urlencoded serialization.
pub open spec fn form_encoded(bytes: Seq<u8>) -> Seq<char>
    decreases bytes.len(),
{
    if bytes.len() == 0 {
        Seq::empty()
    } else {
        form_encoded_byte(bytes[0]) + form_encoded(bytes.drop_first())
    }
}

/// Relies on `url::form_urlencoded::byte_serialize`: each input byte is kept
/// where the application/x-www-form-urlencoded serializer keeps it, a space
/// becomes `+`, and every other byte becomes a percent escape in upper-case
/// hexadecimal.
#[verifier::external_body]
fn form_urlencode(s: &str) -> (r: String)
    ensures
        r@ == form_encoded(encode_utf8(s@)),
{
    url::form_urlencoded::byte_serialize(s.as_bytes()).collect()
}

/// The decimal digits of a number, most significant first.
pub open spec fn dec_digits(n: nat) -> Seq<char>
    decreases n,
{
    if n < 10 {
        seq![((48 + n) as u8) as char]
    } else {
        dec_digits(n / 10).push(((48 + n % 10) as u8) as char)
    }
}

/// The characters of a digit buffer that was filled least significant first.
spec fn rev_chars(rev: Seq<u8>) -> Seq<char> {
    Seq::new(rev.len(), |i: int| rev[rev.len() - 1 - i] as char)
}

/// Writes a port number in decimal.
pub fn u16_decimal(n: u16) -> (r: String)
    ensures
        r@ == dec_digits(n as nat),
{
    let mut rev: Vec<u8> = Vec::new();
    let mut m: u16 = n;
    let d0: u8 = (m % 10) as u8;
    rev.push(48 + d0);
    m = m / 10;
    proof {
        assert(rev_chars(rev@) =~= seq![((48 + n % 10) as u8) as char]);
        if n >= 10 {
            assert(dec_digits(n as nat) == dec_digits((n / 10) as nat).push(
                ((48 + n % 10) as u8) as char,
            ));
            assert(dec_digits(n as nat) =~= dec_digits(m as nat) + rev_chars(rev@));
        } else {
            assert(dec_digits(n as nat) =~= rev_chars(rev@));
        }
    }
    while m > 0
        invariant
            rev@.len() >= 1,
            dec_digits(n as nat) == if m > 0 {
                dec_digits(m as nat) + rev_chars(rev@)
            } else {
                rev_chars(rev@)
            },
            forall|i: int| 0 <= i < rev@.len() ==> 48 <= #[trigger] rev@[i] <= 57,
        decreases m,
    {
        let d: u8 = (m % 10) as u8;
        let ghost old_rev = rev@;
        let ghost old_m = m;
        rev.push(48 + d);
        m = m / 10;
        proof {
            assert(rev@ =~= old_rev.push((48 + d) as u8));
            assert(rev_chars(rev@) =~= seq![((48 + old_m % 10) as u8) as char] + rev_chars(
                old_rev,
            ));
            if old_m >= 10 {
                assert(dec_digits(old_m as nat) == dec_digits((old_m / 10) as nat).push(
                    ((48 + old_m % 10) as u8) as char,
                ));
                assert(dec_digits((old_m / 10) as nat) + rev_chars(rev@) =~= dec_digits(
                    old_m as nat,
                ) + rev_chars(old_rev));
                assert(dec_digits(n as nat) =~= dec_digits(m as nat) + rev_chars(rev@));
            } else {
                assert(dec_digits(old_m as nat) =~= seq![((48 + old_m % 10) as u8) as char]);
                assert(dec_digits(n as nat) =~= rev_chars(rev@));
            }
        }
    }
    let ghost chars = dec_digits(n as nat);
    let mut buf: Vec<u8> = Vec::new();
    let mut i: usize = rev.len();
    proof {
        assert(chars == rev_chars(rev@));
        assert(chars.len() == rev@.len());
    }
    while i > 0
        invariant
            i <= rev@.len(),
            chars == rev_chars(rev@),
            chars.len() == rev@.len(),
            forall|k: int| 0 <= k < rev@.len() ==> 48 <= #[trigger] rev@[k] <= 57,
            buf@.len() == rev@.len() - i,
            forall|k: int| 0 <= k < buf@.len() ==> #[trigger] buf@[k] == rev@[rev@.len() - 1 - k],
        decreases i,
    {
        i = i - 1;
        buf.push(rev[i]);
    }
    proof {
        assert(is_ascii_chars(chars)) by {
            assert forall|k: int| 0 <= k < chars.len() implies '\0' <= #[trigger] chars[k]
                <= '\u{7f}' by {
                assert(chars[k] == rev@[rev@.len() - 1 - k] as char);
            }
        }
        is_ascii_chars_encode_utf8(chars);
        assert(buf@ =~= encode_utf8(chars)) by {
            assert forall|k: int| 0 <= k < buf@.len() implies buf@[k] == chars[k] as u8 by {
                assert(chars[k] == rev@[rev@.len() - 1 - k] as char);
                assert(buf@[k] == rev@[rev@.len() - 1 - k]);
            }
        }
        encode_utf8_valid_utf8(chars);
        encode_utf8_decode_utf8(chars);
    }
    match utf8_to_string(&buf) {
        Some(s) => s,
        None => {
            proof {
                assert(false);
            }
            String::new()
        },
    }
}

/// The connection string for a MySQL endpoint, with the password
/// form-urlencoded so that reserved characters survive.
pub open spec fn mysql_url_of(
    user: Seq<char>,
    password: Seq<char>,
    host: Seq<char>,
    port: u16,
    database: Seq<char>,
) -> Seq<char> {
    "mysql://"@ + user + ":"@ + form_encoded(encode_utf8(password)) + "@"@ + host + ":"@
        + dec_digits(port as nat) + "/"@ + database
}

/// Connection and target parameters of one capture or comparison run,
/// supplied from outside; nothing here is defaulted.
pub struct ConnConfig {
    pub host: String,
    pub port: u16,
    pub user: String,
    pub password: String,
    pub database: String,
}

impl ConnConfig {
    /// Renders the connection string for this configuration.
    pub fn url(&self) -> (r: String)
        ensures
            r@ == mysql_url_of(self.user@, self.password@, self.host@, self.port, self.database@),
    {
        let mut m = "mysql://".to_owned();
        m.append(self.user.as_str());
        m.append(":");
        let enc = form_urlencode(self.password.as_str());
        m.append(enc.as_str());
        m.append("@");
        m.append(self.host.as_str());
        m.append(":");
        let p = u16_decimal(self.port);
        m.append(p.as_str());
        m.append("/");
        m.append(self.database.as_str());
        m
    }
}

} // verus!
