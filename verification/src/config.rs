//! Service configuration, assembled from raw environment values.
//!
//! The surrounding process reads the environment and passes the raw
//! variable values in; the rules — which variables are required, how the
//! listen port is parsed and what it defaults to — live here.

use vstd::prelude::*;
use vstd::string::StrSliceExecFns;
use vstd::string::StringExecFns;

use crate::service::ErrorResponse;

verus! {

/// Listen port used when the environment supplies none, or one that
/// does not parse.
pub const DEFAULT_LISTEN_PORT: u16 = 9616;

/// The service's configuration: the database URL, the listen port, and
/// the geometry provider's address.
#[derive(Debug)]
pub struct Config {
    pub pg_url: String,
    pub listen_port: u16,
    pub map_service_addr: String,
}

/// Every character is a decimal digit.
pub open spec fn all_digits(s: Seq<char>) -> bool {
    forall|i: int| 0 <= i < s.len() ==> 48 <= (#[trigger] s[i]) as u32 <= 57
}

/// The number a digit string denotes.
pub open spec fn digits_val(s: Seq<char>) -> int
    decreases s.len(),
{
    if s.len() == 0 {
        0
    } else {
        digits_val(s.drop_last()) * 10 + ((s.last() as u32) - 48)
    }
}

/// A digit string denotes a nonnegative number.
pub proof fn lemma_digits_val_nonneg(s: Seq<char>)
    requires
        all_digits(s),
    ensures
        digits_val(s) >= 0,
    decreases s.len(),
{
    if s.len() > 0 {
        assert(all_digits(s.drop_last())) by {
            assert(forall|i: int|
                0 <= i < s.drop_last().len() ==> s.drop_last()[i] == #[trigger] s[i]);
        }
        lemma_digits_val_nonneg(s.drop_last());
    }
}

/// Once a digit prefix exceeds the port range, the whole string does.
pub proof fn lemma_digits_val_extend(s: Seq<char>, k: int)
    requires
        0 <= k <= s.len(),
        all_digits(s),
        digits_val(s.take(k)) > 65535,
    ensures
        digits_val(s) > 65535,
    decreases s.len() - k,
{
    if k < s.len() {
        assert(s.take(k + 1).drop_last() =~= s.take(k));
        assert(s.take(k + 1).last() == s[k]);
        lemma_digits_val_extend(s, k + 1);
    } else {
        assert(s.take(k) =~= s);
    }
}

/// How the listen port is read from its raw text: an optional leading
/// `+`, then at least one decimal digit, denoting a number that fits a
/// port.
pub open spec fn parse_port_spec(s: Seq<char>) -> Option<u16> {
    let digits = if s.len() > 0 && s[0] == '+' {
        s.drop_first()
    } else {
        s
    };
    if digits.len() > 0 && all_digits(digits) && digits_val(digits) <= 65535 {
        Some(digits_val(digits) as u16)
    } else {
        None
    }
}

/// Parse a listen port from its raw text.
#[verifier::loop_isolation(false)]
pub fn parse_port(s: &str) -> (r: Option<u16>)
    ensures
        r == parse_port_spec(s@),
{
    let n = s.unicode_len();
    let start: usize = if n > 0 && s.get_char(0) == '+' {
        1
    } else {
        0
    };
    let ghost digits = if s@.len() > 0 && s@[0] == '+' {
        s@.drop_first()
    } else {
        s@
    };
    proof {
        assert(digits =~= s@.skip(start as int));
    }
    if start >= n {
        return None;
    }
    let mut acc: u32 = 0;
    let mut i: usize = start;
    while i < n
        invariant
            start <= i <= n,
            acc <= 65535,
            forall|k: int| 0 <= k < i - start ==> 48 <= (#[trigger] digits[k]) as u32 <= 57,
            acc as int == digits_val(digits.take(i - start)),
        decreases n - i,
    {
        let c = s.get_char(i);
        let d = c as u32;
        if d < 48 || d > 57 {
            proof {
                assert(!all_digits(digits)) by {
                    assert(digits[i - start] == s@[i as int]);
                }
            }
            return None;
        }
        proof {
            assert(digits.take(i - start + 1).drop_last() =~= digits.take(i - start));
            assert(digits.take(i - start + 1).last() == digits[i - start]);
            assert(digits[i - start] == s@[i as int]);
        }
        let next: u32 = acc * 10 + (d - 48);
        if next > 65535 {
            proof {
                if all_digits(digits) {
                    lemma_digits_val_extend(digits, i - start + 1);
                }
            }
            return None;
        }
        acc = next;
        i = i + 1;
    }
    proof {
        assert(digits.take(n - start) =~= digits);
    }
    Some(acc as u16)
}

/// The listen port the configuration ends up with for a raw
/// environment value: the parsed port, or the default when the value is
/// missing or does not parse.
pub open spec fn effective_port(raw: Option<String>) -> u16 {
    match raw {
        Some(s) => match parse_port_spec(s@) {
            Some(p) => p,
            None => DEFAULT_LISTEN_PORT,
        },
        None => DEFAULT_LISTEN_PORT,
    }
}

impl Config {
    /// Assemble the configuration from raw environment values.  The
    /// database URL and the geometry provider address are required; the
    /// listen port falls back to the default.
    pub fn env(
        pg_url: Option<String>,
        map_service_addr: Option<String>,
        listen_port: Option<String>,
    ) -> (r: Result<Config, ErrorResponse>)
        ensures
            match r {
                Ok(c) => {
                    &&& pg_url is Some
                    &&& map_service_addr is Some
                    &&& c.pg_url@ == pg_url->Some_0@
                    &&& c.map_service_addr@ == map_service_addr->Some_0@
                    &&& c.listen_port == effective_port(listen_port)
                },
                Err(e) => {
                    &&& (pg_url is None || map_service_addr is None)
                    &&& (pg_url is None ==> e.message@ == "PG_URL not set"@)
                    &&& (pg_url is Some ==> e.message@ == "MAP_SERVICE_ADDR not set"@)
                },
            },
    {
        let pg = match pg_url {
            Some(p) => p,
            None => {
                return Err(ErrorResponse::new(String::from_str("PG_URL not set")));
            },
        };
        let map_addr = match map_service_addr {
            Some(a) => a,
            None => {
                return Err(ErrorResponse::new(String::from_str("MAP_SERVICE_ADDR not set")));
            },
        };
        let port: u16 = match listen_port {
            Some(raw) => match parse_port(raw.as_str()) {
                Some(p) => p,
                None => DEFAULT_LISTEN_PORT,
            },
            None => DEFAULT_LISTEN_PORT,
        };
        Ok(Config { pg_url: pg, listen_port: port, map_service_addr: map_addr })
    }
}

} // verus!
