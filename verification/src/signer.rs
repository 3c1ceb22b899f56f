//! The archive signer: rebuilds a trimmed single-entry tar fragment around
//! the located signature, compresses it, and puts it in front of the raw
//! index bytes. Reading the index file and writing the artifact stay with
//! the caller; this module produces the exact bytes.
//!
//! The artifact is byte-reproducible: equal name, signature, timestamp and
//! index give equal bytes on every machine. Its deflate stream is this
//! compressor's own, though, so the bytes are not identical to what another
//! gzip implementation would emit for the same fragment.

use vstd::prelude::*;
use crate::archive::{
    EntryModel, fragment_bytes, valid_entry_name, fits_octal11, parse_entries, build_fragment,
    lemma_parse_fragment,
};
use crate::bytes::{starts_with, copy_range};
use crate::errors::{Error, Op};
use crate::gzip::{gzip_of, gunzip_first, gzip_compress};
use crate::locator::{sign_marker, find_sign, is_sign_entry_name};
use crate::utf8::is_utf8;
use crate::octal::{pow8, lemma_pow8_values};
use vstd::arithmetic::div_mod::lemma_fundamental_div_mod;

verus! {

pub open spec fn is_dec_digit(b: u8) -> bool {
    48 <= b <= 57
}

/// Value of the `n`-digit decimal numeral `s[0..n]`.
pub open spec fn dec_value(s: Seq<u8>, n: int) -> int
    decreases n,
{
    if n <= 0 {
        0
    } else {
        10 * dec_value(s, n - 1) + (s[n - 1] - 48)
    }
}

/// The digit part of a timestamp string: everything after an optional sign.
pub open spec fn sde_digits(s: Seq<u8>) -> Seq<u8> {
    if s.len() > 0 && (s[0] == 43u8 || s[0] == 45u8) {
        s.skip(1)
    } else {
        s
    }
}

pub open spec fn all_dec_digits(d: Seq<u8>) -> bool {
    forall|i: int| 0 <= i < d.len() ==> is_dec_digit(#[trigger] d[i])
}

/// The meaning of a reproducibility timestamp string, read the way a signed
/// 64-bit integer is parsed: an optional sign, then at least one decimal
/// digit, and the value within the 64-bit range; anything else means none.
pub open spec fn sde_of(s: Seq<u8>) -> Option<int> {
    let neg = s.len() > 0 && s[0] == 45u8;
    let digits = sde_digits(s);
    if digits.len() >= 1 && all_dec_digits(digits) {
        let v = dec_value(digits, digits.len() as int);
        if neg && v <= 9223372036854775808 {
            Some(-v)
        } else if !neg && v <= 9223372036854775807 {
            Some(v)
        } else {
            None
        }
    } else {
        None
    }
}

/// Once a decimal numeral has outgrown a bound, more digits keep it there.
proof fn lemma_dec_value_grows(s: Seq<u8>, k: int, n: int, bb: int)
    requires
        6 <= bb,
        dec_value(s, k) > bb,
        k <= n,
    ensures
        dec_value(s, n) > bb,
    decreases n - k,
{
    if k < n {
        assert(dec_value(s, k + 1) == 10 * dec_value(s, k) + (s[k] - 48));
        assert(10 * dec_value(s, k) - 48 > bb) by (nonlinear_arith)
            requires
                dec_value(s, k) > bb,
                bb >= 6,
        ;
        lemma_dec_value_grows(s, k + 1, n, bb);
    }
}

/// Parse the optional reproducibility timestamp, as the environment hands
/// it over.
#[verifier::loop_isolation(false)]
pub fn parse_source_date_epoch(s: &Vec<u8>) -> (r: Option<i64>)
    ensures
        match sde_of(s@) {
            Some(v) => r matches Some(t) && t as int == v,
            None => r is None,
        },
{
    let n = s.len();
    let mut start: usize = 0;
    let mut neg = false;
    if n > 0 && (s[0] == 43 || s[0] == 45) {
        neg = s[0] == 45;
        start = 1;
    }
    let ghost digits = s@.skip(start as int);
    proof {
        if start == 0 {
            assert(s@.skip(0) =~= s@);
        }
    }
    if n == start {
        return None;
    }
    let bound: u64 = if neg {
        9223372036854775808
    } else {
        9223372036854775807
    };
    let mut acc: u64 = 0;
    let mut i: usize = start;
    while i < n
        invariant
            start <= i <= n,
            start <= 1,
            n == s@.len(),
            n > start,
            digits == s@.skip(start as int),
            digits.len() == n - start,
            bound == (if neg {
                9223372036854775808u64
            } else {
                9223372036854775807u64
            }),
            forall|j: int| 0 <= j < i - start ==> is_dec_digit(#[trigger] digits[j]),
            acc as int == dec_value(digits, i - start),
            acc <= bound,
        decreases n - i,
    {
        let b = s[i];
        proof {
            assert(digits[i - start] == s@[i as int]);
        }
        if b < 48 || b > 57 {
            proof {
                assert(sde_digits(s@) == digits);
                assert(!all_dec_digits(digits)) by {
                    assert(0 <= i - start < digits.len());
                    assert(!is_dec_digit(digits[i - start]));
                }
                assert(sde_of(s@) is None);
            }
            return None;
        }
        let d = (b - 48) as u64;
        proof {
            lemma_fundamental_div_mod(bound - d, 10);
        }
        if acc > (bound - d) / 10 {
            proof {
                assert(sde_digits(s@) == digits);
                assert(10 * (acc as int) + d > bound);
                assert(dec_value(digits, i - start + 1) == 10 * dec_value(digits, i - start) + (
                digits[i - start] - 48));
                lemma_dec_value_grows(digits, i - start + 1, digits.len() as int, bound as int);
                assert(sde_of(s@) is None);
            }
            return None;
        }
        acc = acc * 10 + d;
        i = i + 1;
    }
    proof {
        assert(sde_digits(s@) == digits);
        assert(all_dec_digits(digits));
        assert(acc as int == dec_value(digits, digits.len() as int));
    }
    if neg {
        if acc == 9223372036854775808u64 {
            Some(i64::MIN)
        } else {
            Some(-(acc as i64))
        }
    } else {
        Some(acc as i64)
    }
}

/// The modification time the fragment gets: the reproducibility timestamp
/// where one is set, else the clock value handed in. A set timestamp that
/// the eleven-digit octal header field cannot hold (negative or too large)
/// is an error, never a silent fallback: the run could not be reproduced.
pub open spec fn mtime_choice(sde: Option<i64>, fallback: u64) -> Result<u64, Error> {
    match sde {
        Some(t) => if 0 <= t < pow8(11) {
            Ok(t as u64)
        } else {
            Err(Error::Format(Op::Timestamp))
        },
        None => Ok(fallback),
    }
}

pub fn resolve_mtime(sde: Option<i64>, fallback: u64) -> (r: Result<u64, Error>)
    ensures
        r == mtime_choice(sde, fallback),
{
    proof {
        lemma_pow8_values();
    }
    match sde {
        Some(t) => if 0 <= t && t < 0x200000000i64 {
            Ok(t as u64)
        } else {
            Err(Error::Format(Op::Timestamp))
        },
        None => Ok(fallback),
    }
}

/// The complete signed artifact for one run: the compressed fragment,
/// then the raw index bytes, as one byte string.
pub open spec fn signed_index_bytes(
    sig_name: Seq<u8>,
    sig: Seq<u8>,
    mtime: int,
    index: Seq<u8>,
) -> Seq<u8> {
    gzip_of(fragment_bytes(sig_name, sig, mtime)) + index
}

/// Build the signed index: materialize the signature as a trimmed
/// single-entry tar fragment with its modification time pinned to `mtime`,
/// compress it, and append the raw index bytes.
pub fn build_signed_index(sig_name: &Vec<u8>, sig: &Vec<u8>, mtime: u64, index: &Vec<u8>) -> (r:
    Result<Vec<u8>, Error>)
    ensures
        r is Ok <==> valid_entry_name(sig_name@) && fits_octal11(sig@.len() as int) && fits_octal11(
            mtime as int,
        ),
        r matches Ok(out) ==> out@ == signed_index_bytes(sig_name@, sig@, mtime as int, index@),
        r matches Ok(out) ==> gunzip_first(out@) == Some(
            fragment_bytes(sig_name@, sig@, mtime as int),
        ),
        !valid_entry_name(sig_name@) ==> r == Err::<Vec<u8>, Error>(Error::Path(Op::EntryName)),
        valid_entry_name(sig_name@) && !fits_octal11(sig@.len() as int) ==> r == Err::<
            Vec<u8>,
            Error,
        >(Error::Format(Op::Signature)),
        valid_entry_name(sig_name@) && fits_octal11(sig@.len() as int) && !fits_octal11(
            mtime as int,
        ) ==> r == Err::<Vec<u8>, Error>(Error::Format(Op::Timestamp)),
{
    let frag = match build_fragment(sig_name, sig, mtime) {
        Err(e) => {
            return Err(e);
        },
        Ok(f) => f,
    };
    let mut out = gzip_compress(&frag);
    let mut idx = copy_range(index, 0, index.len());
    out.append(&mut idx);
    proof {
        assert(index@.subrange(0, index@.len() as int) =~= index@);
    }
    Ok(out)
}

/// Extract-then-resign round trip: scanning the fragment built for a
/// marker-named signature yields exactly that signature entry back, and the
/// scan picks it, so rebuilding from the extracted entry reproduces the same
/// fragment bytes and, the compressor being a function, the same
/// signature-bearing prefix.
pub proof fn lemma_extract_resign_round_trip(name: Seq<u8>, sig: Seq<u8>, mtime: int)
    requires
        valid_entry_name(name),
        is_utf8(name),
        starts_with(name, sign_marker()),
        fits_octal11(sig.len() as int),
        fits_octal11(mtime),
    ensures
        parse_entries(fragment_bytes(name, sig, mtime)) == Some(
            seq![EntryModel { name, data: sig, mtime }],
        ),
        find_sign(seq![EntryModel { name, data: sig, mtime }]) == Some(
            EntryModel { name, data: sig, mtime },
        ),
{
    lemma_parse_fragment(name, sig, mtime);
    let e = EntryModel { name, data: sig, mtime };
    assert(seq![e][0] == e);
    assert(is_sign_entry_name(seq![e][0].name));
}

} // verus!
