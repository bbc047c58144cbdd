//! Decimal integer and dotted-quad IPv4 parsing for the lease-record fields.
use vstd::prelude::*;
use crate::text::{split_on, split_str};

verus! {

pub open spec fn is_digit_char(c: char) -> bool {
    '0' <= c && c <= '9'
}

pub open spec fn digit_val(c: char) -> int {
    c as int - '0' as int
}

pub open spec fn all_digits(s: Seq<char>) -> bool {
    forall|k: int| 0 <= k < s.len() ==> is_digit_char(s[k])
}

/// A non-empty, all-digit string: the textual form of an unsigned integer.
pub open spec fn is_dec(s: Seq<char>) -> bool {
    s.len() > 0 && all_digits(s)
}

/// The value of a digit string read in base ten.
pub open spec fn dec_val(s: Seq<char>) -> int
    decreases s.len(),
{
    if s.len() == 0 {
        0
    } else {
        dec_val(s.drop_last()) * 10 + digit_val(s[s.len() - 1])
    }
}

pub proof fn lemma_dec_val_nonneg(s: Seq<char>)
    requires
        all_digits(s),
    ensures
        dec_val(s) >= 0,
    decreases s.len(),
{
    if s.len() > 0 {
        assert(all_digits(s.drop_last())) by {
            assert(forall|k: int|
                0 <= k < s.drop_last().len() ==> s.drop_last()[k] == s[k]);
        }
        lemma_dec_val_nonneg(s.drop_last());
    }
}

/// Extending a digit string to the right can only increase its value.
pub proof fn lemma_dec_val_take_le(s: Seq<char>, i: int)
    requires
        all_digits(s),
        0 <= i <= s.len(),
    ensures
        dec_val(s.take(i)) <= dec_val(s),
    decreases s.len() - i,
{
    if i < s.len() {
        let t = s.take(i + 1);
        assert(t.drop_last() =~= s.take(i));
        assert(all_digits(s.take(i))) by {
            assert(forall|k: int| 0 <= k < i ==> s.take(i)[k] == s[k]);
        }
        lemma_dec_val_nonneg(s.take(i));
        assert(dec_val(t) == dec_val(s.take(i)) * 10 + digit_val(s[i]));
        lemma_dec_val_take_le(s, i + 1);
    } else {
        assert(s.take(i) =~= s);
    }
}

/// The unsigned 64-bit integer denoted by `s`, if it is one.
pub open spec fn dec_u64(s: Seq<char>) -> Option<u64> {
    if is_dec(s) && dec_val(s) <= u64::MAX {
        Some(dec_val(s) as u64)
    } else {
        None
    }
}

/// The unsigned 32-bit integer denoted by `s`, if it is one.
pub open spec fn dec_u32(s: Seq<char>) -> Option<u32> {
    if is_dec(s) && dec_val(s) <= u32::MAX {
        Some(dec_val(s) as u32)
    } else {
        None
    }
}

/// The signed 64-bit integer denoted by `s`: an optional leading minus sign
/// followed by digits, with a magnitude of at most `i64::MAX`.
pub open spec fn dec_i64(s: Seq<char>) -> Option<i64> {
    if s.len() > 0 && s[0] == '-' {
        let m = s.drop_first();
        if is_dec(m) && dec_val(m) <= i64::MAX {
            Some((-dec_val(m)) as i64)
        } else {
            None
        }
    } else {
        if is_dec(s) && dec_val(s) <= i64::MAX {
            Some(dec_val(s) as i64)
        } else {
            None
        }
    }
}

pub fn parse_u64_str(s: &str) -> (r: Option<u64>)
    ensures
        r == dec_u64(s@),
{
    let n = s.unicode_len();
    if n == 0 {
        return None;
    }
    let mut acc: u64 = 0;
    let mut i: usize = 0;
    proof {
        assert(s@.take(0) =~= Seq::<char>::empty());
    }
    while i < n
        invariant
            i <= n,
            n == s@.len(),
            all_digits(s@.take(i as int)),
            acc == dec_val(s@.take(i as int)),
        decreases n - i,
    {
        let c = s.get_char(i);
        if c < '0' || c > '9' {
            proof {
                assert(!is_digit_char(s@[i as int]));
            }
            return None;
        }
        let d: u64 = (c as u32 - '0' as u32) as u64;
        proof {
            assert(s@.take(i + 1).drop_last() =~= s@.take(i as int));
            assert(s@.take(i + 1)[i as int] == s@[i as int]);
            assert(all_digits(s@.take(i + 1)));
            assert(d == digit_val(s@[i as int]));
            assert(dec_val(s@.take(i + 1)) == acc * 10 + d);
        }
        if acc > (u64::MAX - d) / 10 {
            proof {
                assert(acc * 10 + d > u64::MAX) by (nonlinear_arith)
                    requires
                        acc > (u64::MAX - d) / 10,
                        d <= 9,
                {}
                if all_digits(s@) {
                    lemma_dec_val_take_le(s@, i + 1);
                    assert(dec_val(s@) > u64::MAX);
                }
            }
            return None;
        }
        proof {
            assert(acc * 10 + d <= u64::MAX) by (nonlinear_arith)
                requires
                    acc <= (u64::MAX - d) / 10,
                    d <= 9,
                    acc >= 0,
            {}
        }
        acc = acc * 10 + d;
        i += 1;
    }
    proof {
        assert(s@.take(n as int) =~= s@);
    }
    Some(acc)
}

pub fn parse_u32_str(s: &str) -> (r: Option<u32>)
    ensures
        r == dec_u32(s@),
{
    match parse_u64_str(s) {
        None => {
            proof {
                if is_dec(s@) && dec_val(s@) <= u32::MAX {
                    assert(dec_val(s@) <= u64::MAX);
                    assert(dec_u64(s@) is Some);
                }
            }
            None
        },
        Some(v) => {
            proof {
                lemma_dec_val_nonneg(s@);
            }
            if v <= 0xffff_ffff {
                Some(v as u32)
            } else {
                None
            }
        },
    }
}

pub fn parse_i64_str(s: &str) -> (r: Option<i64>)
    ensures
        r == dec_i64(s@),
{
    let n = s.unicode_len();
    if n > 0 && s.get_char(0) == '-' {
        let m = s.substring_char(1, n);
        proof {
            assert(m@ =~= s@.drop_first());
        }
        match parse_u64_str(m) {
            None => None,
            Some(v) => {
                proof {
                    lemma_dec_val_nonneg(m@);
                }
                if v <= i64::MAX as u64 {
                    Some(-(v as i64))
                } else {
                    None
                }
            },
        }
    } else {
        match parse_u64_str(s) {
            None => None,
            Some(v) => {
                proof {
                    lemma_dec_val_nonneg(s@);
                }
                if v <= i64::MAX as u64 {
                    Some(v as i64)
                } else {
                    None
                }
            },
        }
    }
}

/// One octet of a dotted-quad address: digits, at most 255, and no leading
/// zero (matching the strict form `0` | `1..255` with no padding).
pub open spec fn ipv4_part_ok(p: Seq<char>) -> bool {
    is_dec(p) && dec_val(p) <= 255 && (p.len() <= 1 || p[0] != '0')
}

/// Whether `s` is a well-formed dotted-quad IPv4 address.
pub open spec fn ipv4_ok(s: Seq<char>) -> bool {
    let ps = split_on(s, '.');
    ps.len() == 4 && ipv4_part_ok(ps[0]) && ipv4_part_ok(ps[1]) && ipv4_part_ok(ps[2])
        && ipv4_part_ok(ps[3])
}

/// The numeric value of a well-formed dotted-quad address, most significant
/// octet first.
pub open spec fn ipv4_val(s: Seq<char>) -> int {
    let ps = split_on(s, '.');
    dec_val(ps[0]) * 0x1000000 + dec_val(ps[1]) * 0x10000 + dec_val(ps[2]) * 0x100 + dec_val(
        ps[3],
    )
}

/// The address denoted by `s`, as a 32-bit value, if `s` is well formed.
pub open spec fn parse_ipv4_spec(s: Seq<char>) -> Option<u32> {
    if ipv4_ok(s) {
        Some(ipv4_val(s) as u32)
    } else {
        None
    }
}

fn ipv4_part(p: &str) -> (r: Option<u32>)
    ensures
        r matches Some(v) ==> ipv4_part_ok(p@) && v == dec_val(p@),
        r is None ==> !ipv4_part_ok(p@),
{
    match parse_u32_str(p) {
        None => None,
        Some(v) => {
            proof {
                lemma_dec_val_nonneg(p@);
            }
            if v > 255 {
                None
            } else if p.unicode_len() > 1 && p.get_char(0) == '0' {
                None
            } else {
                Some(v)
            }
        },
    }
}

pub fn parse_ipv4_str(s: &str) -> (r: Option<u32>)
    ensures
        r == parse_ipv4_spec(s@),
{
    let parts = split_str(s, '.');
    proof {
        assert(parts.deep_view().len() == parts@.len());
    }
    if parts.len() != 4 {
        return None;
    }
    proof {
        assert(parts.deep_view()[0] == parts@[0]@);
        assert(parts.deep_view()[1] == parts@[1]@);
        assert(parts.deep_view()[2] == parts@[2]@);
        assert(parts.deep_view()[3] == parts@[3]@);
    }
    let a = match ipv4_part(parts[0].as_str()) {
        Some(v) => v,
        None => {
            return None;
        },
    };
    let b = match ipv4_part(parts[1].as_str()) {
        Some(v) => v,
        None => {
            return None;
        },
    };
    let c = match ipv4_part(parts[2].as_str()) {
        Some(v) => v,
        None => {
            return None;
        },
    };
    let d = match ipv4_part(parts[3].as_str()) {
        Some(v) => v,
        None => {
            return None;
        },
    };
    Some(a * 0x1000000 + b * 0x10000 + c * 0x100 + d)
}

} // verus!

