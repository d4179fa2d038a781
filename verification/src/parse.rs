//! Input record parsing.
//!
//! One record per line: an address-or-range token, then an optional
//! weight token, with fields separated by commas or whitespace.  The
//! address token is a dotted-quad literal, a bare unsigned decimal equal
//! to the address's numeric value, or an `address/prefix` range literal.
//! A malformed range token only skips its line; a malformed plain token
//! is fatal to the whole run.

use vstd::prelude::*;

verus! {

use vstd::arithmetic::power2::{pow2, lemma_pow2_adds, lemma_pow2_strictly_increases, lemma2_to64};
use vstd::slice::slice_subrange;

/// Record fields are separated by commas or whitespace.
pub open spec fn is_separator(b: u8) -> bool {
    b == 32 || b == 9 || b == 13 || b == 44
}

/// Decimal digits.
pub open spec fn is_digit(b: u8) -> bool {
    48 <= b <= 57
}

/// The numeric value of one digit.
pub open spec fn digit_val(b: u8) -> int {
    b - 48
}

/// Whether a token consists of digits only.
pub open spec fn all_digits(s: Seq<u8>) -> bool {
    forall|i: int| 0 <= i < s.len() ==> is_digit(#[trigger] s[i])
}

/// The value of a digit string, most significant digit first.
pub open spec fn dec_val(s: Seq<u8>) -> int
    decreases s.len(),
{
    if s.len() == 0 {
        0
    } else {
        dec_val(s.drop_last()) * 10 + digit_val(s.last())
    }
}

/// Digit strings have non-negative values.
pub proof fn lemma_dec_val_nonneg(s: Seq<u8>)
    requires
        all_digits(s),
    ensures
        dec_val(s) >= 0,
    decreases s.len(),
{
    if s.len() > 0 {
        assert(all_digits(s.drop_last()));
        lemma_dec_val_nonneg(s.drop_last());
    }
}

/// Extending a digit string never shrinks its value: the value of any
/// prefix is a lower bound for the whole.
pub proof fn lemma_dec_val_prefix_le(s: Seq<u8>, i: int)
    requires
        all_digits(s),
        0 <= i <= s.len(),
    ensures
        dec_val(s.take(i)) <= dec_val(s),
    decreases s.len() - i,
{
    if i < s.len() {
        assert(all_digits(s.take(i)));
        lemma_dec_val_nonneg(s.take(i));
        assert(s.take(i + 1).drop_last() =~= s.take(i));
        assert(dec_val(s.take(i + 1)) == dec_val(s.take(i)) * 10 + digit_val(s[i]));
        lemma_dec_val_prefix_le(s, i + 1);
    } else {
        assert(s.take(i) =~= s);
    }
}

/// Reads a digit string bounded by `limit`; `None` when the slice range
/// is empty, holds a non-digit, or its value exceeds the limit.
fn parse_digits_capped(s: &[u8], start: usize, end: usize, limit: u64) -> (r: Option<u64>)
    requires
        start <= end <= s@.len(),
        limit <= 0xffff_ffff,
    ensures
        ({
            let t = s@.subrange(start as int, end as int);
            match r {
                Some(v) => t.len() > 0 && all_digits(t) && dec_val(t) == v && v <= limit,
                None => t.len() == 0 || !all_digits(t) || dec_val(t) > limit,
            }
        }),
{
    let ghost t = s@.subrange(start as int, end as int);
    if start == end {
        return None;
    }
    let mut acc: u64 = 0;
    let mut i: usize = start;
    while i < end
        invariant
            start <= i <= end <= s@.len(),
            t == s@.subrange(start as int, end as int),
            all_digits(t.take(i - start)),
            acc == dec_val(t.take(i - start)),
            acc <= limit,
            limit <= 0xffff_ffff,
        decreases end - i,
    {
        let b: u8 = s[i];
        if b < 48 || b > 57 {
            proof {
                assert(t[i - start] == b);
                assert(!all_digits(t));
            }
            return None;
        }
        let d: u64 = (b - 48) as u64;
        let next: u64 = acc * 10 + d;
        proof {
            assert(t.take(i + 1 - start).drop_last() =~= t.take(i - start));
            assert(t.take(i + 1 - start).last() == t[i - start]);
        }
        if next > limit {
            proof {
                let ghost j = i + 1 - start;
                assert(all_digits(t.take(j)));
                assert(dec_val(t.take(j)) == next);
                if all_digits(t) {
                    lemma_dec_val_prefix_le(t, j);
                }
            }
            return None;
        }
        acc = next;
        i = i + 1;
    }
    proof {
        assert(t.take(end - start) =~= t);
    }
    Some(acc)
}

/// The value of a bare decimal address token, exactly when the token is
/// non-empty, all digits, and fits an address.
pub open spec fn u32_token_value(s: Seq<u8>) -> Option<u32> {
    if s.len() > 0 && all_digits(s) && dec_val(s) <= u32::MAX {
        Some(dec_val(s) as u32)
    } else {
        None
    }
}

/// Parses a bare decimal address token.
pub fn parse_u32_token(s: &[u8]) -> (r: Option<u32>)
    ensures
        r == u32_token_value(s@),
{
    proof {
        assert(s@.subrange(0, s@.len() as int) =~= s@);
    }
    match parse_digits_capped(s, 0, s.len(), 0xffff_ffff) {
        Some(v) => Some(v as u32),
        None => None,
    }
}

/// The value of a weight token: an optionally signed decimal fitting a
/// 32-bit signed integer.
pub open spec fn i32_token_value(s: Seq<u8>) -> Option<i32> {
    if s.len() == 0 {
        None
    } else if s[0] == 45 {
        let mag = s.subrange(1, s.len() as int);
        if mag.len() > 0 && all_digits(mag) && dec_val(mag) <= 0x8000_0000 {
            Some((-dec_val(mag)) as i32)
        } else {
            None
        }
    } else if s[0] == 43 {
        let mag = s.subrange(1, s.len() as int);
        if mag.len() > 0 && all_digits(mag) && dec_val(mag) <= i32::MAX {
            Some(dec_val(mag) as i32)
        } else {
            None
        }
    } else {
        if all_digits(s) && dec_val(s) <= i32::MAX {
            Some(dec_val(s) as i32)
        } else {
            None
        }
    }
}

/// A weight that fails to parse falls back to one.
pub open spec fn weight_value(s: Seq<u8>) -> int {
    match i32_token_value(s) {
        Some(v) => v as int,
        None => 1,
    }
}

/// Parses a weight token, falling back to one.
pub fn parse_weight(s: &[u8]) -> (r: i32)
    ensures
        r == weight_value(s@),
{
    if s.len() == 0 {
        return 1;
    }
    let b0: u8 = s[0];
    if b0 == 45 {
        match parse_digits_capped(s, 1, s.len(), 0x8000_0000) {
            Some(v) => (-(v as i64)) as i32,
            None => 1,
        }
    } else if b0 == 43 {
        match parse_digits_capped(s, 1, s.len(), 0x7fff_ffff) {
            Some(v) => v as i32,
            None => 1,
        }
    } else {
        proof {
            assert(s@.subrange(0, s@.len() as int) =~= s@);
        }
        match parse_digits_capped(s, 0, s.len(), 0x7fff_ffff) {
            Some(v) => v as i32,
            None => 1,
        }
    }
}

/// One octet of a dotted quad: one to three digits, no leading zero,
/// value at most 255.
pub open spec fn is_octet(s: Seq<u8>) -> bool {
    &&& 1 <= s.len() <= 3
    &&& all_digits(s)
    &&& dec_val(s) <= 255
    &&& (s.len() > 1 ==> s[0] != 48)
}

/// A decomposition of a token into four octets at dot positions
/// `i < j < k`.
pub open spec fn is_dotted_quad(s: Seq<u8>, i: int, j: int, k: int) -> bool {
    &&& 0 <= i < j < k < s.len()
    &&& s[i] == 46 && s[j] == 46 && s[k] == 46
    &&& is_octet(s.subrange(0, i))
    &&& is_octet(s.subrange(i + 1, j))
    &&& is_octet(s.subrange(j + 1, k))
    &&& is_octet(s.subrange(k + 1, s.len() as int))
}

/// The address a decomposition denotes, octets most significant first.
pub open spec fn quad_value(s: Seq<u8>, i: int, j: int, k: int) -> int {
    dec_val(s.subrange(0, i)) * 0x100_0000 + dec_val(s.subrange(i + 1, j)) * 0x1_0000 + dec_val(
        s.subrange(j + 1, k),
    ) * 0x100 + dec_val(s.subrange(k + 1, s.len() as int))
}

/// Every byte of a decomposed token is a dot or a digit.
proof fn lemma_quad_chars(s: Seq<u8>, i: int, j: int, k: int, t: int)
    requires
        is_dotted_quad(s, i, j, k),
        0 <= t < s.len(),
    ensures
        s[t] == 46 || is_digit(s[t]),
{
    if t != i && t != j && t != k {
        if t < i {
            assert(s.subrange(0, i)[t] == s[t]);
        } else if t < j {
            assert(s.subrange(i + 1, j)[t - (i + 1)] == s[t]);
        } else if t < k {
            assert(s.subrange(j + 1, k)[t - (j + 1)] == s[t]);
        } else {
            assert(s.subrange(k + 1, s.len() as int)[t - (k + 1)] == s[t]);
        }
    }
}

/// A token decomposes into four octets in at most one way: the dots of
/// the decomposition are forced to be the token's dots, in order.
proof fn lemma_dotted_quad_unique(s: Seq<u8>, i1: int, j1: int, k1: int, i2: int, j2: int, k2: int)
    requires
        is_dotted_quad(s, i1, j1, k1),
        is_dotted_quad(s, i2, j2, k2),
    ensures
        i1 == i2 && j1 == j2 && k1 == k2,
{
    if i1 < i2 {
        assert(s.subrange(0, i2)[i1] == s[i1]);
    }
    if i2 < i1 {
        assert(s.subrange(0, i1)[i2] == s[i2]);
    }
    assert(i1 == i2);
    if j1 < j2 {
        assert(s.subrange(i2 + 1, j2)[j1 - (i2 + 1)] == s[j1]);
    }
    if j2 < j1 {
        assert(s.subrange(i1 + 1, j1)[j2 - (i1 + 1)] == s[j2]);
    }
    assert(j1 == j2);
    if k1 < k2 {
        assert(s.subrange(j2 + 1, k2)[k1 - (j2 + 1)] == s[k1]);
    }
    if k2 < k1 {
        assert(s.subrange(j1 + 1, k1)[k2 - (j1 + 1)] == s[k2]);
    }
}

/// The address value of a dotted-quad token, when the token is one.
pub open spec fn ipv4_value(s: Seq<u8>) -> Option<u32> {
    if exists|i: int, j: int, k: int| is_dotted_quad(s, i, j, k) {
        let (i, j, k) = choose|i: int, j: int, k: int| is_dotted_quad(s, i, j, k);
        Some(quad_value(s, i, j, k) as u32)
    } else {
        None
    }
}

/// Reads one octet out of a token; exact against `is_octet`.
fn parse_octet(s: &[u8], start: usize, end: usize) -> (r: Option<u8>)
    requires
        start <= end <= s@.len(),
    ensures
        ({
            let t = s@.subrange(start as int, end as int);
            match r {
                Some(v) => is_octet(t) && v == dec_val(t),
                None => !is_octet(t),
            }
        }),
{
    let ghost t = s@.subrange(start as int, end as int);
    if end - start == 0 || end - start > 3 {
        return None;
    }
    if end - start > 1 && s[start] == 48 {
        proof {
            assert(t[0] == 48);
        }
        return None;
    }
    match parse_digits_capped(s, start, end, 255) {
        Some(v) => {
            proof {
                lemma_dec_val_nonneg(t);
            }
            Some(v as u8)
        },
        None => {
            proof {
                if all_digits(t) && dec_val(t) > 255 {
                    assert(!is_octet(t));
                }
            }
            None
        },
    }
}

/// Parses a dotted-quad address token; exact against `ipv4_value`.
pub fn parse_ipv4(s: &[u8]) -> (r: Option<u32>)
    ensures
        r == ipv4_value(s@),
{
    let n: usize = s.len();
    let mut count: usize = 0;
    let mut p1: usize = 0;
    let mut p2: usize = 0;
    let mut p3: usize = 0;
    let mut p4: usize = 0;
    let mut i: usize = 0;
    while i < n
        invariant
            0 <= i <= n == s@.len(),
            count >= 1 ==> p1 < i && s@[p1 as int] == 46 && forall|t: int|
                0 <= t < p1 ==> s@[t] != 46,
            count == 0 ==> forall|t: int| 0 <= t < i ==> s@[t] != 46,
            count >= 2 ==> p1 < p2 < i && s@[p2 as int] == 46 && forall|t: int|
                p1 < t < p2 ==> s@[t] != 46,
            count == 1 ==> forall|t: int| p1 < t < i ==> s@[t] != 46,
            count >= 3 ==> p2 < p3 < i && s@[p3 as int] == 46 && forall|t: int|
                p2 < t < p3 ==> s@[t] != 46,
            count == 2 ==> forall|t: int| p2 < t < i ==> s@[t] != 46,
            count >= 4 ==> p3 < p4 < i && s@[p4 as int] == 46,
            count <= 4,
        decreases n - i,
    {
        if s[i] == 46 {
            if count == 0 {
                p1 = i;
                count = 1;
            } else if count == 1 {
                p2 = i;
                count = 2;
            } else if count == 2 {
                p3 = i;
                count = 3;
            } else if count == 3 {
                p4 = i;
                count = 4;
            }
        }
        i = i + 1;
    }
    if count != 3 {
        proof {
            assert forall|qi: int, qj: int, qk: int| !is_dotted_quad(s@, qi, qj, qk) by {
                if is_dotted_quad(s@, qi, qj, qk) {
                    if count == 0 {
                        assert(s@[qi] != 46);
                    } else {
                        assert(qi == p1) by {
                            if qi < p1 {
                                assert(s@[qi] != 46);
                            }
                            if p1 < qi {
                                assert(s@.subrange(0, qi)[p1 as int] == s@[p1 as int]);
                            }
                        };
                        if count == 1 {
                            assert(s@[qj] != 46);
                        } else {
                            assert(qj == p2) by {
                                if qj < p2 {
                                    assert(s@[qj] != 46);
                                }
                                if p2 < qj {
                                    let v2: u8 = s@[p2 as int];
                                    assert(s@.subrange(qi + 1, qj)[p2 - (qi + 1)] == v2);
                                }
                            };
                            if count == 2 {
                                assert(s@[qk] != 46);
                            } else {
                                // count >= 4: a fourth dot sits past qk,
                                // inside the digits-only last octet.
                                assert(qk == p3) by {
                                    if qk < p3 {
                                        assert(s@[qk] != 46);
                                    }
                                    if p3 < qk {
                                        let v3: u8 = s@[p3 as int];
                                        assert(s@.subrange(qj + 1, qk)[p3 - (qj + 1)] == v3);
                                    }
                                };
                                let v4: u8 = s@[p4 as int];
                                assert(s@.subrange(qk + 1, s@.len() as int)[p4 - (qk + 1)] == v4);
                            }
                        }
                    }
                }
            };
        }
        return None;
    }
    let a: Option<u8> = parse_octet(s, 0, p1);
    let b: Option<u8> = parse_octet(s, p1 + 1, p2);
    let c: Option<u8> = parse_octet(s, p2 + 1, p3);
    let d: Option<u8> = parse_octet(s, p3 + 1, n);
    proof {
        assert forall|qi: int, qj: int, qk: int|
            is_dotted_quad(s@, qi, qj, qk) implies qi == p1 && qj == p2 && qk == p3 by {
            if qi < p1 {
                assert(s@[qi] != 46);
            }
            if p1 < qi {
                assert(s@.subrange(0, qi)[p1 as int] == s@[p1 as int]);
            }
            if qj < p2 {
                assert(s@[qj] != 46);
            }
            if p2 < qj {
                assert(s@.subrange(qi + 1, qj)[p2 - (qi + 1)] == s@[p2 as int]);
            }
            if qk < p3 {
                assert(s@[qk] != 46);
            }
            if p3 < qk {
                assert(s@.subrange(qj + 1, qk)[p3 - (qj + 1)] == s@[p3 as int]);
            }
        };
    }
    match (a, b, c, d) {
        (Some(a), Some(b), Some(c), Some(d)) => {
            proof {
                assert(is_dotted_quad(s@, p1 as int, p2 as int, p3 as int));
            }
            Some(
                (a as u32) * 0x100_0000 + (b as u32) * 0x1_0000 + (c as u32) * 0x100 + (d as u32),
            )
        },
        _ => {
            proof {
                if exists|qi: int, qj: int, qk: int| is_dotted_quad(s@, qi, qj, qk) {
                    let (qi, qj, qk) = choose|qi: int, qj: int, qk: int|
                        is_dotted_quad(s@, qi, qj, qk);
                    assert(qi == p1 && qj == p2 && qk == p3);
                }
            }
            None
        },
    }
}

/// Whether a token holds a slash, marking it as a range literal.
pub open spec fn contains_slash(s: Seq<u8>) -> bool {
    exists|i: int| 0 <= i < s.len() && s[i] == 47
}

/// A valid split of a range token at slash position `q`: a dotted quad
/// before it, a decimal prefix length of at most 32 after it.
pub open spec fn valid_cidr_split(s: Seq<u8>, q: int) -> bool {
    &&& 0 <= q < s.len()
    &&& s[q] == 47
    &&& ipv4_value(s.take(q)) is Some
    &&& ({
        let ps = s.subrange(q + 1, s.len() as int);
        ps.len() > 0 && all_digits(ps) && dec_val(ps) <= 32
    })
}

/// The first address of the block a range literal denotes: the written
/// address with its low `32 - prefix` host bits cleared.
pub open spec fn cidr_first(addr: int, prefix: int) -> int {
    let block = pow2((32 - prefix) as nat) as int;
    (addr / block) * block
}

/// The last address of the block: the first address plus the block size
/// less one.
pub open spec fn cidr_last(addr: int, prefix: int) -> int {
    cidr_first(addr, prefix) + pow2((32 - prefix) as nat) - 1
}

/// A range token splits at a slash in at most one way, because the
/// prefix part may hold digits only.
proof fn lemma_cidr_split_unique(s: Seq<u8>, q1: int, q2: int)
    requires
        valid_cidr_split(s, q1),
        valid_cidr_split(s, q2),
    ensures
        q1 == q2,
{
    if q1 < q2 {
        assert(s.subrange(q1 + 1, s.len() as int)[q2 - (q1 + 1)] == s[q2]);
    }
    if q2 < q1 {
        assert(s.subrange(q2 + 1, s.len() as int)[q1 - (q2 + 1)] == s[q1]);
    }
}

/// The address block a range token denotes, when it is one.
pub open spec fn cidr_range(s: Seq<u8>) -> Option<(u32, u32)> {
    if exists|q: int| valid_cidr_split(s, q) {
        let q = choose|q: int| valid_cidr_split(s, q);
        let addr = ipv4_value(s.take(q))->0 as int;
        let prefix = dec_val(s.subrange(q + 1, s.len() as int));
        Some((cidr_first(addr, prefix) as u32, cidr_last(addr, prefix) as u32))
    } else {
        None
    }
}

/// Parses a range token; exact against `cidr_range`.  A returned block
/// is a well-formed inclusive range.
#[verifier::rlimit(50)]
pub fn parse_cidr(s: &[u8]) -> (r: Option<(u32, u32)>)
    ensures
        r == cidr_range(s@),
        r matches Some(fl) ==> fl.0 <= fl.1,
{
    let n: usize = s.len();
    let mut q: usize = 0;
    while q < n && s[q] != 47
        invariant
            0 <= q <= n == s@.len(),
            forall|t: int| 0 <= t < q ==> s@[t] != 47,
        decreases n - q,
    {
        q = q + 1;
    }
    if q == n {
        proof {
            assert forall|qq: int| !valid_cidr_split(s@, qq) by {
                if 0 <= qq < s@.len() {
                    assert(s@[qq] != 47);
                }
            };
        }
        return None;
    }
    let addr_part: &[u8] = slice_subrange(s, 0, q);
    proof {
        assert(addr_part@ =~= s@.take(q as int));
    }
    let addr: Option<u32> = parse_ipv4(addr_part);
    let prefix: Option<u64> = parse_digits_capped(s, q + 1, n, 32);
    proof {
        assert forall|qq: int| valid_cidr_split(s@, qq) implies qq == q as int by {
            if qq < q {
                assert(s@[qq] != 47);
            }
            if q < qq {
                let (di, dj, dk) = choose|di: int, dj: int, dk: int|
                    is_dotted_quad(s@.take(qq), di, dj, dk);
                lemma_quad_chars(s@.take(qq), di, dj, dk, q as int);
                assert(s@.take(qq)[q as int] == s@[q as int]);
            }
        };
    }
    match (addr, prefix) {
        (Some(addr), Some(prefix)) => {
            proof {
                assert(valid_cidr_split(s@, q as int));
                lemma2_to64();
            }
            let ghost pfx: int = prefix as int;
            let host: u32 = 32 - prefix as u32;
            if host == 32 {
                proof {
                    let blk: int = pow2((32 - pfx) as nat) as int;
                    assert(pfx == 0);
                    assert(blk == 0x1_0000_0000);
                    vstd::arithmetic::div_mod::lemma_basic_div(addr as int, blk);
                    assert((addr as int / blk) * blk == 0) by (nonlinear_arith)
                        requires
                            addr as int / blk == 0,
                    ;
                    assert(cidr_first(addr as int, pfx) == 0);
                    assert(cidr_last(addr as int, pfx) == 0xffff_ffff);
                }
                Some((0u32, 0xffff_ffffu32))
            } else {
                proof {
                    lemma_pow2_strictly_increases(host as nat, 32);
                    vstd::bits::lemma_u32_shl_is_mul(1u32, host);
                }
                let block: u32 = 1u32 << host;
                let quot: u32 = addr / block;
                proof {
                    let bi: int = block as int;
                    let ai: int = addr as int;
                    let p32h: int = pow2((32 - host) as nat) as int;
                    vstd::arithmetic::div_mod::lemma_fundamental_div_mod(ai, bi);
                    vstd::arithmetic::div_mod::lemma_mod_pos_bound(ai, bi);
                    assert((quot as int) * bi <= ai) by (nonlinear_arith)
                        requires
                            ai == bi * (ai / bi) + ai % bi,
                            ai % bi >= 0,
                            quot == ai / bi,
                    ;
                    lemma_pow2_adds(host as nat, (32 - host) as nat);
                    assert(bi * p32h == pow2(32));
                    vstd::arithmetic::div_mod::lemma_multiply_divide_lt(ai, bi, p32h);
                    assert((quot as int + 1) * bi <= pow2(32)) by (nonlinear_arith)
                        requires
                            quot as int + 1 <= p32h,
                            bi >= 0,
                            bi * p32h <= pow2(32),
                    ;
                    assert((quot as int + 1) * bi == (quot as int) * bi + bi)
                        by (nonlinear_arith);
                    assert(cidr_first(ai, pfx) == (quot as int) * bi);
                    assert(cidr_last(ai, pfx) == (quot as int) * bi + bi - 1);
                }
                let first: u32 = quot * block;
                let last: u32 = first + (block - 1);
                Some((first, last))
            }
        },
        _ => {
            proof {
                if exists|qq: int| valid_cidr_split(s@, qq) {
                    let qq = choose|qq: int| valid_cidr_split(s@, qq);
                    assert(qq == q as int);
                }
            }
            None
        },
    }
}

/// The first position at or after `i` that does not hold a separator.
pub open spec fn skip_separators(s: Seq<u8>, i: int) -> int
    decreases s.len() - i,
{
    if i >= s.len() || !is_separator(s[i]) {
        i
    } else {
        skip_separators(s, i + 1)
    }
}

/// The first position at or after `i` that ends a token: a separator or
/// the end of the line.
pub open spec fn token_end(s: Seq<u8>, i: int) -> int
    decreases s.len() - i,
{
    if i >= s.len() || is_separator(s[i]) {
        i
    } else {
        token_end(s, i + 1)
    }
}

/// Scans past separators.
pub fn scan_separators(s: &[u8], from: usize) -> (r: usize)
    requires
        from <= s@.len(),
    ensures
        r == skip_separators(s@, from as int),
        from <= r <= s@.len(),
{
    let mut i: usize = from;
    while i < s.len() && (s[i] == 32 || s[i] == 9 || s[i] == 13 || s[i] == 44)
        invariant
            from <= i <= s@.len(),
            skip_separators(s@, from as int) == skip_separators(s@, i as int),
        decreases s@.len() - i,
    {
        i = i + 1;
    }
    i
}

/// Scans to the end of the token starting at `from`.
pub fn scan_token(s: &[u8], from: usize) -> (r: usize)
    requires
        from <= s@.len(),
    ensures
        r == token_end(s@, from as int),
        from <= r <= s@.len(),
{
    let mut i: usize = from;
    while i < s.len() && !(s[i] == 32 || s[i] == 9 || s[i] == 13 || s[i] == 44)
        invariant
            from <= i <= s@.len(),
            token_end(s@, from as int) == token_end(s@, i as int),
        decreases s@.len() - i,
    {
        i = i + 1;
    }
    i
}

/// One parsed input record.
#[derive(Clone, Copy, Debug, PartialEq, Eq, Structural)]
pub enum Record {
    /// A line with no fields: ignored.
    Blank,
    /// A single address with its weight.
    Single { addr: u32, value: i32 },
    /// A contiguous inclusive address block with its weight.
    Range { first: u32, last: u32, value: i32 },
    /// A malformed range token: the line is skipped with a warning.
    SkippedRange,
    /// A malformed plain address token: fatal to the whole run.
    BadAddress,
}

/// The weight carried by whatever follows position `b` on the line: the
/// next token parsed as a signed integer, or one when it is missing or
/// unparsable.
pub open spec fn record_weight(line: Seq<u8>, b: int) -> i32 {
    let c = skip_separators(line, b);
    if c >= line.len() {
        1
    } else {
        match i32_token_value(line.subrange(c, token_end(line, c))) {
            Some(v) => v,
            None => 1,
        }
    }
}

/// The line's first token, reported with a fatal parse error.
pub open spec fn first_token(line: Seq<u8>) -> Seq<u8> {
    let a = skip_separators(line, 0);
    line.subrange(a, token_end(line, a))
}

/// What one line means: nothing, an address, a block, a skipped line, or
/// a fatal error.  A token with a slash is a range literal; a token of
/// digits only is a bare numeric address; anything else must be a dotted
/// quad.
pub open spec fn parse_record_spec(line: Seq<u8>) -> Record {
    let a = skip_separators(line, 0);
    if a >= line.len() {
        Record::Blank
    } else {
        let b = token_end(line, a);
        let tok = line.subrange(a, b);
        let w = record_weight(line, b);
        if contains_slash(tok) {
            match cidr_range(tok) {
                Some(fl) => Record::Range { first: fl.0, last: fl.1, value: w },
                None => Record::SkippedRange,
            }
        } else if all_digits(tok) {
            match u32_token_value(tok) {
                Some(addr) => Record::Single { addr, value: w },
                None => Record::BadAddress,
            }
        } else {
            match ipv4_value(tok) {
                Some(addr) => Record::Single { addr, value: w },
                None => Record::BadAddress,
            }
        }
    }
}

/// Parses one line; exact against `parse_record_spec`.  A returned block
/// is a well-formed inclusive range.
pub fn parse_record(line: &[u8]) -> (r: Record)
    ensures
        r == parse_record_spec(line@),
        r matches Record::Range { first, last, value } ==> first <= last,
{
    let a: usize = scan_separators(line, 0);
    if a >= line.len() {
        return Record::Blank;
    }
    let b: usize = scan_token(line, a);
    let tok: &[u8] = slice_subrange(line, a, b);
    let c: usize = scan_separators(line, b);
    let value: i32 = if c >= line.len() {
        1
    } else {
        let d0: usize = scan_token(line, c);
        let wtok: &[u8] = slice_subrange(line, c, d0);
        match parse_digits_or_sign(wtok) {
            Some(v) => v,
            None => 1,
        }
    };
    let mut has_slash: bool = false;
    let mut i: usize = 0;
    while i < tok.len()
        invariant
            0 <= i <= tok@.len(),
            has_slash == exists|t: int| 0 <= t < i && tok@[t] == 47,
        decreases tok@.len() - i,
    {
        if tok[i] == 47 {
            has_slash = true;
        }
        i = i + 1;
    }
    if has_slash {
        match parse_cidr(tok) {
            Some(fl) => Record::Range { first: fl.0, last: fl.1, value },
            None => Record::SkippedRange,
        }
    } else {
        let mut digits_only: bool = true;
        let mut k: usize = 0;
        while k < tok.len()
            invariant
                0 <= k <= tok@.len(),
                digits_only ==> all_digits(tok@.take(k as int)),
                !digits_only ==> !all_digits(tok@),
            decreases tok@.len() - k,
        {
            if tok[k] < 48 || tok[k] > 57 {
                proof {
                    assert(!is_digit(tok@[k as int]));
                }
                digits_only = false;
            } else {
                proof {
                    if digits_only {
                        assert forall|t: int| 0 <= t < k + 1 implies is_digit(
                            #[trigger] tok@.take(k as int + 1)[t],
                        ) by {
                            if t < k {
                                assert(tok@.take(k as int + 1)[t] == tok@.take(k as int)[t]);
                            } else {
                                assert(tok@.take(k as int + 1)[t] == tok@[k as int]);
                            }
                        };
                    }
                }
            }
            k = k + 1;
        }
        proof {
            assert(tok@.take(tok@.len() as int) =~= tok@);
        }
        if digits_only {
            match parse_u32_token(tok) {
                Some(addr) => Record::Single { addr, value },
                None => Record::BadAddress,
            }
        } else {
            match parse_ipv4(tok) {
                Some(addr) => Record::Single { addr, value },
                None => Record::BadAddress,
            }
        }
    }
}

/// Parses an optionally signed weight token; `None` when malformed.
fn parse_digits_or_sign(s: &[u8]) -> (r: Option<i32>)
    ensures
        r == i32_token_value(s@),
{
    if s.len() == 0 {
        return None;
    }
    let b0: u8 = s[0];
    if b0 == 45 {
        match parse_digits_capped(s, 1, s.len(), 0x8000_0000) {
            Some(v) => Some((-(v as i64)) as i32),
            None => None,
        }
    } else if b0 == 43 {
        match parse_digits_capped(s, 1, s.len(), 0x7fff_ffff) {
            Some(v) => Some(v as i32),
            None => None,
        }
    } else {
        proof {
            assert(s@.subrange(0, s@.len() as int) =~= s@);
        }
        match parse_digits_capped(s, 0, s.len(), 0x7fff_ffff) {
            Some(v) => Some(v as i32),
            None => None,
        }
    }
}

/// The position of the newline that ends the line starting at `i`, or
/// the end of the input.
pub open spec fn line_end(s: Seq<u8>, i: int) -> int
    decreases s.len() - i,
{
    if i >= s.len() || s[i] == 10 {
        i
    } else {
        line_end(s, i + 1)
    }
}

/// Line ends lie between their start and the end of the input.
pub proof fn lemma_line_end_bounds(s: Seq<u8>, i: int)
    requires
        0 <= i <= s.len(),
    ensures
        i <= line_end(s, i) <= s.len(),
    decreases s.len() - i,
{
    if !(i >= s.len() || s[i] == 10) {
        lemma_line_end_bounds(s, i + 1);
    }
}

/// The input split at newlines, from position `i` on.  A trailing
/// newline ends the last line rather than opening an empty one.
pub open spec fn lines_from(s: Seq<u8>, i: int) -> Seq<Seq<u8>>
    decreases s.len() - i,
    when 0 <= i <= s.len()
    via lines_from_decreases
{
    if i >= s.len() {
        Seq::empty()
    } else {
        let e = line_end(s, i);
        if e >= s.len() {
            seq![s.subrange(i, e)]
        } else {
            seq![s.subrange(i, e)].add(lines_from(s, e + 1))
        }
    }
}

#[via_fn]
proof fn lines_from_decreases(s: Seq<u8>, i: int) {
    lemma_line_end_bounds(s, i);
}

/// The input split into lines.
pub open spec fn lines_of(s: Seq<u8>) -> Seq<Seq<u8>> {
    lines_from(s, 0)
}

/// Scans to the end of the line starting at `from`.
pub fn scan_line_end(s: &[u8], from: usize) -> (r: usize)
    requires
        from <= s@.len(),
    ensures
        r == line_end(s@, from as int),
        from <= r <= s@.len(),
{
    let mut i: usize = from;
    while i < s.len() && s[i] != 10
        invariant
            from <= i <= s@.len(),
            line_end(s@, from as int) == line_end(s@, i as int),
        decreases s@.len() - i,
    {
        i = i + 1;
    }
    i
}

} // verus!
