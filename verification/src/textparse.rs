//! Byte-level text utilities for the line-oriented asset formats: splitting
//! into lines, whitespace trimming, and exact integer / decimal parsing with
//! the skip-on-corruption defaults the animation loader needs.

use vstd::prelude::*;

use crate::fixed::Fp;

verus! {

/// ASCII whitespace, as the loader's line trimming understands it.
pub open spec fn is_space(b: u8) -> bool {
    b == 9 || b == 10 || b == 11 || b == 12 || b == 13 || b == 32
}

pub open spec fn is_digit(b: u8) -> bool {
    48 <= b <= 57
}

fn space_byte(b: u8) -> (r: bool)
    ensures
        r == is_space(b),
{
    b == 9 || b == 10 || b == 11 || b == 12 || b == 13 || b == 32
}

fn digit_byte(b: u8) -> (r: bool)
    ensures
        r == is_digit(b),
{
    48 <= b && b <= 57
}

/// Index of the first non-whitespace byte, or the length if there is none.
pub open spec fn first_non_space(s: Seq<u8>) -> int
    decreases s.len(),
{
    if s.len() == 0 {
        0
    } else if is_space(s[0]) {
        1 + first_non_space(s.drop_first())
    } else {
        0
    }
}

/// One past the last non-whitespace byte, or 0 if there is none.
pub open spec fn end_non_space(s: Seq<u8>) -> int
    decreases s.len(),
{
    if s.len() == 0 {
        0
    } else if is_space(s.last()) {
        end_non_space(s.drop_last())
    } else {
        s.len() as int
    }
}

/// The line with surrounding whitespace removed.
pub open spec fn spec_trim(s: Seq<u8>) -> Seq<u8> {
    if end_non_space(s) <= first_non_space(s) {
        Seq::empty()
    } else {
        s.subrange(first_non_space(s), end_non_space(s))
    }
}

pub proof fn lemma_non_space_bounds(s: Seq<u8>)
    ensures
        0 <= first_non_space(s) <= s.len(),
        0 <= end_non_space(s) <= s.len(),
    decreases s.len(),
{
    if s.len() > 0 {
        lemma_non_space_bounds(s.drop_first());
        lemma_non_space_bounds(s.drop_last());
    }
}

proof fn lemma_first_non_space_at(s: Seq<u8>, a: int)
    requires
        0 <= a <= s.len(),
        forall|k: int| 0 <= k < a ==> is_space(#[trigger] s[k]),
        a < s.len() ==> !is_space(s[a]),
    ensures
        first_non_space(s) == a,
    decreases s.len(),
{
    if s.len() == 0 {
    } else if a == 0 {
    } else {
        assert(is_space(s[0]));
        assert(forall|k: int| 0 <= k < a - 1 ==> is_space(#[trigger] s.drop_first()[k]));
        assert(a - 1 < s.drop_first().len() ==> !is_space(s.drop_first()[a - 1]));
        lemma_first_non_space_at(s.drop_first(), a - 1);
    }
}

proof fn lemma_end_non_space_at(s: Seq<u8>, b: int)
    requires
        0 <= b <= s.len(),
        forall|k: int| b <= k < s.len() ==> is_space(#[trigger] s[k]),
        b > 0 ==> !is_space(s[b - 1]),
    ensures
        end_non_space(s) == b,
    decreases s.len(),
{
    if s.len() == 0 {
    } else if b == s.len() {
        assert(!is_space(s.last()));
    } else {
        assert(is_space(s.last()));
        assert(forall|k: int| b <= k < s.drop_last().len() ==> is_space(
            #[trigger] s.drop_last()[k],
        ));
        lemma_end_non_space_at(s.drop_last(), b);
    }
}

/// Removes leading and trailing ASCII whitespace from one line.
pub fn trim_bytes(s: &Vec<u8>) -> (r: Vec<u8>)
    ensures
        r@ == spec_trim(s@),
{
    let n = s.len();
    let mut a: usize = 0;
    while a < n && space_byte(s[a])
        invariant
            0 <= a <= n,
            n == s@.len(),
            forall|k: int| 0 <= k < a ==> is_space(#[trigger] s@[k]),
        decreases n - a,
    {
        a += 1;
    }
    proof {
        lemma_first_non_space_at(s@, a as int);
    }
    if a == n {
        proof {
            lemma_non_space_bounds(s@);
        }
        let r: Vec<u8> = Vec::new();
        return r;
    }
    let mut b: usize = n;
    while b > a && space_byte(s[b - 1])
        invariant
            a <= b <= n,
            n == s@.len(),
            forall|k: int| b <= k < n ==> is_space(#[trigger] s@[k]),
        decreases b,
    {
        b -= 1;
    }
    assert(b > a) by {
        if b == a {
            assert(!is_space(s@[a as int]));
            assert(is_space(s@[a as int]));
        }
    }
    proof {
        lemma_end_non_space_at(s@, b as int);
    }
    let mut r: Vec<u8> = Vec::new();
    let mut i: usize = a;
    while i < b
        invariant
            a <= i <= b <= n,
            n == s@.len(),
            r@ == s@.subrange(a as int, i as int),
        decreases b - i,
    {
        let c = s[i];
        r.push(c);
        proof {
            assert(s@.subrange(a as int, i + 1) =~= s@.subrange(a as int, i as int).push(
                s@[i as int],
            ));
        }
        i += 1;
    }
    r
}

/// Index of the first line feed, or the length if there is none.
pub open spec fn first_nl(d: Seq<u8>) -> int
    decreases d.len(),
{
    if d.len() == 0 {
        0
    } else if d[0] == 10 {
        0
    } else {
        1 + first_nl(d.drop_first())
    }
}

proof fn lemma_first_nl_at(d: Seq<u8>, n: int)
    requires
        0 <= n <= d.len(),
        forall|k: int| 0 <= k < n ==> #[trigger] d[k] != 10,
        n < d.len() ==> d[n] == 10,
    ensures
        first_nl(d) == n,
    decreases d.len(),
{
    if d.len() == 0 {
    } else if n == 0 {
    } else {
        assert(forall|k: int| 0 <= k < n - 1 ==> #[trigger] d.drop_first()[k] != 10);
        lemma_first_nl_at(d.drop_first(), n - 1);
    }
}

/// The input split at line feeds, each line without its terminator; a final
/// line feed ends the last line rather than opening an empty one.
pub open spec fn line_split(d: Seq<u8>) -> Seq<Seq<u8>>
    decreases d.len(),
{
    if d.len() == 0 {
        Seq::empty()
    } else {
        let n = first_nl(d);
        if 0 <= n && n < d.len() {
            seq![d.take(n)] + line_split(d.skip(n + 1))
        } else {
            seq![d]
        }
    }
}

/// Splits a whole input into its lines.
pub fn split_lines(data: &Vec<u8>) -> (r: Vec<Vec<u8>>)
    ensures
        r@.map_values(|l: Vec<u8>| l@) == line_split(data@),
{
    let n = data.len();
    let mut r: Vec<Vec<u8>> = Vec::new();
    let mut pos: usize = 0;
    proof {
        assert(data@.skip(0) =~= data@);
        assert(r@.map_values(|l: Vec<u8>| l@) =~= Seq::<Seq<u8>>::empty());
        assert(Seq::<Seq<u8>>::empty() + line_split(data@) =~= line_split(data@));
    }
    while pos < n
        invariant
            0 <= pos <= n,
            n == data@.len(),
            r@.map_values(|l: Vec<u8>| l@) + line_split(data@.skip(pos as int)) == line_split(
                data@,
            ),
        decreases n - pos,
    {
        let mut j: usize = pos;
        while j < n && data[j] != 10
            invariant
                pos <= j <= n,
                n == data@.len(),
                forall|k: int| pos <= k < j ==> #[trigger] data@[k] != 10,
            decreases n - j,
        {
            j += 1;
        }
        let mut line: Vec<u8> = Vec::new();
        let mut i: usize = pos;
        while i < j
            invariant
                pos <= i <= j <= n,
                n == data@.len(),
                line@ == data@.subrange(pos as int, i as int),
            decreases j - i,
        {
            let c = data[i];
            line.push(c);
            proof {
                assert(data@.subrange(pos as int, i + 1) =~= data@.subrange(
                    pos as int,
                    i as int,
                ).push(data@[i as int]));
            }
            i += 1;
        }
        proof {
            let rest = data@.skip(pos as int);
            assert(forall|k: int| 0 <= k < j - pos ==> #[trigger] rest[k] != 10);
            lemma_first_nl_at(rest, j - pos);
            assert(rest.take(j - pos) =~= data@.subrange(pos as int, j as int));
            assert(line@ == rest.take(j - pos));
            let old_map = r@.map_values(|l: Vec<u8>| l@);
            assert((r@.push(line)).map_values(|l: Vec<u8>| l@) =~= old_map.push(line@));
            if j < n {
                assert(rest.skip(j - pos + 1) =~= data@.skip(j + 1));
                assert(line_split(rest) == seq![rest.take(j - pos)] + line_split(
                    data@.skip(j + 1),
                ));
                assert(old_map.push(line@) + line_split(data@.skip(j + 1)) =~= old_map + (seq![
                    line@,
                ] + line_split(data@.skip(j + 1))));
            } else {
                assert(rest =~= data@.subrange(pos as int, n as int));
                assert(line_split(rest) == seq![rest]);
                assert(line@ == rest);
                assert(data@.skip(n as int) =~= Seq::<u8>::empty());
                assert(old_map.push(line@) + line_split(data@.skip(n as int)) =~= old_map + seq![
                    rest,
                ]);
            }
        }
        r.push(line);
        if j < n {
            pos = j + 1;
        } else {
            pos = n;
        }
    }
    proof {
        assert(data@.skip(n as int) =~= Seq::<u8>::empty());
        assert(r@.map_values(|l: Vec<u8>| l@) + line_split(Seq::<u8>::empty()) =~= r@.map_values(
            |l: Vec<u8>| l@,
        ));
    }
    r
}

/// The numeric value of a string of ASCII digits, most significant first.
pub open spec fn digits_val(s: Seq<u8>) -> int
    decreases s.len(),
{
    if s.len() == 0 {
        0
    } else {
        digits_val(s.drop_last()) * 10 + (s.last() - 48)
    }
}

pub open spec fn all_digits(s: Seq<u8>) -> bool {
    forall|i: int| 0 <= i < s.len() ==> is_digit(#[trigger] s[i])
}

pub open spec fn pow10(n: nat) -> int
    decreases n,
{
    if n == 0 {
        1
    } else {
        10 * pow10((n - 1) as nat)
    }
}

pub proof fn lemma_pow10_pos(n: nat)
    ensures
        pow10(n) >= 1,
    decreases n,
{
    if n > 0 {
        lemma_pow10_pos((n - 1) as nat);
    }
}

pub proof fn lemma_pow10_mono(m: nat, n: nat)
    requires
        m <= n,
    ensures
        pow10(m) <= pow10(n),
    decreases n,
{
    if m < n {
        lemma_pow10_mono(m, (n - 1) as nat);
        lemma_pow10_pos((n - 1) as nat);
    }
}

pub proof fn lemma_pow10_12()
    ensures
        pow10(12) == 1000000000000,
{
    reveal_with_fuel(pow10, 13);
}

pub proof fn lemma_digits_val_bounds(s: Seq<u8>)
    requires
        all_digits(s),
    ensures
        0 <= digits_val(s) < pow10(s.len()),
    decreases s.len(),
{
    if s.len() > 0 {
        assert(forall|i: int|
            0 <= i < s.drop_last().len() ==> is_digit(#[trigger] s.drop_last()[i]));
        lemma_digits_val_bounds(s.drop_last());
        assert(is_digit(s.last()));
    }
}

proof fn lemma_digits_val_step(s: Seq<u8>, j: int)
    requires
        0 <= j < s.len(),
    ensures
        digits_val(s.take(j + 1)) == 10 * digits_val(s.take(j)) + (s[j] - 48),
{
    assert(s.take(j + 1).drop_last() =~= s.take(j));
    assert(s.take(j + 1).last() == s[j]);
}

proof fn lemma_digits_val_concat(a: Seq<u8>, b: Seq<u8>)
    ensures
        digits_val(a + b) == digits_val(a) * pow10(b.len()) + digits_val(b),
    decreases b.len(),
{
    if b.len() == 0 {
        assert(a + b =~= a);
    } else {
        let b2 = b.drop_last();
        assert((a + b).drop_last() =~= a + b2);
        assert((a + b).last() == b.last());
        lemma_digits_val_concat(a, b2);
        assert(digits_val(a) * pow10(b2.len()) * 10 == digits_val(a) * (10 * pow10(b2.len())))
            by (nonlinear_arith);
        assert(pow10(b.len()) == 10 * pow10(b2.len()));
        assert((digits_val(a) * pow10(b2.len()) + digits_val(b2)) * 10 + (b.last() - 48)
            == digits_val(a) * pow10(b2.len()) * 10 + (digits_val(b2) * 10 + (b.last() - 48)))
            by (nonlinear_arith);
    }
}

/// The digits of a possibly signed token, its sign stripped.
pub open spec fn int_body(s: Seq<u8>) -> Seq<u8> {
    if s.len() > 0 && (s[0] == 43 || s[0] == 45) {
        s.drop_first()
    } else {
        s
    }
}

pub open spec fn int_sign(s: Seq<u8>) -> int {
    if s.len() > 0 && s[0] == 45 {
        -1
    } else {
        1
    }
}

/// A well-formed signed integer token: an optional sign and then digits only.
pub open spec fn valid_int(s: Seq<u8>) -> bool {
    int_body(s).len() > 0 && all_digits(int_body(s))
}

/// The value a signed 32-bit parse yields, with 0 for anything malformed or
/// out of range, mirroring a parse whose failure is replaced by 0.
pub open spec fn spec_parse_i32(s: Seq<u8>) -> int {
    let v = int_sign(s) * digits_val(int_body(s));
    if valid_int(s) && -2147483648 <= v <= 2147483647 {
        v
    } else {
        0
    }
}

/// Parses a signed 32-bit integer from a trimmed token, yielding 0 for a
/// malformed or out-of-range token.
pub fn parse_i32_bytes(s: &Vec<u8>) -> (r: i32)
    ensures
        r as int == spec_parse_i32(s@),
{
    let n = s.len();
    let ghost body = int_body(s@);
    let start: usize = if n > 0 && (s[0] == 43 || s[0] == 45) {
        1
    } else {
        0
    };
    let neg: bool = n > 0 && s[0] == 45;
    assert(body =~= s@.skip(start as int));
    if start == n {
        assert(!valid_int(s@));
        return 0;
    }
    let mut acc: i64 = 0;
    let mut big: bool = false;
    let mut j: usize = start;
    while j < n
        invariant
            start <= j <= n,
            n == s@.len(),
            start < n,
            body == int_body(s@),
            body == s@.skip(start as int),
            body.len() == n - start,
            forall|k: int| 0 <= k < j - start ==> is_digit(#[trigger] body[k]),
            !big ==> 0 <= acc <= 2147483648 && acc == digits_val(body.take(j - start)),
            big ==> digits_val(body.take(j - start)) > 2147483648,
        decreases n - j,
    {
        let c = s[j];
        assert(body[j - start] == s@[j as int]);
        if !digit_byte(c) {
            assert(!all_digits(body));
            return 0;
        }
        proof {
            lemma_digits_val_step(body, j - start);
        }
        if big {
            proof {
                assert(forall|k: int|
                    0 <= k < j + 1 - start ==> is_digit(#[trigger] body.take(j + 1 - start)[k]));
                lemma_digits_val_bounds(body.take(j + 1 - start));
            }
        } else {
            let nacc: i64 = acc * 10 + ((c - 48) as i64);
            if nacc > 2147483648 {
                big = true;
            } else {
                acc = nacc;
            }
        }
        j += 1;
    }
    assert(body.take(n - start) =~= body);
    assert(valid_int(s@));
    if big {
        return 0;
    }
    if neg {
        assert(int_sign(s@) == -1);
        let r: i64 = -acc;
        return r as i32;
    }
    if acc > 2147483647 {
        return 0;
    }
    acc as i32
}

/// Index of the first dot in a token, or the length if there is none.
pub open spec fn dot_idx(s: Seq<u8>) -> int
    decreases s.len(),
{
    if s.len() == 0 {
        0
    } else if s[0] == 46 {
        0
    } else {
        1 + dot_idx(s.drop_first())
    }
}

proof fn lemma_dot_idx_at(s: Seq<u8>, n: int)
    requires
        0 <= n <= s.len(),
        forall|k: int| 0 <= k < n ==> #[trigger] s[k] != 46,
        n < s.len() ==> s[n] == 46,
    ensures
        dot_idx(s) == n,
    decreases s.len(),
{
    if s.len() == 0 {
    } else if n == 0 {
    } else {
        assert(forall|k: int| 0 <= k < n - 1 ==> #[trigger] s.drop_first()[k] != 46);
        lemma_dot_idx_at(s.drop_first(), n - 1);
    }
}

/// Digits before the dot of a decimal token body.
pub open spec fn dec_int_part(b: Seq<u8>) -> Seq<u8> {
    b.take(dot_idx(b))
}

/// Digits after the dot of a decimal token body, empty if there is no dot.
pub open spec fn dec_frac_part(b: Seq<u8>) -> Seq<u8> {
    if dot_idx(b) < b.len() {
        b.skip(dot_idx(b) + 1)
    } else {
        Seq::empty()
    }
}

/// A well-formed decimal token: an optional sign, digits with at most one
/// dot, at least one digit, and at most twelve digits in all.
pub open spec fn valid_dec(s: Seq<u8>) -> bool {
    let b = int_body(s);
    let ip = dec_int_part(b);
    let fp = dec_frac_part(b);
    all_digits(ip) && all_digits(fp) && ip.len() + fp.len() >= 1 && ip.len() + fp.len() <= 12
}

/// The exact fraction a decimal token denotes, with 0 for anything
/// malformed, mirroring a parse whose failure is replaced by 0.
pub open spec fn spec_parse_dec(s: Seq<u8>) -> Fp {
    let b = int_body(s);
    let ip = dec_int_part(b);
    let fp = dec_frac_part(b);
    if valid_dec(s) {
        Fp {
            num: (int_sign(s) * digits_val(ip + fp)) as i64,
            den: pow10(fp.len()) as i64,
        }
    } else {
        Fp { num: 0, den: 1 }
    }
}

fn pow10_i64(n: usize) -> (r: i64)
    requires
        n <= 12,
    ensures
        r as int == pow10(n as nat),
{
    let mut r: i64 = 1;
    let mut k: usize = 0;
    while k < n
        invariant
            0 <= k <= n <= 12,
            r as int == pow10(k as nat),
        decreases n - k,
    {
        proof {
            lemma_pow10_mono(k as nat + 1, 12);
            lemma_pow10_12();
            lemma_pow10_pos(k as nat);
        }
        r = r * 10;
        k += 1;
    }
    r
}

/// Parses a decimal token into an exact fraction and reports whether the
/// token was well formed; a malformed token yields 0.
#[verifier::rlimit(80)]
pub fn parse_dec_checked(s: &Vec<u8>) -> (r: (Fp, bool))
    ensures
        r.0 == spec_parse_dec(s@),
        r.1 == valid_dec(s@),
        r.0.wf(),
        -1000000000000 < r.0.num < 1000000000000,
        1 <= r.0.den <= 1000000000000,
{
    proof {
        lemma_pow10_12();
    }
    let n = s.len();
    let ghost body = int_body(s@);
    let start: usize = if n > 0 && (s[0] == 43 || s[0] == 45) {
        1
    } else {
        0
    };
    let neg: bool = n > 0 && s[0] == 45;
    assert(body =~= s@.skip(start as int));
    let mut d: usize = start;
    while d < n && s[d] != 46
        invariant
            start <= d <= n,
            n == s@.len(),
            body == int_body(s@),
            body == s@.skip(start as int),
            forall|k: int| 0 <= k < d - start ==> #[trigger] body[k] != 46,
        decreases n - d,
    {
        assert(body[d - start] == s@[d as int]);
        d += 1;
    }
    proof {
        if d < n {
            assert(body[d - start] == s@[d as int]);
        }
        lemma_dot_idx_at(body, d - start);
    }
    let ghost ip = dec_int_part(body);
    let ghost fp = dec_frac_part(body);
    let ip_len: usize = d - start;
    let fp_len: usize = if d < n {
        n - d - 1
    } else {
        0
    };
    assert(ip =~= s@.subrange(start as int, d as int));
    assert(ip.len() == ip_len);
    assert(fp.len() == fp_len) by {
        if d < n {
            assert(fp =~= body.skip(d - start + 1));
        }
    }
    if ip_len + fp_len == 0 || ip_len + fp_len > 12 {
        assert(!valid_dec(s@));
        return (Fp { num: 0, den: 1 }, false);
    }
    // integer part digits
    let mut acc: i64 = 0;
    let mut j: usize = start;
    while j < d
        invariant
            start <= j <= d <= n,
            n == s@.len(),
            body == int_body(s@),
            body == s@.skip(start as int),
            ip == dec_int_part(body),
            ip == s@.subrange(start as int, d as int),
            ip.len() == ip_len == d - start,
            ip_len <= 12,
            forall|k: int| 0 <= k < j - start ==> is_digit(#[trigger] ip[k]),
            0 <= acc < pow10((j - start) as nat),
            acc == digits_val(ip.take(j - start)),
        decreases d - j,
    {
        let c = s[j];
        assert(ip[j - start] == s@[j as int]);
        if !digit_byte(c) {
            assert(!all_digits(ip));
            assert(!valid_dec(s@));
            return (Fp { num: 0, den: 1 }, false);
        }
        proof {
            lemma_digits_val_step(ip, j - start);
            lemma_pow10_mono((j - start + 1) as nat, 12);
            lemma_pow10_12();
        }
        acc = acc * 10 + ((c - 48) as i64);
        j += 1;
    }
    assert(ip.take(ip_len as int) =~= ip);
    // fractional part digits
    let fstart: usize = if d < n {
        d + 1
    } else {
        n
    };
    proof {
        if d < n {
            assert(fp =~= body.skip(d - start + 1));
            assert(fp =~= s@.subrange(fstart as int, n as int));
        } else {
            assert(fp =~= s@.subrange(fstart as int, n as int));
        }
    }
    let mut facc: i64 = 0;
    let mut m: usize = fstart;
    while m < n
        invariant
            fstart <= m <= n,
            n == s@.len(),
            body == int_body(s@),
            body == s@.skip(start as int),
            fp == dec_frac_part(body),
            fp == s@.subrange(fstart as int, n as int),
            fp.len() == fp_len == n - fstart,
            fp_len <= 12,
            d - start == dot_idx(body),
            fstart == (if d < n { d + 1int } else { n as int }),
            start <= d <= n,
            forall|k: int| 0 <= k < m - fstart ==> is_digit(#[trigger] fp[k]),
            0 <= facc < pow10((m - fstart) as nat),
            facc == digits_val(fp.take(m - fstart)),
        decreases n - m,
    {
        let c = s[m];
        assert(fp[m - fstart] == s@[m as int]);
        if !digit_byte(c) {
            assert(!all_digits(fp));
            assert(!valid_dec(s@));
            return (Fp { num: 0, den: 1 }, false);
        }
        proof {
            lemma_digits_val_step(fp, m - fstart);
            lemma_pow10_mono((m - fstart + 1) as nat, 12);
            lemma_pow10_12();
        }
        facc = facc * 10 + ((c - 48) as i64);
        m += 1;
    }
    assert(fp.take(fp_len as int) =~= fp);
    assert(valid_dec(s@));
    let p10: i64 = pow10_i64(fp_len);
    proof {
        lemma_digits_val_concat(ip, fp);
        assert(forall|k: int| 0 <= k < (ip + fp).len() ==> is_digit(#[trigger] (ip + fp)[k]));
        lemma_digits_val_bounds(ip + fp);
        lemma_pow10_mono((ip_len + fp_len) as nat, 12);
        lemma_pow10_pos(fp_len as nat);
        assert(digits_val(ip + fp) == acc * p10 + facc);
        assert(acc * p10 + facc < 1000000000000);
        assert(acc * p10 >= 0) by (nonlinear_arith)
            requires
                acc >= 0,
                p10 >= 1,
        ;
    }
    let mag: i64 = acc * p10 + facc;
    let num: i64 = if neg {
        -mag
    } else {
        mag
    };
    proof {
        lemma_pow10_mono(fp_len as nat, 12);
        assert(num as int == int_sign(s@) * digits_val(ip + fp));
        assert(p10 as int == pow10(fp.len()));
    }
    (Fp { num, den: p10 }, true)
}

/// Parses a decimal token into an exact fraction, yielding 0 for a malformed
/// token.
pub fn parse_dec_bytes(s: &Vec<u8>) -> (r: Fp)
    ensures
        r == spec_parse_dec(s@),
        r.wf(),
        -1000000000000 < r.num < 1000000000000,
        1 <= r.den <= 1000000000000,
{
    let (v, _ok) = parse_dec_checked(s);
    v
}


/// The fraction a decimal token denotes is bounded: its magnitude is below
/// `10^12` and its denominator is a positive power of ten.
pub proof fn lemma_parse_dec_bounds(s: Seq<u8>)
    ensures
        1 <= spec_parse_dec(s).den <= 1000000000000,
        -1000000000000 < spec_parse_dec(s).num < 1000000000000,
{
    if valid_dec(s) {
        let b = int_body(s);
        let ip = dec_int_part(b);
        let fp = dec_frac_part(b);
        assert forall|k: int| 0 <= k < (ip + fp).len() implies is_digit(#[trigger] (ip + fp)[k]) by {
            if k < ip.len() {
                assert((ip + fp)[k] == ip[k]);
            } else {
                assert((ip + fp)[k] == fp[k - ip.len()]);
            }
        }
        lemma_digits_val_bounds(ip + fp);
        lemma_pow10_mono((ip.len() + fp.len()) as nat, 12);
        lemma_pow10_mono(fp.len() as nat, 12);
        lemma_pow10_pos(fp.len() as nat);
        lemma_pow10_12();
    }
}

/// The `NEXTFRAME` sentinel as bytes.
pub open spec fn nextframe_tag() -> Seq<u8> {
    seq![78u8, 69u8, 88u8, 84u8, 70u8, 82u8, 65u8, 77u8, 69u8]
}

/// The `ENDFILE` sentinel as bytes.
pub open spec fn endfile_tag() -> Seq<u8> {
    seq![69u8, 78u8, 68u8, 70u8, 73u8, 76u8, 69u8]
}

/// Recognises a trimmed `NEXTFRAME` line.
pub fn is_nextframe(t: &Vec<u8>) -> (r: bool)
    ensures
        r <==> t@ == nextframe_tag(),
{
    let r = t.len() == 9 && t[0] == 78 && t[1] == 69 && t[2] == 88 && t[3] == 84 && t[4] == 70
        && t[5] == 82 && t[6] == 65 && t[7] == 77 && t[8] == 69;
    proof {
        if r {
            assert(t@ =~= nextframe_tag());
        } else {
            if t@ == nextframe_tag() {
                assert(t@.len() == 9);
                assert(t@[0] == 78 && t@[1] == 69 && t@[2] == 88 && t@[3] == 84 && t@[4] == 70
                    && t@[5] == 82 && t@[6] == 65 && t@[7] == 77 && t@[8] == 69);
            }
        }
    }
    r
}

/// Recognises a trimmed `ENDFILE` line.
pub fn is_endfile(t: &Vec<u8>) -> (r: bool)
    ensures
        r <==> t@ == endfile_tag(),
{
    let r = t.len() == 7 && t[0] == 69 && t[1] == 78 && t[2] == 68 && t[3] == 70 && t[4] == 73
        && t[5] == 76 && t[6] == 69;
    proof {
        if r {
            assert(t@ =~= endfile_tag());
        } else {
            if t@ == endfile_tag() {
                assert(t@.len() == 7);
                assert(t@[0] == 69 && t@[1] == 78 && t@[2] == 68 && t@[3] == 70 && t@[4] == 73
                    && t@[5] == 76 && t@[6] == 69);
            }
        }
    }
    r
}

/// Copies a byte string.
pub fn copy_bytes(s: &Vec<u8>) -> (r: Vec<u8>)
    ensures
        r@ == s@,
{
    let mut r: Vec<u8> = Vec::new();
    let mut i: usize = 0;
    while i < s.len()
        invariant
            0 <= i <= s@.len(),
            r@ == s@.subrange(0, i as int),
        decreases s@.len() - i,
    {
        let c = s[i];
        r.push(c);
        proof {
            assert(s@.subrange(0, i + 1) =~= s@.subrange(0, i as int).push(s@[i as int]));
        }
        i += 1;
    }
    assert(s@.subrange(0, s@.len() as int) =~= s@);
    r
}

/// Byte-string equality.
pub fn bytes_eq(a: &Vec<u8>, b: &Vec<u8>) -> (r: bool)
    ensures
        r <==> a@ == b@,
{
    if a.len() != b.len() {
        assert(a@ != b@) by {
            if a@ == b@ {
                assert(a@.len() == b@.len());
            }
        }
        return false;
    }
    let mut i: usize = 0;
    while i < a.len()
        invariant
            0 <= i <= a@.len(),
            a@.len() == b@.len(),
            forall|k: int| 0 <= k < i ==> a@[k] == b@[k],
        decreases a@.len() - i,
    {
        if a[i] != b[i] {
            assert(a@ != b@) by {
                if a@ == b@ {
                    assert(a@[i as int] == b@[i as int]);
                }
            }
            return false;
        }
        i += 1;
    }
    assert(a@ =~= b@);
    true
}

} // verus!
