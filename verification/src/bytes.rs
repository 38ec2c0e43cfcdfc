//! Byte-level scanning of requests and rendering of headers.

use crate::seqs;
use vstd::arithmetic::power;
use vstd::prelude::*;
use vstd::string::*;

verus! {

/// The decimal digits of `n`.
pub open spec fn decimal(n: nat) -> Seq<u8>
    decreases n,
{
    if n < 10 {
        seq![('0' as int + n) as u8]
    } else {
        decimal(n / 10).push(('0' as int + n % 10) as u8)
    }
}

/// The number that decimal digits stand for.
pub open spec fn digits_value(digits: Seq<u8>) -> nat
    decreases digits.len(),
{
    if digits.len() == 0 {
        0
    } else {
        digits_value(digits.drop_last()) * 10 + (digits.last() - '0' as int) as nat
    }
}

pub open spec fn is_digit(b: u8) -> bool {
    '0' as int <= b <= '9' as int
}

pub open spec fn all_digits(s: Seq<u8>) -> bool {
    forall|i: int| 0 <= i < s.len() ==> is_digit(#[trigger] s[i])
}

/// `buf` with `s` written over it from position `pos` on.
pub open spec fn written(buf: Seq<u8>, pos: int, s: Seq<u8>) -> Seq<u8> {
    buf.take(pos) + s + buf.skip(pos + s.len())
}

/// Ten to the power of `k`.
spec fn pow10(k: nat) -> nat
    decreases k,
{
    if k == 0 {
        1
    } else {
        10 * pow10((k - 1) as nat)
    }
}

/// A number has at most `k` digits if it is below the `k`-th power of ten.
proof fn lemma_decimal_len(n: nat, k: nat)
    requires
        k > 0,
        n < pow10(k),
    ensures
        1 <= decimal(n).len() <= k,
    decreases n,
{
    if n >= 10 {
        reveal_with_fuel(pow10, 2);
        assert(k > 1);
        assert(n / 10 < pow10((k - 1) as nat));
        lemma_decimal_len(n / 10, (k - 1) as nat);
    }
}

/// A 64-bit number has at most twenty digits.
pub proof fn lemma_decimal_u64_len(n: u64)
    ensures
        1 <= decimal(n as nat).len() <= 20,
{
    reveal_with_fuel(pow10, 21);
    lemma_decimal_len(n as nat, 20);
}

/// The digits of a number are digits.
pub proof fn lemma_decimal_digits(n: nat)
    ensures
        decimal(n).len() > 0,
        all_digits(decimal(n)),
    decreases n,
{
    if n >= 10 {
        lemma_decimal_digits(n / 10);
        let d = decimal(n / 10);
        assert forall|i: int| 0 <= i < decimal(n).len() implies is_digit(
            #[trigger] decimal(n)[i],
        ) by {
            if i < d.len() {
                assert(is_digit(d[i]));
            }
        }
    }
}

/// The decimal digits of a number read as that number.
pub proof fn law_decimal_reads_back(n: nat)
    ensures
        digits_value(decimal(n)) == n,
    decreases n,
{
    if n >= 10 {
        law_decimal_reads_back(n / 10);
        assert(decimal(n).drop_last() =~= decimal(n / 10));
    } else {
        reveal_with_fuel(digits_value, 2);
        assert(decimal(n).drop_last() =~= Seq::empty());
    }
}

/// Copies `s` into `buf` at `pos` and moves `pos` behind it.
pub fn put_slice(buf: &mut [u8], pos: &mut usize, s: &[u8])
    requires
        *old(pos) + s@.len() <= old(buf)@.len(),
    ensures
        final(buf)@ == written(old(buf)@, *old(pos) as int, s@),
        *final(pos) == *old(pos) + s@.len(),
{
    let start = *pos;
    let n = s.len();
    let total = buf.len();
    let ghost before = buf@;
    let mut i: usize = 0;
    assert(written(before, start as int, s@.take(0)) =~= before);
    while i < n
        invariant
            n == s@.len(),
            total == before.len(),
            start + n <= total,
            i <= n,
            buf@ == written(before, start as int, s@.take(i as int)),
        decreases n - i,
    {
        buf[start + i] = s[i];
        i += 1;
        assert(buf@ =~= written(before, start as int, s@.take(i as int)));
    }
    assert(s@.take(n as int) =~= s@);
    *pos = start + n;
}

/// The last digit of a number, and the digits before it.
proof fn lemma_decimal_last(w: u64)
    ensures
        decimal(w as nat).len() > 0,
        decimal(w as nat).last() == 48 + w % 10,
        w < 10 ==> decimal(w as nat).len() == 1,
        w >= 10 ==> decimal(w as nat).drop_last() == decimal((w / 10) as nat),
{
    if w >= 10 {
        assert((w as nat) / 10 == (w / 10) as nat);
        assert(decimal(w as nat).drop_last() =~= decimal((w / 10) as nat));
    }
}

/// Writing one byte more in front.
proof fn lemma_written_front(buf: Seq<u8>, pos: int, s: Seq<u8>)
    requires
        0 <= pos,
        s.len() > 0,
        pos + s.len() <= buf.len(),
    ensures
        written(buf, pos, s) == written(buf, pos + 1, s.skip(1)).update(pos, s[0]),
{
    assert(written(buf, pos, s) =~= written(buf, pos + 1, s.skip(1)).update(pos, s[0]));
}

/// Writes the decimal digits of `v` into `buf` at `pos` and moves `pos` behind
/// them.
pub fn push_u64(buf: &mut [u8], pos: &mut usize, v: u64)
    requires
        *old(pos) + decimal(v as nat).len() <= old(buf)@.len(),
    ensures
        final(buf)@ == written(old(buf)@, *old(pos) as int, decimal(v as nat)),
        *final(pos) == *old(pos) + decimal(v as nat).len(),
{
    let start = *pos;
    let n = digit_count(v);
    let total = buf.len();
    let ghost before = buf@;
    let ghost digits = decimal(v as nat);
    let mut w = v;
    let mut i = n;
    assert(written(before, start + n, digits.skip(n as int)) =~= before);
    assert(digits.take(n as int) =~= digits);
    while i > 0
        invariant
            n == digits.len(),
            total == before.len(),
            start + n <= total,
            i <= n,
            i > 0 ==> decimal(w as nat) == digits.take(i as int),
            buf@ == written(before, start + i, digits.skip(i as int)),
        decreases i,
    {
        i -= 1;
        proof {
            lemma_decimal_last(w);
            lemma_written_front(before, start + i, digits.skip(i as int));
            assert(digits.skip(i as int).skip(1) =~= digits.skip(i + 1));
            assert(digits[i as int] == digits.take(i + 1).last());
            assert(digits.take(i + 1).drop_last() =~= digits.take(i as int));
        }
        buf[start + i] = 48 + (w % 10) as u8;
        w = w / 10;
    }
    assert(digits.skip(0) =~= digits);
    *pos = start + n;
}

/// How many decimal digits `v` has.
fn digit_count(v: u64) -> (n: usize)
    ensures
        n == decimal(v as nat).len(),
{
    let mut w = v;
    let mut n: usize = 1;
    proof {
        lemma_decimal_u64_len(v);
    }
    while w >= 10
        invariant
            decimal(v as nat).len() <= 20,
            decimal(v as nat).len() == decimal(w as nat).len() + n - 1,
        decreases w,
    {
        assert(decimal((w / 10) as nat).len() > 0) by {
            lemma_decimal_u64_len(w / 10);
        }
        w = w / 10;
        n += 1;
    }
    n
}

/// The decimal digits of `v`.
pub fn decimal_digits(v: u64) -> (r: Vec<u8>)
    ensures
        r@ == decimal(v as nat),
    decreases v,
{
    let mut out: Vec<u8> = if v < 10 {
        Vec::new()
    } else {
        decimal_digits(v / 10)
    };
    out.push(48 + (v % 10) as u8);
    assert(out@ =~= decimal(v as nat));
    out
}

/// Whether `pat` stands in `hay` at position `i`.
pub fn bytes_at(hay: &[u8], pat: &[u8], i: usize) -> (r: bool)
    requires
        i <= hay@.len(),
    ensures
        r == seqs::occurs_at(hay@, pat@, i as int),
{
    let n = hay.len();
    if n - i < pat.len() {
        return false;
    }
    let mut k: usize = 0;
    while k < pat.len()
        invariant
            n == hay@.len(),
            i + pat@.len() <= n,
            k <= pat@.len(),
            forall|j: int| 0 <= j < k ==> hay@[i + j] == pat@[j],
        decreases pat@.len() - k,
    {
        if hay[i + k] != pat[k] {
            assert(hay@.subrange(i as int, i + pat@.len())[k as int] != pat@[k as int]);
            return false;
        }
        k += 1;
    }
    assert(hay@.subrange(i as int, i + pat@.len()) =~= pat@);
    true
}

/// Whether two byte strings are equal.
pub fn bytes_equal(a: &[u8], b: &[u8]) -> (r: bool)
    ensures
        r == (a@ == b@),
{
    if a.len() != b.len() {
        return false;
    }
    let r = bytes_at(a, b, 0);
    assert(a@.subrange(0, a@.len() as int) =~= a@);
    r
}

/// The first position at or after `from` where `pat` stands in `hay`.
pub fn find_bytes(hay: &[u8], pat: &[u8], from: usize) -> (r: Option<usize>)
    requires
        from <= hay@.len(),
        pat@.len() > 0,
    ensures
        match r {
            Some(i) => seqs::find_from(hay@, pat@, from as int) == Some(i as int),
            None => seqs::find_from(hay@, pat@, from as int) is None,
        },
{
    let mut i = from;
    while i < hay.len()
        invariant
            from <= i <= hay@.len(),
            pat@.len() > 0,
            seqs::find_from(hay@, pat@, from as int) == seqs::find_from(hay@, pat@, i as int),
        decreases hay@.len() - i,
    {
        if bytes_at(hay, pat, i) {
            return Some(i);
        }
        if hay.len() - i < pat.len() {
            return None;
        }
        i += 1;
    }
    None
}

/// The first position at or after `from` that holds `b`.
pub fn find_byte(s: &[u8], b: u8, from: usize) -> (r: Option<usize>)
    ensures
        match r {
            Some(i) => seqs::index_from(s@, b, from as int) == Some(i as int),
            None => seqs::index_from(s@, b, from as int) is None,
        },
{
    let mut i = from;
    while i < s.len()
        invariant
            from <= i,
            seqs::index_from(s@, b, from as int) == seqs::index_from(s@, b, i as int),
        decreases s@.len() - i,
    {
        if s[i] == b {
            return Some(i);
        }
        i += 1;
    }
    None
}

/// The digits are the ten decimal ones, in the order of their values.
pub proof fn law_digits_stand_for_their_places(b: u8, n: int)
    ensures
        is_digit(b) <==> "0123456789".spec_bytes().contains(b),
        0 <= n < 10 ==> digits_value(seq!["0123456789".spec_bytes()[n]]) == n,
        0 <= n < 10 ==> decimal(n as nat) == seq!["0123456789".spec_bytes()[n]],
{
    let ten = "0123456789".spec_bytes();
    reveal_strlit("0123456789");
    assert("0123456789".is_ascii());
    assert(ten.len() == 10);
    assert forall|i: int| 0 <= i < 10 implies ten[i] == 48 + i by {
        assert(i == 0 || i == 1 || i == 2 || i == 3 || i == 4 || i == 5 || i == 6 || i == 7 || i
            == 8 || i == 9);
    }
    if is_digit(b) {
        assert(ten[b - 48] == b);
    }
    if 0 <= n < 10 {
        reveal_with_fuel(digits_value, 2);
        assert(seq![ten[n]].drop_last() =~= Seq::empty());
    }
}

/// Every further digit makes what stands before it ten times as much.
pub proof fn law_digits_have_place_values(a: Seq<u8>, b: Seq<u8>)
    ensures
        digits_value(a + b) == digits_value(a) * power::pow(10, b.len()) + digits_value(b),
    decreases b.len(),
{
    reveal(power::pow);
    if b.len() == 0 {
        assert(a + b =~= a);
    } else {
        law_digits_have_place_values(a, b.drop_last());
        assert((a + b).drop_last() =~= a + b.drop_last());
        let v = digits_value(a) as int;
        let p = power::pow(10, (b.len() - 1) as nat);
        assert(power::pow(10, b.len()) == 10 * p);
        assert((v * p) * 10 == v * (10 * p)) by (nonlinear_arith);
    }
}

/// A number is written in digits, without zeros in front.
pub proof fn law_decimal_has_no_leading_zero(n: nat)
    ensures
        all_digits(decimal(n)),
        decimal(n).len() > 0,
        decimal(n).len() > 1 ==> decimal(n)[0] != '0' as u8,
    decreases n,
{
    lemma_decimal_digits(n);
    if n >= 10 {
        law_decimal_has_no_leading_zero(n / 10);
        assert(decimal(n)[0] == decimal(n / 10)[0]);
        if n / 10 < 10 {
            assert(decimal(n / 10)[0] == 48 + n / 10);
        } else {
            lemma_decimal_digits(n / 10 / 10);
        }
    }
}

/// Writing into a buffer changes the bytes that are written over, and no
/// others.
pub proof fn law_written_changes_nothing_else(buf: Seq<u8>, pos: int, s: Seq<u8>, i: int)
    requires
        0 <= pos,
        pos + s.len() <= buf.len(),
        0 <= i < buf.len(),
    ensures
        written(buf, pos, s).len() == buf.len(),
        pos <= i < pos + s.len() ==> written(buf, pos, s)[i] == s[i - pos],
        i < pos || i >= pos + s.len() ==> written(buf, pos, s)[i] == buf[i],
{
}

} // verus!
