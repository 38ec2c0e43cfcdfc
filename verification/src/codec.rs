//! The codecs for names and paths: what a client sends is decoded
//! (`decode`), what a listing shows is encoded for a URL (`encode`) or
//! escaped for DIDL text (`escape_didl`).

use crate::seqs;
use crate::text::chars_of;
use std::borrow::Cow;
use vstd::prelude::*;

verus! {

/// The value of the hexadecimal digit with the code `n`.
pub open spec fn hex_code_value(n: int) -> Option<int> {
    if '0' as int <= n <= '9' as int {
        Some(n - '0' as int)
    } else if 'a' as int <= n <= 'f' as int {
        Some(n - 'a' as int + 10)
    } else if 'A' as int <= n <= 'F' as int {
        Some(n - 'A' as int + 10)
    } else {
        None
    }
}

/// The value of a hexadecimal digit.
pub open spec fn hex_digit(c: char) -> Option<int> {
    hex_code_value(c as int)
}

/// Up to two characters read as a hexadecimal byte; a leading plus sign is
/// allowed before a single digit.
pub open spec fn hex_byte(hex: Seq<char>) -> Option<int> {
    if hex.len() == 1 {
        hex_digit(hex[0])
    } else if hex.len() == 2 {
        if hex[0] == '+' {
            hex_digit(hex[1])
        } else {
            match (hex_digit(hex[0]), hex_digit(hex[1])) {
                (Some(a), Some(b)) => Some(16 * a + b),
                _ => None,
            }
        }
    } else {
        None
    }
}

/// The at most two characters that follow the percent sign at the front of
/// `s`.
pub open spec fn hex_field(s: Seq<char>) -> Seq<char> {
    if s.len() >= 3 {
        s.subrange(1, 3)
    } else {
        s.skip(1)
    }
}

/// A percent sign takes the next two characters with it: they become one
/// character where they are a hexadecimal byte, and stay as they are, sign
/// and all, where they are not.
pub open spec fn percent_decode(s: Seq<char>) -> Seq<char>
    decreases s.len(),
{
    if s.len() == 0 {
        Seq::empty()
    } else if s[0] != '%' {
        seq![s[0]] + percent_decode(s.skip(1))
    } else {
        let hex = hex_field(s);
        let rest = percent_decode(s.skip(1int + hex.len()));
        match hex_byte(hex) {
            Some(v) => seq![v as char] + rest,
            None => seq!['%'] + hex + rest,
        }
    }
}

/// The four entities that are resolved, one after the other.
pub open spec fn resolve_entities(s: Seq<char>) -> Seq<char> {
    let s1 = seqs::replace_all(s, "&amp;amp;"@, "&"@);
    let s2 = seqs::replace_all(s1, "&amp;"@, "&"@);
    let s3 = seqs::replace_all(s2, "&apos;"@, "'"@);
    seqs::replace_all(s3, "&eacute;"@, "\u{e9}"@)
}

/// A path or an id as a client sent it, decoded.
pub open spec fn decoded(s: Seq<char>) -> Seq<char> {
    percent_decode(resolve_entities(s))
}

/// The values of the hexadecimal digits by character code, -1 for every
/// other code.
pub fn hexv_table() -> (t: [i8; 256])
    ensures
        forall|n: int|
            0 <= n < 256 ==> #[trigger] t@[n] == match hex_code_value(n) {
                Some(v) => v,
                None => -1,
            },
{
    let mut t: [i8; 256] = [-1i8; 256];
    let mut d: usize = 0;
    while d < 10
        invariant
            d <= 10,
            forall|n: int|
                0 <= n < 256 ==> #[trigger] t@[n] == if '0' as int <= n < '0' as int + d {
                    n - '0' as int
                } else {
                    -1
                },
        decreases 10 - d,
    {
        t[48 + d] = d as i8;
        d += 1;
    }
    let mut h: usize = 0;
    while h < 6
        invariant
            h <= 6,
            forall|n: int|
                0 <= n < 256 ==> #[trigger] t@[n] == if '0' as int <= n <= '9' as int {
                    n - '0' as int
                } else if 'a' as int <= n < 'a' as int + h {
                    n - 'a' as int + 10
                } else if 'A' as int <= n < 'A' as int + h {
                    n - 'A' as int + 10
                } else {
                    -1
                },
        decreases 6 - h,
    {
        t[97 + h] = (10 + h) as i8;
        t[65 + h] = (10 + h) as i8;
        h += 1;
    }
    t
}

/// Whether `pat` stands in `hay` at position `i`.
fn chars_at(hay: &Vec<char>, pat: &Vec<char>, i: usize) -> (r: bool)
    requires
        i <= hay@.len(),
    ensures
        r == seqs::occurs_at(hay@, pat@, i as int),
{
    let n = hay.len();
    if n - i < pat.len() {
        return false;
    }
    let mut k: usize = 0;
    while k < pat.len()
        invariant
            n == hay@.len(),
            i + pat@.len() <= n,
            k <= pat@.len(),
            forall|j: int| 0 <= j < k ==> hay@[i + j] == pat@[j],
        decreases pat@.len() - k,
    {
        if hay[i + k] != pat[k] {
            assert(hay@.subrange(i as int, i + pat@.len())[k as int] != pat@[k as int]);
            return false;
        }
        k += 1;
    }
    assert(hay@.subrange(i as int, i + pat@.len()) =~= pat@);
    true
}

/// Whether `pat` stands anywhere in `hay`.
fn has_chars(hay: &Vec<char>, pat: &Vec<char>) -> (r: bool)
    requires
        pat@.len() > 0,
    ensures
        r == seqs::contains_seq(hay@, pat@),
{
    let mut i: usize = 0;
    while i < hay.len()
        invariant
            pat@.len() > 0,
            i <= hay@.len(),
            forall|j: int| j < i ==> !seqs::occurs_at(hay@, pat@, j),
        decreases hay@.len() - i,
    {
        if chars_at(hay, pat, i) {
            return true;
        }
        i += 1;
    }
    false
}

/// Puts `rep` before every character of `hay` and behind the last.
fn interleave(hay: &Vec<char>, rep: &str) -> (r: String)
    ensures
        r@ == rep@ + seqs::expand(hay@, |c: char| seq![c] + rep@),
{
    let ghost f = |c: char| seq![c] + rep@;
    let mut out = rep.to_owned();
    let mut i: usize = 0;
    assert(rep@ + seqs::expand(hay@.take(0), f) =~= rep@);
    while i < hay.len()
        invariant
            f == (|c: char| seq![c] + rep@),
            i <= hay@.len(),
            out@ == rep@ + seqs::expand(hay@.take(i as int), f),
        decreases hay@.len() - i,
    {
        let ghost before = seqs::expand(hay@.take(i as int), f);
        assert(hay@.take(i + 1).drop_last() =~= hay@.take(i as int));
        out.push(hay[i]);
        out.push_str(rep);
        assert(out@ =~= rep@ + (before + (seq![hay@[i as int]] + rep@)));
        i += 1;
    }
    assert(hay@.take(i as int) =~= hay@);
    out
}

/// Replaces every occurrence of `pat` in `hay` by `rep` and leaves the result
/// in `out`. Returns whether anything matched; where nothing did, `out` stays
/// as it was. The empty pattern stands before every character and behind the
/// last.
pub fn replace_into(hay: &str, pat: &str, rep: &str, out: &mut String) -> (r: bool)
    ensures
        r == seqs::contains_seq(hay@, pat@),
        r ==> final(out)@ == seqs::replace_all(hay@, pat@, rep@),
        !r ==> *final(out) == *old(out),
        pat@.len() == 0 ==> r && final(out)@ == rep@ + seqs::expand(
            hay@,
            |c: char| seq![c] + rep@,
        ),
{
    let h = chars_of(hay);
    let p = chars_of(pat);
    if p.len() == 0 {
        assert(hay@.subrange(0, 0) =~= pat@);
        assert(seqs::occurs_at(hay@, pat@, 0));
        *out = interleave(&h, rep);
        return true;
    }
    if !has_chars(&h, &p) {
        return false;
    }
    let mut buf = String::new();
    let mut i: usize = 0;
    assert(h@.skip(0) =~= h@);
    assert(buf@ + seqs::replace_all(h@, p@, rep@) =~= seqs::replace_all(h@, p@, rep@));
    while i < h.len()
        invariant
            h@ == hay@,
            p@ == pat@,
            p@.len() > 0,
            i <= h@.len(),
            seqs::replace_all(h@, p@, rep@) == buf@ + seqs::replace_all(h@.skip(i as int), p@, rep@),
        decreases h@.len() - i,
    {
        let ghost rest = h@.skip(i as int);
        let ghost before = buf@;
        if chars_at(&h, &p, i) {
            assert(rest.subrange(0, p@.len() as int) =~= h@.subrange(i as int, i + p@.len()));
            assert(rest.skip(p@.len() as int) =~= h@.skip(i + p@.len()));
            buf.push_str(rep);
            i += p.len();
            assert(before + (rep@ + seqs::replace_all(h@.skip(i as int), p@, rep@)) =~= buf@
                + seqs::replace_all(h@.skip(i as int), p@, rep@));
        } else {
            assert(rest.skip(1) =~= h@.skip(i + 1));
            assert(!seqs::starts_with(rest, p@)) by {
                if seqs::starts_with(rest, p@) {
                    assert(rest.subrange(0, p@.len() as int) =~= h@.subrange(
                        i as int,
                        i + p@.len(),
                    ));
                }
            }
            let ghost tail = seqs::replace_all(rest.skip(1), p@, rep@);
            assert(seqs::replace_all(rest, p@, rep@) =~= seq![rest[0]] + tail);
            buf.push(h[i]);
            i += 1;
            assert(before + (seq![rest[0]] + tail) =~= buf@ + tail);
        }
    }
    assert(h@.skip(i as int) =~= Seq::empty());
    assert(buf@ + seqs::replace_all(h@.skip(i as int), p@, rep@) =~= buf@);
    *out = buf;
    true
}

/// The value of a hexadecimal digit, -1 for any other character.
fn hex_value(table: &[i8; 256], c: char) -> (r: i8)
    requires
        forall|n: int|
            0 <= n < 256 ==> #[trigger] table@[n] == match hex_code_value(n) {
                Some(v) => v,
                None => -1,
            },
    ensures
        r == match hex_digit(c) {
            Some(v) => v,
            None => -1,
        },
        -1 <= r < 16,
{
    let n: u32 = c as u32;
    if n < 256 {
        table[n as usize]
    } else {
        -1
    }
}

/// The percent pass of `decode`.
fn decode_percent(s: &str) -> (r: String)
    ensures
        r@ == percent_decode(s@),
{
    let table = hexv_table();
    let cs = chars_of(s);
    let n = cs.len();
    let mut out = String::new();
    let mut i: usize = 0;
    assert(cs@.skip(0) =~= cs@);
    assert(out@ + percent_decode(cs@) =~= percent_decode(cs@));
    while i < n
        invariant
            n == cs@.len(),
            i <= n,
            forall|k: int|
                0 <= k < 256 ==> #[trigger] table@[k] == match hex_code_value(k) {
                    Some(v) => v,
                    None => -1,
                },
            percent_decode(cs@) == out@ + percent_decode(cs@.skip(i as int)),
        decreases n - i,
    {
        let ghost rest = cs@.skip(i as int);
        let ghost before = out@;
        if cs[i] != '%' {
            out.push(cs[i]);
            assert(rest.skip(1) =~= cs@.skip(i + 1));
            let ghost tail = percent_decode(rest.skip(1));
            assert(before + (seq![rest[0]] + tail) =~= out@ + tail);
            i += 1;
        } else {
            let left = n - i - 1;
            let len: usize = if left >= 2 {
                2
            } else {
                left
            };
            let ghost hex = hex_field(rest);
            assert(hex =~= cs@.subrange(i + 1, i + 1 + len));
            assert(rest.skip(1int + hex.len()) =~= cs@.skip(i + 1 + len));
            let ghost tail = percent_decode(rest.skip(1int + hex.len()));
            let mut value: i16 = -1;
            if len == 2 {
                let h2 = hex_value(&table, cs[i + 2]);
                if cs[i + 1] == '+' {
                    value = h2 as i16;
                } else {
                    let h1 = hex_value(&table, cs[i + 1]);
                    if h1 >= 0 && h2 >= 0 {
                        value = h1 as i16 * 16 + h2 as i16;
                    }
                }
            } else if len == 1 {
                value = hex_value(&table, cs[i + 1]) as i16;
            }
            assert(value == match hex_byte(hex) {
                Some(v) => v,
                None => -1,
            });
            if value >= 0 {
                out.push(value as u8 as char);
                assert(before + (seq![value as char] + tail) =~= out@ + tail);
            } else {
                out.push('%');
                let mut k: usize = 0;
                while k < len
                    invariant
                        n == cs@.len(),
                        i + 1 + len <= n,
                        k <= len,
                        hex == cs@.subrange(i + 1, i + 1 + len),
                        out@ == before + (seq!['%'] + hex.take(k as int)),
                    decreases len - k,
                {
                    out.push(cs[i + 1 + k]);
                    k += 1;
                    assert(hex.take(k as int) =~= hex.take(k - 1).push(hex[k - 1]));
                }
                assert(hex.take(len as int) =~= hex);
                assert(before + (seq!['%'] + hex + tail) =~= out@ + tail);
            }
            i = i + 1 + len;
        }
    }
    assert(cs@.skip(i as int) =~= Seq::empty());
    assert(out@ + percent_decode(cs@.skip(i as int)) =~= out@);
    out
}

/// One entity pass of `decode`.
fn substitute(cur: String, pat: &str, rep: &str) -> (r: String)
    ensures
        r@ == seqs::replace_all(cur@, pat@, rep@),
{
    let mut scratch = String::new();
    if replace_into(&cur, pat, rep, &mut scratch) {
        scratch
    } else {
        proof {
            seqs::lemma_replace_all_absent(cur@, pat@, rep@);
        }
        cur
    }
}

/// A text without `&` holds no entity.
proof fn lemma_entities_need_ampersand(s: Seq<char>)
    requires
        !s.contains('&'),
    ensures
        resolve_entities(s) == s,
{
    reveal_strlit("&amp;amp;");
    reveal_strlit("&amp;");
    reveal_strlit("&apos;");
    reveal_strlit("&eacute;");
    lemma_pattern_absent(s, "&amp;amp;"@);
    lemma_pattern_absent(s, "&amp;"@);
    lemma_pattern_absent(s, "&apos;"@);
    lemma_pattern_absent(s, "&eacute;"@);
    seqs::lemma_replace_all_absent(s, "&amp;amp;"@, "&"@);
    seqs::lemma_replace_all_absent(s, "&amp;"@, "&"@);
    seqs::lemma_replace_all_absent(s, "&apos;"@, "'"@);
    seqs::lemma_replace_all_absent(s, "&eacute;"@, "\u{e9}"@);
}

/// A pattern whose first character is missing is missing.
proof fn lemma_pattern_absent(s: Seq<char>, pat: Seq<char>)
    requires
        pat.len() > 0,
        !s.contains(pat[0]),
    ensures
        !seqs::contains_seq(s, pat),
{
    assert forall|i: int| !seqs::occurs_at(s, pat, i) by {
        if seqs::occurs_at(s, pat, i) {
            assert(s.subrange(i, i + pat.len())[0] == s[i]);
            assert(s.contains(s[i]));
        }
    }
}

/// The entity passes bring in no percent sign.
proof fn lemma_entities_add_no_percent(s: Seq<char>)
    requires
        !s.contains('%'),
    ensures
        !resolve_entities(s).contains('%'),
{
    reveal_strlit("&");
    reveal_strlit("'");
    reveal_strlit("\u{e9}");
    let s1 = seqs::replace_all(s, "&amp;amp;"@, "&"@);
    let s2 = seqs::replace_all(s1, "&amp;"@, "&"@);
    let s3 = seqs::replace_all(s2, "&apos;"@, "'"@);
    seqs::lemma_replace_all_keeps_absence(s, "&amp;amp;"@, "&"@, '%');
    seqs::lemma_replace_all_keeps_absence(s1, "&amp;"@, "&"@, '%');
    seqs::lemma_replace_all_keeps_absence(s2, "&apos;"@, "'"@, '%');
    seqs::lemma_replace_all_keeps_absence(s3, "&eacute;"@, "\u{e9}"@, '%');
}

/// The percent pass leaves a text without percent signs as it is.
pub proof fn lemma_percent_decode_plain(s: Seq<char>)
    requires
        !s.contains('%'),
    ensures
        percent_decode(s) == s,
    decreases s.len(),
{
    if s.len() > 0 {
        assert(s.contains(s[0]));
        let rest = s.skip(1);
        assert(!rest.contains('%')) by {
            assert forall|i: int| 0 <= i < rest.len() implies rest[i] != '%' by {
                assert(s[i + 1] != '%');
            }
        }
        lemma_percent_decode_plain(rest);
        assert(seq![s[0]] + rest =~= s);
    } else {
        assert(percent_decode(s) =~= s);
    }
}

/// A text that holds neither `&` nor `%` decodes to itself.
pub proof fn law_decode_plain(s: Seq<char>)
    requires
        !s.contains('&'),
        !s.contains('%'),
    ensures
        decoded(s) == s,
{
    lemma_entities_need_ampersand(s);
    lemma_percent_decode_plain(s);
}

/// Decodes a path or an id: the entities first, the doubly escaped ampersand
/// before the others, then one pass over the percent signs.
pub fn decode(s: &str) -> (r: String)
    ensures
        r@ == decoded(s@),
{
    let cs = chars_of(s);
    let mut has_amp = false;
    let mut has_pct = false;
    let mut i: usize = 0;
    while i < cs.len()
        invariant
            i <= cs@.len(),
            has_amp <==> exists|j: int| 0 <= j < i && cs@[j] == '&',
            has_pct <==> exists|j: int| 0 <= j < i && cs@[j] == '%',
        decreases cs@.len() - i,
    {
        if cs[i] == '&' {
            has_amp = true;
        } else if cs[i] == '%' {
            has_pct = true;
        }
        i += 1;
    }
    assert(has_amp == s@.contains('&'));
    assert(has_pct == s@.contains('%'));
    if !has_amp && !has_pct {
        proof {
            law_decode_plain(s@);
        }
        return s.to_owned();
    }
    let mut cur = s.to_owned();
    if has_amp {
        cur = substitute(cur, "&amp;amp;", "&");
        cur = substitute(cur, "&amp;", "&");
        cur = substitute(cur, "&apos;", "'");
        cur = substitute(cur, "&eacute;", "\u{e9}");
    } else {
        proof {
            lemma_entities_need_ampersand(s@);
        }
    }
    if !has_pct {
        proof {
            lemma_entities_add_no_percent(s@);
            lemma_percent_decode_plain(cur@);
        }
        return cur;
    }
    decode_percent(&cur)
}

/// How a character of a name is written in a URL.
pub open spec fn encoded_char(c: char) -> Seq<char> {
    if c == ' ' {
        "%20"@
    } else if c == '\'' {
        "%27"@
    } else if c == '(' {
        "%28"@
    } else if c == ')' {
        "%29"@
    } else if c == '"' {
        "%22"@
    } else if c == '#' {
        "%23"@
    } else if c == ',' {
        "%2C"@
    } else if c == '&' {
        "&amp;amp;"@
    } else if c == '%' {
        "%25"@
    } else if c == '<' {
        "%3C"@
    } else if c == '>' {
        "%3E"@
    } else if c == '\\' {
        "%5C"@
    } else if c == '?' {
        "%3F"@
    } else if c == '\u{e9}' {
        "&eacute;"@
    } else {
        seq![c]
    }
}

/// A name as it is written in a URL.
pub open spec fn encoded(s: Seq<char>) -> Seq<char> {
    seqs::expand(s, |c: char| encoded_char(c))
}

/// Encodes a name or a path for a URL.
pub fn encode(s: &str) -> (r: String)
    ensures
        r@ == encoded(s@),
{
    let cs = chars_of(s);
    let mut out = String::new();
    let mut i: usize = 0;
    while i < cs.len()
        invariant
            cs@ == s@,
            i <= cs@.len(),
            out@ == encoded(cs@.take(i as int)),
        decreases cs@.len() - i,
    {
        let c = cs[i];
        assert(cs@.take(i + 1).drop_last() =~= cs@.take(i as int));
        let ghost before = out@;
        if c == ' ' {
            out.push_str("%20");
        } else if c == '\'' {
            out.push_str("%27");
        } else if c == '(' {
            out.push_str("%28");
        } else if c == ')' {
            out.push_str("%29");
        } else if c == '"' {
            out.push_str("%22");
        } else if c == '#' {
            out.push_str("%23");
        } else if c == ',' {
            out.push_str("%2C");
        } else if c == '&' {
            out.push_str("&amp;amp;");
        } else if c == '%' {
            out.push_str("%25");
        } else if c == '<' {
            out.push_str("%3C");
        } else if c == '>' {
            out.push_str("%3E");
        } else if c == '\\' {
            out.push_str("%5C");
        } else if c == '?' {
            out.push_str("%3F");
        } else if c == '\u{e9}' {
            out.push_str("&eacute;");
        } else {
            out.push(c);
        }
        assert(out@ =~= before + encoded_char(c));
        i += 1;
    }
    assert(cs@.take(i as int) =~= s@);
    out
}

/// The characters that are markup in DIDL text or attributes.
pub open spec fn is_markup(c: char) -> bool {
    c == '&' || c == '<' || c == '>' || c == '"' || c == '\''
}

/// How a character is written in the doubly escaped DIDL of a listing.
pub open spec fn escaped_char(c: char) -> Seq<char> {
    if c == '&' {
        "&amp;amp;"@
    } else if c == '<' {
        "&amp;lt;"@
    } else if c == '>' {
        "&amp;gt;"@
    } else if c == '"' {
        "&amp;quot;"@
    } else if c == '\'' {
        "&amp;apos;"@
    } else {
        seq![c]
    }
}

/// A text as it is written in the doubly escaped DIDL of a listing.
pub open spec fn escaped(s: Seq<char>) -> Seq<char> {
    seqs::expand(s, |c: char| escaped_char(c))
}

/// Escapes a title or an id for the DIDL of a listing; borrows where there is
/// nothing to escape.
pub fn escape_didl(s: &str) -> (r: Cow<'_, str>)
    ensures
        r@ == escaped(s@),
        r is Borrowed <==> forall|i: int| 0 <= i < s@.len() ==> !is_markup(#[trigger] s@[i]),
{
    let cs = chars_of(s);
    let mut first: usize = 0;
    while first < cs.len() && !(cs[first] == '&' || cs[first] == '<' || cs[first] == '>'
        || cs[first] == '"' || cs[first] == '\'')
        invariant
            cs@ == s@,
            first <= cs@.len(),
            forall|j: int| 0 <= j < first ==> !is_markup(#[trigger] cs@[j]),
        decreases cs@.len() - first,
    {
        first += 1;
    }
    if first == cs.len() {
        proof {
            seqs::lemma_expand_identity(s@, |c: char| escaped_char(c));
        }
        return Cow::Borrowed(s);
    }
    assert(is_markup(s@[first as int]));
    let mut out = String::new();
    let mut i: usize = 0;
    while i < cs.len()
        invariant
            cs@ == s@,
            i <= cs@.len(),
            out@ == escaped(cs@.take(i as int)),
        decreases cs@.len() - i,
    {
        let c = cs[i];
        assert(cs@.take(i + 1).drop_last() =~= cs@.take(i as int));
        let ghost before = out@;
        if c == '&' {
            out.push_str("&amp;amp;");
        } else if c == '<' {
            out.push_str("&amp;lt;");
        } else if c == '>' {
            out.push_str("&amp;gt;");
        } else if c == '"' {
            out.push_str("&amp;quot;");
        } else if c == '\'' {
            out.push_str("&amp;apos;");
        } else {
            out.push(c);
        }
        assert(out@ =~= before + escaped_char(c));
        i += 1;
    }
    assert(cs@.take(i as int) =~= s@);
    Cow::Owned(out)
}

} // verus!
