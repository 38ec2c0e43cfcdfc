//! What the codecs promise together: what is encoded decodes to itself, and
//! nothing that is escaped or encoded carries markup.

use crate::codec;
use crate::seqs;
use vstd::prelude::*;

verus! {

/// The stages that an encoded name goes through while it is decoded: after
/// the doubly escaped ampersands, and after `&eacute;`.
spec fn after_ampersands(c: char) -> Seq<char> {
    if c == '&' {
        seq!['&']
    } else {
        codec::encoded_char(c)
    }
}

spec fn after_entities(c: char) -> Seq<char> {
    if c == '\u{e9}' {
        seq!['\u{e9}']
    } else {
        after_ampersands(c)
    }
}

/// A name that `encode` and `decode` carry over unchanged: it holds none of
/// the entities that `decode` resolves.
pub open spec fn entity_free(s: Seq<char>) -> bool {
    &&& !seqs::contains_seq(s, "&amp;"@)
    &&& !seqs::contains_seq(s, "&apos;"@)
    &&& !seqs::contains_seq(s, "&eacute;"@)
}

/// The characters of the literals in `encoded_char` and `escaped_char`.
proof fn lemma_codec_literals()
    ensures
        "%20"@ == seq!['%', '2', '0'],
        "%27"@ == seq!['%', '2', '7'],
        "%28"@ == seq!['%', '2', '8'],
        "%29"@ == seq!['%', '2', '9'],
        "%22"@ == seq!['%', '2', '2'],
        "%23"@ == seq!['%', '2', '3'],
        "%2C"@ == seq!['%', '2', 'C'],
        "%25"@ == seq!['%', '2', '5'],
        "%3C"@ == seq!['%', '3', 'C'],
        "%3E"@ == seq!['%', '3', 'E'],
        "%5C"@ == seq!['%', '5', 'C'],
        "%3F"@ == seq!['%', '3', 'F'],
        "&"@ == seq!['&'],
        "'"@ == seq!['\''],
        "\u{e9}"@ == seq!['\u{e9}'],
        "&amp;amp;"@ == seq!['&', 'a', 'm', 'p', ';', 'a', 'm', 'p', ';'],
        "&amp;"@ == seq!['&', 'a', 'm', 'p', ';'],
        "&apos;"@ == seq!['&', 'a', 'p', 'o', 's', ';'],
        "&eacute;"@ == seq!['&', 'e', 'a', 'c', 'u', 't', 'e', ';'],
{
    reveal_strlit("%20");
    reveal_strlit("%27");
    reveal_strlit("%28");
    reveal_strlit("%29");
    reveal_strlit("%22");
    reveal_strlit("%23");
    reveal_strlit("%2C");
    reveal_strlit("%25");
    reveal_strlit("%3C");
    reveal_strlit("%3E");
    reveal_strlit("%5C");
    reveal_strlit("%3F");
    reveal_strlit("&");
    reveal_strlit("'");
    reveal_strlit("\u{e9}");
    reveal_strlit("&amp;amp;");
    reveal_strlit("&amp;");
    reveal_strlit("&apos;");
    reveal_strlit("&eacute;");
    assert("%20"@ =~= seq!['%', '2', '0']);
    assert("%27"@ =~= seq!['%', '2', '7']);
    assert("%28"@ =~= seq!['%', '2', '8']);
    assert("%29"@ =~= seq!['%', '2', '9']);
    assert("%22"@ =~= seq!['%', '2', '2']);
    assert("%23"@ =~= seq!['%', '2', '3']);
    assert("%2C"@ =~= seq!['%', '2', 'C']);
    assert("%25"@ =~= seq!['%', '2', '5']);
    assert("%3C"@ =~= seq!['%', '3', 'C']);
    assert("%3E"@ =~= seq!['%', '3', 'E']);
    assert("%5C"@ =~= seq!['%', '5', 'C']);
    assert("%3F"@ =~= seq!['%', '3', 'F']);
    assert("&"@ =~= seq!['&']);
    assert("'"@ =~= seq!['\'']);
    assert("\u{e9}"@ =~= seq!['\u{e9}']);
    assert("&amp;amp;"@ =~= seq!['&', 'a', 'm', 'p', ';', 'a', 'm', 'p', ';']);
    assert("&amp;"@ =~= seq!['&', 'a', 'm', 'p', ';']);
    assert("&apos;"@ =~= seq!['&', 'a', 'p', 'o', 's', ';']);
    assert("&eacute;"@ =~= seq!['&', 'e', 'a', 'c', 'u', 't', 'e', ';']);
}

/// `c` is a character that only an unencoded character yields at the front of
/// its image.
spec fn is_plain(c: char) -> bool {
    c != '%' && c != '&'
}

/// An encoded character is itself, or begins with `%` or `&`.
proof fn lemma_encoded_char_shape(c: char)
    ensures
        codec::encoded_char(c) == seq![c] && is_plain(c) || codec::encoded_char(c).len() > 1
            && !is_plain(codec::encoded_char(c)[0]),
        c == '&' <==> codec::encoded_char(c) == "&amp;amp;"@,
        c != '&' && c != '\u{e9}' ==> !codec::encoded_char(c).contains('&'),
{
    lemma_codec_literals();
    if c != '&' && c != '\u{e9}' {
        let e = codec::encoded_char(c);
        assert forall|i: int| 0 <= i < e.len() implies e[i] != '&' by {}
    }
}

/// The doubly escaped ampersands turn back.
proof fn lemma_first_pass(s: Seq<char>)
    ensures
        seqs::replace_all(codec::encoded(s), "&amp;amp;"@, "&"@) == seqs::expand(
            s,
            |c: char| after_ampersands(c),
        ),
    decreases s.len(),
{
    lemma_codec_literals();
    let f0 = |c: char| codec::encoded_char(c);
    let f1 = |c: char| after_ampersands(c);
    let pat = "&amp;amp;"@;
    let rep = "&"@;
    if s.len() == 0 {
        assert(codec::encoded(s) =~= Seq::empty());
        assert(seqs::expand(s, f1) =~= Seq::empty());
    } else {
        let c = s[0];
        let t = codec::encoded(s.skip(1));
        lemma_first_pass(s.skip(1));
        seqs::lemma_expand_front(s, f0);
        seqs::lemma_expand_front(s, f1);
        lemma_encoded_char_shape(c);
        let whole = codec::encoded_char(c) + t;
        if c == '&' {
            assert(whole.subrange(0, pat.len() as int) =~= pat);
            assert(whole.skip(pat.len() as int) =~= t);
        } else if c == '\u{e9}' {
            let e = "&eacute;"@;
            if seqs::starts_with(whole, pat) {
                assert(whole.subrange(0, pat.len() as int)[1] == 'e');
            }
            let p = e.skip(1);
            assert(whole.skip(1) =~= p + t);
            assert forall|i: int| 0 <= i < p.len() implies p[i] != '&' by {}
            seqs::lemma_replace_all_prefix(p, t, pat, rep);
            if whole.len() >= pat.len() {
                assert(seq![whole[0]] + (p + seqs::replace_all(t, pat, rep)) =~= e
                    + seqs::replace_all(t, pat, rep));
            } else {
                assert(t.len() < pat.len());
            }
        } else {
            seqs::lemma_replace_all_prefix(codec::encoded_char(c), t, pat, rep);
        }
    }
}

/// A form that leaves a character as it is or begins with `%` or `&`.
spec fn keeps_plain(f: spec_fn(char) -> Seq<char>) -> bool {
    forall|c: char|
        #[trigger] f(c) == seq![c] || (f(c).len() > 0 && !is_plain(f(c)[0]))
}

/// If such a form of a name begins with plain characters, the name does too.
proof fn lemma_plain_prefix(s: Seq<char>, f1: spec_fn(char) -> Seq<char>, w: Seq<char>)
    requires
        keeps_plain(f1),
        forall|i: int| 0 <= i < w.len() ==> is_plain(#[trigger] w[i]),
        seqs::starts_with(seqs::expand(s, f1), w),
    ensures
        seqs::starts_with(s, w),
    decreases w.len(),
{
    let e = seqs::expand(s, f1);
    if w.len() == 0 {
        assert(s.subrange(0, 0) =~= w);
    } else {
        assert(e.subrange(0, w.len() as int)[0] == w[0]);
        if s.len() == 0 {
            assert(e =~= Seq::empty());
        } else {
            seqs::lemma_expand_front(s, f1);
            let tail = seqs::expand(s.skip(1), f1);
            assert(is_plain(w[0]));
            assert(e[0] == f1(s[0])[0]);
            assert(f1(s[0]) =~= seq![s[0]]);
            assert(e.skip(1) =~= tail);
            let v = w.skip(1);
            assert forall|i: int| 0 <= i < v.len() implies is_plain(#[trigger] v[i]) by {
                assert(is_plain(w[i + 1]));
            }
            assert(tail.subrange(0, v.len() as int) =~= e.subrange(0, w.len() as int).skip(1));
            lemma_plain_prefix(s.skip(1), f1, v);
            assert(s.subrange(0, w.len() as int) =~= w) by {
                assert forall|i: int| 0 <= i < w.len() implies s[i] == w[i] by {
                    if i > 0 {
                        assert(s.skip(1).subrange(0, v.len() as int)[i - 1] == v[i - 1]);
                    }
                }
            }
        }
    }
}

proof fn lemma_after_ampersands_keeps_plain()
    ensures
        keeps_plain(|c: char| after_ampersands(c)),
{
    lemma_codec_literals();
    let f = |c: char| after_ampersands(c);
    assert forall|c: char|
        #[trigger] f(c) == seq![c] || (f(c).len() > 0 && !is_plain(f(c)[0])) by {
        lemma_encoded_char_shape(c);
    }
}

/// The passes over `&amp;` and `&apos;` find nothing in the partly decoded
/// form of a name without that entity.
proof fn lemma_entity_pass_idle(s: Seq<char>, w: Seq<char>, rep: Seq<char>)
    requires
        w.len() > 0,
        w[0] != 'e',
        forall|i: int| 0 <= i < w.len() ==> is_plain(#[trigger] w[i]),
        !seqs::contains_seq(s, seq!['&'] + w),
    ensures
        ({
            let e = seqs::expand(s, |c: char| after_ampersands(c));
            seqs::replace_all(e, seq!['&'] + w, rep) == e
        }),
    decreases s.len(),
{
    let f1 = |c: char| after_ampersands(c);
    let pat = seq!['&'] + w;
    let e = seqs::expand(s, f1);
    if s.len() == 0 {
        assert(e =~= Seq::empty());
    } else {
        lemma_codec_literals();
        let c = s[0];
        let t = seqs::expand(s.skip(1), f1);
        seqs::lemma_expand_front(s, f1);
        lemma_encoded_char_shape(c);
        lemma_absent_in_tail(s, pat);
        lemma_entity_pass_idle(s.skip(1), w, rep);
        if c == '&' {
            if seqs::starts_with(e, pat) {
                assert(t.subrange(0, w.len() as int) =~= e.subrange(0, pat.len() as int).skip(1));
                assert(pat.skip(1) =~= w);
                lemma_after_ampersands_keeps_plain();
                lemma_plain_prefix(s.skip(1), f1, w);
                assert(s.subrange(0, pat.len() as int) =~= pat) by {
                    assert forall|i: int| 0 <= i < pat.len() implies s[i] == pat[i] by {
                        if i > 0 {
                            assert(s.skip(1).subrange(0, w.len() as int)[i - 1] == w[i - 1]);
                        }
                    }
                }
                assert(seqs::occurs_at(s, pat, 0));
            }
            assert(e.skip(1) =~= t);
            assert(seq![e[0]] + t =~= e);
        } else if c == '\u{e9}' {
            let a = "&eacute;"@;
            if seqs::starts_with(e, pat) {
                assert(e.subrange(0, pat.len() as int)[1] == 'e');
                assert(pat[1] == w[0]);
            }
            let p = a.skip(1);
            assert(e.skip(1) =~= p + t);
            assert forall|i: int| 0 <= i < p.len() implies p[i] != '&' by {}
            seqs::lemma_replace_all_prefix(p, t, pat, rep);
            assert(seq![e[0]] + (p + t) =~= e);
        } else {
            seqs::lemma_replace_all_prefix(f1(c), t, pat, rep);
        }
    }
}

/// What is absent from a text is absent from its tail.
proof fn lemma_absent_in_tail(s: Seq<char>, pat: Seq<char>)
    requires
        s.len() > 0,
        !seqs::contains_seq(s, pat),
    ensures
        !seqs::contains_seq(s.skip(1), pat),
{
    assert forall|i: int| !seqs::occurs_at(s.skip(1), pat, i) by {
        if seqs::occurs_at(s.skip(1), pat, i) {
            assert(s.subrange(i + 1, i + 1 + pat.len()) =~= s.skip(1).subrange(i, i + pat.len()));
            assert(seqs::occurs_at(s, pat, i + 1));
        }
    }
}

/// The last entity pass turns every `&eacute;` back and finds no other.
proof fn lemma_last_pass(s: Seq<char>)
    requires
        !seqs::contains_seq(s, "&eacute;"@),
    ensures
        seqs::replace_all(
            seqs::expand(s, |c: char| after_ampersands(c)),
            "&eacute;"@,
            "\u{e9}"@,
        ) == seqs::expand(s, |c: char| after_entities(c)),
    decreases s.len(),
{
    lemma_codec_literals();
    let f1 = |c: char| after_ampersands(c);
    let f2 = |c: char| after_entities(c);
    let pat = "&eacute;"@;
    let rep = "\u{e9}"@;
    let e = seqs::expand(s, f1);
    if s.len() == 0 {
        assert(e =~= Seq::empty());
        assert(seqs::expand(s, f2) =~= Seq::empty());
    } else {
        let c = s[0];
        let t = seqs::expand(s.skip(1), f1);
        seqs::lemma_expand_front(s, f1);
        seqs::lemma_expand_front(s, f2);
        lemma_encoded_char_shape(c);
        lemma_absent_in_tail(s, pat);
        lemma_last_pass(s.skip(1));
        if c == '&' {
            let w = pat.skip(1);
            if seqs::starts_with(e, pat) {
                assert(t.subrange(0, w.len() as int) =~= e.subrange(0, pat.len() as int).skip(1));
                assert forall|i: int| 0 <= i < w.len() implies is_plain(#[trigger] w[i]) by {}
                lemma_after_ampersands_keeps_plain();
                lemma_plain_prefix(s.skip(1), f1, w);
                assert(s.subrange(0, pat.len() as int) =~= pat) by {
                    assert forall|i: int| 0 <= i < pat.len() implies s[i] == pat[i] by {
                        if i > 0 {
                            assert(s.skip(1).subrange(0, w.len() as int)[i - 1] == w[i - 1]);
                        }
                    }
                }
                assert(seqs::occurs_at(s, pat, 0));
            }
            assert(e.skip(1) =~= t);
            assert(f2(c) =~= seq!['&']);
            if e.len() < pat.len() {
                assert(seqs::replace_all(t, pat, rep) == t);
            }
        } else if c == '\u{e9}' {
            assert(e.subrange(0, pat.len() as int) =~= pat);
            assert(e.skip(pat.len() as int) =~= t);
        } else {
            seqs::lemma_replace_all_prefix(f1(c), t, pat, rep);
        }
    }
}

/// The percent pass turns every percent escape back.
proof fn lemma_percent_pass(s: Seq<char>)
    ensures
        codec::percent_decode(seqs::expand(s, |c: char| after_entities(c))) == s,
    decreases s.len(),
{
    lemma_codec_literals();
    let f2 = |c: char| after_entities(c);
    let e = seqs::expand(s, f2);
    if s.len() == 0 {
        assert(e =~= Seq::empty());
        assert(codec::percent_decode(e) =~= s);
    } else {
        let c = s[0];
        let t = seqs::expand(s.skip(1), f2);
        seqs::lemma_expand_front(s, f2);
        lemma_encoded_char_shape(c);
        lemma_percent_pass(s.skip(1));
        if f2(c) == seq![c] {
            assert(e[0] == c && c != '%');
            assert(e.skip(1) =~= t);
        } else {
            let x = f2(c);
            assert(x.len() == 3 && x[0] == '%');
            assert(codec::hex_field(e) =~= seq![x[1], x[2]]);
            assert(e.skip(3) =~= t);
            assert(codec::hex_byte(seq![x[1], x[2]]) == Some(c as int));
        }
        assert(seq![c] + s.skip(1) =~= s);
    }
}

/// A name that holds no entity comes back from `encode` and `decode` as it
/// was.
pub proof fn law_decode_encode(s: Seq<char>)
    requires
        entity_free(s),
    ensures
        codec::decoded(codec::encoded(s)) == s,
{
    lemma_codec_literals();
    lemma_first_pass(s);
    let amp = seq!['a', 'm', 'p', ';'];
    let apos = seq!['a', 'p', 'o', 's', ';'];
    assert("&amp;"@ =~= seq!['&'] + amp);
    assert("&apos;"@ =~= seq!['&'] + apos);
    lemma_entity_pass_idle(s, amp, "&"@);
    lemma_entity_pass_idle(s, apos, "'"@);
    lemma_last_pass(s);
    lemma_percent_pass(s);
}

/// The doubly escaped ampersand holds the escaped one.
proof fn lemma_no_double_ampersand(s: Seq<char>)
    requires
        !seqs::contains_seq(s, "&amp;"@),
    ensures
        !seqs::contains_seq(s, "&amp;amp;"@),
{
    lemma_escape_literals();
    if seqs::contains_seq(s, "&amp;amp;"@) {
        let i = choose|i: int| seqs::occurs_at(s, "&amp;amp;"@, i);
        assert(s.subrange(i, i + 5) =~= s.subrange(i, i + 9).take(5));
        assert("&amp;amp;"@.take(5) =~= "&amp;"@);
        assert(seqs::occurs_at(s, "&amp;"@, i));
    }
}

/// A text without entities and without percent signs is decoded to itself: a
/// lone ampersand stays.
pub proof fn law_decode_keeps_ampersands(s: Seq<char>)
    requires
        entity_free(s),
        !s.contains('%'),
    ensures
        codec::decoded(s) == s,
{
    lemma_no_double_ampersand(s);
    seqs::lemma_replace_all_absent(s, "&amp;amp;"@, "&"@);
    seqs::lemma_replace_all_absent(s, "&amp;"@, "&"@);
    seqs::lemma_replace_all_absent(s, "&apos;"@, "'"@);
    seqs::lemma_replace_all_absent(s, "&eacute;"@, "\u{e9}"@);
    codec::lemma_percent_decode_plain(s);
}

/// The five entities that XML predefines, each with its character.
pub open spec fn xml_entity(s: Seq<char>) -> Option<(Seq<char>, char)> {
    if seqs::starts_with(s, "&amp;"@) {
        Some(("&amp;"@, '&'))
    } else if seqs::starts_with(s, "&lt;"@) {
        Some(("&lt;"@, '<'))
    } else if seqs::starts_with(s, "&gt;"@) {
        Some(("&gt;"@, '>'))
    } else if seqs::starts_with(s, "&quot;"@) {
        Some(("&quot;"@, '"'))
    } else if seqs::starts_with(s, "&apos;"@) {
        Some(("&apos;"@, '\''))
    } else {
        None
    }
}

/// What a client reads where a text is escaped once: the predefined entities
/// of XML resolved in one pass.
pub open spec fn xml_unescaped(s: Seq<char>) -> Seq<char>
    decreases s.len(),
{
    proof {
        lemma_escape_literals();
    }
    if s.len() == 0 {
        Seq::empty()
    } else {
        match xml_entity(s) {
            Some((entity, c)) => seq![c] + xml_unescaped(s.skip(entity.len() as int)),
            None => seq![s[0]] + xml_unescaped(s.skip(1)),
        }
    }
}

/// A character escaped once.
spec fn escaped_once(c: char) -> Seq<char> {
    if c == '&' {
        "&amp;"@
    } else if c == '<' {
        "&lt;"@
    } else if c == '>' {
        "&gt;"@
    } else if c == '"' {
        "&quot;"@
    } else if c == '\'' {
        "&apos;"@
    } else {
        seq![c]
    }
}

/// The characters of the literals that escapes are made of.
pub proof fn lemma_escape_literals()
    ensures
        "&amp;"@ == seq!['&', 'a', 'm', 'p', ';'],
        "&lt;"@ == seq!['&', 'l', 't', ';'],
        "&gt;"@ == seq!['&', 'g', 't', ';'],
        "&quot;"@ == seq!['&', 'q', 'u', 'o', 't', ';'],
        "&apos;"@ == seq!['&', 'a', 'p', 'o', 's', ';'],
        "&amp;amp;"@ == seq!['&', 'a', 'm', 'p', ';', 'a', 'm', 'p', ';'],
        "&amp;lt;"@ == seq!['&', 'a', 'm', 'p', ';', 'l', 't', ';'],
        "&amp;gt;"@ == seq!['&', 'a', 'm', 'p', ';', 'g', 't', ';'],
        "&amp;quot;"@ == seq!['&', 'a', 'm', 'p', ';', 'q', 'u', 'o', 't', ';'],
        "&amp;apos;"@ == seq!['&', 'a', 'm', 'p', ';', 'a', 'p', 'o', 's', ';'],
{
    reveal_strlit("&amp;");
    reveal_strlit("&lt;");
    reveal_strlit("&gt;");
    reveal_strlit("&quot;");
    reveal_strlit("&apos;");
    reveal_strlit("&amp;amp;");
    reveal_strlit("&amp;lt;");
    reveal_strlit("&amp;gt;");
    reveal_strlit("&amp;quot;");
    reveal_strlit("&amp;apos;");
    assert("&amp;"@ =~= seq!['&', 'a', 'm', 'p', ';']);
    assert("&lt;"@ =~= seq!['&', 'l', 't', ';']);
    assert("&gt;"@ =~= seq!['&', 'g', 't', ';']);
    assert("&quot;"@ =~= seq!['&', 'q', 'u', 'o', 't', ';']);
    assert("&apos;"@ =~= seq!['&', 'a', 'p', 'o', 's', ';']);
    assert("&amp;amp;"@ =~= seq!['&', 'a', 'm', 'p', ';', 'a', 'm', 'p', ';']);
    assert("&amp;lt;"@ =~= seq!['&', 'a', 'm', 'p', ';', 'l', 't', ';']);
    assert("&amp;gt;"@ =~= seq!['&', 'a', 'm', 'p', ';', 'g', 't', ';']);
    assert("&amp;quot;"@ =~= seq!['&', 'a', 'm', 'p', ';', 'q', 'u', 'o', 't', ';']);
    assert("&amp;apos;"@ =~= seq!['&', 'a', 'm', 'p', ';', 'a', 'p', 'o', 's', ';']);
}

/// A prefix without `&` is read as it stands.
pub proof fn lemma_unescape_prefix(p: Seq<char>, t: Seq<char>)
    requires
        !p.contains('&'),
    ensures
        xml_unescaped(p + t) == p + xml_unescaped(t),
    decreases p.len(),
{
    let s = p + t;
    if p.len() == 0 {
        assert(s =~= t);
        assert(p + xml_unescaped(t) =~= xml_unescaped(t));
    } else {
        lemma_escape_literals();
        assert(p.contains(p[0]));
        let q = p.skip(1);
        assert(!q.contains('&')) by {
            assert forall|i: int| 0 <= i < q.len() implies q[i] != '&' by {
                assert(p[i + 1] != '&');
            }
        }
        lemma_not_at_front(s, "&amp;"@);
        lemma_not_at_front(s, "&lt;"@);
        lemma_not_at_front(s, "&gt;"@);
        lemma_not_at_front(s, "&quot;"@);
        lemma_not_at_front(s, "&apos;"@);
        lemma_unescape_prefix(q, t);
        assert(s.skip(1) =~= q + t);
        assert(seq![s[0]] + (q + xml_unescaped(t)) =~= p + xml_unescaped(t));
    }
}

/// A text does not begin with what begins otherwise.
proof fn lemma_not_at_front(s: Seq<char>, pat: Seq<char>)
    requires
        s.len() > 0,
        pat.len() > 0,
        s[0] != pat[0],
    ensures
        !seqs::starts_with(s, pat),
{
    if seqs::starts_with(s, pat) {
        assert(s.subrange(0, pat.len() as int)[0] == s[0]);
    }
}

/// Nor with what differs at its second or third character.
proof fn lemma_differs(s: Seq<char>, pat: Seq<char>, i: int)
    requires
        0 <= i < s.len(),
        i < pat.len(),
        s[i] != pat[i],
    ensures
        !seqs::starts_with(s, pat),
{
    if seqs::starts_with(s, pat) {
        assert(s.subrange(0, pat.len() as int)[i] == s[i]);
    }
}

/// An escape in front of a text is read as its character.
proof fn lemma_unescape_entity(c: char, t: Seq<char>)
    requires
        codec::is_markup(c),
    ensures
        xml_unescaped(escaped_once(c) + t) == seq![c] + xml_unescaped(t),
{
    lemma_escape_literals();
    let e = escaped_once(c);
    let s = e + t;
    assert(s.subrange(0, e.len() as int) =~= e);
    assert(s.skip(e.len() as int) =~= t);
    if c != '&' {
        lemma_differs(s, "&amp;"@, if c == '\'' { 2 } else { 1 });
    }
    if c == '>' || c == '"' || c == '\'' {
        lemma_differs(s, "&lt;"@, 1);
    }
    if c == '"' || c == '\'' {
        lemma_differs(s, "&gt;"@, 1);
    }
    if c == '\'' {
        lemma_differs(s, "&quot;"@, 1);
    }
}

/// What a client reads of a text escaped once is the text.
proof fn lemma_unescape_once(s: Seq<char>)
    ensures
        xml_unescaped(seqs::expand(s, |c: char| escaped_once(c))) == s,
    decreases s.len(),
{
    let g = |c: char| escaped_once(c);
    let e = seqs::expand(s, g);
    if s.len() == 0 {
        assert(e =~= Seq::empty());
        assert(xml_unescaped(e) =~= s);
    } else {
        let c = s[0];
        let t = seqs::expand(s.skip(1), g);
        seqs::lemma_expand_front(s, g);
        lemma_unescape_once(s.skip(1));
        if codec::is_markup(c) {
            lemma_unescape_entity(c, t);
        } else {
            assert(!seq![c].contains('&'));
            lemma_unescape_prefix(seq![c], t);
        }
        assert(seq![c] + s.skip(1) =~= s);
    }
}

/// Reading an escaped text once leaves it escaped once.
proof fn lemma_unescape_twice(s: Seq<char>)
    ensures
        xml_unescaped(codec::escaped(s)) == seqs::expand(s, |c: char| escaped_once(c)),
    decreases s.len(),
{
    let f = |c: char| codec::escaped_char(c);
    let g = |c: char| escaped_once(c);
    let e = seqs::expand(s, f);
    if s.len() == 0 {
        assert(e =~= Seq::empty());
        assert(seqs::expand(s, g) =~= Seq::empty());
        assert(xml_unescaped(e) =~= Seq::empty());
    } else {
        lemma_escape_literals();
        let c = s[0];
        let t = seqs::expand(s.skip(1), f);
        seqs::lemma_expand_front(s, f);
        seqs::lemma_expand_front(s, g);
        lemma_unescape_twice(s.skip(1));
        if codec::is_markup(c) {
            let p = escaped_once(c).skip(1);
            assert(codec::escaped_char(c) =~= escaped_once('&') + p);
            assert(e =~= escaped_once('&') + (p + t));
            lemma_unescape_entity('&', p + t);
            assert forall|i: int| 0 <= i < p.len() implies p[i] != '&' by {}
            lemma_unescape_prefix(p, t);
            assert(seq!['&'] + (p + xml_unescaped(t)) =~= escaped_once(c) + xml_unescaped(t));
        } else {
            assert(!seq![c].contains('&'));
            lemma_unescape_prefix(seq![c], t);
        }
    }
}

/// An escaped text survives the two readings of a listing: the client that
/// unescapes the result and then parses the DIDL in it reads the text itself.
pub proof fn law_escape_reads_back(s: Seq<char>)
    ensures
        xml_unescaped(xml_unescaped(codec::escaped(s))) == s,
{
    lemma_unescape_twice(s);
    lemma_unescape_once(s);
}

/// No escaped text holds an angle bracket or a quote, neither on the wire nor
/// after the client has unescaped the result once: it cannot become markup or
/// leave an attribute.
pub proof fn law_escape_has_no_markup(s: Seq<char>, x: char)
    requires
        codec::is_markup(x),
        x != '&',
    ensures
        !codec::escaped(s).contains(x),
        !xml_unescaped(codec::escaped(s)).contains(x),
{
    lemma_escape_literals();
    let f = |c: char| codec::escaped_char(c);
    let g = |c: char| escaped_once(c);
    assert forall|c: char| !(#[trigger] f(c)).contains(x) by {
        let e = f(c);
        assert forall|i: int| 0 <= i < e.len() implies e[i] != x by {}
    }
    assert forall|c: char| !(#[trigger] g(c)).contains(x) by {
        let e = g(c);
        assert forall|i: int| 0 <= i < e.len() implies e[i] != x by {}
    }
    seqs::lemma_expand_absent(s, f, x);
    seqs::lemma_expand_absent(s, g, x);
    lemma_unescape_twice(s);
}

/// A character of an encoded name once the name has been unescaped once.
spec fn read_once(c: char) -> Seq<char> {
    if c == '&' {
        "&amp;"@
    } else {
        codec::encoded_char(c)
    }
}

/// What stands for any other character than `&` in an encoded name is no
/// entity of XML.
proof fn lemma_unescape_encoded(c: char, t: Seq<char>)
    requires
        c != '&',
    ensures
        xml_unescaped(codec::encoded_char(c) + t) == codec::encoded_char(c) + xml_unescaped(t),
{
    lemma_codec_literals();
    lemma_escape_literals();
    lemma_encoded_char_shape(c);
    let x = codec::encoded_char(c);
    if c == '\u{e9}' {
        let s = x + t;
        let p = x.skip(1);
        lemma_differs(s, "&amp;"@, 1);
        lemma_differs(s, "&lt;"@, 1);
        lemma_differs(s, "&gt;"@, 1);
        lemma_differs(s, "&quot;"@, 1);
        lemma_differs(s, "&apos;"@, 1);
        assert(s.skip(1) =~= p + t);
        assert forall|i: int| 0 <= i < p.len() implies p[i] != '&' by {}
        lemma_unescape_prefix(p, t);
        assert(seq!['&'] + (p + xml_unescaped(t)) =~= x + xml_unescaped(t));
    } else {
        lemma_unescape_prefix(x, t);
    }
}

/// What a client reads of an encoded name, after one reading and after two.
proof fn lemma_readings(s: Seq<char>)
    ensures
        xml_unescaped(codec::encoded(s)) == seqs::expand(s, |c: char| read_once(c)),
        xml_unescaped(seqs::expand(s, |c: char| read_once(c))) == seqs::expand(
            s,
            |c: char| after_ampersands(c),
        ),
    decreases s.len(),
{
    let f0 = |c: char| codec::encoded_char(c);
    let f1 = |c: char| read_once(c);
    let f2 = |c: char| after_ampersands(c);
    if s.len() == 0 {
        assert(codec::encoded(s) =~= Seq::empty());
        assert(seqs::expand(s, f1) =~= Seq::empty());
        assert(seqs::expand(s, f2) =~= Seq::empty());
        assert(xml_unescaped(Seq::empty()) =~= Seq::empty());
    } else {
        lemma_escape_literals();
        let c = s[0];
        let rest = s.skip(1);
        let t0 = codec::encoded(rest);
        let t1 = seqs::expand(rest, f1);
        let t2 = seqs::expand(rest, f2);
        seqs::lemma_expand_front(s, f0);
        seqs::lemma_expand_front(s, f1);
        seqs::lemma_expand_front(s, f2);
        lemma_readings(rest);
        if c == '&' {
            let p = seq!['a', 'm', 'p', ';'];
            assert(codec::encoded_char(c) + t0 =~= escaped_once('&') + (p + t0));
            lemma_unescape_entity('&', p + t0);
            assert forall|i: int| 0 <= i < p.len() implies p[i] != '&' by {}
            lemma_unescape_prefix(p, t0);
            assert(seq!['&'] + (p + t1) =~= "&amp;"@ + t1);
            lemma_unescape_entity('&', t1);
        } else {
            lemma_unescape_encoded(c, t0);
            lemma_unescape_encoded(c, t1);
        }
    }
}

/// The first two entity passes over a name that has been unescaped once.
proof fn lemma_read_once_passes(s: Seq<char>)
    requires
        !seqs::contains_seq(s, "&amp;"@),
    ensures
        ({
            let e = seqs::expand(s, |c: char| read_once(c));
            &&& seqs::replace_all(e, "&amp;amp;"@, "&"@) == e
            &&& seqs::replace_all(e, "&amp;"@, "&"@) == seqs::expand(
                s,
                |c: char| after_ampersands(c),
            )
        }),
    decreases s.len(),
{
    lemma_codec_literals();
    let f1 = |c: char| read_once(c);
    let f2 = |c: char| after_ampersands(c);
    let e = seqs::expand(s, f1);
    let double = "&amp;amp;"@;
    let single = "&amp;"@;
    let rep = "&"@;
    if s.len() == 0 {
        assert(e =~= Seq::empty());
        assert(seqs::expand(s, f2) =~= Seq::empty());
    } else {
        let c = s[0];
        let rest = s.skip(1);
        let t = seqs::expand(rest, f1);
        let u = seqs::expand(rest, f2);
        seqs::lemma_expand_front(s, f1);
        seqs::lemma_expand_front(s, f2);
        lemma_encoded_char_shape(c);
        lemma_absent_in_tail(s, single);
        lemma_read_once_passes(rest);
        if c == '&' {
            let p = seq!['a', 'm', 'p', ';'];
            if seqs::starts_with(e, double) {
                assert(t.subrange(0, 4) =~= e.subrange(0, 9).skip(5));
                assert(double.skip(5) =~= p);
                assert forall|i: int| 0 <= i < p.len() implies is_plain(#[trigger] p[i]) by {}
                lemma_read_once_keeps_plain();
                lemma_plain_prefix(rest, f1, p);
                assert(s.subrange(0, 5) =~= single) by {
                    assert forall|i: int| 0 <= i < 5 implies s[i] == single[i] by {
                        if i > 0 {
                            assert(rest.subrange(0, 4)[i - 1] == p[i - 1]);
                        }
                    }
                }
                assert(seqs::occurs_at(s, single, 0));
            }
            assert(e.skip(1) =~= p + t);
            assert forall|i: int| 0 <= i < p.len() implies p[i] != '&' by {}
            seqs::lemma_replace_all_prefix(p, t, double, rep);
            assert(seq![e[0]] + (p + t) =~= e);
            assert(e.subrange(0, 5) =~= single);
            assert(e.skip(5) =~= t);
        } else if c == '\u{e9}' {
            let x = "&eacute;"@;
            let p = x.skip(1);
            lemma_differs(e, double, 1);
            lemma_differs(e, single, 1);
            assert(e.skip(1) =~= p + t);
            assert forall|i: int| 0 <= i < p.len() implies p[i] != '&' by {}
            seqs::lemma_replace_all_prefix(p, t, double, rep);
            seqs::lemma_replace_all_prefix(p, t, single, rep);
            assert(seq![e[0]] + (p + t) =~= e);
            assert(seq![e[0]] + (p + u) =~= x + u);
        } else {
            seqs::lemma_replace_all_prefix(f1(c), t, double, rep);
            seqs::lemma_replace_all_prefix(f1(c), t, single, rep);
        }
    }
}

proof fn lemma_read_once_keeps_plain()
    ensures
        keeps_plain(|c: char| read_once(c)),
{
    lemma_codec_literals();
    let f = |c: char| read_once(c);
    assert forall|c: char|
        #[trigger] f(c) == seq![c] || (f(c).len() > 0 && !is_plain(f(c)[0])) by {
        lemma_encoded_char_shape(c);
    }
}

/// A name that holds no entity comes back from `decode` as it was, too, where
/// a client has unescaped its encoded form once, or twice, as the readers of a
/// listing do.
pub proof fn law_decode_what_clients_read(s: Seq<char>)
    requires
        entity_free(s),
    ensures
        codec::decoded(xml_unescaped(codec::encoded(s))) == s,
        codec::decoded(xml_unescaped(xml_unescaped(codec::encoded(s)))) == s,
{
    lemma_codec_literals();
    lemma_readings(s);
    lemma_read_once_passes(s);
    let amp = seq!['a', 'm', 'p', ';'];
    let apos = seq!['a', 'p', 'o', 's', ';'];
    let double = amp + amp;
    assert("&amp;"@ =~= seq!['&'] + amp);
    assert("&apos;"@ =~= seq!['&'] + apos);
    assert("&amp;amp;"@ =~= seq!['&'] + double);
    lemma_no_double_ampersand(s);
    assert forall|i: int| 0 <= i < double.len() implies is_plain(#[trigger] double[i]) by {}
    lemma_entity_pass_idle(s, double, "&"@);
    lemma_entity_pass_idle(s, amp, "&"@);
    lemma_entity_pass_idle(s, apos, "'"@);
    lemma_last_pass(s);
    lemma_percent_pass(s);
}

/// The characters that never stand in an encoded name.
pub open spec fn is_reserved(c: char) -> bool {
    c == ' ' || c == '\'' || c == '(' || c == ')' || c == '"' || c == '#' || c == ',' || c == '<'
        || c == '>' || c == '\\' || c == '?'
}

/// No encoded name holds a space, a quote, an angle bracket, a parenthesis, a
/// comma, a backslash or a character that splits a URL.
pub proof fn law_encode_has_no_reserved(s: Seq<char>, x: char)
    requires
        is_reserved(x),
    ensures
        !codec::encoded(s).contains(x),
{
    lemma_codec_literals();
    let f = |c: char| codec::encoded_char(c);
    assert forall|c: char| !(#[trigger] f(c)).contains(x) by {
        let e = f(c);
        assert forall|i: int| 0 <= i < e.len() implies e[i] != x by {}
    }
    seqs::lemma_expand_absent(s, f, x);
}

/// What stands in front of an encoded name tells its first character.
proof fn lemma_encoded_front(c: char, x: Seq<char>, d: char, y: Seq<char>)
    requires
        codec::encoded_char(c) + x == codec::encoded_char(d) + y,
    ensures
        c == d,
        x == y,
{
    lemma_codec_literals();
    lemma_encoded_char_shape(c);
    lemma_encoded_char_shape(d);
    let e = codec::encoded_char(c);
    let f = codec::encoded_char(d);
    let whole = e + x;
    assert(whole == f + y);
    assert(whole[0] == e[0] && whole[0] == f[0]);
    if !is_plain(c) || e.len() > 1 {
        assert(whole[1] == e[1] && whole[2] == e[2]);
        assert(whole[1] == f[1] && whole[2] == f[2]);
    }
    assert(c == d);
    assert(x =~= whole.skip(e.len() as int));
    assert(y =~= whole.skip(f.len() as int));
}

/// Two names are never encoded alike.
pub proof fn law_encode_is_injective(a: Seq<char>, b: Seq<char>)
    requires
        codec::encoded(a) == codec::encoded(b),
    ensures
        a == b,
    decreases a.len(),
{
    let f = |c: char| codec::encoded_char(c);
    if a.len() > 0 {
        seqs::lemma_expand_front(a, f);
        lemma_encoded_char_shape(a[0]);
        assert(codec::encoded(a).len() > 0);
    } else {
        assert(codec::encoded(a).len() == 0);
    }
    if b.len() > 0 {
        seqs::lemma_expand_front(b, f);
        lemma_encoded_char_shape(b[0]);
        assert(codec::encoded(b).len() > 0);
    } else {
        assert(codec::encoded(b).len() == 0);
    }
    if a.len() == 0 || b.len() == 0 {
        assert(a =~= b);
    } else {
        lemma_encoded_front(
            a[0],
            codec::encoded(a.skip(1)),
            b[0],
            codec::encoded(b.skip(1)),
        );
        law_encode_is_injective(a.skip(1), b.skip(1));
        assert(a =~= seq![a[0]] + a.skip(1));
        assert(b =~= seq![b[0]] + b.skip(1));
    }
}

/// The percent pass walks over a prefix without percent signs.
proof fn lemma_percent_decode_prefix(p: Seq<char>, t: Seq<char>)
    requires
        !p.contains('%'),
    ensures
        codec::percent_decode(p + t) == p + codec::percent_decode(t),
    decreases p.len(),
{
    let s = p + t;
    if p.len() == 0 {
        assert(s =~= t);
        assert(p + codec::percent_decode(t) =~= codec::percent_decode(t));
    } else {
        assert(p.contains(p[0]));
        let q = p.skip(1);
        assert(!q.contains('%')) by {
            assert forall|i: int| 0 <= i < q.len() implies q[i] != '%' by {
                assert(p[i + 1] != '%');
            }
        }
        lemma_percent_decode_prefix(q, t);
        assert(s.skip(1) =~= q + t);
        assert(seq![p[0]] + (q + codec::percent_decode(t)) =~= p + codec::percent_decode(t));
    }
}

/// What stands before the first ampersand or percent sign is kept, and makes
/// no difference to how the rest is decoded.
pub proof fn law_decode_keeps_a_plain_prefix(prefix: Seq<char>, rest: Seq<char>)
    requires
        !prefix.contains('&'),
        !prefix.contains('%'),
    ensures
        codec::decoded(prefix + rest) == prefix + codec::decoded(rest),
{
    lemma_codec_literals();
    let s1 = seqs::replace_all(rest, "&amp;amp;"@, "&"@);
    let s2 = seqs::replace_all(s1, "&amp;"@, "&"@);
    let s3 = seqs::replace_all(s2, "&apos;"@, "'"@);
    let s4 = seqs::replace_all(s3, "&eacute;"@, "\u{e9}"@);
    seqs::lemma_replace_all_prefix(prefix, rest, "&amp;amp;"@, "&"@);
    seqs::lemma_replace_all_prefix(prefix, s1, "&amp;"@, "&"@);
    seqs::lemma_replace_all_prefix(prefix, s2, "&apos;"@, "'"@);
    seqs::lemma_replace_all_prefix(prefix, s3, "&eacute;"@, "\u{e9}"@);
    lemma_percent_decode_prefix(prefix, s4);
}

/// The encoded form of a path is the encoded forms of its parts in a row.
pub proof fn law_encode_concat(a: Seq<char>, b: Seq<char>)
    ensures
        codec::encoded(a + b) == codec::encoded(a) + codec::encoded(b),
{
    seqs::lemma_expand_concat(a, b, |c: char| codec::encoded_char(c));
}

/// The entity passes walk over a prefix without ampersands.
proof fn lemma_entities_prefix(p: Seq<char>, t: Seq<char>)
    requires
        !p.contains('&'),
    ensures
        codec::resolve_entities(p + t) == p + codec::resolve_entities(t),
{
    lemma_codec_literals();
    let s1 = seqs::replace_all(t, "&amp;amp;"@, "&"@);
    let s2 = seqs::replace_all(s1, "&amp;"@, "&"@);
    let s3 = seqs::replace_all(s2, "&apos;"@, "'"@);
    seqs::lemma_replace_all_prefix(p, t, "&amp;amp;"@, "&"@);
    seqs::lemma_replace_all_prefix(p, s1, "&amp;"@, "&"@);
    seqs::lemma_replace_all_prefix(p, s2, "&apos;"@, "'"@);
    seqs::lemma_replace_all_prefix(p, s3, "&eacute;"@, "\u{e9}"@);
}

/// `c` is the hexadecimal digit for `v`, in either case.
pub open spec fn is_hex_for(c: char, v: int) -> bool {
    0 <= v < 16 && (c == "0123456789abcdef"@[v] || c == "0123456789ABCDEF"@[v])
}

/// `c` is a hexadecimal digit.
pub open spec fn is_hex(c: char) -> bool {
    exists|v: int| is_hex_for(c, v)
}

/// The digits have the values that their places in the alphabet say.
proof fn lemma_hex(c: char)
    ensures
        match codec::hex_digit(c) {
            Some(v) => is_hex_for(c, v),
            None => !is_hex(c),
        },
        forall|v: int| #[trigger] is_hex_for(c, v) ==> codec::hex_digit(c) == Some(v),
{
    reveal_strlit("0123456789abcdef");
    reveal_strlit("0123456789ABCDEF");
    assert forall|v: int| #[trigger] is_hex_for(c, v) implies codec::hex_digit(c) == Some(v) by {
        assert(v == 0 || v == 1 || v == 2 || v == 3 || v == 4 || v == 5 || v == 6 || v == 7 || v
            == 8 || v == 9 || v == 10 || v == 11 || v == 12 || v == 13 || v == 14 || v == 15);
    }
    if let Some(v) = codec::hex_digit(c) {
        assert(v == 0 || v == 1 || v == 2 || v == 3 || v == 4 || v == 5 || v == 6 || v == 7 || v
            == 8 || v == 9 || v == 10 || v == 11 || v == 12 || v == 13 || v == 14 || v == 15);
        assert(is_hex_for(c, v));
    }
}

/// A percent sign in front of a text that the entity passes leave alone.
proof fn lemma_decode_at_percent(prefix: Seq<char>, field: Seq<char>, rest: Seq<char>)
    requires
        !prefix.contains('&'),
        !prefix.contains('%'),
        !field.contains('&'),
        field.len() == 2 || field.len() < 2 && rest.len() == 0,
    ensures
        codec::decoded(prefix + seq!['%'] + field + rest) == prefix + (match codec::hex_byte(
            field,
        ) {
            Some(v) => seq![v as char],
            None => seq!['%'] + field,
        }) + codec::decoded(rest),
{
    let p = prefix + seq!['%'] + field;
    assert forall|i: int| 0 <= i < p.len() implies p[i] != '&' by {
        if i < prefix.len() {
            assert(prefix.contains(prefix[i]));
        } else if i > prefix.len() {
            assert(field.contains(field[i - prefix.len() - 1]));
        }
    }
    lemma_entities_prefix(p, rest);
    let resolved = codec::resolve_entities(rest);
    let tail = seq!['%'] + field + resolved;
    assert(p + resolved =~= prefix + tail);
    lemma_percent_decode_prefix(prefix, tail);
    if rest.len() == 0 {
        lemma_codec_literals();
        assert(rest =~= Seq::empty());
        assert(resolved =~= Seq::empty());
    }
    assert(codec::hex_field(tail) =~= field);
    assert(tail.skip(1int + field.len()) =~= resolved);
    let out = match codec::hex_byte(field) {
        Some(v) => seq![v as char],
        None => seq!['%'] + field,
    };
    assert(prefix + (out + codec::percent_decode(resolved)) =~= prefix + out
        + codec::percent_decode(resolved));
}

/// A percent sign and two hexadecimal digits, of either case, stand for the
/// character with that number, wherever they stand.
pub proof fn law_percent_escapes_are_decoded(
    prefix: Seq<char>,
    high: char,
    a: int,
    low: char,
    b: int,
    rest: Seq<char>,
)
    requires
        !prefix.contains('&'),
        !prefix.contains('%'),
        is_hex_for(high, a),
        is_hex_for(low, b),
    ensures
        codec::decoded(prefix + seq!['%', high, low] + rest) == prefix + seq![
            (16 * a + b) as char,
        ] + codec::decoded(rest),
{
    lemma_hex(high);
    lemma_hex(low);
    let field = seq![high, low];
    assert forall|i: int| 0 <= i < field.len() implies field[i] != '&' by {}
    assert(high != '+');
    lemma_decode_at_percent(prefix, field, rest);
    assert(prefix + seq!['%', high, low] + rest =~= prefix + seq!['%'] + field + rest);
}

/// A percent sign, a plus sign and a hexadecimal digit stand for the character
/// with that number, and so does a lone digit behind a percent sign at the end.
pub proof fn law_short_percent_escapes_are_decoded(
    prefix: Seq<char>,
    low: char,
    b: int,
    rest: Seq<char>,
)
    requires
        !prefix.contains('&'),
        !prefix.contains('%'),
        is_hex_for(low, b),
    ensures
        codec::decoded(prefix + seq!['%', '+', low] + rest) == prefix + seq![b as char]
            + codec::decoded(rest),
        codec::decoded(prefix + seq!['%', low]) == prefix + seq![b as char],
{
    lemma_hex(low);
    let none: Seq<char> = Seq::empty();
    let two = seq!['+', low];
    let one = seq![low];
    assert forall|i: int| 0 <= i < two.len() implies two[i] != '&' by {}
    assert forall|i: int| 0 <= i < one.len() implies one[i] != '&' by {}
    lemma_decode_at_percent(prefix, two, rest);
    assert(prefix + seq!['%', '+', low] + rest =~= prefix + seq!['%'] + two + rest);
    lemma_decode_at_percent(prefix, one, none);
    assert(prefix + seq!['%', low] =~= prefix + seq!['%'] + one + none);
    codec::law_decode_plain(none);
    assert(prefix + seq![b as char] + none =~= prefix + seq![b as char]);
}

/// A percent sign without two hexadecimal digits behind it stays, and so do the
/// two characters behind it.
pub proof fn law_other_percent_signs_stay(prefix: Seq<char>, x: char, y: char, rest: Seq<char>)
    requires
        !prefix.contains('&'),
        !prefix.contains('%'),
        x != '&',
        y != '&',
        !(is_hex(x) && is_hex(y)),
        !(x == '+' && is_hex(y)),
    ensures
        codec::decoded(prefix + seq!['%', x, y] + rest) == prefix + seq!['%', x, y]
            + codec::decoded(rest),
{
    lemma_hex(x);
    lemma_hex(y);
    let field = seq![x, y];
    assert forall|i: int| 0 <= i < field.len() implies field[i] != '&' by {}
    if let Some(a) = codec::hex_digit(x) {
        assert(is_hex_for(x, a));
    }
    if let Some(b) = codec::hex_digit(y) {
        assert(is_hex_for(y, b));
    }
    lemma_decode_at_percent(prefix, field, rest);
    assert(prefix + seq!['%', x, y] + rest =~= prefix + seq!['%'] + field + rest);
    assert(seq!['%'] + field =~= seq!['%', x, y]);
}

/// A percent sign at the end stays, and so does one with another character
/// than a hexadecimal digit behind it.
pub proof fn law_percent_signs_at_the_end_stay(prefix: Seq<char>, x: char)
    requires
        !prefix.contains('&'),
        !prefix.contains('%'),
        x != '&',
        !is_hex(x),
    ensures
        codec::decoded(prefix + seq!['%']) == prefix + seq!['%'],
        codec::decoded(prefix + seq!['%', x]) == prefix + seq!['%', x],
{
    lemma_hex(x);
    let none: Seq<char> = Seq::empty();
    let one = seq![x];
    assert forall|i: int| 0 <= i < one.len() implies one[i] != '&' by {}
    codec::law_decode_plain(none);
    lemma_decode_at_percent(prefix, none, none);
    assert(prefix + seq!['%'] + none + none =~= prefix + seq!['%']);
    assert(prefix + (seq!['%'] + none) + none =~= prefix + seq!['%']);
    lemma_decode_at_percent(prefix, one, none);
    assert(prefix + seq!['%'] + one + none =~= prefix + seq!['%', x]);
    assert(prefix + (seq!['%'] + one) + none =~= prefix + seq!['%', x]);
}

/// The one entity in front of a text without ampersands is replaced.
proof fn lemma_entity_replaced(pat: Seq<char>, rep: Seq<char>, rest: Seq<char>)
    requires
        pat.len() > 0,
        pat[0] == '&',
        !rest.contains('&'),
    ensures
        seqs::replace_all(pat + rest, pat, rep) == rep + rest,
{
    let s = pat + rest;
    assert(s.subrange(0, pat.len() as int) =~= pat);
    assert(s.skip(pat.len() as int) =~= rest);
    lemma_without_ampersand(rest, pat);
    seqs::lemma_replace_all_absent(rest, pat, rep);
}

proof fn lemma_without_ampersand(s: Seq<char>, pat: Seq<char>)
    requires
        pat.len() > 0,
        pat[0] == '&',
        !s.contains('&'),
    ensures
        !seqs::contains_seq(s, pat),
{
    assert forall|i: int| !seqs::occurs_at(s, pat, i) by {
        if seqs::occurs_at(s, pat, i) {
            assert(s.subrange(i, i + pat.len())[0] == s[i]);
            assert(s.contains(s[i]));
        }
    }
}

/// A text whose one ampersand is its first character holds no entity that does
/// not stand in front.
proof fn lemma_entity_not_there(s: Seq<char>, pat: Seq<char>, rep: Seq<char>)
    requires
        s.len() > 0,
        !s.skip(1).contains('&'),
        pat.len() > 0,
        pat[0] == '&',
        !seqs::starts_with(s, pat),
    ensures
        seqs::replace_all(s, pat, rep) == s,
{
    assert forall|i: int| !seqs::occurs_at(s, pat, i) by {
        if seqs::occurs_at(s, pat, i) {
            assert(s.subrange(i, i + pat.len())[0] == s[i]);
            if i > 0 {
                assert(s.skip(1)[i - 1] == '&');
            }
        }
    }
    seqs::lemma_replace_all_absent(s, pat, rep);
}

/// An ampersand may be written as an entity, escaped once or twice, where what
/// follows does not make another entity of it.
pub proof fn law_ampersands_are_decoded(prefix: Seq<char>, rest: Seq<char>)
    requires
        !prefix.contains('&'),
        !prefix.contains('%'),
        !rest.contains('&'),
        !rest.contains('%'),
        entity_free(seq!['&'] + rest),
    ensures
        codec::decoded(prefix + "&amp;"@ + rest) == prefix + seq!['&'] + rest,
        codec::decoded(prefix + "&amp;amp;"@ + rest) == prefix + seq!['&'] + rest,
{
    lemma_codec_literals();
    let amp2 = "&amp;amp;"@;
    let amp = "&amp;"@;
    let apos = "&apos;"@;
    let eacute = "&eacute;"@;
    let bare = seq!['&'] + rest;
    assert(bare.skip(1) =~= rest);
    assert(!seqs::occurs_at(bare, amp, 0));
    assert(!seqs::occurs_at(bare, apos, 0));
    assert(!seqs::occurs_at(bare, eacute, 0));
    lemma_entity_not_there(bare, amp, "&"@);
    lemma_entity_not_there(bare, apos, "'"@);
    lemma_entity_not_there(bare, eacute, "\u{e9}"@);
    let s = amp + rest;
    lemma_tail(amp, rest);
    assert(!seqs::starts_with(s, amp2)) by {
        if seqs::starts_with(s, amp2) {
            assert(s.subrange(0, 9) == amp2);
            assert(bare.subrange(0, 5) =~= amp) by {
                assert forall|i: int| 1 <= i < 5 implies bare[i] == amp[i] by {
                    assert(s[i + 4] == s.subrange(0, 9)[i + 4]);
                }
            }
        }
    }
    lemma_entity_not_there(s, amp2, "&"@);
    lemma_entity_replaced(amp, "&"@, rest);
    lemma_resolved_behind(prefix, s, seq!['&'], rest);
    lemma_entity_replaced(amp2, "&"@, rest);
    lemma_resolved_behind(prefix, amp2 + rest, seq!['&'], rest);
}

/// Behind its first character an entity holds no ampersand.
proof fn lemma_tail(pat: Seq<char>, rest: Seq<char>)
    requires
        pat.len() > 0,
        forall|i: int| 1 <= i < pat.len() ==> pat[i] != '&',
        !rest.contains('&'),
    ensures
        !(pat + rest).skip(1).contains('&'),
{
    let s = (pat + rest).skip(1);
    assert forall|i: int| 0 <= i < s.len() implies s[i] != '&' by {
        if i >= pat.len() - 1 {
            assert(rest.contains(rest[i - (pat.len() - 1)]));
        }
    }
}

/// A text that resolves to plain characters is decoded to them behind a plain
/// prefix.
proof fn lemma_resolved_behind(prefix: Seq<char>, s: Seq<char>, c: Seq<char>, rest: Seq<char>)
    requires
        !prefix.contains('&'),
        !prefix.contains('%'),
        !rest.contains('%'),
        c.len() == 1,
        c[0] != '%',
        codec::resolve_entities(s) == c + rest,
    ensures
        codec::decoded(prefix + s) == prefix + c + rest,
        forall|e: Seq<char>| #![trigger prefix + e + rest]
            s == e + rest ==> codec::decoded(prefix + e + rest) == prefix + c + rest,
{
    lemma_entities_prefix(prefix, s);
    let out = prefix + (c + rest);
    assert forall|i: int| 0 <= i < out.len() implies out[i] != '%' by {
        if i < prefix.len() {
            assert(prefix.contains(prefix[i]));
        } else if i > prefix.len() {
            assert(rest.contains(rest[i - prefix.len() - 1]));
        }
    }
    codec::lemma_percent_decode_plain(out);
    assert(out =~= prefix + c + rest);
    assert forall|e: Seq<char>| #![trigger prefix + e + rest] s == e + rest implies codec::decoded(
        prefix + e + rest,
    ) == prefix + c + rest by {
        assert(prefix + e + rest =~= prefix + s);
    }
}

/// Only the reserved characters, the percent sign, the ampersand and the e with
/// an acute accent are written otherwise in a URL.
pub proof fn law_encode_keeps_other_characters(s: Seq<char>)
    requires
        forall|i: int|
            0 <= i < s.len() ==> !is_reserved(#[trigger] s[i]) && s[i] != '%' && s[i] != '&' && s[i]
                != '\u{e9}',
    ensures
        codec::encoded(s) == s,
{
    let f = |c: char| codec::encoded_char(c);
    assert forall|i: int| 0 <= i < s.len() implies f(#[trigger] s[i]) == seq![s[i]] by {}
    seqs::lemma_expand_identity(s, f);
}

/// A reserved character and the percent sign are written as a percent sign and
/// the two hexadecimal digits of their number; the ampersand and the e with an
/// acute accent as entities.
pub proof fn law_encode_writes_escapes(c: char)
    ensures
        is_reserved(c) || c == '%' ==> codec::encoded(seq![c]) == seq![
            '%',
            "0123456789ABCDEF"@[c as int / 16],
            "0123456789ABCDEF"@[c as int % 16],
        ],
        codec::encoded(seq!['&']) == "&amp;amp;"@,
        codec::encoded(seq!['\u{e9}']) == "&eacute;"@,
{
    lemma_codec_literals();
    reveal_strlit("0123456789ABCDEF");
    let f = |c: char| codec::encoded_char(c);
    lemma_expand_one(c, f);
    lemma_expand_one('&', f);
    lemma_expand_one('\u{e9}', f);
    if is_reserved(c) || c == '%' {
        assert(codec::encoded(seq![c]) =~= seq![
            '%',
            "0123456789ABCDEF"@[c as int / 16],
            "0123456789ABCDEF"@[c as int % 16],
        ]);
    }
}

proof fn lemma_expand_one(c: char, f: spec_fn(char) -> Seq<char>)
    ensures
        seqs::expand(seq![c], f) == f(c),
{
    let s = seq![c];
    assert(s.drop_last() =~= Seq::empty());
    reveal_with_fuel(seqs::expand, 2);
    assert(seqs::expand(s, f) =~= f(c));
}

/// The escaped form of a text is the escaped forms of its parts in a row, and
/// only markup is written otherwise.
pub proof fn law_escape_keeps_other_characters(a: Seq<char>, b: Seq<char>)
    requires
        forall|i: int| 0 <= i < a.len() ==> !codec::is_markup(#[trigger] a[i]),
    ensures
        codec::escaped(a) == a,
        codec::escaped(a + b) == a + codec::escaped(b),
        codec::escaped(b + a) == codec::escaped(b) + a,
{
    let f = |c: char| codec::escaped_char(c);
    assert forall|i: int| 0 <= i < a.len() implies f(#[trigger] a[i]) == seq![a[i]] by {}
    seqs::lemma_expand_identity(a, f);
    seqs::lemma_expand_concat(a, b, f);
    seqs::lemma_expand_concat(b, a, f);
}

/// The escaped form of a text is the escaped forms of its parts in a row.
pub proof fn law_escape_concat(a: Seq<char>, b: Seq<char>)
    ensures
        codec::escaped(a + b) == codec::escaped(a) + codec::escaped(b),
{
    seqs::lemma_expand_concat(a, b, |c: char| codec::escaped_char(c));
}

/// The markup characters are those that XML has entities for.
pub proof fn law_markup_is_what_xml_escapes(c: char)
    ensures
        codec::is_markup(c) <==> c == '&' || c == '<' || c == '>' || c == '"' || c == '\'',
        codec::escaped(seq!['&']) == "&amp;amp;"@,
        codec::escaped(seq!['<']) == "&amp;lt;"@,
        codec::escaped(seq!['>']) == "&amp;gt;"@,
        codec::escaped(seq!['"']) == "&amp;quot;"@,
        codec::escaped(seq!['\'']) == "&amp;apos;"@,
{
    let f = |c: char| codec::escaped_char(c);
    lemma_expand_one('&', f);
    lemma_expand_one('<', f);
    lemma_expand_one('>', f);
    lemma_expand_one('"', f);
    lemma_expand_one('\'', f);
}

/// An entity that is not the pattern stays where it stands, and what follows
/// it is replaced as if it stood alone.
proof fn lemma_other_entity_stays(
    e: Seq<char>,
    t: Seq<char>,
    pat: Seq<char>,
    rep: Seq<char>,
    k: int,
)
    requires
        0 < k < e.len(),
        k < pat.len(),
        e[0] == '&',
        pat[0] == '&',
        e[k] != pat[k],
        forall|i: int| 1 <= i < e.len() ==> e[i] != '&',
    ensures
        seqs::replace_all(e + t, pat, rep) == e + seqs::replace_all(t, pat, rep),
{
    let s = e + t;
    if s.len() >= pat.len() {
        assert(s[k] != pat[k]);
        if seqs::starts_with(s, pat) {
            assert(s.subrange(0, pat.len() as int)[k] == s[k]);
        }
        let tail = e.skip(1);
        assert(s.skip(1) =~= tail + t);
        assert forall|i: int| 0 <= i < tail.len() implies tail[i] != '&' by {}
        seqs::lemma_replace_all_prefix(tail, t, pat, rep);
        assert(seq![s[0]] + (tail + seqs::replace_all(t, pat, rep)) =~= e + seqs::replace_all(
            t,
            pat,
            rep,
        ));
    }
}

/// An apostrophe and an e with an acute accent may be written as entities
/// wherever they stand, as often as they do, and whatever follows.
pub proof fn law_entities_are_decoded(prefix: Seq<char>, rest: Seq<char>)
    requires
        !prefix.contains('&'),
        !prefix.contains('%'),
    ensures
        codec::decoded(prefix + "&apos;"@ + rest) == prefix + seq!['\''] + codec::decoded(rest),
        codec::decoded(prefix + "&eacute;"@ + rest) == prefix + seq!['\u{e9}'] + codec::decoded(
            rest,
        ),
{
    lemma_codec_literals();
    let amp2 = "&amp;amp;"@;
    let amp = "&amp;"@;
    let apos = "&apos;"@;
    let eacute = "&eacute;"@;
    let r1 = seqs::replace_all(rest, amp2, "&"@);
    let r2 = seqs::replace_all(r1, amp, "&"@);
    let r3 = seqs::replace_all(r2, apos, "'"@);
    let r4 = seqs::replace_all(r3, eacute, "\u{e9}"@);
    lemma_other_entity_stays(apos, rest, amp2, "&"@, 2);
    lemma_other_entity_stays(apos, r1, amp, "&"@, 2);
    lemma_first_is_replaced(apos, r2, "'"@);
    seqs::lemma_replace_all_prefix("'"@, r3, eacute, "\u{e9}"@);
    assert("'"@ =~= seq!['\'']);
    lemma_one_behind(prefix, apos, rest, '\'');
    lemma_other_entity_stays(eacute, rest, amp2, "&"@, 1);
    lemma_other_entity_stays(eacute, r1, amp, "&"@, 1);
    lemma_other_entity_stays(eacute, r2, apos, "'"@, 1);
    lemma_first_is_replaced(eacute, r3, "\u{e9}"@);
    assert("\u{e9}"@ =~= seq!['\u{e9}']);
    lemma_one_behind(prefix, eacute, rest, '\u{e9}');
}

proof fn lemma_first_is_replaced(pat: Seq<char>, t: Seq<char>, rep: Seq<char>)
    requires
        pat.len() > 0,
    ensures
        seqs::replace_all(pat + t, pat, rep) == rep + seqs::replace_all(t, pat, rep),
{
    let s = pat + t;
    assert(s.subrange(0, pat.len() as int) =~= pat);
    assert(s.skip(pat.len() as int) =~= t);
}

/// Where an entity resolves to one plain character, it is decoded to it behind
/// a plain prefix.
proof fn lemma_one_behind(prefix: Seq<char>, e: Seq<char>, rest: Seq<char>, c: char)
    requires
        !prefix.contains('&'),
        !prefix.contains('%'),
        c != '%',
        codec::resolve_entities(e + rest) == seq![c] + codec::resolve_entities(rest),
    ensures
        codec::decoded(prefix + e + rest) == prefix + seq![c] + codec::decoded(rest),
{
    let p = prefix + seq![c];
    let r = codec::resolve_entities(rest);
    lemma_entities_prefix(prefix, e + rest);
    assert(prefix + (e + rest) =~= prefix + e + rest);
    assert(prefix + (seq![c] + r) =~= p + r);
    assert forall|i: int| 0 <= i < p.len() implies p[i] != '%' by {
        if i < prefix.len() {
            assert(prefix.contains(prefix[i]));
        }
    }
    lemma_percent_decode_prefix(p, r);
}

} // verus!
