//! The order of names and keys: byte by byte, a prefix before what it begins.

use vstd::prelude::*;
use vstd::relations;
use vstd::seq_lib;
use vstd::string::*;
use vstd::utf8;

verus! {

/// `a` comes before `b` in the dictionary of byte strings, or is `b`.
pub open spec fn bytes_le(a: Seq<u8>, b: Seq<u8>) -> bool
    decreases a.len(),
{
    if a.len() == 0 {
        true
    } else if b.len() == 0 {
        false
    } else if a[0] != b[0] {
        a[0] < b[0]
    } else {
        bytes_le(a.skip(1), b.skip(1))
    }
}

/// Names are ordered by their UTF-8 bytes.
pub open spec fn name_le(a: Seq<char>, b: Seq<char>) -> bool {
    bytes_le(utf8::encode_utf8(a), utf8::encode_utf8(b))
}

/// Names in ascending order.
pub open spec fn sorted_names(names: Seq<Seq<char>>) -> Seq<Seq<char>> {
    names.sort_by(|a: Seq<char>, b: Seq<char>| name_le(a, b))
}

/// The contents of strings.
pub open spec fn texts(names: Seq<String>) -> Seq<Seq<char>> {
    names.map_values(|s: String| s@)
}

/// Every byte string is ordered before itself.
pub proof fn lemma_bytes_le_reflexive(a: Seq<u8>)
    ensures
        bytes_le(a, a),
    decreases a.len(),
{
    if a.len() > 0 {
        lemma_bytes_le_reflexive(a.skip(1));
    }
}

/// Two byte strings that are ordered both ways are the same.
pub proof fn lemma_bytes_le_antisymmetric(a: Seq<u8>, b: Seq<u8>)
    requires
        bytes_le(a, b),
        bytes_le(b, a),
    ensures
        a == b,
    decreases a.len(),
{
    if a.len() == 0 || b.len() == 0 {
        assert(a =~= b);
    } else {
        lemma_bytes_le_antisymmetric(a.skip(1), b.skip(1));
        assert(a =~= seq![a[0]] + a.skip(1));
        assert(b =~= seq![b[0]] + b.skip(1));
    }
}

/// The order carries over from step to step.
pub proof fn lemma_bytes_le_transitive(a: Seq<u8>, b: Seq<u8>, c: Seq<u8>)
    requires
        bytes_le(a, b),
        bytes_le(b, c),
    ensures
        bytes_le(a, c),
    decreases a.len(),
{
    if a.len() > 0 && b.len() > 0 && c.len() > 0 && a[0] == b[0] && b[0] == c[0] {
        lemma_bytes_le_transitive(a.skip(1), b.skip(1), c.skip(1));
    }
}

/// Any two byte strings are ordered one way or the other.
pub proof fn lemma_bytes_le_total(a: Seq<u8>, b: Seq<u8>)
    ensures
        bytes_le(a, b) || bytes_le(b, a),
    decreases a.len(),
{
    if a.len() > 0 && b.len() > 0 && a[0] == b[0] {
        lemma_bytes_le_total(a.skip(1), b.skip(1));
    }
}

/// The order of names is total, and two names that are ordered both ways are
/// the same name.
pub proof fn law_name_order_is_total()
    ensures
        relations::total_ordering(|a: Seq<char>, b: Seq<char>| name_le(a, b)),
{
    let le = |a: Seq<char>, b: Seq<char>| name_le(a, b);
    assert forall|a: Seq<char>| #[trigger] le(a, a) by {
        lemma_bytes_le_reflexive(utf8::encode_utf8(a));
    }
    assert forall|a: Seq<char>, b: Seq<char>| #[trigger] le(a, b) && #[trigger] le(b, a) implies a
        == b by {
        lemma_bytes_le_antisymmetric(utf8::encode_utf8(a), utf8::encode_utf8(b));
        utf8::encode_utf8_decode_utf8(a);
        utf8::encode_utf8_decode_utf8(b);
    }
    assert forall|a: Seq<char>, b: Seq<char>, c: Seq<char>| #[trigger]
        le(a, b) && #[trigger] le(b, c) implies le(a, c) by {
        lemma_bytes_le_transitive(
            utf8::encode_utf8(a),
            utf8::encode_utf8(b),
            utf8::encode_utf8(c),
        );
    }
    assert forall|a: Seq<char>, b: Seq<char>| #[trigger] le(a, b) || #[trigger] le(b, a) by {
        lemma_bytes_le_total(utf8::encode_utf8(a), utf8::encode_utf8(b));
    }
}

/// The same names in whatever order they come are sorted into the same
/// sequence.
pub proof fn law_sorting_ignores_order(a: Seq<Seq<char>>, b: Seq<Seq<char>>)
    requires
        a.to_multiset() == b.to_multiset(),
    ensures
        sorted_names(a) == sorted_names(b),
{
    let le = |x: Seq<char>, y: Seq<char>| name_le(x, y);
    law_name_order_is_total();
    a.lemma_sort_by_ensures(le);
    b.lemma_sort_by_ensures(le);
    seq_lib::lemma_sorted_unique(a.sort_by(le), b.sort_by(le), le);
}

/// Sorting neither adds nor drops a name, and leaves each before all that
/// come behind it.
pub proof fn law_sorted_names(names: Seq<Seq<char>>)
    ensures
        sorted_names(names).len() == names.len(),
        sorted_names(names).to_multiset() == names.to_multiset(),
        forall|i: int, j: int|
            0 <= i < j < names.len() ==> name_le(
                #[trigger] sorted_names(names)[i],
                #[trigger] sorted_names(names)[j],
            ),
{
    let le = |x: Seq<char>, y: Seq<char>| name_le(x, y);
    law_name_order_is_total();
    names.lemma_sort_by_ensures(le);
    names.to_multiset_ensures();
    sorted_names(names).to_multiset_ensures();
    assert forall|i: int, j: int| 0 <= i < j < names.len() implies name_le(
        #[trigger] sorted_names(names)[i],
        #[trigger] sorted_names(names)[j],
    ) by {
        let s = sorted_names(names);
        assert(le(s[i], s[j]));
    }
}

/// Whether `a` comes before `b`, or is `b`.
pub fn le(a: &[u8], b: &[u8]) -> (r: bool)
    ensures
        r == bytes_le(a@, b@),
{
    let n = a.len();
    let m = b.len();
    let mut i: usize = 0;
    assert(a@.skip(0) =~= a@ && b@.skip(0) =~= b@);
    while i < n && i < m
        invariant
            n == a@.len(),
            m == b@.len(),
            i <= n,
            i <= m,
            bytes_le(a@, b@) == bytes_le(a@.skip(i as int), b@.skip(i as int)),
        decreases n - i,
    {
        let ghost s = a@.skip(i as int);
        let ghost t = b@.skip(i as int);
        assert(s[0] == a@[i as int] && t[0] == b@[i as int]);
        if a[i] != b[i] {
            return a[i] < b[i];
        }
        assert(s.skip(1) =~= a@.skip(i + 1));
        assert(t.skip(1) =~= b@.skip(i + 1));
        i += 1;
    }
    i == n
}

/// The position at which `name` belongs among names in ascending order.
fn insertion_point(names: &Vec<String>, name: &str) -> (r: usize)
    requires
        relations::sorted_by(texts(names@), |a: Seq<char>, b: Seq<char>| name_le(a, b)),
    ensures
        r <= names@.len(),
        forall|i: int| 0 <= i < r ==> name_le(#[trigger] texts(names@)[i], name@),
        forall|i: int| r <= i < names@.len() ==> name_le(name@, #[trigger] texts(names@)[i]),
{
    let ghost ts = texts(names@);
    let ghost le_spec = |a: Seq<char>, b: Seq<char>| name_le(a, b);
    let mut lo: usize = 0;
    let mut hi: usize = names.len();
    while lo < hi
        invariant
            ts == texts(names@),
            le_spec == (|a: Seq<char>, b: Seq<char>| name_le(a, b)),
            relations::sorted_by(ts, le_spec),
            lo <= hi <= names@.len(),
            forall|i: int| 0 <= i < lo ==> name_le(#[trigger] ts[i], name@),
            forall|i: int| hi <= i < ts.len() ==> name_le(name@, #[trigger] ts[i]),
        decreases hi - lo,
    {
        let mid = lo + (hi - lo) / 2;
        let ghost m = ts[mid as int];
        assert(m == names@[mid as int]@);
        if le(names[mid].as_str().as_bytes(), name.as_bytes()) {
            proof {
                assert forall|i: int| 0 <= i < mid + 1 implies name_le(#[trigger] ts[i], name@) by {
                    if i < mid {
                        assert(le_spec(ts[i], ts[mid as int]));
                        lemma_bytes_le_transitive(
                            utf8::encode_utf8(ts[i]),
                            utf8::encode_utf8(m),
                            utf8::encode_utf8(name@),
                        );
                    }
                }
            }
            lo = mid + 1;
        } else {
            proof {
                lemma_bytes_le_total(utf8::encode_utf8(m), utf8::encode_utf8(name@));
                assert forall|i: int| mid <= i < ts.len() implies name_le(
                    name@,
                    #[trigger] ts[i],
                ) by {
                    if i > mid {
                        assert(le_spec(ts[mid as int], ts[i]));
                        lemma_bytes_le_transitive(
                            utf8::encode_utf8(name@),
                            utf8::encode_utf8(m),
                            utf8::encode_utf8(ts[i]),
                        );
                    }
                }
            }
            hi = mid;
        }
    }
    lo
}

/// Puts names in ascending order.
pub fn sort_names(names: Vec<String>) -> (r: Vec<String>)
    ensures
        texts(r@) == sorted_names(texts(names@)),
{
    let ghost le_spec = |a: Seq<char>, b: Seq<char>| name_le(a, b);
    let mut out: Vec<String> = Vec::new();
    let mut i: usize = 0;
    assert(texts(out@) =~= texts(names@).take(0));
    while i < names.len()
        invariant
            le_spec == (|a: Seq<char>, b: Seq<char>| name_le(a, b)),
            i <= names@.len(),
            relations::sorted_by(texts(out@), le_spec),
            texts(out@).to_multiset() == texts(names@).take(i as int).to_multiset(),
        decreases names@.len() - i,
    {
        let name = names[i].clone();
        let at = insertion_point(&out, name.as_str());
        let ghost before = out@;
        out.insert(at, name);
        proof {
            let old_t = texts(before);
            let new_t = texts(out@);
            let seen = texts(names@).take(i as int);
            assert(new_t =~= old_t.insert(at as int, name@));
            seq_lib::to_multiset_insert(old_t, at as int, name@);
            seen.to_multiset_ensures();
            assert(texts(names@).take(i + 1) =~= seen.push(name@));
            assert forall|a: int, b: int| 0 <= a < b < new_t.len() implies #[trigger] le_spec(
                new_t[a],
                new_t[b],
            ) by {
                let a0 = if a < at {
                    a
                } else {
                    a - 1
                };
                let b0 = if b < at {
                    b
                } else {
                    b - 1
                };
                if a == at {
                    assert(name_le(name@, old_t[b0]));
                } else if b == at {
                    assert(name_le(old_t[a0], name@));
                } else {
                    assert(le_spec(old_t[a0], old_t[b0]));
                }
            }
        }
        i += 1;
    }
    proof {
        let all = texts(names@);
        assert(all.take(i as int) =~= all);
        law_name_order_is_total();
        all.lemma_sort_by_ensures(le_spec);
        seq_lib::lemma_sorted_unique(texts(out@), all.sort_by(le_spec), le_spec);
    }
    out
}

/// The first byte in which two byte strings differ decides which comes first.
pub proof fn law_the_first_difference_decides(
    same: Seq<u8>,
    x: u8,
    y: u8,
    s: Seq<u8>,
    t: Seq<u8>,
)
    requires
        x != y,
    ensures
        bytes_le(same + seq![x] + s, same + seq![y] + t) <==> x < y,
    decreases same.len(),
{
    let a = same + seq![x] + s;
    let b = same + seq![y] + t;
    if same.len() > 0 {
        law_the_first_difference_decides(same.skip(1), x, y, s, t);
        assert(a.skip(1) =~= same.skip(1) + seq![x] + s);
        assert(b.skip(1) =~= same.skip(1) + seq![y] + t);
    }
}

/// A byte string comes before every longer one that begins with it.
pub proof fn law_a_prefix_comes_first(a: Seq<u8>, rest: Seq<u8>)
    ensures
        bytes_le(a, a + rest),
        rest.len() > 0 ==> !bytes_le(a + rest, a),
    decreases a.len(),
{
    if a.len() > 0 {
        law_a_prefix_comes_first(a.skip(1), rest);
        assert((a + rest).skip(1) =~= a.skip(1) + rest);
    }
}

/// Names come in the order of their UTF-8 bytes: a name before every longer
/// one that begins with it, else as the first byte decides in which they
/// differ. Nothing else counts, case included.
pub proof fn law_names_are_ordered_by_their_bytes(
    a: Seq<char>,
    b: Seq<char>,
    same: Seq<u8>,
    s: Seq<u8>,
    t: Seq<u8>,
)
    requires
        utf8::encode_utf8(a) == same + s,
        utf8::encode_utf8(b) == same + t,
        s.len() > 0 && t.len() > 0 ==> s[0] != t[0],
    ensures
        name_le(a, b) <==> s.len() == 0 || t.len() > 0 && s[0] < t[0],
{
    if s.len() == 0 {
        law_a_prefix_comes_first(same, t);
        assert(same + s =~= same);
    } else if t.len() == 0 {
        law_a_prefix_comes_first(same, s);
        assert(same + t =~= same);
    } else {
        law_the_first_difference_decides(same, s[0], t[0], s.skip(1), t.skip(1));
        assert(same + s =~= same + seq![s[0]] + s.skip(1));
        assert(same + t =~= same + seq![t[0]] + t.skip(1));
    }
}

} // verus!
