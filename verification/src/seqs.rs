//! Searching and rewriting sequences: the vocabulary of the contracts.

use vstd::prelude::*;

verus! {

/// `pat` stands in `hay` at position `i`.
pub open spec fn occurs_at<T>(hay: Seq<T>, pat: Seq<T>, i: int) -> bool {
    0 <= i && i + pat.len() <= hay.len() && hay.subrange(i, i + pat.len()) == pat
}

/// `pat` stands somewhere in `hay`.
pub open spec fn contains_seq<T>(hay: Seq<T>, pat: Seq<T>) -> bool {
    exists|i: int| occurs_at(hay, pat, i)
}

/// `s` begins with `pat`.
pub open spec fn starts_with<T>(s: Seq<T>, pat: Seq<T>) -> bool {
    occurs_at(s, pat, 0)
}

/// `s` ends with `pat`.
pub open spec fn ends_with<T>(s: Seq<T>, pat: Seq<T>) -> bool {
    occurs_at(s, pat, s.len() - pat.len())
}

/// The first position at or after `i` where `pat` stands in `hay`.
pub open spec fn find_from<T>(hay: Seq<T>, pat: Seq<T>, i: int) -> Option<int>
    decreases hay.len() - i,
{
    if i + pat.len() > hay.len() {
        None
    } else if occurs_at(hay, pat, i) {
        Some(i)
    } else if i >= hay.len() {
        None
    } else {
        find_from(hay, pat, i + 1)
    }
}

/// The first position at or after `i` that holds `x`.
pub open spec fn index_from<T>(s: Seq<T>, x: T, i: int) -> Option<int>
    decreases s.len() - i,
{
    if i >= s.len() {
        None
    } else if s[i] == x {
        Some(i)
    } else {
        index_from(s, x, i + 1)
    }
}

/// `hay` with every occurrence of `pat`, found from left to right without
/// overlap, replaced by `rep`. The empty pattern stands before every element
/// and behind the last.
pub open spec fn replace_all<T>(hay: Seq<T>, pat: Seq<T>, rep: Seq<T>) -> Seq<T>
    decreases hay.len(),
{
    if pat.len() == 0 {
        rep + expand(hay, |x: T| seq![x] + rep)
    } else if hay.len() < pat.len() {
        hay
    } else if starts_with(hay, pat) {
        rep + replace_all(hay.skip(pat.len() as int), pat, rep)
    } else {
        seq![hay[0]] + replace_all(hay.skip(1), pat, rep)
    }
}

/// The concatenation of `f(x)` over the elements `x` of `s`.
pub open spec fn expand<T>(s: Seq<T>, f: spec_fn(T) -> Seq<T>) -> Seq<T>
    decreases s.len(),
{
    if s.len() == 0 {
        Seq::empty()
    } else {
        expand(s.drop_last(), f) + f(s.last())
    }
}

/// What `find_from` returns is the first occurrence at or after `i`; it
/// returns `None` exactly where there is none.
pub proof fn lemma_find_from<T>(hay: Seq<T>, pat: Seq<T>, i: int)
    requires
        0 <= i,
    ensures
        match find_from(hay, pat, i) {
            Some(k) => i <= k && occurs_at(hay, pat, k) && forall|j: int|
                i <= j < k ==> !occurs_at(hay, pat, j),
            None => forall|j: int| i <= j ==> !occurs_at(hay, pat, j),
        },
    decreases hay.len() - i,
{
    if i + pat.len() > hay.len() {
    } else if occurs_at(hay, pat, i) {
    } else if i >= hay.len() {
        assert(hay.subrange(i, i) =~= pat);
    } else {
        lemma_find_from(hay, pat, i + 1);
    }
}

/// Where `find_from` finds nothing from the start, nothing occurs.
pub proof fn lemma_find_contains<T>(hay: Seq<T>, pat: Seq<T>)
    ensures
        find_from(hay, pat, 0) is Some <==> contains_seq(hay, pat),
{
    lemma_find_from(hay, pat, 0);
    if contains_seq(hay, pat) {
        let i = choose|i: int| occurs_at(hay, pat, i);
        assert(0 <= i);
    }
}

/// `index_from` returns the first position at or after `i` that holds `x`.
pub proof fn lemma_index_from<T>(s: Seq<T>, x: T, i: int)
    requires
        0 <= i,
    ensures
        match index_from(s, x, i) {
            Some(k) => i <= k < s.len() && s[k] == x && forall|j: int| i <= j < k ==> s[j] != x,
            None => forall|j: int| i <= j < s.len() ==> s[j] != x,
        },
    decreases s.len() - i,
{
    if i < s.len() && s[i] != x {
        lemma_index_from(s, x, i + 1);
    }
}

/// A replacement leaves a text without the pattern as it is.
pub proof fn lemma_replace_all_absent<T>(hay: Seq<T>, pat: Seq<T>, rep: Seq<T>)
    requires
        !contains_seq(hay, pat),
    ensures
        replace_all(hay, pat, rep) == hay,
    decreases hay.len(),
{
    assert(!occurs_at(hay, pat, 0));
    if pat.len() == 0 {
        assert(hay.subrange(0, 0) =~= pat);
    } else if hay.len() >= pat.len() {
        assert forall|i: int| !occurs_at(hay.skip(1), pat, i) by {
            if occurs_at(hay.skip(1), pat, i) {
                assert(hay.subrange(i + 1, i + 1 + pat.len()) =~= hay.skip(1).subrange(
                    i,
                    i + pat.len(),
                ));
                assert(occurs_at(hay, pat, i + 1));
            }
        }
        lemma_replace_all_absent(hay.skip(1), pat, rep);
        assert(seq![hay[0]] + hay.skip(1) =~= hay);
    }
}

/// What neither a text nor the replacement holds, the rewritten text does not
/// hold.
pub proof fn lemma_replace_all_keeps_absence<T>(hay: Seq<T>, pat: Seq<T>, rep: Seq<T>, x: T)
    requires
        !hay.contains(x),
        !rep.contains(x),
    ensures
        !replace_all(hay, pat, rep).contains(x),
    decreases hay.len(),
{
    if pat.len() == 0 {
        let f = |y: T| seq![y] + rep;
        assert forall|i: int| 0 <= i < hay.len() implies !f(#[trigger] hay[i]).contains(x) by {
            assert(hay.contains(hay[i]));
            lemma_contains_concat(seq![hay[i]], rep, x);
        }
        lemma_expand_absent(hay, f, x);
        lemma_contains_concat(rep, expand(hay, f), x);
    } else if hay.len() >= pat.len() {
        if starts_with(hay, pat) {
            let rest = hay.skip(pat.len() as int);
            assert(!rest.contains(x)) by {
                assert forall|i: int| 0 <= i < rest.len() implies rest[i] != x by {
                    assert(hay[i + pat.len()] != x);
                }
            }
            lemma_replace_all_keeps_absence(rest, pat, rep, x);
            lemma_contains_concat(rep, replace_all(rest, pat, rep), x);
        } else {
            let rest = hay.skip(1);
            assert(!rest.contains(x)) by {
                assert forall|i: int| 0 <= i < rest.len() implies rest[i] != x by {
                    assert(hay[i + 1] != x);
                }
            }
            lemma_replace_all_keeps_absence(rest, pat, rep, x);
            assert(hay.contains(hay[0]));
            lemma_contains_concat(seq![hay[0]], replace_all(rest, pat, rep), x);
        }
    }
}

/// A concatenation holds what its parts hold.
pub proof fn lemma_contains_concat<T>(a: Seq<T>, b: Seq<T>, x: T)
    ensures
        (a + b).contains(x) <==> a.contains(x) || b.contains(x),
{
    let ab = a + b;
    if ab.contains(x) {
        let i = choose|i: int| 0 <= i < ab.len() && ab[i] == x;
        if i < a.len() {
            assert(a[i] == x);
        } else {
            assert(b[i - a.len()] == x);
        }
    }
    if a.contains(x) {
        let i = choose|i: int| 0 <= i < a.len() && a[i] == x;
        assert(ab[i] == x);
    }
    if b.contains(x) {
        let i = choose|i: int| 0 <= i < b.len() && b[i] == x;
        assert(ab[i + a.len()] == x);
    }
}

/// A replacement walks over a prefix that does not hold the pattern's first
/// element.
pub proof fn lemma_replace_all_prefix<T>(p: Seq<T>, t: Seq<T>, pat: Seq<T>, rep: Seq<T>)
    requires
        pat.len() > 0,
        !p.contains(pat[0]),
    ensures
        replace_all(p + t, pat, rep) == p + replace_all(t, pat, rep),
    decreases p.len(),
{
    let s = p + t;
    if p.len() == 0 {
        assert(s =~= t);
        assert(p + replace_all(t, pat, rep) =~= replace_all(t, pat, rep));
    } else {
        assert(p.contains(p[0]));
        let q = p.skip(1);
        assert(!q.contains(pat[0])) by {
            assert forall|i: int| 0 <= i < q.len() implies q[i] != pat[0] by {
                assert(p[i + 1] != pat[0]);
            }
        }
        lemma_replace_all_prefix(q, t, pat, rep);
        assert(s.skip(1) =~= q + t);
        if s.len() < pat.len() {
            assert(replace_all(t, pat, rep) == t);
        } else {
            if starts_with(s, pat) {
                assert(s.subrange(0, 0int + pat.len())[0] == pat[0]);
            }
            assert(seq![s[0]] + (q + replace_all(t, pat, rep)) =~= p + replace_all(t, pat, rep));
        }
    }
}

/// `expand` can be unfolded at the front as well.
pub proof fn lemma_expand_front<T>(s: Seq<T>, f: spec_fn(T) -> Seq<T>)
    requires
        s.len() > 0,
    ensures
        expand(s, f) == f(s[0]) + expand(s.skip(1), f),
    decreases s.len(),
{
    if s.len() == 1 {
        assert(s.drop_last() =~= Seq::empty());
        assert(s.skip(1) =~= Seq::empty());
        assert(expand(s.drop_last(), f) + f(s.last()) =~= f(s[0]) + expand(s.skip(1), f));
    } else {
        let t = s.drop_last();
        lemma_expand_front(t, f);
        assert(s.skip(1).drop_last() =~= t.skip(1));
        assert(s.skip(1).last() == s.last());
        assert(f(t[0]) + expand(t.skip(1), f) + f(s.last()) =~= f(s[0]) + (expand(t.skip(1), f)
            + f(s.last())));
    }
}

/// `expand` distributes over concatenation.
pub proof fn lemma_expand_concat<T>(a: Seq<T>, b: Seq<T>, f: spec_fn(T) -> Seq<T>)
    ensures
        expand(a + b, f) == expand(a, f) + expand(b, f),
    decreases b.len(),
{
    if b.len() == 0 {
        assert(a + b =~= a);
        assert(expand(a, f) + expand(b, f) =~= expand(a, f));
    } else {
        lemma_expand_concat(a, b.drop_last(), f);
        assert((a + b).drop_last() =~= a + b.drop_last());
        assert((a + b).last() == b.last());
        assert(expand(a, f) + expand(b.drop_last(), f) + f(b.last()) =~= expand(a, f) + (expand(
            b.drop_last(),
            f,
        ) + f(b.last())));
    }
}

/// An expansion that maps every element of `s` to itself is the identity.
pub proof fn lemma_expand_identity<T>(s: Seq<T>, f: spec_fn(T) -> Seq<T>)
    requires
        forall|i: int| 0 <= i < s.len() ==> f(#[trigger] s[i]) == seq![s[i]],
    ensures
        expand(s, f) == s,
    decreases s.len(),
{
    if s.len() > 0 {
        lemma_expand_identity(s.drop_last(), f);
        assert(s.drop_last() + seq![s.last()] =~= s);
        assert(f(s[s.len() - 1]) == seq![s[s.len() - 1]]);
    } else {
        assert(expand(s, f) =~= s);
    }
}

/// What no image holds, the expansion does not hold.
pub proof fn lemma_expand_absent<T>(s: Seq<T>, f: spec_fn(T) -> Seq<T>, x: T)
    requires
        forall|i: int| 0 <= i < s.len() ==> !f(#[trigger] s[i]).contains(x),
    ensures
        !expand(s, f).contains(x),
    decreases s.len(),
{
    if s.len() > 0 {
        let t = s.drop_last();
        assert forall|i: int| 0 <= i < t.len() implies !f(#[trigger] t[i]).contains(x) by {
            assert(t[i] == s[i]);
        }
        assert(!f(s[s.len() - 1]).contains(x));
        lemma_expand_absent(t, f, x);
        lemma_contains_concat(expand(s.drop_last(), f), f(s.last()), x);
    }
}

/// What stands between two texts is found there.
pub proof fn lemma_occurs_between<T>(whole: Seq<T>, before: Seq<T>, pat: Seq<T>, behind: Seq<T>)
    requires
        whole == before + pat + behind,
    ensures
        occurs_at(whole, pat, before.len() as int),
        contains_seq(whole, pat),
        before.len() == 0 ==> starts_with(whole, pat),
        behind.len() == 0 ==> ends_with(whole, pat),
{
    assert(whole.subrange(before.len() as int, (before.len() + pat.len()) as int) =~= pat);
    assert(occurs_at(whole, pat, before.len() as int));
}

/// A text that holds another is made of it and of what stands around it.
pub proof fn law_contains_splits<T>(hay: Seq<T>, pat: Seq<T>)
    ensures
        contains_seq(hay, pat) <==> exists|before: Seq<T>, behind: Seq<T>|
            hay == #[trigger] (before + pat + behind),
{
    if contains_seq(hay, pat) {
        let i = choose|i: int| occurs_at(hay, pat, i);
        let before = hay.take(i);
        let behind = hay.skip(i + pat.len());
        assert(hay =~= before + hay.subrange(i, i + pat.len()) + behind);
        assert(hay == before + pat + behind);
    }
    if exists|before: Seq<T>, behind: Seq<T>| hay == #[trigger] (before + pat + behind) {
        let (before, behind) = choose|before: Seq<T>, behind: Seq<T>|
            hay == #[trigger] (before + pat + behind);
        lemma_occurs_between(hay, before, pat, behind);
    }
}

/// The first occurrence is replaced, what stands before it stays, and what
/// stands behind it is replaced in the same way. Where there is none, all
/// stays.
pub proof fn law_replace_goes_from_left_to_right<T>(
    before: Seq<T>,
    pat: Seq<T>,
    behind: Seq<T>,
    rep: Seq<T>,
)
    requires
        pat.len() > 0,
        find_from(before + pat + behind, pat, 0) == Some(before.len() as int),
    ensures
        replace_all(before + pat + behind, pat, rep) == before + rep + replace_all(
            behind,
            pat,
            rep,
        ),
    decreases before.len(),
{
    let hay = before + pat + behind;
    lemma_find_from(hay, pat, 0);
    if before.len() == 0 {
        assert(hay.subrange(0, pat.len() as int) =~= pat);
        assert(hay.skip(pat.len() as int) =~= behind);
        assert(before + rep + replace_all(behind, pat, rep) =~= rep + replace_all(
            behind,
            pat,
            rep,
        ));
    } else {
        let shorter = before.skip(1);
        let rest = shorter + pat + behind;
        assert(hay.skip(1) =~= rest);
        assert(!occurs_at(hay, pat, 0));
        lemma_find_from(rest, pat, 0);
        assert(rest.subrange(shorter.len() as int, (shorter.len() + pat.len()) as int) =~= pat);
        assert(occurs_at(rest, pat, shorter.len() as int));
        assert forall|j: int| 0 <= j < shorter.len() implies !occurs_at(rest, pat, j) by {
            assert(!occurs_at(hay, pat, j + 1));
            if occurs_at(rest, pat, j) {
                assert(hay.subrange(j + 1, j + 1 + pat.len()) =~= rest.subrange(
                    j,
                    j + pat.len(),
                ));
            }
        }
        assert(find_from(rest, pat, 0) == Some(shorter.len() as int));
        law_replace_goes_from_left_to_right(shorter, pat, behind, rep);
        assert(seq![hay[0]] + (shorter + rep + replace_all(behind, pat, rep)) =~= before + rep
            + replace_all(behind, pat, rep));
    }
}

/// The parts of a text stand in it.
pub proof fn lemma_parts<T>(
    text: Seq<T>,
    a: Seq<T>,
    b: Seq<T>,
    c: Seq<T>,
    d: Seq<T>,
    e: Seq<T>,
    f: Seq<T>,
)
    requires
        text == a + b + c + d + e + f,
    ensures
        starts_with(text, a),
        contains_seq(text, b),
        contains_seq(text, c),
        contains_seq(text, d),
        contains_seq(text, e),
        ends_with(text, f),
        text.len() == a.len() + b.len() + c.len() + d.len() + e.len() + f.len(),
{
    let none: Seq<T> = Seq::empty();
    assert(text =~= none + a + (b + c + d + e + f));
    lemma_occurs_between(text, none, a, b + c + d + e + f);
    assert(text =~= a + b + (c + d + e + f));
    lemma_occurs_between(text, a, b, c + d + e + f);
    assert(text =~= (a + b) + c + (d + e + f));
    lemma_occurs_between(text, a + b, c, d + e + f);
    assert(text =~= (a + b + c) + d + (e + f));
    lemma_occurs_between(text, a + b + c, d, e + f);
    assert(text =~= (a + b + c + d) + e + f);
    lemma_occurs_between(text, a + b + c + d, e, f);
    assert(text =~= (a + b + c + d + e) + f + none);
    lemma_occurs_between(text, a + b + c + d + e, f, none);
}

/// What a part of a text holds, the text holds.
pub proof fn lemma_contains_around<T>(
    whole: Seq<T>,
    before: Seq<T>,
    part: Seq<T>,
    behind: Seq<T>,
    pat: Seq<T>,
)
    requires
        whole == before + part + behind,
        contains_seq(part, pat),
    ensures
        contains_seq(whole, pat),
{
    let i = choose|i: int| occurs_at(part, pat, i);
    let k = before.len() + i;
    assert(whole.subrange(k, k + pat.len()) =~= part.subrange(i, i + pat.len()));
    assert(occurs_at(whole, pat, k));
}

/// The empty pattern stands before each element and behind the last: the
/// replacement is put there, and every element stays.
pub proof fn law_replace_of_the_empty_pattern<T>(s: Seq<T>, x: T, rep: Seq<T>)
    ensures
        replace_all(Seq::empty(), Seq::empty(), rep) == rep,
        replace_all(s + seq![x], Seq::empty(), rep) == replace_all(s, Seq::empty(), rep) + seq![x]
            + rep,
{
    let f = |y: T| seq![y] + rep;
    let longer = s + seq![x];
    assert(expand(Seq::empty(), f) =~= Seq::empty());
    assert(longer.drop_last() =~= s);
    assert(longer.last() == x);
    assert(expand(longer, f) == expand(s, f) + (seq![x] + rep));
    assert(rep + (expand(s, f) + (seq![x] + rep)) =~= rep + expand(s, f) + seq![x] + rep);
}

} // verus!
