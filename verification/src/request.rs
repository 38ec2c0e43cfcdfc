//! What a request asks for: the start of a byte range, an object id, the
//! sort capabilities.

use crate::bytes;
use crate::bytes::{find_byte, find_bytes};
use crate::seqs;
use vstd::prelude::*;
use vstd::string::*;

verus! {

/// The first byte that the text behind `Range: bytes=` asks for: the digits
/// before the first dash, with an optional plus sign in front. Anything else,
/// a missing dash and a number above 64 bits included, asks for byte 0.
pub open spec fn range_value(rest: Seq<u8>) -> nat {
    let body = if rest.len() > 0 && rest[0] == '+' as u8 {
        rest.skip(1)
    } else {
        rest
    };
    match seqs::index_from(body, '-' as u8, 0) {
        Some(d) => {
            let digits = body.take(d);
            if d > 0 && bytes::all_digits(digits) && bytes::digits_value(digits) <= u64::MAX {
                bytes::digits_value(digits)
            } else {
                0
            }
        },
        None => 0,
    }
}

/// The first byte that a request asks for: what its first range header says,
/// byte 0 without one.
pub open spec fn range_start(req: Seq<u8>) -> nat {
    let needle = "Range: bytes=".spec_bytes();
    match seqs::find_from(req, needle, 0) {
        Some(i) => range_value(req.skip(i + needle.len())),
        None => 0,
    }
}

/// The object id of a request: what stands between the first `>` behind the
/// first `ObjectID` and the next `<`. Empty where one of the three is missing.
pub open spec fn object_id(req: Seq<u8>) -> Seq<u8> {
    let needle = "ObjectID".spec_bytes();
    match seqs::find_from(req, needle, 0) {
        Some(p) => match seqs::index_from(req, '>' as u8, p + needle.len()) {
            Some(open) => match seqs::index_from(req, '<' as u8, open + 1) {
                Some(close) => req.subrange(open + 1, close),
                None => Seq::empty(),
            },
            None => Seq::empty(),
        },
        None => Seq::empty(),
    }
}

/// Whether a request asks for the sort capabilities.
pub open spec fn asks_sortcaps(req: Seq<u8>) -> bool {
    seqs::contains_seq(req, "GetSortCapabilities".spec_bytes())
}

/// A prefix of digits stands for no more than the whole.
proof fn lemma_digits_value_monotone(d: Seq<u8>, m: int)
    requires
        0 <= m <= d.len(),
        bytes::all_digits(d),
    ensures
        bytes::digits_value(d.take(m)) <= bytes::digits_value(d),
    decreases d.len(),
{
    if m == d.len() {
        assert(d.take(m) =~= d);
    } else {
        let e = d.drop_last();
        assert(bytes::is_digit(d[d.len() - 1]));
        assert forall|i: int| 0 <= i < e.len() implies bytes::is_digit(#[trigger] e[i]) by {
            assert(bytes::is_digit(d[i]));
        }
        assert(e.take(m) =~= d.take(m));
        lemma_digits_value_monotone(e, m);
    }
}

/// The first byte that a request asks for.
pub fn parse_range_header(req: &[u8]) -> (r: u64)
    ensures
        r == range_start(req@),
{
    let needle = "Range: bytes=".as_bytes();
    proof {
        reveal_strlit("Range: bytes=");
        assert("Range: bytes=".is_ascii());
        assert(needle@.len() == 13);
        seqs::lemma_find_from(req@, needle@, 0);
    }
    let at = match find_bytes(req, needle, 0) {
        Some(i) => i,
        None => {
            return 0;
        },
    };
    let n = req.len();
    let ghost rest = req@.skip(at + needle@.len());
    let mut s = at + needle.len();
    if s < n && req[s] == '+' as u8 {
        s += 1;
    }
    let ghost body = req@.skip(s as int);
    proof {
        assert(body =~= if rest.len() > 0 && rest[0] == '+' as u8 {
            rest.skip(1)
        } else {
            rest
        });
        seqs::lemma_index_from(body, '-' as u8, 0);
    }
    let mut v: u64 = 0;
    let mut k = s;
    assert(body.take(0) =~= Seq::empty());
    while k < n
        invariant
            n == req@.len(),
            s <= k <= n,
            body == req@.skip(s as int),
            range_start(req@) == range_value(rest),
            body == if rest.len() > 0 && rest[0] == '+' as u8 {
                rest.skip(1)
            } else {
                rest
            },
            match seqs::index_from(body, '-' as u8, 0) {
                Some(d) => 0 <= d < body.len() && body[d] == '-' as u8 && forall|j: int|
                    0 <= j < d ==> body[j] != '-' as u8,
                None => forall|j: int| 0 <= j < body.len() ==> body[j] != '-' as u8,
            },
            forall|j: int| 0 <= j < k - s ==> body[j] != '-' as u8,
            bytes::all_digits(body.take(k - s)),
            v == bytes::digits_value(body.take(k - s)),
        decreases n - k,
    {
        let b = req[k];
        let ghost m = k - s;
        assert(body[m] == b);
        if b == '-' as u8 {
            assert(seqs::index_from(body, '-' as u8, 0) == Some(m));
            return if k == s {
                0
            } else {
                v
            };
        }
        let ghost next = body.take(m + 1);
        assert(next.drop_last() =~= body.take(m));
        if b < '0' as u8 || b > '9' as u8 {
            proof {
                if let Some(d) = seqs::index_from(body, '-' as u8, 0) {
                    assert(d > m);
                    assert(body.take(d)[m] == b);
                    assert(!bytes::is_digit(body.take(d)[m]));
                }
            }
            return 0;
        }
        let d: u64 = (b - '0' as u8) as u64;
        proof {
            assert forall|j: int| 0 <= j < next.len() implies bytes::is_digit(
                #[trigger] next[j],
            ) by {
                if j < m {
                    assert(bytes::is_digit(body.take(m)[j]));
                }
            }
            assert(bytes::digits_value(next) == v * 10 + d);
        }
        let scaled = v.checked_mul(10);
        let sum = match scaled {
            Some(x) => x.checked_add(d),
            None => None,
        };
        match sum {
            Some(nv) => {
                v = nv;
            },
            None => {
                proof {
                    if let Some(e) = seqs::index_from(body, '-' as u8, 0) {
                        assert(e > m);
                        let digits = body.take(e);
                        if bytes::all_digits(digits) {
                            lemma_digits_value_monotone(digits, m + 1);
                            assert(digits.take(m + 1) =~= next);
                        }
                    }
                }
                return 0;
            },
        }
        k += 1;
    }
    0
}

/// Whether a request asks for the sort capabilities.
pub fn contains_sortcaps(req: &[u8]) -> (r: bool)
    ensures
        r == asks_sortcaps(req@),
{
    let needle = "GetSortCapabilities".as_bytes();
    proof {
        reveal_strlit("GetSortCapabilities");
        assert("GetSortCapabilities".is_ascii());
        assert(needle@.len() == 19);
        seqs::lemma_find_contains(req@, needle@);
    }
    find_bytes(req, needle, 0).is_some()
}

/// The object id of a request, empty where there is none.
pub fn extract_object_id(req: &[u8]) -> (r: &[u8])
    ensures
        r@ == object_id(req@),
{
    let needle = "ObjectID".as_bytes();
    let n = req.len();
    proof {
        assert(n == req@.len());
        reveal_strlit("ObjectID");
        assert("ObjectID".is_ascii());
        assert(needle@.len() == 8);
        seqs::lemma_find_from(req@, needle@, 0);
    }
    if let Some(p) = find_bytes(req, needle, 0) {
        let start = p + needle.len();
        proof {
            seqs::lemma_index_from(req@, '>' as u8, start as int);
        }
        if let Some(open) = find_byte(req, '>' as u8, start) {
            proof {
                seqs::lemma_index_from(req@, '<' as u8, open + 1);
            }
            if let Some(close) = find_byte(req, '<' as u8, open + 1) {
                return &req[open + 1..close];
            }
        }
    }
    let none = &req[n..n];
    assert(none@ =~= Seq::empty());
    none
}

/// A range header that names its first byte in decimal is read as that byte,
/// whatever follows the dash.
pub proof fn law_range_reads_back(head: Seq<u8>, v: u64, tail: Seq<u8>)
    requires
        ({
            let needle = "Range: bytes=".spec_bytes();
            seqs::find_from(
                head + needle + bytes::decimal(v as nat) + seq!['-' as u8] + tail,
                needle,
                0,
            ) == Some(head.len() as int)
        }),
    ensures
        ({
            let needle = "Range: bytes=".spec_bytes();
            range_start(head + needle + bytes::decimal(v as nat) + seq!['-' as u8] + tail) == v
        }),
{
    let needle = "Range: bytes=".spec_bytes();
    let digits = bytes::decimal(v as nat);
    let req = head + needle + digits + seq!['-' as u8] + tail;
    let rest = req.skip((head.len() + needle.len()) as int);
    assert(rest =~= digits + seq!['-' as u8] + tail);
    bytes::lemma_decimal_digits(v as nat);
    bytes::law_decimal_reads_back(v as nat);
    assert(bytes::is_digit(digits[0]));
    assert(rest[0] == digits[0]);
    seqs::lemma_index_from(rest, '-' as u8, 0);
    let n = digits.len() as int;
    assert(rest[n] == '-' as u8);
    assert forall|j: int| 0 <= j < n implies rest[j] != '-' as u8 by {
        assert(bytes::is_digit(digits[j]));
    }
    assert(seqs::index_from(rest, '-' as u8, 0) == Some(n));
    assert(rest.take(n) =~= digits);
}

/// Where a request asks for another byte than the first, it does so whatever
/// follows it.
pub proof fn law_range_ignores_the_rest(req: Seq<u8>, rest: Seq<u8>)
    requires
        range_start(req) > 0,
    ensures
        range_start(req + rest) == range_start(req),
{
    let needle = "Range: bytes=".spec_bytes();
    reveal_strlit("Range: bytes=");
    assert("Range: bytes=".is_ascii());
    assert(needle.len() == 13);
    let all = req + rest;
    seqs::lemma_find_from(req, needle, 0);
    seqs::lemma_find_from(all, needle, 0);
    if let Some(i) = seqs::find_from(req, needle, 0) {
        assert(all.subrange(i, i + 13) =~= req.subrange(i, i + 13));
        assert(seqs::occurs_at(all, needle, i));
        assert forall|j: int| 0 <= j < i implies !seqs::occurs_at(all, needle, j) by {
            assert(!seqs::occurs_at(req, needle, j));
            assert(all.subrange(j, j + 13) =~= req.subrange(j, j + 13));
        }
        assert(seqs::find_from(all, needle, 0) == Some(i));
        let value = req.skip(i + 13);
        assert(all.skip(i + 13) =~= value + rest);
        lemma_range_value_ignores_the_rest(value, rest);
    }
}

proof fn lemma_range_value_ignores_the_rest(value: Seq<u8>, rest: Seq<u8>)
    requires
        range_value(value) > 0,
    ensures
        range_value(value + rest) == range_value(value),
{
    let all = value + rest;
    let plus = value.len() > 0 && value[0] == '+' as u8;
    let body = if plus {
        value.skip(1)
    } else {
        value
    };
    let longer = body + rest;
    seqs::lemma_index_from(body, '-' as u8, 0);
    seqs::lemma_index_from(longer, '-' as u8, 0);
    if let Some(d) = seqs::index_from(body, '-' as u8, 0) {
        assert(value.len() > 0);
        assert(all[0] == value[0]);
        if plus {
            assert(all.skip(1) =~= longer);
        }
        assert(longer[d] == '-' as u8);
        assert forall|j: int| 0 <= j < d implies longer[j] != '-' as u8 by {
            assert(body[j] != '-' as u8);
        }
        assert(seqs::index_from(longer, '-' as u8, 0) == Some(d));
        assert(longer.take(d) =~= body.take(d));
    }
}

/// The text between the first `>` behind the first `ObjectID` and the next `<`
/// is read as the object id, whatever else the request holds.
pub proof fn law_object_id_reads_back(
    head: Seq<u8>,
    attributes: Seq<u8>,
    id: Seq<u8>,
    tail: Seq<u8>,
)
    requires
        ({
            let needle = "ObjectID".spec_bytes();
            seqs::find_from(
                head + needle + attributes + seq!['>' as u8] + id + seq!['<' as u8] + tail,
                needle,
                0,
            ) == Some(head.len() as int)
        }),
        !attributes.contains('>' as u8),
        !id.contains('<' as u8),
    ensures
        ({
            let needle = "ObjectID".spec_bytes();
            object_id(head + needle + attributes + seq!['>' as u8] + id + seq!['<' as u8] + tail)
                == id
        }),
{
    let needle = "ObjectID".spec_bytes();
    let req = head + needle + attributes + seq!['>' as u8] + id + seq!['<' as u8] + tail;
    let start = (head.len() + needle.len()) as int;
    let open = start + attributes.len();
    let close = open + 1 + id.len();
    seqs::lemma_index_from(req, '>' as u8, start);
    assert(req[open] == '>' as u8);
    assert forall|j: int| start <= j < open implies req[j] != '>' as u8 by {
        assert(attributes.contains(attributes[j - start]));
    }
    assert(seqs::index_from(req, '>' as u8, start) == Some(open));
    seqs::lemma_index_from(req, '<' as u8, open + 1);
    assert(req[close] == '<' as u8);
    assert forall|j: int| open < j < close implies req[j] != '<' as u8 by {
        assert(id.contains(id[j - open - 1]));
    }
    assert(seqs::index_from(req, '<' as u8, open + 1) == Some(close));
    assert(req.subrange(open + 1, close) =~= id);
}

/// Behind the first range header, digits before a dash name the byte that is
/// asked for, with or without a plus sign and zeros in front. What 64 bits do
/// not hold asks for byte 0.
pub proof fn law_range_reads_digits(head: Seq<u8>, digits: Seq<u8>, tail: Seq<u8>, req: Seq<u8>)
    requires
        seqs::find_from(req, "Range: bytes=".spec_bytes(), 0) == Some(head.len() as int),
        digits.len() > 0,
        bytes::all_digits(digits),
        req == head + "Range: bytes=".spec_bytes() + digits + seq!['-' as u8] + tail || req == head
            + "Range: bytes=".spec_bytes() + seq!['+' as u8] + digits + seq!['-' as u8] + tail,
    ensures
        bytes::digits_value(digits) <= u64::MAX ==> range_start(req) == bytes::digits_value(digits),
        bytes::digits_value(digits) > u64::MAX ==> range_start(req) == 0,
{
    let needle = "Range: bytes=".spec_bytes();
    let rest = req.skip((head.len() + needle.len()) as int);
    let body = digits + seq!['-' as u8] + tail;
    assert(bytes::is_digit(digits[0]));
    if req == head + needle + digits + seq!['-' as u8] + tail {
        assert(rest =~= body);
        assert(rest[0] == digits[0]);
    } else {
        assert(rest =~= seq!['+' as u8] + body);
        assert(rest.skip(1) =~= body);
    }
    seqs::lemma_index_from(body, '-' as u8, 0);
    let n = digits.len() as int;
    assert(body[n] == '-' as u8);
    assert forall|j: int| 0 <= j < n implies body[j] != '-' as u8 by {
        assert(bytes::is_digit(digits[j]));
    }
    assert(seqs::index_from(body, '-' as u8, 0) == Some(n));
    assert(body.take(n) =~= digits);
}

/// A request without a range header asks for byte 0, and so does one whose
/// first range header has no dash behind it, or has anything but digits before
/// the first dash.
pub proof fn law_other_ranges_ask_for_the_whole(
    req: Seq<u8>,
    head: Seq<u8>,
    before: Seq<u8>,
    tail: Seq<u8>,
)
    requires
        !before.contains('-' as u8),
    ensures
        !seqs::contains_seq(req, "Range: bytes=".spec_bytes()) ==> range_start(req) == 0,
        seqs::find_from(req, "Range: bytes=".spec_bytes(), 0) == Some(head.len() as int) && req
            == head + "Range: bytes=".spec_bytes() + before ==> range_start(req) == 0,
        seqs::find_from(req, "Range: bytes=".spec_bytes(), 0) == Some(head.len() as int) && req
            == head + "Range: bytes=".spec_bytes() + before + seq!['-' as u8] + tail && (
        before.len() == 0 || exists|i: int| #![trigger before[i]]
            0 <= i < before.len() && !bytes::is_digit(before[i]) && (i > 0 || before[0]
                != '+' as u8 || before.len() == 1)) ==> range_start(req) == 0,
{
    let needle = "Range: bytes=".spec_bytes();
    seqs::lemma_find_contains(req, needle);
    if seqs::find_from(req, needle, 0) == Some(head.len() as int) {
        let rest = req.skip((head.len() + needle.len()) as int);
        let plus = rest.len() > 0 && rest[0] == '+' as u8;
        let body = if plus {
            rest.skip(1)
        } else {
            rest
        };
        let skipped = if plus {
            1int
        } else {
            0int
        };
        seqs::lemma_index_from(body, '-' as u8, 0);
        if req == head + needle + before {
            assert(rest =~= before);
            assert forall|j: int| 0 <= j < body.len() implies body[j] != '-' as u8 by {
                assert(before.contains(before[j + skipped]));
            }
        } else if req == head + needle + before + seq!['-' as u8] + tail {
            assert(rest =~= before + seq!['-' as u8] + tail);
            let n = before.len() - skipped;
            if plus {
                assert(before.len() > 0);
            }
            assert(body[n] == '-' as u8);
            assert forall|j: int| 0 <= j < n implies body[j] != '-' as u8 by {
                assert(body[j] == before[j + skipped]);
                assert(before.contains(before[j + skipped]));
            }
            assert(seqs::index_from(body, '-' as u8, 0) == Some(n));
            if exists|i: int| #![trigger before[i]]
                0 <= i < before.len() && !bytes::is_digit(before[i]) && (i > 0 || before[0]
                    != '+' as u8 || before.len() == 1) {
                let i = choose|i: int| #![trigger before[i]]
                    0 <= i < before.len() && !bytes::is_digit(before[i]) && (i > 0 || before[0]
                        != '+' as u8 || before.len() == 1);
                assert(before[0] == rest[0]);
                if i >= skipped {
                    assert(body.take(n)[i - skipped] == before[i]);
                }
            }
        }
    }
}

/// What is read as an object id stands in the request between a `>` and a `<`,
/// and holds no `<`. A request without `ObjectID`, or without one of the two
/// brackets, has none.
pub proof fn law_object_id_stands_in_the_request(req: Seq<u8>)
    ensures
        !object_id(req).contains('<' as u8),
        object_id(req).len() > 0 ==> seqs::contains_seq(
            req,
            seq!['>' as u8] + object_id(req) + seq!['<' as u8],
        ),
        !seqs::contains_seq(req, "ObjectID".spec_bytes()) ==> object_id(req).len() == 0,
        !req.contains('>' as u8) ==> object_id(req).len() == 0,
        !req.contains('<' as u8) ==> object_id(req).len() == 0,
{
    let needle = "ObjectID".spec_bytes();
    seqs::lemma_find_contains(req, needle);
    seqs::lemma_find_from(req, needle, 0);
    if let Some(p) = seqs::find_from(req, needle, 0) {
        seqs::lemma_index_from(req, '>' as u8, p + needle.len());
        if let Some(open) = seqs::index_from(req, '>' as u8, p + needle.len()) {
            assert(req.contains(req[open]));
            seqs::lemma_index_from(req, '<' as u8, open + 1);
            if let Some(close) = seqs::index_from(req, '<' as u8, open + 1) {
                assert(req.contains(req[close]));
                let id = req.subrange(open + 1, close);
                let inside = seq!['>' as u8] + id + seq!['<' as u8];
                assert(req.subrange(open, open + inside.len()) =~= inside);
                assert(seqs::occurs_at(req, inside, open));
            }
        }
    }
}

/// A request asks for the sort capabilities exactly if it holds the name of
/// that action, wherever it stands.
pub proof fn law_sortcaps_are_asked_for_by_name(req: Seq<u8>)
    ensures
        asks_sortcaps(req) <==> exists|before: Seq<u8>, behind: Seq<u8>|
            req == #[trigger] (before + "GetSortCapabilities".spec_bytes() + behind),
{
    seqs::law_contains_splits(req, "GetSortCapabilities".spec_bytes());
}

/// Only brackets behind the first `ObjectID` count: without a `>` behind it,
/// or without a `<` behind that, a request has no object id, whatever stands
/// before.
pub proof fn law_brackets_before_the_object_id_do_not_count(
    head: Seq<u8>,
    attributes: Seq<u8>,
    tail: Seq<u8>,
    req: Seq<u8>,
)
    requires
        seqs::find_from(req, "ObjectID".spec_bytes(), 0) == Some(head.len() as int),
        !attributes.contains('>' as u8),
        !tail.contains('<' as u8),
        req == head + "ObjectID".spec_bytes() + attributes || req == head + "ObjectID".spec_bytes()
            + attributes + seq!['>' as u8] + tail,
    ensures
        object_id(req).len() == 0,
{
    let needle = "ObjectID".spec_bytes();
    let start = (head.len() + needle.len()) as int;
    let open = start + attributes.len();
    seqs::lemma_index_from(req, '>' as u8, start);
    assert forall|j: int| start <= j < open implies req[j] != '>' as u8 by {
        assert(attributes.contains(attributes[j - start]));
    }
    if req != head + needle + attributes {
        assert(req[open] == '>' as u8);
        assert(seqs::index_from(req, '>' as u8, start) == Some(open));
        seqs::lemma_index_from(req, '<' as u8, open + 1);
        assert forall|j: int| open < j < req.len() implies req[j] != '<' as u8 by {
            assert(tail.contains(tail[j - open - 1]));
        }
    }
}

} // verus!
