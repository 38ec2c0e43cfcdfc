//! Paths that stay inside the media directory.

use crate::text::chars_of;
use vstd::prelude::*;

verus! {

/// Both slashes separate the components of a path.
pub open spec fn is_separator(c: char) -> bool {
    c == '/' || c == '\\'
}

/// The components of a path, empty ones included.
pub open spec fn components(s: Seq<char>) -> Seq<Seq<char>>
    decreases s.len(),
{
    if s.len() == 0 {
        seq![Seq::empty()]
    } else {
        let parts = components(s.drop_last());
        if is_separator(s.last()) {
            parts.push(Seq::empty())
        } else {
            parts.drop_last().push(parts.last().push(s.last()))
        }
    }
}

/// The component that names the parent directory.
pub open spec fn is_parent(comp: Seq<char>) -> bool {
    comp == seq!['.', '.']
}

/// A component of nothing but dots and spaces, the empty one included: some
/// systems strip those, so that it names a directory that is already there.
pub open spec fn is_dots(comp: Seq<char>) -> bool {
    forall|i: int| 0 <= i < comp.len() ==> #[trigger] comp[i] == '.' || comp[i] == ' '
}

/// What one component does to the components that lead to it: the parent
/// takes the last one off, dots and spaces do nothing, a name is added.
pub open spec fn enter(stack: Seq<Seq<char>>, comp: Seq<char>) -> Seq<Seq<char>> {
    if is_parent(comp) {
        if stack.len() > 0 {
            stack.drop_last()
        } else {
            stack
        }
    } else if is_dots(comp) {
        stack
    } else {
        stack.push(comp)
    }
}

/// The components that are left when each has been entered in turn.
pub open spec fn resolve(comps: Seq<Seq<char>>) -> Seq<Seq<char>>
    decreases comps.len(),
{
    if comps.len() == 0 {
        Seq::empty()
    } else {
        enter(resolve(comps.drop_last()), comps.last())
    }
}

/// Components with a slash between each two.
pub open spec fn joined(stack: Seq<Seq<char>>) -> Seq<char>
    decreases stack.len(),
{
    if stack.len() == 0 {
        Seq::empty()
    } else if stack.len() == 1 {
        stack[0]
    } else {
        joined(stack.drop_last()).push('/') + stack.last()
    }
}

/// The relative path that a decoded path stands for.
pub open spec fn sanitized(s: Seq<char>) -> Seq<char> {
    joined(resolve(components(s)))
}

/// A component that names something inside the directory that it stands in.
pub open spec fn is_name(comp: Seq<char>) -> bool {
    &&& comp.len() > 0
    &&& forall|i: int| 0 <= i < comp.len() ==> !is_separator(#[trigger] comp[i])
    &&& !is_dots(comp)
}

/// A path that leads down only: empty, or names with a slash between each
/// two. No component of it is `..`, and it holds no backslash.
pub open spec fn is_inside(path: Seq<char>) -> bool {
    path.len() > 0 ==> {
        &&& forall|i: int|
            0 <= i < components(path).len() ==> is_name(#[trigger] components(path)[i])
        &&& !path.contains('\\')
    }
}

/// The pieces of `cs` that the ranges in `stack` mark.
spec fn pieces(cs: Seq<char>, stack: Seq<(usize, usize)>) -> Seq<Seq<char>> {
    stack.map_values(|r: (usize, usize)| cs.subrange(r.0 as int, r.1 as int))
}

spec fn in_bounds(cs: Seq<char>, stack: Seq<(usize, usize)>) -> bool {
    forall|i: int| 0 <= i < stack.len() ==> (#[trigger] stack[i]).0 <= stack[i].1 <= cs.len()
}

/// Enters the component of `cs` that `start` and `end` mark.
fn enter_component(cs: &Vec<char>, stack: &mut Vec<(usize, usize)>, start: usize, end: usize)
    requires
        start <= end <= cs@.len(),
        in_bounds(cs@, old(stack)@),
    ensures
        in_bounds(cs@, final(stack)@),
        pieces(cs@, final(stack)@) == enter(
            pieces(cs@, old(stack)@),
            cs@.subrange(start as int, end as int),
        ),
{
    let ghost comp = cs@.subrange(start as int, end as int);
    if end - start == 2 && cs[start] == '.' && cs[start + 1] == '.' {
        assert(comp =~= seq!['.', '.']);
        stack.pop();
        assert(pieces(cs@, stack@) =~= enter(pieces(cs@, old(stack)@), comp));
        return;
    }
    assert(!is_parent(comp)) by {
        if is_parent(comp) {
            assert(comp.len() == 2 && comp[0] == '.' && comp[1] == '.');
            assert(comp[0] == cs@[start as int] && comp[1] == cs@[start + 1]);
        }
    }
    let mut k = start;
    while k < end && (cs[k] == '.' || cs[k] == ' ')
        invariant
            start <= k <= end <= cs@.len(),
            forall|j: int| start <= j < k ==> #[trigger] cs@[j] == '.' || cs@[j] == ' ',
        decreases end - k,
    {
        k += 1;
    }
    if k == end {
        assert(is_dots(comp)) by {
            assert forall|j: int| 0 <= j < comp.len() implies #[trigger] comp[j] == '.'
                || comp[j] == ' ' by {
                assert(comp[j] == cs@[start + j]);
            }
        }
    } else {
        assert(!is_dots(comp)) by {
            assert(comp[k - start] == cs@[k as int]);
        }
        stack.push((start, end));
        assert(pieces(cs@, stack@) =~= pieces(cs@, old(stack)@).push(comp));
    }
}

/// Writes the components that `stack` marks, a slash between each two.
fn join_components(cs: &Vec<char>, stack: &Vec<(usize, usize)>) -> (r: String)
    requires
        in_bounds(cs@, stack@),
    ensures
        r@ == joined(pieces(cs@, stack@)),
{
    let mut out = String::new();
    let mut m: usize = 0;
    while m < stack.len()
        invariant
            in_bounds(cs@, stack@),
            m <= stack@.len(),
            out@ == joined(pieces(cs@, stack@).take(m as int)),
        decreases stack@.len() - m,
    {
        if m > 0 {
            out.push('/');
        }
        let ghost before = out@;
        let (start, end) = stack[m];
        let ghost piece = pieces(cs@, stack@)[m as int];
        let mut k = start;
        assert(piece.take(0) =~= Seq::empty());
        assert(before + piece.take(0) =~= before);
        while k < end
            invariant
                start <= k <= end <= cs@.len(),
                piece == cs@.subrange(start as int, end as int),
                out@ == before + piece.take(k - start),
            decreases end - k,
        {
            out.push(cs[k]);
            assert(piece.take(k - start + 1) =~= piece.take(k - start).push(cs@[k as int]));
            k += 1;
        }
        assert(piece.take(end - start) =~= piece);
        let ghost next = pieces(cs@, stack@).take(m + 1);
        assert(next.drop_last() =~= pieces(cs@, stack@).take(m as int));
        assert(next.last() == piece);
        assert(out@ =~= joined(next));
        m += 1;
    }
    assert(pieces(cs@, stack@).take(m as int) =~= pieces(cs@, stack@));
    out
}

/// Turns a decoded path into a relative path that cannot leave the directory
/// it is joined to.
pub fn sanitize_path(decoded_path: &str) -> (r: String)
    ensures
        r@ == sanitized(decoded_path@),
{
    let cs = chars_of(decoded_path);
    let mut stack: Vec<(usize, usize)> = Vec::new();
    let ghost mut done: Seq<Seq<char>> = Seq::empty();
    let mut start: usize = 0;
    let mut i: usize = 0;
    assert(pieces(cs@, stack@) =~= Seq::empty());
    assert(cs@.take(0) =~= Seq::empty());
    assert(components(cs@.take(0)) =~= done.push(cs@.subrange(0, 0)));
    while i < cs.len()
        invariant
            start <= i <= cs@.len(),
            in_bounds(cs@, stack@),
            pieces(cs@, stack@) == resolve(done),
            components(cs@.take(i as int)) == done.push(cs@.subrange(start as int, i as int)),
        decreases cs@.len() - i,
    {
        let ghost comp = cs@.subrange(start as int, i as int);
        let ghost next = cs@.take(i + 1);
        assert(next.drop_last() =~= cs@.take(i as int));
        assert(next.last() == cs@[i as int]);
        if cs[i] == '/' || cs[i] == '\\' {
            enter_component(&cs, &mut stack, start, i);
            proof {
                assert(done.push(comp).drop_last() =~= done);
                done = done.push(comp);
            }
            start = i + 1;
            assert(cs@.subrange(start as int, i + 1) =~= Seq::empty());
        } else {
            assert(done.push(comp).drop_last() =~= done);
            assert(cs@.subrange(start as int, i + 1) =~= comp.push(cs@[i as int]));
        }
        i += 1;
    }
    enter_component(&cs, &mut stack, start, i);
    assert(cs@.take(i as int) =~= cs@);
    assert(components(cs@).drop_last() =~= done);
    join_components(&cs, &stack)
}

/// There is always at least one component, and none holds a separator.
proof fn lemma_components_shape(s: Seq<char>)
    ensures
        components(s).len() > 0,
        forall|i: int, j: int|
            0 <= i < components(s).len() && 0 <= j < components(s)[i].len() ==> !is_separator(
                #[trigger] components(s)[i][j],
            ),
    decreases s.len(),
{
    if s.len() > 0 {
        lemma_components_shape(s.drop_last());
        let parts = components(s.drop_last());
        assert forall|i: int, j: int|
            0 <= i < components(s).len() && 0 <= j
                < components(s)[i].len() implies !is_separator(#[trigger] components(s)[i][j]) by {
            if is_separator(s.last()) {
                if i < parts.len() {
                    assert(components(s)[i] == parts[i]);
                    assert(!is_separator(parts[i][j]));
                }
            } else {
                if i < parts.len() - 1 {
                    assert(components(s)[i] == parts[i]);
                    assert(!is_separator(parts[i][j]));
                } else if j < parts.last().len() {
                    assert(components(s)[i][j] == parts[i][j]);
                    assert(!is_separator(parts[i][j]));
                }
            }
        }
    }
}

/// What is left of components without separators is names.
proof fn lemma_resolve_names(comps: Seq<Seq<char>>)
    requires
        forall|i: int, j: int|
            0 <= i < comps.len() && 0 <= j < comps[i].len() ==> !is_separator(
                #[trigger] comps[i][j],
            ),
    ensures
        forall|i: int| 0 <= i < resolve(comps).len() ==> is_name(#[trigger] resolve(comps)[i]),
    decreases comps.len(),
{
    if comps.len() > 0 {
        let front = comps.drop_last();
        assert forall|i: int, j: int|
            0 <= i < front.len() && 0 <= j < front[i].len() implies !is_separator(
            #[trigger] front[i][j],
        ) by {
            assert(!is_separator(comps[i][j]));
        }
        lemma_resolve_names(front);
        let stack = resolve(front);
        let comp = comps.last();
        assert forall|i: int| 0 <= i < resolve(comps).len() implies is_name(
            #[trigger] resolve(comps)[i],
        ) by {
            if i < stack.len() {
                assert(resolve(comps)[i] == stack[i]);
            } else {
                assert(resolve(comps)[i] == comp);
                assert forall|j: int| 0 <= j < comp.len() implies !is_separator(
                    #[trigger] comp[j],
                ) by {
                    assert(!is_separator(comps[comps.len() - 1][j]));
                }
                assert(comp.len() > 0) by {
                    if comp.len() == 0 {
                        assert(is_dots(comp));
                    }
                }
            }
        }
    }
}

/// A separator splits: what follows it, if it holds none itself, is one more
/// component.
pub proof fn lemma_components_push(a: Seq<char>, b: Seq<char>)
    requires
        forall|i: int| 0 <= i < b.len() ==> !is_separator(#[trigger] b[i]),
    ensures
        components(a.push('/') + b) == components(a).push(b),
    decreases b.len(),
{
    let s = a.push('/') + b;
    if b.len() == 0 {
        assert(s =~= a.push('/'));
        assert(s.drop_last() =~= a);
        assert(b =~= Seq::empty());
    } else {
        let c = b.drop_last();
        assert forall|i: int| 0 <= i < c.len() implies !is_separator(#[trigger] c[i]) by {
            assert(!is_separator(b[i]));
        }
        lemma_components_push(a, c);
        assert(s.drop_last() =~= a.push('/') + c);
        assert(s.last() == b[b.len() - 1]);
        assert(components(a).push(c).drop_last() =~= components(a));
        assert(c.push(b.last()) =~= b);
    }
}

/// A text without separators is one component.
pub proof fn lemma_components_single(b: Seq<char>)
    requires
        forall|i: int| 0 <= i < b.len() ==> !is_separator(#[trigger] b[i]),
    ensures
        components(b) == seq![b],
    decreases b.len(),
{
    if b.len() == 0 {
        assert(b =~= Seq::empty());
    } else {
        let c = b.drop_last();
        assert forall|i: int| 0 <= i < c.len() implies !is_separator(#[trigger] c[i]) by {
            assert(!is_separator(b[i]));
        }
        lemma_components_single(c);
        assert(b.last() == b[b.len() - 1]);
        assert(c.push(b.last()) =~= b);
        assert(components(b) =~= seq![b]);
    }
}

/// Joined names split into those names again.
proof fn lemma_components_joined(stack: Seq<Seq<char>>)
    requires
        stack.len() > 0,
        forall|i: int| 0 <= i < stack.len() ==> is_name(#[trigger] stack[i]),
    ensures
        components(joined(stack)) == stack,
        joined(stack).len() > 0,
        !joined(stack).contains('\\'),
    decreases stack.len(),
{
    assert(is_name(stack[stack.len() - 1]));
    if stack.len() == 1 {
        lemma_components_single(stack[0]);
        assert(stack =~= seq![stack[0]]);
        assert forall|i: int| 0 <= i < stack[0].len() implies stack[0][i] != '\\' by {
            assert(!is_separator(stack[0][i]));
        }
    } else {
        let front = stack.drop_last();
        assert forall|i: int| 0 <= i < front.len() implies is_name(#[trigger] front[i]) by {
            assert(is_name(stack[i]));
        }
        lemma_components_joined(front);
        lemma_components_push(joined(front), stack.last());
        assert(front.push(stack.last()) =~= stack);
        let s = joined(stack);
        let n = joined(front).len() as int;
        assert forall|i: int| 0 <= i < s.len() implies s[i] != '\\' by {
            if i < n {
                assert(joined(front).contains(joined(front)[i]));
            } else if i > n {
                assert(!is_separator(stack.last()[i - n - 1]));
            }
        }
    }
}

/// Names resolve to themselves.
proof fn lemma_resolve_identity(stack: Seq<Seq<char>>)
    requires
        forall|i: int| 0 <= i < stack.len() ==> is_name(#[trigger] stack[i]),
    ensures
        resolve(stack) == stack,
    decreases stack.len(),
{
    if stack.len() > 0 {
        let front = stack.drop_last();
        assert forall|i: int| 0 <= i < front.len() implies is_name(#[trigger] front[i]) by {
            assert(is_name(stack[i]));
        }
        lemma_resolve_identity(front);
        let comp = stack[stack.len() - 1];
        assert(is_name(comp));
        if is_parent(comp) {
            assert(is_dots(comp));
        }
        assert(front.push(comp) =~= stack);
    } else {
        assert(resolve(stack) =~= stack);
    }
}

/// No decoded path climbs: whatever the path, its sanitized form leads down
/// only.
pub proof fn law_sanitized_is_inside(s: Seq<char>)
    ensures
        is_inside(sanitized(s)),
{
    let stack = resolve(components(s));
    lemma_components_shape(s);
    lemma_resolve_names(components(s));
    if stack.len() > 0 {
        lemma_components_joined(stack);
    }
}

/// A path that leads down only is its own sanitized form.
pub proof fn law_sanitize_keeps_inside(path: Seq<char>)
    requires
        is_inside(path),
    ensures
        sanitized(path) == path,
{
    if path.len() == 0 {
        reveal_with_fuel(resolve, 2);
        assert(components(path) =~= seq![Seq::empty()]);
        let e: Seq<char> = Seq::empty();
        assert(is_dots(e));
        assert(components(path).drop_last() =~= Seq::empty());
        assert(sanitized(path) =~= path);
    } else {
        lemma_components_shape(path);
        lemma_resolve_identity(components(path));
        lemma_joined_components(path);
    }
}

/// Joining the components of a path with slashes gives the path back.
proof fn lemma_joined_components(s: Seq<char>)
    requires
        !s.contains('\\'),
    ensures
        joined(components(s)) == s,
    decreases s.len(),
{
    lemma_components_shape(s);
    if s.len() == 0 {
        assert(components(s) =~= seq![Seq::empty()]);
        assert(joined(components(s)) =~= s);
    } else {
        let t = s.drop_last();
        assert(!t.contains('\\')) by {
            assert forall|i: int| 0 <= i < t.len() implies t[i] != '\\' by {
                assert(s.contains(s[i]));
            }
        }
        assert(s.contains(s.last()));
        lemma_joined_components(t);
        lemma_components_shape(t);
        let parts = components(t);
        if is_separator(s.last()) {
            assert(parts.push(Seq::empty()).drop_last() =~= parts);
            assert(joined(components(s)) =~= s);
        } else {
            let longer = parts.drop_last().push(parts.last().push(s.last()));
            assert(longer.drop_last() =~= parts.drop_last());
            assert(joined(longer) =~= joined(parts).push(s.last()));
            assert(t.push(s.last()) =~= s);
        }
    }
}

/// Sanitizing twice is sanitizing once.
pub proof fn law_sanitize_idempotent(s: Seq<char>)
    ensures
        sanitized(sanitized(s)) == sanitized(s),
{
    law_sanitized_is_inside(s);
    law_sanitize_keeps_inside(sanitized(s));
}

/// A slash in front of a path makes no difference.
pub proof fn law_sanitize_leading_slash(s: Seq<char>)
    ensures
        sanitized(seq!['/'] + s) == sanitized(s),
{
    lemma_components_leading_slash(s);
    lemma_resolve_leading_empty(components(s));
}

/// A slash behind a path makes no difference.
pub proof fn law_sanitize_trailing_slash(s: Seq<char>)
    ensures
        sanitized(s.push('/')) == sanitized(s),
{
    let e: Seq<char> = Seq::empty();
    let comps = components(s);
    assert(s.push('/').drop_last() =~= s);
    assert(components(s.push('/')) == comps.push(e));
    assert(comps.push(e).drop_last() =~= comps);
    assert(is_dots(e));
    assert(e.len() != seq!['.', '.'].len());
    assert(resolve(comps.push(e)) == resolve(comps));
}

proof fn lemma_components_leading_slash(s: Seq<char>)
    ensures
        components(seq!['/'] + s) == seq![Seq::empty()] + components(s),
    decreases s.len(),
{
    let p = seq!['/'] + s;
    let e: Seq<Seq<char>> = seq![Seq::empty()];
    if s.len() == 0 {
        reveal_with_fuel(components, 2);
        assert(p.drop_last() =~= Seq::empty());
        assert(components(p) =~= e + components(s));
    } else {
        lemma_components_leading_slash(s.drop_last());
        lemma_components_shape(s.drop_last());
        assert(p.drop_last() =~= seq!['/'] + s.drop_last());
        let parts = components(s.drop_last());
        assert((e + parts).drop_last() =~= e + parts.drop_last());
        assert(components(p) =~= e + components(s));
    }
}

proof fn lemma_resolve_leading_empty(comps: Seq<Seq<char>>)
    ensures
        resolve(seq![Seq::empty()] + comps) == resolve(comps),
    decreases comps.len(),
{
    let e: Seq<Seq<char>> = seq![Seq::empty()];
    let all = e + comps;
    if comps.len() == 0 {
        reveal_with_fuel(resolve, 2);
        assert(all =~= e);
        assert(e.drop_last() =~= Seq::empty());
        assert(is_dots(e.last()));
    } else {
        lemma_resolve_leading_empty(comps.drop_last());
        assert(all.drop_last() =~= e + comps.drop_last());
        assert(all.last() == comps.last());
    }
}

/// A path with slashes in place of its backslashes.
pub open spec fn with_slashes(s: Seq<char>) -> Seq<char> {
    s.map_values(
        |c: char|
            if c == '\\' {
                '/'
            } else {
                c
            },
    )
}

/// A backslash leads where a slash does.
pub proof fn law_sanitize_backslash(s: Seq<char>)
    ensures
        sanitized(s) == sanitized(with_slashes(s)),
{
    lemma_components_backslash(s);
}

proof fn lemma_components_backslash(s: Seq<char>)
    ensures
        components(with_slashes(s)) == components(s),
    decreases s.len(),
{
    let t = with_slashes(s);
    if s.len() > 0 {
        lemma_components_backslash(s.drop_last());
        assert(t.drop_last() =~= with_slashes(s.drop_last()));
        assert(t.last() == if s.last() == '\\' {
            '/'
        } else {
            s.last()
        });
    }
}

/// The part of a path before a slash may be sanitized first.
pub proof fn law_sanitize_prefix_first(a: Seq<char>, b: Seq<char>)
    ensures
        sanitized(sanitized(a).push('/') + b) == sanitized(a.push('/') + b),
{
    let first = sanitized(a);
    lemma_components_split(a, b);
    lemma_components_split(first, b);
    lemma_resolve_sanitized(a);
    lemma_resolve_after(components(first), components(a), components(b));
}

/// A slash splits the components of a path.
proof fn lemma_components_split(a: Seq<char>, b: Seq<char>)
    ensures
        components(a.push('/') + b) == components(a) + components(b),
    decreases b.len(),
{
    let s = a.push('/') + b;
    if b.len() == 0 {
        assert(s =~= a.push('/'));
        assert(s.drop_last() =~= a);
        assert(components(s) =~= components(a) + components(b));
    } else {
        let c = b.drop_last();
        lemma_components_split(a, c);
        lemma_components_shape(c);
        assert(s.drop_last() =~= a.push('/') + c);
        assert(s.last() == b.last());
        let parts = components(a) + components(c);
        assert(parts.last() == components(c).last());
        assert(parts.drop_last() =~= components(a) + components(c).drop_last());
        assert(components(s) =~= components(a) + components(b));
    }
}

/// The components of a sanitized path lead where those of the path do.
proof fn lemma_resolve_sanitized(s: Seq<char>)
    ensures
        resolve(components(sanitized(s))) == resolve(components(s)),
{
    let stack = resolve(components(s));
    lemma_components_shape(s);
    lemma_resolve_names(components(s));
    if stack.len() > 0 {
        lemma_components_joined(stack);
        lemma_resolve_identity(stack);
    } else {
        let e: Seq<char> = Seq::empty();
        assert(sanitized(s) =~= e);
        reveal_with_fuel(resolve, 2);
        assert(components(e) =~= seq![e]);
        assert(components(e).drop_last() =~= Seq::empty());
        assert(is_dots(e));
        assert(e.len() != seq!['.', '.'].len());
        assert(resolve(components(e)) =~= stack);
    }
}

/// What follows leads on from where one is, whichever way one came.
proof fn lemma_resolve_after(x: Seq<Seq<char>>, y: Seq<Seq<char>>, behind: Seq<Seq<char>>)
    requires
        resolve(x) == resolve(y),
    ensures
        resolve(x + behind) == resolve(y + behind),
    decreases behind.len(),
{
    if behind.len() == 0 {
        assert(x + behind =~= x);
        assert(y + behind =~= y);
    } else {
        lemma_resolve_after(x, y, behind.drop_last());
        assert((x + behind).drop_last() =~= x + behind.drop_last());
        assert((y + behind).drop_last() =~= y + behind.drop_last());
    }
}

/// A text without a slash or backslash, of which some character is neither a
/// dot nor a space.
pub open spec fn names_something(n: Seq<char>) -> bool {
    &&& !n.contains('/')
    &&& !n.contains('\\')
    &&& exists|i: int| 0 <= i < n.len() && #[trigger] n[i] != '.' && n[i] != ' '
}

proof fn lemma_names_something(n: Seq<char>)
    requires
        names_something(n),
    ensures
        is_name(n),
        !is_parent(n),
{
    assert forall|i: int| 0 <= i < n.len() implies !is_separator(#[trigger] n[i]) by {
        assert(n.contains(n[i]));
    }
    let i = choose|i: int| 0 <= i < n.len() && #[trigger] n[i] != '.' && n[i] != ' ';
    if is_parent(n) {
        assert(n[0] == '.' && n[1] == '.');
    }
}

/// An empty path leads to the media directory itself.
pub proof fn law_sanitize_empty()
    ensures
        sanitized(Seq::empty()) == Seq::<char>::empty(),
{
    law_sanitize_keeps_inside(Seq::empty());
}

/// A name behind a slash leads one step down, into what it names.
pub proof fn law_sanitize_enters_a_name(path: Seq<char>, n: Seq<char>)
    requires
        names_something(n),
    ensures
        sanitized(path.push('/') + n) == if sanitized(path).len() == 0 {
            n
        } else {
            sanitized(path).push('/') + n
        },
{
    lemma_names_something(n);
    lemma_components_push(path, n);
    let stack = resolve(components(path));
    let comps = components(path).push(n);
    assert(comps.drop_last() =~= components(path));
    assert(resolve(comps) == stack.push(n));
    lemma_components_shape(path);
    lemma_resolve_names(components(path));
    assert(stack.push(n).drop_last() =~= stack);
    if stack.len() > 0 {
        lemma_components_joined(stack);
    }
}

/// Going into a directory and out again leads nowhere else: `..` takes off
/// exactly one name.
pub proof fn law_sanitize_parent_undoes_a_name(path: Seq<char>, n: Seq<char>)
    requires
        names_something(n),
    ensures
        sanitized(path.push('/') + n + seq!['/', '.', '.']) == sanitized(path),
{
    let parent = seq!['.', '.'];
    let inner = path.push('/') + n;
    lemma_names_something(n);
    lemma_components_push(path, n);
    assert(path.push('/') + n + seq!['/', '.', '.'] =~= inner.push('/') + parent);
    lemma_components_push(inner, parent);
    let stack = resolve(components(path));
    let one = components(path).push(n);
    let two = one.push(parent);
    assert(one.drop_last() =~= components(path));
    assert(two.drop_last() =~= one);
    assert(resolve(one) == stack.push(n));
    assert(resolve(two) =~= stack);
}

/// There is nothing above the media directory: `..` leads from it to itself.
pub proof fn law_sanitize_parent_of_the_top(path: Seq<char>)
    requires
        sanitized(path).len() == 0,
    ensures
        sanitized(path + seq!['/', '.', '.']).len() == 0,
{
    let parent = seq!['.', '.'];
    assert(path + seq!['/', '.', '.'] =~= path.push('/') + parent);
    lemma_components_push(path, parent);
    let stack = resolve(components(path));
    let comps = components(path).push(parent);
    assert(comps.drop_last() =~= components(path));
    lemma_components_shape(path);
    lemma_resolve_names(components(path));
    if stack.len() > 0 {
        lemma_components_joined(stack);
    }
    assert(resolve(comps) =~= stack);
}

/// A component of dots and spaces leads nowhere, unless it is `..`.
pub proof fn law_sanitize_skips_dots(path: Seq<char>, dots: Seq<char>)
    requires
        forall|i: int| 0 <= i < dots.len() ==> #[trigger] dots[i] == '.' || dots[i] == ' ',
        dots != seq!['.', '.'],
    ensures
        sanitized(path.push('/') + dots) == sanitized(path),
{
    assert forall|i: int| 0 <= i < dots.len() implies !is_separator(#[trigger] dots[i]) by {}
    lemma_components_push(path, dots);
    let comps = components(path).push(dots);
    assert(comps.drop_last() =~= components(path));
}

/// Whatever the path, its sanitized form holds no backslash, no empty
/// component and no `..` component, and does not begin or end with a slash.
pub proof fn law_sanitized_never_climbs(s: Seq<char>, a: Seq<char>, b: Seq<char>)
    ensures
        !sanitized(s).contains('\\'),
        sanitized(s) != seq!['.', '.'],
        sanitized(s) != seq!['.', '.', '/'] + b,
        sanitized(s) != a + seq!['/', '.', '.'],
        sanitized(s) != a + seq!['/', '.', '.', '/'] + b,
        sanitized(s) != a + seq!['/', '/'] + b,
        sanitized(s) != seq!['/'] + b,
        sanitized(s) != a + seq!['/'],
{
    let r = sanitized(s);
    let none: Seq<char> = Seq::empty();
    let parent = seq!['.', '.'];
    law_sanitized_is_inside(s);
    assert(is_dots(parent));
    assert(is_dots(none));
    assert(!is_name(parent) && !is_name(none));
    if r.len() == 0 {
        assert(!r.contains('\\'));
    }
    if r == parent {
        lemma_components_single(parent);
        assert(is_name(components(r)[0]));
    }
    if r == seq!['.', '.', '/'] + b {
        assert(r =~= parent.push('/') + b);
        lemma_components_split(parent, b);
        lemma_components_single(parent);
        assert(is_name(components(r)[0]));
    }
    if r == a + seq!['/', '.', '.'] {
        assert(r =~= a.push('/') + parent);
        lemma_components_split(a, parent);
        lemma_components_single(parent);
        assert(is_name(components(r)[components(a).len() as int]));
    }
    if r == a + seq!['/', '.', '.', '/'] + b {
        assert(r =~= a.push('/') + (parent.push('/') + b));
        lemma_components_split(a, parent.push('/') + b);
        lemma_components_split(parent, b);
        lemma_components_single(parent);
        assert(is_name(components(r)[components(a).len() as int]));
    }
    if r == a + seq!['/', '/'] + b {
        assert(r =~= a.push('/') + (none.push('/') + b));
        lemma_components_split(a, none.push('/') + b);
        lemma_components_split(none, b);
        assert(components(none)[0] == none);
        assert(is_name(components(r)[components(a).len() as int]));
    }
    if r == seq!['/'] + b {
        assert(r =~= none.push('/') + b);
        lemma_components_split(none, b);
        assert(components(none)[0] == none);
        assert(is_name(components(r)[0]));
    }
    if r == a + seq!['/'] {
        assert(r =~= a.push('/') + none);
        lemma_components_split(a, none);
        assert(components(none)[0] == none);
        assert(is_name(components(r)[components(a).len() as int]));
    }
}

} // verus!
