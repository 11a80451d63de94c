//! Route paths: how a route's path is joined onto the pattern of the route
//! it is nested in, and the patterns a path with optional parameters stands
//! for.

use vstd::prelude::*;

use crate::text::{chars_of, push_range, string_of, sub_chars};

verus! {

/// `p` without its leading slashes.
pub open spec fn trim_start_slashes(p: Seq<char>) -> Seq<char>
    decreases p.len(),
{
    if p.len() > 0 && p[0] == '/' {
        trim_start_slashes(p.drop_first())
    } else {
        p
    }
}

/// `p` without its trailing slashes.
pub open spec fn trim_end_slashes(p: Seq<char>) -> Seq<char>
    decreases p.len(),
{
    if p.len() > 0 && p.last() == '/' {
        trim_end_slashes(p.drop_last())
    } else {
        p
    }
}

/// A path in the form routes are joined in: no slash at either end, one
/// slash in front unless it is empty or starts a query (`?`) or fragment (`#`).
pub open spec fn normalize_path(p: Seq<char>) -> Seq<char> {
    let s = trim_end_slashes(trim_start_slashes(p));
    if s.len() == 0 || s[0] == '?' || s[0] == '#' {
        s
    } else {
        seq!['/'] + s
    }
}

/// The first index at or after `i` where `p` holds `c`.
pub open spec fn find_char_from(p: Seq<char>, c: char, i: int) -> Option<int>
    decreases p.len() - i,
{
    if i < 0 || i >= p.len() {
        None
    } else if p[i] == c {
        Some(i)
    } else {
        find_char_from(p, c, i + 1)
    }
}

/// `p` cut before its first `*`, with the slashes that end the part kept
/// taken off; `p` itself if it has no `*`.
pub open spec fn remove_wildcard(p: Seq<char>) -> Seq<char> {
    match find_char_from(p, '*', 0) {
        Some(k) => trim_end_slashes(p.take(k)),
        None => p,
    }
}

/// The pattern of a route declared with path `to` under a route whose pattern
/// is `from`.
pub open spec fn joined_path(from: Seq<char>, to: Seq<char>) -> Seq<char> {
    remove_wildcard(normalize_path(from)) + normalize_path(to)
}

/// Trims slashes at both ends of `p[lo..hi]` and returns the bounds of what
/// is left.
fn trim_slashes_range(p: &Vec<char>, lo: usize, hi: usize) -> (r: (usize, usize))
    requires
        lo <= hi <= p@.len(),
    ensures
        lo <= r.0 <= r.1 <= hi,
        p@.subrange(r.0 as int, r.1 as int) == trim_end_slashes(
            trim_start_slashes(p@.subrange(lo as int, hi as int)),
        ),
{
    let mut a = lo;
    while a < hi && p[a] == '/'
        invariant
            lo <= a <= hi,
            hi <= p@.len(),
            trim_start_slashes(p@.subrange(lo as int, hi as int)) == trim_start_slashes(
                p@.subrange(a as int, hi as int),
            ),
        decreases hi - a,
    {
        assert(p@.subrange(a as int, hi as int).drop_first() =~= p@.subrange(a + 1, hi as int));
        a = a + 1;
    }
    let mut b = hi;
    while b > a && p[b - 1] == '/'
        invariant
            a <= b <= hi,
            hi <= p@.len(),
            trim_end_slashes(p@.subrange(a as int, hi as int)) == trim_end_slashes(
                p@.subrange(a as int, b as int),
            ),
        decreases b - a,
    {
        assert(p@.subrange(a as int, b as int).drop_last() =~= p@.subrange(a as int, b - 1));
        b = b - 1;
    }
    (a, b)
}

/// The characters of `normalize_path(p)`.
fn normalize_chars(p: &Vec<char>) -> (r: Vec<char>)
    ensures
        r@ == normalize_path(p@),
{
    let n = p.len();
    let (a, b) = trim_slashes_range(p, 0, n);
    assert(p@.subrange(0, n as int) =~= p@);
    let mut r: Vec<char> = Vec::new();
    if a < b && p[a] != '?' && p[a] != '#' {
        r.push('/');
    }
    push_range(&mut r, p, a, b);
    assert(r@ =~= normalize_path(p@));
    r
}

/// The characters of `remove_wildcard(p)`.
fn remove_wildcard_chars(p: &Vec<char>) -> (r: Vec<char>)
    ensures
        r@ == remove_wildcard(p@),
{
    let n = p.len();
    let mut k: usize = 0;
    while k < n && p[k] != '*'
        invariant
            k <= n,
            n == p@.len(),
            find_char_from(p@, '*', 0) == find_char_from(p@, '*', k as int),
        decreases n - k,
    {
        k = k + 1;
    }
    if k < n {
        let mut b = k;
        while b > 0 && p[b - 1] == '/'
            invariant
                b <= k < n,
                n == p@.len(),
                trim_end_slashes(p@.take(k as int)) == trim_end_slashes(p@.take(b as int)),
            decreases b,
        {
            assert(p@.take(b as int).drop_last() =~= p@.take(b - 1));
            b = b - 1;
        }
        let r = sub_chars(p, 0, b);
        assert(r@ =~= p@.take(b as int));
        r
    } else {
        let r = sub_chars(p, 0, n);
        assert(r@ =~= p@);
        r
    }
}

/// Joins the path `to` of a route onto the pattern `from` of the route it is
/// nested in (see [`joined_path`]).
pub fn join_paths(from: &str, to: &str) -> (r: String)
    ensures
        r@ == joined_path(from@, to@),
{
    let f = chars_of(from);
    let t = chars_of(to);
    let mut joined = remove_wildcard_chars(&normalize_chars(&f));
    let tail = normalize_chars(&t);
    let m = tail.len();
    push_range(&mut joined, &tail, 0, m);
    assert(tail@.subrange(0, m as int) =~= tail@);
    string_of(&joined)
}

/// Where the run of non-slash characters that begins at `i` ends.
pub open spec fn run_end(p: Seq<char>, i: int) -> int
    decreases p.len() - i,
{
    if i < 0 || i >= p.len() || p[i] == '/' {
        i
    } else {
        run_end(p, i + 1)
    }
}

/// The run of non-slash characters that begins at `i` ends within `p`, holds
/// no slash, and is followed by a slash or by the end of `p`.
pub proof fn lemma_run_end(p: Seq<char>, i: int)
    requires
        0 <= i <= p.len(),
    ensures
        i <= run_end(p, i) <= p.len(),
        forall|k: int| i <= k < run_end(p, i) ==> p[k] != '/',
        run_end(p, i) < p.len() ==> p[run_end(p, i)] == '/',
    decreases p.len() - i,
{
    if i < p.len() && p[i] != '/' {
        lemma_run_end(p, i + 1);
    }
}

/// An optional parameter, a whole segment of the form `:name?`, begins at `i`.
pub open spec fn optional_param_at(p: Seq<char>, i: int) -> bool {
    &&& 0 <= i < p.len()
    &&& i == 0 || p[i - 1] == '/'
    &&& p[i] == ':'
    &&& run_end(p, i) - i >= 3
    &&& p[run_end(p, i) - 1] == '?'
}

/// The first index at or after `i` where an optional parameter begins.
pub open spec fn first_optional_from(p: Seq<char>, i: int) -> Option<int>
    decreases p.len() - i,
{
    if i < 0 || i >= p.len() {
        None
    } else if optional_param_at(p, i) {
        Some(i)
    } else {
        first_optional_from(p, i + 1)
    }
}

/// The first optional parameter found from `j` is one, and none begins
/// between `j` and it.
pub proof fn lemma_first_optional(p: Seq<char>, j: int)
    requires
        0 <= j,
    ensures
        first_optional_from(p, j) matches Some(i) ==> j <= i < p.len() && optional_param_at(p, i)
            && forall|k: int| j <= k < i ==> !optional_param_at(p, k),
        first_optional_from(p, j) is None ==> forall|k: int|
            j <= k < p.len() ==> !optional_param_at(p, k),
    decreases p.len() - j,
{
    if j < p.len() && !optional_param_at(p, j) {
        lemma_first_optional(p, j + 1);
    }
}

/// Follows `prefix` with the optional parameters that open `q` one after the
/// other (`/:a?/:b?...`): the prefixes that each of them adds, in order, and
/// what is left of `q` after them.
pub open spec fn adjacent_optionals(prefix: Seq<char>, q: Seq<char>) -> (Seq<Seq<char>>, Seq<char>)
    decreases q.len(),
{
    if q.len() > 0 && q[0] == '/' && optional_param_at(q, 1) {
        let e = run_end(q, 1);
        let next = prefix + q.subrange(0, e - 1);
        proof {
            lemma_run_end(q, 1);
        }
        let (more, rest) = adjacent_optionals(next, q.skip(e));
        (seq![next] + more, rest)
    } else {
        (Seq::empty(), q)
    }
}

/// What is left after the adjacent optional parameters is no longer than
/// what they were taken from.
pub proof fn lemma_adjacent_optionals_rest(prefix: Seq<char>, q: Seq<char>)
    ensures
        adjacent_optionals(prefix, q).1.len() <= q.len(),
    decreases q.len(),
{
    if q.len() > 0 && q[0] == '/' && optional_param_at(q, 1) {
        let e = run_end(q, 1);
        lemma_run_end(q, 1);
        lemma_adjacent_optionals_rest(prefix + q.subrange(0, e - 1), q.skip(e));
    }
}

/// Each of `prefixes` followed by `e`.
pub open spec fn append_each(prefixes: Seq<Seq<char>>, e: Seq<char>) -> Seq<Seq<char>> {
    prefixes.map_values(|q: Seq<char>| q + e)
}

proof fn lemma_append_each_push(prefixes: Seq<Seq<char>>, q: Seq<char>, e: Seq<char>)
    ensures
        append_each(prefixes.push(q), e) == append_each(prefixes, e).push(q + e),
{
    assert(append_each(prefixes.push(q), e) =~= append_each(prefixes, e).push(q + e));
}

proof fn lemma_char_vecs_push(s: Seq<Vec<char>>, v: Vec<char>)
    ensures
        char_vecs_view(s.push(v)) == char_vecs_view(s).push(v@),
{
    assert(char_vecs_view(s.push(v)) =~= char_vecs_view(s).push(v@));
}

proof fn lemma_strings_push(s: Seq<String>, v: String)
    ensures
        strings_view(s.push(v)) == strings_view(s).push(v@),
{
    assert(strings_view(s.push(v)) =~= strings_view(s).push(v@));
}

/// Every prefix followed by every expansion: for each expansion in order, the
/// prefixes in order.
pub open spec fn combine_expansions(prefixes: Seq<Seq<char>>, expansions: Seq<Seq<char>>) -> Seq<
    Seq<char>,
>
    decreases expansions.len(),
{
    if expansions.len() == 0 {
        Seq::empty()
    } else {
        combine_expansions(prefixes, expansions.drop_last()) + append_each(
            prefixes,
            expansions.last(),
        )
    }
}

/// The patterns a pattern with optional parameters stands for. The first
/// optional parameter is either left out or kept; the optional parameters
/// right after it are kept one more at a time (so `/:a?/:b?` gives ``, `/:a`
/// and `/:a/:b`, not `/:b`); the rest of the pattern is expanded in turn and
/// put after each of these prefixes.
pub open spec fn expanded_optionals(p: Seq<char>) -> Seq<Seq<char>>
    decreases p.len(),
{
    match first_optional_from(p, 0) {
        None => seq![p],
        Some(i) => {
            let e = run_end(p, i);
            let start = if i > 0 {
                i - 1
            } else {
                0
            };
            let prefix = p.take(start);
            let with_first = prefix + p.subrange(start, e - 1);
            let (more, suffix) = adjacent_optionals(with_first, p.skip(e));
            proof {
                lemma_first_optional(p, 0);
                lemma_run_end(p, i);
                lemma_adjacent_optionals_rest(with_first, p.skip(e));
            }
            combine_expansions(seq![prefix, with_first] + more, expanded_optionals(suffix))
        }
    }
}

/// The views of a sequence of character vectors.
pub open spec fn char_vecs_view(s: Seq<Vec<char>>) -> Seq<Seq<char>> {
    s.map_values(|v: Vec<char>| v@)
}

/// The views of a sequence of strings.
pub open spec fn strings_view(s: Seq<String>) -> Seq<Seq<char>> {
    s.map_values(|v: String| v@)
}

fn run_end_exec(p: &Vec<char>, i: usize) -> (r: usize)
    requires
        i <= p@.len(),
    ensures
        r == run_end(p@, i as int),
{
    let n = p.len();
    let mut k = i;
    while k < n && p[k] != '/'
        invariant
            i <= k <= n,
            n == p@.len(),
            run_end(p@, i as int) == run_end(p@, k as int),
        decreases n - k,
    {
        k = k + 1;
    }
    k
}

fn is_optional_param(p: &Vec<char>, i: usize) -> (r: bool)
    requires
        i < p@.len(),
    ensures
        r == optional_param_at(p@, i as int),
{
    if (i == 0 || p[i - 1] == '/') && p[i] == ':' {
        let e = run_end_exec(p, i);
        proof {
            lemma_run_end(p@, i as int);
        }
        e - i >= 3 && p[e - 1] == '?'
    } else {
        false
    }
}

/// The exec side of [`adjacent_optionals`].
fn adjacent_exec(prefix: Vec<char>, q: Vec<char>) -> (r: (Vec<Vec<char>>, Vec<char>))
    ensures
        char_vecs_view(r.0@) == adjacent_optionals(prefix@, q@).0,
        r.1@ == adjacent_optionals(prefix@, q@).1,
    decreases q@.len(),
{
    let n = q.len();
    if n > 1 && q[0] == '/' && is_optional_param(&q, 1) {
        let e = run_end_exec(&q, 1);
        proof {
            lemma_run_end(q@, 1);
        }
        let mut next = prefix;
        push_range(&mut next, &q, 0, e - 1);
        let rest = sub_chars(&q, e, n);
        assert(rest@ =~= q@.skip(e as int));
        let (more, left) = adjacent_exec(next.clone(), rest);
        let mut all: Vec<Vec<char>> = Vec::new();
        all.push(next);
        let mut more = more;
        all.append(&mut more);
        assert(char_vecs_view(all@) =~= adjacent_optionals(prefix@, q@).0);
        (all, left)
    } else {
        proof {
            if q@.len() > 0 && q@[0] == '/' && optional_param_at(q@, 1) {
                assert(n > 1);
            }
        }
        let r: Vec<Vec<char>> = Vec::new();
        assert(char_vecs_view(r@) =~= Seq::<Seq<char>>::empty());
        (r, q)
    }
}

fn find_optional(p: &Vec<char>) -> (r: Option<usize>)
    ensures
        r matches Some(i) ==> first_optional_from(p@, 0) == Some(i as int),
        r is None ==> first_optional_from(p@, 0) is None,
{
    let n = p.len();
    let mut i: usize = 0;
    while i < n
        invariant
            i <= n,
            n == p@.len(),
            first_optional_from(p@, 0) == first_optional_from(p@, i as int),
        decreases n - i,
    {
        if is_optional_param(p, i) {
            return Some(i);
        }
        i = i + 1;
    }
    None
}

/// `prefix` followed by `tail`.
fn concat_chars(prefix: &Vec<char>, tail: &Vec<char>) -> (r: Vec<char>)
    ensures
        r@ == prefix@ + tail@,
{
    let mut r = sub_chars(prefix, 0, prefix.len());
    assert(prefix@.subrange(0, prefix@.len() as int) =~= prefix@);
    push_range(&mut r, tail, 0, tail.len());
    assert(tail@.subrange(0, tail@.len() as int) =~= tail@);
    r
}

fn combine_exec(prefixes: &Vec<Vec<char>>, expansions: &Vec<Vec<char>>) -> (r: Vec<Vec<char>>)
    ensures
        char_vecs_view(r@) == combine_expansions(
            char_vecs_view(prefixes@),
            char_vecs_view(expansions@),
        ),
{
    let ghost ps = char_vecs_view(prefixes@);
    let mut r: Vec<Vec<char>> = Vec::new();
    let m = expansions.len();
    let k = prefixes.len();
    for i in 0..m
        invariant
            m == expansions@.len(),
            k == prefixes@.len(),
            ps == char_vecs_view(prefixes@),
            char_vecs_view(r@) == combine_expansions(
                ps,
                char_vecs_view(expansions@).take(i as int),
            ),
    {
        let ghost before = char_vecs_view(r@);
        let ghost e = expansions@[i as int]@;
        for j in 0..k
            invariant
                m == expansions@.len(),
                k == prefixes@.len(),
                i < m,
                e == expansions@[i as int]@,
                ps == char_vecs_view(prefixes@),
                char_vecs_view(r@) == before + append_each(ps.take(j as int), e),
        {
            let c = concat_chars(&prefixes[j], &expansions[i]);
            let ghost prev = r@;
            r.push(c);
            assert(r@ == prev.push(c));
            assert(c@ == ps[j as int] + e);
            proof {
                lemma_char_vecs_push(prev, c);
                assert(ps.take(j + 1) =~= ps.take(j as int).push(ps[j as int]));
                lemma_append_each_push(ps.take(j as int), ps[j as int], e);
                assert(char_vecs_view(r@) =~= before + append_each(ps.take(j + 1), e));
            }
        }
        assert(ps.take(k as int) =~= ps);
        let ghost taken = char_vecs_view(expansions@).take(i + 1);
        assert(taken.drop_last() =~= char_vecs_view(expansions@).take(i as int));
        assert(taken.last() == e);
    }
    assert(char_vecs_view(expansions@).take(m as int) =~= char_vecs_view(expansions@));
    r
}

fn expand_chars(p: &Vec<char>) -> (r: Vec<Vec<char>>)
    ensures
        char_vecs_view(r@) == expanded_optionals(p@),
    decreases p@.len(),
{
    match find_optional(p) {
        None => {
            let mut r: Vec<Vec<char>> = Vec::new();
            let whole = sub_chars(p, 0, p.len());
            assert(whole@ =~= p@);
            r.push(whole);
            assert(char_vecs_view(r@) =~= seq![p@]);
            r
        },
        Some(i) => {
            proof {
                lemma_first_optional(p@, 0);
                lemma_run_end(p@, i as int);
            }
            let n = p.len();
            let e = run_end_exec(p, i);
            let start = if i > 0 {
                i - 1
            } else {
                0
            };
            let prefix = sub_chars(p, 0, start);
            let mut with_first = sub_chars(p, 0, start);
            push_range(&mut with_first, p, start, e - 1);
            let rest = sub_chars(p, e, n);
            assert(prefix@ =~= p@.take(start as int));
            assert(rest@ =~= p@.skip(e as int));
            let (mut more, suffix) = adjacent_exec(with_first.clone(), rest);
            proof {
                lemma_adjacent_optionals_rest(with_first@, p@.skip(e as int));
            }
            let mut prefixes: Vec<Vec<char>> = Vec::new();
            prefixes.push(prefix);
            prefixes.push(with_first);
            prefixes.append(&mut more);
            let expansions = expand_chars(&suffix);
            let r = combine_exec(&prefixes, &expansions);
            assert(char_vecs_view(prefixes@) =~= seq![p@.take(start as int), with_first@]
                + adjacent_optionals(with_first@, p@.skip(e as int)).0);
            r
        },
    }
}

/// The patterns that `pattern` stands for once its optional parameters are
/// spelled out (see [`expanded_optionals`]); `pattern` alone if it has none.
pub fn expand_optionals(pattern: &str) -> (r: Vec<String>)
    ensures
        strings_view(r@) == expanded_optionals(pattern@),
{
    let p = chars_of(pattern);
    let v = expand_chars(&p);
    let mut r: Vec<String> = Vec::new();
    let n = v.len();
    for i in 0..n
        invariant
            n == v@.len(),
            strings_view(r@) == char_vecs_view(v@).take(i as int),
    {
        let s = string_of(&v[i]);
        let ghost prev = r@;
        r.push(s);
        assert(r@ == prev.push(s));
        assert(s@ == char_vecs_view(v@)[i as int]);
        proof {
            lemma_strings_push(prev, s);
        }
        assert(strings_view(r@) =~= char_vecs_view(v@).take(i + 1));
    }
    assert(char_vecs_view(v@).take(n as int) =~= char_vecs_view(v@));
    r
}

proof fn lemma_trim_start(p: Seq<char>)
    ensures
        trim_start_slashes(p).len() == 0 || trim_start_slashes(p)[0] != '/',
        trim_start_slashes(p).len() <= p.len(),
        trim_start_slashes(p) == p.skip(p.len() - trim_start_slashes(p).len()),
    decreases p.len(),
{
    if p.len() > 0 && p[0] == '/' {
        lemma_trim_start(p.drop_first());
        let t = trim_start_slashes(p.drop_first());
        assert(p.drop_first().skip(p.drop_first().len() - t.len()) =~= p.skip(p.len() - t.len()));
    } else {
        assert(p.skip(0) =~= p);
    }
}

proof fn lemma_trim_end(p: Seq<char>)
    ensures
        trim_end_slashes(p).len() == 0 || trim_end_slashes(p).last() != '/',
        trim_end_slashes(p).len() <= p.len(),
        trim_end_slashes(p) == p.take(trim_end_slashes(p).len() as int),
    decreases p.len(),
{
    if p.len() > 0 && p.last() == '/' {
        lemma_trim_end(p.drop_last());
        let t = trim_end_slashes(p.drop_last());
        assert(p.drop_last().take(t.len() as int) =~= p.take(t.len() as int));
    } else {
        assert(p.take(p.len() as int) =~= p);
    }
}

/// Normalizing a path twice gives what normalizing it once gives: a joined
/// pattern is already in the form paths are joined in.
pub proof fn lemma_normalize_path_idempotent(p: Seq<char>)
    ensures
        normalize_path(normalize_path(p)) == normalize_path(p),
{
    let t = trim_start_slashes(p);
    let s = trim_end_slashes(t);
    lemma_trim_start(p);
    lemma_trim_end(t);
    if s.len() > 0 {
        assert(t.take(s.len() as int)[0] == t[0]);
        assert(s[0] == t[0]);
        assert(trim_start_slashes(s) == s);
        assert(trim_end_slashes(s) == s);
        if s[0] != '?' && s[0] != '#' {
            let q = seq!['/'] + s;
            assert(q.drop_first() =~= s);
            assert(trim_start_slashes(q) == trim_start_slashes(s));
        }
    } else {
        assert(trim_start_slashes(s) == s);
        assert(trim_end_slashes(s) == s);
    }
}

} // verus!
