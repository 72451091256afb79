//! Character-level helpers shared by the renderer: conversions between
//! `&str`/`String` and `Vec<char>`, lexicographic ordering of strings, and
//! joining rendered fragments.

use vstd::prelude::*;
use vstd::string::StrSliceExecFns;

verus! {

/// The pattern occurs in `s` at position `i`.
pub open spec fn contains_at(s: Seq<char>, i: int, pat: Seq<char>) -> bool {
    0 <= i && i + pat.len() <= s.len() && s.subrange(i, i + pat.len()) == pat
}

/// The pattern occurs somewhere in `s`.
pub open spec fn contains_seq(s: Seq<char>, pat: Seq<char>) -> bool {
    exists|i: int| contains_at(s, i, pat)
}

/// A pattern that occurs in a suffix occurs in the whole.
pub proof fn lemma_not_contains_skip(s: Seq<char>, n: int, pat: Seq<char>)
    requires
        0 <= n <= s.len(),
        !contains_seq(s, pat),
    ensures
        !contains_seq(s.skip(n), pat),
{
    if contains_seq(s.skip(n), pat) {
        let i = choose|i: int| contains_at(s.skip(n), i, pat);
        assert(s.subrange(n + i, n + i + pat.len()) =~= s.skip(n).subrange(i, i + pat.len()));
        assert(contains_at(s, n + i, pat));
    }
}

/// A concatenation begins with its first part and drops to its second.
pub proof fn lemma_begins_concat(a: Seq<char>, b: Seq<char>)
    ensures
        contains_at(a + b, 0, a),
        (a + b).skip(a.len() as int) == b,
{
    assert((a + b).subrange(0, a.len() as int) =~= a);
    assert((a + b).skip(a.len() as int) =~= b);
}

/// Beginning with a pattern pins the leading characters.
pub proof fn lemma_begins_index(s: Seq<char>, p: Seq<char>)
    requires
        contains_at(s, 0, p),
    ensures
        forall|j: int| 0 <= j < p.len() ==> s[j] == p[j],
{
    assert forall|j: int| 0 <= j < p.len() implies s[j] == p[j] by {
        assert(s.subrange(0, p.len() as int)[j] == s[j]);
    }
}

/// An occurrence shifts across a prepended prefix.
pub proof fn lemma_contains_at_shift(c: Seq<char>, t: Seq<char>, j: int, p: Seq<char>)
    requires
        contains_at(t, j, p),
    ensures
        contains_at(c + t, c.len() + j, p),
{
    assert((c + t).subrange(c.len() + j, c.len() + j + p.len()) =~= t.subrange(j, j + p.len()));
}

/// An occurrence in a suffix is an occurrence in the whole, and back.
pub proof fn lemma_contains_at_skip(s: Seq<char>, n: int, i: int, pat: Seq<char>)
    requires
        0 <= n <= s.len(),
        0 <= i,
    ensures
        contains_at(s.skip(n), i, pat) <==> contains_at(s, n + i, pat),
{
    if i + pat.len() <= s.len() - n {
        assert(s.skip(n).subrange(i, i + pat.len()) =~= s.subrange(n + i, n + i + pat.len()));
    }
}

/// The position of the first occurrence of `c` in `s`, or the length.
pub open spec fn first_index_of(s: Seq<char>, c: char) -> int
    decreases s.len(),
{
    if s.len() == 0 {
        0
    } else if s[0] == c {
        0
    } else {
        1 + first_index_of(s.skip(1), c)
    }
}

pub proof fn lemma_first_index_of_props(s: Seq<char>, c: char)
    ensures
        0 <= first_index_of(s, c) <= s.len(),
        forall|j: int| 0 <= j < first_index_of(s, c) ==> s[j] != c,
        first_index_of(s, c) < s.len() ==> s[first_index_of(s, c)] == c,
    decreases s.len(),
{
    if s.len() > 0 && s[0] != c {
        lemma_first_index_of_props(s.skip(1), c);
        assert forall|j: int| 0 <= j < first_index_of(s, c) implies s[j] != c by {
            if j > 0 {
                assert(s.skip(1)[j - 1] == s[j]);
            }
        }
        if first_index_of(s, c) < s.len() {
            assert(s.skip(1)[first_index_of(s, c) - 1] == s[first_index_of(s, c)]);
        }
    }
}

/// Whether the characters of `p` occur in `v` at position `at`.
pub(crate) fn has_prefix_at(v: &Vec<char>, at: usize, p: &Vec<char>) -> (b: bool)
    requires
        at <= v@.len(),
    ensures
        b == contains_at(v@, at as int, p@),
{
    if p.len() > v.len() - at {
        return false;
    }
    let mut k: usize = 0;
    while k < p.len()
        invariant
            at <= v@.len(),
            at + p@.len() <= v@.len(),
            at + p@.len() <= usize::MAX,
            k <= p@.len(),
            forall|j: int| 0 <= j < k ==> v@[at + j] == p@[j],
        decreases p@.len() - k,
    {
        proof {
            assert(at + k < v@.len());
        }
        let idx = at + k;
        if v[idx] != p[k] {
            proof {
                if contains_at(v@, at as int, p@) {
                    assert(v@.subrange(at as int, at + p@.len())[k as int] == v@[at + k]);
                }
            }
            return false;
        }
        k += 1;
    }
    proof {
        assert(v@.subrange(at as int, at + p@.len()) =~= p@);
    }
    true
}

/// Lexicographic order on character sequences, by code point.
pub open spec fn lex_le(a: Seq<char>, b: Seq<char>) -> bool
    decreases a.len(),
{
    if a.len() == 0 {
        true
    } else if b.len() == 0 {
        false
    } else if (a[0] as u32) < (b[0] as u32) {
        true
    } else if (a[0] as u32) > (b[0] as u32) {
        false
    } else {
        lex_le(a.skip(1), b.skip(1))
    }
}

/// The views of a sequence of strings.
pub open spec fn views_of(s: Seq<String>) -> Seq<Seq<char>> {
    s.map_values(|x: String| x@)
}

/// Insertion into a sequence, before the first element it precedes.
pub open spec fn insert_lex(x: Seq<char>, s: Seq<Seq<char>>) -> Seq<Seq<char>>
    decreases s.len(),
{
    if s.len() == 0 {
        seq![x]
    } else if lex_le(x, s[0]) {
        seq![x] + s
    } else {
        seq![s[0]] + insert_lex(x, s.skip(1))
    }
}

/// Insertion sort: stable, ascending under [`lex_le`].
pub open spec fn sort_lex(s: Seq<Seq<char>>) -> Seq<Seq<char>>
    decreases s.len(),
{
    if s.len() == 0 {
        Seq::empty()
    } else {
        insert_lex(s[0], sort_lex(s.skip(1)))
    }
}

/// Every pair in order: ascending under [`lex_le`].
pub open spec fn sorted_lex(s: Seq<Seq<char>>) -> bool {
    forall|i: int, j: int| 0 <= i < j < s.len() ==> lex_le(s[i], s[j])
}

/// The order is total: one of the two directions always holds.
pub proof fn lemma_lex_le_total(a: Seq<char>, b: Seq<char>)
    ensures
        lex_le(a, b) || lex_le(b, a),
    decreases a.len(),
{
    if a.len() > 0 && b.len() > 0 && (a[0] as u32) == (b[0] as u32) {
        lemma_lex_le_total(a.skip(1), b.skip(1));
    }
}

/// The order is transitive.
pub proof fn lemma_lex_le_trans(a: Seq<char>, b: Seq<char>, c: Seq<char>)
    requires
        lex_le(a, b),
        lex_le(b, c),
    ensures
        lex_le(a, c),
    decreases a.len(),
{
    if a.len() > 0 {
        assert(b.len() > 0);
        assert(c.len() > 0);
        if (a[0] as u32) == (b[0] as u32) && (b[0] as u32) == (c[0] as u32) {
            lemma_lex_le_trans(a.skip(1), b.skip(1), c.skip(1));
        }
    }
}

/// Insertion keeps a sorted sequence sorted and adds exactly the element.
proof fn lemma_insert_lex_props(x: Seq<char>, s: Seq<Seq<char>>)
    requires
        sorted_lex(s),
    ensures
        sorted_lex(insert_lex(x, s)),
        insert_lex(x, s).to_multiset() == s.to_multiset().insert(x),
    decreases s.len(),
{
    broadcast use vstd::multiset::group_multiset_axioms;

    let r = insert_lex(x, s);
    s.to_multiset_ensures();
    r.to_multiset_ensures();
    if s.len() == 0 {
        assert(r =~= Seq::<Seq<char>>::empty().push(x));
        Seq::<Seq<char>>::empty().to_multiset_ensures();
        assert(r.to_multiset() =~= s.to_multiset().insert(x));
    } else if lex_le(x, s[0]) {
        assert(r == seq![x] + s);
        assert forall|i: int, j: int| 0 <= i < j < r.len() implies lex_le(r[i], r[j]) by {
            assert(r[j] == (seq![x] + s)[j]);
            if i == 0 {
                assert(r[0] == x);
                if j > 1 {
                    assert(lex_le(s[0], s[j - 1]));
                    lemma_lex_le_trans(x, s[0], s[j - 1]);
                }
            } else {
                assert(r[i] == s[i - 1]);
            }
        }
        vstd::seq_lib::lemma_multiset_commutative(seq![x], s);
        seq![x].to_multiset_ensures();
        Seq::<Seq<char>>::empty().to_multiset_ensures();
        assert(seq![x] =~= Seq::<Seq<char>>::empty().push(x));
        assert forall|e: Seq<char>|
            r.to_multiset().count(e) == s.to_multiset().insert(x).count(e) by {
            assert(r.to_multiset().count(e) == seq![x].to_multiset().count(e)
                + s.to_multiset().count(e));
            assert(!Seq::<Seq<char>>::empty().contains(e));
            assert(Seq::<Seq<char>>::empty().to_multiset().count(e) == 0);
            assert(seq![x].to_multiset() =~= Seq::<Seq<char>>::empty().to_multiset().insert(x));
        }
        assert(r.to_multiset() =~= s.to_multiset().insert(x));
    } else {
        let t = s.skip(1);
        assert forall|i: int, j: int| 0 <= i < j < t.len() implies lex_le(t[i], t[j]) by {
            assert(t[i] == s[i + 1]);
            assert(t[j] == s[j + 1]);
        }
        lemma_insert_lex_props(x, t);
        let rr = insert_lex(x, t);
        rr.to_multiset_ensures();
        t.to_multiset_ensures();
        assert(r == seq![s[0]] + rr);
        lemma_lex_le_total(x, s[0]);
        assert(lex_le(s[0], x));
        assert forall|i: int, j: int| 0 <= i < j < r.len() implies lex_le(r[i], r[j]) by {
            assert(r[j] == (seq![s[0]] + rr)[j]);
            if i == 0 {
                assert(r[0] == s[0]);
                let e = rr[j - 1];
                assert(rr.contains(e));
                assert(rr.to_multiset().count(e) > 0);
                assert(t.to_multiset().insert(x).count(e) > 0);
                if e == x {
                    assert(lex_le(s[0], x));
                } else {
                    assert(t.to_multiset().count(e) > 0);
                    assert(t.contains(e));
                    let w = choose|w: int| 0 <= w < t.len() && t[w] == e;
                    assert(t[w] == s[w + 1]);
                    assert(lex_le(s[0], s[w + 1]));
                }
            } else {
                assert(r[i] == rr[i - 1]);
            }
        }
        vstd::seq_lib::lemma_multiset_commutative(seq![s[0]], rr);
        vstd::seq_lib::lemma_multiset_commutative(seq![s[0]], t);
        assert(s =~= seq![s[0]] + t);
        assert forall|e: Seq<char>|
            r.to_multiset().count(e) == s.to_multiset().insert(x).count(e) by {
            assert(r.to_multiset().count(e) == seq![s[0]].to_multiset().count(e)
                + rr.to_multiset().count(e));
            assert(s.to_multiset().count(e) == seq![s[0]].to_multiset().count(e)
                + t.to_multiset().count(e));
            assert(rr.to_multiset().count(e) == t.to_multiset().insert(x).count(e));
        }
        assert(r.to_multiset() =~= s.to_multiset().insert(x));
    }
}

/// The insertion sort sorts: its result is ascending under [`lex_le`] and
/// holds exactly the input's elements.
pub proof fn lemma_sort_lex_props(s: Seq<Seq<char>>)
    ensures
        sorted_lex(sort_lex(s)),
        sort_lex(s).to_multiset() == s.to_multiset(),
    decreases s.len(),
{
    broadcast use vstd::multiset::group_multiset_axioms;

    s.to_multiset_ensures();
    if s.len() == 0 {
        assert(sort_lex(s) =~= s);
    } else {
        let t = s.skip(1);
        t.to_multiset_ensures();
        lemma_sort_lex_props(t);
        lemma_insert_lex_props(s[0], sort_lex(t));
        vstd::seq_lib::lemma_multiset_commutative(seq![s[0]], t);
        seq![s[0]].to_multiset_ensures();
        Seq::<Seq<char>>::empty().to_multiset_ensures();
        assert(seq![s[0]] =~= Seq::<Seq<char>>::empty().push(s[0]));
        assert(s =~= seq![s[0]] + t);
        assert forall|e: Seq<char>|
            sort_lex(s).to_multiset().count(e) == s.to_multiset().count(e) by {
            assert(sort_lex(s).to_multiset().count(e) == sort_lex(t).to_multiset().insert(
                s[0],
            ).count(e));
            assert(s.to_multiset().count(e) == seq![s[0]].to_multiset().count(e)
                + t.to_multiset().count(e));
            assert(!Seq::<Seq<char>>::empty().contains(e));
            assert(Seq::<Seq<char>>::empty().to_multiset().count(e) == 0);
            assert(seq![s[0]].to_multiset() =~= Seq::<Seq<char>>::empty().to_multiset().insert(
                s[0],
            ));
        }
        assert(sort_lex(s).to_multiset() =~= s.to_multiset());
    }
}

/// The sequences joined with a separator between neighbours.
pub open spec fn join_sep(ss: Seq<Seq<char>>, sep: Seq<char>) -> Seq<char>
    decreases ss.len(),
{
    if ss.len() == 0 {
        Seq::empty()
    } else if ss.len() == 1 {
        ss[0]
    } else {
        ss[0] + sep + join_sep(ss.skip(1), sep)
    }
}

/// Appending one more part extends the join by a separator and the part.
pub proof fn lemma_join_sep_push(ss: Seq<Seq<char>>, x: Seq<char>, sep: Seq<char>)
    ensures
        join_sep(ss + seq![x], sep) == if ss.len() == 0 {
            x
        } else {
            join_sep(ss, sep) + sep + x
        },
    decreases ss.len(),
{
    let t = ss + seq![x];
    if ss.len() == 0 {
        assert(t.len() == 1);
        assert(t[0] == x);
    } else {
        lemma_join_sep_push(ss.skip(1), x, sep);
        assert(t.skip(1) =~= ss.skip(1) + seq![x]);
        assert(t[0] == ss[0]);
        if ss.len() == 1 {
            assert(ss.skip(1).len() == 0);
            assert(join_sep(t, sep) == t[0] + sep + join_sep(t.skip(1), sep));
        } else {
            assert(join_sep(ss, sep) == ss[0] + sep + join_sep(ss.skip(1), sep));
            assert(join_sep(t, sep) == t[0] + sep + join_sep(t.skip(1), sep));
            assert(ss[0] + sep + (join_sep(ss.skip(1), sep) + sep + x) =~= (ss[0] + sep + join_sep(
                ss.skip(1),
                sep,
            )) + sep + x);
        }
    }
}

/// Compares two strings lexicographically by code point.
pub(crate) fn lex_le_exec(a: &String, b: &String) -> (r: bool)
    ensures
        r == lex_le(a@, b@),
{
    let av = to_chars(a.as_str());
    let bv = to_chars(b.as_str());
    let an = av.len();
    let bn = bv.len();
    proof {
        assert(a@.skip(0) =~= a@);
        assert(b@.skip(0) =~= b@);
    }
    let mut i: usize = 0;
    while i < an && i < bn
        invariant
            an == av@.len(),
            bn == bv@.len(),
            av@ == a@,
            bv@ == b@,
            i <= an,
            i <= bn,
            lex_le(a@, b@) == lex_le(a@.skip(i as int), b@.skip(i as int)),
        decreases an - i,
    {
        let ca = av[i];
        let cb = bv[i];
        proof {
            assert(a@.skip(i as int)[0] == a@[i as int]);
            assert(b@.skip(i as int)[0] == b@[i as int]);
        }
        if (ca as u32) < (cb as u32) {
            return true;
        }
        if (ca as u32) > (cb as u32) {
            return false;
        }
        proof {
            assert(a@.skip(i as int).skip(1) =~= a@.skip(i + 1));
            assert(b@.skip(i as int).skip(1) =~= b@.skip(i + 1));
        }
        i += 1;
    }
    proof {
        if i >= an {
            assert(a@.skip(i as int).len() == 0);
        } else {
            assert(b@.skip(i as int).len() == 0);
            assert(a@.skip(i as int).len() > 0);
        }
    }
    i >= an
}

/// Sorts strings ascending by code point, stably.
pub(crate) fn sort_strings(v: Vec<String>) -> (r: Vec<String>)
    ensures
        views_of(r@) == sort_lex(views_of(v@)),
{
    let n = v.len();
    let mut out: Vec<String> = Vec::new();
    let mut rest = v;
    proof {
        assert(views_of(rest@) =~= views_of(rest@));
    }
    // peel elements from the back so that each step prepends one element,
    // matching the recursive shape of `sort_lex`
    let mut i: usize = n;
    proof {
        assert(rest@.skip(n as int) =~= Seq::<String>::empty());
        assert(views_of(Seq::<String>::empty()) =~= Seq::<Seq<char>>::empty());
        assert(views_of(rest@.skip(n as int)) =~= Seq::<Seq<char>>::empty());
        assert(sort_lex(views_of(rest@.skip(n as int))) =~= Seq::<Seq<char>>::empty());
        assert(views_of(out@) =~= Seq::<Seq<char>>::empty());
    }
    while i > 0
        invariant
            i <= n,
            n == rest@.len(),
            views_of(out@) == sort_lex(views_of(rest@.skip(i as int))),
        decreases i,
    {
        i -= 1;
        let x = rest[i].clone();
        insert_string(&mut out, x);
        proof {
            let s_i = rest@.skip(i as int);
            assert(s_i[0] == rest@[i as int]);
            assert(s_i.skip(1) =~= rest@.skip(i + 1));
            assert(views_of(s_i)[0] == rest@[i as int]@);
            assert(views_of(s_i).skip(1) =~= views_of(s_i.skip(1)));
            assert(sort_lex(views_of(s_i)) == insert_lex(
                views_of(s_i)[0],
                sort_lex(views_of(s_i).skip(1)),
            ));
        }
    }
    proof {
        assert(rest@.skip(0) =~= rest@);
    }
    out
}

/// Inserts a string before the first element it precedes.
fn insert_string(out: &mut Vec<String>, x: String)
    ensures
        views_of(final(out)@) == insert_lex(x@, views_of(old(out)@)),
{
    let n = out.len();
    let mut p: usize = 0;
    while p < n && !precedes_at(out, p, &x)
        invariant
            p <= n,
            n == out@.len(),
            out@ == old(out)@,
            forall|j: int| 0 <= j < p ==> !lex_le(x@, views_of(out@)[j]),
        decreases n - p,
    {
        proof {
            assert(views_of(out@)[p as int] == out@[p as int]@);
        }
        p += 1;
    }
    proof {
        lemma_insert_lex_at(x@, views_of(out@), p as int);
    }
    out.insert(p, x);
    proof {
        assert(views_of(out@) =~= views_of(old(out)@).insert(p as int, x@));
    }
}

/// Whether `x` precedes the element at `p`.
fn precedes_at(out: &Vec<String>, p: usize, x: &String) -> (b: bool)
    requires
        p < out@.len(),
    ensures
        b == lex_le(x@, views_of(out@)[p as int]),
{
    proof {
        assert(views_of(out@)[p as int] == out@[p as int]@);
    }
    lex_le_exec(x, &out[p])
}

/// Scanning to the first element that `x` precedes realises `insert_lex`.
proof fn lemma_insert_lex_at(x: Seq<char>, s: Seq<Seq<char>>, p: int)
    requires
        0 <= p <= s.len(),
        forall|j: int| 0 <= j < p ==> !lex_le(x, s[j]),
        p < s.len() ==> lex_le(x, s[p]),
    ensures
        insert_lex(x, s) == s.insert(p, x),
    decreases s.len(),
{
    if s.len() == 0 {
        assert(s.insert(0, x) =~= seq![x]);
    } else if lex_le(x, s[0]) {
        assert(p == 0);
        assert(s.insert(0, x) =~= seq![x] + s);
    } else {
        assert(p > 0);
        assert forall|j: int| 0 <= j < p - 1 implies !lex_le(x, s.skip(1)[j]) by {
            assert(s.skip(1)[j] == s[j + 1]);
        }
        if p - 1 < s.skip(1).len() {
            assert(s.skip(1)[p - 1] == s[p]);
        }
        lemma_insert_lex_at(x, s.skip(1), p - 1);
        assert(seq![s[0]] + s.skip(1).insert(p - 1, x) =~= s.insert(p, x));
    }
}

/// Joins strings with a separator.
pub(crate) fn join_strings(v: &Vec<String>, sep: &str) -> (r: String)
    ensures
        r@ == join_sep(views_of(v@), sep@),
{
    let mut r = String::new();
    let n = v.len();
    let mut i: usize = 0;
    while i < n
        invariant
            i <= n,
            n == v@.len(),
            r@ == join_sep(views_of(v@.take(i as int)), sep@),
        decreases n - i,
    {
        if i > 0 {
            r.append(sep);
        }
        r.append(v[i].as_str());
        proof {
            let pre = views_of(v@.take(i as int));
            assert(views_of(v@.take(i + 1)) =~= pre + seq![v@[i as int]@]);
            lemma_join_sep_push(pre, v@[i as int]@, sep@);
            assert(pre.len() == i);
        }
        i += 1;
    }
    proof {
        assert(v@.take(n as int) =~= v@);
    }
    r
}

/// Appends every character of `pat` to `out`.
pub(crate) fn push_all(out: &mut Vec<char>, pat: &Vec<char>)
    ensures
        final(out)@ == old(out)@ + pat@,
{
    let mut i: usize = 0;
    while i < pat.len()
        invariant
            i <= pat@.len(),
            out@ == old(out)@ + pat@.take(i as int),
        decreases pat@.len() - i,
    {
        out.push(pat[i]);
        proof {
            assert(old(out)@ + pat@.take(i as int) + seq![pat@[i as int]] =~= old(out)@
                + pat@.take(i + 1));
        }
        i += 1;
    }
    proof {
        assert(old(out)@ + pat@.take(pat@.len() as int) =~= old(out)@ + pat@);
    }
}

/// Relies on `String::push`: appends exactly one character at the end.
#[verifier::external_body]
pub(crate) fn push_char(s: &mut String, c: char)
    ensures
        final(s)@ == old(s)@ + seq![c],
{
    s.push(c)
}

/// The characters of a string slice, as a vector.
pub(crate) fn to_chars(s: &str) -> (v: Vec<char>)
    ensures
        v@ == s@,
{
    let n = s.unicode_len();
    let mut v: Vec<char> = Vec::new();
    let mut i: usize = 0;
    while i < n
        invariant
            n == s@.len(),
            i <= n,
            v@ == s@.take(i as int),
        decreases n - i,
    {
        v.push(s.get_char(i));
        proof {
            assert(v@ =~= s@.take(i + 1));
        }
        i += 1;
    }
    proof {
        assert(v@ =~= s@);
    }
    v
}

/// The string holding exactly the given characters.
pub(crate) fn chars_to_string(v: &Vec<char>) -> (s: String)
    ensures
        s@ == v@,
{
    let mut s = String::new();
    let mut i: usize = 0;
    while i < v.len()
        invariant
            i <= v@.len(),
            s@ == v@.take(i as int),
        decreases v@.len() - i,
    {
        push_char(&mut s, v[i]);
        proof {
            assert(s@ =~= v@.take(i + 1));
        }
        i += 1;
    }
    proof {
        assert(s@ =~= v@);
    }
    s
}

} // verus!
