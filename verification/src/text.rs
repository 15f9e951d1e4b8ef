//! String comparison and the stable by-name ordering used for chart series
//! and spatial entities.

use vstd::prelude::*;

verus! {

/// Character-wise equality of two string slices.
pub fn str_eq(a: &str, b: &str) -> (r: bool)
    ensures
        r == (a@ == b@),
{
    let na = a.unicode_len();
    let nb = b.unicode_len();
    if na != nb {
        return false;
    }
    let mut i: usize = 0;
    while i < na
        invariant
            na == a@.len(),
            na == b@.len(),
            i <= na,
            forall|k: int| 0 <= k < i ==> a@[k] == b@[k],
        decreases na - i,
    {
        let ca = a.get_char(i);
        let cb = b.get_char(i);
        if ca != cb {
            assert(a@[i as int] != b@[i as int]);
            return false;
        }
        i = i + 1;
    }
    proof {
        assert(a@ =~= b@);
    }
    true
}

/// Strict lexicographic order on character sequences, by code point.
/// It agrees with the byte order of the UTF-8 encodings.
pub open spec fn lex_lt(a: Seq<char>, b: Seq<char>) -> bool
    decreases a.len(),
{
    if b.len() == 0 {
        false
    } else if a.len() == 0 {
        true
    } else if (a[0] as u32) < (b[0] as u32) {
        true
    } else if a[0] == b[0] {
        lex_lt(a.drop_first(), b.drop_first())
    } else {
        false
    }
}

/// Dropping an equal prefix does not change how two sequences compare.
proof fn lemma_lex_lt_skip(a: Seq<char>, b: Seq<char>, i: int)
    requires
        0 <= i <= a.len(),
        i <= b.len(),
        forall|k: int| 0 <= k < i ==> a[k] == b[k],
    ensures
        lex_lt(a, b) == lex_lt(a.skip(i), b.skip(i)),
    decreases i,
{
    if i == 0 {
        assert(a.skip(0) =~= a);
        assert(b.skip(0) =~= b);
    } else {
        assert(a[0] == b[0]);
        assert(lex_lt(a, b) == lex_lt(a.drop_first(), b.drop_first()));
        assert(a.drop_first() =~= a.skip(1));
        assert(b.drop_first() =~= b.skip(1));
        lemma_lex_lt_skip(a.skip(1), b.skip(1), i - 1);
        assert(a.skip(1).skip(i - 1) =~= a.skip(i));
        assert(b.skip(1).skip(i - 1) =~= b.skip(i));
    }
}

/// Decides `lex_lt` on two string slices.
pub fn str_lt(a: &str, b: &str) -> (r: bool)
    ensures
        r == lex_lt(a@, b@),
{
    let na = a.unicode_len();
    let nb = b.unicode_len();
    let m = if na < nb {
        na
    } else {
        nb
    };
    let mut i: usize = 0;
    while i < m
        invariant
            na == a@.len(),
            nb == b@.len(),
            m == if na < nb {
                na
            } else {
                nb
            },
            i <= m,
            forall|k: int| 0 <= k < i ==> a@[k] == b@[k],
        decreases m - i,
    {
        let ca = a.get_char(i);
        let cb = b.get_char(i);
        if ca != cb {
            proof {
                lemma_lex_lt_skip(a@, b@, i as int);
            }
            return (ca as u32) < (cb as u32);
        }
        i = i + 1;
    }
    proof {
        lemma_lex_lt_skip(a@, b@, m as int);
        if na < nb {
            assert(a@.skip(m as int).len() == 0);
            assert(b@.skip(m as int).len() > 0);
        } else {
            assert(b@.skip(m as int).len() == 0);
        }
    }
    na < nb
}

/// Two sequences never come strictly before each other.
pub proof fn lemma_lex_lt_asymmetric(a: Seq<char>, b: Seq<char>)
    ensures
        !(lex_lt(a, b) && lex_lt(b, a)),
    decreases a.len(),
{
    if a.len() > 0 && b.len() > 0 && a[0] == b[0] {
        lemma_lex_lt_asymmetric(a.drop_first(), b.drop_first());
    }
}

/// The order chains: what comes before something earlier than a third
/// comes before the third.
pub proof fn lemma_lex_lt_transitive(a: Seq<char>, b: Seq<char>, c: Seq<char>)
    requires
        lex_lt(a, b),
        lex_lt(b, c),
    ensures
        lex_lt(a, c),
    decreases a.len(),
{
    if a.len() > 0 {
        if !((a[0] as u32) < (b[0] as u32)) {
            assert(a[0] == b[0]);
        }
        if !((b[0] as u32) < (c[0] as u32)) {
            assert(b[0] == c[0]);
        }
        if a[0] == b[0] && b[0] == c[0] {
            lemma_lex_lt_transitive(a.drop_first(), b.drop_first(), c.drop_first());
        }
    }
}

/// Sequences that come before each other in neither direction are the
/// same sequence.
pub proof fn lemma_lex_lt_connected(a: Seq<char>, b: Seq<char>)
    requires
        !lex_lt(a, b),
        !lex_lt(b, a),
    ensures
        a == b,
    decreases a.len(),
{
    if b.len() == 0 {
        assert(a.len() == 0);
        assert(a =~= b);
    } else if a.len() == 0 {
        assert(false);
    } else {
        assert((a[0] as u32) == (b[0] as u32));
        vstd::utf8::char_u32_cast(a[0], a[0] as u32);
        vstd::utf8::char_u32_cast(b[0], b[0] as u32);
        assert(a[0] == b[0]);
        lemma_lex_lt_connected(a.drop_first(), b.drop_first());
        assert(a.drop_first().len() == b.drop_first().len());
        assert(a.len() == b.len());
        assert forall|k: int| 0 <= k < a.len() implies a[k] == b[k] by {
            if k > 0 {
                assert(a.drop_first() == b.drop_first());
                assert(a.drop_first()[k - 1] == a[k]);
                assert(b.drop_first()[k - 1] == b[k]);
            }
        }
        assert(a =~= b);
    }
}

/// Where a stable insertion by name puts a new pair: after every element
/// whose name does not come strictly later.
pub open spec fn insert_by_name<T>(s: Seq<(String, T)>, x: (String, T)) -> Seq<(String, T)>
    decreases s.len(),
{
    if s.len() == 0 {
        seq![x]
    } else if lex_lt(x.0@, s.last().0@) {
        insert_by_name(s.drop_last(), x).push(s.last())
    } else {
        s.push(x)
    }
}

/// Stable insertion sort of name-keyed pairs: pairs appear in ascending
/// name order, equal names in their original order.
pub open spec fn sort_by_name_spec<T>(s: Seq<(String, T)>) -> Seq<(String, T)>
    decreases s.len(),
{
    if s.len() == 0 {
        Seq::empty()
    } else {
        insert_by_name(sort_by_name_spec(s.drop_last()), s.last())
    }
}

proof fn lemma_insert_by_name_position<T>(s: Seq<(String, T)>, x: (String, T), j: int)
    requires
        0 <= j <= s.len(),
        forall|k: int| j <= k < s.len() ==> lex_lt(x.0@, #[trigger] s[k].0@),
        j > 0 ==> !lex_lt(x.0@, s[j - 1].0@),
    ensures
        insert_by_name(s, x) =~= s.take(j) + seq![x] + s.skip(j),
    decreases s.len(),
{
    if j == s.len() {
        if s.len() == 0 {
            assert(insert_by_name(s, x) =~= seq![x]);
        } else {
            assert(!lex_lt(x.0@, s[j - 1].0@));
            assert(insert_by_name(s, x) == s.push(x));
        }
    } else {
        assert(lex_lt(x.0@, s[s.len() - 1].0@));
        let dl = s.drop_last();
        assert(forall|k: int| j <= k < dl.len() ==> #[trigger] dl[k] == s[k]);
        if j > 0 {
            assert(dl[j - 1] == s[j - 1]);
        }
        lemma_insert_by_name_position(dl, x, j);
        assert(insert_by_name(s, x) == insert_by_name(dl, x).push(s.last()));
        assert((dl.take(j) + seq![x] + dl.skip(j)).push(s.last()) =~= s.take(j) + seq![x]
            + s.skip(j));
    }
}

pub proof fn lemma_insert_by_name_len<T>(s: Seq<(String, T)>, x: (String, T))
    ensures
        insert_by_name(s, x).len() == s.len() + 1,
    decreases s.len(),
{
    if s.len() > 0 && lex_lt(x.0@, s.last().0@) {
        lemma_insert_by_name_len(s.drop_last(), x);
    }
}

pub proof fn lemma_sort_by_name_len<T>(s: Seq<(String, T)>)
    ensures
        sort_by_name_spec(s).len() == s.len(),
    decreases s.len(),
{
    if s.len() > 0 {
        lemma_sort_by_name_len(s.drop_last());
        lemma_insert_by_name_len(sort_by_name_spec(s.drop_last()), s.last());
    }
}

/// A property of every pair survives the insertion.
pub proof fn lemma_insert_by_name_all<T>(
    s: Seq<(String, T)>,
    x: (String, T),
    p: spec_fn((String, T)) -> bool,
)
    requires
        forall|i: int| 0 <= i < s.len() ==> p(#[trigger] s[i]),
        p(x),
    ensures
        forall|i: int| 0 <= i < insert_by_name(s, x).len() ==> p(#[trigger] insert_by_name(s, x)[i]),
    decreases s.len(),
{
    if s.len() == 0 {
        assert(insert_by_name(s, x) =~= seq![x]);
        assert(p(insert_by_name(s, x)[0]));
    } else if lex_lt(x.0@, s.last().0@) {
        let dl = s.drop_last();
        assert(forall|i: int| 0 <= i < dl.len() ==> p(#[trigger] dl[i]));
        lemma_insert_by_name_all(dl, x, p);
        let inner = insert_by_name(dl, x);
        assert(insert_by_name(s, x) == inner.push(s.last()));
        assert forall|i: int| 0 <= i < insert_by_name(s, x).len() implies p(
            #[trigger] insert_by_name(s, x)[i],
        ) by {
            if i < inner.len() {
                assert(inner.push(s.last())[i] == inner[i]);
            } else {
                assert(inner.push(s.last())[i] == s.last());
            }
        }
    } else {
        assert forall|i: int| 0 <= i < insert_by_name(s, x).len() implies p(
            #[trigger] insert_by_name(s, x)[i],
        ) by {
            if i < s.len() {
                assert(s.push(x)[i] == s[i]);
            } else {
                assert(s.push(x)[i] == x);
            }
        }
    }
}

/// A property of every pair survives the sort.
pub proof fn lemma_sort_by_name_all<T>(s: Seq<(String, T)>, p: spec_fn((String, T)) -> bool)
    requires
        forall|i: int| 0 <= i < s.len() ==> p(#[trigger] s[i]),
    ensures
        forall|i: int|
            0 <= i < sort_by_name_spec(s).len() ==> p(#[trigger] sort_by_name_spec(s)[i]),
    decreases s.len(),
{
    if s.len() > 0 {
        assert(forall|i: int| 0 <= i < s.drop_last().len() ==> p(#[trigger] s.drop_last()[i]));
        lemma_sort_by_name_all(s.drop_last(), p);
        lemma_insert_by_name_all(sort_by_name_spec(s.drop_last()), s.last(), p);
    }
}

/// Ascending by name: no pair's name comes strictly before an earlier
/// pair's.
pub open spec fn sorted_by_name<T>(s: Seq<(String, T)>) -> bool {
    forall|i: int, j: int|
        0 <= i < j < s.len() ==> !lex_lt((#[trigger] s[j]).0@, (#[trigger] s[i]).0@)
}

pub proof fn lemma_insert_by_name_sorted<T>(s: Seq<(String, T)>, x: (String, T))
    requires
        sorted_by_name(s),
    ensures
        sorted_by_name(insert_by_name(s, x)),
    decreases s.len(),
{
    let r = insert_by_name(s, x);
    if s.len() == 0 {
        assert(r =~= seq![x]);
    } else if lex_lt(x.0@, s.last().0@) {
        let dl = s.drop_last();
        let last = s.last();
        assert(forall|i: int, j: int|
            0 <= i < j < dl.len() ==> !lex_lt((#[trigger] dl[j]).0@, (#[trigger] dl[i]).0@));
        lemma_insert_by_name_sorted(dl, x);
        let inner = insert_by_name(dl, x);
        assert(r == inner.push(last));
        // Nothing inside comes after the old last element.
        let fits = |e: (String, T)| !lex_lt(last.0@, e.0@);
        assert forall|i: int| 0 <= i < dl.len() implies fits(#[trigger] dl[i]) by {
            assert(!lex_lt(s[s.len() - 1].0@, s[i].0@));
        }
        lemma_lex_lt_asymmetric(x.0@, last.0@);
        assert(fits(x));
        lemma_insert_by_name_all(dl, x, fits);
        assert forall|i: int, j: int| 0 <= i < j < r.len() implies !lex_lt(
            (#[trigger] r[j]).0@,
            (#[trigger] r[i]).0@,
        ) by {
            if j < inner.len() {
                assert(r[i] == inner[i]);
                assert(r[j] == inner[j]);
            } else {
                assert(r[j] == last);
                assert(r[i] == inner[i]);
                assert(fits(inner[i]));
            }
        }
    } else {
        let last = s.last();
        assert(r == s.push(x));
        assert forall|i: int, j: int| 0 <= i < j < r.len() implies !lex_lt(
            (#[trigger] r[j]).0@,
            (#[trigger] r[i]).0@,
        ) by {
            if j < s.len() {
                assert(r[i] == s[i]);
                assert(r[j] == s[j]);
            } else {
                assert(r[j] == x);
                assert(r[i] == s[i]);
                if i < s.len() - 1 {
                    assert(!lex_lt(s[s.len() - 1].0@, s[i].0@));
                }
                if lex_lt(x.0@, s[i].0@) {
                    if lex_lt(s[i].0@, last.0@) {
                        lemma_lex_lt_transitive(x.0@, s[i].0@, last.0@);
                    } else {
                        lemma_lex_lt_connected(s[i].0@, last.0@);
                    }
                    assert(false);
                }
            }
        }
    }
}

/// The sorted pairs are ascending by name.
pub proof fn lemma_sort_by_name_sorted<T>(s: Seq<(String, T)>)
    ensures
        sorted_by_name(sort_by_name_spec(s)),
    decreases s.len(),
{
    if s.len() > 0 {
        lemma_sort_by_name_sorted(s.drop_last());
        lemma_insert_by_name_sorted(sort_by_name_spec(s.drop_last()), s.last());
    }
}

pub proof fn lemma_insert_by_name_multiset<T>(s: Seq<(String, T)>, x: (String, T))
    ensures
        insert_by_name(s, x).to_multiset() =~= s.to_multiset().insert(x),
    decreases s.len(),
{
    broadcast use vstd::seq_lib::group_to_multiset_ensures;

    if s.len() == 0 {
        assert(insert_by_name(s, x) =~= Seq::<(String, T)>::empty().push(x));
    } else if lex_lt(x.0@, s.last().0@) {
        lemma_insert_by_name_multiset(s.drop_last(), x);
        assert(s =~= s.drop_last().push(s.last()));
        assert(insert_by_name(s, x).to_multiset() =~= insert_by_name(
            s.drop_last(),
            x,
        ).to_multiset().insert(s.last()));
        assert(insert_by_name(s, x).to_multiset() =~= s.to_multiset().insert(x));
    }
}

/// The sorted pairs are the given pairs.
pub proof fn lemma_sort_by_name_multiset<T>(s: Seq<(String, T)>)
    ensures
        sort_by_name_spec(s).to_multiset() =~= s.to_multiset(),
    decreases s.len(),
{
    broadcast use vstd::seq_lib::group_to_multiset_ensures;

    if s.len() > 0 {
        lemma_sort_by_name_multiset(s.drop_last());
        lemma_insert_by_name_multiset(sort_by_name_spec(s.drop_last()), s.last());
        assert(s =~= s.drop_last().push(s.last()));
    }
}

/// Sorts name-keyed pairs by name, keeping the original order of equal
/// names.
pub fn sort_pairs_by_name<T>(v: Vec<(String, T)>) -> (r: Vec<(String, T)>)
    ensures
        r@ == sort_by_name_spec(v@),
{
    let mut v = v;
    let ghost orig = v@;
    let mut out: Vec<(String, T)> = Vec::new();
    let ghost mut i: int = 0;
    while v.len() > 0
        invariant
            0 <= i,
            i + v.len() == orig.len(),
            v@ == orig.skip(i),
            out@ == sort_by_name_spec(orig.take(i)),
        decreases v.len(),
    {
        let x = v.remove(0);
        proof {
            assert(x == orig[i]);
            assert(orig.skip(i).remove(0) =~= orig.skip(i + 1));
        }
        let mut j = out.len();
        while j > 0 && str_lt(x.0.as_str(), out[j - 1].0.as_str())
            invariant
                j <= out@.len(),
                forall|k: int| j <= k < out@.len() ==> lex_lt(x.0@, #[trigger] out@[k].0@),
            decreases j,
        {
            j = j - 1;
        }
        proof {
            lemma_insert_by_name_position(out@, x, j as int);
        }
        out.insert(j, x);
        proof {
            assert(orig.take(i + 1).drop_last() =~= orig.take(i));
            assert(orig.take(i + 1).last() == orig[i]);
            i = i + 1;
        }
    }
    proof {
        assert(orig.take(orig.len() as int) =~= orig);
    }
    out
}

} // verus!
