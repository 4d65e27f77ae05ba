//! Collapsing message headers into the binding's single-occurrence header
//! object: names compared up to ASCII case, the first spelling kept, the
//! last value winning, entries ordered by name as a sorted map iterates.
use vstd::prelude::*;
use crate::message::{Header, header_views};
use crate::text::{eq_ignore_case, str_chars, str_eq, str_eq_ignore_case};

verus! {

/// Lexicographic order of character sequences (the order of `String`).
pub open spec fn chars_lt(a: Seq<char>, b: Seq<char>) -> bool
    decreases a.len(),
{
    if a.len() == 0 {
        b.len() > 0
    } else if b.len() == 0 {
        false
    } else if a[0] != b[0] {
        a[0] < b[0]
    } else {
        chars_lt(a.drop_first(), b.drop_first())
    }
}

/// `s` with `(k, v)` put in: the value of an entry named `k` replaced, or a
/// new entry before the first greater name.
pub open spec fn sorted_put(s: Seq<(Seq<char>, Seq<char>)>, k: Seq<char>, v: Seq<char>) -> Seq<(Seq<char>, Seq<char>)>
    decreases s.len(),
{
    if s.len() == 0 {
        seq![(k, v)]
    } else if s[0].0 == k {
        s.update(0, (k, v))
    } else if chars_lt(k, s[0].0) {
        seq![(k, v)] + s
    } else {
        seq![s[0]] + sorted_put(s.drop_first(), k, v)
    }
}

/// The name an entry for `n` is filed under: the first name of `s` from
/// `from` on that equals `n` up to ASCII case, else `n` itself.
pub open spec fn folded_name(s: Seq<(Seq<char>, Seq<char>)>, n: Seq<char>, from: int) -> Seq<char>
    decreases s.len() - from,
{
    if from < 0 || from >= s.len() {
        n
    } else if eq_ignore_case(s[from].0, n) {
        s[from].0
    } else {
        folded_name(s, n, from + 1)
    }
}

/// The header object for `hs`, header by header.
pub open spec fn header_fold(hs: Seq<(Seq<char>, Seq<char>)>) -> Seq<(Seq<char>, Seq<char>)>
    decreases hs.len(),
{
    if hs.len() == 0 {
        seq![]
    } else {
        let acc = header_fold(hs.drop_last());
        sorted_put(acc, folded_name(acc, hs.last().0, 0), hs.last().1)
    }
}

pub open spec fn pair_views(s: Seq<(String, String)>) -> Seq<(Seq<char>, Seq<char>)> {
    Seq::new(s.len(), |i: int| (s[i].0@, s[i].1@))
}

/// Whether `a` sorts before `b`.
pub fn str_lt(a: &str, b: &str) -> (r: bool)
    ensures
        r == chars_lt(a@, b@),
{
    let va = str_chars(a);
    let vb = str_chars(b);
    let mut i: usize = 0;
    assert(a@.skip(0) =~= a@);
    assert(b@.skip(0) =~= b@);
    while i < va.len() && i < vb.len()
        invariant
            va@ == a@,
            vb@ == b@,
            i <= va@.len(),
            i <= vb@.len(),
            chars_lt(a@, b@) == chars_lt(a@.skip(i as int), b@.skip(i as int)),
        decreases va@.len() - i,
    {
        assert(a@.skip(i as int).drop_first() =~= a@.skip(i + 1));
        assert(b@.skip(i as int).drop_first() =~= b@.skip(i + 1));
        if va[i] != vb[i] {
            return va[i] < vb[i];
        }
        i = i + 1;
    }
    i == va.len() && i < vb.len()
}

proof fn lemma_sorted_put_skip(s: Seq<(Seq<char>, Seq<char>)>, k: Seq<char>, v: Seq<char>, i: int)
    requires
        0 <= i < s.len(),
        s[i].0 != k,
        !chars_lt(k, s[i].0),
    ensures
        sorted_put(s.skip(i), k, v) == seq![s[i]] + sorted_put(s.skip(i + 1), k, v),
{
    assert(s.skip(i).drop_first() =~= s.skip(i + 1));
}

/// Puts `(k, v)` into `out`, as `sorted_put` does.
pub(crate) fn put_sorted(out: &mut Vec<(String, String)>, k: String, v: String)
    ensures
        pair_views(final(out)@) == sorted_put(pair_views(old(out)@), k@, v@),
{
    let ghost s = pair_views(out@);
    let ghost kv = (k@, v@);
    let mut i: usize = 0;
    assert(s.skip(0) =~= s);
    assert(s.take(0) =~= Seq::<(Seq<char>, Seq<char>)>::empty());
    while i < out.len()
        invariant
            i <= out@.len(),
            s == pair_views(out@),
            out@ == old(out)@,
            s == pair_views(old(out)@),
            kv == (k@, v@),
            sorted_put(s, k@, v@) == s.take(i as int) + sorted_put(s.skip(i as int), k@, v@),
        decreases out@.len() - i,
    {
        if str_eq(out[i].0.as_str(), k.as_str()) {
            assert(s.skip(i as int)[0] == s[i as int]);
            let ghost before = out@;
            out.set(i, (k, v));
            proof {
                let t = s.take(i as int) + s.skip(i as int).update(0, kv);
                assert(out@ == before.update(i as int, out@[i as int]));
                assert((out@[i as int].0@, out@[i as int].1@) == kv);
                assert forall|j: int| 0 <= j < t.len() implies pair_views(out@)[j] == t[j] by {
                    if j < i {
                        assert(t[j] == s[j]);
                    } else if j > i {
                        assert(t[j] == s.skip(i as int)[j - i]);
                    }
                }
                assert(pair_views(out@) =~= t);
            }
            return;
        }
        if str_lt(k.as_str(), out[i].0.as_str()) {
            assert(s.skip(i as int)[0] == s[i as int]);
            let ghost before = out@;
            out.insert(i, (k, v));
            proof {
                let t = s.take(i as int) + (seq![kv] + s.skip(i as int));
                assert((out@[i as int].0@, out@[i as int].1@) == kv);
                assert forall|j: int| 0 <= j < t.len() implies pair_views(out@)[j] == t[j] by {
                    if j < i {
                        assert(t[j] == s[j]);
                        assert(out@[j] == before[j]);
                    } else if j > i {
                        assert(t[j] == s.skip(i as int)[j - i - 1]);
                        assert(out@[j] == before[j - 1]);
                    }
                }
                assert(pair_views(out@) =~= t);
            }
            return;
        }
        proof {
            lemma_sorted_put_skip(s, k@, v@, i as int);
            assert(s.take(i as int) + seq![s[i as int]] =~= s.take(i + 1));
        }
        i = i + 1;
    }
    assert(s.skip(i as int) =~= Seq::<(Seq<char>, Seq<char>)>::empty());
    assert(s.take(i as int) =~= s);
    out.push((k, v));
    assert(pair_views(out@) =~= s + seq![kv]);
}

/// The name an entry for `n` is filed under in `out`.
fn fold_name(out: &Vec<(String, String)>, n: &str) -> (r: String)
    ensures
        r@ == folded_name(pair_views(out@), n@, 0),
{
    let ghost s = pair_views(out@);
    let mut i: usize = 0;
    while i < out.len()
        invariant
            i <= out@.len(),
            s == pair_views(out@),
            folded_name(s, n@, i as int) == folded_name(s, n@, 0),
        decreases out@.len() - i,
    {
        if str_eq_ignore_case(out[i].0.as_str(), n) {
            return out[i].0.clone();
        }
        i = i + 1;
    }
    n.to_owned()
}

/// Collapses `headers` into the binding's header object.
pub fn collect_headers(headers: &[Header]) -> (r: Vec<(String, String)>)
    ensures
        pair_views(r@) == header_fold(header_views(headers@)),
{
    let ghost hv = header_views(headers@);
    let mut out: Vec<(String, String)> = Vec::new();
    let mut i: usize = 0;
    assert(hv.take(0) =~= Seq::<(Seq<char>, Seq<char>)>::empty());
    assert(pair_views(out@) =~= Seq::<(Seq<char>, Seq<char>)>::empty());
    while i < headers.len()
        invariant
            i <= headers@.len(),
            hv == header_views(headers@),
            pair_views(out@) == header_fold(hv.take(i as int)),
        decreases headers@.len() - i,
    {
        assert(hv.take(i + 1).drop_last() =~= hv.take(i as int));
        assert(hv.take(i + 1).last() == hv[i as int]);
        let name = fold_name(&out, headers[i].name());
        let value = headers[i].value().to_owned();
        put_sorted(&mut out, name, value);
        i = i + 1;
    }
    assert(hv.take(headers@.len() as int) =~= hv);
    out
}

// ---------------------------------------------------------------------------
// The order of names
// ---------------------------------------------------------------------------

proof fn lemma_lt_irreflexive(a: Seq<char>)
    ensures
        !chars_lt(a, a),
    decreases a.len(),
{
    if a.len() > 0 {
        lemma_lt_irreflexive(a.drop_first());
    }
}

proof fn lemma_lt_transitive(a: Seq<char>, b: Seq<char>, c: Seq<char>)
    requires
        chars_lt(a, b),
        chars_lt(b, c),
    ensures
        chars_lt(a, c),
    decreases a.len(),
{
    if a.len() > 0 && b.len() > 0 && c.len() > 0 {
        if a[0] == b[0] && b[0] == c[0] {
            lemma_lt_transitive(a.drop_first(), b.drop_first(), c.drop_first());
        }
    }
}

proof fn lemma_lt_total(a: Seq<char>, b: Seq<char>)
    requires
        a != b,
    ensures
        chars_lt(a, b) || chars_lt(b, a),
    decreases a.len(),
{
    if a.len() > 0 && b.len() > 0 && a[0] == b[0] {
        if a.drop_first() == b.drop_first() {
            assert(a =~= seq![a[0]] + a.drop_first());
            assert(b =~= seq![b[0]] + b.drop_first());
        }
        lemma_lt_total(a.drop_first(), b.drop_first());
    } else if a.len() == 0 && b.len() == 0 {
        assert(a =~= b);
    }
}

/// The names are in strictly increasing order.
pub open spec fn names_sorted(s: Seq<(Seq<char>, Seq<char>)>) -> bool {
    forall|i: int, j: int| 0 <= i < j < s.len() ==> chars_lt(#[trigger] s[i].0, #[trigger] s[j].0)
}

/// `e` is an element of `s`.
pub open spec fn holds(s: Seq<(Seq<char>, Seq<char>)>, e: (Seq<char>, Seq<char>)) -> bool {
    exists|i: int| 0 <= i < s.len() && s[i] == e
}

pub(crate) proof fn lemma_sorted_put(s: Seq<(Seq<char>, Seq<char>)>, k: Seq<char>, v: Seq<char>)
    requires
        names_sorted(s),
    ensures
        names_sorted(sorted_put(s, k, v)),
        holds(sorted_put(s, k, v), (k, v)),
        forall|i: int| 0 <= i < sorted_put(s, k, v).len() ==> (#[trigger] sorted_put(s, k, v)[i] == (k, v) || (
        holds(s, sorted_put(s, k, v)[i]) && sorted_put(s, k, v)[i].0 != k)),
        forall|i: int| 0 <= i < s.len() && (#[trigger] s[i]).0 != k ==> holds(sorted_put(s, k, v), s[i]),
    decreases s.len(),
{
    let r = sorted_put(s, k, v);
    if s.len() == 0 {
        assert(r[0] == (k, v));
    } else if s[0].0 == k {
        assert(r[0] == (k, v));
        assert forall|i: int, j: int| 0 <= i < j < r.len() implies chars_lt(#[trigger] r[i].0, #[trigger] r[j].0) by {
            assert(r[i].0 == s[i].0 && r[j].0 == s[j].0);
        }
        assert forall|i: int| 0 <= i < r.len() implies (#[trigger] r[i] == (k, v) || (holds(s, r[i]) && r[i].0 != k)) by {
            if i > 0 {
                assert(r[i] == s[i]);
                assert(chars_lt(s[0].0, s[i].0));
                lemma_lt_irreflexive(k);
            }
        }
        assert forall|i: int| 0 <= i < s.len() && (#[trigger] s[i]).0 != k implies holds(r, s[i]) by {
            assert(r[i] == s[i]);
        }
    } else if chars_lt(k, s[0].0) {
        assert(r[0] == (k, v));
        assert forall|i: int, j: int| 0 <= i < j < r.len() implies chars_lt(#[trigger] r[i].0, #[trigger] r[j].0) by {
            if i == 0 {
                assert(r[j] == s[j - 1]);
                if j > 1 {
                    lemma_lt_transitive(k, s[0].0, s[j - 1].0);
                }
            } else {
                assert(r[i] == s[i - 1] && r[j] == s[j - 1]);
            }
        }
        assert forall|i: int| 0 <= i < r.len() implies (#[trigger] r[i] == (k, v) || (holds(s, r[i]) && r[i].0 != k)) by {
            if i > 0 {
                assert(r[i] == s[i - 1]);
                if i > 1 {
                    lemma_lt_transitive(k, s[0].0, s[i - 1].0);
                }
                lemma_lt_irreflexive(k);
            }
        }
        assert forall|i: int| 0 <= i < s.len() && (#[trigger] s[i]).0 != k implies holds(r, s[i]) by {
            assert(r[i + 1] == s[i]);
        }
    } else {
        let t = s.drop_first();
        assert forall|i: int, j: int| 0 <= i < j < t.len() implies chars_lt(#[trigger] t[i].0, #[trigger] t[j].0) by {
            assert(t[i] == s[i + 1] && t[j] == s[j + 1]);
        }
        lemma_sorted_put(t, k, v);
        let rt = sorted_put(t, k, v);
        assert(r == seq![s[0]] + rt);
        lemma_lt_total(s[0].0, k);
        assert forall|i: int| 0 <= i < rt.len() implies chars_lt(s[0].0, (#[trigger] rt[i]).0) by {
            if rt[i] == (k, v) {
            } else {
                let m = choose|m: int| 0 <= m < t.len() && t[m] == rt[i];
                assert(t[m] == s[m + 1]);
            }
        }
        assert forall|i: int, j: int| 0 <= i < j < r.len() implies chars_lt(#[trigger] r[i].0, #[trigger] r[j].0) by {
            if i == 0 {
                assert(r[j] == rt[j - 1]);
            } else {
                assert(r[i] == rt[i - 1] && r[j] == rt[j - 1]);
            }
        }
        assert(holds(rt, (k, v)));
        let m0 = choose|m: int| 0 <= m < rt.len() && rt[m] == (k, v);
        assert(r[m0 + 1] == (k, v));
        assert forall|i: int| 0 <= i < r.len() implies (#[trigger] r[i] == (k, v) || (holds(s, r[i]) && r[i].0 != k)) by {
            if i == 0 {
                assert(s[0] == r[0]);
            } else {
                assert(r[i] == rt[i - 1]);
                if rt[i - 1] != (k, v) {
                    let m = choose|m: int| 0 <= m < t.len() && t[m] == rt[i - 1];
                    assert(s[m + 1] == r[i]);
                }
            }
        }
        assert forall|i: int| 0 <= i < s.len() && (#[trigger] s[i]).0 != k implies holds(r, s[i]) by {
            if i == 0 {
                assert(r[0] == s[0]);
            } else {
                assert(t[i - 1] == s[i]);
                let m = choose|m: int| 0 <= m < rt.len() && rt[m] == t[i - 1];
                assert(r[m + 1] == s[i]);
            }
        }
    }
}

// ---------------------------------------------------------------------------
// The header object law
// ---------------------------------------------------------------------------

/// The value of the last header of `hs` whose name equals `n` up to ASCII
/// case.
pub open spec fn last_value(hs: Seq<(Seq<char>, Seq<char>)>, n: Seq<char>) -> Seq<char>
    decreases hs.len(),
{
    if hs.len() == 0 {
        seq![]
    } else if eq_ignore_case(hs.last().0, n) {
        hs.last().1
    } else {
        last_value(hs.drop_last(), n)
    }
}

/// `hs[j]` is the first header of `hs` spelling its name up to case.
pub open spec fn first_spelling_at(hs: Seq<(Seq<char>, Seq<char>)>, j: int) -> bool {
    &&& 0 <= j < hs.len()
    &&& forall|m: int| 0 <= m < j ==> !eq_ignore_case(#[trigger] hs[m].0, hs[j].0)
}

/// No two names are equal up to ASCII case.
pub open spec fn names_distinct(o: Seq<(Seq<char>, Seq<char>)>) -> bool {
    forall|i: int, j: int| 0 <= i < o.len() && 0 <= j < o.len() && i != j ==> !eq_ignore_case(#[trigger] o[i].0, #[trigger] o[j].0)
}

/// Each header of `hs` is represented by the entry of `o` whose name equals
/// its own up to case, holding the value of the last such header.
pub open spec fn values_kept(hs: Seq<(Seq<char>, Seq<char>)>, o: Seq<(Seq<char>, Seq<char>)>) -> bool {
    forall|j: int| 0 <= j < hs.len() ==> exists|i: int| 0 <= i < o.len() && eq_ignore_case(o[i].0, (#[trigger] hs[j]).0) && o[i].1 == last_value(hs, hs[j].0)
}

/// Each entry of `o` is named as the first header of `hs` with that name
/// was spelt.
pub open spec fn spelt_first(hs: Seq<(Seq<char>, Seq<char>)>, o: Seq<(Seq<char>, Seq<char>)>) -> bool {
    forall|i: int| 0 <= i < o.len() ==> exists|j: int| first_spelling_at(hs, j) && (#[trigger] o[i]).0 == hs[j].0
}

/// What the header object of `hs` is: names in increasing order, no two
/// equal up to ASCII case, values kept, names spelt first.
pub open spec fn header_object_of(hs: Seq<(Seq<char>, Seq<char>)>, o: Seq<(Seq<char>, Seq<char>)>) -> bool {
    &&& names_sorted(o)
    &&& names_distinct(o)
    &&& values_kept(hs, o)
    &&& spelt_first(hs, o)
}

proof fn lemma_folded_name(s: Seq<(Seq<char>, Seq<char>)>, n: Seq<char>, from: int)
    requires
        0 <= from,
    ensures
        eq_ignore_case(folded_name(s, n, from), n),
        (folded_name(s, n, from) == n && forall|i: int| from <= i < s.len() ==> !eq_ignore_case(#[trigger] s[i].0, n))
            || (exists|i: int| from <= i < s.len() && s[i].0 == folded_name(s, n, from)),
    decreases s.len() - from,
{
    if from < s.len() && !eq_ignore_case(s[from].0, n) {
        lemma_folded_name(s, n, from + 1);
    }
}

/// `name` is the name `n` is filed under in `acc`.
spec fn filed(acc: Seq<(Seq<char>, Seq<char>)>, n: Seq<char>, name: Seq<char>) -> bool {
    &&& eq_ignore_case(name, n)
    &&& (name == n && forall|i: int| 0 <= i < acc.len() ==> !eq_ignore_case(#[trigger] acc[i].0, n)) || (exists|i: int| 0 <= i < acc.len() && acc[i].0 == name)
}

proof fn lemma_step_distinct(acc: Seq<(Seq<char>, Seq<char>)>, n: Seq<char>, name: Seq<char>, v: Seq<char>)
    requires
        names_sorted(acc),
        names_distinct(acc),
        filed(acc, n, name),
    ensures
        names_sorted(sorted_put(acc, name, v)),
        names_distinct(sorted_put(acc, name, v)),
{
    lemma_sorted_put(acc, name, v);
    let o = sorted_put(acc, name, v);
    assert forall|i: int, j: int| 0 <= i < o.len() && 0 <= j < o.len() && i != j implies !eq_ignore_case(#[trigger] o[i].0, #[trigger] o[j].0) by {
        if eq_ignore_case(o[i].0, o[j].0) {
            if i < j {
                assert(chars_lt(o[i].0, o[j].0));
            } else {
                assert(chars_lt(o[j].0, o[i].0));
            }
            assert(o[i].0 != o[j].0) by {
                lemma_lt_irreflexive(o[i].0);
            }
            if o[i] == (name, v) || o[j] == (name, v) {
                let other = if o[i] == (name, v) { o[j] } else { o[i] };
                let q = choose|q: int| 0 <= q < acc.len() && acc[q] == other;
                if name == n && forall|m: int| 0 <= m < acc.len() ==> !eq_ignore_case(#[trigger] acc[m].0, n) {
                    assert(!eq_ignore_case(acc[q].0, n));
                } else {
                    let r = choose|r: int| 0 <= r < acc.len() && acc[r].0 == name;
                    assert(r != q);
                }
            } else {
                let p = choose|p: int| 0 <= p < acc.len() && acc[p] == o[i];
                let q = choose|q: int| 0 <= q < acc.len() && acc[q] == o[j];
                assert(p != q);
            }
        }
    }
}

proof fn lemma_step_values(h: Seq<(Seq<char>, Seq<char>)>, acc: Seq<(Seq<char>, Seq<char>)>, n: Seq<char>, name: Seq<char>, v: Seq<char>)
    requires
        names_sorted(acc),
        values_kept(h, acc),
        filed(acc, n, name),
    ensures
        values_kept(h.push((n, v)), sorted_put(acc, name, v)),
{
    lemma_sorted_put(acc, name, v);
    let o = sorted_put(acc, name, v);
    let hs = h.push((n, v));
    assert(hs.drop_last() =~= h);
    assert forall|j: int| 0 <= j < hs.len() implies exists|i: int| 0 <= i < o.len() && eq_ignore_case(o[i].0, (#[trigger] hs[j]).0) && o[i].1 == last_value(hs, hs[j].0) by {
        let k = choose|k: int| 0 <= k < o.len() && o[k] == (name, v);
        if j == h.len() || eq_ignore_case(hs[j].0, n) {
            assert(last_value(hs, hs[j].0) == v);
            assert(eq_ignore_case(o[k].0, hs[j].0));
        } else {
            assert(hs[j] == h[j]);
            assert(last_value(hs, hs[j].0) == last_value(h, h[j].0));
            let i0 = choose|i0: int| 0 <= i0 < acc.len() && eq_ignore_case(acc[i0].0, (#[trigger] h[j]).0) && acc[i0].1 == last_value(h, h[j].0);
            assert(acc[i0].0 != name);
            let i1 = choose|i1: int| 0 <= i1 < o.len() && o[i1] == acc[i0];
            assert(eq_ignore_case(o[i1].0, hs[j].0));
        }
    }
}

proof fn lemma_step_spelling(h: Seq<(Seq<char>, Seq<char>)>, acc: Seq<(Seq<char>, Seq<char>)>, n: Seq<char>, name: Seq<char>, v: Seq<char>)
    requires
        names_sorted(acc),
        values_kept(h, acc),
        spelt_first(h, acc),
        filed(acc, n, name),
    ensures
        spelt_first(h.push((n, v)), sorted_put(acc, name, v)),
{
    lemma_sorted_put(acc, name, v);
    let o = sorted_put(acc, name, v);
    let hs = h.push((n, v));
    let last = h.len() as int;
    assert forall|i: int| 0 <= i < o.len() implies exists|j: int| first_spelling_at(hs, j) && (#[trigger] o[i]).0 == hs[j].0 by {
        if o[i] == (name, v) {
            if name == n && forall|m: int| 0 <= m < acc.len() ==> !eq_ignore_case(#[trigger] acc[m].0, n) {
                assert forall|m: int| 0 <= m < last implies !eq_ignore_case(#[trigger] hs[m].0, hs[last].0) by {
                    assert(hs[m] == h[m]);
                    if eq_ignore_case(hs[m].0, n) {
                        let q = choose|q: int| 0 <= q < acc.len() && eq_ignore_case(acc[q].0, (#[trigger] h[m]).0) && acc[q].1 == last_value(h, h[m].0);
                        assert(!eq_ignore_case(acc[q].0, n));
                    }
                }
                assert(first_spelling_at(hs, last));
            } else {
                let r = choose|r: int| 0 <= r < acc.len() && acc[r].0 == name;
                let j = choose|j: int| first_spelling_at(h, j) && (#[trigger] acc[r]).0 == h[j].0;
                assert(hs[j] == h[j]);
                assert forall|m: int| 0 <= m < j implies !eq_ignore_case(#[trigger] hs[m].0, hs[j].0) by {
                    assert(hs[m] == h[m]);
                }
                assert(first_spelling_at(hs, j));
            }
        } else {
            let p = choose|p: int| 0 <= p < acc.len() && acc[p] == o[i];
            let j = choose|j: int| first_spelling_at(h, j) && (#[trigger] acc[p]).0 == h[j].0;
            assert(hs[j] == h[j]);
            assert forall|m: int| 0 <= m < j implies !eq_ignore_case(#[trigger] hs[m].0, hs[j].0) by {
                assert(hs[m] == h[m]);
            }
            assert(first_spelling_at(hs, j));
        }
    }
}

proof fn lemma_header_fold(hs: Seq<(Seq<char>, Seq<char>)>)
    ensures
        header_object_of(hs, header_fold(hs)),
    decreases hs.len(),
{
    if hs.len() == 0 {
        return;
    }
    let h = hs.drop_last();
    lemma_header_fold(h);
    let acc = header_fold(h);
    let n = hs.last().0;
    let v = hs.last().1;
    let name = folded_name(acc, n, 0);
    lemma_folded_name(acc, n, 0);
    assert(filed(acc, n, name));
    assert(hs =~= h.push((n, v)));
    lemma_step_distinct(acc, n, name, v);
    lemma_step_values(h, acc, n, name, v);
    lemma_step_spelling(h, acc, n, name, v);
}

/// Collapsing headers into the binding's header object: names are in
/// increasing order and no two are equal up to ASCII case; every header is
/// represented by the entry whose name equals its own up to case, which
/// holds the value of the last header with that name; every entry is
/// named as the first header with that name was spelt.
pub proof fn law_header_object(hs: Seq<(Seq<char>, Seq<char>)>)
    ensures
        header_object_of(hs, header_fold(hs)),
{
    lemma_header_fold(hs);
}

} // verus!
