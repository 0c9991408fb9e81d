//! Stable sorting by a text or numeric key, as listings are ordered.
use vstd::prelude::*;
use crate::text::{lex_le, str_le};

verus! {

broadcast use vstd::seq_lib::group_seq_properties;

/// The key an item is ordered by.
#[derive(Debug)]
pub enum SortKey {
    Text(String),
    Num(u64),
    /// Three numbers compared lexicographically.
    Triple(u64, u64, u64),
}

/// Model of a sort key.
pub enum KeyView {
    Text(Seq<char>),
    Num(nat),
    Triple(nat, nat, nat),
}

impl View for SortKey {
    type V = KeyView;

    open spec fn view(&self) -> KeyView {
        match self {
            SortKey::Text(s) => KeyView::Text(s@),
            SortKey::Num(n) => KeyView::Num(*n as nat),
            SortKey::Triple(a, b, c) => KeyView::Triple(*a as nat, *b as nat, *c as nat),
        }
    }
}

/// Order of keys: texts lexicographically, numbers by value, triples
/// lexicographically (keys of different kinds are never compared in one sort).
pub open spec fn key_le(a: KeyView, b: KeyView) -> bool {
    match (a, b) {
        (KeyView::Text(x), KeyView::Text(y)) => lex_le(x, y),
        (KeyView::Num(x), KeyView::Num(y)) => x <= y,
        (KeyView::Triple(x1, x2, x3), KeyView::Triple(y1, y2, y3)) => x1 < y1 || (x1 == y1 && (x2
            < y2 || (x2 == y2 && x3 <= y3))),
        _ => true,
    }
}

/// Whether key `a` goes before or with key `b`.
pub fn key_le_exec(a: &SortKey, b: &SortKey) -> (r: bool)
    ensures
        r == key_le(a@, b@),
{
    match (a, b) {
        (SortKey::Text(x), SortKey::Text(y)) => str_le(x.as_str(), y.as_str()),
        (SortKey::Num(x), SortKey::Num(y)) => *x <= *y,
        (SortKey::Triple(x1, x2, x3), SortKey::Triple(y1, y2, y3)) => *x1 < *y1 || (*x1 == *y1 && (
        *x2 < *y2 || (*x2 == *y2 && *x3 <= *y3))),
        _ => true,
    }
}

/// Model of keyed items.
pub open spec fn keyed<T>(v: Seq<(T, SortKey)>) -> Seq<(T, KeyView)> {
    v.map_values(|p: (T, SortKey)| (p.0, p.1@))
}

/// `s` with `x` inserted after every item whose key is not greater (stable insertion).
pub open spec fn insert_keyed<T>(s: Seq<(T, KeyView)>, x: (T, KeyView)) -> Seq<(T, KeyView)>
    decreases s.len(),
{
    if s.len() == 0 {
        seq![x]
    } else if key_le(s.last().1, x.1) {
        s.push(x)
    } else {
        insert_keyed(s.drop_last(), x).push(s.last())
    }
}

/// The items stably sorted by key: items with equal keys keep their order.
pub open spec fn sort_keyed<T>(s: Seq<(T, KeyView)>) -> Seq<(T, KeyView)>
    decreases s.len(),
{
    if s.len() == 0 {
        s
    } else {
        insert_keyed(sort_keyed(s.drop_last()), s.last())
    }
}

/// `s` reversed.
pub open spec fn reversed<T>(s: Seq<T>) -> Seq<T> {
    Seq::new(s.len(), |i: int| s[s.len() - 1 - i])
}

proof fn lemma_insert_at<T>(s: Seq<(T, KeyView)>, x: (T, KeyView), j: int)
    requires
        0 <= j <= s.len(),
        j == 0 || key_le(s[j - 1].1, x.1),
        forall|k: int| j <= k < s.len() ==> !key_le(#[trigger] s[k].1, x.1),
    ensures
        insert_keyed(s, x) == s.take(j) + seq![x] + s.skip(j),
    decreases s.len(),
{
    if s.len() == 0 {
        assert(s.take(j) + seq![x] + s.skip(j) =~= seq![x]);
    } else if key_le(s.last().1, x.1) {
        assert(s.take(j) + seq![x] + s.skip(j) =~= s.push(x));
    } else {
        let s2 = s.drop_last();
        lemma_insert_at(s2, x, j);
        assert(s.take(j) + seq![x] + s.skip(j) =~= (s2.take(j) + seq![x] + s2.skip(j)).push(s.last()));
    }
}

/// Sorts the items by key, keeping the order of items with equal keys.
pub fn stable_sort<T>(v: Vec<(T, SortKey)>) -> (r: Vec<(T, SortKey)>)
    ensures
        keyed(r@) == sort_keyed(keyed(v@)),
{
    let ghost all = keyed(v@);
    let n = v.len();
    let mut rest = v;
    let mut out: Vec<(T, SortKey)> = Vec::new();
    let mut i: usize = 0;
    while rest.len() > 0
        invariant
            i + rest.len() == all.len(),
            all.len() == n,
            keyed(rest@) == all.skip(i as int),
            keyed(out@) == sort_keyed(all.take(i as int)),
        decreases rest.len(),
    {
        let ghost s = keyed(out@);
        let x = rest.remove(0);
        let ghost xv = (x.0, x.1@);
        proof {
            assert(all.skip(i as int)[0] == xv);
            assert(keyed(rest@) =~= all.skip(i + 1));
            assert(all.take(i + 1).drop_last() =~= all.take(i as int));
            assert(all.take(i + 1).last() == xv);
        }
        let mut j: usize = out.len();
        while j > 0 && !key_le_exec(&out[j - 1].1, &x.1)
            invariant
                0 <= j <= out.len(),
                s == keyed(out@),
                xv == (x.0, x.1@),
                forall|k: int| j <= k < s.len() ==> !key_le(#[trigger] s[k].1, xv.1),
            decreases j,
        {
            j = j - 1;
        }
        proof {
            if j > 0 {
                assert(key_le(s[j - 1].1, xv.1));
            }
            lemma_insert_at(s, xv, j as int);
        }
        out.insert(j, x);
        assert(keyed(out@) =~= s.take(j as int) + seq![xv] + s.skip(j as int));
        i = i + 1;
    }
    assert(all.take(i as int) =~= all);
    out
}

/// The items in reverse order.
pub fn reverse_vec<T>(v: Vec<T>) -> (r: Vec<T>)
    ensures
        r@ == reversed(v@),
{
    let ghost s = v@;
    let mut rest = v;
    let mut out: Vec<T> = Vec::new();
    while rest.len() > 0
        invariant
            rest.len() <= s.len(),
            rest@ == s.take(rest.len() as int),
            out@ == reversed(s).take(s.len() - rest.len()),
        decreases rest.len(),
    {
        let ghost before = rest@;
        let ghost out_before = out@;
        let x = rest.pop().unwrap();
        assert(before.len() > 0 && rest@ == before.drop_last() && x == before.last());
        out.push(x);
        assert(rest@ =~= s.take(rest.len() as int));
        assert(x == s[rest.len() as int]);
        assert(out@ =~= out_before.push(x));
        assert(out@ =~= reversed(s).take(s.len() - rest.len()));
    }
    assert(out@ =~= reversed(s));
    out
}

/// Keyed items with `f` applied to the items.
pub open spec fn map_items<T, U>(s: Seq<(T, KeyView)>, f: spec_fn(T) -> U) -> Seq<(U, KeyView)> {
    s.map_values(|p: (T, KeyView)| (f(p.0), p.1))
}

proof fn lemma_insert_map<T, U>(s: Seq<(T, KeyView)>, x: (T, KeyView), f: spec_fn(T) -> U)
    ensures
        map_items(insert_keyed(s, x), f) == insert_keyed(map_items(s, f), (f(x.0), x.1)),
    decreases s.len(),
{
    let ms = map_items(s, f);
    if s.len() == 0 {
        assert(map_items(seq![x], f) =~= seq![(f(x.0), x.1)]);
    } else if key_le(s.last().1, x.1) {
        assert(map_items(s.push(x), f) =~= ms.push((f(x.0), x.1)));
    } else {
        lemma_insert_map(s.drop_last(), x, f);
        assert(ms.drop_last() =~= map_items(s.drop_last(), f));
        assert(map_items(insert_keyed(s.drop_last(), x).push(s.last()), f) =~= map_items(
            insert_keyed(s.drop_last(), x),
            f,
        ).push((f(s.last().0), s.last().1)));
    }
}

/// Sorting by key commutes with changing the items (the keys decide alone).
pub proof fn lemma_sort_map<T, U>(s: Seq<(T, KeyView)>, f: spec_fn(T) -> U)
    ensures
        map_items(sort_keyed(s), f) == sort_keyed(map_items(s, f)),
    decreases s.len(),
{
    if s.len() > 0 {
        let d = s.drop_last();
        lemma_sort_map(d, f);
        lemma_insert_map(sort_keyed(d), s.last(), f);
        assert(map_items(s, f).drop_last() =~= map_items(d, f));
    }
}

/// Sort direction.
#[derive(Debug, Clone, Copy, PartialEq, Eq, Structural)]
pub enum SortOrder {
    Asc,
    Desc,
}

/// The first components of keyed items.
pub open spec fn unkeyed<T>(s: Seq<(T, KeyView)>) -> Seq<T> {
    s.map_values(|p: (T, KeyView)| p.0)
}

/// Items in ascending key order, or reversed for descending order.
pub open spec fn ordered<T>(s: Seq<(T, KeyView)>, order: SortOrder) -> Seq<T> {
    let asc = unkeyed(sort_keyed(s));
    if order == SortOrder::Desc {
        reversed(asc)
    } else {
        asc
    }
}

/// Takes the first components of keyed items.
pub fn strip_keys<T>(v: Vec<(T, SortKey)>) -> (r: Vec<T>)
    ensures
        r@ == unkeyed(keyed(v@)),
{
    let ghost all = v@;
    let n = v.len();
    let mut rest = v;
    let mut out: Vec<T> = Vec::new();
    let mut i: usize = 0;
    while rest.len() > 0
        invariant
            i + rest.len() == all.len() == n,
            rest@ == all.skip(i as int),
            out@ == unkeyed(keyed(all.take(i as int))),
        decreases rest.len(),
    {
        let p = rest.remove(0);
        proof {
            assert(all.skip(i as int)[0] == p);
            assert(rest@ =~= all.skip(i + 1));
        }
        let (x, _k) = p;
        out.push(x);
        assert(out@ =~= unkeyed(keyed(all.take(i + 1))));
        i = i + 1;
    }
    assert(all.take(i as int) =~= all);
    out
}

// ── What sorting guarantees ──

/// The kind of a key: text, number or triple.
pub open spec fn kind(k: KeyView) -> int {
    match k {
        KeyView::Text(_) => 0,
        KeyView::Num(_) => 1,
        KeyView::Triple(_, _, _) => 2,
    }
}

/// All keys are of one kind.
pub open spec fn uniform<T>(s: Seq<(T, KeyView)>) -> bool {
    forall|i: int, j: int| 0 <= i < s.len() && 0 <= j < s.len() ==> kind(#[trigger] s[i].1) == kind(#[trigger] s[j].1)
}

/// Keys never decrease along the items.
pub open spec fn sorted_keys<T>(s: Seq<(T, KeyView)>) -> bool {
    forall|i: int, j: int| 0 <= i < j < s.len() ==> key_le(#[trigger] s[i].1, #[trigger] s[j].1)
}

/// Whether an item's key is of the kind of `k` and orders equal to `k`.
pub open spec fn same_key<T>(k: KeyView) -> spec_fn((T, KeyView)) -> bool {
    |p: (T, KeyView)| kind(p.1) == kind(k) && key_le(p.1, k) && key_le(k, p.1)
}

pub proof fn lemma_lex_total(a: Seq<char>, b: Seq<char>)
    ensures
        lex_le(a, b) || lex_le(b, a),
    decreases a.len(),
{
    if a.len() > 0 && b.len() > 0 && a[0] as u32 == b[0] as u32 {
        lemma_lex_total(a.drop_first(), b.drop_first());
    }
}

proof fn lemma_lex_trans(a: Seq<char>, b: Seq<char>, c: Seq<char>)
    requires
        lex_le(a, b),
        lex_le(b, c),
    ensures
        lex_le(a, c),
    decreases a.len(),
{
    if a.len() > 0 && b.len() > 0 && c.len() > 0 && a[0] as u32 == b[0] as u32 && b[0] as u32 == c[0] as u32 {
        lemma_lex_trans(a.drop_first(), b.drop_first(), c.drop_first());
    }
}

proof fn lemma_key_total(a: KeyView, b: KeyView)
    ensures
        key_le(a, b) || key_le(b, a),
{
    if let (KeyView::Text(x), KeyView::Text(y)) = (a, b) {
        lemma_lex_total(x, y);
    }
}

proof fn lemma_key_trans(a: KeyView, b: KeyView, c: KeyView)
    requires
        kind(a) == kind(b) == kind(c),
        key_le(a, b),
        key_le(b, c),
    ensures
        key_le(a, c),
{
    if let (KeyView::Text(x), KeyView::Text(y), KeyView::Text(z)) = (a, b, c) {
        lemma_lex_trans(x, y, z);
    }
}

/// Every item of an insertion is the inserted item or one of the others.
proof fn lemma_insert_items<T>(s: Seq<(T, KeyView)>, x: (T, KeyView))
    ensures
        insert_keyed(s, x).len() == s.len() + 1,
        insert_keyed(s, x).to_multiset() == s.to_multiset().insert(x),
        forall|i: int|
            0 <= i < insert_keyed(s, x).len() ==> #[trigger] insert_keyed(s, x)[i] == x || exists|j: int|
                0 <= j < s.len() && s[j] == insert_keyed(s, x)[i],
    decreases s.len(),
{
    broadcast use vstd::seq_lib::group_to_multiset_ensures;
    let r = insert_keyed(s, x);
    if s.len() == 0 {
        assert(seq![x] =~= Seq::<(T, KeyView)>::empty().push(x));
    } else if key_le(s.last().1, x.1) {
        assert forall|i: int| 0 <= i < r.len() implies #[trigger] r[i] == x || exists|j: int|
            0 <= j < s.len() && s[j] == r[i] by {
            if i < s.len() {
                assert(s[i] == r[i]);
            }
        }
    } else {
        let d = s.drop_last();
        lemma_insert_items(d, x);
        assert(s =~= d.push(s.last()));
        assert forall|i: int| 0 <= i < r.len() implies #[trigger] r[i] == x || exists|j: int|
            0 <= j < s.len() && s[j] == r[i] by {
            if i < r.len() - 1 {
                assert(r[i] == insert_keyed(d, x)[i]);
                if r[i] != x {
                    let j = choose|j: int| 0 <= j < d.len() && d[j] == insert_keyed(d, x)[i];
                    assert(s[j] == d[j]);
                }
            } else {
                assert(r[i] == s[s.len() - 1]);
            }
        }
    }
}

/// Inserting into sorted items of one kind keeps them sorted, and an
/// item whose key orders equal to `k` comes after the others that do.
proof fn lemma_insert_sorted<T>(s: Seq<(T, KeyView)>, x: (T, KeyView), k: KeyView)
    requires
        sorted_keys(s),
        uniform(s.push(x)),
    ensures
        sorted_keys(insert_keyed(s, x)),
        insert_keyed(s, x).filter(same_key(k)) == if same_key(k)(x) {
            s.filter(same_key(k)).push(x)
        } else {
            s.filter(same_key(k))
        },
    decreases s.len(),
{
    let r = insert_keyed(s, x);
    let q = same_key::<T>(k);
    assert(forall|i: int| 0 <= i < s.len() ==> kind(#[trigger] s[i].1) == kind(x.1)) by {
        assert forall|i: int| 0 <= i < s.len() implies kind(#[trigger] s[i].1) == kind(x.1) by {
            assert(s.push(x)[i] == s[i]);
            assert(s.push(x)[s.len() as int] == x);
        }
    }
    if s.len() == 0 {
        assert(seq![x] =~= Seq::<(T, KeyView)>::empty().push(x));
        Seq::<(T, KeyView)>::empty().lemma_filter_push(x, q);
        reveal(Seq::filter);
    } else if key_le(s.last().1, x.1) {
        assert forall|i: int, j: int| 0 <= i < j < r.len() implies key_le(#[trigger] r[i].1, #[trigger] r[j].1) by {
            if j == s.len() {
                if i < s.len() - 1 {
                    lemma_key_trans(s[i].1, s.last().1, x.1);
                }
            }
        }
        s.lemma_filter_push(x, q);
    } else {
        let d = s.drop_last();
        let last = s.last();
        assert(sorted_keys(d));
        assert(uniform(d.push(x))) by {
            assert forall|i: int, j: int| 0 <= i < d.push(x).len() && 0 <= j < d.push(x).len() implies kind(
                #[trigger] d.push(x)[i].1,
            ) == kind(#[trigger] d.push(x)[j].1) by {
                if i < d.len() {
                    assert(d.push(x)[i] == s[i]);
                }
                if j < d.len() {
                    assert(d.push(x)[j] == s[j]);
                }
            }
        }
        lemma_insert_sorted(d, x, k);
        lemma_insert_items(d, x);
        let t = insert_keyed(d, x);
        lemma_key_total(last.1, x.1);
        assert forall|i: int, j: int| 0 <= i < j < r.len() implies key_le(#[trigger] r[i].1, #[trigger] r[j].1) by {
            if j == r.len() - 1 {
                assert(r[j] == last);
                assert(r[i] == t[i]);
                if t[i] != x {
                    let m = choose|m: int| 0 <= m < d.len() && d[m] == t[i];
                    assert(s[m] == d[m]);
                }
            } else {
                assert(r[i] == t[i] && r[j] == t[j]);
            }
        }
        assert(s =~= d.push(last));
        d.lemma_filter_push(last, q);
        t.lemma_filter_push(last, q);
        if q(x) && q(last) {
            lemma_key_trans(last.1, k, x.1);
        }
        if q(x) && !q(last) {
            assert(d.filter(q).push(x) =~= d.filter(q).push(x));
        }
    }
}

/// Sorting by key puts the keys in order, keeps exactly the items, and is
/// stable: the items whose keys order equal keep their order.
pub proof fn lemma_sort_keyed_correct<T>(s: Seq<(T, KeyView)>, k: KeyView)
    requires
        uniform(s),
    ensures
        sorted_keys(sort_keyed(s)),
        sort_keyed(s).to_multiset() == s.to_multiset(),
        sort_keyed(s).filter(same_key(k)) == s.filter(same_key(k)),
    decreases s.len(),
{
    broadcast use vstd::seq_lib::group_to_multiset_ensures;
    if s.len() == 0 {
    } else {
        let d = s.drop_last();
        assert(uniform(d)) by {
            assert forall|i: int, j: int| 0 <= i < d.len() && 0 <= j < d.len() implies kind(#[trigger] d[i].1)
                == kind(#[trigger] d[j].1) by {
                assert(d[i] == s[i] && d[j] == s[j]);
            }
        }
        lemma_sort_keyed_correct(d, k);
        let t = sort_keyed(d);
        lemma_insert_items(t, s.last());
        assert(uniform(t.push(s.last()))) by {
            assert forall|i: int, j: int| 0 <= i < t.push(s.last()).len() && 0 <= j < t.push(s.last()).len()
                implies kind(#[trigger] t.push(s.last())[i].1) == kind(#[trigger] t.push(s.last())[j].1) by {
                let u = t.push(s.last());
                assert(kind(s.last().1) == kind(s[0].1));
                if i < t.len() {
                    assert(u[i] == t[i]);
                    assert(t.to_multiset().contains(t[i]));
                    assert(d.to_multiset().contains(t[i]));
                    let m = choose|m: int| 0 <= m < d.len() && d[m] == t[i];
                    assert(s[m] == d[m]);
                    assert(kind(s[m].1) == kind(s[0].1));
                }
                if j < t.len() {
                    assert(u[j] == t[j]);
                    assert(t.to_multiset().contains(t[j]));
                    assert(d.to_multiset().contains(t[j]));
                    let m = choose|m: int| 0 <= m < d.len() && d[m] == t[j];
                    assert(s[m] == d[m]);
                    assert(kind(s[m].1) == kind(s[0].1));
                }
            }
        }
        lemma_insert_sorted(t, s.last(), k);
        assert(s =~= d.push(s.last()));
        d.lemma_filter_push(s.last(), same_key(k));
    }
}

/// Sorting keeps exactly the items, whatever the keys.
pub proof fn lemma_sort_keyed_perm<T>(s: Seq<(T, KeyView)>)
    ensures
        sort_keyed(s).to_multiset() == s.to_multiset(),
    decreases s.len(),
{
    broadcast use vstd::seq_lib::group_to_multiset_ensures;
    if s.len() > 0 {
        let d = s.drop_last();
        lemma_sort_keyed_perm(d);
        lemma_insert_items(sort_keyed(d), s.last());
        assert(s =~= d.push(s.last()));
    }
}

/// An item is listed, in either order, exactly when some keyed item holds it.
pub proof fn lemma_ordered_members<T>(s: Seq<(T, KeyView)>, order: SortOrder, x: T)
    ensures
        ordered(s, order).contains(x) <==> exists|i: int| 0 <= i < s.len() && (#[trigger] s[i]).0 == x,
{
    broadcast use vstd::seq_lib::group_to_multiset_ensures;
    let t = sort_keyed(s);
    lemma_sort_keyed_perm(s);
    let u = unkeyed(t);
    let o = ordered(s, order);
    if o.contains(x) {
        let j = choose|j: int| 0 <= j < o.len() && o[j] == x;
        let k = if order == SortOrder::Desc { u.len() - 1 - j } else { j };
        assert(u[k] == x);
        assert(t[k].0 == x);
        assert(t.contains(t[k]));
        assert(t.to_multiset().count(t[k]) > 0);
        assert(s.contains(t[k]));
        let i = choose|i: int| 0 <= i < s.len() && s[i] == t[k];
        assert(s[i].0 == x);
    }
    if exists|i: int| 0 <= i < s.len() && (#[trigger] s[i]).0 == x {
        let i = choose|i: int| 0 <= i < s.len() && (#[trigger] s[i]).0 == x;
        assert(s.contains(s[i]));
        assert(s.to_multiset().count(s[i]) > 0);
        assert(t.contains(s[i]));
        let k = choose|k: int| 0 <= k < t.len() && t[k] == s[i];
        assert(u[k] == x);
        let j = if order == SortOrder::Desc { u.len() - 1 - k } else { k };
        assert(o[j] == x);
    }
}

} // verus!
