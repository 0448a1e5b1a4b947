//! The order of strings (`str`'s `Ord`: char by char, a proper prefix first) and
//! a stable sort of key/value pairs by key.

use vstd::prelude::*;

use crate::models::pairs_view;

verus! {

/// `a` sorts strictly before `b`.
pub open spec fn seq_lt(a: Seq<char>, b: Seq<char>) -> bool
    decreases a.len(),
{
    if a.len() == 0 {
        b.len() > 0
    } else if b.len() == 0 {
        false
    } else if a[0] < b[0] {
        true
    } else if b[0] < a[0] {
        false
    } else {
        seq_lt(a.drop_first(), b.drop_first())
    }
}

/// `a` sorts before `b` or equals it.
pub open spec fn seq_le(a: Seq<char>, b: Seq<char>) -> bool {
    a == b || seq_lt(a, b)
}

pub proof fn lemma_lt_irrefl(a: Seq<char>)
    ensures
        !seq_lt(a, a),
    decreases a.len(),
{
    if a.len() > 0 {
        lemma_lt_irrefl(a.drop_first());
    }
}

/// Two different strings are ordered one way or the other, and not both.
pub proof fn lemma_lt_total(a: Seq<char>, b: Seq<char>)
    ensures
        a != b ==> (seq_lt(a, b) || seq_lt(b, a)),
        !(seq_lt(a, b) && seq_lt(b, a)),
    decreases a.len(),
{
    if a.len() > 0 && b.len() > 0 && a[0] == b[0] {
        lemma_lt_total(a.drop_first(), b.drop_first());
        if a != b {
            assert(a == seq![a[0]] + a.drop_first());
            assert(b == seq![b[0]] + b.drop_first());
        }
    } else if a.len() == 0 && b.len() == 0 {
        assert(a == b);
    }
}

pub proof fn lemma_lt_trans(a: Seq<char>, b: Seq<char>, c: Seq<char>)
    requires
        seq_lt(a, b),
        seq_lt(b, c),
    ensures
        seq_lt(a, c),
    decreases a.len(),
{
    if a.len() > 0 && b.len() > 0 && c.len() > 0 && a[0] == b[0] && b[0] == c[0] {
        lemma_lt_trans(a.drop_first(), b.drop_first(), c.drop_first());
    }
}

/// Exec comparison: `a < b` in `str` order.
pub fn chars_lt(a: &Vec<char>, b: &Vec<char>) -> (r: bool)
    ensures
        r == seq_lt(a@, b@),
{
    let mut i: usize = 0;
    assert(a@.skip(0) == a@);
    assert(b@.skip(0) == b@);
    while i < a.len() && i < b.len() && a[i] == b[i]
        invariant
            i <= a.len(),
            i <= b.len(),
            seq_lt(a@, b@) == seq_lt(a@.skip(i as int), b@.skip(i as int)),
        decreases a.len() - i,
    {
        proof {
            let sa = a@.skip(i as int);
            let sb = b@.skip(i as int);
            assert(sa.drop_first() == a@.skip(i + 1));
            assert(sb.drop_first() == b@.skip(i + 1));
        }
        i = i + 1;
    }
    if i == a.len() {
        i < b.len()
    } else if i == b.len() {
        false
    } else {
        proof {
            assert(a@.skip(i as int)[0] == a@[i as int]);
            assert(b@.skip(i as int)[0] == b@[i as int]);
        }
        a[i] < b[i]
    }
}

/// Keys never decrease along `v`.
pub open spec fn sorted_by_key(v: Seq<(Seq<char>, Seq<char>)>) -> bool {
    forall|i: int, j: int| 0 <= i < j < v.len() ==> seq_le(#[trigger] v[i].0, #[trigger] v[j].0)
}

/// `x` inserted into `s` before the first pair whose key sorts after `x`'s.
pub open spec fn insert_by_key(s: Seq<(Seq<char>, Seq<char>)>, x: (Seq<char>, Seq<char>)) -> Seq<
    (Seq<char>, Seq<char>),
>
    decreases s.len(),
{
    if s.len() == 0 {
        seq![x]
    } else if seq_lt(x.0, s[0].0) {
        seq![x] + s
    } else {
        seq![s[0]] + insert_by_key(s.drop_first(), x)
    }
}

/// Stable sort by key: each pair inserted after the pairs before it whose key
/// does not sort after its own.
pub open spec fn sort_by_key_spec(v: Seq<(Seq<char>, Seq<char>)>) -> Seq<(Seq<char>, Seq<char>)>
    decreases v.len(),
{
    if v.len() == 0 {
        seq![]
    } else {
        insert_by_key(sort_by_key_spec(v.drop_last()), v.last())
    }
}

proof fn lemma_insert_by_key_at(s: Seq<(Seq<char>, Seq<char>)>, x: (Seq<char>, Seq<char>), p: int)
    requires
        0 <= p <= s.len(),
        forall|q: int| 0 <= q < p ==> !seq_lt(x.0, #[trigger] s[q].0),
        p < s.len() ==> seq_lt(x.0, s[p].0),
    ensures
        insert_by_key(s, x) == s.insert(p, x),
    decreases s.len(),
{
    if s.len() > 0 && p > 0 {
        let t = s.drop_first();
        assert forall|q: int| 0 <= q < p - 1 implies !seq_lt(x.0, #[trigger] t[q].0) by {
            assert(t[q] == s[q + 1]);
        }
        if p - 1 < t.len() {
            assert(t[p - 1] == s[p]);
        }
        lemma_insert_by_key_at(t, x, p - 1);
        assert(s.insert(p, x) == seq![s[0]] + t.insert(p - 1, x));
    } else if s.len() > 0 {
        assert(s.insert(0, x) == seq![x] + s);
    } else {
        assert(s.insert(0, x) == seq![x]);
    }
}

/// Sorts key/value pairs by key, keeping pairs with equal keys in their order
/// (`slice::sort_by_key` on the key).
pub fn sort_pairs_by_key(v: &Vec<(String, String)>) -> (r: Vec<(String, String)>)
    ensures
        pairs_view(r@) == sort_by_key_spec(pairs_view(v@)),
        sorted_by_key(pairs_view(r@)),
        pairs_view(r@).to_multiset() == pairs_view(v@).to_multiset(),
{
    broadcast use vstd::seq_lib::group_to_multiset_ensures;

    let mut out: Vec<(String, String)> = Vec::new();
    let mut i: usize = 0;
    while i < v.len()
        invariant
            i <= v.len(),
            sorted_by_key(pairs_view(out@)),
            pairs_view(out@) == sort_by_key_spec(pairs_view(v@.take(i as int))),
            pairs_view(out@).to_multiset() == pairs_view(v@.take(i as int)).to_multiset(),
        decreases v.len() - i,
    {
        let key = crate::text::to_chars(v[i].0.as_str());
        let mut p: usize = 0;
        while p < out.len()
            invariant
                i < v.len(),
                p <= out.len(),
                key@ == v@[i as int].0@,
                forall|q: int| 0 <= q < p ==> !seq_lt(key@, #[trigger] out@[q].0@),
            ensures
                p <= out.len(),
                forall|q: int| 0 <= q < p ==> !seq_lt(key@, #[trigger] out@[q].0@),
                p < out.len() ==> seq_lt(key@, out@[p as int].0@),
            decreases out.len() - p,
        {
            let k = crate::text::to_chars(out[p].0.as_str());
            if chars_lt(&key, &k) {
                break;
            }
            p = p + 1;
        }
        let ghost old_out = pairs_view(out@);
        let item = (v[i].0.clone(), v[i].1.clone());
        let ghost x = (item.0@, item.1@);
        out.insert(p, item);
        proof {
            let nv = pairs_view(out@);
            assert(nv == old_out.insert(p as int, x));
            assert forall|a: int, b: int| 0 <= a < b < nv.len() implies seq_le(
                #[trigger] nv[a].0,
                #[trigger] nv[b].0,
            ) by {
                if b == p {
                    assert(nv[a] == old_out[a]);
                    lemma_lt_total(x.0, old_out[a].0);
                } else if a == p {
                    assert(nv[b] == old_out[b - 1]);
                    if p < old_out.len() {
                        assert(seq_lt(x.0, old_out[p as int].0));
                        if p < b - 1 {
                            assert(seq_le(old_out[p as int].0, old_out[b - 1].0));
                            if old_out[p as int].0 != old_out[b - 1].0 {
                                lemma_lt_trans(x.0, old_out[p as int].0, old_out[b - 1].0);
                            }
                        }
                    }
                } else {
                    let oa = if a < p { a } else { a - 1 };
                    let ob = if b < p { b } else { b - 1 };
                    assert(nv[a] == old_out[oa]);
                    assert(nv[b] == old_out[ob]);
                }
            }
            assert(v@.take(i + 1) == v@.take(i as int).push(v@[i as int]));
            assert(pairs_view(v@.take(i + 1)) == pairs_view(v@.take(i as int)).push(x));
            vstd::seq_lib::to_multiset_insert(old_out, p as int, x);
            lemma_insert_by_key_at(old_out, x, p as int);
            assert(pairs_view(v@.take(i + 1)).drop_last() == pairs_view(v@.take(i as int)));
            assert(pairs_view(v@.take(i + 1)).last() == x);
            vstd::seq_lib::to_multiset_build(pairs_view(v@.take(i as int)), x);
        }
        i = i + 1;
    }
    assert(v@.take(v.len() as int) == v@);
    out
}

/// The stable key sort is sorted and a permutation of its input.
pub proof fn lemma_sort_by_key_spec(v: Seq<(Seq<char>, Seq<char>)>)
    ensures
        sorted_by_key(sort_by_key_spec(v)),
        sort_by_key_spec(v).to_multiset() == v.to_multiset(),
        sort_by_key_spec(v).len() == v.len(),
    decreases v.len(),
{
    broadcast use vstd::seq_lib::group_to_multiset_ensures;

    if v.len() > 0 {
        let s = sort_by_key_spec(v.drop_last());
        lemma_sort_by_key_spec(v.drop_last());
        let x = v.last();
        let p = first_after(s, x.0);
        lemma_first_after(s, x.0);
        lemma_insert_by_key_at(s, x, p);
        vstd::seq_lib::to_multiset_insert(s, p, x);
        vstd::seq_lib::to_multiset_build(v.drop_last(), x);
        assert(v.drop_last().push(x) == v);
        let nv = s.insert(p, x);
        assert forall|a: int, b: int| 0 <= a < b < nv.len() implies seq_le(
            #[trigger] nv[a].0,
            #[trigger] nv[b].0,
        ) by {
            if b == p {
                lemma_lt_total(x.0, s[a].0);
            } else if a == p {
                if p < s.len() && p < b - 1 {
                    if s[p].0 != s[b - 1].0 {
                        lemma_lt_trans(x.0, s[p].0, s[b - 1].0);
                    }
                }
            } else {
                let oa = if a < p { a } else { a - 1 };
                let ob = if b < p { b } else { b - 1 };
                assert(nv[a] == s[oa]);
                assert(nv[b] == s[ob]);
            }
        }
    }
}

/// Index of the first pair in `s` whose key sorts after `k` (`s.len()` if none).
pub open spec fn first_after(s: Seq<(Seq<char>, Seq<char>)>, k: Seq<char>) -> int
    decreases s.len(),
{
    if s.len() == 0 {
        0
    } else if seq_lt(k, s[0].0) {
        0
    } else {
        1 + first_after(s.drop_first(), k)
    }
}

proof fn lemma_first_after(s: Seq<(Seq<char>, Seq<char>)>, k: Seq<char>)
    ensures
        0 <= first_after(s, k) <= s.len(),
        forall|q: int| 0 <= q < first_after(s, k) ==> !seq_lt(k, #[trigger] s[q].0),
        first_after(s, k) < s.len() ==> seq_lt(k, s[first_after(s, k)].0),
    decreases s.len(),
{
    if s.len() > 0 && !seq_lt(k, s[0].0) {
        lemma_first_after(s.drop_first(), k);
        assert forall|q: int| 0 <= q < first_after(s, k) implies !seq_lt(k, #[trigger] s[q].0) by {
            if q > 0 {
                assert(s[q] == s.drop_first()[q - 1]);
            }
        }
    }
}

} // verus!
