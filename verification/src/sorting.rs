use vstd::prelude::*;
use vstd::seq_lib::group_to_multiset_ensures;
use itertools::Itertools;
use std::cmp::Ordering;

verus! {

/// The pairs of `s` whose second component is `k`, in their order in `s`.
pub open spec fn with_key(s: Seq<(u16, u16)>, k: u16) -> Seq<(u16, u16)>
    decreases s.len(),
{
    if s.len() == 0 {
        Seq::<(u16, u16)>::empty()
    } else {
        (if s[0].1 == k {
            seq![s[0]]
        } else {
            Seq::<(u16, u16)>::empty()
        }) + with_key(s.drop_first(), k)
    }
}

/// The second components never increase along `s`.
pub open spec fn is_desc_by_high(s: Seq<(u16, u16)>) -> bool {
    forall|i: int, j: int| 0 <= i < j < s.len() ==> s[i].1 >= s[j].1
}

/// `output` is `input` stably sorted by decreasing second component: the order is
/// non-increasing, and the pairs with any one second component keep their order.
pub open spec fn is_stable_desc_sort(input: Seq<(u16, u16)>, output: Seq<(u16, u16)>) -> bool {
    is_desc_by_high(output) && forall|k: u16| #[trigger] with_key(output, k) == with_key(input, k)
}

/// The stable sort of `input` by decreasing second component (it exists and is unique:
/// see `lemma_stable_desc_sort_unique`).
pub open spec fn spec_sort_high_desc(input: Seq<(u16, u16)>) -> Seq<(u16, u16)> {
    choose|t: Seq<(u16, u16)>| is_stable_desc_sort(input, t)
}

/// Ascending order, repeats allowed.
pub open spec fn is_ascending(s: Seq<u16>) -> bool {
    forall|i: int, j: int| 0 <= i < j < s.len() ==> s[i] <= s[j]
}

/// Strictly ascending order: sorted and without repeats.
pub open spec fn is_strictly_ascending(s: Seq<u16>) -> bool {
    forall|i: int, j: int| 0 <= i < j < s.len() ==> s[i] < s[j]
}

pub proof fn lemma_with_key_members(s: Seq<(u16, u16)>, k: u16)
    ensures
        forall|i: int| 0 <= i < with_key(s, k).len() ==> (#[trigger] with_key(s, k)[i]).1 == k,
        forall|x: (u16, u16)| #[trigger] with_key(s, k).contains(x) <==> (s.contains(x) && x.1 == k),
    decreases s.len(),
{
    if s.len() > 0 {
        lemma_with_key_members(s.drop_first(), k);
        let head = if s[0].1 == k {
            seq![s[0]]
        } else {
            Seq::<(u16, u16)>::empty()
        };
        let rest = with_key(s.drop_first(), k);
        assert(with_key(s, k) == head + rest);
        assert forall|i: int| 0 <= i < with_key(s, k).len() implies (#[trigger] with_key(s, k)[i]).1 == k by {
            if i >= head.len() {
                assert(with_key(s, k)[i] == rest[i - head.len()]);
            }
        }
        assert forall|x: (u16, u16)| #[trigger] with_key(s, k).contains(x) <==> (s.contains(x) && x.1 == k) by {
            if with_key(s, k).contains(x) {
                let i = choose|i: int| 0 <= i < with_key(s, k).len() && with_key(s, k)[i] == x;
                if i < head.len() {
                    assert(s[0] == x);
                } else {
                    assert(rest[i - head.len()] == x);
                    assert(rest.contains(x));
                    let j = choose|j: int| 0 <= j < s.drop_first().len() && s.drop_first()[j] == x;
                    assert(s[j + 1] == x);
                }
            }
            if s.contains(x) && x.1 == k {
                let i = choose|i: int| 0 <= i < s.len() && s[i] == x;
                if i == 0 {
                    assert(with_key(s, k)[0] == x);
                } else {
                    assert(s.drop_first()[i - 1] == x);
                    assert(rest.contains(x));
                    let j = choose|j: int| 0 <= j < rest.len() && rest[j] == x;
                    assert(with_key(s, k)[head.len() + j] == x);
                }
            }
        }
    }
}

/// A stable sort keeps exactly the pairs of its input.
pub proof fn lemma_stable_sort_members(input: Seq<(u16, u16)>, output: Seq<(u16, u16)>)
    requires
        is_stable_desc_sort(input, output),
    ensures
        forall|x: (u16, u16)| output.contains(x) <==> input.contains(x),
{
    assert forall|x: (u16, u16)| output.contains(x) <==> input.contains(x) by {
        lemma_with_key_members(output, x.1);
        lemma_with_key_members(input, x.1);
        assert(with_key(output, x.1) == with_key(input, x.1));
        assert(with_key(output, x.1).contains(x) <==> output.contains(x));
        assert(with_key(input, x.1).contains(x) <==> input.contains(x));
    }
}

proof fn lemma_sorted_unique_from(t1: Seq<(u16, u16)>, t2: Seq<(u16, u16)>)
    requires
        is_desc_by_high(t1),
        is_desc_by_high(t2),
        forall|k: u16| #[trigger] with_key(t1, k) == with_key(t2, k),
    ensures
        t1 == t2,
    decreases t1.len() + t2.len(),
{
    if t1.len() == 0 && t2.len() == 0 {
        assert(t1 =~= t2);
    } else if t1.len() == 0 {
        let k = t2[0].1;
        assert(with_key(t2, k).len() > 0);
        assert(with_key(t1, k).len() == 0);
    } else if t2.len() == 0 {
        let k = t1[0].1;
        assert(with_key(t1, k).len() > 0);
        assert(with_key(t2, k).len() == 0);
    } else {
        let k1 = t1[0].1;
        let k2 = t2[0].1;
        lemma_with_key_members(t1, k1);
        lemma_with_key_members(t2, k1);
        lemma_with_key_members(t1, k2);
        lemma_with_key_members(t2, k2);
        assert(with_key(t1, k1)[0] == t1[0]);
        assert(with_key(t2, k1).contains(t1[0]));
        let j2 = choose|j: int| 0 <= j < t2.len() && t2[j] == t1[0];
        assert(k1 <= k2) by {
            if j2 > 0 {
                assert(t2[0].1 >= t2[j2].1);
            }
        }
        assert(with_key(t2, k2)[0] == t2[0]);
        assert(with_key(t1, k2).contains(t2[0]));
        let j1 = choose|j: int| 0 <= j < t1.len() && t1[j] == t2[0];
        assert(k2 <= k1) by {
            if j1 > 0 {
                assert(t1[0].1 >= t1[j1].1);
            }
        }
        assert(with_key(t1, k1) == seq![t1[0]] + with_key(t1.drop_first(), k1));
        assert(with_key(t2, k1) == seq![t2[0]] + with_key(t2.drop_first(), k1));
        assert(t1[0] == with_key(t1, k1)[0]);
        assert(t2[0] == with_key(t2, k1)[0]);
        assert forall|k: u16| #[trigger] with_key(t1.drop_first(), k) == with_key(t2.drop_first(), k) by {
            if k == k1 {
                assert(with_key(t1.drop_first(), k) =~= with_key(t1, k).drop_first());
                assert(with_key(t2.drop_first(), k) =~= with_key(t2, k).drop_first());
            } else {
                assert(with_key(t1.drop_first(), k) =~= with_key(t1, k));
                assert(with_key(t2.drop_first(), k) =~= with_key(t2, k));
            }
        }
        lemma_sorted_unique_from(t1.drop_first(), t2.drop_first());
        assert(t1 =~= seq![t1[0]] + t1.drop_first());
        assert(t2 =~= seq![t2[0]] + t2.drop_first());
    }
}

/// There is one stable sort by decreasing second component.
pub proof fn lemma_stable_desc_sort_unique(
    input: Seq<(u16, u16)>,
    t1: Seq<(u16, u16)>,
    t2: Seq<(u16, u16)>,
)
    requires
        is_stable_desc_sort(input, t1),
        is_stable_desc_sort(input, t2),
    ensures
        t1 == t2,
{
    assert forall|k: u16| #[trigger] with_key(t1, k) == with_key(t2, k) by {
        assert(with_key(t1, k) == with_key(input, k));
        assert(with_key(t2, k) == with_key(input, k));
    }
    lemma_sorted_unique_from(t1, t2);
}

/// `x` placed after every pair of `t` whose second component is at least its own.
pub open spec fn insert_desc(x: (u16, u16), t: Seq<(u16, u16)>) -> Seq<(u16, u16)>
    decreases t.len(),
{
    if t.len() == 0 {
        seq![x]
    } else if t[0].1 < x.1 {
        seq![x] + t
    } else {
        seq![t[0]] + insert_desc(x, t.drop_first())
    }
}

/// Insertion sort by decreasing second component.
pub open spec fn insertion_sort_desc(s: Seq<(u16, u16)>) -> Seq<(u16, u16)>
    decreases s.len(),
{
    if s.len() == 0 {
        Seq::<(u16, u16)>::empty()
    } else {
        insert_desc(s.last(), insertion_sort_desc(s.drop_last()))
    }
}

proof fn lemma_insert_desc_members(x: (u16, u16), t: Seq<(u16, u16)>)
    ensures
        insert_desc(x, t).len() == t.len() + 1,
        forall|i: int|
            0 <= i < insert_desc(x, t).len() ==> #[trigger] insert_desc(x, t)[i] == x || t.contains(
                insert_desc(x, t)[i],
            ),
    decreases t.len(),
{
    if t.len() > 0 && t[0].1 >= x.1 {
        let rest = insert_desc(x, t.drop_first());
        lemma_insert_desc_members(x, t.drop_first());
        assert forall|i: int|
            0 <= i < insert_desc(x, t).len() implies #[trigger] insert_desc(x, t)[i] == x || t.contains(
            insert_desc(x, t)[i],
        ) by {
            if i == 0 {
                assert(t[0] == insert_desc(x, t)[0]);
            } else {
                assert(insert_desc(x, t)[i] == rest[i - 1]);
                if rest[i - 1] != x {
                    let j = choose|j: int| 0 <= j < t.drop_first().len() && t.drop_first()[j] == rest[i - 1];
                    assert(t[j + 1] == rest[i - 1]);
                }
            }
        }
    } else if t.len() > 0 {
        assert forall|i: int|
            0 <= i < insert_desc(x, t).len() implies #[trigger] insert_desc(x, t)[i] == x || t.contains(
            insert_desc(x, t)[i],
        ) by {
            if i > 0 {
                assert(insert_desc(x, t)[i] == t[i - 1]);
            }
        }
    }
}

proof fn lemma_insert_desc_sorted(x: (u16, u16), t: Seq<(u16, u16)>)
    requires
        is_desc_by_high(t),
    ensures
        is_desc_by_high(insert_desc(x, t)),
    decreases t.len(),
{
    if t.len() > 0 && t[0].1 >= x.1 {
        let t2 = t.drop_first();
        lemma_insert_desc_sorted(x, t2);
        lemma_insert_desc_members(x, t2);
        let r = insert_desc(x, t);
        let rest = insert_desc(x, t2);
        assert forall|i: int, j: int| 0 <= i < j < r.len() implies r[i].1 >= r[j].1 by {
            if i == 0 {
                assert(r[j] == rest[j - 1]);
                if rest[j - 1] != x {
                    let k = choose|k: int| 0 <= k < t2.len() && t2[k] == rest[j - 1];
                    assert(t[k + 1] == rest[j - 1]);
                }
            } else {
                assert(r[i] == rest[i - 1]);
                assert(r[j] == rest[j - 1]);
            }
        }
    } else if t.len() > 0 {
        let r = insert_desc(x, t);
        assert forall|i: int, j: int| 0 <= i < j < r.len() implies r[i].1 >= r[j].1 by {
            if i == 0 {
                assert(r[j] == t[j - 1]);
                assert(t[0].1 >= t[j - 1].1 || j == 1);
            } else {
                assert(r[i] == t[i - 1]);
                assert(r[j] == t[j - 1]);
            }
        }
    }
}

proof fn lemma_with_key_none_above(t: Seq<(u16, u16)>, k: u16)
    requires
        is_desc_by_high(t),
        t.len() > 0 ==> t[0].1 < k,
    ensures
        with_key(t, k) == Seq::<(u16, u16)>::empty(),
    decreases t.len(),
{
    if t.len() > 0 {
        let t2 = t.drop_first();
        assert(is_desc_by_high(t2)) by {
            assert forall|i: int, j: int| 0 <= i < j < t2.len() implies t2[i].1 >= t2[j].1 by {
                assert(t2[i] == t[i + 1] && t2[j] == t[j + 1]);
            }
        }
        if t2.len() > 0 {
            assert(t2[0] == t[1]);
            assert(t[0].1 >= t[1].1);
        }
        lemma_with_key_none_above(t2, k);
        assert(with_key(t, k) =~= Seq::<(u16, u16)>::empty() + with_key(t2, k));
    }
}

proof fn lemma_insert_desc_with_key(x: (u16, u16), t: Seq<(u16, u16)>, k: u16)
    requires
        is_desc_by_high(t),
    ensures
        with_key(insert_desc(x, t), k) == if k == x.1 {
            with_key(t, k).push(x)
        } else {
            with_key(t, k)
        },
    decreases t.len(),
{
    if t.len() == 0 {
        assert(with_key(seq![x], k) =~= (if x.1 == k {
            seq![x]
        } else {
            Seq::<(u16, u16)>::empty()
        }) + with_key(seq![x].drop_first(), k));
        assert(seq![x].drop_first() =~= Seq::<(u16, u16)>::empty());
        assert(with_key(t, k) =~= Seq::<(u16, u16)>::empty());
        if k == x.1 {
            assert(with_key(seq![x], k) =~= Seq::<(u16, u16)>::empty().push(x));
        } else {
            assert(with_key(seq![x], k) =~= Seq::<(u16, u16)>::empty());
        }
    } else if t[0].1 < x.1 {
        let r = seq![x] + t;
        assert(r.drop_first() =~= t);
        assert(r[0] == x);
        if k == x.1 {
            lemma_with_key_none_above(t, k);
            assert(with_key(r, k) =~= seq![x] + with_key(t, k));
            assert(with_key(t, k).push(x) =~= seq![x]);
        } else {
            assert(with_key(r, k) =~= Seq::<(u16, u16)>::empty() + with_key(t, k));
        }
    } else {
        let t2 = t.drop_first();
        assert(is_desc_by_high(t2)) by {
            assert forall|i: int, j: int| 0 <= i < j < t2.len() implies t2[i].1 >= t2[j].1 by {
                assert(t2[i] == t[i + 1] && t2[j] == t[j + 1]);
            }
        }
        lemma_insert_desc_with_key(x, t2, k);
        let r = seq![t[0]] + insert_desc(x, t2);
        assert(r.drop_first() =~= insert_desc(x, t2));
        assert(r[0] == t[0]);
        let head = if t[0].1 == k {
            seq![t[0]]
        } else {
            Seq::<(u16, u16)>::empty()
        };
        assert(with_key(r, k) == head + with_key(insert_desc(x, t2), k));
        assert(with_key(t, k) == head + with_key(t2, k));
        if k == x.1 {
            assert(head + with_key(t2, k).push(x) =~= (head + with_key(t2, k)).push(x));
        }
    }
}

proof fn lemma_with_key_push(s: Seq<(u16, u16)>, y: (u16, u16), k: u16)
    ensures
        with_key(s.push(y), k) == if y.1 == k {
            with_key(s, k).push(y)
        } else {
            with_key(s, k)
        },
    decreases s.len(),
{
    if s.len() == 0 {
        assert(s.push(y) =~= seq![y]);
        assert(seq![y].drop_first() =~= Seq::<(u16, u16)>::empty());
        assert(with_key(s, k) =~= Seq::<(u16, u16)>::empty());
        assert(with_key(Seq::<(u16, u16)>::empty(), k) =~= Seq::<(u16, u16)>::empty());
        assert(with_key(seq![y], k) =~= (if y.1 == k {
            seq![y]
        } else {
            Seq::<(u16, u16)>::empty()
        }) + with_key(seq![y].drop_first(), k));
        if y.1 == k {
            assert(with_key(seq![y], k) =~= Seq::<(u16, u16)>::empty().push(y));
        } else {
            assert(with_key(seq![y], k) =~= Seq::<(u16, u16)>::empty());
        }
    } else {
        lemma_with_key_push(s.drop_first(), y, k);
        assert(s.push(y).drop_first() =~= s.drop_first().push(y));
        assert(s.push(y)[0] == s[0]);
        let head = if s[0].1 == k {
            seq![s[0]]
        } else {
            Seq::<(u16, u16)>::empty()
        };
        if y.1 == k {
            assert(head + with_key(s.drop_first(), k).push(y) =~= (head + with_key(s.drop_first(), k)).push(y));
        }
    }
}

/// A stable sort by decreasing second component exists: insertion sort is one.
pub proof fn lemma_stable_desc_sort_exists(s: Seq<(u16, u16)>)
    ensures
        is_stable_desc_sort(s, insertion_sort_desc(s)),
        is_stable_desc_sort(s, spec_sort_high_desc(s)),
    decreases s.len(),
{
    if s.len() == 0 {
        assert(is_desc_by_high(insertion_sort_desc(s)));
    } else {
        let init = s.drop_last();
        lemma_stable_desc_sort_exists(init);
        let t = insertion_sort_desc(init);
        lemma_insert_desc_sorted(s.last(), t);
        assert forall|k: u16| #[trigger] with_key(insertion_sort_desc(s), k) == with_key(s, k) by {
            lemma_insert_desc_with_key(s.last(), t, k);
            lemma_with_key_push(init, s.last(), k);
            assert(init.push(s.last()) =~= s);
        }
    }
    assert(is_stable_desc_sort(s, insertion_sort_desc(s)));
}

/// Orders pairs by decreasing second component.
pub fn compare_high_desc(a: &(u16, u16), b: &(u16, u16)) -> (o: Ordering)
    ensures
        o == (if b.1 < a.1 {
            Ordering::Less
        } else if b.1 == a.1 {
            Ordering::Equal
        } else {
            Ordering::Greater
        }),
{
    if b.1 < a.1 {
        Ordering::Less
    } else if b.1 == a.1 {
        Ordering::Equal
    } else {
        Ordering::Greater
    }
}

/// Calls `Itertools::sorted_by` with `compare_high_desc`. Its documentation and source
/// (a `Vec` sorted with `slice::sort_by`, which is stable) give that the result is the
/// input stably sorted by decreasing second component.
#[verifier::external_body]
fn sorted_by_high_desc(v: Vec<(u16, u16)>) -> (r: Vec<(u16, u16)>)
    ensures
        is_stable_desc_sort(v@, r@),
{
    v.into_iter().sorted_by(|a, b| compare_high_desc(a, b)).collect()
}

/// `v` stably sorted by decreasing second component.
pub fn sort_high_desc(v: Vec<(u16, u16)>) -> (r: Vec<(u16, u16)>)
    ensures
        r@ == spec_sort_high_desc(v@),
        is_stable_desc_sort(v@, r@),
{
    let ghost input = v@;
    let r = sorted_by_high_desc(v);
    proof {
        let t = spec_sort_high_desc(input);
        assert(is_stable_desc_sort(input, t));
        lemma_stable_desc_sort_unique(input, r@, t);
    }
    r
}

/// Calls `Itertools::sorted`. Its documentation and source (a `Vec` sorted with
/// `slice::sort`) give that the result holds the same numbers, each as often, in
/// ascending order.
#[verifier::external_body]
fn itertools_sorted(v: Vec<u16>) -> (r: Vec<u16>)
    ensures
        r@.to_multiset() == v@.to_multiset(),
        is_ascending(r@),
{
    v.into_iter().sorted().collect()
}

/// The distinct numbers of `v`, in ascending order.
pub fn sorted_distinct(v: Vec<u16>) -> (r: Vec<u16>)
    ensures
        is_strictly_ascending(r@),
        forall|p: u16| r@.contains(p) <==> v@.contains(p),
{
    broadcast use group_to_multiset_ensures;

    let ghost input = v@;
    let s = itertools_sorted(v);
    assert forall|p: u16| s@.contains(p) <==> input.contains(p) by {
        assert(s@.contains(p) <==> s@.to_multiset().count(p) > 0);
        assert(input.contains(p) <==> input.to_multiset().count(p) > 0);
    }
    let mut r: Vec<u16> = Vec::new();
    let mut i: usize = 0;
    while i < s.len()
        invariant
            i <= s.len(),
            is_ascending(s@),
            is_strictly_ascending(r@),
            forall|p: u16| r@.contains(p) <==> s@.take(i as int).contains(p),
            r.len() > 0 ==> i > 0 && r@.last() == s@[i - 1],
        decreases s.len() - i,
    {
        let ghost old_r = r@;
        if r.len() == 0 || r[r.len() - 1] != s[i] {
            assert(r.len() > 0 ==> r@.last() < s@[i as int]);
            r.push(s[i]);
        }
        assert(s@.take(i + 1) =~= s@.take(i as int).push(s@[i as int]));
        assert forall|p: u16| r@.contains(p) <==> s@.take(i + 1).contains(p) by {
            if s@.take(i + 1).contains(p) && p != s@[i as int] {
                let j = choose|j: int| 0 <= j < i + 1 && #[trigger] s@.take(i + 1)[j] == p;
                assert(s@.take(i as int)[j] == p);
                assert(old_r.contains(p));
                let m = choose|m: int| 0 <= m < old_r.len() && old_r[m] == p;
                assert(r@[m] == p);
            }
            if r@.contains(p) {
                let m = choose|m: int| 0 <= m < r@.len() && r@[m] == p;
                if m < old_r.len() {
                    assert(old_r[m] == p);
                    assert(old_r.contains(p));
                    assert(s@.take(i as int).contains(p));
                    let j = choose|j: int| 0 <= j < i && #[trigger] s@.take(i as int)[j] == p;
                    assert(s@.take(i + 1)[j] == p);
                } else {
                    assert(s@.take(i + 1)[i as int] == p);
                }
            }
            if p == s@[i as int] {
                assert(s@.take(i + 1)[i as int] == p);
                if r@.last() == p {
                    assert(r@[r@.len() - 1] == p);
                }
            }
        }
        i = i + 1;
    }
    assert(s@.take(i as int) =~= s@);
    r
}

} // verus!
