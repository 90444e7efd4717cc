use vstd::prelude::*;

verus! {

broadcast use {vstd::seq_lib::group_to_multiset_ensures, vstd::seq_lib::group_seq_lib_default};

/// Whether the entries of `s` come in nondecreasing order of rank.
pub open spec fn sorted_by_rank<T>(s: Seq<(T, u64)>) -> bool {
    forall|i: int, j: int| 0 <= i < j < s.len() ==> (#[trigger] s[i]).1 <= (#[trigger] s[j]).1
}

/// Whether an entry has rank `r`.
pub open spec fn has_rank<T>(r: u64) -> spec_fn((T, u64)) -> bool {
    |e: (T, u64)| e.1 == r
}

/// `out` is `inp` stably sorted by rank: its ranks never decrease, and the
/// entries of any one rank come in the order they had in `inp`.
pub open spec fn is_stable_sort<T>(out: Seq<(T, u64)>, inp: Seq<(T, u64)>) -> bool {
    &&& sorted_by_rank(out)
    &&& forall|r: u64| #[trigger] out.filter(has_rank(r)) == inp.filter(has_rank(r))
}

/// The stable sort by rank of `s`: the one sequence `o` with
/// `is_stable_sort(o, s)`.
pub open spec fn stable_sort_by_rank<T>(s: Seq<(T, u64)>) -> Seq<(T, u64)> {
    choose|o: Seq<(T, u64)>| is_stable_sort(o, s)
}

/// The last entry of a sequence sorted by rank has the greatest rank.
proof fn lemma_last_is_max<T>(a: Seq<(T, u64)>, i: int)
    requires
        sorted_by_rank(a),
        0 <= i < a.len(),
    ensures
        a[i].1 <= a.last().1,
{
    if i < a.len() - 1 {
        assert(a[i].1 <= a[a.len() - 1].1);
    }
}

/// Filtering by a rank that some entry has gives a nonempty result.
proof fn lemma_rank_present<T>(a: Seq<(T, u64)>, i: int)
    requires
        0 <= i < a.len(),
    ensures
        a.filter(has_rank(a[i].1)).len() > 0,
{
    crate::seq_facts::lemma_filter_nonempty(a, has_rank(a[i].1));
    assert(has_rank::<T>(a[i].1)(a[i]));
}

/// Two sequences with the same entries of each rank, both sorted by rank,
/// are equal.
pub proof fn lemma_sorted_by_rank_unique<T>(a: Seq<(T, u64)>, b: Seq<(T, u64)>)
    requires
        sorted_by_rank(a),
        sorted_by_rank(b),
        forall|r: u64| #[trigger] a.filter(has_rank(r)) == b.filter(has_rank(r)),
    ensures
        a == b,
    decreases a.len() + b.len(),
{
    if a.len() == 0 && b.len() == 0 {
        assert(a =~= b);
    } else if a.len() == 0 {
        lemma_rank_present(b, 0);
        crate::seq_facts::lemma_filter_none(a, has_rank(b[0].1));
        assert(a.filter(has_rank(b[0].1)) == b.filter(has_rank(b[0].1)));
    } else if b.len() == 0 {
        lemma_rank_present(a, 0);
        crate::seq_facts::lemma_filter_none(b, has_rank(a[0].1));
        assert(a.filter(has_rank(a[0].1)) == b.filter(has_rank(a[0].1)));
    } else {
        let ra = a.last().1;
        let rb = b.last().1;
        lemma_rank_present(a, a.len() - 1);
        lemma_rank_present(b, b.len() - 1);
        // Every rank of b is at most rb, and ra occurs in b, so ra <= rb; and symmetrically.
        assert(ra <= rb) by {
            assert(b.filter(has_rank(ra)) == a.filter(has_rank(ra)));
            crate::seq_facts::lemma_filter_nonempty(b, has_rank(ra));
            let j = choose|j: int| 0 <= j < b.len() && has_rank::<T>(ra)(#[trigger] b[j]);
            lemma_last_is_max(b, j);
        }
        assert(rb <= ra) by {
            assert(a.filter(has_rank(rb)) == b.filter(has_rank(rb)));
            crate::seq_facts::lemma_filter_nonempty(a, has_rank(rb));
            let j = choose|j: int| 0 <= j < a.len() && has_rank::<T>(rb)(#[trigger] a[j]);
            lemma_last_is_max(a, j);
        }
        let a0 = a.drop_last();
        let b0 = b.drop_last();
        assert(a0.push(a.last()) =~= a);
        assert(b0.push(b.last()) =~= b);
        crate::seq_facts::lemma_filter_push(a0, a.last(), has_rank(ra));
        crate::seq_facts::lemma_filter_push(b0, b.last(), has_rank(ra));
        assert(a.last() == b.last()) by {
            assert(a.filter(has_rank(ra)) == b.filter(has_rank(ra)));
            assert(a.filter(has_rank(ra)).last() == a.last());
        }
        assert forall|r: u64| #[trigger] a0.filter(has_rank(r)) == b0.filter(has_rank(r)) by {
            crate::seq_facts::lemma_filter_push(a0, a.last(), has_rank(r));
            crate::seq_facts::lemma_filter_push(b0, b.last(), has_rank(r));
            assert(a.filter(has_rank(r)) == b.filter(has_rank(r)));
            if r == ra {
                assert(a0.filter(has_rank(r)) =~= a.filter(has_rank(r)).drop_last());
                assert(b0.filter(has_rank(r)) =~= b.filter(has_rank(r)).drop_last());
            }
        }
        assert(sorted_by_rank(a0));
        assert(sorted_by_rank(b0));
        lemma_sorted_by_rank_unique(a0, b0);
    }
}

/// A sequence has exactly one stable sort by rank.
pub proof fn lemma_stable_sort_unique<T>(o1: Seq<(T, u64)>, o2: Seq<(T, u64)>, s: Seq<(T, u64)>)
    requires
        is_stable_sort(o1, s),
        is_stable_sort(o2, s),
    ensures
        o1 == o2,
{
    assert forall|r: u64| #[trigger] o1.filter(has_rank(r)) == o2.filter(has_rank(r)) by {
        assert(o1.filter(has_rank(r)) == s.filter(has_rank(r)));
        assert(o2.filter(has_rank(r)) == s.filter(has_rank(r)));
    }
    lemma_sorted_by_rank_unique(o1, o2);
}

/// Replaces the first component of each entry by its image under `f`.
pub open spec fn map_first<T, U>(s: Seq<(T, u64)>, f: spec_fn(T) -> U) -> Seq<(U, u64)> {
    s.map_values(|e: (T, u64)| (f(e.0), e.1))
}

/// Filtering by rank commutes with `map_first`.
proof fn lemma_filter_map_first<T, U>(s: Seq<(T, u64)>, f: spec_fn(T) -> U, r: u64)
    ensures
        map_first(s, f).filter(has_rank(r)) == map_first(s.filter(has_rank(r)), f),
    decreases s.len(),
{
    if s.len() == 0 {
        crate::seq_facts::lemma_filter_none(s, has_rank(r));
        crate::seq_facts::lemma_filter_none(map_first(s, f), has_rank(r));
        assert(map_first(s.filter(has_rank(r)), f) =~= Seq::<(U, u64)>::empty());
    } else {
        let s0 = s.drop_last();
        lemma_filter_map_first(s0, f, r);
        assert(s0.push(s.last()) =~= s);
        assert(map_first(s, f) =~= map_first(s0, f).push((f(s.last().0), s.last().1)));
        crate::seq_facts::lemma_filter_push(s0, s.last(), has_rank(r));
        crate::seq_facts::lemma_filter_push(
            map_first(s0, f),
            (f(s.last().0), s.last().1),
            has_rank(r),
        );
        if s.last().1 == r {
            assert(map_first(s0.filter(has_rank(r)).push(s.last()), f) =~= map_first(
                s0.filter(has_rank(r)),
                f,
            ).push((f(s.last().0), s.last().1)));
        }
    }
}

/// Sorting by rank commutes with changing what the entries carry.
pub proof fn lemma_stable_sort_map_first<T, U>(s: Seq<(T, u64)>, f: spec_fn(T) -> U)
    ensures
        stable_sort_by_rank(map_first(s, f)) == map_first(stable_sort_by_rank(s), f),
{
    lemma_stable_sort_exists(s);
    let o = stable_sort_by_rank(s);
    let mo = map_first(o, f);
    assert forall|r: u64| #[trigger] mo.filter(has_rank(r)) == map_first(s, f).filter(
        has_rank(r),
    ) by {
        lemma_filter_map_first(o, f, r);
        lemma_filter_map_first(s, f, r);
        assert(o.filter(has_rank(r)) == s.filter(has_rank(r)));
    }
    assert(is_stable_sort(mo, map_first(s, f)));
    lemma_stable_sort_unique(stable_sort_by_rank(map_first(s, f)), mo, map_first(s, f));
}

/// Inserting an entry behind every entry of rank at most its own keeps
/// the filters of the other ranks and extends that of its own rank.
proof fn lemma_insert_filter<T>(s: Seq<(T, u64)>, p: int, x: (T, u64), r: u64)
    requires
        0 <= p <= s.len(),
        forall|j: int| p <= j < s.len() ==> (#[trigger] s[j]).1 > x.1,
    ensures
        s.insert(p, x).filter(has_rank(r)) == (if x.1 == r {
            s.filter(has_rank(r)).push(x)
        } else {
            s.filter(has_rank(r))
        }),
{
    let a = s.take(p);
    let b = s.skip(p);
    assert(s =~= a + b);
    assert(s.insert(p, x) =~= (a + seq![x]) + b);
    if x.1 == r {
        assert forall|j: int| 0 <= j < b.len() implies !has_rank::<T>(r)(#[trigger] b[j]) by {
            assert(b[j] == s[p + j]);
        }
        crate::seq_facts::lemma_filter_none(b, has_rank(r));
        crate::seq_facts::lemma_filter_push(a, x, has_rank(r));
        assert(a.push(x) =~= a + seq![x]);
        assert((a + b).filter(has_rank(r)) =~= a.filter(has_rank(r)));
        assert(((a + seq![x]) + b).filter(has_rank(r)) =~= a.filter(has_rank(r)).push(x));
    } else {
        crate::seq_facts::lemma_filter_push(a, x, has_rank(r));
        assert(a.push(x) =~= a + seq![x]);
    }
}

/// Inserting an entry just behind every entry of rank at most its own keeps
/// a sequence sorted by rank.
proof fn lemma_insert_sorted<T>(o: Seq<(T, u64)>, p: int, x: (T, u64))
    requires
        sorted_by_rank(o),
        0 <= p <= o.len(),
        forall|j: int| 0 <= j < p ==> (#[trigger] o[j]).1 <= x.1,
        forall|j: int| p <= j < o.len() ==> (#[trigger] o[j]).1 > x.1,
    ensures
        sorted_by_rank(o.insert(p, x)),
{
    let s = o.insert(p, x);
    assert forall|a: int, b: int| 0 <= a < b < s.len() implies (#[trigger] s[a]).1 <= (
    #[trigger] s[b]).1 by {
        if b < p {
            assert(s[a] == o[a] && s[b] == o[b]);
        } else if b == p {
            assert(s[a] == o[a]);
        } else if a < p {
            assert(s[a] == o[a] && s[b] == o[b - 1]);
        } else if a == p {
            assert(s[b] == o[b - 1]);
        } else {
            assert(s[a] == o[a - 1] && s[b] == o[b - 1]);
        }
    }
}

/// Where an entry of rank `k` goes into `o`: behind the last entry of rank
/// at most `k`.
pub open spec fn insertion_point<T>(o: Seq<(T, u64)>, k: u64) -> int
    decreases o.len(),
{
    if o.len() == 0 {
        0
    } else if o.last().1 > k {
        insertion_point(o.drop_last(), k)
    } else {
        o.len() as int
    }
}

proof fn lemma_insertion_point<T>(o: Seq<(T, u64)>, k: u64)
    requires
        sorted_by_rank(o),
    ensures
        0 <= insertion_point(o, k) <= o.len(),
        forall|j: int| 0 <= j < insertion_point(o, k) ==> (#[trigger] o[j]).1 <= k,
        forall|j: int| insertion_point(o, k) <= j < o.len() ==> (#[trigger] o[j]).1 > k,
    decreases o.len(),
{
    if o.len() > 0 {
        let o0 = o.drop_last();
        assert(sorted_by_rank(o0));
        lemma_insertion_point(o0, k);
        if o.last().1 <= k {
            assert forall|j: int| 0 <= j < o.len() implies (#[trigger] o[j]).1 <= k by {
                if j < o.len() - 1 {
                    assert(o[j].1 <= o[o.len() - 1].1);
                }
            }
        } else {
            assert forall|j: int| insertion_point(o, k) <= j < o.len() implies (#[trigger] o[j]).1
                > k by {
                if j < o.len() - 1 {
                    assert(o0[j] == o[j]);
                }
            }
            assert forall|j: int| 0 <= j < insertion_point(o, k) implies (#[trigger] o[j]).1
                <= k by {
                assert(o0[j] == o[j]);
            }
        }
    }
}

/// Every sequence has a stable sort by rank, and it has the same length.
pub proof fn lemma_stable_sort_exists<T>(s: Seq<(T, u64)>)
    ensures
        is_stable_sort(stable_sort_by_rank(s), s),
        stable_sort_by_rank(s).len() == s.len(),
    decreases s.len(),
{
    if s.len() == 0 {
        assert(is_stable_sort(s, s));
        lemma_stable_sort_unique(stable_sort_by_rank(s), s, s);
    } else {
        let s0 = s.drop_last();
        let x = s.last();
        lemma_stable_sort_exists(s0);
        let o = stable_sort_by_rank(s0);
        lemma_insertion_point(o, x.1);
        let p = insertion_point(o, x.1);
        lemma_insert_sorted(o, p, x);
        assert(s0.push(x) =~= s);
        assert forall|r: u64| #[trigger] o.insert(p, x).filter(has_rank(r)) == s.filter(
            has_rank(r),
        ) by {
            lemma_insert_filter(o, p, x, r);
            crate::seq_facts::lemma_filter_push(s0, x, has_rank(r));
            assert(o.filter(has_rank(r)) == s0.filter(has_rank(r)));
        }
        assert(is_stable_sort(o.insert(p, x), s));
        lemma_stable_sort_unique(stable_sort_by_rank(s), o.insert(p, x), s);
    }
}

/// The stable sort by rank holds exactly the entries of the sequence.
pub proof fn lemma_stable_sort_members<T>(s: Seq<(T, u64)>)
    ensures
        forall|i: int|
            0 <= i < stable_sort_by_rank(s).len() ==> s.contains(
                #[trigger] stable_sort_by_rank(s)[i],
            ),
        forall|i: int| 0 <= i < s.len() ==> stable_sort_by_rank(s).contains(#[trigger] s[i]),
{
    lemma_stable_sort_exists(s);
    let o = stable_sort_by_rank(s);
    assert forall|i: int| 0 <= i < o.len() implies s.contains(#[trigger] o[i]) by {
        let pred = has_rank::<T>(o[i].1);
        o.lemma_filter_contains(pred, i);
        assert(o.filter(pred) == s.filter(pred));
        s.lemma_filter_contains_rev(pred, o[i]);
    }
    assert forall|i: int| 0 <= i < s.len() implies o.contains(#[trigger] s[i]) by {
        let pred = has_rank::<T>(s[i].1);
        s.lemma_filter_contains(pred, i);
        assert(o.filter(pred) == s.filter(pred));
        o.lemma_filter_contains_rev(pred, s[i]);
    }
}

/// Sorts entries by rank, keeping entries of equal rank in their order.
pub fn sort_by_rank<T>(v: Vec<(T, u64)>) -> (out: Vec<(T, u64)>)
    ensures
        is_stable_sort(out@, v@),
        out@ == stable_sort_by_rank(v@),
        out@.to_multiset() == v@.to_multiset(),
        out@.len() == v@.len(),
{
    let ghost inp = v@;
    let mut rest = v;
    let mut out: Vec<(T, u64)> = Vec::new();
    let n = rest.len();
    let mut i: usize = 0;
    while i < n
        invariant
            n == inp.len(),
            0 <= i <= n,
            rest@ == inp.skip(i as int),
            sorted_by_rank(out@),
            out@.len() == i,
            forall|r: u64| #[trigger] out@.filter(has_rank(r)) == inp.take(i as int).filter(has_rank(r)),
            out@.to_multiset() == inp.take(i as int).to_multiset(),
        decreases n - i,
    {
        let x = rest.remove(0);
        let ghost old_out = out@;
        proof {
            assert(x == inp[i as int]);
            assert(rest@ =~= inp.skip(i + 1));
            crate::seq_facts::lemma_take_succ(inp, i as int);
        }
        let k = x.1;
        let mut p = out.len();
        while p > 0 && out[p - 1].1 > k
            invariant
                0 <= p <= out@.len(),
                out@ == old_out,
                forall|j: int| p <= j < out@.len() ==> (#[trigger] out@[j]).1 > k,
            decreases p,
        {
            p = p - 1;
        }
        proof {
            assert forall|r: u64| #[trigger] old_out.insert(p as int, x).filter(has_rank(r))
                == inp.take(i + 1).filter(has_rank(r)) by {
                lemma_insert_filter(old_out, p as int, x, r);
                crate::seq_facts::lemma_filter_push(inp.take(i as int), x, has_rank(r));
                assert(old_out.filter(has_rank(r)) == inp.take(i as int).filter(has_rank(r)));
            }
        }
        proof {
            assert forall|j: int| 0 <= j < p implies (#[trigger] old_out[j]).1 <= k by {
                if j < p - 1 {
                    assert(old_out[j].1 <= old_out[p - 1].1);
                }
            }
            lemma_insert_sorted(old_out, p as int, x);
        }
        out.insert(p, x);
        i = i + 1;
    }
    proof {
        assert(inp.take(n as int) =~= inp);
        assert(is_stable_sort(out@, inp));
        let o = stable_sort_by_rank(inp);
        lemma_stable_sort_unique(o, out@, inp);
    }
    out
}

} // verus!
