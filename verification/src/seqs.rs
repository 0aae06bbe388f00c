use vstd::prelude::*;

verus! {

/// Number of elements of `s` that satisfy `p`.
pub open spec fn count_matching<A>(s: Seq<A>, p: spec_fn(A) -> bool) -> nat
    decreases s.len(),
{
    if s.len() == 0 {
        0
    } else {
        count_matching(s.drop_last(), p) + if p(s.last()) {
            1nat
        } else {
            0nat
        }
    }
}

/// The images under `f` of the elements of `s` that satisfy `p`, in order.
pub open spec fn kept_values<A, B>(s: Seq<A>, p: spec_fn(A) -> bool, f: spec_fn(A) -> B) -> Seq<B>
    decreases s.len(),
{
    if s.len() == 0 {
        Seq::empty()
    } else if p(s.last()) {
        kept_values(s.drop_last(), p, f).push(f(s.last()))
    } else {
        kept_values(s.drop_last(), p, f)
    }
}

/// Index in `s` of the `n`-th element (counting from 0) that satisfies `p`,
/// or -1 if fewer than `n + 1` elements do.
pub open spec fn nth_match<A>(s: Seq<A>, p: spec_fn(A) -> bool, n: int) -> int {
    if exists|i: int| 0 <= i < s.len() && p(s[i]) && count_matching(s.take(i), p) == n {
        choose|i: int| 0 <= i < s.len() && p(s[i]) && count_matching(s.take(i), p) == n
    } else {
        -1
    }
}

/// Index of the first element of `s` that satisfies `p`, or -1.
pub open spec fn first_match<A>(s: Seq<A>, p: spec_fn(A) -> bool) -> int {
    nth_match(s, p, 0)
}

pub proof fn lemma_count_step<A>(s: Seq<A>, p: spec_fn(A) -> bool, i: int)
    requires
        0 <= i < s.len(),
    ensures
        count_matching(s.take(i + 1), p) == count_matching(s.take(i), p) + if p(s[i]) {
            1nat
        } else {
            0nat
        },
{
    assert(s.take(i + 1).drop_last() =~= s.take(i));
}

pub proof fn lemma_count_le_len<A>(s: Seq<A>, p: spec_fn(A) -> bool)
    ensures
        count_matching(s, p) <= s.len(),
    decreases s.len(),
{
    if s.len() > 0 {
        lemma_count_le_len(s.drop_last(), p);
    }
}

/// Counting over a longer prefix counts at least as many, and one more past a match.
pub proof fn lemma_count_prefix_grows<A>(s: Seq<A>, p: spec_fn(A) -> bool, i: int, j: int)
    requires
        0 <= i < j <= s.len(),
    ensures
        count_matching(s.take(j), p) >= count_matching(s.take(i), p) + if p(s[i]) {
            1nat
        } else {
            0nat
        },
    decreases j - i,
{
    lemma_count_step(s, p, j - 1);
    if i < j - 1 {
        lemma_count_prefix_grows(s, p, i, j - 1);
    }
}

pub proof fn lemma_count_full<A>(s: Seq<A>, p: spec_fn(A) -> bool)
    ensures
        count_matching(s.take(s.len() as int), p) == count_matching(s, p),
{
    assert(s.take(s.len() as int) =~= s);
}

/// `i` is the `n`-th match when it matches and `n` matches come before it.
pub proof fn lemma_nth_match_is<A>(s: Seq<A>, p: spec_fn(A) -> bool, n: int, i: int)
    requires
        0 <= i < s.len(),
        p(s[i]),
        count_matching(s.take(i), p) == n,
    ensures
        nth_match(s, p, n) == i,
{
    let k = nth_match(s, p, n);
    assert(0 <= k < s.len() && p(s[k]) && count_matching(s.take(k), p) == n);
    if k < i {
        lemma_count_prefix_grows(s, p, k, i);
    } else if i < k {
        lemma_count_prefix_grows(s, p, i, k);
    }
}

/// There is no `n`-th match when at most `n` elements match.
pub proof fn lemma_nth_match_none<A>(s: Seq<A>, p: spec_fn(A) -> bool, n: int)
    requires
        count_matching(s, p) <= n,
    ensures
        nth_match(s, p, n) == -1,
{
    if exists|i: int| 0 <= i < s.len() && p(s[i]) && count_matching(s.take(i), p) == n {
        let i = choose|i: int| 0 <= i < s.len() && p(s[i]) && count_matching(s.take(i), p) == n;
        lemma_count_prefix_grows(s, p, i, s.len() as int);
        lemma_count_full(s, p);
    }
}

/// A found `n`-th match lies in range, matches, and has `n` matches before it.
pub proof fn lemma_nth_match_found<A>(s: Seq<A>, p: spec_fn(A) -> bool, n: int)
    requires
        nth_match(s, p, n) >= 0,
    ensures
        0 <= nth_match(s, p, n) < s.len(),
        p(s[nth_match(s, p, n)]),
        count_matching(s.take(nth_match(s, p, n)), p) == n,
{
}

/// No element before the first match satisfies `p`; with no match, none does.
pub proof fn lemma_first_match_prefix<A>(s: Seq<A>, p: spec_fn(A) -> bool)
    ensures
        first_match(s, p) >= 0 ==> forall|j: int| 0 <= j < first_match(s, p) ==> !p(#[trigger] s[j]),
        first_match(s, p) < 0 ==> forall|j: int| 0 <= j < s.len() ==> !p(#[trigger] s[j]),
{
    let k = first_match(s, p);
    if k >= 0 {
        assert forall|j: int| 0 <= j < k implies !p(#[trigger] s[j]) by {
            if p(s[j]) {
                lemma_count_prefix_grows(s, p, j, k);
            }
        }
    } else {
        assert forall|j: int| 0 <= j < s.len() implies !p(#[trigger] s[j]) by {
            if p(s[j]) {
                lemma_first_zero_count(s, p, j);
            }
        }
    }
}

proof fn lemma_first_zero_count<A>(s: Seq<A>, p: spec_fn(A) -> bool, j: int)
    requires
        0 <= j < s.len(),
        p(s[j]),
    ensures
        first_match(s, p) >= 0,
    decreases j,
{
    if count_matching(s.take(j), p) == 0 {
        lemma_nth_match_is(s, p, 0, j);
    } else {
        lemma_earlier_match(s, p, j);
        let m = choose|m: int| 0 <= m < j && p(s[m]);
        lemma_first_zero_count(s, p, m);
    }
}

proof fn lemma_earlier_match<A>(s: Seq<A>, p: spec_fn(A) -> bool, j: int)
    requires
        0 <= j <= s.len(),
        count_matching(s.take(j), p) > 0,
    ensures
        exists|m: int| 0 <= m < j && p(s[m]),
    decreases j,
{
    if j > 0 {
        lemma_count_step(s, p, j - 1);
        if !p(s[j - 1]) {
            lemma_earlier_match(s, p, j - 1);
        }
    } else {
        assert(s.take(0) =~= Seq::<A>::empty());
    }
}

/// The first match of a predicate that only looks at the element, found by a scan.
pub proof fn lemma_first_match_is<A>(s: Seq<A>, p: spec_fn(A) -> bool, i: int)
    requires
        0 <= i < s.len(),
        p(s[i]),
        forall|j: int| 0 <= j < i ==> !p(#[trigger] s[j]),
    ensures
        first_match(s, p) == i,
{
    lemma_count_zero(s, p, i);
    lemma_nth_match_is(s, p, 0, i);
}

pub proof fn lemma_first_match_none<A>(s: Seq<A>, p: spec_fn(A) -> bool)
    requires
        forall|j: int| 0 <= j < s.len() ==> !p(#[trigger] s[j]),
    ensures
        first_match(s, p) == -1,
{
    lemma_count_zero(s, p, s.len() as int);
    lemma_count_full(s, p);
    lemma_nth_match_none(s, p, 0);
}

pub proof fn lemma_count_zero<A>(s: Seq<A>, p: spec_fn(A) -> bool, i: int)
    requires
        0 <= i <= s.len(),
        forall|j: int| 0 <= j < i ==> !p(#[trigger] s[j]),
    ensures
        count_matching(s.take(i), p) == 0,
    decreases i,
{
    if i > 0 {
        lemma_count_step(s, p, i - 1);
        lemma_count_zero(s, p, i - 1);
    } else {
        assert(s.take(0) =~= Seq::<A>::empty());
    }
}

/// Predicates that agree element by element on two sequences of equal length
/// have their first match at the same index.
pub proof fn lemma_first_match_congruent<A, B>(
    a: Seq<A>,
    pa: spec_fn(A) -> bool,
    b: Seq<B>,
    pb: spec_fn(B) -> bool,
)
    requires
        a.len() == b.len(),
        forall|i: int| 0 <= i < a.len() ==> pa(#[trigger] a[i]) == pb(b[i]),
    ensures
        first_match(a, pa) == first_match(b, pb),
{
    lemma_first_match_prefix(a, pa);
    lemma_first_match_prefix(b, pb);
    let ka = first_match(a, pa);
    let kb = first_match(b, pb);
    if ka >= 0 {
        lemma_nth_match_found(a, pa, 0);
        assert(pb(b[ka]));
        assert forall|j: int| 0 <= j < ka implies !pb(#[trigger] b[j]) by {
            assert(!pa(a[j]));
        }
        lemma_first_match_is(b, pb, ka);
    } else {
        assert forall|j: int| 0 <= j < b.len() implies !pb(#[trigger] b[j]) by {
            assert(!pa(a[j]));
        }
        lemma_first_match_none(b, pb);
    }
}

/// The kept values number as many as the matching elements.
pub proof fn lemma_kept_len<A, B>(s: Seq<A>, p: spec_fn(A) -> bool, f: spec_fn(A) -> B)
    ensures
        kept_values(s, p, f).len() == count_matching(s, p),
    decreases s.len(),
{
    if s.len() > 0 {
        lemma_kept_len(s.drop_last(), p, f);
    }
}

pub proof fn lemma_kept_step<A, B>(s: Seq<A>, p: spec_fn(A) -> bool, f: spec_fn(A) -> B, i: int)
    requires
        0 <= i < s.len(),
    ensures
        kept_values(s.take(i + 1), p, f) == if p(s[i]) {
            kept_values(s.take(i), p, f).push(f(s[i]))
        } else {
            kept_values(s.take(i), p, f)
        },
{
    assert(s.take(i + 1).drop_last() =~= s.take(i));
}

pub proof fn lemma_kept_full<A, B>(s: Seq<A>, p: spec_fn(A) -> bool, f: spec_fn(A) -> B)
    ensures
        kept_values(s.take(s.len() as int), p, f) == kept_values(s, p, f),
{
    assert(s.take(s.len() as int) =~= s);
}

/// Keeping distributes over concatenation.
pub proof fn lemma_kept_concat<A, B>(a: Seq<A>, b: Seq<A>, p: spec_fn(A) -> bool, f: spec_fn(A) -> B)
    ensures
        kept_values(a + b, p, f) == kept_values(a, p, f) + kept_values(b, p, f),
    decreases b.len(),
{
    if b.len() == 0 {
        assert(a + b =~= a);
        assert(kept_values(a, p, f) + kept_values(b, p, f) =~= kept_values(a, p, f));
    } else {
        lemma_kept_concat(a, b.drop_last(), p, f);
        assert((a + b).drop_last() =~= a + b.drop_last());
        assert((a + b).last() == b.last());
        if p(b.last()) {
            assert(kept_values(a, p, f) + kept_values(b.drop_last(), p, f).push(f(b.last()))
                =~= (kept_values(a, p, f) + kept_values(b.drop_last(), p, f)).push(f(b.last())));
        }
    }
}

/// Counting distributes over concatenation.
pub proof fn lemma_count_concat<A>(a: Seq<A>, b: Seq<A>, p: spec_fn(A) -> bool)
    ensures
        count_matching(a + b, p) == count_matching(a, p) + count_matching(b, p),
    decreases b.len(),
{
    if b.len() == 0 {
        assert(a + b =~= a);
    } else {
        lemma_count_concat(a, b.drop_last(), p);
        assert((a + b).drop_last() =~= a + b.drop_last());
    }
}

/// Replacing a matching element by one that does not match removes its value
/// from the kept values, at the position given by the matches before it.
pub proof fn lemma_kept_unmark<A, B>(
    s: Seq<A>,
    p: spec_fn(A) -> bool,
    f: spec_fn(A) -> B,
    k: int,
    x: A,
)
    requires
        0 <= k < s.len(),
        p(s[k]),
        !p(x),
    ensures
        kept_values(s.update(k, x), p, f) == kept_values(s, p, f).remove(
            count_matching(s.take(k), p) as int,
        ),
        count_matching(s.update(k, x), p) + 1 == count_matching(s, p),
{
    let t = s.update(k, x);
    assert(s =~= s.take(k) + (seq![s[k]] + s.skip(k + 1)));
    assert(t =~= s.take(k) + (seq![x] + s.skip(k + 1)));
    lemma_kept_concat(s.take(k), seq![s[k]] + s.skip(k + 1), p, f);
    lemma_kept_concat(seq![s[k]], s.skip(k + 1), p, f);
    lemma_kept_concat(s.take(k), seq![x] + s.skip(k + 1), p, f);
    lemma_kept_concat(seq![x], s.skip(k + 1), p, f);
    lemma_count_concat(s.take(k), seq![s[k]] + s.skip(k + 1), p);
    lemma_count_concat(seq![s[k]], s.skip(k + 1), p);
    lemma_count_concat(s.take(k), seq![x] + s.skip(k + 1), p);
    lemma_count_concat(seq![x], s.skip(k + 1), p);
    assert(seq![s[k]].drop_last() =~= Seq::<A>::empty());
    assert(seq![x].drop_last() =~= Seq::<A>::empty());
    lemma_kept_len(s.take(k), p, f);
    let a = kept_values(s.take(k), p, f);
    let c = kept_values(s.skip(k + 1), p, f);
    assert(seq![s[k]].last() == s[k]);
    assert(kept_values(seq![s[k]].drop_last(), p, f) =~= Seq::<B>::empty());
    assert(kept_values(seq![s[k]], p, f) =~= seq![f(s[k])]);
    assert(kept_values(seq![x], p, f) =~= Seq::<B>::empty());
    assert((a + (seq![f(s[k])] + c)).remove(a.len() as int) =~= a + (Seq::<B>::empty() + c));
}

/// Every kept element (kept as itself) is an element of the sequence.
pub proof fn lemma_kept_members<A>(s: Seq<A>, p: spec_fn(A) -> bool, f: spec_fn(A) -> A)
    requires
        forall|x: A| #[trigger] f(x) == x,
    ensures
        forall|x: A| #[trigger] kept_values(s, p, f).contains(x) ==> s.contains(x),
    decreases s.len(),
{
    if s.len() > 0 {
        let d = s.drop_last();
        lemma_kept_members(d, p, f);
        let kd = kept_values(d, p, f);
        assert forall|x: A| kept_values(s, p, f).contains(x) implies s.contains(x) by {
            let k = kept_values(s, p, f);
            let i = choose|i: int| 0 <= i < k.len() && k[i] == x;
            if p(s.last()) {
                assert(k == kd.push(f(s.last())));
                if i == kd.len() {
                    assert(f(s.last()) == s.last());
                    assert(s[s.len() - 1] == x);
                } else {
                    assert(kd[i] == x);
                    assert(kd.contains(x));
                    let j = choose|j: int| 0 <= j < d.len() && d[j] == x;
                    assert(s[j] == d[j]);
                }
            } else {
                assert(k == kd);
                assert(kd[i] == x);
                assert(kd.contains(x));
                let j = choose|j: int| 0 <= j < d.len() && d[j] == x;
                assert(s[j] == d[j]);
            }
        }
    }
}

/// With more than `n` matches, there is an `n`-th match.
pub proof fn lemma_nth_match_exists<A>(s: Seq<A>, p: spec_fn(A) -> bool, n: int)
    requires
        0 <= n < count_matching(s, p),
    ensures
        nth_match(s, p, n) >= 0,
    decreases s.len(),
{
    let d = s.drop_last();
    if n < count_matching(d, p) {
        lemma_nth_match_exists(d, p, n);
        lemma_nth_match_found(d, p, n);
        let i = nth_match(d, p, n);
        assert(s.take(i) =~= d.take(i));
        assert(s[i] == d[i]);
        lemma_nth_match_is(s, p, n, i);
    } else {
        let i = s.len() - 1;
        assert(s.take(i) =~= d);
        lemma_nth_match_is(s, p, n, i);
    }
}

} // verus!
