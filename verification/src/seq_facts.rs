//! Facts about `Seq::filter` that the registries and the world rely on.
use vstd::prelude::*;

verus! {

broadcast use vstd::seq_lib::group_seq_properties;

/// Filtering keeps a sequence whole when every element passes.
pub proof fn lemma_filter_all<A>(s: Seq<A>, p: spec_fn(A) -> bool)
    requires
        forall|k: int| 0 <= k < s.len() ==> p(#[trigger] s[k]),
    ensures
        s.filter(p) == s,
    decreases s.len(),
{
    if s.len() > 0 {
        let init = s.drop_last();
        assert forall|k: int| 0 <= k < init.len() implies p(#[trigger] init[k]) by {
            assert(init[k] == s[k]);
        }
        lemma_filter_all(init, p);
        init.lemma_filter_push(s.last(), p);
        assert(init.push(s.last()) =~= s);
    }
}

/// Filtering drops a sequence whole when no element passes.
pub proof fn lemma_filter_none<A>(s: Seq<A>, p: spec_fn(A) -> bool)
    requires
        forall|k: int| 0 <= k < s.len() ==> !p(#[trigger] s[k]),
    ensures
        s.filter(p) == Seq::<A>::empty(),
    decreases s.len(),
{
    if s.len() > 0 {
        let init = s.drop_last();
        assert forall|k: int| 0 <= k < init.len() implies !p(#[trigger] init[k]) by {
            assert(init[k] == s[k]);
        }
        lemma_filter_none(init, p);
        init.lemma_filter_push(s.last(), p);
        assert(init.push(s.last()) =~= s);
    }
}

/// When exactly the element at `i` fails the predicate, filtering removes it.
pub proof fn lemma_filter_removes_one<A>(s: Seq<A>, p: spec_fn(A) -> bool, i: int)
    requires
        0 <= i < s.len(),
        !p(s[i]),
        forall|k: int| 0 <= k < s.len() && k != i ==> p(#[trigger] s[k]),
    ensures
        s.filter(p) == s.remove(i),
{
    let a = s.subrange(0, i);
    let b = s.subrange(i, i + 1);
    let c = s.subrange(i + 1, s.len() as int);
    assert(s =~= a + b + c);
    Seq::filter_distributes_over_add(a + b, c, p);
    Seq::filter_distributes_over_add(a, b, p);
    assert forall|k: int| 0 <= k < a.len() implies p(#[trigger] a[k]) by {
        assert(a[k] == s[k]);
    }
    assert forall|k: int| 0 <= k < c.len() implies p(#[trigger] c[k]) by {
        assert(c[k] == s[k + i + 1]);
    }
    assert forall|k: int| 0 <= k < b.len() implies !p(#[trigger] b[k]) by {
        assert(b[k] == s[i]);
    }
    lemma_filter_all(a, p);
    lemma_filter_all(c, p);
    lemma_filter_none(b, p);
    assert(s.remove(i) =~= a + c);
}

/// Filtering twice is filtering by both predicates.
pub proof fn lemma_filter_filter<A>(s: Seq<A>, f: spec_fn(A) -> bool, g: spec_fn(A) -> bool)
    ensures
        s.filter(f).filter(g) == s.filter(|x: A| f(x) && g(x)),
    decreases s.len(),
{
    let fg = |x: A| f(x) && g(x);
    if s.len() == 0 {
        lemma_filter_none(s, f);
        lemma_filter_none(s, fg);
        lemma_filter_none(s.filter(f), g);
    } else {
        let init = s.drop_last();
        let x = s.last();
        assert(init.push(x) =~= s);
        lemma_filter_filter(init, f, g);
        init.lemma_filter_push(x, f);
        init.lemma_filter_push(x, fg);
        if f(x) {
            init.filter(f).lemma_filter_push(x, g);
        }
    }
}

/// Predicates that agree on every element filter alike.
pub proof fn lemma_filter_congruent<A>(s: Seq<A>, p: spec_fn(A) -> bool, q: spec_fn(A) -> bool)
    requires
        forall|k: int| 0 <= k < s.len() ==> p(#[trigger] s[k]) == q(s[k]),
    ensures
        s.filter(p) == s.filter(q),
    decreases s.len(),
{
    if s.len() == 0 {
        lemma_filter_none(s, p);
        lemma_filter_none(s, q);
    } else {
        let init = s.drop_last();
        assert forall|k: int| 0 <= k < init.len() implies p(#[trigger] init[k]) == q(init[k]) by {
            assert(init[k] == s[k]);
        }
        lemma_filter_congruent(init, p, q);
        init.lemma_filter_push(s.last(), p);
        init.lemma_filter_push(s.last(), q);
        assert(init.push(s.last()) =~= s);
    }
}

/// Everything a filter keeps comes from the filtered sequence and passes.
pub proof fn lemma_filter_member<A>(s: Seq<A>, p: spec_fn(A) -> bool, k: int)
    requires
        0 <= k < s.filter(p).len(),
    ensures
        s.contains(s.filter(p)[k]),
        p(s.filter(p)[k]),
{
    broadcast use vstd::seq_lib::group_filter_ensures;

    assert(s.filter(p).contains(s.filter(p)[k]));
    s.lemma_filter_contains_rev(p, s.filter(p)[k]);
}

} // verus!
