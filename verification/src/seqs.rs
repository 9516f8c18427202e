//! Facts about filtered and flattened sequences.

use vstd::prelude::*;

verus! {

/// A filter keeps a sequence whose elements all pass.
pub proof fn lemma_filter_keeps_all<A>(s: Seq<A>, pred: spec_fn(A) -> bool)
    requires
        forall|i: int| 0 <= i < s.len() ==> pred(#[trigger] s[i]),
    ensures
        s.filter(pred) == s,
    decreases s.len(),
{
    reveal(Seq::filter);
    if s.len() > 0 {
        let rest = s.drop_last();
        assert forall|i: int| 0 <= i < rest.len() implies pred(#[trigger] rest[i]) by {
            assert(rest[i] == s[i]);
        }
        lemma_filter_keeps_all(rest, pred);
        assert(pred(s[s.len() - 1]));
        assert(rest.push(s.last()) =~= s);
    } else {
        assert(s.filter(pred) =~= s);
    }
}

/// A filter empties a sequence whose elements all fail.
pub proof fn lemma_filter_keeps_none<A>(s: Seq<A>, pred: spec_fn(A) -> bool)
    requires
        forall|i: int| 0 <= i < s.len() ==> !pred(#[trigger] s[i]),
    ensures
        s.filter(pred) == Seq::<A>::empty(),
    decreases s.len(),
{
    reveal(Seq::filter);
    if s.len() > 0 {
        let rest = s.drop_last();
        assert forall|i: int| 0 <= i < rest.len() implies !pred(#[trigger] rest[i]) by {
            assert(rest[i] == s[i]);
        }
        lemma_filter_keeps_none(rest, pred);
        assert(!pred(s[s.len() - 1]));
    } else {
        assert(s.filter(pred) =~= Seq::<A>::empty());
    }
}

/// Filtering twice is filtering once.
pub proof fn lemma_filter_twice<A>(s: Seq<A>, pred: spec_fn(A) -> bool)
    ensures
        s.filter(pred).filter(pred) == s.filter(pred),
{
    assert forall|i: int| 0 <= i < s.filter(pred).len() implies pred(
        #[trigger] s.filter(pred)[i],
    ) by {
        s.lemma_filter_pred(pred, i);
    }
    lemma_filter_keeps_all(s.filter(pred), pred);
}

/// Two sequences whose elements pass or fail alike, and are mapped alike
/// where they pass, are alike once filtered and mapped.
pub proof fn lemma_filter_map_alike<A, B, C>(
    s: Seq<A>,
    t: Seq<B>,
    p: spec_fn(A) -> bool,
    q: spec_fn(B) -> bool,
    f: spec_fn(A) -> C,
    g: spec_fn(B) -> C,
)
    requires
        s.len() == t.len(),
        forall|i: int| 0 <= i < s.len() ==> p(#[trigger] s[i]) == q(t[i]),
        forall|i: int| 0 <= i < s.len() && p(#[trigger] s[i]) ==> f(s[i]) == g(t[i]),
    ensures
        s.filter(p).map_values(f) == t.filter(q).map_values(g),
    decreases s.len(),
{
    reveal(Seq::filter);
    if s.len() > 0 {
        let s0 = s.drop_last();
        let t0 = t.drop_last();
        assert forall|i: int| 0 <= i < s0.len() implies p(#[trigger] s0[i]) == q(t0[i]) by {
            assert(s0[i] == s[i]);
            assert(t0[i] == t[i]);
        }
        assert forall|i: int| 0 <= i < s0.len() && p(#[trigger] s0[i]) implies f(s0[i]) == g(
            t0[i],
        ) by {
            assert(s0[i] == s[i]);
            assert(t0[i] == t[i]);
        }
        lemma_filter_map_alike(s0, t0, p, q, f, g);
        assert(p(s[s.len() - 1]) == q(t[s.len() - 1]));
        if p(s.last()) {
            assert(f(s[s.len() - 1]) == g(t[s.len() - 1]));
            assert(s0.filter(p).push(s.last()).map_values(f) =~= s0.filter(p).map_values(f).push(
                f(s.last()),
            ));
            assert(t0.filter(q).push(t.last()).map_values(g) =~= t0.filter(q).map_values(g).push(
                g(t.last()),
            ));
        }
    } else {
        assert(s.filter(p).map_values(f) =~= t.filter(q).map_values(g));
    }
}

/// Flattening empty sequences gives the empty sequence.
pub proof fn lemma_flatten_empties<A>(parts: Seq<Seq<A>>)
    requires
        forall|i: int| 0 <= i < parts.len() ==> (#[trigger] parts[i]).len() == 0,
    ensures
        parts.flatten() == Seq::<A>::empty(),
    decreases parts.len(),
{
    if parts.len() > 0 {
        let rest = parts.drop_first();
        assert forall|i: int| 0 <= i < rest.len() implies (#[trigger] rest[i]).len() == 0 by {
            assert(rest[i] == parts[i + 1]);
        }
        lemma_flatten_empties(rest);
        assert(parts[0].len() == 0);
        assert(parts.flatten() =~= Seq::<A>::empty());
    }
}

/// Every element of a flattened sequence is an element of one of the parts.
pub proof fn lemma_flatten_member<A>(parts: Seq<Seq<A>>, i: int)
    requires
        0 <= i < parts.flatten().len(),
    ensures
        exists|m: int, n: int|
            0 <= m < parts.len() && 0 <= n < parts[m].len() && #[trigger] parts[m][n]
                == parts.flatten()[i],
    decreases parts.len(),
{
    if parts.len() > 0 {
        let rest = parts.drop_first();
        if i < parts[0].len() {
            assert(parts[0][i] == parts.flatten()[i]);
        } else {
            lemma_flatten_member(rest, i - parts[0].len());
            let (m, n) = choose|m: int, n: int|
                0 <= m < rest.len() && 0 <= n < rest[m].len() && #[trigger] rest[m][n]
                    == rest.flatten()[i - parts[0].len()];
            assert(parts[m + 1][n] == rest[m][n]);
        }
    }
}

/// Every element of a part is an element of the flattened sequence.
pub proof fn lemma_part_in_flatten<A>(parts: Seq<Seq<A>>, m: int, n: int)
    requires
        0 <= m < parts.len(),
        0 <= n < parts[m].len(),
    ensures
        parts.flatten().contains(parts[m][n]),
    decreases parts.len(),
{
    let rest = parts.drop_first();
    if m == 0 {
        assert(parts.flatten()[n] == parts[0][n]);
    } else {
        assert(rest[m - 1] == parts[m]);
        lemma_part_in_flatten(rest, m - 1, n);
        let i = rest.flatten().index_of(parts[m][n]);
        assert(rest.flatten()[i] == parts[m][n]);
        assert(parts.flatten()[parts[0].len() + i] == parts[m][n]);
    }
}

} // verus!
