//! Facts about sequences that several modules need.

use vstd::prelude::*;

verus! {

/// One more element of a prefix adds that element.
pub proof fn lemma_take_contains<T>(s: Seq<T>, n: int, x: T)
    requires
        0 <= n < s.len(),
    ensures
        s.take(n + 1).contains(x) <==> s.take(n).contains(x) || x == s[n],
{
    let shorter = s.take(n);
    let longer = s.take(n + 1);
    if shorter.contains(x) {
        let i = choose|i: int| 0 <= i < shorter.len() && shorter[i] == x;
        assert(longer[i] == x);
    }
    assert(longer[n] == s[n]);
    if longer.contains(x) && x != s[n] {
        let i = choose|i: int| 0 <= i < longer.len() && longer[i] == x;
        assert(shorter[i] == x);
    }
}

/// What is kept by two tests, one after the other, is what both keep.
pub proof fn lemma_filter_twice<T>(s: Seq<T>, p: spec_fn(T) -> bool, q: spec_fn(T) -> bool, both: spec_fn(T) -> bool)
    requires
        forall|i: int| 0 <= i < s.len() ==> (both(#[trigger] s[i]) <==> p(s[i]) && q(s[i])),
    ensures
        s.filter(p).filter(q) == s.filter(both),
    decreases s.len(),
{
    reveal(Seq::filter);
    if s.len() > 0 {
        let rest = s.drop_last();
        assert forall|i: int| 0 <= i < rest.len() implies (both(#[trigger] rest[i]) <==> p(rest[i]) && q(rest[i])) by {
            assert(rest[i] == s[i]);
        }
        lemma_filter_twice(rest, p, q, both);
        let last = s[s.len() - 1];
        assert(s.last() == last);
        if p(last) {
            let kept = rest.filter(p).push(last);
            assert(kept.drop_last() =~= rest.filter(p));
            assert(kept.last() == last);
        }
    }
}

/// Tests that agree on a list keep the same of it.
pub proof fn lemma_filter_same<T>(s: Seq<T>, p: spec_fn(T) -> bool, q: spec_fn(T) -> bool)
    requires
        forall|i: int| 0 <= i < s.len() ==> (p(#[trigger] s[i]) <==> q(s[i])),
    ensures
        s.filter(p) == s.filter(q),
    decreases s.len(),
{
    reveal(Seq::filter);
    if s.len() > 0 {
        let rest = s.drop_last();
        assert forall|i: int| 0 <= i < rest.len() implies (p(#[trigger] rest[i]) <==> q(rest[i])) by {
            assert(rest[i] == s[i]);
        }
        lemma_filter_same(rest, p, q);
        assert(s.last() == s[s.len() - 1]);
    }
}

/// A test that keeps everything changes nothing.
pub proof fn lemma_filter_all<T>(s: Seq<T>, p: spec_fn(T) -> bool)
    ensures
        s.filter(p).len() <= s.len(),
        s.filter(p).len() == s.len() ==> s.filter(p) == s,
        s.filter(p).len() == s.len() <==> forall|i: int| 0 <= i < s.len() ==> p(#[trigger] s[i]),
        forall|x: T| #[trigger] s.filter(p).contains(x) <==> s.contains(x) && p(x),
    decreases s.len(),
{
    reveal(Seq::filter);
    if s.len() > 0 {
        let rest = s.drop_last();
        let last = s[s.len() - 1];
        lemma_filter_all(rest, p);
        assert(s.last() == last);
        assert(s =~= rest.push(last));
        let kept = s.filter(p);
        if kept.len() == s.len() {
            assert(p(last));
            assert forall|i: int| 0 <= i < s.len() implies p(#[trigger] s[i]) by {
                if i < rest.len() {
                    assert(p(rest[i]));
                }
            }
        }
        if forall|i: int| 0 <= i < s.len() ==> p(#[trigger] s[i]) {
            assert forall|i: int| 0 <= i < rest.len() implies p(#[trigger] rest[i]) by {
                assert(p(s[i]));
            }
            assert(p(s[s.len() - 1]));
        }
        assert forall|x: T| #[trigger] kept.contains(x) <==> s.contains(x) && p(x) by {
            lemma_push_contains(rest, last, x);
            lemma_push_contains(rest.filter(p), last, x);
        }
    }
}

/// What a list holds after one more.
pub proof fn lemma_push_contains<T>(s: Seq<T>, last: T, x: T)
    ensures
        s.push(last).contains(x) <==> s.contains(x) || x == last,
{
    let more = s.push(last);
    if s.contains(x) {
        let i = choose|i: int| 0 <= i < s.len() && s[i] == x;
        assert(more[i] == x);
    }
    assert(more[s.len() as int] == last);
    if more.contains(x) {
        let i = choose|i: int| 0 <= i < more.len() && more[i] == x;
        if i < s.len() {
            assert(s[i] == x);
        }
    }
}

/// One more element of a prefix is kept, or not.
pub proof fn lemma_filter_step<T>(s: Seq<T>, p: spec_fn(T) -> bool, n: int)
    requires
        0 <= n < s.len(),
    ensures
        s.take(n + 1).filter(p) == (if p(s[n]) {
            s.take(n).filter(p).push(s[n])
        } else {
            s.take(n).filter(p)
        }),
{
    reveal(Seq::filter);
    assert(s.take(n + 1).drop_last() =~= s.take(n));
    assert(s.take(n + 1).last() == s[n]);
}

} // verus!
