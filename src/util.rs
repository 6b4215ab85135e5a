//! Removal of repeated symbols, keeping first occurrences.
use crate::symbol::{position_of, views, Symbol};
use vstd::prelude::*;

verus! {

/// `s` with every element that already occurred earlier removed; the
/// elements that stay keep their relative order.
pub open spec fn dedup<A>(s: Seq<A>) -> Seq<A>
    decreases s.len(),
{
    if s.len() == 0 {
        s
    } else {
        let p = dedup(s.drop_last());
        if p.contains(s.last()) {
            p
        } else {
            p.push(s.last())
        }
    }
}

/// What `dedup` keeps is exactly what occurs in `s`, each element once.
pub proof fn lemma_dedup_props<A>(s: Seq<A>)
    ensures
        dedup(s).no_duplicates(),
        forall|x: A| dedup(s).contains(x) <==> s.contains(x),
        dedup(s).len() <= s.len(),
    decreases s.len(),
{
    if s.len() > 0 {
        let p = dedup(s.drop_last());
        lemma_dedup_props(s.drop_last());
        assert forall|x: A| s.contains(x) <==> (s.drop_last().contains(x) || x == s.last()) by {
            if s.contains(x) {
                let i = choose|i: int| 0 <= i < s.len() && s[i] == x;
                if i < s.len() - 1 {
                    assert(s.drop_last()[i] == x);
                }
            }
            if x == s.last() {
                assert(s[s.len() - 1] == x);
            }
            if s.drop_last().contains(x) {
                let i = choose|i: int| 0 <= i < s.len() - 1 && s.drop_last()[i] == x;
                assert(s[i] == x);
            }
        }
        if !p.contains(s.last()) {
            let q = p.push(s.last());
            assert forall|x: A| q.contains(x) <==> (p.contains(x) || x == s.last()) by {
                if q.contains(x) {
                    let i = choose|i: int| 0 <= i < q.len() && q[i] == x;
                    if i < p.len() {
                        assert(p[i] == x);
                    }
                }
                if p.contains(x) {
                    let i = choose|i: int| 0 <= i < p.len() && p[i] == x;
                    assert(q[i] == x);
                }
                if x == s.last() {
                    assert(q[q.len() - 1] == x);
                }
            }
        }
    }
}

/// A sequence without repeats is left as it is.
pub proof fn lemma_dedup_distinct<A>(s: Seq<A>)
    requires
        s.no_duplicates(),
    ensures
        dedup(s) == s,
    decreases s.len(),
{
    if s.len() > 0 {
        let t = s.drop_last();
        assert(t.no_duplicates());
        lemma_dedup_distinct(t);
        if t.contains(s.last()) {
            let i = choose|i: int| 0 <= i < t.len() && t[i] == s.last();
            assert(s[i] == s[s.len() - 1]);
        }
        assert(t.push(s.last()) =~= s);
    }
}

/// Removing repeats a second time changes nothing.
pub proof fn lemma_dedup_idempotent<A>(s: Seq<A>)
    ensures
        dedup(dedup(s)) == dedup(s),
{
    lemma_dedup_props(s);
    lemma_dedup_distinct(dedup(s));
}

/// Removes repeated symbols from `chars`, keeping the first occurrence of
/// each and the order of those kept.
pub fn unique<T: Symbol>(chars: Vec<T>) -> (r: Vec<T>)
    ensures
        views(r@) == dedup(views(chars@)),
{
    let ghost input = views(chars@);
    let mut rest = chars;
    let mut out: Vec<T> = Vec::new();
    let ghost mut taken: int = 0;
    while rest.len() > 0
        invariant
            0 <= taken <= input.len(),
            rest@.len() + taken == input.len(),
            views(rest@) == input.skip(taken),
            views(out@) == dedup(input.take(taken)),
        decreases rest@.len(),
    {
        let ghost before = rest@;
        let x = rest.remove(0);
        proof {
            assert(views(before)[0] == input.skip(taken)[0]);
            assert(x@ == input[taken]);
            assert(input.take(taken + 1).drop_last() =~= input.take(taken));
            assert(input.take(taken + 1).last() == x@);
            assert forall|k: int| 0 <= k < rest@.len() implies views(rest@)[k] == input.skip(
                taken + 1,
            )[k] by {
                assert(views(rest@)[k] == views(before)[k + 1]);
                assert(views(before)[k + 1] == input.skip(taken)[k + 1]);
            }
            assert(views(rest@) =~= input.skip(taken + 1));
        }
        match position_of(out.as_slice(), &x) {
            Some(i) => {
                proof {
                    assert(views(out@)[i as int] == x@);
                }
            },
            None => {
                out.push(x);
                proof {
                    assert(views(out@) =~= dedup(input.take(taken)).push(x@));
                }
            },
        }
        proof {
            taken = taken + 1;
        }
    }
    proof {
        assert(input.take(taken) =~= input);
    }
    out
}

} // verus!
