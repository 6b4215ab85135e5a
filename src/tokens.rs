//! Text split into tokens at a delimiter, and tokens joined back to text.
use crate::symbol::views;
use vstd::prelude::*;

verus! {

/// Relies on `String::push`: it appends the one character to the string.
pub assume_specification[ String::push ](string: &mut String, ch: char)
    ensures
        final(string)@ == old(string)@.push(ch),
;

/// Where a left-to-right split stands: the tokens finished so far and the
/// characters of the token under way.
pub type SplitState = (Seq<Seq<char>>, Seq<char>);

/// One character more: a delimiter ends the token under way, where it has
/// any characters, and is itself dropped; any other character extends it.
pub open spec fn split_step(st: SplitState, c: char, d: char) -> SplitState {
    if c == d {
        if st.1.len() > 0 {
            (st.0.push(st.1), Seq::empty())
        } else {
            (st.0, Seq::empty())
        }
    } else {
        (st.0, st.1.push(c))
    }
}

/// The state after the characters of `s`, from `st`.
pub open spec fn split_from(st: SplitState, s: Seq<char>, d: char) -> SplitState
    decreases s.len(),
{
    if s.len() == 0 {
        st
    } else {
        split_step(split_from(st, s.drop_last(), d), s.last(), d)
    }
}

/// The fragments of `s` between occurrences of `d`, empty ones dropped.
pub open spec fn tokens(s: Seq<char>, d: char) -> Seq<Seq<char>> {
    let st = split_from((Seq::empty(), Seq::empty()), s, d);
    if st.1.len() > 0 {
        st.0.push(st.1)
    } else {
        st.0
    }
}

/// Each character of `s` as a one-character token.
pub open spec fn singles(s: Seq<char>) -> Seq<Seq<char>> {
    s.map_values(|c: char| seq![c])
}

/// The tokens one after the other, each followed by the delimiter where
/// there is one.
pub open spec fn render(toks: Seq<Seq<char>>, delim: Option<char>) -> Seq<char>
    decreases toks.len(),
{
    if toks.len() == 0 {
        Seq::empty()
    } else {
        let r = render(toks.drop_last(), delim) + toks.last();
        match delim {
            Some(d) => r.push(d),
            None => r,
        }
    }
}

/// Every token that a split finishes is non-empty and free of the delimiter.
pub proof fn lemma_split_units(s: Seq<char>, d: char)
    ensures
        forall|i: int|
            0 <= i < split_from((Seq::empty(), Seq::empty()), s, d).0.len() ==> (#[trigger] split_from(
                (Seq::empty(), Seq::empty()),
                s,
                d,
            ).0[i]).len() > 0 && !split_from((Seq::empty(), Seq::empty()), s, d).0[i].contains(d),
        !split_from((Seq::empty(), Seq::empty()), s, d).1.contains(d),
    decreases s.len(),
{
    let init: SplitState = (Seq::empty(), Seq::empty());
    if s.len() > 0 {
        lemma_split_units(s.drop_last(), d);
        let st = split_from(init, s.drop_last(), d);
        let c = s.last();
        if c != d {
            assert forall|k: int| 0 <= k < st.1.push(c).len() implies st.1.push(c)[k] != d by {
                if k < st.1.len() {
                    assert(st.1.push(c)[k] == st.1[k]);
                }
            }
        } else if st.1.len() > 0 {
            let done = st.0.push(st.1);
            assert forall|i: int| 0 <= i < done.len() implies (#[trigger] done[i]).len() > 0
                && !done[i].contains(d) by {
                if i < st.0.len() {
                    assert(done[i] == st.0[i]);
                }
            }
        }
    }
}

/// Every token of a text is non-empty and free of the delimiter.
pub proof fn lemma_tokens_units(s: Seq<char>, d: char)
    ensures
        forall|i: int|
            0 <= i < tokens(s, d).len() ==> (#[trigger] tokens(s, d)[i]).len() > 0 && !tokens(
                s,
                d,
            )[i].contains(d),
{
    lemma_split_units(s, d);
    let st = split_from((Seq::empty(), Seq::empty()), s, d);
    if st.1.len() > 0 {
        let done = st.0.push(st.1);
        assert forall|i: int| 0 <= i < done.len() implies (#[trigger] done[i]).len() > 0
            && !done[i].contains(d) by {
            if i < st.0.len() {
                assert(done[i] == st.0[i]);
            }
        }
    }
}

/// Splitting a single character is one step.
pub proof fn lemma_split_one(st: SplitState, c: char, d: char)
    ensures
        split_from(st, seq![c], d) == split_step(st, c, d),
{
    assert(seq![c].drop_last() =~= Seq::<char>::empty());
    assert(split_from(st, Seq::<char>::empty(), d) == st);
    assert(seq![c].last() == c);
}

/// Splitting `a + b` goes on from where splitting `a` stopped.
pub proof fn lemma_split_concat(st: SplitState, a: Seq<char>, b: Seq<char>, d: char)
    ensures
        split_from(st, a + b, d) == split_from(split_from(st, a, d), b, d),
    decreases b.len(),
{
    if b.len() == 0 {
        assert(a + b =~= a);
    } else {
        lemma_split_concat(st, a, b.drop_last(), d);
        assert((a + b).drop_last() =~= a + b.drop_last());
        assert((a + b).last() == b.last());
    }
}

/// Characters other than the delimiter only extend the token under way.
pub proof fn lemma_split_plain(st: SplitState, t: Seq<char>, d: char)
    requires
        !t.contains(d),
    ensures
        split_from(st, t, d) == (st.0, st.1 + t),
    decreases t.len(),
{
    if t.len() == 0 {
        assert(st.1 + t =~= st.1);
    } else {
        let u = t.drop_last();
        if u.contains(d) {
            let i = choose|i: int| 0 <= i < u.len() && u[i] == d;
            assert(t[i] == d);
        }
        lemma_split_plain(st, u, d);
        assert(t[t.len() - 1] != d);
        assert((st.1 + u).push(t.last()) =~= st.1 + t);
    }
}

/// Tokens that are not empty and free of the delimiter, each written with
/// the delimiter after it, split back into themselves.
pub proof fn lemma_split_render(toks: Seq<Seq<char>>, d: char)
    requires
        forall|i: int| 0 <= i < toks.len() ==> (#[trigger] toks[i]).len() > 0 && !toks[i].contains(d),
    ensures
        split_from((Seq::empty(), Seq::empty()), render(toks, Some(d)), d) == (
        toks,
        Seq::<char>::empty(),
        ),
    decreases toks.len(),
{
    let init: SplitState = (Seq::empty(), Seq::empty());
    if toks.len() == 0 {
        assert(toks =~= Seq::<Seq<char>>::empty());
    } else {
        let front = toks.drop_last();
        let t = toks.last();
        assert(t == toks[toks.len() - 1]);
        lemma_split_render(front, d);
        let head = render(front, Some(d));
        let empty = Seq::<char>::empty();
        assert(toks.drop_last() == front);
        assert(render(toks, Some(d)) == (head + t).push(d));
        assert((head + t).push(d) =~= head + (t + seq![d]));
        lemma_split_concat(init, head, t + seq![d], d);
        assert(split_from(init, head, d) == (front, empty));
        lemma_split_concat((front, empty), t, seq![d], d);
        lemma_split_plain((front, empty), t, d);
        assert(empty + t =~= t);
        assert(split_from((front, empty), t, d) == (front, t));
        lemma_split_one((front, t), d, d);
        assert(front.push(t) =~= toks);
    }
}

/// Tokens that are not empty and free of the delimiter, each written with
/// the delimiter after it, are the tokens of what was written.
pub proof fn lemma_tokens_render(toks: Seq<Seq<char>>, d: char)
    requires
        forall|i: int| 0 <= i < toks.len() ==> (#[trigger] toks[i]).len() > 0 && !toks[i].contains(d),
    ensures
        tokens(render(toks, Some(d)), d) == toks,
{
    lemma_split_render(toks, d);
}

/// A single non-empty token free of the delimiter is its own only token.
pub proof fn lemma_tokens_single(t: Seq<char>, d: char)
    requires
        t.len() > 0,
        !t.contains(d),
    ensures
        tokens(t, d) == seq![t],
{
    lemma_split_plain((Seq::empty(), Seq::empty()), t, d);
    assert(Seq::<char>::empty() + t =~= t);
    assert(Seq::<Seq<char>>::empty().push(t) =~= seq![t]);
}

/// One-character tokens written without a delimiter give back the same
/// tokens, one per character.
pub proof fn lemma_singles_render(toks: Seq<Seq<char>>)
    requires
        forall|i: int| 0 <= i < toks.len() ==> (#[trigger] toks[i]).len() == 1,
    ensures
        singles(render(toks, None)) == toks,
    decreases toks.len(),
{
    if toks.len() > 0 {
        let front = toks.drop_last();
        let t = toks.last();
        assert(t == toks[toks.len() - 1]);
        lemma_singles_render(front);
        let head = render(front, None);
        assert(t =~= seq![t[0]]);
        assert(singles(head + t) =~= singles(head).push(t));
        assert(front.push(t) =~= toks);
    }
}

/// A delimiter written twice splits as one.
pub proof fn lemma_tokens_doubled(p: Seq<char>, q: Seq<char>, d: char)
    ensures
        tokens(p + seq![d, d] + q, d) == tokens(p + seq![d] + q, d),
{
    let init: SplitState = (Seq::empty(), Seq::empty());
    let once = p + seq![d];
    let twice = p + seq![d, d];
    assert(twice =~= once + seq![d]);
    lemma_split_concat(init, p, seq![d], d);
    lemma_split_one(split_from(init, p, d), d, d);
    lemma_split_concat(init, once, seq![d], d);
    lemma_split_one(split_from(init, once, d), d, d);
    assert(split_from(init, twice, d) == split_from(init, once, d));
    lemma_split_concat(init, once, q, d);
    lemma_split_concat(init, twice, q, d);
}

/// A delimiter at the end changes nothing.
pub proof fn lemma_tokens_trailing(s: Seq<char>, d: char)
    ensures
        tokens(s.push(d), d) == tokens(s, d),
{
    assert(s.push(d).drop_last() =~= s);
}

/// A delimiter at the start changes nothing.
pub proof fn lemma_tokens_leading(s: Seq<char>, d: char)
    ensures
        tokens(seq![d] + s, d) == tokens(s, d),
{
    let init: SplitState = (Seq::empty(), Seq::empty());
    lemma_split_concat(init, seq![d], s, d);
    lemma_split_one(init, d, d);
}

/// The characters of `s`.
pub fn chars_of(s: &str) -> (r: Vec<char>)
    ensures
        r@ == s@,
{
    let mut out: Vec<char> = Vec::new();
    for c in it: s.chars()
        invariant
            out@ == it.seq().take(it.index() as int),
    {
        out.push(c);
    }
    out
}

/// The tokens of `s` between occurrences of `d`, empty ones dropped.
pub fn split_tokens(s: &str, d: char) -> (r: Vec<String>)
    ensures
        views(r@) == tokens(s@, d),
{
    let cs = chars_of(s);
    let mut done: Vec<String> = Vec::new();
    let mut cur = String::new();
    let ghost init: SplitState = (Seq::empty(), Seq::empty());
    let mut i: usize = 0;
    while i < cs.len()
        invariant
            i <= cs@.len(),
            (views(done@), cur@) == split_from(init, cs@.take(i as int), d),
        decreases cs@.len() - i,
    {
        let c = cs[i];
        proof {
            assert(cs@.take(i + 1).drop_last() =~= cs@.take(i as int));
            assert(cs@.take(i + 1).last() == c);
        }
        if c == d {
            if !cur.as_str().is_empty() {
                let ghost before = views(done@);
                let finished = cur;
                cur = String::new();
                done.push(finished);
                proof {
                    assert(views(done@) =~= before.push(finished@));
                }
            }
        } else {
            cur.push(c);
        }
        i = i + 1;
    }
    proof {
        assert(cs@.take(i as int) =~= s@);
    }
    if !cur.as_str().is_empty() {
        let ghost before = views(done@);
        done.push(cur);
        proof {
            assert(views(done@) =~= before.push(cur@));
        }
    }
    done
}

/// Each character of `s` as a one-character token.
pub fn split_singles(s: &str) -> (r: Vec<String>)
    ensures
        views(r@) == singles(s@),
{
    let cs = chars_of(s);
    let mut out: Vec<String> = Vec::new();
    let mut i: usize = 0;
    while i < cs.len()
        invariant
            i <= cs@.len(),
            views(out@) == singles(cs@.take(i as int)),
        decreases cs@.len() - i,
    {
        let ghost before = views(out@);
        let mut one = String::new();
        one.push(cs[i]);
        out.push(one);
        proof {
            let c = cs@[i as int];
            assert(one@ =~= seq![c]);
            assert(cs@.take(i + 1) =~= cs@.take(i as int).push(c));
            assert(singles(cs@.take(i as int).push(c)) =~= singles(cs@.take(i as int)).push(seq![c]));
            assert(views(out@) =~= before.push(one@));
        }
        i = i + 1;
    }
    proof {
        assert(cs@.take(i as int) =~= s@);
    }
    out
}

} // verus!
