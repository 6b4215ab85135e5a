//! Alphabets of text tokens, with an optional delimiter.
use crate::digits::{lemma_numeral_digits_small, nats, numeral, to_digits};
use crate::symbol::{views, Symbol};
use crate::tokens::{
    lemma_singles_render, lemma_tokens_doubled, lemma_tokens_leading, lemma_tokens_render,
    lemma_tokens_single, lemma_tokens_trailing, lemma_tokens_units, render, singles, split_singles,
    split_tokens, tokens,
};
use crate::util::{dedup, lemma_dedup_props, unique};
use crate::{alphabet_of, BaseCustom, BaseError, MAX_SYMBOLS};
use vstd::prelude::*;

verus! {

/// The units of the text `s`: its tokens between delimiters, empty ones
/// dropped, or without a delimiter its characters one by one.
pub open spec fn units_of(s: Seq<char>, delim: Option<char>) -> Seq<Seq<char>> {
    match delim {
        Some(d) => tokens(s, d),
        None => singles(s),
    }
}

/// Each unit of a text fits an alphabet with that delimiter.
proof fn lemma_units_fit(s: Seq<char>, delim: Option<char>)
    ensures
        forall|i: int|
            0 <= i < units_of(s, delim).len() ==> String::is_unit(
                #[trigger] units_of(s, delim)[i],
                delim,
            ),
{
    match delim {
        Some(d) => lemma_tokens_units(s, d),
        None => {},
    }
}

impl BaseCustom<String> {
    /// The text that `gen` returns for `v`.
    pub open spec fn gen_view(&self, v: u64) -> Seq<char> {
        if v == 0 {
            self.symbols()[0]
        } else {
            render(self.write(v), self.delimiter())
        }
    }

    /// What `decimal` returns for the text `s`.
    pub open spec fn decimal_view(&self, s: Seq<char>) -> Result<u64, BaseError> {
        self.read(units_of(s, self.delimiter()))
    }

    /// Builds an alphabet from the units of `chars`: its tokens between
    /// occurrences of `delim`, empty ones dropped, or without a delimiter
    /// its characters; repeats are dropped.
    ///
    /// Fails with `TooFewSymbols` under two distinct units and with
    /// `TooManySymbols` over 255.
    pub fn new(chars: &str, delim: Option<char>) -> (r: Result<BaseCustom<String>, BaseError>)
        ensures
            match r {
                Ok(b) => b.wf() && alphabet_of(units_of(chars@, delim)) == Ok::<
                    Seq<Seq<char>>,
                    BaseError,
                >(b.symbols()) && b.delimiter() == delim,
                Err(e) => alphabet_of(units_of(chars@, delim)) == Err::<Seq<Seq<char>>, BaseError>(
                    e,
                ),
            },
    {
        let units = match delim {
            Some(d) => split_tokens(chars, d),
            None => split_singles(chars),
        };
        let ghost input = views(units@);
        assert(input == units_of(chars@, delim));
        let kept = unique(units);
        proof {
            lemma_dedup_props(input);
            lemma_units_fit(chars@, delim);
        }
        if kept.len() < 2 {
            return Err(BaseError::TooFewSymbols);
        }
        if kept.len() > MAX_SYMBOLS {
            return Err(BaseError::TooManySymbols);
        }
        proof {
            assert forall|i: int| 0 <= i < kept@.len() implies #[trigger] String::is_unit(
                kept@[i]@,
                delim,
            ) by {
                assert(views(kept@)[i] == kept@[i]@);
                assert(views(kept@) == dedup(input));
                assert(dedup(input)[i] == kept@[i]@);
                assert(dedup(input).contains(kept@[i]@));
                assert(input.contains(kept@[i]@));
                let j = choose|j: int| 0 <= j < input.len() && input[j] == kept@[i]@;
                assert(String::is_unit(units_of(chars@, delim)[j], delim));
            }
        }
        Ok(BaseCustom::from_symbols(kept, delim))
    }

    /// The representation of `input_val`: its symbols, most significant
    /// first, each followed by the delimiter where there is one; 0 is the
    /// zeroth symbol alone, with no delimiter.
    pub fn gen(&self, input_val: u64) -> (r: String)
        requires
            self.wf(),
        ensures
            r@ == self.gen_view(input_val),
            input_val == 0 ==> r@ == self.symbols()[0],
    {
        if input_val == 0 {
            return self.primitives[0].clone();
        }
        let ds = to_digits(input_val, self.base);
        let ghost want = numeral(input_val as nat, self.radix());
        let mut result = String::new();
        let mut i: usize = 0;
        proof {
            lemma_numeral_digits_small(input_val as nat, self.radix());
        }
        while i < ds.len()
            invariant
                self.wf(),
                i <= ds@.len(),
                nats(ds@) == want,
                forall|j: int| 0 <= j < want.len() ==> #[trigger] want[j] < self.radix(),
                result@ == render(self.spell(want.take(i as int)), self.delimiter()),
            decreases ds@.len() - i,
        {
            let d = ds[i] as usize;
            proof {
                assert(want[i as int] == d as nat);
                let front = self.spell(want.take(i as int));
                let next = self.spell(want.take(i + 1));
                assert(next =~= front.push(self.symbols()[d as int]));
                assert(next.drop_last() =~= front);
            }
            result.append(self.primitives[d].as_str());
            match self.delim {
                Some(c) => result.push(c),
                None => {},
            }
            i = i + 1;
        }
        proof {
            assert(want.take(i as int) =~= want);
        }
        result
    }

    /// The number that the text `input_val` stands for: its tokens between
    /// delimiters, empty ones dropped, or without a delimiter its
    /// characters, most significant first.
    ///
    /// Fails with `UnknownSymbol` where a unit is not in the alphabet, and
    /// with `Overflow` where the number is above `u64::MAX`.
    pub fn decimal(&self, input_val: &str) -> (r: Result<u64, BaseError>)
        requires
            self.wf(),
        ensures
            r == self.decimal_view(input_val@),
    {
        let units = match self.delim {
            Some(d) => split_tokens(input_val, d),
            None => split_singles(input_val),
        };
        self.read_units(units.as_slice())
    }

    /// The zeroth symbol, which writes 0.
    pub fn zero(&self) -> (r: &str)
        requires
            self.wf(),
        ensures
            r@ == self.symbols()[0],
    {
        self.primitives[0].as_str()
    }

    /// The first symbol, which writes 1.
    pub fn one(&self) -> (r: &str)
        requires
            self.wf(),
        ensures
            r@ == self.symbols()[1],
    {
        self.primitives[1].as_str()
    }

    /// The symbol at `pos`, counting from zero, or `None` past the last one.
    pub fn nth(&self, pos: usize) -> (r: Option<&str>)
        requires
            self.wf(),
        ensures
            match r {
                Some(s) => pos < self.radix() && s@ == self.symbols()[pos as int],
                None => pos >= self.radix(),
            },
    {
        if pos < self.base as usize {
            Some(self.primitives[pos].as_str())
        } else {
            None
        }
    }

    /// Reading back what `gen` writes for `v` gives `v`.
    pub proof fn lemma_round_trip(&self, v: u64)
        requires
            self.wf(),
        ensures
            self.decimal_view(self.gen_view(v)) == Ok::<u64, BaseError>(v),
    {
        let syms = self.symbols();
        let delim = self.delimiter();
        self.lemma_read_write(v);
        lemma_numeral_digits_small(v as nat, self.radix());
        if v == 0 {
            let t = syms[0];
            assert(String::is_unit(t, delim));
            assert(self.write(0) =~= seq![t]);
            match delim {
                Some(d) => lemma_tokens_single(t, d),
                None => {
                    assert(t =~= seq![t[0]]);
                    assert(singles(t) =~= seq![t]);
                },
            }
        } else {
            let w = self.write(v);
            let ds = numeral(v as nat, self.radix());
            assert forall|i: int| 0 <= i < w.len() implies String::is_unit(#[trigger] w[i], delim) by {
                assert(w[i] == syms[ds[i] as int]);
            }
            match delim {
                Some(d) => lemma_tokens_render(w, d),
                None => lemma_singles_render(w),
            }
        }
    }

    /// A delimiter written twice reads as one, and one at either end is
    /// ignored.
    pub proof fn lemma_delimiter_tolerance(&self, p: Seq<char>, q: Seq<char>)
        requires
            self.delimiter() is Some,
        ensures
            ({
                let d = self.delimiter()->0;
                &&& self.decimal_view(p + seq![d, d] + q) == self.decimal_view(p + seq![d] + q)
                &&& self.decimal_view(p.push(d)) == self.decimal_view(p)
                &&& self.decimal_view(seq![d] + p) == self.decimal_view(p)
            }),
    {
        let d = self.delimiter()->0;
        lemma_tokens_doubled(p, q, d);
        lemma_tokens_trailing(p, d);
        lemma_tokens_leading(p, d);
    }

    /// Equal tables write every number alike and read every text alike.
    pub proof fn lemma_equal_tables_agree(&self, other: &Self, v: u64, s: Seq<char>)
        requires
            self.same_table(other),
        ensures
            self.gen_view(v) == other.gen_view(v),
            self.decimal_view(s) == other.decimal_view(s),
    {
    }
}

} // verus!
