//! Alphabets of single characters.
use crate::digits::{lemma_numeral_digits_small, nats, numeral, to_digits};
use crate::symbol::views;
use crate::tokens::chars_of;
use crate::util::{lemma_dedup_distinct, lemma_dedup_props, unique};
use crate::{alphabet_of, BaseCustom, BaseError, MAX_SYMBOLS};
use vstd::prelude::*;

verus! {

/// The lowest code that `from_ordinal_range` takes.
pub const FIRST_ORDINAL: u32 = 32;

/// The code past the highest that `from_ordinal_range` takes.
pub const END_ORDINAL: u32 = 127;

/// The characters whose codes run from `lo` up to, not including, `hi`.
pub open spec fn ordinal_chars(lo: u32, hi: u32) -> Seq<char> {
    Seq::new(
        if hi > lo {
            (hi - lo) as nat
        } else {
            0
        },
        |i: int| ((lo + i) as u8) as char,
    )
}

impl BaseCustom<char> {
    /// The text that `gen` returns for `v`.
    pub open spec fn gen_view(&self, v: u64) -> Seq<char> {
        self.write(v)
    }

    /// What `decimal` returns for the text `s`.
    pub open spec fn decimal_view(&self, s: Seq<char>) -> Result<u64, BaseError> {
        self.read(s)
    }

    /// Builds an alphabet from `chars`, repeats dropped.
    ///
    /// Fails with `TooFewSymbols` under two distinct characters and with
    /// `TooManySymbols` over 255.
    pub fn new(chars: Vec<char>) -> (r: Result<BaseCustom<char>, BaseError>)
        ensures
            match r {
                Ok(b) => b.wf() && alphabet_of(chars@) == Ok::<Seq<char>, BaseError>(b.symbols())
                    && b.delimiter() is None,
                Err(e) => alphabet_of(chars@) == Err::<Seq<char>, BaseError>(e),
            },
    {
        let ghost input = chars@;
        proof {
            assert(views(chars@) =~= input);
        }
        let kept = unique(chars);
        proof {
            assert(views(kept@) =~= kept@);
            lemma_dedup_props(input);
        }
        if kept.len() < 2 {
            return Err(BaseError::TooFewSymbols);
        }
        if kept.len() > MAX_SYMBOLS {
            return Err(BaseError::TooManySymbols);
        }
        Ok(BaseCustom::from_symbols(kept, None))
    }

    /// The representation of `input_val`, most significant symbol first; 0
    /// is the zeroth symbol alone.
    pub fn gen(&self, input_val: u64) -> (r: String)
        requires
            self.wf(),
        ensures
            r@ == self.gen_view(input_val),
            input_val == 0 ==> r@ == seq![self.symbols()[0]],
    {
        let ds = to_digits(input_val, self.base);
        let ghost want = numeral(input_val as nat, self.radix());
        let mut result = String::new();
        let mut i: usize = 0;
        proof {
            lemma_numeral_digits_small(input_val as nat, self.radix());
        }
        while i < ds.len()
            invariant
                self.wf(),
                i <= ds@.len(),
                nats(ds@) == want,
                forall|j: int| 0 <= j < want.len() ==> #[trigger] want[j] < self.radix(),
                result@ == self.spell(want.take(i as int)),
            decreases ds@.len() - i,
        {
            let d = ds[i] as usize;
            proof {
                assert(want[i as int] == d as nat);
            }
            result.push(self.primitives[d]);
            proof {
                assert(self.spell(want.take(i + 1)) =~= self.spell(want.take(i as int)).push(
                    self.symbols()[d as int],
                ));
            }
            i = i + 1;
        }
        proof {
            assert(want.take(i as int) =~= want);
            if input_val == 0 {
                assert(want == seq![0nat]);
                assert(self.spell(want) =~= seq![self.symbols()[0]]);
            }
        }
        result
    }

    /// The character at `input_val`, or `None` past the last one.
    pub fn char(&self, input_val: usize) -> (r: Option<char>)
        requires
            self.wf(),
        ensures
            r == if input_val < self.radix() {
                Some(self.symbols()[input_val as int])
            } else {
                None
            },
    {
        if input_val >= self.primitives.len() {
            return None;
        }
        Some(self.primitives[input_val])
    }

    /// The number that the text `input_val` stands for, one character per
    /// digit.
    ///
    /// Fails with `UnknownSymbol` where a character is not in the alphabet,
    /// and with `Overflow` where the number is above `u64::MAX`.
    pub fn decimal(&self, input_val: &str) -> (r: Result<u64, BaseError>)
        requires
            self.wf(),
        ensures
            r == self.decimal_view(input_val@),
    {
        let units = chars_of(input_val);
        proof {
            assert(views(units@) =~= input_val@);
        }
        self.read_units(units.as_slice())
    }

    /// The zeroth symbol, which writes 0.
    pub fn zero(&self) -> (r: &char)
        requires
            self.wf(),
        ensures
            *r == self.symbols()[0],
    {
        &self.primitives[0]
    }

    /// The first symbol, which writes 1.
    pub fn one(&self) -> (r: &char)
        requires
            self.wf(),
        ensures
            *r == self.symbols()[1],
    {
        &self.primitives[1]
    }

    /// The symbol at `pos`, counting from zero, or `None` past the last one.
    pub fn nth(&self, pos: usize) -> (r: Option<&char>)
        requires
            self.wf(),
        ensures
            match r {
                Some(c) => pos < self.radix() && *c == self.symbols()[pos as int],
                None => pos >= self.radix(),
            },
    {
        if pos < self.base as usize {
            Some(&self.primitives[pos])
        } else {
            None
        }
    }

    /// Builds an alphabet of the characters whose codes lie in `range`,
    /// cut to the printable codes from 32 up to, not including, 127.
    ///
    /// Fails with `TooFewSymbols` where fewer than two codes remain.
    pub fn from_ordinal_range(range: std::ops::Range<u32>) -> (r: Result<BaseCustom<char>, BaseError>)
        ensures
            ({
                let lo = if range.start > FIRST_ORDINAL { range.start } else { FIRST_ORDINAL };
                let hi = if range.end < END_ORDINAL { range.end } else { END_ORDINAL };
                match r {
                    Ok(b) => b.wf() && b.symbols() == ordinal_chars(lo, hi) && b.delimiter() is None,
                    Err(e) => e == BaseError::TooFewSymbols && ordinal_chars(lo, hi).len() < 2,
                }
            }),
    {
        let min: u32 = if range.start > FIRST_ORDINAL { range.start } else { FIRST_ORDINAL };
        let max: u32 = if range.end < END_ORDINAL { range.end } else { END_ORDINAL };
        let ghost want = ordinal_chars(min, max);
        let mut chars: Vec<char> = Vec::new();
        let mut chr: u32 = min;
        while chr < max
            invariant
                FIRST_ORDINAL <= min <= chr,
                max <= END_ORDINAL,
                min < max ==> chr <= max,
                min >= max ==> chr == min,
                want == ordinal_chars(min, max),
                chars@.len() == chr - min,
                forall|j: int| 0 <= j < chars@.len() ==> #[trigger] chars@[j] == want[j],
            decreases max - chr,
        {
            chars.push((chr as u8) as char);
            chr = chr + 1;
        }
        proof {
            if min < max {
                assert(chr == max);
                assert(want.len() == max - min);
            } else {
                assert(chr == min);
                assert(want.len() == 0);
            }
            assert(chars@ =~= want);
            assert forall|i: int, j: int|
                0 <= i < want.len() && 0 <= j < want.len() && i != j implies want[i] != want[j] by {
                assert(want[i] as u32 == min + i);
                assert(want[j] as u32 == min + j);
            }
            lemma_dedup_distinct(want);
        }
        BaseCustom::<char>::new(chars)
    }

    /// Reading back what `gen` writes for `v` gives `v`.
    pub proof fn lemma_round_trip(&self, v: u64)
        requires
            self.wf(),
        ensures
            self.decimal_view(self.gen_view(v)) == Ok::<u64, BaseError>(v),
    {
        self.lemma_read_write(v);
    }

    /// Equal tables write every number alike and read every text alike.
    pub proof fn lemma_equal_tables_agree(&self, other: &Self, v: u64, s: Seq<char>)
        requires
            self.same_table(other),
        ensures
            self.gen_view(v) == other.gen_view(v),
            self.decimal_view(s) == other.decimal_view(s),
    {
    }
}

} // verus!
