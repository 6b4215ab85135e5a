//! Alphabets of raw bytes.
use crate::digits::{lemma_numeral_digits_small, nats, numeral, to_digits};
use crate::symbol::views;
use crate::util::{lemma_dedup_props, unique};
use crate::{alphabet_of, BaseCustom, BaseError, MAX_SYMBOLS};
use vstd::prelude::*;

verus! {

impl BaseCustom<u8> {
    /// The bytes that `gen` returns for `v`.
    pub open spec fn gen_view(&self, v: u64) -> Seq<u8> {
        self.write(v)
    }

    /// What `decimal` returns for the bytes `s`.
    pub open spec fn decimal_view(&self, s: Seq<u8>) -> Result<u64, BaseError> {
        self.read(s)
    }

    /// Builds an alphabet from `bytes`, repeats dropped.
    ///
    /// Fails with `TooFewSymbols` under two distinct bytes and with
    /// `TooManySymbols` where all 256 occur.
    pub fn new(bytes: &[u8]) -> (r: Result<BaseCustom<u8>, BaseError>)
        ensures
            match r {
                Ok(b) => b.wf() && alphabet_of(bytes@) == Ok::<Seq<u8>, BaseError>(b.symbols())
                    && b.delimiter() is None,
                Err(e) => alphabet_of(bytes@) == Err::<Seq<u8>, BaseError>(e),
            },
    {
        let ghost input = bytes@;
        let mut all: Vec<u8> = Vec::new();
        let mut i: usize = 0;
        while i < bytes.len()
            invariant
                i <= bytes@.len(),
                all@ == bytes@.take(i as int),
            decreases bytes@.len() - i,
        {
            all.push(bytes[i]);
            proof {
                assert(bytes@.take(i + 1) =~= bytes@.take(i as int).push(bytes@[i as int]));
            }
            i = i + 1;
        }
        proof {
            assert(all@ =~= input);
            assert(views(all@) =~= input);
        }
        let kept = unique(all);
        proof {
            assert(views(kept@) =~= kept@);
            lemma_dedup_props(input);
        }
        if kept.len() < 2 {
            return Err(BaseError::TooFewSymbols);
        }
        if kept.len() > MAX_SYMBOLS {
            return Err(BaseError::TooManySymbols);
        }
        Ok(BaseCustom::from_symbols(kept, None))
    }

    /// The representation of `input_val`, most significant byte first; 0 is
    /// the zeroth symbol alone.
    pub fn gen(&self, input_val: u64) -> (r: Vec<u8>)
        requires
            self.wf(),
        ensures
            r@ == self.gen_view(input_val),
            input_val == 0 ==> r@ == seq![self.symbols()[0]],
    {
        let ds = to_digits(input_val, self.base);
        let ghost want = numeral(input_val as nat, self.radix());
        let mut result: Vec<u8> = Vec::new();
        let mut i: usize = 0;
        proof {
            lemma_numeral_digits_small(input_val as nat, self.radix());
        }
        while i < ds.len()
            invariant
                self.wf(),
                i <= ds@.len(),
                nats(ds@) == want,
                forall|j: int| 0 <= j < want.len() ==> #[trigger] want[j] < self.radix(),
                result@ == self.spell(want.take(i as int)),
            decreases ds@.len() - i,
        {
            let d = ds[i] as usize;
            proof {
                assert(want[i as int] == d as nat);
            }
            result.push(self.primitives[d]);
            proof {
                assert(self.spell(want.take(i + 1)) =~= self.spell(want.take(i as int)).push(
                    self.symbols()[d as int],
                ));
            }
            i = i + 1;
        }
        proof {
            assert(want.take(i as int) =~= want);
            if input_val == 0 {
                assert(want == seq![0nat]);
                assert(self.spell(want) =~= seq![self.symbols()[0]]);
            }
        }
        result
    }

    /// The number that the bytes `input_val` stand for, one byte per digit.
    ///
    /// Fails with `UnknownSymbol` where a byte is not in the alphabet, and
    /// with `Overflow` where the number is above `u64::MAX`.
    pub fn decimal(&self, input_val: &[u8]) -> (r: Result<u64, BaseError>)
        requires
            self.wf(),
        ensures
            r == self.decimal_view(input_val@),
    {
        proof {
            assert(views(input_val@) =~= input_val@);
        }
        self.read_units(input_val)
    }

    /// The zeroth symbol, which writes 0.
    pub fn zero(&self) -> (r: u8)
        requires
            self.wf(),
        ensures
            r == self.symbols()[0],
    {
        self.primitives[0]
    }

    /// The first symbol, which writes 1.
    pub fn one(&self) -> (r: u8)
        requires
            self.wf(),
        ensures
            r == self.symbols()[1],
    {
        self.primitives[1]
    }

    /// The symbol at `pos`, counting from zero, or `None` past the last one.
    pub fn nth(&self, pos: usize) -> (r: Option<u8>)
        requires
            self.wf(),
        ensures
            r == if pos < self.radix() {
                Some(self.symbols()[pos as int])
            } else {
                None
            },
    {
        if pos < self.base as usize {
            Some(self.primitives[pos])
        } else {
            None
        }
    }

    /// Reading back what `gen` writes for `v` gives `v`.
    pub proof fn lemma_round_trip(&self, v: u64)
        requires
            self.wf(),
        ensures
            self.decimal_view(self.gen_view(v)) == Ok::<u64, BaseError>(v),
    {
        self.lemma_read_write(v);
    }

    /// Equal tables write every number alike and read every byte string alike.
    pub proof fn lemma_equal_tables_agree(&self, other: &Self, v: u64, s: Seq<u8>)
        requires
            self.same_table(other),
        ensures
            self.gen_view(v) == other.gen_view(v),
            self.decimal_view(s) == other.decimal_view(s),
    {
    }
}

} // verus!
