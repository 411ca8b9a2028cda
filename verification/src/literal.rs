use vstd::prelude::*;

verus! {

/// The number that a run of decimal digits denotes, most significant digit
/// first.
pub open spec fn digits_value(digits: Seq<u8>) -> nat
    decreases digits.len(),
{
    if digits.len() == 0 {
        0
    } else {
        digits_value(digits.drop_last()) * 10 + digits.last() as nat
    }
}

/// The decimal digits of a number, most significant first, without leading
/// zeros; zero is the single digit 0.
pub open spec fn decimal_digits(n: nat) -> Seq<u8>
    decreases n,
{
    if n < 10 {
        seq![n as u8]
    } else {
        decimal_digits(n / 10).push((n % 10) as u8)
    }
}

/// The character of a decimal digit.
pub open spec fn digit_char(d: u8) -> char {
    (d + 0x30) as char
}

/// A number as it is written in a diagram: its decimal digits as characters.
pub open spec fn decimal_text(n: nat) -> Seq<char> {
    decimal_digits(n).map_values(|d: u8| digit_char(d))
}

/// Every digit of `decimal_digits` is below ten.
pub proof fn lemma_decimal_digits_range(n: nat)
    ensures
        decimal_digits(n).len() >= 1,
        forall|i: int| 0 <= i < decimal_digits(n).len() ==> #[trigger] decimal_digits(n)[i] < 10,
    decreases n,
{
    if n >= 10 {
        lemma_decimal_digits_range(n / 10);
    }
}

/// The digits of a number denote that number.
pub proof fn lemma_digits_value_of_decimal_digits(n: nat)
    ensures
        digits_value(decimal_digits(n)) == n,
    decreases n,
{
    if n < 10 {
        let s = seq![n as u8];
        assert(s.drop_last().len() == 0);
        assert(digits_value(s.drop_last()) == 0);
    } else {
        lemma_digits_value_of_decimal_digits(n / 10);
        let s = decimal_digits(n / 10).push((n % 10) as u8);
        assert(s.drop_last() =~= decimal_digits(n / 10));
    }
}

/// A natural number of any size, held as its decimal digits.
#[derive(Debug, PartialEq, Eq)]
pub struct Literal {
    digits: Vec<u8>,
}

impl View for Literal {
    type V = nat;

    closed spec fn view(&self) -> nat {
        digits_value(self.digits@)
    }
}

impl Clone for Literal {
    fn clone(&self) -> (r: Self)
        ensures
            r@ == self@,
    {
        proof {
            use_type_invariant(self);
        }
        let digits = self.digits.clone();
        assert(digits@ =~= self.digits@);
        Literal { digits }
    }
}

impl Literal {
    #[verifier::type_invariant]
    spec fn canonical(self) -> bool {
        self.digits@ == decimal_digits(digits_value(self.digits@))
    }

    /// The number zero.
    pub fn zero() -> (r: Literal)
        ensures
            r@ == 0,
    {
        let mut digits: Vec<u8> = Vec::new();
        digits.push(0u8);
        proof {
            assert(digits@ =~= seq![0u8]);
            assert(digits@.drop_last().len() == 0);
            assert(digits_value(digits@.drop_last()) == 0);
        }
        Literal { digits }
    }

    /// The number `n`.
    pub fn from_u64(n: u64) -> (r: Literal)
        ensures
            r@ == n,
        decreases n,
    {
        if n < 10 {
            Literal::zero().push_digit(n as u8)
        } else {
            Literal::from_u64(n / 10).push_digit((n % 10) as u8)
        }
    }

    /// The number with one more decimal digit at its end: ten times the number
    /// plus the digit.
    pub fn push_digit(self, d: u8) -> (r: Literal)
        requires
            d < 10,
        ensures
            r@ == self@ * 10 + d,
    {
        proof {
            use_type_invariant(&self);
        }
        let ghost before = self.digits@;
        let ghost n = digits_value(before);
        let mut digits = self.digits;
        if digits.len() == 1 && digits[0] == 0 {
            digits.clear();
            proof {
                assert(before.drop_last().len() == 0);
                assert(digits_value(before.drop_last()) == 0);
            }
        }
        let ghost kept = digits@;
        digits.push(d);
        proof {
            assert(digits@.drop_last() =~= kept);
            if kept.len() == 0 {
                assert(digits_value(kept) == 0);
                assert(digits@ =~= seq![d]);
            } else {
                assert(n != 0) by {
                    if n == 0 {
                        assert(before =~= seq![0u8]);
                    }
                }
                assert((n * 10 + d) / 10 == n);
                assert((n * 10 + d) % 10 == d);
            }
        }
        Literal { digits }
    }

    /// The number as text: its decimal digits.
    pub fn to_string(&self) -> (s: String)
        ensures
            s@ == decimal_text(self@),
    {
        proof {
            use_type_invariant(self);
            lemma_decimal_digits_range(self@);
        }
        let mut s = String::new();
        let mut i: usize = 0;
        while i < self.digits.len()
            invariant
                i <= self.digits.len(),
                self.digits@ == decimal_digits(self@),
                forall|j: int| 0 <= j < self.digits.len() ==> #[trigger] self.digits[j] < 10,
                s@ == decimal_text(self@).take(i as int),
            decreases self.digits.len() - i,
        {
            let d = self.digits[i];
            s.push((d + 0x30) as char);
            proof {
                assert(decimal_text(self@).take(i + 1) =~= decimal_text(self@).take(i as int).push(
                    digit_char(d),
                ));
            }
            i += 1;
        }
        proof {
            assert(decimal_text(self@).take(i as int) =~= decimal_text(self@));
        }
        s
    }
}

} // verus!
