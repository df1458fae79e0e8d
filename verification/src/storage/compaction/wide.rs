//! Natural numbers of any size, as far as exact comparisons of products need them.

use vstd::prelude::*;

verus! {

/// What one digit counts up to.
pub const DIGIT_BASE: u64 = 0x1_0000_0000;

/// The number that digits spell, the lowest first.
pub open spec fn wide_value(digits: Seq<u32>) -> nat
    decreases digits.len(),
{
    if digits.len() == 0 {
        0
    } else {
        digits[0] as nat + DIGIT_BASE as nat * wide_value(digits.drop_first())
    }
}

/// A natural number.
pub struct Wide {
    digits: Vec<u32>,
}

impl View for Wide {
    type V = nat;

    closed spec fn view(&self) -> nat {
        wide_value(self.digits@)
    }
}

/// How two numbers compare.
#[derive(Clone, Copy, Debug, PartialEq, Eq, Structural)]
pub enum Size {
    Smaller,
    Same,
    Larger,
}

/// A number with one digit more in front.
proof fn lemma_put_in_front(digits: Seq<u32>, digit: u32)
    ensures
        wide_value(digits.insert(0, digit)) == digit as nat + DIGIT_BASE as nat * wide_value(
            digits,
        ),
{
    assert(digits.insert(0, digit).drop_first() =~= digits);
}

/// A number of one digit.
proof fn lemma_single(digits: Seq<u32>)
    requires
        digits.len() == 1,
    ensures
        wide_value(digits) == digits[0],
{
    assert(wide_value(digits.drop_first()) == 0);
}

/// The rest of a number from a digit on.
proof fn lemma_rest(digits: Seq<u32>, from: int)
    requires
        0 <= from < digits.len(),
    ensures
        wide_value(digits.skip(from)) == digits[from] as nat + DIGIT_BASE as nat * wide_value(
            digits.skip(from + 1),
        ),
{
    assert(digits.skip(from).drop_first() =~= digits.skip(from + 1));
}

fn digit_or_zero(digits: &Vec<u32>, at: usize) -> (digit: u32)
    ensures
        digit == if at < digits@.len() {
            digits@[at as int]
        } else {
            0
        },
{
    if at < digits.len() {
        digits[at]
    } else {
        0
    }
}

/// What is beyond the last digit.
spec fn beyond(digits: Seq<u32>, from: int) -> nat {
    if from < digits.len() {
        wide_value(digits.skip(from))
    } else {
        0
    }
}

proof fn lemma_beyond(digits: Seq<u32>, from: int)
    requires
        0 <= from,
    ensures
        beyond(digits, from) == (if from < digits.len() {
            digits[from] as nat
        } else {
            0
        }) + DIGIT_BASE as nat * beyond(digits, from + 1),
{
    if from < digits.len() {
        lemma_rest(digits, from);
        if from + 1 == digits.len() {
            assert(digits.skip(from + 1).len() == 0);
        }
    }
}

proof fn lemma_whole(digits: Seq<u32>)
    ensures
        beyond(digits, 0) == wide_value(digits),
{
    if digits.len() > 0 {
        assert(digits.skip(0) =~= digits);
    }
}

/// The low and the high half of a number.
fn halves(number: u64) -> (parts: (u32, u32))
    ensures
        number == parts.0 + DIGIT_BASE * parts.1,
{
    ((number % DIGIT_BASE) as u32, (number / DIGIT_BASE) as u32)
}

/// `a` plus `b` plus `carry`, from the digits at `from` on.
fn add_from(a: &Vec<u32>, b: &Vec<u32>, from: usize, carry: u32) -> (sum: Vec<u32>)
    requires
        carry <= 1,
    ensures
        wide_value(sum@) == beyond(a@, from as int) + beyond(b@, from as int) + carry,
    decreases a@.len() + b@.len() - from,
{
    if from >= a.len() && from >= b.len() {
        let mut sum: Vec<u32> = Vec::new();
        sum.push(carry);
        proof {
            lemma_single(sum@);
        }
        return sum;
    }
    let total: u64 = digit_or_zero(a, from) as u64 + digit_or_zero(b, from) as u64 + carry as u64;
    let (low, high): (u32, u32) = halves(total);
    let mut sum: Vec<u32> = add_from(a, b, from + 1, high);
    let ghost rest = sum@;
    sum.insert(0, low);
    proof {
        lemma_put_in_front(rest, low);
        lemma_beyond(a@, from as int);
        lemma_beyond(b@, from as int);
        assert(DIGIT_BASE * (beyond(a@, from + 1) + beyond(b@, from + 1) + high) == DIGIT_BASE
            * beyond(a@, from + 1) + DIGIT_BASE * beyond(b@, from + 1) + DIGIT_BASE * high)
            by (nonlinear_arith);
    }
    sum
}

/// `a` times `digit` plus `carry`, from the digits at `from` on.
fn scale_from(a: &Vec<u32>, digit: u32, from: usize, carry: u32) -> (product: Vec<u32>)
    requires
        from <= a@.len(),
    ensures
        wide_value(product@) == beyond(a@, from as int) * digit + carry,
    decreases a@.len() - from,
{
    if from == a.len() {
        let mut product: Vec<u32> = Vec::new();
        product.push(carry);
        proof {
            lemma_single(product@);
            assert(beyond(a@, from as int) * digit == 0) by (nonlinear_arith)
                requires
                    beyond(a@, from as int) == 0,
            ;
        }
        return product;
    }
    proof {
        assert(a@[from as int] * digit <= 0xffff_ffff * 0xffff_ffff) by (nonlinear_arith)
            requires
                0 <= a@[from as int] <= 0xffff_ffff,
                0 <= digit <= 0xffff_ffff,
        ;
    }
    let total: u64 = a[from] as u64 * digit as u64 + carry as u64;
    let (low, high): (u32, u32) = halves(total);
    let mut product: Vec<u32> = scale_from(a, digit, from + 1, high);
    let ghost rest = product@;
    product.insert(0, low);
    proof {
        lemma_put_in_front(rest, low);
        lemma_beyond(a@, from as int);
        let x = a@[from as int] as int;
        let y = beyond(a@, from + 1) as int;
        assert(low + DIGIT_BASE * (y * digit + high) == (x + DIGIT_BASE * y) * digit + carry)
            by (nonlinear_arith)
            requires
                low + DIGIT_BASE * high == x * digit + carry,
        ;
    }
    product
}

/// How the digits at `from` and behind compare.
fn compare_from(a: &Vec<u32>, b: &Vec<u32>, from: usize) -> (size: Size)
    ensures
        size is Smaller <==> beyond(a@, from as int) < beyond(b@, from as int),
        size is Same <==> beyond(a@, from as int) == beyond(b@, from as int),
    decreases a@.len() + b@.len() - from,
{
    if from >= a.len() && from >= b.len() {
        return Size::Same;
    }
    let above: Size = compare_from(a, b, from + 1);
    let left: u32 = digit_or_zero(a, from);
    let right: u32 = digit_or_zero(b, from);
    proof {
        lemma_beyond(a@, from as int);
        lemma_beyond(b@, from as int);
    }
    match above {
        Size::Same => {
            if left < right {
                Size::Smaller
            } else if left == right {
                Size::Same
            } else {
                Size::Larger
            }
        },
        other => other,
    }
}

impl Wide {
    /// A number.
    pub fn new(number: u128) -> (wide: Self)
        ensures
            wide@ == number,
    {
        let mut digits: Vec<u32> = Vec::new();
        let base: u128 = DIGIT_BASE as u128;
        let d0: u32 = (number % base) as u32;
        let r0: u128 = number / base;
        let d1: u32 = (r0 % base) as u32;
        let r1: u128 = r0 / base;
        let d2: u32 = (r1 % base) as u32;
        let d3: u32 = (r1 / base) as u32;
        digits.push(d0);
        digits.push(d1);
        digits.push(d2);
        digits.push(d3);
        proof {
            lemma_rest(digits@, 0);
            lemma_rest(digits@, 1);
            lemma_rest(digits@, 2);
            lemma_rest(digits@, 3);
            assert(digits@.skip(4).len() == 0);
            assert(digits@.skip(0) =~= digits@);
        }
        Wide { digits }
    }

    /// The sum of two numbers.
    pub fn plus(&self, other: &Wide) -> (sum: Wide)
        ensures
            sum@ == self@ + other@,
    {
        proof {
            lemma_whole(self.digits@);
            lemma_whole(other.digits@);
        }
        Wide { digits: add_from(&self.digits, &other.digits, 0, 0) }
    }

    /// The product of two numbers.
    pub fn times(&self, other: &Wide) -> (product: Wide)
        ensures
            product@ == self@ * other@,
    {
        let mut product: Vec<u32> = Vec::new();
        let mut from: usize = self.digits.len();
        proof {
            lemma_whole(self.digits@);
            assert(self.digits@.skip(from as int).len() == 0);
            assert(beyond(self.digits@, from as int) * other@ == 0) by (nonlinear_arith)
                requires
                    beyond(self.digits@, from as int) == 0,
            ;
        }
        while from > 0
            invariant
                from <= self.digits@.len(),
                wide_value(product@) == beyond(self.digits@, from as int) * other@,
            decreases from,
        {
            from = from - 1;
            let ghost before = product@;
            product.insert(0, 0);
            let digit: u32 = self.digits[from];
            let added: Vec<u32> = scale_from(&other.digits, digit, 0, 0);
            proof {
                lemma_put_in_front(before, 0);
                lemma_whole(other.digits@);
                lemma_whole(product@);
                lemma_whole(added@);
                lemma_beyond(self.digits@, from as int);
                let y = beyond(self.digits@, from + 1) as int;
                let o = other@ as int;
                assert(DIGIT_BASE * (y * o) + o * digit == (digit + DIGIT_BASE * y) * o)
                    by (nonlinear_arith);
            }
            product = add_from(&product, &added, 0, 0);
        }
        proof {
            if self.digits@.len() > 0 {
                assert(self.digits@.skip(0) =~= self.digits@);
            }
        }
        Wide { digits: product }
    }

    /// Whether this is no more than another number.
    pub fn at_most(&self, other: &Wide) -> (is: bool)
        ensures
            is == (self@ <= other@),
    {
        proof {
            lemma_whole(self.digits@);
            lemma_whole(other.digits@);
        }
        match compare_from(&self.digits, &other.digits, 0) {
            Size::Larger => false,
            _ => true,
        }
    }
}

} // verus!
