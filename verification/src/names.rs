//! The supply of fresh identifiers: a counter that never repeats, written
//! out in decimal behind the letter `v`.

use vstd::prelude::*;
use vstd::string::StringExecFns;

verus! {

/// The character that stands for a decimal digit.
pub open spec fn digit_char(d: nat) -> char {
    if d == 0 {
        '0'
    } else if d == 1 {
        '1'
    } else if d == 2 {
        '2'
    } else if d == 3 {
        '3'
    } else if d == 4 {
        '4'
    } else if d == 5 {
        '5'
    } else if d == 6 {
        '6'
    } else if d == 7 {
        '7'
    } else if d == 8 {
        '8'
    } else {
        '9'
    }
}

/// The decimal notation of a number, without leading zeros.
pub open spec fn decimal(n: nat) -> Seq<char>
    decreases n,
{
    if n < 10 {
        seq![digit_char(n)]
    } else {
        decimal(n / 10).push(digit_char(n % 10))
    }
}

/// The identifier that the supply hands out at its `n`-th call.
pub open spec fn fresh_name(n: nat) -> Seq<char> {
    seq!['v'] + decimal(n)
}

proof fn lemma_digit_char_injective(a: nat, b: nat)
    requires
        a < 10,
        b < 10,
        digit_char(a) == digit_char(b),
    ensures
        a == b,
{
}

/// Different numbers have different decimal notations.
pub proof fn lemma_decimal_injective(a: nat, b: nat)
    requires
        decimal(a) == decimal(b),
    ensures
        a == b,
    decreases a,
{
    if a < 10 {
        if b >= 10 {
            lemma_decimal_len(b / 10);
            assert(decimal(b).len() >= 2);
        }
        if b < 10 {
            assert(decimal(a)[0] == digit_char(a));
            assert(decimal(b)[0] == digit_char(b));
            lemma_digit_char_injective(a, b);
        }
    } else {
        if b < 10 {
            lemma_decimal_len(a / 10);
            assert(decimal(a).len() >= 2);
        } else {
            let da = decimal(a / 10);
            let db = decimal(b / 10);
            assert(decimal(a).drop_last() =~= da);
            assert(decimal(b).drop_last() =~= db);
            assert(decimal(a).last() == digit_char(a % 10));
            assert(decimal(b).last() == digit_char(b % 10));
            lemma_decimal_injective(a / 10, b / 10);
            lemma_digit_char_injective(a % 10, b % 10);
            assert(a % 10 == b % 10);
            assert(a == 10 * (a / 10) + a % 10);
            assert(b == 10 * (b / 10) + b % 10);
        }
    }
}

/// A decimal notation has at least one digit.
pub proof fn lemma_decimal_len(n: nat)
    ensures
        decimal(n).len() >= 1,
    decreases n,
{
    if n >= 10 {
        lemma_decimal_len(n / 10);
    }
}

/// The supply never hands out the same identifier at two different calls.
pub proof fn lemma_fresh_name_injective(a: nat, b: nat)
    requires
        fresh_name(a) == fresh_name(b),
    ensures
        a == b,
{
    assert(fresh_name(a).subrange(1, fresh_name(a).len() as int) =~= decimal(a));
    assert(fresh_name(b).subrange(1, fresh_name(b).len() as int) =~= decimal(b));
    lemma_decimal_injective(a, b);
}

/// The number that a row of decimal digits, most significant first, stands
/// for.
spec fn digits_value(digits: Seq<u8>) -> nat
    decreases digits.len(),
{
    if digits.len() == 0 {
        0
    } else {
        digits_value(digits.drop_last()) * 10 + digits.last() as nat
    }
}

/// A row of decimal digits with no leading zero (a lone zero is in order).
spec fn canonical_digits(digits: Seq<u8>) -> bool {
    &&& digits.len() >= 1
    &&& forall|i: int| 0 <= i < digits.len() ==> digits[i] < 10
    &&& digits.len() > 1 ==> digits[0] != 0
}

/// The digits of the next number.
spec fn next_digits(digits: Seq<u8>) -> Seq<u8>
    decreases digits.len(),
{
    if digits.len() == 0 {
        seq![1u8]
    } else if digits.last() < 9 {
        digits.drop_last().push((digits.last() + 1) as u8)
    } else {
        next_digits(digits.drop_last()).push(0u8)
    }
}

/// The characters of a row of digits.
spec fn digit_chars(digits: Seq<u8>) -> Seq<char> {
    Seq::new(digits.len(), |i: int| digit_char(digits[i] as nat))
}

proof fn lemma_next_digits(digits: Seq<u8>)
    requires
        forall|i: int| 0 <= i < digits.len() ==> digits[i] < 10,
    ensures
        digits_value(next_digits(digits)) == digits_value(digits) + 1,
        next_digits(digits).len() >= 1,
        next_digits(digits).len() >= digits.len(),
        forall|i: int| 0 <= i < next_digits(digits).len() ==> next_digits(digits)[i] < 10,
        next_digits(digits)[0] != 0 || (digits.len() >= 1 && digits[0] == 0 && digits.len()
            == next_digits(digits).len()),
        digits.len() == 1 && digits[0] == 0 ==> next_digits(digits) == seq![1u8],
    decreases digits.len(),
{
    let next = next_digits(digits);
    if digits.len() == 0 {
        assert(next.drop_last() =~= Seq::<u8>::empty());
        assert(digits_value(next) == digits_value(next.drop_last()) * 10 + 1);
    } else if digits.last() < 9 {
        assert(next.drop_last() =~= digits.drop_last());
        assert(next.last() == digits.last() + 1);
        if digits.len() == 1 && digits[0] == 0 {
            assert(next =~= seq![1u8]);
        }
    } else {
        let front = digits.drop_last();
        lemma_next_digits(front);
        assert(next.drop_last() =~= next_digits(front));
        assert(next.last() == 0);
        assert(next[0] == next_digits(front)[0]);
    }
}

proof fn lemma_leading_digit(digits: Seq<u8>)
    requires
        digits.len() >= 1,
        digits[0] != 0,
    ensures
        digits_value(digits) >= 1,
    decreases digits.len(),
{
    if digits.len() > 1 {
        lemma_leading_digit(digits.drop_last());
    } else {
        assert(digits.drop_last().len() == 0);
    }
}

proof fn lemma_canonical_decimal(digits: Seq<u8>)
    requires
        canonical_digits(digits),
    ensures
        decimal(digits_value(digits)) == digit_chars(digits),
    decreases digits.len(),
{
    let front = digits.drop_last();
    if digits.len() == 1 {
        assert(front.len() == 0);
        assert(digits_value(digits) == digits[0] as nat);
        assert(decimal(digits_value(digits)) =~= digit_chars(digits));
    } else {
        lemma_canonical_decimal(front);
        lemma_leading_digit(front);
        let v = digits_value(digits);
        assert(v / 10 == digits_value(front) && v % 10 == digits.last() as nat) by {
            assert(v == digits_value(front) * 10 + digits.last() as nat);
        }
        assert(decimal(v) =~= digit_chars(digits));
    }
}

/// A supply of identifiers. Each call of [`NameSupply::fresh`] hands out
/// one that no earlier call on the same supply has handed out.
pub struct NameSupply {
    digits: Vec<u8>,
}

fn digit_str(d: u8) -> (s: &'static str)
    requires
        d < 10,
    ensures
        s@ == seq![digit_char(d as nat)],
{
    proof {
        reveal_strlit("0");
        reveal_strlit("1");
        reveal_strlit("2");
        reveal_strlit("3");
        reveal_strlit("4");
        reveal_strlit("5");
        reveal_strlit("6");
        reveal_strlit("7");
        reveal_strlit("8");
        reveal_strlit("9");
    }
    let s = if d == 0 {
        "0"
    } else if d == 1 {
        "1"
    } else if d == 2 {
        "2"
    } else if d == 3 {
        "3"
    } else if d == 4 {
        "4"
    } else if d == 5 {
        "5"
    } else if d == 6 {
        "6"
    } else if d == 7 {
        "7"
    } else if d == 8 {
        "8"
    } else {
        "9"
    };
    assert(s@ =~= seq![digit_char(d as nat)]);
    s
}

/// Writes a number out in decimal.
pub fn decimal_string(n: usize) -> (s: String)
    ensures
        s@ == decimal(n as nat),
    decreases n,
{
    if n < 10 {
        String::from_str(digit_str(n as u8))
    } else {
        let mut s = decimal_string(n / 10);
        s.append(digit_str((n % 10) as u8));
        assert(s@ =~= decimal(n as nat));
        s
    }
}

fn advance(digits: &mut Vec<u8>)
    requires
        forall|i: int| 0 <= i < old(digits).len() ==> old(digits)[i] < 10,
    ensures
        final(digits)@ == next_digits(old(digits)@),
    decreases old(digits).len(),
{
    match digits.pop() {
        None => {
            digits.push(1);
            assert(digits@ =~= next_digits(old(digits)@));
        },
        Some(last) => {
            if last < 9 {
                digits.push(last + 1);
            } else {
                advance(digits);
                digits.push(0);
            }
        },
    }
}

impl NameSupply {
    #[verifier::type_invariant]
    spec fn well_formed(&self) -> bool {
        canonical_digits(self.digits@)
    }

    /// How many identifiers the supply has handed out.
    pub closed spec fn issued(&self) -> nat {
        digits_value(self.digits@)
    }

    /// A supply that has handed out nothing yet.
    pub fn new() -> (supply: NameSupply)
        ensures
            supply.issued() == 0,
    {
        let mut digits: Vec<u8> = Vec::new();
        digits.push(0);
        assert(digits_value(digits@.drop_last()) == 0);
        NameSupply { digits }
    }

    /// Hands out the next identifier: the letter `v` and the number of this
    /// call in decimal, the first call being number one.
    pub fn fresh(&mut self) -> (name: String)
        ensures
            final(self).issued() == old(self).issued() + 1,
            name@ == fresh_name(final(self).issued()),
    {
        proof {
            use_type_invariant(&*self);
        }
        let mut digits: Vec<u8> = Vec::new();
        let mut i: usize = 0;
        while i < self.digits.len()
            invariant
                i <= self.digits.len(),
                digits@ == self.digits@.subrange(0, i as int),
            decreases self.digits.len() - i,
        {
            digits.push(self.digits[i]);
            i += 1;
            assert(digits@ =~= self.digits@.subrange(0, i as int));
        }
        assert(digits@ =~= self.digits@);
        advance(&mut digits);
        proof {
            lemma_next_digits(self.digits@);
            lemma_canonical_decimal(digits@);
        }
        let mut name = String::from_str("v");
        proof {
            reveal_strlit("v");
        }
        assert(name@ =~= seq!['v']);
        let mut j: usize = 0;
        while j < digits.len()
            invariant
                j <= digits.len(),
                forall|k: int| 0 <= k < digits.len() ==> digits[k] < 10,
                name@ == seq!['v'] + digit_chars(digits@).subrange(0, j as int),
            decreases digits.len() - j,
        {
            name.append(digit_str(digits[j]));
            j += 1;
            assert(name@ =~= seq!['v'] + digit_chars(digits@).subrange(0, j as int));
        }
        assert(digit_chars(digits@).subrange(0, j as int) =~= digit_chars(digits@));
        self.digits = digits;
        name
    }
}

} // verus!
