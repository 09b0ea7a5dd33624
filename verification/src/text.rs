//! Decimal numbers as text.
use vstd::prelude::*;
use vstd::string::StringExecFns;

verus! {

/// The character for the digit `d`.
pub open spec fn digit(d: nat) -> char {
    if d == 0 {
        '0'
    } else if d == 1 {
        '1'
    } else if d == 2 {
        '2'
    } else if d == 3 {
        '3'
    } else if d == 4 {
        '4'
    } else if d == 5 {
        '5'
    } else if d == 6 {
        '6'
    } else if d == 7 {
        '7'
    } else if d == 8 {
        '8'
    } else {
        '9'
    }
}

/// The number `n` in decimal digits, without leading zeros.
pub open spec fn decimal(n: nat) -> Seq<char>
    decreases n,
{
    if n < 10 {
        seq![digit(n)]
    } else {
        decimal(n / 10).push(digit(n % 10))
    }
}

/// The digits of what is left of a number: nothing once it is zero.
spec fn leading(n: nat) -> Seq<char> {
    if n == 0 {
        Seq::empty()
    } else {
        decimal(n)
    }
}

/// The text of digits that were taken from a number's low end first.
spec fn reversed(digits: Seq<u8>) -> Seq<char> {
    Seq::new(digits.len(), |j: int| digit(digits[digits.len() - 1 - j] as nat))
}

/// The one-character text of the digit `d`.
pub fn digit_str(d: u8) -> (s: &'static str)
    requires
        d < 10,
    ensures
        s@ == seq![digit(d as nat)],
{
    proof {
        reveal_strlit("0");
        reveal_strlit("1");
        reveal_strlit("2");
        reveal_strlit("3");
        reveal_strlit("4");
        reveal_strlit("5");
        reveal_strlit("6");
        reveal_strlit("7");
        reveal_strlit("8");
        reveal_strlit("9");
    }
    let s = if d == 0 {
        "0"
    } else if d == 1 {
        "1"
    } else if d == 2 {
        "2"
    } else if d == 3 {
        "3"
    } else if d == 4 {
        "4"
    } else if d == 5 {
        "5"
    } else if d == 6 {
        "6"
    } else if d == 7 {
        "7"
    } else if d == 8 {
        "8"
    } else {
        "9"
    };
    assert(s@ =~= seq![digit(d as nat)]);
    s
}

/// Appends `n` in decimal digits to `text`.
pub fn push_decimal(text: &mut String, n: u64)
    ensures
        final(text)@ == old(text)@ + decimal(n as nat),
{
    let mut digits: Vec<u8> = Vec::new();
    digits.push((n % 10) as u8);
    let mut rest = n / 10;
    proof {
        assert(reversed(digits@) =~= seq![digit((n % 10) as nat)]);
        assert(decimal(n as nat) =~= leading(rest as nat) + reversed(digits@));
    }
    while rest > 0
        invariant
            decimal(n as nat) == leading(rest as nat) + reversed(digits@),
            forall|i: int| 0 <= i < digits@.len() ==> #[trigger] digits@[i] < 10,
        decreases rest,
    {
        let ghost before = digits@;
        digits.push((rest % 10) as u8);
        proof {
            let d = digit((rest % 10) as nat);
            assert(reversed(digits@) =~= seq![d] + reversed(before));
            assert(leading(rest as nat) =~= leading((rest / 10) as nat) + seq![d]);
            assert(leading(rest as nat) + reversed(before) =~= leading((rest / 10) as nat) + (seq![
                d,
            ] + reversed(before)));
        }
        rest = rest / 10;
    }
    let ghost start = text@;
    let mut i: usize = digits.len();
    proof {
        assert(start + reversed(digits@).take(0) =~= start);
    }
    while i > 0
        invariant
            i <= digits@.len(),
            forall|k: int| 0 <= k < digits@.len() ==> #[trigger] digits@[k] < 10,
            text@ == start + reversed(digits@).take(digits@.len() - i),
        decreases i,
    {
        i -= 1;
        let ghost done = text@;
        text.append(digit_str(digits[i]));
        proof {
            let all = reversed(digits@);
            let k = digits@.len() - 1 - i;
            assert(all.take(k + 1) =~= all.take(k).push(all[k]));
            assert(text@ =~= start + all.take(k + 1));
        }
    }
    proof {
        assert(reversed(digits@).take(digits@.len() as int) =~= reversed(digits@));
        assert(leading(0) + reversed(digits@) =~= reversed(digits@));
    }
}

} // verus!
