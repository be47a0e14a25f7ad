use vstd::prelude::*;

verus! {

use crate::error::MathError;
use vstd::string::StringExecFns;

/// The binary digits of `n`, most significant first; empty for zero.
pub open spec fn bin_digits(n: nat) -> Seq<char>
    decreases n,
{
    if n == 0 {
        Seq::empty()
    } else {
        bin_digits(n / 2).push(if n % 2 == 1 {
            '1'
        } else {
            '0'
        })
    }
}

/// Renders an unsigned integer in binary: the digit characters of
/// `bin_digits`, most significant first, with `"0"` for zero.
pub fn binary_representation(input: usize) -> (r: Result<String, MathError>)
    ensures
        r matches Ok(s) && s@ == (if input == 0 {
            seq!['0']
        } else {
            bin_digits(input as nat)
        }),
{
    proof {
        reveal_strlit("0");
        reveal_strlit("1");
    }
    let mut digits: Vec<char> = Vec::new();
    let mut cur: usize = input;
    proof {
        assert(bin_digits(input as nat) =~= bin_digits(cur as nat) + digits@.reverse());
    }
    while cur != 0
        invariant
            bin_digits(input as nat) == bin_digits(cur as nat) + digits@.reverse(),
            forall|j: int| 0 <= j < digits@.len() ==> (digits@[j] == '0' || digits@[j] == '1'),
        decreases cur,
    {
        let ghost pre = digits@;
        let bit = if cur % 2 == 1 {
            '1'
        } else {
            '0'
        };
        digits.push(bit);
        proof {
            assert(digits@.reverse() =~= seq![bit] + pre.reverse());
            assert(bin_digits(cur as nat) == bin_digits((cur / 2) as nat).push(bit));
            assert(bin_digits((cur / 2) as nat).push(bit) =~= bin_digits((cur / 2) as nat)
                + seq![bit]);
            assert(bin_digits((cur / 2) as nat) + seq![bit] + pre.reverse() =~= bin_digits(
                (cur / 2) as nat,
            ) + (seq![bit] + pre.reverse()));
        }
        cur = cur / 2;
    }
    if digits.len() == 0 {
        let mut zero = String::new();
        zero.append("0");
        return Ok(zero);
    }
    let mut result = String::new();
    let mut i: usize = digits.len();
    while i > 0
        invariant
            i <= digits.len(),
            result@.len() == digits.len() - i,
            forall|j: int|
                0 <= j < result@.len() ==> result@[j] == digits@[digits@.len() - 1 - j],
            forall|j: int| 0 <= j < digits@.len() ==> (digits@[j] == '0' || digits@[j] == '1'),
        decreases i,
    {
        proof {
            reveal_strlit("0");
            reveal_strlit("1");
        }
        i = i - 1;
        let c = digits[i];
        if c == '1' {
            result.append("1");
        } else {
            result.append("0");
        }
    }
    proof {
        assert(result@ =~= digits@.reverse());
        assert(bin_digits(0) + digits@.reverse() =~= digits@.reverse());
    }
    Ok(result)
}

} // verus!
