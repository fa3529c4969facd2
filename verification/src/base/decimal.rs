use vstd::prelude::*;

verus! {

/// The digits of a number in base ten, without leading zeros.
pub open spec fn decimal_digits(number: nat) -> Seq<char>
    decreases number,
{
    if number < 10 {
        seq![digit(number)]
    } else {
        decimal_digits(number / 10).push(digit(number % 10))
    }
}

/// The digit of a number below ten.
pub open spec fn digit(number: nat) -> char {
    (('0' as u8 + number) as u8) as char
}

/// The digits of a number in base ten, without leading zeros.
pub fn decimal(number: usize) -> (digits: String)
    ensures
        digits@ == decimal_digits(number as nat),
    decreases number,
{
    let mut digits = if number < 10 {
        String::new()
    } else {
        decimal(number / 10)
    };
    let last = match number % 10 {
        0 => "0",
        1 => "1",
        2 => "2",
        3 => "3",
        4 => "4",
        5 => "5",
        6 => "6",
        7 => "7",
        8 => "8",
        _ => "9",
    };
    proof {
        reveal_strlit("0");
        reveal_strlit("1");
        reveal_strlit("2");
        reveal_strlit("3");
        reveal_strlit("4");
        reveal_strlit("5");
        reveal_strlit("6");
        reveal_strlit("7");
        reveal_strlit("8");
        reveal_strlit("9");
        assert(last@ =~= seq![digit(number as nat % 10)]);
    }
    digits.append(last);
    assert(digits@ =~= decimal_digits(number as nat));
    digits
}

/// The number that some digits stand for.
pub open spec fn number_of(digits: Seq<char>) -> int
    decreases digits.len(),
{
    if digits.len() == 0 {
        0
    } else {
        10 * number_of(digits.drop_last()) + (digits.last() as int - '0' as int)
    }
}

/// The digits of a number stand for it, all of them are digits, and none is a leading zero.
pub proof fn law_digits_stand_for_their_number(number: nat)
    ensures
        number_of(decimal_digits(number)) == number,
        decimal_digits(number).len() > 0,
        forall|i: int|
            0 <= i < decimal_digits(number).len() ==> '0' <= #[trigger] decimal_digits(number)[i]
                <= '9',
        decimal_digits(number).len() > 1 ==> decimal_digits(number)[0] != '0',
    decreases number,
{
    let digits = decimal_digits(number);
    if number < 10 {
        assert(digits.drop_last() =~= Seq::<char>::empty());
        assert(digits.last() == digit(number));
        assert(number_of(digits.drop_last()) == 0);
    } else {
        let shorter = decimal_digits(number / 10);
        law_digits_stand_for_their_number(number / 10);
        assert(digits.drop_last() =~= shorter);
        assert(digits.last() == digit(number % 10));
        assert forall|i: int| 0 <= i < digits.len() implies '0' <= #[trigger] digits[i] <= '9' by {
            if i < shorter.len() {
                assert(digits[i] == shorter[i]);
            }
        }
        assert(digits[0] == shorter[0]);
        if shorter.len() == 1 {
            assert(number_of(shorter.drop_last()) == 0);
        }
    }
}

} // verus!
