use crate::text::{chars_of, decimal, decimal_text, digit_char, digit_text};
use vstd::prelude::*;
use vstd::string::StringExecFns;

verus! {

/// A number with three decimal places, held as a count of thousandths: calories per
/// serving, or servings.
#[derive(Debug, Clone, Copy, PartialEq, Eq, Structural)]
pub struct Amount {
    pub thousandths: u64,
}

impl View for Amount {
    type V = nat;

    open spec fn view(&self) -> nat {
        self.thousandths as nat
    }
}

/// Whether a count of thousandths is one that an `Amount` can hold.
pub open spec fn fits(thousandths: nat) -> bool {
    thousandths <= u64::MAX
}

/// The product of two amounts, in thousandths: what is beyond the third decimal
/// place is cut off.
pub open spec fn product(a: nat, b: nat) -> nat {
    a * b / 1000
}

/// The amount of so many thousandths, if an `Amount` can hold it.
pub open spec fn held(thousandths: nat) -> Option<Amount> {
    if fits(thousandths) {
        Some(Amount { thousandths: thousandths as u64 })
    } else {
        None
    }
}

/// The digits after the decimal point of so many thousandths: as many as it takes,
/// and at least one.
pub open spec fn fraction_text(thousandths: nat) -> Seq<char> {
    if thousandths % 100 == 0 {
        seq![digit_char(thousandths / 100 % 10)]
    } else if thousandths % 10 == 0 {
        seq![digit_char(thousandths / 100 % 10), digit_char(thousandths / 10 % 10)]
    } else {
        seq![
            digit_char(thousandths / 100 % 10),
            digit_char(thousandths / 10 % 10),
            digit_char(thousandths % 10),
        ]
    }
}

/// An amount written in decimal digits, with a point and at least one digit after it.
pub open spec fn amount_text(thousandths: nat) -> Seq<char> {
    decimal(thousandths / 1000) + seq!['.'] + fraction_text(thousandths % 1000)
}

/// The number that a digit stands for; none for any other character.
pub open spec fn digit_value(c: char) -> Option<nat> {
    if c == '0' {
        Some(0)
    } else if c == '1' {
        Some(1)
    } else if c == '2' {
        Some(2)
    } else if c == '3' {
        Some(3)
    } else if c == '4' {
        Some(4)
    } else if c == '5' {
        Some(5)
    } else if c == '6' {
        Some(6)
    } else if c == '7' {
        Some(7)
    } else if c == '8' {
        Some(8)
    } else if c == '9' {
        Some(9)
    } else {
        None
    }
}

/// Every character of the text is a digit.
pub open spec fn all_digits(text: Seq<char>) -> bool {
    forall|i: int| 0 <= i < text.len() ==> digit_value(#[trigger] text[i]).is_some()
}

/// The number that a text of digits writes; the empty text writes nothing.
pub open spec fn number(digits: Seq<char>) -> nat
    decreases digits.len(),
{
    if digits.len() == 0 {
        0
    } else {
        number(digits.drop_last()) * 10 + match digit_value(digits.last()) {
            Some(d) => d,
            None => 0,
        }
    }
}

/// Where the whole part of a number ends: at the first point, or at the end.
pub open spec fn whole_end(text: Seq<char>) -> int
    decreases text.len(),
{
    if text.len() == 0 || text.first() == '.' {
        0
    } else {
        1 + whole_end(text.drop_first())
    }
}

/// The thousandths that the digits after the point write: the first three count.
pub open spec fn fraction(digits: Seq<char>) -> nat {
    if digits.len() == 0 {
        0
    } else if digits.len() == 1 {
        number(digits) * 100
    } else if digits.len() == 2 {
        number(digits) * 10
    } else {
        number(digits.take(3))
    }
}

/// The thousandths that a text writes as a decimal number: digits, and after them
/// at most a point and more digits, of which the first three count. None where the
/// text is anything else.
pub open spec fn written_amount(text: Seq<char>) -> Option<nat> {
    let end = whole_end(text);
    let whole = text.take(end);
    let rest = if end < text.len() {
        text.skip(end + 1)
    } else {
        Seq::empty()
    };
    if whole.len() > 0 && all_digits(whole) && all_digits(rest) {
        Some(number(whole) * 1000 + fraction(rest))
    } else {
        None
    }
}

/// The number that a digit stands for.
fn digit_of(c: char) -> (digit: Option<u64>)
    ensures
        match digit {
            Some(d) => d < 10 && digit_value(c) == Some(d as nat),
            None => digit_value(c).is_none(),
        },
{
    if c == '0' {
        Some(0)
    } else if c == '1' {
        Some(1)
    } else if c == '2' {
        Some(2)
    } else if c == '3' {
        Some(3)
    } else if c == '4' {
        Some(4)
    } else if c == '5' {
        Some(5)
    } else if c == '6' {
        Some(6)
    } else if c == '7' {
        Some(7)
    } else if c == '8' {
        Some(8)
    } else if c == '9' {
        Some(9)
    } else {
        None
    }
}

/// The whole part ends within the text.
proof fn lemma_whole_end(text: Seq<char>)
    ensures
        0 <= whole_end(text) <= text.len(),
        whole_end(text) < text.len() ==> text[whole_end(text)] == '.',
        text.len() > 0 && text.first() != '.' ==> whole_end(text) >= 1,
    decreases text.len(),
{
    if text.len() > 0 && text.first() != '.' {
        lemma_whole_end(text.drop_first());
    }
}

impl Amount {
    /// The amount that a text writes as a decimal number, if it writes one that an
    /// `Amount` can hold.
    pub fn parse(text: &str) -> (amount: Option<Amount>)
        ensures
            amount == match written_amount(text@) {
                Some(thousandths) => held(thousandths),
                None => None,
            },
    {
        let chars = chars_of(text);
        let ghost end = whole_end(text@);
        let ghost whole = text@.take(end);
        let mut i: usize = 0;
        let mut sum: u128 = 0;
        let mut large = false;
        proof {
            lemma_whole_end(text@);
        }
        assert(text@.skip(0) =~= text@);
        assert(text@.take(0) =~= Seq::<char>::empty());
        while i < chars.len() && chars[i] != '.'
            invariant
                chars@ == text@,
                0 <= i <= chars.len(),
                end == whole_end(text@),
                end == i + whole_end(text@.skip(i as int)),
                whole == text@.take(end),
                all_digits(text@.take(i as int)),
                sum <= u64::MAX,
                !large ==> sum == number(text@.take(i as int)),
                large ==> number(text@.take(i as int)) > u64::MAX,
            decreases chars.len() - i,
        {
            proof {
                assert(text@.skip(i as int).drop_first() =~= text@.skip(i + 1));
                assert(text@.take(i + 1).drop_last() =~= text@.take(i as int));
                assert(text@.take(i + 1).last() == text@[i as int]);
            }
            match digit_of(chars[i]) {
                Some(d) => {
                    if !large {
                        let next: u128 = sum * 10 + d as u128;
                        if next > u64::MAX as u128 {
                            large = true;
                        } else {
                            sum = next;
                        }
                    }
                    assert forall|k: int| 0 <= k < i + 1 implies digit_value(
                        #[trigger] text@.take(i + 1)[k],
                    ).is_some() by {
                        if k < i {
                            assert(text@.take(i as int)[k] == text@.take(i + 1)[k]);
                        }
                    }
                },
                None => {
                    proof {
                        lemma_whole_end(text@.skip(i as int));
                        assert(text@.skip(i as int).first() == text@[i as int]);
                        assert(whole[i as int] == text@[i as int]);
                        assert(!all_digits(whole));
                    }
                    return None;
                },
            }
            i += 1;
        }
        assert(end == i);
        if i == 0 {
            return None;
        }
        let ghost rest = if end < text@.len() {
            text@.skip(end + 1)
        } else {
            Seq::<char>::empty()
        };
        let start: usize = if i < chars.len() {
            i + 1
        } else {
            i
        };
        assert(rest =~= text@.skip(start as int));
        let mut k: usize = start;
        let mut part: u128 = 0;
        assert(rest.take(0) =~= Seq::<char>::empty());
        while k < chars.len()
            invariant
                chars@ == text@,
                start <= k <= chars.len(),
                rest == text@.skip(start as int),
                end == whole_end(text@),
                rest == if end < text@.len() {
                    text@.skip(end + 1)
                } else {
                    Seq::<char>::empty()
                },
                all_digits(rest.take(k - start)),
                part < 1000,
                k - start == 0 ==> part == 0,
                k - start == 1 ==> part == number(rest.take(1)) * 100,
                k - start == 2 ==> part == number(rest.take(2)) * 10,
                k - start >= 3 ==> part == number(rest.take(3)),
            decreases chars.len() - k,
        {
            let ghost j = k - start;
            proof {
                assert(rest.take(j + 1).drop_last() =~= rest.take(j));
                assert(rest.take(j + 1).last() == text@[k as int]);
                assert(rest[j] == text@[k as int]);
                assert(number(Seq::<char>::empty()) == 0);
                if j == 0 {
                    assert(rest.take(0) =~= Seq::<char>::empty());
                }
                assert(number(rest.take(j + 1)) == number(rest.take(j)) * 10 + match digit_value(
                    text@[k as int],
                ) {
                    Some(d) => d,
                    None => 0,
                });
                if j >= 3 {
                    assert(rest.take(j + 1).take(3) =~= rest.take(3));
                }
            }
            match digit_of(chars[k]) {
                Some(d) => {
                    if k - start == 0 {
                        part = d as u128 * 100;
                    } else if k - start == 1 {
                        part = part + d as u128 * 10;
                    } else if k - start == 2 {
                        part = part + d as u128;
                    }
                    assert forall|m: int| 0 <= m < j + 1 implies digit_value(
                        #[trigger] rest.take(j + 1)[m],
                    ).is_some() by {
                        if m < j {
                            assert(rest.take(j)[m] == rest.take(j + 1)[m]);
                        }
                    }
                },
                None => {
                    assert(!all_digits(rest));
                    return None;
                },
            }
            k += 1;
        }
        assert(rest.take(k - start) =~= rest);
        assert(part == fraction(rest));
        if large {
            return None;
        }
        let total: u128 = sum * 1000 + part;
        if total <= u64::MAX as u128 {
            Some(Amount { thousandths: total as u64 })
        } else {
            None
        }
    }

    /// The amount of a whole number.
    pub fn whole(number: u32) -> (amount: Amount)
        ensures
            amount@ == number * 1000,
    {
        let wide: u64 = number as u64;
        Amount { thousandths: wide * 1000 }
    }

    /// The amount of so many thousandths.
    pub fn from_thousandths(thousandths: u64) -> (amount: Amount)
        ensures
            amount@ == thousandths,
    {
        Amount { thousandths }
    }

    /// The sum of two amounts, if an `Amount` can hold it.
    pub fn plus(self, other: Amount) -> (sum: Option<Amount>)
        ensures
            sum == held(self@ + other@),
    {
        match self.thousandths.checked_add(other.thousandths) {
            Some(thousandths) => Some(Amount { thousandths }),
            None => None,
        }
    }

    /// The product of two amounts, if an `Amount` can hold it: so many servings of a
    /// food with so many calories per serving.
    pub fn times(self, other: Amount) -> (scaled: Option<Amount>)
        ensures
            scaled == held(product(self@, other@)),
    {
        let a: u128 = self.thousandths as u128;
        let b: u128 = other.thousandths as u128;
        assert(a * b <= 0xffff_ffff_ffff_ffff * 0xffff_ffff_ffff_ffff) by (nonlinear_arith)
            requires
                a <= 0xffff_ffff_ffff_ffff,
                b <= 0xffff_ffff_ffff_ffff,
        ;
        let wide: u128 = a * b / 1000;
        if wide <= u64::MAX as u128 {
            Some(Amount { thousandths: wide as u64 })
        } else {
            None
        }
    }

    /// The amount written in decimal digits.
    pub fn to_text(&self) -> (text: String)
        ensures
            text@ == amount_text(self@),
    {
        let whole: u64 = self.thousandths / 1000;
        let rest: u64 = self.thousandths % 1000;
        let mut text = decimal_text(whole as u128);
        proof {
            reveal_strlit(".");
        }
        text.append(".");
        text.append(digit_text((rest / 100 % 10) as u128));
        if rest % 100 != 0 {
            text.append(digit_text((rest / 10 % 10) as u128));
            if rest % 10 != 0 {
                text.append(digit_text((rest % 10) as u128));
            }
        }
        assert(text@ =~= amount_text(self@));
        text
    }
}

} // verus!
