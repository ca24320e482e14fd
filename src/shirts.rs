use vstd::prelude::*;

verus! {

/// Colour of a shirt in stock.
#[derive(Debug, Clone, Copy, PartialEq, Eq, Structural)]
pub enum ShirtColor {
    Red,
    Blue,
}

/// Shirts in stock.
pub struct Inventory {
    pub shirts: Vec<ShirtColor>,
}

/// Number of shirts of colour `c` in `s`.
pub open spec fn count_of(s: Seq<ShirtColor>, c: ShirtColor) -> nat
    decreases s.len(),
{
    if s.len() == 0 {
        0
    } else {
        count_of(s.drop_last(), c) + if s.last() == c {
            1nat
        } else {
            0nat
        }
    }
}

/// A coin.
#[derive(Debug, Clone, Copy, PartialEq, Eq, Structural)]
pub enum Coin {
    Penny,
    Nickel,
    Dime,
    Quarter,
    Other,
}

/// What a coin is worth in cents; any other coin counts as a hundred.
pub fn value_in_cents(coin: Coin) -> (r: u8)
    ensures
        r == match coin {
            Coin::Penny => 1u8,
            Coin::Nickel => 5u8,
            Coin::Dime => 10u8,
            Coin::Quarter => 25u8,
            Coin::Other => 100u8,
        },
{
    match coin {
        Coin::Penny => 1,
        Coin::Nickel => 5,
        Coin::Dime => 10,
        Coin::Quarter => 25,
        _ => 100,
    }
}

impl Inventory {
    /// The user's colour if given, else the colour most in stock.
    pub fn giveaway(&self, user_preference: Option<ShirtColor>) -> (r: ShirtColor)
        ensures
            r == match user_preference {
                Some(p) => p,
                None => if count_of(self.shirts@, ShirtColor::Red) > count_of(
                    self.shirts@,
                    ShirtColor::Blue,
                ) {
                    ShirtColor::Red
                } else {
                    ShirtColor::Blue
                },
            },
    {
        match user_preference {
            Some(p) => p,
            None => self.most_stocked(),
        }
    }

    /// Red when there are more red shirts than blue ones, else blue.
    pub fn most_stocked(&self) -> (r: ShirtColor)
        ensures
            r == if count_of(self.shirts@, ShirtColor::Red) > count_of(
                self.shirts@,
                ShirtColor::Blue,
            ) {
                ShirtColor::Red
            } else {
                ShirtColor::Blue
            },
    {
        let mut num_red: usize = 0;
        let mut num_blue: usize = 0;
        let mut i: usize = 0;
        while i < self.shirts.len()
            invariant
                i <= self.shirts@.len(),
                num_red == count_of(self.shirts@.subrange(0, i as int), ShirtColor::Red),
                num_blue == count_of(self.shirts@.subrange(0, i as int), ShirtColor::Blue),
                num_red + num_blue == i,
            decreases self.shirts.len() - i,
        {
            assert(self.shirts@.subrange(0, i + 1).drop_last() =~= self.shirts@.subrange(0, i as int));
            match self.shirts[i] {
                ShirtColor::Red => num_red = num_red + 1,
                ShirtColor::Blue => num_blue = num_blue + 1,
            }
            i = i + 1;
        }
        assert(self.shirts@.subrange(0, i as int) =~= self.shirts@);
        if num_red > num_blue {
            ShirtColor::Red
        } else {
            ShirtColor::Blue
        }
    }
}

} // verus!
