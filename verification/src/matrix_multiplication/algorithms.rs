//! The algorithms to choose from.

use vstd::prelude::*;
use vstd::string::StringExecFns;

verus! {

/// Enum representing available matrix multiplication algorithms
#[derive(Debug, Clone, Copy, PartialEq, Eq, Hash)]
pub enum Algorithm {
    SequentialIjk,
    SequentialIkj,
    /// Parallel algorithm using a loop over i
    ///
    /// # Arguments
    ///
    /// * `usize` - number of threads to use
    ParallelILoop(usize),
    /// Parallel algorithm using tiling
    ///
    /// # Arguments
    ///
    /// * `usize` - number of threads to use
    /// * `usize` - tile size
    ParallelTiling(usize, usize),
}

/// The character of a decimal digit.
pub open spec fn digit(d: nat) -> char {
    if d == 0 {
        '0'
    } else if d == 1 {
        '1'
    } else if d == 2 {
        '2'
    } else if d == 3 {
        '3'
    } else if d == 4 {
        '4'
    } else if d == 5 {
        '5'
    } else if d == 6 {
        '6'
    } else if d == 7 {
        '7'
    } else if d == 8 {
        '8'
    } else {
        '9'
    }
}

/// A number written in decimal digits, with no leading zero.
pub open spec fn decimal(n: nat) -> Seq<char>
    decreases n,
{
    if n < 10 {
        seq![digit(n)]
    } else {
        decimal(n / 10).push(digit(n % 10))
    }
}

/// The text of one decimal digit.
fn digit_text(d: usize) -> (text: &'static str)
    requires
        d < 10,
    ensures
        text@ == seq![digit(d as nat)],
{
    proof {
        reveal_strlit("0");
        reveal_strlit("1");
        reveal_strlit("2");
        reveal_strlit("3");
        reveal_strlit("4");
        reveal_strlit("5");
        reveal_strlit("6");
        reveal_strlit("7");
        reveal_strlit("8");
        reveal_strlit("9");
    }
    let text = if d == 0 {
        "0"
    } else if d == 1 {
        "1"
    } else if d == 2 {
        "2"
    } else if d == 3 {
        "3"
    } else if d == 4 {
        "4"
    } else if d == 5 {
        "5"
    } else if d == 6 {
        "6"
    } else if d == 7 {
        "7"
    } else if d == 8 {
        "8"
    } else {
        "9"
    };
    assert(text@ =~= seq![digit(d as nat)]);
    text
}

/// Writes a number in decimal digits.
pub fn decimal_string(n: usize) -> (text: String)
    ensures
        text@ == decimal(n as nat),
{
    let mut text = String::from_str(digit_text(n % 10));
    let mut rest = n / 10;
    while rest > 0
        invariant
            decimal(n as nat) == if rest > 0 {
                decimal(rest as nat) + text@
            } else {
                text@
            },
        decreases rest,
    {
        let ghost shorter = text@;
        text = String::from_str(digit_text(rest % 10)).concat(text.as_str());
        proof {
            if rest >= 10 {
                assert(decimal(rest as nat) + shorter =~= decimal((rest / 10) as nat) + text@);
            } else {
                assert(decimal(rest as nat) + shorter =~= text@);
            }
        }
        rest = rest / 10;
    }
    text
}

impl Algorithm {
    /// The algorithm's name, with the numbers it carries.
    pub open spec fn text(self) -> Seq<char> {
        match self {
            Algorithm::SequentialIjk => "Sequential IJK"@,
            Algorithm::SequentialIkj => "Sequential IKJ"@,
            Algorithm::ParallelILoop(threads) => "Parallel I Loop ("@ + decimal(threads as nat)
                + " threads)"@,
            Algorithm::ParallelTiling(threads, tile_size) => "Parallel Tiling ("@ + decimal(
                threads as nat,
            ) + " threads, "@ + decimal(tile_size as nat) + " tile size)"@,
        }
    }

    /// The algorithm's name, with the numbers it carries.
    pub fn to_string(&self) -> (text: String)
        ensures
            text@ == self.text(),
    {
        match *self {
            Algorithm::SequentialIjk => String::from_str("Sequential IJK"),
            Algorithm::SequentialIkj => String::from_str("Sequential IKJ"),
            Algorithm::ParallelILoop(threads) => {
                let number = decimal_string(threads);
                String::from_str("Parallel I Loop (").concat(number.as_str()).concat(" threads)")
            },
            Algorithm::ParallelTiling(threads, tile_size) => {
                let number = decimal_string(threads);
                let tile = decimal_string(tile_size);
                String::from_str("Parallel Tiling (").concat(number.as_str()).concat(
                    " threads, ",
                ).concat(tile.as_str()).concat(" tile size)")
            },
        }
    }
}

} // verus!
