//! What the command line carries, and the reading of a list of tile sizes.

use vstd::prelude::*;
use vstd::string::StringExecFns;

verus! {

/// Matrix Multiplication Benchmark
pub struct Cli {
    /// Size of the matrix
    pub size: usize,
    /// Number of iterations to run the benchmark
    pub iterations: usize,
    /// Number of threads to use for parallel matrix multiplication
    /// (where none is given: the number of logical cores)
    pub threads: Option<usize>,
    /// Only run parallel matrix multiplication
    pub parallel_only: bool,
    /// Skip sequential ijk algorithm
    pub skip_sequential_ijk: bool,
    /// Tile size for parallel tiling algorithm
    pub tile_size: usize,
    pub subcommands: Option<Commands>,
}

pub enum Commands {
    /// Print the number of available OS threads
    OsThreads,
    /// Run benchmark suite for parallel tiling algorithm
    Tiling(Tiling),
}

pub struct Tiling {
    /// Size of the matrix
    pub size: usize,
    /// Number of iterations to run the benchmark
    pub iterations: usize,
    /// Number of threads to use for parallel matrix multiplication
    /// (where none is given: the number of logical cores)
    pub threads: Option<usize>,
    /// Tile sizes to test. Separate multiple values with commas.
    pub tiles: String,
}

/// The pieces of a text between its commas. A text without a comma is one
/// piece; a comma at either end leaves an empty piece there.
pub open spec fn pieces(text: Seq<char>) -> Seq<Seq<char>>
    decreases text.len(),
{
    if text.len() == 0 {
        seq![Seq::empty()]
    } else {
        let before = pieces(text.drop_last());
        if text.last() == ',' {
            before.push(Seq::empty())
        } else {
            before.drop_last().push(before.last().push(text.last()))
        }
    }
}

/// Whether `c` is one of the ten decimal digits.
pub open spec fn is_digit(c: char) -> bool {
    '0' <= c && c <= '9'
}

/// The number that a run of decimal digits stands for.
pub open spec fn digits_value(digits: Seq<char>) -> nat
    decreases digits.len(),
{
    if digits.len() == 0 {
        0
    } else {
        digits_value(digits.drop_last()) * 10 + (digits.last() as nat - '0' as nat) as nat
    }
}

/// What is left of a number's text once a leading plus sign is taken off.
pub open spec fn unsigned_part(text: Seq<char>) -> Seq<char> {
    if text.len() > 0 && text[0] == '+' {
        text.drop_first()
    } else {
        text
    }
}

/// The number that `text` stands for: an optional plus sign, then one
/// decimal digit or more and nothing else, the number no larger than
/// `usize` holds. Any other text stands for no number.
pub open spec fn number(text: Seq<char>) -> Option<usize> {
    let digits = unsigned_part(text);
    if digits.len() > 0 && (forall|t: int| 0 <= t < digits.len() ==> is_digit(#[trigger] digits[t]))
        && digits_value(digits) <= usize::MAX {
        Some(digits_value(digits) as usize)
    } else {
        None
    }
}

/// The tile sizes in a text: the numbers between its commas, if every piece
/// stands for a number.
pub open spec fn parsed_tiles(text: Seq<char>) -> Option<Seq<usize>> {
    let parts = pieces(text);
    if forall|k: int| 0 <= k < parts.len() ==> number(#[trigger] parts[k]) is Some {
        Some(Seq::new(parts.len(), |k: int| number(parts[k])->Some_0))
    } else {
        None
    }
}

/// The pieces as plain sequences.
pub open spec fn piece_views(parts: Seq<Vec<char>>) -> Seq<Seq<char>> {
    Seq::new(parts.len(), |k: int| parts[k]@)
}

/// A run of digits stands for no less than any of its beginnings.
pub proof fn lemma_digits_value_grows(digits: Seq<char>, n: int)
    requires
        0 <= n <= digits.len(),
    ensures
        digits_value(digits.take(n)) <= digits_value(digits),
    decreases digits.len(),
{
    if n < digits.len() {
        lemma_digits_value_grows(digits.drop_last(), n);
        assert(digits.drop_last().take(n) == digits.take(n));
    } else {
        assert(digits.take(n) == digits);
    }
}

/// Cuts a text at its commas.
pub fn split_on_commas(text: &str) -> (parts: Vec<Vec<char>>)
    ensures
        piece_views(parts@) == pieces(text@),
{
    let mut parts: Vec<Vec<char>> = Vec::new();
    let mut current: Vec<char> = Vec::new();
    assert(text@.take(0) == Seq::<char>::empty());
    assert(piece_views(parts@).push(current@) == pieces(text@.take(0)));
    for c in it: text.chars()
        invariant
            it.seq() == text@,
            piece_views(parts@).push(current@) == pieces(text@.take(it.index())),
    {
        let ghost n = it.index();
        let ghost before = piece_views(parts@).push(current@);
        proof {
            assert(text@.take(n + 1).drop_last() == text@.take(n));
            assert(text@.take(n + 1).last() == c);
        }
        if c == ',' {
            parts.push(current);
            current = Vec::new();
            assert(piece_views(parts@).push(current@) == before.push(Seq::empty()));
        } else {
            current.push(c);
            assert(piece_views(parts@).push(current@) == before.drop_last().push(
                before.last().push(c),
            ));
        }
    }
    assert(text@.take(text@.len() as int) == text@);
    parts.push(current);
    assert(piece_views(parts@) == pieces(text@));
    parts
}

/// Reads a number as `usize` is read from text: an optional plus sign, then
/// decimal digits and nothing else.
pub fn parse_number(text: &Vec<char>) -> (value: Option<usize>)
    ensures
        value == number(text@),
{
    let start: usize = if text.len() > 0 && text[0] == '+' {
        1
    } else {
        0
    };
    let ghost digits = unsigned_part(text@);
    assert(digits == text@.skip(start as int));
    if text.len() == start {
        return None;
    }
    let mut value: usize = 0;
    let mut i: usize = start;
    assert(digits.take(0) == Seq::<char>::empty());
    while i < text.len()
        invariant
            start <= i <= text.len(),
            digits == text@.skip(start as int),
            digits == unsigned_part(text@),
            forall|t: int| 0 <= t < i - start ==> is_digit(#[trigger] digits[t]),
            value == digits_value(digits.take(i - start)),
        decreases text.len() - i,
    {
        let c = text[i];
        assert(digits[i - start] == c);
        if c < '0' || c > '9' {
            return None;
        }
        let d = (c as u32 - 48) as usize;
        proof {
            lemma_digits_value_grows(digits, i - start + 1);
            assert(digits.take(i - start + 1).drop_last() == digits.take(i - start));
            assert(digits.take(i - start + 1).last() == c);
            assert(digits_value(digits.take(i - start + 1)) == value * 10 + d);
        }
        match value.checked_mul(10) {
            None => {
                return None;
            },
            Some(tens) => {
                match tens.checked_add(d) {
                    None => {
                        return None;
                    },
                    Some(more) => {
                        value = more;
                    },
                }
            },
        }
        i += 1;
    }
    assert(digits.take(digits.len() as int) == digits);
    Some(value)
}

/// Reads the tile sizes of the command line: numbers with commas between
/// them.
pub fn parse_cli_tiles(tiles_string: &String) -> (r: Result<Vec<usize>, String>)
    ensures
        match r {
            Ok(tiles) => parsed_tiles(tiles_string@) == Some(tiles@),
            Err(message) => parsed_tiles(tiles_string@) is None && message@
                == "tiles must be a positive integer"@,
        },
{
    let spit_tiles = split_on_commas(tiles_string.as_str());
    let ghost parts = pieces(tiles_string@);
    let mut tiles: Vec<usize> = Vec::new();
    for k in 0..spit_tiles.len()
        invariant
            parts == pieces(tiles_string@),
            piece_views(spit_tiles@) == parts,
            tiles@.len() == k,
            forall|u: int| 0 <= u < k ==> number(#[trigger] parts[u]) == Some(tiles@[u]),
    {
        assert(piece_views(spit_tiles@)[k as int] == spit_tiles@[k as int]@);
        match parse_number(&spit_tiles[k]) {
            Some(tile) => {
                tiles.push(tile);
            },
            None => {
                assert(number(parts[k as int]) is None);
                return Err(String::from_str("tiles must be a positive integer"));
            },
        }
    }
    assert(tiles@ =~= Seq::new(parts.len(), |k: int| number(parts[k])->Some_0));
    Ok(tiles)
}

} // verus!
