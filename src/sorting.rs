//! Comparison sorts of `u32` arrays that also count the comparisons and
//! swaps they make.

pub mod heap;
pub mod insertion;
pub mod merge;

use vstd::prelude::*;

verus! {

/// Settings of a sorting run: where the data comes from and goes to, how
/// much of it to generate, and whether to append to the output.
pub struct Config {
    pub input: Option<String>,
    pub output: String,
    pub size: u32,
    pub append: bool,
    pub generate: bool,
}

impl Config {
    /// The default settings: no input file, output to `./results.txt`, ten
    /// thousand items, no appending, no generating.
    pub fn new() -> (r: Config)
        ensures
            r.input is None,
            r.output@ == "./results.txt"@,
            r.size == 10_000,
            !r.append,
            !r.generate,
    {
        Config {
            input: None,
            output: "./results.txt".to_owned(),
            size: 10_000,
            append: false,
            generate: false,
        }
    }
}

/// The comparator puts `a` no later than `b`: it answers `<= 0` on `(a, b)`.
pub open spec fn le_by<F: Fn(u32, u32) -> i32>(comparator: F, a: u32, b: u32) -> bool {
    exists|r: i32| comparator.ensures((a, b), r) && r <= 0
}

/// The comparator can be called on any pair, answers each pair always the
/// same way, and orders the values totally and transitively.
pub open spec fn is_ordering<F: Fn(u32, u32) -> i32>(comparator: F) -> bool {
    &&& forall|a: u32, b: u32| #[trigger] comparator.requires((a, b))
    &&& forall|a: u32, b: u32, r1: i32, r2: i32|
        comparator.ensures((a, b), r1) && comparator.ensures((a, b), r2) ==> r1 == r2
    &&& forall|a: u32, b: u32| le_by(comparator, a, b) || le_by(comparator, b, a)
    &&& forall|a: u32, b: u32, c: u32|
        le_by(comparator, a, b) && le_by(comparator, b, c) ==> le_by(comparator, a, c)
}

/// `s` is in the comparator's order.
pub open spec fn sorted_by<F: Fn(u32, u32) -> i32>(comparator: F, s: Seq<u32>) -> bool {
    forall|i: int, j: int| 0 <= i < j < s.len() ==> le_by(comparator, #[trigger] s[i], #[trigger] s[j])
}

} // verus!
