use vstd::prelude::*;
use vstd::string::*;

verus! {

/// The geometry and the input alphabet of a puzzle.
pub struct BoardInfo {
    /// Side of the grid.
    pub side: usize,
    /// Side of a box.
    pub box_side: usize,
    /// Fewest givens with which a puzzle can have a unique solution.
    pub minimum_entries: usize,
    /// The characters that an input may hold.
    pub pattern: String,
}

/// The alphabet of the classic puzzle: the digits and two placeholders.
pub open spec fn classic_alphabet() -> Seq<char> {
    seq!['_', '1', '2', '3', '4', '5', '6', '7', '8', '9', '.']
}

/// Whether `c` is one of the digits `'0'..='9'`.
pub open spec fn is_digit(c: char) -> bool {
    48 <= c as int <= 57
}

/// The number that the digit `c` stands for.
pub open spec fn digit_value(c: char) -> int {
    c as int - 48
}

/// The number of digits among the first `n` characters of `s`.
pub open spec fn givens(s: Seq<char>, n: int) -> int
    decreases n,
{
    if n <= 0 {
        0
    } else {
        givens(s, n - 1) + (if is_digit(s[n - 1]) {
            1int
        } else {
            0int
        })
    }
}

/// An input of the classic puzzle: 81 characters of the alphabet.
pub open spec fn valid_format(s: Seq<char>) -> bool {
    &&& s.len() == 81
    &&& forall|i: int| 0 <= i < 81 ==> classic_alphabet().contains(#[trigger] s[i])
}

/// A digit of the alphabet stands for one of `1..=9`.
pub proof fn lemma_alphabet_digit(c: char)
    requires
        classic_alphabet().contains(c),
        is_digit(c),
    ensures
        1 <= digit_value(c) <= 9,
{
    let a = classic_alphabet();
    let i = choose|i: int| 0 <= i < a.len() && a[i] == c;
    assert(a[i] == c);
}

/// The number that `c` stands for, if `c` is a digit.
pub fn digit_of(c: char) -> (r: Option<u8>)
    ensures
        r is Some <==> is_digit(c),
        r matches Some(d) ==> d == digit_value(c),
{
    let n: u32 = c as u32;
    if 48 <= n && n <= 57 {
        Some((n - 48) as u8)
    } else {
        None
    }
}

impl BoardInfo {
    /// The configuration of the classic 9x9 puzzle.
    pub open spec fn is_classic(&self) -> bool {
        &&& self.side == 9
        &&& self.box_side == 3
        &&& self.minimum_entries == 17
        &&& self.pattern@ == classic_alphabet()
    }

    /// The classic 9x9 puzzle: boxes of side 3, at least 17 givens.
    pub fn new_9x9() -> (r: Self)
        ensures
            r.is_classic(),
    {
        let pattern = "_123456789.".to_owned();
        proof {
            reveal_strlit("_123456789.");
            assert(pattern@ =~= classic_alphabet());
        }
        Self { side: 9, box_side: 3, minimum_entries: 17, pattern }
    }

    /// The number of cells of the grid.
    pub fn dimmension(&self) -> (r: usize)
        requires
            self.side * self.side <= usize::MAX,
        ensures
            r == self.side * self.side,
    {
        self.side * self.side
    }

    /// Whether `c` belongs to the input alphabet.
    pub fn accepts(&self, c: char) -> (r: bool)
        ensures
            r == self.pattern@.contains(c),
    {
        let n: usize = self.pattern.as_str().unicode_len();
        let mut i: usize = 0;
        while i < n
            invariant
                n == self.pattern@.len(),
                i <= n,
                forall|k: int| 0 <= k < i ==> self.pattern@[k] != c,
            decreases n - i,
        {
            if self.pattern.as_str().get_char(i) == c {
                return true;
            }
            i = i + 1;
        }
        false
    }
}

} // verus!
