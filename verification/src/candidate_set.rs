use vstd::prelude::*;

verus! {

/// The bit that stands for the value `v`: bit `v - 1`, for `v` in `1..=9`.
pub open spec fn mask(v: int) -> u16 {
    if v == 1 {
        0x001
    } else if v == 2 {
        0x002
    } else if v == 3 {
        0x004
    } else if v == 4 {
        0x008
    } else if v == 5 {
        0x010
    } else if v == 6 {
        0x020
    } else if v == 7 {
        0x040
    } else if v == 8 {
        0x080
    } else if v == 9 {
        0x100
    } else {
        0
    }
}

/// 1 if `x` has the bit `m`, else 0.
pub open spec fn bit(x: u16, m: u16) -> nat {
    if x & m != 0 {
        1
    } else {
        0
    }
}

/// The number of ones in the binary representation of `x`.
pub open spec fn ones(x: u16) -> nat {
    bit(x, 0x0001) + bit(x, 0x0002) + bit(x, 0x0004) + bit(x, 0x0008) + bit(x, 0x0010) + bit(
        x,
        0x0020,
    ) + bit(x, 0x0040) + bit(x, 0x0080) + bit(x, 0x0100) + bit(x, 0x0200) + bit(x, 0x0400) + bit(
        x,
        0x0800,
    ) + bit(x, 0x1000) + bit(x, 0x2000) + bit(x, 0x4000) + bit(x, 0x8000)
}

/// `u16::count_ones` returns the number of ones in the binary
/// representation of its argument.
pub assume_specification[ u16::count_ones ](x: u16) -> (r: u32)
    ensures
        r == ones(x),
;

/// The candidates that remain for one cell: bit `v - 1` is set while the
/// value `v` is still possible.
#[derive(Clone, Copy, Debug, PartialEq, Eq, Structural)]
pub struct CandidateSet(pub u16);

impl View for CandidateSet {
    type V = Set<int>;

    /// The values that are still possible.
    open spec fn view(&self) -> Set<int> {
        Set::new(|v: int| self.has(v))
    }
}

proof fn lemma_shift_is_mask(k: u16)
    by (bit_vector)
    requires
        k < 9,
    ensures
        (1u16 << k) == (if k == 0 {
            0x001u16
        } else if k == 1 {
            0x002u16
        } else if k == 2 {
            0x004u16
        } else if k == 3 {
            0x008u16
        } else if k == 4 {
            0x010u16
        } else if k == 5 {
            0x020u16
        } else if k == 6 {
            0x040u16
        } else if k == 7 {
            0x080u16
        } else {
            0x100u16
        }),
{
}

proof fn lemma_mask_bits(m: u16)
    by (bit_vector)
    requires
        m == 0x001 || m == 0x002 || m == 0x004 || m == 0x008 || m == 0x010 || m == 0x020 || m
            == 0x040 || m == 0x080 || m == 0x100,
    ensures
        (m & 0x001 != 0) == (m == 0x001),
        (m & 0x002 != 0) == (m == 0x002),
        (m & 0x004 != 0) == (m == 0x004),
        (m & 0x008 != 0) == (m == 0x008),
        (m & 0x010 != 0) == (m == 0x010),
        (m & 0x020 != 0) == (m == 0x020),
        (m & 0x040 != 0) == (m == 0x040),
        (m & 0x080 != 0) == (m == 0x080),
        (m & 0x100 != 0) == (m == 0x100),
        m <= 0x1FF,
{
}

proof fn lemma_cleared_bits(x: u16, m: u16)
    by (bit_vector)
    requires
        m == 0x001 || m == 0x002 || m == 0x004 || m == 0x008 || m == 0x010 || m == 0x020 || m
            == 0x040 || m == 0x080 || m == 0x100,
    ensures
        ((x & !m) & 0x001 != 0) == (x & 0x001 != 0 && m != 0x001),
        ((x & !m) & 0x002 != 0) == (x & 0x002 != 0 && m != 0x002),
        ((x & !m) & 0x004 != 0) == (x & 0x004 != 0 && m != 0x004),
        ((x & !m) & 0x008 != 0) == (x & 0x008 != 0 && m != 0x008),
        ((x & !m) & 0x010 != 0) == (x & 0x010 != 0 && m != 0x010),
        ((x & !m) & 0x020 != 0) == (x & 0x020 != 0 && m != 0x020),
        ((x & !m) & 0x040 != 0) == (x & 0x040 != 0 && m != 0x040),
        ((x & !m) & 0x080 != 0) == (x & 0x080 != 0 && m != 0x080),
        ((x & !m) & 0x100 != 0) == (x & 0x100 != 0 && m != 0x100),
        x <= 0x1FF ==> (x & !m) <= 0x1FF,
        x & m == 0 ==> (x & !m) == x,
{
}

proof fn lemma_high_bits(x: u16)
    by (bit_vector)
    requires
        x <= 0x1FF,
    ensures
        x & 0x0200 == 0,
        x & 0x0400 == 0,
        x & 0x0800 == 0,
        x & 0x1000 == 0,
        x & 0x2000 == 0,
        x & 0x4000 == 0,
        x & 0x8000 == 0,
        x == 0 <==> (x & 0x001 == 0 && x & 0x002 == 0 && x & 0x004 == 0 && x & 0x008 == 0 && x
            & 0x010 == 0 && x & 0x020 == 0 && x & 0x040 == 0 && x & 0x080 == 0 && x & 0x100
            == 0),
{
}

proof fn lemma_lone_bit(x: u16, m: u16)
    by (bit_vector)
    requires
        x <= 0x1FF,
        m == 0x001 || m == 0x002 || m == 0x004 || m == 0x008 || m == 0x010 || m == 0x020 || m
            == 0x040 || m == 0x080 || m == 0x100,
        x & m != 0,
        m == 0x001 || x & 0x001 == 0,
        m == 0x002 || x & 0x002 == 0,
        m == 0x004 || x & 0x004 == 0,
        m == 0x008 || x & 0x008 == 0,
        m == 0x010 || x & 0x010 == 0,
        m == 0x020 || x & 0x020 == 0,
        m == 0x040 || x & 0x040 == 0,
        m == 0x080 || x & 0x080 == 0,
        m == 0x100 || x & 0x100 == 0,
    ensures
        x == m,
{
}

proof fn lemma_lowest_bit(m: u16, t: u16)
    by (bit_vector)
    requires
        m == 0x001 || m == 0x002 || m == 0x004 || m == 0x008 || m == 0x010 || m == 0x020 || m
            == 0x040 || m == 0x080 || m == 0x100,
        t < 16,
        (m >> t) & 1u16 == 1u16,
    ensures
        t < 9,
        m == 1u16 << t,
{
}

proof fn lemma_same_bits(x: u16, y: u16)
    by (bit_vector)
    requires
        x <= 0x1FF,
        y <= 0x1FF,
        (x & 0x001 != 0) == (y & 0x001 != 0),
        (x & 0x002 != 0) == (y & 0x002 != 0),
        (x & 0x004 != 0) == (y & 0x004 != 0),
        (x & 0x008 != 0) == (y & 0x008 != 0),
        (x & 0x010 != 0) == (y & 0x010 != 0),
        (x & 0x020 != 0) == (y & 0x020 != 0),
        (x & 0x040 != 0) == (y & 0x040 != 0),
        (x & 0x080 != 0) == (y & 0x080 != 0),
        (x & 0x100 != 0) == (y & 0x100 != 0),
    ensures
        x == y,
{
}

impl CandidateSet {
    /// Only the nine low bits may be set.
    pub open spec fn wf(&self) -> bool {
        self.0 <= 0x1FF
    }

    /// Whether the value `v` is still possible.
    pub open spec fn has(&self, v: int) -> bool {
        1 <= v <= 9 && self.0 & mask(v) != 0
    }

    /// How many of the values `1..=9` are still possible.
    pub open spec fn count(&self) -> nat {
        bit(self.0, 0x001) + bit(self.0, 0x002) + bit(self.0, 0x004) + bit(self.0, 0x008) + bit(
            self.0,
            0x010,
        ) + bit(self.0, 0x020) + bit(self.0, 0x040) + bit(self.0, 0x080) + bit(self.0, 0x100)
    }

    /// The sum of the values that are still possible.
    pub open spec fn sum(&self) -> nat {
        1 * bit(self.0, 0x001) + 2 * bit(self.0, 0x002) + 3 * bit(self.0, 0x004) + 4 * bit(
            self.0,
            0x008,
        ) + 5 * bit(self.0, 0x010) + 6 * bit(self.0, 0x020) + 7 * bit(self.0, 0x040) + 8 * bit(
            self.0,
            0x080,
        ) + 9 * bit(self.0, 0x100)
    }

    /// The single value that remains, if exactly one does.
    pub open spec fn solved_value(&self) -> Option<u8> {
        if self@.len() == 1 {
            Some(self@.choose() as u8)
        } else {
            None
        }
    }

    /// The values among `1..=n` that are still possible, ascending.
    pub open spec fn values_to(&self, n: int) -> Seq<u8>
        decreases n,
    {
        if n <= 0 {
            Seq::empty()
        } else if self.has(n) {
            self.values_to(n - 1).push(n as u8)
        } else {
            self.values_to(n - 1)
        }
    }

    /// The values that are still possible, ascending.
    pub open spec fn values(&self) -> Seq<u8> {
        self.values_to(9)
    }

    /// The least value that is still possible, 0 if there is none.
    pub open spec fn lowest(&self) -> int {
        if self.has(1) {
            1
        } else if self.has(2) {
            2
        } else if self.has(3) {
            3
        } else if self.has(4) {
            4
        } else if self.has(5) {
            5
        } else if self.has(6) {
            6
        } else if self.has(7) {
            7
        } else if self.has(8) {
            8
        } else if self.has(9) {
            9
        } else {
            0
        }
    }

    spec fn below(&self, n: int) -> Set<int> {
        Set::new(|v: int| v <= n && self.has(v))
    }

    spec fn count_to(&self, n: int) -> nat
        decreases n,
    {
        if n <= 0 {
            0
        } else if self.has(n) {
            self.count_to(n - 1) + 1
        } else {
            self.count_to(n - 1)
        }
    }

    proof fn lemma_below(&self, n: int)
        requires
            0 <= n,
        ensures
            self.below(n).finite(),
            self.below(n).len() == self.count_to(n),
            self.values_to(n).len() == self.count_to(n),
        decreases n,
    {
        if n == 0 {
            assert(self.below(0) =~= Set::<int>::empty());
        } else {
            self.lemma_below(n - 1);
            if self.has(n) {
                assert(self.below(n) =~= self.below(n - 1).insert(n));
            } else {
                assert(self.below(n) =~= self.below(n - 1));
            }
        }
    }

    /// The view is finite and has `count()` elements, which is what
    /// `count_ones` gives on a well-formed set.
    pub proof fn lemma_count(&self)
        ensures
            self@.finite(),
            self@.len() == self.count(),
            self.count() <= 9,
            self.values().len() == self.count(),
            self.wf() ==> ones(self.0) == self.count(),
            self.wf() ==> (self.0 == 0 <==> self.count() == 0),
    {
        self.lemma_below(9);
        assert(self@ =~= self.below(9));
        reveal_with_fuel(CandidateSet::count_to, 10);
        if self.wf() {
            lemma_high_bits(self.0);
        }
    }

    /// A set of one element: that element is the only value possible.
    pub proof fn lemma_single(&self, v: int)
        requires
            self.has(v),
            self.count() == 1,
        ensures
            self@ =~= set![v],
            self.solved_value() == Some(v as u8),
            self.wf() ==> self.0 == mask(v),
            self.sum() == v,
    {
        self.lemma_count();
        assert(self@.contains(v));
        assert(self@.remove(v).len() == 0);
        assert(self@.remove(v) =~= Set::<int>::empty());
        assert(self@ =~= set![v]);
        assert(self@.contains(self@.choose()));
        if self.wf() {
            lemma_lone_bit(self.0, mask(v));
        }
    }

    /// The set without the value `v`.
    pub open spec fn without(&self, v: int) -> CandidateSet {
        CandidateSet(self.0 & !mask(v))
    }

    /// What a peer becomes when `v` is eliminated around it: a cell with
    /// more than one candidate loses `v`, any other cell stays.
    pub open spec fn stripped(&self, v: int) -> CandidateSet {
        if self.count() > 1 {
            self.without(v)
        } else {
            *self
        }
    }

    /// Taking a value out removes that value and nothing else.
    pub proof fn lemma_without(&self, v: int)
        requires
            1 <= v <= 9,
        ensures
            forall|w: int| #[trigger] self.without(v).has(w) <==> self.has(w) && w != v,
            self.wf() ==> self.without(v).wf(),
            !self.has(v) ==> self.without(v) == *self,
            self.without(v).count() == self.count() - (if self.has(v) {
                1nat
            } else {
                0nat
            }),
            self.without(v).without(v) == self.without(v),
    {
        lemma_cleared_bits(self.0, mask(v));
        lemma_cleared_bits(self.without(v).0, mask(v));
    }

    /// Elimination keeps a cell non-empty and well formed, never adds a
    /// value, and is idempotent.
    pub proof fn lemma_stripped(&self, v: int)
        requires
            1 <= v <= 9,
        ensures
            forall|w: int| #[trigger] self.stripped(v).has(w) ==> self.has(w),
            forall|w: int| self.has(w) && w != v ==> #[trigger] self.stripped(v).has(w),
            self.wf() ==> self.stripped(v).wf(),
            self.count() >= 1 ==> self.stripped(v).count() >= 1,
            self.stripped(v).count() <= self.count(),
            self.count() > 1 ==> !self.stripped(v).has(v),
            self.count() > 1 && self.has(v) ==> self.stripped(v).count() == self.count() - 1,
            self.count() <= 1 || !self.has(v) ==> self.stripped(v) == *self,
            self.stripped(v).stripped(v) == self.stripped(v),
    {
        self.lemma_without(v);
        self.without(v).lemma_without(v);
    }

    /// A set within another has no more values; with as many, it has the
    /// same ones.
    pub proof fn lemma_subset(&self, other: CandidateSet)
        requires
            forall|v: int| #[trigger] self.has(v) ==> other.has(v),
        ensures
            self.count() <= other.count(),
            self.count() == other.count() ==> (forall|v: int| other.has(v) ==> self.has(v)),
            self.count() == other.count() && self.wf() && other.wf() ==> *self == other,
    {
        assert(self.has(1) ==> other.has(1));
        assert(self.has(2) ==> other.has(2));
        assert(self.has(3) ==> other.has(3));
        assert(self.has(4) ==> other.has(4));
        assert(self.has(5) ==> other.has(5));
        assert(self.has(6) ==> other.has(6));
        assert(self.has(7) ==> other.has(7));
        assert(self.has(8) ==> other.has(8));
        assert(self.has(9) ==> other.has(9));
        if self.count() == other.count() && self.wf() && other.wf() {
            lemma_same_bits(self.0, other.0);
        }
    }

    /// In a set of one value, any two values that it holds are the same.
    pub proof fn lemma_one(&self, x: int, y: int)
        requires
            self.count() == 1,
            self.has(x),
            self.has(y),
        ensures
            x == y,
    {
    }

    /// A set that is not empty holds some value.
    pub proof fn lemma_some(&self)
        requires
            self.count() >= 1,
        ensures
            self.has(self.lowest()),
            1 <= self.lowest() <= 9,
    {
    }

    /// The set of the bit of `v` alone holds `v` and nothing else.
    pub proof fn lemma_mask_single(v: int)
        requires
            1 <= v <= 9,
        ensures
            CandidateSet(mask(v)).wf(),
            CandidateSet(mask(v)).count() == 1,
            CandidateSet(mask(v)).has(v),
    {
        lemma_mask_bits(mask(v));
    }

    /// Every value is still possible.
    pub fn new() -> (r: Self)
        ensures
            r.0 == 0x1FF,
            r.wf(),
            r@ =~= Set::new(|v: int| 1 <= v <= 9),
            r.count() == 9,
    {
        let r = Self(0x1FF);
        proof {
            Self::lemma_full();
        }
        r
    }

    /// The full set holds each of `1..=9`, nine values whose sum is the
    /// checksum.
    pub proof fn lemma_full()
        ensures
            CandidateSet(0x1FF).wf(),
            CandidateSet(0x1FF)@ =~= Set::new(|v: int| 1 <= v <= 9),
            CandidateSet(0x1FF).count() == 9,
            CandidateSet(0x1FF).sum() == 45,
            CandidateSet(0x1FF).values() =~= seq![1u8, 2u8, 3u8, 4u8, 5u8, 6u8, 7u8, 8u8, 9u8],
    {
        let x: u16 = 0x1FF;
        assert(x & 0x001 != 0 && x & 0x002 != 0 && x & 0x004 != 0 && x & 0x008 != 0 && x & 0x010
            != 0 && x & 0x020 != 0 && x & 0x040 != 0 && x & 0x080 != 0 && x & 0x100 != 0)
            by (bit_vector)
            requires
                x == 0x1FF,
        ;
        reveal_with_fuel(CandidateSet::values_to, 10);
    }

    /// The set that holds `value` alone.
    pub fn single_value(value: u8) -> (r: Self)
        requires
            1 <= value <= 9,
        ensures
            r.0 == mask(value as int),
            r.wf(),
            r@ =~= set![value as int],
            r.count() == 1,
            r.has(value as int),
    {
        let k: u16 = (value - 1) as u16;
        let r = Self(1u16 << k);
        proof {
            lemma_shift_is_mask(k);
            lemma_mask_bits(r.0);
        }
        r
    }

    /// The sum of `1..=9`, which every complete row, column and box has.
    pub fn checksum() -> (r: u8)
        ensures
            r == 45,
    {
        45
    }

    /// Takes `value` out of the set; nothing changes if it was not there.
    pub fn remove(&mut self, value: u8)
        requires
            1 <= value <= 9,
        ensures
            *final(self) == old(self).without(value as int),
            final(self)@ =~= old(self)@.remove(value as int),
            forall|v: int| final(self).has(v) <==> old(self).has(v) && v != value,
            old(self).wf() ==> final(self).wf(),
            !old(self).has(value as int) ==> *final(self) == *old(self),
            final(self).count() == old(self).count() - (if old(self).has(value as int) {
                1nat
            } else {
                0nat
            }),
    {
        let k: u16 = (value - 1) as u16;
        proof {
            lemma_shift_is_mask(k);
            lemma_cleared_bits(self.0, mask(value as int));
        }
        self.0 = self.0 & !(1u16 << k);
    }

    /// Whether `value` is still possible.
    pub fn contains(&self, value: u8) -> (r: bool)
        requires
            1 <= value <= 9,
        ensures
            r == self.has(value as int),
            r == self@.contains(value as int),
    {
        let k: u16 = (value - 1) as u16;
        proof {
            lemma_shift_is_mask(k);
        }
        (self.0 & (1u16 << k)) != 0
    }

    /// The number of values that are still possible.
    pub fn len(&self) -> (r: usize)
        requires
            self.wf(),
        ensures
            r == self@.len(),
            r == self.count(),
            r <= 9,
    {
        proof {
            self.lemma_count();
        }
        self.0.count_ones() as usize
    }

    /// Whether exactly one value is still possible.
    pub fn is_single(&self) -> (r: bool)
        requires
            self.wf(),
        ensures
            r == (self@.len() == 1),
            r == (self.count() == 1),
    {
        proof {
            self.lemma_count();
        }
        self.0.count_ones() == 1
    }

    /// The single value that remains, or `None` if the set holds no value
    /// or more than one.
    pub fn value(&self) -> (r: Option<u8>)
        requires
            self.wf(),
        ensures
            r == self.solved_value(),
            r is Some <==> self.count() == 1,
            r matches Some(v) ==> 1 <= v <= 9 && self.has(v as int) && self@ =~= set![v as int]
                && self.0 == mask(v as int),
    {
        proof {
            self.lemma_count();
        }
        if self.is_single() {
            let t: u32 = self.0.trailing_zeros();
            proof {
                let v = self.lowest();
                self.lemma_single(v);
                vstd::std_specs::bits::axiom_u16_trailing_zeros(self.0);
                assert(self.0 != 0);
                lemma_lowest_bit(self.0, t as u16);
                lemma_shift_is_mask(t as u16);
                assert(v == t + 1);
            }
            Some(t as u8 + 1)
        } else {
            None
        }
    }

    /// The values that are still possible, in ascending order.
    pub fn iter(&self) -> (r: Vec<u8>)
        ensures
            r@ == self.values(),
    {
        let mut r: Vec<u8> = Vec::new();
        let mut v: u8 = 1;
        while v <= 9
            invariant
                1 <= v <= 10,
                r@ == self.values_to(v - 1),
            decreases 10 - v,
        {
            if self.contains(v) {
                r.push(v);
            }
            v = v + 1;
        }
        r
    }

    /// Whether any value is still possible.
    pub fn has_values(&self) -> (r: bool)
        requires
            self.wf(),
        ensures
            r == (self@.len() > 0),
            r == (self.count() > 0),
            r == (self.0 != 0),
    {
        proof {
            self.lemma_count();
        }
        self.0.count_ones() > 0
    }

    /// What `values()` lists: exactly the values of the set, each once, in
    /// ascending order.
    pub proof fn lemma_values(&self, n: int)
        requires
            0 <= n <= 9,
        ensures
            forall|i: int|
                0 <= i < self.values_to(n).len() ==> 1 <= #[trigger] self.values_to(n)[i] <= n
                    && self.has(self.values_to(n)[i] as int),
            forall|i: int, j: int|
                0 <= i < j < self.values_to(n).len() ==> self.values_to(n)[i] < self.values_to(
                    n,
                )[j],
            forall|v: int|
                1 <= v <= n && self.has(v) ==> #[trigger] self.values_to(n).contains(v as u8),
        decreases n,
    {
        if n > 0 {
            self.lemma_values(n - 1);
            let prev = self.values_to(n - 1);
            let cur = self.values_to(n);
            if self.has(n) {
                assert(cur[cur.len() - 1] == n as u8);
                assert forall|v: int| 1 <= v <= n && self.has(v) implies #[trigger] cur.contains(
                    v as u8,
                ) by {
                    if v < n {
                        assert(prev.contains(v as u8));
                        let i = choose|i: int| 0 <= i < prev.len() && prev[i] == v as u8;
                        assert(cur[i] == v as u8);
                    } else {
                        assert(cur[cur.len() - 1] == v as u8);
                    }
                }
            }
        }
    }

    /// A set that holds exactly `v` reports `v` as its value and has one
    /// element.
    pub proof fn lemma_single_round_trip(&self, v: u8)
        requires
            1 <= v <= 9,
            self@ =~= set![v as int],
        ensures
            self.solved_value() == Some(v),
            self@.len() == 1,
            self.count() == 1,
    {
        self.lemma_count();
        assert(self@.contains(v as int));
        assert(self.has(v as int));
        self.lemma_single(v as int);
    }
}

} // verus!
