//! Candidate sets: `Value`, a set of digits kept as a bit mask, and `Cell`,
//! the candidates of one square together with their number.

use vstd::prelude::*;
use vstd::string::StringExecFns;

verus! {

/// The character that writes the digit `d`.
pub open spec fn digit_char(d: int) -> char {
    if d == 1 {
        '1'
    } else if d == 2 {
        '2'
    } else if d == 3 {
        '3'
    } else if d == 4 {
        '4'
    } else if d == 5 {
        '5'
    } else if d == 6 {
        '6'
    } else if d == 7 {
        '7'
    } else if d == 8 {
        '8'
    } else {
        '9'
    }
}

/// Whether bit `i` of `bits` is set.
spec fn bit_at(bits: u32, i: u32) -> bool {
    bits & (1u32 << i) != 0
}

/// The mask that holds the digit `d` alone.
spec fn mask_of(d: int) -> u32 {
    1u32 << ((d - 1) as u32)
}

/// How many of the lowest `n` bits of `bits` are set.
spec fn count_below(bits: u32, n: nat) -> nat
    decreases n,
{
    if n == 0 {
        0
    } else {
        count_below(bits, (n - 1) as nat) + if bit_at(bits, (n - 1) as u32) {
            1nat
        } else {
            0nat
        }
    }
}

/// The digits from 1 to `n` whose bit is set in `bits`.
spec fn digits_below(bits: u32, n: int) -> Set<int> {
    Set::new(|d: int| 1 <= d <= n && d <= 9 && bit_at(bits, (d - 1) as u32))
}

/// The nine digits.
pub open spec fn all_digits() -> Set<int> {
    Set::new(|d: int| 1 <= d <= 9)
}

proof fn lemma_bit_ops(b: u32, i: u32, j: u32)
    by (bit_vector)
    requires
        i < 9,
        j < 9,
    ensures
        bit_at(b ^ (1u32 << i), j) == (if i == j {
            !bit_at(b, j)
        } else {
            bit_at(b, j)
        }),
        bit_at(1u32 << i, j) == (i == j),
        bit_at(0x1ffu32, j),
        b <= 0x1ff ==> b ^ (1u32 << i) <= 0x1ff,
        (1u32 << i) <= 0x1ff,
        (1u32 << i) != 0,
{
}

proof fn lemma_bit_and(a: u32, b: u32, j: u32)
    by (bit_vector)
    requires
        j < 9,
    ensures
        bit_at(a & b, j) == (bit_at(a, j) && bit_at(b, j)),
        bit_at(a, j) ==> a != 0,
{
}

proof fn lemma_some_bit(a: u32)
    by (bit_vector)
    requires
        a != 0,
        a <= 0x1ff,
    ensures
        bit_at(a, 0) || bit_at(a, 1) || bit_at(a, 2) || bit_at(a, 3) || bit_at(a, 4) || bit_at(a, 5)
            || bit_at(a, 6) || bit_at(a, 7) || bit_at(a, 8),
{
}

proof fn lemma_bits_determined(a: u32, b: u32)
    by (bit_vector)
    requires
        a <= 0x1ff,
        b <= 0x1ff,
        bit_at(a, 0) == bit_at(b, 0),
        bit_at(a, 1) == bit_at(b, 1),
        bit_at(a, 2) == bit_at(b, 2),
        bit_at(a, 3) == bit_at(b, 3),
        bit_at(a, 4) == bit_at(b, 4),
        bit_at(a, 5) == bit_at(b, 5),
        bit_at(a, 6) == bit_at(b, 6),
        bit_at(a, 7) == bit_at(b, 7),
        bit_at(a, 8) == bit_at(b, 8),
    ensures
        a == b,
{
}

proof fn lemma_digits_below(bits: u32, n: nat)
    requires
        n <= 9,
    ensures
        digits_below(bits, n as int).finite(),
        digits_below(bits, n as int).len() == count_below(bits, n),
        count_below(bits, n) <= n,
    decreases n,
{
    if n == 0 {
        assert(digits_below(bits, 0) =~= Set::<int>::empty());
    } else {
        lemma_digits_below(bits, (n - 1) as nat);
        let s = digits_below(bits, n - 1);
        if bit_at(bits, (n - 1) as u32) {
            assert(digits_below(bits, n as int) =~= s.insert(n as int));
        } else {
            assert(digits_below(bits, n as int) =~= s);
        }
    }
}

/// A set of digits between 1 and 9, kept as a mask of nine bits: bit `d - 1`
/// stands for the digit `d`.
#[derive(Clone, Copy, Debug, PartialEq, Eq, Structural)]
pub struct Value {
    bits: u32,
}

impl View for Value {
    type V = Set<int>;

    /// The digits in the set.
    closed spec fn view(&self) -> Set<int> {
        digits_below(self.bits, 9)
    }
}

impl Value {
    /// No bit beyond the nine is set: the mask stands for digits only.
    pub closed spec fn wf(self) -> bool {
        self.bits <= 0x1ff
    }

    /// The digit of a set that holds exactly one digit, and 0 for any other set.
    pub closed spec fn digit(self) -> int {
        if exists|d: int| 1 <= d <= 9 && self.bits == #[trigger] mask_of(d) {
            choose|d: int| 1 <= d <= 9 && self.bits == #[trigger] mask_of(d)
        } else {
            0
        }
    }

    /// The set holds exactly one digit.
    pub open spec fn is_single(self) -> bool {
        self.digit() != 0
    }

    /// A set is finite, holds digits only, and a set of one digit is the
    /// singleton of `digit()`.
    pub proof fn lemma_view(self)
        ensures
            self@.finite(),
            self@.len() <= 9,
            forall|d: int| self@.contains(d) ==> 1 <= d <= 9,
            self.is_single() ==> self.wf() && 1 <= self.digit() <= 9 && self@ == set![
                self.digit(),
            ],
    {
        lemma_digits_below(self.bits, 9);
        if self.is_single() {
            let v = self.digit();
            assert(1 <= v <= 9 && self.bits == mask_of(v));
            assert forall|d: int| self@.contains(d) <==> d == v by {
                if 1 <= d <= 9 {
                    lemma_bit_ops(0, (v - 1) as u32, (d - 1) as u32);
                }
            }
            assert(self@ =~= set![v]);
            lemma_bit_ops(0, (v - 1) as u32, 0);
        }
    }

    /// A set of exactly one digit is single, and that digit is `digit()`.
    pub proof fn lemma_single(self)
        requires
            self.wf(),
            self@.len() == 1,
        ensures
            self.is_single(),
            self@ == set![self.digit()],
    {
        lemma_digits_below(self.bits, 9);
        let w = self@.choose();
        assert(self@.contains(w));
        let m = mask_of(w);
        lemma_bit_ops(0, (w - 1) as u32, 0);
        assert forall|j: u32| j < 9 implies bit_at(self.bits, j) == bit_at(m, j) by {
            lemma_bit_ops(0, (w - 1) as u32, j);
            let d = j + 1;
            if d != w && bit_at(self.bits, j) {
                assert(self@.contains(d));
                assert(self@.remove(w).contains(d));
            }
        }
        lemma_bits_determined(self.bits, m);
        assert(1 <= w <= 9 && self.bits == mask_of(w));
        self.lemma_view();
    }

    /// The set that holds the digit `v` alone.
    pub fn from(v: u32) -> (r: Value)
        requires
            1 <= v <= 9,
        ensures
            r.wf(),
            r.is_single(),
            r.digit() == v,
            r@ == set![v as int],
    {
        let r = Value { bits: 1u32 << (v - 1) };
        proof {
            let d = v as int;
            assert(1 <= d <= 9 && r.bits == mask_of(d));
            let w = r.digit();
            assert(1 <= w <= 9 && r.bits == mask_of(w));
            lemma_bit_ops(0, (v - 1) as u32, (w - 1) as u32);
            lemma_bit_ops(0, (w - 1) as u32, (w - 1) as u32);
            r.lemma_view();
        }
        r
    }

    /// The set of all nine digits.
    pub fn all() -> (r: Value)
        ensures
            r.wf(),
            r@ == all_digits(),
    {
        let r = Value { bits: 0x1ff };
        proof {
            assert forall|d: int| all_digits().contains(d) implies r@.contains(d) by {
                lemma_bit_ops(0, 0, (d - 1) as u32);
            }
            assert(r@ =~= all_digits());
        }
        r
    }

    /// The digit of a set that holds exactly one, written out.
    pub fn to_string(&self) -> (s: String)
        requires
            self.is_single(),
        ensures
            s@ == seq![digit_char(self.digit())],
    {
        proof {
            let w = self.digit();
            assert(1 <= w <= 9 && self.bits == mask_of(w));
            assert(1u32 << 0u32 == 1 && 1u32 << 1u32 == 2 && 1u32 << 2u32 == 4 && 1u32 << 3u32 == 8
                && 1u32 << 4u32 == 16 && 1u32 << 5u32 == 32 && 1u32 << 6u32 == 64 && 1u32 << 7u32
                == 128 && 1u32 << 8u32 == 256) by (bit_vector);
            reveal_strlit("1");
            reveal_strlit("2");
            reveal_strlit("3");
            reveal_strlit("4");
            reveal_strlit("5");
            reveal_strlit("6");
            reveal_strlit("7");
            reveal_strlit("8");
            reveal_strlit("9");
        }
        let text = if self.bits == 1 {
            "1"
        } else if self.bits == 2 {
            "2"
        } else if self.bits == 4 {
            "3"
        } else if self.bits == 8 {
            "4"
        } else if self.bits == 16 {
            "5"
        } else if self.bits == 32 {
            "6"
        } else if self.bits == 64 {
            "7"
        } else if self.bits == 128 {
            "8"
        } else {
            "9"
        };
        proof {
            assert(text@ =~= seq![digit_char(self.digit())]);
        }
        String::from_str(text)
    }

    /// Whether the two sets have a digit in common.
    pub fn intersects(&self, other: Value) -> (b: bool)
        requires
            self.wf(),
            other.wf(),
        ensures
            b == !self@.disjoint(other@),
            other.is_single() ==> b == self@.contains(other.digit()),
    {
        let b = self.bits & other.bits != 0;
        proof {
            let a = self.bits;
            let o = other.bits;
            assert(a & o <= 0x1ff) by (bit_vector)
                requires
                    a <= 0x1ff,
            ;
            if b {
                lemma_some_bit(a & o);
                let i = choose|i: u32| i < 9 && bit_at(a & o, i);
                lemma_bit_and(a, o, i);
                let d = i + 1;
                assert(self@.contains(d) && other@.contains(d));
            } else {
                assert forall|d: int| self@.contains(d) && other@.contains(d) implies false by {
                    lemma_bit_and(a, o, (d - 1) as u32);
                    lemma_bit_and(a & o, a & o, (d - 1) as u32);
                }
            }
            other.lemma_view();
        }
        b
    }

    /// The digits that are in exactly one of the two sets.
    pub fn toggle(self, other: Value) -> (r: Value)
        requires
            self.wf(),
            other.is_single(),
        ensures
            r.wf(),
            r@ == if self@.contains(other.digit()) {
                self@.remove(other.digit())
            } else {
                self@.insert(other.digit())
            },
    {
        let r = Value { bits: self.bits ^ other.bits };
        proof {
            other.lemma_view();
            let v = other.digit();
            assert(other.bits == mask_of(v));
            lemma_bit_ops(self.bits, (v - 1) as u32, 0);
            assert forall|d: int| 1 <= d <= 9 implies (r@.contains(d) <==> if d == v {
                !self@.contains(d)
            } else {
                self@.contains(d)
            }) by {
                lemma_bit_ops(self.bits, (v - 1) as u32, (d - 1) as u32);
            }
            if self@.contains(v) {
                assert(r@ =~= self@.remove(v));
            } else {
                assert(r@ =~= self@.insert(v));
            }
        }
        r
    }
}

/// The candidates of one square and how many they are.
///
/// A cell with one candidate is known; a cell with none is a contradiction.
#[derive(Clone, Copy, Debug, Eq)]
pub struct Cell {
    value: Value,
    count: u8,
}

impl View for Cell {
    type V = Set<int>;

    /// The digits that the square can still hold.
    closed spec fn view(&self) -> Set<int> {
        self.value@
    }
}

impl Cell {
    /// The candidates are digits, and `count` is their number.
    pub closed spec fn wf(self) -> bool {
        &&& self.value.wf()
        &&& self.count == count_below(self.value.bits, 9)
    }

    /// The stored number of candidates.
    pub closed spec fn spec_count(&self) -> u8 {
        self.count
    }

    /// The stored candidate set.
    pub closed spec fn spec_value(&self) -> Value {
        self.value
    }

    /// In a well-formed cell the stored count is the cardinality of the
    /// candidate set, which holds digits only.
    pub proof fn lemma_wf(self)
        requires
            self.wf(),
        ensures
            self@.finite(),
            self@.len() == self.spec_count(),
            self.spec_count() <= 9,
            forall|d: int| self@.contains(d) ==> 1 <= d <= 9,
            self.spec_value().wf(),
            self.spec_value()@ == self@,
    {
        lemma_digits_below(self.value.bits, 9);
    }

    /// The candidate set of a known cell holds one digit, its value.
    pub proof fn lemma_known(self)
        requires
            self.wf(),
            self.spec_count() == 1,
        ensures
            self.spec_value().is_single(),
            self@ == set![self.spec_value().digit()],
    {
        lemma_digits_below(self.value.bits, 9);
        self.value.lemma_single();
    }

    /// Whether exactly one candidate is left.
    pub fn is_known(&self) -> (b: bool)
        ensures
            b == (self.spec_count() == 1),
    {
        self.count == 1
    }

    /// Removes the candidate `value` and returns the new state.
    pub fn eliminate(&mut self, value: Value) -> (r: &Self)
        requires
            old(self).wf(),
            value.is_single(),
            old(self)@.contains(value.digit()),
        ensures
            final(self).wf(),
            final(self)@ == old(self)@.remove(value.digit()),
            final(self).spec_count() == old(self).spec_count() - 1,
            *r == *final(self),
    {
        proof {
            self.lemma_wf();
        }
        self.value = self.value.toggle(value);
        self.count = self.count - 1;
        proof {
            lemma_digits_below(self.value.bits, 9);
        }
        self
    }

    /// The number of candidates.
    #[verifier::when_used_as_spec(spec_count)]
    pub fn count(&self) -> (n: u8)
        ensures
            n == self.spec_count(),
    {
        self.count
    }

    /// The key by which cells are ordered: the number of candidates, and 10
    /// for a known cell.
    pub open spec fn spec_rank(&self) -> u8 {
        if self.spec_count() == 1 {
            10
        } else {
            self.spec_count()
        }
    }

    /// The key by which cells are ordered for branching: the number of
    /// candidates, and 10 for a known cell, which is thereby ranked last.
    #[verifier::when_used_as_spec(spec_rank)]
    pub fn rank(&self) -> (k: u8)
        ensures
            k == self.spec_rank(),
    {
        if self.count == 1 {
            10
        } else {
            self.count
        }
    }

    /// The candidate set.
    #[verifier::when_used_as_spec(spec_value)]
    pub fn value(&self) -> (v: Value)
        ensures
            v == self.spec_value(),
    {
        self.value
    }

    /// The candidates in ascending order.
    pub fn nums(&self) -> (r: Vec<u32>)
        requires
            self.wf(),
        ensures
            r@.len() == self.spec_count(),
            forall|i: int, j: int| 0 <= i < j < r@.len() ==> r@[i] < r@[j],
            forall|d: u32| r@.contains(d) <==> self@.contains(d as int),
    {
        let mut nums: Vec<u32> = Vec::new();
        let mut d: u32 = 1;
        while d <= 9
            invariant
                1 <= d <= 10,
                self.wf(),
                nums@.len() == count_below(self.value.bits, (d - 1) as nat),
                forall|i: int, j: int| 0 <= i < j < nums@.len() ==> nums@[i] < nums@[j],
                forall|i: int| 0 <= i < nums@.len() ==> nums@[i] < d,
                forall|e: u32| nums@.contains(e) <==> 1 <= e < d && self@.contains(e as int),
            decreases 10 - d,
        {
            let ghost before = nums@;
            if self.value.intersects(Value::from(d)) {
                nums.push(d);
                proof {
                    assert(nums@.last() == d);
                    assert forall|e: u32| nums@.contains(e) <==> 1 <= e < d + 1 && self@.contains(
                        e as int,
                    ) by {
                        if nums@.contains(e) {
                            let i = choose|i: int| 0 <= i < nums@.len() && nums@[i] == e;
                            if i < before.len() {
                                assert(before[i] == e);
                                assert(before.contains(e));
                            }
                        }
                        if 1 <= e < d + 1 && self@.contains(e as int) {
                            if e == d {
                                assert(nums@[nums@.len() - 1] == e);
                            } else {
                                assert(before.contains(e));
                                let i = choose|i: int| 0 <= i < before.len() && before[i] == e;
                                assert(nums@[i] == e);
                            }
                        }
                    }
                }
            }
            d = d + 1;
        }
        nums
    }
}

impl Default for Cell {
    /// The cell in which every digit is still a candidate.
    fn default() -> (r: Cell)
        ensures
            r.wf(),
            r@ == all_digits(),
            r.spec_count() == 9,
    {
        let r = Cell { value: Value::all(), count: 9 };
        proof {
            lemma_digits_below(r.value.bits, 9);
            assert(all_digits() =~= set![1int, 2, 3, 4, 5, 6, 7, 8, 9]);
        }
        r
    }
}

} // verus!
