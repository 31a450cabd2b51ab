//! Fixed-capacity sets of small integers kept in the bits of one word.
use vstd::prelude::*;

verus! {

/// A fixed-width machine word used as the storage of a [`BitSet`].
///
/// The word is modelled by which of its bit positions are set; positions at
/// or beyond the width are never set.
pub trait BitStore: Copy + Sized {
    /// Number of bit positions of the word.
    spec fn spec_width() -> nat;

    /// Whether bit position `i` is set.
    spec fn spec_bit(&self, i: nat) -> bool;

    /// No position at or beyond the width is ever set.
    proof fn lemma_bit_in_width(&self, i: nat)
        ensures
            self.spec_bit(i) ==> i < Self::spec_width(),
    ;

    /// Number of bit positions, as a value.
    fn width() -> (r: usize)
        ensures
            r as nat == Self::spec_width(),
    ;

    /// The word with no position set.
    fn zero() -> (r: Self)
        ensures
            forall|i: nat| !#[trigger] r.spec_bit(i),
    ;

    /// Whether position `i` is set; false at or beyond the width.
    fn test_bit(&self, i: usize) -> (r: bool)
        ensures
            r == self.spec_bit(i as nat),
    ;

    /// The word with position `i` set as well.
    fn with_bit(&self, i: usize) -> (r: Self)
        requires
            (i as nat) < Self::spec_width(),
        ensures
            forall|j: nat| #[trigger] r.spec_bit(j) == (j == i as nat || self.spec_bit(j)),
    ;

    /// The word with position `i` cleared.
    fn without_bit(&self, i: usize) -> (r: Self)
        requires
            (i as nat) < Self::spec_width(),
        ensures
            forall|j: nat| #[trigger] r.spec_bit(j) == (j != i as nat && self.spec_bit(j)),
    ;

    /// Whether no position is set.
    fn is_zero(&self) -> (r: bool)
        ensures
            r == forall|j: nat| !#[trigger] self.spec_bit(j),
    ;

    /// The positions set in both words.
    fn and(&self, other: &Self) -> (r: Self)
        ensures
            forall|j: nat| #[trigger] r.spec_bit(j) == (self.spec_bit(j) && other.spec_bit(j)),
    ;
}

proof fn lemma_u64_bits(x: u64, i: u64, j: u64)
    requires
        i < 64,
        j < 64,
    ensures
        ((x | (1u64 << i)) >> j) & 1 == 1 <==> (j == i || (x >> j) & 1 == 1),
        ((x & !(1u64 << i)) >> j) & 1 == 1 <==> (j != i && (x >> j) & 1 == 1),
{
    assert(((x | (1u64 << i)) >> j) & 1 == 1 <==> (j == i || (x >> j) & 1 == 1)) by (bit_vector)
        requires
            i < 64,
            j < 64,
    ;
    assert(((x & !(1u64 << i)) >> j) & 1 == 1 <==> (j != i && (x >> j) & 1 == 1)) by (bit_vector)
        requires
            i < 64,
            j < 64,
    ;
}

impl BitStore for u64 {
    open spec fn spec_width() -> nat {
        64
    }

    open spec fn spec_bit(&self, i: nat) -> bool {
        i < 64 && (*self >> (i as u64)) & 1 == 1
    }

    proof fn lemma_bit_in_width(&self, i: nat) {
    }

    fn width() -> (r: usize) {
        64
    }

    fn zero() -> (r: u64) {
        assert forall|j: u64| j < 64 implies (0u64 >> j) & 1 != 1 by {
            assert((0u64 >> j) & 1 != 1) by (bit_vector);
        }
        0
    }

    fn test_bit(&self, i: usize) -> (r: bool) {
        if i < 64 {
            (*self >> (i as u64)) & 1 == 1
        } else {
            false
        }
    }

    fn with_bit(&self, i: usize) -> (r: u64) {
        let r = *self | (1u64 << (i as u64));
        assert forall|j: nat| #[trigger] r.spec_bit(j) == (j == i as nat || self.spec_bit(j)) by {
            if j < 64 {
                lemma_u64_bits(*self, i as u64, j as u64);
            }
        }
        r
    }

    fn without_bit(&self, i: usize) -> (r: u64) {
        let r = *self & !(1u64 << (i as u64));
        assert forall|j: nat| #[trigger] r.spec_bit(j) == (j != i as nat && self.spec_bit(j)) by {
            if j < 64 {
                lemma_u64_bits(*self, i as u64, j as u64);
            }
        }
        r
    }

    fn is_zero(&self) -> (r: bool) {
        let x = *self;
        proof {
            if x == 0 {
                assert forall|j: u64| j < 64 implies (x >> j) & 1 != 1 by {
                    assert((0u64 >> j) & 1 != 1) by (bit_vector);
                }
            } else {
                vstd::std_specs::bits::axiom_u64_trailing_zeros(x);
                let t = vstd::std_specs::bits::u64_trailing_zeros(x);
                assert(self.spec_bit(t as nat));
            }
        }
        x == 0
    }

    fn and(&self, other: &u64) -> (r: u64) {
        let r = *self & *other;
        assert forall|j: nat| #[trigger] r.spec_bit(j) == (self.spec_bit(j) && other.spec_bit(j)) by {
            if j < 64 {
                let (x, y, k) = (*self, *other, j as u64);
                assert(((x & y) >> k) & 1 == 1 <==> ((x >> k) & 1 == 1 && (y >> k) & 1 == 1))
                    by (bit_vector);
            }
        }
        r
    }
}

proof fn lemma_usize_bits(x: usize, i: usize, j: usize)
    requires
        i < usize::BITS,
        j < usize::BITS,
    ensures
        ((x | (1usize << i)) >> j) & 1 == 1 <==> (j == i || (x >> j) & 1 == 1),
        ((x & !(1usize << i)) >> j) & 1 == 1 <==> (j != i && (x >> j) & 1 == 1),
{
    assert(((x | (1usize << i)) >> j) & 1 == 1 <==> (j == i || (x >> j) & 1 == 1)) by (bit_vector)
        requires
            i < usize::BITS,
            j < usize::BITS,
    ;
    assert(((x & !(1usize << i)) >> j) & 1 == 1 <==> (j != i && (x >> j) & 1 == 1)) by (bit_vector)
        requires
            i < usize::BITS,
            j < usize::BITS,
    ;
}

impl BitStore for usize {
    open spec fn spec_width() -> nat {
        usize::BITS as nat
    }

    open spec fn spec_bit(&self, i: nat) -> bool {
        i < usize::BITS && (*self >> (i as usize)) & 1 == 1
    }

    proof fn lemma_bit_in_width(&self, i: nat) {
    }

    fn width() -> (r: usize) {
        usize::BITS as usize
    }

    fn zero() -> (r: usize) {
        assert forall|j: usize| j < usize::BITS implies (0usize >> j) & 1 != 1 by {
            assert((0usize >> j) & 1 != 1) by (bit_vector);
        }
        0
    }

    fn test_bit(&self, i: usize) -> (r: bool) {
        if i < usize::BITS as usize {
            (*self >> i) & 1 == 1
        } else {
            false
        }
    }

    fn with_bit(&self, i: usize) -> (r: usize) {
        let r = *self | (1usize << i);
        assert forall|j: nat| #[trigger] r.spec_bit(j) == (j == i as nat || self.spec_bit(j)) by {
            if j < usize::BITS {
                lemma_usize_bits(*self, i, j as usize);
            }
        }
        r
    }

    fn without_bit(&self, i: usize) -> (r: usize) {
        let r = *self & !(1usize << i);
        assert forall|j: nat| #[trigger] r.spec_bit(j) == (j != i as nat && self.spec_bit(j)) by {
            if j < usize::BITS {
                lemma_usize_bits(*self, i, j as usize);
            }
        }
        r
    }

    fn is_zero(&self) -> (r: bool) {
        let x = *self;
        proof {
            if x == 0 {
                assert forall|j: usize| j < usize::BITS implies (x >> j) & 1 != 1 by {
                    assert((0usize >> j) & 1 != 1) by (bit_vector);
                }
            } else {
                let y = x as u64;
                assert(y != 0);
                vstd::std_specs::bits::axiom_u64_trailing_zeros(y);
                let t = vstd::std_specs::bits::u64_trailing_zeros(y);
                assert((y >> (t as u64)) & 1 == 1);
                assert(x as u64 == y && (y >> (t as u64)) & 1 == 1 ==> (t as u64) < usize::BITS
                    && (x >> (t as usize)) & 1 == 1) by (bit_vector);
                assert(self.spec_bit(t as nat));
            }
        }
        x == 0
    }

    fn and(&self, other: &usize) -> (r: usize) {
        let r = *self & *other;
        assert forall|j: nat| #[trigger] r.spec_bit(j) == (self.spec_bit(j) && other.spec_bit(j)) by {
            if j < usize::BITS {
                let (x, y, k) = (*self, *other, j as usize);
                assert(((x & y) >> k) & 1 == 1 <==> ((x >> k) & 1 == 1 && (y >> k) & 1 == 1))
                    by (bit_vector);
            }
        }
        r
    }
}

/// Number of set positions of `b` below `n`.
pub open spec fn count_below<T: BitStore>(b: T, n: nat) -> nat
    decreases n,
{
    if n == 0 {
        0
    } else {
        count_below(b, (n - 1) as nat) + if b.spec_bit((n - 1) as nat) {
            1nat
        } else {
            0nat
        }
    }
}

proof fn lemma_count_below<T: BitStore>(b: T, n: nat)
    ensures
        Set::new(|i: nat| i < n && b.spec_bit(i)).finite(),
        Set::new(|i: nat| i < n && b.spec_bit(i)).len() == count_below(b, n),
    decreases n,
{
    let s = Set::new(|i: nat| i < n && b.spec_bit(i));
    if n == 0 {
        assert(s =~= Set::empty());
    } else {
        let m = (n - 1) as nat;
        lemma_count_below(b, m);
        let t = Set::new(|i: nat| i < m && b.spec_bit(i));
        if b.spec_bit(m) {
            assert(s =~= t.insert(m));
        } else {
            assert(s =~= t);
        }
    }
}

/// The character of a decimal digit `d < 10`.
pub open spec fn digit_char(d: nat) -> char {
    ((d + 48) as u8) as char
}

/// `n` written in decimal, without leading zeros.
pub open spec fn decimal(n: nat) -> Seq<char>
    decreases n,
{
    if n < 10 {
        seq![digit_char(n)]
    } else {
        decimal(n / 10).push(digit_char(n % 10))
    }
}

/// The members of `s` below `n`, in ascending order.
pub open spec fn members_below(s: Set<nat>, n: nat) -> Seq<nat>
    decreases n,
{
    if n == 0 {
        seq![]
    } else if s.contains((n - 1) as nat) {
        members_below(s, (n - 1) as nat).push((n - 1) as nat)
    } else {
        members_below(s, (n - 1) as nat)
    }
}

/// The numbers `xs` in decimal, separated by commas.
pub open spec fn comma_list(xs: Seq<nat>) -> Seq<char>
    decreases xs.len(),
{
    if xs.len() == 0 {
        seq![]
    } else if xs.len() == 1 {
        decimal(xs[0])
    } else {
        comma_list(xs.drop_last()).push(',') + decimal(xs.last())
    }
}

/// A set written as `{a,b,c}`, members ascending.
pub open spec fn set_text_of(s: Set<nat>, capacity: nat) -> Seq<char> {
    seq!['{'] + comma_list(members_below(s, capacity)) + seq!['}']
}

proof fn lemma_members_skip(s: Set<nat>, p: nat, d: nat)
    requires
        p <= d,
        forall|v: nat| p <= v < d ==> !#[trigger] s.contains(v),
    ensures
        members_below(s, d) == members_below(s, p),
    decreases d,
{
    if d > p {
        lemma_members_skip(s, p, (d - 1) as nat);
    }
}

fn push_decimal(out: &mut Vec<char>, n: usize)
    ensures
        final(out)@ == old(out)@ + decimal(n as nat),
    decreases n,
{
    if n >= 10 {
        push_decimal(out, n / 10);
    }
    let d = n % 10;
    out.push(((d + 48) as u8) as char);
    assert(final(out)@ =~= old(out)@ + decimal(n as nat));
}

/// A set of small integers `0 <= v < capacity`, stored as the bits of one word.
///
/// A set is a plain value: copying it takes a snapshot.
#[derive(Clone, Copy, Debug, PartialEq, Eq)]
pub struct BitSet<T: BitStore> {
    bits: T,
}

impl<T: BitStore> View for BitSet<T> {
    type V = Set<nat>;

    closed spec fn view(&self) -> Set<nat> {
        Set::new(|i: nat| self.bits.spec_bit(i))
    }
}

impl<T: BitStore> BitSet<T> {
    /// Values at or beyond the capacity are never members.
    pub open spec fn capacity() -> nat {
        T::spec_width()
    }

    /// Every set is finite and holds only values below the capacity.
    pub proof fn lemma_bounded(&self)
        ensures
            self@.finite(),
            forall|v: nat| #[trigger] self@.contains(v) ==> v < Self::capacity(),
    {
        lemma_count_below(self.bits, T::spec_width());
        assert forall|v: nat| #[trigger] self@.contains(v) implies v < Self::capacity() by {
            self.bits.lemma_bit_in_width(v);
        }
        assert(self@ =~= Set::new(|i: nat| i < T::spec_width() && self.bits.spec_bit(i)));
    }

    /// The empty set.
    pub fn new() -> (r: Self)
        ensures
            r@ == Set::<nat>::empty(),
    {
        let r = Self { bits: T::zero() };
        assert(r@ =~= Set::<nat>::empty());
        r
    }

    /// The set `{1, ..., bound}`.
    pub fn full(bound: usize) -> (r: Self)
        requires
            (bound as nat) < Self::capacity(),
        ensures
            r@ == Set::new(|v: nat| 1 <= v <= bound),
    {
        let w = T::width();
        let mut r = Self::new();
        let mut i: usize = 1;
        while i <= bound
            invariant
                1 <= i <= bound + 1,
                bound < w,
                w as nat == T::spec_width(),
                (bound as nat) < Self::capacity(),
                r@ == Set::new(|v: nat| 1 <= v < i),
            decreases bound + 1 - i,
        {
            r.insert(i);
            assert(r@ =~= Set::new(|v: nat| 1 <= v < i + 1));
            i = i + 1;
        }
        assert(r@ =~= Set::new(|v: nat| 1 <= v <= bound));
        r
    }

    /// Number of members.
    pub fn count(&self) -> (r: usize)
        ensures
            self@.finite(),
            r as nat == self@.len(),
    {
        let w = T::width();
        let mut n: usize = 0;
        let mut i: usize = 0;
        while i < w
            invariant
                w as nat == T::spec_width(),
                i <= w,
                n as nat == count_below(self.bits, i as nat),
                n <= i,
            decreases w - i,
        {
            if self.bits.test_bit(i) {
                n = n + 1;
            }
            i = i + 1;
        }
        proof {
            lemma_count_below(self.bits, w as nat);
            self.lemma_bounded();
        }
        assert(self@ =~= Set::new(|j: nat| j < w && self.bits.spec_bit(j)));
        n
    }

    /// Whether `value` is a member; always false at or beyond the capacity.
    pub fn contains(&self, value: usize) -> (r: bool)
        ensures
            r == self@.contains(value as nat),
    {
        self.bits.test_bit(value)
    }

    /// Adds `value`; adding a member again changes nothing.
    pub fn insert(&mut self, value: usize)
        requires
            (value as nat) < Self::capacity(),
        ensures
            final(self)@ == old(self)@.insert(value as nat),
    {
        self.bits = self.bits.with_bit(value);
        assert(self@ =~= old(self)@.insert(value as nat));
    }

    /// Removes `value`; removing a non-member changes nothing.
    pub fn remove(&mut self, value: usize)
        requires
            (value as nat) < Self::capacity(),
        ensures
            final(self)@ == old(self)@.remove(value as nat),
    {
        self.bits = self.bits.without_bit(value);
        assert(self@ =~= old(self)@.remove(value as nat));
    }

    /// The members common to both sets.
    pub fn intersection(&self, other: Self) -> (r: Self)
        ensures
            r@ == self@.intersect(other@),
    {
        let r = Self { bits: self.bits.and(&other.bits) };
        assert(r@ =~= self@.intersect(other@));
        r
    }

    /// Inserting a value twice is the same as inserting it once, and so is
    /// removing it twice.
    pub proof fn lemma_insert_remove_idempotent(&self, v: nat)
        ensures
            self@.insert(v).insert(v) == self@.insert(v),
            self@.remove(v).remove(v) == self@.remove(v),
    {
        assert(self@.insert(v).insert(v) =~= self@.insert(v));
        assert(self@.remove(v).remove(v) =~= self@.remove(v));
    }

    /// Whether the set has no member.
    pub fn is_empty(&self) -> (r: bool)
        ensures
            r == (self@ == Set::<nat>::empty()),
    {
        let r = self.bits.is_zero();
        proof {
            if r {
                assert(self@ =~= Set::<nat>::empty());
            } else {
                let j = choose|j: nat| self.bits.spec_bit(j);
                assert(self@.contains(j));
            }
        }
        r
    }

    /// The set written as `{a,b,c}`, members in ascending order.
    pub fn to_text(&self) -> (r: Vec<char>)
        ensures
            r@ == set_text_of(self@, Self::capacity()),
    {
        let mut out: Vec<char> = Vec::new();
        out.push('{');
        let mut it = self.iter();
        let mut first = true;
        loop
            invariant_except_break
                out@ == seq!['{'] + comma_list(members_below(self@, it.position())),
                first == (members_below(self@, it.position()).len() == 0),
            invariant
                it.wf(),
                it.members() == self@,
                it.position() <= T::spec_width(),
            ensures
                out@ == seq!['{'] + comma_list(members_below(self@, Self::capacity())),
            decreases T::spec_width() - it.position(),
        {
            let ghost p = it.position();
            match it.next() {
                None => {
                    proof {
                        lemma_members_skip(self@, p, T::spec_width());
                    }
                    break;
                },
                Some(v) => {
                    proof {
                        lemma_members_skip(self@, p, v as nat);
                        self.lemma_bounded();
                    }
                    let ghost xs = members_below(self@, p);
                    assert(members_below(self@, (v + 1) as nat) == xs.push(v as nat));
                    if !first {
                        out.push(',');
                    }
                    push_decimal(&mut out, v);
                    first = false;
                    assert(xs.push(v as nat).drop_last() =~= xs);
                    assert(out@ =~= seq!['{'] + comma_list(xs.push(v as nat)));
                },
            }
        }
        out.push('}');
        out
    }

    /// A fresh iterator over the members in ascending order.
    pub fn iter(&self) -> (r: Iter<T>)
        ensures
            r.wf(),
            r.members() == self@,
            r.position() == 0,
    {
        Iter { bits: self.bits, value: 0 }
    }
}

/// Walks the members of a [`BitSet`] upwards from a position.
#[derive(Clone, Copy, Debug)]
pub struct Iter<T: BitStore> {
    bits: T,
    value: usize,
}

impl<T: BitStore> Iter<T> {
    /// The members of the set being walked.
    pub closed spec fn members(&self) -> Set<nat> {
        Set::new(|i: nat| self.bits.spec_bit(i))
    }

    /// The smallest value that the next step may still yield.
    pub closed spec fn position(&self) -> nat {
        self.value as nat
    }

    /// The position never passes the width of the word.
    pub closed spec fn wf(&self) -> bool {
        self.value as nat <= T::spec_width()
    }

    /// Yields the smallest member at or above the position, and moves past it.
    pub fn next(&mut self) -> (r: Option<usize>)
        requires
            old(self).wf(),
        ensures
            final(self).wf(),
            final(self).members() == old(self).members(),
            final(self).position() <= T::spec_width(),
            match r {
                Some(v) => {
                    &&& old(self).position() <= v
                    &&& old(self).members().contains(v as nat)
                    &&& forall|u: nat|
                        old(self).position() <= u < v ==> !#[trigger] old(self).members().contains(
                            u,
                        )
                    &&& final(self).position() == v + 1
                },
                None => {
                    &&& forall|u: nat|
                        old(self).position() <= u ==> !#[trigger] old(self).members().contains(u)
                    &&& final(self).position() >= old(self).position()
                },
            },
    {
        let w = T::width();
        while self.value < w && !self.bits.test_bit(self.value)
            invariant
                w as nat == T::spec_width(),
                self.bits == old(self).bits,
                old(self).value <= self.value <= w,
                forall|u: nat|
                    old(self).position() <= u < self.value ==> !#[trigger] self.bits.spec_bit(u),
            decreases w - self.value,
        {
            self.value = self.value + 1;
        }
        if self.value == w {
            proof {
                assert forall|u: nat| old(self).position() <= u implies !#[trigger] old(
                    self,
                ).members().contains(u) by {
                    self.bits.lemma_bit_in_width(u);
                }
            }
            None
        } else {
            let v = self.value;
            self.value = self.value + 1;
            Some(v)
        }
    }
}

} // verus!
