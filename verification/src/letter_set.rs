use crate::letter::group_letter;
use crate::letter::Letter;
use vstd::prelude::*;
use vstd::std_specs::convert::FromSpecImpl;

verus! {

broadcast use group_letter;

/// Whether bit `i` of `bits` is set.
pub open spec fn bit_of(bits: u32, i: u32) -> bool {
    bits & (1u32 << i) != 0
}

/// The bits of the 26 letters.
pub const FULL_BITS: u32 = 0x3FF_FFFF;

/// A set of letters, held as one bit for each letter of the alphabet.
#[derive(Clone, Copy, PartialEq, Eq, Structural, Debug)]
pub struct LetterSet(u32);

impl View for LetterSet {
    type V = Set<Letter>;

    /// The letters of the alphabet whose bit is set.
    open spec fn view(&self) -> Set<Letter> {
        Set::new(|l: Letter| l.wf() && self.bit(l.index()))
    }
}

impl LetterSet {
    /// Whether the bit at a position is set.
    pub closed spec fn bit(self, i: int) -> bool {
        0 <= i < 32 && bit_of(self.0, i as u32)
    }

    /// No bit is set but those of the 26 letters.
    #[verifier::type_invariant]
    pub closed spec fn wf(self) -> bool {
        self.0 <= FULL_BITS
    }

    /// The set that holds no letter.
    pub fn empty() -> (r: Self)
        ensures
            r@ == Set::<Letter>::empty(),
            r.wf(),
    {
        let r = LetterSet(0);
        proof {
            assert forall|j: u32| j < 32 implies !bit_of(0u32, j) by {
                lemma_bits_const(j);
            }
            assert(r@ =~= Set::<Letter>::empty());
        }
        r
    }

    /// The set of all 26 letters.
    pub fn full() -> (r: Self)
        ensures
            r@ == Set::new(|l: Letter| l.wf()),
            r.wf(),
    {
        let r = LetterSet(FULL_BITS);
        proof {
            assert forall|j: u32| j < 26 implies bit_of(FULL_BITS, j) by {
                lemma_bits_const(j);
            }
            assert(r@ =~= Set::new(|l: Letter| l.wf()));
        }
        r
    }

    /// Whether a letter is in the set.
    pub fn contains(self, letter: Letter) -> (r: bool)
        ensures
            r == self@.contains(letter),
    {
        let i: usize = letter.position();
        self.0 & (1u32 << (i as u32)) != 0
    }

    /// The letters of the alphabet that are not in the set.
    pub fn inverse(self) -> (r: Self)
        ensures
            r@ == Set::new(|l: Letter| l.wf() && !self@.contains(l)),
            r.wf(),
    {
        let bits: u32 = self.0;
        assert((!bits & FULL_BITS) <= FULL_BITS) by (bit_vector);
        let r = LetterSet(!bits & FULL_BITS);
        proof {
            assert forall|j: u32| j < 26 implies bit_of(!bits & FULL_BITS, j) == !bit_of(
                bits,
                j,
            ) by {
                lemma_bits_inverse(bits, j);
            }
            assert(r@ =~= Set::new(|l: Letter| l.wf() && !self@.contains(l)));
        }
        r
    }

    /// Puts a letter into the set, and says whether the set has changed.
    pub fn insert(&mut self, letter: Letter) -> (r: bool)
        ensures
            final(self)@ == old(self)@.insert(letter),
            r == !old(self)@.contains(letter),
            final(self).wf(),
    {
        let i: usize = letter.position();
        let before: u32 = self.0;
        let after: u32 = before | (1u32 << (i as u32));
        proof {
            use_type_invariant(&*self);
            lemma_bits_insert_same(before, i as u32);
            assert forall|j: u32| j < 26 implies bit_of(after, j) == (j == i || bit_of(before, j)) by {
                lemma_bits_insert(before, i as u32, j);
            }
        }
        self.0 = after;
        proof {
            assert(final(self)@ =~= old(self)@.insert(letter));
        }
        before != after
    }

    /// Takes a letter out of the set, and says whether the set has changed.
    pub fn remove(&mut self, letter: Letter) -> (r: bool)
        ensures
            final(self)@ == old(self)@.remove(letter),
            r == old(self)@.contains(letter),
            final(self).wf(),
    {
        let i: usize = letter.position();
        let before: u32 = self.0;
        let after: u32 = before & !(1u32 << (i as u32));
        proof {
            use_type_invariant(&*self);
            lemma_bits_remove_same(before, i as u32);
            assert forall|j: u32| j < 26 implies bit_of(after, j) == (j != i && bit_of(before, j)) by {
                lemma_bits_remove(before, i as u32, j);
            }
        }
        self.0 = after;
        proof {
            assert(final(self)@ =~= old(self)@.remove(letter));
        }
        before != after
    }

    /// The letters that are in both sets.
    pub fn intersect(self, other: Self) -> (r: Self)
        ensures
            r@ == self@.intersect(other@),
            r.wf(),
    {
        let a: u32 = self.0;
        let b: u32 = other.0;
        proof {
            use_type_invariant(&self);
            assert((a & b) <= FULL_BITS) by (bit_vector)
                requires
                    a <= FULL_BITS,
            ;
        }
        let r = LetterSet(a & b);
        proof {
            assert forall|j: u32| j < 26 implies bit_of(a & b, j) == (bit_of(a, j) && bit_of(b, j)) by {
                lemma_bits_intersect(a, b, j);
            }
            assert(r@ =~= self@.intersect(other@));
        }
        r
    }
}

impl Default for LetterSet {
    fn default() -> (r: Self)
        ensures
            r@ == Set::<Letter>::empty(),
    {
        LetterSet::empty()
    }
}

impl LetterSet {
    /// The set that holds exactly the letters of the alphabet that are in `s`.
    pub closed spec fn of(s: Set<Letter>) -> LetterSet {
        LetterSet(bits_upto(s, 26))
    }

    /// The letter of a set that holds one letter, and nothing for any other set.
    pub fn exactly_one(self) -> (r: Option<Letter>)
        ensures
            match r {
                Some(l) => self@ == set![l] && l.wf(),
                None => forall|l: Letter| self@ != set![l],
            },
    {
        let mut rest = self.iter();
        let first = rest.next();
        let second = rest.next();
        match (first, second) {
            (Some(l), None) => {
                proof {
                    assert(self@ =~= set![l]);
                }
                Some(l)
            },
            (Some(l), Some(m)) => {
                proof {
                    assert(self@.contains(l) && self@.contains(m) && l != m);
                    assert forall|x: Letter| self@ != set![x] by {
                        if self@ == set![x] {
                            assert(set![x].contains(l));
                            assert(set![x].contains(m));
                        }
                    }
                }
                None
            },
            (None, _) => {
                proof {
                    assert forall|x: Letter| self@ != set![x] by {
                        assert(set![x].contains(x));
                    }
                }
                None
            },
        }
    }

    /// The letters of the set, to be taken in the order of the alphabet.
    pub fn iter(self) -> (r: LetterSetIter)
        ensures
            r@ == self@,
    {
        let r = LetterSetIter(self.0);
        assert(r@ =~= self@);
        r
    }
}

/// Two sets with the same letters are the same set.
pub proof fn lemma_letter_set_ext(a: LetterSet, b: LetterSet)
    requires
        a.wf(),
        b.wf(),
        a@ == b@,
    ensures
        a == b,
{
    assert forall|j: u32| j < 26 implies bit_of(a.0, j) == bit_of(b.0, j) by {
        let l = Letter::from_index(j as int);
        assert(l.index() == j);
        assert(a@.contains(l) == bit_of(a.0, j));
        assert(b@.contains(l) == bit_of(b.0, j));
    }
    lemma_bits_ext(a.0, b.0, 26);
    lemma_bits_low(a.0);
    lemma_bits_low(b.0);
}

/// The bits of the letters of `s` among the first `n` letters of the alphabet.
spec fn bits_upto(s: Set<Letter>, n: int) -> u32
    decreases n,
{
    if n <= 0 {
        0
    } else if s.contains(Letter::from_index(n - 1)) {
        bits_upto(s, n - 1) | (1u32 << ((n - 1) as u32))
    } else {
        bits_upto(s, n - 1)
    }
}

/// The bits of the first `n` letters hold a letter's bit where the letter is in `s`, and no
/// other bit.
proof fn lemma_bits_upto(s: Set<Letter>, n: int)
    requires
        0 <= n <= 26,
    ensures
        forall|j: u32| j < 32 ==> #[trigger] bit_of(bits_upto(s, n), j) == (j < n && s.contains(
            Letter::from_index(j as int),
        )),
    decreases n,
{
    if n == 0 {
        assert forall|j: u32| j < 32 implies !#[trigger] bit_of(0u32, j) by {
            lemma_bits_const(j);
        }
    } else {
        lemma_bits_upto(s, n - 1);
        let before = bits_upto(s, n - 1);
        let k = (n - 1) as u32;
        assert forall|j: u32| j < 32 implies #[trigger] bit_of(bits_upto(s, n), j) == (j < n
            && s.contains(Letter::from_index(j as int))) by {
            assert(bit_of(before, j) == (j < n - 1 && s.contains(Letter::from_index(j as int))));
            lemma_bits_insert(before, k, j);
        }
    }
}

/// `LetterSet::of` gives a set of letters of the alphabet: those that are in `s`.
pub proof fn lemma_letter_set_of_view(s: Set<Letter>)
    ensures
        LetterSet::of(s).wf(),
        LetterSet::of(s)@ == s.filter(|l: Letter| l.wf()),
{
    let bits = bits_upto(s, 26);
    lemma_bits_upto(s, 26);
    assert(!bit_of(bits, 26));
    assert(!bit_of(bits, 27));
    assert(!bit_of(bits, 28));
    assert(!bit_of(bits, 29));
    assert(!bit_of(bits, 30));
    assert(!bit_of(bits, 31));
    lemma_bits_high(bits);
    assert forall|l: Letter| LetterSet::of(s)@.contains(l) == s.filter(
        |l: Letter| l.wf(),
    ).contains(l) by {
        if l.wf() {
            let j = l.index() as u32;
            assert(bit_of(bits, j) == (j < 26 && s.contains(Letter::from_index(j as int))));
        }
    }
    assert(LetterSet::of(s)@ =~= s.filter(|l: Letter| l.wf()));
}

/// `LetterSet::of` gives the one set with the letters asked for.
pub proof fn lemma_letter_set_of(a: LetterSet)
    requires
        a.wf(),
    ensures
        LetterSet::of(a@) == a,
{
    lemma_letter_set_of_view(a@);
    assert(a@.filter(|l: Letter| l.wf()) =~= a@);
    lemma_letter_set_ext(a, LetterSet::of(a@));
}

impl<const N: usize> From<[Letter; N]> for LetterSet {
    fn from(values: [Letter; N]) -> (r: Self)
        ensures
            r@ == values@.to_set(),
            r.wf(),
    {
        let mut set = LetterSet::empty();
        let mut i: usize = 0;
        while i < N
            invariant
                i <= N,
                set.wf(),
                set@ == values@.take(i as int).to_set(),
            decreases N - i,
        {
            let letter = values[i];
            set.insert(letter);
            proof {
                assert(values@.take(i + 1) =~= values@.take(i as int).push(letter));
                values@.take(i as int).lemma_push_to_set_commute(letter);
            }
            i += 1;
        }
        proof {
            assert(values@.take(N as int) =~= values@);
            lemma_letter_set_of(set);
        }
        set
    }
}

impl<const N: usize> FromSpecImpl<[Letter; N]> for LetterSet {
    open spec fn obeys_from_spec() -> bool {
        true
    }

    open spec fn from_spec(values: [Letter; N]) -> LetterSet {
        LetterSet::of(values@.to_set())
    }
}

/// What is left of a walk through a set of letters in the order of the alphabet.
#[derive(Clone, Copy, Debug)]
pub struct LetterSetIter(u32);

impl View for LetterSetIter {
    type V = Set<Letter>;

    /// The letters that the walk has still to give.
    closed spec fn view(&self) -> Set<Letter> {
        Set::new(|l: Letter| l.wf() && bit_of(self.0, l.index() as u32))
    }
}

impl LetterSetIter {
    /// A number that gets smaller with every letter that the walk gives.
    pub closed spec fn measure(self) -> nat {
        self.0 as nat
    }

    /// Gives the first letter that is left, in the order of the alphabet, and takes it out;
    /// gives nothing when no letter is left.
    pub fn next(&mut self) -> (r: Option<Letter>)
        ensures
            match r {
                Some(l) => {
                    &&& l.wf()
                    &&& old(self)@.contains(l)
                    &&& forall|m: Letter| old(self)@.contains(m) ==> l.index() <= m.index()
                    &&& final(self)@ == old(self)@.remove(l)
                    &&& final(self).measure() < old(self).measure()
                },
                None => old(self)@ == Set::<Letter>::empty() && *final(self) == *old(self),
            },
    {
        broadcast use vstd::std_specs::bits::axiom_u32_trailing_zeros;

        let bits: u32 = self.0;
        let next: u32 = bits.trailing_zeros();
        proof {
            assert forall|j: u32| j < next && j < 32 implies !bit_of(bits, j) by {
                assert((bits >> j) & 1u32 == 0u32);
                lemma_bits_shift(bits, j);
            }
        }
        if next < 26 {
            let letter = Letter::from_position(next as usize);
            proof {
                assert((bits >> next) & 1u32 == 1u32);
                lemma_bits_shift(bits, next);
                assert forall|j: u32| j < 26 implies bit_of(bits & !(1u32 << next), j) == (j
                    != next && bit_of(bits, j)) by {
                    lemma_bits_remove(bits, next, j);
                }
            }
            self.0 = bits & !(1u32 << next);
            proof {
                assert(letter.index() == next);
                lemma_bits_clear_less(bits, next);
                assert forall|l: Letter| final(self)@.contains(l) == old(self)@.remove(
                    letter,
                ).contains(l) by {
                    if l.wf() {
                        let j = l.index() as u32;
                        assert(j < 26);
                        lemma_bits_remove(bits, next, j);
                        assert(l == letter <==> j == next);
                    }
                }
                assert(final(self)@ =~= old(self)@.remove(letter));
            }
            Some(letter)
        } else {
            proof {
                assert(old(self)@ =~= Set::<Letter>::empty());
            }
            None
        }
    }
}

proof fn lemma_bits_shift(bits: u32, j: u32)
    by (bit_vector)
    requires
        j < 32,
    ensures
        ((bits >> j) & 1u32 == 1u32) == (bits & (1u32 << j) != 0),
        ((bits >> j) & 1u32 == 0u32) == (bits & (1u32 << j) == 0),
{
}

/// Two numbers whose bits below `n` agree are equal below bit `n`.
proof fn lemma_bits_ext(a: u32, b: u32, n: u32)
    requires
        n <= 26,
        forall|j: u32| j < n ==> bit_of(a, j) == bit_of(b, j),
    ensures
        a & !(0xFFFF_FFFFu32 << n) == b & !(0xFFFF_FFFFu32 << n),
    decreases n,
{
    if n == 0 {
        assert(a & !(0xFFFF_FFFFu32 << 0) == 0) by (bit_vector);
        assert(b & !(0xFFFF_FFFFu32 << 0) == 0) by (bit_vector);
    } else {
        let k: u32 = (n - 1) as u32;
        lemma_bits_ext(a, b, k);
        assert(bit_of(a, k) == bit_of(b, k));
        assert(a & !(0xFFFF_FFFFu32 << n) == b & !(0xFFFF_FFFFu32 << n)) by (bit_vector)
            requires
                0 < n <= 26,
                n == k + 1,
                a & !(0xFFFF_FFFFu32 << k) == b & !(0xFFFF_FFFFu32 << k),
                (a & (1u32 << k) != 0) == (b & (1u32 << k) != 0),
        ;
    }
}

/// A number without the bits 26 to 31 is no larger than the bits of the 26 letters.
proof fn lemma_bits_high(a: u32)
    by (bit_vector)
    requires
        a & (1u32 << 26) == 0,
        a & (1u32 << 27) == 0,
        a & (1u32 << 28) == 0,
        a & (1u32 << 29) == 0,
        a & (1u32 << 30) == 0,
        a & (1u32 << 31) == 0,
    ensures
        a <= 0x3FF_FFFFu32,
{
}

proof fn lemma_bits_low(a: u32)
    by (bit_vector)
    requires
        a <= 0x3FF_FFFFu32,
    ensures
        a & !(0xFFFF_FFFFu32 << 26) == a,
{
}

proof fn lemma_bits_const(j: u32)
    by (bit_vector)
    requires
        j < 32,
    ensures
        0u32 & (1u32 << j) == 0,
        j < 26 ==> 0x3FF_FFFFu32 & (1u32 << j) != 0,
        j >= 26 ==> 0x3FF_FFFFu32 & (1u32 << j) == 0,
{
}

proof fn lemma_bits_inverse(bits: u32, j: u32)
    by (bit_vector)
    requires
        j < 26,
    ensures
        ((!bits & 0x3FF_FFFFu32) & (1u32 << j) != 0) == !(bits & (1u32 << j) != 0),
{
}

proof fn lemma_bits_insert(bits: u32, i: u32, j: u32)
    by (bit_vector)
    requires
        i < 32,
        j < 32,
    ensures
        ((bits | (1u32 << i)) & (1u32 << j) != 0) == (j == i || bits & (1u32 << j) != 0),
{
}

proof fn lemma_bits_insert_same(bits: u32, i: u32)
    by (bit_vector)
    requires
        i < 26,
        bits <= 0x3FF_FFFFu32,
    ensures
        (bits | (1u32 << i)) <= 0x3FF_FFFFu32,
        ((bits | (1u32 << i)) != bits) == !(bits & (1u32 << i) != 0),
{
}

proof fn lemma_bits_remove(bits: u32, i: u32, j: u32)
    by (bit_vector)
    requires
        i < 32,
        j < 32,
    ensures
        ((bits & !(1u32 << i)) & (1u32 << j) != 0) == (j != i && bits & (1u32 << j) != 0),
{
}

proof fn lemma_bits_remove_same(bits: u32, i: u32)
    by (bit_vector)
    requires
        i < 26,
        bits <= 0x3FF_FFFFu32,
    ensures
        (bits & !(1u32 << i)) <= 0x3FF_FFFFu32,
        ((bits & !(1u32 << i)) != bits) == (bits & (1u32 << i) != 0),
{
}

proof fn lemma_bits_clear_less(bits: u32, i: u32)
    by (bit_vector)
    requires
        i < 32,
        bits & (1u32 << i) != 0,
    ensures
        bits & !(1u32 << i) < bits,
{
}

proof fn lemma_bits_intersect(a: u32, b: u32, j: u32)
    by (bit_vector)
    requires
        j < 32,
    ensures
        ((a & b) & (1u32 << j) != 0) == (a & (1u32 << j) != 0 && b & (1u32 << j) != 0),
{
}

} // verus!
