use crate::letter::group_letter;
use crate::letter::Letter;
use vstd::prelude::*;

verus! {

broadcast use group_letter;

/// One slot of type `T` for each letter of the alphabet.
#[derive(Copy, PartialEq, Eq, Debug)]
pub struct LetterMap<T>([T; 26]);

impl<T: Copy> Clone for LetterMap<T> {
    fn clone(&self) -> (r: Self)
        ensures
            r == *self,
    {
        *self
    }
}

impl<T> View for LetterMap<T> {
    type V = Seq<T>;

    /// The 26 slots, in the order of the alphabet.
    closed spec fn view(&self) -> Seq<T> {
        self.0@
    }
}

impl<T> LetterMap<T> {
    /// The slot of a letter.
    pub open spec fn spec_index(&self, letter: Letter) -> T {
        self@[letter.index()]
    }

    /// The slot of a letter.
    pub fn get(&self, letter: Letter) -> (r: &T)
        ensures
            *r == self[letter],
    {
        let i = letter.position();
        &self.0[i]
    }

    /// Fills the slot of a letter and leaves the others as they are.
    pub fn set(&mut self, letter: Letter, value: T)
        ensures
            final(self)@ == old(self)@.update(letter.index(), value),
        no_unwind
    {
        let i = letter.position();
        self.0[i] = value;
    }
}

impl<T: Copy> LetterMap<T> {
    /// The map that holds one value in every slot.
    pub fn filled(value: T) -> (r: Self)
        ensures
            r@ == Seq::new(26, |i: int| value),
    {
        broadcast use vstd::array::group_array_axioms;

        let slots: [T; 26] = [value;26];
        let r = LetterMap(slots);
        proof {
            assert forall|i: int| 0 <= i < 26 implies r@[i] == value by {
                assert(slots@[i] == value);
            }
            assert(r@ =~= Seq::new(26, |i: int| value));
        }
        r
    }
}

/// A map has 26 slots.
pub broadcast proof fn lemma_letter_map_len<T>(map: LetterMap<T>)
    ensures
        #[trigger] map@.len() == 26,
{
}

/// Two maps with the same slots are the same map.
pub proof fn lemma_letter_map_ext<T>(a: LetterMap<T>, b: LetterMap<T>)
    requires
        a@ == b@,
    ensures
        a == b,
{
    assert(a.0 =~= b.0);
}

impl<T> std::ops::Index<Letter> for LetterMap<T> {
    type Output = T;

    fn index(&self, index: Letter) -> (r: &T)
        ensures
            *r == self.spec_index(index),
    {
        self.get(index)
    }
}

impl<T> vstd::std_specs::core::IndexSpecImpl<Letter> for LetterMap<T> {
    open spec fn index_req(&self, index: &Letter) -> bool {
        true
    }
}

impl<T> std::ops::IndexMut<Letter> for LetterMap<T> {
    fn index_mut(&mut self, index: Letter) -> (r: &mut T)
        ensures
            *r == old(self).spec_index(index),
            final(self)@ == old(self)@.update(index.index(), *final(r)),
    {
        let i = index.position();
        &mut self.0[i]
    }
}

impl<T: Default + Copy> Default for LetterMap<T> {
    fn default() -> (r: Self)
        ensures
            forall|i: int| 0 <= i < 26 ==> call_ensures(T::default, (), #[trigger] r@[i]),
    {
        let value = T::default();
        LetterMap::filled(value)
    }
}

} // verus!
