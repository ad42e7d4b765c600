use vstd::prelude::*;
use vstd::std_specs::cmp::PartialEqSpec;

verus! {

/// Whether some element of `s` equals `x` under the equality the element
/// type's `==` denotes.
pub open spec fn has_like<T: PartialEq>(s: Seq<T>, x: T) -> bool {
    exists|i: int| 0 <= i < s.len() && #[trigger] s[i].eq_spec(&x)
}

/// A set that keeps its elements in insertion order and rejects
/// duplicates.
#[derive(Debug)]
pub struct InsertionSet<T: PartialOrd> {
    vec: Vec<T>,
}

impl<T: PartialOrd> View for InsertionSet<T> {
    type V = Seq<T>;

    closed spec fn view(&self) -> Seq<T> {
        self.vec@
    }
}

impl<T: PartialOrd> InsertionSet<T> {
    /// The empty set.
    pub fn new() -> (r: Self)
        ensures
            r@ == Seq::<T>::empty(),
    {
        Self { vec: Vec::new() }
    }

    /// Whether `x` already has an equal element in the set.
    fn contains_item(&self, x: &T) -> (r: bool)
        ensures
            T::obeys_eq_spec() ==> r == has_like(self@, *x),
    {
        let n = self.vec.len();
        let mut i: usize = 0;
        while i < n
            invariant
                i <= n,
                n == self.vec@.len(),
                T::obeys_eq_spec() ==> forall|j: int|
                    0 <= j < i ==> !(#[trigger] self.vec@[j].eq_spec(x)),
            decreases n - i,
        {
            if self.vec[i].eq(x) {
                return true;
            }
            i = i + 1;
        }
        false
    }

    /// Add `idx` unless an equal element is already present; insertion
    /// order is kept.
    pub fn push(&mut self, idx: T)
        ensures
            T::obeys_eq_spec() ==> final(self)@ == (if has_like(old(self)@, idx) {
                old(self)@
            } else {
                old(self)@.push(idx)
            }),
    {
        if !self.contains_item(&idx) {
            self.vec.push(idx);
        }
    }

    /// The elements, in insertion order.
    pub fn iter(&self) -> (r: &Vec<T>)
        ensures
            r@ == self@,
    {
        &self.vec
    }

    /// The elements, in insertion order, consuming the set.
    pub fn into_vec(self) -> (r: Vec<T>)
        ensures
            r@ == self@,
    {
        self.vec
    }
}

} // verus!
