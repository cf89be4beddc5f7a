use vstd::prelude::*;
use std::marker::PhantomData;

verus! {

/// A family of indices: values that stand for positions in a table.
///
/// An index is a position under another type, so that a table of lifetimes is
/// not read with the index of a variable. `index` is the position; the two
/// conversions are inverse to each other.
pub trait Idx: Copy + Sized {
    /// The position that the index stands for.
    spec fn index(self) -> usize;

    /// The word for this family in messages.
    spec fn kind_name() -> Seq<char>;

    /// The index of a position.
    fn from_usize(n: usize) -> (r: Self)
        ensures
            r.index() == n,
    ;

    /// The position of an index.
    fn to_usize(self) -> (n: usize)
        ensures
            n == self.index(),
    ;

    /// The word for this family in messages.
    fn kind() -> (s: &'static str)
        ensures
            s@ == Self::kind_name(),
    ;

    /// Two indices of the same position are the same index.
    proof fn lemma_index_injective(a: Self, b: Self)
        requires
            a.index() == b.index(),
        ensures
            a == b,
    ;
}

impl Idx for usize {
    open spec fn index(self) -> usize {
        self
    }

    open spec fn kind_name() -> Seq<char> {
        "index"@
    }

    fn from_usize(n: usize) -> (r: Self) {
        n
    }

    fn to_usize(self) -> (n: usize) {
        self
    }

    fn kind() -> (s: &'static str) {
        "index"
    }

    proof fn lemma_index_injective(a: Self, b: Self) {
    }
}

/// A growable table whose positions are named by indices of the family `I`.
pub struct IndexVec<I: Idx, T> {
    vec: Vec<T>,
    family: PhantomData<I>,
}

impl<I: Idx, T> View for IndexVec<I, T> {
    type V = Seq<T>;

    closed spec fn view(&self) -> Seq<T> {
        self.vec@
    }
}

impl<I: Idx, T> IndexVec<I, T> {
    /// The number of entries fits the machine.
    pub proof fn lemma_count_fits(&self)
        ensures
            self@.len() <= usize::MAX,
    {
        assert(self.vec.len() <= usize::MAX);
    }

    /// An empty table.
    pub fn new() -> (r: Self)
        ensures
            r@ == Seq::<T>::empty(),
    {
        IndexVec { vec: Vec::new(), family: PhantomData }
    }

    /// A table with the entries of `vec`, in its order.
    pub fn from_vec(vec: Vec<T>) -> (r: Self)
        ensures
            r@ == vec@,
    {
        IndexVec { vec, family: PhantomData }
    }

    /// The entries, in order.
    pub fn into_vec(self) -> (r: Vec<T>)
        ensures
            r@ == self@,
    {
        self.vec
    }

    /// Appends an entry and returns its index.
    pub fn push(&mut self, value: T) -> (index: I)
        ensures
            final(self)@ == old(self)@.push(value),
            index.index() == old(self)@.len(),
    {
        let index = I::from_usize(self.vec.len());
        self.vec.push(value);
        index
    }

    /// The index that the next `push` will return.
    pub fn len(&self) -> (n: I)
        ensures
            n.index() == self@.len(),
    {
        I::from_usize(self.vec.len())
    }

    /// The number of entries.
    pub fn count(&self) -> (n: usize)
        ensures
            n == self@.len(),
    {
        self.vec.len()
    }

    /// Drops every entry from position `max_len` on; a longer bound changes nothing.
    pub fn truncate(&mut self, max_len: I)
        ensures
            final(self)@ == (if max_len.index() <= old(self)@.len() {
                old(self)@.subrange(0, max_len.index() as int)
            } else {
                old(self)@
            }),
    {
        let n = max_len.to_usize();
        if n <= self.vec.len() {
            self.vec.truncate(n);
        }
    }

    /// The entry at `index`, if there is one.
    pub fn get(&self, index: I) -> (r: Option<&T>)
        ensures
            r == (if index.index() < self@.len() {
                Some(&self@[index.index() as int])
            } else {
                None
            }),
    {
        let i = index.to_usize();
        if i < self.vec.len() {
            Some(&self.vec[i])
        } else {
            None
        }
    }

    /// The entry at `index`, which must exist.
    pub fn at(&self, index: I) -> (r: &T)
        requires
            index.index() < self@.len(),
        ensures
            *r == self@[index.index() as int],
    {
        &self.vec[index.to_usize()]
    }

    /// Replaces the entry at `index`, which must exist.
    pub fn set(&mut self, index: I, value: T)
        requires
            index.index() < old(self)@.len(),
        ensures
            final(self)@ == old(self)@.update(index.index() as int, value),
    {
        let i = index.to_usize();
        self.vec[i] = value;
    }

    /// The entry at `index` to write to, if there is one. The table afterwards
    /// differs from the table before at most in that entry.
    pub fn get_mut(&mut self, index: I) -> (r: Option<&mut T>)
        ensures
            match r {
                Some(entry) => {
                    &&& index.index() < old(self)@.len()
                    &&& *entry == old(self)@[index.index() as int]
                    &&& final(self)@ == old(self)@.update(index.index() as int, *final(entry))
                },
                None => index.index() >= old(self)@.len() && final(self)@ == old(self)@,
            },
    {
        let i = index.to_usize();
        if i < self.vec.len() {
            Some(&mut self.vec[i])
        } else {
            None
        }
    }

    /// Every index with its entry, in order; the table is used up.
    pub fn into_iter(self) -> (r: Vec<(I, T)>)
        ensures
            r@.len() == self@.len(),
            forall|i: int|
                0 <= i < r@.len() ==> (#[trigger] r@[i]).0.index() == i && r@[i].1 == self@[i],
    {
        let mut pairs: Vec<(I, T)> = Vec::new();
        let mut rest = self.vec;
        let ghost all = rest@;
        while rest.len() > 0
            invariant
                pairs@.len() + rest@.len() == all.len(),
                forall|i: int| 0 <= i < rest@.len() ==> rest@[i] == all[i],
                forall|i: int|
                    0 <= i < pairs@.len() ==> (#[trigger] pairs@[i]).0.index() == all.len() - 1 - i
                        && pairs@[i].1 == all[all.len() - 1 - i],
            decreases rest@.len(),
        {
            let index = I::from_usize(rest.len() - 1);
            match rest.pop() {
                Some(value) => {
                    pairs.push((index, value));
                },
                None => {},
            }
        }
        let mut ordered: Vec<(I, T)> = Vec::new();
        let ghost backwards = pairs@;
        while pairs.len() > 0
            invariant
                backwards.len() == all.len(),
                ordered@.len() + pairs@.len() == all.len(),
                forall|i: int| 0 <= i < pairs@.len() ==> pairs@[i] == backwards[i],
                forall|i: int|
                    0 <= i < backwards.len() ==> (#[trigger] backwards[i]).0.index() == all.len() - 1
                        - i && backwards[i].1 == all[all.len() - 1 - i],
                forall|i: int|
                    0 <= i < ordered@.len() ==> (#[trigger] ordered@[i]).0.index() == i
                        && ordered@[i].1 == all[i],
            decreases pairs@.len(),
        {
            let ghost last = pairs@.len() - 1;
            assert(pairs@[last] == backwards[last]);
            match pairs.pop() {
                Some(pair) => {
                    ordered.push(pair);
                },
                None => {},
            }
        }
        ordered
    }

    /// The indices of all entries, in order.
    pub fn keys(&self) -> (r: Vec<I>)
        ensures
            r@.len() == self@.len(),
            forall|i: int| 0 <= i < r@.len() ==> (#[trigger] r@[i]).index() == i,
    {
        let mut keys: Vec<I> = Vec::new();
        let mut i: usize = 0;
        while i < self.vec.len()
            invariant
                i <= self.vec@.len(),
                keys@.len() == i,
                forall|j: int| 0 <= j < keys@.len() ==> (#[trigger] keys@[j]).index() == j,
            decreases self.vec@.len() - i,
        {
            keys.push(I::from_usize(i));
            i += 1;
        }
        keys
    }

    /// The entries, in order.
    pub fn values(&self) -> (r: &Vec<T>)
        ensures
            r@ == self@,
    {
        &self.vec
    }

    /// Every index with its entry, in order.
    pub fn iter(&self) -> (r: Vec<(I, &T)>)
        ensures
            r@.len() == self@.len(),
            forall|i: int|
                0 <= i < r@.len() ==> (#[trigger] r@[i]).0.index() == i && *r@[i].1 == self@[i],
    {
        let mut pairs: Vec<(I, &T)> = Vec::new();
        let mut i: usize = 0;
        while i < self.vec.len()
            invariant
                i <= self.vec@.len(),
                pairs@.len() == i,
                forall|j: int|
                    0 <= j < pairs@.len() ==> (#[trigger] pairs@[j]).0.index() == j && *pairs@[j].1
                        == self.vec@[j],
            decreases self.vec@.len() - i,
        {
            pairs.push((I::from_usize(i), &self.vec[i]));
            i += 1;
        }
        pairs
    }

    /// The entry at `index` to write to, after the table has been extended with
    /// default entries as far as `index`. The old entries stay; the table
    /// afterwards differs from the extended table at most in the entry handed out.
    pub fn get_or_extend(&mut self, index: I) -> (r: &mut T) where T: Default
        requires
            index.index() < usize::MAX,
        ensures
            final(self)@.len() == (if index.index() < old(self)@.len() {
                old(self)@.len() as int
            } else {
                index.index() + 1
            }),
            forall|i: int|
                0 <= i < old(self)@.len() && i != index.index() ==> final(self)@[i] == old(self)@[i],
            forall|i: int|
                old(self)@.len() <= i < final(self)@.len() && i != index.index()
                    ==> call_ensures(T::default, (), #[trigger] final(self)@[i]),
            index.index() < old(self)@.len() ==> *r == old(self)@[index.index() as int],
            index.index() >= old(self)@.len() ==> call_ensures(T::default, (), *r),
            final(self)@[index.index() as int] == *final(r),
    {
        let i = index.to_usize();
        while self.vec.len() <= i
            invariant
                i == index.index(),
                i < usize::MAX,
                old(self)@.len() <= self.vec@.len(),
                self.vec@.len() <= (if i < old(self)@.len() {
                    old(self)@.len() as int
                } else {
                    i + 1
                }),
                forall|j: int| 0 <= j < old(self)@.len() ==> self.vec@[j] == old(self)@[j],
                forall|j: int|
                    old(self)@.len() <= j < self.vec@.len() ==> call_ensures(
                        T::default,
                        (),
                        #[trigger] self.vec@[j],
                    ),
            decreases i + 1 - self.vec@.len(),
        {
            self.vec.push(T::default());
        }
        &mut self.vec[i]
    }
}

impl<I: Idx, T> Default for IndexVec<I, T> {
    fn default() -> (r: Self)
        ensures
            r@ == Seq::<T>::empty(),
    {
        IndexVec { vec: Vec::new(), family: PhantomData }
    }
}

} // verus!
