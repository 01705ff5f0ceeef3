use crate::QueryError;
use vstd::prelude::*;

verus! {

/// Number of values one interner can hold: handles are `u16`, and the
/// largest one is kept free.
pub const HANDLE_CAPACITY: usize = 65535;

/// Handle of a word in the word interner.
pub type WordId = u16;

/// Handle of a phrase in the phrase interner.
pub type PhraseId = u16;

/// Handle of a term in the term interner.
pub type TermId = u16;

/// A value that can be compared with another by its view.
pub trait Same: View + Sized {
    fn same(&self, other: &Self) -> (r: bool)
        ensures
            r == (self@ == other@),
    ;
}

impl Same for String {
    fn same(&self, other: &Self) -> (r: bool) {
        *self == *other
    }
}

/// Some index at which `x` stands in `s`; the only one where `s` holds
/// nothing twice.
pub open spec fn index_in<A>(s: Seq<A>, x: A) -> int {
    choose|i: int| 0 <= i < s.len() && s[i] == x
}

/// The store after `x` was interned: unchanged where `x` is known,
/// else with `x` at its end.
pub open spec fn interned_store<A>(s: Seq<A>, x: A) -> Seq<A> {
    if s.contains(x) {
        s
    } else {
        s.push(x)
    }
}

/// The handle that interning `x` gives.
pub open spec fn interned_handle<A>(s: Seq<A>, x: A) -> int {
    if s.contains(x) {
        index_in(s, x)
    } else {
        s.len() as int
    }
}

/// Interning keeps a store free of duplicates, and the handle it gives
/// points at the value.
pub proof fn lemma_interned<A>(s: Seq<A>, x: A)
    requires
        s.no_duplicates(),
    ensures
        interned_store(s, x).no_duplicates(),
        0 <= interned_handle(s, x) < interned_store(s, x).len(),
        interned_store(s, x)[interned_handle(s, x)] == x,
        s.len() <= interned_store(s, x).len() <= s.len() + 1,
        s.is_prefix_of(interned_store(s, x)),
        forall|i: int| 0 <= i < s.len() && s[i] == x ==> interned_handle(s, x) == i,
{
    if s.contains(x) {
        let j = choose|j: int| 0 <= j < s.len() && s[j] == x;
        assert(s[index_in(s, x)] == x);
    } else {
        assert(s.push(x)[s.len() as int] == x);
    }
}

/// A table that gives each distinct value one handle, in the order in
/// which the values came.
pub struct Interner<T> {
    store: Vec<T>,
}

impl<T: Same> View for Interner<T> {
    type V = Seq<T::V>;

    closed spec fn view(&self) -> Seq<T::V> {
        Seq::new(self.store@.len(), |i: int| self.store@[i]@)
    }
}

impl<T: Same> Interner<T> {
    /// No value is held twice, and every index fits a handle.
    pub open spec fn wf(&self) -> bool {
        &&& self@.no_duplicates()
        &&& self@.len() <= HANDLE_CAPACITY
    }

    pub fn new() -> (r: Self)
        ensures
            r.wf(),
            r@ == Seq::<T::V>::empty(),
    {
        let r = Interner { store: Vec::new() };
        assert(r@ =~= Seq::<T::V>::empty());
        r
    }

    pub fn len(&self) -> (n: usize)
        ensures
            n == self@.len(),
    {
        self.store.len()
    }

    /// The handle of `value`, where it is held.
    pub fn find(&self, value: &T) -> (r: Option<u16>)
        requires
            self.wf(),
        ensures
            match r {
                Some(h) => self@.contains(value@) && h as int == index_in(self@, value@),
                None => !self@.contains(value@),
            },
    {
        let mut i: usize = 0;
        while i < self.store.len()
            invariant
                i <= self.store.len(),
                self.wf(),
                forall|j: int| 0 <= j < i ==> self@[j] != value@,
            decreases self.store.len() - i,
        {
            if self.store[i].same(value) {
                proof {
                    assert(self@[i as int] == value@);
                    lemma_interned(self@, value@);
                }
                return Some(i as u16);
            }
            i += 1;
        }
        None
    }

    /// Interns `value`: gives the handle it has, or a new one. Fails where
    /// the value is new and no handle is left.
    pub fn insert(&mut self, value: T) -> (r: Result<u16, QueryError>)
        requires
            old(self).wf(),
        ensures
            final(self).wf(),
            r.is_ok() <==> interned_store(old(self)@, value@).len() <= HANDLE_CAPACITY,
            r matches Ok(h) ==> final(self)@ == interned_store(old(self)@, value@) && h as int
                == interned_handle(old(self)@, value@),
            r is Err ==> final(self)@ == old(self)@,
    {
        match self.find(&value) {
            Some(h) => Ok(h),
            None => {
                let n = self.store.len();
                if n >= HANDLE_CAPACITY {
                    return Err(QueryError::InternerOverflow);
                }
                proof {
                    lemma_interned(self@, value@);
                }
                let ghost before = self@;
                let ghost v = value@;
                self.store.push(value);
                assert(self@ =~= before.push(v));
                Ok(n as u16)
            },
        }
    }

    /// The value behind a handle.
    pub fn get(&self, h: u16) -> (r: &T)
        requires
            (h as int) < self@.len(),
        ensures
            r@ == self@[h as int],
    {
        &self.store[h as usize]
    }
}

} // verus!
