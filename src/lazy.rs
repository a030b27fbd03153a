//! A value computed at most once, which may turn out to be absent.

use vstd::prelude::*;

verus! {

/// The three states of a lazily computed value.
pub enum LazyState<T> {
    Uninitialized,
    Absent,
    Present(T),
}

/// A value that is not computed yet, was computed and is absent, or was
/// computed and is present. Once computed it never changes.
pub struct MayUninitOrNone<T> {
    state: LazyState<T>,
}

impl<T> MayUninitOrNone<T> {
    pub closed spec fn state(&self) -> LazyState<T> {
        self.state
    }

    /// A value that is yet to be computed.
    pub fn uninitialized() -> (r: Self)
        ensures
            r.state() is Uninitialized,
    {
        MayUninitOrNone { state: LazyState::Uninitialized }
    }

    /// A value known to be absent.
    pub fn none() -> (r: Self)
        ensures
            r.state() is Absent,
    {
        MayUninitOrNone { state: LazyState::Absent }
    }

    /// A value known to be `value`.
    pub fn initialized(value: T) -> (r: Self)
        ensures
            r.state() == LazyState::Present(value),
    {
        MayUninitOrNone { state: LazyState::Present(value) }
    }

    /// The value where it is known to be present.
    pub fn get(&self) -> (r: Option<&T>)
        ensures
            match self.state() {
                LazyState::Present(v) => r == Some(&v),
                _ => r is None,
            },
    {
        match &self.state {
            LazyState::Present(v) => Some(v),
            _ => None,
        }
    }

    /// Computes the value with `init` where that has not happened yet;
    /// afterwards the value stays as computed.
    pub fn ref_or_init<F: FnOnce() -> Option<T>>(&mut self, init: F) -> (r: Option<&T>)
        requires
            old(self).state() is Uninitialized ==> init.requires(()),
        ensures
            !(old(self).state() is Uninitialized) ==> final(self).state() == old(self).state(),
            old(self).state() is Uninitialized ==> exists|v: Option<T>| #[trigger] init.ensures((), v) && final(self).state() == match v {
                Some(x) => LazyState::Present(x),
                None => LazyState::Absent,
            },
            match final(self).state() {
                LazyState::Present(v) => r == Some(&v),
                _ => r is None,
            },
    {
        if let LazyState::Uninitialized = self.state {
            let v = init();
            self.state = match v {
                Some(x) => LazyState::Present(x),
                None => LazyState::Absent,
            };
        }
        self.get()
    }
}

} // verus!
