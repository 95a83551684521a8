//! A shield around data read from a peer: either a valid value or the raw
//! JSON that could not be read as one. Invalid data is replaced by the
//! default value when the scheduler needs to write into it.
use vstd::prelude::*;
use crate::strmap::StrMap;

verus! {

/// A value, or the JSON that stood where a value was expected.
#[derive(Debug)]
pub enum Shield<T> {
    Valid(T),
    Invalid(serde_json::Value),
}

impl<T: Default> Default for Shield<T> {
    fn default() -> (r: Self)
        ensures
            r matches Shield::Valid(x) && call_ensures(T::default, (), x),
    {
        Shield::Valid(T::default())
    }
}

impl<T> From<T> for Shield<T> {
    fn from(val: T) -> (r: Shield<T>) {
        Shield::Valid(val)
    }
}

impl<T> vstd::std_specs::convert::FromSpecImpl<T> for Shield<T> {
    open spec fn obeys_from_spec() -> bool {
        true
    }

    open spec fn from_spec(v: T) -> Shield<T> {
        Shield::Valid(v)
    }
}

impl<T: Default> Shield<T> {
    /// Replaces invalid data with the default value; gives access to the value.
    pub fn ensure_valid(&mut self) -> (r: &mut T)
        ensures
            *old(self) is Valid ==> *r == old(self)->Valid_0,
            *old(self) is Invalid ==> call_ensures(T::default, (), *r),
            *final(self) == Shield::Valid(*final(r)),
    {
        if let Shield::Invalid(_) = self {
            *self = Shield::Valid(T::default());
        }
        match self {
            Shield::Valid(x) => x,
            Shield::Invalid(_) => unreached(),
        }
    }

    /// The value, if the data is valid.
    pub fn ok(&self) -> (r: Option<&T>)
        ensures
            match r {
                Some(x) => *self == Shield::Valid(*x),
                None => *self is Invalid,
            },
    {
        match self {
            Shield::Valid(x) => Some(x),
            Shield::Invalid(_) => None,
        }
    }
}

/// The valid value that a shield leaves once invalid data is replaced:
/// the value itself, or a value that `T::default` gives.
pub open spec fn valid_or_default<T: Default>(s: Option<Shield<T>>, r: T) -> bool {
    match s {
        Some(Shield::Valid(x)) => r == x,
        _ => call_ensures(T::default, (), r),
    }
}

/// A map of shielded values whose entries can be made valid.
pub trait ShieldExt<T> {
    /// Takes out the value of key `key`, made valid: the entry is created
    /// with the default value if missing, and invalid data is replaced by
    /// the default value. The caller puts the value back.
    fn take_valid(&mut self, key: &str) -> T;
}

impl<T: Default> ShieldExt<T> for StrMap<Shield<T>> {
    fn take_valid(&mut self, key: &str) -> (r: T)
        ensures
            final(self)@ == old(self)@.remove(key@),
            valid_or_default(old(self)@.get(key@), r),
    {
        match self.remove(key) {
            Some(Shield::Valid(x)) => x,
            _ => T::default(),
        }
    }
}

} // verus!
