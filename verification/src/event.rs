//! Families of event types, and the two that pass events by value and by reference.
use std::marker::PhantomData;
use vstd::prelude::*;

verus! {

/// A family of event types, one for each lifetime that an event may borrow from.
pub trait EventFamily {
    /// The event as a listener receives it; it is cloned once per delivery.
    type Event<'a>: Clone;

    /// What an event says, apart from any lifetime.
    type Content;

    /// The content of an event; a family need not say what it is.
    open spec fn content<'a>(event: Self::Event<'a>) -> Self::Content {
        arbitrary()
    }
}

/// Events handed to each listener by value, cloned per listener.
pub struct ByVal<T: Clone>(PhantomData<T>);

impl<T: Clone> ByVal<T> {
    /// The one value of this type.
    pub closed spec fn marker() -> Self {
        ByVal(PhantomData)
    }
}

impl<T: Clone> Default for ByVal<T> {
    fn default() -> (family: Self)
        ensures
            family == Self::marker(),
    {
        Self(PhantomData)
    }
}

impl<T: Clone> EventFamily for ByVal<T> {
    type Event<'a> = T;

    type Content = T;

    open spec fn content<'a>(event: T) -> T {
        event
    }
}

/// Events handed to each listener by reference.
pub struct ByRef<T>(PhantomData<T>);

impl<T> ByRef<T> {
    /// The one value of this type.
    pub closed spec fn marker() -> Self {
        ByRef(PhantomData)
    }
}

impl<T> Default for ByRef<T> {
    fn default() -> (family: Self)
        ensures
            family == Self::marker(),
    {
        Self(PhantomData)
    }
}

impl<T: 'static> EventFamily for ByRef<T> {
    type Event<'a> = &'a T;

    type Content = T;

    open spec fn content<'a>(event: &'a T) -> T {
        *event
    }
}

/// What an event says is the event itself, passed by value or by reference.
pub proof fn law_content<T: Clone, U: 'static>(by_val: T, by_ref: &U)
    ensures
        <ByVal<T> as EventFamily>::content(by_val) == by_val,
        <ByRef<U> as EventFamily>::content(by_ref) == *by_ref,
{
}

} // verus!
