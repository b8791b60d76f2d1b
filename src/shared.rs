use vstd::prelude::*;

use std::cell::RefCell;
use std::rc::Rc;

verus! {

#[verifier::external_type_specification]
#[verifier::external_body]
#[verifier::reject_recursive_types(T)]
pub struct ExRefCell<T: ?Sized>(RefCell<T>);

/// Relies on `RefCell::new`, which only wraps the value; nothing about the
/// cell's contents is stated here.
pub assume_specification<T>[ RefCell::<T>::new ](value: T) -> RefCell<T>;

/// A shared handle whose contents can be borrowed mutably at run time.
pub type MutableRc<T> = Rc<RefCell<T>>;

/// Wraps `data` in a fresh cell behind a fresh reference count of one.
/// Verus sees no further than the cell, so nothing is stated of its
/// contents.
pub fn mutable_rc<T>(data: T) -> MutableRc<T> {
    Rc::new(RefCell::new(data))
}

} // verus!
