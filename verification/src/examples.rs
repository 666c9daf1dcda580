//! Small reference-holding example values of the kind the validator reasons
//! about: a struct borrowing a number, a struct borrowing text, and a
//! method whose result lives as long as the narrower of its two borrowed
//! inputs.

use vstd::prelude::*;

verus! {

/// A circle that borrows its radius.
pub struct Circle<'i> {
    pub r: &'i i32,
}

impl<'i> Circle<'i> {
    /// Wraps a borrowed radius; the circle lives no longer than the number
    /// it borrows.
    pub fn new(_r: &'i i32) -> (c: Circle<'i>)
        ensures
            c.r == _r,
    {
        Circle { r: _r }
    }

    /// Returns whichever of the circle's radius and `other` is larger: one
    /// of the two same-lifetime references, so the result must not outlive
    /// either referent.
    pub fn cmp(&'i self, other: &'i i32) -> (larger: &'i i32)
        ensures
            *larger == if *self.r > *other {
                *self.r
            } else {
                *other
            },
    {
        if *self.r > *other {
            self.r
        } else {
            other
        }
    }
}

/// A book that borrows its name and description.
pub struct Book<'a> {
    pub name: &'a String,
    pub descr: &'a String,
    pub serial_num: i32,
}

impl<'a> Book<'a> {
    /// Wraps a borrowed name (standing in for the description too) and a
    /// serial number.
    pub fn new(_name: &'a String, _serial_num: i32) -> (b: Book<'a>)
        ensures
            b.name == _name,
            b.descr == _name,
            b.serial_num == _serial_num,
    {
        Book { name: _name, descr: _name, serial_num: _serial_num }
    }
}

} // verus!
