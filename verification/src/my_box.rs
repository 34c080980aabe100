//! Boxes and dereferencing: a value behind a reference, behind a box, and
//! behind a box of one's own.

use vstd::prelude::*;

verus! {

/// Puts five on the heap.
pub fn store_on_the_heap() -> (b: Box<i32>)
    ensures
        *b == 5,
{
    Box::new(5)
}

/// A box of one's own: it holds its value directly and hands out a reference
/// to it.
pub struct MyBox<T>(pub T);

impl<T> MyBox<T> {
    /// A box around `x`.
    pub fn new(x: T) -> (b: MyBox<T>)
        ensures
            b.0 == x,
    {
        MyBox(x)
    }

}

impl<T> std::ops::Deref for MyBox<T> {
    type Target = T;

    /// The value in the box.
    fn deref(&self) -> (target: &T)
        ensures
            *target == self.0,
    {
        &self.0
    }
}

/// A reference, a box and a box of one's own all lead to the value that
/// they were made from.
pub fn dereference_examples() {
    let x: i32 = 5;
    let y = &x;
    assert(5 == x);
    assert(5 == *y);

    let x: i32 = 5;
    let y = Box::new(x);
    assert(5 == x);
    assert(5 == *y);

    let x: i32 = 5;
    let y = MyBox::new(x);
    assert(5 == x);
    let behind: i32 = *y;
    assert(5 == behind);
}

/// A box of one's own around a name; dereferencing it twice, once out of the
/// box and once out of the string, gives the text of the name.
pub fn deref_coercion_example() -> (m: MyBox<String>)
    ensures
        m.0@ == "Rust"@,
{
    MyBox::new("Rust".to_owned())
}

} // verus!
