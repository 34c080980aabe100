//! A list as a recursive type: each cell owns the rest of the list through a
//! box, since a value cannot hold a value of its own type directly.

use vstd::prelude::*;

verus! {

/// A list of numbers; the rest of the list lives on the heap.
#[derive(Debug)]
pub enum List {
    /// A number and the rest of the list.
    Cons(i32, Box<List>),
    /// The empty list.
    Nil,
}

impl View for List {
    type V = Seq<i32>;

    open spec fn view(&self) -> Seq<i32> {
        self.values()
    }
}

impl List {
    /// The numbers of the list, first to last.
    pub open spec fn values(&self) -> Seq<i32>
        decreases self,
    {
        match self {
            List::Cons(value, rest) => seq![*value] + rest.values(),
            List::Nil => Seq::empty(),
        }
    }

    /// The numbers of the list, first to last.
    pub fn to_vec(&self) -> (values: Vec<i32>)
        ensures
            values@ == self@,
    {
        let mut values: Vec<i32> = Vec::new();
        let mut cur = self;
        loop
            invariant
                values@ + cur@ == self@,
            decreases cur,
        {
            match cur {
                List::Cons(value, rest) => {
                    proof {
                        assert(values@.push(*value) + rest@ =~= values@ + cur@);
                    }
                    values.push(*value);
                    cur = &**rest;
                },
                List::Nil => {
                    assert(values@ + cur@ =~= values@);
                    return values;
                },
            }
        }
    }
}

/// The list of one, two and three.
pub fn run() -> (list: List)
    ensures
        list@ == seq![1i32, 2i32, 3i32],
{
    let list = List::Cons(
        1,
        Box::new(List::Cons(2, Box::new(List::Cons(3, Box::new(List::Nil))))),
    );
    proof {
        reveal_with_fuel(List::values, 5);
        assert(list@ =~= seq![1i32, 2i32, 3i32]);
    }
    list
}

} // verus!
