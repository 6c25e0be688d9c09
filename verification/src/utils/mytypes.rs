//! A thin vector wrapper that can be indexed by node and edge ids, and the
//! error kinds of the command line tools.

use vstd::prelude::*;

verus! {

/// What can go wrong before any computation starts.
#[derive(Debug)]
pub enum MyError {
    InvalidTrajectories,
    WrongArgumentNumber,
}

impl MyError {
    /// The text shown to the user for this error.
    pub fn message(&self) -> (text: String)
        ensures
            text@ == match self {
                MyError::InvalidTrajectories => "Invalid Trajectories"@,
                MyError::WrongArgumentNumber => "Too few arguments"@,
            },
    {
        match self {
            MyError::InvalidTrajectories => "Invalid Trajectories".to_owned(),
            MyError::WrongArgumentNumber => "Too few arguments".to_owned(),
        }
    }
}

/// A vector that also takes `u32` and `i32` indices, as ids are stored.
#[derive(Debug, Clone)]
pub struct MyVec<T>(pub Vec<T>);

impl<T> View for MyVec<T> {
    type V = Seq<T>;

    open spec fn view(&self) -> Seq<T> {
        self.0@
    }
}

impl<T> MyVec<T> {
    pub fn new() -> (v: MyVec<T>)
        ensures
            v@ == Seq::<T>::empty(),
    {
        MyVec(Vec::new())
    }

    /// The item at a `u32` position.
    pub fn at(&self, idx: u32) -> (item: &T)
        requires
            idx < self@.len(),
        ensures
            *item == self@[idx as int],
    {
        &self.0[idx as usize]
    }

    /// Number of items.
    pub fn len(&self) -> (n: usize)
        ensures
            n == self@.len(),
    {
        self.0.len()
    }
}

impl<T> Default for MyVec<T> {
    fn default() -> (v: MyVec<T>)
        ensures
            v@ == Seq::<T>::empty(),
    {
        MyVec(Vec::new())
    }
}

impl<T> From<Vec<T>> for MyVec<T> {
    fn from(source: Vec<T>) -> (v: Self) {
        Self(source)
    }
}

impl<T> vstd::std_specs::convert::FromSpecImpl<Vec<T>> for MyVec<T> {
    open spec fn obeys_from_spec() -> bool {
        true
    }

    open spec fn from_spec(source: Vec<T>) -> Self {
        MyVec(source)
    }
}

impl<T> std::ops::Index<usize> for MyVec<T> {
    type Output = T;

    fn index(&self, idx: usize) -> (item: &T)
        ensures
            *item == self@[idx as int],
    {
        &self.0[idx]
    }
}

impl<T> vstd::std_specs::core::IndexSpecImpl<usize> for MyVec<T> {
    open spec fn index_req(&self, idx: &usize) -> bool {
        *idx < self@.len()
    }
}

impl<T> std::ops::Index<u32> for MyVec<T> {
    type Output = T;

    fn index(&self, idx: u32) -> (item: &T)
        ensures
            *item == self@[idx as int],
    {
        &self.0[idx as usize]
    }
}

impl<T> vstd::std_specs::core::IndexSpecImpl<u32> for MyVec<T> {
    open spec fn index_req(&self, idx: &u32) -> bool {
        *idx < self@.len()
    }
}

impl<T> std::ops::Index<i32> for MyVec<T> {
    type Output = T;

    fn index(&self, idx: i32) -> (item: &T)
        ensures
            *item == self@[idx as int],
    {
        &self.0[idx as usize]
    }
}

impl<T> vstd::std_specs::core::IndexSpecImpl<i32> for MyVec<T> {
    open spec fn index_req(&self, idx: &i32) -> bool {
        0 <= *idx < self@.len()
    }
}

impl<T> std::ops::Deref for MyVec<T> {
    type Target = Vec<T>;

    fn deref(&self) -> (inner: &Vec<T>)
        ensures
            inner@ == self@,
    {
        &self.0
    }
}

} // verus!
