//! Items and the size-bounded containers that hold them.

use vstd::prelude::*;

verus! {

/// The atomic unit of work: something of a fixed size that is placed whole.
#[derive(Clone, Copy, Debug, PartialEq, Eq, Structural)]
pub struct Item {
    pub size: u32,
}

/// The sum of the sizes of `items`.
pub open spec fn total_size(items: Seq<Item>) -> nat
    decreases items.len(),
{
    if items.len() == 0 {
        0
    } else {
        total_size(items.drop_last()) + items.last().size as nat
    }
}

/// What a container is, as a mathematical value.
pub struct ContainerView {
    pub capacity: nat,
    pub occupied: nat,
    pub contents: Seq<Item>,
}

/// A container of fixed capacity. Items enter it through [`Container::add`]
/// only, in placement order, and never leave.
#[derive(Clone, Debug)]
pub struct Container {
    capacity: u32,
    occupied: u32,
    contents: Vec<Item>,
}

impl View for Container {
    type V = ContainerView;

    closed spec fn view(&self) -> ContainerView {
        ContainerView {
            capacity: self.capacity as nat,
            occupied: self.occupied as nat,
            contents: self.contents@,
        }
    }
}

impl Container {
    /// The container's invariant: `occupied` is the sum of what it holds, and
    /// never exceeds the capacity.
    pub open spec fn wf(&self) -> bool {
        &&& self@.occupied == total_size(self@.contents)
        &&& self@.occupied <= self@.capacity
    }

    /// Whether an item of `size` still has room in a container that looks like `v`.
    pub open spec fn has_room(v: ContainerView, size: u32) -> bool {
        v.occupied + size <= v.capacity
    }

    /// An empty container of capacity `size`.
    pub fn new(size: u32) -> (c: Container)
        ensures
            c.wf(),
            c@.capacity == size,
            c@.occupied == 0,
            c@.contents == Seq::<Item>::empty(),
    {
        Container { capacity: size, occupied: 0, contents: Vec::new() }
    }

    /// Attempts to place `cont`. Where it fits, it is appended and nothing is
    /// returned; where it does not, the container is left as it was and the
    /// item is handed back.
    pub fn add(&mut self, cont: Item) -> (rejected: Option<Item>)
        requires
            old(self).wf(),
        ensures
            final(self).wf(),
            final(self)@.capacity == old(self)@.capacity,
            Self::has_room(old(self)@, cont.size) ==> rejected is None
                && final(self)@.occupied == old(self)@.occupied + cont.size
                && final(self)@.contents == old(self)@.contents.push(cont),
            !Self::has_room(old(self)@, cont.size) ==> rejected == Some(cont)
                && final(self)@ == old(self)@,
    {
        if cont.size > self.capacity - self.occupied {
            return Some(cont);
        }
        proof {
            assert(self.contents@.push(cont).drop_last() == self.contents@);
        }
        self.occupied += cont.size;
        self.contents.push(cont);
        None
    }

    /// The fixed capacity.
    pub fn capacity(&self) -> (n: u32)
        ensures
            n == self@.capacity,
    {
        self.capacity
    }

    /// The sum of the sizes of the items placed so far.
    pub fn occupied(&self) -> (n: u32)
        ensures
            n == self@.occupied,
    {
        self.occupied
    }

    /// The items placed so far, in placement order.
    pub fn contents(&self) -> (items: &Vec<Item>)
        ensures
            items@ == self@.contents,
    {
        &self.contents
    }
}

} // verus!
