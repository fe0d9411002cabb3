//! Heterogeneous lists built from `Cons` cells ending in `Nil`, and lookups into them by
//! type: the index type (`Zero`, `(Zero,)`, `((Zero,),)`, ...) says where the looked-up
//! element stands, so the compiler picks the position and each lookup is a fixed walk down
//! the list.
use vstd::prelude::*;

verus! {

/// The empty list.
pub struct Nil;

/// A list cell: an element and the rest of the list.
pub struct Cons<HeadT, TailT> {
    pub head: HeadT,
    pub tail: TailT,
}

/// The index of the head of a list.  It is only ever used as a type; its one variant exists
/// because the verifier takes no enum without variants.
pub enum Zero {
    Here,
}

/// The index one past `IndexT`.
pub type OnePlus<IndexT> = (IndexT,);

/// Takes the element at `IndexT` out of a list, returning it and the rest of the list.
pub trait Pluck<LookupT, IndexT>: Sized {
    type Rest;

    /// Whether `out` holds the element at `IndexT`, turned into `LookupT`, and the rest of
    /// the list.  For a list behind a mutable reference this speaks of the values that the
    /// references point to when the lookup is made.
    spec fn splits(self, out: (LookupT, Self::Rest)) -> bool;

    fn pluck(self) -> (split: (LookupT, Self::Rest))
        ensures
            self.splits(split),
    ;
}

/// Borrows the element at `IndexT` of a list.
pub trait Peek<LookupT, IndexT> {
    /// Whether `out` is the element at `IndexT`, borrowed.
    spec fn peeks<'b>(&'b self, out: &'b LookupT) -> bool;

    /// Whether `out` points to what the element at `IndexT`, borrowed mutably out of a list
    /// that holds what `self` holds, points to.
    spec fn peeks_mut<'b>(&'b self, out: &'b mut LookupT) -> bool;

    fn peek(&self) -> (element: &LookupT)
        ensures
            self.peeks(element),
    ;

    fn peek_mut(&mut self) -> (element: &mut LookupT)
        ensures
            old(self).peeks_mut(element),
    ;
}

/// Turns a list element into what a lookup asks for.
pub trait PluckInto<LookupT>: Sized {
    /// Whether `out` is what the element turns into.  For an element behind a mutable
    /// reference this speaks of the value that the reference points to.
    spec fn converts(self, out: LookupT) -> bool;

    fn pluck_into(self) -> (converted: LookupT)
        ensures
            self.converts(converted),
    ;
}

impl<T> PluckInto<T> for T {
    open spec fn converts(self, out: T) -> bool {
        out == self
    }

    fn pluck_into(self) -> (converted: T) {
        self
    }
}

impl<'a, T> PluckInto<&'a T> for &'a mut T {
    open spec fn converts(self, out: &'a T) -> bool {
        *out == *self
    }

    fn pluck_into(self) -> (converted: &'a T) {
        self
    }
}

impl<LookupT, HeadT, TailT> Pluck<LookupT, Zero> for Cons<HeadT, TailT> where
    HeadT: PluckInto<LookupT>,
 {
    type Rest = TailT;

    open spec fn splits(self, out: (LookupT, TailT)) -> bool {
        &&& self.head.converts(out.0)
        &&& out.1 == self.tail
    }

    fn pluck(self) -> (split: (LookupT, TailT)) {
        (self.head.pluck_into(), self.tail)
    }
}

impl<'a, LookupT, HeadT, TailT> Pluck<LookupT, Zero> for &'a Cons<HeadT, TailT> where
    &'a HeadT: PluckInto<LookupT>,
 {
    type Rest = &'a TailT;

    open spec fn splits(self, out: (LookupT, &'a TailT)) -> bool {
        &&& (&self.head).converts(out.0)
        &&& *out.1 == self.tail
    }

    fn pluck(self) -> (split: (LookupT, &'a TailT)) {
        ((&self.head).pluck_into(), &self.tail)
    }
}

impl<'a, LookupT, HeadT, TailT> Pluck<LookupT, Zero> for &'a mut Cons<HeadT, TailT> where
    &'a mut HeadT: PluckInto<LookupT>,
 {
    type Rest = &'a mut TailT;

    open spec fn splits(self, out: (LookupT, &'a mut TailT)) -> bool {
        &&& exists|head: &'a mut HeadT| *head == self.head && #[trigger] head.converts(out.0)
        &&& *out.1 == self.tail
    }

    fn pluck(self) -> (split: (LookupT, &'a mut TailT)) {
        let head = &mut self.head;
        let ghost borrowed = head;
        let lookup = { head }.pluck_into();
        let split = (lookup, &mut self.tail);
        assert(old(self).splits(split)) by {
            assert(borrowed.converts(split.0));
        }
        split
    }
}

impl<LookupT, HeadT, TailT, IndexT> Pluck<LookupT, OnePlus<IndexT>> for Cons<HeadT, TailT> where
    TailT: Pluck<LookupT, IndexT>,
 {
    type Rest = Cons<HeadT, <TailT as Pluck<LookupT, IndexT>>::Rest>;

    open spec fn splits(self, out: (LookupT, Cons<HeadT, <TailT as Pluck<LookupT, IndexT>>::Rest>)) -> bool {
        &&& self.tail.splits((out.0, out.1.tail))
        &&& out.1.head == self.head
    }

    fn pluck(self) -> (split: (LookupT, Cons<HeadT, <TailT as Pluck<LookupT, IndexT>>::Rest>)) {
        let (lookup, tail_rest) = self.tail.pluck();
        (lookup, Cons { head: self.head, tail: tail_rest })
    }
}

impl<'a, LookupT, HeadT, TailT, IndexT> Pluck<LookupT, OnePlus<IndexT>> for &'a Cons<
    HeadT,
    TailT,
> where &'a TailT: Pluck<LookupT, IndexT> {
    type Rest = Cons<&'a HeadT, <&'a TailT as Pluck<LookupT, IndexT>>::Rest>;

    open spec fn splits(self, out: (LookupT, Cons<&'a HeadT, <&'a TailT as Pluck<LookupT, IndexT>>::Rest>)) -> bool {
        &&& (&self.tail).splits((out.0, out.1.tail))
        &&& *out.1.head == self.head
    }

    fn pluck(self) -> (split: (LookupT, Cons<&'a HeadT, <&'a TailT as Pluck<LookupT, IndexT>>::Rest>)) {
        let (lookup, tail_rest) = self.tail.pluck();
        (lookup, Cons { head: &self.head, tail: tail_rest })
    }
}

impl<'a, LookupT, HeadT, TailT, IndexT> Pluck<LookupT, OnePlus<IndexT>> for &'a mut Cons<
    HeadT,
    TailT,
> where &'a mut TailT: Pluck<LookupT, IndexT> {
    type Rest = Cons<&'a mut HeadT, <&'a mut TailT as Pluck<LookupT, IndexT>>::Rest>;

    open spec fn splits(self, out: (LookupT, Cons<&'a mut HeadT, <&'a mut TailT as Pluck<LookupT, IndexT>>::Rest>)) -> bool {
        &&& exists|tail: &'a mut TailT| *tail == self.tail && #[trigger] tail.splits((out.0, out.1.tail))
        &&& *out.1.head == self.head
    }

    fn pluck(self) -> (split: (LookupT, Cons<&'a mut HeadT, <&'a mut TailT as Pluck<LookupT, IndexT>>::Rest>)) {
        let tail = &mut self.tail;
        let ghost borrowed = tail;
        let (lookup, tail_rest) = { tail }.pluck();
        let split = (lookup, Cons { head: &mut self.head, tail: tail_rest });
        assert(old(self).splits(split)) by {
            assert(borrowed.splits((split.0, split.1.tail)));
        }
        split
    }
}

impl<LookupT, IndexT, ListT> Peek<LookupT, IndexT> for ListT where
    for <'a>&'a ListT: Pluck<&'a LookupT, IndexT>,
    for <'a>&'a mut ListT: Pluck<&'a mut LookupT, IndexT>,
 {
    open spec fn peeks<'b>(&'b self, out: &'b LookupT) -> bool {
        exists|rest: <&'b ListT as Pluck<&'b LookupT, IndexT>>::Rest| #[trigger] self.splits((out, rest))
    }

    open spec fn peeks_mut<'b>(&'b self, out: &'b mut LookupT) -> bool {
        exists|
            list: &'b mut ListT,
            element: &'b mut LookupT,
            rest: <&'b mut ListT as Pluck<&'b mut LookupT, IndexT>>::Rest,
        |
            *list == *self && *element == *out && #[trigger] list.splits((element, rest))
    }

    fn peek(&self) -> (element: &LookupT) {
        let split = self.pluck();
        assert(self.splits((split.0, split.1)));
        split.0
    }

    fn peek_mut(&mut self) -> (element: &mut LookupT) {
        let ghost list = self;
        let split = { self }.pluck();
        assert(list.splits((split.0, split.1)));
        split.0
    }
}

/// Takes several elements out of a list at once: `NeedlesT` is the list of what to take,
/// `IndicesT` the list of where each stands.
pub trait PluckList<NeedlesT, IndicesT>: Sized {
    type ListRest;

    /// Whether `out` holds the looked-up elements, in the order of `NeedlesT`, and what is
    /// left of the list after taking each out in turn.
    spec fn splits_list(self, out: (NeedlesT, Self::ListRest)) -> bool;

    fn pluck_list(self) -> (split: (NeedlesT, Self::ListRest))
        ensures
            self.splits_list(split),
    ;
}

impl<ListT> PluckList<Nil, ()> for ListT {
    type ListRest = ListT;

    open spec fn splits_list(self, out: (Nil, ListT)) -> bool {
        out.1 == self
    }

    fn pluck_list(self) -> (split: (Nil, ListT)) {
        (Nil, self)
    }
}

impl<NeedleHeadT, NeedleTailT, HeadIndicesT, TailIndicesT, HaystackT> PluckList<
    Cons<NeedleHeadT, NeedleTailT>,
    (HeadIndicesT, TailIndicesT),
> for HaystackT where
    HaystackT: Pluck<NeedleHeadT, HeadIndicesT>,
    <HaystackT as Pluck<NeedleHeadT, HeadIndicesT>>::Rest: PluckList<NeedleTailT, TailIndicesT>,
 {
    type ListRest = <<HaystackT as Pluck<NeedleHeadT, HeadIndicesT>>::Rest as PluckList<
        NeedleTailT,
        TailIndicesT,
    >>::ListRest;

    open spec fn splits_list(self, out: (Cons<NeedleHeadT, NeedleTailT>, Self::ListRest)) -> bool {
        exists|rest: <HaystackT as Pluck<NeedleHeadT, HeadIndicesT>>::Rest|
            #[trigger] self.splits((out.0.head, rest)) && rest.splits_list((out.0.tail, out.1))
    }

    fn pluck_list(self) -> (split: (Cons<NeedleHeadT, NeedleTailT>, Self::ListRest)) {
        let (head, rest) = self.pluck();
        let ghost taken = rest;
        let (tail, list_rest) = rest.pluck_list();
        let split = (Cons { head, tail }, list_rest);
        assert(self.splits((split.0.head, taken)));
        assert(taken.splits_list((split.0.tail, split.1)));
        split
    }
}

} // verus!
