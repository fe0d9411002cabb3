//! The context: a type-level list of systems and injected values, built once, then stepped
//! until a quit is requested.  Each system takes its dependencies out of the part of the list
//! built before it.
use crate::errors::{ErrorKind, Result};
use crate::system::{BoundSystem, System};
use crate::type_list::{Cons, Nil, Peek, Pluck, PluckInto};
use core::marker::PhantomData;
use vstd::prelude::*;

verus! {

/// A running engine.
pub trait Context {
    /// The context still holds its systems: it was not destroyed.
    spec fn is_live(&self) -> bool;

    fn quit_requested(&self) -> bool
        requires
            self.is_live(),
    ;

    fn step(&mut self) -> (stepped: Result<()>)
        requires
            old(self).is_live(),
        ensures
            final(self).is_live(),
    ;

    fn destroy(&mut self) -> (destroyed: Result<()>)
        ensures
            !final(self).is_live(),
    ;
}

/// Whether a quit was requested; every context holds one.
pub struct ControlFlow {
    pub quit_requested: bool,
}

/// Builds a context, one injected value or system at a time.
pub struct ContextBuilder<SystemListT> {
    pub(crate) systems: SystemListT,
}

impl ContextBuilder<Cons<InjectMut<ControlFlow>, Nil>> {
    /// A builder holding only the control flow, with no quit requested.
    pub fn new() -> (builder: Self)
        ensures
            builder.list().head.0.quit_requested == false,
    {
        Self { systems: Cons { head: InjectMut(ControlFlow { quit_requested: false }), tail: Nil } }
    }
}

impl Default for ContextBuilder<Cons<InjectMut<ControlFlow>, Nil>> {
    /// The same as `new`.
    fn default() -> (builder: Self)
        ensures
            builder.list().head.0.quit_requested == false,
    {
        Self::new()
    }
}

impl<SystemListT> ContextBuilder<SystemListT> {
    /// The list built so far.
    pub closed spec fn list(self) -> SystemListT {
        self.systems
    }

    /// Adds a value that systems may borrow immutably.
    pub fn inject<InjectT>(self, value: InjectT) -> (builder: ContextBuilder<
        Cons<Inject<InjectT>, SystemListT>,
    >)
        ensures
            builder.list().head.0 == value,
            builder.list().tail == self.list(),
    {
        ContextBuilder { systems: Cons { head: Inject(value), tail: self.systems } }
    }

    /// Adds a value that systems may borrow mutably.
    pub fn inject_mut<InjectT>(self, value: InjectT) -> (builder: ContextBuilder<
        Cons<InjectMut<InjectT>, SystemListT>,
    >)
        ensures
            builder.list().head.0 == value,
            builder.list().tail == self.list(),
    {
        ContextBuilder { systems: Cons { head: InjectMut(value), tail: self.systems } }
    }

    /// Puts a created system at the front of the list, or passes on why it was not created.
    pub fn push_system<SystemT>(self, created: Result<SystemT>) -> (built: Result<
        ContextBuilder<Cons<SystemT, SystemListT>>,
    >)
        ensures
            built is Ok == created is Ok,
            built matches Ok(b) ==> created == Ok::<SystemT, ErrorKind>(b.list().head) && b.list().tail
                == self.list(),
            built matches Err(e) ==> created == Err::<SystemT, ErrorKind>(e),
    {
        match created {
            Ok(head) => Ok(ContextBuilder { systems: Cons { head, tail: self.systems } }),
            Err(e) => Err(e),
        }
    }

    /// Creates a system from the list built so far and adds it at the front.
    pub fn system<SystemT, IndicesT>(self, _system: BoundSystem<SystemT>) -> (built: Result<
        ContextBuilder<Cons<SystemT, SystemListT>>,
    >) where SystemT: for <'context>RawCreate<'context, SystemListT, IndicesT>
        ensures
            built matches Err(e) ==> e matches ErrorKind::System(operation, _) && operation
                == "creation",
            exists|created: Result<SystemT>, left: SystemListT|
                #[trigger] <SystemT as RawCreate<'static, SystemListT, IndicesT>>::created_by(
                    self.list(),
                    left,
                    created,
                ) && {
                    &&& built is Ok == created is Ok
                    &&& built matches Ok(b) ==> created == Ok::<SystemT, ErrorKind>(b.list().head)
                        && b.list().tail == left
                    &&& built matches Err(e) ==> created == Err::<SystemT, ErrorKind>(e)
                },
    {
        let mut systems = self.systems;
        let created = SystemT::raw_create(&mut systems);
        let built = ContextBuilder { systems }.push_system(created);
        assert(<SystemT as RawCreate<'static, SystemListT, IndicesT>>::created_by(
            self.list(),
            systems,
            created,
        ));
        built
    }

    /// Sets every system up, oldest first, and yields the running context.
    pub fn build<ControlIndexT, IndicesT>(self) -> (built: Result<
        ContextObject<SystemListT, (ControlIndexT, IndicesT)>,
    >) where SystemListT: SystemList<IndicesT> + Peek<ControlFlow, ControlIndexT>
        ensures
            built matches Ok(context) ==> context.is_live(),
            built matches Err(e) ==> e == ErrorKind::Context("setup"),
            exists|done: Result<()>, after: SystemListT|
                #[trigger] SystemListT::set_up_all(self.list(), after, done) && (built is Ok <==> done
                    is Ok) && (built matches Ok(context) ==> context.held() == after),
    {
        let mut systems = self.systems;
        let done = SystemListT::setup_list(&mut systems);
        assert(SystemListT::set_up_all(self.list(), systems, done));
        match done {
            Ok(()) => Ok(ContextObject { systems: Some(systems), indices: PhantomData }),
            Err(_) => Err(ErrorKind::Context("setup")),
        }
    }
}

/// A built context: the list of systems, until it is destroyed.
pub struct ContextObject<SystemListT, IndicesT> {
    systems: Option<SystemListT>,
    indices: PhantomData<IndicesT>,
}

impl<SystemListT, IndicesT> ContextObject<SystemListT, IndicesT> {
    /// The context was not destroyed.
    pub closed spec fn live(&self) -> bool {
        self.systems is Some
    }

    /// The systems of a live context.
    pub closed spec fn held(&self) -> SystemListT {
        self.systems->0
    }

    /// The systems of a live context, to update them.
    pub fn systems_mut(&mut self) -> (systems: &mut SystemListT)
        requires
            old(self).live(),
        ensures
            *systems == old(self).held(),
            final(self).live(),
            final(self).held() == *final(systems),
    {
        self.systems.as_mut().expect("call on destroyed context: systems_mut")
    }

    /// The systems of a live context.
    pub fn systems(&self) -> (systems: &SystemListT)
        requires
            self.live(),
        ensures
            *systems == self.held(),
    {
        self.systems.as_ref().expect("call on destroyed context: systems")
    }
}

impl<SystemListT, ControlIndexT, IndicesT> Context for ContextObject<
    SystemListT,
    (ControlIndexT, IndicesT),
> where SystemListT: SystemList<IndicesT> + Peek<ControlFlow, ControlIndexT> {
    open spec fn is_live(&self) -> bool {
        self.live()
    }

    fn quit_requested(&self) -> (quit: bool)
        ensures
            exists|flow: &ControlFlow|
                #[trigger] <SystemListT as Peek<ControlFlow, ControlIndexT>>::peeks(&self.held(), flow)
                    && quit == flow.quit_requested,
    {
        let flow: &ControlFlow = self.systems().peek();
        flow.quit_requested
    }

    fn step(&mut self) -> (stepped: Result<()>)
        ensures
            stepped matches Err(e) ==> e == ErrorKind::Context("update"),
            exists|done: Result<()>|
                #[trigger] SystemListT::updated_all(old(self).held(), final(self).held(), done) && (
                stepped is Ok <==> done is Ok),
    {
        let done = SystemListT::update_list(self.systems_mut());
        match done {
            Ok(()) => Ok(()),
            Err(_) => Err(ErrorKind::Context("update")),
        }
    }

    fn destroy(&mut self) -> (destroyed: Result<()>)
        ensures
            !old(self).is_live() ==> destroyed is Ok,
            destroyed matches Err(e) ==> e == ErrorKind::Context("teardown") || e
                == ErrorKind::Context("destruction"),
            old(self).is_live() ==> exists|torn: Result<()>, left: SystemListT|
                #[trigger] SystemListT::torn_down_all(old(self).held(), left, torn) && if torn is Err {
                    destroyed == Err::<(), ErrorKind>(ErrorKind::Context("teardown"))
                } else {
                    exists|done: Result<()>|
                        #[trigger] SystemListT::destroyed_all(left, done) && (destroyed is Ok <==> done
                            is Ok)
                },
    {
        let mut systems = match self.systems.take() {
            Some(systems) => systems,
            None => {
                return Ok(());
            },
        };
        let ghost held = systems;
        let torn = SystemListT::teardown_list(&mut systems);
        assert(held == old(self).held());
        assert(SystemListT::torn_down_all(old(self).held(), systems, torn));
        match torn {
            Ok(()) => {},
            Err(_) => {
                return Err(ErrorKind::Context("teardown"));
            },
        }
        let ghost left = systems;
        let done = SystemListT::destroy_list(systems);
        assert(SystemListT::destroyed_all(left, done));
        match done {
            Ok(()) => Ok(()),
            Err(_) => Err(ErrorKind::Context("destruction")),
        }
    }
}

/// Builds a system's dependencies out of the context.
pub trait DependenciesFrom<ContextT, IndicesT>: Sized {
    /// Whether `dependencies` is what the context lends the system.  For a context behind a
    /// mutable reference this speaks of the values that the references point to.
    spec fn lent_by(context: ContextT, dependencies: Self) -> bool;

    fn dependencies_from(context: ContextT) -> (dependencies: Self)
        ensures
            Self::lent_by(context, dependencies),
    ;
}

impl<ContextT> DependenciesFrom<ContextT, ()> for () {
    open spec fn lent_by(context: ContextT, dependencies: ()) -> bool {
        true
    }

    fn dependencies_from(_context: ContextT) -> Self {
    }
}

impl<'context, ContextT, IndexT, SystemT> DependenciesFrom<ContextT, IndexT> for &'context SystemT where
    ContextT: Pluck<&'context SystemT, IndexT>,
 {
    open spec fn lent_by(context: ContextT, dependencies: &'context SystemT) -> bool {
        exists|rest: <ContextT as Pluck<&'context SystemT, IndexT>>::Rest|
            #[trigger] context.splits((dependencies, rest))
    }

    fn dependencies_from(context: ContextT) -> (dependencies: Self) {
        let split = context.pluck();
        assert(context.splits((split.0, split.1)));
        split.0
    }
}

impl<'context, ContextT, IndexT, SystemT> DependenciesFrom<ContextT, IndexT> for &'context mut SystemT where
    ContextT: Pluck<&'context mut SystemT, IndexT>,
 {
    open spec fn lent_by(context: ContextT, dependencies: &'context mut SystemT) -> bool {
        exists|
            lent: &'context mut SystemT,
            rest: <ContextT as Pluck<&'context mut SystemT, IndexT>>::Rest,
        | *lent == *dependencies && #[trigger] context.splits((lent, rest))
    }

    fn dependencies_from(context: ContextT) -> (dependencies: Self) {
        let split = context.pluck();
        assert(context.splits((split.0, split.1)));
        split.0
    }
}

/// The operations on the whole list of systems.  Setting up and updating go from the oldest
/// system to the newest, since each may use those before it; tearing down and destroying go
/// the other way.  Each stops at the first system that fails and passes its error on.
pub trait SystemList<IndicesT>: Sized {
    /// Whether setting up the systems of `before`, oldest first, may leave `after` and end in
    /// `done`.
    spec fn set_up_all(before: Self, after: Self, done: Result<()>) -> bool;

    /// Whether updating the systems of `before`, oldest first, may leave `after` and end in
    /// `done`.
    spec fn updated_all(before: Self, after: Self, done: Result<()>) -> bool;

    /// Whether tearing down the systems of `before`, newest first, may leave `after` and end
    /// in `done`.
    spec fn torn_down_all(before: Self, after: Self, done: Result<()>) -> bool;

    /// Whether destroying the systems of `before`, newest first, may end in `done`.
    spec fn destroyed_all(before: Self, done: Result<()>) -> bool;

    fn setup_list(&mut self) -> (done: Result<()>)
        ensures
            Self::set_up_all(*old(self), *final(self), done),
            done matches Err(e) ==> e matches ErrorKind::System(operation, _) && operation == "setup",
    ;

    fn update_list(&mut self) -> (done: Result<()>)
        ensures
            Self::updated_all(*old(self), *final(self), done),
            done matches Err(e) ==> e matches ErrorKind::System(operation, _) && operation == "update",
    ;

    fn teardown_list(&mut self) -> (done: Result<()>)
        ensures
            Self::torn_down_all(*old(self), *final(self), done),
            done matches Err(e) ==> e matches ErrorKind::System(operation, _) && operation
                == "teardown",
    ;

    fn destroy_list(self) -> (done: Result<()>)
        ensures
            Self::destroyed_all(self, done),
            done matches Err(e) ==> e matches ErrorKind::System(operation, _) && operation
                == "destruction",
    ;
}

impl SystemList<()> for Nil {
    open spec fn set_up_all(before: Self, after: Self, done: Result<()>) -> bool {
        after == before && done is Ok
    }

    open spec fn updated_all(before: Self, after: Self, done: Result<()>) -> bool {
        after == before && done is Ok
    }

    open spec fn torn_down_all(before: Self, after: Self, done: Result<()>) -> bool {
        after == before && done is Ok
    }

    open spec fn destroyed_all(before: Self, done: Result<()>) -> bool {
        done is Ok
    }

    fn setup_list(&mut self) -> (done: Result<()>) {
        Ok(())
    }

    fn update_list(&mut self) -> (done: Result<()>) {
        Ok(())
    }

    fn teardown_list(&mut self) -> (done: Result<()>) {
        Ok(())
    }

    fn destroy_list(self) -> (done: Result<()>) {
        Ok(())
    }
}

impl<HeadIndicesT, TailIndicesT, HeadT, TailT> SystemList<(HeadIndicesT, TailIndicesT)> for Cons<
    HeadT,
    TailT,
> where TailT: SystemList<TailIndicesT>, HeadT: for <'context>RawSystem<'context, TailT, HeadIndicesT> {
    /// The older systems are set up first; the head follows, with them as its context, only
    /// when they all succeeded.
    open spec fn set_up_all(before: Self, after: Self, done: Result<()>) -> bool {
        exists|older: Result<()>, older_after: TailT|
            #[trigger] TailT::set_up_all(before.tail, older_after, older) && if older is Err {
                done == older && after == Cons { head: before.head, tail: older_after }
            } else {
                <HeadT as RawSystem<'static, TailT, HeadIndicesT>>::set_up_by(
                    before.head,
                    older_after,
                    after.head,
                    after.tail,
                    done,
                )
            }
    }

    /// The older systems are updated first; the head follows, with them as its context, only
    /// when they all succeeded.
    open spec fn updated_all(before: Self, after: Self, done: Result<()>) -> bool {
        exists|older: Result<()>, older_after: TailT|
            #[trigger] TailT::updated_all(before.tail, older_after, older) && if older is Err {
                done == older && after == Cons { head: before.head, tail: older_after }
            } else {
                <HeadT as RawSystem<'static, TailT, HeadIndicesT>>::updated_by(
                    before.head,
                    older_after,
                    after.head,
                    after.tail,
                    done,
                )
            }
    }

    /// The head is torn down first, with the older systems as its context; they follow, as
    /// the head left them, only when it succeeded.
    open spec fn torn_down_all(before: Self, after: Self, done: Result<()>) -> bool {
        exists|first: Result<()>, head_after: HeadT, older: TailT|
            #[trigger] <HeadT as RawSystem<'static, TailT, HeadIndicesT>>::torn_down_by(
                before.head,
                before.tail,
                head_after,
                older,
                first,
            ) && if first is Err {
                done == first && after == Cons { head: head_after, tail: older }
            } else {
                after.head == head_after && TailT::torn_down_all(older, after.tail, done)
            }
    }

    /// The head is destroyed first, with the older systems as its context; they follow, as the
    /// head left them, only when it succeeded.
    open spec fn destroyed_all(before: Self, done: Result<()>) -> bool {
        exists|first: Result<()>, older: TailT|
            #[trigger] <HeadT as RawSystem<'static, TailT, HeadIndicesT>>::destroyed_by(
                before.head,
                before.tail,
                older,
                first,
            ) && if first is Err {
                done == first
            } else {
                TailT::destroyed_all(older, done)
            }
    }

    fn setup_list(&mut self) -> (done: Result<()>) {
        let older = self.tail.setup_list();
        let ghost older_after = self.tail;
        assert(TailT::set_up_all(old(self).tail, older_after, older));
        match older {
            Ok(()) => self.head.raw_setup(&mut self.tail),
            Err(e) => Err(e),
        }
    }

    fn update_list(&mut self) -> (done: Result<()>) {
        let older = self.tail.update_list();
        let ghost older_after = self.tail;
        assert(TailT::updated_all(old(self).tail, older_after, older));
        match older {
            Ok(()) => self.head.raw_update(&mut self.tail),
            Err(e) => Err(e),
        }
    }

    fn teardown_list(&mut self) -> (done: Result<()>) {
        let first = self.head.raw_teardown(&mut self.tail);
        let ghost head_after = self.head;
        let ghost older = self.tail;
        assert(<HeadT as RawSystem<'static, TailT, HeadIndicesT>>::torn_down_by(
            old(self).head,
            old(self).tail,
            head_after,
            older,
            first,
        ));
        match first {
            Ok(()) => self.tail.teardown_list(),
            Err(e) => Err(e),
        }
    }

    fn destroy_list(self) -> (done: Result<()>) {
        let ghost before = self;
        let Cons { mut head, mut tail } = self;
        let first = head.raw_destroy(&mut tail);
        let ghost older = tail;
        assert(<HeadT as RawSystem<'static, TailT, HeadIndicesT>>::destroyed_by(
            before.head,
            before.tail,
            older,
            first,
        ));
        match first {
            Ok(()) => tail.destroy_list(),
            Err(e) => Err(e),
        }
    }
}

/// A value that systems borrow immutably.
pub struct Inject<InjectT>(pub InjectT);

impl<InjectT> PluckInto<InjectT> for Inject<InjectT> {
    open spec fn converts(self, out: InjectT) -> bool {
        out == self.0
    }

    fn pluck_into(self) -> (value: InjectT) {
        self.0
    }
}

impl<'a, InjectT> PluckInto<&'a InjectT> for &'a Inject<InjectT> {
    open spec fn converts(self, out: &'a InjectT) -> bool {
        *out == self.0
    }

    fn pluck_into(self) -> (value: &'a InjectT) {
        &self.0
    }
}

impl<'a, InjectT> PluckInto<&'a InjectT> for &'a mut Inject<InjectT> {
    open spec fn converts(self, out: &'a InjectT) -> bool {
        *out == self.0
    }

    fn pluck_into(self) -> (value: &'a InjectT) {
        &self.0
    }
}

/// A value that systems may borrow mutably.
pub struct InjectMut<InjectT>(pub InjectT);

impl<InjectT> PluckInto<InjectT> for InjectMut<InjectT> {
    open spec fn converts(self, out: InjectT) -> bool {
        out == self.0
    }

    fn pluck_into(self) -> (value: InjectT) {
        self.0
    }
}

impl<'a, InjectT> PluckInto<&'a InjectT> for &'a InjectMut<InjectT> {
    open spec fn converts(self, out: &'a InjectT) -> bool {
        *out == self.0
    }

    fn pluck_into(self) -> (value: &'a InjectT) {
        &self.0
    }
}

impl<'a, InjectT> PluckInto<&'a InjectT> for &'a mut InjectMut<InjectT> {
    open spec fn converts(self, out: &'a InjectT) -> bool {
        *out == self.0
    }

    fn pluck_into(self) -> (value: &'a InjectT) {
        &self.0
    }
}

impl<'a, InjectT> PluckInto<&'a mut InjectT> for &'a mut InjectMut<InjectT> {
    open spec fn converts(self, out: &'a mut InjectT) -> bool {
        *out == self.0
    }

    fn pluck_into(self) -> (value: &'a mut InjectT) {
        &mut self.0
    }
}

/// How a system's hook ends, in the list's terms: success stays success, and a failure
/// becomes `System(operation, name)` under a name that the system's `debug_name` gave.
pub open spec fn reported<'context, SystemT: System<'context>>(
    operation: &'static str,
    result: Result<()>,
    done: Result<()>,
) -> bool {
    &&& result is Ok ==> done is Ok
    &&& result is Err ==> exists|name: &'static str|
        #[trigger] call_ensures(SystemT::debug_name, (), name) && done == Err::<(), ErrorKind>(
            ErrorKind::System(operation, name),
        )
}

/// What the list of systems does with one of its elements: a system runs its hook on the
/// dependencies it borrows from the systems before it; an injected value does nothing.  A
/// failure names the operation.
pub trait RawSystem<'context, ContextT, IndicesT>: Sized {
    /// Whether setting up the element `before`, in the context `context`, may leave the element
    /// `after` and the context `context_after`, and end in `done`.
    spec fn set_up_by(
        before: Self,
        context: ContextT,
        after: Self,
        context_after: ContextT,
        done: Result<()>,
    ) -> bool;

    /// Whether updating the element `before`, in the context `context`, may leave the element
    /// `after` and the context `context_after`, and end in `done`.
    spec fn updated_by(
        before: Self,
        context: ContextT,
        after: Self,
        context_after: ContextT,
        done: Result<()>,
    ) -> bool;

    /// Whether tearing down the element `before`, in the context `context`, may leave the element
    /// `after` and the context `context_after`, and end in `done`.
    spec fn torn_down_by(
        before: Self,
        context: ContextT,
        after: Self,
        context_after: ContextT,
        done: Result<()>,
    ) -> bool;

    /// Whether destroying the element `before`, in the context `context`, may leave the
    /// context `context_after` and end in `done`.
    spec fn destroyed_by(before: Self, context: ContextT, context_after: ContextT, done: Result<()>) -> bool;

    fn raw_setup(&mut self, context: &'context mut ContextT) -> (done: Result<()>)
        ensures
            Self::set_up_by(*old(self), *old(context), *final(self), *final(context), done),
            done matches Err(e) ==> e matches ErrorKind::System(operation, _) && operation == "setup",
    ;

    fn raw_update(&mut self, context: &'context mut ContextT) -> (done: Result<()>)
        ensures
            Self::updated_by(*old(self), *old(context), *final(self), *final(context), done),
            done matches Err(e) ==> e matches ErrorKind::System(operation, _) && operation == "update",
    ;

    fn raw_teardown(&mut self, context: &'context mut ContextT) -> (done: Result<()>)
        ensures
            Self::torn_down_by(*old(self), *old(context), *final(self), *final(context), done),
            done matches Err(e) ==> e matches ErrorKind::System(operation, _) && operation == "teardown",
    ;

    fn raw_destroy(self, context: &'context mut ContextT) -> (done: Result<()>)
        ensures
            Self::destroyed_by(self, *old(context), *final(context), done),
            done matches Err(e) ==> e matches ErrorKind::System(operation, _) && operation
                == "destruction",
    ;
}

/// An injected value has no hooks: every operation leaves it and its context as they were
/// and succeeds.
impl<'context, ContextT, InjectT> RawSystem<'context, ContextT, ()> for Inject<InjectT> {
    open spec fn set_up_by(
        before: Self,
        context: ContextT,
        after: Self,
        context_after: ContextT,
        done: Result<()>,
    ) -> bool {
        after == before && context_after == context && done is Ok
    }

    open spec fn updated_by(
        before: Self,
        context: ContextT,
        after: Self,
        context_after: ContextT,
        done: Result<()>,
    ) -> bool {
        after == before && context_after == context && done is Ok
    }

    open spec fn torn_down_by(
        before: Self,
        context: ContextT,
        after: Self,
        context_after: ContextT,
        done: Result<()>,
    ) -> bool {
        after == before && context_after == context && done is Ok
    }

    open spec fn destroyed_by(before: Self, context: ContextT, context_after: ContextT, done: Result<()>) -> bool {
        context_after == context && done is Ok
    }

    fn raw_setup(&mut self, _context: &'context mut ContextT) -> (done: Result<()>) {
        Ok(())
    }

    fn raw_update(&mut self, _context: &'context mut ContextT) -> (done: Result<()>) {
        Ok(())
    }

    fn raw_teardown(&mut self, _context: &'context mut ContextT) -> (done: Result<()>) {
        Ok(())
    }

    fn raw_destroy(self, _context: &'context mut ContextT) -> (done: Result<()>) {
        Ok(())
    }
}

/// An injected value has no hooks: every operation leaves it and its context as they were
/// and succeeds.
impl<'context, ContextT, InjectT> RawSystem<'context, ContextT, ()> for InjectMut<InjectT> {
    open spec fn set_up_by(
        before: Self,
        context: ContextT,
        after: Self,
        context_after: ContextT,
        done: Result<()>,
    ) -> bool {
        after == before && context_after == context && done is Ok
    }

    open spec fn updated_by(
        before: Self,
        context: ContextT,
        after: Self,
        context_after: ContextT,
        done: Result<()>,
    ) -> bool {
        after == before && context_after == context && done is Ok
    }

    open spec fn torn_down_by(
        before: Self,
        context: ContextT,
        after: Self,
        context_after: ContextT,
        done: Result<()>,
    ) -> bool {
        after == before && context_after == context && done is Ok
    }

    open spec fn destroyed_by(before: Self, context: ContextT, context_after: ContextT, done: Result<()>) -> bool {
        context_after == context && done is Ok
    }

    fn raw_setup(&mut self, _context: &'context mut ContextT) -> (done: Result<()>) {
        Ok(())
    }

    fn raw_update(&mut self, _context: &'context mut ContextT) -> (done: Result<()>) {
        Ok(())
    }

    fn raw_teardown(&mut self, _context: &'context mut ContextT) -> (done: Result<()>) {
        Ok(())
    }

    fn raw_destroy(self, _context: &'context mut ContextT) -> (done: Result<()>) {
        Ok(())
    }
}

/// Creates a system out of the list built before it.
pub trait RawCreate<'context, ContextT, IndicesT>: RawSystem<'context, ContextT, IndicesT> {
    /// Whether creating the element out of the context `context` may leave the context
    /// `context_after` and end in `created`.
    spec fn created_by(context: ContextT, context_after: ContextT, created: Result<Self>) -> bool;

    fn raw_create(context: &'context mut ContextT) -> (created: Result<Self>)
        ensures
            Self::created_by(*old(context), *final(context), created),
            created matches Err(e) ==> e matches ErrorKind::System(operation, _) && operation
                == "creation",
    ;
}

impl<'context, ContextT, IndicesT, SystemT> RawSystem<'context, ContextT, IndicesT> for SystemT where
    ContextT: 'context,
    SystemT: System<'context>,
    <SystemT as System<'context>>::Dependencies: DependenciesFrom<&'context mut ContextT, IndicesT>,
 {
    /// The system's own `setup` ran once, on the system as it was and on dependencies borrowed
    /// from the context as it was, and its result is reported.  What the hook left in the
    /// system and, through the dependencies, in the context is the hook's own business.
    open spec fn set_up_by(
        before: Self,
        context: ContextT,
        after: Self,
        context_after: ContextT,
        done: Result<()>,
    ) -> bool {
        exists|
            system: &mut SystemT,
            lender: &'context mut ContextT,
            dependencies: <SystemT as System<'context>>::Dependencies,
            result: Result<()>,
        |
            #![trigger call_ensures(<SystemT as System<'context>>::setup, (system, dependencies), result), <<SystemT as System<'context>>::Dependencies as DependenciesFrom<&'context mut ContextT, IndicesT>>::lent_by(lender, dependencies)]
            *system == before && *lender == context && <<SystemT as System<'context>>::Dependencies as DependenciesFrom<&'context mut ContextT, IndicesT>>::lent_by(lender, dependencies) && call_ensures(
                <SystemT as System<'context>>::setup,
                (system, dependencies),
                result,
            ) && reported::<'context, SystemT>("setup", result, done)
    }

    /// The system's own `update` ran once, on the system as it was and on dependencies borrowed
    /// from the context as it was, and its result is reported.  What the hook left in the
    /// system and, through the dependencies, in the context is the hook's own business.
    open spec fn updated_by(
        before: Self,
        context: ContextT,
        after: Self,
        context_after: ContextT,
        done: Result<()>,
    ) -> bool {
        exists|
            system: &mut SystemT,
            lender: &'context mut ContextT,
            dependencies: <SystemT as System<'context>>::Dependencies,
            result: Result<()>,
        |
            #![trigger call_ensures(<SystemT as System<'context>>::update, (system, dependencies), result), <<SystemT as System<'context>>::Dependencies as DependenciesFrom<&'context mut ContextT, IndicesT>>::lent_by(lender, dependencies)]
            *system == before && *lender == context && <<SystemT as System<'context>>::Dependencies as DependenciesFrom<&'context mut ContextT, IndicesT>>::lent_by(lender, dependencies) && call_ensures(
                <SystemT as System<'context>>::update,
                (system, dependencies),
                result,
            ) && reported::<'context, SystemT>("update", result, done)
    }

    /// The system's own `teardown` ran once, on the system as it was and on dependencies borrowed
    /// from the context as it was, and its result is reported.  What the hook left in the
    /// system and, through the dependencies, in the context is the hook's own business.
    open spec fn torn_down_by(
        before: Self,
        context: ContextT,
        after: Self,
        context_after: ContextT,
        done: Result<()>,
    ) -> bool {
        exists|
            system: &mut SystemT,
            lender: &'context mut ContextT,
            dependencies: <SystemT as System<'context>>::Dependencies,
            result: Result<()>,
        |
            #![trigger call_ensures(<SystemT as System<'context>>::teardown, (system, dependencies), result), <<SystemT as System<'context>>::Dependencies as DependenciesFrom<&'context mut ContextT, IndicesT>>::lent_by(lender, dependencies)]
            *system == before && *lender == context && <<SystemT as System<'context>>::Dependencies as DependenciesFrom<&'context mut ContextT, IndicesT>>::lent_by(lender, dependencies) && call_ensures(
                <SystemT as System<'context>>::teardown,
                (system, dependencies),
                result,
            ) && reported::<'context, SystemT>("teardown", result, done)
    }

    /// The system's own `destroy` ran once, on the system and on dependencies borrowed from
    /// the context as it was, and its result is reported.
    open spec fn destroyed_by(before: Self, context: ContextT, context_after: ContextT, done: Result<()>) -> bool {
        exists|
            lender: &'context mut ContextT,
            dependencies: <SystemT as System<'context>>::Dependencies,
            result: Result<()>,
        |
            #![trigger call_ensures(<SystemT as System<'context>>::destroy, (before, dependencies), result), <<SystemT as System<'context>>::Dependencies as DependenciesFrom<&'context mut ContextT, IndicesT>>::lent_by(lender, dependencies)]
            *lender == context && <<SystemT as System<'context>>::Dependencies as DependenciesFrom<&'context mut ContextT, IndicesT>>::lent_by(lender, dependencies) && call_ensures(
                <SystemT as System<'context>>::destroy,
                (before, dependencies),
                result,
            ) && reported::<'context, SystemT>("destruction", result, done)
    }

    fn raw_setup(&mut self, context: &'context mut ContextT) -> (done: Result<()>) {
        let dependencies = <SystemT as System<'context>>::Dependencies::dependencies_from({ context });
        let ghost lent = dependencies;
        let ghost system = self;
        let hook = <SystemT as System<'context>>::setup;
        let result = hook({ self }, dependencies);
        let done = match result {
            Ok(()) => Ok(()),
            Err(_) => {
                let name_of = SystemT::debug_name;
                Err(ErrorKind::System("setup", name_of()))
            },
        };
        assert(exists|g: &mut SystemT| *g == *system && #[trigger] call_ensures(<SystemT as System<'context>>::setup, (g, lent), result));
        done
    }

    fn raw_update(&mut self, context: &'context mut ContextT) -> (done: Result<()>) {
        let dependencies = <SystemT as System<'context>>::Dependencies::dependencies_from({ context });
        let ghost lent = dependencies;
        let ghost system = self;
        let hook = <SystemT as System<'context>>::update;
        let result = hook({ self }, dependencies);
        let done = match result {
            Ok(()) => Ok(()),
            Err(_) => {
                let name_of = SystemT::debug_name;
                Err(ErrorKind::System("update", name_of()))
            },
        };
        assert(exists|g: &mut SystemT| *g == *system && #[trigger] call_ensures(<SystemT as System<'context>>::update, (g, lent), result));
        done
    }

    fn raw_teardown(&mut self, context: &'context mut ContextT) -> (done: Result<()>) {
        let dependencies = <SystemT as System<'context>>::Dependencies::dependencies_from({ context });
        let ghost lent = dependencies;
        let ghost system = self;
        let hook = <SystemT as System<'context>>::teardown;
        let result = hook({ self }, dependencies);
        let done = match result {
            Ok(()) => Ok(()),
            Err(_) => {
                let name_of = SystemT::debug_name;
                Err(ErrorKind::System("teardown", name_of()))
            },
        };
        assert(exists|g: &mut SystemT| *g == *system && #[trigger] call_ensures(<SystemT as System<'context>>::teardown, (g, lent), result));
        done
    }

    fn raw_destroy(self, context: &'context mut ContextT) -> (done: Result<()>) {
        let dependencies = <SystemT as System<'context>>::Dependencies::dependencies_from({ context });
        let hook = <SystemT as System<'context>>::destroy;
        let result = hook(self, dependencies);
        match result {
            Ok(()) => Ok(()),
            Err(_) => {
                let name_of = SystemT::debug_name;
                Err(ErrorKind::System("destruction", name_of()))
            },
        }
    }
}

impl<'context, ContextT, IndicesT, SystemT> RawCreate<'context, ContextT, IndicesT> for SystemT where
    ContextT: 'context,
    SystemT: System<'context>,
    <SystemT as System<'context>>::Dependencies: DependenciesFrom<&'context mut ContextT, IndicesT>,
 {
    /// The system's own `create` ran once, on dependencies borrowed from the context as it
    /// was: what it created is handed on, and a failure becomes `System("creation", name)`
    /// under the name that `debug_name` gave.  What `create` left in the context through its
    /// dependencies is its own business.
    open spec fn created_by(context: ContextT, context_after: ContextT, created: Result<Self>) -> bool {
        exists|
            lender: &'context mut ContextT,
            dependencies: <SystemT as System<'context>>::Dependencies,
            result: Result<SystemT>,
        |
            #![trigger call_ensures(<SystemT as System<'context>>::create, (dependencies,), result), <<SystemT as System<'context>>::Dependencies as DependenciesFrom<&'context mut ContextT, IndicesT>>::lent_by(lender, dependencies)]
            <<SystemT as System<'context>>::Dependencies as DependenciesFrom<
                &'context mut ContextT,
                IndicesT,
            >>::lent_by(lender, dependencies) && *lender == context && call_ensures(
                <SystemT as System<'context>>::create,
                (dependencies,),
                result,
            ) && (result matches Ok(system) ==> created == Ok::<SystemT, ErrorKind>(system)) && (
            result is Err ==> exists|name: &'static str|
                #[trigger] call_ensures(SystemT::debug_name, (), name) && created == Err::<
                    SystemT,
                    ErrorKind,
                >(ErrorKind::System("creation", name)))
    }

    fn raw_create(context: &'context mut ContextT) -> (created: Result<Self>) {
        let dependencies = <SystemT as System<'context>>::Dependencies::dependencies_from({ context });
        let create = <SystemT as System<'context>>::create;
        let result = create(dependencies);
        match result {
            Ok(system) => Ok(system),
            Err(_) => {
                let name_of = SystemT::debug_name;
                Err(ErrorKind::System("creation", name_of()))
            },
        }
    }
}


} // verus!
