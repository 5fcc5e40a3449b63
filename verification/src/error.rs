//! Diagnostics collected while compiling.
use crate::arena::{
    is_default, lemma_default_option, lemma_world_space, lemma_stored_at_frame, Arena, Id, World,
};
use crate::file::lemma_default_string_empty;
use crate::lexer::Location;
use vstd::prelude::*;

verus! {

/// The phase of the compiler that reported an error.
#[derive(Clone, Copy, Debug, PartialEq, Eq, Structural)]
pub enum ErrorKind {
    Io,
    Lex,
    Parse,
    Resolve,
    Type,
    Unknown,
}

impl Default for ErrorKind {
    fn default() -> (r: Self)
        ensures
            r == ErrorKind::Unknown,
    {
        ErrorKind::Unknown
    }
}

/// Marks ids, worlds and arenas that belong to [`Errors`].
#[derive(Debug)]
pub struct ErrorMarker;

/// The errors reported so far, each with a kind, a message, an optional location
/// and an optional error that it is the cause of.
pub struct Errors {
    pub ids: World<ErrorMarker>,
    pub kinds: Arena<ErrorMarker, ErrorKind>,
    pub messages: Arena<ErrorMarker, String>,
    pub locations: Arena<ErrorMarker, Option<Location>>,
    pub causes: Arena<ErrorMarker, Option<ErrorId>>,
    pub is_root: Arena<ErrorMarker, bool>,
}

/// The identifier of an error.
pub type ErrorId = Id<ErrorMarker>;

impl Errors {
    /// The error list's internal consistency.
    pub open spec fn wf(&self) -> bool {
        &&& self.ids.wf()
        &&& self.kinds.wf()
        &&& self.messages.wf()
        &&& self.locations.wf()
        &&& self.causes.wf()
        &&& self.is_root.wf()
        &&& forall|i: nat| i >= self.count() ==> #[trigger] self.location_of(i) is None && self.cause_of(i) is None
    }

    /// The number of errors reported so far.
    pub open spec fn count(&self) -> nat {
        self.ids.allocated()
    }

    /// Whether `k` more errors can be reported.
    pub open spec fn has_room_for(&self, k: nat) -> bool {
        self.count() + k <= 4294967295
    }

    /// The kind of error `i`.
    pub open spec fn kind_of(&self, i: nat) -> ErrorKind {
        self.kinds.value_at(i)
    }

    /// The message of error `i`.
    pub open spec fn message_of(&self, i: nat) -> Seq<char> {
        self.messages.value_at(i)@
    }

    /// The location of error `i`.
    pub open spec fn location_of(&self, i: nat) -> Option<Location> {
        self.locations.value_at(i)
    }

    /// The error that caused error `i`, if any.
    pub open spec fn cause_of(&self, i: nat) -> Option<ErrorId> {
        self.causes.value_at(i)
    }

    /// `self` is `old` with error `old.count()` reported: of kind `kind`, with
    /// message `message`, no location and no link to another error; the errors
    /// reported before are kept as they were.
    pub open spec fn logged(old: Errors, new: Errors, kind: ErrorKind, message: Seq<char>) -> bool {
        &&& new.wf()
        &&& new.count() == old.count() + 1
        &&& new.kind_of(old.count()) == kind
        &&& new.message_of(old.count()) == message
        &&& new.location_of(old.count()) == old.location_of(old.count())
        &&& new.cause_of(old.count()) == old.cause_of(old.count())
        &&& Errors::same_before(old, new, old.count())
    }

    /// Errors `0..n` read the same in `old` and `new`.
    pub open spec fn same_before(old: Errors, new: Errors, n: nat) -> bool {
        forall|i: nat|
            i < n ==> new.kind_of(i) == old.kind_of(i) && new.message_of(i) == old.message_of(i)
                && new.location_of(i) == old.location_of(i) && new.cause_of(i) == old.cause_of(i)
    }

    /// `new` only adds errors to `old`: every error of `old` reads the same in `new`.
    pub open spec fn extends(old: Errors, new: Errors) -> bool {
        &&& new.wf()
        &&& new.count() >= old.count()
        &&& Errors::same_before(old, new, old.count())
    }

    /// Constructs an empty error list.
    pub fn new() -> (r: Self)
        ensures
            r.wf(),
            r.count() == 0,
            forall|i: nat| r.location_of(i) is None && r.cause_of(i) is None,
    {
        Errors {
            ids: World::new(),
            kinds: Arena::new(),
            messages: Arena::new(),
            locations: Arena::new(),
            causes: Arena::new(),
            is_root: Arena::new(),
        }
    }

    /// Reports a new error of the given kind and message, and returns a handle
    /// through which a location and related errors can be attached.
    pub fn log(&mut self, kind: ErrorKind, message: String) -> (r: ErrorRef<'_>)
        requires
            old(self).wf(),
            old(self).has_room_for(1),
        ensures
            Errors::logged(*old(self), *r.errors, kind, message@),
            r.errors.locations == old(self).locations,
            r.errors.causes == old(self).causes,
            r.errors.is_root == old(self).is_root,
            r.id@ == old(self).count(),
            *final(r.errors) == *final(self),
    {
        proof {
            lemma_world_space(self.ids);
        }
        let id = self.ids.allocate();
        let ghost old_kinds = self.kinds;
        let ghost old_messages = self.messages;
        let id = id.put(&mut self.kinds, kind);
        let id = id.put(&mut self.messages, message);
        proof {
            assert forall|i: nat| i < old(self).count() implies self.kind_of(i) == old(
                self,
            ).kind_of(i) && self.message_of(i) == old(self).message_of(i) by {
                lemma_stored_at_frame(old_kinds, self.kinds, id@, kind, i);
                lemma_stored_at_frame(old_messages, self.messages, id@, message, i);
                lemma_default_error_kind(self.kind_of(i));
                lemma_default_error_kind(old(self).kind_of(i));
                lemma_default_string_empty(self.messages.value_at(i));
                lemma_default_string_empty(old(self).messages.value_at(i));
            }
            assert forall|i: nat| i >= self.count() implies #[trigger] self.location_of(i) is None && self.cause_of(i)
                is None by {
                assert(old(self).location_of(i) is None);
            }
        }
        ErrorRef { id, errors: self }
    }

    /// Whether one more error can be reported.
    pub fn has_room(&self) -> (r: bool)
        ensures
            r == self.has_room_for(1),
    {
        self.ids.num_allocs() < 4294967295
    }

    /// Whether any error was reported.
    pub fn has_errors(&self) -> (r: bool)
        ensures
            r == (self.count() > 0),
    {
        self.ids.num_allocs() > 0
    }

    /// Marks as roots the errors that did not cause another: afterwards error `i`
    /// is a root exactly when no error names it as its cause.
    pub fn compute_roots(&mut self)
        requires
            old(self).wf(),
        ensures
            final(self).wf(),
            final(self).ids == old(self).ids,
            final(self).kinds == old(self).kinds,
            final(self).messages == old(self).messages,
            final(self).locations == old(self).locations,
            final(self).causes == old(self).causes,
            forall|i: nat|
                i < old(self).count() ==> final(self).is_root.value_at(i) == !exists|j: nat|
                    j < old(self).count() && #[trigger] caused(*old(self), j, i),
    {
        let ids = self.ids.iter();
        let n = ids.len();
        let mut k: usize = 0;
        while k < n
            invariant
                self.wf(),
                n == ids@.len(),
                n == old(self).count(),
                forall|q: int| 0 <= q < n ==> (#[trigger] ids@[q])@ == q,
                self.ids == old(self).ids,
                self.kinds == old(self).kinds,
                self.messages == old(self).messages,
                self.locations == old(self).locations,
                self.causes == old(self).causes,
                k <= n,
                self.is_root.slots().len() >= k,
                forall|i: int| 0 <= i < k ==> self.is_root.slots()[i],
            decreases n - k,
        {
            let err = ids[k];
            let ghost before = self.is_root.slots();
            let ghost s = *self;
            err.put(&mut self.is_root, true);
            proof {
                assert forall|i: nat| i >= self.count() implies #[trigger] self.location_of(i) is None
                    && self.cause_of(i) is None by {
                    assert(s.location_of(i) is None);
                }
            }
            k = k + 1;
        }
        let mut k: usize = 0;
        while k < n
            invariant
                self.wf(),
                n == ids@.len(),
                n == old(self).count(),
                forall|q: int| 0 <= q < n ==> (#[trigger] ids@[q])@ == q,
                self.ids == old(self).ids,
                self.kinds == old(self).kinds,
                self.messages == old(self).messages,
                self.locations == old(self).locations,
                self.causes == old(self).causes,
                k <= n,
                self.is_root.slots().len() >= n,
                forall|i: nat|
                    i < n ==> self.is_root.slots()[i as int] == !exists|j: nat|
                        j < k && #[trigger] caused(*old(self), j, i),
            decreases n - k,
        {
            let err = ids[k];
            let cause = *err.get(&self.causes);
            let ghost before = self.is_root.slots();
            let ghost s = *self;
            if let Some(c) = cause {
                c.put(&mut self.is_root, false);
            }
            proof {
                assert forall|i: nat| i >= self.count() implies #[trigger] self.location_of(i) is None
                    && self.cause_of(i) is None by {
                    assert(s.location_of(i) is None);
                }
            }
            assert forall|i: nat| i < n implies self.is_root.slots()[i as int] == !exists|j: nat|
                j < k + 1 && #[trigger] caused(*old(self), j, i) by {
                if !caused(*old(self), k as nat, i) {
                    if exists|j: nat| j < k + 1 && #[trigger] caused(*old(self), j, i) {
                        let j = choose|j: nat| j < k + 1 && #[trigger] caused(*old(self), j, i);
                        assert(j < k);
                    }
                }
            }
            k = k + 1;
        }
        proof {
            assert forall|i: nat| i < old(self).count() implies self.is_root.value_at(i) == !exists|
                j: nat,
            | j < old(self).count() && #[trigger] caused(*old(self), j, i) by {
                assert(self.is_root.value_at(i) == self.is_root.slots()[i as int]);
            }
        }
    }
}

impl Default for Errors {
    fn default() -> (r: Self)
        ensures
            r.wf(),
            r.count() == 0,
            forall|i: nat| r.location_of(i) is None && r.cause_of(i) is None,
    {
        Errors::new()
    }
}

/// Whether error `j` names error `i` as its cause.
pub open spec fn caused(errors: Errors, j: nat, i: nat) -> bool {
    errors.cause_of(j) matches Some(c) && c@ == i
}

/// A default error kind is `Unknown`.
pub proof fn lemma_default_error_kind(k: ErrorKind)
    ensures
        is_default(k) ==> k == ErrorKind::Unknown,
{
}

/// A handle on one error of an error list, through which a location and related
/// errors can be attached.
pub struct ErrorRef<'a> {
    pub id: ErrorId,
    pub errors: &'a mut Errors,
}

impl<'a> ErrorRef<'a> {
    /// Attaches a location to this error.
    pub fn location(self, location: Location) -> (r: Self)
        requires
            self.errors.wf(),
            self.id@ < self.errors.count(),
        ensures
            r.id == self.id,
            r.errors.wf(),
            r.errors.count() == old(self.errors).count(),
            r.errors.location_of(self.id@) == Some(location),
            forall|i: nat| i != self.id@ ==> r.errors.location_of(i) == old(self.errors).location_of(i),
            r.errors.ids == old(self.errors).ids,
            r.errors.kinds == old(self.errors).kinds,
            r.errors.messages == old(self.errors).messages,
            r.errors.causes == old(self.errors).causes,
            *final(r.errors) == *final(self.errors),
    {
        let ghost before = self.errors.locations;
        self.id.put(&mut self.errors.locations, Some(location));
        proof {
            assert forall|i: nat| i != self.id@ implies self.errors.location_of(i) == before.value_at(i) by {
                lemma_stored_at_frame(before, self.errors.locations, self.id@, Some(location), i);
                lemma_default_option(self.errors.location_of(i));
                lemma_default_option(before.value_at(i));
            }
            assert forall|i: nat| i >= self.errors.count() implies #[trigger] self.errors.location_of(i) is None
                && self.errors.cause_of(i) is None by {
                assert(self.errors.location_of(i) == before.value_at(i));
                assert(old(self.errors).location_of(i) is None);
            }
        }
        self
    }

    /// Attaches a location to this error, if there is one.
    pub fn location_opt(self, location: Option<Location>) -> (r: Self)
        requires
            self.errors.wf(),
            self.id@ < self.errors.count(),
        ensures
            r.id == self.id,
            r.errors.wf(),
            r.errors.count() == old(self.errors).count(),
            location is Some ==> r.errors.location_of(self.id@) == location,
            location is None ==> *r.errors == *old(self.errors),
            forall|i: nat| i != self.id@ ==> r.errors.location_of(i) == old(self.errors).location_of(i),
            r.errors.ids == old(self.errors).ids,
            r.errors.kinds == old(self.errors).kinds,
            r.errors.messages == old(self.errors).messages,
            r.errors.causes == old(self.errors).causes,
            *final(r.errors) == *final(self.errors),
    {
        if let Some(location) = location {
            self.location(location)
        } else {
            self
        }
    }

    /// Reports a new error that was caused by this one, and returns a handle on it.
    pub fn caused_by(self, kind: ErrorKind, message: String) -> (r: Self)
        requires
            self.errors.wf(),
            self.errors.has_room_for(1),
        ensures
            r.errors.wf(),
            r.id@ == old(self.errors).count(),
            r.errors.count() == old(self.errors).count() + 1,
            r.errors.kind_of(r.id@) == kind,
            r.errors.message_of(r.id@) == message@,
            r.errors.cause_of(r.id@) == Some(self.id),
            r.errors.location_of(r.id@) is None,
            r.errors.locations == old(self.errors).locations,
            Errors::same_before(*old(self.errors), *r.errors, old(self.errors).count()),
            *final(r.errors) == *final(self.errors),
    {
        let ErrorRef { id: me, errors } = self;
        let id = errors.log(kind, message).id;
        let ghost mid = *errors;
        let ghost before = errors.causes;
        id.put(&mut errors.causes, Some(me));
        proof {
            assert forall|i: nat| i != id@ implies errors.cause_of(i) == before.value_at(i) by {
                lemma_stored_at_frame(before, errors.causes, id@, Some(me), i);
                lemma_default_option(errors.cause_of(i));
                lemma_default_option(before.value_at(i));
            }
            assert(old(self.errors).location_of(id@) is None);
            assert forall|i: nat| i >= errors.count() implies #[trigger] errors.location_of(i) is None
                && errors.cause_of(i) is None by {
                assert(errors.cause_of(i) == before.value_at(i));
                assert(mid.cause_of(i) is None && mid.location_of(i) is None);
            }
        }
        ErrorRef { errors, id }
    }

    /// Reports a new error that caused this one, and returns a handle on it.
    pub fn cause_of(self, kind: ErrorKind, message: String) -> (r: Self)
        requires
            self.errors.wf(),
            self.errors.has_room_for(1),
            self.id@ < self.errors.count(),
        ensures
            r.errors.wf(),
            r.id@ == old(self.errors).count(),
            r.errors.count() == old(self.errors).count() + 1,
            r.errors.kind_of(r.id@) == kind,
            r.errors.message_of(r.id@) == message@,
            r.errors.cause_of(self.id@) == Some(r.id),
            r.errors.cause_of(r.id@) == old(self.errors).cause_of(r.id@),
            forall|i: nat|
                i < old(self.errors).count() && i != self.id@ ==> r.errors.cause_of(i) == old(
                    self.errors,
                ).cause_of(i),
            forall|i: nat|
                i < old(self.errors).count() ==> r.errors.kind_of(i) == old(self.errors).kind_of(i)
                    && r.errors.message_of(i) == old(self.errors).message_of(i)
                    && r.errors.location_of(i) == old(self.errors).location_of(i),
            *final(r.errors) == *final(self.errors),
    {
        let ErrorRef { id: me, errors } = self;
        let id = errors.log(kind, message).id;
        let ghost mid = *errors;
        let ghost before = errors.causes;
        me.put(&mut errors.causes, Some(id));
        proof {
            assert forall|i: nat| i != me@ implies errors.cause_of(i) == before.value_at(i) by {
                lemma_stored_at_frame(before, errors.causes, me@, Some(id), i);
                lemma_default_option(errors.cause_of(i));
                lemma_default_option(before.value_at(i));
            }
            assert forall|i: nat| i >= errors.count() implies #[trigger] errors.location_of(i) is None
                && errors.cause_of(i) is None by {
                assert(errors.cause_of(i) == before.value_at(i));
                assert(mid.cause_of(i) is None && mid.location_of(i) is None);
            }
        }
        ErrorRef { errors, id }
    }
}

} // verus!
