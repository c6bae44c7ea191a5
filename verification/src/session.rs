//! Open documents and the edit sessions over them, by handle.
//!
//! A session is only meaningful against the document it was suspended from, so
//! one slot holds both: it cannot be resumed against another file.

use std::collections::HashMap;
use vstd::prelude::*;

use crate::convert;
use crate::convert::Breaking;
use crate::convert::Failure;
use crate::convert::FailureModel;
use crate::convert::Fidelity;
use crate::convert::Overflow;
use crate::text;

verus! {

/// A suspended session, and whether it has been committed or rolled back.
#[derive(Debug)]
pub struct Parked<E> {
    pub state: E,
    pub closed: bool,
}

/// A document, and the edit session over it if one is open.
#[derive(Debug)]
pub struct Slot<D, E> {
    pub doc: D,
    pub session: Option<Parked<E>>,
}

/// Open documents, by handle.
pub struct Registry<D, E> {
    documents: HashMap<u32, Slot<D, E>>,
    next: u32,
}

/// Which documents are open, and the last handle that was given out.
#[verifier::ext_equal]
pub struct RegistryModel<D, E> {
    pub open: Map<u32, Slot<D, E>>,
    pub next: u32,
}

impl<D, E> RegistryModel<D, E> {
    /// Whether every open handle was given out.
    pub open spec fn valid(self) -> bool {
        forall|h: u32| #[trigger] self.open.dom().contains(h) ==> 1 <= h <= self.next
    }

    /// Whether another state can come after this one: no handle is given out
    /// twice, so one that was given out and is not open stays so.
    pub open spec fn before(self, later: RegistryModel<D, E>) -> bool {
        &&& self.next <= later.next
        &&& forall|h: u32|
            h <= self.next && #[trigger] later.open.dom().contains(h) ==> self.open.dom().contains(h)
    }

    /// The state with another slot in place of the one under a handle.
    pub open spec fn with(self, handle: u32, slot: Slot<D, E>) -> RegistryModel<D, E> {
        RegistryModel { open: self.open.insert(handle, slot), next: self.next }
    }
}

/// A handle that has been closed never comes to name a document again.
pub proof fn law_a_closed_handle_stays_closed<D, E>(
    now: RegistryModel<D, E>,
    later: RegistryModel<D, E>,
    last: RegistryModel<D, E>,
    handle: u32,
)
    requires
        now.before(later),
        later.before(last),
        handle <= now.next,
        !now.open.dom().contains(handle),
    ensures
        now.before(last),
        !last.open.dom().contains(handle),
{
    assert forall|h: u32| h <= now.next && #[trigger] last.open.dom().contains(h) implies now.open.dom().contains(
        h,
    ) by {
        assert(later.open.dom().contains(h));
    }
}

impl<D, E> View for Registry<D, E> {
    type V = RegistryModel<D, E>;

    closed spec fn view(&self) -> RegistryModel<D, E> {
        RegistryModel { open: self.documents@, next: self.next }
    }
}

/// The failure of a handle that names no document.
pub open spec fn missing_document(handle: u32) -> FailureModel {
    convert::failure(
        "stale-session"@,
        "document "@ + text::decimal_of(handle as nat) + " is closed or was never opened"@,
    )
}

/// The failure of a session that is over.
pub open spec fn session_over() -> FailureModel {
    convert::failure(
        "stale-session"@,
        "this edit session has been committed or rolled back"@,
    )
}

/// Say that a handle names no document.
pub fn missing(handle: u32) -> (r: Failure)
    ensures
        r@ == missing_document(handle),
{
    let mut message = text::copy("document ");
    text::append(&mut message, &text::decimal(handle as usize));
    text::append(&mut message, " is closed or was never opened");
    convert::err("stale-session", &message)
}

/// What a session is held to, for all of its operations.
#[derive(Debug, Clone, Copy, PartialEq, Eq, Structural)]
pub struct SessionOptions {
    pub require: Fidelity,
    pub breaking: Breaking,
    pub overflow: Overflow,
}

/// The settings that three words name. The first that is not known is reported.
pub open spec fn options_of(
    require: Option<Seq<char>>,
    breaking: Option<Seq<char>>,
    overflow: Option<Seq<char>>,
) -> Result<SessionOptions, FailureModel> {
    match convert::fidelity_of(require) {
        Err(e) => Err(e),
        Ok(require) => match convert::breaking_of(breaking) {
            Err(e) => Err(e),
            Ok(breaking) => match convert::overflow_of(overflow) {
                Err(e) => Err(e),
                Ok(overflow) => Ok(SessionOptions { require, breaking, overflow }),
            },
        },
    }
}

/// Read a session's settings.
pub fn session_options(
    require: Option<&str>,
    breaking: Option<&str>,
    overflow: Option<&str>,
) -> (r: Result<SessionOptions, Failure>)
    ensures
        convert::outcome_of(r) == options_of(
            convert::word(require),
            convert::word(breaking),
            convert::word(overflow),
        ),
{
    let require = match convert::fidelity_floor(require) {
        Ok(v) => v,
        Err(e) => return Err(e),
    };
    let breaking = match convert::breaking(breaking) {
        Ok(v) => v,
        Err(e) => return Err(e),
    };
    let overflow = match convert::overflow(overflow) {
        Ok(v) => v,
        Err(e) => return Err(e),
    };
    Ok(SessionOptions { require, breaking, overflow })
}

/// The state of a session, where there is one.
pub open spec fn state_of<E>(p: Option<Parked<E>>) -> Option<E> {
    match p {
        Some(p) => Some(p.state),
        None => None,
    }
}

/// Whether there is a session, and it is over.
pub open spec fn is_over<E>(p: Option<Parked<E>>) -> bool {
    p matches Some(p) && p.closed
}

impl<D, E> Registry<D, E> {
    /// A registry with nothing open.
    pub fn new() -> (r: Registry<D, E>)
        ensures
            r@.valid(),
            r@ == (RegistryModel::<D, E> { open: Map::empty(), next: 0 }),
    {
        Registry { documents: HashMap::new(), next: 0 }
    }

    /// Whether another document can be opened: the handles have not run out.
    pub fn has_room(&self) -> (r: bool)
        ensures
            r == (self@.next < u32::MAX),
    {
        self.next < u32::MAX
    }

    /// Open a document. Handles are never reused, so a stale one from a closed
    /// document is an error and not a reference to another file.
    pub fn insert(&mut self, doc: D) -> (handle: u32)
        requires
            old(self)@.valid(),
            old(self)@.next < u32::MAX,
        ensures
            final(self)@.valid(),
            old(self)@.before(final(self)@),
            handle == old(self)@.next + 1,
            !old(self)@.open.dom().contains(handle),
            final(self)@ == (RegistryModel::<D, E> {
                open: old(self)@.open.insert(handle, Slot { doc, session: None }),
                next: handle,
            }),
    {
        broadcast use vstd::std_specs::hash::group_hash_axioms;

        self.next = self.next + 1;
        let handle: u32 = self.next;
        self.documents.insert(handle, Slot { doc, session: None });
        handle
    }

    /// Close a document. Whether there was one to close is reported, so that
    /// closing twice is visible and harmless.
    pub fn close_document(&mut self, handle: u32) -> (r: bool)
        requires
            old(self)@.valid(),
        ensures
            final(self)@.valid(),
            old(self)@.before(final(self)@),
            r == old(self)@.open.dom().contains(handle),
            final(self)@ == (RegistryModel::<D, E> {
                open: old(self)@.open.remove(handle),
                next: old(self)@.next,
            }),
    {
        broadcast use vstd::std_specs::hash::group_hash_axioms;

        let gone = self.documents.remove(&handle);
        assert(self@.open =~= old(self)@.open.remove(handle));
        gone.is_some()
    }

    /// The document that a handle names.
    pub fn document(&self, handle: u32) -> (r: Result<&D, Failure>)
        ensures
            match r {
                Ok(doc) => self@.open.dom().contains(handle) && *doc == self@.open[handle].doc,
                Err(e) => !self@.open.dom().contains(handle) && e@ == missing_document(handle),
            },
    {
        broadcast use vstd::std_specs::hash::group_hash_axioms;

        match self.documents.get(&handle) {
            Some(slot) => Ok(&slot.doc),
            None => Err(missing(handle)),
        }
    }

    /// The session over a document, if there is one.
    pub fn session(&self, handle: u32) -> (r: Result<Option<&Parked<E>>, Failure>)
        ensures
            match r {
                Ok(s) => self@.open.dom().contains(handle) && match s {
                    Some(s) => self@.open[handle].session == Some(*s),
                    None => self@.open[handle].session is None,
                },
                Err(e) => !self@.open.dom().contains(handle) && e@ == missing_document(handle),
            },
    {
        broadcast use vstd::std_specs::hash::group_hash_axioms;

        match self.documents.get(&handle) {
            Some(slot) => match &slot.session {
                Some(s) => Ok(Some(s)),
                None => Ok(None),
            },
            None => Err(missing(handle)),
        }
    }

    /// Do something to a document, outside any session.
    ///
    /// The work is handed the document and hands it back with its result, which
    /// is passed on as it came.
    pub fn update<T, F: FnOnce(D) -> (D, Result<T, Failure>)>(
        &mut self,
        handle: u32,
        work: F,
    ) -> (r: Result<T, Failure>)
        requires
            old(self)@.valid(),
            forall|d: D| call_requires(work, (d,)),
        ensures
            final(self)@.valid(),
            old(self)@.before(final(self)@),
            !old(self)@.open.dom().contains(handle) ==> {
                &&& final(self)@ == old(self)@
                &&& r matches Err(e) && e@ == missing_document(handle)
            },
            old(self)@.open.dom().contains(handle) ==> exists|doc: D|
                {
                    &&& #[trigger] call_ensures(work, (old(self)@.open[handle].doc,), (doc, r))
                    &&& final(self)@ == old(self)@.with(
                        handle,
                        Slot { doc, session: old(self)@.open[handle].session },
                    )
                },
    {
        broadcast use vstd::std_specs::hash::group_hash_axioms;

        match self.documents.remove(&handle) {
            None => {
                assert(self@ =~= old(self)@);
                Err(missing(handle))
            },
            Some(slot) => {
                let (doc, result) = work(slot.doc);
                self.documents.insert(handle, Slot { doc, session: slot.session });
                assert(self@ =~= old(self)@.with(
                    handle,
                    Slot { doc, session: old(self)@.open[handle].session },
                ));
                result
            },
        }
    }

    /// Work in the session over a document, parking it again afterwards.
    ///
    /// The work is handed the document and the session's state, if there is one
    /// yet, and hands back the document, the state to park and its result. The
    /// state is parked whatever the result: a failed operation does not throw
    /// away the ones before it. A session that is over is refused and stays as
    /// it is.
    pub fn with_session<T, F: FnOnce(D, Option<E>) -> (D, Parked<E>, Result<T, Failure>)>(
        &mut self,
        handle: u32,
        work: F,
    ) -> (r: Result<T, Failure>)
        requires
            old(self)@.valid(),
            forall|d: D, s: Option<E>| call_requires(work, (d, s)),
        ensures
            final(self)@.valid(),
            old(self)@.before(final(self)@),
            !old(self)@.open.dom().contains(handle) ==> {
                &&& final(self)@ == old(self)@
                &&& r matches Err(e) && e@ == missing_document(handle)
            },
            old(self)@.open.dom().contains(handle) && is_over(old(self)@.open[handle].session) ==> {
                &&& final(self)@ == old(self)@
                &&& r matches Err(e) && e@ == session_over()
            },
            old(self)@.open.dom().contains(handle) && !is_over(old(self)@.open[handle].session)
                ==> exists|doc: D, parked: Parked<E>|
                {
                    &&& #[trigger] call_ensures(
                        work,
                        (old(self)@.open[handle].doc, state_of(old(self)@.open[handle].session)),
                        (doc, parked, r),
                    )
                    &&& final(self)@ == old(self)@.with(
                        handle,
                        Slot { doc, session: Some(parked) },
                    )
                },
    {
        broadcast use vstd::std_specs::hash::group_hash_axioms;

        match self.documents.remove(&handle) {
            None => {
                assert(self@ =~= old(self)@);
                Err(missing(handle))
            },
            Some(slot) => {
                let over = match &slot.session {
                    Some(p) => p.closed,
                    None => false,
                };
                if over {
                    self.documents.insert(handle, slot);
                    assert(self@ =~= old(self)@);
                    return Err(
                        convert::err(
                            "stale-session",
                            "this edit session has been committed or rolled back",
                        ),
                    );
                }
                let state = match slot.session {
                    Some(p) => Some(p.state),
                    None => None,
                };
                let (doc, parked, result) = work(slot.doc, state);
                self.documents.insert(handle, Slot { doc, session: Some(parked) });
                assert(self@ =~= old(self)@.with(handle, Slot { doc, session: Some(parked) }));
                result
            },
        }
    }

    /// Set what a session is held to.
    ///
    /// The work is handed the session's state, if there is one yet, with the
    /// settings, and hands back the state to park. Settings that are not known
    /// leave everything as it was.
    pub fn configure_session<F: FnOnce(Option<Parked<E>>, SessionOptions) -> Parked<E>>(
        &mut self,
        handle: u32,
        require: Option<&str>,
        breaking: Option<&str>,
        overflow: Option<&str>,
        work: F,
    ) -> (r: Result<(), Failure>)
        requires
            old(self)@.valid(),
            forall|s: Option<Parked<E>>, o: SessionOptions| call_requires(work, (s, o)),
        ensures
            final(self)@.valid(),
            old(self)@.before(final(self)@),
            ({
                let wanted = options_of(
                    convert::word(require),
                    convert::word(breaking),
                    convert::word(overflow),
                );
                match r {
                    Ok(()) => {
                        &&& old(self)@.open.dom().contains(handle)
                        &&& wanted is Ok
                        &&& exists|parked: Parked<E>|
                            {
                                &&& #[trigger] call_ensures(
                                    work,
                                    (old(self)@.open[handle].session, wanted->Ok_0),
                                    parked,
                                )
                                &&& final(self)@ == old(self)@.with(
                                    handle,
                                    Slot {
                                        doc: old(self)@.open[handle].doc,
                                        session: Some(parked),
                                    },
                                )
                            }
                    },
                    Err(e) => {
                        &&& final(self)@ == old(self)@
                        &&& if old(self)@.open.dom().contains(handle) {
                            wanted == Err::<SessionOptions, _>(e@)
                        } else {
                            e@ == missing_document(handle)
                        }
                    },
                }
            }),
    {
        broadcast use vstd::std_specs::hash::group_hash_axioms;

        if !self.documents.contains_key(&handle) {
            return Err(missing(handle));
        }
        let options = match session_options(require, breaking, overflow) {
            Ok(options) => options,
            Err(e) => return Err(e),
        };
        match self.documents.remove(&handle) {
            None => Err(missing(handle)),
            Some(slot) => {
                let parked = work(slot.session, options);
                self.documents.insert(handle, Slot { doc: slot.doc, session: Some(parked) });
                assert(self@ =~= old(self)@.with(
                    handle,
                    Slot { doc: old(self)@.open[handle].doc, session: Some(parked) },
                ));
                Ok(())
            },
        }
    }
}

/// The thing that an index names on a freshly read page.
pub open spec fn picked<T>(ids: Seq<T>, index: int, message: Seq<char>) -> Result<T, FailureModel> {
    if 0 <= index < ids.len() {
        Ok(ids[index])
    } else {
        Err(convert::failure("malformed"@, message))
    }
}

/// The paragraph that an index names. One out of range would otherwise address
/// something on another page.
pub fn paragraph_id<T: Copy>(ids: &Vec<T>, index: usize) -> (r: Result<T, Failure>)
    ensures
        convert::outcome_of(r) == picked(
            ids@,
            index as int,
            "no such paragraph on this page"@,
        ),
{
    if index < ids.len() {
        Ok(ids[index])
    } else {
        Err(convert::err("malformed", "no such paragraph on this page"))
    }
}

/// The image that an index names.
pub fn image_id<T: Copy>(ids: &Vec<T>, index: usize) -> (r: Result<T, Failure>)
    ensures
        convert::outcome_of(r) == picked(ids@, index as int, "no such image on this page"@),
{
    if index < ids.len() {
        Ok(ids[index])
    } else {
        Err(convert::err("malformed", "no such image on this page"))
    }
}

/// How a damaged file is opened.
#[derive(Debug, Clone, Copy, PartialEq, Eq, Structural)]
pub enum Recovery {
    /// Repaired where it has to be.
    Auto,
    Never,
}

/// Read how a damaged file is to be opened. Only one word forbids repair.
pub fn recovery(value: Option<&str>) -> (r: Recovery)
    ensures
        r == if convert::word(value) == Some("never"@) {
            Recovery::Never
        } else {
            Recovery::Auto
        },
{
    match value {
        Some(word) => if text::same(word, "never") {
            Recovery::Never
        } else {
            Recovery::Auto
        },
        None => Recovery::Auto,
    }
}

/// How many random bytes a protection takes.
pub const ENTROPY: usize = 32;

/// Check the random bytes that a caller supplies.
pub fn check_entropy(bytes: &[u8]) -> (r: Result<(), Failure>)
    ensures
        convert::outcome_of(r) == if bytes@.len() == ENTROPY {
            Ok(())
        } else {
            Err(convert::internal("entropy must be exactly 32 bytes"@))
        },
{
    if bytes.len() == ENTROPY {
        Ok(())
    } else {
        Err(convert::err("internal", "entropy must be exactly 32 bytes"))
    }
}

/// Whether the library uses threads. It does not.
pub fn is_threaded() -> (r: bool)
    ensures
        r == false,
{
    false
}

/// A session has the settings that its three words name, and is refused where
/// one of them is not known.
pub proof fn law_a_session_is_held_to_its_words(
    require: Option<Seq<char>>,
    breaking: Option<Seq<char>>,
    overflow: Option<Seq<char>>,
)
    ensures
        match options_of(require, breaking, overflow) {
            Ok(o) => {
                &&& o.require == Fidelity::Exact <==> require == Some("exact"@)
                &&& o.require == Fidelity::Reembedded <==> require == Some("reembedded"@)
                &&& o.require == Fidelity::Substituted <==> require == Some("substituted"@)
                &&& o.breaking == Breaking::KnuthPlass <==> breaking == Some("knuth-plass"@)
                &&& o.overflow == Overflow::Allow <==> overflow == Some("allow"@)
                &&& o.overflow == Overflow::Grow <==> overflow == Some("grow"@)
                &&& o.overflow == Overflow::Shrink <==> overflow == Some("shrink"@)
            },
            Err(_) => {
                ||| require is Some && require != Some("exact"@) && require != Some("reembedded"@)
                    && require != Some("substituted"@) && require != Some("overlaid"@)
                ||| breaking is Some && breaking != Some("greedy"@) && breaking != Some(
                    "knuth-plass"@,
                )
                ||| overflow is Some && overflow != Some("refuse"@) && overflow != Some("allow"@)
                    && overflow != Some("grow"@) && overflow != Some("shrink"@)
            },
        },
{
    convert::law_a_fidelity_is_named_by_its_word(require);
    convert::law_a_breaking_is_named_by_its_word(breaking);
    convert::law_an_overflow_is_named_by_its_word(overflow);
}

/// An index names the item that stands there, and nothing where the list ends.
pub proof fn law_an_index_names_its_item<T>(ids: Seq<T>, index: int, message: Seq<char>)
    requires
        0 <= index,
    ensures
        index < ids.len() ==> picked(ids, index, message) == Ok::<_, FailureModel>(ids[index]),
        index >= ids.len() ==> picked(ids, index, message) == Err::<T, _>(
            (FailureModel { code: "malformed"@, message, detail: None }),
        ),
{
}

/// The refusal of a handle says which: two handles are never refused in the
/// same words.
pub proof fn law_a_refusal_tells_the_handle(a: u32, b: u32)
    ensures
        missing_document(a).code == "stale-session"@,
        missing_document(a).message == missing_document(b).message ==> a == b,
{
    let x = text::decimal_of(a as nat);
    let y = text::decimal_of(b as nat);
    text::law_decimals_read_back(a as nat);
    text::law_decimals_read_back(b as nat);
    let head = "document "@;
    let tail = " is closed or was never opened"@;
    if missing_document(a).message == missing_document(b).message {
        let m = head + x + tail;
        let n = head + y + tail;
        assert(m == n);
        assert(m.len() == head.len() + x.len() + tail.len());
        assert(n.len() == head.len() + y.len() + tail.len());
        assert(m.subrange(head.len() as int, (head.len() + x.len()) as int) =~= x);
        assert(n.subrange(head.len() as int, (head.len() + y.len()) as int) =~= y);
    }
}

} // verus!
