use vstd::prelude::*;

use crate::message::{is_plain_text, Doc, DocModel, Event, Message};

verus! {

/// Operation kind carried by a raw change-feed event. Kinds other than
/// insert, update and delete (schema and administrative events) are `Other`.
#[derive(Clone, Copy, PartialEq, Eq, Structural, Debug)]
pub enum OpKind {
    Insert,
    Update,
    Delete,
    Other,
}

/// The namespace a raw event reports: a database name and, when the source
/// supplies one, a collection name.
#[derive(Clone, Debug)]
pub struct RawNamespace {
    pub db: Vec<u8>,
    pub coll: Option<Vec<u8>>,
}

/// A raw change-feed event, reduced to the plain values the mapper reads.
#[derive(Clone, Debug)]
pub struct RawEvent {
    pub op: OpKind,
    pub ns: Option<RawNamespace>,
    pub key: Doc,
    pub full_doc: Option<Doc>,
}

impl RawEvent {
    /// A raw event whose payloads the wire format can carry. The source's
    /// lookup semantics guarantee a post-image for inserts and updates.
    pub open spec fn wf(self) -> bool {
        &&& self.key@.wf()
        &&& (self.full_doc matches Option::Some(d) ==> d@.wf())
        &&& (self.ns matches Option::Some(ns) ==> {
            &&& is_plain_text(ns.db@)
            &&& ns.db@.len() >= 1
            &&& (ns.coll matches Option::Some(c) ==> is_plain_text(c@) && c@.len() >= 1)
        })
        &&& ((self.op == OpKind::Insert || self.op == OpKind::Update) ==> self.full_doc is Some)
    }
}

/// Why a raw event could not be mapped. Both conditions are recoverable:
/// the consumption loop skips the event and continues.
#[derive(Clone, Copy, PartialEq, Eq, Structural, Debug)]
pub enum MappingError {
    /// The raw event carries no namespace at all.
    MissingNamespace,
    /// The namespace carries no collection name.
    MissingCollection,
}

/// The `Event` tag a data operation maps to (not defined for `Other`).
pub open spec fn event_of_op(op: OpKind) -> Event
    recommends
        op != OpKind::Other,
{
    match op {
        OpKind::Insert => Event::Insert,
        OpKind::Update => Event::Update,
        OpKind::Delete => Event::Delete,
        OpKind::Other => Event::Insert,
    }
}

/// The model of an optional document payload.
pub open spec fn opt_doc_model(d: Option<Doc>) -> Option<DocModel> {
    match d {
        Option::Some(doc) => Option::Some(doc@),
        Option::None => Option::None,
    }
}

/// Translate a raw change-feed event into a canonical message.
///
/// Administrative kinds are dropped (`Ok(None)`), a missing namespace or a
/// namespace without a collection is a recoverable mapping error, and a data
/// operation becomes a message with the matching tag, the event's namespace
/// and document key, and the post-image — absent for a delete. Pure: no side
/// effects.
pub fn map(ev: RawEvent) -> (r: Result<Option<Message>, MappingError>)
    ensures
        ev.op == OpKind::Other ==> r == Result::<Option<Message>, MappingError>::Ok(
            Option::<Message>::None,
        ),
        ev.op != OpKind::Other && ev.ns is None ==> r == Result::<
            Option<Message>,
            MappingError,
        >::Err(MappingError::MissingNamespace),
        ev.op != OpKind::Other && ev.ns is Some && ev.ns->Some_0.coll is None ==> r == Result::<
            Option<Message>,
            MappingError,
        >::Err(MappingError::MissingCollection),
        ev.op != OpKind::Other && ev.ns is Some && ev.ns->Some_0.coll is Some ==> (r matches
        Result::Ok(Option::Some(m))
            && m@.event == event_of_op(ev.op)
            && m@.db == ev.ns->Some_0.db@
            && m@.coll == ev.ns->Some_0.coll->Some_0@
            && m@.id == ev.key@
            && (ev.op == OpKind::Delete ==> m@.data is None)
            && (ev.op != OpKind::Delete ==> m@.data == opt_doc_model(ev.full_doc))),
        ev.wf() ==> (r matches Result::Ok(Option::Some(m)) ==> m.wf()),
{
    if ev.op == OpKind::Other {
        return Result::Ok(Option::None);
    }
    let event = match ev.op {
        OpKind::Insert => Event::Insert,
        OpKind::Update => Event::Update,
        _ => Event::Delete,
    };
    match ev.ns {
        Option::None => Result::Err(MappingError::MissingNamespace),
        Option::Some(ns) => match ns.coll {
            Option::None => Result::Err(MappingError::MissingCollection),
            Option::Some(coll) => {
                let data = if ev.op == OpKind::Delete {
                    Option::None
                } else {
                    ev.full_doc
                };
                Result::Ok(Option::Some(Message { event, db: ns.db, coll, id: ev.key, data }))
            },
        },
    }
}

} // verus!
