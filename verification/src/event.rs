//! The event model: the versioned, timestamped unit of the durable log, and
//! the conversion from a parsed command into a domain payload.
//!
//! Only `New`, `Cancel` and `Yeet` commands are persisted; `Check` is
//! answered live and never becomes an event.

use crate::restaurant::{Item, ItemV};
use crate::toro::{Command, ParamV, Toro, ToroV};
use vstd::prelude::*;

verus! {

/// Version number of an event in the durable log; assigned by the store,
/// strictly increasing and gapless, starting at 1.
pub type EventVersion = u64;

/// The item list attached to a `New` or `Cancel` event.
#[derive(Debug, Clone)]
pub struct Payload {
    pub table_id: usize,
    pub items: Vec<Item>,
}

/// Mathematical image of a payload.
pub struct PayloadV {
    pub table_id: usize,
    pub items: Seq<ItemV>,
}

impl View for Payload {
    type V = PayloadV;

    open spec fn view(&self) -> PayloadV {
        PayloadV { table_id: self.table_id, items: self.items.deep_view() }
    }
}

impl Payload {
    /// A payload from its parts.
    pub fn new(table_id: usize, items: Vec<Item>) -> (r: Payload)
        ensures
            r@.table_id == table_id,
            r@.items == items.deep_view(),
    {
        Payload { table_id, items }
    }
}

/// A versioned, timestamped record of an accepted command.
#[derive(Debug, Clone)]
pub struct Event {
    pub version: EventVersion,
    pub command: Command,
    pub payload: Option<Payload>,
    pub created: u64,
}

/// Mathematical image of an event.
pub struct EventV {
    pub version: u64,
    pub command: Command,
    pub payload: Option<PayloadV>,
    pub created: u64,
}

impl View for Event {
    type V = EventV;

    open spec fn view(&self) -> EventV {
        EventV {
            version: self.version,
            command: self.command,
            payload: match self.payload {
                Some(p) => Some(p@),
                None => None,
            },
            created: self.created,
        }
    }
}

impl DeepView for Event {
    type V = EventV;

    open spec fn deep_view(&self) -> EventV {
        self.view()
    }
}

/// Why a command could not become an event.
#[derive(Debug, Clone, Copy, PartialEq, Eq, Structural)]
pub enum EventError {
    /// `new order` and `cancel` events need a table id.
    MissingTableId,
    /// `new order` and `cancel` events need quantity-form parameters.
    BadParam,
    /// `check` commands are never persisted.
    NotPersistable,
}

/// The items of a `New`/`Cancel` payload: one item per quantity entry, the
/// quantity taken verbatim, no cooking time, the event's timestamp.
pub open spec fn payload_items(v: Seq<(Seq<char>, i64)>, timestamp: u64) -> Seq<ItemV> {
    v.map(
        |i: int, mq: (Seq<char>, i64)|
            ItemV { id: mq.0, quantity: mq.1, cooking_time: None, timestamp },
    )
}

/// Reading of a parsed command into an event: `Yeet` carries no payload;
/// `New` and `Cancel` need a table id and quantity-form parameters; `Check`
/// is refused.
pub open spec fn spec_from_toro(t: ToroV, version: u64, timestamp: u64) -> Result<
    EventV,
    EventError,
> {
    match t.command {
        Command::Yeet => Ok(
            EventV { version, command: Command::Yeet, payload: None, created: timestamp },
        ),
        Command::New | Command::Cancel => match t.table_id {
            None => Err(EventError::MissingTableId),
            Some(tid) => match t.param {
                Some(ParamV::MenuQuantities(v)) => Ok(
                    EventV {
                        version,
                        command: t.command,
                        payload: Some(
                            PayloadV { table_id: tid, items: payload_items(v, timestamp) },
                        ),
                        created: timestamp,
                    },
                ),
                _ => Err(EventError::BadParam),
            },
        },
        Command::Check => Err(EventError::NotPersistable),
    }
}

impl Event {
    /// An event with no payload yet.
    pub fn new(version: u64, command: Command, time: u64) -> (r: Event)
        ensures
            r@.version == version,
            r@.command == command,
            r@.payload is None,
            r@.created == time,
    {
        Event { version, command, payload: None, created: time }
    }

    /// The same event carrying the given payload.
    pub fn with_payload(self, payload: Payload) -> (r: Event)
        ensures
            r@.version == self@.version,
            r@.command == self@.command,
            r@.payload == Some(payload@),
            r@.created == self@.created,
    {
        Event { payload: Some(payload), ..self }
    }

    /// Converts a parsed command into an event, exactly as `spec_from_toro`
    /// reads it; fails for `check` and for commands without the parts an
    /// event needs.
    pub fn from_toro(toro: &Toro, version: u64, timestamp: u64) -> (r: Result<Event, EventError>)
        ensures
            match r {
                Ok(e) => spec_from_toro(toro@, version, timestamp) == Ok::<EventV, EventError>(e@),
                Err(err) => spec_from_toro(toro@, version, timestamp) == Err::<EventV, EventError>(
                    err,
                ),
            },
    {
        match toro.command {
            Command::Yeet => Ok(Event::new(version, Command::Yeet, timestamp)),
            Command::Check => Err(EventError::NotPersistable),
            Command::New | Command::Cancel => {
                let tid = match toro.table_id {
                    None => {
                        return Err(EventError::MissingTableId);
                    },
                    Some(t) => t,
                };
                match &toro.param {
                    Some(crate::toro::Param::MenuQuantities(v)) => {
                        let ghost quants = crate::toro::quants_view(v@);
                        let mut items: Vec<Item> = Vec::new();
                        let mut i: usize = 0;
                        while i < v.len()
                            invariant
                                i <= v@.len(),
                                quants == crate::toro::quants_view(v@),
                                items@.len() == i,
                                forall|j: int|
                                    0 <= j < i ==> #[trigger] items.deep_view()[j]
                                        == payload_items(quants, timestamp)[j],
                            decreases v@.len() - i,
                        {
                            let ghost snap = items.deep_view();
                            let name = v[i].0.clone();
                            let q = v[i].1;
                            proof {
                                assert(name@ == v@[i as int].0@);
                            }
                            items.push(Item::new(name, q, timestamp));
                            proof {
                                assert forall|j: int| 0 <= j < i + 1 implies #[trigger] items
                                    .deep_view()[j] == payload_items(quants, timestamp)[j] by {
                                    if j < i {
                                        assert(items.deep_view()[j] == snap[j]);
                                    } else {
                                        assert(items.deep_view()[j] == items@[j]@);
                                        assert(quants[j] == (v@[j].0@, v@[j].1));
                                    }
                                }
                            }
                            i = i + 1;
                        }
                        proof {
                            assert(items.deep_view() =~= payload_items(quants, timestamp));
                        }
                        Ok(
                            Event::new(version, toro.command, timestamp).with_payload(
                                Payload::new(tid, items),
                            ),
                        )
                    },
                    _ => Err(EventError::BadParam),
                }
            },
        }
    }
}

} // verus!
