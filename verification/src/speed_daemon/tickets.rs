//! Sightings and the tickets that follow from them.
//!
//! Every sighting is kept, per plate and road, in the order of its
//! timestamp.  A new sighting is paired with each earlier-recorded sighting
//! of the same plate on the same road; a pair whose average speed is too
//! high yields a ticket unless the plate already holds a ticket for one of
//! the days that the pair covers.
//!
//! # The speed rule
//!
//! The average speed of a pair is the distance between its mile markers
//! divided by the time between its timestamps.  A pair is over the limit
//! when that speed, rounded to the nearest mile per hour (halves upwards),
//! is above the limit: that is, when the speed is at least half a mile per
//! hour more than the limit.  The speed written on a ticket is the average
//! speed in hundredths of a mile per hour, rounded down, and no more than
//! the 65535 that the field can hold.  All of this is computed in integers.

use crate::speed_daemon::codec::{ServerMessage, ServerToClientMessage};
use vstd::prelude::*;

verus! {

/// The number of seconds in a day.
pub const SECONDS_PER_DAY: u32 = 86400;

/// The largest speed, in hundredths of a mile per hour, that a ticket can
/// state.
pub const MAX_TICKET_SPEED: u16 = 65535;

/// One report of a camera: `plate` passed `mile` of `road` at `timestamp`,
/// where the limit is `limit` miles per hour.
#[derive(Debug, Clone, PartialEq, Eq)]
pub struct Sighting {
    pub plate: String,
    pub road: u16,
    pub mile: u16,
    pub timestamp: u32,
    pub limit: u16,
}

/// What is kept of a sighting once it is filed under its plate and road.
#[derive(Debug, Clone, Copy, PartialEq, Eq, Structural)]
pub struct Observation {
    pub timestamp: u32,
    pub mile: u16,
    pub limit: u16,
}

/// A speeding ticket: `plate` went from `mile1` at `timestamp1` to `mile2`
/// at `timestamp2` on `road`, at `speed` hundredths of a mile per hour.
#[derive(Debug, Clone, PartialEq, Eq)]
pub struct Ticket {
    pub plate: String,
    pub road: u16,
    pub mile1: u16,
    pub timestamp1: u32,
    pub mile2: u16,
    pub timestamp2: u32,
    pub speed: u16,
}

/// The mathematical value of a [`Sighting`].
pub struct SightingView {
    pub plate: Seq<char>,
    pub road: u16,
    pub mile: u16,
    pub timestamp: u32,
    pub limit: u16,
}

/// The mathematical value of a [`Ticket`].
pub struct TicketView {
    pub plate: Seq<char>,
    pub road: u16,
    pub mile1: u16,
    pub timestamp1: u32,
    pub mile2: u16,
    pub timestamp2: u32,
    pub speed: u16,
}

impl View for Sighting {
    type V = SightingView;

    open spec fn view(&self) -> SightingView {
        SightingView {
            plate: self.plate@,
            road: self.road,
            mile: self.mile,
            timestamp: self.timestamp,
            limit: self.limit,
        }
    }
}

impl View for Ticket {
    type V = TicketView;

    open spec fn view(&self) -> TicketView {
        TicketView {
            plate: self.plate@,
            road: self.road,
            mile1: self.mile1,
            timestamp1: self.timestamp1,
            mile2: self.mile2,
            timestamp2: self.timestamp2,
            speed: self.speed,
        }
    }
}

/// The message that tells a dispatcher of `ticket`.
pub open spec fn ticket_message(ticket: TicketView) -> ServerMessage {
    ServerMessage::Ticket {
        plate: ticket.plate,
        road: ticket.road,
        mile1: ticket.mile1,
        timestamp1: ticket.timestamp1,
        mile2: ticket.mile2,
        timestamp2: ticket.timestamp2,
        speed: ticket.speed,
    }
}

/// The ticket that `message` tells of, if it tells of one.
pub open spec fn message_ticket(message: ServerMessage) -> Option<TicketView> {
    match message {
        ServerMessage::Ticket { plate, road, mile1, timestamp1, mile2, timestamp2, speed } => Some(
            TicketView { plate, road, mile1, timestamp1, mile2, timestamp2, speed },
        ),
        _ => None,
    }
}

impl Ticket {
    /// The ticket that `message` tells of, if it tells of one.
    pub fn from_message(message: &ServerToClientMessage) -> (ticket: Option<Ticket>)
        ensures
            ticket_view(ticket) == message_ticket(message@),
    {
        match message {
            ServerToClientMessage::Ticket {
                plate,
                road,
                mile1,
                timestamp1,
                mile2,
                timestamp2,
                speed,
            } => Some(
                Ticket {
                    plate: plate.clone(),
                    road: *road,
                    mile1: *mile1,
                    timestamp1: *timestamp1,
                    mile2: *mile2,
                    timestamp2: *timestamp2,
                    speed: *speed,
                },
            ),
            _ => None,
        }
    }

    /// A copy of this ticket.
    pub fn duplicate(&self) -> (copy: Ticket)
        ensures
            copy@ == self@,
    {
        Ticket {
            plate: self.plate.clone(),
            road: self.road,
            mile1: self.mile1,
            timestamp1: self.timestamp1,
            mile2: self.mile2,
            timestamp2: self.timestamp2,
            speed: self.speed,
        }
    }

    /// The message that tells a dispatcher of this ticket.
    pub fn to_message(&self) -> (message: ServerToClientMessage)
        ensures
            message@ == ticket_message(self@),
    {
        ServerToClientMessage::Ticket {
            plate: self.plate.clone(),
            road: self.road,
            mile1: self.mile1,
            timestamp1: self.timestamp1,
            mile2: self.mile2,
            timestamp2: self.timestamp2,
            speed: self.speed,
        }
    }
}

/// The calendar day, counted from the epoch, that a timestamp falls on.
pub open spec fn day_of(timestamp: u32) -> int {
    timestamp as int / 86400
}

/// The miles between two mile markers.
pub open spec fn miles_between(a: u16, b: u16) -> int {
    if a <= b {
        b - a
    } else {
        a - b
    }
}

/// The average speed, in hundredths of a mile per hour and rounded down, of
/// `miles` covered in `seconds`.
pub open spec fn speed_hundredths(miles: int, seconds: int) -> int
    recommends
        seconds > 0,
{
    miles * 360_000 / seconds
}

/// Whether `miles` covered in `seconds` is over `limit`: the average speed
/// is at least `limit` plus a half.  No speed comes of no time.
pub open spec fn over_limit(miles: int, seconds: int, limit: u16) -> bool {
    seconds > 0 && miles * 7200 >= (2 * limit + 1) * seconds
}

/// The speed that a ticket states for `miles` covered in `seconds`.
pub open spec fn ticket_speed(miles: int, seconds: int) -> u16
    recommends
        seconds > 0,
{
    if speed_hundredths(miles, seconds) >= MAX_TICKET_SPEED {
        MAX_TICKET_SPEED
    } else {
        speed_hundredths(miles, seconds) as u16
    }
}

/// The ticket that two observations of `plate` on `road` would make, the
/// earlier one first.
pub open spec fn pair_ticket(plate: Seq<char>, road: u16, a: Observation, b: Observation) -> TicketView {
    let (first, second) = if a.timestamp <= b.timestamp {
        (a, b)
    } else {
        (b, a)
    };
    TicketView {
        plate,
        road,
        mile1: first.mile,
        timestamp1: first.timestamp,
        mile2: second.mile,
        timestamp2: second.timestamp,
        speed: ticket_speed(
            miles_between(first.mile, second.mile),
            second.timestamp - first.timestamp,
        ),
    }
}

/// Whether two observations are a pair over `limit`.
pub open spec fn pair_over_limit(a: Observation, b: Observation, limit: u16) -> bool {
    over_limit(
        miles_between(a.mile, b.mile),
        if a.timestamp <= b.timestamp {
            b.timestamp - a.timestamp
        } else {
            a.timestamp - b.timestamp
        },
        limit,
    )
}

/// The calendar day that `timestamp` falls on.
pub fn day(timestamp: u32) -> (d: u32)
    ensures
        d == day_of(timestamp),
{
    timestamp / SECONDS_PER_DAY
}

/// Whether covering the stretch between two mile markers in `seconds` is
/// over `limit`.
pub fn is_over_limit(mile_a: u16, mile_b: u16, seconds: u32, limit: u16) -> (over: bool)
    ensures
        over == over_limit(miles_between(mile_a, mile_b), seconds as int, limit),
{
    if seconds == 0 {
        return false;
    }
    let miles: u64 = if mile_a <= mile_b {
        (mile_b - mile_a) as u64
    } else {
        (mile_a - mile_b) as u64
    };
    let threshold: u64 = 2 * (limit as u64) + 1;
    assert(threshold * (seconds as u64) <= 131071 * 0xffff_ffff) by (nonlinear_arith)
        requires
            threshold <= 131071,
            seconds <= 0xffff_ffff,
    ;
    miles * 7200 >= threshold * (seconds as u64)
}

/// The speed that a ticket states for the stretch between two mile markers
/// covered in `seconds`.
pub fn speed_on_ticket(mile_a: u16, mile_b: u16, seconds: u32) -> (speed: u16)
    requires
        seconds > 0,
    ensures
        speed == ticket_speed(miles_between(mile_a, mile_b), seconds as int),
{
    let miles: u64 = if mile_a <= mile_b {
        (mile_b - mile_a) as u64
    } else {
        (mile_a - mile_b) as u64
    };
    let hundredths: u64 = miles * 360_000 / (seconds as u64);
    if hundredths >= MAX_TICKET_SPEED as u64 {
        MAX_TICKET_SPEED
    } else {
        hundredths as u16
    }
}

/// The days that a ticket covers, as the engine keeps them.
struct TicketedSpan {
    plate: String,
    road: u16,
    first_day: u32,
    last_day: u32,
}

/// The days that a ticket covers for its plate, from the first to the last,
/// and the road that the ticket is for.
pub struct SpanView {
    pub plate: Seq<char>,
    pub road: u16,
    pub first_day: u32,
    pub last_day: u32,
}

impl View for TicketedSpan {
    type V = SpanView;

    closed spec fn view(&self) -> SpanView {
        SpanView {
            plate: self.plate@,
            road: self.road,
            first_day: self.first_day,
            last_day: self.last_day,
        }
    }
}

/// The days that `ticket` covers.
pub open spec fn span_of(ticket: TicketView) -> SpanView {
    SpanView {
        plate: ticket.plate,
        road: ticket.road,
        first_day: day_of(ticket.timestamp1) as u32,
        last_day: day_of(ticket.timestamp2) as u32,
    }
}

/// Whether `span` marks `day` as ticketed for `plate`, on whatever road.
pub open spec fn covers(span: SpanView, plate: Seq<char>, day: int) -> bool {
    span.plate == plate && span.first_day <= day <= span.last_day
}

/// Whether `plate` holds a ticket for `day`.
pub open spec fn is_ticketed(spans: Seq<SpanView>, plate: Seq<char>, day: int) -> bool {
    exists|i: int| 0 <= i < spans.len() && covers(#[trigger] spans[i], plate, day)
}

/// Whether `plate` holds a ticket for one of the days from `first_day` to
/// `last_day`.
pub open spec fn any_day_ticketed(
    spans: Seq<SpanView>,
    plate: Seq<char>,
    first_day: int,
    last_day: int,
) -> bool {
    exists|day: int| first_day <= day <= last_day && #[trigger] is_ticketed(spans, plate, day)
}

/// Whether `ticket` must be dropped: its plate already holds a ticket for a
/// day that it covers.
pub open spec fn blocked(spans: Seq<SpanView>, ticket: TicketView) -> bool {
    any_day_ticketed(spans, ticket.plate, day_of(ticket.timestamp1), day_of(ticket.timestamp2))
}

/// Whether two spans mark a common day for one plate.
pub open spec fn spans_clash(a: SpanView, b: SpanView) -> bool {
    a.plate == b.plate && a.first_day <= b.last_day && b.first_day <= a.last_day
}

/// Whether the observations are in strictly ascending order of timestamp.
pub open spec fn ascending(history: Seq<Observation>) -> bool {
    forall|i: int, j: int|
        0 <= i < j < history.len() ==> (#[trigger] history[i]).timestamp < (
        #[trigger] history[j]).timestamp
}

/// Whether `history` holds an observation made at `timestamp`.
pub open spec fn seen_at(history: Seq<Observation>, timestamp: u32) -> bool {
    exists|i: int| 0 <= i < history.len() && (#[trigger] history[i]).timestamp == timestamp
}

/// The ticket that a new observation earns: that of the first observation
/// in `history`, from index `from` on, that makes a pair over the new
/// observation's limit and is not blocked.
pub open spec fn first_ticket(
    plate: Seq<char>,
    road: u16,
    history: Seq<Observation>,
    from: int,
    new: Observation,
    spans: Seq<SpanView>,
) -> Option<TicketView>
    decreases history.len() - from,
{
    if from < 0 || from >= history.len() {
        None
    } else if pair_over_limit(history[from], new, new.limit) && !blocked(
        spans,
        pair_ticket(plate, road, history[from], new),
    ) {
        Some(pair_ticket(plate, road, history[from], new))
    } else {
        first_ticket(plate, road, history, from + 1, new, spans)
    }
}

/// The mathematical value of a ticket that may be missing.
pub open spec fn ticket_view(ticket: Option<Ticket>) -> Option<TicketView> {
    match ticket {
        Some(t) => Some(t@),
        None => None,
    }
}

/// What the first ticket, when there is one, is made of: one of the
/// observations on record pairs with the new one over its limit, and the
/// plate holds no ticket for any day that the pair covers.
pub proof fn lemma_first_ticket_is_earned(
    plate: Seq<char>,
    road: u16,
    history: Seq<Observation>,
    from: int,
    new: Observation,
    spans: Seq<SpanView>,
)
    requires
        0 <= from,
        first_ticket(plate, road, history, from, new, spans) is Some,
    ensures
        ({
            let ticket = first_ticket(plate, road, history, from, new, spans)->Some_0;
            &&& !blocked(spans, ticket)
            &&& exists|i: int|
                from <= i < history.len() && pair_over_limit(#[trigger] history[i], new, new.limit)
                    && ticket == pair_ticket(plate, road, history[i], new)
        }),
    decreases history.len() - from,
{
    if from < history.len() {
        if pair_over_limit(history[from], new, new.limit) && !blocked(
            spans,
            pair_ticket(plate, road, history[from], new),
        ) {
        } else {
            lemma_first_ticket_is_earned(plate, road, history, from + 1, new, spans);
        }
    }
}

/// Two spans that share a day for a plate mark a day of the one that lies
/// within the other.
pub proof fn lemma_clash_marks_a_day(spans: Seq<SpanView>, i: int, probe: SpanView)
    requires
        0 <= i < spans.len(),
        spans[i].first_day <= spans[i].last_day,
        probe.first_day <= probe.last_day,
        spans_clash(spans[i], probe),
    ensures
        any_day_ticketed(spans, probe.plate, probe.first_day as int, probe.last_day as int),
{
    let day: int = if probe.first_day >= spans[i].first_day {
        probe.first_day as int
    } else {
        spans[i].first_day as int
    };
    assert(covers(spans[i], probe.plate, day));
    assert(is_ticketed(spans, probe.plate, day));
}

/// The sightings of one plate on one road.
struct Track {
    plate: String,
    road: u16,
    observations: Vec<Observation>,
}

/// Whether `track` is the track of `plate` on `road`.
spec fn holds(track: Track, plate: Seq<char>, road: u16) -> bool {
    track.plate@ == plate && track.road == road
}

/// The observation store and the record of ticketed days.
pub struct TicketEngine {
    tracks: Vec<Track>,
    spans: Vec<TicketedSpan>,
}

impl TicketEngine {
    /// The invariant of the engine: one track per plate and road, each in
    /// ascending order of timestamp, and no two tickets of one plate that
    /// share a day.
    pub closed spec fn wf(&self) -> bool {
        &&& forall|i: int, j: int|
            0 <= i < j < self.tracks@.len() ==> !holds(
                #[trigger] self.tracks@[i],
                (#[trigger] self.tracks@[j]).plate@,
                self.tracks@[j].road,
            )
        &&& forall|i: int|
            0 <= i < self.tracks@.len() ==> ascending((#[trigger] self.tracks@[i]).observations@)
        &&& forall|i: int|
            0 <= i < self.spans@.len() ==> (#[trigger] self.spans@[i]).first_day
                <= self.spans@[i].last_day
        &&& forall|i: int, j: int|
            0 <= i < j < self.spans@.len() ==> !spans_clash(
                (#[trigger] self.spans@[i])@,
                (#[trigger] self.spans@[j])@,
            )
    }

    /// The sightings recorded for `plate` on `road`, in ascending order of
    /// timestamp.
    pub closed spec fn history(&self, plate: Seq<char>, road: u16) -> Seq<Observation> {
        if exists|i: int| 0 <= i < self.tracks@.len() && holds(#[trigger] self.tracks@[i], plate, road) {
            let i = choose|i: int|
                0 <= i < self.tracks@.len() && holds(#[trigger] self.tracks@[i], plate, road);
            self.tracks@[i].observations@
        } else {
            Seq::empty()
        }
    }

    /// The ticketed days, one span for each ticket issued so far, oldest
    /// first.
    pub closed spec fn ticketed(&self) -> Seq<SpanView> {
        self.spans@.map_values(|span: TicketedSpan| span@)
    }

    /// An engine that has seen nothing and ticketed nobody.
    pub fn new() -> (engine: TicketEngine)
        ensures
            engine.wf(),
            engine.ticketed() == Seq::<SpanView>::empty(),
            forall|plate: Seq<char>, road: u16| #[trigger]
                engine.history(plate, road) == Seq::<Observation>::empty(),
    {
        let engine = TicketEngine { tracks: Vec::new(), spans: Vec::new() };
        assert(engine.ticketed() =~= Seq::<SpanView>::empty());
        engine
    }

    /// The sightings recorded for `plate` on `road`, in ascending order of
    /// timestamp.
    pub fn sightings_of(&self, plate: &String, road: u16) -> (sightings: Vec<Observation>)
        requires
            self.wf(),
        ensures
            sightings@ == self.history(plate@, road),
    {
        match self.find_track(plate, road) {
            Some(i) => {
                proof {
                    self.lemma_history_of_track(i as int);
                }
                self.tracks[i].observations.clone()
            },
            None => Vec::new(),
        }
    }

    /// Whether `plate` holds a ticket for `day`.
    pub fn is_day_ticketed(&self, plate: &String, day: u32) -> (ticketed: bool)
        requires
            self.wf(),
        ensures
            ticketed == is_ticketed(self.ticketed(), plate@, day as int),
    {
        let any = self.any_ticketed(plate, day, day);
        proof {
            if is_ticketed(self.ticketed(), plate@, day as int) {
                assert(any_day_ticketed(self.ticketed(), plate@, day as int, day as int));
            }
        }
        any
    }

    /// The number of tickets issued so far.
    pub fn tickets_issued(&self) -> (count: usize)
        ensures
            count == self.ticketed().len(),
    {
        self.spans.len()
    }

    /// The index of the track of `plate` on `road`, if there is one.
    fn find_track(&self, plate: &String, road: u16) -> (found: Option<usize>)
        ensures
            match found {
                Some(i) => i < self.tracks@.len() && holds(self.tracks@[i as int], plate@, road),
                None => forall|i: int|
                    0 <= i < self.tracks@.len() ==> !holds(#[trigger] self.tracks@[i], plate@, road),
            },
    {
        let mut i: usize = 0;
        while i < self.tracks.len()
            invariant
                i <= self.tracks@.len(),
                forall|k: int| 0 <= k < i ==> !holds(#[trigger] self.tracks@[k], plate@, road),
            decreases self.tracks@.len() - i,
        {
            if self.tracks[i].road == road && self.tracks[i].plate == *plate {
                return Some(i);
            }
            i += 1;
        }
        None
    }

    /// Whether `plate` holds a ticket for one of the days from `first_day`
    /// to `last_day`.
    fn any_ticketed(&self, plate: &String, first_day: u32, last_day: u32) -> (any: bool)
        requires
            self.wf(),
            first_day <= last_day,
        ensures
            any == any_day_ticketed(self.ticketed(), plate@, first_day as int, last_day as int),
            any == exists|i: int|
                0 <= i < self.spans@.len() && spans_clash(
                    (#[trigger] self.spans@[i])@,
                    SpanView { plate: plate@, road: 0, first_day, last_day },
                ),
    {
        let ghost probe = SpanView { plate: plate@, road: 0, first_day, last_day };
        let mut i: usize = 0;
        while i < self.spans.len()
            invariant
                i <= self.spans@.len(),
                self.wf(),
                first_day <= last_day,
                probe == (SpanView { plate: plate@, road: 0, first_day, last_day }),
                forall|k: int| 0 <= k < i ==> !spans_clash((#[trigger] self.spans@[k])@, probe),
            decreases self.spans@.len() - i,
        {
            let span = &self.spans[i];
            if span.first_day <= last_day && first_day <= span.last_day && span.plate == *plate {
                proof {
                    let day: int = if first_day >= span.first_day {
                        first_day as int
                    } else {
                        span.first_day as int
                    };
                    assert(covers(self.ticketed()[i as int], plate@, day));
                    assert(is_ticketed(self.ticketed(), plate@, day));
                    assert(spans_clash(self.spans@[i as int]@, probe));
                }
                return true;
            }
            i += 1;
        }
        proof {
            if any_day_ticketed(self.ticketed(), plate@, first_day as int, last_day as int) {
                let day = choose|day: int|
                    first_day <= day <= last_day && #[trigger] is_ticketed(
                        self.ticketed(),
                        plate@,
                        day,
                    );
                let k = choose|k: int|
                    0 <= k < self.ticketed().len() && covers(
                        #[trigger] self.ticketed()[k],
                        plate@,
                        day,
                    );
                assert(spans_clash(self.spans@[k]@, probe));
            }
        }
        false
    }

    /// The track at `i` is the history of its plate and road.
    proof fn lemma_history_of_track(&self, i: int)
        requires
            self.wf(),
            0 <= i < self.tracks@.len(),
        ensures
            self.history(self.tracks@[i].plate@, self.tracks@[i].road)
                == self.tracks@[i].observations@,
    {
        let plate = self.tracks@[i].plate@;
        let road = self.tracks@[i].road;
        assert(holds(self.tracks@[i], plate, road));
        let j = choose|j: int|
            0 <= j < self.tracks@.len() && holds(#[trigger] self.tracks@[j], plate, road);
        if j < i {
            assert(!holds(self.tracks@[j], self.tracks@[i].plate@, self.tracks@[i].road));
        } else if i < j {
            assert(!holds(self.tracks@[i], self.tracks@[j].plate@, self.tracks@[j].road));
        }
    }

    /// Where an observation made at `timestamp` belongs in the track at
    /// `track`, or nothing when the track holds one made at that time.
    fn position_for(&self, track: usize, timestamp: u32) -> (position: Option<usize>)
        requires
            self.wf(),
            track < self.tracks@.len(),
        ensures
            position is None <==> seen_at(self.tracks@[track as int].observations@, timestamp),
            position matches Some(k) ==> {
                let history = self.tracks@[track as int].observations@;
                &&& k <= history.len()
                &&& forall|i: int| 0 <= i < k ==> (#[trigger] history[i]).timestamp < timestamp
                &&& forall|i: int|
                    k <= i < history.len() ==> (#[trigger] history[i]).timestamp > timestamp
            },
    {
        let observations = &self.tracks[track].observations;
        let ghost history = observations@;
        let mut k: usize = 0;
        while k < observations.len()
            invariant
                k <= history.len(),
                history == observations@,
                track < self.tracks@.len(),
                history == self.tracks@[track as int].observations@,
                ascending(history),
                forall|i: int| 0 <= i < k ==> (#[trigger] history[i]).timestamp < timestamp,
            decreases history.len() - k,
        {
            if observations[k].timestamp == timestamp {
                return None;
            }
            if observations[k].timestamp > timestamp {
                return Some(k);
            }
            k += 1;
        }
        Some(k)
    }

    /// The ticket that a new observation `new` of `plate` on `road` earns,
    /// given the track at `track` that holds the earlier ones.
    fn first_unblocked(&self, track: usize, plate: &String, road: u16, new: Observation) -> (ticket:
        Option<Ticket>)
        requires
            self.wf(),
            track < self.tracks@.len(),
            !seen_at(self.tracks@[track as int].observations@, new.timestamp),
        ensures
            ticket is Some <==> first_ticket(
                plate@,
                road,
                self.tracks@[track as int].observations@,
                0,
                new,
                self.ticketed(),
            ) is Some,
            ticket matches Some(t) ==> Some(t@) == first_ticket(
                plate@,
                road,
                self.tracks@[track as int].observations@,
                0,
                new,
                self.ticketed(),
            ),
    {
        let observations = &self.tracks[track].observations;
        let ghost history = observations@;
        let mut i: usize = 0;
        while i < observations.len()
            invariant
                i <= history.len(),
                history == observations@,
                track < self.tracks@.len(),
                history == self.tracks@[track as int].observations@,
                self.wf(),
                !seen_at(history, new.timestamp),
                first_ticket(plate@, road, history, 0, new, self.ticketed()) == first_ticket(
                    plate@,
                    road,
                    history,
                    i as int,
                    new,
                    self.ticketed(),
                ),
            decreases history.len() - i,
        {
            let old_one: Observation = observations[i];
            assert(history[i as int].timestamp != new.timestamp);
            let (first, second) = if old_one.timestamp <= new.timestamp {
                (old_one, new)
            } else {
                (new, old_one)
            };
            let seconds: u32 = second.timestamp - first.timestamp;
            if is_over_limit(first.mile, second.mile, seconds, new.limit) {
                let first_day: u32 = day(first.timestamp);
                let last_day: u32 = day(second.timestamp);
                if !self.any_ticketed(plate, first_day, last_day) {
                    let ticket = Ticket {
                        plate: plate.clone(),
                        road,
                        mile1: first.mile,
                        timestamp1: first.timestamp,
                        mile2: second.mile,
                        timestamp2: second.timestamp,
                        speed: speed_on_ticket(first.mile, second.mile, seconds),
                    };
                    assert(ticket@ == pair_ticket(plate@, road, history[i as int], new));
                    return Some(ticket);
                }
            }
            i += 1;
        }
        None
    }

    /// The ticket that `sighting` earns: none when it repeats the timestamp
    /// of a sighting on record for its plate and road, and else the one
    /// that [`first_ticket`] names.
    pub open spec fn earns(&self, sighting: SightingView) -> Option<TicketView> {
        let history = self.history(sighting.plate, sighting.road);
        if seen_at(history, sighting.timestamp) {
            None
        } else {
            first_ticket(
                sighting.plate,
                sighting.road,
                history,
                0,
                Observation {
                    timestamp: sighting.timestamp,
                    mile: sighting.mile,
                    limit: sighting.limit,
                },
                self.ticketed(),
            )
        }
    }

    /// What [`observe`](Self::observe) does: `self` is the engine before
    /// the call, `after` the engine after it.
    ///
    /// A sighting that repeats the timestamp of one on record for its plate
    /// and road changes nothing.  Any other is filed in its place in the
    /// history of its plate and road, and earns the ticket that
    /// [`first_ticket`] names; the days of that ticket are marked.
    pub open spec fn observed(
        &self,
        after: &TicketEngine,
        sighting: SightingView,
        ticket: Option<TicketView>,
    ) -> bool {
        let history = self.history(sighting.plate, sighting.road);
        let new = Observation {
            timestamp: sighting.timestamp,
            mile: sighting.mile,
            limit: sighting.limit,
        };
        if seen_at(history, sighting.timestamp) {
            &&& ticket == self.earns(sighting)
            &&& ticket is None
            &&& after.ticketed() == self.ticketed()
            &&& forall|plate: Seq<char>, road: u16| #[trigger]
                after.history(plate, road) == self.history(plate, road)
        } else {
            &&& ticket == self.earns(sighting)
            &&& after.ticketed() == match ticket {
                Some(t) => self.ticketed().push(span_of(t)),
                None => self.ticketed(),
            }
            &&& ascending(after.history(sighting.plate, sighting.road))
            &&& exists|k: int|
                0 <= k <= history.len() && after.history(sighting.plate, sighting.road)
                    == #[trigger] history.insert(k, new)
            &&& forall|plate: Seq<char>, road: u16|
                !(plate == sighting.plate && road == sighting.road) ==> #[trigger] after.history(
                    plate,
                    road,
                ) == self.history(plate, road)
        }
    }

    /// Records a sighting and returns the ticket that it earns, if any.
    #[verifier::rlimit(50)]
    pub fn observe(&mut self, sighting: Sighting) -> (ticket: Option<Ticket>)
        requires
            old(self).wf(),
        ensures
            final(self).wf(),
            old(self).observed(final(self), sighting@, ticket_view(ticket)),
    {
        let new = Observation {
            timestamp: sighting.timestamp,
            mile: sighting.mile,
            limit: sighting.limit,
        };
        let ghost plate = sighting.plate@;
        let road: u16 = sighting.road;
        let found = self.find_track(&sighting.plate, road);
        match found {
            None => {
                let mut observations: Vec<Observation> = Vec::new();
                observations.push(new);
                self.tracks.push(Track { plate: sighting.plate, road, observations });
                proof {
                    let last = self.tracks@.len() - 1;
                    assert(self.wf());
                    self.lemma_history_of_track(last);
                    assert(old(self).history(plate, road) == Seq::<Observation>::empty());
                    assert(self.history(plate, road) =~= Seq::<Observation>::empty().insert(
                        0,
                        new,
                    ));
                    assert forall|p: Seq<char>, r: u16| !(p == plate && r == road) implies #[trigger]
                        self.history(p, r) == old(self).history(p, r) by {
                        old(self).lemma_history_unchanged(self, p, r);
                    }
                }
                None
            },
            Some(i) => {
                proof {
                    self.lemma_history_of_track(i as int);
                }
                match self.position_for(i, new.timestamp) {
                    None => None,
                    Some(k) => {
                        let ticket = self.first_unblocked(i, &sighting.plate, road, new);
                        match &ticket {
                            Some(t) => {
                                let span = TicketedSpan {
                                    plate: t.plate.clone(),
                                    road,
                                    first_day: day(t.timestamp1),
                                    last_day: day(t.timestamp2),
                                };
                                proof {
                                    lemma_first_ticket_is_earned(
                                        plate,
                                        road,
                                        self.tracks@[i as int].observations@,
                                        0,
                                        new,
                                        self.ticketed(),
                                    );
                                    assert(span@ == span_of(t@));
                                    assert forall|j: int| 0 <= j < self.spans@.len() implies !spans_clash(
                                        (#[trigger] self.spans@[j])@,
                                        span@,
                                    ) by {
                                        if spans_clash(self.spans@[j]@, span@) {
                                            lemma_clash_marks_a_day(self.ticketed(), j, span@);
                                        }
                                    }
                                }
                                self.spans.push(span);
                                proof {
                                    assert(self.ticketed() =~= old(self).ticketed().push(
                                        span_of(t@),
                                    ));
                                }
                            },
                            None => {},
                        }
                        self.tracks[i].observations.insert(k, new);
                        proof {
                            assert(self.tracks@[i as int].observations@ == old(
                                self,
                            ).tracks@[i as int].observations@.insert(k as int, new));
                            assert(ascending(self.tracks@[i as int].observations@));
                            assert(self.wf());
                            self.lemma_history_of_track(i as int);
                            assert forall|p: Seq<char>, r: u16|
                                !(p == plate && r == road) implies #[trigger] self.history(p, r)
                                == old(self).history(p, r) by {
                                old(self).lemma_history_unchanged(self, p, r);
                            }
                        }
                        ticket
                    },
                }
            },
        }
    }

    /// A key whose track is the same before and after has the same history.
    proof fn lemma_history_unchanged(&self, after: &TicketEngine, plate: Seq<char>, road: u16)
        requires
            self.wf(),
            after.wf(),
            self.tracks@.len() <= after.tracks@.len(),
            forall|j: int|
                0 <= j < self.tracks@.len() ==> (#[trigger] after.tracks@[j]).plate@
                    == self.tracks@[j].plate@ && after.tracks@[j].road == self.tracks@[j].road,
            forall|j: int|
                0 <= j < self.tracks@.len() && holds(#[trigger] self.tracks@[j], plate, road)
                    ==> after.tracks@[j].observations@ == self.tracks@[j].observations@,
            forall|j: int|
                self.tracks@.len() <= j < after.tracks@.len() ==> !holds(
                    #[trigger] after.tracks@[j],
                    plate,
                    road,
                ),
        ensures
            after.history(plate, road) == self.history(plate, road),
    {
        if exists|j: int| 0 <= j < self.tracks@.len() && holds(#[trigger] self.tracks@[j], plate, road) {
            let j = choose|j: int|
                0 <= j < self.tracks@.len() && holds(#[trigger] self.tracks@[j], plate, road);
            self.lemma_history_of_track(j);
            assert(holds(after.tracks@[j], plate, road));
            after.lemma_history_of_track(j);
        } else {
            assert forall|j: int| 0 <= j < after.tracks@.len() implies !holds(
                #[trigger] after.tracks@[j],
                plate,
                road,
            ) by {
                if j < self.tracks@.len() {
                    assert(!holds(self.tracks@[j], plate, road));
                }
            }
        }
    }

    /// The sightings of a plate on a road are on record in ascending order
    /// of timestamp, each timestamp once.
    pub proof fn lemma_history_ascending(&self, plate: Seq<char>, road: u16)
        requires
            self.wf(),
        ensures
            ascending(self.history(plate, road)),
    {
    }

    /// No plate holds two tickets for one day: two tickets on record that
    /// cover the same day for the same plate are one and the same ticket.
    pub proof fn lemma_one_ticket_per_day(&self, i: int, j: int, plate: Seq<char>, day: int)
        requires
            self.wf(),
            0 <= i < self.ticketed().len(),
            0 <= j < self.ticketed().len(),
            covers(self.ticketed()[i], plate, day),
            covers(self.ticketed()[j], plate, day),
        ensures
            i == j,
    {
        if i < j {
            assert(spans_clash(self.spans@[i]@, self.spans@[j]@));
        } else if j < i {
            assert(spans_clash(self.spans@[j]@, self.spans@[i]@));
        }
    }
}

/// A ticket is made of the new sighting and an earlier-recorded one of the
/// same plate on the same road, states the earlier timestamp first, is
/// issued only when its plate held no ticket for any of its days, and marks
/// each of its days.
pub proof fn lemma_ticket_marks_fresh_days(
    before: TicketEngine,
    after: TicketEngine,
    sighting: SightingView,
    ticket: TicketView,
    day: int,
)
    requires
        before.observed(&after, sighting, Some(ticket)),
        day_of(ticket.timestamp1) <= day <= day_of(ticket.timestamp2),
    ensures
        ticket.plate == sighting.plate,
        ticket.road == sighting.road,
        ticket.timestamp1 < ticket.timestamp2,
        ticket.timestamp1 == sighting.timestamp || ticket.timestamp2 == sighting.timestamp,
        !is_ticketed(before.ticketed(), ticket.plate, day),
        is_ticketed(after.ticketed(), ticket.plate, day),
{
    let history = before.history(sighting.plate, sighting.road);
    let new = Observation {
        timestamp: sighting.timestamp,
        mile: sighting.mile,
        limit: sighting.limit,
    };
    lemma_first_ticket_is_earned(
        sighting.plate,
        sighting.road,
        history,
        0,
        new,
        before.ticketed(),
    );
    let marked = after.ticketed();
    assert(covers(marked[marked.len() - 1], ticket.plate, day));
}

/// The record of ticketed days only grows: what is marked stays marked.
proof fn lemma_spans_stay(
    states: Seq<TicketEngine>,
    sightings: Seq<SightingView>,
    tickets: Seq<Option<TicketView>>,
    from: int,
    to: int,
)
    requires
        states.len() == sightings.len() + 1,
        tickets.len() == sightings.len(),
        forall|k: int|
            0 <= k < sightings.len() ==> (#[trigger] states[k]).observed(
                &states[k + 1],
                sightings[k],
                tickets[k],
            ),
        0 <= from <= to < states.len(),
    ensures
        states[from].ticketed().len() <= states[to].ticketed().len(),
        forall|x: int|
            0 <= x < states[from].ticketed().len() ==> states[to].ticketed()[x]
                == states[from].ticketed()[x],
    decreases to - from,
{
    if from < to {
        lemma_spans_stay(states, sightings, tickets, from, to - 1);
        assert(states[to - 1].observed(&states[to - 1 + 1], sightings[to - 1], tickets[to - 1]));
    }
}

/// The same plate never receives two tickets that share a day, whatever the
/// order in which the sightings come in and whatever roads they are on.
///
/// `states` are the engines before, between and after the calls of
/// `observe` that took `sightings`, one by one, and returned `tickets`.
#[verifier::rlimit(50)]
pub proof fn lemma_tickets_never_share_a_day(
    states: Seq<TicketEngine>,
    sightings: Seq<SightingView>,
    tickets: Seq<Option<TicketView>>,
    i: int,
    j: int,
)
    requires
        states.len() == sightings.len() + 1,
        tickets.len() == sightings.len(),
        forall|k: int|
            0 <= k < sightings.len() ==> (#[trigger] states[k]).observed(
                &states[k + 1],
                sightings[k],
                tickets[k],
            ),
        0 <= i < j < tickets.len(),
        tickets[i] is Some,
        tickets[j] is Some,
    ensures
        !spans_clash(span_of(tickets[i]->Some_0), span_of(tickets[j]->Some_0)),
{
    let first = tickets[i]->Some_0;
    let second = tickets[j]->Some_0;
    assert(states[i].observed(&states[i + 1], sightings[i], tickets[i]));
    assert(states[j].observed(&states[j + 1], sightings[j], tickets[j]));
    lemma_spans_stay(states, sightings, tickets, i + 1, j);
    let at = states[i].ticketed().len() as int;
    assert(states[i + 1].ticketed()[at] == span_of(first));
    assert(states[j].ticketed()[at] == span_of(first));
    let history = states[j].history(sightings[j].plate, sightings[j].road);
    let new = Observation {
        timestamp: sightings[j].timestamp,
        mile: sightings[j].mile,
        limit: sightings[j].limit,
    };
    lemma_first_ticket_is_earned(
        sightings[j].plate,
        sightings[j].road,
        history,
        0,
        new,
        states[j].ticketed(),
    );
    lemma_first_ticket_is_earned(
        sightings[i].plate,
        sightings[i].road,
        states[i].history(sightings[i].plate, sightings[i].road),
        0,
        Observation {
            timestamp: sightings[i].timestamp,
            mile: sightings[i].mile,
            limit: sightings[i].limit,
        },
        states[i].ticketed(),
    );
    if spans_clash(span_of(first), span_of(second)) {
        lemma_clash_marks_a_day(states[j].ticketed(), at, span_of(second));
    }
}

} // verus!
