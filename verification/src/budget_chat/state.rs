//! Who is in the room, and who is told of what.
//!
//! The room knows its users by name, in the order in which they joined.  It
//! sends nothing itself: every change returns a [`Broadcast`], the event and
//! the users that are to be told of it, for the caller to deliver.

use crate::seqs::{distinct, lemma_without, without};
use vstd::prelude::*;

verus! {

/// Something that the users in the room are told of.
#[derive(Clone, Debug, PartialEq, Eq)]
pub enum Event {
    /// A user joined.
    NewUser(String),
    /// A user, named first, said something.
    NewMessage(String, String),
    /// A user left.
    UserLeft(String),
}

/// The mathematical value of an [`Event`].
pub enum EventView {
    NewUser(Seq<char>),
    NewMessage(Seq<char>, Seq<char>),
    UserLeft(Seq<char>),
}

impl View for Event {
    type V = EventView;

    open spec fn view(&self) -> EventView {
        match *self {
            Event::NewUser(name) => EventView::NewUser(name@),
            Event::NewMessage(name, message) => EventView::NewMessage(name@, message@),
            Event::UserLeft(name) => EventView::UserLeft(name@),
        }
    }
}

/// An event and the users that are to be told of it.
#[derive(Debug, PartialEq, Eq)]
pub struct Broadcast {
    pub recipients: Vec<String>,
    pub event: Event,
}

/// The mathematical value of a [`Broadcast`].
pub struct BroadcastView {
    pub recipients: Seq<Seq<char>>,
    pub event: EventView,
}

/// The mathematical values of a run of names.
pub open spec fn names_view(names: Seq<String>) -> Seq<Seq<char>> {
    names.map_values(|name: String| name@)
}

impl View for Broadcast {
    type V = BroadcastView;

    open spec fn view(&self) -> BroadcastView {
        BroadcastView { recipients: names_view(self.recipients@), event: self.event@ }
    }
}

/// Why a user could not join.
#[derive(Debug, PartialEq, Eq)]
pub enum JoinError {
    /// A user of that name is in the room.
    NameTaken(String),
}

/// The users in the room.
#[derive(Debug)]
pub struct State {
    clients: Vec<String>,
}

impl Default for State {
    fn default() -> (state: State)
        ensures
            state.wf(),
            state@ == Seq::<Seq<char>>::empty(),
    {
        State::new()
    }
}

impl View for State {
    type V = Seq<Seq<char>>;

    /// The names of the users in the room, in the order in which they
    /// joined.
    closed spec fn view(&self) -> Seq<Seq<char>> {
        names_view(self.clients@)
    }
}

/// Copies the names but `name`.
fn copy_others(names: &Vec<String>, name: &String) -> (kept: Vec<String>)
    ensures
        names_view(kept@) == without(names_view(names@), name@),
{
    let mut kept: Vec<String> = Vec::new();
    let mut i: usize = 0;
    proof {
        assert(names_view(names@).take(0) =~= Seq::<Seq<char>>::empty());
        assert(names_view(kept@) =~= Seq::<Seq<char>>::empty());
    }
    while i < names.len()
        invariant
            i <= names@.len(),
            names_view(kept@) == without(names_view(names@).take(i as int), name@),
        decreases names@.len() - i,
    {
        let ghost before = names_view(kept@);
        proof {
            assert(names_view(names@).take(i + 1).drop_last() =~= names_view(names@).take(i as int));
            assert(names_view(names@).take(i + 1).last() == names@[i as int]@);
        }
        if names[i] != *name {
            kept.push(names[i].clone());
            proof {
                assert(names_view(kept@) =~= before.push(names@[i as int]@));
            }
        }
        i += 1;
    }
    proof {
        assert(names_view(names@).take(i as int) =~= names_view(names@));
    }
    kept
}

impl State {
    /// The invariant of the room: no two users share a name.
    pub closed spec fn wf(&self) -> bool {
        forall|i: int, j: int|
            0 <= i < j < self.clients@.len() ==> (#[trigger] self.clients@[i])@ != (
            #[trigger] self.clients@[j])@
    }

    /// An empty room.
    pub fn new() -> (state: State)
        ensures
            state.wf(),
            state@ == Seq::<Seq<char>>::empty(),
    {
        let state = State { clients: Vec::new() };
        proof {
            assert(state@ =~= Seq::<Seq<char>>::empty());
        }
        state
    }

    /// Whether a user called `name` is in the room.
    pub fn is_present(&self, name: &String) -> (present: bool)
        ensures
            present == self@.contains(name@),
    {
        let mut i: usize = 0;
        while i < self.clients.len()
            invariant
                i <= self.clients@.len(),
                forall|k: int| 0 <= k < i ==> self@[k] != name@,
            decreases self.clients@.len() - i,
        {
            if self.clients[i] == *name {
                proof {
                    assert(self@[i as int] == name@);
                }
                return true;
            }
            i += 1;
        }
        false
    }

    /// Lets a user into the room, unless a user of that name is in it.
    /// Everybody who was in the room is to be told of the new user.
    pub fn add_client(&mut self, name: String) -> (joined: Result<Broadcast, JoinError>)
        requires
            old(self).wf(),
        ensures
            final(self).wf(),
            old(self)@.contains(name@) ==> final(self)@ == old(self)@ && (joined matches Err(
                JoinError::NameTaken(taken),
            ) && taken@ == name@),
            !old(self)@.contains(name@) ==> final(self)@ == old(self)@.push(name@) && (
            joined matches Ok(told) && told@ == (BroadcastView {
                recipients: old(self)@,
                event: EventView::NewUser(name@),
            })),
    {
        if self.is_present(&name) {
            return Err(JoinError::NameTaken(name));
        }
        let recipients = self.get_present_names();
        let event = Event::NewUser(name.clone());
        self.clients.push(name);
        proof {
            assert(self@ =~= old(self)@.push(name@));
            assert forall|i: int, j: int| 0 <= i < j < self.clients@.len() implies (
            #[trigger] self.clients@[i])@ != (#[trigger] self.clients@[j])@ by {
                if j == self.clients@.len() - 1 {
                    assert(old(self)@[i] == self.clients@[i]@);
                }
            }
        }
        Ok(Broadcast { recipients, event })
    }

    /// The names of the users in the room, in the order in which they
    /// joined.
    pub fn get_present_names(&self) -> (names: Vec<String>)
        ensures
            names_view(names@) == self@,
    {
        let mut names: Vec<String> = Vec::new();
        let mut i: usize = 0;
        while i < self.clients.len()
            invariant
                i <= self.clients@.len(),
                names@.len() == i,
                names_view(names@) == self@.take(i as int),
            decreases self.clients@.len() - i,
        {
            let ghost copied = names_view(names@);
            names.push(self.clients[i].clone());
            proof {
                assert forall|k: int| 0 <= k < i + 1 implies names_view(names@)[k] == self@.take(
                    i + 1,
                )[k] by {
                    if k < i {
                        assert(copied[k] == self@.take(i as int)[k]);
                    }
                }
                assert(names_view(names@) =~= self@.take(i + 1));
            }
            i += 1;
        }
        proof {
            assert(self@.take(i as int) =~= self@);
        }
        names
    }

    /// What a user says is to be told to everybody else in the room.
    pub fn boardcast_message(&self, name: String, message: String) -> (told: Broadcast)
        ensures
            told@ == (BroadcastView {
                recipients: without(self@, name@),
                event: EventView::NewMessage(name@, message@),
            }),
    {
        let recipients = copy_others(&self.clients, &name);
        Broadcast { recipients, event: Event::NewMessage(name, message) }
    }

    /// Takes a user out of the room.  Everybody who stays is to be told.
    pub fn remove_client(&mut self, name: String) -> (told: Broadcast)
        requires
            old(self).wf(),
        ensures
            final(self).wf(),
            final(self)@ == without(old(self)@, name@),
            told@ == (BroadcastView {
                recipients: without(old(self)@, name@),
                event: EventView::UserLeft(name@),
            }),
    {
        let kept = copy_others(&self.clients, &name);
        proof {
            assert(distinct(self@)) by {
                assert forall|i: int, j: int| 0 <= i < j < self@.len() implies self@[i]
                    != self@[j] by {
                    assert(self.clients@[i]@ != self.clients@[j]@);
                }
            }
            lemma_without(self@, name@);
            assert forall|i: int, j: int| 0 <= i < j < kept@.len() implies (#[trigger] kept@[i])@
                != (#[trigger] kept@[j])@ by {
                assert(names_view(kept@)[i] != names_view(kept@)[j]);
            }
        }
        self.clients = kept;
        let recipients = self.get_present_names();
        Broadcast { recipients, event: Event::UserLeft(name) }
    }
}

} // verus!
