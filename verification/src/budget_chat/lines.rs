//! The wording of what the users are sent.

use crate::budget_chat::names::NameError;
use crate::budget_chat::state::{names_view, Event, EventView, JoinError};
use vstd::prelude::*;
use vstd::string::StringExecFns;

verus! {

/// The names, each but the first after `separator`.
pub open spec fn joined(names: Seq<Seq<char>>, separator: Seq<char>) -> Seq<char>
    decreases names.len(),
{
    if names.len() == 0 {
        Seq::empty()
    } else if names.len() == 1 {
        names[0]
    } else {
        joined(names.drop_last(), separator) + separator + names.last()
    }
}

/// The line that tells of `event`.
pub open spec fn event_text(event: EventView) -> Seq<char> {
    match event {
        EventView::NewUser(name) => "* "@ + name + " has entered the room"@,
        EventView::NewMessage(name, message) => "["@ + name + "] "@ + message,
        EventView::UserLeft(name) => "* "@ + name + " has left the room"@,
    }
}

/// The line that tells a user why the name is refused.
pub open spec fn name_error_text(error: NameError) -> Seq<char> {
    match error {
        NameError::Empty => "Your name cannot be empty"@,
        NameError::IllegalCharacter =>
            "Your name can only have alphanumeric characters (uppercase, lowercase, digits)"@,
    }
}

/// The line that greets a new connection.
pub fn welcome_line() -> (line: String)
    ensures
        line@ == "Welcome to budgetchat! What shall I call you?"@,
{
    "Welcome to budgetchat! What shall I call you?".to_owned()
}

/// The line that tells a user why the name is refused.
pub fn name_error_line(error: NameError) -> (line: String)
    ensures
        line@ == name_error_text(error),
{
    match error {
        NameError::Empty => "Your name cannot be empty".to_owned(),
        NameError::IllegalCharacter =>
            "Your name can only have alphanumeric characters (uppercase, lowercase, digits)".to_owned(),
    }
}

/// The line that tells a user that the name is taken.
pub fn join_error_line(error: &JoinError) -> (line: String)
    ensures
        error matches JoinError::NameTaken(name) && line@ == "* The username "@ + name@
            + " is already taken\n"@,
{
    match error {
        JoinError::NameTaken(name) => {
            let mut line = "* The username ".to_owned();
            line.append(name.as_str());
            line.append(" is already taken\n");
            line
        },
    }
}

/// The names, each but the first after `separator`.
pub fn join(names: &Vec<String>, separator: &str) -> (line: String)
    ensures
        line@ == joined(names_view(names@), separator@),
{
    let mut line = String::new();
    let mut i: usize = 0;
    proof {
        assert(names_view(names@).take(0) =~= Seq::<Seq<char>>::empty());
    }
    while i < names.len()
        invariant
            i <= names@.len(),
            line@ == joined(names_view(names@).take(i as int), separator@),
        decreases names@.len() - i,
    {
        proof {
            let next = names_view(names@).take(i + 1);
            assert(next.drop_last() =~= names_view(names@).take(i as int));
            assert(next.last() == names@[i as int]@);
            if i == 0 {
                assert(next[0] == names@[0]@);
                assert(Seq::<char>::empty() + names@[0]@ =~= names@[0]@);
            }
        }
        if i > 0 {
            line.append(separator);
        }
        line.append(names[i].as_str());
        i += 1;
    }
    proof {
        assert(names_view(names@).take(i as int) =~= names_view(names@));
    }
    line
}

/// The line that tells a new user who is in the room.
pub fn room_line(names: &Vec<String>) -> (line: String)
    ensures
        line@ == "* The room contains: "@ + joined(names_view(names@), ", "@),
{
    let mut line = "* The room contains: ".to_owned();
    let list = join(names, ", ");
    line.append(list.as_str());
    line
}

/// The line that tells of `event`.
pub fn event_line(event: &Event) -> (line: String)
    ensures
        line@ == event_text(event@),
{
    match event {
        Event::NewUser(name) => {
            let mut line = "* ".to_owned();
            line.append(name.as_str());
            line.append(" has entered the room");
            line
        },
        Event::NewMessage(name, message) => {
            let mut line = "[".to_owned();
            line.append(name.as_str());
            line.append("] ");
            line.append(message.as_str());
            line
        },
        Event::UserLeft(name) => {
            let mut line = "* ".to_owned();
            line.append(name.as_str());
            line.append(" has left the room");
            line
        },
    }
}

} // verus!
