use protohackers::budget_chat::lines::{
    event_line, join, join_error_line, name_error_line, room_line, welcome_line,
};
use protohackers::budget_chat::names::{validate_name, NameError};
use protohackers::budget_chat::state::{Broadcast, Event, JoinError, State};

fn names(list: &[&str]) -> Vec<String> {
    list.iter().map(|name| name.to_string()).collect()
}

fn sent(line: String) -> String {
    format!("{}\n", line)
}

#[test]
fn main_test() {
    let mut room = State::new();
    // bob joins the chat
    assert_eq!(sent(welcome_line()), "Welcome to budgetchat! What shall I call you?\n");
    assert_eq!(validate_name("bob"), Ok(()));
    assert_eq!(sent(room_line(&room.get_present_names())), "* The room contains: \n");
    let told = room.add_client("bob".to_string()).unwrap();
    assert_eq!(told.recipients, names(&[]));
    let told = room.boardcast_message("bob".to_string(), "hello".to_string());
    assert_eq!(told.recipients, names(&[]));
    // alice joins the chat
    assert_eq!(sent(welcome_line()), "Welcome to budgetchat! What shall I call you?\n");
    assert_eq!(validate_name("alice"), Ok(()));
    assert_eq!(sent(room_line(&room.get_present_names())), "* The room contains: bob\n");
    let joined = room.add_client("alice".to_string()).unwrap();
    let said = room.boardcast_message("alice".to_string(), "hello".to_string());
    // what bob reads
    assert_eq!(joined.recipients, names(&["bob"]));
    assert_eq!(sent(event_line(&joined.event)), "* alice has entered the room\n");
    assert_eq!(said.recipients, names(&["bob"]));
    assert_eq!(sent(event_line(&said.event)), "[alice] hello\n");
}

#[test]
fn a_name_is_made_of_letters_and_digits() {
    assert_eq!(validate_name("bob"), Ok(()));
    assert_eq!(validate_name("Bob42"), Ok(()));
    assert_eq!(validate_name("0"), Ok(()));
    assert_eq!(validate_name("azAZ09"), Ok(()));
    assert_eq!(validate_name(""), Err(NameError::Empty));
    assert_eq!(validate_name("bob smith"), Err(NameError::IllegalCharacter));
    assert_eq!(validate_name("bob_"), Err(NameError::IllegalCharacter));
    assert_eq!(validate_name("-bob"), Err(NameError::IllegalCharacter));
    assert_eq!(validate_name("Zürich"), Err(NameError::IllegalCharacter));
    assert_eq!(validate_name("bob\n"), Err(NameError::IllegalCharacter));
    assert_eq!(validate_name("{"), Err(NameError::IllegalCharacter));
    assert_eq!(validate_name("`"), Err(NameError::IllegalCharacter));
    assert_eq!(validate_name("@"), Err(NameError::IllegalCharacter));
    assert_eq!(validate_name("["), Err(NameError::IllegalCharacter));
    assert_eq!(validate_name("/"), Err(NameError::IllegalCharacter));
    assert_eq!(validate_name(":"), Err(NameError::IllegalCharacter));
}

#[test]
fn a_refused_name_is_explained() {
    assert_eq!(name_error_line(NameError::Empty), "Your name cannot be empty");
    assert_eq!(
        name_error_line(NameError::IllegalCharacter),
        "Your name can only have alphanumeric characters (uppercase, lowercase, digits)"
    );
}

#[test]
fn a_name_is_taken_once() {
    let mut room = State::new();
    assert!(room.add_client("bob".to_string()).is_ok());
    let refused = room.add_client("bob".to_string());
    assert_eq!(refused, Err(JoinError::NameTaken("bob".to_string())));
    assert_eq!(
        join_error_line(&refused.unwrap_err()),
        "* The username bob is already taken\n"
    );
    assert_eq!(room.get_present_names(), names(&["bob"]));
    assert!(room.add_client("Bob".to_string()).is_ok());
}

#[test]
fn everybody_who_was_there_is_told_of_a_new_user() {
    let mut room = State::new();
    room.add_client("a".to_string()).unwrap();
    room.add_client("b".to_string()).unwrap();
    let told = room.add_client("c".to_string()).unwrap();
    assert_eq!(
        told,
        Broadcast { recipients: names(&["a", "b"]), event: Event::NewUser("c".to_string()) }
    );
    assert_eq!(room.get_present_names(), names(&["a", "b", "c"]));
    assert!(room.is_present(&"c".to_string()));
    assert!(!room.is_present(&"d".to_string()));
}

#[test]
fn a_message_is_told_to_everybody_else() {
    let mut room = State::new();
    for name in ["a", "b", "c"] {
        room.add_client(name.to_string()).unwrap();
    }
    let told = room.boardcast_message("b".to_string(), "hi all".to_string());
    assert_eq!(
        told,
        Broadcast {
            recipients: names(&["a", "c"]),
            event: Event::NewMessage("b".to_string(), "hi all".to_string())
        }
    );
    let told = room.boardcast_message("stranger".to_string(), "boo".to_string());
    assert_eq!(told.recipients, names(&["a", "b", "c"]));
}

#[test]
fn those_who_stay_are_told_of_a_user_who_leaves() {
    let mut room = State::new();
    for name in ["a", "b", "c"] {
        room.add_client(name.to_string()).unwrap();
    }
    let told = room.remove_client("a".to_string());
    assert_eq!(
        told,
        Broadcast { recipients: names(&["b", "c"]), event: Event::UserLeft("a".to_string()) }
    );
    assert_eq!(room.get_present_names(), names(&["b", "c"]));
    let told = room.remove_client("nobody".to_string());
    assert_eq!(told.recipients, names(&["b", "c"]));
    assert_eq!(room.get_present_names(), names(&["b", "c"]));
    assert!(room.add_client("a".to_string()).is_ok());
}

#[test]
fn the_default_room_is_empty() {
    let room = State::default();
    assert_eq!(room.get_present_names(), names(&[]));
}

#[test]
fn events_are_worded() {
    assert_eq!(event_line(&Event::NewUser("bob".to_string())), "* bob has entered the room");
    assert_eq!(event_line(&Event::UserLeft("bob".to_string())), "* bob has left the room");
    assert_eq!(
        event_line(&Event::NewMessage("bob".to_string(), "hi, all".to_string())),
        "[bob] hi, all"
    );
}

#[test]
fn names_are_joined_with_commas() {
    assert_eq!(join(&names(&[]), ", "), "");
    assert_eq!(join(&names(&["a"]), ", "), "a");
    assert_eq!(join(&names(&["a", "b", "c"]), ", "), "a, b, c");
    assert_eq!(join(&names(&["", ""]), "-"), "-");
    assert_eq!(room_line(&names(&["bob", "alice"])), "* The room contains: bob, alice");
}
