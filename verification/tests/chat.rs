use protohackers::chat::{name_from_line, Chat, Outgoing, User};

fn text(o: &Outgoing) -> String {
    o.text.iter().collect()
}

fn user(name: &str, tx: u32) -> User<u32> {
    User { name: name.to_string(), tx }
}

#[test]
fn names_from_first_line() {
    let n: String = name_from_line("alice\n").unwrap().into_iter().collect();
    assert_eq!(n, "alice");
    let n: String = name_from_line("  Bob42 \r\n").unwrap().into_iter().collect();
    assert_eq!(n, "Bob42");
    let n: String = name_from_line("\n").unwrap().into_iter().collect();
    assert_eq!(n, "");
    assert!(name_from_line("bad name\n").is_err());
    assert!(name_from_line("x!\n").is_err());
    let n: String = name_from_line("Zoë\n").unwrap().into_iter().collect();
    assert_eq!(n, "Zoë");
}

#[test]
fn joining_the_room() {
    let mut chat: Chat<u32> = Chat::new();
    let out = chat.add_user(user("alice", 1));
    assert_eq!(out.len(), 1);
    assert_eq!(out[0].to, 0);
    assert_eq!(text(&out[0]), "* The room contains: []\n");

    let out = chat.add_user(user("bob", 2));
    assert_eq!(out.len(), 2);
    assert_eq!(out[0].to, 1);
    assert_eq!(text(&out[0]), "* The room contains: [\"alice\"]\n");
    assert_eq!(out[1].to, 0);
    assert_eq!(text(&out[1]), "* bob has entered the room\n");

    let out = chat.add_user(user("carol", 3));
    assert_eq!(text(&out[0]), "* The room contains: [\"alice\", \"bob\"]\n");
    assert_eq!(chat.users.len(), 3);
    assert_eq!(chat.users[2].tx, 3);
}

#[test]
fn messages_skip_the_sender() {
    let mut chat: Chat<u32> = Chat::new();
    chat.add_user(user("alice", 1));
    chat.add_user(user("bob", 2));
    chat.add_user(user("carol", 3));
    let out = chat.send_message(&"bob".to_string(), "hi all\n");
    let tos: Vec<usize> = out.iter().map(|o| o.to).collect();
    assert_eq!(tos, vec![0, 2]);
    assert_eq!(text(&out[0]), "[bob] hi all\n");
    assert_eq!(text(&out[1]), "[bob] hi all\n");
}

#[test]
fn leaving_the_room() {
    let mut chat: Chat<u32> = Chat::new();
    chat.add_user(user("alice", 1));
    chat.add_user(user("bob", 2));
    chat.add_user(user("carol", 3));
    let out = chat.remove_user(&"bob".to_string());
    let names: Vec<&str> = chat.users.iter().map(|u| u.name.as_str()).collect();
    assert_eq!(names, vec!["alice", "carol"]);
    assert_eq!(out.len(), 2);
    assert_eq!(out[0].to, 0);
    assert_eq!(out[1].to, 1);
    assert_eq!(text(&out[0]), "* bob has left the room\n");

    let out = chat.remove_user(&"nobody".to_string());
    assert_eq!(chat.users.len(), 2);
    assert_eq!(out.len(), 2);
    assert_eq!(text(&out[1]), "* nobody has left the room\n");
}
