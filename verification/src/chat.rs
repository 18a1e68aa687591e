use vstd::prelude::*;

use crate::unicode::{alphanumeric, chars_of, is_alphanumeric, trim_chars, trimmed};

verus! {

/// What `format!("{:?}", names)` writes for a list of names.
pub uninterp spec fn debug_list(names: Seq<Seq<char>>) -> Seq<char>;

/// A name of ASCII letters and digits, which Rust writes in quotes as it is.
pub open spec fn plain_name(n: Seq<char>) -> bool {
    forall|i: int|
        0 <= i < n.len() ==> ('0' <= #[trigger] n[i] <= '9' || 'a' <= n[i] <= 'z' || 'A' <= n[i]
            <= 'Z')
}

/// The names in quotes, separated by `, `.
pub open spec fn quoted_names(names: Seq<Seq<char>>) -> Seq<char>
    decreases names.len(),
{
    if names.len() == 0 {
        Seq::empty()
    } else if names.len() == 1 {
        seq!['"'] + names[0] + seq!['"']
    } else {
        quoted_names(names.drop_last()) + seq![',', ' ', '"'] + names.last() + seq!['"']
    }
}

/// Calls `format!("{:?}", ..)` on the names, which writes them as a Rust list of
/// quoted, escaped strings (`["alice", "bob"]`). The contract claims that the text
/// depends on the names alone and, where no name needs escaping (ASCII letters
/// and digits), that it is the names in quotes, separated by `, `, in brackets;
/// which characters are escaped, and how, is left unsaid.
#[verifier::external_body]
fn format_names(names: &Vec<String>) -> (r: Vec<char>)
    ensures
        r@ == debug_list(names@.map_values(|n: String| n@)),
        (forall|k: int| 0 <= k < names@.len() ==> plain_name(#[trigger] names@[k]@)) ==> r@
            == seq!['['] + quoted_names(names@.map_values(|n: String| n@)) + seq![']'],
{
    format!("{:?}", names).chars().collect()
}

/// A member of the chat room, with where its messages go.
pub struct User<T> {
    pub name: String,
    pub tx: T,
}

/// The chat room.
pub struct Chat<T> {
    pub users: Vec<User<T>>,
}

/// A message for the user at `to` in the room.
pub struct Outgoing {
    pub to: usize,
    pub text: Vec<char>,
}

pub open spec fn outgoing_view(o: Seq<Outgoing>) -> Seq<(usize, Seq<char>)> {
    o.map_values(|x: Outgoing| (x.to, x.text@))
}

pub open spec fn names_of<T>(users: Seq<User<T>>) -> Seq<Seq<char>> {
    users.map_values(|u: User<T>| u.name@)
}

pub open spec fn room_contains_msg(names: Seq<Seq<char>>) -> Seq<char> {
    "* The room contains: "@ + debug_list(names) + "\n"@
}

pub open spec fn entered_msg(name: Seq<char>) -> Seq<char> {
    "* "@ + name + " has entered the room\n"@
}

pub open spec fn left_msg(name: Seq<char>) -> Seq<char> {
    "* "@ + name + " has left the room\n"@
}

pub open spec fn chat_msg(from: Seq<char>, message: Seq<char>) -> Seq<char> {
    "["@ + from + "] "@ + message
}

fn append_chars(r: &mut Vec<char>, s: &[char])
    ensures
        final(r)@ == old(r)@ + s@,
{
    let mut i: usize = 0;
    while i < s.len()
        invariant
            i <= s@.len(),
            r@ == old(r)@ + s@.take(i as int),
        decreases s@.len() - i,
    {
        r.push(s[i]);
        assert(s@.take(i + 1) =~= s@.take(i as int).push(s@[i as int]));
        i = i + 1;
    }
    assert(s@.take(s@.len() as int) =~= s@);
}

fn concat3(a: &str, b: &[char], c: &str) -> (r: Vec<char>)
    ensures
        r@ == a@ + b@ + c@,
{
    let mut r = chars_of(a);
    append_chars(&mut r, b);
    let cs = chars_of(c);
    append_chars(&mut r, cs.as_slice());
    r
}

/// The name that a user's first line gives: the line trimmed, where it holds only
/// alphanumeric characters.
pub open spec fn name_from(line: Seq<char>) -> Option<Seq<char>> {
    if forall|i: int| 0 <= i < trimmed(line).len() ==> alphanumeric(#[trigger] trimmed(line)[i]) {
        Some(trimmed(line))
    } else {
        None
    }
}

/// A name is the first line trimmed, and is taken exactly when each of its
/// characters is alphanumeric: a line with any other character in its trimmed
/// text gives no name.
pub proof fn lemma_name_rule(line: Seq<char>)
    ensures
        name_from(line) matches Some(n) ==> n == trimmed(line) && forall|i: int|
            0 <= i < n.len() ==> alphanumeric(#[trigger] n[i]),
        (exists|i: int| 0 <= i < trimmed(line).len() && !alphanumeric(#[trigger] trimmed(line)[i]))
            ==> name_from(line) is None,
        (forall|i: int| 0 <= i < trimmed(line).len() ==> alphanumeric(#[trigger] trimmed(line)[i]))
            ==> name_from(line) == Some(trimmed(line)),
{
}

/// Reads a user's name from the first line it sent.
pub fn name_from_line(line: &str) -> (r: Result<Vec<char>, ()>)
    ensures
        r matches Ok(n) ==> name_from(line@) == Some(n@),
        r is Err ==> name_from(line@) is None,
{
    let cs = chars_of(line);
    let name = trim_chars(cs.as_slice());
    let mut i: usize = 0;
    while i < name.len()
        invariant
            i <= name@.len(),
            name@ == trimmed(line@),
            forall|j: int| 0 <= j < i ==> alphanumeric(#[trigger] name@[j]),
        decreases name@.len() - i,
    {
        if !is_alphanumeric(name[i]) {
            return Err(());
        }
        i = i + 1;
    }
    Ok(name)
}

/// The index of the first user named `name`.
pub open spec fn first_named<T>(users: Seq<User<T>>, name: Seq<char>) -> Option<int>
    decreases users.len(),
{
    if users.len() == 0 {
        None
    } else {
        match first_named(users.drop_last(), name) {
            Some(k) => Some(k),
            None => if users.last().name@ == name {
                Some(users.len() - 1)
            } else {
                None
            },
        }
    }
}

proof fn lemma_first_named<T>(users: Seq<User<T>>, name: Seq<char>, k: int)
    requires
        0 <= k <= users.len(),
        forall|j: int| 0 <= j < k ==> (#[trigger] users[j]).name@ != name,
    ensures
        k < users.len() && users[k].name@ == name ==> first_named(users, name) == Some(k),
        k == users.len() ==> first_named(users, name) is None,
    decreases users.len(),
{
    if users.len() > 0 {
        if k < users.len() {
            if k < users.len() - 1 {
                lemma_first_named(users.drop_last(), name, k);
                assert(users.drop_last()[k] == users[k]);
            } else {
                lemma_first_named(users.drop_last(), name, k);
            }
        } else {
            lemma_first_named(users.drop_last(), name, k - 1);
        }
    }
}

impl<T> Chat<T> {
    pub fn new() -> (c: Self)
        ensures
            c.users@.len() == 0,
    {
        Chat { users: Vec::new() }
    }

    /// Lets `user` in: the user is told who is in the room, then everyone else that
    /// the user has entered; the user joins at the end of the room.
    pub fn add_user(&mut self, user: User<T>) -> (out: Vec<Outgoing>)
        ensures
            final(self).users@ == old(self).users@.push(user),
            outgoing_view(out@) == seq![(old(self).users@.len() as usize, room_contains_msg(names_of(old(self).users@)))]
                + Seq::new(
                old(self).users@.len(),
                |i: int| (i as usize, entered_msg(user.name@)),
            ),
            (forall|k: int|
                0 <= k < old(self).users@.len() ==> plain_name(#[trigger] old(self).users@[k].name@))
                ==> outgoing_view(out@)[0].1 == "* The room contains: "@ + seq!['['] + quoted_names(
                names_of(old(self).users@),
            ) + seq![']'] + "\n"@,
    {
        let mut names: Vec<String> = Vec::new();
        let mut i: usize = 0;
        while i < self.users.len()
            invariant
                i <= self.users@.len(),
                names@.map_values(|n: String| n@) == names_of(self.users@).take(i as int),
            decreases self.users@.len() - i,
        {
            let ghost before = names@.map_values(|n: String| n@);
            names.push(self.users[i].name.clone());
            assert(names@.map_values(|n: String| n@) =~= before.push(self.users@[i as int].name@));
            assert(names_of(self.users@).take(i + 1) =~= names_of(self.users@).take(i as int).push(
                self.users@[i as int].name@,
            ));
            i = i + 1;
        }
        assert(names_of(self.users@).take(self.users@.len() as int) =~= names_of(self.users@));
        proof {
            if forall|k: int|
                0 <= k < self.users@.len() ==> plain_name(#[trigger] self.users@[k].name@) {
                assert forall|k: int| 0 <= k < names@.len() implies plain_name(#[trigger] names@[k]@) by {
                    assert(names@.map_values(|n: String| n@)[k] == names_of(self.users@)[k]);
                }
            }
        }
        let listed = format_names(&names);
        let mut out: Vec<Outgoing> = Vec::new();
        out.push(
            Outgoing {
                to: self.users.len(),
                text: concat3("* The room contains: ", listed.as_slice(), "\n"),
            },
        );
        let uname = chars_of(user.name.as_str());
        let mut k: usize = 0;
        while k < self.users.len()
            invariant
                k <= self.users@.len(),
                uname@ == user.name@,
                outgoing_view(out@) == seq![(self.users@.len() as usize, room_contains_msg(names_of(self.users@)))]
                    + Seq::new(k as nat, |i: int| (i as usize, entered_msg(user.name@))),
            decreases self.users@.len() - k,
        {
            let ghost before = outgoing_view(out@);
            let text = concat3("* ", uname.as_slice(), " has entered the room\n");
            assert(text@ == entered_msg(user.name@));
            out.push(Outgoing { to: k, text });
            assert(outgoing_view(out@) =~= before.push((k, entered_msg(user.name@))));
            assert(outgoing_view(out@) =~= seq![(self.users@.len() as usize, room_contains_msg(names_of(self.users@)))]
                + Seq::new((k + 1) as nat, |i: int| (i as usize, entered_msg(user.name@))));
            k = k + 1;
        }
        self.users.push(user);
        out
    }

    /// Passes a message from the user `from` to everyone else.
    pub fn send_message(&self, from: &String, message: &str) -> (out: Vec<Outgoing>)
        ensures
            outgoing_view(out@) == Seq::new(self.users@.len(), |i: int| (i as usize, chat_msg(from@, message@))).filter(
                |x: (usize, Seq<char>)| self.users@[x.0 as int].name@ != from@,
            ),
    {
        let mut text = chars_of("[");
        let f = chars_of(from.as_str());
        append_chars(&mut text, f.as_slice());
        let sep = chars_of("] ");
        append_chars(&mut text, sep.as_slice());
        let m = chars_of(message);
        append_chars(&mut text, m.as_slice());
        let ghost all = Seq::new(self.users@.len(), |i: int| (i as usize, chat_msg(from@, message@)));
        let ghost keep = |x: (usize, Seq<char>)| self.users@[x.0 as int].name@ != from@;
        let mut out: Vec<Outgoing> = Vec::new();
        let mut i: usize = 0;
        while i < self.users.len()
            invariant
                i <= self.users@.len(),
                text@ == chat_msg(from@, message@),
                all == Seq::new(self.users@.len(), |i: int| (i as usize, chat_msg(from@, message@))),
                keep == (|x: (usize, Seq<char>)| self.users@[x.0 as int].name@ != from@),
                outgoing_view(out@) == all.take(i as int).filter(keep),
            decreases self.users@.len() - i,
        {
            assert(all.take(i + 1).drop_last() =~= all.take(i as int));
            assert(all.take(i + 1).last() == (i, chat_msg(from@, message@)));
            reveal_with_fuel(Seq::filter, 1);
            if self.users[i].name != *from {
                let ghost before = outgoing_view(out@);
                out.push(Outgoing { to: i, text: text.clone() });
                assert(outgoing_view(out@) =~= before.push((i, chat_msg(from@, message@))));
            }
            i = i + 1;
        }
        assert(all.take(self.users@.len() as int) =~= all);
        out
    }

    /// Lets the first user named `name` out, and tells everyone left.
    pub fn remove_user(&mut self, name: &String) -> (out: Vec<Outgoing>)
        ensures
            match first_named(old(self).users@, name@) {
                Some(k) => final(self).users@ == old(self).users@.remove(k),
                None => final(self).users@ == old(self).users@,
            },
            outgoing_view(out@) == Seq::new(
                final(self).users@.len(),
                |i: int| (i as usize, left_msg(name@)),
            ),
    {
        let mut i: usize = 0;
        while i < self.users.len() && self.users[i].name != *name
            invariant
                i <= self.users@.len(),
                self.users@ == old(self).users@,
                forall|j: int| 0 <= j < i ==> (#[trigger] old(self).users@[j]).name@ != name@,
            decreases self.users@.len() - i,
        {
            i = i + 1;
        }
        proof {
            lemma_first_named(old(self).users@, name@, i as int);
        }
        if i < self.users.len() {
            self.users.remove(i);
        }
        let uname = chars_of(name.as_str());
        let mut out: Vec<Outgoing> = Vec::new();
        let mut k: usize = 0;
        while k < self.users.len()
            invariant
                k <= self.users@.len(),
                uname@ == name@,
                outgoing_view(out@) == Seq::new(k as nat, |i: int| (i as usize, left_msg(name@))),
            decreases self.users@.len() - k,
        {
            let ghost before = outgoing_view(out@);
            let text = concat3("* ", uname.as_slice(), " has left the room\n");
            assert(text@ == left_msg(name@));
            out.push(Outgoing { to: k, text });
            assert(outgoing_view(out@) =~= before.push((k, left_msg(name@))));
            assert(outgoing_view(out@) =~= Seq::new((k + 1) as nat, |i: int| (i as usize, left_msg(name@))));
            k = k + 1;
        }
        out
    }
}

} // verus!
