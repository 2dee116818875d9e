use vstd::prelude::*;
use crate::messenger::records::{
    read_between, read_view, reads_view, user_absent_from, find_user_in_users,
    find_user_in_connected_users, user_connected_from, lemma_user_connected,
};
use crate::text::{
    after_first, after_first_char, before_space_nul, chars_of, contains_seq, find, find_from,
    first_piece_space_nul, push_chars, remove_char, same_chars, split, split_by, string_from,
    string_of, trim, trim_by, views, without_char, Sep,
};
use crate::unicode::{alphanumeric, is_alphanumeric};

verus! {

/// The commands a client can send.
#[derive(Debug, PartialEq, Eq, Structural, Clone, Copy)]
pub enum CommandType {
    Help,
    Login,
    Register,
    Logout,
    Send,
    Inbox,
    Unknown,
    CreateLobby,
    JoinLobby,
    DeleteLobby,
    HistoryLobby,
    HistoryUser,
    Reply,
    Quit,
}

/// The command a word names.
pub open spec fn command_type_spec(w: Seq<char>) -> CommandType {
    if w == "-register"@ {
        CommandType::Register
    } else if w == "-login"@ {
        CommandType::Login
    } else if w == "-help"@ {
        CommandType::Help
    } else if w == "-logout"@ {
        CommandType::Logout
    } else if w == "-send"@ {
        CommandType::Send
    } else if w == "-inbox"@ {
        CommandType::Inbox
    } else if w == "-create"@ {
        CommandType::CreateLobby
    } else if w == "-delete"@ {
        CommandType::DeleteLobby
    } else if w == "-join"@ {
        CommandType::JoinLobby
    } else if w == "-historylobby"@ {
        CommandType::HistoryLobby
    } else if w == "-historyuser"@ {
        CommandType::HistoryUser
    } else if w == "-reply"@ {
        CommandType::Reply
    } else if w == "-quit"@ {
        CommandType::Quit
    } else {
        CommandType::Unknown
    }
}

/// Each of the thirteen command words names its own command, and every other word
/// names `Unknown`.
pub proof fn lemma_command_words(w: Seq<char>)
    ensures
        w == "-register"@ ==> command_type_spec(w) == CommandType::Register,
        w == "-login"@ ==> command_type_spec(w) == CommandType::Login,
        w == "-help"@ ==> command_type_spec(w) == CommandType::Help,
        w == "-logout"@ ==> command_type_spec(w) == CommandType::Logout,
        w == "-send"@ ==> command_type_spec(w) == CommandType::Send,
        w == "-inbox"@ ==> command_type_spec(w) == CommandType::Inbox,
        w == "-create"@ ==> command_type_spec(w) == CommandType::CreateLobby,
        w == "-delete"@ ==> command_type_spec(w) == CommandType::DeleteLobby,
        w == "-join"@ ==> command_type_spec(w) == CommandType::JoinLobby,
        w == "-historylobby"@ ==> command_type_spec(w) == CommandType::HistoryLobby,
        w == "-historyuser"@ ==> command_type_spec(w) == CommandType::HistoryUser,
        w == "-reply"@ ==> command_type_spec(w) == CommandType::Reply,
        w == "-quit"@ ==> command_type_spec(w) == CommandType::Quit,
        command_type_spec(w) == CommandType::Unknown <==> (w != "-register"@ && w != "-login"@ && w != "-help"@ && w != "-logout"@ && w != "-send"@ && w != "-inbox"@ && w != "-create"@ && w != "-delete"@ && w != "-join"@ && w != "-historylobby"@ && w != "-historyuser"@ && w != "-reply"@ && w != "-quit"@),
{
    reveal_strlit("-register");
    reveal_strlit("-login");
    reveal_strlit("-help");
    reveal_strlit("-logout");
    reveal_strlit("-send");
    reveal_strlit("-inbox");
    reveal_strlit("-create");
    reveal_strlit("-delete");
    reveal_strlit("-join");
    reveal_strlit("-historylobby");
    reveal_strlit("-historyuser");
    reveal_strlit("-reply");
    reveal_strlit("-quit");
    assert("-register"@.len() != "-login"@.len());
    assert("-register"@.len() != "-help"@.len());
    assert("-register"@.len() != "-logout"@.len());
    assert("-register"@.len() != "-send"@.len());
    assert("-register"@.len() != "-inbox"@.len());
    assert("-register"@.len() != "-create"@.len());
    assert("-register"@.len() != "-delete"@.len());
    assert("-register"@.len() != "-join"@.len());
    assert("-register"@.len() != "-historylobby"@.len());
    assert("-register"@.len() != "-historyuser"@.len());
    assert("-register"@.len() != "-reply"@.len());
    assert("-register"@.len() != "-quit"@.len());
    assert("-login"@.len() != "-help"@.len());
    assert("-login"@.len() != "-logout"@.len());
    assert("-login"@.len() != "-send"@.len());
    assert("-login"@[1] != "-inbox"@[1]);
    assert("-login"@.len() != "-create"@.len());
    assert("-login"@.len() != "-delete"@.len());
    assert("-login"@.len() != "-join"@.len());
    assert("-login"@.len() != "-historylobby"@.len());
    assert("-login"@.len() != "-historyuser"@.len());
    assert("-login"@[1] != "-reply"@[1]);
    assert("-login"@.len() != "-quit"@.len());
    assert("-help"@.len() != "-logout"@.len());
    assert("-help"@[1] != "-send"@[1]);
    assert("-help"@.len() != "-inbox"@.len());
    assert("-help"@.len() != "-create"@.len());
    assert("-help"@.len() != "-delete"@.len());
    assert("-help"@[1] != "-join"@[1]);
    assert("-help"@.len() != "-historylobby"@.len());
    assert("-help"@.len() != "-historyuser"@.len());
    assert("-help"@.len() != "-reply"@.len());
    assert("-help"@[1] != "-quit"@[1]);
    assert("-logout"@.len() != "-send"@.len());
    assert("-logout"@.len() != "-inbox"@.len());
    assert("-logout"@[1] != "-create"@[1]);
    assert("-logout"@[1] != "-delete"@[1]);
    assert("-logout"@.len() != "-join"@.len());
    assert("-logout"@.len() != "-historylobby"@.len());
    assert("-logout"@.len() != "-historyuser"@.len());
    assert("-logout"@.len() != "-reply"@.len());
    assert("-logout"@.len() != "-quit"@.len());
    assert("-send"@.len() != "-inbox"@.len());
    assert("-send"@.len() != "-create"@.len());
    assert("-send"@.len() != "-delete"@.len());
    assert("-send"@[1] != "-join"@[1]);
    assert("-send"@.len() != "-historylobby"@.len());
    assert("-send"@.len() != "-historyuser"@.len());
    assert("-send"@.len() != "-reply"@.len());
    assert("-send"@[1] != "-quit"@[1]);
    assert("-inbox"@.len() != "-create"@.len());
    assert("-inbox"@.len() != "-delete"@.len());
    assert("-inbox"@.len() != "-join"@.len());
    assert("-inbox"@.len() != "-historylobby"@.len());
    assert("-inbox"@.len() != "-historyuser"@.len());
    assert("-inbox"@[1] != "-reply"@[1]);
    assert("-inbox"@.len() != "-quit"@.len());
    assert("-create"@[1] != "-delete"@[1]);
    assert("-create"@.len() != "-join"@.len());
    assert("-create"@.len() != "-historylobby"@.len());
    assert("-create"@.len() != "-historyuser"@.len());
    assert("-create"@.len() != "-reply"@.len());
    assert("-create"@.len() != "-quit"@.len());
    assert("-delete"@.len() != "-join"@.len());
    assert("-delete"@.len() != "-historylobby"@.len());
    assert("-delete"@.len() != "-historyuser"@.len());
    assert("-delete"@.len() != "-reply"@.len());
    assert("-delete"@.len() != "-quit"@.len());
    assert("-join"@.len() != "-historylobby"@.len());
    assert("-join"@.len() != "-historyuser"@.len());
    assert("-join"@.len() != "-reply"@.len());
    assert("-join"@[1] != "-quit"@[1]);
    assert("-historylobby"@.len() != "-historyuser"@.len());
    assert("-historylobby"@.len() != "-reply"@.len());
    assert("-historylobby"@.len() != "-quit"@.len());
    assert("-historyuser"@.len() != "-reply"@.len());
    assert("-historyuser"@.len() != "-quit"@.len());
    assert("-reply"@.len() != "-quit"@.len());
}

fn is_word(w: &[char], lit: &str) -> (r: bool)
    ensures
        r == (w@ == lit@),
{
    same_chars(w, &chars_of(lit))
}

/// The command a word names: each of the thirteen command words its own command, every
/// other word `Unknown`.
pub fn command_type_of(w: &[char]) -> (t: CommandType)
    ensures
        t == command_type_spec(w@),
        w@ == "-register"@ ==> t == CommandType::Register,
        w@ == "-login"@ ==> t == CommandType::Login,
        w@ == "-help"@ ==> t == CommandType::Help,
        w@ == "-logout"@ ==> t == CommandType::Logout,
        w@ == "-send"@ ==> t == CommandType::Send,
        w@ == "-inbox"@ ==> t == CommandType::Inbox,
        w@ == "-create"@ ==> t == CommandType::CreateLobby,
        w@ == "-delete"@ ==> t == CommandType::DeleteLobby,
        w@ == "-join"@ ==> t == CommandType::JoinLobby,
        w@ == "-historylobby"@ ==> t == CommandType::HistoryLobby,
        w@ == "-historyuser"@ ==> t == CommandType::HistoryUser,
        w@ == "-reply"@ ==> t == CommandType::Reply,
        w@ == "-quit"@ ==> t == CommandType::Quit,
        t == CommandType::Unknown <==> (w@ != "-register"@ && w@ != "-login"@ && w@ != "-help"@ && w@ != "-logout"@ && w@ != "-send"@ && w@ != "-inbox"@ && w@ != "-create"@ && w@ != "-delete"@ && w@ != "-join"@ && w@ != "-historylobby"@ && w@ != "-historyuser"@ && w@ != "-reply"@ && w@ != "-quit"@),
{
    proof {
        lemma_command_words(w@);
    }
    if is_word(w, "-register") {
        CommandType::Register
    } else if is_word(w, "-login") {
        CommandType::Login
    } else if is_word(w, "-help") {
        CommandType::Help
    } else if is_word(w, "-logout") {
        CommandType::Logout
    } else if is_word(w, "-send") {
        CommandType::Send
    } else if is_word(w, "-inbox") {
        CommandType::Inbox
    } else if is_word(w, "-create") {
        CommandType::CreateLobby
    } else if is_word(w, "-delete") {
        CommandType::DeleteLobby
    } else if is_word(w, "-join") {
        CommandType::JoinLobby
    } else if is_word(w, "-historylobby") {
        CommandType::HistoryLobby
    } else if is_word(w, "-historyuser") {
        CommandType::HistoryUser
    } else if is_word(w, "-reply") {
        CommandType::Reply
    } else if is_word(w, "-quit") {
        CommandType::Quit
    } else {
        CommandType::Unknown
    }
}

/// A received message taken apart.
pub struct ParsedMessage {
    /// The command its first word names.
    pub command_type: CommandType,
    /// Its second word.
    pub rest_of_message: String,
    /// What follows its first space (all of it when there is none).
    pub subtext: String,
}

/// Takes a received message apart; words end at spaces and NUL characters. `None` when
/// the message is a single word, which has no second word to take.
pub fn parse_message(msg: &str) -> (r: Option<ParsedMessage>)
    ensures
        ({
            let pieces = split_by(msg@, Sep::SpaceOrNul);
            &&& (r is Some <==> pieces.len() >= 2)
            &&& r matches Some(p) ==> p.command_type == command_type_spec(pieces[0])
                && p.rest_of_message@ == pieces[1] && p.subtext@ == after_first(msg@, ' ')
        }),
{
    let cs = chars_of(msg);
    let pieces = split(&cs, Sep::SpaceOrNul);
    if pieces.len() < 2 {
        return None;
    }
    assert(views(pieces@)[0] == pieces@[0]@ && views(pieces@)[1] == pieces@[1]@);
    let command_type = command_type_of(&pieces[0]);
    let rest_of_message = string_of(&pieces[1]);
    let subtext = string_of(&after_first_char(&cs, ' '));
    Some(ParsedMessage { command_type, rest_of_message, subtext })
}

/// A command to carry out for a client.
pub struct Commands {
    pub command_type: CommandType,
    /// The message without its command word.
    pub command_received: String,
    /// The user the command acts for, if any.
    pub user: Option<String>,
}

/// How a login ends.
#[derive(Debug, PartialEq, Eq, Structural)]
pub enum LoginOutcome {
    /// The name is in the file of connected clients already.
    AlreadyConnected,
    /// A line of the user list could not be read.
    ReadError,
    /// The name is not in the user list.
    NotRegistered,
    /// The user logs in.
    Success,
}

/// Scanning the user list from line `i` for a line that has `name` among its
/// comma-separated fields.
pub open spec fn login_scan_from(ls: Seq<Option<Seq<char>>>, name: Seq<char>, i: int) -> LoginOutcome
    decreases ls.len() - i,
{
    if i >= ls.len() {
        LoginOutcome::NotRegistered
    } else {
        match ls[i] {
            None => LoginOutcome::ReadError,
            Some(l) => if split_by(l, Sep::Char(',')).contains(name) {
                LoginOutcome::Success
            } else {
                login_scan_from(ls, name, i + 1)
            },
        }
    }
}

/// Scanning the user list for a login ends on `Success` exactly when some line, with
/// every line before it read, has the name among its comma-separated fields; on
/// `NotRegistered` exactly when every line was read and none has it.
pub proof fn lemma_login_scan(ls: Seq<Option<Seq<char>>>, name: Seq<char>, i: int)
    requires
        0 <= i <= ls.len(),
    ensures
        login_scan_from(ls, name, i) == LoginOutcome::Success <==> exists|k: int|
            i <= k < ls.len() && read_between(ls, i, k) && #[trigger] ls[k] is Some && split_by(
                ls[k].unwrap(),
                Sep::Char(','),
            ).contains(name),
        login_scan_from(ls, name, i) == LoginOutcome::NotRegistered <==> forall|j: int|
            i <= j < ls.len() ==> #[trigger] ls[j] is Some && !split_by(ls[j].unwrap(), Sep::Char(','))
                .contains(name),
    decreases ls.len() - i,
{
    if i < ls.len() {
        lemma_login_scan(ls, name, i + 1);
        match ls[i] {
            None => {
                if exists|k: int|
                    i <= k < ls.len() && read_between(ls, i, k) && #[trigger] ls[k] is Some && split_by(
                        ls[k].unwrap(),
                        Sep::Char(','),
                    ).contains(name) {
                    let k = choose|k: int|
                        i <= k < ls.len() && read_between(ls, i, k) && #[trigger] ls[k] is Some
                            && split_by(ls[k].unwrap(), Sep::Char(',')).contains(name);
                    if k > i {
                        assert(ls[i] is Some);
                    }
                }
            },
            Some(l) => {
                if split_by(l, Sep::Char(',')).contains(name) {
                    assert(read_between(ls, i, i));
                } else {
                    if exists|k: int|
                        i <= k < ls.len() && read_between(ls, i, k) && #[trigger] ls[k] is Some
                            && split_by(ls[k].unwrap(), Sep::Char(',')).contains(name) {
                        let k = choose|k: int|
                            i <= k < ls.len() && read_between(ls, i, k) && #[trigger] ls[k] is Some
                                && split_by(ls[k].unwrap(), Sep::Char(',')).contains(name);
                        assert(k > i);
                        assert(read_between(ls, i + 1, k));
                    }
                    if exists|k: int|
                        i + 1 <= k < ls.len() && read_between(ls, i + 1, k) && #[trigger] ls[k] is Some
                            && split_by(ls[k].unwrap(), Sep::Char(',')).contains(name) {
                        let k = choose|k: int|
                            i + 1 <= k < ls.len() && read_between(ls, i + 1, k) && #[trigger] ls[k]
                                is Some && split_by(ls[k].unwrap(), Sep::Char(',')).contains(name);
                        assert(read_between(ls, i, k));
                    }
                }
            },
        }
    }
}

/// The name a message gives: what comes before the first space directly followed by a
/// NUL, without NUL characters.
pub open spec fn given_name(received: Seq<char>) -> Seq<char> {
    without_char(before_space_nul(received), '\0')
}

/// `s` up to its first NUL character.
pub open spec fn before_nul(s: Seq<char>) -> Seq<char> {
    s.take(find_from(s, Sep::Char('\0'), 0))
}

/// The name a registration asks for, when it is one: trimmed of spaces and NULs,
/// nonempty and alphanumeric throughout.
pub open spec fn registration_name(received: Seq<char>) -> Option<Seq<char>> {
    let t = trim_by(before_space_nul(received), Sep::SpaceOrNul);
    if t.len() > 0 && forall|i: int| 0 <= i < t.len() ==> #[trigger] alphanumeric(t[i]) {
        Some(before_nul(t))
    } else {
        None
    }
}

/// What sending a message comes to.
pub enum SendOutcome {
    /// Nobody is logged in.
    NotConnected,
    /// The addressee is not in the user list.
    NotRegistered,
    /// The addressee is the sender.
    SelfMessage,
    /// The entry to add to the addressee's inbox.
    Deliver { recipient: String, entry: String },
}

/// The addressee of a message: its first space-separated word.
pub open spec fn addressee(received: Seq<char>) -> Seq<char> {
    split_by(received, Sep::Char(' '))[0]
}

/// The inbox entry for a message from `user`: `[From user]: ` and the text after the
/// addressee, without NUL characters.
pub open spec fn inbox_entry(user: Seq<char>, received: Seq<char>) -> Seq<char> {
    "[From "@ + user + "]: "@ + without_char(after_first(received, ' '), '\0')
}

/// The two forms of a reply: for the lobby's history and for the lobby's members.
pub struct ReplyText {
    pub history: String,
    pub broadcast: String,
}

/// Each piece followed by one space, all concatenated.
pub open spec fn spaced_pieces(pieces: Seq<Seq<char>>) -> Seq<char>
    decreases pieces.len(),
{
    if pieces.len() == 0 {
        Seq::empty()
    } else {
        spaced_pieces(pieces.drop_last()) + pieces.last().push(' ')
    }
}

/// The latest line read (from the end) that contains `user`, if any.
pub open spec fn latest_containing(ls: Seq<Seq<char>>, user: Seq<char>) -> Option<Seq<char>>
    decreases ls.len(),
{
    if ls.len() == 0 {
        None
    } else if crate::text::contains_seq(ls.last(), user) {
        Some(ls.last())
    } else {
        latest_containing(ls.drop_last(), user)
    }
}

/// The latest line containing `user` is the last line that contains it: present
/// exactly when some line does, and no later line contains it.
pub proof fn lemma_latest_containing(ls: Seq<Seq<char>>, user: Seq<char>)
    ensures
        latest_containing(ls, user) is Some <==> exists|k: int|
            0 <= k < ls.len() && crate::text::contains_seq(#[trigger] ls[k], user),
        latest_containing(ls, user) matches Some(l) ==> exists|k: int|
            0 <= k < ls.len() && #[trigger] ls[k] == l && crate::text::contains_seq(l, user)
                && forall|m: int| k < m < ls.len() ==> !crate::text::contains_seq(#[trigger] ls[m], user),
    decreases ls.len(),
{
    if ls.len() > 0 {
        let p = ls.drop_last();
        let n = ls.len() - 1;
        lemma_latest_containing(p, user);
        if crate::text::contains_seq(ls.last(), user) {
            assert(ls[n] == ls.last());
        } else {
            if exists|k: int| 0 <= k < ls.len() && crate::text::contains_seq(#[trigger] ls[k], user) {
                let k = choose|k: int| 0 <= k < ls.len() && crate::text::contains_seq(#[trigger] ls[k], user);
                assert(k < n);
                assert(p[k] == ls[k]);
            }
            if exists|k: int| 0 <= k < p.len() && crate::text::contains_seq(#[trigger] p[k], user) {
                let k = choose|k: int| 0 <= k < p.len() && crate::text::contains_seq(#[trigger] p[k], user);
                assert(ls[k] == p[k]);
            }
            if latest_containing(ls, user) is Some {
                let l = latest_containing(ls, user)->0;
                let k = choose|k: int|
                    0 <= k < p.len() && #[trigger] p[k] == l && crate::text::contains_seq(l, user)
                        && forall|m: int| k < m < p.len() ==> !crate::text::contains_seq(#[trigger] p[m], user);
                assert(ls[k] == p[k]);
                assert forall|m: int| k < m < ls.len() implies !crate::text::contains_seq(
                    #[trigger] ls[m],
                    user,
                ) by {
                    if m < n {
                        assert(ls[m] == p[m]);
                    } else {
                        assert(ls[m] == ls.last());
                    }
                }
            }
        }
    }
}

/// The reply that a lobby message `[sender]: -reply user words...` makes to the latest
/// line of the history that mentions `user`.
pub open spec fn reply_text(received: Seq<char>, history: Seq<Seq<char>>) -> Option<Seq<char>> {
    let parts = split_by(received, Sep::SpaceOrNul);
    let target = if parts.len() > 2 {
        parts[2]
    } else {
        Seq::empty()
    };
    let words = if parts.len() > 3 {
        parts.skip(3)
    } else {
        Seq::empty()
    };
    match latest_containing(history, target) {
        Some(l) => Some("replied to:( "@ + l + " ) =>> "@ + parts[0] + " "@ + spaced_pieces(words)),
        None => None,
    }
}

impl Commands {
    /// A command for a client.
    pub fn new(command_type: CommandType, command_received: String, user: Option<String>) -> (c: Self)
        ensures
            c.command_type == command_type,
            c.command_received == command_received,
            c.user == user,
    {
        Commands { command_type, command_received, user }
    }

    /// The lobby or user name the message gives.
    pub fn given_name(&self) -> (n: String)
        ensures
            n@ == given_name(self.command_received@),
    {
        let cs = chars_of(self.command_received.as_str());
        let first = first_piece_space_nul(&cs);
        string_of(&remove_char(&first, '\0'))
    }

    /// How a login with this message ends, given the user list and the file of
    /// connected clients (line by line; `None` where a line could not be read): refused
    /// when the file of connected clients names the user; else it succeeds exactly when
    /// some line of the user list, with every line before it read, has the name among its
    /// comma-separated fields, and the name is unregistered exactly when every line was
    /// read and none has it.
    pub fn login_outcome(&self, users: &[Option<String>], connected: &[Option<String>]) -> (r: LoginOutcome)
        ensures
            ({
                let name = given_name(self.command_received@);
                if user_connected_from(reads_view(connected@), name, 0) {
                    r == LoginOutcome::AlreadyConnected
                } else {
                    r == login_scan_from(reads_view(users@), name, 0)
                }
            }),
            ({
                let name = given_name(self.command_received@);
                let us = reads_view(users@);
                let busy = exists|k: int|
                    0 <= k < reads_view(connected@).len() && read_between(reads_view(connected@), 0, k)
                        && #[trigger] reads_view(connected@)[k] is Some && contains_seq(
                        reads_view(connected@)[k].unwrap(),
                        name,
                    );
                &&& busy ==> r == LoginOutcome::AlreadyConnected
                &&& !busy ==> (r == LoginOutcome::Success <==> exists|k: int|
                    0 <= k < us.len() && read_between(us, 0, k) && #[trigger] us[k] is Some
                        && split_by(us[k].unwrap(), Sep::Char(',')).contains(name))
                &&& !busy ==> (r == LoginOutcome::NotRegistered <==> forall|j: int|
                    0 <= j < us.len() ==> #[trigger] us[j] is Some && !split_by(
                        us[j].unwrap(),
                        Sep::Char(','),
                    ).contains(name))
            }),
    {
        let r = self.login_scan(users, connected);
        proof {
            let name = given_name(self.command_received@);
            lemma_user_connected(reads_view(connected@), name, 0);
            lemma_login_scan(reads_view(users@), name, 0);
        }
        r
    }

    fn login_scan(&self, users: &[Option<String>], connected: &[Option<String>]) -> (r: LoginOutcome)
        ensures
            ({
                let name = given_name(self.command_received@);
                if user_connected_from(reads_view(connected@), name, 0) {
                    r == LoginOutcome::AlreadyConnected
                } else {
                    r == login_scan_from(reads_view(users@), name, 0)
                }
            }),
    {
        let name = self.given_name();
        if find_user_in_connected_users(connected, name.as_str()) {
            return LoginOutcome::AlreadyConnected;
        }
        let ghost lv = reads_view(users@);
        let n = chars_of(name.as_str());
        let mut i: usize = 0;
        while i < users.len()
            invariant
                i <= users@.len(),
                n@ == name@,
                name@ == given_name(self.command_received@),
                !user_connected_from(reads_view(connected@), name@, 0),
                lv == reads_view(users@),
                login_scan_from(lv, name@, 0) == login_scan_from(lv, name@, i as int),
            decreases users@.len() - i,
        {
            assert(lv[i as int] == read_view(users@[i as int]));
            match &users[i] {
                None => return LoginOutcome::ReadError,
                Some(l) => {
                    let fields = split(&chars_of(l.as_str()), Sep::Char(','));
                    let ghost fv = views(fields@);
                    assert(fv == split_by(l@, Sep::Char(',')));
                    assert(lv[i as int] == Some(l@));
                    let mut k: usize = 0;
                    while k < fields.len()
                        invariant
                            k <= fields@.len(),
                            fv == views(fields@),
                            fv == split_by(l@, Sep::Char(',')),
                            i < lv.len(),
                            lv[i as int] == Some(l@),
                            login_scan_from(lv, name@, 0) == login_scan_from(lv, name@, i as int),
                            name@ == given_name(self.command_received@),
                            !user_connected_from(reads_view(connected@), name@, 0),
                            lv == reads_view(users@),
                            n@ == name@,
                            forall|m: int| 0 <= m < k ==> fv[m] != name@,
                        decreases fields@.len() - k,
                    {
                        if same_chars(&fields[k], &n) {
                            assert(fv[k as int] == name@);
                            return LoginOutcome::Success;
                        }
                        k = k + 1;
                    }
                    assert(!fv.contains(name@));
                },
            }
            i = i + 1;
        }
        LoginOutcome::NotRegistered
    }

    /// The name this registration asks for, when it is a valid one.
    pub fn register_name(&self) -> (r: Option<String>)
        ensures
            match registration_name(self.command_received@) {
                Some(n) => r matches Some(s) && s@ == n,
                None => r is None,
            },
    {
        let cs = chars_of(self.command_received.as_str());
        let first = first_piece_space_nul(&cs);
        let t = trim(&first, Sep::SpaceOrNul);
        if t.len() == 0 {
            return None;
        }
        let ghost tv = trim_by(before_space_nul(self.command_received@), Sep::SpaceOrNul);
        assert(t@ == tv);
        let mut i: usize = 0;
        while i < t.len()
            invariant
                i <= t@.len(),
                t@ == tv,
                tv == trim_by(before_space_nul(self.command_received@), Sep::SpaceOrNul),
                forall|j: int| 0 <= j < i ==> #[trigger] alphanumeric(t@[j]),
            decreases t@.len() - i,
        {
            if !is_alphanumeric(t[i]) {
                assert(!alphanumeric(tv[i as int]));
                return None;
            }
            i = i + 1;
        }
        let k = find(&t, Sep::Char('\0'));
        let mut r: Vec<char> = Vec::new();
        let mut j: usize = 0;
        while j < k
            invariant
                j <= k <= t@.len(),
                r@ =~= t@.take(j as int),
            decreases k - j,
        {
            r.push(t[j]);
            j = j + 1;
        }
        Some(string_of(&r))
    }

    /// The name this registration adds to the user list, given the list (line by line;
    /// `None` where a line could not be read): a valid name that the list does not hold
    /// yet; `None` for an invalid or taken name.
    pub fn registration(&self, users: &[Option<String>]) -> (r: Option<String>)
        ensures
            match registration_name(self.command_received@) {
                Some(n) => if user_absent_from(reads_view(users@), n, 0) {
                    r matches Some(s) && s@ == n
                } else {
                    r is None
                },
                None => r is None,
            },
    {
        match self.register_name() {
            Some(name) => if find_user_in_users(users, name.as_str()) {
                Some(name)
            } else {
                None
            },
            None => None,
        }
    }

    /// What sending this message comes to, given the user list.
    pub fn send_outcome(&self, users: &[Option<String>]) -> (r: SendOutcome)
        ensures
            match self.user {
                None => r is NotConnected,
                Some(u) => {
                    let to = addressee(self.command_received@);
                    if user_absent_from(reads_view(users@), to, 0) {
                        r is NotRegistered
                    } else if to == u@ {
                        r is SelfMessage
                    } else {
                        r matches SendOutcome::Deliver { recipient, entry } && recipient@ == to
                            && entry@ == inbox_entry(u@, self.command_received@)
                    }
                },
            },
    {
        match &self.user {
            None => SendOutcome::NotConnected,
            Some(u) => {
                let cs = chars_of(self.command_received.as_str());
                let pieces = split(&cs, Sep::Char(' '));
                proof {
                    crate::text::lemma_split_nonempty(cs@, Sep::Char(' '));
                }
                assert(views(pieces@)[0] == pieces@[0]@);
                let to = string_of(&pieces[0]);
                if find_user_in_users(users, to.as_str()) {
                    return SendOutcome::NotRegistered;
                }
                if same_chars(&pieces[0], &chars_of(u.as_str())) {
                    return SendOutcome::SelfMessage;
                }
                let mut entry = string_from("[From ");
                entry.append(u.as_str());
                entry.append("]: ");
                let text = remove_char(&after_first_char(&cs, ' '), '\0');
                push_chars(&mut entry, &text);
                SendOutcome::Deliver { recipient: to, entry }
            },
        }
    }

    /// The reply this lobby message makes, given the lobby's history (line by line;
    /// `None` where a line could not be read); `None` when no line mentions the user it
    /// answers.
    pub fn reply_outcome(&self, history: &[Option<String>]) -> (r: Option<ReplyText>)
        ensures
            match reply_text(self.command_received@, crate::messenger::records::read_lines(reads_view(history@))) {
                Some(m) => r matches Some(t) && t.history@ == trim_by(m, Sep::SpaceOrNul)
                    && t.broadcast@ == trim_by(m, Sep::Whitespace),
                None => r is None,
            },
    {
        let cs = chars_of(self.command_received.as_str());
        let parts = split(&cs, Sep::SpaceOrNul);
        proof {
            crate::text::lemma_split_nonempty(cs@, Sep::SpaceOrNul);
        }
        let ghost pv = views(parts@);
        let empty: Vec<char> = Vec::new();
        let target: &Vec<char> = if parts.len() > 2 {
            &parts[2]
        } else {
            &empty
        };
        let mut words = String::new();
        let mut k: usize = 3;
        let ghost ws = if pv.len() > 3 {
            pv.skip(3)
        } else {
            Seq::empty()
        };
        assert(ws.take(0) =~= Seq::<Seq<char>>::empty());
        while k < parts.len()
            invariant
                3 <= k,
                pv == views(parts@),
                ws == (if pv.len() > 3 {
                    pv.skip(3)
                } else {
                    Seq::empty()
                }),
                k <= parts@.len() || (k == 3 && parts@.len() <= 3),
                parts@.len() > 3 ==> words@ == spaced_pieces(ws.take(k - 3)),
                parts@.len() <= 3 ==> words@ == Seq::<char>::empty(),
            decreases parts@.len() - k,
        {
            push_chars(&mut words, &parts[k]);
            crate::text::push_char(&mut words, ' ');
            assert(ws.take(k - 2).drop_last() =~= ws.take(k - 3));
            assert(ws.take(k - 2).last() == parts@[k as int]@);
            k = k + 1;
        }
        proof {
            if pv.len() > 3 {
                assert(ws.take(k - 3) =~= ws);
            } else {
                assert(ws.len() == 0);
            }
        }
        let ghost hv = crate::messenger::records::read_lines(reads_view(history@));
        let ghost tv = if pv.len() > 2 {
            pv[2]
        } else {
            Seq::empty()
        };
        let found = latest_mention(history, target);
        match found {
            Some(line) => {
                let mut m = string_from("replied to:( ");
                m.append(line.as_str());
                m.append(" ) =>> ");
                push_chars(&mut m, &parts[0]);
                m.append(" ");
                m.append(words.as_str());
                let mc = chars_of(m.as_str());
                let history_text = string_of(&trim(&mc, Sep::SpaceOrNul));
                let broadcast = string_of(&trim(&mc, Sep::Whitespace));
                Some(ReplyText { history: history_text, broadcast })
            },
            None => None,
        }
    }
}

/// The latest line that could be read and contains `target`.
fn latest_mention(history: &[Option<String>], target: &[char]) -> (r: Option<String>)
    ensures
        match latest_containing(crate::messenger::records::read_lines(reads_view(history@)), target@) {
            Some(l) => r matches Some(s) && s@ == l,
            None => r is None,
        },
{
    let ghost lv = reads_view(history@);
    let mut i: usize = history.len();
    assert(lv.take(i as int) =~= lv);
    while i > 0
        invariant
            i <= history@.len(),
            lv == reads_view(history@),
            latest_containing(crate::messenger::records::read_lines(lv), target@)
                == latest_containing(crate::messenger::records::read_lines(lv.take(i as int)), target@),
        decreases i,
    {
        assert(lv.take(i as int).drop_last() =~= lv.take(i - 1));
        assert(lv.take(i as int).last() == read_view(history@[i - 1]));
        let ghost x = crate::messenger::records::read_lines(lv.take(i - 1));
        match &history[i - 1] {
            Some(l) => {
                assert(crate::messenger::records::read_lines(lv.take(i as int)) == x.push(l@));
                assert(x.push(l@).drop_last() =~= x);
                let lc = chars_of(l.as_str());
                if crate::text::contains(&lc, target) {
                    return Some(string_of(&lc));
                }
            },
            None => {
                assert(crate::messenger::records::read_lines(lv.take(i as int)) == x);
            },
        }
        i = i - 1;
    }
    None
}

/// The header of a user's inbox history.
pub fn history_user_header(user: &str) -> (h: String)
    ensures
        h@ == "      ---- History of inbox for < "@ + user@ + " > ----\n"@,
{
    let mut h = string_from("      ---- History of inbox for < ");
    h.append(user);
    h.append(" > ----\n");
    h
}

/// The header of a lobby's history.
pub fn history_lobby_header(name: &str) -> (h: String)
    ensures
        h@ == "    ---- History of conversation from < "@ + name@ + " > ----\n"@,
{
    let mut h = string_from("    ---- History of conversation from < ");
    h.append(name);
    h.append(" > ----\n");
    h
}

/// `s` without NUL characters.
pub fn without_nul(s: &str) -> (r: String)
    ensures
        r@ == without_char(s@, '\0'),
{
    string_of(&remove_char(&chars_of(s), '\0'))
}

} // verus!
