use vstd::prelude::*;
use crate::messenger::commands::{CommandType, Commands, ParsedMessage};
use crate::messenger::cipher::from_utf8;
use vstd::utf8::{decode_utf8, valid_utf8};
use crate::text::{chars_of, split, split_by, string_from, string_of, trim, trim_by, views, Sep};

verus! {

/// An optional string as a plain value.
pub open spec fn opt_view(o: Option<String>) -> Option<Seq<char>> {
    match o {
        Some(s) => Some(s@),
        None => None,
    }
}

/// What the server knows of one client between its messages.
pub struct Session {
    /// A user is logged in.
    pub connected: bool,
    /// The user logged in, if any.
    pub user: Option<String>,
    /// The client is chatting in a lobby.
    pub connected_to_a_lobby: bool,
    /// The lobby the client is chatting in.
    pub lobby: Option<String>,
}

/// How a message outside a lobby is handled.
pub enum Dispatch {
    /// Carry out this command.
    Run(Commands),
    /// The command needs a logged-in user and there is none.
    NotConnected,
}

/// What follows a command that was carried out outside a lobby.
pub enum AfterCommand {
    /// Read the next message.
    Continue,
    /// Close the connection.
    Disconnect,
    /// Place the client in this lobby.
    Join(String),
}

/// How a message inside a lobby is handled.
pub enum LobbyStep {
    /// Leave the lobby.
    QuitLobby,
    /// Answer a line of the lobby's history.
    Reply(Commands),
    /// Record the message in the lobby's history and pass it to the other members.
    Broadcast { lobby: String, history: String, message: String },
}

/// The user a command acts for, as the server chooses it for each kind of command.
pub open spec fn command_user(s: Session, p: ParsedMessage) -> Option<Seq<char>> {
    match p.command_type {
        CommandType::Inbox | CommandType::Logout => Some(
            match s.user {
                Some(u) => u@,
                None => Seq::empty(),
            },
        ),
        CommandType::HistoryUser | CommandType::Send | CommandType::HistoryLobby
        | CommandType::CreateLobby | CommandType::DeleteLobby | CommandType::JoinLobby => opt_view(
            s.user,
        ),
        CommandType::Login => Some(p.rest_of_message@),
        _ => None,
    }
}

/// The command needs a logged-in user.
pub open spec fn needs_login(t: CommandType) -> bool {
    t == CommandType::CreateLobby || t == CommandType::DeleteLobby || t == CommandType::JoinLobby
}

/// The message a member sends in a lobby, as the others see it.
pub open spec fn lobby_line(user: Seq<char>, text: Seq<char>) -> Seq<char> {
    "["@ + user + "]: "@ + text
}

/// What a lobby message `text` from `user` should lead to, when the client joined the
/// lobby `lobby` and the second word of the last message read outside the lobby is
/// `room`: replies go to the joined lobby, other messages to `room` (the two are the same
/// unless a read error interrupted the chat).
pub open spec fn lobby_outcome(
    user: Seq<char>,
    lobby: Seq<char>,
    room: Seq<char>,
    text: Seq<char>,
    r: Option<LobbyStep>,
) -> bool {
    let line = lobby_line(user, text);
    let comm = split_by(line, Sep::SpaceOrNul)[1];
    if comm == "-quitlobby"@ {
        r matches Some(LobbyStep::QuitLobby)
    } else if comm == "-reply"@ {
        r matches Some(LobbyStep::Reply(c)) && c.command_type == CommandType::Reply
            && c.command_received@ == line && opt_view(c.user) == Some(lobby)
    } else {
        r matches Some(LobbyStep::Broadcast { lobby: name, history, message }) && name@ == room
            && history@ == trim_by(line, Sep::SpaceOrNul) && message@ == line
    }
}

/// A command's effect on the login: its kind, the second word of its message, and
/// whether it succeeded.
pub type LoginEvent = (CommandType, Seq<char>, bool);

/// The event is a successful login.
pub open spec fn is_login(e: LoginEvent) -> bool {
    e.2 && e.0 == CommandType::Login
}

/// The event is a successful logout.
pub open spec fn is_logout(e: LoginEvent) -> bool {
    e.2 && e.0 == CommandType::Logout
}

/// The user logged in after one more command: a successful login logs in the user its
/// message names, a successful logout logs out, anything else changes nothing.
pub open spec fn user_after(user: Option<Seq<char>>, e: LoginEvent) -> Option<Seq<char>> {
    if is_login(e) {
        Some(e.1)
    } else if is_logout(e) {
        None
    } else {
        user
    }
}

/// The user logged in after a connection's commands, from a fresh session.
pub open spec fn user_after_all(events: Seq<LoginEvent>) -> Option<Seq<char>>
    decreases events.len(),
{
    if events.len() == 0 {
        None
    } else {
        user_after(user_after_all(events.drop_last()), events.last())
    }
}

/// No logout succeeded after position `i`.
pub open spec fn no_logout_after(events: Seq<LoginEvent>, i: int) -> bool {
    forall|j: int| i < j < events.len() ==> !#[trigger] is_logout(events[j])
}

/// No login or logout succeeded after position `i`.
pub open spec fn quiet_after(events: Seq<LoginEvent>, i: int) -> bool {
    forall|j: int| i < j < events.len() ==> !is_login(#[trigger] events[j]) && !is_logout(events[j])
}

/// Some login succeeded and no logout succeeded after it.
pub open spec fn logged_in_since(events: Seq<LoginEvent>) -> bool {
    exists|i: int| 0 <= i < events.len() && #[trigger] is_login(events[i]) && no_logout_after(events, i)
}

proof fn lemma_after_prefix(events: Seq<LoginEvent>, i: int)
    requires
        events.len() > 0,
        0 <= i < events.len() - 1,
    ensures
        no_logout_after(events, i) <==> no_logout_after(events.drop_last(), i) && !is_logout(
            events.last(),
        ),
        quiet_after(events, i) <==> quiet_after(events.drop_last(), i) && !is_login(events.last())
            && !is_logout(events.last()),
{
    let p = events.drop_last();
    let n = events.len() - 1;
    assert(events[n] == events.last());
    if no_logout_after(events, i) {
        assert forall|j: int| i < j < p.len() implies !#[trigger] is_logout(p[j]) by {
            assert(p[j] == events[j]);
        }
    }
    if no_logout_after(p, i) && !is_logout(events.last()) {
        assert forall|j: int| i < j < events.len() implies !#[trigger] is_logout(events[j]) by {
            if j < n {
                assert(p[j] == events[j]);
            }
        }
    }
    if quiet_after(events, i) {
        assert forall|j: int| i < j < p.len() implies !is_login(#[trigger] p[j]) && !is_logout(p[j]) by {
            assert(p[j] == events[j]);
        }
    }
    if quiet_after(p, i) && !is_login(events.last()) && !is_logout(events.last()) {
        assert forall|j: int| i < j < events.len() implies !is_login(#[trigger] events[j])
            && !is_logout(events[j]) by {
            if j < n {
                assert(p[j] == events[j]);
            }
        }
    }
}

/// Over a connection's commands from a fresh session, a user is logged in exactly when
/// some login succeeded with no successful logout after it.
pub proof fn lemma_login_state(events: Seq<LoginEvent>)
    ensures
        user_after_all(events) is Some <==> logged_in_since(events),
    decreases events.len(),
{
    if events.len() > 0 {
        let p = events.drop_last();
        let n = events.len() - 1;
        let e = events.last();
        assert(events[n] == e);
        lemma_login_state(p);
        if is_login(e) {
            assert(no_logout_after(events, n));
        } else {
            if logged_in_since(events) {
                let i = choose|i: int|
                    0 <= i < events.len() && #[trigger] is_login(events[i]) && no_logout_after(events, i);
                assert(i < n);
                lemma_after_prefix(events, i);
                assert(p[i] == events[i]);
                assert(!is_logout(e));
                assert(logged_in_since(p));
            }
            if !is_logout(e) && logged_in_since(p) {
                let i = choose|i: int| 0 <= i < p.len() && #[trigger] is_login(p[i]) && no_logout_after(p, i);
                lemma_after_prefix(events, i);
                assert(events[i] == p[i]);
                assert(logged_in_since(events));
            }
        }
    }
}

/// Over a connection's commands from a fresh session, the user logged in is the one the
/// last successful login named when neither a login nor a logout succeeded after it.
pub proof fn lemma_login_name(events: Seq<LoginEvent>, i: int)
    requires
        0 <= i < events.len(),
        is_login(events[i]),
        quiet_after(events, i),
    ensures
        user_after_all(events) == Some(events[i].1),
    decreases events.len(),
{
    let n = events.len() - 1;
    if i < n {
        let p = events.drop_last();
        lemma_after_prefix(events, i);
        assert(p[i] == events[i]);
        lemma_login_name(p, i);
    }
}

/// Without a successful login since the last successful logout, a session that followed
/// the connection's commands has nobody logged in, so `dispatch` refuses the creating,
/// deleting and joining of lobbies.
pub proof fn lemma_lobby_commands_need_login(events: Seq<LoginEvent>, s: Session)
    requires
        s.wf(),
        opt_view(s.user) == user_after_all(events),
        !logged_in_since(events),
    ensures
        !s.connected,
        s.user is None,
{
    lemma_login_state(events);
}

/// What the end of a client's stream leads to.
pub struct EndOfStream {
    /// The user whose login is removed from the file of connected clients (empty when
    /// nobody is logged in); the client's line is removed after it.
    pub user: String,
    /// The client is taken out of its lobby.
    pub leave_lobby: bool,
    /// The connection is closed; inside a lobby only the chat ends, and the next read
    /// happens outside it.
    pub close: bool,
}

/// The user a session names, the empty text when none.
pub open spec fn user_or_empty(u: Option<Seq<char>>) -> Seq<char> {
    match u {
        Some(n) => n,
        None => Seq::empty(),
    }
}

impl Session {
    /// The session's invariant: a user is logged in exactly when one is named, and a
    /// client chats in a lobby only with the lobby named.
    pub open spec fn wf(&self) -> bool {
        &&& self.connected == self.user is Some
        &&& self.connected_to_a_lobby ==> self.lobby is Some
    }

    /// A fresh client: nobody logged in, in no lobby.
    pub fn new() -> (s: Self)
        ensures
            s.wf(),
            !s.connected,
            s.user is None,
            !s.connected_to_a_lobby,
            s.lobby is None,
    {
        Session { connected: false, user: None, connected_to_a_lobby: false, lobby: None }
    }

    /// The command to carry out for a message outside a lobby: the creating, deleting
    /// and joining of lobbies need a logged-in user; the command acts for the user the
    /// kind of command calls for.
    pub fn dispatch(&self, parsed: &ParsedMessage) -> (d: Dispatch)
        ensures
            needs_login(parsed.command_type) && !self.connected ==> d is NotConnected,
            !(needs_login(parsed.command_type) && !self.connected) ==> (d matches Dispatch::Run(c)
                && c.command_type == parsed.command_type && c.command_received@ == parsed.subtext@
                && opt_view(c.user) == command_user(*self, *parsed)),
    {
        let t = parsed.command_type;
        let subtext = string_of(&chars_of(parsed.subtext.as_str()));
        let user: Option<String> = match t {
            CommandType::Inbox | CommandType::Logout => Some(
                match &self.user {
                    Some(u) => string_of(&chars_of(u.as_str())),
                    None => String::new(),
                },
            ),
            CommandType::HistoryUser | CommandType::Send | CommandType::HistoryLobby
            | CommandType::CreateLobby | CommandType::DeleteLobby | CommandType::JoinLobby => {
                match &self.user {
                    Some(u) => Some(string_of(&chars_of(u.as_str()))),
                    None => None,
                }
            },
            CommandType::Login => Some(string_of(&chars_of(parsed.rest_of_message.as_str()))),
            _ => None,
        };
        if (t == CommandType::CreateLobby || t == CommandType::DeleteLobby || t
            == CommandType::JoinLobby) && !self.connected {
            return Dispatch::NotConnected;
        }
        Dispatch::Run(Commands::new(t, subtext, user))
    }

    /// Takes the result of a command into account: a successful login logs in the user
    /// the message names, a successful logout logs the user out; nothing else changes
    /// the session. Says what comes next: `-quit` ends the connection, a successful
    /// `-join` asks to place the client in the lobby the message names.
    pub fn finish(&mut self, parsed: &ParsedMessage, succeeded: bool) -> (a: AfterCommand)
        requires
            old(self).wf(),
        ensures
            final(self).wf(),
            final(self).connected_to_a_lobby == old(self).connected_to_a_lobby,
            final(self).lobby == old(self).lobby,
            opt_view(final(self).user) == user_after(
                opt_view(old(self).user),
                (parsed.command_type, parsed.rest_of_message@, succeeded),
            ),
            parsed.command_type == CommandType::Quit ==> a is Disconnect,
            parsed.command_type == CommandType::JoinLobby && succeeded ==> (a matches AfterCommand::Join(n)
                && n@ == parsed.rest_of_message@),
            parsed.command_type != CommandType::Quit && !(parsed.command_type == CommandType::JoinLobby
                && succeeded) ==> a is Continue,
    {
        if succeeded && parsed.command_type == CommandType::Login {
            self.user = Some(string_of(&chars_of(parsed.rest_of_message.as_str())));
            self.connected = true;
        } else if succeeded && parsed.command_type == CommandType::Logout {
            self.user = None;
            self.connected = false;
        }
        if parsed.command_type == CommandType::Quit {
            AfterCommand::Disconnect
        } else if succeeded && parsed.command_type == CommandType::JoinLobby {
            AfterCommand::Join(string_of(&chars_of(parsed.rest_of_message.as_str())))
        } else {
            AfterCommand::Continue
        }
    }

    /// Enters the lobby `name` once the client was placed there.
    pub fn enter_lobby(&mut self, name: String)
        requires
            old(self).wf(),
        ensures
            final(self).wf(),
            final(self).connected_to_a_lobby,
            opt_view(final(self).lobby) == Some(name@),
            final(self).connected == old(self).connected,
            opt_view(final(self).user) == opt_view(old(self).user),
    {
        self.connected_to_a_lobby = true;
        self.lobby = Some(name);
    }

    /// Leaves the lobby.
    pub fn leave_lobby(&mut self)
        requires
            old(self).wf(),
        ensures
            final(self).wf(),
            !final(self).connected_to_a_lobby,
            final(self).lobby is None,
            final(self).connected == old(self).connected,
            opt_view(final(self).user) == opt_view(old(self).user),
    {
        self.connected_to_a_lobby = false;
        self.lobby = None;
    }

    /// What the end of the client's stream leads to, `in_chat` telling whether it came
    /// while reading the lobby chat: the login of the session's user (or of the empty
    /// name) is removed and then the client's line; in the chat the client also leaves
    /// its lobby and only the chat ends, outside it the connection closes.
    pub fn end_of_stream(&self, in_chat: bool) -> (e: EndOfStream)
        ensures
            e.user@ == user_or_empty(opt_view(self.user)),
            e.leave_lobby == in_chat,
            e.close == !in_chat,
    {
        let user = match &self.user {
            Some(u) => string_of(&chars_of(u.as_str())),
            None => String::new(),
        };
        EndOfStream { user, leave_lobby: in_chat, close: !in_chat }
    }

    /// What a message sent in a lobby does, given the receive buffer (read whole as
    /// UTF-8): `-quitlobby` as its second word leaves the lobby, `-reply` answers a line
    /// of the lobby's history (the joined lobby's), and anything else is said in `room`,
    /// the second word of the last message read outside the lobby. `None` when no user is
    /// logged in, the client is in no lobby, or the buffer is not UTF-8; so a step is only
    /// given to a logged-in client.
    pub fn lobby_step(&self, buffer: &[u8], room: &str) -> (r: Option<LobbyStep>)
        ensures
            match (self.user, self.lobby) {
                (Some(u), Some(l)) => if valid_utf8(buffer@) {
                    lobby_outcome(u@, l@, room@, decode_utf8(buffer@), r)
                } else {
                    r is None
                },
                _ => r is None,
            },
            self.wf() && r is Some ==> self.connected,
    {
        match (&self.user, &self.lobby) {
            (Some(u), Some(l)) => {
                let text = match from_utf8(buffer) {
                    Some(t) => t,
                    None => return None,
                };
                let text = text.as_str();
                let mut line = string_from("[");
                line.append(u.as_str());
                line.append("]: ");
                line.append(text);
                let cs = chars_of(line.as_str());
                assert(cs@ == lobby_line(u@, text@));
                let parts = split(&cs, Sep::SpaceOrNul);
                proof {
                    lemma_has_separator(u@, text@);
                }
                assert(views(parts@)[1] == parts@[1]@);
                let quit = chars_of("-quitlobby");
                let reply = chars_of("-reply");
                let ghost comm = split_by(lobby_line(u@, text@), Sep::SpaceOrNul)[1];
                assert(comm == parts@[1]@);
                if crate::text::same_chars(&parts[1], &quit) {
                    Some(LobbyStep::QuitLobby)
                } else if crate::text::same_chars(&parts[1], &reply) {
                    let lobby = string_of(&chars_of(l.as_str()));
                    let c = Commands::new(CommandType::Reply, line, Some(lobby));
                    Some(LobbyStep::Reply(c))
                } else {
                    let history = string_of(&trim(&cs, Sep::SpaceOrNul));
                    let lobby = string_of(&chars_of(room));
                    Some(LobbyStep::Broadcast { lobby, history, message: line })
                }
            },
            _ => None,
        }
    }
}

/// A lobby line has a space or a NUL in it, so it splits into at least two pieces.
proof fn lemma_has_separator(user: Seq<char>, text: Seq<char>)
    ensures
        split_by(lobby_line(user, text), Sep::SpaceOrNul).len() >= 2,
{
    reveal_strlit("[");
    reveal_strlit("]: ");
    let line = lobby_line(user, text);
    let k: int = user.len() as int + 3;
    assert(line[k] == ' ');
    lemma_split_count(line, Sep::SpaceOrNul, k);
}

/// A text with a separator at position `k` splits into at least two pieces.
proof fn lemma_split_count(s: Seq<char>, sep: Sep, k: int)
    requires
        0 <= k < s.len(),
        crate::text::is_sep(sep, s[k]),
    ensures
        split_by(s, sep).len() >= 2,
    decreases s.len(),
{
    crate::text::lemma_split_nonempty(s.drop_last(), sep);
    if k < s.len() - 1 {
        lemma_split_count(s.drop_last(), sep, k);
    }
}

} // verus!
