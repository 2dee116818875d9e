use vstd::prelude::*;
use crate::text::{chars_of, contains, contains_seq, string_of, trim, trim_by, Sep};
use vstd::utf8::encode_utf8;

verus! {

/// What the client knows of its own state, from what the server answered.
pub struct ClientState {
    /// A user is logged in.
    pub connected: bool,
    /// The client is chatting in a lobby.
    pub lobby: bool,
}

/// A change of state that a server answer announces.
#[derive(Debug, PartialEq, Eq, Structural, Clone, Copy)]
pub enum Signal {
    Login,
    Logout,
    Lobby,
    QuitLobby,
}

/// The state change a server answer announces, if any (the first that applies of: a
/// successful login, a successful logout, entering a lobby, leaving a lobby).
pub open spec fn signal_spec(received: Seq<char>) -> Option<Signal> {
    if contains_seq(received, "Login successfully!"@) {
        Some(Signal::Login)
    } else if contains_seq(received, "Logout successfully!"@) {
        Some(Signal::Logout)
    } else if contains_seq(received, "\n--- CHAT GROUP ---\n For quit this session, use -quitlobby\n"@) {
        Some(Signal::Lobby)
    } else if contains_seq(
        received,
        "Disconnected successfully from lobby!\n Continue with -help to see available commands!"@,
    ) {
        Some(Signal::QuitLobby)
    } else {
        None
    }
}

/// The state change a server answer announces, if any.
pub fn signal_of(received: &str) -> (r: Option<Signal>)
    ensures
        r == signal_spec(received@),
{
    let cs = chars_of(received);
    if contains(&cs, &chars_of("Login successfully!")) {
        Some(Signal::Login)
    } else if contains(&cs, &chars_of("Logout successfully!")) {
        Some(Signal::Logout)
    } else if contains(&cs, &chars_of("\n--- CHAT GROUP ---\n For quit this session, use -quitlobby\n")) {
        Some(Signal::Lobby)
    } else if contains(
        &cs,
        &chars_of("Disconnected successfully from lobby!\n Continue with -help to see available commands!"),
    ) {
        Some(Signal::QuitLobby)
    } else {
        None
    }
}

/// Why the client keeps a line of input to itself, if it does: logging in twice,
/// logging out when not logged in, and asking for a lobby's history when not logged in
/// or while in a lobby.
pub open spec fn refusal_spec(s: ClientState, input: Seq<char>) -> Option<Seq<char>> {
    if contains_seq(input, "-login"@) && s.connected {
        Some("\nUser already connected!\n"@)
    } else if contains_seq(input, "-logout"@) && !s.connected {
        Some("\nUser already disconnected!\n"@)
    } else if contains_seq(input, "-historylobby"@) && !s.connected {
        Some("\nUser not connected!\n"@)
    } else if contains_seq(input, "-historylobby"@) && s.connected && s.lobby {
        Some("\nYou must quit this lobby to see history of conversation from lobby!\n"@)
    } else {
        None
    }
}

/// The bytes sent for a line of input: the line without surrounding whitespace, in
/// UTF-8, cut or padded with zeros to 50 bytes.
pub open spec fn frame_spec(input: Seq<char>) -> Seq<u8> {
    let b = encode_utf8(trim_by(input, Sep::Whitespace));
    Seq::new(50, |i: int| if i < b.len() { b[i] } else { 0u8 })
}

impl ClientState {
    /// Not logged in, in no lobby.
    pub fn new() -> (s: Self)
        ensures
            !s.connected,
            !s.lobby,
    {
        ClientState { connected: false, lobby: false }
    }

    /// The message shown instead of sending `input`, if the input is kept back.
    pub fn refusal(&self, input: &str) -> (r: Option<String>)
        ensures
            match refusal_spec(*self, input@) {
                Some(m) => r matches Some(s) && s@ == m,
                None => r is None,
            },
    {
        let cs = chars_of(input);
        let login = contains(&cs, &chars_of("-login"));
        let logout = contains(&cs, &chars_of("-logout"));
        let history = contains(&cs, &chars_of("-historylobby"));
        if login && self.connected {
            Some(string_of(&chars_of("\nUser already connected!\n")))
        } else if logout && !self.connected {
            Some(string_of(&chars_of("\nUser already disconnected!\n")))
        } else if history && !self.connected {
            Some(string_of(&chars_of("\nUser not connected!\n")))
        } else if history && self.connected && self.lobby {
            Some(string_of(&chars_of("\nYou must quit this lobby to see history of conversation from lobby!\n")))
        } else {
            None
        }
    }

    /// The prompt shown before reading input: none while in a lobby.
    pub fn prompt(&self) -> (p: Option<&'static str>)
        ensures
            self.lobby ==> p is None,
            !self.lobby && self.connected ==> (p matches Some(t) && t@ == "[login]: "@),
            !self.lobby && !self.connected ==> (p matches Some(t) && t@ == "[logout]: "@),
    {
        if !self.lobby {
            if self.connected {
                Some("[login]: ")
            } else {
                Some("[logout]: ")
            }
        } else {
            None
        }
    }

    /// Takes an announced state change into account.
    pub fn apply(&mut self, signal: Signal)
        ensures
            signal == Signal::Login ==> final(self).connected && final(self).lobby == old(self).lobby,
            signal == Signal::Logout ==> !final(self).connected && final(self).lobby == old(self).lobby,
            signal == Signal::Lobby ==> final(self).lobby && final(self).connected == old(self).connected,
            signal == Signal::QuitLobby ==> !final(self).lobby && final(self).connected == old(self).connected,
    {
        match signal {
            Signal::Login => self.connected = true,
            Signal::Logout => self.connected = false,
            Signal::Lobby => self.lobby = true,
            Signal::QuitLobby => self.lobby = false,
        }
    }
}

/// The bytes sent for a line of input.
pub fn frame(input: &str) -> (b: Vec<u8>)
    ensures
        b@ == frame_spec(input@),
{
    let t = string_of(&trim(&chars_of(input), Sep::Whitespace));
    let bytes = t.as_str().as_bytes();
    let mut out: Vec<u8> = Vec::new();
    let mut i: usize = 0;
    while i < 50
        invariant
            i <= 50,
            bytes@ == encode_utf8(t@),
            out@ =~= Seq::new(i as nat, |k: int| if k < bytes@.len() { bytes@[k] } else { 0u8 }),
        decreases 50 - i,
    {
        if i < bytes.len() {
            out.push(bytes[i]);
        } else {
            out.push(0);
        }
        i = i + 1;
    }
    out
}

} // verus!
