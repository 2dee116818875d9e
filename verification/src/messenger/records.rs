use vstd::prelude::*;
use crate::text::{
    chars_of, contains, contains_seq, lines, lines_of, push_chars, same_chars,
    starts_with, starts_with_seq, string_of, string_views, trim, trim_by, views, Sep,
    lemma_trimmed_first, lemma_trim_fixed, lemma_trimmed_last, lemma_lines_append_line, strip_cr,
};
use crate::unicode::whitespace;

verus! {

/// A line read from a file, or `None` where reading it failed.
pub open spec fn read_view(l: Option<String>) -> Option<Seq<char>> {
    match l {
        Some(s) => Some(s@),
        None => None,
    }
}

/// The lines read from a file, as plain values.
pub open spec fn reads_view(ls: Seq<Option<String>>) -> Seq<Option<Seq<char>>> {
    ls.map_values(|l: Option<String>| read_view(l))
}

/// A line of the file of connected clients, with the address it names when it reads as
/// a socket address (in the address's canonical text).
pub struct ClientLine {
    pub text: String,
    pub parsed: Option<String>,
}

/// The line names the address `addr`.
pub open spec fn names_address(l: ClientLine, addr: Seq<char>) -> bool {
    match l.parsed {
        Some(p) => p@ == addr,
        None => false,
    }
}

/// The texts of the lines among the first `n` that do not name `addr`.
pub open spec fn kept_clients(ls: Seq<ClientLine>, addr: Seq<char>, n: int) -> Seq<Seq<char>>
    decreases n,
{
    if n <= 0 {
        Seq::empty()
    } else if names_address(ls[n - 1], addr) {
        kept_clients(ls, addr, n - 1)
    } else {
        kept_clients(ls, addr, n - 1).push(ls[n - 1].text@)
    }
}

/// Removing a client keeps, in order, the texts of exactly the lines that do not read as
/// its address.
pub proof fn lemma_kept_clients_filter(ls: Seq<ClientLine>, addr: Seq<char>, n: int)
    requires
        0 <= n <= ls.len(),
    ensures
        kept_clients(ls, addr, n) == ls.take(n).filter(
            |l: ClientLine| !(l.parsed is Some && l.parsed.unwrap()@ == addr),
        ).map_values(|l: ClientLine| l.text@),
    decreases n,
{
    reveal(Seq::filter);
    let pred = |l: ClientLine| !(l.parsed is Some && l.parsed.unwrap()@ == addr);
    if n > 0 {
        lemma_kept_clients_filter(ls, addr, n - 1);
        assert(ls.take(n).drop_last() =~= ls.take(n - 1));
        assert(ls.take(n).last() == ls[n - 1]);
        let f = ls.take(n - 1).filter(pred);
        assert(f.push(ls[n - 1]).map_values(|l: ClientLine| l.text@) =~= f.map_values(
            |l: ClientLine| l.text@,
        ).push(ls[n - 1].text@));
    } else {
        assert(ls.take(0) =~= Seq::<ClientLine>::empty());
    }
}

/// The file of connected clients once the client at `addr` has left: every line that
/// reads as that address is dropped, the others stay.
pub fn delete_client(lines: &[ClientLine], addr: &str) -> (r: Vec<String>)
    ensures
        string_views(r@) == kept_clients(lines@, addr@, lines@.len() as int),
{
    let a = chars_of(addr);
    let mut r: Vec<String> = Vec::new();
    let mut i: usize = 0;
    while i < lines.len()
        invariant
            i <= lines@.len(),
            a@ == addr@,
            string_views(r@) == kept_clients(lines@, addr@, i as int),
        decreases lines@.len() - i,
    {
        let names = match &lines[i].parsed {
            Some(p) => {
                let pc = chars_of(p.as_str());
                same_chars(&pc, &a)
            },
            None => false,
        };
        if !names {
            let ghost before = string_views(r@);
            r.push(string_of(&chars_of(lines[i].text.as_str())));
            assert(string_views(r@) =~= before.push(lines@[i as int].text@));
        }
        i = i + 1;
    }
    r
}

/// A line with `" - "` and the user's name appended when, trimmed, it is exactly the
/// address; else the line itself.
pub open spec fn login_line(l: Seq<char>, addr: Seq<char>, user: Seq<char>) -> Seq<char> {
    if trim_by(l, Sep::Whitespace) == addr {
        l + " - "@ + user
    } else {
        l
    }
}

/// The file of connected clients once `user` has logged in from `addr`: the line of that
/// address gets `" - user"` appended.
pub fn add_new_login(lines: &[String], addr: &str, user: &str) -> (r: Vec<String>)
    ensures
        string_views(r@) == string_views(lines@).map_values(|l: Seq<char>| login_line(l, addr@, user@)),
{
    let a = chars_of(addr);
    let u = chars_of(user);
    let sep = chars_of(" - ");
    proof {
        reveal_strlit(" - ");
    }
    let mut r: Vec<String> = Vec::new();
    let mut i: usize = 0;
    while i < lines.len()
        invariant
            i <= lines@.len(),
            a@ == addr@,
            u@ == user@,
            sep@ == " - "@,
            string_views(r@) =~= string_views(lines@).take(i as int).map_values(
                |l: Seq<char>| login_line(l, addr@, user@),
            ),
        decreases lines@.len() - i,
    {
        let l = chars_of(lines[i].as_str());
        let t = trim(&l, Sep::Whitespace);
        let mut s = string_of(&l);
        if same_chars(&t, &a) {
            push_chars(&mut s, &sep);
            push_chars(&mut s, &u);
        }
        let ghost before = string_views(r@);
        r.push(s);
        assert(string_views(lines@).take(i + 1).map_values(|l: Seq<char>| login_line(l, addr@, user@))
            =~= before.push(login_line(lines@[i as int]@, addr@, user@)));
        i = i + 1;
    }
    r
}

/// The address alone when the trimmed line starts with `addr - user`; else the line.
pub open spec fn logout_line(l: Seq<char>, addr: Seq<char>, user: Seq<char>) -> Seq<char> {
    if starts_with_seq(trim_by(l, Sep::Whitespace), addr + " - "@ + user) {
        addr
    } else {
        l
    }
}

/// The file of connected clients once `user` has logged out from `addr`: a line that
/// starts with `addr - user` is cut back to the address.
pub fn remove_login(lines: &[String], addr: &str, user: &str) -> (r: Vec<String>)
    ensures
        string_views(r@) == string_views(lines@).map_values(|l: Seq<char>| logout_line(l, addr@, user@)),
{
    let a = chars_of(addr);
    let mut key = string_of(&a);
    key.append(" - ");
    key.append(user);
    let k = chars_of(key.as_str());
    let mut r: Vec<String> = Vec::new();
    let mut i: usize = 0;
    while i < lines.len()
        invariant
            i <= lines@.len(),
            a@ == addr@,
            k@ == addr@ + " - "@ + user@,
            string_views(r@) =~= string_views(lines@).take(i as int).map_values(
                |l: Seq<char>| logout_line(l, addr@, user@),
            ),
        decreases lines@.len() - i,
    {
        let l = chars_of(lines[i].as_str());
        let t = trim(&l, Sep::Whitespace);
        let s = if starts_with(&t, &k) {
            string_of(&a)
        } else {
            string_of(&l)
        };
        let ghost before = string_views(r@);
        r.push(s);
        assert(string_views(lines@).take(i + 1).map_values(|l: Seq<char>| logout_line(l, addr@, user@))
            =~= before.push(logout_line(lines@[i as int]@, addr@, user@)));
        i = i + 1;
    }
    r
}

/// Logging `user` in from `addr` and then out again gives the file of connected clients
/// back, when the line of that client holds exactly its (nonempty) address, no line is
/// already marked with that address and user, and the user's name ends with a character
/// that is not whitespace.
pub proof fn lemma_login_logout_restores(ls: Seq<Seq<char>>, addr: Seq<char>, user: Seq<char>)
    requires
        addr.len() > 0,
        user.len() > 0,
        !whitespace(user.last()),
        forall|i: int| 0 <= i < ls.len() && trim_by(#[trigger] ls[i], Sep::Whitespace) == addr ==> ls[i] == addr,
        forall|i: int| 0 <= i < ls.len() ==> !starts_with_seq(
            trim_by(#[trigger] ls[i], Sep::Whitespace),
            addr + " - "@ + user,
        ),
    ensures
        ls.map_values(|l: Seq<char>| login_line(l, addr, user)).map_values(
            |l: Seq<char>| logout_line(l, addr, user),
        ) == ls,
{
    let once = ls.map_values(|l: Seq<char>| login_line(l, addr, user));
    let twice = once.map_values(|l: Seq<char>| logout_line(l, addr, user));
    assert forall|i: int| 0 <= i < ls.len() implies twice[i] == ls[i] by {
        let l = ls[i];
        if trim_by(l, Sep::Whitespace) == addr {
            let m = addr + " - "@ + user;
            reveal_strlit(" - ");
            lemma_trimmed_first(addr, Sep::Whitespace);
            assert(m[0] == addr[0]);
            assert(m.last() == user.last());
            lemma_trim_fixed(m, Sep::Whitespace);
            assert(m.subrange(0, m.len() as int) =~= m);
            assert(once[i] == m);
        }
    }
    assert(twice =~= ls);
}

/// The number of messages waiting in an inbox: its number of lines, as an `i32`.
pub fn count_nr_messages(inbox: &str) -> (n: i32)
    ensures
        n == lines_of(inbox@).len() as i32,
{
    let cs = chars_of(inbox);
    let ls = lines(&cs);
    assert(views(ls@).len() == ls@.len());
    #[verifier::truncate]
    (ls.len() as i32)
}

/// Scanning the user list from line `i`: `false` at a line that could not be read or
/// whose trimmed text is `user`, `true` when the list ends first.
pub open spec fn user_absent_from(ls: Seq<Option<Seq<char>>>, user: Seq<char>, i: int) -> bool
    decreases ls.len() - i,
{
    if i >= ls.len() {
        true
    } else {
        match ls[i] {
            None => false,
            Some(l) => if trim_by(l, Sep::Whitespace) == user {
                false
            } else {
                user_absent_from(ls, user, i + 1)
            },
        }
    }
}

/// A user whose (trimmed) name was added to the end of the user list is no longer free:
/// the scan stops at that line, or earlier.
pub proof fn lemma_registered_not_free(ls: Seq<Option<Seq<char>>>, user: Seq<char>)
    requires
        trim_by(user, Sep::Whitespace) == user,
    ensures
        !user_absent_from(ls.push(Some(user)), user, 0),
{
    lemma_absent_scan(ls.push(Some(user)), user, 0);
}

proof fn lemma_absent_scan(ls: Seq<Option<Seq<char>>>, user: Seq<char>, i: int)
    requires
        0 <= i < ls.len(),
        ls.last() == Some(user),
        trim_by(user, Sep::Whitespace) == user,
    ensures
        !user_absent_from(ls, user, i),
    decreases ls.len() - i,
{
    if i < ls.len() - 1 {
        lemma_absent_scan(ls, user, i + 1);
    }
}

/// The scan of the user list finds the name free exactly when every line was read and
/// none, trimmed, is the name.
pub proof fn lemma_user_absent(ls: Seq<Option<Seq<char>>>, user: Seq<char>, i: int)
    requires
        0 <= i <= ls.len(),
    ensures
        user_absent_from(ls, user, i) <==> forall|j: int|
            i <= j < ls.len() ==> #[trigger] ls[j] is Some && trim_by(ls[j].unwrap(), Sep::Whitespace)
                != user,
    decreases ls.len() - i,
{
    if i < ls.len() {
        lemma_user_absent(ls, user, i + 1);
    }
}

/// The scan of the file of connected clients finds the user exactly when some line,
/// with every line before it read, contains the name.
pub proof fn lemma_user_connected(ls: Seq<Option<Seq<char>>>, user: Seq<char>, i: int)
    requires
        0 <= i <= ls.len(),
    ensures
        user_connected_from(ls, user, i) <==> exists|k: int|
            i <= k < ls.len() && read_between(ls, i, k) && #[trigger] ls[k] is Some && contains_seq(
                ls[k].unwrap(),
                user,
            ),
    decreases ls.len() - i,
{
    if i < ls.len() {
        lemma_user_connected(ls, user, i + 1);
        match ls[i] {
            None => {
                if exists|k: int|
                    i <= k < ls.len() && read_between(ls, i, k) && #[trigger] ls[k] is Some
                        && contains_seq(ls[k].unwrap(), user) {
                    let k = choose|k: int|
                        i <= k < ls.len() && read_between(ls, i, k) && #[trigger] ls[k] is Some
                            && contains_seq(ls[k].unwrap(), user);
                    if k > i {
                        assert(ls[i] is Some);
                    }
                }
            },
            Some(l) => {
                if contains_seq(l, user) {
                    assert(read_between(ls, i, i));
                } else {
                    if exists|k: int|
                        i <= k < ls.len() && read_between(ls, i, k) && #[trigger] ls[k] is Some
                            && contains_seq(ls[k].unwrap(), user) {
                        let k = choose|k: int|
                            i <= k < ls.len() && read_between(ls, i, k) && #[trigger] ls[k] is Some
                                && contains_seq(ls[k].unwrap(), user);
                        assert(k > i);
                        assert(read_between(ls, i + 1, k));
                    }
                    if exists|k: int|
                        i + 1 <= k < ls.len() && read_between(ls, i + 1, k) && #[trigger] ls[k] is Some
                            && contains_seq(ls[k].unwrap(), user) {
                        let k = choose|k: int|
                            i + 1 <= k < ls.len() && read_between(ls, i + 1, k) && #[trigger] ls[k]
                                is Some && contains_seq(ls[k].unwrap(), user);
                        assert(read_between(ls, i, k));
                    }
                }
            },
        }
    }
}

/// Whether `user` is missing from the list of registered users (`true` means the name
/// is free): every line was read and none, trimmed, is the name.
pub fn find_user_in_users(lines: &[Option<String>], user: &str) -> (free: bool)
    ensures
        free == user_absent_from(reads_view(lines@), user@, 0),
        free <==> forall|j: int|
            0 <= j < reads_view(lines@).len() ==> #[trigger] reads_view(lines@)[j] is Some
                && trim_by(reads_view(lines@)[j].unwrap(), Sep::Whitespace) != user@,
{
    let r = scan_users(lines, user);
    proof {
        lemma_user_absent(reads_view(lines@), user@, 0);
    }
    r
}

fn scan_users(lines: &[Option<String>], user: &str) -> (free: bool)
    ensures
        free == user_absent_from(reads_view(lines@), user@, 0),
{
    let ghost lv = reads_view(lines@);
    let u = chars_of(user);
    let mut i: usize = 0;
    while i < lines.len()
        invariant
            i <= lines@.len(),
            u@ == user@,
            lv == reads_view(lines@),
            user_absent_from(lv, user@, 0) == user_absent_from(lv, user@, i as int),
        decreases lines@.len() - i,
    {
        assert(lv[i as int] == read_view(lines@[i as int]));
        match &lines[i] {
            None => return false,
            Some(l) => {
                let t = trim(&chars_of(l.as_str()), Sep::Whitespace);
                if same_chars(&t, &u) {
                    return false;
                }
            },
        }
        i = i + 1;
    }
    true
}

/// Scanning the file of connected clients from line `i`: `true` at a line that
/// contains `user`, `false` at a line that could not be read or when the file ends.
pub open spec fn user_connected_from(ls: Seq<Option<Seq<char>>>, user: Seq<char>, i: int) -> bool
    decreases ls.len() - i,
{
    if i >= ls.len() {
        false
    } else {
        match ls[i] {
            None => false,
            Some(l) => if contains_seq(l, user) {
                true
            } else {
                user_connected_from(ls, user, i + 1)
            },
        }
    }
}

/// Whether some line of the file of connected clients contains `user`, with every line
/// before it read (a line that could not be read ends the scan with `false`).
pub fn find_user_in_connected_users(lines: &[Option<String>], user: &str) -> (found: bool)
    ensures
        found == user_connected_from(reads_view(lines@), user@, 0),
        found <==> exists|k: int|
            0 <= k < reads_view(lines@).len() && read_between(reads_view(lines@), 0, k)
                && #[trigger] reads_view(lines@)[k] is Some && contains_seq(
                reads_view(lines@)[k].unwrap(),
                user@,
            ),
{
    let r = scan_connected(lines, user);
    proof {
        lemma_user_connected(reads_view(lines@), user@, 0);
    }
    r
}

fn scan_connected(lines: &[Option<String>], user: &str) -> (found: bool)
    ensures
        found == user_connected_from(reads_view(lines@), user@, 0),
{
    let ghost lv = reads_view(lines@);
    let u = chars_of(user);
    let mut i: usize = 0;
    while i < lines.len()
        invariant
            i <= lines@.len(),
            u@ == user@,
            lv == reads_view(lines@),
            user_connected_from(lv, user@, 0) == user_connected_from(lv, user@, i as int),
        decreases lines@.len() - i,
    {
        assert(lv[i as int] == read_view(lines@[i as int]));
        match &lines[i] {
            None => return false,
            Some(l) => {
                if contains(&chars_of(l.as_str()), &u) {
                    return true;
                }
            },
        }
        i = i + 1;
    }
    false
}

/// What a scan of the list of lobbies finds.
#[derive(Debug, PartialEq, Eq, Structural)]
pub enum LobbyScan {
    /// A line, trimmed, is the lobby's name.
    Found,
    /// A line could not be read before the name was found.
    ReadError,
    /// The list ends without the name.
    Missing,
}

/// Scanning the list of lobbies from line `i` for `name`.
pub open spec fn lobby_scan_from(ls: Seq<Option<Seq<char>>>, name: Seq<char>, i: int) -> LobbyScan
    decreases ls.len() - i,
{
    if i >= ls.len() {
        LobbyScan::Missing
    } else {
        match ls[i] {
            None => LobbyScan::ReadError,
            Some(l) => if trim_by(l, Sep::Whitespace) == name {
                LobbyScan::Found
            } else {
                lobby_scan_from(ls, name, i + 1)
            },
        }
    }
}

/// The lines of a text, each read without error.
pub open spec fn text_reads(content: Seq<char>) -> Seq<Option<Seq<char>>> {
    lines_of(content).map_values(|l: Seq<char>| Some(l))
}

/// The list of lobbies after creating the lobby `name` in it: when no line trims to
/// `name`, the name and a newline are appended; else the list stays as it is.
pub open spec fn after_create(content: Seq<char>, name: Seq<char>) -> Seq<char> {
    if lobby_scan_from(text_reads(content), name, 0) == LobbyScan::Missing {
        content + name + seq!['\n']
    } else {
        content
    }
}

proof fn lemma_scan_finds_appended(ls: Seq<Option<Seq<char>>>, name: Seq<char>, i: int)
    requires
        0 <= i <= ls.len(),
        trim_by(name, Sep::Whitespace) == name,
        lobby_scan_from(ls, name, i) == LobbyScan::Missing,
    ensures
        lobby_scan_from(ls.push(Some(name)), name, i) == LobbyScan::Found,
    decreases ls.len() - i,
{
    let ext = ls.push(Some(name));
    assert(ext[i] == if i < ls.len() { ls[i] } else { Some(name) });
    if i < ls.len() {
        lemma_scan_finds_appended(ls, name, i + 1);
    }
}

/// Creating the same lobby twice leaves the list of lobbies as creating it once, when
/// the list is empty or ends with a newline and the name is trimmed and holds no
/// newline.
pub proof fn lemma_create_lobby_twice(content: Seq<char>, name: Seq<char>)
    requires
        content.len() == 0 || content.last() == '\n',
        forall|k: int| 0 <= k < name.len() ==> #[trigger] name[k] != '\n',
        trim_by(name, Sep::Whitespace) == name,
    ensures
        after_create(after_create(content, name), name) == after_create(content, name),
{
    if lobby_scan_from(text_reads(content), name, 0) == LobbyScan::Missing {
        let c2 = content + name + seq!['\n'];
        lemma_lines_append_line(content, name);
        if name.len() > 0 {
            lemma_trimmed_last(name, Sep::Whitespace);
        }
        assert(strip_cr(name) == name);
        assert(text_reads(c2) =~= text_reads(content).push(Some(name)));
        lemma_scan_finds_appended(text_reads(content), name, 0);
    }
}

/// What creating a lobby does to the list of lobbies.
pub enum CreateLobby {
    /// A line of the list is the lobby already; the list stays.
    Exists,
    /// A line of the list could not be read; the list stays.
    ReadError,
    /// The text to append to the list: the name and a newline.
    Append(String),
}

/// The text a creation appends to the list (none when it appends nothing).
pub open spec fn appended(r: CreateLobby) -> Seq<char> {
    match r {
        CreateLobby::Append(t) => t@,
        _ => Seq::empty(),
    }
}

/// Creates the lobby `name` in the list of lobbies, given the list line by line (`None`
/// where a line could not be read): when no line trims to `name`, the name and a newline
/// are appended. On a list read from a text, the text becomes `after_create` of it.
pub fn create_lobby(lines: &[Option<String>], name: &str) -> (r: CreateLobby)
    ensures
        lobby_scan_from(reads_view(lines@), name@, 0) == LobbyScan::Found ==> r is Exists,
        lobby_scan_from(reads_view(lines@), name@, 0) == LobbyScan::ReadError ==> r is ReadError,
        lobby_scan_from(reads_view(lines@), name@, 0) == LobbyScan::Missing ==> (r matches CreateLobby::Append(t)
            && t@ == name@ + seq!['\n']),
        forall|content: Seq<char>|
            text_reads(content) == reads_view(lines@) ==> #[trigger] after_create(content, name@)
                == content + appended(r),
{
    let r = match find_lobby(lines, name) {
        LobbyScan::Found => CreateLobby::Exists,
        LobbyScan::ReadError => CreateLobby::ReadError,
        LobbyScan::Missing => {
            let mut t = string_of(&chars_of(name));
            crate::text::push_char(&mut t, '\n');
            CreateLobby::Append(t)
        },
    };
    proof {
        assert forall|content: Seq<char>|
            text_reads(content) == reads_view(lines@) implies #[trigger] after_create(content, name@)
                == content + appended(r) by {
            assert(content + Seq::<char>::empty() =~= content);
        }
    }
    r
}

/// Every line from `i` up to (not including) `k` was read.
pub open spec fn read_between(ls: Seq<Option<Seq<char>>>, i: int, k: int) -> bool {
    forall|j: int| i <= j < k ==> #[trigger] ls[j] is Some
}

/// Scanning for a lobby ends on `Found` exactly when some line, with every line before
/// it read, trims to the name; on `Missing` exactly when every line was read and none
/// trims to the name.
pub proof fn lemma_lobby_scan(ls: Seq<Option<Seq<char>>>, name: Seq<char>, i: int)
    requires
        0 <= i <= ls.len(),
    ensures
        lobby_scan_from(ls, name, i) == LobbyScan::Found <==> exists|k: int|
            i <= k < ls.len() && read_between(ls, i, k) && #[trigger] ls[k] is Some && trim_by(
                ls[k].unwrap(),
                Sep::Whitespace,
            ) == name,
        lobby_scan_from(ls, name, i) == LobbyScan::Missing <==> forall|j: int|
            i <= j < ls.len() ==> #[trigger] ls[j] is Some && trim_by(ls[j].unwrap(), Sep::Whitespace)
                != name,
    decreases ls.len() - i,
{
    if i < ls.len() {
        lemma_lobby_scan(ls, name, i + 1);
        match ls[i] {
            None => {
                if exists|k: int|
                    i <= k < ls.len() && read_between(ls, i, k) && #[trigger] ls[k] is Some && trim_by(
                        ls[k].unwrap(),
                        Sep::Whitespace,
                    ) == name {
                    let k = choose|k: int|
                        i <= k < ls.len() && read_between(ls, i, k) && #[trigger] ls[k] is Some
                            && trim_by(ls[k].unwrap(), Sep::Whitespace) == name;
                    if k > i {
                        assert(ls[i] is Some);
                    }
                }
            },
            Some(l) => {
                if trim_by(l, Sep::Whitespace) == name {
                    assert(read_between(ls, i, i));
                } else {
                    if exists|k: int|
                        i <= k < ls.len() && read_between(ls, i, k) && #[trigger] ls[k] is Some
                            && trim_by(ls[k].unwrap(), Sep::Whitespace) == name {
                        let k = choose|k: int|
                            i <= k < ls.len() && read_between(ls, i, k) && #[trigger] ls[k] is Some
                                && trim_by(ls[k].unwrap(), Sep::Whitespace) == name;
                        assert(k > i);
                        assert(read_between(ls, i + 1, k));
                    }
                    if exists|k: int|
                        i + 1 <= k < ls.len() && read_between(ls, i + 1, k) && #[trigger] ls[k] is Some
                            && trim_by(ls[k].unwrap(), Sep::Whitespace) == name {
                        let k = choose|k: int|
                            i + 1 <= k < ls.len() && read_between(ls, i + 1, k) && #[trigger] ls[k]
                                is Some && trim_by(ls[k].unwrap(), Sep::Whitespace) == name;
                        assert(read_between(ls, i, k));
                    }
                }
            },
        }
    }
}

/// Looks for the lobby `name` in the list of lobbies, line by line.
pub fn find_lobby(lines: &[Option<String>], name: &str) -> (r: LobbyScan)
    ensures
        r == lobby_scan_from(reads_view(lines@), name@, 0),
        r == LobbyScan::Found <==> exists|k: int|
            0 <= k < reads_view(lines@).len() && read_between(reads_view(lines@), 0, k)
                && #[trigger] reads_view(lines@)[k] is Some && trim_by(
                reads_view(lines@)[k].unwrap(),
                Sep::Whitespace,
            ) == name@,
        r == LobbyScan::Missing <==> forall|j: int|
            0 <= j < reads_view(lines@).len() ==> #[trigger] reads_view(lines@)[j] is Some
                && trim_by(reads_view(lines@)[j].unwrap(), Sep::Whitespace) != name@,
{
    let r = scan_lobbies(lines, name);
    proof {
        lemma_lobby_scan(reads_view(lines@), name@, 0);
    }
    r
}

fn scan_lobbies(lines: &[Option<String>], name: &str) -> (r: LobbyScan)
    ensures
        r == lobby_scan_from(reads_view(lines@), name@, 0),
{
    let ghost lv = reads_view(lines@);
    let n = chars_of(name);
    let mut i: usize = 0;
    while i < lines.len()
        invariant
            i <= lines@.len(),
            n@ == name@,
            lv == reads_view(lines@),
            lobby_scan_from(lv, name@, 0) == lobby_scan_from(lv, name@, i as int),
        decreases lines@.len() - i,
    {
        assert(lv[i as int] == read_view(lines@[i as int]));
        match &lines[i] {
            None => return LobbyScan::ReadError,
            Some(l) => {
                let t = trim(&chars_of(l.as_str()), Sep::Whitespace);
                if same_chars(&t, &n) {
                    return LobbyScan::Found;
                }
            },
        }
        i = i + 1;
    }
    LobbyScan::Missing
}

/// The lines among the first `n` that differ from `name`.
pub open spec fn other_lobbies(ls: Seq<Seq<char>>, name: Seq<char>, n: int) -> Seq<Seq<char>>
    decreases n,
{
    if n <= 0 {
        Seq::empty()
    } else if ls[n - 1] == name {
        other_lobbies(ls, name, n - 1)
    } else {
        other_lobbies(ls, name, n - 1).push(ls[n - 1])
    }
}

/// After deleting the lobby `name`, no line of the list is `name`.
pub proof fn lemma_deleted_lobby_gone(ls: Seq<Seq<char>>, name: Seq<char>, n: int)
    requires
        0 <= n <= ls.len(),
    ensures
        !other_lobbies(ls, name, n).contains(name),
    decreases n,
{
    if n > 0 {
        lemma_deleted_lobby_gone(ls, name, n - 1);
        let prev = other_lobbies(ls, name, n - 1);
        if ls[n - 1] != name {
            assert forall|k: int| 0 <= k < prev.len() + 1 implies #[trigger] prev.push(ls[n - 1])[k] != name by {
                if k < prev.len() {
                    assert(prev.push(ls[n - 1])[k] == prev[k]);
                }
            }
        }
    }
}

/// Deleting a lobby keeps, in order, exactly the lines that differ from its name.
pub proof fn lemma_deleted_lobby_filter(ls: Seq<Seq<char>>, name: Seq<char>, n: int)
    requires
        0 <= n <= ls.len(),
    ensures
        other_lobbies(ls, name, n) == ls.take(n).filter(|l: Seq<char>| l != name),
    decreases n,
{
    reveal(Seq::filter);
    if n > 0 {
        lemma_deleted_lobby_filter(ls, name, n - 1);
        assert(ls.take(n).drop_last() =~= ls.take(n - 1));
        assert(ls.take(n).last() == ls[n - 1]);
    } else {
        assert(ls.take(0) =~= Seq::<Seq<char>>::empty());
    }
}

/// The list of lobbies without the lobby `name` (every line equal to it goes), and
/// whether a line went.
pub fn delete_lobby(content: &str, name: &str) -> (r: (Vec<String>, bool))
    ensures
        string_views(r.0@) == other_lobbies(lines_of(content@), name@, lines_of(content@).len() as int),
        r.1 == lines_of(content@).contains(name@),
{
    let cs = chars_of(content);
    let ls = lines(&cs);
    let ghost lv = views(ls@);
    let n = chars_of(name);
    let mut kept: Vec<String> = Vec::new();
    let mut modified = false;
    let mut i: usize = 0;
    while i < ls.len()
        invariant
            i <= ls@.len(),
            n@ == name@,
            lv == views(ls@),
            lv == lines_of(content@),
            string_views(kept@) == other_lobbies(lv, name@, i as int),
            modified == lv.take(i as int).contains(name@),
        decreases ls@.len() - i,
    {
        assert(lv.take(i + 1) =~= lv.take(i as int).push(lv[i as int]));
        if !same_chars(&ls[i], &n) {
            let ghost before = string_views(kept@);
            kept.push(string_of(&ls[i]));
            assert(string_views(kept@) =~= before.push(lv[i as int]));
            proof {
                let t1 = lv.take(i + 1);
                if t1.contains(name@) {
                    let k = choose|k: int| 0 <= k < t1.len() && t1[k] == name@;
                    assert(lv.take(i as int)[k] == name@);
                }
            }
        } else {
            modified = true;
            assert(lv.take(i + 1)[i as int] == name@);
        }
        proof {
            let t0 = lv.take(i as int);
            if t0.contains(name@) {
                let k = choose|k: int| 0 <= k < t0.len() && t0[k] == name@;
                assert(lv.take(i + 1)[k] == name@);
            }
        }
        i = i + 1;
    }
    assert(lv.take(ls@.len() as int) =~= lv);
    (kept, modified)
}

/// The lines that were read, in order, leaving out those that could not be.
pub open spec fn read_lines(ls: Seq<Option<Seq<char>>>) -> Seq<Seq<char>>
    decreases ls.len(),
{
    if ls.len() == 0 {
        Seq::empty()
    } else {
        match ls.last() {
            Some(l) => read_lines(ls.drop_last()).push(l),
            None => read_lines(ls.drop_last()),
        }
    }
}

/// The lines that were read are the readable ones, in order.
pub proof fn lemma_read_lines_filter(ls: Seq<Option<Seq<char>>>)
    ensures
        read_lines(ls) == ls.filter(|l: Option<Seq<char>>| l is Some).map_values(
            |l: Option<Seq<char>>| l.unwrap(),
        ),
    decreases ls.len(),
{
    reveal(Seq::filter);
    if ls.len() > 0 {
        lemma_read_lines_filter(ls.drop_last());
        let f = ls.drop_last().filter(|l: Option<Seq<char>>| l is Some);
        assert(f.push(ls.last()).map_values(|l: Option<Seq<char>>| l.unwrap()) =~= f.map_values(
            |l: Option<Seq<char>>| l.unwrap(),
        ).push(ls.last().unwrap()));
    } else {
        assert(ls.filter(|l: Option<Seq<char>>| l is Some).map_values(|l: Option<Seq<char>>| l.unwrap())
            =~= Seq::<Seq<char>>::empty());
    }
}

/// The last `n` of some lines (all of them when there are fewer).
pub open spec fn last_n(ls: Seq<Seq<char>>, n: nat) -> Seq<Seq<char>> {
    if ls.len() <= n {
        ls
    } else {
        ls.skip(ls.len() - n)
    }
}

/// The last 50 lines of a history that could be read, oldest first.
pub fn last_fifty(lines: &[Option<String>]) -> (r: Vec<String>)
    ensures
        string_views(r@) == last_n(read_lines(reads_view(lines@)), 50),
{
    let ghost lv = reads_view(lines@);
    let mut r: Vec<String> = Vec::new();
    let mut i: usize = 0;
    while i < lines.len()
        invariant
            i <= lines@.len(),
            lv == reads_view(lines@),
            string_views(r@) == last_n(read_lines(lv.take(i as int)), 50),
        decreases lines@.len() - i,
    {
        assert(lv.take(i + 1).drop_last() =~= lv.take(i as int));
        assert(lv.take(i + 1).last() == read_view(lines@[i as int]));
        match &lines[i] {
            Some(l) => {
                let ghost before = string_views(r@);
                let ghost all = read_lines(lv.take(i as int));
                r.push(string_of(&chars_of(l.as_str())));
                assert(string_views(r@) =~= before.push(l@));
                if r.len() > 50 {
                    let ghost pushed = string_views(r@);
                    r.remove(0);
                    assert(string_views(r@) =~= pushed.drop_first());
                    assert(last_n(all.push(l@), 50) =~= pushed.drop_first());
                } else {
                    assert(last_n(all.push(l@), 50) =~= before.push(l@));
                }
            },
            None => {},
        }
        i = i + 1;
    }
    assert(lv.take(lines@.len() as int) =~= lv);
    r
}

} // verus!
