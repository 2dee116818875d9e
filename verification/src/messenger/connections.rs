use vstd::prelude::*;
use crate::text::{chars_of, contains, contains_seq, remove_char, string_of, without_char};

verus! {

/// The clients that are connected: the address each is connected from, and the lobby it
/// is in, if any.
pub struct ConnectionManager {
    pub connections: Vec<(String, Option<String>)>,
}

/// A connection as plain values.
pub open spec fn conn_view(c: (String, Option<String>)) -> (Seq<char>, Option<Seq<char>>) {
    (
        c.0@,
        match c.1 {
            Some(l) => Some(l@),
            None => None,
        },
    )
}

/// The connections as plain values.
pub open spec fn conns_view(cs: Seq<(String, Option<String>)>) -> Seq<(Seq<char>, Option<Seq<char>>)> {
    cs.map_values(|c: (String, Option<String>)| conn_view(c))
}

/// The first connection from position `j` on that comes from `peer` and is in no lobby,
/// or the number of connections when there is none.
pub open spec fn first_free_from(cs: Seq<(Seq<char>, Option<Seq<char>>)>, peer: Seq<char>, j: int) -> int
    decreases cs.len() - j,
{
    if j >= cs.len() {
        cs.len() as int
    } else if cs[j].0 == peer && cs[j].1 is None {
        j
    } else {
        first_free_from(cs, peer, j + 1)
    }
}

/// The first connection from position `j` on whose address contains `addr`, or the
/// number of connections when there is none.
pub open spec fn first_containing_from(cs: Seq<(Seq<char>, Option<Seq<char>>)>, addr: Seq<char>, j: int) -> int
    decreases cs.len() - j,
{
    if j >= cs.len() {
        cs.len() as int
    } else if contains_seq(cs[j].0, addr) {
        j
    } else {
        first_containing_from(cs, addr, j + 1)
    }
}

/// The connection receives what is said in lobby `lobby` by the client at `sender`: it
/// is in that lobby and comes from another address.
pub open spec fn receives(c: (Seq<char>, Option<Seq<char>>), lobby: Seq<char>, sender: Seq<char>) -> bool {
    c.1 == Some(lobby) && c.0 != sender
}

/// The positions, in order, of the connections among the first `n` that receive what
/// `sender` says in `lobby`.
pub open spec fn recipients_upto(
    cs: Seq<(Seq<char>, Option<Seq<char>>)>,
    lobby: Seq<char>,
    sender: Seq<char>,
    n: int,
) -> Seq<usize>
    decreases n,
{
    if n <= 0 {
        Seq::empty()
    } else if receives(cs[n - 1], lobby, sender) {
        recipients_upto(cs, lobby, sender, n - 1).push((n - 1) as usize)
    } else {
        recipients_upto(cs, lobby, sender, n - 1)
    }
}

/// The first free connection from `peer` is the least position from `j` on whose
/// connection comes from `peer` and is in no lobby; the number of connections when there
/// is none.
pub proof fn lemma_first_free(cs: Seq<(Seq<char>, Option<Seq<char>>)>, peer: Seq<char>, j: int)
    requires
        0 <= j <= cs.len(),
    ensures
        j <= first_free_from(cs, peer, j) <= cs.len(),
        first_free_from(cs, peer, j) < cs.len() ==> cs[first_free_from(cs, peer, j)].0 == peer
            && cs[first_free_from(cs, peer, j)].1 is None,
        forall|m: int|
            j <= m < first_free_from(cs, peer, j) ==> !((#[trigger] cs[m]).0 == peer && cs[m].1 is None),
    decreases cs.len() - j,
{
    if j < cs.len() {
        lemma_first_free(cs, peer, j + 1);
    }
}

/// The first connection whose address contains `addr` is the least position from `j` on
/// with such an address; the number of connections when there is none.
pub proof fn lemma_first_containing(cs: Seq<(Seq<char>, Option<Seq<char>>)>, addr: Seq<char>, j: int)
    requires
        0 <= j <= cs.len(),
    ensures
        j <= first_containing_from(cs, addr, j) <= cs.len(),
        first_containing_from(cs, addr, j) < cs.len() ==> contains_seq(
            cs[first_containing_from(cs, addr, j)].0,
            addr,
        ),
        forall|m: int|
            j <= m < first_containing_from(cs, addr, j) ==> !contains_seq((#[trigger] cs[m]).0, addr),
    decreases cs.len() - j,
{
    if j < cs.len() {
        lemma_first_containing(cs, addr, j + 1);
    }
}

/// What is said in a lobby reaches exactly the other members of that lobby, each once,
/// in the order of the connections: a position is listed exactly when its connection is
/// in the lobby and comes from another address.
pub proof fn lemma_recipients_exact(
    cs: Seq<(Seq<char>, Option<Seq<char>>)>,
    lobby: Seq<char>,
    sender: Seq<char>,
    n: int,
)
    requires
        0 <= n <= cs.len(),
        n <= usize::MAX,
    ensures
        forall|k: int| 0 <= k < n ==> (recipients_upto(cs, lobby, sender, n).contains(k as usize)
            <==> (#[trigger] cs[k]).1 == Some(lobby) && cs[k].0 != sender),
        forall|a: int, b: int| 0 <= a < b < recipients_upto(cs, lobby, sender, n).len() ==>
            #[trigger] recipients_upto(cs, lobby, sender, n)[a] < #[trigger] recipients_upto(cs, lobby, sender, n)[b],
        forall|a: int| 0 <= a < recipients_upto(cs, lobby, sender, n).len() ==>
            #[trigger] recipients_upto(cs, lobby, sender, n)[a] < n,
    decreases n,
{
    if n > 0 {
        lemma_recipients_exact(cs, lobby, sender, n - 1);
        let prev = recipients_upto(cs, lobby, sender, n - 1);
        let cur = recipients_upto(cs, lobby, sender, n);
        if receives(cs[n - 1], lobby, sender) {
            assert(cur == prev.push((n - 1) as usize));
            assert forall|a: int| 0 <= a < cur.len() implies #[trigger] cur[a] < n by {
                if a < prev.len() {
                    assert(cur[a] == prev[a]);
                }
            }
            assert forall|k: int| 0 <= k < n implies (cur.contains(k as usize) <==> (
            #[trigger] cs[k]).1 == Some(lobby) && cs[k].0 != sender) by {
                if k < n - 1 {
                    if cur.contains(k as usize) {
                        let j = choose|j: int| 0 <= j < cur.len() && cur[j] == k as usize;
                        if j < prev.len() {
                            assert(prev[j] == cur[j]);
                        }
                    }
                    if prev.contains(k as usize) {
                        let j = choose|j: int| 0 <= j < prev.len() && prev[j] == k as usize;
                        assert(cur[j] == prev[j]);
                    }
                } else {
                    assert(cur[cur.len() - 1] == (n - 1) as usize);
                }
            }
        } else {
            assert(cur == prev);
            assert forall|k: int| 0 <= k < n implies (cur.contains(k as usize) <==> (
            #[trigger] cs[k]).1 == Some(lobby) && cs[k].0 != sender) by {
                if k == n - 1 && cur.contains(k as usize) {
                    let j = choose|j: int| 0 <= j < prev.len() && prev[j] == k as usize;
                    assert(prev[j] < n - 1);
                }
            }
        }
    }
}

impl ConnectionManager {
    /// No connections.
    pub fn new() -> (m: Self)
        ensures
            m.connections@.len() == 0,
    {
        ConnectionManager { connections: Vec::new() }
    }

    /// Records a new connection from `peer`, in no lobby.
    pub fn add_connection(&mut self, peer: String)
        ensures
            conns_view(final(self).connections@) == conns_view(old(self).connections@).push(
                (peer@, None),
            ),
    {
        let ghost before = conns_view(self.connections@);
        self.connections.push((peer, None));
        assert(conns_view(self.connections@) =~= before.push(conn_view(self.connections@.last())));
    }

    /// Puts the first connection from `peer` that is in no lobby into lobby `name`;
    /// `false`, with nothing changed, when there is none.
    pub fn connect_to_a_lobby(&mut self, name: String, peer: &str) -> (joined: bool)
        ensures
            ({
                let cs = conns_view(old(self).connections@);
                let k = first_free_from(cs, peer@, 0);
                if k < cs.len() {
                    joined && conns_view(final(self).connections@) == cs.update(
                        k,
                        (cs[k].0, Some(name@)),
                    )
                } else {
                    !joined && conns_view(final(self).connections@) == cs
                }
            }),
    {
        let ghost cs = conns_view(self.connections@);
        let p = chars_of(peer);
        let mut j: usize = 0;
        while j < self.connections.len()
            invariant
                j <= self.connections@.len(),
                p@ == peer@,
                cs == conns_view(self.connections@),
                cs == conns_view(old(self).connections@),
                first_free_from(cs, peer@, 0) == first_free_from(cs, peer@, j as int),
            decreases self.connections@.len() - j,
        {
            let addr = chars_of(self.connections[j].0.as_str());
            let free = self.connections[j].1.is_none();
            if crate::text::same_chars(&addr, &p) && free {
                assert(cs[j as int] == conn_view(self.connections@[j as int]));
                assert(first_free_from(cs, peer@, j as int) == j);
                let a = string_of(&addr);
                self.connections.set(j, (a, Some(name)));
                assert(conns_view(self.connections@) =~= cs.update(j as int, (cs[j as int].0, Some(name@))));
                return true;
            }
            assert(cs[j as int] == conn_view(self.connections@[j as int]));
            j = j + 1;
        }
        assert(first_free_from(cs, peer@, j as int) == cs.len());
        false
    }

    /// Takes the first connection whose address contains `client_address` out of its
    /// lobby; `false`, with nothing changed, when there is none.
    pub fn remove_user_from_lobby(&mut self, client_address: &str) -> (removed: bool)
        ensures
            ({
                let cs = conns_view(old(self).connections@);
                let k = first_containing_from(cs, client_address@, 0);
                if k < cs.len() {
                    removed && conns_view(final(self).connections@) == cs.update(k, (cs[k].0, None))
                } else {
                    !removed && conns_view(final(self).connections@) == cs
                }
            }),
    {
        let ghost cs = conns_view(self.connections@);
        let c = chars_of(client_address);
        let mut j: usize = 0;
        while j < self.connections.len()
            invariant
                j <= self.connections@.len(),
                c@ == client_address@,
                cs == conns_view(self.connections@),
                cs == conns_view(old(self).connections@),
                first_containing_from(cs, client_address@, 0) == first_containing_from(
                    cs,
                    client_address@,
                    j as int,
                ),
            decreases self.connections@.len() - j,
        {
            let addr = chars_of(self.connections[j].0.as_str());
            if contains(&addr, &c) {
                assert(cs[j as int] == conn_view(self.connections@[j as int]));
                assert(first_containing_from(cs, client_address@, j as int) == j);
                let a = string_of(&addr);
                self.connections.set(j, (a, None));
                assert(conns_view(self.connections@) =~= cs.update(j as int, (cs[j as int].0, None)));
                return true;
            }
            assert(cs[j as int] == conn_view(self.connections@[j as int]));
            j = j + 1;
        }
        assert(first_containing_from(cs, client_address@, j as int) == cs.len());
        false
    }

    /// What reaches the other members of a lobby when the client at `sender` says
    /// `message_to_send` there: the positions of the connections that receive it, in
    /// order, and the message without NUL characters.
    pub fn send(&self, name_lobby: &str, message_to_send: &str, sender: &str) -> (r: (Vec<usize>, String))
        ensures
            r.0@ == recipients_upto(
                conns_view(self.connections@),
                name_lobby@,
                sender@,
                self.connections@.len() as int,
            ),
            r.1@ == without_char(message_to_send@, '\0'),
            forall|i: int|
                0 <= i < r.0@.len() ==> r.0@[i] < self.connections@.len() && (#[trigger] self.connections@[r.0@[i] as int]).1
                    is Some && self.connections@[r.0@[i] as int].1.unwrap()@ == name_lobby@
                    && self.connections@[r.0@[i] as int].0@ != sender@,
            forall|k: int|
                0 <= k < self.connections@.len() && (#[trigger] self.connections@[k]).1 is Some
                    && self.connections@[k].1.unwrap()@ == name_lobby@ && self.connections@[k].0@
                    != sender@ ==> r.0@.contains(k as usize),
            forall|a: int, b: int| 0 <= a < b < r.0@.len() ==> #[trigger] r.0@[a] < #[trigger] r.0@[b],
    {
        let ghost cs = conns_view(self.connections@);
        let lobby = chars_of(name_lobby);
        let from = chars_of(sender);
        let mut out: Vec<usize> = Vec::new();
        let mut j: usize = 0;
        while j < self.connections.len()
            invariant
                j <= self.connections@.len(),
                cs == conns_view(self.connections@),
                lobby@ == name_lobby@,
                from@ == sender@,
                out@ == recipients_upto(cs, name_lobby@, sender@, j as int),
            decreases self.connections@.len() - j,
        {
            let addr = chars_of(self.connections[j].0.as_str());
            match &self.connections[j].1 {
                Some(l) => {
                    let lc = chars_of(l.as_str());
                    if crate::text::same_chars(&lc, &lobby) && !crate::text::same_chars(&addr, &from) {
                        out.push(j);
                    }
                },
                None => {},
            }
            j = j + 1;
        }
        proof {
            let n = self.connections@.len() as int;
            lemma_recipients_exact(cs, name_lobby@, sender@, n);
            assert forall|k: int| 0 <= k < n implies (#[trigger] cs[k]).1 == Some(name_lobby@)
                <==> (self.connections@[k].1 is Some && self.connections@[k].1.unwrap()@
                == name_lobby@) by {
                assert(cs[k] == conn_view(self.connections@[k]));
            }
            assert forall|k: int| 0 <= k < n implies (#[trigger] cs[k]).0 == self.connections@[k].0@ by {
                assert(cs[k] == conn_view(self.connections@[k]));
            }
            assert forall|i: int| 0 <= i < out@.len() implies out@[i] < n && (
            #[trigger] self.connections@[out@[i] as int]).1 is Some
                && self.connections@[out@[i] as int].1.unwrap()@ == name_lobby@
                && self.connections@[out@[i] as int].0@ != sender@ by {
                let k = out@[i] as int;
                assert(out@.contains(out@[i]));
                assert(cs[k].1 == Some(name_lobby@) && cs[k].0 != sender@);
            }
            assert forall|k: int|
                0 <= k < n && (#[trigger] self.connections@[k]).1 is Some
                    && self.connections@[k].1.unwrap()@ == name_lobby@ && self.connections@[k].0@
                    != sender@ implies out@.contains(k as usize) by {
                assert(cs[k].1 == Some(name_lobby@) && cs[k].0 != sender@);
            }
        }
        let m = chars_of(message_to_send);
        let cleaned = remove_char(&m, '\0');
        (out, string_of(&cleaned))
    }
}

} // verus!
