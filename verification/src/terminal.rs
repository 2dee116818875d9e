use vstd::prelude::*;
use crate::text::{
    chars_of, decimal, lemma_lines_len, lines, lines_of, push_chars, push_decimal, same_chars,
    split_words, string_from, string_of, string_views, trim, trim_by, views, words, Sep,
};
use crate::unicode::{lowercase, to_lowercase_str};

verus! {

/// Answers `pong!`.
pub struct PingCommand;

/// Reports how many arguments it was given.
pub struct CountCommand;

/// Reports how many times it has been called.
pub struct TimesCommand {
    pub count: usize,
}

impl PingCommand {
    /// The name that invokes the command.
    pub fn get_name(&self) -> (n: &'static str)
        ensures
            n@ == "ping"@,
    {
        "ping"
    }

    /// Answers `pong!`.
    pub fn exec(&mut self, _args: &[String]) -> (r: Result<String, String>)
        ensures
            r matches Ok(s) && s@ == "pong!"@,
    {
        Ok(string_from("pong!"))
    }
}

impl CountCommand {
    /// The name that invokes the command.
    pub fn get_name(&self) -> (n: &'static str)
        ensures
            n@ == "count"@,
    {
        "count"
    }

    /// Reports the number of arguments.
    pub fn exec(&mut self, args: &[String]) -> (r: Result<String, String>)
        ensures
            r matches Ok(s) && s@ == count_message(args@.len()),
    {
        let count = args.len();
        let mut s = string_from("counted ");
        push_decimal(&mut s, count as u64);
        s.append(" args");
        Ok(s)
    }
}

impl TimesCommand {
    /// The name that invokes the command.
    pub fn get_name(&self) -> (n: &'static str)
        ensures
            n@ == "times"@,
    {
        "times"
    }

    /// Counts the call and reports how many calls there have been.
    pub fn exec(&mut self, _args: &[String]) -> (r: Result<String, String>)
        requires
            old(self).count < usize::MAX,
        ensures
            final(self).count == old(self).count + 1,
            r matches Ok(s) && s@ == times_message(final(self).count as nat),
    {
        self.count = self.count + 1;
        let mut s = string_from("This command was called: ");
        push_decimal(&mut s, self.count as u64);
        s.append(" time/times!");
        Ok(s)
    }
}

/// The answer of the `count` command to `n` arguments.
pub open spec fn count_message(n: nat) -> Seq<char> {
    "counted "@ + decimal(n) + " args"@
}

/// The answer of the `times` command on its `n`-th call.
pub open spec fn times_message(n: nat) -> Seq<char> {
    "This command was called: "@ + decimal(n) + " time/times!"@
}

/// A command the terminal can run.
pub enum Command {
    Ping(PingCommand),
    Count(CountCommand),
    Times(TimesCommand),
}

/// The name of a command.
pub open spec fn command_name(c: Command) -> Seq<char> {
    match c {
        Command::Ping(_) => "ping"@,
        Command::Count(_) => "count"@,
        Command::Times(_) => "times"@,
    }
}

/// What a command answers to `nargs` arguments, in the state it is in.
pub open spec fn command_output(c: Command, nargs: nat) -> Seq<char> {
    match c {
        Command::Ping(_) => "pong!"@,
        Command::Count(_) => count_message(nargs),
        Command::Times(t) => times_message((t.count + 1) as nat),
    }
}

/// The state of a command after it ran.
pub open spec fn command_after(c: Command) -> Command {
    match c {
        Command::Times(t) => Command::Times(TimesCommand { count: (t.count + 1) as usize }),
        _ => c,
    }
}

/// A command can run once more without its counter leaving `usize`, with `room` to spare.
pub open spec fn has_room(c: Command, room: nat) -> bool {
    match c {
        Command::Times(t) => t.count + room < usize::MAX,
        _ => true,
    }
}

impl Command {
    /// The name that invokes the command.
    pub fn get_name(&self) -> (n: &'static str)
        ensures
            n@ == command_name(*self),
    {
        match self {
            Command::Ping(p) => p.get_name(),
            Command::Count(c) => c.get_name(),
            Command::Times(t) => t.get_name(),
        }
    }

    /// Runs the command.
    pub fn exec(&mut self, args: &[String]) -> (r: Result<String, String>)
        requires
            has_room(*old(self), 0),
        ensures
            *final(self) == command_after(*old(self)),
            r matches Ok(s) && s@ == command_output(*old(self), args@.len()),
    {
        match self {
            Command::Ping(p) => p.exec(args),
            Command::Count(c) => c.exec(args),
            Command::Times(t) => t.exec(args),
        }
    }
}

/// What the terminal does with one line of input.
pub enum LineAction {
    /// A blank line.
    Skip,
    /// The first word is `stop` in any case: nothing after it runs.
    Stop,
    /// Run the command at this position with this many arguments.
    Run(int, nat),
    /// No command has this name.
    Unknown(Seq<char>),
}

/// The position of the first command from `j` on with name `name`, or the length of
/// the list when there is none.
pub open spec fn find_command(cmds: Seq<Command>, name: Seq<char>, j: int) -> int
    decreases cmds.len() - j,
{
    if j >= cmds.len() {
        cmds.len() as int
    } else if command_name(cmds[j]) == name {
        j
    } else {
        find_command(cmds, name, j + 1)
    }
}

/// A command can run `n` more times without its counter leaving `usize`.
pub open spec fn fits(c: Command, n: nat) -> bool {
    match c {
        Command::Times(t) => t.count + n <= usize::MAX,
        _ => true,
    }
}

/// The first word of a line names the command at position `j` (the first command with
/// that name).
pub open spec fn names_command(cmds: Seq<Command>, l: Seq<char>, j: int) -> bool {
    let ws = words(trim_by(l, Sep::Whitespace));
    ws.len() > 0 && find_command(cmds, ws[0], 0) == j
}

/// How many of the lines name the command at position `j`.
pub open spec fn calls_of(cmds: Seq<Command>, ls: Seq<Seq<char>>, j: int) -> nat
    decreases ls.len(),
{
    if ls.len() == 0 {
        0
    } else {
        calls_of(cmds, ls.drop_first(), j) + if names_command(cmds, ls[0], j) {
            1nat
        } else {
            0nat
        }
    }
}

proof fn lemma_find_same_names(cmds: Seq<Command>, k: int, c: Command, name: Seq<char>, i: int)
    requires
        0 <= k < cmds.len(),
        command_name(c) == command_name(cmds[k]),
        0 <= i,
    ensures
        find_command(cmds.update(k, c), name, i) == find_command(cmds, name, i),
    decreases cmds.len() - i,
{
    if i < cmds.len() {
        lemma_find_same_names(cmds, k, c, name, i + 1);
    }
}

proof fn lemma_calls_same_names(cmds: Seq<Command>, k: int, c: Command, ls: Seq<Seq<char>>, j: int)
    requires
        0 <= k < cmds.len(),
        command_name(c) == command_name(cmds[k]),
    ensures
        calls_of(cmds.update(k, c), ls, j) == calls_of(cmds, ls, j),
    decreases ls.len(),
{
    if ls.len() > 0 {
        lemma_calls_same_names(cmds, k, c, ls.drop_first(), j);
        let ws = words(trim_by(ls[0], Sep::Whitespace));
        if ws.len() > 0 {
            lemma_find_same_names(cmds, k, c, ws[0], 0);
        }
    }
}

/// What the terminal does with a line, given its commands.
pub open spec fn line_action(cmds: Seq<Command>, line: Seq<char>) -> LineAction {
    let t = trim_by(line, Sep::Whitespace);
    let ws = words(t);
    if t.len() == 0 || ws.len() == 0 {
        LineAction::Skip
    } else if lowercase(ws[0]) == "stop"@ {
        LineAction::Stop
    } else {
        let j = find_command(cmds, ws[0], 0);
        if j < cmds.len() {
            LineAction::Run(j, (ws.len() - 1) as nat)
        } else {
            LineAction::Unknown(ws[0])
        }
    }
}

/// The commands' states after the lines ran, and what was printed, one entry per
/// message.
pub open spec fn run_lines(cmds: Seq<Command>, ls: Seq<Seq<char>>) -> (Seq<Command>, Seq<Seq<char>>)
    decreases ls.len(),
{
    if ls.len() == 0 {
        (cmds, Seq::empty())
    } else {
        match line_action(cmds, ls[0]) {
            LineAction::Skip => run_lines(cmds, ls.drop_first()),
            LineAction::Stop => (cmds, Seq::empty()),
            LineAction::Unknown(name) => {
                let rest = run_lines(cmds, ls.drop_first());
                (rest.0, seq!["Unknown command: "@ + name] + rest.1)
            },
            LineAction::Run(j, n) => {
                let rest = run_lines(cmds.update(j, command_after(cmds[j])), ls.drop_first());
                (rest.0, seq![command_output(cmds[j], n)] + rest.1)
            },
        }
    }
}

/// A terminal with registered commands.
pub struct Terminal {
    pub commands: Vec<Command>,
}

impl Terminal {
    /// A terminal without commands.
    pub fn new() -> (t: Terminal)
        ensures
            t.commands@.len() == 0,
    {
        Terminal { commands: Vec::new() }
    }

    /// Adds a command; earlier commands win when two share a name.
    pub fn register(&mut self, command: Command)
        ensures
            final(self).commands@ == old(self).commands@.push(command),
    {
        self.commands.push(command);
    }

    /// Runs each line of `input_text` in turn: blank lines are skipped, a line whose
    /// first word is `stop` (in any case) ends the run, and otherwise the first word
    /// names the command and the other words are its arguments. Returns what is
    /// printed, one message per entry. A `times` counter must have room for every line
    /// that names its command (lines after a `stop` are counted too: telling a `stop`
    /// apart needs std's lowercase mapping, which is only named here).
    pub fn run(&mut self, input_text: &str) -> (out: Vec<String>)
        requires
            forall|j: int|
                0 <= j < old(self).commands@.len() ==> fits(
                    #[trigger] old(self).commands@[j],
                    calls_of(old(self).commands@, lines_of(input_text@), j),
                ),
        ensures
            (final(self).commands@, string_views(out@)) == run_lines(
                old(self).commands@,
                lines_of(input_text@),
            ),
    {
        let cs = chars_of(input_text);
        let ls = lines(&cs);
        let ghost lv = views(ls@);
        let ghost cmds0 = self.commands@;
        proof {
            lemma_lines_len(input_text@);
        }
        let mut out: Vec<String> = Vec::new();
        assert(lv.skip(0) =~= lv);
        assert(string_views(out@) + run_lines(self.commands@, lv).1 =~= run_lines(self.commands@, lv).1);
        let mut stopped = false;
        let mut li: usize = 0;
        while li < ls.len() && !stopped
            invariant
                li <= ls@.len(),
                lv == views(ls@),
                lv == lines_of(input_text@),
                lv.len() <= input_text@.len(),
                cmds0 == old(self).commands@,
                self.commands@.len() == cmds0.len(),
                forall|j: int|
                    0 <= j < self.commands@.len() ==> fits(
                        #[trigger] self.commands@[j],
                        calls_of(self.commands@, lv.skip(li as int), j),
                    ),
                stopped ==> run_lines(cmds0, lv) == (self.commands@, string_views(out@)),
                !stopped ==> run_lines(cmds0, lv) == ({
                    let rest = run_lines(self.commands@, lv.skip(li as int));
                    (rest.0, string_views(out@) + rest.1)
                }),
            decreases ls@.len() - li,
        {
            let ghost l = lv[li as int];
            let ghost before_out = string_views(out@);
            let ghost cmds = self.commands@;
            assert(lv.skip(li as int)[0] == l);
            assert(lv.skip(li as int).drop_first() =~= lv.skip(li + 1));
            assert forall|j: int| 0 <= j < cmds.len() implies calls_of(cmds, lv.skip(li + 1), j)
                <= #[trigger] calls_of(cmds, lv.skip(li as int), j) by {}
            let t = trim(&ls[li], Sep::Whitespace);
            if t.len() > 0 {
                let ws = split_words(&t);
                if ws.len() > 0 {
                    let first = string_of(&ws[0]);
                    let low = to_lowercase_str(first.as_str());
                    let stop = string_from("stop");
                    if low == stop {
                        stopped = true;
                    } else {
                        let mut args: Vec<String> = Vec::new();
                        let mut k: usize = 1;
                        while k < ws.len()
                            invariant
                                1 <= k <= ws@.len(),
                                args@.len() == k - 1,
                            decreases ws@.len() - k,
                        {
                            args.push(string_of(&ws[k]));
                            k = k + 1;
                        }
                        let mut j: usize = 0;
                        let mut found = false;
                        while j < self.commands.len() && !found
                            invariant
                                j <= self.commands@.len(),
                                ws@.len() > 0,
                                views(ws@)[0] == ws@[0]@,
                                self.commands@ == cmds,
                                !found ==> find_command(cmds, views(ws@)[0], 0) == find_command(
                                    cmds,
                                    views(ws@)[0],
                                    j as int,
                                ),
                                found ==> j < cmds.len() && find_command(cmds, views(ws@)[0], 0)
                                    == j,
                            decreases self.commands@.len() - j + if found {
                                0int
                            } else {
                                1int
                            },
                        {
                            let name = chars_of(self.commands[j].get_name());
                            if same_chars(&name, &ws[0]) {
                                found = true;
                            } else {
                                j = j + 1;
                            }
                        }
                        if found {
                            assert(names_command(cmds, l, j as int));
                            assert(calls_of(cmds, lv.skip(li as int), j as int) >= 1);
                            assert(fits(cmds[j as int], calls_of(cmds, lv.skip(li as int), j as int)));
                            let mut cmd = self.commands.remove(j);
                            let r = cmd.exec(&args);
                            self.commands.insert(j, cmd);
                            assert(self.commands@ =~= cmds.update(j as int, command_after(cmds[j as int])));
                            proof {
                                let after = cmds.update(j as int, command_after(cmds[j as int]));
                                assert forall|m: int| 0 <= m < after.len() implies fits(
                                    #[trigger] after[m],
                                    calls_of(after, lv.skip(li + 1), m),
                                ) by {
                                    lemma_calls_same_names(
                                        cmds,
                                        j as int,
                                        command_after(cmds[j as int]),
                                        lv.skip(li + 1),
                                        m,
                                    );
                                    assert(calls_of(cmds, lv.skip(li + 1), m) <= calls_of(
                                        cmds,
                                        lv.skip(li as int),
                                        m,
                                    ));
                                    if m == j {
                                        assert(names_command(cmds, l, m));
                                    }
                                }
                            }
                            match r {
                                Ok(msg) => out.push(msg),
                                Err(err) => {
                                    let mut m = string_from("Errror: ");
                                    m.append(err.as_str());
                                    out.push(m);
                                },
                            }
                        } else {
                            let mut m = string_from("Unknown command: ");
                            push_chars(&mut m, &ws[0]);
                            out.push(m);
                        }
                    }
                }
            }
            li = li + 1;
        }
        proof {
            if !stopped {
                assert(lv.skip(li as int).len() == 0);
            }
        }
        out
    }
}

} // verus!
