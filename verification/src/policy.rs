//! Whether a command may run, and what is held of its output.
use crate::limits::RunLimits;
use crate::text::{
    ascii_lower, ascii_lower_of, begins, chars_of, decimal, decimal_of, decimal_of_u64, is_at, join,
    join_of, law_occurrence, same_text, seqs, split, split_of, string_of, texts, trim, trim_of,
    trim_start, trim_start_of, Separator,
};
use vstd::prelude::*;

verus! {

/// Whether commands may run, and the prefixes they are restricted to: any
/// command, where there are none.
#[derive(Debug)]
pub struct RunPolicy {
    /// Commands may run.
    pub enabled: bool,
    /// The prefixes.
    pub allowlist: Vec<String>,
}

/// A character of the shell's control syntax.
pub open spec fn shell_control(c: char) -> bool {
    c == ';' || c == '|' || c == '&' || c == '<' || c == '>' || c == '`' || c == '$' || c == '('
        || c == ')' || c == '{' || c == '}' || c == '\n' || c == '\r'
}

/// The command holds the shell's control syntax.
pub open spec fn has_shell_control(command: Seq<char>) -> bool {
    exists|i: int| 0 <= i < command.len() && shell_control(#[trigger] command[i])
}

/// A white-space character among the ASCII characters.
pub open spec fn ascii_blank(c: char) -> bool {
    c == ' ' || c == '\t' || c == '\n' || c == '\r' || c == '\x0c'
}

/// The command is the prefix, or goes on behind it with white space.
pub open spec fn permitted_by(command: Seq<char>, prefix: Seq<char>) -> bool {
    &&& begins(command, prefix)
    &&& command.len() == prefix.len() || ascii_blank(command[prefix.len() as int])
}

/// One of the prefixes permits the command.
pub open spec fn on_list(command: Seq<char>, list: Seq<Seq<char>>) -> bool {
    exists|i: int| 0 <= i < list.len() && permitted_by(command, #[trigger] list[i])
}

/// The answer to a command that may not run; nothing where it may.
pub open spec fn refusal(enabled: bool, list: Seq<Seq<char>>, command: Seq<char>) -> Option<
    Seq<char>,
> {
    let trimmed = trim_start(command);
    if !enabled {
        Some(
            "coffer_run is disabled by default; set COFFER_MCP_ENABLE_RUN=1 to enable it (optionally COFFER_MCP_RUN_ALLOWLIST=\"prog1,prog2\" to restrict commands)"@,
        )
    } else if list.len() > 0 && has_shell_control(trimmed) {
        Some(
            "command refused: COFFER_MCP_RUN_ALLOWLIST accepts only simple command lines; shell control syntax is not allowed"@,
        )
    } else if list.len() > 0 && !on_list(trimmed, list) {
        Some(
            "command refused: COFFER_MCP_RUN_ALLOWLIST permits only commands beginning with one of ["@
                + join(list, ", "@) + "]"@,
        )
    } else {
        None
    }
}

fn is_shell_control(c: char) -> (r: bool)
    ensures
        r == shell_control(c),
{
    c == ';' || c == '|' || c == '&' || c == '<' || c == '>' || c == '`' || c == '$' || c == '('
        || c == ')' || c == '{' || c == '}' || c == '\n' || c == '\r'
}

fn is_ascii_blank(c: char) -> (r: bool)
    ensures
        r == ascii_blank(c),
{
    c == ' ' || c == '\t' || c == '\n' || c == '\r' || c == '\x0c'
}

/// Whether the command holds the shell's control syntax.
pub fn contains_shell_control(command: &[char]) -> (r: bool)
    ensures
        r == has_shell_control(command@),
{
    let mut i: usize = 0;
    while i < command.len()
        invariant
            i <= command@.len(),
            forall|k: int| 0 <= k < i ==> !shell_control(#[trigger] command@[k]),
        decreases command@.len() - i,
    {
        if is_shell_control(command[i]) {
            return true;
        }
        i += 1;
    }
    false
}

/// Whether the command is the prefix, or goes on behind it with white space.
pub fn allowlist_prefix_matches(command: &[char], prefix: &str) -> (r: bool)
    ensures
        r == permitted_by(command@, prefix@),
{
    let p = chars_of(prefix);
    if p.len() > command.len() || !is_at(command, &p, 0) {
        return false;
    }
    assert(begins(command@, p@));
    command.len() == p.len() || is_ascii_blank(command[p.len()])
}

impl RunPolicy {
    /// Whether the command may run, or why not.
    pub fn permits(&self, command: &str) -> (out: Result<(), String>)
        ensures
            match out {
                Ok(_) => refusal(self.enabled, texts(self.allowlist@), command@) is None,
                Err(message) => refusal(self.enabled, texts(self.allowlist@), command@) == Some(
                    message@,
                ),
            },
    {
        if !self.enabled {
            return Err(
                "coffer_run is disabled by default; set COFFER_MCP_ENABLE_RUN=1 to enable it (optionally COFFER_MCP_RUN_ALLOWLIST=\"prog1,prog2\" to restrict commands)".to_owned(),
            );
        }
        let ghost list = texts(self.allowlist@);
        let trimmed = trim_start_of(&chars_of(command));
        if self.allowlist.len() > 0 {
            if contains_shell_control(&trimmed) {
                return Err(
                    "command refused: COFFER_MCP_RUN_ALLOWLIST accepts only simple command lines; shell control syntax is not allowed".to_owned(),
                );
            }
            let mut i: usize = 0;
            while i < self.allowlist.len()
                invariant
                    i <= self.allowlist@.len(),
                    self.allowlist@.len() > 0,
                    list == texts(self.allowlist@),
                    self.enabled,
                    trimmed@ == trim_start(command@),
                    !has_shell_control(trimmed@),
                    forall|k: int| 0 <= k < i ==> !permitted_by(trimmed@, #[trigger] list[k]),
                decreases self.allowlist@.len() - i,
            {
                assert(list[i as int] == self.allowlist@[i as int]@);
                if allowlist_prefix_matches(&trimmed, self.allowlist[i].as_str()) {
                    assert(on_list(trimmed@, list));
                    return Ok(());
                }
                i += 1;
            }
            assert(!on_list(trimmed@, list));
            return Err(
                "command refused: COFFER_MCP_RUN_ALLOWLIST permits only commands beginning with one of [".to_owned().concat(
                join_of(self.allowlist.as_slice(), ", ").as_str()).concat("]"),
            );
        }
        Ok(())
    }
}

/// A setting that switches something on.
pub open spec fn switched_on(raw: Option<Seq<char>>) -> bool {
    match raw {
        None => false,
        Some(s) => {
            let v = ascii_lower(trim(s));
            v == "1"@ || v == "true"@ || v == "yes"@ || v == "on"@
        },
    }
}

/// Whether a setting switches something on.
pub fn truthy(raw: Option<&str>) -> (r: bool)
    ensures
        r == switched_on(crate::limits::setting(raw)),
{
    match raw {
        None => false,
        Some(s) => {
            let v = string_of(&ascii_lower_of(&trim_of(&chars_of(s))));
            same_text(v.as_str(), "1") || same_text(v.as_str(), "true") || same_text(
                v.as_str(),
                "yes",
            ) || same_text(v.as_str(), "on")
        },
    }
}

/// The texts, without the white space around each, that are not empty.
pub open spec fn nonempty_trimmed(parts: Seq<Seq<char>>) -> Seq<Seq<char>>
    decreases parts.len(),
{
    if parts.len() == 0 {
        Seq::empty()
    } else {
        let before = nonempty_trimmed(parts.drop_last());
        if trim(parts.last()).len() == 0 {
            before
        } else {
            before.push(trim(parts.last()))
        }
    }
}

/// The prefixes that a setting gives: the texts between commas.
pub open spec fn allowlist_of(raw: Option<Seq<char>>) -> Seq<Seq<char>> {
    match raw {
        None => Seq::empty(),
        Some(s) => nonempty_trimmed(split(s, Separator::Comma)),
    }
}

/// The policy that two settings give.
pub fn run_policy_from_values(enable_raw: Option<&str>, allowlist_raw: Option<&str>) -> (out:
    RunPolicy)
    ensures
        out.enabled == switched_on(crate::limits::setting(enable_raw)),
        texts(out.allowlist@) == allowlist_of(crate::limits::setting(allowlist_raw)),
{
    let mut allowlist: Vec<String> = Vec::new();
    assert(texts(allowlist@) =~= Seq::empty());
    if let Some(raw) = allowlist_raw {
        let parts = split_of(&chars_of(raw), Separator::Comma);
        let ghost all = seqs(parts@);
        let mut i: usize = 0;
        while i < parts.len()
            invariant
                i <= parts@.len(),
                all == seqs(parts@),
                texts(allowlist@) == nonempty_trimmed(all.take(i as int)),
            decreases parts@.len() - i,
        {
            assert(all.take(i as int + 1).drop_last() =~= all.take(i as int));
            assert(all.take(i as int + 1).last() == parts@[i as int]@);
            let part = trim_of(&parts[i]);
            if part.len() > 0 {
                let ghost before = texts(allowlist@);
                allowlist.push(string_of(&part));
                assert(texts(allowlist@) =~= before.push(part@));
            }
            i += 1;
        }
        assert(all.take(i as int) =~= all);
    }
    RunPolicy { enabled: truthy(enable_raw), allowlist }
}

/// Where a list is set, a command that may run begins with one of its prefixes
/// and holds no control syntax behind its leading white space.
pub proof fn law_list_restricts(enabled: bool, list: Seq<Seq<char>>, command: Seq<char>)
    requires
        list.len() > 0,
    ensures
        refusal(enabled, list, command) is None <==> enabled && on_list(trim_start(command), list)
            && !has_shell_control(trim_start(command)),
{
}

/// Nothing runs unless it is switched on.
pub proof fn law_off_by_default(list: Seq<Seq<char>>, command: Seq<char>)
    ensures
        !switched_on(None),
        refusal(false, list, command) is Some,
{
}

// ---------------------------------------------------------------------------
// Output
// ---------------------------------------------------------------------------

/// The shell line that sends both output streams of a command to one.
pub fn shell_line(command: &str) -> (out: String)
    ensures
        out@ == "exec 2>&1; "@ + command@,
{
    "exec 2>&1; ".to_owned().concat(command)
}

/// What came next from a running command.
#[derive(Debug)]
pub enum RunEvent {
    /// A piece of output; an empty piece is the end of the output.
    Output(Vec<u8>),
    /// The command ended: whether it succeeded, and its status in words.
    Exited(bool, String),
    /// The time is up.
    TimedOut,
}

/// What to do next with a running command.
#[derive(Clone, Copy, Debug, PartialEq, Eq, Structural)]
pub enum RunAction {
    /// Read on.
    Read,
    /// Wait for its end.
    Wait,
    /// Kill it.
    Kill,
    /// Nothing: it has ended.
    Finished,
}

/// How a command ended.
#[derive(Debug)]
pub enum RunEnd {
    /// By itself: whether it succeeded, and its status in words.
    Exited(bool, String),
    /// It ran out of time.
    TimedOut,
    /// It wrote more than is held.
    OutputLimit,
}

/// The capture of a command's output.
#[derive(Debug)]
pub struct RunCapture {
    /// What is held of the output.
    pub bytes: Vec<u8>,
    /// How the command ended, once it has.
    pub end: Option<RunEnd>,
}

/// The first bytes of the output so far and the next piece, as far as they are
/// held.
pub open spec fn held_output(bytes: Seq<u8>, piece: Seq<u8>, max: nat) -> Seq<u8> {
    let all = bytes + piece;
    if all.len() <= max {
        all
    } else {
        all.take(max as int)
    }
}

impl RunCapture {
    /// The capture before anything came.
    pub fn new() -> (out: RunCapture)
        ensures
            out.bytes@ == Seq::<u8>::empty(),
            out.end is None,
    {
        RunCapture { bytes: Vec::new(), end: None }
    }

    /// Takes what came next from the command, and says what to do next.
    pub fn step(&mut self, event: RunEvent, limits: RunLimits) -> (action: RunAction)
        requires
            old(self).bytes@.len() <= limits.max_output_bytes,
        ensures
            final(self).bytes@.len() <= limits.max_output_bytes,
            match event {
                RunEvent::Output(piece) => {
                    &&& final(self).bytes@ == held_output(
                        old(self).bytes@,
                        piece@,
                        limits.max_output_bytes as nat,
                    )
                    &&& if piece@.len() == 0 {
                        action == RunAction::Wait && final(self).end == old(self).end
                    } else if old(self).bytes@.len() + piece@.len() > limits.max_output_bytes {
                        action == RunAction::Kill && final(self).end == Some(RunEnd::OutputLimit)
                    } else {
                        action == RunAction::Read && final(self).end == old(self).end
                    }
                },
                RunEvent::Exited(success, status) => {
                    &&& final(self).bytes@ == old(self).bytes@
                    &&& final(self).end == Some(RunEnd::Exited(success, status))
                    &&& action == RunAction::Finished
                },
                RunEvent::TimedOut => {
                    &&& final(self).bytes@ == old(self).bytes@
                    &&& final(self).end == Some(RunEnd::TimedOut)
                    &&& action == RunAction::Kill
                },
            },
    {
        match event {
            RunEvent::Output(piece) => {
                if piece.len() == 0 {
                    assert(self.bytes@ + piece@ =~= self.bytes@);
                    return RunAction::Wait;
                }
                let ghost before = self.bytes@;
                let remaining: usize = limits.max_output_bytes - self.bytes.len();
                let over = piece.len() > remaining;
                let take: usize = if over {
                    remaining
                } else {
                    piece.len()
                };
                let mut i: usize = 0;
                while i < take
                    invariant
                        i <= take <= piece@.len(),
                        self.bytes@ == before + piece@.take(i as int),
                        self.end == old(self).end,
                    decreases take - i,
                {
                    assert(piece@.take(i as int + 1) =~= piece@.take(i as int).push(
                        piece@[i as int],
                    ));
                    self.bytes.push(piece[i]);
                    i += 1;
                }
                assert(self.bytes@ =~= held_output(
                    before,
                    piece@,
                    limits.max_output_bytes as nat,
                ));
                if over {
                    self.end = Some(RunEnd::OutputLimit);
                    RunAction::Kill
                } else {
                    RunAction::Read
                }
            },
            RunEvent::Exited(success, status) => {
                self.end = Some(RunEnd::Exited(success, status));
                RunAction::Finished
            },
            RunEvent::TimedOut => {
                self.end = Some(RunEnd::TimedOut);
                RunAction::Kill
            },
        }
    }
}

/// What precedes the text about the held output, by how the command ended.
pub open spec fn ending_text(end: Option<RunEnd>, held: nat, limits: RunLimits) -> Seq<char> {
    match end {
        Some(RunEnd::TimedOut) => "command timed out after "@ + decimal(
            limits.timeout_seconds as nat,
        ) + " seconds; captured "@ + decimal(held)
            + " bytes before termination (partial output)\n"@,
        Some(RunEnd::OutputLimit) => "command output exceeded COFFER_MCP_MAX_RUN_OUTPUT_MB-derived limit ("@
            + decimal(limits.max_output_bytes as nat) + " bytes); captured first "@ + decimal(held)
            + " bytes and terminated the process (partial output)\n"@,
        Some(RunEnd::Exited(success, status)) => if success {
            Seq::empty()
        } else {
            "command exited "@ + status@ + "\n"@
        },
        None => "command ended without an exit status\n"@,
    }
}

/// The answer to a command, given the text about the held output.
pub fn run_text(capture: &RunCapture, limits: RunLimits, ingested: &str) -> (out: String)
    ensures
        out@ == ending_text(capture.end, capture.bytes@.len(), limits) + ingested@,
{
    let held: usize = capture.bytes.len();
    match &capture.end {
        Some(RunEnd::TimedOut) => "command timed out after ".to_owned().concat(
            decimal_of_u64(limits.timeout_seconds).as_str(),
        ).concat(" seconds; captured ").concat(decimal_of(held).as_str()).concat(
            " bytes before termination (partial output)\n",
        ).concat(ingested),
        Some(RunEnd::OutputLimit) => "command output exceeded COFFER_MCP_MAX_RUN_OUTPUT_MB-derived limit (".to_owned().concat(
        decimal_of(limits.max_output_bytes).as_str()).concat(" bytes); captured first ").concat(
            decimal_of(held).as_str(),
        ).concat(" bytes and terminated the process (partial output)\n").concat(ingested),
        Some(RunEnd::Exited(success, status)) => if *success {
            assert(Seq::<char>::empty() + ingested@ =~= ingested@);
            ingested.to_owned()
        } else {
            "command exited ".to_owned().concat(status.as_str()).concat("\n").concat(ingested)
        },
        None => "command ended without an exit status\n".to_owned().concat(ingested),
    }
}

/// Which commands a list lets through: those that begin with one of its entries
/// and go on after it, if at all, with a blank; and that hold none of the
/// characters by which a shell joins, redirects or expands.
pub proof fn law_permission(command: Seq<char>, prefix: Seq<char>, c: char)
    ensures
        permitted_by(command, prefix) <==> prefix.is_prefix_of(command) && (command == prefix || ({
            let next = command[prefix.len() as int];
            next == ' ' || next == '\t' || next == '\n' || next == '\r' || next == '\x0c'
        })),
        shell_control(c) <==> c == ';' || c == '|' || c == '&' || c == '<' || c == '>' || c == '`'
            || c == '$' || c == '(' || c == ')' || c == '{' || c == '}' || c == '\n' || c == '\r',
        has_shell_control(command) <==> exists|i: int|
            0 <= i < command.len() && shell_control(#[trigger] command[i]),
{
    law_occurrence(command, prefix, 0);
    if command.len() == prefix.len() && prefix.is_prefix_of(command) {
        assert(command =~= prefix);
    }
}

/// When a command is refused: always if commands are switched off; never if they
/// are on and there is no list; with a list, unless it permits the command.
pub proof fn law_refusal(list: Seq<Seq<char>>, command: Seq<char>)
    ensures
        refusal(false, list, command) is Some,
        list.len() == 0 ==> refusal(true, list, command) is None,
        list.len() > 0 ==> (refusal(true, list, command) is None <==> !has_shell_control(
            trim_start(command),
        ) && exists|i: int|
            0 <= i < list.len() && permitted_by(trim_start(command), #[trigger] list[i])),
{
}

/// What switches commands on: 1, true, yes or on, whatever the case and the white
/// space around it.
pub proof fn law_switch(s: Seq<char>)
    ensures
        !switched_on(None),
        switched_on(Some(s)) <==> ascii_lower(trim(s)) == "1"@ || ascii_lower(trim(s)) == "true"@
            || ascii_lower(trim(s)) == "yes"@ || ascii_lower(trim(s)) == "on"@,
{
}

/// A list holds every entry between commas that is not blank, without the white
/// space around it, in order.
pub proof fn law_allowlist(s: Seq<char>)
    ensures
        allowlist_of(None) == Seq::<Seq<char>>::empty(),
        allowlist_of(Some(s)) == split(s, Separator::Comma).map_values(
            |p: Seq<char>| trim(p),
        ).filter(|p: Seq<char>| p.len() > 0),
{
    lemma_nonempty(split(s, Separator::Comma));
}

proof fn lemma_nonempty(parts: Seq<Seq<char>>)
    ensures
        nonempty_trimmed(parts) == parts.map_values(|p: Seq<char>| trim(p)).filter(
            |p: Seq<char>| p.len() > 0,
        ),
    decreases parts.len(),
{
    reveal(Seq::filter);
    let all = parts.map_values(|p: Seq<char>| trim(p));
    if parts.len() > 0 {
        lemma_nonempty(parts.drop_last());
        assert(all.drop_last() =~= parts.drop_last().map_values(|p: Seq<char>| trim(p)));
        assert(all.last() == trim(parts.last()));
    } else {
        assert(all =~= Seq::empty());
    }
}

/// Output is held up to the limit, from its start and without a gap.
pub proof fn law_held_output(bytes: Seq<u8>, piece: Seq<u8>, max: nat)
    requires
        bytes.len() <= max,
    ensures
        bytes.is_prefix_of(held_output(bytes, piece, max)),
        held_output(bytes, piece, max).is_prefix_of(bytes + piece),
        bytes.len() + piece.len() <= max ==> held_output(bytes, piece, max) == bytes + piece,
        bytes.len() + piece.len() > max ==> held_output(bytes, piece, max).len() == max,
{
    let held = held_output(bytes, piece, max);
    assert(bytes =~= held.subrange(0, bytes.len() as int));
    assert(held =~= (bytes + piece).subrange(0, held.len() as int));
}

/// What is said of how a command ended: nothing of one that succeeded, the status
/// of one that failed, and how much was held of one that was stopped.
pub proof fn law_ending(held: nat, limits: RunLimits, status: String)
    ensures
        ending_text(Some(RunEnd::Exited(true, status)), held, limits) == Seq::<char>::empty(),
        ending_text(Some(RunEnd::Exited(false, status)), held, limits) == "command exited "@
            + status@ + "\n"@,
        ending_text(Some(RunEnd::TimedOut), held, limits) == "command timed out after "@ + decimal(
            limits.timeout_seconds as nat,
        ) + " seconds; captured "@ + decimal(held)
            + " bytes before termination (partial output)\n"@,
        ending_text(Some(RunEnd::OutputLimit), held, limits)
            == "command output exceeded COFFER_MCP_MAX_RUN_OUTPUT_MB-derived limit ("@ + decimal(
            limits.max_output_bytes as nat,
        ) + " bytes); captured first "@ + decimal(held)
            + " bytes and terminated the process (partial output)\n"@,
        ending_text(None, held, limits) == "command ended without an exit status\n"@,
{
}

} // verus!
