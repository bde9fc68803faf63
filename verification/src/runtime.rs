//! The state of running commands: their statuses, the shared log with its
//! size limit, and which started targets still need which commands.
use vstd::prelude::*;
use std::collections::VecDeque;
use crate::id_map::IdMap;
use crate::model::{CommandView, Config, ConfigView, HandyCommand, Project, ProjectView, TargetKind, TargetRef, TargetView};
use crate::text::{
    contains_text, fitting_prefix, is_blank, is_blank_str, lemma_encoded_size, lines_of,
    nonempty_lines, lemma_lines_count,
    lemma_text_size_concat, lemma_text_size_prefix, text_size, lemma_text_size_bound,
};

verus! {

/// The most bytes of log text that are kept.
pub const LOG_LIMIT_BYTES: usize = 33554432;

/// The most bytes kept of one log line.
pub const LINE_LIMIT_BYTES: usize = 65536;

/// Where a command is in its life.
#[derive(Clone, Copy, Debug, PartialEq, Eq, Structural)]
pub enum ProcessStatus {
    Stopped,
    Starting,
    Running,
    Stopping,
    Completed,
    Failed,
}

/// The stream that a log line came from.
#[derive(Clone, Copy, Debug, PartialEq, Eq, Structural)]
pub enum LogStream {
    Stdout,
    Stderr,
    System,
}

/// The status of one command.
#[derive(Debug)]
pub struct RuntimeEntry {
    pub command_id: String,
    pub status: ProcessStatus,
    pub exit_code: Option<i32>,
    pub started_at: Option<u64>,
}

/// The value of a status entry.
pub struct RuntimeEntryView {
    pub command_id: Seq<char>,
    pub status: ProcessStatus,
    pub exit_code: Option<i32>,
    pub started_at: Option<u64>,
}

impl View for RuntimeEntry {
    type V = RuntimeEntryView;

    open spec fn view(&self) -> RuntimeEntryView {
        RuntimeEntryView {
            command_id: self.command_id@,
            status: self.status,
            exit_code: self.exit_code,
            started_at: self.started_at,
        }
    }
}

impl Clone for RuntimeEntry {
    fn clone(&self) -> (r: Self)
        ensures
            r@ == self@,
    {
        RuntimeEntry {
            command_id: self.command_id.clone(),
            status: self.status,
            exit_code: self.exit_code,
            started_at: self.started_at,
        }
    }
}

/// One line of the log.
#[derive(Debug)]
pub struct LogEntry {
    pub sequence: u64,
    pub timestamp: u64,
    pub command_id: String,
    pub stream: LogStream,
    pub text: String,
}

/// The value of a log line.
pub struct LogEntryView {
    pub sequence: u64,
    pub timestamp: u64,
    pub command_id: Seq<char>,
    pub stream: LogStream,
    pub text: Seq<char>,
}

impl View for LogEntry {
    type V = LogEntryView;

    open spec fn view(&self) -> LogEntryView {
        LogEntryView {
            sequence: self.sequence,
            timestamp: self.timestamp,
            command_id: self.command_id@,
            stream: self.stream,
            text: self.text@,
        }
    }
}

impl Clone for LogEntry {
    fn clone(&self) -> (r: Self)
        ensures
            r@ == self@,
    {
        LogEntry {
            sequence: self.sequence,
            timestamp: self.timestamp,
            command_id: self.command_id.clone(),
            stream: self.stream,
            text: self.text.clone(),
        }
    }
}

/// The bytes of text held by a run of log lines.
pub open spec fn logs_size(logs: Seq<LogEntryView>) -> nat
    decreases logs.len(),
{
    if logs.len() == 0 {
        0
    } else {
        text_size(logs[0].text) + logs_size(logs.drop_first())
    }
}

/// Adding a line at the end adds its bytes.
pub proof fn lemma_logs_size_push(logs: Seq<LogEntryView>, e: LogEntryView)
    ensures
        logs_size(logs.push(e)) == logs_size(logs) + text_size(e.text),
    decreases logs.len(),
{
    if logs.len() == 0 {
        assert(logs.push(e).drop_first() =~= Seq::<LogEntryView>::empty());
        assert(logs.push(e)[0] == e);
        assert(logs_size(logs.push(e).drop_first()) == 0);
        assert(logs_size(logs) == 0);
    } else {
        lemma_logs_size_push(logs.drop_first(), e);
        assert(logs.push(e).drop_first() =~= logs.drop_first().push(e));
        assert(logs.push(e)[0] == logs[0]);
    }
}

/// What a log line is marked with when it was cut short.
pub open spec fn truncation_mark() -> Seq<char> {
    " … [line truncated]"@
}

/// How many leading characters of `s` fit in `limit` bytes.
pub open spec fn fitting_count(s: Seq<char>, limit: nat) -> nat {
    choose|k: nat|
        k <= s.len() && text_size(#[trigger] s.take(k as int)) <= limit && (k < s.len() ==> text_size(
            s.take(k + 1int),
        ) > limit)
}

/// The count of characters that fit is the only one that fits and is maximal.
pub proof fn lemma_fitting_count(s: Seq<char>, limit: nat, k: nat)
    requires
        k <= s.len(),
        text_size(s.take(k as int)) <= limit,
        k < s.len() ==> text_size(s.take(k + 1int)) > limit,
    ensures
        fitting_count(s, limit) == k,
{
    let f = fitting_count(s, limit);
    assert(f <= s.len() && text_size(s.take(f as int)) <= limit && (f < s.len() ==> text_size(
        s.take(f + 1int),
    ) > limit));
    if f < k {
        lemma_text_size_prefix(s, f + 1int, k as int);
    } else if k < f {
        lemma_text_size_prefix(s, k + 1int, f as int);
    }
}

/// The text that the log keeps of a line: a line longer than the line limit
/// is cut at the last character boundary within the limit and marked.
pub open spec fn kept_line(s: Seq<char>) -> Seq<char> {
    if text_size(s) > LINE_LIMIT_BYTES {
        s.take(fitting_count(s, LINE_LIMIT_BYTES as nat) as int) + truncation_mark()
    } else {
        s
    }
}

/// `kept` is `all` without its first `d` lines, the fewest that bring it
/// within the size limit.
pub open spec fn trimmed_at(all: Seq<LogEntryView>, kept: Seq<LogEntryView>, d: int) -> bool {
    &&& 0 <= d <= all.len()
    &&& kept == all.skip(d)
    &&& logs_size(kept) <= LOG_LIMIT_BYTES
    &&& d > 0 ==> logs_size(all.skip(d - 1)) > LOG_LIMIT_BYTES
}

/// The log that remains after `all` is trimmed from the front to the size limit.
pub open spec fn trimmed_to_limit(all: Seq<LogEntryView>, kept: Seq<LogEntryView>) -> bool {
    exists|d: int| #[trigger] trimmed_at(all, kept, d)
}

/// A command that is starting, running or being stopped.
pub open spec fn is_live(s: ProcessStatus) -> bool {
    s == ProcessStatus::Starting || s == ProcessStatus::Running || s == ProcessStatus::Stopping
}

/// The command has a stop command that is not blank.
pub open spec fn has_cleanup(cmd: CommandView) -> bool {
    cmd.stop_command matches Some(s) && !is_blank(s)
}

/// The state of the runtime.
pub struct RuntimeView {
    pub entries: Map<Seq<char>, RuntimeEntryView>,
    pub logs: Seq<LogEntryView>,
    pub next_sequence: u64,
    pub active: Map<TargetView, Seq<Seq<char>>>,
}

/// A command can be stopped while it is live, and after it completed when it
/// has a cleanup command.
pub open spec fn stoppable(rt: RuntimeView, cmd: CommandView) -> bool {
    rt.entries.contains_key(cmd.id) && {
        let s = rt.entries[cmd.id].status;
        is_live(s) || (s == ProcessStatus::Completed && has_cleanup(cmd))
    }
}

/// Some target that is still active needs the command `id`.
pub open spec fn still_needed(active: Map<TargetView, Seq<Seq<char>>>, id: Seq<char>) -> bool {
    exists|t: TargetView| #[trigger] active.contains_key(t) && active[t].contains(id)
}

/// The statuses, the log and the active targets of the running commands.
pub struct RuntimeManager {
    entries: IdMap<RuntimeEntry>,
    logs: VecDeque<LogEntry>,
    log_bytes: usize,
    next_sequence: u64,
    active_targets: Vec<(TargetRef, Vec<String>)>,
}

impl RuntimeManager {
    closed spec fn log_seq(&self) -> Seq<LogEntryView> {
        self.logs@.map_values(|e: LogEntry| e@)
    }

    closed spec fn active_keys(&self) -> Seq<TargetView> {
        self.active_targets@.map_values(|e: (TargetRef, Vec<String>)| e.0@)
    }

    closed spec fn active_map(&self) -> Map<TargetView, Seq<Seq<char>>> {
        Map::new(
            |t: TargetView| self.active_keys().contains(t),
            |t: TargetView| self.active_targets@[self.active_keys().index_of(t)].1.deep_view(),
        )
    }

    /// The state is consistent: each status is stored under its command, the
    /// byte count is that of the kept lines and within the limit, sequence
    /// numbers increase, and each target is active once.
    pub closed spec fn wf(&self) -> bool {
        &&& forall|k: Seq<char>| #[trigger] self.entries@.contains_key(k) ==> self.entries@[k].command_id == k
        &&& self.log_bytes == logs_size(self.log_seq())
        &&& self.log_bytes <= LOG_LIMIT_BYTES
        &&& self.next_sequence >= 1
        &&& forall|i: int| 0 <= i < self.log_seq().len() ==> (#[trigger] self.log_seq()[i]).sequence < self.next_sequence
        &&& forall|i: int, j: int| 0 <= i < j < self.log_seq().len() ==> (#[trigger] self.log_seq()[i]).sequence < (#[trigger] self.log_seq()[j]).sequence
        &&& self.active_keys().no_duplicates()
    }
}

impl View for RuntimeManager {
    type V = RuntimeView;

    closed spec fn view(&self) -> RuntimeView {
        RuntimeView {
            entries: self.entries@,
            logs: self.log_seq(),
            next_sequence: self.next_sequence,
            active: self.active_map(),
        }
    }
}

/// The time now, in milliseconds since the Unix epoch (`SystemTime::now`);
/// a clock before the epoch reads as zero.
#[verifier::external_body]
pub fn now() -> u64 {
    std::time::SystemTime::now().duration_since(std::time::UNIX_EPOCH).unwrap_or_default().as_millis() as u64
}

impl RuntimeManager {
    /// No statuses, an empty log numbered from one, and no active targets.
    pub fn new() -> (r: Self)
        ensures
            r.wf(),
            r@.entries == Map::<Seq<char>, RuntimeEntryView>::empty(),
            r@.logs == Seq::<LogEntryView>::empty(),
            r@.next_sequence == 1,
            r@.active == Map::<TargetView, Seq<Seq<char>>>::empty(),
    {
        let r = RuntimeManager {
            entries: IdMap::new(),
            logs: VecDeque::new(),
            log_bytes: 0,
            next_sequence: 1,
            active_targets: Vec::new(),
        };
        assert(r.log_seq() =~= Seq::<LogEntryView>::empty());
        assert(r.active_keys() =~= Seq::<TargetView>::empty());
        assert(r@.active =~= Map::<TargetView, Seq<Seq<char>>>::empty());
        r
    }

    /// The number that the next log line will get.
    pub fn next_sequence(&self) -> (r: u64)
        ensures
            r == self@.next_sequence,
    {
        self.next_sequence
    }

    /// Every status, one per command.
    pub fn snapshot(&self) -> (r: Vec<RuntimeEntry>)
        requires
            self.wf(),
        ensures
            r@.len() == self@.entries.len(),
            forall|i: int| 0 <= i < r@.len() ==> {
                &&& self@.entries.contains_key((#[trigger] r@[i])@.command_id)
                &&& self@.entries[r@[i]@.command_id] == r@[i]@
            },
            forall|k: Seq<char>| #[trigger] self@.entries.contains_key(k) ==> exists|i: int|
                0 <= i < r@.len() && (#[trigger] r@[i])@.command_id == k,
    {
        let n = self.entries.len();
        let mut r: Vec<RuntimeEntry> = Vec::new();
        let mut i: usize = 0;
        while i < n
            invariant
                n == self.entries.key_seq().len(),
                self.entries.ordered_as(self.entries@),
                forall|k: Seq<char>| #[trigger] self.entries@.contains_key(k) ==> self.entries@[k].command_id == k,
                i <= n,
                r@.len() == i,
                forall|j: int| 0 <= j < i ==> (#[trigger] r@[j])@ == self.entries@[self.entries.key_seq()[j]],
            decreases n - i,
        {
            let ghost k = self.entries.key_seq()[i as int];
            assert(self.entries@.contains_key(k));
            r.push(self.entries.value_at(i).clone());
            i = i + 1;
        }
        assert forall|i: int| 0 <= i < r@.len() implies {
            &&& self@.entries.contains_key((#[trigger] r@[i])@.command_id)
            &&& self@.entries[r@[i]@.command_id] == r@[i]@
        } by {
            let k = self.entries.key_seq()[i];
            assert(self.entries@.contains_key(k));
        }
        assert forall|k: Seq<char>| #[trigger] self@.entries.contains_key(k) implies exists|i: int|
            0 <= i < r@.len() && (#[trigger] r@[i])@.command_id == k by {
            let j = choose|j: int| 0 <= j < n && self.entries.key_seq()[j] == k;
            assert(r@[j]@.command_id == k);
        }
        r
    }

    /// The kept log lines, oldest first.
    pub fn log_snapshot(&self) -> (r: Vec<LogEntry>)
        ensures
            r@.map_values(|e: LogEntry| e@) == self@.logs,
    {
        let n = self.logs.len();
        let mut r: Vec<LogEntry> = Vec::new();
        let mut i: usize = 0;
        while i < n
            invariant
                n == self.logs@.len(),
                i <= n,
                r@.len() == i,
                forall|j: int| 0 <= j < i ==> (#[trigger] r@[j])@ == self.logs@[j]@,
            decreases n - i,
        {
            r.push(self.logs[i].clone());
            i = i + 1;
        }
        assert(r@.map_values(|e: LogEntry| e@) =~= self@.logs);
        r
    }

    /// Forgets every log line; the numbering goes on where it was.
    pub fn clear_logs(&mut self)
        requires
            old(self).wf(),
        ensures
            final(self).wf(),
            final(self)@.logs == Seq::<LogEntryView>::empty(),
            final(self)@.next_sequence == old(self)@.next_sequence,
            final(self)@.entries == old(self)@.entries,
            final(self)@.active == old(self)@.active,
    {
        self.logs.clear();
        self.log_bytes = 0;
        assert(self.log_seq() =~= Seq::<LogEntryView>::empty());
    }

    /// The status of a command, if it has one.
    pub fn status_of(&self, command_id: &String) -> (r: Option<ProcessStatus>)
        ensures
            match r {
                Some(s) => self@.entries.contains_key(command_id@) && self@.entries[command_id@].status == s,
                None => !self@.entries.contains_key(command_id@),
            },
    {
        match self.entries.get(command_id) {
            Some(e) => Some(e.status),
            None => None,
        }
    }

    /// Whether stopping the command would do anything: it is live, or it
    /// completed and has a cleanup command.
    pub fn can_stop(&self, command: &HandyCommand) -> (r: bool)
        ensures
            r == stoppable(self@, command@),
    {
        match self.status_of(&command.id) {
            Some(ProcessStatus::Starting) | Some(ProcessStatus::Running) | Some(ProcessStatus::Stopping) => true,
            Some(ProcessStatus::Completed) => match &command.stop_command {
                Some(s) => !is_blank_str(s.as_str()),
                None => false,
            },
            _ => false,
        }
    }
}

/// The text that the log keeps of a line.
pub fn keep_line(text: String) -> (r: String)
    ensures
        r@ == kept_line(text@),
        text_size(r@) <= LINE_LIMIT_BYTES + 76,
{
    let k = fitting_prefix(text.as_str(), LINE_LIMIT_BYTES);
    let n = text.as_str().unicode_len();
    if k < n {
        proof {
            lemma_fitting_count(text@, LINE_LIMIT_BYTES as nat, k as nat);
            lemma_text_size_prefix(text@, k + 1, n as int);
            assert(text@.take(n as int) =~= text@);
        }
        let mut r = String::from_str(text.as_str().substring_char(0, k));
        r.append(" … [line truncated]");
        proof {
            reveal_strlit(" … [line truncated]");
            lemma_text_size_bound(truncation_mark());
            lemma_text_size_concat(text@.take(k as int), truncation_mark());
            assert(text@.subrange(0, k as int) =~= text@.take(k as int));
        }
        r
    } else {
        assert(text@.take(k as int) =~= text@);
        text
    }
}

impl RuntimeManager {
    /// Appends a line to the log, numbered with the next sequence number and
    /// cut to the line limit, then drops the oldest lines until the log fits
    /// in its byte limit. Returns the line as it was kept.
    pub fn push_log_at(&mut self, command_id: &String, stream: LogStream, text: String, timestamp: u64)
        -> (entry: LogEntry)
        requires
            old(self).wf(),
            old(self)@.next_sequence < u64::MAX,
        ensures
            final(self).wf(),
            entry@ == (LogEntryView {
                sequence: old(self)@.next_sequence,
                timestamp,
                command_id: command_id@,
                stream,
                text: kept_line(text@),
            }),
            final(self)@.next_sequence == old(self)@.next_sequence + 1,
            trimmed_to_limit(old(self)@.logs.push(entry@), final(self)@.logs),
            final(self)@.entries == old(self)@.entries,
            final(self)@.active == old(self)@.active,
    {
        let ghost old_logs = self.log_seq();
        let text = keep_line(text);
        let entry = LogEntry {
            sequence: self.next_sequence,
            timestamp,
            command_id: command_id.clone(),
            stream,
            text,
        };
        let ghost all = old_logs.push(entry@);
        proof {
            lemma_encoded_size(entry.text@);
            lemma_logs_size_push(old_logs, entry@);
        }
        let size = entry.text.as_str().len();
        assert(size == text_size(entry.text@));
        self.next_sequence = self.next_sequence + 1;
        self.log_bytes = self.log_bytes + size;
        self.logs.push_back(entry.clone());
        assert(self.log_seq() =~= all);
        assert(all.skip(0) =~= all);
        let ghost mut d: int = 0;
        let ghost entries0 = self.entries;
        let ghost active0 = self.active_targets@;
        let ghost next0 = self.next_sequence;
        while self.log_bytes > LOG_LIMIT_BYTES
            invariant
                self.entries == entries0,
                self.active_targets@ == active0,
                self.next_sequence == next0,
                0 <= d <= all.len(),
                self.log_seq() == all.skip(d),
                self.log_bytes == logs_size(all.skip(d)),
                d > 0 ==> logs_size(all.skip(d - 1)) > LOG_LIMIT_BYTES,
            decreases all.len() - d,
        {
            let ghost before = self.logs@;
            assert(all.skip(d).len() > 0) by {
                if all.skip(d).len() == 0 {
                    assert(logs_size(all.skip(d)) == 0);
                }
            }
            match self.logs.pop_front() {
                Some(removed) => {
                    assert(removed@ == all.skip(d)[0]);
                    assert(all.skip(d).drop_first() =~= all.skip(d + 1));
                    proof {
                        lemma_encoded_size(removed.text@);
                    }
                    let removed_size = removed.text.as_str().len();
                    self.log_bytes = self.log_bytes - removed_size;
                    proof {
                        d = d + 1;
                    }
                    assert(self.log_seq() =~= all.skip(d));
                },
                None => {
                    assert(false);
                },
            }
        }
        proof {
            assert(trimmed_at(all, self.log_seq(), d));
            assert forall|i: int| 0 <= i < self.log_seq().len() implies (
            #[trigger] self.log_seq()[i]).sequence < self.next_sequence by {
                assert(self.log_seq()[i] == all[i + d]);
                if i + d < old_logs.len() {
                    assert(all[i + d] == old_logs[i + d]);
                }
            }
            assert forall|i: int, j: int| 0 <= i < j < self.log_seq().len() implies (
            #[trigger] self.log_seq()[i]).sequence < (#[trigger] self.log_seq()[j]).sequence by {
                assert(self.log_seq()[i] == all[i + d]);
                assert(self.log_seq()[j] == all[j + d]);
                assert(all[i + d] == old_logs[i + d]);
                if j + d < old_logs.len() {
                    assert(all[j + d] == old_logs[j + d]);
                }
            }
        }
        entry
    }

    /// Appends a line to the log, stamped with the time now.
    pub fn push_log(&mut self, command_id: &String, stream: LogStream, text: String) -> (entry: LogEntry)
        requires
            old(self).wf(),
            old(self)@.next_sequence < u64::MAX,
        ensures
            final(self).wf(),
            entry@.sequence == old(self)@.next_sequence,
            entry@.command_id == command_id@,
            entry@.stream == stream,
            entry@.text == kept_line(text@),
            final(self)@.next_sequence == old(self)@.next_sequence + 1,
            trimmed_to_limit(old(self)@.logs.push(entry@), final(self)@.logs),
            final(self)@.entries == old(self)@.entries,
            final(self)@.active == old(self)@.active,
    {
        let timestamp = now();
        self.push_log_at(command_id, stream, text, timestamp)
    }
}

/// The status a command gets when it starts: starting, with no exit code,
/// at the given time.
pub open spec fn starting_entry(id: Seq<char>, started_at: u64) -> RuntimeEntryView {
    RuntimeEntryView {
        command_id: id,
        status: ProcessStatus::Starting,
        exit_code: None,
        started_at: Some(started_at),
    }
}

/// A new status for a command, keeping the time at which it was started.
pub open spec fn updated_entry(
    entries: Map<Seq<char>, RuntimeEntryView>,
    id: Seq<char>,
    status: ProcessStatus,
    exit_code: Option<i32>,
) -> RuntimeEntryView {
    RuntimeEntryView {
        command_id: id,
        status,
        exit_code,
        started_at: if entries.contains_key(id) {
            entries[id].started_at
        } else {
            None
        },
    }
}

impl RuntimeManager {
    /// Marks a command as starting unless it is already live. Returns whether
    /// it was marked, that is whether the process should be started.
    pub fn mark_starting(&mut self, command_id: &String, started_at: u64) -> (r: bool)
        requires
            old(self).wf(),
        ensures
            final(self).wf(),
            r == !(old(self)@.entries.contains_key(command_id@) && is_live(
                old(self)@.entries[command_id@].status,
            )),
            r ==> final(self)@.entries == old(self)@.entries.insert(
                command_id@,
                starting_entry(command_id@, started_at),
            ),
            !r ==> final(self)@.entries == old(self)@.entries,
            final(self)@.logs == old(self)@.logs,
            final(self)@.next_sequence == old(self)@.next_sequence,
            final(self)@.active == old(self)@.active,
    {
        match self.status_of(command_id) {
            Some(ProcessStatus::Starting) | Some(ProcessStatus::Running) | Some(ProcessStatus::Stopping) => {
                return false;
            },
            _ => {},
        }
        let entry = RuntimeEntry {
            command_id: command_id.clone(),
            status: ProcessStatus::Starting,
            exit_code: None,
            started_at: Some(started_at),
        };
        self.entries.insert(command_id.clone(), entry);
        true
    }

    /// Records a new status for a command, keeping the time it was started.
    pub fn set_status(&mut self, command_id: &String, status: ProcessStatus, exit_code: Option<i32>)
        requires
            old(self).wf(),
        ensures
            final(self).wf(),
            final(self)@.entries == old(self)@.entries.insert(
                command_id@,
                updated_entry(old(self)@.entries, command_id@, status, exit_code),
            ),
            final(self)@.logs == old(self)@.logs,
            final(self)@.next_sequence == old(self)@.next_sequence,
            final(self)@.active == old(self)@.active,
    {
        let started_at = match self.entries.get(command_id) {
            Some(e) => e.started_at,
            None => None,
        };
        let entry = RuntimeEntry { command_id: command_id.clone(), status, exit_code, started_at };
        self.entries.insert(command_id.clone(), entry);
    }

    fn active_position(&self, target: &TargetRef) -> (r: Option<usize>)
        ensures
            match r {
                Some(i) => i < self.active_keys().len() && self.active_keys()[i as int] == target@,
                None => !self.active_keys().contains(target@),
            },
    {
        let n = self.active_targets.len();
        let mut i: usize = 0;
        while i < n
            invariant
                n == self.active_targets@.len(),
                i <= n,
                forall|j: int| 0 <= j < i ==> self.active_keys()[j] != target@,
            decreases n - i,
        {
            let t = &self.active_targets[i].0;
            if t.kind == target.kind && t.id == target.id {
                assert(self.active_keys()[i as int] == target@);
                return Some(i);
            }
            i = i + 1;
        }
        None
    }

    proof fn lemma_active_lookup(&self, i: int)
        requires
            self.active_keys().no_duplicates(),
            0 <= i < self.active_targets@.len(),
        ensures
            self@.active.contains_key(self.active_keys()[i]),
            self@.active[self.active_keys()[i]] == self.active_targets@[i].1.deep_view(),
    {
        let ks = self.active_keys();
        assert(ks.contains(ks[i]));
        let j = ks.index_of(ks[i]);
        assert(ks[j] == ks[i]);
    }

    /// Records that `target` was started and needs `commands`.
    pub fn activate(&mut self, target: TargetRef, commands: Vec<String>)
        requires
            old(self).wf(),
        ensures
            final(self).wf(),
            final(self)@.active == old(self)@.active.insert(target@, commands.deep_view()),
            final(self)@.entries == old(self)@.entries,
            final(self)@.logs == old(self)@.logs,
            final(self)@.next_sequence == old(self)@.next_sequence,
    {
        let ghost old_self = *self;
        let ghost tv = target@;
        let ghost cv = commands.deep_view();
        let ghost old_keys = self.active_keys();
        let ghost old_entries = self.active_targets@;
        match self.active_position(&target) {
            Some(i) => {
                self.active_targets.set(i, (target, commands));
                assert(self.active_keys() =~= old_keys);
                assert forall|t: TargetView| #[trigger] self@.active.contains_key(t) implies self@.active[t]
                    == old_self@.active.insert(tv, cv)[t] by {
                    let j = choose|j: int| 0 <= j < old_keys.len() && old_keys[j] == t;
                    self.lemma_active_lookup(j);
                    if j != i {
                        old_self.lemma_active_lookup(j);
                        assert(old_keys[i as int] == tv);
                    }
                }
                assert(self@.active =~= old_self@.active.insert(tv, cv));
            },
            None => {
                self.active_targets.push((target, commands));
                assert(self.active_keys() =~= old_keys.push(tv));
                assert forall|t: TargetView| #[trigger] self@.active.contains_key(t) implies self@.active[t]
                    == old_self@.active.insert(tv, cv)[t] by {
                    let j = choose|j: int| 0 <= j < self.active_keys().len() && self.active_keys()[j] == t;
                    self.lemma_active_lookup(j);
                    if j < old_keys.len() {
                        old_self.lemma_active_lookup(j);
                    }
                }
                assert forall|t: TargetView| #[trigger] old_self@.active.insert(tv, cv).contains_key(t)
                    implies self@.active.contains_key(t) by {
                    if t != tv {
                        let j = choose|j: int| 0 <= j < old_keys.len() && old_keys[j] == t;
                        assert(self.active_keys()[j] == t);
                    } else {
                        assert(self.active_keys()[old_keys.len() as int] == t);
                    }
                }
                assert(self@.active =~= old_self@.active.insert(tv, cv));
            },
        }
        assert(self.log_seq() == old_self.log_seq());
    }

    fn deactivate_target(&mut self, target: &TargetRef)
        requires
            old(self).wf(),
        ensures
            final(self).wf(),
            final(self)@.active == old(self)@.active.remove(target@),
            final(self)@.entries == old(self)@.entries,
            final(self)@.logs == old(self)@.logs,
            final(self)@.next_sequence == old(self)@.next_sequence,
    {
        let ghost old_self = *self;
        let ghost tv = target@;
        let ghost old_keys = self.active_keys();
        match self.active_position(target) {
            Some(i) => {
                self.active_targets.remove(i);
                assert(self.active_keys() =~= old_keys.remove(i as int));
                assert forall|t: TargetView| #[trigger] self@.active.contains_key(t) implies self@.active[t]
                    == old_self@.active.remove(tv)[t] by {
                    let j = choose|j: int| 0 <= j < self.active_keys().len() && self.active_keys()[j] == t;
                    self.lemma_active_lookup(j);
                    if j < i {
                        old_self.lemma_active_lookup(j);
                    } else {
                        old_self.lemma_active_lookup(j + 1);
                    }
                    assert(old_keys[i as int] == tv);
                }
                assert forall|t: TargetView| #[trigger] old_self@.active.remove(tv).contains_key(t)
                    implies self@.active.contains_key(t) by {
                    let j = choose|j: int| 0 <= j < old_keys.len() && old_keys[j] == t;
                    if j < i {
                        assert(self.active_keys()[j] == t);
                    } else {
                        assert(j != i);
                        assert(self.active_keys()[j - 1] == t);
                    }
                }
                assert(self@.active =~= old_self@.active.remove(tv));
            },
            None => {
                assert(self@.active =~= old_self@.active.remove(tv));
            },
        }
        assert(self.log_seq() == old_self.log_seq());
    }

    fn needed_elsewhere(&self, id: &String) -> (r: bool)
        requires
            self.wf(),
        ensures
            r == still_needed(self@.active, id@),
    {
        let n = self.active_targets.len();
        let mut i: usize = 0;
        while i < n
            invariant
                n == self.active_targets@.len(),
                self.active_keys().no_duplicates(),
                i <= n,
                forall|j: int| 0 <= j < i ==> !(#[trigger] self.active_targets@[j]).1.deep_view().contains(id@),
            decreases n - i,
        {
            if contains_text(&self.active_targets[i].1, id) {
                proof {
                    self.lemma_active_lookup(i as int);
                }
                return true;
            }
            i = i + 1;
        }
        assert forall|t: TargetView| #[trigger] self@.active.contains_key(t) implies !self@.active[t].contains(id@) by {
            let j = choose|j: int| 0 <= j < self.active_keys().len() && self.active_keys()[j] == t;
            self.lemma_active_lookup(j);
        }
        false
    }

    /// Records that `target` was stopped, and returns those of `commands`
    /// that should stop with it: all of them for a single command, otherwise
    /// those that no target still active needs.
    pub fn deactivate(&mut self, target: &TargetRef, commands: Vec<String>) -> (r: Vec<String>)
        requires
            old(self).wf(),
        ensures
            final(self).wf(),
            final(self)@.active == old(self)@.active.remove(target@),
            final(self)@.entries == old(self)@.entries,
            final(self)@.logs == old(self)@.logs,
            final(self)@.next_sequence == old(self)@.next_sequence,
            target.kind == TargetKind::Command ==> r.deep_view() == commands.deep_view(),
            forall|id: Seq<char>|
                #[trigger] r.deep_view().contains(id) <==> commands.deep_view().contains(id) && (
                target.kind == TargetKind::Command || !still_needed(final(self)@.active, id)),
            commands.deep_view().no_duplicates() ==> r.deep_view().no_duplicates(),
    {
        self.deactivate_target(target);
        if target.kind == TargetKind::Command {
            return commands;
        }
        let n = commands.len();
        let ghost cs = commands.deep_view();
        let mut r: Vec<String> = Vec::new();
        let ghost mut picked: Seq<int> = Seq::empty();
        let mut i: usize = 0;
        while i < n
            invariant
                n == commands@.len(),
                cs == commands.deep_view(),
                self.wf(),
                i <= n,
                picked.len() == r@.len(),
                forall|j: int| 0 <= j < picked.len() ==> 0 <= #[trigger] picked[j] < i,
                forall|a: int, b: int| 0 <= a < b < picked.len() ==> #[trigger] picked[a] < #[trigger] picked[b],
                forall|j: int| 0 <= j < picked.len() ==> #[trigger] r.deep_view()[j] == cs[picked[j]]
                    && !still_needed(self@.active, cs[picked[j]]),
                forall|k: int| 0 <= k < i && !still_needed(self@.active, #[trigger] cs[k]) ==> r.deep_view().contains(cs[k]),
            decreases n - i,
        {
            let id = &commands[i];
            assert(cs[i as int] == id@);
            if !self.needed_elsewhere(id) {
                let ghost before = r.deep_view();
                let ghost picked0 = picked;
                r.push(id.clone());
                assert(r.deep_view() =~= before.push(cs[i as int]));
                proof {
                    picked = picked.push(i as int);
                    assert forall|j: int| 0 <= j < picked.len() implies #[trigger] r.deep_view()[j] == cs[picked[j]]
                        && !still_needed(self@.active, cs[picked[j]]) by {
                        if j < picked0.len() {
                            assert(picked[j] == picked0[j]);
                            assert(r.deep_view()[j] == before[j]);
                        }
                    }
                    assert forall|k: int| 0 <= k < i + 1 && !still_needed(self@.active, #[trigger] cs[k]) implies r.deep_view().contains(cs[k]) by {
                        if k < i {
                            let a = choose|a: int| 0 <= a < before.len() && before[a] == cs[k];
                            assert(r.deep_view()[a] == cs[k]);
                        } else {
                            assert(r.deep_view()[before.len() as int] == cs[k]);
                        }
                    }
                }
            }
            i = i + 1;
        }
        proof {
            if cs.no_duplicates() {
                assert forall|a: int, b: int| 0 <= a < r@.len() && 0 <= b < r@.len() && a != b implies r.deep_view()[a] != r.deep_view()[b] by {
                    if a < b {
                        assert(picked[a] < picked[b]);
                    } else {
                        assert(picked[b] < picked[a]);
                    }
                }
            }
        }
        assert forall|id: Seq<char>| #[trigger] r.deep_view().contains(id) <==> commands.deep_view().contains(id) && !still_needed(self@.active, id) by {
            if r.deep_view().contains(id) {
                let j = choose|j: int| 0 <= j < r@.len() && r.deep_view()[j] == id;
                assert(cs[picked[j]] == id);
            }
            if commands.deep_view().contains(id) && !still_needed(self@.active, id) {
                let k = choose|k: int| 0 <= k < n && commands.deep_view()[k] == id;
            }
        }
        r
    }
}

/// Trimming after each line gives what trimming once after all of them gives.
pub proof fn lemma_trim_push(all: Seq<LogEntryView>, kept: Seq<LogEntryView>, e: LogEntryView, next: Seq<LogEntryView>)
    requires
        trimmed_to_limit(all, kept),
        trimmed_to_limit(kept.push(e), next),
    ensures
        trimmed_to_limit(all.push(e), next),
{
    let d = choose|d: int| #[trigger] trimmed_at(all, kept, d);
    let d2 = choose|d2: int| #[trigger] trimmed_at(kept.push(e), next, d2);
    let full = all.push(e);
    assert(kept.push(e) =~= full.skip(d));
    assert(next =~= full.skip(d + d2));
    if d + d2 > 0 {
        if d2 > 0 {
            assert(kept.push(e).skip(d2 - 1) =~= full.skip(d + d2 - 1));
        } else {
            assert(full.skip(d - 1) =~= all.skip(d - 1).push(e));
            lemma_logs_size_push(all.skip(d - 1), e);
        }
    }
    assert(trimmed_at(full, next, d + d2));
}

/// However the log was filled, its lines take at most the log limit in
/// bytes, are numbered in increasing order, and were all numbered before the
/// next free number.
pub proof fn lemma_log_within_limit(rt: &RuntimeManager)
    requires
        rt.wf(),
    ensures
        logs_size(rt@.logs) <= LOG_LIMIT_BYTES,
        forall|i: int, j: int|
            0 <= i < j < rt@.logs.len() ==> (#[trigger] rt@.logs[i]).sequence < (#[trigger] rt@.logs[j]).sequence,
        forall|i: int| 0 <= i < rt@.logs.len() ==> (#[trigger] rt@.logs[i]).sequence < rt@.next_sequence,
{
}

/// Trimming never drops the newest line when that line fits in the log by
/// itself; a kept line always does.
pub proof fn lemma_newest_line_kept(all: Seq<LogEntryView>, kept: Seq<LogEntryView>)
    requires
        trimmed_to_limit(all, kept),
        all.len() > 0,
        text_size(all.last().text) <= LOG_LIMIT_BYTES,
    ensures
        kept.len() > 0,
        kept.last() == all.last(),
{
    let d = choose|d: int| #[trigger] trimmed_at(all, kept, d);
    if d == all.len() {
        let one = all.skip(d - 1);
        assert(one.len() == 1);
        assert(one.drop_first() =~= Seq::<LogEntryView>::empty());
        assert(logs_size(one.drop_first()) == 0);
        assert(one[0] == all.last());
    }
}

/// Lines logged one by one onto an empty log, which is trimmed after each,
/// leave what trimming all of them once leaves: the most recent lines, in
/// the order in which they were logged.
pub proof fn lemma_log_history(lines: Seq<LogEntryView>, logs: Seq<Seq<LogEntryView>>)
    requires
        logs.len() == lines.len() + 1,
        logs[0] == Seq::<LogEntryView>::empty(),
        forall|i: int| 0 <= i < lines.len() ==> trimmed_to_limit(#[trigger] logs[i].push(lines[i]), logs[i + 1]),
    ensures
        forall|k: int| 0 <= k <= lines.len() ==> trimmed_to_limit(lines.take(k), #[trigger] logs[k]),
{
    assert forall|k: int| 0 <= k <= lines.len() implies trimmed_to_limit(lines.take(k), #[trigger] logs[k]) by {
        lemma_log_history_upto(lines, logs, k);
    }
}

proof fn lemma_log_history_upto(lines: Seq<LogEntryView>, logs: Seq<Seq<LogEntryView>>, k: int)
    requires
        logs.len() == lines.len() + 1,
        logs[0] == Seq::<LogEntryView>::empty(),
        forall|i: int| 0 <= i < lines.len() ==> trimmed_to_limit(#[trigger] logs[i].push(lines[i]), logs[i + 1]),
        0 <= k <= lines.len(),
    ensures
        trimmed_to_limit(lines.take(k), logs[k]),
    decreases k,
{
    if k == 0 {
        assert(lines.take(0).skip(0) =~= logs[0]);
        assert(logs_size(logs[0]) == 0);
        assert(trimmed_at(lines.take(0), logs[0], 0));
    } else {
        lemma_log_history_upto(lines, logs, k - 1);
        assert(trimmed_to_limit(logs[k - 1].push(lines[k - 1]), logs[k]));
        lemma_trim_push(lines.take(k - 1), logs[k - 1], lines[k - 1], logs[k]);
        assert(lines.take(k - 1).push(lines[k - 1]) =~= lines.take(k));
    }
}

/// A command that two targets both started stays needed while either of
/// them is active: stopping the first target leaves it needed, and stopping
/// the second too leaves it needed only if a third target needs it.
pub proof fn lemma_shared_ownership(
    active: Map<TargetView, Seq<Seq<char>>>,
    first: TargetView,
    second: TargetView,
    commands: Seq<Seq<char>>,
    id: Seq<char>,
)
    requires
        first != second,
        commands.contains(id),
    ensures
        still_needed(active.insert(first, commands).insert(second, commands).remove(first), id),
        still_needed(active.insert(first, commands).insert(second, commands).remove(first).remove(second), id)
            <==> still_needed(active.remove(first).remove(second), id),
{
    let both = active.insert(first, commands).insert(second, commands);
    assert(both.remove(first).contains_key(second) && both.remove(first)[second].contains(id));
    assert(both.remove(first).remove(second) =~= active.remove(first).remove(second));
}

/// The lines logged for `texts`, numbered from `first`.
pub open spec fn logged_lines(
    es: Seq<LogEntryView>,
    command_id: Seq<char>,
    stream: LogStream,
    texts: Seq<Seq<char>>,
    first: u64,
) -> bool {
    &&& es.len() == texts.len()
    &&& forall|i: int|
        0 <= i < es.len() ==> {
            &&& (#[trigger] es[i]).sequence == first + i
            &&& es[i].command_id == command_id
            &&& es[i].stream == stream
            &&& es[i].text == kept_line(texts[i])
        }
}

/// The values of a list of log lines.
pub open spec fn entries_view(es: Seq<LogEntry>) -> Seq<LogEntryView> {
    es.map_values(|e: LogEntry| e@)
}

impl RuntimeManager {
    /// Logs each text as a line of `stream`, in order.
    pub fn push_lines(&mut self, command_id: &String, stream: LogStream, texts: &Vec<String>) -> (r: Vec<LogEntry>)
        requires
            old(self).wf(),
            old(self)@.next_sequence + texts@.len() < u64::MAX,
        ensures
            final(self).wf(),
            logged_lines(entries_view(r@), command_id@, stream, texts.deep_view(), old(self)@.next_sequence),
            final(self)@.next_sequence == old(self)@.next_sequence + texts@.len(),
            trimmed_to_limit(old(self)@.logs + entries_view(r@), final(self)@.logs),
            final(self)@.entries == old(self)@.entries,
            final(self)@.active == old(self)@.active,
    {
        let ghost logs0 = self@.logs;
        assert(logs0.skip(0) =~= logs0);
        assert(trimmed_at(logs0, logs0, 0));
        self.push_lines_onto(command_id, stream, texts, Ghost(logs0))
    }

    /// Logs each text as a line of `stream`, in order; the log so far is
    /// `base` trimmed to the limit.
    fn push_lines_onto(&mut self, command_id: &String, stream: LogStream, texts: &Vec<String>, Ghost(base): Ghost<Seq<LogEntryView>>) -> (r: Vec<LogEntry>)
        requires
            old(self).wf(),
            old(self)@.next_sequence + texts@.len() < u64::MAX,
            trimmed_to_limit(base, old(self)@.logs),
        ensures
            final(self).wf(),
            logged_lines(entries_view(r@), command_id@, stream, texts.deep_view(), old(self)@.next_sequence),
            final(self)@.next_sequence == old(self)@.next_sequence + texts@.len(),
            trimmed_to_limit(base + entries_view(r@), final(self)@.logs),
            final(self)@.entries == old(self)@.entries,
            final(self)@.active == old(self)@.active,
    {
        let ghost first = self@.next_sequence;
        let ghost logs0 = base;
        let n = texts.len();
        let mut r: Vec<LogEntry> = Vec::new();
        let mut i: usize = 0;
        assert(logs0 + entries_view(r@) =~= logs0);
        while i < n
            invariant
                n == texts@.len(),
                i <= n,
                self.wf(),
                self@.next_sequence == first + i,
                first + n < u64::MAX,
                logged_lines(entries_view(r@), command_id@, stream, texts.deep_view().take(i as int), first),
                trimmed_to_limit(logs0 + entries_view(r@), self@.logs),
                self@.entries == old(self)@.entries,
                self@.active == old(self)@.active,
            decreases n - i,
        {
            let ghost kept = self@.logs;
            let ghost before = entries_view(r@);
            let e = self.push_log(command_id, stream, texts[i].clone());
            proof {
                lemma_trim_push(logs0 + before, kept, e@, self@.logs);
            }
            r.push(e);
            assert(entries_view(r@) =~= before.push(r@[i as int]@));
            assert(logs0 + entries_view(r@) =~= (logs0 + before).push(r@[i as int]@));
            assert(texts.deep_view().take(i + 1) =~= texts.deep_view().take(i as int).push(texts.deep_view()[i as int]));
            i = i + 1;
        }
        assert(texts.deep_view().take(n as int) =~= texts.deep_view());
        r
    }
}

/// What the system reported when a process ended.
#[derive(Debug)]
pub struct ExitReport {
    pub success: bool,
    pub code: Option<i32>,
}

/// The status a command gets when its process ends.
pub open spec fn exit_status(was_stopped: bool, result: Result<ExitReport, String>) -> ProcessStatus {
    match result {
        Ok(report) => if was_stopped {
            ProcessStatus::Stopped
        } else if report.success {
            ProcessStatus::Completed
        } else {
            ProcessStatus::Failed
        },
        Err(_) => ProcessStatus::Failed,
    }
}

/// The exit code recorded when a process ends.
pub open spec fn exit_code_of(result: Result<ExitReport, String>) -> Option<i32> {
    match result {
        Ok(report) => report.code,
        Err(_) => None,
    }
}

/// The log line written when a process ends.
pub open spec fn exit_message(was_stopped: bool, result: Result<ExitReport, String>) -> Seq<char> {
    match result {
        Ok(report) => if was_stopped {
            "Stopped"@
        } else if report.success {
            "Completed"@
        } else {
            "Exited with code "@ + match report.code {
                Some(c) => crate::text::signed_decimal(c as int),
                None => "unknown"@,
            }
        },
        Err(e) => "Process error: "@ + e@,
    }
}

/// The log line written when a process was launched, or could not be.
pub open spec fn launch_message(base_dir: Seq<char>, launched: Result<(), String>) -> Seq<char> {
    match launched {
        Ok(()) => "Started in "@ + base_dir,
        Err(e) => "Could not start: "@ + e@,
    }
}

impl RuntimeManager {
    /// Records that the process of a command was launched, running, or could
    /// not be, failed; and logs which.
    pub fn record_launch(&mut self, command_id: &String, base_dir: &String, launched: Result<(), String>) -> (entry: LogEntry)
        requires
            old(self).wf(),
            old(self)@.next_sequence < u64::MAX,
        ensures
            final(self).wf(),
            final(self)@.entries == old(self)@.entries.insert(
                command_id@,
                updated_entry(
                    old(self)@.entries,
                    command_id@,
                    if launched is Ok { ProcessStatus::Running } else { ProcessStatus::Failed },
                    None,
                ),
            ),
            entry@.sequence == old(self)@.next_sequence,
            entry@.command_id == command_id@,
            entry@.stream == LogStream::System,
            entry@.text == kept_line(launch_message(base_dir@, launched)),
            final(self)@.next_sequence == old(self)@.next_sequence + 1,
            trimmed_to_limit(old(self)@.logs.push(entry@), final(self)@.logs),
            final(self)@.active == old(self)@.active,
    {
        match launched {
            Ok(()) => {
                self.set_status(command_id, ProcessStatus::Running, None);
                let mut text = String::from_str("Started in ");
                text.append(base_dir.as_str());
                self.push_log(command_id, LogStream::System, text)
            },
            Err(e) => {
                self.set_status(command_id, ProcessStatus::Failed, None);
                let mut text = String::from_str("Could not start: ");
                text.append(e.as_str());
                self.push_log(command_id, LogStream::System, text)
            },
        }
    }

    /// Records how the process of a command ended, and logs it.
    pub fn record_exit(&mut self, command_id: &String, was_stopped: bool, result: Result<ExitReport, String>) -> (entry: LogEntry)
        requires
            old(self).wf(),
            old(self)@.next_sequence < u64::MAX,
        ensures
            final(self).wf(),
            final(self)@.entries == old(self)@.entries.insert(
                command_id@,
                updated_entry(
                    old(self)@.entries,
                    command_id@,
                    exit_status(was_stopped, result),
                    exit_code_of(result),
                ),
            ),
            entry@.sequence == old(self)@.next_sequence,
            entry@.command_id == command_id@,
            entry@.stream == LogStream::System,
            entry@.text == kept_line(exit_message(was_stopped, result)),
            final(self)@.next_sequence == old(self)@.next_sequence + 1,
            trimmed_to_limit(old(self)@.logs.push(entry@), final(self)@.logs),
            final(self)@.active == old(self)@.active,
    {
        let ghost exit_view = result;
        let (status, code, text) = match result {
            Ok(report) => {
                if was_stopped {
                    (ProcessStatus::Stopped, report.code, String::from_str("Stopped"))
                } else if report.success {
                    (ProcessStatus::Completed, report.code, String::from_str("Completed"))
                } else {
                    let mut text = String::from_str("Exited with code ");
                    match report.code {
                        Some(c) => crate::text::push_signed_decimal(&mut text, c),
                        None => text.append("unknown"),
                    }
                    (ProcessStatus::Failed, report.code, text)
                }
            },
            Err(e) => {
                let mut text = String::from_str("Process error: ");
                text.append(e.as_str());
                (ProcessStatus::Failed, None, text)
            },
        };
        assert(text@ == exit_message(was_stopped, exit_view));
        self.set_status(command_id, status, code);
        self.push_log(command_id, LogStream::System, text)
    }
}

/// The name of what `String::from_utf8_lossy` makes of a byte string.
pub uninterp spec fn utf8_lossy(bytes: Seq<u8>) -> Seq<char>;

/// `String::from_utf8_lossy`: decodes UTF-8, putting the replacement
/// character in place of each invalid sequence. Claimed: valid UTF-8 decodes
/// as such, and no byte yields more than one character.
#[verifier::external_body]
fn decode_lossy(bytes: &[u8]) -> (r: String)
    ensures
        r@ == utf8_lossy(bytes@),
        vstd::utf8::valid_utf8(bytes@) ==> r@ == vstd::utf8::decode_utf8(bytes@),
        r@.len() <= bytes@.len(),
{
    String::from_utf8_lossy(bytes).into_owned()
}

/// The stop command of a command, unless it is missing or blank.
pub open spec fn cleanup_command(cmd: CommandView) -> Option<Seq<char>> {
    match cmd.stop_command {
        Some(s) => if is_blank(s) {
            None
        } else {
            Some(s)
        },
        None => None,
    }
}

/// What stopping a command takes: running its cleanup command, signalling
/// its process, and the log line that announced the cleanup.
#[derive(Debug)]
pub struct StopPlan {
    pub cleanup: Option<String>,
    pub signal_process: bool,
    pub logged: Option<LogEntry>,
}

/// How running a cleanup command went.
#[derive(Debug)]
pub enum CleanupOutcome {
    Finished { stdout: Vec<u8>, stderr: Vec<u8>, success: bool },
    CouldNotStart,
    TimedOut,
}

/// The lines logged about a cleanup command, with their streams.
pub open spec fn cleanup_lines(outcome: CleanupOutcome) -> Seq<(LogStream, Seq<char>)> {
    match outcome {
        CleanupOutcome::Finished { stdout, stderr, success } => {
            nonempty_lines(utf8_lossy(stdout@)).map_values(|t: Seq<char>| (LogStream::Stdout, t))
                + nonempty_lines(utf8_lossy(stderr@)).map_values(|t: Seq<char>| (LogStream::Stderr, t))
                + if success {
                Seq::<(LogStream, Seq<char>)>::empty()
            } else {
                seq![(LogStream::System, "Configured stop command failed"@)]
            }
        },
        CleanupOutcome::CouldNotStart => seq![(LogStream::System, "Could not start the configured stop command"@)],
        CleanupOutcome::TimedOut => seq![(LogStream::System, "Configured stop command timed out"@)],
    }
}

/// The log lines `es` carry the streams and texts of `lines`, numbered from `first`.
pub open spec fn logged_streams(es: Seq<LogEntryView>, command_id: Seq<char>, lines: Seq<(LogStream, Seq<char>)>, first: u64) -> bool {
    &&& es.len() == lines.len()
    &&& forall|i: int|
        0 <= i < es.len() ==> {
            &&& (#[trigger] es[i]).sequence == first + i
            &&& es[i].command_id == command_id
            &&& es[i].stream == lines[i].0
            &&& es[i].text == kept_line(lines[i].1)
        }
}

/// The size of what a cleanup outcome can log.
pub open spec fn cleanup_bytes(outcome: CleanupOutcome) -> nat {
    match outcome {
        CleanupOutcome::Finished { stdout, stderr, .. } => stdout@.len() + stderr@.len(),
        _ => 0,
    }
}

impl RuntimeManager {
    /// Starts stopping a command: marks a running process as stopping and
    /// announces a cleanup command in the log. `None` when there is neither
    /// a process nor a cleanup command, and nothing changes.
    pub fn begin_stop(&mut self, command: &HandyCommand, has_process: bool) -> (r: Option<StopPlan>)
        requires
            old(self).wf(),
            old(self)@.next_sequence < u64::MAX,
        ensures
            final(self).wf(),
            r is None <==> !has_process && cleanup_command(command@) is None,
            final(self)@.active == old(self)@.active,
            r is None ==> final(self)@ == old(self)@,
            r matches Some(plan) ==> {
                &&& plan.cleanup.deep_view() == cleanup_command(command@)
                &&& plan.signal_process == has_process
                &&& final(self)@.entries == if has_process {
                    old(self)@.entries.insert(
                        command@.id,
                        updated_entry(old(self)@.entries, command@.id, ProcessStatus::Stopping, None),
                    )
                } else {
                    old(self)@.entries
                }
                &&& plan.cleanup is None ==> plan.logged is None && final(self)@.logs == old(self)@.logs
                    && final(self)@.next_sequence == old(self)@.next_sequence
                &&& plan.cleanup matches Some(s) ==> plan.logged matches Some(e) && {
                    &&& e@.sequence == old(self)@.next_sequence
                    &&& e@.command_id == command@.id
                    &&& e@.stream == LogStream::System
                    &&& e@.text == kept_line("Running stop command: "@ + s@)
                    &&& final(self)@.next_sequence == old(self)@.next_sequence + 1
                    &&& trimmed_to_limit(old(self)@.logs.push(e@), final(self)@.logs)
                }
            },
    {
        let cleanup = match &command.stop_command {
            Some(s) => if is_blank_str(s.as_str()) {
                None
            } else {
                Some(s.clone())
            },
            None => None,
        };
        if !has_process && cleanup.is_none() {
            return None;
        }
        if has_process {
            self.set_status(&command.id, ProcessStatus::Stopping, None);
        }
        let logged = match &cleanup {
            Some(s) => {
                let mut text = String::from_str("Running stop command: ");
                text.append(s.as_str());
                Some(self.push_log(&command.id, LogStream::System, text))
            },
            None => None,
        };
        Some(StopPlan { cleanup, signal_process: has_process, logged })
    }

    /// Logs how a cleanup command went: its output, line by line, then a
    /// line when it failed, could not start or timed out.
    pub fn record_cleanup(&mut self, command_id: &String, outcome: CleanupOutcome) -> (r: Vec<LogEntry>)
        requires
            old(self).wf(),
            old(self)@.next_sequence + cleanup_bytes(outcome) + 1 < u64::MAX,
        ensures
            final(self).wf(),
            logged_streams(entries_view(r@), command_id@, cleanup_lines(outcome), old(self)@.next_sequence),
            final(self)@.next_sequence == old(self)@.next_sequence + r@.len(),
            trimmed_to_limit(old(self)@.logs + entries_view(r@), final(self)@.logs),
            final(self)@.entries == old(self)@.entries,
            final(self)@.active == old(self)@.active,
    {
        let ghost lines = cleanup_lines(outcome);
        let ghost first = self@.next_sequence;
        let ghost logs0 = self@.logs;
        assert(logs0.skip(0) =~= logs0);
        assert(trimmed_at(logs0, logs0, 0));
        match outcome {
            CleanupOutcome::Finished { stdout, stderr, success } => {
                let out_text = decode_lossy(stdout.as_slice());
                let out_lines = lines_of(out_text.as_str());
                proof {
                    lemma_lines_count(out_text@);
                }
                let mut r = self.push_lines_onto(command_id, LogStream::Stdout, &out_lines, Ghost(logs0));
                let ghost e1 = entries_view(r@);
                let err_text = decode_lossy(stderr.as_slice());
                let err_lines = lines_of(err_text.as_str());
                proof {
                    lemma_lines_count(err_text@);
                }
                let mut more = self.push_lines_onto(command_id, LogStream::Stderr, &err_lines, Ghost(logs0 + e1));
                let ghost e2 = entries_view(more@);
                let ghost mut tail: Seq<LogEntryView> = Seq::empty();
                if !success {
                    let ghost kept = self@.logs;
                    let e = self.push_log(command_id, LogStream::System, String::from_str("Configured stop command failed"));
                    proof {
                        lemma_trim_push(logs0 + e1 + e2, kept, e@, self@.logs);
                        tail = seq![e@];
                    }
                    more.push(e);
                }
                r.append(&mut more);
                proof {
                    let es = entries_view(r@);
                    assert(es =~= e1 + e2 + tail);
                    assert(logs0 + es =~= logs0 + e1 + e2 + tail);
                    if success {
                        assert(logs0 + e1 + e2 + tail =~= logs0 + e1 + e2);
                    } else {
                        assert(logs0 + e1 + e2 + tail =~= (logs0 + e1 + e2).push(tail[0]));
                    }
                    let o = nonempty_lines(utf8_lossy(stdout@)).map_values(|t: Seq<char>| (LogStream::Stdout, t));
                    let q = nonempty_lines(utf8_lossy(stderr@)).map_values(|t: Seq<char>| (LogStream::Stderr, t));
                    assert forall|i: int| 0 <= i < es.len() implies {
                        &&& (#[trigger] es[i]).sequence == first + i
                        &&& es[i].command_id == command_id@
                        &&& es[i].stream == lines[i].0
                        &&& es[i].text == kept_line(lines[i].1)
                    } by {
                        if i < e1.len() {
                            assert(es[i] == e1[i]);
                            assert(lines[i] == o[i]);
                        } else if i < e1.len() + e2.len() {
                            assert(es[i] == e2[i - e1.len()]);
                            assert(lines[i] == q[i - e1.len()]);
                        } else {
                            assert(es[i] == tail[i - e1.len() - e2.len()]);
                        }
                    }
                }
                r
            },
            CleanupOutcome::CouldNotStart => {
                let e = self.push_log(command_id, LogStream::System, String::from_str("Could not start the configured stop command"));
                let r = vec![e];
                assert(entries_view(r@) =~= seq![r@[0]@]);
                assert(logs0 + entries_view(r@) =~= logs0.push(r@[0]@));
                r
            },
            CleanupOutcome::TimedOut => {
                let e = self.push_log(command_id, LogStream::System, String::from_str("Configured stop command timed out"));
                let r = vec![e];
                assert(entries_view(r@) =~= seq![r@[0]@]);
                assert(logs0 + entries_view(r@) =~= logs0.push(r@[0]@));
                r
            },
        }
    }

    /// Logs that reading the output of a command failed.
    pub fn record_read_error(&mut self, command_id: &String, error: String) -> (entry: LogEntry)
        requires
            old(self).wf(),
            old(self)@.next_sequence < u64::MAX,
        ensures
            final(self).wf(),
            entry@.sequence == old(self)@.next_sequence,
            entry@.command_id == command_id@,
            entry@.stream == LogStream::System,
            entry@.text == kept_line("Log read error: "@ + error@),
            final(self)@.next_sequence == old(self)@.next_sequence + 1,
            trimmed_to_limit(old(self)@.logs.push(entry@), final(self)@.logs),
            final(self)@.entries == old(self)@.entries,
            final(self)@.active == old(self)@.active,
    {
        let mut text = String::from_str("Log read error: ");
        text.append(error.as_str());
        self.push_log(command_id, LogStream::System, text)
    }

    /// Forgets every active target, as when the application quits.
    pub fn clear_active(&mut self)
        requires
            old(self).wf(),
        ensures
            final(self).wf(),
            final(self)@.active == Map::<TargetView, Seq<Seq<char>>>::empty(),
            final(self)@.entries == old(self)@.entries,
            final(self)@.logs == old(self)@.logs,
            final(self)@.next_sequence == old(self)@.next_sequence,
    {
        self.active_targets.clear();
        assert(self.active_keys() =~= Seq::<TargetView>::empty());
        assert(self@.active =~= Map::<TargetView, Seq<Seq<char>>>::empty());
    }

    /// Records that the cleanup of a command without a process is done.
    pub fn finish_cleanup(&mut self, command_id: &String) -> (entry: LogEntry)
        requires
            old(self).wf(),
            old(self)@.next_sequence < u64::MAX,
        ensures
            final(self).wf(),
            final(self)@.entries == old(self)@.entries.insert(
                command_id@,
                updated_entry(old(self)@.entries, command_id@, ProcessStatus::Stopped, None),
            ),
            entry@.sequence == old(self)@.next_sequence,
            entry@.command_id == command_id@,
            entry@.stream == LogStream::System,
            entry@.text == kept_line("Configured cleanup completed"@),
            final(self)@.next_sequence == old(self)@.next_sequence + 1,
            trimmed_to_limit(old(self)@.logs.push(entry@), final(self)@.logs),
            final(self)@.active == old(self)@.active,
    {
        self.set_status(command_id, ProcessStatus::Stopped, None);
        self.push_log(command_id, LogStream::System, String::from_str("Configured cleanup completed"))
    }
}

/// The commands of a list of commands to stop.
pub open spec fn stop_commands_view(r: Seq<(HandyCommand, Project)>) -> Seq<CommandView> {
    r.map_values(|e: (HandyCommand, Project)| e.0@)
}

/// The commands of `cmds` are stored under the distinct keys `ks`, one each.
pub open spec fn stored_under(m: Map<Seq<char>, CommandView>, cmds: Seq<CommandView>, ks: Seq<Seq<char>>) -> bool {
    &&& ks.len() == cmds.len()
    &&& ks.no_duplicates()
    &&& forall|i: int| 0 <= i < cmds.len() ==> m.contains_key(#[trigger] ks[i]) && m[ks[i]] == cmds[i]
}

/// Commands taken from the entries at increasing positions of a map's
/// distinct keys are stored under distinct keys.
proof fn lemma_picked_keys(
    m: Map<Seq<char>, CommandView>,
    keys: Seq<Seq<char>>,
    picked: Seq<int>,
    cmds: Seq<CommandView>,
)
    requires
        keys.no_duplicates(),
        forall|k: Seq<char>| #[trigger] m.contains_key(k) <==> keys.contains(k),
        picked.len() == cmds.len(),
        forall|j: int| 0 <= j < picked.len() ==> 0 <= #[trigger] picked[j] < keys.len(),
        forall|a: int, b: int| 0 <= a < b < picked.len() ==> #[trigger] picked[a] < #[trigger] picked[b],
        forall|j: int| 0 <= j < picked.len() ==> m[keys[#[trigger] picked[j]]] == cmds[j],
    ensures
        stored_under(m, cmds, picked.map_values(|a: int| keys[a])),
{
    let ks = picked.map_values(|a: int| keys[a]);
    assert forall|x: int, y: int| 0 <= x < ks.len() && 0 <= y < ks.len() && x != y implies ks[x] != ks[y] by {
        if x < y {
            assert(picked[x] < picked[y]);
        } else {
            assert(picked[y] < picked[x]);
        }
    }
    assert forall|j: int| 0 <= j < cmds.len() implies m.contains_key(#[trigger] ks[j]) && m[ks[j]] == cmds[j] by {
        assert(ks[j] == keys[picked[j]]);
        assert(keys.contains(keys[picked[j]]));
    }
}

impl RuntimeManager {
    /// The commands to stop when the application quits, each with its
    /// project: every stored command that can be stopped and whose project
    /// exists.
    pub fn commands_to_stop(&self, config: &Config) -> (r: Vec<(HandyCommand, Project)>)
        ensures
            forall|i: int| 0 <= i < r@.len() ==> {
                let cmd = (#[trigger] r@[i]).0@;
                &&& exists|k: Seq<char>| #[trigger] config@.commands.contains_key(k) && config@.commands[k] == cmd
                &&& stoppable(self@, cmd)
                &&& config@.projects.contains_key(cmd.project_id)
                &&& r@[i].1@ == config@.projects[cmd.project_id]
            },
            forall|k: Seq<char>|
                #[trigger] config@.commands.contains_key(k) && stoppable(self@, config@.commands[k])
                    && config@.projects.contains_key(config@.commands[k].project_id) ==> exists|i: int|
                    0 <= i < r@.len() && (#[trigger] r@[i]).0@ == config@.commands[k],
            exists|ks: Seq<Seq<char>>| #[trigger] stored_under(config@.commands, stop_commands_view(r@), ks),
    {
        let n = config.commands.len();
        let ghost keys = config.commands.key_seq();
        let mut r: Vec<(HandyCommand, Project)> = Vec::new();
        let ghost mut picked: Seq<int> = Seq::empty();
        let mut i: usize = 0;
        while i < n
            invariant
                n == keys.len(),
                keys == config.commands.key_seq(),
                config.commands.ordered_as(config@.commands),
                i <= n,
                forall|j: int| 0 <= j < r@.len() ==> {
                    let cmd = (#[trigger] r@[j]).0@;
                    &&& exists|k: Seq<char>| #[trigger] config@.commands.contains_key(k) && config@.commands[k] == cmd
                    &&& stoppable(self@, cmd)
                    &&& config@.projects.contains_key(cmd.project_id)
                    &&& r@[j].1@ == config@.projects[cmd.project_id]
                },
                forall|a: int|
                    0 <= a < i && stoppable(self@, config@.commands[#[trigger] keys[a]])
                        && config@.projects.contains_key(config@.commands[keys[a]].project_id) ==> exists|j: int|
                        0 <= j < r@.len() && (#[trigger] r@[j]).0@ == config@.commands[keys[a]],
                picked.len() == r@.len(),
                forall|j: int| 0 <= j < picked.len() ==> 0 <= #[trigger] picked[j] < i,
                forall|a: int, b: int| 0 <= a < b < picked.len() ==> #[trigger] picked[a] < #[trigger] picked[b],
                forall|j: int| 0 <= j < picked.len() ==> config@.commands[keys[#[trigger] picked[j]]] == r@[j].0@,
            decreases n - i,
        {
            let command = config.commands.value_at(i);
            assert(config@.commands.contains_key(keys[i as int]));
            assert(config@.commands[keys[i as int]] == command@);
            if self.can_stop(command) {
                match config.projects.get(&command.project_id) {
                    Some(project) => {
                        let ghost before = r@;
                        let ghost picked0 = picked;
                        r.push((command.clone(), project.clone()));
                        proof {
                            picked = picked.push(i as int);
                            assert forall|j: int| 0 <= j < picked.len() implies config@.commands[keys[#[trigger] picked[j]]]
                                == r@[j].0@ by {
                                if j < picked0.len() {
                                    assert(picked[j] == picked0[j]);
                                    assert(r@[j] == before[j]);
                                }
                            }
                        }
                        assert forall|a: int|
                            0 <= a < i + 1 && stoppable(self@, config@.commands[#[trigger] keys[a]])
                                && config@.projects.contains_key(config@.commands[keys[a]].project_id) implies exists|j: int|
                                0 <= j < r@.len() && (#[trigger] r@[j]).0@ == config@.commands[keys[a]] by {
                            if a < i {
                                let j = choose|j: int| 0 <= j < before.len() && (#[trigger] before[j]).0@ == config@.commands[keys[a]];
                                assert(r@[j] == before[j]);
                            } else {
                                assert(r@[before.len() as int].0@ == config@.commands[keys[a]]);
                            }
                        }
                    },
                    None => {},
                }
            }
            i = i + 1;
        }
        assert forall|k: Seq<char>|
            #[trigger] config@.commands.contains_key(k) && stoppable(self@, config@.commands[k])
                && config@.projects.contains_key(config@.commands[k].project_id) implies exists|i: int|
                0 <= i < r@.len() && (#[trigger] r@[i]).0@ == config@.commands[k] by {
            let a = choose|a: int| 0 <= a < n && keys[a] == k;
            assert(stoppable(self@, config@.commands[keys[a]]));
        }
        proof {
            assert forall|j: int| 0 <= j < picked.len() implies config@.commands[keys[#[trigger] picked[j]]]
                == stop_commands_view(r@)[j] by {}
            lemma_picked_keys(config@.commands, keys, picked, stop_commands_view(r@));
        }
        r
    }
}

} // verus!

verus! {

/// How a process ended decides the status it is left in, its exit code and
/// the line logged: a process that was stopped ends stopped, whatever it
/// exited with; otherwise success completes it and anything else fails it,
/// with its exit code in the log line; and an error waiting for it fails it
/// with the error in the log line.
pub proof fn lemma_exit_outcome(report: ExitReport, was_stopped: bool, error: String)
    ensures
        exit_status(true, Ok(report)) == ProcessStatus::Stopped,
        exit_message(true, Ok(report)) == "Stopped"@,
        report.success ==> exit_status(false, Ok(report)) == ProcessStatus::Completed,
        report.success ==> exit_message(false, Ok(report)) == "Completed"@,
        !report.success ==> exit_status(false, Ok(report)) == ProcessStatus::Failed,
        !report.success ==> exit_message(false, Ok(report)).take("Exited with code "@.len() as int)
            == "Exited with code "@,
        exit_code_of(Ok(report)) == report.code,
        exit_status(was_stopped, Err(error)) == ProcessStatus::Failed,
        exit_code_of(Err(error)) == None::<i32>,
        exit_message(was_stopped, Err(error)) == "Process error: "@ + error@,
{
    if !report.success {
        let tail = match report.code {
            Some(c) => crate::text::signed_decimal(c as int),
            None => "unknown"@,
        };
        assert(("Exited with code "@ + tail).take("Exited with code "@.len() as int) =~= "Exited with code "@);
    }
}

} // verus!
