//! Supervision of one child process: its console ring buffer, the liveness
//! flag written by the output pump, and the lifecycle state machine.

use std::collections::VecDeque;
use vstd::prelude::*;
use vstd::string::StringExecFns;

verus! {

/// Number of console lines each ring buffer retains.
pub const BUFFER_SIZE: usize = 20;

/// One step of the ring discipline: prepend `line`, then evict the oldest
/// entry if the capacity `max` is exceeded.
pub open spec fn ring_insert(contents: Seq<Seq<char>>, line: Seq<char>, max: nat) -> Seq<
    Seq<char>,
> {
    let grown = seq![line] + contents;
    if grown.len() > max {
        grown.drop_last()
    } else {
        grown
    }
}

/// Contents of a ring buffer of capacity `max` after the lines of `inserts`
/// have been inserted, in order, into an empty buffer.
pub open spec fn ring_contents(inserts: Seq<Seq<char>>, max: nat) -> Seq<Seq<char>>
    decreases inserts.len(),
{
    if inserts.len() == 0 {
        Seq::empty()
    } else {
        ring_insert(ring_contents(inserts.drop_last(), max), inserts.last(), max)
    }
}

/// A ring buffer never holds more than its capacity, and always holds exactly
/// the most recent insertions, newest first.
pub proof fn lemma_ring_contents_recent(inserts: Seq<Seq<char>>, max: nat)
    ensures
        ring_contents(inserts, max).len() <= max,
        ring_contents(inserts, max) =~= inserts.reverse().take(
            if inserts.len() <= max {
                inserts.len() as int
            } else {
                max as int
            },
        ),
    decreases inserts.len(),
{
    if inserts.len() > 0 {
        lemma_ring_contents_recent(inserts.drop_last(), max);
    }
}

/// Bounded store of recent console lines, newest first; the oldest line is
/// evicted once the capacity is exceeded.
pub struct Buffer {
    buf: VecDeque<String>,
    max: usize,
}

impl View for Buffer {
    type V = Seq<Seq<char>>;

    closed spec fn view(&self) -> Seq<Seq<char>> {
        self.buf.deep_view()
    }
}

impl Buffer {
    pub closed spec fn capacity(&self) -> nat {
        self.max as nat
    }

    pub open spec fn wf(&self) -> bool {
        self@.len() <= self.capacity()
    }

    pub(crate) fn new(max: usize) -> (r: Buffer)
        ensures
            r@ =~= Seq::<Seq<char>>::empty(),
            r.capacity() == max,
            r.wf(),
    {
        Buffer { buf: VecDeque::new(), max }
    }

    pub(crate) fn get(&self) -> (r: &VecDeque<String>)
        ensures
            r.deep_view() == self@,
    {
        &self.buf
    }

    pub(crate) fn insert(&mut self, content: String)
        requires
            old(self).wf(),
        ensures
            final(self)@ == ring_insert(old(self)@, content@, old(self).capacity()),
            final(self).capacity() == old(self).capacity(),
            final(self).wf(),
    {
        let ghost pre = self.buf.deep_view();
        self.buf.push_front(content);
        assert(self.buf.deep_view() =~= seq![content@] + pre);
        if self.buf.len() > self.max {
            let ghost grown = self.buf.deep_view();
            self.buf.pop_back();
            assert(self.buf.deep_view() =~= grown.drop_last());
        }
    }
}

/// Console history of one supervised process: the ring buffer that its output
/// pump fills and that status queries snapshot.
pub struct Console {
    buf: Buffer,
}

impl View for Console {
    type V = Seq<Seq<char>>;

    closed spec fn view(&self) -> Seq<Seq<char>> {
        self.buf@
    }
}

impl Console {
    pub closed spec fn capacity(&self) -> nat {
        self.buf.capacity()
    }

    pub open spec fn wf(&self) -> bool {
        self@.len() <= self.capacity() && self.capacity() == BUFFER_SIZE
    }

    pub(crate) fn new() -> (r: Console)
        ensures
            r@ =~= Seq::<Seq<char>>::empty(),
            r.wf(),
    {
        Console { buf: Buffer::new(BUFFER_SIZE) }
    }

    pub(crate) fn insert(&mut self, content: String)
        requires
            old(self).wf(),
        ensures
            final(self)@ == ring_insert(old(self)@, content@, BUFFER_SIZE as nat),
            final(self).wf(),
    {
        self.buf.insert(content);
    }

    /// Snapshot of the buffered lines, newest first.
    pub fn inner(&self) -> (r: Vec<String>)
        ensures
            r.deep_view() == self@,
    {
        let deque = self.buf.get();
        let mut out: Vec<String> = Vec::new();
        let n = deque.len();
        let mut i: usize = 0;
        while i < n
            invariant
                n == deque@.len(),
                i <= n,
                out@.len() == i,
                forall|j: int| 0 <= j < i ==> out@[j]@ == deque@[j]@,
            decreases n - i,
        {
            let elem = deque[i].clone();
            out.push(elem);
            i = i + 1;
        }
        proof {
            assert forall|j: int| 0 <= j < n implies out.deep_view()[j] == deque.deep_view()[j] by {
                assert(out@[j]@ == deque@[j]@);
            }
            assert(out.deep_view() =~= deque.deep_view());
        }
        out
    }
}

/// Mathematical state of one process handle: whether a child is attached,
/// whether the pump still reports it live, and the console contents.
pub ghost struct ProcModel {
    pub attached: bool,
    pub alive: bool,
    pub console: Seq<Seq<char>>,
}

/// State of a handle right after a child is attached to it: live, with the
/// console history `console` carried over.
pub open spec fn proc_started(console: Seq<Seq<char>>) -> ProcModel {
    ProcModel { attached: true, alive: true, console }
}

/// The console line recording an operator-submitted command, with its
/// attribution prefix.
pub open spec fn attribution(input: Seq<char>, user: Option<Seq<char>>) -> Seq<char> {
    match user {
        Some(u) => "[KitPanel - "@ + u + "] "@ + input,
        None => "[KitPanel] "@ + input,
    }
}

/// Effect of submitting a command: recorded in the console with attribution
/// when a child is attached, a no-op otherwise.
pub open spec fn proc_send(m: ProcModel, input: Seq<char>, user: Option<Seq<char>>) -> ProcModel {
    if m.attached {
        ProcModel { console: ring_insert(m.console, attribution(input, user), BUFFER_SIZE as nat), ..m }
    } else {
        m
    }
}

/// Effect of the pump draining one line of the child's output.
pub open spec fn proc_line(m: ProcModel, line: Seq<char>) -> ProcModel {
    ProcModel { console: ring_insert(m.console, line, BUFFER_SIZE as nat), ..m }
}

/// Effect of the pump observing end-of-stream: the one transition that clears
/// the liveness flag.
pub open spec fn proc_eof(m: ProcModel) -> ProcModel {
    ProcModel { alive: false, ..m }
}

/// Effect of a successful kill: the child reference is cleared; the liveness
/// flag is left for the pump to clear when it observes end-of-stream.
pub open spec fn proc_killed(m: ProcModel) -> ProcModel {
    ProcModel { attached: false, ..m }
}

/// Effect of the pump draining the lines `lines`, in order.
pub open spec fn pump_lines(m: ProcModel, lines: Seq<Seq<char>>) -> ProcModel
    decreases lines.len(),
{
    if lines.len() == 0 {
        m
    } else {
        proc_line(pump_lines(m, lines.drop_last()), lines.last())
    }
}

/// One event in the life of a process handle.
pub ghost enum ProcEvent {
    Reattach,
    Send { input: Seq<char>, user: Option<Seq<char>> },
    Kill { ok: bool },
    Line { line: Seq<char> },
    Eof,
}

/// The transition a handle makes on each event.
pub open spec fn proc_step(m: ProcModel, e: ProcEvent) -> ProcModel {
    match e {
        ProcEvent::Reattach => proc_started(m.console),
        ProcEvent::Send { input, user } => proc_send(m, input, user),
        ProcEvent::Kill { ok } => if m.attached && ok {
            proc_killed(m)
        } else {
            m
        },
        ProcEvent::Line { line } => proc_line(m, line),
        ProcEvent::Eof => proc_eof(m),
    }
}

/// The liveness flag goes from true to false only when the output pump
/// observes end-of-stream; attaching a child always sets it back to true.
pub proof fn lemma_alive_cleared_only_by_eof(m: ProcModel, e: ProcEvent)
    ensures
        m.alive && !proc_step(m, e).alive ==> e is Eof,
        e is Reattach ==> proc_step(m, e).alive,
        e is Eof ==> !proc_step(m, e).alive,
{
}

/// Handle for one supervised child process: the attachment and liveness state
/// plus the console history.
pub struct Process {
    attached: bool,
    alive: bool,
    pub console: Console,
}

impl View for Process {
    type V = ProcModel;

    closed spec fn view(&self) -> ProcModel {
        ProcModel { attached: self.attached, alive: self.alive, console: self.console@ }
    }
}

/// The bytes written to the child's standard input for one submitted command.
pub open spec fn stdin_payload(input: Seq<char>) -> Seq<char> {
    input.push('\n')
}

impl Process {
    pub closed spec fn wf(&self) -> bool {
        self.console.wf()
    }

    /// Fresh handle for a newly spawned child: live, with an empty console.
    pub fn new() -> (r: Process)
        ensures
            r@ == proc_started(Seq::<Seq<char>>::empty()),
            r.wf(),
    {
        let console = Console::new();
        let r = Process { attached: true, alive: true, console };
        assert(r@ =~= proc_started(Seq::<Seq<char>>::empty())) by {
            assert(r@.console =~= Seq::<Seq<char>>::empty());
        }
        r
    }

    /// Reattach a freshly spawned child to this handle, keeping the console
    /// history and marking the handle live again.
    pub fn insert(&mut self)
        requires
            old(self).wf(),
        ensures
            final(self)@ == proc_started(old(self)@.console),
            final(self).wf(),
    {
        self.attached = true;
        self.alive = true;
    }

    /// Record a submitted command in the console with attribution and hand
    /// back the line to write to the child's standard input, if a child is
    /// attached; a no-op otherwise.
    pub fn send(&mut self, input: String, user: Option<String>) -> (w: Option<String>)
        requires
            old(self).wf(),
        ensures
            final(self)@ == proc_send(old(self)@, input@, user.deep_view()),
            final(self).wf(),
            old(self)@.attached ==> (w matches Some(p) && p@ == stdin_payload(input@)),
            !old(self)@.attached ==> w is None,
    {
        if !self.attached {
            return None;
        }
        let mut payload = input.clone();
        payload.append("\n");
        proof {
            reveal_strlit("\n");
            assert(payload@ =~= stdin_payload(input@));
        }
        let display = match &user {
            Some(u) => {
                let mut s = "[KitPanel - ".to_owned();
                s.append(u.as_str());
                s.append("] ");
                s.append(input.as_str());
                proof {
                    assert(s@ =~= attribution(input@, user.deep_view()));
                }
                s
            },
            None => {
                let mut s = "[KitPanel] ".to_owned();
                s.append(input.as_str());
                proof {
                    assert(s@ =~= attribution(input@, user.deep_view()));
                }
                s
            },
        };
        self.console.insert(display);
        Some(payload)
    }

    /// Current liveness flag, as last written by the output pump.
    pub fn is_alive(&self) -> (r: bool)
        ensures
            r == self@.alive,
    {
        self.alive
    }

    /// Whether a child is currently attached to this handle.
    pub fn is_attached(&self) -> (r: bool)
        ensures
            r == self@.attached,
    {
        self.attached
    }

    /// Conclude a kill request whose OS-level outcome is `kill_ok`: clears the
    /// child reference on success, leaves the handle unchanged on failure, and
    /// succeeds trivially when no child is attached.
    pub fn kill(&mut self, kill_ok: bool) -> (r: bool)
        ensures
            !old(self)@.attached ==> r && final(self)@ == old(self)@,
            old(self)@.attached && kill_ok ==> r && final(self)@ == proc_killed(old(self)@),
            old(self)@.attached && !kill_ok ==> !r && final(self)@ == old(self)@,
            final(self).wf() == old(self).wf(),
    {
        if !self.attached {
            return true;
        }
        if kill_ok {
            self.attached = false;
            return true;
        }
        false
    }

    /// Record one line drained from the child's output stream.
    pub fn pump_line(&mut self, line: String)
        requires
            old(self).wf(),
        ensures
            final(self)@ == proc_line(old(self)@, line@),
            final(self).wf(),
    {
        self.console.insert(line);
    }

    /// Snapshot of the console history, newest first.
    pub fn console_snapshot(&self) -> (r: Vec<String>)
        ensures
            r.deep_view() == self@.console,
    {
        self.console.inner()
    }

    /// Record that the output stream has ended: the only operation that turns
    /// the liveness flag off.
    pub fn pump_eof(&mut self)
        requires
            old(self).wf(),
        ensures
            final(self)@ == proc_eof(old(self)@),
            final(self).wf(),
    {
        self.alive = false;
    }
}

/// Drain a whole observed output stream into the handle: every line of
/// `lines` in order, then the end-of-stream mark that clears liveness.
pub fn handle_stdout(process: &mut Process, lines: Vec<String>)
    requires
        old(process).wf(),
    ensures
        final(process)@ == proc_eof(pump_lines(old(process)@, lines.deep_view())),
        final(process).wf(),
{
    let ghost all = lines.deep_view();
    let n = lines.len();
    let mut i: usize = 0;
    while i < n
        invariant
            n == lines@.len(),
            i <= n,
            all == lines.deep_view(),
            process@ == pump_lines(old(process)@, all.take(i as int)),
            process.wf(),
        decreases n - i,
    {
        let line = lines[i].clone();
        process.pump_line(line);
        proof {
            assert(all.take(i + 1 as int).drop_last() =~= all.take(i as int));
            assert(all.take(i + 1 as int).last() == all[i as int]);
        }
        i = i + 1;
    }
    proof {
        assert(all.take(n as int) =~= all);
    }
    process.pump_eof();
}

} // verus!

