//! Mapping of lifecycle events to configured external commands.
//!
//! The runner holds an immutable registry (event-kind name to an ordered list
//! of argument vectors), the working directory captured when it was built, and
//! a sequence counter. Dispatching an event yields the launches to perform, in
//! configured order, each stamped with the next sequence number; starting the
//! processes is left to the caller.

use vstd::prelude::*;

use crate::decimal::{decimal_of, decimal_string};

verus! {

/// Environment variable that carries the event-kind name.
pub const EVENT_VAR: &'static str = "CODEX_HOOK_EVENT";

/// Environment variable that carries the correlation id of the event.
pub const SUBMISSION_ID_VAR: &'static str = "CODEX_HOOK_SUBMISSION_ID";

/// Environment variable that carries the sequence number, in decimal.
pub const SEQ_VAR: &'static str = "CODEX_HOOK_SEQ";

/// The kind of a lifecycle event.
pub enum EventKind {
    TurnStarted,
    TurnComplete,
    TurnAborted,
    ExecApprovalRequest,
    ApplyPatchApprovalRequest,
    ExecCommandBegin,
    ExecCommandEnd,
    McpStartupUpdate,
    McpStartupComplete,
    Error,
    /// A kind not listed above, carried by its name.
    Other(String),
}

impl EventKind {
    /// The stable name under which hooks for this kind are registered.
    pub open spec fn spec_name(&self) -> Seq<char> {
        match self {
            EventKind::TurnStarted => "turn_started"@,
            EventKind::TurnComplete => "turn_complete"@,
            EventKind::TurnAborted => "turn_aborted"@,
            EventKind::ExecApprovalRequest => "exec_approval_request"@,
            EventKind::ApplyPatchApprovalRequest => "apply_patch_approval_request"@,
            EventKind::ExecCommandBegin => "exec_command_begin"@,
            EventKind::ExecCommandEnd => "exec_command_end"@,
            EventKind::McpStartupUpdate => "mcp_startup_update"@,
            EventKind::McpStartupComplete => "mcp_startup_complete"@,
            EventKind::Error => "error"@,
            EventKind::Other(s) => s@,
        }
    }

    pub fn name(&self) -> (r: String)
        ensures
            r@ == self.spec_name(),
    {
        match self {
            EventKind::TurnStarted => String::from_str("turn_started"),
            EventKind::TurnComplete => String::from_str("turn_complete"),
            EventKind::TurnAborted => String::from_str("turn_aborted"),
            EventKind::ExecApprovalRequest => String::from_str("exec_approval_request"),
            EventKind::ApplyPatchApprovalRequest => String::from_str(
                "apply_patch_approval_request",
            ),
            EventKind::ExecCommandBegin => String::from_str("exec_command_begin"),
            EventKind::ExecCommandEnd => String::from_str("exec_command_end"),
            EventKind::McpStartupUpdate => String::from_str("mcp_startup_update"),
            EventKind::McpStartupComplete => String::from_str("mcp_startup_complete"),
            EventKind::Error => String::from_str("error"),
            EventKind::Other(s) => s.clone(),
        }
    }
}

/// A lifecycle event: its kind and the id of the unit of work it belongs to.
pub struct Event {
    pub id: String,
    pub kind: EventKind,
}

/// One external process to start.
pub struct HookInvocation {
    pub program: String,
    pub args: Vec<String>,
    pub cwd: String,
    pub env: Vec<(String, String)>,
    pub seq: u64,
}

/// What a launch is, as plain values.
pub struct InvocationView {
    pub program: Seq<char>,
    pub args: Seq<Seq<char>>,
    pub cwd: Seq<char>,
    pub env: Seq<(Seq<char>, Seq<char>)>,
    pub seq: nat,
}

pub open spec fn argv_view(argv: Vec<String>) -> Seq<Seq<char>> {
    argv@.map_values(|t: String| t@)
}

pub open spec fn env_view(env: Vec<(String, String)>) -> Seq<(Seq<char>, Seq<char>)> {
    env@.map_values(|p: (String, String)| (p.0@, p.1@))
}

impl View for HookInvocation {
    type V = InvocationView;

    open spec fn view(&self) -> InvocationView {
        InvocationView {
            program: self.program@,
            args: argv_view(self.args),
            cwd: self.cwd@,
            env: env_view(self.env),
            seq: self.seq as nat,
        }
    }
}

/// A registry as plain values: event-kind name and its argument vectors.
pub type RegistryView = Seq<(Seq<char>, Seq<Seq<Seq<char>>>)>;

pub open spec fn registry_view(hooks: Seq<(String, Vec<Vec<String>>)>) -> RegistryView {
    hooks.map_values(
        |e: (String, Vec<Vec<String>>)| (e.0@, e.1@.map_values(|a: Vec<String>| argv_view(a))),
    )
}

/// No event-kind name is registered twice.
pub open spec fn keys_distinct(reg: RegistryView) -> bool {
    forall|i: int, j: int| 0 <= i < j < reg.len() ==> reg[i].0 != reg[j].0
}

/// The commands registered for `name`; none when the name is absent.
pub open spec fn commands_for(reg: RegistryView, name: Seq<char>) -> Seq<Seq<Seq<char>>> {
    if exists|i: int| 0 <= i < reg.len() && reg[i].0 == name {
        reg[choose|i: int| 0 <= i < reg.len() && reg[i].0 == name].1
    } else {
        seq![]
    }
}

/// An argument vector names a program: it is non-empty and its first token is
/// non-empty. Any other entry is skipped.
pub open spec fn is_actionable(argv: Seq<Seq<char>>) -> bool {
    argv.len() > 0 && argv[0].len() > 0
}

/// The environment handed to a hook.
pub open spec fn hook_env(kind: Seq<char>, id: Seq<char>, seq: nat) -> Seq<(Seq<char>, Seq<char>)> {
    seq![(EVENT_VAR@, kind), (SUBMISSION_ID_VAR@, id), (SEQ_VAR@, decimal_of(seq))]
}

/// The launch of one actionable argument vector.
pub open spec fn launch_of(
    argv: Seq<Seq<char>>,
    kind: Seq<char>,
    id: Seq<char>,
    cwd: Seq<char>,
    seq: nat,
) -> InvocationView {
    InvocationView {
        program: argv[0],
        args: argv.drop_first(),
        cwd: cwd,
        env: hook_env(kind, id, seq),
        seq: seq,
    }
}

/// The launches for one event: the actionable commands in configured order,
/// the i-th of them numbered `first + i`.
pub open spec fn dispatch(
    cmds: Seq<Seq<Seq<char>>>,
    kind: Seq<char>,
    id: Seq<char>,
    cwd: Seq<char>,
    first: nat,
) -> Seq<InvocationView> {
    let acts = cmds.filter(|a: Seq<Seq<char>>| is_actionable(a));
    Seq::new(acts.len(), |i: int| launch_of(acts[i], kind, id, cwd, (first + i) as nat))
}

proof fn lemma_dispatch_step(
    cmds: Seq<Seq<Seq<char>>>,
    j: int,
    kind: Seq<char>,
    id: Seq<char>,
    cwd: Seq<char>,
    first: nat,
)
    requires
        0 <= j < cmds.len(),
    ensures
        dispatch(cmds.take(j + 1), kind, id, cwd, first) == if is_actionable(cmds[j]) {
            dispatch(cmds.take(j), kind, id, cwd, first).push(
                launch_of(
                    cmds[j],
                    kind,
                    id,
                    cwd,
                    first + dispatch(cmds.take(j), kind, id, cwd, first).len(),
                ),
            )
        } else {
            dispatch(cmds.take(j), kind, id, cwd, first)
        },
{
    let pred = |a: Seq<Seq<char>>| is_actionable(a);
    reveal(Seq::filter);
    assert(cmds.take(j + 1).drop_last() =~= cmds.take(j));
    assert(cmds.take(j + 1).last() == cmds[j]);
    let before = cmds.take(j).filter(pred);
    let after = cmds.take(j + 1).filter(pred);
    if is_actionable(cmds[j]) {
        assert(after == before.push(cmds[j]));
        assert(dispatch(cmds.take(j + 1), kind, id, cwd, first) =~= dispatch(
            cmds.take(j),
            kind,
            id,
            cwd,
            first,
        ).push(launch_of(cmds[j], kind, id, cwd, first + before.len())));
    } else {
        assert(after == before);
    }
}

/// Dispatches lifecycle events to the hooks registered for their kind.
pub struct EventHookRunner {
    hooks: Vec<(String, Vec<Vec<String>>)>,
    cwd: String,
    seq: u64,
}

impl EventHookRunner {
    pub closed spec fn registry(&self) -> RegistryView {
        registry_view(self.hooks@)
    }

    pub closed spec fn spec_cwd(&self) -> Seq<char> {
        self.cwd@
    }

    /// The sequence number that the next launch receives.
    pub closed spec fn counter(&self) -> nat {
        self.seq as nat
    }

    pub open spec fn wf(&self) -> bool {
        keys_distinct(self.registry())
    }

    /// A runner over `hooks`, launching in `cwd`, whose counter starts at zero.
    pub fn new(hooks: Vec<(String, Vec<Vec<String>>)>, cwd: String) -> (r: Self)
        requires
            keys_distinct(registry_view(hooks@)),
        ensures
            r.wf(),
            r.registry() == registry_view(hooks@),
            r.spec_cwd() == cwd@,
            r.counter() == 0,
    {
        EventHookRunner { hooks, cwd, seq: 0 }
    }

    /// The sequence number that the next launch receives.
    pub fn next_seq(&self) -> (r: u64)
        ensures
            r == self.counter(),
    {
        self.seq
    }

    fn lookup(&self, name: &String) -> (r: Option<usize>)
        ensures
            match r {
                Some(i) => i < self.hooks.len() && self.hooks@[i as int].0@ == name@,
                None => forall|i: int|
                    0 <= i < self.hooks.len() ==> self.hooks@[i].0@ != name@,
            },
    {
        let mut i: usize = 0;
        while i < self.hooks.len()
            invariant
                i <= self.hooks.len(),
                forall|j: int| 0 <= j < i ==> self.hooks@[j].0@ != name@,
            decreases self.hooks.len() - i,
        {
            if self.hooks[i].0.eq(name) {
                return Some(i);
            }
            i += 1;
        }
        None
    }

    proof fn lemma_lookup_found(&self, i: int, name: Seq<char>)
        requires
            self.wf(),
            0 <= i < self.hooks.len(),
            self.hooks@[i].0@ == name,
        ensures
            commands_for(self.registry(), name) == self.registry()[i].1,
            self.registry()[i].1 == self.hooks@[i].1@.map_values(|a: Vec<String>| argv_view(a)),
    {
        let reg = self.registry();
        assert(reg[i].0 == name);
        let k = choose|k: int| 0 <= k < reg.len() && reg[k].0 == name;
        assert(k == i);
    }

    /// The number of commands registered for the kind of `event`.
    pub fn command_count(&self, event: &Event) -> (r: usize)
        requires
            self.wf(),
        ensures
            r == commands_for(self.registry(), event.kind.spec_name()).len(),
    {
        let name = event.kind.name();
        match self.lookup(&name) {
            Some(i) => {
                proof {
                    self.lemma_lookup_found(i as int, name@);
                }
                self.hooks[i].1.len()
            },
            None => {
                assert(!exists|i: int|
                    0 <= i < self.registry().len() && self.registry()[i].0 == name@);
                0
            },
        }
    }

    /// Plans the launches for `event`: one per actionable command registered
    /// for its kind, in configured order, numbered consecutively from the
    /// counter, which advances by their number. Registry and working
    /// directory stay as they are.
    pub fn handle_event(&mut self, event: &Event) -> (r: Vec<HookInvocation>)
        requires
            old(self).wf(),
            old(self).counter() + commands_for(old(self).registry(), event.kind.spec_name()).len()
                <= u64::MAX,
        ensures
            final(self).wf(),
            final(self).registry() == old(self).registry(),
            final(self).spec_cwd() == old(self).spec_cwd(),
            r@.map_values(|v: HookInvocation| v@) == dispatch(
                commands_for(old(self).registry(), event.kind.spec_name()),
                event.kind.spec_name(),
                event.id@,
                old(self).spec_cwd(),
                old(self).counter(),
            ),
            final(self).counter() == old(self).counter() + r.len(),
    {
        let ghost kind = event.kind.spec_name();
        let mut out: Vec<HookInvocation> = Vec::new();
        if self.hooks.len() == 0 {
            assert(dispatch(seq![], kind, event.id@, self.cwd@, self.seq as nat) =~= seq![]) by {
                reveal(Seq::filter);
            }
            assert(out@.map_values(|v: HookInvocation| v@) =~= seq![]);
            return out;
        }
        let name = event.kind.name();
        let found = self.lookup(&name);
        let i = match found {
            Some(i) => i,
            None => {
                assert(!exists|i: int|
                    0 <= i < self.registry().len() && self.registry()[i].0 == kind);
                assert(dispatch(seq![], kind, event.id@, self.cwd@, self.seq as nat) =~= seq![])
                    by {
                    reveal(Seq::filter);
                }
                assert(out@.map_values(|v: HookInvocation| v@) =~= seq![]);
                return out;
            },
        };
        proof {
            self.lemma_lookup_found(i as int, kind);
        }
        let ghost cmds = commands_for(self.registry(), kind);
        let ghost first = self.seq as nat;
        let mut next: u64 = self.seq;
        let mut j: usize = 0;
        while j < self.hooks[i].1.len()
            invariant
                i < self.hooks.len(),
                cmds == self.hooks@[i as int].1@.map_values(|a: Vec<String>| argv_view(a)),
                j <= cmds.len(),
                first + cmds.len() <= u64::MAX,
                out.len() <= j,
                next == first + out.len(),
                out@.map_values(|v: HookInvocation| v@) == dispatch(
                    cmds.take(j as int),
                    kind,
                    event.id@,
                    self.cwd@,
                    first,
                ),
                name@ == kind,
            decreases cmds.len() - j,
        {
            proof {
                lemma_dispatch_step(cmds, j as int, kind, event.id@, self.cwd@, first);
            }
            let argv = &self.hooks[i].1[j];
            assert(argv_view(*argv) == cmds[j as int]);
            if argv.len() > 0 && !argv[0].as_str().is_empty() {
                let inv = launch(argv, &name, &event.id, &self.cwd, next);
                let ghost before = out@;
                out.push(inv);
                assert(out@.map_values(|v: HookInvocation| v@) =~= before.map_values(
                    |v: HookInvocation| v@,
                ).push(inv@));
                next = next + 1;
            }
            j += 1;
        }
        assert(cmds.take(cmds.len() as int) =~= cmds);
        self.seq = next;
        out
    }
}

/// The launch of `argv`, which must name a program.
fn launch(argv: &Vec<String>, kind: &String, id: &String, cwd: &String, seq: u64) -> (r:
    HookInvocation)
    requires
        is_actionable(argv_view(*argv)),
    ensures
        r@ == launch_of(argv_view(*argv), kind@, id@, cwd@, seq as nat),
{
    let mut args: Vec<String> = Vec::new();
    let mut k: usize = 1;
    while k < argv.len()
        invariant
            1 <= k <= argv.len(),
            args.len() == k - 1,
            forall|m: int| 0 <= m < args.len() ==> args@[m]@ == argv@[m + 1]@,
        decreases argv.len() - k,
    {
        args.push(argv[k].clone());
        k += 1;
    }
    let mut env: Vec<(String, String)> = Vec::new();
    env.push((String::from_str(EVENT_VAR), kind.clone()));
    env.push((String::from_str(SUBMISSION_ID_VAR), id.clone()));
    env.push((String::from_str(SEQ_VAR), decimal_string(seq)));
    let r = HookInvocation { program: argv[0].clone(), args, cwd: cwd.clone(), env, seq };
    assert(env_view(r.env) =~= hook_env(kind@, id@, seq as nat));
    assert(argv_view(r.args) =~= argv_view(*argv).drop_first());
    r
}

} // verus!

verus! {

/// The launches of a runner over a series of events, dispatched one after the
/// other from counter value `first`; each event is a kind name and an id.
pub open spec fn run(
    reg: RegistryView,
    cwd: Seq<char>,
    events: Seq<(Seq<char>, Seq<char>)>,
    first: nat,
) -> Seq<InvocationView>
    decreases events.len(),
{
    if events.len() == 0 {
        seq![]
    } else {
        let d = dispatch(commands_for(reg, events[0].0), events[0].0, events[0].1, cwd, first);
        d + run(reg, cwd, events.drop_first(), first + d.len())
    }
}

/// An event whose kind has no registry entry launches nothing, so the
/// counter, which advances by the number of launches, stays where it was.
pub proof fn lemma_unregistered_kind_launches_nothing(
    reg: RegistryView,
    kind: Seq<char>,
    id: Seq<char>,
    cwd: Seq<char>,
    first: nat,
)
    requires
        forall|i: int| 0 <= i < reg.len() ==> reg[i].0 != kind,
    ensures
        dispatch(commands_for(reg, kind), kind, id, cwd, first) == Seq::<InvocationView>::empty(),
{
    reveal(Seq::filter);
    assert(dispatch(commands_for(reg, kind), kind, id, cwd, first) =~= Seq::<
        InvocationView,
    >::empty());
}

proof fn lemma_filter_keeps_all(cmds: Seq<Seq<Seq<char>>>)
    requires
        forall|i: int| 0 <= i < cmds.len() ==> is_actionable(#[trigger] cmds[i]),
    ensures
        cmds.filter(|a: Seq<Seq<char>>| is_actionable(a)) == cmds,
    decreases cmds.len(),
{
    reveal(Seq::filter);
    if cmds.len() > 0 {
        let rest = cmds.drop_last();
        assert forall|i: int| 0 <= i < rest.len() implies is_actionable(#[trigger] rest[i]) by {
            assert(rest[i] == cmds[i]);
        }
        lemma_filter_keeps_all(rest);
        assert(is_actionable(cmds[cmds.len() - 1]));
        assert(rest.push(cmds.last()) =~= cmds);
    }
}

/// When every one of the k commands for an event names a program, the event
/// gives exactly k launches, in configured order, numbered by k consecutive
/// integers from the counter.
pub proof fn lemma_commands_launch_in_order(
    cmds: Seq<Seq<Seq<char>>>,
    kind: Seq<char>,
    id: Seq<char>,
    cwd: Seq<char>,
    first: nat,
)
    requires
        forall|i: int| 0 <= i < cmds.len() ==> is_actionable(#[trigger] cmds[i]),
    ensures
        dispatch(cmds, kind, id, cwd, first).len() == cmds.len(),
        forall|i: int|
            0 <= i < cmds.len() ==> {
                let l = #[trigger] dispatch(cmds, kind, id, cwd, first)[i];
                &&& l.program == cmds[i][0]
                &&& l.args == cmds[i].drop_first()
                &&& l.seq == first + i
                &&& l.env == hook_env(kind, id, l.seq)
            },
{
    lemma_filter_keeps_all(cmds);
}

/// An entry with no tokens, or with an empty first token, launches nothing
/// and takes no sequence number: removing it leaves the launches of its
/// siblings exactly as they were.
pub proof fn lemma_malformed_entry_is_inert(
    cmds: Seq<Seq<Seq<char>>>,
    j: int,
    kind: Seq<char>,
    id: Seq<char>,
    cwd: Seq<char>,
    first: nat,
)
    requires
        0 <= j < cmds.len(),
        !is_actionable(cmds[j]),
    ensures
        dispatch(cmds.remove(j), kind, id, cwd, first) == dispatch(cmds, kind, id, cwd, first),
{
    let pred = |a: Seq<Seq<char>>| is_actionable(a);
    let left = cmds.take(j);
    let mid = seq![cmds[j]];
    let right = cmds.skip(j + 1);
    assert(cmds =~= left + mid + right);
    assert(cmds.remove(j) =~= left + right);
    Seq::filter_distributes_over_add(left + mid, right, pred);
    Seq::filter_distributes_over_add(left, mid, pred);
    Seq::filter_distributes_over_add(left, right, pred);
    assert(mid.filter(pred) =~= Seq::<Seq<Seq<char>>>::empty()) by {
        reveal(Seq::filter);
        assert(mid.drop_last() =~= Seq::<Seq<Seq<char>>>::empty());
        assert(mid.drop_last().filter(pred) =~= Seq::<Seq<Seq<char>>>::empty());
        assert(mid.last() == cmds[j]);
        assert(!pred(mid.last()));
    }
    assert(left.filter(pred) + Seq::<Seq<Seq<char>>>::empty() =~= left.filter(pred));
    assert(cmds.filter(pred) == cmds.remove(j).filter(pred));
}

/// Over any series of events dispatched by one runner, whatever their kinds,
/// the launches are numbered by the contiguous range that starts at the
/// counter: no number is issued twice, none is skipped, and they increase in
/// the order of issue.
pub proof fn lemma_sequence_numbers_contiguous(
    reg: RegistryView,
    cwd: Seq<char>,
    events: Seq<(Seq<char>, Seq<char>)>,
    first: nat,
)
    ensures
        forall|i: int|
            0 <= i < run(reg, cwd, events, first).len() ==> #[trigger] run(
                reg,
                cwd,
                events,
                first,
            )[i].seq == first + i,
        forall|i: int, k: int|
            0 <= i < k < run(reg, cwd, events, first).len() ==> run(reg, cwd, events, first)[i].seq
                < run(reg, cwd, events, first)[k].seq,
    decreases events.len(),
{
    if events.len() > 0 {
        let d = dispatch(commands_for(reg, events[0].0), events[0].0, events[0].1, cwd, first);
        let rest = run(reg, cwd, events.drop_first(), first + d.len());
        lemma_sequence_numbers_contiguous(reg, cwd, events.drop_first(), first + d.len());
        let all = run(reg, cwd, events, first);
        assert(all == d + rest);
        assert forall|i: int| 0 <= i < all.len() implies #[trigger] all[i].seq == first + i by {
            if i >= d.len() {
                assert(all[i] == rest[i - d.len()]);
            }
        }
    }
}

} // verus!
