//! The executor's decision logic.
//!
//! Walking a command tree alternates pure decisions (which pipeline runs
//! next, how statuses combine) with work only the operating system can do
//! (spawning processes, waiting).  This module holds the decisions, fully
//! verified.  [`execute`] flattens a command list into a queue of pipeline
//! items, and [`exec_next`] tells the caller which pipeline to spawn next —
//! or the final status — given the exit status of the previous one.  The
//! caller performs each spawn and feeds the last stage's status back in.

use crate::parse::{
    chain_wf, command_wf, pipeline_wf, Command, ListCommand, Pipeline, SimpleCommand,
    SingleCommand, Terminator,
};
use vstd::prelude::*;

verus! {

/// Negating a status is a pure boolean flip of its success classification:
/// success becomes the conventional failure status and any failure becomes
/// success.  Without negation the status passes through unchanged.
pub open spec fn spec_negate(exclamation: bool, status: i32) -> i32 {
    if !exclamation {
        status
    } else if status == 0 {
        1
    } else {
        0
    }
}

/// Whether the element after terminator `t` runs, given the previous
/// element's status: `&&` demands success, `||` demands failure, `;` and `&`
/// always run it.
pub open spec fn spec_should_run(t: Terminator, prev: i32) -> bool {
    match t {
        Terminator::And => prev == 0,
        Terminator::Or => prev != 0,
        Terminator::Sequential => true,
        Terminator::Background => true,
    }
}

/// Applies a leading `!` to a pipeline's status.
pub fn negate_status(exclamation: bool, status: i32) -> (r: i32)
    ensures
        r == spec_negate(exclamation, status),
{
    if !exclamation {
        status
    } else if status == 0 {
        1
    } else {
        0
    }
}

/// Decides whether the list element after terminator `t` runs.
pub fn should_run(t: &Terminator, prev: i32) -> (r: bool)
    ensures
        r == spec_should_run(*t, prev),
{
    match t {
        Terminator::And => prev == 0,
        Terminator::Or => prev != 0,
        Terminator::Sequential => true,
        Terminator::Background => true,
    }
}

/// Negation is a pure boolean flip: a negated pipeline reports success
/// exactly when the pipeline itself did not, whatever its non-zero status
/// was, and a pipeline that is not negated keeps its status.
pub proof fn lemma_negation_flips(status: i32)
    ensures
        (spec_negate(true, status) == 0) <==> (status != 0),
        spec_negate(false, status) == status,
{
}

/// How many processes the pipeline needs: one per stage.
pub open spec fn stage_count(p: Pipeline) -> int {
    1 + p.rest@.len() as int
}

/// Stage `k` of the pipeline, counting the initial stage as stage 0.
pub open spec fn stage(p: Pipeline, k: int) -> SimpleCommand {
    if k == 0 {
        p.initial
    } else {
        p.rest@[k - 1]
    }
}

/// Everything the caller needs to spawn one process: the program and its
/// arguments, as the bytes of the command's words.
pub struct SpawnSpec {
    pub program: Vec<u8>,
    pub args: Vec<Vec<u8>>,
}

/// The spawn spec carries exactly the command's words: the first word as
/// the program, the remaining words as the arguments, in order.
pub open spec fn spawn_matches(s: SpawnSpec, sc: SimpleCommand) -> bool {
    &&& sc.tokens@.len() > 0
    &&& s.program@ == sc.tokens@[0].value@
    &&& s.args@.len() == sc.tokens@.len() - 1
    &&& forall|j: int| 0 <= j < s.args@.len() ==> (#[trigger] s.args@[j])@ == sc.tokens@[j + 1].value@
}

fn clone_bytes(v: &Vec<u8>) -> (r: Vec<u8>)
    ensures
        r@ == v@,
{
    let mut r: Vec<u8> = Vec::new();
    let mut k: usize = 0;
    while k < v.len()
        invariant
            k <= v@.len(),
            r@ == v@.subrange(0, k as int),
        decreases v@.len() - k,
    {
        r.push(v[k]);
        k = k + 1;
        proof {
            assert(v@.subrange(0, k as int) =~= v@.subrange(0, k - 1).push(v@[k - 1]));
        }
    }
    proof {
        assert(v@.subrange(0, v@.len() as int) =~= v@);
    }
    r
}

/// Turns one simple command into the spawn it asks for.
pub fn spawn_spec(sc: &SimpleCommand) -> (s: SpawnSpec)
    requires
        sc.tokens@.len() > 0,
    ensures
        spawn_matches(s, *sc),
{
    let program = clone_bytes(&sc.tokens[0].value);
    let mut args: Vec<Vec<u8>> = Vec::new();
    let mut k: usize = 1;
    while k < sc.tokens.len()
        invariant
            1 <= k <= sc.tokens@.len(),
            args@.len() == k - 1,
            forall|j: int|
                0 <= j < args@.len() ==> (#[trigger] args@[j])@ == sc.tokens@[j + 1].value@,
        decreases sc.tokens@.len() - k,
    {
        args.push(clone_bytes(&sc.tokens[k].value));
        k = k + 1;
    }
    SpawnSpec { program, args }
}

/// The spawns a pipeline asks for: exactly one per stage, in stage order.
pub fn pipeline_specs(p: &Pipeline) -> (specs: Vec<SpawnSpec>)
    requires
        pipeline_wf(*p),
    ensures
        specs@.len() == stage_count(*p),
        forall|k: int|
            0 <= k < specs@.len() ==> spawn_matches(#[trigger] specs@[k], stage(*p, k)),
{
    let mut specs: Vec<SpawnSpec> = Vec::new();
    specs.push(spawn_spec(&p.initial));
    let mut k: usize = 0;
    while k < p.rest.len()
        invariant
            pipeline_wf(*p),
            k <= p.rest@.len(),
            specs@.len() == 1 + k,
            forall|j: int|
                0 <= j < specs@.len() ==> spawn_matches(#[trigger] specs@[j], stage(*p, j)),
        decreases p.rest@.len() - k,
    {
        specs.push(spawn_spec(&p.rest[k]));
        k = k + 1;
    }
    specs
}

pub open spec fn spec_pipeline_status(statuses: Seq<i32>) -> i32 {
    statuses[statuses.len() - 1]
}

/// A pipeline's reported status is the status of its last stage.
pub fn pipeline_status(statuses: &Vec<i32>) -> (r: i32)
    requires
        statuses@.len() > 0,
    ensures
        r == spec_pipeline_status(statuses@),
{
    statuses[statuses.len() - 1]
}

/// The last stage alone decides: two runs of a pipeline whose final stages
/// exit alike report the same status, whatever the earlier stages did.
pub proof fn lemma_last_stage_decides(s1: Seq<i32>, s2: Seq<i32>)
    requires
        s1.len() > 0,
        s2.len() > 0,
        s1[s1.len() - 1] == s2[s2.len() - 1],
    ensures
        spec_pipeline_status(s1) == spec_pipeline_status(s2),
{
}

/// One flattened list element: which pipeline to run, how it was joined to
/// the element before it, and the flags that apply to it.
pub struct QueueItem {
    pub negate: bool,
    pub time: bool,
    pub background: bool,
    pub join: Terminator,
    pub pipeline: Pipeline,
}

/// The executor's state between actions: the elements still to run, the
/// status the previous element reported, and — when a run has been handed
/// out and not yet reported back — its negation and background flags.
pub struct ExecState {
    pub queue: Vec<QueueItem>,
    pub prev: i32,
    pub pending: Option<(bool, bool)>,
}

/// What the caller is asked to do next: spawn the stages of one pipeline
/// (waiting for them unless `background` is set, measuring wall-clock time
/// if `time` is set), or stop with the final status.
pub enum ExecAction {
    Run { specs: Vec<SpawnSpec>, background: bool, time: bool },
    Done { status: i32 },
}

/// Element `k` of a flattened pipeline chain.  Element 0 carries the
/// chain's negation and timing flags; each element runs in the background
/// exactly when the terminator after it is `&` (for the last element, the
/// chain's trailing terminator).
pub open spec fn chain_item(
    exclamation: bool,
    time: bool,
    trailing: Option<Terminator>,
    initial: Pipeline,
    rest: Seq<(Terminator, Pipeline)>,
    k: int,
) -> QueueItem {
    QueueItem {
        negate: if k == 0 {
            exclamation
        } else {
            false
        },
        time: if k == 0 {
            time
        } else {
            false
        },
        background: (if k < rest.len() {
            rest[k].0
        } else {
            match trailing {
                Some(t) => t,
                None => Terminator::Sequential,
            }
        }) == Terminator::Background,
        join: if k == 0 {
            Terminator::Sequential
        } else {
            rest[k - 1].0
        },
        pipeline: if k == 0 {
            initial
        } else {
            rest[k - 1].1
        },
    }
}

pub open spec fn flatten_chain(
    exclamation: bool,
    time: bool,
    trailing: Option<Terminator>,
    initial: Pipeline,
    rest: Seq<(Terminator, Pipeline)>,
) -> Seq<QueueItem> {
    Seq::new((rest.len() + 1) as nat, |k: int| chain_item(exclamation, time, trailing, initial, rest, k))
}

/// The queue a command contributes.  A subshell group runs its list in a
/// child context; no ambient state (directory, variables) is modelled at
/// this layer, so which pipelines run and what status comes back are the
/// same as for a brace group, and both flatten to the same elements.
pub open spec fn flatten_command(c: Command) -> Seq<QueueItem> {
    match c {
        Command::Single(sc) => flatten_chain(
            sc.exclamation,
            sc.time,
            sc.terminator,
            sc.initial,
            sc.rest@,
        ),
        Command::Subshell(lc) => flatten_chain(false, false, None, lc.initial, lc.rest@),
        Command::Block(lc) => flatten_chain(false, false, None, lc.initial, lc.rest@),
    }
}

pub open spec fn flatten_commands(cs: Seq<Command>) -> Seq<QueueItem>
    decreases cs.len(),
{
    if cs.len() == 0 {
        Seq::empty()
    } else {
        flatten_command(cs[0]) + flatten_commands(cs.drop_first())
    }
}

pub open spec fn queue_wf(q: Seq<QueueItem>) -> bool {
    forall|k: int| 0 <= k < q.len() ==> pipeline_wf((#[trigger] q[k]).pipeline)
}

pub open spec fn exec_state_wf(st: ExecState) -> bool {
    queue_wf(st.queue@)
}

fn is_background(t: &Terminator) -> (b: bool)
    ensures
        b == (*t == Terminator::Background),
{
    match t {
        Terminator::Background => true,
        _ => false,
    }
}

fn trailing_background(t: &Option<Terminator>) -> (b: bool)
    ensures
        b == ((match *t {
            Some(tt) => tt,
            None => Terminator::Sequential,
        }) == Terminator::Background),
{
    match t {
        Some(Terminator::Background) => true,
        _ => false,
    }
}

fn flatten_chain_into(
    queue: &mut Vec<QueueItem>,
    exclamation: bool,
    time: bool,
    trailing: Option<Terminator>,
    initial: Pipeline,
    rest: Vec<(Terminator, Pipeline)>,
)
    ensures
        final(queue)@ == old(queue)@ + flatten_chain(exclamation, time, trailing, initial, rest@),
{
    let ghost r0 = rest@;
    let ghost q0 = queue@;
    let bg0: bool = if rest.len() > 0 {
        is_background(&rest[0].0)
    } else {
        trailing_background(&trailing)
    };
    queue.push(
        QueueItem {
            negate: exclamation,
            time,
            background: bg0,
            join: Terminator::Sequential,
            pipeline: initial,
        },
    );
    let mut rest = rest;
    let mut idx: usize = 0;
    proof {
        assert(r0.len() <= usize::MAX);
    }
    while rest.len() > 0
        invariant
            r0.len() <= usize::MAX,
            idx + rest@.len() == r0.len(),
            rest@ == r0.subrange(idx as int, r0.len() as int),
            queue@.len() == q0.len() + 1 + idx,
            forall|j: int| 0 <= j < q0.len() ==> queue@[j] == q0[j],
            forall|j: int|
                0 <= j <= idx ==> queue@[q0.len() + j] == chain_item(
                    exclamation,
                    time,
                    trailing,
                    initial,
                    r0,
                    j,
                ),
        decreases rest@.len(),
    {
        let (join_t, pipe) = rest.remove(0);
        proof {
            assert(rest@ =~= r0.subrange(idx + 1, r0.len() as int));
        }
        let bg: bool = if rest.len() > 0 {
            is_background(&rest[0].0)
        } else {
            trailing_background(&trailing)
        };
        queue.push(
            QueueItem { negate: false, time: false, background: bg, join: join_t, pipeline: pipe },
        );
        proof {
            assert(idx < r0.len());
        }
        idx = idx + 1;
    }
    proof {
        assert(queue@ =~= q0 + flatten_chain(exclamation, time, trailing, initial, r0));
    }
}

/// Begins execution of a command list: the list is flattened, in order,
/// into the queue of pipeline elements the run will work through, starting
/// with a clean status of 0.  Feed the state to [`exec_next`] to get the
/// first action.
pub fn execute(cmds: Vec<Command>) -> (st: ExecState)
    requires
        forall|k: int| 0 <= k < cmds@.len() ==> command_wf(#[trigger] cmds@[k]),
    ensures
        st.queue@ == flatten_commands(cmds@),
        exec_state_wf(st),
        st.prev == 0,
        st.pending is None,
{
    let ghost all = cmds@;
    let mut cmds = cmds;
    let mut queue: Vec<QueueItem> = Vec::new();
    proof {
        assert(queue@ + flatten_commands(cmds@) =~= flatten_commands(all));
    }
    while cmds.len() > 0
        invariant
            queue@ + flatten_commands(cmds@) == flatten_commands(all),
            queue_wf(queue@),
            forall|k: int| 0 <= k < cmds@.len() ==> command_wf(#[trigger] cmds@[k]),
        decreases cmds@.len(),
    {
        let ghost before = cmds@;
        let ghost qbefore = queue@;
        let cmd = cmds.remove(0);
        proof {
            assert(cmds@ =~= before.drop_first());
        }
        match cmd {
            Command::Single(sc) => {
                let SingleCommand { exclamation, time, terminator, initial, rest } = sc;
                flatten_chain_into(&mut queue, exclamation, time, terminator, initial, rest);
            },
            Command::Subshell(lc) => {
                let ListCommand { initial, rest } = lc;
                flatten_chain_into(&mut queue, false, false, None, initial, rest);
            },
            Command::Block(lc) => {
                let ListCommand { initial, rest } = lc;
                flatten_chain_into(&mut queue, false, false, None, initial, rest);
            },
        }
        proof {
            assert(queue@ =~= qbefore + flatten_command(before[0]));
            assert(queue@ + flatten_commands(cmds@) =~= (qbefore + flatten_commands(before)));
            assert forall|k: int| 0 <= k < queue@.len() implies pipeline_wf(
                (#[trigger] queue@[k]).pipeline,
            ) by {
                if k >= qbefore.len() {
                    assert(command_wf(before[0]));
                    assert(queue@[k] == flatten_command(before[0])[k - qbefore.len()]);
                }
            }
        }
    }
    proof {
        assert(queue@ + flatten_commands(cmds@) =~= queue@);
    }
    ExecState { queue, prev: 0, pending: None }
}

/// The status the previous action settled on: what the caller reported for
/// a foreground run (negated if the element carried `!`), 0 for a
/// background run — nothing was waited for — and the stored status when
/// nothing was outstanding.
pub open spec fn resolve_prev(st: ExecState, last_status: i32) -> i32 {
    match st.pending {
        None => st.prev,
        Some(p) => if p.1 {
            0
        } else {
            spec_negate(p.0, last_status)
        },
    }
}

/// Drops the leading queue elements whose join terminator rules them out
/// under status `prev`; a skipped element does not change the status.
pub open spec fn select_skip(queue: Seq<QueueItem>, prev: i32) -> Seq<QueueItem>
    decreases queue.len(),
{
    if queue.len() == 0 {
        queue
    } else if spec_should_run(queue[0].join, prev) {
        queue
    } else {
        select_skip(queue.drop_first(), prev)
    }
}

/// Hands out the next action.  `last_status` is the exit status of the
/// last stage of the previously requested run (its value is ignored when
/// none is outstanding).  Elements ruled out by `&&`/`||` short-circuiting
/// are skipped without running; when the queue is exhausted the final
/// status is reported.
pub fn exec_next(st: &mut ExecState, last_status: i32) -> (a: ExecAction)
    requires
        exec_state_wf(*old(st)),
    ensures
        exec_state_wf(*final(st)),
        ({
            let prev = resolve_prev(*old(st), last_status);
            let sel = select_skip(old(st).queue@, prev);
            &&& final(st).prev == prev
            &&& match a {
                ExecAction::Done { status } => {
                    &&& sel.len() == 0
                    &&& status == prev
                    &&& final(st).queue@.len() == 0
                    &&& final(st).pending is None
                },
                ExecAction::Run { specs, background, time } => {
                    &&& sel.len() > 0
                    &&& specs@.len() == stage_count(sel[0].pipeline)
                    &&& forall|k: int|
                        0 <= k < specs@.len() ==> spawn_matches(
                            #[trigger] specs@[k],
                            stage(sel[0].pipeline, k),
                        )
                    &&& background == sel[0].background
                    &&& time == sel[0].time
                    &&& final(st).queue@ == sel.drop_first()
                    &&& final(st).pending == Some((sel[0].negate, sel[0].background))
                },
            }
        }),
{
    let prev: i32 = match st.pending {
        None => st.prev,
        Some((neg, bg)) => {
            if bg {
                0
            } else {
                negate_status(neg, last_status)
            }
        },
    };
    st.prev = prev;
    st.pending = None;
    let ghost q0 = st.queue@;
    loop
        invariant
            queue_wf(st.queue@),
            st.prev == prev,
            st.pending is None,
            select_skip(q0, prev) == select_skip(st.queue@, prev),
        ensures
            queue_wf(st.queue@),
            st.prev == prev,
            st.pending is None,
            select_skip(q0, prev) == select_skip(st.queue@, prev),
            st.queue@.len() == 0 || spec_should_run(st.queue@[0].join, prev),
        decreases st.queue@.len(),
    {
        if st.queue.len() == 0 {
            break ;
        }
        if should_run(&st.queue[0].join, prev) {
            break ;
        }
        let ghost before = st.queue@;
        st.queue.remove(0);
        proof {
            assert(st.queue@ =~= before.drop_first());
        }
    }
    if st.queue.len() == 0 {
        return ExecAction::Done { status: prev };
    }
    let ghost sel = select_skip(q0, prev);
    let ghost before = st.queue@;
    let item = st.queue.remove(0);
    proof {
        assert(sel == before);
        assert(st.queue@ =~= before.drop_first());
    }
    st.pending = Some((item.negate, item.background));
    let specs = pipeline_specs(&item.pipeline);
    ExecAction::Run { specs, background: item.background, time: item.time }
}

} // verus!
