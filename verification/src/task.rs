//! The task model: the admitted record, due-time evaluation, the
//! repeat/retry policy, and derivation of the next instance of a
//! recurring task.
//!
//! An `eta` is an absolute UTC instant, held as milliseconds since the
//! Unix epoch; a task without an `eta` is due immediately. The policy
//! interval is in seconds; the retry count `-1` is the sentinel for an
//! infinite chain.

use vstd::prelude::*;

verus! {

/// A task may fire up to this many milliseconds before its `eta`.
pub const DISPATCH_TOLERANCE_MS: i64 = 3000;

/// The latest representable `eta`: 9999-12-31T23:59:59.999Z, the last
/// instant the wire format (a four-digit year) can carry.
pub const MAX_ETA_MS: i64 = 253402300799999;

/// The retry count that marks an infinite recurring chain.
pub const INFINITE_RETRIES: i32 = -1;

/// How a task is executed once it is due.
#[derive(Clone, Copy, PartialEq, Eq, Structural, Debug)]
pub enum TaskType {
    /// Outbound HTTP request.
    Api,
    /// Outbound TCP line message (reserved; a no-op for now).
    Tcp,
    /// Invocation of a named callable in the embedded host.
    HostCall,
    /// No-op.
    Other,
}

/// The optional repeat/retry policy and executor configuration of a task.
pub struct TaskSettings {
    /// Seconds between instances of a recurring task; `0` means no repeat.
    pub repeat_interval: Option<u32>,
    /// Remaining repeats; `-1` means infinite; `0` means done.
    pub retries: Option<i32>,
    /// Target of an `Api` task.
    pub url: Option<String>,
    /// Headers of an `Api` task, a JSON object of string to string.
    pub headers: Option<String>,
    /// HTTP method name of an `Api` task.
    pub method: Option<String>,
    /// Callable name of a `HostCall` task.
    pub function_name: Option<String>,
}

/// A task admitted into a queue; immutable once admitted.
pub struct Task {
    /// Index of the queue the record (and all its rescheduled descendants) lives in.
    pub queue: usize,
    /// Opaque identifier; never interpreted.
    pub id: String,
    /// Due instant in milliseconds since the Unix epoch; absent = due now.
    pub eta: Option<i64>,
    /// Numeric task kind as admitted; see [`TaskType::from_code`].
    pub task_type: i32,
    /// Opaque payload handed to the executor.
    pub payload: Option<String>,
    /// Repeat/retry policy; absent = run once.
    pub settings: Option<TaskSettings>,
}

/// Mathematical model of a [`TaskSettings`].
pub ghost struct SettingsView {
    pub repeat_interval: Option<int>,
    pub retries: Option<int>,
    pub url: Option<Seq<char>>,
    pub headers: Option<Seq<char>>,
    pub method: Option<Seq<char>>,
    pub function_name: Option<Seq<char>>,
}

/// Mathematical model of a [`Task`].
pub ghost struct TaskView {
    pub queue: int,
    pub id: Seq<char>,
    pub eta: Option<int>,
    pub task_type: int,
    pub payload: Option<Seq<char>>,
    pub settings: Option<SettingsView>,
}

pub open spec fn view_opt_string(s: Option<String>) -> Option<Seq<char>> {
    match s {
        Some(v) => Some(v@),
        None => None,
    }
}

impl View for TaskSettings {
    type V = SettingsView;

    open spec fn view(&self) -> SettingsView {
        SettingsView {
            repeat_interval: match self.repeat_interval {
                Some(k) => Some(k as int),
                None => None,
            },
            retries: match self.retries {
                Some(r) => Some(r as int),
                None => None,
            },
            url: view_opt_string(self.url),
            headers: view_opt_string(self.headers),
            method: view_opt_string(self.method),
            function_name: view_opt_string(self.function_name),
        }
    }
}

impl View for Task {
    type V = TaskView;

    open spec fn view(&self) -> TaskView {
        TaskView {
            queue: self.queue as int,
            id: self.id@,
            eta: match self.eta {
                Some(e) => Some(e as int),
                None => None,
            },
            task_type: self.task_type as int,
            payload: view_opt_string(self.payload),
            settings: match self.settings {
                Some(s) => Some(s@),
                None => None,
            },
        }
    }
}

/// A well-formed task: its `eta`, when present, is an instant the wire
/// format can carry. Admission establishes this and every operation of
/// the library preserves it.
pub open spec fn task_wf(t: TaskView) -> bool {
    t.eta matches Some(e) ==> 0 <= e <= MAX_ETA_MS as int
}

/// The ordering key of a task: its `eta`, with an absent `eta` ranking
/// ahead of every instant, since such a task is due immediately.
pub open spec fn eta_key(t: TaskView) -> int {
    match t.eta {
        Some(e) => e,
        None => i64::MIN as int - 1,
    }
}

/// Whether a task is due at instant `now` (milliseconds since epoch):
/// its `eta` is absent, already reached, or within the dispatch
/// tolerance on the future side.
pub open spec fn spec_due(t: TaskView, now: int) -> bool {
    match t.eta {
        None => true,
        Some(e) => e < now + DISPATCH_TOLERANCE_MS as int,
    }
}

/// Whether a policy asks for another instance: an interval is present
/// and positive, and retries are left (absent retries default to the
/// infinite sentinel).
pub open spec fn spec_should_reschedule(t: TaskView) -> bool {
    match t.settings {
        None => false,
        Some(s) => {
            &&& s.repeat_interval matches Some(k) && k > 0
            &&& match s.retries {
                None => true,
                Some(r) => r == INFINITE_RETRIES as int || r > 0,
            }
        },
    }
}

/// The policy of the next instance: the same in every field, with
/// retries decremented when they were finite and positive (sentinel
/// and absent values are preserved).
pub open spec fn spec_next_settings(s: SettingsView) -> SettingsView {
    SettingsView {
        retries: match s.retries {
            Some(r) => if r > 0 {
                Some(r - 1)
            } else {
                Some(r)
            },
            None => None,
        },
        ..s
    }
}

/// The next instance of a recurring task: identical queue, id, kind and
/// payload; `eta` advanced by the repeat interval; retries decremented
/// when finite and positive.
pub open spec fn spec_next(t: TaskView) -> TaskView
    recommends
        spec_should_reschedule(t),
{
    TaskView {
        eta: match t.eta {
            Some(e) => Some(e + t.settings->0.repeat_interval->0 * 1000),
            None => None,
        },
        settings: Some(spec_next_settings(t.settings->0)),
        ..t
    }
}

impl TaskType {
    /// The numeric code of this kind on the wire.
    pub fn code(self) -> (r: i32)
        ensures
            r == self.spec_code(),
    {
        match self {
            TaskType::Api => 1,
            TaskType::Tcp => 2,
            TaskType::HostCall => 3,
            TaskType::Other => 4,
        }
    }

    pub open spec fn spec_code(self) -> int {
        match self {
            TaskType::Api => 1,
            TaskType::Tcp => 2,
            TaskType::HostCall => 3,
            TaskType::Other => 4,
        }
    }

    /// The kind named by a numeric code; every code outside the three
    /// named kinds is `Other`.
    pub fn from_code(code: i32) -> (r: TaskType)
        ensures
            r == TaskType::spec_from_code(code as int),
    {
        match code {
            1 => TaskType::Api,
            2 => TaskType::Tcp,
            3 => TaskType::HostCall,
            _ => TaskType::Other,
        }
    }

    pub open spec fn spec_from_code(code: int) -> TaskType {
        if code == 1 {
            TaskType::Api
        } else if code == 2 {
            TaskType::Tcp
        } else if code == 3 {
            TaskType::HostCall
        } else {
            TaskType::Other
        }
    }
}

impl Clone for TaskSettings {
    fn clone(&self) -> (r: Self)
        ensures
            r == *self,
    {
        TaskSettings {
            repeat_interval: self.repeat_interval,
            retries: self.retries,
            url: clone_opt_string(&self.url),
            headers: clone_opt_string(&self.headers),
            method: clone_opt_string(&self.method),
            function_name: clone_opt_string(&self.function_name),
        }
    }
}

impl Clone for Task {
    fn clone(&self) -> (r: Self)
        ensures
            r == *self,
    {
        Task {
            queue: self.queue,
            id: self.id.clone(),
            eta: self.eta,
            task_type: self.task_type,
            payload: clone_opt_string(&self.payload),
            settings: match &self.settings {
                Some(s) => Some(s.clone()),
                None => None,
            },
        }
    }
}

/// Clones an optional string; the view is preserved.
fn clone_opt_string(s: &Option<String>) -> (r: Option<String>)
    ensures
        r == *s,
{
    match s {
        Some(v) => Some(v.clone()),
        None => None,
    }
}

impl Task {
    /// The queue the record selects.
    pub fn get_queue(&self) -> (r: usize)
        ensures
            r == self@.queue,
    {
        self.queue
    }

    /// The kind of the record.
    pub fn kind(&self) -> (r: TaskType)
        ensures
            r == TaskType::spec_from_code(self@.task_type),
    {
        TaskType::from_code(self.task_type)
    }

    /// Whether the record is due at `now` (milliseconds since epoch).
    pub fn should_run_now(&self, now: i64) -> (r: bool)
        ensures
            r == spec_due(self@, now as int),
    {
        match &self.eta {
            None => true,
            Some(e) => (*e as i128) < (now as i128) + (DISPATCH_TOLERANCE_MS as i128),
        }
    }

    /// Whether the policy asks for another instance after the current one.
    pub fn should_reschedule(&self) -> (r: bool)
        ensures
            r == spec_should_reschedule(self@),
    {
        match &self.settings {
            None => false,
            Some(s) => {
                let interval_ok = match s.repeat_interval {
                    Some(k) => k > 0,
                    None => false,
                };
                let retries_ok = match s.retries {
                    Some(r) => r == INFINITE_RETRIES || r > 0,
                    None => true,
                };
                interval_ok && retries_ok
            },
        }
    }

    /// The next instance of the recurring record.
    pub fn get_next(&self) -> (r: Task)
        requires
            spec_should_reschedule(self@),
            task_wf(self@),
        ensures
            r@ == spec_next(self@),
    {
        let settings = match &self.settings {
            Some(s) => s,
            None => unreached(),
        };
        let interval = match settings.repeat_interval {
            Some(k) => k,
            None => unreached(),
        };
        let eta = match self.eta {
            Some(e) => Some(e + (interval as i64) * 1000),
            None => None,
        };
        let next_settings = TaskSettings {
            retries: match settings.retries {
                Some(r) => if r > 0 {
                    Some(r - 1)
                } else {
                    Some(r)
                },
                None => None,
            },
            repeat_interval: settings.repeat_interval,
            url: clone_opt_string(&settings.url),
            headers: clone_opt_string(&settings.headers),
            method: clone_opt_string(&settings.method),
            function_name: clone_opt_string(&settings.function_name),
        };
        Task {
            queue: self.queue,
            id: self.id.clone(),
            eta,
            task_type: self.task_type,
            payload: clone_opt_string(&self.payload),
            settings: Some(next_settings),
        }
    }

    /// Whether the record orders no later than `other`: the total order
    /// on `eta` that the queues dispatch by.
    pub fn ranks_no_later(&self, other: &Task) -> (r: bool)
        ensures
            r == (eta_key(self@) <= eta_key(other@)),
    {
        match (&self.eta, &other.eta) {
            (None, _) => true,
            (Some(_), None) => false,
            (Some(a), Some(b)) => *a <= *b,
        }
    }
}

/// The `n`th instance of a recurring chain: `spec_next` applied `n`
/// times to the admitted task.
pub open spec fn spec_next_n(t: TaskView, n: nat) -> TaskView
    decreases n,
{
    if n == 0 {
        t
    } else {
        spec_next(spec_next_n(t, (n - 1) as nat))
    }
}

/// The `eta` that instance `n` of the recurring chain of `t` carries:
/// spaced `n` intervals after the admitted `eta`, or absent with it.
pub open spec fn chain_eta(t: TaskView, n: int) -> Option<int> {
    match t.eta {
        Some(e) => Some(e + n * t.settings->0.repeat_interval->0 * 1000),
        None => None,
    }
}

/// The policy `s` with its retry count replaced by `r`.
pub open spec fn with_retries(s: SettingsView, r: Option<int>) -> SettingsView {
    SettingsView { retries: r, ..s }
}

/// Law: a task with a positive repeat interval `k` and finite positive
/// retries `r` produces a chain of exactly `r + 1` instances. Instance
/// `i` (for `0 <= i <= r`) keeps the queue, id, kind and payload of the
/// admitted task, carries `r - i` remaining retries, has its `eta`
/// spaced `i * k` seconds after the admitted one, and asks for another
/// instance exactly when `i < r`.
pub proof fn lemma_finite_chain(t: TaskView, i: int)
    requires
        (t.settings matches Some(s) && s.repeat_interval matches Some(k) && k > 0),
        (t.settings->0.retries matches Some(r) && r > 0),
        0 <= i <= t.settings->0.retries->0,
    ensures
        spec_next_n(t, i as nat).queue == t.queue,
        spec_next_n(t, i as nat).id == t.id,
        spec_next_n(t, i as nat).task_type == t.task_type,
        spec_next_n(t, i as nat).payload == t.payload,
        spec_next_n(t, i as nat).settings == Some(
            with_retries(t.settings->0, Some(t.settings->0.retries->0 - i)),
        ),
        spec_next_n(t, i as nat).eta == chain_eta(t, i),
        spec_should_reschedule(spec_next_n(t, i as nat)) <==> i < t.settings->0.retries->0,
    decreases i,
{
    if i > 0 {
        lemma_finite_chain(t, i - 1);
        let prev = spec_next_n(t, (i - 1) as nat);
        assert(spec_next_n(t, i as nat) == spec_next(prev));
        if t.eta is Some {
            let k = t.settings->0.repeat_interval->0;
            assert((i - 1) * k * 1000 + k * 1000 == i * k * 1000) by (nonlinear_arith);
        }
    }
}

/// Law: the reschedule chain of a task with finite positive retries `r`
/// ends exactly after `r` derivations: the `r`th instance has zero
/// retries left and does not reschedule, while every earlier one does.
pub proof fn lemma_finite_chain_terminates(t: TaskView)
    requires
        (t.settings matches Some(s) && s.repeat_interval matches Some(k) && k > 0),
        (t.settings->0.retries matches Some(r) && r > 0),
    ensures
        forall|i: int|
            0 <= i < t.settings->0.retries->0
                ==> spec_should_reschedule(#[trigger] spec_next_n(t, i as nat)),
        !spec_should_reschedule(spec_next_n(t, t.settings->0.retries->0 as nat)),
        spec_next_n(t, t.settings->0.retries->0 as nat).settings->0.retries == Some(0int),
{
    let r = t.settings->0.retries->0;
    assert forall|i: int| 0 <= i < r implies spec_should_reschedule(
        #[trigger] spec_next_n(t, i as nat),
    ) by {
        lemma_finite_chain(t, i);
    }
    lemma_finite_chain(t, r);
}

/// Law: a task with a positive repeat interval `k` and the infinite
/// retry sentinel (or no retry count at all) reschedules forever: every
/// instance of the chain keeps the policy and the identity of the
/// admitted task, its `eta` is spaced `n * k` seconds after the admitted
/// one, and every instance asks for another.
pub proof fn lemma_infinite_chain(t: TaskView, n: nat)
    requires
        (t.settings matches Some(s) && s.repeat_interval matches Some(k) && k > 0),
        (t.settings->0.retries is None || t.settings->0.retries == Some(INFINITE_RETRIES as int)),
    ensures
        spec_next_n(t, n).queue == t.queue,
        spec_next_n(t, n).id == t.id,
        spec_next_n(t, n).task_type == t.task_type,
        spec_next_n(t, n).payload == t.payload,
        spec_next_n(t, n).settings == t.settings,
        spec_next_n(t, n).eta == chain_eta(t, n as int),
        spec_should_reschedule(spec_next_n(t, n)),
    decreases n,
{
    if n > 0 {
        lemma_infinite_chain(t, (n - 1) as nat);
        if t.eta is Some {
            let k = t.settings->0.repeat_interval->0;
            assert((n - 1) * k * 1000 + k * 1000 == n * k * 1000) by (nonlinear_arith);
        }
    }
}

} // verus!
