//! The worker's decisions: what a due task asks to be done, planned
//! from its kind and policy. The side effects themselves (the HTTP
//! request, the embedded host call) stay with the caller, which hands
//! the plan to the outside world.

use vstd::prelude::*;

use crate::codec::spec_parse_string_map;
use crate::codec::parse_string_map;
use crate::task::SettingsView;
use crate::task::Task;
use crate::utils::view_pairs;

verus! {

/// The HTTP method of an `Api` task; any unrecognized name falls back
/// to `OPTIONS`.
#[derive(Clone, Copy, PartialEq, Eq, Structural, Debug)]
pub enum HttpMethod {
    Get,
    Post,
    Put,
    Patch,
    Delete,
    Options,
}

/// The method a (case-sensitive) name denotes.
pub open spec fn spec_method_of(s: Seq<char>) -> HttpMethod {
    if s == "GET"@ {
        HttpMethod::Get
    } else if s == "POST"@ {
        HttpMethod::Post
    } else if s == "DELETE"@ {
        HttpMethod::Delete
    } else if s == "PUT"@ {
        HttpMethod::Put
    } else if s == "PATCH"@ {
        HttpMethod::Patch
    } else {
        HttpMethod::Options
    }
}

/// The HTTP method named by `method`.
pub fn get_method(method: &str) -> (m: HttpMethod)
    ensures
        m == spec_method_of(method@),
{
    let v = crate::text::str_to_chars(method);
    if crate::codec::chars_eq_lit(&v, "GET") {
        HttpMethod::Get
    } else if crate::codec::chars_eq_lit(&v, "POST") {
        HttpMethod::Post
    } else if crate::codec::chars_eq_lit(&v, "DELETE") {
        HttpMethod::Delete
    } else if crate::codec::chars_eq_lit(&v, "PUT") {
        HttpMethod::Put
    } else if crate::codec::chars_eq_lit(&v, "PATCH") {
        HttpMethod::Patch
    } else {
        HttpMethod::Options
    }
}

/// The header pairs carried by `headers`, a JSON object of string to
/// string; `None` when it is not one.
pub fn get_headers(headers: &str) -> (r: Option<Vec<(String, String)>>)
    ensures
        (match r {
            Some(pairs) => spec_parse_string_map(headers@) == Some(view_pairs(pairs@)),
            None => spec_parse_string_map(headers@) is None,
        }),
{
    parse_string_map(headers)
}

/// A planned outbound HTTP request: what the caller performs for an
/// `Api` task.
pub struct RequestPlan {
    /// The method, `OPTIONS` when the policy names none or an unknown one.
    pub method: HttpMethod,
    /// The target, empty when the policy names none.
    pub url: String,
    /// The decoded header pairs, empty when the policy carries none.
    pub headers: Vec<(String, String)>,
    /// The body: the task's payload.
    pub body: Option<String>,
}

/// What the worker does with one due task.
pub enum TaskAction {
    /// Perform this HTTP request.
    Request(RequestPlan),
    /// Nothing: `Tcp` (reserved) and `Other` tasks succeed as no-ops.
    Noop,
}

/// The header text an `Api` task carries: its policy's `headers`
/// field, or `{}` when absent.
pub open spec fn spec_header_text(st: SettingsView) -> Seq<char> {
    match st.headers {
        Some(h) => h,
        None => "{}"@,
    }
}

/// Whether an `Api` task's request can be planned: it has a policy,
/// and its header text is a JSON object of string to string.
pub open spec fn spec_plannable(t: crate::task::TaskView) -> bool {
    &&& t.settings is Some
    &&& spec_parse_string_map(spec_header_text(t.settings->0)) is Some
}

/// Plans the request of an `Api` task. Fails exactly when the task
/// carries no policy, or headers that are not a JSON object of string
/// to string; such a failure is logged per task, never fatal.
pub fn plan_request(t: &Task) -> (r: Result<RequestPlan, String>)
    ensures
        r is Ok <==> spec_plannable(t@),
        (r matches Ok(plan) ==> {
            let st = t@.settings->0;
            &&& plan.method == spec_method_of(
                match st.method {
                    Some(m) => m,
                    None => Seq::<char>::empty(),
                },
            )
            &&& plan.url@ == match st.url {
                Some(u) => u,
                None => Seq::<char>::empty(),
            }
            &&& Some(view_pairs(plan.headers@)) == spec_parse_string_map(spec_header_text(st))
            &&& crate::task::view_opt_string(plan.body) == t@.payload
        }),
{
    let settings = match &t.settings {
        Some(s) => s,
        None => {
            return Err(String::from_str("an api task must carry settings"));
        },
    };
    let header_text: String = match &settings.headers {
        Some(h) => h.clone(),
        None => {
            let empty = String::from_str("{}");
            proof {
                reveal_strlit("{}");
                assert(empty@ == spec_header_text(t@.settings->0));
            }
            empty
        },
    };
    let headers = match get_headers(header_text.as_str()) {
        Some(pairs) => pairs,
        None => {
            return Err(String::from_str("api task headers must map strings to strings"));
        },
    };
    let method_name: String = match &settings.method {
        Some(m) => m.clone(),
        None => String::new(),
    };
    let url: String = match &settings.url {
        Some(u) => u.clone(),
        None => String::new(),
    };
    let body = match &t.payload {
        Some(p) => Some(p.clone()),
        None => None,
    };
    Ok(RequestPlan { method: get_method(method_name.as_str()), url, headers, body })
}

/// Decides what one due task asks of a worker running outside
/// host-call mode. `Tcp` and unknown kinds are no-ops; a `HostCall`
/// task is an error here, since only a host-call worker can run one;
/// an `Api` task becomes a request plan, or the error its policy
/// earns.
pub fn process_task(t: &Task) -> (r: Result<TaskAction, String>)
    ensures
        t@.task_type == 1 ==> (r is Ok <==> spec_plannable(t@)) && (r matches Ok(a) ==> a
            is Request),
        t@.task_type == 3 ==> r is Err,
        (t@.task_type != 1 && t@.task_type != 3) ==> (r matches Ok(a) && a is Noop),
{
    if t.task_type == 1 {
        match plan_request(t) {
            Ok(plan) => Ok(TaskAction::Request(plan)),
            Err(e) => Err(e),
        }
    } else if t.task_type == 2 {
        Ok(TaskAction::Noop)
    } else if t.task_type == 3 {
        Err(
            String::from_str(
                "host-call tasks run only inside a host-call worker; start one with --app host-call",
            ),
        )
    } else {
        Ok(TaskAction::Noop)
    }
}

/// The two worker configurations, chosen at startup and mutually
/// exclusive.
#[derive(Clone, Copy, PartialEq, Eq, Structural, Debug)]
pub enum WorkerMode {
    /// Each task runs in its own concurrent subtask.
    Generic,
    /// Tasks run serially on the embedded host's single thread.
    HostCall,
}

/// The worker mode the `--app` flag selects.
pub fn worker_mode(app: &str) -> (m: WorkerMode)
    ensures
        m == (if app@ == "host-call"@ {
            WorkerMode::HostCall
        } else {
            WorkerMode::Generic
        }),
{
    let v = crate::text::str_to_chars(app);
    if crate::codec::chars_eq_lit(&v, "host-call") {
        WorkerMode::HostCall
    } else {
        WorkerMode::Generic
    }
}

/// The callable a `HostCall` task names in its policy. Fails exactly
/// when the task carries no policy or the policy names no callable.
pub fn host_call_target(t: &Task) -> (r: Result<String, String>)
    ensures
        (r is Ok <==> (t@.settings is Some && t@.settings->0.function_name is Some)),
        (r matches Ok(name) ==> Some(name@) == t@.settings->0.function_name),
{
    match &t.settings {
        Some(s) => match &s.function_name {
            Some(name) => Ok(name.clone()),
            None => Err(String::from_str("a host-call task must name its callable")),
        },
        None => Err(String::from_str("a host-call task must carry settings")),
    }
}

} // verus!
