use spooler::Task;
use spooler::TaskSettings;
use spooler::TaskType;
use spooler::utils::get_app_settings;
use spooler::utils::get_i64_from_settings;
use spooler::utils::get_string_from_settings;
use spooler::utils::get_usize_from_settings;
use spooler::worker::get_headers;
use spooler::worker::get_method;
use spooler::worker::host_call_target;
use spooler::worker::plan_request;
use spooler::worker::process_task;
use spooler::worker::worker_mode;
use spooler::worker::HttpMethod;
use spooler::worker::TaskAction;
use spooler::worker::WorkerMode;

fn api_task(settings: Option<TaskSettings>) -> Task {
    Task {
        queue: 0,
        id: String::from("api"),
        eta: None,
        task_type: 1,
        payload: Some(String::from("body")),
        settings,
    }
}

fn full_settings() -> TaskSettings {
    TaskSettings {
        repeat_interval: None,
        retries: None,
        url: Some(String::from("http://example.test/endpoint")),
        headers: Some(String::from("{\"x-a\":\"1\",\"x-b\":\"2\"}")),
        method: Some(String::from("POST")),
        function_name: None,
    }
}

#[test]
fn method_names_map_exactly() {
    assert_eq!(get_method("GET"), HttpMethod::Get);
    assert_eq!(get_method("POST"), HttpMethod::Post);
    assert_eq!(get_method("PUT"), HttpMethod::Put);
    assert_eq!(get_method("PATCH"), HttpMethod::Patch);
    assert_eq!(get_method("DELETE"), HttpMethod::Delete);
    assert_eq!(get_method("get"), HttpMethod::Options);
    assert_eq!(get_method(""), HttpMethod::Options);
    assert_eq!(get_method("HEAD"), HttpMethod::Options);
}

#[test]
fn headers_parse_to_pairs() {
    let pairs = get_headers("{\"a\":\"1\",\"b\":\"2\"}").unwrap();
    assert_eq!(pairs.len(), 2);
    assert_eq!(pairs[0].0, "a");
    assert_eq!(pairs[0].1, "1");
    assert_eq!(pairs[1].0, "b");
    assert_eq!(pairs[1].1, "2");
    assert!(get_headers("{}").unwrap().is_empty());
    assert!(get_headers("{\"a\":1}").is_none());
    assert!(get_headers("[]").is_none());
    assert!(get_headers("").is_none());
}

#[test]
fn plans_request_from_policy() {
    let plan = plan_request(&api_task(Some(full_settings()))).unwrap();
    assert_eq!(plan.method, HttpMethod::Post);
    assert_eq!(plan.url, "http://example.test/endpoint");
    assert_eq!(plan.headers.len(), 2);
    assert_eq!(plan.body.as_deref(), Some("body"));
}

#[test]
fn plan_defaults_when_policy_is_sparse() {
    let sparse = TaskSettings {
        repeat_interval: None,
        retries: None,
        url: None,
        headers: None,
        method: None,
        function_name: None,
    };
    let plan = plan_request(&api_task(Some(sparse))).unwrap();
    assert_eq!(plan.method, HttpMethod::Options);
    assert_eq!(plan.url, "");
    assert!(plan.headers.is_empty());
}

#[test]
fn plan_fails_without_settings() {
    assert!(plan_request(&api_task(None)).is_err());
}

#[test]
fn plan_fails_on_bad_headers() {
    let mut s = full_settings();
    s.headers = Some(String::from("{\"a\":3}"));
    assert!(plan_request(&api_task(Some(s))).is_err());
}

#[test]
fn process_task_by_kind() {
    assert!(matches!(
        process_task(&api_task(Some(full_settings()))),
        Ok(TaskAction::Request(_))
    ));
    let mut t = api_task(None);
    t.task_type = 2;
    assert!(matches!(process_task(&t), Ok(TaskAction::Noop)));
    t.task_type = 3;
    assert!(process_task(&t).is_err());
    t.task_type = 4;
    assert!(matches!(process_task(&t), Ok(TaskAction::Noop)));
    t.task_type = 0;
    assert!(matches!(process_task(&t), Ok(TaskAction::Noop)));
    t.task_type = 1;
    assert!(process_task(&t).is_err());
}

#[test]
fn task_type_codes_round_trip() {
    assert_eq!(api_task(None).kind(), TaskType::Api);
    assert_eq!(TaskType::from_code(1), TaskType::Api);
    assert_eq!(TaskType::from_code(2), TaskType::Tcp);
    assert_eq!(TaskType::from_code(3), TaskType::HostCall);
    assert_eq!(TaskType::from_code(4), TaskType::Other);
    assert_eq!(TaskType::from_code(-9), TaskType::Other);
    for kind in [TaskType::Api, TaskType::Tcp, TaskType::HostCall, TaskType::Other] {
        assert_eq!(TaskType::from_code(kind.code()), kind);
    }
}

#[test]
fn worker_mode_from_flag() {
    assert_eq!(worker_mode("host-call"), WorkerMode::HostCall);
    assert_eq!(worker_mode("generic"), WorkerMode::Generic);
    assert_eq!(worker_mode(""), WorkerMode::Generic);
    assert_eq!(worker_mode("python"), WorkerMode::Generic);
}

#[test]
fn host_call_target_needs_a_name() {
    let mut t = api_task(None);
    t.task_type = 3;
    assert!(host_call_target(&t).is_err());
    let mut s = full_settings();
    assert!(host_call_target(&Task { settings: Some(s.clone()), ..t.clone() }).is_err());
    s.function_name = Some(String::from("run_job"));
    assert_eq!(
        host_call_target(&Task { settings: Some(s), ..t }).unwrap(),
        "run_job"
    );
}

#[test]
fn settings_pair_flags_with_values() {
    let args: Vec<String> = ["spooler", "--port", "9000", "--queues", "4", "stray", "--app"]
        .iter()
        .map(|s| String::from(*s))
        .collect();
    let settings = get_app_settings(args);
    assert_eq!(settings.len(), 2);
    assert_eq!(settings[0].0, "--port");
    assert_eq!(settings[0].1, "9000");
    assert_eq!(settings[1].0, "--queues");
    assert_eq!(settings[1].1, "4");
}

#[test]
fn settings_lookups_and_defaults() {
    let args: Vec<String> = ["--port", "9000", "--offset", "-45", "--port", "9001"]
        .iter()
        .map(|s| String::from(*s))
        .collect();
    let settings = get_app_settings(args);
    assert_eq!(
        get_usize_from_settings(&settings, String::from("--port"), String::from("8080")),
        9001
    );
    assert_eq!(
        get_usize_from_settings(&settings, String::from("--queues"), String::from("1")),
        1
    );
    assert_eq!(
        get_string_from_settings(&settings, String::from("--host"), String::from("localhost")),
        "localhost"
    );
    assert_eq!(
        get_string_from_settings(&settings, String::from("--port"), String::from("8080")),
        "9001"
    );
    assert_eq!(get_i64_from_settings(&settings, &String::from("--offset")), -45);
}
