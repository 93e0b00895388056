use zebar_desktop::cli::OpenWindowArgs;
use zebar_desktop::json::{encode_pairs, encode_str, json_object};
use zebar_desktop::window_factory::{OpenError, WindowFactory, WindowState, WINDOW_SIZE};

fn pair(k: &str, v: &str) -> (String, String) {
    (k.to_string(), v.to_string())
}

fn request(id: &str, args: Option<Vec<(String, String)>>) -> OpenWindowArgs {
    OpenWindowArgs { window_id: id.to_string(), args }
}

/// Runs one open attempt to its end, with the given toolkit outcome.
fn open(
    factory: &mut WindowFactory,
    req: &OpenWindowArgs,
    env: &Vec<(String, String)>,
    toolkit_ok: bool,
) -> u32 {
    let n = factory.begin_open().expect("counter has room");
    let outcome = if toolkit_ok {
        Ok(WindowFactory::window_state(req, n, env))
    } else {
        Err(OpenError::Construction("window creation failed".to_string()))
    };
    factory.complete_open(n, outcome);
    n
}

#[test]
fn first_open_gets_label_one() {
    let mut factory = WindowFactory::new();
    let req = request("bar", Some(vec![pair("label", "main")]));
    let n = open(&mut factory, &req, &vec![pair("HOME", "/root")], true);
    assert_eq!(n, 1);
    let state = factory.state_by_window_label("1-bar".to_string()).expect("registered");
    assert_eq!(state.window_id, "bar");
    assert_eq!(state.window_label, "1-bar");
    assert_eq!(state.args, vec![pair("label", "main")]);
    assert_eq!(state.env, vec![pair("HOME", "/root")]);
}

#[test]
fn same_window_twice_gets_two_records() {
    let mut factory = WindowFactory::new();
    let req = request("bar", None);
    let a = factory.begin_open().unwrap();
    let b = factory.begin_open().unwrap();
    assert_ne!(a, b);
    let sb = WindowFactory::window_state(&req, b, &vec![]);
    let sa = WindowFactory::window_state(&req, a, &vec![]);
    assert!(factory.is_pending(a) && factory.is_pending(b));
    assert!(factory.state_by_window_label("1-bar".to_string()).is_none());
    factory.complete_open(b, Ok(sb));
    assert!(factory.is_pending(a) && !factory.is_pending(b));
    factory.complete_open(a, Ok(sa));
    assert!(!factory.is_pending(a));
    assert_eq!(factory.len(), 2);
    let one = factory.state_by_window_label("1-bar".to_string()).unwrap();
    let two = factory.state_by_window_label("2-bar".to_string()).unwrap();
    assert_eq!(one.window_label, "1-bar");
    assert_eq!(two.window_label, "2-bar");
    assert!(one.args.is_empty() && two.args.is_empty());
}

#[test]
fn failed_open_leaves_registry_unchanged() {
    let mut factory = WindowFactory::new();
    let req = request("bar", None);
    open(&mut factory, &req, &vec![], true);
    assert_eq!(factory.len(), 1);
    let n = open(&mut factory, &req, &vec![], false);
    assert_eq!(n, 2);
    assert_eq!(factory.len(), 1);
    assert!(factory.state_by_window_label("2-bar".to_string()).is_none());
    assert_eq!(factory.window_count(), 2);
    let next = open(&mut factory, &req, &vec![], true);
    assert_eq!(next, 3);
    assert!(factory.state_by_window_label("3-bar".to_string()).is_some());
}

#[test]
fn complete_open_hands_back_error() {
    let mut factory = WindowFactory::new();
    let n = factory.begin_open().unwrap();
    assert!(factory.is_pending(n));
    let r = factory.complete_open(n, Err(OpenError::Serialization));
    assert!(matches!(r, Some(OpenError::Serialization)));
    assert_eq!(factory.len(), 0);
    assert!(!factory.is_pending(n));
    assert!(!factory.is_pending(n + 1));
}

#[test]
fn lookup_is_stable_and_unknown_is_none() {
    let mut factory = WindowFactory::new();
    assert!(factory.state_by_window_label("1-bar".to_string()).is_none());
    let req = request("bar", Some(vec![pair("k", "v")]));
    open(&mut factory, &req, &vec![], true);
    let a = factory.state_by_window_label("1-bar".to_string()).unwrap();
    let b = factory.state_by_window_label("1-bar".to_string()).unwrap();
    assert_eq!(a.window_id, b.window_id);
    assert_eq!(a.window_label, b.window_label);
    assert_eq!(a.args, b.args);
    assert_eq!(a.env, b.env);
    assert!(factory.state_by_window_label("bar".to_string()).is_none());
    assert!(factory.state_by_window_label("2-bar".to_string()).is_none());
}

#[test]
fn duplicate_launch_arguments_last_wins() {
    let req = request("w", Some(vec![pair("a", "1"), pair("a", "2")]));
    let state = WindowFactory::window_state(&req, 5, &vec![pair("E", "x"), pair("E", "y")]);
    assert_eq!(state.window_label, "5-w");
    assert_eq!(state.args, vec![pair("a", "2")]);
    assert_eq!(state.env, vec![pair("E", "y")]);
}

#[test]
fn plan_has_fixed_presentation() {
    let req = request("bar", None);
    let plan = WindowFactory::plan_open(&req, 7);
    assert_eq!(plan.label, "7-bar");
    assert_eq!(plan.title, "Zebar - bar");
    assert_eq!((plan.width, plan.height), (WINDOW_SIZE, WINDOW_SIZE));
    assert_eq!(WINDOW_SIZE, 500);
    assert!(!plan.focused && plan.skip_taskbar && plan.visible_on_all_workspaces);
    assert!(plan.transparent && !plan.shadow && !plan.decorations && !plan.resizable);
    assert!(plan.tool_window);
}

#[test]
fn copy_keeps_every_field() {
    let state = WindowState {
        window_id: "a".to_string(),
        window_label: "1-a".to_string(),
        args: vec![pair("x", "y")],
        env: vec![pair("P", "Q")],
    };
    let c = state.copy();
    assert_eq!(c.window_id, "a");
    assert_eq!(c.window_label, "1-a");
    assert_eq!(c.args, state.args);
    assert_eq!(c.env, state.env);
}

#[test]
fn encode_str_escapes() {
    assert_eq!(encode_str("a\"b"), "\"a\\\"b\"");
    assert_eq!(encode_str(""), "\"\"");
    assert_eq!(encode_str("line\n"), "\"line\\n\"");
    assert_eq!(encode_str("\u{1}\u{1f}\u{8}\u{c}\t\r\\"), "\"\\u0001\\u001f\\b\\f\\t\\r\\\\\"");
    assert_eq!(encode_str("é/\u{7f}"), "\"é/\u{7f}\"");
}

#[test]
fn json_object_frames_members() {
    assert_eq!(json_object(&vec![]), "{}");
    let m = vec![pair("\"a\"", "1"), pair("\"b\"", "{}")];
    assert_eq!(json_object(&m), "{\"a\":1,\"b\":{}}");
}

#[test]
fn state_json_round_trips() {
    let req = request("bar", Some(vec![pair("label", "main"), pair("q\"uote", "a\\b")]));
    let env = vec![pair("PATH", "/bin:/usr/bin"), pair("LANG", "C.UTF-8")];
    let state = WindowFactory::window_state(&req, 1, &env);
    let json = WindowFactory::state_to_json(&state).unwrap();
    let v: serde_json::Value = serde_json::from_str(&json).unwrap();
    assert_eq!(v["windowId"].as_str(), Some("bar"));
    assert_eq!(v["windowLabel"].as_str(), Some("1-bar"));
    let args = v["args"].as_object().unwrap();
    assert_eq!(args.len(), 2);
    assert_eq!(args["label"].as_str(), Some("main"));
    assert_eq!(args["q\"uote"].as_str(), Some("a\\b"));
    let e = v["env"].as_object().unwrap();
    assert_eq!(e.len(), 2);
    assert_eq!(e["PATH"].as_str(), Some("/bin:/usr/bin"));
    assert_eq!(e["LANG"].as_str(), Some("C.UTF-8"));
}

#[test]
fn init_script_assigns_global() {
    let state = WindowFactory::window_state(&request("bar", None), 1, &vec![]);
    let script = WindowFactory::init_script(&state).unwrap();
    assert_eq!(
        script,
        "window.__ZEBAR_OPEN_ARGS={\"windowId\":\"bar\",\"windowLabel\":\"1-bar\",\"args\":{},\"env\":{}}"
    );
}

#[test]
fn encode_pairs_encodes_keys_and_values() {
    let v = encode_pairs(&vec![pair("k", "v\"")]);
    assert_eq!(v, vec![pair("\"k\"", "\"v\\\"\"")]);
}

#[test]
fn many_opens_keep_one_record_per_success() {
    let mut factory = WindowFactory::new();
    let req = request("bar", None);
    let mut numbers = Vec::new();
    for i in 0..10u32 {
        numbers.push(open(&mut factory, &req, &vec![], i % 3 != 0));
    }
    assert_eq!(numbers, (1..=10).collect::<Vec<u32>>());
    assert_eq!(factory.window_count(), 10);
    assert_eq!(factory.len(), 6);
    for n in 1..=10u32 {
        let found = factory.state_by_window_label(format!("{}-bar", n));
        assert_eq!(found.is_some(), (n - 1) % 3 != 0);
        assert!(!factory.is_pending(n));
    }
}
