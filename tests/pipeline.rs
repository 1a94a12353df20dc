use enum_dir::args::{default_output_name, get_suffix_from_cli, method_from_upper, normalize_method, AppArgs};
use enum_dir::context::{AppContext, EnumResult, WorkerStatus};
use enum_dir::engine::{
    black_word_list, contains_any_word, decimal_string, header_pairs, is_found, parse_header, plan_request,
    prepare_request, result_line, retry_step, saver_step, worker_step, RetryStep, SaverAction, WorkerAction,
};
use enum_dir::enumerate::EnumCursor;

fn strings(v: &[&str]) -> Vec<String> {
    v.iter().map(|s| s.to_string()).collect()
}

fn pair(a: &str, b: &str) -> (String, String) {
    (a.to_string(), b.to_string())
}

fn result(code: u16, url: &str, content: Option<&str>) -> EnumResult {
    EnumResult { status_code: code, url: url.to_string(), content: content.map(|c| c.to_string()) }
}

#[test]
fn header_without_colon_is_skipped() {
    assert_eq!(parse_header("X-Test"), None);
    assert_eq!(header_pairs(&strings(&["X-Test", "A: b", "X-Other"])), vec![pair("A", "b")]);
}

#[test]
fn header_splits_at_first_colon() {
    assert_eq!(parse_header(" Key :  a:b "), Some(pair("Key", "a:b")));
    assert_eq!(parse_header(":"), Some(pair("", "")));
}

#[test]
fn malformed_header_not_in_request() {
    let args = AppArgs {
        target: "http://example.com/".to_string(),
        request_method: "HEAD".to_string(),
        headers: strings(&["X-Test", "Accept: */*"]),
        cookies: Some("sid=1".to_string()),
        ..Default::default()
    };
    let plan = plan_request(&args, "admin", None);
    assert_eq!(plan.url, "http://example.com/admin");
    assert_eq!(plan.method, "HEAD");
    assert_eq!(plan.headers, vec![pair("Accept", "*/*"), pair("Cookie", "sid=1")]);
    assert!(plan.headers.iter().all(|(k, _)| k != "X-Test"));
}

#[test]
fn drawn_user_agent_leads_headers() {
    let args = AppArgs { target: "http://h/".to_string(), ..Default::default() };
    let plan = plan_request(&args, "x", Some("UA/1".to_string()));
    assert_eq!(plan.headers, vec![pair("User-Agent", "UA/1")]);
}

#[test]
fn random_user_agent_comes_from_list() {
    let args = AppArgs {
        target: "http://h/".to_string(),
        random_user_agent: true,
        user_agent_list: strings(&["A/1", "B/2"]),
        ..Default::default()
    };
    for _ in 0..20 {
        let plan = prepare_request(&args, "p");
        assert_eq!(plan.url, "http://h/p");
        assert_eq!(plan.headers.len(), 1);
        assert_eq!(plan.headers[0].0, "User-Agent");
        assert!(plan.headers[0].1 == "A/1" || plan.headers[0].1 == "B/2");
    }
    let fixed = AppArgs { target: "http://h/".to_string(), ..Default::default() };
    assert!(prepare_request(&fixed, "p").headers.is_empty());
}

#[test]
fn scenario_length_one_head() {
    let args = AppArgs {
        target: "http://example.com/".to_string(),
        length: 1,
        suffix: "".to_string(),
        empty_suffix: false,
        request_method: "HEAD".to_string(),
        http_retries: 2,
        ..Default::default()
    };
    let sfx = get_suffix_from_cli(&args);
    let mut cursor = EnumCursor::new(args.length, args.fixed_length, sfx);
    let mut urls = Vec::new();
    while let Some(c) = cursor.next() {
        let plan = prepare_request(&args, &c);
        assert_eq!(plan.method, "HEAD");
        assert_eq!(retry_step(0, args.http_retries, None), RetryStep::Send);
        assert_eq!(retry_step(1, args.http_retries, Some(200)), RetryStep::Record(200));
        urls.push(plan.url);
    }
    assert_eq!(urls.len(), 62);
    assert_eq!(urls[0], "http://example.com/a");
    assert_eq!(urls[30], "http://example.com/E");
    assert_eq!(urls[61], "http://example.com/9");
}

#[test]
fn retry_decisions() {
    assert_eq!(retry_step(0, 2, None), RetryStep::Send);
    assert_eq!(retry_step(1, 2, None), RetryStep::Send);
    assert_eq!(retry_step(2, 2, None), RetryStep::GiveUp);
    assert_eq!(retry_step(0, 0, None), RetryStep::GiveUp);
    assert_eq!(retry_step(1, 2, Some(404)), RetryStep::Record(404));
}

#[test]
fn worker_decisions() {
    assert_eq!(worker_step(Some("a".to_string()), true), WorkerAction::Probe("a".to_string()));
    assert_eq!(worker_step(None, false), WorkerAction::Poll);
    assert_eq!(worker_step(None, true), WorkerAction::Exit);
}

#[test]
fn not_found_is_never_written() {
    let none: Vec<String> = Vec::new();
    for url in ["http://a/", "http://a/x", ""] {
        assert_eq!(saver_step(Some(result(404, url, None)), true, &none), SaverAction::Discard);
        assert_eq!(saver_step(Some(result(404, url, Some("ok"))), false, &none), SaverAction::Discard);
    }
}

#[test]
fn found_result_is_written() {
    let none: Vec<String> = Vec::new();
    assert_eq!(
        saver_step(Some(result(200, "http://example.com/a", None)), true, &none),
        SaverAction::Write("200 http://example.com/a\n".to_string())
    );
    assert_eq!(result_line(&result(0, "u", None)), "0 u\n");
    assert_eq!(result_line(&result(65535, "u", None)), "65535 u\n");
    assert_eq!(decimal_string(301), "301");
}

#[test]
fn blacklisted_body_is_discarded() {
    let words = black_word_list(&Some(" not found , ,gone".to_string()));
    assert_eq!(words, strings(&["not found", "gone"]));
    assert!(contains_any_word("page not found here", &words));
    assert!(!contains_any_word("page found", &words));
    assert!(!is_found(&result(200, "u", Some("it is gone")), &words));
    assert!(is_found(&result(200, "u", Some("welcome")), &words));
    assert!(is_found(&result(200, "u", None), &words));
    assert!(black_word_list(&None).is_empty());
}

#[test]
fn sink_stops_after_single_worker() {
    let mut ctx = AppContext::new();
    ctx.set_builder(WorkerStatus::Running);
    let idx = ctx.add_worker();
    assert!(ctx.any_worker_running());
    let none: Vec<String> = Vec::new();
    assert_eq!(saver_step(None, ctx.any_worker_running(), &none), SaverAction::Wait);
    ctx.set_builder(WorkerStatus::Stop);
    assert_eq!(worker_step(None, ctx.builder_stopped()), WorkerAction::Exit);
    ctx.set_worker(idx, WorkerStatus::Stop);
    assert!(!ctx.any_worker_running());
    assert_eq!(saver_step(None, ctx.any_worker_running(), &none), SaverAction::Exit);
}

#[test]
fn status_never_goes_back() {
    let mut ctx = AppContext::new();
    assert_eq!(ctx.builder_status, WorkerStatus::Init);
    ctx.set_builder(WorkerStatus::Stop);
    ctx.set_builder(WorkerStatus::Running);
    assert_eq!(ctx.builder_status, WorkerStatus::Stop);
    ctx.set_saver(WorkerStatus::Running);
    ctx.set_saver(WorkerStatus::Init);
    assert_eq!(ctx.saver_status, WorkerStatus::Running);
    let i = ctx.add_worker();
    ctx.set_worker(i, WorkerStatus::Init);
    assert_eq!(ctx.worker_status, vec![WorkerStatus::Running]);
}

#[test]
fn method_is_upper_cased_and_checked() {
    assert_eq!(normalize_method("head", false), Some("HEAD".to_string()));
    assert_eq!(normalize_method("Post", false), Some("POST".to_string()));
    assert_eq!(normalize_method("fetch", false), None);
    assert_eq!(normalize_method("head", true), Some("GET".to_string()));
    assert_eq!(method_from_upper("head", false), None);
    assert_eq!(method_from_upper("TRACE", false), Some("TRACE".to_string()));
}

#[test]
fn output_name_from_target() {
    assert_eq!(default_output_name("https://example.com/"), "example.com.txt");
    assert_eq!(default_output_name("http://a.com/x/y/"), "a.com_x_y.txt");
    assert_eq!(default_output_name("http://10.0.0.1:8080/"), "10.0.0.1:8080.txt");
}
