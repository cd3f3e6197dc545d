//! The host tier: stores, microVM control and the query daemon.
use blitz::boot::{cmdline_val, ramp_plan, Boot, BootStep, Firecracker, WorkerSlot};
use blitz::queryd::{authorized, http_json, json_escape, parse_json_sql, Daemon, Reaction};
use blitz::store::{listing, open, LocalStore, S3Store, Warehouse};

#[test]
fn warehouses_by_address() {
    match open("file:///var/w") {
        Warehouse::Local(s) => assert_eq!(s.root, "/var/w"),
        Warehouse::S3(_) => panic!("a directory"),
    }
    match open("rel/dir") {
        Warehouse::Local(s) => assert_eq!(s.root, "rel/dir"),
        Warehouse::S3(_) => panic!("a directory"),
    }
    match open("s3://bucket//pre/fix/") {
        Warehouse::S3(s) => {
            assert_eq!(s.bucket, "bucket");
            assert_eq!(s.prefix, "pre/fix");
        }
        Warehouse::Local(_) => panic!("a bucket"),
    }
    match open("s3://only") {
        Warehouse::S3(s) => {
            assert_eq!(s.bucket, "only");
            assert_eq!(s.prefix, "");
        }
        Warehouse::Local(_) => panic!("a bucket"),
    }
}

#[test]
fn keys_resolve_inside_the_root() {
    let s = LocalStore::new("/root");
    assert_eq!(s.resolve("a/b.txt"), "/root/a/b.txt");
    assert_eq!(s.resolve("//a"), "/root/a");
}

#[test]
fn bucket_names_and_keys() {
    let s = S3Store::new("b", "/pre/");
    assert_eq!(s.full_key("/k/x"), "pre/k/x");
    assert_eq!(s.key("pre/k/x"), "k/x");
    assert_eq!(s.key("other/k"), "other/k");
    let bare = S3Store::new("b", "");
    assert_eq!(bare.full_key("k"), "k");
    assert_eq!(bare.key("k"), "k");
}

#[test]
fn listings_are_sorted() {
    let names = vec!["b\\c".to_string(), "a".to_string(), "b".to_string()];
    assert_eq!(listing(&names), vec!["a", "b", "b/c"]);
}

#[test]
fn firecracker_requests() {
    let f = Firecracker::connect("/run/x.sock");
    assert_eq!(f.api_sock, "/run/x.sock");
    assert_eq!(
        f.pause().text(),
        "PUT /vm HTTP/1.1\r\nHost: localhost\r\nContent-Type: application/json\r\nContent-Length: 18\r\nConnection: close\r\n\r\n{\"state\":\"Paused\"}"
    );
    assert_eq!(f.resume().body, "{\"state\":\"Resumed\"}");
    assert_eq!(
        f.snapshot_create("/a", "/b").body,
        "{\"snapshot_type\":\"Full\",\"snapshot_path\":\"/a\",\"mem_file_path\":\"/b\"}"
    );
    assert_eq!(
        f.snapshot_resume("/a", "/b", None).body,
        "{\"snapshot_path\":\"/a\",\"mem_backend\":{\"backend_type\":\"File\",\"backend_path\":\"/b\"},\"resume_vm\":true}"
    );
    assert_eq!(
        f.snapshot_resume("/a", "/b", Some("/u")).body,
        "{\"snapshot_path\":\"/a\",\"mem_backend\":{\"backend_type\":\"Uffd\",\"backend_path\":\"/u\"},\"resume_vm\":true}"
    );
    let boot = f.configure_and_boot("/k", "/r", 2, 512, "quiet");
    let paths: Vec<&str> = boot.iter().map(|r| r.path.as_str()).collect();
    assert_eq!(
        paths,
        vec!["/boot-source", "/drives/rootfs", "/machine-config", "/vsock", "/actions"]
    );
    assert_eq!(
        boot[2].body,
        "{\"vcpu_count\":2,\"mem_size_mib\":512,\"smt\":false}"
    );
}

#[test]
fn firecracker_answers() {
    let f = Firecracker::connect("s");
    let r = f.pause();
    assert_eq!(r.outcome("HTTP/1.1 204 No Content\r\n\r\n"), Ok(204));
    assert_eq!(r.outcome("garbage"), Ok(0));
    assert_eq!(
        r.outcome("HTTP/1.1 400 Bad"),
        Err("firecracker /vm -> 400: HTTP/1.1 400 Bad".to_string())
    );
}

#[test]
fn worker_slots() {
    let p = ramp_plan("/run/blitz", 2);
    assert_eq!(p.workers.len(), 2);
    assert_eq!(p.workers[1].api_sock, "/run/blitz/worker1.sock");
    assert_eq!(p.workers[1].vmstate, "/run/blitz/worker1.vmstate");
    assert_eq!(p.workers[0].mem, "/run/blitz/worker0.mem");
    assert_eq!(WorkerSlot::named("d", "coord").mem, "d/coord.mem");
}

#[test]
fn command_lines() {
    let line = "console=ttyS0 blitz.role=coordinator  blitz.coord=10.0.0.1:7311\n";
    assert_eq!(cmdline_val(line, "blitz.role").as_deref(), Some("coordinator"));
    assert_eq!(
        cmdline_val(line, "blitz.coord").as_deref(),
        Some("10.0.0.1:7311")
    );
    assert_eq!(cmdline_val(line, "blitz"), None);
}

#[test]
fn bodies_hold_queries() {
    let (sql, workers) = parse_json_sql("{\"sql\" : \"SELECT \\\"x\\\"\", \"workers\":3}").unwrap();
    assert_eq!(sql, "SELECT \"x\"");
    assert_eq!(workers, Some(3));
    let (sql, workers) = parse_json_sql("{\"sql\":\"q\",\"workers\": 3}").unwrap();
    assert_eq!(sql, "q");
    assert_eq!(workers, None);
    assert!(parse_json_sql("{\"query\":\"q\"}").is_none());
    assert!(parse_json_sql("{\"sql\":7}").is_none());
}

#[test]
fn tokens_are_asked_for() {
    let token = Some("Secret".to_string());
    let with = |h: &str| format!("POST /v1/query HTTP/1.1\r\n{h}\r\n\r\n");
    assert!(authorized(&with("Authorization: Bearer Secret"), &token));
    assert!(authorized(&with("AUTHORIZATION:bearer  Secret "), &token));
    assert!(!authorized(&with("Authorization: Bearer other"), &token));
    assert!(!authorized(&with("Authorization: Basic Secret"), &token));
    assert!(!authorized(&with("Host: x"), &token));
    assert!(authorized("anything", &None));
}

#[test]
fn answers_are_framed() {
    assert_eq!(json_escape("a\"b\\c\nd"), "\"a\\\"b\\\\c\\nd\"");
    assert_eq!(
        http_json("200 OK", "{\u{e9}}"),
        "HTTP/1.1 200 OK\r\nContent-Type: application/json\r\nContent-Length: 4\r\n\r\n{\u{e9}}"
    );
}

fn reply(r: Reaction) -> String {
    match r {
        Reaction::Reply(t) => t,
        Reaction::Run(_, _) | Reaction::Drop => panic!("a reply"),
    }
}

#[test]
fn the_daemon_reacts() {
    let mut d = Daemon::new(6, Some("t".to_string()), "file:///w".to_string());
    let health = reply(d.handle_client(b"GET /health HTTP/1.1\r\n\r\n"));
    assert!(health.ends_with("{\"status\":\"ok\",\"warehouse\":\"file:///w\"}"));
    assert!(reply(d.handle_client(b"GET / HTTP/1.1\r\n\r\n")).starts_with("HTTP/1.1 404"));
    let refused = reply(d.handle_client(b"POST /v1/query HTTP/1.1\r\n\r\n{\"sql\":\"q\"}"));
    assert!(refused.starts_with("HTTP/1.1 401"));
    let good = b"POST /v1/query HTTP/1.1\r\nAuthorization: Bearer t\r\n\r\n{\"sql\":\"q\"}";
    match d.handle_client(good) {
        Reaction::Run(sql, n) => {
            assert_eq!(sql, "q");
            assert_eq!(n, 6);
        }
        _ => panic!("a query"),
    }
    let bad = b"POST /v1/query HTTP/1.1\r\nAuthorization: Bearer t\r\n\r\n{}";
    assert!(matches!(d.handle_client(bad), Reaction::Drop));
    assert!(d.done("fine").starts_with("HTTP/1.1 200 OK"));
    assert!(d.failed("bad").starts_with("HTTP/1.1 500"));
    let text = reply(d.handle_client(b"GET /metrics HTTP/1.1\r\n\r\n"));
    assert!(text.contains("\nblitz_queries_total 3\n"));
    assert!(text.contains("\nblitz_queries_unauthorized 1\n"));
    assert!(text.contains("\nblitz_queries_ok 1\n"));
    assert!(text.contains("\nblitz_queries_err 1\n"));
    assert!(text.contains("\nblitz_bytes_out 28\n"));
}

#[test]
fn bytes_that_are_no_text_still_get_an_answer() {
    let mut d = Daemon::new(1, None, "w".to_string());
    let r = d.handle_client(b"\xff\xfe");
    assert!(reply(r).starts_with("HTTP/1.1 404"));
}

#[test]
fn a_machine_boots_step_by_step() {
    let f = Firecracker::connect("s");
    let ok = || Ok("HTTP/1.1 204 No Content\r\n\r\n".to_string());
    let path = |s: BootStep| match s {
        BootStep::Send(r) => r.path,
        BootStep::Done => "done".to_string(),
        BootStep::Failed(m) => m,
    };
    let mut b = Boot::new(f.configure_and_boot("/k", "/r", 2, 512, "quiet"));
    assert_eq!(path(b.start()), "/boot-source");
    assert_eq!(path(b.next(ok())), "/drives/rootfs");
    assert_eq!(path(b.next(ok())), "/machine-config");
    assert_eq!(path(b.next(ok())), "/vsock");
    assert_eq!(path(b.next(ok())), "/actions");
    assert_eq!(path(b.next(ok())), "done");

    let mut b = Boot::new(f.configure_and_boot("/k", "/r", 2, 512, "quiet"));
    b.start();
    b.next(ok());
    assert_eq!(
        path(b.next(Ok("HTTP/1.1 400 Bad".to_string()))),
        "firecracker /drives/rootfs -> 400: HTTP/1.1 400 Bad"
    );
    assert_eq!(b.sent, 2);
    let mut b = Boot::new(vec![f.pause()]);
    b.start();
    assert_eq!(path(b.next(Err("refused".to_string()))), "refused");
    assert_eq!(path(Boot::new(vec![]).start()), "done");
}
