use std::collections::BTreeMap;

use survey::batch::{batch_result, split_words, BatchError, DrvInfo};
use survey::crawl::{output_lines, resolver_count, Frontier, Seen, Step, BATCH_CAP};
use survey::drv::{has_version, is_valid_drv_path, DrvPath};

fn path(name: &str) -> String {
    format!("/nix/store/{}.drv", name)
}

fn node(name: &str) -> DrvPath {
    DrvPath::new(&path(name))
}

/// An in-memory build graph standing in for the query and resolution tools.
#[derive(Default)]
struct Graph {
    /// node name -> (dependency names, constituents field)
    nodes: BTreeMap<String, (Vec<String>, Option<String>)>,
    /// target -> node name it resolves to, or None when resolution fails
    targets: BTreeMap<String, Option<String>>,
    /// the batch query fails on this call (counting from 1)
    fail_query_at: Option<usize>,
}

impl Graph {
    fn node(&mut self, name: &str, deps: &[&str], constituents: Option<&str>) {
        self.nodes.insert(
            name.to_string(),
            (
                deps.iter().map(|d| d.to_string()).collect(),
                constituents.map(|c| c.to_string()),
            ),
        );
    }

    fn target(&mut self, name: &str, to: Option<&str>) {
        self.targets.insert(name.to_string(), to.map(|t| t.to_string()));
    }
}

#[derive(Default, Debug)]
struct Outcome {
    error: Option<String>,
    batches: Vec<Vec<String>>,
    visited: Vec<String>,
    output: Vec<String>,
    inflight_trace: Vec<u64>,
    resolved: Vec<String>,
    failed: Vec<String>,
    final_inflight: u64,
}

fn name_of(p: &str) -> String {
    p.trim_start_matches("/nix/store/").trim_end_matches(".drv").to_string()
}

/// Drives the crawler's bookkeeping over `g` in one thread: resolutions
/// finish one at a time whenever the expansion worker would wait.
fn run(g: &Graph, root: &str) -> Outcome {
    let mut out = Outcome::default();
    let mut frontier = Frontier::new(node(root));
    let mut seen = Seen::new();
    let mut pending: Vec<String> = Vec::new();
    let mut queries = 0usize;
    loop {
        match frontier.next_step() {
            Step::Expand => {
                let batch = seen.take_max(&mut frontier, BATCH_CAP);
                if batch.is_empty() {
                    continue;
                }
                queries += 1;
                if g.fail_query_at == Some(queries) {
                    out.error = Some(format!("batch query {} failed", queries));
                    break;
                }
                out.batches
                    .push(batch.iter().map(|d| name_of(d.as_str())).collect());
                let infos: Vec<DrvInfo> = batch
                    .iter()
                    .map(|d| {
                        let (deps, cons) = g
                            .nodes
                            .get(&name_of(d.as_str()))
                            .cloned()
                            .unwrap_or_default();
                        DrvInfo {
                            input_drvs: deps.iter().map(|x| path(x)).collect(),
                            constituents: cons,
                        }
                    })
                    .collect();
                let (inputs, targets) = match batch_result(&infos) {
                    Ok(r) => r,
                    Err(BatchError::BadPath { path }) => {
                        out.error = Some(path);
                        break;
                    }
                };
                out.output.extend(output_lines(&batch));
                assert!(frontier.record_expansion(inputs, targets.len()));
                for t in targets {
                    out.inflight_trace.push(frontier.inflight());
                    pending.push(t);
                }
            }
            Step::Wait => {
                let t = pending.remove(0);
                let res = match g.targets.get(&t).cloned().flatten() {
                    Some(n) => {
                        out.resolved.push(t);
                        Some(node(&n))
                    }
                    None => {
                        out.failed.push(t);
                        None
                    }
                };
                frontier.complete(res);
                out.inflight_trace.push(frontier.inflight());
            }
            Step::Finish => break,
        }
    }
    out.visited = out.batches.concat();
    out.final_inflight = frontier.inflight();
    if out.error.is_none() {
        assert_eq!(seen.len(), out.visited.len());
    }
    out
}

#[test]
fn single_node_without_edges() {
    let mut g = Graph::default();
    g.node("aaa-hello-2.10", &[], None);
    let o = run(&g, "aaa-hello-2.10");
    assert_eq!(o.error, None);
    assert_eq!(o.batches, vec![vec!["aaa-hello-2.10".to_string()]]);
    assert_eq!(o.output, vec![path("aaa-hello-2.10")]);

    let mut g = Graph::default();
    g.node("aaa-release", &[], None);
    let o = run(&g, "aaa-release");
    assert_eq!(o.batches.len(), 1);
    assert!(o.output.is_empty());
}

#[test]
fn forty_dependencies_take_two_batches() {
    let mut g = Graph::default();
    let deps: Vec<String> = (0..40).map(|i| format!("dep{}-lib-1.{}", i, i)).collect();
    let refs: Vec<&str> = deps.iter().map(|s| s.as_str()).collect();
    g.node("root", &refs, None);
    let o = run(&g, "root");
    assert_eq!(o.error, None);
    let sizes: Vec<usize> = o.batches.iter().map(|b| b.len()).collect();
    assert_eq!(sizes, vec![1, 30, 10]);
    assert_eq!(o.visited.len(), 41);
    assert_eq!(o.output.len(), 40);
}

#[test]
fn resolved_target_is_expanded() {
    let mut g = Graph::default();
    g.node("root", &[], Some("  foo \n"));
    g.target("foo", Some("foo-1.0"));
    g.node("foo-1.0", &[], None);
    let o = run(&g, "root");
    assert_eq!(o.error, None);
    assert_eq!(o.batches.len(), 2);
    assert_eq!(o.batches[1], vec!["foo-1.0".to_string()]);
    assert_eq!(o.inflight_trace, vec![1, 0]);
    assert_eq!(o.resolved, vec!["foo".to_string()]);
    assert_eq!(o.final_inflight, 0);
}

#[test]
fn failed_resolution_is_skipped() {
    let mut g = Graph::default();
    g.node("root", &["a-1"], Some("bar"));
    g.node("a-1", &[], None);
    g.target("bar", None);
    g.node("bar-2.0", &["bar-dep-3"], None);
    let o = run(&g, "root");
    assert_eq!(o.error, None);
    assert_eq!(o.failed, vec!["bar".to_string()]);
    assert!(!o.visited.contains(&"bar-2.0".to_string()));
    assert!(!o.visited.contains(&"bar-dep-3".to_string()));
    assert_eq!(o.visited.len(), 2);
    assert_eq!(o.final_inflight, 0);
}

#[test]
fn failing_batch_query_stops_the_crawl() {
    let mut g = Graph::default();
    g.node("root", &["a-1"], Some("t"));
    g.node("a-1", &["b-2"], None);
    g.target("t", Some("c-3"));
    g.fail_query_at = Some(2);
    let o = run(&g, "root");
    assert!(o.error.is_some());
    assert_eq!(o.batches.len(), 1);
    assert!(o.resolved.is_empty());
}

#[test]
fn shared_dependencies_are_queried_once() {
    let mut g = Graph::default();
    g.node("top", &["left-1", "right-1", "left-1"], Some("x y x"));
    g.node("left-1", &["shared-2", "top"], None);
    g.node("right-1", &["shared-2"], None);
    g.node("shared-2", &["leaf"], None);
    g.node("leaf", &[], None);
    g.target("x", Some("left-1"));
    g.target("y", Some("extra-5"));
    g.node("extra-5", &["shared-2"], None);
    let o = run(&g, "top");
    assert_eq!(o.error, None);
    let mut v = o.visited.clone();
    v.sort();
    let before = v.len();
    v.dedup();
    assert_eq!(before, v.len());
    assert_eq!(
        v,
        vec!["extra-5", "leaf", "left-1", "right-1", "shared-2", "top"]
            .into_iter()
            .map(String::from)
            .collect::<Vec<_>>()
    );
    let mut expected: Vec<String> = ["extra-5", "left-1", "right-1", "shared-2"]
        .iter()
        .map(|n| path(n))
        .collect();
    expected.sort();
    let mut got = o.output.clone();
    got.sort();
    assert_eq!(got, expected);
    assert!(o.batches.iter().all(|b| b.len() <= BATCH_CAP));
    assert_eq!(o.final_inflight, 0);
}

#[test]
fn take_max_skips_visited_and_stops_at_cap() {
    let mut f = Frontier::new(node("a-1"));
    let mut seen = Seen::new();
    let first = seen.take_max(&mut f, 5);
    assert_eq!(first.len(), 1);
    f.push(node("a-1"));
    f.push(node("b-1"));
    f.push(node("c-1"));
    f.push(node("a-1"));
    let second = seen.take_max(&mut f, 1);
    assert_eq!(second.len(), 1);
    assert_eq!(second[0].as_str(), path("c-1"));
    assert_eq!(f.len(), 2);
    let third = seen.take_max(&mut f, 5);
    assert_eq!(third.len(), 1);
    assert_eq!(third[0].as_str(), path("b-1"));
    assert_eq!(f.len(), 0);
    assert!(seen.contains(&node("b-1")));
    assert!(!seen.contains(&node("z-1")));
    assert_eq!(seen.len(), 3);
    assert!(seen.take_max(&mut f, 5).is_empty());
}

#[test]
fn frontier_steps_and_counter() {
    let mut f = Frontier::new(node("a-1"));
    assert_eq!(f.next_step(), Step::Expand);
    assert_eq!(f.try_pop().map(|d| d.as_str().to_string()), Some(path("a-1")));
    assert!(f.try_pop().is_none());
    assert_eq!(f.next_step(), Step::Finish);
    f.dispatch();
    f.dispatch();
    assert_eq!(f.next_step(), Step::Wait);
    f.complete(None);
    assert_eq!(f.inflight(), 1);
    assert_eq!(f.next_step(), Step::Wait);
    f.complete(Some(node("b-2")));
    assert_eq!(f.inflight(), 0);
    assert_eq!(f.len(), 1);
    assert_eq!(f.next_step(), Step::Expand);
    f.push_all(vec![node("c-1"), node("d-1")]);
    assert_eq!(f.try_pop().map(|d| d.as_str().to_string()), Some(path("d-1")));
    assert_eq!(f.try_pop().map(|d| d.as_str().to_string()), Some(path("c-1")));
}

#[test]
fn drv_path_validation() {
    assert!(is_valid_drv_path("/nix/store/abc-hello-2.10.drv"));
    assert!(is_valid_drv_path("/nix/store/x.drv"));
    assert!(!is_valid_drv_path("/nix/store/.drv"));
    assert!(!is_valid_drv_path("/nix/store/abc/.drv"));
    assert!(!is_valid_drv_path("/nix/stor/abc.drv"));
    assert!(!is_valid_drv_path("/nix/store/abc.drvx"));
    assert!(!is_valid_drv_path("/nix/store/abc"));
    assert!(!is_valid_drv_path(""));
    assert!(DrvPath::parse("/tmp/abc.drv").is_none());
    assert_eq!(
        DrvPath::parse("/nix/store/abc.drv").map(|d| d.as_str().to_string()),
        Some("/nix/store/abc.drv".to_string())
    );
}

#[test]
fn version_detection() {
    assert!(has_version("/nix/store/abc-hello-2.10.drv"));
    assert!(!has_version("/nix/store/abc-hello.drv"));
    assert!(!has_version("-1"));
    assert!(has_version("a-1"));
    assert!(!has_version("a-1\n"));
    assert!(!has_version("a-x1"));
    assert!(node("zz-openssl-1.1").has_version());
}

#[test]
fn words_split_on_ascii_whitespace() {
    assert_eq!(split_words("  a\tbb\n\x0Cccc\r "), vec!["a", "bb", "ccc"]);
    assert!(split_words("").is_empty());
    assert!(split_words(" \t ").is_empty());
    assert_eq!(split_words("one"), vec!["one"]);
}

#[test]
fn batch_report_becomes_work() {
    let infos = vec![
        DrvInfo {
            input_drvs: vec![path("a-1"), path("b-2")],
            constituents: Some("x y".to_string()),
        },
        DrvInfo {
            input_drvs: vec![path("c-3")],
            constituents: None,
        },
    ];
    let (ins, ts) = batch_result(&infos).ok().unwrap();
    let ins: Vec<String> = ins.iter().map(|d| d.as_str().to_string()).collect();
    assert_eq!(ins, vec![path("a-1"), path("b-2"), path("c-3")]);
    assert_eq!(ts, vec!["x", "y"]);

    let bad = vec![DrvInfo {
        input_drvs: vec![path("a-1"), "/etc/passwd".to_string()],
        constituents: None,
    }];
    match batch_result(&bad) {
        Err(BatchError::BadPath { path }) => assert_eq!(path, "/etc/passwd"),
        Ok(_) => panic!("accepted a path outside the store"),
    }
    let (ins, ts) = batch_result(&Vec::new()).ok().unwrap();
    assert!(ins.is_empty() && ts.is_empty());
}

#[test]
fn sink_keeps_versioned_ids_in_order() {
    let batch = vec![node("a-1.0"), node("b"), node("c-2")];
    assert_eq!(output_lines(&batch), vec![path("a-1.0"), path("c-2")]);
    assert!(output_lines(&Vec::new()).is_empty());
}

#[test]
fn pool_size() {
    assert_eq!(resolver_count(8), 7);
    assert_eq!(resolver_count(2), 1);
    assert_eq!(resolver_count(1), 1);
    assert_eq!(resolver_count(0), 1);
}

#[test]
fn take_max_returns_popped_unvisited_ids_in_pop_order() {
    let mut f = Frontier::new(node("y-1"));
    let mut seen = Seen::new();
    assert_eq!(seen.take_max(&mut f, 5).len(), 1);
    f.push(node("x-1"));
    f.push(node("y-1"));
    let got = seen.take_max(&mut f, 1);
    assert_eq!(got.len(), 1);
    assert_eq!(got[0].as_str(), path("x-1"));
    assert_eq!(f.len(), 0);

    f.push(node("p-1"));
    f.push(node("q-1"));
    f.push(node("q-1"));
    f.push(node("r-1"));
    let got: Vec<String> = seen
        .take_max(&mut f, 5)
        .iter()
        .map(|d| d.as_str().to_string())
        .collect();
    assert_eq!(got, vec![path("r-1"), path("q-1"), path("p-1")]);
}

#[test]
fn expansion_is_refused_on_counter_overflow() {
    let mut f = Frontier::new(node("a-1"));
    assert!(f.record_expansion(vec![node("b-1")], 3));
    assert_eq!(f.inflight(), 3);
    assert_eq!(f.len(), 2);
    assert!(!f.record_expansion(vec![node("c-1")], usize::MAX));
    assert_eq!(f.inflight(), 3);
    assert_eq!(f.len(), 2);
}

#[test]
fn constituents_are_trimmed_before_splitting() {
    let infos = vec![DrvInfo {
        input_drvs: vec![],
        constituents: Some("\u{3000}foo bar\u{A0}".to_string()),
    }];
    let (_, ts) = batch_result(&infos).ok().unwrap();
    assert_eq!(ts, vec!["foo", "bar"]);
}
