use archform::model::{Arch, Component, Defaults, Edge, NamedPolicy, Policy, Port};
use archform::simulate::{simulate, SimResp};
use archform::text::{contains_str, head_segment_of, split_once_dot, str_eq, usize_decimal};
use archform::validate::validate;
use archform::web::{put_response, simulate_response, validate_response, yaml_err};

fn s(x: &str) -> String {
    x.to_string()
}

fn port(id: &str, ptype: &str, role: Option<&str>) -> Port {
    Port { id: s(id), ptype: s(ptype), role: role.map(s), spec: None }
}

fn comp(id: &str, kind: &str, ports: Vec<Port>) -> Component {
    Component { id: s(id), name: None, kind: s(kind), annotations: Vec::new(), ports }
}

fn edge(id: &str, from: &str, to: &str, etype: &str) -> Edge {
    Edge { id: s(id), from: s(from), to: s(to), etype: s(etype), spec: None, annotations: Vec::new() }
}

fn arch(components: Vec<Component>, edges: Vec<Edge>) -> Arch {
    Arch {
        version: 1,
        policies: vec![
            NamedPolicy { name: s("auth-jwt"), policy: Policy { ptype: s("auth"), scheme: None, pdp: None } },
            NamedPolicy { name: s("otel"), policy: Policy { ptype: s("trace"), scheme: None, pdp: None } },
        ],
        defaults: Defaults { edges: vec![s("auth-jwt"), s("otel")], nodes: Vec::new() },
        components,
        edges,
    }
}

fn gateway(id: &str) -> Component {
    comp(id, "gateway", vec![port("api", "sync-call", Some("server"))])
}

fn svc(id: &str) -> Component {
    comp(id, "service", vec![port("invoke", "sync-call", Some("server"))])
}

fn steps_of(r: &SimResp) -> Vec<(String, String)> {
    r.steps.iter().map(|x| (x.step.clone(), x.element.clone())).collect()
}

fn pairs(v: &[(&str, &str)]) -> Vec<(String, String)> {
    v.iter().map(|(a, b)| (s(a), s(b))).collect()
}

#[test]
fn clean_chain_is_done() {
    let a = arch(vec![gateway("gw"), svc("b")], vec![edge("e1", "gw.api", "b.invoke", "sync-call")]);
    let r = simulate(&a);
    assert!(r.ok);
    assert_eq!(r.entry, "gw.api");
    assert_eq!(r.hops, 1);
    assert_eq!(
        steps_of(&r),
        pairs(&[("enter", "gw.api"), ("process", "gw"), ("hop", "e1"), ("process", "b"), ("done", "gw")])
    );
    assert_eq!(r.steps[4].message.as_deref(), Some("全链路 1 跳逻辑通"));
}

#[test]
fn ring_stalls_at_cycle_edge() {
    let a = arch(
        vec![gateway("ga"), svc("b")],
        vec![edge("e1", "ga.api", "b.invoke", "sync-call"), edge("e2", "b.invoke", "ga.api", "sync-call")],
    );
    let r = simulate(&a);
    assert!(!r.ok);
    assert_eq!(r.hops, 1);
    assert_eq!(
        steps_of(&r),
        pairs(&[("enter", "ga.api"), ("process", "ga"), ("hop", "e1"), ("process", "b"), ("stall", "e2")])
    );
    let (_, _, _, errs) = validate(&a);
    let cycle = errs.iter().find(|e| e.element == "e2").unwrap();
    assert_eq!(r.steps[4].message.as_deref(), Some(cycle.message.as_str()));
}

#[test]
fn broken_edge_stalls_at_once() {
    let a = arch(
        vec![gateway("gw"), svc("b"), svc("c")],
        vec![edge("e1", "gw.nope", "b.invoke", "sync-call"), edge("e2", "gw.api", "c.invoke", "sync-call")],
    );
    let r = simulate(&a);
    assert!(!r.ok);
    let last = r.steps.last().unwrap();
    assert_eq!(last.step, "stall");
    assert_eq!(last.element, "e1");
    assert!(last.message.as_deref().unwrap().contains("gw.nope"));
    assert_eq!(r.hops, 0);
}

#[test]
fn star_counts_many_hops() {
    let mut comps = vec![gateway("gw")];
    let mut edges = Vec::new();
    for i in 0..12 {
        comps.push(svc(&format!("s{}", i)));
        edges.push(edge(&format!("e{}", i), "gw.api", &format!("s{}.invoke", i), "sync-call"));
    }
    let a = arch(comps, edges);
    let r = simulate(&a);
    assert!(r.ok);
    assert_eq!(r.hops, 12);
    assert_eq!(r.steps.last().unwrap().message.as_deref(), Some("全链路 12 跳逻辑通"));
}

#[test]
fn depth_is_limited() {
    let mut comps = vec![gateway("n0")];
    let mut edges = vec![edge("e0", "n0.api", "n1.invoke", "sync-call")];
    for i in 1..20 {
        comps.push(svc(&format!("n{}", i)));
        if i < 19 {
            edges.push(edge(&format!("e{}", i), &format!("n{}.invoke", i), &format!("n{}.invoke", i + 1), "sync-call"));
        }
    }
    let a = arch(comps, edges);
    let r = simulate(&a);
    assert!(r.ok);
    // components at depth 0..13 are processed, each hops its one edge
    assert_eq!(r.steps.iter().filter(|x| x.step == "process").count(), 14);
    assert_eq!(r.hops, 14);
}

#[test]
fn app_is_entry_without_gateway() {
    let a = arch(
        vec![svc("b"), comp("ui", "app", vec![port("s", "sync-call", Some("server")), port("backend", "sync-call", None)])],
        vec![],
    );
    let r = simulate(&a);
    assert_eq!(r.entry, "ui.backend");
    assert!(r.ok);
    assert_eq!(steps_of(&r), pairs(&[("enter", "ui.backend"), ("process", "ui"), ("done", "ui")]));
    assert_eq!(r.steps[2].message.as_deref(), Some("全链路 0 跳逻辑通"));
}

#[test]
fn gateway_without_server_port_is_skipped() {
    let a = arch(
        vec![comp("g1", "gateway", vec![port("events", "event", None)]), gateway("g2")],
        vec![],
    );
    assert_eq!(simulate(&a).entry, "g2.api");
}

#[test]
fn app_with_only_server_ports_has_no_entry() {
    let a = arch(vec![comp("ui", "app", vec![port("s", "sync-call", Some("server"))])], vec![]);
    let r = simulate(&a);
    assert!(!r.ok);
    assert_eq!(r.entry, "");
    assert_eq!(r.steps.len(), 1);
    assert_eq!(r.steps[0].message.as_deref(), Some("找不到入口（需要 gateway 或 app 组件）"));
}

#[test]
fn hops_never_exceed_edges() {
    let a = arch(
        vec![gateway("ga"), svc("b"), svc("c")],
        vec![
            edge("e1", "ga.api", "b.invoke", "sync-call"),
            edge("e2", "ga.api", "c.invoke", "sync-call"),
            edge("e3", "b.invoke", "c.invoke", "sync-call"),
        ],
    );
    let r = simulate(&a);
    assert!(r.ok);
    assert_eq!(r.hops, 3);
    assert!(r.hops <= a.edges.len());
    let processed: Vec<&str> = r.steps.iter().filter(|x| x.step == "process").map(|x| x.element.as_str()).collect();
    assert_eq!(processed, vec!["ga", "b", "c"]);
}

#[test]
fn responses_for_parse_failures() {
    let v = validate_response(Err(s("bad indent")));
    assert!(!v.ok);
    assert_eq!((v.pass, v.fail), (0, 1));
    assert_eq!(v.errors[0].rule, "yaml-parse");
    assert_eq!(v.errors[0].element, "");
    assert_eq!(v.errors[0].message, "YAML 解析失败: bad indent");
    let p = put_response(Err(s("oops")));
    assert!(!p.ok && p.graph.is_none());
    assert_eq!(p.errors[0].message, "YAML 解析失败: oops");
    let sim = simulate_response(Err(s("oops")));
    assert!(!sim.ok);
    assert_eq!(sim.steps[0].step, "stall");
    assert_eq!(sim.steps[0].element, "-");
    assert_eq!(sim.steps[0].message.as_deref(), Some("YAML 解析失败: oops"));
    let e = yaml_err(s("m"));
    assert_eq!((e.element.as_str(), e.rule.as_str(), e.message.as_str()), ("", "yaml-parse", "m"));
}

#[test]
fn responses_for_models() {
    let a = arch(vec![gateway("gw"), svc("b")], vec![edge("e1", "gw.api", "b.invoke", "sync-call")]);
    let v = validate_response(Ok(a.clone()));
    assert!(v.ok);
    assert_eq!(v.fail, 0);
    let p = put_response(Ok(a.clone()));
    assert!(p.ok);
    assert_eq!(p.graph, Some(a.clone()));
    let sim = simulate_response(Ok(a.clone()));
    assert_eq!(sim, simulate(&a));
}

#[test]
fn text_helpers() {
    assert!(str_eq("中文", "中文"));
    assert!(!str_eq("ab", "abc"));
    assert!(contains_str("asyncapi:topic=t", "topic"));
    assert!(!contains_str("top", "topic"));
    assert_eq!(head_segment_of("gw.api.v2"), "gw");
    assert_eq!(head_segment_of("gw"), "gw");
    assert_eq!(split_once_dot("gw.api.v2"), Some(("gw", "api.v2")));
    assert_eq!(split_once_dot("gw"), None);
    assert_eq!(usize_decimal(0), "0");
    assert_eq!(usize_decimal(907), "907");
}

#[test]
fn hops_count_hop_steps_and_second_step_processes_entry() {
    let a = arch(
        vec![gateway("gw"), svc("b"), svc("c")],
        vec![edge("e1", "gw.api", "b.invoke", "sync-call"), edge("e2", "b.invoke", "c.invoke", "sync-call")],
    );
    let r = simulate(&a);
    assert!(r.ok);
    assert_eq!(r.steps[1].step, "process");
    assert_eq!(r.steps[1].element, "gw");
    let hop_steps = r.steps.iter().filter(|x| x.step == "hop").count();
    assert_eq!(r.hops, hop_steps);
    assert_eq!(r.hops, 2);
    assert!(r.steps.len() <= a.components.len() + a.edges.len() + 2);
}

#[test]
fn each_edge_hopped_once_in_diamond() {
    let a = arch(
        vec![gateway("gw"), svc("b"), svc("c"), svc("d")],
        vec![
            edge("e1", "gw.api", "b.invoke", "sync-call"),
            edge("e2", "gw.api", "c.invoke", "sync-call"),
            edge("e3", "b.invoke", "d.invoke", "sync-call"),
            edge("e4", "c.invoke", "d.invoke", "sync-call"),
        ],
    );
    let r = simulate(&a);
    assert!(r.ok);
    assert_eq!(
        steps_of(&r),
        pairs(&[
            ("enter", "gw.api"),
            ("process", "gw"),
            ("hop", "e1"),
            ("process", "b"),
            ("hop", "e3"),
            ("process", "d"),
            ("hop", "e2"),
            ("process", "c"),
            ("hop", "e4"),
            ("done", "gw"),
        ])
    );
    assert_eq!(r.hops, 4);
}

#[test]
fn shared_edge_id_is_never_hopped() {
    let a = arch(
        vec![gateway("gw"), svc("b")],
        vec![edge("e1", "gw.api", "b.invoke", "sync-call"), edge("e1", "gw.api", "b.invoke", "sync-call")],
    );
    let r = simulate(&a);
    assert!(!r.ok);
    assert_eq!(r.hops, 0);
    assert_eq!(steps_of(&r), pairs(&[("enter", "gw.api"), ("process", "gw"), ("stall", "e1")]));
    assert_eq!(r.steps[2].message.as_deref(), Some("边 id 重复: e1"));
}
