use archform::model::{
    contract_color, contract_zh, default_ports, is_contract, Annotation, Arch, Component, Defaults, Edge,
    NamedPolicy, NodeDefaults, Policy, Port, CONTRACT_TYPES,
};
use archform::validate::{fits_limits, join_strings, validate, VErr};

fn s(x: &str) -> String {
    x.to_string()
}

fn port(id: &str, ptype: &str, role: Option<&str>) -> Port {
    Port { id: s(id), ptype: s(ptype), role: role.map(s), spec: None }
}

fn comp(id: &str, kind: &str, ports: Vec<Port>) -> Component {
    Component { id: s(id), name: None, kind: s(kind), annotations: Vec::new(), ports }
}

fn edge(id: &str, from: &str, to: &str, etype: &str) -> Edge {
    Edge { id: s(id), from: s(from), to: s(to), etype: s(etype), spec: None, annotations: Vec::new() }
}

fn policy(name: &str, ptype: &str, pdp: Option<&str>) -> NamedPolicy {
    NamedPolicy { name: s(name), policy: Policy { ptype: s(ptype), scheme: None, pdp: pdp.map(s) } }
}

fn service(id: &str) -> Component {
    comp(
        id,
        "service",
        vec![
            port("invoke", "sync-call", Some("server")),
            port("emitted", "event", None),
            port("store", "data-store", None),
        ],
    )
}

fn base() -> Arch {
    Arch {
        version: 1,
        policies: vec![policy("auth-jwt", "auth", Some("auth-service")), policy("otel", "trace", None)],
        defaults: Defaults {
            edges: vec![s("auth-jwt"), s("otel")],
            nodes: vec![NodeDefaults {
                kind: s("ai-runtime"),
                annotations: vec![Annotation { key: s("sandbox"), value: s("seccomp") }],
            }],
        },
        components: vec![
            service("a"),
            service("b"),
            comp("auth-service", "service", vec![port("invoke", "sync-call", Some("server"))]),
        ],
        edges: Vec::new(),
    }
}

fn errs_of(a: &Arch, rule: &str) -> Vec<VErr> {
    let (_, _, _, errs) = validate(a);
    errs.into_iter().filter(|e| e.rule == rule).collect()
}

#[test]
fn clean_model_counts() {
    let a = base();
    let (ok, pass, fail, errs) = validate(&a);
    // three distinct ids, one existing decision point, an acyclic sync graph
    assert!(ok);
    assert_eq!(pass, 5);
    assert_eq!(fail, 0);
    assert!(errs.is_empty());
}

#[test]
fn counts_match_errors() {
    let mut a = base();
    a.edges.push(edge("e1", "a.invoke", "a.invoke", "sync-call"));
    a.edges.push(edge("e1", "a.invoke", "ghost.x", "event"));
    let (ok, pass, fail, errs) = validate(&a);
    assert!(!ok);
    assert_eq!(fail, errs.len());
    // dup: 4 pass + 1 fail; e1: self-loop fail, ref, mismatch, auth, trace pass, cycle found later;
    // second e1: self-loop pass, unknown-ref fail; pdp pass; cycle fail
    assert_eq!(fail, 4);
    assert_eq!(pass, 4 + 4 + 1 + 1);
}

#[test]
fn dup_id_component_message() {
    let mut a = base();
    a.components.push(service("a"));
    let errs = errs_of(&a, "dup-id");
    assert_eq!(errs.len(), 1);
    assert_eq!(errs[0].element, "a");
    assert_eq!(errs[0].message, "组件 id 重复: a");
}

#[test]
fn dup_id_edge_shares_component_id() {
    let mut a = base();
    a.edges.push(edge("b", "a.invoke", "b.invoke", "sync-call"));
    let errs = errs_of(&a, "dup-id");
    assert_eq!(errs.len(), 1);
    assert_eq!(errs[0].element, "b");
    assert_eq!(errs[0].message, "边 id 重复: b");
}

#[test]
fn self_loop_message() {
    let mut a = base();
    a.edges.push(edge("e1", "a.invoke", "a.invoke", "sync-call"));
    let errs = errs_of(&a, "self-loop");
    assert_eq!(errs.len(), 1);
    assert_eq!(errs[0].message, "边 e1 自环: a.invoke");
}

#[test]
fn unknown_ref_both_missing() {
    let mut a = base();
    a.edges.push(edge("e1", "x.y", "z.w", "sync-call"));
    let errs = errs_of(&a, "unknown-ref");
    assert_eq!(errs.len(), 1);
    assert_eq!(errs[0].message, "边 e1 引用不存在的端口: x.y, z.w");
}

#[test]
fn unknown_ref_without_dot_or_port() {
    let mut a = base();
    a.edges.push(edge("e1", "a", "b.nope", "sync-call"));
    let errs = errs_of(&a, "unknown-ref");
    assert_eq!(errs[0].message, "边 e1 引用不存在的端口: a, b.nope");
}

#[test]
fn port_mismatch_message() {
    let mut a = base();
    a.edges.push(edge("e1", "a.invoke", "b.emitted", "sync-call"));
    let errs = errs_of(&a, "port-mismatch");
    assert_eq!(errs[0].message, "边 e1 类型 sync-call 与端口类型不符 (a.invoke:sync-call -> b.emitted:event)");
}

#[test]
fn event_needs_topic() {
    let mut a = base();
    a.edges.push(edge("e1", "a.emitted", "b.emitted", "event"));
    let errs = errs_of(&a, "event-consumer");
    assert_eq!(errs.len(), 1);
    assert_eq!(errs[0].message, "event 边 e1 必须从 event 口出发且 spec 含 topic");
    a.edges[0].spec = Some(s("asyncapi:topic=orders"));
    assert!(errs_of(&a, "event-consumer").is_empty());
}

#[test]
fn trace_missing_reported() {
    let mut a = base();
    a.defaults.edges = vec![s("auth-jwt")];
    a.edges.push(edge("e1", "a.emitted", "b.emitted", "event"));
    let errs = errs_of(&a, "trace-coverage");
    assert_eq!(errs.len(), 1);
    assert_eq!(errs[0].message, "边 e1 缺 trace 注解");
    a.edges[0].annotations.push(s("otel"));
    assert!(errs_of(&a, "trace-coverage").is_empty());
}

#[test]
fn auth_from_edge_annotation() {
    let mut a = base();
    a.defaults.edges = vec![s("otel")];
    a.edges.push(edge("e1", "a.invoke", "b.invoke", "stream"));
    assert_eq!(errs_of(&a, "auth-propagation")[0].message, "边 e1 裸奔：缺 auth 注解（含 defaults 继承）");
    a.edges[0].annotations.push(s("auth-jwt"));
    assert!(errs_of(&a, "auth-propagation").is_empty());
}

#[test]
fn unknown_policy_name_is_no_auth() {
    let mut a = base();
    a.defaults.edges = vec![s("otel"), s("no-such-policy")];
    a.edges.push(edge("e1", "a.invoke", "b.invoke", "sync-call"));
    assert_eq!(errs_of(&a, "auth-propagation").len(), 1);
}

#[test]
fn pdp_missing_message() {
    let mut a = base();
    a.policies[0].policy.pdp = Some(s("nope-service"));
    let errs = errs_of(&a, "auth-propagation");
    assert_eq!(errs.len(), 1);
    assert_eq!(errs[0].element, "auth-jwt");
    assert_eq!(errs[0].message, "策略 auth-jwt 的 pdp 不存在: nope-service");
}

#[test]
fn sandbox_messages() {
    let mut a = base();
    a.defaults.nodes = Vec::new();
    a.components.push(comp("brain", "ai-runtime", Vec::new()));
    assert_eq!(
        errs_of(&a, "sandbox-floor")[0].message,
        "ai-runtime brain sandbox 不达标: 缺失（需 container|seccomp）"
    );
    a.components[3].annotations.push(Annotation { key: s("sandbox"), value: s("off") });
    assert_eq!(
        errs_of(&a, "sandbox-floor")[0].message,
        "ai-runtime brain sandbox 不达标: off（需 container|seccomp）"
    );
    a.components[3].annotations[0].value = s("container");
    assert!(errs_of(&a, "sandbox-floor").is_empty());
}

#[test]
fn own_sandbox_overrides_default() {
    let mut a = base();
    let mut brain = comp("brain", "ai-runtime", Vec::new());
    brain.annotations.push(Annotation { key: s("sandbox"), value: s("off") });
    a.components.push(brain);
    // the default seccomp does not rescue an explicit "off"
    assert_eq!(errs_of(&a, "sandbox-floor").len(), 1);
}

#[test]
fn sync_cycle_message_and_element() {
    let mut a = base();
    a.edges.push(edge("e1", "a.invoke", "b.invoke", "sync-call"));
    a.edges.push(edge("e2", "b.invoke", "a.invoke", "sync-call"));
    let errs = errs_of(&a, "sync-acyclic");
    assert_eq!(errs[0].element, "e2");
    assert_eq!(errs[0].message, "sync-call 子图存在环: a.invoke→b.invoke→a.invoke");
}

#[test]
fn event_cycle_is_no_sync_cycle() {
    let mut a = base();
    let mut e1 = edge("e1", "a.emitted", "b.emitted", "event");
    e1.spec = Some(s("topic=t"));
    let mut e2 = edge("e2", "b.emitted", "a.emitted", "event");
    e2.spec = Some(s("topic=t"));
    a.edges.push(e1);
    a.edges.push(e2);
    assert!(errs_of(&a, "sync-acyclic").is_empty());
}

#[test]
fn three_cycle_path() {
    let mut a = base();
    a.components.push(service("c"));
    a.edges.push(edge("e1", "a.invoke", "b.invoke", "sync-call"));
    a.edges.push(edge("e2", "b.invoke", "c.invoke", "sync-call"));
    a.edges.push(edge("e3", "c.invoke", "b.invoke", "sync-call"));
    let errs = errs_of(&a, "sync-acyclic");
    assert_eq!(errs.len(), 1);
    assert_eq!(errs[0].element, "e3");
    assert_eq!(errs[0].message, "sync-call 子图存在环: b.invoke→c.invoke→b.invoke");
}

#[test]
fn ring_path_closes_on_itself() {
    let mut a = base();
    a.components = vec![
        comp("a", "service", vec![port("api", "sync-call", Some("server"))]),
        comp("b", "service", vec![port("inv", "sync-call", Some("server"))]),
        comp("c", "service", vec![port("inv", "sync-call", Some("server"))]),
        comp("auth-service", "service", vec![port("invoke", "sync-call", Some("server"))]),
    ];
    a.edges.push(edge("x1", "a.api", "b.inv", "sync-call"));
    a.edges.push(edge("x2", "b.inv", "c.inv", "sync-call"));
    a.edges.push(edge("x3", "c.inv", "a.api", "sync-call"));
    let errs = errs_of(&a, "sync-acyclic");
    assert_eq!(errs.len(), 1);
    assert_eq!(errs[0].element, "x3");
    assert_eq!(errs[0].message, "sync-call 子图存在环: a.api→b.inv→c.inv→a.api");
}

#[test]
fn diamond_is_acyclic() {
    let mut a = base();
    a.components.push(service("c"));
    a.edges.push(edge("e1", "a.invoke", "b.invoke", "sync-call"));
    a.edges.push(edge("e2", "a.invoke", "c.invoke", "sync-call"));
    a.edges.push(edge("e3", "b.invoke", "c.invoke", "sync-call"));
    assert!(errs_of(&a, "sync-acyclic").is_empty());
    let (ok, _, _, _) = validate(&a);
    assert!(ok);
}

#[test]
fn gate_and_data_messages() {
    let mut a = base();
    a.components.push(comp("app1", "app", vec![port("backend", "sync-call", None)]));
    a.edges.push(edge("e1", "app1.backend", "b.invoke", "sync-call"));
    a.edges.push(edge("e2", "a.store", "b.store", "data-store"));
    assert_eq!(
        errs_of(&a, "same-gate-iron")[0].message,
        "边 e1 违反同门铁律：应用 app1 必须经 gateway 接入，不可直连 b"
    );
    assert_eq!(
        errs_of(&a, "core-only-data")[0].message,
        "边 e2 违反单一持久层：数据只能落入 datastore，b 不是 datastore"
    );
}

#[test]
fn contract_names_and_colors() {
    assert!(is_contract("model-io"));
    assert!(!is_contract("rpc"));
    assert_eq!(contract_color("sync-call"), "#dc2626");
    assert_eq!(contract_color("stream"), "#ec4899");
    assert_eq!(contract_color("rpc"), "#6b7280");
    assert_eq!(contract_zh("event"), "异步事件");
    assert_eq!(contract_zh("model-io"), "模型I/O");
    assert_eq!(contract_zh("rpc"), "未知");
    for t in CONTRACT_TYPES.iter() {
        assert!(is_contract(t));
        assert_ne!(contract_color(t), "#6b7280");
        assert_ne!(contract_zh(t), "未知");
    }
}

#[test]
fn default_ports_by_kind() {
    let g = default_ports("gateway");
    assert_eq!(g.len(), 3);
    assert_eq!((g[0].id.as_str(), g[0].ptype.as_str(), g[0].role.as_deref()), ("api", "sync-call", Some("server")));
    assert_eq!(g[1].role, None);
    assert_eq!(default_ports("ai-runtime").len(), 4);
    assert_eq!(default_ports("datastore")[1].id, "admin");
    assert_eq!(default_ports("bus").len(), 1);
    assert_eq!(default_ports("app")[1].ptype, "stream");
    let cc = default_ports("crosscut");
    assert_eq!(cc.len(), 1);
    assert_eq!(cc[0].id, "invoke");
    for kind in ["gateway", "service", "ai-runtime", "datastore", "bus", "app", "crosscut"] {
        for p in default_ports(kind) {
            assert!(is_contract(&p.ptype));
            assert!(p.spec.is_none());
        }
    }
}

#[test]
fn resolve_port_and_component() {
    let a = base();
    let (c, p) = a.resolve_port("b.store").unwrap();
    assert_eq!(c.id, "b");
    assert_eq!(p.ptype, "data-store");
    assert!(a.resolve_port("b").is_none());
    assert!(a.resolve_port("b.nope").is_none());
    assert!(a.resolve_port("nope.invoke").is_none());
    assert_eq!(a.resolve_port_index("auth-service.invoke"), Some((2, 0)));
    assert_eq!(a.component("auth-service").unwrap().kind, "service");
    assert!(a.component("zzz").is_none());
}

#[test]
fn first_duplicate_component_wins() {
    let mut a = base();
    a.components.push(comp("a", "datastore", vec![port("vault", "data-store", Some("server"))]));
    assert_eq!(a.component("a").unwrap().kind, "service");
    assert!(a.resolve_port("a.vault").is_none());
}

#[test]
fn limits_and_join() {
    assert!(fits_limits(&base()));
    let parts = vec![s("x"), s("y"), s("z")];
    assert_eq!(join_strings(&parts, "→"), "x→y→z");
    assert_eq!(join_strings(&Vec::new(), ", "), "");
}

#[test]
fn well_formed_models() {
    let mut a = base();
    assert!(a.check_well_formed());
    a.components[0].annotations.push(Annotation { key: s("owner"), value: s("x") });
    a.components[0].annotations.push(Annotation { key: s("owner"), value: s("y") });
    assert!(!a.check_well_formed());
    let mut b = base();
    b.policies.push(policy("otel", "trace", None));
    assert!(!b.check_well_formed());
}

#[test]
fn one_edge_breaks_each_rule_once() {
    let mut a = base();
    a.components.push(comp("ui", "app", vec![port("out", "sync-call", None)]));
    a.components.push(comp("db", "service", vec![port("store", "data-store", None)]));
    let mut e = edge("x", "ui.out", "a.store", "data-store");
    e.annotations = Vec::new();
    a.edges.push(e);
    a.edges.push(edge("y", "a.invoke", "a.invoke", "sync-call"));
    let (_, _, _, errs) = validate(&a);
    let rules_of = |id: &str| -> Vec<String> {
        errs.iter().filter(|x| x.element == id).map(|x| x.rule.clone()).collect()
    };
    // ports differ in type from the edge, the source is an app outside a
    // gateway, and the target is no datastore
    assert_eq!(rules_of("x"), vec![s("port-mismatch"), s("same-gate-iron"), s("core-only-data")]);
    assert_eq!(rules_of("y"), vec![s("self-loop"), s("sync-acyclic")]);
}
