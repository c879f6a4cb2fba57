use archform::model::{
    Annotation, Arch, Component, Defaults, Edge, NamedPolicy, NodeDefaults, Policy, Port, KINDS,
};
use archform::simulate::simulate;
use archform::validate::{validate, VErr};

fn s(x: &str) -> String {
    x.to_string()
}

fn port(id: &str, ptype: &str, role: Option<&str>) -> Port {
    Port { id: s(id), ptype: s(ptype), role: role.map(s), spec: None }
}

fn comp(id: &str, kind: &str, ports: Vec<Port>) -> Component {
    Component { id: s(id), name: None, kind: s(kind), annotations: Vec::new(), ports }
}

fn edge(id: &str, from: &str, to: &str, etype: &str) -> Edge {
    Edge { id: s(id), from: s(from), to: s(to), etype: s(etype), spec: None, annotations: Vec::new() }
}

fn policy(name: &str, ptype: &str, scheme: Option<&str>, pdp: Option<&str>) -> NamedPolicy {
    NamedPolicy { name: s(name), policy: Policy { ptype: s(ptype), scheme: scheme.map(s), pdp: pdp.map(s) } }
}

fn service(id: &str) -> Component {
    comp(
        id,
        "service",
        vec![
            port("invoke", "sync-call", Some("server")),
            port("emitted", "event", None),
            port("store", "data-store", None),
        ],
    )
}

fn sandbox_defaults(level: &str) -> Vec<NodeDefaults> {
    vec![NodeDefaults {
        kind: s("ai-runtime"),
        annotations: vec![Annotation { key: s("sandbox"), value: s(level) }],
    }]
}

/// Two services `a` and `b`, the decision point `auth-service`, an auth policy
/// and a trace policy that every edge inherits, and a seccomp floor for AI runtimes.
fn base() -> Arch {
    Arch {
        version: 1,
        policies: vec![
            policy("auth-jwt", "auth", Some("jwt-bearer"), Some("auth-service")),
            policy("otel", "trace", Some("opentelemetry"), None),
        ],
        defaults: Defaults { edges: vec![s("auth-jwt"), s("otel")], nodes: sandbox_defaults("seccomp") },
        components: vec![
            service("a"),
            service("b"),
            comp("auth-service", "service", vec![port("invoke", "sync-call", Some("server"))]),
        ],
        edges: Vec::new(),
    }
}

/// Inserts `c` before the `auth-service` component.
fn insert_before_auth(a: &mut Arch, c: Component) {
    let n = a.components.len();
    a.components.insert(n - 1, c);
}

fn brain() -> Component {
    comp("brain", "ai-runtime", vec![port("invoke", "sync-call", Some("server"))])
}

fn errs_of(a: &Arch, rule: &str) -> Vec<VErr> {
    let (_, _, _, errs) = validate(a);
    errs.into_iter().filter(|e| e.rule == rule).collect()
}

#[test]
fn port_mismatch_reported() {
    let mut a = base();
    a.edges.push(edge("e1", "a.invoke", "b.emitted", "sync-call"));
    let errs = errs_of(&a, "port-mismatch");
    assert_eq!(errs.len(), 1);
    assert_eq!(errs[0].element, "e1");
}

#[test]
fn unknown_ref_reported() {
    let mut a = base();
    a.edges.push(edge("e1", "a.invoke", "ghost.invoke", "sync-call"));
    let errs = errs_of(&a, "unknown-ref");
    assert_eq!(errs.len(), 1);
    assert!(errs[0].message.contains("ghost.invoke"));
}

#[test]
fn sync_cycle_reported_with_path() {
    let mut a = base();
    a.edges.push(edge("e1", "a.invoke", "b.invoke", "sync-call"));
    a.edges.push(edge("e2", "b.invoke", "a.invoke", "sync-call"));
    let errs = errs_of(&a, "sync-acyclic");
    assert_eq!(errs.len(), 1);
    assert!(errs[0].message.contains("→"), "cycle path reported: {}", errs[0].message);
    assert!(errs[0].message.contains("a.invoke"));
}

#[test]
fn auth_missing_reported() {
    let mut a = base();
    a.defaults.edges = vec![s("otel")];
    a.edges.push(edge("e1", "a.invoke", "b.invoke", "sync-call"));
    let errs = errs_of(&a, "auth-propagation");
    assert!(errs.iter().any(|e| e.message.contains("裸奔") && e.element == "e1"));
}

#[test]
fn pdp_missing_reported() {
    let mut a = base();
    a.policies[0].policy.pdp = Some(s("nope-service"));
    let errs = errs_of(&a, "auth-propagation");
    assert!(errs.iter().any(|e| e.message.contains("pdp 不存在")));
}

#[test]
fn sandbox_floor_reported() {
    // no defaults.nodes inheritance -> bare ai-runtime must fail
    let mut a = base();
    a.defaults.nodes = Vec::new();
    insert_before_auth(&mut a, brain());
    let errs = errs_of(&a, "sandbox-floor");
    assert_eq!(errs.len(), 1);
    assert_eq!(errs[0].element, "brain");
}

#[test]
fn defaults_inherited_pass() {
    // ai-runtime inherits sandbox from defaults.nodes; sync edge inherits auth+trace from defaults.edges
    let mut a = base();
    insert_before_auth(&mut a, brain());
    a.edges.push(edge("e1", "a.invoke", "brain.invoke", "sync-call"));
    assert!(errs_of(&a, "sandbox-floor").is_empty());
    assert!(errs_of(&a, "auth-propagation").is_empty());
    assert!(errs_of(&a, "trace-coverage").is_empty());
}

#[test]
fn same_gate_violation_detected() {
    let mut a = base();
    insert_before_auth(&mut a, comp("myapp", "app", vec![port("invoke", "sync-call", Some("client"))]));
    a.edges.push(edge("e1", "myapp.invoke", "a.invoke", "sync-call"));
    let errs = errs_of(&a, "same-gate-iron");
    assert_eq!(errs.len(), 1);
    assert_eq!(errs[0].element, "e1");
    assert!(errs[0].message.contains("myapp") && errs[0].message.contains("同门铁律"));
}

#[test]
fn same_gate_ok() {
    let mut a = base();
    insert_before_auth(&mut a, comp("myapp", "app", vec![port("invoke", "sync-call", Some("client"))]));
    insert_before_auth(&mut a, comp("gw", "gateway", vec![port("api", "sync-call", Some("server"))]));
    a.edges.push(edge("e1", "myapp.invoke", "gw.api", "sync-call"));
    assert!(errs_of(&a, "same-gate-iron").is_empty());
}

#[test]
fn core_only_data_violation() {
    let mut a = base();
    a.edges.push(edge("e1", "a.store", "b.store", "data-store"));
    let errs = errs_of(&a, "core-only-data");
    assert_eq!(errs.len(), 1);
    assert_eq!(errs[0].element, "e1");
    assert!(errs[0].message.contains("b") && errs[0].message.contains("单一持久层"));
}

#[test]
fn core_only_data_ok() {
    let mut a = base();
    insert_before_auth(&mut a, comp("core", "datastore", vec![port("vault", "data-store", Some("server"))]));
    a.edges.push(edge("e1", "a.store", "core.vault", "data-store"));
    assert!(errs_of(&a, "core-only-data").is_empty());
}

#[test]
fn simulate_no_entry() {
    let a = Arch {
        version: 1,
        policies: Vec::new(),
        defaults: Defaults { edges: Vec::new(), nodes: Vec::new() },
        components: Vec::new(),
        edges: Vec::new(),
    };
    let r = simulate(&a);
    assert!(!r.ok);
    assert_eq!(r.steps.len(), 1);
    assert_eq!(r.steps[0].step, "stall");
    assert_eq!(r.steps[0].element, "-");
    assert!(r.steps[0].message.as_deref().unwrap_or("").contains("入口"));
}

/// The gateway `ga` and the service `b` calling each other.
fn ring() -> Arch {
    let mut e1 = edge("e1", "ga.api", "b.invoke", "sync-call");
    e1.spec = Some(s("openapi:paths=/x"));
    let mut e2 = edge("e2", "b.invoke", "ga.api", "sync-call");
    e2.spec = Some(s("openapi:paths=/y"));
    Arch {
        version: 1,
        policies: vec![policy("auth-jwt", "auth", Some("jwt-bearer"), None), policy("otel", "trace", None, None)],
        defaults: Defaults { edges: vec![s("auth-jwt"), s("otel")], nodes: Vec::new() },
        components: vec![
            comp("ga", "gateway", vec![port("api", "sync-call", Some("server"))]),
            comp("b", "service", vec![port("invoke", "sync-call", Some("server"))]),
        ],
        edges: vec![e1, e2],
    }
}

#[test]
fn simulate_cycle_safe() {
    let a = ring();
    let r = simulate(&a);
    assert!(!r.steps.is_empty());
    assert!(r.hops <= 2, "hops bounded, got {}", r.hops);
    assert!(r.steps.len() <= 16, "steps bounded (no infinite loop): {}", r.steps.len());
}

#[test]
fn component_name_optional() {
    let a = comp("x", "service", Vec::new());
    assert!(a.name.is_none());
    assert_eq!(a.display_name(), "x", "display falls back to id");
}

#[test]
fn display_name_prefers_name() {
    let mut b = comp("gateway", "gateway", Vec::new());
    b.name = Some(s("API网关·五扇门"));
    assert_eq!(b.display_name(), "API网关·五扇门");
}

#[test]
fn kinds_include_crosscut() {
    assert!(KINDS.contains(&"crosscut"));
    assert_eq!(KINDS.len(), 7);
}
