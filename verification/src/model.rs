//! The architecture model: components with typed ports, typed edges between
//! ports, named cross-cutting policies and inherited defaults.
//!
//! The named maps of the model (policies, annotations, per-kind node defaults)
//! are held as vectors of keyed entries; a lookup takes the first entry with
//! the key, which is the only one in a well-formed model.
use vstd::prelude::*;
use crate::text::{split_at_dot, split_once_dot, str_eq};

verus! {

/// The six contract types; each is both a port type and an edge type.
pub const CONTRACT_TYPES: [&'static str; 6] = [
    "sync-call",
    "event",
    "data-store",
    "tool-call",
    "model-io",
    "stream",
];

/// The component kinds, including the cross-cutting kind.
pub const KINDS: [&'static str; 7] = [
    "gateway",
    "service",
    "ai-runtime",
    "datastore",
    "bus",
    "app",
    "crosscut",
];

/// The contract types as character sequences.
pub open spec fn contract_types() -> Seq<Seq<char>> {
    seq!["sync-call"@, "event"@, "data-store"@, "tool-call"@, "model-io"@, "stream"@]
}

pub open spec fn spec_is_contract(t: Seq<char>) -> bool {
    contract_types().contains(t)
}

/// The display colour of a contract type; grey for anything else.
pub open spec fn spec_contract_color(t: Seq<char>) -> Seq<char> {
    if t == "sync-call"@ {
        "#dc2626"@
    } else if t == "event"@ {
        "#f59e0b"@
    } else if t == "data-store"@ {
        "#7c3aed"@
    } else if t == "tool-call"@ {
        "#0ea5e9"@
    } else if t == "model-io"@ {
        "#10b981"@
    } else if t == "stream"@ {
        "#ec4899"@
    } else {
        "#6b7280"@
    }
}

/// The Chinese display name of a contract type; "unknown" for anything else.
pub open spec fn spec_contract_zh(t: Seq<char>) -> Seq<char> {
    if t == "sync-call"@ {
        "同步调用"@
    } else if t == "event"@ {
        "异步事件"@
    } else if t == "data-store"@ {
        "数据存储"@
    } else if t == "tool-call"@ {
        "工具调用"@
    } else if t == "model-io"@ {
        "模型I/O"@
    } else if t == "stream"@ {
        "流式"@
    } else {
        "未知"@
    }
}

pub fn is_contract(t: &str) -> (r: bool)
    ensures
        r == spec_is_contract(t@),
{
    let r = str_eq(t, "sync-call") || str_eq(t, "event") || str_eq(t, "data-store") || str_eq(
        t,
        "tool-call",
    ) || str_eq(t, "model-io") || str_eq(t, "stream");
    proof {
        let ct = contract_types();
        if r {
            if t@ == "sync-call"@ {
                assert(ct[0] == t@);
            } else if t@ == "event"@ {
                assert(ct[1] == t@);
            } else if t@ == "data-store"@ {
                assert(ct[2] == t@);
            } else if t@ == "tool-call"@ {
                assert(ct[3] == t@);
            } else if t@ == "model-io"@ {
                assert(ct[4] == t@);
            } else {
                assert(ct[5] == t@);
            }
        } else {
            assert forall|i: int| 0 <= i < ct.len() implies ct[i] != t@ by {
                if i == 0 {
                } else if i == 1 {
                } else if i == 2 {
                } else if i == 3 {
                } else if i == 4 {
                } else {
                }
            }
        }
    }
    r
}

pub fn contract_color(t: &str) -> (r: &'static str)
    ensures
        r@ == spec_contract_color(t@),
{
    if str_eq(t, "sync-call") {
        "#dc2626"
    } else if str_eq(t, "event") {
        "#f59e0b"
    } else if str_eq(t, "data-store") {
        "#7c3aed"
    } else if str_eq(t, "tool-call") {
        "#0ea5e9"
    } else if str_eq(t, "model-io") {
        "#10b981"
    } else if str_eq(t, "stream") {
        "#ec4899"
    } else {
        "#6b7280"
    }
}

pub fn contract_zh(t: &str) -> (r: &'static str)
    ensures
        r@ == spec_contract_zh(t@),
{
    if str_eq(t, "sync-call") {
        "同步调用"
    } else if str_eq(t, "event") {
        "异步事件"
    } else if str_eq(t, "data-store") {
        "数据存储"
    } else if str_eq(t, "tool-call") {
        "工具调用"
    } else if str_eq(t, "model-io") {
        "模型I/O"
    } else if str_eq(t, "stream") {
        "流式"
    } else {
        "未知"
    }
}

/// An entry of the model that is found by a string key.
pub trait Keyed {
    spec fn key(&self) -> Seq<char>;

    fn key_str(&self) -> (r: &str)
        ensures
            r@ == self.key(),
    ;
}

/// Index of the first entry of `s`, at or after `i`, whose key is `k`; -1 when none.
pub open spec fn key_index_from<T: Keyed>(s: Seq<T>, k: Seq<char>, i: int) -> int
    decreases s.len() - i,
{
    if i < 0 || i >= s.len() {
        -1
    } else if s[i].key() == k {
        i
    } else {
        key_index_from(s, k, i + 1)
    }
}

/// Index of the first entry of `s` whose key is `k`; -1 when none.
pub open spec fn key_index<T: Keyed>(s: Seq<T>, k: Seq<char>) -> int {
    key_index_from(s, k, 0)
}

pub proof fn lemma_key_index_from<T: Keyed>(s: Seq<T>, k: Seq<char>, i: int)
    requires
        0 <= i,
    ensures
        key_index_from(s, k, i) == -1 || (i <= key_index_from(s, k, i) < s.len() && s[key_index_from(s, k, i)].key() == k),
        key_index_from(s, k, i) != -1 ==> forall|j: int| i <= j < key_index_from(s, k, i) ==> s[j].key() != k,
        key_index_from(s, k, i) == -1 ==> forall|j: int| i <= j < s.len() ==> s[j].key() != k,
    decreases s.len() - i,
{
    if i < s.len() && s[i].key() != k {
        lemma_key_index_from(s, k, i + 1);
    }
}

/// The first-match index is the first index with the key, and -1 exactly when
/// no entry has the key.
pub proof fn lemma_key_index<T: Keyed>(s: Seq<T>, k: Seq<char>)
    ensures
        key_index(s, k) == -1 || (0 <= key_index(s, k) < s.len() && s[key_index(s, k)].key() == k),
        key_index(s, k) != -1 ==> forall|j: int| 0 <= j < key_index(s, k) ==> s[j].key() != k,
        key_index(s, k) == -1 <==> forall|j: int| 0 <= j < s.len() ==> s[j].key() != k,
{
    lemma_key_index_from(s, k, 0);
}

/// The position of the first entry of `v` whose key is `k`.
pub fn find_key<T: Keyed>(v: &Vec<T>, k: &str) -> (r: Option<usize>)
    ensures
        match r {
            Some(i) => i as int == key_index(v@, k@) && i < v@.len() && v@[i as int].key() == k@ && forall|j: int|
                0 <= j < i ==> v@[j].key() != k@,
            None => key_index(v@, k@) == -1 && forall|j: int| 0 <= j < v@.len() ==> v@[j].key() != k@,
        },
{
    proof {
        lemma_key_index(v@, k@);
    }
    let n = v.len();
    let mut i: usize = 0;
    while i < n
        invariant
            n == v@.len(),
            i <= n,
            key_index(v@, k@) == key_index_from(v@, k@, i as int),
        decreases n - i,
    {
        if str_eq(v[i].key_str(), k) {
            proof {
                lemma_key_index(v@, k@);
            }
            return Some(i);
        }
        i = i + 1;
    }
    proof {
        lemma_key_index(v@, k@);
    }
    None
}

/// The view of an optional string.
pub open spec fn opt_view(o: Option<String>) -> Option<Seq<char>> {
    match o {
        Some(s) => Some(s@),
        None => None,
    }
}

/// A `key: value` annotation of a component.
#[derive(Debug, Clone, PartialEq, Eq)]
pub struct Annotation {
    pub key: String,
    pub value: String,
}

/// A cross-cutting policy: its type (auth, trace, crypto, slo), an optional
/// scheme and an optional policy decision point, the id of a component.
#[derive(Debug, Clone, PartialEq, Eq)]
pub struct Policy {
    pub ptype: String,
    pub scheme: Option<String>,
    pub pdp: Option<String>,
}

/// A policy under its name.
#[derive(Debug, Clone, PartialEq, Eq)]
pub struct NamedPolicy {
    pub name: String,
    pub policy: Policy,
}

/// The annotations that every component of one kind inherits.
#[derive(Debug, Clone, PartialEq, Eq)]
pub struct NodeDefaults {
    pub kind: String,
    pub annotations: Vec<Annotation>,
}

/// Inherited defaults: policy names annotated on every edge, and per-kind
/// component annotations.
#[derive(Debug, Clone, PartialEq, Eq)]
pub struct Defaults {
    pub edges: Vec<String>,
    pub nodes: Vec<NodeDefaults>,
}

/// A typed port of a component.
#[derive(Debug, Clone, PartialEq, Eq)]
pub struct Port {
    pub id: String,
    pub ptype: String,
    pub role: Option<String>,
    pub spec: Option<String>,
}

/// A component: id, optional display name, kind, annotations and ports.
#[derive(Debug, Clone, PartialEq, Eq)]
pub struct Component {
    pub id: String,
    pub name: Option<String>,
    pub kind: String,
    pub annotations: Vec<Annotation>,
    pub ports: Vec<Port>,
}

/// A typed edge between two port references `component.port`, with the
/// names of the policies annotated on it.
#[derive(Debug, Clone, PartialEq, Eq)]
pub struct Edge {
    pub id: String,
    pub from: String,
    pub to: String,
    pub etype: String,
    pub spec: Option<String>,
    pub annotations: Vec<String>,
}

/// A whole architecture.
#[derive(Debug, Clone, PartialEq, Eq)]
pub struct Arch {
    pub version: u32,
    pub policies: Vec<NamedPolicy>,
    pub defaults: Defaults,
    pub components: Vec<Component>,
    pub edges: Vec<Edge>,
}

impl Keyed for Annotation {
    open spec fn key(&self) -> Seq<char> {
        self.key@
    }

    fn key_str(&self) -> (r: &str) {
        self.key.as_str()
    }
}

impl Keyed for NamedPolicy {
    open spec fn key(&self) -> Seq<char> {
        self.name@
    }

    fn key_str(&self) -> (r: &str) {
        self.name.as_str()
    }
}

impl Keyed for NodeDefaults {
    open spec fn key(&self) -> Seq<char> {
        self.kind@
    }

    fn key_str(&self) -> (r: &str) {
        self.kind.as_str()
    }
}

impl Keyed for Port {
    open spec fn key(&self) -> Seq<char> {
        self.id@
    }

    fn key_str(&self) -> (r: &str) {
        self.id.as_str()
    }
}

impl Keyed for Component {
    open spec fn key(&self) -> Seq<char> {
        self.id@
    }

    fn key_str(&self) -> (r: &str) {
        self.id.as_str()
    }
}

/// No two entries of `s` share a key.
pub open spec fn keys_distinct<T: Keyed>(s: Seq<T>) -> bool {
    forall|i: int, j: int| 0 <= i < s.len() && 0 <= j < s.len() && i != j ==> s[i].key() != s[j].key()
}

/// Whether no two entries of `v` share a key.
pub fn keys_distinct_exec<T: Keyed>(v: &Vec<T>) -> (r: bool)
    ensures
        r == keys_distinct(v@),
{
    let n = v.len();
    let mut i: usize = 0;
    while i < n
        invariant
            n == v@.len(),
            i <= n,
            forall|p: int, q: int| 0 <= p < i && 0 <= q < n && p != q ==> v@[p].key() != v@[q].key(),
        decreases n - i,
    {
        let mut j: usize = 0;
        while j < n
            invariant
                n == v@.len(),
                i < n,
                j <= n,
                forall|p: int, q: int| 0 <= p < i && 0 <= q < n && p != q ==> v@[p].key() != v@[q].key(),
                forall|q: int| 0 <= q < j && q != i ==> v@[i as int].key() != v@[q].key(),
            decreases n - j,
        {
            if j != i && str_eq(v[i].key_str(), v[j].key_str()) {
                assert(v@[i as int].key() == v@[j as int].key());
                return false;
            }
            j = j + 1;
        }
        i = i + 1;
    }
    true
}

/// The port table of a kind: (id, contract type, role).
pub open spec fn default_port_table(kind: Seq<char>) -> Seq<(Seq<char>, Seq<char>, Option<Seq<char>>)> {
    if kind == "gateway"@ {
        seq![
            ("api"@, "sync-call"@, Some("server"@)),
            ("events"@, "event"@, None),
            ("chat"@, "stream"@, Some("server"@)),
        ]
    } else if kind == "service"@ {
        seq![
            ("invoke"@, "sync-call"@, Some("server"@)),
            ("emitted"@, "event"@, None),
            ("store"@, "data-store"@, None),
        ]
    } else if kind == "ai-runtime"@ {
        seq![
            ("invoke"@, "sync-call"@, Some("server"@)),
            ("llm"@, "model-io"@, None),
            ("tools"@, "tool-call"@, None),
            ("session"@, "data-store"@, None),
        ]
    } else if kind == "datastore"@ {
        seq![("vault"@, "data-store"@, Some("server"@)), ("admin"@, "sync-call"@, Some("server"@))]
    } else if kind == "bus"@ {
        seq![("topic"@, "event"@, Some("server"@))]
    } else if kind == "app"@ {
        seq![("backend"@, "sync-call"@, None), ("ui"@, "stream"@, None)]
    } else {
        seq![("invoke"@, "sync-call"@, Some("server"@))]
    }
}

/// `p` is the port described by the table row `t`, without a spec.
pub open spec fn port_is(p: Port, t: (Seq<char>, Seq<char>, Option<Seq<char>>)) -> bool {
    &&& p.id@ == t.0
    &&& p.ptype@ == t.1
    &&& opt_view(p.role) == t.2
    &&& p.spec is None
}

fn p(id: &str, ptype: &str, role: Option<&str>) -> (r: Port)
    ensures
        r.id@ == id@,
        r.ptype@ == ptype@,
        opt_view(r.role) == match role {
            Some(s) => Some(s@),
            None => None::<Seq<char>>,
        },
        r.spec is None,
{
    Port {
        id: String::from_str(id),
        ptype: String::from_str(ptype),
        role: match role {
            Some(s) => Some(String::from_str(s)),
            None => None,
        },
        spec: None,
    }
}

/// The ports that a new component of `kind` comes with.
pub fn default_ports(kind: &str) -> (r: Vec<Port>)
    ensures
        r@.len() == default_port_table(kind@).len(),
        forall|i: int| 0 <= i < r@.len() ==> port_is(r@[i], default_port_table(kind@)[i]),
{
    if str_eq(kind, "gateway") {
        vec![
            p("api", "sync-call", Some("server")),
            p("events", "event", None),
            p("chat", "stream", Some("server")),
        ]
    } else if str_eq(kind, "service") {
        vec![
            p("invoke", "sync-call", Some("server")),
            p("emitted", "event", None),
            p("store", "data-store", None),
        ]
    } else if str_eq(kind, "ai-runtime") {
        vec![
            p("invoke", "sync-call", Some("server")),
            p("llm", "model-io", None),
            p("tools", "tool-call", None),
            p("session", "data-store", None),
        ]
    } else if str_eq(kind, "datastore") {
        vec![p("vault", "data-store", Some("server")), p("admin", "sync-call", Some("server"))]
    } else if str_eq(kind, "bus") {
        vec![p("topic", "event", Some("server"))]
    } else if str_eq(kind, "app") {
        vec![p("backend", "sync-call", None), p("ui", "stream", None)]
    } else {
        vec![p("invoke", "sync-call", Some("server"))]
    }
}

/// The component and port indices that the reference `r` (`component.port`)
/// names: the first component with the id before the first `.`, and its first
/// port with the id after it.
pub open spec fn resolve(a: Arch, r: Seq<char>) -> Option<(int, int)> {
    match split_at_dot(r) {
        None => None,
        Some((cid, pid)) => {
            let ci = key_index(a.components@, cid);
            if ci < 0 {
                None
            } else {
                let pi = key_index(a.components@[ci].ports@, pid);
                if pi < 0 {
                    None
                } else {
                    Some((ci, pi))
                }
            }
        },
    }
}

/// The index of the first component with id `id`; -1 when none.
pub open spec fn comp_index(a: Arch, id: Seq<char>) -> int {
    key_index(a.components@, id)
}

impl Component {
    /// The display name, falling back to the id.
    pub open spec fn spec_display_name(self) -> Seq<char> {
        match self.name {
            Some(n) => n@,
            None => self.id@,
        }
    }

    pub fn display_name(&self) -> (r: &str)
        ensures
            r@ == self.spec_display_name(),
    {
        match &self.name {
            Some(n) => n.as_str(),
            None => self.id.as_str(),
        }
    }
}

impl Arch {
    /// The policies, the node defaults and every list of annotations have
    /// distinct keys, as they do in a model read from keyed maps. Lookups
    /// take the first entry with a key; in a well-formed model it is the
    /// only one.
    pub open spec fn well_formed(self) -> bool {
        &&& keys_distinct(self.policies@)
        &&& keys_distinct(self.defaults.nodes@)
        &&& forall|i: int| 0 <= i < self.defaults.nodes@.len() ==> keys_distinct(#[trigger] self.defaults.nodes@[i].annotations@)
        &&& forall|i: int| 0 <= i < self.components@.len() ==> keys_distinct(#[trigger] self.components@[i].annotations@)
    }

    /// Whether the model is well formed.
    pub fn check_well_formed(&self) -> (r: bool)
        ensures
            r == self.well_formed(),
    {
        if !keys_distinct_exec(&self.policies) || !keys_distinct_exec(&self.defaults.nodes) {
            return false;
        }
        let n = self.defaults.nodes.len();
        let mut i: usize = 0;
        while i < n
            invariant
                n == self.defaults.nodes@.len(),
                i <= n,
                forall|p: int| 0 <= p < i ==> keys_distinct(#[trigger] self.defaults.nodes@[p].annotations@),
            decreases n - i,
        {
            if !keys_distinct_exec(&self.defaults.nodes[i].annotations) {
                return false;
            }
            i = i + 1;
        }
        let m = self.components.len();
        let mut i: usize = 0;
        while i < m
            invariant
                m == self.components@.len(),
                i <= m,
                forall|p: int| 0 <= p < i ==> keys_distinct(#[trigger] self.components@[p].annotations@),
            decreases m - i,
        {
            if !keys_distinct_exec(&self.components[i].annotations) {
                return false;
            }
            i = i + 1;
        }
        true
    }

    /// The first component with id `id`.
    pub fn component(&self, id: &str) -> (r: Option<&Component>)
        ensures
            match r {
                Some(c) => comp_index(*self, id@) >= 0 && *c == self.components@[comp_index(*self, id@)]
                    && c.id@ == id@ && forall|j: int| 0 <= j < comp_index(*self, id@) ==> self.components@[j].id@
                    != id@,
                None => comp_index(*self, id@) == -1 && forall|j: int|
                    0 <= j < self.components@.len() ==> self.components@[j].id@ != id@,
            },
    {
        match find_key(&self.components, id) {
            Some(i) => Some(&self.components[i]),
            None => None,
        }
    }

    /// The component and port indices named by the reference `r`.
    pub fn resolve_port_index(&self, r: &str) -> (res: Option<(usize, usize)>)
        ensures
            match res {
                Some((ci, pi)) => resolve(*self, r@) == Some((ci as int, pi as int)) && ci < self.components@.len()
                    && pi < self.components@[ci as int].ports@.len(),
                None => resolve(*self, r@) is None,
            },
    {
        match split_once_dot(r) {
            None => None,
            Some((cid, pid)) => match find_key(&self.components, cid) {
                None => None,
                Some(ci) => match find_key(&self.components[ci].ports, pid) {
                    None => None,
                    Some(pi) => Some((ci, pi)),
                },
            },
        }
    }

    /// The component and port named by the reference `r` (`component.port`).
    pub fn resolve_port(&self, r: &str) -> (res: Option<(&Component, &Port)>)
        ensures
            match res {
                Some((c, pt)) => resolve(*self, r@) matches Some((ci, pi)) && *c == self.components@[ci]
                    && *pt == self.components@[ci].ports@[pi],
                None => resolve(*self, r@) is None,
            },
    {
        match self.resolve_port_index(r) {
            None => None,
            Some((ci, pi)) => {
                let c = &self.components[ci];
                Some((c, &c.ports[pi]))
            },
        }
    }
}

// ----- laws -----

/// A resolved reference is the component's id, a dot, and the port's id.
pub proof fn law_resolve_reassembles(a: Arch, r: Seq<char>)
    requires
        resolve(a, r) is Some,
    ensures
        ({
            let (ci, pi) = resolve(a, r)->0;
            &&& 0 <= ci < a.components@.len()
            &&& 0 <= pi < a.components@[ci].ports@.len()
            &&& a.components@[ci].id@ + "."@ + a.components@[ci].ports@[pi].id@ == r
        }),
{
    let d = crate::text::first_dot(r);
    crate::text::lemma_char_index_from_range(r, '.', 0);
    let (cid, pid) = split_at_dot(r)->0;
    lemma_key_index(a.components@, cid);
    let ci = key_index(a.components@, cid);
    lemma_key_index(a.components@[ci].ports@, pid);
    reveal_strlit(".");
    assert(r =~= r.take(d) + "."@ + r.skip(d + 1));
}

/// A type has a contract colour other than grey exactly when it is a contract type.
pub proof fn law_contract_color_known(t: Seq<char>)
    ensures
        spec_is_contract(t) <==> spec_contract_color(t) != "#6b7280"@,
{
    reveal_strlit("#6b7280");
    reveal_strlit("#dc2626");
    reveal_strlit("#f59e0b");
    reveal_strlit("#7c3aed");
    reveal_strlit("#0ea5e9");
    reveal_strlit("#10b981");
    reveal_strlit("#ec4899");
    let g = "#6b7280"@;
    assert("#dc2626"@[1] != g[1]);
    assert("#f59e0b"@[1] != g[1]);
    assert("#7c3aed"@[1] != g[1]);
    assert("#0ea5e9"@[1] != g[1]);
    assert("#10b981"@[1] != g[1]);
    assert("#ec4899"@[1] != g[1]);
    lemma_contract_types_contains(t);
}

/// A type has a Chinese name other than "unknown" exactly when it is a contract type.
pub proof fn law_contract_zh_known(t: Seq<char>)
    ensures
        spec_is_contract(t) <==> spec_contract_zh(t) != "未知"@,
{
    reveal_strlit("未知");
    reveal_strlit("同步调用");
    reveal_strlit("异步事件");
    reveal_strlit("数据存储");
    reveal_strlit("工具调用");
    reveal_strlit("模型I/O");
    reveal_strlit("流式");
    let u = "未知"@;
    assert("同步调用"@[0] != u[0]);
    assert("异步事件"@[0] != u[0]);
    assert("数据存储"@[0] != u[0]);
    assert("工具调用"@[0] != u[0]);
    assert("模型I/O"@[0] != u[0]);
    assert("流式"@[0] != u[0]);
    lemma_contract_types_contains(t);
}

/// Two different contract types never share a colour, and none of them is grey.
pub proof fn law_contract_colors_distinct(t1: Seq<char>, t2: Seq<char>)
    requires
        spec_is_contract(t1),
        spec_is_contract(t2),
        t1 != t2,
    ensures
        spec_contract_color(t1) != spec_contract_color(t2),
        spec_contract_color(t1) != "#6b7280"@,
{
    reveal_strlit("#6b7280");
    reveal_strlit("#dc2626");
    reveal_strlit("#f59e0b");
    reveal_strlit("#7c3aed");
    reveal_strlit("#0ea5e9");
    reveal_strlit("#10b981");
    reveal_strlit("#ec4899");
    lemma_contract_types_contains(t1);
    lemma_contract_types_contains(t2);
    let c1 = spec_contract_color(t1);
    let c2 = spec_contract_color(t2);
    assert(c1[1] != c2[1]);
    assert(c1[1] != "#6b7280"@[1]);
}

/// The colours of the contract types: sync-call red, event amber, data-store
/// violet, tool-call sky blue, model-io green, stream pink; anything else grey.
pub proof fn law_contract_color_values(t: Seq<char>)
    ensures
        t == "sync-call"@ ==> spec_contract_color(t) == "#dc2626"@,
        t == "event"@ ==> spec_contract_color(t) == "#f59e0b"@,
        t == "data-store"@ ==> spec_contract_color(t) == "#7c3aed"@,
        t == "tool-call"@ ==> spec_contract_color(t) == "#0ea5e9"@,
        t == "model-io"@ ==> spec_contract_color(t) == "#10b981"@,
        t == "stream"@ ==> spec_contract_color(t) == "#ec4899"@,
        !spec_is_contract(t) ==> spec_contract_color(t) == "#6b7280"@,
{
    reveal_strlit("sync-call");
    reveal_strlit("event");
    reveal_strlit("data-store");
    reveal_strlit("tool-call");
    reveal_strlit("model-io");
    reveal_strlit("stream");
    assert("sync-call"@[0] != "event"@[0] && "sync-call"@[0] != "data-store"@[0] && "sync-call"@[0] != "tool-call"@[0]
        && "sync-call"@[0] != "model-io"@[0] && "sync-call"@[1] != "stream"@[1]);
    assert("event"@[0] != "data-store"@[0] && "event"@[0] != "tool-call"@[0] && "event"@[0] != "model-io"@[0]
        && "event"@[0] != "stream"@[0]);
    assert("data-store"@[0] != "tool-call"@[0] && "data-store"@[0] != "model-io"@[0] && "data-store"@[0]
        != "stream"@[0]);
    assert("tool-call"@[0] != "model-io"@[0] && "tool-call"@[0] != "stream"@[0] && "model-io"@[0] != "stream"@[0]);
    lemma_contract_types_contains(t);
}

/// Two different contract types never share a Chinese name, and none of them
/// is "unknown".
pub proof fn law_contract_zh_distinct(t1: Seq<char>, t2: Seq<char>)
    requires
        spec_is_contract(t1),
        spec_is_contract(t2),
        t1 != t2,
    ensures
        spec_contract_zh(t1) != spec_contract_zh(t2),
        spec_contract_zh(t1) != "未知"@,
{
    reveal_strlit("未知");
    reveal_strlit("同步调用");
    reveal_strlit("异步事件");
    reveal_strlit("数据存储");
    reveal_strlit("工具调用");
    reveal_strlit("模型I/O");
    reveal_strlit("流式");
    lemma_contract_types_contains(t1);
    lemma_contract_types_contains(t2);
    let z1 = spec_contract_zh(t1);
    let z2 = spec_contract_zh(t2);
    assert(z1[0] != z2[0]);
    assert(z1[0] != "未知"@[0]);
}

/// The Chinese names of the contract types; "unknown" for anything else.
pub proof fn law_contract_zh_values(t: Seq<char>)
    ensures
        t == "sync-call"@ ==> spec_contract_zh(t) == "同步调用"@,
        t == "event"@ ==> spec_contract_zh(t) == "异步事件"@,
        t == "data-store"@ ==> spec_contract_zh(t) == "数据存储"@,
        t == "tool-call"@ ==> spec_contract_zh(t) == "工具调用"@,
        t == "model-io"@ ==> spec_contract_zh(t) == "模型I/O"@,
        t == "stream"@ ==> spec_contract_zh(t) == "流式"@,
        !spec_is_contract(t) ==> spec_contract_zh(t) == "未知"@,
{
    reveal_strlit("sync-call");
    reveal_strlit("event");
    reveal_strlit("data-store");
    reveal_strlit("tool-call");
    reveal_strlit("model-io");
    reveal_strlit("stream");
    assert("sync-call"@[0] != "event"@[0] && "sync-call"@[0] != "data-store"@[0] && "sync-call"@[0] != "tool-call"@[0]
        && "sync-call"@[0] != "model-io"@[0] && "sync-call"@[1] != "stream"@[1]);
    assert("event"@[0] != "data-store"@[0] && "event"@[0] != "tool-call"@[0] && "event"@[0] != "model-io"@[0]
        && "event"@[0] != "stream"@[0]);
    assert("data-store"@[0] != "tool-call"@[0] && "data-store"@[0] != "model-io"@[0] && "data-store"@[0]
        != "stream"@[0]);
    assert("tool-call"@[0] != "model-io"@[0] && "tool-call"@[0] != "stream"@[0] && "model-io"@[0] != "stream"@[0]);
    lemma_contract_types_contains(t);
}

/// The ports that a new component comes with, kind by kind: (id, contract
/// type, role). A kind outside the list gets one sync-call server port.
pub proof fn law_default_port_values(kind: Seq<char>)
    ensures
        kind == "gateway"@ ==> default_port_table(kind) == seq![
            ("api"@, "sync-call"@, Some("server"@)),
            ("events"@, "event"@, None),
            ("chat"@, "stream"@, Some("server"@)),
        ],
        kind == "service"@ ==> default_port_table(kind) == seq![
            ("invoke"@, "sync-call"@, Some("server"@)),
            ("emitted"@, "event"@, None::<Seq<char>>),
            ("store"@, "data-store"@, None::<Seq<char>>),
        ],
        kind == "ai-runtime"@ ==> default_port_table(kind) == seq![
            ("invoke"@, "sync-call"@, Some("server"@)),
            ("llm"@, "model-io"@, None::<Seq<char>>),
            ("tools"@, "tool-call"@, None::<Seq<char>>),
            ("session"@, "data-store"@, None::<Seq<char>>),
        ],
        kind == "datastore"@ ==> default_port_table(kind) == seq![
            ("vault"@, "data-store"@, Some("server"@)),
            ("admin"@, "sync-call"@, Some("server"@)),
        ],
        kind == "bus"@ ==> default_port_table(kind) == seq![("topic"@, "event"@, Some("server"@))],
        kind == "app"@ ==> default_port_table(kind) == seq![
            ("backend"@, "sync-call"@, None::<Seq<char>>),
            ("ui"@, "stream"@, None::<Seq<char>>),
        ],
        kind != "gateway"@ && kind != "service"@ && kind != "ai-runtime"@ && kind != "datastore"@ && kind
            != "bus"@ && kind != "app"@ ==> default_port_table(kind) == seq![("invoke"@, "sync-call"@, Some("server"@))],
{
    reveal_strlit("gateway");
    reveal_strlit("service");
    reveal_strlit("ai-runtime");
    reveal_strlit("datastore");
    reveal_strlit("bus");
    reveal_strlit("app");
    assert("gateway"@[0] != "service"@[0] && "gateway"@[0] != "ai-runtime"@[0] && "gateway"@[0] != "datastore"@[0]
        && "gateway"@[0] != "bus"@[0] && "gateway"@[0] != "app"@[0]);
    assert("service"@[0] != "ai-runtime"@[0] && "service"@[0] != "datastore"@[0] && "service"@[0] != "bus"@[0]
        && "service"@[0] != "app"@[0]);
    assert("ai-runtime"@[1] != "datastore"@[1] && "ai-runtime"@[0] != "bus"@[0] && "ai-runtime"@[1] != "app"@[1]);
    assert("datastore"@[0] != "bus"@[0] && "datastore"@[0] != "app"@[0] && "bus"@[0] != "app"@[0]);
}

proof fn lemma_contract_types_contains(t: Seq<char>)
    ensures
        spec_is_contract(t) <==> (t == "sync-call"@ || t == "event"@ || t == "data-store"@ || t == "tool-call"@
            || t == "model-io"@ || t == "stream"@),
{
    let ct = contract_types();
    if t == "sync-call"@ {
        assert(ct[0] == t);
    } else if t == "event"@ {
        assert(ct[1] == t);
    } else if t == "data-store"@ {
        assert(ct[2] == t);
    } else if t == "tool-call"@ {
        assert(ct[3] == t);
    } else if t == "model-io"@ {
        assert(ct[4] == t);
    } else if t == "stream"@ {
        assert(ct[5] == t);
    }
}

/// In a model whose keys are distinct, the first-match lookup finds the one
/// entry with the key, as a map lookup would.
pub proof fn law_lookup_unique<T: Keyed>(s: Seq<T>, i: int)
    requires
        keys_distinct(s),
        0 <= i < s.len(),
    ensures
        key_index(s, s[i].key()) == i,
{
    lemma_key_index(s, s[i].key());
}

/// In a well-formed model the policy looked up by the name of the `i`-th
/// policy is that policy.
pub proof fn law_policy_lookup(a: Arch, i: int)
    requires
        a.well_formed(),
        0 <= i < a.policies@.len(),
    ensures
        key_index(a.policies@, a.policies@[i].name@) == i,
{
    law_lookup_unique(a.policies@, i);
}

/// Every port that a new component comes with has a contract type.
pub proof fn law_default_ports_typed(kind: Seq<char>, i: int)
    requires
        0 <= i < default_port_table(kind).len(),
    ensures
        spec_is_contract(default_port_table(kind)[i].1),
{
    lemma_contract_types_contains(default_port_table(kind)[i].1);
}

} // verus!
