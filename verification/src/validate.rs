//! Design-time (L1) rule checks over an architecture.
//!
//! Every check yields an outcome: a pass, or an error that names the element
//! (edge id, component id or policy name) that broke a rule. `validate`
//! returns the number of passes, the number of failures and the errors, in
//! the order in which the checks run.
use vstd::prelude::*;
use crate::model::{
    Arch, Component, Edge, Keyed, NamedPolicy, Port, comp_index, find_key, key_index, keys_distinct, lemma_key_index,
    resolve,
};
use crate::sync_cycle::{
    cycle_walk, find_sync_cycle, is_cycle, is_edge_id, law_cycle_complete, law_cycle_names_edge, law_cycle_sound,
    spec_find_sync_cycle,
    strings_view,
};
use crate::text::{contains_str, has_substring, str_eq};

verus! {

/// A rule violation: the element that broke the rule, the rule's name and a
/// human-readable message.
#[derive(Debug, Clone, PartialEq, Eq)]
pub struct VErr {
    pub element: String,
    pub rule: String,
    pub message: String,
}

/// The view of a rule violation.
pub struct ErrView {
    pub element: Seq<char>,
    pub rule: Seq<char>,
    pub message: Seq<char>,
}

impl View for VErr {
    type V = ErrView;

    open spec fn view(&self) -> ErrView {
        ErrView { element: self.element@, rule: self.rule@, message: self.message@ }
    }
}

impl Keyed for VErr {
    open spec fn key(&self) -> Seq<char> {
        self.element@
    }

    fn key_str(&self) -> (r: &str) {
        self.element.as_str()
    }
}

/// The views of a list of violations.
pub open spec fn errs_view(v: Seq<VErr>) -> Seq<ErrView> {
    v.map_values(|e: VErr| e@)
}

/// The outcome of one check: `None` for a pass.
pub type Outcome = Option<ErrView>;

pub open spec fn fail(element: Seq<char>, rule: Seq<char>, message: Seq<char>) -> Outcome {
    Some(ErrView { element, rule, message })
}

/// The violations among a list of outcomes, in order.
pub open spec fn failures(o: Seq<Outcome>) -> Seq<ErrView>
    decreases o.len(),
{
    if o.len() == 0 {
        seq![]
    } else {
        let p = failures(o.drop_last());
        match o.last() {
            Some(e) => p.push(e),
            None => p,
        }
    }
}

/// The number of passes among a list of outcomes.
pub open spec fn passes(o: Seq<Outcome>) -> nat
    decreases o.len(),
{
    if o.len() == 0 {
        0
    } else {
        passes(o.drop_last()) + if o.last() is None {
            1nat
        } else {
            0nat
        }
    }
}

pub proof fn lemma_failures_passes_push(o: Seq<Outcome>, x: Outcome)
    ensures
        failures(o.push(x)) == match x {
            Some(e) => failures(o).push(e),
            None => failures(o),
        },
        passes(o.push(x)) == passes(o) + if x is None {
            1nat
        } else {
            0nat
        },
{
    assert(o.push(x).drop_last() =~= o);
}

pub proof fn lemma_failures_passes_len(o: Seq<Outcome>)
    ensures
        failures(o).len() + passes(o) == o.len(),
    decreases o.len(),
{
    if o.len() > 0 {
        lemma_failures_passes_len(o.drop_last());
    }
}

/// `x` when `b`, nothing otherwise.
pub open spec fn when(b: bool, x: Outcome) -> Seq<Outcome> {
    if b {
        seq![x]
    } else {
        seq![]
    }
}

// ----- annotations and policies -----

/// The policy named `n` exists and has type `ptype`.
pub open spec fn policy_has_type(a: Arch, n: Seq<char>, ptype: Seq<char>) -> bool {
    let i = key_index(a.policies@, n);
    i >= 0 && a.policies@[i].policy.ptype@ == ptype
}

/// Some name in `names` denotes a policy of type `ptype`.
pub open spec fn any_has_type(a: Arch, names: Seq<String>, ptype: Seq<char>) -> bool {
    exists|i: int| 0 <= i < names.len() && policy_has_type(a, #[trigger] names[i]@, ptype)
}

/// The edge, with the default edge annotations inherited, carries a policy of type `ptype`.
pub open spec fn edge_has_type(a: Arch, e: Edge, ptype: Seq<char>) -> bool {
    any_has_type(a, a.defaults.edges@, ptype) || any_has_type(a, e.annotations@, ptype)
}

/// The sandbox level of a component: its own `sandbox` annotation, or else the
/// one that the defaults give its kind.
pub open spec fn effective_sandbox(a: Arch, c: Component) -> Option<Seq<char>> {
    let i = key_index(c.annotations@, "sandbox"@);
    if i >= 0 {
        Some(c.annotations@[i].value@)
    } else {
        let k = key_index(a.defaults.nodes@, c.kind@);
        if k >= 0 {
            let j = key_index(a.defaults.nodes@[k].annotations@, "sandbox"@);
            if j >= 0 {
                Some(a.defaults.nodes@[k].annotations@[j].value@)
            } else {
                None
            }
        } else {
            None
        }
    }
}

/// The sandbox level meets the floor.
pub open spec fn sandbox_ok(sb: Option<Seq<char>>) -> bool {
    sb == Some("container"@) || sb == Some("seccomp"@)
}

// ----- the checks -----

/// Ids of all components, then of all edges.
pub open spec fn all_ids(a: Arch) -> Seq<Seq<char>> {
    a.components@.map_values(|c: Component| c.id@) + a.edges@.map_values(|e: Edge| e.id@)
}

/// The duplicate-id check of the `k`-th id of `all_ids`.
pub open spec fn dup_outcome(a: Arch, k: int) -> Outcome {
    let ids = all_ids(a);
    if ids.take(k).contains(ids[k]) {
        if k < a.components@.len() {
            fail(ids[k], "dup-id"@, "组件 id 重复: "@ + ids[k])
        } else {
            fail(ids[k], "dup-id"@, "边 id 重复: "@ + ids[k])
        }
    } else {
        None
    }
}

/// The duplicate-id checks of the first `n` ids.
pub open spec fn dup_outcomes(a: Arch, n: int) -> Seq<Outcome>
    decreases n,
{
    if n <= 0 {
        seq![]
    } else {
        dup_outcomes(a, n - 1).push(dup_outcome(a, n - 1))
    }
}

/// The references of an edge that resolve to no port, joined by ", ".
pub open spec fn missing_refs(a: Arch, e: Edge) -> Seq<char> {
    if resolve(a, e.from@) is None && resolve(a, e.to@) is None {
        e.from@ + ", "@ + e.to@
    } else if resolve(a, e.from@) is None {
        e.from@
    } else {
        e.to@
    }
}

pub open spec fn self_loop_outcome(e: Edge) -> Outcome {
    if e.from@ == e.to@ {
        fail(e.id@, "self-loop"@, "边 "@ + e.id@ + " 自环: "@ + e.from@)
    } else {
        None
    }
}

pub open spec fn mismatch_outcome(e: Edge, fp: Port, tp: Port) -> Outcome {
    if fp.ptype@ == tp.ptype@ && fp.ptype@ == e.etype@ {
        None
    } else {
        fail(
            e.id@,
            "port-mismatch"@,
            "边 "@ + e.id@ + " 类型 "@ + e.etype@ + " 与端口类型不符 ("@ + e.from@ + ":"@ + fp.ptype@
                + " -> "@ + e.to@ + ":"@ + tp.ptype@ + ")"@,
        )
    }
}

pub open spec fn event_outcome(e: Edge, fp: Port) -> Outcome {
    if fp.ptype@ == "event"@ && (e.spec matches Some(s) && has_substring(s@, "topic"@)) {
        None
    } else {
        fail(e.id@, "event-consumer"@, "event 边 "@ + e.id@ + " 必须从 event 口出发且 spec 含 topic"@)
    }
}

pub open spec fn auth_outcome(a: Arch, e: Edge) -> Outcome {
    if edge_has_type(a, e, "auth"@) {
        None
    } else {
        fail(e.id@, "auth-propagation"@, "边 "@ + e.id@ + " 裸奔：缺 auth 注解（含 defaults 继承）"@)
    }
}

pub open spec fn trace_outcome(a: Arch, e: Edge) -> Outcome {
    if edge_has_type(a, e, "trace"@) {
        None
    } else {
        fail(e.id@, "trace-coverage"@, "边 "@ + e.id@ + " 缺 trace 注解"@)
    }
}

/// An application reaches the system through a gateway only.
pub open spec fn gate_outcome(e: Edge, fc: Component, tc: Component) -> Outcome {
    if tc.kind@ == "gateway"@ {
        None
    } else {
        fail(
            e.id@,
            "same-gate-iron"@,
            "边 "@ + e.id@ + " 违反同门铁律：应用 "@ + fc.id@ + " 必须经 gateway 接入，不可直连 "@ + tc.id@,
        )
    }
}

/// Data is stored in a datastore only.
pub open spec fn data_outcome(e: Edge, tc: Component) -> Outcome {
    if tc.kind@ == "datastore"@ {
        None
    } else {
        fail(
            e.id@,
            "core-only-data"@,
            "边 "@ + e.id@ + " 违反单一持久层：数据只能落入 datastore，"@ + tc.id@ + " 不是 datastore"@,
        )
    }
}

/// The checks of an edge whose references resolve to ports `fp` of `fc` and `tp` of `tc`.
pub open spec fn resolved_checks(a: Arch, e: Edge, fc: Component, fp: Port, tc: Component, tp: Port) -> Seq<Outcome> {
    seq![mismatch_outcome(e, fp, tp)] + when(e.etype@ == "event"@, event_outcome(e, fp)) + when(
        e.etype@ == "sync-call"@ || e.etype@ == "stream"@,
        auth_outcome(a, e),
    ) + seq![trace_outcome(a, e)] + when(fc.kind@ == "app"@, gate_outcome(e, fc, tc)) + when(
        e.etype@ == "data-store"@,
        data_outcome(e, tc),
    )
}

pub open spec fn unknown_ref_outcome(a: Arch, e: Edge) -> Outcome {
    fail(e.id@, "unknown-ref"@, "边 "@ + e.id@ + " 引用不存在的端口: "@ + missing_refs(a, e))
}

/// The checks of one edge, in order.
pub open spec fn edge_checks(a: Arch, e: Edge) -> Seq<Outcome> {
    let sl = self_loop_outcome(e);
    match (resolve(a, e.from@), resolve(a, e.to@)) {
        (Some((fci, fpi)), Some((tci, tpi))) => seq![sl, None] + resolved_checks(
            a,
            e,
            a.components@[fci],
            a.components@[fci].ports@[fpi],
            a.components@[tci],
            a.components@[tci].ports@[tpi],
        ),
        _ => seq![sl, unknown_ref_outcome(a, e)],
    }
}

/// The checks of the first `n` edges.
pub open spec fn edge_outcomes(a: Arch, n: int) -> Seq<Outcome>
    decreases n,
{
    if n <= 0 {
        seq![]
    } else {
        edge_outcomes(a, n - 1) + edge_checks(a, a.edges@[n - 1])
    }
}

/// The check that the decision point of a policy exists, when it names one.
pub open spec fn pdp_checks(a: Arch, np: NamedPolicy) -> Seq<Outcome> {
    match np.policy.pdp {
        Some(p) => seq![
            if comp_index(a, p@) >= 0 {
                None
            } else {
                fail(np.name@, "auth-propagation"@, "策略 "@ + np.name@ + " 的 pdp 不存在: "@ + p@)
            },
        ],
        None => seq![],
    }
}

pub open spec fn pdp_outcomes(a: Arch, n: int) -> Seq<Outcome>
    decreases n,
{
    if n <= 0 {
        seq![]
    } else {
        pdp_outcomes(a, n - 1) + pdp_checks(a, a.policies@[n - 1])
    }
}

/// The sandbox check of an AI runtime component.
pub open spec fn sandbox_checks(a: Arch, c: Component) -> Seq<Outcome> {
    if c.kind@ == "ai-runtime"@ {
        let sb = effective_sandbox(a, c);
        seq![
            if sandbox_ok(sb) {
                None
            } else {
                fail(
                    c.id@,
                    "sandbox-floor"@,
                    "ai-runtime "@ + c.id@ + " sandbox 不达标: "@ + match sb {
                        Some(s) => s,
                        None => "缺失"@,
                    } + "（需 container|seccomp）"@,
                )
            },
        ]
    } else {
        seq![]
    }
}

pub open spec fn sandbox_outcomes(a: Arch, n: int) -> Seq<Outcome>
    decreases n,
{
    if n <= 0 {
        seq![]
    } else {
        sandbox_outcomes(a, n - 1) + sandbox_checks(a, a.components@[n - 1])
    }
}

/// `list` joined with `sep`.
pub open spec fn seq_join(list: Seq<Seq<char>>, sep: Seq<char>) -> Seq<char>
    decreases list.len(),
{
    if list.len() == 0 {
        seq![]
    } else if list.len() == 1 {
        list[0]
    } else {
        seq_join(list.drop_last(), sep) + sep + list.last()
    }
}

/// The acyclicity check of the sync-call subgraph.
pub open spec fn cycle_outcome(a: Arch) -> Outcome {
    match spec_find_sync_cycle(a) {
        None => None,
        Some((element, path)) => fail(element, "sync-acyclic"@, "sync-call 子图存在环: "@ + seq_join(path, "→"@)),
    }
}

/// All checks of an architecture, in the order in which they run.
pub open spec fn arch_outcomes(a: Arch) -> Seq<Outcome> {
    dup_outcomes(a, (a.components@.len() + a.edges@.len()) as int) + edge_outcomes(a, a.edges@.len() as int) + pdp_outcomes(
        a,
        a.policies@.len() as int,
    ) + sandbox_outcomes(a, a.components@.len() as int) + seq![cycle_outcome(a)]
}

/// The violations that `validate` reports.
pub open spec fn spec_errors(a: Arch) -> Seq<ErrView> {
    failures(arch_outcomes(a))
}

/// The sizes of the model leave room for the check counters.
pub open spec fn within_limits(a: Arch) -> bool {
    2 * a.components@.len() + 9 * a.edges@.len() + a.policies@.len() + 1 < usize::MAX
}

// ----- size lemmas -----

pub proof fn lemma_dup_len(a: Arch, n: int)
    requires
        n >= 0,
    ensures
        dup_outcomes(a, n).len() == n,
    decreases n,
{
    if n > 0 {
        lemma_dup_len(a, n - 1);
    }
}

pub proof fn lemma_edge_checks_len(a: Arch, e: Edge)
    ensures
        edge_checks(a, e).len() <= 8,
{
}

pub proof fn lemma_edge_outcomes_len(a: Arch, n: int)
    requires
        n >= 0,
    ensures
        edge_outcomes(a, n).len() <= 8 * n,
    decreases n,
{
    if n > 0 {
        lemma_edge_outcomes_len(a, n - 1);
        lemma_edge_checks_len(a, a.edges@[n - 1]);
    }
}

pub proof fn lemma_pdp_len(a: Arch, n: int)
    requires
        n >= 0,
    ensures
        pdp_outcomes(a, n).len() <= n,
    decreases n,
{
    if n > 0 {
        lemma_pdp_len(a, n - 1);
    }
}

pub proof fn lemma_sandbox_len(a: Arch, n: int)
    requires
        n >= 0,
    ensures
        sandbox_outcomes(a, n).len() <= n,
    decreases n,
{
    if n > 0 {
        lemma_sandbox_len(a, n - 1);
    }
}

// ----- laws -----

/// The rule names that violations carry.
pub open spec fn known_rule(r: Seq<char>) -> bool {
    ||| r == "dup-id"@
    ||| r == "self-loop"@
    ||| r == "unknown-ref"@
    ||| r == "port-mismatch"@
    ||| r == "event-consumer"@
    ||| r == "auth-propagation"@
    ||| r == "trace-coverage"@
    ||| r == "same-gate-iron"@
    ||| r == "core-only-data"@
    ||| r == "sandbox-floor"@
    ||| r == "sync-acyclic"@
}

/// `x` is the id of a component or an edge, or the name of a policy.
pub open spec fn names_element(a: Arch, x: Seq<char>) -> bool {
    ||| exists|i: int| 0 <= i < a.components@.len() && (#[trigger] a.components@[i]).id@ == x
    ||| is_edge_id(a, x)
    ||| exists|i: int| 0 <= i < a.policies@.len() && (#[trigger] a.policies@[i]).name@ == x
}

/// Every violation among `o` carries a known rule and names an element of `a`.
pub open spec fn outcomes_sound(a: Arch, o: Seq<Outcome>) -> bool {
    forall|i: int| 0 <= i < o.len() ==> (#[trigger] o[i] matches Some(e) ==> known_rule(e.rule) && names_element(a, e.element))
}

pub proof fn lemma_failures_concat(o1: Seq<Outcome>, o2: Seq<Outcome>)
    ensures
        failures(o1 + o2) == failures(o1) + failures(o2),
    decreases o2.len(),
{
    if o2.len() == 0 {
        assert(o1 + o2 =~= o1);
        assert(failures(o1) + failures(o2) =~= failures(o1));
    } else {
        let x = o2.last();
        assert(o1 + o2 =~= (o1 + o2.drop_last()).push(x));
        assert(o2 =~= o2.drop_last().push(x));
        lemma_failures_concat(o1, o2.drop_last());
        lemma_failures_passes_push(o1 + o2.drop_last(), x);
        lemma_failures_passes_push(o2.drop_last(), x);
        match x {
            Some(e) => {
                assert(failures(o1) + failures(o2.drop_last()).push(e) =~= (failures(o1) + failures(
                    o2.drop_last(),
                )).push(e));
            },
            None => {},
        }
    }
}

proof fn lemma_failures_sound(a: Arch, o: Seq<Outcome>)
    requires
        outcomes_sound(a, o),
    ensures
        forall|i: int|
            0 <= i < failures(o).len() ==> known_rule(#[trigger] failures(o)[i].rule) && names_element(
                a,
                failures(o)[i].element,
            ),
    decreases o.len(),
{
    if o.len() > 0 {
        let p = o.drop_last();
        assert(outcomes_sound(a, p)) by {
            assert forall|i: int| 0 <= i < p.len() implies (#[trigger] p[i] matches Some(e) ==> known_rule(e.rule)
                && names_element(a, e.element)) by {
                assert(p[i] == o[i]);
            }
        }
        lemma_failures_sound(a, p);
        let fp = failures(p);
        let last = o[o.len() - 1];
        assert(last == o.last());
        match last {
            Some(e) => {
                assert(failures(o) == fp.push(e));
                assert(known_rule(e.rule) && names_element(a, e.element));
                assert forall|i: int| 0 <= i < failures(o).len() implies known_rule(#[trigger] failures(o)[i].rule)
                    && names_element(a, failures(o)[i].element) by {
                    if i < fp.len() {
                        assert(failures(o)[i] == fp[i]);
                    } else {
                        assert(failures(o)[i] == e);
                    }
                }
            },
            None => {
                assert(failures(o) == fp);
            },
        }
    }
}

proof fn lemma_sound_concat(a: Arch, o1: Seq<Outcome>, o2: Seq<Outcome>)
    requires
        outcomes_sound(a, o1),
        outcomes_sound(a, o2),
    ensures
        outcomes_sound(a, o1 + o2),
{
    assert forall|i: int| 0 <= i < (o1 + o2).len() implies (#[trigger] (o1 + o2)[i] matches Some(e) ==> known_rule(
        e.rule,
    ) && names_element(a, e.element)) by {
        if i < o1.len() {
            assert((o1 + o2)[i] == o1[i]);
        } else {
            assert((o1 + o2)[i] == o2[i - o1.len()]);
        }
    }
}

proof fn lemma_dup_sound(a: Arch, n: int)
    requires
        0 <= n <= a.components@.len() + a.edges@.len(),
    ensures
        outcomes_sound(a, dup_outcomes(a, n)),
    decreases n,
{
    if n > 0 {
        lemma_dup_sound(a, n - 1);
        let k = n - 1;
        let ids = all_ids(a);
        if k < a.components@.len() {
            assert(ids[k] == a.components@[k].id@);
        } else {
            assert(ids[k] == a.edges@[k - a.components@.len()].id@);
        }
        assert(outcomes_sound(a, seq![dup_outcome(a, k)]));
        lemma_sound_concat(a, dup_outcomes(a, n - 1), seq![dup_outcome(a, k)]);
        assert(dup_outcomes(a, n - 1).push(dup_outcome(a, k)) =~= dup_outcomes(a, n - 1) + seq![
            dup_outcome(a, k),
        ]);
    }
}

proof fn lemma_edge_checks_sound(a: Arch, k: int)
    requires
        0 <= k < a.edges@.len(),
    ensures
        outcomes_sound(a, edge_checks(a, a.edges@[k])),
{
    let e = a.edges@[k];
    assert(is_edge_id(a, e.id@));
}

proof fn lemma_edge_outcomes_sound(a: Arch, n: int)
    requires
        0 <= n <= a.edges@.len(),
    ensures
        outcomes_sound(a, edge_outcomes(a, n)),
    decreases n,
{
    if n > 0 {
        lemma_edge_outcomes_sound(a, n - 1);
        lemma_edge_checks_sound(a, n - 1);
        lemma_sound_concat(a, edge_outcomes(a, n - 1), edge_checks(a, a.edges@[n - 1]));
    }
}

proof fn lemma_pdp_sound(a: Arch, n: int)
    requires
        0 <= n <= a.policies@.len(),
    ensures
        outcomes_sound(a, pdp_outcomes(a, n)),
    decreases n,
{
    if n > 0 {
        lemma_pdp_sound(a, n - 1);
        let np = a.policies@[n - 1];
        assert(a.policies@[n - 1].name@ == np.name@);
        lemma_sound_concat(a, pdp_outcomes(a, n - 1), pdp_checks(a, np));
    }
}

proof fn lemma_sandbox_sound(a: Arch, n: int)
    requires
        0 <= n <= a.components@.len(),
    ensures
        outcomes_sound(a, sandbox_outcomes(a, n)),
    decreases n,
{
    if n > 0 {
        lemma_sandbox_sound(a, n - 1);
        let c = a.components@[n - 1];
        assert(a.components@[n - 1].id@ == c.id@);
        lemma_sound_concat(a, sandbox_outcomes(a, n - 1), sandbox_checks(a, c));
    }
}

/// Every violation that validation reports carries one of the known rule
/// names and names an element of the architecture: a component id, an edge
/// id or a policy name.
pub proof fn law_errors_locatable(a: Arch)
    ensures
        forall|i: int|
            0 <= i < spec_errors(a).len() ==> known_rule(#[trigger] spec_errors(a)[i].rule) && names_element(
                a,
                spec_errors(a)[i].element,
            ),
{
    let nc = a.components@.len();
    let ne = a.edges@.len();
    lemma_dup_sound(a, (nc + ne) as int);
    lemma_edge_outcomes_sound(a, ne as int);
    lemma_pdp_sound(a, a.policies@.len() as int);
    lemma_sandbox_sound(a, nc as int);
    law_cycle_names_edge(a);
    let d = dup_outcomes(a, (nc + ne) as int);
    let e = edge_outcomes(a, ne as int);
    let p = pdp_outcomes(a, a.policies@.len() as int);
    let s = sandbox_outcomes(a, nc as int);
    let c = seq![cycle_outcome(a)];
    assert(outcomes_sound(a, c));
    lemma_sound_concat(a, d, e);
    lemma_sound_concat(a, d + e, p);
    lemma_sound_concat(a, d + e + p, s);
    lemma_sound_concat(a, d + e + p + s, c);
    lemma_failures_sound(a, arch_outcomes(a));
}

/// No violation among `o` carries the sync-acyclic rule.
pub open spec fn no_cycle_rule(o: Seq<Outcome>) -> bool {
    forall|i: int| 0 <= i < o.len() ==> (#[trigger] o[i] matches Some(e) ==> e.rule != "sync-acyclic"@)
}

proof fn lemma_rule_names_differ()
    ensures
        "dup-id"@ != "sync-acyclic"@,
        "self-loop"@ != "sync-acyclic"@,
        "unknown-ref"@ != "sync-acyclic"@,
        "port-mismatch"@ != "sync-acyclic"@,
        "event-consumer"@ != "sync-acyclic"@,
        "auth-propagation"@ != "sync-acyclic"@,
        "trace-coverage"@ != "sync-acyclic"@,
        "same-gate-iron"@ != "sync-acyclic"@,
        "core-only-data"@ != "sync-acyclic"@,
        "sandbox-floor"@ != "sync-acyclic"@,
{
    reveal_strlit("sync-acyclic");
    reveal_strlit("dup-id");
    reveal_strlit("self-loop");
    reveal_strlit("unknown-ref");
    reveal_strlit("port-mismatch");
    reveal_strlit("event-consumer");
    reveal_strlit("auth-propagation");
    reveal_strlit("trace-coverage");
    reveal_strlit("same-gate-iron");
    reveal_strlit("core-only-data");
    reveal_strlit("sandbox-floor");
    let sa = "sync-acyclic"@;
    assert("dup-id"@[0] != sa[0]);
    assert("self-loop"@[1] != sa[1]);
    assert("unknown-ref"@[0] != sa[0]);
    assert("port-mismatch"@[0] != sa[0]);
    assert("event-consumer"@[0] != sa[0]);
    assert("auth-propagation"@[0] != sa[0]);
    assert("trace-coverage"@[0] != sa[0]);
    assert("same-gate-iron"@[1] != sa[1]);
    assert("core-only-data"@[0] != sa[0]);
    assert("sandbox-floor"@[1] != sa[1]);
}

proof fn lemma_no_cycle_rule_concat(o1: Seq<Outcome>, o2: Seq<Outcome>)
    requires
        no_cycle_rule(o1),
        no_cycle_rule(o2),
    ensures
        no_cycle_rule(o1 + o2),
{
    assert forall|i: int| 0 <= i < (o1 + o2).len() implies (#[trigger] (o1 + o2)[i] matches Some(e) ==> e.rule
        != "sync-acyclic"@) by {
        if i < o1.len() {
            assert((o1 + o2)[i] == o1[i]);
        } else {
            assert((o1 + o2)[i] == o2[i - o1.len()]);
        }
    }
}

proof fn lemma_checks_no_cycle_rule(a: Arch)
    ensures
        no_cycle_rule(
            dup_outcomes(a, (a.components@.len() + a.edges@.len()) as int) + edge_outcomes(a, a.edges@.len() as int)
                + pdp_outcomes(a, a.policies@.len() as int) + sandbox_outcomes(a, a.components@.len() as int),
        ),
{
    lemma_rule_names_differ();
    lemma_dup_no_cycle_rule(a, (a.components@.len() + a.edges@.len()) as int);
    lemma_edge_no_cycle_rule(a, a.edges@.len() as int);
    lemma_pdp_no_cycle_rule(a, a.policies@.len() as int);
    lemma_sandbox_no_cycle_rule(a, a.components@.len() as int);
    let d = dup_outcomes(a, (a.components@.len() + a.edges@.len()) as int);
    let e = edge_outcomes(a, a.edges@.len() as int);
    let p = pdp_outcomes(a, a.policies@.len() as int);
    lemma_no_cycle_rule_concat(d, e);
    lemma_no_cycle_rule_concat(d + e, p);
    lemma_no_cycle_rule_concat(d + e + p, sandbox_outcomes(a, a.components@.len() as int));
}

proof fn lemma_dup_no_cycle_rule(a: Arch, n: int)
    ensures
        no_cycle_rule(dup_outcomes(a, n)),
    decreases n,
{
    lemma_rule_names_differ();
    if n > 0 {
        lemma_dup_no_cycle_rule(a, n - 1);
        lemma_no_cycle_rule_concat(dup_outcomes(a, n - 1), seq![dup_outcome(a, n - 1)]);
        assert(dup_outcomes(a, n - 1).push(dup_outcome(a, n - 1)) =~= dup_outcomes(a, n - 1) + seq![
            dup_outcome(a, n - 1),
        ]);
    }
}

proof fn lemma_edge_no_cycle_rule(a: Arch, n: int)
    ensures
        no_cycle_rule(edge_outcomes(a, n)),
    decreases n,
{
    lemma_rule_names_differ();
    if n > 0 {
        lemma_edge_no_cycle_rule(a, n - 1);
        assert(no_cycle_rule(edge_checks(a, a.edges@[n - 1])));
        lemma_no_cycle_rule_concat(edge_outcomes(a, n - 1), edge_checks(a, a.edges@[n - 1]));
    }
}

proof fn lemma_pdp_no_cycle_rule(a: Arch, n: int)
    ensures
        no_cycle_rule(pdp_outcomes(a, n)),
    decreases n,
{
    lemma_rule_names_differ();
    if n > 0 {
        lemma_pdp_no_cycle_rule(a, n - 1);
        lemma_no_cycle_rule_concat(pdp_outcomes(a, n - 1), pdp_checks(a, a.policies@[n - 1]));
    }
}

proof fn lemma_sandbox_no_cycle_rule(a: Arch, n: int)
    ensures
        no_cycle_rule(sandbox_outcomes(a, n)),
    decreases n,
{
    lemma_rule_names_differ();
    if n > 0 {
        lemma_sandbox_no_cycle_rule(a, n - 1);
        lemma_no_cycle_rule_concat(sandbox_outcomes(a, n - 1), sandbox_checks(a, a.components@[n - 1]));
    }
}

proof fn lemma_failures_no_cycle_rule(o: Seq<Outcome>)
    requires
        no_cycle_rule(o),
    ensures
        forall|i: int| 0 <= i < failures(o).len() ==> (#[trigger] failures(o)[i]).rule != "sync-acyclic"@,
    decreases o.len(),
{
    if o.len() > 0 {
        let p = o.drop_last();
        assert(no_cycle_rule(p)) by {
            assert forall|i: int| 0 <= i < p.len() implies (#[trigger] p[i] matches Some(e) ==> e.rule
                != "sync-acyclic"@) by {
                assert(p[i] == o[i]);
            }
        }
        lemma_failures_no_cycle_rule(p);
        let last = o[o.len() - 1];
        assert(last == o.last());
        match last {
            Some(e) => {
                assert(failures(o) == failures(p).push(e));
                assert forall|i: int| 0 <= i < failures(o).len() implies (#[trigger] failures(o)[i]).rule
                    != "sync-acyclic"@ by {
                    if i < failures(p).len() {
                        assert(failures(o)[i] == failures(p)[i]);
                    }
                }
            },
            None => {},
        }
    }
}

/// The sync-acyclic rule is exact: validation reports a sync-acyclic
/// violation exactly when the sync-call edges form a cycle, and then it is
/// the last violation reported and the only one of its rule.
pub proof fn law_sync_cycle_reported(a: Arch)
    ensures
        (exists|i: int| 0 <= i < spec_errors(a).len() && (#[trigger] spec_errors(a)[i]).rule == "sync-acyclic"@)
            <==> exists|ns: Seq<int>| is_cycle(a, ns),
        (exists|ns: Seq<int>| is_cycle(a, ns)) ==> spec_errors(a).len() > 0 && spec_errors(a).last().rule
            == "sync-acyclic"@,
        forall|i: int|
            0 <= i < spec_errors(a).len() && (#[trigger] spec_errors(a)[i]).rule == "sync-acyclic"@ ==> i
                == spec_errors(a).len() - 1,
{
    let o1 = dup_outcomes(a, (a.components@.len() + a.edges@.len()) as int) + edge_outcomes(a, a.edges@.len() as int)
        + pdp_outcomes(a, a.policies@.len() as int) + sandbox_outcomes(a, a.components@.len() as int);
    let c = seq![cycle_outcome(a)];
    lemma_checks_no_cycle_rule(a);
    lemma_failures_no_cycle_rule(o1);
    lemma_failures_concat(o1, c);
    law_cycle_complete(a);
    reveal_strlit("sync-acyclic");
    assert(c =~= Seq::<Outcome>::empty().push(cycle_outcome(a)));
    lemma_failures_passes_push(Seq::<Outcome>::empty(), cycle_outcome(a));
    let errs = spec_errors(a);
    let f1 = failures(o1);
    match cycle_outcome(a) {
        Some(e) => {
            assert(errs == f1.push(e));
            assert(errs[f1.len() as int] == e);
            assert forall|i: int| 0 <= i < errs.len() && (#[trigger] errs[i]).rule == "sync-acyclic"@ implies i
                == errs.len() - 1 by {
                if i < f1.len() {
                    assert(errs[i] == f1[i]);
                }
            }
        },
        None => {
            assert(errs =~= f1);
            assert forall|i: int| 0 <= i < errs.len() implies (#[trigger] errs[i]).rule != "sync-acyclic"@ by {
                assert(errs[i] == f1[i]);
            }
        },
    }
}

proof fn lemma_failures_contains(o: Seq<Outcome>, i: int)
    requires
        0 <= i < o.len(),
        o[i] is Some,
    ensures
        exists|j: int| 0 <= j < failures(o).len() && Some(#[trigger] failures(o)[j]) == o[i],
    decreases o.len(),
{
    let p = o.drop_last();
    lemma_failures_passes_push(p, o.last());
    assert(p.push(o.last()) =~= o);
    if i == o.len() - 1 {
        let e = o[i]->0;
        assert(failures(o) == failures(p).push(e));
        assert(failures(o)[failures(p).len() as int] == e);
    } else {
        assert(p[i] == o[i]);
        lemma_failures_contains(p, i);
        let j = choose|j: int| 0 <= j < failures(p).len() && Some(#[trigger] failures(p)[j]) == p[i];
        assert(failures(o)[j] == failures(p)[j]);
    }
}

proof fn lemma_failures_from(o: Seq<Outcome>, j: int)
    requires
        0 <= j < failures(o).len(),
    ensures
        exists|i: int| 0 <= i < o.len() && #[trigger] o[i] == Some(failures(o)[j]),
    decreases o.len(),
{
    let p = o.drop_last();
    lemma_failures_passes_push(p, o.last());
    assert(p.push(o.last()) =~= o);
    assert(o[o.len() - 1] == o.last());
    if j < failures(p).len() {
        assert(failures(o)[j] == failures(p)[j]);
        lemma_failures_from(p, j);
        let i = choose|i: int| 0 <= i < p.len() && #[trigger] p[i] == Some(failures(p)[j]);
        assert(o[i] == p[i]);
    }
}

/// Every violation among `o` has a rule that `allowed` admits.
pub open spec fn rules_within(o: Seq<Outcome>, allowed: spec_fn(Seq<char>) -> bool) -> bool {
    forall|i: int| 0 <= i < o.len() ==> (#[trigger] o[i] matches Some(e) ==> allowed(e.rule))
}

proof fn lemma_rules_within_concat(o1: Seq<Outcome>, o2: Seq<Outcome>, allowed: spec_fn(Seq<char>) -> bool)
    requires
        rules_within(o1, allowed),
        rules_within(o2, allowed),
    ensures
        rules_within(o1 + o2, allowed),
{
    assert forall|i: int| 0 <= i < (o1 + o2).len() implies (#[trigger] (o1 + o2)[i] matches Some(e) ==> allowed(
        e.rule,
    )) by {
        if i < o1.len() {
            assert((o1 + o2)[i] == o1[i]);
        } else {
            assert((o1 + o2)[i] == o2[i - o1.len()]);
        }
    }
}

/// The rules that the checks of an edge can break.
pub open spec fn is_edge_rule(r: Seq<char>) -> bool {
    ||| r == "self-loop"@
    ||| r == "unknown-ref"@
    ||| r == "port-mismatch"@
    ||| r == "event-consumer"@
    ||| r == "auth-propagation"@
    ||| r == "trace-coverage"@
    ||| r == "same-gate-iron"@
    ||| r == "core-only-data"@
}

proof fn lemma_edge_rules(a: Arch, n: int)
    ensures
        rules_within(edge_outcomes(a, n), |r: Seq<char>| is_edge_rule(r)),
    decreases n,
{
    if n > 0 {
        lemma_edge_rules(a, n - 1);
        lemma_rules_within_concat(edge_outcomes(a, n - 1), edge_checks(a, a.edges@[n - 1]), |r: Seq<char>| is_edge_rule(r));
    }
}

proof fn lemma_pdp_rules(a: Arch, n: int)
    ensures
        rules_within(pdp_outcomes(a, n), |r: Seq<char>| r == "auth-propagation"@),
    decreases n,
{
    if n > 0 {
        lemma_pdp_rules(a, n - 1);
        lemma_rules_within_concat(
            pdp_outcomes(a, n - 1),
            pdp_checks(a, a.policies@[n - 1]),
            |r: Seq<char>| r == "auth-propagation"@,
        );
    }
}

proof fn lemma_sandbox_rules(a: Arch, n: int)
    ensures
        rules_within(sandbox_outcomes(a, n), |r: Seq<char>| r == "sandbox-floor"@),
    decreases n,
{
    if n > 0 {
        lemma_sandbox_rules(a, n - 1);
        lemma_rules_within_concat(
            sandbox_outcomes(a, n - 1),
            sandbox_checks(a, a.components@[n - 1]),
            |r: Seq<char>| r == "sandbox-floor"@,
        );
    }
}

proof fn lemma_dup_index(a: Arch, n: int, k: int)
    requires
        0 <= k < n,
    ensures
        dup_outcomes(a, n).len() == n,
        dup_outcomes(a, n)[k] == dup_outcome(a, k),
    decreases n,
{
    lemma_dup_len(a, n);
    if k < n - 1 {
        lemma_dup_index(a, n - 1, k);
    }
}

proof fn lemma_sandbox_index(a: Arch, n: int, i: int)
    requires
        0 <= i < n <= a.components@.len(),
        a.components@[i].kind@ == "ai-runtime"@,
    ensures
        exists|j: int| 0 <= j < sandbox_outcomes(a, n).len() && #[trigger] sandbox_outcomes(a, n)[j] == sandbox_checks(a, a.components@[i])[0],
    decreases n,
{
    let pre = sandbox_outcomes(a, n - 1);
    let x = sandbox_checks(a, a.components@[n - 1]);
    if i == n - 1 {
        assert(sandbox_outcomes(a, n)[pre.len() as int] == x[0]);
    } else {
        lemma_sandbox_index(a, n - 1, i);
        let j = choose|j: int| 0 <= j < pre.len() && #[trigger] pre[j] == sandbox_checks(a, a.components@[i])[0];
        assert(sandbox_outcomes(a, n)[j] == pre[j]);
    }
}

proof fn lemma_sandbox_source(a: Arch, n: int, j: int)
    requires
        0 <= n <= a.components@.len(),
        0 <= j < sandbox_outcomes(a, n).len(),
    ensures
        exists|i: int| 0 <= i < n && a.components@[i].kind@ == "ai-runtime"@ && #[trigger] sandbox_checks(a, a.components@[i])[0]
            == sandbox_outcomes(a, n)[j],
    decreases n,
{
    let pre = sandbox_outcomes(a, n - 1);
    let x = sandbox_checks(a, a.components@[n - 1]);
    if j < pre.len() {
        lemma_sandbox_source(a, n - 1, j);
        assert(sandbox_outcomes(a, n)[j] == pre[j]);
    } else {
        assert(sandbox_outcomes(a, n)[j] == x[j - pre.len()]);
        assert(sandbox_checks(a, a.components@[n - 1])[0] == sandbox_outcomes(a, n)[j]);
    }
}

proof fn lemma_rule_literals_distinct()
    ensures
        forall|r: Seq<char>| is_edge_rule(r) ==> r != "dup-id"@ && r != "sandbox-floor"@,
        "auth-propagation"@ != "dup-id"@,
        "auth-propagation"@ != "sandbox-floor"@,
        "sync-acyclic"@ != "dup-id"@,
        "sync-acyclic"@ != "sandbox-floor"@,
        "sandbox-floor"@ != "dup-id"@,
{
    reveal_strlit("sync-acyclic");
    reveal_strlit("dup-id");
    reveal_strlit("self-loop");
    reveal_strlit("unknown-ref");
    reveal_strlit("port-mismatch");
    reveal_strlit("event-consumer");
    reveal_strlit("auth-propagation");
    reveal_strlit("trace-coverage");
    reveal_strlit("same-gate-iron");
    reveal_strlit("core-only-data");
    reveal_strlit("sandbox-floor");
    let d = "dup-id"@;
    let sf = "sandbox-floor"@;
    assert("self-loop"@[0] != d[0] && "self-loop"@[1] != sf[1]);
    assert("unknown-ref"@[0] != d[0] && "unknown-ref"@[0] != sf[0]);
    assert("port-mismatch"@[0] != d[0] && "port-mismatch"@[0] != sf[0]);
    assert("event-consumer"@[0] != d[0] && "event-consumer"@[0] != sf[0]);
    assert("auth-propagation"@[0] != d[0] && "auth-propagation"@[0] != sf[0]);
    assert("trace-coverage"@[0] != d[0] && "trace-coverage"@[0] != sf[0]);
    assert("same-gate-iron"@[0] != d[0] && "same-gate-iron"@[2] != sf[2]);
    assert("core-only-data"@[0] != d[0] && "core-only-data"@[0] != sf[0]);
    assert("sync-acyclic"@[0] != d[0] && "sync-acyclic"@[1] != sf[1]);
    assert(sf[0] != d[0]);
}

/// A violation carrying rule `r` among the errors is one among the outcomes.
proof fn lemma_errors_rule(a: Arch, r: Seq<char>)
    ensures
        (exists|j: int| 0 <= j < spec_errors(a).len() && (#[trigger] spec_errors(a)[j]).rule == r) <==> (exists|i: int|
            0 <= i < arch_outcomes(a).len() && (#[trigger] arch_outcomes(a)[i] matches Some(e) && e.rule == r)),
{
    let o = arch_outcomes(a);
    if exists|j: int| 0 <= j < spec_errors(a).len() && (#[trigger] spec_errors(a)[j]).rule == r {
        let j = choose|j: int| 0 <= j < spec_errors(a).len() && (#[trigger] spec_errors(a)[j]).rule == r;
        lemma_failures_from(o, j);
        let i = choose|i: int| 0 <= i < o.len() && #[trigger] o[i] == Some(failures(o)[j]);
        assert(o[i] matches Some(e) && e.rule == r);
    }
    if exists|i: int| 0 <= i < o.len() && (#[trigger] o[i] matches Some(e) && e.rule == r) {
        let i = choose|i: int| 0 <= i < o.len() && (#[trigger] o[i] matches Some(e) && e.rule == r);
        lemma_failures_contains(o, i);
        let j = choose|j: int| 0 <= j < failures(o).len() && Some(#[trigger] failures(o)[j]) == o[i];
        assert(spec_errors(a)[j].rule == r);
    }
}

/// The parts of the outcome list: duplicate ids, edges, policies, sandboxes, cycle.
proof fn lemma_outcome_parts(a: Arch)
    ensures
        ({
            let nd = (a.components@.len() + a.edges@.len()) as int;
            let d = dup_outcomes(a, nd);
            let e = edge_outcomes(a, a.edges@.len() as int);
            let p = pdp_outcomes(a, a.policies@.len() as int);
            let sb = sandbox_outcomes(a, a.components@.len() as int);
            &&& d.len() == nd
            &&& arch_outcomes(a) == d + (e + p) + sb + seq![cycle_outcome(a)]
            &&& rules_within(e + p, |r: Seq<char>| is_edge_rule(r) || r == "auth-propagation"@)
            &&& rules_within(sb, |r: Seq<char>| r == "sandbox-floor"@)
        }),
{
    let nd = (a.components@.len() + a.edges@.len()) as int;
    lemma_dup_len(a, nd);
    let e = edge_outcomes(a, a.edges@.len() as int);
    let p = pdp_outcomes(a, a.policies@.len() as int);
    lemma_edge_rules(a, a.edges@.len() as int);
    lemma_pdp_rules(a, a.policies@.len() as int);
    let both = |r: Seq<char>| is_edge_rule(r) || r == "auth-propagation"@;
    assert(rules_within(e, both));
    assert(rules_within(p, both));
    lemma_rules_within_concat(e, p, both);
    lemma_sandbox_rules(a, a.components@.len() as int);
    assert(arch_outcomes(a) =~= dup_outcomes(a, nd) + (e + p) + sandbox_outcomes(a, a.components@.len() as int) + seq![
        cycle_outcome(a),
    ]);
}

/// Duplicate ids are reported exactly: a dup-id violation appears exactly
/// when two components, two edges, or a component and an edge share an id.
pub proof fn law_dup_id_exact(a: Arch)
    ensures
        (exists|j: int| 0 <= j < spec_errors(a).len() && (#[trigger] spec_errors(a)[j]).rule == "dup-id"@)
            <==> !all_ids(a).no_duplicates(),
{
    let r = "dup-id"@;
    let o = arch_outcomes(a);
    let nd = (a.components@.len() + a.edges@.len()) as int;
    let ids = all_ids(a);
    lemma_outcome_parts(a);
    lemma_rule_literals_distinct();
    lemma_errors_rule(a, r);
    let d = dup_outcomes(a, nd);
    let e = edge_outcomes(a, a.edges@.len() as int);
    let p = pdp_outcomes(a, a.policies@.len() as int);
    let sb = sandbox_outcomes(a, a.components@.len() as int);
    assert(ids.len() == nd);
    if exists|i: int| 0 <= i < o.len() && (#[trigger] o[i] matches Some(x) && x.rule == r) {
        let i = choose|i: int| 0 <= i < o.len() && (#[trigger] o[i] matches Some(x) && x.rule == r);
        if i < nd {
            assert(o[i] == d[i]);
            lemma_dup_index(a, nd, i);
            assert(ids.take(i).contains(ids[i]));
            let j = choose|j: int| 0 <= j < ids.take(i).len() && ids.take(i)[j] == ids[i];
            assert(ids[j] == ids[i]);
        } else if i < nd + (e + p).len() {
            assert(o[i] == (e + p)[i - nd]);
        } else if i < nd + (e + p).len() + sb.len() {
            assert(o[i] == sb[i - nd - (e + p).len()]);
        } else {
            assert(o[i] == cycle_outcome(a));
        }
    }
    if !ids.no_duplicates() {
        let (x, y) = choose|x: int, y: int| 0 <= x < ids.len() && 0 <= y < ids.len() && x != y && ids[x] == ids[y];
        let (lo, hi) = if x < y {
            (x, y)
        } else {
            (y, x)
        };
        assert(ids.take(hi)[lo] == ids[hi]);
        lemma_dup_index(a, nd, hi);
        assert(o[hi] == d[hi]);
        assert(o[hi] matches Some(z) && z.rule == r);
    }
}

/// The sandbox floor is reported exactly: a sandbox-floor violation names `x`
/// exactly when some AI runtime component with id `x` has no sandbox level
/// of container or seccomp, its own or inherited.
pub proof fn law_sandbox_floor_exact(a: Arch, x: Seq<char>)
    ensures
        (exists|j: int|
            0 <= j < spec_errors(a).len() && (#[trigger] spec_errors(a)[j]).rule == "sandbox-floor"@ && spec_errors(
                a,
            )[j].element == x) <==> (exists|i: int|
            0 <= i < a.components@.len() && (#[trigger] a.components@[i]).id@ == x && a.components@[i].kind@
                == "ai-runtime"@ && !sandbox_ok(effective_sandbox(a, a.components@[i]))),
{
    let r = "sandbox-floor"@;
    let o = arch_outcomes(a);
    let nd = (a.components@.len() + a.edges@.len()) as int;
    lemma_outcome_parts(a);
    lemma_rule_literals_distinct();
    let d = dup_outcomes(a, nd);
    let ep = edge_outcomes(a, a.edges@.len() as int) + pdp_outcomes(a, a.policies@.len() as int);
    let sb = sandbox_outcomes(a, a.components@.len() as int);
    let errs = spec_errors(a);
    if exists|j: int| 0 <= j < errs.len() && (#[trigger] errs[j]).rule == r && errs[j].element == x {
        let j = choose|j: int| 0 <= j < errs.len() && (#[trigger] errs[j]).rule == r && errs[j].element == x;
        lemma_failures_from(o, j);
        let i = choose|i: int| 0 <= i < o.len() && #[trigger] o[i] == Some(failures(o)[j]);
        if i < nd {
            assert(o[i] == d[i]);
            lemma_dup_index(a, nd, i);
        } else if i < nd + ep.len() {
            assert(o[i] == ep[i - nd]);
        } else if i < nd + ep.len() + sb.len() {
            let js = i - nd - ep.len();
            assert(o[i] == sb[js]);
            lemma_sandbox_source(a, a.components@.len() as int, js);
            let ci = choose|ci: int| 0 <= ci < a.components@.len() && a.components@[ci].kind@ == "ai-runtime"@
                && #[trigger] sandbox_checks(a, a.components@[ci])[0] == sb[js];
            assert(a.components@[ci].id@ == x);
        } else {
            assert(o[i] == cycle_outcome(a));
        }
    }
    if exists|i: int|
        0 <= i < a.components@.len() && (#[trigger] a.components@[i]).id@ == x && a.components@[i].kind@ == "ai-runtime"@
            && !sandbox_ok(effective_sandbox(a, a.components@[i])) {
        let ci = choose|i: int|
            0 <= i < a.components@.len() && (#[trigger] a.components@[i]).id@ == x && a.components@[i].kind@
                == "ai-runtime"@ && !sandbox_ok(effective_sandbox(a, a.components@[i]));
        lemma_sandbox_index(a, a.components@.len() as int, ci);
        let js = choose|js: int| 0 <= js < sb.len() && #[trigger] sb[js] == sandbox_checks(a, a.components@[ci])[0];
        let i = nd + ep.len() + js;
        assert(o[i] == sb[js]);
        lemma_failures_contains(o, i);
        let j = choose|j: int| 0 <= j < failures(o).len() && Some(#[trigger] failures(o)[j]) == o[i];
        assert(errs[j].rule == r && errs[j].element == x);
    }
}

/// Policies that the defaults annotate on every edge cover every edge: with
/// a default auth policy no edge lacks auth, and with a default trace policy
/// no edge lacks trace.
pub proof fn law_default_edge_policies_inherited(a: Arch, e: Edge)
    ensures
        any_has_type(a, a.defaults.edges@, "auth"@) ==> auth_outcome(a, e) is None,
        any_has_type(a, a.defaults.edges@, "trace"@) ==> trace_outcome(a, e) is None,
{
}

/// A component's own sandbox annotation takes precedence over the defaults of its kind.
pub proof fn law_own_sandbox_overrides(a: Arch, c: Component)
    requires
        key_index(c.annotations@, "sandbox"@) >= 0,
    ensures
        effective_sandbox(a, c) == Some(c.annotations@[key_index(c.annotations@, "sandbox"@)].value@),
{
}

/// Without an own sandbox annotation a component inherits the one that the
/// defaults give its kind.
pub proof fn law_sandbox_inherited(a: Arch, c: Component)
    requires
        key_index(c.annotations@, "sandbox"@) < 0,
        key_index(a.defaults.nodes@, c.kind@) >= 0,
    ensures
        ({
            let nd = a.defaults.nodes@[key_index(a.defaults.nodes@, c.kind@)];
            effective_sandbox(a, c) == if key_index(nd.annotations@, "sandbox"@) >= 0 {
                Some(nd.annotations@[key_index(nd.annotations@, "sandbox"@)].value@)
            } else {
                None
            }
        }),
{
}

// ----- the checks of one edge -----

/// Some violation among `errs` names element `el` under rule `r`.
pub open spec fn has_error(errs: Seq<ErrView>, el: Seq<char>, r: Seq<char>) -> bool {
    exists|j: int| 0 <= j < errs.len() && (#[trigger] errs[j]).element == el && errs[j].rule == r
}

/// The outcome is a violation naming element `el` under rule `r`.
pub open spec fn fails_as(x: Outcome, el: Seq<char>, r: Seq<char>) -> bool {
    x matches Some(y) && y.element == el && y.rule == r
}

/// Some check among `o` fails naming element `el` under rule `r`.
pub open spec fn check_fails(o: Seq<Outcome>, el: Seq<char>, r: Seq<char>) -> bool {
    exists|i: int| 0 <= i < o.len() && #[trigger] fails_as(o[i], el, r)
}

/// No two edges share an id.
pub open spec fn edge_ids_distinct(a: Arch) -> bool {
    forall|i: int, j: int|
        0 <= i < a.edges@.len() && 0 <= j < a.edges@.len() && i != j ==> (#[trigger] a.edges@[i]).id@
            != (#[trigger] a.edges@[j]).id@
}

proof fn lemma_failures_has(o: Seq<Outcome>, el: Seq<char>, r: Seq<char>)
    ensures
        has_error(failures(o), el, r) <==> check_fails(o, el, r),
{
    if has_error(failures(o), el, r) {
        let j = choose|j: int|
            0 <= j < failures(o).len() && (#[trigger] failures(o)[j]).element == el && failures(o)[j].rule == r;
        lemma_failures_from(o, j);
        let i = choose|i: int| 0 <= i < o.len() && #[trigger] o[i] == Some(failures(o)[j]);
        assert(fails_as(o[i], el, r));
    }
    if check_fails(o, el, r) {
        let i = choose|i: int| 0 <= i < o.len() && #[trigger] fails_as(o[i], el, r);
        lemma_failures_contains(o, i);
        let j = choose|j: int| 0 <= j < failures(o).len() && Some(#[trigger] failures(o)[j]) == o[i];
        assert(failures(o)[j].element == el && failures(o)[j].rule == r);
    }
}

proof fn lemma_check_fails_concat(o1: Seq<Outcome>, o2: Seq<Outcome>, el: Seq<char>, r: Seq<char>)
    ensures
        check_fails(o1 + o2, el, r) <==> check_fails(o1, el, r) || check_fails(o2, el, r),
{
    let o = o1 + o2;
    if check_fails(o, el, r) {
        let i = choose|i: int| 0 <= i < o.len() && #[trigger] fails_as(o[i], el, r);
        if i < o1.len() {
            assert(o[i] == o1[i]);
        } else {
            assert(o[i] == o2[i - o1.len()]);
        }
    }
    if check_fails(o1, el, r) {
        let i = choose|i: int| 0 <= i < o1.len() && #[trigger] fails_as(o1[i], el, r);
        assert(o[i] == o1[i]);
    }
    if check_fails(o2, el, r) {
        let i = choose|i: int| 0 <= i < o2.len() && #[trigger] fails_as(o2[i], el, r);
        assert(o[o1.len() + i] == o2[i]);
    }
}

proof fn lemma_check_fails_one(x: Outcome, el: Seq<char>, r: Seq<char>)
    ensures
        check_fails(seq![x], el, r) <==> fails_as(x, el, r),
        check_fails(seq![], el, r) == false,
{
    assert(seq![x][0] == x);
}

proof fn lemma_check_fails_when(b: bool, x: Outcome, el: Seq<char>, r: Seq<char>)
    ensures
        check_fails(when(b, x), el, r) <==> b && fails_as(x, el, r),
{
    lemma_check_fails_one(x, el, r);
}

proof fn lemma_within_no_fail(o: Seq<Outcome>, allowed: spec_fn(Seq<char>) -> bool, el: Seq<char>, r: Seq<char>)
    requires
        rules_within(o, allowed),
        !allowed(r),
    ensures
        !check_fails(o, el, r),
{
    if check_fails(o, el, r) {
        let i = choose|i: int| 0 <= i < o.len() && #[trigger] fails_as(o[i], el, r);
        assert(o[i] matches Some(x) ==> allowed(x.rule));
    }
}

/// Lengths and first letters that tell the rule names apart.
proof fn lemma_rule_name_shapes()
    ensures
        "self-loop"@.len() == 9,
        "unknown-ref"@.len() == 11,
        "port-mismatch"@.len() == 13,
        "auth-propagation"@.len() == 16,
        "event-consumer"@.len() == 14 && "event-consumer"@[0] == 'e',
        "trace-coverage"@.len() == 14 && "trace-coverage"@[0] == 't',
        "same-gate-iron"@.len() == 14 && "same-gate-iron"@[0] == 's',
        "core-only-data"@.len() == 14 && "core-only-data"@[0] == 'c',
        "dup-id"@.len() == 6,
        "sandbox-floor"@.len() == 13 && "sandbox-floor"@[0] == 's',
        "port-mismatch"@[0] == 'p',
        "sync-acyclic"@.len() == 12,
{
    reveal_strlit("self-loop");
    reveal_strlit("unknown-ref");
    reveal_strlit("port-mismatch");
    reveal_strlit("auth-propagation");
    reveal_strlit("event-consumer");
    reveal_strlit("trace-coverage");
    reveal_strlit("same-gate-iron");
    reveal_strlit("core-only-data");
    reveal_strlit("dup-id");
    reveal_strlit("sandbox-floor");
    reveal_strlit("sync-acyclic");
}

/// Which checks of an edge fail naming `el` under rule `r`.
proof fn lemma_edge_checks_fail(a: Arch, e: Edge, el: Seq<char>, r: Seq<char>)
    ensures
        check_fails(edge_checks(a, e), el, r) <==> el == e.id@ && {
            let fr = resolve(a, e.from@);
            let tr = resolve(a, e.to@);
            ||| fails_as(self_loop_outcome(e), el, r)
            ||| (fr is Some && tr is Some && {
                let fc = a.components@[fr.unwrap().0];
                let fp = fc.ports@[fr.unwrap().1];
                let tc = a.components@[tr.unwrap().0];
                let tp = tc.ports@[tr.unwrap().1];
                ||| fails_as(mismatch_outcome(e, fp, tp), el, r)
                ||| (e.etype@ == "event"@ && fails_as(event_outcome(e, fp), el, r))
                ||| ((e.etype@ == "sync-call"@ || e.etype@ == "stream"@) && fails_as(auth_outcome(a, e), el, r))
                ||| fails_as(trace_outcome(a, e), el, r)
                ||| (fc.kind@ == "app"@ && fails_as(gate_outcome(e, fc, tc), el, r))
                ||| (e.etype@ == "data-store"@ && fails_as(data_outcome(e, tc), el, r))
            })
            ||| (!(fr is Some && tr is Some) && fails_as(unknown_ref_outcome(a, e), el, r))
        },
{
    let sl = self_loop_outcome(e);
    lemma_check_fails_one(sl, el, r);
    lemma_check_fails_one(None, el, r);
    lemma_check_fails_concat(seq![sl], seq![None], el, r);
    assert(seq![sl, None] =~= seq![sl] + seq![None]);
    match (resolve(a, e.from@), resolve(a, e.to@)) {
        (Some((fci, fpi)), Some((tci, tpi))) => {
            let fc = a.components@[fci];
            let fp = fc.ports@[fpi];
            let tc = a.components@[tci];
            let tp = tc.ports@[tpi];
            let p1 = seq![mismatch_outcome(e, fp, tp)];
            let p2 = when(e.etype@ == "event"@, event_outcome(e, fp));
            let p3 = when(e.etype@ == "sync-call"@ || e.etype@ == "stream"@, auth_outcome(a, e));
            let p4 = seq![trace_outcome(a, e)];
            let p5 = when(fc.kind@ == "app"@, gate_outcome(e, fc, tc));
            let p6 = when(e.etype@ == "data-store"@, data_outcome(e, tc));
            lemma_check_fails_one(mismatch_outcome(e, fp, tp), el, r);
            lemma_check_fails_when(e.etype@ == "event"@, event_outcome(e, fp), el, r);
            lemma_check_fails_when(e.etype@ == "sync-call"@ || e.etype@ == "stream"@, auth_outcome(a, e), el, r);
            lemma_check_fails_one(trace_outcome(a, e), el, r);
            lemma_check_fails_when(fc.kind@ == "app"@, gate_outcome(e, fc, tc), el, r);
            lemma_check_fails_when(e.etype@ == "data-store"@, data_outcome(e, tc), el, r);
            lemma_check_fails_concat(p1, p2, el, r);
            lemma_check_fails_concat(p1 + p2, p3, el, r);
            lemma_check_fails_concat(p1 + p2 + p3, p4, el, r);
            lemma_check_fails_concat(p1 + p2 + p3 + p4, p5, el, r);
            lemma_check_fails_concat(p1 + p2 + p3 + p4 + p5, p6, el, r);
            assert(resolved_checks(a, e, fc, fp, tc, tp) == p1 + p2 + p3 + p4 + p5 + p6);
            lemma_check_fails_concat(seq![sl, None], p1 + p2 + p3 + p4 + p5 + p6, el, r);
        },
        _ => {
            lemma_check_fails_one(unknown_ref_outcome(a, e), el, r);
            lemma_check_fails_concat(seq![sl], seq![unknown_ref_outcome(a, e)], el, r);
            assert(seq![sl, unknown_ref_outcome(a, e)] =~= seq![sl] + seq![unknown_ref_outcome(a, e)]);
        },
    }
}

proof fn lemma_edge_outcomes_fail(a: Arch, n: int, el: Seq<char>, r: Seq<char>)
    requires
        0 <= n <= a.edges@.len(),
    ensures
        check_fails(edge_outcomes(a, n), el, r) <==> exists|m: int|
            0 <= m < n && a.edges@[m].id@ == el && #[trigger] check_fails(edge_checks(a, a.edges@[m]), el, r),
    decreases n,
{
    if n > 0 {
        let e = a.edges@[n - 1];
        lemma_edge_outcomes_fail(a, n - 1, el, r);
        lemma_check_fails_concat(edge_outcomes(a, n - 1), edge_checks(a, e), el, r);
        lemma_edge_checks_fail(a, e, el, r);
        if exists|m: int| 0 <= m < n && a.edges@[m].id@ == el && #[trigger] check_fails(edge_checks(a, a.edges@[m]), el, r) {
            let m = choose|m: int|
                0 <= m < n && a.edges@[m].id@ == el && #[trigger] check_fails(edge_checks(a, a.edges@[m]), el, r);
            if m < n - 1 {
                assert(exists|m: int|
                    0 <= m < n - 1 && a.edges@[m].id@ == el && #[trigger] check_fails(edge_checks(a, a.edges@[m]), el, r));
            }
        }
    } else {
        assert(edge_outcomes(a, n) =~= Seq::<Outcome>::empty());
    }
}

proof fn lemma_dup_no_fail(a: Arch, el: Seq<char>, r: Seq<char>)
    requires
        r != "dup-id"@,
    ensures
        !check_fails(dup_outcomes(a, (a.components@.len() + a.edges@.len()) as int), el, r),
{
    let nd = (a.components@.len() + a.edges@.len()) as int;
    let d = dup_outcomes(a, nd);
    if check_fails(d, el, r) {
        let i = choose|i: int| 0 <= i < d.len() && #[trigger] fails_as(d[i], el, r);
        lemma_dup_len(a, nd);
        lemma_dup_index(a, nd, i);
    }
}

proof fn lemma_pdp_fail_names(a: Arch, n: int, el: Seq<char>, r: Seq<char>)
    requires
        0 <= n <= a.policies@.len(),
    ensures
        check_fails(pdp_outcomes(a, n), el, r) ==> r == "auth-propagation"@ && exists|p: int|
            0 <= p < n && (#[trigger] a.policies@[p]).name@ == el,
    decreases n,
{
    if n > 0 {
        let np = a.policies@[n - 1];
        lemma_pdp_fail_names(a, n - 1, el, r);
        lemma_check_fails_concat(pdp_outcomes(a, n - 1), pdp_checks(a, np), el, r);
        match np.policy.pdp {
            Some(p) => {
                let x = if comp_index(a, p@) >= 0 {
                    None
                } else {
                    fail(np.name@, "auth-propagation"@, "策略 "@ + np.name@ + " 的 pdp 不存在: "@ + p@)
                };
                lemma_check_fails_one(x, el, r);
                assert(pdp_checks(a, np) == seq![x]);
            },
            None => {
                lemma_check_fails_one(None, el, r);
            },
        }
        if check_fails(pdp_outcomes(a, n - 1), el, r) {
            let p = choose|p: int| 0 <= p < n - 1 && (#[trigger] a.policies@[p]).name@ == el;
            assert(a.policies@[p].name@ == el);
        }
    } else {
        assert(pdp_outcomes(a, n) =~= Seq::<Outcome>::empty());
    }
}

/// The checks of each edge are reported exactly: with distinct edge ids, the
/// violations that name edge `k` under each edge rule appear exactly when the
/// edge breaks that rule. An unresolved reference stops the checks that need
/// the ports; the auth rule is exact where no policy bears the edge's id
/// (a missing decision point is reported under the policy's name).
pub proof fn law_edge_rules_exact(a: Arch, k: int)
    requires
        0 <= k < a.edges@.len(),
        edge_ids_distinct(a),
    ensures
        ({
            let e = a.edges@[k];
            let errs = spec_errors(a);
            let fr = resolve(a, e.from@);
            let tr = resolve(a, e.to@);
            let both = fr is Some && tr is Some;
            let fc = a.components@[fr.unwrap().0];
            let fp = fc.ports@[fr.unwrap().1];
            let tc = a.components@[tr.unwrap().0];
            let tp = tc.ports@[tr.unwrap().1];
            &&& has_error(errs, e.id@, "self-loop"@) <==> e.from@ == e.to@
            &&& has_error(errs, e.id@, "unknown-ref"@) <==> !both
            &&& has_error(errs, e.id@, "port-mismatch"@) <==> both && !(fp.ptype@ == tp.ptype@ && fp.ptype@
                == e.etype@)
            &&& has_error(errs, e.id@, "event-consumer"@) <==> both && e.etype@ == "event"@ && !(fp.ptype@
                == "event"@ && (e.spec matches Some(s) && has_substring(s@, "topic"@)))
            &&& has_error(errs, e.id@, "trace-coverage"@) <==> both && !edge_has_type(a, e, "trace"@)
            &&& has_error(errs, e.id@, "same-gate-iron"@) <==> both && fc.kind@ == "app"@ && tc.kind@
                != "gateway"@
            &&& has_error(errs, e.id@, "core-only-data"@) <==> both && e.etype@ == "data-store"@ && tc.kind@
                != "datastore"@
            &&& (forall|p: int| 0 <= p < a.policies@.len() ==> (#[trigger] a.policies@[p]).name@ != e.id@)
                ==> (has_error(errs, e.id@, "auth-propagation"@) <==> both && (e.etype@ == "sync-call"@
                || e.etype@ == "stream"@) && !edge_has_type(a, e, "auth"@))
        }),
{
    let e = a.edges@[k];
    lemma_rule_name_shapes();
    lemma_edge_rule_exact(a, k, "self-loop"@);
    lemma_edge_checks_fail(a, e, e.id@, "self-loop"@);
    lemma_edge_rule_exact(a, k, "unknown-ref"@);
    lemma_edge_checks_fail(a, e, e.id@, "unknown-ref"@);
    lemma_edge_rule_exact(a, k, "port-mismatch"@);
    lemma_edge_checks_fail(a, e, e.id@, "port-mismatch"@);
    lemma_edge_rule_exact(a, k, "event-consumer"@);
    lemma_edge_checks_fail(a, e, e.id@, "event-consumer"@);
    lemma_edge_rule_exact(a, k, "trace-coverage"@);
    lemma_edge_checks_fail(a, e, e.id@, "trace-coverage"@);
    lemma_edge_rule_exact(a, k, "same-gate-iron"@);
    lemma_edge_checks_fail(a, e, e.id@, "same-gate-iron"@);
    lemma_edge_rule_exact(a, k, "core-only-data"@);
    lemma_edge_checks_fail(a, e, e.id@, "core-only-data"@);
    lemma_edge_rule_exact(a, k, "auth-propagation"@);
    lemma_edge_checks_fail(a, e, e.id@, "auth-propagation"@);
}

/// A violation naming edge `k` under an edge rule comes from that edge's own checks.
proof fn lemma_edge_rule_exact(a: Arch, k: int, r: Seq<char>)
    requires
        0 <= k < a.edges@.len(),
        edge_ids_distinct(a),
        is_edge_rule(r),
    ensures
        ({
            let e = a.edges@[k];
            &&& r != "auth-propagation"@ ==> (has_error(spec_errors(a), e.id@, r) <==> check_fails(
                edge_checks(a, e),
                e.id@,
                r,
            ))
            &&& (forall|p: int| 0 <= p < a.policies@.len() ==> (#[trigger] a.policies@[p]).name@ != e.id@)
                ==> (has_error(spec_errors(a), e.id@, r) <==> check_fails(edge_checks(a, e), e.id@, r))
        }),
{
    let e = a.edges@[k];
    let el = e.id@;
    let nd = (a.components@.len() + a.edges@.len()) as int;
    let d = dup_outcomes(a, nd);
    let eo = edge_outcomes(a, a.edges@.len() as int);
    let p = pdp_outcomes(a, a.policies@.len() as int);
    let sb = sandbox_outcomes(a, a.components@.len() as int);
    let c = seq![cycle_outcome(a)];
    lemma_outcome_parts(a);
    lemma_rule_literals_distinct();
    lemma_rule_names_differ();
    lemma_failures_has(arch_outcomes(a), el, r);
    lemma_check_fails_concat(d, eo + p, el, r);
    lemma_check_fails_concat(d + (eo + p), sb, el, r);
    lemma_check_fails_concat(d + (eo + p) + sb, c, el, r);
    lemma_check_fails_concat(eo, p, el, r);
    lemma_dup_no_fail(a, el, r);
    lemma_sandbox_rules(a, a.components@.len() as int);
    lemma_within_no_fail(sb, |x: Seq<char>| x == "sandbox-floor"@, el, r);
    lemma_check_fails_one(cycle_outcome(a), el, r);
    lemma_pdp_fail_names(a, a.policies@.len() as int, el, r);
    lemma_edge_outcomes_fail(a, a.edges@.len() as int, el, r);
    if exists|m: int|
        0 <= m < a.edges@.len() && a.edges@[m].id@ == el && #[trigger] check_fails(edge_checks(a, a.edges@[m]), el, r) {
        let m = choose|m: int|
            0 <= m < a.edges@.len() && a.edges@[m].id@ == el && #[trigger] check_fails(
                edge_checks(a, a.edges@[m]),
                el,
                r,
            );
        assert(m == k);
    }
    if check_fails(edge_checks(a, e), el, r) {
        assert(a.edges@[k].id@ == el);
    }
}

/// An id that two edges share is always reported as a duplicate id.
pub proof fn law_shared_edge_id_reported(a: Arch, m1: int, m2: int)
    requires
        0 <= m1 < a.edges@.len(),
        0 <= m2 < a.edges@.len(),
        m1 != m2,
        a.edges@[m1].id@ == a.edges@[m2].id@,
    ensures
        has_error(spec_errors(a), a.edges@[m1].id@, "dup-id"@),
{
    let nc = a.components@.len() as int;
    let nd = (a.components@.len() + a.edges@.len()) as int;
    let id = a.edges@[m1].id@;
    let lo = if m1 < m2 {
        m1
    } else {
        m2
    };
    let hi = if m1 < m2 {
        m2
    } else {
        m1
    };
    let ids = all_ids(a);
    let j = nc + hi;
    assert(ids[j] == a.edges@[hi].id@);
    assert(ids[nc + lo] == a.edges@[lo].id@);
    assert(ids.take(j)[nc + lo] == ids[nc + lo]);
    assert(ids.take(j).contains(ids[j]));
    let o = arch_outcomes(a);
    let d = dup_outcomes(a, nd);
    lemma_outcome_parts(a);
    lemma_dup_index(a, nd, j);
    assert(o[j] == d[j]);
    assert(o[j] == dup_outcome(a, j));
    lemma_failures_has(o, id, "dup-id"@);
    assert(fails_as(o[j], id, "dup-id"@));
}

/// A sync-acyclic violation always names an edge of type sync-call: the edge
/// that closes a cycle of sync-call edges. So a model without sync-call edges
/// has no sync-acyclic violation, whatever cycles its other edges form.
pub proof fn law_cycle_violation_names_sync_edge(a: Arch)
    ensures
        forall|j: int|
            0 <= j < spec_errors(a).len() && (#[trigger] spec_errors(a)[j]).rule == "sync-acyclic"@ ==> exists|k: int|
                0 <= k < a.edges@.len() && (#[trigger] a.edges@[k]).id@ == spec_errors(a)[j].element
                    && a.edges@[k].etype@ == "sync-call"@,
        (forall|k: int| 0 <= k < a.edges@.len() ==> (#[trigger] a.edges@[k]).etype@ != "sync-call"@) ==> forall|j: int|
            0 <= j < spec_errors(a).len() ==> (#[trigger] spec_errors(a)[j]).rule != "sync-acyclic"@,
{
    let o1 = dup_outcomes(a, (a.components@.len() + a.edges@.len()) as int) + edge_outcomes(a, a.edges@.len() as int)
        + pdp_outcomes(a, a.policies@.len() as int) + sandbox_outcomes(a, a.components@.len() as int);
    let c = seq![cycle_outcome(a)];
    lemma_checks_no_cycle_rule(a);
    lemma_failures_no_cycle_rule(o1);
    lemma_failures_concat(o1, c);
    law_cycle_sound(a);
    assert(c =~= Seq::<Outcome>::empty().push(cycle_outcome(a)));
    lemma_failures_passes_push(Seq::<Outcome>::empty(), cycle_outcome(a));
    let errs = spec_errors(a);
    let f1 = failures(o1);
    assert(arch_outcomes(a) =~= o1 + c);
    match spec_find_sync_cycle(a) {
        Some((id, path)) => {
            let e = ErrView { element: id, rule: "sync-acyclic"@, message: "sync-call 子图存在环: "@ + seq_join(path, "→"@) };
            assert(cycle_outcome(a) == Some(e));
            assert(errs == f1.push(e));
            let (ns, ks) = choose|ns: Seq<int>, ks: Seq<int>| cycle_walk(a, ns, ks, id, path);
            let kl = ks[ks.len() - 1];
            assert(0 <= kl < a.edges@.len() && a.edges@[kl].etype@ == "sync-call"@);
            assert forall|j: int| 0 <= j < errs.len() && (#[trigger] errs[j]).rule == "sync-acyclic"@ implies exists|k: int|
                0 <= k < a.edges@.len() && (#[trigger] a.edges@[k]).id@ == errs[j].element && a.edges@[k].etype@
                    == "sync-call"@ by {
                if j < f1.len() {
                    assert(errs[j] == f1[j]);
                } else {
                    assert(errs[j] == e);
                    assert(a.edges@[kl].id@ == id);
                }
            }
        },
        None => {
            assert(cycle_outcome(a) is None);
            assert(errs =~= f1);
            assert forall|j: int| 0 <= j < errs.len() implies (#[trigger] errs[j]).rule != "sync-acyclic"@ by {
                assert(errs[j] == f1[j]);
            }
        },
    }
}

/// The decision point that policy `np` names is no component's id.
spec fn pdp_missing(a: Arch, np: NamedPolicy) -> bool {
    match np.policy.pdp {
        Some(p) => comp_index(a, p@) < 0,
        None => false,
    }
}

proof fn lemma_pdp_outcomes_fail(a: Arch, n: int, el: Seq<char>, r: Seq<char>)
    requires
        0 <= n <= a.policies@.len(),
    ensures
        check_fails(pdp_outcomes(a, n), el, r) <==> r == "auth-propagation"@ && exists|q: int|
            0 <= q < n && (#[trigger] a.policies@[q]).name@ == el && pdp_missing(a, a.policies@[q]),
    decreases n,
{
    if n > 0 {
        let np = a.policies@[n - 1];
        lemma_pdp_outcomes_fail(a, n - 1, el, r);
        lemma_check_fails_concat(pdp_outcomes(a, n - 1), pdp_checks(a, np), el, r);
        match np.policy.pdp {
            Some(p) => {
                let x = if comp_index(a, p@) >= 0 {
                    None
                } else {
                    fail(np.name@, "auth-propagation"@, "策略 "@ + np.name@ + " 的 pdp 不存在: "@ + p@)
                };
                lemma_check_fails_one(x, el, r);
                assert(pdp_checks(a, np) == seq![x]);
            },
            None => {
                lemma_check_fails_one(None, el, r);
            },
        }
        if exists|q: int| 0 <= q < n && (#[trigger] a.policies@[q]).name@ == el && pdp_missing(a, a.policies@[q]) {
            let q = choose|q: int| 0 <= q < n && (#[trigger] a.policies@[q]).name@ == el && pdp_missing(a, a.policies@[q]);
            if q < n - 1 {
                assert(exists|q: int|
                    0 <= q < n - 1 && (#[trigger] a.policies@[q]).name@ == el && pdp_missing(a, a.policies@[q]));
            }
        }
    } else {
        assert(pdp_outcomes(a, n) =~= Seq::<Outcome>::empty());
    }
}

/// A policy's decision point is looked up by component id: when policy names
/// are distinct and no edge bears the policy's name, an auth-propagation
/// violation names the policy exactly when it names a decision point that is
/// the id of no component (a component's display name does not count).
pub proof fn law_pdp_exact(a: Arch, i: int)
    requires
        0 <= i < a.policies@.len(),
        keys_distinct(a.policies@),
        forall|k: int| 0 <= k < a.edges@.len() ==> (#[trigger] a.edges@[k]).id@ != a.policies@[i].name@,
    ensures
        has_error(spec_errors(a), a.policies@[i].name@, "auth-propagation"@) <==> (a.policies@[i].policy.pdp matches Some(
            p,
        ) && forall|c: int| 0 <= c < a.components@.len() ==> (#[trigger] a.components@[c]).id@ != p@),
{
    let np = a.policies@[i];
    let el = np.name@;
    let r = "auth-propagation"@;
    let nd = (a.components@.len() + a.edges@.len()) as int;
    let d = dup_outcomes(a, nd);
    let eo = edge_outcomes(a, a.edges@.len() as int);
    let p = pdp_outcomes(a, a.policies@.len() as int);
    let sb = sandbox_outcomes(a, a.components@.len() as int);
    let c = seq![cycle_outcome(a)];
    lemma_outcome_parts(a);
    lemma_rule_literals_distinct();
    lemma_rule_names_differ();
    lemma_failures_has(arch_outcomes(a), el, r);
    lemma_check_fails_concat(d, eo + p, el, r);
    lemma_check_fails_concat(d + (eo + p), sb, el, r);
    lemma_check_fails_concat(d + (eo + p) + sb, c, el, r);
    lemma_check_fails_concat(eo, p, el, r);
    lemma_dup_no_fail(a, el, r);
    lemma_sandbox_rules(a, a.components@.len() as int);
    lemma_within_no_fail(sb, |x: Seq<char>| x == "sandbox-floor"@, el, r);
    lemma_check_fails_one(cycle_outcome(a), el, r);
    lemma_edge_outcomes_fail(a, a.edges@.len() as int, el, r);
    lemma_pdp_outcomes_fail(a, a.policies@.len() as int, el, r);
    if exists|m: int|
        0 <= m < a.edges@.len() && a.edges@[m].id@ == el && #[trigger] check_fails(edge_checks(a, a.edges@[m]), el, r) {
        let m = choose|m: int|
            0 <= m < a.edges@.len() && a.edges@[m].id@ == el && #[trigger] check_fails(edge_checks(a, a.edges@[m]), el, r);
        assert(a.edges@[m].id@ != el);
    }
    if exists|q: int|
        0 <= q < a.policies@.len() && (#[trigger] a.policies@[q]).name@ == el && pdp_missing(a, a.policies@[q]) {
        let q = choose|q: int|
            0 <= q < a.policies@.len() && (#[trigger] a.policies@[q]).name@ == el && pdp_missing(a, a.policies@[q]);
        if q != i {
            assert(a.policies@[q].key() != a.policies@[i].key());
        }
    }
    match np.policy.pdp {
        Some(pd) => {
            lemma_key_index(a.components@, pd@);
            if forall|c: int| 0 <= c < a.components@.len() ==> (#[trigger] a.components@[c]).id@ != pd@ {
                assert forall|c: int| 0 <= c < a.components@.len() implies (#[trigger] a.components@[c]).key() != pd@ by {
                    assert(a.components@[c].id@ != pd@);
                }
                assert(pdp_missing(a, a.policies@[i]));
            } else {
                let c = choose|c: int| 0 <= c < a.components@.len() && (#[trigger] a.components@[c]).id@ == pd@;
                assert(a.components@[c].key() == pd@);
                assert(!pdp_missing(a, a.policies@[i]));
            }
        },
        None => {},
    }
}

// ----- executable checks -----

/// The check counters and the violations found so far.
struct Ctx {
    pass: usize,
    fail: usize,
    errs: Vec<VErr>,
    outs: Ghost<Seq<Outcome>>,
}

impl Ctx {
    spec fn inv(&self) -> bool {
        &&& self.pass == passes(self.outs@)
        &&& self.fail == failures(self.outs@).len()
        &&& errs_view(self.errs@) == failures(self.outs@)
        &&& self.outs@.len() < usize::MAX
    }

    fn ok(&mut self)
        requires
            old(self).inv(),
            old(self).outs@.len() + 1 < usize::MAX,
        ensures
            final(self).inv(),
            final(self).outs@ == old(self).outs@.push(None),
            final(self).pass == old(self).pass + 1,
            final(self).fail == old(self).fail,
            final(self).errs@ == old(self).errs@,
    {
        proof {
            lemma_failures_passes_len(self.outs@);
            lemma_failures_passes_push(self.outs@, None);
        }
        self.pass = self.pass + 1;
        self.outs = Ghost(self.outs@.push(None));
    }

    fn bad(&mut self, element: &str, rule: &str, message: String)
        requires
            old(self).inv(),
            old(self).outs@.len() + 1 < usize::MAX,
        ensures
            final(self).inv(),
            final(self).outs@ == old(self).outs@.push(fail(element@, rule@, message@)),
            final(self).pass == old(self).pass,
            final(self).fail == old(self).fail + 1,
            errs_view(final(self).errs@) == errs_view(old(self).errs@).push(
                ErrView { element: element@, rule: rule@, message: message@ },
            ),
    {
        let ghost x = fail(element@, rule@, message@);
        proof {
            lemma_failures_passes_len(self.outs@);
            lemma_failures_passes_push(self.outs@, x);
        }
        let err = VErr { element: String::from_str(element), rule: String::from_str(rule), message };
        let ghost before = self.errs@;
        self.fail = self.fail + 1;
        self.errs.push(err);
        assert(errs_view(self.errs@) =~= errs_view(before).push(err@));
        self.outs = Ghost(self.outs@.push(x));
    }
}

/// Whether `id` is among `seen`.
fn seen_contains(seen: &Vec<&str>, id: &str) -> (r: bool)
    ensures
        r == exists|j: int| 0 <= j < seen@.len() && (#[trigger] seen@[j])@ == id@,
{
    let n = seen.len();
    let mut i: usize = 0;
    while i < n
        invariant
            n == seen@.len(),
            i <= n,
            forall|j: int| 0 <= j < i ==> (#[trigger] seen@[j])@ != id@,
        decreases n - i,
    {
        if str_eq(seen[i], id) {
            return true;
        }
        i = i + 1;
    }
    false
}

fn check_dup_ids(a: &Arch, cx: &mut Ctx)
    requires
        old(cx).inv(),
        old(cx).outs@ == Seq::<Outcome>::empty(),
        within_limits(*a),
    ensures
        final(cx).inv(),
        final(cx).outs@ == dup_outcomes(*a, (a.components@.len() + a.edges@.len()) as int),
{
    let ghost ids = all_ids(*a);
    let nc = a.components.len();
    let ne = a.edges.len();
    assert(ids.len() == nc + ne);
    let mut seen: Vec<&str> = Vec::new();
    let mut k: usize = 0;
    while k < nc + ne
        invariant
            nc == a.components@.len(),
            ne == a.edges@.len(),
            ids == all_ids(*a),
            ids.len() == nc + ne,
            within_limits(*a),
            k <= nc + ne,
            seen@.len() == k,
            forall|j: int| 0 <= j < k ==> (#[trigger] seen@[j])@ == ids[j],
            cx.inv(),
            cx.outs@ == dup_outcomes(*a, k as int),
        decreases nc + ne - k,
    {
        proof {
            lemma_dup_len(*a, k as int);
        }
        let id: &str = if k < nc {
            assert(ids[k as int] == a.components@[k as int].id@);
            a.components[k].id.as_str()
        } else {
            assert(ids[k as int] == a.edges@[k - nc].id@);
            a.edges[k - nc].id.as_str()
        };
        let dup = seen_contains(&seen, id);
        proof {
            if dup {
                let j = choose|j: int| 0 <= j < seen@.len() && (#[trigger] seen@[j])@ == id@;
                assert(ids.take(k as int)[j] == ids[k as int]);
            } else {
                assert forall|j: int| 0 <= j < k implies ids.take(k as int)[j] != ids[k as int] by {
                    assert(seen@[j]@ == ids[j]);
                }
            }
        }
        if dup {
            let mut m = if k < nc {
                String::from_str("组件 id 重复: ")
            } else {
                String::from_str("边 id 重复: ")
            };
            m.append(id);
            cx.bad(id, "dup-id", m);
        } else {
            cx.ok();
        }
        seen.push(id);
        k = k + 1;
    }
}

/// Whether some name in `names` denotes a policy of type `ptype`.
fn has_policy_type(a: &Arch, names: &Vec<String>, ptype: &str) -> (r: bool)
    ensures
        r == any_has_type(*a, names@, ptype@),
{
    let n = names.len();
    let mut i: usize = 0;
    while i < n
        invariant
            n == names@.len(),
            i <= n,
            forall|j: int| 0 <= j < i ==> !policy_has_type(*a, (#[trigger] names@[j])@, ptype@),
        decreases n - i,
    {
        match find_key(&a.policies, names[i].as_str()) {
            Some(pi) => {
                if str_eq(a.policies[pi].policy.ptype.as_str(), ptype) {
                    assert(policy_has_type(*a, names@[i as int]@, ptype@));
                    return true;
                }
            },
            None => {},
        }
        i = i + 1;
    }
    false
}

fn check_mismatch(e: &Edge, fp: &Port, tp: &Port, cx: &mut Ctx)
    requires
        old(cx).inv(),
        old(cx).outs@.len() + 1 < usize::MAX,
    ensures
        final(cx).inv(),
        final(cx).outs@ == old(cx).outs@.push(mismatch_outcome(*e, *fp, *tp)),
{
    if str_eq(fp.ptype.as_str(), tp.ptype.as_str()) && str_eq(fp.ptype.as_str(), e.etype.as_str()) {
        cx.ok();
    } else {
        let mut m = String::from_str("边 ");
        m.append(e.id.as_str());
        m.append(" 类型 ");
        m.append(e.etype.as_str());
        m.append(" 与端口类型不符 (");
        m.append(e.from.as_str());
        m.append(":");
        m.append(fp.ptype.as_str());
        m.append(" -> ");
        m.append(e.to.as_str());
        m.append(":");
        m.append(tp.ptype.as_str());
        m.append(")");
        cx.bad(e.id.as_str(), "port-mismatch", m);
    }
}

fn check_event(e: &Edge, fp: &Port, cx: &mut Ctx)
    requires
        old(cx).inv(),
        old(cx).outs@.len() + 1 < usize::MAX,
    ensures
        final(cx).inv(),
        final(cx).outs@ == old(cx).outs@ + when(e.etype@ == "event"@, event_outcome(*e, *fp)),
{
    let ghost o0 = cx.outs@;
    if str_eq(e.etype.as_str(), "event") {
        let topic_ok = match &e.spec {
            Some(sp) => contains_str(sp.as_str(), "topic"),
            None => false,
        };
        if str_eq(fp.ptype.as_str(), "event") && topic_ok {
            cx.ok();
        } else {
            let mut m = String::from_str("event 边 ");
            m.append(e.id.as_str());
            m.append(" 必须从 event 口出发且 spec 含 topic");
            cx.bad(e.id.as_str(), "event-consumer", m);
        }
    }
    assert(cx.outs@ =~= o0 + when(e.etype@ == "event"@, event_outcome(*e, *fp)));
}

/// Whether the edge, with the default edge annotations, carries a policy of type `ptype`.
fn edge_has_policy_type(a: &Arch, e: &Edge, ptype: &str) -> (r: bool)
    ensures
        r == edge_has_type(*a, *e, ptype@),
{
    has_policy_type(a, &a.defaults.edges, ptype) || has_policy_type(a, &e.annotations, ptype)
}

fn check_auth(a: &Arch, e: &Edge, cx: &mut Ctx)
    requires
        old(cx).inv(),
        old(cx).outs@.len() + 1 < usize::MAX,
    ensures
        final(cx).inv(),
        final(cx).outs@ == old(cx).outs@ + when(
            e.etype@ == "sync-call"@ || e.etype@ == "stream"@,
            auth_outcome(*a, *e),
        ),
{
    let ghost o0 = cx.outs@;
    if str_eq(e.etype.as_str(), "sync-call") || str_eq(e.etype.as_str(), "stream") {
        if edge_has_policy_type(a, e, "auth") {
            cx.ok();
        } else {
            let mut m = String::from_str("边 ");
            m.append(e.id.as_str());
            m.append(" 裸奔：缺 auth 注解（含 defaults 继承）");
            cx.bad(e.id.as_str(), "auth-propagation", m);
        }
    }
    assert(cx.outs@ =~= o0 + when(e.etype@ == "sync-call"@ || e.etype@ == "stream"@, auth_outcome(*a, *e)));
}

fn check_trace(a: &Arch, e: &Edge, cx: &mut Ctx)
    requires
        old(cx).inv(),
        old(cx).outs@.len() + 1 < usize::MAX,
    ensures
        final(cx).inv(),
        final(cx).outs@ == old(cx).outs@.push(trace_outcome(*a, *e)),
{
    if edge_has_policy_type(a, e, "trace") {
        cx.ok();
    } else {
        let mut m = String::from_str("边 ");
        m.append(e.id.as_str());
        m.append(" 缺 trace 注解");
        cx.bad(e.id.as_str(), "trace-coverage", m);
    }
}

fn check_gate(e: &Edge, fc: &Component, tc: &Component, cx: &mut Ctx)
    requires
        old(cx).inv(),
        old(cx).outs@.len() + 1 < usize::MAX,
    ensures
        final(cx).inv(),
        final(cx).outs@ == old(cx).outs@ + when(fc.kind@ == "app"@, gate_outcome(*e, *fc, *tc)),
{
    let ghost o0 = cx.outs@;
    if str_eq(fc.kind.as_str(), "app") {
        if str_eq(tc.kind.as_str(), "gateway") {
            cx.ok();
        } else {
            let mut m = String::from_str("边 ");
            m.append(e.id.as_str());
            m.append(" 违反同门铁律：应用 ");
            m.append(fc.id.as_str());
            m.append(" 必须经 gateway 接入，不可直连 ");
            m.append(tc.id.as_str());
            cx.bad(e.id.as_str(), "same-gate-iron", m);
        }
    }
    assert(cx.outs@ =~= o0 + when(fc.kind@ == "app"@, gate_outcome(*e, *fc, *tc)));
}

fn check_data(e: &Edge, tc: &Component, cx: &mut Ctx)
    requires
        old(cx).inv(),
        old(cx).outs@.len() + 1 < usize::MAX,
    ensures
        final(cx).inv(),
        final(cx).outs@ == old(cx).outs@ + when(e.etype@ == "data-store"@, data_outcome(*e, *tc)),
{
    let ghost o0 = cx.outs@;
    if str_eq(e.etype.as_str(), "data-store") {
        if str_eq(tc.kind.as_str(), "datastore") {
            cx.ok();
        } else {
            let mut m = String::from_str("边 ");
            m.append(e.id.as_str());
            m.append(" 违反单一持久层：数据只能落入 datastore，");
            m.append(tc.id.as_str());
            m.append(" 不是 datastore");
            cx.bad(e.id.as_str(), "core-only-data", m);
        }
    }
    assert(cx.outs@ =~= o0 + when(e.etype@ == "data-store"@, data_outcome(*e, *tc)));
}

fn check_resolved(a: &Arch, e: &Edge, fc: &Component, fp: &Port, tc: &Component, tp: &Port, cx: &mut Ctx)
    requires
        old(cx).inv(),
        old(cx).outs@.len() + 6 < usize::MAX,
    ensures
        final(cx).inv(),
        final(cx).outs@ == old(cx).outs@ + resolved_checks(*a, *e, *fc, *fp, *tc, *tp),
{
    let ghost o0 = cx.outs@;
    check_mismatch(e, fp, tp, cx);
    check_event(e, fp, cx);
    check_auth(a, e, cx);
    check_trace(a, e, cx);
    check_gate(e, fc, tc, cx);
    check_data(e, tc, cx);
    assert(cx.outs@ =~= o0 + resolved_checks(*a, *e, *fc, *fp, *tc, *tp));
}

fn check_unknown_ref(a: &Arch, e: &Edge, from_missing: bool, to_missing: bool, cx: &mut Ctx)
    requires
        old(cx).inv(),
        old(cx).outs@.len() + 1 < usize::MAX,
        from_missing == (resolve(*a, e.from@) is None),
        to_missing == (resolve(*a, e.to@) is None),
    ensures
        final(cx).inv(),
        final(cx).outs@ == old(cx).outs@.push(unknown_ref_outcome(*a, *e)),
{
    let mut m = String::from_str("边 ");
    m.append(e.id.as_str());
    m.append(" 引用不存在的端口: ");
    if from_missing && to_missing {
        m.append(e.from.as_str());
        m.append(", ");
        m.append(e.to.as_str());
    } else if from_missing {
        m.append(e.from.as_str());
    } else {
        m.append(e.to.as_str());
    }
    assert(m@ =~= "边 "@ + e.id@ + " 引用不存在的端口: "@ + missing_refs(*a, *e));
    cx.bad(e.id.as_str(), "unknown-ref", m);
}

fn check_edge(a: &Arch, e: &Edge, cx: &mut Ctx)
    requires
        old(cx).inv(),
        old(cx).outs@.len() + 8 < usize::MAX,
    ensures
        final(cx).inv(),
        final(cx).outs@ == old(cx).outs@ + edge_checks(*a, *e),
{
    let ghost o0 = cx.outs@;
    if str_eq(e.from.as_str(), e.to.as_str()) {
        let mut m = String::from_str("边 ");
        m.append(e.id.as_str());
        m.append(" 自环: ");
        m.append(e.from.as_str());
        cx.bad(e.id.as_str(), "self-loop", m);
    } else {
        cx.ok();
    }
    let rf = a.resolve_port_index(e.from.as_str());
    let rt = a.resolve_port_index(e.to.as_str());
    match (rf, rt) {
        (Some((fci, fpi)), Some((tci, tpi))) => {
            cx.ok();
            let fc = &a.components[fci];
            let tc = &a.components[tci];
            check_resolved(a, e, fc, &fc.ports[fpi], tc, &tc.ports[tpi], cx);
            assert(cx.outs@ =~= o0 + edge_checks(*a, *e));
        },
        _ => {
            check_unknown_ref(a, e, rf.is_none(), rt.is_none(), cx);
            assert(cx.outs@ =~= o0 + edge_checks(*a, *e));
        },
    }
}

fn check_pdp(a: &Arch, np: &NamedPolicy, cx: &mut Ctx)
    requires
        old(cx).inv(),
        old(cx).outs@.len() + 1 < usize::MAX,
    ensures
        final(cx).inv(),
        final(cx).outs@ == old(cx).outs@ + pdp_checks(*a, *np),
{
    let ghost o0 = cx.outs@;
    match &np.policy.pdp {
        Some(p) => {
            if find_key(&a.components, p.as_str()).is_some() {
                cx.ok();
            } else {
                let mut m = String::from_str("策略 ");
                m.append(np.name.as_str());
                m.append(" 的 pdp 不存在: ");
                m.append(p.as_str());
                cx.bad(np.name.as_str(), "auth-propagation", m);
            }
        },
        None => {},
    }
    assert(cx.outs@ =~= o0 + pdp_checks(*a, *np));
}

/// The sandbox level of a component, its own or inherited from its kind.
fn effective_sandbox_of<'a>(a: &'a Arch, c: &'a Component) -> (r: Option<&'a str>)
    ensures
        match r {
            Some(s) => effective_sandbox(*a, *c) == Some(s@),
            None => effective_sandbox(*a, *c) is None,
        },
{
    match find_key(&c.annotations, "sandbox") {
        Some(i) => Some(c.annotations[i].value.as_str()),
        None => match find_key(&a.defaults.nodes, c.kind.as_str()) {
            Some(k) => match find_key(&a.defaults.nodes[k].annotations, "sandbox") {
                Some(j) => Some(a.defaults.nodes[k].annotations[j].value.as_str()),
                None => None,
            },
            None => None,
        },
    }
}

fn check_sandbox(a: &Arch, c: &Component, cx: &mut Ctx)
    requires
        old(cx).inv(),
        old(cx).outs@.len() + 1 < usize::MAX,
    ensures
        final(cx).inv(),
        final(cx).outs@ == old(cx).outs@ + sandbox_checks(*a, *c),
{
    let ghost o0 = cx.outs@;
    if str_eq(c.kind.as_str(), "ai-runtime") {
        let sb = effective_sandbox_of(a, c);
        let good = match sb {
            Some(s) => str_eq(s, "container") || str_eq(s, "seccomp"),
            None => false,
        };
        if good {
            cx.ok();
        } else {
            let mut m = String::from_str("ai-runtime ");
            m.append(c.id.as_str());
            m.append(" sandbox 不达标: ");
            match sb {
                Some(s) => m.append(s),
                None => m.append("缺失"),
            }
            m.append("（需 container|seccomp）");
            cx.bad(c.id.as_str(), "sandbox-floor", m);
        }
    }
    assert(cx.outs@ =~= o0 + sandbox_checks(*a, *c));
}

/// `list` joined with `sep`.
pub fn join_strings(list: &Vec<String>, sep: &str) -> (r: String)
    ensures
        r@ == seq_join(strings_view(list@), sep@),
{
    let ghost lv = strings_view(list@);
    let mut r = String::new();
    let n = list.len();
    let mut i: usize = 0;
    while i < n
        invariant
            n == list@.len(),
            lv == strings_view(list@),
            i <= n,
            r@ == seq_join(lv.take(i as int), sep@),
        decreases n - i,
    {
        if i != 0 {
            r.append(sep);
        }
        r.append(list[i].as_str());
        assert(lv.take(i + 1).drop_last() =~= lv.take(i as int));
        i = i + 1;
    }
    assert(lv.take(n as int) =~= lv);
    r
}

/// Whether the model's sizes leave room for the check counters.
pub fn fits_limits(a: &Arch) -> (r: bool)
    ensures
        r == within_limits(*a),
{
    let nc = a.components.len();
    let ne = a.edges.len();
    let np = a.policies.len();
    match nc.checked_mul(2) {
        None => false,
        Some(x) => match ne.checked_mul(9) {
            None => false,
            Some(y) => match x.checked_add(y) {
                None => false,
                Some(z) => match z.checked_add(np) {
                    None => false,
                    Some(w) => match w.checked_add(1) {
                        None => false,
                        Some(t) => t < usize::MAX,
                    },
                },
            },
        },
    }
}

/// Runs every check on `a`: (no violation, passes, failures, violations).
pub fn validate(a: &Arch) -> (r: (bool, usize, usize, Vec<VErr>))
    requires
        within_limits(*a),
    ensures
        errs_view(r.3@) == spec_errors(*a),
        r.1 == passes(arch_outcomes(*a)),
        r.2 == spec_errors(*a).len(),
        r.0 == (r.2 == 0),
        r.1 + r.2 == arch_outcomes(*a).len(),
{
    let mut cx = Ctx { pass: 0, fail: 0, errs: Vec::new(), outs: Ghost(Seq::empty()) };
    assert(errs_view(cx.errs@) =~= Seq::<ErrView>::empty());
    check_dup_ids(a, &mut cx);
    let nc = a.components.len();
    let ne = a.edges.len();
    let np = a.policies.len();
    let ghost d = cx.outs@;
    proof {
        lemma_dup_len(*a, (nc + ne) as int);
    }
    let mut i: usize = 0;
    while i < ne
        invariant
            nc == a.components@.len(),
            ne == a.edges@.len(),
            within_limits(*a),
            d == dup_outcomes(*a, (nc + ne) as int),
            d.len() == nc + ne,
            i <= ne,
            cx.inv(),
            cx.outs@ == d + edge_outcomes(*a, i as int),
        decreases ne - i,
    {
        proof {
            lemma_edge_outcomes_len(*a, i as int);
        }
        check_edge(a, &a.edges[i], &mut cx);
        assert(cx.outs@ =~= d + edge_outcomes(*a, i + 1));
        i = i + 1;
    }
    let ghost de = cx.outs@;
    proof {
        lemma_edge_outcomes_len(*a, ne as int);
    }
    let mut i: usize = 0;
    while i < np
        invariant
            nc == a.components@.len(),
            ne == a.edges@.len(),
            np == a.policies@.len(),
            within_limits(*a),
            de.len() <= nc + 9 * ne,
            i <= np,
            cx.inv(),
            cx.outs@ == de + pdp_outcomes(*a, i as int),
        decreases np - i,
    {
        proof {
            lemma_pdp_len(*a, i as int);
        }
        check_pdp(a, &a.policies[i], &mut cx);
        assert(cx.outs@ =~= de + pdp_outcomes(*a, i + 1));
        i = i + 1;
    }
    let ghost dp = cx.outs@;
    proof {
        lemma_pdp_len(*a, np as int);
    }
    let mut i: usize = 0;
    while i < nc
        invariant
            nc == a.components@.len(),
            ne == a.edges@.len(),
            np == a.policies@.len(),
            within_limits(*a),
            dp.len() <= nc + 9 * ne + np,
            i <= nc,
            cx.inv(),
            cx.outs@ == dp + sandbox_outcomes(*a, i as int),
        decreases nc - i,
    {
        proof {
            lemma_sandbox_len(*a, i as int);
        }
        check_sandbox(a, &a.components[i], &mut cx);
        assert(cx.outs@ =~= dp + sandbox_outcomes(*a, i + 1));
        i = i + 1;
    }
    proof {
        lemma_sandbox_len(*a, nc as int);
    }
    match find_sync_cycle(a) {
        None => cx.ok(),
        Some((element, path)) => {
            let mut m = String::from_str("sync-call 子图存在环: ");
            let joined = join_strings(&path, "→");
            m.append(joined.as_str());
            cx.bad(element.as_str(), "sync-acyclic", m);
        },
    }
    assert(cx.outs@ =~= arch_outcomes(*a));
    proof {
        lemma_failures_passes_len(arch_outcomes(*a));
    }
    (cx.fail == 0, cx.pass, cx.fail, cx.errs)
}

} // verus!
