//! Trajectory simulation (L2): a request enters at the entry port and travels
//! depth-first along the outgoing edges of each component, in edge order.
//! It stalls at the first edge that has a rule violation; each component is
//! processed at most once, and the search goes at most `MAX_DEPTH` levels deep.
use vstd::prelude::*;
use crate::model::{Arch, Component, Keyed, Port, comp_index, lemma_key_index, opt_view};
use vstd::set_lib::{lemma_int_range, lemma_len_subset, set_int_range};
use crate::sync_cycle::strings_view;
use crate::text::{
    decimal, first_dot, head_segment, head_segment_of, lemma_head_no_dot, lemma_head_of_dotted, opt_str_eq, str_eq,
    usize_decimal,
};
use crate::validate::{ErrView, VErr, errs_view, law_shared_edge_id_reported, spec_errors, validate, within_limits};

verus! {

/// One step of a trajectory: `enter`, `process`, `hop`, `stall` or `done`,
/// the element it concerns, and an optional message.
#[derive(Debug, Clone, PartialEq, Eq)]
pub struct SimStep {
    pub step: String,
    pub element: String,
    pub message: Option<String>,
}

/// The result of a simulation.
#[derive(Debug, Clone, PartialEq, Eq)]
pub struct SimResp {
    pub ok: bool,
    pub entry: String,
    pub steps: Vec<SimStep>,
    pub hops: usize,
}

pub struct StepView {
    pub step: Seq<char>,
    pub element: Seq<char>,
    pub message: Option<Seq<char>>,
}

pub struct SimRespView {
    pub ok: bool,
    pub entry: Seq<char>,
    pub steps: Seq<StepView>,
    pub hops: nat,
}

impl View for SimStep {
    type V = StepView;

    open spec fn view(&self) -> StepView {
        StepView { step: self.step@, element: self.element@, message: opt_view(self.message) }
    }
}

pub open spec fn steps_view(s: Seq<SimStep>) -> Seq<StepView> {
    s.map_values(|x: SimStep| x@)
}

impl View for SimResp {
    type V = SimRespView;

    open spec fn view(&self) -> SimRespView {
        SimRespView { ok: self.ok, entry: self.entry@, steps: steps_view(self.steps@), hops: self.hops as nat }
    }
}

pub open spec fn step_view(kind: Seq<char>, element: Seq<char>, message: Option<Seq<char>>) -> StepView {
    StepView { step: kind, element, message }
}

/// How deep the trajectory search may go.
pub const MAX_DEPTH: usize = 14;

// ----- choosing the entry -----

/// `p` is a sync-call server port.
pub open spec fn is_server_sync(p: Port) -> bool {
    p.ptype@ == "sync-call"@ && opt_view(p.role) == Some("server"@)
}

/// The first sync-call server port of `ps` at or after `k`; -1 when none.
pub open spec fn server_port_from(ps: Seq<Port>, k: int) -> int
    decreases ps.len() - k,
{
    if k < 0 || k >= ps.len() {
        -1
    } else if is_server_sync(ps[k]) {
        k
    } else {
        server_port_from(ps, k + 1)
    }
}

/// The first port of `ps` at or after `k` whose role is not `server`; -1 when none.
pub open spec fn client_port_from(ps: Seq<Port>, k: int) -> int
    decreases ps.len() - k,
{
    if k < 0 || k >= ps.len() {
        -1
    } else if opt_view(ps[k].role) != Some("server"@) {
        k
    } else {
        client_port_from(ps, k + 1)
    }
}

/// `c` is a gateway with a sync-call server port.
pub open spec fn is_entry_gateway(c: Component) -> bool {
    c.kind@ == "gateway"@ && server_port_from(c.ports@, 0) >= 0
}

pub open spec fn gateway_from(cs: Seq<Component>, k: int) -> int
    decreases cs.len() - k,
{
    if k < 0 || k >= cs.len() {
        -1
    } else if is_entry_gateway(cs[k]) {
        k
    } else {
        gateway_from(cs, k + 1)
    }
}

pub open spec fn app_from(cs: Seq<Component>, k: int) -> int
    decreases cs.len() - k,
{
    if k < 0 || k >= cs.len() {
        -1
    } else if cs[k].kind@ == "app"@ {
        k
    } else {
        app_from(cs, k + 1)
    }
}

/// The entry reference: the first sync-call server port of the first gateway
/// that has one; failing that, the first non-server port of the first app.
pub open spec fn spec_pick_entry(a: Arch) -> Option<Seq<char>> {
    let cs = a.components@;
    let g = gateway_from(cs, 0);
    if g >= 0 {
        let c = cs[g];
        Some(c.id@ + "."@ + c.ports@[server_port_from(c.ports@, 0)].id@)
    } else {
        let ap = app_from(cs, 0);
        if ap >= 0 {
            let c = cs[ap];
            let pi = client_port_from(c.ports@, 0);
            if pi >= 0 {
                Some(c.id@ + "."@ + c.ports@[pi].id@)
            } else {
                None
            }
        } else {
            None
        }
    }
}

proof fn lemma_server_port_from(ps: Seq<Port>, k: int)
    requires
        0 <= k,
    ensures
        server_port_from(ps, k) == -1 || (k <= server_port_from(ps, k) < ps.len() && is_server_sync(
            ps[server_port_from(ps, k)],
        )),
    decreases ps.len() - k,
{
    if k < ps.len() && !is_server_sync(ps[k]) {
        lemma_server_port_from(ps, k + 1);
    }
}

proof fn lemma_client_port_from(ps: Seq<Port>, k: int)
    requires
        0 <= k,
    ensures
        client_port_from(ps, k) == -1 || k <= client_port_from(ps, k) < ps.len(),
    decreases ps.len() - k,
{
    if k < ps.len() && opt_view(ps[k].role) == Some("server"@) {
        lemma_client_port_from(ps, k + 1);
    }
}

proof fn lemma_gateway_from(cs: Seq<Component>, k: int)
    requires
        0 <= k,
    ensures
        gateway_from(cs, k) == -1 || (k <= gateway_from(cs, k) < cs.len() && is_entry_gateway(
            cs[gateway_from(cs, k)],
        )),
    decreases cs.len() - k,
{
    if k < cs.len() && !is_entry_gateway(cs[k]) {
        lemma_gateway_from(cs, k + 1);
    }
}

proof fn lemma_app_from(cs: Seq<Component>, k: int)
    requires
        0 <= k,
    ensures
        app_from(cs, k) == -1 || k <= app_from(cs, k) < cs.len(),
    decreases cs.len() - k,
{
    if k < cs.len() && cs[k].kind@ != "app"@ {
        lemma_app_from(cs, k + 1);
    }
}

fn is_server_sync_exec(p: &Port) -> (r: bool)
    ensures
        r == is_server_sync(*p),
{
    str_eq(p.ptype.as_str(), "sync-call") && opt_str_eq(&p.role, "server")
}

fn server_port(ps: &Vec<Port>) -> (r: Option<usize>)
    ensures
        match r {
            Some(i) => i as int == server_port_from(ps@, 0) && i < ps@.len(),
            None => server_port_from(ps@, 0) == -1,
        },
{
    let n = ps.len();
    let mut i: usize = 0;
    while i < n
        invariant
            n == ps@.len(),
            i <= n,
            server_port_from(ps@, 0) == server_port_from(ps@, i as int),
        decreases n - i,
    {
        if is_server_sync_exec(&ps[i]) {
            return Some(i);
        }
        i = i + 1;
    }
    None
}

fn client_port(ps: &Vec<Port>) -> (r: Option<usize>)
    ensures
        match r {
            Some(i) => i as int == client_port_from(ps@, 0) && i < ps@.len(),
            None => client_port_from(ps@, 0) == -1,
        },
{
    let n = ps.len();
    let mut i: usize = 0;
    while i < n
        invariant
            n == ps@.len(),
            i <= n,
            client_port_from(ps@, 0) == client_port_from(ps@, i as int),
        decreases n - i,
    {
        if !opt_str_eq(&ps[i].role, "server") {
            return Some(i);
        }
        i = i + 1;
    }
    None
}

/// `id.port` as one reference.
fn port_ref(c: &Component, pi: usize) -> (r: String)
    requires
        pi < c.ports@.len(),
    ensures
        r@ == c.id@ + "."@ + c.ports@[pi as int].id@,
{
    let mut s = c.id.clone();
    s.append(".");
    s.append(c.ports[pi].id.as_str());
    s
}

/// The reference at which a trajectory enters the architecture.
fn pick_entry(a: &Arch) -> (r: Option<String>)
    ensures
        match r {
            Some(s) => spec_pick_entry(*a) == Some(s@),
            None => spec_pick_entry(*a) is None,
        },
{
    let n = a.components.len();
    let mut i: usize = 0;
    while i < n
        invariant
            n == a.components@.len(),
            i <= n,
            gateway_from(a.components@, 0) == gateway_from(a.components@, i as int),
        decreases n - i,
    {
        let c = &a.components[i];
        if str_eq(c.kind.as_str(), "gateway") {
            match server_port(&c.ports) {
                Some(pi) => {
                    return Some(port_ref(c, pi));
                },
                None => {},
            }
        }
        i = i + 1;
    }
    let mut i: usize = 0;
    while i < n
        invariant
            n == a.components@.len(),
            i <= n,
            gateway_from(a.components@, 0) == -1,
            app_from(a.components@, 0) == app_from(a.components@, i as int),
        decreases n - i,
    {
        let c = &a.components[i];
        if str_eq(c.kind.as_str(), "app") {
            proof {
                lemma_client_port_from(c.ports@, 0);
            }
            return match client_port(&c.ports) {
                Some(pi) => Some(port_ref(c, pi)),
                None => None,
            };
        }
        i = i + 1;
    }
    None
}

// ----- the trajectory -----

/// The state of a trajectory: its steps, the hops so far, whether it is
/// still running clean, and the components already processed.
pub struct SimState {
    pub steps: Seq<StepView>,
    pub hops: nat,
    pub ok: bool,
    pub visited: Seq<Seq<char>>,
}

/// The message of the first violation whose element is `id`, if any.
pub open spec fn err_index_from(errs: Seq<ErrView>, id: Seq<char>, k: int) -> int
    decreases errs.len() - k,
{
    if k < 0 || k >= errs.len() {
        -1
    } else if errs[k].element == id {
        k
    } else {
        err_index_from(errs, id, k + 1)
    }
}

proof fn lemma_err_index_from(errs: Seq<ErrView>, id: Seq<char>, k: int)
    requires
        0 <= k,
    ensures
        err_index_from(errs, id, k) == -1 || k <= err_index_from(errs, id, k) < errs.len(),
    decreases errs.len() - k,
{
    if k < errs.len() && errs[k].element != id {
        lemma_err_index_from(errs, id, k + 1);
    }
}

/// Process component `cid` at search depth `depth`.
pub open spec fn sim_node(a: Arch, errs: Seq<ErrView>, cid: Seq<char>, st: SimState, depth: int) -> SimState
    decreases MAX_DEPTH - depth, 1int, 0int,
{
    if !st.ok || depth >= MAX_DEPTH || depth < 0 {
        st
    } else if st.visited.contains(cid) {
        st
    } else {
        sim_edges(
            a,
            errs,
            cid,
            0,
            SimState {
                steps: st.steps.push(step_view("process"@, cid, None)),
                visited: st.visited.push(cid),
                ..st
            },
            depth,
        )
    }
}

/// Follow the outgoing edges of component `cid` from the `k`-th edge on.
pub open spec fn sim_edges(a: Arch, errs: Seq<ErrView>, cid: Seq<char>, k: int, st: SimState, depth: int) -> SimState
    decreases MAX_DEPTH - depth, 0int, a.edges@.len() - k,
{
    if k < 0 || k >= a.edges@.len() || depth >= MAX_DEPTH || depth < 0 {
        st
    } else {
        let e = a.edges@[k];
        if head_segment(e.from@) != cid {
            sim_edges(a, errs, cid, k + 1, st, depth)
        } else {
            let ei = err_index_from(errs, e.id@, 0);
            if ei >= 0 {
                SimState {
                    steps: st.steps.push(step_view("stall"@, e.id@, Some(errs[ei].message))),
                    ok: false,
                    ..st
                }
            } else {
                let st1 = SimState {
                    steps: st.steps.push(step_view("hop"@, e.id@, None)),
                    hops: st.hops + 1,
                    ..st
                };
                let tc = head_segment(e.to@);
                if !st1.visited.contains(tc) && comp_index(a, tc) >= 0 {
                    let st2 = sim_node(a, errs, tc, st1, depth + 1);
                    if !st2.ok {
                        st2
                    } else {
                        sim_edges(a, errs, cid, k + 1, st2, depth)
                    }
                } else {
                    sim_edges(a, errs, cid, k + 1, st1, depth)
                }
            }
        }
    }
}

/// The message of the final step of a clean trajectory.
pub open spec fn done_message(hops: nat) -> Seq<char> {
    "全链路 "@ + decimal(hops) + " 跳逻辑通"@
}

/// The whole simulation result.
pub open spec fn spec_simulate(a: Arch) -> SimRespView {
    let errs = spec_errors(a);
    match spec_pick_entry(a) {
        None => SimRespView {
            ok: false,
            entry: Seq::empty(),
            hops: 0,
            steps: seq![step_view("stall"@, "-"@, Some("找不到入口（需要 gateway 或 app 组件）"@))],
        },
        Some(entry) => {
            let ec = head_segment(entry);
            let st0 = SimState {
                steps: seq![step_view("enter"@, entry, None)],
                hops: 0,
                ok: true,
                visited: seq![],
            };
            let st = sim_node(a, errs, ec, st0, 0);
            SimRespView {
                ok: st.ok,
                entry,
                steps: if st.ok {
                    st.steps.push(step_view("done"@, ec, Some(done_message(st.hops))))
                } else {
                    st.steps
                },
                hops: st.hops,
            }
        },
    }
}

// ----- laws -----

/// A step that moves the trajectory on: `process` or `hop`.
pub open spec fn is_move(x: StepView) -> bool {
    x.step == "process"@ || x.step == "hop"@
}

/// `r` extends the steps of `st`; all new steps are moves, except the last one
/// when `r` has stalled.
pub open spec fn grows(st: SimState, r: SimState) -> bool {
    &&& st.steps.len() <= r.steps.len()
    &&& r.steps.subrange(0, st.steps.len() as int) == st.steps
    &&& forall|i: int|
        st.steps.len() <= i < r.steps.len() - (if r.ok {
            0int
        } else {
            1int
        }) ==> is_move(#[trigger] r.steps[i])
}

/// A stalled trajectory ends with a `stall` step at an element that has a
/// violation, carrying that violation's message.
pub open spec fn stalled_at_violation(errs: Seq<ErrView>, r: SimState) -> bool {
    !r.ok ==> {
        &&& r.steps.len() > 0
        &&& r.steps.last().step == "stall"@
        &&& 0 <= err_index_from(errs, r.steps.last().element, 0) < errs.len()
        &&& r.steps.last().message == Some(errs[err_index_from(errs, r.steps.last().element, 0)].message)
    }
}

proof fn lemma_grows_trans(s1: SimState, s2: SimState, s3: SimState)
    requires
        grows(s1, s2),
        s2.ok,
        grows(s2, s3),
    ensures
        grows(s1, s3),
{
    assert(s3.steps.subrange(0, s1.steps.len() as int) =~= s2.steps.subrange(0, s1.steps.len() as int)) by {
        assert forall|i: int| 0 <= i < s1.steps.len() implies s3.steps[i] == s2.steps[i] by {
            assert(s3.steps.subrange(0, s2.steps.len() as int)[i] == s2.steps[i]);
        }
    }
    assert forall|i: int|
        s1.steps.len() <= i < s3.steps.len() - (if s3.ok {
            0int
        } else {
            1int
        }) implies is_move(#[trigger] s3.steps[i]) by {
        if i < s2.steps.len() {
            assert(s3.steps.subrange(0, s2.steps.len() as int)[i] == s2.steps[i]);
            assert(is_move(s2.steps[i]));
        }
    }
}

proof fn lemma_push_move(st: SimState, r: SimState, x: StepView)
    requires
        r.steps == st.steps.push(x),
        is_move(x),
        r.ok,
    ensures
        grows(st, r),
{
    assert(r.steps.subrange(0, st.steps.len() as int) =~= st.steps);
}

proof fn lemma_sim_node(a: Arch, errs: Seq<ErrView>, cid: Seq<char>, st: SimState, depth: int)
    ensures
        !st.ok ==> sim_node(a, errs, cid, st, depth) == st,
        st.ok ==> grows(st, sim_node(a, errs, cid, st, depth)) && stalled_at_violation(
            errs,
            sim_node(a, errs, cid, st, depth),
        ),
    decreases MAX_DEPTH - depth, 1int, 0int,
{
    if !st.ok || depth >= MAX_DEPTH || depth < 0 || st.visited.contains(cid) {
        assert(st.steps.subrange(0, st.steps.len() as int) =~= st.steps);
    } else {
        let st1 = SimState {
            steps: st.steps.push(step_view("process"@, cid, None)),
            visited: st.visited.push(cid),
            ..st
        };
        lemma_push_move(st, st1, step_view("process"@, cid, None));
        lemma_sim_edges(a, errs, cid, 0, st1, depth);
        lemma_grows_trans(st, st1, sim_edges(a, errs, cid, 0, st1, depth));
    }
}

proof fn lemma_sim_edges(a: Arch, errs: Seq<ErrView>, cid: Seq<char>, k: int, st: SimState, depth: int)
    requires
        st.ok,
    ensures
        grows(st, sim_edges(a, errs, cid, k, st, depth)) && stalled_at_violation(
            errs,
            sim_edges(a, errs, cid, k, st, depth),
        ),
    decreases MAX_DEPTH - depth, 0int, a.edges@.len() - k,
{
    if k < 0 || k >= a.edges@.len() || depth >= MAX_DEPTH || depth < 0 {
        assert(st.steps.subrange(0, st.steps.len() as int) =~= st.steps);
    } else {
        let e = a.edges@[k];
        if head_segment(e.from@) != cid {
            lemma_sim_edges(a, errs, cid, k + 1, st, depth);
        } else {
            let ei = err_index_from(errs, e.id@, 0);
            lemma_err_index_from(errs, e.id@, 0);
            if ei >= 0 {
                let r = sim_edges(a, errs, cid, k, st, depth);
                assert(r.steps == st.steps.push(step_view("stall"@, e.id@, Some(errs[ei].message))));
                assert(r.steps.subrange(0, st.steps.len() as int) =~= st.steps);
            } else {
                let st1 = SimState {
                    steps: st.steps.push(step_view("hop"@, e.id@, None)),
                    hops: st.hops + 1,
                    ..st
                };
                lemma_push_move(st, st1, step_view("hop"@, e.id@, None));
                let tc = head_segment(e.to@);
                if !st1.visited.contains(tc) && comp_index(a, tc) >= 0 {
                    let st2 = sim_node(a, errs, tc, st1, depth + 1);
                    lemma_sim_node(a, errs, tc, st1, depth + 1);
                    lemma_grows_trans(st, st1, st2);
                    if st2.ok {
                        lemma_sim_edges(a, errs, cid, k + 1, st2, depth);
                        lemma_grows_trans(st, st2, sim_edges(a, errs, cid, k + 1, st2, depth));
                    }
                } else {
                    lemma_sim_edges(a, errs, cid, k + 1, st1, depth);
                    lemma_grows_trans(st, st1, sim_edges(a, errs, cid, k + 1, st1, depth));
                }
            }
        }
    }
}

/// The shape of every trajectory: it starts by entering at the entry, when
/// there is one; a clean trajectory ends with `done` and never stalls; a
/// trajectory that is not clean ends with its (only) `stall` step, which,
/// when there is an entry, is at an element that has a violation and carries
/// that violation's message; without an entry the trajectory is that single
/// stall.
pub proof fn law_simulation_shape(a: Arch)
    ensures
        ({
            let r = spec_simulate(a);
            let errs = spec_errors(a);
            &&& r.steps.len() >= 1
            &&& r.ok ==> r.steps.last().step == "done"@ && forall|i: int|
                0 <= i < r.steps.len() ==> (#[trigger] r.steps[i]).step != "stall"@
            &&& !r.ok ==> r.steps.last().step == "stall"@ && forall|i: int|
                0 <= i < r.steps.len() - 1 ==> (#[trigger] r.steps[i]).step != "stall"@
            &&& spec_pick_entry(a) is None ==> !r.ok && r.steps.len() == 1
            &&& spec_pick_entry(a) matches Some(en) ==> r.entry == en && r.steps[0] == step_view(
                "enter"@,
                en,
                None,
            )
            &&& (!r.ok && spec_pick_entry(a) is Some) ==> exists|j: int|
                0 <= j < errs.len() && (#[trigger] errs[j]).element == r.steps.last().element && Some(
                    errs[j].message,
                ) == r.steps.last().message
        }),
{
    reveal_strlit("stall");
    reveal_strlit("done");
    reveal_strlit("process");
    reveal_strlit("hop");
    reveal_strlit("enter");
    let stall = "stall"@;
    assert("process"@[0] != stall[0]);
    assert("hop"@[0] != stall[0]);
    assert("enter"@[0] != stall[0]);
    assert("done"@[0] != stall[0]);
    let errs = spec_errors(a);
    match spec_pick_entry(a) {
        None => {},
        Some(entry) => {
            let ec = head_segment(entry);
            let st0 = SimState {
                steps: seq![step_view("enter"@, entry, None)],
                hops: 0,
                ok: true,
                visited: seq![],
            };
            let st = sim_node(a, errs, ec, st0, 0);
            lemma_sim_node(a, errs, ec, st0, 0);
            let r = spec_simulate(a);
            assert(st.steps.subrange(0, 1)[0] == st0.steps[0]);
            if st.ok {
                assert forall|i: int| 0 <= i < r.steps.len() implies (#[trigger] r.steps[i]).step != "stall"@ by {
                    if i == 0 {
                    } else if i < st.steps.len() {
                        assert(is_move(st.steps[i]));
                    }
                }
            } else {
                assert forall|i: int| 0 <= i < r.steps.len() - 1 implies (#[trigger] r.steps[i]).step != "stall"@ by {
                    if i > 0 {
                        assert(is_move(st.steps[i]));
                    }
                }
                let j = err_index_from(errs, st.steps.last().element, 0);
                assert(errs[j].element == r.steps.last().element) by {
                    lemma_err_index_found(errs, st.steps.last().element, 0);
                }
            }
        },
    }
}

proof fn lemma_err_index_found(errs: Seq<ErrView>, id: Seq<char>, k: int)
    requires
        0 <= k,
        err_index_from(errs, id, k) >= 0,
    ensures
        errs[err_index_from(errs, id, k)].element == id,
    decreases errs.len() - k,
{
    if k < errs.len() && errs[k].element != id {
        lemma_err_index_found(errs, id, k + 1);
    }
}

/// The number of the first `n` edges that leave one of the components `v`.
pub open spec fn edges_leaving(a: Arch, v: Seq<Seq<char>>, n: int) -> int
    decreases n,
{
    if n <= 0 {
        0
    } else {
        edges_leaving(a, v, n - 1) + if v.contains(head_segment(a.edges@[n - 1].from@)) {
            1int
        } else {
            0int
        }
    }
}

/// The number of the first `n` edges that leave component `cid`.
pub open spec fn edges_leaving_one(a: Arch, cid: Seq<char>, n: int) -> int
    decreases n,
{
    if n <= 0 {
        0
    } else {
        edges_leaving_one(a, cid, n - 1) + if head_segment(a.edges@[n - 1].from@) == cid {
            1int
        } else {
            0int
        }
    }
}

proof fn lemma_edges_leaving_push(a: Arch, v: Seq<Seq<char>>, cid: Seq<char>, n: int)
    requires
        !v.contains(cid),
        0 <= n <= a.edges@.len(),
    ensures
        edges_leaving(a, v.push(cid), n) == edges_leaving(a, v, n) + edges_leaving_one(a, cid, n),
    decreases n,
{
    if n > 0 {
        lemma_edges_leaving_push(a, v, cid, n - 1);
        let h = head_segment(a.edges@[n - 1].from@);
        assert(v.push(cid).contains(h) <==> (v.contains(h) || h == cid)) by {
            if v.push(cid).contains(h) {
                let j = choose|j: int| 0 <= j < v.push(cid).len() && v.push(cid)[j] == h;
                if j < v.len() {
                    assert(v[j] == h);
                }
            }
            if v.contains(h) {
                let j = choose|j: int| 0 <= j < v.len() && v[j] == h;
                assert(v.push(cid)[j] == h);
            }
            if h == cid {
                assert(v.push(cid)[v.len() as int] == h);
            }
        }
    }
}

proof fn lemma_edges_leaving_bound(a: Arch, v: Seq<Seq<char>>, n: int)
    requires
        0 <= n,
    ensures
        0 <= edges_leaving(a, v, n) <= n,
    decreases n,
{
    if n > 0 {
        lemma_edges_leaving_bound(a, v, n - 1);
    }
}

proof fn lemma_edges_leaving_one_mono(a: Arch, cid: Seq<char>, k: int, n: int)
    requires
        0 <= k <= n,
    ensures
        edges_leaving_one(a, cid, k) <= edges_leaving_one(a, cid, n),
    decreases n - k,
{
    if k < n {
        lemma_edges_leaving_one_mono(a, cid, k, n - 1);
    }
}

proof fn lemma_hops_node(a: Arch, errs: Seq<ErrView>, cid: Seq<char>, st: SimState, depth: int)
    ensures
        sim_node(a, errs, cid, st, depth).hops - st.hops <= edges_leaving(
            a,
            sim_node(a, errs, cid, st, depth).visited,
            a.edges@.len() as int,
        ) - edges_leaving(a, st.visited, a.edges@.len() as int),
    decreases MAX_DEPTH - depth, 1int, 0int,
{
    if !st.ok || depth >= MAX_DEPTH || depth < 0 || st.visited.contains(cid) {
    } else {
        let st1 = SimState {
            steps: st.steps.push(step_view("process"@, cid, None)),
            visited: st.visited.push(cid),
            ..st
        };
        lemma_edges_leaving_push(a, st.visited, cid, a.edges@.len() as int);
        lemma_hops_edges(a, errs, cid, 0, st1, depth);
    }
}

proof fn lemma_hops_edges(a: Arch, errs: Seq<ErrView>, cid: Seq<char>, k: int, st: SimState, depth: int)
    requires
        0 <= k <= a.edges@.len(),
    ensures
        sim_edges(a, errs, cid, k, st, depth).hops - st.hops <= (edges_leaving_one(a, cid, a.edges@.len() as int)
            - edges_leaving_one(a, cid, k)) + edges_leaving(
            a,
            sim_edges(a, errs, cid, k, st, depth).visited,
            a.edges@.len() as int,
        ) - edges_leaving(a, st.visited, a.edges@.len() as int),
    decreases MAX_DEPTH - depth, 0int, a.edges@.len() - k,
{
    let n = a.edges@.len() as int;
    if k >= n || depth >= MAX_DEPTH || depth < 0 {
        lemma_edges_leaving_one_mono(a, cid, k, n);
    } else {
        let e = a.edges@[k];
        lemma_edges_leaving_one_mono(a, cid, k + 1, n);
        if head_segment(e.from@) != cid {
            lemma_hops_edges(a, errs, cid, k + 1, st, depth);
        } else {
            let ei = err_index_from(errs, e.id@, 0);
            if ei >= 0 {
            } else {
                let st1 = SimState {
                    steps: st.steps.push(step_view("hop"@, e.id@, None)),
                    hops: st.hops + 1,
                    ..st
                };
                let tc = head_segment(e.to@);
                if !st1.visited.contains(tc) && comp_index(a, tc) >= 0 {
                    let st2 = sim_node(a, errs, tc, st1, depth + 1);
                    lemma_hops_node(a, errs, tc, st1, depth + 1);
                    if st2.ok {
                        lemma_hops_edges(a, errs, cid, k + 1, st2, depth);
                    } else {
                        lemma_edges_leaving_one_mono(a, cid, k + 1, n);
                    }
                } else {
                    lemma_hops_edges(a, errs, cid, k + 1, st1, depth);
                }
            }
        }
    }
}

/// A trajectory hops over every edge at most once: it makes at most as many
/// hops as there are edges.
pub proof fn law_hops_bounded(a: Arch)
    ensures
        spec_simulate(a).hops <= a.edges@.len(),
{
    let errs = spec_errors(a);
    match spec_pick_entry(a) {
        None => {},
        Some(entry) => {
            let ec = head_segment(entry);
            let st0 = SimState {
                steps: seq![step_view("enter"@, entry, None)],
                hops: 0,
                ok: true,
                visited: seq![],
            };
            let st = sim_node(a, errs, ec, st0, 0);
            lemma_hops_node(a, errs, ec, st0, 0);
            lemma_edges_leaving_bound(a, st.visited, a.edges@.len() as int);
            lemma_edges_leaving_bound(a, st0.visited, a.edges@.len() as int);
        },
    }
}

/// The components processed by a list of steps, in order.
pub open spec fn processed(steps: Seq<StepView>) -> Seq<Seq<char>>
    decreases steps.len(),
{
    if steps.len() == 0 {
        seq![]
    } else {
        let p = processed(steps.drop_last());
        if steps.last().step == "process"@ {
            p.push(steps.last().element)
        } else {
            p
        }
    }
}

/// The processed components of the state are exactly those of its steps, each once.
pub open spec fn visits_once(st: SimState) -> bool {
    processed(st.steps) == st.visited && st.visited.no_duplicates()
}

proof fn lemma_processed_push(steps: Seq<StepView>, x: StepView)
    ensures
        processed(steps.push(x)) == if x.step == "process"@ {
            processed(steps).push(x.element)
        } else {
            processed(steps)
        },
{
    assert(steps.push(x).drop_last() =~= steps);
}

proof fn lemma_once_node(a: Arch, errs: Seq<ErrView>, cid: Seq<char>, st: SimState, depth: int)
    requires
        visits_once(st),
    ensures
        visits_once(sim_node(a, errs, cid, st, depth)),
    decreases MAX_DEPTH - depth, 1int, 0int,
{
    if !st.ok || depth >= MAX_DEPTH || depth < 0 || st.visited.contains(cid) {
    } else {
        let x = step_view("process"@, cid, None);
        let st1 = SimState { steps: st.steps.push(x), visited: st.visited.push(cid), ..st };
        lemma_processed_push(st.steps, x);
        assert(st1.visited.no_duplicates()) by {
            assert forall|i: int, j: int|
                0 <= i < st1.visited.len() && 0 <= j < st1.visited.len() && i != j implies st1.visited[i]
                != st1.visited[j] by {
                if i < st.visited.len() && j < st.visited.len() {
                } else if i == st.visited.len() {
                    assert(st.visited[j] == st1.visited[j]);
                } else {
                    assert(st.visited[i] == st1.visited[i]);
                }
            }
        }
        lemma_once_edges(a, errs, cid, 0, st1, depth);
    }
}

proof fn lemma_once_edges(a: Arch, errs: Seq<ErrView>, cid: Seq<char>, k: int, st: SimState, depth: int)
    requires
        visits_once(st),
    ensures
        visits_once(sim_edges(a, errs, cid, k, st, depth)),
    decreases MAX_DEPTH - depth, 0int, a.edges@.len() - k,
{
    reveal_strlit("process");
    reveal_strlit("hop");
    reveal_strlit("stall");
    assert("hop"@[0] != "process"@[0]);
    assert("stall"@[0] != "process"@[0]);
    if k < 0 || k >= a.edges@.len() || depth >= MAX_DEPTH || depth < 0 {
    } else {
        let e = a.edges@[k];
        if head_segment(e.from@) != cid {
            lemma_once_edges(a, errs, cid, k + 1, st, depth);
        } else {
            let ei = err_index_from(errs, e.id@, 0);
            if ei >= 0 {
                lemma_processed_push(st.steps, step_view("stall"@, e.id@, Some(errs[ei].message)));
            } else {
                let x = step_view("hop"@, e.id@, None);
                let st1 = SimState { steps: st.steps.push(x), hops: st.hops + 1, ..st };
                lemma_processed_push(st.steps, x);
                let tc = head_segment(e.to@);
                if !st1.visited.contains(tc) && comp_index(a, tc) >= 0 {
                    let st2 = sim_node(a, errs, tc, st1, depth + 1);
                    lemma_once_node(a, errs, tc, st1, depth + 1);
                    if st2.ok {
                        lemma_once_edges(a, errs, cid, k + 1, st2, depth);
                    }
                } else {
                    lemma_once_edges(a, errs, cid, k + 1, st1, depth);
                }
            }
        }
    }
}

/// Each component is processed at most once in a trajectory.
pub proof fn law_each_component_processed_once(a: Arch)
    ensures
        processed(spec_simulate(a).steps).no_duplicates(),
{
    reveal_strlit("process");
    reveal_strlit("enter");
    reveal_strlit("done");
    reveal_strlit("stall");
    assert("enter"@[0] != "process"@[0]);
    assert("done"@[0] != "process"@[0]);
    assert("stall"@[0] != "process"@[0]);
    let errs = spec_errors(a);
    match spec_pick_entry(a) {
        None => {
            let x = step_view("stall"@, "-"@, Some("找不到入口（需要 gateway 或 app 组件）"@));
            lemma_processed_push(seq![], x);
            assert(seq![x] =~= Seq::<StepView>::empty().push(x));
        },
        Some(entry) => {
            let ec = head_segment(entry);
            let x0 = step_view("enter"@, entry, None);
            let st0 = SimState { steps: seq![x0], hops: 0, ok: true, visited: seq![] };
            lemma_processed_push(seq![], x0);
            assert(seq![x0] =~= Seq::<StepView>::empty().push(x0));
            assert(visits_once(st0));
            let st = sim_node(a, errs, ec, st0, 0);
            lemma_once_node(a, errs, ec, st0, 0);
            if st.ok {
                lemma_processed_push(st.steps, step_view("done"@, ec, Some(done_message(st.hops))));
            }
        },
    }
}

/// The number of `hop` steps among `steps`.
pub open spec fn hop_count(steps: Seq<StepView>) -> nat
    decreases steps.len(),
{
    if steps.len() == 0 {
        0
    } else {
        hop_count(steps.drop_last()) + if steps.last().step == "hop"@ {
            1nat
        } else {
            0nat
        }
    }
}

/// `errs[j]` is the first violation that names `id`.
pub open spec fn first_error(errs: Seq<ErrView>, id: Seq<char>, j: int) -> bool {
    &&& 0 <= j < errs.len()
    &&& errs[j].element == id
    &&& forall|i: int| 0 <= i < j ==> (#[trigger] errs[i]).element != id
}

/// Some edge with id `id` leaves a component of `visited`.
pub open spec fn leaves_visited(a: Arch, id: Seq<char>, visited: Seq<Seq<char>>) -> bool {
    exists|k: int| 0 <= k < a.edges@.len() && (#[trigger] a.edges@[k]).id@ == id && visited.contains(head_segment(a.edges@[k].from@))
}

/// What a step stands for: a `hop` crosses an edge that leaves a component of
/// `visited` and that no violation names; a `stall` stops at such an edge
/// that a violation names, with the message of the first such violation; a
/// `process` step names `root` or a component whose id holds no `.`.
pub open spec fn step_justified(a: Arch, errs: Seq<ErrView>, x: StepView, visited: Seq<Seq<char>>, root: Seq<char>) -> bool {
    &&& x.step == "hop"@ ==> leaves_visited(a, x.element, visited) && forall|j: int|
        0 <= j < errs.len() ==> (#[trigger] errs[j]).element != x.element
    &&& x.step == "stall"@ ==> leaves_visited(a, x.element, visited) && exists|j: int|
        #[trigger] first_error(errs, x.element, j) && x.message == Some(errs[j].message)
    &&& x.step == "process"@ ==> x.element == root || (comp_index(a, x.element) >= 0 && first_dot(x.element) < 0)
}

/// Every step of `steps` from position `from` on is justified.
pub open spec fn steps_justified(
    a: Arch,
    errs: Seq<ErrView>,
    steps: Seq<StepView>,
    from: int,
    visited: Seq<Seq<char>>,
    root: Seq<char>,
) -> bool {
    forall|i: int| from <= i < steps.len() ==> step_justified(a, errs, #[trigger] steps[i], visited, root)
}

proof fn lemma_hop_count_push(steps: Seq<StepView>, x: StepView)
    ensures
        hop_count(steps.push(x)) == hop_count(steps) + if x.step == "hop"@ {
            1nat
        } else {
            0nat
        },
{
    assert(steps.push(x).drop_last() =~= steps);
}

proof fn lemma_err_index_spec(errs: Seq<ErrView>, id: Seq<char>, k: int)
    requires
        0 <= k,
    ensures
        err_index_from(errs, id, k) == -1 ==> forall|j: int| k <= j < errs.len() ==> (#[trigger] errs[j]).element != id,
        err_index_from(errs, id, k) >= 0 ==> k <= err_index_from(errs, id, k) < errs.len() && errs[err_index_from(
            errs,
            id,
            k,
        )].element == id && forall|j: int| k <= j < err_index_from(errs, id, k) ==> (#[trigger] errs[j]).element != id,
    decreases errs.len() - k,
{
    if k < errs.len() && errs[k].element != id {
        lemma_err_index_spec(errs, id, k + 1);
    }
}

proof fn lemma_contains_prefix(s1: Seq<Seq<char>>, s2: Seq<Seq<char>>, x: Seq<char>)
    requires
        s1.is_prefix_of(s2),
        s1.contains(x),
    ensures
        s2.contains(x),
{
    let i = choose|i: int| 0 <= i < s1.len() && s1[i] == x;
    assert(s2.subrange(0, s1.len() as int)[i] == s2[i]);
}

proof fn lemma_justified_widen(
    a: Arch,
    errs: Seq<ErrView>,
    steps: Seq<StepView>,
    from: int,
    v1: Seq<Seq<char>>,
    v2: Seq<Seq<char>>,
    r1: Seq<char>,
    r2: Seq<char>,
)
    requires
        steps_justified(a, errs, steps, from, v1, r1),
        v1.is_prefix_of(v2),
        r1 == r2 || (comp_index(a, r1) >= 0 && first_dot(r1) < 0),
    ensures
        steps_justified(a, errs, steps, from, v2, r2),
{
    assert forall|i: int| from <= i < steps.len() implies step_justified(a, errs, #[trigger] steps[i], v2, r2) by {
        let x = steps[i];
        assert(step_justified(a, errs, x, v1, r1));
        if leaves_visited(a, x.element, v1) {
            let k = choose|k: int|
                0 <= k < a.edges@.len() && (#[trigger] a.edges@[k]).id@ == x.element && v1.contains(
                    head_segment(a.edges@[k].from@),
                );
            lemma_contains_prefix(v1, v2, head_segment(a.edges@[k].from@));
        }
    }
}

proof fn lemma_justified_extend(
    a: Arch,
    errs: Seq<ErrView>,
    s1: Seq<StepView>,
    s2: Seq<StepView>,
    from: int,
    mid: int,
    visited: Seq<Seq<char>>,
    root: Seq<char>,
)
    requires
        0 <= from <= mid,
        mid <= s1.len(),
        s1.is_prefix_of(s2),
        steps_justified(a, errs, s1, from, visited, root),
        steps_justified(a, errs, s2, mid, visited, root),
    ensures
        steps_justified(a, errs, s2, from, visited, root),
{
    assert forall|i: int| from <= i < s2.len() implies step_justified(a, errs, #[trigger] s2[i], visited, root) by {
        if i < mid {
            assert(s2.subrange(0, s1.len() as int)[i] == s2[i]);
            assert(s1[i] == s2[i]);
        }
    }
}

/// What one search step from component `cid` keeps, for every state.
pub open spec fn step_law(a: Arch, errs: Seq<ErrView>, cid: Seq<char>, st: SimState, r: SimState) -> bool {
    &&& st.steps.is_prefix_of(r.steps)
    &&& st.visited.is_prefix_of(r.visited)
    &&& r.hops + hop_count(st.steps) == st.hops + hop_count(r.steps)
    &&& r.ok ==> st.ok
    &&& (st.ok && !r.ok) ==> st.steps.len() < r.steps.len()
    &&& steps_justified(a, errs, r.steps, st.steps.len() as int, r.visited, cid)
}

proof fn lemma_step_node(a: Arch, errs: Seq<ErrView>, cid: Seq<char>, st: SimState, depth: int)
    ensures
        (!st.ok || depth >= MAX_DEPTH || depth < 0 || st.visited.contains(cid)) ==> sim_node(a, errs, cid, st, depth)
            == st,
        step_law(a, errs, cid, st, sim_node(a, errs, cid, st, depth)),
    decreases MAX_DEPTH - depth, 1int, 0int,
{
    reveal_strlit("process");
    reveal_strlit("hop");
    reveal_strlit("stall");
    assert("hop"@[0] != "process"@[0]);
    assert("stall"@[0] != "process"@[0]);
    if !st.ok || depth >= MAX_DEPTH || depth < 0 || st.visited.contains(cid) {
        assert(st.steps =~= st.steps.subrange(0, st.steps.len() as int));
        assert(st.visited =~= st.visited.subrange(0, st.visited.len() as int));
    } else {
        let x = step_view("process"@, cid, None);
        let st1 = SimState { steps: st.steps.push(x), visited: st.visited.push(cid), ..st };
        lemma_hop_count_push(st.steps, x);
        assert(st1.visited.contains(cid)) by {
            assert(st1.visited[st.visited.len() as int] == cid);
        }
        lemma_step_edges(a, errs, cid, 0, st1, depth);
        let r = sim_edges(a, errs, cid, 0, st1, depth);
        assert(st.steps =~= r.steps.subrange(0, st.steps.len() as int)) by {
            assert(st.steps =~= st1.steps.subrange(0, st.steps.len() as int));
            assert forall|i: int| 0 <= i < st.steps.len() implies r.steps[i] == st.steps[i] by {
                assert(r.steps.subrange(0, st1.steps.len() as int)[i] == r.steps[i]);
                assert(st1.steps[i] == st.steps[i]);
            }
        }
        assert(st.visited =~= r.visited.subrange(0, st.visited.len() as int)) by {
            assert forall|i: int| 0 <= i < st.visited.len() implies r.visited[i] == st.visited[i] by {
                assert(r.visited.subrange(0, st1.visited.len() as int)[i] == r.visited[i]);
                assert(st1.visited[i] == st.visited[i]);
            }
        }
        assert(r.steps[st.steps.len() as int] == x) by {
            assert(r.steps.subrange(0, st1.steps.len() as int)[st.steps.len() as int] == r.steps[st.steps.len() as int]);
        }
        assert forall|i: int| st.steps.len() <= i < r.steps.len() implies step_justified(
            a,
            errs,
            #[trigger] r.steps[i],
            r.visited,
            cid,
        ) by {
            if i > st.steps.len() {
                assert(step_justified(a, errs, r.steps[i], r.visited, cid));
            }
        }
    }
}

proof fn lemma_step_edges(a: Arch, errs: Seq<ErrView>, cid: Seq<char>, k: int, st: SimState, depth: int)
    requires
        st.ok,
        st.visited.contains(cid),
    ensures
        step_law(a, errs, cid, st, sim_edges(a, errs, cid, k, st, depth)),
    decreases MAX_DEPTH - depth, 0int, a.edges@.len() - k,
{
    reveal_strlit("process");
    reveal_strlit("hop");
    reveal_strlit("stall");
    assert("hop"@[0] != "process"@[0]);
    assert("stall"@[0] != "process"@[0]);
    assert("stall"@[0] != "hop"@[0]);
    assert(st.steps =~= st.steps.subrange(0, st.steps.len() as int));
    assert(st.visited =~= st.visited.subrange(0, st.visited.len() as int));
    if k < 0 || k >= a.edges@.len() || depth >= MAX_DEPTH || depth < 0 {
    } else {
        let e = a.edges@[k];
        if head_segment(e.from@) != cid {
            lemma_step_edges(a, errs, cid, k + 1, st, depth);
        } else {
            let ei = err_index_from(errs, e.id@, 0);
            lemma_err_index_spec(errs, e.id@, 0);
            lemma_err_index_from(errs, e.id@, 0);
            assert(leaves_visited(a, e.id@, st.visited));
            if ei >= 0 {
                let x = step_view("stall"@, e.id@, Some(errs[ei].message));
                let r = sim_edges(a, errs, cid, k, st, depth);
                assert(r.steps == st.steps.push(x));
                lemma_hop_count_push(st.steps, x);
                assert(r.steps.subrange(0, st.steps.len() as int) =~= st.steps);
                assert(first_error(errs, e.id@, ei));
                assert(r.visited == st.visited);
                assert(x.step == "stall"@ && x.element == e.id@);
                assert(leaves_visited(a, x.element, r.visited));
                assert(exists|j: int| #[trigger] first_error(errs, x.element, j) && x.message == Some(errs[j].message));
                assert(step_justified(a, errs, x, r.visited, cid));
                assert(r.steps[st.steps.len() as int] == x);
            } else {
                let x = step_view("hop"@, e.id@, None);
                let st1 = SimState { steps: st.steps.push(x), hops: st.hops + 1, ..st };
                lemma_hop_count_push(st.steps, x);
                assert(st1.steps.subrange(0, st.steps.len() as int) =~= st.steps);
                assert(st1.steps[st.steps.len() as int] == x);
                assert(x.step == "hop"@ && x.element == e.id@);
                assert(leaves_visited(a, x.element, st1.visited));
                assert(forall|j: int| 0 <= j < errs.len() ==> (#[trigger] errs[j]).element != x.element);
                assert(step_justified(a, errs, x, st1.visited, cid));
                assert(steps_justified(a, errs, st1.steps, st.steps.len() as int, st1.visited, cid));
                assert(step_law(a, errs, cid, st, st1));
                let tc = head_segment(e.to@);
                if !st1.visited.contains(tc) && comp_index(a, tc) >= 0 {
                    let st2 = sim_node(a, errs, tc, st1, depth + 1);
                    lemma_head_no_dot(e.to@);
                    lemma_step_node(a, errs, tc, st1, depth + 1);
                    lemma_step_compose(a, errs, cid, st, st1, st2, tc);
                    if st2.ok {
                        lemma_contains_prefix(st.visited, st2.visited, cid);
                        lemma_step_edges(a, errs, cid, k + 1, st2, depth);
                        lemma_step_compose(a, errs, cid, st, st2, sim_edges(a, errs, cid, k + 1, st2, depth), cid);
                    }
                } else {
                    lemma_step_edges(a, errs, cid, k + 1, st1, depth);
                    lemma_step_compose(a, errs, cid, st, st1, sim_edges(a, errs, cid, k + 1, st1, depth), cid);
                }
            }
        }
    }
}

proof fn lemma_step_compose(
    a: Arch,
    errs: Seq<ErrView>,
    cid: Seq<char>,
    s1: SimState,
    s2: SimState,
    s3: SimState,
    root2: Seq<char>,
)
    requires
        step_law(a, errs, cid, s1, s2),
        step_law(a, errs, root2, s2, s3),
        root2 == cid || (comp_index(a, root2) >= 0 && first_dot(root2) < 0),
    ensures
        step_law(a, errs, cid, s1, s3),
{
    assert(s1.steps =~= s3.steps.subrange(0, s1.steps.len() as int)) by {
        assert forall|i: int| 0 <= i < s1.steps.len() implies s3.steps[i] == s1.steps[i] by {
            assert(s3.steps.subrange(0, s2.steps.len() as int)[i] == s3.steps[i]);
            assert(s2.steps.subrange(0, s1.steps.len() as int)[i] == s2.steps[i]);
        }
    }
    assert(s1.visited =~= s3.visited.subrange(0, s1.visited.len() as int)) by {
        assert forall|i: int| 0 <= i < s1.visited.len() implies s3.visited[i] == s1.visited[i] by {
            assert(s3.visited.subrange(0, s2.visited.len() as int)[i] == s3.visited[i]);
            assert(s2.visited.subrange(0, s1.visited.len() as int)[i] == s2.visited[i]);
        }
    }
    lemma_justified_widen(a, errs, s2.steps, s1.steps.len() as int, s2.visited, s3.visited, cid, cid);
    lemma_justified_widen(a, errs, s3.steps, s2.steps.len() as int, s3.visited, s3.visited, root2, cid);
    lemma_justified_extend(a, errs, s2.steps, s3.steps, s1.steps.len() as int, s2.steps.len() as int, s3.visited, cid);
}

/// The search step from a component: it does nothing once the trajectory has
/// stalled, at the depth limit, or at a component already processed; in every
/// case it only appends steps and processed components, its hop counter grows
/// by the number of `hop` steps it appends, it never turns a stalled
/// trajectory clean, a stall it causes is the last step and the only stall
/// it appends, and every step it appends stands for what it says.
pub proof fn law_search_step(a: Arch, errs: Seq<ErrView>, cid: Seq<char>, st: SimState, depth: int)
    ensures
        ({
            let r = sim_node(a, errs, cid, st, depth);
            &&& (!st.ok || depth >= MAX_DEPTH || st.visited.contains(cid)) ==> r == st
            &&& step_law(a, errs, cid, st, r)
            &&& (st.ok && !r.ok) ==> r.steps.len() > st.steps.len() && r.steps.last().step == "stall"@ && forall|i: int|
                st.steps.len() <= i < r.steps.len() - 1 ==> (#[trigger] r.steps[i]).step != "stall"@
        }),
{
    lemma_step_node(a, errs, cid, st, depth);
    lemma_sim_node(a, errs, cid, st, depth);
    reveal_strlit("stall");
    reveal_strlit("process");
    reveal_strlit("hop");
    assert("process"@[0] != "stall"@[0]);
    assert("hop"@[0] != "stall"@[0]);
    let r = sim_node(a, errs, cid, st, depth);
    if st.ok && !r.ok {
        assert forall|i: int| st.steps.len() <= i < r.steps.len() - 1 implies (#[trigger] r.steps[i]).step != "stall"@ by {
            assert(is_move(r.steps[i]));
        }
        if r.steps.len() == st.steps.len() {
            assert(r.steps =~= st.steps) by {
                assert forall|i: int| 0 <= i < st.steps.len() implies r.steps[i] == st.steps[i] by {
                    assert(r.steps.subrange(0, st.steps.len() as int)[i] == r.steps[i]);
                }
            }
        }
    }
}

/// The trajectory as a whole: its hop counter is the number of its `hop`
/// steps; with an entry, its second step processes the entry's component, and
/// every later step stands for what it says, against the components that the
/// trajectory processed.
pub proof fn law_simulation_steps(a: Arch)
    ensures
        ({
            let r = spec_simulate(a);
            let errs = spec_errors(a);
            &&& r.hops == hop_count(r.steps)
            &&& spec_pick_entry(a) matches Some(en) ==> {
                &&& r.steps.len() >= 2
                &&& r.steps[1] == step_view("process"@, head_segment(en), None)
                &&& steps_justified(a, errs, r.steps, 1, processed(r.steps), head_segment(en))
            }
        }),
{
    reveal_strlit("stall");
    reveal_strlit("done");
    reveal_strlit("process");
    reveal_strlit("hop");
    reveal_strlit("enter");
    assert("done"@[0] != "hop"@[0]);
    assert("done"@[0] != "process"@[0]);
    assert("done"@[0] != "stall"@[0]);
    assert("enter"@[0] != "hop"@[0]);
    assert("stall"@[0] != "hop"@[0]);
    assert("enter"@[0] != "process"@[0]);
    let errs = spec_errors(a);
    let r = spec_simulate(a);
    match spec_pick_entry(a) {
        None => {
            let x = step_view("stall"@, "-"@, Some("找不到入口（需要 gateway 或 app 组件）"@));
            lemma_hop_count_push(seq![], x);
            assert(seq![x] =~= Seq::<StepView>::empty().push(x));
        },
        Some(entry) => {
            let ec = head_segment(entry);
            let x0 = step_view("enter"@, entry, None);
            let st0 = SimState { steps: seq![x0], hops: 0, ok: true, visited: seq![] };
            lemma_hop_count_push(seq![], x0);
            lemma_processed_push(seq![], x0);
            assert(seq![x0] =~= Seq::<StepView>::empty().push(x0));
            let st = sim_node(a, errs, ec, st0, 0);
            lemma_step_node(a, errs, ec, st0, 0);
            lemma_once_node(a, errs, ec, st0, 0);
            let x1 = step_view("process"@, ec, None);
            let st1 = SimState { steps: st0.steps.push(x1), visited: st0.visited.push(ec), ..st0 };
            assert(st1.visited[0] == ec);
            lemma_step_edges(a, errs, ec, 0, st1, 0);
            assert(st.steps.subrange(0, 2)[1] == st.steps[1]);
            assert(st1.steps[1] == x1);
            if st.ok {
                let xd = step_view("done"@, ec, Some(done_message(st.hops)));
                lemma_hop_count_push(st.steps, xd);
                lemma_processed_push(st.steps, xd);
                assert(r.steps == st.steps.push(xd));
                assert forall|i: int| 1 <= i < r.steps.len() implies step_justified(
                    a,
                    errs,
                    #[trigger] r.steps[i],
                    processed(r.steps),
                    ec,
                ) by {
                    if i < st.steps.len() {
                        assert(r.steps[i] == st.steps[i]);
                    }
                }
            }
        },
    }
}

/// The elements of the `hop` steps among `steps`, in order.
pub open spec fn hopped(steps: Seq<StepView>) -> Seq<Seq<char>>
    decreases steps.len(),
{
    if steps.len() == 0 {
        seq![]
    } else {
        let p = hopped(steps.drop_last());
        if steps.last().step == "hop"@ {
            p.push(steps.last().element)
        } else {
            p
        }
    }
}

proof fn lemma_hopped_push(steps: Seq<StepView>, x: StepView)
    ensures
        hopped(steps.push(x)) == if x.step == "hop"@ {
            hopped(steps).push(x.element)
        } else {
            hopped(steps)
        },
{
    assert(steps.push(x).drop_last() =~= steps);
}

/// No violation among `errs` names `id`.
pub open spec fn unerred(errs: Seq<ErrView>, id: Seq<char>) -> bool {
    forall|j: int| 0 <= j < errs.len() ==> (#[trigger] errs[j]).element != id
}

/// Every id that two edges share is named by some violation among `errs`.
pub open spec fn shared_ids_flagged(a: Arch, errs: Seq<ErrView>) -> bool {
    forall|m1: int, m2: int|
        0 <= m1 < a.edges@.len() && 0 <= m2 < a.edges@.len() && m1 != m2 && (#[trigger] a.edges@[m1]).id@
            == (#[trigger] a.edges@[m2]).id@ ==> !unerred(errs, a.edges@[m1].id@)
}

/// Every hop so far crossed an edge leaving a processed component, that no
/// violation names, and no edge id was hopped twice.
spec fn hops_ok(a: Arch, errs: Seq<ErrView>, st: SimState) -> bool {
    &&& hopped(st.steps).no_duplicates()
    &&& forall|i: int| 0 <= i < hopped(st.steps).len() ==> leaves_visited(a, #[trigger] hopped(st.steps)[i], st.visited)
    &&& forall|i: int| 0 <= i < hopped(st.steps).len() ==> unerred(errs, #[trigger] hopped(st.steps)[i])
}

/// No hop so far crossed an edge of `cid` at or after the `k`-th.
spec fn fresh_from(a: Arch, st: SimState, cid: Seq<char>, k: int) -> bool {
    forall|i: int, m: int|
        0 <= i < hopped(st.steps).len() && k <= m < a.edges@.len() && (#[trigger] a.edges@[m]).id@
            == #[trigger] hopped(st.steps)[i] ==> head_segment(a.edges@[m].from@) != cid
}

/// The hops that `r` adds to `st` cross edges that leave components outside
/// `st.visited`, or leave `cid` at or after the `k`-th edge.
spec fn added_hops(a: Arch, st: SimState, r: SimState, cid: Seq<char>, k: int) -> bool {
    &&& hopped(st.steps).is_prefix_of(hopped(r.steps))
    &&& forall|i: int, m: int|
        hopped(st.steps).len() <= i < hopped(r.steps).len() && 0 <= m < a.edges@.len() && (#[trigger] a.edges@[m]).id@
            == #[trigger] hopped(r.steps)[i] ==> !st.visited.contains(head_segment(a.edges@[m].from@)) || (
        head_segment(a.edges@[m].from@) == cid && m >= k)
}

proof fn lemma_hopped_node(a: Arch, errs: Seq<ErrView>, cid: Seq<char>, st: SimState, depth: int)
    requires
        hops_ok(a, errs, st),
        shared_ids_flagged(a, errs),
    ensures
        hops_ok(a, errs, sim_node(a, errs, cid, st, depth)),
        added_hops(a, st, sim_node(a, errs, cid, st, depth), cid, 0),
        forall|i: int, m: int|
            hopped(st.steps).len() <= i < hopped(sim_node(a, errs, cid, st, depth).steps).len() && 0 <= m
                < a.edges@.len() && (#[trigger] a.edges@[m]).id@ == #[trigger] hopped(
                sim_node(a, errs, cid, st, depth).steps,
            )[i] ==> !st.visited.contains(head_segment(a.edges@[m].from@)),
    decreases MAX_DEPTH - depth, 1int, 0int,
{
    reveal_strlit("process");
    reveal_strlit("hop");
    assert("hop"@[0] != "process"@[0]);
    let r = sim_node(a, errs, cid, st, depth);
    if !st.ok || depth >= MAX_DEPTH || depth < 0 || st.visited.contains(cid) {
        assert(hopped(st.steps) =~= hopped(st.steps).subrange(0, hopped(st.steps).len() as int));
    } else {
        let x = step_view("process"@, cid, None);
        let st1 = SimState { steps: st.steps.push(x), visited: st.visited.push(cid), ..st };
        lemma_hopped_push(st.steps, x);
        assert(st.visited.is_prefix_of(st1.visited)) by {
            assert(st.visited =~= st1.visited.subrange(0, st.visited.len() as int));
        }
        assert(st1.visited.contains(cid)) by {
            assert(st1.visited[st.visited.len() as int] == cid);
        }
        assert(hops_ok(a, errs, st1)) by {
            assert forall|i: int| 0 <= i < hopped(st1.steps).len() implies leaves_visited(
                a,
                #[trigger] hopped(st1.steps)[i],
                st1.visited,
            ) by {
                let h = hopped(st1.steps)[i];
                assert(leaves_visited(a, h, st.visited));
                let m = choose|m: int|
                    0 <= m < a.edges@.len() && (#[trigger] a.edges@[m]).id@ == h && st.visited.contains(
                        head_segment(a.edges@[m].from@),
                    );
                lemma_contains_prefix(st.visited, st1.visited, head_segment(a.edges@[m].from@));
            }
            assert forall|i: int| 0 <= i < hopped(st1.steps).len() implies unerred(
                errs,
                #[trigger] hopped(st1.steps)[i],
            ) by {
                assert(unerred(errs, hopped(st.steps)[i]));
            }
        }
        assert(fresh_from(a, st1, cid, 0)) by {
            assert forall|i: int, m: int|
                0 <= i < hopped(st1.steps).len() && 0 <= m < a.edges@.len() && (#[trigger] a.edges@[m]).id@
                    == #[trigger] hopped(st1.steps)[i] implies head_segment(a.edges@[m].from@) != cid by {
                let h = hopped(st1.steps)[i];
                assert(leaves_visited(a, h, st.visited));
                let m2 = choose|m2: int|
                    0 <= m2 < a.edges@.len() && (#[trigger] a.edges@[m2]).id@ == h && st.visited.contains(
                        head_segment(a.edges@[m2].from@),
                    );
                assert(unerred(errs, h));
                if m2 != m {
                    assert(!unerred(errs, a.edges@[m2].id@));
                }
            }
        }
        lemma_hopped_edges(a, errs, cid, 0, st1, depth);
        assert(hopped(st.steps).is_prefix_of(hopped(r.steps)));
    }
}

proof fn lemma_hopped_edges(a: Arch, errs: Seq<ErrView>, cid: Seq<char>, k: int, st: SimState, depth: int)
    requires
        hops_ok(a, errs, st),
        shared_ids_flagged(a, errs),
        st.ok,
        st.visited.contains(cid),
        0 <= k,
        fresh_from(a, st, cid, k),
    ensures
        hops_ok(a, errs, sim_edges(a, errs, cid, k, st, depth)),
        added_hops(a, st, sim_edges(a, errs, cid, k, st, depth), cid, k),
    decreases MAX_DEPTH - depth, 0int, a.edges@.len() - k,
{
    reveal_strlit("hop");
    reveal_strlit("stall");
    assert("hop"@[0] != "stall"@[0]);
    assert(hopped(st.steps) =~= hopped(st.steps).subrange(0, hopped(st.steps).len() as int));
    if k >= a.edges@.len() || depth >= MAX_DEPTH || depth < 0 {
    } else {
        let e = a.edges@[k];
        if head_segment(e.from@) != cid {
            lemma_hopped_edges(a, errs, cid, k + 1, st, depth);
        } else {
            let ei = err_index_from(errs, e.id@, 0);
            if ei >= 0 {
                lemma_hopped_push(st.steps, step_view("stall"@, e.id@, Some(errs[ei].message)));
            } else {
                let x = step_view("hop"@, e.id@, None);
                let st1 = SimState { steps: st.steps.push(x), hops: st.hops + 1, ..st };
                lemma_err_index_spec(errs, e.id@, 0);
                lemma_err_index_from(errs, e.id@, 0);
                assert(unerred(errs, e.id@));
                let h0 = hopped(st.steps);
                let h1 = hopped(st1.steps);
                lemma_hopped_push(st.steps, x);
                assert(h1 == h0.push(e.id@));
                assert(h0.is_prefix_of(h1)) by {
                    assert(h0 =~= h1.subrange(0, h0.len() as int));
                }
                assert(!h0.contains(e.id@)) by {
                    if h0.contains(e.id@) {
                        let i = choose|i: int| 0 <= i < h0.len() && h0[i] == e.id@;
                        assert(a.edges@[k].id@ == h0[i]);
                    }
                }
                assert(hops_ok(a, errs, st1)) by {
                    assert forall|i: int, j: int| 0 <= i < h1.len() && 0 <= j < h1.len() && i != j implies h1[i]
                        != h1[j] by {
                        if i < h0.len() && j < h0.len() {
                            assert(h1[i] == h0[i] && h1[j] == h0[j]);
                        } else if i < h0.len() {
                            assert(h1[i] == h0[i]);
                        } else if j < h0.len() {
                            assert(h1[j] == h0[j]);
                        }
                    }
                    assert forall|i: int| 0 <= i < h1.len() implies leaves_visited(a, #[trigger] h1[i], st1.visited) by {
                        if i < h0.len() {
                            assert(h1[i] == h0[i]);
                        } else {
                            assert(a.edges@[k].id@ == h1[i]);
                        }
                    }
                    assert forall|i: int| 0 <= i < h1.len() implies unerred(errs, #[trigger] h1[i]) by {
                        if i < h0.len() {
                            assert(h1[i] == h0[i]);
                        }
                    }
                }
                assert(fresh_from(a, st1, cid, k + 1)) by {
                    assert forall|i: int, m: int|
                        0 <= i < h1.len() && k + 1 <= m < a.edges@.len() && (#[trigger] a.edges@[m]).id@
                            == #[trigger] h1[i] implies head_segment(a.edges@[m].from@) != cid by {
                        if i < h0.len() {
                            assert(h1[i] == h0[i]);
                        } else {
                            assert(a.edges@[m].id@ == a.edges@[k].id@);
                            assert(!unerred(errs, a.edges@[m].id@));
                        }
                    }
                }
                let tc = head_segment(e.to@);
                if !st1.visited.contains(tc) && comp_index(a, tc) >= 0 {
                    let st2 = sim_node(a, errs, tc, st1, depth + 1);
                    let h2 = hopped(st2.steps);
                    lemma_hopped_node(a, errs, tc, st1, depth + 1);
                    lemma_step_node(a, errs, tc, st1, depth + 1);
                    if st2.ok {
                        lemma_contains_prefix(st1.visited, st2.visited, cid);
                        assert(fresh_from(a, st2, cid, k + 1)) by {
                            assert forall|i: int, m: int|
                                0 <= i < h2.len() && k + 1 <= m < a.edges@.len() && (#[trigger] a.edges@[m]).id@
                                    == #[trigger] h2[i] implies head_segment(a.edges@[m].from@) != cid by {
                                if i < h1.len() {
                                    assert(h2.subrange(0, h1.len() as int)[i] == h2[i]);
                                    assert(h1[i] == h2[i]);
                                }
                            }
                        }
                        let r = sim_edges(a, errs, cid, k + 1, st2, depth);
                        lemma_hopped_edges(a, errs, cid, k + 1, st2, depth);
                        lemma_hopped_compose(a, errs, st, st1, st2, r, cid, k);
                    } else {
                        lemma_hopped_compose(a, errs, st, st1, st2, st2, cid, k);
                    }
                } else {
                    let r = sim_edges(a, errs, cid, k + 1, st1, depth);
                    lemma_hopped_edges(a, errs, cid, k + 1, st1, depth);
                    lemma_hopped_compose(a, errs, st, st1, st1, r, cid, k);
                }
            }
        }
    }
}

proof fn lemma_hopped_compose(
    a: Arch,
    errs: Seq<ErrView>,
    s0: SimState,
    s1: SimState,
    s2: SimState,
    s3: SimState,
    cid: Seq<char>,
    k: int,
)
    requires
        0 <= k < a.edges@.len(),
        shared_ids_flagged(a, errs),
        unerred(errs, a.edges@[k].id@),
        s0.visited == s1.visited,
        s1.visited.contains(cid),
        hopped(s1.steps) == hopped(s0.steps).push(a.edges@[k].id@),
        head_segment(a.edges@[k].from@) == cid,
        s1.visited.is_prefix_of(s2.visited),
        hopped(s1.steps).is_prefix_of(hopped(s2.steps)),
        forall|i: int, m: int|
            hopped(s1.steps).len() <= i < hopped(s2.steps).len() && 0 <= m < a.edges@.len() && (#[trigger] a.edges@[m]).id@
                == #[trigger] hopped(s2.steps)[i] ==> !s1.visited.contains(head_segment(a.edges@[m].from@)),
        added_hops(a, s2, s3, cid, k + 1),
    ensures
        added_hops(a, s0, s3, cid, k),
{
    let h0 = hopped(s0.steps);
    let h1 = hopped(s1.steps);
    let h2 = hopped(s2.steps);
    let h3 = hopped(s3.steps);
    assert(h0 =~= h3.subrange(0, h0.len() as int)) by {
        assert forall|i: int| 0 <= i < h0.len() implies h3[i] == h0[i] by {
            assert(h3.subrange(0, h2.len() as int)[i] == h3[i]);
            assert(h2.subrange(0, h1.len() as int)[i] == h2[i]);
            assert(h1[i] == h0[i]);
        }
    }
    assert forall|i: int, m: int|
        h0.len() <= i < h3.len() && 0 <= m < a.edges@.len() && (#[trigger] a.edges@[m]).id@ == #[trigger] h3[i]
            implies !s0.visited.contains(head_segment(a.edges@[m].from@)) || (head_segment(a.edges@[m].from@) == cid
        && m >= k) by {
        if i < h2.len() {
            assert(h3.subrange(0, h2.len() as int)[i] == h3[i]);
            assert(h2[i] == h3[i]);
            if i < h1.len() {
                assert(h2.subrange(0, h1.len() as int)[i] == h2[i]);
                assert(h1[i] == a.edges@[k].id@);
                if m != k {
                    assert(!unerred(errs, a.edges@[m].id@));
                }
            }
        } else {
            if s0.visited.contains(head_segment(a.edges@[m].from@)) {
                lemma_contains_prefix(s1.visited, s2.visited, head_segment(a.edges@[m].from@));
            }
        }
    }
}

/// A trajectory crosses every edge at most once: no edge id appears in two
/// `hop` steps. (An id that two edges share is reported as a duplicate, so
/// the trajectory stalls there and never hops either edge.)
pub proof fn law_each_edge_hopped_once(a: Arch)
    ensures
        hopped(spec_simulate(a).steps).no_duplicates(),
{
    reveal_strlit("hop");
    reveal_strlit("enter");
    reveal_strlit("done");
    reveal_strlit("stall");
    assert("enter"@[0] != "hop"@[0]);
    assert("done"@[0] != "hop"@[0]);
    assert("stall"@[0] != "hop"@[0]);
    let errs = spec_errors(a);
    assert(shared_ids_flagged(a, errs)) by {
        assert forall|m1: int, m2: int|
            0 <= m1 < a.edges@.len() && 0 <= m2 < a.edges@.len() && m1 != m2 && (#[trigger] a.edges@[m1]).id@
                == (#[trigger] a.edges@[m2]).id@ implies !unerred(errs, a.edges@[m1].id@) by {
            law_shared_edge_id_reported(a, m1, m2);
            let j = choose|j: int|
                0 <= j < errs.len() && (#[trigger] errs[j]).element == a.edges@[m1].id@ && errs[j].rule == "dup-id"@;
            assert(errs[j].element == a.edges@[m1].id@);
        }
    }
    match spec_pick_entry(a) {
        None => {
            let x = step_view("stall"@, "-"@, Some("找不到入口（需要 gateway 或 app 组件）"@));
            lemma_hopped_push(seq![], x);
            assert(seq![x] =~= Seq::<StepView>::empty().push(x));
        },
        Some(entry) => {
            let ec = head_segment(entry);
            let x0 = step_view("enter"@, entry, None);
            let st0 = SimState { steps: seq![x0], hops: 0, ok: true, visited: seq![] };
            lemma_hopped_push(seq![], x0);
            assert(seq![x0] =~= Seq::<StepView>::empty().push(x0));
            assert(hops_ok(a, errs, st0));
            let st = sim_node(a, errs, ec, st0, 0);
            lemma_hopped_node(a, errs, ec, st0, 0);
            if st.ok {
                lemma_hopped_push(st.steps, step_view("done"@, ec, Some(done_message(st.hops))));
            }
        },
    }
}

proof fn lemma_entry_component(a: Arch)
    ensures
        spec_pick_entry(a) matches Some(en) ==> comp_index(a, head_segment(en)) >= 0 || exists|g: int|
            0 <= g < a.components@.len() && first_dot((#[trigger] a.components@[g]).id@) >= 0,
{
    let cs = a.components@;
    match spec_pick_entry(a) {
        Some(en) => {
            let g = gateway_from(cs, 0);
            lemma_gateway_from(cs, 0);
            lemma_app_from(cs, 0);
            let i = if g >= 0 {
                g
            } else {
                app_from(cs, 0)
            };
            let c = cs[i];
            let pid = if g >= 0 {
                c.ports@[server_port_from(c.ports@, 0)].id@
            } else {
                c.ports@[client_port_from(c.ports@, 0)].id@
            };
            assert(en == c.id@ + "."@ + pid);
            if first_dot(c.id@) < 0 {
                lemma_head_of_dotted(c.id@, pid);
                lemma_key_index(cs, c.id@);
                assert(cs[i].key() == c.id@);
            } else {
                assert(first_dot(a.components@[i].id@) >= 0);
            }
        },
        None => {},
    }
}

proof fn lemma_processed_fit(a: Arch, p: Seq<Seq<char>>, root: Seq<char>)
    requires
        p.no_duplicates(),
        forall|i: int|
            0 <= i < p.len() ==> #[trigger] p[i] == root || (comp_index(a, p[i]) >= 0 && first_dot(p[i]) < 0),
        comp_index(a, root) >= 0 || exists|g: int|
            0 <= g < a.components@.len() && first_dot((#[trigger] a.components@[g]).id@) >= 0,
    ensures
        p.len() <= a.components@.len(),
{
    let cs = a.components@;
    let nc = cs.len();
    lemma_key_index(cs, root);
    let g = if comp_index(a, root) >= 0 {
        comp_index(a, root)
    } else {
        choose|g: int| 0 <= g < a.components@.len() && first_dot((#[trigger] a.components@[g]).id@) >= 0
    };
    let f = |x: Seq<char>|
        if comp_index(a, x) >= 0 {
            comp_index(a, x)
        } else {
            g
        };
    let idx = p.map_values(f);
    assert(idx.no_duplicates()) by {
        assert forall|i: int, j: int| 0 <= i < idx.len() && 0 <= j < idx.len() && i != j implies idx[i] != idx[j] by {
            let x = p[i];
            let y = p[j];
            lemma_key_index(cs, x);
            lemma_key_index(cs, y);
            assert(idx[i] == f(x) && idx[j] == f(y));
            if comp_index(a, x) >= 0 && comp_index(a, y) >= 0 {
                assert(cs[comp_index(a, x)].key() == x);
            } else if comp_index(a, x) < 0 {
                assert(x == root);
                assert(y != root);
                assert(cs[comp_index(a, y)].key() == y);
            } else {
                assert(y == root);
                assert(x != root);
                assert(cs[comp_index(a, x)].key() == x);
            }
        }
    }
    assert(idx.to_set().subset_of(set_int_range(0, nc as int))) by {
        assert forall|v: int| idx.to_set().contains(v) implies set_int_range(0, nc as int).contains(v) by {
            let i = choose|i: int| 0 <= i < idx.len() && idx[i] == v;
            lemma_key_index(cs, p[i]);
        }
    }
    idx.unique_seq_to_set();
    lemma_int_range(0, nc as int);
    lemma_len_subset(idx.to_set(), set_int_range(0, nc as int));
}

proof fn lemma_moves_counted(s: Seq<StepView>, lo: int)
    requires
        0 <= lo,
        forall|i: int| lo <= i < s.len() ==> is_move(#[trigger] s[i]),
    ensures
        processed(s).len() + hop_count(s) + lo >= s.len(),
    decreases s.len(),
{
    if s.len() > lo {
        let p = s.drop_last();
        lemma_processed_push(p, s.last());
        lemma_hop_count_push(p, s.last());
        assert(p.push(s.last()) =~= s);
        assert(is_move(s[s.len() - 1]));
        assert forall|i: int| lo <= i < p.len() implies is_move(#[trigger] p[i]) by {
            assert(p[i] == s[i]);
        }
        lemma_moves_counted(p, lo);
    }
}

proof fn lemma_processed_from(s: Seq<StepView>, j: int)
    requires
        0 <= j < processed(s).len(),
    ensures
        exists|i: int| 0 <= i < s.len() && (#[trigger] s[i]).step == "process"@ && s[i].element == processed(s)[j],
    decreases s.len(),
{
    let p = s.drop_last();
    lemma_processed_push(p, s.last());
    assert(p.push(s.last()) =~= s);
    if j < processed(p).len() {
        lemma_processed_from(p, j);
        let i = choose|i: int| 0 <= i < p.len() && (#[trigger] p[i]).step == "process"@ && p[i].element == processed(p)[j];
        assert(s[i] == p[i]);
    } else {
        assert(s[s.len() - 1] == s.last());
    }
}

/// A trajectory is short: besides its entering step and its final one it
/// has at most one step per component and one per edge.
pub proof fn law_simulation_length(a: Arch)
    ensures
        spec_simulate(a).steps.len() <= a.components@.len() + a.edges@.len() + 2,
{
    reveal_strlit("enter");
    reveal_strlit("process");
    reveal_strlit("hop");
    reveal_strlit("done");
    assert("enter"@[0] != "process"@[0]);
    assert("done"@[0] != "process"@[0]);
    assert("done"@[0] != "hop"@[0]);
    let errs = spec_errors(a);
    let r = spec_simulate(a);
    law_simulation_steps(a);
    law_hops_bounded(a);
    match spec_pick_entry(a) {
        None => {},
        Some(entry) => {
            let ec = head_segment(entry);
            let x0 = step_view("enter"@, entry, None);
            let st0 = SimState { steps: seq![x0], hops: 0, ok: true, visited: seq![] };
            lemma_processed_push(seq![], x0);
            assert(seq![x0] =~= Seq::<StepView>::empty().push(x0));
            let st = sim_node(a, errs, ec, st0, 0);
            lemma_sim_node(a, errs, ec, st0, 0);
            lemma_once_node(a, errs, ec, st0, 0);
            lemma_step_node(a, errs, ec, st0, 0);
            lemma_entry_component(a);
            assert(st.steps.subrange(0, 1)[0] == st.steps[0]);
            assert(st.steps[0] == x0);
            assert forall|i: int| 0 <= i < st.visited.len() implies #[trigger] st.visited[i] == ec || (comp_index(
                a,
                st.visited[i],
            ) >= 0 && first_dot(st.visited[i]) < 0) by {
                lemma_processed_from(st.steps, i);
                let k = choose|k: int|
                    0 <= k < st.steps.len() && (#[trigger] st.steps[k]).step == "process"@ && st.steps[k].element
                        == processed(st.steps)[i];
                assert(k >= 1);
                assert(step_justified(a, errs, st.steps[k], st.visited, ec));
            }
            lemma_processed_fit(a, st.visited, ec);
            if st.ok {
                let xd = step_view("done"@, ec, Some(done_message(st.hops)));
                lemma_hop_count_push(st.steps, xd);
                lemma_moves_counted(st.steps, 1);
            } else {
                let dl = st.steps.drop_last();
                assert forall|i: int| 1 <= i < dl.len() implies is_move(#[trigger] dl[i]) by {
                    assert(dl[i] == st.steps[i]);
                }
                lemma_moves_counted(dl, 1);
                lemma_processed_push(dl, st.steps.last());
                lemma_hop_count_push(dl, st.steps.last());
                assert(dl.push(st.steps.last()) =~= st.steps);
            }
        },
    }
}

proof fn lemma_server_port_first(ps: Seq<Port>, k: int, q: int)
    requires
        0 <= k <= q < ps.len(),
        is_server_sync(ps[q]),
        forall|j: int| k <= j < q ==> !is_server_sync(#[trigger] ps[j]),
    ensures
        server_port_from(ps, k) == q,
    decreases q - k,
{
    if k < q {
        lemma_server_port_first(ps, k + 1, q);
    }
}

proof fn lemma_server_port_none(ps: Seq<Port>, k: int)
    requires
        0 <= k,
        forall|j: int| k <= j < ps.len() ==> !is_server_sync(#[trigger] ps[j]),
    ensures
        server_port_from(ps, k) == -1,
    decreases ps.len() - k,
{
    if k < ps.len() {
        lemma_server_port_none(ps, k + 1);
    }
}

proof fn lemma_client_port_first(ps: Seq<Port>, k: int, q: int)
    requires
        0 <= k <= q < ps.len(),
        opt_view(ps[q].role) != Some("server"@),
        forall|j: int| k <= j < q ==> opt_view((#[trigger] ps[j]).role) == Some("server"@),
    ensures
        client_port_from(ps, k) == q,
    decreases q - k,
{
    if k < q {
        lemma_client_port_first(ps, k + 1, q);
    }
}

proof fn lemma_client_port_none(ps: Seq<Port>, k: int)
    requires
        0 <= k,
        forall|j: int| k <= j < ps.len() ==> opt_view((#[trigger] ps[j]).role) == Some("server"@),
    ensures
        client_port_from(ps, k) == -1,
    decreases ps.len() - k,
{
    if k < ps.len() {
        lemma_client_port_none(ps, k + 1);
    }
}

/// Component `c` is a gateway and `q` is a sync-call port of it whose role is `server`.
pub open spec fn gateway_entry_port(c: Component, q: int) -> bool {
    &&& c.kind@ == "gateway"@
    &&& 0 <= q < c.ports@.len()
    &&& c.ports@[q].ptype@ == "sync-call"@
    &&& opt_view(c.ports@[q].role) == Some("server"@)
}

/// No component before the `n`-th is a gateway with a sync-call server port.
pub open spec fn no_gateway_entry_before(a: Arch, n: int) -> bool {
    forall|j: int, q: int| 0 <= j < n ==> !#[trigger] gateway_entry_port(a.components@[j], q)
}

proof fn lemma_gateway_first(a: Arch, k: int, g: int, q: int)
    requires
        0 <= k <= g < a.components@.len(),
        gateway_entry_port(a.components@[g], q),
        no_gateway_entry_before(a, g),
    ensures
        gateway_from(a.components@, k) == g,
    decreases g - k,
{
    let cs = a.components@;
    if k < g {
        let c = cs[k];
        if c.kind@ == "gateway"@ {
            assert forall|j: int| 0 <= j < c.ports@.len() implies !is_server_sync(#[trigger] c.ports@[j]) by {
                assert(!gateway_entry_port(cs[k], j));
            }
            lemma_server_port_none(c.ports@, 0);
        }
        lemma_gateway_first(a, k + 1, g, q);
    } else {
        lemma_server_port_exists(cs[g].ports@, 0, q);
    }
}

proof fn lemma_server_port_exists(ps: Seq<Port>, k: int, q: int)
    requires
        0 <= k <= q < ps.len(),
        is_server_sync(ps[q]),
    ensures
        server_port_from(ps, k) >= 0,
    decreases q - k,
{
    if k < q && !is_server_sync(ps[k]) {
        lemma_server_port_exists(ps, k + 1, q);
    }
}

proof fn lemma_app_found(cs: Seq<Component>, k: int)
    requires
        0 <= k,
        app_from(cs, k) >= 0,
    ensures
        cs[app_from(cs, k)].kind@ == "app"@,
    decreases cs.len() - k,
{
    if k < cs.len() && cs[k].kind@ != "app"@ {
        lemma_app_found(cs, k + 1);
    }
}

proof fn lemma_gateway_none(a: Arch, k: int)
    requires
        0 <= k,
        no_gateway_entry_before(a, a.components@.len() as int),
    ensures
        gateway_from(a.components@, k) == -1,
    decreases a.components@.len() - k,
{
    let cs = a.components@;
    if k < cs.len() {
        let c = cs[k];
        if c.kind@ == "gateway"@ {
            assert forall|j: int| 0 <= j < c.ports@.len() implies !is_server_sync(#[trigger] c.ports@[j]) by {
                assert(!gateway_entry_port(cs[k], j));
            }
            lemma_server_port_none(c.ports@, 0);
        }
        lemma_gateway_none(a, k + 1);
    }
}

proof fn lemma_app_first(cs: Seq<Component>, k: int, ap: int)
    requires
        0 <= k <= ap < cs.len(),
        cs[ap].kind@ == "app"@,
        forall|j: int| k <= j < ap ==> (#[trigger] cs[j]).kind@ != "app"@,
    ensures
        app_from(cs, k) == ap,
    decreases ap - k,
{
    if k < ap {
        lemma_app_first(cs, k + 1, ap);
    }
}

proof fn lemma_app_none(cs: Seq<Component>, k: int)
    requires
        0 <= k,
        forall|j: int| k <= j < cs.len() ==> (#[trigger] cs[j]).kind@ != "app"@,
    ensures
        app_from(cs, k) == -1,
    decreases cs.len() - k,
{
    if k < cs.len() {
        lemma_app_none(cs, k + 1);
    }
}

/// A trajectory enters at a gateway whenever one has a sync-call server port:
/// at the first such port of the first such gateway, whatever apps there are.
pub proof fn law_entry_at_gateway(a: Arch, g: int, q: int)
    requires
        0 <= g < a.components@.len(),
        gateway_entry_port(a.components@[g], q),
        forall|j: int| 0 <= j < q ==> !gateway_entry_port(a.components@[g], j),
        no_gateway_entry_before(a, g),
    ensures
        ({
            let en = a.components@[g].id@ + "."@ + a.components@[g].ports@[q].id@;
            &&& spec_simulate(a).entry == en
            &&& spec_simulate(a).steps[0] == step_view("enter"@, en, None)
        }),
{
    let c = a.components@[g];
    lemma_gateway_first(a, 0, g, q);
    assert forall|j: int| 0 <= j < q implies !is_server_sync(#[trigger] c.ports@[j]) by {
        assert(!gateway_entry_port(c, j));
    }
    lemma_server_port_first(c.ports@, 0, q);
    law_simulation_shape(a);
}

/// Without a gateway that has a sync-call server port, a trajectory enters at
/// the first app, at its first port whose role is not `server`.
pub proof fn law_entry_at_app(a: Arch, ap: int, q: int)
    requires
        no_gateway_entry_before(a, a.components@.len() as int),
        0 <= ap < a.components@.len(),
        a.components@[ap].kind@ == "app"@,
        forall|j: int| 0 <= j < ap ==> (#[trigger] a.components@[j]).kind@ != "app"@,
        0 <= q < a.components@[ap].ports@.len(),
        opt_view(a.components@[ap].ports@[q].role) != Some("server"@),
        forall|j: int| 0 <= j < q ==> opt_view((#[trigger] a.components@[ap].ports@[j]).role) == Some("server"@),
    ensures
        ({
            let en = a.components@[ap].id@ + "."@ + a.components@[ap].ports@[q].id@;
            &&& spec_simulate(a).entry == en
            &&& spec_simulate(a).steps[0] == step_view("enter"@, en, None)
        }),
{
    lemma_gateway_none(a, 0);
    lemma_app_first(a.components@, 0, ap);
    lemma_client_port_first(a.components@[ap].ports@, 0, q);
    law_simulation_shape(a);
}

/// Without a gateway that has a sync-call server port, and without an app
/// that has a port whose role is not `server` (only the first app counts),
/// there is no entry: the trajectory is a single stall and not clean.
pub proof fn law_no_entry(a: Arch)
    requires
        no_gateway_entry_before(a, a.components@.len() as int),
        forall|ap: int, q: int|
            0 <= ap < a.components@.len() && a.components@[ap].kind@ == "app"@ && (forall|j: int|
                0 <= j < ap ==> a.components@[j].kind@ != "app"@) && 0 <= q < a.components@[ap].ports@.len()
                ==> opt_view((#[trigger] a.components@[ap].ports@[q]).role) == Some("server"@),
    ensures
        !spec_simulate(a).ok,
        spec_simulate(a).steps.len() == 1,
        spec_simulate(a).steps[0].step == "stall"@,
        spec_simulate(a).entry == Seq::<char>::empty(),
{
    let cs = a.components@;
    lemma_gateway_none(a, 0);
    lemma_app_from(cs, 0);
    let ap = app_from(cs, 0);
    if ap >= 0 {
        lemma_app_found(cs, 0);
        assert forall|j: int| 0 <= j < ap implies (#[trigger] cs[j]).kind@ != "app"@ by {
            lemma_app_before(cs, 0, j);
        }
        assert forall|j: int| 0 <= j < cs[ap].ports@.len() implies opt_view((#[trigger] cs[ap].ports@[j]).role)
            == Some("server"@) by {
        }
        lemma_client_port_none(cs[ap].ports@, 0);
    }
    law_simulation_shape(a);
}

proof fn lemma_app_before(cs: Seq<Component>, k: int, j: int)
    requires
        0 <= k <= j,
        j < app_from(cs, k),
    ensures
        cs[j].kind@ != "app"@,
    decreases j - k,
{
    if k < j {
        lemma_app_before(cs, k + 1, j);
    }
}

// ----- executable simulation -----

pub(crate) fn step(kind: &str, element: &str, message: Option<String>) -> (r: SimStep)
    ensures
        r@ == step_view(kind@, element@, opt_view(message)),
{
    SimStep { step: String::from_str(kind), element: String::from_str(element), message }
}

struct Sim {
    steps: Vec<SimStep>,
    hops: usize,
    ok: bool,
    visited: Vec<String>,
}

impl Sim {
    spec fn view(&self) -> SimState {
        SimState {
            steps: steps_view(self.steps@),
            hops: self.hops as nat,
            ok: self.ok,
            visited: strings_view(self.visited@),
        }
    }

    spec fn inv(&self) -> bool {
        self.hops <= self.steps@.len()
    }
}

/// Whether `id` is among the processed components.
fn visited_contains(visited: &Vec<String>, id: &str) -> (r: bool)
    ensures
        r == strings_view(visited@).contains(id@),
{
    let n = visited.len();
    let mut i: usize = 0;
    while i < n
        invariant
            n == visited@.len(),
            i <= n,
            forall|j: int| 0 <= j < i ==> (#[trigger] visited@[j])@ != id@,
        decreases n - i,
    {
        if str_eq(visited[i].as_str(), id) {
            assert(strings_view(visited@)[i as int] == id@);
            return true;
        }
        i = i + 1;
    }
    proof {
        if strings_view(visited@).contains(id@) {
            let j = choose|j: int| 0 <= j < strings_view(visited@).len() && strings_view(visited@)[j] == id@;
            assert(visited@[j]@ == id@);
        }
    }
    false
}

/// The first violation whose element is `id`.
fn find_error(errors: &Vec<VErr>, id: &str) -> (r: Option<usize>)
    ensures
        match r {
            Some(i) => i as int == err_index_from(errs_view(errors@), id@, 0) && i < errors@.len(),
            None => err_index_from(errs_view(errors@), id@, 0) == -1,
        },
{
    let ghost ev = errs_view(errors@);
    let n = errors.len();
    let mut i: usize = 0;
    while i < n
        invariant
            n == errors@.len(),
            ev == errs_view(errors@),
            i <= n,
            err_index_from(ev, id@, 0) == err_index_from(ev, id@, i as int),
        decreases n - i,
    {
        if str_eq(errors[i].element.as_str(), id) {
            return Some(i);
        }
        i = i + 1;
    }
    None
}

fn push_step(st: &mut Sim, s: SimStep)
    ensures
        final(st).steps@ == old(st).steps@.push(s),
        final(st)@ == (SimState { steps: old(st)@.steps.push(s@), ..old(st)@ }),
        final(st).hops == old(st).hops,
{
    st.steps.push(s);
    assert(steps_view(st.steps@) =~= steps_view(old(st).steps@).push(s@));
}

fn dfs(a: &Arch, cid: &str, st: &mut Sim, depth: usize, errors: &Vec<VErr>)
    requires
        old(st).inv(),
    ensures
        final(st).inv(),
        final(st)@ == sim_node(*a, errs_view(errors@), cid@, old(st)@, depth as int),
        (!old(st)@.ok || depth >= MAX_DEPTH || old(st)@.visited.contains(cid@)) ==> final(st)@ == old(st)@,
    decreases MAX_DEPTH - depth,
{
    let ghost errs = errs_view(errors@);
    if !st.ok || depth >= MAX_DEPTH {
        return;
    }
    if visited_contains(&st.visited, cid) {
        return;
    }
    let ghost vis0 = st.visited@;
    st.visited.push(String::from_str(cid));
    assert(strings_view(st.visited@) =~= strings_view(vis0).push(cid@));
    push_step(st, step("process", cid, None));
    let ghost whole = sim_edges(*a, errs, cid@, 0, st@, depth as int);
    assert(whole == sim_node(*a, errs, cid@, old(st)@, depth as int));
    let n = a.edges.len();
    let mut k: usize = 0;
    while k < n
        invariant
            n == a.edges@.len(),
            k <= n,
            depth < MAX_DEPTH,
            errs == errs_view(errors@),
            st.inv(),
            st.ok,
            whole == sim_edges(*a, errs, cid@, k as int, st@, depth as int),
            whole == sim_node(*a, errs, cid@, old(st)@, depth as int),
        decreases n - k,
    {
        let e = &a.edges[k];
        if str_eq(head_segment_of(e.from.as_str()), cid) {
            proof {
                lemma_err_index_from(errs, e.id@, 0);
            }
            match find_error(errors, e.id.as_str()) {
                Some(i) => {
                    let msg = errors[i].message.clone();
                    push_step(st, step("stall", e.id.as_str(), Some(msg)));
                    st.ok = false;
                    return;
                },
                None => {},
            }
            push_step(st, step("hop", e.id.as_str(), None));
            let sl = st.steps.len();
            assert(st.hops < sl);
            st.hops = st.hops + 1;
            let tc = head_segment_of(e.to.as_str());
            if !visited_contains(&st.visited, tc) && a.component(tc).is_some() {
                dfs(a, tc, st, depth + 1, errors);
                if !st.ok {
                    return;
                }
            }
        }
        k = k + 1;
    }
}

/// Simulates a request travelling from the entry through the architecture.
pub fn simulate(a: &Arch) -> (r: SimResp)
    requires
        within_limits(*a),
    ensures
        r@ == spec_simulate(*a),
{
    let (_, _, _, errors) = validate(a);
    let entry = match pick_entry(a) {
        Some(e) => e,
        None => {
            let steps = vec![step("stall", "-", Some(String::from_str("找不到入口（需要 gateway 或 app 组件）")))];
            let r = SimResp { ok: false, entry: String::new(), hops: 0, steps };
            assert(r@.steps =~= spec_simulate(*a).steps);
            return r;
        },
    };
    let entry_comp = head_segment_of(entry.as_str());
    let mut st = Sim { steps: vec![step("enter", entry.as_str(), None)], hops: 0, ok: true, visited: Vec::new() };
    assert(strings_view(st.visited@) =~= seq![]);
    assert(steps_view(st.steps@) =~= seq![step_view("enter"@, entry@, None)]);
    dfs(a, entry_comp, &mut st, 0, &errors);
    if st.ok {
        let mut m = String::from_str("全链路 ");
        let h = usize_decimal(st.hops);
        m.append(h.as_str());
        m.append(" 跳逻辑通");
        push_step(&mut st, step("done", entry_comp, Some(m)));
    }
    let r = SimResp { ok: st.ok, entry, steps: st.steps, hops: st.hops };
    assert(r@.steps =~= spec_simulate(*a).steps);
    r
}

} // verus!
