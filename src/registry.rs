//! The node registry: reservation, reports with identity reconciliation,
//! rename, deletion, and the liveness status derived at read time.
//!
//! Timestamps are milliseconds since the Unix epoch; the offline timeout is
//! in seconds. An empty hostname or address means "not reported".

use vstd::prelude::*;
use crate::error::RegistryError;
use crate::token::{generate_token, new_node_id, is_token_format};

verus! {

/// One monitored host as the registry stores it.
pub struct NodeRecord {
    pub id: String,
    pub token: String,
    pub label: Option<String>,
    pub hostname: String,
    pub ip_address: String,
    pub created_at: u64,
    pub last_seen: Option<u64>,
    pub meta: Option<String>,
    pub metrics: Option<String>,
}

/// The mathematical value of a [`NodeRecord`].
pub struct NodeView {
    pub id: Seq<char>,
    pub token: Seq<char>,
    pub label: Option<Seq<char>>,
    pub hostname: Seq<char>,
    pub ip_address: Seq<char>,
    pub created_at: u64,
    pub last_seen: Option<u64>,
    pub meta: Option<Seq<char>>,
    pub metrics: Option<Seq<char>>,
}

/// The view of an optional text.
pub open spec fn opt_text(o: Option<String>) -> Option<Seq<char>> {
    match o {
        Some(s) => Some(s@),
        None => None,
    }
}

impl View for NodeRecord {
    type V = NodeView;

    open spec fn view(&self) -> NodeView {
        NodeView {
            id: self.id@,
            token: self.token@,
            label: opt_text(self.label),
            hostname: self.hostname@,
            ip_address: self.ip_address@,
            created_at: self.created_at,
            last_seen: self.last_seen,
            meta: opt_text(self.meta),
            metrics: opt_text(self.metrics),
        }
    }
}

/// A node as reservation creates it: no identity reported yet.
pub open spec fn reserved_node(
    id: Seq<char>,
    token: Seq<char>,
    label: Option<Seq<char>>,
    now: u64,
) -> NodeView {
    NodeView {
        id,
        token,
        label,
        hostname: Seq::empty(),
        ip_address: Seq::empty(),
        created_at: now,
        last_seen: None,
        meta: None,
        metrics: None,
    }
}

/// Liveness of a node, derived when read.
#[derive(Clone, Copy, Debug, PartialEq, Eq, Structural)]
pub enum NodeStatus {
    /// Reserved, never reported.
    Pending,
    /// Reported within the offline timeout.
    Online,
    /// Last report older than the offline timeout.
    Offline,
}

/// `pending` without a report; `online` if `now - last_seen` is at most
/// the timeout; else `offline`.
pub open spec fn status_spec(last_seen: Option<u64>, now: u64, offline_timeout_sec: u64) -> NodeStatus {
    match last_seen {
        None => NodeStatus::Pending,
        Some(t) => if now as int - t as int <= offline_timeout_sec as int * 1000 {
            NodeStatus::Online
        } else {
            NodeStatus::Offline
        },
    }
}

/// The status of a node last seen at `last_seen`, evaluated at `now`.
pub fn node_status(last_seen: Option<u64>, now: u64, offline_timeout_sec: u64) -> (r: NodeStatus)
    ensures
        r == status_spec(last_seen, now, offline_timeout_sec),
{
    match last_seen {
        None => NodeStatus::Pending,
        Some(t) => {
            if t >= now {
                NodeStatus::Online
            } else if (now - t) as u128 <= offline_timeout_sec as u128 * 1000 {
                NodeStatus::Online
            } else {
                NodeStatus::Offline
            }
        },
    }
}

impl NodeStatus {
    /// The status as the listing presents it.
    pub fn as_str(&self) -> (r: &'static str)
        ensures
            r@ == match *self {
                NodeStatus::Pending => "pending"@,
                NodeStatus::Online => "online"@,
                NodeStatus::Offline => "offline"@,
            },
    {
        match self {
            NodeStatus::Pending => "pending",
            NodeStatus::Online => "online",
            NodeStatus::Offline => "offline",
        }
    }
}

/// Whether some node holds the token.
pub open spec fn has_token(s: Seq<NodeView>, token: Seq<char>) -> bool {
    exists|i: int| 0 <= i < s.len() && s[i].token == token
}

/// Whether some node holds the id.
pub open spec fn has_id(s: Seq<NodeView>, id: Seq<char>) -> bool {
    exists|i: int| 0 <= i < s.len() && s[i].id == id
}

/// No two nodes share an id.
pub open spec fn distinct_ids(s: Seq<NodeView>) -> bool {
    forall|i: int, j: int| 0 <= i < s.len() && 0 <= j < s.len() && i != j ==> s[i].id != s[j].id
}

/// No two nodes share a token.
pub open spec fn distinct_tokens(s: Seq<NodeView>) -> bool {
    forall|i: int, j: int|
        0 <= i < s.len() && 0 <= j < s.len() && i != j ==> s[i].token != s[j].token
}

/// No two nodes share a non-empty hostname.
pub open spec fn distinct_hostnames(s: Seq<NodeView>) -> bool {
    forall|i: int, j: int|
        0 <= i < s.len() && 0 <= j < s.len() && i != j && s[i].hostname.len() > 0
            ==> s[i].hostname != s[j].hostname
}

/// No two nodes share a non-empty address.
pub open spec fn distinct_addresses(s: Seq<NodeView>) -> bool {
    forall|i: int, j: int|
        0 <= i < s.len() && 0 <= j < s.len() && i != j && s[i].ip_address.len() > 0
            ==> s[i].ip_address != s[j].ip_address
}

/// The registry's invariant: ids and tokens are unique, and so are
/// non-empty hostnames and non-empty addresses.
pub open spec fn well_formed(s: Seq<NodeView>) -> bool {
    distinct_ids(s) && distinct_tokens(s) && distinct_hostnames(s) && distinct_addresses(s)
}

/// Whether a text field is empty, that is, not reported.
pub fn is_blank(s: &String) -> (r: bool)
    ensures
        r == (s@.len() == 0),
{
    s.as_str().is_empty()
}

/// One report as the registry applies it. `meta` and `metrics` are the
/// JSON texts of the reported objects.
pub struct Report {
    pub token: String,
    pub hostname: String,
    pub ip_address: String,
    pub meta: String,
    pub metrics: String,
}

/// The mathematical value of a [`Report`].
pub struct ReportView {
    pub token: Seq<char>,
    pub hostname: Seq<char>,
    pub ip_address: Seq<char>,
    pub meta: Seq<char>,
    pub metrics: Seq<char>,
}

impl View for Report {
    type V = ReportView;

    open spec fn view(&self) -> ReportView {
        ReportView {
            token: self.token@,
            hostname: self.hostname@,
            ip_address: self.ip_address@,
            meta: self.meta@,
            metrics: self.metrics@,
        }
    }
}

/// A JSON object text with nothing in it: empty, or `{}`.
pub open spec fn lacks_content(s: Seq<char>) -> bool {
    s.len() == 0 || s == "{}"@
}

/// The label after a report: a non-empty label stays; otherwise a non-empty
/// reported hostname claims it.
pub open spec fn claimed_label(label: Option<Seq<char>>, hostname: Seq<char>) -> Option<Seq<char>> {
    if label is Some && label->0.len() > 0 {
        label
    } else if hostname.len() > 0 {
        Some(hostname)
    } else {
        label
    }
}

/// The reporting node after its report: hostname replaced when one was
/// reported, label claimed, address, attributes and measurements replaced
/// wholesale, last seen now.
pub open spec fn reported_node(n: NodeView, r: ReportView, now: u64) -> NodeView {
    NodeView {
        id: n.id,
        token: n.token,
        label: claimed_label(n.label, r.hostname),
        hostname: if r.hostname.len() > 0 {
            r.hostname
        } else {
            n.hostname
        },
        ip_address: r.ip_address,
        created_at: n.created_at,
        last_seen: Some(now),
        meta: Some(r.meta),
        metrics: Some(r.metrics),
    }
}

/// Another node that shares the report's non-empty hostname or its
/// non-empty address.
pub open spec fn collides(n: NodeView, r: ReportView) -> bool {
    n.token != r.token && ((r.hostname.len() > 0 && n.hostname == r.hostname) || (
    r.ip_address.len() > 0 && n.ip_address == r.ip_address))
}

/// A node as it stands after the report, if it survives.
pub open spec fn after_report(n: NodeView, r: ReportView, now: u64) -> NodeView {
    if n.token == r.token {
        reported_node(n, r, now)
    } else {
        n
    }
}

/// The nodes after an accepted report: the reporting node updated in
/// place, every colliding node removed, the others kept in order.
pub open spec fn reconcile(s: Seq<NodeView>, r: ReportView, now: u64) -> Seq<NodeView>
    decreases s.len(),
{
    if s.len() == 0 {
        Seq::empty()
    } else {
        let rest = reconcile(s.drop_last(), r, now);
        if collides(s.last(), r) {
            rest
        } else {
            rest.push(after_report(s.last(), r, now))
        }
    }
}

/// Each node of a reconciled list comes from a distinct node of the list
/// before, in order, and survived.
proof fn lemma_reconcile_origin(s: Seq<NodeView>, r: ReportView, now: u64) -> (o: Seq<int>)
    ensures
        o.len() == reconcile(s, r, now).len(),
        forall|k: int| 0 <= k < o.len() ==> 0 <= #[trigger] o[k] < s.len(),
        forall|k1: int, k2: int| 0 <= k1 < k2 < o.len() ==> o[k1] < o[k2],
        forall|k: int|
            0 <= k < o.len() ==> !collides(s[#[trigger] o[k]], r) && reconcile(s, r, now)[k]
                == after_report(s[o[k]], r, now),
    decreases s.len(),
{
    if s.len() == 0 {
        Seq::empty()
    } else {
        let o0 = lemma_reconcile_origin(s.drop_last(), r, now);
        if collides(s.last(), r) {
            assert forall|k: int| 0 <= k < o0.len() implies s[#[trigger] o0[k]] == s.drop_last()[o0[k]] by {}
            o0
        } else {
            let o = o0.push(s.len() - 1);
            assert forall|k: int| 0 <= k < o.len() implies !collides(s[#[trigger] o[k]], r)
                && reconcile(s, r, now)[k] == after_report(s[o[k]], r, now) by {
                if k < o0.len() {
                    assert(s[o0[k]] == s.drop_last()[o0[k]]);
                }
            }
            o
        }
    }
}

/// The reporting node is in the reconciled list, updated.
proof fn lemma_reconcile_keeps_reporter(s: Seq<NodeView>, r: ReportView, now: u64, i: int) -> (k: int)
    requires
        0 <= i < s.len(),
        s[i].token == r.token,
    ensures
        0 <= k < reconcile(s, r, now).len(),
        reconcile(s, r, now)[k] == reported_node(s[i], r, now),
    decreases s.len(),
{
    if i == s.len() - 1 {
        reconcile(s, r, now).len() - 1
    } else {
        assert(s.drop_last()[i] == s[i]);
        lemma_reconcile_keeps_reporter(s.drop_last(), r, now, i)
    }
}

/// Reconciliation keeps tokens, hostnames and addresses unique.
pub proof fn lemma_reconcile_well_formed(s: Seq<NodeView>, r: ReportView, now: u64)
    requires
        well_formed(s),
    ensures
        well_formed(reconcile(s, r, now)),
{
    let t = reconcile(s, r, now);
    let o = lemma_reconcile_origin(s, r, now);
    assert forall|k1: int, k2: int|
        0 <= k1 < t.len() && 0 <= k2 < t.len() && k1 != k2 implies t[k1].id != t[k2].id
        && t[k1].token != t[k2].token && (t[k1].hostname.len() > 0 ==> t[k1].hostname != t[k2].hostname) && (
    t[k1].ip_address.len() > 0 ==> t[k1].ip_address != t[k2].ip_address) by {
        assert(o[k1] != o[k2]) by {
            if k1 < k2 {
                assert(o[k1] < o[k2]);
            } else {
                assert(o[k2] < o[k1]);
            }
        }
        let a = s[o[k1]];
        let b = s[o[k2]];
        assert(!collides(a, r) && !collides(b, r));
        assert(a.token != b.token);
        assert(a.id != b.id);
        assert(a.hostname.len() > 0 ==> a.hostname != b.hostname);
        assert(b.hostname.len() > 0 ==> a.hostname != b.hostname);
        assert(a.ip_address.len() > 0 ==> a.ip_address != b.ip_address);
        assert(b.ip_address.len() > 0 ==> a.ip_address != b.ip_address);
    }
}

/// After an accepted report the reporting node holds the reported hostname
/// (when one was reported), keeps a label it already had, and no other node
/// keeps the reported non-empty hostname or address.
pub proof fn lemma_report_outcome(s: Seq<NodeView>, r: ReportView, now: u64, i: int)
    requires
        well_formed(s),
        0 <= i < s.len(),
        s[i].token == r.token,
    ensures
        well_formed(reconcile(s, r, now)),
        has_token(reconcile(s, r, now), r.token),
        forall|k: int|
            0 <= k < reconcile(s, r, now).len() && (#[trigger] reconcile(s, r, now)[k]).token
                == r.token ==> reconcile(s, r, now)[k] == reported_node(s[i], r, now),
        forall|k: int|
            0 <= k < reconcile(s, r, now).len() && (#[trigger] reconcile(s, r, now)[k]).token
                != r.token ==> !collides(reconcile(s, r, now)[k], r)
                && reconcile(s, r, now)[k].token != r.token,
{
    lemma_reconcile_well_formed(s, r, now);
    let t = reconcile(s, r, now);
    let o = lemma_reconcile_origin(s, r, now);
    let k0 = lemma_reconcile_keeps_reporter(s, r, now, i);
    assert(t[k0].token == r.token);
    assert forall|k: int| 0 <= k < t.len() && (#[trigger] t[k]).token == r.token implies t[k]
        == reported_node(s[i], r, now) by {
        assert(s[o[k]].token == r.token);
        assert(o[k] == i);
    }
}

/// A node whose hostname is reported by another node is removed by
/// reconciliation, and the reporting node survives with that hostname.
proof fn lemma_reconcile_evicts(s: Seq<NodeView>, r: ReportView, now: u64, a: int, b: int)
    requires
        well_formed(s),
        0 <= a < s.len(),
        0 <= b < s.len(),
        a != b,
        s[b].token == r.token,
        r.hostname.len() > 0,
        s[a].hostname == r.hostname,
    ensures
        !has_token(reconcile(s, r, now), s[a].token),
        exists|k: int|
            0 <= k < reconcile(s, r, now).len() && (#[trigger] reconcile(s, r, now)[k]).token
                == s[b].token && reconcile(s, r, now)[k].hostname == r.hostname,
{
    let t = reconcile(s, r, now);
    let o = lemma_reconcile_origin(s, r, now);
    let k0 = lemma_reconcile_keeps_reporter(s, r, now, b);
    assert(t[k0].token == s[b].token && t[k0].hostname == r.hostname);
    assert forall|k: int| 0 <= k < t.len() implies t[k].token != s[a].token by {
        assert(!collides(s[o[k]], r));
        assert(t[k].token == s[o[k]].token);
        if o[k] != a {
            assert(s[o[k]].token != s[a].token);
        }
    }
}

/// Of two reconciliations for the same token, the second one's hostname is
/// recorded, and a label that was non-empty before it is left as it was.
proof fn lemma_reconcile_twice(
    s: Seq<NodeView>,
    r1: ReportView,
    now1: u64,
    r2: ReportView,
    now2: u64,
)
    requires
        well_formed(s),
        has_token(s, r1.token),
        r2.token == r1.token,
        r2.hostname.len() > 0,
    ensures
        has_token(reconcile(reconcile(s, r1, now1), r2, now2), r1.token),
        forall|j: int, k: int|
            0 <= j < reconcile(s, r1, now1).len() && 0 <= k < reconcile(
                reconcile(s, r1, now1),
                r2,
                now2,
            ).len() && (#[trigger] reconcile(s, r1, now1)[j]).token == r1.token && (
            #[trigger] reconcile(reconcile(s, r1, now1), r2, now2)[k]).token == r1.token ==> {
                let before = reconcile(s, r1, now1)[j];
                let after = reconcile(reconcile(s, r1, now1), r2, now2)[k];
                &&& after.hostname == r2.hostname
                &&& (before.label is Some && before.label->0.len() > 0) ==> after.label
                    == before.label
            },
{
    let i = choose|i: int| 0 <= i < s.len() && s[i].token == r1.token;
    lemma_report_outcome(s, r1, now1, i);
    let m = reconcile(s, r1, now1);
    let j0 = choose|j: int| 0 <= j < m.len() && m[j].token == r1.token;
    lemma_report_outcome(m, r2, now2, j0);
    assert forall|j: int, k: int|
        0 <= j < m.len() && 0 <= k < reconcile(m, r2, now2).len() && (#[trigger] m[j]).token
            == r1.token && (#[trigger] reconcile(m, r2, now2)[k]).token == r1.token implies {
        let before = m[j];
        let after = reconcile(m, r2, now2)[k];
        &&& after.hostname == r2.hostname
        &&& (before.label is Some && before.label->0.len() > 0) ==> after.label == before.label
    } by {
        assert(j == j0);
    }
}

/// What a report does to the nodes `s`: a bad request when the attributes
/// or the measurements are empty; else not found when no node holds the
/// token; either way the nodes stay as they were. Otherwise the nodes are
/// reconciled.
pub open spec fn report_outcome(s: Seq<NodeView>, r: ReportView, now: u64) -> (
    Result<(), RegistryError>,
    Seq<NodeView>,
) {
    if lacks_content(r.meta) || lacks_content(r.metrics) {
        (Err(RegistryError::BadRequest), s)
    } else if !has_token(s, r.token) {
        (Err(RegistryError::NotFound), s)
    } else {
        (Ok(()), reconcile(s, r, now))
    }
}

/// A report that carries attributes and measurements.
pub open spec fn has_content(r: ReportView) -> bool {
    !lacks_content(r.meta) && !lacks_content(r.metrics)
}

/// A report with an unknown token is not found and changes nothing: in
/// particular it creates no node.
pub proof fn lemma_report_unknown_token(s: Seq<NodeView>, r: ReportView, now: u64)
    requires
        has_content(r),
        !has_token(s, r.token),
    ensures
        report_outcome(s, r, now) == (Err::<(), RegistryError>(RegistryError::NotFound), s),
        report_outcome(s, r, now).1.len() == s.len(),
{
}

/// A report from a node whose label is non-empty is accepted and leaves
/// the label as it was, whatever hostname it reports.
pub proof fn lemma_report_keeps_label(s: Seq<NodeView>, r: ReportView, now: u64, i: int)
    requires
        well_formed(s),
        has_content(r),
        0 <= i < s.len(),
        s[i].token == r.token,
        s[i].label is Some,
        s[i].label->0.len() > 0,
    ensures
        report_outcome(s, r, now).0 is Ok,
        has_token(report_outcome(s, r, now).1, r.token),
        forall|k: int|
            0 <= k < report_outcome(s, r, now).1.len() && (#[trigger] report_outcome(
                s,
                r,
                now,
            ).1[k]).token == r.token ==> report_outcome(s, r, now).1[k].label == s[i].label,
{
    lemma_report_outcome(s, r, now, i);
}

/// Of two accepted reports with the same token, the second one's
/// (non-empty) hostname is recorded, and a label that was non-empty after
/// the first is left as it was.
pub proof fn lemma_later_report_hostname_wins(
    s: Seq<NodeView>,
    r1: ReportView,
    now1: u64,
    r2: ReportView,
    now2: u64,
)
    requires
        well_formed(s),
        has_token(s, r1.token),
        has_content(r1),
        has_content(r2),
        r2.token == r1.token,
        r2.hostname.len() > 0,
    ensures
        ({
            let (o1, m) = report_outcome(s, r1, now1);
            let (o2, t) = report_outcome(m, r2, now2);
            &&& o1 is Ok
            &&& o2 is Ok
            &&& has_token(t, r1.token)
            &&& forall|j: int, k: int|
                0 <= j < m.len() && 0 <= k < t.len() && (#[trigger] m[j]).token == r1.token && (
                #[trigger] t[k]).token == r1.token ==> {
                    &&& t[k].hostname == r2.hostname
                    &&& (m[j].label is Some && m[j].label->0.len() > 0) ==> t[k].label
                        == m[j].label
                }
        }),
{
    let i = choose|i: int| 0 <= i < s.len() && s[i].token == r1.token;
    lemma_report_outcome(s, r1, now1, i);
    lemma_reconcile_twice(s, r1, now1, r2, now2);
}

/// Given node A holding hostname `h` and node B reserved separately, an
/// accepted report from B with hostname `h` removes A, and B survives
/// with hostname `h`.
pub proof fn lemma_collision_evicts(s: Seq<NodeView>, r: ReportView, now: u64, a: int, b: int)
    requires
        well_formed(s),
        has_content(r),
        0 <= a < s.len(),
        0 <= b < s.len(),
        a != b,
        s[b].token == r.token,
        r.hostname.len() > 0,
        s[a].hostname == r.hostname,
    ensures
        report_outcome(s, r, now).0 is Ok,
        !has_token(report_outcome(s, r, now).1, s[a].token),
        exists|k: int|
            0 <= k < report_outcome(s, r, now).1.len() && (#[trigger] report_outcome(
                s,
                r,
                now,
            ).1[k]).token == s[b].token && report_outcome(s, r, now).1[k].hostname == r.hostname,
{
    lemma_reconcile_evicts(s, r, now, a, b);
    assert(has_token(s, r.token));
    let t = report_outcome(s, r, now).1;
    assert(t == reconcile(s, r, now));
    let k0 = lemma_reconcile_keeps_reporter(s, r, now, b);
    assert(t[k0].token == s[b].token && t[k0].hostname == r.hostname);
}

/// Removing the node at `i` leaves no node with its token, and keeps the
/// invariant: a second deletion of the same token finds nothing.
pub proof fn lemma_delete_twice(s: Seq<NodeView>, i: int)
    requires
        well_formed(s),
        0 <= i < s.len(),
    ensures
        !has_token(s.remove(i), s[i].token),
        well_formed(s.remove(i)),
{
    let t = s.remove(i);
    assert forall|k: int| 0 <= k < t.len() implies t[k] == s[if k < i {
        k
    } else {
        k + 1
    }] by {}
    assert forall|k: int| 0 <= k < t.len() implies t[k].token != s[i].token by {
        let kk = if k < i { k } else { k + 1 };
        assert(t[k] == s[kk]);
    }
}

/// A node with its label replaced.
pub open spec fn relabeled(n: NodeView, label: Option<Seq<char>>) -> NodeView {
    NodeView { label, ..n }
}

/// Whether a reported JSON object text is empty: no text, or `{}`.
pub fn lacks_json_content(s: &String) -> (r: bool)
    ensures
        r == lacks_content(s@),
{
    let empty_object = String::from_str("{}");
    is_blank(s) || *s == empty_object
}

/// Number of fresh tokens a reservation tries before it gives up.
pub const MINT_ATTEMPTS: u32 = 4;

/// The shell command that installs the sampler on a host, reporting to the
/// registry at `base_url` with `token`.
pub fn install_command(base_url: &String, token: &String) -> (r: String)
    ensures
        r@ == "curl -fsSL "@ + base_url@ + "/install.sh | bash -s -- --token="@ + token@
            + " --endpoint="@ + base_url@,
{
    let mut c = String::from_str("curl -fsSL ");
    c.append(base_url.as_str());
    c.append("/install.sh | bash -s -- --token=");
    c.append(token.as_str());
    c.append(" --endpoint=");
    c.append(base_url.as_str());
    c
}

/// The identity handed out by a reservation.
pub struct NewNode {
    pub node_id: String,
    pub token: String,
}

/// All nodes, in reservation order.
pub struct Registry {
    nodes: Vec<NodeRecord>,
}

impl View for Registry {
    type V = Seq<NodeView>;

    closed spec fn view(&self) -> Seq<NodeView> {
        self.nodes@.map_values(|n: NodeRecord| n@)
    }
}

impl Registry {
    /// The registry's invariant holds of its nodes.
    pub open spec fn wf(&self) -> bool {
        well_formed(self@)
    }

    /// An empty registry.
    pub fn new() -> (r: Registry)
        ensures
            r@ == Seq::<NodeView>::empty(),
            r.wf(),
    {
        let r = Registry { nodes: Vec::new() };
        assert(r@ =~= Seq::<NodeView>::empty());
        r
    }

    /// Number of nodes.
    pub fn len(&self) -> (r: usize)
        ensures
            r == self@.len(),
    {
        self.nodes.len()
    }

    /// The node at position `i`, in reservation order.
    pub fn node(&self, i: usize) -> (r: &NodeRecord)
        requires
            i < self@.len(),
        ensures
            r@ == self@[i as int],
    {
        &self.nodes[i]
    }

    /// Position of the node holding `token`.
    pub fn find_token(&self, token: &String) -> (r: Option<usize>)
        ensures
            r matches Some(i) ==> i < self@.len() && self@[i as int].token == token@,
            r is None <==> !has_token(self@, token@),
    {
        let mut i: usize = 0;
        while i < self.nodes.len()
            invariant
                i <= self.nodes@.len(),
                self@.len() == self.nodes@.len(),
                forall|k: int| 0 <= k < i ==> self@[k].token != token@,
            decreases self.nodes@.len() - i,
        {
            if self.nodes[i].token == *token {
                return Some(i);
            }
            i += 1;
        }
        None
    }

    /// Position of the node holding `id`.
    pub fn find_id(&self, id: &String) -> (r: Option<usize>)
        ensures
            r matches Some(i) ==> i < self@.len() && self@[i as int].id == id@,
            r is None <==> !has_id(self@, id@),
    {
        let mut i: usize = 0;
        while i < self.nodes.len()
            invariant
                i <= self.nodes@.len(),
                self@.len() == self.nodes@.len(),
                forall|k: int| 0 <= k < i ==> self@[k].id != id@,
            decreases self.nodes@.len() - i,
        {
            if self.nodes[i].id == *id {
                return Some(i);
            }
            i += 1;
        }
        None
    }

    /// Adds a node with the given identity, unless the token (refused with
    /// `TokenTaken`) or else the id (refused with `Conflict`) is already held.
    pub fn reserve_with(&mut self, id: String, token: String, label: Option<String>, now: u64) -> (r:
        Result<(), RegistryError>)
        requires
            old(self).wf(),
        ensures
            final(self).wf(),
            r is Ok <==> !has_token(old(self)@, token@) && !has_id(old(self)@, id@),
            r is Ok ==> final(self)@ == old(self)@.push(
                reserved_node(id@, token@, opt_text(label), now),
            ),
            has_token(old(self)@, token@) ==> r == Err::<(), RegistryError>(
                RegistryError::TokenTaken,
            ),
            !has_token(old(self)@, token@) && has_id(old(self)@, id@) ==> r == Err::<
                (),
                RegistryError,
            >(RegistryError::Conflict),
            r is Err ==> final(self)@ == old(self)@,
    {
        if self.find_token(&token).is_some() {
            return Err(RegistryError::TokenTaken);
        }
        if self.find_id(&id).is_some() {
            return Err(RegistryError::Conflict);
        }
        let node = NodeRecord {
            id,
            token,
            label,
            hostname: String::new(),
            ip_address: String::new(),
            created_at: now,
            last_seen: None,
            meta: None,
            metrics: None,
        };
        let ghost before = self@;
        self.nodes.push(node);
        assert(self@ =~= before.push(node@));
        Ok(())
    }

    /// Reserves a node: mints an id and a token, each held by no other node,
    /// and stores the node with no identity reported yet. An empty registry
    /// always succeeds. Gives up with `TokenTaken`, changing nothing, if
    /// every minted pair collided with a stored node.
    pub fn reserve(&mut self, label: Option<String>, now: u64) -> (r: Result<NewNode, RegistryError>)
        requires
            old(self).wf(),
        ensures
            final(self).wf(),
            r matches Ok(n) ==> {
                &&& is_token_format(n.token@)
                &&& !has_token(old(self)@, n.token@)
                &&& !has_id(old(self)@, n.node_id@)
                &&& n.node_id@.len() == 36
                &&& final(self)@ == old(self)@.push(
                    reserved_node(n.node_id@, n.token@, opt_text(label), now),
                )
            },
            old(self)@.len() == 0 ==> r is Ok,
            r is Err ==> r == Err::<NewNode, RegistryError>(RegistryError::TokenTaken)
                && final(self)@ == old(self)@,
    {
        let mut attempt: u32 = 0;
        while attempt < MINT_ATTEMPTS
            invariant
                self.wf(),
                self@ == old(self)@,
                attempt > 0 ==> old(self)@.len() > 0,
            decreases MINT_ATTEMPTS - attempt,
        {
            let token = generate_token();
            let id = new_node_id();
            if self.find_token(&token).is_none() && self.find_id(&id).is_none() {
                let node_id = id.clone();
                let handed_out = token.clone();
                let res = self.reserve_with(id, token, label, now);
                return match res {
                    Ok(()) => Ok(NewNode { node_id, token: handed_out }),
                    Err(e) => Err(e),
                };
            }
            attempt += 1;
        }
        Err(RegistryError::TokenTaken)
    }

    /// Stores a node read back from persistent storage, unless it would
    /// share its id, its token, or a non-empty hostname or address, with a
    /// node already held.
    pub fn restore(&mut self, node: NodeRecord) -> (r: Result<(), RegistryError>)
        requires
            old(self).wf(),
        ensures
            final(self).wf(),
            r is Ok <==> well_formed(old(self)@.push(node@)),
            r is Ok ==> final(self)@ == old(self)@.push(node@),
            r is Err ==> r == Err::<(), RegistryError>(RegistryError::Conflict) && final(self)@
                == old(self)@,
    {
        let ghost s = self@;
        let ghost t = s.push(node@);
        let mut i: usize = 0;
        while i < self.nodes.len()
            invariant
                i <= self.nodes@.len(),
                self@ == s,
                s.len() == self.nodes@.len(),
                well_formed(s),
                t == s.push(node@),
                forall|k: int| 0 <= k < i ==> #[trigger] s[k].token != node@.token,
                forall|k: int| 0 <= k < i ==> #[trigger] s[k].id != node@.id,
                forall|k: int|
                    0 <= k < i && node@.hostname.len() > 0 ==> #[trigger] s[k].hostname
                        != node@.hostname,
                forall|k: int|
                    0 <= k < i && node@.ip_address.len() > 0 ==> #[trigger] s[k].ip_address
                        != node@.ip_address,
            decreases self.nodes@.len() - i,
        {
            let other = &self.nodes[i];
            if other.id == node.id || other.token == node.token || (!is_blank(&node.hostname) && other.hostname
                == node.hostname) || (!is_blank(&node.ip_address) && other.ip_address
                == node.ip_address) {
                assert(t[i as int] == s[i as int]);
                assert(t[s.len() as int] == node@);
                assert(!well_formed(t));
                return Err(RegistryError::Conflict);
            }
            i += 1;
        }
        assert(well_formed(t)) by {
            assert forall|a: int, b: int| 0 <= a < t.len() && 0 <= b < t.len() && a != b implies t[a].id != t[b].id by {
                if a < s.len() && b < s.len() {
                    assert(t[a] == s[a] && t[b] == s[b]);
                }
            }
            assert forall|a: int, b: int| 0 <= a < t.len() && 0 <= b < t.len() && a != b implies t[a].token != t[b].token by {
                if a < s.len() && b < s.len() {
                    assert(t[a] == s[a] && t[b] == s[b]);
                }
            }
            assert forall|a: int, b: int| 0 <= a < t.len() && 0 <= b < t.len() && a != b && t[a].hostname.len() > 0 implies t[a].hostname != t[b].hostname by {
                if a < s.len() && b < s.len() {
                    assert(t[a] == s[a] && t[b] == s[b]);
                }
            }
            assert forall|a: int, b: int| 0 <= a < t.len() && 0 <= b < t.len() && a != b && t[a].ip_address.len() > 0 implies t[a].ip_address != t[b].ip_address by {
                if a < s.len() && b < s.len() {
                    assert(t[a] == s[a] && t[b] == s[b]);
                }
            }
        }
        let ghost nv = node@;
        self.nodes.push(node);
        assert(self@ =~= s.push(nv));
        Ok(())
    }

    /// Applies a report from the node holding `report.token`.
    ///
    /// Refused as a bad request when the attributes or the measurements are
    /// empty, and as not found when no node holds the token; either way
    /// nothing changes and no node is created. Otherwise the reporting node
    /// is updated and every other node that shares the reported non-empty
    /// hostname or address is deleted: this eviction cannot be undone.
    pub fn report(&mut self, report: &Report, now: u64) -> (r: Result<(), RegistryError>)
        requires
            old(self).wf(),
        ensures
            final(self).wf(),
            (r, final(self)@) == report_outcome(old(self)@, report@, now),
    {
        if lacks_json_content(&report.meta) || lacks_json_content(&report.metrics) {
            return Err(RegistryError::BadRequest);
        }
        if self.find_token(&report.token).is_none() {
            return Err(RegistryError::NotFound);
        }
        let ghost s = self@;
        let ghost rv = report@;
        let mut rest: Vec<NodeRecord> = Vec::new();
        std::mem::swap(&mut self.nodes, &mut rest);
        assert(rest@.map_values(|n: NodeRecord| n@) =~= s.subrange(0, s.len() as int));
        assert(self@ =~= reconcile(s.subrange(0, 0), rv, now));
        let total = rest.len();
        let mut k: usize = 0;
        while rest.len() > 0
            invariant
                k + rest@.len() == s.len(),
                s.len() == total,
                rest@.map_values(|n: NodeRecord| n@) =~= s.subrange(k as int, s.len() as int),
                self@ == reconcile(s.subrange(0, k as int), rv, now),
                rv == report@,
            decreases rest@.len(),
        {
            let ghost before_rest = rest@;
            let ghost before = self@;
            let n = rest.remove(0);
            assert(n@ == s[k as int]) by {
                assert(before_rest.map_values(|n: NodeRecord| n@)[0] == s.subrange(
                    k as int,
                    s.len() as int,
                )[0]);
            }
            assert forall|j: int| 0 <= j < rest@.len() implies #[trigger] rest@[j]@ == s[k + 1 + j] by {
                assert(rest@[j] == before_rest[j + 1]);
                assert(before_rest.map_values(|n: NodeRecord| n@)[j + 1] == s.subrange(
                    k as int,
                    s.len() as int,
                )[j + 1]);
            }
            assert(rest@.map_values(|n: NodeRecord| n@) =~= s.subrange(k + 1, s.len() as int));
            assert(s.subrange(0, k + 1).drop_last() =~= s.subrange(0, k as int));
            assert(s.subrange(0, k + 1).last() == s[k as int]);
            if n.token == report.token {
                let mut m = n;
                let label_set = match &m.label {
                    Some(l) => !is_blank(l),
                    None => false,
                };
                if !label_set && !is_blank(&report.hostname) {
                    m.label = Some(report.hostname.clone());
                }
                if !is_blank(&report.hostname) {
                    m.hostname = report.hostname.clone();
                }
                m.ip_address = report.ip_address.clone();
                m.meta = Some(report.meta.clone());
                m.metrics = Some(report.metrics.clone());
                m.last_seen = Some(now);
                assert(m@ == after_report(s[k as int], rv, now));
                self.nodes.push(m);
                assert(self@ =~= before.push(m@));
            } else if (!is_blank(&report.hostname) && n.hostname == report.hostname) || (
            !is_blank(&report.ip_address) && n.ip_address == report.ip_address) {
                assert(collides(s[k as int], rv));
            } else {
                let ghost nv = n@;
                self.nodes.push(n);
                assert(self@ =~= before.push(nv));
            }
            k += 1;
        }
        assert(s.subrange(0, k as int) =~= s);
        proof {
            lemma_reconcile_well_formed(s, rv, now);
        }
        Ok(())
    }

    /// Replaces the label of the node holding `token`, whatever it was.
    pub fn rename(&mut self, token: &String, label: Option<String>) -> (r: Result<(), RegistryError>)
        requires
            old(self).wf(),
        ensures
            final(self).wf(),
            r is Ok <==> has_token(old(self)@, token@),
            r is Ok ==> exists|i: int|
                0 <= i < old(self)@.len() && old(self)@[i].token == token@ && final(self)@ == old(
                    self,
                )@.update(i, relabeled(old(self)@[i], opt_text(label))),
            r is Err ==> r == Err::<(), RegistryError>(RegistryError::NotFound) && final(self)@
                == old(self)@,
    {
        match self.find_token(token) {
            None => Err(RegistryError::NotFound),
            Some(i) => {
                let ghost s = self@;
                let ghost lv = opt_text(label);
                self.nodes[i].label = label;
                assert(self@ =~= s.update(i as int, relabeled(s[i as int], lv)));
                assert(well_formed(self@)) by {
                    assert forall|a: int| 0 <= a < s.len() implies self@[a].id == s[a].id
                        && self@[a].token == s[a].token
                        && self@[a].hostname == s[a].hostname && self@[a].ip_address
                        == s[a].ip_address by {}
                }
                Ok(())
            },
        }
    }

    /// Deletes the node holding `token`.
    pub fn delete(&mut self, token: &String) -> (r: Result<(), RegistryError>)
        requires
            old(self).wf(),
        ensures
            final(self).wf(),
            r is Ok <==> has_token(old(self)@, token@),
            r is Ok ==> exists|i: int|
                0 <= i < old(self)@.len() && old(self)@[i].token == token@ && final(self)@ == old(
                    self,
                )@.remove(i),
            r is Err ==> r == Err::<(), RegistryError>(RegistryError::NotFound) && final(self)@
                == old(self)@,
    {
        match self.find_token(token) {
            None => Err(RegistryError::NotFound),
            Some(i) => {
                let ghost s = self@;
                self.nodes.remove(i);
                assert(self@ =~= s.remove(i as int));
                proof {
                    lemma_delete_twice(s, i as int);
                }
                Ok(())
            },
        }
    }

    /// The status of every node, in order, all evaluated at the same `now`.
    pub fn statuses(&self, now: u64, offline_timeout_sec: u64) -> (r: Vec<NodeStatus>)
        ensures
            r@.len() == self@.len(),
            forall|i: int|
                0 <= i < r@.len() ==> r@[i] == status_spec(
                    self@[i].last_seen,
                    now,
                    offline_timeout_sec,
                ),
    {
        let mut out: Vec<NodeStatus> = Vec::new();
        let mut i: usize = 0;
        while i < self.nodes.len()
            invariant
                i <= self.nodes@.len(),
                self@.len() == self.nodes@.len(),
                out@.len() == i,
                forall|k: int|
                    0 <= k < i ==> out@[k] == status_spec(
                        self@[k].last_seen,
                        now,
                        offline_timeout_sec,
                    ),
            decreases self.nodes@.len() - i,
        {
            out.push(node_status(self.nodes[i].last_seen, now, offline_timeout_sec));
            i += 1;
        }
        out
    }
}

} // verus!
