use vstd::prelude::*;
use search::earliest_route;

mod search;

verus! {

/// A directed communication window from node `from` to node `to`, open over
/// the plan-relative interval `[start, end)`. `rate` is the announced data
/// rate; transit is modelled as instantaneous once inside the window, so the
/// rate does not shift arrival times.
#[derive(Clone, Copy, Debug, PartialEq, Eq, Structural)]
pub struct Contact {
    pub from: usize,
    pub to: usize,
    pub start: u64,
    pub end: u64,
    pub rate: u64,
}

/// The routed unit: a message from `source` to `destination`, of `size`
/// bytes, which must be delivered no later than `expiration`.
#[derive(Clone, Copy, Debug, PartialEq, Eq, Structural)]
pub struct Bundle {
    pub source: usize,
    pub destination: usize,
    pub priority: u8,
    pub size: u64,
    pub expiration: u64,
}

/// One hop of a route: the node reached, the index of the contact used to
/// reach it, and the plan-relative time at which the bundle arrives there.
#[derive(Clone, Copy, Debug, PartialEq, Eq, Structural)]
pub struct RouteStage {
    pub node: usize,
    pub contact: usize,
    pub arrival: u64,
}

/// A route found by the search: the time the bundle was injected at the
/// source and the hops taken, in order.
#[derive(Debug)]
pub struct RouteResult {
    pub injection_time: u64,
    pub stages: Vec<RouteStage>,
}

/// Contact-graph routing over a fixed contact plan. The router owns its
/// topology: `node_count` dense node IDs and the contacts between them. A
/// query holds no state between calls, so queries may run concurrently.
pub struct ContactGraphRouter {
    node_count: usize,
    contacts: Vec<Contact>,
}

/// Departure (and, with instantaneous transit, arrival) time when a bundle
/// that is ready at `t` takes a contact opening at `start`.
pub open spec fn departure(t: int, start: int) -> int {
    if t >= start { t } else { start }
}

/// Node that hop `i` of `p` leaves from.
pub open spec fn origin_of(source: usize, p: Seq<RouteStage>, i: int) -> usize {
    if i == 0 { source } else { p[i - 1].node }
}

/// Time at which the bundle is ready to leave for hop `i` of `p`.
pub open spec fn ready_at(t0: u64, p: Seq<RouteStage>, i: int) -> u64 {
    if i == 0 { t0 } else { p[i - 1].arrival }
}

/// Hop `i` of `p` is causal: it uses an existing contact out of the node the
/// bundle is at, leaves no earlier than the bundle is ready and while the
/// window is open, arrives no later than the deadline, and does not relay
/// through an excluded node.
pub open spec fn hop_ok(
    cs: Seq<Contact>,
    source: usize,
    t0: u64,
    deadline: u64,
    excluded: Seq<usize>,
    p: Seq<RouteStage>,
    i: int,
) -> bool {
    let c = cs[p[i].contact as int];
    &&& p[i].contact < cs.len()
    &&& c.from == origin_of(source, p, i)
    &&& c.to == p[i].node
    &&& p[i].arrival == departure(ready_at(t0, p, i) as int, c.start as int)
    &&& p[i].arrival < c.end
    &&& p[i].arrival <= deadline
    &&& (i > 0 ==> !excluded.contains(origin_of(source, p, i)))
}

/// Every hop of `p` is causal.
pub open spec fn valid_route(
    cs: Seq<Contact>,
    source: usize,
    t0: u64,
    deadline: u64,
    excluded: Seq<usize>,
    p: Seq<RouteStage>,
) -> bool {
    forall|i: int| 0 <= i < p.len() ==> #[trigger] hop_ok(cs, source, t0, deadline, excluded, p, i)
}

/// Node where the bundle is after following `p` from `source`.
pub open spec fn end_node(source: usize, p: Seq<RouteStage>) -> usize {
    if p.len() == 0 { source } else { p.last().node }
}

/// Time at which the bundle is there.
pub open spec fn end_time(t0: u64, p: Seq<RouteStage>) -> u64 {
    if p.len() == 0 { t0 } else { p.last().arrival }
}

/// `p` takes a bundle injected at `t0` from `source` to `dest`, causally.
pub open spec fn is_route(
    cs: Seq<Contact>,
    source: usize,
    dest: usize,
    t0: u64,
    deadline: u64,
    excluded: Seq<usize>,
    p: Seq<RouteStage>,
) -> bool {
    valid_route(cs, source, t0, deadline, excluded, p) && end_node(source, p) == dest
}

/// Contacts whose endpoints are all among `n` nodes.
pub open spec fn contacts_wf(n: int, cs: Seq<Contact>) -> bool {
    forall|j: int| 0 <= j < cs.len() ==> #[trigger] cs[j].from < n && cs[j].to < n
}

/// Dropping the last hop of a causal route leaves a causal route.
pub(crate) proof fn lemma_prefix_valid(
    cs: Seq<Contact>,
    source: usize,
    t0: u64,
    deadline: u64,
    excluded: Seq<usize>,
    p: Seq<RouteStage>,
)
    requires
        p.len() > 0,
        valid_route(cs, source, t0, deadline, excluded, p),
    ensures
        valid_route(cs, source, t0, deadline, excluded, p.drop_last()),
{
    let q = p.drop_last();
    assert forall|i: int| 0 <= i < q.len() implies #[trigger] hop_ok(
        cs,
        source,
        t0,
        deadline,
        excluded,
        q,
        i,
    ) by {
        assert(hop_ok(cs, source, t0, deadline, excluded, p, i));
        if i > 0 {
            assert(q[i - 1] == p[i - 1]);
        }
        assert(q[i] == p[i]);
    }
}

/// A causal route followed by one more causal hop is a causal route.
pub(crate) proof fn lemma_push_valid(
    cs: Seq<Contact>,
    source: usize,
    t0: u64,
    deadline: u64,
    excluded: Seq<usize>,
    p: Seq<RouteStage>,
    s: RouteStage,
)
    requires
        valid_route(cs, source, t0, deadline, excluded, p),
        hop_ok(cs, source, t0, deadline, excluded, p.push(s), p.len() as int),
    ensures
        valid_route(cs, source, t0, deadline, excluded, p.push(s)),
{
    let q = p.push(s);
    assert forall|i: int| 0 <= i < q.len() implies #[trigger] hop_ok(
        cs,
        source,
        t0,
        deadline,
        excluded,
        q,
        i,
    ) by {
        if i < p.len() {
            assert(hop_ok(cs, source, t0, deadline, excluded, p, i));
            if i > 0 {
                assert(q[i - 1] == p[i - 1]);
            }
            assert(q[i] == p[i]);
        }
    }
}

proof fn lemma_arrivals_from(
    cs: Seq<Contact>,
    source: usize,
    t0: u64,
    deadline: u64,
    excluded: Seq<usize>,
    p: Seq<RouteStage>,
    i: int,
)
    requires
        valid_route(cs, source, t0, deadline, excluded, p),
        0 <= i < p.len(),
    ensures
        p[i].arrival >= t0,
        i > 0 ==> p[i].arrival >= p[i - 1].arrival,
    decreases i,
{
    assert(hop_ok(cs, source, t0, deadline, excluded, p, i));
    if i > 0 {
        lemma_arrivals_from(cs, source, t0, deadline, excluded, p, i - 1);
    }
}

/// No time travel: along any causal route, every hop arrives no earlier
/// than the injection time and no earlier than the hop before it.
pub proof fn lemma_no_time_travel(
    cs: Seq<Contact>,
    source: usize,
    t0: u64,
    deadline: u64,
    excluded: Seq<usize>,
    p: Seq<RouteStage>,
)
    requires
        valid_route(cs, source, t0, deadline, excluded, p),
    ensures
        forall|i: int| 0 <= i < p.len() ==> #[trigger] p[i].arrival >= t0,
        forall|i: int| 0 < i < p.len() ==> #[trigger] p[i].arrival >= p[i - 1].arrival,
{
    assert forall|i: int| 0 <= i < p.len() implies #[trigger] p[i].arrival >= t0 by {
        lemma_arrivals_from(cs, source, t0, deadline, excluded, p, i);
    }
    assert forall|i: int| 0 < i < p.len() implies #[trigger] p[i].arrival >= p[i - 1].arrival by {
        lemma_arrivals_from(cs, source, t0, deadline, excluded, p, i);
    }
}

/// Exclusion: no excluded node is an intermediate hop of a causal route;
/// only the last hop may reach one.
pub proof fn lemma_excluded_not_relayed(
    cs: Seq<Contact>,
    source: usize,
    t0: u64,
    deadline: u64,
    excluded: Seq<usize>,
    p: Seq<RouteStage>,
)
    requires
        valid_route(cs, source, t0, deadline, excluded, p),
    ensures
        forall|i: int| 0 <= i < p.len() - 1 ==> !excluded.contains(#[trigger] p[i].node),
{
    assert forall|i: int| 0 <= i < p.len() - 1 implies !excluded.contains(#[trigger] p[i].node) by {
        assert(hop_ok(cs, source, t0, deadline, excluded, p, i + 1));
    }
}

/// `a` is preferred to `b`: it delivers earlier; or as early, with fewer
/// hops; or as early with as many hops, through a first hop of no higher
/// node ID.
pub open spec fn prefers(t0: u64, a: Seq<RouteStage>, b: Seq<RouteStage>) -> bool {
    ||| end_time(t0, a) < end_time(t0, b)
    ||| (end_time(t0, a) == end_time(t0, b) && a.len() < b.len())
    ||| (end_time(t0, a) == end_time(t0, b) && a.len() == b.len() && (a.len() == 0 || a[0].node
        <= b[0].node))
}

/// What a route query returns: `Some` exactly when a route exists, and then
/// a route injected at `t0` that is preferred to every route.
pub open spec fn preferred_route(
    cs: Seq<Contact>,
    source: usize,
    dest: usize,
    t0: u64,
    deadline: u64,
    excluded: Seq<usize>,
    r: Option<RouteResult>,
) -> bool {
    match r {
        Some(res) => {
            &&& res.injection_time == t0
            &&& is_route(cs, source, dest, t0, deadline, excluded, res.stages@)
            &&& forall|p: Seq<RouteStage>|
                #[trigger] is_route(cs, source, dest, t0, deadline, excluded, p) ==> prefers(
                    t0,
                    res.stages@,
                    p,
                )
        },
        None => forall|p: Seq<RouteStage>| !#[trigger] is_route(cs, source, dest, t0, deadline, excluded, p),
    }
}

proof fn lemma_prefers_trans(t0: u64, a: Seq<RouteStage>, b: Seq<RouteStage>, c: Seq<RouteStage>)
    requires
        prefers(t0, a, b),
        prefers(t0, b, c),
    ensures
        prefers(t0, a, c),
{
}

/// `c` as a contact of the search whose first hop must reach `f`: it leaves
/// from the fresh start node `n`, and only a contact from `source` to `f`
/// keeps its window; any other gets an empty one.
spec fn lift(c: Contact, source: usize, f: usize, n: usize) -> Contact {
    if c.from == source && c.to == f {
        Contact { from: n, to: c.to, start: c.start, end: c.end, rate: c.rate }
    } else {
        Contact { from: n, to: c.to, start: 0, end: 0, rate: c.rate }
    }
}

/// Contacts of the search whose first hop must reach `f`: the plan's
/// contacts, then each lifted to leave from the fresh start node `n`.
spec fn first_hop_contacts(cs: Seq<Contact>, source: usize, f: usize, n: usize) -> Seq<
    Contact,
> {
    Seq::new(
        2 * cs.len(),
        |i: int|
            if i < cs.len() {
                cs[i]
            } else {
                lift(cs[i - cs.len()], source, f, n)
            },
    )
}

/// A route of the plan as a route of the restricted search.
spec fn to_sub(p: Seq<RouteStage>, m: int) -> Seq<RouteStage> {
    p.update(0, RouteStage { node: p[0].node, contact: (p[0].contact + m) as usize, arrival: p[0].arrival })
}

/// A route of the restricted search as a route of the plan.
spec fn from_sub(q: Seq<RouteStage>, m: int) -> Seq<RouteStage> {
    q.update(0, RouteStage { node: q[0].node, contact: (q[0].contact - m) as usize, arrival: q[0].arrival })
}

/// Every route of the plan whose first hop reaches `f` is a route of the
/// restricted search, with the same hops, nodes and times.
proof fn lemma_to_sub(
    cs: Seq<Contact>,
    source: usize,
    f: usize,
    n: usize,
    d: usize,
    t0: u64,
    deadline: u64,
    excluded: Seq<usize>,
    p: Seq<RouteStage>,
)
    requires
        contacts_wf(n as int, cs),
        source < n,
        2 * cs.len() <= usize::MAX,
        is_route(cs, source, d, t0, deadline, excluded, p),
        p.len() > 0,
        p[0].node == f,
    ensures
        is_route(first_hop_contacts(cs, source, f, n), n, d, t0, deadline, excluded, to_sub(p, cs.len() as int)),
        to_sub(p, cs.len() as int).len() == p.len(),
        end_time(t0, to_sub(p, cs.len() as int)) == end_time(t0, p),
        to_sub(p, cs.len() as int)[0].node == f,
{
    let m = cs.len() as int;
    let cs2 = first_hop_contacts(cs, source, f, n);
    let q = to_sub(p, m);
    assert forall|i: int| 0 <= i < q.len() implies #[trigger] hop_ok(
        cs2,
        n,
        t0,
        deadline,
        excluded,
        q,
        i,
    ) by {
        assert(hop_ok(cs, source, t0, deadline, excluded, p, i));
        if i == 0 {
            assert(cs2[p[0].contact + m] == lift(cs[p[0].contact as int], source, f, n));
        } else {
            assert(q[i] == p[i]);
            assert(q[i - 1].node == p[i - 1].node && q[i - 1].arrival == p[i - 1].arrival);
            assert(cs2[p[i].contact as int] == cs[p[i].contact as int]);
        }
    }
    assert(q.last().node == p.last().node && q.last().arrival == p.last().arrival);
}

/// Every route of the restricted search to a node of the plan is a route of
/// the plan whose first hop reaches `f`, with the same hops, nodes and
/// times.
proof fn lemma_from_sub(
    cs: Seq<Contact>,
    source: usize,
    f: usize,
    n: usize,
    d: usize,
    t0: u64,
    deadline: u64,
    excluded: Seq<usize>,
    q: Seq<RouteStage>,
)
    requires
        contacts_wf(n as int, cs),
        source < n,
        d < n,
        is_route(first_hop_contacts(cs, source, f, n), n, d, t0, deadline, excluded, q),
    ensures
        q.len() > 0,
        q[0].contact >= cs.len(),
        is_route(cs, source, d, t0, deadline, excluded, from_sub(q, cs.len() as int)),
        from_sub(q, cs.len() as int).len() == q.len(),
        end_time(t0, from_sub(q, cs.len() as int)) == end_time(t0, q),
        from_sub(q, cs.len() as int)[0].node == f,
{
    let m = cs.len() as int;
    let cs2 = first_hop_contacts(cs, source, f, n);
    let p = from_sub(q, m);
    assert(q.len() > 0);
    assert(hop_ok(cs2, n, t0, deadline, excluded, q, 0));
    if q[0].contact < m {
        assert(cs2[q[0].contact as int] == cs[q[0].contact as int]);
    }
    let j0 = q[0].contact - m;
    assert(cs2[q[0].contact as int] == lift(cs[j0], source, f, n));
    assert forall|i: int| 0 <= i < q.len() implies #[trigger] hop_ok(
        cs,
        source,
        t0,
        deadline,
        excluded,
        p,
        i,
    ) by {
        assert(hop_ok(cs2, n, t0, deadline, excluded, q, i));
        if i > 0 {
            assert(hop_ok(cs2, n, t0, deadline, excluded, q, i - 1));
            let jp = q[i - 1].contact as int;
            if jp < m {
                assert(cs2[jp] == cs[jp]);
            } else {
                assert(cs2[jp] == lift(cs[jp - m], source, f, n));
            }
            assert(q[i - 1].node < n);
            if q[i].contact >= m {
                assert(cs2[q[i].contact as int] == lift(cs[q[i].contact - m], source, f, n));
            }
            assert(cs2[q[i].contact as int] == cs[q[i].contact as int]);
            assert(p[i] == q[i]);
            assert(p[i - 1].node == q[i - 1].node && p[i - 1].arrival == q[i - 1].arrival);
        }
    }
    assert(p.last().node == q.last().node && p.last().arrival == q.last().arrival);
}

/// `stages` with the contact of its first hop shifted back by `m`.
fn with_first_contact_shifted(stages: Vec<RouteStage>, m: usize) -> (r: Vec<RouteStage>)
    requires
        stages@.len() > 0,
        stages@[0].contact >= m,
    ensures
        r@ == from_sub(stages@, m as int),
{
    let mut r = stages;
    let s0 = r[0];
    r.set(0, RouteStage { node: s0.node, contact: s0.contact - m, arrival: s0.arrival });
    r
}

/// Determinism: two route queries with the same plan, endpoints, injection
/// time, deadline and exclusions agree on whether a route exists, on its
/// delivery time, on its number of hops and on its next hop.
pub proof fn lemma_route_deterministic(
    cs: Seq<Contact>,
    source: usize,
    dest: usize,
    t0: u64,
    deadline: u64,
    excluded: Seq<usize>,
    r1: Option<RouteResult>,
    r2: Option<RouteResult>,
)
    requires
        preferred_route(cs, source, dest, t0, deadline, excluded, r1),
        preferred_route(cs, source, dest, t0, deadline, excluded, r2),
    ensures
        r1.is_some() == r2.is_some(),
        r1.is_some() ==> end_time(t0, r1.unwrap().stages@) == end_time(t0, r2.unwrap().stages@),
        r1.is_some() ==> r1.unwrap().stages@.len() == r2.unwrap().stages@.len(),
        r1.is_some() && r1.unwrap().stages@.len() > 0 ==> r1.unwrap().stages@[0].node
            == r2.unwrap().stages@[0].node,
{
    if r1.is_some() {
        assert(is_route(cs, source, dest, t0, deadline, excluded, r1.unwrap().stages@));
    }
    if r2.is_some() {
        assert(is_route(cs, source, dest, t0, deadline, excluded, r2.unwrap().stages@));
    }
}

impl ContactGraphRouter {
    pub closed spec fn spec_node_count(&self) -> usize {
        self.node_count
    }

    pub closed spec fn spec_contacts(&self) -> Seq<Contact> {
        self.contacts@
    }

    pub open spec fn wf(&self) -> bool {
        contacts_wf(self.spec_node_count() as int, self.spec_contacts())
    }

    /// Builds a router that owns the given topology.
    pub fn new(node_count: usize, contacts: Vec<Contact>) -> (r: Self)
        requires
            contacts_wf(node_count as int, contacts@),
        ensures
            r.wf(),
            r.spec_node_count() == node_count,
            r.spec_contacts() == contacts@,
    {
        ContactGraphRouter { node_count, contacts }
    }

    /// The router of the search whose first hop must reach `f`: one more
    /// node, the fresh start node `n`, and the contacts of
    /// `first_hop_contacts`.
    fn first_hop_router(&self, source: usize, f: usize) -> (r: Self)
        requires
            self.wf(),
            source < self.spec_node_count(),
            self.spec_node_count() < usize::MAX,
        ensures
            r.wf(),
            r.spec_node_count() == self.spec_node_count() + 1,
            r.spec_contacts() == first_hop_contacts(
                self.spec_contacts(),
                source,
                f,
                self.spec_node_count(),
            ),
    {
        let n = self.node_count;
        let ghost cs = self.contacts@;
        let mut out: Vec<Contact> = Vec::new();
        let mut j: usize = 0;
        while j < self.contacts.len()
            invariant
                cs == self.contacts@,
                j <= cs.len(),
                out@ == cs.take(j as int),
            decreases self.contacts.len() - j,
        {
            out.push(self.contacts[j]);
            j += 1;
            assert(out@ =~= cs.take(j as int));
        }
        let mut j: usize = 0;
        while j < self.contacts.len()
            invariant
                cs == self.contacts@,
                j <= cs.len(),
                out@.len() == cs.len() + j,
                forall|i: int| 0 <= i < cs.len() ==> #[trigger] out@[i] == cs[i],
                forall|i: int|
                    0 <= i < j ==> #[trigger] out@[cs.len() + i] == lift(cs[i], source, f, n),
            decreases self.contacts.len() - j,
        {
            let c = self.contacts[j];
            if c.from == source && c.to == f {
                out.push(Contact { from: n, to: c.to, start: c.start, end: c.end, rate: c.rate });
            } else {
                out.push(Contact { from: n, to: c.to, start: 0, end: 0, rate: c.rate });
            }
            j += 1;
        }
        assert(out@ =~= first_hop_contacts(cs, source, f, n)) by {
            assert forall|i: int| 0 <= i < out@.len() implies out@[i] == first_hop_contacts(
                cs,
                source,
                f,
                n,
            )[i] by {
                if i >= cs.len() {
                    assert(out@[cs.len() + (i - cs.len())] == lift(cs[i - cs.len()], source, f, n));
                }
            }
        }
        assert(contacts_wf((n + 1) as int, out@)) by {
            assert forall|i: int| 0 <= i < out@.len() implies #[trigger] out@[i].from < n + 1
                && out@[i].to < n + 1 by {
                if i >= cs.len() {
                    assert(out@[cs.len() + (i - cs.len())] == lift(cs[i - cs.len()], source, f, n));
                    assert(cs[i - cs.len()].to < n);
                } else {
                    assert(cs[i].from < n && cs[i].to < n);
                }
            }
        }
        ContactGraphRouter { node_count: n + 1, contacts: out }
    }

    /// Route query from `source` to the bundle's destination for a bundle
    /// injected at `current_time`, relaying through no node of `excluded`.
    /// `Some` exactly when a causal route exists; the route returned is
    /// preferred to every other: it delivers earliest, then has the fewest
    /// hops, then the lowest next-hop node ID.
    pub fn route(
        &self,
        source: usize,
        bundle: &Bundle,
        current_time: u64,
        excluded: &Vec<usize>,
    ) -> (r: Option<RouteResult>)
        requires
            self.wf(),
            source < self.spec_node_count(),
            bundle.destination < self.spec_node_count(),
            source != bundle.destination ==> self.spec_node_count() < usize::MAX,
        ensures
            preferred_route(
                self.spec_contacts(),
                source,
                bundle.destination,
                current_time,
                bundle.expiration,
                excluded@,
                r,
            ),
    {
        let ghost cs = self.contacts@;
        let ghost dl = bundle.expiration;
        let ghost ex = excluded@;
        let t0 = current_time;
        let dest = bundle.destination;
        let n = self.node_count;
        if source == dest {
            proof {
                let empty = Seq::<RouteStage>::empty();
                assert(is_route(cs, source, dest, t0, dl, ex, empty));
                assert forall|p: Seq<RouteStage>| #[trigger] is_route(cs, source, dest, t0, dl, ex, p) implies prefers(
                    t0,
                    empty,
                    p,
                ) by {
                    lemma_no_time_travel(cs, source, t0, dl, ex, p);
                    if p.len() > 0 {
                        assert(p[p.len() - 1].arrival >= t0);
                    }
                }
            }
            return Some(RouteResult { injection_time: t0, stages: Vec::new() });
        }
        let m = self.contacts.len();
        let mut chosen: Option<RouteResult> = None;
        let mut f: usize = 0;
        while f < n
            invariant
                self.wf(),
                cs == self.contacts@,
                n == self.spec_node_count(),
                n < usize::MAX,
                m == cs.len(),
                dl == bundle.expiration,
                ex == excluded@,
                dest == bundle.destination,
                source < n,
                dest < n,
                source != dest,
                f <= n,
                chosen matches Some(b) ==> {
                    &&& b.injection_time == t0
                    &&& is_route(cs, source, dest, t0, dl, ex, b.stages@)
                    &&& b.stages@.len() > 0
                    &&& b.stages@[0].node < f
                },
                forall|p: Seq<RouteStage>|
                    #[trigger] is_route(cs, source, dest, t0, dl, ex, p) && p.len() > 0 && p[0].node
                        < f ==> (chosen matches Some(b) && prefers(t0, b.stages@, p)),
            decreases n - f,
        {
            let sub = self.first_hop_router(source, f);
            let ghost cs2 = first_hop_contacts(cs, source, f, n);
            let sub_len = sub.contacts().len();
            assert(2 * cs.len() <= usize::MAX);
            match sub.search(n, dest, bundle.expiration, t0, excluded) {
                Some(res) => {
                    let ghost q = res.stages@;
                    proof {
                        lemma_from_sub(cs, source, f, n, dest, t0, dl, ex, q);
                    }
                    let k = res.stages.len();
                    let e = res.stages[k - 1].arrival;
                    let stages = with_first_contact_shifted(res.stages, m);
                    let ghost pf = stages@;
                    proof {
                        assert(end_time(t0, q) == e);
                        assert forall|p: Seq<RouteStage>|
                            #[trigger] is_route(cs, source, dest, t0, dl, ex, p) && p.len() > 0
                                && p[0].node == f implies prefers(t0, pf, p) by {
                            lemma_to_sub(cs, source, f, n, dest, t0, dl, ex, p);
                            assert(is_route(cs2, n, dest, t0, dl, ex, to_sub(p, m as int)));
                        }
                    }
                    let better = match &chosen {
                        None => true,
                        Some(b) => {
                            let bk = b.stages.len();
                            let be = b.stages[bk - 1].arrival;
                            e < be || (e == be && k < bk)
                        },
                    };
                    if better {
                        proof {
                            assert forall|p: Seq<RouteStage>|
                                #[trigger] is_route(cs, source, dest, t0, dl, ex, p) && p.len() > 0
                                    && p[0].node < f + 1 implies prefers(t0, pf, p) by {
                                if p[0].node < f {
                                    let b = chosen.unwrap().stages@;
                                    lemma_prefers_trans(t0, pf, b, p);
                                }
                            }
                        }
                        chosen = Some(RouteResult { injection_time: t0, stages });
                    } else {
                        proof {
                            let b = chosen.unwrap().stages@;
                            assert forall|p: Seq<RouteStage>|
                                #[trigger] is_route(cs, source, dest, t0, dl, ex, p) && p.len() > 0
                                    && p[0].node < f + 1 implies prefers(t0, b, p) by {
                                if p[0].node == f {
                                    assert(prefers(t0, pf, p));
                                }
                            }
                        }
                    }
                },
                None => {
                    proof {
                        assert forall|p: Seq<RouteStage>|
                            #[trigger] is_route(cs, source, dest, t0, dl, ex, p) && p.len() > 0
                                && p[0].node < f + 1 implies (chosen matches Some(b) && prefers(
                            t0,
                            b.stages@,
                            p,
                        )) by {
                            if p[0].node == f {
                                lemma_to_sub(cs, source, f, n, dest, t0, dl, ex, p);
                                assert(is_route(cs2, n, dest, t0, dl, ex, to_sub(p, m as int)));
                            }
                        }
                    }
                },
            }
            f += 1;
        }
        proof {
            assert forall|p: Seq<RouteStage>| #[trigger] is_route(cs, source, dest, t0, dl, ex, p) implies (chosen matches Some(
                b,
            ) && prefers(t0, b.stages@, p)) by {
                assert(p.len() > 0);
                assert(hop_ok(cs, source, t0, dl, ex, p, 0));
                assert(cs[p[0].contact as int].to < n);
            }
        }
        chosen
    }

    pub fn node_count(&self) -> (r: usize)
        ensures
            r == self.spec_node_count(),
    {
        self.node_count
    }

    pub fn contacts(&self) -> (r: &Vec<Contact>)
        ensures
            r@ == self.spec_contacts(),
    {
        &self.contacts
    }
}
} // verus!
