//! The earliest-arrival search behind route queries: synchronous rounds of
//! relaxation over the contacts, each extending recorded routes by at most
//! one hop, until a round changes nothing.

use vstd::prelude::*;
use super::{
    contacts_wf, departure, end_node, end_time, hop_ok, is_route, lemma_prefix_valid, lemma_push_valid,
    valid_route, Contact, ContactGraphRouter, RouteResult, RouteStage,
};

verus! {

/// What a search returns: `Some` exactly when a route exists, and then a
/// route injected at `t0` whose delivery time no other route beats, and
/// that has no more hops than any other route delivering as early.
pub(crate) open spec fn earliest_route(
    cs: Seq<Contact>,
    source: usize,
    dest: usize,
    t0: u64,
    deadline: u64,
    excluded: Seq<usize>,
    r: Option<RouteResult>,
) -> bool {
    match r {
        Some(res) => {
            &&& res.injection_time == t0
            &&& is_route(cs, source, dest, t0, deadline, excluded, res.stages@)
            &&& forall|p: Seq<RouteStage>|
                #[trigger] is_route(cs, source, dest, t0, deadline, excluded, p) ==> {
                    &&& end_time(t0, res.stages@) <= end_time(t0, p)
                    &&& end_time(t0, res.stages@) == end_time(t0, p) ==> res.stages@.len()
                        <= p.len()
                }
        },
        None => forall|p: Seq<RouteStage>| !#[trigger] is_route(cs, source, dest, t0, deadline, excluded, p),
    }
}

/// Weight of node `i` in the search: its best known arrival time, or one past
/// the largest time while it is unreached.
spec fn weight(best: Seq<u64>, reached: Seq<bool>, i: int) -> int {
    if reached[i] { best[i] as int } else { u64::MAX as int + 1 }
}

/// Sum of the weights of the first `k` nodes; every improvement lowers it.
spec fn potential(best: Seq<u64>, reached: Seq<bool>, k: int) -> int
    decreases k,
{
    if k <= 0 { 0 } else { potential(best, reached, k - 1) + weight(best, reached, k - 1) }
}

/// Every node the search has reached has a recorded route from the source
/// that delivers at its best known time.
spec fn search_state(
    cs: Seq<Contact>,
    source: usize,
    t0: u64,
    deadline: u64,
    excluded: Seq<usize>,
    n: usize,
    best: Seq<u64>,
    reached: Seq<bool>,
    paths: Seq<Vec<RouteStage>>,
) -> bool {
    &&& best.len() == n
    &&& reached.len() == n
    &&& paths.len() == n
    &&& source < n
    &&& reached[source as int]
    &&& best[source as int] == t0
    &&& paths[source as int]@.len() == 0
    &&& forall|v: int|
        0 <= v < n && #[trigger] reached[v] ==> {
            &&& is_route(cs, source, v as usize, t0, deadline, excluded, paths[v]@)
            &&& end_time(t0, paths[v]@) == best[v]
            &&& best[v] >= t0
        }
}

/// Contact `j` offers no improvement over what the search knows.
spec fn relaxed(
    cs: Seq<Contact>,
    source: usize,
    deadline: u64,
    excluded: Seq<usize>,
    best: Seq<u64>,
    reached: Seq<bool>,
    j: int,
) -> bool {
    let c = cs[j];
    let d = departure(best[c.from as int] as int, c.start as int);
    (reached[c.from as int] && (c.from == source || !excluded.contains(c.from)) && d < c.end
        && d <= deadline) ==> (reached[c.to as int] && best[c.to as int] <= d)
}

proof fn lemma_potential_nonneg(best: Seq<u64>, reached: Seq<bool>, k: int)
    ensures
        potential(best, reached, k) >= 0,
    decreases k,
{
    if k > 0 {
        lemma_potential_nonneg(best, reached, k - 1);
    }
}

/// Lowering the weight of node `v` alone lowers the potential of every
/// prefix that holds `v`.
proof fn lemma_potential_update(
    b1: Seq<u64>,
    r1: Seq<bool>,
    b2: Seq<u64>,
    r2: Seq<bool>,
    v: int,
    k: int,
)
    requires
        0 <= v,
        forall|i: int| 0 <= i < k && i != v ==> weight(b1, r1, i) == weight(b2, r2, i),
        weight(b2, r2, v) < weight(b1, r1, v),
    ensures
        k > v ==> potential(b2, r2, k) < potential(b1, r1, k),
        k <= v ==> potential(b2, r2, k) == potential(b1, r1, k),
    decreases k,
{
    if k > 0 {
        lemma_potential_update(b1, r1, b2, r2, v, k - 1);
    }
}

/// Once no contact offers an improvement, the best known time of every node
/// is no later than the delivery time of any causal route to it.
proof fn lemma_fixpoint_optimal(
    cs: Seq<Contact>,
    source: usize,
    t0: u64,
    deadline: u64,
    excluded: Seq<usize>,
    best: Seq<u64>,
    reached: Seq<bool>,
    p: Seq<RouteStage>,
)
    requires
        reached[source as int],
        best[source as int] == t0,
        forall|j: int| 0 <= j < cs.len() ==> #[trigger] relaxed(cs, source, deadline, excluded, best, reached, j),
        valid_route(cs, source, t0, deadline, excluded, p),
    ensures
        reached[end_node(source, p) as int],
        best[end_node(source, p) as int] <= end_time(t0, p),
    decreases p.len(),
{
    if p.len() > 0 {
        let q = p.drop_last();
        let i = p.len() - 1;
        lemma_prefix_valid(cs, source, t0, deadline, excluded, p);
        lemma_fixpoint_optimal(cs, source, t0, deadline, excluded, best, reached, q);
        assert(hop_ok(cs, source, t0, deadline, excluded, p, i));
        let j = p[i].contact as int;
        assert(relaxed(cs, source, deadline, excluded, best, reached, j));
        if i > 0 {
            assert(q.last() == p[i - 1]);
        }
    }
}

/// After `k` rounds: no route of at most `k` hops reaches a node earlier
/// than its best known time, and none that reaches it at that time has
/// fewer hops than its recorded route.
spec fn hop_optimal(
    cs: Seq<Contact>,
    source: usize,
    t0: u64,
    deadline: u64,
    excluded: Seq<usize>,
    n: usize,
    best: Seq<u64>,
    reached: Seq<bool>,
    paths: Seq<Vec<RouteStage>>,
    k: int,
) -> bool {
    forall|v: usize, q: Seq<RouteStage>|
        v < n && #[trigger] is_route(cs, source, v, t0, deadline, excluded, q) && q.len() <= k ==> {
            &&& reached[v as int]
            &&& best[v as int] <= end_time(t0, q)
            &&& best[v as int] == end_time(t0, q) ==> paths[v as int]@.len() <= q.len()
        }
}

/// Contact `j`, taken from the state before a round (`ob`, `or`), offers
/// no improvement over the state during it.
spec fn relaxed_from(
    cs: Seq<Contact>,
    source: usize,
    deadline: u64,
    excluded: Seq<usize>,
    ob: Seq<u64>,
    or: Seq<bool>,
    best: Seq<u64>,
    reached: Seq<bool>,
    j: int,
) -> bool {
    let c = cs[j];
    let d = departure(ob[c.from as int] as int, c.start as int);
    (or[c.from as int] && (c.from == source || !excluded.contains(c.from)) && d < c.end && d
        <= deadline) ==> (reached[c.to as int] && best[c.to as int] <= d)
}

/// One round extends what `hop_optimal` covers by one hop.
proof fn lemma_round_step(
    cs: Seq<Contact>,
    source: usize,
    t0: u64,
    deadline: u64,
    excluded: Seq<usize>,
    n: usize,
    ob: Seq<u64>,
    or: Seq<bool>,
    op: Seq<Vec<RouteStage>>,
    best: Seq<u64>,
    reached: Seq<bool>,
    paths: Seq<Vec<RouteStage>>,
    k: int,
    v: usize,
    q: Seq<RouteStage>,
)
    requires
        0 <= k,
        v < n,
        contacts_wf(n as int, cs),
        search_state(cs, source, t0, deadline, excluded, n, ob, or, op),
        hop_optimal(cs, source, t0, deadline, excluded, n, ob, or, op, k),
        forall|j: int|
            0 <= j < cs.len() ==> #[trigger] relaxed_from(
                cs,
                source,
                deadline,
                excluded,
                ob,
                or,
                best,
                reached,
                j,
            ),
        forall|w: int| 0 <= w < n && #[trigger] or[w] ==> reached[w] && best[w] <= ob[w],
        forall|w: int|
            0 <= w < n && or[w] && #[trigger] best[w] == ob[w] ==> paths[w]@ == op[w]@,
        forall|w: int| 0 <= w < n && #[trigger] reached[w] ==> paths[w]@.len() <= k + 1,
        is_route(cs, source, v, t0, deadline, excluded, q),
        q.len() <= k + 1,
    ensures
        reached[v as int],
        best[v as int] <= end_time(t0, q),
        best[v as int] == end_time(t0, q) ==> paths[v as int]@.len() <= q.len(),
{
    if q.len() <= k {
        assert(or[v as int] && ob[v as int] <= end_time(t0, q));
    } else {
        let i = q.len() - 1;
        let qp = q.drop_last();
        lemma_prefix_valid(cs, source, t0, deadline, excluded, q);
        assert(hop_ok(cs, source, t0, deadline, excluded, q, i));
        let j = q[i].contact as int;
        let u = cs[j].from;
        if i > 0 {
            assert(qp.last() == q[i - 1]);
        }
        assert(is_route(cs, source, u, t0, deadline, excluded, qp));
        assert(u < n);
        assert(or[u as int] && ob[u as int] <= end_time(t0, qp));
        assert(relaxed_from(cs, source, deadline, excluded, ob, or, best, reached, j));
    }
}

/// A copy of a sequence of times.
fn copy_times(v: &Vec<u64>) -> (r: Vec<u64>)
    ensures
        r@ == v@,
{
    let mut r: Vec<u64> = Vec::new();
    let mut k: usize = 0;
    while k < v.len()
        invariant
            k <= v@.len(),
            r@ == v@.take(k as int),
        decreases v.len() - k,
    {
        r.push(v[k]);
        k += 1;
        assert(r@ =~= v@.take(k as int));
    }
    assert(r@ =~= v@);
    r
}

/// A copy of a sequence of flags.
fn copy_flags(v: &Vec<bool>) -> (r: Vec<bool>)
    ensures
        r@ == v@,
{
    let mut r: Vec<bool> = Vec::new();
    let mut k: usize = 0;
    while k < v.len()
        invariant
            k <= v@.len(),
            r@ == v@.take(k as int),
        decreases v.len() - k,
    {
        r.push(v[k]);
        k += 1;
        assert(r@ =~= v@.take(k as int));
    }
    assert(r@ =~= v@);
    r
}

/// A copy of a sequence of routes.
fn copy_paths(v: &Vec<Vec<RouteStage>>) -> (r: Vec<Vec<RouteStage>>)
    ensures
        r@.len() == v@.len(),
        forall|i: int| 0 <= i < v@.len() ==> #[trigger] r@[i]@ == v@[i]@,
{
    let mut r: Vec<Vec<RouteStage>> = Vec::new();
    let mut k: usize = 0;
    while k < v.len()
        invariant
            k <= v@.len(),
            r@.len() == k,
            forall|i: int| 0 <= i < k ==> #[trigger] r@[i]@ == v@[i]@,
        decreases v.len() - k,
    {
        r.push(copied(&v[k]));
        k += 1;
    }
    r
}

/// Whether `u` is among the excluded nodes.
fn is_excluded(excluded: &Vec<usize>, u: usize) -> (r: bool)
    ensures
        r == excluded@.contains(u),
{
    let mut k: usize = 0;
    while k < excluded.len()
        invariant
            k <= excluded@.len(),
            forall|i: int| 0 <= i < k ==> excluded@[i] != u,
        decreases excluded.len() - k,
    {
        if excluded[k] == u {
            return true;
        }
        k += 1;
    }
    false
}

/// A copy of `p` with `s` appended.
fn extended(p: &Vec<RouteStage>, s: RouteStage) -> (r: Vec<RouteStage>)
    ensures
        r@ == p@.push(s),
{
    let mut r: Vec<RouteStage> = Vec::new();
    let mut k: usize = 0;
    while k < p.len()
        invariant
            k <= p@.len(),
            r@ == p@.take(k as int),
        decreases p.len() - k,
    {
        r.push(p[k]);
        k += 1;
        assert(r@ =~= p@.take(k as int));
    }
    assert(r@ =~= p@);
    r.push(s);
    r
}

/// A copy of `p`.
fn copied(p: &Vec<RouteStage>) -> (r: Vec<RouteStage>)
    ensures
        r@ == p@,
{
    let mut r: Vec<RouteStage> = Vec::new();
    let mut k: usize = 0;
    while k < p.len()
        invariant
            k <= p@.len(),
            r@ == p@.take(k as int),
        decreases p.len() - k,
    {
        r.push(p[k]);
        k += 1;
        assert(r@ =~= p@.take(k as int));
    }
    assert(r@ =~= p@);
    r
}

impl ContactGraphRouter {
    /// Earliest-arrival search from `source` to `destination` for a bundle
    /// injected at `current_time` and due by `expiration`, relaying through
    /// no node of `excluded`. Among the earliest routes it returns one with
    /// the fewest hops.
    pub(crate) fn search(
        &self,
        source: usize,
        destination: usize,
        expiration: u64,
        current_time: u64,
        excluded: &Vec<usize>,
    ) -> (r: Option<RouteResult>)
        requires
            self.wf(),
            source < self.spec_node_count(),
            destination < self.spec_node_count(),
        ensures
            earliest_route(
                self.spec_contacts(),
                source,
                destination,
                current_time,
                expiration,
                excluded@,
                r,
            ),
    {
        let n = self.node_count;
        let ghost cs = self.contacts@;
        let ghost dl = expiration;
        let ghost ex = excluded@;
        let mut best: Vec<u64> = Vec::new();
        let mut reached: Vec<bool> = Vec::new();
        let mut paths: Vec<Vec<RouteStage>> = Vec::new();
        let mut i: usize = 0;
        while i < n
            invariant
                i <= n,
                source < n,
                best@.len() == i,
                reached@.len() == i,
                paths@.len() == i,
                forall|v: int| 0 <= v < i ==> #[trigger] reached@[v] == (v == source),
                forall|v: int| 0 <= v < i ==> #[trigger] paths@[v]@.len() == 0,
                i > source ==> best@[source as int] == current_time,
            decreases n - i,
        {
            if i == source {
                best.push(current_time);
                reached.push(true);
            } else {
                best.push(0);
                reached.push(false);
            }
            paths.push(Vec::new());
            i += 1;
        }
        proof {
            assert forall|v: usize, q: Seq<RouteStage>|
                v < n && #[trigger] is_route(cs, source, v, current_time, dl, ex, q) && q.len()
                    <= 0 implies {
                &&& reached@[v as int]
                &&& best@[v as int] <= end_time(current_time, q)
                &&& best@[v as int] == end_time(current_time, q) ==> paths@[v as int]@.len()
                    <= q.len()
            } by {}
        }
        // Each round extends every recorded route by at most one hop, reading
        // only the state the round started from, until a round changes
        // nothing.
        let ghost mut k: int = 0;
        loop
            invariant
                self.wf(),
                n == self.spec_node_count(),
                cs == self.contacts@,
                dl == expiration,
                ex == excluded@,
                0 <= k,
                search_state(cs, source, current_time, dl, ex, n, best@, reached@, paths@),
                hop_optimal(cs, source, current_time, dl, ex, n, best@, reached@, paths@, k),
                forall|w: int| 0 <= w < n && #[trigger] reached@[w] ==> paths@[w]@.len() <= k,
            ensures
                0 <= k,
                search_state(cs, source, current_time, dl, ex, n, best@, reached@, paths@),
                hop_optimal(cs, source, current_time, dl, ex, n, best@, reached@, paths@, k),
                forall|w: int| 0 <= w < n && #[trigger] reached@[w] ==> paths@[w]@.len() <= k,
                forall|j: int| 0 <= j < cs.len() ==> #[trigger] relaxed(cs, source, dl, ex, best@, reached@, j),
            decreases potential(best@, reached@, n as int),
        {
            let ob = copy_times(&best);
            let or = copy_flags(&reached);
            let op = copy_paths(&paths);
            let mut changed = false;
            let mut j: usize = 0;
            while j < self.contacts.len()
                invariant
                    self.wf(),
                    n == self.spec_node_count(),
                    cs == self.contacts@,
                    dl == expiration,
                    ex == excluded@,
                    0 <= k,
                    j <= cs.len(),
                    search_state(cs, source, current_time, dl, ex, n, ob@, or@, op@),
                    forall|w: int| 0 <= w < n && #[trigger] or@[w] ==> op@[w]@.len() <= k,
                    search_state(cs, source, current_time, dl, ex, n, best@, reached@, paths@),
                    potential(best@, reached@, n as int) <= potential(ob@, or@, n as int),
                    changed ==> potential(best@, reached@, n as int) < potential(
                        ob@,
                        or@,
                        n as int,
                    ),
                    !changed ==> best@ == ob@ && reached@ == or@,
                    forall|w: int|
                        0 <= w < n && #[trigger] or@[w] ==> reached@[w] && best@[w] <= ob@[w],
                    forall|w: int|
                        0 <= w < n && or@[w] && #[trigger] best@[w] == ob@[w] ==> paths@[w]@
                            == op@[w]@,
                    forall|w: int| 0 <= w < n && #[trigger] reached@[w] ==> paths@[w]@.len() <= k + 1,
                    forall|i: int|
                        0 <= i < j ==> #[trigger] relaxed_from(
                            cs,
                            source,
                            dl,
                            ex,
                            ob@,
                            or@,
                            best@,
                            reached@,
                            i,
                        ),
                decreases cs.len() - j,
            {
                let c = self.contacts[j];
                let u = c.from;
                assert(cs[j as int].from < n && cs[j as int].to < n);
                if or[u] && (u == source || !is_excluded(excluded, u)) {
                    let d = if ob[u] >= c.start {
                        ob[u]
                    } else {
                        c.start
                    };
                    let v = c.to;
                    if d < c.end && d <= expiration && (!reached[v] || d < best[v]) {
                        let stage = RouteStage { node: v, contact: j, arrival: d };
                        let np = extended(&op[u], stage);
                        proof {
                            let pu = op@[u as int]@;
                            assert(is_route(cs, source, u, current_time, dl, ex, pu));
                            if pu.len() > 0 {
                                assert(u != source);
                                assert(pu.push(stage)[pu.len() - 1] == pu.last());
                            }
                            assert(hop_ok(
                                cs,
                                source,
                                current_time,
                                dl,
                                ex,
                                pu.push(stage),
                                pu.len() as int,
                            ));
                            lemma_push_valid(cs, source, current_time, dl, ex, pu, stage);
                        }
                        let ghost b1 = best@;
                        let ghost r1 = reached@;
                        let ghost paths_before = paths@;
                        best.set(v, d);
                        reached.set(v, true);
                        paths.set(v, np);
                        proof {
                            lemma_potential_update(b1, r1, best@, reached@, v as int, n as int);
                            assert forall|w: int| 0 <= w < n && #[trigger] reached@[w] implies {
                                &&& is_route(
                                    cs,
                                    source,
                                    w as usize,
                                    current_time,
                                    dl,
                                    ex,
                                    paths@[w]@,
                                )
                                &&& end_time(current_time, paths@[w]@) == best@[w]
                                &&& best@[w] >= current_time
                            } by {
                                if w != v as int {
                                    assert(r1[w]);
                                }
                            }
                            assert forall|w: int|
                                0 <= w < n && or@[w] && #[trigger] best@[w] == ob@[w] implies paths@[w]@
                                == op@[w]@ by {
                                if w == v as int {
                                    assert(b1[w] <= ob@[w]);
                                } else {
                                    assert(paths_before[w] == paths@[w]);
                                }
                            }
                            assert forall|i: int|
                                0 <= i < j implies #[trigger] relaxed_from(
                                cs,
                                source,
                                dl,
                                ex,
                                ob@,
                                or@,
                                best@,
                                reached@,
                                i,
                            ) by {
                                assert(relaxed_from(cs, source, dl, ex, ob@, or@, b1, r1, i));
                            }
                        }
                        changed = true;
                    }
                }
                j += 1;
            }
            proof {
                assert forall|v: usize, q: Seq<RouteStage>|
                    v < n && #[trigger] is_route(cs, source, v, current_time, dl, ex, q) && q.len()
                        <= k + 1 implies {
                    &&& reached@[v as int]
                    &&& best@[v as int] <= end_time(current_time, q)
                    &&& best@[v as int] == end_time(current_time, q) ==> paths@[v as int]@.len()
                        <= q.len()
                } by {
                    lemma_round_step(
                        cs,
                        source,
                        current_time,
                        dl,
                        ex,
                        n,
                        ob@,
                        or@,
                        op@,
                        best@,
                        reached@,
                        paths@,
                        k,
                        v,
                        q,
                    );
                }
                k = k + 1;
            }
            if !changed {
                proof {
                    assert forall|j: int| 0 <= j < cs.len() implies #[trigger] relaxed(
                        cs,
                        source,
                        dl,
                        ex,
                        best@,
                        reached@,
                        j,
                    ) by {
                        assert(relaxed_from(cs, source, dl, ex, ob@, or@, best@, reached@, j));
                    }
                }
                break;
            }
            proof {
                lemma_potential_nonneg(best@, reached@, n as int);
            }
        }
        let dest = destination;
        proof {
            assert forall|p: Seq<RouteStage>|
                #[trigger] is_route(cs, source, dest, current_time, dl, ex, p) implies {
                &&& reached@[dest as int]
                &&& best@[dest as int] <= end_time(current_time, p)
                &&& best@[dest as int] == end_time(current_time, p) ==> paths@[dest as int]@.len()
                    <= p.len()
            } by {
                lemma_fixpoint_optimal(cs, source, current_time, dl, ex, best@, reached@, p);
                if p.len() <= k {
                    assert(hop_optimal(cs, source, current_time, dl, ex, n, best@, reached@, paths@, k));
                }
            }
        }
        if reached[dest] {
            Some(RouteResult { injection_time: current_time, stages: copied(&paths[dest]) })
        } else {
            None
        }
    }
}

} // verus!
