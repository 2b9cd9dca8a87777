use vstd::prelude::*;
use vstd::string::StringSliceAdditionalSpecFns;
use crate::plan::{parse_contact_plan, plan_of, ContactPlan, ParseError};
use crate::registry::{id_of, NodeRegistry};
use crate::router::{
    end_time, is_route, lemma_no_time_travel, Bundle, Contact,
    ContactGraphRouter, RouteStage,
};

verus! {

/// Why a prediction service could not be built or a prediction made.
#[derive(Debug, PartialEq, Eq)]
pub enum PredictionError {
    /// The contact plan has a malformed line.
    ParseError(ParseError),
    /// No node has this name.
    NodeNotFound(String),
    /// No causal route leads from the first node to the second.
    NoRouteFound(String, String),
    /// A route was found but its delivery time does not fit in 64 bits, or
    /// the plan has too many nodes to search.
    InternalError,
}

/// Priority given to every predicted bundle.
pub const BUNDLE_PRIORITY: u8 = 0;

/// Plan-relative time at wall-clock time `now` for a plan whose time origin
/// is `origin`; a clock reading before the origin counts as the origin.
pub open spec fn plan_time(now: i64, origin: i64) -> u64 {
    if now > origin {
        (now - origin) as u64
    } else {
        0
    }
}

/// `e` is the earliest delivery time of any causal route, with no deadline
/// and no excluded node.
pub open spec fn earliest_delivery(cs: Seq<Contact>, s: usize, d: usize, t: u64, e: u64) -> bool {
    exists|p: Seq<RouteStage>|
        #[trigger] is_route(cs, s, d, t, u64::MAX, seq![], p) && end_time(t, p) == e && forall|
            q: Seq<RouteStage>,
        | #[trigger] is_route(cs, s, d, t, u64::MAX, seq![], q) ==> e <= end_time(t, q)
}

/// Some causal route exists, with no deadline and no excluded node.
pub open spec fn route_exists(cs: Seq<Contact>, s: usize, d: usize, t: u64) -> bool {
    exists|p: Seq<RouteStage>| #[trigger] is_route(cs, s, d, t, u64::MAX, seq![], p)
}

/// Self-route: from a node to itself the earliest delivery is the injection
/// time itself, whatever the contacts.
pub proof fn lemma_self_route(cs: Seq<Contact>, s: usize, t: u64)
    ensures
        earliest_delivery(cs, s, s, t, t),
{
    let empty = Seq::<RouteStage>::empty();
    assert(is_route(cs, s, s, t, u64::MAX, seq![], empty));
    assert forall|q: Seq<RouteStage>| #[trigger] is_route(cs, s, s, t, u64::MAX, seq![], q) implies t
        <= end_time(t, q) by {
        lemma_no_time_travel(cs, s, t, u64::MAX, seq![], q);
        if q.len() > 0 {
            assert(q[q.len() - 1].arrival >= t);
        }
    }
}

/// The earliest delivery time is unique.
proof fn lemma_earliest_unique(cs: Seq<Contact>, s: usize, d: usize, t: u64, e1: u64, e2: u64)
    requires
        earliest_delivery(cs, s, d, t, e1),
        earliest_delivery(cs, s, d, t, e2),
    ensures
        e1 == e2,
{
}

/// Determinism: two predictions between the same names at the same clock
/// reading both succeed with the same time, or both fail.
pub proof fn lemma_prediction_deterministic(
    c: &PredictionConfig,
    source: &str,
    dest: &str,
    now: i64,
    r1: Result<i64, PredictionError>,
    r2: Result<i64, PredictionError>,
)
    requires
        c.prediction_outcome(source, dest, now, r1),
        c.prediction_outcome(source, dest, now, r2),
    ensures
        r1 is Ok <==> r2 is Ok,
        r1 is Ok ==> r1 == r2,
{
    let s = id_of(c.names(), source.spec_bytes());
    let d = id_of(c.names(), dest.spec_bytes());
    let t = plan_time(now, c.start_time());
    let cs = c.plan_contacts();
    if s is Some && d is Some && !(s != d && c.names().len() == usize::MAX) && route_exists(
        cs,
        s.unwrap(),
        d.unwrap(),
        t,
    ) {
        let e1 = choose|e: u64|
            #[trigger] earliest_delivery(cs, s.unwrap(), d.unwrap(), t, e) && if c.start_time() + e
                <= i64::MAX {
                r1 == Ok::<i64, PredictionError>((c.start_time() + e) as i64)
            } else {
                r1 == Err::<i64, PredictionError>(PredictionError::InternalError)
            };
        let e2 = choose|e: u64|
            #[trigger] earliest_delivery(cs, s.unwrap(), d.unwrap(), t, e) && if c.start_time() + e
                <= i64::MAX {
                r2 == Ok::<i64, PredictionError>((c.start_time() + e) as i64)
            } else {
                r2 == Err::<i64, PredictionError>(PredictionError::InternalError)
            };
        lemma_earliest_unique(cs, s.unwrap(), d.unwrap(), t, e1, e2);
    }
}

/// Relies on chrono::Utc::now and DateTime::timestamp: the current
/// wall-clock time in whole seconds since the Unix epoch.
#[verifier::external_body]
fn wall_clock_now() -> (r: i64) {
    chrono::Utc::now().timestamp()
}

/// The arrival-time prediction service: node names, the router over the
/// plan, and the wall-clock time that plan time 0 stands for.
pub struct PredictionConfig {
    registry: NodeRegistry,
    router: ContactGraphRouter,
    cp_start_time: i64,
}

impl PredictionConfig {
    pub closed spec fn names(&self) -> Seq<Seq<u8>> {
        self.registry@
    }

    pub closed spec fn plan_contacts(&self) -> Seq<Contact> {
        self.router.spec_contacts()
    }

    pub closed spec fn start_time(&self) -> i64 {
        self.cp_start_time
    }

    pub closed spec fn wf(&self) -> bool {
        &&& self.registry.wf()
        &&& self.router.wf()
        &&& self.router.spec_node_count() == self.registry@.len()
    }

    /// What a prediction from `source` to `dest` at wall-clock time `now`
    /// returns: the first unknown name; else (for a plan too large to
    /// search) an internal error; else no route; else the wall-clock time of
    /// the earliest delivery, unless that does not fit in 64 bits.
    pub open spec fn prediction_outcome(
        &self,
        source: &str,
        dest: &str,
        now: i64,
        r: Result<i64, PredictionError>,
    ) -> bool {
        let s = id_of(self.names(), source.spec_bytes());
        let d = id_of(self.names(), dest.spec_bytes());
        let t = plan_time(now, self.start_time());
        let cs = self.plan_contacts();
        if s is None {
            r matches Err(PredictionError::NodeNotFound(n)) && n@ == source@
        } else if d is None {
            r matches Err(PredictionError::NodeNotFound(n)) && n@ == dest@
        } else if s != d && self.names().len() == usize::MAX {
            r == Err::<i64, PredictionError>(PredictionError::InternalError)
        } else if !route_exists(cs, s.unwrap(), d.unwrap(), t) {
            r matches Err(PredictionError::NoRouteFound(a, b)) && a@ == source@ && b@ == dest@
        } else {
            exists|e: u64|
                #[trigger] earliest_delivery(cs, s.unwrap(), d.unwrap(), t, e) && if self.start_time()
                    + e <= i64::MAX {
                    r == Ok::<i64, PredictionError>((self.start_time() + e) as i64)
                } else {
                    r == Err::<i64, PredictionError>(PredictionError::InternalError)
                }
        }
    }

    /// A service over a loaded plan whose time origin is `cp_start_time`.
    pub fn from_plan(plan: ContactPlan, cp_start_time: i64) -> (r: Self)
        requires
            plan.wf(),
        ensures
            r.wf(),
            r.names() == plan.names_view(),
            r.plan_contacts() == plan.contacts@,
            r.start_time() == cp_start_time,
    {
        let ContactPlan { names, contacts } = plan;
        let n = names.len();
        let registry = NodeRegistry::from_names(names);
        let router = ContactGraphRouter::new(n, contacts);
        PredictionConfig { registry, router, cp_start_time }
    }

    /// Loads the plan text once and builds the service with time origin
    /// `cp_start_time`.
    pub fn new_at(contact_plan: &str, cp_start_time: i64) -> (r: Result<Self, PredictionError>)
        ensures
            r is Err <==> plan_of(contact_plan.spec_bytes()).2 is Some,
            r matches Err(e) ==> e == PredictionError::ParseError(
                ParseError { line: plan_of(contact_plan.spec_bytes()).2.unwrap() as usize },
            ),
            r matches Ok(c) ==> {
                &&& c.wf()
                &&& c.names() == plan_of(contact_plan.spec_bytes()).0
                &&& c.plan_contacts() == plan_of(contact_plan.spec_bytes()).1
                &&& c.start_time() == cp_start_time
            },
    {
        match parse_contact_plan(contact_plan) {
            Ok(plan) => Ok(Self::from_plan(plan, cp_start_time)),
            Err(e) => Err(PredictionError::ParseError(e)),
        }
    }

    /// Loads the plan text and builds the service; plan time 0 is the
    /// wall-clock time of this call.
    pub fn new(contact_plan: &str) -> (r: Result<Self, PredictionError>)
        ensures
            r is Err <==> plan_of(contact_plan.spec_bytes()).2 is Some,
            r matches Err(e) ==> e == PredictionError::ParseError(
                ParseError { line: plan_of(contact_plan.spec_bytes()).2.unwrap() as usize },
            ),
            r matches Ok(c) ==> {
                &&& c.wf()
                &&& c.names() == plan_of(contact_plan.spec_bytes()).0
                &&& c.plan_contacts() == plan_of(contact_plan.spec_bytes()).1
            },
    {
        let now = wall_clock_now();
        Self::new_at(contact_plan, now)
    }

    /// Wall-clock time that plan time 0 stands for.
    pub fn cp_start_time(&self) -> (r: i64)
        ensures
            r == self.start_time(),
    {
        self.cp_start_time
    }

    /// The dense ID of the node called `ion_id`.
    pub fn get_node_id(&self, ion_id: &str) -> (r: Option<usize>)
        requires
            self.wf(),
        ensures
            r == id_of(self.names(), ion_id.spec_bytes()),
    {
        self.registry.get_node_id(ion_id)
    }

    /// The name-to-ID registry of a plan text, numbered as the loader
    /// numbers the plan's nodes.
    pub fn map_node_indices(contact_plan: &str) -> (r: Result<NodeRegistry, PredictionError>)
        ensures
            r is Err <==> plan_of(contact_plan.spec_bytes()).2 is Some,
            r matches Err(e) ==> e == PredictionError::ParseError(
                ParseError { line: plan_of(contact_plan.spec_bytes()).2.unwrap() as usize },
            ),
            r matches Ok(reg) ==> reg.wf() && reg@ == plan_of(contact_plan.spec_bytes()).0,
    {
        match parse_contact_plan(contact_plan) {
            Ok(plan) => Ok(NodeRegistry::from_names(plan.names)),
            Err(e) => Err(PredictionError::ParseError(e)),
        }
    }

    /// Predicts the wall-clock arrival time of a message of `message_size`
    /// bytes sent now from `source_ion` to `dest_ion`, with no deadline.
    pub fn predict_at(&self, source_ion: &str, dest_ion: &str, message_size: u64, now: i64) -> (r:
        Result<i64, PredictionError>)
        requires
            self.wf(),
        ensures
            self.prediction_outcome(source_ion, dest_ion, now, r),
            id_of(self.names(), source_ion.spec_bytes()) is Some && source_ion.spec_bytes()
                == dest_ion.spec_bytes() && now >= self.start_time() ==> r == Ok::<
                i64,
                PredictionError,
            >(now),
    {
        let source = match self.registry.get_node_id(source_ion) {
            Some(id) => id,
            None => {
                return Err(PredictionError::NodeNotFound(source_ion.to_owned()));
            },
        };
        let dest = match self.registry.get_node_id(dest_ion) {
            Some(id) => id,
            None => {
                return Err(PredictionError::NodeNotFound(dest_ion.to_owned()));
            },
        };
        if source != dest && self.registry.len() == usize::MAX {
            return Err(PredictionError::InternalError);
        }
        let t: u64 = if now > self.cp_start_time {
            (now as i128 - self.cp_start_time as i128) as u64
        } else {
            0
        };
        let bundle = Bundle {
            source,
            destination: dest,
            priority: BUNDLE_PRIORITY,
            size: message_size,
            expiration: u64::MAX,
        };
        let excluded: Vec<usize> = Vec::new();
        let ghost cs = self.router.spec_contacts();
        let found = self.router.route(source, &bundle, t, &excluded);
        assert(excluded@ =~= Seq::<usize>::empty());
        match found {
            None => {
                proof {
                    if source == dest {
                        let empty = Seq::<RouteStage>::empty();
                        assert(is_route(cs, source, dest, t, u64::MAX, excluded@, empty));
                    }
                }
                Err(PredictionError::NoRouteFound(source_ion.to_owned(), dest_ion.to_owned()))
            },
            Some(res) => {
                let n = res.stages.len();
                let e: u64 = if n == 0 {
                    res.injection_time
                } else {
                    res.stages[n - 1].arrival
                };
                proof {
                    assert(is_route(cs, source, dest, t, u64::MAX, seq![], res.stages@));
                    assert(end_time(t, res.stages@) == e);
                    assert(earliest_delivery(cs, source, dest, t, e));
                    if source == dest {
                        lemma_self_route(cs, source, t);
                        lemma_earliest_unique(cs, source, dest, t, e, t);
                    }
                }
                let w: i128 = self.cp_start_time as i128 + e as i128;
                if w <= i64::MAX as i128 {
                    Ok(w as i64)
                } else {
                    Err(PredictionError::InternalError)
                }
            },
        }
    }

    /// Predicts the wall-clock arrival time of a message sent now, reading
    /// the clock once: the outcome is that of `predict_at` at some clock
    /// reading.
    pub fn predict(&self, source_ion: &str, dest_ion: &str, message_size: u64) -> (r: Result<
        i64,
        PredictionError,
    >)
        requires
            self.wf(),
        ensures
            exists|now: i64| self.prediction_outcome(source_ion, dest_ion, now, r),
    {
        let now = wall_clock_now();
        self.predict_at(source_ion, dest_ion, message_size, now)
    }
}

} // verus!
