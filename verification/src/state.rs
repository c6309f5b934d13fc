//! The authoritative configuration state and its order semantics.
//!
//! `ConfigState` holds the proxy entities in keyed vectors; its model
//! (`StateModel`) is a struct of finite maps. `apply` is the meaning of one
//! order; `handle_order` is proved against it. `generate_orders` replays a
//! state from empty, `diff` turns one state into another; each carries its
//! round-trip law as its contract.

use vstd::prelude::*;
use crate::keyed::{keyed_map, unique_keys, lemma_keyed_map_contains, lemma_keyed_map_index,
    lemma_keyed_map_push, lemma_keyed_map_remove};
use crate::messages::{Application, AppModel, HttpFront, FrontModel, FrontKey, Certificate,
    CertModel, Backend, BackendModel, Order, OrderModel};

verus! {

/// The mathematical model of a configuration state.
#[verifier::ext_equal]
pub struct StateModel {
    pub applications: Map<Seq<char>, AppModel>,
    pub http_fronts: Map<FrontKey, FrontModel>,
    pub https_fronts: Map<FrontKey, FrontModel>,
    pub certificates: Map<Seq<char>, CertModel>,
    pub backends: Map<BackendModel, BackendModel>,
}

impl StateModel {
    pub open spec fn empty() -> StateModel {
        StateModel {
            applications: Map::empty(),
            http_fronts: Map::empty(),
            https_fronts: Map::empty(),
            certificates: Map::empty(),
            backends: Map::empty(),
        }
    }
}

pub open spec fn app_models(s: Seq<Application>) -> Seq<AppModel> {
    s.map_values(|a: Application| a@)
}

pub open spec fn front_models(s: Seq<HttpFront>) -> Seq<FrontModel> {
    s.map_values(|f: HttpFront| f@)
}

pub open spec fn cert_models(s: Seq<Certificate>) -> Seq<CertModel> {
    s.map_values(|c: Certificate| c@)
}

pub open spec fn backend_models(s: Seq<Backend>) -> Seq<BackendModel> {
    s.map_values(|b: Backend| b@)
}

pub open spec fn order_models(s: Seq<Order>) -> Seq<OrderModel> {
    s.map_values(|o: Order| o@)
}

pub open spec fn app_key() -> spec_fn(AppModel) -> Seq<char> {
    |a: AppModel| a.app_id
}

pub open spec fn front_key() -> spec_fn(FrontModel) -> FrontKey {
    |f: FrontModel| f.key()
}

pub open spec fn cert_key() -> spec_fn(CertModel) -> Seq<char> {
    |c: CertModel| c.fingerprint
}

pub open spec fn backend_key() -> spec_fn(BackendModel) -> BackendModel {
    |b: BackendModel| b
}

/// Position of an order in the replay emission: applications, then
/// backends, then HTTP and HTTPS frontends, then certificates.
pub open spec fn replay_rank(o: OrderModel) -> int {
    match o {
        OrderModel::AddApplication(_) => 0,
        OrderModel::AddBackend(_) => 1,
        OrderModel::AddHttpFront(_) => 2,
        OrderModel::AddHttpsFront(_) => 3,
        OrderModel::AddCertificate(_) => 4,
        _ => 5,
    }
}

/// Position of an order in a difference: all removals precede all
/// additions, frontends and backends are removed before applications, and
/// applications are added before frontends.
pub open spec fn diff_rank(o: OrderModel) -> int {
    match o {
        OrderModel::RemoveHttpFront(_) => 0,
        OrderModel::RemoveHttpsFront(_) => 1,
        OrderModel::RemoveBackend(_) => 2,
        OrderModel::RemoveCertificate(_) => 3,
        OrderModel::RemoveApplication(_) => 4,
        OrderModel::AddApplication(_) => 5,
        OrderModel::AddBackend(_) => 6,
        OrderModel::AddHttpFront(_) => 7,
        OrderModel::AddHttpsFront(_) => 8,
        OrderModel::AddCertificate(_) => 9,
        _ => 10,
    }
}

/// Every frontend names a known application. `apply` does not enforce this:
/// removing an application legitimately leaves its frontends behind, and
/// the replay round-trip must hold of such states too, so the discipline
/// comes from the order streams (applications are replayed and added before
/// frontends), not from the state.
pub open spec fn well_referenced(s: StateModel) -> bool {
    &&& forall|k: FrontKey| #[trigger] s.http_fronts.contains_key(k)
        ==> s.applications.contains_key(s.http_fronts[k].app_id)
    &&& forall|k: FrontKey| #[trigger] s.https_fronts.contains_key(k)
        ==> s.applications.contains_key(s.https_fronts[k].app_id)
}

/// The meaning of one order. Additions of an entity whose key is already
/// present are no-ops, removals of an absent entity are no-ops, and the
/// query orders leave the state unchanged.
pub open spec fn apply(s: StateModel, o: OrderModel) -> StateModel {
    match o {
        OrderModel::AddApplication(a) => if s.applications.contains_key(a.app_id) {
            s
        } else {
            StateModel { applications: s.applications.insert(a.app_id, a), ..s }
        },
        OrderModel::RemoveApplication(id) => StateModel {
            applications: s.applications.remove(id),
            ..s
        },
        OrderModel::AddHttpFront(f) => if s.http_fronts.contains_key(f.key()) {
            s
        } else {
            StateModel { http_fronts: s.http_fronts.insert(f.key(), f), ..s }
        },
        OrderModel::RemoveHttpFront(f) => StateModel {
            http_fronts: s.http_fronts.remove(f.key()),
            ..s
        },
        OrderModel::AddHttpsFront(f) => if s.https_fronts.contains_key(f.key()) {
            s
        } else {
            StateModel { https_fronts: s.https_fronts.insert(f.key(), f), ..s }
        },
        OrderModel::RemoveHttpsFront(f) => StateModel {
            https_fronts: s.https_fronts.remove(f.key()),
            ..s
        },
        OrderModel::AddCertificate(c) => if s.certificates.contains_key(c.fingerprint) {
            s
        } else {
            StateModel { certificates: s.certificates.insert(c.fingerprint, c), ..s }
        },
        OrderModel::RemoveCertificate(fp) => StateModel {
            certificates: s.certificates.remove(fp),
            ..s
        },
        OrderModel::AddBackend(b) => if s.backends.contains_key(b) {
            s
        } else {
            StateModel { backends: s.backends.insert(b, b), ..s }
        },
        OrderModel::RemoveBackend(b) => StateModel { backends: s.backends.remove(b), ..s },
        OrderModel::SoftStop => s,
        OrderModel::HardStop => s,
        OrderModel::Status => s,
        OrderModel::Metrics => s,
    }
}

/// The meaning of an order sequence, applied left to right.
pub open spec fn apply_seq(s: StateModel, os: Seq<OrderModel>) -> StateModel
    decreases os.len(),
{
    if os.len() == 0 {
        s
    } else {
        apply(apply_seq(s, os.drop_last()), os.last())
    }
}

pub proof fn lemma_apply_seq_push(s: StateModel, os: Seq<OrderModel>, o: OrderModel)
    ensures
        apply_seq(s, os.push(o)) == apply(apply_seq(s, os), o),
{
    assert(os.push(o).drop_last() =~= os);
    assert(os.push(o).last() == o);
}

/// Adding or removing the same entity twice is the same as doing it once.
pub proof fn lemma_apply_idempotent(s: StateModel, o: OrderModel)
    ensures
        apply(apply(s, o), o) == apply(s, o),
        apply_seq(s, seq![o, o]) == apply_seq(s, seq![o]),
{
    let s1 = apply(s, o);
    match o {
        OrderModel::RemoveApplication(id) => {
            assert(s1.applications.remove(id) =~= s1.applications);
        },
        OrderModel::RemoveHttpFront(f) => {
            assert(s1.http_fronts.remove(f.key()) =~= s1.http_fronts);
        },
        OrderModel::RemoveHttpsFront(f) => {
            assert(s1.https_fronts.remove(f.key()) =~= s1.https_fronts);
        },
        OrderModel::RemoveCertificate(fp) => {
            assert(s1.certificates.remove(fp) =~= s1.certificates);
        },
        OrderModel::RemoveBackend(b) => {
            assert(s1.backends.remove(b) =~= s1.backends);
        },
        _ => {},
    }
    assert(apply(s1, o) =~~= s1);
    assert(seq![o] =~= Seq::<OrderModel>::empty().push(o));
    assert(seq![o, o] =~= seq![o].push(o));
    lemma_apply_seq_push(s, Seq::empty(), o);
    lemma_apply_seq_push(s, seq![o], o);
    assert(apply_seq(s, Seq::<OrderModel>::empty()) == s);
}

/// The authoritative in-memory configuration of the proxy plane.
pub struct ConfigState {
    pub applications: Vec<Application>,
    pub http_fronts: Vec<HttpFront>,
    pub https_fronts: Vec<HttpFront>,
    pub certificates: Vec<Certificate>,
    pub backends: Vec<Backend>,
}

impl View for ConfigState {
    type V = StateModel;

    open spec fn view(&self) -> StateModel {
        StateModel {
            applications: keyed_map(app_models(self.applications@), app_key()),
            http_fronts: keyed_map(front_models(self.http_fronts@), front_key()),
            https_fronts: keyed_map(front_models(self.https_fronts@), front_key()),
            certificates: keyed_map(cert_models(self.certificates@), cert_key()),
            backends: keyed_map(backend_models(self.backends@), backend_key()),
        }
    }
}

impl Clone for ConfigState {
    fn clone(&self) -> (r: Self)
        ensures
            r@ == self@,
            r.applications@ == self.applications@,
            r.http_fronts@ == self.http_fronts@,
            r.https_fronts@ == self.https_fronts@,
            r.certificates@ == self.certificates@,
            r.backends@ == self.backends@,
    {
        let r = ConfigState {
            applications: self.applications.clone(),
            http_fronts: self.http_fronts.clone(),
            https_fronts: self.https_fronts.clone(),
            certificates: self.certificates.clone(),
            backends: self.backends.clone(),
        };
        proof {
            assert(r.applications@ =~= self.applications@);
            assert(r.http_fronts@ =~= self.http_fronts@);
            assert(r.https_fronts@ =~= self.https_fronts@);
            assert(r.certificates@ =~= self.certificates@);
            assert(r.backends@ =~= self.backends@);
        }
        r
    }
}

fn find_app(v: &Vec<Application>, id: &String) -> (r: Option<usize>)
    ensures
        match r {
            Some(i) => i < v.len() && app_models(v@)[i as int].app_id == id@,
            None => forall|j: int| 0 <= j < v@.len() ==> app_models(v@)[j].app_id != id@,
        },
{
    let mut i: usize = 0;
    while i < v.len()
        invariant
            i <= v.len(),
            forall|j: int| 0 <= j < i ==> app_models(v@)[j].app_id != id@,
        decreases v.len() - i,
    {
        if v[i].app_id == *id {
            return Some(i);
        }
        i += 1;
    }
    None
}

fn find_front(v: &Vec<HttpFront>, hostname: &String, path_begin: &String) -> (r: Option<usize>)
    ensures
        match r {
            Some(i) => i < v.len() && front_models(v@)[i as int].key() == (hostname@, path_begin@),
            None => forall|j: int| 0 <= j < v@.len() ==> front_models(v@)[j].key() != (hostname@, path_begin@),
        },
{
    let mut i: usize = 0;
    while i < v.len()
        invariant
            i <= v.len(),
            forall|j: int| 0 <= j < i ==> front_models(v@)[j].key() != (hostname@, path_begin@),
        decreases v.len() - i,
    {
        if v[i].hostname == *hostname && v[i].path_begin == *path_begin {
            return Some(i);
        }
        i += 1;
    }
    None
}

fn find_cert(v: &Vec<Certificate>, fingerprint: &String) -> (r: Option<usize>)
    ensures
        match r {
            Some(i) => i < v.len() && cert_models(v@)[i as int].fingerprint == fingerprint@,
            None => forall|j: int| 0 <= j < v@.len() ==> cert_models(v@)[j].fingerprint != fingerprint@,
        },
{
    let mut i: usize = 0;
    while i < v.len()
        invariant
            i <= v.len(),
            forall|j: int| 0 <= j < i ==> cert_models(v@)[j].fingerprint != fingerprint@,
        decreases v.len() - i,
    {
        if v[i].fingerprint == *fingerprint {
            return Some(i);
        }
        i += 1;
    }
    None
}

fn find_backend(v: &Vec<Backend>, b: &Backend) -> (r: Option<usize>)
    ensures
        match r {
            Some(i) => i < v.len() && backend_models(v@)[i as int] == b@,
            None => forall|j: int| 0 <= j < v@.len() ==> backend_models(v@)[j] != b@,
        },
{
    let mut i: usize = 0;
    while i < v.len()
        invariant
            i <= v.len(),
            forall|j: int| 0 <= j < i ==> backend_models(v@)[j] != b@,
        decreases v.len() - i,
    {
        if v[i].app_id == b.app_id && v[i].ip_address == b.ip_address && v[i].port == b.port {
            return Some(i);
        }
        i += 1;
    }
    None
}

pub(crate) fn app_eq(a: &Application, b: &Application) -> (r: bool)
    ensures
        r == (a@ == b@),
{
    a.app_id == b.app_id && a.sticky_session == b.sticky_session
}

pub(crate) fn front_eq(a: &HttpFront, b: &HttpFront) -> (r: bool)
    ensures
        r == (a@ == b@),
{
    a.app_id == b.app_id && a.hostname == b.hostname && a.path_begin == b.path_begin
}

pub(crate) fn cert_eq(a: &Certificate, b: &Certificate) -> (r: bool)
    ensures
        r == (a@ == b@),
{
    a.fingerprint == b.fingerprint && a.certificate == b.certificate
}

impl ConfigState {
    /// Within each entity family, keys occur at most once.
    pub open spec fn wf(&self) -> bool {
        &&& unique_keys(app_models(self.applications@), app_key())
        &&& unique_keys(front_models(self.http_fronts@), front_key())
        &&& unique_keys(front_models(self.https_fronts@), front_key())
        &&& unique_keys(cert_models(self.certificates@), cert_key())
        &&& unique_keys(backend_models(self.backends@), backend_key())
    }

    pub fn new() -> (r: ConfigState)
        ensures
            r@ == StateModel::empty(),
            r.wf(),
    {
        let r = ConfigState {
            applications: Vec::new(),
            http_fronts: Vec::new(),
            https_fronts: Vec::new(),
            certificates: Vec::new(),
            backends: Vec::new(),
        };
        proof {
            assert(r@ =~~= StateModel::empty());
        }
        r
    }

    /// Applies one order in place; its meaning is exactly `apply`.
    pub fn handle_order(&mut self, order: &Order)
        requires
            old(self).wf(),
        ensures
            final(self).wf(),
            final(self)@ == apply(old(self)@, order@),
    {
        match order {
            Order::AddApplication(a) => {
                match find_app(&self.applications, &a.app_id) {
                    Some(_i) => {
                        proof {
                            lemma_keyed_map_contains(app_models(self.applications@), app_key());
                        }
                    },
                    None => {
                        proof {
                            lemma_keyed_map_contains(app_models(self.applications@), app_key());
                        }
                        let ghost olds = self.applications@;
                        self.applications.push(a.clone());
                        proof {
                            assert(app_models(self.applications@) =~= app_models(olds).push(a@));
                            lemma_keyed_map_push(app_models(olds), app_key(), a@);
                        }
                    },
                }
            },
            Order::RemoveApplication(id) => {
                match find_app(&self.applications, id) {
                    Some(i) => {
                        proof {
                            lemma_keyed_map_remove(app_models(self.applications@), app_key(), i as int);
                        }
                        let ghost olds = self.applications@;
                        self.applications.remove(i);
                        proof {
                            assert(app_models(self.applications@) =~= app_models(olds).remove(i as int));
                        }
                    },
                    None => {
                        proof {
                            lemma_keyed_map_contains(app_models(self.applications@), app_key());
                            assert(self@.applications.remove(id@) =~= self@.applications);
                            assert(apply(self@, order@) =~~= self@);
                        }
                    },
                }
            },
            Order::AddHttpFront(f) => {
                match find_front(&self.http_fronts, &f.hostname, &f.path_begin) {
                    Some(_i) => {
                        proof {
                            lemma_keyed_map_contains(front_models(self.http_fronts@), front_key());
                        }
                    },
                    None => {
                        proof {
                            lemma_keyed_map_contains(front_models(self.http_fronts@), front_key());
                        }
                        let ghost olds = self.http_fronts@;
                        self.http_fronts.push(f.clone());
                        proof {
                            assert(front_models(self.http_fronts@) =~= front_models(olds).push(f@));
                            lemma_keyed_map_push(front_models(olds), front_key(), f@);
                        }
                    },
                }
            },
            Order::RemoveHttpFront(f) => {
                match find_front(&self.http_fronts, &f.hostname, &f.path_begin) {
                    Some(i) => {
                        proof {
                            lemma_keyed_map_remove(front_models(self.http_fronts@), front_key(), i as int);
                        }
                        let ghost olds = self.http_fronts@;
                        self.http_fronts.remove(i);
                        proof {
                            assert(front_models(self.http_fronts@) =~= front_models(olds).remove(i as int));
                        }
                    },
                    None => {
                        proof {
                            lemma_keyed_map_contains(front_models(self.http_fronts@), front_key());
                            assert(self@.http_fronts.remove(f@.key()) =~= self@.http_fronts);
                            assert(apply(self@, order@) =~~= self@);
                        }
                    },
                }
            },
            Order::AddHttpsFront(f) => {
                match find_front(&self.https_fronts, &f.hostname, &f.path_begin) {
                    Some(_i) => {
                        proof {
                            lemma_keyed_map_contains(front_models(self.https_fronts@), front_key());
                        }
                    },
                    None => {
                        proof {
                            lemma_keyed_map_contains(front_models(self.https_fronts@), front_key());
                        }
                        let ghost olds = self.https_fronts@;
                        self.https_fronts.push(f.clone());
                        proof {
                            assert(front_models(self.https_fronts@) =~= front_models(olds).push(f@));
                            lemma_keyed_map_push(front_models(olds), front_key(), f@);
                        }
                    },
                }
            },
            Order::RemoveHttpsFront(f) => {
                match find_front(&self.https_fronts, &f.hostname, &f.path_begin) {
                    Some(i) => {
                        proof {
                            lemma_keyed_map_remove(front_models(self.https_fronts@), front_key(), i as int);
                        }
                        let ghost olds = self.https_fronts@;
                        self.https_fronts.remove(i);
                        proof {
                            assert(front_models(self.https_fronts@) =~= front_models(olds).remove(i as int));
                        }
                    },
                    None => {
                        proof {
                            lemma_keyed_map_contains(front_models(self.https_fronts@), front_key());
                            assert(self@.https_fronts.remove(f@.key()) =~= self@.https_fronts);
                            assert(apply(self@, order@) =~~= self@);
                        }
                    },
                }
            },
            Order::AddCertificate(c) => {
                match find_cert(&self.certificates, &c.fingerprint) {
                    Some(_i) => {
                        proof {
                            lemma_keyed_map_contains(cert_models(self.certificates@), cert_key());
                        }
                    },
                    None => {
                        proof {
                            lemma_keyed_map_contains(cert_models(self.certificates@), cert_key());
                        }
                        let ghost olds = self.certificates@;
                        self.certificates.push(c.clone());
                        proof {
                            assert(cert_models(self.certificates@) =~= cert_models(olds).push(c@));
                            lemma_keyed_map_push(cert_models(olds), cert_key(), c@);
                        }
                    },
                }
            },
            Order::RemoveCertificate(fp) => {
                match find_cert(&self.certificates, fp) {
                    Some(i) => {
                        proof {
                            lemma_keyed_map_remove(cert_models(self.certificates@), cert_key(), i as int);
                        }
                        let ghost olds = self.certificates@;
                        self.certificates.remove(i);
                        proof {
                            assert(cert_models(self.certificates@) =~= cert_models(olds).remove(i as int));
                        }
                    },
                    None => {
                        proof {
                            lemma_keyed_map_contains(cert_models(self.certificates@), cert_key());
                            assert(self@.certificates.remove(fp@) =~= self@.certificates);
                            assert(apply(self@, order@) =~~= self@);
                        }
                    },
                }
            },
            Order::AddBackend(b) => {
                match find_backend(&self.backends, b) {
                    Some(_i) => {
                        proof {
                            lemma_keyed_map_contains(backend_models(self.backends@), backend_key());
                        }
                    },
                    None => {
                        proof {
                            lemma_keyed_map_contains(backend_models(self.backends@), backend_key());
                        }
                        let ghost olds = self.backends@;
                        self.backends.push(b.clone());
                        proof {
                            assert(backend_models(self.backends@) =~= backend_models(olds).push(b@));
                            lemma_keyed_map_push(backend_models(olds), backend_key(), b@);
                        }
                    },
                }
            },
            Order::RemoveBackend(b) => {
                match find_backend(&self.backends, b) {
                    Some(i) => {
                        proof {
                            lemma_keyed_map_remove(backend_models(self.backends@), backend_key(), i as int);
                        }
                        let ghost olds = self.backends@;
                        self.backends.remove(i);
                        proof {
                            assert(backend_models(self.backends@) =~= backend_models(olds).remove(i as int));
                        }
                    },
                    None => {
                        proof {
                            lemma_keyed_map_contains(backend_models(self.backends@), backend_key());
                            assert(self@.backends.remove(b@) =~= self@.backends);
                            assert(apply(self@, order@) =~~= self@);
                        }
                    },
                }
            },
            Order::SoftStop => {},
            Order::HardStop => {},
            Order::Status => {},
            Order::Metrics => {},
        }
    }
}


/// Some entry among the first `i` carries key `k` and disagrees with `t`.
pub open spec fn dropped_before<K, V>(s: Seq<V>, key: spec_fn(V) -> K, t: Map<K, V>, k: K, i: int) -> bool {
    exists|j: int| 0 <= j < i && key(#[trigger] s[j]) == k && !(t.contains_key(k) && t[k] == s[j])
}

/// Some entry among the first `i` carries key `k`.
pub open spec fn present_before<K, V>(s: Seq<V>, key: spec_fn(V) -> K, k: K, i: int) -> bool {
    exists|j: int| 0 <= j < i && key(#[trigger] s[j]) == k
}

/// The entries of `m` on which `t` agrees.
pub open spec fn agree_map<K, V>(m: Map<K, V>, t: Map<K, V>) -> Map<K, V> {
    Map::new(|k: K| m.contains_key(k) && t.contains_key(k) && m[k] == t[k], |k: K| m[k])
}

pub proof fn lemma_present_step<K, V>(s: Seq<V>, key: spec_fn(V) -> K, i: int)
    requires
        0 <= i < s.len(),
    ensures
        forall|k: K| #[trigger] present_before(s, key, k, i + 1)
            == (present_before(s, key, k, i) || k == key(s[i])),
{
    assert forall|k: K| #[trigger] present_before(s, key, k, i + 1) implies
        (present_before(s, key, k, i) || k == key(s[i])) by {
        let j = choose|j: int| 0 <= j < i + 1 && key(#[trigger] s[j]) == k;
        if j < i {
            assert(present_before(s, key, k, i));
        }
    }
    assert forall|k: K| (present_before(s, key, k, i) || k == key(s[i])) implies
        #[trigger] present_before(s, key, k, i + 1) by {
        if present_before(s, key, k, i) {
            let j = choose|j: int| 0 <= j < i && key(#[trigger] s[j]) == k;
            assert(0 <= j < i + 1 && key(s[j]) == k);
        } else {
            assert(key(s[i]) == k);
        }
    }
}

pub proof fn lemma_dropped_step<K, V>(s: Seq<V>, key: spec_fn(V) -> K, t: Map<K, V>, i: int)
    requires
        0 <= i < s.len(),
    ensures
        forall|k: K| k != key(s[i]) ==>
            (#[trigger] dropped_before(s, key, t, k, i + 1) == dropped_before(s, key, t, k, i)),
        (t.contains_key(key(s[i])) && t[key(s[i])] == s[i]) ==>
            dropped_before(s, key, t, key(s[i]), i + 1) == dropped_before(s, key, t, key(s[i]), i),
        !(t.contains_key(key(s[i])) && t[key(s[i])] == s[i]) ==>
            dropped_before(s, key, t, key(s[i]), i + 1),
{
    let ki = key(s[i]);
    assert forall|k: K|
        #[trigger] dropped_before(s, key, t, k, i + 1)
        && (k != ki || (t.contains_key(ki) && t[ki] == s[i])) implies
        dropped_before(s, key, t, k, i) by {
        let j = choose|j: int|
            0 <= j < i + 1 && key(#[trigger] s[j]) == k && !(t.contains_key(k) && t[k] == s[j]);
        if j == i {
            assert(k == ki);
            assert(false);
        } else {
            assert(dropped_before(s, key, t, k, i));
        }
    }
    assert forall|k: K| #[trigger] dropped_before(s, key, t, k, i) implies
        dropped_before(s, key, t, k, i + 1) by {
        let j = choose|j: int|
            0 <= j < i && key(#[trigger] s[j]) == k && !(t.contains_key(k) && t[k] == s[j]);
        assert(0 <= j < i + 1 && key(s[j]) == k && !(t.contains_key(k) && t[k] == s[j]));
    }
    if !(t.contains_key(ki) && t[ki] == s[i]) {
        assert(0 <= i < i + 1 && key(s[i]) == ki && !(t.contains_key(ki) && t[ki] == s[i]));
        assert(dropped_before(s, key, t, ki, i + 1));
    }
}

pub proof fn lemma_removal_end<K, V>(s: Seq<V>, key: spec_fn(V) -> K, t: Map<K, V>, m: Map<K, V>)
    requires
        unique_keys(s, key),
        forall|k: K| #[trigger] m.contains_key(k)
            == (keyed_map(s, key).contains_key(k) && !dropped_before(s, key, t, k, s.len() as int)),
        forall|k: K| #[trigger] m.contains_key(k) ==> m[k] == keyed_map(s, key)[k],
    ensures
        m == agree_map(keyed_map(s, key), t),
{
    lemma_keyed_map_contains(s, key);
    lemma_keyed_map_index(s, key);
    let sm = keyed_map(s, key);
    assert forall|k: K| #[trigger] m.contains_key(k) implies
        (sm.contains_key(k) && t.contains_key(k) && sm[k] == t[k]) by {
        let j = choose|j: int| 0 <= j < s.len() && key(#[trigger] s[j]) == k;
        assert(sm[k] == s[j]);
        assert(!(0 <= j < s.len() && key(s[j]) == k && !(t.contains_key(k) && t[k] == s[j])));
    }
    assert forall|k: K| #[trigger] agree_map(sm, t).contains_key(k) implies m.contains_key(k) by {
        if dropped_before(s, key, t, k, s.len() as int) {
            let j = choose|j: int|
                0 <= j < s.len() && key(#[trigger] s[j]) == k && !(t.contains_key(k) && t[k] == s[j]);
            assert(sm[k] == s[j]);
            assert(false);
        }
    }
    assert(m =~= agree_map(sm, t));
}

pub proof fn lemma_addition_end<K, V>(s: Seq<V>, key: spec_fn(V) -> K, a: Map<K, V>, m: Map<K, V>)
    requires
        unique_keys(s, key),
        forall|k: K| #[trigger] a.contains_key(k)
            ==> keyed_map(s, key).contains_key(k) && a[k] == keyed_map(s, key)[k],
        forall|k: K| #[trigger] m.contains_key(k)
            == (a.contains_key(k) || present_before(s, key, k, s.len() as int)),
        forall|k: K| #[trigger] m.contains_key(k) ==> m[k] == keyed_map(s, key)[k],
    ensures
        m == keyed_map(s, key),
{
    lemma_keyed_map_contains(s, key);
    assert forall|k: K| #[trigger] keyed_map(s, key).contains_key(k) implies m.contains_key(k) by {
        let j = choose|j: int| 0 <= j < s.len() && key(#[trigger] s[j]) == k;
        assert(present_before(s, key, k, s.len() as int));
    }
    assert forall|k: K| #[trigger] m.contains_key(k) implies keyed_map(s, key).contains_key(k) by {
        if present_before(s, key, k, s.len() as int) {
            let j = choose|j: int| 0 <= j < s.len() && key(#[trigger] s[j]) == k;
            assert(keyed_map(s, key).contains_key(k));
        }
    }
    assert(m =~= keyed_map(s, key));
}

impl ConfigState {
    /// The orders that rebuild this state when replayed into an empty one:
    /// applications, then backends, then HTTP and HTTPS frontends, then
    /// certificates. The round-trip law is the contract.
    pub fn generate_orders(&self) -> (r: Vec<Order>)
        requires
            self.wf(),
        ensures
            apply_seq(StateModel::empty(), order_models(r@)) == self@,
            forall|k: int| 0 <= k < r@.len()
                ==> apply(self@, #[trigger] order_models(r@)[k]) == self@
                    && !(order_models(r@)[k] is SoftStop)
                    && !(order_models(r@)[k] is HardStop),
            forall|k: int| 0 <= k < r@.len() ==> replay_rank(#[trigger] order_models(r@)[k]) <= 4,
            forall|a: int, b: int| 0 <= a < b < r@.len()
                ==> replay_rank(order_models(r@)[a]) <= replay_rank(order_models(r@)[b]),
    {
        let mut out: Vec<Order> = Vec::new();
        let ghost mut cur = StateModel::empty();
        proof {
            assert(order_models(out@) =~= Seq::<OrderModel>::empty());
        }

        // replay applications
        let mut i: usize = 0;
        while i < self.applications.len()
            invariant
                self.wf(),
                i <= self.applications.len(),
                cur == apply_seq(StateModel::empty(), order_models(out@)),
                cur.http_fronts == Map::<FrontKey, FrontModel>::empty(),
                cur.https_fronts == Map::<FrontKey, FrontModel>::empty(),
                cur.certificates == Map::<Seq<char>, CertModel>::empty(),
                cur.backends == Map::<BackendModel, BackendModel>::empty(),
                cur.applications == keyed_map(app_models(self.applications@).take(i as int), app_key()),
                forall|k: int| 0 <= k < out@.len()
                    ==> apply(self@, #[trigger] order_models(out@)[k]) == self@
                        && !(order_models(out@)[k] is SoftStop)
                        && !(order_models(out@)[k] is HardStop),
                forall|k: int| 0 <= k < out@.len()
                    ==> replay_rank(#[trigger] order_models(out@)[k]) <= 0,
                forall|a: int, b: int| 0 <= a < b < out@.len()
                    ==> replay_rank(order_models(out@)[a]) <= replay_rank(order_models(out@)[b]),
            decreases self.applications.len() - i,
        {
            let ghost ss = app_models(self.applications@);
            proof {
                lemma_keyed_map_contains(ss.take(i as int), app_key());
                assert forall|j: int| 0 <= j < i implies
                    app_key()(#[trigger] ss.take(i as int)[j]) != app_key()(ss[i as int]) by {
                    assert(ss.take(i as int)[j] == ss[j]);
                }
                assert(!cur.applications.contains_key(app_key()(ss[i as int])));
            }
            let ghost olds = out@;
            let o = Order::AddApplication(self.applications[i].clone());
            let ghost om = o@;
            out.push(o);
            proof {
                assert(order_models(out@) =~= order_models(olds).push(om));
                lemma_apply_seq_push(StateModel::empty(), order_models(olds), om);
                cur = apply(cur, om);
                assert(ss.take(i as int + 1) =~= ss.take(i as int).push(ss[i as int]));
                lemma_keyed_map_push(ss.take(i as int), app_key(), ss[i as int]);
                assert(order_models(out@)[order_models(out@).len() - 1] == om);
                assert(apply(self@, om) == self@) by {
                    lemma_keyed_map_contains(ss, app_key());
                    assert(self@.applications.contains_key(app_key()(ss[i as int])));
                }
            }
            i += 1;
        }
        proof {
            assert(app_models(self.applications@).take(self.applications@.len() as int) =~= app_models(self.applications@));
        }

        // replay backends
        let mut i: usize = 0;
        while i < self.backends.len()
            invariant
                self.wf(),
                i <= self.backends.len(),
                cur == apply_seq(StateModel::empty(), order_models(out@)),
                cur.applications == self@.applications,
                cur.http_fronts == Map::<FrontKey, FrontModel>::empty(),
                cur.https_fronts == Map::<FrontKey, FrontModel>::empty(),
                cur.certificates == Map::<Seq<char>, CertModel>::empty(),
                cur.backends == keyed_map(backend_models(self.backends@).take(i as int), backend_key()),
                forall|k: int| 0 <= k < out@.len()
                    ==> apply(self@, #[trigger] order_models(out@)[k]) == self@
                        && !(order_models(out@)[k] is SoftStop)
                        && !(order_models(out@)[k] is HardStop),
                forall|k: int| 0 <= k < out@.len()
                    ==> replay_rank(#[trigger] order_models(out@)[k]) <= 1,
                forall|a: int, b: int| 0 <= a < b < out@.len()
                    ==> replay_rank(order_models(out@)[a]) <= replay_rank(order_models(out@)[b]),
            decreases self.backends.len() - i,
        {
            let ghost ss = backend_models(self.backends@);
            proof {
                lemma_keyed_map_contains(ss.take(i as int), backend_key());
                assert forall|j: int| 0 <= j < i implies
                    backend_key()(#[trigger] ss.take(i as int)[j]) != backend_key()(ss[i as int]) by {
                    assert(ss.take(i as int)[j] == ss[j]);
                }
                assert(!cur.backends.contains_key(backend_key()(ss[i as int])));
            }
            let ghost olds = out@;
            let o = Order::AddBackend(self.backends[i].clone());
            let ghost om = o@;
            out.push(o);
            proof {
                assert(order_models(out@) =~= order_models(olds).push(om));
                lemma_apply_seq_push(StateModel::empty(), order_models(olds), om);
                cur = apply(cur, om);
                assert(ss.take(i as int + 1) =~= ss.take(i as int).push(ss[i as int]));
                lemma_keyed_map_push(ss.take(i as int), backend_key(), ss[i as int]);
                assert(order_models(out@)[order_models(out@).len() - 1] == om);
                assert(apply(self@, om) == self@) by {
                    lemma_keyed_map_contains(ss, backend_key());
                    assert(self@.backends.contains_key(backend_key()(ss[i as int])));
                }
            }
            i += 1;
        }
        proof {
            assert(backend_models(self.backends@).take(self.backends@.len() as int) =~= backend_models(self.backends@));
        }

        // replay http_fronts
        let mut i: usize = 0;
        while i < self.http_fronts.len()
            invariant
                self.wf(),
                i <= self.http_fronts.len(),
                cur == apply_seq(StateModel::empty(), order_models(out@)),
                cur.applications == self@.applications,
                cur.https_fronts == Map::<FrontKey, FrontModel>::empty(),
                cur.certificates == Map::<Seq<char>, CertModel>::empty(),
                cur.backends == self@.backends,
                cur.http_fronts == keyed_map(front_models(self.http_fronts@).take(i as int), front_key()),
                forall|k: int| 0 <= k < out@.len()
                    ==> apply(self@, #[trigger] order_models(out@)[k]) == self@
                        && !(order_models(out@)[k] is SoftStop)
                        && !(order_models(out@)[k] is HardStop),
                forall|k: int| 0 <= k < out@.len()
                    ==> replay_rank(#[trigger] order_models(out@)[k]) <= 2,
                forall|a: int, b: int| 0 <= a < b < out@.len()
                    ==> replay_rank(order_models(out@)[a]) <= replay_rank(order_models(out@)[b]),
            decreases self.http_fronts.len() - i,
        {
            let ghost ss = front_models(self.http_fronts@);
            proof {
                lemma_keyed_map_contains(ss.take(i as int), front_key());
                assert forall|j: int| 0 <= j < i implies
                    front_key()(#[trigger] ss.take(i as int)[j]) != front_key()(ss[i as int]) by {
                    assert(ss.take(i as int)[j] == ss[j]);
                }
                assert(!cur.http_fronts.contains_key(front_key()(ss[i as int])));
            }
            let ghost olds = out@;
            let o = Order::AddHttpFront(self.http_fronts[i].clone());
            let ghost om = o@;
            out.push(o);
            proof {
                assert(order_models(out@) =~= order_models(olds).push(om));
                lemma_apply_seq_push(StateModel::empty(), order_models(olds), om);
                cur = apply(cur, om);
                assert(ss.take(i as int + 1) =~= ss.take(i as int).push(ss[i as int]));
                lemma_keyed_map_push(ss.take(i as int), front_key(), ss[i as int]);
                assert(order_models(out@)[order_models(out@).len() - 1] == om);
                assert(apply(self@, om) == self@) by {
                    lemma_keyed_map_contains(ss, front_key());
                    assert(self@.http_fronts.contains_key(front_key()(ss[i as int])));
                }
            }
            i += 1;
        }
        proof {
            assert(front_models(self.http_fronts@).take(self.http_fronts@.len() as int) =~= front_models(self.http_fronts@));
        }

        // replay https_fronts
        let mut i: usize = 0;
        while i < self.https_fronts.len()
            invariant
                self.wf(),
                i <= self.https_fronts.len(),
                cur == apply_seq(StateModel::empty(), order_models(out@)),
                cur.applications == self@.applications,
                cur.http_fronts == self@.http_fronts,
                cur.certificates == Map::<Seq<char>, CertModel>::empty(),
                cur.backends == self@.backends,
                cur.https_fronts == keyed_map(front_models(self.https_fronts@).take(i as int), front_key()),
                forall|k: int| 0 <= k < out@.len()
                    ==> apply(self@, #[trigger] order_models(out@)[k]) == self@
                        && !(order_models(out@)[k] is SoftStop)
                        && !(order_models(out@)[k] is HardStop),
                forall|k: int| 0 <= k < out@.len()
                    ==> replay_rank(#[trigger] order_models(out@)[k]) <= 3,
                forall|a: int, b: int| 0 <= a < b < out@.len()
                    ==> replay_rank(order_models(out@)[a]) <= replay_rank(order_models(out@)[b]),
            decreases self.https_fronts.len() - i,
        {
            let ghost ss = front_models(self.https_fronts@);
            proof {
                lemma_keyed_map_contains(ss.take(i as int), front_key());
                assert forall|j: int| 0 <= j < i implies
                    front_key()(#[trigger] ss.take(i as int)[j]) != front_key()(ss[i as int]) by {
                    assert(ss.take(i as int)[j] == ss[j]);
                }
                assert(!cur.https_fronts.contains_key(front_key()(ss[i as int])));
            }
            let ghost olds = out@;
            let o = Order::AddHttpsFront(self.https_fronts[i].clone());
            let ghost om = o@;
            out.push(o);
            proof {
                assert(order_models(out@) =~= order_models(olds).push(om));
                lemma_apply_seq_push(StateModel::empty(), order_models(olds), om);
                cur = apply(cur, om);
                assert(ss.take(i as int + 1) =~= ss.take(i as int).push(ss[i as int]));
                lemma_keyed_map_push(ss.take(i as int), front_key(), ss[i as int]);
                assert(order_models(out@)[order_models(out@).len() - 1] == om);
                assert(apply(self@, om) == self@) by {
                    lemma_keyed_map_contains(ss, front_key());
                    assert(self@.https_fronts.contains_key(front_key()(ss[i as int])));
                }
            }
            i += 1;
        }
        proof {
            assert(front_models(self.https_fronts@).take(self.https_fronts@.len() as int) =~= front_models(self.https_fronts@));
        }

        // replay certificates
        let mut i: usize = 0;
        while i < self.certificates.len()
            invariant
                self.wf(),
                i <= self.certificates.len(),
                cur == apply_seq(StateModel::empty(), order_models(out@)),
                cur.applications == self@.applications,
                cur.http_fronts == self@.http_fronts,
                cur.https_fronts == self@.https_fronts,
                cur.backends == self@.backends,
                cur.certificates == keyed_map(cert_models(self.certificates@).take(i as int), cert_key()),
                forall|k: int| 0 <= k < out@.len()
                    ==> apply(self@, #[trigger] order_models(out@)[k]) == self@
                        && !(order_models(out@)[k] is SoftStop)
                        && !(order_models(out@)[k] is HardStop),
                forall|k: int| 0 <= k < out@.len()
                    ==> replay_rank(#[trigger] order_models(out@)[k]) <= 4,
                forall|a: int, b: int| 0 <= a < b < out@.len()
                    ==> replay_rank(order_models(out@)[a]) <= replay_rank(order_models(out@)[b]),
            decreases self.certificates.len() - i,
        {
            let ghost ss = cert_models(self.certificates@);
            proof {
                lemma_keyed_map_contains(ss.take(i as int), cert_key());
                assert forall|j: int| 0 <= j < i implies
                    cert_key()(#[trigger] ss.take(i as int)[j]) != cert_key()(ss[i as int]) by {
                    assert(ss.take(i as int)[j] == ss[j]);
                }
                assert(!cur.certificates.contains_key(cert_key()(ss[i as int])));
            }
            let ghost olds = out@;
            let o = Order::AddCertificate(self.certificates[i].clone());
            let ghost om = o@;
            out.push(o);
            proof {
                assert(order_models(out@) =~= order_models(olds).push(om));
                lemma_apply_seq_push(StateModel::empty(), order_models(olds), om);
                cur = apply(cur, om);
                assert(ss.take(i as int + 1) =~= ss.take(i as int).push(ss[i as int]));
                lemma_keyed_map_push(ss.take(i as int), cert_key(), ss[i as int]);
                assert(order_models(out@)[order_models(out@).len() - 1] == om);
                assert(apply(self@, om) == self@) by {
                    lemma_keyed_map_contains(ss, cert_key());
                    assert(self@.certificates.contains_key(cert_key()(ss[i as int])));
                }
            }
            i += 1;
        }
        proof {
            assert(cert_models(self.certificates@).take(self.certificates@.len() as int) =~= cert_models(self.certificates@));
        }

        proof {
            assert(cur =~~= self@);
        }
        out
    }

    /// The minimal order sequence that turns this state into `other`:
    /// removals of entities `other` does not keep, then additions of what
    /// it has and this state lacks. Applying the result to this state
    /// yields `other`, and the result is empty exactly when the two states
    /// already agree.
    pub fn diff(&self, other: &ConfigState) -> (r: Vec<Order>)
        requires
            self.wf(),
            other.wf(),
        ensures
            apply_seq(self@, order_models(r@)) == other@,
            (r@.len() == 0) == (self@ == other@),
            forall|k: int| 0 <= k < r@.len() ==> diff_rank(#[trigger] order_models(r@)[k]) <= 9,
            forall|a: int, b: int| 0 <= a < b < r@.len()
                ==> diff_rank(order_models(r@)[a]) <= diff_rank(order_models(r@)[b]),
    {
        let mut out: Vec<Order> = Vec::new();
        let ghost mut cur = self@;
        proof {
            assert(order_models(out@) =~= Seq::<OrderModel>::empty());
        }

        // removals for http_fronts
        let mut i: usize = 0;
        while i < self.http_fronts.len()
            invariant
                self.wf(),
                other.wf(),
                i <= self.http_fronts.len(),
                cur == apply_seq(self@, order_models(out@)),
                cur.applications == self@.applications,
                cur.https_fronts == self@.https_fronts,
                cur.certificates == self@.certificates,
                cur.backends == self@.backends,
                forall|k: FrontKey| #[trigger] cur.http_fronts.contains_key(k)
                    == (self@.http_fronts.contains_key(k)
                        && !dropped_before(front_models(self.http_fronts@), front_key(), other@.http_fronts, k, i as int)),
                forall|k: FrontKey| #[trigger] cur.http_fronts.contains_key(k)
                    ==> cur.http_fronts[k] == self@.http_fronts[k],
                self@ == other@ ==> out@.len() == 0,
                forall|k: int| 0 <= k < out@.len()
                    ==> diff_rank(#[trigger] order_models(out@)[k]) <= 0,
                forall|a: int, b: int| 0 <= a < b < out@.len()
                    ==> diff_rank(order_models(out@)[a]) <= diff_rank(order_models(out@)[b]),
            decreases self.http_fronts.len() - i,
        {
            let ghost ss = front_models(self.http_fronts@);
            let ghost tt = other@.http_fronts;
            let ghost ki = front_key()(ss[i as int]);
            proof {
                lemma_dropped_step(ss, front_key(), tt, i as int);
                lemma_keyed_map_contains(ss, front_key());
                lemma_keyed_map_index(ss, front_key());
                lemma_keyed_map_contains(front_models(other.http_fronts@), front_key());
                lemma_keyed_map_index(front_models(other.http_fronts@), front_key());
            }
            let keep = match find_front(&other.http_fronts, &self.http_fronts[i].hostname, &self.http_fronts[i].path_begin) {
                Some(oj) => front_eq(&self.http_fronts[i], &other.http_fronts[oj]),
                None => false,
            };
            proof {
                assert(keep == (tt.contains_key(ki) && tt[ki] == ss[i as int]));
                assert(self@.http_fronts.contains_key(ki) && self@.http_fronts[ki] == ss[i as int]);
            }
            if !keep {
                proof {
                    if self@ == other@ {
                        assert(tt == self@.http_fronts);
                        assert(false);
                    }
                }
                let ghost olds = out@;
                let o = Order::RemoveHttpFront(self.http_fronts[i].clone());
                let ghost om = o@;
                out.push(o);
                proof {
                    assert(order_models(out@) =~= order_models(olds).push(om));
                    lemma_apply_seq_push(self@, order_models(olds), om);
                    cur = apply(cur, om);
                }
            }
            i += 1;
        }
        proof {
            lemma_removal_end(front_models(self.http_fronts@), front_key(), other@.http_fronts, cur.http_fronts);
        }

        // removals for https_fronts
        let mut i: usize = 0;
        while i < self.https_fronts.len()
            invariant
                self.wf(),
                other.wf(),
                i <= self.https_fronts.len(),
                cur == apply_seq(self@, order_models(out@)),
                cur.applications == self@.applications,
                cur.http_fronts == agree_map(self@.http_fronts, other@.http_fronts),
                cur.certificates == self@.certificates,
                cur.backends == self@.backends,
                forall|k: FrontKey| #[trigger] cur.https_fronts.contains_key(k)
                    == (self@.https_fronts.contains_key(k)
                        && !dropped_before(front_models(self.https_fronts@), front_key(), other@.https_fronts, k, i as int)),
                forall|k: FrontKey| #[trigger] cur.https_fronts.contains_key(k)
                    ==> cur.https_fronts[k] == self@.https_fronts[k],
                self@ == other@ ==> out@.len() == 0,
                forall|k: int| 0 <= k < out@.len()
                    ==> diff_rank(#[trigger] order_models(out@)[k]) <= 1,
                forall|a: int, b: int| 0 <= a < b < out@.len()
                    ==> diff_rank(order_models(out@)[a]) <= diff_rank(order_models(out@)[b]),
            decreases self.https_fronts.len() - i,
        {
            let ghost ss = front_models(self.https_fronts@);
            let ghost tt = other@.https_fronts;
            let ghost ki = front_key()(ss[i as int]);
            proof {
                lemma_dropped_step(ss, front_key(), tt, i as int);
                lemma_keyed_map_contains(ss, front_key());
                lemma_keyed_map_index(ss, front_key());
                lemma_keyed_map_contains(front_models(other.https_fronts@), front_key());
                lemma_keyed_map_index(front_models(other.https_fronts@), front_key());
            }
            let keep = match find_front(&other.https_fronts, &self.https_fronts[i].hostname, &self.https_fronts[i].path_begin) {
                Some(oj) => front_eq(&self.https_fronts[i], &other.https_fronts[oj]),
                None => false,
            };
            proof {
                assert(keep == (tt.contains_key(ki) && tt[ki] == ss[i as int]));
                assert(self@.https_fronts.contains_key(ki) && self@.https_fronts[ki] == ss[i as int]);
            }
            if !keep {
                proof {
                    if self@ == other@ {
                        assert(tt == self@.https_fronts);
                        assert(false);
                    }
                }
                let ghost olds = out@;
                let o = Order::RemoveHttpsFront(self.https_fronts[i].clone());
                let ghost om = o@;
                out.push(o);
                proof {
                    assert(order_models(out@) =~= order_models(olds).push(om));
                    lemma_apply_seq_push(self@, order_models(olds), om);
                    cur = apply(cur, om);
                }
            }
            i += 1;
        }
        proof {
            lemma_removal_end(front_models(self.https_fronts@), front_key(), other@.https_fronts, cur.https_fronts);
        }

        // removals for backends
        let mut i: usize = 0;
        while i < self.backends.len()
            invariant
                self.wf(),
                other.wf(),
                i <= self.backends.len(),
                cur == apply_seq(self@, order_models(out@)),
                cur.applications == self@.applications,
                cur.http_fronts == agree_map(self@.http_fronts, other@.http_fronts),
                cur.https_fronts == agree_map(self@.https_fronts, other@.https_fronts),
                cur.certificates == self@.certificates,
                forall|k: BackendModel| #[trigger] cur.backends.contains_key(k)
                    == (self@.backends.contains_key(k)
                        && !dropped_before(backend_models(self.backends@), backend_key(), other@.backends, k, i as int)),
                forall|k: BackendModel| #[trigger] cur.backends.contains_key(k)
                    ==> cur.backends[k] == self@.backends[k],
                self@ == other@ ==> out@.len() == 0,
                forall|k: int| 0 <= k < out@.len()
                    ==> diff_rank(#[trigger] order_models(out@)[k]) <= 2,
                forall|a: int, b: int| 0 <= a < b < out@.len()
                    ==> diff_rank(order_models(out@)[a]) <= diff_rank(order_models(out@)[b]),
            decreases self.backends.len() - i,
        {
            let ghost ss = backend_models(self.backends@);
            let ghost tt = other@.backends;
            let ghost ki = backend_key()(ss[i as int]);
            proof {
                lemma_dropped_step(ss, backend_key(), tt, i as int);
                lemma_keyed_map_contains(ss, backend_key());
                lemma_keyed_map_index(ss, backend_key());
                lemma_keyed_map_contains(backend_models(other.backends@), backend_key());
                lemma_keyed_map_index(backend_models(other.backends@), backend_key());
            }
            let keep = find_backend(&other.backends, &self.backends[i]).is_some();
            proof {
                assert(keep == (tt.contains_key(ki) && tt[ki] == ss[i as int]));
                assert(self@.backends.contains_key(ki) && self@.backends[ki] == ss[i as int]);
            }
            if !keep {
                proof {
                    if self@ == other@ {
                        assert(tt == self@.backends);
                        assert(false);
                    }
                }
                let ghost olds = out@;
                let o = Order::RemoveBackend(self.backends[i].clone());
                let ghost om = o@;
                out.push(o);
                proof {
                    assert(order_models(out@) =~= order_models(olds).push(om));
                    lemma_apply_seq_push(self@, order_models(olds), om);
                    cur = apply(cur, om);
                }
            }
            i += 1;
        }
        proof {
            lemma_removal_end(backend_models(self.backends@), backend_key(), other@.backends, cur.backends);
        }

        // removals for certificates
        let mut i: usize = 0;
        while i < self.certificates.len()
            invariant
                self.wf(),
                other.wf(),
                i <= self.certificates.len(),
                cur == apply_seq(self@, order_models(out@)),
                cur.applications == self@.applications,
                cur.http_fronts == agree_map(self@.http_fronts, other@.http_fronts),
                cur.https_fronts == agree_map(self@.https_fronts, other@.https_fronts),
                cur.backends == agree_map(self@.backends, other@.backends),
                forall|k: Seq<char>| #[trigger] cur.certificates.contains_key(k)
                    == (self@.certificates.contains_key(k)
                        && !dropped_before(cert_models(self.certificates@), cert_key(), other@.certificates, k, i as int)),
                forall|k: Seq<char>| #[trigger] cur.certificates.contains_key(k)
                    ==> cur.certificates[k] == self@.certificates[k],
                self@ == other@ ==> out@.len() == 0,
                forall|k: int| 0 <= k < out@.len()
                    ==> diff_rank(#[trigger] order_models(out@)[k]) <= 3,
                forall|a: int, b: int| 0 <= a < b < out@.len()
                    ==> diff_rank(order_models(out@)[a]) <= diff_rank(order_models(out@)[b]),
            decreases self.certificates.len() - i,
        {
            let ghost ss = cert_models(self.certificates@);
            let ghost tt = other@.certificates;
            let ghost ki = cert_key()(ss[i as int]);
            proof {
                lemma_dropped_step(ss, cert_key(), tt, i as int);
                lemma_keyed_map_contains(ss, cert_key());
                lemma_keyed_map_index(ss, cert_key());
                lemma_keyed_map_contains(cert_models(other.certificates@), cert_key());
                lemma_keyed_map_index(cert_models(other.certificates@), cert_key());
            }
            let keep = match find_cert(&other.certificates, &self.certificates[i].fingerprint) {
                Some(oj) => cert_eq(&self.certificates[i], &other.certificates[oj]),
                None => false,
            };
            proof {
                assert(keep == (tt.contains_key(ki) && tt[ki] == ss[i as int]));
                assert(self@.certificates.contains_key(ki) && self@.certificates[ki] == ss[i as int]);
            }
            if !keep {
                proof {
                    if self@ == other@ {
                        assert(tt == self@.certificates);
                        assert(false);
                    }
                }
                let ghost olds = out@;
                let o = Order::RemoveCertificate(self.certificates[i].fingerprint.clone());
                let ghost om = o@;
                out.push(o);
                proof {
                    assert(order_models(out@) =~= order_models(olds).push(om));
                    lemma_apply_seq_push(self@, order_models(olds), om);
                    cur = apply(cur, om);
                }
            }
            i += 1;
        }
        proof {
            lemma_removal_end(cert_models(self.certificates@), cert_key(), other@.certificates, cur.certificates);
        }

        // removals for applications
        let mut i: usize = 0;
        while i < self.applications.len()
            invariant
                self.wf(),
                other.wf(),
                i <= self.applications.len(),
                cur == apply_seq(self@, order_models(out@)),
                cur.http_fronts == agree_map(self@.http_fronts, other@.http_fronts),
                cur.https_fronts == agree_map(self@.https_fronts, other@.https_fronts),
                cur.certificates == agree_map(self@.certificates, other@.certificates),
                cur.backends == agree_map(self@.backends, other@.backends),
                forall|k: Seq<char>| #[trigger] cur.applications.contains_key(k)
                    == (self@.applications.contains_key(k)
                        && !dropped_before(app_models(self.applications@), app_key(), other@.applications, k, i as int)),
                forall|k: Seq<char>| #[trigger] cur.applications.contains_key(k)
                    ==> cur.applications[k] == self@.applications[k],
                self@ == other@ ==> out@.len() == 0,
                forall|k: int| 0 <= k < out@.len()
                    ==> diff_rank(#[trigger] order_models(out@)[k]) <= 4,
                forall|a: int, b: int| 0 <= a < b < out@.len()
                    ==> diff_rank(order_models(out@)[a]) <= diff_rank(order_models(out@)[b]),
            decreases self.applications.len() - i,
        {
            let ghost ss = app_models(self.applications@);
            let ghost tt = other@.applications;
            let ghost ki = app_key()(ss[i as int]);
            proof {
                lemma_dropped_step(ss, app_key(), tt, i as int);
                lemma_keyed_map_contains(ss, app_key());
                lemma_keyed_map_index(ss, app_key());
                lemma_keyed_map_contains(app_models(other.applications@), app_key());
                lemma_keyed_map_index(app_models(other.applications@), app_key());
            }
            let keep = match find_app(&other.applications, &self.applications[i].app_id) {
                Some(oj) => app_eq(&self.applications[i], &other.applications[oj]),
                None => false,
            };
            proof {
                assert(keep == (tt.contains_key(ki) && tt[ki] == ss[i as int]));
                assert(self@.applications.contains_key(ki) && self@.applications[ki] == ss[i as int]);
            }
            if !keep {
                proof {
                    if self@ == other@ {
                        assert(tt == self@.applications);
                        assert(false);
                    }
                }
                let ghost olds = out@;
                let o = Order::RemoveApplication(self.applications[i].app_id.clone());
                let ghost om = o@;
                out.push(o);
                proof {
                    assert(order_models(out@) =~= order_models(olds).push(om));
                    lemma_apply_seq_push(self@, order_models(olds), om);
                    cur = apply(cur, om);
                }
            }
            i += 1;
        }
        proof {
            lemma_removal_end(app_models(self.applications@), app_key(), other@.applications, cur.applications);
        }

        // additions for applications
        let mut i: usize = 0;
        while i < other.applications.len()
            invariant
                self.wf(),
                other.wf(),
                i <= other.applications.len(),
                cur == apply_seq(self@, order_models(out@)),
                cur.http_fronts == agree_map(self@.http_fronts, other@.http_fronts),
                cur.https_fronts == agree_map(self@.https_fronts, other@.https_fronts),
                cur.certificates == agree_map(self@.certificates, other@.certificates),
                cur.backends == agree_map(self@.backends, other@.backends),
                forall|k: Seq<char>| #[trigger] cur.applications.contains_key(k)
                    == (agree_map(self@.applications, other@.applications).contains_key(k)
                        || present_before(app_models(other.applications@), app_key(), k, i as int)),
                forall|k: Seq<char>| #[trigger] cur.applications.contains_key(k)
                    ==> cur.applications[k] == other@.applications[k],
                self@ == other@ ==> out@.len() == 0,
                forall|k: int| 0 <= k < out@.len()
                    ==> diff_rank(#[trigger] order_models(out@)[k]) <= 5,
                forall|a: int, b: int| 0 <= a < b < out@.len()
                    ==> diff_rank(order_models(out@)[a]) <= diff_rank(order_models(out@)[b]),
            decreases other.applications.len() - i,
        {
            let ghost tt = app_models(other.applications@);
            let ghost ki = app_key()(tt[i as int]);
            proof {
                lemma_present_step(tt, app_key(), i as int);
                lemma_keyed_map_contains(tt, app_key());
                lemma_keyed_map_index(tt, app_key());
                lemma_keyed_map_contains(app_models(self.applications@), app_key());
                lemma_keyed_map_index(app_models(self.applications@), app_key());
                assert(other@.applications.contains_key(ki) && other@.applications[ki] == tt[i as int]);
            }
            let agreed = match find_app(&self.applications, &other.applications[i].app_id) {
                Some(sj) => app_eq(&other.applications[i], &self.applications[sj]),
                None => false,
            };
            proof {
                assert(agreed == (self@.applications.contains_key(ki) && self@.applications[ki] == tt[i as int]));
            }
            if agreed {
                proof {
                    assert(agree_map(self@.applications, other@.applications).contains_key(ki));
                    assert(cur.applications.contains_key(ki));
                }
            } else {
                proof {
                    if self@ == other@ {
                        assert(self@.applications == other@.applications);
                        assert(false);
                    }
                }
                let ghost olds = out@;
                let o = Order::AddApplication(other.applications[i].clone());
                let ghost om = o@;
                out.push(o);
                proof {
                    assert(order_models(out@) =~= order_models(olds).push(om));
                    lemma_apply_seq_push(self@, order_models(olds), om);
                    cur = apply(cur, om);
                }
            }
            i += 1;
        }
        proof {
            lemma_addition_end(app_models(other.applications@), app_key(), agree_map(self@.applications, other@.applications), cur.applications);
        }

        // additions for backends
        let mut i: usize = 0;
        while i < other.backends.len()
            invariant
                self.wf(),
                other.wf(),
                i <= other.backends.len(),
                cur == apply_seq(self@, order_models(out@)),
                cur.applications == other@.applications,
                cur.http_fronts == agree_map(self@.http_fronts, other@.http_fronts),
                cur.https_fronts == agree_map(self@.https_fronts, other@.https_fronts),
                cur.certificates == agree_map(self@.certificates, other@.certificates),
                forall|k: BackendModel| #[trigger] cur.backends.contains_key(k)
                    == (agree_map(self@.backends, other@.backends).contains_key(k)
                        || present_before(backend_models(other.backends@), backend_key(), k, i as int)),
                forall|k: BackendModel| #[trigger] cur.backends.contains_key(k)
                    ==> cur.backends[k] == other@.backends[k],
                self@ == other@ ==> out@.len() == 0,
                forall|k: int| 0 <= k < out@.len()
                    ==> diff_rank(#[trigger] order_models(out@)[k]) <= 6,
                forall|a: int, b: int| 0 <= a < b < out@.len()
                    ==> diff_rank(order_models(out@)[a]) <= diff_rank(order_models(out@)[b]),
            decreases other.backends.len() - i,
        {
            let ghost tt = backend_models(other.backends@);
            let ghost ki = backend_key()(tt[i as int]);
            proof {
                lemma_present_step(tt, backend_key(), i as int);
                lemma_keyed_map_contains(tt, backend_key());
                lemma_keyed_map_index(tt, backend_key());
                lemma_keyed_map_contains(backend_models(self.backends@), backend_key());
                lemma_keyed_map_index(backend_models(self.backends@), backend_key());
                assert(other@.backends.contains_key(ki) && other@.backends[ki] == tt[i as int]);
            }
            let agreed = find_backend(&self.backends, &other.backends[i]).is_some();
            proof {
                assert(agreed == (self@.backends.contains_key(ki) && self@.backends[ki] == tt[i as int]));
            }
            if agreed {
                proof {
                    assert(agree_map(self@.backends, other@.backends).contains_key(ki));
                    assert(cur.backends.contains_key(ki));
                }
            } else {
                proof {
                    if self@ == other@ {
                        assert(self@.backends == other@.backends);
                        assert(false);
                    }
                }
                let ghost olds = out@;
                let o = Order::AddBackend(other.backends[i].clone());
                let ghost om = o@;
                out.push(o);
                proof {
                    assert(order_models(out@) =~= order_models(olds).push(om));
                    lemma_apply_seq_push(self@, order_models(olds), om);
                    cur = apply(cur, om);
                }
            }
            i += 1;
        }
        proof {
            lemma_addition_end(backend_models(other.backends@), backend_key(), agree_map(self@.backends, other@.backends), cur.backends);
        }

        // additions for http_fronts
        let mut i: usize = 0;
        while i < other.http_fronts.len()
            invariant
                self.wf(),
                other.wf(),
                i <= other.http_fronts.len(),
                cur == apply_seq(self@, order_models(out@)),
                cur.applications == other@.applications,
                cur.https_fronts == agree_map(self@.https_fronts, other@.https_fronts),
                cur.certificates == agree_map(self@.certificates, other@.certificates),
                cur.backends == other@.backends,
                forall|k: FrontKey| #[trigger] cur.http_fronts.contains_key(k)
                    == (agree_map(self@.http_fronts, other@.http_fronts).contains_key(k)
                        || present_before(front_models(other.http_fronts@), front_key(), k, i as int)),
                forall|k: FrontKey| #[trigger] cur.http_fronts.contains_key(k)
                    ==> cur.http_fronts[k] == other@.http_fronts[k],
                self@ == other@ ==> out@.len() == 0,
                forall|k: int| 0 <= k < out@.len()
                    ==> diff_rank(#[trigger] order_models(out@)[k]) <= 7,
                forall|a: int, b: int| 0 <= a < b < out@.len()
                    ==> diff_rank(order_models(out@)[a]) <= diff_rank(order_models(out@)[b]),
            decreases other.http_fronts.len() - i,
        {
            let ghost tt = front_models(other.http_fronts@);
            let ghost ki = front_key()(tt[i as int]);
            proof {
                lemma_present_step(tt, front_key(), i as int);
                lemma_keyed_map_contains(tt, front_key());
                lemma_keyed_map_index(tt, front_key());
                lemma_keyed_map_contains(front_models(self.http_fronts@), front_key());
                lemma_keyed_map_index(front_models(self.http_fronts@), front_key());
                assert(other@.http_fronts.contains_key(ki) && other@.http_fronts[ki] == tt[i as int]);
            }
            let agreed = match find_front(&self.http_fronts, &other.http_fronts[i].hostname, &other.http_fronts[i].path_begin) {
                Some(sj) => front_eq(&other.http_fronts[i], &self.http_fronts[sj]),
                None => false,
            };
            proof {
                assert(agreed == (self@.http_fronts.contains_key(ki) && self@.http_fronts[ki] == tt[i as int]));
            }
            if agreed {
                proof {
                    assert(agree_map(self@.http_fronts, other@.http_fronts).contains_key(ki));
                    assert(cur.http_fronts.contains_key(ki));
                }
            } else {
                proof {
                    if self@ == other@ {
                        assert(self@.http_fronts == other@.http_fronts);
                        assert(false);
                    }
                }
                let ghost olds = out@;
                let o = Order::AddHttpFront(other.http_fronts[i].clone());
                let ghost om = o@;
                out.push(o);
                proof {
                    assert(order_models(out@) =~= order_models(olds).push(om));
                    lemma_apply_seq_push(self@, order_models(olds), om);
                    cur = apply(cur, om);
                }
            }
            i += 1;
        }
        proof {
            lemma_addition_end(front_models(other.http_fronts@), front_key(), agree_map(self@.http_fronts, other@.http_fronts), cur.http_fronts);
        }

        // additions for https_fronts
        let mut i: usize = 0;
        while i < other.https_fronts.len()
            invariant
                self.wf(),
                other.wf(),
                i <= other.https_fronts.len(),
                cur == apply_seq(self@, order_models(out@)),
                cur.applications == other@.applications,
                cur.http_fronts == other@.http_fronts,
                cur.certificates == agree_map(self@.certificates, other@.certificates),
                cur.backends == other@.backends,
                forall|k: FrontKey| #[trigger] cur.https_fronts.contains_key(k)
                    == (agree_map(self@.https_fronts, other@.https_fronts).contains_key(k)
                        || present_before(front_models(other.https_fronts@), front_key(), k, i as int)),
                forall|k: FrontKey| #[trigger] cur.https_fronts.contains_key(k)
                    ==> cur.https_fronts[k] == other@.https_fronts[k],
                self@ == other@ ==> out@.len() == 0,
                forall|k: int| 0 <= k < out@.len()
                    ==> diff_rank(#[trigger] order_models(out@)[k]) <= 8,
                forall|a: int, b: int| 0 <= a < b < out@.len()
                    ==> diff_rank(order_models(out@)[a]) <= diff_rank(order_models(out@)[b]),
            decreases other.https_fronts.len() - i,
        {
            let ghost tt = front_models(other.https_fronts@);
            let ghost ki = front_key()(tt[i as int]);
            proof {
                lemma_present_step(tt, front_key(), i as int);
                lemma_keyed_map_contains(tt, front_key());
                lemma_keyed_map_index(tt, front_key());
                lemma_keyed_map_contains(front_models(self.https_fronts@), front_key());
                lemma_keyed_map_index(front_models(self.https_fronts@), front_key());
                assert(other@.https_fronts.contains_key(ki) && other@.https_fronts[ki] == tt[i as int]);
            }
            let agreed = match find_front(&self.https_fronts, &other.https_fronts[i].hostname, &other.https_fronts[i].path_begin) {
                Some(sj) => front_eq(&other.https_fronts[i], &self.https_fronts[sj]),
                None => false,
            };
            proof {
                assert(agreed == (self@.https_fronts.contains_key(ki) && self@.https_fronts[ki] == tt[i as int]));
            }
            if agreed {
                proof {
                    assert(agree_map(self@.https_fronts, other@.https_fronts).contains_key(ki));
                    assert(cur.https_fronts.contains_key(ki));
                }
            } else {
                proof {
                    if self@ == other@ {
                        assert(self@.https_fronts == other@.https_fronts);
                        assert(false);
                    }
                }
                let ghost olds = out@;
                let o = Order::AddHttpsFront(other.https_fronts[i].clone());
                let ghost om = o@;
                out.push(o);
                proof {
                    assert(order_models(out@) =~= order_models(olds).push(om));
                    lemma_apply_seq_push(self@, order_models(olds), om);
                    cur = apply(cur, om);
                }
            }
            i += 1;
        }
        proof {
            lemma_addition_end(front_models(other.https_fronts@), front_key(), agree_map(self@.https_fronts, other@.https_fronts), cur.https_fronts);
        }

        // additions for certificates
        let mut i: usize = 0;
        while i < other.certificates.len()
            invariant
                self.wf(),
                other.wf(),
                i <= other.certificates.len(),
                cur == apply_seq(self@, order_models(out@)),
                cur.applications == other@.applications,
                cur.http_fronts == other@.http_fronts,
                cur.https_fronts == other@.https_fronts,
                cur.backends == other@.backends,
                forall|k: Seq<char>| #[trigger] cur.certificates.contains_key(k)
                    == (agree_map(self@.certificates, other@.certificates).contains_key(k)
                        || present_before(cert_models(other.certificates@), cert_key(), k, i as int)),
                forall|k: Seq<char>| #[trigger] cur.certificates.contains_key(k)
                    ==> cur.certificates[k] == other@.certificates[k],
                self@ == other@ ==> out@.len() == 0,
                forall|k: int| 0 <= k < out@.len()
                    ==> diff_rank(#[trigger] order_models(out@)[k]) <= 9,
                forall|a: int, b: int| 0 <= a < b < out@.len()
                    ==> diff_rank(order_models(out@)[a]) <= diff_rank(order_models(out@)[b]),
            decreases other.certificates.len() - i,
        {
            let ghost tt = cert_models(other.certificates@);
            let ghost ki = cert_key()(tt[i as int]);
            proof {
                lemma_present_step(tt, cert_key(), i as int);
                lemma_keyed_map_contains(tt, cert_key());
                lemma_keyed_map_index(tt, cert_key());
                lemma_keyed_map_contains(cert_models(self.certificates@), cert_key());
                lemma_keyed_map_index(cert_models(self.certificates@), cert_key());
                assert(other@.certificates.contains_key(ki) && other@.certificates[ki] == tt[i as int]);
            }
            let agreed = match find_cert(&self.certificates, &other.certificates[i].fingerprint) {
                Some(sj) => cert_eq(&other.certificates[i], &self.certificates[sj]),
                None => false,
            };
            proof {
                assert(agreed == (self@.certificates.contains_key(ki) && self@.certificates[ki] == tt[i as int]));
            }
            if agreed {
                proof {
                    assert(agree_map(self@.certificates, other@.certificates).contains_key(ki));
                    assert(cur.certificates.contains_key(ki));
                }
            } else {
                proof {
                    if self@ == other@ {
                        assert(self@.certificates == other@.certificates);
                        assert(false);
                    }
                }
                let ghost olds = out@;
                let o = Order::AddCertificate(other.certificates[i].clone());
                let ghost om = o@;
                out.push(o);
                proof {
                    assert(order_models(out@) =~= order_models(olds).push(om));
                    lemma_apply_seq_push(self@, order_models(olds), om);
                    cur = apply(cur, om);
                }
            }
            i += 1;
        }
        proof {
            lemma_addition_end(cert_models(other.certificates@), cert_key(), agree_map(self@.certificates, other@.certificates), cur.certificates);
        }

        proof {
            assert(cur =~~= other@);
            if out@.len() == 0 {
                assert(order_models(out@) =~= Seq::<OrderModel>::empty());
            }
        }
        out
    }

    /// Two states are the same exactly when their models agree.
    pub fn same_state(&self, other: &ConfigState) -> (r: bool)
        requires
            self.wf(),
            other.wf(),
        ensures
            r == (self@ == other@),
    {
        let d = self.diff(other);
        d.len() == 0
    }
}


impl ConfigState {
    /// Decides well-formedness at run time: within each family, no two
    /// entries carry the same key.
    pub fn check_wf(&self) -> (r: bool)
        ensures
            r == self.wf(),
    {
        let mut i: usize = 0;
        while i < self.applications.len()
            invariant
                i <= self.applications@.len(),
                forall|a: int, b: int| 0 <= a < b < i
                    ==> app_key()(app_models(self.applications@)[a]) != app_key()(app_models(self.applications@)[b]),
            decreases self.applications@.len() - i,
        {
            let mut j: usize = 0;
            while j < i
                invariant
                    j <= i,
                    i < self.applications@.len(),
                    forall|a: int| 0 <= a < j
                        ==> app_key()(app_models(self.applications@)[a]) != app_key()(app_models(self.applications@)[i as int]),
                decreases i - j,
            {
                if self.applications[j].app_id == self.applications[i].app_id {
                    proof {
                        assert(app_key()(app_models(self.applications@)[j as int])
                            == app_key()(app_models(self.applications@)[i as int]));
                        assert(!unique_keys(app_models(self.applications@), app_key()));
                    }
                    return false;
                }
                j += 1;
            }
            i += 1;
        }
        let mut i: usize = 0;
        while i < self.http_fronts.len()
            invariant
                i <= self.http_fronts@.len(),
                forall|a: int, b: int| 0 <= a < b < i
                    ==> front_key()(front_models(self.http_fronts@)[a]) != front_key()(front_models(self.http_fronts@)[b]),
            decreases self.http_fronts@.len() - i,
        {
            let mut j: usize = 0;
            while j < i
                invariant
                    j <= i,
                    i < self.http_fronts@.len(),
                    forall|a: int| 0 <= a < j
                        ==> front_key()(front_models(self.http_fronts@)[a]) != front_key()(front_models(self.http_fronts@)[i as int]),
                decreases i - j,
            {
                if self.http_fronts[j].hostname == self.http_fronts[i].hostname && self.http_fronts[j].path_begin == self.http_fronts[i].path_begin {
                    proof {
                        assert(front_key()(front_models(self.http_fronts@)[j as int])
                            == front_key()(front_models(self.http_fronts@)[i as int]));
                        assert(!unique_keys(front_models(self.http_fronts@), front_key()));
                    }
                    return false;
                }
                j += 1;
            }
            i += 1;
        }
        let mut i: usize = 0;
        while i < self.https_fronts.len()
            invariant
                i <= self.https_fronts@.len(),
                forall|a: int, b: int| 0 <= a < b < i
                    ==> front_key()(front_models(self.https_fronts@)[a]) != front_key()(front_models(self.https_fronts@)[b]),
            decreases self.https_fronts@.len() - i,
        {
            let mut j: usize = 0;
            while j < i
                invariant
                    j <= i,
                    i < self.https_fronts@.len(),
                    forall|a: int| 0 <= a < j
                        ==> front_key()(front_models(self.https_fronts@)[a]) != front_key()(front_models(self.https_fronts@)[i as int]),
                decreases i - j,
            {
                if self.https_fronts[j].hostname == self.https_fronts[i].hostname && self.https_fronts[j].path_begin == self.https_fronts[i].path_begin {
                    proof {
                        assert(front_key()(front_models(self.https_fronts@)[j as int])
                            == front_key()(front_models(self.https_fronts@)[i as int]));
                        assert(!unique_keys(front_models(self.https_fronts@), front_key()));
                    }
                    return false;
                }
                j += 1;
            }
            i += 1;
        }
        let mut i: usize = 0;
        while i < self.certificates.len()
            invariant
                i <= self.certificates@.len(),
                forall|a: int, b: int| 0 <= a < b < i
                    ==> cert_key()(cert_models(self.certificates@)[a]) != cert_key()(cert_models(self.certificates@)[b]),
            decreases self.certificates@.len() - i,
        {
            let mut j: usize = 0;
            while j < i
                invariant
                    j <= i,
                    i < self.certificates@.len(),
                    forall|a: int| 0 <= a < j
                        ==> cert_key()(cert_models(self.certificates@)[a]) != cert_key()(cert_models(self.certificates@)[i as int]),
                decreases i - j,
            {
                if self.certificates[j].fingerprint == self.certificates[i].fingerprint {
                    proof {
                        assert(cert_key()(cert_models(self.certificates@)[j as int])
                            == cert_key()(cert_models(self.certificates@)[i as int]));
                        assert(!unique_keys(cert_models(self.certificates@), cert_key()));
                    }
                    return false;
                }
                j += 1;
            }
            i += 1;
        }
        let mut i: usize = 0;
        while i < self.backends.len()
            invariant
                i <= self.backends@.len(),
                forall|a: int, b: int| 0 <= a < b < i
                    ==> backend_key()(backend_models(self.backends@)[a]) != backend_key()(backend_models(self.backends@)[b]),
            decreases self.backends@.len() - i,
        {
            let mut j: usize = 0;
            while j < i
                invariant
                    j <= i,
                    i < self.backends@.len(),
                    forall|a: int| 0 <= a < j
                        ==> backend_key()(backend_models(self.backends@)[a]) != backend_key()(backend_models(self.backends@)[i as int]),
                decreases i - j,
            {
                if self.backends[j].app_id == self.backends[i].app_id && self.backends[j].ip_address == self.backends[i].ip_address && self.backends[j].port == self.backends[i].port {
                    proof {
                        assert(backend_key()(backend_models(self.backends@)[j as int])
                            == backend_key()(backend_models(self.backends@)[i as int]));
                        assert(!unique_keys(backend_models(self.backends@), backend_key()));
                    }
                    return false;
                }
                j += 1;
            }
            i += 1;
        }
        true
    }
}

} // verus!
