//! The order language and the admin/worker message types.
//!
//! Every type here is a plain value: the wire carries them as framed JSON,
//! but encoding and decoding happen outside the library. Each type with a
//! `String` field has a deep model (`...Model`) over `Seq<char>`, which is
//! what the library's contracts speak of.

use vstd::prelude::*;

verus! {

/// One application (a routing target) known to the proxy.
pub struct Application {
    pub app_id: String,
    pub sticky_session: bool,
}

pub struct AppModel {
    pub app_id: Seq<char>,
    pub sticky_session: bool,
}

impl View for Application {
    type V = AppModel;

    open spec fn view(&self) -> AppModel {
        AppModel { app_id: self.app_id@, sticky_session: self.sticky_session }
    }
}

impl Clone for Application {
    fn clone(&self) -> (r: Self)
        ensures
            r == *self,
    {
        Application { app_id: self.app_id.clone(), sticky_session: self.sticky_session }
    }
}

/// An HTTP(S) frontend: routes `(hostname, path_begin)` to an application.
pub struct HttpFront {
    pub app_id: String,
    pub hostname: String,
    pub path_begin: String,
}

pub struct FrontModel {
    pub app_id: Seq<char>,
    pub hostname: Seq<char>,
    pub path_begin: Seq<char>,
}

/// Frontends are keyed by `(hostname, path_begin)`, unique per scheme.
pub type FrontKey = (Seq<char>, Seq<char>);

impl FrontModel {
    pub open spec fn key(self) -> FrontKey {
        (self.hostname, self.path_begin)
    }
}

impl View for HttpFront {
    type V = FrontModel;

    open spec fn view(&self) -> FrontModel {
        FrontModel {
            app_id: self.app_id@,
            hostname: self.hostname@,
            path_begin: self.path_begin@,
        }
    }
}

impl Clone for HttpFront {
    fn clone(&self) -> (r: Self)
        ensures
            r == *self,
    {
        HttpFront {
            app_id: self.app_id.clone(),
            hostname: self.hostname.clone(),
            path_begin: self.path_begin.clone(),
        }
    }
}

/// A TLS certificate, keyed by its fingerprint.
pub struct Certificate {
    pub fingerprint: String,
    pub certificate: String,
}

pub struct CertModel {
    pub fingerprint: Seq<char>,
    pub certificate: Seq<char>,
}

impl View for Certificate {
    type V = CertModel;

    open spec fn view(&self) -> CertModel {
        CertModel { fingerprint: self.fingerprint@, certificate: self.certificate@ }
    }
}

impl Clone for Certificate {
    fn clone(&self) -> (r: Self)
        ensures
            r == *self,
    {
        Certificate {
            fingerprint: self.fingerprint.clone(),
            certificate: self.certificate.clone(),
        }
    }
}

/// One backend server of an application.
pub struct Backend {
    pub app_id: String,
    pub ip_address: String,
    pub port: u16,
}

pub struct BackendModel {
    pub app_id: Seq<char>,
    pub ip_address: Seq<char>,
    pub port: u16,
}

impl View for Backend {
    type V = BackendModel;

    open spec fn view(&self) -> BackendModel {
        BackendModel { app_id: self.app_id@, ip_address: self.ip_address@, port: self.port }
    }
}

impl Clone for Backend {
    fn clone(&self) -> (r: Self)
        ensures
            r == *self,
    {
        Backend {
            app_id: self.app_id.clone(),
            ip_address: self.ip_address.clone(),
            port: self.port,
        }
    }
}

/// One mutation or query of the proxy plane. Orders are value objects.
pub enum Order {
    AddApplication(Application),
    RemoveApplication(String),
    AddHttpFront(HttpFront),
    RemoveHttpFront(HttpFront),
    AddHttpsFront(HttpFront),
    RemoveHttpsFront(HttpFront),
    AddCertificate(Certificate),
    RemoveCertificate(String),
    AddBackend(Backend),
    RemoveBackend(Backend),
    SoftStop,
    HardStop,
    Status,
    Metrics,
}

pub enum OrderModel {
    AddApplication(AppModel),
    RemoveApplication(Seq<char>),
    AddHttpFront(FrontModel),
    RemoveHttpFront(FrontModel),
    AddHttpsFront(FrontModel),
    RemoveHttpsFront(FrontModel),
    AddCertificate(CertModel),
    RemoveCertificate(Seq<char>),
    AddBackend(BackendModel),
    RemoveBackend(BackendModel),
    SoftStop,
    HardStop,
    Status,
    Metrics,
}

impl View for Order {
    type V = OrderModel;

    open spec fn view(&self) -> OrderModel {
        match self {
            Order::AddApplication(a) => OrderModel::AddApplication(a@),
            Order::RemoveApplication(id) => OrderModel::RemoveApplication(id@),
            Order::AddHttpFront(f) => OrderModel::AddHttpFront(f@),
            Order::RemoveHttpFront(f) => OrderModel::RemoveHttpFront(f@),
            Order::AddHttpsFront(f) => OrderModel::AddHttpsFront(f@),
            Order::RemoveHttpsFront(f) => OrderModel::RemoveHttpsFront(f@),
            Order::AddCertificate(c) => OrderModel::AddCertificate(c@),
            Order::RemoveCertificate(fp) => OrderModel::RemoveCertificate(fp@),
            Order::AddBackend(b) => OrderModel::AddBackend(b@),
            Order::RemoveBackend(b) => OrderModel::RemoveBackend(b@),
            Order::SoftStop => OrderModel::SoftStop,
            Order::HardStop => OrderModel::HardStop,
            Order::Status => OrderModel::Status,
            Order::Metrics => OrderModel::Metrics,
        }
    }
}

impl Clone for Order {
    fn clone(&self) -> (r: Self)
        ensures
            r == *self,
    {
        match self {
            Order::AddApplication(a) => Order::AddApplication(a.clone()),
            Order::RemoveApplication(id) => Order::RemoveApplication(id.clone()),
            Order::AddHttpFront(f) => Order::AddHttpFront(f.clone()),
            Order::RemoveHttpFront(f) => Order::RemoveHttpFront(f.clone()),
            Order::AddHttpsFront(f) => Order::AddHttpsFront(f.clone()),
            Order::RemoveHttpsFront(f) => Order::RemoveHttpsFront(f.clone()),
            Order::AddCertificate(c) => Order::AddCertificate(c.clone()),
            Order::RemoveCertificate(fp) => Order::RemoveCertificate(fp.clone()),
            Order::AddBackend(b) => Order::AddBackend(b.clone()),
            Order::RemoveBackend(b) => Order::RemoveBackend(b.clone()),
            Order::SoftStop => Order::SoftStop,
            Order::HardStop => Order::HardStop,
            Order::Status => Order::Status,
            Order::Metrics => Order::Metrics,
        }
    }
}

impl Order {
    /// True of the two orders that move a worker to `Stopping`.
    pub open spec fn spec_is_stop(&self) -> bool {
        self is SoftStop || self is HardStop
    }

    #[verifier::when_used_as_spec(spec_is_stop)]
    pub fn is_stop(&self) -> (r: bool)
        ensures
            r == self.spec_is_stop(),
    {
        match self {
            Order::SoftStop => true,
            Order::HardStop => true,
            _ => false,
        }
    }
}

/// Run-state of a worker process as tracked by the master.
#[derive(Clone, Copy, PartialEq, Eq, Structural, Debug)]
pub enum RunState {
    Running,
    Stopping,
    Stopped,
    NotAnswering,
}

/// Status carried by answers, both on the admin and the worker side.
/// `Processing` is non-terminal; `Ok` and `Error` are terminal.
#[derive(Clone, Copy, PartialEq, Eq, Structural, Debug)]
pub enum ConfigMessageStatus {
    Okay,
    Processing,
    Error,
}

impl ConfigMessageStatus {
    pub open spec fn spec_is_terminal(&self) -> bool {
        *self == ConfigMessageStatus::Okay || *self == ConfigMessageStatus::Error
    }

    #[verifier::when_used_as_spec(spec_is_terminal)]
    pub fn is_terminal(&self) -> (r: bool)
        ensures
            r == self.spec_is_terminal(),
    {
        match self {
            ConfigMessageStatus::Processing => false,
            _ => true,
        }
    }
}

/// A master-to-worker frame.
pub struct OrderMessage {
    pub id: String,
    pub order: Order,
}

pub struct OrderMsgModel {
    pub id: Seq<char>,
    pub order: OrderModel,
}

impl Clone for OrderMessage {
    fn clone(&self) -> (r: Self)
        ensures
            r == *self,
    {
        OrderMessage { id: self.id.clone(), order: self.order.clone() }
    }
}

impl View for OrderMessage {
    type V = OrderMsgModel;

    open spec fn view(&self) -> OrderMsgModel {
        OrderMsgModel { id: self.id@, order: self.order@ }
    }
}

/// A worker-to-master frame answering one order.
pub struct OrderMessageAnswer {
    pub id: String,
    pub status: ConfigMessageStatus,
    pub message: String,
}

/// Identity of a worker as listed to admin clients.
#[derive(Clone, Copy, PartialEq, Eq, Structural, Debug)]
pub struct WorkerInfo {
    pub id: u32,
    pub pid: i32,
    pub run_state: RunState,
}

/// The decimal digits of a number, most significant first.
pub open spec fn dec_str(n: int) -> Seq<char>
    decreases n,
{
    if n < 10 {
        seq![digit_char(n)]
    } else {
        dec_str(n / 10).push(digit_char(n % 10))
    }
}

/// The character for one decimal digit.
pub open spec fn digit_char(d: int) -> char {
    if d == 0 { '0' }
    else if d == 1 { '1' }
    else if d == 2 { '2' }
    else if d == 3 { '3' }
    else if d == 4 { '4' }
    else if d == 5 { '5' }
    else if d == 6 { '6' }
    else if d == 7 { '7' }
    else if d == 8 { '8' }
    else { '9' }
}


pub proof fn lemma_dec_str_len(n: int)
    ensures
        dec_str(n).len() >= 1,
    decreases n,
{
    if n >= 10 {
        lemma_dec_str_len(n / 10);
    }
}

/// Distinct numbers have distinct decimal strings.
pub proof fn lemma_dec_str_injective(n: int, m: int)
    requires
        0 <= n,
        0 <= m,
        n != m,
    ensures
        dec_str(n) != dec_str(m),
    decreases n + m,
{
    if n < 10 && m < 10 {
        assert(digit_char(n) != digit_char(m));
        assert(dec_str(n)[0] == digit_char(n));
        assert(dec_str(m)[0] == digit_char(m));
    } else if n < 10 {
        lemma_dec_str_len(m / 10);
        assert(dec_str(m).len() >= 2);
        assert(dec_str(n).len() == 1);
    } else if m < 10 {
        lemma_dec_str_len(n / 10);
        assert(dec_str(n).len() >= 2);
        assert(dec_str(m).len() == 1);
    } else {
        if n % 10 != m % 10 {
            assert(digit_char(n % 10) != digit_char(m % 10));
            assert(dec_str(n).last() == digit_char(n % 10));
            assert(dec_str(m).last() == digit_char(m % 10));
        } else {
            lemma_dec_str_injective(n / 10, m / 10);
            if dec_str(n) == dec_str(m) {
                assert(dec_str(n).drop_last() == dec_str(n / 10));
                assert(dec_str(m).drop_last() == dec_str(m / 10));
                assert(false);
            }
        }
    }
}

/// Request ids built from one prefix and distinct numbers are distinct.
pub proof fn lemma_prefixed_id_injective(p: Seq<char>, n: int, m: int)
    requires
        0 <= n,
        0 <= m,
        n != m,
    ensures
        p + dec_str(n) != p + dec_str(m),
{
    lemma_dec_str_injective(n, m);
    if p + dec_str(n) == p + dec_str(m) {
        assert(dec_str(n) =~= dec_str(m)) by {
            assert((p + dec_str(n)).len() == (p + dec_str(m)).len());
            assert forall|i: int| 0 <= i < dec_str(n).len() implies
                dec_str(n)[i] == dec_str(m)[i] by {
                assert((p + dec_str(n))[p.len() + i] == dec_str(n)[i]);
                assert((p + dec_str(m))[p.len() + i] == dec_str(m)[i]);
            }
        }
    }
}

/// Relies on `core::fmt`'s `Display` for `usize`: formatting writes the decimal
/// digits of the value, most significant first, with no sign or padding.
#[verifier::external_body]
pub(crate) fn fmt_id(prefix: &str, n: usize) -> (r: String)
    ensures
        r@ == prefix@ + dec_str(n as int),
{
    format!("{}{}", prefix, n)
}

} // verus!
