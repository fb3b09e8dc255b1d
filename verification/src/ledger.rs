//! The authoritative record log: a Genesis record that carries the run's initial stocks,
//! transfers in non-decreasing timestep order, and an optional completion seal that authenticates every
//! preceding record through the SHA-256 digest of their canonical bytes.

use vstd::prelude::*;

use sha2::Digest;

use crate::bytes::{hex_text, lemma_string_bytes_prefix, string_bytes, strings_bytes, to_hex, u64_be, write_string, write_u64};
use crate::endpoints::{BoundaryAccount, FiniteCompartment};
use crate::identity::{CompartmentId, SubstanceId};
use crate::initial_stocks::{stock_for, stocked_texts, InitialStocks, StocksView};
use crate::keyed::{keys_of, Key, Keyed};
use crate::model_artifact::ModelDigest;
use crate::numerical_semantics::{NonNegativeAmount, NumericalSemanticsVersion};
use crate::sparse_substance_vector::{SparseSubstanceVector, SparseView};
use crate::substance_registry::{substance_texts, SubstanceRegistry};
use crate::temporal::TimestepIndex;
use crate::topology::{endpoint_id, TopologyEndpoint};

verus! {

/// The structurally classified endpoint stored by a transfer record.
#[derive(Debug, Eq, Hash, Ord, PartialEq, PartialOrd)]
pub enum TransferEndpoint {
    /// A non-negative stock holder.
    Finite(FiniteCompartment),
    /// A signed external counterparty.
    Boundary(BoundaryAccount),
}

/// The identity of a transfer endpoint.
pub open spec fn transfer_endpoint_id(e: TransferEndpoint) -> Seq<char> {
    match e {
        TransferEndpoint::Finite(c) => c@,
        TransferEndpoint::Boundary(b) => b@,
    }
}

impl TransferEndpoint {
    /// The endpoint's compartment identity.
    pub fn id(&self) -> (r: &CompartmentId)
        ensures
            r@ == transfer_endpoint_id(*self),
    {
        match self {
            TransferEndpoint::Finite(c) => c.id(),
            TransferEndpoint::Boundary(b) => b.id(),
        }
    }

    /// Whether the endpoint is a finite compartment.
    pub fn is_finite(&self) -> (r: bool)
        ensures
            r == (*self is Finite),
    {
        match self {
            TransferEndpoint::Finite(_) => true,
            TransferEndpoint::Boundary(_) => false,
        }
    }
}

impl Clone for TransferEndpoint {
    fn clone(&self) -> (r: Self)
        ensures
            r == *self,
    {
        match self {
            TransferEndpoint::Finite(c) => TransferEndpoint::Finite(c.clone()),
            TransferEndpoint::Boundary(b) => TransferEndpoint::Boundary(b.clone()),
        }
    }
}

impl From<FiniteCompartment> for TransferEndpoint {
    fn from(value: FiniteCompartment) -> (r: Self) {
        TransferEndpoint::Finite(value)
    }
}

impl vstd::std_specs::convert::FromSpecImpl<FiniteCompartment> for TransferEndpoint {
    open spec fn obeys_from_spec() -> bool {
        true
    }

    open spec fn from_spec(v: FiniteCompartment) -> Self {
        TransferEndpoint::Finite(v)
    }
}

impl From<BoundaryAccount> for TransferEndpoint {
    fn from(value: BoundaryAccount) -> (r: Self) {
        TransferEndpoint::Boundary(value)
    }
}

impl vstd::std_specs::convert::FromSpecImpl<BoundaryAccount> for TransferEndpoint {
    open spec fn obeys_from_spec() -> bool {
        true
    }

    open spec fn from_spec(v: BoundaryAccount) -> Self {
        TransferEndpoint::Boundary(v)
    }
}

impl From<TopologyEndpoint> for TransferEndpoint {
    fn from(value: TopologyEndpoint) -> (r: Self) {
        match value {
            TopologyEndpoint::Finite(v) => TransferEndpoint::Finite(v),
            TopologyEndpoint::Boundary(v) => TransferEndpoint::Boundary(v),
        }
    }
}

impl vstd::std_specs::convert::FromSpecImpl<TopologyEndpoint> for TransferEndpoint {
    open spec fn obeys_from_spec() -> bool {
        true
    }

    open spec fn from_spec(v: TopologyEndpoint) -> Self {
        match v {
            TopologyEndpoint::Finite(c) => TransferEndpoint::Finite(c),
            TopologyEndpoint::Boundary(b) => TransferEndpoint::Boundary(b),
        }
    }
}

/// Opaque identity of one run, independent of its model artifact identity.
#[derive(Clone, Copy, Debug, Eq, Hash, Ord, PartialEq, PartialOrd)]
pub struct RunId([u8; 16]);

impl View for RunId {
    type V = Seq<u8>;

    closed spec fn view(&self) -> Seq<u8> {
        self.0@
    }
}

impl RunId {
    /// Constructs a run identity from its fixed-width representation.
    pub fn from_bytes(bytes: [u8; 16]) -> (r: Self)
        ensures
            r@ == bytes@,
    {
        RunId(bytes)
    }

    /// The fixed-width representation.
    pub fn into_bytes(self) -> (r: [u8; 16])
        ensures
            r@ == self@,
    {
        self.0
    }

    /// The fixed-width representation.
    pub fn as_bytes(&self) -> (r: &[u8; 16])
        ensures
            r@ == self@,
    {
        &self.0
    }
}

/// SHA-256 identity of Genesis and all Transfers preceding a completion seal.
#[derive(Clone, Copy, Debug, Eq, Hash, Ord, PartialEq, PartialOrd)]
pub struct LogDigest([u8; 32]);

impl View for LogDigest {
    type V = Seq<u8>;

    closed spec fn view(&self) -> Seq<u8> {
        self.0@
    }
}

/// The digest value whose bytes are `bytes`.
pub closed spec fn log_digest_of(bytes: Seq<u8>) -> LogDigest {
    choose|d: LogDigest| d@ == bytes
}

/// A digest is determined by its bytes.
pub proof fn lemma_log_digest_of(d: LogDigest)
    ensures
        log_digest_of(d@) == d,
{
    let e = log_digest_of(d@);
    assert(e@ == d@);
    assert(e.0 =~= d.0);
}

impl LogDigest {
    /// Constructs a digest value from its fixed-width representation.
    pub fn from_bytes(bytes: [u8; 32]) -> (r: Self)
        ensures
            r@ == bytes@,
    {
        LogDigest(bytes)
    }

    /// The fixed-width representation.
    pub fn into_bytes(self) -> (r: [u8; 32])
        ensures
            r@ == self@,
    {
        self.0
    }

    /// The fixed-width representation.
    pub fn as_bytes(&self) -> (r: &[u8; 32])
        ensures
            r@ == self@,
    {
        &self.0
    }

    /// The lowercase hexadecimal text of the digest.
    pub fn to_hex(self) -> (r: String)
        ensures
            r@ == hex_text(self@),
    {
        to_hex(self.0.as_slice())
    }
}

/// The SHA-256 digest of a byte sequence.
pub uninterp spec fn sha256_of(bytes: Seq<u8>) -> Seq<u8>;

/// Trusted: calls `sha2::Sha256::digest` from the `sha2` crate on `bytes` and converts the
/// 32-byte output into an array. The contract claims only that the result is the SHA-256
/// digest of exactly the given bytes, named by `sha256_of`; what that digest is, is not stated.
#[verifier::external_body]
fn sha256(bytes: &[u8]) -> (r: [u8; 32])
    ensures
        r@ == sha256_of(bytes@),
{
    sha2::Sha256::digest(bytes).into()
}

/// The first record of a run: its identity, the model digest it binds, its numerical
/// semantics and its initial stocks.
#[derive(Debug, PartialEq, Eq)]
pub struct Genesis {
    run_id: RunId,
    model_digest: ModelDigest,
    numerical_semantics: NumericalSemanticsVersion,
    initial_stocks: InitialStocks,
}

/// The content of a Genesis record.
pub struct GenesisView {
    pub run_id: Seq<u8>,
    pub model_digest: Seq<u8>,
    pub numerical_semantics: NumericalSemanticsVersion,
    pub initial_stocks: StocksView,
}

impl View for Genesis {
    type V = GenesisView;

    closed spec fn view(&self) -> GenesisView {
        GenesisView {
            run_id: self.run_id@,
            model_digest: self.model_digest@,
            numerical_semantics: self.numerical_semantics,
            initial_stocks: self.initial_stocks@,
        }
    }
}

impl Genesis {
    /// Constructs a Genesis record. Compatibility with a model artifact is checked on replay.
    pub fn new(
        run_id: RunId,
        model_digest: ModelDigest,
        numerical_semantics: NumericalSemanticsVersion,
        initial_stocks: InitialStocks,
    ) -> (r: Self)
        ensures
            r@ == (GenesisView {
                run_id: run_id@,
                model_digest: model_digest@,
                numerical_semantics,
                initial_stocks: initial_stocks@,
            }),
    {
        Genesis { run_id, model_digest, numerical_semantics, initial_stocks }
    }

    /// The run identity.
    pub fn run_id(&self) -> (r: RunId)
        ensures
            r@ == self@.run_id,
    {
        self.run_id
    }

    /// The digest of the bound model artifact.
    pub fn model_digest(&self) -> (r: ModelDigest)
        ensures
            r@ == self@.model_digest,
    {
        self.model_digest
    }

    /// The numerical semantics of the run.
    pub fn numerical_semantics_version(&self) -> (r: NumericalSemanticsVersion)
        ensures
            r == self@.numerical_semantics,
    {
        self.numerical_semantics
    }

    /// The initial stocks of the run.
    pub fn initial_stocks(&self) -> (r: &InitialStocks)
        ensures
            r@ == self@.initial_stocks,
    {
        &self.initial_stocks
    }
}

impl Clone for Genesis {
    fn clone(&self) -> (r: Self)
        ensures
            r@ == self@,
    {
        Genesis {
            run_id: self.run_id,
            model_digest: self.model_digest,
            numerical_semantics: self.numerical_semantics,
            initial_stocks: self.initial_stocks.clone(),
        }
    }
}

/// An atomic movement of registered extensive amounts between typed endpoints.
#[derive(Debug, PartialEq, Eq)]
pub struct Transfer {
    timestep: TimestepIndex,
    source: TransferEndpoint,
    target: TransferEndpoint,
    amounts: SparseSubstanceVector,
}

/// The content of a transfer: its timestep, its endpoints as kind and identity, and its amounts.
pub struct TransferView {
    pub timestep: TimestepIndex,
    pub source: (bool, Seq<char>),
    pub target: (bool, Seq<char>),
    pub amounts: SparseView,
}

impl View for Transfer {
    type V = TransferView;

    closed spec fn view(&self) -> TransferView {
        TransferView {
            timestep: self.timestep,
            source: (self.source is Finite, transfer_endpoint_id(self.source)),
            target: (self.target is Finite, transfer_endpoint_id(self.target)),
            amounts: self.amounts@,
        }
    }
}

impl Transfer {
    /// Constructs a transfer record.
    pub fn new(
        timestep: TimestepIndex,
        source: TransferEndpoint,
        target: TransferEndpoint,
        amounts: SparseSubstanceVector,
    ) -> (r: Self)
        ensures
            r@ == (TransferView {
                timestep,
                source: (source is Finite, transfer_endpoint_id(source)),
                target: (target is Finite, transfer_endpoint_id(target)),
                amounts: amounts@,
            }),
            r.spec_source() == source,
            r.spec_target() == target,
    {
        Transfer { timestep, source, target, amounts }
    }

    /// The source endpoint.
    pub closed spec fn spec_source(&self) -> TransferEndpoint {
        self.source
    }

    /// The target endpoint.
    pub closed spec fn spec_target(&self) -> TransferEndpoint {
        self.target
    }

    /// The timestep of the transfer.
    pub fn timestep(&self) -> (r: TimestepIndex)
        ensures
            r == self@.timestep,
    {
        self.timestep
    }

    /// The source endpoint.
    pub fn source(&self) -> (r: &TransferEndpoint)
        ensures
            *r == self.spec_source(),
            (*r is Finite, transfer_endpoint_id(*r)) == self@.source,
    {
        &self.source
    }

    /// The target endpoint.
    pub fn target(&self) -> (r: &TransferEndpoint)
        ensures
            *r == self.spec_target(),
            (*r is Finite, transfer_endpoint_id(*r)) == self@.target,
    {
        &self.target
    }

    /// The transferred amounts.
    pub fn amounts(&self) -> (r: &SparseSubstanceVector)
        ensures
            r@ == self@.amounts,
    {
        &self.amounts
    }
}

impl Clone for Transfer {
    fn clone(&self) -> (r: Self)
        ensures
            r@ == self@,
            r.spec_source() == self.spec_source(),
            r.spec_target() == self.spec_target(),
    {
        Transfer {
            timestep: self.timestep,
            source: self.source.clone(),
            target: self.target.clone(),
            amounts: self.amounts.clone(),
        }
    }
}

/// Terminal proof binding the declared final timestep, transfer count, and preceding records.
#[derive(Clone, Copy, Debug, Eq, PartialEq)]
pub struct RunCompleted {
    final_timestep: TimestepIndex,
    transfer_count: u64,
    log_digest: LogDigest,
}

impl RunCompleted {
    /// The declared final timestep.
    pub closed spec fn spec_final_timestep(self) -> TimestepIndex {
        self.final_timestep
    }

    /// The declared number of preceding transfers.
    pub closed spec fn spec_transfer_count(self) -> u64 {
        self.transfer_count
    }

    /// The declared digest of the preceding records.
    pub closed spec fn spec_log_digest(self) -> LogDigest {
        self.log_digest
    }

    /// Constructs a completion seal.
    pub fn new(final_timestep: TimestepIndex, transfer_count: u64, log_digest: LogDigest) -> (r: Self)
        ensures
            r.spec_final_timestep() == final_timestep,
            r.spec_transfer_count() == transfer_count,
            r.spec_log_digest() == log_digest,
    {
        RunCompleted { final_timestep, transfer_count, log_digest }
    }

    /// The declared final timestep.
    pub fn final_timestep(&self) -> (r: TimestepIndex)
        ensures
            r == self.spec_final_timestep(),
    {
        self.final_timestep
    }

    /// The declared number of preceding transfers.
    pub fn transfer_count(&self) -> (r: u64)
        ensures
            r == self.spec_transfer_count(),
    {
        self.transfer_count
    }

    /// The declared digest of the preceding records.
    pub fn log_digest(&self) -> (r: LogDigest)
        ensures
            r == self.spec_log_digest(),
    {
        self.log_digest
    }
}

/// One immutable fact in an authoritative log.
#[derive(Clone, Debug, PartialEq, Eq)]
pub enum Record {
    Genesis(Genesis),
    Transfer(Transfer),
    RunCompleted(RunCompleted),
}

/// The content of a record.
pub enum RecordView {
    Genesis(GenesisView),
    Transfer(TransferView),
    RunCompleted(RunCompleted),
}

/// The content of a record.
pub open spec fn record_view(r: Record) -> RecordView {
    match r {
        Record::Genesis(g) => RecordView::Genesis(g@),
        Record::Transfer(t) => RecordView::Transfer(t@),
        Record::RunCompleted(s) => RecordView::RunCompleted(s),
    }
}

/// Structural failures in an authoritative record sequence.
#[derive(Clone, Copy, Debug, Eq, PartialEq)]
pub enum LogError {
    /// Fires when decoded input contains no first record.
    MissingGenesis,
    /// Fires when the first decoded record is not Genesis.
    GenesisNotFirst,
    /// Fires when Genesis occurs after the first position.
    RepeatedGenesis,
    /// Fires when a record follows a terminal seal.
    RecordAfterSeal,
    /// Fires when sealing an already sealed log.
    AlreadySealed,
    /// Fires when transfer timesteps decrease in log order.
    TimestepOrder { previous: TimestepIndex, next: TimestepIndex },
    /// Fires on an unrepresentable platform-sized transfer count.
    TransferCountOverflow { count: usize },
    /// Fires when a seal's count differs from the preceding transfers.
    SealTransferCount { declared: u64, actual: u64 },
    /// Fires when a seal does not authenticate its preceding records.
    SealDigest { declared: LogDigest, actual: LogDigest },
}

/// Whether a valid sequence proves completion or remains appendable.
#[derive(Clone, Copy, Debug, Eq, PartialEq)]
pub enum RunStatus {
    /// A valid terminal seal proves execution through this timestep.
    Complete { final_timestep: TimestepIndex },
    /// Absence of a seal leaves a valid prefix for later continuation.
    ResumablePrefix { last_transfer_timestep: Option<TimestepIndex> },
}

// ----- Canonical bytes -----

/// The domain-separation prefix of the canonical log bytes: `incidence:authoritative-log:v1`
/// followed by a NUL byte.
pub open spec fn log_magic() -> Seq<u8> {
    seq![
        105u8, 110, 99, 105, 100, 101, 110, 99, 101, 58, 97, 117, 116, 104, 111, 114, 105, 116,
        97, 116, 105, 118, 101, 45, 108, 111, 103, 58, 118, 49, 0,
    ]
}

/// The byte that names a numerical semantics version.
pub open spec fn version_byte(v: NumericalSemanticsVersion) -> u8 {
    match v {
        NumericalSemanticsVersion::V1 => 1,
    }
}

/// An endpoint: a kind byte (zero for finite, one for boundary) and its identity.
pub open spec fn endpoint_bytes(finite: bool, id: Seq<char>) -> Seq<u8> {
    seq![if finite { 0u8 } else { 1u8 }] + string_bytes(id)
}

/// The endpoints of a topology in canonical order.
pub open spec fn topology_endpoints_bytes(es: Seq<TopologyEndpoint>) -> Seq<u8>
    decreases es.len(),
{
    if es.len() == 0 {
        seq![]
    } else {
        topology_endpoints_bytes(es.drop_last()) + endpoint_bytes(
            es.last() is Finite,
            endpoint_id(es.last()),
        )
    }
}

/// The connections of a topology: source then target identity.
pub open spec fn links_bytes(ls: Seq<Key>) -> Seq<u8>
    decreases ls.len(),
{
    if ls.len() == 0 {
        seq![]
    } else {
        links_bytes(ls.drop_last()) + string_bytes(ls.last()[0]) + string_bytes(ls.last()[1])
    }
}

/// Every link joins two texts, each of which encodes in at most `u64::MAX` bytes.
pub open spec fn links_fit(ls: Seq<Key>) -> bool {
    forall|i: int|
        0 <= i < ls.len() ==> (#[trigger] ls[i]).len() == 2 && vstd::utf8::encode_utf8(ls[i][0]).len()
            <= u64::MAX && vstd::utf8::encode_utf8(ls[i][1]).len() <= u64::MAX
}

proof fn lemma_links_bytes_front(ls: Seq<Key>)
    requires
        ls.len() > 0,
    ensures
        links_bytes(ls) == string_bytes(ls[0][0]) + string_bytes(ls[0][1]) + links_bytes(ls.drop_first()),
    decreases ls.len(),
{
    if ls.len() == 1 {
        assert(ls.drop_last() =~= Seq::<Key>::empty());
        assert(ls.drop_first() =~= Seq::<Key>::empty());
        assert(ls.last() == ls[0]);
        assert(links_bytes(ls) =~= string_bytes(ls[0][0]) + string_bytes(ls[0][1]) + links_bytes(
            ls.drop_first(),
        ));
    } else {
        lemma_links_bytes_front(ls.drop_last());
        assert(ls.drop_last()[0] == ls[0]);
        assert(ls.drop_last().drop_first() =~= ls.drop_first().drop_last());
        assert(ls.drop_first().last() == ls.last());
        assert(links_bytes(ls) =~= string_bytes(ls[0][0]) + string_bytes(ls[0][1]) + links_bytes(
            ls.drop_first(),
        ));
    }
}

proof fn lemma_links_fit_tail(a: Seq<Key>)
    requires
        links_fit(a),
        a.len() > 0,
    ensures
        links_fit(a.drop_first()),
{
    assert forall|i: int| 0 <= i < a.drop_first().len() implies (#[trigger] a.drop_first()[i]).len() == 2
        && vstd::utf8::encode_utf8(a.drop_first()[i][0]).len() <= u64::MAX && vstd::utf8::encode_utf8(
        a.drop_first()[i][1],
    ).len() <= u64::MAX by {
        assert(a.drop_first()[i] == a[i + 1]);
    }
}

/// The encoding of a topology's connections determines them: two connection lists with equal
/// encodings are equal, so every connection's source and its target are both written.
pub proof fn law_links_bytes_injective(a: Seq<Key>, b: Seq<Key>)
    requires
        links_fit(a),
        links_fit(b),
        links_bytes(a) == links_bytes(b),
    ensures
        a == b,
    decreases a.len(),
{
    if a.len() == 0 && b.len() == 0 {
        assert(a =~= b);
    } else if a.len() == 0 {
        lemma_links_bytes_front(b);
        assert(links_bytes(b).len() >= 8);
    } else if b.len() == 0 {
        lemma_links_bytes_front(a);
        assert(links_bytes(a).len() >= 8);
    } else {
        lemma_links_bytes_front(a);
        lemma_links_bytes_front(b);
        let ra = links_bytes(a.drop_first());
        let rb = links_bytes(b.drop_first());
        assert(a[0].len() == 2 && b[0].len() == 2);
        assert(links_bytes(a) =~= string_bytes(a[0][0]) + (string_bytes(a[0][1]) + ra));
        assert(links_bytes(b) =~= string_bytes(b[0][0]) + (string_bytes(b[0][1]) + rb));
        lemma_string_bytes_prefix(a[0][0], b[0][0], string_bytes(a[0][1]) + ra, string_bytes(b[0][1]) + rb);
        lemma_string_bytes_prefix(a[0][1], b[0][1], ra, rb);
        lemma_links_fit_tail(a);
        lemma_links_fit_tail(b);
        law_links_bytes_injective(a.drop_first(), b.drop_first());
        assert(a[0] =~= b[0]);
        assert(a =~= seq![a[0]] + a.drop_first());
        assert(b =~= seq![b[0]] + b.drop_first());
    }
}

/// Connections read back from the front of any bytes: when the encodings of two equally long
/// connection lists, each followed by more bytes, are equal, the lists are equal and so are the
/// bytes that follow.
#[verifier::spinoff_prover]
#[verifier::rlimit(60)]
pub proof fn law_links_bytes_prefix(a: Seq<Key>, b: Seq<Key>, x: Seq<u8>, y: Seq<u8>)
    requires
        links_fit(a),
        links_fit(b),
        a.len() == b.len(),
        links_bytes(a) + x == links_bytes(b) + y,
    ensures
        a == b,
        x == y,
    decreases a.len(),
{
    if a.len() == 0 {
        assert(a =~= b);
        assert(links_bytes(a) + x =~= x);
        assert(links_bytes(b) + y =~= y);
    } else {
        lemma_links_bytes_front(a);
        lemma_links_bytes_front(b);
        let ra = links_bytes(a.drop_first());
        let rb = links_bytes(b.drop_first());
        assert(a[0].len() == 2 && b[0].len() == 2);
        assert((string_bytes(a[0][0]) + string_bytes(a[0][1]) + ra) + x =~= string_bytes(a[0][0]) + (string_bytes(a[0][1]) + (ra + x)));
        assert((string_bytes(b[0][0]) + string_bytes(b[0][1]) + rb) + y =~= string_bytes(b[0][0]) + (string_bytes(b[0][1]) + (rb + y)));
        lemma_string_bytes_prefix(a[0][0], b[0][0], string_bytes(a[0][1]) + (ra + x), string_bytes(b[0][1]) + (rb + y));
        lemma_string_bytes_prefix(a[0][1], b[0][1], ra + x, rb + y);
        lemma_links_fit_tail(a);
        lemma_links_fit_tail(b);
        law_links_bytes_prefix(a.drop_first(), b.drop_first(), x, y);
        assert(a[0] =~= b[0]);
        assert(a =~= seq![a[0]] + a.drop_first());
        assert(b =~= seq![b[0]] + b.drop_first());
    }
}

/// A registry: its size and its identities in canonical order.
pub open spec fn registry_bytes(r: Seq<Seq<char>>) -> Seq<u8> {
    u64_be(r.len() as u64) + strings_bytes(r)
}

/// Stored amounts: each substance identity and the bit pattern of its amount.
pub open spec fn amounts_bytes(es: Seq<(Seq<char>, u64)>) -> Seq<u8>
    decreases es.len(),
{
    if es.len() == 0 {
        seq![]
    } else {
        amounts_bytes(es.drop_last()) + string_bytes(es.last().0) + u64_be(es.last().1)
    }
}

/// The stock entries of the compartments `xs`, each with its amounts.
pub open spec fn stock_entries_bytes(xs: Seq<Seq<char>>, stocks: Seq<(Seq<char>, SparseView)>) -> Seq<u8>
    decreases xs.len(),
{
    if xs.len() == 0 {
        seq![]
    } else {
        let v = stock_for(stocks, xs.last())->0;
        stock_entries_bytes(xs.drop_last(), stocks) + string_bytes(xs.last()) + u64_be(
            v.entries.len() as u64,
        ) + amounts_bytes(v.entries)
    }
}

/// Initial stocks: the topology's endpoints and connections, the registry, and the stock
/// entries in the topology's stable order.
pub open spec fn initial_bytes(s: StocksView) -> Seq<u8> {
    let stocked = stocked_texts(s.topology.order, s.stocks);
    u64_be(s.topology.endpoints.len() as u64) + topology_endpoints_bytes(s.topology.endpoints)
        + u64_be(s.topology.links.len() as u64) + links_bytes(s.topology.links) + registry_bytes(
        s.registry,
    ) + u64_be(stocked.len() as u64) + stock_entries_bytes(stocked, s.stocks)
}

/// A Genesis record, after the domain-separation prefix.
pub open spec fn genesis_bytes(g: GenesisView) -> Seq<u8> {
    log_magic() + g.run_id + g.model_digest + seq![version_byte(g.numerical_semantics)]
        + initial_bytes(g.initial_stocks)
}

/// A transfer: timestep, endpoints, the amounts' registry and the stored amounts.
pub open spec fn transfer_bytes(t: TransferView) -> Seq<u8> {
    u64_be(t.timestep@) + endpoint_bytes(t.source.0, t.source.1) + endpoint_bytes(
        t.target.0,
        t.target.1,
    ) + registry_bytes(t.amounts.registry) + u64_be(t.amounts.entries.len() as u64) + amounts_bytes(
        t.amounts.entries,
    )
}

/// Transfers in log order.
pub open spec fn transfers_bytes(ts: Seq<TransferView>) -> Seq<u8>
    decreases ts.len(),
{
    if ts.len() == 0 {
        seq![]
    } else {
        transfers_bytes(ts.drop_last()) + transfer_bytes(ts.last())
    }
}

/// The canonical bytes of a Genesis record followed by transfers; a completion seal is never
/// part of them.
pub open spec fn log_bytes(g: GenesisView, ts: Seq<TransferView>) -> Seq<u8> {
    genesis_bytes(g) + u64_be(ts.len() as u64) + transfers_bytes(ts)
}

/// The contents of a sequence of transfers.
pub open spec fn transfer_views(ts: Seq<Transfer>) -> Seq<TransferView> {
    ts.map_values(|t: Transfer| t@)
}

fn write_registry(out: &mut Vec<u8>, registry: &SubstanceRegistry)
    ensures
        final(out)@ == old(out)@ + registry_bytes(registry@),
{
    let ids = registry.iter();
    write_u64(out, ids.len() as u64);
    let ghost start = out@;
    let mut i: usize = 0;
    while i < ids.len()
        invariant
            i <= ids@.len(),
            substance_texts(ids@) == registry@,
            out@ == start + strings_bytes(registry@.take(i as int)),
        decreases ids.len() - i,
    {
        write_string(out, ids[i].as_str());
        proof {
            assert(registry@.take(i + 1).drop_last() =~= registry@.take(i as int));
            assert(registry@.take(i + 1).last() == ids@[i as int]@);
        }
        i = i + 1;
    }
    proof {
        assert(registry@.take(i as int) =~= registry@);
    }
}

fn write_amounts(out: &mut Vec<u8>, entries: &[(SubstanceId, NonNegativeAmount)])
    ensures
        final(out)@ == old(out)@ + u64_be(entries@.len() as u64) + amounts_bytes(
            crate::sparse_substance_vector::entry_views(entries@),
        ),
{
    let ghost views = crate::sparse_substance_vector::entry_views(entries@);
    write_u64(out, entries.len() as u64);
    let ghost start = out@;
    let mut i: usize = 0;
    while i < entries.len()
        invariant
            i <= entries@.len(),
            views == crate::sparse_substance_vector::entry_views(entries@),
            out@ == start + amounts_bytes(views.take(i as int)),
        decreases entries.len() - i,
    {
        write_string(out, entries[i].0.as_str());
        write_u64(out, entries[i].1.bits());
        proof {
            assert(views.take(i + 1).drop_last() =~= views.take(i as int));
            assert(views.take(i + 1).last() == views[i as int]);
        }
        i = i + 1;
    }
    proof {
        assert(views.take(i as int) =~= views);
    }
}

fn write_endpoint(out: &mut Vec<u8>, endpoint: &TransferEndpoint)
    ensures
        final(out)@ == old(out)@ + endpoint_bytes(endpoint is Finite, transfer_endpoint_id(*endpoint)),
{
    let kind: u8 = if endpoint.is_finite() {
        0
    } else {
        1
    };
    out.push(kind);
    write_string(out, endpoint.id().as_str());
    proof {
        assert(out@ =~= old(out)@ + endpoint_bytes(endpoint is Finite, transfer_endpoint_id(*endpoint)));
    }
}

#[verifier::spinoff_prover]
#[verifier::rlimit(40)]
fn write_initial(out: &mut Vec<u8>, initial: &InitialStocks)
    ensures
        final(out)@ == old(out)@ + initial_bytes(initial@),
{
    let ghost s = initial@;
    let topology = initial.topology();
    let endpoints = topology.endpoints();
    write_u64(out, endpoints.len() as u64);
    let ghost after_count = out@;
    let mut i: usize = 0;
    while i < endpoints.len()
        invariant
            i <= endpoints@.len(),
            endpoints@ == s.topology.endpoints,
            out@ == after_count + topology_endpoints_bytes(s.topology.endpoints.take(i as int)),
        decreases endpoints.len() - i,
    {
        let kind: u8 = if endpoints[i].is_finite() {
            0
        } else {
            1
        };
        out.push(kind);
        write_string(out, endpoints[i].id().as_str());
        proof {
            let es = s.topology.endpoints;
            assert(es.take(i + 1).drop_last() =~= es.take(i as int));
            assert(es.take(i + 1).last() == es[i as int]);
            assert(out@ =~= after_count + topology_endpoints_bytes(es.take(i + 1)));
        }
        i = i + 1;
    }
    proof {
        assert(s.topology.endpoints.take(i as int) =~= s.topology.endpoints);
    }
    let connections = topology.connections();
    write_u64(out, connections.len() as u64);
    proof {
        assert(keys_of(connections@).len() == connections@.len());
    }
    let ghost after_links_count = out@;
    let mut i: usize = 0;
    while i < connections.len()
        invariant
            i <= connections@.len(),
            keys_of(connections@) == s.topology.links,
            out@ == after_links_count + links_bytes(s.topology.links.take(i as int)),
        decreases connections.len() - i,
    {
        write_string(out, connections[i].source().as_str());
        write_string(out, connections[i].target().as_str());
        proof {
            let ls = s.topology.links;
            assert(ls.take(i + 1).drop_last() =~= ls.take(i as int));
            assert(ls.take(i + 1).last() == ls[i as int]);
            assert(ls[i as int] == connections@[i as int].key());
            assert(connections@[i as int].key()[0] == connections@[i as int]@.0);
            assert(connections@[i as int].key()[1] == connections@[i as int]@.1);
        }
        i = i + 1;
    }
    proof {
        assert(s.topology.links.take(i as int) =~= s.topology.links);
    }
    write_registry(out, initial.registry());
    let entries = initial.iter();
    let ghost stocked = stocked_texts(s.topology.order, s.stocks);
    write_u64(out, entries.len() as u64);
    let ghost after_entries_count = out@;
    let mut i: usize = 0;
    while i < entries.len()
        invariant
            i <= entries@.len(),
            entries@.len() == stocked.len(),
            forall|k: int|
                0 <= k < entries@.len() ==> (#[trigger] entries@[k]).0@ == stocked[k] && stock_for(
                    s.stocks,
                    entries@[k].0@,
                ) == Some(entries@[k].1@),
            out@ == after_entries_count + stock_entries_bytes(stocked.take(i as int), s.stocks),
        decreases entries.len() - i,
    {
        let (compartment, vector) = entries[i];
        write_string(out, compartment.as_str());
        let stored = vector.iter();
        write_amounts(out, stored);
        proof {
            assert(stocked.take(i + 1).drop_last() =~= stocked.take(i as int));
            assert(stocked.take(i + 1).last() == stocked[i as int]);
            assert(stored@ == vector.spec_entries());
            assert(out@ =~= after_entries_count + stock_entries_bytes(stocked.take(i + 1), s.stocks));
        }
        i = i + 1;
    }
    proof {
        assert(stocked.take(i as int) =~= stocked);
        assert(out@ =~= old(out)@ + initial_bytes(s));
    }
}

fn write_transfer(out: &mut Vec<u8>, transfer: &Transfer)
    ensures
        final(out)@ == old(out)@ + transfer_bytes(transfer@),
{
    write_u64(out, transfer.timestep().value());
    write_endpoint(out, transfer.source());
    write_endpoint(out, transfer.target());
    let amounts = transfer.amounts();
    write_registry(out, amounts.registry());
    write_amounts(out, amounts.iter());
    proof {
        assert(out@ =~= old(out)@ + transfer_bytes(transfer@));
    }
}

fn write_records(genesis: &Genesis, transfers: &Vec<Transfer>) -> (r: Vec<u8>)
    ensures
        r@ == log_bytes(genesis@, transfer_views(transfers@)),
{
    let mut out: Vec<u8> = Vec::new();
    let magic: [u8; 31] = [
        105u8, 110, 99, 105, 100, 101, 110, 99, 101, 58, 97, 117, 116, 104, 111, 114, 105, 116,
        97, 116, 105, 118, 101, 45, 108, 111, 103, 58, 118, 49, 0,
    ];
    out.extend_from_slice(magic.as_slice());
    proof {
        assert forall|i: int| 0 <= i < 31 implies out@[i] == log_magic()[i] by {
            assert(vstd::pervasive::cloned::<u8>(magic@[i], out@[i]));
        }
        assert(out@ =~= log_magic());
    }
    out.extend_from_slice(genesis.run_id.as_bytes().as_slice());
    out.extend_from_slice(genesis.model_digest.as_bytes().as_slice());
    let version: u8 = match genesis.numerical_semantics {
        NumericalSemanticsVersion::V1 => 1,
    };
    out.push(version);
    proof {
        let expected = log_magic() + genesis@.run_id + genesis@.model_digest + seq![
            version_byte(genesis@.numerical_semantics),
        ];
        assert forall|i: int| 0 <= i < expected.len() implies out@[i] == expected[i] by {
            if 31 <= i < 47 {
                assert(vstd::pervasive::cloned::<u8>(genesis@.run_id[i - 31], out@[i]));
            } else if 47 <= i < 79 {
                assert(vstd::pervasive::cloned::<u8>(genesis@.model_digest[i - 47], out@[i]));
            }
        }
        assert(out@ =~= expected);
    }
    write_initial(&mut out, &genesis.initial_stocks);
    write_u64(&mut out, transfers.len() as u64);
    let ghost start = out@;
    let ghost views = transfer_views(transfers@);
    let mut i: usize = 0;
    while i < transfers.len()
        invariant
            i <= transfers@.len(),
            views == transfer_views(transfers@),
            out@ == start + transfers_bytes(views.take(i as int)),
        decreases transfers.len() - i,
    {
        write_transfer(&mut out, &transfers[i]);
        proof {
            assert(views.take(i + 1).drop_last() =~= views.take(i as int));
            assert(views.take(i + 1).last() == views[i as int]);
        }
        i = i + 1;
    }
    proof {
        assert(views.take(i as int) =~= views);
        assert(out@ =~= log_bytes(genesis@, views));
    }
    out
}

/// Transfer timesteps never decrease in log order.
pub open spec fn timesteps_ordered(ts: Seq<TransferView>) -> bool {
    forall|i: int, j: int| 0 <= i < j < ts.len() ==> ts[i].timestep@ <= ts[j].timestep@
}

/// `seal` is a completion seal of exactly these records: their count and their digest.
pub open spec fn seal_authenticates(seal: RunCompleted, g: GenesisView, ts: Seq<TransferView>) -> bool {
    &&& seal.spec_transfer_count() == ts.len()
    &&& seal.spec_log_digest()@ == sha256_of(log_bytes(g, ts))
}

/// The content of an authoritative log.
pub struct LogView {
    pub genesis: GenesisView,
    pub transfers: Seq<TransferView>,
    pub seal: Option<RunCompleted>,
}

/// A log in which transfers are ordered and any seal authenticates its preceding records.
pub open spec fn log_valid(log: LogView) -> bool {
    &&& timesteps_ordered(log.transfers)
    &&& log.seal matches Some(s) ==> seal_authenticates(s, log.genesis, log.transfers)
}

/// The state of reading records after Genesis: the transfers so far and the seal, if read.
pub struct ReadState {
    pub transfers: Seq<TransferView>,
    pub seal: Option<RunCompleted>,
}

/// Reading one more record after Genesis.
pub open spec fn record_step(g: GenesisView, st: ReadState, rec: RecordView) -> Result<ReadState, LogError> {
    if st.seal is Some {
        Err(LogError::RecordAfterSeal)
    } else {
        match rec {
            RecordView::Genesis(_) => Err(LogError::RepeatedGenesis),
            RecordView::Transfer(t) => if st.transfers.len() > 0 && t.timestep@
                < st.transfers.last().timestep@ {
                Err(
                    LogError::TimestepOrder {
                        previous: st.transfers.last().timestep,
                        next: t.timestep,
                    },
                )
            } else {
                Ok(ReadState { transfers: st.transfers.push(t), seal: None })
            },
            RecordView::RunCompleted(s) => if s.spec_transfer_count() != st.transfers.len() {
                Err(
                    LogError::SealTransferCount {
                        declared: s.spec_transfer_count(),
                        actual: st.transfers.len() as u64,
                    },
                )
            } else if s.spec_log_digest()@ != sha256_of(log_bytes(g, st.transfers)) {
                Err(
                    LogError::SealDigest {
                        declared: s.spec_log_digest(),
                        actual: log_digest_of(sha256_of(log_bytes(g, st.transfers))),
                    },
                )
            } else {
                Ok(ReadState { transfers: st.transfers, seal: Some(s) })
            },
        }
    }
}

/// Reading the records after Genesis in order; the first failure decides.
pub open spec fn read_records(g: GenesisView, st: ReadState, recs: Seq<RecordView>) -> Result<ReadState, LogError>
    decreases recs.len(),
{
    if recs.len() == 0 {
        Ok(st)
    } else {
        match record_step(g, st, recs[0]) {
            Ok(next) => read_records(g, next, recs.drop_first()),
            Err(e) => Err(e),
        }
    }
}

/// The log a record sequence describes: Genesis first, then transfers in non-decreasing
/// timestep order, then at most one authentic seal, which ends the sequence.
pub open spec fn log_of_records(recs: Seq<RecordView>) -> Result<LogView, LogError> {
    if recs.len() == 0 {
        Err(LogError::MissingGenesis)
    } else {
        match recs[0] {
            RecordView::Genesis(g) => match read_records(
                g,
                ReadState { transfers: seq![], seal: None },
                recs.drop_first(),
            ) {
                Ok(st) => Ok(LogView { genesis: g, transfers: st.transfers, seal: st.seal }),
                Err(e) => Err(e),
            },
            _ => Err(LogError::GenesisNotFirst),
        }
    }
}

/// The records of a log: Genesis, its transfers in order, then its seal if sealed.
pub open spec fn records_of_log(log: LogView) -> Seq<RecordView> {
    seq![RecordView::Genesis(log.genesis)] + log.transfers.map_values(
        |t: TransferView| RecordView::Transfer(t),
    ) + match log.seal {
        Some(s) => seq![RecordView::RunCompleted(s)],
        None => Seq::<RecordView>::empty(),
    }
}

proof fn lemma_read_records_append(g: GenesisView, st: ReadState, a: Seq<RecordView>, b: Seq<RecordView>)
    ensures
        read_records(g, st, a + b) == match read_records(g, st, a) {
            Ok(mid) => read_records(g, mid, b),
            Err(e) => Err::<ReadState, LogError>(e),
        },
    decreases a.len(),
{
    if a.len() == 0 {
        assert(a + b =~= b);
    } else {
        assert((a + b)[0] == a[0]);
        assert((a + b).drop_first() =~= a.drop_first() + b);
        match record_step(g, st, a[0]) {
            Ok(next) => {
                lemma_read_records_append(g, next, a.drop_first(), b);
            },
            Err(_) => {},
        }
    }
}

/// Reading back the records of a valid log rebuilds the same log.
pub proof fn law_records_roundtrip(log: LogView)
    requires
        log_valid(log),
    ensures
        log_of_records(records_of_log(log)) == Ok::<LogView, LogError>(log),
{
    let recs = records_of_log(log);
    let ts = log.transfers;
    let tail = ts.map_values(|t: TransferView| RecordView::Transfer(t));
    let end = match log.seal {
        Some(s) => seq![RecordView::RunCompleted(s)],
        None => Seq::<RecordView>::empty(),
    };
    assert(recs[0] == RecordView::Genesis(log.genesis));
    assert(recs.drop_first() =~= tail + end);
    let empty = ReadState { transfers: seq![], seal: None };
    lemma_read_transfers(log.genesis, ts, ts.len() as int);
    assert(tail.take(ts.len() as int) =~= tail);
    assert(ts.take(ts.len() as int) =~= ts);
    lemma_read_records_append(log.genesis, empty, tail, end);
    let mid = ReadState { transfers: ts, seal: None };
    match log.seal {
        Some(s) => {
            let done = ReadState { transfers: ts, seal: Some(s) };
            assert(record_step(log.genesis, mid, end[0]) == Ok::<ReadState, LogError>(done));
            assert(end.drop_first() =~= Seq::<RecordView>::empty());
            assert(read_records(log.genesis, done, end.drop_first()) == Ok::<ReadState, LogError>(done));
        },
        None => {
            assert(read_records(log.genesis, mid, end) == Ok::<ReadState, LogError>(mid));
        },
    }
}

proof fn lemma_read_transfers(g: GenesisView, ts: Seq<TransferView>, k: int)
    requires
        timesteps_ordered(ts),
        0 <= k <= ts.len(),
    ensures
        read_records(
            g,
            ReadState { transfers: seq![], seal: None },
            ts.map_values(|t: TransferView| RecordView::Transfer(t)).take(k),
        ) == Ok::<ReadState, LogError>(ReadState { transfers: ts.take(k), seal: None }),
    decreases k,
{
    let tail = ts.map_values(|t: TransferView| RecordView::Transfer(t));
    let empty = ReadState { transfers: seq![], seal: None };
    if k == 0 {
        assert(tail.take(0) =~= Seq::<RecordView>::empty());
        assert(ts.take(0) =~= Seq::<TransferView>::empty());
    } else {
        lemma_read_transfers(g, ts, k - 1);
        let single = seq![RecordView::Transfer(ts[k - 1])];
        assert(tail.take(k) =~= tail.take(k - 1) + single);
        lemma_read_records_append(g, empty, tail.take(k - 1), single);
        let mid = ReadState { transfers: ts.take(k - 1), seal: None };
        let next = ReadState { transfers: ts.take(k), seal: None };
        if k - 1 > 0 {
            assert(ts.take(k - 1).last() == ts[k - 2]);
            assert(ts[k - 2].timestep@ <= ts[k - 1].timestep@);
        }
        assert(ts.take(k - 1).push(ts[k - 1]) =~= ts.take(k));
        assert(record_step(g, mid, single[0]) == Ok::<ReadState, LogError>(next));
        assert(single.drop_first() =~= Seq::<RecordView>::empty());
        assert(read_records(g, next, single.drop_first()) == Ok::<ReadState, LogError>(next));
        assert(read_records(g, mid, single) == Ok::<ReadState, LogError>(next));
    }
}

/// An ordered Genesis-led sequence which is either appendable or terminally sealed.
#[derive(Debug, PartialEq, Eq)]
pub struct AuthoritativeLog {
    genesis: Genesis,
    transfers: Vec<Transfer>,
    seal: Option<RunCompleted>,
}

impl View for AuthoritativeLog {
    type V = LogView;

    closed spec fn view(&self) -> LogView {
        LogView {
            genesis: self.genesis@,
            transfers: transfer_views(self.transfers@),
            seal: self.seal,
        }
    }
}

impl AuthoritativeLog {
    #[verifier::type_invariant]
    closed spec fn valid(self) -> bool {
        log_valid(self@)
    }

    /// A log holding only `genesis`.
    pub fn new(genesis: Genesis) -> (r: Self)
        ensures
            r@ == (LogView { genesis: genesis@, transfers: seq![], seal: None }),
    {
        let log = AuthoritativeLog { genesis, transfers: Vec::new(), seal: None };
        proof {
            assert(transfer_views(log.transfers@) =~= Seq::<TransferView>::empty());
        }
        log
    }

    /// The Genesis record.
    pub fn genesis(&self) -> (r: &Genesis)
        ensures
            r@ == self@.genesis,
    {
        &self.genesis
    }

    /// The transfers in log order; every log is valid: its transfers are ordered and any seal
    /// authenticates them.
    pub fn transfers(&self) -> (r: &[Transfer])
        ensures
            transfer_views(r@) == self@.transfers,
            log_valid(self@),
    {
        proof {
            use_type_invariant(self);
        }
        self.transfers.as_slice()
    }

    /// The completion seal, if the log is sealed; it authenticates exactly the preceding
    /// records.
    pub fn seal_record(&self) -> (r: Option<&RunCompleted>)
        ensures
            r matches Some(s) ==> self@.seal == Some(*s) && seal_authenticates(
                *s,
                self@.genesis,
                self@.transfers,
            ),
            r is None <==> self@.seal is None,
    {
        proof {
            use_type_invariant(self);
        }
        match &self.seal {
            Some(s) => Some(s),
            None => None,
        }
    }

    /// The number of transfers.
    pub fn transfer_count(&self) -> (r: usize)
        ensures
            r == self@.transfers.len(),
    {
        self.transfers.len()
    }

    /// Whether the log is sealed.
    pub fn is_sealed(&self) -> (r: bool)
        ensures
            r == (self@.seal is Some),
    {
        self.seal.is_some()
    }

    /// Appends one transfer; a sealed log and a timestep earlier than the last one are rejected
    /// and leave the log unchanged.
    pub fn append(&mut self, transfer: Transfer) -> (r: Result<(), LogError>)
        ensures
            old(self)@.seal is Some ==> r == Err::<(), LogError>(LogError::RecordAfterSeal),
            old(self)@.seal is None && old(self)@.transfers.len() > 0 && transfer@.timestep@ < old(
                self,
            )@.transfers.last().timestep@ ==> r == Err::<(), LogError>(
                LogError::TimestepOrder {
                    previous: old(self)@.transfers.last().timestep,
                    next: transfer@.timestep,
                },
            ),
            r is Err ==> final(self)@ == old(self)@,
            r is Ok <==> old(self)@.seal is None && (old(self)@.transfers.len() == 0
                || transfer@.timestep@ >= old(self)@.transfers.last().timestep@),
            r is Ok ==> final(self)@ == (LogView {
                genesis: old(self)@.genesis,
                transfers: old(self)@.transfers.push(transfer@),
                seal: None,
            }),
    {
        proof {
            use_type_invariant(&*self);
        }
        if self.seal.is_some() {
            return Err(LogError::RecordAfterSeal);
        }
        let n = self.transfers.len();
        if n > 0 {
            let previous = self.transfers[n - 1].timestep();
            if transfer.timestep().value() < previous.value() {
                proof {
                    assert(self@.transfers.last() == self.transfers@[n - 1]@);
                }
                return Err(LogError::TimestepOrder { previous, next: transfer.timestep() });
            }
            proof {
                assert(self@.transfers.last() == self.transfers@[n - 1]@);
            }
        }
        let ghost before = self@;
        let mut transfers = Vec::new();
        std::mem::swap(&mut transfers, &mut self.transfers);
        transfers.push(transfer);
        proof {
            assert(transfer_views(transfers@) =~= before.transfers.push(transfer@));
        }
        self.transfers = transfers;
        Ok(())
    }

    /// Seals the log at the model-declared final timestep: the seal records the transfer count
    /// and the digest of the log's canonical bytes.
    pub fn seal(&mut self, final_timestep: TimestepIndex) -> (r: Result<RunCompleted, LogError>)
        ensures
            old(self)@.seal is Some ==> r == Err::<RunCompleted, LogError>(LogError::AlreadySealed)
                && final(self)@ == old(self)@,
            old(self)@.seal is None ==> r is Ok,
            r matches Ok(s) ==> {
                &&& s.spec_final_timestep() == final_timestep
                &&& seal_authenticates(s, old(self)@.genesis, old(self)@.transfers)
                &&& final(self)@ == (LogView {
                    genesis: old(self)@.genesis,
                    transfers: old(self)@.transfers,
                    seal: Some(s),
                })
            },
    {
        proof {
            use_type_invariant(&*self);
        }
        if self.seal.is_some() {
            return Err(LogError::AlreadySealed);
        }
        let transfer_count = self.transfers.len() as u64;
        let digest = self.digest();
        let seal = RunCompleted::new(final_timestep, transfer_count, digest);
        self.seal = Some(seal);
        Ok(seal)
    }

    /// The canonical bytes of Genesis and all currently stored transfers: exactly the bytes the
    /// digest authenticates. The seal is never part of them.
    pub fn canonical_bytes(&self) -> (r: Vec<u8>)
        ensures
            r@ == log_bytes(self@.genesis, self@.transfers),
    {
        write_records(&self.genesis, &self.transfers)
    }

    /// The SHA-256 digest of the log's canonical bytes.
    pub fn digest(&self) -> (r: LogDigest)
        ensures
            r@ == sha256_of(log_bytes(self@.genesis, self@.transfers)),
    {
        let bytes = write_records(&self.genesis, &self.transfers);
        LogDigest(sha256(bytes.as_slice()))
    }

    /// Rebuilds a log from decoded records, enforcing the record grammar and the seal evidence.
    #[verifier::rlimit(60)]
    #[verifier::loop_isolation(false)]
    pub fn from_records(records: Vec<Record>) -> (r: Result<Self, LogError>)
        ensures
            match log_of_records(records@.map_values(|x: Record| record_view(x))) {
                Ok(v) => r is Ok && r->Ok_0@ == v,
                Err(e) => r == Err::<Self, LogError>(e),
            },
    {
        let ghost recs = records@.map_values(|x: Record| record_view(x));
        if records.len() == 0 {
            return Err(LogError::MissingGenesis);
        }
        let mut rest = records;
        let first = rest.remove(0);
        let ghost tail = rest@.map_values(|x: Record| record_view(x));
        proof {
            assert(recs.drop_first() =~= tail);
        }
        let genesis = match first {
            Record::Genesis(g) => g,
            _ => {
                return Err(LogError::GenesisNotFirst);
            },
        };
        let ghost g = genesis@;
        proof {
            assert(recs[0] == RecordView::Genesis(g));
        }
        let mut log = AuthoritativeLog::new(genesis);
        let ghost empty = ReadState { transfers: seq![], seal: None };
        let n = rest.len();
        let mut i: usize = 0;
        proof {
            assert(tail.take(0) =~= Seq::<RecordView>::empty());
        }
        while rest.len() > 0
            invariant
                i + rest@.len() == n,
                n == tail.len(),
                rest@.map_values(|x: Record| record_view(x)) == tail.skip(i as int),
                recs.len() > 0,
                empty == (ReadState { transfers: seq![], seal: None }),
                recs[0] == RecordView::Genesis(g),
                recs.drop_first() == tail,
                log@.genesis == g,
                read_records(g, empty, tail.take(i as int)) == Ok::<ReadState, LogError>(
                    ReadState { transfers: log@.transfers, seal: log@.seal },
                ),
            decreases rest.len(),
        {
            let ghost rest_before = rest@;
            let record = rest.remove(0);
            let ghost rec = record_view(record);
            proof {
                assert(rest@ =~= rest_before.drop_first());
                assert(rest@.map_values(|x: Record| record_view(x)) =~= rest_before.map_values(
                    |x: Record| record_view(x),
                ).drop_first());
                assert(rest_before.map_values(|x: Record| record_view(x))[0] == rec);
            }
            let ghost st = ReadState { transfers: log@.transfers, seal: log@.seal };
            proof {
                assert(tail.skip(i as int)[0] == rec);
                lemma_step_outcome(g, tail, i as int, st, rec);
            }
            if log.seal.is_some() {
                return Err(LogError::RecordAfterSeal);
            }
            match record {
                Record::Genesis(_) => {
                    return Err(LogError::RepeatedGenesis);
                },
                Record::Transfer(value) => {
                    match log.append(value) {
                        Ok(()) => {},
                        Err(e) => {
                            return Err(e);
                        },
                    }
                },
                Record::RunCompleted(value) => {
                    proof {
                        use_type_invariant(&log);
                    }
                    let actual_count = log.transfers.len() as u64;
                    if value.transfer_count != actual_count {
                        return Err(
                            LogError::SealTransferCount {
                                declared: value.transfer_count,
                                actual: actual_count,
                            },
                        );
                    }
                    let actual = log.digest();
                    if !same_digest(&value.log_digest, &actual) {
                        proof {
                            lemma_log_digest_of(actual);
                        }
                        return Err(LogError::SealDigest { declared: value.log_digest, actual });
                    }
                    proof {
                        assert(value.log_digest@ == actual@);
                    }
                    log.seal = Some(value);
                },
            }
            proof {
                assert(rest@.map_values(|x: Record| record_view(x)) =~= tail.skip(i + 1));
            }
            i = i + 1;
        }
        proof {
            assert(tail.take(i as int) =~= tail);
        }
        Ok(log)
    }

    /// The records of the log: Genesis, the transfers in order, then the seal if sealed.
    /// Reading them back rebuilds this log.
    pub fn records(&self) -> (r: Vec<Record>)
        ensures
            r@.map_values(|x: Record| record_view(x)) == records_of_log(self@),
            log_valid(self@),
            log_of_records(records_of_log(self@)) == Ok::<LogView, LogError>(self@),
    {
        proof {
            use_type_invariant(self);
            law_records_roundtrip(self@);
        }
        let mut out: Vec<Record> = Vec::new();
        out.push(Record::Genesis(self.genesis.clone()));
        let mut i: usize = 0;
        while i < self.transfers.len()
            invariant
                i <= self.transfers@.len(),
                out@.map_values(|x: Record| record_view(x)) == seq![RecordView::Genesis(self@.genesis)]
                    + self@.transfers.take(i as int).map_values(|t: TransferView| RecordView::Transfer(t)),
            decreases self.transfers.len() - i,
        {
            let ghost before = out@;
            let t = self.transfers[i].clone();
            out.push(Record::Transfer(t));
            proof {
                assert(out@ == before.push(Record::Transfer(t)));
                assert(out@.map_values(|x: Record| record_view(x)) =~= before.map_values(
                    |x: Record| record_view(x),
                ).push(RecordView::Transfer(t@)));
                assert(t@ == self@.transfers[i as int]);
                assert(self@.transfers.take(i + 1) =~= self@.transfers.take(i as int).push(
                    self@.transfers[i as int],
                ));
                assert(out@.map_values(|x: Record| record_view(x)) =~= seq![
                    RecordView::Genesis(self@.genesis),
                ] + self@.transfers.take(i + 1).map_values(|t: TransferView| RecordView::Transfer(t)));
            }
            i = i + 1;
        }
        proof {
            assert(self@.transfers.take(i as int) =~= self@.transfers);
        }
        match self.seal {
            Some(s) => {
                out.push(Record::RunCompleted(s));
            },
            None => {},
        }
        proof {
            assert(out@.map_values(|x: Record| record_view(x)) =~= records_of_log(self@));
        }
        out
    }
}

proof fn lemma_step_outcome(g: GenesisView, tail: Seq<RecordView>, i: int, st: ReadState, rec: RecordView)
    requires
        0 <= i < tail.len(),
        tail[i] == rec,
        read_records(g, ReadState { transfers: seq![], seal: None }, tail.take(i)) == Ok::<
            ReadState,
            LogError,
        >(st),
    ensures
        read_records(g, ReadState { transfers: seq![], seal: None }, tail.take(i + 1)) == match record_step(g, st, rec) {
            Ok(next) => Ok::<ReadState, LogError>(next),
            Err(e) => Err::<ReadState, LogError>(e),
        },
        record_step(g, st, rec) matches Err(e) ==> read_records(
            g,
            ReadState { transfers: seq![], seal: None },
            tail,
        ) == Err::<ReadState, LogError>(e),
{
    let empty = ReadState { transfers: seq![], seal: None };
    let single = seq![rec];
    assert(tail.take(i + 1) =~= tail.take(i) + single);
    lemma_read_records_append(g, empty, tail.take(i), single);
    assert(single.drop_first() =~= Seq::<RecordView>::empty());
    match record_step(g, st, rec) {
        Ok(next) => {
            assert(read_records(g, next, single.drop_first()) == Ok::<ReadState, LogError>(next));
        },
        Err(e) => {
            lemma_read_records_prefix_error(g, empty, tail, i + 1);
        },
    }
}

/// Whether two digests hold the same bytes.
fn same_digest(a: &LogDigest, b: &LogDigest) -> (r: bool)
    ensures
        r == (a@ == b@),
{
    let mut i: usize = 0;
    while i < 32
        invariant
            i <= 32,
            a.0@.len() == 32,
            b.0@.len() == 32,
            forall|k: int| 0 <= k < i ==> a.0@[k] == b.0@[k],
        decreases 32 - i,
    {
        if a.0[i] != b.0[i] {
            return false;
        }
        i = i + 1;
    }
    proof {
        assert(a.0@ =~= b.0@);
    }
    true
}

proof fn lemma_read_records_prefix_error(g: GenesisView, st: ReadState, recs: Seq<RecordView>, m: int)
    requires
        0 <= m <= recs.len(),
        read_records(g, st, recs.take(m)) is Err,
    ensures
        read_records(g, st, recs) == read_records(g, st, recs.take(m)),
{
    assert(recs =~= recs.take(m) + recs.skip(m));
    lemma_read_records_append(g, st, recs.take(m), recs.skip(m));
}

/// The incidence coefficients of a transfer: minus one at its source, plus one at its target.
pub fn incidence_column(transfer: &Transfer) -> (r: [(TransferEndpoint, i8); 2])
    ensures
        r@[0] == (transfer.spec_source(), -1i8),
        r@[1] == (transfer.spec_target(), 1i8),
        r@[0].1 + r@[1].1 == 0,
{
    [(transfer.source().clone(), -1), (transfer.target().clone(), 1)]
}

/// Whether every transfer's incidence column sums to zero, which holds of every log.
pub fn incidence_columns_close(log: &AuthoritativeLog) -> (r: bool)
    ensures
        r,
{
    let transfers = log.transfers();
    let mut i: usize = 0;
    while i < transfers.len()
        invariant
            i <= transfers@.len(),
        decreases transfers.len() - i,
    {
        let column = incidence_column(&transfers[i]);
        let total: i16 = (column[0].1 as i16) + (column[1].1 as i16);
        if total != 0 {
            return false;
        }
        i = i + 1;
    }
    true
}

/// Failures which prevent exact, compatible replay. The structural ones (horizon, endpoints,
/// connections, registry, seal timestep) are reported by the checks in
/// [`crate::disposition`]; the others name failures of the amount fold and of artifact binding.
#[derive(Clone, Debug, Eq, PartialEq)]
pub enum ReplayError {
    /// Fires when a modelled substance cannot be reduced without missing or non-finite state.
    ConservationReduction { substance: SubstanceId },
    /// Fires when binary64 endpoint updates change the canonical conserved total.
    NumericalConservationLoss {
        substance: SubstanceId,
        timestep: TimestepIndex,
        before_bits: u64,
        after_bits: u64,
    },
    /// Fires when a transfer amount is not the exact binary64 image of whole declared quanta.
    NonQuantumTransfer {
        substance: SubstanceId,
        timestep: TimestepIndex,
        amount_bits: u64,
        quantum_bits: u64,
    },
    /// Fires when a caller explicitly requires a completed run but receives a prefix.
    MissingCompletionSeal,
    /// Fires when Genesis names a digest absent from the archive.
    ModelArtifactNotFound { digest: ModelDigest },
    /// Fires when replay is attempted with content other than the Genesis-bound artifact.
    ModelDigestMismatch { genesis: ModelDigest, supplied: ModelDigest },
    /// Fires when Genesis' numerical version differs from its artifact.
    NumericalSemanticsMismatch,
    /// Fires when Genesis initial stocks differ from the content-addressed artifact.
    GenesisStocksMismatch,
    /// Fires when Genesis' initial-stock registry differs from the artifact registry.
    GenesisRegistryMismatch,
    /// Fires when Genesis' topology differs from the artifact topology.
    GenesisTopologyMismatch,
    /// Fires when a transfer occurs outside the declared horizon.
    TimestepOutsideHorizon { timestep: TimestepIndex, first: TimestepIndex, last: TimestepIndex },
    /// Fires when an endpoint is absent from the bound topology.
    UnknownEndpoint { compartment: CompartmentId },
    /// Fires when a transfer's structural endpoint type disagrees with topology.
    EndpointKindMismatch { compartment: CompartmentId },
    /// Fires when no bound directed connection permits the transfer.
    UndeclaredConnection {
        connection_source: CompartmentId,
        target: CompartmentId,
        timestep: TimestepIndex,
    },
    /// Fires when a transfer names one endpoint twice.
    SelfTransfer { compartment: CompartmentId, timestep: TimestepIndex },
    /// Fires when amounts are bound to a registry other than this run's registry.
    TransferRegistryMismatch { timestep: TimestepIndex },
    /// Fires before appending or applying a debit larger than finite stock.
    Overdraw {
        compartment: CompartmentId,
        substance: SubstanceId,
        timestep: TimestepIndex,
        available_bits: u64,
        requested_bits: u64,
    },
    /// Fires when fold arithmetic produces an unrepresentable amount.
    NonFiniteFold { compartment: CompartmentId, substance: SubstanceId, timestep: TimestepIndex },
    /// Fires when the inclusive horizon cannot advance.
    HorizonIterationOverflow { timestep: TimestepIndex },
    /// Fires when a valid seal does not name the artifact's declared last timestep.
    SealFinalTimestep { declared: TimestepIndex, expected: TimestepIndex },
    /// Fires when a seal count differs from its preceding transfers.
    SealTransferCount { declared: u64, actual: u64 },
    /// Fires when a seal digest differs from its preceding records.
    SealDigest { declared: LogDigest, actual: LogDigest },
    /// Fires when an in-memory transfer count cannot be represented in a seal.
    TransferCountOverflow { count: usize },
}

impl Clone for AuthoritativeLog {
    fn clone(&self) -> (r: Self)
        ensures
            r@ == self@,
    {
        proof {
            use_type_invariant(self);
        }
        let transfers = self.transfers.clone();
        proof {
            assert forall|i: int| 0 <= i < transfers@.len() implies #[trigger] transfers@[i]@
                == self.transfers@[i]@ by {
                assert(cloned::<Transfer>(self.transfers[i], transfers[i]));
            }
            assert(transfer_views(transfers@) =~= transfer_views(self.transfers@));
        }
        AuthoritativeLog { genesis: self.genesis.clone(), transfers, seal: self.seal }
    }
}

} // verus!
