//! Join tokens: the ledger of their uses, the keys that issue them, and what these may issue.

use vstd::prelude::*;

use crate::config::ProtocolLimits;
use crate::error::{reason_of, refusal, ControlPlaneError, ControlPlaneErrorView, TokenStatus};
use crate::ids::{role_is_client, ClusterId, KeyId, NameSet, NodeId, ScopedName};
use crate::lists::kept;
use crate::map::{
    held, lemma_held_empty, lemma_held_insert, listed, sorted_keys, value_list, OrderedMap, TextKey,
};
use crate::registration::{
    client_claims_are_control_only, control_only, enrollment_role_is_allowed, node_enrollment_role,
    MAX_NODE_ENROLLMENT_TOKEN_USES,
};
use crate::store::{at, one, two};
use crate::text::{decimal, decimal_text};
use crate::time::{timestamp_display, timestamp_text, timestamp_within_skew, within_skew, Span, Timestamp};
use crate::types::{
    opt_view, views, BootstrapEndpointKind, BootstrapEndpointView, JoinTokenClaims,
    JoinTokenClaimsView, Record, TokenLedgerRecord, TokenLedgerRecordView, TokenRevocationRecord,
    TokenRevocationRecordView,
};

verus! {

/// Whether a token may be used: a revocation decides, then its age, then its uses.
pub open spec fn status_of(record: TokenLedgerRecordView, now: Timestamp) -> TokenStatus {
    if record.revoked_at is Some {
        TokenStatus::Revoked
    } else if record.claims.expires_at.at() <= now.at() {
        TokenStatus::Expired
    } else if record.claims.policy.max_token_uses matches Some(max) && record.uses >= max {
        TokenStatus::Exhausted
    } else {
        TokenStatus::Active
    }
}

/// The record of a token that was not used.
pub open spec fn fresh_record(claims: JoinTokenClaimsView, created_at: Timestamp) -> TokenLedgerRecordView {
    TokenLedgerRecordView { claims, created_at, uses: 0, revoked_at: None }
}

impl TokenLedgerRecord {
    /// The record of a token that was not used.
    pub fn from_claims(claims: &JoinTokenClaims, created_at: Timestamp) -> (r: Self)
        ensures
            r@ == fresh_record(claims@, created_at),
    {
        TokenLedgerRecord { claims: claims.duplicate(), created_at, uses: 0, revoked_at: None }
    }

    /// Whether the token may be used.
    pub fn status(&self, now: Timestamp) -> (r: TokenStatus)
        ensures
            r == status_of(self@, now),
    {
        if self.revoked_at.is_some() {
            return TokenStatus::Revoked;
        }
        if self.claims.expires_at.at_or_before(&now) {
            return TokenStatus::Expired;
        }
        if let Some(max) = self.claims.policy.max_token_uses {
            if self.uses >= max {
                return TokenStatus::Exhausted;
            }
        }
        TokenStatus::Active
    }

    /// Whether two records are of tokens that say the same.
    pub fn has_same_definition(&self, other: &TokenLedgerRecord) -> (r: bool)
        ensures
            r == (self@.claims == other@.claims),
    {
        self.claims.alike(&other.claims)
    }
}

/// Why a token is not the one on record: another one has its nonce.
pub open spec fn definition_refusal(
    stored: TokenLedgerRecordView,
    requested: TokenLedgerRecordView,
) -> Option<ControlPlaneErrorView> {
    if stored.claims == requested.claims {
        None
    } else {
        Some(
            ControlPlaneErrorView::TokenVerification {
                reason: "token nonce "@ + requested.claims.nonce
                    + " conflicts with its durable definition"@,
            },
        )
    }
}

/// Checks that a token is the one on record.
pub fn ensure_token_definition_matches(
    stored: &TokenLedgerRecord,
    requested: &TokenLedgerRecord,
) -> (r: Result<(), ControlPlaneError>)
    ensures
        refusal(r) == definition_refusal(stored@, requested@),
{
    if stored.has_same_definition(requested) {
        return Ok(());
    }
    Err(
        ControlPlaneError::TokenVerification {
            reason: "token nonce ".to_owned().concat(requested.claims.nonce.as_str()).concat(
                " conflicts with its durable definition",
            ),
        },
    )
}

/// The name of a token in the ledger.
pub open spec fn token_name(cluster_id: Seq<char>, nonce: Seq<char>) -> Seq<char> {
    cluster_id + ":"@ + nonce
}

/// The name of a token in the ledger.
pub fn token_key(cluster_id: &ClusterId, nonce: &str) -> (r: String)
    ensures
        r@ == token_name(cluster_id@, nonce@),
{
    cluster_id.as_str().to_owned().concat(":").concat(nonce)
}

/// What a ledger holds.
#[verifier::ext_equal]
pub struct LedgerView {
    pub tokens: Map<Seq<Seq<char>>, TokenLedgerRecordView>,
    pub revocations: Map<Seq<Seq<char>>, TokenRevocationRecordView>,
}

/// The key of the token that a record is about.
pub open spec fn record_key(record: TokenLedgerRecordView) -> Seq<Seq<char>> {
    one(token_name(record.claims.cluster_id, record.claims.nonce))
}

impl LedgerView {
    /// The token under its key, or the given one where there is none, with the revocation that is
    /// on record.
    pub open spec fn stamped(self, record: TokenLedgerRecordView) -> TokenLedgerRecordView {
        let key = record_key(record);
        let stored = match at(self.tokens, key) {
            Some(stored) => stored,
            None => record,
        };
        match at(self.revocations, key) {
            Some(revocation) => TokenLedgerRecordView {
                revoked_at: Some(revocation.revoked_at),
                ..stored
            },
            None => stored,
        }
    }

    /// Why a token is not the one on record.
    pub open spec fn conflict(self, record: TokenLedgerRecordView) -> Option<
        ControlPlaneErrorView,
    > {
        match at(self.tokens, record_key(record)) {
            Some(stored) => definition_refusal(stored, record),
            None => None,
        }
    }

    /// The ledger with a token.
    pub open spec fn with_token(
        self,
        key: Seq<Seq<char>>,
        record: TokenLedgerRecordView,
    ) -> LedgerView {
        LedgerView { tokens: self.tokens.insert(key, record), ..self }
    }

    /// Why a token is not admitted.
    pub open spec fn admission_refusal(self, record: TokenLedgerRecordView, now: Timestamp) -> Option<
        ControlPlaneErrorView,
    > {
        let status = status_of(self.stamped(record), now);
        if self.conflict(record) is Some {
            self.conflict(record)
        } else if status != TokenStatus::Active {
            Some(
                ControlPlaneErrorView::TokenRejected { nonce: record.claims.nonce, status },
            )
        } else {
            None
        }
    }

    /// The token with one more use.
    pub open spec fn used(self, record: TokenLedgerRecordView) -> TokenLedgerRecordView {
        let stored = self.stamped(record);
        TokenLedgerRecordView {
            uses: if stored.uses < u32::MAX {
                (stored.uses + 1) as u32
            } else {
                u32::MAX
            },
            ..stored
        }
    }

    /// The ledger after a token was presented for admission.
    pub open spec fn after_admission(self, record: TokenLedgerRecordView, now: Timestamp) -> LedgerView {
        if self.conflict(record) is Some {
            self
        } else if self.admission_refusal(record, now) is Some {
            self.with_token(record_key(record), self.stamped(record))
        } else {
            self.with_token(record_key(record), self.used(record))
        }
    }

    /// The revocation that is on record after a token was revoked: the first one.
    pub open spec fn standing_revocation(self, revocation: TokenRevocationRecordView) -> TokenRevocationRecordView {
        match at(self.revocations, one(token_name(revocation.cluster_id, revocation.nonce))) {
            Some(standing) => standing,
            None => revocation,
        }
    }

    /// The token that a revocation is about, revoked.
    pub open spec fn revoked_token(self, revocation: TokenRevocationRecordView) -> Option<
        TokenLedgerRecordView,
    > {
        match at(self.tokens, one(token_name(revocation.cluster_id, revocation.nonce))) {
            Some(stored) => Some(
                TokenLedgerRecordView {
                    revoked_at: Some(self.standing_revocation(revocation).revoked_at),
                    ..stored
                },
            ),
            None => None,
        }
    }

    /// The ledger after a token was revoked.
    pub open spec fn after_revocation(self, revocation: TokenRevocationRecordView) -> LedgerView {
        let key = one(token_name(revocation.cluster_id, revocation.nonce));
        LedgerView {
            revocations: self.revocations.insert(key, self.standing_revocation(revocation)),
            tokens: match self.revoked_token(revocation) {
                Some(record) => self.tokens.insert(key, record),
                None => self.tokens,
            },
        }
    }
}

/// What became of a request to revoke a token.
#[derive(Debug)]
pub struct TokenRevocationOutcome {
    pub revocation: TokenRevocationRecord,
    pub record: Option<TokenLedgerRecord>,
}

/// How many tokens of a cluster are in which state.
#[derive(Debug, Clone, Copy, PartialEq, Eq, Structural)]
pub struct TokenLedgerMetrics {
    pub active: usize,
    pub revoked: usize,
    pub expired: usize,
    pub exhausted: usize,
    /// Revocations of tokens that are not on record.
    pub revocation_tombstones: usize,
}

/// The tokens of a cluster in a state.
pub open spec fn tokens_in_state(
    tokens: Seq<TokenLedgerRecordView>,
    cluster_id: Seq<char>,
    now: Timestamp,
    status: TokenStatus,
    n: nat,
) -> nat {
    kept(
        tokens,
        |record: TokenLedgerRecordView|
            record.claims.cluster_id == cluster_id && status_of(record, now) == status,
        n,
    ).len()
}

/// The revocations of a cluster among the first `n` keys whose tokens are not on record.
pub open spec fn tombstones(
    ledger: LedgerView,
    cluster_id: Seq<char>,
    keys: Seq<Seq<Seq<char>>>,
    n: nat,
) -> nat {
    kept(
        keys,
        |key: Seq<Seq<char>>|
            ledger.revocations[key].cluster_id == cluster_id && !ledger.tokens.dom().contains(key),
        n,
    ).len()
}

/// How many tokens of a cluster are in which state.
pub open spec fn ledger_metrics(
    ledger: LedgerView,
    cluster_id: Seq<char>,
    now: Timestamp,
    metrics: TokenLedgerMetrics,
) -> bool {
    let tokens = listed(ledger.tokens);
    let n = tokens.len();
    let keys = sorted_keys(ledger.revocations.dom());
    &&& metrics.active == tokens_in_state(tokens, cluster_id, now, TokenStatus::Active, n)
    &&& metrics.revoked == tokens_in_state(tokens, cluster_id, now, TokenStatus::Revoked, n)
    &&& metrics.expired == tokens_in_state(tokens, cluster_id, now, TokenStatus::Expired, n)
    &&& metrics.exhausted == tokens_in_state(tokens, cluster_id, now, TokenStatus::Exhausted, n)
    &&& metrics.revocation_tombstones == tombstones(ledger, cluster_id, keys, keys.len())
}

/// Keeps the uses and the revocations of join tokens.
pub trait TokenLedger: Sized {
    /// What the ledger holds.
    spec fn ledger(&self) -> LedgerView;

    /// The ledger is in order.
    spec fn wf(&self) -> bool;

    /// Puts a token on record that is not yet, and gives what is then on record.
    fn insert_token_if_absent(&mut self, record: TokenLedgerRecord) -> (r: Result<
        TokenLedgerRecord,
        ControlPlaneError,
    >)
        requires
            old(self).wf(),
        ensures
            final(self).wf(),
            refusal(r) == old(self).ledger().conflict(record@),
            r matches Ok(stored) ==> stored@ == old(self).ledger().stamped(record@),
            final(self).ledger() == (if r is Ok {
                old(self).ledger().with_token(
                    record_key(record@),
                    old(self).ledger().stamped(record@),
                )
            } else {
                old(self).ledger()
            }),
    ;

    /// What is on record of a token.
    fn get_token(&self, cluster_id: &ClusterId, nonce: &str) -> (r: Option<TokenLedgerRecord>)
        requires
            self.wf(),
        ensures
            opt_view(r) == at(self.ledger().tokens, one(token_name(cluster_id@, nonce@))),
    ;

    /// Counts one more use of a token that may be used.
    fn admit_token(&mut self, record: TokenLedgerRecord, now: Timestamp) -> (r: Result<
        TokenLedgerRecord,
        ControlPlaneError,
    >)
        requires
            old(self).wf(),
        ensures
            final(self).wf(),
            refusal(r) == old(self).ledger().admission_refusal(record@, now),
            r matches Ok(stored) ==> stored@ == old(self).ledger().used(record@),
            final(self).ledger() == old(self).ledger().after_admission(record@, now),
    ;

    /// Revokes a token, on record or not. A first revocation stands.
    fn revoke_token(&mut self, revocation: TokenRevocationRecord) -> (r: TokenRevocationOutcome)
        requires
            old(self).wf(),
        ensures
            final(self).wf(),
            r.revocation@ == old(self).ledger().standing_revocation(revocation@),
            opt_view(r.record) == old(self).ledger().revoked_token(revocation@),
            final(self).ledger() == old(self).ledger().after_revocation(revocation@),
    ;

    /// How many tokens of a cluster are in which state.
    fn token_metrics(&self, cluster_id: &ClusterId, now: Timestamp) -> (r: TokenLedgerMetrics)
        requires
            self.wf(),
        ensures
            ledger_metrics(self.ledger(), cluster_id@, now, r),
    ;
}

/// A ledger that keeps its records in memory.
#[derive(Debug)]
pub struct InMemoryTokenLedger {
    tokens: OrderedMap<String, TokenLedgerRecord>,
    revocations: OrderedMap<String, TokenRevocationRecord>,
}

impl InMemoryTokenLedger {
    /// The empty ledger.
    pub fn new() -> (r: Self)
        ensures
            r.wf(),
            r.ledger() == (LedgerView { tokens: Map::empty(), revocations: Map::empty() }),
    {
        broadcast use lemma_held_empty;

        InMemoryTokenLedger { tokens: OrderedMap::new(), revocations: OrderedMap::new() }
    }

    fn stamp(&self, record: &TokenLedgerRecord) -> (r: Result<TokenLedgerRecord, ControlPlaneError>)
        requires
            self.wf(),
        ensures
            refusal(r) == self.ledger().conflict(record@),
            r matches Ok(stored) ==> stored@ == self.ledger().stamped(record@),
    {
        let key = token_key(&record.claims.cluster_id, record.claims.nonce.as_str());
        let mut stored = match self.tokens.get(&key) {
            Some(stored) => {
                match ensure_token_definition_matches(stored, record) {
                    Ok(()) => {},
                    Err(error) => return Err(error),
                }
                stored.duplicate()
            },
            None => record.duplicate(),
        };
        if let Some(revocation) = self.revocations.get(&key) {
            stored.revoked_at = Some(revocation.revoked_at);
        }
        Ok(stored)
    }

    fn put(&mut self, key: String, record: TokenLedgerRecord)
        requires
            old(self).wf(),
        ensures
            final(self).wf(),
            final(self).ledger() == old(self).ledger().with_token(one(key@), record@),
    {
        broadcast use lemma_held_insert;

        self.tokens.insert(key, record);
    }
}

impl TokenLedger for InMemoryTokenLedger {
    closed spec fn ledger(&self) -> LedgerView {
        LedgerView { tokens: held(self.tokens@), revocations: held(self.revocations@) }
    }

    closed spec fn wf(&self) -> bool {
        self.tokens.wf() && self.revocations.wf()
    }

    fn insert_token_if_absent(&mut self, record: TokenLedgerRecord) -> (r: Result<
        TokenLedgerRecord,
        ControlPlaneError,
    >) {
        match self.stamp(&record) {
            Ok(stored) => {
                let key = token_key(&record.claims.cluster_id, record.claims.nonce.as_str());
                self.put(key, stored.duplicate());
                Ok(stored)
            },
            Err(error) => Err(error),
        }
    }

    fn get_token(&self, cluster_id: &ClusterId, nonce: &str) -> (r: Option<TokenLedgerRecord>) {
        let key = token_key(cluster_id, nonce);
        match self.tokens.get(&key) {
            Some(stored) => Some(stored.duplicate()),
            None => None,
        }
    }

    fn admit_token(&mut self, record: TokenLedgerRecord, now: Timestamp) -> (r: Result<
        TokenLedgerRecord,
        ControlPlaneError,
    >) {
        let mut stored = match self.stamp(&record) {
            Ok(stored) => stored,
            Err(error) => return Err(error),
        };
        let key = token_key(&record.claims.cluster_id, record.claims.nonce.as_str());
        let status = stored.status(now);
        if status != TokenStatus::Active {
            self.put(key, stored);
            return Err(
                ControlPlaneError::TokenRejected { nonce: record.claims.nonce.clone(), status },
            );
        }
        if stored.uses < u32::MAX {
            stored.uses = stored.uses + 1;
        }
        self.put(key, stored.duplicate());
        Ok(stored)
    }

    fn revoke_token(&mut self, revocation: TokenRevocationRecord) -> (r: TokenRevocationOutcome) {
        broadcast use lemma_held_insert;

        let key = token_key(&revocation.cluster_id, revocation.nonce.as_str());
        let standing = match self.revocations.get(&key) {
            Some(standing) => standing.duplicate(),
            None => revocation,
        };
        let record = match self.tokens.get(&key) {
            Some(stored) => {
                let mut record = stored.duplicate();
                record.revoked_at = Some(standing.revoked_at);
                Some(record)
            },
            None => None,
        };
        if let Some(revoked) = &record {
            self.tokens.insert(key.clone(), revoked.duplicate());
        }
        self.revocations.insert(key, standing.duplicate());
        TokenRevocationOutcome { revocation: standing, record }
    }

    fn token_metrics(&self, cluster_id: &ClusterId, now: Timestamp) -> (r: TokenLedgerMetrics) {
        let tokens = value_list(&self.tokens);
        let ghost all = views(tokens@);
        let mut metrics = TokenLedgerMetrics {
            active: 0,
            revoked: 0,
            expired: 0,
            exhausted: 0,
            revocation_tombstones: 0,
        };
        let mut i: usize = 0;
        while i < tokens.len()
            invariant
                i <= tokens@.len(),
                all == views(tokens@),
                metrics.revocation_tombstones == 0,
                metrics.active + metrics.revoked + metrics.expired + metrics.exhausted <= i,
                metrics.active == tokens_in_state(
                    all,
                    cluster_id@,
                    now,
                    TokenStatus::Active,
                    i as nat,
                ),
                metrics.revoked == tokens_in_state(
                    all,
                    cluster_id@,
                    now,
                    TokenStatus::Revoked,
                    i as nat,
                ),
                metrics.expired == tokens_in_state(
                    all,
                    cluster_id@,
                    now,
                    TokenStatus::Expired,
                    i as nat,
                ),
                metrics.exhausted == tokens_in_state(
                    all,
                    cluster_id@,
                    now,
                    TokenStatus::Exhausted,
                    i as nat,
                ),
            decreases tokens@.len() - i,
        {
            assert(all[i as int] == tokens@[i as int]@);
            if tokens[i].claims.cluster_id == *cluster_id {
                match tokens[i].status(now) {
                    TokenStatus::Active => {
                        metrics.active = metrics.active + 1;
                    },
                    TokenStatus::Revoked => {
                        metrics.revoked = metrics.revoked + 1;
                    },
                    TokenStatus::Expired => {
                        metrics.expired = metrics.expired + 1;
                    },
                    TokenStatus::Exhausted => {
                        metrics.exhausted = metrics.exhausted + 1;
                    },
                }
            }
            i = i + 1;
        }
        metrics.revocation_tombstones = self.count_tombstones(cluster_id);
        metrics
    }
}

impl InMemoryTokenLedger {
    fn count_tombstones(&self, cluster_id: &ClusterId) -> (r: usize)
        requires
            self.wf(),
        ensures
            r == tombstones(
                self.ledger(),
                cluster_id@,
                sorted_keys(self.ledger().revocations.dom()),
                sorted_keys(self.ledger().revocations.dom()).len(),
            ),
    {
        let ghost keys = self.revocations.keys();
        let ghost ledger = self.ledger();
        proof {
            self.revocations.lemma_listed();
            assert(ledger.revocations.dom() =~= self.revocations@.dom());
        }
        let mut count: usize = 0;
        let mut i: usize = 0;
        while i < self.revocations.entries.len()
            invariant
                self.wf(),
                ledger == self.ledger(),
                keys == self.revocations.keys(),
                i <= self.revocations.entries@.len(),
                count <= i,
                count == tombstones(ledger, cluster_id@, keys, i as nat),
            decreases self.revocations.entries@.len() - i,
        {
            let entry = &self.revocations.entries[i];
            proof {
                crate::map::lemma_key_position(self.revocations.entries@, i as int);
                assert(keys[i as int] == entry.key.parts());
            }
            if entry.value.cluster_id == *cluster_id && !self.tokens.contains_key(&entry.key) {
                count = count + 1;
            }
            i = i + 1;
        }
        count
    }
}

/// Why a token may not be used. `stored` is what is on record of it.
pub open spec fn issued_token_refusal(
    stored: Option<TokenLedgerRecordView>,
    claims: JoinTokenClaimsView,
    now: Timestamp,
) -> Option<ControlPlaneErrorView> {
    match stored {
        None => Some(ControlPlaneErrorView::TokenNotFound { nonce: claims.nonce }),
        Some(stored) => if definition_refusal(stored, fresh_record(claims, now)) is Some {
            definition_refusal(stored, fresh_record(claims, now))
        } else if status_of(stored, now) != TokenStatus::Active {
            Some(
                ControlPlaneErrorView::TokenRejected {
                    nonce: claims.nonce,
                    status: status_of(stored, now),
                },
            )
        } else {
            None
        },
    }
}

/// Checks that a token may be used. `stored` is what is on record of it.
pub fn check_issued_token(
    stored: Option<TokenLedgerRecord>,
    claims: &JoinTokenClaims,
    now: Timestamp,
) -> (r: Result<TokenLedgerRecord, ControlPlaneError>)
    ensures
        refusal(r) == issued_token_refusal(opt_view(stored), claims@, now),
        r matches Ok(found) ==> stored == Some(found),
{
    let stored = match stored {
        Some(stored) => stored,
        None => return Err(ControlPlaneError::TokenNotFound { nonce: claims.nonce.clone() }),
    };
    ensure_token_definition_matches(&stored, &TokenLedgerRecord::from_claims(claims, now))?;
    let status = stored.status(now);
    if status != TokenStatus::Active {
        return Err(ControlPlaneError::TokenRejected { nonce: claims.nonce.clone(), status });
    }
    Ok(stored)
}

/// Admits the holders of join tokens.
#[derive(Debug)]
pub struct TokenAdmission<L> {
    pub ledger: L,
}

impl<L: TokenLedger> TokenAdmission<L> {
    /// An admission that goes by a ledger.
    pub fn new(ledger: L) -> (r: Self)
        ensures
            r.ledger == ledger,
    {
        TokenAdmission { ledger }
    }

    /// Puts a token on record.
    pub fn issue_from_claims(&mut self, claims: &JoinTokenClaims, created_at: Timestamp) -> (r:
        Result<TokenLedgerRecord, ControlPlaneError>)
        requires
            old(self).ledger.wf(),
        ensures
            final(self).ledger.wf(),
            ({
                let record = fresh_record(claims@, created_at);
                let before = old(self).ledger.ledger();
                &&& refusal(r) == before.conflict(record)
                &&& r matches Ok(stored) ==> stored@ == before.stamped(record)
                &&& final(self).ledger.ledger() == (if r is Ok {
                    before.with_token(record_key(record), before.stamped(record))
                } else {
                    before
                })
            }),
    {
        let record = TokenLedgerRecord::from_claims(claims, created_at);
        self.ledger.insert_token_if_absent(record)
    }

    /// Counts one more use of a token that may be used.
    pub fn admit_join(&mut self, claims: &JoinTokenClaims, now: Timestamp) -> (r: Result<
        TokenLedgerRecord,
        ControlPlaneError,
    >)
        requires
            old(self).ledger.wf(),
        ensures
            final(self).ledger.wf(),
            ({
                let record = fresh_record(claims@, now);
                let before = old(self).ledger.ledger();
                &&& refusal(r) == before.admission_refusal(record, now)
                &&& r matches Ok(stored) ==> stored@ == before.used(record)
                &&& final(self).ledger.ledger() == before.after_admission(record, now)
            }),
    {
        self.ledger.admit_token(TokenLedgerRecord::from_claims(claims, now), now)
    }

    /// Checks that a token is on record and may be used, without using it.
    pub fn validate_issued_token(&self, claims: &JoinTokenClaims, now: Timestamp) -> (r: Result<
        TokenLedgerRecord,
        ControlPlaneError,
    >)
        requires
            self.ledger.wf(),
        ensures
            ({
                let stored = at(
                    self.ledger.ledger().tokens,
                    record_key(fresh_record(claims@, now)),
                );
                &&& refusal(r) == issued_token_refusal(stored, claims@, now)
                &&& r matches Ok(found) ==> Some(found@) == stored
            }),
    {
        check_issued_token(
            self.ledger.get_token(&claims.cluster_id, claims.nonce.as_str()),
            claims,
            now,
        )
    }

    /// Revokes a token.
    pub fn revoke_token(&mut self, revocation: TokenRevocationRecord) -> (r: TokenRevocationOutcome)
        requires
            old(self).ledger.wf(),
        ensures
            final(self).ledger.wf(),
            r.revocation@ == old(self).ledger.ledger().standing_revocation(revocation@),
            opt_view(r.record) == old(self).ledger.ledger().revoked_token(revocation@),
            final(self).ledger.ledger() == old(self).ledger.ledger().after_revocation(
                revocation@,
            ),
    {
        self.ledger.revoke_token(revocation)
    }

    /// How many tokens of a cluster are in which state.
    pub fn token_metrics(&self, cluster_id: &ClusterId, now: Timestamp) -> (r: TokenLedgerMetrics)
        requires
            self.ledger.wf(),
        ensures
            ledger_metrics(self.ledger.ledger(), cluster_id@, now, r),
    {
        self.ledger.token_metrics(cluster_id, now)
    }
}

/// What a key may issue.
#[derive(Debug, Clone, Copy, PartialEq, Eq, Structural)]
pub enum IssuerKeyPolicy {
    /// Any token.
    Unrestricted,
    /// Tokens by which nodes and clients enroll, valid for a limited time.
    NodeEnrollment { max_ttl_seconds: i64 },
}

/// A key that tokens are accepted from.
#[derive(Debug)]
pub struct TrustedIssuerKey {
    pub public_key_b64: String,
    pub policy: IssuerKeyPolicy,
}

/// What a [`TrustedIssuerKey`] holds.
pub struct TrustedIssuerKeyView {
    pub public_key_b64: Seq<char>,
    pub policy: IssuerKeyPolicy,
}

impl View for TrustedIssuerKey {
    type V = TrustedIssuerKeyView;

    open spec fn view(&self) -> TrustedIssuerKeyView {
        TrustedIssuerKeyView { public_key_b64: self.public_key_b64@, policy: self.policy }
    }
}

/// The keys that tokens are accepted from.
#[derive(Debug)]
pub struct IssuerKeyRing {
    keys: OrderedMap<ScopedName, TrustedIssuerKey>,
}

impl View for IssuerKeyRing {
    type V = Map<Seq<Seq<char>>, TrustedIssuerKeyView>;

    closed spec fn view(&self) -> Map<Seq<Seq<char>>, TrustedIssuerKeyView> {
        held(self.keys@)
    }
}

impl IssuerKeyRing {
    /// The ring is in order.
    pub closed spec fn wf(&self) -> bool {
        self.keys.wf()
    }

    /// The ring without keys.
    pub fn new() -> (r: Self)
        ensures
            r.wf(),
            r@ == Map::<Seq<Seq<char>>, TrustedIssuerKeyView>::empty(),
    {
        broadcast use lemma_held_empty;

        IssuerKeyRing { keys: OrderedMap::new() }
    }

    fn put(&mut self, issuer: NodeId, key_id: KeyId, key: TrustedIssuerKey)
        requires
            old(self).wf(),
        ensures
            final(self).wf(),
            final(self)@ == old(self)@.insert(two(issuer@, key_id@), key@),
    {
        broadcast use lemma_held_insert;

        self.keys.insert(ScopedName { scope: issuer.value, name: key_id.value }, key);
    }

    /// Accepts any token from a key.
    pub fn insert(&mut self, issuer: NodeId, key_id: KeyId, public_key_b64: String)
        requires
            old(self).wf(),
        ensures
            final(self).wf(),
            final(self)@ == old(self)@.insert(
                two(issuer@, key_id@),
                (TrustedIssuerKeyView {
                    public_key_b64: public_key_b64@,
                    policy: IssuerKeyPolicy::Unrestricted,
                }),
            ),
    {
        self.put(
            issuer,
            key_id,
            TrustedIssuerKey { public_key_b64, policy: IssuerKeyPolicy::Unrestricted },
        );
    }

    /// Accepts enrollment tokens from a key.
    pub fn insert_node_enrollment_key(
        &mut self,
        issuer: NodeId,
        key_id: KeyId,
        public_key_b64: String,
        max_ttl_seconds: i64,
    )
        requires
            old(self).wf(),
        ensures
            final(self).wf(),
            final(self)@ == old(self)@.insert(
                two(issuer@, key_id@),
                (TrustedIssuerKeyView {
                    public_key_b64: public_key_b64@,
                    policy: IssuerKeyPolicy::NodeEnrollment { max_ttl_seconds },
                }),
            ),
    {
        self.put(
            issuer,
            key_id,
            TrustedIssuerKey {
                public_key_b64,
                policy: IssuerKeyPolicy::NodeEnrollment { max_ttl_seconds },
            },
        );
    }

    /// The key of an issuer.
    pub fn get(&self, issuer: &NodeId, key_id: &KeyId) -> (r: Option<&TrustedIssuerKey>)
        requires
            self.wf(),
        ensures
            crate::types::ref_view(r) == at(self@, two(issuer@, key_id@)),
    {
        let key = ScopedName { scope: issuer.value.clone(), name: key_id.value.clone() };
        self.keys.get(&key)
    }
}

/// The canonical URLs of the endpoints of a kind that a token names.
pub open spec fn endpoint_urls(
    endpoints: Seq<BootstrapEndpointView>,
    kind: BootstrapEndpointKind,
    n: nat,
) -> Set<Seq<char>>
    decreases n,
{
    if n == 0 {
        Set::empty()
    } else {
        let before = endpoint_urls(endpoints, kind, (n - 1) as nat);
        match endpoints[n - 1].canonical_url {
            Some(url) => if endpoints[n - 1].kind == kind {
                before.insert(url)
            } else {
                before
            },
            None => before,
        }
    }
}

/// How many different endpoints of a kind a token names.
pub open spec fn endpoint_count(claims: JoinTokenClaimsView, kind: BootstrapEndpointKind) -> nat {
    endpoint_urls(claims.bootstrap_endpoints, kind, claims.bootstrap_endpoints.len()).len()
}

/// How many different endpoints of a kind a token names.
pub fn join_token_endpoint_count(claims: &JoinTokenClaims, kind: BootstrapEndpointKind) -> (r:
    usize)
    ensures
        r == endpoint_count(claims@, kind),
{
    let endpoints = &claims.bootstrap_endpoints;
    let ghost all = views(endpoints@);
    let mut urls = NameSet::new();
    let mut i: usize = 0;
    while i < endpoints.len()
        invariant
            i <= endpoints@.len(),
            all == views(endpoints@),
            urls@ == endpoint_urls(all, kind, i as nat),
        decreases endpoints@.len() - i,
    {
        assert(all[i as int] == endpoints@[i as int]@);
        if let Some(url) = &endpoints[i].canonical_url {
            if endpoints[i].kind == kind {
                urls.insert(url.clone());
            }
        }
        i = i + 1;
    }
    urls.count()
}

/// Why a key may not issue a token.
pub open spec fn issuer_fault(
    claims: JoinTokenClaimsView,
    policy: IssuerKeyPolicy,
    not_before_skew_seconds: u32,
) -> Option<Seq<char>> {
    match policy {
        IssuerKeyPolicy::Unrestricted => None,
        IssuerKeyPolicy::NodeEnrollment { max_ttl_seconds } => {
            let client = role_is_client(claims.role);
            if max_ttl_seconds <= 0 || claims.expires_at.at() - claims.not_before.at() > (
            max_ttl_seconds + not_before_skew_seconds) * 1_000_000_000 {
                Some("validity exceeds the configured maximum"@)
            } else if !node_enrollment_role(claims.role) && !client {
                Some("role is not allowed"@)
            } else if client && !control_only(claims) {
                Some("client tokens must be single-use, untagged, route-free, and relay-free"@)
            } else if claims.tags != claims.policy.allowed_tags {
                Some("claim tags and allowed tags must match"@)
            } else if claims.policy.allowed_routes.len() != 0 {
                Some("route authorization is not allowed"@)
            } else if !(claims.policy.max_token_uses matches Some(uses) && 1 <= uses
                <= MAX_NODE_ENROLLMENT_TOKEN_USES) {
                Some("token uses must be finite and bounded"@)
            } else if endpoint_count(claims, BootstrapEndpointKind::ControlPlane) < 2 {
                Some("HA bootstrap endpoints are required"@)
            } else if !client && (endpoint_count(claims, BootstrapEndpointKind::Signal) < 2
                || endpoint_count(claims, BootstrapEndpointKind::Stun) < 2) {
                Some("HA bootstrap endpoints are required"@)
            } else if !client && claims.policy.allow_relay && endpoint_count(
                claims,
                BootstrapEndpointKind::Relay,
            ) < 2 {
                Some("two relay bootstrap endpoints are required"@)
            } else {
                None
            }
        },
    }
}

/// The refusal of a token for what its key may not issue.
pub open spec fn issuer_refusal(
    claims: JoinTokenClaimsView,
    policy: IssuerKeyPolicy,
    not_before_skew_seconds: u32,
) -> Option<ControlPlaneErrorView> {
    match issuer_fault(claims, policy, not_before_skew_seconds) {
        Some(fault) => Some(
            ControlPlaneErrorView::TokenVerification {
                reason: "node enrollment issuer policy rejected token: "@ + fault,
            },
        ),
        None => None,
    }
}

fn check_issuer(
    claims: &JoinTokenClaims,
    policy: IssuerKeyPolicy,
    not_before_skew_seconds: u32,
) -> (r: Result<(), String>)
    ensures
        reason_of(r) == issuer_fault(claims@, policy, not_before_skew_seconds),
{
    let max_ttl_seconds = match policy {
        IssuerKeyPolicy::Unrestricted => return Ok(()),
        IssuerKeyPolicy::NodeEnrollment { max_ttl_seconds } => max_ttl_seconds,
    };
    let validity: i128 = claims.expires_at.total_nanos() - claims.not_before.total_nanos();
    if max_ttl_seconds <= 0 || validity > (max_ttl_seconds as i128
        + not_before_skew_seconds as i128) * 1_000_000_000 {
        return Err("validity exceeds the configured maximum".to_owned());
    }
    if !enrollment_role_is_allowed(&claims.role) {
        return Err("role is not allowed".to_owned());
    }
    let client = claims.role.is_client();
    if client && !client_claims_are_control_only(claims) {
        return Err(
            "client tokens must be single-use, untagged, route-free, and relay-free".to_owned(),
        );
    }
    if !claims.tags.same_names(&claims.policy.allowed_tags) {
        return Err("claim tags and allowed tags must match".to_owned());
    }
    if claims.policy.allowed_routes.len() != 0 {
        return Err("route authorization is not allowed".to_owned());
    }
    let bounded = match claims.policy.max_token_uses {
        Some(uses) => 1 <= uses && uses <= MAX_NODE_ENROLLMENT_TOKEN_USES,
        None => false,
    };
    if !bounded {
        return Err("token uses must be finite and bounded".to_owned());
    }
    if join_token_endpoint_count(claims, BootstrapEndpointKind::ControlPlane) < 2 {
        return Err("HA bootstrap endpoints are required".to_owned());
    }
    if !client {
        if join_token_endpoint_count(claims, BootstrapEndpointKind::Signal) < 2
            || join_token_endpoint_count(claims, BootstrapEndpointKind::Stun) < 2 {
            return Err("HA bootstrap endpoints are required".to_owned());
        }
        if claims.policy.allow_relay && join_token_endpoint_count(
            claims,
            BootstrapEndpointKind::Relay,
        ) < 2 {
            return Err("two relay bootstrap endpoints are required".to_owned());
        }
    }
    Ok(())
}

/// Checks that a key may issue a token.
pub fn validate_issuer_key_policy(
    claims: &JoinTokenClaims,
    policy: IssuerKeyPolicy,
    limits: &ProtocolLimits,
) -> (r: Result<(), ControlPlaneError>)
    ensures
        refusal(r) == issuer_refusal(claims@, policy, limits.join_token_not_before_skew_seconds),
{
    match check_issuer(claims, policy, limits.join_token_not_before_skew_seconds) {
        Ok(()) => Ok(()),
        Err(fault) => Err(
            ControlPlaneError::TokenVerification {
                reason: "node enrollment issuer policy rejected token: ".to_owned().concat(
                    fault.as_str(),
                ),
            },
        ),
    }
}

/// Why a token is not accepted. `shape_fault` and `signature_fault` are what the checks of its
/// shape and of its signature found wrong.
pub open spec fn join_token_refusal(
    claims: JoinTokenClaimsView,
    ring: Map<Seq<Seq<char>>, TrustedIssuerKeyView>,
    shape_fault: Option<Seq<char>>,
    signature_fault: Option<Seq<char>>,
    not_before_skew_seconds: u32,
) -> Option<ControlPlaneErrorView> {
    if shape_fault is Some {
        Some(ControlPlaneErrorView::TokenVerification { reason: shape_fault->0 })
    } else if !claims.policy.allow_join {
        Some(ControlPlaneErrorView::JoinDenied)
    } else {
        match at(ring, two(claims.issuer, claims.key_id)) {
            None => Some(
                ControlPlaneErrorView::IssuerKeyNotFound {
                    issuer: claims.issuer,
                    key_id: claims.key_id,
                },
            ),
            Some(key) => if signature_fault is Some {
                Some(ControlPlaneErrorView::TokenVerification { reason: signature_fault->0 })
            } else {
                issuer_refusal(claims, key.policy, not_before_skew_seconds)
            },
        }
    }
}

/// Checks a join token. `shape_fault` is what the check of its shape found wrong, and
/// `signature_fault` what the check of its signature against the key of its issuer found wrong.
pub fn validate_join_token(
    claims: &JoinTokenClaims,
    ring: &IssuerKeyRing,
    shape_fault: &Option<String>,
    signature_fault: &Option<String>,
    limits: &ProtocolLimits,
) -> (r: Result<(), ControlPlaneError>)
    requires
        ring.wf(),
    ensures
        refusal(r) == join_token_refusal(
            claims@,
            ring@,
            opt_view(*shape_fault),
            opt_view(*signature_fault),
            limits.join_token_not_before_skew_seconds,
        ),
{
    if let Some(fault) = shape_fault {
        return Err(ControlPlaneError::TokenVerification { reason: fault.clone() });
    }
    if !claims.policy.allow_join {
        return Err(ControlPlaneError::JoinDenied);
    }
    let key = match ring.get(&claims.issuer, &claims.key_id) {
        Some(key) => key,
        None => return Err(
            ControlPlaneError::IssuerKeyNotFound {
                issuer: claims.issuer.clone(),
                key_id: claims.key_id.clone(),
            },
        ),
    };
    if let Some(fault) = signature_fault {
        return Err(ControlPlaneError::TokenVerification { reason: fault.clone() });
    }
    validate_issuer_key_policy(claims, key.policy, limits)
}

/// A request to revoke a token.
#[derive(Debug)]
pub struct RevokeTokenRequest {
    pub cluster_id: ClusterId,
    pub nonce: String,
    pub issuer: NodeId,
    pub key_id: KeyId,
    /// When the issuer signed the request, where it did.
    pub signed_at: Option<Timestamp>,
}

/// Why a request to revoke a token is not accepted. `signature_fault` is what the check of its
/// signature found wrong.
pub open spec fn revocation_refusal(
    request: RevokeTokenRequest,
    cluster_id: Seq<char>,
    ring: Map<Seq<Seq<char>>, TrustedIssuerKeyView>,
    signature_fault: Option<Seq<char>>,
    revoked_at: Timestamp,
    skew: Span,
) -> Option<ControlPlaneErrorView> {
    if request.cluster_id@ != cluster_id {
        Some(
            ControlPlaneErrorView::TokenVerification {
                reason: "token revocation cluster mismatch: expected "@ + cluster_id + ", got "@
                    + request.cluster_id@,
            },
        )
    } else {
        match at(ring, two(request.issuer@, request.key_id@)) {
            None => Some(
                ControlPlaneErrorView::IssuerKeyNotFound {
                    issuer: request.issuer@,
                    key_id: request.key_id@,
                },
            ),
            Some(key) => if !(key.policy is Unrestricted) {
                Some(
                    ControlPlaneErrorView::TokenVerification {
                        reason: "issuer key is not authorized for token revocation"@,
                    },
                )
            } else if request.signed_at is None {
                Some(
                    ControlPlaneErrorView::TokenVerification {
                        reason: "token revocation issuer signature is required"@,
                    },
                )
            } else if signature_fault is Some {
                Some(ControlPlaneErrorView::TokenVerification { reason: signature_fault->0 })
            } else if !within_skew(request.signed_at->0, revoked_at, skew) {
                Some(
                    ControlPlaneErrorView::TokenVerification {
                        reason: "token revocation signed_at "@ + timestamp_display(
                            request.signed_at->0,
                        ) + " is outside the allowed "@ + decimal(skew.seconds as nat)
                            + "s window"@,
                    },
                )
            } else {
                None
            },
        }
    }
}

/// Checks a request to revoke a token, and gives the revocation. `signature_fault` is what the
/// check of its signature found wrong.
pub fn accept_revocation(
    request: &RevokeTokenRequest,
    cluster_id: &ClusterId,
    ring: &IssuerKeyRing,
    signature_fault: &Option<String>,
    revoked_at: Timestamp,
    max_age: Span,
) -> (r: Result<TokenRevocationRecord, ControlPlaneError>)
    requires
        ring.wf(),
    ensures
        refusal(r) == revocation_refusal(
            *request,
            cluster_id@,
            ring@,
            opt_view(*signature_fault),
            revoked_at,
            max_age,
        ),
        r matches Ok(revocation) ==> revocation@ == (TokenRevocationRecordView {
            cluster_id: request.cluster_id@,
            nonce: request.nonce@,
            issuer: request.issuer@,
            key_id: request.key_id@,
            revoked_at,
        }),
{
    if request.cluster_id != *cluster_id {
        return Err(
            ControlPlaneError::TokenVerification {
                reason: "token revocation cluster mismatch: expected ".to_owned().concat(
                    cluster_id.as_str(),
                ).concat(", got ").concat(request.cluster_id.as_str()),
            },
        );
    }
    let key = match ring.get(&request.issuer, &request.key_id) {
        Some(key) => key,
        None => return Err(
            ControlPlaneError::IssuerKeyNotFound {
                issuer: request.issuer.clone(),
                key_id: request.key_id.clone(),
            },
        ),
    };
    if key.policy != IssuerKeyPolicy::Unrestricted {
        return Err(
            ControlPlaneError::TokenVerification {
                reason: "issuer key is not authorized for token revocation".to_owned(),
            },
        );
    }
    let signed_at = match request.signed_at {
        Some(signed_at) => signed_at,
        None => return Err(
            ControlPlaneError::TokenVerification {
                reason: "token revocation issuer signature is required".to_owned(),
            },
        ),
    };
    if let Some(fault) = signature_fault {
        return Err(ControlPlaneError::TokenVerification { reason: fault.clone() });
    }
    if !timestamp_within_skew(signed_at, revoked_at, max_age) {
        return Err(
            ControlPlaneError::TokenVerification {
                reason: "token revocation signed_at ".to_owned().concat(
                    timestamp_text(signed_at).as_str(),
                ).concat(" is outside the allowed ").concat(
                    decimal_text(max_age.seconds).as_str(),
                ).concat("s window"),
            },
        );
    }
    Ok(
        TokenRevocationRecord {
            cluster_id: request.cluster_id.clone(),
            nonce: request.nonce.clone(),
            issuer: request.issuer.clone(),
            key_id: request.key_id.clone(),
            revoked_at,
        },
    )
}

/// Each admission counts, and none goes beyond the uses that the token allows.
pub proof fn law_admissions_are_bounded(
    ledger: LedgerView,
    record: TokenLedgerRecordView,
    now: Timestamp,
)
    requires
        ledger.admission_refusal(record, now) is None,
        record.claims.policy.max_token_uses is Some,
    ensures
        ledger.used(record).uses == ledger.stamped(record).uses + 1,
        ledger.used(record).uses <= record.claims.policy.max_token_uses->0,
        at(ledger.after_admission(record, now).tokens, record_key(record)) == Some(
            ledger.used(record),
        ),
{
}

/// A token that was used up is not admitted.
pub proof fn law_used_up_token_is_refused(
    ledger: LedgerView,
    record: TokenLedgerRecordView,
    now: Timestamp,
)
    requires
        record.claims.policy.max_token_uses is Some,
        ledger.stamped(record).uses >= record.claims.policy.max_token_uses->0,
    ensures
        ledger.admission_refusal(record, now) is Some,
{
}

/// Once a token is revoked, before or after it was put on record, it is not admitted, and neither
/// another revocation nor another record of it changes that.
pub proof fn law_revoked_token_stays_revoked(
    ledger: LedgerView,
    revocation: TokenRevocationRecordView,
    record: TokenLedgerRecordView,
    now: Timestamp,
)
    requires
        record.claims.cluster_id == revocation.cluster_id,
        record.claims.nonce == revocation.nonce,
    ensures
        ({
            let after = ledger.after_revocation(revocation);
            &&& after.admission_refusal(record, now) is Some
            &&& after.conflict(record) is None ==> status_of(after.stamped(record), now)
                == TokenStatus::Revoked
            &&& after.after_admission(record, now).revocations == after.revocations
            &&& after.after_revocation(revocation) == after
        }),
{
    let after = ledger.after_revocation(revocation);
    let key = one(token_name(revocation.cluster_id, revocation.nonce));
    assert(at(after.revocations, key) == Some(ledger.standing_revocation(revocation)));
    assert(after.after_revocation(revocation).revocations =~= after.revocations);
    assert(after.after_revocation(revocation).tokens =~= after.tokens);
}

/// To put a token on record again changes nothing: its uses stay counted.
pub proof fn law_reissue_keeps_the_uses(
    ledger: LedgerView,
    record: TokenLedgerRecordView,
    again: TokenLedgerRecordView,
)
    requires
        ledger.conflict(record) is None,
        again.claims == record.claims,
    ensures
        ({
            let after = ledger.with_token(record_key(record), ledger.stamped(record));
            &&& after.conflict(again) is None
            &&& after.stamped(again) == ledger.stamped(record)
            &&& after.with_token(record_key(again), after.stamped(again)) == after
        }),
{
    let after = ledger.with_token(record_key(record), ledger.stamped(record));
    assert(after.with_token(record_key(again), after.stamped(again)).tokens =~= after.tokens);
}

/// A token with the nonce of another one is refused, and changes nothing.
pub proof fn law_conflicting_token_changes_nothing(
    ledger: LedgerView,
    record: TokenLedgerRecordView,
    now: Timestamp,
)
    requires
        ledger.conflict(record) is Some,
    ensures
        ledger.admission_refusal(record, now) == ledger.conflict(record),
        ledger.after_admission(record, now) == ledger,
{
}

/// A token is active exactly where it was not revoked, has not expired and can still be used; one
/// that was revoked is revoked whatever else is true of it, and one that has expired has expired also
/// where it was used up.
pub proof fn law_active_tokens_can_be_used(record: TokenLedgerRecordView, now: Timestamp)
    ensures
        status_of(record, now) == TokenStatus::Active <==> record.revoked_at is None && now.at()
            < record.claims.expires_at.at() && (record.claims.policy.max_token_uses is Some
            ==> record.uses < record.claims.policy.max_token_uses->0),
        status_of(record, now) == TokenStatus::Revoked <==> record.revoked_at is Some,
        status_of(record, now) == TokenStatus::Expired <==> record.revoked_at is None && now.at()
            >= record.claims.expires_at.at(),
        status_of(record, now) == TokenStatus::Exhausted <==> record.revoked_at is None && now.at()
            < record.claims.expires_at.at() && record.claims.policy.max_token_uses is Some
            && record.uses >= record.claims.policy.max_token_uses->0,
{
}

/// A token is admitted exactly where it is what the ledger knows under its name, if it knows it, and
/// is neither revoked nor expired nor used up. That counts one use of it and changes nothing else.
pub proof fn law_admission_counts_one_use(
    ledger: LedgerView,
    record: TokenLedgerRecordView,
    now: Timestamp,
    other: Seq<Seq<char>>,
)
    requires
        record.uses == 0,
        record.revoked_at is None,
    ensures
        ({
            let key = seq![record.claims.cluster_id + ":"@ + record.claims.nonce];
            let known = ledger.tokens.dom().contains(key);
            let uses = if known {
                ledger.tokens[key].uses
            } else {
                0
            };
            let after = ledger.after_admission(record, now);
            &&& ledger.admission_refusal(record, now) is None <==> {
                &&& known ==> ledger.tokens[key].claims == record.claims
                    && ledger.tokens[key].revoked_at is None
                &&& !ledger.revocations.dom().contains(key)
                &&& now.at() < record.claims.expires_at.at()
                &&& record.claims.policy.max_token_uses is Some ==> uses
                    < record.claims.policy.max_token_uses->0
            }
            &&& ledger.admission_refusal(record, now) is None ==> {
                &&& after.tokens.dom().contains(key)
                &&& after.tokens[key].claims == record.claims
                &&& after.tokens[key].revoked_at is None
                &&& uses < u32::MAX ==> after.tokens[key].uses == uses + 1
            }
            &&& after.revocations == ledger.revocations
            &&& other != key ==> after.tokens.dom().contains(other) == ledger.tokens.dom().contains(
                other,
            ) && (ledger.tokens.dom().contains(other) ==> after.tokens[other]
                == ledger.tokens[other])
        }),
{
}

/// A revocation is kept under the name of the token from the first time on, and touches no other.
pub proof fn law_first_revocation_stands(
    ledger: LedgerView,
    revocation: TokenRevocationRecordView,
    other: Seq<Seq<char>>,
)
    ensures
        ({
            let key = seq![revocation.cluster_id + ":"@ + revocation.nonce];
            let after = ledger.after_revocation(revocation);
            &&& after.revocations.dom().contains(key)
            &&& after.revocations[key] == if ledger.revocations.dom().contains(key) {
                ledger.revocations[key]
            } else {
                revocation
            }
            &&& after.tokens.dom() == ledger.tokens.dom()
            &&& ledger.tokens.dom().contains(key) ==> after.tokens[key].revoked_at == Some(
                after.revocations[key].revoked_at,
            ) && after.tokens[key].uses == ledger.tokens[key].uses && after.tokens[key].claims
                == ledger.tokens[key].claims
            &&& other != key ==> after.revocations.dom().contains(other)
                == ledger.revocations.dom().contains(other) && (ledger.tokens.dom().contains(other)
                ==> after.tokens[other] == ledger.tokens[other])
        }),
{
    let after = ledger.after_revocation(revocation);
    assert(after.tokens.dom() =~= ledger.tokens.dom());
}

/// Two tokens are the same exactly where they were issued with the same claims; an issued token can be
/// used exactly where it is known with these claims and active.
pub proof fn law_issued_tokens_are_known(
    stored: Option<TokenLedgerRecordView>,
    claims: JoinTokenClaimsView,
    now: Timestamp,
)
    ensures
        issued_token_refusal(stored, claims, now) is None <==> stored is Some && stored->0.claims
            == claims && stored->0.revoked_at is None && now.at() < claims.expires_at.at() && (
        claims.policy.max_token_uses is Some ==> stored->0.uses < claims.policy.max_token_uses->0),
        stored is None ==> issued_token_refusal(stored, claims, now) == Some(
            ControlPlaneErrorView::TokenNotFound { nonce: claims.nonce },
        ),
{
}

/// The addresses of a kind are those of the endpoints of that kind.
pub proof fn law_endpoint_addresses_are_of_their_kind(
    endpoints: Seq<BootstrapEndpointView>,
    kind: BootstrapEndpointKind,
    n: nat,
    url: Seq<char>,
)
    requires
        n <= endpoints.len(),
    ensures
        endpoint_urls(endpoints, kind, n).contains(url) <==> exists|i: int|
            0 <= i < n && (#[trigger] endpoints[i]).kind == kind && endpoints[i].canonical_url
                == Some(url),
        endpoint_urls(endpoints, kind, n).finite(),
    decreases n,
{
    if n > 0 {
        law_endpoint_addresses_are_of_their_kind(endpoints, kind, (n - 1) as nat, url);
        if endpoint_urls(endpoints, kind, (n - 1) as nat).contains(url) {
            let i = choose|i: int|
                0 <= i < n - 1 && (#[trigger] endpoints[i]).kind == kind
                    && endpoints[i].canonical_url == Some(url);
            assert(endpoints[i].kind == kind);
        }
        if exists|i: int|
            0 <= i < n && (#[trigger] endpoints[i]).kind == kind && endpoints[i].canonical_url
                == Some(url) {
            let i = choose|i: int|
                0 <= i < n && (#[trigger] endpoints[i]).kind == kind && endpoints[i].canonical_url
                    == Some(url);
            if i < n - 1 {
                assert(endpoints[i].kind == kind);
            }
        }
    }
}

/// A restricted issuer may issue tokens of bounded validity, for the roles that enroll themselves or
/// for one client, with tags that are those allowed, without routes, of finite uses, and with at
/// least two addresses of each service that the node will need; an unrestricted one may issue any.
pub proof fn law_restricted_issuers_enroll_only(
    claims: JoinTokenClaimsView,
    policy: IssuerKeyPolicy,
    not_before_skew_seconds: u32,
)
    ensures
        policy is Unrestricted ==> issuer_fault(claims, policy, not_before_skew_seconds) is None,
        policy matches IssuerKeyPolicy::NodeEnrollment { max_ttl_seconds } ==> (issuer_fault(
            claims,
            policy,
            not_before_skew_seconds,
        ) is None <==> {
            let client = claims.role == "client"@;
            &&& max_ttl_seconds > 0
            &&& claims.expires_at.at() <= claims.not_before.at() + (max_ttl_seconds
                + not_before_skew_seconds) * 1_000_000_000
            &&& client || claims.role == "edge"@ || claims.role == "worker"@ || claims.role
                == "gateway"@
            &&& client ==> claims.tags == Set::<Seq<char>>::empty() && !claims.policy.allow_relay
                && claims.policy.max_token_uses == Some(1u32)
            &&& claims.tags == claims.policy.allowed_tags
            &&& claims.policy.allowed_routes.len() == 0
            &&& claims.policy.max_token_uses is Some && 1 <= claims.policy.max_token_uses->0
            &&& claims.policy.max_token_uses->0 <= MAX_NODE_ENROLLMENT_TOKEN_USES
            &&& endpoint_count(claims, BootstrapEndpointKind::ControlPlane) >= 2
            &&& !client ==> endpoint_count(claims, BootstrapEndpointKind::Signal) >= 2
                && endpoint_count(claims, BootstrapEndpointKind::Stun) >= 2
            &&& !client && claims.policy.allow_relay ==> endpoint_count(
                claims,
                BootstrapEndpointKind::Relay,
            ) >= 2
        }),
{
}

/// A join token is accepted exactly where it is well formed, lets the holder join, is of a trusted
/// issuer that may issue it, and its signature holds; a revocation exactly where it is of the
/// cluster, of a trusted issuer without restrictions, and signed soundly and lately.
pub proof fn law_accepted_tokens_are_of_trusted_issuers(
    claims: JoinTokenClaimsView,
    ring: Map<Seq<Seq<char>>, TrustedIssuerKeyView>,
    shape_fault: Option<Seq<char>>,
    signature_fault: Option<Seq<char>>,
    not_before_skew_seconds: u32,
    request: RevokeTokenRequest,
    cluster_id: Seq<char>,
    revoked_at: Timestamp,
    skew: Span,
)
    ensures
        join_token_refusal(
            claims,
            ring,
            shape_fault,
            signature_fault,
            not_before_skew_seconds,
        ) is None <==> {
            &&& shape_fault is None
            &&& claims.policy.allow_join
            &&& ring.dom().contains(seq![claims.issuer, claims.key_id])
            &&& signature_fault is None
            &&& issuer_fault(
                claims,
                ring[seq![claims.issuer, claims.key_id]].policy,
                not_before_skew_seconds,
            ) is None
        },
        revocation_refusal(request, cluster_id, ring, signature_fault, revoked_at, skew) is None
            <==> {
            &&& request.cluster_id@ == cluster_id
            &&& ring.dom().contains(seq![request.issuer@, request.key_id@])
            &&& ring[seq![request.issuer@, request.key_id@]].policy is Unrestricted
            &&& request.signed_at is Some
            &&& signature_fault is None
            &&& skew.fits_signed()
            &&& request.signed_at->0.at() <= revoked_at.at() + skew.len()
            &&& revoked_at.at() <= request.signed_at->0.at() + skew.len()
        },
{
}

/// Each token of the cluster that the ledger knows is counted in the one state that it is in.
pub proof fn law_tokens_are_counted_by_state(
    ledger: LedgerView,
    cluster_id: Seq<char>,
    now: Timestamp,
    metrics: TokenLedgerMetrics,
)
    requires
        ledger_metrics(ledger, cluster_id, now, metrics),
    ensures
        ({
            let tokens = listed(ledger.tokens);
            let n = tokens.len();
            &&& metrics.active + metrics.revoked + metrics.expired + metrics.exhausted
                == crate::lists::places(
                tokens,
                |record: TokenLedgerRecordView| record.claims.cluster_id == cluster_id,
                n,
            ).len()
            &&& metrics.active == crate::lists::places(
                tokens,
                |record: TokenLedgerRecordView|
                    record.claims.cluster_id == cluster_id && record.revoked_at is None && now.at()
                        < record.claims.expires_at.at() && (
                    record.claims.policy.max_token_uses is Some ==> record.uses
                        < record.claims.policy.max_token_uses->0),
                n,
            ).len()
            &&& metrics.revoked == crate::lists::places(
                tokens,
                |record: TokenLedgerRecordView|
                    record.claims.cluster_id == cluster_id && record.revoked_at is Some,
                n,
            ).len()
            &&& metrics.expired == crate::lists::places(
                tokens,
                |record: TokenLedgerRecordView|
                    record.claims.cluster_id == cluster_id && record.revoked_at is None && now.at()
                        >= record.claims.expires_at.at(),
                n,
            ).len()
        }),
{
    let tokens = listed(ledger.tokens);
    let n = tokens.len();
    let mine = |record: TokenLedgerRecordView| record.claims.cluster_id == cluster_id;
    let in_state = |status: TokenStatus|
        |record: TokenLedgerRecordView|
            record.claims.cluster_id == cluster_id && status_of(record, now) == status;
    let active = |record: TokenLedgerRecordView|
        record.claims.cluster_id == cluster_id && record.revoked_at is None && now.at()
            < record.claims.expires_at.at() && (record.claims.policy.max_token_uses is Some
            ==> record.uses < record.claims.policy.max_token_uses->0);
    let revoked = |record: TokenLedgerRecordView|
        record.claims.cluster_id == cluster_id && record.revoked_at is Some;
    let expired = |record: TokenLedgerRecordView|
        record.claims.cluster_id == cluster_id && record.revoked_at is None && now.at()
            >= record.claims.expires_at.at();
    let spent = |record: TokenLedgerRecordView|
        record.claims.cluster_id == cluster_id && status_of(record, now) == TokenStatus::Exhausted;
    let a = |record: TokenLedgerRecordView| active(record) || revoked(record);
    let b = |record: TokenLedgerRecordView| a(record) || expired(record);
    lemma_in_state(tokens, cluster_id, now, TokenStatus::Active, active);
    lemma_in_state(tokens, cluster_id, now, TokenStatus::Revoked, revoked);
    lemma_in_state(tokens, cluster_id, now, TokenStatus::Expired, expired);
    lemma_in_state(tokens, cluster_id, now, TokenStatus::Exhausted, spent);
    crate::lists::lemma_how_many_split(tokens, active, revoked, a, n);
    crate::lists::lemma_how_many_split(tokens, a, expired, b, n);
    crate::lists::lemma_how_many_split(tokens, b, spent, mine, n);
    crate::lists::lemma_how_many_places(tokens, mine, n);
    crate::lists::lemma_how_many_places(tokens, active, n);
    crate::lists::lemma_how_many_places(tokens, revoked, n);
    crate::lists::lemma_how_many_places(tokens, expired, n);
}

proof fn lemma_in_state(
    tokens: Seq<TokenLedgerRecordView>,
    cluster_id: Seq<char>,
    now: Timestamp,
    status: TokenStatus,
    holds: spec_fn(TokenLedgerRecordView) -> bool,
)
    requires
        forall|i: int|
            0 <= i < tokens.len() ==> holds(#[trigger] tokens[i]) == (tokens[i].claims.cluster_id
                == cluster_id && status_of(tokens[i], now) == status),
    ensures
        tokens_in_state(tokens, cluster_id, now, status, tokens.len()) == crate::lists::how_many(
            tokens,
            holds,
            tokens.len(),
        ),
{
    let f = |record: TokenLedgerRecordView|
        record.claims.cluster_id == cluster_id && status_of(record, now) == status;
    crate::lists::lemma_kept_len(tokens, f, tokens.len());
    crate::lists::lemma_how_many_alike(tokens, f, holds, tokens.len());
}

/// The tombstones are the revocations of the cluster under which the ledger knows no token.
pub proof fn law_tombstones_are_revoked_unknown_tokens(
    ledger: LedgerView,
    cluster_id: Seq<char>,
    now: Timestamp,
    metrics: TokenLedgerMetrics,
)
    requires
        ledger_metrics(ledger, cluster_id, now, metrics),
        ledger.revocations.dom().finite(),
    ensures
        metrics.revocation_tombstones == Set::new(
            |key: Seq<Seq<char>>|
                ledger.revocations.dom().contains(key) && ledger.revocations[key].cluster_id
                    == cluster_id && !ledger.tokens.dom().contains(key),
        ).len(),
{
    let keys = sorted_keys(ledger.revocations.dom());
    let n = keys.len();
    let holds = |key: Seq<Seq<char>>|
        ledger.revocations[key].cluster_id == cluster_id && !ledger.tokens.dom().contains(key);
    let all = Set::new(
        |key: Seq<Seq<char>>|
            ledger.revocations.dom().contains(key) && ledger.revocations[key].cluster_id
                == cluster_id && !ledger.tokens.dom().contains(key),
    );
    crate::map::lemma_listing(ledger.revocations);
    crate::lists::lemma_kept_len(keys, holds, n);
    crate::lists::lemma_how_many_places(keys, holds, n);
    let spots = crate::lists::places(keys, holds, n);
    let name = |i: int| keys[i];
    assert forall|i: int, j: int|
        spots.contains(i) && spots.contains(j) && #[trigger] name(i) == #[trigger] name(
            j,
        ) implies i == j by {
        crate::text::lemma_parts_lt_irreflexive(keys[i]);
        if i < j {
            assert(crate::text::parts_lt(keys[i], keys[j]));
        } else if j < i {
            assert(crate::text::parts_lt(keys[j], keys[i]));
        }
    }
    assert forall|key: Seq<Seq<char>>| all.contains(key) <==> spots.map(name).contains(key) by {
        if all.contains(key) {
            assert(keys.contains(key));
            let i = choose|i: int| 0 <= i < keys.len() && keys[i] == key;
            assert(spots.contains(i) && name(i) == key);
        }
        if spots.map(name).contains(key) {
            let i = choose|i: int| spots.contains(i) && name(i) == key;
            assert(keys.contains(keys[i]));
        }
    }
    assert(spots.map(name) =~= all);
    vstd::set_lib::lemma_map_size(spots, all, name);
}

} // verus!
