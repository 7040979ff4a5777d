//! Signing and checking protocol messages with the nodes' RSA keys.
//!
//! A key is held as its PKCS#1 PEM text. A message is signed by clearing its
//! signature, taking the SHA-256 digest of its bytes, and signing that digest
//! with PKCS#1 v1.5; it is checked the same way against the sender's public key.
use crate::message::{
    Commit, CommitView, Hearbeat, HearbeatView, NewView, NewViewView, PrePrepare, PrePrepareView,
    Prepare, PrepareView, Request, RequestView, StateResponse, StateResponseView, SyncResponse,
    SyncResponseView, ViewChange, ViewChangeView, ViewResponse, ViewResponseView,
};
use crate::wire::{
    enc_commit, enc_hearbeat, enc_new_view, enc_preprepare, enc_prepare, enc_request,
    enc_state_response, enc_sync_response, enc_view_change, enc_view_response, encode_commit,
    encode_hearbeat, encode_new_view, encode_preprepare, encode_prepare, encode_request,
    encode_state_response, encode_sync_response, encode_view_change, encode_view_response,
};
use rsa::pkcs1::{DecodeRsaPrivateKey, DecodeRsaPublicKey};
use rsa::{Pkcs1v15Sign, RsaPrivateKey, RsaPublicKey};
use sha2::{Digest, Sha256};
use vstd::prelude::*;

verus! {

/// The SHA-256 digest of `data`.
pub uninterp spec fn sha256(data: Seq<u8>) -> Seq<u8>;

/// `sha2::Sha256::digest`: the 32-byte SHA-256 digest of `data`.
#[verifier::external_body]
pub(crate) fn sha256_digest(data: &[u8]) -> (res: Vec<u8>)
    ensures
        res@ == sha256(data@),
        res@.len() == 32,
{
    Sha256::digest(data).to_vec()
}

/// The PKCS#1 v1.5 signature, with the SHA-256 digest prefix, that the RSA
/// private key written in PKCS#1 PEM as `private_key_pem` makes of `hashed`;
/// `None` where the text is no such key or the key cannot sign `hashed`.
pub uninterp spec fn rsa_signature(private_key_pem: Seq<char>, hashed: Seq<u8>) -> Option<Seq<u8>>;

/// Whether `signature` is a valid PKCS#1 v1.5 signature, with the SHA-256
/// digest prefix, of `hashed` under the RSA public key written in PKCS#1 PEM
/// as `public_key_pem` (false where the text is no such key).
pub uninterp spec fn rsa_accepts(public_key_pem: Seq<char>, hashed: Seq<u8>, signature: Seq<u8>) -> bool;

/// `rsa::RsaPrivateKey::from_pkcs1_pem` then `RsaPrivateKey::sign` with
/// `Pkcs1v15Sign::new::<Sha256>()`. Signing without a random source is
/// deterministic, so the outcome is a function of the key text and the
/// digest; which keys and digests fail is not stated.
#[verifier::external_body]
fn rsa_sign(private_key_pem: &str, hashed: &[u8]) -> (res: Result<Vec<u8>, String>)
    ensures
        match res {
            Ok(signature) => rsa_signature(private_key_pem@, hashed@) == Some(signature@),
            Err(_) => rsa_signature(private_key_pem@, hashed@) is None,
        },
{
    match RsaPrivateKey::from_pkcs1_pem(private_key_pem) {
        Ok(key) => key.sign(Pkcs1v15Sign::new::<Sha256>(), hashed).map_err(|e| e.to_string()),
        Err(e) => Err(e.to_string()),
    }
}

/// `rsa::RsaPublicKey::from_pkcs1_pem` then `RsaPublicKey::verify` with
/// `Pkcs1v15Sign::new::<Sha256>()`: true exactly when both succeed. Which
/// signatures are accepted is not stated beyond the name.
#[verifier::external_body]
fn rsa_verify(public_key_pem: &str, hashed: &[u8], signature: &[u8]) -> (res: bool)
    ensures
        res == rsa_accepts(public_key_pem@, hashed@, signature@),
{
    match RsaPublicKey::from_pkcs1_pem(public_key_pem) {
        Ok(key) => key.verify(Pkcs1v15Sign::new::<Sha256>(), hashed, signature).is_ok(),
        Err(_) => false,
    }
}

/// Signs the SHA-256 digest of `data` with the private key.
pub fn sign_data(private_key: &str, data: &[u8]) -> (res: Result<Vec<u8>, String>)
    ensures
        match res {
            Ok(signature) => rsa_signature(private_key@, sha256(data@)) == Some(signature@),
            Err(_) => rsa_signature(private_key@, sha256(data@)) is None,
        },
{
    let hashed = sha256_digest(data);
    rsa_sign(private_key, hashed.as_slice())
}

/// Checks `signature` against the SHA-256 digest of `data` and the public key.
pub fn verify_signature(public_key: &str, data: &[u8], signature: &[u8]) -> (res: Result<bool, String>)
    ensures
        res == Ok::<bool, String>(rsa_accepts(public_key@, sha256(data@), signature@)),
{
    let hashed = sha256_digest(data);
    Ok(rsa_verify(public_key, hashed.as_slice(), signature))
}


/// The two keys form a pair: every signature that the private key makes of
/// a digest is accepted for that digest by the public key.
pub open spec fn key_pair(private_key: Seq<char>, public_key: Seq<char>) -> bool {
    forall|hashed: Seq<u8>| #[trigger] rsa_signature(private_key, hashed) matches Some(signature)
        ==> rsa_accepts(public_key, hashed, signature)
}

/// Whether `pem` is the PKCS#1 PEM text of an RSA private key.
pub uninterp spec fn pkcs1_private_key_parses(pem: Seq<char>) -> bool;

/// Whether `pem` is the PKCS#1 PEM text of an RSA public key.
pub uninterp spec fn pkcs1_public_key_parses(pem: Seq<char>) -> bool;

/// `rsa::RsaPrivateKey::from_pkcs1_pem`: succeeds exactly where the text
/// parses as a private key; the key itself is not kept.
#[verifier::external_body]
fn parse_private_key(pem: &str) -> (res: Result<(), String>)
    ensures
        res is Ok <==> pkcs1_private_key_parses(pem@),
{
    match RsaPrivateKey::from_pkcs1_pem(pem) {
        Ok(_) => Ok(()),
        Err(e) => Err(e.to_string()),
    }
}

/// `rsa::RsaPublicKey::from_pkcs1_pem`: succeeds exactly where the text
/// parses as a public key; the key itself is not kept.
#[verifier::external_body]
fn parse_public_key(pem: &str) -> (res: Result<(), String>)
    ensures
        res is Ok <==> pkcs1_public_key_parses(pem@),
{
    match RsaPublicKey::from_pkcs1_pem(pem) {
        Ok(_) => Ok(()),
        Err(e) => Err(e.to_string()),
    }
}

/// Checks that a node's private key text, as loaded, is an RSA private key
/// in PKCS#1 PEM.
pub fn check_private_key(pem: &str) -> (res: Result<(), String>)
    ensures
        res is Ok <==> pkcs1_private_key_parses(pem@),
{
    parse_private_key(pem)
}

/// Checks that a public key text, as loaded, is an RSA public key in
/// PKCS#1 PEM.
pub fn check_public_key(pem: &str) -> (res: Result<(), String>)
    ensures
        res is Ok <==> pkcs1_public_key_parses(pem@),
{
    parse_public_key(pem)
}

/// `m` with an empty signature: the part of a `Request` that its signature covers.
pub open spec fn unsigned_request(m: RequestView) -> RequestView {
    RequestView { transaction: m.transaction, timestamp: m.timestamp, node_id: m.node_id, signature: Seq::empty() }
}

/// `m` signed with the private key, where the key can sign it.
pub open spec fn signed_request(private_key: Seq<char>, m: RequestView) -> Option<RequestView> {
    match rsa_signature(private_key, sha256(request_payload(m))) {
        Some(signature) => Some(RequestView { signature, ..unsigned_request(m) }),
        None => None,
    }
}

/// The bytes whose digest a `Request`'s signature signs.
pub open spec fn request_payload(m: RequestView) -> Seq<u8> {
    enc_request(unsigned_request(m))
}

/// `m` with an empty signature: the part of a `PrePrepare` that its signature covers.
pub open spec fn unsigned_preprepare(m: PrePrepareView) -> PrePrepareView {
    PrePrepareView { view_number: m.view_number, sequence_number: m.sequence_number, digest: m.digest, node_id: m.node_id, signature: Seq::empty(), requests: m.requests, block: m.block }
}

/// `m` signed with the private key, where the key can sign it.
pub open spec fn signed_preprepare(private_key: Seq<char>, m: PrePrepareView) -> Option<PrePrepareView> {
    match rsa_signature(private_key, sha256(preprepare_payload(m))) {
        Some(signature) => Some(PrePrepareView { signature, ..unsigned_preprepare(m) }),
        None => None,
    }
}

/// The bytes whose digest a `PrePrepare`'s signature signs.
pub open spec fn preprepare_payload(m: PrePrepareView) -> Seq<u8> {
    enc_preprepare(unsigned_preprepare(m))
}

/// `m` with an empty signature: the part of a `Prepare` that its signature covers.
pub open spec fn unsigned_prepare(m: PrepareView) -> PrepareView {
    PrepareView { view_number: m.view_number, sequence_number: m.sequence_number, digest: m.digest, node_id: m.node_id, signature: Seq::empty() }
}

/// `m` signed with the private key, where the key can sign it.
pub open spec fn signed_prepare(private_key: Seq<char>, m: PrepareView) -> Option<PrepareView> {
    match rsa_signature(private_key, sha256(prepare_payload(m))) {
        Some(signature) => Some(PrepareView { signature, ..unsigned_prepare(m) }),
        None => None,
    }
}

/// The bytes whose digest a `Prepare`'s signature signs.
pub open spec fn prepare_payload(m: PrepareView) -> Seq<u8> {
    enc_prepare(unsigned_prepare(m))
}

/// `m` with an empty signature: the part of a `Commit` that its signature covers.
pub open spec fn unsigned_commit(m: CommitView) -> CommitView {
    CommitView { view_number: m.view_number, sequence_number: m.sequence_number, digest: m.digest, node_id: m.node_id, signature: Seq::empty() }
}

/// `m` signed with the private key, where the key can sign it.
pub open spec fn signed_commit(private_key: Seq<char>, m: CommitView) -> Option<CommitView> {
    match rsa_signature(private_key, sha256(commit_payload(m))) {
        Some(signature) => Some(CommitView { signature, ..unsigned_commit(m) }),
        None => None,
    }
}

/// The bytes whose digest a `Commit`'s signature signs.
pub open spec fn commit_payload(m: CommitView) -> Seq<u8> {
    enc_commit(unsigned_commit(m))
}

/// `m` with an empty signature: the part of a `Hearbeat` that its signature covers.
pub open spec fn unsigned_hearbeat(m: HearbeatView) -> HearbeatView {
    HearbeatView { view_number: m.view_number, sequence_number: m.sequence_number, node_id: m.node_id, signature: Seq::empty() }
}

/// `m` signed with the private key, where the key can sign it.
pub open spec fn signed_hearbeat(private_key: Seq<char>, m: HearbeatView) -> Option<HearbeatView> {
    match rsa_signature(private_key, sha256(hearbeat_payload(m))) {
        Some(signature) => Some(HearbeatView { signature, ..unsigned_hearbeat(m) }),
        None => None,
    }
}

/// The bytes whose digest a `Hearbeat`'s signature signs.
pub open spec fn hearbeat_payload(m: HearbeatView) -> Seq<u8> {
    enc_hearbeat(unsigned_hearbeat(m))
}

/// `m` with an empty signature: the part of a `ViewChange` that its signature covers.
pub open spec fn unsigned_view_change(m: ViewChangeView) -> ViewChangeView {
    ViewChangeView { view_number: m.view_number, sequence_number: m.sequence_number, node_id: m.node_id, new_view_number: m.new_view_number, signature: Seq::empty() }
}

/// `m` signed with the private key, where the key can sign it.
pub open spec fn signed_view_change(private_key: Seq<char>, m: ViewChangeView) -> Option<ViewChangeView> {
    match rsa_signature(private_key, sha256(view_change_payload(m))) {
        Some(signature) => Some(ViewChangeView { signature, ..unsigned_view_change(m) }),
        None => None,
    }
}

/// The bytes whose digest a `ViewChange`'s signature signs.
pub open spec fn view_change_payload(m: ViewChangeView) -> Seq<u8> {
    enc_view_change(unsigned_view_change(m))
}

/// `m` with an empty signature: the part of a `NewView` that its signature covers.
pub open spec fn unsigned_new_view(m: NewViewView) -> NewViewView {
    NewViewView { view_number: m.view_number, sequence_number: m.sequence_number, node_id: m.node_id, signature: Seq::empty() }
}

/// `m` signed with the private key, where the key can sign it.
pub open spec fn signed_new_view(private_key: Seq<char>, m: NewViewView) -> Option<NewViewView> {
    match rsa_signature(private_key, sha256(new_view_payload(m))) {
        Some(signature) => Some(NewViewView { signature, ..unsigned_new_view(m) }),
        None => None,
    }
}

/// The bytes whose digest a `NewView`'s signature signs.
pub open spec fn new_view_payload(m: NewViewView) -> Seq<u8> {
    enc_new_view(unsigned_new_view(m))
}

/// `m` with an empty signature: the part of a `ViewResponse` that its signature covers.
pub open spec fn unsigned_view_response(m: ViewResponseView) -> ViewResponseView {
    ViewResponseView { view_number: m.view_number, node_id: m.node_id, signature: Seq::empty() }
}

/// `m` signed with the private key, where the key can sign it.
pub open spec fn signed_view_response(private_key: Seq<char>, m: ViewResponseView) -> Option<ViewResponseView> {
    match rsa_signature(private_key, sha256(view_response_payload(m))) {
        Some(signature) => Some(ViewResponseView { signature, ..unsigned_view_response(m) }),
        None => None,
    }
}

/// The bytes whose digest a `ViewResponse`'s signature signs.
pub open spec fn view_response_payload(m: ViewResponseView) -> Seq<u8> {
    enc_view_response(unsigned_view_response(m))
}

/// `m` with an empty signature: the part of a `StateResponse` that its signature covers.
pub open spec fn unsigned_state_response(m: StateResponseView) -> StateResponseView {
    StateResponseView { sequence_number: m.sequence_number, signature: Seq::empty() }
}

/// `m` signed with the private key, where the key can sign it.
pub open spec fn signed_state_response(private_key: Seq<char>, m: StateResponseView) -> Option<StateResponseView> {
    match rsa_signature(private_key, sha256(state_response_payload(m))) {
        Some(signature) => Some(StateResponseView { signature, ..unsigned_state_response(m) }),
        None => None,
    }
}

/// The bytes whose digest a `StateResponse`'s signature signs.
pub open spec fn state_response_payload(m: StateResponseView) -> Seq<u8> {
    enc_state_response(unsigned_state_response(m))
}

/// `m` with an empty signature: the part of a `SyncResponse` that its signature covers.
pub open spec fn unsigned_sync_response(m: SyncResponseView) -> SyncResponseView {
    SyncResponseView { blocks: m.blocks, signature: Seq::empty() }
}

/// `m` signed with the private key, where the key can sign it.
pub open spec fn signed_sync_response(private_key: Seq<char>, m: SyncResponseView) -> Option<SyncResponseView> {
    match rsa_signature(private_key, sha256(sync_response_payload(m))) {
        Some(signature) => Some(SyncResponseView { signature, ..unsigned_sync_response(m) }),
        None => None,
    }
}

/// The bytes whose digest a `SyncResponse`'s signature signs.
pub open spec fn sync_response_payload(m: SyncResponseView) -> Seq<u8> {
    enc_sync_response(unsigned_sync_response(m))
}

/// Signs a `Request`: its signature becomes the PKCS#1 v1.5 signature of the
/// SHA-256 digest of its bytes with an empty signature; on an error the
/// signature is left empty.
pub fn sign_request(priv_key: &str, request: &mut Request) -> (res: Result<(), String>)
    ensures
        unsigned_request(final(request)@) == unsigned_request(old(request)@),
        match res {
            Ok(()) => rsa_signature(priv_key@, sha256(request_payload(old(request)@))) == Some(
                final(request).signature@,
            ) && signed_request(priv_key@, old(request)@) == Some(final(request)@),
            Err(_) => rsa_signature(priv_key@, sha256(request_payload(old(request)@))) is None
                && signed_request(priv_key@, old(request)@) is None
                && final(request).signature@ == Seq::<u8>::empty(),
        },
{
    request.signature = Vec::new();
    assert(request@ == unsigned_request(old(request)@));
    let data = encode_request(request);
    match sign_data(priv_key, &data) {
        Ok(signature) => {
            request.signature = signature;
            Ok(())
        },
        Err(e) => Err(e),
    }
}

/// Checks a `Request`'s signature against the public key of its sender; the
/// message is left as it was.
pub fn verify_request(public_key: &str, request: &mut Request) -> (res: Result<bool, String>)
    ensures
        *final(request) == *old(request),
        res == Ok::<bool, String>(
            rsa_accepts(public_key@, sha256(request_payload(old(request)@)), old(request).signature@),
        ),
{
    let mut signature: Vec<u8> = Vec::new();
    std::mem::swap(&mut signature, &mut request.signature);
    assert(request@ == unsigned_request(old(request)@));
    let data = encode_request(request);
    std::mem::swap(&mut signature, &mut request.signature);
    verify_signature(public_key, &data, request.signature.as_slice())
}

/// Signs a `PrePrepare`: its signature becomes the PKCS#1 v1.5 signature of the
/// SHA-256 digest of its bytes with an empty signature; on an error the
/// signature is left empty.
pub fn sign_preprepare(priv_key: &str, preprepare: &mut PrePrepare) -> (res: Result<(), String>)
    ensures
        unsigned_preprepare(final(preprepare)@) == unsigned_preprepare(old(preprepare)@),
        match res {
            Ok(()) => rsa_signature(priv_key@, sha256(preprepare_payload(old(preprepare)@))) == Some(
                final(preprepare).signature@,
            ) && signed_preprepare(priv_key@, old(preprepare)@) == Some(final(preprepare)@),
            Err(_) => rsa_signature(priv_key@, sha256(preprepare_payload(old(preprepare)@))) is None
                && signed_preprepare(priv_key@, old(preprepare)@) is None
                && final(preprepare).signature@ == Seq::<u8>::empty(),
        },
{
    preprepare.signature = Vec::new();
    assert(preprepare@ == unsigned_preprepare(old(preprepare)@));
    let data = encode_preprepare(preprepare);
    match sign_data(priv_key, &data) {
        Ok(signature) => {
            preprepare.signature = signature;
            Ok(())
        },
        Err(e) => Err(e),
    }
}

/// Checks a `PrePrepare`'s signature against the public key of its sender; the
/// message is left as it was.
pub fn verify_preprepare(public_key: &str, preprepare: &mut PrePrepare) -> (res: Result<bool, String>)
    ensures
        *final(preprepare) == *old(preprepare),
        res == Ok::<bool, String>(
            rsa_accepts(public_key@, sha256(preprepare_payload(old(preprepare)@)), old(preprepare).signature@),
        ),
{
    let mut signature: Vec<u8> = Vec::new();
    std::mem::swap(&mut signature, &mut preprepare.signature);
    assert(preprepare@ == unsigned_preprepare(old(preprepare)@));
    let data = encode_preprepare(preprepare);
    std::mem::swap(&mut signature, &mut preprepare.signature);
    verify_signature(public_key, &data, preprepare.signature.as_slice())
}

/// Signs a `Prepare`: its signature becomes the PKCS#1 v1.5 signature of the
/// SHA-256 digest of its bytes with an empty signature; on an error the
/// signature is left empty.
pub fn sign_prepare(priv_key: &str, prepare: &mut Prepare) -> (res: Result<(), String>)
    ensures
        unsigned_prepare(final(prepare)@) == unsigned_prepare(old(prepare)@),
        match res {
            Ok(()) => rsa_signature(priv_key@, sha256(prepare_payload(old(prepare)@))) == Some(
                final(prepare).signature@,
            ) && signed_prepare(priv_key@, old(prepare)@) == Some(final(prepare)@),
            Err(_) => rsa_signature(priv_key@, sha256(prepare_payload(old(prepare)@))) is None
                && signed_prepare(priv_key@, old(prepare)@) is None
                && final(prepare).signature@ == Seq::<u8>::empty(),
        },
{
    prepare.signature = Vec::new();
    assert(prepare@ == unsigned_prepare(old(prepare)@));
    let data = encode_prepare(prepare);
    match sign_data(priv_key, &data) {
        Ok(signature) => {
            prepare.signature = signature;
            Ok(())
        },
        Err(e) => Err(e),
    }
}

/// Checks a `Prepare`'s signature against the public key of its sender; the
/// message is left as it was.
pub fn verify_prepare(public_key: &str, prepare: &mut Prepare) -> (res: Result<bool, String>)
    ensures
        *final(prepare) == *old(prepare),
        res == Ok::<bool, String>(
            rsa_accepts(public_key@, sha256(prepare_payload(old(prepare)@)), old(prepare).signature@),
        ),
{
    let mut signature: Vec<u8> = Vec::new();
    std::mem::swap(&mut signature, &mut prepare.signature);
    assert(prepare@ == unsigned_prepare(old(prepare)@));
    let data = encode_prepare(prepare);
    std::mem::swap(&mut signature, &mut prepare.signature);
    verify_signature(public_key, &data, prepare.signature.as_slice())
}

/// Signs a `Commit`: its signature becomes the PKCS#1 v1.5 signature of the
/// SHA-256 digest of its bytes with an empty signature; on an error the
/// signature is left empty.
pub fn sign_commit(priv_key: &str, commit: &mut Commit) -> (res: Result<(), String>)
    ensures
        unsigned_commit(final(commit)@) == unsigned_commit(old(commit)@),
        match res {
            Ok(()) => rsa_signature(priv_key@, sha256(commit_payload(old(commit)@))) == Some(
                final(commit).signature@,
            ) && signed_commit(priv_key@, old(commit)@) == Some(final(commit)@),
            Err(_) => rsa_signature(priv_key@, sha256(commit_payload(old(commit)@))) is None
                && signed_commit(priv_key@, old(commit)@) is None
                && final(commit).signature@ == Seq::<u8>::empty(),
        },
{
    commit.signature = Vec::new();
    assert(commit@ == unsigned_commit(old(commit)@));
    let data = encode_commit(commit);
    match sign_data(priv_key, &data) {
        Ok(signature) => {
            commit.signature = signature;
            Ok(())
        },
        Err(e) => Err(e),
    }
}

/// Checks a `Commit`'s signature against the public key of its sender; the
/// message is left as it was.
pub fn verify_commit(public_key: &str, commit: &mut Commit) -> (res: Result<bool, String>)
    ensures
        *final(commit) == *old(commit),
        res == Ok::<bool, String>(
            rsa_accepts(public_key@, sha256(commit_payload(old(commit)@)), old(commit).signature@),
        ),
{
    let mut signature: Vec<u8> = Vec::new();
    std::mem::swap(&mut signature, &mut commit.signature);
    assert(commit@ == unsigned_commit(old(commit)@));
    let data = encode_commit(commit);
    std::mem::swap(&mut signature, &mut commit.signature);
    verify_signature(public_key, &data, commit.signature.as_slice())
}

/// Signs a `Hearbeat`: its signature becomes the PKCS#1 v1.5 signature of the
/// SHA-256 digest of its bytes with an empty signature; on an error the
/// signature is left empty.
pub fn sign_heartbeat(priv_key: &str, heartbeat: &mut Hearbeat) -> (res: Result<(), String>)
    ensures
        unsigned_hearbeat(final(heartbeat)@) == unsigned_hearbeat(old(heartbeat)@),
        match res {
            Ok(()) => rsa_signature(priv_key@, sha256(hearbeat_payload(old(heartbeat)@))) == Some(
                final(heartbeat).signature@,
            ) && signed_hearbeat(priv_key@, old(heartbeat)@) == Some(final(heartbeat)@),
            Err(_) => rsa_signature(priv_key@, sha256(hearbeat_payload(old(heartbeat)@))) is None
                && signed_hearbeat(priv_key@, old(heartbeat)@) is None
                && final(heartbeat).signature@ == Seq::<u8>::empty(),
        },
{
    heartbeat.signature = Vec::new();
    assert(heartbeat@ == unsigned_hearbeat(old(heartbeat)@));
    let data = encode_hearbeat(heartbeat);
    match sign_data(priv_key, &data) {
        Ok(signature) => {
            heartbeat.signature = signature;
            Ok(())
        },
        Err(e) => Err(e),
    }
}

/// Checks a `Hearbeat`'s signature against the public key of its sender; the
/// message is left as it was.
pub fn verify_heartbeat(public_key: &str, heartbeat: &mut Hearbeat) -> (res: Result<bool, String>)
    ensures
        *final(heartbeat) == *old(heartbeat),
        res == Ok::<bool, String>(
            rsa_accepts(public_key@, sha256(hearbeat_payload(old(heartbeat)@)), old(heartbeat).signature@),
        ),
{
    let mut signature: Vec<u8> = Vec::new();
    std::mem::swap(&mut signature, &mut heartbeat.signature);
    assert(heartbeat@ == unsigned_hearbeat(old(heartbeat)@));
    let data = encode_hearbeat(heartbeat);
    std::mem::swap(&mut signature, &mut heartbeat.signature);
    verify_signature(public_key, &data, heartbeat.signature.as_slice())
}

/// Signs a `ViewChange`: its signature becomes the PKCS#1 v1.5 signature of the
/// SHA-256 digest of its bytes with an empty signature; on an error the
/// signature is left empty.
pub fn sign_view_change(priv_key: &str, view_change: &mut ViewChange) -> (res: Result<(), String>)
    ensures
        unsigned_view_change(final(view_change)@) == unsigned_view_change(old(view_change)@),
        match res {
            Ok(()) => rsa_signature(priv_key@, sha256(view_change_payload(old(view_change)@))) == Some(
                final(view_change).signature@,
            ) && signed_view_change(priv_key@, old(view_change)@) == Some(final(view_change)@),
            Err(_) => rsa_signature(priv_key@, sha256(view_change_payload(old(view_change)@))) is None
                && signed_view_change(priv_key@, old(view_change)@) is None
                && final(view_change).signature@ == Seq::<u8>::empty(),
        },
{
    view_change.signature = Vec::new();
    assert(view_change@ == unsigned_view_change(old(view_change)@));
    let data = encode_view_change(view_change);
    match sign_data(priv_key, &data) {
        Ok(signature) => {
            view_change.signature = signature;
            Ok(())
        },
        Err(e) => Err(e),
    }
}

/// Checks a `ViewChange`'s signature against the public key of its sender; the
/// message is left as it was.
pub fn verify_view_change(public_key: &str, view_change: &mut ViewChange) -> (res: Result<bool, String>)
    ensures
        *final(view_change) == *old(view_change),
        res == Ok::<bool, String>(
            rsa_accepts(public_key@, sha256(view_change_payload(old(view_change)@)), old(view_change).signature@),
        ),
{
    let mut signature: Vec<u8> = Vec::new();
    std::mem::swap(&mut signature, &mut view_change.signature);
    assert(view_change@ == unsigned_view_change(old(view_change)@));
    let data = encode_view_change(view_change);
    std::mem::swap(&mut signature, &mut view_change.signature);
    verify_signature(public_key, &data, view_change.signature.as_slice())
}

/// Signs a `NewView`: its signature becomes the PKCS#1 v1.5 signature of the
/// SHA-256 digest of its bytes with an empty signature; on an error the
/// signature is left empty.
pub fn sign_new_view(priv_key: &str, new_view: &mut NewView) -> (res: Result<(), String>)
    ensures
        unsigned_new_view(final(new_view)@) == unsigned_new_view(old(new_view)@),
        match res {
            Ok(()) => rsa_signature(priv_key@, sha256(new_view_payload(old(new_view)@))) == Some(
                final(new_view).signature@,
            ) && signed_new_view(priv_key@, old(new_view)@) == Some(final(new_view)@),
            Err(_) => rsa_signature(priv_key@, sha256(new_view_payload(old(new_view)@))) is None
                && signed_new_view(priv_key@, old(new_view)@) is None
                && final(new_view).signature@ == Seq::<u8>::empty(),
        },
{
    new_view.signature = Vec::new();
    assert(new_view@ == unsigned_new_view(old(new_view)@));
    let data = encode_new_view(new_view);
    match sign_data(priv_key, &data) {
        Ok(signature) => {
            new_view.signature = signature;
            Ok(())
        },
        Err(e) => Err(e),
    }
}

/// Checks a `NewView`'s signature against the public key of its sender; the
/// message is left as it was.
pub fn verify_new_view(public_key: &str, new_view: &mut NewView) -> (res: Result<bool, String>)
    ensures
        *final(new_view) == *old(new_view),
        res == Ok::<bool, String>(
            rsa_accepts(public_key@, sha256(new_view_payload(old(new_view)@)), old(new_view).signature@),
        ),
{
    let mut signature: Vec<u8> = Vec::new();
    std::mem::swap(&mut signature, &mut new_view.signature);
    assert(new_view@ == unsigned_new_view(old(new_view)@));
    let data = encode_new_view(new_view);
    std::mem::swap(&mut signature, &mut new_view.signature);
    verify_signature(public_key, &data, new_view.signature.as_slice())
}

/// Signs a `ViewResponse`: its signature becomes the PKCS#1 v1.5 signature of the
/// SHA-256 digest of its bytes with an empty signature; on an error the
/// signature is left empty.
pub fn sign_view_response(priv_key: &str, view_response: &mut ViewResponse) -> (res: Result<(), String>)
    ensures
        unsigned_view_response(final(view_response)@) == unsigned_view_response(old(view_response)@),
        match res {
            Ok(()) => rsa_signature(priv_key@, sha256(view_response_payload(old(view_response)@))) == Some(
                final(view_response).signature@,
            ) && signed_view_response(priv_key@, old(view_response)@) == Some(final(view_response)@),
            Err(_) => rsa_signature(priv_key@, sha256(view_response_payload(old(view_response)@))) is None
                && signed_view_response(priv_key@, old(view_response)@) is None
                && final(view_response).signature@ == Seq::<u8>::empty(),
        },
{
    view_response.signature = Vec::new();
    assert(view_response@ == unsigned_view_response(old(view_response)@));
    let data = encode_view_response(view_response);
    match sign_data(priv_key, &data) {
        Ok(signature) => {
            view_response.signature = signature;
            Ok(())
        },
        Err(e) => Err(e),
    }
}

/// Checks a `ViewResponse`'s signature against the public key of its sender; the
/// message is left as it was.
pub fn verify_view_response(public_key: &str, view_response: &mut ViewResponse) -> (res: Result<bool, String>)
    ensures
        *final(view_response) == *old(view_response),
        res == Ok::<bool, String>(
            rsa_accepts(public_key@, sha256(view_response_payload(old(view_response)@)), old(view_response).signature@),
        ),
{
    let mut signature: Vec<u8> = Vec::new();
    std::mem::swap(&mut signature, &mut view_response.signature);
    assert(view_response@ == unsigned_view_response(old(view_response)@));
    let data = encode_view_response(view_response);
    std::mem::swap(&mut signature, &mut view_response.signature);
    verify_signature(public_key, &data, view_response.signature.as_slice())
}

/// Signs a `StateResponse`: its signature becomes the PKCS#1 v1.5 signature of the
/// SHA-256 digest of its bytes with an empty signature; on an error the
/// signature is left empty.
pub fn sign_state_response(priv_key: &str, state_response: &mut StateResponse) -> (res: Result<(), String>)
    ensures
        unsigned_state_response(final(state_response)@) == unsigned_state_response(old(state_response)@),
        match res {
            Ok(()) => rsa_signature(priv_key@, sha256(state_response_payload(old(state_response)@))) == Some(
                final(state_response).signature@,
            ) && signed_state_response(priv_key@, old(state_response)@) == Some(final(state_response)@),
            Err(_) => rsa_signature(priv_key@, sha256(state_response_payload(old(state_response)@))) is None
                && signed_state_response(priv_key@, old(state_response)@) is None
                && final(state_response).signature@ == Seq::<u8>::empty(),
        },
{
    state_response.signature = Vec::new();
    assert(state_response@ == unsigned_state_response(old(state_response)@));
    let data = encode_state_response(state_response);
    match sign_data(priv_key, &data) {
        Ok(signature) => {
            state_response.signature = signature;
            Ok(())
        },
        Err(e) => Err(e),
    }
}

/// Checks a `StateResponse`'s signature against the public key of its sender; the
/// message is left as it was.
pub fn verify_state_response(public_key: &str, state_response: &mut StateResponse) -> (res: Result<bool, String>)
    ensures
        *final(state_response) == *old(state_response),
        res == Ok::<bool, String>(
            rsa_accepts(public_key@, sha256(state_response_payload(old(state_response)@)), old(state_response).signature@),
        ),
{
    let mut signature: Vec<u8> = Vec::new();
    std::mem::swap(&mut signature, &mut state_response.signature);
    assert(state_response@ == unsigned_state_response(old(state_response)@));
    let data = encode_state_response(state_response);
    std::mem::swap(&mut signature, &mut state_response.signature);
    verify_signature(public_key, &data, state_response.signature.as_slice())
}

/// Signs a `SyncResponse`: its signature becomes the PKCS#1 v1.5 signature of the
/// SHA-256 digest of its bytes with an empty signature; on an error the
/// signature is left empty.
pub fn sign_sync_response(priv_key: &str, sync_response: &mut SyncResponse) -> (res: Result<(), String>)
    ensures
        unsigned_sync_response(final(sync_response)@) == unsigned_sync_response(old(sync_response)@),
        match res {
            Ok(()) => rsa_signature(priv_key@, sha256(sync_response_payload(old(sync_response)@))) == Some(
                final(sync_response).signature@,
            ) && signed_sync_response(priv_key@, old(sync_response)@) == Some(final(sync_response)@),
            Err(_) => rsa_signature(priv_key@, sha256(sync_response_payload(old(sync_response)@))) is None
                && signed_sync_response(priv_key@, old(sync_response)@) is None
                && final(sync_response).signature@ == Seq::<u8>::empty(),
        },
{
    sync_response.signature = Vec::new();
    assert(sync_response@ == unsigned_sync_response(old(sync_response)@));
    let data = encode_sync_response(sync_response);
    match sign_data(priv_key, &data) {
        Ok(signature) => {
            sync_response.signature = signature;
            Ok(())
        },
        Err(e) => Err(e),
    }
}

/// Checks a `SyncResponse`'s signature against the public key of its sender; the
/// message is left as it was.
pub fn verify_sync_response(public_key: &str, sync_response: &mut SyncResponse) -> (res: Result<bool, String>)
    ensures
        *final(sync_response) == *old(sync_response),
        res == Ok::<bool, String>(
            rsa_accepts(public_key@, sha256(sync_response_payload(old(sync_response)@)), old(sync_response).signature@),
        ),
{
    let mut signature: Vec<u8> = Vec::new();
    std::mem::swap(&mut signature, &mut sync_response.signature);
    assert(sync_response@ == unsigned_sync_response(old(sync_response)@));
    let data = encode_sync_response(sync_response);
    std::mem::swap(&mut signature, &mut sync_response.signature);
    verify_signature(public_key, &data, sync_response.signature.as_slice())
}

/// A `Request` signed with a private key is accepted by the public key of the
/// same pair: signing leaves what the signature covers unchanged.
pub proof fn law_signed_request_verifies(private_key: Seq<char>, public_key: Seq<char>, m: RequestView)
    requires
        key_pair(private_key, public_key),
    ensures
        signed_request(private_key, m) matches Some(s) ==> request_payload(s) == request_payload(m)
            && rsa_accepts(public_key, sha256(request_payload(s)), s.signature),
{
    if let Some(s) = signed_request(private_key, m) {
        assert(unsigned_request(s) == unsigned_request(m));
    }
}

/// A `PrePrepare` signed with a private key is accepted by the public key of the
/// same pair: signing leaves what the signature covers unchanged.
pub proof fn law_signed_preprepare_verifies(private_key: Seq<char>, public_key: Seq<char>, m: PrePrepareView)
    requires
        key_pair(private_key, public_key),
    ensures
        signed_preprepare(private_key, m) matches Some(s) ==> preprepare_payload(s) == preprepare_payload(m)
            && rsa_accepts(public_key, sha256(preprepare_payload(s)), s.signature),
{
    if let Some(s) = signed_preprepare(private_key, m) {
        assert(unsigned_preprepare(s) == unsigned_preprepare(m));
    }
}

/// A `Prepare` signed with a private key is accepted by the public key of the
/// same pair: signing leaves what the signature covers unchanged.
pub proof fn law_signed_prepare_verifies(private_key: Seq<char>, public_key: Seq<char>, m: PrepareView)
    requires
        key_pair(private_key, public_key),
    ensures
        signed_prepare(private_key, m) matches Some(s) ==> prepare_payload(s) == prepare_payload(m)
            && rsa_accepts(public_key, sha256(prepare_payload(s)), s.signature),
{
    if let Some(s) = signed_prepare(private_key, m) {
        assert(unsigned_prepare(s) == unsigned_prepare(m));
    }
}

/// A `Commit` signed with a private key is accepted by the public key of the
/// same pair: signing leaves what the signature covers unchanged.
pub proof fn law_signed_commit_verifies(private_key: Seq<char>, public_key: Seq<char>, m: CommitView)
    requires
        key_pair(private_key, public_key),
    ensures
        signed_commit(private_key, m) matches Some(s) ==> commit_payload(s) == commit_payload(m)
            && rsa_accepts(public_key, sha256(commit_payload(s)), s.signature),
{
    if let Some(s) = signed_commit(private_key, m) {
        assert(unsigned_commit(s) == unsigned_commit(m));
    }
}

/// A `Hearbeat` signed with a private key is accepted by the public key of the
/// same pair: signing leaves what the signature covers unchanged.
pub proof fn law_signed_hearbeat_verifies(private_key: Seq<char>, public_key: Seq<char>, m: HearbeatView)
    requires
        key_pair(private_key, public_key),
    ensures
        signed_hearbeat(private_key, m) matches Some(s) ==> hearbeat_payload(s) == hearbeat_payload(m)
            && rsa_accepts(public_key, sha256(hearbeat_payload(s)), s.signature),
{
    if let Some(s) = signed_hearbeat(private_key, m) {
        assert(unsigned_hearbeat(s) == unsigned_hearbeat(m));
    }
}

/// A `ViewChange` signed with a private key is accepted by the public key of the
/// same pair: signing leaves what the signature covers unchanged.
pub proof fn law_signed_view_change_verifies(private_key: Seq<char>, public_key: Seq<char>, m: ViewChangeView)
    requires
        key_pair(private_key, public_key),
    ensures
        signed_view_change(private_key, m) matches Some(s) ==> view_change_payload(s) == view_change_payload(m)
            && rsa_accepts(public_key, sha256(view_change_payload(s)), s.signature),
{
    if let Some(s) = signed_view_change(private_key, m) {
        assert(unsigned_view_change(s) == unsigned_view_change(m));
    }
}

/// A `NewView` signed with a private key is accepted by the public key of the
/// same pair: signing leaves what the signature covers unchanged.
pub proof fn law_signed_new_view_verifies(private_key: Seq<char>, public_key: Seq<char>, m: NewViewView)
    requires
        key_pair(private_key, public_key),
    ensures
        signed_new_view(private_key, m) matches Some(s) ==> new_view_payload(s) == new_view_payload(m)
            && rsa_accepts(public_key, sha256(new_view_payload(s)), s.signature),
{
    if let Some(s) = signed_new_view(private_key, m) {
        assert(unsigned_new_view(s) == unsigned_new_view(m));
    }
}

/// A `ViewResponse` signed with a private key is accepted by the public key of the
/// same pair: signing leaves what the signature covers unchanged.
pub proof fn law_signed_view_response_verifies(private_key: Seq<char>, public_key: Seq<char>, m: ViewResponseView)
    requires
        key_pair(private_key, public_key),
    ensures
        signed_view_response(private_key, m) matches Some(s) ==> view_response_payload(s) == view_response_payload(m)
            && rsa_accepts(public_key, sha256(view_response_payload(s)), s.signature),
{
    if let Some(s) = signed_view_response(private_key, m) {
        assert(unsigned_view_response(s) == unsigned_view_response(m));
    }
}

/// A `StateResponse` signed with a private key is accepted by the public key of the
/// same pair: signing leaves what the signature covers unchanged.
pub proof fn law_signed_state_response_verifies(private_key: Seq<char>, public_key: Seq<char>, m: StateResponseView)
    requires
        key_pair(private_key, public_key),
    ensures
        signed_state_response(private_key, m) matches Some(s) ==> state_response_payload(s) == state_response_payload(m)
            && rsa_accepts(public_key, sha256(state_response_payload(s)), s.signature),
{
    if let Some(s) = signed_state_response(private_key, m) {
        assert(unsigned_state_response(s) == unsigned_state_response(m));
    }
}

/// A `SyncResponse` signed with a private key is accepted by the public key of the
/// same pair: signing leaves what the signature covers unchanged.
pub proof fn law_signed_sync_response_verifies(private_key: Seq<char>, public_key: Seq<char>, m: SyncResponseView)
    requires
        key_pair(private_key, public_key),
    ensures
        signed_sync_response(private_key, m) matches Some(s) ==> sync_response_payload(s) == sync_response_payload(m)
            && rsa_accepts(public_key, sha256(sync_response_payload(s)), s.signature),
{
    if let Some(s) = signed_sync_response(private_key, m) {
        assert(unsigned_sync_response(s) == unsigned_sync_response(m));
    }
}

} // verus!
