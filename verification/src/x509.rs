//! Certificates: calls into the crate that reads and validates them.

use crate::der::{anchorable, checkable, is_anchorable, is_checkable, is_readable, readable};
use crate::text::{owned, strings_view};
use crate::wire::lists_view;
use courierust::courierust_tls::x509;
use vstd::prelude::*;
use vstd::string::*;

verus! {

/// The parts of a certificate that a handshake reads.
#[derive(Debug)]
pub struct LeafCertificate {
    /// The subject's public key.
    pub key: Vec<u8>,
    /// The signature field.
    pub signature: Vec<u8>,
    /// DNS names of the subject.
    pub dns_names: Vec<String>,
    /// IP addresses of the subject.
    pub ip_names: Vec<Vec<u8>>,
}

/// A certificate as a mathematical value.
#[verifier::ext_equal]
pub struct LeafView {
    pub key: Seq<u8>,
    pub signature: Seq<u8>,
    pub dns_names: Seq<Seq<char>>,
    pub ip_names: Seq<Seq<u8>>,
}

impl View for LeafCertificate {
    type V = LeafView;

    open spec fn view(&self) -> LeafView {
        LeafView {
            key: self.key@,
            signature: self.signature@,
            dns_names: strings_view(self.dns_names@),
            ip_names: lists_view(self.ip_names@),
        }
    }
}

/// What a DER certificate says, or why it is none.
pub uninterp spec fn leaf_of(der: Seq<u8>) -> core::result::Result<LeafView, Seq<char>>;

/// `courierust_tls::x509::parse_certificate`: the key, signature and names of a DER
/// certificate, or the text of the error. The parser does not return where an element's
/// length goes beyond the address space, nor where a time field holds a character of
/// several bytes across one of the positions at which it is cut: [`readable`] rules both
/// out.
#[verifier::external_body]
pub(crate) fn parse_certificate(der: &[u8]) -> (r: core::result::Result<LeafCertificate, String>)
    requires
        readable(der@),
    ensures
        match leaf_of(der@) {
            Ok(leaf) => r is Ok && r->Ok_0@ == leaf,
            Err(m) => r is Err && r->Err_0@ == m,
        },
{
    match x509::parse_certificate(der) {
        Ok(c) => Ok(
            LeafCertificate {
                key: c.spki.key,
                signature: c.signature,
                dns_names: c.dns_names,
                ip_names: c.ip_names,
            },
        ),
        Err(e) => Err(e.to_string()),
    }
}

/// The trusted root certificates.
#[verifier::external_type_specification]
#[verifier::external_body]
pub struct ExRootStore(x509::RootStore);

/// The certificates in a store, in order.
pub uninterp spec fn root_certs(roots: x509::RootStore) -> Seq<Seq<u8>>;

/// Why a chain is not trusted at a time, or nothing where it is.
pub uninterp spec fn chain_fault(
    roots: Seq<Seq<u8>>,
    chain: Seq<Seq<u8>>,
    now: i64,
) -> Option<Seq<char>>;

/// `courierust_tls::x509::RootStore::roots`: the certificates in a store, in order.
#[verifier::external_body]
pub(crate) fn root_list(roots: &x509::RootStore) -> (r: Vec<Vec<u8>>)
    ensures
        lists_view(r@) == root_certs(*roots),
{
    roots.roots().iter().map(|r| r.der.clone()).collect()
}

/// `courierust_tls::x509::RootStore::new`: a store without certificates.
#[verifier::external_body]
fn empty_store() -> (r: x509::RootStore)
    ensures
        root_certs(r) == Seq::<Seq<u8>>::empty(),
{
    x509::RootStore::new()
}

/// `courierust_tls::x509::RootStore::add_der`: a certificate behind those in a store.
#[verifier::external_body]
fn add_root(roots: &mut x509::RootStore, der: Vec<u8>)
    ensures
        root_certs(*final(roots)) == root_certs(*old(roots)).push(der@),
{
    roots.add_der(der)
}

/// `courierust_tls::x509::validate_chain`: whether a chain is trusted under the roots at
/// `now`, or the text of the error. A function of the store's certificates, the chain
/// and the time. It parses certificates of the chain and of the store, verifies the
/// signatures of the chain, and does so under keys of both, so all must be such that it can
/// read what that takes.
#[verifier::external_body]
pub(crate) fn validate_chain(roots: &x509::RootStore, chain: &[Vec<u8>], now: i64) -> (r:
    core::result::Result<(), String>)
    requires
        all_anchorable(root_certs(*roots)),
        all_checkable(lists_view(chain@)),
    ensures
        match chain_fault(root_certs(*roots), lists_view(chain@), now) {
            None => r is Ok,
            Some(m) => r is Err && r->Err_0@ == m,
        },
{
    x509::validate_chain(roots, chain, now).map_err(|e| e.to_string())
}

/// Whether a certificate's names cover a host.
pub uninterp spec fn hostname_ok(
    name: Seq<char>,
    dns_names: Seq<Seq<char>>,
    ip_names: Seq<Seq<u8>>,
) -> bool;

/// `courierust_tls::x509::hostname_matches`: whether `name` is one of the names, an IP
/// address among the addresses.
#[verifier::external_body]
pub(crate) fn hostname_matches(name: &str, dns_names: &[String], ip_names: &[Vec<u8>]) -> (r: bool)
    ensures
        r == hostname_ok(name@, strings_view(dns_names@), lists_view(ip_names@)),
{
    x509::hostname_matches(name, dns_names, ip_names)
}

// ---------------------------------------------------------------------------
// Any bytes
// ---------------------------------------------------------------------------

/// Whether signatures can be verified under the key of every certificate of a list.
pub open spec fn all_anchorable(list: Seq<Seq<u8>>) -> bool {
    forall|i: int| 0 <= i < list.len() ==> anchorable(#[trigger] list[i])
}

/// The certificates of a list under whose keys signatures can be verified.
pub open spec fn anchors(list: Seq<Seq<u8>>) -> Seq<Seq<u8>>
    decreases list.len(),
{
    if list.len() == 0 {
        Seq::empty()
    } else if anchorable(list.last()) {
        anchors(list.drop_last()).push(list.last())
    } else {
        anchors(list.drop_last())
    }
}

/// Whether every certificate of a list can be parsed and its signature verified.
pub open spec fn all_checkable(list: Seq<Seq<u8>>) -> bool {
    forall|i: int| 0 <= i < list.len() ==> checkable(#[trigger] list[i])
}

/// What a certificate says, whatever its bytes are.
pub open spec fn leaf_read(der: Seq<u8>) -> core::result::Result<LeafView, Seq<char>> {
    if readable(der) {
        leaf_of(der)
    } else {
        Err("certificate is not readable"@)
    }
}

/// Why a chain is not trusted at a time, whatever its bytes are. A root whose key cannot be
/// read counts for nothing.
pub open spec fn chain_verdict(
    roots: Seq<Seq<u8>>,
    chain: Seq<Seq<u8>>,
    now: i64,
) -> Option<Seq<char>> {
    if all_checkable(chain) {
        chain_fault(anchors(roots), chain, now)
    } else {
        Some("certificate is not readable"@)
    }
}

/// Read a certificate.
pub fn read_leaf(der: &[u8]) -> (r: core::result::Result<LeafCertificate, String>)
    ensures
        match leaf_read(der@) {
            Ok(leaf) => r is Ok && r->Ok_0@ == leaf,
            Err(m) => r is Err && r->Err_0@ == m,
        },
{
    if is_readable(der) {
        parse_certificate(der)
    } else {
        Err(owned("certificate is not readable"))
    }
}

fn are_checkable(list: &[Vec<u8>]) -> (r: bool)
    ensures
        r == all_checkable(lists_view(list@)),
{
    let mut i: usize = 0;
    while i < list.len()
        invariant
            i <= list@.len(),
            forall|j: int| 0 <= j < i ==> checkable(#[trigger] lists_view(list@)[j]),
        decreases list@.len() - i,
    {
        if !is_checkable(&list[i]) {
            assert(!checkable(lists_view(list@)[i as int]));
            return false;
        }
        i = i + 1;
    }
    true
}

/// A store of the certificates under whose keys signatures can be verified.
fn anchor_store(list: &[Vec<u8>]) -> (r: x509::RootStore)
    ensures
        root_certs(r) == anchors(lists_view(list@)),
        all_anchorable(root_certs(r)),
{
    let ghost all = lists_view(list@);
    let mut store = empty_store();
    let mut i: usize = 0;
    proof {
        assert(all.take(0) =~= Seq::empty());
    }
    while i < list.len()
        invariant
            i <= list@.len(),
            all == lists_view(list@),
            root_certs(store) == anchors(all.take(i as int)),
            all_anchorable(root_certs(store)),
        decreases list@.len() - i,
    {
        proof {
            assert(all.take(i + 1).drop_last() =~= all.take(i as int));
            assert(all.take(i + 1).last() == all[i as int]);
            assert(all[i as int] == list@[i as int]@);
        }
        if is_anchorable(&list[i]) {
            let ghost before = root_certs(store);
            let der = list[i].clone();
            proof {
                assert(der@ =~= all[i as int]);
            }
            add_root(&mut store, der);
            proof {
                assert forall|k: int| 0 <= k < root_certs(store).len() implies anchorable(
                    #[trigger] root_certs(store)[k],
                ) by {
                    if k < before.len() {
                        assert(root_certs(store)[k] == before[k]);
                    }
                }
            }
        }
        i = i + 1;
    }
    proof {
        assert(all.take(i as int) =~= all);
    }
    store
}

/// Decide whether a chain is trusted at a time.
pub fn check_chain(roots: &x509::RootStore, chain: &[Vec<u8>], now: i64) -> (r:
    core::result::Result<(), String>)
    ensures
        match chain_verdict(root_certs(*roots), lists_view(chain@), now) {
            None => r is Ok,
            Some(m) => r is Err && r->Err_0@ == m,
        },
{
    if are_checkable(chain) {
        let anchors = anchor_store(&root_list(roots));
        validate_chain(&anchors, chain, now)
    } else {
        Err(owned("certificate is not readable"))
    }
}

proof fn lemma_all_anchors(list: Seq<Seq<u8>>)
    requires
        all_anchorable(list),
    ensures
        anchors(list) == list,
    decreases list.len(),
{
    if list.len() > 0 {
        let front = list.drop_last();
        assert forall|i: int| 0 <= i < front.len() implies anchorable(#[trigger] front[i]) by {
            assert(front[i] == list[i]);
        }
        lemma_all_anchors(front);
        assert(anchorable(list[list.len() - 1]));
        assert(front.push(list.last()) =~= list);
    } else {
        assert(anchors(list) =~= list);
    }
}

/// A root that cannot be read neither trusts nor distrusts anything: a chain is judged by the
/// others. Where all can be read, it is judged by all.
pub proof fn lemma_unreadable_root_is_passed_over(
    roots: Seq<Seq<u8>>,
    bad: Seq<u8>,
    chain: Seq<Seq<u8>>,
    now: i64,
)
    requires
        !anchorable(bad),
    ensures
        chain_verdict(roots.push(bad), chain, now) == chain_verdict(roots, chain, now),
        all_anchorable(roots) && all_checkable(chain) ==> chain_verdict(roots, chain, now)
            == chain_fault(roots, chain, now),
{
    assert(roots.push(bad).drop_last() =~= roots);
    if all_anchorable(roots) {
        lemma_all_anchors(roots);
    }
}

} // verus!
