//! Set elements as the kernel reports them.

use vstd::prelude::*;
use vstd::slice::slice_to_vec;

verus! {

/// One set element.
///
/// Key bytes are in network order, so the IPv4 address `192.168.0.0` is
/// `[192, 168, 0, 0]`.
#[derive(Clone, Debug)]
pub struct Elem {
    /// Raw key bytes.
    pub key: Vec<u8>,
    /// True if this element closes a half-open interval.
    pub is_end: bool,
    /// Raw upper-bound bytes; empty where there are none.
    pub key_end: Vec<u8>,
    /// Element-wide timeout in milliseconds.
    pub timeout_ms: Option<u64>,
    /// Remaining lifetime in milliseconds.
    pub expiration_ms: Option<u64>,
}

/// What an [`Elem`] holds.
#[verifier::ext_equal]
pub struct ElemView {
    pub key: Seq<u8>,
    pub is_end: bool,
    pub key_end: Seq<u8>,
    pub timeout_ms: Option<u64>,
    pub expiration_ms: Option<u64>,
}

impl View for Elem {
    type V = ElemView;

    open spec fn view(&self) -> ElemView {
        ElemView {
            key: self.key@,
            is_end: self.is_end,
            key_end: self.key_end@,
            timeout_ms: self.timeout_ms,
            expiration_ms: self.expiration_ms,
        }
    }
}

impl Elem {
    /// An element that holds the same.
    pub fn duplicate(&self) -> (r: Elem)
        ensures
            r@ == self@,
            r.key@ == self.key@,
            r.is_end == self.is_end,
            r.key_end@ == self.key_end@,
            r.timeout_ms == self.timeout_ms,
            r.expiration_ms == self.expiration_ms,
    {
        Elem {
            key: slice_to_vec(self.key.as_slice()),
            is_end: self.is_end,
            key_end: slice_to_vec(self.key_end.as_slice()),
            timeout_ms: self.timeout_ms,
            expiration_ms: self.expiration_ms,
        }
    }
}

/// What each element of a list holds.
pub open spec fn views(s: Seq<Elem>) -> Seq<ElemView> {
    Seq::new(s.len(), |i: int| s[i]@)
}

/// One descriptor of an element to be added in a batch.
pub struct AddElem<'a> {
    /// Raw key bytes, in network order.
    pub key: &'a [u8],
    /// Inclusive upper bound. Sets without intervals ignore it.
    pub key_end: Option<&'a [u8]>,
    /// Element-wide timeout in milliseconds.
    pub timeout_ms: Option<u64>,
}

/// What an [`AddElem`] holds.
#[verifier::ext_equal]
pub struct AddView {
    pub key: Seq<u8>,
    pub key_end: Option<Seq<u8>>,
    pub timeout_ms: Option<u64>,
}

/// The bytes of an upper bound.
pub open spec fn bound_view(key_end: Option<&[u8]>) -> Option<Seq<u8>> {
    match key_end {
        Some(b) => Some(b@),
        None => None,
    }
}

impl<'a> View for AddElem<'a> {
    type V = AddView;

    open spec fn view(&self) -> AddView {
        AddView {
            key: self.key@,
            key_end: bound_view(self.key_end),
            timeout_ms: self.timeout_ms,
        }
    }
}

/// What each descriptor of a list holds.
pub open spec fn add_views(s: Seq<AddElem<'_>>) -> Seq<AddView> {
    Seq::new(s.len(), |i: int| s[i]@)
}

/// What a descriptor holds.
pub proof fn lemma_add_view(key: &[u8], key_end: &[u8], timeout_ms: Option<u64>)
    ensures
        bound_view(None) is None,
        bound_view(Some(key_end)) == Some(key_end@),
        (AddElem { key, key_end: Some(key_end), timeout_ms })@ == (AddView {
            key: key@,
            key_end: Some(key_end@),
            timeout_ms,
        }),
        (AddElem { key, key_end: None, timeout_ms })@ == (AddView {
            key: key@,
            key_end: None,
            timeout_ms,
        }),
{
}

/// What is said of a list of elements is said of each of them, and of all its parts.
pub proof fn lemma_views(s: Seq<Elem>, i: int)
    requires
        0 <= i < s.len(),
    ensures
        views(s).len() == s.len(),
        views(s)[i].key == s[i].key@,
        views(s)[i].is_end == s[i].is_end,
        views(s)[i].key_end == s[i].key_end@,
        views(s)[i].timeout_ms == s[i].timeout_ms,
        views(s)[i].expiration_ms == s[i].expiration_ms,
{
}

} // verus!
