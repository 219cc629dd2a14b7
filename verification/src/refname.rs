//! Full reference names, such as `refs/heads/main`, and their short forms.

use vstd::prelude::*;

verus! {

/// Whether a byte string is accepted as the full name of a reference: it
/// passes the rules for the name of a tag (it is not empty, has no empty
/// component, no control byte, no `..`, and so on), and without a slash it
/// consists of upper-case letters and underscores only.
pub uninterp spec fn is_full_name(bytes: Seq<u8>) -> bool;

/// The short form of a full reference name: the name without the well-known
/// prefix of its category, or the name itself if it has none.
pub uninterp spec fn short_name(full: Seq<u8>) -> Seq<u8>;

/// The text of a byte string in which each maximal invalid part of the UTF-8
/// encoding is replaced by U+FFFD.
pub uninterp spec fn lossy_text(bytes: Seq<u8>) -> Seq<char>;

/// The validated full name of a reference.
#[derive(Debug)]
pub struct RefName {
    bytes: Vec<u8>,
}

impl View for RefName {
    type V = Seq<u8>;

    closed spec fn view(&self) -> Seq<u8> {
        self.bytes@
    }
}

/// The conversion of a byte string into a `gix::refs::FullName`, which
/// validates it. Trusted: whether it succeeds is `is_full_name` of the bytes.
#[verifier::external_body]
fn validates_as_full_name(bytes: &Vec<u8>) -> (ok: bool)
    ensures
        ok == is_full_name(bytes@),
{
    gix::refs::FullName::try_from(bstr::BString::from(bytes.clone())).is_ok()
}

/// `gix::refs::FullName::shorten`, which strips the well-known prefix of the
/// name's category. Trusted: the result is `short_name` of the bytes.
#[verifier::external_body]
fn shorten_full_name(bytes: &Vec<u8>) -> (short: Vec<u8>)
    requires
        is_full_name(bytes@),
    ensures
        short@ == short_name(bytes@),
{
    let name = gix::refs::FullName::try_from(bstr::BString::from(bytes.clone())).expect("validated");
    name.shorten().to_vec()
}

/// `bstr::ByteSlice::to_str_lossy`, which decodes UTF-8 and substitutes
/// U+FFFD for what is not. Trusted: the result is `lossy_text` of the bytes.
#[verifier::external_body]
pub(crate) fn to_str_lossy(bytes: &Vec<u8>) -> (text: String)
    ensures
        text@ == lossy_text(bytes@),
{
    bstr::ByteSlice::to_str_lossy(bytes.as_slice()).into_owned()
}

impl Clone for RefName {
    fn clone(&self) -> (copy: RefName)
        ensures
            copy@ == self@,
    {
        proof {
            use_type_invariant(self);
        }
        RefName { bytes: self.bytes.clone() }
    }
}

impl RefName {
    #[verifier::type_invariant]
    spec fn validated(self) -> bool {
        is_full_name(self.bytes@)
    }

    /// A reference name of the given bytes, if they are a valid full name.
    pub fn new(bytes: Vec<u8>) -> (name: Option<RefName>)
        ensures
            name is Some <==> is_full_name(bytes@),
            name is Some ==> name->0@ == bytes@,
    {
        if validates_as_full_name(&bytes) {
            Some(RefName { bytes })
        } else {
            None
        }
    }

    /// The bytes of the name.
    pub fn as_bytes(&self) -> (bytes: &Vec<u8>)
        ensures
            bytes@ == self@,
    {
        &self.bytes
    }

    /// Whether two names are the same.
    pub fn same(&self, other: &RefName) -> (same: bool)
        ensures
            same == (self@ == other@),
    {
        let same = self.bytes == other.bytes;
        assert(same == (self.bytes@ =~= other.bytes@));
        same
    }

    /// The short form of the name, as it is shown to people.
    pub fn shorten(&self) -> (short: Vec<u8>)
        ensures
            short@ == short_name(self@),
    {
        proof {
            use_type_invariant(self);
        }
        shorten_full_name(&self.bytes)
    }
}

} // verus!
