//! Identifiers: object ids, which name commits and trees by their content,
//! and segment indices, which name positions in the commit graph.

use vstd::prelude::*;
use vstd::string::*;

verus! {

/// The hash functions by which objects are named.
#[derive(Clone, Copy, Debug, PartialEq, Eq, Structural)]
pub enum HashKind {
    /// SHA-1, with digests of 20 bytes.
    Sha1,
}

/// The name of an object (a commit or a tree): the 20 bytes of its SHA-1
/// digest.
#[derive(Clone, Copy, Debug, PartialEq, Eq, Hash)]
pub struct ObjectId {
    pub bytes: [u8; 20],
}

impl View for ObjectId {
    type V = Seq<u8>;

    open spec fn view(&self) -> Seq<u8> {
        self.bytes@
    }
}

/// A position in the commit graph. It is local to one graph and says nothing
/// about the content of the commits found there.
#[derive(Clone, Copy, Debug, PartialEq, Eq, Structural)]
pub struct SegmentIndex(pub usize);

/// The lower-case hexadecimal digit of a value below 16.
pub open spec fn hex_digit(nibble: int) -> char {
    if nibble < 10 {
        (48 + nibble) as char
    } else {
        (87 + nibble) as char
    }
}

/// The hexadecimal notation of a byte string: two lower-case digits per byte,
/// the high half first.
pub open spec fn hex(bytes: Seq<u8>) -> Seq<char> {
    Seq::new(
        2 * bytes.len(),
        |i: int|
            if i % 2 == 0 {
                hex_digit(bytes[i / 2] as int / 16)
            } else {
                hex_digit(bytes[i / 2] as int % 16)
            },
    )
}

/// The digest of the tree without entries.
pub open spec fn empty_tree_bytes() -> Seq<u8> {
    seq![
        0x4bu8, 0x82, 0x5d, 0xc6, 0x42, 0xcb, 0x6e, 0xb9, 0xa0, 0x60,
        0xe5, 0x4b, 0xf8, 0xd6, 0x92, 0x88, 0xfb, 0xee, 0x49, 0x04,
    ]
}

/// `Display` of `gix::ObjectId`, which writes the digest in hexadecimal
/// notation with lower-case digits. Trusted: the result is `hex` of the bytes.
#[verifier::external_body]
fn display_hex(id: &ObjectId) -> (out: String)
    ensures
        out@ == hex(id@),
{
    gix::ObjectId::from(id.bytes).to_string()
}

/// `gix::ObjectId::empty_tree`, the id of the tree without entries under the
/// given hash function. Trusted: for SHA-1 it is the constant
/// `empty_tree_bytes`.
#[verifier::external_body]
fn empty_tree_of(kind: HashKind) -> (id: ObjectId)
    ensures
        id@ == empty_tree_bytes(),
{
    let kind = match kind {
        HashKind::Sha1 => gix::hash::Kind::Sha1,
    };
    let mut bytes = [0u8; 20];
    bytes.copy_from_slice(gix::ObjectId::empty_tree(kind).as_slice());
    ObjectId { bytes }
}

impl ObjectId {
    /// The id of the tree without entries.
    pub fn empty_tree(kind: HashKind) -> (id: ObjectId)
        ensures
            id@ == empty_tree_bytes(),
    {
        empty_tree_of(kind)
    }

    /// Whether two ids are the same.
    pub fn same(&self, other: &ObjectId) -> (same: bool)
        ensures
            same == (self@ == other@),
    {
        let mut i: usize = 0;
        while i < 20
            invariant
                i <= 20,
                forall|k: int| 0 <= k < i ==> self.bytes@[k] == other.bytes@[k],
            decreases 20 - i,
        {
            if self.bytes[i] != other.bytes[i] {
                return false;
            }
            i += 1;
        }
        assert(self.bytes@ =~= other.bytes@);
        true
    }

    /// The first seven digits of the id in hexadecimal notation, by which
    /// people tell commits apart.
    pub fn to_short_hex(&self) -> (out: String)
        ensures
            out@ == hex(self@).subrange(0, 7),
    {
        let full = display_hex(self);
        String::from_str(full.as_str().substring_char(0, 7))
    }

    /// The id in hexadecimal notation, 40 lower-case digits.
    pub fn to_hex(&self) -> (out: String)
        ensures
            out@ == hex(self@),
    {
        display_hex(self)
    }
}

} // verus!
