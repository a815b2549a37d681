//! An owned string that keeps short texts in place and long texts on the heap.

use crate::text::lemma_str_is_text;
use vstd::array::*;
use vstd::prelude::*;
use vstd::slice::*;
use vstd::string::*;
use vstd::utf8::*;

verus! {

/// The longest text, in bytes, that is kept in place.
pub const MAX_INLINE_LEN: usize = 15;

/// The bit of the length byte that marks a text kept in place.
pub const INLINE_TAG: u8 = 0x80;

/// `core::str::from_utf8`: the bytes as a string slice, where they are
/// well-formed UTF-8, and nothing otherwise.
#[verifier::external_body]
fn str_from_utf8(bytes: &[u8]) -> (r: Option<&str>)
    ensures
        r is Some <==> valid_utf8(bytes@),
        r matches Some(s) ==> s.spec_bytes() == bytes@,
{
    core::str::from_utf8(bytes).ok()
}

/// Where the text of a [`SmallString`] is kept.
#[derive(Debug)]
enum Storage {
    /// In place: `len` is the number of bytes with [`INLINE_TAG`] added, and
    /// the text is the first bytes of `bytes`.
    Inline { len: u8, bytes: [u8; 15] },
    /// On the heap.
    Heap { text: String },
}

/// An owned, immutable text.
#[derive(Debug)]
pub struct SmallString {
    storage: Storage,
}

impl View for SmallString {
    type V = Seq<char>;

    closed spec fn view(&self) -> Seq<char> {
        match self.storage {
            Storage::Inline { len, bytes } => decode_utf8(
                bytes@.subrange(0, len as int - INLINE_TAG as int),
            ),
            Storage::Heap { text } => text@,
        }
    }
}

impl SmallString {
    /// A text kept in place has at most [`MAX_INLINE_LEN`] well-formed
    /// bytes; a text on the heap has more, and fewer than half of what
    /// `usize` can count.
    pub closed spec fn wf(&self) -> bool {
        match self.storage {
            Storage::Inline { len, bytes } => {
                &&& INLINE_TAG <= len <= INLINE_TAG + MAX_INLINE_LEN
                &&& valid_utf8(bytes@.subrange(0, len as int - INLINE_TAG as int))
            },
            Storage::Heap { text } => MAX_INLINE_LEN < encode_utf8(text@).len() <= usize::MAX / 2,
        }
    }

    /// Whether the text is kept in place.
    pub closed spec fn inline(&self) -> bool {
        self.storage is Inline
    }

    /// The number of bytes of the text.
    pub open spec fn byte_count(&self) -> nat {
        encode_utf8(self@).len()
    }

    /// A text is kept in place exactly when it has at most
    /// [`MAX_INLINE_LEN`] bytes.
    pub proof fn lemma_inline(&self)
        requires
            self.wf(),
        ensures
            self.inline() <==> self.byte_count() <= MAX_INLINE_LEN,
            self.byte_count() <= usize::MAX / 2,
    {
        match self.storage {
            Storage::Inline { len, bytes } => {
                let b = bytes@.subrange(0, len as int - INLINE_TAG as int);
                decode_utf8_encode_utf8(b);
            },
            Storage::Heap { text } => {},
        }
    }

    /// The empty text.
    pub fn new() -> (r: Self)
        ensures
            r.wf(),
            r@ == Seq::<char>::empty(),
    {
        let r = SmallString { storage: Storage::Inline { len: INLINE_TAG, bytes: [0u8; 15] } };
        proof {
            let bytes = r.storage->Inline_bytes;
            assert(bytes@.subrange(0, 0) =~= Seq::<u8>::empty());
            assert(decode_utf8(Seq::<u8>::empty()) =~= Seq::<char>::empty());
        }
        r
    }

    /// An owned copy of `value`.
    pub fn from_str(value: &str) -> (r: Self)
        requires
            value.spec_bytes().len() <= usize::MAX / 2,
        ensures
            r.wf(),
            r@ == value@,
    {
        let src = value.as_bytes();
        proof {
            lemma_str_is_text(value);
        }
        if src.len() <= MAX_INLINE_LEN {
            let mut bytes = [0u8; 15];
            let mut i: usize = 0;
            while i < src.len()
                invariant
                    src.len() <= MAX_INLINE_LEN,
                    i <= src.len(),
                    forall|k: int| 0 <= k < i ==> bytes@[k] == src@[k],
                decreases src.len() - i,
            {
                bytes[i] = src[i];
                i += 1;
            }
            proof {
                assert(bytes@.subrange(0, src.len() as int) =~= src@);
            }
            let len: u8 = INLINE_TAG + (src.len() as u8);
            SmallString { storage: Storage::Inline { len, bytes } }
        } else {
            SmallString { storage: Storage::Heap { text: value.to_owned() } }
        }
    }

    /// The text.
    pub fn as_str(&self) -> (r: &str)
        requires
            self.wf(),
        ensures
            r@ == self@,
    {
        match &self.storage {
            Storage::Inline { len, bytes } => {
                let n = (*len - INLINE_TAG) as usize;
                let head = slice_subrange(array_as_slice(bytes), 0, n);
                match str_from_utf8(head) {
                    Some(s) => {
                        proof {
                            lemma_str_is_text(s);
                        }
                        s
                    },
                    None => "",
                }
            },
            Storage::Heap { text } => text.as_str(),
        }
    }

    /// Whether the text is `other`.
    pub fn eq_str(&self, other: &str) -> (r: bool)
        requires
            self.wf(),
        ensures
            r == (self@ == other@),
    {
        crate::text::str_eq(self.as_str(), other)
    }
}

impl Clone for SmallString {
    fn clone(&self) -> (r: Self)
        ensures
            r == *self,
    {
        match &self.storage {
            Storage::Inline { len, bytes } => SmallString {
                storage: Storage::Inline { len: *len, bytes: *bytes },
            },
            Storage::Heap { text } => SmallString { storage: Storage::Heap { text: text.clone() } },
        }
    }
}

} // verus!
