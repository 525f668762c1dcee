//! Strongly typed byte containers.
//!
//! Wire-facing names and codes are byte strings, but each kind gets its own
//! type so one cannot stand in for another.  Two shapes exist: growable
//! containers backed by a byte vector, and fixed sixteen-byte codes padded
//! with zeroes.

use vstd::prelude::*;

verus! {

/// The width of the fixed-size byte codes.
pub const CODE_WIDTH: usize = 16;

/// A name, as an owned byte string.
#[derive(Clone, Debug)]
pub struct NameBytes {
    data: Vec<u8>,
}

impl NameBytes {
    /// The bytes this name holds.
    pub closed spec fn view(&self) -> Seq<u8> {
        self.data@
    }

    /// A name copied from a byte slice.
    pub fn from_slice(s: &[u8]) -> (r: NameBytes)
        ensures
            r@ == s@,
    {
        NameBytes { data: slice_to_vec(s) }
    }

    /// A name taking over a byte vector.
    pub fn from_vec(v: Vec<u8>) -> (r: NameBytes)
        ensures
            r@ == v@,
    {
        NameBytes { data: v }
    }

    /// How many bytes the name holds.
    pub fn len(&self) -> (r: usize)
        ensures
            r == self@.len(),
    {
        self.data.len()
    }

    /// The bytes as a slice.
    pub fn as_slice(&self) -> (r: &[u8])
        ensures
            r@ == self@,
    {
        self.data.as_slice()
    }

    /// The bytes as a vector.
    pub fn as_vec(&self) -> (r: &Vec<u8>)
        ensures
            r@ == self@,
    {
        &self.data
    }

    /// Overwrite the byte at `i`.
    pub fn set(&mut self, i: usize, b: u8)
        requires
            i < old(self)@.len(),
        ensures
            final(self)@ == old(self)@.update(i as int, b),
    {
        self.data.remove(i);
        self.data.insert(i, b);
        proof {
            assert(self.data@ =~= old(self)@.update(i as int, b));
        }
    }
}

/// A resource locator, as an owned byte string.
#[derive(Clone, Debug)]
pub struct UriBytes {
    data: Vec<u8>,
}

impl UriBytes {
    /// The bytes this locator holds.
    pub closed spec fn view(&self) -> Seq<u8> {
        self.data@
    }

    /// A locator copied from a byte slice.
    pub fn from_slice(s: &[u8]) -> (r: UriBytes)
        ensures
            r@ == s@,
    {
        UriBytes { data: slice_to_vec(s) }
    }

    /// A locator taking over a byte vector.
    pub fn from_vec(v: Vec<u8>) -> (r: UriBytes)
        ensures
            r@ == v@,
    {
        UriBytes { data: v }
    }

    /// How many bytes the locator holds.
    pub fn len(&self) -> (r: usize)
        ensures
            r == self@.len(),
    {
        self.data.len()
    }

    /// The bytes as a slice.
    pub fn as_slice(&self) -> (r: &[u8])
        ensures
            r@ == self@,
    {
        self.data.as_slice()
    }

    /// The bytes as a vector.
    pub fn as_vec(&self) -> (r: &Vec<u8>)
        ensures
            r@ == self@,
    {
        &self.data
    }
}

/// What a fixed-width code holds for a given source: the source's bytes,
/// truncated at the width, padded with zeroes.
pub open spec fn padded_code(s: Seq<u8>) -> Seq<u8> {
    Seq::new(
        CODE_WIDTH as nat,
        |i: int| if i < s.len() {
            s[i]
        } else {
            0
        },
    )
}

/// A fixed sixteen-byte code, zero-padded.
#[derive(Clone, Debug)]
pub struct CodeBytes {
    data: Vec<u8>,
}

impl CodeBytes {
    /// The bytes this code holds.
    pub closed spec fn view(&self) -> Seq<u8> {
        self.data@
    }

    /// A code always holds exactly its width.
    pub open spec fn wf(&self) -> bool {
        self@.len() == CODE_WIDTH
    }

    /// A code from the first bytes of a slice, zero-padded.
    pub fn from_slice(s: &[u8]) -> (r: CodeBytes)
        ensures
            r.wf(),
            r@ == padded_code(s@),
    {
        CodeBytes { data: pad_to_width(s) }
    }

    /// A code from the first bytes of a vector, zero-padded.
    pub fn from_vec(v: Vec<u8>) -> (r: CodeBytes)
        ensures
            r.wf(),
            r@ == padded_code(v@),
    {
        CodeBytes { data: pad_to_width(v.as_slice()) }
    }

    /// The width of the code.
    pub fn len(&self) -> (r: usize)
        requires
            self.wf(),
        ensures
            r == CODE_WIDTH,
    {
        self.data.len()
    }

    /// The bytes as a slice.
    pub fn as_slice(&self) -> (r: &[u8])
        ensures
            r@ == self@,
    {
        self.data.as_slice()
    }

    /// Overwrite the byte at `i`.
    pub fn set(&mut self, i: usize, b: u8)
        requires
            old(self).wf(),
            i < CODE_WIDTH,
        ensures
            final(self).wf(),
            final(self)@ == old(self)@.update(i as int, b),
    {
        self.data.remove(i);
        self.data.insert(i, b);
        proof {
            assert(self.data@ =~= old(self)@.update(i as int, b));
        }
    }
}

impl Default for CodeBytes {
    /// The all-zero code.
    fn default() -> (r: CodeBytes)
        ensures
            r.wf(),
            forall|i: int| 0 <= i < CODE_WIDTH ==> r@[i] == 0,
    {
        let empty: Vec<u8> = Vec::new();
        CodeBytes { data: pad_to_width(empty.as_slice()) }
    }
}

/// A fixed sixteen-byte tag, zero-padded.
#[derive(Clone, Debug)]
pub struct TagBytes {
    data: Vec<u8>,
}

impl TagBytes {
    /// The bytes this tag holds.
    pub closed spec fn view(&self) -> Seq<u8> {
        self.data@
    }

    /// A tag always holds exactly its width.
    pub open spec fn wf(&self) -> bool {
        self@.len() == CODE_WIDTH
    }

    /// A tag from the first bytes of a slice, zero-padded.
    pub fn from_slice(s: &[u8]) -> (r: TagBytes)
        ensures
            r.wf(),
            r@ == padded_code(s@),
    {
        TagBytes { data: pad_to_width(s) }
    }

    /// A tag from the first bytes of a vector, zero-padded.
    pub fn from_vec(v: Vec<u8>) -> (r: TagBytes)
        ensures
            r.wf(),
            r@ == padded_code(v@),
    {
        TagBytes { data: pad_to_width(v.as_slice()) }
    }

    /// The width of the tag.
    pub fn len(&self) -> (r: usize)
        requires
            self.wf(),
        ensures
            r == CODE_WIDTH,
    {
        self.data.len()
    }

    /// The bytes as a slice.
    pub fn as_slice(&self) -> (r: &[u8])
        ensures
            r@ == self@,
    {
        self.data.as_slice()
    }
}

impl Default for TagBytes {
    /// The all-zero tag.
    fn default() -> (r: TagBytes)
        ensures
            r.wf(),
            forall|i: int| 0 <= i < CODE_WIDTH ==> r@[i] == 0,
    {
        let empty: Vec<u8> = Vec::new();
        TagBytes { data: pad_to_width(empty.as_slice()) }
    }
}

/// A plain copy of a byte slice.
fn slice_to_vec(s: &[u8]) -> (r: Vec<u8>)
    ensures
        r@ == s@,
{
    let n = s.len();
    let mut out: Vec<u8> = Vec::new();
    let mut i: usize = 0;
    while i < n
        invariant
            n == s@.len(),
            i <= n,
            out@ == s@.take(i as int),
        decreases n - i,
    {
        out.push(s[i]);
        proof {
            assert(out@ =~= s@.take(i as int + 1));
        }
        i += 1;
    }
    proof {
        assert(s@.take(n as int) =~= s@);
    }
    out
}

/// The first bytes of a slice, truncated at the code width, zero-padded.
fn pad_to_width(s: &[u8]) -> (r: Vec<u8>)
    ensures
        r@ == padded_code(s@),
{
    let mut out: Vec<u8> = Vec::new();
    let mut i: usize = 0;
    while i < CODE_WIDTH
        invariant
            i <= CODE_WIDTH,
            out@.len() == i,
            forall|j: int| 0 <= j < i ==> out@[j] == (if j < s@.len() {
                s@[j]
            } else {
                0
            }),
        decreases CODE_WIDTH - i,
    {
        if i < s.len() {
            out.push(s[i]);
        } else {
            out.push(0);
        }
        i += 1;
    }
    proof {
        assert(out@ =~= padded_code(s@));
    }
    out
}

} // verus!
