use vstd::prelude::*;

verus! {

/// Longest content an inline string can hold, in bytes.
pub const SMALL_STR_LEN: usize = 54;

/// The opening/closing quote byte of a JSON string.
pub const QUOTE: u8 = 34;

/// The escape byte that forces the general string parser.
pub const BACKSLASH: u8 = 92;

/// A short string stored inline: a fixed 54-byte buffer plus a length.
/// It never borrows from the input buffer; the used prefix is a
/// byte-for-byte copy of an escape-free, quote-terminated run.
#[derive(Clone, Copy)]
pub struct SmallString {
    data: [u8; 54],
    len: u8,
}

/// `q` is the position of the closing quote of the byte window `w`:
/// the first quote, with no backslash anywhere before it.
pub open spec fn is_close_at(w: Seq<u8>, q: int) -> bool {
    &&& 0 <= q < w.len()
    &&& w[q] == QUOTE
    &&& forall|j: int| 0 <= j < q ==> w[j] != QUOTE && w[j] != BACKSLASH
}

/// The window starts with an escape-free run of at most 54 bytes,
/// closed by a quote: the condition under which the scanner succeeds.
pub open spec fn has_small_close(w: Seq<u8>) -> bool {
    exists|q: int| is_close_at(w, q) && q <= SMALL_STR_LEN
}

/// The (unique) closing-quote position of a window that has one.
pub open spec fn small_close_pos(w: Seq<u8>) -> int {
    choose|q: int| is_close_at(w, q) && q <= SMALL_STR_LEN
}

/// A closing-quote position is unique: the first quote is one position.
pub proof fn lemma_close_unique(w: Seq<u8>, q1: int, q2: int)
    requires
        is_close_at(w, q1),
        is_close_at(w, q2),
    ensures
        q1 == q2,
{
    if q1 < q2 {
        assert(w[q1] != QUOTE);
    }
    if q2 < q1 {
        assert(w[q2] != QUOTE);
    }
}

impl View for SmallString {
    type V = Seq<u8>;

    /// The content of the inline string: the used prefix of the buffer.
    closed spec fn view(&self) -> Seq<u8> {
        self.data@.take(self.len as int)
    }
}

impl SmallString {
    #[verifier::type_invariant]
    spec fn inv(self) -> bool {
        self.len <= SMALL_STR_LEN
    }

    /// Number of content bytes stored inline.
    pub fn len(&self) -> (r: usize)
        ensures
            r == self@.len(),
            r <= SMALL_STR_LEN,
    {
        proof {
            use_type_invariant(self);
        }
        self.len as usize
    }

    /// True when no content byte is stored.
    pub fn is_empty(&self) -> (r: bool)
        ensures
            r == (self@.len() == 0),
    {
        proof {
            use_type_invariant(self);
        }
        self.len == 0
    }

    /// The stored content, as a borrowed slice of the inline buffer.
    pub fn as_bytes(&self) -> (r: &[u8])
        ensures
            r@ == self@,
    {
        proof {
            use_type_invariant(self);
        }
        let s = vstd::array::array_as_slice(&self.data);
        vstd::slice::slice_subrange(s, 0, self.len as usize)
    }

    /// Content comparison against a plain byte slice.
    pub fn eq_bytes(&self, other: &[u8]) -> (r: bool)
        ensures
            r == (self@ == other@),
    {
        proof {
            use_type_invariant(self);
        }
        if self.len as usize != other.len() {
            return false;
        }
        let n = self.len as usize;
        let mut j: usize = 0;
        while j < n
            invariant
                n == self@.len(),
                n == other@.len(),
                n <= 54,
                self.inv(),
                j <= n,
                forall|k: int| 0 <= k < j ==> self@[k] == other@[k],
            decreases n - j,
        {
            if self.data[j] != *vstd::slice::slice_index_get(other, j) {
                return false;
            }
            j += 1;
        }
        proof {
            assert(self@ =~= other@);
        }
        true
    }

    /// Copies the first `n` bytes of `w` into a fresh inline string.
    pub fn from_prefix(w: &[u8], n: usize) -> (r: SmallString)
        requires
            n <= SMALL_STR_LEN,
            n <= w@.len(),
        ensures
            r@ == w@.take(n as int),
    {
        let mut data: [u8; 54] = [0u8; 54];
        let mut j: usize = 0;
        while j < n
            invariant
                n <= 54,
                n <= w@.len(),
                j <= n,
                forall|k: int| 0 <= k < j ==> data@[k] == w@[k],
            decreases n - j,
        {
            data[j] = *vstd::slice::slice_index_get(w, j);
            j += 1;
        }
        let r = SmallString { data, len: n as u8 };
        proof {
            assert(r@ =~= w@.take(n as int));
        }
        r
    }
}

impl PartialEq for SmallString {
    /// Equality is content equality: same used length, same bytes.
    fn eq(&self, other: &Self) -> (r: bool) {
        proof {
            use_type_invariant(self);
            use_type_invariant(other);
        }
        if self.len != other.len {
            proof {
                assert(self@.len() != other@.len());
            }
            return false;
        }
        let n = self.len as usize;
        let mut j: usize = 0;
        while j < n
            invariant
                self.inv(),
                other.inv(),
                n == self@.len(),
                n == other@.len(),
                j <= n,
                forall|k: int| 0 <= k < j ==> self@[k] == other@[k],
            decreases n - j,
        {
            if self.data[j] != other.data[j] {
                proof {
                    assert(self@[j as int] != other@[j as int]);
                }
                return false;
            }
            j += 1;
        }
        proof {
            assert(self@ =~= other@);
        }
        true
    }
}

impl vstd::std_specs::cmp::PartialEqSpecImpl for SmallString {
    open spec fn obeys_eq_spec() -> bool {
        true
    }

    open spec fn eq_spec(&self, other: &SmallString) -> bool {
        self@ == other@
    }
}

/// What the scanner returns on a given window: the content before the
/// closing quote when an escape-free close exists within 54 bytes,
/// nothing otherwise.
pub open spec fn small_scan_spec(w: Seq<u8>) -> Option<Seq<u8>> {
    if has_small_close(w) {
        Some(w.take(small_close_pos(w)))
    } else {
        None
    }
}

/// Round trip: a window whose closing quote stands at or before the
/// 54-byte budget, with no backslash before it, always scans to an
/// inline copy of exactly the content before the quote.
pub proof fn lemma_small_string_round_trip(w: Seq<u8>, q: int)
    requires
        is_close_at(w, q),
        q <= SMALL_STR_LEN,
    ensures
        small_scan_spec(w) == Some(w.take(q)),
{
    assert(has_small_close(w));
    lemma_close_unique(w, q, small_close_pos(w));
}

/// Boundary: a window whose closing quote stands past the 54-byte
/// budget never scans to an inline string; it is left to the general
/// string parser.
pub proof fn lemma_small_string_boundary(w: Seq<u8>, q: int)
    requires
        is_close_at(w, q),
        q > SMALL_STR_LEN,
    ensures
        small_scan_spec(w) == None::<Seq<u8>>,
{
    if has_small_close(w) {
        let q2 = small_close_pos(w);
        lemma_close_unique(w, q, q2);
    }
}

/// Escapes force the fallback: a backslash with no quote at or
/// before it means the window never scans to an inline string,
/// whatever its length.
pub proof fn lemma_escape_forces_fallback(w: Seq<u8>, b: int)
    requires
        0 <= b < w.len(),
        w[b] == BACKSLASH,
        forall|j: int| 0 <= j <= b ==> w[j] != QUOTE,
    ensures
        small_scan_spec(w) == None::<Seq<u8>>,
{
    if has_small_close(w) {
        let q = small_close_pos(w);
        if q <= b {
            assert(w[q] != QUOTE);
        } else {
            assert(w[b] != BACKSLASH);
        }
    }
}

/// Scans the window that follows an opening quote. Succeeds exactly
/// when the closing quote comes within the 54-byte budget with no
/// backslash before it; defers (returns nothing) in every other case.
pub fn scan_small(w: &[u8]) -> (r: Option<SmallString>)
    ensures
        match r {
            Some(ss) => has_small_close(w@) && ss@ == w@.take(small_close_pos(w@)),
            None => !has_small_close(w@),
        },
{
    let wlen = w.len();
    let bound: usize = if wlen < 55 {
        wlen
    } else {
        55
    };
    let mut i: usize = 0;
    while i < bound
        invariant
            bound <= w@.len(),
            bound <= 55,
            i <= bound,
            forall|k: int| 0 <= k < i ==> w@[k] != QUOTE && w@[k] != BACKSLASH,
        decreases bound - i,
    {
        let b = *vstd::slice::slice_index_get(w, i);
        if b == QUOTE {
            let ss = SmallString::from_prefix(w, i);
            proof {
                assert(is_close_at(w@, i as int));
                lemma_close_unique(w@, i as int, small_close_pos(w@));
            }
            return Some(ss);
        }
        if b == BACKSLASH {
            proof {
                assert forall|q: int| !(is_close_at(w@, q) && q <= SMALL_STR_LEN) by {
                    if is_close_at(w@, q) {
                        if q <= i as int {
                            assert(w@[q] == QUOTE);
                        } else {
                            assert(w@[i as int] != BACKSLASH);
                        }
                    }
                }
            }
            return None;
        }
        i += 1;
    }
    proof {
        assert forall|q: int| !(is_close_at(w@, q) && q <= SMALL_STR_LEN) by {
            if is_close_at(w@, q) && q <= SMALL_STR_LEN {
                assert(w@[q] == QUOTE);
            }
        }
    }
    None
}

} // verus!
