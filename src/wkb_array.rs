use vstd::prelude::*;
use vstd::slice::slice_subrange;

use crate::error::GeoArrowError;
use crate::metadata::ArrayMetadata;
use crate::offsets::{lemma_offsets_sorted, lemma_width_conversion, offsets_valid, OffsetBuffer};

verus! {

/// A column of un-parsed binary geometries: the bytes of all values one after
/// another, an offset buffer of either width that cuts them into values, and
/// one validity bit per slot.
#[derive(Debug, Clone)]
pub struct WKBArray {
    values: Vec<u8>,
    offsets: OffsetBuffer,
    validity: Vec<bool>,
    metadata: ArrayMetadata,
}

/// Buffer sizes of a binary column.
#[derive(Debug, Clone, Copy, PartialEq, Eq, Structural)]
pub struct WKBCapacity {
    pub buffer_capacity: usize,
    pub offsets_capacity: usize,
}

impl WKBArray {
    /// The coordinate reference system carried by the array.
    pub closed spec fn crs(&self) -> Option<Seq<char>> {
        self.metadata@
    }

    pub closed spec fn wf(&self) -> bool {
        &&& self.offsets.wf()
        &&& self.offsets.total() == self.values@.len()
        &&& self.validity@.len() == self.offsets.slots()
    }

    /// Every null slot holds no bytes.
    pub closed spec fn nulls_empty(&self) -> bool {
        forall|i: int|
            0 <= i < self.validity@.len() && !self.validity@[i] ==> #[trigger] self.offsets@[i + 1]
                == self.offsets@[i]
    }

    /// Whether the offsets are 64-bit.
    pub closed spec fn is_large(&self) -> bool {
        self.offsets.is_large()
    }

    /// Total number of value bytes.
    pub closed spec fn num_value_bytes(&self) -> int {
        self.values@.len() as int
    }
}

impl View for WKBArray {
    type V = Seq<Option<Seq<u8>>>;

    closed spec fn view(&self) -> Seq<Option<Seq<u8>>> {
        Seq::new(
            self.validity@.len(),
            |i: int|
                if self.validity@[i] {
                    Some(self.values@.subrange(self.offsets@[i], self.offsets@[i + 1]))
                } else {
                    None
                },
        )
    }
}

/// Extending a subrange by one element.
pub proof fn lemma_subrange_push<T>(s: Seq<T>, a: int, b: int)
    requires
        0 <= a <= b < s.len(),
    ensures
        s.subrange(a, b + 1) == s.subrange(a, b).push(s[b]),
{
    assert(s.subrange(a, b + 1) =~= s.subrange(a, b).push(s[b]));
}

impl WKBArray {
    /// An array from its parts: fails with `General` unless the offsets end at
    /// the number of value bytes and there is one validity bit per slot.
    pub fn new(values: Vec<u8>, offsets: OffsetBuffer, validity: Vec<bool>) -> (r: Result<
        WKBArray,
        GeoArrowError,
    >)
        requires
            offsets.wf(),
        ensures
            r is Ok <==> (offsets.total() == values@.len() && validity@.len() == offsets.slots()),
            r is Err ==> r == Err::<WKBArray, GeoArrowError>(GeoArrowError::General),
            r matches Ok(a) ==> a.wf() && a.is_large() == offsets.is_large() && a@ == Seq::new(
                validity@.len(),
                |i: int|
                    if validity@[i] {
                        Some(values@.subrange(offsets@[i], offsets@[i + 1]))
                    } else {
                        None
                    },
            ),
    {
        if offsets.last() != values.len() || offsets.num_offsets() - 1 != validity.len() {
            return Err(GeoArrowError::General);
        }
        Ok(WKBArray { values, offsets, validity, metadata: ArrayMetadata::new() })
    }

    /// An empty array.
    pub fn empty(large: bool) -> (r: WKBArray)
        ensures
            r.wf(),
            r@.len() == 0,
            r.is_large() == large,
            r.num_value_bytes() == 0,
            r.nulls_empty(),
    {
        let offsets = if large {
            OffsetBuffer::Large(vec![0i64])
        } else {
            OffsetBuffer::Small(vec![0i32])
        };
        let r = WKBArray {
            values: Vec::new(),
            offsets,
            validity: Vec::new(),
            metadata: ArrayMetadata::new(),
        };
        assert(r@ =~= Seq::empty());
        r
    }

    /// Number of slots.
    pub fn len(&self) -> (r: usize)
        ensures
            r == self@.len(),
    {
        self.validity.len()
    }

    pub fn is_empty(&self) -> (r: bool)
        ensures
            r == (self@.len() == 0),
    {
        self.validity.len() == 0
    }

    /// The same array carrying `metadata`.
    pub fn with_metadata(self, metadata: ArrayMetadata) -> (r: WKBArray)
        ensures
            r@ == self@,
            self.wf() ==> r.wf(),
            r.is_large() == self.is_large(),
            r.num_value_bytes() == self.num_value_bytes(),
            r.offsets_view() == self.offsets_view(),
            r.nulls_empty() == self.nulls_empty(),
            r.crs() == metadata@,
    {
        WKBArray { metadata, ..self }
    }

    pub fn metadata(&self) -> (r: &ArrayMetadata)
        ensures
            r@ == self.crs(),
    {
        &self.metadata
    }

    /// The offsets that cut the value bytes into slots.
    pub fn offsets(&self) -> (r: &OffsetBuffer)
        ensures
            r@ == self.offsets_view(),
            r.is_large() == self.is_large(),
    {
        &self.offsets
    }

    pub fn is_valid(&self, i: usize) -> (r: bool)
        requires
            i < self@.len(),
        ensures
            r == self@[i as int] is Some,
    {
        self.validity[i]
    }

    /// The bytes of slot `i`, or `None` where it is null.
    pub fn value(&self, i: usize) -> (r: Option<&[u8]>)
        requires
            self.wf(),
            i < self@.len(),
        ensures
            r matches Some(b) ==> self@[i as int] == Some(b@),
            r is None ==> self@[i as int] is None,
    {
        if self.validity[i] {
            let (lo, hi) = self.offsets.start_end(i);
            proof {
                lemma_offsets_sorted(self.offsets@, i + 1, self.offsets@.len() - 1);
            }
            let r = slice_subrange(self.values.as_slice(), lo, hi);
            assert(self@[i as int] == Some(self.values@.subrange(lo as int, hi as int)));
            Some(r)
        } else {
            None
        }
    }

    /// The lengths of the value buffer and of the offset buffer's slots.
    pub fn buffer_lengths(&self) -> (r: WKBCapacity)
        requires
            self.wf(),
        ensures
            r.buffer_capacity == self.num_value_bytes(),
            r.offsets_capacity == self@.len(),
    {
        WKBCapacity { buffer_capacity: self.offsets.last(), offsets_capacity: self.validity.len() }
    }

    /// Bytes occupied: validity (one bit per slot, rounded up to whole
    /// bytes), offsets, and values.
    pub fn num_bytes(&self) -> (r: Option<usize>)
        requires
            self.wf(),
        ensures
            ({
                let width = if self.is_large() { 8int } else { 4int };
                let total = (self@.len() + 7) / 8 + width * (self@.len() + 1)
                    + self.num_value_bytes();
                &&& r matches Some(n) ==> n == total
                &&& r is None <==> total > usize::MAX
            }),
    {
        let n = self.validity.len() as u128;
        let width: u128 = match self.offsets {
            OffsetBuffer::Small(_) => 4,
            OffsetBuffer::Large(_) => 8,
        };
        let total = (n + 7) / 8 + width * (n + 1) + self.offsets.last() as u128;
        if total > usize::MAX as u128 {
            None
        } else {
            Some(total as usize)
        }
    }

    /// Slots `[offset, offset + length)` as an array of their own.
    #[verifier::rlimit(100)]
    #[verifier::spinoff_prover]
    pub fn slice(&self, offset: usize, length: usize) -> (r: WKBArray)
        requires
            self.wf(),
            offset + length <= self@.len(),
        ensures
            r.wf(),
            r@ == self@.subrange(offset as int, offset + length),
            r.is_large() == self.is_large(),
            r.crs() == self.crs(),
    {
        let n = self.len();
        let mut out = WKBArray::empty(true);
        let mut i: usize = 0;
        while i < length
            invariant
                n == self@.len(),
                self.wf(),
                offset + length <= self@.len(),
                i <= length,
                out.wf(),
                out.is_large(),
                out@ == self@.subrange(offset as int, offset + i),
                out.num_value_bytes() <= self.offsets@[offset + i] - self.offsets@[offset as int],
            decreases length - i,
        {
            let v = self.value(offset + i);
            proof {
                self.lemma_slot_len(offset + i);
                lemma_offsets_sorted(self.offsets@, offset as int, offset + i);
            }
            out.push(v);
            proof {
                lemma_subrange_push(self@, offset as int, offset + i);
            }
            i = i + 1;
        }
        let out = out.with_metadata(self.metadata.duplicate());
        match &self.offsets {
            OffsetBuffer::Large(_) => out,
            OffsetBuffer::Small(_) => {
                proof {
                    lemma_width_conversion(self.offsets, self.offsets);
                    self.lemma_total_bound();
                    lemma_offsets_sorted(self.offsets@, offset as int, offset + length);
                    lemma_offsets_sorted(self.offsets@, offset + length, self.offsets@.len() - 1);
                }
                match out.to_small() {
                    Ok(a) => a,
                    Err(_) => {
                        assert(false);
                        out
                    },
                }
            },
        }
    }

    proof fn lemma_slot_len(&self, k: int)
        requires
            self.wf(),
            0 <= k < self@.len(),
        ensures
            0 <= self.offsets@[k] <= self.offsets@[k + 1] <= self.num_value_bytes() <= i64::MAX,
            self@[k] matches Some(b) ==> b.len() == self.offsets@[k + 1] - self.offsets@[k],
    {
        self.lemma_total_bound();
        lemma_offsets_sorted(self.offsets@, k, k + 1);
        lemma_offsets_sorted(self.offsets@, k + 1, self.offsets@.len() - 1);
    }

    /// The value bytes of a well-formed array fit 64-bit offsets.
    pub proof fn lemma_total_bound(&self)
        requires
            self.wf(),
        ensures
            self.num_value_bytes() <= i64::MAX,
    {
        let s = self.offsets@;
        match &self.offsets {
            OffsetBuffer::Small(v) => assert(s[s.len() - 1] == v@[s.len() - 1] as int),
            OffsetBuffer::Large(v) => assert(s[s.len() - 1] == v@[s.len() - 1] as int),
        }
    }

    /// Appends a slot to an array with 64-bit offsets.
    pub fn push(&mut self, v: Option<&[u8]>)
        requires
            old(self).wf(),
            old(self).is_large(),
            v matches Some(b) ==> old(self).num_value_bytes() + b@.len() <= i64::MAX,
        ensures
            final(self).wf(),
            final(self).is_large(),
            final(self)@ == old(self)@.push(
                match v {
                    Some(b) => Some(b@),
                    None => None,
                },
            ),
            final(self).crs() == old(self).crs(),
            final(self).offsets_view() == old(self).offsets_view().push(final(self).num_value_bytes()),
            old(self).nulls_empty() ==> final(self).nulls_empty(),
            final(self).num_value_bytes() == old(self).num_value_bytes() + match v {
                Some(b) => b@.len() as int,
                None => 0,
            },
    {
        let ghost old_vals = self.values@;
        let ghost old_offs = self.offsets@;
        match v {
            Some(b) => {
                let mut i: usize = 0;
                while i < b.len()
                    invariant
                        i <= b@.len(),
                        self.values@ == old_vals + b@.subrange(0, i as int),
                        self.offsets == old(self).offsets,
                        self.validity == old(self).validity,
                        self.metadata == old(self).metadata,
                    decreases b@.len() - i,
                {
                    self.values.push(b[i]);
                    assert(old_vals + b@.subrange(0, i + 1) =~= (old_vals + b@.subrange(
                        0,
                        i as int,
                    )).push(b@[i as int]));
                    i = i + 1;
                }
                assert(b@.subrange(0, b@.len() as int) =~= b@);
                self.validity.push(true);
            },
            None => {
                self.validity.push(false);
            },
        }
        let n = self.values.len();
        match &mut self.offsets {
            OffsetBuffer::Large(o) => {
                o.push(n as i64);
            },
            OffsetBuffer::Small(o) => {},
        }
        proof {
            let s = self.offsets@;
            assert(s =~= old_offs.push(n as int));
            assert forall|k: int| 0 <= k < s.len() - 1 implies #[trigger] s[k] <= s[k + 1] by {
                if k < old_offs.len() - 1 {
                    assert(s[k] == old_offs[k] && s[k + 1] == old_offs[k + 1]);
                } else {
                    assert(s[k] == old_offs.last());
                }
            }
        }
        let ghost n_old = old(self)@.len() as int;
        assert(self.offsets@[n_old] == old_vals.len());
        assert(self.offsets@[n_old + 1] == self.values@.len());
        proof {
            if let Some(b) = v {
                assert(self.values@.subrange(old_vals.len() as int, self.values@.len() as int) =~= b@);
            }
        }
        assert forall|i: int| 0 <= i < old(self)@.len() implies #[trigger] self@[i] == old(self)@[i] by {
            lemma_offsets_sorted(old_offs, i, i + 1);
            lemma_offsets_sorted(old_offs, i + 1, old_offs.len() - 1);
            assert(self.values@.subrange(old_offs[i], old_offs[i + 1]) =~= old_vals.subrange(
                old_offs[i],
                old_offs[i + 1],
            ));
        }
        assert(self@ =~= old(self)@.push(
            match v {
                Some(b) => Some(b@),
                None => None,
            },
        ));
        assert(self.offsets_view() =~= old(self).offsets_view().push(self.num_value_bytes()));
        assert(old(self).nulls_empty() ==> self.nulls_empty()) by {
            if old(self).nulls_empty() {
                assert forall|i: int|
                    0 <= i < self.validity@.len() && !self.validity@[i] implies #[trigger] self.offsets@[i
                    + 1] == self.offsets@[i] by {
                    if i < old(self).validity@.len() {
                        assert(self.validity@[i] == old(self).validity@[i]);
                        assert(old(self).offsets@[i + 1] == old(self).offsets@[i]);
                    }
                }
            }
        }
    }

    /// The same slots with 32-bit offsets; fails with `Overflow` when the
    /// value bytes exceed what 32-bit offsets can address.
    pub fn to_small(&self) -> (r: Result<WKBArray, GeoArrowError>)
        requires
            self.wf(),
        ensures
            r is Ok <==> self.num_value_bytes() <= i32::MAX,
            r is Err ==> r == Err::<WKBArray, GeoArrowError>(GeoArrowError::Overflow),
            r matches Ok(a) ==> a.wf() && !a.is_large() && a@ == self@ && a.crs() == self.crs()
                && a.offsets_view() == self.offsets_view() && a.num_value_bytes()
                == self.num_value_bytes() && (self.nulls_empty() ==> a.nulls_empty()),
    {
        let offsets = self.offsets.to_small()?;
        let r = WKBArray {
            values: self.values.clone(),
            offsets,
            validity: self.validity.clone(),
            metadata: self.metadata.duplicate(),
        };
        assert(r@ =~= self@);
        Ok(r)
    }

    /// The same slots with 64-bit offsets.
    pub fn to_large(&self) -> (r: WKBArray)
        requires
            self.wf(),
        ensures
            r.wf(),
            r.is_large(),
            r@ == self@,
            r.crs() == self.crs(),
            r.offsets_view() == self.offsets_view(),
            r.num_value_bytes() == self.num_value_bytes(),
            self.nulls_empty() ==> r.nulls_empty(),
    {
        let offsets = self.offsets.to_large();
        let r = WKBArray {
            values: self.values.clone(),
            offsets,
            validity: self.validity.clone(),
            metadata: self.metadata.duplicate(),
        };
        assert(r@ =~= self@);
        r
    }
}

impl WKBArray {
    /// The offsets that cut the value bytes into slots.
    pub closed spec fn offsets_view(&self) -> Seq<int> {
        self.offsets@
    }

    /// Slot `i` spans the bytes between its two offsets: as many as its value
    /// holds, and none for a null slot where nulls are empty.
    pub proof fn lemma_slot_bytes(&self, i: int)
        requires
            self.wf(),
            0 <= i < self@.len(),
        ensures
            0 <= self.offsets_view()[i] <= self.offsets_view()[i + 1],
            self@[i] matches Some(b) ==> b.len() == self.offsets_view()[i + 1] - self.offsets_view()[i],
            self@[i] is None && self.nulls_empty() ==> self.offsets_view()[i + 1]
                == self.offsets_view()[i],
    {
        self.lemma_slot_len(i);
    }

    /// The offsets of a well-formed array start at zero, never decrease and
    /// end at the number of value bytes.
    pub proof fn lemma_offsets_monotone(&self)
        requires
            self.wf(),
        ensures
            offsets_valid(self.offsets_view()),
            self.offsets_view().last() == self.num_value_bytes(),
            self.offsets_view().len() == self@.len() + 1,
    {
    }
}

} // verus!
