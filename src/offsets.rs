use vstd::prelude::*;

use crate::error::GeoArrowError;

verus! {

/// Largest offset that a 32-bit offset buffer can hold.
pub const SMALL_MAX: i64 = 2147483647;

/// An offset buffer is a sequence that starts at zero and never decreases.
pub open spec fn offsets_valid(s: Seq<int>) -> bool {
    &&& s.len() >= 1
    &&& s[0] == 0
    &&& forall|i: int| 0 <= i < s.len() - 1 ==> #[trigger] s[i] <= s[i + 1]
}

/// Every entry of a valid offset sequence is non-negative.
pub proof fn lemma_offsets_nonneg(s: Seq<int>, j: int)
    requires
        offsets_valid(s),
        0 <= j < s.len(),
    ensures
        0 <= s[j],
    decreases j,
{
    if j > 0 {
        lemma_offsets_nonneg(s, j - 1);
        assert(s[j - 1] <= s[j]);
    }
}

/// Pairwise monotonicity of a valid offset sequence.
pub proof fn lemma_offsets_sorted(s: Seq<int>, i: int, j: int)
    requires
        offsets_valid(s),
        0 <= i <= j < s.len(),
    ensures
        0 <= s[i] <= s[j],
    decreases j - i,
{
    lemma_offsets_nonneg(s, i);
    if i < j {
        lemma_offsets_sorted(s, i, j - 1);
        assert(s[j - 1] <= s[j]);
    }
}

/// Offsets that partition a flat buffer into runs, one run per slot, with
/// 32-bit (`Small`) or 64-bit (`Large`) entries.
#[derive(Debug, Clone, PartialEq, Eq)]
pub enum OffsetBuffer {
    Small(Vec<i32>),
    Large(Vec<i64>),
}

impl View for OffsetBuffer {
    type V = Seq<int>;

    open spec fn view(&self) -> Seq<int> {
        match self {
            OffsetBuffer::Small(v) => Seq::new(v@.len(), |i: int| v@[i] as int),
            OffsetBuffer::Large(v) => Seq::new(v@.len(), |i: int| v@[i] as int),
        }
    }
}

impl OffsetBuffer {
    /// Valid offsets whose final entry indexes memory.
    pub open spec fn wf(&self) -> bool {
        offsets_valid(self@) && self.total() <= usize::MAX
    }

    pub open spec fn is_large(&self) -> bool {
        self is Large
    }

    /// Number of slots, one fewer than the number of offsets.
    pub open spec fn slots(&self) -> int {
        self@.len() - 1
    }

    /// Final offset: the length of the partitioned buffer.
    pub open spec fn total(&self) -> int {
        self@.last()
    }

    /// Builds a 32-bit buffer, checking that it starts at zero and never decreases.
    pub fn try_new_small(v: Vec<i32>) -> (r: Result<OffsetBuffer, GeoArrowError>)
        ensures
            r is Ok <==> offsets_valid(Seq::new(v@.len(), |i: int| v@[i] as int)),
            r is Err ==> r == Err::<OffsetBuffer, GeoArrowError>(GeoArrowError::FormatError),
            r matches Ok(b) ==> b == OffsetBuffer::Small(v),
    {
        let ghost s = Seq::new(v@.len(), |i: int| v@[i] as int);
        if v.len() == 0 || v[0] != 0 {
            return Err(GeoArrowError::FormatError);
        }
        let mut i: usize = 0;
        while i + 1 < v.len()
            invariant
                0 <= i < v.len(),
                s == Seq::new(v@.len(), |i: int| v@[i] as int),
                forall|k: int| 0 <= k < i ==> #[trigger] s[k] <= s[k + 1],
            decreases v.len() - i,
        {
            if v[i] > v[i + 1] {
                assert(s[i as int] > s[i as int + 1]);
                return Err(GeoArrowError::FormatError);
            }
            i = i + 1;
        }
        Ok(OffsetBuffer::Small(v))
    }

    /// Builds a 64-bit buffer, checking that it starts at zero and never decreases.
    pub fn try_new_large(v: Vec<i64>) -> (r: Result<OffsetBuffer, GeoArrowError>)
        ensures
            r is Ok <==> offsets_valid(Seq::new(v@.len(), |i: int| v@[i] as int)),
            r is Err ==> r == Err::<OffsetBuffer, GeoArrowError>(GeoArrowError::FormatError),
            r matches Ok(b) ==> b == OffsetBuffer::Large(v),
    {
        let ghost s = Seq::new(v@.len(), |i: int| v@[i] as int);
        if v.len() == 0 || v[0] != 0 {
            return Err(GeoArrowError::FormatError);
        }
        let mut i: usize = 0;
        while i + 1 < v.len()
            invariant
                0 <= i < v.len(),
                s == Seq::new(v@.len(), |i: int| v@[i] as int),
                forall|k: int| 0 <= k < i ==> #[trigger] s[k] <= s[k + 1],
            decreases v.len() - i,
        {
            if v[i] > v[i + 1] {
                assert(s[i as int] > s[i as int + 1]);
                return Err(GeoArrowError::FormatError);
            }
            i = i + 1;
        }
        Ok(OffsetBuffer::Large(v))
    }

    /// Number of offsets held (one more than the number of slots).
    pub fn num_offsets(&self) -> (r: usize)
        ensures
            r == self@.len(),
    {
        match self {
            OffsetBuffer::Small(v) => v.len(),
            OffsetBuffer::Large(v) => v.len(),
        }
    }

    /// The offset at position `i`.
    pub fn get(&self, i: usize) -> (r: usize)
        requires
            self.wf(),
            i < self@.len(),
        ensures
            r == self@[i as int],
    {
        proof {
            lemma_offsets_sorted(self@, i as int, self@.len() - 1);
        }
        match self {
            OffsetBuffer::Small(v) => {
                assert(self@[i as int] == v@[i as int] as int);
                v[i] as usize
            },
            OffsetBuffer::Large(v) => {
                assert(self@[i as int] == v@[i as int] as int);
                v[i] as usize
            },
        }
    }

    /// The run `[lo, hi)` of slot `i`.
    pub fn start_end(&self, i: usize) -> (r: (usize, usize))
        requires
            self.wf(),
            i < self.slots(),
        ensures
            r.0 == self@[i as int],
            r.1 == self@[i + 1],
            r.0 <= r.1,
    {
        proof {
            lemma_offsets_sorted(self@, i as int, i + 1);
        }
        let n = self.num_offsets();
        let lo = self.get(i);
        let hi = self.get(i + 1);
        assert(self@[i as int] <= self@[i + 1]);
        (lo, hi)
    }

    /// The final offset.
    pub fn last(&self) -> (r: usize)
        requires
            self.wf(),
        ensures
            r == self.total(),
    {
        self.get(self.num_offsets() - 1)
    }

    /// Narrows to 32-bit offsets; fails with `Overflow` when the final offset
    /// does not fit.
    pub fn to_small(&self) -> (r: Result<OffsetBuffer, GeoArrowError>)
        requires
            self.wf(),
        ensures
            r is Ok <==> self.total() <= SMALL_MAX,
            r is Err ==> r == Err::<OffsetBuffer, GeoArrowError>(GeoArrowError::Overflow),
            r matches Ok(b) ==> !b.is_large() && b@ == self@ && b.wf(),
    {
        match self {
            OffsetBuffer::Small(v) => Ok(OffsetBuffer::Small(v.clone())),
            OffsetBuffer::Large(v) => {
                let n = v.len();
                if v[n - 1] > SMALL_MAX {
                    return Err(GeoArrowError::Overflow);
                }
                let ghost s = self@;
                let mut out: Vec<i32> = Vec::with_capacity(n);
                let mut i: usize = 0;
                while i < n
                    invariant
                        n == v@.len(),
                        s == self@,
                        s == Seq::new(v@.len(), |k: int| v@[k] as int),
                        offsets_valid(s),
                        s.last() <= SMALL_MAX,
                        i <= n,
                        out@.len() == i,
                        forall|k: int| 0 <= k < i ==> #[trigger] out@[k] as int == s[k],
                    decreases n - i,
                {
                    proof {
                        lemma_offsets_sorted(s, i as int, n - 1);
                        lemma_offsets_sorted(s, 0, i as int);
                    }
                    out.push(v[i] as i32);
                    i = i + 1;
                }
                let r = OffsetBuffer::Small(out);
                assert(r@ =~= self@);
                Ok(r)
            }
        }
    }

    /// Widens to 64-bit offsets; always succeeds.
    pub fn to_large(&self) -> (r: OffsetBuffer)
        ensures
            r.is_large(),
            r@ == self@,
            self.wf() ==> r.wf(),
    {
        match self {
            OffsetBuffer::Large(v) => OffsetBuffer::Large(v.clone()),
            OffsetBuffer::Small(v) => {
                let n = v.len();
                let mut out: Vec<i64> = Vec::with_capacity(n);
                let mut i: usize = 0;
                while i < n
                    invariant
                        n == v@.len(),
                        i <= n,
                        out@.len() == i,
                        forall|k: int| 0 <= k < i ==> #[trigger] out@[k] == v@[k] as i64,
                    decreases n - i,
                {
                    out.push(v[i] as i64);
                    i = i + 1;
                }
                let r = OffsetBuffer::Large(out);
                assert(r@ =~= self@);
                r
            }
        }
    }
}

/// Narrowing is possible exactly when the final offset fits: a well-formed
/// 32-bit buffer never ends past `SMALL_MAX`, so one that holds the same
/// offsets as `b` forces `b` to end there too; widening keeps every offset.
pub proof fn lemma_width_conversion(b: OffsetBuffer, narrowed: OffsetBuffer)
    requires
        b.wf(),
        narrowed.wf(),
        !narrowed.is_large(),
    ensures
        narrowed.total() <= SMALL_MAX,
        narrowed@ == b@ ==> b.total() <= SMALL_MAX,
{
    let s = narrowed@;
    if let OffsetBuffer::Small(v) = narrowed {
        assert(s[s.len() - 1] == v@[s.len() - 1] as int);
    }
}

} // verus!
