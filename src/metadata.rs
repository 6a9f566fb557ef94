use vstd::prelude::*;

verus! {

/// Metadata shared by every array derived from one source: an optional
/// coordinate reference system, carried unchanged through slicing, casts and
/// conversions.
#[derive(Debug, Clone, PartialEq, Eq)]
pub struct ArrayMetadata {
    pub crs: Option<String>,
}

impl View for ArrayMetadata {
    type V = Option<Seq<char>>;

    open spec fn view(&self) -> Option<Seq<char>> {
        match &self.crs {
            Some(s) => Some(s@),
            None => None,
        }
    }
}

impl ArrayMetadata {
    /// No coordinate reference system.
    pub fn new() -> (r: ArrayMetadata)
        ensures
            r@ is None,
    {
        ArrayMetadata { crs: None }
    }

    /// A copy with the same coordinate reference system.
    pub fn duplicate(&self) -> (r: ArrayMetadata)
        ensures
            r@ == self@,
    {
        match &self.crs {
            Some(s) => ArrayMetadata { crs: Some(s.clone()) },
            None => ArrayMetadata { crs: None },
        }
    }
}

} // verus!
