use vstd::prelude::*;

verus! {

/// The sizes that shape a tree: how many children a node has at least and at
/// most, and how many of them leave a node that overflows for the first time
/// on its level during an insertion.
#[derive(Clone, Copy, Debug, PartialEq, Eq, Structural)]
pub struct RTreeParams {
    pub min_size: usize,
    pub max_size: usize,
    pub reinsertion_count: usize,
}

/// Why a set of parameters was refused.
#[derive(Clone, Copy, Debug, PartialEq, Eq, Structural)]
pub enum ParamsError {
    /// `min_size` is below two.
    MinSizeTooSmall,
    /// `max_size` is below twice `min_size`.
    MaxSizeTooSmall,
    /// `reinsertion_count` is zero or above `max_size - min_size + 1`.
    ReinsertionCountOutOfRange,
}

impl RTreeParams {
    pub open spec fn is_valid(self) -> bool {
        &&& self.min_size >= 2
        &&& self.max_size >= 2 * self.min_size
        &&& 1 <= self.reinsertion_count <= self.max_size - self.min_size + 1
    }

    /// The first rule that the parameters break, if any.
    pub open spec fn check_spec(self) -> Result<(), ParamsError> {
        if self.min_size < 2 {
            Err(ParamsError::MinSizeTooSmall)
        } else if self.max_size < 2 * self.min_size {
            Err(ParamsError::MaxSizeTooSmall)
        } else if self.reinsertion_count < 1 || self.reinsertion_count > self.max_size
            - self.min_size + 1 {
            Err(ParamsError::ReinsertionCountOutOfRange)
        } else {
            Ok(())
        }
    }

    /// The parameters every tree has unless told otherwise.
    pub open spec fn default_spec() -> RTreeParams {
        RTreeParams { min_size: 3, max_size: 6, reinsertion_count: 2 }
    }

    /// Checks the parameters against the rules of [`RTreeParams::is_valid`].
    pub fn check(&self) -> (r: Result<(), ParamsError>)
        ensures
            r == self.check_spec(),
            r is Ok <==> self.is_valid(),
    {
        if self.min_size < 2 {
            Err(ParamsError::MinSizeTooSmall)
        } else if self.max_size / 2 < self.min_size {
            Err(ParamsError::MaxSizeTooSmall)
        } else if self.reinsertion_count < 1 || self.reinsertion_count - 1 > self.max_size
            - self.min_size {
            Err(ParamsError::ReinsertionCountOutOfRange)
        } else {
            Ok(())
        }
    }

    /// Parameters with the given sizes, or the rule that they break.
    pub fn new(min_size: usize, max_size: usize, reinsertion_count: usize) -> (r: Result<
        RTreeParams,
        ParamsError,
    >)
        ensures
            match r {
                Ok(p) => p == (RTreeParams { min_size, max_size, reinsertion_count })
                    && p.is_valid(),
                Err(e) => (RTreeParams { min_size, max_size, reinsertion_count }).check_spec()
                    == Err::<(), ParamsError>(e),
            },
    {
        let p = RTreeParams { min_size, max_size, reinsertion_count };
        match p.check() {
            Ok(_) => Ok(p),
            Err(e) => Err(e),
        }
    }
}

impl Default for RTreeParams {
    fn default() -> (r: RTreeParams)
        ensures
            r == RTreeParams::default_spec(),
            r.is_valid(),
    {
        RTreeParams { min_size: 3, max_size: 6, reinsertion_count: 2 }
    }
}

} // verus!
