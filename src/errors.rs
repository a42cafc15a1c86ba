use vstd::prelude::*;

verus! {

/// Failures of the index and of queries.
#[derive(Debug, PartialEq, Eq, Structural)]
pub enum Error {
    /// A `B` row that the chain from `L` needs is absent.
    MissingHeader,
    /// A row of the index does not have the layout of its family.
    CorruptRow,
    /// More funding outputs than the query limit allows.
    TooManyResults { count: usize },
    /// The address has no transaction.
    NoHistory,
    /// No header is indexed.
    NoHeaders,
    /// The script hash parameter is missing or is not 64 hexadecimal digits.
    BadScriptHash,
    /// More than one transaction spends the same output.
    MultipleSpenders,
    /// New headers that do not extend the indexed chain.
    HeaderMismatch,
}

} // verus!
