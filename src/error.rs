use vstd::prelude::*;

verus! {

/// The ways in which the resolution pipeline can refuse its input.
#[derive(Debug, Clone, Copy, PartialEq, Eq, Structural)]
pub enum YoinkError {
    /// A project key that is not of the form `owner/name`.
    InvalidProjectKey,
    /// A release without any asset.
    NoAssets,
    /// No candidate was left to rank (distinct from `NoAssets`; not reachable in practice).
    NoSuitableAsset,
    /// An archive whose suffix has no decoder.
    UnsupportedArchiveFormat,
    /// The extracted tree holds nothing that could be the executable.
    BinaryNotFound,
    /// An install recorded without any binary.
    EmptyInstallSet,
    /// A ledger key that has no entry.
    LedgerEntryMissing,
}

} // verus!
