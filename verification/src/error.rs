use vstd::prelude::*;

verus! {

/// Typed failures surfaced by the core operations.
///
/// Validation, authorization, not-found and domain-state failures are
/// reported to the caller and are not retried; the remaining variants are
/// internal failures that indicate misconfiguration or an exhausted retry
/// bound.
#[derive(Debug, Clone, Copy, PartialEq, Eq, Structural)]
pub enum ApiError {
    /// The tenant name does not match the required slug shape.
    InvalidTenantName,
    /// The uploaded table's header row is not `player_id,score`.
    InvalidCsvHeader,
    /// A row of the uploaded table does not have exactly two columns.
    InvalidCsvShape,
    /// The uploaded bytes are not a well-formed CSV document.
    InvalidCsv,
    /// A score token does not parse as a 64-bit integer.
    InvalidScore,
    /// No valid credential was presented.
    Unauthorized,
    /// The caller's role does not allow the operation.
    Forbidden,
    /// The viewing player has been disqualified.
    Disqualified,
    /// No competition with the given id exists in the tenant.
    CompetitionNotFound,
    /// A referenced player does not exist in the tenant.
    PlayerNotFound,
    /// Score ingestion was attempted against a finished competition.
    CompetitionFinished,
    /// A tenant with the same name already exists.
    DuplicateTenant,
    /// The id generator's contention-retry bound was exhausted.
    IdExhausted,
    /// A tenant store could not be resolved for an existing tenant.
    StoreUnavailable,
    /// Any other internal failure.
    Internal,
}

impl ApiError {
    /// The HTTP status class a transport layer should map this error to.
    pub open spec fn spec_status_class(self) -> u16 {
        match self {
            ApiError::InvalidTenantName => 400,
            ApiError::InvalidCsvHeader => 400,
            ApiError::InvalidCsvShape => 400,
            ApiError::InvalidCsv => 400,
            ApiError::InvalidScore => 400,
            ApiError::CompetitionFinished => 400,
            ApiError::DuplicateTenant => 400,
            ApiError::Unauthorized => 401,
            ApiError::Forbidden => 403,
            ApiError::Disqualified => 403,
            ApiError::CompetitionNotFound => 404,
            ApiError::PlayerNotFound => 404,
            ApiError::IdExhausted => 500,
            ApiError::StoreUnavailable => 500,
            ApiError::Internal => 500,
        }
    }

    /// Executable form of [`Self::spec_status_class`].
    pub fn status_class(self) -> (code: u16)
        ensures
            code == self.spec_status_class(),
    {
        match self {
            ApiError::InvalidTenantName => 400,
            ApiError::InvalidCsvHeader => 400,
            ApiError::InvalidCsvShape => 400,
            ApiError::InvalidCsv => 400,
            ApiError::InvalidScore => 400,
            ApiError::CompetitionFinished => 400,
            ApiError::DuplicateTenant => 400,
            ApiError::Unauthorized => 401,
            ApiError::Forbidden => 403,
            ApiError::Disqualified => 403,
            ApiError::CompetitionNotFound => 404,
            ApiError::PlayerNotFound => 404,
            ApiError::IdExhausted => 500,
            ApiError::StoreUnavailable => 500,
            ApiError::Internal => 500,
        }
    }
}

} // verus!
