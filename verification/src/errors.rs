//! Error taxonomy of the indexing and search core.

use vstd::prelude::*;

verus! {

/// Everything a core operation can fail with.
///
/// `Network` is a transport failure towards the embedding service,
/// `Auth` a missing or rejected credential (also "service not yet
/// configured"), `RightsLimit` an exhausted quota, `ImgFormat` an
/// undecodable or unsupported image, and `Internal` covers I/O,
/// (de)serialization and storage-engine failures.
#[derive(Debug)]
pub enum AppError {
    Network(String),
    Internal(String),
    Auth(String),
    RightsLimit(String),
    ImgFormat(String),
}

impl AppError {
    /// The human-readable detail carried by the error.
    pub fn message(&self) -> (r: &String)
        ensures
            r@ == self.spec_message(),
    {
        match self {
            AppError::Network(m) => m,
            AppError::Internal(m) => m,
            AppError::Auth(m) => m,
            AppError::RightsLimit(m) => m,
            AppError::ImgFormat(m) => m,
        }
    }

    /// The detail string, seen from specifications.
    pub open spec fn spec_message(&self) -> Seq<char> {
        match self {
            AppError::Network(m) => m@,
            AppError::Internal(m) => m@,
            AppError::Auth(m) => m@,
            AppError::RightsLimit(m) => m@,
            AppError::ImgFormat(m) => m@,
        }
    }
}

/// The error a failed service reply maps to, by HTTP status: quota
/// exhausted on precondition-failed, an invalid credential on
/// unauthorized, and an internal failure otherwise.
pub fn classify_status(status: u16, message: String) -> (r: AppError)
    ensures
        status == 412 ==> r == AppError::RightsLimit(message),
        status == 401 ==> r == AppError::Auth(message),
        (status != 412 && status != 401) ==> r == AppError::Internal(message),
{
    if status == 412 {
        AppError::RightsLimit(message)
    } else if status == 401 {
        AppError::Auth(message)
    } else {
        AppError::Internal(message)
    }
}

} // verus!
