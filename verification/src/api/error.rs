use vstd::prelude::*;
use vstd::string::StringExecFns;

verus! {

/// Why a request to the game server fails.
#[derive(Debug, Clone, PartialEq, Eq)]
pub enum ApiError {
    GameNotFound,
    BadMove(String),
    GameFinished,
    BadRequest(String),
    NoLegalGreedyMove,
}

/// The HTTP status each failure is answered with.
pub open spec fn spec_status(e: ApiError) -> u16 {
    match e {
        ApiError::GameNotFound => 404,
        ApiError::BadMove(_) => 400,
        ApiError::GameFinished => 409,
        ApiError::BadRequest(_) => 400,
        ApiError::NoLegalGreedyMove => 409,
    }
}

/// The text sent with each failure.
pub open spec fn spec_message(e: ApiError) -> Seq<char> {
    match e {
        ApiError::GameNotFound => "game not found"@,
        ApiError::BadMove(s) => "illegal move: "@ + s@,
        ApiError::GameFinished => "game already finished"@,
        ApiError::BadRequest(s) => s@,
        ApiError::NoLegalGreedyMove => "no legal greedy move available"@,
    }
}

impl ApiError {
    /// The HTTP status this failure is answered with: not found, bad request
    /// or conflict.
    pub fn status_code(&self) -> (r: u16)
        ensures
            r == spec_status(*self),
    {
        match self {
            ApiError::GameNotFound => 404,
            ApiError::BadMove(_) => 400,
            ApiError::GameFinished => 409,
            ApiError::BadRequest(_) => 400,
            ApiError::NoLegalGreedyMove => 409,
        }
    }

    /// The text sent with this failure.
    pub fn message(&self) -> (r: String)
        ensures
            r@ == spec_message(*self),
    {
        match self {
            ApiError::GameNotFound => "game not found".to_owned(),
            ApiError::BadMove(s) => {
                let mut r = "illegal move: ".to_owned();
                r.append(s.as_str());
                r
            },
            ApiError::GameFinished => "game already finished".to_owned(),
            ApiError::BadRequest(s) => s.clone(),
            ApiError::NoLegalGreedyMove => "no legal greedy move available".to_owned(),
        }
    }
}

} // verus!
