//! The envelope in which every request gets its answer: a result on
//! success, the parts that a query returns, or an error.

use vstd::prelude::*;

use crate::errors::{PartsError, PartsErrorCode};
use crate::part::Part;

verus! {

/// The outcome of a successful request.
#[derive(Debug)]
pub struct QueryResult {
    pub code: u32,
    pub description: String,
}

/// The answer to a request; each field is optional.
#[derive(Debug)]
pub struct Response {
    pub result: Option<QueryResult>,
    pub data: Option<Vec<Part>>,
    pub error: Option<PartsError>,
}

impl Response {
    /// An empty response.
    pub fn new() -> (r: Response)
        ensures
            r.result is None,
            r.data is None,
            r.error is None,
    {
        Response { result: None, data: None, error: None }
    }

    /// The response with its result set.
    pub fn result(self, code: u32, description: &str) -> (r: Response)
        ensures
            r.result matches Some(q) && q.code == code && q.description@ == description@,
            r.data == self.data,
            r.error == self.error,
    {
        Response {
            result: Some(QueryResult { code, description: description.to_owned() }),
            data: self.data,
            error: self.error,
        }
    }

    /// The response with its data set.
    pub fn data(self, data: Vec<Part>) -> (r: Response)
        ensures
            r.result == self.result,
            r.data == Some(data),
            r.error == self.error,
    {
        Response { result: self.result, data: Some(data), error: self.error }
    }

    /// The response with its error set.
    pub fn error(self, code: PartsErrorCode, description: &str) -> (r: Response)
        ensures
            r.result == self.result,
            r.data == self.data,
            r.error matches Some(e) && e.code == code && e.description@ == description@,
    {
        Response {
            result: self.result,
            data: self.data,
            error: Some(PartsError::new(code, description.to_owned())),
        }
    }
}

} // verus!
