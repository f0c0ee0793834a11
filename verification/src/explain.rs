//! Which explain command a request asks for.

use vstd::prelude::*;
use crate::text::same_text;

verus! {

/// The operation to explain, with its parameters.
pub enum ExplainPlan<P> {
    Find { filter: P },
    Aggregate { pipeline: Vec<P> },
}

#[derive(Clone, Copy, Debug, PartialEq, Eq, Structural)]
pub enum ExplainError {
    /// A find is to be explained and no filter was given.
    FilterRequired,
    /// An aggregation is to be explained and no pipeline was given.
    PipelineRequired,
    /// The query type is neither `find` nor `aggregate`.
    InvalidQueryType,
}

impl ExplainError {
    pub open spec fn text(self) -> Seq<char> {
        match self {
            ExplainError::FilterRequired => "Filter required for find query"@,
            ExplainError::PipelineRequired => "Pipeline required for aggregate query"@,
            ExplainError::InvalidQueryType => "Invalid query type. Use 'find' or 'aggregate'"@,
        }
    }

    /// The failure in words.
    pub fn message(&self) -> (m: &'static str)
        ensures
            m@ == self.text(),
    {
        match self {
            ExplainError::FilterRequired => "Filter required for find query",
            ExplainError::PipelineRequired => "Pipeline required for aggregate query",
            ExplainError::InvalidQueryType => "Invalid query type. Use 'find' or 'aggregate'",
        }
    }
}

/// What `explain_query` answers.
pub open spec fn explained<P>(
    query_type: Seq<char>,
    filter: Option<P>,
    pipeline: Option<Vec<P>>,
) -> Result<ExplainPlan<P>, ExplainError> {
    if query_type == "find"@ {
        match filter {
            Some(f) => Ok(ExplainPlan::Find { filter: f }),
            None => Err(ExplainError::FilterRequired),
        }
    } else if query_type == "aggregate"@ {
        match pipeline {
            Some(p) => Ok(ExplainPlan::Aggregate { pipeline: p }),
            None => Err(ExplainError::PipelineRequired),
        }
    } else {
        Err(ExplainError::InvalidQueryType)
    }
}

/// Picks the operation to explain: a find needs its filter, an
/// aggregation its pipeline, and no other query type is known.
pub fn explain_query<P>(query_type: &str, filter: Option<P>, pipeline: Option<Vec<P>>) -> (r:
    Result<ExplainPlan<P>, ExplainError>)
    ensures
        r == explained(query_type@, filter, pipeline),
{
    if same_text(query_type, "find") {
        match filter {
            Some(f) => Ok(ExplainPlan::Find { filter: f }),
            None => Err(ExplainError::FilterRequired),
        }
    } else if same_text(query_type, "aggregate") {
        match pipeline {
            Some(p) => Ok(ExplainPlan::Aggregate { pipeline: p }),
            None => Err(ExplainError::PipelineRequired),
        }
    } else {
        Err(ExplainError::InvalidQueryType)
    }
}

} // verus!
