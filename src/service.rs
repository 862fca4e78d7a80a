use vstd::prelude::*;

use crate::processor::{
    postfix, result_view, ExpressionProcessor, PostfixError, PostfixReversePolishNotation,
};

verus! {

/// The remote-call endpoint's logic: it takes the expression of one request
/// and answers with its postfix form.
#[derive(Debug, Default)]
pub struct GrpcExpressionProcessorService {}

impl GrpcExpressionProcessorService {
    /// The answer to a request carrying `expression`.
    pub fn process(&self, expression: &String) -> (r: Result<String, PostfixError>)
        ensures
            result_view(r) == postfix(expression@),
    {
        let processor = PostfixReversePolishNotation::new();
        processor.process(expression)
    }
}

} // verus!
