//! Errors raised while evaluating a checked expression, with the message
//! each one reads as.
use vstd::prelude::*;

verus! {

#[derive(Debug, Clone, PartialEq)]
pub enum EvalError {
    DivideByZero,
    NonFinite,
    Domain(String),
    Reference(String),
}

impl EvalError {
    pub open spec fn message_spec(&self) -> Seq<char> {
        match self {
            EvalError::DivideByZero => "division by zero"@,
            EvalError::NonFinite => "non-finite result"@,
            EvalError::Domain(text) => text@,
            EvalError::Reference(text) => "reference failed to evaluate: "@ + text@,
        }
    }

    /// The error's message.
    pub fn to_string(&self) -> (r: String)
        ensures
            r@ == self.message_spec(),
    {
        match self {
            EvalError::DivideByZero => String::from_str("division by zero"),
            EvalError::NonFinite => String::from_str("non-finite result"),
            EvalError::Domain(text) => text.clone(),
            EvalError::Reference(text) => {
                let mut out = String::from_str("reference failed to evaluate: ");
                out.append(text.as_str());
                proof {
                    reveal_strlit("reference failed to evaluate: ");
                }
                out
            },
        }
    }
}

} // verus!
