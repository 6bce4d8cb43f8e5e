use vstd::prelude::*;

verus! {

/// Possible responses from a call to `solve`.
#[derive(Debug, Copy, Clone, PartialEq, Eq, Structural)]
pub enum SolveResponse {
    /// The solver found the input to be satisfiable (code 10).
    Sat,
    /// The solver found the input to be unsatisfiable (code 20).
    Unsat,
    /// The solver was interrupted (code 0).
    Interrupted,
}

/// Possible literal values from a call to `val`.
#[derive(Debug, Copy, Clone, PartialEq, Eq, Structural)]
pub enum LitValue {
    True,
    False,
    Any,
}

impl SolveResponse {
    /// The numeric code of the response (spec form).
    pub open spec fn spec_code(self) -> i32 {
        match self {
            SolveResponse::Sat => 10i32,
            SolveResponse::Unsat => 20i32,
            SolveResponse::Interrupted => 0i32,
        }
    }

    /// The numeric code of the response.
    #[verifier::when_used_as_spec(spec_code)]
    pub fn code(self) -> (res: i32)
        ensures
            res == self.spec_code(),
    {
        match self {
            SolveResponse::Sat => 10,
            SolveResponse::Unsat => 20,
            SolveResponse::Interrupted => 0,
        }
    }

    /// The response with numeric code `code`; `None` for any other code.
    pub fn from_code(code: i32) -> (res: Option<SolveResponse>)
        ensures
            res matches Some(r) ==> r.code() == code,
            res is None <==> (code != 0 && code != 10 && code != 20),
    {
        if code == 0 {
            Some(SolveResponse::Interrupted)
        } else if code == 10 {
            Some(SolveResponse::Sat)
        } else if code == 20 {
            Some(SolveResponse::Unsat)
        } else {
            None
        }
    }
}

impl LitValue {
    /// The Boolean value; `Any` has none.
    pub fn to_bool(self) -> (res: bool)
        requires
            self != LitValue::Any,
        ensures
            res == (self == LitValue::True),
    {
        match self {
            LitValue::True => true,
            LitValue::False => false,
            LitValue::Any => false,
        }
    }

    /// Reads the answer `value` of the solver's `value(lit)` query: `0` means any value,
    /// `lit` means true, `-lit` means false; any other answer gives `None`.
    pub fn from_answer(lit: i32, value: i32) -> (res: Option<LitValue>)
        requires
            lit != 0,
        ensures
            value == 0 ==> res == Some(LitValue::Any),
            value != 0 && value == lit ==> res == Some(LitValue::True),
            value != 0 && value != lit && value == -lit ==> res == Some(LitValue::False),
            value != 0 && value != lit && value != -lit ==> res is None,
    {
        if value == 0 {
            Some(LitValue::Any)
        } else if value == lit {
            Some(LitValue::True)
        } else if lit != i32::MIN && value == -lit {
            Some(LitValue::False)
        } else {
            None
        }
    }
}

} // verus!
