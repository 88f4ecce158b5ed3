//! The response statuses this server sends.
use vstd::prelude::*;

verus! {

/// The codes of the closed set of statuses.
pub open spec fn is_status_code(code: u16) -> bool {
    code == 200 || code == 201 || code == 400 || code == 404 || code == 405 || code == 500
}

/// The reason phrase that goes with each code.
pub open spec fn reason_phrase(code: u16) -> Seq<char> {
    if code == 200 {
        "OK"@
    } else if code == 201 {
        "Created"@
    } else if code == 400 {
        "Bad Request"@
    } else if code == 404 {
        "Not Found"@
    } else if code == 405 {
        "Method Not Allowed"@
    } else {
        "Internal Server Error"@
    }
}

/// A response status: one of a fixed set of code and reason-phrase pairs.
pub struct HttpStatus {
    code: u16,
}

impl View for HttpStatus {
    type V = u16;

    closed spec fn view(&self) -> u16 {
        self.code
    }
}

impl HttpStatus {
    #[verifier::type_invariant]
    closed spec fn inv(self) -> bool {
        is_status_code(self.code)
    }

    pub fn ok() -> (r: Self)
        ensures
            r@ == 200,
    {
        HttpStatus { code: 200 }
    }

    pub fn created() -> (r: Self)
        ensures
            r@ == 201,
    {
        HttpStatus { code: 201 }
    }

    pub fn bad_request() -> (r: Self)
        ensures
            r@ == 400,
    {
        HttpStatus { code: 400 }
    }

    pub fn not_found() -> (r: Self)
        ensures
            r@ == 404,
    {
        HttpStatus { code: 404 }
    }

    pub fn method_not_allowed() -> (r: Self)
        ensures
            r@ == 405,
    {
        HttpStatus { code: 405 }
    }

    pub fn internal_server_error() -> (r: Self)
        ensures
            r@ == 500,
    {
        HttpStatus { code: 500 }
    }

    pub fn code(&self) -> (r: u16)
        ensures
            r == self@,
            is_status_code(r),
    {
        proof {
            use_type_invariant(self);
        }
        self.code
    }

    pub fn reason(&self) -> (r: &'static str)
        ensures
            r@ == reason_phrase(self@),
    {
        proof {
            use_type_invariant(self);
        }
        if self.code == 200 {
            "OK"
        } else if self.code == 201 {
            "Created"
        } else if self.code == 400 {
            "Bad Request"
        } else if self.code == 404 {
            "Not Found"
        } else if self.code == 405 {
            "Method Not Allowed"
        } else {
            "Internal Server Error"
        }
    }
}

} // verus!
