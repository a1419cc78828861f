//! Structured errors: a stable machine-readable code plus a readable message.
//!
//! Codes, once published, are frozen: a code keeps its string form forever,
//! and new codes are only ever appended.  Plain string errors from older
//! paths are carried as `e_unknown`.
use vstd::prelude::*;

use crate::text::{chars_of, push_str, string_of};

verus! {

/// Stable error codes.
#[derive(Debug, Clone, Copy, PartialEq, Eq, Structural)]
pub enum ErrorCode {
    /// Uncategorised error (the fallback for bare strings).
    EUnknown,
    /// Input validation failed: empty, relative or malformed path.
    EPathInvalid,
    /// The target file or directory does not exist.
    EPathNotFound,
    /// Insufficient permission.
    EPermDenied,
    /// The target lies in a protected system location.
    EProtected,
    /// The file is still in use.
    EFileBusy,
    /// The detection engines failed.
    EEngineFailure,
    /// A process identity check failed.
    EProcessIdentity,
    /// A background task failed.
    EInternal,
    /// The update flow failed.
    EUpdateFailure,
}

impl ErrorCode {
    /// The frozen string form of each code.
    pub open spec fn spec_str(self) -> Seq<char> {
        match self {
            ErrorCode::EUnknown => "e_unknown"@,
            ErrorCode::EPathInvalid => "e_path_invalid"@,
            ErrorCode::EPathNotFound => "e_path_not_found"@,
            ErrorCode::EPermDenied => "e_perm_denied"@,
            ErrorCode::EProtected => "e_protected"@,
            ErrorCode::EFileBusy => "e_file_busy"@,
            ErrorCode::EEngineFailure => "e_engine_failure"@,
            ErrorCode::EProcessIdentity => "e_process_identity"@,
            ErrorCode::EInternal => "e_internal"@,
            ErrorCode::EUpdateFailure => "e_update_failure"@,
        }
    }

    /// The stable snake_case string carried across the UI boundary.
    pub fn as_str(self) -> (res: &'static str)
        ensures
            res@ == self.spec_str(),
    {
        match self {
            ErrorCode::EUnknown => "e_unknown",
            ErrorCode::EPathInvalid => "e_path_invalid",
            ErrorCode::EPathNotFound => "e_path_not_found",
            ErrorCode::EPermDenied => "e_perm_denied",
            ErrorCode::EProtected => "e_protected",
            ErrorCode::EFileBusy => "e_file_busy",
            ErrorCode::EEngineFailure => "e_engine_failure",
            ErrorCode::EProcessIdentity => "e_process_identity",
            ErrorCode::EInternal => "e_internal",
            ErrorCode::EUpdateFailure => "e_update_failure",
        }
    }
}

/// All codes, in declaration order.
pub open spec fn all_codes() -> Seq<ErrorCode> {
    seq![
        ErrorCode::EUnknown,
        ErrorCode::EPathInvalid,
        ErrorCode::EPathNotFound,
        ErrorCode::EPermDenied,
        ErrorCode::EProtected,
        ErrorCode::EFileBusy,
        ErrorCode::EEngineFailure,
        ErrorCode::EProcessIdentity,
        ErrorCode::EInternal,
        ErrorCode::EUpdateFailure,
    ]
}

proof fn lemma_reveal_codes()
    ensures
        "e_unknown"@ == seq!['e', '_', 'u', 'n', 'k', 'n', 'o', 'w', 'n'],
        "e_path_invalid"@ == seq!['e', '_', 'p', 'a', 't', 'h', '_', 'i', 'n', 'v', 'a', 'l', 'i', 'd'],
        "e_path_not_found"@ == seq![
            'e', '_', 'p', 'a', 't', 'h', '_', 'n', 'o', 't', '_', 'f', 'o', 'u', 'n', 'd'
        ],
        "e_perm_denied"@ == seq!['e', '_', 'p', 'e', 'r', 'm', '_', 'd', 'e', 'n', 'i', 'e', 'd'],
        "e_protected"@ == seq!['e', '_', 'p', 'r', 'o', 't', 'e', 'c', 't', 'e', 'd'],
        "e_file_busy"@ == seq!['e', '_', 'f', 'i', 'l', 'e', '_', 'b', 'u', 's', 'y'],
        "e_engine_failure"@ == seq![
            'e', '_', 'e', 'n', 'g', 'i', 'n', 'e', '_', 'f', 'a', 'i', 'l', 'u', 'r', 'e'
        ],
        "e_process_identity"@ == seq![
            'e', '_', 'p', 'r', 'o', 'c', 'e', 's', 's', '_', 'i', 'd', 'e', 'n', 't', 'i', 't', 'y'
        ],
        "e_internal"@ == seq!['e', '_', 'i', 'n', 't', 'e', 'r', 'n', 'a', 'l'],
        "e_update_failure"@ == seq![
            'e', '_', 'u', 'p', 'd', 'a', 't', 'e', '_', 'f', 'a', 'i', 'l', 'u', 'r', 'e'
        ],
{
    reveal_strlit("e_unknown");
    reveal_strlit("e_path_invalid");
    reveal_strlit("e_path_not_found");
    reveal_strlit("e_perm_denied");
    reveal_strlit("e_protected");
    reveal_strlit("e_file_busy");
    reveal_strlit("e_engine_failure");
    reveal_strlit("e_process_identity");
    reveal_strlit("e_internal");
    reveal_strlit("e_update_failure");
    assert("e_unknown"@ =~= seq!['e', '_', 'u', 'n', 'k', 'n', 'o', 'w', 'n']);
    assert("e_path_invalid"@ =~= seq!['e', '_', 'p', 'a', 't', 'h', '_', 'i', 'n', 'v', 'a', 'l', 'i', 'd']);
    assert("e_path_not_found"@ =~= seq![
        'e', '_', 'p', 'a', 't', 'h', '_', 'n', 'o', 't', '_', 'f', 'o', 'u', 'n', 'd'
    ]);
    assert("e_perm_denied"@ =~= seq!['e', '_', 'p', 'e', 'r', 'm', '_', 'd', 'e', 'n', 'i', 'e', 'd']);
    assert("e_protected"@ =~= seq!['e', '_', 'p', 'r', 'o', 't', 'e', 'c', 't', 'e', 'd']);
    assert("e_file_busy"@ =~= seq!['e', '_', 'f', 'i', 'l', 'e', '_', 'b', 'u', 's', 'y']);
    assert("e_engine_failure"@ =~= seq![
        'e', '_', 'e', 'n', 'g', 'i', 'n', 'e', '_', 'f', 'a', 'i', 'l', 'u', 'r', 'e'
    ]);
    assert("e_process_identity"@ =~= seq![
        'e', '_', 'p', 'r', 'o', 'c', 'e', 's', 's', '_', 'i', 'd', 'e', 'n', 't', 'i', 't', 'y'
    ]);
    assert("e_internal"@ =~= seq!['e', '_', 'i', 'n', 't', 'e', 'r', 'n', 'a', 'l']);
    assert("e_update_failure"@ =~= seq![
        'e', '_', 'u', 'p', 'd', 'a', 't', 'e', '_', 'f', 'a', 'i', 'l', 'u', 'r', 'e'
    ]);
}

/// Different codes have different strings, so a code is recovered from its
/// string.
pub proof fn lemma_code_strings_distinct(a: ErrorCode, b: ErrorCode)
    ensures
        a.spec_str() == b.spec_str() ==> a == b,
{
    lemma_reveal_codes();
    if a.spec_str() == b.spec_str() && a != b {
        let x = a.spec_str();
        let y = b.spec_str();
        assert(x.len() == y.len());
        assert(x[2] == y[2]);
        assert(x[3] == y[3]);
        assert(x[4] == y[4]);
        assert(x[7] == y[7]);
    }
}

impl ErrorCode {
    /// The code whose string is `code`; an unknown string gives
    /// `EUnknown`.
    pub fn from_code(code: &str) -> (res: ErrorCode)
        ensures
            (exists|c: ErrorCode| c.spec_str() == code@) ==> res.spec_str() == code@,
            !(exists|c: ErrorCode| c.spec_str() == code@) ==> res == ErrorCode::EUnknown,
    {
        let codes = [
            ErrorCode::EUnknown,
            ErrorCode::EPathInvalid,
            ErrorCode::EPathNotFound,
            ErrorCode::EPermDenied,
            ErrorCode::EProtected,
            ErrorCode::EFileBusy,
            ErrorCode::EEngineFailure,
            ErrorCode::EProcessIdentity,
            ErrorCode::EInternal,
            ErrorCode::EUpdateFailure,
        ];
        let mut i: usize = 0;
        while i < 10
            invariant
                i <= 10,
                codes@ == all_codes(),
                forall|j: int| 0 <= j < i ==> (#[trigger] all_codes()[j]).spec_str() != code@,
            decreases 10 - i,
        {
            let c = codes[i];
            if crate::text::str_eq(c.as_str(), code) {
                return c;
            }
            i = i + 1;
        }
        proof {
            assert forall|c: ErrorCode| c.spec_str() != code@ by {
                match c {
                    ErrorCode::EUnknown => assert(all_codes()[0] == c),
                    ErrorCode::EPathInvalid => assert(all_codes()[1] == c),
                    ErrorCode::EPathNotFound => assert(all_codes()[2] == c),
                    ErrorCode::EPermDenied => assert(all_codes()[3] == c),
                    ErrorCode::EProtected => assert(all_codes()[4] == c),
                    ErrorCode::EFileBusy => assert(all_codes()[5] == c),
                    ErrorCode::EEngineFailure => assert(all_codes()[6] == c),
                    ErrorCode::EProcessIdentity => assert(all_codes()[7] == c),
                    ErrorCode::EInternal => assert(all_codes()[8] == c),
                    ErrorCode::EUpdateFailure => assert(all_codes()[9] == c),
                }
            }
        }
        ErrorCode::EUnknown
    }
}

/// Error payload at the UI boundary: `{ code, message }`.
#[derive(Debug, Clone)]
pub struct AppError {
    pub code: &'static str,
    pub message: String,
}

impl AppError {
    /// An error with the given code and message.
    pub fn new(code: ErrorCode, message: &str) -> (res: AppError)
        ensures
            res.code@ == code.spec_str(),
            res.message@ == message@,
    {
        let v = chars_of(message);
        AppError { code: code.as_str(), message: string_of(&v) }
    }

    /// A bare message, classified as `e_unknown`.
    pub fn from_message(message: &str) -> (res: AppError)
        ensures
            res.code@ == ErrorCode::EUnknown.spec_str(),
            res.message@ == message@,
    {
        AppError::new(ErrorCode::EUnknown, message)
    }

    /// The log form: `[code] message`.
    pub fn to_display_string(&self) -> (res: String)
        ensures
            res@ == "["@ + self.code@ + "] "@ + self.message@,
    {
        let mut v = chars_of("[");
        push_str(&mut v, self.code);
        push_str(&mut v, "] ");
        push_str(&mut v, self.message.as_str());
        string_of(&v)
    }
}

impl From<String> for AppError {
    fn from(message: String) -> (res: AppError) {
        AppError { code: "e_unknown", message }
    }
}

impl vstd::std_specs::convert::FromSpecImpl<String> for AppError {
    open spec fn obeys_from_spec() -> bool {
        true
    }

    open spec fn from_spec(message: String) -> AppError {
        AppError { code: "e_unknown", message }
    }
}

impl<'a> From<&'a str> for AppError {
    fn from(message: &'a str) -> (res: AppError)
        ensures
            res.code@ == ErrorCode::EUnknown.spec_str(),
            res.message@ == message@,
    {
        AppError::from_message(message)
    }
}

impl<'a> vstd::std_specs::convert::FromSpecImpl<&'a str> for AppError {
    /// A fresh `String` is built from the slice, so the result is stated by
    /// the `ensures` of `from` (over the message's text), not by value
    /// equality.
    open spec fn obeys_from_spec() -> bool {
        false
    }

    open spec fn from_spec(message: &'a str) -> AppError {
        AppError { code: "e_unknown", message: arbitrary() }
    }
}

} // verus!
