//! Validated repository name tokens.

use vstd::prelude::*;

verus! {

/// Whether `c` may appear in a repository token: ASCII alphanumerics and `-`.
pub open spec fn is_token_char(c: char) -> bool {
    (48 <= c as u32 && c as u32 <= 57)  // '0'..='9'
    || (97 <= c as u32 && c as u32 <= 122)  // 'a'..='z'
    || (65 <= c as u32 && c as u32 <= 90)  // 'A'..='Z'
    || c as u32 == 45  // '-'
}

/// A valid token: non-empty, all characters from the token alphabet.
pub open spec fn is_valid_token(s: Seq<char>) -> bool {
    s.len() > 0 && forall|i: int| 0 <= i < s.len() ==> is_token_char(#[trigger] s[i])
}

/// Why a string is not a valid repository name.
#[derive(Clone, Copy, Debug, PartialEq, Eq, Structural)]
pub enum NameError {
    /// The name is empty.
    Empty,
    /// The name holds a character outside ASCII alphanumerics and hyphen.
    InvalidCharacter,
}

impl NameError {
    /// A human-readable reason.
    pub fn message(&self) -> (r: String)
        ensures
            *self == NameError::Empty ==> r@ == "empty repository name"@,
            *self == NameError::InvalidCharacter ==> r@ == "invalid characters in repository name"@,
    {
        match self {
            NameError::Empty => String::from_str("empty repository name"),
            NameError::InvalidCharacter => String::from_str("invalid characters in repository name"),
        }
    }
}

/// Whether `s` is a valid token.
pub fn validate_token(s: &str) -> (r: bool)
    ensures
        r == is_valid_token(s@),
{
    let n = s.unicode_len();
    if n == 0 {
        return false;
    }
    let mut i: usize = 0;
    while i < n
        invariant
            0 <= i as int <= n as int,
            n as int == s@.len(),
            forall|j: int| 0 <= j < i ==> is_token_char(#[trigger] s@[j]),
        decreases n - i,
    {
        let c = s.get_char(i);
        let u = c as u32;
        if !((48 <= u && u <= 57) || (97 <= u && u <= 122) || (65 <= u && u <= 90) || u == 45) {
            return false;
        }
        i = i + 1;
    }
    true
}

/// A repository name: one valid token.
#[derive(Debug, Clone, Hash)]
pub struct Name(String);

impl View for Name {
    type V = Seq<char>;

    closed spec fn view(&self) -> Seq<char> {
        self.0@
    }
}

impl Name {
    /// Every `Name` that can be built holds a valid token.
    pub open spec fn wf(self) -> bool {
        is_valid_token(self@)
    }

    /// Checks that `s` is a valid repository name token.
    pub fn validate(s: &str) -> (r: Result<(), NameError>)
        ensures
            r is Ok <==> is_valid_token(s@),
            r == Result::<(), NameError>::Err(NameError::Empty) <==> s@.len() == 0,
    {
        if s.unicode_len() == 0 {
            Err(NameError::Empty)
        } else if validate_token(s) {
            Ok(())
        } else {
            Err(NameError::InvalidCharacter)
        }
    }

    /// Parses a name from a string slice.
    pub fn from_str(s: &str) -> (r: Result<Name, NameError>)
        ensures
            r is Ok <==> is_valid_token(s@),
            r matches Ok(n) ==> n@ == s@ && n.wf(),
            r is Err ==> (r == Result::<Name, NameError>::Err(NameError::Empty) <==> s@.len()
                == 0),
    {
        match Name::validate(s) {
            Ok(_) => Ok(Name(String::from_str(s))),
            Err(e) => Err(e),
        }
    }

    /// Parses a name from an owned string, keeping the allocation.
    pub fn try_from(s: String) -> (r: Result<Name, NameError>)
        ensures
            r is Ok <==> is_valid_token(s@),
            r matches Ok(n) ==> n@ == s@ && n.wf(),
            r is Err ==> (r == Result::<Name, NameError>::Err(NameError::Empty) <==> s@.len()
                == 0),
    {
        match Name::validate(s.as_str()) {
            Ok(_) => Ok(Name(s)),
            Err(e) => Err(e),
        }
    }

    /// The name's text.
    pub fn as_str(&self) -> (r: &str)
        ensures
            r@ == self@,
    {
        self.0.as_str()
    }
}

impl PartialEq for Name {
    fn eq(&self, other: &Name) -> bool {
        self.0 == other.0
    }
}

impl vstd::std_specs::cmp::PartialEqSpecImpl for Name {
    open spec fn obeys_eq_spec() -> bool {
        true
    }

    open spec fn eq_spec(&self, other: &Name) -> bool {
        self@ == other@
    }
}

} // verus!
