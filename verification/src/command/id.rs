//! Command identifiers and their validation.

use vstd::prelude::*;
use vstd::string::StrSliceExecFns;

use crate::text::{debug_char, debug_quoted_char, debug_quoted_str, debug_str};

verus! {

/// A character that may appear in a command id: an ASCII letter or digit,
/// `-` or `_`.
pub open spec fn legal_char(c: char) -> bool {
    ||| ('a' <= c && c <= 'z')
    ||| ('A' <= c && c <= 'Z')
    ||| ('0' <= c && c <= '9')
    ||| c == '-'
    ||| c == '_'
}

/// Every character of `s` is legal in a command id.
pub open spec fn all_legal(s: Seq<char>) -> bool {
    forall|i: int| 0 <= i < s.len() ==> legal_char(#[trigger] s[i])
}

/// `s` is a valid command id: non-empty, not starting with `-`, and made of
/// legal characters only.
pub open spec fn valid_id(s: Seq<char>) -> bool {
    &&& s.len() > 0
    &&& s[0] != '-'
    &&& all_legal(s)
}

/// `c`, found at position `k` of `s`, is the first character of `s` that is
/// not legal in a command id.
pub open spec fn first_illegal_at(s: Seq<char>, k: int, c: char) -> bool {
    &&& 0 <= k < s.len()
    &&& s[k] == c
    &&& !legal_char(c)
    &&& forall|j: int| 0 <= j < k ==> legal_char(#[trigger] s[j])
}

/// A unique identifier for a command.
///
/// Ids are restricted to ASCII alphanumerics, `-`, and `_`, so they are safe to use unquoted on
/// the command line and as `AsciiDoc` element ids. Construct via [`CommandId::new`] or
/// [`str::parse`]; the inner string is validated on construction and never exposed for mutation.
#[derive(Debug, Hash, Eq, PartialEq)]
pub struct CommandId(String);

impl CommandId {
    /// Every command id holds a valid id.
    #[verifier::type_invariant]
    spec fn holds_valid_id(self) -> bool {
        valid_id(self.0@)
    }
}

impl View for CommandId {
    type V = Seq<char>;

    closed spec fn view(&self) -> Seq<char> {
        self.0@
    }
}

/// Error returned when a string is not a valid [`CommandId`].
#[derive(Debug)]
pub enum InvalidCommandId {
    /// The id was empty.
    Empty,
    /// The id started with `-`, which would collide with command-line flag parsing.
    LeadingDash {
        /// The rejected id.
        id: String,
    },
    /// The id contained a character outside the allowed set.
    IllegalChar {
        /// The rejected id.
        id: String,
        /// The first offending character.
        ch: char,
    },
}

/// What [`CommandId::new`] answers for the characters `s`: `Ok(c)` with `c`
/// holding exactly `s` when `s` is a valid id, else the error that names the
/// first rule `s` breaks (emptiness, then a leading dash, then the first
/// illegal character).
pub open spec fn new_outcome(s: Seq<char>, r: Result<CommandId, InvalidCommandId>) -> bool {
    match r {
        Ok(c) => valid_id(s) && c@ == s,
        Err(InvalidCommandId::Empty) => s.len() == 0,
        Err(InvalidCommandId::LeadingDash { id }) => s.len() > 0 && s[0] == '-' && id@ == s,
        Err(InvalidCommandId::IllegalChar { id, ch }) => {
            &&& s.len() > 0
            &&& s[0] != '-'
            &&& id@ == s
            &&& exists|k: int| #[trigger] first_illegal_at(s, k, ch)
        },
    }
}

/// The message of an [`InvalidCommandId`].
pub open spec fn invalid_id_message(e: InvalidCommandId) -> Seq<char> {
    match e {
        InvalidCommandId::Empty => "command id must not be empty"@,
        InvalidCommandId::LeadingDash { id } => "command id "@ + debug_quoted_str(id@)
            + " must not start with '-'"@,
        InvalidCommandId::IllegalChar { id, ch } => "command id "@ + debug_quoted_str(id@)
            + " contains illegal character "@ + debug_quoted_char(ch),
    }
}

impl CommandId {
    /// Validate `id` and wrap it.
    ///
    /// # Errors
    ///
    /// Returns [`InvalidCommandId`] if `id` is empty, starts with `-`, or contains whitespace.
    pub fn new(id: &str) -> (r: Result<Self, InvalidCommandId>)
        ensures
            new_outcome(id@, r),
            valid_id(id@) ==> r is Ok,
            r is Ok <==> ({
                &&& id@.len() > 0
                &&& id@[0] != '-'
                &&& forall|i: int|
                    0 <= i < id@.len() ==> {
                        let c = #[trigger] id@[i];
                        ('a' <= c && c <= 'z') || ('A' <= c && c <= 'Z') || ('0' <= c && c <= '9') || c == '-'
                            || c == '_'
                    }
            }),
            r matches Ok(c) ==> c@ == id@,
            r matches Err(InvalidCommandId::Empty) <==> id@.len() == 0,
    {
        let n = id.unicode_len();
        if n == 0 {
            return Err(InvalidCommandId::Empty);
        }
        if id.get_char(0) == '-' {
            return Err(InvalidCommandId::LeadingDash { id: String::from_str(id) });
        }
        let mut i: usize = 0;
        while i < n
            invariant
                n == id@.len(),
                n > 0,
                id@[0] != '-',
                i <= n,
                forall|j: int| 0 <= j < i ==> legal_char(#[trigger] id@[j]),
            decreases n - i,
        {
            let c = id.get_char(i);
            if !Self::is_legal(c) {
                let s = String::from_str(id);
                assert(first_illegal_at(id@, i as int, c));
                let r: Result<Self, InvalidCommandId> = Err(InvalidCommandId::IllegalChar { id: s, ch: c });
                assert(r matches Err(InvalidCommandId::IllegalChar { id: x, ch: y }) && x@ == id@
                    && y == c);
                return r;
            }
            i = i + 1;
        }
        let s = String::from_str(id);
        assert(valid_id(s@));
        Ok(CommandId(s))
    }

    /// The id as a string slice.
    #[must_use]
    pub fn as_str(&self) -> (r: &str)
        ensures
            r@ == self@,
            valid_id(r@),
    {
        proof {
            use_type_invariant(self);
        }
        self.0.as_str()
    }

    /// Whether `self` and `other` are the same id.
    pub fn same_as(&self, other: &CommandId) -> (r: bool)
        ensures
            r == (self@ == other@),
    {
        self.0 == other.0
    }

    fn is_legal(c: char) -> (r: bool)
        ensures
            r == legal_char(c),
            r <==> (('a' <= c && c <= 'z') || ('A' <= c && c <= 'Z') || ('0' <= c && c <= '9') || c == '-'
                || c == '_'),
    {
        ('a' <= c && c <= 'z') || ('A' <= c && c <= 'Z') || ('0' <= c && c <= '9') || c == '-'
            || c == '_'
    }

    /// The id as an owned string, as it is shown to users.
    pub fn to_string(&self) -> (r: String)
        ensures
            r@ == self@,
            valid_id(r@),
    {
        proof {
            use_type_invariant(self);
        }
        self.0.clone()
    }
}

impl Clone for CommandId {
    fn clone(&self) -> (r: Self)
        ensures
            r == *self,
    {
        proof {
            use_type_invariant(self);
        }
        CommandId(self.0.clone())
    }
}

impl std::str::FromStr for CommandId {
    type Err = InvalidCommandId;

    fn from_str(s: &str) -> (r: Result<Self, Self::Err>)
        ensures
            new_outcome(s@, r),
            r is Ok <==> ({
                &&& s@.len() > 0
                &&& s@[0] != '-'
                &&& forall|i: int|
                    0 <= i < s@.len() ==> {
                        let c = #[trigger] s@[i];
                        ('a' <= c && c <= 'z') || ('A' <= c && c <= 'Z') || ('0' <= c && c <= '9') || c == '-'
                            || c == '_'
                    }
            }),
            r matches Ok(c) ==> c@ == s@,
            r matches Err(InvalidCommandId::Empty) <==> s@.len() == 0,
    {
        Self::new(s)
    }
}

impl std::borrow::Borrow<str> for CommandId {
    fn borrow(&self) -> (r: &str)
        ensures
            <str as View>::view(r) == self@,
    {
        self.0.as_str()
    }
}

impl InvalidCommandId {
    /// The message that describes this error.
    pub fn to_string(&self) -> (r: String)
        ensures
            r@ == invalid_id_message(*self),
    {
        match self {
            InvalidCommandId::Empty => {
                let r = String::from_str("command id must not be empty");
                r
            },
            InvalidCommandId::LeadingDash { id } => {
                let mut r = String::from_str("command id ");
                let q = debug_str(id.as_str());
                r.append(q.as_str());
                r.append(" must not start with '-'");
                r
            },
            InvalidCommandId::IllegalChar { id, ch } => {
                let mut r = String::from_str("command id ");
                let q = debug_str(id.as_str());
                r.append(q.as_str());
                r.append(" contains illegal character ");
                let qc = debug_char(*ch);
                r.append(qc.as_str());
                r
            },
        }
    }
}

} // verus!
