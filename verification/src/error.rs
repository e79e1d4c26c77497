use vstd::prelude::*;
use crate::depgraph::{Edge, ParamKey};
use crate::reach::closed_walk;
use crate::server::{decimal_text, decimal_wide};

verus! {

/// Everything that can go wrong while editing or evaluating a network.
///
/// Structural errors (`IdNotFound`, `NameNotFound`, `CycleDetected`) reject an
/// edit as a whole. Evaluation errors (`TypeError`, `LuaError`) are ordinary
/// results: they are cached on the parameter that produced them and handed to
/// whoever reads it.
#[derive(Debug)]
pub enum Error {
    /// A node or parameter identifier does not name a live item.
    IdNotFound,
    /// A path segment, parameter name or context variable does not resolve.
    NameNotFound,
    /// Unclassified failure.
    Other,
    /// A value of the wrong kind was used.
    TypeError,
    /// The edit or the evaluation would close a dependency cycle.
    CycleDetected,
    /// The script engine failed; the payload is the engine's message.
    LuaError(String),
}

impl Clone for Error {
    fn clone(&self) -> (res: Self)
        ensures
            res == *self,
    {
        match self {
            Error::IdNotFound => Error::IdNotFound,
            Error::NameNotFound => Error::NameNotFound,
            Error::Other => Error::Other,
            Error::TypeError => Error::TypeError,
            Error::CycleDetected => Error::CycleDetected,
            Error::LuaError(msg) => Error::LuaError(msg.clone()),
        }
    }
}

impl Error {
    /// The text shown to users for each kind of error, before any payload.
    pub open spec fn label(self) -> Seq<char> {
        match self {
            Error::IdNotFound => "node ID not found"@,
            Error::NameNotFound => "name not found"@,
            Error::Other => "unspecified error"@,
            Error::TypeError => "type error"@,
            Error::CycleDetected => "dependency cycle detected"@,
            Error::LuaError(_) => "lua error: "@,
        }
    }

    /// The full message: the label, followed by the engine's message for a
    /// script failure.
    pub open spec fn message_spec(self) -> Seq<char> {
        match self {
            Error::LuaError(msg) => self.label() + msg@,
            _ => self.label(),
        }
    }

    /// Renders the error as human-readable text.
    pub fn message(&self) -> (text: String)
        ensures
            text@ == self.message_spec(),
    {
        match self {
            Error::IdNotFound => String::from_str("node ID not found"),
            Error::NameNotFound => String::from_str("name not found"),
            Error::Other => String::from_str("unspecified error"),
            Error::TypeError => String::from_str("type error"),
            Error::CycleDetected => String::from_str("dependency cycle detected"),
            Error::LuaError(msg) => String::from_str("lua error: ").concat(msg.as_str()),
        }
    }
}

/// How a parameter is written in a message: the raw key of its node, a
/// colon, and its index.
pub open spec fn key_text(k: ParamKey) -> Seq<char> {
    decimal_text(k.0 as nat) + ":"@ + decimal_text(k.1 as nat)
}

/// How a path is written in a message: its parameters, with arrows between
/// them.
pub open spec fn path_text(p: Seq<ParamKey>) -> Seq<char>
    decreases p.len(),
{
    if p.len() == 0 {
        Seq::empty()
    } else if p.len() == 1 {
        key_text(p[0])
    } else {
        path_text(p.drop_last()) + " -> "@ + key_text(p.last())
    }
}

/// Why an edit was refused: the error, and where the error is
/// `CycleDetected`, the cycle that the edit would close.
#[derive(Debug)]
pub struct Refused {
    /// The kind of the refusal.
    pub error: Error,
    /// The offending path: a chain of parameters that begins and ends with
    /// the same parameter, in which each would be read by the next. It is
    /// empty where the error is not `CycleDetected`.
    pub path: Vec<ParamKey>,
}

impl Refused {
    /// The refusal names the error `e`, and shows a cycle in the edges `g`
    /// where `e` is `CycleDetected`, and no path otherwise.
    pub open spec fn shows(self, e: Error, g: Set<Edge>) -> bool {
        &&& self.error == e
        &&& if e is CycleDetected {
            closed_walk(g, self.path@)
        } else {
            self.path@.len() == 0
        }
    }

    /// The full message of the refusal: that of the error, and behind it
    /// the offending path, where there is one.
    pub open spec fn message_spec(self) -> Seq<char> {
        if self.path@.len() > 0 {
            self.error.message_spec() + ": "@ + path_text(self.path@)
        } else {
            self.error.message_spec()
        }
    }

    /// Renders the refusal as human-readable text.
    pub fn message(&self) -> (text: String)
        ensures
            text@ == self.message_spec(),
    {
        let head = self.error.message();
        if self.path.len() == 0 {
            return head;
        }
        let mut text = head.concat(": ");
        let ghost start = text@;
        let mut i: usize = 0;
        assert(self.path@.subrange(0, 0) =~= Seq::<ParamKey>::empty());
        while i < self.path.len()
            invariant
                i <= self.path.len(),
                text@ == start + path_text(self.path@.subrange(0, i as int)),
            decreases self.path.len() - i,
        {
            let ghost done = self.path@.subrange(0, i as int);
            let ghost next = self.path@.subrange(0, i + 1);
            assert(next.drop_last() =~= done);
            assert(next.last() == self.path@[i as int]);
            if i > 0 {
                text.append(" -> ");
            }
            let k = self.path[i];
            text.append(decimal_wide(k.0).as_str());
            text.append(":");
            text.append(decimal_wide(k.1 as u64).as_str());
            assert(text@ =~= start + path_text(next));
            i += 1;
        }
        assert(self.path@.subrange(0, self.path.len() as int) =~= self.path@);
        text
    }

    /// A refusal for an error that is no cycle.
    pub fn plain(error: Error) -> (r: Refused)
        ensures
            r.error == error,
            r.path@.len() == 0,
    {
        Refused { error, path: Vec::new() }
    }
}

/// Shorthand for results whose error is this library's `Error`.
pub type Result<T> = std::result::Result<T, Error>;

} // verus!
