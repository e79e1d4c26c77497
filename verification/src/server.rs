use vstd::prelude::*;
use vstd::string::StrSliceExecFns;
use vstd::utf8::encode_utf8;

verus! {

/// Default server endpoint.
pub const DEFAULT_ENDPOINT: &'static str = "tcp://127.0.0.1:5555";

/// Protocol version.
pub const PROTOCOL_VERSION: u32 = 1;

/// Description of a node parameter.
#[derive(Debug, Eq, PartialEq)]
pub struct NodeParamInfo {
    /// Type of the parameter.
    pub ty: String,
    /// Whether to show an input connector for this parameter.
    pub show_connector: bool,
}

impl Clone for NodeParamInfo {
    fn clone(&self) -> (res: Self)
        ensures
            res == *self,
    {
        NodeParamInfo { ty: self.ty.clone(), show_connector: self.show_connector }
    }
}

/// Description of the output of a node.
#[derive(Debug, Eq, PartialEq)]
pub struct NodeOutputInfo {
    /// Type of the output.
    pub ty: String,
}

impl Clone for NodeOutputInfo {
    fn clone(&self) -> (res: Self)
        ensures
            res == *self,
    {
        NodeOutputInfo { ty: self.ty.clone() }
    }
}

/// Information needed to create a node.
#[derive(Clone, Debug, Eq, PartialEq)]
pub struct NodeCreateInfo {
    /// Name of the node.
    pub name: String,
    /// Parameter descriptions, each with the name of the parameter; no name
    /// occurs twice.
    pub params: Vec<(String, NodeParamInfo)>,
    /// Outputs, each with its name; no name occurs twice. An output
    /// connector is always associated to each output.
    pub outputs: Vec<(String, NodeOutputInfo)>,
}

/// No name occurs twice in the list.
pub open spec fn distinct_names<T>(list: Seq<(String, T)>) -> bool {
    forall|i: int, j: int| 0 <= i < j < list.len() ==> (#[trigger] list[i]).0@ != (#[trigger] list[j]).0@
}

/// Tells whether no name occurs twice in the list.
pub fn names_distinct<T>(list: &Vec<(String, T)>) -> (ok: bool)
    ensures
        ok == distinct_names(list@),
{
    let mut j: usize = 0;
    while j < list.len()
        invariant
            j <= list.len(),
            forall|a: int, b: int| 0 <= a < b < j ==> (#[trigger] list@[a]).0@ != (#[trigger] list@[b]).0@,
        decreases list.len() - j,
    {
        let mut i: usize = 0;
        while i < j
            invariant
                i <= j < list.len(),
                forall|a: int| 0 <= a < i ==> (#[trigger] list@[a]).0@ != list@[j as int].0@,
            decreases j - i,
        {
            if list[i].0 == list[j].0 {
                return false;
            }
            i += 1;
        }
        j += 1;
    }
    true
}

impl NodeCreateInfo {
    /// The description is well formed: its parameters are indexed by name,
    /// and so are its outputs, so that no name occurs twice among either.
    pub open spec fn wf(&self) -> bool {
        distinct_names(self.params@) && distinct_names(self.outputs@)
    }

    /// Tells whether the description is well formed.
    pub fn is_valid(&self) -> (ok: bool)
        ensures
            ok == self.wf(),
    {
        names_distinct(&self.params) && names_distinct(&self.outputs)
    }
}

/// Represents a connection between two connectors of a node.
#[derive(Clone, Debug, Eq, PartialEq)]
pub struct Connection {
    /// Path to the source connector (source node path and output connector name).
    pub source_path: String,
    /// Path to the destination connector (destination node path and parameter name).
    pub destination_path: String,
}

/// Represents a request sent to the server.
#[derive(Clone, Debug, Eq, PartialEq)]
pub enum Request {
    /// Return the protocol version.
    GetVersion {  },
    /// Returns information about a node.
    GetNodeInfo {  },
    /// Asks the server to stop.
    Kill {  },
}

/// The next action that should be done after receiving and replying to a request.
#[derive(Copy, Clone, Debug, Eq, PartialEq)]
pub enum NextAction {
    /// Continue processing messages.
    Continue,
    /// The server should exit (break the message loop).
    Break,
}

/// The JSON text that stands for a string, quotes and escapes included.
pub uninterp spec fn json_of_text(s: Seq<char>) -> Seq<char>;

/// `serde_json::to_string` on a string: the JSON text for it. The
/// serializer writes into memory and has no error of its own for a string.
#[verifier::external_body]
pub(crate) fn json_text(s: &str) -> (res: String)
    ensures
        res@ == json_of_text(s@),
{
    serde_json::to_string(s).unwrap_or_default()
}

/// The character that stands for a digit.
pub open spec fn digit_char(d: nat) -> char {
    if d == 0 {
        '0'
    } else if d == 1 {
        '1'
    } else if d == 2 {
        '2'
    } else if d == 3 {
        '3'
    } else if d == 4 {
        '4'
    } else if d == 5 {
        '5'
    } else if d == 6 {
        '6'
    } else if d == 7 {
        '7'
    } else if d == 8 {
        '8'
    } else {
        '9'
    }
}

/// The decimal digits of a number, without leading zeros; this is also the
/// JSON text of the number.
pub open spec fn decimal_text(n: nat) -> Seq<char>
    decreases n,
{
    if n < 10 {
        seq![digit_char(n)]
    } else {
        decimal_text(n / 10).push(digit_char(n % 10))
    }
}

/// Returns the text of a digit.
fn digit_text(d: u32) -> (s: &'static str)
    requires
        d < 10,
    ensures
        s@ == seq![digit_char(d as nat)],
{
    proof {
        reveal_strlit("0");
        reveal_strlit("1");
        reveal_strlit("2");
        reveal_strlit("3");
        reveal_strlit("4");
        reveal_strlit("5");
        reveal_strlit("6");
        reveal_strlit("7");
        reveal_strlit("8");
        reveal_strlit("9");
    }
    let s = if d == 0 {
        "0"
    } else if d == 1 {
        "1"
    } else if d == 2 {
        "2"
    } else if d == 3 {
        "3"
    } else if d == 4 {
        "4"
    } else if d == 5 {
        "5"
    } else if d == 6 {
        "6"
    } else if d == 7 {
        "7"
    } else if d == 8 {
        "8"
    } else {
        "9"
    };
    assert(s@ =~= seq![digit_char(d as nat)]);
    s
}

/// Writes a number in decimal digits.
pub fn decimal(n: u32) -> (text: String)
    ensures
        text@ == decimal_text(n as nat),
{
    decimal_wide(n as u64)
}

/// Writes a wide number in decimal digits.
pub fn decimal_wide(n: u64) -> (text: String)
    ensures
        text@ == decimal_text(n as nat),
    decreases n,
{
    if n < 10 {
        String::from_str(digit_text(n as u32))
    } else {
        let text = decimal_wide(n / 10).concat(digit_text((n % 10) as u32));
        assert(text@ =~= decimal_text((n / 10) as nat).push(digit_char((n % 10) as nat)));
        text
    }
}

/// The text of a successful reply around the JSON text `data`.
pub open spec fn reply_text(data: Seq<char>) -> Seq<char> {
    "{\"status\":0,\"data\":"@ + data + "}"@
}

/// The text of an error reply whose message has the JSON text `quoted`.
pub open spec fn error_reply_text(quoted: Seq<char>) -> Seq<char> {
    "{\"status\":1,\"errorMessage\":"@ + quoted + "}"@
}

/// Creates a successful JSON reply payload around data that is JSON text
/// already. The reply is of the form `{"status":0,"data":<data>}`.
pub fn make_reply(data: &str) -> (out: Vec<u8>)
    ensures
        out@ == encode_utf8(reply_text(data@)),
{
    let text = String::from_str("{\"status\":0,\"data\":").concat(data).concat("}");
    text.as_str().as_bytes_vec()
}

/// Creates a JSON error reply around a message that is JSON text already.
/// The reply is of the form `{"status":1,"errorMessage":<message>}`.
pub fn make_quoted_error_reply(quoted: &str) -> (out: Vec<u8>)
    ensures
        out@ == encode_utf8(error_reply_text(quoted@)),
{
    let text = String::from_str("{\"status\":1,\"errorMessage\":").concat(quoted).concat("}");
    text.as_str().as_bytes_vec()
}

/// Creates a JSON error reply with the given error message, which is quoted
/// and escaped as JSON asks.
pub fn make_error_reply(message: &str) -> (out: Vec<u8>)
    ensures
        out@ == encode_utf8(error_reply_text(json_of_text(message@))),
{
    let quoted = json_text(message);
    make_quoted_error_reply(quoted.as_str())
}

/// The reply to a request: the protocol version for `GetVersion`, and an
/// error that says `unimplemented` for every other request.
pub open spec fn dispatch_text(req: Request) -> Seq<char> {
    match req {
        Request::GetVersion {  } => reply_text(decimal_text(PROTOCOL_VERSION as nat)),
        _ => error_reply_text(json_of_text("unimplemented"@)),
    }
}

/// Answers a request.
pub fn dispatch(req: &Request) -> (out: Vec<u8>)
    ensures
        out@ == encode_utf8(dispatch_text(*req)),
{
    match req {
        Request::GetVersion {  } => make_reply(decimal(PROTOCOL_VERSION).as_str()),
        _ => make_error_reply("unimplemented"),
    }
}

/// Returns the protocol version.
pub fn get_version() -> (v: u32)
    ensures
        v == PROTOCOL_VERSION,
{
    PROTOCOL_VERSION
}

} // verus!
