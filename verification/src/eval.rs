use vstd::prelude::*;
use crate::closure::key_in;
use crate::depgraph::ParamKey;
use crate::edit::ref_target;
use crate::error::Error;
use crate::expr::{Expr, Value};
use crate::network::{GenericNodeId, Network};
use crate::script::{
    lua_value, number_from_int, number_of_int, plain_outcome, script_state, ScriptOutcome,
};
use crate::wording::{says_wrong_kind, wrong_kind};

verus! {

/// Supplies the variables that expressions read with `v(name)`, such as the
/// current frame or time.
pub trait EvalContext {
    /// Finds a variable by name.
    fn var(&self, name: &str) -> Result<Value, Error>;
}

/// Tells whether two texts are the same.
pub fn same_text(a: &str, b: &str) -> (same: bool)
    ensures
        same == (a@ == b@),
{
    String::from_str(a) == String::from_str(b)
}

/// The variables of one frame of an animation: the number of the frame, and
/// the time, a double-precision number held as its bit pattern.
#[derive(Clone, Debug)]
pub struct FrameContext {
    /// The number of the frame.
    pub frame: i64,
    /// The time of the frame, as the bit pattern of a number.
    pub time: u64,
}

impl FrameContext {
    /// What the frame gives for a variable: the number of the frame for
    /// `frame`, the time for `time`, and `NameNotFound` for any other name.
    pub open spec fn var_of(self, name: Seq<char>) -> Result<Value, Error> {
        if name == "frame"@ {
            Ok(Value::Number(number_of_int(self.frame)))
        } else if name == "time"@ {
            Ok(Value::Number(self.time))
        } else {
            Err(Error::NameNotFound)
        }
    }
}

impl EvalContext for FrameContext {
    fn var(&self, name: &str) -> (res: Result<Value, Error>)
        ensures
            res == self.var_of(name@),
    {
        if same_text(name, "frame") {
            Ok(Value::from(self.frame))
        } else if same_text(name, "time") {
            Ok(Value::Number(self.time))
        } else {
            Err(Error::NameNotFound)
        }
    }
}

/// The result of a cross-parameter reference that was already followed: the
/// parameter, and the result of evaluating it.
pub type Known = (ParamKey, Result<Value, Error>);

/// The name under which a script state knows the function that answers
/// lookups.
pub const LOOKUP: &'static str = "lookup";

/// Script code that is run before every expression. It takes away the
/// functions with which a script could read files or the console or write
/// to it, draw random numbers or ask how much memory is in use, and it
/// defines `v(name)` for context variables and `p(path)` for the parameters
/// of other nodes.
pub const PRELUDE: &'static str =
    "dofile = nil loadfile = nil print = nil collectgarbage = nil \
     math.random = nil math.randomseed = nil \
     function v(n) return lookup(false, n) end function p(n) return lookup(true, n) end";

/// How many bytes the state of one run of a script may allocate.
pub const SCRIPT_MEMORY: usize = 0x400_0000;

/// `s`, with `k` appended unless it is there already.
pub open spec fn add_once(s: Seq<ParamKey>, k: ParamKey) -> Seq<ParamKey> {
    if s.contains(k) {
        s
    } else {
        s.push(k)
    }
}

/// `i` is the first index of `known` that holds a result for `key`.
pub open spec fn is_first_known(known: Seq<Known>, key: ParamKey, i: int) -> bool {
    &&& 0 <= i < known.len()
    &&& known[i].0 == key
    &&& forall|j: int| 0 <= j < i ==> (#[trigger] known[j]).0 != key
}

/// No result is known for `key`.
pub open spec fn unknown(known: Seq<Known>, key: ParamKey) -> bool {
    forall|j: int| 0 <= j < known.len() ==> (#[trigger] known[j]).0 != key
}

/// Finds the first result that is known for `key`.
pub fn find_known(known: &Vec<Known>, key: ParamKey) -> (res: Option<usize>)
    ensures
        match res {
            Some(i) => is_first_known(known@, key, i as int),
            None => unknown(known@, key),
        },
{
    let mut i: usize = 0;
    while i < known.len()
        invariant
            i <= known.len(),
            forall|j: int| 0 <= j < i ==> (#[trigger] known@[j]).0 != key,
        decreases known.len() - i,
    {
        if known[i].0.0 == key.0 && known[i].0.1 == key.1 {
            return Some(i);
        }
        i += 1;
    }
    None
}

/// Answers the lookups that a running script makes, and keeps a record of
/// them.
///
/// Context variables come from `ctx`. A reference to a parameter is resolved
/// against `net`, as seen from the node `origin`, and answered from `known`;
/// where `known` holds no result for it yet, it is noted as missing and the
/// script is told `nil`.
pub struct Resolver<'a, C: EvalContext> {
    /// Where context variables come from.
    pub ctx: &'a C,
    /// The network in which references are resolved, if there is one.
    pub net: Option<&'a Network>,
    /// The node whose expression is running.
    pub origin: GenericNodeId,
    /// The references that were followed before this run.
    pub known: &'a Vec<Known>,
    /// The parameters whose known result the script has read, each once, in
    /// the order of their first use.
    pub used: Vec<ParamKey>,
    /// The parameters that the script referred to and for which no result is
    /// known, each once.
    pub missing: Vec<ParamKey>,
    /// The first lookup that failed.
    pub failure: Option<Error>,
}

impl<'a, C: EvalContext> Resolver<'a, C> {
    /// Where a failure that a resolver notes can come from: a name that
    /// does not resolve, an error that the context gave for a variable, or
    /// an error that is on record for a parameter.
    pub open spec fn explained(&self, e: Error) -> bool {
        Self::explains(self.ctx, self.known@, e)
    }

    /// The error `e` is `NameNotFound`, or the context `ctx` gave it for a
    /// variable, or it is on record in `known`.
    pub open spec fn explains(ctx: &C, known: Seq<Known>, e: Error) -> bool {
        ||| e == Error::NameNotFound
        ||| exists|name: &str| #[trigger] call_ensures(C::var, (ctx, name), Err::<Value, Error>(e))
        ||| exists|i: int| 0 <= i < known.len() && (#[trigger] known[i]).1 == Err::<Value, Error>(e)
    }

    /// The invariant of a resolver: its network is sound and holds every
    /// parameter that the script has referred to; each of them is on record
    /// once, as used where a result is known for it, and as missing where
    /// none is; the failure that is noted has come from a lookup.
    pub open spec fn wf(&self) -> bool {
        &&& self.net matches Some(net) ==> {
            &&& net.sound()
            &&& forall|i: int| 0 <= i < self.used@.len() ==> net.has_param(#[trigger] self.used@[i])
            &&& forall|i: int| 0 <= i < self.missing@.len() ==> net.has_param(#[trigger] self.missing@[i])
        }
        &&& self.net is None ==> self.used@.len() == 0 && self.missing@.len() == 0
        &&& self.used@.no_duplicates()
        &&& self.missing@.no_duplicates()
        &&& forall|i: int| 0 <= i < self.used@.len() ==> !unknown(self.known@, #[trigger] self.used@[i])
        &&& forall|i: int| 0 <= i < self.missing@.len() ==> unknown(self.known@, #[trigger] self.missing@[i])
        &&& self.failure matches Some(e) ==> self.explained(e)
    }

    /// The two resolvers answer from the same sources.
    pub open spec fn same_inputs(&self, other: &Self) -> bool {
        &&& self.ctx == other.ctx
        &&& self.net == other.net
        &&& self.origin == other.origin
        &&& self.known == other.known
    }

    /// A resolver that has answered nothing yet.
    pub fn new(ctx: &'a C, net: Option<&'a Network>, origin: GenericNodeId, known: &'a Vec<Known>) -> (r: Self)
        requires
            net matches Some(n) ==> n.sound(),
        ensures
            r.wf(),
            r.ctx == ctx,
            r.net == net,
            r.origin == origin,
            r.known == known,
            r.used@ == Seq::<ParamKey>::empty(),
            r.missing@ == Seq::<ParamKey>::empty(),
            r.failure is None,
    {
        Resolver { ctx, net, origin, known, used: Vec::new(), missing: Vec::new(), failure: None }
    }

    /// Notes a failed lookup, unless one was noted before.
    fn fail(&mut self, e: Error)
        requires
            old(self).explained(e),
            old(self).failure matches Some(first) ==> old(self).explained(first),
        ensures
            final(self).failure matches Some(first) ==> final(self).explained(first),
            final(self).same_inputs(old(self)),
            final(self).used == old(self).used,
            final(self).missing == old(self).missing,
            final(self).failure == (match old(self).failure {
                Some(first) => Some(first),
                None => Some(e),
            }),
    {
        if self.failure.is_none() {
            self.failure = Some(e);
        }
    }

    /// The parameter that a reference names, if the resolver has a network
    /// and the path names a parameter in it.
    pub open spec fn target(&self, path: Seq<char>) -> Option<ParamKey> {
        match self.net {
            Some(net) => if net.has_node(self.origin) {
                ref_target(net.nodes(), net.root_id(), self.origin, path)
            } else {
                None
            },
            None => None,
        }
    }

    /// Answers one lookup of a running script.
    ///
    /// With `is_param` unset, `name` is a context variable: the answer is
    /// what the context gives for it, and its error is noted as a failure.
    /// With `is_param` set, `name` is a reference to a parameter. A reference
    /// that names nothing is noted as a `NameNotFound` failure. One whose
    /// result is known is noted as used; the answer is the known value, and
    /// a known error is noted as a failure. One whose result is not known
    /// is noted as missing. Wherever there is no value to give, the answer
    /// is `None`.
    pub fn lookup(&mut self, is_param: bool, name: &str) -> (res: Option<Value>)
        requires
            old(self).wf(),
        ensures
            final(self).wf(),
            final(self).same_inputs(old(self)),
            !is_param ==> {
                &&& final(self).used == old(self).used
                &&& final(self).missing == old(self).missing
                &&& exists|r: Result<Value, Error>| #[trigger]
                    call_ensures(C::var, (old(self).ctx, name), r) && match r {
                        Ok(v) => res == Some(v) && final(self).failure == old(self).failure,
                        Err(e) => res is None && final(self).failure == (match old(self).failure {
                            Some(first) => Some(first),
                            None => Some(e),
                        }),
                    }
            },
            is_param ==> (match old(self).target(name@) {
                None => {
                    &&& res is None
                    &&& final(self).used == old(self).used
                    &&& final(self).missing == old(self).missing
                    &&& final(self).failure == (match old(self).failure {
                        Some(first) => Some(first),
                        None => Some(Error::NameNotFound),
                    })
                },
                Some(key) => if unknown(old(self).known@, key) {
                    &&& res is None
                    &&& final(self).used == old(self).used
                    &&& final(self).missing@ == add_once(old(self).missing@, key)
                    &&& final(self).failure == old(self).failure
                } else {
                    exists|i: int| #[trigger]
                        is_first_known(old(self).known@, key, i) && final(self).used@ == add_once(
                            old(self).used@,
                            key,
                        ) && final(self).missing == old(self).missing && (match old(self).known@[i].1 {
                            Ok(value) => res == Some(value) && final(self).failure == old(self).failure,
                            Err(e) => res is None && final(self).failure == (match old(
                                self,
                            ).failure {
                                Some(first) => Some(first),
                                None => Some(e),
                            }),
                        })
                },
            }),
    {
        if !is_param {
            let answer = self.ctx.var(name);
            assert(call_ensures(C::var, (old(self).ctx, name), answer));
            return match answer {
                Ok(value) => Some(value),
                Err(e) => {
                    assert(call_ensures(C::var, (self.ctx, name), Err::<Value, Error>(e)));
                    self.fail(e);
                    None
                },
            };
        }
        let net = match self.net {
            Some(net) => net,
            None => {
                self.fail(Error::NameNotFound);
                return None;
            },
        };
        let key = match net.resolve_ref(self.origin, name) {
            Ok(key) => key,
            Err(_) => {
                self.fail(Error::NameNotFound);
                return None;
            },
        };
        match find_known(self.known, key) {
            None => {
                if !key_in(&self.missing, key) {
                    self.missing.push(key);
                }
                None
            },
            Some(i) => {
                if !key_in(&self.used, key) {
                    self.used.push(key);
                }
                match &self.known[i].1 {
                    Ok(value) => Some(value.clone()),
                    Err(e) => {
                        assert(self.known@[i as int].1 == Err::<Value, Error>(*e));
                        self.fail(e.clone());
                        None
                    },
                }
            },
        }
    }
}

/// Runs a script in a state of the script engine, in which the global called
/// `hook` is a function that calls `Resolver::lookup`, and returns what the
/// script evaluates to. Goes through `Lua::context`, `Context::scope`,
/// `Scope::create_function_mut`, `Table::set`, `Chunk::exec` and
/// `Chunk::eval`.
///
/// Nothing is claimed of the outcome. The resolver changes through its
/// `lookup` alone, which keeps its invariant and its sources. The engine
/// runs the script to its end: a script that loops for ever is an error of
/// whoever wrote it, and the call does not come back from it.
#[verifier::external_body]
pub(crate) fn run_script<'a, C: EvalContext>(
    lua: &rlua::Lua,
    hook: &str,
    prelude: &str,
    code: &str,
    r: &mut Resolver<'a, C>,
) -> (out: ScriptOutcome)
    requires
        old(r).wf(),
    ensures
        final(r).wf() && final(r).same_inputs(old(r)),
{
    lua.context(|lua| {
        plain_outcome(lua.scope(|scope| {
            let f = scope.create_function_mut(|lua, (is_param, name): (bool, String)| {
                lua_value(lua, r.lookup(is_param, &name))
            })?;
            lua.globals().set(hook, f)?;
            lua.load(prelude).exec()?;
            lua.load(code).eval::<rlua::prelude::LuaValue>()
        }))
    })
}

/// Runs a script in a fresh state of the script engine, made by
/// `script_state` with the memory `SCRIPT_MEMORY`, after `PRELUDE`.
pub(crate) fn run_fresh<'a, C: EvalContext>(code: &str, r: &mut Resolver<'a, C>) -> (out: ScriptOutcome)
    requires
        old(r).wf(),
    ensures
        final(r).wf(),
        final(r).same_inputs(old(r)),
{
    let lua = script_state(SCRIPT_MEMORY);
    run_script(&lua, LOOKUP, PRELUDE, code, r)
}

/// What a parameter evaluates to, given what came out of the script and the
/// first lookup that failed while it ran.
///
/// A failed lookup decides: its error is the result, whatever the script
/// made of the missing value. Otherwise a number or text is the value, an
/// integer the nearest number, and any other kind a `TypeError`. A failure
/// of the script is a `TypeError` where the engine's message says that a
/// value of the wrong kind was used, and a `LuaError` with that message
/// otherwise.
pub open spec fn conclude_spec(outcome: ScriptOutcome, failure: Option<Error>) -> Result<Value, Error> {
    match failure {
        Some(e) => Err(e),
        None => match outcome {
            ScriptOutcome::Number(bits) => Ok(Value::Number(bits)),
            ScriptOutcome::Integer(i) => Ok(Value::Number(number_of_int(i))),
            ScriptOutcome::Text(text) => Ok(Value::String(text)),
            ScriptOutcome::Unsupported => Err(Error::TypeError),
            ScriptOutcome::Failed(msg) => if says_wrong_kind(msg@) {
                Err(Error::TypeError)
            } else {
                Err(Error::LuaError(msg))
            },
        },
    }
}

/// Decides what a parameter evaluates to; see `conclude_spec`.
pub fn conclude(outcome: ScriptOutcome, failure: Option<Error>) -> (res: Result<Value, Error>)
    ensures
        res == conclude_spec(outcome, failure),
{
    match failure {
        Some(e) => Err(e),
        None => match outcome {
            ScriptOutcome::Number(bits) => Ok(Value::Number(bits)),
            ScriptOutcome::Integer(i) => Ok(Value::Number(number_from_int(i))),
            ScriptOutcome::Text(text) => Ok(Value::String(text)),
            ScriptOutcome::Unsupported => Err(Error::TypeError),
            ScriptOutcome::Failed(msg) => if wrong_kind(msg.as_str()) {
                Err(Error::TypeError)
            } else {
                Err(Error::LuaError(msg))
            },
        },
    }
}

/// Evaluates expressions on their own, with context variables and without a
/// network: every reference to a parameter fails to resolve.
pub struct Evaluator<C: EvalContext> {
    ctx: C,
}

impl<C: EvalContext> Evaluator<C> {
    /// The attached context.
    pub closed spec fn context(&self) -> C {
        self.ctx
    }

    /// Creates a new evaluator using the given context for resolving variables.
    pub fn with_context(ctx: C) -> (e: Evaluator<C>)
        ensures
            e.context() == ctx,
    {
        Evaluator { ctx }
    }

    /// Returns a reference to the attached context.
    pub fn ctx(&self) -> (c: &C)
        ensures
            *c == self.context(),
    {
        &self.ctx
    }

    /// Returns a mutable reference to the attached context.
    pub fn ctx_mut(&mut self) -> (c: &mut C)
        ensures
            *c == old(self).context(),
            final(self).context() == *final(c),
    {
        &mut self.ctx
    }

    /// Evaluates an expression.
    ///
    /// Each evaluation runs in a script state of its own. The result is what
    /// `conclude` makes of the script's outcome and of the first failed
    /// lookup; the context is left as it was. Where the evaluation fails,
    /// the error is a `TypeError`, a `LuaError`, a `NameNotFound`, or an
    /// error that the context gave for a variable.
    pub fn eval(&mut self, expr: &Expr) -> (res: Result<Value, Error>)
        ensures
            final(self).context() == old(self).context(),
            res matches Err(e) ==> {
                ||| e is TypeError
                ||| e is LuaError
                ||| Resolver::<C>::explains(&old(self).context(), Seq::<Known>::empty(), e)
            },
    {
        let known: Vec<Known> = Vec::new();
        let mut r = Resolver::new(&self.ctx, None, GenericNodeId { raw: 0 }, &known);
        let out = run_fresh(expr.code(), &mut r);
        proof {
            if r.failure is Some {
                assert(r.explained(r.failure->Some_0));
                assert(r.known@ =~= Seq::<Known>::empty());
            }
        }
        conclude(out, r.failure)
    }
}

} // verus!
