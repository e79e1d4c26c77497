use nodenet::error::Error;
use nodenet::eval::{conclude, find_known, EvalContext, Evaluator, Resolver};
use nodenet::expr::{Expr, Value};
use nodenet::network::{GenericNodeId, Network};
use nodenet::script::ScriptOutcome;
use nodenet::wording::{holds_text, wrong_kind};

struct Clock {
    time: f64,
}

impl EvalContext for Clock {
    fn var(&self, name: &str) -> Result<Value, Error> {
        match name {
            "time" => Ok(Value::Number(self.time.to_bits())),
            "label" => Ok(Value::String("shot".to_string())),
            "broken" => Err(Error::Other),
            _ => Err(Error::NameNotFound),
        }
    }
}

fn num(x: f64) -> Value {
    Value::Number(x.to_bits())
}

fn number(v: Result<Value, Error>) -> f64 {
    f64::from_bits(v.unwrap().as_number().unwrap())
}

fn text(v: Result<Value, Error>) -> String {
    match v.unwrap() {
        Value::String(s) => s,
        Value::Number(_) => panic!("a number"),
    }
}

/// root/A.x, root/B.y = A.x + 1, root/C.z = B.y * 2, root/D.w = 10
fn chain() -> (Network, [GenericNodeId; 4]) {
    let mut net = Network::new();
    let root = net.root();
    let a = net.create(root, "A").unwrap();
    let b = net.create(root, "B").unwrap();
    let c = net.create(root, "C").unwrap();
    let d = net.create(root, "D").unwrap();
    net.add_param(a, "x", num(1.0)).unwrap();
    net.add_param(b, "y", num(0.0)).unwrap();
    net.add_param(c, "z", num(0.0)).unwrap();
    net.add_param(d, "w", num(10.0)).unwrap();
    net.set_expression(b, 0, Expr::new("p('../A/x') + 1")).unwrap();
    net.set_expression(c, 0, Expr::new("p('../B/y') * 2")).unwrap();
    (net, [a, b, c, d])
}

#[test]
fn values_are_numbers_or_text() {
    let mut ev = Evaluator::with_context(Clock { time: 1.5 });
    assert_eq!(number(ev.eval(&Expr::new("1.5 + 2"))), 3.5);
    assert_eq!(number(ev.eval(&Expr::new("3"))), 3.0);
    assert_eq!(number(ev.eval(&Expr::new("v('time') * 2"))), 3.0);
    assert_eq!(text(ev.eval(&Expr::new("'a' .. 'b'"))), "ab");
    assert_eq!(text(ev.eval(&Expr::new("v('label') .. '!'"))), "shot!");
    assert_eq!(ev.ctx().time, 1.5);
    ev.ctx_mut().time = 4.0;
    assert_eq!(number(ev.eval(&Expr::new("v('time')"))), 4.0);
}

#[test]
fn wrong_kinds_are_type_errors() {
    let mut ev = Evaluator::with_context(Clock { time: 0.0 });
    assert!(matches!(ev.eval(&Expr::new("true")), Err(Error::TypeError)));
    assert!(matches!(ev.eval(&Expr::new("nil")), Err(Error::TypeError)));
    assert!(matches!(ev.eval(&Expr::new("{}")), Err(Error::TypeError)));
    assert!(matches!(Value::String("x".to_string()).as_number(), Err(Error::TypeError)));
    assert_eq!(num(2.5).as_number().unwrap(), 2.5f64.to_bits());
}

#[test]
fn script_failures_carry_the_message() {
    let mut ev = Evaluator::with_context(Clock { time: 0.0 });
    match ev.eval(&Expr::new("1 +")) {
        Err(Error::LuaError(msg)) => assert!(!msg.is_empty()),
        _ => panic!("a syntax error was expected"),
    }
    match ev.eval(&Expr::new("1 // 0")) {
        Err(e @ Error::LuaError(_)) => assert!(e.message().starts_with("lua error: ")),
        _ => panic!("a runtime error was expected"),
    }
    assert!(matches!(ev.eval(&Expr::new("error('boom')")), Err(Error::LuaError(_))));
}

#[test]
fn value_of_the_wrong_kind_is_a_type_error() {
    let mut ev = Evaluator::with_context(Clock { time: 0.0 });
    assert!(matches!(ev.eval(&Expr::new("'a' * 2")), Err(Error::TypeError)));
    assert!(matches!(ev.eval(&Expr::new("'abc' + 1")), Err(Error::TypeError)));
    assert!(matches!(ev.eval(&Expr::new("-{}")), Err(Error::TypeError)));
    assert!(matches!(ev.eval(&Expr::new("{} .. 'x'")), Err(Error::TypeError)));
    assert!(matches!(ev.eval(&Expr::new("1 < 'x'")), Err(Error::TypeError)));
    assert!(matches!(ev.eval(&Expr::new("{} < {}")), Err(Error::TypeError)));
    assert!(matches!(ev.eval(&Expr::new("#5")), Err(Error::TypeError)));
    assert!(matches!(ev.eval(&Expr::new("math.sqrt('x')")), Err(Error::TypeError)));
    assert!(matches!(ev.eval(&Expr::new("missing.field")), Err(Error::TypeError)));
    assert_eq!(number(ev.eval(&Expr::new("'10' + 1"))), 11.0);
    assert!(matches!(ev.eval(&Expr::new("1 % 0")), Err(Error::LuaError(_))));
}

#[test]
fn wording_of_a_failure_is_searched_for_phrases() {
    assert!(holds_text("abc", ""));
    assert!(holds_text("abc", "abc"));
    assert!(holds_text("abc", "bc"));
    assert!(!holds_text("abc", "abcd"));
    assert!(!holds_text("abc", "ca"));
    assert!(!holds_text("", "a"));
    assert!(wrong_kind("x:1: attempt to index a nil value (global 'os')"));
    assert!(wrong_kind("attempt to add a 'string' with a 'number'"));
    assert!(wrong_kind("attempt to compare number with nil"));
    assert!(wrong_kind("bad argument #1 to 'sqrt' (number expected, got string)"));
    assert!(!wrong_kind("attempt to divide by zero"));
    assert!(!wrong_kind("a value with nothing wrong"));
    assert!(!wrong_kind("boom"));
}

#[test]
fn failed_lookup_decides_the_result() {
    let mut ev = Evaluator::with_context(Clock { time: 0.0 });
    assert!(matches!(ev.eval(&Expr::new("v('nope')")), Err(Error::NameNotFound)));
    assert!(matches!(ev.eval(&Expr::new("v('nope') or 1")), Err(Error::NameNotFound)));
    assert!(matches!(ev.eval(&Expr::new("v('broken') or 1")), Err(Error::Other)));
    assert!(matches!(ev.eval(&Expr::new("p('x')")), Err(Error::NameNotFound)));
    assert!(matches!(ev.eval(&Expr::new("(v('broken') or 0) + (v('nope') or 0)")), Err(Error::Other)));
}

#[test]
fn evaluations_do_not_see_each_other() {
    let mut ev = Evaluator::with_context(Clock { time: 0.0 });
    assert_eq!(number(ev.eval(&Expr::new("leak = 5; return leak"))), 5.0);
    assert!(matches!(ev.eval(&Expr::new("leak")), Err(Error::TypeError)));
}

#[test]
fn conclude_maps_each_outcome() {
    assert!(matches!(conclude(ScriptOutcome::Number(7), None), Ok(Value::Number(7))));
    assert_eq!(number(conclude(ScriptOutcome::Integer(-2), None)), -2.0);
    assert_eq!(text(conclude(ScriptOutcome::Text("t".to_string()), None)), "t");
    assert!(matches!(conclude(ScriptOutcome::Unsupported, None), Err(Error::TypeError)));
    assert!(matches!(conclude(ScriptOutcome::Failed("m".to_string()), None), Err(Error::LuaError(m)) if m == "m"));
    assert!(matches!(
        conclude(ScriptOutcome::Failed("attempt to call a nil value".to_string()), None),
        Err(Error::TypeError)
    ));
    assert!(matches!(
        conclude(ScriptOutcome::Number(7), Some(Error::NameNotFound)),
        Err(Error::NameNotFound)
    ));
    assert!(matches!(
        conclude(ScriptOutcome::Failed("m".to_string()), Some(Error::CycleDetected)),
        Err(Error::CycleDetected)
    ));
}

#[test]
fn integers_convert_to_the_nearest_number() {
    assert!(matches!(Value::from(3i64), Value::Number(b) if b == 3.0f64.to_bits()));
    assert!(matches!(Value::from(-1i64), Value::Number(b) if b == (-1.0f64).to_bits()));
    assert!(matches!(Value::from(0i64), Value::Number(0)));
    assert!(matches!(Value::from(i64::MAX), Value::Number(b) if b == 9223372036854775808.0f64.to_bits()));
}

#[test]
fn resolver_keeps_a_record() {
    let (mut net, [a, b, _c, _d]) = chain();
    let ctx = Clock { time: 2.0 };
    assert_eq!(number(net.value(a, 0, &ctx)), 1.0);
    let known = vec![((a.raw, 0), Ok(num(1.0))), ((b.raw, 0), Err(Error::TypeError))];
    assert_eq!(find_known(&known, (b.raw, 0)), Some(1));
    assert_eq!(find_known(&known, (b.raw, 1)), None);
    let mut r = Resolver::new(&ctx, Some(&net), b, &known);
    assert_eq!(number(r.lookup(false, "time").ok_or(Error::Other)), 2.0);
    assert!(r.failure.is_none());
    assert_eq!(number(r.lookup(true, "../A/x").ok_or(Error::Other)), 1.0);
    assert_eq!(number(r.lookup(true, "/A/x").ok_or(Error::Other)), 1.0);
    assert_eq!(r.used, vec![(a.raw, 0)]);
    assert!(r.lookup(true, "../C/z").is_none());
    assert!(r.lookup(true, "../C/z").is_none());
    assert!(r.failure.is_none());
    assert!(r.lookup(true, "y").is_none());
    assert!(matches!(r.failure, Some(Error::TypeError)));
    assert!(r.lookup(true, "../A/none").is_none());
    assert!(r.lookup(false, "nope").is_none());
    assert!(matches!(r.failure, Some(Error::TypeError)));
    let (used, missing, failure) = r.into_parts();
    assert_eq!(used, vec![(a.raw, 0), (b.raw, 0)]);
    assert_eq!(missing.len(), 1);
    assert!(matches!(failure, Some(Error::TypeError)));
}

#[test]
fn chain_is_evaluated_through() {
    let (mut net, [_a, b, c, d]) = chain();
    let ctx = Clock { time: 0.0 };
    assert_eq!(number(net.value(c, 0, &ctx)), 4.0);
    assert!(!net.get_param(b, 0).unwrap().is_dirty());
    assert!(!net.get_param(c, 0).unwrap().is_dirty());
    assert_eq!(net.runs(), 2);
    assert_eq!(number(net.value(d, 0, &ctx)), 10.0);
    assert_eq!(net.runs(), 2);
    assert_eq!(net.get_param(c, 0).unwrap().refs, vec![(b.raw, 0)]);
}

#[test]
fn cached_value_is_read_without_a_run() {
    let (mut net, [_a, _b, c, _d]) = chain();
    let ctx = Clock { time: 0.0 };
    let first = number(net.value(c, 0, &ctx));
    let runs = net.runs();
    let second = number(net.value(c, 0, &ctx));
    assert_eq!(first, second);
    assert_eq!(net.runs(), runs);
}

#[test]
fn failure_is_cached_and_handed_on() {
    let (mut net, [a, b, c, _d]) = chain();
    let ctx = Clock { time: 0.0 };
    net.set_expression(a, 0, Expr::new("v('nope') + 1")).unwrap();
    assert!(matches!(net.value(c, 0, &ctx), Err(Error::NameNotFound)));
    assert!(matches!(net.get_param(a, 0).unwrap().cached(), Err(Error::NameNotFound)));
    assert!(matches!(net.get_param(b, 0).unwrap().cached(), Err(Error::NameNotFound)));
    assert!(!net.get_param(a, 0).unwrap().is_dirty());
    let runs = net.runs();
    assert!(matches!(net.value(a, 0, &ctx), Err(Error::NameNotFound)));
    assert!(matches!(net.value(c, 0, &ctx), Err(Error::NameNotFound)));
    assert_eq!(net.runs(), runs);
    net.set_expression(a, 0, Expr::new("'text'")).unwrap();
    assert!(matches!(net.value(b, 0, &ctx), Err(Error::TypeError)));
    assert!(matches!(net.value(c, 0, &ctx), Err(Error::TypeError)));
    net.set_expression(a, 0, Expr::new("error('boom')")).unwrap();
    assert!(matches!(net.value(b, 0, &ctx), Err(Error::LuaError(_))));
    assert!(matches!(net.value(c, 0, &ctx), Err(Error::LuaError(_))));
    net.set_expression(a, 0, Expr::new("2")).unwrap();
    assert_eq!(number(net.value(c, 0, &ctx)), 6.0);
}

#[test]
fn edit_marks_exactly_the_dependents() {
    let (mut net, [a, b, c, d]) = chain();
    let ctx = Clock { time: 0.0 };
    net.refresh(&ctx);
    for id in [a, b, c, d] {
        assert!(!net.get_param(id, 0).unwrap().is_dirty());
    }
    net.set_expression(b, 0, Expr::new("p('../A/x') + 2")).unwrap();
    assert!(!net.get_param(a, 0).unwrap().is_dirty());
    assert!(net.get_param(b, 0).unwrap().is_dirty());
    assert!(net.get_param(c, 0).unwrap().is_dirty());
    assert!(!net.get_param(d, 0).unwrap().is_dirty());
    assert_eq!(net.dependents(&vec![(b.raw, 0)]), vec![(b.raw, 0), (c.raw, 0)]);
    assert_eq!(net.dependents(&vec![(d.raw, 0)]), vec![(d.raw, 0)]);
    assert_eq!(net.dependencies((c.raw, 0)), vec![(b.raw, 0)]);
    assert!(net.dependencies((a.raw, 0)).is_empty());
    assert!(net.reaches_any((a.raw, 0), &vec![(c.raw, 0)]));
    assert!(!net.reaches_any((c.raw, 0), &vec![(a.raw, 0), (d.raw, 0)]));
    assert_eq!(number(net.value(c, 0, &ctx)), 6.0);
}

#[test]
fn refused_edit_changes_nothing() {
    let (mut net, [a, b, c, _d]) = chain();
    let refused = net.set_expression(a, 0, Expr::new("p('../C/z')")).unwrap_err();
    assert!(matches!(refused.error, Error::CycleDetected));
    assert_eq!(refused.path, vec![(a.raw, 0), (b.raw, 0), (c.raw, 0), (a.raw, 0)]);
    assert_eq!(
        refused.message(),
        format!("dependency cycle detected: {0}:0 -> {1}:0 -> {2}:0 -> {0}:0", a.raw, b.raw, c.raw)
    );
    let refused = net.set_expression(a, 0, Expr::new("p('x')")).unwrap_err();
    assert!(matches!(refused.error, Error::CycleDetected));
    assert_eq!(refused.path, vec![(a.raw, 0), (a.raw, 0)]);
    let refused = net.set_expression(a, 0, Expr::new("p('../E/x')")).unwrap_err();
    assert!(matches!(refused.error, Error::NameNotFound));
    assert!(refused.path.is_empty());
    assert_eq!(refused.message(), "name not found");
    let refused = net.set_expression(a, 5, Expr::new("1")).unwrap_err();
    assert!(matches!(refused.error, Error::IdNotFound));
    assert_eq!(net.get_param(a, 0).unwrap().expression().code(), "");
    assert!(!net.get_param(a, 0).unwrap().is_dirty());
    assert!(net.dependencies((a.raw, 0)).is_empty());
    assert_eq!(net.dependencies((b.raw, 0)), vec![(a.raw, 0)]);
    assert_eq!(net.get_param(c, 0).unwrap().expression().code(), "p('../B/y') * 2");
}

#[test]
fn computed_reference_is_followed_and_recorded() {
    let (mut net, [a, _b, _c, d]) = chain();
    let ctx = Clock { time: 0.0 };
    net.set_expression(d, 0, Expr::new("p('../' .. 'A' .. '/x') + 0.5")).unwrap();
    assert!(net.dependencies((d.raw, 0)).is_empty());
    assert_eq!(number(net.value(d, 0, &ctx)), 1.5);
    assert_eq!(net.dependencies((d.raw, 0)), vec![(a.raw, 0)]);
    net.set_expression(a, 0, Expr::new("4")).unwrap();
    assert!(net.get_param(d, 0).unwrap().is_dirty());
    assert_eq!(number(net.value(d, 0, &ctx)), 4.5);
}

#[test]
fn computed_cycle_is_an_error_not_an_overflow() {
    let (mut net, [a, b, c, d]) = chain();
    let ctx = Clock { time: 0.0 };
    net.set_expression(a, 0, Expr::new("p('../D/' .. 'w')")).unwrap();
    net.set_expression(d, 0, Expr::new("p('../A/' .. 'x')")).unwrap();
    assert!(matches!(net.value(a, 0, &ctx), Err(Error::CycleDetected)));
    assert!(matches!(net.value(d, 0, &ctx), Err(Error::CycleDetected)));
    assert!(net.get_param(a, 0).unwrap().is_dirty());
    assert!(net.get_param(d, 0).unwrap().is_dirty());
    assert_eq!(net.refresh(&ctx), vec![(a.raw, 0), (b.raw, 0), (c.raw, 0), (d.raw, 0)]);
    assert!(matches!(net.value(c, 0, &ctx), Err(Error::CycleDetected)));
    net.set_expression(d, 0, Expr::new("8")).unwrap();
    assert_eq!(number(net.value(a, 0, &ctx)), 8.0);
    assert!(net.refresh(&ctx).is_empty());
    assert_eq!(number(net.value(c, 0, &ctx)), 18.0);
}

#[test]
fn long_chain_is_evaluated_from_its_far_end() {
    let mut net = Network::new();
    let root = net.root();
    let n = net.create(root, "n").unwrap();
    let count = 256;
    for i in 0..count {
        net.add_param(n, &format!("k{}", i), num(0.0)).unwrap();
    }
    for i in 1..count {
        net.set_expression(n, i, Expr::new(&format!("p('k{}') + 1", i - 1))).unwrap();
    }
    let ctx = Clock { time: 0.0 };
    assert_eq!(net.upstream((n.raw, 2)), vec![(n.raw, 2), (n.raw, 1), (n.raw, 0)]);
    assert_eq!(number(net.value(n, count - 1, &ctx)), (count - 1) as f64);
    assert_eq!(net.runs(), (count - 1) as u64);
}

#[test]
fn computed_references_nest_as_deeply_as_they_go() {
    let mut net = Network::new();
    let root = net.root();
    let n = net.create(root, "n").unwrap();
    let count = 200;
    for i in 0..count {
        net.add_param(n, &format!("k{}", i), num(0.0)).unwrap();
    }
    for i in 1..count {
        net.set_expression(n, i, Expr::new(&format!("p('k' .. '{}') + 1", i - 1))).unwrap();
    }
    let ctx = Clock { time: 0.0 };
    assert_eq!(number(net.value(n, count - 1, &ctx)), (count - 1) as f64);
    assert!(!net.get_param(n, count - 1).unwrap().is_dirty());
    assert!(!net.get_param(n, 1).unwrap().is_dirty());
    assert_eq!(net.dependencies((n.raw, count - 1)), vec![(n.raw, count - 2)]);
    let runs = net.runs();
    assert_eq!(number(net.value(n, count - 1, &ctx)), (count - 1) as f64);
    assert_eq!(net.runs(), runs);
}

#[test]
fn refresh_leaves_nothing_dirty() {
    let (mut net, [a, b, c, d]) = chain();
    let ctx = Clock { time: 3.0 };
    net.set_expression(d, 0, Expr::new("v('time') + p('../C/z')")).unwrap();
    net.refresh(&ctx);
    for id in [a, b, c, d] {
        assert!(!net.get_param(id, 0).unwrap().is_dirty());
    }
    assert!(matches!(net.get_param(d, 0).unwrap().cached(), Ok(Value::Number(bits)) if bits == 7.0f64.to_bits()));
    let runs = net.runs();
    net.refresh(&ctx);
    assert_eq!(net.runs(), runs);
}

#[test]
fn read_of_unknown_parameter_fails() {
    let (mut net, [a, _b, _c, _d]) = chain();
    let ctx = Clock { time: 0.0 };
    assert!(matches!(net.value(a, 1, &ctx), Err(Error::IdNotFound)));
    assert!(matches!(net.value(GenericNodeId { raw: 1 }, 0, &ctx), Err(Error::IdNotFound)));
}

#[test]
fn walks_follow_the_dependencies() {
    let (net, [a, b, c, d]) = chain();
    assert_eq!(
        net.walk_between((a.raw, 0), (c.raw, 0)),
        Some(vec![(a.raw, 0), (b.raw, 0), (c.raw, 0)])
    );
    assert_eq!(net.walk_between((a.raw, 0), (a.raw, 0)), Some(vec![(a.raw, 0)]));
    assert_eq!(net.walk_between((c.raw, 0), (a.raw, 0)), None);
    assert_eq!(net.walk_between((a.raw, 0), (d.raw, 0)), None);
    assert_eq!(net.upstream((c.raw, 0)), vec![(c.raw, 0), (b.raw, 0), (a.raw, 0)]);
}

#[test]
fn refused_cycle_is_spelled_out() {
    let (net, [a, b, c, _d]) = chain();
    let closing = Expr::new("p('../C/z') + 1");
    assert_eq!(
        net.offending_path(a, 0, &closing),
        Some(vec![(a.raw, 0), (b.raw, 0), (c.raw, 0), (a.raw, 0)])
    );
    assert_eq!(
        net.offending_path(a, 0, &Expr::new("p('x')")),
        Some(vec![(a.raw, 0), (a.raw, 0)])
    );
    assert_eq!(net.offending_path(c, 0, &Expr::new("p('../A/x')")), None);
    assert_eq!(net.offending_path(a, 0, &Expr::new("p('../E/x')")), None);
    assert_eq!(net.offending_path(a, 7, &closing), None);
}

#[test]
fn refresh_copes_with_a_chain_made_back_to_front() {
    let mut net = Network::new();
    let root = net.root();
    let n = net.create(root, "n").unwrap();
    let count = 192;
    for i in 0..count {
        net.add_param(n, &format!("k{}", i), num(0.0)).unwrap();
    }
    for i in 0..count - 1 {
        net.set_expression(n, i, Expr::new(&format!("p('k{}') + 1", i + 1))).unwrap();
    }
    let ctx = Clock { time: 0.0 };
    net.refresh(&ctx);
    assert!(matches!(net.get_param(n, 0).unwrap().cached(), Ok(Value::Number(b)) if b == ((count - 1) as f64).to_bits()));
}

#[test]
fn refresh_order_puts_dependencies_first() {
    let (mut net, [a, b, c, d]) = chain();
    let ctx = Clock { time: 0.0 };
    assert_eq!(net.dirty_params(), vec![(b.raw, 0), (c.raw, 0)]);
    assert_eq!(net.refresh_order(), vec![(b.raw, 0), (c.raw, 0)]);
    net.set_expression(a, 0, Expr::new("p('../D/w') + 1")).unwrap();
    net.set_expression(d, 0, Expr::new("4")).unwrap();
    assert_eq!(net.refresh_order(), vec![(d.raw, 0), (a.raw, 0), (b.raw, 0), (c.raw, 0)]);
    net.refresh(&ctx);
    assert!(net.refresh_order().is_empty());
    assert_eq!(number(net.value(c, 0, &ctx)), 12.0);
    assert_eq!(net.runs(), 4);
}

#[test]
fn text_parameters_are_read_as_text() {
    let mut net = Network::new();
    let root = net.root();
    let a = net.create(root, "A").unwrap();
    net.add_param(a, "s", Value::String("shot".to_string())).unwrap();
    net.add_param(a, "t", num(0.0)).unwrap();
    net.set_expression(a, 1, Expr::new("p('s') .. '-' .. p(\"/A/s\")")).unwrap();
    let ctx = Clock { time: 0.0 };
    assert_eq!(text(net.value(a, 1, &ctx)), "shot-shot");
    assert_eq!(net.dependencies((a.raw, 1)), vec![(a.raw, 0)]);
}

#[test]
fn several_computed_references_take_several_runs() {
    let (mut net, [a, b, c, d]) = chain();
    let ctx = Clock { time: 0.0 };
    net.refresh(&ctx);
    let runs = net.runs();
    net.set_expression(d, 0, Expr::new("local s = 0; for _, n in ipairs({'A/x', 'B/y', 'C/z'}) do s = s + p('../' .. n) end; return s")).unwrap();
    assert_eq!(number(net.value(d, 0, &ctx)), 7.0);
    assert_eq!(net.runs(), runs + 4);
    let mut deps = net.dependencies((d.raw, 0));
    deps.sort();
    let mut expected = vec![(a.raw, 0), (b.raw, 0), (c.raw, 0)];
    expected.sort();
    assert_eq!(deps, expected);
    assert_eq!(number(net.value(d, 0, &ctx)), 7.0);
    assert_eq!(net.runs(), runs + 4);
    net.set_expression(a, 0, Expr::new("2")).unwrap();
    assert_eq!(number(net.value(d, 0, &ctx)), 11.0);
}

#[test]
fn many_computed_references_are_followed() {
    let mut net = Network::new();
    let root = net.root();
    let n = net.create(root, "n").unwrap();
    let count = 100;
    for i in 0..count {
        net.add_param(n, &format!("k{}", i), num(1.0)).unwrap();
    }
    let sum = net.add_param(n, "sum", num(0.0)).unwrap();
    let code = format!("local s = 0; for i = 0, {} do s = s + p('k' .. i) end; return s", count - 1);
    net.set_expression(n, sum, Expr::new(&code)).unwrap();
    let ctx = Clock { time: 0.0 };
    assert_eq!(number(net.value(n, sum, &ctx)), count as f64);
    assert!(!net.get_param(n, sum).unwrap().is_dirty());
    assert_eq!(net.dependencies((n.raw, sum)).len(), count);
    assert_eq!(net.runs(), count as u64 + 1);
    assert!(net.refresh(&ctx).is_empty());
}

#[test]
fn reference_to_a_missing_parameter_is_a_name_error_at_read() {
    let (mut net, [a, _b, _c, d]) = chain();
    let ctx = Clock { time: 0.0 };
    net.set_expression(d, 0, Expr::new("p('../A/' .. 'nope')")).unwrap();
    assert!(matches!(net.value(d, 0, &ctx), Err(Error::NameNotFound)));
    net.set_expression(d, 0, Expr::new("p('../Z/' .. 'x') or 3")).unwrap();
    assert!(matches!(net.value(d, 0, &ctx), Err(Error::NameNotFound)));
    assert!(net.contains(a));
}

#[test]
fn finish_decides_what_is_cached() {
    let (mut net, [a, b, c, d]) = chain();
    let key = (d.raw, 0);
    // a clean parameter is answered from its cache
    assert_eq!(number(net.finish(key, ScriptOutcome::Number(0), vec![], None)), 10.0);
    net.set_expression(d, 0, Expr::new("1")).unwrap();
    // no such parameter, or a record of something that is no parameter
    assert!(matches!(net.finish((d.raw, 9), ScriptOutcome::Number(0), vec![], None), Err(Error::IdNotFound)));
    assert!(matches!(net.finish(key, ScriptOutcome::Number(0), vec![(a.raw, 5)], None), Err(Error::IdNotFound)));
    // what was read is still dirty: nothing is cached
    let res = net.finish(key, ScriptOutcome::Number(0), vec![(b.raw, 0)], Some(Error::TypeError));
    assert!(matches!(res, Err(Error::TypeError)));
    assert!(net.get_param(d, 0).unwrap().is_dirty());
    assert_eq!(net.dependencies(key), vec![(b.raw, 0)]);
    let res = net.finish(key, ScriptOutcome::Number(0), vec![(b.raw, 0)], None);
    assert!(matches!(res, Err(Error::Other)));
    // what was read is clean: the result is cached
    let res = net.finish(key, ScriptOutcome::Number(3.0f64.to_bits()), vec![(a.raw, 0)], None);
    assert_eq!(number(res), 3.0);
    let p = net.get_param(d, 0).unwrap();
    assert!(!p.is_dirty());
    assert_eq!(p.refs, vec![(a.raw, 0)]);
    assert_eq!(net.dependencies(key), vec![(a.raw, 0)]);
    assert_eq!(net.runs(), 0);
    // a failure is cached as well
    net.set_expression(d, 0, Expr::new("2")).unwrap();
    let res = net.finish(key, ScriptOutcome::Unsupported, vec![], None);
    assert!(matches!(res, Err(Error::TypeError)));
    assert!(matches!(net.get_param(d, 0).unwrap().cached(), Err(Error::TypeError)));
    assert!(net.dependencies(key).is_empty());
    // what was read depends on the parameter: a cycle, and nothing changes
    net.set_expression(a, 0, Expr::new("1")).unwrap();
    let res = net.finish((a.raw, 0), ScriptOutcome::Number(0), vec![(c.raw, 0)], None);
    assert!(matches!(res, Err(Error::CycleDetected)));
    assert!(net.dependencies((a.raw, 0)).is_empty());
    assert!(net.get_param(a, 0).unwrap().is_dirty());
}

#[test]
fn dirty_read_runs_a_script() {
    let (mut net, [_a, b, _c, _d]) = chain();
    let ctx = Clock { time: 0.0 };
    let before = net.runs();
    assert!(net.get_param(b, 0).unwrap().is_dirty());
    let _ = net.value(b, 0, &ctx);
    assert!(net.runs() > before);
}

#[test]
fn ties_in_a_refresh_go_by_creation() {
    let mut net = Network::new();
    let root = net.root();
    let a = net.create(root, "A").unwrap();
    let b = net.create(root, "B").unwrap();
    net.delete(a).unwrap();
    let first = net.add_param(b, "first", num(0.0)).unwrap();
    // the node C takes the slot that A has left, before the node B
    let c = net.create(root, "C").unwrap();
    let second = net.add_param(c, "second", num(0.0)).unwrap();
    let third = net.add_param(b, "third", num(0.0)).unwrap();
    net.set_expression(b, third, Expr::new("3")).unwrap();
    net.set_expression(c, second, Expr::new("2")).unwrap();
    net.set_expression(b, first, Expr::new("1")).unwrap();
    let keys = net.node_keys();
    let at = |k: u64| keys.iter().position(|x| *x == k).unwrap();
    assert!(at(c.raw) < at(b.raw));
    assert_eq!(net.refresh_order(), vec![(b.raw, first), (c.raw, second), (b.raw, third)]);
    assert_eq!(net.get_param(b, first).unwrap().serial, 0);
    assert_eq!(net.get_param(c, second).unwrap().serial, 1);
    assert_eq!(net.get_param(b, third).unwrap().serial, 2);
}

#[test]
fn queries_answer_for_what_is_not_there() {
    let (net, [a, b, c, _d]) = chain();
    let nowhere = (77u64, 5usize);
    assert_eq!(net.dependents(&vec![nowhere]), vec![nowhere]);
    assert_eq!(net.upstream(nowhere), vec![nowhere]);
    assert_eq!(net.walk_between(nowhere, nowhere), Some(vec![nowhere]));
    assert_eq!(net.walk_between(nowhere, (a.raw, 0)), None);
    assert!(!net.reaches_any(nowhere, &vec![(c.raw, 0)]));
    assert!(net.reaches_any(nowhere, &vec![nowhere]));
    let dead = GenericNodeId { raw: 77 };
    assert_eq!(net.find_param(dead, &"x".to_string()), None);
    assert_eq!(net.child_named(dead, &"x".to_string()), None);
    assert!(matches!(net.resolve_ref(dead, "/A/x"), Err(Error::IdNotFound)));
    assert!(matches!(net.static_refs(dead, "1"), Err(Error::IdNotFound)));
    assert_eq!(net.static_refs(a, "p('../B/y') + p('x')").unwrap(), vec![(b.raw, 0), (a.raw, 0)]);
}
