use nodenet::error::Error;
use nodenet::eval::{EvalContext, Evaluator, FrameContext};
use nodenet::expr::{Expr, Value};
use nodenet::network::Network;

struct Frame {
    frame: i64,
    time: Option<f64>,
}

impl EvalContext for Frame {
    fn var(&self, name: &str) -> Result<Value, Error> {
        match (name, self.time) {
            ("frame", _) => Ok(Value::from(self.frame)),
            ("time", Some(t)) => Ok(Value::Number(t.to_bits())),
            _ => Err(Error::NameNotFound),
        }
    }
}

fn number(v: Result<Value, Error>) -> f64 {
    f64::from_bits(v.unwrap().as_number().unwrap())
}

#[test]
fn constant_expression_evaluates_to_number() {
    let mut ev = Evaluator::with_context(Frame { frame: 0, time: Some(1.0) });
    assert_eq!(number(ev.eval(&Expr::new("3.14159"))), 3.14159);
}

#[test]
fn context_variable_is_read() {
    let mut ev = Evaluator::with_context(Frame { frame: 0, time: Some(1.0) });
    assert_eq!(number(ev.eval(&Expr::new("v('time') * 2"))), 2.0);
}

#[test]
fn undefined_variable_is_a_name_error() {
    let mut ev = Evaluator::with_context(Frame { frame: 0, time: None });
    let res = ev.eval(&Expr::new("v('time') * 2"));
    assert!(matches!(res, Err(Error::NameNotFound)));
}

#[test]
fn dependent_follows_its_dependency() {
    let ctx = Frame { frame: 0, time: Some(1.0) };
    let mut net = Network::new();
    let root = net.root();
    let obj = net.create(root, "obj").unwrap();
    let a = net.create(obj, "A").unwrap();
    let b = net.create(obj, "B").unwrap();
    let x = net.add_param(a, "x", Value::Number(1.0f64.to_bits())).unwrap();
    let y = net.add_param(b, "y", Value::Number(0.0f64.to_bits())).unwrap();
    net.set_expression(b, y, Expr::new("p('../A/x') + 1.0")).unwrap();
    assert_eq!(number(net.value(b, y, &ctx)), 2.0);
    let runs = net.runs();
    assert_eq!(number(net.value(b, y, &ctx)), 2.0);
    assert_eq!(net.runs(), runs);
    net.set_expression(a, x, Expr::new("5.0")).unwrap();
    assert!(net.get_param(b, y).unwrap().is_dirty());
    assert_eq!(number(net.value(b, y, &ctx)), 6.0);
    assert_eq!(net.runs(), runs + 2);
}

#[test]
fn cycle_is_refused() {
    let mut net = Network::new();
    let root = net.root();
    let a = net.create(root, "A").unwrap();
    let b = net.create(root, "B").unwrap();
    let x = net.add_param(a, "x", Value::Number(1.0f64.to_bits())).unwrap();
    let y = net.add_param(b, "y", Value::Number(0.0f64.to_bits())).unwrap();
    net.set_expression(b, y, Expr::new("p('../A/x') + 1.0")).unwrap();
    let res = net.set_expression(a, x, Expr::new("p('../B/y')"));
    assert!(matches!(res.map_err(|r| r.error), Err(Error::CycleDetected)));
    assert_eq!(net.get_param(a, x).unwrap().expression().code(), "");
    assert_eq!(net.get_param(b, y).unwrap().expression().code(), "p('../A/x') + 1.0");
}

#[test]
fn script_cannot_reach_the_system() {
    let mut ev = Evaluator::with_context(Frame { frame: 0, time: Some(1.0) });
    assert!(matches!(ev.eval(&Expr::new("os.exit()")), Err(Error::TypeError)));
    assert!(matches!(ev.eval(&Expr::new("os.time()")), Err(Error::TypeError)));
    assert!(matches!(ev.eval(&Expr::new("io.read()")), Err(Error::TypeError)));
    assert!(matches!(ev.eval(&Expr::new("dofile()")), Err(Error::TypeError)));
    assert!(matches!(ev.eval(&Expr::new("require('os')")), Err(Error::TypeError)));
    assert!(matches!(ev.eval(&Expr::new("print(1)")), Err(Error::TypeError)));
    assert!(matches!(ev.eval(&Expr::new("coroutine.running()")), Err(Error::TypeError)));
    assert!(matches!(ev.eval(&Expr::new("math.random()")), Err(Error::TypeError)));
    assert!(matches!(ev.eval(&Expr::new("math.randomseed(1)")), Err(Error::TypeError)));
    assert!(matches!(ev.eval(&Expr::new("collectgarbage('count')")), Err(Error::TypeError)));
    assert_eq!(number(ev.eval(&Expr::new("math.floor(2.5) + #string.rep('a', 3)"))), 5.0);
    assert_eq!(number(ev.eval(&Expr::new("v('time') * 2"))), 2.0);
}

#[test]
fn script_that_asks_for_too_much_memory_fails() {
    let mut ev = Evaluator::with_context(Frame { frame: 0, time: Some(1.0) });
    assert!(matches!(ev.eval(&Expr::new("string.rep('x', 1 << 40)")), Err(Error::LuaError(_))));
    assert!(matches!(
        ev.eval(&Expr::new("local function f() return 1 + f() end return f()")),
        Err(Error::LuaError(_))
    ));
    assert_eq!(number(ev.eval(&Expr::new("1 + 1"))), 2.0);
}

#[test]
fn frame_context_knows_frame_and_time() {
    let ctx = FrameContext { frame: 7, time: 1.0f64.to_bits() };
    assert!(matches!(ctx.var("frame"), Ok(Value::Number(b)) if b == 7.0f64.to_bits()));
    assert!(matches!(ctx.var("time"), Ok(Value::Number(b)) if b == 1.0f64.to_bits()));
    assert!(matches!(ctx.var("speed"), Err(Error::NameNotFound)));
    assert!(matches!(ctx.var(""), Err(Error::NameNotFound)));
    let mut ev = Evaluator::with_context(ctx);
    assert_eq!(number(ev.eval(&Expr::new("v('time') * 2"))), 2.0);
    assert_eq!(number(ev.eval(&Expr::new("v('frame') + 1"))), 8.0);
    assert!(matches!(ev.eval(&Expr::new("v('speed') * 2")), Err(Error::NameNotFound)));
    assert!(nodenet::eval::same_text("a", "a") && !nodenet::eval::same_text("a", "b"));
}

#[test]
fn text_that_is_not_utf8_is_a_type_error() {
    let mut ev = Evaluator::with_context(Frame { frame: 0, time: Some(1.0) });
    assert!(matches!(ev.eval(&Expr::new("'\\xff\\xfe'")), Err(Error::TypeError)));
    assert!(matches!(ev.eval(&Expr::new("'\\xc3\\xa9'")), Ok(Value::String(s)) if s == "é"));
}
