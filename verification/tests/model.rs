//! Reading models from text.

use fidget_core::context::{Context, Tree};
use fidget_kernels::model::load_model;

/// Loads a text that is a model, and compares it with the tree it should be
fn same(text: &str, want: Tree) {
    let tree = load_model(text).unwrap();
    let mut ctx = Context::new();
    assert_eq!(ctx.import(&tree), ctx.import(&want));
}

#[test]
fn models_are_read() {
    let (x, y, z) = Tree::axes();
    same("a var-x", x.clone());
    same(
        "# a circle\n\na var-x\nb square a\nc var-y\nd square c\n\
         e add b d\nf sqrt e\ng const 1\nh sub f g\n",
        (x.clone().square() + y.clone().square()).sqrt() - 1.0,
    );
    // Line ends, blanks, and words that are left over
    same("a var-x\r\n\r\n  b\tneg\u{2003}a and more\r\n", -x.clone());
    // Names can be used again
    same("a var-x\na neg a\na sin a", (-x.clone()).sin());
    same(
        "a var-x\nb var-y\nc var-z\nd min a b\ne max d c\nf compare e a\n\
         g mod f b\nh and g a\ni or h b\nj mix i c\nk atan2 j a\nl div k b\n\
         m mul l c",
        (x.clone().min(y.clone()).max(z.clone()))
            .compare(x.clone())
            .modulo(y.clone())
            .and(x.clone())
            .or(y.clone())
            .mix(z.clone())
            .atan2(x.clone())
            / y.clone()
            * z.clone(),
    );
    let mut unary = x.clone();
    let mut text = "v var-x\n".to_owned();
    for op in [
        "abs", "neg", "sqrt", "square", "floor", "ceil", "round", "sin", "cos",
        "tan", "asin", "acos", "atan", "ln", "not", "rand", "exp",
    ] {
        text += &format!("v {op} v\n");
        unary = match op {
            "abs" => unary.abs(),
            "neg" => -unary,
            "sqrt" => unary.sqrt(),
            "square" => unary.square(),
            "floor" => unary.floor(),
            "ceil" => unary.ceil(),
            "round" => unary.round(),
            "sin" => unary.sin(),
            "cos" => unary.cos(),
            "tan" => unary.tan(),
            "asin" => unary.asin(),
            "acos" => unary.acos(),
            "atan" => unary.atan(),
            "ln" => unary.ln(),
            "not" => unary.not(),
            "rand" => unary.rand(),
            _ => unary.exp(),
        };
    }
    same(&text, unary);
}

/// What is accepted as a model is read in the same way by the context
#[test]
fn models_are_read_like_the_context_does() {
    for text in [
        "a var-z",
        "a const 2\nb var-x\nc mul a b\nd add c c",
        "#\n# b foo\na var-y\n",
    ] {
        let (ctx, root) = Context::from_text(text.as_bytes()).unwrap();
        same(text, ctx.export(root).unwrap());
    }
    // Errors, rather than panics
    for text in ["", "# nothing\n", "a foo", "a neg b", "a var-x\nb add a c"] {
        assert!(Context::from_text(text.as_bytes()).is_err());
        assert!(load_model(text).is_none());
    }
}

#[test]
fn numbers_are_read() {
    for n in [
        "1", "007", "-2.5", "+3.", ".5", "-.5e3", "1e5", "2.5E-10", "2.5e+10",
        "inf", "-INF", "+Infinity", "nan", "-NaN", "1e999",
    ] {
        let v: f32 = n.parse().unwrap();
        let tree = load_model(&format!("a const {n}")).unwrap();
        let mut ctx = Context::new();
        assert_eq!(ctx.import(&tree), ctx.constant(v), "{n}");
    }
    for n in [
        ".", "e5", "1e", "1e+", "--1", "+", "1_000", "0x10", "infinit", "1.2.3",
        "nano", "1,5", "\u{664}",
    ] {
        assert!(n.parse::<f32>().is_err());
        assert!(load_model(&format!("a const {n}")).is_none(), "{n}");
    }
}

#[test]
fn incomplete_operations_are_refused() {
    for text in [
        "a",
        "a const",
        "a neg",
        "a var-x\nb add a",
        "a var-x\n \n",
        "a var-x\n\r",
        "a var-x\nb neg b",
        "b neg a\na var-x",
        "a var-w",
        "a recip a",
    ] {
        assert!(load_model(text).is_none(), "{text:?}");
    }
}
