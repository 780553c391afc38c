use neant::compile::compile;

fn said(src: &str) -> String {
    match compile(&format!("{}\nfn main() {{ }}\n", src)) {
        Ok(_) => "compiles".to_string(),
        Err(d) => d.msg.to_string(),
    }
}

#[test]
fn what_the_lexer_refuses() {
    let cases = [
        ("fn f() { let x = b'ab'; }", "a byte literal `b'..'` holds exactly one byte"),
        ("fn f() { let x = b'", "byte literal runs past the end of the line"),
        ("fn f() { let x = b'\\q'; }", "unknown escape `\\q`"),
        ("fn f() { let x = b'é'; }", "byte literals hold ASCII only"),
        ("fn f() { let x = 9223372036854775808; }", "integer literal `9223372036854775808` does not fit in i64"),
        ("#[cost(work_at_most = \"n\n\")]", "string runs past the end of the line"),
        ("fn f() { $ }", "unexpected character `$`"),
    ];
    for (src, msg) in cases {
        assert_eq!(said(src), msg, "{}", src);
    }
}

#[test]
fn what_the_parser_refuses() {
    let cases = [
        ("#[layout(xyz)]\nstruct P { x: i64 }", "`#[layout(...)]` takes `aos` or `soa`"),
        ("#[cost(a = \"1\")]\nstruct P { x: i64 }", "`#[cost]` does not apply to a struct; only `#[layout(aos)]` / `#[layout(soa)]`"),
        ("#[fast(a = \"1\")]\nfn f() { }", "unknown attribute `fast` on a function; only `#[cost(...)]` exists"),
        ("#[cost(fast)]\nfn f() { }", "`#[cost(...)]` takes `key = \"expr\"` pairs"),
        ("#[cost(work = n)]\nfn f() { }", "an attribute value is a string: `\"n log n\"`"),
        ("fn f() { let x = []; }", "empty array literal has no element type"),
        ("fn f() { let x: ; }", "expected a type, found `;`"),
    ];
    for (src, msg) in cases {
        assert_eq!(said(src), msg, "{}", src);
    }
}

#[test]
fn what_the_declarations_may_not_be() {
    let cases = [
        ("struct P { x: i64 }\nstruct P { y: i64 }", "struct `P` is defined twice"),
        ("struct i64 { x: i64 }", "`i64` is a builtin type"),
        ("struct P { x: i64, x: f64 }", "field `x` is declared twice"),
        ("struct P { }", "struct `P` has no fields"),
        ("fn f() { }\nfn f() { }", "function `f` is defined twice"),
        ("fn println() { }", "`println` is a builtin"),
        ("fn f(x: i64, x: i64) { }", "parameter `x` is declared twice"),
        ("fn f(x: Foo) { }", "unknown type `Foo`"),
        ("fn f() -> i64 { }", "`f` returns `i64` but its body has no value"),
        ("fn f() -> i64 { true }", "`f` returns `i64`, but its body has type `bool`"),
    ];
    for (src, msg) in cases {
        assert_eq!(said(src), msg, "{}", src);
    }
    match compile("fn f() { }") {
        Ok(_) => panic!("compiles"),
        Err(d) => assert_eq!((d.line, d.col, d.msg.as_str()), (1, 1, "no `fn main()`")),
    }
    match compile("fn main() -> i64 { 1 }") {
        Ok(_) => panic!("compiles"),
        Err(d) => assert_eq!(d.msg.as_str(), "`main` takes no parameters and returns `()`"),
    }
}

#[test]
fn what_statements_may_not_do() {
    let cases = [
        ("fn f() { x = 1; }", "unknown variable `x`"),
        ("fn f() { let x = 1; x = 2; }", "`x` is not mutable; declare it with `let mut`"),
        ("fn f() { let mut x = 1; x = true; }", "assigning `bool` to a `i64`"),
        ("fn f() { let mut x = true; x += true; }", "`+=` needs a numeric target, found `bool`"),
        ("fn f(xs: &[i64]) { xs[0] = 1; }", "`xs` is a `&[T]` view; writing needs `&mut [T]`"),
        ("fn f(xs: &mut [i64]) { xs[true] = 1; }", "index must be `i64`, found `bool`"),
        ("fn f() { let mut x = 1; x[0] = 1; }", "cannot index a value of type `i64`"),
        ("fn f() { for i in 0..true { } }", "range bounds must be `i64`"),
        ("fn f() { for i in 0..3 { 1 } }", "a loop body has type `()`, found `i64`"),
        ("fn f() { while 1 { } }", "`while` condition is `i64`, not `bool`"),
        ("fn f() { break; }", "`break` outside a loop"),
        ("fn f() -> i64 { return true; 1 }", "returning `bool` from a function that returns `i64`"),
        ("fn f() { let x: f64 = 1; }", "declared `f64` but the value has type `i64`"),
        ("fn f() { let a = [1, true]; }", "array elements differ in type: `i64` and `bool`"),
    ];
    for (src, msg) in cases {
        assert_eq!(said(src), msg, "{}", src);
    }
}

#[test]
fn what_expressions_may_not_be() {
    let cases = [
        ("fn f(x: f64, n: i64) -> f64 { x + n }", "`+` between `f64` and `i64`; no implicit conversion, use `as`"),
        ("fn f(x: bool) -> bool { x + x }", "`+` on `bool`"),
        ("fn f(x: bool) -> bool { x < x }", "ordering comparison on `bool`"),
        ("fn f(x: i64) -> bool { x && x }", "`&&` needs `bool`, found `i64`"),
        ("fn f(x: bool) -> bool { -x }", "`-` on `bool`"),
        ("fn f(x: i64) -> bool { !x }", "`!` on `i64`"),
        ("fn f(x: i64) -> i64 { x.y }", "`.y` on a `i64`, which is not a struct"),
        ("struct P { x: i64 }\nfn f(p: P) -> i64 { p.y }", "`P` has no field `y`"),
        ("struct P { x: i64 }\nfn f() -> i64 { let p = P { x: true }; 1 }", "field `x` is `i64`, given `bool`"),
        ("struct P { x: i64, y: i64 }\nfn f() -> i64 { let p = P { x: 1 }; 1 }", "`P` literal is missing field `y`"),
        ("fn f() -> i64 { g(1) }", "unknown function `g`"),
        ("fn g(x: i64) -> i64 { x }\nfn f() -> i64 { g() }", "`g` takes 1 argument(s), 0 given"),
        ("fn g(x: i64) -> i64 { x }\nfn f() -> i64 { g(true) }", "argument of type `bool` where `i64` is expected"),
        ("fn f() { println(); }", "`println` takes one argument"),
        ("fn f(x: i64) -> i64 { x.len() }", "`.len()` on `i64`"),
        ("fn f(x: bool) -> i64 { x as i64 }", "`as` converts between `i64`, `f64` and `u8`; found `bool` as `i64`"),
        ("fn f(x: i64) -> i64 { if x { 1 } else { 2 } }", "`if` condition is `i64`, not `bool`"),
        ("fn f(x: bool) -> i64 { if x { 1 } else { true } }", "`if` branches have types `i64` and `bool`"),
        ("fn f(x: bool) { if x { 1 } }", "`if` without `else` has type `()`, but the branch has type `i64`"),
    ];
    for (src, msg) in cases {
        assert_eq!(said(src), msg, "{}", src);
    }
}

#[test]
fn what_chains_may_not_be() {
    let cases = [
        ("fn f(xs: &[i64]) -> i64 { xs.iter().map(1).sum() }", "`.map()` takes a closure"),
        ("fn f(xs: &[bool]) -> i64 { xs.iter().sum() }", "`.sum()` needs one numeric value per element, found `bool`"),
        ("fn f(xs: &[i64]) -> i64 { xs.iter().filter(|x| x).sum() }", "a `filter` closure must produce `bool`, found `i64`"),
        ("fn f(xs: &[i64]) -> i64 { xs.iter().map(|x, y| x).sum() }", "closure takes 2 argument(s) but 1 value(s) flow into it"),
        ("fn f(xs: &[i64]) -> i64 { xs.iter().fold(0, |a, x| true) }", "the fold closure returns `bool` but the accumulator is `i64`"),
        ("fn f(xs: &[i64]) -> i64 { xs.iter().sum(1) }", "`.sum()` takes no arguments"),
    ];
    for (src, msg) in cases {
        assert_eq!(said(src), msg, "{}", src);
    }
}

#[test]
fn an_array_that_was_moved_is_gone() {
    let src = "fn f() -> i64 {\n  let mut a = [0; 4];\n  let b = a;\n  a[0]\n}";
    assert_eq!(said(src), "`a` was moved at line 3; using it again is an error");
}

#[test]
fn what_compiles() {
    let sources = [
        "struct P { x: f64, y: f64 }\nfn norm(p: P) -> f64 { p.x * p.x + p.y * p.y }",
        "fn dot(a: &[f64], b: &[f64]) -> f64 { a.iter().zip(b).map(|x, y| x * y).sum() }",
        "fn odd(xs: &[i64]) -> i64 { xs.iter().filter(|x| x % 2 == 1).count() }",
        "fn most(xs: &[i64]) -> i64 { xs.iter().fold(0, |a, x| if a < x { x } else { a }) }",
        "fn fill(xs: &mut [u8]) { for i in 0..xs.len() { xs[i] = b'a'; } }",
        "extern fn read(n: i64) -> i64 uses io;",
    ];
    for src in sources {
        assert_eq!(said(src), "compiles", "{}", src);
    }
}

const STRUCTS_GOOD: &[(&str, &str)] = &[
    ("literal and field read", "struct P { x: i64, y: i64 }
fn main() { let p = P { x: 1, y: 2 }; println(p.x + p.y); }"),
    ("fields out of order", "struct P { x: i64, y: i64 }
fn main() { let p = P { y: 2, x: 1 }; println(p.x); }"),
    ("mixed field types", "struct P { x: i64, f: f64, b: bool }
fn main() { let p = P { x: 1, f: 2.0, b: true }; if p.b { println(p.x); } }"),
    ("struct parameter and return", "struct P { x: i64, y: i64 }
fn mk(a: i64) -> P { P { x: a, y: a + 1 } }
fn sum(p: P) -> i64 { p.x + p.y }
fn main() { println(sum(mk(3))); }"),
    ("field assignment", "struct P { x: i64, y: i64 }
fn main() { let mut p = P { x: 1, y: 2 }; p.x = 7; p.y += 1; println(p.x + p.y); }"),
    ("two structs with a shared field name", "struct A { v: i64 }
struct B { v: f64 }
fn main() { let a = A { v: 1 }; let b = B { v: 2.0 }; println(a.v); println(b.v); }"),
];

const STRUCTS_BAD: &[(&str, &str)] = &[
    ("unknown field read", "struct P { x: i64, y: i64 }
fn main() { let p = P { x: 1, y: 2 }; println(p.z); }"),
    ("field missing from the literal", "struct P { x: i64, y: i64 }
fn main() { let p = P { x: 1 }; println(p.x); }"),
    ("a field given twice, one omitted", "struct P { x: i64, y: i64 }
fn main() { let p = P { x: 1, x: 2 }; println(p.x); }"),
    ("field value of the wrong type", "struct P { x: i64, y: i64 }
fn main() { let p = P { x: 1, y: 2.0 }; println(p.x); }"),
    ("unknown field in the literal", "struct P { x: i64, y: i64 }
fn main() { let p = P { x: 1, z: 2 }; println(p.x); }"),
    ("a field read off a non-struct", "fn main() { let n = 1; println(n.x); }"),
    ("a struct field written through a non-`mut` binding", "struct P { x: i64, y: i64 }
fn main() { let p = P { x: 1, y: 2 }; p.x = 7; println(p.x); }"),
    ("an unknown type named in a signature", "fn f(p: Q) -> i64 { 1 }
fn main() { println(1); }"),
    ("a struct field whose type is another struct", "struct A { v: i64 }
struct B { a: A }
fn main() { println(1); }"),
    ("a struct where a scalar is wanted", "struct P { x: i64 }
fn main() { let p = P { x: 1 }; println(p.x + p); }"),
];

#[test]
fn struct_programs_are_told_apart() {
    for (what, src) in STRUCTS_GOOD {
        assert!(compile(&format!("{}\n", src)).is_ok(), "{}", what);
    }
    for (what, src) in STRUCTS_BAD {
        assert!(compile(&format!("{}\n", src)).is_err(), "{}", what);
    }
}
