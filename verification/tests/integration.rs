use wp_verifier::{verify, VerifierResult};

pub const ASSIGN_O: &str = r#"
var x
assume x >= 0
x := x + 1
assert x >= 1
"#;

pub const ASSIGN_1: &str = r#"
var x
assume x >= 0
x := x - 1
assert x >= 1
"#;

pub const ASSIGN_2: &str = r#"
var i, j
assume i > j
i := i + 1
j := j + 1
assert i > j + 1
"#;

pub const ASSIGN_3: &str = r#"
var x
assume (x + 3) * 2 > 6
x := x + 3
x := x * 2
assert x >= 6
"#;

pub const ASSIGN_4: &str = r#"
var a, b, t
t := a
a := b
b := t
assert a == b
"#;

pub const IF_0: &str = r#"
var x, y
if x > 0 then
    y := x
else
    y := 1
end
assert y > 0
"#;

pub const IF_1: &str = r#"
var x, y
assume x >= 0
if x > 0 then
    y := x
else
    y := 0
end
assert y > 0
"#;

pub const IF_2: &str = r#"
var x, y
assume x >= 0
if x > y then
    y := x
end
assert y >= x
"#;

pub const LOOP_TO_0: &str = r#"
var i, n
assume  0 < n
i := n
while 0 < i
invariant i <= n && i >= 0
    i := i - 1
end
assert i == 0
assert i <= n
"#;

pub const LOOP_TO_1: &str = r#"
var i, n
assume 0 < n
i := n
while 0 < i
invariant i <= n && i <= 0
    i := i - 1
end
assert i > 0
"#;

pub const MAX3_0: &str = r#"
var a, b, c, m
if a >= b then
    m := a
else
    m := b
end
if c >= m then
    m := c
end
assert m >= a && m >= b && m >= c
assert m == a || m == b || m == c
"#;

pub const MAX3_1: &str = r#"
var a, b, c, m
if a >= b then
    m := a
else
    m := b
end
if c > m then
    m := c + 1
end
assert m >= a && m >= b && m >= c
assert m == a || m == c || m == c
"#;

pub const MAX3_2: &str = r#"
var a, b, c, m
if a >= b then
    m := a
else
    m := b
end
if c > m then
    m := c + 1
end
assert m >= a && m >= b && m >= c
"#;

pub const MAX3_3: &str = r#"
var a, b, c, m
if a >= b then
    m := a
else
    m := b
end
assert m >= a && m >= b && m >= c
assert m == a || m == b || m == c
"#;

pub const SKIP_0: &str = r#"
var x
assume x >= 0
assert x >= 0
"#;

pub const SKIP_1: &str = r#"
var x
assume x >= 0
assert x == 0
"#;

pub const SLOW_COPY_0: &str = r#"
var x, y, inp, out
assume 0 <= inp
x := inp
y := 0
while 0 < x
invariant x >= 0 && y + x == inp
    x := x - 1
    y := y + 1
end
out := y
assert out == inp
"#;

pub const SLOW_COPY_1: &str = r#"
var x, y, inp, out
assume 0 <= inp
x := inp
y := 0
while 0 < x
invariant TRUE
    x := x - 1
    y := y + 1
end
assert out == inp
"#;

pub const SLOW_COPY_2: &str = r#"
var x, y, inp, out
assume 0 <= inp
x := inp
y := 0
while 0 < x
invariant x >= 0 && y + x == inp
    x := x - 1
    y := y + 2
end
out := y
assert out == inp
"#;

pub const SLOW_SQUARE_0: &str = r#"
var a, i, n
assume 0 <= n
a := 0
i := 0
while i < n
invariant i <= n && a == n * i
    i := i + 1
    a := a + n
end
assert a == n * n
"#;

pub const SLOW_SQUARE_1: &str = r#"
var a, i, n
assume 0 <= n
a := 0
i := 0
while i < n
invariant a == n * i
    i := i + 1
    a := a + n
end
assert a == n * n
"#;

pub const SWAP_0: &str = r#"
var a, b, t
if b < a then
    t := a
    a := b
    b := t
end
assert a <= b
"#;

pub const SWAP_1: &str = r#"
var a, b, t
if b < a then
    t := a
    a := t
end
assert a <= b
"#;

#[test]
fn assign_0() {
    assert_eq!(verify(ASSIGN_O).result, VerifierResult::Correct);
}

#[test]
fn assign_1() {
    assert_eq!(verify(ASSIGN_1).result, VerifierResult::Counterexample);
}

#[test]
fn assign_2() {
    assert_eq!(verify(ASSIGN_2).result, VerifierResult::Counterexample);
}

#[test]
fn assign_3() {
    assert_eq!(verify(ASSIGN_3).result, VerifierResult::Correct);
}

#[test]
fn assign_4() {
    assert_eq!(verify(ASSIGN_4).result, VerifierResult::Counterexample);
}

#[test]
fn skip_0() {
    assert_eq!(verify(SKIP_0).result, VerifierResult::Correct);
}

#[test]
fn skip_1() {
    assert_eq!(verify(SKIP_1).result, VerifierResult::Counterexample);
}

#[test]
fn swap_0() {
    assert_eq!(verify(SWAP_0).result, VerifierResult::Correct);
}

#[test]
fn swap_1() {
    assert_eq!(verify(SWAP_1).result, VerifierResult::Counterexample);
}

#[test]
fn if_0() {
    assert_eq!(verify(IF_0).result, VerifierResult::Correct);
}

#[test]
fn if_1() {
    assert_eq!(verify(IF_1).result, VerifierResult::Counterexample);
}

#[test]
fn if_2() {
    assert_eq!(verify(IF_2).result, VerifierResult::Correct);
}

#[test]
fn slow_copy_0() {
    assert_eq!(verify(SLOW_COPY_0).result, VerifierResult::Correct);
}

#[test]
fn slow_copy_1() {
    assert_eq!(verify(SLOW_COPY_1).result, VerifierResult::Counterexample);
}

#[test]
fn slow_copy_2() {
    assert_eq!(verify(SLOW_COPY_2).result, VerifierResult::Counterexample);
}

#[test]
fn loop_to_0() {
    assert_eq!(verify(LOOP_TO_0).result, VerifierResult::Correct);
}

#[test]
fn loop_to_1() {
    assert_eq!(verify(LOOP_TO_1).result, VerifierResult::Counterexample);
}

#[test]
fn max3_0() {
    assert_eq!(verify(MAX3_0).result, VerifierResult::Correct);
}

#[test]
fn max3_1() {
    assert_eq!(verify(MAX3_1).result, VerifierResult::Counterexample);
}

#[test]
fn max3_2() {
    assert_eq!(verify(MAX3_2).result, VerifierResult::Correct);
}

#[test]
fn max3_3() {
    assert_eq!(verify(MAX3_3).result, VerifierResult::Counterexample);
}

#[test]
fn slow_square_0() {
    assert_eq!(verify(SLOW_SQUARE_0).result, VerifierResult::Correct);
}

#[test]
fn slow_square_1() {
    assert_eq!(verify(SLOW_SQUARE_1).result, VerifierResult::Counterexample);
}

