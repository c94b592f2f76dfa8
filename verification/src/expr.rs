use vstd::prelude::*;
use vstd::string::{StrSliceExecFns, StringExecFns};

use crate::base94::{all_digit_chars, base94_val};
use crate::chars::{chars_of, lemma_char_eq, lemma_char_to_byte};
use crate::term::{Expr, ExprView};

verus! {

/// An application node: the wire format spells application as the binary
/// operator `$`.
pub open spec fn app_view(f: ExprView, x: ExprView) -> ExprView {
    ExprView::Binop('$', Box::new(f), Box::new(x))
}

/// A short name's numeric id: its raw bytes read as base-94 digits. There is
/// no symbol table; two distinct names may collide, and no check is made.
pub fn name_to_id(v: &str) -> (n: u64)
    requires
        all_digit_chars(v@),
        base94_val(v@) <= u64::MAX,
    ensures
        n as int == base94_val(v@),
{
    let k = v.unicode_len();
    let mut bytes: Vec<u8> = Vec::new();
    let mut i: usize = 0;
    #[verifier::loop_isolation(false)]
    while i < k
        invariant
            i <= k,
            chars_of(bytes@) == v@.take(i as int),
        decreases k - i,
    {
        let c = v.get_char(i);
        proof {
            assert(crate::base94::is_digit_char(v@[i as int]));
            lemma_char_to_byte(c);
        }
        let b: u8 = c as u8;
        bytes.push(b);
        proof {
            lemma_char_eq(b as char, c);
            assert(chars_of(bytes@) =~= v@.take(i + 1));
        }
        i += 1;
    }
    proof {
        assert(v@.take(k as int) =~= v@);
    }
    match crate::base94::parse_base94(bytes.as_slice()) {
        Ok(n) => n,
        Err(_) => {
            proof {
                assert(false);
            }
            0
        },
    }
}

/// A boolean literal term.
pub fn litbool(b: bool) -> (r: Expr)
    ensures
        r@ == ExprView::Bool(b),
{
    Expr::Bool(b)
}

/// A string literal term.
pub fn litstr(s: &str) -> (r: Expr)
    ensures
        r@ == ExprView::Str(s@),
{
    Expr::Str(String::from_str(s))
}

/// An integer literal term.
pub fn litnum(n: u64) -> (r: Expr)
    ensures
        r@ == ExprView::Int(n as int),
{
    Expr::Int(n)
}

/// The addition operator applied to two terms.
pub fn add(a: Expr, b: Expr) -> (r: Expr)
    ensures
        r@ == ExprView::Binop('+', Box::new(a@), Box::new(b@)),
{
    Expr::Binop('+', Box::new(a), Box::new(b))
}

/// The multiplication operator applied to two terms.
pub fn mul(a: Expr, b: Expr) -> (r: Expr)
    ensures
        r@ == ExprView::Binop('*', Box::new(a@), Box::new(b@)),
{
    Expr::Binop('*', Box::new(a), Box::new(b))
}

/// The subtraction operator applied to two terms.
pub fn sub(a: Expr, b: Expr) -> (r: Expr)
    ensures
        r@ == ExprView::Binop('-', Box::new(a@), Box::new(b@)),
{
    Expr::Binop('-', Box::new(a), Box::new(b))
}

/// The division operator applied to two terms.
pub fn div(a: Expr, b: Expr) -> (r: Expr)
    ensures
        r@ == ExprView::Binop('/', Box::new(a@), Box::new(b@)),
{
    Expr::Binop('/', Box::new(a), Box::new(b))
}

/// The remainder operator applied to two terms.
pub fn modulus(a: Expr, b: Expr) -> (r: Expr)
    ensures
        r@ == ExprView::Binop('%', Box::new(a@), Box::new(b@)),
{
    Expr::Binop('%', Box::new(a), Box::new(b))
}

/// The string concatenation operator applied to two terms.
pub fn concat(a: Expr, b: Expr) -> (r: Expr)
    ensures
        r@ == ExprView::Binop('.', Box::new(a@), Box::new(b@)),
{
    Expr::Binop('.', Box::new(a), Box::new(b))
}

/// One term applied to another.
pub fn app(a: Expr, b: Expr) -> (r: Expr)
    ensures
        r@ == app_view(a@, b@),
{
    Expr::Binop('$', Box::new(a), Box::new(b))
}

/// The equality operator applied to two terms.
pub fn equ(a: Expr, b: Expr) -> (r: Expr)
    ensures
        r@ == ExprView::Binop('=', Box::new(a@), Box::new(b@)),
{
    Expr::Binop('=', Box::new(a), Box::new(b))
}

/// A conditional term.
pub fn cond(cnd: Expr, a: Expr, b: Expr) -> (r: Expr)
    ensures
        r@ == ExprView::If(Box::new(cnd@), Box::new(a@), Box::new(b@)),
{
    Expr::If(Box::new(cnd), Box::new(a), Box::new(b))
}

/// A variable reference by name; the name's bytes, read as base-94 digits,
/// are its id.
pub fn vuse(v: &str) -> (r: Expr)
    requires
        all_digit_chars(v@),
        base94_val(v@) <= u64::MAX,
    ensures
        r@ == ExprView::Var(base94_val(v@)),
{
    let n = name_to_id(v);
    Expr::Var(n)
}

/// An abstraction over a named parameter; the name's bytes, read as base-94
/// digits, are the parameter's id.
pub fn lam(v: &str, body: Expr) -> (r: Expr)
    requires
        all_digit_chars(v@),
        base94_val(v@) <= u64::MAX,
    ensures
        r@ == ExprView::Lam(base94_val(v@), Box::new(body@)),
{
    let n = name_to_id(v);
    Expr::Lam(n, Box::new(body))
}

/// The views of a sequence of terms.
pub open spec fn exprs_view(es: Seq<Expr>) -> Seq<ExprView> {
    Seq::new(es.len(), |i: int| es[i]@)
}

/// The left-nested application of a head term to arguments, in order.
pub open spec fn spine_view(a: ExprView, bs: Seq<ExprView>) -> ExprView
    decreases bs.len(),
{
    if bs.len() == 0 {
        a
    } else {
        spine_view(app_view(a, bs[0]), bs.drop_first())
    }
}

/// Applies a head term to each argument in turn, left to right.
pub fn app_spine(a: Expr, b: Vec<Expr>) -> (r: Expr)
    ensures
        r@ == spine_view(a@, exprs_view(b@)),
    decreases b@.len(),
{
    let ghost bv = exprs_view(b@);
    let mut rest = b;
    if rest.len() == 0 {
        proof {
            assert(bv.len() == 0);
        }
        a
    } else {
        let first = rest.remove(0);
        proof {
            assert(first@ == bv[0]);
            assert(exprs_view(rest@) =~= bv.drop_first());
        }
        let head = app(a, first);
        app_spine(head, rest)
    }
}

/// The Y combinator: `λf. (λx. f (x x)) (λx. f (x x))`, with the parameter
/// names `f` and `x` read as base-94 ids.
pub open spec fn ycomb_view() -> ExprView {
    let f = 'f' as int - 33;
    let x = 'x' as int - 33;
    let inner = ExprView::Lam(
        x,
        Box::new(
            app_view(ExprView::Var(f), app_view(ExprView::Var(x), ExprView::Var(x))),
        ),
    );
    ExprView::Lam(f, Box::new(app_view(inner, inner)))
}

/// Builds the Y combinator as literal term structure, so that recursion
/// stays expressible inside the term language itself.
pub fn ycomb() -> (r: Expr)
    ensures
        r@ == ycomb_view(),
{
    proof {
        reveal_strlit("f");
        reveal_strlit("x");
        lemma_one_letter_id("f"@, 'f');
        lemma_one_letter_id("x"@, 'x');
    }
    lam(
        "f",
        app(
            lam("x", app(vuse("f"), app(vuse("x"), vuse("x")))),
            lam("x", app(vuse("f"), app(vuse("x"), vuse("x")))),
        ),
    )
}

/// A one-letter name reads as its letter's code less 33.
pub proof fn lemma_one_letter_id(cs: Seq<char>, c: char)
    requires
        cs =~= seq![c],
        33 <= (c as int) <= 126,
    ensures
        all_digit_chars(cs),
        base94_val(cs) == c as int - 33,
{
    assert(cs.drop_last() =~= Seq::<char>::empty());
    assert(base94_val(cs.drop_last()) == 0);
    assert(cs.last() == c);
}

/// A recursive definition: applies the Y combinator to `λname. body`,
/// binding the name to the definition itself inside the body.
pub fn rec(v: &str, body: Expr) -> (r: Expr)
    requires
        all_digit_chars(v@),
        base94_val(v@) <= u64::MAX,
    ensures
        r@ == app_view(ycomb_view(), ExprView::Lam(base94_val(v@), Box::new(body@))),
{
    app(ycomb(), lam(v, body))
}

/// One let binding: an immediately applied abstraction.
pub fn let1(x: &str, val: Expr, body: Expr) -> (r: Expr)
    requires
        all_digit_chars(x@),
        base94_val(x@) <= u64::MAX,
    ensures
        r@ == app_view(ExprView::Lam(base94_val(x@), Box::new(body@)), val@),
{
    app(lam(x, body), val)
}

/// The views of a binding list.
pub open spec fn bindings_view(bs: Seq<(&str, Expr)>) -> Seq<(Seq<char>, ExprView)> {
    Seq::new(bs.len(), |i: int| (bs[i].0@, bs[i].1@))
}

/// Sequential let: nested immediately-applied abstractions, outer to inner,
/// so that each binding is visible to the later ones and to the body.
pub open spec fn let_bind_view(bs: Seq<(Seq<char>, ExprView)>, body: ExprView) -> ExprView
    decreases bs.len(),
{
    if bs.len() == 0 {
        body
    } else {
        app_view(
            ExprView::Lam(base94_val(bs[0].0), Box::new(let_bind_view(bs.drop_first(), body))),
            bs[0].1,
        )
    }
}

/// Desugars an ordered binding list into nested immediately-applied
/// abstractions: binding i is visible to bindings i+1.. and to the body.
pub fn let_bind(bindings: Vec<(&str, Expr)>, body: Expr) -> (r: Expr)
    requires
        forall|i: int|
            0 <= i < bindings@.len() ==> all_digit_chars(#[trigger] bindings@[i].0@) && base94_val(
                bindings@[i].0@,
            ) <= u64::MAX,
    ensures
        r@ == let_bind_view(bindings_view(bindings@), body@),
    decreases bindings@.len(),
{
    let mut rest = bindings;
    if rest.len() == 0 {
        body
    } else {
        let ghost pre = rest@;
        let (v, b) = rest.remove(0);
        proof {
            assert(bindings_view(rest@) =~= bindings_view(pre).drop_first());
            assert forall|i: int|
                0 <= i < rest@.len() implies all_digit_chars(#[trigger] rest@[i].0@) && base94_val(
                rest@[i].0@,
            ) <= u64::MAX by {
                assert(rest@[i] == pre[i + 1]);
            }
        }
        let inner = let_bind(rest, body);
        app(lam(v, inner), b)
    }
}

/// A repetition combinator: a recursive term that, when an evaluator runs
/// it, concatenates a string with itself a counted number of times using
/// the term language's own equality, concatenation and subtraction.
pub open spec fn repeat_view() -> ExprView {
    let r = 'r' as int - 33;
    let s = 's' as int - 33;
    let n = 'n' as int - 33;
    let again = app_view(app_view(ExprView::Var(r), ExprView::Var(s)), sub_one(n));
    let body = ExprView::If(
        Box::new(
            ExprView::Binop('=', Box::new(ExprView::Var(n)), Box::new(ExprView::Int(1))),
        ),
        Box::new(ExprView::Var(s)),
        Box::new(ExprView::Binop('.', Box::new(ExprView::Var(s)), Box::new(again))),
    );
    app_view(
        ycomb_view(),
        ExprView::Lam(r, Box::new(ExprView::Lam(s, Box::new(ExprView::Lam(n, Box::new(body)))))),
    )
}

/// The term that subtracts one from a variable.
pub open spec fn sub_one(v: int) -> ExprView {
    ExprView::Binop('-', Box::new(ExprView::Var(v)), Box::new(ExprView::Int(1)))
}

/// A two-argument application spine is two nested applications.
pub proof fn lemma_spine_two(a: ExprView, x: ExprView, y: ExprView)
    ensures
        spine_view(a, seq![x, y]) == app_view(app_view(a, x), y),
{
    let s2 = seq![x, y];
    let s1 = seq![y];
    assert(s2[0] == x);
    assert(s1[0] == y);
    assert(s2.drop_first() =~= s1);
    assert(s1.drop_first() =~= Seq::<ExprView>::empty());
    assert(spine_view(a, s2) == spine_view(app_view(a, x), s1));
    assert(spine_view(app_view(a, x), s1) == spine_view(
        app_view(app_view(a, x), y),
        Seq::<ExprView>::empty(),
    ));
    assert(spine_view(app_view(app_view(a, x), y), Seq::<ExprView>::empty()) == app_view(
        app_view(a, x),
        y,
    ));
}

/// Builds the repetition combinator as literal term structure; it performs
/// no computation itself, an external evaluator reduces it.
pub fn repeat() -> (r: Expr)
    ensures
        r@ == repeat_view(),
{
    proof {
        reveal_strlit("r");
        reveal_strlit("s");
        reveal_strlit("n");
        lemma_one_letter_id("r"@, 'r');
        lemma_one_letter_id("s"@, 's');
        lemma_one_letter_id("n"@, 'n');
    }
    let args: Vec<Expr> = vec![vuse("s"), crate::expr::sub(vuse("n"), litnum(1))];
    let ghost argsv = exprs_view(args@);
    proof {
        assert(argsv =~= seq![ExprView::Var('s' as int - 33), sub_one('n' as int - 33)]);
        lemma_spine_two(
            ExprView::Var('r' as int - 33),
            ExprView::Var('s' as int - 33),
            sub_one('n' as int - 33),
        );
    }
    let again = app_spine(vuse("r"), args);
    rec(
        "r",
        lam(
            "s",
            lam("n", cond(equ(vuse("n"), litnum(1)), vuse("s"), concat(vuse("s"), again))),
        ),
    )
}

} // verus!
