use vstd::prelude::*;

use crate::errors::TokenError;
use crate::text::all_alphabet_chars;
use crate::chars::{all_narrow_chars, bytes_of, lemma_bytes_of_narrow};
use crate::token::{all_chunks_ok, chunks_of, encode_token, is_space_char, lemma_run_len_at, lemma_token_round_trip, lemma_token_text_chars, parse_toks, run_len, spec_parse_chunk, spec_tokens, token_text, Tok, TokView, wf_token};

verus! {

/// A term of the little lambda calculus, owned as a tree.
#[derive(Debug, PartialEq)]
pub enum Expr {
    Bool(bool),
    Int(u64),
    Str(String),
    Unop(char, Box<Expr>),
    Binop(char, Box<Expr>, Box<Expr>),
    If(Box<Expr>, Box<Expr>, Box<Expr>),
    Lam(u64, Box<Expr>),
    Var(u64),
}

/// The mathematical form of a term.
pub enum ExprView {
    Bool(bool),
    Int(int),
    Str(Seq<char>),
    Unop(char, Box<ExprView>),
    Binop(char, Box<ExprView>, Box<ExprView>),
    If(Box<ExprView>, Box<ExprView>, Box<ExprView>),
    Lam(int, Box<ExprView>),
    Var(int),
}

pub open spec fn expr_view(e: Expr) -> ExprView
    decreases e,
{
    match e {
        Expr::Bool(b) => ExprView::Bool(b),
        Expr::Int(n) => ExprView::Int(n as int),
        Expr::Str(s) => ExprView::Str(s@),
        Expr::Unop(op, a) => ExprView::Unop(op, Box::new(expr_view(*a))),
        Expr::Binop(op, a, b) => ExprView::Binop(
            op,
            Box::new(expr_view(*a)),
            Box::new(expr_view(*b)),
        ),
        Expr::If(c, a, b) => ExprView::If(
            Box::new(expr_view(*c)),
            Box::new(expr_view(*a)),
            Box::new(expr_view(*b)),
        ),
        Expr::Lam(v, body) => ExprView::Lam(v as int, Box::new(expr_view(*body))),
        Expr::Var(v) => ExprView::Var(v as int),
    }
}

impl View for Expr {
    type V = ExprView;

    open spec fn view(&self) -> ExprView {
        expr_view(*self)
    }
}

/// The pre-order token form of a term: the node's own token, then each
/// child's tokens, left to right, as the arity table asks.
pub open spec fn flatten(e: ExprView) -> Seq<TokView>
    decreases e,
{
    match e {
        ExprView::Bool(b) => seq![TokView::Bool(b)],
        ExprView::Int(n) => seq![TokView::Int(n)],
        ExprView::Str(s) => seq![TokView::Str(s)],
        ExprView::Unop(op, a) => seq![TokView::Unop(op)] + flatten(*a),
        ExprView::Binop(op, a, b) => seq![TokView::Binop(op)] + flatten(*a) + flatten(*b),
        ExprView::If(c, a, b) => seq![TokView::If] + flatten(*c) + flatten(*a) + flatten(*b),
        ExprView::Lam(v, body) => seq![TokView::Lam(v)] + flatten(*body),
        ExprView::Var(v) => seq![TokView::Var(v)],
    }
}

/// The token of a term's root node.
pub open spec fn head_token(e: ExprView) -> TokView {
    match e {
        ExprView::Bool(b) => TokView::Bool(b),
        ExprView::Int(n) => TokView::Int(n),
        ExprView::Str(s) => TokView::Str(s),
        ExprView::Unop(op, _) => TokView::Unop(op),
        ExprView::Binop(op, _, _) => TokView::Binop(op),
        ExprView::If(_, _, _) => TokView::If,
        ExprView::Lam(v, _) => TokView::Lam(v),
        ExprView::Var(v) => TokView::Var(v),
    }
}

/// Number of nodes of a term's tree.
pub open spec fn count_nodes(e: ExprView) -> nat
    decreases e,
{
    match e {
        ExprView::Bool(_) => 1,
        ExprView::Int(_) => 1,
        ExprView::Str(_) => 1,
        ExprView::Unop(_, a) => 1 + count_nodes(*a),
        ExprView::Binop(_, a, b) => 1 + count_nodes(*a) + count_nodes(*b),
        ExprView::If(c, a, b) => 1 + count_nodes(*c) + count_nodes(*a) + count_nodes(*b),
        ExprView::Lam(_, body) => 1 + count_nodes(*body),
        ExprView::Var(_) => 1,
    }
}

/// A term the wire format can carry: every token of it is well-formed.
pub open spec fn wf_expr(e: ExprView) -> bool
    decreases e,
{
    match e {
        ExprView::Bool(_) => true,
        ExprView::Int(n) => 0 <= n <= u64::MAX,
        ExprView::Str(s) => all_alphabet_chars(s),
        ExprView::Unop(op, a) => 33 <= (op as int) <= 126 && wf_expr(*a),
        ExprView::Binop(op, a, b) => 33 <= (op as int) <= 126 && wf_expr(*a) && wf_expr(*b),
        ExprView::If(c, a, b) => wf_expr(*c) && wf_expr(*a) && wf_expr(*b),
        ExprView::Lam(v, body) => 0 <= v <= u64::MAX && wf_expr(*body),
        ExprView::Var(v) => 0 <= v <= u64::MAX,
    }
}

/// Every node contributes exactly one token, so the flattened form of a term
/// is exactly as long as its tree has nodes, and never empty.
pub proof fn lemma_flatten_count(e: ExprView)
    ensures
        flatten(e).len() == count_nodes(e),
        flatten(e).len() >= 1,
        flatten(e)[0] == head_token(e),
    decreases e,
{
    match e {
        ExprView::Unop(_, a) => {
            lemma_flatten_count(*a);
        },
        ExprView::Binop(_, a, b) => {
            lemma_flatten_count(*a);
            lemma_flatten_count(*b);
        },
        ExprView::If(c, a, b) => {
            lemma_flatten_count(*c);
            lemma_flatten_count(*a);
            lemma_flatten_count(*b);
        },
        ExprView::Lam(_, body) => {
            lemma_flatten_count(*body);
        },
        _ => {},
    }
}

/// Every token in the flattened form of a well-formed term is well-formed.
pub proof fn lemma_flatten_wf(e: ExprView)
    requires
        wf_expr(e),
    ensures
        forall|i: int| 0 <= i < flatten(e).len() ==> wf_token(#[trigger] flatten(e)[i]),
    decreases e,
{
    match e {
        ExprView::Unop(op, a) => {
            lemma_flatten_wf(*a);
            assert forall|i: int| 0 <= i < flatten(e).len() implies wf_token(
                #[trigger] flatten(e)[i],
            ) by {
                if i > 0 {
                    assert(flatten(e)[i] == flatten(*a)[i - 1]);
                }
            }
        },
        ExprView::Binop(op, a, b) => {
            lemma_flatten_wf(*a);
            lemma_flatten_wf(*b);
            let la = flatten(*a).len() as int;
            assert forall|i: int| 0 <= i < flatten(e).len() implies wf_token(
                #[trigger] flatten(e)[i],
            ) by {
                if 0 < i <= la {
                    assert(flatten(e)[i] == flatten(*a)[i - 1]);
                } else if i > la {
                    assert(flatten(e)[i] == flatten(*b)[i - 1 - la]);
                }
            }
        },
        ExprView::If(c, a, b) => {
            lemma_flatten_wf(*c);
            lemma_flatten_wf(*a);
            lemma_flatten_wf(*b);
            let lc = flatten(*c).len() as int;
            let la = flatten(*a).len() as int;
            assert forall|i: int| 0 <= i < flatten(e).len() implies wf_token(
                #[trigger] flatten(e)[i],
            ) by {
                if 0 < i <= lc {
                    assert(flatten(e)[i] == flatten(*c)[i - 1]);
                } else if lc < i <= lc + la {
                    assert(flatten(e)[i] == flatten(*a)[i - 1 - lc]);
                } else if i > lc + la {
                    assert(flatten(e)[i] == flatten(*b)[i - 1 - lc - la]);
                }
            }
        },
        ExprView::Lam(v, body) => {
            lemma_flatten_wf(*body);
            assert forall|i: int| 0 <= i < flatten(e).len() implies wf_token(
                #[trigger] flatten(e)[i],
            ) by {
                if i > 0 {
                    assert(flatten(e)[i] == flatten(*body)[i - 1]);
                }
            }
        },
        _ => {},
    }
}

/// The token views of a token sequence.
pub open spec fn toks_view(ts: Seq<Tok>) -> Seq<TokView> {
    Seq::new(ts.len(), |i: int| ts[i]@)
}

pub proof fn lemma_prefix_trans<A>(a: Seq<A>, b: Seq<A>, c: Seq<A>)
    requires
        a.is_prefix_of(b),
        b.is_prefix_of(c),
    ensures
        a.is_prefix_of(c),
{
    assert(a =~= c.subrange(0, a.len() as int));
}

pub proof fn lemma_prefix_skip<A>(a: Seq<A>, s: Seq<A>, k: int)
    requires
        a.is_prefix_of(s),
        0 <= k <= a.len(),
    ensures
        a.skip(k).is_prefix_of(s.skip(k)),
{
    assert forall|i: int| 0 <= i < a.len() - k implies a.skip(k)[i] == s.skip(k)[i] by {
        assert(a.skip(k)[i] == a[i + k]);
        assert(a[i + k] == s[i + k]);
        assert(s.skip(k)[i] == s[i + k]);
    }
    assert(a.skip(k) =~= s.skip(k).subrange(0, a.skip(k).len() as int));
}

/// Two terms whose flattened forms begin one shared token stream are one
/// term: the pre-order arity encoding has the unique-parse property.
#[verifier::rlimit(60)]
#[verifier::spinoff_prover]
pub proof fn lemma_flatten_prefix_unique(x: ExprView, y: ExprView, s: Seq<TokView>)
    requires
        flatten(x).is_prefix_of(s),
        flatten(y).is_prefix_of(s),
    ensures
        x == y,
    decreases x,
{
    lemma_flatten_count(x);
    lemma_flatten_count(y);
    assert(flatten(x)[0] == s[0]);
    assert(flatten(y)[0] == s[0]);
    assert(head_token(x) == head_token(y));
    match x {
        ExprView::Bool(_) => {},
        ExprView::Int(_) => {},
        ExprView::Str(_) => {},
        ExprView::Var(_) => {},
        ExprView::Unop(op, a) => {
            match y {
                ExprView::Unop(op2, a2) => {
                    assert(op == op2);
                    assert(flatten(x).skip(1) =~= flatten(*a));
                    assert(flatten(y).skip(1) =~= flatten(*a2));
                    lemma_prefix_skip(flatten(x), s, 1);
                    lemma_prefix_skip(flatten(y), s, 1);
                    lemma_flatten_prefix_unique(*a, *a2, s.skip(1));
                },
                _ => {
                    assert(false);
                },
            }
        },
        ExprView::Lam(v, body) => {
            match y {
                ExprView::Lam(v2, body2) => {
                    assert(v == v2);
                    assert(flatten(x).skip(1) =~= flatten(*body));
                    assert(flatten(y).skip(1) =~= flatten(*body2));
                    lemma_prefix_skip(flatten(x), s, 1);
                    lemma_prefix_skip(flatten(y), s, 1);
                    lemma_flatten_prefix_unique(*body, *body2, s.skip(1));
                },
                _ => {
                    assert(false);
                },
            }
        },
        ExprView::Binop(op, a, b) => {
            match y {
                ExprView::Binop(op2, a2, b2) => {
                    assert(op == op2);
                    let rest = s.skip(1);
                    assert(flatten(x).skip(1) =~= flatten(*a) + flatten(*b));
                    assert(flatten(y).skip(1) =~= flatten(*a2) + flatten(*b2));
                    lemma_prefix_skip(flatten(x), s, 1);
                    lemma_prefix_skip(flatten(y), s, 1);
                    lemma_flatten_count(*a);
                    lemma_flatten_count(*a2);
                    assert(flatten(*a).is_prefix_of(flatten(*a) + flatten(*b))) by {
                        assert(flatten(*a) =~= (flatten(*a) + flatten(*b)).subrange(
                            0,
                            flatten(*a).len() as int,
                        ));
                    }
                    assert(flatten(*a2).is_prefix_of(flatten(*a2) + flatten(*b2))) by {
                        assert(flatten(*a2) =~= (flatten(*a2) + flatten(*b2)).subrange(
                            0,
                            flatten(*a2).len() as int,
                        ));
                    }
                    lemma_prefix_trans(flatten(*a), flatten(*a) + flatten(*b), rest);
                    lemma_prefix_trans(flatten(*a2), flatten(*a2) + flatten(*b2), rest);
                    lemma_flatten_prefix_unique(*a, *a2, rest);
                    let la = flatten(*a).len() as int;
                    assert(flatten(x).skip(1 + la) =~= flatten(*b));
                    assert(flatten(y).skip(1 + la) =~= flatten(*b2));
                    lemma_prefix_skip(flatten(x), s, 1 + la);
                    lemma_prefix_skip(flatten(y), s, 1 + la);
                    lemma_flatten_prefix_unique(*b, *b2, s.skip(1 + la));
                },
                _ => {
                    assert(false);
                },
            }
        },
        ExprView::If(c, a, b) => {
            match y {
                ExprView::If(c2, a2, b2) => {
                    let rest = s.skip(1);
                    assert(flatten(x).skip(1) =~= flatten(*c) + flatten(*a) + flatten(*b));
                    assert(flatten(y).skip(1) =~= flatten(*c2) + flatten(*a2) + flatten(*b2));
                    lemma_prefix_skip(flatten(x), s, 1);
                    lemma_prefix_skip(flatten(y), s, 1);
                    lemma_flatten_count(*c);
                    lemma_flatten_count(*c2);
                    assert(flatten(*c).is_prefix_of(flatten(*c) + flatten(*a) + flatten(*b))) by {
                        assert(flatten(*c) =~= (flatten(*c) + flatten(*a) + flatten(*b)).subrange(
                            0,
                            flatten(*c).len() as int,
                        ));
                    }
                    assert(flatten(*c2).is_prefix_of(flatten(*c2) + flatten(*a2) + flatten(*b2)))
                        by {
                        assert(flatten(*c2) =~= (flatten(*c2) + flatten(*a2)
                            + flatten(*b2)).subrange(0, flatten(*c2).len() as int));
                    }
                    lemma_prefix_trans(flatten(*c), flatten(*c) + flatten(*a) + flatten(*b), rest);
                    lemma_prefix_trans(
                        flatten(*c2),
                        flatten(*c2) + flatten(*a2) + flatten(*b2),
                        rest,
                    );
                    lemma_flatten_prefix_unique(*c, *c2, rest);
                    let lc = flatten(*c).len() as int;
                    let mid = s.skip(1 + lc);
                    assert(flatten(x).skip(1 + lc) =~= flatten(*a) + flatten(*b));
                    assert(flatten(y).skip(1 + lc) =~= flatten(*a2) + flatten(*b2));
                    lemma_prefix_skip(flatten(x), s, 1 + lc);
                    lemma_prefix_skip(flatten(y), s, 1 + lc);
                    lemma_flatten_count(*a);
                    lemma_flatten_count(*a2);
                    assert(flatten(*a).is_prefix_of(flatten(*a) + flatten(*b))) by {
                        assert(flatten(*a) =~= (flatten(*a) + flatten(*b)).subrange(
                            0,
                            flatten(*a).len() as int,
                        ));
                    }
                    assert(flatten(*a2).is_prefix_of(flatten(*a2) + flatten(*b2))) by {
                        assert(flatten(*a2) =~= (flatten(*a2) + flatten(*b2)).subrange(
                            0,
                            flatten(*a2).len() as int,
                        ));
                    }
                    lemma_prefix_trans(flatten(*a), flatten(*a) + flatten(*b), mid);
                    lemma_prefix_trans(flatten(*a2), flatten(*a2) + flatten(*b2), mid);
                    lemma_flatten_prefix_unique(*a, *a2, mid);
                    let la = flatten(*a).len() as int;
                    assert(flatten(x).skip(1 + lc + la) =~= flatten(*b));
                    assert(flatten(y).skip(1 + lc + la) =~= flatten(*b2));
                    lemma_prefix_skip(flatten(x), s, 1 + lc + la);
                    lemma_prefix_skip(flatten(y), s, 1 + lc + la);
                    lemma_flatten_prefix_unique(*b, *b2, s.skip(1 + lc + la));
                },
                _ => {
                    assert(false);
                },
            }
        },
    }
}

/// A term whose flattened form is a prefix of a whole term's flattened form
/// is that whole term, and the prefix is the whole stream: rendering and
/// parsing lose nothing.
pub proof fn lemma_parse_round_trip(t: ExprView, e: ExprView, p: int)
    requires
        0 <= p <= flatten(t).len(),
        flatten(e) == flatten(t).subrange(0, p),
    ensures
        e == t,
        p == flatten(t).len(),
{
    assert(flatten(e).is_prefix_of(flatten(t)));
    assert(flatten(t).is_prefix_of(flatten(t))) by {
        assert(flatten(t) =~= flatten(t).subrange(0, flatten(t).len() as int));
    }
    lemma_flatten_prefix_unique(e, t, flatten(t));
}

impl Expr {
    /// Appends this term's pre-order token form: the node's own token, then
    /// each child flattened in turn, left to right.
    pub fn to_toks(&self, toks: &mut Vec<Tok>)
        ensures
            toks_view(final(toks)@) == toks_view(old(toks)@) + flatten(self@),
        decreases self,
    {
        let ghost pre = toks@;
        match self {
            Expr::Bool(b) => {
                toks.push(Tok::Bool(*b));
                proof {
                    assert(toks_view(toks@) =~= toks_view(pre) + flatten(self@));
                }
            },
            Expr::Int(n) => {
                toks.push(Tok::Int(*n));
                proof {
                    assert(toks_view(toks@) =~= toks_view(pre) + flatten(self@));
                }
            },
            Expr::Str(s) => {
                toks.push(Tok::Str(s.clone()));
                proof {
                    assert(toks_view(toks@) =~= toks_view(pre) + flatten(self@));
                }
            },
            Expr::Var(v) => {
                toks.push(Tok::Var(*v));
                proof {
                    assert(toks_view(toks@) =~= toks_view(pre) + flatten(self@));
                }
            },
            Expr::Unop(op, a) => {
                toks.push(Tok::Unop(*op));
                proof {
                    assert(toks_view(toks@) =~= toks_view(pre) + seq![TokView::Unop(*op)]);
                }
                a.to_toks(toks);
                proof {
                    assert(toks_view(toks@) =~= toks_view(pre) + flatten(self@));
                }
            },
            Expr::Binop(op, a, b) => {
                toks.push(Tok::Binop(*op));
                proof {
                    assert(toks_view(toks@) =~= toks_view(pre) + seq![TokView::Binop(*op)]);
                }
                a.to_toks(toks);
                b.to_toks(toks);
                proof {
                    assert(toks_view(toks@) =~= toks_view(pre) + flatten(self@));
                }
            },
            Expr::If(c, a, b) => {
                toks.push(Tok::If);
                proof {
                    assert(toks_view(toks@) =~= toks_view(pre) + seq![TokView::If]);
                }
                c.to_toks(toks);
                a.to_toks(toks);
                b.to_toks(toks);
                proof {
                    assert(toks_view(toks@) =~= toks_view(pre) + flatten(self@));
                }
            },
            Expr::Lam(v, body) => {
                toks.push(Tok::Lam(*v));
                proof {
                    assert(toks_view(toks@) =~= toks_view(pre) + seq![TokView::Lam(*v as int)]);
                }
                body.to_toks(toks);
                proof {
                    assert(toks_view(toks@) =~= toks_view(pre) + flatten(self@));
                }
            },
        }
    }
}

/// The position reported when the stream runs out under a parse that
/// started at `pos`.
pub open spec fn end_pos(len: int, pos: int) -> int {
    if pos >= len {
        pos
    } else {
        len
    }
}

/// Whether some term's flattened form fills `s` exactly from `pos` to `q`.
pub open spec fn no_parse_at(s: Seq<TokView>, pos: int, len: int) -> bool {
    forall|ev: ExprView, q: int|
        #![trigger flatten(ev), s.subrange(pos, q)]
        pos <= q <= len ==> flatten(ev) != s.subrange(pos, q)
}

/// When no term starts at `pos + 1`, none of the arity-one-or-more tokens
/// at `pos` can begin a term either.
#[verifier::rlimit(60)]
#[verifier::spinoff_prover]
pub proof fn lemma_no_parse_first_child(s: Seq<TokView>, pos: int, len: int)
    requires
        len == s.len(),
        0 <= pos < len,
        s[pos] matches TokView::Unop(_) || s[pos] matches TokView::Lam(_) || s[pos]
            matches TokView::Binop(_) || s[pos] matches TokView::If,
        no_parse_at(s, pos + 1, len),
    ensures
        no_parse_at(s, pos, len),
{
    assert forall|ev: ExprView, q: int|
        #![trigger flatten(ev), s.subrange(pos, q)]
        pos <= q <= len implies flatten(ev) != s.subrange(pos, q) by {
        if flatten(ev) == s.subrange(pos, q) {
            lemma_flatten_count(ev);
            assert(flatten(ev)[0] == s[pos]);
            match ev {
                ExprView::Unop(_, aa) => {
                    assert(flatten(ev).skip(1) =~= flatten(*aa));
                    assert(flatten(*aa) =~= s.subrange(pos + 1, q));
                    assert(flatten(*aa) != s.subrange(pos + 1, q));
                },
                ExprView::Lam(_, aa) => {
                    assert(flatten(ev).skip(1) =~= flatten(*aa));
                    assert(flatten(*aa) =~= s.subrange(pos + 1, q));
                    assert(flatten(*aa) != s.subrange(pos + 1, q));
                },
                ExprView::Binop(_, aa, bb) => {
                    lemma_flatten_count(*aa);
                    let la = flatten(*aa).len() as int;
                    assert(flatten(ev).skip(1) =~= flatten(*aa) + flatten(*bb));
                    assert(flatten(ev).skip(1) =~= s.subrange(pos + 1, q));
                    assert forall|j: int| 0 <= j < la implies flatten(*aa)[j] == s.subrange(
                        pos + 1,
                        pos + 1 + la,
                    )[j] by {
                        assert((flatten(*aa) + flatten(*bb))[j] == flatten(*aa)[j]);
                        assert(s.subrange(pos + 1, q)[j] == s[pos + 1 + j]);
                    }
                    assert(flatten(*aa) =~= s.subrange(pos + 1, pos + 1 + la));
                    assert(flatten(*aa) != s.subrange(pos + 1, pos + 1 + la));
                },
                ExprView::If(cc, aa, bb) => {
                    lemma_flatten_count(*cc);
                    let lc = flatten(*cc).len() as int;
                    assert(flatten(ev).skip(1) =~= flatten(*cc) + flatten(*aa) + flatten(*bb));
                    assert(flatten(ev).skip(1) =~= s.subrange(pos + 1, q));
                    assert forall|j: int| 0 <= j < lc implies flatten(*cc)[j] == s.subrange(
                        pos + 1,
                        pos + 1 + lc,
                    )[j] by {
                        assert((flatten(*cc) + flatten(*aa) + flatten(*bb))[j] == flatten(*cc)[j]);
                        assert(s.subrange(pos + 1, q)[j] == s[pos + 1 + j]);
                    }
                    assert(flatten(*cc) =~= s.subrange(pos + 1, pos + 1 + lc));
                    assert(flatten(*cc) != s.subrange(pos + 1, pos + 1 + lc));
                },
                _ => {
                    assert(false);
                },
            }
        }
    }
}

/// A binary-operator term whose first operand fills `pos + 1` up to `p1`
/// cannot begin at `pos` when no term starts at `p1`.
#[verifier::rlimit(60)]
#[verifier::spinoff_prover]
pub proof fn lemma_no_parse_binop_second(s: Seq<TokView>, pos: int, len: int, a1: ExprView, p1: int)
    requires
        len == s.len(),
        0 <= pos < len,
        s[pos] matches TokView::Binop(_),
        pos < p1 <= len,
        flatten(a1) == s.subrange(pos + 1, p1),
        no_parse_at(s, p1, len),
    ensures
        no_parse_at(s, pos, len),
{
    assert forall|ev: ExprView, q: int|
        #![trigger flatten(ev), s.subrange(pos, q)]
        pos <= q <= len implies flatten(ev) != s.subrange(pos, q) by {
        if flatten(ev) == s.subrange(pos, q) {
            lemma_flatten_count(ev);
            assert(flatten(ev)[0] == s[pos]);
            match ev {
                ExprView::Binop(_, aa, bb) => {
                    lemma_flatten_count(*aa);
                    lemma_flatten_count(*bb);
                    let la = flatten(*aa).len() as int;
                    let tail = s.skip(pos + 1);
                    assert(flatten(ev).skip(1) =~= flatten(*aa) + flatten(*bb));
                    assert(flatten(ev).skip(1) =~= s.subrange(pos + 1, q));
                    assert forall|j: int| 0 <= j < la implies flatten(*aa)[j] == tail[j] by {
                        assert((flatten(*aa) + flatten(*bb))[j] == flatten(*aa)[j]);
                        assert(s.subrange(pos + 1, q)[j] == s[pos + 1 + j]);
                        assert(tail[j] == s[pos + 1 + j]);
                    }
                    assert(flatten(*aa) =~= tail.subrange(0, la));
                    assert(flatten(*aa).is_prefix_of(tail));
                    assert forall|j: int| 0 <= j < flatten(a1).len() implies flatten(a1)[j]
                        == tail[j] by {
                        assert(flatten(a1)[j] == s.subrange(pos + 1, p1)[j]);
                        assert(tail[j] == s[pos + 1 + j]);
                    }
                    assert(flatten(a1) =~= tail.subrange(0, flatten(a1).len() as int));
                    assert(flatten(a1).is_prefix_of(tail));
                    lemma_flatten_prefix_unique(*aa, a1, tail);
                    assert(la == p1 - (pos + 1));
                    assert forall|j: int| 0 <= j < flatten(*bb).len() implies flatten(*bb)[j]
                        == s.subrange(p1, q)[j] by {
                        assert((flatten(*aa) + flatten(*bb))[la + j] == flatten(*bb)[j]);
                        assert(s.subrange(pos + 1, q)[la + j] == s[pos + 1 + la + j]);
                        assert(s.subrange(p1, q)[j] == s[p1 + j]);
                    }
                    assert(flatten(*bb) =~= s.subrange(p1, q));
                    assert(p1 <= q);
                    assert(flatten(*bb) != s.subrange(p1, q));
                },
                _ => {
                    assert(false);
                },
            }
        }
    }
}

/// A conditional term whose condition fills `pos + 1` up to `p1` cannot
/// begin at `pos` when no term starts at `p1`.
#[verifier::rlimit(60)]
#[verifier::spinoff_prover]
pub proof fn lemma_no_parse_if_second(s: Seq<TokView>, pos: int, len: int, c1: ExprView, p1: int)
    requires
        len == s.len(),
        0 <= pos < len,
        s[pos] matches TokView::If,
        pos < p1 <= len,
        flatten(c1) == s.subrange(pos + 1, p1),
        no_parse_at(s, p1, len),
    ensures
        no_parse_at(s, pos, len),
{
    assert forall|ev: ExprView, q: int|
        #![trigger flatten(ev), s.subrange(pos, q)]
        pos <= q <= len implies flatten(ev) != s.subrange(pos, q) by {
        if flatten(ev) == s.subrange(pos, q) {
            lemma_flatten_count(ev);
            assert(flatten(ev)[0] == s[pos]);
            match ev {
                ExprView::If(cc, aa, bb) => {
                    lemma_flatten_count(*cc);
                    lemma_flatten_count(*aa);
                    lemma_flatten_count(*bb);
                    let lc = flatten(*cc).len() as int;
                    let la = flatten(*aa).len() as int;
                    let tail = s.skip(pos + 1);
                    assert(flatten(ev).skip(1) =~= flatten(*cc) + flatten(*aa) + flatten(*bb));
                    assert(flatten(ev).skip(1) =~= s.subrange(pos + 1, q));
                    assert forall|j: int| 0 <= j < lc implies flatten(*cc)[j] == tail[j] by {
                        assert((flatten(*cc) + flatten(*aa) + flatten(*bb))[j] == flatten(*cc)[j]);
                        assert(s.subrange(pos + 1, q)[j] == s[pos + 1 + j]);
                        assert(tail[j] == s[pos + 1 + j]);
                    }
                    assert(flatten(*cc) =~= tail.subrange(0, lc));
                    assert(flatten(*cc).is_prefix_of(tail));
                    assert forall|j: int| 0 <= j < flatten(c1).len() implies flatten(c1)[j]
                        == tail[j] by {
                        assert(flatten(c1)[j] == s.subrange(pos + 1, p1)[j]);
                        assert(tail[j] == s[pos + 1 + j]);
                    }
                    assert(flatten(c1) =~= tail.subrange(0, flatten(c1).len() as int));
                    assert(flatten(c1).is_prefix_of(tail));
                    lemma_flatten_prefix_unique(*cc, c1, tail);
                    assert(lc == p1 - (pos + 1));
                    assert forall|j: int| 0 <= j < la implies flatten(*aa)[j] == s.subrange(
                        p1,
                        p1 + la,
                    )[j] by {
                        assert((flatten(*cc) + flatten(*aa) + flatten(*bb))[lc + j] == flatten(
                            *aa,
                        )[j]);
                        assert(s.subrange(pos + 1, q)[lc + j] == s[pos + 1 + lc + j]);
                        assert(s.subrange(p1, p1 + la)[j] == s[p1 + j]);
                    }
                    assert(flatten(*aa) =~= s.subrange(p1, p1 + la));
                    assert(p1 + la <= q);
                    assert(flatten(*aa) != s.subrange(p1, p1 + la));
                },
                _ => {
                    assert(false);
                },
            }
        }
    }
}

/// A conditional term whose condition and first branch fill `pos + 1` up to
/// `p2` cannot begin at `pos` when no term starts at `p2`.
#[verifier::rlimit(60)]
#[verifier::spinoff_prover]
pub proof fn lemma_no_parse_if_third(
    s: Seq<TokView>,
    pos: int,
    len: int,
    c1: ExprView,
    p1: int,
    a1: ExprView,
    p2: int,
)
    requires
        len == s.len(),
        0 <= pos < len,
        s[pos] matches TokView::If,
        pos < p1 <= len,
        p1 < p2 <= len,
        flatten(c1) == s.subrange(pos + 1, p1),
        flatten(a1) == s.subrange(p1, p2),
        no_parse_at(s, p2, len),
    ensures
        no_parse_at(s, pos, len),
{
    assert forall|ev: ExprView, q: int|
        #![trigger flatten(ev), s.subrange(pos, q)]
        pos <= q <= len implies flatten(ev) != s.subrange(pos, q) by {
        if flatten(ev) == s.subrange(pos, q) {
            lemma_flatten_count(ev);
            assert(flatten(ev)[0] == s[pos]);
            match ev {
                ExprView::If(cc, aa, bb) => {
                    lemma_flatten_count(*cc);
                    lemma_flatten_count(*aa);
                    lemma_flatten_count(*bb);
                    let lc = flatten(*cc).len() as int;
                    let la = flatten(*aa).len() as int;
                    let tail = s.skip(pos + 1);
                    assert(flatten(ev).skip(1) =~= flatten(*cc) + flatten(*aa) + flatten(*bb));
                    assert(flatten(ev).skip(1) =~= s.subrange(pos + 1, q));
                    assert forall|j: int| 0 <= j < lc implies flatten(*cc)[j] == tail[j] by {
                        assert((flatten(*cc) + flatten(*aa) + flatten(*bb))[j] == flatten(*cc)[j]);
                        assert(s.subrange(pos + 1, q)[j] == s[pos + 1 + j]);
                        assert(tail[j] == s[pos + 1 + j]);
                    }
                    assert(flatten(*cc) =~= tail.subrange(0, lc));
                    assert(flatten(*cc).is_prefix_of(tail));
                    assert forall|j: int| 0 <= j < flatten(c1).len() implies flatten(c1)[j]
                        == tail[j] by {
                        assert(flatten(c1)[j] == s.subrange(pos + 1, p1)[j]);
                        assert(tail[j] == s[pos + 1 + j]);
                    }
                    assert(flatten(c1) =~= tail.subrange(0, flatten(c1).len() as int));
                    assert(flatten(c1).is_prefix_of(tail));
                    lemma_flatten_prefix_unique(*cc, c1, tail);
                    assert(lc == p1 - (pos + 1));
                    let tail2 = s.skip(p1);
                    assert forall|j: int| 0 <= j < la implies flatten(*aa)[j] == tail2[j] by {
                        assert((flatten(*cc) + flatten(*aa) + flatten(*bb))[lc + j] == flatten(
                            *aa,
                        )[j]);
                        assert(s.subrange(pos + 1, q)[lc + j] == s[pos + 1 + lc + j]);
                        assert(tail2[j] == s[p1 + j]);
                    }
                    assert(flatten(*aa) =~= tail2.subrange(0, la));
                    assert(flatten(*aa).is_prefix_of(tail2));
                    assert forall|j: int| 0 <= j < flatten(a1).len() implies flatten(a1)[j]
                        == tail2[j] by {
                        assert(flatten(a1)[j] == s.subrange(p1, p2)[j]);
                        assert(tail2[j] == s[p1 + j]);
                    }
                    assert(flatten(a1) =~= tail2.subrange(0, flatten(a1).len() as int));
                    assert(flatten(a1).is_prefix_of(tail2));
                    lemma_flatten_prefix_unique(*aa, a1, tail2);
                    assert(la == p2 - p1);
                    assert forall|j: int| 0 <= j < flatten(*bb).len() implies flatten(*bb)[j]
                        == s.subrange(p2, q)[j] by {
                        assert((flatten(*cc) + flatten(*aa) + flatten(*bb))[lc + la + j] == flatten(
                            *bb,
                        )[j]);
                        assert(s.subrange(pos + 1, q)[lc + la + j] == s[pos + 1 + lc + la + j]);
                        assert(s.subrange(p2, q)[j] == s[p2 + j]);
                    }
                    assert(flatten(*bb) =~= s.subrange(p2, q));
                    assert(p2 <= q);
                    assert(flatten(*bb) != s.subrange(p2, q));
                },
                _ => {
                    assert(false);
                },
            }
        }
    }
}

/// Parses one term at `pos`: reads the token there, then exactly as many
/// sub-terms as that token's arity asks, recursively. On success the
/// returned position is just past the tokens the term covered; the stream
/// runs out only when no term starts at `pos` at all.
#[verifier::rlimit(60)]
#[verifier::spinoff_prover]
pub fn get_expr_from_toks(toks: &[Tok], pos: usize) -> (r: Result<(Expr, usize), TokenError>)
    ensures
        r matches Ok(ep) ==> pos < ep.1 <= toks@.len() && flatten(ep.0@) == toks_view(
            toks@,
        ).subrange(pos as int, ep.1 as int),
        r matches Err(e) ==> (e matches TokenError::UnexpectedEndOfStream(q) && q as int == end_pos(
            toks@.len() as int,
            pos as int,
        )),
        r is Err ==> no_parse_at(toks_view(toks@), pos as int, toks@.len() as int),
    decreases toks@.len() - pos,
{
    let ghost s = toks_view(toks@);
    let ghost len = toks@.len() as int;
    let n = toks.len();
    if pos >= n {
        proof {
            assert forall|ev: ExprView, q: int|
                #![trigger flatten(ev), s.subrange(pos as int, q)]
                pos <= q <= len implies flatten(ev) != s.subrange(pos as int, q) by {
                lemma_flatten_count(ev);
                assert(s.subrange(pos as int, q).len() == 0);
            }
        }
        return Err(TokenError::UnexpectedEndOfStream(pos));
    }
    let t: &Tok = vstd::slice::slice_index_get(toks, pos);
    proof {
        assert(s[pos as int] == toks@[pos as int]@);
    }
    match t {
        Tok::Bool(b) => {
            let e = Expr::Bool(*b);
            proof {
                assert(flatten(e@) =~= s.subrange(pos as int, pos + 1));
            }
            Ok((e, pos + 1))
        },
        Tok::Int(v) => {
            let e = Expr::Int(*v);
            proof {
                assert(flatten(e@) =~= s.subrange(pos as int, pos + 1));
            }
            Ok((e, pos + 1))
        },
        Tok::Str(st) => {
            let e = Expr::Str(st.clone());
            proof {
                assert(flatten(e@) =~= s.subrange(pos as int, pos + 1));
            }
            Ok((e, pos + 1))
        },
        Tok::Var(v) => {
            let e = Expr::Var(*v);
            proof {
                assert(flatten(e@) =~= s.subrange(pos as int, pos + 1));
            }
            Ok((e, pos + 1))
        },
        Tok::Unop(op) => {
            match get_expr_from_toks(toks, pos + 1) {
                Ok((a, after_a)) => {
                    let e = Expr::Unop(*op, Box::new(a));
                    proof {
                        assert(flatten(e@) =~= s.subrange(pos as int, after_a as int)) by {
                            assert(flatten(e@) == seq![TokView::Unop(*op)] + flatten(a@));
                            assert(flatten(a@) == s.subrange(pos + 1, after_a as int));
                        }
                    }
                    Ok((e, after_a))
                },
                Err(e) => {
                    proof {
                        lemma_no_parse_first_child(s, pos as int, len);
                    }
                    Err(e)
                },
            }
        },
        Tok::Lam(v) => {
            match get_expr_from_toks(toks, pos + 1) {
                Ok((a, after_a)) => {
                    let e = Expr::Lam(*v, Box::new(a));
                    proof {
                        assert(flatten(e@) =~= s.subrange(pos as int, after_a as int)) by {
                            assert(flatten(e@) == seq![TokView::Lam(*v as int)] + flatten(a@));
                            assert(flatten(a@) == s.subrange(pos + 1, after_a as int));
                        }
                    }
                    Ok((e, after_a))
                },
                Err(e) => {
                    proof {
                        lemma_no_parse_first_child(s, pos as int, len);
                    }
                    Err(e)
                },
            }
        },
        Tok::Binop(op) => {
            match get_expr_from_toks(toks, pos + 1) {
                Err(e) => {
                    proof {
                        lemma_no_parse_first_child(s, pos as int, len);
                    }
                    Err(e)
                },
                Ok((a, after_a)) => {
                    match get_expr_from_toks(toks, after_a) {
                        Err(e) => {
                            proof {
                                lemma_no_parse_binop_second(
                                    s,
                                    pos as int,
                                    len,
                                    a@,
                                    after_a as int,
                                );
                            }
                            Err(e)
                        },
                        Ok((b, after_b)) => {
                            let e = Expr::Binop(*op, Box::new(a), Box::new(b));
                            proof {
                                assert(flatten(e@) =~= s.subrange(pos as int, after_b as int)) by {
                                    assert(flatten(e@) == seq![TokView::Binop(*op)] + flatten(a@)
                                        + flatten(b@));
                                    assert(flatten(a@) == s.subrange(pos + 1, after_a as int));
                                    assert(flatten(b@) == s.subrange(
                                        after_a as int,
                                        after_b as int,
                                    ));
                                }
                            }
                            Ok((e, after_b))
                        },
                    }
                },
            }
        },
        Tok::If => {
            match get_expr_from_toks(toks, pos + 1) {
                Err(e) => {
                    proof {
                        lemma_no_parse_first_child(s, pos as int, len);
                    }
                    Err(e)
                },
                Ok((c, after_c)) => {
                    match get_expr_from_toks(toks, after_c) {
                        Err(e) => {
                            proof {
                                lemma_no_parse_if_second(s, pos as int, len, c@, after_c as int);
                            }
                            Err(e)
                        },
                        Ok((a, after_a)) => {
                            match get_expr_from_toks(toks, after_a) {
                                Err(e) => {
                                    proof {
                                        lemma_no_parse_if_third(
                                            s,
                                            pos as int,
                                            len,
                                            c@,
                                            after_c as int,
                                            a@,
                                            after_a as int,
                                        );
                                    }
                                    Err(e)
                                },
                                Ok((b, after_b)) => {
                                    let e = Expr::If(Box::new(c), Box::new(a), Box::new(b));
                                    proof {
                                        assert(flatten(e@) =~= s.subrange(
                                            pos as int,
                                            after_b as int,
                                        )) by {
                                            assert(flatten(e@) == seq![TokView::If] + flatten(c@)
                                                + flatten(a@) + flatten(b@));
                                            assert(flatten(c@) == s.subrange(
                                                pos + 1,
                                                after_c as int,
                                            ));
                                            assert(flatten(a@) == s.subrange(
                                                after_c as int,
                                                after_a as int,
                                            ));
                                            assert(flatten(b@) == s.subrange(
                                                after_a as int,
                                                after_b as int,
                                            ));
                                        }
                                    }
                                    Ok((e, after_b))
                                },
                            }
                        },
                    }
                },
            }
        },
    }
}


/// The wire text of a token sequence: each token's text, with one space
/// between neighbouring tokens and no trailing separator.
pub open spec fn render_text(ts: Seq<TokView>) -> Seq<char>
    decreases ts.len(),
{
    if ts.len() == 0 {
        Seq::empty()
    } else if ts.len() == 1 {
        token_text(ts[0])
    } else {
        render_text(ts.drop_last()) + seq![' '] + token_text(ts.last())
    }
}

impl Expr {
    /// Writes the term as wire text: its flattened tokens joined by single
    /// spaces, with no trailing separator.
    pub fn render(&self) -> (r: String)
        requires
            wf_expr(self@),
        ensures
            r@ == render_text(flatten(self@)),
    {
        let ghost target = flatten(self@);
        let mut toks: Vec<Tok> = Vec::new();
        self.to_toks(&mut toks);
        proof {
            assert(toks_view(toks@) =~= target);
            lemma_flatten_wf(self@);
        }
        let mut out = String::new();
        let mut i: usize = 0;
        let n = toks.len();
        while i < n
            invariant
                n == toks@.len(),
                toks_view(toks@) == target,
                forall|k: int| 0 <= k < target.len() ==> wf_token(#[trigger] target[k]),
                i <= n,
                out@ == render_text(target.take(i as int)),
            decreases n - i,
        {
            if i > 0 {
                out.push(' ');
            }
            proof {
                assert(toks@[i as int]@ == toks_view(toks@)[i as int]);
            }
            let piece = encode_token(vstd::slice::slice_index_get(toks.as_slice(), i));
            out.append(piece.as_str());
            proof {
                let pre = target.take(i as int);
                let cur = target.take(i + 1);
                assert(cur.drop_last() =~= pre);
                assert(cur.last() == target[i as int]);
                if i == 0 {
                    assert(out@ =~= render_text(cur));
                } else {
                    assert(render_text(cur) == render_text(pre) + seq![' '] + token_text(
                        target[i as int],
                    ));
                    assert(out@ =~= render_text(cur));
                }
            }
            i += 1;
        }
        proof {
            assert(target.take(n as int) =~= target);
        }
        out
    }
}

/// Reads wire text as one term: decodes the whitespace-separated token
/// stream and parses one term from its front. Tokens past that term are
/// ignored; this contract makes the wire format's lenient choice
/// explicit.
pub fn parse_expr(s: &str) -> (r: Result<Expr, TokenError>)
    ensures
        r matches Ok(e) ==> all_chunks_ok(s@) && flatten(e@).len() <= spec_tokens(s@).len()
            && flatten(e@) == spec_tokens(s@).subrange(0, flatten(e@).len() as int),
        r is Err ==> !all_chunks_ok(s@) || no_parse_at(
            spec_tokens(s@),
            0,
            spec_tokens(s@).len() as int,
        ),
        !all_chunks_ok(s@) ==> (r matches Err(c) && exists|k: int|
            0 <= k < chunks_of(s@).len() && #[trigger] spec_parse_chunk(chunks_of(s@)[k]) == Err::<
                TokView,
                TokenError,
            >(c) && (forall|j: int|
                0 <= j < k ==> (#[trigger] spec_parse_chunk(chunks_of(s@)[j])) is Ok)),
        all_chunks_ok(s@) && no_parse_at(spec_tokens(s@), 0, spec_tokens(s@).len() as int) ==> (
        r matches Err(c) && c matches TokenError::UnexpectedEndOfStream(q) && q as int
            == spec_tokens(s@).len()),
{
    match parse_toks(s) {
        Err(te) => {
            proof {
                assert(!all_chunks_ok(s@)) by {
                    assert(spec_parse_chunk(chunks_of(s@)[te.index as int]) is Err);
                }
            }
            Err(te.cause)
        },
        Ok(toks) => {
            proof {
                assert forall|k: int| 0 <= k < chunks_of(s@).len() implies (
                #[trigger] spec_parse_chunk(chunks_of(s@)[k])) is Ok by {
                    assert(spec_parse_chunk(chunks_of(s@)[k]) == Ok::<TokView, TokenError>(
                        toks@[k]@,
                    ));
                }
                assert(toks_view(toks@) =~= spec_tokens(s@));
            }
            match get_expr_from_toks(toks.as_slice(), 0) {
                Ok((e, p)) => {
                    proof {
                        assert(flatten(e@) == spec_tokens(s@).subrange(0, p as int));
                        assert(flatten(e@).len() == p);
                    }
                    Ok(e)
                },
                Err(c) => {
                    proof {
                        assert(c matches TokenError::UnexpectedEndOfStream(q) && q as int
                            == end_pos(spec_tokens(s@).len() as int, 0));
                    }
                    Err(c)
                },
            }
        },
    }
}


/// Rendered text can also be read off the front: the first token's text,
/// one space, then the rest.
pub proof fn lemma_render_text_front(ts: Seq<TokView>)
    requires
        ts.len() >= 2,
    ensures
        render_text(ts) == token_text(ts[0]) + seq![' '] + render_text(ts.drop_first()),
    decreases ts.len(),
{
    let dl = ts.drop_last();
    let df = ts.drop_first();
    if ts.len() == 2 {
        assert(dl =~= seq![ts[0]]);
        assert(df =~= seq![ts[1]]);
        assert(render_text(seq![ts[0]]) == token_text(ts[0])) by {
            assert(seq![ts[0]][0] == ts[0]);
        }
        assert(render_text(seq![ts[1]]) == token_text(ts[1])) by {
            assert(seq![ts[1]][0] == ts[1]);
        }
        assert(render_text(ts) == render_text(dl) + seq![' '] + token_text(ts.last()));
        assert(render_text(ts) =~= token_text(ts[0]) + seq![' '] + render_text(df));
    } else {
        lemma_render_text_front(dl);
        assert(df.len() >= 2);
        assert(df.drop_last() =~= dl.drop_first());
        assert(df.last() == ts.last());
        assert(dl[0] == ts[0]);
        assert(render_text(ts) == render_text(dl) + seq![' '] + token_text(ts.last()));
        assert(render_text(df) == render_text(df.drop_last()) + seq![' '] + token_text(df.last()));
        assert(render_text(ts) =~= token_text(ts[0]) + seq![' '] + render_text(df));
    }
}

/// Splitting rendered text on whitespace gives back exactly the token
/// texts, in order: the single spaces that rendering put in are the only
/// whitespace there is.
pub proof fn lemma_chunks_of_render(ts: Seq<TokView>)
    requires
        forall|k: int| 0 <= k < ts.len() ==> wf_token(#[trigger] ts[k]),
    ensures
        chunks_of(render_text(ts)).len() == ts.len(),
        forall|k: int|
            0 <= k < ts.len() ==> #[trigger] chunks_of(render_text(ts))[k] == token_text(ts[k]),
    decreases ts.len(),
{
    let text = render_text(ts);
    if ts.len() == 0 {
        assert(chunks_of(text).len() == 0);
    } else {
        lemma_token_text_chars(ts[0]);
        let tt0 = token_text(ts[0]);
        assert forall|j: int| 0 <= j < tt0.len() implies !is_space_char(#[trigger] tt0[j]) by {
            assert(33 <= (tt0[j] as int) <= 126);
            if tt0[j] == ' ' {
                assert(tt0[j] as int == 32);
            }
            if tt0[j] == '\n' {
                assert(tt0[j] as int == 10);
            }
            if tt0[j] == '\t' {
                assert(tt0[j] as int == 9);
            }
            if tt0[j] == '\r' {
                assert(tt0[j] as int == 13);
            }
        }
        if ts.len() == 1 {
            assert(text == token_text(ts[0]));
            assert(!is_space_char(text[0]));
            lemma_run_len_at(text, text.len() as int);
            assert(chunks_of(text) == seq![text.take(run_len(text))] + chunks_of(
                text.skip(run_len(text)),
            ));
            assert(text.take(text.len() as int) =~= text);
            assert(text.skip(text.len() as int) =~= Seq::<char>::empty());
            assert(chunks_of(Seq::<char>::empty()).len() == 0);
            assert(chunks_of(text) =~= seq![tt0]);
        } else {
            lemma_render_text_front(ts);
            let df = ts.drop_first();
            let rest = render_text(df);
            assert(text == tt0 + seq![' '] + rest);
            assert forall|j: int| 0 <= j < tt0.len() implies !is_space_char(#[trigger] text[j])
                by {
                assert(text[j] == tt0[j]);
            }
            assert(text[tt0.len() as int] == ' ');
            lemma_run_len_at(text, tt0.len() as int);
            assert(chunks_of(text) == seq![text.take(run_len(text))] + chunks_of(
                text.skip(run_len(text)),
            ));
            assert(text.take(tt0.len() as int) =~= tt0);
            let after = text.skip(tt0.len() as int);
            assert(after[0] == ' ');
            assert(after.drop_first() =~= rest);
            assert(chunks_of(after) == chunks_of(rest));
            assert forall|k: int| 0 <= k < df.len() implies wf_token(#[trigger] df[k]) by {
                assert(df[k] == ts[k + 1]);
            }
            lemma_chunks_of_render(df);
            assert(chunks_of(text) == seq![tt0] + chunks_of(rest));
            assert forall|k: int| 0 <= k < ts.len() implies #[trigger] chunks_of(text)[k]
                == token_text(ts[k]) by {
                if k == 0 {
                    assert(chunks_of(text)[0] == tt0);
                } else {
                    assert(chunks_of(text)[k] == chunks_of(rest)[k - 1]);
                    assert(chunks_of(rest)[k - 1] == token_text(df[k - 1]));
                    assert(df[k - 1] == ts[k]);
                }
            }
        }
    }
}

/// Rendering a well-formed term and reading the text back yields exactly
/// the term's token stream, every chunk of it decoding; and by the unique
/// parse of that stream, the one term it parses to is the term itself.
pub proof fn lemma_render_round_trip(t: ExprView)
    requires
        wf_expr(t),
    ensures
        all_chunks_ok(render_text(flatten(t))),
        spec_tokens(render_text(flatten(t))) == flatten(t),
        !no_parse_at(
            spec_tokens(render_text(flatten(t))),
            0,
            spec_tokens(render_text(flatten(t))).len() as int,
        ),
{
    lemma_flatten_wf(t);
    lemma_flatten_count(t);
    lemma_chunks_of_render(flatten(t));
    let text = render_text(flatten(t));
    let cs = chunks_of(text);
    assert forall|k: int| 0 <= k < cs.len() implies #[trigger] spec_parse_chunk(cs[k]) == Ok::<
        TokView,
        TokenError,
    >(flatten(t)[k]) by {
        let tok = flatten(t)[k];
        assert(wf_token(tok));
        lemma_token_text_chars(tok);
        assert(cs[k] == token_text(tok));
        assert(all_narrow_chars(cs[k]));
        lemma_bytes_of_narrow(cs[k]);
        lemma_token_round_trip(tok, bytes_of(cs[k]));
    }
    assert(spec_tokens(text) =~= flatten(t));
    let stream = spec_tokens(text);
    assert(flatten(t) == stream.subrange(0, stream.len() as int)) by {
        assert(stream.subrange(0, stream.len() as int) =~= stream);
    }
    assert(!no_parse_at(stream, 0, stream.len() as int)) by {
        if no_parse_at(stream, 0, stream.len() as int) {
            assert(flatten(t) != stream.subrange(0, stream.len() as int));
        }
    }
}

} // verus!
