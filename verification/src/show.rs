//! Rendering of expressions as uncurried s-expression text, and the
//! decimal formatting it relies on.

use vstd::prelude::*;
use crate::expr::{Node, Order, ExprSet, Expr, HOLE, nodes_ok};

verus! {

/// The decimal digit character for `d` (0 to 9).
pub open spec fn digit_char(d: int) -> char {
    (('0' as int) + d) as char
}

/// Decimal digits of the non-negative integer `n`, most significant
/// first.
pub open spec fn dec_chars(n: int) -> Seq<char>
    decreases n
        when n >= 0
{
    if n < 10 {
        seq![digit_char(n)]
    } else {
        dec_chars(n / 10).push(digit_char(n % 10))
    }
}

/// Decimal rendering of a (possibly negative) integer.
pub open spec fn int_chars(n: int) -> Seq<char> {
    if n < 0 {
        seq!['-'] + dec_chars(-n)
    } else {
        dec_chars(n)
    }
}

/// Append the decimal digits of `n` to `out`.
fn push_u64_dec(n: u64, out: &mut Vec<char>)
    ensures
        final(out)@ == old(out)@ + dec_chars(n as int),
    decreases n,
{
    if n >= 10 {
        push_u64_dec(n / 10, out);
    }
    let d = (n % 10) as u8;
    out.push((('0' as u8) + d) as char);
    proof {
        if n < 10 {
            assert(dec_chars(n as int) =~= seq![digit_char(n as int)]);
        }
        assert(out@ =~= old(out)@ + dec_chars(n as int));
    }
}

/// Append the decimal rendering of `n` (with `-` sign if negative) to
/// `out`.
pub fn push_i32_dec(n: i32, out: &mut Vec<char>)
    ensures
        final(out)@ == old(out)@ + int_chars(n as int),
{
    if n < 0 {
        out.push('-');
        let m = (-(n as i64)) as u64;
        push_u64_dec(m, out);
        proof {
            assert(out@ =~= old(out)@ + int_chars(n as int));
        }
    } else {
        push_u64_dec(n as u64, out);
    }
}

/// How one node of an arena renders on its own: the operator name for
/// the composite kinds, `$i` / `#i` for variables, the symbol for a
/// primitive.
pub open spec fn node_head_chars(n: Node) -> Seq<char> {
    match n {
        Node::Var(i) => seq!['$'] + int_chars(i as int),
        Node::IVar(i) => seq!['#'] + int_chars(i as int),
        Node::Prim(p) => p@,
        Node::App(_, _) => seq!['a', 'p', 'p'],
        Node::Lam(_) => seq!['l', 'a', 'm'],
    }
}

/// The uncurried rendering of the subtree at `i`: fully parenthesized,
/// except that the left (function) side of an application needs no
/// parentheses of its own, and a `HOLE` index renders as `??`.
pub open spec fn show_at(s: Seq<Node>, i: int, left_of_app: bool) -> Seq<char>
    decreases i
        when i == HOLE || (0 <= i < s.len() && nodes_ok(s, Order::ChildFirst))
{
    if i == HOLE {
        seq!['?', '?']
    } else {
        match s[i] {
            Node::App(f, x) => {
                let fs = if f == HOLE { seq!['?', '?'] } else { show_at(s, f as int, true) };
                let xs = if x == HOLE { seq!['?', '?'] } else { show_at(s, x as int, false) };
                if left_of_app {
                    fs + seq![' '] + xs
                } else {
                    seq!['('] + fs + seq![' '] + xs + seq![')']
                }
            },
            Node::Lam(b) => {
                let bs = if b == HOLE { seq!['?', '?'] } else { show_at(s, b as int, false) };
                seq!['(', 'l', 'a', 'm', ' '] + bs + seq![')']
            },
            n => node_head_chars(n),
        }
    }
}

/// Append the rendering of the subtree at `idx` to `out`.
fn show_rec(set: &ExprSet, idx: usize, left_of_app: bool, out: &mut Vec<char>)
    requires
        set.wf(),
        set.order == Order::ChildFirst,
        idx == HOLE || idx < set.nodes@.len(),
    ensures
        final(out)@ == old(out)@ + show_at(set.nodes@, idx as int, left_of_app),
    decreases (if idx == HOLE { 0int } else { idx as int + 1 }),
{
    if idx == HOLE {
        out.push('?');
        out.push('?');
        proof {
            assert(out@ =~= old(out)@ + show_at(set.nodes@, idx as int, left_of_app));
        }
        return ;
    }
    let node = &set.nodes[idx];
    match node {
        Node::Var(i) => {
            out.push('$');
            push_i32_dec(*i, out);
            proof {
                assert(out@ =~= old(out)@ + show_at(set.nodes@, idx as int, left_of_app));
            }
        },
        Node::IVar(i) => {
            out.push('#');
            push_i32_dec(*i, out);
            proof {
                assert(out@ =~= old(out)@ + show_at(set.nodes@, idx as int, left_of_app));
            }
        },
        Node::Prim(p) => {
            push_str_chars(p.as_str(), out);
            proof {
                assert(out@ =~= old(out)@ + show_at(set.nodes@, idx as int, left_of_app));
            }
        },
        Node::App(f, x) => {
            let f = *f;
            let x = *x;
            if !left_of_app {
                out.push('(');
            }
            show_rec(set, f, true, out);
            out.push(' ');
            show_rec(set, x, false, out);
            if !left_of_app {
                out.push(')');
            }
            proof {
                assert(out@ =~= old(out)@ + show_at(set.nodes@, idx as int, left_of_app));
            }
        },
        Node::Lam(b) => {
            let b = *b;
            out.push('(');
            out.push('l');
            out.push('a');
            out.push('m');
            out.push(' ');
            show_rec(set, b, false, out);
            out.push(')');
            proof {
                assert(out@ =~= old(out)@ + show_at(set.nodes@, idx as int, left_of_app));
            }
        },
    }
}

/// The characters of `s`, as a vector.
///
/// Relies on `str::chars`: iterating a string slice yields exactly its
/// characters in order.
#[verifier::external_body]
pub(crate) fn str_to_chars(s: &str) -> (r: Vec<char>)
    ensures
        r@ == s@,
{
    s.chars().collect()
}

/// Append the characters of `s` to `out`.
fn push_str_chars(s: &str, out: &mut Vec<char>)
    ensures
        final(out)@ == old(out)@ + s@,
{
    let cs = str_to_chars(s);
    let mut k: usize = 0;
    while k < cs.len()
        invariant
            k <= cs@.len(),
            cs@ == s@,
            out@ == old(out)@ + s@.subrange(0, k as int),
        decreases cs@.len() - k,
    {
        out.push(cs[k]);
        k = k + 1;
        proof {
            assert(out@ =~= old(out)@ + s@.subrange(0, k as int));
        }
    }
    proof {
        assert(s@.subrange(0, s@.len() as int) =~= s@);
    }
}

/// Collect a character vector into a `String`.
///
/// Relies on `String`'s `FromIterator` impl: collecting chars yields
/// the string of exactly those chars in order.
#[verifier::external_body]
pub(crate) fn chars_to_string(v: &Vec<char>) -> (r: String)
    ensures
        r@ == v@,
{
    v.iter().collect()
}

impl<'a> Expr<'a> {
    /// Render this subexpression as uncurried s-expression text.
    pub fn show(&self) -> (r: String)
        requires
            self.set.wf(),
            self.set.order == Order::ChildFirst,
            self.idx == HOLE || self.idx < self.set.nodes@.len(),
        ensures
            r@ == show_at(self.set.nodes@, self.idx as int, false),
    {
        let mut out: Vec<char> = Vec::new();
        show_rec(self.set, self.idx, false, &mut out);
        chars_to_string(&out)
    }
}

impl Node {
    /// Render one node on its own: the operator name for composite
    /// nodes, `$i` / `#i` for variables, the symbol for a primitive.
    pub fn show(&self) -> (r: String)
        ensures
            r@ == node_head_chars(*self),
    {
        let mut out: Vec<char> = Vec::new();
        match self {
            Node::Var(i) => {
                out.push('$');
                push_i32_dec(*i, &mut out);
            },
            Node::IVar(i) => {
                out.push('#');
                push_i32_dec(*i, &mut out);
            },
            Node::Prim(p) => {
                push_str_chars(p.as_str(), &mut out);
            },
            Node::App(_, _) => {
                out.push('a');
                out.push('p');
                out.push('p');
            },
            Node::Lam(_) => {
                out.push('l');
                out.push('a');
                out.push('m');
            },
        }
        proof {
            assert(out@ =~= node_head_chars(*self));
        }
        chars_to_string(&out)
    }
}

/// Append the decimal digits of `n` to `out`.
pub fn push_usize_dec(n: usize, out: &mut Vec<char>)
    ensures
        final(out)@ == old(out)@ + dec_chars(n as int),
{
    push_u64_dec(n as u64, out);
}

/// Append the characters of `s` to `out`.
pub(crate) fn push_string_chars(s: &String, out: &mut Vec<char>)
    ensures
        final(out)@ == old(out)@ + s@,
{
    push_str_chars(s.as_str(), out);
}

} // verus!
