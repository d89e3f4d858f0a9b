//! A simple example domain: integers and polymorphic lists. It
//! supplies the inference driver with type schemes for its
//! primitives, including numeric literals and integer-list literals
//! written in bracketed text.

use vstd::prelude::*;
use crate::types::{Type, TypeView, arrow_chars, lemma_type_views};
use crate::infer::Dsl;
use crate::parse::{digits_val, parse_uint_chars};
use crate::show::str_to_chars;

verus! {

/// A value of the simple domain: an integer, or a list of values.
#[derive(Debug, PartialEq, Eq)]
pub enum SimpleVal {
    Int(i32),
    List(Vec<SimpleVal>),
}

/// The base types of the simple domain.
#[derive(Debug, Clone, Copy, PartialEq, Eq, Structural)]
pub enum SimpleType {
    TInt,
    TList,
}

/// The `int` type.
pub open spec fn int_view() -> TypeView {
    TypeView::Term("int"@, Seq::empty())
}

/// The `(list t)` type.
pub open spec fn list_view(t: TypeView) -> TypeView {
    TypeView::Term("list"@, seq![t])
}

/// The arrow `a -> b`.
pub open spec fn arr(a: TypeView, b: TypeView) -> TypeView {
    TypeView::Term(arrow_chars(), seq![a, b])
}

/// The type of a domain value: `int` for an integer; a list takes
/// its element type from its first element, and an empty list is
/// polymorphic.
pub open spec fn spec_type_of_dom_val(v: SimpleVal) -> TypeView
    decreases v,
{
    match v {
        SimpleVal::Int(_) => int_view(),
        SimpleVal::List(xs) => {
            if xs@.len() == 0 {
                list_view(TypeView::Var(0))
            } else {
                list_view(spec_type_of_dom_val(xs@[0]))
            }
        },
    }
}

/// What a bracketed integer-list literal parses to, if anything.
/// The result is a function of the text alone.
pub uninterp spec fn json_int_list(s: Seq<char>) -> Option<Seq<i32>>;

/// Relies on `serde_json::from_str::<Vec<i32>>`: whether bracketed
/// text denotes a list of 32-bit integers, and which list, depends on
/// the text alone.
#[verifier::external_body]
fn parse_int_list(s: &str) -> (r: Option<Vec<i32>>)
    ensures
        match r {
            Some(v) => json_int_list(s@) == Some(v@),
            None => json_int_list(s@) is None,
        },
{
    serde_json::from_str::<Vec<i32>>(s).ok()
}

/// The scheme the simple domain assigns to a primitive symbol:
/// arithmetic on integers, a polymorphic `map`, `sum` over integer
/// lists, small numeric constants, the empty list; any other numeral
/// is an integer, and a bracketed integer-list literal is a list.
pub open spec fn simple_prim_type(sym: Seq<char>) -> Option<TypeView> {
    if sym == "+"@ || sym == "*"@ {
        Some(arr(int_view(), arr(int_view(), int_view())))
    } else if sym == "map"@ {
        Some(
            arr(
                arr(TypeView::Var(0), TypeView::Var(1)),
                arr(list_view(TypeView::Var(0)), list_view(TypeView::Var(1))),
            ),
        )
    } else if sym == "sum"@ {
        Some(arr(list_view(int_view()), int_view()))
    } else if sym == "[]"@ {
        Some(list_view(TypeView::Var(0)))
    } else if digits_val(sym) matches Some(v) && v <= i32::MAX {
        Some(int_view())
    } else if sym.len() > 0 && sym[0] == '[' {
        match json_int_list(sym) {
            Some(xs) => if xs.len() == 0 {
                Some(list_view(TypeView::Var(0)))
            } else {
                Some(list_view(int_view()))
            },
            None => None,
        }
    } else {
        None
    }
}

/// The simple domain, as the inference driver sees it.
pub struct SimpleDsl;

impl SimpleVal {
    /// The type of this domain value.
    pub fn type_of_dom_val(&self) -> (r: Type)
        ensures
            r@ == spec_type_of_dom_val(*self),
        decreases *self,
    {
        match self {
            SimpleVal::Int(_) => base_int(),
            SimpleVal::List(xs) => {
                if xs.len() == 0 {
                    let r = list_of(Type::Var(0));
                    r
                } else {
                    proof {
                        assert(decreases_to!(*self => self->List_0));
                        assert(decreases_to!(self->List_0 => self->List_0@));
                        assert(decreases_to!(self->List_0@ => self->List_0@[0]));
                    }
                    let elem = xs[0].type_of_dom_val();
                    list_of(elem)
                }
            },
        }
    }

    /// The domain value a parsed integer-list literal denotes.
    pub fn of_int_list(xs: &Vec<i32>) -> (r: SimpleVal)
        ensures
            r matches SimpleVal::List(ys) && ys@.len() == xs@.len() && forall|k: int|
                0 <= k < xs@.len() ==> ys@[k] == SimpleVal::Int(#[trigger] xs@[k]),
    {
        let mut ys: Vec<SimpleVal> = Vec::new();
        let mut k: usize = 0;
        while k < xs.len()
            invariant
                k <= xs@.len(),
                ys@.len() == k,
                forall|j: int| 0 <= j < k ==> ys@[j] == SimpleVal::Int(#[trigger] xs@[j]),
            decreases xs@.len() - k,
        {
            ys.push(SimpleVal::Int(xs[k]));
            k = k + 1;
        }
        SimpleVal::List(ys)
    }
}

/// The `int` base type, as a tree.
fn base_int() -> (r: Type)
    ensures
        r@ == int_view(),
{
    let r = Type::base("int".to_owned());
    proof {
        assert(r@ == int_view());
    }
    r
}

/// The `(list t)` type, as a tree.
fn list_of(t: Type) -> (r: Type)
    ensures
        r@ == list_view(t@),
{
    let ghost tv = t@;
    let mut args: Vec<Type> = Vec::new();
    args.push(t);
    let r = Type::Term("list".to_owned(), args);
    proof {
        lemma_type_views(args@);
        assert(r@->Term_1 =~= seq![tv]);
    }
    r
}

/// Compare a string against a short name.
fn sym_is(sym: &str, name: &str) -> (r: bool)
    ensures
        r == (sym@ == name@),
{
    let a = sym.to_owned();
    let b = name.to_owned();
    a == b
}

impl Dsl for SimpleDsl {
    open spec fn spec_type_of_prim(&self, sym: Seq<char>) -> Option<TypeView> {
        simple_prim_type(sym)
    }

    open spec fn spec_cost_of_prim(&self, sym: Seq<char>) -> int {
        100
    }

    fn type_of_prim(&self, sym: &str) -> (r: Option<Type>) {
        if sym_is(sym, "+") || sym_is(sym, "*") {
            let t = Type::arrow(base_int(), Type::arrow(base_int(), base_int()));
            proof {
                assert(t@ == arr(int_view(), arr(int_view(), int_view())));
            }
            Some(t)
        } else if sym_is(sym, "map") {
            let t = Type::arrow(
                Type::arrow(Type::Var(0), Type::Var(1)),
                Type::arrow(list_of(Type::Var(0)), list_of(Type::Var(1))),
            );
            proof {
                assert(t@ == arr(
                    arr(TypeView::Var(0), TypeView::Var(1)),
                    arr(list_view(TypeView::Var(0)), list_view(TypeView::Var(1))),
                ));
            }
            Some(t)
        } else if sym_is(sym, "sum") {
            let t = Type::arrow(list_of(base_int()), base_int());
            proof {
                assert(t@ == arr(list_view(int_view()), int_view()));
            }
            Some(t)
        } else if sym_is(sym, "[]") {
            Some(list_of(Type::Var(0)))
        } else {
            let cs = str_to_chars(sym);
            match parse_uint_chars(&cs, 0, cs.len()) {
                Some(_) => {
                    proof {
                        assert(cs@.subrange(0, cs@.len() as int) =~= sym@);
                    }
                    Some(base_int())
                },
                None => {
                    proof {
                        assert(cs@.subrange(0, cs@.len() as int) =~= sym@);
                    }
                    if cs.len() > 0 && cs[0] == '[' {
                        match parse_int_list(sym) {
                            Some(xs) => {
                                if xs.len() == 0 {
                                    Some(list_of(Type::Var(0)))
                                } else {
                                    Some(list_of(base_int()))
                                }
                            },
                            None => None,
                        }
                    } else {
                        None
                    }
                },
            }
        }
    }

    fn cost_of_prim(&self, sym: &str) -> (r: i32) {
        100
    }
}

} // verus!
