//! Type terms in tree form: type variables and named constructors with
//! argument lists, the representation the classical substitution
//! engine works on.

use vstd::prelude::*;

verus! {

/// The mathematical value of a type term: the same tree, with the
/// constructor name read as its character sequence.
pub enum TypeView {
    Var(int),
    Term(Seq<char>, Seq<TypeView>),
}

/// A type: a type variable `t<i>`, or a named constructor applied to
/// argument types. The function arrow is the binary constructor named
/// `->`.
#[derive(Debug)]
pub enum Type {
    Var(usize),
    Term(String, Vec<Type>),
}

/// The mathematical value of a type tree.
pub open spec fn type_view(t: Type) -> TypeView
    decreases t, 1int, 0int,
{
    match t {
        Type::Var(i) => TypeView::Var(i as int),
        Type::Term(name, args) => TypeView::Term(name@, type_views(args@)),
    }
}

/// The mathematical values of a list of type trees.
pub open spec fn type_views(s: Seq<Type>) -> Seq<TypeView>
    decreases s, 0int, s.len(),
{
    if s.len() == 0 {
        Seq::empty()
    } else {
        type_views(s.drop_last()).push(type_view(s.last()))
    }
}

/// `type_views` maps the list elementwise.
pub proof fn lemma_type_views(s: Seq<Type>)
    ensures
        type_views(s).len() == s.len(),
        forall|i: int| 0 <= i < s.len() ==> type_views(s)[i] == type_view(#[trigger] s[i]),
    decreases s.len(),
{
    if s.len() > 0 {
        lemma_type_views(s.drop_last());
        assert forall|i: int| 0 <= i < s.len() implies type_views(s)[i] == type_view(
            #[trigger] s[i],
        ) by {
            if i < s.len() - 1 {
                assert(s.drop_last()[i] == s[i]);
            }
        }
    }
}

impl View for Type {
    type V = TypeView;

    open spec fn view(&self) -> TypeView {
        type_view(*self)
    }
}

/// The characters of the arrow-type constructor name.
pub open spec fn arrow_chars() -> Seq<char> {
    "->"@
}

/// Is this view an arrow type?
pub open spec fn view_is_arrow(v: TypeView) -> bool {
    v matches TypeView::Term(name, args) && name == arrow_chars() && args.len() == 2
}

/// Does type variable `i` occur anywhere in the view?
pub open spec fn view_occurs(v: TypeView, i: int) -> bool
    decreases v,
{
    match v {
        TypeView::Var(j) => i == j,
        TypeView::Term(_, args) => exists|k: int|
            0 <= k < args.len() && view_occurs(#[trigger] args[k], i),
    }
}

/// Does the view hold no type variables at all?
pub open spec fn view_concrete(v: TypeView) -> bool
    decreases v,
{
    match v {
        TypeView::Var(_) => false,
        TypeView::Term(_, args) => forall|k: int|
            0 <= k < args.len() ==> view_concrete(#[trigger] args[k]),
    }
}

/// Structural equality of two type trees (the meaning of `==` on
/// `Type`).
fn type_eq(a: &Type, b: &Type) -> (r: bool)
    ensures
        r == (a@ == b@),
    decreases *a,
{
    match (a, b) {
        (Type::Var(i), Type::Var(j)) => i == j,
        (Type::Term(n1, a1), Type::Term(n2, a2)) => {
            proof {
                lemma_type_views(a1@);
                lemma_type_views(a2@);
                assert(a@ == TypeView::Term(n1@, type_views(a1@)));
                assert(b@ == TypeView::Term(n2@, type_views(a2@)));
            }
            if !(*n1 == *n2) {
                return false;
            }
            if a1.len() != a2.len() {
                proof {
                    assert(a@->Term_1.len() != b@->Term_1.len());
                }
                return false;
            }
            let mut k: usize = 0;
            while k < a1.len()
                invariant
                    k <= a1@.len(),
                    a1@.len() == a2@.len(),
                    *a == Type::Term(*n1, *a1),
                    *b == Type::Term(*n2, *a2),
                    n1@ == n2@,
                    forall|j: int| 0 <= j < k ==> #[trigger] a1@[j]@ == a2@[j]@,
                decreases a1@.len() - k,
            {
                if !type_eq(&a1[k], &a2[k]) {
                    proof {
                        lemma_type_views(a1@);
                        lemma_type_views(a2@);
                        assert(a@->Term_1[k as int] != b@->Term_1[k as int]);
                    }
                    return false;
                }
                k = k + 1;
            }
            proof {
                lemma_type_views(a1@);
                lemma_type_views(a2@);
                assert forall|j: int| 0 <= j < a1@.len() implies type_views(a1@)[j]
                    == type_views(a2@)[j] by {
                    assert(a1@[j]@ == a2@[j]@);
                }
                assert(a@->Term_1 =~= b@->Term_1);
            }
            true
        },
        (Type::Var(i), Type::Term(_, _)) => false,
        (Type::Term(_, _), Type::Var(j)) => false,
    }
}

impl PartialEq for Type {
    fn eq(&self, other: &Type) -> (r: bool) {
        type_eq(self, other)
    }
}

impl Eq for Type {

}

impl vstd::std_specs::cmp::PartialEqSpecImpl for Type {
    open spec fn obeys_eq_spec() -> bool {
        true
    }

    open spec fn eq_spec(&self, other: &Type) -> bool {
        self@ == other@
    }
}

impl Clone for Type {
    /// A clone is structurally the same tree.
    fn clone(&self) -> (r: Type)
        ensures
            r@ == self@,
        decreases *self,
    {
        match self {
            Type::Var(i) => Type::Var(*i),
            Type::Term(name, args) => {
                let mut cargs: Vec<Type> = Vec::new();
                let mut k: usize = 0;
                while k < args.len()
                    invariant
                        k <= args@.len(),
                        *self == Type::Term(*name, *args),
                        cargs@.len() == k,
                        forall|j: int| 0 <= j < k ==> #[trigger] cargs@[j]@ == args@[j]@,
                    decreases args@.len() - k,
                {
                    proof {
                        assert(decreases_to!(*self => self->Term_1));
                        assert(decreases_to!(self->Term_1 => self->Term_1@));
                        assert(decreases_to!(self->Term_1@ => self->Term_1@[k as int]));
                        assert(self->Term_1@[k as int] == args@[k as int]);
                    }
                    let c = args[k].clone();
                    cargs.push(c);
                    k = k + 1;
                }
                let r = Type::Term(name.clone(), cargs);
                proof {
                    lemma_type_views(args@);
                    lemma_type_views(cargs@);
                    assert forall|j: int| 0 <= j < args@.len() implies type_views(cargs@)[j]
                        == type_views(args@)[j] by {
                        assert(cargs@[j]@ == args@[j]@);
                    }
                    assert(type_views(cargs@) =~= type_views(args@));
                }
                r
            },
        }
    }
}

impl Type {
    /// A nullary constructor.
    pub fn base(name: String) -> (r: Type)
        ensures
            r@ == TypeView::Term(name@, Seq::<TypeView>::empty()),
    {
        let r = Type::Term(name, Vec::new());
        proof {
            lemma_type_views(Seq::<Type>::empty());
            assert(r@->Term_1 =~= Seq::<TypeView>::empty());
        }
        r
    }

    /// The function type `left -> right`.
    pub fn arrow(left: Type, right: Type) -> (r: Type)
        ensures
            r@ == TypeView::Term(arrow_chars(), seq![left@, right@]),
    {
        let ghost lv = left@;
        let ghost rv = right@;
        let mut args: Vec<Type> = Vec::new();
        args.push(left);
        args.push(right);
        let r = Type::Term("->".to_owned(), args);
        proof {
            lemma_type_views(args@);
            assert(args@.len() == 2 && args@[0]@ == lv && args@[1]@ == rv);

            assert(type_views(args@) =~= seq![lv, rv]);
        }
        r
    }

    /// Is this an arrow type?
    pub fn is_arrow(&self) -> (r: bool)
        ensures
            r == view_is_arrow(self@),
    {
        match self {
            Type::Var(_) => false,
            Type::Term(name, args) => {
                proof {
                    lemma_type_views(args@);
                }
                is_arrow_name(name) && args.len() == 2
            },
        }
    }

    /// The two sides of an arrow type, or `None` for anything else.
    pub fn as_arrow(&self) -> (r: Option<(&Type, &Type)>)
        ensures
            match r {
                Some(p) => view_is_arrow(self@) && self@->Term_1[0] == p.0@ && self@->Term_1[1]
                    == p.1@ && (self matches Type::Term(_, _)) && *p.0 == self->Term_1@[0]
                    && *p.1 == self->Term_1@[1],
                None => !view_is_arrow(self@),
            },
    {
        match self {
            Type::Term(name, args) => {
                proof {
                    lemma_type_views(args@);
                }
                if is_arrow_name(name) && args.len() == 2 {
                    Some((&args[0], &args[1]))
                } else {
                    None
                }
            },
            _ => None,
        }
    }

    /// Does type variable `i` occur in this type?
    pub fn occurs(&self, i: usize) -> (r: bool)
        ensures
            r == view_occurs(self@, i as int),
        decreases *self,
    {
        match self {
            Type::Var(j) => i == *j,
            Type::Term(nm, args) => {
                proof {
                    lemma_type_views(args@);
                }
                let mut k: usize = 0;
                let mut found = false;
                while k < args.len()
                    invariant
                        k <= args@.len(),
                        *self == Type::Term(*nm, *args),
                        self@ matches TypeView::Term(_, vargs) && vargs.len() == args@.len()
                            && (forall|j: int|
                            0 <= j < args@.len() ==> vargs[j] == #[trigger] args@[j]@),
                        !found ==> forall|j: int|
                            0 <= j < k ==> !view_occurs(#[trigger] args@[j]@, i as int),
                        found ==> view_occurs(self@, i as int),
                        found ==> k == args@.len(),
                    decreases args@.len() - k,
                {
                    if args[k].occurs(i) {
                        found = true;
                        proof {
                            assert(view_occurs(self@->Term_1[k as int], i as int));
                        }
                        k = args.len();
                    } else {
                        k = k + 1;
                    }
                }
                proof {
                    if !found {
                        assert forall|j: int|
                            0 <= j < self@->Term_1.len() implies !view_occurs(
                            #[trigger] self@->Term_1[j],
                            i as int,
                        ) by {
                            assert(self@->Term_1[j] == args@[j]@);
                        }
                    }
                }
                found
            },
        }
    }

    /// Does this type hold no type variables at all?
    pub fn is_concrete(&self) -> (r: bool)
        ensures
            r == view_concrete(self@),
        decreases *self,
    {
        match self {
            Type::Var(_) => false,
            Type::Term(nm, args) => {
                proof {
                    lemma_type_views(args@);
                }
                let mut k: usize = 0;
                while k < args.len()
                    invariant
                        k <= args@.len(),
                        *self == Type::Term(*nm, *args),
                        self@ matches TypeView::Term(_, vargs) && vargs.len() == args@.len()
                            && (forall|j: int|
                            0 <= j < args@.len() ==> vargs[j] == #[trigger] args@[j]@),
                        forall|j: int| 0 <= j < k ==> view_concrete(#[trigger] args@[j]@),
                    decreases args@.len() - k,
                {
                    if !args[k].is_concrete() {
                        proof {
                            assert(!view_concrete(self@->Term_1[k as int]));
                        }
                        return false;
                    }
                    k = k + 1;
                }
                proof {
                    assert forall|j: int| 0 <= j < self@->Term_1.len() implies view_concrete(
                        #[trigger] self@->Term_1[j],
                    ) by {
                        assert(self@->Term_1[j] == args@[j]@);
                    }
                }
                true
            },
        }
    }
}

/// Is `s` the arrow constructor's name?
pub fn str_is_arrow(s: &str) -> (r: bool)
    ensures
        r == (s@ == arrow_chars()),
{
    let arrow = "->".to_owned();
    let owned = s.to_owned();
    owned == arrow
}

/// Is `name` the arrow constructor's name?
fn is_arrow_name(name: &String) -> (r: bool)
    ensures
        r == (name@ == arrow_chars()),
{
    let arrow = "->".to_owned();
    *name == arrow
}

/// The ways unification can fail.
#[derive(Debug, Clone, Copy, PartialEq, Eq, Structural)]
pub enum UnifyErr {
    /// Occurs-check violation: the binding would build an infinite
    /// type.
    Occurs,
    /// Two fully ground, unequal terms (reported by the tree-based
    /// engine's ground fast path).
    ConcreteSubtree,
    /// Mismatched head symbol or arity.
    Production,
}

/// The result of a unification attempt.
pub type UnifyResult = Result<(), UnifyErr>;

/// The uncurried argument list of an arrow chain: empty for a
/// non-arrow.
pub open spec fn view_args(v: TypeView) -> Seq<TypeView>
    decreases v,
{
    if view_is_arrow(v) {
        seq![v->Term_1[0]] + view_args(v->Term_1[1])
    } else {
        Seq::empty()
    }
}

/// The return type after uncurrying: the type itself for a non-arrow.
pub open spec fn view_return_type(v: TypeView) -> TypeView
    decreases v,
{
    if view_is_arrow(v) {
        view_return_type(v->Term_1[1])
    } else {
        v
    }
}

/// Iterator over the `(left, right)` pairs of a chain of arrows.
pub struct ArrowIter<'a> {
    pub curr: &'a Type,
}

impl<'a> ArrowIter<'a> {
    /// The next arrow pair, stepping to the right-hand side.
    pub fn next(&mut self) -> (r: Option<(&'a Type, &'a Type)>)
        ensures
            match r {
                Some(p) => view_is_arrow(old(self).curr@) && p.0@ == old(self).curr@->Term_1[0]
                    && p.1@ == old(self).curr@->Term_1[1] && final(self).curr@ == old(
                    self,
                ).curr@->Term_1[1],
                None => !view_is_arrow(old(self).curr@) && final(self).curr == old(self).curr,
            },
    {
        match self.curr.as_arrow() {
            Some((left, right)) => {
                self.curr = right;
                Some((left, right))
            },
            None => None,
        }
    }
}

impl Type {
    /// Iterate over the arrow chain starting here.
    pub fn iter_arrows<'a>(&'a self) -> (r: ArrowIter<'a>)
        ensures
            r.curr == self,
    {
        ArrowIter { curr: self }
    }

    /// The uncurried argument types of this arrow type (empty for a
    /// non-arrow).
    pub fn iter_args(&self) -> (r: Vec<Type>)
        ensures
            type_views(r@) == view_args(self@),
        decreases *self,
    {
        let mut out: Vec<Type> = Vec::new();
        let mut cur: &Type = self;
        while matches!(cur, Type::Term(_, _)) && cur.is_arrow()
            invariant
                view_args(self@) == type_views(out@) + view_args(cur@),
            decreases *cur,
        {
            let ghost prev = *cur;
            let ghost outv = out@;
            match cur.as_arrow() {
                Some((left, right)) => {
                    let lc = left.clone();
                    out.push(lc);
                    proof {
                        lemma_type_views(prev->Term_1@);
                        assert(prev->Term_1@.len() == 2);
                        assert(decreases_to!(prev => prev->Term_1));
                        assert(decreases_to!(prev->Term_1 => prev->Term_1@));
                        assert(decreases_to!(prev->Term_1@ => prev->Term_1@[1]));
                    }
                    cur = right;
                    proof {
                        assert(out@.drop_last() =~= outv);
                        assert(out@.last()@ == prev@->Term_1[0]);
                        assert(type_views(out@) == type_views(outv).push(out@.last()@));
                        assert(type_views(outv) + view_args(prev@) =~= type_views(out@)
                            + view_args(cur@));
                    }
                },
                None => {
                    proof {
                        assert(false);
                    }
                },
            }
        }
        proof {
            assert(view_args(self@) =~= type_views(out@));
        }
        out
    }

    /// Arity of this arrow type (zero for a non-arrow).
    pub fn arity(&self) -> (r: usize)
        ensures
            r == view_args(self@).len(),
    {
        let args = self.iter_args();
        proof {
            lemma_type_views(args@);
        }
        args.len()
    }

    /// The return type after uncurrying; a non-arrow is returned
    /// unchanged.
    pub fn return_type(&self) -> (r: &Type)
        ensures
            r@ == view_return_type(self@),
        decreases *self,
    {
        match self.as_arrow() {
            Some((_, right)) => {
                proof {
                    lemma_type_views(self->Term_1@);
                    assert(self->Term_1@.len() == 2);
                    assert(decreases_to!(*self => self->Term_1));
                    assert(decreases_to!(self->Term_1 => self->Term_1@));
                    assert(decreases_to!(self->Term_1@ => self->Term_1@[1]));
                }
                right.return_type()
            },
            None => self,
        }
    }
}

/// The rendering of a type: `t<i>` for a variable, a bare name for a
/// nullary constructor, arrows written infix (parenthesized except at
/// the right of an enclosing arrow), other constructors as
/// `(name arg ...)`.
pub open spec fn type_show(v: TypeView, arrow_parens: bool) -> Seq<char>
    decreases v, 1int, 0int,
{
    match v {
        TypeView::Var(i) => seq!['t'] + crate::show::int_chars(i),
        TypeView::Term(name, args) => {
            if args.len() == 0 {
                name
            } else if name == arrow_chars() && args.len() == 2 {
                let inner = type_show(args[0], true) + seq![' ', '-', '>', ' '] + type_show(
                    args[1],
                    false,
                );
                if arrow_parens {
                    seq!['('] + inner + seq![')']
                } else {
                    inner
                }
            } else {
                seq!['('] + name + type_show_args(args) + seq![')']
            }
        },
    }
}

/// The rendering of a constructor's arguments, each preceded by a
/// space.
pub open spec fn type_show_args(args: Seq<TypeView>) -> Seq<char>
    decreases args, 0int, args.len(),
{
    if args.len() == 0 {
        Seq::empty()
    } else {
        type_show_args(args.drop_last()) + seq![' '] + type_show(args.last(), true)
    }
}

impl Type {
    /// Append this type's rendering to `out`.
    fn show_rec(&self, arrow_parens: bool, out: &mut Vec<char>)
        ensures
            final(out)@ == old(out)@ + type_show(self@, arrow_parens),
        decreases *self, 1int, 0int,
    {
        match self {
            Type::Var(i) => {
                out.push('t');
                crate::show::push_usize_dec(*i, out);
                proof {
                    assert(out@ =~= old(out)@ + type_show(self@, arrow_parens));
                }
            },
            Type::Term(name, args) => {
                proof {
                    lemma_type_views(args@);
                }
                if args.len() == 0 {
                    crate::show::push_string_chars(name, out);
                    proof {
                        assert(out@ =~= old(out)@ + type_show(self@, arrow_parens));
                    }
                } else if is_arrow_name(name) && args.len() == 2 {
                    proof {
                        assert(decreases_to!(*self => self->Term_1));
                        assert(decreases_to!(self->Term_1 => self->Term_1@));
                        assert(decreases_to!(self->Term_1@ => self->Term_1@[0]));
                        assert(decreases_to!(self->Term_1@ => self->Term_1@[1]));
                    }
                    if arrow_parens {
                        out.push('(');
                    }
                    args[0].show_rec(true, out);
                    out.push(' ');
                    out.push('-');
                    out.push('>');
                    out.push(' ');
                    args[1].show_rec(false, out);
                    if arrow_parens {
                        out.push(')');
                    }
                    proof {
                        assert(out@ =~= old(out)@ + type_show(self@, arrow_parens));
                    }
                } else {
                    out.push('(');
                    crate::show::push_string_chars(name, out);
                    let ghost mid = out@;
                    let mut k: usize = 0;
                    proof {
                        assert(type_show_args(self@->Term_1.subrange(0, 0))
                            =~= Seq::<char>::empty());
                        assert(out@ =~= mid + type_show_args(self@->Term_1.subrange(0, 0)));
                    }
                    while k < args.len()
                        invariant
                            k <= args@.len(),
                            *self == Type::Term(*name, *args),
                            self@->Term_1.len() == args@.len(),
                            forall|j: int|
                                0 <= j < args@.len() ==> self@->Term_1[j] == #[trigger] args@[j]@,
                            out@ == mid + type_show_args(self@->Term_1.subrange(0, k as int)),
                        decreases args@.len() - k,
                    {
                        proof {
                            assert(decreases_to!(*self => self->Term_1));
                            assert(decreases_to!(self->Term_1 => self->Term_1@));
                            assert(decreases_to!(self->Term_1@ => self->Term_1@[k as int]));
                        }
                        out.push(' ');
                        args[k].show_rec(true, out);
                        k = k + 1;
                        proof {
                            assert(self@->Term_1.subrange(0, k as int).drop_last()
                                =~= self@->Term_1.subrange(0, k - 1));
                            assert(self@->Term_1.subrange(0, k as int).last()
                                == self@->Term_1[k - 1]);
                            assert(out@ =~= mid + type_show_args(
                                self@->Term_1.subrange(0, k as int),
                            ));
                        }
                    }
                    out.push(')');
                    proof {
                        assert(self@->Term_1.subrange(0, args@.len() as int) =~= self@->Term_1);
                        assert(out@ =~= old(out)@ + type_show(self@, arrow_parens));
                    }
                }
            },
        }
    }

    /// Render this type as text.
    pub fn show(&self) -> (r: String)
        ensures
            r@ == type_show(self@, true),
    {
        let mut out: Vec<char> = Vec::new();
        self.show_rec(true, &mut out);
        crate::show::chars_to_string(&out)
    }
}

/// The largest variable id in a view, or `-1` for a ground view.
pub open spec fn vmax_view(v: TypeView) -> int
    decreases v, 1int, 0int,
{
    match v {
        TypeView::Var(i) => i,
        TypeView::Term(_, args) => vmax_list(args),
    }
}

/// The largest variable id over a list of views, or `-1`.
pub open spec fn vmax_list(vs: Seq<TypeView>) -> int
    decreases vs, 0int, vs.len(),
{
    if vs.len() == 0 {
        -1
    } else {
        vstd::math::max(vmax_list(vs.drop_last()), vmax_view(vs.last()))
    }
}

/// Are all variable ids in the view non-negative (true of the view
/// of every type tree)?
pub open spec fn view_vars_nonneg(v: TypeView) -> bool {
    forall|j: int| view_occurs(v, j) ==> j >= 0
}

/// The view of a type tree has non-negative variable ids.
pub proof fn lemma_type_view_nonneg(t: Type)
    ensures
        view_vars_nonneg(t@),
    decreases t,
{
    match t {
        Type::Var(_) => {},
        Type::Term(name, args) => {
            lemma_type_views(args@);
            assert forall|j: int| view_occurs(t@, j) implies j >= 0 by {
                let vargs = t@->Term_1;
                let k = choose|k: int| 0 <= k < vargs.len() && view_occurs(vargs[k], j);
                assert(vargs[k] == args@[k]@);
                lemma_type_view_nonneg(args@[k]);
            }
        },
    }
}

/// `vmax_view` bounds every occurring variable, is itself occurring
/// when non-negative, and is `-1` exactly on ground views.
pub proof fn lemma_vmax(v: TypeView)
    requires
        view_vars_nonneg(v),
    ensures
        forall|j: int| view_occurs(v, j) ==> j <= vmax_view(v),
        vmax_view(v) >= 0 ==> view_occurs(v, vmax_view(v)),
        (vmax_view(v) == -1) <==> view_concrete(v),
        vmax_view(v) >= -1,
    decreases v, 1int, 0int,
{
    match v {
        TypeView::Var(i) => {
            assert(view_occurs(v, i));
        },
        TypeView::Term(_, args) => {
            assert forall|k: int, j: int|
                0 <= k < args.len() && #[trigger] view_occurs(args[k], j) implies j >= 0 by {
                assert(view_occurs(v, j));
            }
            lemma_vmax_list(args);
            assert forall|j: int| view_occurs(v, j) implies j <= vmax_view(v) by {
                let k = choose|k: int| 0 <= k < args.len() && view_occurs(args[k], j);
            }
            if vmax_list(args) >= 0 {
                let k = choose|k: int|
                    0 <= k < args.len() && vmax_view(#[trigger] args[k]) == vmax_list(args)
                        && view_occurs(args[k], vmax_list(args));
                assert(view_occurs(v, vmax_list(args)));
            }
        },
    }
}

/// As `lemma_vmax`, over a list.
pub proof fn lemma_vmax_list(vs: Seq<TypeView>)
    requires
        forall|k: int, j: int|
            0 <= k < vs.len() && #[trigger] view_occurs(vs[k], j) ==> j >= 0,
    ensures
        vmax_list(vs) >= -1,
        forall|k: int, j: int|
            0 <= k < vs.len() && #[trigger] view_occurs(vs[k], j) ==> j <= vmax_list(vs),
        vmax_list(vs) >= 0 ==> exists|k: int|
            0 <= k < vs.len() && vmax_view(#[trigger] vs[k]) == vmax_list(vs) && view_occurs(
                vs[k],
                vmax_list(vs),
            ),
        (vmax_list(vs) == -1) <==> (forall|k: int|
            0 <= k < vs.len() ==> view_concrete(#[trigger] vs[k])),
        forall|k: int| 0 <= k < vs.len() ==> vmax_view(#[trigger] vs[k]) <= vmax_list(vs),
    decreases vs, 0int, vs.len(),
{
    if vs.len() > 0 {
        assert forall|k: int, j: int|
            0 <= k < vs.drop_last().len() && #[trigger] view_occurs(vs.drop_last()[k], j)
            implies j >= 0 by {
            assert(vs.drop_last()[k] == vs[k]);
        }
        lemma_vmax_list(vs.drop_last());
        assert forall|j: int| #[trigger] view_occurs(vs.last(), j) implies j >= 0 by {
            assert(vs[vs.len() - 1] == vs.last());
        }
        lemma_vmax(vs.last());
        assert forall|k: int, j: int|
            0 <= k < vs.len() && #[trigger] view_occurs(vs[k], j) implies j <= vmax_list(vs) by {
            if k < vs.len() - 1 {
                assert(vs.drop_last()[k] == vs[k]);
            }
        }
        assert forall|k: int| 0 <= k < vs.len() implies vmax_view(#[trigger] vs[k]) <= vmax_list(
            vs,
        ) by {
            if k < vs.len() - 1 {
                assert(vs.drop_last()[k] == vs[k]);
            }
        }
        if vmax_list(vs) >= 0 {
            if vmax_view(vs.last()) == vmax_list(vs) {
                assert(vs[vs.len() - 1] == vs.last());
            } else {
                let k = choose|k: int|
                    0 <= k < vs.drop_last().len() && vmax_view(#[trigger] vs.drop_last()[k])
                        == vmax_list(vs.drop_last()) && view_occurs(
                        vs.drop_last()[k],
                        vmax_list(vs.drop_last()),
                    );
                assert(vs[k] == vs.drop_last()[k]);
            }
        }
        if vmax_list(vs) == -1 {
            assert forall|k: int| 0 <= k < vs.len() implies view_concrete(#[trigger] vs[k]) by {
                if k < vs.len() - 1 {
                    assert(vs.drop_last()[k] == vs[k]);
                }
            }
        }
    }
}

impl Type {
    /// The largest variable id in this type, or `None` for a ground
    /// type.
    pub fn max_var_of(&self) -> (r: Option<usize>)
        ensures
            match r {
                Some(m) => vmax_view(self@) == m as int,
                None => vmax_view(self@) == -1,
            },
        decreases *self,
    {
        match self {
            Type::Var(i) => Some(*i),
            Type::Term(nm, args) => {
                proof {
                    lemma_type_views(args@);
                    assert(vmax_list(type_views(args@).subrange(0, 0)) == -1);
                }
                let mut acc: Option<usize> = None;
                let mut k: usize = 0;
                while k < args.len()
                    invariant
                        k <= args@.len(),
                        *self == Type::Term(*nm, *args),
                        self@->Term_1.len() == args@.len(),
                        forall|j: int|
                            0 <= j < args@.len() ==> self@->Term_1[j] == #[trigger] args@[j]@,
                        acc matches Some(m) ==> vmax_list(self@->Term_1.subrange(0, k as int))
                            == m as int,
                        acc is None ==> vmax_list(self@->Term_1.subrange(0, k as int)) == -1,
                    decreases args@.len() - k,
                {
                    proof {
                        assert(decreases_to!(*self => self->Term_1));
                        assert(decreases_to!(self->Term_1 => self->Term_1@));
                        assert(decreases_to!(self->Term_1@ => self->Term_1@[k as int]));
                    }
                    let cm = args[k].max_var_of();
                    acc = match (acc, cm) {
                        (Some(a), Some(b)) => if a >= b {
                            Some(a)
                        } else {
                            Some(b)
                        },
                        (Some(a), None) => Some(a),
                        (None, b) => b,
                    };
                    k = k + 1;
                    proof {
                        assert(self@->Term_1.subrange(0, k as int).drop_last()
                            =~= self@->Term_1.subrange(0, k - 1));
                        assert(self@->Term_1.subrange(0, k as int).last()
                            == self@->Term_1[k - 1]);
                    }
                }
                proof {
                    assert(self@->Term_1.subrange(0, args@.len() as int) =~= self@->Term_1);
                }
                acc
            },
        }
    }
}

} // verus!
