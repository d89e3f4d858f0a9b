//! The s-expression parser: curried or uncurried program text is read
//! right to left and appended onto an arena, bottom-up.
//!
//! The specification below mirrors the scanning algorithm exactly: a
//! stack of parsed items, and a count of pending items per open-paren
//! depth; closing a parenthesis over `n` pending items folds them
//! left-to-right into `n - 1` nested binary applications.

use vstd::prelude::*;
use crate::expr::{Node, NodeView, Order, ExprSet, Idx, views_of, nodes_ok, spans_ok};

verus! {

/// The ways a parse can fail.
#[derive(Debug, Clone, Copy, PartialEq, Eq, Structural)]
pub enum ParseErr {
    /// Unbalanced parentheses: extra close, extra open, or a final
    /// nesting other than one item.
    Mismatched,
    /// The input holds no item at all.
    Empty,
    /// `lam` not applied to exactly one sub-term.
    LamArity,
    /// `lam` neither at the very start of the input nor immediately
    /// after an opening parenthesis.
    LamParen,
    /// Malformed integer literal after `$` or `#`.
    BadInt,
}

/// The message text reported for each kind of parse failure.
pub open spec fn err_text(e: ParseErr) -> Seq<char> {
    match e {
        ParseErr::Mismatched => "parse error: mismatched parens"@,
        ParseErr::Empty => "parse error: input is empty string"@,
        ParseErr::LamArity => "parse error: lam must be applied to exactly one argument"@,
        ParseErr::LamParen => "parse error: lam must immediately follow an opening paren unless at the start of input"@,
        ParseErr::BadInt => "parse error: malformed integer literal"@,
    }
}

/// Whitespace for the purposes of the grammar.
pub open spec fn is_ws(c: char) -> bool {
    c == ' ' || c == '\t' || c == '\n' || c == '\r'
}

/// A character that ends a word.
pub open spec fn is_delim(c: char) -> bool {
    is_ws(c) || c == '(' || c == ')'
}

/// Does `s` consist of whitespace only?
pub open spec fn all_ws(s: Seq<char>) -> bool {
    forall|i: int| 0 <= i < s.len() ==> is_ws(#[trigger] s[i])
}

/// A decimal digit.
pub open spec fn is_digit(c: char) -> bool {
    '0' <= c && c <= '9'
}

/// The value of `s` read as an unsigned decimal numeral, or `None` if
/// `s` is empty or holds a non-digit.
pub open spec fn digits_val(s: Seq<char>) -> Option<int>
    decreases s.len(),
{
    if s.len() == 0 {
        None
    } else if !is_digit(s.last()) {
        None
    } else if s.len() == 1 {
        Some(s.last() as int - '0' as int)
    } else {
        match digits_val(s.drop_last()) {
            Some(v) => Some(10 * v + (s.last() as int - '0' as int)),
            None => None,
        }
    }
}

/// Start position of the word that ends `s`: the position after the
/// last delimiter.
pub open spec fn word_start(s: Seq<char>) -> int
    decreases s.len(),
{
    if s.len() == 0 {
        0
    } else if is_delim(s.last()) {
        s.len() as int
    } else {
        word_start(s.drop_last())
    }
}

/// Bounds of `word_start`: it stays within the text, and a text
/// ending in a word character has a non-empty trailing word.
pub proof fn lemma_word_start_bounds(s: Seq<char>)
    ensures
        0 <= word_start(s) <= s.len(),
        s.len() > 0 && !is_delim(s.last()) ==> word_start(s) < s.len(),
    decreases s.len(),
{
    if s.len() > 0 && !is_delim(s.last()) {
        lemma_word_start_bounds(s.drop_last());
    }
}

/// The node a single word denotes: `$<uint>` a variable, `#<uint>` an
/// invention variable, anything else a primitive symbol.
pub open spec fn atom_of(w: Seq<char>) -> Result<NodeView, ParseErr> {
    if w.len() > 0 && w[0] == '$' {
        match digits_val(w.subrange(1, w.len() as int)) {
            Some(v) => if v <= i32::MAX {
                Ok(NodeView::Var(v))
            } else {
                Err(ParseErr::BadInt)
            },
            None => Err(ParseErr::BadInt),
        }
    } else if w.len() > 0 && w[0] == '#' {
        match digits_val(w.subrange(1, w.len() as int)) {
            Some(v) => if v <= i32::MAX {
                Ok(NodeView::IVar(v))
            } else {
                Err(ParseErr::BadInt)
            },
            None => Err(ParseErr::BadInt),
        }
    } else {
        Ok(NodeView::Prim(w))
    }
}

/// Fold the top `k + 1` items of the stack into `k` nested binary
/// applications, left to right: the top item applied to the next, the
/// resulting node applied to the one after, and so on.
pub open spec fn fold_apps(arena: Seq<NodeView>, items: Seq<int>, k: nat) -> (Seq<
    NodeView,
>, Seq<int>)
    decreases k,
{
    if k == 0 || items.len() < 2 {
        (arena, items)
    } else {
        let f = items[items.len() - 1];
        let x = items[items.len() - 2];
        let arena2 = arena.push(NodeView::App(f, x));
        let items2 = items.drop_last().drop_last().push(arena.len() as int);
        fold_apps(arena2, items2, (k - 1) as nat)
    }
}

/// The freshly appended slice, reversed in place (what a parent-first
/// arena receives once parsing completes).
pub open spec fn reverse_tail(arena: Seq<NodeView>, init_len: int) -> Seq<NodeView> {
    arena.subrange(0, init_len) + arena.subrange(init_len, arena.len() as int).reverse()
}

/// The arena as parsing leaves it on success: reversed tail for a
/// parent-first arena, unchanged otherwise.
pub open spec fn finish_arena(arena: Seq<NodeView>, order: Order, init_len: int) -> Seq<
    NodeView,
> {
    if order == Order::ParentFirst {
        reverse_tail(arena, init_len)
    } else {
        arena
    }
}

/// One parse outcome: the arena contents (also after a failure, since
/// parsing is append-only and keeps what it already built), and the
/// root index or the failure.
pub open spec fn parse_go(
    arena: Seq<NodeView>,
    items: Seq<int>,
    depths: Seq<int>,
    s: Seq<char>,
    order: Order,
    init_len: int,
) -> (Seq<NodeView>, Result<int, ParseErr>)
    decreases s.len(),
{
    if s.len() == 0 {
        if items.len() == 0 {
            (arena, Err(ParseErr::Empty))
        } else if depths.len() != 1 {
            (arena, Err(ParseErr::Mismatched))
        } else {
            let n = depths[0];
            let (arena2, items2) = fold_apps(arena, items, (n - 1) as nat);
            if items2.len() != 1 {
                (arena2, Err(ParseErr::Mismatched))
            } else {
                (finish_arena(arena2, order, init_len), Ok(items2[0]))
            }
        }
    } else if is_ws(s.last()) {
        parse_go(arena, items, depths, s.drop_last(), order, init_len)
    } else if s.last() == '(' {
        if depths.len() == 0 {
            (arena, Err(ParseErr::Mismatched))
        } else {
            let n = depths.last();
            if n == 0 {
                parse_go(arena, items, depths.drop_last(), s.drop_last(), order, init_len)
            } else {
                let (arena2, items2) = fold_apps(arena, items, (n - 1) as nat);
                let depths2 = depths.drop_last();
                if depths2.len() == 0 {
                    (arena2, Err(ParseErr::Mismatched))
                } else {
                    parse_go(
                        arena2,
                        items2,
                        depths2.update(depths2.len() - 1, depths2.last() + 1),
                        s.drop_last(),
                        order,
                        init_len,
                    )
                }
            }
        }
    } else if s.last() == ')' {
        parse_go(arena, items, depths.push(0), s.drop_last(), order, init_len)
    } else {
        let w0 = word_start(s);
        let w = s.subrange(w0, s.len() as int);
        let rest = s.subrange(0, w0);
        proof {
            lemma_word_start_bounds(s);
        }
        if w == seq!['l', 'a', 'm'] {
            if all_ws(rest) {
                // `lam` at the very start of the input.
                if depths.len() == 0 {
                    (arena, Err(ParseErr::Mismatched))
                } else if depths.last() != 1 {
                    (arena, Err(ParseErr::LamArity))
                } else if depths.len() != 1 || items.len() != 1 {
                    (arena, Err(ParseErr::Mismatched))
                } else {
                    let arena2 = arena.push(NodeView::Lam(items.last()));
                    (finish_arena(arena2, order, init_len), Ok(arena.len() as int))
                }
            } else if rest.last() != '(' {
                (arena, Err(ParseErr::LamParen))
            } else if depths.len() == 0 {
                (arena, Err(ParseErr::Mismatched))
            } else if depths.last() != 1 {
                (arena, Err(ParseErr::LamArity))
            } else {
                let arena2 = arena.push(NodeView::Lam(items.last()));
                let items2 = items.drop_last().push(arena.len() as int);
                let depths2 = depths.drop_last();
                if depths2.len() == 0 {
                    (arena2, Err(ParseErr::Mismatched))
                } else {
                    parse_go(
                        arena2,
                        items2,
                        depths2.update(depths2.len() - 1, depths2.last() + 1),
                        rest.drop_last(),
                        order,
                        init_len,
                    )
                }
            }
        } else {
            match atom_of(w) {
                Err(e) => (arena, Err(e)),
                Ok(nv) => {
                    if depths.len() == 0 {
                        (arena, Err(ParseErr::Mismatched))
                    } else {
                        parse_go(
                            arena.push(nv),
                            items.push(arena.len() as int),
                            depths.update(depths.len() - 1, depths.last() + 1),
                            rest,
                            order,
                            init_len,
                        )
                    }
                },
            }
        }
    }
}

/// What parsing `s` onto an arena currently holding `arena0` yields.
pub open spec fn spec_parse(arena0: Seq<NodeView>, order: Order, s: Seq<char>) -> (Seq<
    NodeView,
>, Result<int, ParseErr>) {
    parse_go(arena0, Seq::empty(), seq![0int], s, order, arena0.len() as int)
}

/// Integer views of a stack of arena indices.
pub open spec fn uints(s: Seq<usize>) -> Seq<int> {
    s.map_values(|x: usize| x as int)
}

/// Integer views of the per-depth item counts.
pub open spec fn sum_depths(s: Seq<usize>) -> int
    decreases s.len(),
{
    if s.len() == 0 {
        0
    } else {
        sum_depths(s.drop_last()) + s.last()
    }
}

/// The per-depth counts are non-negative and each is at most the sum.
pub proof fn lemma_sum_depths_last(s: Seq<usize>)
    ensures
        sum_depths(s) >= 0,
        s.len() > 0 ==> sum_depths(s) >= s.last(),
        s.len() > 0 ==> sum_depths(s.drop_last()) >= 0,
    decreases s.len(),
{
    if s.len() > 0 {
        lemma_sum_depths_last(s.drop_last());
    }
}

/// Whitespace test, executable form.
fn is_ws_e(c: char) -> (r: bool)
    ensures
        r == is_ws(c),
{
    c == ' ' || c == '\t' || c == '\n' || c == '\r'
}

/// Word-delimiter test, executable form.
fn is_delim_e(c: char) -> (r: bool)
    ensures
        r == is_delim(c),
{
    is_ws_e(c) || c == '(' || c == ')'
}

impl ExprSet {
    /// Fold the top `k + 1` stack items into `k` nested applications,
    /// appending one `App` node per fold.
    fn do_fold(&mut self, items: &mut Vec<usize>, k: usize)
        requires
            old(items)@.len() >= k + 1,
            forall|i: int|
                0 <= i < old(items)@.len() ==> #[trigger] old(items)@[i] < old(self).nodes@.len(),
            old(self).nodes@.len() + k < usize::MAX,
            old(self).spans is Some ==> old(self).wf(),
        ensures
            (views_of(final(self).nodes@), uints(final(items)@)) == fold_apps(
                views_of(old(self).nodes@),
                uints(old(items)@),
                k as nat,
            ),
            final(self).nodes@.len() == old(self).nodes@.len() + k,
            final(items)@.len() == old(items)@.len() - k,
            forall|i: int|
                0 <= i < final(items)@.len() ==> #[trigger] final(items)@[i] < final(self).nodes@.len(),
            final(self).order == old(self).order,
            final(self).spans is Some <==> old(self).spans is Some,
            spans_ok(*final(self)),
            final(self).spans is Some ==> final(self).wf(),
            nodes_ok(old(self).nodes@, old(self).order) && (old(self).order == Order::ChildFirst
                || old(self).order == Order::Any) ==> nodes_ok(
                final(self).nodes@,
                final(self).order,
            ),
    {
        let ghost v0 = views_of(self.nodes@);
        let ghost i0 = uints(items@);
        let mut j: usize = 0;
        while j < k
            invariant
                j <= k,
                items@.len() == old(items)@.len() - j,
                items@.len() >= k - j + 1,
                self.nodes@.len() == old(self).nodes@.len() + j,
                old(self).nodes@.len() + k < usize::MAX,
                forall|i: int|
                    0 <= i < items@.len() ==> #[trigger] items@[i] < self.nodes@.len(),
                fold_apps(v0, i0, k as nat) == fold_apps(
                    views_of(self.nodes@),
                    uints(items@),
                    (k - j) as nat,
                ),
                self.order == old(self).order,
                (self.spans is Some <==> old(self).spans is Some),
                self.spans is Some ==> self.wf(),
                old(self).spans is Some ==> old(self).wf(),
                nodes_ok(old(self).nodes@, old(self).order) && (old(self).order
                    == Order::ChildFirst || old(self).order == Order::Any) ==> nodes_ok(
                    self.nodes@,
                    self.order,
                ),
            decreases k - j,
        {
            let ghost va = views_of(self.nodes@);
            let ghost ia = uints(items@);
            let f = items.pop().unwrap();
            let x = items.pop().unwrap();
            let idx = self.raw_push(Node::App(f, x));
            items.push(idx);
            j = j + 1;
            proof {
                assert(ia.drop_last().drop_last() =~= uints(items@.drop_last()));
                assert(uints(items@) =~= ia.drop_last().drop_last().push(va.len() as int));
                assert(views_of(self.nodes@) == va.push(NodeView::App(f as int, x as int)));
                assert(fold_apps(va, ia, (k - (j - 1)) as nat) == fold_apps(
                    views_of(self.nodes@),
                    uints(items@),
                    (k - j) as nat,
                ));
            }
        }
    }
}

/// The message a parse failure reports.
fn err_string(e: ParseErr) -> (r: String)
    ensures
        r@ == err_text(e),
{
    match e {
        ParseErr::Mismatched => "parse error: mismatched parens".to_owned(),
        ParseErr::Empty => "parse error: input is empty string".to_owned(),
        ParseErr::LamArity => "parse error: lam must be applied to exactly one argument".to_owned(),
        ParseErr::LamParen => "parse error: lam must immediately follow an opening paren unless at the start of input".to_owned(),
        ParseErr::BadInt => "parse error: malformed integer literal".to_owned(),
    }
}

/// Start of the word ending at `end` in `cs`.
fn scan_word_start(cs: &Vec<char>, end: usize) -> (r: usize)
    requires
        end <= cs@.len(),
    ensures
        r == word_start(cs@.subrange(0, end as int)),
        r <= end,
{
    let mut w0 = end;
    loop
        invariant
            w0 <= end <= cs@.len(),
            word_start(cs@.subrange(0, end as int)) == word_start(cs@.subrange(0, w0 as int)),
        decreases w0,
    {
        if w0 == 0 {
            return 0;
        }
        if is_delim_e(cs[w0 - 1]) {
            proof {
                assert(cs@.subrange(0, w0 as int).last() == cs@[w0 - 1]);
            }
            return w0;
        }
        proof {
            assert(cs@.subrange(0, w0 as int).last() == cs@[w0 - 1]);
            assert(cs@.subrange(0, w0 as int).drop_last() =~= cs@.subrange(0, w0 - 1));
        }
        w0 = w0 - 1;
    }
}

/// A non-digit anywhere makes the numeral malformed.
proof fn lemma_digits_bad(s: Seq<char>, k: int)
    requires
        0 <= k < s.len(),
        !is_digit(s[k]),
    ensures
        digits_val(s) is None,
    decreases s.len(),
{
    if k < s.len() - 1 {
        lemma_digits_bad(s.drop_last(), k);
    }
}

/// A well-formed numeral has a non-negative value.
proof fn lemma_digits_nonneg(s: Seq<char>)
    ensures
        digits_val(s) is Some ==> digits_val(s).unwrap() >= 0,
    decreases s.len(),
{
    if s.len() > 1 {
        lemma_digits_nonneg(s.drop_last());
    }
}

/// Read `cs[a..b]` as an unsigned decimal numeral fitting in `i32`.
pub(crate) fn parse_uint_chars(cs: &Vec<char>, a: usize, b: usize) -> (r: Option<i32>)
    requires
        a <= b <= cs@.len(),
    ensures
        ({
            let dv = digits_val(cs@.subrange(a as int, b as int));
            match r {
                Some(v) => dv == Some(v as int),
                None => dv is None || dv.unwrap() > i32::MAX,
            }
        }),
{
    if a == b {
        return None;
    }
    let mut acc: u64 = 0;
    let mut k = a;
    let big: u64 = (i32::MAX as u64) + 1;
    while k < b
        invariant
            a <= k <= b <= cs@.len(),
            big == (i32::MAX as u64) + 1,
            k == a ==> acc == 0,
            k > a ==> ({
                let dv = digits_val(cs@.subrange(a as int, k as int));
                &&& dv is Some
                &&& dv.unwrap() >= 0
                &&& (acc <= i32::MAX as u64 && acc == dv.unwrap()) || (acc == big && dv.unwrap()
                    > i32::MAX)
            }),
        decreases b - k,
    {
        let c = cs[k];
        if !(c >= '0' && c <= '9') {
            proof {
                lemma_digits_bad(cs@.subrange(a as int, b as int), k - a);
            }
            return None;
        }
        let d = (c as u32 - '0' as u32) as u64;
        let ghost pre = cs@.subrange(a as int, k as int);
        let ghost cur = cs@.subrange(a as int, k as int + 1);
        proof {
            assert(cur.drop_last() =~= pre);
            assert(cur.last() == cs@[k as int]);
            lemma_digits_nonneg(cur);
        }
        if acc >= big {
            acc = big;
        } else {
            let next = acc * 10 + d;
            if next > i32::MAX as u64 {
                acc = big;
            } else {
                acc = next;
            }
        }
        k = k + 1;
    }
    if acc <= i32::MAX as u64 {
        Some(acc as i32)
    } else {
        None
    }
}

/// Bundled loop state of the parser: what holds of the arena, the
/// item stack and the depth counts while `end` characters are still
/// unread.
pub open spec fn pinv(
    es: ExprSet,
    es0: ExprSet,
    items: Seq<usize>,
    depths: Seq<usize>,
    s_all: Seq<char>,
    end: int,
    sr: (Seq<NodeView>, Result<int, ParseErr>),
) -> bool {
    &&& es.order == es0.order
    &&& (es.spans is Some <==> es0.spans is Some)
    &&& (es.spans is Some ==> es.wf())
    &&& ((es.order == Order::ChildFirst || es.order == Order::Any) ==> nodes_ok(
        es.nodes@,
        es.order,
    ))
    &&& spans_ok(es)
    &&& es0.wf()
    &&& 0 <= end <= s_all.len()
    &&& es0.nodes@.len() + 2 * s_all.len() < usize::MAX
    &&& es0.nodes@.len() <= es.nodes@.len()
    &&& forall|i: int| 0 <= i < items.len() ==> #[trigger] items[i] < es.nodes@.len()
    &&& sum_depths(depths) == items.len()
    &&& es.nodes@.len() + items.len() <= es0.nodes@.len() + 2 * (s_all.len() - end)
    &&& parse_go(
        views_of(es.nodes@),
        uints(items),
        uints(depths),
        s_all.subrange(0, end),
        es.order,
        es0.nodes@.len() as int,
    ) == sr
    &&& sr == spec_parse(views_of(es0.nodes@), es0.order, s_all)
}

/// What holds of the arena and the returned value once parsing has
/// ended.
pub open spec fn pdone(
    es: ExprSet,
    es0: ExprSet,
    r: Result<usize, String>,
    sr: (Seq<NodeView>, Result<int, ParseErr>),
) -> bool {
    &&& es.order == es0.order
    &&& (es.spans is Some <==> es0.spans is Some)
    &&& (es0.order != Order::ParentFirst ==> es.wf())
    &&& match sr.1 {
        Ok(root) => r is Ok && r.unwrap() as int == root,
        Err(e) => r is Err && r.unwrap_err()@ == err_text(e),
    }
    &&& views_of(es.nodes@) == sr.0
}

/// What one parsing step decides: read on with fewer characters left,
/// or stop with the final outcome.
pub(crate) enum Step {
    More(usize),
    Stop(Result<usize, String>),
}

impl ExprSet {
    /// Parse curried-or-uncurried s-expression text, appending nodes
    /// onto this arena bottom-up, and return the root index of the
    /// parsed term. Parsing is incremental: prior contents stay, and
    /// prior roots' indices stay valid. On failure the error text is
    /// returned and whatever was already appended stays in the arena.
    pub fn parse_extend(&mut self, s_init: &str) -> (r: Result<Idx, String>)
        requires
            old(self).wf(),
            old(self).nodes@.len() + 2 * s_init@.len() < usize::MAX,
        ensures
            final(self).order == old(self).order,
            (final(self).spans is Some <==> old(self).spans is Some),
            old(self).order != Order::ParentFirst ==> final(self).wf(),
            ({
                let (a, res) = spec_parse(
                    views_of(old(self).nodes@),
                    old(self).order,
                    s_init@,
                );
                match res {
                    Ok(root) => r is Ok && r.unwrap() as int == root && views_of(
                        final(self).nodes@,
                    ) == a,
                    Err(e) => r is Err && r.unwrap_err()@ == err_text(e) && views_of(
                        final(self).nodes@,
                    ) == a,
                }
            }),
    {
        let ghost es0 = *old(self);
        let ghost spec_result = spec_parse(views_of(self.nodes@), self.order, s_init@);
        let init_len = self.nodes.len();
        let cs = crate::show::str_to_chars(s_init);
        let mut end: usize = cs.len();
        let mut items: Vec<usize> = Vec::new();
        let mut depths: Vec<usize> = Vec::new();
        depths.push(0);
        proof {
            assert(uints(items@) =~= Seq::<int>::empty());
            assert(uints(depths@) =~= seq![0int]);
            assert(cs@.subrange(0, end as int) =~= s_init@);
            assert(depths@.drop_last() =~= Seq::<usize>::empty());
            assert(sum_depths(Seq::<usize>::empty()) == 0);
            assert(sum_depths(depths@) == 0);
        }
        while end > 0
            invariant
                cs@ == s_init@,
                es0 == *old(self),
                init_len == es0.nodes@.len(),
                spec_result == spec_parse(views_of(es0.nodes@), es0.order, s_init@),
                pinv(*self, es0, items@, depths@, cs@, end as int, spec_result),
            decreases end,
        {
            match self.parse_step(&mut items, &mut depths, &cs, end, init_len, Ghost(es0), Ghost(spec_result)) {
                Step::More(e2) => {
                    end = e2;
                },
                Step::Stop(r) => {
                    return r;
                },
            }
        }
        proof {
            assert(cs@.subrange(0, 0) =~= Seq::<char>::empty());
        }
        proof {
            assert(cs@.subrange(0, 0) =~= Seq::<char>::empty());
        }
        if items.len() == 0 {
            proof {
                assert(spec_result == (
                    views_of(self.nodes@),
                    Err::<int, ParseErr>(ParseErr::Empty),
                ));
            }
            return Err(err_string(ParseErr::Empty));
        }
        if depths.len() != 1 {
            proof {
                assert(spec_result == (
                    views_of(self.nodes@),
                    Err::<int, ParseErr>(ParseErr::Mismatched),
                ));
            }
            return Err(err_string(ParseErr::Mismatched));
        }
        let n = depths[0];
        proof {
            assert(depths@.drop_last() =~= Seq::<usize>::empty());
            assert(sum_depths(depths@.drop_last()) == 0);
            assert(sum_depths(depths@) == n);
        }
        let ghost vb = views_of(self.nodes@);
        let ghost ib = uints(items@);
        self.do_fold(&mut items, n - 1);
        if items.len() != 1 {
            proof {
                assert(spec_result == (
                    views_of(self.nodes@),
                    Err::<int, ParseErr>(ParseErr::Mismatched),
                ));
            }
            return Err(err_string(ParseErr::Mismatched));
        }
        let root = items[0];
        proof {
            assert(uints(items@)[0] == root as int);
            assert(spec_result == (
                finish_arena(views_of(self.nodes@), self.order, init_len as int),
                Ok::<int, ParseErr>(root as int),
            ));
        }
        self.finish_reverse(init_len);
        Ok(root)
    }

    /// Handle one character (or one whole word) from the right end of
    /// the unread input.
    #[verifier::rlimit(100)]
    #[verifier::spinoff_prover]
    fn parse_step(
        &mut self,
        items: &mut Vec<usize>,
        depths: &mut Vec<usize>,
        cs: &Vec<char>,
        end: usize,
        init_len: usize,
        Ghost(es0): Ghost<ExprSet>,
        Ghost(sr): Ghost<(Seq<NodeView>, Result<int, ParseErr>)>,
    ) -> (out: Step)
        requires
            pinv(*old(self), es0, old(items)@, old(depths)@, cs@, end as int, sr),
            init_len == es0.nodes@.len(),
            0 < end,
        ensures
            match out {
                Step::More(e2) => pinv(
                    *final(self),
                    es0,
                    final(items)@,
                    final(depths)@,
                    cs@,
                    e2 as int,
                    sr,
                ) && e2 < end,
                Step::Stop(r) => pdone(*final(self), es0, r, sr),
            },
    {
        let ghost sub = cs@.subrange(0, end as int);
        let ghost va = views_of(self.nodes@);
        let ghost ia = uints(items@);
        let ghost da = uints(depths@);
        let ghost spec_result = sr;
        proof {
            assert(sub.last() == cs@[end - 1]);
            assert(sub.drop_last() =~= cs@.subrange(0, end - 1));
        }
        let c = cs[end - 1];
        if is_ws_e(c) {
            return Step::More(end - 1);
        } else if c == '(' {
                if depths.len() == 0 {
                    proof {
                        assert(sr == (va, Err::<int, ParseErr>(ParseErr::Mismatched)));
                    }
                    return Step::Stop(Err(err_string(ParseErr::Mismatched)));
                }
                let li = depths.len() - 1;
                let n = depths[li];
                let ghost dprev = depths@;
                depths.pop();
                proof {
                    assert(uints(depths@) =~= da.drop_last());
                    assert(sum_depths(dprev) == sum_depths(dprev.drop_last()) + n);
                    assert(depths@ =~= dprev.drop_last());
                    lemma_sum_depths_last(depths@);
                }
                if n == 0 {
                    return Step::More(end - 1);
                } else {
                    proof {
                        lemma_sum_depths_last(depths@);
                        assert(items@.len() >= n);
                    }
                    self.do_fold(items, n - 1);
                    if depths.len() == 0 {
                        proof {
                            assert(sr == (
                                views_of(self.nodes@),
                                Err::<int, ParseErr>(ParseErr::Mismatched),
                            ));
                        }
                        return Step::Stop(Err(err_string(ParseErr::Mismatched)));
                    }
                    let li2 = depths.len() - 1;
                    let d2 = depths[li2];
                    let ghost sprev = depths@;
                    proof {
                        lemma_sum_depths_last(depths@);
                    }
                    depths.set(li2, d2 + 1);
                    proof {
                        assert(uints(depths@) =~= da.drop_last().update(
                            da.drop_last().len() - 1,
                            da.drop_last().last() + 1,
                        ));
                        assert(depths@.drop_last() =~= sprev.drop_last());
                        lemma_sum_increment_last(sprev, depths@);
                    }
                    return Step::More(end - 1);
                }

        } else if c == ')' {
            let ghost dprev = depths@;
            depths.push(0);
            proof {
                assert(uints(depths@) =~= da.push(0));
                assert(depths@.drop_last() =~= dprev);
                assert(sum_depths(depths@) == sum_depths(dprev) + 0);
            }
            return Step::More(end - 1);
        } else {
                let w0 = scan_word_start(&cs, end);
                let ghost w = sub.subrange(w0 as int, end as int);
                let ghost rest = sub.subrange(0, w0 as int);
                proof {
                    lemma_word_start_bounds(sub);
                    assert(w0 < end);
                    assert(rest =~= cs@.subrange(0, w0 as int));
                }
                let is_lam = end - w0 == 3 && cs[w0] == 'l' && cs[w0 + 1] == 'a' && cs[w0 + 2]
                    == 'm';
                proof {
                    if is_lam {
                        assert(w =~= seq!['l', 'a', 'm']);
                    } else {
                        if w.len() == 3 {
                            assert(w[0] == cs@[w0 as int]);
                            assert(w[1] == cs@[w0 + 1]);
                            assert(w[2] == cs@[w0 + 2]);
                            assert(w != seq!['l', 'a', 'm']) by {
                                if w == seq!['l', 'a', 'm'] {
                                    assert(w[0] == 'l' && w[1] == 'a' && w[2] == 'm');
                                }
                            }
                        } else {
                            assert(w != seq!['l', 'a', 'm']) by {
                                if w == seq!['l', 'a', 'm'] {
                                    assert(w.len() == 3);
                                }
                            }
                        }
                    }
                }
                if is_lam {
                    let mut rest_all_ws = true;
                    let mut i: usize = 0;
                    while i < w0
                        invariant
                            i <= w0 <= cs@.len(),
                            rest == cs@.subrange(0, w0 as int),
                            rest_all_ws == all_ws(cs@.subrange(0, i as int)),
                        decreases w0 - i,
                    {
                        let ghost pre = cs@.subrange(0, i as int);
                        proof {
                            assert(cs@.subrange(0, i + 1).drop_last() =~= pre);
                        }
                        if !is_ws_e(cs[i]) {
                            rest_all_ws = false;
                            proof {
                                assert(cs@.subrange(0, i + 1)[i as int] == cs@[i as int]);
                                assert(!all_ws(cs@.subrange(0, i + 1)));
                                lemma_all_ws_prefix(cs@, i as int, w0 as int);
                            }
                            i = w0;
                        } else {
                            proof {
                                assert(all_ws(pre) ==> all_ws(cs@.subrange(0, i + 1))) by {
                                    assert forall|j: int| 0 <= j < i + 1 && all_ws(pre) implies is_ws(
                                        #[trigger] cs@.subrange(0, i + 1)[j],
                                    ) by {
                                        if j < i {
                                            assert(cs@.subrange(0, i + 1)[j] == pre[j]);
                                        }
                                    }
                                }
                                assert(!all_ws(pre) ==> !all_ws(cs@.subrange(0, i + 1))) by {
                                    if !all_ws(pre) && all_ws(cs@.subrange(0, i + 1)) {
                                        assert forall|j: int| 0 <= j < i implies is_ws(
                                            #[trigger] pre[j],
                                        ) by {
                                            assert(pre[j] == cs@.subrange(0, i + 1)[j]);
                                        }
                                    }
                                }
                            }
                            i = i + 1;
                        }
                    }
                    if rest_all_ws {
                        // `lam` at the very start of the input.
                        if depths.len() == 0 {
                            proof {
                                assert(sr == (
                                    va,
                                    Err::<int, ParseErr>(ParseErr::Mismatched),
                                ));
                            }
                            return Step::Stop(Err(err_string(ParseErr::Mismatched)));
                        }
                        let dl = depths[depths.len() - 1];
                        if dl != 1 {
                            proof {
                                assert(sr == (va, Err::<int, ParseErr>(ParseErr::LamArity)));
                            }
                            return Step::Stop(Err(err_string(ParseErr::LamArity)));
                        }
                        if depths.len() != 1 || items.len() != 1 {
                            proof {
                                assert(sr == (
                                    va,
                                    Err::<int, ParseErr>(ParseErr::Mismatched),
                                ));
                            }
                            return Step::Stop(Err(err_string(ParseErr::Mismatched)));
                        }
                        let b = items[0];
                        proof {
                            assert(ia.last() == b as int);
                            assert(sr == (
                                finish_arena(
                                    va.push(NodeView::Lam(b as int)),
                                    self.order,
                                    es0.nodes@.len() as int,
                                ),
                                Ok::<int, ParseErr>(va.len() as int),
                            ));
                        }
                        let idx = self.raw_push(Node::Lam(b));
                        proof {
                            assert(views_of(self.nodes@) == va.push(NodeView::Lam(b as int)));
                        }
                        self.finish_reverse(init_len);
                        return Step::Stop(Ok(idx));
                    } else {
                        if cs[w0 - 1] != '(' {
                            proof {
                                assert(rest.last() == cs@[w0 - 1]);
                                assert(sr == (va, Err::<int, ParseErr>(ParseErr::LamParen)));
                            }
                            return Step::Stop(Err(err_string(ParseErr::LamParen)));
                        }
                        if depths.len() == 0 {
                            proof {
                                assert(rest.last() == cs@[w0 - 1]);
                                assert(sr == (
                                    va,
                                    Err::<int, ParseErr>(ParseErr::Mismatched),
                                ));
                            }
                            return Step::Stop(Err(err_string(ParseErr::Mismatched)));
                        }
                        let dl = depths[depths.len() - 1];
                        if dl != 1 {
                            proof {
                                assert(rest.last() == cs@[w0 - 1]);
                                assert(sr == (va, Err::<int, ParseErr>(ParseErr::LamArity)));
                            }
                            return Step::Stop(Err(err_string(ParseErr::LamArity)));
                        }
                        proof {
                            assert(rest.last() == cs@[w0 - 1]);
                        }
                        proof {
                            lemma_sum_depths_last(depths@);
                        }
                        let b = items.pop().unwrap();
                        let idx = self.raw_push(Node::Lam(b));
                        items.push(idx);
                        let ghost dprev = depths@;
                        depths.pop();
                        proof {
                            assert(views_of(self.nodes@) == va.push(NodeView::Lam(b as int)));
                            assert(uints(items@) =~= ia.drop_last().push(va.len() as int));
                            assert(uints(depths@) =~= da.drop_last());
                            assert(sum_depths(dprev) == sum_depths(dprev.drop_last()) + dl);
                            assert(depths@ =~= dprev.drop_last());
                        }
                        if depths.len() == 0 {
                            proof {
                                assert(sr == (
                                    views_of(self.nodes@),
                                    Err::<int, ParseErr>(ParseErr::Mismatched),
                                ));
                            }
                            return Step::Stop(Err(err_string(ParseErr::Mismatched)));
                        }
                        let li2 = depths.len() - 1;
                        let d2 = depths[li2];
                        let ghost sprev = depths@;
                        proof {
                            lemma_sum_depths_last(depths@);
                        }
                        depths.set(li2, d2 + 1);
                        proof {
                            assert(uints(depths@) =~= da.drop_last().update(
                                da.drop_last().len() - 1,
                                da.drop_last().last() + 1,
                            ));
                            assert(depths@.drop_last() =~= sprev.drop_last());
                            lemma_sum_increment_last(sprev, depths@);
                            assert(rest.drop_last() =~= cs@.subrange(0, w0 - 1));
                        }
                        return Step::More(w0 - 1);
                    }
                } else {
                    let c0 = cs[w0];
                    let node: Node;
                    if c0 == '$' {
                        match parse_uint_chars(&cs, w0 + 1, end) {
                            Some(v) => {
                                node = Node::Var(v);
                                proof {
                                    assert(w.subrange(1, w.len() as int) =~= cs@.subrange(
                                        w0 + 1,
                                        end as int,
                                    ));
                                }
                            },
                            None => {
                                proof {
                                    assert(w.subrange(1, w.len() as int) =~= cs@.subrange(
                                        w0 + 1,
                                        end as int,
                                    ));
                                    assert(w[0] == cs@[w0 as int]);
                                    assert(atom_of(w) == Err::<NodeView, ParseErr>(ParseErr::BadInt));
                                    assert(sr == (va, Err::<int, ParseErr>(ParseErr::BadInt)));
                                }
                                return Step::Stop(Err(err_string(ParseErr::BadInt)));
                            },
                        }
                    } else if c0 == '#' {
                        match parse_uint_chars(&cs, w0 + 1, end) {
                            Some(v) => {
                                node = Node::IVar(v);
                                proof {
                                    assert(w.subrange(1, w.len() as int) =~= cs@.subrange(
                                        w0 + 1,
                                        end as int,
                                    ));
                                }
                            },
                            None => {
                                proof {
                                    assert(w.subrange(1, w.len() as int) =~= cs@.subrange(
                                        w0 + 1,
                                        end as int,
                                    ));
                                    assert(w[0] == cs@[w0 as int]);
                                    assert(w[0] != '$');
                                    assert(atom_of(w) == Err::<NodeView, ParseErr>(ParseErr::BadInt));
                                    assert(sr == (va, Err::<int, ParseErr>(ParseErr::BadInt)));
                                }
                                return Step::Stop(Err(err_string(ParseErr::BadInt)));
                            },
                        }
                    } else {
                        let mut wchars: Vec<char> = Vec::new();
                        let mut i = w0;
                        while i < end
                            invariant
                                w0 <= i <= end <= cs@.len(),
                                wchars@ == cs@.subrange(w0 as int, i as int),
                            decreases end - i,
                        {
                            wchars.push(cs[i]);
                            i = i + 1;
                            proof {
                                assert(wchars@ =~= cs@.subrange(w0 as int, i as int));
                            }
                        }
                        let sym = crate::show::chars_to_string(&wchars);
                        node = Node::Prim(sym);
                        proof {
                            assert(sym@ == w);
                        }
                    }
                    proof {
                        assert(node@ == atom_of(w).unwrap());
                    }
                    if depths.len() == 0 {
                        proof {
                            assert(sr == (va, Err::<int, ParseErr>(ParseErr::Mismatched)));
                        }
                        return Step::Stop(Err(err_string(ParseErr::Mismatched)));
                    }
                    let idx = self.raw_push(node);
                    items.push(idx);
                    let li2 = depths.len() - 1;
                    let d2 = depths[li2];
                    let ghost sprev = depths@;
                    proof {
                        lemma_sum_depths_last(depths@);
                    }
                    depths.set(li2, d2 + 1);
                    proof {
                        assert(views_of(self.nodes@) == va.push(atom_of(w).unwrap()));
                        assert(uints(items@) =~= ia.push(va.len() as int));
                        assert(uints(depths@) =~= da.update(da.len() - 1, da.last() + 1));
                        assert(depths@.drop_last() =~= sprev.drop_last());
                        lemma_sum_increment_last(sprev, depths@);
                    }
                    return Step::More(w0);
                }

        }
    }

    /// Reverse the freshly appended slice in place when the arena is
    /// parent-first; otherwise leave it as built.
    fn finish_reverse(&mut self, init_len: usize)
        requires
            init_len <= old(self).nodes@.len(),
            old(self).spans is Some ==> old(self).order == Order::ChildFirst,
        ensures
            views_of(final(self).nodes@) == finish_arena(
                views_of(old(self).nodes@),
                old(self).order,
                init_len as int,
            ),
            final(self).order == old(self).order,
            final(self).spans == old(self).spans,
            final(self).order != Order::ParentFirst ==> *final(self) == *old(self),
    {
        if !matches!(self.order, Order::ParentFirst) {
            proof {
                assert(views_of(self.nodes@) =~= finish_arena(
                    views_of(self.nodes@),
                    self.order,
                    init_len as int,
                ));
            }
            return ;
        }
        let ghost v0 = self.nodes@;
        let ghost l0 = init_len as int;
        let mut tail: Vec<Node> = Vec::new();
        let ghost cp = v0.subrange(l0, v0.len() as int);
        while self.nodes.len() > init_len
            invariant
                l0 == init_len as int,
                0 <= l0 <= self.nodes@.len(),
                self.nodes@ + tail@.reverse() == v0,
                self.order == old(self).order,
                self.spans == old(self).spans,
                v0 == old(self).nodes@,
            decreases self.nodes@.len(),
        {
            let nd = self.nodes.pop().unwrap();
            tail.push(nd);
            proof {
                assert(self.nodes@ + tail@.reverse() =~= v0);
            }
        }
        proof {
            assert(self.nodes@ =~= v0.subrange(0, l0));
            assert(tail@.reverse() =~= cp);
            assert(tail@ =~= cp.reverse());
        }
        self.nodes.append(&mut tail);
        proof {
            assert(views_of(self.nodes@) =~= finish_arena(views_of(v0), self.order, l0));
        }
    }
}


/// All-whitespace is inherited by prefixes read off a longer
/// whitespace check.
proof fn lemma_all_ws_prefix(s: Seq<char>, i: int, w0: int)
    requires
        0 <= i < w0 <= s.len(),
        !all_ws(s.subrange(0, i + 1)),
    ensures
        !all_ws(s.subrange(0, w0)),
{
    if all_ws(s.subrange(0, w0)) {
        assert forall|j: int| 0 <= j < i + 1 implies is_ws(#[trigger] s.subrange(0, i + 1)[j]) by {
            assert(s.subrange(0, i + 1)[j] == s.subrange(0, w0)[j]);
        }
    }
}

/// Raising the last depth count by one raises the sum by one.
proof fn lemma_sum_increment_last(s: Seq<usize>, t: Seq<usize>)
    requires
        s.len() > 0,
        t.len() == s.len(),
        t.drop_last() == s.drop_last(),
        t.last() == s.last() + 1,
    ensures
        sum_depths(t) == sum_depths(s) + 1,
{
}

/// A digit character carries its digit.
#[verifier::rlimit(100)]
#[verifier::spinoff_prover]
pub proof fn lemma_digit_char(d: int)
    requires
        0 <= d <= 9,
    ensures
        is_digit(crate::show::digit_char(d)),
        crate::show::digit_char(d) as int - '0' as int == d,
{
    assert(('0' as int) == 48);
    assert(0 <= 48 + d <= 57);
    assert((48 + d) as char as int == 48 + d);
}

/// Round-trip of the numeral layer: reading back the decimal
/// rendering of a non-negative integer yields that integer.
pub proof fn lemma_digits_roundtrip(n: int)
    requires
        n >= 0,
    ensures
        digits_val(crate::show::dec_chars(n)) == Some(n),
    decreases n,
{
    let ds = crate::show::dec_chars(n);
    if n < 10 {
        lemma_digit_char(n);
        assert(ds =~= seq![crate::show::digit_char(n)]);
    } else {
        lemma_digits_roundtrip(n / 10);
        lemma_digit_char(n % 10);
        assert(ds.drop_last() =~= crate::show::dec_chars(n / 10));
        assert(ds.last() == crate::show::digit_char(n % 10));
        lemma_dec_chars_nonempty(n / 10);
    }
}

/// A decimal rendering holds at least one digit.
pub proof fn lemma_dec_chars_nonempty(n: int)
    requires
        n >= 0,
    ensures
        crate::show::dec_chars(n).len() >= 1,
{
}

/// Every character of a decimal rendering is a digit.
pub proof fn lemma_dec_chars_digits(n: int)
    requires
        n >= 0,
    ensures
        forall|k: int|
            0 <= k < crate::show::dec_chars(n).len() ==> is_digit(
                #[trigger] crate::show::dec_chars(n)[k],
            ),
    decreases n,
{
    let ds = crate::show::dec_chars(n);
    if n < 10 {
        lemma_digit_char(n);
        assert(ds =~= seq![crate::show::digit_char(n)]);
    } else {
        lemma_digits_roundtrip(n / 10);
        lemma_dec_chars_digits(n / 10);
        lemma_digit_char(n % 10);
        assert forall|k: int| 0 <= k < ds.len() implies is_digit(#[trigger] ds[k]) by {
            if k < ds.len() - 1 {
                assert(ds[k] == crate::show::dec_chars(n / 10)[k]);
            }
        }
    }
}

/// A digit is not a delimiter.
#[verifier::rlimit(100)]
#[verifier::spinoff_prover]
pub proof fn lemma_digit_not_delim(c: char)
    requires
        is_digit(c),
    ensures
        !is_delim(c),
        c != '(',
        c != ')',
        !is_ws(c),
{
}

/// A text of word characters is one whole word.
pub proof fn lemma_word_start_zero(s: Seq<char>)
    requires
        forall|k: int| 0 <= k < s.len() ==> !is_delim(#[trigger] s[k]),
    ensures
        word_start(s) == 0,
    decreases s.len(),
{
    if s.len() > 0 {
        assert(!is_delim(s.last()));
        assert forall|k: int| 0 <= k < s.drop_last().len() implies !is_delim(
            #[trigger] s.drop_last()[k],
        ) by {
            assert(s.drop_last()[k] == s[k]);
        }
        lemma_word_start_zero(s.drop_last());
    }
}

/// Round-trip law for variable atoms: parsing the text a variable
/// node renders as (`$` followed by the decimal index) appends
/// exactly that node and returns its position, onto any arena and
/// under any order tag.
#[verifier::rlimit(100)]
#[verifier::spinoff_prover]
pub proof fn lemma_parse_var_atom(a0: Seq<NodeView>, order: Order, i: int)
    requires
        0 <= i <= i32::MAX,
    ensures
        spec_parse(a0, order, seq!['$'] + crate::show::dec_chars(i)) == (
            a0.push(NodeView::Var(i)),
            Ok::<int, ParseErr>(a0.len() as int),
        ),
{
    let ds = crate::show::dec_chars(i);
    let s = seq!['$'] + ds;
    lemma_dec_chars_digits(i);
    lemma_dec_chars_nonempty(i);
    lemma_digits_roundtrip(i);
    assert(s.len() >= 2);
    assert(s.last() == ds.last()) by {
        assert(s[s.len() - 1] == ds[ds.len() - 1]);
    }
    assert(is_digit(ds[ds.len() - 1]));
    lemma_digit_not_delim(s.last());
    assert forall|k: int| 0 <= k < s.len() implies !is_delim(#[trigger] s[k]) by {
        if k == 0 {
            assert(s[0] == '$');
            assert(!is_delim('$')) by {
                assert('$' != ' ' && '$' != '\t' && '$' != '\n' && '$' != '\r' && '$'
                    != '(' && '$' != ')');
            }
        } else {
            assert(s[k] == ds[k - 1]);
            lemma_digit_not_delim(s[k]);
        }
    }
    lemma_word_start_zero(s);
    let w = s.subrange(0, s.len() as int);
    assert(w =~= s);
    assert(w != seq!['l', 'a', 'm']) by {
        if w == seq!['l', 'a', 'm'] {
            assert(w[0] == 'l');
            assert(w[0] == '$');
        }
    }
    assert(w.subrange(1, w.len() as int) =~= ds);
    assert(atom_of(w) == Ok::<NodeView, ParseErr>(NodeView::Var(i)));
    let rest = s.subrange(0, 0);
    assert(rest =~= Seq::<char>::empty());
    let items1 = Seq::<int>::empty().push(a0.len() as int);
    let depths1 = seq![0int].update(0, 1int);
    assert(parse_go(a0, Seq::empty(), seq![0int], s, order, a0.len() as int) == parse_go(
        a0.push(NodeView::Var(i)),
        items1,
        depths1,
        rest,
        order,
        a0.len() as int,
    ));
    let a1 = a0.push(NodeView::Var(i));
    assert(fold_apps(a1, items1, 0) == (a1, items1));
    assert(finish_arena(a1, order, a0.len() as int) =~= a1) by {
        if order == Order::ParentFirst {
            assert(a1.subrange(0, a0.len() as int) =~= a0);
            assert(a1.subrange(a0.len() as int, a1.len() as int).reverse() =~= seq![
                NodeView::Var(i),
            ]);
            assert(reverse_tail(a1, a0.len() as int) =~= a1);
        }
    }
}

/// Round-trip law for invention-variable atoms: parsing the text such a
/// node renders as (`#` followed by the decimal index) appends
/// exactly that node and returns its position, onto any arena and
/// under any order tag.
#[verifier::rlimit(100)]
#[verifier::spinoff_prover]
pub proof fn lemma_parse_ivar_atom(a0: Seq<NodeView>, order: Order, i: int)
    requires
        0 <= i <= i32::MAX,
    ensures
        spec_parse(a0, order, seq!['#'] + crate::show::dec_chars(i)) == (
            a0.push(NodeView::IVar(i)),
            Ok::<int, ParseErr>(a0.len() as int),
        ),
{
    let ds = crate::show::dec_chars(i);
    let s = seq!['#'] + ds;
    lemma_dec_chars_digits(i);
    lemma_dec_chars_nonempty(i);
    lemma_digits_roundtrip(i);
    assert(s.len() >= 2);
    assert(s.last() == ds.last()) by {
        assert(s[s.len() - 1] == ds[ds.len() - 1]);
    }
    assert(is_digit(ds[ds.len() - 1]));
    lemma_digit_not_delim(s.last());
    assert forall|k: int| 0 <= k < s.len() implies !is_delim(#[trigger] s[k]) by {
        if k == 0 {
            assert(s[0] == '#');
            assert(!is_delim('#')) by {
                assert('#' != ' ' && '#' != '\t' && '#' != '\n' && '#' != '\r' && '#'
                    != '(' && '#' != ')');
            }
        } else {
            assert(s[k] == ds[k - 1]);
            lemma_digit_not_delim(s[k]);
        }
    }
    lemma_word_start_zero(s);
    let w = s.subrange(0, s.len() as int);
    assert(w =~= s);
    assert(w != seq!['l', 'a', 'm']) by {
        if w == seq!['l', 'a', 'm'] {
            assert(w[0] == 'l');
            assert(w[0] == '#');
        }
    }
    assert(w.subrange(1, w.len() as int) =~= ds);
    assert(atom_of(w) == Ok::<NodeView, ParseErr>(NodeView::IVar(i)));
    let rest = s.subrange(0, 0);
    assert(rest =~= Seq::<char>::empty());
    let items1 = Seq::<int>::empty().push(a0.len() as int);
    let depths1 = seq![0int].update(0, 1int);
    assert(parse_go(a0, Seq::empty(), seq![0int], s, order, a0.len() as int) == parse_go(
        a0.push(NodeView::IVar(i)),
        items1,
        depths1,
        rest,
        order,
        a0.len() as int,
    ));
    let a1 = a0.push(NodeView::IVar(i));
    assert(fold_apps(a1, items1, 0) == (a1, items1));
    assert(finish_arena(a1, order, a0.len() as int) =~= a1) by {
        if order == Order::ParentFirst {
            assert(a1.subrange(0, a0.len() as int) =~= a0);
            assert(a1.subrange(a0.len() as int, a1.len() as int).reverse() =~= seq![
                NodeView::IVar(i),
            ]);
            assert(reverse_tail(a1, a0.len() as int) =~= a1);
        }
    }
}

/// The rendering of a variable node parses back to exactly that
/// node: one direction of the display/parse round trip, for atoms.
pub proof fn lemma_display_parse_var(ns: Seq<Node>, idx: int, a0: Seq<NodeView>, order: Order)
    requires
        nodes_ok(ns, Order::ChildFirst),
        ns.len() <= usize::MAX,
        0 <= idx < ns.len(),
        ns[idx] matches Node::Var(v) && v >= 0,
    ensures
        spec_parse(a0, order, crate::show::show_at(ns, idx, false)) == (
            a0.push(NodeView::Var(ns[idx]->Var_0 as int)),
            Ok::<int, ParseErr>(a0.len() as int),
        ),
{
    let v = ns[idx]->Var_0 as int;
    assert(idx != crate::expr::HOLE);
    assert(crate::show::show_at(ns, idx, false) == crate::show::node_head_chars(ns[idx]));
    assert(crate::show::show_at(ns, idx, false) =~= seq!['$'] + crate::show::dec_chars(v));
    lemma_parse_var_atom(a0, order, v);
}

} // verus!
