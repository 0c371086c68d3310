//! What it means that a macro resolves the placeholders of a query, told
//! placeholder by placeholder.
use crate::body_laws;
use crate::database;
use crate::database::ParamIndexing;
use crate::expr;
use crate::expr::{ExprForm, ExprView, FieldAccessView};
use crate::grammar::{FragmentView, IdentView, PlaceholderView};
use crate::rewrite;
use crate::rewrite::{
    ArgsView, BindingRefKind, BindingView, Origin, RewriteErrorView, RewriteView,
    TemplateView,
};
use crate::text;
use vstd::prelude::*;

verus! {

/// Is the expression the text `t`, taken for what the text is?
pub open spec fn is_read_from(t: Seq<char>, e: ExprView) -> bool {
    expr::expr_rest(t) == Ok::<nat, Seq<char>>(0) && match expr::form_of(t) {
        ExprForm::Lit => e == ExprView::Lit(t),
        ExprForm::Path => e == ExprView::Path(t),
        ExprForm::MethodCall => e == ExprView::MethodCall(t),
        ExprForm::Field => e == ExprView::Field(FieldAccessView::Written(t)),
        ExprForm::Cast(ty) => e == ExprView::Cast(t, ty),
        _ => e == ExprView::Other(t),
    }
}

/// Is the text no expression, and does the message say why?
pub open spec fn is_unreadable(t: Seq<char>, message: Seq<char>) -> bool {
    match expr::expr_rest(t) {
        Ok(rest) => rest > 0 && message == "unexpected token"@,
        Err(why) => message == why,
    }
}

/// Is the `i`-th named argument the last with the given name?
pub open spec fn is_last_given(named: Seq<(Seq<char>, ExprView)>, name: Seq<char>, i: int) -> bool {
    &&& 0 <= i < named.len()
    &&& named[i].0 == name
    &&& forall|k: int| i < k < named.len() ==> (#[trigger] named[k]).0 != name
}

/// Is no named argument called so?
pub open spec fn is_not_given(named: Seq<(Seq<char>, ExprView)>, name: Seq<char>) -> bool {
    forall|k: int| 0 <= k < named.len() ==> (#[trigger] named[k]).0 != name
}

/// Is the expression the one that a placeholder asks for, and does it come from
/// where the origin says? An index asks for the positional argument with that
/// index; a name for the last argument with that name, or else the field of
/// `..rest`, or else the variable; an expression for itself.
pub open spec fn resolves_to(
    p: PlaceholderView,
    args: ArgsView,
    e: ExprView,
    origin: Origin,
) -> bool {
    match p.ident {
        IdentView::Positional(i) => i < args.positional.len() && e == args.positional[i as int]
            && origin == Origin::Positional(i as usize),
        IdentView::Named(name) => {
            ||| exists|i: int| #[trigger]
                is_last_given(args.named, name, i) && e == args.named[i].1 && origin
                    == Origin::Named(i as usize)
            ||| is_not_given(args.named, name) && match args.rest {
                Some(rest) => e == ExprView::Field(
                    FieldAccessView::Of(Box::new(rest), seq!['r', '#'] + name),
                ) && origin == Origin::Rest(p.start as usize, p.end as usize),
                None => e == ExprView::Path(seq!['r', '#'] + name) && origin == Origin::Placeholder(
                    p.start as usize,
                    p.end as usize,
                ),
            }
        },
        IdentView::Expr(t) => is_read_from(t, e) && origin == Origin::Placeholder(
            p.start as usize,
            p.end as usize,
        ),
    }
}

/// Can a placeholder not be resolved, and does the error say why, and where?
pub open spec fn is_unresolvable(p: PlaceholderView, args: ArgsView, e: RewriteErrorView) -> bool {
    &&& e.start == p.start
    &&& e.end == p.end
    &&& match p.ident {
        IdentView::Positional(i) => i >= args.positional.len() && e.message
            == "positional placeholder `{"@ + text::decimal(i) + "}` is out of range; only "@
            + text::decimal(args.positional.len()) + " positional argument(s) provided"@,
        IdentView::Named(_) => false,
        IdentView::Expr(t) => exists|why: Seq<char>| #[trigger]
            is_unreadable(t, why) && e.message == "failed to parse expression `"@ + t + "`: "@ + why,
    }
}

proof fn lemma_last_named(named: Seq<(Seq<char>, ExprView)>, name: Seq<char>)
    ensures
        match rewrite::last_named(named, name) {
            Some(i) => is_last_given(named, name, i),
            None => is_not_given(named, name),
        },
    decreases named.len(),
{
    if named.len() > 0 && named.last().0 != name {
        let front = named.drop_last();
        lemma_last_named(front, name);
        assert forall|k: int| 0 <= k < front.len() implies #[trigger] named[k] == front[k] by {}
    }
}

/// A placeholder resolves to what it asks for; it is an error if there is no
/// positional argument with its index, or its text is no expression.
pub proof fn law_resolve(p: PlaceholderView, args: ArgsView)
    ensures
        match rewrite::resolve_meaning(p, args) {
            Ok((e, origin)) => resolves_to(p, args, e, origin),
            Err(e) => is_unresolvable(p, args, e),
        },
{
    reveal_strlit("r#");
    match p.ident {
        IdentView::Positional(_) => {},
        IdentView::Named(name) => {
            lemma_last_named(args.named, name);
            assert("r#"@ =~= seq!['r', '#']);
        },
        IdentView::Expr(t) => {
            if let Err(message) = expr::whole_expr(t) {
                assert(is_unreadable(t, message));
            }
        },
    }
}

/// A placeholder with an expression resolves to what came of reading it, or to an
/// error that shows its text.
pub proof fn law_resolve_inline(
    p: PlaceholderView,
    t: Seq<char>,
    parsed: Result<ExprView, Seq<char>>,
)
    ensures
        match (parsed, rewrite::inline_meaning(p, t, parsed)) {
            (Ok(e), Ok((r, origin))) => r == e && origin == Origin::Placeholder(
                p.start as usize,
                p.end as usize,
            ),
            (Err(why), Err(r)) => r.start == p.start && r.end == p.end && r.message
                == "failed to parse expression `"@ + t + "`: "@ + why,
            _ => false,
        },
{
}

/// A name that stands for a field or a variable must be one that `r#` can be
/// written before: a word, and none of five.
pub proof fn law_nameable(p: PlaceholderView, args: ArgsView)
    ensures
        rewrite::nameable(p, args) <==> match p.ident {
            IdentView::Named(name) => !is_not_given(args.named, name) || (body_laws::is_word(name)
                && name != "_"@ && name != "self"@ && name != "Self"@ && name != "super"@ && name
                != "crate"@),
            _ => true,
        },
{
    if let IdentView::Named(name) = p.ident {
        lemma_last_named(args.named, name);
        if rewrite::last_named(args.named, name) is Some {
            let i = rewrite::last_named(args.named, name)->0;
            assert(args.named[i].0 == name);
        }
        body_laws::lemma_word(name);
    }
}

// -- All placeholders of a query ------------------------------------------

/// How many placeholders there are among the fragments.
pub open spec fn holes_in(fs: Seq<FragmentView>) -> nat
    decreases fs.len(),
{
    if fs.len() == 0 {
        0
    } else {
        holes_in(fs.drop_last()) + (if fs.last() is Placeholder {
            1nat
        } else {
            0
        })
    }
}

/// The literal text behind the first `n` placeholders and before the next.
pub open spec fn text_behind(fs: Seq<FragmentView>, n: nat) -> Seq<char>
    decreases fs.len(),
{
    if fs.len() == 0 {
        seq![]
    } else {
        let front = fs.drop_last();
        text_behind(front, n) + match fs.last() {
            FragmentView::Literal(s) if holes_in(front) == n => s,
            _ => seq![],
        }
    }
}

/// The text with the native placeholders of the arguments 1, 2 and so on for its
/// placeholders.
pub open spec fn numbered(fs: Seq<FragmentView>, ch: char, indexing: ParamIndexing) -> Seq<char>
    decreases fs.len(),
{
    if fs.len() == 0 {
        seq![]
    } else {
        let front = fs.drop_last();
        numbered(front, ch, indexing) + match fs.last() {
            FragmentView::Literal(s) => s,
            FragmentView::Placeholder(_) => database::native_placeholder(
                ch,
                indexing,
                holes_in(front) + 1,
            ),
        }
    }
}

/// Is the binding for the `k`-th fragment, a placeholder, among those of the
/// query where it belongs: behind one for each placeholder before it?
pub open spec fn is_bound(
    fs: Seq<FragmentView>,
    k: int,
    args: ArgsView,
    bindings: Seq<BindingView>,
    origins: Seq<Origin>,
) -> bool {
    let p = fs[k]->Placeholder_0;
    let n = holes_in(fs.take(k)) as int;
    &&& n < bindings.len()
    &&& n < origins.len()
    &&& match bindings[n] {
        BindingView::Single(e) => p.kleene is None && resolves_to(p, args, e, origins[n]),
        BindingView::Spread(e) => p.kleene is Some && resolves_to(p, args, e, origins[n]),
    }
}

/// Is one of the placeholders a spread?
pub open spec fn has_spread(fs: Seq<FragmentView>) -> bool {
    exists|k: int|
        0 <= k < fs.len() && ((#[trigger] fs[k]) matches FragmentView::Placeholder(p)
            && p.kleene is Some)
}

/// Is the query rewritten as it should be?
pub open spec fn is_rewritten(
    fs: Seq<FragmentView>,
    args: ArgsView,
    ch: char,
    indexing: ParamIndexing,
    out: RewriteView,
) -> bool {
    &&& out.bindings.len() == holes_in(fs)
    &&& out.origins.len() == holes_in(fs)
    &&& forall|k: int|
        0 <= k < fs.len() && (#[trigger] fs[k]) is Placeholder ==> is_bound(
            fs,
            k,
            args,
            out.bindings,
            out.origins,
        )
    &&& out.describe_sql == numbered(fs, ch, indexing)
    &&& match out.runtime_template {
        TemplateView::Static(sql) => !has_spread(fs) && sql == out.describe_sql,
        TemplateView::Pieces { literals, bindings } => {
            &&& has_spread(fs)
            &&& literals.len() == holes_in(fs) + 1
            &&& forall|n: int|
                0 <= n < literals.len() ==> #[trigger] literals[n] == text_behind(fs, n as nat)
            &&& bindings.len() == holes_in(fs)
            &&& forall|k: int|
                0 <= k < fs.len() && (#[trigger] fs[k]) is Placeholder ==> {
                    let n = holes_in(fs.take(k)) as int;
                    &&& bindings[n].binding_index == n as usize
                    &&& bindings[n].kind == match fs[k]->Placeholder_0.kleene {
                        None => BindingRefKind::Single,
                        Some(kleene) => BindingRefKind::Spread(kleene),
                    }
                }
        },
    }
}

/// Is the `k`-th fragment the first placeholder that cannot be resolved?
pub open spec fn is_first_unresolvable(
    fs: Seq<FragmentView>,
    args: ArgsView,
    k: int,
    e: RewriteErrorView,
) -> bool {
    &&& 0 <= k < fs.len()
    &&& fs[k] is Placeholder
    &&& is_unresolvable(fs[k]->Placeholder_0, args, e)
    &&& forall|j: int|
        0 <= j < k && (#[trigger] fs[j]) is Placeholder ==> exists|x: ExprView, o: Origin|
            resolves_to(fs[j]->Placeholder_0, args, x, o)
}

/// Is the error that of the first placeholder that cannot be resolved?
pub open spec fn is_rejected(fs: Seq<FragmentView>, args: ArgsView, e: RewriteErrorView) -> bool {
    exists|k: int| #[trigger] is_first_unresolvable(fs, args, k, e)
}

proof fn lemma_holes(fs: Seq<FragmentView>)
    ensures
        holes_in(fs) == rewrite::placeholders_of(fs).len(),
    decreases fs.len(),
{
    if fs.len() > 0 {
        lemma_holes(fs.drop_last());
    }
}

proof fn lemma_hole_at(fs: Seq<FragmentView>, k: int)
    requires
        0 <= k < fs.len(),
        fs[k] is Placeholder,
    ensures
        holes_in(fs.take(k)) < holes_in(fs),
        rewrite::placeholders_of(fs).len() == holes_in(fs),
        rewrite::placeholders_of(fs)[holes_in(fs.take(k)) as int] == fs[k]->Placeholder_0,
{
    lemma_holes(fs);
    lemma_holes(fs.take(k));
    rewrite::lemma_one_more(fs, k);
    rewrite::lemma_placeholders_prefix(fs, k + 1);
    let some = rewrite::placeholders_of(fs.take(k + 1));
    assert(some == rewrite::placeholders_of(fs.take(k)).push(fs[k]->Placeholder_0));
    assert(some.last() == fs[k]->Placeholder_0);
}

/// Each placeholder stands somewhere.
proof fn lemma_where(fs: Seq<FragmentView>, n: int) -> (k: int)
    requires
        0 <= n < rewrite::placeholders_of(fs).len(),
    ensures
        0 <= k < fs.len(),
        fs[k] == FragmentView::Placeholder(rewrite::placeholders_of(fs)[n]),
        holes_in(fs.take(k)) == n,
    decreases fs.len(),
{
    let front = fs.drop_last();
    let before = rewrite::placeholders_of(front);
    if n < before.len() {
        let k = lemma_where(front, n);
        assert(front.take(k) =~= fs.take(k));
        assert(front[k] == fs[k]);
        k
    } else {
        lemma_holes(front);
        assert(fs.take(fs.len() - 1) =~= front);
        fs.len() - 1
    }
}

proof fn lemma_resolve_all(ps: Seq<PlaceholderView>, args: ArgsView)
    ensures
        match rewrite::resolve_all(ps, args) {
            Ok(all) => all.len() == ps.len() && forall|n: int|
                0 <= n < ps.len() ==> rewrite::resolve_meaning(#[trigger] ps[n], args) == Ok::<
                    _,
                    RewriteErrorView,
                >(all[n]),
            Err(e) => exists|n: int|
                0 <= n < ps.len() && rewrite::resolve_meaning(#[trigger] ps[n], args) == Err::<
                    (ExprView, Origin),
                    _,
                >(e) && forall|m: int|
                    0 <= m < n ==> rewrite::resolve_meaning(#[trigger] ps[m], args) is Ok,
        },
    decreases ps.len(),
{
    if ps.len() > 0 {
        let front = ps.drop_last();
        lemma_resolve_all(front, args);
        assert forall|n: int| 0 <= n < front.len() implies #[trigger] ps[n] == front[n] by {}
        match rewrite::resolve_all(front, args) {
            Ok(all) => {
                assert(ps.last() == ps[ps.len() - 1]);
                assert forall|m: int| 0 <= m < ps.len() - 1 implies rewrite::resolve_meaning(
                    #[trigger] ps[m],
                    args,
                ) is Ok by {
                    assert(front[m] == ps[m]);
                }
            },
            Err(e) => {
                let n = choose|n: int|
                    0 <= n < front.len() && rewrite::resolve_meaning(#[trigger] front[n], args)
                        == Err::<(ExprView, Origin), _>(e) && forall|m: int|
                        0 <= m < n ==> rewrite::resolve_meaning(#[trigger] front[m], args) is Ok;
                assert(ps[n] == front[n]);
                assert forall|m: int| 0 <= m < n implies rewrite::resolve_meaning(
                    #[trigger] ps[m],
                    args,
                ) is Ok by {
                    assert(front[m] == ps[m]);
                }
            },
        }
    }
}

proof fn lemma_texts(fs: Seq<FragmentView>, n: nat)
    ensures
        rewrite::literals_of(fs).len() == holes_in(fs) + 1,
        n <= holes_in(fs) ==> rewrite::literals_of(fs)[n as int] == text_behind(fs, n),
        n > holes_in(fs) ==> text_behind(fs, n) == Seq::<char>::empty(),
    decreases fs.len(),
{
    if fs.len() > 0 {
        lemma_texts(fs.drop_last(), n);
        let before = text_behind(fs.drop_last(), n);
        assert(before + Seq::<char>::empty() =~= before);
    }
}

proof fn lemma_numbered(fs: Seq<FragmentView>, ch: char, indexing: ParamIndexing)
    ensures
        rewrite::native_sql(fs, ch, indexing) == numbered(fs, ch, indexing),
    decreases fs.len(),
{
    if fs.len() > 0 {
        lemma_numbered(fs.drop_last(), ch, indexing);
        lemma_holes(fs);
    }
}

/// A query with placeholders is rewritten to one with a native placeholder and a
/// binding for each of them, and rejected for the first that cannot be resolved.
pub proof fn law_rewrite(fs: Seq<FragmentView>, args: ArgsView, ch: char, indexing: ParamIndexing)
    ensures
        match rewrite::rewrite_meaning(fs, true, args, ch, indexing) {
            Ok(out) => is_rewritten(fs, args, ch, indexing, out),
            Err(e) => is_rejected(fs, args, e),
        },
{
    let ps = rewrite::placeholders_of(fs);
    lemma_holes(fs);
    lemma_resolve_all(ps, args);
    match rewrite::resolve_all(ps, args) {
        Ok(all) => {
            let out = rewrite::rewrite_meaning(fs, true, args, ch, indexing)->Ok_0;
            assert forall|k: int| 0 <= k < fs.len() && (#[trigger] fs[k]) is Placeholder implies
                is_bound(fs, k, args, out.bindings, out.origins) by {
                lemma_hole_at(fs, k);
                let n = holes_in(fs.take(k)) as int;
                law_resolve(ps[n], args);
            }
            lemma_numbered(fs, ch, indexing);
            if rewrite::spreads(ps) {
                let n = choose|n: int| 0 <= n < ps.len() && (#[trigger] ps[n]).kleene is Some;
                let k = lemma_where(fs, n);
                assert(fs[k] is Placeholder);
                let literals = rewrite::literals_of(fs);
                lemma_texts(fs, 0);
                assert forall|n: int| 0 <= n < literals.len() implies #[trigger] literals[n]
                    == text_behind(fs, n as nat) by {
                    lemma_texts(fs, n as nat);
                }
                let refs = rewrite::refs_of(ps);
                assert forall|k: int| 0 <= k < fs.len() && (
                #[trigger] fs[k]) is Placeholder implies ({
                    let n = holes_in(fs.take(k)) as int;
                    refs[n].binding_index == n as usize && refs[n].kind == match fs[k]->Placeholder_0.kleene {
                        None => BindingRefKind::Single,
                        Some(kleene) => BindingRefKind::Spread(kleene),
                    }
                }) by {
                    lemma_hole_at(fs, k);
                }
            } else {
                assert(!has_spread(fs)) by {
                    if has_spread(fs) {
                        let k = choose|k: int|
                            0 <= k < fs.len() && ((
                            #[trigger] fs[k]) matches FragmentView::Placeholder(p)
                                && p.kleene is Some);
                        lemma_hole_at(fs, k);
                        assert(ps[holes_in(fs.take(k)) as int].kleene is Some);
                    }
                }
            }
        },
        Err(e) => {
            let n = choose|n: int|
                0 <= n < ps.len() && rewrite::resolve_meaning(#[trigger] ps[n], args) == Err::<
                    (ExprView, Origin),
                    _,
                >(e) && forall|m: int|
                    0 <= m < n ==> rewrite::resolve_meaning(#[trigger] ps[m], args) is Ok;
            let k = lemma_where(fs, n);
            law_resolve(ps[n], args);
            assert forall|j: int| 0 <= j < k && (#[trigger] fs[j]) is Placeholder implies exists|
                x: ExprView,
                o: Origin,
            | resolves_to(fs[j]->Placeholder_0, args, x, o) by {
                lemma_hole_at(fs.take(k), j);
                assert(fs.take(k)[j] == fs[j]);
                assert(fs.take(k).take(j) =~= fs.take(j));
                lemma_hole_at(fs, j);
                let m = holes_in(fs.take(j)) as int;
                law_resolve(ps[m], args);
                let (x, o) = rewrite::resolve_meaning(ps[m], args)->Ok_0;
                assert(resolves_to(fs[j]->Placeholder_0, args, x, o));
            }
            assert(is_first_unresolvable(fs, args, k, e));
        },
    }
}

/// A query without placeholders stays, and each of its positional arguments is
/// bound, in their order. Named arguments and `..rest` are errors.
pub proof fn law_rewrite_without_placeholders(
    fs: Seq<FragmentView>,
    args: ArgsView,
    ch: char,
    indexing: ParamIndexing,
)
    requires
        forall|k: int| 0 <= k < fs.len() ==> (#[trigger] fs[k]) is Literal,
    ensures
        match rewrite::rewrite_meaning(fs, false, args, ch, indexing) {
            Ok(out) => {
                &&& args.named.len() == 0
                &&& args.rest is None
                &&& out.describe_sql == text_behind(fs, 0)
                &&& out.runtime_template == TemplateView::Static(out.describe_sql)
                &&& out.bindings.len() == args.positional.len()
                &&& out.origins.len() == args.positional.len()
                &&& forall|i: int|
                    0 <= i < args.positional.len() ==> #[trigger] out.bindings[i]
                        == BindingView::Single(args.positional[i])
                &&& forall|i: int|
                    0 <= i < args.positional.len() ==> #[trigger] out.origins[i]
                        == Origin::Positional(i as usize)
            },
            Err(e) => (args.named.len() > 0 || args.rest is Some) && e.start == 0 && e.end == 0
                && e.message
                == "named or `..rest` arguments were provided but the SQL contains no `{...}` placeholders"@,
        },
{
    lemma_texts(fs, 0);
}

} // verus!
