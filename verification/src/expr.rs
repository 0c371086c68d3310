//! Rust expressions, as far as binding them asks.
use crate::tokens;
use crate::tokens::{find_rest, has_punct, print_tokens, Delimiter, Token, TokenView};
use proc_macro2::TokenStream;
use syn::parse::{ParseStream, Parser};
use vstd::prelude::*;

verus! {

/// The type of an `expr as Ty`.
#[derive(Debug, Clone, Copy, PartialEq, Eq, Structural)]
pub enum CastType {
    /// The wildcard `_`.
    Infer,
    /// A type.
    Given,
}

/// A field access.
#[derive(Debug)]
pub enum FieldAccess {
    /// As it is written.
    Written(String),
    /// The field of an expression with this name.
    Of(Box<Expr>, String),
}

/// An expression, taken apart where its form matters.
#[derive(Debug)]
pub enum Expr {
    Lit(String),
    Path(String),
    MethodCall(String),
    Field(FieldAccess),
    /// `expr as Ty`, as it is written.
    Cast(String, CastType),
    /// What is cast in the `expr as Ty` that is written here.
    Operand(String),
    /// The expression that a `macro_rules` fragment was replaced with.
    Group(Box<Expr>),
    /// An expression of another form.
    Other(String),
}

/// A [`FieldAccess`], with its texts as sequences.
pub enum FieldAccessView {
    Written(Seq<char>),
    Of(Box<ExprView>, Seq<char>),
}

/// An [`Expr`], with its texts as sequences.
pub enum ExprView {
    Lit(Seq<char>),
    Path(Seq<char>),
    MethodCall(Seq<char>),
    Field(FieldAccessView),
    Cast(Seq<char>, CastType),
    Operand(Seq<char>),
    Group(Box<ExprView>),
    Other(Seq<char>),
}

/// The view of an expression.
pub open spec fn expr_view(e: Expr) -> ExprView
    decreases e,
{
    match e {
        Expr::Lit(s) => ExprView::Lit(s@),
        Expr::Path(s) => ExprView::Path(s@),
        Expr::MethodCall(s) => ExprView::MethodCall(s@),
        Expr::Field(FieldAccess::Written(s)) => ExprView::Field(FieldAccessView::Written(s@)),
        Expr::Field(FieldAccess::Of(base, member)) => ExprView::Field(
            FieldAccessView::Of(Box::new(expr_view(*base)), member@),
        ),
        Expr::Cast(s, ty) => ExprView::Cast(s@, ty),
        Expr::Operand(s) => ExprView::Operand(s@),
        Expr::Group(inner) => ExprView::Group(Box::new(expr_view(*inner))),
        Expr::Other(s) => ExprView::Other(s@),
    }
}

impl View for Expr {
    type V = ExprView;

    open spec fn view(&self) -> ExprView {
        expr_view(*self)
    }
}

impl Clone for Expr {
    fn clone(&self) -> (r: Self)
        ensures
            r@ == self@,
        decreases self,
    {
        match self {
            Expr::Lit(s) => Expr::Lit(s.clone()),
            Expr::Path(s) => Expr::Path(s.clone()),
            Expr::MethodCall(s) => Expr::MethodCall(s.clone()),
            Expr::Field(FieldAccess::Written(s)) => Expr::Field(FieldAccess::Written(s.clone())),
            Expr::Field(FieldAccess::Of(base, member)) => Expr::Field(
                FieldAccess::Of(Box::new((**base).clone()), member.clone()),
            ),
            Expr::Cast(s, ty) => Expr::Cast(s.clone(), *ty),
            Expr::Operand(s) => Expr::Operand(s.clone()),
            Expr::Group(inner) => Expr::Group(Box::new((**inner).clone())),
            Expr::Other(s) => Expr::Other(s.clone()),
        }
    }
}

/// The expressions, each by its view.
pub open spec fn expr_views(es: Seq<Expr>) -> Seq<ExprView> {
    Seq::new(es.len(), |i: int| es[i]@)
}

// -- Casts ----------------------------------------------------------------

/// The type that the expression is cast to, if it is a cast.
pub open spec fn type_override(e: ExprView) -> Option<CastType>
    decreases e,
{
    match e {
        ExprView::Group(inner) => type_override(*inner),
        ExprView::Cast(_, ty) => Some(ty),
        _ => None,
    }
}

/// The expression without its cast to `_`, if it is one.
pub open spec fn without_wildcard(e: ExprView) -> ExprView
    decreases e,
{
    match e {
        ExprView::Group(inner) => ExprView::Group(Box::new(without_wildcard(*inner))),
        ExprView::Cast(s, CastType::Infer) => ExprView::Operand(s),
        _ => e,
    }
}

/// The type that the user cast the expression to.
pub fn get_type_override(expr: &Expr) -> (r: Option<CastType>)
    ensures
        r == type_override(expr@),
    decreases expr,
{
    match expr {
        Expr::Group(inner) => get_type_override(inner),
        Expr::Cast(_, ty) => Some(*ty),
        _ => None,
    }
}

/// Takes a cast to the wildcard `_` off: it is read as taking the value as it
/// is. Casts to a type stay, since they may matter.
pub fn strip_wildcard(expr: Expr) -> (r: Expr)
    ensures
        r@ == without_wildcard(expr@),
    decreases expr,
{
    match expr {
        Expr::Group(inner) => Expr::Group(Box::new(strip_wildcard(*inner))),
        Expr::Cast(s, CastType::Infer) => Expr::Operand(s),
        _ => expr,
    }
}

// -- Reading expressions and types ----------------------------------------

/// The forms of expressions that are told apart.
#[derive(Debug, Clone, Copy, PartialEq, Eq, Structural)]
pub enum ExprForm {
    Lit,
    Path,
    MethodCall,
    Field,
    Cast(CastType),
    Block,
    Macro,
    Other,
}

/// The number of token trees behind the expression that a text begins with, or
/// why there is none.
pub uninterp spec fn expr_rest(text: Seq<char>) -> Result<nat, Seq<char>>;

/// The form of the expression that a text is.
pub uninterp spec fn form_of(text: Seq<char>) -> ExprForm;

/// The number of token trees behind the type that a text begins with, or why
/// there is none.
pub uninterp spec fn type_rest(text: Seq<char>) -> Result<nat, Seq<char>>;

/// Is the text a type that is a path?
pub uninterp spec fn is_type_path(text: Seq<char>) -> bool;

/// The value of a string literal; `None` for any other text.
pub uninterp spec fn str_value(text: Seq<char>) -> Option<Seq<char>>;

/// May the text be used as a name?
pub uninterp spec fn is_name(text: Seq<char>) -> bool;

/// Calls `syn::Expr::parse` on the tokens of `text`, and counts the token trees
/// that it leaves. What comes of it is named by [`expr_rest`]: it depends on the
/// text and on the one lexer that a process has.
#[verifier::external_body]
pub(crate) fn skip_expr(text: &str) -> (r: Result<usize, String>)
    ensures
        match r {
            Ok(rest) => expr_rest(text@) == Ok::<nat, Seq<char>>(rest as nat),
            Err(message) => expr_rest(text@) == Err::<nat, Seq<char>>(message@),
        },
{
    let parser = |s: ParseStream| s.parse::<syn::Expr>().and_then(|_| s.parse::<TokenStream>());
    let rest = parser.parse_str(text).map_err(|e| e.to_string())?;
    Ok(rest.into_iter().count())
}

/// Calls `syn::parse_str::<syn::Expr>` and tells which variant came out of it,
/// and of a cast whether its type is the variant for `_`. `Other` stands for all
/// other variants, and for a text that is no expression. The form is named by
/// [`form_of`]: it depends on the text and on the one lexer that a process has.
#[verifier::external_body]
pub(crate) fn expr_form(text: &str) -> (r: ExprForm)
    ensures
        r == form_of(text@),
{
    match syn::parse_str(text) {
        Ok(syn::Expr::Lit(_)) => ExprForm::Lit,
        Ok(syn::Expr::Path(_)) => ExprForm::Path,
        Ok(syn::Expr::MethodCall(_)) => ExprForm::MethodCall,
        Ok(syn::Expr::Field(_)) => ExprForm::Field,
        Ok(syn::Expr::Block(_)) => ExprForm::Block,
        Ok(syn::Expr::Macro(_)) => ExprForm::Macro,
        Ok(syn::Expr::Cast(cast)) => match *cast.ty {
            syn::Type::Infer(_) => ExprForm::Cast(CastType::Infer),
            _ => ExprForm::Cast(CastType::Given),
        },
        _ => ExprForm::Other,
    }
}

/// Calls `syn::Type::parse` on the tokens of `text`, and counts the token trees
/// that it leaves. What comes of it is named by [`type_rest`]: it depends on the
/// text and on the one lexer that a process has.
#[verifier::external_body]
pub(crate) fn skip_type(text: &str) -> (r: Result<usize, String>)
    ensures
        match r {
            Ok(rest) => type_rest(text@) == Ok::<nat, Seq<char>>(rest as nat),
            Err(message) => type_rest(text@) == Err::<nat, Seq<char>>(message@),
        },
{
    let parser = |s: ParseStream| s.parse::<syn::Type>().and_then(|_| s.parse::<TokenStream>());
    let rest = parser.parse_str(text).map_err(|e| e.to_string())?;
    Ok(rest.into_iter().count())
}

/// Calls `syn::parse_str::<syn::Type>` and tells whether the variant for a path
/// came out of it. Whether it does is named by [`is_type_path`]: it depends on
/// the text and on the one lexer that a process has.
#[verifier::external_body]
pub(crate) fn accepts_type_path(text: &str) -> (r: bool)
    ensures
        r == is_type_path(text@),
{
    matches!(syn::parse_str(text), Ok(syn::Type::Path(_)))
}

/// Calls `syn::parse_str::<syn::LitStr>` and `LitStr::value`. What they return
/// is named by [`str_value`]: it depends on the text and on the one lexer that a
/// process has.
#[verifier::external_body]
pub(crate) fn parse_lit_str(text: &str) -> (r: Option<String>)
    ensures
        match r {
            Some(value) => str_value(text@) == Some(value@),
            None => str_value(text@) is None,
        },
{
    syn::parse_str::<syn::LitStr>(text).ok().map(|lit| lit.value())
}

/// Calls `syn::parse_str::<syn::Ident>`, which accepts identifiers that are no
/// keywords. Whether it does is named by [`is_name`]: it depends on the text and
/// on the one lexer that a process has.
#[verifier::external_body]
pub(crate) fn accepts_name(text: &str) -> (r: bool)
    ensures
        r == is_name(text@),
{
    syn::parse_str::<syn::Ident>(text).is_ok()
}

/// The expression with the given text and form.
pub open spec fn formed_expr(text: Seq<char>, form: ExprForm) -> ExprView {
    match form {
        ExprForm::Lit => ExprView::Lit(text),
        ExprForm::Path => ExprView::Path(text),
        ExprForm::MethodCall => ExprView::MethodCall(text),
        ExprForm::Field => ExprView::Field(FieldAccessView::Written(text)),
        ExprForm::Cast(ty) => ExprView::Cast(text, ty),
        ExprForm::Block | ExprForm::Macro | ExprForm::Other => ExprView::Other(text),
    }
}

/// The expression with the given text and form.
pub fn form_expr(text: String, form: ExprForm) -> (r: Expr)
    ensures
        r@ == formed_expr(text@, form),
{
    match form {
        ExprForm::Lit => Expr::Lit(text),
        ExprForm::Path => Expr::Path(text),
        ExprForm::MethodCall => Expr::MethodCall(text),
        ExprForm::Field => Expr::Field(FieldAccess::Written(text)),
        ExprForm::Cast(ty) => Expr::Cast(text, ty),
        ExprForm::Block | ExprForm::Macro | ExprForm::Other => Expr::Other(text),
    }
}

/// The expression that a text is.
pub open spec fn expr_of(text: Seq<char>) -> ExprView {
    formed_expr(text, form_of(text))
}

fn take_apart(text: String) -> (r: Expr)
    ensures
        r@ == expr_of(text@),
{
    let form = expr_form(text.as_str());
    form_expr(text, form)
}

/// The expression that a whole text is.
pub open spec fn whole_expr(text: Seq<char>) -> Result<ExprView, Seq<char>> {
    match expr_rest(text) {
        Ok(rest) => if rest == 0 {
            Ok(expr_of(text))
        } else {
            Err("unexpected token"@)
        },
        Err(message) => Err(message),
    }
}

/// Reads a whole text as one expression.
pub fn parse_expr(text: &str) -> (r: Result<Expr, String>)
    ensures
        match r {
            Ok(e) => whole_expr(text@) == Ok::<ExprView, Seq<char>>(e@),
            Err(message) => whole_expr(text@) == Err::<ExprView, Seq<char>>(message@),
        },
{
    match skip_expr(text) {
        Ok(rest) => if rest == 0 {
            Ok(take_apart(text.to_owned()))
        } else {
            Err("unexpected token".to_owned())
        },
        Err(message) => Err(message),
    }
}

/// The expression that all the tokens are. An invisible group by itself stays
/// recognizable as one.
pub open spec fn grouped_expr(ts: Seq<TokenView>) -> Result<ExprView, Seq<char>>
    decreases ts,
{
    if ts.len() == 1 && ts[0] is Group && ts[0]->Group_0 is Invisible {
        match grouped_expr(ts[0]->Group_1) {
            Ok(e) => Ok(ExprView::Group(Box::new(e))),
            Err(message) => Err(message),
        }
    } else {
        whole_expr(tokens::tokens_text(ts))
    }
}

fn parse_grouped(ts: &Vec<Token>) -> (r: Result<Expr, String>)
    ensures
        match r {
            Ok(e) => grouped_expr(tokens::token_views(ts@)) == Ok::<ExprView, Seq<char>>(e@),
            Err(message) => grouped_expr(tokens::token_views(ts@)) == Err::<ExprView, Seq<char>>(
                message@,
            ),
        },
    decreases ts@,
{
    let ghost views = tokens::token_views(ts@);
    if ts.len() == 1 {
        assert(views[0] == ts@[0]@);
        match &ts[0] {
            Token::Group(Delimiter::Invisible, inner) => {
                proof {
                    assert(ts@[0]@->Group_1 =~= tokens::token_views(inner@));
                    assert(decreases_to!(ts@ => ts@[0]));
                    assert(decreases_to!(ts@[0] => ts@[0]->Group_1));
                    assert(decreases_to!(*inner => inner@));
                }
                return match parse_grouped(inner) {
                    Ok(e) => Ok(Expr::Group(Box::new(e))),
                    Err(message) => Err(message),
                };
            },
            _ => {},
        }
    }
    assert(views.subrange(0, ts@.len() as int) =~= views);
    parse_expr(print_tokens(ts, 0, ts.len()).as_str())
}

/// The expression at the `i`-th token and the index behind it. An invisible
/// group that makes up a whole list element stays recognizable as one.
pub open spec fn expr_at(ts: Seq<TokenView>, i: int) -> Result<(ExprView, int), Seq<char>> {
    if i < ts.len() && ts[i] is Group && ts[i]->Group_0 is Invisible && (i + 1 == ts.len()
        || tokens::is_punct(ts, i + 1, ',')) {
        match grouped_expr(ts[i]->Group_1) {
            Ok(e) => Ok((ExprView::Group(Box::new(e)), i + 1)),
            Err(message) => Err(message),
        }
    } else {
        match expr_rest(tokens::tokens_text(ts.subrange(i, ts.len() as int))) {
            Ok(rest) => match tokens::rest_start(ts, ts.len(), rest) {
                Some(next) => if i < next {
                    Ok((expr_of(tokens::tokens_text(ts.subrange(i, next as int))), next as int))
                } else {
                    Err("expected an expression"@)
                },
                None => Err("expected `,`"@),
            },
            Err(message) => Err(message),
        }
    }
}

/// Reads the expression at the `i`-th token.
pub fn parse_expr_at(ts: &Vec<Token>, i: usize) -> (r: Result<(Expr, usize), String>)
    requires
        i <= ts@.len(),
    ensures
        match r {
            Ok((e, next)) => i < next <= ts@.len() && expr_at(
                tokens::token_views(ts@),
                i as int,
            ) == Ok::<(ExprView, int), Seq<char>>((e@, next as int)),
            Err(message) => expr_at(tokens::token_views(ts@), i as int) == Err::<
                (ExprView, int),
                Seq<char>,
            >(message@),
        },
{
    let n: usize = ts.len();
    let ghost views = tokens::token_views(ts@);
    if i < n {
        assert(views[i as int] == ts@[i as int]@);
        match &ts[i] {
            Token::Group(Delimiter::Invisible, inner) => {
                if i + 1 == n || has_punct(ts, i + 1, ',') {
                    assert(ts@[i as int]@->Group_1 =~= tokens::token_views(inner@));
                    return match parse_grouped(inner) {
                        Ok(e) => Ok((Expr::Group(Box::new(e)), i + 1)),
                        Err(message) => Err(message),
                    };
                }
            },
            _ => {},
        }
    }
    match skip_expr(print_tokens(ts, i, n).as_str()) {
        Ok(rest) => match find_rest(ts, rest) {
            Some(next) => if i < next {
                Ok((take_apart(print_tokens(ts, i, next)), next))
            } else {
                Err("expected an expression".to_owned())
            },
            None => Err("expected `,`".to_owned()),
        },
        Err(message) => Err(message),
    }
}

/// The type at the `i`-th token, as it is written, and the index behind it.
pub open spec fn type_at(ts: Seq<TokenView>, i: int) -> Result<(Seq<char>, int), Seq<char>> {
    match type_rest(tokens::tokens_text(ts.subrange(i, ts.len() as int))) {
        Ok(rest) => match tokens::rest_start(ts, ts.len(), rest) {
            Some(next) => if i < next {
                Ok((tokens::tokens_text(ts.subrange(i, next as int)), next as int))
            } else {
                Err("expected a type"@)
            },
            None => Err("expected `,`"@),
        },
        Err(message) => Err(message),
    }
}

/// Reads the type at the `i`-th token.
pub fn parse_type_at(ts: &Vec<Token>, i: usize) -> (r: Result<(String, usize), String>)
    requires
        i <= ts@.len(),
    ensures
        match r {
            Ok((ty, next)) => i < next <= ts@.len() && type_at(
                tokens::token_views(ts@),
                i as int,
            ) == Ok::<(Seq<char>, int), Seq<char>>((ty@, next as int)),
            Err(message) => type_at(tokens::token_views(ts@), i as int) == Err::<
                (Seq<char>, int),
                Seq<char>,
            >(message@),
        },
{
    let n: usize = ts.len();
    match skip_type(print_tokens(ts, i, n).as_str()) {
        Ok(rest) => match find_rest(ts, rest) {
            Some(next) => if i < next {
                Ok((print_tokens(ts, i, next), next))
            } else {
                Err("expected a type".to_owned())
            },
            None => Err("expected `,`".to_owned()),
        },
        Err(message) => Err(message),
    }
}

} // verus!
