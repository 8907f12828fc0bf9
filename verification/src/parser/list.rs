//! The list collector: the elements between an opening bracket, which was
//! read already, and the bracket that closes it.
use crate::lexer::{Token, TokenView};
use crate::parser::{
    expression, outcome, parse_expression, AstView, ParseError, ParseErrorView, Parsed, AST,
    MAX_NESTING, lemma_tail_view,
};
use vstd::prelude::*;

verus! {

/// The elements of a list, `None` for each that is missing or malformed, and
/// the tokens after the list; or the reason why parsing stops.
pub type Collected = Result<(Seq<Option<AstView>>, Seq<TokenView>), ParseErrorView>;

/// `others` with the elements `first` before its own.
pub open spec fn after(first: Seq<Option<AstView>>, others: Collected) -> Collected {
    match others {
        Ok((elements, rest)) => Ok((first + elements, rest)),
        Err(error) => Err(error),
    }
}

/// The elements of the list whose opening bracket stood just before `tokens`,
/// when `depth` more lists may be opened inside it.
///
/// A closing bracket at once ends an empty list. Else an expression is the
/// first element, and [`more_elements`] follow. Where the tokens end before
/// the list does, one element is missing and nothing is left.
pub open spec fn elements(tokens: Seq<TokenView>, depth: nat) -> Collected
    decreases tokens.len(), 1nat,
{
    if tokens.len() == 0 {
        Ok((seq![None], tokens))
    } else if tokens[0] is CloseObject {
        Ok((Seq::empty(), tokens.skip(1)))
    } else {
        match expression(tokens, depth) {
            Err(error) => Err(error),
            Ok((first, rest)) => {
                // An expression consumes a token: see `lemma_consumes`.
                if rest.len() < tokens.len() {
                    after(seq![first], more_elements(rest, depth))
                } else {
                    Ok((seq![first], rest))
                }
            },
        }
    }
}

/// The elements of a list after its first.
///
/// A closing bracket ends the list. A line separator is followed by one more
/// element. Where the tokens end, or anything else stands there, the list is
/// malformed: one element is missing and nothing is left.
pub open spec fn more_elements(tokens: Seq<TokenView>, depth: nat) -> Collected
    decreases tokens.len(), 0nat,
{
    if tokens.len() == 0 {
        Ok((seq![None], tokens))
    } else if tokens[0] is CloseObject {
        Ok((Seq::empty(), tokens.skip(1)))
    } else if tokens[0] is LineSeparator {
        match expression(tokens.skip(1), depth) {
            Err(error) => Err(error),
            Ok((next, rest)) => {
                // An expression gives no token back: see `lemma_consumes`.
                if rest.len() < tokens.len() {
                    after(seq![next], more_elements(rest, depth))
                } else {
                    Ok((seq![next], rest))
                }
            },
        }
    } else {
        Ok((seq![None], Seq::empty()))
    }
}

/// The list made of `elements` if none of them is missing, else nothing.
pub open spec fn assembled(elements: Seq<Option<AstView>>) -> Option<AstView> {
    if forall|i: int| 0 <= i < elements.len() ==> (#[trigger] elements[i]) is Some {
        Some(AstView::List(Seq::new(elements.len(), |i: int| elements[i]->0)))
    } else {
        None
    }
}

/// The list whose opening bracket stood just before `tokens`, and the tokens
/// after it.
pub open spec fn list(tokens: Seq<TokenView>, depth: nat) -> Parsed
    decreases tokens.len(), 2nat,
{
    match elements(tokens, depth) {
        Ok((found, rest)) => Ok((assembled(found), rest)),
        Err(error) => Err(error),
    }
}

/// No list is partly filled. If one element is missing, the list is missing.
/// A list that is there holds every element that was collected, in order.
pub proof fn lemma_no_partial_list(tokens: Seq<TokenView>, depth: nat)
    ensures
        elements(tokens, depth) matches Ok((found, _)) ==> {
            let ast = list(tokens, depth)->Ok_0.0;
            &&& list(tokens, depth) is Ok
            &&& ast is None <==> exists|i: int| 0 <= i < found.len() && found[i] is None
            &&& ast is Some ==> ast->0 is List && ast->0->List_0.len() == found.len()
            &&& ast is Some ==> forall|i: int|
                0 <= i < found.len() ==> found[i] == Some(#[trigger] ast->0->List_0[i])
        },
{
}

/// Parsing never gives tokens back, and an expression read from at least one
/// token consumes at least one.
pub proof fn lemma_consumes(tokens: Seq<TokenView>, depth: nat)
    ensures
        expression(tokens, depth) matches Ok((_, rest)) ==> rest.len() <= tokens.len() && (
        tokens.len() > 0 ==> rest.len() < tokens.len()),
        elements(tokens, depth) matches Ok((_, rest)) ==> rest.len() <= tokens.len(),
        more_elements(tokens, depth) matches Ok((_, rest)) ==> rest.len() <= tokens.len(),
        list(tokens, depth) matches Ok((_, rest)) ==> rest.len() <= tokens.len(),
    decreases tokens.len(),
{
    if tokens.len() > 0 {
        let tail = tokens.skip(1);
        lemma_consumes(tail, depth);
        if depth > 0 {
            lemma_consumes(tail, (depth - 1) as nat);
        }
        match expression(tokens, depth) {
            Ok((_, rest)) => {
                assert(rest.len() < tokens.len());
                lemma_consumes(rest, depth);
            },
            Err(_) => {},
        }
        match expression(tail, depth) {
            Ok((_, rest)) => {
                lemma_consumes(rest, depth);
            },
            Err(_) => {},
        }
    }
}

/// Turns the collected elements into a list, if none of them is missing.
fn assemble(asts: Vec<Option<AST>>) -> (r: Option<AST>)
    ensures
        r.deep_view() == assembled(asts.deep_view()),
{
    let ghost all = asts@;
    let ghost found = asts.deep_view();
    let mut items: Vec<AST> = Vec::new();
    for ast in it: asts
        invariant
            it.seq() == all,
            found == asts.deep_view(),
            found.len() == all.len(),
            forall|j: int| 0 <= j < all.len() ==> found[j] == (#[trigger] all[j]).deep_view(),
            items@.len() == it.index(),
            forall|j: int| 0 <= j < items@.len() ==> all[j] == Some(#[trigger] items@[j]),
    {
        match ast {
            Some(item) => {
                items.push(item);
            },
            None => {
                assert(found[it.index() as int] is None);
                return None;
            },
        }
    }
    let list = AST::List(items);
    proof {
        assert forall|i: int| 0 <= i < found.len() implies (#[trigger] found[i]) == Some(
            items@[i]@,
        ) by {
            assert(all[i] == Some(items@[i]));
        }
        assert(list@->List_0 =~= Seq::new(found.len(), |i: int| found[i]->0));
    }
    Some(list)
}

/// Collects the list whose opening bracket stood just before `tokens`, and
/// returns it with the tokens after its closing bracket. The list is `None`
/// if it is not closed or one of its elements is malformed.
pub fn collect_list(tokens: &[Token]) -> (r: Result<(Option<AST>, &[Token]), ParseError>)
    ensures
        outcome(r) == list(tokens.deep_view(), (MAX_NESTING - 1) as nat),
{
    collect_list_within(tokens, MAX_NESTING - 1)
}

/// As [`collect_list`], with `depth` more lists allowed to be opened inside
/// this one.
pub fn collect_list_within(tokens: &[Token], depth: usize) -> (r: Result<
    (Option<AST>, &[Token]),
    ParseError,
>)
    ensures
        outcome(r) == list(tokens.deep_view(), depth as nat),
    decreases tokens.len(), 3nat,
{
    let mut asts = Vec::new();
    match collect_list_initialised(&mut asts, tokens, depth) {
        Ok(left_tokens) => {
            assert(asts.deep_view() =~= Seq::empty() + asts.deep_view());
            Ok((assemble(asts), left_tokens))
        },
        Err(error) => Err(error),
    }
}

/// Appends to `asts` the elements of the list that starts at `tokens`, and
/// returns the tokens after the list.
fn collect_list_initialised<'a>(
    asts: &mut Vec<Option<AST>>,
    tokens: &'a [Token],
    depth: usize,
) -> (r: Result<&'a [Token], ParseError>)
    ensures
        match r {
            Ok(left) => elements(tokens.deep_view(), depth as nat) matches Ok((found, rest))
                && left.deep_view() == rest && final(asts).deep_view() == old(asts).deep_view()
                + found,
            Err(error) => elements(tokens.deep_view(), depth as nat) == Err::<
                (Seq<Option<AstView>>, Seq<TokenView>),
                _,
            >(error@),
        },
    decreases tokens.len(), 2nat,
{
    let n = tokens.len();
    if n == 0 {
        let ghost pushed = asts.deep_view().push(None);
        asts.push(None);
        assert(asts.deep_view() == pushed);
        return Ok(tokens);
    }
    assert(tokens.deep_view()[0] == tokens[0]@);
    match &tokens[0] {
        Token::CloseObject => {
            let tail = &tokens[1..n];
            proof {
                lemma_tail_view(tokens, tail, 1);
                assert(asts.deep_view() + Seq::empty() == asts.deep_view());
            }
            Ok(tail)
        },
        _ => {
            proof {
                lemma_consumes(tokens.deep_view(), depth as nat);
            }
            match parse_expression(tokens, depth) {
                Err(error) => Err(error),
                Ok((ast, left_tokens)) => {
                    let ghost before = asts.deep_view();
                    let ghost first = ast.deep_view();
                    asts.push(ast);
                    assert(asts.deep_view() == before.push(first));
                    let r = collect_list_next_elements(asts, left_tokens, depth);
                    proof {
                        if r is Ok {
                            let found = more_elements(left_tokens.deep_view(), depth as nat)->Ok_0.0;
                            assert(before.push(first) + found == before + (seq![first] + found));
                        }
                    }
                    r
                },
            }
        },
    }
}

/// Appends to `asts` the elements of a list after its first, and returns the
/// tokens after the list.
fn collect_list_next_elements<'a>(
    asts: &mut Vec<Option<AST>>,
    tokens: &'a [Token],
    depth: usize,
) -> (r: Result<&'a [Token], ParseError>)
    ensures
        match r {
            Ok(left) => more_elements(tokens.deep_view(), depth as nat) matches Ok((found, rest))
                && left.deep_view() == rest && final(asts).deep_view() == old(asts).deep_view()
                + found,
            Err(error) => more_elements(tokens.deep_view(), depth as nat) == Err::<
                (Seq<Option<AstView>>, Seq<TokenView>),
                _,
            >(error@),
        },
    decreases tokens.len(), 1nat,
{
    let ghost before = asts.deep_view();
    let ghost mut found: Seq<Option<AstView>> = Seq::empty();
    let mut left = tokens;
    loop
        invariant
            left.len() <= tokens.len(),
            before == old(asts).deep_view(),
            asts.deep_view() == before + found,
            more_elements(tokens.deep_view(), depth as nat) == after(
                found,
                more_elements(left.deep_view(), depth as nat),
            ),
        decreases left.len(),
    {
        let n = left.len();
        if n == 0 {
            let ghost pushed = asts.deep_view().push(None);
            asts.push(None);
            assert(asts.deep_view() == pushed);
            assert(pushed == before + (found + seq![None]));
            return Ok(left);
        }
        assert(left.deep_view()[0] == left[0]@);
        match &left[0] {
            Token::CloseObject => {
                let tail = &left[1..n];
                proof {
                    lemma_tail_view(left, tail, 1);
                    assert(found + Seq::empty() == found);
                }
                return Ok(tail);
            },
            Token::LineSeparator => {
                let tail = &left[1..n];
                proof {
                    lemma_tail_view(left, tail, 1);
                    lemma_consumes(tail.deep_view(), depth as nat);
                }
                match parse_expression(tail, depth) {
                    Err(error) => {
                        return Err(error);
                    },
                    Ok((ast, rest)) => {
                        let ghost next = ast.deep_view();
                        let ghost pushed = asts.deep_view().push(next);
                        asts.push(ast);
                        proof {
                            assert(asts.deep_view() == pushed);
                            assert(pushed == before + found.push(next));
                            let others = more_elements(rest.deep_view(), depth as nat);
                            if others is Ok {
                                assert(found + (seq![next] + others->Ok_0.0) == found.push(next)
                                    + others->Ok_0.0);
                            }
                            found = found.push(next);
                        }
                        left = rest;
                    },
                }
            },
            _ => {
                let ghost pushed = asts.deep_view().push(None);
                asts.push(None);
                let tail = &left[n..n];
                proof {
                    assert(asts.deep_view() == pushed);
                    assert(pushed == before + (found + seq![None]));
                    lemma_tail_view(left, tail, n as int);
                    assert(tail.deep_view() == Seq::<TokenView>::empty());
                }
                return Ok(tail);
            },
        }
    }
}

} // verus!
