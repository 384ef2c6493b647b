//! The parser of the query language: from the text of a pattern to a [`Pattern`].
use crate::errors::parsing_error::{
    int_negative_message, malformed_list_message, malformed_range_message,
    multiple_colons_message, too_many_dots_message, unexpected_dollar_message, ParsingError,
};
use crate::pattern::pattern::{Pattern, PatternView};
use crate::pattern::pattern_node::{
    IndexPattern, IndexPatternView, PatternNode, PatternNodeView,
};
use crate::pattern::tokenizer::{
    token_source, tokenize_chars, tokens_of, BracketToken, BracketTokenView, TextContent,
    TextContentView, Token, TokenView,
};
use crate::text::{as_ints, chars_to_string, push_str, str_to_chars, trim, trimmed};
use vstd::prelude::*;
use vstd::slice::slice_subrange;

verus! {

/// The positions of `s` at which `a` stands, in ascending order.
pub open spec fn positions_of<A>(s: Seq<A>, a: A) -> Seq<int>
    decreases s.len(),
{
    if s.len() == 0 {
        Seq::empty()
    } else if s.last() == a {
        positions_of(s.drop_last(), a).push(s.len() - 1)
    } else {
        positions_of(s.drop_last(), a)
    }
}

/// `positions_of` lists exactly the positions at which `a` stands, each once, in
/// ascending order.
pub proof fn lemma_positions_of<A>(s: Seq<A>, a: A)
    ensures
        positions_of(s, a).len() <= s.len(),
        forall|k: int|
            0 <= k < positions_of(s, a).len() ==> 0 <= #[trigger] positions_of(s, a)[k] < s.len()
                && s[positions_of(s, a)[k]] == a,
        forall|k: int, m: int|
            0 <= k < m < positions_of(s, a).len() ==> positions_of(s, a)[k] < positions_of(
                s,
                a,
            )[m],
        forall|i: int| 0 <= i < s.len() && s[i] == a ==> positions_of(s, a).contains(i),
    decreases s.len(),
{
    if s.len() > 0 {
        let front = positions_of(s.drop_last(), a);
        let all = positions_of(s, a);
        lemma_positions_of(s.drop_last(), a);
        assert forall|i: int| 0 <= i < s.len() && s[i] == a implies all.contains(i) by {
            if i < s.len() - 1 {
                assert(s.drop_last()[i] == a);
                assert(front.contains(i));
                let k = choose|k: int| 0 <= k < front.len() && front[k] == i;
                assert(all[k] == i);
            } else {
                assert(all[all.len() - 1] == i);
            }
        }
    }
}

/// An unquoted text token.
pub open spec fn is_plain_text(token: TokenView) -> bool {
    token matches TokenView::Text(text) && !text.quoted
}

/// `tokens` with a `*` in front of its first token, where that is an unquoted text.
pub open spec fn widen_first(tokens: Seq<TokenView>) -> Seq<TokenView> {
    if tokens.len() > 0 && is_plain_text(tokens[0]) {
        tokens.update(
            0,
            TokenView::Text(
                TextContentView { str: seq!['*'] + tokens[0]->Text_0.str, quoted: false },
            ),
        )
    } else {
        tokens
    }
}

/// `tokens` with a `*` behind its last token, where that is an unquoted text.
pub open spec fn widen_last(tokens: Seq<TokenView>) -> Seq<TokenView> {
    if tokens.len() > 0 && is_plain_text(tokens.last()) {
        tokens.update(
            tokens.len() - 1,
            TokenView::Text(
                TextContentView { str: tokens.last()->Text_0.str.push('*'), quoted: false },
            ),
        )
    } else {
        tokens
    }
}

/// Whether `tokens` is a list: non-negative integers at the even positions, commas at
/// the odd ones.
pub open spec fn is_index_list(tokens: Seq<BracketTokenView>) -> bool {
    forall|k: int|
        0 <= k < tokens.len() ==> if k % 2 == 0 {
            #[trigger] tokens[k] matches BracketTokenView::Int(n) && n >= 0
        } else {
            tokens[k] is Comma
        }
}

/// The integers of a list, in order.
pub open spec fn index_list_items(tokens: Seq<BracketTokenView>) -> Seq<usize> {
    Seq::new(((tokens.len() + 1) / 2) as nat, |k: int| tokens[2 * k]->Int_0 as usize)
}

/// The selector that `left : right` stands for.
pub open spec fn range_node(left: Seq<BracketTokenView>, right: Seq<BracketTokenView>) -> Result<
    PatternNodeView,
    Seq<char>,
> {
    if left.len() == 0 && right.len() == 0 {
        Ok(PatternNodeView::Index(IndexPatternView::All))
    } else if left.len() == 1 && left[0] is Int && right.len() == 1 && right[0] is Int {
        let l = left[0]->Int_0;
        let r = right[0]->Int_0;
        if l < 0 {
            Err(int_negative_message(l as int))
        } else if r < 0 {
            Err(int_negative_message(r as int))
        } else {
            Ok(PatternNodeView::Index(IndexPatternView::Range(l as usize, Some(r as usize))))
        }
    } else if left.len() == 1 && left[0] is Int && right.len() == 0 {
        let l = left[0]->Int_0;
        if l < 0 {
            Ok(PatternNodeView::Index(IndexPatternView::LastN((-l) as usize)))
        } else {
            Ok(PatternNodeView::Index(IndexPatternView::Range(l as usize, None)))
        }
    } else if left.len() == 0 && right.len() == 1 && right[0] is Int {
        let r = right[0]->Int_0;
        if r < 0 {
            Err(int_negative_message(r as int))
        } else {
            Ok(PatternNodeView::Index(IndexPatternView::Range(0, Some(r as usize))))
        }
    } else {
        Err(malformed_range_message())
    }
}

/// The bare `*` of `[*]`.
pub open spec fn is_star(token: BracketTokenView) -> bool {
    token matches BracketTokenView::Text(text) && !text.quoted && text.str == seq!['*']
}

/// The path node that the tokens between `[` and `]` stand for, or the message for
/// what is wrong with them.
pub open spec fn bracket_node(tokens: Seq<BracketTokenView>) -> Result<PatternNodeView, Seq<char>> {
    let colons = positions_of(tokens, BracketTokenView::Colon);
    let commas = positions_of(tokens, BracketTokenView::Comma);
    if tokens.len() == 0 || (tokens.len() == 1 && is_star(tokens[0])) {
        Ok(PatternNodeView::Index(IndexPatternView::All))
    } else if tokens.len() == 1 && tokens[0] is Int {
        let n = tokens[0]->Int_0;
        if n >= 0 {
            Ok(PatternNodeView::Index(IndexPatternView::List(seq![n as usize])))
        } else {
            Err(int_negative_message(n as int))
        }
    } else if tokens.len() == 1 && tokens[0] is Text && tokens[0]->Text_0.quoted {
        Ok(PatternNodeView::Key(tokens[0]->Text_0.str))
    } else if colons.len() == 1 {
        range_node(tokens.take(colons[0]), tokens.skip(colons[0] + 1))
    } else if colons.len() > 1 {
        Err(malformed_range_message())
    } else if commas.len() > 0 {
        if is_index_list(tokens) {
            Ok(PatternNodeView::Index(IndexPatternView::List(index_list_items(tokens))))
        } else {
            Err(malformed_list_message())
        }
    } else {
        Err(malformed_range_message())
    }
}

/// The nodes of a path, and whether it is anchored at the root.
pub struct PathView {
    pub nodes: Seq<PatternNodeView>,
    pub start_at_root: bool,
}

/// The path that the first `n` of `tokens` stand for, or the message for the first of
/// them that is wrong. A text is a key; a bracket expression is what [`bracket_node`]
/// says; a dot right after a dot is a recursive descent, and a third dot is an error;
/// `$` anchors the path and is an error anywhere but in front.
pub open spec fn path_of(tokens: Seq<TokenView>, n: int) -> Result<PathView, Seq<char>>
    decreases n,
{
    if n <= 0 {
        Ok(PathView { nodes: Seq::empty(), start_at_root: false })
    } else {
        match path_of(tokens, n - 1) {
            Err(message) => Err(message),
            Ok(before) => {
                let i = n - 1;
                match tokens[i] {
                    TokenView::Text(text) => Ok(
                        PathView {
                            nodes: before.nodes.push(PatternNodeView::Key(text.str)),
                            start_at_root: before.start_at_root,
                        },
                    ),
                    TokenView::BracketExpr(inner) => match bracket_node(inner) {
                        Ok(node) => Ok(
                            PathView {
                                nodes: before.nodes.push(node),
                                start_at_root: before.start_at_root,
                            },
                        ),
                        Err(message) => Err(message),
                    },
                    TokenView::Dollar => if i != 0 {
                        Err(unexpected_dollar_message())
                    } else {
                        Ok(PathView { nodes: before.nodes, start_at_root: true })
                    },
                    TokenView::Dot => if i >= 2 && tokens[i - 1] is Dot && tokens[i - 2] is Dot {
                        Err(too_many_dots_message())
                    } else if i >= 1 && tokens[i - 1] is Dot {
                        Ok(
                            PathView {
                                nodes: before.nodes.push(PatternNodeView::Recursive),
                                start_at_root: before.start_at_root,
                            },
                        )
                    } else {
                        Ok(before)
                    },
                    TokenView::Colon => Ok(before),
                }
            },
        }
    }
}

/// The pattern text that a run of tokens stands for.
pub open spec fn tokens_source(tokens: Seq<TokenView>) -> Seq<char>
    decreases tokens.len(),
{
    if tokens.len() == 0 {
        Seq::empty()
    } else {
        tokens_source(tokens.drop_last()) + token_source(tokens.last())
    }
}

/// Whether `s` is made of spaces only.
pub open spec fn all_spaces(s: Seq<char>) -> bool {
    forall|k: int| 0 <= k < s.len() ==> s[k] == ' '
}

/// The text of a value expression: the source of its tokens, the first one trimmed
/// where it is an unquoted text.
pub open spec fn value_text(tokens: Seq<TokenView>) -> Seq<char> {
    if tokens.len() == 0 {
        Seq::empty()
    } else if is_plain_text(tokens[0]) {
        trim(tokens[0]->Text_0.str) + tokens_source(tokens.skip(1))
    } else {
        tokens_source(tokens)
    }
}

/// The value predicate that `tokens` stand for. No tokens give none. Spaces followed
/// by one quoted text give the text between the quotes. Anything else gives its text,
/// unless that begins with a dot: what begins with a dot continues a path and is no
/// value.
pub open spec fn value_of(tokens: Seq<TokenView>) -> Option<Seq<char>> {
    if tokens.len() == 0 {
        None
    } else if tokens.len() == 2 && is_plain_text(tokens[0]) && all_spaces(tokens[0]->Text_0.str)
        && tokens[1] is Text && tokens[1]->Text_0.quoted {
        Some(tokens[1]->Text_0.str)
    } else if value_text(tokens).len() > 0 && value_text(tokens)[0] == '.' {
        None
    } else {
        Some(value_text(tokens))
    }
}

/// The pattern that the tokens of a query stand for. Without a colon the tokens are
/// the path and, unless they are anchored or begin with a dot or a bracket, also the
/// value, either of which may match. With one colon the path stands before it and the
/// value behind it, and both must match. More colons are an error.
pub open spec fn pattern_of_tokens(raw: Seq<TokenView>) -> Result<PatternView, Seq<char>> {
    let tokens = widen_last(widen_first(raw));
    let colons = positions_of(tokens, TokenView::Colon);
    if colons.len() == 0 {
        match path_of(tokens, tokens.len() as int) {
            Err(message) => Err(message),
            Ok(path) => {
                let value = if path.start_at_root || (tokens.len() > 0 && (tokens[0] is BracketExpr
                    || tokens[0] is Dot)) {
                    None
                } else {
                    value_of(tokens)
                };
                Ok(
                    PatternView {
                        path: path.nodes,
                        value,
                        or: value is Some,
                        start_at_root: path.start_at_root,
                    },
                )
            },
        }
    } else if colons.len() == 1 {
        match path_of(tokens.take(colons[0]), colons[0]) {
            Err(message) => Err(message),
            Ok(path) => Ok(
                PatternView {
                    path: path.nodes,
                    value: value_of(tokens.skip(colons[0] + 1)),
                    or: false,
                    start_at_root: path.start_at_root,
                },
            ),
        }
    } else {
        Err(multiple_colons_message())
    }
}

/// The pattern that a query stands for, or the message for what is wrong with it.
pub open spec fn pattern_of(text: Seq<char>) -> Result<PatternView, Seq<char>> {
    match tokens_of(trim(text)) {
        Err(message) => Err(message),
        Ok(raw) => pattern_of_tokens(raw),
    }
}

/// Once a token is wrong, the message stays that of the first wrong token.
pub proof fn lemma_path_error_stays(tokens: Seq<TokenView>, k: int, n: int)
    requires
        k <= n,
        path_of(tokens, k) is Err,
    ensures
        path_of(tokens, n) == path_of(tokens, k),
    decreases n - k,
{
    if k < n {
        lemma_path_error_stays(tokens, k, n - 1);
    }
}

/// Whether `token` is the mark `comp`.
fn same_mark(token: &Token, comp: &Token) -> (r: bool)
    requires
        comp@ is Dot || comp@ is Colon || comp@ is Dollar,
    ensures
        r == (token@ == comp@),
{
    match (token, comp) {
        (Token::Dot, Token::Dot) => true,
        (Token::Colon, Token::Colon) => true,
        (Token::Dollar, Token::Dollar) => true,
        _ => false,
    }
}

/// Whether `token` is the mark `comp`.
fn same_bracket_mark(token: &BracketToken, comp: &BracketToken) -> (r: bool)
    requires
        comp@ is Colon || comp@ is Comma,
    ensures
        r == (token@ == comp@),
{
    match (token, comp) {
        (BracketToken::Colon, BracketToken::Colon) => true,
        (BracketToken::Comma, BracketToken::Comma) => true,
        _ => false,
    }
}

/// The positions in `tokens` of the mark `comp`: a dot, a colon or the root anchor.
pub fn token_indices(tokens: &[Token], comp: &Token) -> (r: Vec<usize>)
    requires
        comp@ is Dot || comp@ is Colon || comp@ is Dollar,
    ensures
        as_ints(r@) == positions_of(tokens.deep_view(), comp@),
{
    let mut r: Vec<usize> = Vec::new();
    let mut i: usize = 0;
    assert(tokens.deep_view().take(0) =~= Seq::empty());
    assert(as_ints(r@) =~= Seq::empty());
    while i < tokens.len()
        invariant
            i <= tokens.len(),
            comp@ is Dot || comp@ is Colon || comp@ is Dollar,
            as_ints(r@) == positions_of(tokens.deep_view().take(i as int), comp@),
        decreases tokens.len() - i,
    {
        let ghost before = r@;
        proof {
            let next = tokens.deep_view().take(i as int + 1);
            assert(next.drop_last() =~= tokens.deep_view().take(i as int));
            assert(next.last() == tokens@[i as int]@);
        }
        if same_mark(&tokens[i], comp) {
            r.push(i);
            assert(as_ints(r@) =~= as_ints(before).push(i as int));
        }
        i += 1;
    }
    assert(tokens.deep_view().take(tokens.len() as int) =~= tokens.deep_view());
    r
}

/// The positions in `tokens` of the mark `comp`: a colon or a comma.
pub fn bracket_token_indices(tokens: &[BracketToken], comp: &BracketToken) -> (r: Vec<usize>)
    requires
        comp@ is Colon || comp@ is Comma,
    ensures
        as_ints(r@) == positions_of(tokens.deep_view(), comp@),
{
    let mut r: Vec<usize> = Vec::new();
    let mut i: usize = 0;
    assert(tokens.deep_view().take(0) =~= Seq::empty());
    assert(as_ints(r@) =~= Seq::empty());
    while i < tokens.len()
        invariant
            i <= tokens.len(),
            comp@ is Colon || comp@ is Comma,
            as_ints(r@) == positions_of(tokens.deep_view().take(i as int), comp@),
        decreases tokens.len() - i,
    {
        let ghost before = r@;
        proof {
            let next = tokens.deep_view().take(i as int + 1);
            assert(next.drop_last() =~= tokens.deep_view().take(i as int));
            assert(next.last() == tokens@[i as int]@);
        }
        if same_bracket_mark(&tokens[i], comp) {
            r.push(i);
            assert(as_ints(r@) =~= as_ints(before).push(i as int));
        }
        i += 1;
    }
    assert(tokens.deep_view().take(tokens.len() as int) =~= tokens.deep_view());
    r
}

/// Whether `token` is a bare `*`.
fn star_token(token: &BracketToken) -> (r: bool)
    ensures
        r == is_star(token@),
{
    match token {
        BracketToken::Text(text) => {
            if text.quoted {
                false
            } else {
                let chars = str_to_chars(text.str.as_str());
                let r = chars.len() == 1 && chars[0] == '*';
                assert(r == (text.str@ =~= seq!['*']));
                r
            }
        },
        _ => false,
    }
}

/// The integer of `tokens`, where `tokens` is one integer.
fn single_int(tokens: &[BracketToken]) -> (r: Option<i32>)
    ensures
        match r {
            Some(n) => tokens.len() == 1 && tokens@[0]@ == BracketTokenView::Int(n),
            None => !(tokens.len() == 1 && tokens@[0]@ is Int),
        },
{
    if tokens.len() == 1 {
        match &tokens[0] {
            BracketToken::Int(n) => Some(*n),
            _ => None,
        }
    } else {
        None
    }
}

/// The selector that `left : right` stands for.
fn parse_range(left: &[BracketToken], right: &[BracketToken]) -> (r: Result<
    PatternNode,
    ParsingError,
>)
    ensures
        match range_node(left.deep_view(), right.deep_view()) {
            Ok(node) => r is Ok && r->Ok_0@ == node,
            Err(message) => r is Err && r->Err_0@ == message,
        },
{
    assert(left.len() > 0 ==> left.deep_view()[0] == left@[0]@);
    assert(right.len() > 0 ==> right.deep_view()[0] == right@[0]@);
    let l = single_int(left);
    let r = single_int(right);
    if left.len() == 0 && right.len() == 0 {
        Ok(PatternNode::Index(IndexPattern::All))
    } else {
        match (l, r) {
            (Some(l), Some(r)) => {
                if l < 0 {
                    Err(ParsingError::int_negative(l))
                } else if r < 0 {
                    Err(ParsingError::int_negative(r))
                } else {
                    Ok(PatternNode::Index(IndexPattern::Range(l as usize, Some(r as usize))))
                }
            },
            (Some(l), None) => {
                if right.len() != 0 {
                    Err(ParsingError::malformed_range())
                } else if l < 0 {
                    Ok(PatternNode::Index(IndexPattern::LastN((-(l as i64)) as usize)))
                } else {
                    Ok(PatternNode::Index(IndexPattern::Range(l as usize, None)))
                }
            },
            (None, Some(r)) => {
                if left.len() != 0 {
                    Err(ParsingError::malformed_range())
                } else if r < 0 {
                    Err(ParsingError::int_negative(r))
                } else {
                    Ok(PatternNode::Index(IndexPattern::Range(0, Some(r as usize))))
                }
            },
            (None, None) => Err(ParsingError::malformed_range()),
        }
    }
}

/// The list that `tokens` stand for.
fn parse_list(tokens: &[BracketToken]) -> (r: Result<PatternNode, ParsingError>)
    ensures
        is_index_list(tokens.deep_view()) ==> r is Ok && r->Ok_0@ == PatternNodeView::Index(
            IndexPatternView::List(index_list_items(tokens.deep_view())),
        ),
        !is_index_list(tokens.deep_view()) ==> r is Err && r->Err_0@ == malformed_list_message(),
{
    let mut expect_comma = false;
    let mut indexes: Vec<usize> = Vec::new();
    let mut k: usize = 0;
    let ghost views = tokens.deep_view();
    while k < tokens.len()
        invariant
            k <= tokens.len(),
            views == tokens.deep_view(),
            expect_comma == (k % 2 == 1),
            is_index_list(views.take(k as int)),
            indexes@ =~= index_list_items(views.take(k as int)),
        decreases tokens.len() - k,
    {
        assert(views[k as int] == tokens@[k as int]@);
        let ghost before = indexes@;
        let ok = match &tokens[k] {
            BracketToken::Comma => expect_comma,
            BracketToken::Int(i) => {
                if !expect_comma && *i >= 0 {
                    indexes.push(*i as usize);
                    true
                } else {
                    false
                }
            },
            _ => false,
        };
        if !ok {
            assert(!is_index_list(views)) by {
                // the token at `k` is not what a list has at that place
                let token = views[k as int];
                assert(!(if k % 2 == 0 {
                    token matches BracketTokenView::Int(n) && n >= 0
                } else {
                    token is Comma
                }));
            }
            return Err(ParsingError::malformed_list());
        }
        proof {
            let next = views.take(k as int + 1);
            assert forall|j: int| 0 <= j < next.len() implies if j % 2 == 0 {
                #[trigger] next[j] matches BracketTokenView::Int(n) && n >= 0
            } else {
                next[j] is Comma
            } by {
                if j < k {
                    assert(views.take(k as int)[j] == next[j]);
                }
            }
            assert(indexes@ =~= index_list_items(next)) by {
                let items = index_list_items(next);
                assert(indexes@.len() == items.len());
                assert forall|m: int| 0 <= m < items.len() implies indexes@[m] == items[m] by {
                    if m < before.len() {
                        assert(before[m] == index_list_items(views.take(k as int))[m]);
                        assert(views.take(k as int)[2 * m] == next[2 * m]);
                    }
                }
            }
        }
        expect_comma = !expect_comma;
        k += 1;
    }
    assert(views.take(tokens.len() as int) =~= views);
    Ok(PatternNode::Index(IndexPattern::List(indexes)))
}

/// The path node that the tokens between `[` and `]` stand for.
pub fn parse_brackets(tokens: &[BracketToken]) -> (r: Result<PatternNode, ParsingError>)
    ensures
        match bracket_node(tokens.deep_view()) {
            Ok(node) => r is Ok && r->Ok_0@ == node,
            Err(message) => r is Err && r->Err_0@ == message,
        },
{
    let colon_indices = bracket_token_indices(tokens, &BracketToken::Colon);
    let comma_indices = bracket_token_indices(tokens, &BracketToken::Comma);
    let ghost views = tokens.deep_view();
    proof {
        lemma_positions_of(views, BracketTokenView::Colon);
        assert(as_ints(colon_indices@).len() == colon_indices@.len());
        assert(as_ints(comma_indices@).len() == comma_indices@.len());
        if tokens.len() > 0 {
            assert(views[0] == tokens@[0]@);
        }
    }
    // [] or [*]
    if tokens.len() == 0 || (tokens.len() == 1 && star_token(&tokens[0])) {
        return Ok(PatternNode::Index(IndexPattern::All));
    }
    // [n]
    if let Some(n) = single_int(tokens) {
        if n >= 0 {
            let indices = vec![n as usize];
            assert(indices@ =~= seq![n as usize]);
            return Ok(PatternNode::Index(IndexPattern::List(indices)));
        } else {
            return Err(ParsingError::int_negative(n));
        }
    }
    // ["field"]
    if tokens.len() == 1 {
        if let BracketToken::Text(text) = &tokens[0] {
            if text.quoted {
                return Ok(PatternNode::Key(text.str.clone()));
            }
        }
    }
    // Range and last N
    if colon_indices.len() == 1 {
        let i = colon_indices[0];
        assert(as_ints(colon_indices@)[0] == i as int);
        let left = slice_subrange(tokens, 0, i);
        let right = slice_subrange(tokens, i + 1, tokens.len());
        assert(left.deep_view() =~= views.take(i as int));
        assert(right.deep_view() =~= views.skip(i as int + 1));
        return parse_range(left, right);
    }
    if colon_indices.len() > 1 {
        return Err(ParsingError::malformed_range());
    }
    // List
    if comma_indices.len() > 0 {
        return parse_list(tokens);
    }
    Err(ParsingError::malformed_range())
}

/// The path that `tokens` stand for, and whether it is anchored at the root.
pub fn parse_path(tokens: &[Token]) -> (r: Result<(Vec<PatternNode>, bool), ParsingError>)
    requires
        forall|i: int| 0 <= i < tokens.len() ==> !(tokens@[i]@ is Colon),
    ensures
        match path_of(tokens.deep_view(), tokens.len() as int) {
            Ok(path) => r is Ok && r->Ok_0.0.deep_view() == path.nodes && r->Ok_0.1
                == path.start_at_root,
            Err(message) => r is Err && r->Err_0@ == message,
        },
{
    let mut start_at_root = false;
    let mut pattern_vec: Vec<PatternNode> = Vec::new();
    let ghost views = tokens.deep_view();
    let mut i: usize = 0;
    assert(pattern_vec.deep_view() =~= Seq::empty());
    while i < tokens.len()
        invariant
            i <= tokens.len(),
            views == tokens.deep_view(),
            path_of(views, i as int) == Ok::<PathView, Seq<char>>(
                PathView { nodes: pattern_vec.deep_view(), start_at_root },
            ),
        decreases tokens.len() - i,
    {
        let ghost before = pattern_vec.deep_view();
        proof {
            assert(views[i as int] == tokens@[i as int]@);
            if i >= 1 {
                assert(views[i - 1] == tokens@[i - 1]@);
            }
            if i >= 2 {
                assert(views[i - 2] == tokens@[i - 2]@);
            }
        }
        let node: Result<Option<PatternNode>, ParsingError> = match &tokens[i] {
            Token::Text(text_content) => Ok(Some(PatternNode::Key(text_content.str.clone()))),
            Token::BracketExpr(bracket_tokens) => {
                match parse_brackets(bracket_tokens.as_slice()) {
                    Ok(node) => Ok(Some(node)),
                    Err(e) => Err(e),
                }
            },
            Token::Dollar => {
                if i != 0 {
                    Err(ParsingError::unexpected_dollar())
                } else {
                    start_at_root = true;
                    Ok(None)
                }
            },
            Token::Dot => {
                let after_dot = i >= 1 && matches!(&tokens[i - 1], Token::Dot);
                let after_two = i >= 2 && matches!(&tokens[i - 2], Token::Dot);
                if after_dot && after_two {
                    Err(ParsingError::too_many_dots())
                } else if after_dot {
                    Ok(Some(PatternNode::Recursive()))
                } else {
                    Ok(None)
                }
            },
            Token::Colon => Ok(None),
        };
        match node {
            Err(e) => {
                proof {
                    assert(path_of(views, i as int + 1) is Err);
                    lemma_path_error_stays(views, i as int + 1, tokens.len() as int);
                }
                return Err(e);
            },
            Ok(Some(node)) => {
                pattern_vec.push(node);
                assert(pattern_vec.deep_view() =~= before.push(node@));
            },
            Ok(None) => {},
        }
        i += 1;
    }
    Ok((pattern_vec, start_at_root))
}

/// Whether `s` is made of spaces only.
fn only_spaces(s: &str) -> (r: bool)
    ensures
        r == all_spaces(s@),
{
    let chars = str_to_chars(s);
    let mut i: usize = 0;
    while i < chars.len()
        invariant
            i <= chars.len(),
            chars@ == s@,
            forall|k: int| 0 <= k < i ==> chars@[k] == ' ',
        decreases chars.len() - i,
    {
        if chars[i] != ' ' {
            return false;
        }
        i += 1;
    }
    true
}

/// The value predicate that `tokens` stand for.
pub fn parse_value(tokens: &[Token]) -> (r: Result<Option<String>, ParsingError>)
    ensures
        r is Ok,
        r->Ok_0.deep_view() == value_of(tokens.deep_view()),
{
    let ghost views = tokens.deep_view();
    if tokens.len() == 0 {
        return Ok(None);
    }
    assert(views[0] == tokens@[0]@);
    // Any amount of spaces, then a quoted string
    if tokens.len() == 2 {
        assert(views[1] == tokens@[1]@);
        if let (Token::Text(spaces), Token::Text(text)) = (&tokens[0], &tokens[1]) {
            if !spaces.quoted && text.quoted && only_spaces(spaces.str.as_str()) {
                return Ok(Some(text.str.clone()));
            }
        }
    }
    // Other
    let mut result: Vec<char> = Vec::new();
    let mut i: usize = 0;
    if let Token::Text(text) = &tokens[0] {
        if !text.quoted {
            let first = str_to_chars(text.str.as_str());
            result = trimmed(first.as_slice());
            i = 1;
        }
    }
    let ghost start = i as int;
    let ghost front = result@;
    assert(views.subrange(start, start) =~= Seq::empty());
    while i < tokens.len()
        invariant
            0 <= start <= i <= tokens.len(),
            views == tokens.deep_view(),
            result@ == front + tokens_source(views.subrange(start, i as int)),
        decreases tokens.len() - i,
    {
        let source = tokens[i].get_original_string();
        push_str(&mut result, source.as_str());
        proof {
            let next = views.subrange(start, i as int + 1);
            assert(next.drop_last() =~= views.subrange(start, i as int));
            assert(next.last() == tokens@[i as int]@);
            assert(result@ =~= front + tokens_source(next));
        }
        i += 1;
    }
    proof {
        if start == 1 {
            assert(views.subrange(1, tokens.len() as int) =~= views.skip(1));
        } else {
            assert(views.subrange(0, tokens.len() as int) =~= views);
            assert(front + tokens_source(views) =~= tokens_source(views));
        }
        assert(result@ == value_text(views));
    }
    if result.len() > 0 && result[0] == '.' {
        Ok(None)
    } else {
        Ok(Some(chars_to_string(result.as_slice())))
    }
}

/// `text` with a `*` in front.
fn star_before(text: &str) -> (r: String)
    ensures
        r@ == seq!['*'] + text@,
{
    let mut chars: Vec<char> = Vec::new();
    chars.push('*');
    push_str(&mut chars, text);
    chars_to_string(chars.as_slice())
}

/// `text` with a `*` behind.
fn star_after(text: &str) -> (r: String)
    ensures
        r@ == text@.push('*'),
{
    let mut chars = str_to_chars(text);
    chars.push('*');
    chars_to_string(chars.as_slice())
}

/// Puts a `*` in front of an unquoted first text and behind an unquoted last one, so
/// that a bare word matches wherever it occurs.
fn add_wildcards(tokens: &mut Vec<Token>)
    ensures
        final(tokens).deep_view() == widen_last(widen_first(old(tokens).deep_view())),
{
    let ghost raw = tokens.deep_view();
    if tokens.len() == 0 {
        return ;
    }
    assert(raw[0] == tokens@[0]@);
    let first = match &tokens[0] {
        Token::Text(tc) => {
            if !tc.quoted {
                Some(Token::Text(TextContent { str: star_before(tc.str.as_str()), quoted: false }))
            } else {
                None
            }
        },
        _ => None,
    };
    if let Some(token) = first {
        tokens.set(0, token);
    }
    let ghost widened = tokens.deep_view();
    assert(widened =~= widen_first(raw));
    let last_i = tokens.len() - 1;
    assert(widened[last_i as int] == tokens@[last_i as int]@);
    let last = match &tokens[last_i] {
        Token::Text(tc) => {
            if !tc.quoted {
                Some(Token::Text(TextContent { str: star_after(tc.str.as_str()), quoted: false }))
            } else {
                None
            }
        },
        _ => None,
    };
    if let Some(token) = last {
        tokens.set(last_i, token);
    }
    assert(tokens.deep_view() =~= widen_last(widened));
}

/// The pattern that `tokens`, the tokens of a query, stand for.
pub fn parse_tokens(tokens: Vec<Token>) -> (r: Result<Pattern, ParsingError>)
    ensures
        match pattern_of_tokens(tokens.deep_view()) {
            Ok(pattern) => r is Ok && r->Ok_0@ == pattern,
            Err(message) => r is Err && r->Err_0@ == message,
        },
{
    let mut tokens = tokens;
    add_wildcards(&mut tokens);
    let ghost views = tokens.deep_view();
    let colon_indices = token_indices(tokens.as_slice(), &Token::Colon);
    proof {
        lemma_positions_of(views, TokenView::Colon);
        assert(as_ints(colon_indices@).len() == colon_indices@.len());
    }
    if colon_indices.len() == 0 {
        assert forall|i: int| 0 <= i < tokens.len() implies !(tokens@[i]@ is Colon) by {
            if tokens@[i]@ is Colon {
                assert(views[i] == TokenView::Colon);
                assert(positions_of(views, TokenView::Colon).contains(i));
            }
        }
        let (path, start_at_root) = match parse_path(tokens.as_slice()) {
            Ok(parsed) => parsed,
            Err(e) => {
                return Err(e);
            },
        };
        assert(tokens.len() > 0 ==> views[0] == tokens@[0]@);
        let path_only = start_at_root || (tokens.len() > 0 && matches!(
            &tokens[0],
            Token::BracketExpr(_) | Token::Dot
        ));
        let value = if path_only {
            None
        } else {
            match parse_value(tokens.as_slice()) {
                Ok(value) => value,
                Err(e) => {
                    return Err(e);
                },
            }
        };
        let or = value.is_some();
        Ok(Pattern { path, value, or, start_at_root })
    } else if colon_indices.len() == 1 {
        let i = colon_indices[0];
        assert(as_ints(colon_indices@)[0] == i as int);
        let left = slice_subrange(tokens.as_slice(), 0, i);
        let right = slice_subrange(tokens.as_slice(), i + 1, tokens.len());
        assert(left.deep_view() =~= views.take(i as int));
        assert(right.deep_view() =~= views.skip(i as int + 1));
        assert forall|k: int| 0 <= k < left.len() implies !(left@[k]@ is Colon) by {
            if left@[k]@ is Colon {
                assert(views[k] == TokenView::Colon);
                assert(positions_of(views, TokenView::Colon).contains(k));
            }
        }
        let (path, start_at_root) = match parse_path(left) {
            Ok(parsed) => parsed,
            Err(e) => {
                return Err(e);
            },
        };
        let value = match parse_value(right) {
            Ok(value) => value,
            Err(e) => {
                return Err(e);
            },
        };
        Ok(Pattern { path, value, or: false, start_at_root })
    } else {
        Err(ParsingError::multiple_colons())
    }
}

/// Whether no recursive descent follows another directly.
pub open spec fn no_double_descent(path: Seq<PatternNodeView>) -> bool {
    forall|k: int|
        0 <= k < path.len() - 1 ==> !((#[trigger] path[k]) is Recursive && path[k + 1] is Recursive)
}

/// In a path read from tokens without a colon, no recursive descent follows another
/// directly; and where the path ends in one, the tokens end in two dots.
pub proof fn lemma_path_has_no_double_descent(tokens: Seq<TokenView>, n: int)
    requires
        0 <= n <= tokens.len(),
        forall|i: int| 0 <= i < n ==> !(#[trigger] tokens[i] is Colon),
        path_of(tokens, n) is Ok,
    ensures
        no_double_descent(path_of(tokens, n)->Ok_0.nodes),
        path_of(tokens, n)->Ok_0.nodes.len() > 0 && path_of(tokens, n)->Ok_0.nodes.last()
            is Recursive ==> n >= 2 && tokens[n - 1] is Dot && tokens[n - 2] is Dot,
    decreases n,
{
    if n > 0 {
        lemma_path_has_no_double_descent(tokens, n - 1);
        let before = path_of(tokens, n - 1)->Ok_0.nodes;
        let after = path_of(tokens, n)->Ok_0.nodes;
        assert(!(tokens[n - 1] is Colon));
        if after.len() == before.len() + 1 {
            assert(after.drop_last() =~= before);
            assert forall|k: int| 0 <= k < after.len() - 1 implies !((#[trigger] after[k])
                is Recursive && after[k + 1] is Recursive) by {
                if k < before.len() - 1 {
                    assert(after[k] == before[k] && after[k + 1] == before[k + 1]);
                } else {
                    assert(after[k] == before.last());
                }
            }
        }
    }
}

/// No pattern read from a query has a recursive descent that follows another
/// directly.
pub proof fn lemma_pattern_has_no_double_descent(text: Seq<char>)
    requires
        pattern_of(text) is Ok,
    ensures
        no_double_descent(pattern_of(text)->Ok_0.path),
{
    let raw = tokens_of(trim(text))->Ok_0;
    let tokens = widen_last(widen_first(raw));
    let colons = positions_of(tokens, TokenView::Colon);
    lemma_positions_of(tokens, TokenView::Colon);
    if colons.len() == 0 {
        assert forall|i: int| 0 <= i < tokens.len() implies !(#[trigger] tokens[i] is Colon) by {
            if tokens[i] is Colon {
                assert(tokens[i] == TokenView::Colon);
                assert(colons.contains(i));
            }
        }
        lemma_path_has_no_double_descent(tokens, tokens.len() as int);
    } else if colons.len() == 1 {
        let c = colons[0];
        let left = tokens.take(c);
        assert forall|i: int| 0 <= i < c implies !(#[trigger] left[i] is Colon) by {
            if left[i] is Colon {
                assert(tokens[i] == TokenView::Colon);
                assert(colons.contains(i));
                let k = choose|k: int| 0 <= k < colons.len() && colons[k] == i;
                assert(k == 0);
            }
        }
        lemma_path_has_no_double_descent(left, c);
    }
}

/// What the result of parsing denotes: a pattern, or the message of an error.
pub open spec fn parsed(r: Result<Pattern, ParsingError>) -> Result<PatternView, Seq<char>> {
    match r {
        Ok(pattern) => Ok(pattern@),
        Err(e) => Err(e@),
    }
}

/// Idempotent parse. Two results of parsing one text denote the same: the same
/// pattern, or the same error.
pub proof fn lemma_parse_idempotent(
    text: Seq<char>,
    first: Result<Pattern, ParsingError>,
    second: Result<Pattern, ParsingError>,
)
    requires
        parsed(first) == pattern_of(text),
        parsed(second) == pattern_of(text),
    ensures
        parsed(first) == parsed(second),
{
}

/// Parses a query. Whitespace around it is dropped.
pub fn parse(pattern_str: &str) -> (r: Result<Pattern, ParsingError>)
    ensures
        parsed(r) == pattern_of(pattern_str@),
        r is Ok ==> no_double_descent(r->Ok_0@.path),
{
    proof {
        if pattern_of(pattern_str@) is Ok {
            lemma_pattern_has_no_double_descent(pattern_str@);
        }
    }
    let chars = str_to_chars(pattern_str);
    let query = trimmed(chars.as_slice());
    match tokenize_chars(&query) {
        Ok(tokens) => parse_tokens(tokens),
        Err(e) => Err(e),
    }
}

} // verus!
