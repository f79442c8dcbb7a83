//! A rule: a selector and a block of declarations, `selector { ... }`.
//!
//! The selector is the text before the first `{`, trimmed, and is kept as it
//! is: a selector cannot itself hold a `{`.
use vstd::prelude::*;
use crate::css_declaration::{DeclarationModel, lemma_parsed_declaration_valid, parse_declaration};
use crate::css_declaration_list::{
    CSSDeclarationList,
    all_valid,
    lemma_list_after_separators,
    lemma_list_text_first,
    lemma_list_text_parses,
    lemma_parsed_list_valid,
    list_text,
    parse_list,
};
use crate::error::ParseError;
use crate::helpers::{
    CharClass,
    all_in_class,
    chars_of,
    in_class,
    is_trimmed,
    lemma_span,
    lemma_span_concat,
    lemma_trim,
    lemma_trim_padded,
    scan,
    skip_class,
    span,
    text_of,
    trim,
    trim_range,
};

verus! {

/// What a rule means: its selector and its declarations.
#[verifier::ext_equal]
pub struct RuleModel {
    pub selector: Seq<char>,
    pub declarations: Seq<DeclarationModel>,
}

#[derive(Debug, Clone, PartialEq)]
pub struct CSSRule {
    pub selector: String,
    pub declarations: CSSDeclarationList,
}

impl View for CSSRule {
    type V = RuleModel;

    open spec fn view(&self) -> RuleModel {
        RuleModel { selector: self.selector@, declarations: self.declarations@ }
    }
}

/// The rule at the start of `s` and the text after it.
///
/// The selector is the text before the first `{`, trimmed; the block holds a
/// declaration list (see `parse_list`) and blanks, and ends with `}`.
pub open spec fn parse_rule(s: Seq<char>) -> Result<(RuleModel, Seq<char>), ParseError> {
    let k = span(s, CharClass::Selector) as int;
    if k >= s.len() {
        Err(ParseError::UnterminatedSelector)
    } else {
        let selector = trim(s.take(k));
        let (declarations, r) = parse_list(s.skip(k + 1));
        let r2 = skip_class(r, CharClass::Space);
        if r2.len() > 0 && r2[0] == '}' {
            Ok((RuleModel { selector, declarations }, r2.drop_first()))
        } else {
            Err(ParseError::UnterminatedBlock)
        }
    }
}

/// The canonical text of a rule: `selector { declarations }`.
pub open spec fn rule_text(r: RuleModel) -> Seq<char> {
    r.selector + seq![' ', '{', ' '] + list_text(r.declarations) + seq![' ', '}']
}

/// What parsing can produce: a trimmed selector without `{`, and valid
/// declarations.
pub open spec fn is_valid_rule(r: RuleModel) -> bool {
    &&& all_in_class(r.selector, CharClass::Selector)
    &&& is_trimmed(r.selector)
    &&& all_valid(r.declarations)
}

/// A parsed rule is valid, and the text after it is shorter than the text
/// parsed.
pub proof fn lemma_parsed_rule_valid(s: Seq<char>)
    ensures
        parse_rule(s) matches Ok((r, rest)) ==> is_valid_rule(r) && rest.len() < s.len(),
{
    let k = span(s, CharClass::Selector) as int;
    lemma_span(s, CharClass::Selector);
    if k < s.len() {
        let raw = s.take(k);
        lemma_trim(raw);
        let selector = trim(raw);
        let a = span(raw, CharClass::White) as int;
        assert forall|i: int| 0 <= i < selector.len() implies in_class(
            #[trigger] selector[i],
            CharClass::Selector,
        ) by {
            assert(selector[i] == raw[a + i]);
            assert(raw[a + i] == s[a + i]);
        }
        lemma_parsed_list_valid(s.skip(k + 1));
        lemma_list_remainder_shorter(s.skip(k + 1));
        lemma_span(parse_list(s.skip(k + 1)).1, CharClass::Space);
    }
}

/// No declaration starts with `}`.
proof fn lemma_no_declaration_at_close(rest: Seq<char>)
    ensures
        parse_declaration(seq!['}'] + rest) is None,
{
    let s = seq!['}'] + rest;
    assert(Seq::<char>::empty() + s =~= s);
    lemma_span_concat(Seq::<char>::empty(), s, CharClass::Space);
}

/// The canonical text of a valid rule, after any white space, parses back to
/// the rule, whatever text follows.
pub proof fn lemma_rule_text_parses(p: Seq<char>, r: RuleModel, rest: Seq<char>)
    requires
        all_in_class(p, CharClass::White),
        is_valid_rule(r),
    ensures
        parse_rule(p + rule_text(r) + rest) == Ok::<(RuleModel, Seq<char>), ParseError>(
            (r, rest),
        ),
{
    let s = p + rule_text(r) + rest;
    let sel = r.selector;
    let ds = r.declarations;
    let l = list_text(ds);
    let raw = p + sel + seq![' '];
    let block = seq!['{', ' '] + l + seq![' ', '}'] + rest;
    assert(s =~= raw + block);
    assert forall|i: int| 0 <= i < raw.len() implies in_class(
        #[trigger] raw[i],
        CharClass::Selector,
    ) by {
        if i < p.len() {
            assert(raw[i] == p[i]);
            assert(in_class(p[i], CharClass::White));
        } else if i < p.len() + sel.len() {
            assert(raw[i] == sel[i - p.len()]);
        }
    }
    lemma_span_concat(raw, block, CharClass::Selector);
    let k = raw.len() as int;
    assert(s.take(k) =~= raw);
    lemma_trim_padded(p, sel, seq![' ']);
    let close = seq![' ', '}'] + rest;
    let inner = seq![' '] + l + close;
    assert(s.skip(k + 1) =~= inner);
    lemma_no_declaration_at_close(rest);
    assert(close =~= seq![' '] + (seq!['}'] + rest));
    lemma_span_concat(seq![' '], seq!['}'] + rest, CharClass::Separator);
    lemma_span_concat(seq![' '], seq!['}'] + rest, CharClass::Space);
    if ds.len() > 0 {
        let x = l + close;
        lemma_list_text_parses(ds, close);
        lemma_list_text_first(ds);
        assert(x[0] == l[0]);
        assert(inner =~= seq![' '] + x);
        lemma_list_after_separators(seq![' '], x);
    } else {
        assert(l.len() == 0);
        assert(inner =~= seq![' ', ' '] + (seq!['}'] + rest));
        lemma_span_concat(seq![' ', ' '], seq!['}'] + rest, CharClass::Separator);
        lemma_span_concat(seq![' ', ' '], seq!['}'] + rest, CharClass::Space);
        assert(parse_list(inner) == (ds, inner));
    }
    assert((seq!['}'] + rest).drop_first() =~= rest);
}

/// Idempotence: where `x` starts with a rule, parsing the canonical text of
/// that rule gives it again, with nothing left over.
pub proof fn law_rule_idempotent(x: Seq<char>)
    ensures
        parse_rule(x) matches Ok((r, _)) ==> parse_rule(rule_text(r)) == Ok::<
            (RuleModel, Seq<char>),
            ParseError,
        >((r, Seq::<char>::empty())),
{
    lemma_parsed_rule_valid(x);
    if let Ok((r, _)) = parse_rule(x) {
        let empty = Seq::<char>::empty();
        lemma_rule_text_parses(empty, r, empty);
        assert(empty + rule_text(r) + empty =~= rule_text(r));
    }
}

/// The text after a declaration list is no longer than the text parsed.
proof fn lemma_list_remainder_shorter(s: Seq<char>)
    ensures
        parse_list(s).1.len() <= s.len(),
    decreases s.len(),
{
    let t = skip_class(s, CharClass::Separator);
    lemma_span(s, CharClass::Separator);
    lemma_parsed_declaration_valid(t);
    if let Some((d, rest)) = parse_declaration(t) {
        lemma_list_remainder_shorter(rest);
    }
}

impl CSSRule {
    /// The rule at the start of `v[start..]` and where it ends.
    pub(crate) fn parse_at(v: &Vec<char>, start: usize) -> (r: Result<(CSSRule, usize), ParseError>)
        requires
            start <= v.len(),
        ensures
            match parse_rule(v@.skip(start as int)) {
                Err(e) => r == Err::<(CSSRule, usize), ParseError>(e),
                Ok((rule, rest)) => r matches Ok((x, end)) && x@ == rule && end <= v.len()
                    && v@.skip(end as int) == rest,
            },
    {
        let n = v.len();
        let k = scan(v, start, n, CharClass::Selector);
        if k == n {
            return Err(ParseError::UnterminatedSelector);
        }
        proof {
            lemma_span(v@.skip(start as int), CharClass::Selector);
        }
        let (a, b) = trim_range(v, start, k);
        assert(v@.subrange(start as int, k as int) =~= v@.skip(start as int).take(k - start));
        assert(v@.skip(k + 1) =~= v@.skip(start as int).skip(k - start + 1));
        let (declarations, p) = CSSDeclarationList::parse_at(v, k + 1);
        let q = scan(v, p, n, CharClass::Space);
        if q < n && v[q] == '}' {
            assert(v@.skip(q + 1) =~= v@.skip(q as int).drop_first());
            Ok((CSSRule { selector: text_of(v, a, b), declarations }, q + 1))
        } else {
            Err(ParseError::UnterminatedBlock)
        }
    }

    /// The rule at the start of `input`, and the text after it.
    pub fn parse(input: &str) -> (r: Result<(CSSRule, String), ParseError>)
        ensures
            match parse_rule(input@) {
                Err(e) => r == Err::<(CSSRule, String), ParseError>(e),
                Ok((rule, rest)) => r matches Ok((x, remainder)) && x@ == rule && remainder@
                    == rest,
            },
    {
        let v = chars_of(input);
        assert(v@.skip(0) =~= input@);
        match Self::parse_at(&v, 0) {
            Ok((rule, end)) => {
                let remainder = text_of(&v, end, v.len());
                Ok((rule, remainder))
            },
            Err(e) => Err(e),
        }
    }

    /// The rule at the start of `input`; the text after it is ignored.
    pub fn from_string(input: &str) -> (r: Result<CSSRule, String>)
        ensures
            match parse_rule(input@) {
                Err(_) => r matches Err(msg) && msg@ == "Failed to parse CSS rule"@,
                Ok((rule, _)) => r matches Ok(x) && x@ == rule,
            },
    {
        match Self::parse(input) {
            Ok((rule, _)) => Ok(rule),
            Err(_) => Err("Failed to parse CSS rule".to_owned()),
        }
    }

    /// A rule with the given selector and a copy of the given declarations.
    pub fn new(selector: &str, declarations: &CSSDeclarationList) -> (r: CSSRule)
        ensures
            r@ == (RuleModel { selector: selector@, declarations: declarations@ }),
    {
        CSSRule { selector: selector.to_owned(), declarations: declarations.copied() }
    }

    /// The canonical text of the rule.
    pub fn to_string(&self) -> (r: String)
        ensures
            r@ == rule_text(self@),
    {
        let mut out = String::new();
        out.append(self.selector.as_str());
        out.append(" { ");
        let block = self.declarations.to_string();
        out.append(block.as_str());
        out.append(" }");
        proof {
            reveal_strlit(" { ");
            reveal_strlit(" }");
        }
        assert(out@ =~= rule_text(self@));
        out
    }
}

} // verus!
