//! A stylesheet: rules, one after another, until the text ends.
//!
//! Parsing is lenient: it stops at the first point where no rule follows,
//! and the text from there on is not an error. `Stylesheet::parse` hands that
//! text back, so that a caller may reject it.
use vstd::prelude::*;
use crate::css_rule::{
    CSSRule,
    RuleModel,
    is_valid_rule,
    lemma_parsed_rule_valid,
    lemma_rule_text_parses,
    parse_rule,
    rule_text,
};
use crate::helpers::{CharClass, all_in_class, chars_of, join, lemma_join_front, text_of};

verus! {

#[derive(Debug, Clone, PartialEq)]
pub struct Stylesheet {
    pub rules: Vec<CSSRule>,
}

impl View for Stylesheet {
    type V = Seq<RuleModel>;

    open spec fn view(&self) -> Seq<RuleModel> {
        self.rules@.map_values(|r: CSSRule| r@)
    }
}

/// The rules at the start of `s`, one after another, and the text from the
/// first point where no rule follows.
pub open spec fn parse_rules(s: Seq<char>) -> (Seq<RuleModel>, Seq<char>)
    decreases s.len(),
    via parse_rules_decreases
{
    match parse_rule(s) {
        Ok((r, rest)) => {
            let (rs, t) = parse_rules(rest);
            (seq![r] + rs, t)
        },
        Err(_) => (Seq::empty(), s),
    }
}

#[via_fn]
proof fn parse_rules_decreases(s: Seq<char>) {
    lemma_parsed_rule_valid(s);
}

/// The canonical text of a stylesheet: the rules' texts, one space apart.
pub open spec fn stylesheet_text(rs: Seq<RuleModel>) -> Seq<char> {
    join(rs.map_values(|r: RuleModel| rule_text(r)))
}

/// The rules that parsing gives are valid.
pub proof fn lemma_parsed_rules_valid(s: Seq<char>)
    ensures
        forall|i: int|
            0 <= i < parse_rules(s).0.len() ==> is_valid_rule(#[trigger] parse_rules(s).0[i]),
    decreases s.len(),
{
    lemma_parsed_rule_valid(s);
    if let Ok((r, rest)) = parse_rule(s) {
        lemma_parsed_rules_valid(rest);
        let rs = parse_rules(s).0;
        assert forall|i: int| 0 <= i < rs.len() implies is_valid_rule(#[trigger] rs[i]) by {
            if i > 0 {
                assert(rs[i] == parse_rules(rest).0[i - 1]);
            }
        }
    }
}

/// The canonical text of valid rules, after any white space, parses back to
/// them, where no rule starts in the text that follows.
pub proof fn lemma_stylesheet_text_parses(p: Seq<char>, rs: Seq<RuleModel>, rest: Seq<char>)
    requires
        all_in_class(p, CharClass::White),
        rs.len() > 0,
        forall|i: int| 0 <= i < rs.len() ==> is_valid_rule(#[trigger] rs[i]),
        parse_rule(rest) is Err,
    ensures
        parse_rules(p + stylesheet_text(rs) + rest) == (rs, rest),
    decreases rs.len(),
{
    let texts = rs.map_values(|r: RuleModel| rule_text(r));
    let r = rs[0];
    assert(is_valid_rule(r));
    let tail = rs.drop_first();
    if rs.len() == 1 {
        assert(stylesheet_text(rs) == rule_text(r));
        lemma_rule_text_parses(p, r, rest);
        assert(parse_rules(rest) == (Seq::<RuleModel>::empty(), rest));
        assert(seq![r] + Seq::<RuleModel>::empty() =~= rs);
    } else {
        lemma_join_front(texts);
        assert(texts.drop_first() =~= tail.map_values(|r: RuleModel| rule_text(r)));
        let after = seq![' '] + stylesheet_text(tail) + rest;
        assert(p + stylesheet_text(rs) + rest =~= p + rule_text(r) + after);
        lemma_rule_text_parses(p, r, after);
        assert forall|i: int| 0 <= i < tail.len() implies is_valid_rule(#[trigger] tail[i]) by {
            assert(tail[i] == rs[i + 1]);
        }
        assert(all_in_class(seq![' '], CharClass::White));
        lemma_stylesheet_text_parses(seq![' '], tail, rest);
        assert(seq![r] + tail =~= rs);
    }
}

/// Empty text parses to a stylesheet without rules.
pub proof fn law_stylesheet_parse_empty()
    ensures
        parse_rules(Seq::<char>::empty()).0 == Seq::<RuleModel>::empty(),
{
}

/// Idempotence: parsing the canonical text of what a parse of `x` found gives
/// the same rules, with nothing left over.
pub proof fn law_stylesheet_idempotent(x: Seq<char>)
    ensures
        parse_rules(stylesheet_text(parse_rules(x).0)) == (parse_rules(x).0, Seq::<
            char,
        >::empty()),
{
    let empty = Seq::<char>::empty();
    let rs = parse_rules(x).0;
    if rs.len() == 0 {
        assert(stylesheet_text(rs) == empty);
    } else {
        lemma_parsed_rules_valid(x);
        assert(all_in_class(empty, CharClass::White));
        lemma_stylesheet_text_parses(empty, rs, empty);
        assert(empty + stylesheet_text(rs) + empty =~= stylesheet_text(rs));
    }
}

impl Stylesheet {
    /// The rules at the start of `input`, and the text from the first point
    /// where no rule follows (empty where all of `input` was rules).
    pub fn parse(input: &str) -> (r: (Stylesheet, String))
        ensures
            r.0@ == parse_rules(input@).0,
            r.1@ == parse_rules(input@).1,
    {
        let v = chars_of(input);
        let n = v.len();
        let mut rules: Vec<CSSRule> = Vec::new();
        let mut pos: usize = 0;
        assert(v@.skip(0) =~= input@);
        loop
            invariant
                pos <= n == v.len(),
                v@ == input@,
                parse_rules(input@) == (rules@.map_values(|r: CSSRule| r@) + parse_rules(
                    v@.skip(pos as int),
                ).0, parse_rules(v@.skip(pos as int)).1),
            ensures
                pos <= n,
                parse_rules(input@) == (rules@.map_values(|r: CSSRule| r@), v@.skip(pos as int)),
            decreases n - pos,
        {
            let ghost here = v@.skip(pos as int);
            match CSSRule::parse_at(&v, pos) {
                Ok((rule, end)) => {
                    proof {
                        lemma_parsed_rule_valid(here);
                        let rs = rules@.map_values(|r: CSSRule| r@);
                        let rs2 = rules@.push(rule).map_values(|r: CSSRule| r@);
                        assert(rs2 =~= rs + seq![rule@]);
                        let after = parse_rules(v@.skip(end as int));
                        assert(rs + (seq![rule@] + after.0) =~= rs2 + after.0);
                    }
                    rules.push(rule);
                    pos = end;
                },
                Err(_) => {
                    assert(parse_rules(here) == (Seq::<RuleModel>::empty(), here));
                    assert(rules@.map_values(|r: CSSRule| r@) + Seq::<RuleModel>::empty()
                        =~= rules@.map_values(|r: CSSRule| r@));
                    break ;
                },
            }
        }
        let remainder = text_of(&v, pos, n);
        (Stylesheet { rules }, remainder)
    }

    /// The rules of `input`. Text after the last rule that parses is
    /// ignored, so this never fails.
    pub fn from_string(input: &str) -> (r: Result<Stylesheet, String>)
        ensures
            r matches Ok(sheet) && sheet@ == parse_rules(input@).0,
    {
        let (sheet, _) = Self::parse(input);
        Ok(sheet)
    }

    /// A stylesheet with the given rules, or with none.
    pub fn new(rules: Option<Vec<CSSRule>>) -> (r: Stylesheet)
        ensures
            r@ == match rules {
                Some(v) => v@.map_values(|r: CSSRule| r@),
                None => Seq::<RuleModel>::empty(),
            },
    {
        match rules {
            Some(rules) => Stylesheet { rules },
            None => Stylesheet { rules: Vec::new() },
        }
    }

    /// The canonical text of the stylesheet.
    pub fn to_string(&self) -> (r: String)
        ensures
            r@ == stylesheet_text(self@),
    {
        let ghost texts = self@.map_values(|r: RuleModel| rule_text(r));
        let mut out = String::new();
        let mut i: usize = 0;
        while i < self.rules.len()
            invariant
                i <= self.rules.len(),
                texts == self@.map_values(|r: RuleModel| rule_text(r)),
                out@ == join(texts.take(i as int)),
            decreases self.rules.len() - i,
        {
            if i > 0 {
                out.append(" ");
            }
            let text = self.rules[i].to_string();
            out.append(text.as_str());
            proof {
                reveal_strlit(" ");
                let t = texts.take(i + 1);
                assert(t.drop_last() =~= texts.take(i as int));
                assert(t.last() == text@);
                assert(out@ =~= join(t));
            }
            i = i + 1;
        }
        assert(texts.take(i as int) =~= texts);
        out
    }
}

} // verus!
