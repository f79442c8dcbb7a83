//! A list of declarations, as found inside a rule's block: declarations
//! separated by `;`, where blanks and stray `;` are allowed between them and a
//! `;` after the last one is optional.
use vstd::prelude::*;
use crate::css_declaration::{
    CSSDeclaration,
    DeclarationModel,
    declaration_text,
    is_valid_declaration,
    lemma_declaration_text_parses,
    lemma_parsed_declaration_valid,
    parse_declaration,
};
use crate::helpers::{
    CharClass,
    all_in_class,
    chars_of,
    is_ident_start,
    join,
    lemma_join_front,
    lemma_span,
    lemma_span_concat,
    scan,
    skip_class,
    text_of,
};

verus! {

#[derive(Debug, Clone, PartialEq)]
pub struct CSSDeclarationList {
    pub declarations: Vec<CSSDeclaration>,
}

impl View for CSSDeclarationList {
    type V = Seq<DeclarationModel>;

    open spec fn view(&self) -> Seq<DeclarationModel> {
        self.declarations@.map_values(|d: CSSDeclaration| d@)
    }
}

/// The declarations at the start of `s`, and the text after them.
///
/// Blanks and `;` are skipped before each declaration. The list ends where no
/// declaration follows; the text from there on, separators included, is what
/// remains. This never fails: without any declaration the list is empty and
/// `s` remains whole.
pub open spec fn parse_list(s: Seq<char>) -> (Seq<DeclarationModel>, Seq<char>)
    decreases s.len(),
    via parse_list_decreases
{
    match parse_declaration(skip_class(s, CharClass::Separator)) {
        Some((d, rest)) => {
            let (ds, r) = parse_list(rest);
            (seq![d] + ds, r)
        },
        None => (Seq::empty(), s),
    }
}

#[via_fn]
proof fn parse_list_decreases(s: Seq<char>) {
    lemma_span(s, CharClass::Separator);
    lemma_parsed_declaration_valid(skip_class(s, CharClass::Separator));
}

/// The canonical text of a list: the declarations' texts, one space apart.
pub open spec fn list_text(ds: Seq<DeclarationModel>) -> Seq<char> {
    join(ds.map_values(|d: DeclarationModel| declaration_text(d)))
}

/// Every declaration of `ds` is valid.
pub open spec fn all_valid(ds: Seq<DeclarationModel>) -> bool {
    forall|i: int| 0 <= i < ds.len() ==> is_valid_declaration(#[trigger] ds[i])
}

/// The declarations that parsing gives are valid.
pub proof fn lemma_parsed_list_valid(s: Seq<char>)
    ensures
        all_valid(parse_list(s).0),
    decreases s.len(),
{
    let t = skip_class(s, CharClass::Separator);
    lemma_span(s, CharClass::Separator);
    lemma_parsed_declaration_valid(t);
    if let Some((d, rest)) = parse_declaration(t) {
        lemma_parsed_list_valid(rest);
        let ds = parse_list(s).0;
        assert forall|i: int| 0 <= i < ds.len() implies is_valid_declaration(#[trigger] ds[i]) by {
            if i > 0 {
                assert(ds[i] == parse_list(rest).0[i - 1]);
            }
        }
    }
}

/// The canonical text of a non-empty list starts with the first name.
pub proof fn lemma_list_text_first(ds: Seq<DeclarationModel>)
    requires
        ds.len() > 0,
        ds[0].name.len() > 0,
    ensures
        list_text(ds).len() > 0,
        list_text(ds)[0] == ds[0].name[0],
{
    let texts = ds.map_values(|d: DeclarationModel| declaration_text(d));
    if ds.len() >= 2 {
        lemma_join_front(texts);
    }
    assert(texts[0] == declaration_text(ds[0]));
}

/// Separators before a text that starts with a declaration do not change
/// what the list parser finds there.
pub proof fn lemma_list_after_separators(p: Seq<char>, x: Seq<char>)
    requires
        all_in_class(p, CharClass::Separator),
        x.len() > 0,
        is_ident_start(x[0]),
        parse_list(x).0.len() > 0,
    ensures
        parse_list(p + x) == parse_list(x),
{
    let empty = Seq::<char>::empty();
    lemma_span_concat(p, x, CharClass::Separator);
    assert(empty + x =~= x);
    lemma_span_concat(empty, x, CharClass::Separator);
}

/// The canonical text of valid declarations parses back to them, where the
/// text after it does not continue the list.
pub proof fn lemma_list_text_parses(ds: Seq<DeclarationModel>, rest: Seq<char>)
    requires
        all_valid(ds),
        parse_declaration(skip_class(rest, CharClass::Separator)) is None,
    ensures
        parse_list(list_text(ds) + rest) == (ds, rest),
    decreases ds.len(),
{
    let texts = ds.map_values(|d: DeclarationModel| declaration_text(d));
    let empty = Seq::<char>::empty();
    if ds.len() == 0 {
        assert(list_text(ds) + rest =~= rest);
    } else {
        let d = ds[0];
        assert(is_valid_declaration(d));
        let tail = ds.drop_first();
        assert(all_valid(tail)) by {
            assert forall|i: int| 0 <= i < tail.len() implies is_valid_declaration(
                #[trigger] tail[i],
            ) by {
                assert(tail[i] == ds[i + 1]);
            }
        }
        let after = if ds.len() == 1 {
            rest
        } else {
            seq![' '] + list_text(tail) + rest
        };
        if ds.len() == 1 {
            assert(list_text(ds) == declaration_text(d));
        } else {
            lemma_join_front(texts);
            assert(texts.drop_first() =~= tail.map_values(
                |d: DeclarationModel| declaration_text(d),
            ));
        }
        let s = list_text(ds) + rest;
        assert(s =~= declaration_text(d) + after);
        assert(s[0] == d.name[0]);
        assert(empty + s =~= s);
        lemma_span_concat(empty, s, CharClass::Separator);
        lemma_declaration_text_parses(d, after);
        assert(parse_declaration(skip_class(s, CharClass::Separator)) == Some((d, after)));
        if ds.len() == 1 {
            assert(parse_list(rest) == (Seq::<DeclarationModel>::empty(), rest));
            assert(seq![d] + Seq::<DeclarationModel>::empty() =~= ds);
        }
        if ds.len() > 1 {
            lemma_list_text_parses(tail, rest);
            let x = list_text(tail) + rest;
            lemma_join_front(texts);
            assert(tail.len() >= 1);
            if tail.len() >= 2 {
                lemma_join_front(tail.map_values(|d: DeclarationModel| declaration_text(d)));
            }
            assert(x[0] == tail[0].name[0]);
            assert(after =~= seq![' '] + x);
            assert(all_in_class(seq![' '], CharClass::Separator));
            lemma_list_after_separators(seq![' '], x);
            assert(parse_list(after) == (tail, rest));
            assert(seq![d] + tail =~= ds);
        }
    }
}

/// `ds` without the declarations named `name`, the others kept in order.
pub open spec fn without_name(ds: Seq<DeclarationModel>, name: Seq<char>) -> Seq<
    DeclarationModel,
> {
    ds.filter(|d: DeclarationModel| d.name != name)
}

/// Empty text parses to an empty list, with nothing left over.
pub proof fn law_list_parse_empty()
    ensures
        parse_list(Seq::<char>::empty()) == (Seq::<DeclarationModel>::empty(), Seq::<
            char,
        >::empty()),
{
    assert(skip_class(Seq::<char>::empty(), CharClass::Separator) =~= Seq::<char>::empty());
}

/// Idempotence: parsing the canonical text of what a parse of `x` found gives
/// the same declarations, with nothing left over.
pub proof fn law_list_idempotent(x: Seq<char>)
    ensures
        parse_list(list_text(parse_list(x).0)) == (parse_list(x).0, Seq::<char>::empty()),
{
    let empty = Seq::<char>::empty();
    lemma_parsed_list_valid(x);
    assert(skip_class(empty, CharClass::Separator) =~= empty);
    lemma_list_text_parses(parse_list(x).0, empty);
    assert(list_text(parse_list(x).0) + empty =~= list_text(parse_list(x).0));
}

/// Removing a name that no declaration has leaves the list as it is.
pub proof fn law_remove_absent_name(ds: Seq<DeclarationModel>, name: Seq<char>)
    requires
        forall|i: int| 0 <= i < ds.len() ==> (#[trigger] ds[i]).name != name,
    ensures
        without_name(ds, name) == ds,
    decreases ds.len(),
{
    reveal(Seq::filter);
    if ds.len() > 0 {
        let init = ds.drop_last();
        assert forall|i: int| 0 <= i < init.len() implies (#[trigger] init[i]).name != name by {
            assert(init[i] == ds[i]);
        }
        law_remove_absent_name(init, name);
        assert(init.push(ds.last()) =~= ds);
    }
}

/// From a list of two declarations of which exactly one is named `name`,
/// removing `name` leaves the other one alone.
pub proof fn law_remove_one_of_two(ds: Seq<DeclarationModel>, name: Seq<char>)
    requires
        ds.len() == 2,
        (ds[0].name == name) != (ds[1].name == name),
    ensures
        without_name(ds, name) == seq![
            if ds[0].name == name {
                ds[1]
            } else {
                ds[0]
            },
        ],
{
    reveal_with_fuel(Seq::filter, 3);
    let pred = |d: DeclarationModel| d.name != name;
    assert(ds.drop_last().drop_last() =~= Seq::<DeclarationModel>::empty());
    assert(ds.drop_last() =~= seq![ds[0]]);
    if ds[0].name == name {
        assert(ds.drop_last().filter(pred) =~= Seq::<DeclarationModel>::empty());
    } else {
        assert(ds.drop_last().filter(pred) =~= seq![ds[0]]);
    }
    assert(without_name(ds, name) =~= seq![
        if ds[0].name == name {
            ds[1]
        } else {
            ds[0]
        },
    ]);
}

impl CSSDeclarationList {
    /// The declarations at the start of `v[start..]` and where they end.
    pub(crate) fn parse_at(v: &Vec<char>, start: usize) -> (r: (CSSDeclarationList, usize))
        requires
            start <= v.len(),
        ensures
            r.0@ == parse_list(v@.skip(start as int)).0,
            r.1 <= v.len(),
            v@.skip(r.1 as int) == parse_list(v@.skip(start as int)).1,
    {
        let n = v.len();
        let mut declarations: Vec<CSSDeclaration> = Vec::new();
        let mut pos = start;
        loop
            invariant
                start <= pos <= n == v.len(),
                parse_list(v@.skip(start as int)) == (declarations@.map_values(
                    |d: CSSDeclaration| d@,
                ) + parse_list(v@.skip(pos as int)).0, parse_list(v@.skip(pos as int)).1),
            ensures
                start <= pos <= n,
                parse_list(v@.skip(start as int)) == (declarations@.map_values(
                    |d: CSSDeclaration| d@,
                ), v@.skip(pos as int)),
            decreases n - pos,
        {
            let p = scan(v, pos, n, CharClass::Separator);
            let ghost here = v@.skip(pos as int);
            assert(v@.skip(p as int) == skip_class(here, CharClass::Separator));
            match CSSDeclaration::parse_at(v, p) {
                Some((decl, end)) => {
                    proof {
                        lemma_parsed_declaration_valid(v@.skip(p as int));
                        let ds = declarations@.map_values(|d: CSSDeclaration| d@);
                        let ds2 = declarations@.push(decl).map_values(|d: CSSDeclaration| d@);
                        assert(ds2 =~= ds + seq![decl@]);
                        let after = parse_list(v@.skip(end as int));
                        assert(ds + (seq![decl@] + after.0) =~= ds2 + after.0);
                    }
                    declarations.push(decl);
                    pos = end;
                },
                None => {
                    assert(parse_list(here) == (Seq::<DeclarationModel>::empty(), here));
                    assert(declarations@.map_values(|d: CSSDeclaration| d@) + Seq::<
                        DeclarationModel,
                    >::empty() =~= declarations@.map_values(|d: CSSDeclaration| d@));
                    break ;
                },
            }
        }
        (CSSDeclarationList { declarations }, pos)
    }

    /// The declarations at the start of `input`, and the text after them.
    /// This never fails: where `input` does not start with a declaration, the
    /// list is empty and all of `input` remains.
    pub fn parse(input: &str) -> (r: (CSSDeclarationList, String))
        ensures
            r.0@ == parse_list(input@).0,
            r.1@ == parse_list(input@).1,
    {
        let v = chars_of(input);
        assert(v@.skip(0) =~= input@);
        let (list, end) = Self::parse_at(&v, 0);
        let remainder = text_of(&v, end, v.len());
        (list, remainder)
    }

    /// The declarations at the start of `css_block`; the text after them is
    /// ignored. This never fails.
    pub fn from_string(css_block: &str) -> (r: Result<CSSDeclarationList, String>)
        ensures
            r matches Ok(list) && list@ == parse_list(css_block@).0,
    {
        let (list, _) = Self::parse(css_block);
        Ok(list)
    }

    /// Removes every declaration named `decl_name`; the others keep their
    /// order.
    pub fn remove_declaration(&mut self, decl_name: &str)
        ensures
            final(self)@ == without_name(old(self)@, decl_name@),
    {
        let target = decl_name.to_owned();
        let ghost pred = |d: DeclarationModel| d.name != decl_name@;
        let ghost orig = self@;
        let mut i: usize = 0;
        let mut j: usize = 0;
        assert(orig.len() == self.declarations.len());
        while i < self.declarations.len()
            invariant
                j <= orig.len() <= usize::MAX,
                self.declarations.len() == i + orig.len() - j,
                i == orig.take(j as int).filter(pred).len(),
                self@ == orig.take(j as int).filter(pred) + orig.skip(j as int),
                pred == (|d: DeclarationModel| d.name != decl_name@),
                target@ == decl_name@,
            decreases self.declarations.len() - i,
        {
            proof {
                assert(orig.take(j + 1) =~= orig.take(j as int).push(orig[j as int]));
                orig.take(j as int).lemma_filter_push(orig[j as int], pred);
                assert(self@[i as int] == orig[j as int]);
            }
            if self.declarations[i].name == target {
                let ghost before = self@;
                self.declarations.remove(i);
                assert(self@ =~= before.remove(i as int));
                assert(self@ =~= orig.take(j + 1).filter(pred) + orig.skip(j + 1));
            } else {
                i = i + 1;
                assert(self@ =~= orig.take(j + 1).filter(pred) + orig.skip(j + 1));
            }
            j = j + 1;
        }
        assert(orig.take(j as int) =~= orig);
        assert(self@ =~= orig.filter(pred));
    }

    /// A copy of the list.
    pub(crate) fn copied(&self) -> (r: CSSDeclarationList)
        ensures
            r@ == self@,
    {
        let mut declarations: Vec<CSSDeclaration> = Vec::new();
        let mut i: usize = 0;
        while i < self.declarations.len()
            invariant
                i <= self.declarations.len(),
                declarations.len() == i,
                forall|k: int| 0 <= k < i ==> #[trigger] declarations@[k]@ == self.declarations@[k]@,
            decreases self.declarations.len() - i,
        {
            declarations.push(self.declarations[i].copied());
            i = i + 1;
        }
        let r = CSSDeclarationList { declarations };
        assert(r@ =~= self@);
        r
    }

    /// An empty list.
    pub fn new() -> (r: CSSDeclarationList)
        ensures
            r@ == Seq::<DeclarationModel>::empty(),
    {
        CSSDeclarationList { declarations: Vec::new() }
    }

    /// The canonical text of the list.
    pub fn to_string(&self) -> (r: String)
        ensures
            r@ == list_text(self@),
    {
        let ghost texts = self@.map_values(|d: DeclarationModel| declaration_text(d));
        let mut out = String::new();
        let mut i: usize = 0;
        while i < self.declarations.len()
            invariant
                i <= self.declarations.len(),
                texts == self@.map_values(|d: DeclarationModel| declaration_text(d)),
                out@ == join(texts.take(i as int)),
            decreases self.declarations.len() - i,
        {
            if i > 0 {
                out.append(" ");
            }
            let text = self.declarations[i].to_string();
            out.append(text.as_str());
            proof {
                reveal_strlit(" ");
                let t = texts.take(i + 1);
                assert(t.drop_last() =~= texts.take(i as int));
                assert(t.last() == text@);
                if i == 0 {
                    assert(texts.take(0).len() == 0);
                    assert(out@ =~= join(t));
                } else {
                    assert(out@ =~= join(t));
                }
            }
            i = i + 1;
        }
        assert(texts.take(i as int) =~= texts);
        out
    }
}

} // verus!
