//! A single declaration: `name: value`, optionally flagged `!important`.
//!
//! The value is the text up to the first `;`, `{`, `}` or `!`, trimmed of
//! white space. A `!` therefore always ends the value: a value that holds a
//! literal `!` is cut there, and unless `important` follows the `!`, the rest
//! of the text is left unparsed.
use vstd::prelude::*;
use crate::error::ParseError;
use crate::helpers::{
    CharClass,
    all_in_class,
    chars_of,
    in_class,
    is_ident_start,
    is_ident_start_char,
    is_trimmed,
    lemma_span,
    lemma_span_concat,
    lemma_trim,
    lemma_trim_padded,
    scan,
    skip_class,
    span,
    text_of,
    trim,
    trim_range,
};

verus! {

/// What a declaration means: its name, its value and its flag.
#[verifier::ext_equal]
pub struct DeclarationModel {
    pub name: Seq<char>,
    pub value: Seq<char>,
    pub important: bool,
}

#[derive(Debug, Clone, PartialEq)]
pub struct CSSDeclaration {
    pub name: String,
    pub value: String,
    pub important: bool,
}

impl View for CSSDeclaration {
    type V = DeclarationModel;

    open spec fn view(&self) -> DeclarationModel {
        DeclarationModel { name: self.name@, value: self.value@, important: self.important }
    }
}

pub open spec fn important_keyword() -> Seq<char> {
    seq!['i', 'm', 'p', 'o', 'r', 't', 'a', 'n', 't']
}

/// The text after an `!important` marker at the start of `s` (blanks allowed
/// before and after the `!`), or `None` where `s` does not start with one.
pub open spec fn after_important(s: Seq<char>) -> Option<Seq<char>> {
    let t = skip_class(s, CharClass::Space);
    if t.len() > 0 && t[0] == '!' {
        let u = skip_class(t.drop_first(), CharClass::Space);
        if u.len() >= 9 && u.take(9) == important_keyword() {
            Some(u.skip(9))
        } else {
            None
        }
    } else {
        None
    }
}

/// `s` without one leading `;`, if it has one.
pub open spec fn skip_semicolon(s: Seq<char>) -> Seq<char> {
    if s.len() > 0 && s[0] == ';' {
        s.drop_first()
    } else {
        s
    }
}

/// The value at the start of `s`: the text up to the first `;`, `{`, `}` or
/// `!`, trimmed; whether an `!important` marker follows it; and the text after
/// those and one `;`, if one follows.
pub open spec fn parse_value(s: Seq<char>) -> (Seq<char>, bool, Seq<char>) {
    let m = span(s, CharClass::Value) as int;
    let value = trim(s.take(m));
    match after_important(s.skip(m)) {
        Some(r) => (value, true, skip_semicolon(r)),
        None => (value, false, skip_semicolon(s.skip(m))),
    }
}

/// The declaration at the start of `s` and the text after it, or `None` where
/// `s` does not start with one.
///
/// Blanks come first, then an identifier, blanks, `:`, blanks, and the value
/// (see `parse_value`), which must not be empty.
pub open spec fn parse_declaration(s: Seq<char>) -> Option<(DeclarationModel, Seq<char>)> {
    let s1 = skip_class(s, CharClass::Space);
    if s1.len() == 0 || !is_ident_start(s1[0]) {
        None
    } else {
        let n = span(s1, CharClass::Ident) as int;
        let s2 = skip_class(s1.skip(n), CharClass::Space);
        if s2.len() == 0 || s2[0] != ':' {
            None
        } else {
            let (value, important, rest) = parse_value(skip_class(s2.drop_first(), CharClass::Space));
            if value.len() == 0 {
                None
            } else {
                Some((DeclarationModel { name: s1.take(n), value, important }, rest))
            }
        }
    }
}

/// How a declaration's text ends: ` !important;` or `;`.
pub open spec fn flag_text(important: bool) -> Seq<char> {
    if important {
        seq![' ', '!'] + important_keyword() + seq![';']
    } else {
        seq![';']
    }
}

/// The canonical text of a declaration: `name: value;` or
/// `name: value !important;`.
pub open spec fn declaration_text(d: DeclarationModel) -> Seq<char> {
    d.name + seq![':', ' '] + d.value + flag_text(d.important)
}

/// `s` is an identifier: a letter, `_`, `-` or non-ASCII character, then
/// any of those or digits.
pub open spec fn is_identifier(s: Seq<char>) -> bool {
    s.len() > 0 && is_ident_start(s[0]) && all_in_class(s, CharClass::Ident)
}

/// What parsing can produce: an identifier for name, and a value that is not
/// empty, holds none of `;`, `{`, `}`, `!` and has no white space at its ends.
pub open spec fn is_valid_declaration(d: DeclarationModel) -> bool {
    &&& is_identifier(d.name)
    &&& d.value.len() > 0
    &&& all_in_class(d.value, CharClass::Value)
    &&& is_trimmed(d.value)
}

/// A parsed declaration is valid, and the text after it is shorter than the
/// text parsed.
pub proof fn lemma_parsed_declaration_valid(s: Seq<char>)
    ensures
        parse_declaration(s) matches Some((d, rest)) ==> is_valid_declaration(d) && rest.len()
            < s.len(),
{
    let s1 = skip_class(s, CharClass::Space);
    lemma_span(s, CharClass::Space);
    if s1.len() > 0 && is_ident_start(s1[0]) {
        let n = span(s1, CharClass::Ident) as int;
        lemma_span(s1, CharClass::Ident);
        assert(n >= 1);
        let name = s1.take(n);
        assert forall|i: int| 0 <= i < name.len() implies in_class(
            #[trigger] name[i],
            CharClass::Ident,
        ) by {
            assert(name[i] == s1[i]);
        }
        let s2 = skip_class(s1.skip(n), CharClass::Space);
        lemma_span(s1.skip(n), CharClass::Space);
        if s2.len() > 0 && s2[0] == ':' {
            let s3 = skip_class(s2.drop_first(), CharClass::Space);
            lemma_span(s2.drop_first(), CharClass::Space);
            let m = span(s3, CharClass::Value) as int;
            lemma_span(s3, CharClass::Value);
            let raw = s3.take(m);
            lemma_trim(raw);
            let value = trim(raw);
            let a = span(raw, CharClass::White) as int;
            assert forall|i: int| 0 <= i < value.len() implies in_class(
                #[trigger] value[i],
                CharClass::Value,
            ) by {
                assert(value[i] == raw[a + i]);
                assert(raw[a + i] == s3[a + i]);
            }
            let s4 = s3.skip(m);
            let t = skip_class(s4, CharClass::Space);
            lemma_span(s4, CharClass::Space);
            if t.len() > 0 && t[0] == '!' {
                lemma_span(t.drop_first(), CharClass::Space);
            }
            assert(parse_value(s3).0 == value);
        }
    }
}

/// Where the `!important` marker that starts at `start` ends, if one does.
fn important_at(v: &Vec<char>, start: usize) -> (r: Option<usize>)
    requires
        start <= v.len(),
    ensures
        match after_important(v@.skip(start as int)) {
            None => r is None,
            Some(rest) => r matches Some(e) && e <= v.len() && v@.skip(e as int) == rest,
        },
{
    let n = v.len();
    let t = scan(v, start, n, CharClass::Space);
    if t == n || v[t] != '!' {
        return None;
    }
    let u = scan(v, t + 1, n, CharClass::Space);
    assert(v@.subrange(t + 1, n as int) =~= v@.subrange(t as int, n as int).drop_first());
    if n - u < 9 {
        return None;
    }
    let found = v[u] == 'i' && v[u + 1] == 'm' && v[u + 2] == 'p' && v[u + 3] == 'o' && v[u + 4]
        == 'r' && v[u + 5] == 't' && v[u + 6] == 'a' && v[u + 7] == 'n' && v[u + 8] == 't';
    let ghost w = v@.subrange(u as int, n as int);
    if found {
        assert(w.take(9) =~= important_keyword());
        assert(v@.skip(u + 9) =~= w.skip(9));
        Some(u + 9)
    } else {
        assert(w.take(9) != important_keyword()) by {
            if w.take(9) == important_keyword() {
                assert(w.take(9)[0] == 'i' && w.take(9)[1] == 'm' && w.take(9)[2] == 'p');
                assert(w.take(9)[3] == 'o' && w.take(9)[4] == 'r' && w.take(9)[5] == 't');
                assert(w.take(9)[6] == 'a' && w.take(9)[7] == 'n' && w.take(9)[8] == 't');
            }
        }
        None
    }
}

/// A valid value followed by its flag's text parses back to the value and
/// the flag, whatever text follows.
pub proof fn lemma_value_text_parses(value: Seq<char>, important: bool, rest: Seq<char>)
    requires
        value.len() > 0,
        all_in_class(value, CharClass::Value),
        is_trimmed(value),
    ensures
        parse_value(value + flag_text(important) + rest) == (value, important, rest),
{
    let empty = Seq::<char>::empty();
    let s3 = value + flag_text(important) + rest;
    if important {
        let s4 = seq!['!'] + important_keyword() + seq![';'] + rest;
        let raw = value + seq![' '];
        assert(s3 =~= raw + s4);
        assert forall|i: int| 0 <= i < raw.len() implies in_class(
            #[trigger] raw[i],
            CharClass::Value,
        ) by {
            if i < value.len() {
                assert(raw[i] == value[i]);
            }
        }
        lemma_span_concat(raw, s4, CharClass::Value);
        assert(s3.take(raw.len() as int) =~= raw);
        lemma_trim_padded(empty, value, seq![' ']);
        assert(empty + value + seq![' '] =~= raw);
        assert(s3.skip(raw.len() as int) =~= s4);
        assert(empty + s4 =~= s4);
        lemma_span_concat(empty, s4, CharClass::Space);
        let u = important_keyword() + seq![';'] + rest;
        assert(s4.drop_first() =~= u);
        assert(empty + u =~= u);
        lemma_span_concat(empty, u, CharClass::Space);
        assert(u.take(9) =~= important_keyword());
        assert(u.skip(9) =~= seq![';'] + rest);
        assert((seq![';'] + rest).drop_first() =~= rest);
    } else {
        let s4 = seq![';'] + rest;
        assert(s3 =~= value + s4);
        lemma_span_concat(value, s4, CharClass::Value);
        assert(s3.take(value.len() as int) =~= value);
        lemma_trim_padded(empty, value, empty);
        assert(empty + value + empty =~= value);
        assert(s3.skip(value.len() as int) =~= s4);
        assert(empty + s4 =~= s4);
        lemma_span_concat(empty, s4, CharClass::Space);
        assert(s4.drop_first() =~= rest);
    }
}

/// The canonical text of a valid declaration parses back to it, whatever
/// text follows.
pub proof fn lemma_declaration_text_parses(d: DeclarationModel, rest: Seq<char>)
    requires
        is_valid_declaration(d),
    ensures
        parse_declaration(declaration_text(d) + rest) == Some((d, rest)),
{
    let empty = Seq::<char>::empty();
    let s = declaration_text(d) + rest;
    let s3 = d.value + flag_text(d.important) + rest;
    let after_name = seq![':', ' '] + s3;
    assert(s =~= d.name + after_name);
    assert(empty + s =~= s);
    lemma_span_concat(empty, s, CharClass::Space);
    assert(after_name[0] == ':');
    lemma_span_concat(d.name, after_name, CharClass::Ident);
    assert(empty + after_name =~= after_name);
    lemma_span_concat(empty, after_name, CharClass::Space);
    assert(after_name.drop_first() =~= seq![' '] + s3);
    assert(s3[0] == d.value[0]);
    lemma_span_concat(seq![' '], s3, CharClass::Space);
    lemma_value_text_parses(d.value, d.important, rest);
}

/// Round trip: the canonical text of a declaration whose name is an
/// identifier and whose value is non-empty, trimmed and free of `;`, `{`,
/// `}` and `!` parses back to the same declaration, with nothing left over.
pub proof fn law_declaration_round_trip(name: Seq<char>, value: Seq<char>, important: bool)
    requires
        is_identifier(name),
        value.len() > 0,
        all_in_class(value, CharClass::Value),
        is_trimmed(value),
    ensures
        parse_declaration(declaration_text(DeclarationModel { name, value, important }))
            == Some((DeclarationModel { name, value, important }, Seq::<char>::empty())),
{
    let d = DeclarationModel { name, value, important };
    lemma_declaration_text_parses(d, Seq::<char>::empty());
    assert(declaration_text(d) + Seq::<char>::empty() =~= declaration_text(d));
}

/// Idempotence: where `x` starts with a declaration, parsing the canonical
/// text of that declaration gives it again.
pub proof fn law_declaration_idempotent(x: Seq<char>)
    ensures
        parse_declaration(x) matches Some((d, _)) ==> parse_declaration(declaration_text(d))
            == Some((d, Seq::<char>::empty())),
{
    lemma_parsed_declaration_valid(x);
    if let Some((d, _)) = parse_declaration(x) {
        law_declaration_round_trip(d.name, d.value, d.important);
    }
}

impl CSSDeclaration {
    /// The declaration at the start of `v[start..]` and where it ends.
    pub(crate) fn parse_at(v: &Vec<char>, start: usize) -> (r: Option<(CSSDeclaration, usize)>)
        requires
            start <= v.len(),
        ensures
            match parse_declaration(v@.skip(start as int)) {
                None => r is None,
                Some((d, rest)) => r matches Some((decl, end)) && decl@ == d && end <= v.len()
                    && v@.skip(end as int) == rest,
            },
    {
        let n = v.len();
        let p1 = scan(v, start, n, CharClass::Space);
        if p1 == n || !is_ident_start_char(v[p1]) {
            return None;
        }
        let p2 = scan(v, p1, n, CharClass::Ident);
        let p3 = scan(v, p2, n, CharClass::Space);
        assert(v@.subrange(p2 as int, n as int) =~= v@.subrange(p1 as int, n as int).skip(
            p2 - p1,
        ));
        if p3 == n || v[p3] != ':' {
            return None;
        }
        let p4 = scan(v, p3 + 1, n, CharClass::Space);
        assert(v@.subrange(p3 + 1, n as int) =~= v@.subrange(p3 as int, n as int).drop_first());
        let p5 = scan(v, p4, n, CharClass::Value);
        let (a, b) = trim_range(v, p4, p5);
        assert(v@.subrange(p4 as int, p5 as int) =~= v@.subrange(p4 as int, n as int).take(
            p5 - p4,
        ));
        if a == b {
            return None;
        }
        assert(v@.subrange(p5 as int, n as int) =~= v@.subrange(p4 as int, n as int).skip(
            p5 - p4,
        ));
        let (important, p6) = match important_at(v, p5) {
            Some(e) => (true, e),
            None => (false, p5),
        };
        let end = if p6 < n && v[p6] == ';' {
            p6 + 1
        } else {
            p6
        };
        assert(v@.subrange(p1 as int, p2 as int) =~= v@.subrange(p1 as int, n as int).take(
            p2 - p1,
        ));
        assert(p6 < n && v[p6 as int] == ';' ==> v@.skip(end as int) =~= v@.skip(
            p6 as int,
        ).drop_first());
        let decl = CSSDeclaration { name: text_of(v, p1, p2), value: text_of(v, a, b), important };
        Some((decl, end))
    }

    /// A declaration with the given parts; `important` defaults to `false`.
    pub fn new(name: &str, value: &str, important: Option<bool>) -> (r: CSSDeclaration)
        ensures
            r@ == (DeclarationModel {
                name: name@,
                value: value@,
                important: important == Some(true),
            }),
    {
        let important = match important {
            Some(b) => b,
            None => false,
        };
        CSSDeclaration { name: name.to_owned(), value: value.to_owned(), important }
    }

    /// A copy of the declaration.
    pub(crate) fn copied(&self) -> (r: CSSDeclaration)
        ensures
            r@ == self@,
    {
        CSSDeclaration {
            name: self.name.clone(),
            value: self.value.clone(),
            important: self.important,
        }
    }

    /// The declaration at the start of `input`, and the text after it.
    pub fn parse(input: &str) -> (r: Result<(CSSDeclaration, String), ParseError>)
        ensures
            match parse_declaration(input@) {
                None => r == Err::<(CSSDeclaration, String), ParseError>(
                    ParseError::MalformedDeclaration,
                ),
                Some((d, rest)) => r matches Ok((decl, remainder)) && decl@ == d && remainder@
                    == rest,
            },
    {
        let v = chars_of(input);
        assert(v@.skip(0) =~= input@);
        match Self::parse_at(&v, 0) {
            Some((decl, end)) => {
                let remainder = text_of(&v, end, v.len());
                Ok((decl, remainder))
            },
            None => Err(ParseError::MalformedDeclaration),
        }
    }

    /// The declaration at the start of `input`; the text after it is ignored.
    pub fn from_string(input: &str) -> (r: Result<CSSDeclaration, String>)
        ensures
            match parse_declaration(input@) {
                None => r matches Err(msg) && msg@ == "Failed to parse CSS declaration"@,
                Some((d, rest)) => r matches Ok(decl) && decl@ == d,
            },
    {
        match Self::parse(input) {
            Ok((decl, _)) => Ok(decl),
            Err(_) => Err("Failed to parse CSS declaration".to_owned()),
        }
    }

    /// The canonical text of the declaration.
    pub fn to_string(&self) -> (r: String)
        ensures
            r@ == declaration_text(self@),
    {
        let mut out = String::new();
        out.append(self.name.as_str());
        out.append(": ");
        out.append(self.value.as_str());
        if self.important {
            out.append(" !important;");
        } else {
            out.append(";");
        }
        proof {
            reveal_strlit(": ");
            reveal_strlit(" !important;");
            reveal_strlit(";");
        }
        assert(out@ =~= declaration_text(self@));
        out
    }
}

} // verus!
