use vstd::prelude::*;

use crate::parser::lexer::{
    blank_end, lit_at, lit_at_exec, separated_tuple_list, scan_word, skip_blanks, strings_view,
    tuple_list, word_end,
};
use crate::parser::types::{FieldExtra, TagHelper};
use crate::text::{chars_of, string_of};

verus! {

/// A field as written: the annotation, the type keyword, its arguments and the name.
pub struct FieldSyntax {
    pub foreign_key: bool,
    pub kind: Seq<char>,
    pub args: Seq<Seq<char>>,
    pub name: Seq<char>,
}

/// The parts of one field declaration, not yet decoded.
#[derive(Debug, PartialEq, Eq)]
pub struct RawParsedField {
    pub field_extra: Option<FieldExtra>,
    pub field_type: String,
    pub field_type_arguments: Vec<String>,
    pub field_name: String,
}

impl View for RawParsedField {
    type V = FieldSyntax;

    open spec fn view(&self) -> FieldSyntax {
        FieldSyntax {
            foreign_key: self.field_extra is Some,
            kind: self.field_type@,
            args: strings_view(self.field_type_arguments@),
            name: self.field_name@,
        }
    }
}

pub open spec fn fields_view(v: Seq<RawParsedField>) -> Seq<FieldSyntax> {
    v.map_values(|f: RawParsedField| f@)
}

/// One field at `i`: blanks, an optional `@foreign_key()` and blanks, the type
/// keyword, optional `(digits, ...)`, blanks, and the name.
pub open spec fn field_syntax(s: Seq<char>, i: int) -> Option<(int, FieldSyntax)> {
    let a = blank_end(s, i);
    let fk = lit_at(s, a, "@foreign_key()"@);
    let b = blank_end(
        s,
        if fk {
            a + "@foreign_key()"@.len()
        } else {
            a
        },
    );
    let t = word_end(s, b);
    let (p, args) = match tuple_list(s, t, true) {
        Some((p, xs)) => (p, xs),
        None => (t, seq![]),
    };
    let n0 = blank_end(s, p);
    let n = word_end(s, n0);
    if i < a && b < t && p < n0 && n0 < n {
        Some(
            (
                n,
                FieldSyntax {
                    foreign_key: fk,
                    kind: s.subrange(b, t),
                    args,
                    name: s.subrange(n0, n),
                },
            ),
        )
    } else {
        None
    }
}

/// The fields that follow a field ending at `e`, each after a comma.
pub open spec fn field_tail(s: Seq<char>, e: int) -> (int, Seq<FieldSyntax>)
    decreases s.len() - e,
{
    if 0 <= e < s.len() && s[e] == ',' {
        match field_syntax(s, e + 1) {
            Some((e2, f)) => if e < e2 <= s.len() {
                let (p, rest) = field_tail(s, e2);
                (p, seq![f] + rest)
            } else {
                (e, seq![])
            },
            None => (e, seq![]),
        }
    } else {
        (e, seq![])
    }
}

/// Fields separated by commas, the last one followed by a comma too.
pub open spec fn field_list(s: Seq<char>, i: int) -> Option<(int, Seq<FieldSyntax>)> {
    let (p, fs) = match field_syntax(s, i) {
        Some((e, f)) => {
            let (p, rest) = field_tail(s, e);
            (p, seq![f] + rest)
        },
        None => (i, seq![]),
    };
    if 0 <= p < s.len() && s[p] == ',' {
        Some((p + 1, fs))
    } else {
        None
    }
}

/// The optional `@primary_key(name, ...)` at `i`: where it ends and the names.
pub open spec fn table_extra_syntax(s: Seq<char>, i: int) -> (int, Seq<Seq<char>>) {
    if lit_at(s, i, "@primary_key"@) {
        match tuple_list(s, i + "@primary_key"@.len(), false) {
            Some((p, names)) => (p, names),
            None => (i, seq![]),
        }
    } else {
        (i, seq![])
    }
}

/// The first `}` at or after `j`, or the end of the text.
pub open spec fn close_brace(s: Seq<char>, j: int) -> int
    decreases s.len() - j,
{
    if 0 <= j < s.len() && s[j] != '}' {
        close_brace(s, j + 1)
    } else {
        j
    }
}

/// A table as written: its primary key, its name and its fields.
pub struct TableSyntax {
    pub primary_key: Seq<Seq<char>>,
    pub name: Seq<char>,
    pub fields: Seq<FieldSyntax>,
}

/// One table declaration at `i`:
/// `[@primary_key(..)] table <name> { <fields> };`, with blanks allowed after
/// the annotation and before `{`.
pub open spec fn table_syntax(s: Seq<char>, i: int) -> Option<(int, TableSyntax)> {
    let (a, pk) = table_extra_syntax(s, i);
    let b = blank_end(s, a);
    let c = b + "table"@.len();
    let d = blank_end(s, c);
    let e = word_end(s, d);
    let f = blank_end(s, e);
    let close = close_brace(s, f + 1);
    if lit_at(s, b, "table"@) && c < d && d < e && 0 <= f < s.len() && s[f] == '{' && f + 1 < close
        && close + 1 < s.len() && s[close + 1] == ';' {
        match field_list(s, f + 1) {
            Some((_, fields)) => Some(
                (close + 2, TableSyntax { primary_key: pk, name: s.subrange(d, e), fields }),
            ),
            None => None,
        }
    } else {
        None
    }
}

/// Parses one field declaration at `i`.
pub fn parse_single_table_field(s: &Vec<char>, i: usize) -> (r: Option<(usize, RawParsedField)>)
    requires
        i <= s@.len(),
    ensures
        r matches Some((e, f)) ==> field_syntax(s@, i as int) == Some((e as int, f@)) && i < e
            <= s@.len(),
        r is None ==> field_syntax(s@, i as int) is None,
{
    let a = skip_blanks(s, i);
    let fk_lit = chars_of("@foreign_key()");
    let fk = fk_lit.len() <= s.len() - a && lit_at_exec(s, a, &fk_lit);
    let b = if fk {
        skip_blanks(s, a + fk_lit.len())
    } else {
        skip_blanks(s, a)
    };
    let t = scan_word(s, b);
    let (p, args) = match separated_tuple_list(s, t, true) {
        Some((p, xs)) => (p, xs),
        None => {
            let xs: Vec<String> = Vec::new();
            assert(strings_view(xs@) =~= Seq::<Seq<char>>::empty());
            (t, xs)
        },
    };
    let n0 = skip_blanks(s, p);
    let n = scan_word(s, n0);
    if i < a && b < t && p < n0 && n0 < n {
        let f = RawParsedField {
            field_extra: if fk {
                Some(FieldExtra::ForeignKey)
            } else {
                None
            },
            field_type: string_of(&s.as_slice()[b..t]),
            field_type_arguments: args,
            field_name: string_of(&s.as_slice()[n0..n]),
        };
        Some((n, f))
    } else {
        None
    }
}

/// Parses the fields of a table body at `i`: each followed by a comma.
pub fn parse_table_fields(s: &Vec<char>, i: usize) -> (r: Option<(usize, Vec<RawParsedField>)>)
    requires
        i <= s@.len(),
    ensures
        r matches Some((p, fs)) ==> field_list(s@, i as int) == Some((p as int, fields_view(fs@)))
            && p <= s@.len(),
        r is None ==> field_list(s@, i as int) is None,
{
    let ghost sv = s@;
    let mut fields: Vec<RawParsedField> = Vec::new();
    let mut pos = i;
    match parse_single_table_field(s, i) {
        None => {
            assert(fields_view(fields@) =~= Seq::<FieldSyntax>::empty());
        },
        Some((e, f)) => {
            fields.push(f);
            pos = e;
            loop
                invariant
                    i < e <= pos <= sv.len(),
                    s@ == sv,
                    field_syntax(sv, i as int) matches Some((e0, f0)) && e0 == e && fields_view(
                        fields@,
                    ).len() >= 1 && fields_view(fields@)[0] == f0,
                    ({
                        let (end0, rest0) = field_tail(sv, e as int);
                        let (end1, rest1) = field_tail(sv, pos as int);
                        end0 == end1 && rest0 == fields_view(fields@).drop_first() + rest1
                    }),
                ensures
                    pos <= sv.len(),
                    ({
                        let (p, fs) = match field_syntax(sv, i as int) {
                            Some((e, f)) => {
                                let (p, rest) = field_tail(sv, e);
                                (p, seq![f] + rest)
                            },
                            None => (i as int, seq![]),
                        };
                        p == pos && fs == fields_view(fields@)
                    }),
                decreases sv.len() - pos,
            {
                if pos < s.len() && s[pos] == ',' {
                    match parse_single_table_field(s, pos + 1) {
                        Some((e2, f2)) => {
                            let ghost before = fields_view(fields@);
                            fields.push(f2);
                            assert(fields_view(fields@) =~= before.push(f2@));
                            assert(fields_view(fields@).drop_first() =~= before.drop_first().push(f2@));
                            pos = e2;
                        },
                        None => {
                            assert(field_tail(sv, pos as int) == (pos as int, Seq::<FieldSyntax>::empty()));
                            assert(fields_view(fields@) =~= seq![fields_view(fields@)[0]] + fields_view(fields@).drop_first());
                            assert(fields_view(fields@).drop_first() + Seq::<FieldSyntax>::empty() =~= fields_view(fields@).drop_first());
                            break;
                        },
                    }
                } else {
                    assert(field_tail(sv, pos as int) == (pos as int, Seq::<FieldSyntax>::empty()));
                    assert(fields_view(fields@) =~= seq![fields_view(fields@)[0]] + fields_view(fields@).drop_first());
                    assert(fields_view(fields@).drop_first() + Seq::<FieldSyntax>::empty() =~= fields_view(fields@).drop_first());
                    break;
                }
            }
        },
    }
    if pos < s.len() && s[pos] == ',' {
        Some((pos + 1, fields))
    } else {
        None
    }
}

/// Parses the optional `@primary_key(...)` annotation at `i`.
pub fn parse_table_extra(s: &Vec<char>, i: usize) -> (r: (usize, Option<(TagHelper, Vec<String>)>))
    requires
        i <= s@.len(),
    ensures
        r.0 <= s@.len(),
        table_extra_syntax(s@, i as int) == (r.0 as int, match r.1 {
            Some((_, names)) => strings_view(names@),
            None => seq![],
        }),
        r.1 is Some <==> lit_at(s@, i as int, "@primary_key"@) && tuple_list(
            s@,
            i + "@primary_key"@.len(),
            false,
        ) is Some,
{
    let lit = chars_of("@primary_key");
    if lit.len() <= s.len() - i && lit_at_exec(s, i, &lit) {
        match separated_tuple_list(s, i + lit.len(), false) {
            Some((p, names)) => (p, Some((TagHelper::PrimaryKey, names))),
            None => (i, None),
        }
    } else {
        (i, None)
    }
}

/// The position of the first `}` at or after `j`, or the end of the text.
pub fn find_close_brace(s: &Vec<char>, j: usize) -> (r: usize)
    requires
        j <= s@.len(),
    ensures
        r == close_brace(s@, j as int),
        j <= r <= s@.len(),
{
    let mut k = j;
    while k < s.len() && s[k] != '}'
        invariant
            j <= k <= s@.len(),
            close_brace(s@, k as int) == close_brace(s@, j as int),
        decreases s@.len() - k,
    {
        k = k + 1;
    }
    k
}

/// Parses the body `{ ... }` that follows blanks at `i`: the positions of `{`
/// and of the closing `}`, if the body is not empty.
pub fn parse_table_body(s: &Vec<char>, i: usize) -> (r: Option<(usize, usize)>)
    requires
        i <= s@.len(),
    ensures
        r matches Some((f, close)) ==> f == blank_end(s@, i as int) && f < s@.len() && s@[f as int]
            == '{' && close == close_brace(s@, f + 1) && f + 1 < close < s@.len(),
        r is None ==> ({
            let f = blank_end(s@, i as int);
            !(0 <= f < s@.len() && s@[f] == '{' && f + 1 < close_brace(s@, f + 1) < s@.len())
        }),
{
    let f = skip_blanks(s, i);
    if f < s.len() && s[f] == '{' {
        let close = find_close_brace(s, f + 1);
        if f + 1 < close && close < s.len() {
            return Some((f, close));
        }
    }
    None
}

/// A table declaration, lexically: where it ends, its primary key, name and fields.
pub struct ParsedTable {
    pub end: usize,
    pub primary_key: Vec<String>,
    pub name: String,
    pub fields: Vec<RawParsedField>,
}

/// Parses one table declaration at `i`.
pub fn parse_table_syntax(s: &Vec<char>, i: usize) -> (r: Option<ParsedTable>)
    requires
        i <= s@.len(),
    ensures
        r matches Some(t) ==> table_syntax(s@, i as int) == Some(
            (
                t.end as int,
                TableSyntax {
                    primary_key: strings_view(t.primary_key@),
                    name: t.name@,
                    fields: fields_view(t.fields@),
                },
            ),
        ) && t.end <= s@.len(),
        r is None ==> table_syntax(s@, i as int) is None,
{
    let (a, extra) = parse_table_extra(s, i);
    let pk = match extra {
        Some((_, names)) => names,
        None => {
            let xs: Vec<String> = Vec::new();
            assert(strings_view(xs@) =~= Seq::<Seq<char>>::empty());
            xs
        },
    };
    let b = skip_blanks(s, a);
    let table_lit = chars_of("table");
    if !(table_lit.len() <= s.len() - b && lit_at_exec(s, b, &table_lit)) {
        return None;
    }
    let c = b + table_lit.len();
    let d = skip_blanks(s, c);
    let e = scan_word(s, d);
    if !(c < d && d < e) {
        return None;
    }
    let (f, close) = match parse_table_body(s, e) {
        Some(found) => found,
        None => {
            return None;
        },
    };
    if !(close < s.len() - 1 && s[close + 1] == ';') {
        return None;
    }
    match parse_table_fields(s, f + 1) {
        Some((_, fields)) => Some(
            ParsedTable { end: close + 2, primary_key: pk, name: string_of(&s.as_slice()[d..e]), fields },
        ),
        None => None,
    }
}

} // verus!
