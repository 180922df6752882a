use vstd::prelude::*;

use crate::error::TsqlError;
use crate::text::{chars_of, is_word_char, string_of, word_char};

verus! {

/// Characters that separate tokens: space, tab, and line breaks.
pub open spec fn is_blank(c: char) -> bool {
    c == ' ' || c == '\t' || c == '\n' || c == '\r'
}

pub open spec fn is_digit(c: char) -> bool {
    '0' <= c && c <= '9'
}

/// End of the run of blanks that starts at `i`.
pub open spec fn blank_end(s: Seq<char>, i: int) -> int
    decreases s.len() - i,
{
    if 0 <= i < s.len() && is_blank(s[i]) {
        blank_end(s, i + 1)
    } else {
        i
    }
}

/// End of the run of identifier characters that starts at `i`.
pub open spec fn word_end(s: Seq<char>, i: int) -> int
    decreases s.len() - i,
{
    if 0 <= i < s.len() && is_word_char(s[i]) {
        word_end(s, i + 1)
    } else {
        i
    }
}

/// End of the run of decimal digits that starts at `i`.
pub open spec fn digit_end(s: Seq<char>, i: int) -> int
    decreases s.len() - i,
{
    if 0 <= i < s.len() && is_digit(s[i]) {
        digit_end(s, i + 1)
    } else {
        i
    }
}

/// End of a list item at `i`: a word, or a run of digits.
pub open spec fn item_end(s: Seq<char>, i: int, digits: bool) -> int {
    if digits {
        digit_end(s, i)
    } else {
        word_end(s, i)
    }
}

/// `lit` stands in `s` at position `i`.
pub open spec fn lit_at(s: Seq<char>, i: int, lit: Seq<char>) -> bool {
    0 <= i && i + lit.len() <= s.len() && s.subrange(i, i + lit.len()) == lit
}

/// End of a list separator at `i` (blanks, a comma, blanks), if one stands there.
pub open spec fn sep_end(s: Seq<char>, i: int) -> Option<int> {
    let a = blank_end(s, i);
    if 0 <= a < s.len() && s[a] == ',' {
        Some(blank_end(s, a + 1))
    } else {
        None
    }
}

/// The items that follow an item ending at `e`, each after a separator, and the
/// position after the last of them.
pub open spec fn list_tail(s: Seq<char>, e: int, digits: bool) -> (int, Seq<Seq<char>>)
    decreases s.len() - e,
{
    match sep_end(s, e) {
        Some(k) => {
            let e2 = item_end(s, k, digits);
            if k < e2 && e < e2 <= s.len() {
                let (p, rest) = list_tail(s, e2, digits);
                (p, seq![s.subrange(k, e2)] + rest)
            } else {
                (e, seq![])
            }
        },
        None => (e, seq![]),
    }
}

/// A possibly empty list of items separated by commas, starting at `i`.
pub open spec fn list_items(s: Seq<char>, i: int, digits: bool) -> (int, Seq<Seq<char>>) {
    let e = item_end(s, i, digits);
    if i < e {
        let (p, rest) = list_tail(s, e, digits);
        (p, seq![s.subrange(i, e)] + rest)
    } else {
        (i, seq![])
    }
}

/// `(item, item, ...)` at `i`: the position after `)` and the items.
pub open spec fn tuple_list(s: Seq<char>, i: int, digits: bool) -> Option<(int, Seq<Seq<char>>)> {
    if 0 <= i < s.len() && s[i] == '(' {
        let (p, items) = list_items(s, i + 1, digits);
        if 0 <= p < s.len() && s[p] == ')' {
            Some((p + 1, items))
        } else {
            None
        }
    } else {
        None
    }
}

pub fn skip_blanks(s: &Vec<char>, i: usize) -> (r: usize)
    requires
        i <= s@.len(),
    ensures
        r == blank_end(s@, i as int),
        i <= r <= s@.len(),
{
    let mut j = i;
    while j < s.len() && (s[j] == ' ' || s[j] == '\t' || s[j] == '\n' || s[j] == '\r')
        invariant
            i <= j <= s@.len(),
            blank_end(s@, j as int) == blank_end(s@, i as int),
        decreases s@.len() - j,
    {
        j = j + 1;
    }
    j
}

pub fn scan_word(s: &Vec<char>, i: usize) -> (r: usize)
    requires
        i <= s@.len(),
    ensures
        r == word_end(s@, i as int),
        i <= r <= s@.len(),
{
    let mut j = i;
    while j < s.len() && word_char(s[j])
        invariant
            i <= j <= s@.len(),
            word_end(s@, j as int) == word_end(s@, i as int),
        decreases s@.len() - j,
    {
        j = j + 1;
    }
    j
}

pub fn scan_digits(s: &Vec<char>, i: usize) -> (r: usize)
    requires
        i <= s@.len(),
    ensures
        r == digit_end(s@, i as int),
        i <= r <= s@.len(),
{
    let mut j = i;
    while j < s.len() && '0' <= s[j] && s[j] <= '9'
        invariant
            i <= j <= s@.len(),
            digit_end(s@, j as int) == digit_end(s@, i as int),
        decreases s@.len() - j,
    {
        j = j + 1;
    }
    j
}

fn scan_item(s: &Vec<char>, i: usize, digits: bool) -> (r: usize)
    requires
        i <= s@.len(),
    ensures
        r == item_end(s@, i as int, digits),
        i <= r <= s@.len(),
{
    if digits {
        scan_digits(s, i)
    } else {
        scan_word(s, i)
    }
}

/// Whether the literal `lit` stands in `s` at position `i`.
pub fn lit_at_exec(s: &Vec<char>, i: usize, lit: &Vec<char>) -> (r: bool)
    requires
        i <= s@.len(),
    ensures
        r == lit_at(s@, i as int, lit@),
{
    if lit.len() > s.len() - i {
        return false;
    }
    let mut k: usize = 0;
    while k < lit.len()
        invariant
            k <= lit@.len(),
            i + lit@.len() <= s@.len(),
            i + lit.len() <= s.len(),
            s@.subrange(i as int, i + k) == lit@.subrange(0, k as int),
        decreases lit@.len() - k,
    {
        if s[i + k] != lit[k] {
            assert(s@.subrange(i as int, i + lit@.len())[k as int] != lit@[k as int]);
            return false;
        }
        k = k + 1;
        assert(s@.subrange(i as int, i + k) =~= lit@.subrange(0, k as int));
    }
    assert(lit@.subrange(0, k as int) =~= lit@);
    true
}

/// The separator at `i`, if any: the position after it.
fn scan_sep(s: &Vec<char>, i: usize) -> (r: Option<usize>)
    requires
        i <= s@.len(),
    ensures
        r matches Some(k) ==> sep_end(s@, i as int) == Some(k as int) && k <= s@.len(),
        r is None ==> sep_end(s@, i as int) is None,
{
    let a = skip_blanks(s, i);
    if a < s.len() && s[a] == ',' {
        Some(skip_blanks(s, a + 1))
    } else {
        None
    }
}

pub open spec fn strings_view(v: Seq<String>) -> Seq<Seq<char>> {
    v.map_values(|x: String| x@)
}

/// Parses `(item, item, ...)` at `i`, where an item is a word or, with
/// `digits`, a run of decimal digits.
pub fn separated_tuple_list(s: &Vec<char>, i: usize, digits: bool) -> (r: Option<(usize, Vec<String>)>)
    requires
        i <= s@.len(),
    ensures
        r matches Some((p, items)) ==> tuple_list(s@, i as int, digits) == Some(
            (p as int, strings_view(items@)),
        ) && i < p <= s@.len(),
        r is None ==> tuple_list(s@, i as int, digits) is None,
{
    if !(i < s.len() && s[i] == '(') {
        return None;
    }
    let ghost sv = s@;
    let start = i + 1;
    let mut items: Vec<String> = Vec::new();
    let e = scan_item(s, start, digits);
    let mut pos = start;
    if start < e {
        items.push(string_of(&s.as_slice()[start..e]));
        pos = e;
        loop
            invariant
                start < e <= pos <= sv.len(),
                s@ == sv,
                e == item_end(sv, start as int, digits),
                ({
                    let (end0, rest0) = list_tail(sv, e as int, digits);
                    let (end1, rest1) = list_tail(sv, pos as int, digits);
                    end0 == end1 && rest0 == strings_view(items@).drop_first() + rest1
                }),
                strings_view(items@).len() >= 1,
                strings_view(items@)[0] == sv.subrange(start as int, e as int),
            ensures
                list_items(sv, start as int, digits) == (pos as int, strings_view(items@)),
                pos <= sv.len(),
            decreases sv.len() - pos,
        {
            match scan_sep(s, pos) {
                Some(k) => {
                    let e2 = scan_item(s, k, digits);
                    if k < e2 && pos < e2 {
                        let ghost before = strings_view(items@);
                        items.push(string_of(&s.as_slice()[k..e2]));
                        assert(strings_view(items@) =~= before.push(sv.subrange(k as int, e2 as int)));
                        pos = e2;
                    } else {
                        assert(list_tail(sv, pos as int, digits) == (pos as int, Seq::<Seq<char>>::empty()));
                        assert(strings_view(items@) =~= seq![strings_view(items@)[0]] + strings_view(items@).drop_first());
                        assert(strings_view(items@).drop_first() + Seq::<Seq<char>>::empty() =~= strings_view(items@).drop_first());
                        break;
                    }
                },
                None => {
                    assert(list_tail(sv, pos as int, digits) == (pos as int, Seq::<Seq<char>>::empty()));
                    assert(strings_view(items@) =~= seq![strings_view(items@)[0]] + strings_view(items@).drop_first());
                    assert(strings_view(items@).drop_first() + Seq::<Seq<char>>::empty() =~= strings_view(items@).drop_first());
                    break;
                },
            }
        }
    }
    if pos < s.len() && s[pos] == ')' {
        Some((pos + 1, items))
    } else {
        None
    }
}

/// Splits the leading identifier off a text: the rest and the identifier.
pub fn get_word(input: &str) -> (r: Result<(String, String), TsqlError>)
    ensures
        r matches Ok((rest, word)) ==> 0 < word_end(input@, 0) && word@ == input@.subrange(
            0,
            word_end(input@, 0),
        ) && rest@ == input@.subrange(word_end(input@, 0), input@.len() as int),
        r is Err ==> word_end(input@, 0) == 0,
{
    let s = chars_of(input);
    let e = scan_word(&s, 0);
    if e == 0 {
        return Err(TsqlError::LexError(0));
    }
    let word = string_of(&s.as_slice()[0..e]);
    let rest = string_of(&s.as_slice()[e..s.len()]);
    Ok((rest, word))
}

/// Splits blanks and then an identifier off a text: the rest and the identifier.
pub fn preceded_space_get_word(input: &str) -> (r: Result<(String, String), TsqlError>)
    ensures
        r matches Ok((rest, word)) ==> ({
            let b = blank_end(input@, 0);
            let e = word_end(input@, b);
            0 < b < e && word@ == input@.subrange(b, e) && rest@ == input@.subrange(
                e,
                input@.len() as int,
            )
        }),
        r is Err ==> !(0 < blank_end(input@, 0) < word_end(input@, blank_end(input@, 0))),
{
    let s = chars_of(input);
    let b = skip_blanks(&s, 0);
    let e = scan_word(&s, b);
    if !(0 < b && b < e) {
        return Err(TsqlError::LexError(b));
    }
    let word = string_of(&s.as_slice()[b..e]);
    let rest = string_of(&s.as_slice()[e..s.len()]);
    Ok((rest, word))
}

} // verus!
