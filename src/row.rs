use vstd::prelude::*;
use crate::codepoint::is_hex_digit;
use crate::text::{
    copy_range, find_exec, find_from, in_class, in_class_exec, lemma_find_from_bounds,
    run_end, run_end_exec, split_on, split_on_exec, Class,
};

verus! {

/// What a data row holds: `<codepoints> ; <qualification> # ... E<n>.<d> <name>`.
pub struct RowView {
    pub tokens: Seq<Seq<char>>,
    pub qual: Seq<char>,
    pub name: Seq<char>,
}

/// A data row as read from a line.
pub struct DataRow {
    pub tokens: Vec<Vec<char>>,
    pub qual: Vec<char>,
    pub name: Vec<char>,
}

impl View for DataRow {
    type V = RowView;

    open spec fn view(&self) -> RowView {
        RowView {
            tokens: self.tokens@.map_values(|t: Vec<char>| t@),
            qual: self.qual@,
            name: self.name@,
        }
    }
}

/// A character of the codepoint field: a hexadecimal digit or a space.
pub open spec fn is_cp_char(c: char) -> bool {
    is_hex_digit(c) || c == ' '
}

/// A codepoint field: hexadecimal digits and spaces, with at least one digit.
pub open spec fn is_cp_field(f: Seq<char>) -> bool {
    &&& forall|j: int| 0 <= j < f.len() ==> is_cp_char(#[trigger] f[j])
    &&& exists|j: int| 0 <= j < f.len() && is_hex_digit(#[trigger] f[j])
}

/// The non-empty pieces of `ss`, in order.
pub open spec fn drop_empty(ss: Seq<Seq<char>>) -> Seq<Seq<char>>
    decreases ss.len(),
{
    if ss.len() == 0 {
        Seq::empty()
    } else if ss.last().len() > 0 {
        drop_empty(ss.drop_last()).push(ss.last())
    } else {
        drop_empty(ss.drop_last())
    }
}

/// The space-separated tokens of a codepoint field.
pub open spec fn tokens_of(f: Seq<char>) -> Seq<Seq<char>> {
    drop_empty(split_on(f, seq![' ']))
}

/// A version marker `E<digits>.<digit>` at `v`, then one white space and a name character.
pub open spec fn marker_at(l: Seq<char>, v: int) -> bool {
    let d = run_end(l, v + 1, Class::Digit);
    &&& 0 <= v < l.len()
    &&& l[v] == 'E'
    &&& d > v + 1
    &&& d + 3 < l.len()
    &&& l[d] == '.'
    &&& in_class(Class::Digit, l[d + 1])
    &&& in_class(Class::Space, l[d + 2])
    &&& in_class(Class::Name, l[d + 3])
}

/// The last version marker in `l[lo..hi]`.
pub open spec fn last_marker(l: Seq<char>, lo: int, hi: int) -> Option<int>
    decreases hi - lo,
{
    if hi <= lo {
        None
    } else if marker_at(l, hi - 1) {
        Some(hi - 1)
    } else {
        last_marker(l, lo, hi - 1)
    }
}

/// The name that follows the version marker at `v`.
pub open spec fn name_after(l: Seq<char>, v: int) -> Seq<char> {
    let s = run_end(l, v + 1, Class::Digit) + 3;
    l.subrange(s, run_end(l, s, Class::Name))
}

/// The data row that the line `l` holds, if it holds one.
pub open spec fn row_of(l: Seq<char>) -> Option<RowView> {
    if let Some(semi) = find_from(l, seq![';'], 0) {
        let qs = semi + 2;
        let qe = run_end(l, qs, Class::Qual);
        let h = run_end(l, qe, Class::Space);
        if !is_cp_field(l.take(semi)) || !(semi + 1 < l.len() && l[semi + 1] == ' ') {
            None
        } else if qe == qs || !(h < l.len() && l[h] == '#') {
            None
        } else if let Some(v) = last_marker(l, h + 1, l.len() as int) {
            Some(RowView { tokens: tokens_of(l.take(semi)), qual: l.subrange(qs, qe), name: name_after(l, v) })
        } else {
            None
        }
    } else {
        None
    }
}

/// Whether `l[..n]` is a codepoint field.
fn is_cp_field_exec(l: &Vec<char>, n: usize) -> (r: bool)
    requires
        n <= l.len(),
    ensures
        r == is_cp_field(l@.take(n as int)),
{
    let ghost f = l@.take(n as int);
    let mut digit = false;
    let mut i: usize = 0;
    while i < n
        invariant
            n <= l.len(),
            f == l@.take(n as int),
            i <= n,
            forall|j: int| 0 <= j < i ==> is_cp_char(#[trigger] f[j]),
            digit <==> exists|j: int| 0 <= j < i && is_hex_digit(#[trigger] f[j]),
        decreases n - i,
    {
        let c = l[i];
        let hex = ('0' <= c && c <= '9') || ('A' <= c && c <= 'F');
        if !hex && c != ' ' {
            assert(!is_cp_char(f[i as int]));
            return false;
        }
        if hex {
            assert(is_hex_digit(f[i as int]));
            digit = true;
        }
        i += 1;
    }
    digit
}

/// The space-separated tokens of the codepoint field `f`.
fn tokens_exec(f: &Vec<char>) -> (r: Vec<Vec<char>>)
    ensures
        r@.map_values(|t: Vec<char>| t@) == tokens_of(f@),
{
    let space = vec![' '];
    assert(space@ =~= seq![' ']);
    let pieces = split_on_exec(f, &space);
    let ghost ps = split_on(f@, seq![' ']);
    let mut r: Vec<Vec<char>> = Vec::new();
    let mut i: usize = 0;
    while i < pieces.len()
        invariant
            i <= pieces@.len() == ps.len(),
            forall|k: int| 0 <= k < pieces@.len() ==> #[trigger] pieces@[k]@ == ps[k],
            r@.map_values(|t: Vec<char>| t@) == drop_empty(ps.take(i as int)),
        decreases pieces.len() - i,
    {
        assert(ps.take(i + 1).drop_last() =~= ps.take(i as int));
        assert(ps.take(i + 1).last() == pieces@[i as int]@);
        if pieces[i].len() > 0 {
            let ghost before = r@;
            let t = copy_range(&pieces[i], 0, pieces[i].len());
            assert(t@ =~= pieces@[i as int]@);
            r.push(t);
            assert(r@.map_values(|t: Vec<char>| t@) =~= before.map_values(|t: Vec<char>| t@).push(
                pieces@[i as int]@,
            ));
        }
        i += 1;
    }
    assert(ps.take(ps.len() as int) =~= ps);
    r
}

/// Whether a version marker stands at `v` in `l`.
fn marker_at_exec(l: &Vec<char>, v: usize) -> (r: bool)
    requires
        v < l.len(),
    ensures
        r == marker_at(l@, v as int),
{
    if l[v] != 'E' {
        return false;
    }
    let d = run_end_exec(l, v + 1, &Class::Digit);
    if d <= v + 1 || d >= l.len() || l.len() - d <= 3 {
        return false;
    }
    l[d] == '.' && in_class_exec(&Class::Digit, l[d + 1]) && in_class_exec(&Class::Space, l[d + 2])
        && in_class_exec(&Class::Name, l[d + 3])
}

/// The last version marker in `l[lo..hi]`.
fn last_marker_exec(l: &Vec<char>, lo: usize, hi: usize) -> (r: Option<usize>)
    requires
        hi <= l.len(),
    ensures
        r matches Some(v) ==> last_marker(l@, lo as int, hi as int) == Some(v as int),
        r is None ==> last_marker(l@, lo as int, hi as int) is None,
{
    let mut h: usize = hi;
    while h > lo
        invariant
            h <= hi <= l.len(),
            last_marker(l@, lo as int, hi as int) == last_marker(l@, lo as int, h as int),
        decreases h,
    {
        if marker_at_exec(l, h - 1) {
            return Some(h - 1);
        }
        h -= 1;
    }
    None
}

/// The data row that the line `l` holds, if it holds one.
pub fn parse_row(l: &Vec<char>) -> (r: Option<DataRow>)
    ensures
        r matches Some(d) ==> row_of(l@) == Some(d@),
        r is None ==> row_of(l@) is None,
{
    let semi_mark = vec![';'];
    assert(semi_mark@ =~= seq![';']);
    let semi = match find_exec(l, &semi_mark, 0) {
        Some(p) => p,
        None => return None,
    };
    proof {
        lemma_find_from_bounds(l@, seq![';'], 0);
    }
    let n = l.len();
    if !is_cp_field_exec(l, semi) || !(semi + 1 < n && l[semi + 1] == ' ') {
        return None;
    }
    let qs = semi + 2;
    let qe = run_end_exec(l, qs, &Class::Qual);
    let h = run_end_exec(l, qe, &Class::Space);
    if qe == qs || !(h < l.len() && l[h] == '#') {
        return None;
    }
    let v = match last_marker_exec(l, h + 1, l.len()) {
        Some(v) => v,
        None => return None,
    };
    proof {
        lemma_last_marker_bounds(l@, (h + 1) as int, l@.len() as int);
    }
    let d = run_end_exec(l, v + 1, &Class::Digit);
    let ns = d + 3;
    let ne = run_end_exec(l, ns, &Class::Name);
    let field = copy_range(l, 0, semi);
    assert(field@ =~= l@.take(semi as int));
    let tokens = tokens_exec(&field);
    let row = DataRow { tokens, qual: copy_range(l, qs, qe), name: copy_range(l, ns, ne) };
    Some(row)
}

proof fn lemma_last_marker_bounds(l: Seq<char>, lo: int, hi: int)
    ensures
        last_marker(l, lo, hi) matches Some(v) ==> lo <= v < hi && marker_at(l, v),
    decreases hi - lo,
{
    if hi > lo && !marker_at(l, hi - 1) {
        lemma_last_marker_bounds(l, lo, hi - 1);
    }
}

} // verus!
