use vstd::prelude::*;
use crate::codepoint::{decode_all, decode_tokens, encode_all, is_canonical_token, lemma_round_trip};
use crate::row::{parse_row, row_of, DataRow, RowView};
use crate::text::{
    chars_of, copy_range, lemma_find_from_bounds, lemma_pieces_nonempty, lines_of, occurs_at, split_on, split_on_exec, string_of, trim, trim_exec,
};

verus! {

broadcast use vstd::string::group_string_axioms;

/// One catalog entry: the emoji's text, its name, its group, and its subgroup as the one tag.
#[derive(Debug)]
pub struct EmoteEntry {
    pub text: String,
    pub name: String,
    pub group: String,
    pub tags: Vec<String>,
}

/// What a catalog entry holds, as character sequences.
pub struct EntryView {
    pub text: Seq<char>,
    pub name: Seq<char>,
    pub group: Seq<char>,
    pub tags: Seq<Seq<char>>,
}

impl View for EmoteEntry {
    type V = EntryView;

    open spec fn view(&self) -> EntryView {
        EntryView {
            text: self.text@,
            name: self.name@,
            group: self.group@,
            tags: self.tags@.map_values(|t: String| t@),
        }
    }
}

/// Why a document could not be turned into a catalog.
#[derive(PartialEq, Eq, Debug, Clone, Copy, Structural)]
pub enum ParseError {
    /// A kept data row names a number that is not a Unicode scalar value.
    InvalidCodepoint,
}

/// A data row together with the group and subgroup it stands under.
pub struct Placed {
    pub group: Seq<char>,
    pub subgroup: Seq<char>,
    pub row: RowView,
}

/// A data row together with the group and subgroup it stands under.
pub struct PlacedRow {
    pub group: Vec<char>,
    pub subgroup: Vec<char>,
    pub row: DataRow,
}

impl View for PlacedRow {
    type V = Placed;

    open spec fn view(&self) -> Placed {
        Placed { group: self.group@, subgroup: self.subgroup@, row: self.row@ }
    }
}

/// What the placed rows `ps` hold.
pub open spec fn views(ps: Seq<PlacedRow>) -> Seq<Placed> {
    ps.map_values(|p: PlacedRow| p@)
}

/// The marker that opens a group.
pub open spec fn group_mark() -> Seq<char> {
    "# group: "@
}

/// The marker that opens a subgroup.
pub open spec fn subgroup_mark() -> Seq<char> {
    "# subgroup: "@
}

/// A line that can name a group or subgroup: not a comment, not blank.
pub open spec fn is_header_line(l: Seq<char>) -> bool {
    !(l.len() > 0 && l[0] == '#') && trim(l).len() > 0
}

/// The first header line among `ls[i..]`, trimmed.
pub open spec fn first_header(ls: Seq<Seq<char>>, i: int) -> Option<Seq<char>>
    decreases ls.len() - i,
{
    if i < 0 || i >= ls.len() {
        None
    } else if is_header_line(ls[i]) {
        Some(trim(ls[i]))
    } else {
        first_header(ls, i + 1)
    }
}

/// The name that a group or subgroup chunk gives itself.
pub open spec fn header_of(chunk: Seq<char>) -> Option<Seq<char>> {
    first_header(lines_of(chunk), 0)
}

/// The data rows among the lines `ls`, in order.
pub open spec fn rows_in(ls: Seq<Seq<char>>) -> Seq<RowView>
    decreases ls.len(),
{
    if ls.len() == 0 {
        Seq::empty()
    } else {
        let r = match row_of(ls.last()) {
            Some(row) => seq![row],
            None => Seq::empty(),
        };
        rows_in(ls.drop_last()) + r
    }
}

/// The rows `rs`, each placed under the group `g` and the subgroup `sg`.
pub open spec fn place(g: Seq<char>, sg: Seq<char>, rs: Seq<RowView>) -> Seq<Placed> {
    rs.map_values(|r: RowView| Placed { group: g, subgroup: sg, row: r })
}

/// The rows of one subgroup chunk of the group `g`.
pub open spec fn placed_in_subgroup(g: Seq<char>, chunk: Seq<char>) -> Seq<Placed> {
    match header_of(chunk) {
        Some(sg) => place(g, sg, rows_in(lines_of(chunk))),
        None => Seq::empty(),
    }
}

/// The rows of the subgroup chunks `cs` of the group `g`, chunk after chunk.
pub open spec fn placed_in_subgroups(g: Seq<char>, cs: Seq<Seq<char>>) -> Seq<Placed>
    decreases cs.len(),
{
    if cs.len() == 0 {
        Seq::empty()
    } else {
        placed_in_subgroups(g, cs.drop_last()) + placed_in_subgroup(g, cs.last())
    }
}

/// The rows of one group chunk.
pub open spec fn placed_in_group(chunk: Seq<char>) -> Seq<Placed> {
    match header_of(chunk) {
        Some(g) => placed_in_subgroups(g, split_on(chunk, subgroup_mark()).drop_first()),
        None => Seq::empty(),
    }
}

/// The rows of the group chunks `cs`, chunk after chunk.
pub open spec fn placed_in_groups(cs: Seq<Seq<char>>) -> Seq<Placed>
    decreases cs.len(),
{
    if cs.len() == 0 {
        Seq::empty()
    } else {
        placed_in_groups(cs.drop_last()) + placed_in_group(cs.last())
    }
}

/// Every data row of `doc` that stands under a named group and subgroup, in document order.
pub open spec fn placed_rows(doc: Seq<char>) -> Seq<Placed> {
    placed_in_groups(split_on(doc, group_mark()).drop_first())
}

/// A qualification whose rows go into the catalog.
pub open spec fn is_kept(q: Seq<char>) -> bool {
    q != "minimally-qualified"@ && q != "component"@
}

/// The rows of `ps` with a kept qualification, in order.
pub open spec fn keep_only(ps: Seq<Placed>) -> Seq<Placed>
    decreases ps.len(),
{
    if ps.len() == 0 {
        Seq::empty()
    } else if is_kept(ps.last().row.qual) {
        keep_only(ps.drop_last()).push(ps.last())
    } else {
        keep_only(ps.drop_last())
    }
}

/// The rows of `doc` that become catalog entries.
pub open spec fn kept_rows(doc: Seq<char>) -> Seq<Placed> {
    keep_only(placed_rows(doc))
}

/// The entry for the row `p`, whose codepoints spell `text`.
pub open spec fn entry_of(p: Placed, text: Seq<char>) -> EntryView {
    EntryView { text, name: p.row.name, group: p.group, tags: seq![p.subgroup] }
}

/// The entries for `ps`, if the codepoints of every row decode.
pub open spec fn decode_placed(ps: Seq<Placed>) -> Option<Seq<EntryView>>
    decreases ps.len(),
{
    if ps.len() == 0 {
        Some(Seq::empty())
    } else {
        match (decode_placed(ps.drop_last()), decode_all(ps.last().row.tokens)) {
            (Some(es), Some(text)) => Some(es.push(entry_of(ps.last(), text))),
            _ => None,
        }
    }
}

/// The catalog of the document `doc`.
pub open spec fn catalog(doc: Seq<char>) -> Result<Seq<EntryView>, ParseError> {
    match decode_placed(kept_rows(doc)) {
        Some(es) => Ok(es),
        None => Err(ParseError::InvalidCodepoint),
    }
}

/// Whether `a` and `b` hold the same characters.
fn eq_chars(a: &Vec<char>, b: &Vec<char>) -> (r: bool)
    ensures
        r == (a@ == b@),
{
    if a.len() != b.len() {
        return false;
    }
    let mut i: usize = 0;
    while i < a.len()
        invariant
            a@.len() == b@.len(),
            i <= a.len(),
            forall|j: int| 0 <= j < i ==> a@[j] == b@[j],
        decreases a.len() - i,
    {
        if a[i] != b[i] {
            return false;
        }
        i += 1;
    }
    assert(a@ =~= b@);
    true
}

/// A copy of `v`.
fn copy_all(v: &Vec<char>) -> (r: Vec<char>)
    ensures
        r@ == v@,
{
    let r = copy_range(v, 0, v.len());
    assert(r@ =~= v@);
    r
}

/// The lines of `s`.
fn lines_exec(s: &Vec<char>) -> (r: Vec<Vec<char>>)
    ensures
        r@.len() == lines_of(s@).len(),
        forall|k: int| 0 <= k < r@.len() ==> #[trigger] r@[k]@ == lines_of(s@)[k],
{
    let nl = vec!['\n'];
    assert(nl@ =~= seq!['\n']);
    split_on_exec(s, &nl)
}

/// The name that a group or subgroup chunk gives itself.
fn header_exec(chunk: &Vec<char>) -> (r: Option<Vec<char>>)
    ensures
        r matches Some(h) ==> header_of(chunk@) == Some(h@),
        r is None ==> header_of(chunk@) is None,
{
    let ls = lines_exec(chunk);
    let ghost lv = lines_of(chunk@);
    let mut i: usize = 0;
    while i < ls.len()
        invariant
            i <= ls@.len() == lv.len(),
            lv == lines_of(chunk@),
            forall|k: int| 0 <= k < ls@.len() ==> #[trigger] ls@[k]@ == lv[k],
            first_header(lv, 0) == first_header(lv, i as int),
        decreases ls.len() - i,
    {
        let l = &ls[i];
        assert(l@ == lv[i as int]);
        let t = trim_exec(l);
        if !(l.len() > 0 && l[0] == '#') && t.len() > 0 {
            return Some(t);
        }
        i += 1;
    }
    None
}

/// Appends the data rows among the lines `ls`, placed under `g` and `sg`, to `out`.
fn place_rows(g: &Vec<char>, sg: &Vec<char>, ls: &Vec<Vec<char>>, out: &mut Vec<PlacedRow>)
    ensures
        views(final(out)@) == views(old(out)@) + place(
            g@,
            sg@,
            rows_in(ls@.map_values(|l: Vec<char>| l@)),
        ),
{
    let ghost lv = ls@.map_values(|l: Vec<char>| l@);
    let ghost start = views(out@);
    let mut i: usize = 0;
    while i < ls.len()
        invariant
            i <= ls@.len() == lv.len(),
            lv == ls@.map_values(|l: Vec<char>| l@),
            views(out@) == start + place(g@, sg@, rows_in(lv.take(i as int))),
        decreases ls.len() - i,
    {
        assert(lv.take(i + 1).drop_last() =~= lv.take(i as int));
        assert(lv.take(i + 1).last() == ls@[i as int]@);
        let ghost before = out@;
        match parse_row(&ls[i]) {
            Some(d) => {
                let p = PlacedRow { group: copy_all(g), subgroup: copy_all(sg), row: d };
                out.push(p);
                assert(views(out@) =~= views(before).push(p@));
                assert(place(g@, sg@, rows_in(lv.take(i + 1))) =~= place(
                    g@,
                    sg@,
                    rows_in(lv.take(i as int)),
                ).push(p@));
            },
            None => {
                assert(rows_in(lv.take(i + 1)) =~= rows_in(lv.take(i as int)));
            },
        }
        i += 1;
    }
    assert(lv.take(lv.len() as int) =~= lv);
}

/// Appends the rows of the subgroup chunk `chunk` of the group `g` to `out`.
fn place_subgroup(g: &Vec<char>, chunk: &Vec<char>, out: &mut Vec<PlacedRow>)
    ensures
        views(final(out)@) == views(old(out)@) + placed_in_subgroup(g@, chunk@),
{
    match header_exec(chunk) {
        Some(sg) => {
            let ls = lines_exec(chunk);
            assert(ls@.map_values(|l: Vec<char>| l@) =~= lines_of(chunk@));
            place_rows(g, &sg, &ls, out);
        },
        None => {
            assert(views(out@) =~= views(out@) + Seq::<Placed>::empty());
        },
    }
}

/// Appends the rows of the group chunk `chunk` to `out`.
fn place_group(chunk: &Vec<char>, out: &mut Vec<PlacedRow>)
    ensures
        views(final(out)@) == views(old(out)@) + placed_in_group(chunk@),
{
    let g = match header_exec(chunk) {
        Some(g) => g,
        None => {
            assert(views(out@) =~= views(out@) + Seq::<Placed>::empty());
            return ;
        },
    };
    let mark = chars_of("# subgroup: ");
    proof {
        reveal_strlit("# subgroup: ");
        lemma_pieces_nonempty(chunk@, mark@, 0);
    }
    let cs = split_on_exec(chunk, &mark);
    let ghost cv = split_on(chunk@, subgroup_mark()).drop_first();
    let ghost start = views(out@);
    let mut i: usize = 1;
    while i < cs.len()
        invariant
            1 <= i <= cs@.len(),
            cv.len() == cs@.len() - 1,
            cs@.len() == split_on(chunk@, subgroup_mark()).len(),
            cv == split_on(chunk@, subgroup_mark()).drop_first(),
            forall|k: int| 0 <= k < cs@.len() ==> #[trigger] cs@[k]@ == split_on(chunk@, mark@)[k],
            mark@ == subgroup_mark(),
            views(out@) == start + placed_in_subgroups(g@, cv.take(i - 1)),
        decreases cs.len() - i,
    {
        assert(cv.take(i as int).drop_last() =~= cv.take(i - 1));
        assert(cv[i - 1] == split_on(chunk@, subgroup_mark())[i as int]);
        assert(cv.take(i as int).last() == cs@[i as int]@);
        place_subgroup(&g, &cs[i], out);
        assert(views(out@) =~= start + placed_in_subgroups(g@, cv.take(i as int)));
        i += 1;
    }
    assert(cv.take(cv.len() as int) =~= cv);
}

/// Every data row of `doc` that stands under a named group and subgroup, in document order.
fn placed_rows_exec(doc: &Vec<char>) -> (r: Vec<PlacedRow>)
    ensures
        views(r@) == placed_rows(doc@),
{
    let mut out: Vec<PlacedRow> = Vec::new();
    let mark = chars_of("# group: ");
    proof {
        reveal_strlit("# group: ");
        lemma_pieces_nonempty(doc@, mark@, 0);
    }
    let cs = split_on_exec(doc, &mark);
    let ghost cv = split_on(doc@, group_mark()).drop_first();
    let mut i: usize = 1;
    while i < cs.len()
        invariant
            1 <= i <= cs@.len(),
            cv.len() == cs@.len() - 1,
            cs@.len() == split_on(doc@, group_mark()).len(),
            cv == split_on(doc@, group_mark()).drop_first(),
            forall|k: int| 0 <= k < cs@.len() ==> #[trigger] cs@[k]@ == split_on(doc@, mark@)[k],
            mark@ == group_mark(),
            views(out@) == placed_in_groups(cv.take(i - 1)),
        decreases cs.len() - i,
    {
        assert(cv.take(i as int).drop_last() =~= cv.take(i - 1));
        assert(cv[i - 1] == split_on(doc@, group_mark())[i as int]);
        assert(cv.take(i as int).last() == cs@[i as int]@);
        place_group(&cs[i], &mut out);
        i += 1;
    }
    assert(cv.take(cv.len() as int) =~= cv);
    out
}

proof fn lemma_decode_placed_none_extends(ps: Seq<Placed>, n: int)
    requires
        0 <= n <= ps.len(),
        decode_placed(keep_only(ps.take(n))) is None,
    ensures
        decode_placed(keep_only(ps)) is None,
    decreases ps.len(),
{
    if n == ps.len() {
        assert(ps.take(n) =~= ps);
    } else {
        assert(ps.drop_last().take(n) =~= ps.take(n));
        lemma_decode_placed_none_extends(ps.drop_last(), n);
        if is_kept(ps.last().row.qual) {
            assert(keep_only(ps).drop_last() =~= keep_only(ps.drop_last()));
        }
    }
}

/// The entry for the placed row `p`, whose codepoints spell `text`.
fn make_entry(p: &PlacedRow, text: &Vec<char>) -> (e: EmoteEntry)
    ensures
        e@ == entry_of(p@, text@),
{
    let tags = vec![string_of(&p.subgroup)];
    let e = EmoteEntry {
        text: string_of(text),
        name: string_of(&p.row.name),
        group: string_of(&p.group),
        tags,
    };
    assert(e@.tags =~= seq![p@.subgroup]);
    e
}

/// The catalog entries for the placed rows `ps`: kept rows only, each decoded.
fn decode_rows(ps: &Vec<PlacedRow>) -> (r: Result<Vec<EmoteEntry>, ParseError>)
    ensures
        r matches Ok(es) ==> decode_placed(keep_only(views(ps@))) == Some(
            es@.map_values(|e: EmoteEntry| e@),
        ),
        r is Err ==> decode_placed(keep_only(views(ps@))) is None,
{
    let minimal = chars_of("minimally-qualified");
    let component = chars_of("component");
    let ghost pv = views(ps@);
    let mut out: Vec<EmoteEntry> = Vec::new();
    let mut i: usize = 0;
    while i < ps.len()
        invariant
            i <= ps@.len() == pv.len(),
            pv == views(ps@),
            minimal@ == "minimally-qualified"@,
            component@ == "component"@,
            decode_placed(keep_only(pv.take(i as int))) == Some(
                out@.map_values(|e: EmoteEntry| e@),
            ),
        decreases ps.len() - i,
    {
        let p = &ps[i];
        assert(pv.take(i + 1).drop_last() =~= pv.take(i as int));
        assert(pv.take(i + 1).last() == p@);
        if !eq_chars(&p.row.qual, &minimal) && !eq_chars(&p.row.qual, &component) {
            assert(keep_only(pv.take(i + 1)).drop_last() =~= keep_only(pv.take(i as int)));
            match decode_tokens(&p.row.tokens) {
                Some(text) => {
                    let ghost before = out@;
                    let e = make_entry(p, &text);
                    out.push(e);
                    assert(out@.map_values(|e: EmoteEntry| e@) =~= before.map_values(
                        |e: EmoteEntry| e@,
                    ).push(entry_of(p@, text@)));
                },
                None => {
                    proof {
                        lemma_decode_placed_none_extends(pv, i + 1);
                    }
                    return Err(ParseError::InvalidCodepoint);
                },
            }
        }
        i += 1;
    }
    assert(pv.take(pv.len() as int) =~= pv);
    Ok(out)
}

/// Reads the emoji test document `raw` into its catalog: one entry for each data row that
/// stands under a named group and subgroup and is neither minimally qualified nor a
/// component, in document order. Fails if such a row names a codepoint that is not
/// hexadecimal or not a Unicode scalar value.
pub fn parse_emoji_info(raw: &str) -> (r: Result<Vec<EmoteEntry>, ParseError>)
    ensures
        r matches Ok(es) ==> catalog(raw@) == Ok::<Seq<EntryView>, ParseError>(
            es@.map_values(|e: EmoteEntry| e@),
        ),
        r matches Err(e) ==> catalog(raw@) == Err::<Seq<EntryView>, ParseError>(e),
{
    let doc = chars_of(raw);
    let placed = placed_rows_exec(&doc);
    decode_rows(&placed)
}

/// How many rows of `ps` are minimally qualified or components.
pub open spec fn count_excluded(ps: Seq<Placed>) -> nat
    decreases ps.len(),
{
    if ps.len() == 0 {
        0
    } else if is_kept(ps.last().row.qual) {
        count_excluded(ps.drop_last())
    } else {
        count_excluded(ps.drop_last()) + 1
    }
}

proof fn lemma_keep_only_len(ps: Seq<Placed>)
    ensures
        keep_only(ps).len() + count_excluded(ps) == ps.len(),
        forall|k: int|
            0 <= k < keep_only(ps).len() ==> is_kept(#[trigger] keep_only(ps)[k].row.qual),
    decreases ps.len(),
{
    if ps.len() > 0 {
        lemma_keep_only_len(ps.drop_last());
    }
}

proof fn lemma_decode_placed_index(ps: Seq<Placed>)
    requires
        decode_placed(ps) is Some,
    ensures
        decode_placed(ps)->Some_0.len() == ps.len(),
        forall|k: int|
            0 <= k < ps.len() ==> decode_all(#[trigger] ps[k].row.tokens) is Some
                && decode_placed(ps)->Some_0[k] == entry_of(
                ps[k],
                decode_all(ps[k].row.tokens)->Some_0,
            ),
    decreases ps.len(),
{
    if ps.len() > 0 {
        let d = ps.drop_last();
        lemma_decode_placed_index(d);
        assert forall|k: int| 0 <= k < ps.len() - 1 implies #[trigger] ps[k] == d[k] by {}
    }
}

proof fn lemma_decode_placed_some(ps: Seq<Placed>)
    requires
        forall|k: int| 0 <= k < ps.len() ==> decode_all(#[trigger] ps[k].row.tokens) is Some,
    ensures
        decode_placed(ps) is Some,
    decreases ps.len(),
{
    if ps.len() > 0 {
        let d = ps.drop_last();
        assert forall|k: int| 0 <= k < d.len() implies decode_all(#[trigger] d[k].row.tokens) is Some by {
            assert(d[k] == ps[k]);
        }
        lemma_decode_placed_some(d);
    }
}

/// When every kept row's codepoints decode, the catalog succeeds, and it has one entry for
/// each data row whose qualification is neither minimally qualified nor component: as many
/// as the data rows less the excluded ones.
pub proof fn lemma_entry_count(doc: Seq<char>)
    requires
        forall|k: int|
            0 <= k < kept_rows(doc).len() ==> decode_all(#[trigger] kept_rows(doc)[k].row.tokens) is Some,
    ensures
        catalog(doc) is Ok,
        catalog(doc)->Ok_0.len() == kept_rows(doc).len(),
        catalog(doc)->Ok_0.len() + count_excluded(placed_rows(doc)) == placed_rows(doc).len(),
{
    lemma_decode_placed_some(kept_rows(doc));
    lemma_decode_placed_index(kept_rows(doc));
    lemma_keep_only_len(placed_rows(doc));
}

/// The entries come in the order of the kept rows, which is document order: group after
/// group, subgroup after subgroup within a group, line after line within a subgroup. Entry
/// `k` is the kept row `k`, with its group, its subgroup as the one tag, and its name.
pub proof fn lemma_document_order(doc: Seq<char>)
    requires
        catalog(doc) is Ok,
    ensures
        catalog(doc)->Ok_0.len() == kept_rows(doc).len(),
        forall|k: int|
            0 <= k < kept_rows(doc).len() ==> {
                let p = #[trigger] kept_rows(doc)[k];
                let e = catalog(doc)->Ok_0[k];
                &&& is_kept(p.row.qual)
                &&& Some(e.text) == decode_all(p.row.tokens)
                &&& e.name == p.row.name
                &&& e.group == p.group
                &&& e.tags == seq![p.subgroup]
            },
{
    lemma_decode_placed_index(kept_rows(doc));
    lemma_keep_only_len(placed_rows(doc));
}

/// Parsing is a function of the document alone: two parses of one document agree.
pub proof fn lemma_parse_deterministic(
    doc: Seq<char>,
    first: Result<Seq<EntryView>, ParseError>,
    second: Result<Seq<EntryView>, ParseError>,
)
    requires
        first == catalog(doc),
        second == catalog(doc),
    ensures
        first == second,
{
}

/// A document without any group marker has an empty catalog, and that is no error.
pub proof fn lemma_no_groups(doc: Seq<char>)
    requires
        forall|i: int| !occurs_at(doc, group_mark(), i),
    ensures
        catalog(doc) == Ok::<Seq<EntryView>, ParseError>(Seq::empty()),
{
    reveal_strlit("# group: ");
    lemma_find_from_bounds(doc, group_mark(), 0);
    let pieces = split_on(doc, group_mark());
    assert(pieces == seq![doc.subrange(0, doc.len() as int)]);
    assert(pieces.drop_first() =~= Seq::<Seq<char>>::empty());
    assert(placed_rows(doc) =~= Seq::<Placed>::empty());
    assert(kept_rows(doc) =~= Seq::<Placed>::empty());
}

/// For an entry whose row writes its codepoints as canonical tokens, writing the entry's
/// codepoints back in upper-case hexadecimal gives the row's token list again.
pub proof fn lemma_entry_round_trip(doc: Seq<char>, k: int)
    requires
        catalog(doc) is Ok,
        0 <= k < kept_rows(doc).len(),
        forall|j: int|
            0 <= j < kept_rows(doc)[k].row.tokens.len() ==> is_canonical_token(
                #[trigger] kept_rows(doc)[k].row.tokens[j],
            ),
    ensures
        k < catalog(doc)->Ok_0.len(),
        encode_all(catalog(doc)->Ok_0[k].text) == kept_rows(doc)[k].row.tokens,
{
    lemma_document_order(doc);
    let p = kept_rows(doc)[k];
    assert(decode_all(p.row.tokens) is Some);
    lemma_round_trip(p.row.tokens);
}

} // verus!
