use vstd::prelude::*;

verus! {

broadcast use vstd::string::group_string_axioms;

/// Unicode `White_Space`, the set that `char::is_whitespace` and `str::trim` use.
pub open spec fn is_ws(c: char) -> bool {
    let v = c as u32;
    ||| 0x09 <= v <= 0x0D
    ||| v == 0x20
    ||| v == 0x85
    ||| v == 0xA0
    ||| v == 0x1680
    ||| 0x2000 <= v <= 0x200A
    ||| v == 0x2028
    ||| v == 0x2029
    ||| v == 0x202F
    ||| v == 0x205F
    ||| v == 0x3000
}

/// Whether `c` is white space.
pub fn is_ws_exec(c: char) -> (r: bool)
    ensures
        r == is_ws(c),
{
    let v = c as u32;
    (0x09 <= v && v <= 0x0D) || v == 0x20 || v == 0x85 || v == 0xA0 || v == 0x1680 || (0x2000
        <= v && v <= 0x200A) || v == 0x2028 || v == 0x2029 || v == 0x202F || v == 0x205F || v
        == 0x3000
}

/// Relies on `char::is_alphanumeric`: whether `c` is alphabetic or numeric.
#[verifier::external_body]
fn is_alphanumeric(c: char) -> (r: bool)
    ensures
        r == alphanumeric(c),
{
    c.is_alphanumeric()
}

/// What `char::is_alphanumeric` answers for `c`.
pub uninterp spec fn alphanumeric(c: char) -> bool;

/// The classes of characters that the row grammar reads in runs.
pub enum Class {
    /// ASCII decimal digits.
    Digit,
    /// White space.
    Space,
    /// Word characters and hyphens: a qualification token.
    Qual,
    /// Word characters and spaces: an emoji name.
    Name,
}

/// Word characters: `_` and alphanumeric characters.
pub open spec fn is_word(c: char) -> bool {
    c == '_' || alphanumeric(c)
}

/// Whether `c` belongs to the class `k`.
pub open spec fn in_class(k: Class, c: char) -> bool {
    match k {
        Class::Digit => '0' <= c <= '9',
        Class::Space => is_ws(c),
        Class::Qual => is_word(c) || c == '-',
        Class::Name => is_word(c) || c == ' ',
    }
}

/// Whether `c` belongs to the class `k`.
pub fn in_class_exec(k: &Class, c: char) -> (r: bool)
    ensures
        r == in_class(*k, c),
{
    match k {
        Class::Digit => '0' <= c && c <= '9',
        Class::Space => is_ws_exec(c),
        Class::Qual => c == '_' || c == '-' || is_alphanumeric(c),
        Class::Name => c == '_' || c == ' ' || is_alphanumeric(c),
    }
}

/// End of the run of characters of class `k` that starts at `i`.
pub open spec fn run_end(s: Seq<char>, i: int, k: Class) -> int
    decreases s.len() - i,
{
    if i < 0 || i >= s.len() || !in_class(k, s[i]) {
        i
    } else {
        run_end(s, i + 1, k)
    }
}

/// End of the run of characters of class `k` that starts at `i`.
pub fn run_end_exec(s: &Vec<char>, i: usize, k: &Class) -> (r: usize)
    requires
        i <= s.len(),
    ensures
        r == run_end(s@, i as int, *k),
        i <= r <= s.len(),
        r < s.len() ==> !in_class(*k, s@[r as int]),
        forall|j: int| i <= j < r ==> in_class(*k, #[trigger] s@[j]),
{
    let mut j: usize = i;
    while j < s.len() && in_class_exec(k, s[j])
        invariant
            i <= j <= s.len(),
            forall|t: int| i <= t < j ==> in_class(*k, #[trigger] s@[t]),
            run_end(s@, i as int, *k) == run_end(s@, j as int, *k),
        decreases s.len() - j,
    {
        j += 1;
    }
    j
}

/// Start of the run of white space that ends at `hi`.
pub open spec fn ws_start_back(s: Seq<char>, hi: int) -> int
    decreases hi,
{
    if hi <= 0 || hi > s.len() || !is_ws(s[hi - 1]) {
        hi
    } else {
        ws_start_back(s, hi - 1)
    }
}

/// `s` without leading and trailing white space.
pub open spec fn trim(s: Seq<char>) -> Seq<char> {
    let lo = run_end(s, 0, Class::Space);
    if lo >= s.len() {
        Seq::empty()
    } else {
        s.subrange(lo, ws_start_back(s, s.len() as int))
    }
}

/// Whether `m` occurs in `s` at index `i`.
pub open spec fn occurs_at(s: Seq<char>, m: Seq<char>, i: int) -> bool {
    0 <= i && i + m.len() <= s.len() && s.subrange(i, i + m.len()) == m
}

/// Index of the first occurrence of `m` in `s` at or after `i`.
pub open spec fn find_from(s: Seq<char>, m: Seq<char>, i: int) -> Option<int>
    decreases s.len() + 1 - i,
{
    if i < 0 || i + m.len() > s.len() {
        None
    } else if occurs_at(s, m, i) {
        Some(i)
    } else {
        find_from(s, m, i + 1)
    }
}

/// The pieces of `s[start..]` between the occurrences of `m`, leftmost first.
pub open spec fn pieces_from(s: Seq<char>, m: Seq<char>, start: int) -> Seq<Seq<char>>
    decreases s.len() - start,
{
    if start < 0 || start > s.len() || m.len() == 0 {
        Seq::empty()
    } else if let Some(p) = find_from(s, m, start) {
        if start <= p && p + m.len() <= s.len() {
            seq![s.subrange(start, p)] + pieces_from(s, m, p + m.len())
        } else {
            Seq::empty()
        }
    } else {
        seq![s.subrange(start, s.len() as int)]
    }
}

/// `s` split at each occurrence of the non-empty marker `m`.
pub open spec fn split_on(s: Seq<char>, m: Seq<char>) -> Seq<Seq<char>> {
    pieces_from(s, m, 0)
}

/// The lines of `s`, split at each line feed.
pub open spec fn lines_of(s: Seq<char>) -> Seq<Seq<char>> {
    split_on(s, seq!['\n'])
}

/// A found occurrence lies at or after `i`; none found means none at or after `i`.
pub proof fn lemma_find_from_bounds(s: Seq<char>, m: Seq<char>, i: int)
    requires
        0 <= i,
    ensures
        find_from(s, m, i) matches Some(p) ==> i <= p && occurs_at(s, m, p),
        find_from(s, m, i) is None ==> forall|j: int| i <= j ==> !occurs_at(s, m, j),
    decreases s.len() + 1 - i,
{
    if i < 0 || i + m.len() > s.len() {
        assert forall|j: int| i <= j implies !occurs_at(s, m, j) by {}
    } else if !occurs_at(s, m, i) {
        lemma_find_from_bounds(s, m, i + 1);
    }
}

/// Splitting yields at least one piece.
pub proof fn lemma_pieces_nonempty(s: Seq<char>, m: Seq<char>, start: int)
    requires
        0 <= start <= s.len(),
        m.len() > 0,
    ensures
        pieces_from(s, m, start).len() >= 1,
    decreases s.len() - start,
{
    lemma_find_from_bounds(s, m, start);
    if let Some(p) = find_from(s, m, start) {
        lemma_pieces_nonempty(s, m, p + m.len());
    }
}

/// The characters of a string slice, in order.
pub fn chars_of(s: &str) -> (r: Vec<char>)
    ensures
        r@ == s@,
{
    let mut v: Vec<char> = Vec::new();
    for c in it: s.chars()
        invariant
            v@ == it.seq().take(it.index() as int),
    {
        v.push(c);
    }
    v
}

/// Relies on `String::push`: appends one character.
#[verifier::external_body]
fn push_char(s: &mut String, c: char)
    ensures
        final(s)@ == old(s)@.push(c),
{
    s.push(c);
}

/// A string holding the characters of `v`.
pub fn string_of(v: &Vec<char>) -> (r: String)
    ensures
        r@ == v@,
{
    let mut s = String::new();
    let mut i: usize = 0;
    while i < v.len()
        invariant
            i <= v.len(),
            s@ == v@.take(i as int),
        decreases v.len() - i,
    {
        push_char(&mut s, v[i]);
        i += 1;
        assert(s@ =~= v@.take(i as int));
    }
    assert(v@.take(v.len() as int) =~= v@);
    s
}

/// A copy of `v[lo..hi]`.
pub fn copy_range(v: &Vec<char>, lo: usize, hi: usize) -> (r: Vec<char>)
    requires
        lo <= hi <= v.len(),
    ensures
        r@ == v@.subrange(lo as int, hi as int),
{
    let mut r: Vec<char> = Vec::new();
    let mut i: usize = lo;
    while i < hi
        invariant
            lo <= i <= hi <= v.len(),
            r@ == v@.subrange(lo as int, i as int),
        decreases hi - i,
    {
        r.push(v[i]);
        i += 1;
        assert(r@ =~= v@.subrange(lo as int, i as int));
    }
    r
}


/// Whether `m` occurs in `s` at index `i`.
pub fn occurs_at_exec(s: &Vec<char>, m: &Vec<char>, i: usize) -> (r: bool)
    ensures
        r == occurs_at(s@, m@, i as int),
{
    if i > s.len() || m.len() > s.len() - i {
        return false;
    }
    let mut k: usize = 0;
    while k < m.len()
        invariant
            i + m.len() <= s.len(),
            k <= m.len(),
            forall|j: int| 0 <= j < k ==> s@[i + j] == m@[j],
        decreases m.len() - k,
    {
        if s[i + k] != m[k] {
            assert(s@.subrange(i as int, i + m.len())[k as int] != m@[k as int]);
            return false;
        }
        k += 1;
    }
    assert(s@.subrange(i as int, i + m.len()) =~= m@);
    true
}

/// `s` split at each occurrence of the non-empty marker `m`.
pub fn split_on_exec(s: &Vec<char>, m: &Vec<char>) -> (r: Vec<Vec<char>>)
    requires
        m@.len() > 0,
    ensures
        r@.len() == split_on(s@, m@).len(),
        forall|k: int| 0 <= k < r@.len() ==> #[trigger] r@[k]@ == split_on(s@, m@)[k],
{
    let mut r: Vec<Vec<char>> = Vec::new();
    let ghost mut done: Seq<Seq<char>> = Seq::empty();
    let mut start: usize = 0;
    let mut i: usize = 0;
    while i <= s.len() && m.len() <= s.len() - i
        invariant
            0 < m@.len(),
            start <= i <= s.len(),
            find_from(s@, m@, start as int) == find_from(s@, m@, i as int),
            split_on(s@, m@) == done + pieces_from(s@, m@, start as int),
            r@.len() == done.len(),
            forall|k: int| 0 <= k < r@.len() ==> #[trigger] r@[k]@ == done[k],
        decreases s.len() - i,
    {
        if occurs_at_exec(s, m, i) {
            let piece = copy_range(s, start, i);
            let ghost rest = pieces_from(s@, m@, (i + m.len()) as int);
            assert(pieces_from(s@, m@, start as int) == seq![piece@] + rest);
            proof {
                assert(done + pieces_from(s@, m@, start as int) =~= done.push(piece@) + rest);
                done = done.push(piece@);
            }
            r.push(piece);
            start = i + m.len();
            i = start;
        } else {
            i += 1;
        }
    }
    let piece = copy_range(s, start, s.len());
    assert(pieces_from(s@, m@, start as int) == seq![piece@]);
    proof {
        assert(done + pieces_from(s@, m@, start as int) =~= done.push(piece@));
        done = done.push(piece@);
    }
    r.push(piece);
    r
}

/// `s` without leading and trailing white space.
pub fn trim_exec(s: &Vec<char>) -> (r: Vec<char>)
    ensures
        r@ == trim(s@),
{
    let lo = run_end_exec(s, 0, &Class::Space);
    if lo >= s.len() {
        return Vec::new();
    }
    let mut hi: usize = s.len();
    while hi > lo && is_ws_exec(s[hi - 1])
        invariant
            lo < s.len(),
            !is_ws(s@[lo as int]),
            lo < hi <= s.len(),
            ws_start_back(s@, s.len() as int) == ws_start_back(s@, hi as int),
        decreases hi,
    {
        hi -= 1;
    }
    copy_range(s, lo, hi)
}

/// Index of the first occurrence of `m` in `s` at or after `i`.
pub fn find_exec(s: &Vec<char>, m: &Vec<char>, i: usize) -> (r: Option<usize>)
    requires
        i <= s@.len(),
        m@.len() > 0,
    ensures
        r matches Some(p) ==> find_from(s@, m@, i as int) == Some(p as int),
        r is None ==> find_from(s@, m@, i as int) is None,
{
    let mut j: usize = i;
    while j <= s.len() && m.len() <= s.len() - j
        invariant
            i <= j <= s@.len(),
            m@.len() > 0,
            find_from(s@, m@, i as int) == find_from(s@, m@, j as int),
        decreases s.len() - j,
    {
        if occurs_at_exec(s, m, j) {
            return Some(j);
        }
        j += 1;
    }
    None
}

} // verus!
