//! The filter predicate and the parsers of selection and position-sort strings.
use vstd::prelude::*;
use crate::errors::WindowError;
use crate::text::{
    chars_of, contains_substring, is_substring, lower_of, lowercase, trim, trimmed,
};
use crate::types::{FilterCriteria, PositionSort, Selection, WindowInfo};

verus! {

// ---------------------------------------------------------------- filtering

/// A text field meets an optional "contains, ignoring case" criterion.
pub open spec fn text_criterion_holds(field: Seq<char>, filter: Option<String>) -> bool {
    match filter {
        None => true,
        Some(f) => f@.len() == 0 || is_substring(lower_of(f@), lower_of(field)),
    }
}

/// A window meets every criterion that is present and not empty.
pub open spec fn meets(w: WindowInfo, c: FilterCriteria) -> bool {
    &&& (c.pid matches Some(p) ==> w.pid == p)
    &&& text_criterion_holds(w.title@, c.title_contains)
    &&& text_criterion_holds(w.class_name@, c.class_name_contains)
    &&& text_criterion_holds(w.process_name@, c.process_name_contains)
    &&& text_criterion_holds(w.process_file@, c.process_file_contains)
}

fn text_criterion(field: &String, filter: &Option<String>) -> (r: bool)
    ensures
        r == text_criterion_holds(field@, *filter),
{
    match filter {
        None => true,
        Some(f) => {
            if f.as_str().is_empty() {
                true
            } else {
                let hay = lowercase(field.as_str());
                let needle = lowercase(f.as_str());
                contains_substring(hay.as_str(), needle.as_str())
            }
        },
    }
}

/// Whether `window` meets all of `criteria`: the process id exactly, the
/// texts as substrings ignoring case; absent or empty criteria always hold.
pub fn matches_criteria(window: &WindowInfo, criteria: &FilterCriteria) -> (r: bool)
    ensures
        r == meets(*window, *criteria),
{
    if let Some(pid) = criteria.pid {
        if window.pid != pid {
            return false;
        }
    }
    if !text_criterion(&window.title, &criteria.title_contains) {
        return false;
    }
    if !text_criterion(&window.class_name, &criteria.class_name_contains) {
        return false;
    }
    if !text_criterion(&window.process_name, &criteria.process_name_contains) {
        return false;
    }
    text_criterion(&window.process_file, &criteria.process_file_contains)
}

/// The windows of `ws` that meet `c`, in their order in `ws`.
pub open spec fn filtered(ws: Seq<WindowInfo>, c: FilterCriteria) -> Seq<WindowInfo> {
    ws.filter(|w: WindowInfo| meets(w, c))
}

/// Copies of the windows that meet `criteria`, in their order.
pub(crate) fn filter_matching(windows: &[WindowInfo], criteria: &FilterCriteria) -> (r: Vec<
    WindowInfo,
>)
    ensures
        r@ == filtered(windows@, *criteria),
{
    let mut out: Vec<WindowInfo> = Vec::new();
    let mut i: usize = 0;
    assert(windows@.take(0) =~= Seq::<WindowInfo>::empty());
    proof {
        reveal(Seq::filter);
    }
    while i < windows.len()
        invariant
            i <= windows@.len(),
            out@ == filtered(windows@.take(i as int), *criteria),
        decreases windows@.len() - i,
    {
        let w = &windows[i];
        proof {
            reveal(Seq::filter);
            assert(windows@.take(i + 1).drop_last() =~= windows@.take(i as int));
            assert(windows@.take(i + 1).last() == windows@[i as int]);
        }
        if matches_criteria(w, criteria) {
            out.push(w.clone());
        }
        i = i + 1;
    }
    assert(windows@.take(i as int) =~= windows@);
    out
}

proof fn lemma_filter_twice(s: Seq<WindowInfo>, p: spec_fn(WindowInfo) -> bool, q: spec_fn(WindowInfo) -> bool)
    ensures
        s.filter(p).filter(q) == s.filter(|w: WindowInfo| p(w) && q(w)),
    decreases s.len(),
{
    reveal(Seq::filter);
    if s.len() > 0 {
        lemma_filter_twice(s.drop_last(), p, q);
        let sp = s.filter(p);
        if p(s.last()) {
            assert(sp.drop_last() =~= s.drop_last().filter(p));
        } else {
            assert(sp =~= s.drop_last().filter(p));
        }
    }
}

/// Criteria that keep only the process-id criterion of `c`.
pub open spec fn pid_only(c: FilterCriteria) -> FilterCriteria {
    FilterCriteria {
        pid: c.pid,
        title_contains: None,
        class_name_contains: None,
        process_name_contains: None,
        process_file_contains: None,
    }
}

/// Criteria that keep only the title criterion of `c`.
pub open spec fn title_only(c: FilterCriteria) -> FilterCriteria {
    FilterCriteria {
        pid: None,
        title_contains: c.title_contains,
        class_name_contains: None,
        process_name_contains: None,
        process_file_contains: None,
    }
}

/// Criteria that keep only the class-name criterion of `c`.
pub open spec fn class_only(c: FilterCriteria) -> FilterCriteria {
    FilterCriteria {
        pid: None,
        title_contains: None,
        class_name_contains: c.class_name_contains,
        process_name_contains: None,
        process_file_contains: None,
    }
}

/// Criteria that keep only the process-name criterion of `c`.
pub open spec fn process_only(c: FilterCriteria) -> FilterCriteria {
    FilterCriteria {
        pid: None,
        title_contains: None,
        class_name_contains: None,
        process_name_contains: c.process_name_contains,
        process_file_contains: None,
    }
}

/// Criteria that keep only the process-file criterion of `c`.
pub open spec fn file_only(c: FilterCriteria) -> FilterCriteria {
    FilterCriteria {
        pid: None,
        title_contains: None,
        class_name_contains: None,
        process_name_contains: None,
        process_file_contains: c.process_file_contains,
    }
}

/// Filtering by `a` and then by `b` keeps exactly the windows that meet
/// both, in their order.
pub proof fn lemma_filter_then_filter(ws: Seq<WindowInfo>, a: FilterCriteria, b: FilterCriteria)
    ensures
        filtered(filtered(ws, a), b) == ws.filter(|w: WindowInfo| meets(w, a) && meets(w, b)),
{
    let p = |w: WindowInfo| meets(w, a);
    let q = |w: WindowInfo| meets(w, b);
    lemma_filter_twice(ws, p, q);
    assert(filtered(ws, a) == ws.filter(p)) by {
        assert(p =~= (|w: WindowInfo| meets(w, a)));
    }
    assert(filtered(ws.filter(p), b) == ws.filter(p).filter(q)) by {
        assert(q =~= (|w: WindowInfo| meets(w, b)));
    }
    assert((|w: WindowInfo| p(w) && q(w)) =~= (|w: WindowInfo| meets(w, a) && meets(w, b)));
}

/// Filtering a second time by the same criteria changes nothing.
pub proof fn lemma_filter_idempotent(ws: Seq<WindowInfo>, c: FilterCriteria)
    ensures
        filtered(filtered(ws, c), c) == filtered(ws, c),
{
    lemma_filter_then_filter(ws, c, c);
    assert((|w: WindowInfo| meets(w, c) && meets(w, c)) =~= (|w: WindowInfo| meets(w, c)));
}

/// Two filters give the same windows in either order.
pub proof fn lemma_filter_commutes(ws: Seq<WindowInfo>, a: FilterCriteria, b: FilterCriteria)
    ensures
        filtered(filtered(ws, a), b) == filtered(filtered(ws, b), a),
{
    lemma_filter_then_filter(ws, a, b);
    lemma_filter_then_filter(ws, b, a);
    assert((|w: WindowInfo| meets(w, a) && meets(w, b)) =~= (|w: WindowInfo|
        meets(w, b) && meets(w, a)));
}

/// Filtering by `c` is filtering by each of its criteria in turn; by
/// `lemma_filter_commutes` the turn order does not matter.
pub proof fn lemma_filter_by_fields(ws: Seq<WindowInfo>, c: FilterCriteria)
    ensures
        filtered(ws, c) == filtered(
            filtered(
                filtered(filtered(filtered(ws, pid_only(c)), title_only(c)), class_only(c)),
                process_only(c),
            ),
            file_only(c),
        ),
{
    lemma_filter_then_filter(ws, pid_only(c), title_only(c));
    let f2 = |w: WindowInfo| meets(w, pid_only(c)) && meets(w, title_only(c));
    let g3 = |w: WindowInfo| meets(w, class_only(c));
    let g4 = |w: WindowInfo| meets(w, process_only(c));
    let g5 = |w: WindowInfo| meets(w, file_only(c));
    assert(g3 =~= (|w: WindowInfo| meets(w, class_only(c))));
    assert(g4 =~= (|w: WindowInfo| meets(w, process_only(c))));
    assert(g5 =~= (|w: WindowInfo| meets(w, file_only(c))));
    lemma_filter_twice(ws, f2, g3);
    let f3 = |w: WindowInfo| f2(w) && g3(w);
    lemma_filter_twice(ws, f3, g4);
    let f4 = |w: WindowInfo| f3(w) && g4(w);
    lemma_filter_twice(ws, f4, g5);
    let f5 = |w: WindowInfo| f4(w) && g5(w);
    assert(filtered(ws.filter(f2), class_only(c)) == ws.filter(f2).filter(g3));
    assert(filtered(ws.filter(f3), process_only(c)) == ws.filter(f3).filter(g4));
    assert(filtered(ws.filter(f4), file_only(c)) == ws.filter(f4).filter(g5));
    assert(f5 =~= (|w: WindowInfo| meets(w, c)));
}

// ---------------------------------------------------------------- splitting

/// The pieces of `s` between occurrences of `sep`; a text without `sep`
/// is one piece, and the empty text is one empty piece.
pub open spec fn split_on(s: Seq<char>, sep: char) -> Seq<Seq<char>>
    decreases s.len(),
{
    if s.len() == 0 {
        seq![Seq::<char>::empty()]
    } else {
        let init = split_on(s.drop_last(), sep);
        if s.last() == sep {
            init.push(Seq::<char>::empty())
        } else {
            init.update(init.len() - 1, init.last().push(s.last()))
        }
    }
}

/// The views of a sequence of text slices.
pub open spec fn views_of(v: Seq<&str>) -> Seq<Seq<char>> {
    Seq::new(v.len(), |i: int| v[i]@)
}

/// The pieces of `s` between occurrences of `sep`.
pub fn split_text(s: &str, sep: char) -> (r: Vec<&str>)
    ensures
        views_of(r@) == split_on(s@, sep),
{
    let v = chars_of(s);
    let n = v.len();
    let mut parts: Vec<&str> = Vec::new();
    let mut start: usize = 0;
    let mut i: usize = 0;
    assert(v@.take(0) =~= Seq::<char>::empty());
    assert(views_of(parts@).push(v@.subrange(0, 0)) =~= split_on(v@.take(0), sep));
    while i < n
        invariant
            n == v@.len(),
            v@ == s@,
            start <= i <= n,
            views_of(parts@).push(v@.subrange(start as int, i as int)) == split_on(
                v@.take(i as int),
                sep,
            ),
        decreases n - i,
    {
        let ghost before = split_on(v@.take(i as int), sep);
        let ghost old_parts = views_of(parts@);
        let ghost t1 = v@.take(i + 1);
        assert(t1.drop_last() =~= v@.take(i as int));
        assert(t1.last() == v@[i as int]);
        assert(before == old_parts.push(v@.subrange(start as int, i as int)));
        if v[i] == sep {
            let piece = s.substring_char(start, i);
            parts.push(piece);
            assert(views_of(parts@) =~= old_parts.push(piece@));
            assert(split_on(t1, sep) == before.push(Seq::<char>::empty()));
            i = i + 1;
            start = i;
            assert(v@.subrange(start as int, i as int) =~= Seq::<char>::empty());
        } else {
            assert(split_on(t1, sep) == before.update(
                before.len() - 1,
                before.last().push(v@[i as int]),
            ));
            assert(v@.subrange(start as int, i + 1) =~= v@.subrange(start as int, i as int).push(
                v@[i as int],
            ));
            i = i + 1;
            assert(views_of(parts@).push(v@.subrange(start as int, i as int)) =~= split_on(
                t1,
                sep,
            ));
        }
    }
    let piece = s.substring_char(start, n);
    parts.push(piece);
    assert(v@.take(n as int) =~= v@);
    assert(views_of(parts@) =~= split_on(s@, sep));
    parts
}

/// Whether `c` occurs in `s`.
pub fn contains_char(s: &str, c: char) -> (r: bool)
    ensures
        r == s@.contains(c),
{
    let v = chars_of(s);
    let mut i: usize = 0;
    while i < v.len()
        invariant
            v@ == s@,
            i <= v@.len(),
            forall|j: int| 0 <= j < i ==> v@[j] != c,
        decreases v@.len() - i,
    {
        if v[i] == c {
            return true;
        }
        i = i + 1;
    }
    false
}

// ---------------------------------------------------------------- indices

/// A decimal digit.
pub open spec fn is_digit(c: char) -> bool {
    '0' <= c && c <= '9'
}

/// The number that a sequence of decimal digits denotes.
pub open spec fn digits_value(d: Seq<char>) -> int
    decreases d.len(),
{
    if d.len() == 0 {
        0
    } else {
        10 * digits_value(d.drop_last()) + (d.last() as int - 48)
    }
}

/// The digits of an index text: the text without one leading `+`.
pub open spec fn index_digits(s: Seq<char>) -> Seq<char> {
    if s.len() > 0 && s[0] == '+' {
        s.drop_first()
    } else {
        s
    }
}

/// The index that a text denotes, if it is one: an optional `+`, then one
/// or more decimal digits whose value fits in `usize`.
pub open spec fn index_value(s: Seq<char>) -> Option<int> {
    let d = index_digits(s);
    if d.len() > 0 && (forall|i: int| 0 <= i < d.len() ==> is_digit(d[i])) && digits_value(d)
        <= usize::MAX {
        Some(digits_value(d))
    } else {
        None
    }
}

proof fn lemma_digits_value_grows(d: Seq<char>, i: int)
    requires
        0 <= i <= d.len(),
        forall|j: int| 0 <= j < d.len() ==> is_digit(d[j]),
    ensures
        digits_value(d.take(i)) <= digits_value(d),
        digits_value(d) >= 0,
    decreases d.len(),
{
    if d.len() > 0 {
        if i == d.len() {
            assert(d.take(i) =~= d);
            lemma_digits_value_grows(d.drop_last(), 0);
        } else {
            lemma_digits_value_grows(d.drop_last(), i);
            assert(d.drop_last().take(i) =~= d.take(i));
        }
    } else {
        assert(d.take(i) =~= d);
    }
}

/// Parses a non-negative index: an optional `+` and decimal digits, whose
/// value fits in `usize`.
pub fn parse_index(s: &str) -> (r: Result<usize, WindowError>)
    ensures
        r is Ok <==> index_value(s@) is Some,
        r matches Ok(n) ==> index_value(s@) == Some(n as int),
        r is Err ==> r == Err::<usize, WindowError>(WindowError::InvalidIndex),
{
    let v = chars_of(s);
    let n = v.len();
    let mut i: usize = 0;
    if n > 0 && v[0] == '+' {
        i = 1;
    }
    let ghost d = index_digits(s@);
    assert(d =~= v@.subrange(i as int, n as int));
    if i == n {
        return Err(WindowError::InvalidIndex);
    }
    let first = i;
    let mut acc: usize = 0;
    while i < n
        invariant
            n == v@.len(),
            v@ == s@,
            first <= i <= n,
            d == v@.subrange(first as int, n as int),
            forall|j: int| first <= j < i ==> is_digit(v@[j]),
            acc == digits_value(d.take(i - first)),
            d == index_digits(s@),
        decreases n - i,
    {
        let c = v[i];
        if !('0' <= c && c <= '9') {
            assert(!is_digit(d[i - first]));
            return Err(WindowError::InvalidIndex);
        }
        let digit = ((c as u32) - 48) as usize;
        assert(d.take(i + 1 - first).drop_last() =~= d.take(i - first));
        let ghost next = digits_value(d.take(i + 1 - first));
        assert(next == 10 * acc + digit);
        match acc.checked_mul(10) {
            None => {
                proof {
                    lemma_value_too_large(d, v@, first as int, i as int, n as int);
                }
                return Err(WindowError::InvalidIndex);
            },
            Some(m) => match m.checked_add(digit) {
                None => {
                    proof {
                        lemma_value_too_large(d, v@, first as int, i as int, n as int);
                    }
                    return Err(WindowError::InvalidIndex);
                },
                Some(a) => {
                    acc = a;
                },
            },
        }
        i = i + 1;
    }
    assert(d.take(n - first) =~= d);
    Ok(acc)
}

proof fn lemma_value_too_large(d: Seq<char>, v: Seq<char>, first: int, i: int, n: int)
    requires
        0 <= first <= i < n,
        n == v.len(),
        d == v.subrange(first, n),
        digits_value(d.take(i + 1 - first)) > usize::MAX,
    ensures
        index_value_fails(d),
{
    if forall|j: int| 0 <= j < d.len() ==> is_digit(d[j]) {
        lemma_digits_value_grows(d, i + 1 - first);
    }
}

/// A digit text that does not denote an index.
spec fn index_value_fails(d: Seq<char>) -> bool {
    !(d.len() > 0 && (forall|i: int| 0 <= i < d.len() ==> is_digit(d[i])) && digits_value(d)
        <= usize::MAX)
}

// ---------------------------------------------------------------- position sort

/// The direction that one part of a position-sort text gives for the
/// coordinate named `prefix`: the part is `prefix` followed by `1` or `-1`.
pub open spec fn order_spec(p: Seq<char>, prefix: char) -> Result<i8, WindowError> {
    if p.len() < 2 || p[0] != prefix {
        Err(WindowError::InvalidPositionSortFormat)
    } else if p.drop_first() == seq!['1'] {
        Ok(1i8)
    } else if p.drop_first() == seq!['-', '1'] {
        Ok(-1i8)
    } else {
        Err(WindowError::InvalidSortOrder)
    }
}

/// Reads the direction of one coordinate, as in `x1` or `y-1`.
pub fn parse_single_position_order(part: &str, expected_prefix: char) -> (r: Result<
    i8,
    WindowError,
>)
    ensures
        r == order_spec(part@, expected_prefix),
{
    let v = chars_of(part);
    if v.len() < 2 || v[0] != expected_prefix {
        return Err(WindowError::InvalidPositionSortFormat);
    }
    let ghost rest = v@.drop_first();
    assert(rest.len() == v@.len() - 1);
    assert(forall|i: int| 0 <= i < rest.len() ==> rest[i] == v@[i + 1]);
    if v.len() == 2 && v[1] == '1' {
        assert(rest =~= seq!['1']);
        return Ok(1);
    }
    if v.len() == 3 && v[1] == '-' && v[2] == '1' {
        assert(rest =~= seq!['-', '1']);
        return Ok(-1);
    }
    assert(rest != seq!['1']) by {
        if rest == seq!['1'] {
            assert(rest[0] == '1');
        }
    }
    assert(rest != seq!['-', '1']) by {
        if rest == seq!['-', '1'] {
            assert(rest[0] == '-' && rest[1] == '1');
        }
    }
    Err(WindowError::InvalidSortOrder)
}

/// The position sort that an already trimmed, lower-case text describes:
/// empty for none, `x1`, `y-1` and the like for one coordinate, and
/// `x..|y..` for both.
pub open spec fn position_sort_spec(t: Seq<char>) -> Result<Option<PositionSort>, WindowError> {
    if t.len() == 0 {
        Ok(None)
    } else if t.contains('|') {
        let parts = split_on(t, '|');
        if parts.len() != 2 {
            Err(WindowError::InvalidPositionSortFormat)
        } else {
            match order_spec(trimmed(parts[0]), 'x') {
                Err(e) => Err(e),
                Ok(xo) => match order_spec(trimmed(parts[1]), 'y') {
                    Err(e) => Err(e),
                    Ok(yo) => Ok(Some(PositionSort::XY(xo, yo))),
                },
            }
        }
    } else if t[0] == 'x' {
        match order_spec(t, 'x') {
            Err(e) => Err(e),
            Ok(o) => Ok(Some(PositionSort::X(o))),
        }
    } else if t[0] == 'y' {
        match order_spec(t, 'y') {
            Err(e) => Err(e),
            Ok(o) => Ok(Some(PositionSort::Y(o))),
        }
    } else {
        Err(WindowError::InvalidPositionSortFormat)
    }
}

proof fn lemma_split_nonempty(s: Seq<char>, sep: char)
    ensures
        split_on(s, sep).len() >= 1,
    decreases s.len(),
{
    if s.len() > 0 {
        lemma_split_nonempty(s.drop_last(), sep);
    }
}

proof fn lemma_split_without_sep(s: Seq<char>, sep: char)
    requires
        !s.contains(sep),
    ensures
        split_on(s, sep) == seq![s],
    decreases s.len(),
{
    if s.len() > 0 {
        assert(!s.drop_last().contains(sep)) by {
            if s.drop_last().contains(sep) {
                let i = choose|i: int| 0 <= i < s.drop_last().len() && s.drop_last()[i] == sep;
                assert(s[i] == sep);
            }
        }
        lemma_split_without_sep(s.drop_last(), sep);
        assert(s.last() != sep) by {
            assert(s[s.len() - 1] == s.last());
        }
        assert(s.drop_last().push(s.last()) =~= s);
        assert(seq![s.drop_last()].update(0, s.drop_last().push(s.last())) =~= seq![s]);
    } else {
        assert(s =~= Seq::<char>::empty());
    }
}

proof fn lemma_split_concat(a: Seq<char>, b: Seq<char>, sep: char)
    ensures
        split_on(a + seq![sep] + b, sep) == split_on(a, sep) + split_on(b, sep),
    decreases b.len(),
{
    let s = a + seq![sep] + b;
    if b.len() == 0 {
        assert(s.drop_last() =~= a);
        assert(split_on(a, sep).push(Seq::<char>::empty()) =~= split_on(a, sep) + seq![
            Seq::<char>::empty(),
        ]);
    } else {
        lemma_split_concat(a, b.drop_last(), sep);
        lemma_split_nonempty(b.drop_last(), sep);
        assert(s.drop_last() =~= a + seq![sep] + b.drop_last());
        assert(s.last() == b.last());
        let pa = split_on(a, sep);
        let pb = split_on(b.drop_last(), sep);
        if b.last() == sep {
            assert((pa + pb).push(Seq::<char>::empty()) =~= pa + pb.push(Seq::<char>::empty()));
        } else {
            assert((pa + pb).update((pa + pb).len() - 1, (pa + pb).last().push(b.last())) =~= pa
                + pb.update(pb.len() - 1, pb.last().push(b.last())));
        }
    }
}

/// The pieces joined back together, `sep` between each two.
pub open spec fn joined(ps: Seq<Seq<char>>, sep: char) -> Seq<char>
    decreases ps.len(),
{
    if ps.len() <= 1 {
        if ps.len() == 1 {
            ps[0]
        } else {
            Seq::empty()
        }
    } else {
        joined(ps.drop_last(), sep) + seq![sep] + ps.last()
    }
}

proof fn lemma_split_pieces(s: Seq<char>, sep: char)
    ensures
        split_on(s, sep).len() >= 1,
        joined(split_on(s, sep), sep) == s,
        forall|i: int|
            0 <= i < split_on(s, sep).len() ==> !(#[trigger] split_on(s, sep)[i]).contains(sep),
    decreases s.len(),
{
    lemma_split_nonempty(s, sep);
    if s.len() == 0 {
        assert(split_on(s, sep)[0] =~= Seq::<char>::empty());
        assert(s =~= Seq::<char>::empty());
    } else {
        let init = split_on(s.drop_last(), sep);
        let ps = split_on(s, sep);
        lemma_split_pieces(s.drop_last(), sep);
        let c = s.last();
        if c == sep {
            assert(ps.drop_last() =~= init);
            assert(joined(ps, sep) =~= s.drop_last() + seq![sep] + Seq::<char>::empty());
            assert(s.drop_last() + seq![sep] + Seq::<char>::empty() =~= s);
            assert forall|i: int| 0 <= i < ps.len() implies !(#[trigger] ps[i]).contains(sep) by {
                if i < init.len() {
                    assert(ps[i] == init[i]);
                } else {
                    assert(ps[i] =~= Seq::<char>::empty());
                }
            }
        } else {
            let last = init.last().push(c);
            assert(!last.contains(sep)) by {
                assert(!init[init.len() - 1].contains(sep));
                if last.contains(sep) {
                    let j = choose|j: int| 0 <= j < last.len() && last[j] == sep;
                    assert(init.last()[j] == sep);
                }
            }
            assert forall|i: int| 0 <= i < ps.len() implies !(#[trigger] ps[i]).contains(sep) by {
                if i < init.len() - 1 {
                    assert(ps[i] == init[i]);
                }
            }
            if init.len() == 1 {
                assert(joined(init, sep) == init[0]);
                assert(s.drop_last().push(c) =~= s);
            } else {
                assert(ps.drop_last() =~= init.drop_last());
                assert(joined(ps, sep) =~= (joined(init.drop_last(), sep) + seq![sep]
                    + init.last()).push(c));
                assert(s.drop_last().push(c) =~= s);
            }
        }
    }
}

/// The text of a sort direction: `1` for ascending, `-1` for descending.
pub open spec fn direction_text(d: i8) -> Seq<char> {
    if d < 0 {
        seq!['-', '1']
    } else {
        seq!['1']
    }
}

/// One of the two sort directions.
pub open spec fn is_direction(d: i8) -> bool {
    d == 1 || d == -1
}

/// A coordinate key: the axis letter followed by a direction.
pub open spec fn key_text(axis: char, d: i8) -> Seq<char> {
    seq![axis] + direction_text(d)
}

proof fn lemma_order_spec(p: Seq<char>, axis: char)
    ensures
        order_spec(p, axis) matches Ok(d) ==> is_direction(d) && p == key_text(axis, d),
        forall|d: i8| is_direction(d) ==> #[trigger] order_spec(key_text(axis, d), axis) == Ok::<i8, WindowError>(d),
{
    if order_spec(p, axis) is Ok {
        assert(p =~= seq![p[0]] + p.drop_first());
    }
    assert forall|d: i8| is_direction(d) implies #[trigger] order_spec(key_text(axis, d), axis)
        == Ok::<i8, WindowError>(d) by {
        let k = key_text(axis, d);
        assert(k.drop_first() =~= direction_text(d));
        if d == -1 {
            assert(seq!['-', '1'] != seq!['1']);
        }
    }
}

proof fn lemma_key_has_no_bar(axis: char, d: i8)
    requires
        axis != '|',
    ensures
        !key_text(axis, d).contains('|'),
{
    let k = key_text(axis, d);
    if k.contains('|') {
        let i = choose|i: int| 0 <= i < k.len() && k[i] == '|';
    }
}

/// The position-sort grammar: the empty text means no position sort; `x`
/// or `y` followed by `1` or `-1` sorts by that one coordinate; two such
/// keys, `x` first, that stand around `|` (white space round each allowed)
/// sort by both; every other text is an error.
pub proof fn lemma_position_sort_grammar(t: Seq<char>)
    ensures
        (position_sort_spec(t) == Ok::<Option<PositionSort>, WindowError>(None)) <==> t.len()
            == 0,
        forall|d: i8|
            #[trigger] is_direction(d) ==> ((position_sort_spec(t) == Ok::<Option<PositionSort>, WindowError>(
                Some(PositionSort::X(d)),
            )) <==> t == key_text('x', d)),
        forall|d: i8|
            #[trigger] is_direction(d) ==> ((position_sort_spec(t) == Ok::<Option<PositionSort>, WindowError>(
                Some(PositionSort::Y(d)),
            )) <==> t == key_text('y', d)),
        forall|d1: i8, d2: i8|
            #![trigger is_direction(d1), is_direction(d2)]
            is_direction(d1) && is_direction(d2) ==> ((position_sort_spec(t) == Ok::<
                Option<PositionSort>,
                WindowError,
            >(Some(PositionSort::XY(d1, d2)))) <==> exists|a: Seq<char>, b: Seq<char>|
                !a.contains('|') && !b.contains('|') && t == a + seq!['|'] + b && trimmed(a)
                    == key_text('x', d1) && trimmed(b) == key_text('y', d2)),
        position_sort_spec(t) matches Ok(Some(p)) ==> match p {
            PositionSort::X(d) => is_direction(d),
            PositionSort::Y(d) => is_direction(d),
            PositionSort::XY(d1, d2) => is_direction(d1) && is_direction(d2),
        },
{
    lemma_order_spec(t, 'x');
    lemma_order_spec(t, 'y');
    lemma_split_pieces(t, '|');
    let ps = split_on(t, '|');
    if t.contains('|') && ps.len() == 2 {
        lemma_order_spec(trimmed(ps[0]), 'x');
        lemma_order_spec(trimmed(ps[1]), 'y');
        assert(joined(ps, '|') == ps[0] + seq!['|'] + ps[1]) by {
            assert(ps.drop_last() =~= seq![ps[0]]);
            assert(joined(ps.drop_last(), '|') == ps[0]);
            assert(ps.last() == ps[1]);
        }
    }
    assert forall|d: i8| #[trigger] is_direction(d) implies ((position_sort_spec(t) == Ok::<
        Option<PositionSort>,
        WindowError,
    >(Some(PositionSort::X(d)))) <==> t == key_text('x', d)) by {
        if t == key_text('x', d) {
            lemma_key_has_no_bar('x', d);
        }
    }
    assert forall|d: i8| #[trigger] is_direction(d) implies ((position_sort_spec(t) == Ok::<
        Option<PositionSort>,
        WindowError,
    >(Some(PositionSort::Y(d)))) <==> t == key_text('y', d)) by {
        if t == key_text('y', d) {
            lemma_key_has_no_bar('y', d);
        }
    }
    assert forall|d1: i8, d2: i8|
        #![trigger is_direction(d1), is_direction(d2)]
        is_direction(d1) && is_direction(d2) implies ((position_sort_spec(
        t,
    ) == Ok::<Option<PositionSort>, WindowError>(Some(PositionSort::XY(d1, d2))))
        <==> exists|a: Seq<char>, b: Seq<char>|
        !a.contains('|') && !b.contains('|') && t == a + seq!['|'] + b && trimmed(a) == key_text(
            'x',
            d1,
        ) && trimmed(b) == key_text('y', d2)) by {
        if position_sort_spec(t) == Ok::<Option<PositionSort>, WindowError>(
            Some(PositionSort::XY(d1, d2)),
        ) {
            assert(!ps[0].contains('|'));
            assert(!ps[1].contains('|'));
        }
        if exists|a: Seq<char>, b: Seq<char>|
            !a.contains('|') && !b.contains('|') && t == a + seq!['|'] + b && trimmed(a)
                == key_text('x', d1) && trimmed(b) == key_text('y', d2) {
            let (a, b) = choose|a: Seq<char>, b: Seq<char>|
                !a.contains('|') && !b.contains('|') && t == a + seq!['|'] + b && trimmed(a)
                    == key_text('x', d1) && trimmed(b) == key_text('y', d2);
            lemma_split_concat(a, b, '|');
            lemma_split_without_sep(a, '|');
            lemma_split_without_sep(b, '|');
            assert(split_on(t, '|') =~= seq![a, b]);
            assert(t.len() > 0);
            assert(t[a.len() as int] == '|');
            lemma_order_spec(trimmed(a), 'x');
            lemma_order_spec(trimmed(b), 'y');
        }
    }
}

/// Parses a position-sort text that is already trimmed and in lower case.
pub fn parse_folded_position_sort(t: &str) -> (r: Result<Option<PositionSort>, WindowError>)
    ensures
        r == position_sort_spec(t@),
{
    if t.is_empty() {
        return Ok(None);
    }
    if contains_char(t, '|') {
        let parts = split_text(t, '|');
        if parts.len() != 2 {
            return Err(WindowError::InvalidPositionSortFormat);
        }
        let x_part = trim(parts[0]);
        let y_part = trim(parts[1]);
        let x_order = match parse_single_position_order(x_part, 'x') {
            Ok(o) => o,
            Err(e) => {
                return Err(e);
            },
        };
        let y_order = match parse_single_position_order(y_part, 'y') {
            Ok(o) => o,
            Err(e) => {
                return Err(e);
            },
        };
        Ok(Some(PositionSort::XY(x_order, y_order)))
    } else {
        let first = t.get_char(0);
        if first == 'x' {
            match parse_single_position_order(t, 'x') {
                Ok(o) => Ok(Some(PositionSort::X(o))),
                Err(e) => Err(e),
            }
        } else if first == 'y' {
            match parse_single_position_order(t, 'y') {
                Ok(o) => Ok(Some(PositionSort::Y(o))),
                Err(e) => Err(e),
            }
        } else {
            Err(WindowError::InvalidPositionSortFormat)
        }
    }
}

/// Parses a position-sort text such as `x1`, `y-1` or `x1|y1`, ignoring
/// surrounding white space and case; the empty text means no position sort.
pub fn parse_position_sort(sort_str: &str) -> (r: Result<Option<PositionSort>, WindowError>)
    ensures
        r == position_sort_spec(lower_of(trimmed(sort_str@))),
{
    let t = trim(sort_str);
    let folded = lowercase(t);
    parse_folded_position_sort(folded.as_str())
}

// ---------------------------------------------------------------- selection

/// The inclusive span of indices that one selection token gives: `n` for
/// one index, `a-b` for every index from `a` to `b` (none when `a > b`).
pub open spec fn token_span(tok: Seq<char>) -> Result<(int, int), WindowError> {
    let p = trimmed(tok);
    if p.contains('-') {
        let halves = split_on(p, '-');
        if halves.len() == 2 {
            match index_value(trimmed(halves[0])) {
                None => Err(WindowError::InvalidIndex),
                Some(a) => match index_value(trimmed(halves[1])) {
                    None => Err(WindowError::InvalidIndex),
                    Some(b) => Ok((a, b)),
                },
            }
        } else {
            Err(WindowError::InvalidRange)
        }
    } else {
        match index_value(p) {
            None => Err(WindowError::InvalidIndex),
            Some(a) => Ok((a, a)),
        }
    }
}

/// The spans of a sequence of tokens, or the error of the first token that
/// has none.
pub open spec fn token_spans(toks: Seq<Seq<char>>) -> Result<Seq<(int, int)>, WindowError>
    decreases toks.len(),
{
    if toks.len() == 0 {
        Ok(Seq::empty())
    } else {
        match token_spans(toks.drop_last()) {
            Err(e) => Err(e),
            Ok(rs) => match token_span(toks.last()) {
                Err(e) => Err(e),
                Ok(r) => Ok(rs.push(r)),
            },
        }
    }
}

/// `x` lies in one of the spans.
pub open spec fn in_spans(rs: Seq<(int, int)>, x: int) -> bool {
    exists|k: int| 0 <= k < rs.len() && rs[k].0 <= x && x <= rs[k].1
}

/// Each element is smaller than the next: ascending without repeats.
pub open spec fn strictly_ascending(v: Seq<usize>) -> bool {
    forall|i: int, j: int| 0 <= i < j < v.len() ==> v[i] < v[j]
}

/// `r` is what a trimmed, lower-case selection text `t` gives: `All` for
/// `all`; otherwise the error of the first bad comma-separated token, or
/// the indices of all spans, ascending and without repeats.
pub open spec fn selection_spec(t: Seq<char>, r: Result<Selection, WindowError>) -> bool {
    if t == seq!['a', 'l', 'l'] {
        r == Ok::<Selection, WindowError>(Selection::All)
    } else {
        match token_spans(split_on(t, ',')) {
            Err(e) => r == Err::<Selection, WindowError>(e),
            Ok(rs) => match r {
                Ok(Selection::Indices(v)) => strictly_ascending(v@) && forall|x: usize|
                    v@.contains(x) <==> in_spans(rs, x as int),
                _ => false,
            },
        }
    }
}

fn parse_token(tok: &str) -> (r: Result<(usize, usize), WindowError>)
    ensures
        r is Ok <==> token_span(tok@) is Ok,
        r matches Ok((a, b)) ==> token_span(tok@) == Ok::<(int, int), WindowError>(
            (a as int, b as int),
        ),
        r matches Err(e) ==> token_span(tok@) == Err::<(int, int), WindowError>(e),
{
    let part = trim(tok);
    if contains_char(part, '-') {
        let halves = split_text(part, '-');
        if halves.len() == 2 {
            assert(views_of(halves@)[0] == halves@[0]@);
            assert(views_of(halves@)[1] == halves@[1]@);
            let start = match parse_index(trim(halves[0])) {
                Ok(i) => i,
                Err(e) => {
                    return Err(e);
                },
            };
            let end = match parse_index(trim(halves[1])) {
                Ok(i) => i,
                Err(e) => {
                    return Err(e);
                },
            };
            Ok((start, end))
        } else {
            Err(WindowError::InvalidRange)
        }
    } else {
        match parse_index(part) {
            Ok(i) => Ok((i, i)),
            Err(e) => Err(e),
        }
    }
}

/// Adds `x` to an ascending list without repeats.
fn insert_index(v: &mut Vec<usize>, x: usize)
    requires
        strictly_ascending(old(v)@),
    ensures
        strictly_ascending(final(v)@),
        forall|y: usize| final(v)@.contains(y) <==> (old(v)@.contains(y) || y == x),
{
    let mut k: usize = v.len();
    while k > 0 && v[k - 1] > x
        invariant
            v@ == old(v)@,
            k <= v@.len(),
            strictly_ascending(v@),
            forall|j: int| k <= j < v@.len() ==> v@[j] > x,
        decreases k,
    {
        k = k - 1;
    }
    if k > 0 && v[k - 1] == x {
        assert(v@[k - 1] == x);
        return;
    }
    let ghost before = v@;
    assert(before == old(v)@);
    v.insert(k, x);
    assert(forall|j: int| 0 <= j < k ==> before[j] < x) by {
        assert forall|j: int| 0 <= j < k implies before[j] < x by {
            if j < k - 1 {
                assert(before[j] < before[k - 1]);
            }
        }
    }
    proof {
        lemma_insert_contents(before, k as int, x);
    }
}

proof fn lemma_insert_contents(s: Seq<usize>, k: int, x: usize)
    requires
        0 <= k <= s.len(),
    ensures
        forall|y: usize| #[trigger] s.insert(k, x).contains(y) <==> (s.contains(y) || y == x),
{
    let t = s.insert(k, x);
    assert forall|y: usize| t.contains(y) <==> (s.contains(y) || y == x) by {
        if t.contains(y) {
            let j = choose|j: int| 0 <= j < t.len() && t[j] == y;
            if j < k {
                assert(s[j] == y);
            } else if j > k {
                assert(s[j - 1] == y);
            }
        }
        if s.contains(y) {
            let j = choose|j: int| 0 <= j < s.len() && s[j] == y;
            if j < k {
                assert(t[j] == y);
            } else {
                assert(t[j + 1] == y);
            }
        }
        if y == x {
            assert(t[k] == x);
        }
    }
}

/// Adds every index from `a` to `b` inclusive to an ascending list without
/// repeats; nothing when `a > b`.
fn insert_span(v: &mut Vec<usize>, a: usize, b: usize)
    requires
        strictly_ascending(old(v)@),
    ensures
        strictly_ascending(final(v)@),
        forall|y: usize| final(v)@.contains(y) <==> (old(v)@.contains(y) || (a <= y && y <= b)),
{
    if a > b {
        return;
    }
    let ghost before = v@;
    let mut i: usize = a;
    while i < b
        invariant
            a <= i <= b,
            strictly_ascending(v@),
            forall|y: usize| v@.contains(y) <==> (before.contains(y) || (a <= y && y < i)),
        decreases b - i,
    {
        insert_index(v, i);
        i = i + 1;
    }
    insert_index(v, b);
}

proof fn lemma_spans_error_extends(toks: Seq<Seq<char>>, k: int, e: WindowError)
    requires
        0 <= k <= toks.len(),
        token_spans(toks.take(k)) == Err::<Seq<(int, int)>, WindowError>(e),
    ensures
        token_spans(toks) == Err::<Seq<(int, int)>, WindowError>(e),
    decreases toks.len(),
{
    if k == toks.len() {
        assert(toks.take(k) =~= toks);
    } else {
        assert(toks.drop_last().take(k) =~= toks.take(k));
        lemma_spans_error_extends(toks.drop_last(), k, e);
    }
}

proof fn lemma_in_spans_push(rs: Seq<(int, int)>, r: (int, int), x: int)
    ensures
        in_spans(rs.push(r), x) <==> (in_spans(rs, x) || (r.0 <= x && x <= r.1)),
{
    let rs2 = rs.push(r);
    if in_spans(rs, x) {
        let k = choose|k: int| 0 <= k < rs.len() && rs[k].0 <= x && x <= rs[k].1;
        assert(rs2[k] == rs[k]);
    }
    if r.0 <= x && x <= r.1 {
        assert(rs2[rs.len() as int] == r);
    }
    if in_spans(rs2, x) {
        let k = choose|k: int| 0 <= k < rs2.len() && rs2[k].0 <= x && x <= rs2[k].1;
        if k < rs.len() {
            assert(rs2[k] == rs[k]);
        }
    }
}

/// Parses a selection text that is already trimmed and in lower case.
pub fn parse_folded_selection(t: &str) -> (r: Result<Selection, WindowError>)
    ensures
        selection_spec(t@, r),
{
    let chars = chars_of(t);
    if chars.len() == 3 && chars[0] == 'a' && chars[1] == 'l' && chars[2] == 'l' {
        assert(t@ =~= seq!['a', 'l', 'l']);
        return Ok(Selection::All);
    }
    assert(t@ != seq!['a', 'l', 'l']) by {
        if t@ == seq!['a', 'l', 'l'] {
            assert(chars@[0] == 'a' && chars@[1] == 'l' && chars@[2] == 'l');
        }
    }
    let toks = split_text(t, ',');
    let ghost all = views_of(toks@);
    let mut out: Vec<usize> = Vec::new();
    let mut k: usize = 0;
    assert(all.take(0) =~= Seq::<Seq<char>>::empty());
    while k < toks.len()
        invariant
            all == views_of(toks@),
            all == split_on(t@, ','),
            t@ != seq!['a', 'l', 'l'],
            k <= toks@.len(),
            token_spans(all.take(k as int)) is Ok,
            strictly_ascending(out@),
            forall|x: usize|
                out@.contains(x) <==> in_spans(token_spans(all.take(k as int))->Ok_0, x as int),
        decreases toks@.len() - k,
    {
        let ghost rs = token_spans(all.take(k as int))->Ok_0;
        let ghost pre = all.take(k + 1);
        assert(pre.drop_last() =~= all.take(k as int));
        assert(pre.last() == toks@[k as int]@);
        match parse_token(toks[k]) {
            Err(e) => {
                assert(token_spans(pre) == Err::<Seq<(int, int)>, WindowError>(e));
                proof {
                    lemma_spans_error_extends(all, k + 1, e);
                }
                return Err(e);
            },
            Ok((a, b)) => {
                insert_span(&mut out, a, b);
                assert(token_spans(pre) == Ok::<Seq<(int, int)>, WindowError>(
                    rs.push((a as int, b as int)),
                ));
                assert forall|x: usize|
                    out@.contains(x) <==> in_spans(rs.push((a as int, b as int)), x as int) by {
                    lemma_in_spans_push(rs, (a as int, b as int), x as int);
                }
            },
        }
        k = k + 1;
    }
    assert(all.take(k as int) =~= all);
    Ok(Selection::Indices(out))
}

/// Parses a selection text: `all`, or comma-separated indices and inclusive
/// ranges `a-b`, ignoring surrounding white space and case. The indices
/// come out ascending and without repeats.
pub fn parse_selection(selection_str: &str) -> (r: Result<Selection, WindowError>)
    ensures
        selection_spec(lower_of(trimmed(selection_str@)), r),
{
    let t = trim(selection_str);
    let folded = lowercase(t);
    parse_folded_selection(folded.as_str())
}

} // verus!
