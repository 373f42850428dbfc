//! The `keyword=value` line format of the store's files: splitting text into
//! lines, reading records from them, and writing records back.
use vstd::prelude::*;
use crate::store::{ShortcutEntry, SortMode, Stamp, entries_view, stamps_view};
use crate::text::{
    digit_char, digit_value, digits_value, is_digit, is_ws, trim_end, trim_start, unsigned_digits,
    all_ws, append_chars, chars_of, decimal, decimal_chars, is_blank, parse_number, parse_u64,
    string_from, sub_chars, trim, trimmed,
};

verus! {

/// A line without the `\r` of a `\r\n` ending.
pub open spec fn strip_cr(l: Seq<char>) -> Seq<char> {
    if l.len() > 0 && l.last() == '\r' {
        l.drop_last()
    } else {
        l
    }
}

/// The lines of `t` from the line that starts at `start`, scanning at `i`.
pub open spec fn split_lines(t: Seq<char>, start: int, i: int) -> Seq<Seq<char>>
    decreases t.len() - i,
{
    if i >= t.len() {
        if 0 <= start < t.len() {
            seq![strip_cr(t.subrange(start, t.len() as int))]
        } else {
            seq![]
        }
    } else if i >= 0 && t[i] == '\n' {
        seq![strip_cr(t.subrange(start, i))] + split_lines(t, i + 1, i + 1)
    } else {
        split_lines(t, start, i + 1)
    }
}

/// The lines of `t` as `BufRead::lines` yields them: split at `\n`, a final
/// `\r` dropped from each, and no empty line after a final `\n`.
pub open spec fn lines(t: Seq<char>) -> Seq<Seq<char>> {
    split_lines(t, 0, 0)
}

/// The position of the first `=` in `l` at or after `from`, or `l.len()`.
pub open spec fn eq_from(l: Seq<char>, from: int) -> int
    decreases l.len() - from,
{
    if from < 0 || from >= l.len() {
        l.len() as int
    } else if l[from] == '=' {
        from
    } else {
        eq_from(l, from + 1)
    }
}

/// A line cut at its first `=` into key and value, as `split_once('=')` does.
pub open spec fn record(l: Seq<char>) -> Option<(Seq<char>, Seq<char>)> {
    let p = eq_from(l, 0);
    if p < l.len() {
        Some((l.subrange(0, p), l.subrange(p + 1, l.len() as int)))
    } else {
        None
    }
}

/// The shortcut a line of the entries file holds: key and value both hold a
/// character other than white space.
pub open spec fn entry_of_line(l: Seq<char>) -> Option<(Seq<char>, Seq<char>)> {
    match record(l) {
        Some(kv) => if !all_ws(kv.0) && !all_ws(kv.1) {
            Some(kv)
        } else {
            None
        },
        None => None,
    }
}

/// The stamp a line of the expiry or recency file holds: its value, trimmed,
/// is an unsigned decimal number.
pub open spec fn stamp_of_line(l: Seq<char>) -> Option<(Seq<char>, u64)> {
    match record(l) {
        Some(kv) => match parse_u64(trim(kv.1)) {
            Some(n) => Some((kv.0, n)),
            None => None,
        },
        None => None,
    }
}

pub open spec fn entries_of_lines(ls: Seq<Seq<char>>) -> Seq<(Seq<char>, Seq<char>)>
    decreases ls.len(),
{
    if ls.len() == 0 {
        seq![]
    } else {
        let prev = entries_of_lines(ls.drop_last());
        match entry_of_line(ls.last()) {
            Some(e) => prev.push(e),
            None => prev,
        }
    }
}

pub open spec fn stamps_of_lines(ls: Seq<Seq<char>>) -> Seq<(Seq<char>, u64)>
    decreases ls.len(),
{
    if ls.len() == 0 {
        seq![]
    } else {
        let prev = stamps_of_lines(ls.drop_last());
        match stamp_of_line(ls.last()) {
            Some(e) => prev.push(e),
            None => prev,
        }
    }
}

/// The shortcut records of an entries file, in file order.
pub open spec fn entry_records(t: Seq<char>) -> Seq<(Seq<char>, Seq<char>)> {
    entries_of_lines(lines(t))
}

/// The stamp records of an expiry or recency file, in file order.
pub open spec fn stamp_records(t: Seq<char>) -> Seq<(Seq<char>, u64)> {
    stamps_of_lines(lines(t))
}

pub open spec fn line_views(v: Seq<Vec<char>>) -> Seq<Seq<char>> {
    v.map_values(|l: Vec<char>| l@)
}

/// Splits `t` into its lines.
pub fn lines_of(t: &Vec<char>) -> (r: Vec<Vec<char>>)
    ensures
        line_views(r@) == lines(t@),
{
    let mut out: Vec<Vec<char>> = Vec::new();
    let mut start: usize = 0;
    let mut i: usize = 0;
    while i < t.len()
        invariant
            start <= i <= t.len(),
            lines(t@) == line_views(out@) + split_lines(t@, start as int, i as int),
        decreases t.len() - i,
    {
        if t[i] == '\n' {
            let l = strip_cr_chars(sub_chars(t, start, i));
            proof {
                let rest = split_lines(t@, i + 1, i + 1);
                assert(split_lines(t@, start as int, i as int) == seq![l@] + rest);
                assert(line_views(out@.push(l)) == line_views(out@).push(l@));
                assert(line_views(out@) + (seq![l@] + rest) == line_views(out@).push(l@) + rest);
            }
            out.push(l);
            start = i + 1;
        }
        i = i + 1;
    }
    if start < t.len() {
        let l = strip_cr_chars(sub_chars(t, start, t.len()));
        proof {
            assert(line_views(out@.push(l)) == line_views(out@).push(l@));
        }
        out.push(l);
    } else {
        assert(line_views(out@) + seq![] == line_views(out@));
    }
    out
}

fn strip_cr_chars(l: Vec<char>) -> (r: Vec<char>)
    ensures
        r@ == strip_cr(l@),
{
    let mut l = l;
    if l.len() > 0 && l[l.len() - 1] == '\r' {
        l.pop();
    }
    l
}

/// Where the first `=` of `l` stands, or `l.len()`.
fn find_eq(l: &Vec<char>) -> (r: usize)
    ensures
        r as int == eq_from(l@, 0),
{
    let mut i: usize = 0;
    while i < l.len()
        invariant
            i <= l.len(),
            eq_from(l@, 0) == eq_from(l@, i as int),
        decreases l.len() - i,
    {
        if l[i] == '=' {
            return i;
        }
        i = i + 1;
    }
    i
}

/// Reads the shortcut records of an entries file, in file order.
pub fn parse_entries(t: &str) -> (r: Vec<ShortcutEntry>)
    ensures
        entries_view(r@) == entry_records(t@),
{
    let text = chars_of(t);
    let ls = lines_of(&text);
    let mut out: Vec<ShortcutEntry> = Vec::new();
    let mut i: usize = 0;
    while i < ls.len()
        invariant
            i <= ls.len(),
            line_views(ls@) == lines(t@),
            entries_view(out@) == entries_of_lines(line_views(ls@).subrange(0, i as int)),
        decreases ls.len() - i,
    {
        let l = &ls[i];
        let p = find_eq(l);
        let ghost done = line_views(ls@).subrange(0, i as int);
        assert(line_views(ls@).subrange(0, i + 1).drop_last() == done);
        assert(line_views(ls@)[i as int] == l@);
        if p < l.len() {
            let k = sub_chars(l, 0, p);
            let v = sub_chars(l, p + 1, l.len());
            if !is_blank(&k) && !is_blank(&v) {
                let e = ShortcutEntry { keyword: string_from(&k), path: string_from(&v) };
                assert(entries_view(out@.push(e)) == entries_view(out@).push(e@));
                out.push(e);
            }
        }
        i = i + 1;
    }
    assert(line_views(ls@).subrange(0, ls.len() as int) == line_views(ls@));
    out
}

/// Reads the stamp records of an expiry or recency file, in file order.
pub fn parse_stamps(t: &str) -> (r: Vec<Stamp>)
    ensures
        stamps_view(r@) == stamp_records(t@),
{
    let text = chars_of(t);
    let ls = lines_of(&text);
    let mut out: Vec<Stamp> = Vec::new();
    let mut i: usize = 0;
    while i < ls.len()
        invariant
            i <= ls.len(),
            line_views(ls@) == lines(t@),
            stamps_view(out@) == stamps_of_lines(line_views(ls@).subrange(0, i as int)),
        decreases ls.len() - i,
    {
        let l = &ls[i];
        let p = find_eq(l);
        let ghost done = line_views(ls@).subrange(0, i as int);
        assert(line_views(ls@).subrange(0, i + 1).drop_last() == done);
        assert(line_views(ls@)[i as int] == l@);
        if p < l.len() {
            let v = trimmed(l, p + 1, l.len());
            match parse_number(&v) {
                Some(n) => {
                    let k = sub_chars(l, 0, p);
                    let s = Stamp { keyword: string_from(&k), value: n };
                    assert(stamps_view(out@.push(s)) == stamps_view(out@).push(s@));
                    out.push(s);
                },
                None => {},
            }
        }
        i = i + 1;
    }
    assert(line_views(ls@).subrange(0, ls.len() as int) == line_views(ls@));
    out
}

pub open spec fn entry_line(e: (Seq<char>, Seq<char>)) -> Seq<char> {
    e.0 + seq!['='] + e.1 + seq!['\n']
}

pub open spec fn stamp_line(s: (Seq<char>, u64)) -> Seq<char> {
    s.0 + seq!['='] + decimal(s.1 as nat) + seq!['\n']
}

/// The text of an entries file: one `keyword=path` line per shortcut, in order.
pub open spec fn render_entries(s: Seq<(Seq<char>, Seq<char>)>) -> Seq<char>
    decreases s.len(),
{
    if s.len() == 0 {
        seq![]
    } else {
        render_entries(s.drop_last()) + entry_line(s.last())
    }
}

/// The text of an expiry or recency file: one `keyword=seconds` line per stamp.
pub open spec fn render_stamps(s: Seq<(Seq<char>, u64)>) -> Seq<char>
    decreases s.len(),
{
    if s.len() == 0 {
        seq![]
    } else {
        render_stamps(s.drop_last()) + stamp_line(s.last())
    }
}

/// Writes the entries file for `v`.
pub fn render_entries_text(v: &Vec<ShortcutEntry>) -> (r: String)
    ensures
        r@ == render_entries(entries_view(v@)),
{
    let mut out: Vec<char> = Vec::new();
    let mut i: usize = 0;
    while i < v.len()
        invariant
            i <= v.len(),
            out@ == render_entries(entries_view(v@).subrange(0, i as int)),
        decreases v.len() - i,
    {
        let ghost before = out@;
        append_chars(&mut out, &chars_of(v[i].keyword.as_str()));
        out.push('=');
        append_chars(&mut out, &chars_of(v[i].path.as_str()));
        out.push('\n');
        proof {
            let s = entries_view(v@).subrange(0, i + 1);
            assert(s.drop_last() == entries_view(v@).subrange(0, i as int));
            assert(s.last() == v@[i as int]@);
            assert(out@ == before + entry_line(s.last()));
        }
        i = i + 1;
    }
    assert(entries_view(v@).subrange(0, v.len() as int) == entries_view(v@));
    string_from(&out)
}

/// Writes the expiry or recency file for `v`.
pub fn render_stamps_text(v: &Vec<Stamp>) -> (r: String)
    ensures
        r@ == render_stamps(stamps_view(v@)),
{
    let mut out: Vec<char> = Vec::new();
    let mut i: usize = 0;
    while i < v.len()
        invariant
            i <= v.len(),
            out@ == render_stamps(stamps_view(v@).subrange(0, i as int)),
        decreases v.len() - i,
    {
        let ghost before = out@;
        append_chars(&mut out, &chars_of(v[i].keyword.as_str()));
        out.push('=');
        append_chars(&mut out, &decimal_chars(v[i].value));
        out.push('\n');
        proof {
            let s = stamps_view(v@).subrange(0, i + 1);
            assert(s.drop_last() == stamps_view(v@).subrange(0, i as int));
            assert(s.last() == v@[i as int]@);
            assert(out@ == before + stamp_line(s.last()));
        }
        i = i + 1;
    }
    assert(stamps_view(v@).subrange(0, v.len() as int) == stamps_view(v@));
    string_from(&out)
}

/// The name under which a sort mode is written and read.
pub open spec fn sort_label(m: SortMode) -> Seq<char> {
    match m {
        SortMode::Added => seq!['a', 'd', 'd', 'e', 'd'],
        SortMode::Alpha => seq!['a', 'l', 'p', 'h', 'a'],
        SortMode::Recent => seq!['r', 'e', 'c', 'e', 'n', 't'],
    }
}

/// The sort mode that `s` names, if any.
pub open spec fn sort_mode_named(s: Seq<char>) -> Option<SortMode> {
    if s == sort_label(SortMode::Added) {
        Some(SortMode::Added)
    } else if s == sort_label(SortMode::Alpha) {
        Some(SortMode::Alpha)
    } else if s == sort_label(SortMode::Recent) {
        Some(SortMode::Recent)
    } else {
        None
    }
}

pub open spec fn sort_key() -> Seq<char> {
    seq!['s', 'o', 'r', 't', '_', 'o', 'r', 'd', 'e', 'r']
}

/// The sort mode a preference file sets: the first line whose key, trimmed,
/// is `sort_order` decides; a value that names no mode, or no such line,
/// means `Alpha`.
pub open spec fn preference_of_lines(ls: Seq<Seq<char>>) -> SortMode
    decreases ls.len(),
{
    if ls.len() == 0 {
        SortMode::Alpha
    } else {
        match record(ls[0]) {
            Some(kv) => if trim(kv.0) == sort_key() {
                match sort_mode_named(trim(kv.1)) {
                    Some(m) => m,
                    None => SortMode::Alpha,
                }
            } else {
                preference_of_lines(ls.drop_first())
            },
            None => preference_of_lines(ls.drop_first()),
        }
    }
}

pub open spec fn preference_of(t: Seq<char>) -> SortMode {
    preference_of_lines(lines(t))
}

/// Whether a preference line is a `sort_order=` setting.
pub open spec fn is_sort_line(l: Seq<char>) -> bool {
    l.len() >= 11 && l.subrange(0, 11) == sort_key().push('=')
}

pub open spec fn kept_preference_lines(ls: Seq<Seq<char>>) -> Seq<char>
    decreases ls.len(),
{
    if ls.len() == 0 {
        seq![]
    } else if is_sort_line(ls.last()) {
        kept_preference_lines(ls.drop_last())
    } else {
        kept_preference_lines(ls.drop_last()) + ls.last() + seq!['\n']
    }
}

/// The preference file rewritten for mode `m`: every other line kept in
/// order, then one `sort_order=` line.
pub open spec fn render_preference(t: Seq<char>, m: SortMode) -> Seq<char> {
    kept_preference_lines(lines(t)) + sort_key().push('=') + sort_label(m) + seq!['\n']
}

pub fn chars_equal(a: &Vec<char>, b: &Vec<char>) -> (r: bool)
    ensures
        r == (a@ == b@),
{
    if a.len() != b.len() {
        return false;
    }
    let mut i: usize = 0;
    while i < a.len()
        invariant
            a.len() == b.len(),
            i <= a.len(),
            forall|j: int| 0 <= j < i ==> a@[j] == b@[j],
        decreases a.len() - i,
    {
        if a[i] != b[i] {
            return false;
        }
        i = i + 1;
    }
    assert(a@ =~= b@);
    true
}

fn label_chars(m: SortMode) -> (r: Vec<char>)
    ensures
        r@ == sort_label(m),
{
    match m {
        SortMode::Added => vec!['a', 'd', 'd', 'e', 'd'],
        SortMode::Alpha => vec!['a', 'l', 'p', 'h', 'a'],
        SortMode::Recent => vec!['r', 'e', 'c', 'e', 'n', 't'],
    }
}

fn sort_key_chars() -> (r: Vec<char>)
    ensures
        r@ == sort_key(),
{
    vec!['s', 'o', 'r', 't', '_', 'o', 'r', 'd', 'e', 'r']
}

/// The sort mode that `s` names, if any.
pub fn mode_named(s: &Vec<char>) -> (r: Option<SortMode>)
    ensures
        r == sort_mode_named(s@),
{
    if chars_equal(s, &label_chars(SortMode::Added)) {
        Some(SortMode::Added)
    } else if chars_equal(s, &label_chars(SortMode::Alpha)) {
        Some(SortMode::Alpha)
    } else if chars_equal(s, &label_chars(SortMode::Recent)) {
        Some(SortMode::Recent)
    } else {
        None
    }
}

/// Reads the sort mode that a preference file sets.
pub fn parse_preference(t: &str) -> (r: SortMode)
    ensures
        r == preference_of(t@),
{
    let text = chars_of(t);
    let ls = lines_of(&text);
    let key = sort_key_chars();
    assert(line_views(ls@).subrange(0, ls.len() as int) == line_views(ls@));
    let mut i: usize = 0;
    while i < ls.len()
        invariant
            i <= ls.len(),
            line_views(ls@) == lines(t@),
            key@ == sort_key(),
            preference_of(t@) == preference_of_lines(line_views(ls@).subrange(
                i as int,
                ls.len() as int,
            )),
        decreases ls.len() - i,
    {
        let l = &ls[i];
        let ghost rest = line_views(ls@).subrange(i as int, ls.len() as int);
        assert(rest[0] == l@);
        assert(rest.drop_first() == line_views(ls@).subrange(i + 1, ls.len() as int));
        let p = find_eq(l);
        if p < l.len() {
            let k = trimmed(l, 0, p);
            if chars_equal(&k, &key) {
                let v = trimmed(l, p + 1, l.len());
                return match mode_named(&v) {
                    Some(m) => m,
                    None => SortMode::Alpha,
                };
            }
        }
        i = i + 1;
    }
    SortMode::Alpha
}

/// Rewrites the preference file `t` for mode `m`, keeping its other lines.
pub fn render_preference_text(t: &str, m: SortMode) -> (r: String)
    ensures
        r@ == render_preference(t@, m),
{
    let text = chars_of(t);
    let ls = lines_of(&text);
    let mut prefix = sort_key_chars();
    prefix.push('=');
    let mut out: Vec<char> = Vec::new();
    let mut i: usize = 0;
    while i < ls.len()
        invariant
            i <= ls.len(),
            line_views(ls@) == lines(t@),
            prefix@ == sort_key().push('='),
            out@ == kept_preference_lines(line_views(ls@).subrange(0, i as int)),
        decreases ls.len() - i,
    {
        let l = &ls[i];
        let ghost done = line_views(ls@).subrange(0, i + 1);
        assert(done.drop_last() == line_views(ls@).subrange(0, i as int));
        assert(done.last() == l@);
        let is_setting = l.len() >= 11 && chars_equal(&sub_chars(l, 0, 11), &prefix);
        if !is_setting {
            append_chars(&mut out, l);
            out.push('\n');
        }
        i = i + 1;
    }
    assert(line_views(ls@).subrange(0, ls.len() as int) == line_views(ls@));
    append_chars(&mut out, &prefix);
    append_chars(&mut out, &label_chars(m));
    out.push('\n');
    string_from(&out)
}

proof fn lemma_split_shift(x: Seq<char>, y: Seq<char>, s: int, i: int)
    requires
        0 <= s <= i <= y.len(),
    ensures
        split_lines(x + y, x.len() + s, x.len() + i) == split_lines(y, s, i),
    decreases y.len() - i,
{
    let t = x + y;
    if i < y.len() {
        assert(t[x.len() + i] == y[i]);
        if y[i] == '\n' {
            lemma_split_shift(x, y, i + 1, i + 1);
            assert(t.subrange(x.len() + s, x.len() + i) == y.subrange(s, i));
        } else {
            lemma_split_shift(x, y, s, i + 1);
        }
    } else {
        assert(t.subrange(x.len() + s, t.len() as int) == y.subrange(s, y.len() as int));
    }
}

proof fn lemma_split_prefix(x: Seq<char>, y: Seq<char>, s: int, i: int)
    requires
        x.len() > 0,
        x.last() == '\n',
        0 <= s <= i <= x.len(),
        i < x.len() || s == x.len(),
    ensures
        split_lines(x + y, s, i) == split_lines(x, s, i) + split_lines(x + y, x.len() as int, x.len() as int),
    decreases x.len() - i,
{
    let t = x + y;
    let rest = split_lines(t, x.len() as int, x.len() as int);
    if i == x.len() {
        assert(split_lines(x, s, i) == Seq::<Seq<char>>::empty());
        assert(split_lines(x, s, i) + rest == rest);
    } else {
        assert(t[i] == x[i]);
        if x[i] == '\n' {
            lemma_split_prefix(x, y, i + 1, i + 1);
            assert(t.subrange(s, i) == x.subrange(s, i));
            let piece = seq![strip_cr(x.subrange(s, i))];
            assert(piece + (split_lines(x, i + 1, i + 1) + rest) == (piece + split_lines(
                x,
                i + 1,
                i + 1,
            )) + rest);
        } else {
            lemma_split_prefix(x, y, s, i + 1);
        }
    }
}

/// Lines of text that ends in a line break, followed by more text.
proof fn lemma_lines_concat(x: Seq<char>, y: Seq<char>)
    requires
        x.len() == 0 || x.last() == '\n',
    ensures
        lines(x + y) == lines(x) + lines(y),
{
    if x.len() == 0 {
        assert(x + y == y);
        assert(lines(x) == Seq::<Seq<char>>::empty());
        assert(lines(x) + lines(y) == lines(y));
    } else {
        lemma_split_prefix(x, y, 0, 0);
        lemma_split_shift(x, y, 0, 0);
    }
}

proof fn lemma_lines_single(c: Seq<char>, i: int)
    requires
        0 <= i <= c.len(),
        forall|j: int| 0 <= j < c.len() ==> #[trigger] c[j] != '\n',
    ensures
        split_lines(c.push('\n'), 0, i) == seq![strip_cr(c)],
    decreases c.len() - i,
{
    let t = c.push('\n');
    if i < c.len() {
        assert(t[i] == c[i]);
        lemma_lines_single(c, i + 1);
    } else {
        assert(t[i] == '\n');
        assert(t.subrange(0, i) == c);
        assert(split_lines(t, i + 1, i + 1) == Seq::<Seq<char>>::empty());
        assert(seq![strip_cr(c)] + Seq::<Seq<char>>::empty() == seq![strip_cr(c)]);
    }
}

proof fn lemma_eq_from_skip(l: Seq<char>, k: int, j: int)
    requires
        0 <= j <= k < l.len(),
        l[k] == '=',
        forall|m: int| 0 <= m < k ==> #[trigger] l[m] != '=',
    ensures
        eq_from(l, j) == k,
    decreases k - j,
{
    if j < k {
        lemma_eq_from_skip(l, k, j + 1);
    }
}

/// A shortcut that writes as one line and reads back as itself: its keyword
/// holds no `=`, neither part holds a line break or is blank, and the path
/// does not end in a carriage return.
pub open spec fn writable_entry(e: (Seq<char>, Seq<char>)) -> bool {
    &&& forall|j: int| 0 <= j < e.0.len() ==> #[trigger] e.0[j] != '=' && e.0[j] != '\n'
    &&& forall|j: int| 0 <= j < e.1.len() ==> #[trigger] e.1[j] != '\n'
    &&& !all_ws(e.0)
    &&& !all_ws(e.1)
    &&& e.1.last() != '\r'
}

proof fn lemma_entry_line_reads_back(e: (Seq<char>, Seq<char>))
    requires
        writable_entry(e),
    ensures
        lines(entry_line(e)) == seq![e.0 + seq!['='] + e.1],
        entry_of_line(e.0 + seq!['='] + e.1) == Some(e),
{
    let c = e.0 + seq!['='] + e.1;
    assert(entry_line(e) == c.push('\n'));
    assert forall|j: int| 0 <= j < c.len() implies #[trigger] c[j] != '\n' by {
        if j < e.0.len() {
            assert(c[j] == e.0[j]);
        } else if j > e.0.len() {
            assert(c[j] == e.1[j - e.0.len() - 1]);
        }
    }
    lemma_lines_single(c, 0);
    assert(e.1.len() > 0);
    assert(c.last() == e.1.last());
    assert(strip_cr(c) == c);
    let k = e.0.len() as int;
    assert forall|m: int| 0 <= m < k implies #[trigger] c[m] != '=' by {
        assert(c[m] == e.0[m]);
    }
    lemma_eq_from_skip(c, k, 0);
    assert(c.subrange(0, k) == e.0);
    assert(c.subrange(k + 1, c.len() as int) == e.1);
}

/// What the entries file is written as reads back as the same shortcuts, in
/// the same order, when each of them can be written as one line.
pub proof fn law_entries_file_round_trip(s: Seq<(Seq<char>, Seq<char>)>)
    requires
        forall|i: int| 0 <= i < s.len() ==> writable_entry(#[trigger] s[i]),
    ensures
        entry_records(render_entries(s)) == s,
    decreases s.len(),
{
    if s.len() == 0 {
        assert(lines(Seq::<char>::empty()) == Seq::<Seq<char>>::empty());
    } else {
        let dl = s.drop_last();
        assert forall|i: int| 0 <= i < dl.len() implies writable_entry(#[trigger] dl[i]) by {
            assert(dl[i] == s[i]);
        }
        law_entries_file_round_trip(dl);
        let head = render_entries(dl);
        if dl.len() > 0 {
            assert(entry_line(dl.last()).last() == '\n');
            assert(head.last() == '\n');
        }
        lemma_lines_concat(head, entry_line(s.last()));
        lemma_entry_line_reads_back(s.last());
        let ls = lines(render_entries(s));
        let c = s.last().0 + seq!['='] + s.last().1;
        assert(ls == lines(head).push(c));
        assert(ls.drop_last() == lines(head));
    }
}

proof fn lemma_decimal_reads_back(n: nat)
    ensures
        decimal(n).len() > 0,
        forall|j: int| 0 <= j < decimal(n).len() ==> is_digit(#[trigger] decimal(n)[j]),
        digits_value(decimal(n)) == n,
    decreases n,
{
    let d = digit_char(n % 10);
    assert(digit_value(d) == n % 10) by {
        assert((n % 10 + 48) as u8 as char as nat == n % 10 + 48);
    }
    if n < 10 {
        assert(decimal(n).drop_last() == Seq::<char>::empty());
        assert(digits_value(Seq::<char>::empty()) == 0);
        assert(decimal(n).last() == digit_char(n));
        assert(digit_value(digit_char(n)) == n) by {
            assert((n + 48) as u8 as char as nat == n + 48);
        }
    } else {
        lemma_decimal_reads_back(n / 10);
        let t = decimal(n);
        assert(t.drop_last() == decimal(n / 10));
        assert forall|j: int| 0 <= j < t.len() implies is_digit(#[trigger] t[j]) by {
            if j < t.len() - 1 {
                assert(t[j] == decimal(n / 10)[j]);
            } else {
                assert((n % 10 + 48) as u8 as char as nat == n % 10 + 48);
            }
        }
        assert(t.last() == d);
        assert(digits_value(t) == digits_value(decimal(n / 10)) * 10 + digit_value(d));
        assert((n / 10) * 10 + n % 10 == n) by (nonlinear_arith);
    }
}

proof fn lemma_number_text_reads_back(v: u64)
    ensures
        parse_u64(trim(decimal(v as nat))) == Some(v),
{
    let d = decimal(v as nat);
    lemma_decimal_reads_back(v as nat);
    assert(!is_ws(d[0]));
    assert(trim_start(d) == d);
    assert(!is_ws(d.last()));
    assert(trim_end(d) == d);
    assert(d[0] != '+');
    assert(unsigned_digits(d) == d);
}

/// A stamp that writes as one line and reads back as itself: its keyword
/// holds no `=` and no line break.
pub open spec fn writable_stamp(e: (Seq<char>, u64)) -> bool {
    forall|j: int| 0 <= j < e.0.len() ==> #[trigger] e.0[j] != '=' && e.0[j] != '\n'
}

/// What the expiry or recency file is written as reads back as the same
/// stamps, in the same order, when no keyword holds `=` or a line break.
pub proof fn law_stamps_file_round_trip(s: Seq<(Seq<char>, u64)>)
    requires
        forall|i: int| 0 <= i < s.len() ==> writable_stamp(#[trigger] s[i]),
    ensures
        stamp_records(render_stamps(s)) == s,
    decreases s.len(),
{
    if s.len() == 0 {
        assert(lines(Seq::<char>::empty()) == Seq::<Seq<char>>::empty());
    } else {
        let dl = s.drop_last();
        assert forall|i: int| 0 <= i < dl.len() implies writable_stamp(#[trigger] dl[i]) by {
            assert(dl[i] == s[i]);
        }
        law_stamps_file_round_trip(dl);
        let head = render_stamps(dl);
        if dl.len() > 0 {
            assert(stamp_line(dl.last()).last() == '\n');
            assert(head.last() == '\n');
        }
        let e = s.last();
        let num = decimal(e.1 as nat);
        lemma_decimal_reads_back(e.1 as nat);
        lemma_number_text_reads_back(e.1);
        let c = e.0 + seq!['='] + num;
        assert(stamp_line(e) == c.push('\n'));
        assert forall|j: int| 0 <= j < c.len() implies #[trigger] c[j] != '\n' by {
            if j < e.0.len() {
                assert(c[j] == e.0[j]);
            } else if j > e.0.len() {
                assert(c[j] == num[j - e.0.len() - 1]);
            }
        }
        lemma_lines_single(c, 0);
        assert(c.last() == num.last());
        assert(strip_cr(c) == c);
        let k = e.0.len() as int;
        assert forall|m: int| 0 <= m < k implies #[trigger] c[m] != '=' by {
            assert(c[m] == e.0[m]);
        }
        lemma_eq_from_skip(c, k, 0);
        assert(c.subrange(0, k) == e.0);
        assert(c.subrange(k + 1, c.len() as int) == num);
        lemma_lines_concat(head, stamp_line(e));
        let ls = lines(render_stamps(s));
        assert(ls == lines(head).push(c));
        assert(ls.drop_last() == lines(head));
    }
}

} // verus!
