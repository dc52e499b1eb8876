use vstd::prelude::*;
use vstd::string::*;
use crate::text::{decimal, parse_u32, parse_decimal_u32, push_char, push_decimal};

verus! {

/// The number of entries the table keeps.
pub const TABLE_SIZE: usize = 5;

/// A table entry as the contracts see it: the player's name and score.
pub open spec fn entry_view(e: (String, u32)) -> (Seq<char>, u32) {
    (e.0@, e.1)
}

/// The entries of a table as the contracts see them.
pub open spec fn entries_view(v: Seq<(String, u32)>) -> Seq<(Seq<char>, u32)> {
    v.map_values(|e: (String, u32)| entry_view(e))
}

/// Whether scores never increase along `s`.
pub open spec fn sorted_desc(s: Seq<(Seq<char>, u32)>) -> bool {
    forall|i: int, j: int| 0 <= i < j < s.len() ==> s[i].1 >= s[j].1
}

/// Where `insert_desc` puts an entry with score `key`: just after the last
/// entry, counted from the back, whose score is at least `key`.
pub open spec fn back_pos(s: Seq<(Seq<char>, u32)>, key: u32) -> int
    decreases s.len(),
{
    if s.len() == 0 {
        0
    } else if s.last().1 >= key {
        s.len() as int
    } else {
        back_pos(s.drop_last(), key)
    }
}

/// `s` with `e` inserted after every entry at its back whose score is not
/// below `e`'s.
pub open spec fn insert_desc(s: Seq<(Seq<char>, u32)>, e: (Seq<char>, u32)) -> Seq<(Seq<char>, u32)> {
    s.insert(back_pos(s, e.1), e)
}

/// `s` sorted by descending score, entries with equal scores kept in their
/// order (a stable sort, as `slice::sort_by` is).
pub open spec fn sort_desc(s: Seq<(Seq<char>, u32)>) -> Seq<(Seq<char>, u32)>
    decreases s.len(),
{
    if s.len() == 0 {
        s
    } else {
        insert_desc(sort_desc(s.drop_last()), s.last())
    }
}

/// The name given to the entries that fill up a short table.
pub open spec fn filler_name() -> Seq<char> {
    seq!['C', 'P', 'U']
}

/// The score given to the entries that fill up a short table.
pub open spec fn filler_score() -> u32 {
    10
}

/// `s` filled up with `CPU` entries of score 10 to at least five entries.
pub open spec fn padded(s: Seq<(Seq<char>, u32)>) -> Seq<(Seq<char>, u32)>
    decreases TABLE_SIZE - s.len(),
{
    if s.len() >= TABLE_SIZE {
        s
    } else {
        padded(s.push((filler_name(), filler_score())))
    }
}

/// Whether `score` would earn a place: the table has fewer than five
/// entries, or `score` beats its last entry.
pub open spec fn is_high(s: Seq<(Seq<char>, u32)>, score: u32) -> bool {
    s.len() < TABLE_SIZE || score > (if s.len() > 0 {
        s.last().1
    } else {
        0
    })
}

/// The position of the first `c` in `s`, or the length of `s` when it holds
/// none.
pub open spec fn first_index(s: Seq<char>, c: char) -> int
    decreases s.len(),
{
    if s.len() == 0 {
        0
    } else if s[0] == c {
        0
    } else {
        1 + first_index(s.drop_first(), c)
    }
}

/// How many times `c` occurs in `s`.
pub open spec fn count_char(s: Seq<char>, c: char) -> nat
    decreases s.len(),
{
    if s.len() == 0 {
        0
    } else {
        count_char(s.drop_last(), c) + if s.last() == c {
            1nat
        } else {
            0nat
        }
    }
}

/// `line` without one trailing carriage return.
pub open spec fn strip_cr(line: Seq<char>) -> Seq<char> {
    if line.len() > 0 && line.last() == '\r' {
        line.drop_last()
    } else {
        line
    }
}

/// The first position of `c` lies within `s`, holds `c` when it is not the
/// end, and no earlier position holds `c`.
pub proof fn lemma_first_index_bounds(s: Seq<char>, c: char)
    ensures
        0 <= first_index(s, c) <= s.len(),
        first_index(s, c) < s.len() ==> s[first_index(s, c)] == c,
        forall|i: int| 0 <= i < first_index(s, c) ==> s[i] != c,
    decreases s.len(),
{
    if s.len() > 0 && s[0] != c {
        lemma_first_index_bounds(s.drop_first(), c);
        assert forall|i: int| 0 <= i < first_index(s, c) implies s[i] != c by {
            if i > 0 {
                assert(s[i] == s.drop_first()[i - 1]);
            }
        }
    }
}

/// The lines of `s` as `str::lines` gives them: split at each `\n`, a
/// carriage return before a `\n` dropped, and no empty line after a final
/// `\n`.
pub open spec fn text_lines(s: Seq<char>) -> Seq<Seq<char>>
    decreases s.len(),
{
    if s.len() == 0 {
        seq![]
    } else {
        let i = first_index(s, '\n');
        proof {
            lemma_first_index_bounds(s, '\n');
        }
        if i == s.len() {
            seq![s]
        } else {
            seq![strip_cr(s.take(i))] + text_lines(s.skip(i + 1))
        }
    }
}

/// The entry a line of the score file describes: a name, one colon, and a
/// score as `parse_u32` reads it. Any other line describes none.
pub open spec fn parse_line(line: Seq<char>) -> Option<(Seq<char>, u32)> {
    if count_char(line, ':') == 1 {
        let i = first_index(line, ':');
        match parse_u32(line.skip(i + 1)) {
            Some(v) => Some((line.take(i), v)),
            None => None,
        }
    } else {
        None
    }
}

/// The entries that `lines` describe, in order; lines that describe none
/// are skipped.
pub open spec fn parse_entries(lines: Seq<Seq<char>>) -> Seq<(Seq<char>, u32)>
    decreases lines.len(),
{
    if lines.len() == 0 {
        seq![]
    } else {
        let rest = parse_entries(lines.drop_last());
        match parse_line(lines.last()) {
            Some(e) => rest.push(e),
            None => rest,
        }
    }
}

/// The entries a score file's text describes.
pub open spec fn scores_in(content: Seq<char>) -> Seq<(Seq<char>, u32)> {
    parse_entries(text_lines(content))
}

/// The table after loading: the entries read from the saved text, or the
/// previous ones when there is none, filled up and sorted.
pub open spec fn loaded(prev: Seq<(Seq<char>, u32)>, saved: Option<Seq<char>>) -> Seq<(Seq<char>, u32)> {
    sort_desc(
        padded(
            match saved {
                Some(c) => scores_in(c),
                None => prev,
            },
        ),
    )
}

/// The score file's line for an entry: the name, a colon, and the score in
/// decimal.
pub open spec fn entry_line(e: (Seq<char>, u32)) -> Seq<char> {
    e.0 + seq![':'] + decimal(e.1 as nat)
}

/// `lines` joined with `\n` between them.
pub open spec fn join_lines(lines: Seq<Seq<char>>) -> Seq<char>
    decreases lines.len(),
{
    if lines.len() == 0 {
        seq![]
    } else if lines.len() == 1 {
        lines[0]
    } else {
        lines[0] + seq!['\n'] + join_lines(lines.drop_first())
    }
}

/// The text of the score file for table `s`: one line per entry.
pub open spec fn saved_text(s: Seq<(Seq<char>, u32)>) -> Seq<char> {
    join_lines(s.map_values(|e: (Seq<char>, u32)| entry_line(e)))
}

/// The name `str::to_uppercase` makes of `s`.
pub uninterp spec fn str_upper(s: Seq<char>) -> Seq<char>;

/// The table after a new entry: the entry added, the table sorted, and cut
/// to five entries.
pub open spec fn with_entry(s: Seq<(Seq<char>, u32)>, name: Seq<char>, score: u32) -> Seq<(Seq<char>, u32)> {
    let t = sort_desc(s.push((str_upper(name), score)));
    if t.len() > TABLE_SIZE {
        t.take(TABLE_SIZE as int)
    } else {
        t
    }
}

/// `str::to_uppercase`: the name is the upper-case form under Unicode's
/// case mapping, which this contract leaves unstated behind `str_upper`;
/// the mapping leaves characters without an upper-case form as they are,
/// and no character's upper-case form is a colon or a line break, so a
/// storable name stays storable.
#[verifier::external_body]
fn to_uppercase(s: &str) -> (r: String)
    ensures
        r@ == str_upper(s@),
        storable_name(s@) ==> storable_name(r@),
{
    s.to_uppercase()
}

proof fn lemma_entries_view_insert(v: Seq<(String, u32)>, i: int, e: (String, u32))
    requires
        0 <= i <= v.len(),
    ensures
        entries_view(v.insert(i, e)) == entries_view(v).insert(i, entry_view(e)),
{
    assert(entries_view(v.insert(i, e)) =~= entries_view(v).insert(i, entry_view(e)));
}

proof fn lemma_back_pos_bounds(s: Seq<(Seq<char>, u32)>, key: u32)
    ensures
        0 <= back_pos(s, key) <= s.len(),
    decreases s.len(),
{
    if s.len() > 0 && s.last().1 < key {
        lemma_back_pos_bounds(s.drop_last(), key);
    }
}

proof fn lemma_sort_len(s: Seq<(Seq<char>, u32)>)
    ensures
        sort_desc(s).len() == s.len(),
    decreases s.len(),
{
    if s.len() > 0 {
        lemma_sort_len(s.drop_last());
        lemma_back_pos_bounds(sort_desc(s.drop_last()), s.last().1);
    }
}

/// In any table, the entries after `back_pos` score below `key`; in a
/// sorted table, the ones before it score at least `key`.
proof fn lemma_back_pos_split(s: Seq<(Seq<char>, u32)>, key: u32)
    ensures
        0 <= back_pos(s, key) <= s.len(),
        forall|i: int| back_pos(s, key) <= i < s.len() ==> #[trigger] s[i].1 < key,
        back_pos(s, key) > 0 ==> s[back_pos(s, key) - 1].1 >= key,
        sorted_desc(s) ==> forall|i: int| 0 <= i < back_pos(s, key) ==> #[trigger] s[i].1 >= key,
    decreases s.len(),
{
    lemma_back_pos_bounds(s, key);
    if s.len() > 0 && s.last().1 < key {
        let t = s.drop_last();
        lemma_back_pos_split(t, key);
        assert forall|i: int| back_pos(s, key) <= i < s.len() implies #[trigger] s[i].1 < key by {
            if i < s.len() - 1 {
                assert(s[i] == t[i]);
            }
        }
        if sorted_desc(s) {
            assert(sorted_desc(t));
            assert forall|i: int| 0 <= i < back_pos(s, key) implies #[trigger] s[i].1 >= key by {
                assert(s[i] == t[i]);
            }
        }
    }
}

/// Inserting into a sorted table keeps it sorted.
proof fn lemma_insert_sorted(s: Seq<(Seq<char>, u32)>, e: (Seq<char>, u32))
    requires
        sorted_desc(s),
    ensures
        sorted_desc(insert_desc(s, e)),
{
    lemma_back_pos_split(s, e.1);
    let p = back_pos(s, e.1);
    let t = insert_desc(s, e);
    assert forall|i: int, j: int| 0 <= i < j < t.len() implies t[i].1 >= t[j].1 by {
        if i < p && j < p {
            assert(t[i] == s[i] && t[j] == s[j]);
        } else if i < p && j == p {
        } else if i < p {
            assert(t[i] == s[i] && t[j] == s[j - 1]);
        } else if i == p {
            assert(t[j] == s[j - 1]);
        } else {
            assert(t[i] == s[i - 1] && t[j] == s[j - 1]);
        }
    }
}

/// Sorting yields a table whose scores never increase, holding the same
/// entries as before.
pub proof fn lemma_sort_desc(s: Seq<(Seq<char>, u32)>)
    ensures
        sorted_desc(sort_desc(s)),
        sort_desc(s).to_multiset() == s.to_multiset(),
        sort_desc(s).len() == s.len(),
    decreases s.len(),
{
    broadcast use vstd::seq_lib::to_multiset_build, vstd::seq_lib::to_multiset_insert;

    lemma_sort_len(s);
    if s.len() > 0 {
        let t = s.drop_last();
        lemma_sort_desc(t);
        lemma_insert_sorted(sort_desc(t), s.last());
        lemma_back_pos_bounds(sort_desc(t), s.last().1);
        assert(t.push(s.last()) =~= s);
    } else {
        assert(sort_desc(s) == s);
    }
}

/// Sorting a table that is already sorted leaves it as it is.
pub proof fn lemma_sort_sorted(s: Seq<(Seq<char>, u32)>)
    requires
        sorted_desc(s),
    ensures
        sort_desc(s) == s,
    decreases s.len(),
{
    if s.len() > 0 {
        let t = s.drop_last();
        assert(sorted_desc(t));
        lemma_sort_sorted(t);
        assert(back_pos(t, s.last().1) == t.len()) by {
            if t.len() > 0 {
                assert(t.last().1 >= s.last().1);
            }
        }
        assert(t.insert(t.len() as int, s.last()) =~= s);
    }
}

proof fn lemma_padded(s: Seq<(Seq<char>, u32)>)
    ensures
        padded(s).len() >= TABLE_SIZE,
        s.len() >= TABLE_SIZE ==> padded(s) == s,
    decreases TABLE_SIZE - s.len(),
{
    if s.len() < TABLE_SIZE {
        lemma_padded(s.push((filler_name(), filler_score())));
    }
}

/// A loaded table, whatever was saved, holds at least five entries and is
/// sorted best first.
pub proof fn lemma_loaded_table(prev: Seq<(Seq<char>, u32)>, saved: Option<Seq<char>>)
    ensures
        loaded(prev, saved).len() >= TABLE_SIZE,
        sorted_desc(loaded(prev, saved)),
{
    let p = match saved {
        Some(c) => scores_in(c),
        None => prev,
    };
    lemma_padded(p);
    lemma_sort_desc(padded(p));
}

/// Adding an entry to a sorted table of at most five entries: the table
/// stays sorted and grows by one up to five entries; a score that
/// `is_high` accepts enters the table, pushing its last entry out when it
/// was full; any other score leaves the table as it was.
pub proof fn lemma_add_entry(s: Seq<(Seq<char>, u32)>, name: Seq<char>, score: u32)
    requires
        sorted_desc(s),
        s.len() <= TABLE_SIZE,
    ensures
        sorted_desc(with_entry(s, name, score)),
        with_entry(s, name, score).len() == if s.len() < TABLE_SIZE {
            s.len() + 1
        } else {
            TABLE_SIZE as nat
        },
        is_high(s, score) ==> with_entry(s, name, score).to_multiset() == (if s.len() < TABLE_SIZE {
            s
        } else {
            s.drop_last()
        }).to_multiset().insert((str_upper(name), score)),
        !is_high(s, score) ==> with_entry(s, name, score) == s,
{
    broadcast use vstd::seq_lib::to_multiset_insert;

    let e = (str_upper(name), score);
    lemma_sort_sorted(s);
    assert(s.push(e).drop_last() =~= s);
    let p = back_pos(s, score);
    let t = s.insert(p, e);
    lemma_back_pos_split(s, score);
    assert(sort_desc(s.push(e)) == t);
    lemma_insert_sorted(s, e);
    if s.len() < TABLE_SIZE {
    } else {
        if is_high(s, score) {
            assert(p < s.len());
            assert(t.take(TABLE_SIZE as int) =~= s.drop_last().insert(p, e));
        } else {
            assert(p == s.len());
            assert(t.take(TABLE_SIZE as int) =~= s);
        }
    }
}

proof fn lemma_count_none(s: Seq<char>, c: char)
    requires
        forall|i: int| 0 <= i < s.len() ==> s[i] != c,
    ensures
        count_char(s, c) == 0,
    decreases s.len(),
{
    if s.len() > 0 {
        lemma_count_none(s.drop_last(), c);
    }
}

proof fn lemma_count_concat(a: Seq<char>, b: Seq<char>, c: char)
    ensures
        count_char(a + b, c) == count_char(a, c) + count_char(b, c),
    decreases b.len(),
{
    if b.len() == 0 {
        assert(a + b =~= a);
    } else {
        lemma_count_concat(a, b.drop_last(), c);
        assert((a + b).drop_last() =~= a + b.drop_last());
    }
}

/// Whether a name can be written to the score file and read back: it holds
/// no colon and no line break.
pub open spec fn storable_name(name: Seq<char>) -> bool {
    forall|i: int| 0 <= i < name.len() ==> name[i] != ':' && name[i] != '\n'
}

/// Whether every name in the table is storable.
pub open spec fn all_storable(s: Seq<(Seq<char>, u32)>) -> bool {
    forall|k: int| 0 <= k < s.len() ==> storable_name(#[trigger] s[k].0)
}

proof fn lemma_sort_storable(t: Seq<(Seq<char>, u32)>)
    requires
        all_storable(t),
    ensures
        all_storable(sort_desc(t)),
{
    broadcast use vstd::seq_lib::to_multiset_contains;

    lemma_sort_desc(t);
    let u = sort_desc(t);
    assert forall|k: int| 0 <= k < u.len() implies storable_name(#[trigger] u[k].0) by {
        assert(u.contains(u[k]));
        assert(u.to_multiset().count(u[k]) > 0);
        assert(t.contains(u[k]));
        let j = choose|j: int| 0 <= j < t.len() && t[j] == u[k];
        assert(storable_name(t[j].0));
    }
}

/// The line written for an entry with a storable name reads back as that
/// entry.
proof fn lemma_entry_line(e: (Seq<char>, u32))
    requires
        storable_name(e.0),
    ensures
        parse_line(entry_line(e)) == Some(e),
        entry_line(e).len() > 0,
        forall|i: int| 0 <= i < entry_line(e).len() ==> entry_line(e)[i] != '\n',
        entry_line(e).last() != '\r',
{
    let name = e.0;
    let d = decimal(e.1 as nat);
    let l = entry_line(e);
    crate::text::lemma_decimal_digits(e.1 as nat);
    crate::text::lemma_parse_decimal(e.1);
    assert forall|i: int| 0 <= i < d.len() implies d[i] != ':' && d[i] != '\n' && d[i] != '\r' by {
        assert(crate::text::is_digit(d[i]));
    }
    lemma_count_none(name, ':');
    lemma_count_none(d, ':');
    lemma_count_concat(name, seq![':'], ':');
    lemma_count_concat(name + seq![':'], d, ':');
    assert(count_char(seq![':'], ':') == 1) by {
        assert(seq![':'].drop_last() =~= Seq::<char>::empty());
        assert(count_char(Seq::<char>::empty(), ':') == 0);
        assert(seq![':'].last() == ':');
    }
    assert forall|j: int| 0 <= j < name.len() implies l[j] != ':' by {
        assert(l[j] == name[j]);
    }
    lemma_first_index_at(l, ':', name.len() as int);
    assert(l.skip(name.len() as int + 1) =~= d);
    assert(l.take(name.len() as int) =~= name);
    assert forall|i: int| 0 <= i < l.len() implies l[i] != '\n' by {
        if i < name.len() {
            assert(l[i] == name[i]);
        } else if i > name.len() {
            assert(l[i] == d[i - name.len() - 1]);
        }
    }
    assert(l.last() == d.last());
}

/// `str::lines` splits text joined with line breaks back into its lines,
/// when they are non-empty, hold no line break, and do not end in a
/// carriage return.
proof fn lemma_text_lines_join(ls: Seq<Seq<char>>)
    requires
        ls.len() >= 1,
        forall|k: int|
            0 <= k < ls.len() ==> (#[trigger] ls[k]).len() > 0 && ls[k].last() != '\r' && forall|i: int|
                0 <= i < ls[k].len() ==> ls[k][i] != '\n',
    ensures
        text_lines(join_lines(ls)) == ls,
    decreases ls.len(),
{
    let l0 = ls[0];
    if ls.len() == 1 {
        lemma_text_lines_last(l0);
        assert(seq![l0] =~= ls);
    } else {
        let rest = ls.drop_first();
        assert forall|k: int| 0 <= k < rest.len() implies (#[trigger] rest[k]).len() > 0 && rest[k].last() != '\r'
            && forall|i: int| 0 <= i < rest[k].len() ==> rest[k][i] != '\n' by {
            assert(rest[k] == ls[k + 1]);
        }
        lemma_text_lines_join(rest);
        let j = join_lines(ls);
        assert(j == l0 + seq!['\n'] + join_lines(rest));
        assert forall|i: int| 0 <= i < l0.len() implies j[i] != '\n' by {
            assert(j[i] == l0[i]);
        }
        lemma_text_lines_split(j, l0.len() as int);
        assert(j.take(l0.len() as int) =~= l0);
        assert(j.skip(l0.len() as int + 1) =~= join_lines(rest));
        assert(seq![l0] + rest =~= ls);
    }
}

/// Reading back the lines written for storable entries gives the entries.
proof fn lemma_parse_entry_lines(s: Seq<(Seq<char>, u32)>)
    requires
        forall|k: int| 0 <= k < s.len() ==> storable_name(#[trigger] s[k].0),
    ensures
        parse_entries(s.map_values(|e: (Seq<char>, u32)| entry_line(e))) == s,
    decreases s.len(),
{
    if s.len() > 0 {
        let t = s.drop_last();
        lemma_parse_entry_lines(t);
        let ls = s.map_values(|e: (Seq<char>, u32)| entry_line(e));
        assert(ls.drop_last() =~= t.map_values(|e: (Seq<char>, u32)| entry_line(e)));
        lemma_entry_line(s.last());
        assert(t.push(s.last()) =~= s);
    } else {
        assert(s.map_values(|e: (Seq<char>, u32)| entry_line(e)) =~= Seq::<Seq<char>>::empty());
    }
}

/// Saving a table and loading the text back gives the same table, for a
/// sorted table of at least five entries whose names are storable.
pub proof fn lemma_save_then_load(s: Seq<(Seq<char>, u32)>, prev: Seq<(Seq<char>, u32)>)
    requires
        sorted_desc(s),
        s.len() >= TABLE_SIZE,
        forall|k: int| 0 <= k < s.len() ==> storable_name(#[trigger] s[k].0),
    ensures
        loaded(prev, Some(saved_text(s))) == s,
{
    let ls = s.map_values(|e: (Seq<char>, u32)| entry_line(e));
    assert forall|k: int| 0 <= k < ls.len() implies (#[trigger] ls[k]).len() > 0 && ls[k].last() != '\r'
        && forall|i: int| 0 <= i < ls[k].len() ==> ls[k][i] != '\n' by {
        lemma_entry_line(s[k]);
    }
    lemma_text_lines_join(ls);
    lemma_parse_entry_lines(s);
    lemma_padded(s);
    lemma_sort_sorted(s);
}

/// Sorts the entries by descending score, keeping the order of equal
/// scores (see `sort_desc`).
fn sort_entries(v: &mut Vec<(String, u32)>)
    ensures
        entries_view(final(v)@) == sort_desc(entries_view(old(v)@)),
{
    let ghost orig = entries_view(v@);
    let mut rest: Vec<(String, u32)> = Vec::new();
    std::mem::swap(v, &mut rest);
    assert(entries_view(v@) =~= sort_desc(orig.take(0)));
    assert(entries_view(rest@) =~= orig.skip(0));
    while rest.len() > 0
        invariant
            entries_view(rest@).len() <= orig.len(),
            entries_view(rest@) == orig.skip(orig.len() - entries_view(rest@).len()),
            entries_view(v@) == sort_desc(orig.take(orig.len() - entries_view(rest@).len())),
            v@.len() == orig.len() - rest@.len(),
        decreases rest@.len(),
    {
        let ghost k = orig.len() - rest@.len();
        let ghost before = entries_view(rest@);
        let ghost first = rest@[0];
        assert(before[0] == entry_view(first));
        assert(orig.skip(k)[0] == orig[k]);
        let e = rest.remove(0);
        assert(entries_view(rest@) =~= before.drop_first());
        assert(entry_view(e) == orig[k]);
        let key = e.1;
        let ghost cur = entries_view(v@);
        let mut j = v.len();
        assert(cur.take(j as int) =~= cur);
        while j > 0 && v[j - 1].1 < key
            invariant
                j <= v@.len(),
                cur == entries_view(v@),
                back_pos(cur, key) == back_pos(cur.take(j as int), key),
            decreases j,
        {
            assert(cur.take(j as int).drop_last() =~= cur.take(j - 1));
            assert(cur.take(j as int).last() == cur[j - 1]);
            j = j - 1;
        }
        proof {
            if j > 0 {
                assert(cur.take(j as int).last() == cur[j - 1]);
            }
        }
        assert(back_pos(cur, key) == j);
        proof {
            lemma_entries_view_insert(v@, j as int, e);
            assert(orig.take(k + 1).drop_last() =~= orig.take(k));
            assert(orig.take(k + 1).last() == orig[k]);
            lemma_sort_len(orig.take(k));
        }
        v.insert(j, e);
        assert(before.drop_first() =~= orig.skip(k + 1));
    }
    assert(orig.take(orig.len() as int) =~= orig);
}

/// If no `c` comes before position `i` of `s` and `s[i]` is `c`, then `i`
/// is the first position of `c`.
proof fn lemma_first_index_at(s: Seq<char>, c: char, i: int)
    requires
        0 <= i <= s.len(),
        forall|j: int| 0 <= j < i ==> s[j] != c,
        i < s.len() ==> s[i] == c,
    ensures
        first_index(s, c) == i,
    decreases s.len(),
{
    if s.len() > 0 && i > 0 {
        assert forall|j: int| 0 <= j < i - 1 implies s.drop_first()[j] != c by {
            assert(s.drop_first()[j] == s[j + 1]);
        }
        lemma_first_index_at(s.drop_first(), c, i - 1);
    }
}

/// Counting `c` one character further.
proof fn lemma_count_step(s: Seq<char>, c: char, i: int)
    requires
        0 <= i < s.len(),
    ensures
        count_char(s.take(i + 1), c) == count_char(s.take(i), c) + if s[i] == c {
            1nat
        } else {
            0nat
        },
{
    assert(s.take(i + 1).drop_last() =~= s.take(i));
}

/// With a single `c` in `s`, found at `i`, no `c` precedes `i`.
proof fn lemma_count_one(s: Seq<char>, c: char, i: int)
    requires
        0 <= i <= s.len(),
        count_char(s.take(i), c) == 0,
    ensures
        forall|j: int| 0 <= j < i ==> s[j] != c,
    decreases i,
{
    if i > 0 {
        lemma_count_step(s, c, i - 1);
        lemma_count_one(s, c, i - 1);
    }
}

/// Reads one line of the score file (see `parse_line`).
fn parse_score_line(line: &str) -> (r: Option<(String, u32)>)
    ensures
        r matches Some(e) ==> parse_line(line@) == Some(entry_view(e)),
        r is None ==> parse_line(line@) is None,
{
    let ghost s = line@;
    let n = line.unicode_len();
    let mut colons: usize = 0;
    let mut first: usize = n;
    let mut i: usize = 0;
    while i < n
        invariant
            s == line@,
            n == s.len(),
            i <= n,
            colons <= i,
            colons == count_char(s.take(i as int), ':'),
            colons == 0 ==> first == n,
            colons > 0 ==> first < i && s[first as int] == ':' && count_char(s.take(first as int), ':') == 0,
        decreases n - i,
    {
        proof {
            lemma_count_step(s, ':', i as int);
        }
        if line.get_char(i) == ':' {
            if colons == 0 {
                first = i;
            }
            colons = colons + 1;
        }
        i = i + 1;
    }
    assert(s.take(n as int) =~= s);
    if colons != 1 {
        return None;
    }
    proof {
        lemma_count_one(s, ':', first as int);
        lemma_first_index_at(s, ':', first as int);
    }
    let name = String::from_str(line.substring_char(0, first));
    let score = parse_decimal_u32(line.substring_char(first + 1, n));
    assert(s.subrange(first + 1, n as int) =~= s.skip(first + 1));
    assert(s.subrange(0, first as int) =~= s.take(first as int));
    match score {
        Some(v) => Some((name, v)),
        None => None,
    }
}

/// Adding one more line adds the entry it describes, if any.
proof fn lemma_parse_entries_push(lines: Seq<Seq<char>>, l: Seq<char>)
    ensures
        parse_entries(lines.push(l)) == match parse_line(l) {
            Some(e) => parse_entries(lines).push(e),
            None => parse_entries(lines),
        },
{
    assert(lines.push(l).drop_last() =~= lines);
}

/// A text whose first `\n` is at `i` splits into the line before it and the
/// lines after it.
proof fn lemma_text_lines_split(s: Seq<char>, i: int)
    requires
        0 <= i < s.len(),
        s[i] == '\n',
        forall|j: int| 0 <= j < i ==> s[j] != '\n',
    ensures
        text_lines(s) == seq![strip_cr(s.take(i))] + text_lines(s.skip(i + 1)),
{
    lemma_first_index_at(s, '\n', i);
}

/// A non-empty text without `\n` is a single line.
proof fn lemma_text_lines_last(s: Seq<char>)
    requires
        s.len() > 0,
        forall|j: int| 0 <= j < s.len() ==> s[j] != '\n',
    ensures
        text_lines(s) == seq![s],
{
    lemma_first_index_at(s, '\n', s.len() as int);
}

/// Reads the entries of a score file's text (see `scores_in`).
fn parse_scores(content: &str) -> (r: Vec<(String, u32)>)
    ensures
        entries_view(r@) == scores_in(content@),
{
    let ghost s = content@;
    let n = content.unicode_len();
    let mut out: Vec<(String, u32)> = Vec::new();
    let ghost mut done: Seq<Seq<char>> = seq![];
    let mut start: usize = 0;
    let mut i: usize = 0;
    assert(s.skip(0) =~= s);
    assert(entries_view(out@) =~= seq![]);
    assert(done + text_lines(s.skip(0)) =~= text_lines(s));
    while i < n
        invariant
            s == content@,
            n == s.len(),
            start <= i <= n,
            forall|j: int| start <= j < i ==> s[j] != '\n',
            text_lines(s) == done + text_lines(s.skip(start as int)),
            entries_view(out@) == parse_entries(done),
        decreases n - i,
    {
        if content.get_char(i) == '\n' {
            let end = if i > start && content.get_char(i - 1) == '\r' {
                i - 1
            } else {
                i
            };
            let line = content.substring_char(start, end);
            let ghost rest = s.skip(start as int);
            proof {
                assert forall|j: int| 0 <= j < i - start implies rest[j] != '\n' by {
                    assert(rest[j] == s[start + j]);
                }
                lemma_text_lines_split(rest, i - start);
                assert(rest.take(i - start) =~= s.subrange(start as int, i as int));
                assert(rest.skip(i - start + 1) =~= s.skip(i + 1));
                assert(line@ =~= strip_cr(s.subrange(start as int, i as int)));
                lemma_parse_entries_push(done, line@);
                assert(done.push(line@) + text_lines(s.skip(i + 1)) =~= done + (seq![line@] + text_lines(s.skip(i + 1))));
            }
            let parsed = parse_score_line(line);
            match parsed {
                Some(e) => {
                    out.push(e);
                    assert(entries_view(out@) =~= parse_entries(done).push(entry_view(e)));
                },
                None => {},
            }
            proof {
                done = done.push(line@);
            }
            start = i + 1;
        }
        i = i + 1;
    }
    if start < n {
        let line = content.substring_char(start, n);
        proof {
            let rest = s.skip(start as int);
            assert(rest =~= line@);
            assert forall|j: int| 0 <= j < rest.len() implies rest[j] != '\n' by {
                assert(rest[j] == s[start + j]);
            }
            lemma_text_lines_last(rest);
            lemma_parse_entries_push(done, line@);
            assert(done + seq![line@] =~= done.push(line@));
        }
        let parsed = parse_score_line(line);
        match parsed {
            Some(e) => {
                out.push(e);
                assert(entries_view(out@) =~= parse_entries(done).push(entry_view(e)));
            },
            None => {},
        }
    } else {
        proof {
            assert(s.skip(start as int) =~= Seq::<char>::empty());
            assert(done + Seq::<Seq<char>>::empty() =~= done);
        }
    }
    out
}

/// Joining one more line.
proof fn lemma_join_push(lines: Seq<Seq<char>>, l: Seq<char>)
    ensures
        join_lines(lines.push(l)) == if lines.len() == 0 {
            l
        } else {
            join_lines(lines) + seq!['\n'] + l
        },
    decreases lines.len(),
{
    if lines.len() >= 1 {
        assert(lines.push(l).drop_first() =~= lines.drop_first().push(l));
        lemma_join_push(lines.drop_first(), l);
        if lines.len() == 1 {
            assert(lines.drop_first() =~= Seq::<Seq<char>>::empty());
        }
    }
}

/// The high-score table: player names with their scores, best first.
pub struct Leaderboard {
    pub entries: Vec<(String, u32)>,
}

impl View for Leaderboard {
    type V = Seq<(Seq<char>, u32)>;

    open spec fn view(&self) -> Seq<(Seq<char>, u32)> {
        entries_view(self.entries@)
    }
}

impl Leaderboard {
    /// A table read from the saved score file's text, if there is one (see
    /// `load`).
    pub fn new(saved: Option<&str>) -> (r: Self)
        ensures
            r@ == loaded(
                seq![],
                match saved {
                    Some(c) => Some(c@),
                    None => None,
                },
            ),
    {
        let mut lb = Leaderboard { entries: Vec::new() };
        assert(lb@ =~= seq![]);
        lb.load(saved);
        lb
    }

    /// Replaces the entries with those that the saved score file's text
    /// describes, when there is such a text; then fills the table up to five
    /// entries with `CPU` scoring 10 and sorts it best first.
    pub fn load(&mut self, saved: Option<&str>)
        ensures
            final(self)@ == loaded(
                old(self)@,
                match saved {
                    Some(c) => Some(c@),
                    None => None,
                },
            ),
    {
        if let Some(content) = saved {
            self.entries = parse_scores(content);
        }
        let ghost start = self@;
        while self.entries.len() < TABLE_SIZE
            invariant
                padded(self@) == padded(start),
            decreases TABLE_SIZE - self.entries@.len(),
        {
            let ghost before = self@;
            proof {
                reveal_strlit("CPU");
                assert("CPU"@ =~= filler_name());
            }
            self.entries.push((String::from_str("CPU"), 10));
            assert(self@ =~= before.push((filler_name(), filler_score())));
        }
        sort_entries(&mut self.entries);
    }

    /// The text the score file holds for this table (see `saved_text`).
    pub fn save_content(&self) -> (r: String)
        ensures
            r@ == saved_text(self@),
    {
        let ghost lines = self@.map_values(|e: (Seq<char>, u32)| entry_line(e));
        let mut out = String::new();
        let n = self.entries.len();
        let mut i: usize = 0;
        assert(lines.take(0) =~= Seq::<Seq<char>>::empty());
        while i < n
            invariant
                n == self.entries@.len(),
                lines == self@.map_values(|e: (Seq<char>, u32)| entry_line(e)),
                i <= n,
                out@ == join_lines(lines.take(i as int)),
            decreases n - i,
        {
            let ghost before = out@;
            if i > 0 {
                push_char(&mut out, '\n');
            }
            out.append(self.entries[i].0.as_str());
            push_char(&mut out, ':');
            push_decimal(&mut out, self.entries[i].1 as u64);
            proof {
                assert(lines.take(i + 1) =~= lines.take(i as int).push(lines[i as int]));
                lemma_join_push(lines.take(i as int), lines[i as int]);
                assert(lines[i as int] == entry_line(self@[i as int]));
                if i > 0 {
                    assert(out@ =~= before + seq!['\n'] + lines[i as int]);
                } else {
                    assert(out@ =~= lines[i as int]);
                }
            }
            i = i + 1;
        }
        assert(lines.take(n as int) =~= lines);
        out
    }

    /// Whether `score` would earn a place in the table: it has fewer than
    /// five entries or `score` beats the last one.
    pub fn is_high_score(&self, score: u32) -> (r: bool)
        ensures
            r == is_high(self@, score),
    {
        let n = self.entries.len();
        if n < TABLE_SIZE {
            return true;
        }
        let last = self.entries[n - 1].1;
        score > last
    }

    /// Adds an entry under the upper-case form of `name`, re-sorts the table
    /// and keeps its best five entries.
    pub fn add_entry(&mut self, name: String, score: u32)
        ensures
            final(self)@ == with_entry(old(self)@, name@, score),
            all_storable(old(self)@) && storable_name(name@) ==> all_storable(final(self)@),
    {
        let upper = to_uppercase(name.as_str());
        proof {
            if all_storable(old(self)@) && storable_name(name@) {
                let t = old(self)@.push((str_upper(name@), score));
                assert forall|k: int| 0 <= k < t.len() implies storable_name(#[trigger] t[k].0) by {
                    if k < old(self)@.len() {
                        assert(t[k] == old(self)@[k]);
                    }
                }
                lemma_sort_storable(t);
                let u = sort_desc(t);
                if u.len() > TABLE_SIZE {
                    assert forall|k: int| 0 <= k < u.take(TABLE_SIZE as int).len() implies storable_name(
                        #[trigger] u.take(TABLE_SIZE as int)[k].0,
                    ) by {
                        assert(u.take(TABLE_SIZE as int)[k] == u[k]);
                    }
                }
            }
        }
        self.entries.push((upper, score));
        assert(entries_view(self.entries@) =~= old(self)@.push((str_upper(name@), score)));
        sort_entries(&mut self.entries);
        proof {
            lemma_sort_len(old(self)@.push((str_upper(name@), score)));
        }
        self.entries.truncate(TABLE_SIZE);
        assert(self@ =~= with_entry(old(self)@, name@, score));
    }
}

} // verus!
