//! CSV data feeding and `$token` interpolation.
use std::sync::Arc;
use vstd::prelude::*;

use crate::strmap::StrMap;
use crate::text::{
    matches_at, lemma_replace_absent, chars_equal, concat_chars, contains_chars, contains_seq, from_chars, has_char,
    replace_all, replace_all_chars, split_on, split_trimmed, strings_view, to_chars, trim,
    trim_all, trim_chars,
};

verus! {

/// The abstract content of a CSV data file: column names and rows of cells.
pub type CsvView = (Seq<Seq<char>>, Seq<Seq<Seq<char>>>);

/// A CSV data file read once at start-up: the column headers of its first
/// line and the cells of each following non-blank line.
#[derive(Debug, Clone)]
pub struct CsvDataCache {
    pub headers: Vec<String>,
    pub records: Vec<Vec<String>>,
}

impl View for CsvDataCache {
    type V = CsvView;

    open spec fn view(&self) -> CsvView {
        (strings_view(self.headers@), self.records@.map_values(|r: Vec<String>| strings_view(r@)))
    }
}

/// The view of an optional line of text (`None`: a line that could not be read).
pub open spec fn opt_line_view(l: Option<String>) -> Option<Seq<char>> {
    match l {
        Some(s) => Some(s@),
        None => None,
    }
}

/// The views of the lines of a file.
pub open spec fn lines_view(v: Seq<Option<String>>) -> Seq<Option<Seq<char>>> {
    v.map_values(|l: Option<String>| opt_line_view(l))
}

/// The view of a file's lines (`None`: the file could not be opened).
pub open spec fn file_view(file: Option<Vec<Option<String>>>) -> Option<Seq<Option<Seq<char>>>> {
    match file {
        Some(v) => Some(lines_view(v@)),
        None => None,
    }
}

/// The data source named `path` is switched off: `"none"` or empty.
pub open spec fn csv_source_disabled(path: Seq<char>) -> bool {
    path == seq!['n', 'o', 'n', 'e'] || path.len() == 0
}

/// The trimmed comma-separated cells of a line.
pub open spec fn csv_cells(line: Seq<char>) -> Seq<Seq<char>> {
    trim_all(split_on(line, ','))
}

/// The rows that `lines` contribute: one for each readable line that is not
/// blank, in order.
pub open spec fn csv_rows(lines: Seq<Option<Seq<char>>>) -> Seq<Seq<Seq<char>>>
    decreases lines.len(),
{
    if lines.len() == 0 {
        Seq::empty()
    } else {
        let prev = csv_rows(lines.drop_last());
        match lines.last() {
            Some(l) => if trim(l).len() > 0 {
                prev.push(csv_cells(l))
            } else {
                prev
            },
            None => prev,
        }
    }
}

/// What loading the data source `path`, whose file has the lines `file`
/// (`None`: the file could not be opened), yields.
pub open spec fn csv_load_spec(path: Seq<char>, file: Option<Seq<Option<Seq<char>>>>) -> Option<
    CsvView,
> {
    if csv_source_disabled(path) {
        None
    } else {
        match file {
            None => None,
            Some(lines) => if lines.len() == 0 {
                None
            } else {
                match lines[0] {
                    None => None,
                    Some(first) => {
                        let rows = csv_rows(lines.skip(1));
                        if rows.len() == 0 {
                            None
                        } else {
                            Some((csv_cells(first), rows))
                        }
                    },
                }
            },
        }
    }
}

/// Whether the data source named `path` is switched on: neither `"none"`
/// nor empty.
pub fn csv_source_enabled(path: &str) -> (r: bool)
    ensures
        r == !csv_source_disabled(path@),
{
    let p = to_chars(path);
    let none_word: Vec<char> = vec!['n', 'o', 'n', 'e'];
    !(chars_equal(&p, &none_word) || p.len() == 0)
}

impl CsvDataCache {
    /// Builds the cache for the data source `path` from the lines of its
    /// file (`None` for a line that could not be read; `file` is `None` when
    /// the file could not be opened). The first line gives the column
    /// headers, every later non-blank line a record; cells are split at
    /// commas and trimmed. There is no cache when the source is `"none"` or
    /// empty, when the file or its first line cannot be read, or when no
    /// record remains.
    pub fn load(path: &str, file: Option<Vec<Option<String>>>) -> (r: Option<CsvDataCache>)
        ensures
            match r {
                Some(c) => csv_load_spec(path@, file_view(file)) == Some(c@),
                None => csv_load_spec(path@, file_view(file)) is None,
            },
            r matches Some(c) ==> c.records@.len() > 0,
            r matches Some(c) ==> c@.1.len() == record_lines(file_view(file)->0.skip(1)).len(),
            r matches Some(c) ==> forall|j: int|
                0 <= j < c@.1.len() ==> #[trigger] c@.1[j] == csv_cells(
                    record_lines(file_view(file)->0.skip(1))[j]->0,
                ),
    {
        proof {
            lemma_load_shape(path@, file_view(file));
        }
        if !csv_source_enabled(path) {
            return None;
        }
        let lines = match file {
            Some(l) => l,
            None => { return None; },
        };
        if lines.len() == 0 {
            return None;
        }
        let first = match &lines[0] {
            Some(l) => l,
            None => { return None; },
        };
        let headers = split_trimmed(first.as_str(), ',');
        let ghost lv = lines_view(lines@);
        let ghost tail = lv.skip(1);
        let mut records: Vec<Vec<String>> = Vec::new();
        let mut i: usize = 1;
        assert(tail.take(0) =~= Seq::<Option<Seq<char>>>::empty());
        while i < lines.len()
            invariant
                1 <= i <= lines.len(),
                lv == lines_view(lines@),
                tail == lv.skip(1),
                records@.map_values(|r: Vec<String>| strings_view(r@)) == csv_rows(
                    tail.take(i - 1),
                ),
            decreases lines.len() - i,
        {
            proof {
                assert(tail.take(i as int).drop_last() =~= tail.take(i - 1));
                assert(tail.take(i as int).last() == lv[i as int]);
            }
            let ghost before = records@.map_values(|r: Vec<String>| strings_view(r@));
            match &lines[i] {
                Some(row_text) => {
                    let cs = to_chars(row_text.as_str());
                    let t = trim_chars(&cs);
                    if t.len() > 0 {
                        let row = split_trimmed(row_text.as_str(), ',');
                        records.push(row);
                        assert(records@.map_values(|r: Vec<String>| strings_view(r@)) =~= before.push(
                            strings_view(row@),
                        ));
                    }
                },
                None => {},
            }
            i = i + 1;
        }
        assert(tail.take(lines.len() - 1) =~= tail);
        if records.len() == 0 {
            None
        } else {
            Some(CsvDataCache { headers, records })
        }
    }
}

// ------------------------------------------------------------------
// Token interpolation
// ------------------------------------------------------------------

/// The placeholder `$key` of a context variable.
pub open spec fn token(key: Seq<char>) -> Seq<char> {
    seq!['$'] + key
}

/// The prefix `$csv.` of every CSV column placeholder.
pub open spec fn csv_marker() -> Seq<char> {
    seq!['$', 'c', 's', 'v', '.']
}

/// The placeholder `$csv.column` of a CSV column.
pub open spec fn csv_token(column: Seq<char>) -> Seq<char> {
    csv_marker() + column
}

/// `s` after replacing, entry by entry in order, each `$key` of `ctx` by its value.
pub open spec fn apply_context(s: Seq<char>, ctx: Seq<(Seq<char>, Seq<char>)>) -> Seq<char>
    decreases ctx.len(),
{
    if ctx.len() == 0 {
        s
    } else {
        replace_all(apply_context(s, ctx.drop_last()), token(ctx.last().0), ctx.last().1)
    }
}

/// `s` after replacing, for the first `k` columns in order, each
/// `$csv.column` by the cell of `row` in that column, where the row has one.
pub open spec fn apply_columns(s: Seq<char>, headers: Seq<Seq<char>>, row: Seq<Seq<char>>, k: nat) -> Seq<
    char,
>
    decreases k,
{
    if k == 0 {
        s
    } else {
        let prev = apply_columns(s, headers, row, (k - 1) as nat);
        if k - 1 < row.len() {
            replace_all(prev, csv_token(headers[k - 1]), row[k - 1])
        } else {
            prev
        }
    }
}

/// The view of an optional shared CSV cache.
pub open spec fn csv_opt_view(c: Option<Arc<CsvDataCache>>) -> Option<CsvView> {
    match c {
        Some(a) => Some((*a)@),
        None => None,
    }
}

/// The text that `resolve_variables` produces.
pub open spec fn resolve_spec(
    text: Seq<char>,
    ctx: Seq<(Seq<char>, Seq<char>)>,
    csv: Option<CsvView>,
    row: int,
) -> Seq<char> {
    if !text.contains('$') {
        text
    } else {
        let r = apply_context(text, ctx);
        match csv {
            Some(c) => if contains_seq(r, csv_marker()) {
                apply_columns(r, c.0, c.1[row % (c.1.len() as int)], c.0.len())
            } else {
                r
            },
            None => r,
        }
    }
}

/// The inputs on which interpolation would pick a row out of a CSV cache
/// that has none.
pub open spec fn resolve_needs_empty_row(
    text: Seq<char>,
    ctx: Seq<(Seq<char>, Seq<char>)>,
    csv: Option<CsvView>,
) -> bool {
    &&& text.contains('$')
    &&& csv matches Some(c)
    &&& c.1.len() == 0
    &&& contains_seq(apply_context(text, ctx), csv_marker())
}

/// Interpolates placeholders in `text`. Text without `$` comes back as it
/// is. Otherwise every `$key` of the context is replaced by its value, entry
/// by entry; then, when the result still holds `$csv.`, every
/// `$csv.column` is replaced by that column's cell in the record chosen by
/// `csv_row_index`, which wraps around the records.
pub fn resolve_variables(
    text: &str,
    context: &StrMap,
    csv_cache: &Option<Arc<CsvDataCache>>,
    csv_row_index: usize,
) -> (r: String)
    requires
        !resolve_needs_empty_row(text@, context@, csv_opt_view(*csv_cache)),
    ensures
        r@ == resolve_spec(text@, context@, csv_opt_view(*csv_cache), csv_row_index as int),
        !text@.contains('$') ==> r@ == text@,
{
    let t = to_chars(text);
    if !has_char(&t, '$') {
        return from_chars(&t);
    }
    let mut resolved = t;
    let n = context.len();
    let mut i: usize = 0;
    assert(context@.take(0) =~= Seq::<(Seq<char>, Seq<char>)>::empty());
    while i < n
        invariant
            n == context@.len(),
            i <= n,
            resolved@ == apply_context(text@, context@.take(i as int)),
        decreases n - i,
    {
        let (key, value) = context.entry(i);
        let dollar: Vec<char> = vec!['$'];
        let placeholder = concat_chars(&dollar, &to_chars(key.as_str()));
        let replacement = to_chars(value.as_str());
        resolved = replace_all_chars(&resolved, &placeholder, &replacement);
        proof {
            let ti = context@.take(i + 1);
            assert(ti.drop_last() =~= context@.take(i as int));
            assert(placeholder@ =~= token(ti.last().0));
        }
        i = i + 1;
    }
    assert(context@.take(n as int) =~= context@);
    match csv_cache {
        Some(cache) => {
            let marker: Vec<char> = vec!['$', 'c', 's', 'v', '.'];
            assert(marker@ =~= csv_marker());
            if contains_chars(&resolved, &marker) {
                let ghost cv = (**cache)@;
                let nrec = cache.records.len();
                let row_idx = csv_row_index % nrec;
                let row_data = &cache.records[row_idx];
                let ghost row = cv.1[row_idx as int];
                assert(strings_view(row_data@) == row);
                let nh = cache.headers.len();
                let mut k: usize = 0;
                let ghost base = resolved@;
                while k < nh
                    invariant
                        nh == cv.0.len(),
                        cv == (**cache)@,
                        marker@ == csv_marker(),
                        row == strings_view(row_data@),
                        k <= nh,
                        resolved@ == apply_columns(base, cv.0, row, k as nat),
                    decreases nh - k,
                {
                    let col_name = &cache.headers[k];
                    let placeholder = concat_chars(&marker, &to_chars(col_name.as_str()));
                    assert(col_name@ == cv.0[k as int]);
                    if k < row_data.len() {
                        let cell = to_chars(row_data[k].as_str());
                        assert(cell@ == row[k as int]);
                        resolved = replace_all_chars(&resolved, &placeholder, &cell);
                    }
                    k = k + 1;
                }
            }
        },
        None => {},
    }
    from_chars(&resolved)
}

/// The CSV record used wraps around: a row index and that index plus the
/// number of records select the same record, so interpolation gives the
/// same text.
pub proof fn lemma_resolve_row_wraps(
    text: Seq<char>,
    ctx: Seq<(Seq<char>, Seq<char>)>,
    csv: CsvView,
    row: nat,
)
    requires
        csv.1.len() > 0,
    ensures
        resolve_spec(text, ctx, Some(csv), row as int) == resolve_spec(
            text,
            ctx,
            Some(csv),
            row + csv.1.len() as int,
        ),
{
    let n = csv.1.len() as int;
    assert((row + n) % n == (row as int) % n) by {
        vstd::arithmetic::div_mod::lemma_mod_add_multiples_vanish(row as int, n);
    }
}

/// Text that holds no placeholder of a known variable and no `$csv.`
/// comes back unchanged.
pub proof fn lemma_unknown_placeholders_stay(
    text: Seq<char>,
    ctx: Seq<(Seq<char>, Seq<char>)>,
    csv: Option<CsvView>,
    row: int,
)
    requires
        forall|i: int| 0 <= i < ctx.len() ==> !contains_seq(text, token(#[trigger] ctx[i].0)),
        !contains_seq(text, csv_marker()),
    ensures
        resolve_spec(text, ctx, csv, row) == text,
{
    lemma_apply_context_absent(text, ctx);
}

proof fn lemma_apply_context_absent(text: Seq<char>, ctx: Seq<(Seq<char>, Seq<char>)>)
    requires
        forall|i: int| 0 <= i < ctx.len() ==> !contains_seq(text, token(#[trigger] ctx[i].0)),
    ensures
        apply_context(text, ctx) == text,
    decreases ctx.len(),
{
    if ctx.len() > 0 {
        let init = ctx.drop_last();
        assert forall|i: int| 0 <= i < init.len() implies !contains_seq(text, token(#[trigger] init[i].0)) by {
            assert(init[i] == ctx[i]);
        }
        lemma_apply_context_absent(text, init);
        assert(ctx.last() == ctx[ctx.len() - 1]);
        lemma_replace_absent(text, token(ctx.last().0), ctx.last().1);
    }
}

/// A cache that `CsvDataCache::load` produced always has a record to
/// pick, so interpolating with it never needs a row from an empty cache.
pub proof fn lemma_loaded_cache_resolvable(
    path: Seq<char>,
    file: Option<Seq<Option<Seq<char>>>>,
    text: Seq<char>,
    ctx: Seq<(Seq<char>, Seq<char>)>,
)
    ensures
        !resolve_needs_empty_row(text, ctx, csv_load_spec(path, file)),
{
}

/// A variable's placeholder on its own resolves to the variable's value.
pub proof fn lemma_token_resolves(name: Seq<char>, value: Seq<char>, row: int)
    ensures
        resolve_spec(token(name), seq![(name, value)], None, row) == value,
{
    let t = token(name);
    assert(t[0] == '$');
    assert(t.contains('$'));
    let ctx = seq![(name, value)];
    assert(ctx.drop_last() =~= Seq::<(Seq<char>, Seq<char>)>::empty());
    assert(t.subrange(0, t.len() as int) =~= t);
    assert(t.skip(t.len() as int) =~= Seq::<char>::empty());
    assert(replace_all(Seq::<char>::empty(), t, value) == Seq::<char>::empty());
    assert(value + Seq::<char>::empty() =~= value);
    assert(apply_context(t, ctx.drop_last()) == t);
    assert(replace_all(t, t, value) == value);
    assert(apply_context(t, ctx) == value);
}

// ------------------------------------------------------------------
// Laws of CSV loading and column interpolation
// ------------------------------------------------------------------

/// A line that gives a record: readable and not blank.
pub open spec fn is_record_line(l: Option<Seq<char>>) -> bool {
    l matches Some(t) && trim(t).len() > 0
}

/// The lines that give records, in order.
pub open spec fn record_lines(lines: Seq<Option<Seq<char>>>) -> Seq<Option<Seq<char>>> {
    lines.filter(|l: Option<Seq<char>>| is_record_line(l))
}

/// The rows read from some lines are, one for one and in order, the
/// trimmed comma-separated cells of the readable non-blank lines.
pub proof fn lemma_csv_rows_are_record_lines(lines: Seq<Option<Seq<char>>>)
    ensures
        csv_rows(lines).len() == record_lines(lines).len(),
        forall|j: int|
            0 <= j < csv_rows(lines).len() ==> #[trigger] csv_rows(lines)[j] == csv_cells(
                record_lines(lines)[j]->0,
            ),
        forall|j: int| 0 <= j < record_lines(lines).len() ==> is_record_line(#[trigger] record_lines(lines)[j]),
    decreases lines.len(),
{
    reveal_with_fuel(Seq::<Option<Seq<char>>>::filter, 1);
    if lines.len() > 0 {
        let init = lines.drop_last();
        lemma_csv_rows_are_record_lines(init);
        assert(record_lines(lines) == (if is_record_line(lines.last()) {
            record_lines(init).push(lines.last())
        } else {
            record_lines(init)
        }));
    }
}

/// What loading yields, counted in lines: a cache exactly when the source
/// is switched on, the file and its first line are readable, and some
/// later line is readable and not blank; then the headers are the cells of
/// the first line, and there is one record per such later line, in order,
/// holding that line's trimmed comma-separated cells.
pub proof fn lemma_load_shape(path: Seq<char>, file: Option<Seq<Option<Seq<char>>>>)
    ensures
        csv_load_spec(path, file) is Some <==> (!csv_source_disabled(path) && file is Some
            && file->0.len() > 0 && file->0[0] is Some && record_lines(file->0.skip(1)).len() > 0),
        csv_load_spec(path, file) is Some ==> (csv_load_spec(path, file)->0).0 == csv_cells(
            file->0[0]->0,
        ),
        csv_load_spec(path, file) is Some ==> (csv_load_spec(path, file)->0).1.len() == record_lines(
            file->0.skip(1),
        ).len(),
        csv_load_spec(path, file) is Some ==> forall|j: int|
            0 <= j < (csv_load_spec(path, file)->0).1.len() ==> #[trigger] (csv_load_spec(
                path,
                file,
            )->0).1[j] == csv_cells(record_lines(file->0.skip(1))[j]->0),
{
    if file is Some && file->0.len() > 0 {
        lemma_csv_rows_are_record_lines(file->0.skip(1));
    }
}

proof fn lemma_apply_columns_one(
    s: Seq<char>,
    headers: Seq<Seq<char>>,
    row: Seq<Seq<char>>,
    upto: nat,
    k: int,
)
    requires
        upto <= headers.len(),
        0 <= k < headers.len(),
        k < row.len(),
        forall|m: int|
            0 <= m < headers.len() && m != k && m < row.len() ==> !contains_seq(
                s,
                csv_token(#[trigger] headers[m]),
            ) && !contains_seq(replace_all(s, csv_token(headers[k]), row[k]), csv_token(headers[m])),
    ensures
        apply_columns(s, headers, row, upto) == if k < upto {
            replace_all(s, csv_token(headers[k]), row[k])
        } else {
            s
        },
    decreases upto,
{
    if upto > 0 {
        lemma_apply_columns_one(s, headers, row, (upto - 1) as nat, k);
        let m = upto - 1;
        if m < row.len() && m != k {
            let h = headers[m];
            lemma_replace_absent(s, csv_token(h), row[m]);
            lemma_replace_absent(replace_all(s, csv_token(headers[k]), row[k]), csv_token(h), row[m]);
        }
    }
}

proof fn lemma_token_has_marker(s: Seq<char>, col: Seq<char>)
    requires
        contains_seq(s, csv_token(col)),
    ensures
        contains_seq(s, csv_marker()),
        s.contains('$'),
{
    let t = csv_token(col);
    let i = choose|i: int| matches_at(s, t, i);
    assert(s.subrange(i, i + 5) =~= csv_marker()) by {
        assert forall|q: int| 0 <= q < 5 implies s.subrange(i, i + 5)[q] == csv_marker()[q] by {
            assert(s.subrange(i, i + t.len())[q] == t[q]);
        }
    }
    assert(matches_at(s, csv_marker(), i));
    assert(s[i] == s.subrange(i, i + 5)[0]);
}

/// The CSV record used is the row index modulo the number of records: a
/// text whose only placeholders are `$csv.column` for column `k` (no
/// variable's placeholder, no other column's before or after the
/// substitution) resolves to that placeholder replaced by record
/// `row % n`'s cell in column `k`.
pub proof fn lemma_csv_column_resolves(
    text: Seq<char>,
    ctx: Seq<(Seq<char>, Seq<char>)>,
    csv: CsvView,
    row: nat,
    k: int,
)
    requires
        csv.1.len() > 0,
        0 <= k < csv.0.len(),
        k < csv.1[(row as int) % (csv.1.len() as int)].len(),
        forall|i: int| 0 <= i < ctx.len() ==> !contains_seq(text, token(#[trigger] ctx[i].0)),
        forall|m: int|
            0 <= m < csv.0.len() && m != k && m < csv.1[(row as int) % (csv.1.len() as int)].len() ==> !contains_seq(
                text,
                csv_token(#[trigger] csv.0[m]),
            ) && !contains_seq(
                replace_all(text, csv_token(csv.0[k]), csv.1[(row as int) % (csv.1.len() as int)][k]),
                csv_token(csv.0[m]),
            ),
    ensures
        resolve_spec(text, ctx, Some(csv), row as int) == replace_all(
            text,
            csv_token(csv.0[k]),
            csv.1[(row as int) % (csv.1.len() as int)][k],
        ),
{
    let n = csv.1.len();
    let rec = csv.1[(row as int) % (n as int)];
    lemma_apply_context_absent(text, ctx);
    if contains_seq(text, csv_token(csv.0[k])) {
        lemma_token_has_marker(text, csv.0[k]);
        lemma_apply_columns_one(text, csv.0, rec, csv.0.len(), k);
    } else {
        lemma_replace_absent(text, csv_token(csv.0[k]), rec[k]);
        if text.contains('$') && contains_seq(text, csv_marker()) {
            lemma_apply_columns_one(text, csv.0, rec, csv.0.len(), k);
        }
    }
}

} // verus!
