//! The entries table's column vocabulary: how `[layout].columns` resolves into the
//! order the table draws, and the `c` picker that reorders it by typed ranks.

use vstd::prelude::*;
use crate::text::{chars_eq, chars_of, push_str, string_of, trim, trim_chars};
use crate::tracker::{lowercase, to_lowercase};

verus! {

/// One column of the entries table.
#[derive(Clone, Copy, Debug, PartialEq, Eq, Structural)]
pub enum EntryColumn {
    Date,
    Start,
    End,
    Description,
    Project,
    Tags,
    Duration,
}

/// The whole vocabulary in canonical order: the order ties break in, and the
/// order the picker lists the columns.
pub open spec fn vocabulary() -> Seq<EntryColumn> {
    seq![
        EntryColumn::Date,
        EntryColumn::Start,
        EntryColumn::End,
        EntryColumn::Description,
        EntryColumn::Project,
        EntryColumn::Tags,
        EntryColumn::Duration,
    ]
}

/// The default order: the vocabulary without `Project`.
pub open spec fn default_order() -> Seq<EntryColumn> {
    seq![
        EntryColumn::Date,
        EntryColumn::Start,
        EntryColumn::End,
        EntryColumn::Description,
        EntryColumn::Tags,
        EntryColumn::Duration,
    ]
}

/// Where a column sits in the vocabulary.
pub open spec fn vocabulary_index(c: EntryColumn) -> int {
    match c {
        EntryColumn::Date => 0,
        EntryColumn::Start => 1,
        EntryColumn::End => 2,
        EntryColumn::Description => 3,
        EntryColumn::Project => 4,
        EntryColumn::Tags => 5,
        EntryColumn::Duration => 6,
    }
}

/// The config spelling of a column.
pub open spec fn name_of(c: EntryColumn) -> Seq<char> {
    match c {
        EntryColumn::Date => "date"@,
        EntryColumn::Start => "start"@,
        EntryColumn::End => "end"@,
        EntryColumn::Description => "description"@,
        EntryColumn::Project => "project"@,
        EntryColumn::Tags => "tags"@,
        EntryColumn::Duration => "duration"@,
    }
}

/// The column a config spelling names, matched exactly.
pub open spec fn named(name: Seq<char>) -> Option<EntryColumn> {
    if name == "date"@ {
        Some(EntryColumn::Date)
    } else if name == "start"@ {
        Some(EntryColumn::Start)
    } else if name == "end"@ {
        Some(EntryColumn::End)
    } else if name == "description"@ {
        Some(EntryColumn::Description)
    } else if name == "project"@ {
        Some(EntryColumn::Project)
    } else if name == "tags"@ {
        Some(EntryColumn::Tags)
    } else if name == "duration"@ {
        Some(EntryColumn::Duration)
    } else {
        None
    }
}

impl EntryColumn {
    /// Today's default order. `Project` is in the vocabulary but not here.
    pub fn all() -> (r: Vec<EntryColumn>)
        ensures
            r@ == default_order(),
    {
        let r = vec![
            EntryColumn::Date,
            EntryColumn::Start,
            EntryColumn::End,
            EntryColumn::Description,
            EntryColumn::Tags,
            EntryColumn::Duration,
        ];
        assert(r@ =~= default_order());
        r
    }

    /// The default order plus `Project`, in canonical order: the vocabulary.
    pub fn all_with_project() -> (r: Vec<EntryColumn>)
        ensures
            r@ == vocabulary(),
    {
        let r = vec![
            EntryColumn::Date,
            EntryColumn::Start,
            EntryColumn::End,
            EntryColumn::Description,
            EntryColumn::Project,
            EntryColumn::Tags,
            EntryColumn::Duration,
        ];
        assert(r@ =~= vocabulary());
        r
    }

    /// The config spelling, matched case-insensitively by [`resolve`].
    pub fn name(&self) -> (r: &'static str)
        ensures
            r@ == name_of(*self),
    {
        match self {
            EntryColumn::Date => "date",
            EntryColumn::Start => "start",
            EntryColumn::End => "end",
            EntryColumn::Description => "description",
            EntryColumn::Project => "project",
            EntryColumn::Tags => "tags",
            EntryColumn::Duration => "duration",
        }
    }

    /// The header cell's text.
    pub fn label(&self) -> (r: &'static str)
        ensures
            r@ == match *self {
                EntryColumn::Date => "Date"@,
                EntryColumn::Start => "Start"@,
                EntryColumn::End => "End"@,
                EntryColumn::Description => "Description"@,
                EntryColumn::Project => "Project"@,
                EntryColumn::Tags => "Tags"@,
                EntryColumn::Duration => "Duration"@,
            },
    {
        match self {
            EntryColumn::Date => "Date",
            EntryColumn::Start => "Start",
            EntryColumn::End => "End",
            EntryColumn::Description => "Description",
            EntryColumn::Project => "Project",
            EntryColumn::Tags => "Tags",
            EntryColumn::Duration => "Duration",
        }
    }

    fn from_name(name: &Vec<char>) -> (r: Option<EntryColumn>)
        ensures
            r == named(name@),
    {
        if chars_eq(name, &chars_of("date")) {
            Some(EntryColumn::Date)
        } else if chars_eq(name, &chars_of("start")) {
            Some(EntryColumn::Start)
        } else if chars_eq(name, &chars_of("end")) {
            Some(EntryColumn::End)
        } else if chars_eq(name, &chars_of("description")) {
            Some(EntryColumn::Description)
        } else if chars_eq(name, &chars_of("project")) {
            Some(EntryColumn::Project)
        } else if chars_eq(name, &chars_of("tags")) {
            Some(EntryColumn::Tags)
        } else if chars_eq(name, &chars_of("duration")) {
            Some(EntryColumn::Duration)
        } else {
            None
        }
    }
}

/// How `{:?}` writes a string: quoted, with std's escapes.
pub uninterp spec fn debug_quoted(s: Seq<char>) -> Seq<char>;

/// `format!("{:?}", s)`: the string quoted and escaped the way `str`'s `Debug`
/// writes it. Claims only that the text is the one `debug_quoted` names.
#[verifier::external_body]
fn quoted(s: &str) -> (r: String)
    ensures
        r@ == debug_quoted(s@),
{
    format!("{:?}", s)
}

/// The columns and the warnings after the first `n` configured names: an unknown
/// name warns and is skipped, a repeat warns and is kept once.
pub open spec fn resolve_scan(names: Seq<Seq<char>>, n: int) -> (Seq<EntryColumn>, Seq<Seq<char>>)
    decreases n,
{
    if n <= 0 || n > names.len() {
        (seq![], seq![])
    } else {
        let (cols, warns) = resolve_scan(names, n - 1);
        let raw = names[n - 1];
        match named(lowercase(trim(raw))) {
            None => (
                cols,
                warns.push("Warning: layout.columns has an unknown column "@ + debug_quoted(raw) + "; ignoring it."@),
            ),
            Some(c) => if cols.contains(c) {
                (cols, warns.push("Warning: layout.columns repeats "@ + debug_quoted(raw) + "; keeping only the first."@))
            } else {
                (cols.push(c), warns)
            },
        }
    }
}

/// `[layout].columns` resolved into the render order, with the warnings to print:
/// an absent, empty, or all-unknown list falls back to the default order, with a
/// warning in the all-unknown case. Never an error.
pub open spec fn resolved(configured: Option<Seq<Seq<char>>>) -> (Seq<EntryColumn>, Seq<Seq<char>>) {
    match configured {
        Some(names) => if names.len() == 0 {
            (default_order(), seq![])
        } else {
            let (cols, warns) = resolve_scan(names, names.len() as int);
            if cols.len() == 0 {
                (default_order(), warns.push("Warning: layout.columns has no recognised column; using the default order."@))
            } else {
                (cols, warns)
            }
        },
        None => (default_order(), seq![]),
    }
}

pub open spec fn names_view(v: Seq<String>) -> Seq<Seq<char>> {
    v.map_values(|s: String| s@)
}

fn contains_column(cols: &Vec<EntryColumn>, c: EntryColumn) -> (r: bool)
    ensures
        r == cols@.contains(c),
{
    let mut i: usize = 0;
    while i < cols.len()
        invariant
            i <= cols.len(),
            forall|j: int| 0 <= j < i ==> cols@[j] != c,
        decreases cols.len() - i,
    {
        if cols[i] == c {
            return true;
        }
        i += 1;
    }
    false
}

/// Resolve `[layout].columns` into the render order, and the warnings the caller
/// prints: an unknown name is skipped, a repeat is kept once, and an absent,
/// empty, or all-unknown list falls back to the default order.
pub fn resolve(configured: Option<&Vec<String>>) -> (r: (Vec<EntryColumn>, Vec<String>))
    ensures
        (r.0@, names_view(r.1@)) == resolved(match configured {
            Some(v) => Some(names_view(v@)),
            None => None,
        }),
{
    let names = match configured {
        Some(v) => v,
        None => {
            return (EntryColumn::all(), Vec::new());
        },
    };
    if names.len() == 0 {
        return (EntryColumn::all(), Vec::new());
    }
    let ghost nv = names_view(names@);
    let mut columns: Vec<EntryColumn> = Vec::new();
    let mut warnings: Vec<String> = Vec::new();
    let mut i: usize = 0;
    while i < names.len()
        invariant
            i <= names.len(),
            nv == names_view(names@),
            (columns@, names_view(warnings@)) == resolve_scan(nv, i as int),
        decreases names.len() - i,
    {
        let raw = &names[i];
        assert(nv[i as int] == raw@);
        let trimmed = string_of(&trim_chars(&chars_of(raw.as_str())));
        let key = chars_of(to_lowercase(trimmed.as_str()).as_str());
        let ghost before = warnings@;
        match EntryColumn::from_name(&key) {
            None => {
                let mut w: Vec<char> = Vec::new();
                push_str(&mut w, "Warning: layout.columns has an unknown column ");
                push_str(&mut w, quoted(raw.as_str()).as_str());
                push_str(&mut w, "; ignoring it.");
                let text = string_of(&w);
                warnings.push(text);
                assert(names_view(warnings@) =~= names_view(before).push(text@));
            },
            Some(c) => {
                if contains_column(&columns, c) {
                    let mut w: Vec<char> = Vec::new();
                    push_str(&mut w, "Warning: layout.columns repeats ");
                    push_str(&mut w, quoted(raw.as_str()).as_str());
                    push_str(&mut w, "; keeping only the first.");
                    let text = string_of(&w);
                    warnings.push(text);
                    assert(names_view(warnings@) =~= names_view(before).push(text@));
                } else {
                    columns.push(c);
                }
            },
        }
        i += 1;
    }
    if columns.len() == 0 {
        let ghost before = warnings@;
        let text = String::from_str("Warning: layout.columns has no recognised column; using the default order.");
        warnings.push(text);
        assert(names_view(warnings@) =~= names_view(before).push(text@));
        return (EntryColumn::all(), warnings);
    }
    (columns, warnings)
}

// --- the `c` picker ----------------------------------------------------------------

/// The columns ranked exactly `r` among the first `n` of the vocabulary, in
/// vocabulary order.
pub open spec fn ranked_as(ranks: Seq<Option<u8>>, r: int, n: int) -> Seq<EntryColumn>
    decreases n,
{
    if n <= 0 {
        seq![]
    } else {
        ranked_as(ranks, r, n - 1) + if ranks[n - 1] == Some(r as u8) {
            seq![vocabulary()[n - 1]]
        } else {
            seq![]
        }
    }
}

/// The columns ranked below `r`, rank by rank.
pub open spec fn ranked_below(ranks: Seq<Option<u8>>, r: int) -> Seq<EntryColumn>
    decreases r,
{
    if r <= 0 {
        seq![]
    } else {
        ranked_below(ranks, r - 1) + ranked_as(ranks, r - 1, 7)
    }
}

/// The order the ranks give: the numbered columns by `(rank, canonical index)`,
/// so ties keep canonical order.
pub open spec fn picked(ranks: Seq<Option<u8>>) -> Seq<EntryColumn> {
    ranked_below(ranks, 256)
}

/// The ranks opening the picker seeds from the first `n` columns of the live
/// order: each column's position plus one, at its vocabulary index.
pub open spec fn seeded(columns: Seq<EntryColumn>, n: int) -> Seq<Option<u8>>
    decreases n,
{
    if n <= 0 {
        seq![None, None, None, None, None, None, None]
    } else {
        seeded(columns, n - 1).update(vocabulary_index(columns[n - 1]), Some(n as u8))
    }
}

/// The `c` popup: a rank per vocabulary column, and the cursor.
pub struct ColumnPicker {
    /// Index for index with the vocabulary; always seven long.
    pub ranks: Vec<Option<u8>>,
    /// Always below seven.
    pub cursor: usize,
}

impl ColumnPicker {
    pub open spec fn well_formed(&self) -> bool {
        self.ranks@.len() == 7 && self.cursor < 7
    }

    /// Open the picker on the live order: ranks seeded from it, the cursor on the
    /// first column. Reseeding on every open is what makes `Esc` free.
    pub fn open(columns: &Vec<EntryColumn>) -> (r: ColumnPicker)
        requires
            columns@.len() < 255,
        ensures
            r.well_formed(),
            r.ranks@ == seeded(columns@, columns@.len() as int),
            r.cursor == 0,
    {
        let mut ranks: Vec<Option<u8>> = vec![None, None, None, None, None, None, None];
        assert(ranks@ =~= seeded(columns@, 0));
        let mut position: usize = 0;
        while position < columns.len()
            invariant
                position <= columns.len(),
                columns@.len() < 255,
                ranks@ == seeded(columns@, position as int),
                ranks@.len() == 7,
            decreases columns.len() - position,
        {
            let index: usize = match columns[position] {
                EntryColumn::Date => 0,
                EntryColumn::Start => 1,
                EntryColumn::End => 2,
                EntryColumn::Description => 3,
                EntryColumn::Project => 4,
                EntryColumn::Tags => 5,
                EntryColumn::Duration => 6,
            };
            ranks.set(index, Some(position as u8 + 1));
            position += 1;
        }
        ColumnPicker { ranks, cursor: 0 }
    }

    /// Move the cursor by `delta`, wrapping round the seven columns.
    pub fn move_by(&mut self, delta: isize)
        requires
            old(self).well_formed(),
        ensures
            final(self).well_formed(),
            final(self).ranks == old(self).ranks,
            final(self).cursor == (old(self).cursor + delta) % 7,
    {
        let d = (delta % 7 + 7) % 7;
        assert(0 <= d < 7);
        assert(d == delta % 7);
        self.cursor = (self.cursor + d as usize) % 7;
    }

    /// Rank the column under the cursor.
    pub fn set_rank(&mut self, digit: u8)
        requires
            old(self).well_formed(),
        ensures
            final(self).well_formed(),
            final(self).ranks@ == old(self).ranks@.update(old(self).cursor as int, Some(digit)),
            final(self).cursor == old(self).cursor,
    {
        let i = self.cursor;
        self.ranks.set(i, Some(digit));
    }

    /// Unrank the column under the cursor.
    pub fn clear(&mut self)
        requires
            old(self).well_formed(),
        ensures
            final(self).well_formed(),
            final(self).ranks@ == old(self).ranks@.update(old(self).cursor as int, None),
            final(self).cursor == old(self).cursor,
    {
        let i = self.cursor;
        self.ranks.set(i, None);
    }

    /// The numbered columns, sorted by `(rank, canonical index)`. Ties keep
    /// canonical order; duplicate ranks are legal.
    pub fn order(&self) -> (r: Vec<EntryColumn>)
        requires
            self.well_formed(),
        ensures
            r@ == picked(self.ranks@),
    {
        let vocab = EntryColumn::all_with_project();
        let mut out: Vec<EntryColumn> = Vec::new();
        let mut rank: u16 = 0;
        while rank < 256
            invariant
                rank <= 256,
                self.well_formed(),
                vocab@ == vocabulary(),
                out@ == ranked_below(self.ranks@, rank as int),
            decreases 256 - rank,
        {
            let ghost before = out@;
            let mut i: usize = 0;
            while i < 7
                invariant
                    i <= 7,
                    rank < 256,
                    self.well_formed(),
                    vocab@ == vocabulary(),
                    out@ == before + ranked_as(self.ranks@, rank as int, i as int),
                decreases 7 - i,
            {
                if self.ranks[i] == Some(rank as u8) {
                    out.push(vocab[i]);
                    assert(out@ =~= before + ranked_as(self.ranks@, rank as int, i + 1));
                } else {
                    assert(ranked_as(self.ranks@, rank as int, i + 1) =~= ranked_as(self.ranks@, rank as int, i as int));
                }
                i += 1;
            }
            rank += 1;
        }
        out
    }

    /// `Enter`: the order to apply, or `None` when nothing is numbered, which
    /// changes nothing and stays in the picker.
    pub fn apply(&self) -> (r: Option<Vec<EntryColumn>>)
        requires
            self.well_formed(),
        ensures
            picked(self.ranks@).len() == 0 ==> r is None,
            picked(self.ranks@).len() > 0 ==> (r matches Some(o) && o@ == picked(self.ranks@)),
    {
        let order = self.order();
        if order.len() == 0 {
            None
        } else {
            Some(order)
        }
    }
}

/// No column twice.
pub open spec fn distinct(columns: Seq<EntryColumn>) -> bool {
    forall|i: int, j: int| 0 <= i < j < columns.len() ==> columns[i] != columns[j]
}

proof fn lemma_vocabulary_index(c: EntryColumn)
    ensures
        0 <= vocabulary_index(c) < 7,
        vocabulary()[vocabulary_index(c)] == c,
{
}

/// What seeding leaves: seven ranks, each the position plus one of the column at
/// that vocabulary index, and every column seeded so far found at its own index.
proof fn lemma_seeded(columns: Seq<EntryColumn>, n: int)
    requires
        0 <= n <= columns.len(),
        columns.len() < 255,
        distinct(columns),
    ensures
        seeded(columns, n).len() == 7,
        forall|i: int|
            0 <= i < 7 && (#[trigger] seeded(columns, n)[i]) is Some ==> 1 <= seeded(columns, n)[i]->0 <= n
                && vocabulary_index(columns[seeded(columns, n)[i]->0 - 1]) == i,
        forall|p: int| 0 <= p < n ==> #[trigger] seeded(columns, n)[vocabulary_index(columns[p])] == Some((p + 1) as u8),
    decreases n,
{
    if n > 0 {
        lemma_seeded(columns, n - 1);
        let prev = seeded(columns, n - 1);
        let at = vocabulary_index(columns[n - 1]);
        lemma_vocabulary_index(columns[n - 1]);
        assert forall|i: int|
            0 <= i < 7 && (#[trigger] seeded(columns, n)[i]) is Some implies 1 <= seeded(columns, n)[i]->0 <= n
                && vocabulary_index(columns[seeded(columns, n)[i]->0 - 1]) == i by {
            if i != at {
                assert(prev[i] == seeded(columns, n)[i]);
            }
        }
        assert forall|p: int| 0 <= p < n implies #[trigger] seeded(columns, n)[vocabulary_index(columns[p])] == Some((p + 1) as u8) by {
            if p < n - 1 {
                if vocabulary_index(columns[p]) == at {
                    lemma_vocabulary_index(columns[p]);
                    assert(columns[p] == columns[n - 1]);
                }
                assert(prev[vocabulary_index(columns[p])] == Some((p + 1) as u8));
            }
        }
    }
}

/// With one column at most ranked `r`, the ones ranked `r` among the first `n`
/// are that column once it is in reach.
proof fn lemma_ranked_as_one(ranks: Seq<Option<u8>>, r: int, n: int, at: int)
    requires
        ranks.len() == 7,
        0 <= n <= 7,
        forall|i: int| 0 <= i < 7 ==> (#[trigger] ranks[i] == Some(r as u8) <==> i == at),
    ensures
        ranked_as(ranks, r, n) == if 0 <= at < n { seq![vocabulary()[at]] } else { seq![] },
    decreases n,
{
    if n > 0 {
        lemma_ranked_as_one(ranks, r, n - 1, at);
        if ranks[n - 1] == Some(r as u8) {
            assert(seq![] + seq![vocabulary()[at]] =~= seq![vocabulary()[at]]);
        } else {
            assert(ranked_as(ranks, r, n - 1) + seq![] =~= ranked_as(ranks, r, n - 1));
        }
    }
}

/// Opening the picker on an order without repeats and applying it unchanged
/// gives the same order back: the seeded ranks are the positions, and the
/// picker sorts by them.
pub proof fn lemma_opening_reproduces_the_order(columns: Seq<EntryColumn>)
    requires
        columns.len() < 255,
        distinct(columns),
    ensures
        picked(seeded(columns, columns.len() as int)) == columns,
{
    let m = columns.len() as int;
    let ranks = seeded(columns, m);
    lemma_seeded(columns, m);
    assert forall|r: int| 0 <= r < 256 implies #[trigger] ranked_as(ranks, r, 7) == if 1 <= r <= m {
        seq![columns[r - 1]]
    } else {
        seq![]
    } by {
        if 1 <= r <= m {
            let at = vocabulary_index(columns[r - 1]);
            lemma_vocabulary_index(columns[r - 1]);
            assert forall|i: int| 0 <= i < 7 implies (#[trigger] ranks[i] == Some(r as u8) <==> i == at) by {
                if ranks[i] == Some(r as u8) {
                    assert(ranks[i] is Some);
                    assert(vocabulary_index(columns[ranks[i]->0 - 1]) == i);
                }
            }
            lemma_ranked_as_one(ranks, r, 7, at);
        } else {
            assert forall|i: int| 0 <= i < 7 implies (#[trigger] ranks[i] == Some(r as u8) <==> i == -1) by {
                if ranks[i] == Some(r as u8) {
                    assert(ranks[i] is Some);
                    assert(1 <= ranks[i]->0 <= m);
                }
            }
            lemma_ranked_as_one(ranks, r, 7, -1);
        }
    }
    lemma_ranked_below(columns, ranks, 256);
    assert(columns.subrange(0, m) =~= columns);
}

proof fn lemma_ranked_below(columns: Seq<EntryColumn>, ranks: Seq<Option<u8>>, r: int)
    requires
        0 <= r <= 256,
        columns.len() < 255,
        forall|q: int| 0 <= q < 256 ==> #[trigger] ranked_as(ranks, q, 7) == if 1 <= q <= columns.len() {
            seq![columns[q - 1]]
        } else {
            seq![]
        },
    ensures
        ranked_below(ranks, r) == columns.subrange(0, if r <= 1 { 0 } else if r - 1 <= columns.len() { r - 1 } else { columns.len() as int }),
    decreases r,
{
    if r > 0 {
        lemma_ranked_below(columns, ranks, r - 1);
        let q = r - 1;
        assert(ranked_as(ranks, q, 7) == if 1 <= q <= columns.len() { seq![columns[q - 1]] } else { seq![] });
        if 1 <= q <= columns.len() {
            assert(columns.subrange(0, q - 1) + seq![columns[q - 1]] =~= columns.subrange(0, q));
        } else if q == 0 {
            assert(Seq::<EntryColumn>::empty() + Seq::<EntryColumn>::empty() =~= columns.subrange(0, 0));
        } else {
            assert(columns.subrange(0, columns.len() as int) + Seq::<EntryColumn>::empty() =~= columns.subrange(0, columns.len() as int));
        }
    }
}

} // verus!
