//! The seeds that a report shows as data tables.
use vstd::prelude::*;
use vstd::string::*;
use crate::domain::{FixtureTable, FixtureTableDiff};

verus! {

/// A seed: who it is, which models read it, its table and how the table has
/// changed.
#[derive(Debug, PartialEq, Eq)]
pub struct SeedCard {
    pub id: String,
    pub name: String,
    pub original_file_path: Option<String>,
    pub feeds_models: Vec<String>,
    pub delimiter: Option<String>,
    pub quote_columns: Option<String>,
    pub column_types: Option<String>,
    pub table: Option<FixtureTable>,
    pub diff: Option<FixtureTableDiff>,
}

/// A seed as the report shows it: its table cut to a number of rows, with the
/// numbers of rows before and after.
#[derive(Debug, PartialEq, Eq)]
pub struct SeedSectionCard {
    pub id: String,
    pub name: String,
    pub original_file_path: Option<String>,
    pub feeds_models: Vec<String>,
    pub delimiter: Option<String>,
    pub quote_columns: Option<String>,
    pub column_types: Option<String>,
    pub table: Option<FixtureTable>,
    pub total_rows: usize,
    pub shown_rows: usize,
    pub capped: bool,
    pub diff: Option<FixtureTableDiff>,
}

/// The smaller of two numbers.
pub open spec fn smaller(a: nat, b: nat) -> nat {
    if a <= b {
        a
    } else {
        b
    }
}

/// `out` is `table` cut to its first `cap` rows, with the number of rows
/// before and after, and whether any was cut off.
pub open spec fn is_capped(
    out: (Option<FixtureTable>, usize, usize, bool),
    table: Option<FixtureTable>,
    cap: usize,
) -> bool {
    match table {
        Some(t) => {
            let shown = smaller(t.rows@.len(), cap as nat);
            &&& out.0 matches Some(c) && c.columns == t.columns && c.rows@ == t.rows@.take(
                shown as int,
            )
            &&& out.1 == t.rows@.len()
            &&& out.2 == shown
            &&& out.3 == (shown < t.rows@.len())
        },
        None => out == (None::<FixtureTable>, 0usize, 0usize, false),
    }
}

/// `table` cut to its first `cap` rows, the number of its rows, the number of
/// rows that are left, and whether any was cut off. The columns stay, also
/// with no rows left.
pub fn cap_seed_table(table: Option<FixtureTable>, cap: usize) -> (r: (
    Option<FixtureTable>,
    usize,
    usize,
    bool,
))
    ensures
        is_capped(r, table, cap),
{
    match table {
        Some(t) => {
            let total: usize = t.rows.len();
            let shown: usize = if total <= cap {
                total
            } else {
                cap
            };
            let FixtureTable { columns, rows } = t;
            let mut kept: Vec<crate::domain::TableRow> = rows;
            kept.truncate(shown);
            (Some(FixtureTable { columns, rows: kept }), total, shown, shown < total)
        },
        None => (None, 0, 0, false),
    }
}

/// `out` shows `card` with its table cut to `cap` rows. The diff is shown
/// whole.
pub open spec fn shows_seed(out: SeedSectionCard, card: SeedCard, cap: usize) -> bool {
    &&& out.id == card.id
    &&& out.name == card.name
    &&& out.original_file_path == card.original_file_path
    &&& out.feeds_models == card.feeds_models
    &&& out.delimiter == card.delimiter
    &&& out.quote_columns == card.quote_columns
    &&& out.column_types == card.column_types
    &&& out.diff == card.diff
    &&& is_capped((out.table, out.total_rows, out.shown_rows, out.capped), card.table, cap)
}

/// A seed as the report shows it, its table cut to `cap` rows.
pub fn seed_section_card(card: SeedCard, cap: usize) -> (r: SeedSectionCard)
    ensures
        shows_seed(r, card, cap),
{
    let (table, total_rows, shown_rows, capped) = cap_seed_table(card.table, cap);
    SeedSectionCard {
        id: card.id,
        name: card.name,
        original_file_path: card.original_file_path,
        feeds_models: card.feeds_models,
        delimiter: card.delimiter,
        quote_columns: card.quote_columns,
        column_types: card.column_types,
        table,
        total_rows,
        shown_rows,
        capped,
        diff: card.diff,
    }
}

/// `out` shows `cards`, in order.
pub open spec fn shows_seeds(out: Seq<SeedSectionCard>, cards: Seq<SeedCard>, cap: usize) -> bool {
    &&& out.len() == cards.len()
    &&& forall|i: int| 0 <= i < out.len() ==> shows_seed(#[trigger] out[i], cards[i], cap)
}

/// The seeds as the report shows them, each table cut to `cap` rows.
pub fn build_seed_section(cards: Vec<SeedCard>, cap: usize) -> (r: Vec<SeedSectionCard>)
    ensures
        shows_seeds(r@, cards@, cap),
{
    let mut out: Vec<SeedSectionCard> = Vec::new();
    for card in it: cards
        invariant
            it.seq() == cards@,
            out@.len() == it.index(),
            forall|i: int|
                0 <= i < out@.len() ==> shows_seed(#[trigger] out@[i], cards@[i], cap),
    {
        out.push(seed_section_card(card, cap));
    }
    out
}

/// Law: the number of rows stated as shown is the number of rows in the table,
/// no more than the cap and no more than the number of all rows; rows were cut
/// off exactly where fewer are shown than there are.
pub proof fn law_seed_counts(out: SeedSectionCard, card: SeedCard, cap: usize)
    requires
        shows_seed(out, card, cap),
    ensures
        out.shown_rows <= out.total_rows,
        out.table is Some ==> out.shown_rows <= cap && out.shown_rows == out.table->0.rows@.len(),
        out.table is None ==> out.total_rows == 0 && out.shown_rows == 0,
        out.capped <==> out.shown_rows < out.total_rows,
        out.table is Some <==> card.table is Some,
        out.diff == card.diff,
{
}

/// Law: each seed is shown once, in order, with everything that is known of it
/// and its diff whole. Its table keeps its columns and its first rows, up to
/// the cap, unchanged; the total is that of all its rows.
pub proof fn law_seeds_shown(out: Seq<SeedSectionCard>, cards: Seq<SeedCard>, cap: usize, i: int)
    requires
        shows_seeds(out, cards, cap),
        0 <= i < cards.len(),
    ensures
        out.len() == cards.len(),
        out[i].id == cards[i].id,
        out[i].name == cards[i].name,
        out[i].original_file_path == cards[i].original_file_path,
        out[i].feeds_models == cards[i].feeds_models,
        out[i].delimiter == cards[i].delimiter,
        out[i].quote_columns == cards[i].quote_columns,
        out[i].column_types == cards[i].column_types,
        out[i].diff == cards[i].diff,
        cards[i].table is None ==> out[i].table is None && out[i].total_rows == 0
            && out[i].shown_rows == 0 && !out[i].capped,
        cards[i].table matches Some(t) ==> {
            &&& out[i].table is Some
            &&& out[i].table->0.columns == t.columns
            &&& out[i].total_rows == t.rows@.len()
            &&& t.rows@.len() <= cap ==> out[i].table->0.rows@ == t.rows@ && out[i].shown_rows
                == t.rows@.len() && !out[i].capped
            &&& t.rows@.len() > cap ==> out[i].table->0.rows@ == t.rows@.take(cap as int)
                && out[i].shown_rows == cap && out[i].capped
        },
{
    assert(shows_seed(out[i], cards[i], cap));
    if let Some(t) = cards[i].table {
        assert(t.rows@.take(t.rows@.len() as int) == t.rows@);
    }
}

} // verus!
