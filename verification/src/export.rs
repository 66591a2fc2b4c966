//! A table of text cells, the keys taken from one of its columns, and the
//! records that make up the export of a grouping.
//!
//! An export starts with the table's headers behind a column named `Index`.
//! Then, for each group in turn, it holds one record per member: the row
//! number in decimal, then the row's cells. Every group is closed by one
//! record of empty cells that is as wide as the header record.

use vstd::prelude::*;
use vstd::string::StringExecFns;

verus! {

/// A parsed table: its header cells, and its rows of cells.
pub struct Table {
    pub headers: Vec<String>,
    pub rows: Vec<Vec<String>>,
}

/// One record of an export, or one row of a table: its cells in order.
pub type Record = Seq<Seq<char>>;

/// The character that stands for a single decimal digit.
pub open spec fn digit(d: nat) -> char
    recommends
        d < 10,
{
    "0123456789"@[d as int]
}

/// The decimal numeral of `n`, without sign or leading zeros.
pub open spec fn decimal(n: nat) -> Seq<char>
    decreases n,
{
    if n < 10 {
        seq![digit(n)]
    } else {
        decimal(n / 10).push(digit(n % 10))
    }
}

/// A numeral has at least one digit.
pub proof fn lemma_decimal_not_empty(n: nat)
    ensures
        decimal(n).len() > 0,
{
}

/// The numeral of a single digit, as text.
fn digit_text(d: usize) -> (text: &'static str)
    requires
        d < 10,
    ensures
        text@ == seq![digit(d as nat)],
{
    proof {
        reveal_strlit("0123456789");
        reveal_strlit("0");
        reveal_strlit("1");
        reveal_strlit("2");
        reveal_strlit("3");
        reveal_strlit("4");
        reveal_strlit("5");
        reveal_strlit("6");
        reveal_strlit("7");
        reveal_strlit("8");
        reveal_strlit("9");
    }
    let text = if d == 0 {
        "0"
    } else if d == 1 {
        "1"
    } else if d == 2 {
        "2"
    } else if d == 3 {
        "3"
    } else if d == 4 {
        "4"
    } else if d == 5 {
        "5"
    } else if d == 6 {
        "6"
    } else if d == 7 {
        "7"
    } else if d == 8 {
        "8"
    } else {
        "9"
    };
    assert(text@ =~= seq![digit(d as nat)]);
    text
}

/// Writes a row number in decimal.
pub fn index_text(n: usize) -> (text: String)
    ensures
        text@ == decimal(n as nat),
    decreases n,
{
    if n < 10 {
        digit_text(n).to_owned()
    } else {
        let mut text = index_text(n / 10);
        text.append(digit_text(n % 10));
        text
    }
}

/// The keys of a column: for every row, in order, its cell in that column.
pub open spec fn column_of(rows: Seq<Record>, column: int) -> Record {
    Seq::new(rows.len(), |i: int| rows[i][column])
}

/// Takes the grouping keys from one column of a table.
///
/// Every row must reach as far as the chosen column.
pub fn column_keys(table: &Table, column: usize) -> (keys: Vec<String>)
    requires
        forall|i: int| 0 <= i < table.rows.len() ==> column < (#[trigger] table.rows[i]).len(),
    ensures
        keys.deep_view() == column_of(table.rows.deep_view(), column as int),
{
    let mut keys: Vec<String> = Vec::new();
    let mut i: usize = 0;
    while i < table.rows.len()
        invariant
            i <= table.rows.len(),
            keys.len() == i,
            forall|r: int| 0 <= r < table.rows.len() ==> column < (#[trigger] table.rows[r]).len(),
            forall|r: int| 0 <= r < i ==> (#[trigger] keys[r])@ == table.rows[r][column as int]@,
        decreases table.rows.len() - i,
    {
        keys.push(table.rows[i][column].clone());
        i = i + 1;
    }
    proof {
        assert(keys.deep_view() =~= column_of(table.rows.deep_view(), column as int));
    }
    keys
}

/// The first record of an export: the index column's name, then the table's
/// headers.
pub open spec fn header_record(headers: Record) -> Record {
    seq!["Index"@] + headers
}

/// The record of one member of a group: the row number, then the row's
/// cells.
pub open spec fn row_record(rows: Seq<Record>, row: usize) -> Record {
    seq![decimal(row as nat)] + rows[row as int]
}

/// The record that closes a group: `width` empty cells.
pub open spec fn blank_record(width: nat) -> Record {
    Seq::new(width, |c: int| Seq::<char>::empty())
}

/// The records of one group: one per member, then the closing record.
pub open spec fn group_records(rows: Seq<Record>, width: nat, group: Seq<usize>) -> Seq<Record> {
    group.map_values(|row: usize| row_record(rows, row)).push(blank_record(width))
}

/// The records of the first `count` groups, one group after the other.
pub open spec fn groups_records(
    rows: Seq<Record>,
    width: nat,
    groups: Seq<Seq<usize>>,
    count: int,
) -> Seq<Record> {
    groups.take(count).map_values(|group: Seq<usize>| group_records(rows, width, group)).flatten()
}

/// All records of an export, in the order in which they are written.
pub open spec fn export_layout(headers: Record, rows: Seq<Record>, groups: Seq<Seq<usize>>) -> Seq<
    Record,
> {
    seq![header_record(headers)] + groups_records(
        rows,
        headers.len() + 1,
        groups,
        groups.len() as int,
    )
}

/// The records of one more group follow those of the groups before it.
pub proof fn lemma_groups_records_next(
    rows: Seq<Record>,
    width: nat,
    groups: Seq<Seq<usize>>,
    count: int,
)
    requires
        0 <= count < groups.len(),
    ensures
        groups_records(rows, width, groups, count + 1) == groups_records(
            rows,
            width,
            groups,
            count,
        ) + group_records(rows, width, groups[count]),
{
    let per_group = |group: Seq<usize>| group_records(rows, width, group);
    let before = groups.take(count).map_values(per_group);
    assert(groups.take(count + 1).map_values(per_group) =~= before.push(per_group(groups[count])));
    before.lemma_flatten_push(per_group(groups[count]));
}

/// Copies a row of cells behind its row number.
fn member_record(table: &Table, row: usize) -> (record: Vec<String>)
    requires
        row < table.rows.len(),
    ensures
        record.deep_view() == row_record(table.rows.deep_view(), row),
{
    let cells = &table.rows[row];
    let mut record: Vec<String> = Vec::new();
    record.push(index_text(row));
    let mut c: usize = 0;
    while c < cells.len()
        invariant
            c <= cells.len(),
            record.len() == c + 1,
            record[0]@ == decimal(row as nat),
            forall|j: int| 0 <= j < c ==> (#[trigger] record[j + 1])@ == cells[j]@,
        decreases cells.len() - c,
    {
        record.push(cells[c].clone());
        c = c + 1;
    }
    proof {
        assert(table.rows.deep_view()[row as int] == cells.deep_view());
        assert forall|j: int| 0 <= j < record.len() implies record.deep_view()[j] == row_record(
            table.rows.deep_view(),
            row,
        )[j] by {
            if j > 0 {
                assert(record[(j - 1) + 1]@ == cells[j - 1]@);
            }
        }
        assert(record.deep_view() =~= row_record(table.rows.deep_view(), row));
    }
    record
}

/// Builds a record of `width` empty cells.
fn closing_record(width: usize) -> (record: Vec<String>)
    ensures
        record.deep_view() == blank_record(width as nat),
{
    let mut record: Vec<String> = Vec::new();
    let mut c: usize = 0;
    while c < width
        invariant
            c <= width,
            record.len() == c,
            forall|j: int| 0 <= j < c ==> (#[trigger] record[j])@ == Seq::<char>::empty(),
        decreases width - c,
    {
        record.push(String::new());
        c = c + 1;
    }
    proof {
        assert(record.deep_view() =~= blank_record(width as nat));
    }
    record
}

/// Builds the header record of an export.
fn heading(table: &Table) -> (record: Vec<String>)
    ensures
        record.deep_view() == header_record(table.headers.deep_view()),
{
    let mut record: Vec<String> = Vec::new();
    record.push("Index".to_owned());
    let mut c: usize = 0;
    while c < table.headers.len()
        invariant
            c <= table.headers.len(),
            record.len() == c + 1,
            record[0]@ == "Index"@,
            forall|j: int| 0 <= j < c ==> (#[trigger] record[j + 1])@ == table.headers[j]@,
        decreases table.headers.len() - c,
    {
        record.push(table.headers[c].clone());
        c = c + 1;
    }
    proof {
        assert forall|j: int| 0 <= j < record.len() implies record.deep_view()[j] == header_record(
            table.headers.deep_view(),
        )[j] by {
            if j > 0 {
                assert(record[(j - 1) + 1]@ == table.headers[j - 1]@);
            }
        }
        assert(record.deep_view() =~= header_record(table.headers.deep_view()));
    }
    record
}

/// Lays out the export of a grouping of the table's rows.
///
/// Every member of every group must be the number of a row of the table.
pub fn export_records(table: &Table, groups: &Vec<Vec<usize>>) -> (records: Vec<Vec<String>>)
    requires
        forall|g: int, m: int|
            0 <= g < groups.len() && 0 <= m < groups[g].len() ==> (#[trigger] groups[g][m])
                < table.rows.len(),
    ensures
        records.deep_view() == export_layout(
            table.headers.deep_view(),
            table.rows.deep_view(),
            groups.deep_view(),
        ),
{
    let ghost rows = table.rows.deep_view();
    let ghost width = table.headers.deep_view().len() + 1;
    let ghost head = header_record(table.headers.deep_view());
    let header = heading(table);
    let columns = header.len();
    assert(header.deep_view().len() == columns);
    let mut records: Vec<Vec<String>> = Vec::new();
    records.push(header);
    proof {
        lemma_groups_records_start(rows, width, groups.deep_view());
        assert(records.deep_view() =~= seq![head] + groups_records(
            rows,
            width,
            groups.deep_view(),
            0,
        ));
    }
    let mut g: usize = 0;
    while g < groups.len()
        invariant
            g <= groups.len(),
            rows == table.rows.deep_view(),
            width == table.headers.deep_view().len() + 1,
            columns == width,
            head == header_record(table.headers.deep_view()),
            forall|a: int, m: int|
                0 <= a < groups.len() && 0 <= m < groups[a].len() ==> (#[trigger] groups[a][m])
                    < table.rows.len(),
            records.deep_view() == seq![head] + groups_records(
                rows,
                width,
                groups.deep_view(),
                g as int,
            ),
        decreases groups.len() - g,
    {
        let group = &groups[g];
        let ghost done = records.deep_view();
        let ghost members = groups.deep_view()[g as int];
        let ghost per_row = |row: usize| row_record(rows, row);
        proof {
            assert(members =~= group@);
            assert(members.take(0).map_values(per_row) =~= Seq::<Record>::empty());
            assert(done + Seq::<Record>::empty() =~= done);
        }
        let mut m: usize = 0;
        while m < group.len()
            invariant
                m <= group.len(),
                rows == table.rows.deep_view(),
                members == group@,
                per_row == |row: usize| row_record(rows, row),
                forall|b: int| 0 <= b < group.len() ==> (#[trigger] group[b]) < table.rows.len(),
                records.deep_view() == done + members.take(m as int).map_values(per_row),
            decreases group.len() - m,
        {
            let ghost so_far = records.deep_view();
            let record = member_record(table, group[m]);
            records.push(record);
            proof {
                assert(records.deep_view() =~= so_far.push(per_row(group[m as int])));
                assert(members.take(m + 1).map_values(per_row) =~= members.take(
                    m as int,
                ).map_values(per_row).push(per_row(members[m as int])));
            }
            m = m + 1;
        }
        let ghost so_far = records.deep_view();
        records.push(closing_record(columns));
        proof {
            assert(members.take(group.len() as int) =~= members);
            assert(records.deep_view() =~= so_far.push(blank_record(width)));
            lemma_groups_records_next(rows, width, groups.deep_view(), g as int);
            assert(records.deep_view() =~= seq![head] + groups_records(
                rows,
                width,
                groups.deep_view(),
                g + 1,
            ));
        }
        g = g + 1;
    }
    records
}

/// A record without any text: all of its cells are empty.
pub open spec fn is_blank(record: Record) -> bool {
    forall|c: int| 0 <= c < record.len() ==> (#[trigger] record[c]).len() == 0
}

/// What remains of a run of records once the closing records are dropped and
/// the first cell is cut off the others.
pub open spec fn stripped(records: Seq<Record>) -> Seq<Record> {
    records.filter(|record: Record| !is_blank(record)).map_values(|record: Record| record.skip(1))
}

/// The table rows that an export carries: its records after the header
/// record, without the closing records and without the index column.
pub open spec fn exported_rows(records: Seq<Record>) -> Seq<Record> {
    stripped(records.skip(1))
}

/// The rows of a table in the order in which a grouping lists them.
pub open spec fn grouped_rows(rows: Seq<Record>, groups: Seq<Seq<usize>>, count: int) -> Seq<
    Record,
> {
    groups.take(count).flatten().map_values(|row: usize| rows[row as int])
}

/// Stripping two runs of records one after the other is stripping their
/// concatenation.
proof fn lemma_stripped_concat(first: Seq<Record>, second: Seq<Record>)
    ensures
        stripped(first + second) == stripped(first) + stripped(second),
{
    let keep = |record: Record| !is_blank(record);
    Seq::filter_distributes_over_add(first, second, keep);
    assert(stripped(first + second) =~= stripped(first) + stripped(second));
}

/// Stripping the records of one group gives back the rows of its members.
proof fn lemma_stripped_group(rows: Seq<Record>, width: nat, group: Seq<usize>)
    ensures
        stripped(group_records(rows, width, group)) == group.map_values(
            |row: usize| rows[row as int],
        ),
    decreases group.len(),
{
    let keep = |record: Record| !is_blank(record);
    let per_row = |row: usize| row_record(rows, row);
    let members = group.map_values(per_row);
    reveal(Seq::filter);
    assert(members.push(blank_record(width)).drop_last() =~= members);
    assert(is_blank(blank_record(width)));
    lemma_members_kept(rows, group);
    assert forall|j: int| 0 <= j < group.len() implies #[trigger] members[j].skip(1)
        == rows[group[j] as int] by {
        assert(members[j].skip(1) =~= rows[group[j] as int]);
    }
    assert(stripped(group_records(rows, width, group)) =~= group.map_values(
        |row: usize| rows[row as int],
    ));
}

/// No record of a member is dropped as a closing record: its first cell holds
/// a numeral.
proof fn lemma_members_kept(rows: Seq<Record>, group: Seq<usize>)
    ensures
        group.map_values(|row: usize| row_record(rows, row)).filter(
            |record: Record| !is_blank(record),
        ) == group.map_values(|row: usize| row_record(rows, row)),
    decreases group.len(),
{
    let keep = |record: Record| !is_blank(record);
    let per_row = |row: usize| row_record(rows, row);
    let members = group.map_values(per_row);
    reveal(Seq::filter);
    if group.len() > 0 {
        lemma_members_kept(rows, group.drop_last());
        assert(members.drop_last() =~= group.drop_last().map_values(per_row));
        lemma_decimal_not_empty(group.last() as nat);
        assert(members.last()[0] == decimal(group.last() as nat));
        assert(!is_blank(members.last()));
        assert(members.drop_last().push(members.last()) =~= members);
    } else {
        assert(members.filter(keep) =~= members);
    }
}

/// Read back, the records of the first `count` groups carry the rows of
/// their members, in the order of the grouping.
proof fn lemma_stripped_groups(rows: Seq<Record>, width: nat, groups: Seq<Seq<usize>>, count: int)
    requires
        0 <= count <= groups.len(),
    ensures
        stripped(groups_records(rows, width, groups, count)) == grouped_rows(rows, groups, count),
    decreases count,
{
    let pick = |row: usize| rows[row as int];
    if count == 0 {
        lemma_groups_records_start(rows, width, groups);
        reveal(Seq::filter);
        assert(groups.take(0) =~= Seq::<Seq<usize>>::empty());
        assert(grouped_rows(rows, groups, 0) =~= Seq::<Record>::empty());
        assert(stripped(Seq::<Record>::empty()) =~= Seq::<Record>::empty());
    } else {
        lemma_stripped_groups(rows, width, groups, count - 1);
        lemma_groups_records_next(rows, width, groups, count - 1);
        lemma_stripped_concat(
            groups_records(rows, width, groups, count - 1),
            group_records(rows, width, groups[count - 1]),
        );
        lemma_stripped_group(rows, width, groups[count - 1]);
        assert(groups.take(count) =~= groups.take(count - 1).push(groups[count - 1]));
        groups.take(count - 1).lemma_flatten_push(groups[count - 1]);
        assert(grouped_rows(rows, groups, count) =~= grouped_rows(rows, groups, count - 1)
            + groups[count - 1].map_values(pick));
    }
}

/// Reading an export back gives the table's rows unchanged: without the
/// header record, the closing records and the index column, what is left is
/// the row of every member of every group, in the order of the grouping.
pub proof fn lemma_export_round_trip(headers: Record, rows: Seq<Record>, groups: Seq<Seq<usize>>)
    ensures
        exported_rows(export_layout(headers, rows, groups)) == grouped_rows(
            rows,
            groups,
            groups.len() as int,
        ),
{
    let body = groups_records(rows, headers.len() + 1, groups, groups.len() as int);
    assert(export_layout(headers, rows, groups).skip(1) =~= body);
    lemma_stripped_groups(rows, headers.len() + 1, groups, groups.len() as int);
}

/// Before any group there are no records.
proof fn lemma_groups_records_start(rows: Seq<Record>, width: nat, groups: Seq<Seq<usize>>)
    ensures
        groups_records(rows, width, groups, 0) == Seq::<Record>::empty(),
{
    let per_group = |group: Seq<usize>| group_records(rows, width, group);
    assert(groups.take(0).map_values(per_group) =~= Seq::<Seq<Record>>::empty());
}

} // verus!
