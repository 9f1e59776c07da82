//! What a run leaves behind: one file for each cluster's founding read, and a table of the
//! clusters by size.

use vstd::prelude::*;
use vstd::string::StringSliceAdditionalSpecFns;

verus! {

/// One line of the summary table.
#[derive(Clone, Copy, Debug, PartialEq, Eq, Structural)]
pub struct SummaryRow {
    pub cluster_id: usize,
    pub members: usize,
}

/// The decimal digits of a number, as ASCII bytes, without leading zeros.
pub open spec fn decimal(n: nat) -> Seq<u8>
    decreases n,
{
    if n < 10 {
        seq![('0' as u8 + n) as u8]
    } else {
        decimal(n / 10).push(('0' as u8 + n % 10) as u8)
    }
}

/// The first line of the summary table.
pub open spec fn header_bytes() -> Seq<u8> {
    "cluster_id\tcluster_members\n".spec_bytes()
}

/// One line of the summary table: the cluster's number, a tab, its size, a line feed.
pub open spec fn row_bytes(row: SummaryRow) -> Seq<u8> {
    decimal(row.cluster_id as nat) + "\t".spec_bytes() + decimal(row.members as nat)
        + "\n".spec_bytes()
}

/// The summary table: the header, then one line for each row, in the order of the rows.
pub open spec fn table_bytes(rows: Seq<SummaryRow>) -> Seq<u8>
    decreases rows.len(),
{
    if rows.len() == 0 {
        header_bytes()
    } else {
        table_bytes(rows.drop_last()) + row_bytes(rows.last())
    }
}

/// The file of a cluster's founding read: `>`, the read's identifier, a line feed, the read's
/// bases, and no line feed after them.
pub open spec fn record_bytes(id: Seq<u8>, seq: Seq<u8>) -> Seq<u8> {
    ">".spec_bytes() + id + "\n".spec_bytes() + seq
}

/// The name of the file of the cluster of this number.
pub open spec fn file_name_bytes(cluster_id: nat) -> Seq<u8> {
    "cluster_".spec_bytes() + decimal(cluster_id) + ".fastq".spec_bytes()
}

/// The name of the file of the summary table.
pub open spec fn summary_name_bytes() -> Seq<u8> {
    "clusters.tsv".spec_bytes()
}

/// Appends `bytes` to `out`.
fn append_bytes(out: &mut Vec<u8>, bytes: &[u8])
    ensures
        final(out)@ == old(out)@ + bytes@,
{
    let n: usize = bytes.len();
    let mut i: usize = 0;
    assert(out@ =~= old(out)@ + bytes@.take(0));
    while i < n
        invariant
            n == bytes@.len(),
            i <= n,
            out@ == old(out)@ + bytes@.take(i as int),
        decreases n - i,
    {
        out.push(bytes[i]);
        assert(out@ =~= old(out)@ + bytes@.take(i + 1));
        i = i + 1;
    }
    assert(bytes@.take(n as int) =~= bytes@);
}

/// Appends the decimal digits of `n` to `out`.
fn append_decimal(out: &mut Vec<u8>, n: usize)
    ensures
        final(out)@ == old(out)@ + decimal(n as nat),
    decreases n,
{
    if n >= 10 {
        append_decimal(out, n / 10);
    }
    let digit: u8 = (n % 10) as u8;
    out.push('0' as u8 + digit);
    assert(out@ =~= old(out)@ + decimal(n as nat));
}

/// The decimal digits of a number, as ASCII bytes.
pub fn decimal_digits(n: usize) -> (digits: Vec<u8>)
    ensures
        digits@ == decimal(n as nat),
{
    let mut digits: Vec<u8> = Vec::new();
    append_decimal(&mut digits, n);
    assert(digits@ =~= decimal(n as nat));
    digits
}

/// The contents of the file that keeps a cluster's founding read.
pub fn representative_record(id: &[u8], seq: &[u8]) -> (contents: Vec<u8>)
    ensures
        contents@ == record_bytes(id@, seq@),
{
    let mut contents: Vec<u8> = Vec::new();
    append_bytes(&mut contents, ">".as_bytes());
    append_bytes(&mut contents, id);
    append_bytes(&mut contents, "\n".as_bytes());
    append_bytes(&mut contents, seq);
    assert(contents@ =~= record_bytes(id@, seq@));
    contents
}

/// The name of the file that keeps the founding read of the cluster of this number.
pub fn representative_file_name(cluster_id: usize) -> (name: Vec<u8>)
    ensures
        name@ == file_name_bytes(cluster_id as nat),
{
    let mut name: Vec<u8> = Vec::new();
    append_bytes(&mut name, "cluster_".as_bytes());
    append_decimal(&mut name, cluster_id);
    append_bytes(&mut name, ".fastq".as_bytes());
    assert(name@ =~= file_name_bytes(cluster_id as nat));
    name
}

/// The name of the file that keeps the summary table.
pub fn summary_file_name() -> (name: Vec<u8>)
    ensures
        name@ == summary_name_bytes(),
{
    let mut name: Vec<u8> = Vec::new();
    append_bytes(&mut name, "clusters.tsv".as_bytes());
    assert(name@ =~= summary_name_bytes());
    name
}

/// The summary table of these rows, in their order.
pub fn summary_table(rows: &[SummaryRow]) -> (table: Vec<u8>)
    ensures
        table@ == table_bytes(rows@),
{
    let mut table: Vec<u8> = Vec::new();
    append_bytes(&mut table, "cluster_id\tcluster_members\n".as_bytes());
    assert(table@ =~= header_bytes());
    let n: usize = rows.len();
    let mut i: usize = 0;
    assert(rows@.take(0) =~= Seq::<SummaryRow>::empty());
    while i < n
        invariant
            n == rows@.len(),
            i <= n,
            table@ == table_bytes(rows@.take(i as int)),
        decreases n - i,
    {
        let ghost before = table@;
        append_decimal(&mut table, rows[i].cluster_id);
        append_bytes(&mut table, "\t".as_bytes());
        append_decimal(&mut table, rows[i].members);
        append_bytes(&mut table, "\n".as_bytes());
        proof {
            assert(rows@.take(i + 1).drop_last() =~= rows@.take(i as int));
            assert(rows@.take(i + 1).last() == rows@[i as int]);
            assert(table@ =~= before + row_bytes(rows@[i as int]));
        }
        i = i + 1;
    }
    assert(rows@.take(n as int) =~= rows@);
    table
}

/// The rows of `rows` that hold `members` reads, in the order in which `rows` has them.
pub open spec fn rows_with(rows: Seq<SummaryRow>, members: usize) -> Seq<SummaryRow>
    decreases rows.len(),
{
    if rows.len() == 0 {
        Seq::empty()
    } else if rows.last().members == members {
        rows_with(rows.drop_last(), members).push(rows.last())
    } else {
        rows_with(rows.drop_last(), members)
    }
}

/// Whether no row stands before a row of a larger cluster.
pub open spec fn descending(rows: Seq<SummaryRow>) -> bool {
    forall|i: int, j: int| 0 <= i < j < rows.len() ==> rows[i].members >= rows[j].members
}

/// Whether two runs of rows have, for every size, the same rows of that size in the same order.
pub open spec fn same_groups(a: Seq<SummaryRow>, b: Seq<SummaryRow>) -> bool {
    forall|members: usize| #[trigger] rows_with(a, members) == rows_with(b, members)
}

/// Whether `sorted` is `rows` in the order of the summary table: larger clusters first, and
/// clusters of one size in the order in which `rows` has them.
pub open spec fn is_summary_order(rows: Seq<SummaryRow>, sorted: Seq<SummaryRow>) -> bool {
    descending(sorted) && same_groups(rows, sorted)
}

/// The rows in the order of the summary table. There is one such order: see
/// `lemma_summary_order_unique`.
pub open spec fn summary_order(rows: Seq<SummaryRow>) -> Seq<SummaryRow> {
    choose|sorted: Seq<SummaryRow>| is_summary_order(rows, sorted)
}

/// The rows of one size in two runs put together are those of the first, then those of the
/// second.
pub proof fn lemma_rows_with_concat(a: Seq<SummaryRow>, b: Seq<SummaryRow>, members: usize)
    ensures
        rows_with(a + b, members) == rows_with(a, members) + rows_with(b, members),
    decreases b.len(),
{
    if b.len() == 0 {
        assert(a + b =~= a);
        assert(rows_with(a, members) + rows_with(b, members) =~= rows_with(a, members));
    } else {
        assert((a + b).drop_last() =~= a + b.drop_last());
        lemma_rows_with_concat(a, b.drop_last(), members);
        assert(rows_with(a + b, members) =~= rows_with(a, members) + rows_with(b, members));
    }
}

/// Where no row has this size, there are no rows of this size.
pub proof fn lemma_rows_with_none(rows: Seq<SummaryRow>, members: usize)
    requires
        forall|i: int| 0 <= i < rows.len() ==> (#[trigger] rows[i]).members != members,
    ensures
        rows_with(rows, members) == Seq::<SummaryRow>::empty(),
    decreases rows.len(),
{
    if rows.len() > 0 {
        assert forall|i: int| 0 <= i < rows.drop_last().len() implies (#[trigger] rows.drop_last()[i]).members
            != members by {
            assert(rows.drop_last()[i] == rows[i]);
        }
        lemma_rows_with_none(rows.drop_last(), members);
        assert(rows[rows.len() - 1].members != members);
    }
}

/// Where there are rows of this size, some row has this size.
pub proof fn lemma_rows_with_some(rows: Seq<SummaryRow>, members: usize)
    requires
        rows_with(rows, members).len() > 0,
    ensures
        exists|i: int| 0 <= i < rows.len() && (#[trigger] rows[i]).members == members,
{
    if forall|i: int| 0 <= i < rows.len() ==> (#[trigger] rows[i]).members != members {
        lemma_rows_with_none(rows, members);
    }
}

/// A row is among the rows of its size.
pub proof fn lemma_rows_with_holds(rows: Seq<SummaryRow>, i: int)
    requires
        0 <= i < rows.len(),
    ensures
        rows_with(rows, rows[i].members).len() > 0,
    decreases rows.len(),
{
    if i < rows.len() - 1 {
        assert(rows.drop_last()[i] == rows[i]);
        lemma_rows_with_holds(rows.drop_last(), i);
    }
}

/// Putting a row behind every row that is not smaller keeps every group, and adds the row at
/// the end of its own.
pub proof fn lemma_rows_with_insert(sorted: Seq<SummaryRow>, at: int, row: SummaryRow, members: usize)
    requires
        0 <= at <= sorted.len(),
        forall|k: int| at <= k < sorted.len() ==> (#[trigger] sorted[k]).members < row.members,
    ensures
        rows_with(sorted.insert(at, row), members) == if row.members == members {
            rows_with(sorted, members).push(row)
        } else {
            rows_with(sorted, members)
        },
{
    let left = sorted.subrange(0, at);
    let right = sorted.subrange(at, sorted.len() as int);
    assert(sorted =~= left + right);
    assert(left.push(row).drop_last() =~= left);
    lemma_rows_with_concat(left, right, members);
    lemma_rows_with_concat(left.push(row), right, members);
    if row.members == members {
        assert forall|k: int| 0 <= k < right.len() implies (#[trigger] right[k]).members != members by {
            assert(right[k] == sorted[at + k]);
        }
        lemma_rows_with_none(right, members);
        assert(rows_with(left, members) + rows_with(right, members) =~= rows_with(left, members));
        assert(rows_with(left, members).push(row) + rows_with(right, members) =~= rows_with(
            left,
            members,
        ).push(row));
    }
}

/// The order of the summary table is one order only: two runs of rows that are both
/// descending and have the same groups are the same run.
pub proof fn lemma_summary_order_unique(a: Seq<SummaryRow>, b: Seq<SummaryRow>)
    requires
        descending(a),
        descending(b),
        same_groups(a, b),
    ensures
        a == b,
    decreases a.len(),
{
    if a.len() == 0 {
        if b.len() > 0 {
            lemma_rows_with_holds(b, 0);
            assert(rows_with(a, b[0].members) == rows_with(b, b[0].members));
        }
        assert(a =~= b);
    } else {
        let x = a.last();
        assert(rows_with(a, x.members) == rows_with(b, x.members));
        assert(b.len() > 0);
        let y = b.last();
        assert(rows_with(a, y.members) == rows_with(b, y.members));
        lemma_rows_with_some(a, y.members);
        lemma_rows_with_some(b, x.members);
        let i = choose|i: int| 0 <= i < a.len() && (#[trigger] a[i]).members == y.members;
        let j = choose|j: int| 0 <= j < b.len() && (#[trigger] b[j]).members == x.members;
        assert(a[i].members >= a[a.len() - 1].members);
        assert(b[j].members >= b[b.len() - 1].members);
        assert(x.members == y.members);
        let ra = rows_with(a.drop_last(), x.members);
        let rb = rows_with(b.drop_last(), x.members);
        assert(ra.push(x) == rb.push(y));
        assert(ra.push(x).last() == x);
        assert(rb.push(y).last() == y);
        assert(ra =~= ra.push(x).drop_last());
        assert(rb =~= rb.push(y).drop_last());
        assert forall|members: usize| #[trigger]
            rows_with(a.drop_last(), members) == rows_with(b.drop_last(), members) by {
            assert(rows_with(a, members) == rows_with(b, members));
        }
        lemma_summary_order_unique(a.drop_last(), b.drop_last());
        assert(a =~= a.drop_last().push(x));
        assert(b =~= b.drop_last().push(y));
    }
}

/// Puts rows in the order of the summary table: larger clusters first, clusters of one size in
/// the order in which they were given.
pub fn sort_rows(rows: &[SummaryRow]) -> (sorted: Vec<SummaryRow>)
    ensures
        sorted@ == summary_order(rows@),
        is_summary_order(rows@, sorted@),
        sorted@.len() == rows@.len(),
{
    let n: usize = rows.len();
    let mut sorted: Vec<SummaryRow> = Vec::new();
    let mut i: usize = 0;
    assert(rows@.take(0) =~= Seq::<SummaryRow>::empty());
    while i < n
        invariant
            n == rows@.len(),
            i <= n,
            sorted@.len() == i,
            descending(sorted@),
            same_groups(rows@.take(i as int), sorted@),
        decreases n - i,
    {
        let row = rows[i];
        let mut at: usize = 0;
        while at < sorted.len() && sorted[at].members >= row.members
            invariant
                at <= sorted@.len(),
                forall|k: int| 0 <= k < at ==> (#[trigger] sorted@[k]).members >= row.members,
            decreases sorted@.len() - at,
        {
            at = at + 1;
        }
        let ghost before = sorted@;
        proof {
            assert forall|k: int| at <= k < before.len() implies (#[trigger] before[k]).members
                < row.members by {
                assert(before[at as int].members >= before[k].members);
            }
            assert(rows@.take(i + 1).drop_last() =~= rows@.take(i as int));
            assert forall|members: usize| #[trigger]
                rows_with(rows@.take(i + 1), members) == rows_with(
                    before.insert(at as int, row),
                    members,
                ) by {
                lemma_rows_with_insert(before, at as int, row, members);
                assert(rows_with(rows@.take(i as int), members) == rows_with(before, members));
            }
        }
        sorted.insert(at, row);
        i = i + 1;
    }
    assert(rows@.take(n as int) =~= rows@);
    proof {
        let chosen = summary_order(rows@);
        assert(is_summary_order(rows@, sorted@));
        assert forall|members: usize| #[trigger]
            rows_with(sorted@, members) == rows_with(chosen, members) by {
            assert(rows_with(rows@, members) == rows_with(sorted@, members));
            assert(rows_with(rows@, members) == rows_with(chosen, members));
        }
        lemma_summary_order_unique(sorted@, chosen);
    }
    sorted
}

} // verus!
