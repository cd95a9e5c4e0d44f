//! The written form of a summary: one header line, then one line per key.

use vstd::prelude::*;
use vstd::string::*;
use crate::order::{
    Key, key_lt, lemma_key_lt_asymmetric, lemma_key_lt_total, lemma_key_lt_transitive,
};
use crate::summary::Summary;

verus! {

/// One line of the report: a key and the sizes of its two sets.
#[derive(Debug, PartialEq, Eq)]
pub struct Row {
    pub prefix: String,
    pub origin: u32,
    pub peer_asns: usize,
    pub peer_feeds: usize,
}

/// The mathematical content of a [`Row`].
pub struct RowView {
    pub prefix: Seq<char>,
    pub origin: u32,
    pub peer_asns: nat,
    pub peer_feeds: nat,
}

impl RowView {
    /// The key that the row reports on.
    pub open spec fn key(self) -> Key {
        (self.prefix, self.origin)
    }
}

impl View for Row {
    type V = RowView;

    open spec fn view(&self) -> RowView {
        RowView {
            prefix: self.prefix@,
            origin: self.origin,
            peer_asns: self.peer_asns as nat,
            peer_feeds: self.peer_feeds as nat,
        }
    }
}

/// The views of a list of rows, in order.
pub open spec fn row_views(rows: Seq<Row>) -> Seq<RowView> {
    rows.map_values(|r: Row| r@)
}

/// Whether `rows` is the listing of `summary`: one row for each key and no others, each with
/// the cardinalities of the key's two sets, in strictly ascending order of key.
pub open spec fn lists(rows: Seq<RowView>, summary: Summary) -> bool {
    &&& forall|i: int, j: int|
        0 <= i < j < rows.len() ==> key_lt((#[trigger] rows[i]).key(), (#[trigger] rows[j]).key())
    &&& forall|i: int|
        0 <= i < rows.len() ==> {
            let row = #[trigger] rows[i];
            &&& summary.dom().contains(row.key())
            &&& row.peer_asns == summary[row.key()].peer_asns.len()
            &&& row.peer_feeds == summary[row.key()].peer_feeds.len()
        }
    &&& forall|k: Key| #[trigger]
        summary.dom().contains(k) ==> exists|i: int|
            0 <= i < rows.len() && (#[trigger] rows[i]).key() == k
}

/// The listing of `summary`. A summary has at most one listing, so this names it whenever
/// there is one.
pub open spec fn rows_of(summary: Summary) -> Seq<RowView> {
    choose|rows: Seq<RowView>| lists(rows, summary)
}

/// A summary has at most one listing.
pub proof fn lemma_listing_unique(a: Seq<RowView>, b: Seq<RowView>, summary: Summary)
    requires
        lists(a, summary),
        lists(b, summary),
    ensures
        a == b,
    decreases a.len(),
{
    if a.len() == 0 {
        if b.len() > 0 {
            let k = b[0].key();
            assert(summary.dom().contains(k));
            let i = choose|i: int| 0 <= i < a.len() && (#[trigger] a[i]).key() == k;
        }
        assert(a =~= b);
    } else {
        let ka = a[0].key();
        assert(summary.dom().contains(ka));
        let j = choose|j: int| 0 <= j < b.len() && (#[trigger] b[j]).key() == ka;
        let kb = b[0].key();
        assert(summary.dom().contains(kb));
        let i = choose|i: int| 0 <= i < a.len() && (#[trigger] a[i]).key() == kb;
        // Each first key is the least key of the summary, so the two are the same key.
        if ka != kb {
            lemma_key_lt_total(ka, kb);
            if key_lt(ka, kb) {
                assert(j > 0);
                assert(key_lt(b[0].key(), b[j].key()));
                lemma_key_lt_asymmetric(ka, kb);
            } else {
                assert(i > 0);
                assert(key_lt(a[0].key(), a[i].key()));
                lemma_key_lt_asymmetric(kb, ka);
            }
        }
        assert(a[0] == b[0]);
        let rest = summary.remove(ka);
        lemma_listing_rest(a, summary);
        lemma_listing_rest(b, summary);
        lemma_listing_unique(a.drop_first(), b.drop_first(), rest);
        assert(a =~= seq![a[0]] + a.drop_first());
        assert(b =~= seq![b[0]] + b.drop_first());
    }
}

/// Without its first row, a listing lists the summary without the first row's key.
proof fn lemma_listing_rest(rows: Seq<RowView>, summary: Summary)
    requires
        lists(rows, summary),
        rows.len() > 0,
    ensures
        lists(rows.drop_first(), summary.remove(rows[0].key())),
{
    let first = rows[0].key();
    let tail = rows.drop_first();
    let rest = summary.remove(first);
    assert forall|i: int| 0 <= i < tail.len() implies #[trigger] tail[i] == rows[i + 1] by {}
    assert forall|i: int, j: int| 0 <= i < j < tail.len() implies key_lt(
        (#[trigger] tail[i]).key(),
        (#[trigger] tail[j]).key(),
    ) by {
        assert(key_lt(rows[i + 1].key(), rows[j + 1].key()));
    }
    assert forall|i: int| 0 <= i < tail.len() implies {
        let row = #[trigger] tail[i];
        &&& rest.dom().contains(row.key())
        &&& row.peer_asns == rest[row.key()].peer_asns.len()
        &&& row.peer_feeds == rest[row.key()].peer_feeds.len()
    } by {
        assert(key_lt(rows[0].key(), rows[i + 1].key()));
        lemma_key_lt_asymmetric(rows[0].key(), rows[i + 1].key());
        assert(summary.dom().contains(rows[i + 1].key()));
    }
    assert forall|k: Key| #[trigger] rest.dom().contains(k) implies exists|i: int|
        0 <= i < tail.len() && (#[trigger] tail[i]).key() == k by {
        assert(summary.dom().contains(k));
        let i = choose|i: int| 0 <= i < rows.len() && (#[trigger] rows[i]).key() == k;
        assert(i > 0);
        assert(tail[i - 1].key() == k);
    }
}

/// Whether `keys` is in strictly ascending order.
pub open spec fn ascending(keys: Seq<Key>) -> bool {
    forall|i: int, j: int| 0 <= i < j < keys.len() ==> key_lt(keys[i], keys[j])
}

/// The row that reports on `key` in `summary`.
pub open spec fn row_of(summary: Summary, key: Key) -> RowView {
    RowView {
        prefix: key.0,
        origin: key.1,
        peer_asns: summary[key].peer_asns.len(),
        peer_feeds: summary[key].peer_feeds.len(),
    }
}

/// A key that is not in an ascending list has a place in it.
proof fn lemma_place_in_ascending(keys: Seq<Key>, k: Key) -> (at: int)
    requires
        ascending(keys),
        !keys.contains(k),
    ensures
        0 <= at <= keys.len(),
        ascending(keys.insert(at, k)),
    decreases keys.len(),
{
    if keys.len() == 0 {
        0
    } else {
        let last = keys.last();
        let front = keys.drop_last();
        assert(keys[keys.len() - 1] == last);
        assert(keys.contains(last));
        lemma_key_lt_total(last, k);
        if key_lt(last, k) {
            let at = keys.len() as int;
            let placed = keys.insert(at, k);
            assert forall|i: int, j: int| 0 <= i < j < placed.len() implies key_lt(
                placed[i],
                placed[j],
            ) by {
                if j < at {
                    assert(key_lt(keys[i], keys[j]));
                } else if i < at - 1 {
                    assert(key_lt(keys[i], last));
                    lemma_key_lt_transitive(keys[i], last, k);
                }
            }
            at
        } else {
            assert forall|i: int, j: int| 0 <= i < j < front.len() implies key_lt(
                front[i],
                front[j],
            ) by {
                assert(key_lt(keys[i], keys[j]));
            }
            if front.contains(k) {
                let i = choose|i: int| 0 <= i < front.len() && front[i] == k;
                assert(keys[i] == k);
            }
            let at = lemma_place_in_ascending(front, k);
            let inner = front.insert(at, k);
            let placed = keys.insert(at, k);
            assert(placed =~= inner.push(last));
            assert forall|i: int, j: int| 0 <= i < j < placed.len() implies key_lt(
                placed[i],
                placed[j],
            ) by {
                if j < inner.len() {
                    assert(key_lt(inner[i], inner[j]));
                } else if i < at {
                    assert(key_lt(keys[i], last));
                } else if i > at {
                    assert(key_lt(keys[i - 1], last));
                }
            }
            at
        }
    }
}

/// The members of a finite set of keys can be put in ascending order.
proof fn lemma_ascending_order_exists(keys: Set<Key>) -> (order: Seq<Key>)
    requires
        keys.finite(),
    ensures
        ascending(order),
        forall|k: Key| order.contains(k) <==> keys.contains(k),
    decreases keys.len(),
{
    if keys.len() == 0 {
        assert forall|k: Key| !keys.contains(k) by {
            if keys.contains(k) {
                assert(keys.remove(k).len() + 1 == keys.len());
            }
        }
        Seq::empty()
    } else {
        let k = keys.choose();
        let rest = lemma_ascending_order_exists(keys.remove(k));
        let at = lemma_place_in_ascending(rest, k);
        let order = rest.insert(at, k);
        assert forall|x: Key| order.contains(x) <==> keys.contains(x) by {
            if order.contains(x) {
                let i = choose|i: int| 0 <= i < order.len() && order[i] == x;
                if i < at {
                    assert(rest[i] == x);
                    assert(rest.contains(x));
                } else if i > at {
                    assert(rest[i - 1] == x);
                    assert(rest.contains(x));
                }
            }
            if keys.contains(x) {
                if x == k {
                    assert(order[at] == x);
                } else {
                    assert(rest.contains(x));
                    let i = choose|i: int| 0 <= i < rest.len() && rest[i] == x;
                    if i < at {
                        assert(order[i] == x);
                    } else {
                        assert(order[i + 1] == x);
                    }
                }
            }
        }
        order
    }
}

/// Every summary with finitely many keys has a listing, which `rows_of` names.
pub proof fn lemma_listing_exists(summary: Summary)
    requires
        summary.dom().finite(),
    ensures
        lists(rows_of(summary), summary),
{
    let order = lemma_ascending_order_exists(summary.dom());
    let rows = Seq::new(order.len(), |i: int| row_of(summary, order[i]));
    assert forall|i: int, j: int| 0 <= i < j < rows.len() implies key_lt(
        (#[trigger] rows[i]).key(),
        (#[trigger] rows[j]).key(),
    ) by {
        assert(key_lt(order[i], order[j]));
    }
    assert forall|i: int| 0 <= i < rows.len() implies {
        let row = #[trigger] rows[i];
        &&& summary.dom().contains(row.key())
        &&& row.peer_asns == summary[row.key()].peer_asns.len()
        &&& row.peer_feeds == summary[row.key()].peer_feeds.len()
    } by {
        assert(order.contains(order[i]));
    }
    assert forall|k: Key| #[trigger] summary.dom().contains(k) implies exists|i: int|
        0 <= i < rows.len() && (#[trigger] rows[i]).key() == k by {
        assert(order.contains(k));
        let i = choose|i: int| 0 <= i < order.len() && order[i] == k;
        assert(rows[i].key() == k);
    }
    assert(lists(rows, summary));
}

/// The character that stands for the digit `d`.
pub open spec fn digit(d: nat) -> char {
    if d == 0 {
        '0'
    } else if d == 1 {
        '1'
    } else if d == 2 {
        '2'
    } else if d == 3 {
        '3'
    } else if d == 4 {
        '4'
    } else if d == 5 {
        '5'
    } else if d == 6 {
        '6'
    } else if d == 7 {
        '7'
    } else if d == 8 {
        '8'
    } else {
        '9'
    }
}

/// The decimal numeral of `n`, without sign or leading zeros.
pub open spec fn decimal(n: nat) -> Seq<char>
    decreases n,
{
    if n < 10 {
        seq![digit(n)]
    } else {
        decimal(n / 10).push(digit(n % 10))
    }
}

/// The first line of every report.
pub open spec fn header() -> Seq<char> {
    "#pfx,origin,peer_asns,peer_feeds\n"@
}

/// The line of one row: prefix, origin and the two counts, separated by commas and ended by
/// a newline. Nothing is escaped.
pub open spec fn line(row: RowView) -> Seq<char> {
    row.prefix + seq![','] + decimal(row.origin as nat) + seq![','] + decimal(row.peer_asns)
        + seq![','] + decimal(row.peer_feeds) + seq!['\n']
}

/// The report of `rows`: the header, then the line of each row in order.
pub open spec fn render_text(rows: Seq<RowView>) -> Seq<char>
    decreases rows.len(),
{
    if rows.len() == 0 {
        header()
    } else {
        render_text(rows.drop_last()) + line(rows.last())
    }
}

/// The text of one decimal digit.
fn digit_text(d: u64) -> (text: &'static str)
    requires
        d < 10,
    ensures
        text@ == seq![digit(d as nat)],
{
    proof {
        reveal_strlit("0");
        reveal_strlit("1");
        reveal_strlit("2");
        reveal_strlit("3");
        reveal_strlit("4");
        reveal_strlit("5");
        reveal_strlit("6");
        reveal_strlit("7");
        reveal_strlit("8");
        reveal_strlit("9");
    }
    let text = if d == 0 {
        "0"
    } else if d == 1 {
        "1"
    } else if d == 2 {
        "2"
    } else if d == 3 {
        "3"
    } else if d == 4 {
        "4"
    } else if d == 5 {
        "5"
    } else if d == 6 {
        "6"
    } else if d == 7 {
        "7"
    } else if d == 8 {
        "8"
    } else {
        "9"
    };
    assert(text@ =~= seq![digit(d as nat)]);
    text
}

/// Appends the decimal numeral of `n` to `out`.
pub fn push_decimal(out: &mut String, n: u64)
    ensures
        final(out)@ == old(out)@ + decimal(n as nat),
    decreases n,
{
    if n >= 10 {
        push_decimal(out, n / 10);
    }
    out.append(digit_text(n % 10));
    assert(out@ =~= old(out)@ + decimal(n as nat));
}

/// Appends a comma to `out`.
fn push_comma(out: &mut String)
    ensures
        final(out)@ == old(out)@ + seq![','],
{
    proof {
        reveal_strlit(",");
    }
    out.append(",");
    assert(out@ =~= old(out)@ + seq![',']);
}

/// Appends the line of `row` to `out`.
pub fn push_line(out: &mut String, row: &Row)
    ensures
        final(out)@ == old(out)@ + line(row@),
{
    out.append(row.prefix.as_str());
    push_comma(out);
    push_decimal(out, row.origin as u64);
    push_comma(out);
    push_decimal(out, row.peer_asns as u64);
    push_comma(out);
    push_decimal(out, row.peer_feeds as u64);
    proof {
        reveal_strlit("\n");
    }
    out.append("\n");
    assert(out@ =~= old(out)@ + line(row@));
}

/// The header line.
pub fn header_line() -> (text: String)
    ensures
        text@ == header(),
{
    String::from_str("#pfx,origin,peer_asns,peer_feeds\n")
}

/// The line of one row.
pub fn row_line(row: &Row) -> (text: String)
    ensures
        text@ == line(row@),
{
    let mut text = String::new();
    push_line(&mut text, row);
    assert(text@ =~= line(row@));
    text
}

/// Writes the report of `rows`: the header, then one line per row, in the order given.
pub fn render(rows: &Vec<Row>) -> (text: String)
    ensures
        text@ == render_text(row_views(rows@)),
{
    let ghost all = row_views(rows@);
    let mut text = header_line();
    let mut i: usize = 0;
    assert(all.take(0) =~= Seq::<RowView>::empty());
    while i < rows.len()
        invariant
            i <= rows.len(),
            all == row_views(rows@),
            text@ == render_text(all.take(i as int)),
        decreases rows.len() - i,
    {
        push_line(&mut text, &rows[i]);
        proof {
            let next = all.take(i + 1);
            assert(next.drop_last() =~= all.take(i as int));
            assert(next.last() == rows@[i as int]@);
        }
        i += 1;
    }
    assert(all.take(rows.len() as int) =~= all);
    text
}

} // verus!
