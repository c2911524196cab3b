use vstd::prelude::*;

use crate::codec::{
    lemma_rule_vector_at,
    lemma_rule_vector_round_trip,
    lemma_string_at,
    lemma_u64_at,
    rule_vector_at,
    rule_vector_bytes,
    string_at,
    string_bytes,
    u64_at,
    u64_le,
};
use crate::rule_vector::RuleVectorView;
use crate::text::utf8_of;

verus! {

/// Length of the header record: 199 padded bytes and a line feed.
pub const HEADER_LEN: usize = 200;

/// `{"magic":"GUAR","version":1,"index_offset":` in ASCII.
pub open spec fn header_prefix() -> Seq<u8> {
    seq![
        123u8, 34, 109, 97, 103, 105, 99, 34, 58, 34, 71, 85, 65, 82, 34, 44, 34, 118, 101, 114,
        115, 105, 111, 110, 34, 58, 49, 44, 34, 105, 110, 100, 101, 120, 95, 111, 102, 102, 115,
        101, 116, 34, 58,
    ]
}

/// The decimal digits of `n`, most significant first, with no leading zero.
pub open spec fn decimal(n: nat) -> Seq<u8>
    decreases n,
{
    if n < 10 {
        seq![(48 + n) as u8]
    } else {
        decimal(n / 10).push((48 + n % 10) as u8)
    }
}

pub open spec fn is_digit(c: u8) -> bool {
    48 <= c <= 57
}

/// The value of a run of decimal digits.
pub open spec fn digits_value(s: Seq<u8>) -> nat
    decreases s.len(),
{
    if s.len() == 0 {
        0
    } else {
        digits_value(s.drop_last()) * 10 + (s.last() - 48) as nat
    }
}

/// The header's text before padding: the prefix, the offset and `}`.
pub open spec fn header_text(offset: u64) -> Seq<u8> {
    header_prefix() + decimal(offset as nat) + seq![125u8]
}

/// `n` ASCII spaces.
pub open spec fn spaces(n: nat) -> Seq<u8> {
    Seq::new(n, |i: int| 32u8)
}

/// The header record that points at an index at `offset`.
pub open spec fn header_bytes(offset: u64) -> Seq<u8> {
    header_text(offset) + spaces((199 - header_text(offset).len()) as nat) + seq![10u8]
}

/// Position of the first line feed at or after `i`.
pub open spec fn first_lf(b: Seq<u8>, i: int) -> Option<int>
    decreases b.len() - i,
{
    if i < 0 || i >= b.len() {
        None
    } else if b[i] == 10 {
        Some(i)
    } else {
        first_lf(b, i + 1)
    }
}

/// `s` without its trailing spaces.
pub open spec fn trim_end(s: Seq<u8>) -> Seq<u8>
    decreases s.len(),
{
    if s.len() > 0 && s.last() == 32 {
        trim_end(s.drop_last())
    } else {
        s
    }
}

/// The index offset that a trimmed header line states, if it has the
/// expected form and the value fits a `u64`.
pub open spec fn header_line_offset(line: Seq<u8>) -> Option<u64> {
    if line.len() >= 45 && line.take(43) == header_prefix() && line.last() == 125 {
        let d = line.subrange(43, line.len() - 1);
        if (forall|i: int| 0 <= i < d.len() ==> is_digit(#[trigger] d[i])) && digits_value(d)
            <= u64::MAX {
            Some(digits_value(d) as u64)
        } else {
            None
        }
    } else {
        None
    }
}

/// The index offset of a warm file, read from its first line.
pub open spec fn index_offset_of(b: Seq<u8>) -> Option<u64> {
    match first_lf(b, 0) {
        Some(p) => header_line_offset(trim_end(b.take(p))),
        None => None,
    }
}

/// One entry: the rule id, then its anchor block.
pub open spec fn entry_bytes(e: (Seq<char>, RuleVectorView)) -> Seq<u8> {
    string_bytes(e.0) + rule_vector_bytes(e.1)
}

/// All entries, one after the other.
pub open spec fn entries_bytes(es: Seq<(Seq<char>, RuleVectorView)>) -> Seq<u8>
    decreases es.len(),
{
    if es.len() == 0 {
        Seq::empty()
    } else {
        entries_bytes(es.drop_last()) + entry_bytes(es.last())
    }
}

/// Where entry `i` starts in the file.
pub open spec fn entry_offset(es: Seq<(Seq<char>, RuleVectorView)>, i: int) -> int {
    HEADER_LEN + entries_bytes(es.take(i)).len()
}

/// The index pairs of the first `k` entries: each id and its entry's offset.
pub open spec fn index_pairs_bytes(es: Seq<(Seq<char>, RuleVectorView)>, k: nat) -> Seq<u8>
    decreases k,
{
    if k == 0 {
        Seq::empty()
    } else {
        index_pairs_bytes(es, (k - 1) as nat) + string_bytes(es[k - 1].0) + u64_le(
            entry_offset(es, k - 1) as u64,
        )
    }
}

/// The index: the number of entries, then a pair per entry.
pub open spec fn index_bytes(es: Seq<(Seq<char>, RuleVectorView)>) -> Seq<u8> {
    u64_le(es.len() as u64) + index_pairs_bytes(es, es.len())
}

/// The complete warm file holding `es`.
pub open spec fn warm_image(es: Seq<(Seq<char>, RuleVectorView)>) -> Seq<u8> {
    header_bytes((HEADER_LEN + entries_bytes(es).len()) as u64) + entries_bytes(es) + index_bytes(
        es,
    )
}

/// The first `k` index pairs read from `pos`, and where they end.
pub open spec fn index_pairs_at(b: Seq<u8>, pos: int, k: nat) -> Option<
    (Seq<(Seq<char>, u64)>, int),
>
    decreases k,
{
    if k == 0 {
        Some((Seq::empty(), pos))
    } else {
        match index_pairs_at(b, pos, (k - 1) as nat) {
            Some((ps, q)) => match string_at(b, q) {
                Some((s, r)) => match u64_at(b, r) {
                    Some(o) => Some((ps.push((s, o)), r + 8)),
                    None => None,
                },
                None => None,
            },
            None => None,
        }
    }
}

/// The index of a warm file: each rule id and the offset of its entry.
pub open spec fn image_index(b: Seq<u8>) -> Option<Seq<(Seq<char>, u64)>> {
    match index_offset_of(b) {
        Some(o) => match u64_at(b, o as int) {
            Some(n) => match index_pairs_at(b, o + 8, n as nat) {
                Some((ps, _)) => Some(ps),
                None => None,
            },
            None => None,
        },
        None => None,
    }
}

/// The entry at `pos`: its stored id and anchor block.
pub open spec fn entry_at(b: Seq<u8>, pos: int) -> Option<(Seq<char>, RuleVectorView)> {
    match string_at(b, pos) {
        Some((s, q)) => match rule_vector_at(b, q) {
            Some(v) => Some((s, v)),
            None => None,
        },
        None => None,
    }
}

/// Whether the index pair `p` leads to a whole entry stored under its id.
pub open spec fn entry_matches(b: Seq<u8>, p: (Seq<char>, u64)) -> bool {
    entry_at(b, p.1 as int) matches Some((s, _)) && s == p.0
}

/// The anchor block of the entry at `pos`.
pub open spec fn entry_vector(b: Seq<u8>, pos: int) -> RuleVectorView {
    match entry_at(b, pos) {
        Some((_, v)) => v,
        None => arbitrary(),
    }
}

/// Each indexed id with the anchor block of its entry.
pub open spec fn contents_from_index(b: Seq<u8>, idx: Seq<(Seq<char>, u64)>) -> Seq<
    (Seq<char>, RuleVectorView),
> {
    idx.map_values(|p: (Seq<char>, u64)| (p.0, entry_vector(b, p.1 as int)))
}

/// What a warm file holds, in index order, if its header, index and every
/// indexed entry can be read.
pub open spec fn image_contents(b: Seq<u8>) -> Option<Seq<(Seq<char>, RuleVectorView)>> {
    match image_index(b) {
        Some(idx) => if forall|i: int| 0 <= i < idx.len() ==> entry_matches(b, #[trigger] idx[i]) {
            Some(contents_from_index(b, idx))
        } else {
            None
        },
        None => None,
    }
}

/// The index pairs that `warm_image(es)` holds.
pub open spec fn index_of_entries(es: Seq<(Seq<char>, RuleVectorView)>) -> Seq<(Seq<char>, u64)> {
    Seq::new(es.len(), |i: int| (es[i].0, entry_offset(es, i) as u64))
}

/// Every anchor block has the fixed shape and every id fits a length field.
pub open spec fn entries_encodable(es: Seq<(Seq<char>, RuleVectorView)>) -> bool {
    forall|i: int|
        0 <= i < es.len() ==> (#[trigger] es[i]).1.well_formed() && utf8_of(es[i].0).len()
            <= u64::MAX
}

pub proof fn lemma_decimal(n: nat)
    ensures
        decimal(n).len() >= 1,
        forall|i: int| 0 <= i < decimal(n).len() ==> is_digit(#[trigger] decimal(n)[i]),
        digits_value(decimal(n)) == n,
    decreases n,
{
    if n >= 10 {
        lemma_decimal(n / 10);
        let d = (48 + n % 10) as u8;
        assert(d == 48 + n % 10);
        assert(decimal(n) == decimal(n / 10).push(d));
        assert(decimal(n).drop_last() =~= decimal(n / 10));
        assert(decimal(n).last() == d);
        assert(digits_value(decimal(n)) == digits_value(decimal(n).drop_last()) * 10 + (
        decimal(n).last() - 48) as nat);
        assert((n / 10) * 10 + n % 10 == n);
        assert forall|i: int| 0 <= i < decimal(n).len() implies is_digit(
            #[trigger] decimal(n)[i],
        ) by {
            if i < decimal(n).len() - 1 {
                assert(decimal(n)[i] == decimal(n / 10)[i]);
            }
        }
    } else {
        assert(decimal(n).drop_last() =~= Seq::<u8>::empty());
        assert(digits_value(decimal(n)) == digits_value(decimal(n).drop_last()) * 10 + (
        decimal(n).last() - 48) as nat);
    }
}

pub proof fn lemma_decimal_len(n: nat, k: nat, bound: nat)
    requires
        k >= 1,
        n < bound,
        bound == pow10(k),
    ensures
        decimal(n).len() <= k,
    decreases k,
{
    if n >= 10 {
        assert(k >= 2) by {
            if k == 1 {
                assert(pow10(1) == 10 * pow10(0));
            }
        }
        assert(pow10(k) == 10 * pow10((k - 1) as nat));
        lemma_decimal_len(n / 10, (k - 1) as nat, pow10((k - 1) as nat));
    }
}

pub open spec fn pow10(k: nat) -> nat
    decreases k,
{
    if k == 0 {
        1
    } else {
        10 * pow10((k - 1) as nat)
    }
}

pub proof fn lemma_header_text_len(offset: u64)
    ensures
        45 <= header_text(offset).len() <= 64,
{
    reveal_with_fuel(pow10, 21);
    assert(pow10(20) == 100000000000000000000nat);
    lemma_decimal_len(offset as nat, 20, pow10(20));
    lemma_decimal(offset as nat);
}

proof fn lemma_first_lf(b: Seq<u8>, i: int, p: int)
    requires
        0 <= i <= p < b.len(),
        b[p] == 10,
        forall|j: int| i <= j < p ==> b[j] != 10,
    ensures
        first_lf(b, i) == Some(p),
    decreases p - i,
{
    if i < p {
        lemma_first_lf(b, i + 1, p);
    }
}

proof fn lemma_trim_spaces(t: Seq<u8>, n: nat)
    requires
        t.len() > 0,
        t.last() != 32,
    ensures
        trim_end(t + spaces(n)) == t,
    decreases n,
{
    if n == 0 {
        assert(t + spaces(0) =~= t);
    } else {
        assert((t + spaces(n)).drop_last() =~= t + spaces((n - 1) as nat));
        lemma_trim_spaces(t, (n - 1) as nat);
    }
}

/// The header record is 200 bytes and reading it back gives its offset.
pub proof fn lemma_header_round_trip(offset: u64, rest: Seq<u8>)
    ensures
        header_bytes(offset).len() == HEADER_LEN,
        index_offset_of(header_bytes(offset) + rest) == Some(offset),
{
    let t = header_text(offset);
    let h = header_bytes(offset);
    let b = h + rest;
    lemma_header_text_len(offset);
    lemma_decimal(offset as nat);
    let d = decimal(offset as nat);
    assert forall|j: int| 0 <= j < 199 implies b[j] != 10 by {
        if j < 43 {
            assert(b[j] == header_prefix()[j]);
        } else if j < 43 + d.len() {
            assert(b[j] == d[j - 43]);
        } else if j == 43 + d.len() {
            assert(b[j] == 125);
        } else {
            assert(b[j] == 32);
        }
    }
    lemma_first_lf(b, 0, 199);
    assert(b.take(199) =~= t + spaces((199 - t.len()) as nat));
    lemma_trim_spaces(t, (199 - t.len()) as nat);
    assert(t.take(43) =~= header_prefix());
    assert(t.subrange(43, t.len() - 1) =~= d);
}

pub proof fn lemma_entries_prefix(es: Seq<(Seq<char>, RuleVectorView)>, i: int)
    requires
        0 <= i <= es.len(),
    ensures
        entries_bytes(es).len() >= entries_bytes(es.take(i)).len(),
        entries_bytes(es).take(entries_bytes(es.take(i)).len() as int) == entries_bytes(es.take(i)),
    decreases es.len() - i,
{
    if i < es.len() {
        lemma_entries_prefix(es, i + 1);
        assert(es.take(i + 1).drop_last() =~= es.take(i));
        let a = entries_bytes(es.take(i));
        let c = entries_bytes(es.take(i + 1));
        assert(c == a + entry_bytes(es.take(i + 1).last()));
        assert(entries_bytes(es).take(a.len() as int) =~= c.take(a.len() as int));
        assert(c.take(a.len() as int) =~= a);
    } else {
        assert(es.take(i) =~= es);
    }
}

/// A window of a window is a window.
proof fn lemma_window(b: Seq<u8>, i: int, x: Seq<u8>, k: int, l: int)
    requires
        0 <= i,
        i + x.len() <= b.len(),
        b.subrange(i, i + x.len()) == x,
        0 <= k <= l <= x.len(),
    ensures
        b.subrange(i + k, i + l) == x.subrange(k, l),
{
    assert(b.subrange(i + k, i + l) =~= x.subrange(k, l)) by {
        assert forall|t: int| 0 <= t < l - k implies b.subrange(i + k, i + l)[t] == x.subrange(
            k,
            l,
        )[t] by {
            assert(b.subrange(i, i + x.len())[k + t] == b[i + k + t]);
        }
    }
}

/// The middle part of a concatenation.
proof fn lemma_middle(a: Seq<u8>, m: Seq<u8>, c: Seq<u8>)
    ensures
        (a + m + c).subrange(a.len() as int, (a.len() + m.len()) as int) == m,
        (a + m + c).take(a.len() as int) == a,
{
    assert((a + m + c).subrange(a.len() as int, (a.len() + m.len()) as int) =~= m);
    assert((a + m + c).take(a.len() as int) =~= a);
}

proof fn lemma_entry_in_image(es: Seq<(Seq<char>, RuleVectorView)>, i: int, b: Seq<u8>)
    requires
        entries_encodable(es),
        0 <= i < es.len(),
        HEADER_LEN + entries_bytes(es).len() <= u64::MAX,
        b.len() >= HEADER_LEN + entries_bytes(es).len(),
        b.subrange(HEADER_LEN as int, HEADER_LEN + entries_bytes(es).len()) == entries_bytes(es),
    ensures
        entry_at(b, entry_offset(es, i)) == Some(es[i]),
        entry_matches(b, (es[i].0, entry_offset(es, i) as u64)),
        entry_vector(b, entry_offset(es, i)) == es[i].1,
{
    let eb = entries_bytes(es);
    lemma_entries_prefix(es, i + 1);
    assert(es.take(i + 1).drop_last() =~= es.take(i));
    assert(es.take(i + 1).last() == es[i]);
    let a = entries_bytes(es.take(i));
    let sb = string_bytes(es[i].0);
    let rb = rule_vector_bytes(es[i].1);
    let c = entries_bytes(es.take(i + 1));
    assert(c == a + (sb + rb));
    assert(c =~= a + sb + rb);
    lemma_rule_vector_round_trip(es[i].1);
    // c is the first |c| bytes of eb, which sits at HEADER_LEN in b.
    lemma_window(b, HEADER_LEN as int, eb, 0, c.len() as int);
    assert(eb.subrange(0, c.len() as int) == c);
    let off = HEADER_LEN + a.len();
    lemma_window(b, HEADER_LEN as int, c, a.len() as int, (a.len() + sb.len()) as int);
    lemma_middle(a, sb, rb);
    lemma_string_at(b, off, es[i].0);
    lemma_window(b, HEADER_LEN as int, c, (a.len() + sb.len()) as int, c.len() as int);
    assert(c.subrange((a.len() + sb.len()) as int, c.len() as int) =~= rb);
    lemma_rule_vector_at(b, off + sb.len(), es[i].1);
}

proof fn lemma_index_pairs_len(es: Seq<(Seq<char>, RuleVectorView)>, k: nat, n: nat)
    requires
        k <= n,
    ensures
        index_pairs_bytes(es, n).take(index_pairs_bytes(es, k).len() as int) == index_pairs_bytes(
            es,
            k,
        ),
        index_pairs_bytes(es, k).len() <= index_pairs_bytes(es, n).len(),
    decreases n - k,
{
    if k < n {
        lemma_index_pairs_len(es, k, (n - 1) as nat);
        let p = index_pairs_bytes(es, (n - 1) as nat);
        let q = index_pairs_bytes(es, k);
        assert(index_pairs_bytes(es, n).take(q.len() as int) =~= p.take(q.len() as int));
    }
}

proof fn lemma_index_pairs_at(es: Seq<(Seq<char>, RuleVectorView)>, b: Seq<u8>, pos: int, k: nat)
    requires
        entries_encodable(es),
        k <= es.len(),
        0 <= pos,
        pos + index_pairs_bytes(es, es.len()).len() <= b.len(),
        b.subrange(pos, pos + index_pairs_bytes(es, es.len()).len()) == index_pairs_bytes(
            es,
            es.len(),
        ),
    ensures
        index_pairs_at(b, pos, k) == Some(
            (index_of_entries(es).take(k as int), pos + index_pairs_bytes(es, k).len()),
        ),
    decreases k,
{
    if k == 0 {
        assert(index_of_entries(es).take(0) =~= Seq::<(Seq<char>, u64)>::empty());
    } else {
        let j = (k - 1) as nat;
        lemma_index_pairs_at(es, b, pos, j);
        lemma_index_pairs_len(es, k, es.len());
        let all = index_pairs_bytes(es, es.len());
        let pk = index_pairs_bytes(es, k);
        let pj = index_pairs_bytes(es, j);
        let sb = string_bytes(es[j as int].0);
        let ob = u64_le(entry_offset(es, j as int) as u64);
        assert(pk == pj + sb + ob);
        lemma_window(b, pos, all, 0, pk.len() as int);
        assert(all.subrange(0, pk.len() as int) == pk);
        lemma_middle(pj, sb, ob);
        lemma_window(b, pos, pk, pj.len() as int, (pj.len() + sb.len()) as int);
        let q = pos + pj.len();
        lemma_string_at(b, q, es[j as int].0);
        let r = q + sb.len();
        lemma_window(b, pos, pk, (pj.len() + sb.len()) as int, pk.len() as int);
        assert(pk.subrange((pj.len() + sb.len()) as int, pk.len() as int) =~= ob);
        lemma_u64_at(b, r, entry_offset(es, j as int) as u64);
        assert(index_of_entries(es).take(j as int).push(
            (es[j as int].0, entry_offset(es, j as int) as u64),
        ) =~= index_of_entries(es).take(k as int));
    }
}

/// Reading back the warm file written for `es` gives `es`: every id with its
/// anchor block, in the same order.
#[verifier::rlimit(60)]
pub proof fn lemma_warm_round_trip(es: Seq<(Seq<char>, RuleVectorView)>)
    requires
        entries_encodable(es),
        es.len() <= u64::MAX,
        warm_image(es).len() <= u64::MAX,
    ensures
        image_index(warm_image(es)) == Some(index_of_entries(es)),
        image_contents(warm_image(es)) == Some(es),
{
    let eb = entries_bytes(es);
    let o = (HEADER_LEN + eb.len()) as u64;
    let h = header_bytes(o);
    let ib = index_bytes(es);
    let b = warm_image(es);
    lemma_header_round_trip(o, eb + ib);
    assert(b =~= h + (eb + ib));
    assert(b == h + eb + ib);
    lemma_middle(h, eb, ib);
    assert(b.subrange((h.len() + eb.len()) as int, b.len() as int) =~= ib);
    lemma_window(b, o as int, ib, 0, 8);
    assert(ib.subrange(0, 8) =~= u64_le(es.len() as u64));
    lemma_u64_at(b, o as int, es.len() as u64);
    let pairs = index_pairs_bytes(es, es.len());
    lemma_window(b, o as int, ib, 8, ib.len() as int);
    assert(ib.subrange(8, ib.len() as int) =~= pairs);
    lemma_index_pairs_at(es, b, o + 8, es.len());
    assert(index_of_entries(es).take(es.len() as int) =~= index_of_entries(es));
    assert(index_offset_of(b) == Some(o));
    assert(u64_at(b, o as int) == Some(es.len() as u64));
    assert(index_pairs_at(b, o + 8, es.len()) matches Some((ps, _)) && ps == index_of_entries(es));
    assert(image_index(b) == Some(index_of_entries(es)));
    lemma_entries_of_image(es, b);
}

proof fn lemma_entries_of_image(es: Seq<(Seq<char>, RuleVectorView)>, b: Seq<u8>)
    requires
        entries_encodable(es),
        HEADER_LEN + entries_bytes(es).len() <= u64::MAX,
        b.len() >= HEADER_LEN + entries_bytes(es).len(),
        b.subrange(HEADER_LEN as int, HEADER_LEN + entries_bytes(es).len()) == entries_bytes(es),
    ensures
        forall|i: int|
            0 <= i < index_of_entries(es).len() ==> entry_matches(
                b,
                #[trigger] index_of_entries(es)[i],
            ),
        contents_from_index(b, index_of_entries(es)) == es,
{
    let idx = index_of_entries(es);
    assert forall|i: int| 0 <= i < idx.len() implies entry_matches(b, #[trigger] idx[i]) by {
        lemma_entry_in_image(es, i, b);
        assert(idx[i] == (es[i].0, entry_offset(es, i) as u64));
    }
    assert forall|i: int| 0 <= i < es.len() implies #[trigger] contents_from_index(b, idx)[i]
        == es[i] by {
        lemma_entry_in_image(es, i, b);
        lemma_entries_prefix(es, i);
        assert(idx[i] == (es[i].0, entry_offset(es, i) as u64));
        assert((entry_offset(es, i) as u64) as int == entry_offset(es, i));
    }
    assert(contents_from_index(b, idx) =~= es);
}

} // verus!
