use vstd::prelude::*;

use crate::codec::{
    lemma_rule_vector_at_well_formed,
    push_rule_vector,
    push_string,
    push_u64_le,
    read_rule_vector,
    read_string,
    read_u64_le,
    rule_vector_at,
    string_at,
    u64_at,
    RULE_VECTOR_BYTES,
};
use crate::error::BridgeError;
use crate::rule_vector::{RuleVector, RuleVectorView};
use crate::text::{str_eq, utf8_of};
use crate::warm_file::{
    contents_from_index,
    decimal,
    entry_at,
    digits_value,
    entries_bytes,
    entries_encodable,
    entry_matches,
    entry_offset,
    first_lf,
    header_bytes,
    header_line_offset,
    header_prefix,
    header_text,
    image_contents,
    image_index,
    index_bytes,
    index_of_entries,
    index_offset_of,
    index_pairs_at,
    index_pairs_bytes,
    is_digit,
    lemma_entries_prefix,
    lemma_header_round_trip,
    lemma_header_text_len,
    lemma_warm_round_trip,
    spaces,
    trim_end,
    warm_image,
    HEADER_LEN,
};

verus! {

/// The content of a list of (rule id, anchor block) pairs.
pub open spec fn pairs_view(v: Seq<(String, RuleVector)>) -> Seq<(Seq<char>, RuleVectorView)> {
    v.map_values(|p: (String, RuleVector)| (p.0@, p.1@))
}

/// The content of a list of (rule id, offset) pairs.
pub open spec fn offsets_view(v: Seq<(String, u64)>) -> Seq<(Seq<char>, u64)> {
    v.map_values(|p: (String, u64)| (p.0@, p.1))
}

/// The anchor block stored under the first `id` among `es`.
pub open spec fn lookup(es: Seq<(Seq<char>, RuleVectorView)>, id: Seq<char>) -> Option<
    RuleVectorView,
>
    decreases es.len(),
{
    if es.len() == 0 {
        None
    } else if es[0].0 == id {
        Some(es[0].1)
    } else {
        lookup(es.drop_first(), id)
    }
}

/// Whether every anchor block in `es` has the fixed shape.
pub open spec fn all_well_formed(es: Seq<(Seq<char>, RuleVectorView)>) -> bool {
    forall|i: int| 0 <= i < es.len() ==> (#[trigger] es[i]).1.well_formed()
}

/// Why reading `b` as a warm file fails, if it does: `Config` for a bad
/// header, `Serialization` for a bad index or entry.
pub open spec fn image_refusal(b: Seq<u8>) -> Option<BridgeError> {
    if index_offset_of(b) is None {
        Some(BridgeError::Config)
    } else if image_contents(b) is None {
        Some(BridgeError::Serialization)
    } else {
        None
    }
}

/// A warm file held in memory: its bytes and its parsed index.
pub struct WarmStorage {
    image: Vec<u8>,
    index: Vec<(String, u64)>,
}

impl View for WarmStorage {
    type V = Seq<(Seq<char>, RuleVectorView)>;

    closed spec fn view(&self) -> Seq<(Seq<char>, RuleVectorView)> {
        match image_contents(self.image@) {
            Some(c) => c,
            None => Seq::empty(),
        }
    }
}

fn push_decimal(out: &mut Vec<u8>, n: u64)
    ensures
        final(out)@ == old(out)@ + decimal(n as nat),
    decreases n,
{
    if n >= 10 {
        push_decimal(out, n / 10);
    }
    out.push((48 + n % 10) as u8);
    assert(final(out)@ =~= old(out)@ + decimal(n as nat));
}

fn header_record(offset: u64) -> (r: Vec<u8>)
    ensures
        r@ == header_bytes(offset),
{
    let mut r: Vec<u8> = vec![
        123u8, 34, 109, 97, 103, 105, 99, 34, 58, 34, 71, 85, 65, 82, 34, 44, 34, 118, 101, 114,
        115, 105, 111, 110, 34, 58, 49, 44, 34, 105, 110, 100, 101, 120, 95, 111, 102, 102, 115,
        101, 116, 34, 58,
    ];
    assert(r@ =~= header_prefix());
    push_decimal(&mut r, offset);
    r.push(125u8);
    let ghost t = header_text(offset);
    assert(r@ =~= t);
    proof {
        lemma_header_text_len(offset);
    }
    while r.len() < 199
        invariant
            t.len() <= r@.len() <= 199,
            r@ == t + spaces((r@.len() - t.len()) as nat),
        decreases 199 - r@.len(),
    {
        r.push(32u8);
        assert(r@ =~= t + spaces((r@.len() - t.len()) as nat));
    }
    r.push(10u8);
    r
}

impl WarmStorage {
    /// The bytes parse as a warm file and the index is the one they hold.
    pub closed spec fn wf(&self) -> bool {
        &&& image_contents(self.image@) is Some
        &&& image_index(self.image@) == Some(offsets_view(self.index@))
    }

    /// The bytes of the file.
    pub closed spec fn spec_image(&self) -> Seq<u8> {
        self.image@
    }

    /// Builds the file for `entries`; fails with `Serialization` when an
    /// anchor block has the wrong shape or the file would not fit a `u64`
    /// offset, leaving the storage as it was.
    pub fn write_anchors(&mut self, anchors: Vec<(String, RuleVector)>) -> (r: Result<
        (),
        BridgeError,
    >)
        requires
            old(self).wf(),
        ensures
            final(self).wf(),
            r is Ok <==> all_well_formed(pairs_view(anchors@)) && warm_image(
                pairs_view(anchors@),
            ).len() <= u64::MAX,
            r is Ok ==> final(self)@ == pairs_view(anchors@) && final(self).spec_image()
                == warm_image(pairs_view(anchors@)),
            r matches Err(e) ==> e == BridgeError::Serialization && final(self)@ == old(self)@
                && final(self).spec_image() == old(self).spec_image(),
    {
        match build_image(&anchors) {
            Ok((image, index)) => {
                let ghost es = pairs_view(anchors@);
                proof {
                    lemma_warm_round_trip(es);
                    assert(offsets_view(index@) =~= index_of_entries(es));
                }
                self.image = image;
                self.index = index;
                Ok(())
            },
            Err(e) => Err(e),
        }
    }

    /// Reads a warm file's bytes; fails with `Config` on a bad header and
    /// with `Serialization` on a bad index or entry.
    pub fn from_image(image: Vec<u8>) -> (r: Result<WarmStorage, BridgeError>)
        ensures
            match image_refusal(image@) {
                Some(e) => r == Err::<WarmStorage, BridgeError>(e),
                None => r matches Ok(w) && w.wf() && w.spec_image() == image@ && Some(w@)
                    == image_contents(image@),
            },
    {
        let offset = match parse_header(&image) {
            Some(o) => o,
            None => return Err(BridgeError::Config),
        };
        let index = match parse_index(&image, offset) {
            Some(ix) => ix,
            None => return Err(BridgeError::Serialization),
        };
        if !entries_present(&image, &index) {
            return Err(BridgeError::Serialization);
        }
        Ok(WarmStorage { image, index })
    }

    /// Opens a warm file from its bytes, or, where there is no file yet,
    /// starts the empty one.
    pub fn open(contents: Option<Vec<u8>>) -> (r: Result<WarmStorage, BridgeError>)
        ensures
            match contents {
                None => r matches Ok(w) && w.wf() && w@ == Seq::<
                    (Seq<char>, RuleVectorView),
                >::empty() && w.spec_image() == warm_image(Seq::empty()),
                Some(b) => match image_refusal(b@) {
                    Some(e) => r == Err::<WarmStorage, BridgeError>(e),
                    None => r matches Ok(w) && w.wf() && w.spec_image() == b@ && Some(w@)
                        == image_contents(b@),
                },
            },
    {
        match contents {
            Some(b) => Self::from_image(b),
            None => {
                let empty: Vec<(String, RuleVector)> = Vec::new();
                let ghost es = pairs_view(empty@);
                assert(es =~= Seq::<(Seq<char>, RuleVectorView)>::empty());
                proof {
                    lemma_header_round_trip(200, Seq::empty());
                    assert(entries_bytes(es) =~= Seq::<u8>::empty());
                    assert(index_pairs_bytes(es, 0) =~= Seq::<u8>::empty());
                    assert(warm_image(es).len() == 208);
                }
                match build_image(&empty) {
                    Ok((image, index)) => {
                        proof {
                            lemma_warm_round_trip(es);
                            assert(offsets_view(index@) =~= index_of_entries(es));
                        }
                        Ok(WarmStorage { image, index })
                    },
                    Err(e) => Err(e),
                }
            },
        }
    }

    /// The file's bytes, to be written out.
    pub fn image(&self) -> (r: &Vec<u8>)
        ensures
            r@ == self.spec_image(),
    {
        &self.image
    }

    /// Number of entries in the index.
    pub fn len(&self) -> (r: usize)
        requires
            self.wf(),
        ensures
            r == self@.len(),
    {
        self.index.len()
    }

    /// The anchor block stored under `rule_id`, if any.
    pub fn get(&self, rule_id: &str) -> (r: Result<Option<RuleVector>, BridgeError>)
        requires
            self.wf(),
        ensures
            r matches Ok(o) && match lookup(self@, rule_id@) {
                Some(v) => o matches Some(w) && w@ == v,
                None => o is None,
            },
    {
        let ghost es = self@;
        let ghost idx = offsets_view(self.index@);
        let mut i: usize = 0;
        assert(es.skip(0) =~= es);
        while i < self.index.len()
            invariant
                self.wf(),
                es == self@,
                idx == offsets_view(self.index@),
                es == contents_from_index(self.image@, idx),
                i <= idx.len(),
                lookup(es, rule_id@) == lookup(es.skip(i as int), rule_id@),
            decreases idx.len() - i,
        {
            let ghost rest = es.skip(i as int);
            assert(rest[0] == es[i as int]);
            assert(rest.drop_first() =~= es.skip(i + 1));
            if str_eq(self.index[i].0.as_str(), rule_id) {
                let v = self.read_entry(i);
                return Ok(Some(v));
            }
            i = i + 1;
        }
        assert(es.skip(i as int) =~= Seq::<(Seq<char>, RuleVectorView)>::empty());
        Ok(None)
    }

    /// The anchor block of index entry `i`.
    fn read_entry(&self, i: usize) -> (r: RuleVector)
        requires
            self.wf(),
            i < self.index@.len(),
        ensures
            r@ == self@[i as int].1,
            self@[i as int].0 == self.index@[i as int].0@,
            i < self@.len(),
    {
        let ghost b = self.image@;
        let ghost idx = offsets_view(self.index@);
        let ghost p = idx[i as int];
        assert(p == (self.index@[i as int].0@, self.index@[i as int].1));
        assert(entry_matches(b, idx[i as int]));
        let off = self.index[i].1;
        let bytes = self.image.as_slice();
        let blen = bytes.len();
        assert(bytes@ == b);
        assert(string_at(b, off as int) is Some);
        proof {
            reveal(string_at);
            assert(off + 8 <= b.len());
        }
        let start = off as usize;
        let end = read_string(bytes, start).unwrap().1;
        read_rule_vector(bytes, end).unwrap()
    }

    /// Every stored entry, in index order.
    pub fn load_anchors(&self) -> (r: Result<Vec<(String, RuleVector)>, BridgeError>)
        requires
            self.wf(),
        ensures
            r matches Ok(v) && pairs_view(v@) == self@,
    {
        let mut out: Vec<(String, RuleVector)> = Vec::new();
        let mut i: usize = 0;
        while i < self.index.len()
            invariant
                self.wf(),
                i <= self.index@.len(),
                self@.len() == self.index@.len(),
                pairs_view(out@) == self@.take(i as int),
            decreases self.index@.len() - i,
        {
            let v = self.read_entry(i);
            let id = self.index[i].0.clone();
            let ghost item = (id@, v@);
            let ghost before = pairs_view(out@);
            out.push((id, v));
            assert(pairs_view(out@) =~= before.push(item));
            assert(item == self@[i as int]);
            assert(self@.take(i + 1) =~= self@.take(i as int).push(self@[i as int]));
            i = i + 1;
        }
        assert(self@.take(i as int) =~= self@);
        Ok(out)
    }
}

/// The bytes and index of the warm file for `anchors`.
fn build_image(anchors: &Vec<(String, RuleVector)>) -> (r: Result<
    (Vec<u8>, Vec<(String, u64)>),
    BridgeError,
>)
    ensures
        r is Ok <==> all_well_formed(pairs_view(anchors@)) && warm_image(
            pairs_view(anchors@),
        ).len() <= u64::MAX,
        r matches Ok((image, index)) ==> {
            &&& image@ == warm_image(pairs_view(anchors@))
            &&& offsets_view(index@) == index_of_entries(pairs_view(anchors@))
            &&& entries_encodable(pairs_view(anchors@))
            &&& anchors@.len() <= u64::MAX
        },
        r matches Err(e) ==> e == BridgeError::Serialization,
{
    let ghost es = pairs_view(anchors@);
    let mut k: usize = 0;
    while k < anchors.len()
        invariant
            k <= anchors@.len(),
            es == pairs_view(anchors@),
            forall|j: int| 0 <= j < k ==> (#[trigger] es[j]).1.well_formed(),
        decreases anchors@.len() - k,
    {
        if !anchors[k].1.is_well_formed() {
            assert(es[k as int].1 == anchors@[k as int].1@);
            return Err(BridgeError::Serialization);
        }
        k = k + 1;
    }
    let mut body: Vec<u8> = Vec::new();
    let mut pairs: Vec<u8> = Vec::new();
    let mut index: Vec<(String, u64)> = Vec::new();
    let mut i: usize = 0;
    while i < anchors.len()
        invariant
            i <= anchors@.len(),
            es == pairs_view(anchors@),
            all_well_formed(es),
            body@ == entries_bytes(es.take(i as int)),
            pairs@ == index_pairs_bytes(es, i as nat),
            offsets_view(index@) == index_of_entries(es).take(i as int),
            forall|j: int| 0 <= j < i ==> utf8_of((#[trigger] es[j]).0).len() <= u64::MAX,
        decreases anchors@.len() - i,
    {
        let off: u64 = if (body.len() as u128) + 200 <= u64::MAX as u128 {
            (body.len() as u64) + (HEADER_LEN as u64)
        } else {
            proof {
                lemma_entries_prefix(es, i as int);
                lemma_header_round_trip((HEADER_LEN + entries_bytes(es).len()) as u64, Seq::empty());
            }
            return Err(BridgeError::Serialization);
        };
        let ghost before = body@;
        let nb = anchors[i].0.as_str().as_bytes().len();
        assert(nb as int == utf8_of(es[i as int].0).len());
        push_string(&mut body, anchors[i].0.as_str());
        push_rule_vector(&mut body, &anchors[i].1);
        push_string(&mut pairs, anchors[i].0.as_str());
        push_u64_le(&mut pairs, off);
        let ghost index_before = offsets_view(index@);
        let id = anchors[i].0.clone();
        index.push((id, off));
        assert(offsets_view(index@) =~= index_before.push((es[i as int].0, off)));
        proof {
            assert(es.take(i + 1).drop_last() =~= es.take(i as int));
            assert(es.take(i + 1).last() == es[i as int]);
            assert(body@ =~= entries_bytes(es.take(i + 1)));
            assert(entry_offset(es, i as int) == 200 + before.len());
            assert(pairs@ =~= index_pairs_bytes(es, (i + 1) as nat));
            assert(offsets_view(index@) =~= index_of_entries(es).take(i + 1));
        }
        i = i + 1;
    }
    assert(es.take(i as int) =~= es);
    proof {
        lemma_header_round_trip((HEADER_LEN + entries_bytes(es).len()) as u64, Seq::empty());
    }
    if (body.len() as u128) + 200 > u64::MAX as u128 {
        return Err(BridgeError::Serialization);
    }
    let mut image = header_record((body.len() as u64) + (HEADER_LEN as u64));
    let mut tail: Vec<u8> = Vec::new();
    push_u64_le(&mut tail, anchors.len() as u64);
    tail.append(&mut pairs);
    let ghost idx_bytes = tail@;
    assert(idx_bytes =~= index_bytes(es));
    image.append(&mut body);
    image.append(&mut tail);
    let total = image.len();
    assert(image@ =~= warm_image(es));
    assert(total as int == warm_image(es).len());
    assert(offsets_view(index@) =~= index_of_entries(es));
    Ok((image, index))
}

pub proof fn lemma_digits_monotone(d: Seq<u8>, k: int)
    requires
        0 <= k <= d.len(),
        forall|i: int| 0 <= i < d.len() ==> is_digit(#[trigger] d[i]),
    ensures
        digits_value(d) >= digits_value(d.take(k)),
    decreases d.len(),
{
    if k == d.len() {
        assert(d.take(k) =~= d);
    } else {
        let e = d.drop_last();
        assert forall|i: int| 0 <= i < e.len() implies is_digit(#[trigger] e[i]) by {
            assert(e[i] == d[i]);
        }
        lemma_digits_monotone(e, k);
        assert(e.take(k) =~= d.take(k));
    }
}

/// The index offset stated by the header of `b`.
fn parse_header(b: &Vec<u8>) -> (r: Option<u64>)
    ensures
        r == index_offset_of(b@),
{
    let mut p: usize = 0;
    while p < b.len() && b[p] != 10u8
        invariant
            p <= b@.len(),
            first_lf(b@, 0) == first_lf(b@, p as int),
        decreases b@.len() - p,
    {
        p = p + 1;
    }
    if p == b.len() {
        return None;
    }
    let mut end: usize = p;
    while end > 0 && b[end - 1] == 32u8
        invariant
            end <= p < b@.len(),
            first_lf(b@, 0) == Some(p as int),
            trim_end(b@.take(p as int)) == trim_end(b@.take(end as int)),
        decreases end,
    {
        assert(b@.take(end as int).drop_last() =~= b@.take(end - 1));
        end = end - 1;
    }
    let ghost line = b@.take(end as int);
    assert(trim_end(line) == line);
    assert(trim_end(b@.take(p as int)) == line);
    assert(index_offset_of(b@) == header_line_offset(line));
    if end < 45 {
        return None;
    }
    let prefix: Vec<u8> = vec![
        123u8, 34, 109, 97, 103, 105, 99, 34, 58, 34, 71, 85, 65, 82, 34, 44, 34, 118, 101, 114,
        115, 105, 111, 110, 34, 58, 49, 44, 34, 105, 110, 100, 101, 120, 95, 111, 102, 102, 115,
        101, 116, 34, 58,
    ];
    assert(prefix@ =~= header_prefix());
    let mut j: usize = 0;
    while j < 43
        invariant
            j <= 43,
            45 <= end <= b@.len(),
            line == b@.take(end as int),
            index_offset_of(b@) == header_line_offset(line),
            prefix@ == header_prefix(),
            forall|t: int| 0 <= t < j ==> b@[t] == prefix@[t],
        decreases 43 - j,
    {
        if b[j] != prefix[j] {
            assert(line.take(43)[j as int] != header_prefix()[j as int]);
            return None;
        }
        j = j + 1;
    }
    assert(line.take(43) =~= header_prefix());
    if b[end - 1] != 125u8 {
        return None;
    }
    let ghost d = line.subrange(43, end - 1);
    let mut v: u128 = 0;
    let mut k: usize = 43;
    assert(d.take(0) =~= Seq::<u8>::empty());
    while k < end - 1
        invariant
            43 <= k <= end - 1,
            end <= b@.len(),
            line == b@.take(end as int),
            index_offset_of(b@) == header_line_offset(line),
            line.len() >= 45 && line.take(43) == header_prefix() && line.last() == 125,
            d == line.subrange(43, end - 1),
            v == digits_value(d.take(k - 43)),
            v <= u64::MAX,
            forall|t: int| 0 <= t < k - 43 ==> is_digit(#[trigger] d[t]),
        decreases end - 1 - k,
    {
        let c = b[k];
        assert(d[k - 43] == c);
        if c < 48u8 || c > 57u8 {
            return None;
        }
        assert(d.take(k - 42).drop_last() =~= d.take(k - 43));
        v = v * 10 + (c - 48u8) as u128;
        if v > u64::MAX as u128 {
            proof {
                if forall|t: int| 0 <= t < d.len() ==> is_digit(#[trigger] d[t]) {
                    lemma_digits_monotone(d, k - 42);
                }
            }
            return None;
        }
        k = k + 1;
    }
    assert(d.take(d.len() as int) =~= d);
    Some(v as u64)
}

proof fn lemma_pairs_none(b: Seq<u8>, pos: int, k: nat, m: nat)
    requires
        k <= m,
        index_pairs_at(b, pos, k) is None,
    ensures
        index_pairs_at(b, pos, m) is None,
    decreases m - k,
{
    if k < m {
        lemma_pairs_none(b, pos, k, (m - 1) as nat);
    }
}

/// The index that starts at `offset`.
fn parse_index(b: &Vec<u8>, offset: u64) -> (r: Option<Vec<(String, u64)>>)
    requires
        index_offset_of(b@) == Some(offset),
    ensures
        r is Some <==> image_index(b@) is Some,
        r matches Some(ix) ==> image_index(b@) == Some(offsets_view(ix@)),
{
    proof {
        reveal(u64_at);
    }
    if offset > b.len() as u64 {
        return None;
    }
    let pos0 = offset as usize;
    let n = match read_u64_le(b.as_slice(), pos0) {
        Some(n) => n,
        None => return None,
    };
    let mut pos: usize = pos0 + 8;
    let mut k: u64 = 0;
    let blen = b.len();
    let mut ix: Vec<(String, u64)> = Vec::new();
    assert(offsets_view(ix@) =~= Seq::<(Seq<char>, u64)>::empty());
    while k < n
        invariant
            k <= n,
            blen == b@.len(),
            index_offset_of(b@) == Some(offset),
            u64_at(b@, offset as int) == Some(n),
            index_pairs_at(b@, offset + 8, k as nat) == Some((offsets_view(ix@), pos as int)),
        decreases n - k,
    {
        let (s, end) = match read_string(b.as_slice(), pos) {
            Some(x) => x,
            None => {
                proof {
                    assert(index_pairs_at(b@, offset + 8, (k + 1) as nat) is None);
                    lemma_pairs_none(b@, offset + 8, (k + 1) as nat, n as nat);
                }
                return None;
            },
        };
        let o = match read_u64_le(b.as_slice(), end) {
            Some(o) => o,
            None => {
                proof {
                    assert(index_pairs_at(b@, offset + 8, (k + 1) as nat) is None);
                    lemma_pairs_none(b@, offset + 8, (k + 1) as nat, n as nat);
                }
                return None;
            },
        };
        proof {
            reveal(u64_at);
            assert(end + 8 <= b@.len());
        }
        let ghost before = offsets_view(ix@);
        ix.push((s, o));
        assert(offsets_view(ix@) =~= before.push((s@, o)));
        pos = end + 8;
        k = k + 1;
    }
    Some(ix)
}

/// Whether every index pair leads to a whole entry stored under its id.
fn entries_present(b: &Vec<u8>, ix: &Vec<(String, u64)>) -> (r: bool)
    ensures
        r == forall|i: int|
            0 <= i < ix@.len() ==> entry_matches(b@, #[trigger] offsets_view(ix@)[i]),
{
    proof {
        reveal(string_at);
        reveal(rule_vector_at);
    }
    let mut i: usize = 0;
    while i < ix.len()
        invariant
            i <= ix@.len(),
            forall|j: int| 0 <= j < i ==> entry_matches(b@, #[trigger] offsets_view(ix@)[j]),
        decreases ix@.len() - i,
    {
        proof {
            reveal(string_at);
            reveal(rule_vector_at);
        }
        let ghost p = offsets_view(ix@)[i as int];
        assert(p == (ix@[i as int].0@, ix@[i as int].1));
        let off = ix[i].1;
        if off > b.len() as u64 {
            assert(!entry_matches(b@, p));
            return false;
        }
        match read_string(b.as_slice(), off as usize) {
            Some((s, end)) => {
                if !str_eq(s.as_str(), ix[i].0.as_str()) {
                    assert(!entry_matches(b@, p));
                    return false;
                }
                if end > b.len() || b.len() - end < RULE_VECTOR_BYTES {
                    assert(!entry_matches(b@, p));
                    return false;
                }
            },
            None => {
                assert(!entry_matches(b@, p));
                return false;
            },
        }
        i = i + 1;
    }
    true
}

/// In a list whose ids are distinct, looking up the id of entry `i` finds
/// entry `i`'s block.
pub proof fn lemma_lookup_unique(es: Seq<(Seq<char>, RuleVectorView)>, i: int)
    requires
        es.map_values(|p: (Seq<char>, RuleVectorView)| p.0).no_duplicates(),
        0 <= i < es.len(),
    ensures
        lookup(es, es[i].0) == Some(es[i].1),
    decreases i,
{
    if i > 0 {
        let ids = es.map_values(|p: (Seq<char>, RuleVectorView)| p.0);
        assert(ids[0] != ids[i]);
        let rest = es.drop_first();
        assert(rest.map_values(|p: (Seq<char>, RuleVectorView)| p.0) =~= ids.drop_first());
        assert(rest[i - 1] == es[i]);
        lemma_lookup_unique(rest, i - 1);
    }
}

/// A block that a lookup finds is one of the list's entries.
pub proof fn lemma_lookup_found(es: Seq<(Seq<char>, RuleVectorView)>, id: Seq<char>)
    requires
        lookup(es, id) is Some,
    ensures
        es.contains((id, lookup(es, id)->0)),
    decreases es.len(),
{
    if es[0].0 != id {
        lemma_lookup_found(es.drop_first(), id);
        let j = choose|j: int| 0 <= j < es.drop_first().len() && es.drop_first()[j] == (id, lookup(es, id)->0);
        assert(es[j + 1] == (id, lookup(es, id)->0));
    } else {
        assert(es[0] == (id, lookup(es, id)->0));
    }
}

impl WarmStorage {
    /// A well-formed storage's bytes read back as its contents, and every
    /// stored block has the fixed shape.
    pub proof fn lemma_image_contents(&self)
        requires
            self.wf(),
        ensures
            image_contents(self.spec_image()) == Some(self@),
            all_well_formed(self@),
    {
        let b = self.image@;
        let idx = offsets_view(self.index@);
        assert forall|i: int| 0 <= i < self@.len() implies (#[trigger] self@[i]).1.well_formed() by {
            assert(entry_matches(b, idx[i]));
            let off = idx[i].1 as int;
            let (s0, q) = string_at(b, off)->0;
            lemma_rule_vector_at_well_formed(b, q);
            assert(self@[i] == contents_from_index(b, idx)[i]);
            assert(entry_at(b, off) == Some((s0, rule_vector_at(b, q)->0)));
        }
    }
}

/// In a list whose ids are distinct, the block stored under an id present
/// with block `v` is `v`.
pub proof fn lemma_lookup_member(es: Seq<(Seq<char>, RuleVectorView)>, id: Seq<char>, v: RuleVectorView)
    requires
        es.map_values(|p: (Seq<char>, RuleVectorView)| p.0).no_duplicates(),
        es.contains((id, v)),
    ensures
        lookup(es, id) == Some(v),
{
    let j = choose|j: int| 0 <= j < es.len() && es[j] == (id, v);
    lemma_lookup_unique(es, j);
}

} // verus!
