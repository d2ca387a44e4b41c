//! Persistence codec: serializes the store to a self-describing byte image
//! and restores it, independent of the live wire format.
//!
//! The image holds a topic count, the start-time word (reset on load), and
//! per retained topic a length-prefixed name and a length-prefixed columnar
//! payload. Topics with no data are skipped on save; on load every frame is
//! bounds-checked before its payload is touched, so a corrupt length field is
//! reported instead of read past.

use vstd::prelude::*;

use vstd::bytes::{
    spec_u32_to_le_bytes, spec_u32_from_le_bytes, spec_u64_to_le_bytes, spec_u64_from_le_bytes,
    u32_from_le_bytes, u32_to_le_bytes, u64_from_le_bytes, u64_to_le_bytes,
};
use vstd::utf8::{decode_utf8, encode_utf8, valid_utf8};

use crate::columnar::{
    Batch, ColumnData, batch_columns, decode_batches, f32_batch, ipc_clean, ipc_contents,
    ipc_encode, ipc_payload, name_word_pairs, rb_col_f32, rb_col_name, rb_num_columns,
};
use crate::store::{
    DataStore, Topic, append_column, append_into, cols_view, find_topic_in, key_index,
    lemma_append_into_unique, lemma_key_index_props, topics_view, topics_wf, unique_keys,
};
use crate::strutil::{chars_lt, str_lt, string_from_utf8};

verus! {

/// Why a save is refused.
#[derive(Debug, PartialEq, Eq)]
pub enum SaveError {
    /// The store holds no topic at all.
    NoData,
    /// A topic passed the emptiness filter and still produced no column: a
    /// defensive check that the filter makes unreachable.
    EmptyTopic,
    /// A retained topic's non-empty columns do not share one length, so no
    /// batch can be built for it.
    RaggedTopic,
}

/// Why a load is refused, with the diagnostic context a caller surfaces.
#[derive(Debug, PartialEq, Eq)]
pub enum LoadError {
    /// The image of `file_size` bytes ends before the topic count and
    /// start-time field.
    TruncatedHeader { file_size: usize },
    /// The image ends inside a topic's name or length fields: the field
    /// starting at `offset` runs past the `file_size` bytes there are.
    TruncatedTopic { offset: usize, file_size: usize },
    /// The topic name starting at `offset` is not valid UTF-8.
    BadTopicName { offset: usize },
    /// The payload of `topic`, starting at `offset`, declares `declared`
    /// bytes where the image holds only `file_size`: the image is corrupt,
    /// and the payload is not read.
    PayloadOutOfBounds { topic: String, declared: u64, offset: usize, file_size: usize },
    /// The payload of `topic` at `offset` does not decode as a columnar
    /// stream.
    BadPayload { topic: String, offset: usize },
}

/// The mathematical form of a load failure: names as character sequences,
/// positions as integers.
pub enum LoadIssue {
    TruncatedHeader { file_size: int },
    TruncatedTopic { offset: int, file_size: int },
    BadTopicName { offset: int },
    PayloadOutOfBounds { topic: Seq<char>, declared: u64, offset: int, file_size: int },
    BadPayload { topic: Seq<char>, offset: int },
}

/// What a concrete load failure states.
pub open spec fn issue_of(e: LoadError) -> LoadIssue {
    match e {
        LoadError::TruncatedHeader { file_size } => LoadIssue::TruncatedHeader {
            file_size: file_size as int,
        },
        LoadError::TruncatedTopic { offset, file_size } => LoadIssue::TruncatedTopic {
            offset: offset as int,
            file_size: file_size as int,
        },
        LoadError::BadTopicName { offset } => LoadIssue::BadTopicName { offset: offset as int },
        LoadError::PayloadOutOfBounds { topic, declared, offset, file_size } => LoadIssue::PayloadOutOfBounds {
            topic: topic@,
            declared,
            offset: offset as int,
            file_size: file_size as int,
        },
        LoadError::BadPayload { topic, offset } => LoadIssue::BadPayload {
            topic: topic@,
            offset: offset as int,
        },
    }
}

/// A topic is written out only if it has a column and any column has data.
pub open spec fn retained(t: (Seq<char>, Seq<(Seq<char>, Seq<u32>)>)) -> bool {
    t.1.len() > 0 && exists|j: int| 0 <= j < t.1.len() && (#[trigger] t.1[j]).1.len() > 0
}

/// The retained topics, in store order.
pub open spec fn retained_seq(
    ts: Seq<(Seq<char>, Seq<(Seq<char>, Seq<u32>)>)>,
) -> Seq<(Seq<char>, Seq<(Seq<char>, Seq<u32>)>)>
    decreases ts.len(),
{
    if ts.len() == 0 {
        Seq::empty()
    } else if retained(ts[0]) {
        seq![ts[0]] + retained_seq(ts.drop_first())
    } else {
        retained_seq(ts.drop_first())
    }
}

/// Inserts a column into a name-sorted list, before the first entry whose
/// name is lexicographically after it.
pub open spec fn insert_sorted(
    sorted: Seq<(Seq<char>, Seq<u32>)>,
    c: (Seq<char>, Seq<u32>),
) -> Seq<(Seq<char>, Seq<u32>)>
    decreases sorted.len(),
{
    if sorted.len() == 0 {
        seq![c]
    } else if chars_lt(c.0, sorted[0].0) {
        seq![c] + sorted
    } else {
        seq![sorted[0]] + insert_sorted(sorted.drop_first(), c)
    }
}

/// Sorts columns by name: each column in turn lands in its place.
pub open spec fn sort_cols_from(
    acc: Seq<(Seq<char>, Seq<u32>)>,
    cols: Seq<(Seq<char>, Seq<u32>)>,
) -> Seq<(Seq<char>, Seq<u32>)>
    decreases cols.len(),
{
    if cols.len() == 0 {
        acc
    } else {
        sort_cols_from(insert_sorted(acc, cols[0]), cols.drop_first())
    }
}

/// The non-empty columns, in the order given.
pub open spec fn keep_nonempty(cols: Seq<(Seq<char>, Seq<u32>)>) -> Seq<(Seq<char>, Seq<u32>)>
    decreases cols.len(),
{
    if cols.len() == 0 {
        Seq::empty()
    } else if cols[0].1.len() > 0 {
        seq![cols[0]] + keep_nonempty(cols.drop_first())
    } else {
        keep_nonempty(cols.drop_first())
    }
}

/// What a topic's payload holds: its columns sorted by name, empty ones
/// dropped.
pub open spec fn kept_cols(cols: Seq<(Seq<char>, Seq<u32>)>) -> Seq<(Seq<char>, Seq<u32>)> {
    keep_nonempty(sort_cols_from(Seq::empty(), cols))
}

/// All columns share one length.
pub open spec fn equal_lens(cols: Seq<(Seq<char>, Seq<u32>)>) -> bool {
    forall|j: int| 0 <= j < cols.len() ==> (#[trigger] cols[j]).1.len() == cols[0].1.len()
}

/// One topic's frame: length-prefixed name, then length-prefixed payload.
pub open spec fn frame_bytes(name: Seq<char>, payload: Seq<u8>) -> Seq<u8> {
    spec_u32_to_le_bytes(encode_utf8(name).len() as u32) + encode_utf8(name)
        + spec_u64_to_le_bytes(payload.len() as u64) + payload
}

/// The frames of the retained topics, or the first topic's failure.
pub open spec fn encode_topics(
    rts: Seq<(Seq<char>, Seq<(Seq<char>, Seq<u32>)>)>,
) -> Result<Seq<u8>, SaveError>
    decreases rts.len(),
{
    if rts.len() == 0 {
        Ok(Seq::empty())
    } else {
        let kept = kept_cols(rts[0].1);
        if kept.len() == 0 {
            Err(SaveError::EmptyTopic)
        } else if !equal_lens(kept) {
            Err(SaveError::RaggedTopic)
        } else {
            match encode_topics(rts.drop_first()) {
                Ok(b) => Ok(frame_bytes(rts[0].0, ipc_payload(kept)) + b),
                Err(e) => Err(e),
            }
        }
    }
}

/// The whole image a save produces, or why it fails: the retained topic
/// count, the start-time word, then the frames.
pub open spec fn save_result(
    ts: Seq<(Seq<char>, Seq<(Seq<char>, Seq<u32>)>)>,
    st: u32,
) -> Result<Seq<u8>, SaveError> {
    if ts.len() == 0 {
        Err(SaveError::NoData)
    } else {
        match encode_topics(retained_seq(ts)) {
            Ok(body) => Ok(
                spec_u32_to_le_bytes(retained_seq(ts).len() as u32) + spec_u32_to_le_bytes(st)
                    + body,
            ),
            Err(e) => Err(e),
        }
    }
}

/// Parses `k` frames starting at offset `o`: each frame's name and payload,
/// and finally the count of trailing bytes past the last frame.
pub open spec fn parse_topics(bytes: Seq<u8>, o: int, k: int) -> Result<
    (Seq<(Seq<char>, Seq<u8>)>, int),
    LoadIssue,
>
    decreases k,
{
    if k <= 0 {
        Ok((Seq::empty(), bytes.len() - o))
    } else if o + 4 > bytes.len() {
        Err(LoadIssue::TruncatedTopic { offset: o, file_size: bytes.len() as int })
    } else {
        let nl = spec_u32_from_le_bytes(bytes.subrange(o, o + 4)) as int;
        if o + 4 + nl > bytes.len() {
            Err(LoadIssue::TruncatedTopic { offset: o + 4, file_size: bytes.len() as int })
        } else {
            let nb = bytes.subrange(o + 4, o + 4 + nl);
            if !valid_utf8(nb) {
                Err(LoadIssue::BadTopicName { offset: o + 4 })
            } else if o + 4 + nl + 8 > bytes.len() {
                Err(
                    LoadIssue::TruncatedTopic {
                        offset: o + 4 + nl,
                        file_size: bytes.len() as int,
                    },
                )
            } else {
                let declared = spec_u64_from_le_bytes(bytes.subrange(o + 4 + nl, o + 4 + nl + 8));
                let sz = declared as int;
                let po = o + 4 + nl + 8;
                if sz > bytes.len() - po {
                    Err(
                        LoadIssue::PayloadOutOfBounds {
                            topic: decode_utf8(nb),
                            declared,
                            offset: po,
                            file_size: bytes.len() as int,
                        },
                    )
                } else {
                    match parse_topics(bytes, po + sz, k - 1) {
                        Ok((fs, tr)) => Ok(
                            (seq![(decode_utf8(nb), bytes.subrange(po, po + sz))] + fs, tr),
                        ),
                        Err(e) => Err(e),
                    }
                }
            }
        }
    }
}

/// Parses a whole image: the frames it frames, and the trailing byte count.
pub open spec fn parse_file(bytes: Seq<u8>) -> Result<(Seq<(Seq<char>, Seq<u8>)>, int), LoadIssue> {
    if bytes.len() < 8 {
        Err(LoadIssue::TruncatedHeader { file_size: bytes.len() as int })
    } else {
        parse_topics(bytes, 8, spec_u32_from_le_bytes(bytes.subrange(0, 4)) as int)
    }
}

/// Whether a topic has data to write: it has a column, and some column is
/// non-empty.
fn is_retained(t: &Topic) -> (r: bool)
    ensures
        r == retained(t@),
{
    if t.columns.len() == 0 {
        return false;
    }
    let n = t.columns.len();
    let mut i: usize = 0;
    while i < n
        invariant
            i <= n,
            n == t.columns@.len(),
            forall|j: int| 0 <= j < i ==> (#[trigger] cols_view(t.columns@)[j]).1.len() == 0,
        decreases n - i,
    {
        proof {
            assert(cols_view(t.columns@)[i as int] == t.columns@[i as int]@);
        }
        if t.columns[i].values.len() > 0 {
            proof {
                assert((t@.1[i as int]).1.len() > 0);
            }
            return true;
        }
        i = i + 1;
    }
    false
}

/// The insertion point: `insert_sorted` puts the new column exactly where the
/// scan for the first later name stops.
proof fn lemma_insert_sorted_at(
    sorted: Seq<(Seq<char>, Seq<u32>)>,
    c: (Seq<char>, Seq<u32>),
    j: int,
)
    requires
        0 <= j <= sorted.len(),
        forall|k: int| 0 <= k < j ==> !chars_lt(c.0, (#[trigger] sorted[k]).0),
        j < sorted.len() ==> chars_lt(c.0, sorted[j as int].0),
    ensures
        insert_sorted(sorted, c) == sorted.take(j) + seq![c] + sorted.skip(j),
    decreases sorted.len(),
{
    if sorted.len() == 0 {
        assert(insert_sorted(sorted, c) =~= sorted.take(j) + seq![c] + sorted.skip(j));
    } else if j == 0 {
        assert(sorted.take(0) + seq![c] + sorted.skip(0) =~= seq![c] + sorted);
    } else {
        let rest = sorted.drop_first();
        assert(forall|k: int| 0 <= k < j - 1 ==> rest[k] == sorted[k + 1]);
        lemma_insert_sorted_at(rest, c, j - 1);
        assert(seq![sorted[0]] + (rest.take(j - 1) + seq![c] + rest.skip(j - 1)) =~= sorted.take(j)
            + seq![c] + sorted.skip(j));
    }
}

/// The name-sorted, non-empty columns of a topic, cloned out as plain pairs.
fn build_kept(t: &Topic) -> (r: Vec<(String, Vec<u32>)>)
    ensures
        name_word_pairs(r@) == kept_cols(cols_view(t.columns@)),
{
    let ghost cv = cols_view(t.columns@);
    let mut sorted: Vec<(String, Vec<u32>)> = Vec::new();
    let n = t.columns.len();
    let mut i: usize = 0;
    proof {
        assert(cv.skip(0) =~= cv);
        assert(name_word_pairs(sorted@) =~= Seq::<(Seq<char>, Seq<u32>)>::empty());
    }
    while i < n
        invariant
            i <= n,
            n == t.columns@.len(),
            cv == cols_view(t.columns@),
            sort_cols_from(name_word_pairs(sorted@), cv.skip(i as int)) == sort_cols_from(
                Seq::empty(),
                cv,
            ),
        decreases n - i,
    {
        let c = &t.columns[i];
        let pair = (c.name.clone(), c.values.clone());
        let m = sorted.len();
        let mut j: usize = 0;
        let mut found: bool = false;
        while j < m && !found
            invariant
                j <= m,
                m == sorted@.len(),
                forall|k: int|
                    0 <= k < j ==> !chars_lt(pair.0@, (#[trigger] name_word_pairs(sorted@)[k]).0),
                found ==> j < m && chars_lt(pair.0@, name_word_pairs(sorted@)[j as int].0),
                pair.0@ == c.name@,
            decreases m - j + (if found { 0int } else { 1int }),
        {
            proof {
                assert(name_word_pairs(sorted@)[j as int] == (sorted@[j as int].0@, sorted@[
                    j as int].1@));
            }
            if str_lt(pair.0.as_str(), sorted[j].0.as_str()) {
                found = true;
            } else {
                j = j + 1;
            }
        }
        let ghost pre = name_word_pairs(sorted@);
        proof {
            lemma_insert_sorted_at(pre, (pair.0@, pair.1@), j as int);
        }
        sorted.insert(j, pair);
        proof {
            assert(name_word_pairs(sorted@) =~= pre.take(j as int) + seq![(c.name@, c.values@)]
                + pre.skip(j as int));
            assert(cv.skip(i as int)[0] == cv[i as int]);
            assert(cv[i as int] == t.columns@[i as int]@);
            assert(cv.skip(i as int).drop_first() =~= cv.skip(i as int + 1));
        }
        i = i + 1;
    }
    proof {
        assert(cv.skip(n as int) =~= Seq::<(Seq<char>, Seq<u32>)>::empty());
    }
    let ghost sv = name_word_pairs(sorted@);
    let mut kept: Vec<(String, Vec<u32>)> = Vec::new();
    let m = sorted.len();
    let mut j: usize = 0;
    proof {
        assert(sv.skip(0) =~= sv);
        assert(name_word_pairs(kept@) =~= Seq::<(Seq<char>, Seq<u32>)>::empty());
        assert(name_word_pairs(kept@) + keep_nonempty(sv) =~= keep_nonempty(sv));
    }
    while j < m
        invariant
            j <= m,
            m == sorted@.len(),
            sv == name_word_pairs(sorted@),
            name_word_pairs(kept@) + keep_nonempty(sv.skip(j as int)) == keep_nonempty(sv),
        decreases m - j,
    {
        proof {
            assert(sv.skip(j as int)[0] == sv[j as int]);
            assert(sv[j as int] == (sorted@[j as int].0@, sorted@[j as int].1@));
            assert(sv.skip(j as int).drop_first() =~= sv.skip(j as int + 1));
        }
        if sorted[j].1.len() > 0 {
            let ghost pre = name_word_pairs(kept@);
            let cj = &sorted[j];
            kept.push((cj.0.clone(), cj.1.clone()));
            proof {
                assert(name_word_pairs(kept@) =~= pre.push(sv[j as int]));
                assert(pre.push(sv[j as int]) + keep_nonempty(sv.skip(j as int + 1)) =~= pre + (
                seq![sv[j as int]] + keep_nonempty(sv.skip(j as int + 1))));
            }
        }
        j = j + 1;
    }
    proof {
        assert(sv.skip(m as int) =~= Seq::<(Seq<char>, Seq<u32>)>::empty());
        assert(name_word_pairs(kept@) + Seq::<(Seq<char>, Seq<u32>)>::empty() =~= name_word_pairs(
            kept@,
        ));
    }
    kept
}

impl DataStore {
    /// Serializes the store: skips topics with no data, sorts each retained
    /// topic's columns by name, and frames everything length-prefixed. Fails
    /// only when the store is empty, or when a retained topic cannot form one
    /// batch.
    #[verifier::loop_isolation(false)]
    #[verifier::rlimit(50)]
    pub fn save_to_arrow(&self) -> (r: Result<Vec<u8>, SaveError>)
        requires
            self@.topics.len() < 0x1_0000_0000,
            forall|i: int|
                0 <= i < self@.topics.len() ==> encode_utf8(
                    (#[trigger] self@.topics[i]).0,
                ).len() < 0x1_0000_0000,
        ensures
            (match r {
                Ok(b) => save_result(self@.topics, self@.start_time) == Ok::<_, SaveError>(b@),
                Err(e) => save_result(self@.topics, self@.start_time) == Err::<Seq<u8>, _>(e),
            }),
    {
        let ghost tv = self@.topics;
        if self.topics.len() == 0 {
            return Err(SaveError::NoData);
        }
        let n = self.topics.len();
        let mut count: usize = 0;
        let mut i: usize = 0;
        proof {
            assert(tv.skip(0) =~= tv);
        }
        while i < n
            invariant
                i <= n,
                count <= i,
                count + retained_seq(tv.skip(i as int)).len() == retained_seq(tv).len(),
            decreases n - i,
        {
            proof {
                assert(tv.skip(i as int)[0] == tv[i as int]);
                assert(tv[i as int] == self.topics@[i as int]@);
                assert(tv.skip(i as int).drop_first() =~= tv.skip(i as int + 1));
            }
            if is_retained(&self.topics[i]) {
                count = count + 1;
            }
            i = i + 1;
        }
        proof {
            assert(tv.skip(n as int) =~= Seq::<(Seq<char>, Seq<(Seq<char>, Seq<u32>)>)>::empty());
        }
        let mut out: Vec<u8> = u32_to_le_bytes(count as u32);
        let mut st_bytes = u32_to_le_bytes(self.start_time);
        out.append(&mut st_bytes);
        let ghost header = spec_u32_to_le_bytes(retained_seq(tv).len() as u32)
            + spec_u32_to_le_bytes(self@.start_time);
        proof {
            assert(out@ =~= header);
        }
        let mut i: usize = 0;
        while i < n
            invariant
                i <= n,
                (match encode_topics(retained_seq(tv.skip(i as int))) {
                    Ok(b) => save_result(tv, self@.start_time) == Ok::<_, SaveError>(out@ + b),
                    Err(e) => save_result(tv, self@.start_time) == Err::<Seq<u8>, _>(e),
                }),
            decreases n - i,
        {
            proof {
                assert(tv.skip(i as int)[0] == tv[i as int]);
                assert(tv[i as int] == self.topics@[i as int]@);
                assert(tv.skip(i as int).drop_first() =~= tv.skip(i as int + 1));
            }
            let tp = &self.topics[i];
            if is_retained(tp) {
                proof {
                    assert(retained_seq(tv.skip(i as int)) =~= seq![tv[i as int]] + retained_seq(
                        tv.skip(i as int + 1),
                    ));
                    assert(retained_seq(tv.skip(i as int))[0] == tv[i as int]);
                    assert(retained_seq(tv.skip(i as int)).drop_first() =~= retained_seq(
                        tv.skip(i as int + 1),
                    ));
                }
                let kept = build_kept(tp);
                let ghost kc = kept_cols(tv[i as int].1);
                proof {
                    assert(name_word_pairs(kept@) == kc);
                    assert(name_word_pairs(kept@).len() == kept@.len());
                    assert(forall|j: int|
                        0 <= j < kept@.len() ==> name_word_pairs(kept@)[j] == ((
                        #[trigger] kept@[j]).0@, kept@[j].1@));
                }
                if kept.len() == 0 {
                    return Err(SaveError::EmptyTopic);
                }
                match ipc_encode(&kept) {
                    None => {
                        proof {
                            assert(!equal_lens(kc)) by {
                                if equal_lens(kc) {
                                    assert(forall|j: int|
                                        0 <= j < kept@.len() ==> (#[trigger] kept@[j].1)@.len()
                                            == kept@[0].1@.len()) by {
                                        assert(forall|j: int|
                                            0 <= j < kc.len() ==> (#[trigger] kc[j]).1.len() == kc[
                                            0].1.len());
                                    }
                                }
                            };
                        }
                        return Err(SaveError::RaggedTopic);
                    },
                    Some(mut payload) => {
                        let name_bytes = vstd::slice::slice_to_vec(tp.name.as_str().as_bytes());
                        let ghost pre = out@;
                        let mut nl = u32_to_le_bytes(name_bytes.len() as u32);
                        out.append(&mut nl);
                        let mut nb = name_bytes;
                        out.append(&mut nb);
                        let mut pl = u64_to_le_bytes(payload.len() as u64);
                        out.append(&mut pl);
                        let ghost payload_v = payload@;
                        out.append(&mut payload);
                        proof {
                            let fb = frame_bytes(tv[i as int].0, payload_v);
                            assert(out@ =~= pre + fb);
                            assert(payload_v == ipc_payload(kept_cols(tv[i as int].1)));
                            match encode_topics(retained_seq(tv.skip(i as int + 1))) {
                                Ok(rest) => {
                                    assert((pre + fb) + rest =~= pre + (fb + rest));
                                },
                                Err(_) => {},
                            }
                        }
                    },
                }
            } else {
                proof {
                    assert(retained_seq(tv.skip(i as int)) =~= retained_seq(tv.skip(i as int + 1)));
                }
            }
            i = i + 1;
        }
        proof {
            assert(tv.skip(n as int) =~= Seq::<(Seq<char>, Seq<(Seq<char>, Seq<u32>)>)>::empty());
            assert(out@ + Seq::<u8>::empty() =~= out@);
        }
        Ok(out)
    }
}

/// The columns one decoded batch contributes on load: only 32-bit float
/// columns land, each appended to the same-named column, in batch order.
pub open spec fn apply_batch_cols(
    cols: Seq<(Seq<char>, Seq<u32>)>,
    bcols: Seq<(Seq<char>, ColumnData)>,
) -> Seq<(Seq<char>, Seq<u32>)>
    decreases bcols.len(),
{
    if bcols.len() == 0 {
        cols
    } else {
        let cur = match bcols[0].1 {
            ColumnData::F32(s) => append_into(cols, bcols[0].0, Some(s)),
            _ => cols,
        };
        apply_batch_cols(cur, bcols.drop_first())
    }
}

/// All batches of one payload land in order.
pub open spec fn apply_batches_cols(
    cols: Seq<(Seq<char>, Seq<u32>)>,
    bs: Seq<Batch>,
) -> Seq<(Seq<char>, Seq<u32>)>
    decreases bs.len(),
{
    if bs.len() == 0 {
        cols
    } else {
        apply_batches_cols(apply_batch_cols(cols, batch_columns(bs[0])), bs.drop_first())
    }
}

/// One frame lands in its topic, which is created only when the payload holds
/// at least one batch.
pub open spec fn apply_frame_spec(
    ts: Seq<(Seq<char>, Seq<(Seq<char>, Seq<u32>)>)>,
    name: Seq<char>,
    bs: Seq<Batch>,
) -> Seq<(Seq<char>, Seq<(Seq<char>, Seq<u32>)>)> {
    if bs.len() == 0 {
        ts
    } else {
        let ti = key_index(ts, name);
        if ti < 0 {
            ts.push((name, apply_batches_cols(Seq::empty(), bs)))
        } else {
            ts.update(ti, (ts[ti].0, apply_batches_cols(ts[ti].1, bs)))
        }
    }
}

proof fn lemma_apply_batch_cols_unique(
    cols: Seq<(Seq<char>, Seq<u32>)>,
    bcols: Seq<(Seq<char>, ColumnData)>,
)
    requires
        unique_keys(cols),
    ensures
        unique_keys(apply_batch_cols(cols, bcols)),
    decreases bcols.len(),
{
    if bcols.len() > 0 {
        let cur = match bcols[0].1 {
            ColumnData::F32(s) => append_into(cols, bcols[0].0, Some(s)),
            _ => cols,
        };
        match bcols[0].1 {
            ColumnData::F32(s) => {
                lemma_append_into_unique(cols, bcols[0].0, Some(s));
            },
            _ => {},
        }
        lemma_apply_batch_cols_unique(cur, bcols.drop_first());
    }
}

proof fn lemma_apply_batches_cols_unique(cols: Seq<(Seq<char>, Seq<u32>)>, bs: Seq<Batch>)
    requires
        unique_keys(cols),
    ensures
        unique_keys(apply_batches_cols(cols, bs)),
    decreases bs.len(),
{
    if bs.len() > 0 {
        lemma_apply_batch_cols_unique(cols, batch_columns(bs[0]));
        lemma_apply_batches_cols_unique(apply_batch_cols(cols, batch_columns(bs[0])), bs.drop_first());
    }
}

/// Lands one frame's batches: finds or creates the topic, then appends every
/// 32-bit float column of every batch.
#[verifier::loop_isolation(false)]
fn apply_frame(topics: &mut Vec<Topic>, name: String, batches: &Vec<Batch>)
    requires
        topics_wf(topics_view(old(topics)@)),
    ensures
        topics_view(final(topics)@) == apply_frame_spec(
            topics_view(old(topics)@),
            name@,
            batches@,
        ),
        topics_wf(topics_view(final(topics)@)),
{
    let ghost old_ts = topics_view(topics@);
    if batches.len() == 0 {
        return ;
    }
    let ti = match find_topic_in(topics, name.as_str()) {
        Some(i) => i,
        None => {
            topics.push(Topic { name, columns: Vec::new() });
            proof {
                assert(cols_view(Seq::<crate::store::Column>::empty()) =~= Seq::<
                    (Seq<char>, Seq<u32>),
                >::empty());
                assert(topics_view(topics@) =~~= old_ts.push(
                    (name@, Seq::<(Seq<char>, Seq<u32>)>::empty()),
                ));
            }
            topics.len() - 1
        },
    };
    let ghost base_cols = topics_view(topics@)[ti as int].1;
    let ghost pre_remove = topics@;
    let mut tp = topics.remove(ti);
    proof {
        assert(topics_view(topics@) =~= topics_view(pre_remove).remove(ti as int));
        assert(tp@ == pre_remove[ti as int]@);
        assert(cols_view(tp.columns@) == base_cols);
        lemma_key_index_props(old_ts, name@);
        assert(topics_view(pre_remove)[ti as int].0 == name@);
        assert(tp.name@ == name@);
    }
    let bn = batches.len();
    let mut bi: usize = 0;
    proof {
        assert(batches@.skip(0) =~= batches@);
    }
    while bi < bn
        invariant
            bi <= bn,
            bn == batches@.len(),
            tp.name@ == name@,
            unique_keys(cols_view(tp.columns@)),
            apply_batches_cols(cols_view(tp.columns@), batches@.skip(bi as int))
                == apply_batches_cols(base_cols, batches@),
        decreases bn - bi,
    {
        let b = &batches[bi];
        let ghost bc = batch_columns(batches@[bi as int]);
        let n = rb_num_columns(b);
        let mut i: usize = 0;
        let ghost start_cols = cols_view(tp.columns@);
        proof {
            assert(bc.skip(0) =~= bc);
        }
        while i < n
            invariant
                i <= n,
                n == bc.len(),
                bc == batch_columns(batches@[bi as int]),
                tp.name@ == name@,
                unique_keys(cols_view(tp.columns@)),
                apply_batch_cols(cols_view(tp.columns@), bc.skip(i as int)) == apply_batch_cols(
                    start_cols,
                    bc,
                ),
            decreases n - i,
        {
            proof {
                assert(bc.skip(i as int)[0] == bc[i as int]);
                assert(bc.skip(i as int).drop_first() =~= bc.skip(i as int + 1));
            }
            if let Some(v) = rb_col_f32(b, i) {
                let cname = rb_col_name(b, i);
                proof {
                    lemma_append_into_unique(cols_view(tp.columns@), cname@, Some(v@));
                }
                append_column(&mut tp.columns, cname, Some(v));
            }
            i = i + 1;
        }
        proof {
            assert(bc.skip(n as int) =~= Seq::<(Seq<char>, ColumnData)>::empty());
            assert(batches@.skip(bi as int)[0] == batches@[bi as int]);
            assert(batches@.skip(bi as int).drop_first() =~= batches@.skip(bi as int + 1));
        }
        bi = bi + 1;
    }
    proof {
        assert(batches@.skip(bn as int) =~= Seq::<Batch>::empty());
    }
    let ghost before_insert = topics_view(topics@);
    let ghost tp_view = tp@;
    topics.insert(ti, tp);
    proof {
        assert(topics_view(topics@) =~= before_insert.insert(ti as int, tp_view));
        let ti_spec = key_index(old_ts, name@);
        if ti_spec < 0 {
            assert(before_insert =~= old_ts);
            assert(tp_view.1 == apply_batches_cols(Seq::empty(), batches@)) by {
                assert(base_cols =~= Seq::<(Seq<char>, Seq<u32>)>::empty());
            }
            assert(before_insert.insert(ti as int, tp_view) =~= old_ts.push(tp_view));
            assert(topics_view(topics@) =~~= apply_frame_spec(old_ts, name@, batches@));
        } else {
            assert(ti == ti_spec);
            assert(base_cols == old_ts[ti as int].1);
            assert(before_insert.insert(ti as int, tp_view) =~= old_ts.update(ti as int, tp_view));
            assert(topics_view(topics@) =~~= apply_frame_spec(old_ts, name@, batches@));
        }
    }
}

/// The columns each decoded batch of a payload contributes, batch by batch.
pub open spec fn apply_contents_cols(
    cols: Seq<(Seq<char>, Seq<u32>)>,
    contents: Seq<Seq<(Seq<char>, ColumnData)>>,
) -> Seq<(Seq<char>, Seq<u32>)>
    decreases contents.len(),
{
    if contents.len() == 0 {
        cols
    } else {
        apply_contents_cols(apply_batch_cols(cols, contents[0]), contents.drop_first())
    }
}

/// One frame lands in its topic, described by the decoder's named output for
/// its payload; a payload with no batch creates no topic.
pub open spec fn apply_frame_contents(
    ts: Seq<(Seq<char>, Seq<(Seq<char>, Seq<u32>)>)>,
    name: Seq<char>,
    contents: Seq<Seq<(Seq<char>, ColumnData)>>,
) -> Seq<(Seq<char>, Seq<(Seq<char>, Seq<u32>)>)> {
    if contents.len() == 0 {
        ts
    } else {
        let ti = key_index(ts, name);
        if ti < 0 {
            ts.push((name, apply_contents_cols(Seq::empty(), contents)))
        } else {
            ts.update(ti, (ts[ti].0, apply_contents_cols(ts[ti].1, contents)))
        }
    }
}

/// What loading a list of parsed frames builds, frame by frame: for each
/// frame, exactly the 32-bit float columns of the batches the decoder names
/// for its payload land.
pub open spec fn load_frames_from(
    ts: Seq<(Seq<char>, Seq<(Seq<char>, Seq<u32>)>)>,
    fs: Seq<(Seq<char>, Seq<u8>)>,
) -> Seq<(Seq<char>, Seq<(Seq<char>, Seq<u32>)>)>
    decreases fs.len(),
{
    if fs.len() == 0 {
        ts
    } else {
        load_frames_from(
            apply_frame_contents(ts, fs[0].0, ipc_contents(fs[0].1)),
            fs.drop_first(),
        )
    }
}

/// What loading a whole image's frames builds, from an empty store.
pub open spec fn load_frames_spec(
    fs: Seq<(Seq<char>, Seq<u8>)>,
) -> Seq<(Seq<char>, Seq<(Seq<char>, Seq<u32>)>)> {
    load_frames_from(Seq::empty(), fs)
}

proof fn lemma_apply_contents_bridge(
    cols: Seq<(Seq<char>, Seq<u32>)>,
    bs: Seq<Batch>,
    contents: Seq<Seq<(Seq<char>, ColumnData)>>,
)
    requires
        bs.len() == contents.len(),
        forall|j: int| 0 <= j < bs.len() ==> batch_columns(#[trigger] bs[j]) == contents[j],
    ensures
        apply_batches_cols(cols, bs) == apply_contents_cols(cols, contents),
    decreases bs.len(),
{
    if bs.len() > 0 {
        assert(bs.drop_first() =~= bs.subrange(1, bs.len() as int));
        assert(forall|j: int| 0 <= j < bs.len() - 1 ==> #[trigger] bs.drop_first()[j] == bs[j + 1]);
        assert(forall|j: int|
            0 <= j < contents.len() - 1 ==> #[trigger] contents.drop_first()[j] == contents[j + 1]);
        lemma_apply_contents_bridge(
            apply_batch_cols(cols, batch_columns(bs[0])),
            bs.drop_first(),
            contents.drop_first(),
        );
    }
}

proof fn lemma_apply_frame_bridge(
    ts: Seq<(Seq<char>, Seq<(Seq<char>, Seq<u32>)>)>,
    name: Seq<char>,
    bs: Seq<Batch>,
    contents: Seq<Seq<(Seq<char>, ColumnData)>>,
)
    requires
        bs.len() == contents.len(),
        forall|j: int| 0 <= j < bs.len() ==> batch_columns(#[trigger] bs[j]) == contents[j],
    ensures
        apply_frame_spec(ts, name, bs) == apply_frame_contents(ts, name, contents),
{
    if bs.len() > 0 {
        lemma_apply_contents_bridge(Seq::empty(), bs, contents);
        let ti = key_index(ts, name);
        if ti >= 0 {
            lemma_apply_contents_bridge(ts[ti].1, bs, contents);
        }
    }
}

proof fn lemma_load_frames_push(
    ts: Seq<(Seq<char>, Seq<(Seq<char>, Seq<u32>)>)>,
    fs: Seq<(Seq<char>, Seq<u8>)>,
    f: (Seq<char>, Seq<u8>),
)
    ensures
        load_frames_from(ts, fs.push(f)) == apply_frame_contents(
            load_frames_from(ts, fs),
            f.0,
            ipc_contents(f.1),
        ),
    decreases fs.len(),
{
    if fs.len() == 0 {
        assert(fs.push(f)[0] == f);
        assert(fs.push(f).drop_first() =~= Seq::<(Seq<char>, Seq<u8>)>::empty());
        assert(load_frames_from(ts, fs) == ts);
        assert(load_frames_from(
            apply_frame_contents(ts, f.0, ipc_contents(f.1)),
            Seq::<(Seq<char>, Seq<u8>)>::empty(),
        ) == apply_frame_contents(ts, f.0, ipc_contents(f.1)));
    } else {
        assert(fs.push(f)[0] == fs[0]);
        assert(fs.push(f).drop_first() =~= fs.drop_first().push(f));
        let step = apply_frame_contents(ts, fs[0].0, ipc_contents(fs[0].1));
        lemma_load_frames_push(step, fs.drop_first(), f);
        assert(load_frames_from(ts, fs.push(f)) == load_frames_from(
            step,
            fs.drop_first().push(f),
        ));
        assert(load_frames_from(ts, fs) == load_frames_from(step, fs.drop_first()));
    }
}

impl DataStore {
    /// Restores the store from an image: clears it, then reads the declared
    /// number of frames, bounds-checking every length before touching the
    /// bytes it frames; every failure carries the offset and size context a
    /// caller surfaces. Unlike ingestion, which coerces many column types,
    /// loading accepts only 32-bit float columns — the canonical stored type,
    /// and the only type a save writes; columns of any other type in a
    /// payload are dropped. On any failure the store is left cleared; the
    /// start time always reads as zero afterwards, since stored timestamps
    /// are already normalized. On success the count of ignored trailing bytes
    /// is returned: trailing bytes after the last frame are reported, never
    /// fatal.
    #[verifier::loop_isolation(false)]
    #[verifier::rlimit(80)]
    pub fn load_from_arrow(&mut self, bytes: &Vec<u8>) -> (r: Result<usize, LoadError>)
        ensures
            final(self)@.start_time == 0,
            final(self).wf(),
            r is Err ==> final(self)@.topics.len() == 0,
            (match parse_file(bytes@) {
                Err(es) => (r matches Err(e) && (issue_of(e) == es || e matches
                LoadError::BadPayload { .. })),
                Ok((fs, tr)) => (match r {
                    Ok(t) => t as int == tr && final(self)@.topics == load_frames_spec(fs) && (
                    forall|j: int| 0 <= j < fs.len() ==> ipc_clean((#[trigger] fs[j]).1)),
                    Err(e) => (e matches LoadError::BadPayload { topic, offset } && (exists|j: int|
                        0 <= j < fs.len() && (#[trigger] fs[j]).0 == topic@ && !ipc_clean(
                            fs[j].1,
                        ))),
                }),
            }),
            forall|ts: Seq<(Seq<char>, Seq<(Seq<char>, Seq<u32>)>)>, st: u32, pad: Seq<u8>|
                #[trigger] round_trip_source(ts, st, pad, bytes@) ==> (r matches Ok(t) && t as int
                    == pad.len() && final(self)@.topics == saved_form(ts)),
    {
        self.topics = Vec::new();
        self.start_time = 0;
        if bytes.len() < 8 {
            proof {
                lemma_parse_err_no_source(bytes@);
            }
            return Err(LoadError::TruncatedHeader { file_size: bytes.len() });
        }
        let s = bytes.as_slice();
        let count_u32 = u32_from_le_bytes(&s[0..4]);
        let count = count_u32 as usize;
        let mut topics: Vec<Topic> = Vec::new();
        let mut o: usize = 8;
        let mut k: usize = 0;
        let ghost mut done: Seq<(Seq<char>, Seq<u8>)> = Seq::empty();
        proof {
            assert(s@ == bytes@);
            match parse_topics(bytes@, 8, count as int) {
                Ok((fs, tr)) => {
                    assert(done + fs =~= fs);
                },
                Err(_) => {},
            }
            assert(topics_view(topics@) =~= Seq::<
                (Seq<char>, Seq<(Seq<char>, Seq<u32>)>),
            >::empty());
            assert(load_frames_spec(done) == topics_view(topics@));
            assert forall|ts: Seq<(Seq<char>, Seq<(Seq<char>, Seq<u32>)>)>, st: u32, pad: Seq<u8>|
                #[trigger] round_trip_source(ts, st, pad, bytes@) implies 0 <= saved_form(
                ts,
            ).len() == count && topics_view(topics@) == saved_form(ts).take(0) && done
                == save_frames(ts).take(0) by {
                lemma_parse_of_save(ts, st, pad, bytes@);
                assert(saved_form(ts).take(0) =~= Seq::<
                    (Seq<char>, Seq<(Seq<char>, Seq<u32>)>),
                >::empty());
                assert(save_frames(ts).take(0) =~= Seq::<(Seq<char>, Seq<u8>)>::empty());
            }
        }
        while k < count
            invariant
                k <= count,
                8 <= o <= bytes@.len(),
                done.len() == k,
                topics_wf(topics_view(topics@)),
                topics_view(topics@) == load_frames_spec(done),
                forall|j: int| 0 <= j < done.len() ==> ipc_clean((#[trigger] done[j]).1),
                (match parse_topics(bytes@, o as int, count - k) {
                    Ok((fs, tr)) => parse_file(bytes@) == Ok::<_, LoadIssue>((done + fs, tr)),
                    Err(e) => parse_file(bytes@) == Err::<(Seq<(Seq<char>, Seq<u8>)>, int), _>(e),
                }),
                forall|ts: Seq<(Seq<char>, Seq<(Seq<char>, Seq<u32>)>)>, st: u32, pad: Seq<u8>|
                    #[trigger] round_trip_source(ts, st, pad, bytes@) ==> k
                        <= saved_form(ts).len() == count && topics_view(topics@) == saved_form(
                        ts,
                    ).take(k as int) && done == save_frames(ts).take(k as int),
            decreases count - k,
        {
            let ghost topics0 = topics_view(topics@);
            if bytes.len() - o < 4 {
                proof {
                    lemma_parse_err_no_source(bytes@);
                }
                return Err(LoadError::TruncatedTopic { offset: o, file_size: bytes.len() });
            }
            let nl32 = u32_from_le_bytes(&s[o..o + 4]);
            let nl = nl32 as usize;
            let o2 = o + 4;
            if bytes.len() - o2 < nl {
                proof {
                    lemma_parse_err_no_source(bytes@);
                }
                return Err(LoadError::TruncatedTopic { offset: o2, file_size: bytes.len() });
            }
            let nb = vstd::slice::slice_to_vec(&s[o2..o2 + nl]);
            let ghost nbv = nb@;
            let name = match string_from_utf8(nb) {
                Some(n) => n,
                None => {
                    proof {
                        lemma_parse_err_no_source(bytes@);
                    }
                    return Err(LoadError::BadTopicName { offset: o2 });
                },
            };
            let o3 = o2 + nl;
            if bytes.len() - o3 < 8 {
                proof {
                    lemma_parse_err_no_source(bytes@);
                }
                return Err(LoadError::TruncatedTopic { offset: o3, file_size: bytes.len() });
            }
            let sz64 = u64_from_le_bytes(&s[o3..o3 + 8]);
            let o4 = o3 + 8;
            if sz64 > (bytes.len() - o4) as u64 {
                proof {
                    lemma_parse_err_no_source(bytes@);
                }
                return Err(
                    LoadError::PayloadOutOfBounds {
                        topic: name,
                        declared: sz64,
                        offset: o4,
                        file_size: bytes.len(),
                    },
                );
            }
            let sz = sz64 as usize;
            let payload = vstd::slice::slice_to_vec(&s[o4..o4 + sz]);
            let (batches, clean) = decode_batches(&payload);
            let ghost frame = (decode_utf8(nbv), bytes@.subrange(o4 as int, o4 as int + sz as int));
            proof {
                let oo = o as int;
                assert(nbv == bytes@.subrange(oo + 4, oo + 4 + nl as int));
                assert(nl as int == spec_u32_from_le_bytes(bytes@.subrange(oo, oo + 4)) as int);
                assert(sz as int == spec_u64_from_le_bytes(
                    bytes@.subrange(oo + 4 + nl as int, oo + 4 + nl as int + 8),
                ) as int);
                assert(payload@ == bytes@.subrange(o4 as int, o4 as int + sz as int));
                assert(name@ == decode_utf8(nbv));
                assert forall|ts: Seq<(Seq<char>, Seq<(Seq<char>, Seq<u32>)>)>, st: u32, pad: Seq<
                    u8,
                >|
                    #[trigger] round_trip_source(ts, st, pad, bytes@) implies payload@
                    == ipc_payload(kept_cols(retained_seq(ts)[k as int].1)) && k < saved_form(
                    ts,
                ).len() && clean && batches@.len() == 1 && batch_columns(batches@[0]) == f32_batch(
                    kept_cols(retained_seq(ts)[k as int].1),
                ) && topics_view(topics@) == saved_form(ts).take(k as int) && name@
                    == retained_seq(ts)[k as int].0 by {
                    lemma_parse_of_save(ts, st, pad, bytes@);
                    let sf = save_frames(ts);
                    match parse_topics(bytes@, o as int, count - k) {
                        Ok((fs, tr)) => {
                            assert(done + fs == sf);
                            assert(done == sf.take(k as int));
                            assert(fs[0] == sf[k as int]) by {
                                assert((done + fs)[k as int] == fs[k as int - done.len() as int]);
                            }
                            assert(fs[0] == frame);
                            assert(sf[k as int] == (
                                retained_seq(ts)[k as int].0,
                                ipc_payload(kept_cols(retained_seq(ts)[k as int].1)),
                            ));
                        },
                        Err(_) => {
                            assert(false);
                        },
                    }
                }
            }
            if !clean {
                proof {
                    match parse_topics(bytes@, o as int, count - k) {
                        Ok((fs_suf, tr2)) => {
                            assert(fs_suf[0] == frame);
                            assert((done + fs_suf)[k as int] == fs_suf[0]);
                            assert(!ipc_clean(frame.1));
                        },
                        Err(_) => {},
                    }
                    assert forall|
                        ts: Seq<(Seq<char>, Seq<(Seq<char>, Seq<u32>)>)>,
                        st: u32,
                        pad: Seq<u8>,
                    |
                        !(#[trigger] round_trip_source(ts, st, pad, bytes@)) by {
                        if round_trip_source(ts, st, pad, bytes@) {
                            assert(clean);
                        }
                    }
                }
                return Err(LoadError::BadPayload { topic: name, offset: o4 });
            }
            apply_frame(&mut topics, name, &batches);
            proof {
                let ghost done0 = done;
                done = done.push(frame);
                match parse_topics(bytes@, (o4 + sz) as int, count - k - 1) {
                    Ok((fs2, tr)) => {
                        assert(done + fs2 =~= done0 + (seq![frame] + fs2));
                    },
                    Err(_) => {},
                }
                // the frame lands exactly as the decoder's named output says
                assert(frame.1 == payload@);
                assert(ipc_clean(frame.1));
                lemma_apply_frame_bridge(topics0, name@, batches@, ipc_contents(payload@));
                lemma_load_frames_push(Seq::empty(), done0, frame);
                assert(topics_view(topics@) == load_frames_spec(done));
                assert forall|ts: Seq<(Seq<char>, Seq<(Seq<char>, Seq<u32>)>)>, st: u32, pad: Seq<
                    u8,
                >|
                    #[trigger] round_trip_source(ts, st, pad, bytes@) implies k + 1 <= saved_form(
                    ts,
                ).len() == count && topics_view(topics@) == saved_form(ts).take(k as int + 1)
                    && done == save_frames(ts).take(k as int + 1) by {
                    lemma_parse_of_save(ts, st, pad, bytes@);
                    lemma_retained_wf(ts);
                    let rts = retained_seq(ts);
                    let kept = kept_cols(rts[k as int].1);
                    lemma_kept_cols_unique(rts[k as int].1);
                    let sv = saved_form(ts);
                    assert(sv[k as int] == (rts[k as int].0, kept));
                    assert(unique_keys(sv)) by {
                        assert forall|x: int, y: int| 0 <= x < y < sv.len() implies (
                        #[trigger] sv[x]).0 != (#[trigger] sv[y]).0 by {
                            assert(sv[x].0 == rts[x].0 && sv[y].0 == rts[y].0);
                        }
                    }
                    assert(!has_key(topics0, name@)) by {
                        if has_key(topics0, name@) {
                            let x = choose|x: int|
                                0 <= x < topics0.len() && (#[trigger] topics0[x]).0 == name@;
                            assert(topics0[x] == sv.take(k as int)[x]);
                            assert(sv[x].0 == sv[k as int].0);
                        }
                    }
                    lemma_key_index_has_key(topics0, name@);
                    assert(key_index(topics0, name@) < 0);
                    assert(batches@.drop_first() =~= Seq::<Batch>::empty());
                    let mid = apply_batch_cols(Seq::empty(), batch_columns(batches@[0]));
                    assert(apply_batches_cols(Seq::empty(), batches@) == apply_batches_cols(
                        mid,
                        batches@.drop_first(),
                    ));
                    assert(apply_batches_cols(mid, Seq::<Batch>::empty()) == mid);
                    assert(batch_columns(batches@[0]) == f32_batch(kept));
                    assert(apply_batches_cols(Seq::empty(), batches@) == apply_batch_cols(
                        Seq::empty(),
                        f32_batch(kept),
                    ));
                    assert(forall|j: int|
                        0 <= j < kept.len() ==> !has_key(
                            Seq::<(Seq<char>, Seq<u32>)>::empty(),
                            (#[trigger] kept[j]).0,
                        ));
                    lemma_apply_fresh(Seq::empty(), kept);
                    assert(Seq::<(Seq<char>, Seq<u32>)>::empty() + kept =~= kept);
                    assert(topics_view(topics@) == topics0.push((name@, kept)));
                    assert(sv.take(k as int + 1) =~= sv.take(k as int).push(sv[k as int]));
                    assert(save_frames(ts).take(k as int + 1) =~= save_frames(ts).take(
                        k as int,
                    ).push(save_frames(ts)[k as int]));
                    assert(done == done0.push(save_frames(ts)[k as int]));
                }
            }
            o = o4 + sz;
            k = k + 1;
        }
        let trailing = bytes.len() - o;
        self.topics = topics;
        self.start_time = 0;
        proof {
            assert(parse_topics(bytes@, o as int, 0) == Ok::<_, LoadIssue>((
                Seq::<(Seq<char>, Seq<u8>)>::empty(),
                bytes@.len() - o,
            )));
            assert(done + Seq::<(Seq<char>, Seq<u8>)>::empty() =~= done);
            assert forall|ts: Seq<(Seq<char>, Seq<(Seq<char>, Seq<u32>)>)>, st: u32, pad: Seq<u8>|
                #[trigger] round_trip_source(ts, st, pad, bytes@) implies trailing as int
                == pad.len() && topics_view(topics@) == saved_form(ts) by {
                lemma_parse_of_save(ts, st, pad, bytes@);
                assert(parse_file(bytes@) == Ok::<_, LoadIssue>((done, bytes@.len() - o)));
                assert(saved_form(ts).take(count as int) =~= saved_form(ts));
            }
        }
        Ok(trailing)
    }
}

/// A name occurs among the entries.
pub open spec fn has_key<T>(s: Seq<(Seq<char>, T)>, name: Seq<char>) -> bool {
    exists|i: int| 0 <= i < s.len() && (#[trigger] s[i]).0 == name
}

proof fn lemma_key_index_has_key<T>(s: Seq<(Seq<char>, T)>, name: Seq<char>)
    ensures
        (key_index(s, name) >= 0) == has_key(s, name),
{
    lemma_key_index_props(s, name);
    if key_index(s, name) >= 0 {
        assert(s[key_index(s, name)].0 == name);
    }
}

/// Splitting a non-empty entry list at its head.
proof fn lemma_has_key_cons<T>(head: (Seq<char>, T), rest: Seq<(Seq<char>, T)>, n: Seq<char>)
    ensures
        has_key(seq![head] + rest, n) <==> (head.0 == n || has_key(rest, n)),
{
    let s = seq![head] + rest;
    if has_key(s, n) {
        let i = choose|i: int| 0 <= i < s.len() && (#[trigger] s[i]).0 == n;
        if i > 0 {
            assert(rest[i - 1] == s[i]);
            assert((rest[i - 1]).0 == n);
        }
    }
    if head.0 == n {
        assert((s[0]).0 == n);
    }
    if has_key(rest, n) {
        let j = choose|j: int| 0 <= j < rest.len() && (#[trigger] rest[j]).0 == n;
        assert(s[j + 1] == rest[j]);
        assert((s[j + 1]).0 == n);
    }
}

/// Uniqueness across a head split.
proof fn lemma_unique_cons<T>(head: (Seq<char>, T), rest: Seq<(Seq<char>, T)>)
    ensures
        unique_keys(seq![head] + rest) <==> (unique_keys(rest) && !has_key(rest, head.0)),
{
    let s = seq![head] + rest;
    if unique_keys(s) {
        assert forall|i: int, j: int| 0 <= i < j < rest.len() implies (#[trigger] rest[i]).0 != (
        #[trigger] rest[j]).0 by {
            assert(rest[i] == s[i + 1] && rest[j] == s[j + 1]);
        }
        if has_key(rest, head.0) {
            let j = choose|j: int| 0 <= j < rest.len() && (#[trigger] rest[j]).0 == head.0;
            assert((s[0]).0 == (s[j + 1]).0);
            assert(false);
        }
    }
    if unique_keys(rest) && !has_key(rest, head.0) {
        assert forall|i: int, j: int| 0 <= i < j < s.len() implies (#[trigger] s[i]).0 != (
        #[trigger] s[j]).0 by {
            if i == 0 {
                assert(s[j] == rest[j - 1]);
                if head.0 == (rest[j - 1]).0 {
                    assert((rest[j - 1]).0 == head.0);
                    assert(has_key(rest, head.0));
                }
            } else {
                assert(s[i] == rest[i - 1] && s[j] == rest[j - 1]);
            }
        }
    }
}

proof fn lemma_insert_sorted_props(sorted: Seq<(Seq<char>, Seq<u32>)>, c: (Seq<char>, Seq<u32>))
    ensures
        insert_sorted(sorted, c).len() == sorted.len() + 1,
        forall|n: Seq<char>|
            #[trigger] has_key(insert_sorted(sorted, c), n) <==> (has_key(sorted, n) || n == c.0),
        unique_keys(sorted) && !has_key(sorted, c.0) ==> unique_keys(insert_sorted(sorted, c)),
    decreases sorted.len(),
{
    let ins = insert_sorted(sorted, c);
    if sorted.len() == 0 {
        assert(ins =~= seq![c] + Seq::<(Seq<char>, Seq<u32>)>::empty());
        assert forall|n: Seq<char>|
            #[trigger] has_key(ins, n) <==> (has_key(sorted, n) || n == c.0) by {
            lemma_has_key_cons(c, Seq::<(Seq<char>, Seq<u32>)>::empty(), n);
            assert(!has_key(Seq::<(Seq<char>, Seq<u32>)>::empty(), n));
            assert(!has_key(sorted, n));
        }
        lemma_unique_cons(c, Seq::<(Seq<char>, Seq<u32>)>::empty());
    } else if chars_lt(c.0, sorted[0].0) {
        assert(ins == seq![c] + sorted);
        assert forall|n: Seq<char>|
            #[trigger] has_key(ins, n) <==> (has_key(sorted, n) || n == c.0) by {
            lemma_has_key_cons(c, sorted, n);
        }
        if unique_keys(sorted) && !has_key(sorted, c.0) {
            lemma_unique_cons(c, sorted);
        }
    } else {
        let rest = sorted.drop_first();
        assert(sorted =~= seq![sorted[0]] + rest);
        lemma_insert_sorted_props(rest, c);
        let rins = insert_sorted(rest, c);
        assert(ins == seq![sorted[0]] + rins);
        assert forall|n: Seq<char>|
            #[trigger] has_key(ins, n) <==> (has_key(sorted, n) || n == c.0) by {
            lemma_has_key_cons(sorted[0], rins, n);
            lemma_has_key_cons(sorted[0], rest, n);
            assert(has_key(rins, n) <==> (has_key(rest, n) || n == c.0));
        }
        if unique_keys(sorted) && !has_key(sorted, c.0) {
            lemma_unique_cons(sorted[0], rest);
            lemma_has_key_cons(sorted[0], rest, c.0);
            assert(unique_keys(rest) && !has_key(rest, c.0));
            assert(unique_keys(rins));
            assert(!has_key(rins, sorted[0].0)) by {
                assert(has_key(rins, sorted[0].0) <==> (has_key(rest, sorted[0].0) || sorted[0].0
                    == c.0));
            }
            lemma_unique_cons(sorted[0], rins);
        }
    }
}

proof fn lemma_sort_from_props(acc: Seq<(Seq<char>, Seq<u32>)>, cols: Seq<(Seq<char>, Seq<u32>)>)
    requires
        unique_keys(acc),
        unique_keys(cols),
        forall|j: int| 0 <= j < cols.len() ==> !has_key(acc, (#[trigger] cols[j]).0),
    ensures
        unique_keys(sort_cols_from(acc, cols)),
        forall|n: Seq<char>|
            #[trigger] has_key(sort_cols_from(acc, cols), n) <==> (has_key(acc, n) || has_key(
                cols,
                n,
            )),
    decreases cols.len(),
{
    if cols.len() == 0 {
        assert(sort_cols_from(acc, cols) == acc);
        assert forall|n: Seq<char>|
            #[trigger] has_key(sort_cols_from(acc, cols), n) <==> (has_key(acc, n) || has_key(
                cols,
                n,
            )) by {
            if has_key(cols, n) {
                let i = choose|i: int| 0 <= i < cols.len() && (#[trigger] cols[i]).0 == n;
                assert(false);
            }
        }
    } else {
        let c = cols[0];
        let rest = cols.drop_first();
        assert(cols =~= seq![c] + rest);
        lemma_unique_cons(c, rest);
        lemma_insert_sorted_props(acc, c);
        let acc2 = insert_sorted(acc, c);
        assert(!has_key(acc, c.0));
        assert forall|j: int| 0 <= j < rest.len() implies !has_key(
            acc2,
            (#[trigger] rest[j]).0,
        ) by {
            assert(rest[j] == cols[j + 1]);
            assert(has_key(acc2, rest[j].0) <==> (has_key(acc, rest[j].0) || rest[j].0 == c.0));
            assert(!has_key(acc, cols[j + 1].0));
            assert(!has_key(rest, c.0));
            if rest[j].0 == c.0 {
                assert(has_key(rest, c.0));
            }
        }
        lemma_sort_from_props(acc2, rest);
        assert forall|n: Seq<char>|
            #[trigger] has_key(sort_cols_from(acc, cols), n) <==> (has_key(acc, n) || has_key(
                cols,
                n,
            )) by {
            lemma_has_key_cons(c, rest, n);
            assert(has_key(sort_cols_from(acc2, rest), n) <==> (has_key(acc2, n) || has_key(
                rest,
                n,
            )));
            assert(has_key(acc2, n) <==> (has_key(acc, n) || n == c.0));
        }
    }
}

proof fn lemma_keep_props(cols: Seq<(Seq<char>, Seq<u32>)>)
    requires
        unique_keys(cols),
    ensures
        unique_keys(keep_nonempty(cols)),
        forall|n: Seq<char>| #[trigger] has_key(keep_nonempty(cols), n) ==> has_key(cols, n),
    decreases cols.len(),
{
    if cols.len() > 0 {
        let rest = cols.drop_first();
        assert(cols =~= seq![cols[0]] + rest);
        lemma_unique_cons(cols[0], rest);
        lemma_keep_props(rest);
        let kr = keep_nonempty(rest);
        assert forall|n: Seq<char>| #[trigger] has_key(keep_nonempty(cols), n) implies has_key(
            cols,
            n,
        ) by {
            lemma_has_key_cons(cols[0], rest, n);
            if cols[0].1.len() > 0 {
                lemma_has_key_cons(cols[0], kr, n);
                assert(keep_nonempty(cols) == seq![cols[0]] + kr);
            }
        }
        if cols[0].1.len() > 0 {
            assert(!has_key(kr, cols[0].0)) by {
                if has_key(kr, cols[0].0) {
                    assert(has_key(rest, cols[0].0));
                }
            }
            lemma_unique_cons(cols[0], kr);
            assert(keep_nonempty(cols) == seq![cols[0]] + kr);
        }
    }
}

/// Column uniqueness survives the save-side sorting and filtering.
proof fn lemma_kept_cols_unique(cols: Seq<(Seq<char>, Seq<u32>)>)
    requires
        unique_keys(cols),
    ensures
        unique_keys(kept_cols(cols)),
{
    assert(forall|j: int|
        0 <= j < cols.len() ==> !has_key(
            Seq::<(Seq<char>, Seq<u32>)>::empty(),
            (#[trigger] cols[j]).0,
        ));
    lemma_sort_from_props(Seq::empty(), cols);
    lemma_keep_props(sort_cols_from(Seq::empty(), cols));
}

/// Well-formedness survives the retention filter.
proof fn lemma_retained_wf(ts: Seq<(Seq<char>, Seq<(Seq<char>, Seq<u32>)>)>)
    requires
        topics_wf(ts),
    ensures
        unique_keys(retained_seq(ts)),
        forall|k: int|
            0 <= k < retained_seq(ts).len() ==> unique_keys((#[trigger] retained_seq(ts)[k]).1),
        forall|n: Seq<char>| #[trigger] has_key(retained_seq(ts), n) ==> has_key(ts, n),
    decreases ts.len(),
{
    if ts.len() > 0 {
        let rest = ts.drop_first();
        assert(ts =~= seq![ts[0]] + rest);
        lemma_unique_cons(ts[0], rest);
        assert(topics_wf(rest)) by {
            assert(forall|i: int| 0 <= i < rest.len() ==> #[trigger] rest[i] == ts[i + 1]);
        }
        lemma_retained_wf(rest);
        let rr = retained_seq(rest);
        assert forall|n: Seq<char>| #[trigger] has_key(retained_seq(ts), n) implies has_key(
            ts,
            n,
        ) by {
            lemma_has_key_cons(ts[0], rest, n);
            if retained(ts[0]) {
                lemma_has_key_cons(ts[0], rr, n);
                assert(retained_seq(ts) == seq![ts[0]] + rr);
            }
        }
        if retained(ts[0]) {
            assert(retained_seq(ts) == seq![ts[0]] + rr);
            assert(!has_key(rr, ts[0].0)) by {
                if has_key(rr, ts[0].0) {
                    assert(has_key(rest, ts[0].0));
                }
            }
            lemma_unique_cons(ts[0], rr);
            assert forall|k: int| 0 <= k < retained_seq(ts).len() implies unique_keys(
                (#[trigger] retained_seq(ts)[k]).1,
            ) by {
                if k == 0 {
                    assert(retained_seq(ts)[0] == ts[0]);
                    assert(unique_keys(ts[0].1));
                } else {
                    assert(retained_seq(ts)[k] == rr[k - 1]);
                }
            }
        }
    }
}

/// Loading a batch of float columns whose names are new and distinct lands
/// them unchanged.
proof fn lemma_apply_fresh(
    cols: Seq<(Seq<char>, Seq<u32>)>,
    c: Seq<(Seq<char>, Seq<u32>)>,
)
    requires
        unique_keys(c),
        forall|j: int| 0 <= j < c.len() ==> !has_key(cols, (#[trigger] c[j]).0),
    ensures
        apply_batch_cols(cols, f32_batch(c)) == cols + c,
    decreases c.len(),
{
    if c.len() == 0 {
        assert(f32_batch(c).len() == 0);
        assert(cols + c =~= cols);
    } else {
        let fb = f32_batch(c);
        assert(fb[0] == (c[0].0, ColumnData::F32(c[0].1)));
        lemma_key_index_has_key(cols, c[0].0);
        assert(key_index(cols, c[0].0) < 0);
        let cols2 = append_into(cols, c[0].0, Some(c[0].1));
        assert(cols2 == cols.push((c[0].0, c[0].1)));
        assert(cols2 == cols.push(c[0])) by {
            assert((c[0].0, c[0].1) == c[0]);
        }
        let rest = c.drop_first();
        assert(unique_keys(rest)) by {
            assert(forall|i: int, j: int|
                0 <= i < j < rest.len() ==> (#[trigger] rest[i]).0 == c[i + 1].0 && (
                #[trigger] rest[j]).0 == c[j + 1].0);
        }
        assert forall|j: int| 0 <= j < rest.len() implies !has_key(cols2, (#[trigger] rest[j]).0) by {
            assert(rest[j] == c[j + 1]);
            if has_key(cols2, rest[j].0) {
                let i = choose|i: int| 0 <= i < cols2.len() && cols2[i].0 == rest[j].0;
                if i < cols.len() {
                    assert(cols[i].0 == c[j + 1].0);
                } else {
                    assert(cols2[i] == c[0]);
                }
            }
        }
        lemma_apply_fresh(cols2, rest);
        assert(fb.drop_first() =~= f32_batch(rest));
        assert(cols2 + rest =~= cols + c);
    }
}

/// What a save image reloads to: the retained topics, each reduced to its
/// sorted non-empty columns; the start time is not part of it.
pub open spec fn saved_form(
    ts: Seq<(Seq<char>, Seq<(Seq<char>, Seq<u32>)>)>,
) -> Seq<(Seq<char>, Seq<(Seq<char>, Seq<u32>)>)> {
    retained_seq(ts).map_values(
        |t: (Seq<char>, Seq<(Seq<char>, Seq<u32>)>)| (t.0, kept_cols(t.1)),
    )
}

/// The frames a save image holds.
pub open spec fn save_frames(
    ts: Seq<(Seq<char>, Seq<(Seq<char>, Seq<u32>)>)>,
) -> Seq<(Seq<char>, Seq<u8>)> {
    retained_seq(ts).map_values(
        |t: (Seq<char>, Seq<(Seq<char>, Seq<u32>)>)| (t.0, ipc_payload(kept_cols(t.1))),
    )
}

/// The machine limits under which a save image parses back exactly: frame
/// counts and name lengths fit their length fields.
pub open spec fn file_bounds(ts: Seq<(Seq<char>, Seq<(Seq<char>, Seq<u32>)>)>) -> bool {
    &&& retained_seq(ts).len() < 0x1_0000_0000
    &&& forall|i: int|
        0 <= i < retained_seq(ts).len() ==> encode_utf8(
            (#[trigger] retained_seq(ts)[i]).0,
        ).len() < 0x1_0000_0000
    &&& forall|i: int|
        0 <= i < retained_seq(ts).len() ==> ipc_payload(
            kept_cols((#[trigger] retained_seq(ts)[i]).1),
        ).len() < 0x1_0000_0000_0000_0000
}

/// A well-formed store with bounded names is a round-trip source of the
/// bytes its save produces, also when trailing bytes `pad` follow the image.
pub open spec fn round_trip_source(
    ts: Seq<(Seq<char>, Seq<(Seq<char>, Seq<u32>)>)>,
    st: u32,
    pad: Seq<u8>,
    bytes: Seq<u8>,
) -> bool {
    &&& (match save_result(ts, st) {
        Ok(img) => bytes == img + pad,
        Err(_) => false,
    })
    &&& topics_wf(ts)
    &&& file_bounds(ts)
}

/// A byte stream that does not even frame correctly is no padded save image.
proof fn lemma_parse_err_no_source(bytes: Seq<u8>)
    requires
        parse_file(bytes) is Err,
    ensures
        forall|ts: Seq<(Seq<char>, Seq<(Seq<char>, Seq<u32>)>)>, st: u32, pad: Seq<u8>|
            !(#[trigger] round_trip_source(ts, st, pad, bytes)),
{
    assert forall|ts: Seq<(Seq<char>, Seq<(Seq<char>, Seq<u32>)>)>, st: u32, pad: Seq<u8>|
        !(#[trigger] round_trip_source(ts, st, pad, bytes)) by {
        if round_trip_source(ts, st, pad, bytes) {
            lemma_parse_of_save(ts, st, pad, bytes);
        }
    }
}

/// A slice of a window: cutting inside the window of `bytes` that holds
/// `body` after offset `o` cuts the same slice out of `body`.
proof fn lemma_slice_of_window(bytes: Seq<u8>, o: int, body: Seq<u8>, a: int, b: int)
    requires
        0 <= o,
        o + body.len() <= bytes.len(),
        bytes.subrange(o, o + body.len()) == body,
        0 <= a <= b <= body.len(),
    ensures
        bytes.subrange(o + a, o + b) =~= body.subrange(a, b),
{
    assert forall|j: int| 0 <= j < b - a implies bytes.subrange(o + a, o + b)[j] == body.subrange(
        a,
        b,
    )[j] by {
        assert(bytes.subrange(o + a, o + b)[j] == bytes[o + a + j]);
        assert(body.subrange(a, b)[j] == body[a + j]);
        assert(bytes.subrange(o, o + body.len())[a + j] == bytes[o + (a + j)]);
        assert(o + a + j == o + (a + j));
    }
}

/// Parsing inverts the topic encoding: a byte stream that holds the frames
/// of `rts` in a window parses from there into exactly those frames, with
/// everything past the window trailing.
proof fn lemma_parse_encode_topics(
    bytes: Seq<u8>,
    o: int,
    rts: Seq<(Seq<char>, Seq<(Seq<char>, Seq<u32>)>)>,
    body: Seq<u8>,
)
    requires
        0 <= o,
        o + body.len() <= bytes.len(),
        encode_topics(rts) == Ok::<Seq<u8>, SaveError>(body),
        bytes.subrange(o, o + body.len()) == body,
        forall|i: int|
            0 <= i < rts.len() ==> encode_utf8((#[trigger] rts[i]).0).len() < 0x1_0000_0000,
        forall|i: int|
            0 <= i < rts.len() ==> ipc_payload(kept_cols((#[trigger] rts[i]).1)).len()
                < 0x1_0000_0000_0000_0000,
    ensures
        parse_topics(bytes, o, rts.len() as int) == Ok::<_, LoadIssue>(
            (
                rts.map_values(
                    |t: (Seq<char>, Seq<(Seq<char>, Seq<u32>)>)| (t.0, ipc_payload(kept_cols(t.1))),
                ),
                bytes.len() - (o + body.len()),
            ),
        ),
    decreases rts.len(),
{
    vstd::bytes::lemma_auto_spec_u32_to_from_le_bytes();
    vstd::bytes::lemma_auto_spec_u64_to_from_le_bytes();
    let fmap = |t: (Seq<char>, Seq<(Seq<char>, Seq<u32>)>)| (t.0, ipc_payload(kept_cols(t.1)));
    assert(bytes.subrange(o, o + body.len()).len() == body.len());
    if rts.len() == 0 {
        assert(body.len() == 0);
        assert(rts.map_values(fmap) =~= Seq::<(Seq<char>, Seq<u8>)>::empty());
    } else {
        let t = rts[0];
        let rest = rts.drop_first();
        let rest_body = match encode_topics(rest) {
            Ok(b) => b,
            Err(_) => Seq::empty(),
        };
        assert(encode_topics(rest) == Ok::<Seq<u8>, SaveError>(rest_body));
        let p1 = spec_u32_to_le_bytes(encode_utf8(t.0).len() as u32);
        let p2 = encode_utf8(t.0);
        let payload = ipc_payload(kept_cols(t.1));
        let p3 = spec_u64_to_le_bytes(payload.len() as u64);
        let fb = frame_bytes(t.0, payload);
        assert(fb == p1 + p2 + p3 + payload);
        assert(body == fb + rest_body);
        let nl = p2.len() as int;
        let pl = payload.len() as int;
        assert(p1.len() == 4 && p3.len() == 8);
        assert(fb.len() == 12 + nl + pl);
        assert(body.len() == fb.len() + rest_body.len());
        // the four parts of the frame, as windows of `body`
        assert(body.subrange(0, 4) =~= p1) by {
            assert forall|j: int| 0 <= j < 4 implies body.subrange(0, 4)[j] == p1[j] by {
                assert(body.subrange(0, 4)[j] == body[0 + j]);
                assert((fb + rest_body)[j] == fb[j]);
                assert((p1 + p2 + p3 + payload)[j] == ((p1 + p2) + p3)[j]);
                assert(((p1 + p2) + p3)[j] == (p1 + p2)[j]);
                assert((p1 + p2)[j] == p1[j]);
            }
        }
        assert(body.subrange(4, 4 + nl) =~= p2) by {
            assert forall|j: int| 0 <= j < nl implies body.subrange(4, 4 + nl)[j] == p2[j] by {
                assert(body.subrange(4, 4 + nl)[j] == body[4 + j]);
                assert((fb + rest_body)[4 + j] == fb[4 + j]);
                assert((p1 + p2 + p3 + payload)[4 + j] == ((p1 + p2) + p3)[4 + j]);
                assert(((p1 + p2) + p3)[4 + j] == (p1 + p2)[4 + j]);
                assert((p1 + p2)[4 + j] == p2[4 + j - 4]);
                assert(4 + j - 4 == j);
            }
        }
        assert(body.subrange(4 + nl, 4 + nl + 8) =~= p3) by {
            assert forall|j: int| 0 <= j < 8 implies body.subrange(4 + nl, 4 + nl + 8)[j] == p3[j] by {
                assert(body.subrange(4 + nl, 4 + nl + 8)[j] == body[4 + nl + j]);
                assert((fb + rest_body)[4 + nl + j] == fb[4 + nl + j]);
                assert((p1 + p2 + p3 + payload)[4 + nl + j] == ((p1 + p2) + p3)[4 + nl + j]);
                assert(((p1 + p2) + p3)[4 + nl + j] == p3[4 + nl + j - (4 + nl)]);
                assert(4 + nl + j - (4 + nl) == j);
            }
        }
        assert(body.subrange(12 + nl, 12 + nl + pl) =~= payload) by {
            assert forall|j: int| 0 <= j < pl implies body.subrange(12 + nl, 12 + nl + pl)[j]
                == payload[j] by {
                assert(body.subrange(12 + nl, 12 + nl + pl)[j] == body[12 + nl + j]);
                assert((fb + rest_body)[12 + nl + j] == fb[12 + nl + j]);
                assert((p1 + p2 + p3 + payload)[12 + nl + j] == payload[12 + nl + j - (12 + nl)]);
                assert(12 + nl + j - (12 + nl) == j);
            }
        }
        assert(body.subrange(fb.len() as int, body.len() as int) =~= rest_body) by {
            assert forall|j: int| 0 <= j < rest_body.len() implies body.subrange(
                fb.len() as int,
                body.len() as int,
            )[j] == rest_body[j] by {
                assert(body.subrange(fb.len() as int, body.len() as int)[j] == body[fb.len() + j]);
                assert((fb + rest_body)[fb.len() + j] == rest_body[fb.len() + j - fb.len()]);
                assert(fb.len() + j - fb.len() == j);
            }
        }
        // lift the windows to `bytes` at offset `o`
        lemma_slice_of_window(bytes, o, body, 0, 4);
        lemma_slice_of_window(bytes, o, body, 4, 4 + nl);
        lemma_slice_of_window(bytes, o, body, 4 + nl, 4 + nl + 8);
        lemma_slice_of_window(bytes, o, body, 12 + nl, 12 + nl + pl);
        lemma_slice_of_window(bytes, o, body, fb.len() as int, body.len() as int);
        assert(bytes.subrange(o + 0, o + 4) == bytes.subrange(o, o + 4));
        assert(spec_u32_from_le_bytes(bytes.subrange(o, o + 4)) == encode_utf8(t.0).len() as u32);
        assert(spec_u32_from_le_bytes(bytes.subrange(o, o + 4)) as int == nl);
        assert(o + 4 + nl <= bytes.len());
        let nb = bytes.subrange(o + 4, o + 4 + nl);
        assert(nb == p2);
        vstd::utf8::encode_utf8_valid_utf8(t.0);
        assert(valid_utf8(nb));
        vstd::utf8::encode_utf8_decode_utf8(t.0);
        assert(decode_utf8(nb) == t.0);
        assert(o + (4 + nl) == o + 4 + nl && o + (4 + nl + 8) == o + 4 + nl + 8);
        assert(spec_u64_from_le_bytes(bytes.subrange(o + 4 + nl, o + 4 + nl + 8)) as int == pl);
        let po = o + 4 + nl + 8;
        assert(o + (12 + nl) == po && o + (12 + nl + pl) == po + pl);
        assert(bytes.subrange(po, po + pl) == payload);
        assert(pl <= bytes.len() - po);
        assert(o + fb.len() == po + pl && (po + pl) + rest_body.len() == o + body.len());
        assert(bytes.subrange(po + pl, (po + pl) + rest_body.len()) == rest_body);
        assert(forall|i: int| 0 <= i < rest.len() ==> #[trigger] rest[i] == rts[i + 1]);
        lemma_parse_encode_topics(bytes, po + pl, rest, rest_body);
        assert(parse_topics(bytes, po + pl, rest.len() as int) == Ok::<_, LoadIssue>(
            (rest.map_values(fmap), bytes.len() - (o + body.len())),
        ));
        assert(seq![(t.0, payload)] + rest.map_values(fmap) =~= rts.map_values(fmap));
        assert(rts.len() as int - 1 == rest.len() as int);
    }
}

/// Parsing inverts a successful save: the image, with any trailing bytes
/// after it, parses into exactly the saved frames, and only the trailing
/// bytes remain.
proof fn lemma_parse_of_save(
    ts: Seq<(Seq<char>, Seq<(Seq<char>, Seq<u32>)>)>,
    st: u32,
    pad: Seq<u8>,
    bytes: Seq<u8>,
)
    requires
        (match save_result(ts, st) {
            Ok(img) => bytes == img + pad,
            Err(_) => false,
        }),
        file_bounds(ts),
    ensures
        parse_file(bytes) == Ok::<_, LoadIssue>((save_frames(ts), pad.len() as int)),
        bytes.len() >= 8,
        spec_u32_from_le_bytes(bytes.subrange(0, 4)) as int == retained_seq(ts).len(),
        save_frames(ts).len() == retained_seq(ts).len(),
        saved_form(ts).len() == retained_seq(ts).len(),
{
    vstd::bytes::lemma_auto_spec_u32_to_from_le_bytes();
    let rts = retained_seq(ts);
    let body = match encode_topics(rts) {
        Ok(b) => b,
        Err(_) => Seq::empty(),
    };
    assert(encode_topics(rts) == Ok::<Seq<u8>, SaveError>(body));
    let header = spec_u32_to_le_bytes(rts.len() as u32) + spec_u32_to_le_bytes(st);
    assert(bytes == (header + body) + pad);
    assert(bytes.len() == 8 + body.len() + pad.len());
    assert(bytes.subrange(0, 4) =~= spec_u32_to_le_bytes(rts.len() as u32)) by {
        assert forall|j: int| 0 <= j < 4 implies bytes.subrange(0, 4)[j] == spec_u32_to_le_bytes(
            rts.len() as u32,
        )[j] by {
            assert(bytes.subrange(0, 4)[j] == bytes[0 + j]);
            assert(((header + body) + pad)[j] == (header + body)[j]);
            assert((header + body)[j] == header[j]);
            assert(header[j] == spec_u32_to_le_bytes(rts.len() as u32)[j]);
        }
    }
    assert(spec_u32_from_le_bytes(bytes.subrange(0, 4)) as int == rts.len() as int);
    assert(bytes.subrange(8, 8 + body.len() as int) =~= body) by {
        assert forall|j: int| 0 <= j < body.len() implies bytes.subrange(8, 8 + body.len() as int)[j]
            == body[j] by {
            assert(bytes.subrange(8, 8 + body.len() as int)[j] == bytes[8 + j]);
            assert(((header + body) + pad)[8 + j] == (header + body)[8 + j]);
            assert((header + body)[8 + j] == body[8 + j - 8]);
            assert(8 + j - 8 == j);
        }
    }
    lemma_parse_encode_topics(bytes, 8, rts, body);
    assert(bytes.len() - (8 + body.len()) == pad.len());
}

} // verus!
