//! Type-coercing columnar store: a mapping from topic names to named columns
//! of 32-bit sample words, fed by decoded batches. Every incoming column is
//! coerced to 32-bit float samples; a column named `"timestamp"` of 64-bit
//! integers is normalized from microsecond epoch time to seconds relative to
//! the store's start time.

use vstd::prelude::*;

use std::collections::hash_map::DefaultHasher;
use std::hash::Hasher;
use vstd::std_specs::hash::DefaultHasherAdditionalSpecFns;

use crate::columnar::{
    Batch, ColumnData, batch_columns, bits_of_f64, bits_of_i64, bits_of_u64, f32_word_of_f64,
    f32_word_of_i64, f32_word_of_u64, norm_bits_i64, norm_bits_u64, norm_word_i64, norm_word_u64,
    rb_col_bool, rb_col_f32, rb_col_f64, rb_col_i16, rb_col_i32, rb_col_i64, rb_col_i8, rb_col_u16,
    rb_col_u32, rb_col_u64, rb_col_u8, rb_col_utf8, rb_col_name, rb_num_columns, unit_bits_of_hash,
    unit_word_of_hash,
};
use crate::interp::{InterpResult, InterpolationMode, interp_spec, interpolate_value, sorted_times};
use crate::receiver::{DataMessage, TimelineRange};
use crate::strutil::{chars_lt, nat_lt, natural_compare, str_eq, str_lt};

verus! {

/// The word of the 32-bit float one.
pub const F32_ONE_WORD: u32 = 0x3F80_0000;

/// The word of the canonical quiet 32-bit float NaN, stored for absent text.
pub const F32_NAN_WORD: u32 = 0x7FC0_0000;

/// The word of the negative 32-bit float zero; together with zero itself it
/// reads as an unset start time.
pub const F32_NEG_ZERO_WORD: u32 = 0x8000_0000;

/// One named column of sample words.
#[derive(Clone)]
pub struct Column {
    pub name: String,
    pub values: Vec<u32>,
}

/// One topic: a named set of columns.
#[derive(Clone)]
pub struct Topic {
    pub name: String,
    pub columns: Vec<Column>,
}

/// The store: topics in arrival order, and the frozen start time (the word of
/// a 32-bit float, zero until the first usable metadata event).
#[derive(Clone)]
pub struct DataStore {
    pub topics: Vec<Topic>,
    pub start_time: u32,
}

impl View for Column {
    type V = (Seq<char>, Seq<u32>);

    open spec fn view(&self) -> Self::V {
        (self.name@, self.values@)
    }
}

/// The views of a list of columns.
pub open spec fn cols_view(cs: Seq<Column>) -> Seq<(Seq<char>, Seq<u32>)> {
    cs.map_values(|c: Column| c@)
}

impl View for Topic {
    type V = (Seq<char>, Seq<(Seq<char>, Seq<u32>)>);

    open spec fn view(&self) -> Self::V {
        (self.name@, cols_view(self.columns@))
    }
}

/// The views of a list of topics.
pub open spec fn topics_view(ts: Seq<Topic>) -> Seq<(Seq<char>, Seq<(Seq<char>, Seq<u32>)>)> {
    ts.map_values(|t: Topic| t@)
}

/// The mathematical content of a store.
pub struct StoreView {
    pub topics: Seq<(Seq<char>, Seq<(Seq<char>, Seq<u32>)>)>,
    pub start_time: u32,
}

impl View for DataStore {
    type V = StoreView;

    open spec fn view(&self) -> StoreView {
        StoreView { topics: topics_view(self.topics@), start_time: self.start_time }
    }
}

/// Index of the first entry with the given name, or minus one.
pub open spec fn key_index<T>(s: Seq<(Seq<char>, T)>, name: Seq<char>) -> int
    decreases s.len(),
{
    if s.len() == 0 {
        -1
    } else if s[0].0 == name {
        0
    } else {
        let r = key_index(s.drop_first(), name);
        if r < 0 {
            -1
        } else {
            r + 1
        }
    }
}

/// Value of the first entry with the given name, if any.
pub open spec fn key_lookup<T>(s: Seq<(Seq<char>, T)>, name: Seq<char>) -> Option<T> {
    let i = key_index(s, name);
    if i < 0 {
        None
    } else {
        Some(s[i].1)
    }
}

/// No two entries share a name.
pub open spec fn unique_keys<T>(s: Seq<(Seq<char>, T)>) -> bool {
    forall|i: int, j: int|
        0 <= i < j < s.len() ==> (#[trigger] s[i]).0 != (#[trigger] s[j]).0
}

pub broadcast proof fn lemma_key_index_props<T>(s: Seq<(Seq<char>, T)>, name: Seq<char>)
    ensures
        -1 <= #[trigger] key_index(s, name) < s.len(),
        key_index(s, name) >= 0 ==> s[key_index(s, name)].0 == name,
        key_index(s, name) >= 0 ==> forall|j: int| 0 <= j < key_index(s, name) ==> (#[trigger] s[j]).0 != name,
        key_index(s, name) < 0 ==> forall|j: int| 0 <= j < s.len() ==> (#[trigger] s[j]).0 != name,
    decreases s.len(),
{
    if s.len() > 0 {
        lemma_key_index_props(s.drop_first(), name);
        assert(forall|j: int| 1 <= j < s.len() ==> (#[trigger] s[j]).0 == s.drop_first()[j - 1].0);
    }
}

/// A first match at `i` pins the key index.
pub proof fn lemma_key_index_of_match<T>(s: Seq<(Seq<char>, T)>, name: Seq<char>, i: int)
    requires
        0 <= i < s.len(),
        s[i].0 == name,
        forall|j: int| 0 <= j < i ==> (#[trigger] s[j]).0 != name,
    ensures
        key_index(s, name) == i,
    decreases s.len(),
{
    if i > 0 {
        assert(forall|j: int| 0 <= j < s.drop_first().len() ==> s.drop_first()[j] == s[j + 1]);
        lemma_key_index_of_match(s.drop_first(), name, i - 1);
    }
}

/// The column a consumer reads: values of `col` under `topic`, if present.
pub open spec fn store_column(v: StoreView, topic: Seq<char>, col: Seq<char>) -> Option<Seq<u32>> {
    match key_lookup(v.topics, topic) {
        Some(cols) => key_lookup(cols, col),
        None => None,
    }
}

/// The store's own hash of a text sample: the standard library's default
/// hasher over the UTF-8 bytes of the text. Deterministic within one build of
/// the library; consumers must not rely on particular values.
pub open spec fn str_hash(cs: Seq<char>) -> u64 {
    DefaultHasher::spec_finish(seq![vstd::utf8::encode_utf8(cs)])
}

/// The word stored for one text sample: absent text reads as NaN, present
/// text as its hash reduced into the interval from 0 to 1000.
pub open spec fn text_word(o: Option<Seq<char>>) -> u32 {
    match o {
        Some(cs) => unit_word_of_hash(str_hash(cs)),
        None => F32_NAN_WORD,
    }
}

/// The words that one incoming column contributes: floats narrow, integers
/// cast, booleans read as one or zero, text hashes, and a 64-bit integer
/// column named `"timestamp"` is normalized against the start time `t0`.
/// A column of any other type contributes nothing.
pub open spec fn coerce_column(name: Seq<char>, data: ColumnData, t0: u32) -> Option<Seq<u32>> {
    match data {
        ColumnData::F32(s) => Some(s),
        ColumnData::F64(s) => Some(s.map_values(|x: u64| f32_word_of_f64(x))),
        ColumnData::I8(s) => Some(s.map_values(|x: i8| f32_word_of_i64(x as i64))),
        ColumnData::I16(s) => Some(s.map_values(|x: i16| f32_word_of_i64(x as i64))),
        ColumnData::I32(s) => Some(s.map_values(|x: i32| f32_word_of_i64(x as i64))),
        ColumnData::I64(s) => if name == "timestamp"@ {
            Some(s.map_values(|x: i64| norm_word_i64(x, t0)))
        } else {
            Some(s.map_values(|x: i64| f32_word_of_i64(x)))
        },
        ColumnData::U8(s) => Some(s.map_values(|x: u8| f32_word_of_u64(x as u64))),
        ColumnData::U16(s) => Some(s.map_values(|x: u16| f32_word_of_u64(x as u64))),
        ColumnData::U32(s) => Some(s.map_values(|x: u32| f32_word_of_u64(x as u64))),
        ColumnData::U64(s) => if name == "timestamp"@ {
            Some(s.map_values(|x: u64| norm_word_u64(x, t0)))
        } else {
            Some(s.map_values(|x: u64| f32_word_of_u64(x)))
        },
        ColumnData::Bool(s) => Some(
            s.map_values(|x: bool| if x { F32_ONE_WORD } else { 0u32 }),
        ),
        ColumnData::Utf8(s) => Some(s.map_values(|o: Option<Seq<char>>| text_word(o))),
        ColumnData::Other => None,
    }
}

/// One incoming column lands in the topic's columns: the target column is
/// created if absent (also when the incoming type is unsupported and nothing
/// is appended), and the coerced words are appended to it.
pub open spec fn append_into(
    cols: Seq<(Seq<char>, Seq<u32>)>,
    name: Seq<char>,
    add: Option<Seq<u32>>,
) -> Seq<(Seq<char>, Seq<u32>)> {
    let extra = match add {
        Some(s) => s,
        None => Seq::empty(),
    };
    let i = key_index(cols, name);
    if i < 0 {
        cols.push((name, extra))
    } else {
        cols.update(i, (name, cols[i].1 + extra))
    }
}

/// All columns of a batch land in order.
pub open spec fn ingest_columns(
    cols: Seq<(Seq<char>, Seq<u32>)>,
    batch: Seq<(Seq<char>, ColumnData)>,
    t0: u32,
) -> Seq<(Seq<char>, Seq<u32>)>
    decreases batch.len(),
{
    if batch.len() == 0 {
        cols
    } else {
        ingest_columns(
            append_into(cols, batch[0].0, coerce_column(batch[0].0, batch[0].1, t0)),
            batch.drop_first(),
            t0,
        )
    }
}

/// The names of a batch's columns that land nowhere: those with no coercion
/// rule.
pub open spec fn dropped_cols(
    batch: Seq<(Seq<char>, ColumnData)>,
    t0: u32,
) -> Seq<Seq<char>>
    decreases batch.len(),
{
    if batch.len() == 0 {
        Seq::empty()
    } else {
        let rest = dropped_cols(batch.drop_first(), t0);
        if coerce_column(batch[0].0, batch[0].1, t0) is None {
            seq![batch[0].0] + rest
        } else {
            rest
        }
    }
}

/// A batch lands in its topic, which is created at the end if new.
pub open spec fn spec_ingest(
    topics: Seq<(Seq<char>, Seq<(Seq<char>, Seq<u32>)>)>,
    name: Seq<char>,
    batch: Seq<(Seq<char>, ColumnData)>,
    t0: u32,
) -> Seq<(Seq<char>, Seq<(Seq<char>, Seq<u32>)>)> {
    let ti = key_index(topics, name);
    if ti < 0 {
        topics.push((name, ingest_columns(Seq::empty(), batch, t0)))
    } else {
        topics.update(ti, (name, ingest_columns(topics[ti].1, batch, t0)))
    }
}

pub(crate) proof fn lemma_append_into_unique(
    cols: Seq<(Seq<char>, Seq<u32>)>,
    name: Seq<char>,
    add: Option<Seq<u32>>,
)
    requires
        unique_keys(cols),
    ensures
        unique_keys(append_into(cols, name, add)),
{
    lemma_key_index_props(cols, name);
}

proof fn lemma_ingest_columns_unique(
    cols: Seq<(Seq<char>, Seq<u32>)>,
    batch: Seq<(Seq<char>, ColumnData)>,
    t0: u32,
)
    requires
        unique_keys(cols),
    ensures
        unique_keys(ingest_columns(cols, batch, t0)),
    decreases batch.len(),
{
    if batch.len() > 0 {
        lemma_append_into_unique(cols, batch[0].0, coerce_column(batch[0].0, batch[0].1, t0));
        lemma_ingest_columns_unique(
            append_into(cols, batch[0].0, coerce_column(batch[0].0, batch[0].1, t0)),
            batch.drop_first(),
            t0,
        );
    }
}

/// Index of the first topic with the given name in a topic list.
#[verifier::loop_isolation(false)]
pub(crate) fn find_topic_in(topics: &Vec<Topic>, name: &str) -> (r: Option<usize>)
    ensures
        (match r {
            Some(i) => i == key_index(topics_view(topics@), name@) && i < topics@.len(),
            None => key_index(topics_view(topics@), name@) == -1,
        }),
{
    let n = topics.len();
    let mut i: usize = 0;
    while i < n
        invariant
            i <= n,
            n == topics@.len(),
            forall|j: int| 0 <= j < i ==> (#[trigger] topics_view(topics@)[j]).0 != name@,
        decreases n - i,
    {
        proof {
            assert(topics_view(topics@)[i as int] == topics@[i as int]@);
        }
        if str_eq(topics[i].name.as_str(), name) {
            proof {
                lemma_key_index_of_match(topics_view(topics@), name@, i as int);
            }
            return Some(i);
        }
        i = i + 1;
    }
    proof {
        lemma_key_index_props(topics_view(topics@), name@);
    }
    None
}

/// No two topics and no two columns of a topic share a name.
pub open spec fn topics_wf(ts: Seq<(Seq<char>, Seq<(Seq<char>, Seq<u32>)>)>) -> bool {
    &&& unique_keys(ts)
    &&& forall|i: int| 0 <= i < ts.len() ==> unique_keys((#[trigger] ts[i]).1)
}

impl DataStore {
    /// No two topics and no two columns of a topic share a name.
    pub open spec fn wf(self) -> bool {
        topics_wf(self@.topics)
    }

    /// An empty store with an unset start time.
    pub fn new() -> (r: Self)
        ensures
            r.wf(),
            r@.topics.len() == 0,
            r@.start_time == 0,
    {
        DataStore { topics: Vec::new(), start_time: 0 }
    }

    /// Empties the topic map and resets the start time.
    pub fn clear(&mut self)
        ensures
            final(self).wf(),
            final(self)@.topics.len() == 0,
            final(self)@.start_time == 0,
    {
        self.topics.clear();
        self.start_time = 0;
    }

    /// Whether the store holds no topic at all.
    pub fn is_empty(&self) -> (r: bool)
        ensures
            r == (self@.topics.len() == 0),
    {
        self.topics.len() == 0
    }

    /// Index of the topic with the given name.
    fn find_topic(&self, name: &str) -> (r: Option<usize>)
        ensures
            (match r {
                Some(i) => i == key_index(self@.topics, name@) && i < self.topics@.len(),
                None => key_index(self@.topics, name@) == -1,
            }),
    {
        find_topic_in(&self.topics, name)
    }

    /// The raw sample words of one column of one topic; absent topics and
    /// columns read as nothing, never as a failure.
    #[verifier::loop_isolation(false)]
    pub fn get_column<'a>(&'a self, topic: &str, col: &str) -> (r: Option<&'a Vec<u32>>)
        ensures
            (match r {
                Some(v) => store_column(self@, topic@, col@) == Some(v@),
                None => store_column(self@, topic@, col@) is None,
            }),
    {
        let ti = match self.find_topic(topic) {
            Some(i) => i,
            None => {
                return None;
            },
        };
        let tp = &self.topics[ti];
        let n = tp.columns.len();
        let mut i: usize = 0;
        while i < n
            invariant
                i <= n,
                n == tp.columns@.len(),
                forall|j: int| 0 <= j < i ==> (#[trigger] cols_view(tp.columns@)[j]).0 != col@,
            decreases n - i,
        {
            proof {
                assert(cols_view(tp.columns@)[i as int] == tp.columns@[i as int]@);
            }
            if str_eq(tp.columns[i].name.as_str(), col) {
                proof {
                    lemma_key_index_of_match(cols_view(tp.columns@), col@, i as int);
                    assert(self@.topics[ti as int] == self.topics@[ti as int]@);
                }
                return Some(&tp.columns[i].values);
            }
            i = i + 1;
        }
        proof {
            lemma_key_index_props(cols_view(tp.columns@), col@);
        }
        None
    }

    /// Applies one metadata event: the first time a metadata frame reports a
    /// lower time bound while the start time still reads as zero, the start
    /// time freezes to that bound, converted from microseconds to seconds.
    /// Everything else about the store is untouched.
    pub fn observe_metadata(&mut self, range: &TimelineRange)
        ensures
            final(self)@.topics == old(self)@.topics,
            (match range.min_timestamp {
                Some(mn) => {
                    if old(self)@.start_time == 0 || old(self)@.start_time == F32_NEG_ZERO_WORD {
                        final(self)@.start_time == norm_word_i64(mn, 0)
                    } else {
                        final(self)@.start_time == old(self)@.start_time
                    }
                },
                None => final(self)@.start_time == old(self)@.start_time,
            }),
            old(self).wf() ==> final(self).wf(),
    {
        match range.min_timestamp {
            Some(mn) => {
                if self.start_time == 0 || self.start_time == F32_NEG_ZERO_WORD {
                    self.start_time = norm_bits_i64(mn, 0);
                }
            },
            None => {},
        }
    }

    /// Absorbs one decoded batch into the named topic: the topic is created
    /// if new, each incoming column is coerced and appended to the same-named
    /// target column, and unsupported columns leave an empty target behind.
    /// The names of the columns so dropped are returned, in batch order, so
    /// the caller can surface the degradation.
    #[verifier::loop_isolation(false)]
    pub fn ingest(&mut self, topic: String, batch: &Batch) -> (dropped: Vec<String>)
        requires
            old(self).wf(),
        ensures
            final(self).wf(),
            final(self)@.start_time == old(self)@.start_time,
            final(self)@.topics == spec_ingest(
                old(self)@.topics,
                topic@,
                batch_columns(*batch),
                old(self)@.start_time,
            ),
            names_view(dropped@) == dropped_cols(batch_columns(*batch), old(self)@.start_time),
    {
        let t0 = self.start_time;
        let ghost old_topics = self@.topics;
        let ghost bc = batch_columns(*batch);
        let ti = match self.find_topic(topic.as_str()) {
            Some(i) => i,
            None => {
                self.topics.push(Topic { name: topic, columns: Vec::new() });
                proof {
                    assert(cols_view(Seq::<Column>::empty()) =~= Seq::<(Seq<char>, Seq<u32>)>::empty());
                    assert(topics_view(self.topics@) =~~= old_topics.push(
                        (topic@, Seq::<(Seq<char>, Seq<u32>)>::empty()),
                    ));
                }
                self.topics.len() - 1
            },
        };
        let ghost base_cols = self@.topics[ti as int].1;
        let ghost pre_remove = self.topics@;
        let mut tp = self.topics.remove(ti);
        proof {
            assert(topics_view(self.topics@) =~= topics_view(pre_remove).remove(ti as int));
            assert(tp@ == pre_remove[ti as int]@);
            assert(cols_view(tp.columns@) == base_cols);
            lemma_key_index_props(old_topics, topic@);
            assert(topics_view(pre_remove)[ti as int].0 == topic@);
            assert(tp.name@ == topic@);
        }
        let mut dropped: Vec<String> = Vec::new();
        let n = rb_num_columns(batch);
        let mut i: usize = 0;
        proof {
            assert(bc.skip(0) =~= bc);
            assert(names_view(dropped@) =~= Seq::<Seq<char>>::empty());
            assert(names_view(dropped@) + dropped_cols(bc, t0) =~= dropped_cols(bc, t0));
        }
        while i < n
            invariant
                i <= n,
                n == bc.len(),
                bc == batch_columns(*batch),
                tp.name@ == topic@,
                unique_keys(cols_view(tp.columns@)),
                ingest_columns(cols_view(tp.columns@), bc.skip(i as int), t0) == ingest_columns(
                    base_cols,
                    bc,
                    t0,
                ),
                names_view(dropped@) + dropped_cols(bc.skip(i as int), t0) == dropped_cols(
                    bc,
                    t0,
                ),
            decreases n - i,
        {
            let name = rb_col_name(batch, i);
            let add = coerce_batch_column(batch, i, t0);
            proof {
                assert(bc.skip(i as int)[0] == bc[i as int]);
                assert(bc.skip(i as int).drop_first() =~= bc.skip(i as int + 1));
                lemma_append_into_unique(
                    cols_view(tp.columns@),
                    name@,
                    coerce_column(bc[i as int].0, bc[i as int].1, t0),
                );
            }
            if add.is_none() {
                let ghost pre = names_view(dropped@);
                dropped.push(name.clone());
                proof {
                    assert(names_view(dropped@) =~= pre.push(bc[i as int].0));
                    assert(pre.push(bc[i as int].0) + dropped_cols(bc.skip(i as int + 1), t0)
                        =~= pre + (seq![bc[i as int].0] + dropped_cols(bc.skip(i as int + 1), t0)));
                }
            }
            append_column(&mut tp.columns, name, add);
            i = i + 1;
        }
        proof {
            assert(bc.skip(n as int) =~= Seq::<(Seq<char>, ColumnData)>::empty());
            assert(names_view(dropped@) + Seq::<Seq<char>>::empty() =~= names_view(dropped@));
        }
        let ghost before_insert = self@.topics;
        let ghost tp_view = tp@;
        self.topics.insert(ti, tp);
        proof {
            assert(topics_view(self.topics@) =~= before_insert.insert(ti as int, tp_view));
            let ti_spec = key_index(old_topics, topic@);
            lemma_key_index_props(old_topics, topic@);
            if ti_spec < 0 {
                assert(before_insert =~= old_topics);
                assert(tp_view.0 == topic@);
                assert(tp_view.1 == ingest_columns(Seq::empty(), bc, t0)) by {
                    assert(base_cols =~= Seq::<(Seq<char>, Seq<u32>)>::empty());
                }
                assert(before_insert.insert(ti as int, tp_view) =~= old_topics.push(tp_view));
                assert(self@.topics =~~= spec_ingest(old_topics, topic@, bc, t0));
            } else {
                assert(ti == ti_spec);
                assert(tp_view.0 == topic@) by {
                    assert(old_topics[ti as int].0 == topic@);
                }
                assert(base_cols == old_topics[ti as int].1);
                assert(before_insert.insert(ti as int, tp_view) =~= old_topics.update(
                    ti as int,
                    tp_view,
                ));
                assert(self@.topics =~~= spec_ingest(old_topics, topic@, bc, t0));
            }
            lemma_ingest_columns_unique(base_cols, bc, t0);
        }
        dropped
    }
}

impl Default for DataStore {
    /// An empty store with an unset start time.
    fn default() -> (r: Self)
        ensures
            r.wf(),
            r@.topics.len() == 0,
            r@.start_time == 0,
    {
        DataStore::new()
    }
}

/// Hashes a text sample with the standard library's default hasher over its
/// UTF-8 bytes.
fn hash_str(s: &str) -> (h: u64)
    ensures
        h == str_hash(s@),
{
    let mut hasher = DefaultHasher::new();
    hasher.write(s.as_bytes());
    proof {
        assert(hasher@ =~= seq![vstd::utf8::encode_utf8(s@)]);
    }
    hasher.finish()
}

fn words_of_f64(v: &Vec<u64>) -> (r: Vec<u32>)
    ensures
        r@ == v@.map_values(|x: u64| f32_word_of_f64(x)),
{
    let ghost f = |x: u64| f32_word_of_f64(x);
    let mut r: Vec<u32> = Vec::new();
    let n = v.len();
    let mut i: usize = 0;
    while i < n
        invariant
            i <= n,
            n == v@.len(),
            r@ == v@.take(i as int).map_values(|x: u64| f32_word_of_f64(x)),
        decreases n - i,
    {
        r.push(bits_of_f64(v[i]));
        proof {
            assert(v@.take(i as int + 1).map_values(|x: u64| f32_word_of_f64(x)) =~= v@.take(
                i as int,
            ).map_values(|x: u64| f32_word_of_f64(x)).push(f32_word_of_f64(v@[i as int])));
        }
        i = i + 1;
    }
    proof {
        assert(v@.take(n as int) =~= v@);
    }
    r
}

fn words_of_i8(v: &Vec<i8>) -> (r: Vec<u32>)
    ensures
        r@ == v@.map_values(|x: i8| f32_word_of_i64(x as i64)),
{
    let mut r: Vec<u32> = Vec::new();
    let n = v.len();
    let mut i: usize = 0;
    while i < n
        invariant
            i <= n,
            n == v@.len(),
            r@ == v@.take(i as int).map_values(|x: i8| f32_word_of_i64(x as i64)),
        decreases n - i,
    {
        r.push(bits_of_i64(v[i] as i64));
        proof {
            assert(v@.take(i as int + 1).map_values(|x: i8| f32_word_of_i64(x as i64)) =~= v@.take(
                i as int,
            ).map_values(|x: i8| f32_word_of_i64(x as i64)).push(
                f32_word_of_i64(v@[i as int] as i64),
            ));
        }
        i = i + 1;
    }
    proof {
        assert(v@.take(n as int) =~= v@);
    }
    r
}

fn words_of_i16(v: &Vec<i16>) -> (r: Vec<u32>)
    ensures
        r@ == v@.map_values(|x: i16| f32_word_of_i64(x as i64)),
{
    let mut r: Vec<u32> = Vec::new();
    let n = v.len();
    let mut i: usize = 0;
    while i < n
        invariant
            i <= n,
            n == v@.len(),
            r@ == v@.take(i as int).map_values(|x: i16| f32_word_of_i64(x as i64)),
        decreases n - i,
    {
        r.push(bits_of_i64(v[i] as i64));
        proof {
            assert(v@.take(i as int + 1).map_values(|x: i16| f32_word_of_i64(x as i64)) =~= v@.take(
                i as int,
            ).map_values(|x: i16| f32_word_of_i64(x as i64)).push(
                f32_word_of_i64(v@[i as int] as i64),
            ));
        }
        i = i + 1;
    }
    proof {
        assert(v@.take(n as int) =~= v@);
    }
    r
}

fn words_of_i32(v: &Vec<i32>) -> (r: Vec<u32>)
    ensures
        r@ == v@.map_values(|x: i32| f32_word_of_i64(x as i64)),
{
    let mut r: Vec<u32> = Vec::new();
    let n = v.len();
    let mut i: usize = 0;
    while i < n
        invariant
            i <= n,
            n == v@.len(),
            r@ == v@.take(i as int).map_values(|x: i32| f32_word_of_i64(x as i64)),
        decreases n - i,
    {
        r.push(bits_of_i64(v[i] as i64));
        proof {
            assert(v@.take(i as int + 1).map_values(|x: i32| f32_word_of_i64(x as i64)) =~= v@.take(
                i as int,
            ).map_values(|x: i32| f32_word_of_i64(x as i64)).push(
                f32_word_of_i64(v@[i as int] as i64),
            ));
        }
        i = i + 1;
    }
    proof {
        assert(v@.take(n as int) =~= v@);
    }
    r
}

fn words_of_i64(v: &Vec<i64>) -> (r: Vec<u32>)
    ensures
        r@ == v@.map_values(|x: i64| f32_word_of_i64(x)),
{
    let mut r: Vec<u32> = Vec::new();
    let n = v.len();
    let mut i: usize = 0;
    while i < n
        invariant
            i <= n,
            n == v@.len(),
            r@ == v@.take(i as int).map_values(|x: i64| f32_word_of_i64(x)),
        decreases n - i,
    {
        r.push(bits_of_i64(v[i]));
        proof {
            assert(v@.take(i as int + 1).map_values(|x: i64| f32_word_of_i64(x)) =~= v@.take(
                i as int,
            ).map_values(|x: i64| f32_word_of_i64(x)).push(f32_word_of_i64(v@[i as int])));
        }
        i = i + 1;
    }
    proof {
        assert(v@.take(n as int) =~= v@);
    }
    r
}

fn norm_words_i64(v: &Vec<i64>, t0: u32) -> (r: Vec<u32>)
    ensures
        r@ == v@.map_values(|x: i64| norm_word_i64(x, t0)),
{
    let mut r: Vec<u32> = Vec::new();
    let n = v.len();
    let mut i: usize = 0;
    while i < n
        invariant
            i <= n,
            n == v@.len(),
            r@ == v@.take(i as int).map_values(|x: i64| norm_word_i64(x, t0)),
        decreases n - i,
    {
        r.push(norm_bits_i64(v[i], t0));
        proof {
            assert(v@.take(i as int + 1).map_values(|x: i64| norm_word_i64(x, t0)) =~= v@.take(
                i as int,
            ).map_values(|x: i64| norm_word_i64(x, t0)).push(norm_word_i64(v@[i as int], t0)));
        }
        i = i + 1;
    }
    proof {
        assert(v@.take(n as int) =~= v@);
    }
    r
}

fn words_of_u8(v: &Vec<u8>) -> (r: Vec<u32>)
    ensures
        r@ == v@.map_values(|x: u8| f32_word_of_u64(x as u64)),
{
    let mut r: Vec<u32> = Vec::new();
    let n = v.len();
    let mut i: usize = 0;
    while i < n
        invariant
            i <= n,
            n == v@.len(),
            r@ == v@.take(i as int).map_values(|x: u8| f32_word_of_u64(x as u64)),
        decreases n - i,
    {
        r.push(bits_of_u64(v[i] as u64));
        proof {
            assert(v@.take(i as int + 1).map_values(|x: u8| f32_word_of_u64(x as u64)) =~= v@.take(
                i as int,
            ).map_values(|x: u8| f32_word_of_u64(x as u64)).push(
                f32_word_of_u64(v@[i as int] as u64),
            ));
        }
        i = i + 1;
    }
    proof {
        assert(v@.take(n as int) =~= v@);
    }
    r
}

fn words_of_u16(v: &Vec<u16>) -> (r: Vec<u32>)
    ensures
        r@ == v@.map_values(|x: u16| f32_word_of_u64(x as u64)),
{
    let mut r: Vec<u32> = Vec::new();
    let n = v.len();
    let mut i: usize = 0;
    while i < n
        invariant
            i <= n,
            n == v@.len(),
            r@ == v@.take(i as int).map_values(|x: u16| f32_word_of_u64(x as u64)),
        decreases n - i,
    {
        r.push(bits_of_u64(v[i] as u64));
        proof {
            assert(v@.take(i as int + 1).map_values(|x: u16| f32_word_of_u64(x as u64)) =~= v@.take(
                i as int,
            ).map_values(|x: u16| f32_word_of_u64(x as u64)).push(
                f32_word_of_u64(v@[i as int] as u64),
            ));
        }
        i = i + 1;
    }
    proof {
        assert(v@.take(n as int) =~= v@);
    }
    r
}

fn words_of_u32(v: &Vec<u32>) -> (r: Vec<u32>)
    ensures
        r@ == v@.map_values(|x: u32| f32_word_of_u64(x as u64)),
{
    let mut r: Vec<u32> = Vec::new();
    let n = v.len();
    let mut i: usize = 0;
    while i < n
        invariant
            i <= n,
            n == v@.len(),
            r@ == v@.take(i as int).map_values(|x: u32| f32_word_of_u64(x as u64)),
        decreases n - i,
    {
        r.push(bits_of_u64(v[i] as u64));
        proof {
            assert(v@.take(i as int + 1).map_values(|x: u32| f32_word_of_u64(x as u64)) =~= v@.take(
                i as int,
            ).map_values(|x: u32| f32_word_of_u64(x as u64)).push(
                f32_word_of_u64(v@[i as int] as u64),
            ));
        }
        i = i + 1;
    }
    proof {
        assert(v@.take(n as int) =~= v@);
    }
    r
}

fn words_of_u64(v: &Vec<u64>) -> (r: Vec<u32>)
    ensures
        r@ == v@.map_values(|x: u64| f32_word_of_u64(x)),
{
    let mut r: Vec<u32> = Vec::new();
    let n = v.len();
    let mut i: usize = 0;
    while i < n
        invariant
            i <= n,
            n == v@.len(),
            r@ == v@.take(i as int).map_values(|x: u64| f32_word_of_u64(x)),
        decreases n - i,
    {
        r.push(bits_of_u64(v[i]));
        proof {
            assert(v@.take(i as int + 1).map_values(|x: u64| f32_word_of_u64(x)) =~= v@.take(
                i as int,
            ).map_values(|x: u64| f32_word_of_u64(x)).push(f32_word_of_u64(v@[i as int])));
        }
        i = i + 1;
    }
    proof {
        assert(v@.take(n as int) =~= v@);
    }
    r
}

fn norm_words_u64(v: &Vec<u64>, t0: u32) -> (r: Vec<u32>)
    ensures
        r@ == v@.map_values(|x: u64| norm_word_u64(x, t0)),
{
    let mut r: Vec<u32> = Vec::new();
    let n = v.len();
    let mut i: usize = 0;
    while i < n
        invariant
            i <= n,
            n == v@.len(),
            r@ == v@.take(i as int).map_values(|x: u64| norm_word_u64(x, t0)),
        decreases n - i,
    {
        r.push(norm_bits_u64(v[i], t0));
        proof {
            assert(v@.take(i as int + 1).map_values(|x: u64| norm_word_u64(x, t0)) =~= v@.take(
                i as int,
            ).map_values(|x: u64| norm_word_u64(x, t0)).push(norm_word_u64(v@[i as int], t0)));
        }
        i = i + 1;
    }
    proof {
        assert(v@.take(n as int) =~= v@);
    }
    r
}

fn words_of_bool(v: &Vec<bool>) -> (r: Vec<u32>)
    ensures
        r@ == v@.map_values(|x: bool| if x { F32_ONE_WORD } else { 0u32 }),
{
    let mut r: Vec<u32> = Vec::new();
    let n = v.len();
    let mut i: usize = 0;
    while i < n
        invariant
            i <= n,
            n == v@.len(),
            r@ == v@.take(i as int).map_values(|x: bool| if x { F32_ONE_WORD } else { 0u32 }),
        decreases n - i,
    {
        r.push(if v[i] { F32_ONE_WORD } else { 0u32 });
        proof {
            assert(v@.take(i as int + 1).map_values(
                |x: bool| if x { F32_ONE_WORD } else { 0u32 },
            ) =~= v@.take(i as int).map_values(|x: bool| if x { F32_ONE_WORD } else { 0u32 }).push(
                if v@[i as int] { F32_ONE_WORD } else { 0u32 },
            ));
        }
        i = i + 1;
    }
    proof {
        assert(v@.take(n as int) =~= v@);
    }
    r
}

fn words_of_text(v: &Vec<Option<String>>) -> (r: Vec<u32>)
    ensures
        r@ == v.deep_view().map_values(|o: Option<Seq<char>>| text_word(o)),
{
    let mut r: Vec<u32> = Vec::new();
    let n = v.len();
    let mut i: usize = 0;
    while i < n
        invariant
            i <= n,
            n == v@.len(),
            v.deep_view().len() == v@.len(),
            r@ == v.deep_view().take(i as int).map_values(|o: Option<Seq<char>>| text_word(o)),
        decreases n - i,
    {
        let w = match &v[i] {
            Some(s) => unit_bits_of_hash(hash_str(s.as_str())),
            None => F32_NAN_WORD,
        };
        proof {
            assert(v.deep_view()[i as int] == v@[i as int].deep_view());
        }
        r.push(w);
        proof {
            assert(v.deep_view().take(i as int + 1).map_values(
                |o: Option<Seq<char>>| text_word(o),
            ) =~= v.deep_view().take(i as int).map_values(|o: Option<Seq<char>>| text_word(o)).push(
                text_word(v.deep_view()[i as int]),
            ));
        }
        i = i + 1;
    }
    proof {
        assert(v.deep_view().take(n as int) =~= v.deep_view());
    }
    r
}

/// Coerces column `i` of the batch, dispatching on its element type in the
/// order the store supports them; an unsupported type yields nothing.
fn coerce_batch_column(b: &Batch, i: usize, t0: u32) -> (r: Option<Vec<u32>>)
    requires
        i < batch_columns(*b).len(),
    ensures
        (match r {
            Some(v) => coerce_column(
                batch_columns(*b)[i as int].0,
                batch_columns(*b)[i as int].1,
                t0,
            ) == Some(v@),
            None => coerce_column(
                batch_columns(*b)[i as int].0,
                batch_columns(*b)[i as int].1,
                t0,
            ) is None,
        }),
{
    let name = rb_col_name(b, i);
    let is_ts = str_eq(name.as_str(), "timestamp");
    if let Some(v) = rb_col_f32(b, i) {
        return Some(v);
    }
    if let Some(v) = rb_col_f64(b, i) {
        return Some(words_of_f64(&v));
    }
    if let Some(v) = rb_col_i8(b, i) {
        return Some(words_of_i8(&v));
    }
    if let Some(v) = rb_col_i16(b, i) {
        return Some(words_of_i16(&v));
    }
    if let Some(v) = rb_col_i32(b, i) {
        return Some(words_of_i32(&v));
    }
    if let Some(v) = rb_col_i64(b, i) {
        return Some(
            if is_ts {
                norm_words_i64(&v, t0)
            } else {
                words_of_i64(&v)
            },
        );
    }
    if let Some(v) = rb_col_u8(b, i) {
        return Some(words_of_u8(&v));
    }
    if let Some(v) = rb_col_u16(b, i) {
        return Some(words_of_u16(&v));
    }
    if let Some(v) = rb_col_u32(b, i) {
        return Some(words_of_u32(&v));
    }
    if let Some(v) = rb_col_u64(b, i) {
        return Some(
            if is_ts {
                norm_words_u64(&v, t0)
            } else {
                words_of_u64(&v)
            },
        );
    }
    if let Some(v) = rb_col_bool(b, i) {
        return Some(words_of_bool(&v));
    }
    if let Some(v) = rb_col_utf8(b, i) {
        return Some(words_of_text(&v));
    }
    None
}

/// Lands one coerced column: appends to the same-named column, creating it
/// (possibly empty) when absent.
#[verifier::loop_isolation(false)]
pub(crate) fn append_column(cols: &mut Vec<Column>, name: String, add: Option<Vec<u32>>)
    ensures
        cols_view(final(cols)@) == append_into(
            cols_view(old(cols)@),
            name@,
            (match add {
                Some(v) => Some(v@),
                None => None,
            }),
        ),
{
    let ghost old_view = cols_view(cols@);
    let ghost add_view = match &add {
        Some(v) => Some(v@),
        None => None::<Seq<u32>>,
    };
    let n = cols.len();
    let mut i: usize = 0;
    while i < n
        invariant
            i <= n,
            n == cols@.len(),
            old_view == cols_view(cols@),
            forall|j: int| 0 <= j < i ==> (#[trigger] old_view[j]).0 != name@,
        decreases n - i,
    {
        proof {
            assert(old_view[i as int] == cols@[i as int]@);
        }
        if str_eq(cols[i].name.as_str(), name.as_str()) {
            proof {
                lemma_key_index_of_match(old_view, name@, i as int);
            }
            let ghost pre = cols@;
            let mut c = cols.remove(i);
            match add {
                Some(mut v) => {
                    c.values.append(&mut v);
                },
                None => {
                    proof {
                        assert(old_view[i as int].1 + Seq::<u32>::empty() =~= old_view[i as int].1);
                    }
                },
            }
            let ghost c_view = c@;
            cols.insert(i, c);
            proof {
                assert(cols_view(cols@) =~= cols_view(pre.remove(i as int)).insert(
                    i as int,
                    c_view,
                ));
                assert(cols_view(pre.remove(i as int)) =~= old_view.remove(i as int));
                assert(old_view.remove(i as int).insert(i as int, c_view) =~= old_view.update(
                    i as int,
                    c_view,
                ));
                assert(c_view == (name@, old_view[i as int].1 + (match add_view {
                    Some(sq) => sq,
                    None => Seq::<u32>::empty(),
                })));
                assert(cols_view(cols@) =~~= append_into(old_view, name@, add_view));
            }
            return ;
        }
        i = i + 1;
    }
    proof {
        lemma_key_index_props(old_view, name@);
    }
    let values = match add {
        Some(v) => v,
        None => Vec::new(),
    };
    cols.push(Column { name, values });
    proof {
        assert(cols_view(cols@) =~~= append_into(old_view, name@, add_view));
    }
}

/// The character views of a list of names.
pub open spec fn names_view(ns: Seq<String>) -> Seq<Seq<char>> {
    ns.map_values(|n: String| n@)
}

/// Inserts a name into a lexicographically sorted list.
pub open spec fn insert_lex(sorted: Seq<Seq<char>>, n: Seq<char>) -> Seq<Seq<char>>
    decreases sorted.len(),
{
    if sorted.len() == 0 {
        seq![n]
    } else if chars_lt(n, sorted[0]) {
        seq![n] + sorted
    } else {
        seq![sorted[0]] + insert_lex(sorted.drop_first(), n)
    }
}

/// Sorts names lexicographically, inserting each in turn.
pub open spec fn sort_lex_from(acc: Seq<Seq<char>>, ns: Seq<Seq<char>>) -> Seq<Seq<char>>
    decreases ns.len(),
{
    if ns.len() == 0 {
        acc
    } else {
        sort_lex_from(insert_lex(acc, ns[0]), ns.drop_first())
    }
}

/// Inserts a name into a naturally ordered list (the `natord` order).
pub open spec fn insert_nat(sorted: Seq<Seq<char>>, n: Seq<char>) -> Seq<Seq<char>>
    decreases sorted.len(),
{
    if sorted.len() == 0 {
        seq![n]
    } else if nat_lt(n, sorted[0]) {
        seq![n] + sorted
    } else {
        seq![sorted[0]] + insert_nat(sorted.drop_first(), n)
    }
}

/// Sorts names naturally, inserting each in turn.
pub open spec fn sort_nat_from(acc: Seq<Seq<char>>, ns: Seq<Seq<char>>) -> Seq<Seq<char>>
    decreases ns.len(),
{
    if ns.len() == 0 {
        acc
    } else {
        sort_nat_from(insert_nat(acc, ns[0]), ns.drop_first())
    }
}

/// The names other than `"timestamp"`, in the order given.
pub open spec fn drop_timestamp(ns: Seq<Seq<char>>) -> Seq<Seq<char>>
    decreases ns.len(),
{
    if ns.len() == 0 {
        Seq::empty()
    } else if ns[0] == "timestamp"@ {
        drop_timestamp(ns.drop_first())
    } else {
        seq![ns[0]] + drop_timestamp(ns.drop_first())
    }
}

/// The names of a list of topics or columns.
pub open spec fn keys_of<T>(s: Seq<(Seq<char>, T)>) -> Seq<Seq<char>> {
    s.map_values(|e: (Seq<char>, T)| e.0)
}

proof fn lemma_insert_lex_at(sorted: Seq<Seq<char>>, n: Seq<char>, j: int)
    requires
        0 <= j <= sorted.len(),
        forall|k: int| 0 <= k < j ==> !chars_lt(n, #[trigger] sorted[k]),
        j < sorted.len() ==> chars_lt(n, sorted[j]),
    ensures
        insert_lex(sorted, n) == sorted.take(j) + seq![n] + sorted.skip(j),
    decreases sorted.len(),
{
    if sorted.len() == 0 {
        assert(insert_lex(sorted, n) =~= sorted.take(j) + seq![n] + sorted.skip(j));
    } else if j == 0 {
        assert(sorted.take(0) + seq![n] + sorted.skip(0) =~= seq![n] + sorted);
    } else {
        let rest = sorted.drop_first();
        assert(forall|k: int| 0 <= k < j - 1 ==> #[trigger] rest[k] == sorted[k + 1]);
        lemma_insert_lex_at(rest, n, j - 1);
        assert(seq![sorted[0]] + (rest.take(j - 1) + seq![n] + rest.skip(j - 1)) =~= sorted.take(j)
            + seq![n] + sorted.skip(j));
    }
}

proof fn lemma_insert_nat_at(sorted: Seq<Seq<char>>, n: Seq<char>, j: int)
    requires
        0 <= j <= sorted.len(),
        forall|k: int| 0 <= k < j ==> !nat_lt(n, #[trigger] sorted[k]),
        j < sorted.len() ==> nat_lt(n, sorted[j]),
    ensures
        insert_nat(sorted, n) == sorted.take(j) + seq![n] + sorted.skip(j),
    decreases sorted.len(),
{
    if sorted.len() == 0 {
        assert(insert_nat(sorted, n) =~= sorted.take(j) + seq![n] + sorted.skip(j));
    } else if j == 0 {
        assert(sorted.take(0) + seq![n] + sorted.skip(0) =~= seq![n] + sorted);
    } else {
        let rest = sorted.drop_first();
        assert(forall|k: int| 0 <= k < j - 1 ==> #[trigger] rest[k] == sorted[k + 1]);
        lemma_insert_nat_at(rest, n, j - 1);
        assert(seq![sorted[0]] + (rest.take(j - 1) + seq![n] + rest.skip(j - 1)) =~= sorted.take(j)
            + seq![n] + sorted.skip(j));
    }
}

impl DataStore {
    /// The topic names, sorted lexicographically.
    #[verifier::loop_isolation(false)]
    pub fn get_topics(&self) -> (r: Vec<String>)
        ensures
            names_view(r@) == sort_lex_from(Seq::empty(), keys_of(self@.topics)),
    {
        let ghost all = keys_of(self@.topics);
        let mut sorted: Vec<String> = Vec::new();
        let n = self.topics.len();
        let mut i: usize = 0;
        proof {
            assert(all.skip(0) =~= all);
            assert(names_view(sorted@) =~= Seq::<Seq<char>>::empty());
        }
        while i < n
            invariant
                i <= n,
                n == self.topics@.len(),
                sort_lex_from(names_view(sorted@), all.skip(i as int)) == sort_lex_from(
                    Seq::empty(),
                    all,
                ),
            decreases n - i,
        {
            let name = self.topics[i].name.clone();
            let m = sorted.len();
            let mut j: usize = 0;
            let mut found: bool = false;
            while j < m && !found
                invariant
                    j <= m,
                    m == sorted@.len(),
                    forall|k: int| 0 <= k < j ==> !chars_lt(name@, #[trigger] names_view(sorted@)[k]),
                    found ==> j < m && chars_lt(name@, names_view(sorted@)[j as int]),
                decreases m - j + (if found { 0int } else { 1int }),
            {
                proof {
                    assert(names_view(sorted@)[j as int] == sorted@[j as int]@);
                }
                if str_lt(name.as_str(), sorted[j].as_str()) {
                    found = true;
                } else {
                    j = j + 1;
                }
            }
            let ghost pre = names_view(sorted@);
            proof {
                lemma_insert_lex_at(pre, name@, j as int);
            }
            sorted.insert(j, name);
            proof {
                assert(names_view(sorted@) =~= pre.take(j as int) + seq![
                    self@.topics[i as int].0,
                ] + pre.skip(j as int));
                assert(all.skip(i as int)[0] == all[i as int]);
                assert(all[i as int] == self@.topics[i as int].0);
                assert(all.skip(i as int).drop_first() =~= all.skip(i as int + 1));
            }
            i = i + 1;
        }
        proof {
            assert(all.skip(n as int) =~= Seq::<Seq<char>>::empty());
        }
        sorted
    }

    /// The column names of one topic, naturally sorted, without the
    /// `"timestamp"` column; an absent topic reads as no columns.
    #[verifier::loop_isolation(false)]
    pub fn get_columns(&self, topic: &str) -> (r: Vec<String>)
        ensures
            (match key_lookup(self@.topics, topic@) {
                Some(cols) => names_view(r@) == drop_timestamp(
                    sort_nat_from(Seq::empty(), keys_of(cols)),
                ),
                None => r@.len() == 0,
            }),
    {
        let ti = match self.find_topic(topic) {
            Some(i) => i,
            None => {
                return Vec::new();
            },
        };
        let tp = &self.topics[ti];
        let ghost all = keys_of(cols_view(tp.columns@));
        proof {
            assert(self@.topics[ti as int] == self.topics@[ti as int]@);
            assert(key_lookup(self@.topics, topic@) == Some(cols_view(tp.columns@)));
        }
        let mut sorted: Vec<String> = Vec::new();
        let n = tp.columns.len();
        let mut i: usize = 0;
        proof {
            assert(all.skip(0) =~= all);
            assert(names_view(sorted@) =~= Seq::<Seq<char>>::empty());
        }
        while i < n
            invariant
                i <= n,
                n == tp.columns@.len(),
                all == keys_of(cols_view(tp.columns@)),
                sort_nat_from(names_view(sorted@), all.skip(i as int)) == sort_nat_from(
                    Seq::empty(),
                    all,
                ),
            decreases n - i,
        {
            let name = tp.columns[i].name.clone();
            let m = sorted.len();
            let mut j: usize = 0;
            let mut found: bool = false;
            while j < m && !found
                invariant
                    j <= m,
                    m == sorted@.len(),
                    forall|k: int| 0 <= k < j ==> !nat_lt(name@, #[trigger] names_view(sorted@)[k]),
                    found ==> j < m && nat_lt(name@, names_view(sorted@)[j as int]),
                decreases m - j + (if found { 0int } else { 1int }),
            {
                proof {
                    assert(names_view(sorted@)[j as int] == sorted@[j as int]@);
                }
                if natural_compare(name.as_str(), sorted[j].as_str()) == -1 {
                    found = true;
                } else {
                    j = j + 1;
                }
            }
            let ghost pre = names_view(sorted@);
            proof {
                lemma_insert_nat_at(pre, name@, j as int);
            }
            sorted.insert(j, name);
            proof {
                assert(cols_view(tp.columns@)[i as int] == tp.columns@[i as int]@);
                assert(names_view(sorted@) =~= pre.take(j as int) + seq![all[i as int]] + pre.skip(
                    j as int,
                ));
                assert(all.skip(i as int)[0] == all[i as int]);
                assert(all.skip(i as int).drop_first() =~= all.skip(i as int + 1));
            }
            i = i + 1;
        }
        proof {
            assert(all.skip(n as int) =~= Seq::<Seq<char>>::empty());
        }
        let ghost sv = names_view(sorted@);
        let mut out: Vec<String> = Vec::new();
        let m = sorted.len();
        let mut j: usize = 0;
        proof {
            assert(sv.skip(0) =~= sv);
            assert(names_view(out@) =~= Seq::<Seq<char>>::empty());
            assert(names_view(out@) + drop_timestamp(sv) =~= drop_timestamp(sv));
        }
        while j < m
            invariant
                j <= m,
                m == sorted@.len(),
                sv == names_view(sorted@),
                names_view(out@) + drop_timestamp(sv.skip(j as int)) == drop_timestamp(sv),
            decreases m - j,
        {
            proof {
                assert(sv.skip(j as int)[0] == sv[j as int]);
                assert(sv[j as int] == sorted@[j as int]@);
                assert(sv.skip(j as int).drop_first() =~= sv.skip(j as int + 1));
            }
            if !str_eq(sorted[j].as_str(), "timestamp") {
                let ghost pre = names_view(out@);
                out.push(sorted[j].clone());
                proof {
                    assert(names_view(out@) =~= pre.push(sv[j as int]));
                    assert(pre.push(sv[j as int]) + drop_timestamp(sv.skip(j as int + 1)) =~= pre
                        + (seq![sv[j as int]] + drop_timestamp(sv.skip(j as int + 1))));
                }
            }
            j = j + 1;
        }
        proof {
            assert(sv.skip(m as int) =~= Seq::<Seq<char>>::empty());
            assert(names_view(out@) + Seq::<Seq<char>>::empty() =~= names_view(out@));
        }
        out
    }
}

impl DataStore {
    /// Samples one trace at a query time: looks up the topic's time column
    /// and the named value column and runs the interpolation engine. A
    /// missing topic or column, or an empty time column, reads as no value,
    /// never as a failure.
    pub fn query_value(&self, topic: &str, col: &str, t: u32, mode: InterpolationMode) -> (r:
        InterpResult)
        ensures
            (match (
                store_column(self@, topic@, "timestamp"@),
                store_column(self@, topic@, col@),
            ) {
                (Some(times), Some(values)) => {
                    if times.len() == 0 {
                        r == InterpResult::NoValue
                    } else {
                        sorted_times(times) ==> r == interp_spec(times, values, t, mode)
                    }
                },
                _ => r == InterpResult::NoValue,
            }),
    {
        let times = match self.get_column(topic, "timestamp") {
            Some(v) => v,
            None => {
                return InterpResult::NoValue;
            },
        };
        let values = match self.get_column(topic, col) {
            Some(v) => v,
            None => {
                return InterpResult::NoValue;
            },
        };
        if times.len() == 0 {
            return InterpResult::NoValue;
        }
        interpolate_value(times, values, t, mode)
    }
}

/// What applying one drained event did: whether it consumed a batch (the
/// caller's per-cycle cap counts those) and which incoming columns were
/// dropped for want of a coercion rule.
pub struct ApplyOutcome {
    pub was_batch: bool,
    pub dropped: Vec<String>,
}

impl DataStore {
    /// Applies one event from the receiver's queue: a metadata event may
    /// freeze the start time, a batch event lands in its topic. One drain
    /// cycle is a bounded number of such steps; the caller stops after its
    /// batch budget, trading latency for bounded per-cycle work, never data.
    pub fn apply_message(&mut self, msg: DataMessage) -> (r: ApplyOutcome)
        requires
            old(self).wf(),
        ensures
            final(self).wf(),
            (match msg {
                DataMessage::Metadata(range) => {
                    &&& !r.was_batch
                    &&& r.dropped@.len() == 0
                    &&& final(self)@.topics == old(self)@.topics
                    &&& (match range.min_timestamp {
                        Some(mn) => {
                            if old(self)@.start_time == 0 || old(self)@.start_time
                                == F32_NEG_ZERO_WORD {
                                final(self)@.start_time == norm_word_i64(mn, 0)
                            } else {
                                final(self)@.start_time == old(self)@.start_time
                            }
                        },
                        None => final(self)@.start_time == old(self)@.start_time,
                    })
                },
                DataMessage::NewBatch(topic, batch) => {
                    &&& r.was_batch
                    &&& final(self)@.start_time == old(self)@.start_time
                    &&& final(self)@.topics == spec_ingest(
                        old(self)@.topics,
                        topic@,
                        batch_columns(batch),
                        old(self)@.start_time,
                    )
                    &&& names_view(r.dropped@) == dropped_cols(
                        batch_columns(batch),
                        old(self)@.start_time,
                    )
                },
            }),
    {
        match msg {
            DataMessage::Metadata(range) => {
                self.observe_metadata(&range);
                ApplyOutcome { was_batch: false, dropped: Vec::new() }
            },
            DataMessage::NewBatch(topic, batch) => {
                let dropped = self.ingest(topic, &batch);
                ApplyOutcome { was_batch: true, dropped }
            },
        }
    }
}

} // verus!
