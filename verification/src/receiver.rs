//! Wire-protocol receiver: the per-connection protocol state machine and the
//! events it emits. The driver that owns the socket reads exactly the number
//! of bytes the machine asks for and feeds them back; every protocol decision
//! is made here, so one connection's failure never touches another's machine.
//!
//! A connection carries one length-prefixed metadata document, then one
//! length-prefixed columnar payload per announced table. A malformed metadata
//! document fails the whole connection; a payload that does not decode only
//! skips its own table. The metadata event is emitted before any batch event.

use vstd::prelude::*;

use vstd::bytes::{spec_u32_from_le_bytes, spec_u64_from_le_bytes, u32_from_le_bytes, u64_from_le_bytes};

use crate::columnar::{Batch, ColumnData, batch_columns, decode_batches, f32_batch, ipc_clean, ipc_contents, ipc_payload};

verus! {

/// The producer-side time window carried by a metadata frame, in microsecond
/// epoch time; either bound may be absent.
pub struct TimelineRange {
    pub min_timestamp: Option<i64>,
    pub max_timestamp: Option<i64>,
}

/// One event decoded from a connection: the metadata frame's time window, or
/// one decoded batch for a named table.
pub enum DataMessage {
    Metadata(TimelineRange),
    NewBatch(String, Batch),
}

/// What a metadata document announces: how many tables follow, and the
/// producer's time window.
pub struct WireMetadata {
    pub table_count: usize,
    pub timeline_range: TimelineRange,
}

/// What the metadata parser extracts from a byte document, if the document is
/// a JSON object of the expected shape.
pub uninterp spec fn parsed_metadata(bytes: Seq<u8>) -> Option<WireMetadata>;

/// Relies on `serde_json::from_slice`: parses the metadata document, whose
/// required fields are the producer parameters (an object), the version
/// information (an object), the table count, the table names (an array), and
/// the timeline range with optional bounds. The element types inside the
/// version map and the name array are not checked here. The outcome depends
/// on the bytes alone.
#[verifier::external_body]
fn parse_metadata(bytes: &Vec<u8>) -> (r: Option<WireMetadata>)
    ensures
        r == parsed_metadata(bytes@),
{
    let v: serde_json::Value = serde_json::from_slice(bytes.as_slice()).ok()?;
    v.get("parameters")?.as_object()?;
    v.get("version_info")?.as_object()?;
    v.get("table_names")?.as_array()?;
    let table_count = usize::try_from(v.get("table_count")?.as_u64()?).ok()?;
    let tr = v.get("timeline_range")?;
    let min_timestamp = match tr.get("min_timestamp").filter(|x| !x.is_null()) {
        Some(x) => Some(x.as_i64()?),
        None => None,
    };
    let max_timestamp = match tr.get("max_timestamp").filter(|x| !x.is_null()) {
        Some(x) => Some(x.as_i64()?),
        None => None,
    };
    Some(WireMetadata { table_count, timeline_range: TimelineRange { min_timestamp, max_timestamp } })
}

/// The characters that a lossy UTF-8 decoding of the bytes yields; invalid
/// sequences become replacement characters, so the result depends on the
/// bytes alone.
pub uninterp spec fn lossy_chars(bytes: Seq<u8>) -> Seq<char>;

/// Relies on `String::from_utf8_lossy`: never fails, and decodes valid UTF-8
/// input exactly.
#[verifier::external_body]
fn string_from_utf8_lossy(bytes: &Vec<u8>) -> (r: String)
    ensures
        r@ == lossy_chars(bytes@) && (vstd::utf8::valid_utf8(bytes@) ==> r@
            == vstd::utf8::decode_utf8(bytes@)),
{
    String::from_utf8_lossy(bytes.as_slice()).to_string()
}

/// Where one connection stands in the protocol.
pub enum Phase {
    /// Expecting the four length bytes of the metadata document.
    MetaLen,
    /// Expecting the metadata document itself.
    MetaBody { len: usize },
    /// Expecting the four length bytes of the next table's name.
    TableNameLen { remaining: usize },
    /// Expecting the table name.
    TableName { len: usize, remaining: usize },
    /// Expecting the eight length bytes of the table's payload.
    TableSize { name: String, remaining: usize },
    /// Expecting the table's columnar payload.
    TableBody { name: String, len: usize, remaining: usize },
    /// All announced tables were processed.
    Done,
    /// The connection was aborted: its metadata did not parse, or a payload
    /// length does not fit in memory.
    Failed,
}

/// How many bytes the machine needs next; zero once it is finished (and for
/// frames that declare a zero length).
pub open spec fn needed_spec(p: Phase) -> int {
    match p {
        Phase::MetaLen => 4,
        Phase::MetaBody { len } => len as int,
        Phase::TableNameLen { .. } => 4,
        Phase::TableName { len, .. } => len as int,
        Phase::TableSize { .. } => 8,
        Phase::TableBody { len, .. } => len as int,
        Phase::Done => 0,
        Phase::Failed => 0,
    }
}

/// What any single feed guarantees about event ordering: the emitted flag
/// only ever rises, batch events presuppose it, and a metadata event raises
/// it.
pub open spec fn feed_step(pre: Connection, post: Connection, out: Seq<DataMessage>) -> bool {
    &&& (pre.metadata_emitted ==> post.metadata_emitted)
    &&& (forall|i: int|
        0 <= i < out.len() && (#[trigger] out[i]) is NewBatch ==> pre.metadata_emitted)
    &&& (forall|i: int|
        0 <= i < out.len() && (#[trigger] out[i]) is Metadata ==> !pre.metadata_emitted
            && post.metadata_emitted)
}

/// One inbound connection's protocol machine.
pub struct Connection {
    pub phase: Phase,
    pub metadata_emitted: bool,
}

impl Connection {
    /// The metadata event has been emitted exactly when the table phases are
    /// reached.
    pub open spec fn wf(self) -> bool {
        match self.phase {
            Phase::MetaLen | Phase::MetaBody { .. } => !self.metadata_emitted,
            Phase::TableNameLen { .. } | Phase::TableName { .. } | Phase::TableSize { .. }
                | Phase::TableBody { .. } => self.metadata_emitted,
            _ => true,
        }
    }

    /// A fresh connection expects the metadata length.
    pub fn new() -> (r: Self)
        ensures
            r.phase == Phase::MetaLen,
            !r.metadata_emitted,
            r.wf(),
    {
        Connection { phase: Phase::MetaLen, metadata_emitted: false }
    }

    /// How many bytes to read and feed next.
    pub fn needed(&self) -> (r: usize)
        ensures
            r == needed_spec(self.phase),
    {
        match &self.phase {
            Phase::MetaLen => 4,
            Phase::MetaBody { len } => *len,
            Phase::TableNameLen { .. } => 4,
            Phase::TableName { len, .. } => *len,
            Phase::TableSize { .. } => 8,
            Phase::TableBody { len, .. } => *len,
            Phase::Done => 0,
            Phase::Failed => 0,
        }
    }

    /// Whether the connection is over, normally or aborted.
    pub fn finished(&self) -> (r: bool)
        ensures
            r == (self.phase is Done || self.phase is Failed),
    {
        match &self.phase {
            Phase::Done => true,
            Phase::Failed => true,
            _ => false,
        }
    }

    /// Consumes the bytes the machine asked for and advances: lengths frame
    /// what follows, the metadata document decides the table count or aborts
    /// the connection, and each table payload is decoded into batch events —
    /// exactly one per batch the stream decoder yields, so an undecodable
    /// payload yields none and only skips its own table. Batch events only
    /// ever follow the metadata event.
    pub fn feed(&mut self, bytes: Vec<u8>) -> (out: Vec<DataMessage>)
        requires
            old(self).wf(),
            bytes@.len() == needed_spec(old(self).phase),
            !(old(self).phase is Done),
            !(old(self).phase is Failed),
        ensures
            final(self).wf(),
            feed_step(*old(self), *final(self), out@),
            (match old(self).phase {
                Phase::MetaLen => final(self).phase == (Phase::MetaBody {
                    len: spec_u32_from_le_bytes(bytes@) as usize,
                }) && out@.len() == 0 && final(self).metadata_emitted
                    == old(self).metadata_emitted,
                Phase::MetaBody { .. } => {
                    match parsed_metadata(bytes@) {
                        None => final(self).phase is Failed && out@.len() == 0
                            && final(self).metadata_emitted == old(self).metadata_emitted,
                        Some(m) => {
                            &&& out@.len() == 1
                            &&& out@[0] == DataMessage::Metadata(m.timeline_range)
                            &&& final(self).metadata_emitted
                            &&& final(self).phase == (if m.table_count == 0 {
                                Phase::Done
                            } else {
                                Phase::TableNameLen { remaining: m.table_count }
                            })
                        },
                    }
                },
                Phase::TableNameLen { remaining } => final(self).phase == (Phase::TableName {
                    len: spec_u32_from_le_bytes(bytes@) as usize,
                    remaining,
                }) && out@.len() == 0,
                Phase::TableName { len, remaining } => final(self).phase matches Phase::TableSize {
                    name,
                    remaining: rem2,
                } && name@ == lossy_chars(bytes@) && rem2 == remaining && out@.len() == 0,
                Phase::TableSize { name, remaining } => {
                    let sz = spec_u64_from_le_bytes(bytes@);
                    &&& out@.len() == 0
                    &&& (if sz <= usize::MAX {
                        final(self).phase == (Phase::TableBody {
                            name,
                            len: sz as usize,
                            remaining,
                        })
                    } else {
                        final(self).phase is Failed
                    })
                },
                Phase::TableBody { name, len, remaining } => {
                    &&& out@.len() == ipc_contents(bytes@).len()
                    &&& (forall|i: int|
                        0 <= i < out@.len() ==> ((#[trigger] out@[i]) matches
                        DataMessage::NewBatch(n, b) && n == name && batch_columns(b)
                            == ipc_contents(bytes@)[i]))
                    &&& (forall|cols: Seq<(Seq<char>, Seq<u32>)>|
                        bytes@ == #[trigger] ipc_payload(cols) ==> out@.len() == 1 && (
                        out@[0] matches DataMessage::NewBatch(_, b) && batch_columns(b)
                            == f32_batch(cols)))
                    &&& final(self).phase == (if remaining <= 1 {
                        Phase::Done
                    } else {
                        Phase::TableNameLen { remaining: (remaining - 1) as usize }
                    })
                },
                _ => false,
            }),
    {
        let mut phase = Phase::Failed;
        std::mem::swap(&mut phase, &mut self.phase);
        match phase {
            Phase::MetaLen => {
                let len = u32_from_le_bytes(bytes.as_slice());
                self.phase = Phase::MetaBody { len: len as usize };
                Vec::new()
            },
            Phase::MetaBody { .. } => {
                match parse_metadata(&bytes) {
                    None => Vec::new(),
                    Some(m) => {
                        self.metadata_emitted = true;
                        self.phase = if m.table_count == 0 {
                            Phase::Done
                        } else {
                            Phase::TableNameLen { remaining: m.table_count }
                        };
                        let mut out: Vec<DataMessage> = Vec::new();
                        out.push(DataMessage::Metadata(m.timeline_range));
                        out
                    },
                }
            },
            Phase::TableNameLen { remaining } => {
                let len = u32_from_le_bytes(bytes.as_slice());
                self.phase = Phase::TableName { len: len as usize, remaining };
                Vec::new()
            },
            Phase::TableName { len: _, remaining } => {
                let name = string_from_utf8_lossy(&bytes);
                self.phase = Phase::TableSize { name, remaining };
                Vec::new()
            },
            Phase::TableSize { name, remaining } => {
                let sz = u64_from_le_bytes(bytes.as_slice());
                if sz <= usize::MAX as u64 {
                    self.phase = Phase::TableBody { name, len: sz as usize, remaining };
                } else {
                    self.phase = Phase::Failed;
                }
                Vec::new()
            },
            Phase::TableBody { name, len: _, remaining } => {
                let (mut batches, _clean) = decode_batches(&bytes);
                let ghost bs = batches@;
                let bn = batches.len();
                proof {
                    assert(bs.len() == bn);
                }
                let mut out: Vec<DataMessage> = Vec::new();
                let mut bi: usize = 0;
                while batches.len() > 0
                    invariant
                        bi as int + batches@.len() == bs.len(),
                        bs.len() <= usize::MAX,
                        batches@ =~= bs.skip(bi as int),
                        out@.len() == bi,
                        forall|i: int|
                            0 <= i < out@.len() ==> ((#[trigger] out@[i]) matches
                            DataMessage::NewBatch(n, b) && n == name && b == bs[i]),
                    decreases batches@.len(),
                {
                    let b = batches.remove(0);
                    proof {
                        assert(b == bs[bi as int]);
                        assert(bs.skip(bi as int).drop_first() =~= bs.skip(bi as int + 1));
                    }
                    out.push(DataMessage::NewBatch(name.clone(), b));
                    bi = bi + 1;
                }
                self.phase = if remaining <= 1 {
                    Phase::Done
                } else {
                    Phase::TableNameLen { remaining: remaining - 1 }
                };
                out
            },
            Phase::Done => {
                Vec::new()
            },
            Phase::Failed => {
                Vec::new()
            },
        }
    }
}

/// The emitted flag never falls over a run.
proof fn lemma_emitted_monotone(
    states: Seq<Connection>,
    outs: Seq<Seq<DataMessage>>,
    a: int,
    b: int,
)
    requires
        states.len() == outs.len() + 1,
        forall|m: int|
            0 <= m < outs.len() ==> feed_step(#[trigger] states[m], states[m + 1], outs[m]),
        0 <= a <= b < states.len(),
        states[a].metadata_emitted,
    ensures
        states[b].metadata_emitted,
    decreases b - a,
{
    if a < b {
        assert(feed_step(states[a], states[a + 1], outs[a]));
        lemma_emitted_monotone(states, outs, a + 1, b);
    }
}

/// Over any run of one connection — a fresh machine fed any number of times —
/// the metadata event strictly precedes every batch event: a cycle that emits
/// a batch comes after the cycle that emitted the metadata.
pub proof fn lemma_metadata_precedes_batches(
    states: Seq<Connection>,
    outs: Seq<Seq<DataMessage>>,
    mc: int,
    mi: int,
    bc: int,
    bi: int,
)
    requires
        states.len() == outs.len() + 1,
        forall|m: int|
            0 <= m < outs.len() ==> feed_step(#[trigger] states[m], states[m + 1], outs[m]),
        0 <= mc < outs.len(),
        0 <= mi < outs[mc].len(),
        outs[mc][mi] is Metadata,
        0 <= bc < outs.len(),
        0 <= bi < outs[bc].len(),
        outs[bc][bi] is NewBatch,
    ensures
        mc < bc,
{
    assert(feed_step(states[mc], states[mc + 1], outs[mc]));
    assert(feed_step(states[bc], states[bc + 1], outs[bc]));
    assert(!states[mc].metadata_emitted && states[mc + 1].metadata_emitted);
    assert(states[bc].metadata_emitted);
    if bc <= mc {
        lemma_emitted_monotone(states, outs, bc, mc);
    }
}

} // verus!
