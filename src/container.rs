//! Demultiplexer for the JPEG XL container.
//!
//! The input is either a bare codestream or a sequence of ISO-BMFF style boxes.
//! The parser accepts bytes in chunks of any size and gathers the codestream
//! carried by `jxlc` or `jxlp` boxes. Its behaviour is described by a machine
//! that consumes one byte at a time (`step`); bytes that cannot be decided on
//! yet are kept in `pending`.
use vstd::prelude::*;

use crate::error::Error;

verus! {

/// Box type `jxlc`: the whole codestream.
pub const BOX_JXLC: u32 = 0x6a78_6c63;

/// Box type `jxlp`: one part of the codestream.
pub const BOX_JXLP: u32 = 0x6a78_6c70;

/// Structure of the decoded bitstream.
#[derive(Debug, Clone, Copy, PartialEq, Eq, Structural)]
pub enum BitstreamKind {
    /// Not enough bytes yet to tell.
    Unknown,
    /// A codestream without box structure.
    BareCodestream,
    /// A container with box structure.
    Container,
    /// Not a JPEG XL image.
    Invalid,
}

/// Where the parser stands in the input.
#[derive(Debug, Clone, Copy, PartialEq, Eq, Structural)]
pub enum DetectState {
    WaitingSignature,
    WaitingBoxHeader,
    /// A `jxlp` header was read; its payload size (index included) is given.
    WaitingJxlpIndex { box_size: Option<u64> },
    /// Inside an auxiliary box; `None` means it runs to the end of the input.
    InAuxBox { box_type: u32, bytes_left: Option<u64> },
    /// Copying codestream bytes; `None` means up to the end of the input.
    InCodestream { kind: BitstreamKind, bytes_left: Option<u64> },
    Done(BitstreamKind),
}

/// Progress through the `jxlc` / `jxlp` boxes.
#[derive(Debug, Clone, Copy, PartialEq, Eq, Structural)]
pub enum JxlpIndexState {
    Initial,
    SingleJxlc,
    /// Index that the current (or next) `jxlp` box must carry.
    Jxlp(u32),
    JxlpFinished,
}

/// Abstract state of the parser.
pub struct ContainerModel {
    pub state: DetectState,
    /// Bytes seen but not yet consumed.
    pub pending: Seq<u8>,
    /// Codestream bytes gathered and not yet taken.
    pub codestream: Seq<u8>,
    /// Payload of the auxiliary box being read.
    pub aux_data: Seq<u8>,
    /// Completed auxiliary boxes: type and payload.
    pub aux_boxes: Seq<(u32, Seq<u8>)>,
    pub jxlp: JxlpIndexState,
}

/// First bytes of a bare codestream.
pub open spec fn codestream_signature() -> Seq<u8> {
    seq![0xffu8, 0x0au8]
}

/// First bytes of a container.
pub open spec fn container_signature() -> Seq<u8> {
    seq![0u8, 0u8, 0u8, 0x0cu8, 0x4au8, 0x58u8, 0x4cu8, 0x20u8, 0x0du8, 0x0au8, 0x87u8, 0x0au8]
}

/// `p` is an initial part of `s`.
pub open spec fn is_prefix(p: Seq<u8>, s: Seq<u8>) -> bool {
    p.len() <= s.len() && p == s.take(p.len() as int)
}

/// Big-endian value of the four bytes at `at`.
pub open spec fn be32(b: Seq<u8>, at: int) -> int {
    b[at] as int * 0x100_0000 + b[at + 1] as int * 0x1_0000 + b[at + 2] as int * 0x100
        + b[at + 3] as int
}

/// Big-endian value of the eight bytes at `at`.
pub open spec fn be64(b: Seq<u8>, at: int) -> int {
    be32(b, at) * 0x1_0000_0000 + be32(b, at + 4)
}

/// State of a new parser.
pub open spec fn initial_model() -> ContainerModel {
    ContainerModel {
        state: DetectState::WaitingSignature,
        pending: seq![],
        codestream: seq![],
        aux_data: seq![],
        aux_boxes: seq![],
        jxlp: JxlpIndexState::Initial,
    }
}

/// What the parser can tell of the bitstream in state `s`.
pub open spec fn kind_of(s: DetectState) -> BitstreamKind {
    match s {
        DetectState::WaitingSignature => BitstreamKind::Unknown,
        DetectState::WaitingBoxHeader => BitstreamKind::Container,
        DetectState::WaitingJxlpIndex { .. } => BitstreamKind::Container,
        DetectState::InAuxBox { .. } => BitstreamKind::Container,
        DetectState::InCodestream { kind, .. } => kind,
        DetectState::Done(kind) => kind,
    }
}

impl ContainerModel {
    /// The states that the parser can be in.
    pub open spec fn wf(self) -> bool {
        &&& match self.state {
            DetectState::InCodestream { bytes_left: Some(k), kind } => k > 0 && kind
                == BitstreamKind::Container,
            DetectState::InAuxBox { bytes_left: Some(k), .. } => k > 0,
            DetectState::WaitingJxlpIndex { box_size } => {
                &&& (box_size matches Some(s) ==> s >= 4)
                &&& (self.jxlp matches JxlpIndexState::Jxlp(i) && i <= 0x8000_0000)
            },
            _ => true,
        }
        &&& (self.jxlp matches JxlpIndexState::Jxlp(i) ==> i <= 0x8000_0000)
        &&& (!(self.state is WaitingJxlpIndex || self.state is Done) ==> (
        self.jxlp matches JxlpIndexState::Jxlp(i) ==> i <= 0x7fff_ffff))
    }

    /// The same state with the parser moved to `s`.
    pub open spec fn with_state(self, s: DetectState) -> ContainerModel {
        ContainerModel { state: s, ..self }
    }
}

/// Start copying codestream bytes; an empty payload ends the box at once.
pub open spec fn enter_codestream(
    m: ContainerModel,
    kind: BitstreamKind,
    left: Option<u64>,
) -> ContainerModel {
    if left == Some(0u64) {
        m.with_state(DetectState::WaitingBoxHeader)
    } else {
        m.with_state(DetectState::InCodestream { kind, bytes_left: left })
    }
}

/// Start reading an auxiliary box; an empty payload completes it at once.
pub open spec fn enter_aux(m: ContainerModel, box_type: u32, left: Option<u64>) -> ContainerModel {
    if left == Some(0u64) {
        ContainerModel {
            state: DetectState::WaitingBoxHeader,
            aux_boxes: m.aux_boxes.push((box_type, seq![])),
            ..m
        }
    } else {
        ContainerModel {
            state: DetectState::InAuxBox { box_type, bytes_left: left },
            aux_data: seq![],
            ..m
        }
    }
}

/// A box header of the given type and payload size was read (`None` on a box rule
/// being broken).
pub open spec fn on_box_header(m: ContainerModel, box_type: u32, left: Option<u64>) -> Option<
    ContainerModel,
> {
    if box_type == BOX_JXLC {
        if m.jxlp == JxlpIndexState::Initial {
            Some(
                enter_codestream(
                    ContainerModel { jxlp: JxlpIndexState::SingleJxlc, ..m },
                    BitstreamKind::Container,
                    left,
                ),
            )
        } else {
            None
        }
    } else if box_type == BOX_JXLP {
        if left matches Some(n) && n < 4 {
            None
        } else {
            let next = DetectState::WaitingJxlpIndex { box_size: left };
            match m.jxlp {
                JxlpIndexState::Initial => Some(
                    ContainerModel { state: next, jxlp: JxlpIndexState::Jxlp(0), ..m },
                ),
                JxlpIndexState::Jxlp(i) => Some(
                    ContainerModel { state: next, jxlp: JxlpIndexState::Jxlp((i + 1) as u32), ..m },
                ),
                _ => None,
            }
        }
    } else {
        Some(enter_aux(m, box_type, left))
    }
}

/// The four index bytes of a `jxlp` box were read.
pub open spec fn on_jxlp_index(m: ContainerModel, box_size: Option<u64>, index: int) -> Option<
    ContainerModel,
> {
    let is_last = index >= 0x8000_0000;
    let seq_index = if is_last {
        index - 0x8000_0000
    } else {
        index
    };
    let left = match box_size {
        Some(s) => Some((s - 4) as u64),
        None => None,
    };
    match m.jxlp {
        JxlpIndexState::Jxlp(expected) => if expected == seq_index {
            let m2 = if is_last {
                ContainerModel { jxlp: JxlpIndexState::JxlpFinished, ..m }
            } else {
                m
            };
            Some(enter_codestream(m2, BitstreamKind::Container, left))
        } else {
            None
        },
        _ => None,
    }
}

/// The signature state after the pending bytes became `p`.
pub open spec fn signature_step(m: ContainerModel, p: Seq<u8>) -> ContainerModel {
    if p.len() >= 2 && p[0] == 0xffu8 && p[1] == 0x0au8 {
        ContainerModel {
            state: DetectState::InCodestream {
                kind: BitstreamKind::BareCodestream,
                bytes_left: None,
            },
            pending: seq![],
            codestream: m.codestream + p,
            ..m
        }
    } else if p == container_signature() {
        ContainerModel { state: DetectState::WaitingBoxHeader, pending: seq![], ..m }
    } else if !is_prefix(p, codestream_signature()) && !is_prefix(p, container_signature()) {
        ContainerModel {
            state: DetectState::InCodestream { kind: BitstreamKind::Invalid, bytes_left: None },
            pending: seq![],
            codestream: m.codestream + p,
            ..m
        }
    } else {
        ContainerModel { pending: p, ..m }
    }
}

/// The box header state after the pending bytes became `p`. A size field of 0
/// means the box runs to the end; 1 means a 64-bit size follows the type.
pub open spec fn header_step(m: ContainerModel, p: Seq<u8>) -> Option<ContainerModel> {
    let m0 = ContainerModel { pending: seq![], ..m };
    if p.len() == 8 && be32(p, 0) != 1 {
        let size = be32(p, 0);
        if size == 0 {
            on_box_header(m0, be32(p, 4) as u32, None)
        } else if size < 8 {
            None
        } else {
            on_box_header(m0, be32(p, 4) as u32, Some((size - 8) as u64))
        }
    } else if p.len() == 16 {
        let size = be64(p, 8);
        if size < 16 {
            None
        } else {
            on_box_header(m0, be32(p, 4) as u32, Some((size - 16) as u64))
        }
    } else {
        Some(ContainerModel { pending: p, ..m })
    }
}

/// Consumes one byte; `None` when it breaks a box rule.
pub open spec fn step(m: ContainerModel, b: u8) -> Option<ContainerModel> {
    let p = m.pending.push(b);
    match m.state {
        DetectState::WaitingSignature => Some(signature_step(m, p)),
        DetectState::WaitingBoxHeader => header_step(m, p),
        DetectState::WaitingJxlpIndex { box_size } => if p.len() == 4 {
            on_jxlp_index(ContainerModel { pending: seq![], ..m }, box_size, be32(p, 0))
        } else {
            Some(ContainerModel { pending: p, ..m })
        },
        DetectState::InCodestream { kind, bytes_left } => {
            let m1 = ContainerModel { codestream: m.codestream.push(b), ..m };
            match bytes_left {
                None => Some(m1),
                Some(k) => if k <= 1 {
                    Some(m1.with_state(DetectState::WaitingBoxHeader))
                } else {
                    Some(
                        m1.with_state(
                            DetectState::InCodestream { kind, bytes_left: Some((k - 1) as u64) },
                        ),
                    )
                },
            }
        },
        DetectState::InAuxBox { box_type, bytes_left } => {
            let data = m.aux_data.push(b);
            match bytes_left {
                None => Some(ContainerModel { aux_data: data, ..m }),
                Some(k) => if k <= 1 {
                    Some(
                        ContainerModel {
                            state: DetectState::WaitingBoxHeader,
                            aux_data: seq![],
                            aux_boxes: m.aux_boxes.push((box_type, data)),
                            ..m
                        },
                    )
                } else {
                    Some(
                        ContainerModel {
                            state: DetectState::InAuxBox {
                                box_type,
                                bytes_left: Some((k - 1) as u64),
                            },
                            aux_data: data,
                            ..m
                        },
                    )
                },
            }
        },
        DetectState::Done(_) => Some(ContainerModel { pending: p, ..m }),
    }
}

/// Consumes `bytes` in order; `None` as soon as one breaks a box rule.
pub open spec fn run(m: ContainerModel, bytes: Seq<u8>) -> Option<ContainerModel>
    decreases bytes.len(),
{
    if bytes.len() == 0 {
        Some(m)
    } else {
        match step(m, bytes[0]) {
            Some(m2) => run(m2, bytes.drop_first()),
            None => None,
        }
    }
}

/// `run` continued from a result that may be a failure.
pub open spec fn run_from(r: Option<ContainerModel>, bytes: Seq<u8>) -> Option<ContainerModel> {
    match r {
        Some(m) => run(m, bytes),
        None => None,
    }
}

/// The state after `finish`: an auxiliary box in progress is completed.
pub open spec fn finish_model(m: ContainerModel) -> ContainerModel {
    let m1 = if m.state is InAuxBox {
        ContainerModel {
            aux_boxes: m.aux_boxes.push((m.state->InAuxBox_box_type, m.aux_data)),
            aux_data: seq![],
            ..m
        }
    } else {
        m
    };
    m1.with_state(DetectState::Done(kind_of(m.state)))
}

/// Consuming `a` and then `b` is consuming `a + b`.
pub proof fn lemma_run_split(m: ContainerModel, a: Seq<u8>, b: Seq<u8>)
    ensures
        run(m, a + b) == run_from(run(m, a), b),
    decreases a.len(),
{
    if a.len() == 0 {
        assert(a + b =~= b);
    } else {
        assert((a + b).drop_first() =~= a.drop_first() + b);
        assert((a + b)[0] == a[0]);
        if let Some(m2) = step(m, a[0]) {
            lemma_run_split(m2, a.drop_first(), b);
        }
    }
}

/// Chunking does not matter: feeding `bytes` whole leaves the parser where
/// feeding its first `k` bytes and then the rest does.
pub proof fn lemma_chunking_invariant(m: ContainerModel, bytes: Seq<u8>, k: int)
    requires
        0 <= k <= bytes.len(),
    ensures
        run(m, bytes) == run_from(run(m, bytes.take(k)), bytes.skip(k)),
{
    assert(bytes =~= bytes.take(k) + bytes.skip(k));
    lemma_run_split(m, bytes.take(k), bytes.skip(k));
}

/// `h` is an 8-byte box header of the given type whose size field counts the
/// header and `payload_len` bytes of payload.
pub open spec fn is_box_header(h: Seq<u8>, box_type: u32, payload_len: int) -> bool {
    h.len() == 8 && be32(h, 0) == payload_len + 8 && be32(h, 4) == box_type
}

/// `b` is the 4-byte index of the `index`-th `jxlp` box, marked final when `last`.
pub open spec fn is_jxlp_index(b: Seq<u8>, index: int, last: bool) -> bool {
    b.len() == 4 && be32(b, 0) == (if last {
        index + 0x8000_0000
    } else {
        index
    })
}

/// The payloads one after the other.
pub open spec fn flatten(parts: Seq<Seq<u8>>) -> Seq<u8>
    decreases parts.len(),
{
    if parts.len() == 0 {
        seq![]
    } else {
        flatten(parts.drop_last()) + parts.last()
    }
}

/// The first `n` `jxlp` boxes: header, index and payload of each.
pub open spec fn jxlp_boxes(
    headers: Seq<Seq<u8>>,
    indices: Seq<Seq<u8>>,
    parts: Seq<Seq<u8>>,
    n: int,
) -> Seq<u8>
    decreases n,
{
    if n <= 0 {
        seq![]
    } else {
        jxlp_boxes(headers, indices, parts, n - 1) + headers[n - 1] + indices[n - 1] + parts[n
            - 1]
    }
}

/// The state right after the container signature.
pub open spec fn after_signature() -> ContainerModel {
    initial_model().with_state(DetectState::WaitingBoxHeader)
}

proof fn lemma_run_signature_prefix(k: int)
    requires
        0 <= k < 12,
    ensures
        run(initial_model(), container_signature().take(k)) == Some(
            ContainerModel { pending: container_signature().take(k), ..initial_model() },
        ),
    decreases k,
{
    reveal_with_fuel(run, 2);
    let sig = container_signature();
    if k == 0 {
        assert(initial_model().pending =~= sig.take(0));
    } else {
        lemma_run_signature_prefix(k - 1);
        assert(sig.take(k) =~= sig.take(k - 1) + seq![sig[k - 1]]);
        lemma_run_split(initial_model(), sig.take(k - 1), seq![sig[k - 1]]);
        let p = sig.take(k - 1).push(sig[k - 1]);
        assert(p =~= sig.take(k));
        assert(is_prefix(p, sig));
        assert(p.len() < 12);
        assert(p != sig);
        assert(seq![sig[k - 1]].drop_first().len() == 0);
    }
}

/// Reading the container signature leads to the first box header.
pub proof fn lemma_run_signature()
    ensures
        run(initial_model(), container_signature()) == Some(after_signature()),
{
    reveal_with_fuel(run, 2);
    let sig = container_signature();
    lemma_run_signature_prefix(11);
    assert(sig =~= sig.take(11) + seq![sig[11]]);
    lemma_run_split(initial_model(), sig.take(11), seq![sig[11]]);
    assert(sig.take(11).push(sig[11]) =~= sig);
    assert(seq![sig[11]].drop_first().len() == 0);
    assert(after_signature().pending =~= seq![]);
}

proof fn lemma_run_header_prefix(m: ContainerModel, bytes: Seq<u8>)
    requires
        m.state == DetectState::WaitingBoxHeader,
        m.pending.len() + bytes.len() < 8,
    ensures
        run(m, bytes) == Some(ContainerModel { pending: m.pending + bytes, ..m }),
    decreases bytes.len(),
{
    if bytes.len() == 0 {
        assert(m.pending + bytes =~= m.pending);
    } else {
        let m2 = ContainerModel { pending: m.pending.push(bytes[0]), ..m };
        assert(step(m, bytes[0]) == Some(m2));
        lemma_run_header_prefix(m2, bytes.drop_first());
        assert(m2.pending + bytes.drop_first() =~= m.pending + bytes);
    }
}

proof fn lemma_run_header(m: ContainerModel, h: Seq<u8>, box_type: u32, payload_len: int)
    requires
        m.state == DetectState::WaitingBoxHeader,
        m.pending == Seq::<u8>::empty(),
        is_box_header(h, box_type, payload_len),
        payload_len >= 0,
    ensures
        run(m, h) == on_box_header(m, box_type, Some(payload_len as u64)),
{
    reveal_with_fuel(run, 2);
    lemma_run_header_prefix(m, h.take(7));
    assert(h =~= h.take(7) + seq![h[7]]);
    lemma_run_split(m, h.take(7), seq![h[7]]);
    let m7 = ContainerModel { pending: m.pending + h.take(7), ..m };
    assert(m7.pending.push(h[7]) =~= h);
    assert(ContainerModel { pending: seq![], ..m7 } == m);
    assert(seq![h[7]].drop_first().len() == 0);
}

proof fn lemma_run_index(m: ContainerModel, bytes: Seq<u8>)
    requires
        m.state is WaitingJxlpIndex,
        m.pending.len() < 4,
        m.pending.len() + bytes.len() <= 4,
    ensures
        m.pending.len() + bytes.len() < 4 ==> run(m, bytes) == Some(
            ContainerModel { pending: m.pending + bytes, ..m },
        ),
        m.pending.len() + bytes.len() == 4 ==> run(m, bytes) == on_jxlp_index(
            ContainerModel { pending: seq![], ..m },
            m.state->WaitingJxlpIndex_box_size,
            be32(m.pending + bytes, 0),
        ),
    decreases bytes.len(),
{
    reveal_with_fuel(run, 2);
    if bytes.len() == 0 {
        assert(m.pending + bytes =~= m.pending);
    } else {
        let p = m.pending.push(bytes[0]);
        assert(p + bytes.drop_first() =~= m.pending + bytes);
        if p.len() < 4 {
            let m2 = ContainerModel { pending: p, ..m };
            lemma_run_index(m2, bytes.drop_first());
        } else {
            assert(bytes.drop_first().len() == 0);
            assert(p =~= m.pending + bytes);
        }
    }
}

/// What one `jxlp` box does to the parser.
proof fn lemma_run_jxlp_box(
    m: ContainerModel,
    h: Seq<u8>,
    ix: Seq<u8>,
    part: Seq<u8>,
    index: int,
    last: bool,
)
    requires
        m.state == DetectState::WaitingBoxHeader,
        m.pending == Seq::<u8>::empty(),
        0 <= index < 0x8000_0000,
        index == 0 ==> m.jxlp == JxlpIndexState::Initial,
        index > 0 ==> m.jxlp == JxlpIndexState::Jxlp((index - 1) as u32),
        is_box_header(h, BOX_JXLP, part.len() + 4 as int),
        is_jxlp_index(ix, index, last),
    ensures
        run(m, h + ix + part) == Some(
            ContainerModel {
                codestream: m.codestream + part,
                jxlp: if last {
                    JxlpIndexState::JxlpFinished
                } else {
                    JxlpIndexState::Jxlp(index as u32)
                },
                ..m
            },
        ),
{
    let l = part.len() as int;
    lemma_run_header(m, h, BOX_JXLP, l + 4);
    let m1 = ContainerModel {
        state: DetectState::WaitingJxlpIndex { box_size: Some((l + 4) as u64) },
        jxlp: JxlpIndexState::Jxlp(index as u32),
        ..m
    };
    assert(run(m, h) == Some(m1));
    lemma_run_split(m, h, ix);
    lemma_run_index(m1, ix);
    assert(m1.pending + ix =~= ix);
    let m2 = ContainerModel {
        jxlp: if last {
            JxlpIndexState::JxlpFinished
        } else {
            JxlpIndexState::Jxlp(index as u32)
        },
        ..m1
    };
    let m3 = enter_codestream(m2, BitstreamKind::Container, Some(l as u64));
    assert(run(m1, ix) == Some(m3));
    lemma_run_split(m, h + ix, part);
    let target = ContainerModel {
        codestream: m.codestream + part,
        jxlp: m2.jxlp,
        ..m
    };
    if l == 0 {
        assert(part =~= Seq::<u8>::empty());
        assert(m.codestream + part =~= m.codestream);
        assert(m3 == target);
    } else {
        lemma_run_codestream(m3, part);
    }
}

proof fn lemma_flatten_take(parts: Seq<Seq<u8>>, n: int)
    requires
        0 < n <= parts.len(),
    ensures
        flatten(parts.take(n)) == flatten(parts.take(n - 1)) + parts[n - 1],
{
    assert(parts.take(n).drop_last() =~= parts.take(n - 1));
}

/// State after the first `n` of `count` `jxlp` boxes.
pub open spec fn after_jxlp_boxes(
    m: ContainerModel,
    parts: Seq<Seq<u8>>,
    n: int,
    count: int,
) -> ContainerModel {
    ContainerModel {
        codestream: m.codestream + flatten(parts.take(n)),
        jxlp: if n == 0 {
            m.jxlp
        } else if n == count {
            JxlpIndexState::JxlpFinished
        } else {
            JxlpIndexState::Jxlp((n - 1) as u32)
        },
        ..m
    }
}

/// Well-formed `jxlp` boxes numbered from 0, the last one marked final.
pub open spec fn are_jxlp_boxes(
    headers: Seq<Seq<u8>>,
    indices: Seq<Seq<u8>>,
    parts: Seq<Seq<u8>>,
) -> bool {
    &&& headers.len() == parts.len()
    &&& indices.len() == parts.len()
    &&& parts.len() <= 0x8000_0000
    &&& forall|i: int|
        0 <= i < parts.len() ==> #[trigger] is_box_header(headers[i], BOX_JXLP, parts[i].len() + 4 as int)
            && is_jxlp_index(indices[i], i, i == parts.len() - 1)
}

proof fn lemma_run_jxlp_boxes(
    m: ContainerModel,
    headers: Seq<Seq<u8>>,
    indices: Seq<Seq<u8>>,
    parts: Seq<Seq<u8>>,
    n: int,
)
    requires
        m.state == DetectState::WaitingBoxHeader,
        m.pending == Seq::<u8>::empty(),
        m.jxlp == JxlpIndexState::Initial,
        are_jxlp_boxes(headers, indices, parts),
        0 <= n <= parts.len(),
    ensures
        run(m, jxlp_boxes(headers, indices, parts, n)) == Some(
            after_jxlp_boxes(m, parts, n, parts.len() as int),
        ),
    decreases n,
{
    if n == 0 {
        assert(flatten(parts.take(0)) =~= Seq::<u8>::empty()) by {
            assert(parts.take(0).len() == 0);
        }
        assert(m.codestream + flatten(parts.take(0)) =~= m.codestream);
    } else {
        lemma_run_jxlp_boxes(m, headers, indices, parts, n - 1);
        let prev = after_jxlp_boxes(m, parts, n - 1, parts.len() as int);
        assert(is_box_header(headers[n - 1], BOX_JXLP, parts[n - 1].len() + 4 as int));
        lemma_run_jxlp_box(
            prev,
            headers[n - 1],
            indices[n - 1],
            parts[n - 1],
            n - 1,
            n - 1 == parts.len() - 1,
        );
        let before = jxlp_boxes(headers, indices, parts, n - 1);
        let one = headers[n - 1] + indices[n - 1] + parts[n - 1];
        assert(jxlp_boxes(headers, indices, parts, n) =~= before + one);
        lemma_run_split(m, before, one);
        lemma_flatten_take(parts, n);
        assert(prev.codestream + parts[n - 1] =~= m.codestream + flatten(parts.take(n)));
    }
}

/// Splitting a codestream over `jxlp` boxes, numbered from 0 with the last one
/// marked final, gives the same codestream as carrying it whole in one `jxlc` box:
/// after the container signature, both inputs are accepted and both leave the
/// concatenated payloads as the codestream.
pub proof fn lemma_jxlp_parts_equal_jxlc(
    headers: Seq<Seq<u8>>,
    indices: Seq<Seq<u8>>,
    parts: Seq<Seq<u8>>,
    jxlc_header: Seq<u8>,
)
    requires
        parts.len() >= 1,
        are_jxlp_boxes(headers, indices, parts),
        is_box_header(jxlc_header, BOX_JXLC, flatten(parts).len() as int),
    ensures
        run(
            initial_model(),
            container_signature() + jxlp_boxes(headers, indices, parts, parts.len() as int),
        ) matches Some(a) && a.codestream == flatten(parts),
        run(initial_model(), container_signature() + jxlc_header + flatten(parts)) matches Some(b)
            && b.codestream == flatten(parts),
{
    let n = parts.len() as int;
    let m0 = after_signature();
    lemma_run_signature();
    assert(m0.pending =~= Seq::<u8>::empty());
    lemma_run_jxlp_boxes(m0, headers, indices, parts, n);
    lemma_run_split(
        initial_model(),
        container_signature(),
        jxlp_boxes(headers, indices, parts, n),
    );
    assert(parts.take(n) =~= parts);
    assert(m0.codestream + flatten(parts) =~= flatten(parts));
    let body = flatten(parts);
    lemma_run_header(m0, jxlc_header, BOX_JXLC, body.len() as int);
    assert(container_signature() + jxlc_header + body =~= container_signature() + (jxlc_header
        + body));
    lemma_run_split(initial_model(), container_signature(), jxlc_header + body);
    lemma_run_split(m0, jxlc_header, body);
    let m1 = enter_codestream(
        ContainerModel { jxlp: JxlpIndexState::SingleJxlc, ..m0 },
        BitstreamKind::Container,
        Some(body.len() as u64),
    );
    assert(m0.codestream + body =~= body);
    if body.len() == 0 {
        assert(body =~= Seq::<u8>::empty());
    } else {
        lemma_run_codestream(m1, body);
    }
}

proof fn lemma_step_keeps_kind(m: ContainerModel, b: u8)
    requires
        m.wf(),
        step(m, b) is Some,
    ensures
        step(m, b)->Some_0.wf(),
        m.codestream.len() <= step(m, b)->Some_0.codestream.len(),
        step(m, b)->Some_0.codestream.take(m.codestream.len() as int) == m.codestream,
        kind_of(m.state) != BitstreamKind::Unknown ==> kind_of(step(m, b)->Some_0.state)
            == kind_of(m.state),
{
    let m2 = step(m, b)->Some_0;
    let p = m.pending.push(b);
    assert((m.codestream + p).take(m.codestream.len() as int) =~= m.codestream);
    assert(m.codestream.push(b).take(m.codestream.len() as int) =~= m.codestream);
    assert(m.codestream.take(m.codestream.len() as int) =~= m.codestream);
}

/// Once the kind of the bitstream is decided it stays as it is, and the gathered
/// codestream only grows: whatever the parser accepts next keeps what it has
/// gathered as the start of its codestream.
pub proof fn lemma_run_keeps_kind(m: ContainerModel, bytes: Seq<u8>)
    requires
        m.wf(),
        run(m, bytes) is Some,
    ensures
        run(m, bytes)->Some_0.wf(),
        m.codestream.len() <= run(m, bytes)->Some_0.codestream.len(),
        run(m, bytes)->Some_0.codestream.take(m.codestream.len() as int) == m.codestream,
        kind_of(m.state) != BitstreamKind::Unknown ==> kind_of(run(m, bytes)->Some_0.state)
            == kind_of(m.state),
    decreases bytes.len(),
{
    if bytes.len() == 0 {
        assert(m.codestream.take(m.codestream.len() as int) =~= m.codestream);
    } else {
        lemma_step_keeps_kind(m, bytes[0]);
        let m2 = step(m, bytes[0])->Some_0;
        lemma_run_keeps_kind(m2, bytes.drop_first());
        let m3 = run(m, bytes)->Some_0;
        assert(m3.codestream.take(m.codestream.len() as int) =~= m3.codestream.take(
            m2.codestream.len() as int,
        ).take(m.codestream.len() as int));
    }
}

/// `m` with `c` put in front of its codestream.
pub open spec fn prepend_codestream(m: ContainerModel, c: Seq<u8>) -> ContainerModel {
    ContainerModel { codestream: c + m.codestream, ..m }
}

proof fn lemma_step_prepend(m: ContainerModel, c: Seq<u8>, b: u8)
    ensures
        step(prepend_codestream(m, c), b) == match step(m, b) {
            Some(m2) => Some(prepend_codestream(m2, c)),
            None => None,
        },
{
    let p = m.pending.push(b);
    assert((c + m.codestream).push(b) =~= c + m.codestream.push(b));
    assert((c + m.codestream) + p =~= c + (m.codestream + p));
}

proof fn lemma_run_prepend(m: ContainerModel, c: Seq<u8>, bytes: Seq<u8>)
    ensures
        run(prepend_codestream(m, c), bytes) == match run(m, bytes) {
            Some(m2) => Some(prepend_codestream(m2, c)),
            None => None,
        },
    decreases bytes.len(),
{
    if bytes.len() > 0 {
        lemma_step_prepend(m, c, bytes[0]);
        if let Some(m2) = step(m, bytes[0]) {
            lemma_run_prepend(m2, c, bytes.drop_first());
        }
    }
}

/// Taking the codestream out between two chunks loses nothing: what is taken
/// after the first chunk, followed by what the second chunk then adds, is what
/// feeding both chunks at once gathers.
pub proof fn lemma_take_between_chunks(m: ContainerModel, a: Seq<u8>, b: Seq<u8>)
    requires
        run(m, a) is Some,
    ensures
        ({
            let m1 = run(m, a)->Some_0;
            let taken = ContainerModel { codestream: seq![], ..m1 };
            match run(taken, b) {
                Some(m2) => run(m, a + b) == Some(prepend_codestream(m2, m1.codestream)),
                None => run(m, a + b) is None,
            }
        }),
{
    let m1 = run(m, a)->Some_0;
    let taken = ContainerModel { codestream: seq![], ..m1 };
    lemma_run_split(m, a, b);
    assert(prepend_codestream(taken, m1.codestream) == m1) by {
        assert(m1.codestream + Seq::<u8>::empty() =~= m1.codestream);
    }
    lemma_run_prepend(taken, m1.codestream, b);
}

/// Copying at most `k` bytes inside a codestream box with `k` bytes left.
pub proof fn lemma_run_codestream(m: ContainerModel, bytes: Seq<u8>)
    requires
        m.state is InCodestream,
        m.state->InCodestream_bytes_left matches Some(k) ==> 1 <= k && bytes.len() <= k,
    ensures
        run(m, bytes) == Some(
            match m.state->InCodestream_bytes_left {
                Some(k) => if bytes.len() == k {
                    ContainerModel {
                        codestream: m.codestream + bytes,
                        ..m.with_state(DetectState::WaitingBoxHeader)
                    }
                } else {
                    ContainerModel {
                        codestream: m.codestream + bytes,
                        ..m.with_state(
                            DetectState::InCodestream {
                                kind: m.state->InCodestream_kind,
                                bytes_left: Some((k - bytes.len()) as u64),
                            },
                        )
                    }
                },
                None => ContainerModel { codestream: m.codestream + bytes, ..m },
            },
        ),
    decreases bytes.len(),
{
    if bytes.len() == 0 {
        assert(m.codestream + bytes =~= m.codestream);
    } else {
        let m2 = step(m, bytes[0])->Some_0;
        let rest = bytes.drop_first();
        assert(m2.codestream + rest =~= m.codestream + bytes);
        if m2.state is InCodestream {
            lemma_run_codestream(m2, rest);
        } else {
            assert(rest.len() == 0);
            assert(m2.codestream =~= m.codestream + bytes);
        }
    }
}

/// Copying at most `k` bytes inside an auxiliary box with `k` bytes left.
pub proof fn lemma_run_aux(m: ContainerModel, bytes: Seq<u8>)
    requires
        m.state is InAuxBox,
        m.state->InAuxBox_bytes_left matches Some(k) ==> 1 <= k && bytes.len() <= k,
    ensures
        run(m, bytes) == Some(
            match m.state->InAuxBox_bytes_left {
                Some(k) => if bytes.len() == k {
                    ContainerModel {
                        state: DetectState::WaitingBoxHeader,
                        aux_data: seq![],
                        aux_boxes: m.aux_boxes.push(
                            (m.state->InAuxBox_box_type, m.aux_data + bytes),
                        ),
                        ..m
                    }
                } else {
                    ContainerModel {
                        state: DetectState::InAuxBox {
                            box_type: m.state->InAuxBox_box_type,
                            bytes_left: Some((k - bytes.len()) as u64),
                        },
                        aux_data: m.aux_data + bytes,
                        ..m
                    }
                },
                None => ContainerModel { aux_data: m.aux_data + bytes, ..m },
            },
        ),
    decreases bytes.len(),
{
    if bytes.len() == 0 {
        assert(m.aux_data + bytes =~= m.aux_data);
    } else {
        let m2 = step(m, bytes[0])->Some_0;
        let rest = bytes.drop_first();
        assert(m.aux_data.push(bytes[0]) + rest =~= m.aux_data + bytes);
        if m2.state is InAuxBox {
            lemma_run_aux(m2, rest);
        } else {
            assert(rest.len() == 0);
            assert(m.aux_data.push(bytes[0]) =~= m.aux_data + bytes);
        }
    }
}

/// Once done, the parser only keeps what it is given.
pub proof fn lemma_run_done(m: ContainerModel, bytes: Seq<u8>)
    requires
        m.state is Done,
    ensures
        run(m, bytes) == Some(ContainerModel { pending: m.pending + bytes, ..m }),
    decreases bytes.len(),
{
    if bytes.len() == 0 {
        assert(m.pending + bytes =~= m.pending);
    } else {
        let m2 = step(m, bytes[0])->Some_0;
        assert(m2.pending + bytes.drop_first() =~= m.pending + bytes);
        lemma_run_done(m2, bytes.drop_first());
    }
}

proof fn lemma_run_one(m: ContainerModel, bytes: Seq<u8>, i: int)
    requires
        0 <= i < bytes.len(),
    ensures
        run(m, bytes.skip(i)) == run_from(step(m, bytes[i]), bytes.skip(i + 1)),
{
    assert(bytes.skip(i).drop_first() =~= bytes.skip(i + 1));
}

proof fn lemma_run_single(m: ContainerModel, bytes: Seq<u8>, i: int)
    requires
        0 <= i < bytes.len(),
    ensures
        run(m, bytes.subrange(i, i + 1)) == step(m, bytes[i]),
{
    reveal_with_fuel(run, 2);
    assert(bytes.subrange(i, i + 1).drop_first().len() == 0);
}

proof fn lemma_run_part(m: ContainerModel, bytes: Seq<u8>, i: int, j: int)
    requires
        0 <= i <= j <= bytes.len(),
    ensures
        run(m, bytes.skip(i)) == run_from(run(m, bytes.subrange(i, j)), bytes.skip(j)),
{
    assert(bytes.skip(i) =~= bytes.subrange(i, j) + bytes.skip(j));
    lemma_run_split(m, bytes.subrange(i, j), bytes.skip(j));
}

/// Appends `src[from..to]` to `dst`.
fn append_range(dst: &mut Vec<u8>, src: &[u8], from: usize, to: usize)
    requires
        from <= to <= src@.len(),
    ensures
        final(dst)@ == old(dst)@ + src@.subrange(from as int, to as int),
{
    let mut i = from;
    while i < to
        invariant
            from <= i <= to <= src@.len(),
            dst@ == old(dst)@ + src@.subrange(from as int, i as int),
        decreases to - i,
    {
        dst.push(src[i]);
        assert(src@.subrange(from as int, i + 1) =~= src@.subrange(from as int, i as int).push(
            src@[i as int],
        ));
        i = i + 1;
    }
}

fn starts_with(p: &Vec<u8>, s: &Vec<u8>) -> (r: bool)
    ensures
        r == is_prefix(p@, s@),
{
    if p.len() > s.len() {
        return false;
    }
    let mut i: usize = 0;
    while i < p.len()
        invariant
            i <= p@.len() <= s@.len(),
            forall|j: int| 0 <= j < i ==> p@[j] == s@[j],
        decreases p@.len() - i,
    {
        if p[i] != s[i] {
            return false;
        }
        i = i + 1;
    }
    assert(p@ =~= s@.take(p@.len() as int));
    true
}

fn read_be32(b: &Vec<u8>, at: usize) -> (r: u32)
    requires
        at + 4 <= b@.len(),
    ensures
        r as int == be32(b@, at as int),
{
    let _n = b.len();
    (b[at] as u32) * 0x100_0000 + (b[at + 1] as u32) * 0x1_0000 + (b[at + 2] as u32) * 0x100 + (
    b[at + 3] as u32)
}

/// Container format parser.
#[derive(Debug)]
pub struct ContainerParser {
    state: DetectState,
    buf: Vec<u8>,
    codestream: Vec<u8>,
    aux_data: Vec<u8>,
    aux_boxes: Vec<(u32, Vec<u8>)>,
    jxlp_index_state: JxlpIndexState,
}

impl View for ContainerParser {
    type V = ContainerModel;

    closed spec fn view(&self) -> ContainerModel {
        ContainerModel {
            state: self.state,
            pending: self.buf@,
            codestream: self.codestream@,
            aux_data: self.aux_data@,
            aux_boxes: self.aux_boxes@.map_values(|e: (u32, Vec<u8>)| (e.0, e.1@)),
            jxlp: self.jxlp_index_state,
        }
    }
}

impl ContainerParser {
    pub closed spec fn wf(&self) -> bool {
        self@.wf()
    }

    pub fn new() -> (r: Self)
        ensures
            r@ == initial_model(),
            r.wf(),
    {
        let r = ContainerParser {
            state: DetectState::WaitingSignature,
            buf: Vec::new(),
            codestream: Vec::new(),
            aux_data: Vec::new(),
            aux_boxes: Vec::new(),
            jxlp_index_state: JxlpIndexState::Initial,
        };
        assert(r@.aux_boxes =~= seq![]);
        assert(r@.pending =~= seq![]);
        r
    }

    pub fn kind(&self) -> (r: BitstreamKind)
        ensures
            r == kind_of(self@.state),
    {
        match self.state {
            DetectState::WaitingSignature => BitstreamKind::Unknown,
            DetectState::WaitingBoxHeader => BitstreamKind::Container,
            DetectState::WaitingJxlpIndex { .. } => BitstreamKind::Container,
            DetectState::InAuxBox { .. } => BitstreamKind::Container,
            DetectState::InCodestream { kind, .. } => kind,
            DetectState::Done(kind) => kind,
        }
    }
    fn consume_signature_byte(&mut self, b: u8)
        requires
            old(self).wf(),
            old(self)@.state == DetectState::WaitingSignature,
        ensures
            final(self).wf(),
            step(old(self)@, b) == Some(final(self)@),
    {
        self.buf.push(b);
        let bare: Vec<u8> = vec![0xff, 0x0a];
        let boxed: Vec<u8> = vec![0, 0, 0, 0x0c, 0x4a, 0x58, 0x4c, 0x20, 0x0d, 0x0a, 0x87, 0x0a];
        assert(bare@ =~= codestream_signature());
        assert(boxed@ =~= container_signature());
        assert(container_signature().take(12) =~= container_signature());
        if self.buf.len() >= 2 && self.buf[0] == 0xff && self.buf[1] == 0x0a {
            self.codestream.append(&mut self.buf);
            self.state =
            DetectState::InCodestream { kind: BitstreamKind::BareCodestream, bytes_left: None };
            assert(self@.pending =~= seq![]);
        } else if self.buf.len() == 12 && starts_with(&self.buf, &boxed) {
            assert(self.buf@ =~= container_signature());
            self.buf.clear();
            self.state = DetectState::WaitingBoxHeader;
        } else if !starts_with(&self.buf, &bare) && !starts_with(&self.buf, &boxed) {
            self.codestream.append(&mut self.buf);
            self.state = DetectState::InCodestream { kind: BitstreamKind::Invalid, bytes_left: None };
            assert(self@.pending =~= seq![]);
        }
    }

    /// Acts on a box header; `false` when it breaks a box rule, leaving the state as it was.
    fn enter_box(&mut self, box_type: u32, left: Option<u64>) -> (ok: bool)
        requires
            old(self).wf(),
            old(self)@.state == DetectState::WaitingBoxHeader,
        ensures
            final(self).wf(),
            ok == on_box_header(old(self)@, box_type, left) is Some,
            ok ==> on_box_header(old(self)@, box_type, left) == Some(final(self)@),
    {
        if box_type == BOX_JXLC {
            match self.jxlp_index_state {
                JxlpIndexState::Initial => {},
                _ => {
                    return false;
                },
            }
            self.jxlp_index_state = JxlpIndexState::SingleJxlc;
            match left {
                Some(0) => {
                    self.state = DetectState::WaitingBoxHeader;
                },
                _ => {
                    self.state =
                    DetectState::InCodestream { kind: BitstreamKind::Container, bytes_left: left };
                },
            }
        } else if box_type == BOX_JXLP {
            if let Some(n) = left {
                if n < 4 {
                    return false;
                }
            }
            match self.jxlp_index_state {
                JxlpIndexState::Initial => {
                    self.jxlp_index_state = JxlpIndexState::Jxlp(0);
                },
                JxlpIndexState::Jxlp(i) => {
                    self.jxlp_index_state = JxlpIndexState::Jxlp(i + 1);
                },
                _ => {
                    return false;
                },
            }
            self.state = DetectState::WaitingJxlpIndex { box_size: left };
        } else {
            match left {
                Some(0) => {
                    self.aux_boxes.push((box_type, Vec::new()));
                    self.state = DetectState::WaitingBoxHeader;
                    assert(self@.aux_boxes =~= old(self)@.aux_boxes.push((box_type, seq![])));
                },
                _ => {
                    self.aux_data = Vec::new();
                    self.state = DetectState::InAuxBox { box_type, bytes_left: left };
                    assert(self@.aux_data =~= seq![]);
                },
            }
        }
        true
    }

    fn consume_header_byte(&mut self, b: u8) -> (ok: bool)
        requires
            old(self).wf(),
            old(self)@.state == DetectState::WaitingBoxHeader,
        ensures
            final(self).wf(),
            ok ==> step(old(self)@, b) == Some(final(self)@),
            !ok ==> step(old(self)@, b) is None,
    {
        self.buf.push(b);
        let n = self.buf.len();
        if n == 8 && read_be32(&self.buf, 0) != 1 {
            let size = read_be32(&self.buf, 0);
            let box_type = read_be32(&self.buf, 4);
            let left = if size == 0 {
                None
            } else if size < 8 {
                return false;
            } else {
                Some((size - 8) as u64)
            };
            self.buf.clear();
            assert(self@.pending =~= seq![]);
            self.enter_box(box_type, left)
        } else if n == 16 {
            let hi = read_be32(&self.buf, 8);
            let lo = read_be32(&self.buf, 12);
            let size: u64 = (hi as u64) * 0x1_0000_0000 + (lo as u64);
            if size < 16 {
                return false;
            }
            let box_type = read_be32(&self.buf, 4);
            self.buf.clear();
            assert(self@.pending =~= seq![]);
            self.enter_box(box_type, Some(size - 16))
        } else {
            true
        }
    }

    fn consume_index_byte(&mut self, b: u8, box_size: Option<u64>) -> (ok: bool)
        requires
            old(self).wf(),
            old(self)@.state == (DetectState::WaitingJxlpIndex { box_size }),
        ensures
            final(self).wf(),
            ok ==> step(old(self)@, b) == Some(final(self)@),
            !ok ==> step(old(self)@, b) is None,
    {
        self.buf.push(b);
        if self.buf.len() == 4 {
            let index = read_be32(&self.buf, 0);
            self.buf.clear();
            assert(self@.pending =~= seq![]);
            let is_last = index >= 0x8000_0000;
            let seq_index = if is_last {
                index - 0x8000_0000
            } else {
                index
            };
            match self.jxlp_index_state {
                JxlpIndexState::Jxlp(expected) => {
                    if expected != seq_index {
                        return false;
                    }
                },
                _ => {
                    return false;
                },
            }
            if is_last {
                self.jxlp_index_state = JxlpIndexState::JxlpFinished;
            }
            let left = match box_size {
                Some(s) => Some(s - 4),
                None => None,
            };
            match left {
                Some(0) => {
                    self.state = DetectState::WaitingBoxHeader;
                },
                _ => {
                    self.state =
                    DetectState::InCodestream { kind: BitstreamKind::Container, bytes_left: left };
                },
            }
        }
        true
    }
    /// Copies codestream bytes from `input[i..]`, as many as the box holds.
    fn copy_codestream(&mut self, input: &[u8], i: usize) -> (r: Result<usize, Error>)
        requires
            old(self).wf(),
            old(self)@.state is InCodestream,
            i < input@.len(),
        ensures
            final(self).wf(),
            r matches Ok(j) ==> i < j <= input@.len() && run(old(self)@, input@.skip(i as int))
                == run(final(self)@, input@.skip(j as int)) && run(
                old(self)@,
                input@.subrange(i as int, j as int),
            ) == Some(final(self)@),
            r matches Err(e) ==> e is OutOfMemory,
            r is Err ==> final(self)@ == old(self)@,
    {
        let (kind, bytes_left) = match self.state {
            DetectState::InCodestream { kind, bytes_left } => (kind, bytes_left),
            _ => (BitstreamKind::Invalid, None),
        };
        let avail = input.len() - i;
        let n: usize = match bytes_left {
            Some(k) => if k < avail as u64 {
                k as usize
            } else {
                avail
            },
            None => avail,
        };
        if self.codestream.try_reserve(n).is_err() {
            return Err(Error::OutOfMemory(n));
        }
        proof {
            lemma_run_part(self@, input@, i as int, i + n);
            lemma_run_codestream(self@, input@.subrange(i as int, i + n));
        }
        append_range(&mut self.codestream, input, i, i + n);
        match bytes_left {
            Some(k) => if k == n as u64 {
                self.state = DetectState::WaitingBoxHeader;
            } else {
                self.state = DetectState::InCodestream { kind, bytes_left: Some(k - n as u64) };
            },
            None => {},
        }
        Ok(i + n)
    }

    /// Copies auxiliary box bytes from `input[i..]`, as many as the box holds.
    fn copy_aux(&mut self, input: &[u8], i: usize) -> (r: Result<usize, Error>)
        requires
            old(self).wf(),
            old(self)@.state is InAuxBox,
            i < input@.len(),
        ensures
            final(self).wf(),
            r matches Ok(j) ==> i < j <= input@.len() && run(old(self)@, input@.skip(i as int))
                == run(final(self)@, input@.skip(j as int)) && run(
                old(self)@,
                input@.subrange(i as int, j as int),
            ) == Some(final(self)@),
            r matches Err(e) ==> e is OutOfMemory,
            r is Err ==> final(self)@ == old(self)@,
    {
        let (box_type, bytes_left) = match self.state {
            DetectState::InAuxBox { box_type, bytes_left } => (box_type, bytes_left),
            _ => (0, None),
        };
        let avail = input.len() - i;
        let n: usize = match bytes_left {
            Some(k) => if k < avail as u64 {
                k as usize
            } else {
                avail
            },
            None => avail,
        };
        if self.aux_data.try_reserve(n).is_err() {
            return Err(Error::OutOfMemory(n));
        }
        proof {
            lemma_run_part(self@, input@, i as int, i + n);
            lemma_run_aux(self@, input@.subrange(i as int, i + n));
        }
        let ghost before = self@;
        append_range(&mut self.aux_data, input, i, i + n);
        match bytes_left {
            Some(k) => if k == n as u64 {
                let mut data = Vec::new();
                std::mem::swap(&mut data, &mut self.aux_data);
                self.aux_boxes.push((box_type, data));
                self.state = DetectState::WaitingBoxHeader;
                assert(self@.aux_data =~= seq![]);
                assert(self@.aux_boxes =~= before.aux_boxes.push((box_type, data@)));
            } else {
                self.state = DetectState::InAuxBox { box_type, bytes_left: Some(k - n as u64) };
            },
            None => {},
        }
        Ok(i + n)
    }

    /// Consumes input from `input[i..]` in the current state; `Ok` gives where it stopped.
    fn feed_from(&mut self, input: &[u8], i: usize) -> (r: Result<usize, Error>)
        requires
            old(self).wf(),
            i < input@.len(),
        ensures
            final(self).wf(),
            r matches Ok(j) ==> i < j <= input@.len() && run(old(self)@, input@.skip(i as int))
                == run(final(self)@, input@.skip(j as int)) && run(
                old(self)@,
                input@.subrange(i as int, j as int),
            ) == Some(final(self)@),
            r matches Err(e) ==> (e == Error::InvalidBox && run(old(self)@, input@.skip(i as int))
                is None) || (e is OutOfMemory && final(self)@ == old(self)@ && (old(self)@.state is InCodestream
                || old(self)@.state is InAuxBox)),
    {
        match self.state {
            DetectState::WaitingSignature => {
                proof {
                    lemma_run_one(self@, input@, i as int);
                    lemma_run_single(self@, input@, i as int);
                }
                self.consume_signature_byte(input[i]);
                Ok(i + 1)
            },
            DetectState::WaitingBoxHeader => {
                proof {
                    lemma_run_one(self@, input@, i as int);
                    lemma_run_single(self@, input@, i as int);
                }
                if self.consume_header_byte(input[i]) {
                    Ok(i + 1)
                } else {
                    Err(Error::InvalidBox)
                }
            },
            DetectState::WaitingJxlpIndex { box_size } => {
                proof {
                    lemma_run_one(self@, input@, i as int);
                    lemma_run_single(self@, input@, i as int);
                }
                if self.consume_index_byte(input[i], box_size) {
                    Ok(i + 1)
                } else {
                    Err(Error::InvalidBox)
                }
            },
            DetectState::InCodestream { .. } => self.copy_codestream(input, i),
            DetectState::InAuxBox { .. } => self.copy_aux(input, i),
            DetectState::Done(_) => {
                proof {
                    lemma_run_part(self@, input@, i as int, input@.len() as int);
                    lemma_run_done(self@, input@.subrange(i as int, input@.len() as int));
                }
                append_range(&mut self.buf, input, i, input.len());
                Ok(input.len())
            },
        }
    }

    /// Feeds the next chunk of input. The parser moves as far as the bytes allow
    /// and keeps only those that it could not consume yet.
    pub fn feed_bytes(&mut self, input: &[u8]) -> (r: Result<(), Error>)
        requires
            old(self).wf(),
        ensures
            final(self).wf(),
            r is Ok ==> run(old(self)@, input@) == Some(final(self)@),
            run(old(self)@, input@) is None ==> r is Err,
            r matches Err(e) ==> (e == Error::InvalidBox && run(old(self)@, input@) is None)
                || e is OutOfMemory,
            r matches Err(Error::OutOfMemory(_)) ==> exists|j: int|
                0 <= j < input@.len() && run(old(self)@, input@.take(j)) == Some(final(self)@) && (
                final(self)@.state is InCodestream || final(self)@.state is InAuxBox),
    {
        let mut i: usize = 0;
        assert(input@.skip(0) =~= input@);
        assert(input@.take(0) =~= Seq::<u8>::empty());
        while i < input.len()
            invariant
                self.wf(),
                i <= input@.len(),
                run(old(self)@, input@) == run(self@, input@.skip(i as int)),
                run(old(self)@, input@.take(i as int)) == Some(self@),
            decreases input@.len() - i,
        {
            let ghost before = self@;
            match self.feed_from(input, i) {
                Ok(j) => {
                    proof {
                        assert(input@.take(j as int) =~= input@.take(i as int) + input@.subrange(
                            i as int,
                            j as int,
                        ));
                        lemma_run_split(
                            old(self)@,
                            input@.take(i as int),
                            input@.subrange(i as int, j as int),
                        );
                    }
                    i = j;
                },
                Err(e) => {
                    return Err(e);
                },
            }
        }
        Ok(())
    }

    /// Hands out the codestream bytes gathered so far.
    pub fn take_bytes(&mut self) -> (r: Vec<u8>)
        requires
            old(self).wf(),
        ensures
            final(self).wf(),
            r@ == old(self)@.codestream,
            final(self)@ == (ContainerModel { codestream: seq![], ..old(self)@ }),
    {
        let mut r = Vec::new();
        std::mem::swap(&mut r, &mut self.codestream);
        assert(self@.codestream =~= seq![]);
        r
    }

    /// The auxiliary boxes read so far: type and payload of each.
    pub fn aux_boxes(&self) -> (r: &Vec<(u32, Vec<u8>)>)
        ensures
            r@.map_values(|e: (u32, Vec<u8>)| (e.0, e.1@)) == self@.aux_boxes,
    {
        &self.aux_boxes
    }

    /// Ends the input: an auxiliary box in progress is completed as it stands.
    pub fn finish(&mut self)
        requires
            old(self).wf(),
        ensures
            final(self).wf(),
            final(self)@ == finish_model(old(self)@),
    {
        let kind = self.kind();
        if let DetectState::InAuxBox { box_type, .. } = self.state {
            let mut data = Vec::new();
            std::mem::swap(&mut data, &mut self.aux_data);
            self.aux_boxes.push((box_type, data));
            assert(self@.aux_data =~= seq![]);
            assert(self@.aux_boxes =~= old(self)@.aux_boxes.push((box_type, old(self)@.aux_data)));
        }
        self.state = DetectState::Done(kind);
    }
}

} // verus!
