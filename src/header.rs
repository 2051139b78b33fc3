//! The slice header: its fields, a builder, and its binary layout.
use vstd::prelude::*;

use crate::error::DecodeError;
use crate::itf8::{itf8_at, ltf8_at, read_itf8, read_ltf8};

verus! {

/// A 1-based position.
#[derive(Clone, Copy, Debug, PartialEq, Eq, Structural)]
pub struct Position(usize);

impl View for Position {
    type V = usize;

    closed spec fn view(&self) -> usize {
        self.0
    }
}

impl Position {
    /// A position is never 0.
    #[verifier::type_invariant]
    spec fn is_one_based(&self) -> bool {
        self.0 >= 1
    }

    /// The position `n`, or nothing when `n` is 0.
    pub fn new(n: usize) -> (r: Option<Position>)
        ensures
            r is Some <==> n != 0,
            r is Some ==> r->Some_0@ == n,
    {
        if n == 0 {
            None
        } else {
            Some(Position(n))
        }
    }

    pub fn get(&self) -> (r: usize)
        ensures
            r == self@,
            r >= 1,
    {
        proof {
            use_type_invariant(self);
        }
        self.0
    }
}

/// Which reference sequence the records of a slice are aligned to.
#[derive(Clone, Copy, Debug, PartialEq, Eq, Structural)]
pub enum ReferenceSequenceId {
    /// All records are aligned to the reference sequence with this (non-negative) id.
    Id(i32),
    /// The records are unmapped.
    Unmapped,
    /// The records are aligned to more than one reference sequence.
    Multiple,
}

/// The reference sequence id stored as `n` (-1 unmapped, -2 several), if `n` is one.
pub open spec fn reference_sequence_id_of(n: i32) -> Option<ReferenceSequenceId> {
    if n >= 0 {
        Some(ReferenceSequenceId::Id(n))
    } else if n == -1 {
        Some(ReferenceSequenceId::Unmapped)
    } else if n == -2 {
        Some(ReferenceSequenceId::Multiple)
    } else {
        None
    }
}

/// The fields of a slice header.
pub struct HeaderView {
    pub reference_sequence_id: ReferenceSequenceId,
    pub alignment_start: Option<usize>,
    pub alignment_span: usize,
    pub record_count: usize,
    pub record_counter: i64,
    pub block_count: usize,
    pub block_content_ids: Seq<i32>,
    pub embedded_reference_bases_block_content_id: Option<i32>,
    pub reference_md5: Seq<u8>,
    pub optional_tags: Seq<u8>,
}

/// The header of a slice.
#[derive(Debug)]
pub struct Header {
    reference_sequence_id: ReferenceSequenceId,
    alignment_start: Option<Position>,
    alignment_span: usize,
    record_count: usize,
    record_counter: i64,
    block_count: usize,
    block_content_ids: Vec<i32>,
    embedded_reference_bases_block_content_id: Option<i32>,
    reference_md5: [u8; 16],
    optional_tags: Vec<u8>,
}

pub open spec fn position_view(p: Option<Position>) -> Option<usize> {
    match p {
        Some(p) => Some(p@),
        None => None,
    }
}

impl View for Header {
    type V = HeaderView;

    closed spec fn view(&self) -> HeaderView {
        HeaderView {
            reference_sequence_id: self.reference_sequence_id,
            alignment_start: position_view(self.alignment_start),
            alignment_span: self.alignment_span,
            record_count: self.record_count,
            record_counter: self.record_counter,
            block_count: self.block_count,
            block_content_ids: self.block_content_ids@,
            embedded_reference_bases_block_content_id: self.embedded_reference_bases_block_content_id,
            reference_md5: self.reference_md5@,
            optional_tags: self.optional_tags@,
        }
    }
}

impl Header {
    pub fn reference_sequence_id(&self) -> (r: ReferenceSequenceId)
        ensures
            r == self@.reference_sequence_id,
    {
        self.reference_sequence_id
    }

    pub fn alignment_start(&self) -> (r: Option<Position>)
        ensures
            position_view(r) == self@.alignment_start,
    {
        self.alignment_start
    }

    pub fn alignment_span(&self) -> (r: usize)
        ensures
            r == self@.alignment_span,
    {
        self.alignment_span
    }

    pub fn record_count(&self) -> (r: usize)
        ensures
            r == self@.record_count,
    {
        self.record_count
    }

    pub fn record_counter(&self) -> (r: i64)
        ensures
            r == self@.record_counter,
    {
        self.record_counter
    }

    pub fn block_count(&self) -> (r: usize)
        ensures
            r == self@.block_count,
    {
        self.block_count
    }

    pub fn block_content_ids(&self) -> (r: &[i32])
        ensures
            r@ == self@.block_content_ids,
    {
        self.block_content_ids.as_slice()
    }

    pub fn embedded_reference_bases_block_content_id(&self) -> (r: Option<i32>)
        ensures
            r == self@.embedded_reference_bases_block_content_id,
    {
        self.embedded_reference_bases_block_content_id
    }

    pub fn reference_md5(&self) -> (r: &[u8])
        ensures
            r@ == self@.reference_md5,
    {
        self.reference_md5.as_slice()
    }

    pub fn optional_tags(&self) -> (r: &[u8])
        ensures
            r@ == self@.optional_tags,
    {
        self.optional_tags.as_slice()
    }
}

/// Builds a slice header one field at a time; every field starts zero, empty or absent
/// and the reference sequence id starts unmapped.
#[derive(Debug)]
pub struct Builder {
    reference_sequence_id: ReferenceSequenceId,
    alignment_start: Option<Position>,
    alignment_span: usize,
    record_count: usize,
    record_counter: i64,
    block_count: usize,
    block_content_ids: Vec<i32>,
    embedded_reference_bases_block_content_id: Option<i32>,
    reference_md5: [u8; 16],
    optional_tags: Vec<u8>,
}

/// The header that a fresh builder holds.
pub open spec fn default_header_view() -> HeaderView {
    HeaderView {
        reference_sequence_id: ReferenceSequenceId::Unmapped,
        alignment_start: None,
        alignment_span: 0,
        record_count: 0,
        record_counter: 0,
        block_count: 0,
        block_content_ids: Seq::empty(),
        embedded_reference_bases_block_content_id: None,
        reference_md5: Seq::new(16, |i: int| 0u8),
        optional_tags: Seq::empty(),
    }
}

impl View for Builder {
    type V = HeaderView;

    closed spec fn view(&self) -> HeaderView {
        HeaderView {
            reference_sequence_id: self.reference_sequence_id,
            alignment_start: position_view(self.alignment_start),
            alignment_span: self.alignment_span,
            record_count: self.record_count,
            record_counter: self.record_counter,
            block_count: self.block_count,
            block_content_ids: self.block_content_ids@,
            embedded_reference_bases_block_content_id: self.embedded_reference_bases_block_content_id,
            reference_md5: self.reference_md5@,
            optional_tags: self.optional_tags@,
        }
    }
}

impl Default for Builder {
    fn default() -> (r: Builder)
        ensures
            r@ == default_header_view(),
    {
        let b = Builder {
            reference_sequence_id: ReferenceSequenceId::Unmapped,
            alignment_start: None,
            alignment_span: 0,
            record_count: 0,
            record_counter: 0,
            block_count: 0,
            block_content_ids: Vec::new(),
            embedded_reference_bases_block_content_id: None,
            reference_md5: [0u8; 16],
            optional_tags: Vec::new(),
        };
        proof {
            assert(b@.reference_md5 =~= default_header_view().reference_md5);
            assert(b@.block_content_ids =~= Seq::<i32>::empty());
            assert(b@.optional_tags =~= Seq::<u8>::empty());
        }
        b
    }
}

impl Builder {
    pub fn set_reference_sequence_id(self, reference_sequence_id: ReferenceSequenceId) -> (r: Self)
        ensures
            r@ == (HeaderView { reference_sequence_id, ..self@ }),
    {
        Builder { reference_sequence_id, ..self }
    }

    pub fn set_alignment_start(self, alignment_start: Position) -> (r: Self)
        ensures
            r@ == (HeaderView { alignment_start: Some(alignment_start@), ..self@ }),
    {
        Builder { alignment_start: Some(alignment_start), ..self }
    }

    pub fn set_alignment_span(self, alignment_span: usize) -> (r: Self)
        ensures
            r@ == (HeaderView { alignment_span, ..self@ }),
    {
        Builder { alignment_span, ..self }
    }

    pub fn set_record_count(self, record_count: usize) -> (r: Self)
        ensures
            r@ == (HeaderView { record_count, ..self@ }),
    {
        Builder { record_count, ..self }
    }

    pub fn set_record_counter(self, record_counter: i64) -> (r: Self)
        ensures
            r@ == (HeaderView { record_counter, ..self@ }),
    {
        Builder { record_counter, ..self }
    }

    pub fn set_block_count(self, block_count: usize) -> (r: Self)
        ensures
            r@ == (HeaderView { block_count, ..self@ }),
    {
        Builder { block_count, ..self }
    }

    pub fn set_block_content_ids(self, block_content_ids: Vec<i32>) -> (r: Self)
        ensures
            r@ == (HeaderView { block_content_ids: block_content_ids@, ..self@ }),
    {
        Builder { block_content_ids, ..self }
    }

    pub fn set_embedded_reference_bases_block_content_id(self, id: i32) -> (r: Self)
        ensures
            r@ == (HeaderView { embedded_reference_bases_block_content_id: Some(id), ..self@ }),
    {
        Builder { embedded_reference_bases_block_content_id: Some(id), ..self }
    }

    pub fn set_reference_md5(self, reference_md5: [u8; 16]) -> (r: Self)
        ensures
            r@ == (HeaderView { reference_md5: reference_md5@, ..self@ }),
    {
        Builder { reference_md5, ..self }
    }

    pub fn set_optional_tags(self, optional_tags: Vec<u8>) -> (r: Self)
        ensures
            r@ == (HeaderView { optional_tags: optional_tags@, ..self@ }),
    {
        Builder { optional_tags, ..self }
    }

    pub fn build(self) -> (r: Header)
        ensures
            r@ == self@,
    {
        Header {
            reference_sequence_id: self.reference_sequence_id,
            alignment_start: self.alignment_start,
            alignment_span: self.alignment_span,
            record_count: self.record_count,
            record_counter: self.record_counter,
            block_count: self.block_count,
            block_content_ids: self.block_content_ids,
            embedded_reference_bases_block_content_id: self.embedded_reference_bases_block_content_id,
            reference_md5: self.reference_md5,
            optional_tags: self.optional_tags,
        }
    }
}

impl Header {
    /// A builder whose every field is at its default.
    pub fn builder() -> (r: Builder)
        ensures
            r@ == default_header_view(),
    {
        Builder::default()
    }
}

/// A non-negative ITF8 integer at `pos`, with the position after it.
pub open spec fn count_at(s: Seq<u8>, pos: int) -> Option<(i32, int)> {
    match itf8_at(s, pos) {
        Some((v, next)) => if v >= 0 {
            Some((v, next))
        } else {
            None
        },
        None => None,
    }
}

/// `n` ITF8 integers from `pos`, with the position after them.
pub open spec fn itf8s_at(s: Seq<u8>, pos: int, n: nat) -> Option<(Seq<i32>, int)>
    decreases n,
{
    if n == 0 {
        Some((Seq::empty(), pos))
    } else {
        match itf8s_at(s, pos, (n - 1) as nat) {
            Some((vs, p)) => match itf8_at(s, p) {
                Some((v, q)) => Some((vs.push(v), q)),
                None => None,
            },
            None => None,
        }
    }
}

/// The slice header that the bytes `s` hold, in order: the reference sequence id, the
/// alignment start (0 for none), the alignment span, the record count (ITF8 each), the
/// record counter (LTF8), the block count, the block content ids (an ITF8 length, then
/// ITF8 each), the embedded reference bases block content id (-1 for none), the 16
/// bytes of the reference MD5, and the optional tags (all remaining bytes).
pub open spec fn parse_header(s: Seq<u8>) -> Option<HeaderView> {
    match itf8_at(s, 0) {
        Some((rid, at1)) => match reference_sequence_id_of(rid) {
            Some(reference_sequence_id) => match count_at(s, at1) {
                Some((start, at2)) => match count_at(s, at2) {
                    Some((span, at3)) => match count_at(s, at3) {
                        Some((count, at4)) => match ltf8_at(s, at4) {
                            Some((counter, at5)) => match count_at(s, at5) {
                                Some((block_count, at6)) => match count_at(s, at6) {
                                    Some((n_ids, at7)) => match itf8s_at(s, at7, n_ids as nat) {
                                        Some((ids, at8)) => match itf8_at(s, at8) {
                                            Some((embedded, at9)) => if at9 + 16 <= s.len() {
                                                Some(
                                                    HeaderView {
                                                        reference_sequence_id,
                                                        alignment_start: if start == 0 {
                                                            None
                                                        } else {
                                                            Some(start as usize)
                                                        },
                                                        alignment_span: span as usize,
                                                        record_count: count as usize,
                                                        record_counter: counter,
                                                        block_count: block_count as usize,
                                                        block_content_ids: ids,
                                                        embedded_reference_bases_block_content_id:
                                                            if embedded == -1 {
                                                            None
                                                        } else {
                                                            Some(embedded)
                                                        },
                                                        reference_md5: s.subrange(at9, at9 + 16),
                                                        optional_tags: s.subrange(at9 + 16, s.len() as int),
                                                    },
                                                )
                                            } else {
                                                None
                                            },
                                            None => None,
                                        },
                                        None => None,
                                    },
                                    None => None,
                                },
                                None => None,
                            },
                            None => None,
                        },
                        None => None,
                    },
                    None => None,
                },
                None => None,
            },
            None => None,
        },
        None => None,
    }
}

fn read_count(s: &[u8], pos: usize) -> (r: Option<(i32, usize)>)
    ensures
        match r {
            Some((v, next)) => count_at(s@, pos as int) == Some((v, next as int)),
            None => count_at(s@, pos as int) is None,
        },
{
    match read_itf8(s, pos) {
        Some((v, next)) => if v >= 0 {
            Some((v, next))
        } else {
            None
        },
        None => None,
    }
}

proof fn lemma_itf8s_none_stays(s: Seq<u8>, pos: int, t: nat, n: nat)
    requires
        t <= n,
        itf8s_at(s, pos, t) is None,
    ensures
        itf8s_at(s, pos, n) is None,
    decreases n - t,
{
    if t < n {
        lemma_itf8s_none_stays(s, pos, t + 1, n);
    }
}

fn read_itf8s(s: &[u8], pos: usize, n: usize) -> (r: Option<(Vec<i32>, usize)>)
    ensures
        match itf8s_at(s@, pos as int, n as nat) {
            Some((vs, next)) => r is Some && r->Some_0.0@ == vs && r->Some_0.1 == next,
            None => r is None,
        },
{
    let mut vs: Vec<i32> = Vec::new();
    let mut p = pos;
    let mut t: usize = 0;
    while t < n
        invariant
            t <= n,
            itf8s_at(s@, pos as int, t as nat) == Some((vs@, p as int)),
        decreases n - t,
    {
        match read_itf8(s, p) {
            Some((v, next)) => {
                proof {
                    assert(itf8s_at(s@, pos as int, (t + 1) as nat) == Some((vs@.push(v), next as int)));
                }
                vs.push(v);
                p = next;
            },
            None => {
                proof {
                    lemma_itf8s_none_stays(s@, pos as int, (t + 1) as nat, n as nat);
                }
                return None;
            },
        }
        t = t + 1;
    }
    Some((vs, p))
}

/// Copies 16 bytes from `pos`.
fn read_md5(s: &[u8], pos: usize) -> (r: [u8; 16])
    requires
        pos + 16 <= s@.len(),
    ensures
        r@ == s@.subrange(pos as int, pos + 16),
{
    let mut md5 = [0u8; 16];
    let mut i: usize = 0;
    let len = s.len();
    while i < 16
        invariant
            i <= 16,
            len == s@.len(),
            pos + 16 <= s@.len(),
            md5@.len() == 16,
            forall|k: int| 0 <= k < i ==> md5@[k] == s@[pos + k],
        decreases 16 - i,
    {
        md5[i] = s[pos + i];
        i = i + 1;
    }
    proof {
        assert(md5@ =~= s@.subrange(pos as int, pos + 16));
    }
    md5
}

fn copy_from(s: &[u8], pos: usize) -> (r: Vec<u8>)
    requires
        pos <= s@.len(),
    ensures
        r@ == s@.subrange(pos as int, s@.len() as int),
{
    let mut out: Vec<u8> = Vec::new();
    let mut i: usize = pos;
    while i < s.len()
        invariant
            pos <= i <= s@.len(),
            out@ == s@.subrange(pos as int, i as int),
        decreases s.len() - i,
    {
        out.push(s[i]);
        i = i + 1;
        proof {
            assert(out@ =~= s@.subrange(pos as int, i as int));
        }
    }
    out
}

/// Reads a slice header from the bytes of the header block.
pub fn read_header(s: &[u8]) -> (r: Result<Header, DecodeError>)
    ensures
        match parse_header(s@) {
            Some(h) => r is Ok && r->Ok_0@ == h,
            None => r == Err::<Header, DecodeError>(DecodeError::HeaderDecode),
        },
{
    let (rid, at1) = match read_itf8(s, 0) {
        Some(x) => x,
        None => {
            return Err(DecodeError::HeaderDecode);
        },
    };
    let reference_sequence_id = if rid >= 0 {
        ReferenceSequenceId::Id(rid)
    } else if rid == -1 {
        ReferenceSequenceId::Unmapped
    } else if rid == -2 {
        ReferenceSequenceId::Multiple
    } else {
        return Err(DecodeError::HeaderDecode);
    };
    let (start, at2) = match read_count(s, at1) {
        Some(x) => x,
        None => {
            return Err(DecodeError::HeaderDecode);
        },
    };
    let (span, at3) = match read_count(s, at2) {
        Some(x) => x,
        None => {
            return Err(DecodeError::HeaderDecode);
        },
    };
    let (count, at4) = match read_count(s, at3) {
        Some(x) => x,
        None => {
            return Err(DecodeError::HeaderDecode);
        },
    };
    let (counter, at5) = match read_ltf8(s, at4) {
        Some(x) => x,
        None => {
            return Err(DecodeError::HeaderDecode);
        },
    };
    let (block_count, at6) = match read_count(s, at5) {
        Some(x) => x,
        None => {
            return Err(DecodeError::HeaderDecode);
        },
    };
    let (n_ids, at7) = match read_count(s, at6) {
        Some(x) => x,
        None => {
            return Err(DecodeError::HeaderDecode);
        },
    };
    let (ids, at8) = match read_itf8s(s, at7, n_ids as usize) {
        Some(x) => x,
        None => {
            return Err(DecodeError::HeaderDecode);
        },
    };
    let (embedded, at9) = match read_itf8(s, at8) {
        Some(x) => x,
        None => {
            return Err(DecodeError::HeaderDecode);
        },
    };
    if at9 > s.len() || s.len() - at9 < 16 {
        return Err(DecodeError::HeaderDecode);
    }
    let reference_md5 = read_md5(s, at9);
    let optional_tags = copy_from(s, at9 + 16);
    let header = Header {
        reference_sequence_id,
        alignment_start: Position::new(start as usize),
        alignment_span: span as usize,
        record_count: count as usize,
        record_counter: counter,
        block_count: block_count as usize,
        block_content_ids: ids,
        embedded_reference_bases_block_content_id: if embedded == -1 {
            None
        } else {
            Some(embedded)
        },
        reference_md5,
        optional_tags,
    };
    Ok(header)
}

} // verus!
