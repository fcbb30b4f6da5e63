//! The `HOLOSRED` version 1 certificate envelope: canonical bars, byte
//! encoding, and bounded decoding.

use vstd::prelude::*;

use crate::diagram::{Bar, Diagram, INFINITY_BITS};
use crate::text::{literal, with_number, with_numbers};

use super::algebra::change_views;
use super::bytes::{
    be_bytes, be_value, byte_power, lemma_be_bytes_len, lemma_be_roundtrip, lemma_be_value_bytes,
    put_u16, put_u32, put_u64, put_usize, Reader,
};
use super::model::{
    default_limits, CertificateError, CertificateLimits, CertificateTerm, CertificateView, ChangeColumn,
    ReductionCertificate,
};
use super::matrix::{
    check_change_columns, lemma_terms_total_monotone, lemma_terms_total_prefix, terms_total,
    valid_change_column, valid_change_columns,
};
use super::verify::valid_envelope;

verus! {

/// A canonical birth is finite, non-negative, and not negative zero.
pub open spec fn spec_canonical_birth(value: u64) -> bool {
    value < INFINITY_BITS
}

/// A canonical death, after a canonical birth, lies strictly above it and
/// is non-negative, possibly infinite, and not NaN.
pub open spec fn spec_canonical_death(birth: u64, death: u64) -> bool {
    birth < death <= INFINITY_BITS
}

/// A canonical interval lives in dimension 0 or 1.
pub open spec fn spec_canonical_bar(bar: Bar) -> bool {
    &&& bar.dim <= 1
    &&& spec_canonical_birth(bar.birth)
    &&& spec_canonical_death(bar.birth, bar.death)
}

/// Canonical diagram order: by dimension, then birth, then death.
pub open spec fn bar_le(first: Bar, second: Bar) -> bool {
    ||| first.dim < second.dim
    ||| first.dim == second.dim && first.birth < second.birth
    ||| first.dim == second.dim && first.birth == second.birth && first.death <= second.death
}

/// At most `max_bars` canonical intervals in canonical order.
pub open spec fn canonical_bars(bars: Seq<Bar>, max_bars: nat) -> bool {
    &&& bars.len() <= max_bars
    &&& forall|i: int| 0 <= i < bars.len() ==> spec_canonical_bar(#[trigger] bars[i])
    &&& forall|i: int, j: int| 0 <= i < j < bars.len() ==> bar_le(bars[i], bars[j])
}

/// Whether a birth value is canonical.
pub fn canonical_birth(value: u64) -> (canonical: bool)
    ensures
        canonical == spec_canonical_birth(value),
{
    value < INFINITY_BITS
}

/// Whether a death value is canonical after the canonical birth `birth`.
pub fn canonical_death(birth: u64, death: u64) -> (canonical: bool)
    requires
        spec_canonical_birth(birth),
    ensures
        canonical == spec_canonical_death(birth, death),
{
    death <= INFINITY_BITS && death > birth
}

/// Whether an interval is canonical.
pub fn canonical_bar(bar: &Bar) -> (canonical: bool)
    ensures
        canonical == spec_canonical_bar(*bar),
{
    bar.dim <= 1 && canonical_birth(bar.birth) && canonical_death(bar.birth, bar.death)
}

/// Whether `first` precedes or equals `second` in canonical order.
fn ordered_bars(first: &Bar, second: &Bar) -> (ordered: bool)
    ensures
        ordered == bar_le(*first, *second),
{
    first.dim < second.dim || (first.dim == second.dim && first.birth < second.birth) || (
    first.dim == second.dim && first.birth == second.birth && first.death <= second.death)
}

/// Check the recorded diagram: at most `max_bars` intervals, each
/// canonical, in canonical order.
pub fn check_bars(diagram: &Diagram, max_bars: usize) -> (result: Result<(), CertificateError>)
    ensures
        result is Ok <==> canonical_bars(diagram@, max_bars as nat),
{
    if diagram.bars.len() > max_bars {
        return Err(
            CertificateError::new(
                with_numbers("", diagram.bars.len(), " bars exceed the limit ", max_bars, ""),
            ),
        );
    }
    let mut index: usize = 0;
    while index < diagram.bars.len()
        invariant
            index <= diagram@.len(),
            forall|i: int| 0 <= i < index ==> spec_canonical_bar(#[trigger] diagram@[i]),
        decreases diagram@.len() - index,
    {
        if !canonical_bar(&diagram.bars[index]) {
            return Err(CertificateError::new(with_number("bar ", index, " is not canonical")));
        }
        index += 1;
    }
    let mut index: usize = 1;
    while index < diagram.bars.len()
        invariant
            1 <= index,
            index <= diagram@.len() || diagram@.len() == 0,
            forall|i: int, j: int| 0 <= i < j < index && j < diagram@.len() ==> bar_le(diagram@[i], diagram@[j]),
        decreases diagram@.len() - index,
    {
        if !ordered_bars(&diagram.bars[index - 1], &diagram.bars[index]) {
            return Err(CertificateError::new(literal("bars are not in canonical order")));
        }
        proof {
            assert forall|i: int, j: int| 0 <= i < j < index + 1 && j < diagram@.len() implies bar_le(
                diagram@[i],
                diagram@[j],
            ) by {
                if j == index && i < index - 1 {
                    assert(bar_le(diagram@[i], diagram@[index - 1]));
                }
            }
        }
        index += 1;
    }
    Ok(())
}


/// Envelope version written and accepted.
pub const WIRE_VERSION: u16 = 1;

/// Scalar codec tag: floats travel as their IEEE-754 bit patterns.
pub const F64_BITS_CODEC: u8 = 1;

/// The magic bytes `HOLOSRED`.
pub open spec fn magic() -> Seq<u8> {
    seq![72u8, 79u8, 76u8, 79u8, 83u8, 82u8, 69u8, 68u8]
}

/// An optional float: tag `0`, or tag `1` and its eight bit-pattern bytes.
pub open spec fn optional_bytes(value: Option<u64>) -> Seq<u8> {
    match value {
        None => seq![0u8],
        Some(bits) => seq![1u8] + be_bytes(bits as nat, 8),
    }
}

/// Each term as its eight-byte position and four-byte coefficient.
pub open spec fn terms_bytes(terms: Seq<CertificateTerm>) -> Seq<u8>
    decreases terms.len(),
{
    if terms.len() == 0 {
        Seq::empty()
    } else {
        terms_bytes(terms.drop_last()) + be_bytes(terms.last().index as nat, 8) + be_bytes(
            terms.last().coefficient as nat,
            4,
        )
    }
}

/// A change column: its eight-byte term count, then its terms.
pub open spec fn column_bytes(terms: Seq<CertificateTerm>) -> Seq<u8> {
    be_bytes(terms.len(), 8) + terms_bytes(terms)
}

/// Change columns one after another.
pub open spec fn columns_bytes(columns: Seq<Seq<CertificateTerm>>) -> Seq<u8>
    decreases columns.len(),
{
    if columns.len() == 0 {
        Seq::empty()
    } else {
        columns_bytes(columns.drop_last()) + column_bytes(columns.last())
    }
}

/// One interval: eight-byte dimension, birth bits, and death bits.
pub open spec fn bar_bytes(bar: Bar) -> Seq<u8> {
    be_bytes(bar.dim as nat, 8) + be_bytes(bar.birth as nat, 8) + be_bytes(bar.death as nat, 8)
}

/// Intervals one after another.
pub open spec fn bars_bytes(bars: Seq<Bar>) -> Seq<u8>
    decreases bars.len(),
{
    if bars.len() == 0 {
        Seq::empty()
    } else {
        bars_bytes(bars.drop_last()) + bar_bytes(bars.last())
    }
}

/// Header fields of an envelope.
pub struct HeaderView {
    /// Prime coefficient modulus.
    pub modulus: u32,
    /// Labeled vertex count.
    pub vertex_count: usize,
    /// Threshold bit pattern, if any.
    pub threshold: Option<u64>,
    /// Number of edge change columns.
    pub edges: nat,
    /// Number of triangle change columns.
    pub triangles: nat,
    /// Number of diagram intervals.
    pub bars: nat,
    /// Graph digest.
    pub digest: Seq<u8>,
}

/// Magic bytes, wire version, and scalar codec.
pub open spec fn preamble() -> Seq<u8> {
    magic() + (be_bytes(WIRE_VERSION as nat, 2) + seq![F64_BITS_CODEC])
}

/// The three record counts.
pub open spec fn counts_bytes(edges: nat, triangles: nat, bars: nat) -> Seq<u8> {
    be_bytes(edges, 8) + (be_bytes(triangles, 8) + be_bytes(bars, 8))
}

/// The fixed-layout header: preamble, modulus, vertex count, threshold,
/// the three record counts, and the graph digest.
pub open spec fn header_layout(header: HeaderView) -> Seq<u8> {
    preamble() + (be_bytes(header.modulus as nat, 4) + (be_bytes(header.vertex_count as nat, 8) + (
    optional_bytes(header.threshold) + (counts_bytes(header.edges, header.triangles, header.bars)
        + header.digest))))
}

/// Header fields of a certificate.
pub open spec fn header_view(certificate: CertificateView) -> HeaderView {
    HeaderView {
        modulus: certificate.modulus,
        vertex_count: certificate.vertex_count,
        threshold: certificate.threshold,
        edges: certificate.edge_columns.len(),
        triangles: certificate.triangle_columns.len(),
        bars: certificate.bars.len(),
        digest: certificate.graph_digest,
    }
}

/// The `HOLOSRED` version 1 bytes of a certificate.
pub open spec fn encoding(certificate: CertificateView) -> Seq<u8> {
    header_layout(header_view(certificate)) + (columns_bytes(certificate.edge_columns) + (
    columns_bytes(certificate.triangle_columns) + bars_bytes(certificate.bars)))
}

/// Append the magic bytes.
fn put_magic(out: &mut Vec<u8>)
    ensures
        final(out)@ == old(out)@ + magic(),
{
    out.push(72u8);
    out.push(79u8);
    out.push(76u8);
    out.push(79u8);
    out.push(83u8);
    out.push(82u8);
    out.push(69u8);
    out.push(68u8);
    assert(final(out)@ =~= old(out)@ + magic());
}

/// Append an optional float.
pub fn put_optional_f64(out: &mut Vec<u8>, value: Option<u64>)
    ensures
        final(out)@ == old(out)@ + optional_bytes(value),
{
    match value {
        None => {
            out.push(0);
            assert(final(out)@ =~= old(out)@ + optional_bytes(value));
        },
        Some(bits) => {
            out.push(1);
            let ghost tagged = out@;
            put_u64(out, bits);
            assert(final(out)@ =~= old(out)@ + optional_bytes(value));
        },
    }
}

/// Append change columns.
pub fn encode_columns(out: &mut Vec<u8>, columns: &[ChangeColumn]) -> (result: Result<
    (),
    CertificateError,
>)
    ensures
        result is Ok,
        final(out)@ == old(out)@ + columns_bytes(change_views(columns@)),
{
    let ghost views = change_views(columns@);
    let mut index: usize = 0;
    proof {
        assert(views.take(0) =~= Seq::<Seq<CertificateTerm>>::empty());
        assert(old(out)@ + columns_bytes(views.take(0)) =~= old(out)@);
    }
    while index < columns.len()
        invariant
            views == change_views(columns@),
            index <= columns.len(),
            out@ == old(out)@ + columns_bytes(views.take(index as int)),
        decreases columns.len() - index,
    {
        let column = &columns[index];
        let ghost before = out@;
        let _ = put_usize(out, column.terms.len(), "change-column term count");
        let mut term_index: usize = 0;
        proof {
            assert(column@.take(0) =~= Seq::<CertificateTerm>::empty());
            assert(out@ =~= before + be_bytes(column@.len(), 8) + terms_bytes(column@.take(0)));
        }
        while term_index < column.terms.len()
            invariant
                term_index <= column@.len(),
                out@ == before + be_bytes(column@.len(), 8) + terms_bytes(column@.take(term_index as int)),
            decreases column@.len() - term_index,
        {
            let term = column.terms[term_index];
            let _ = put_usize(out, term.index, "change-column source index");
            put_u32(out, term.coefficient);
            proof {
                assert(column@.take(term_index + 1).drop_last() =~= column@.take(term_index as int));
                assert(column@[term_index as int] == term);
                assert(out@ =~= before + be_bytes(column@.len(), 8) + terms_bytes(column@.take(term_index + 1)));
            }
            term_index += 1;
        }
        proof {
            assert(column@.take(column@.len() as int) =~= column@);
            assert(views[index as int] == column@);
            assert(views.take(index + 1).drop_last() =~= views.take(index as int));
            assert(out@ =~= old(out)@ + columns_bytes(views.take(index + 1)));
        }
        index += 1;
    }
    proof {
        assert(views.take(columns.len() as int) =~= views);
    }
    Ok(())
}

impl ReductionCertificate {
    /// Encode the canonical `HOLOSRED` version 1 envelope, after checking
    /// the envelope rules under the default limits.
    pub fn encode(&self) -> (result: Result<Vec<u8>, CertificateError>)
        ensures
            result is Ok <==> valid_envelope(self@, default_limits()),
            result matches Ok(bytes) ==> bytes@ == encoding(self@),
    {
        proof {
            self.lemma_view();
        }
        let checked = self.check_envelope(CertificateLimits::default());
        if checked.is_err() {
            return Err(checked.unwrap_err());
        }
        let mut out: Vec<u8> = Vec::new();
        put_magic(&mut out);
        put_u16(&mut out, WIRE_VERSION);
        out.push(F64_BITS_CODEC);
        put_u32(&mut out, self.modulus);
        let _ = put_usize(&mut out, self.vertex_count, "vertex count");
        put_optional_f64(&mut out, self.threshold);
        let _ = put_usize(&mut out, self.edge_columns.len(), "edge column count");
        let _ = put_usize(&mut out, self.triangle_columns.len(), "triangle column count");
        let _ = put_usize(&mut out, self.diagram.bars.len(), "bar count");
        let ghost before_digest = out@;
        let mut index: usize = 0;
        while index < 32
            invariant
                index <= 32,
                out@ == before_digest + self.graph_digest@.take(index as int),
            decreases 32 - index,
        {
            out.push(self.graph_digest[index]);
            proof {
                assert(self.graph_digest@.take(index + 1) =~= self.graph_digest@.take(index as int).push(self.graph_digest@[index as int]));
            }
            index += 1;
        }
        proof {
            assert(self.graph_digest@.take(32) =~= self.graph_digest@);
            assert(out@ =~= header_layout(header_view(self@)));
        }
        let _ = encode_columns(&mut out, self.edge_columns.as_slice());
        let _ = encode_columns(&mut out, self.triangle_columns.as_slice());
        let ghost before_bars = out@;
        let mut bar_index: usize = 0;
        proof {
            assert(self.diagram@.take(0) =~= Seq::<Bar>::empty());
            assert(out@ =~= before_bars + bars_bytes(self.diagram@.take(0)));
        }
        while bar_index < self.diagram.bars.len()
            invariant
                bar_index <= self.diagram@.len(),
                out@ == before_bars + bars_bytes(self.diagram@.take(bar_index as int)),
            decreases self.diagram@.len() - bar_index,
        {
            let bar = self.diagram.bars[bar_index];
            let _ = put_usize(&mut out, bar.dim, "bar dimension");
            put_u64(&mut out, bar.birth);
            put_u64(&mut out, bar.death);
            proof {
                assert(self.diagram@.take(bar_index + 1).drop_last() =~= self.diagram@.take(bar_index as int));
                assert(self.diagram@[bar_index as int] == bar);
                assert(out@ =~= before_bars + bars_bytes(self.diagram@.take(bar_index + 1)));
            }
            bar_index += 1;
        }
        proof {
            assert(self.diagram@.take(self.diagram@.len() as int) =~= self.diagram@);
            assert(out@ =~= encoding(self@));
        }
        Ok(out)
    }
}


/// `piece` occurs in `bytes` at offset `at`.
pub open spec fn starts_with(bytes: Seq<u8>, at: int, piece: Seq<u8>) -> bool {
    &&& 0 <= at
    &&& at + piece.len() <= bytes.len()
    &&& bytes.subrange(at, at + piece.len()) == piece
}

proof fn lemma_starts_split(bytes: Seq<u8>, at: int, first: Seq<u8>, second: Seq<u8>)
    requires
        starts_with(bytes, at, first + second),
    ensures
        starts_with(bytes, at, first),
        starts_with(bytes, at + first.len(), second),
{
    let whole = first + second;
    assert(bytes.subrange(at, at + first.len()) =~= whole.subrange(0, first.len() as int));
    assert(whole.subrange(0, first.len() as int) =~= first);
    assert(bytes.subrange(at + first.len(), at + first.len() + second.len()) =~= whole.subrange(
        first.len() as int,
        whole.len() as int,
    ));
    assert(whole.subrange(first.len() as int, whole.len() as int) =~= second);
}

proof fn lemma_consumed_join(bytes: Seq<u8>, x: int, y: int, z: int)
    requires
        0 <= x <= y <= z <= bytes.len(),
    ensures
        bytes.subrange(x, z) == bytes.subrange(x, y) + bytes.subrange(y, z),
{
    assert(bytes.subrange(x, z) =~= bytes.subrange(x, y) + bytes.subrange(y, z));
}

/// A fixed-width read of expected bytes returns the expected value.
proof fn lemma_read_expected(bytes: Seq<u8>, at: int, value: nat, width: nat, rest: Seq<u8>)
    requires
        starts_with(bytes, at, be_bytes(value, width) + rest),
        value < byte_power(width),
    ensures
        be_value(bytes.subrange(at, at + width)) == value,
        starts_with(bytes, at + width, rest),
        at + width <= bytes.len(),
{
    lemma_be_roundtrip(value, width);
    lemma_starts_split(bytes, at, be_bytes(value, width), rest);
}

/// Consumed bytes read back as the big-endian bytes of their value.
proof fn lemma_read_consumed(bytes: Seq<u8>, at: int, width: nat)
    requires
        0 <= at,
        at + width <= bytes.len(),
    ensures
        bytes.subrange(at, at + width) == be_bytes(be_value(bytes.subrange(at, at + width)), width),
{
    lemma_be_value_bytes(bytes.subrange(at, at + width));
}

proof fn lemma_small_powers()
    ensures
        byte_power(2) == 0x1_0000,
        byte_power(4) == 0x1_0000_0000,
        byte_power(8) == 0x1_0000_0000_0000_0000,
{
    reveal_with_fuel(byte_power, 9);
}

/// Check the envelope size against the byte limit.
fn check_envelope_size(bytes: &[u8], limits: CertificateLimits) -> (result: Result<
    (),
    CertificateError,
>)
    ensures
        result is Ok <==> bytes@.len() <= limits.max_bytes,
{
    if bytes.len() > limits.max_bytes {
        return Err(
            CertificateError::new(
                with_numbers("", bytes.len(), " bytes exceed the limit ", limits.max_bytes, ""),
            ),
        );
    }
    Ok(())
}

/// Whether eight bytes are the magic bytes.
fn is_magic(bytes: &[u8]) -> (matches: bool)
    requires
        bytes@.len() == 8,
    ensures
        matches == (bytes@ == magic()),
{
    let matches = bytes[0] == 72 && bytes[1] == 79 && bytes[2] == 76 && bytes[3] == 79 && bytes[4]
        == 83 && bytes[5] == 82 && bytes[6] == 69 && bytes[7] == 68;
    proof {
        if matches {
            assert(bytes@ =~= magic());
        } else {
            if bytes@ == magic() {
                assert(bytes@[0] == 72 && bytes@[1] == 79 && bytes@[2] == 76 && bytes@[3] == 79);
            }
        }
    }
    matches
}

/// Read the magic bytes, the wire version, and the scalar codec.
fn check_wire_preamble(reader: &mut Reader) -> (result: Result<(), CertificateError>)
    requires
        old(reader).wf(),
    ensures
        final(reader).wf(),
        final(reader).all() == old(reader).all(),
        result is Ok ==> final(reader).at() == old(reader).at() + 11 && final(reader).all().subrange(
            old(reader).at(),
            final(reader).at(),
        ) == preamble(),
        result is Ok <==> starts_with(old(reader).all(), old(reader).at(), preamble()),
{
    let ghost all = reader.all();
    let ghost at0 = reader.at();
    proof {
        reader.lemma_bounds();
        lemma_small_powers();
        lemma_be_roundtrip(WIRE_VERSION as nat, 2);
        assert(preamble().len() == 11);
        if starts_with(all, at0, preamble()) {
            lemma_starts_split(all, at0, magic(), be_bytes(WIRE_VERSION as nat, 2) + seq![F64_BITS_CODEC]);
            lemma_starts_split(all, at0 + 8, be_bytes(WIRE_VERSION as nat, 2), seq![F64_BITS_CODEC]);
        }
    }
    let taken = reader.take(8)?;
    if !is_magic(taken) {
        return Err(CertificateError::new(literal("wrong magic bytes")));
    }
    let version = reader.u16()?;
    if version != WIRE_VERSION {
        proof {
            if starts_with(all, at0, preamble()) {
                assert(all.subrange(at0 + 8, at0 + 10) == be_bytes(WIRE_VERSION as nat, 2));
            }
        }
        return Err(CertificateError::new(with_number("unsupported wire version ", version as usize, "")));
    }
    let codec = reader.u8()?;
    if codec != F64_BITS_CODEC {
        proof {
            if starts_with(all, at0, preamble()) {
                assert(all.subrange(at0 + 10, at0 + 11) == seq![F64_BITS_CODEC]);
                assert(all[at0 + 10] == all.subrange(at0 + 10, at0 + 11)[0]);
            }
        }
        return Err(CertificateError::new(with_number("unsupported scalar codec ", codec as usize, "")));
    }
    proof {
        lemma_read_consumed(all, at0 + 8, 2);
        assert(all.subrange(at0 + 10, at0 + 11) =~= seq![F64_BITS_CODEC]);
        assert(all.subrange(at0, at0 + 11) =~= all.subrange(at0, at0 + 8) + (all.subrange(at0 + 8, at0 + 10) + all.subrange(at0 + 10, at0 + 11)));
    }
    Ok(())
}


/// Counts of the three record lists of an envelope.
#[derive(Clone, Copy)]
struct RecordCounts {
    edges: usize,
    triangles: usize,
    bars: usize,
}

/// Header fields read from an envelope.
struct DecodedHeader {
    vertex_count: usize,
    threshold: Option<u64>,
    modulus: u32,
    graph_digest: [u8; 32],
    counts: RecordCounts,
}

spec fn decoded_view(header: DecodedHeader) -> HeaderView {
    HeaderView {
        modulus: header.modulus,
        vertex_count: header.vertex_count,
        threshold: header.threshold,
        edges: header.counts.edges as nat,
        triangles: header.counts.triangles as nat,
        bars: header.counts.bars as nat,
        digest: header.graph_digest@,
    }
}

/// The header fields respect `limits` and the digest has 32 bytes.
pub open spec fn header_fits(header: HeaderView, limits: CertificateLimits) -> bool {
    &&& header.vertex_count <= limits.max_vertices
    &&& header.edges <= limits.max_edges
    &&& header.triangles <= limits.max_triangles
    &&& header.bars <= limits.max_bars
    &&& header.digest.len() == 32
}

/// `expected` counts occur at `at` and respect `limits`.
spec fn expects_counts(
    bytes: Seq<u8>,
    at: int,
    expected: Option<(nat, nat, nat)>,
    limits: CertificateLimits,
) -> bool {
    match expected {
        Some((edges, triangles, bars)) => starts_with(bytes, at, counts_bytes(edges, triangles, bars))
            && edges <= limits.max_edges && triangles <= limits.max_triangles && bars
            <= limits.max_bars,
        None => false,
    }
}

/// An `expected` header occurs at `at` and fits `limits`.
spec fn expects_header(
    bytes: Seq<u8>,
    at: int,
    expected: Option<HeaderView>,
    limits: CertificateLimits,
) -> bool {
    match expected {
        Some(header) => starts_with(bytes, at, header_layout(header)) && header_fits(header, limits),
        None => false,
    }
}

/// Read the three bounded record counts.
fn decode_record_counts(
    reader: &mut Reader,
    limits: CertificateLimits,
    expected: Ghost<Option<(nat, nat, nat)>>,
) -> (result: Result<RecordCounts, CertificateError>)
    requires
        old(reader).wf(),
    ensures
        final(reader).wf(),
        final(reader).all() == old(reader).all(),
        result matches Ok(counts) ==> old(reader).at() <= final(reader).at() && final(reader).all().subrange(old(reader).at(), final(reader).at()) == counts_bytes(
            counts.edges as nat,
            counts.triangles as nat,
            counts.bars as nat,
        ) && counts.edges <= limits.max_edges && counts.triangles <= limits.max_triangles
            && counts.bars <= limits.max_bars,
        expects_counts(old(reader).all(), old(reader).at(), expected@, limits) ==> (result matches Ok(
            counts,
        ) && (counts.edges as nat, counts.triangles as nat, counts.bars as nat) == expected@.unwrap()
            && final(reader).at() == old(reader).at() + 24),
{
    let ghost all = reader.all();
    let ghost at0 = reader.at();
    proof {
        reader.lemma_bounds();
        lemma_small_powers();
        if let Some((e, t, b)) = expected@ {
            if starts_with(all, at0, counts_bytes(e, t, b)) && e <= limits.max_edges && t
                <= limits.max_triangles && b <= limits.max_bars {
                lemma_read_expected(all, at0, e, 8, be_bytes(t, 8) + be_bytes(b, 8));
                lemma_read_expected(all, at0 + 8, t, 8, be_bytes(b, 8));
                assert(be_bytes(b, 8) + Seq::<u8>::empty() =~= be_bytes(b, 8));
                lemma_read_expected(all, at0 + 16, b, 8, Seq::<u8>::empty());
            }
        }
    }
    let edges = reader.bounded_usize("edge column count", limits.max_edges)?;
    let triangles = reader.bounded_usize("triangle column count", limits.max_triangles)?;
    let bars = reader.bounded_usize("bar count", limits.max_bars)?;
    proof {
        lemma_read_consumed(all, at0, 8);
        lemma_read_consumed(all, at0 + 8, 8);
        lemma_read_consumed(all, at0 + 16, 8);
        assert(all.subrange(at0, at0 + 24) =~= all.subrange(at0, at0 + 8) + (all.subrange(at0 + 8, at0 + 16) + all.subrange(at0 + 16, at0 + 24)));
    }
    Ok(RecordCounts { edges, triangles, bars })
}

/// Read the header: preamble, modulus, bounded vertex count, threshold,
/// bounded record counts, and graph digest.
fn decode_header(
    reader: &mut Reader,
    limits: CertificateLimits,
    expected: Ghost<Option<HeaderView>>,
) -> (result: Result<DecodedHeader, CertificateError>)
    requires
        old(reader).wf(),
    ensures
        final(reader).wf(),
        final(reader).all() == old(reader).all(),
        result matches Ok(header) ==> old(reader).at() <= final(reader).at() && final(reader).all().subrange(old(reader).at(), final(reader).at()) == header_layout(
            decoded_view(header),
        ) && header_fits(decoded_view(header), limits),
        expects_header(old(reader).all(), old(reader).at(), expected@, limits) ==> (result matches Ok(
            decoded,
        ) && decoded_view(decoded) == expected@.unwrap() && final(reader).at() == old(reader).at()
            + header_layout(expected@.unwrap()).len()),
{
    let ghost all = reader.all();
    let ghost at0 = reader.at();
    let ghost matching = expects_header(all, at0, expected@, limits);
    let ghost x = expected@.unwrap();
    proof {
        reader.lemma_bounds();
        lemma_small_powers();
        if matching {
            lemma_starts_split(all, at0, preamble(), be_bytes(x.modulus as nat, 4) + (be_bytes(x.vertex_count as nat, 8) + (
                optional_bytes(x.threshold) + (counts_bytes(x.edges, x.triangles, x.bars) + x.digest))));
        }
    }
    let preamble_checked = check_wire_preamble(reader);
    if preamble_checked.is_err() {
        return Err(preamble_checked.unwrap_err());
    }
    let ghost at1 = reader.at();
    proof {
        if matching {
            lemma_read_expected(all, at1, x.modulus as nat, 4, be_bytes(x.vertex_count as nat, 8) + (
                optional_bytes(x.threshold) + (counts_bytes(x.edges, x.triangles, x.bars) + x.digest)));
            lemma_read_expected(all, at1 + 4, x.vertex_count as nat, 8,
                optional_bytes(x.threshold) + (counts_bytes(x.edges, x.triangles, x.bars) + x.digest));
        }
    }
    let modulus = reader.u32()?;
    let vertex_count = reader.bounded_usize("vertex count", limits.max_vertices)?;
    let ghost at2 = reader.at();
    proof {
        if matching {
            lemma_starts_split(all, at2, optional_bytes(x.threshold), counts_bytes(x.edges, x.triangles, x.bars) + x.digest);
            match x.threshold {
                None => {
                    assert(all.subrange(at2, at2 + 1) == seq![0u8]);
                    assert(all[at2] == all.subrange(at2, at2 + 1)[0]);
                },
                Some(bits) => {
                    lemma_starts_split(all, at2, seq![1u8], be_bytes(bits as nat, 8));
                    assert(all[at2] == all.subrange(at2, at2 + 1)[0]);
                    assert(be_bytes(bits as nat, 8) + Seq::<u8>::empty() =~= be_bytes(bits as nat, 8));
                    lemma_read_expected(all, at2 + 1, bits as nat, 8, Seq::<u8>::empty());
                },
            }
        }
    }
    let threshold = reader.optional_f64()?;
    let ghost at3 = reader.at();
    proof {
        match threshold {
            None => {
                assert(all.subrange(at2, at3) =~= seq![0u8]);
            },
            Some(bits) => {
                lemma_read_consumed(all, at2 + 1, 8);
                assert(all.subrange(at2, at3) =~= seq![1u8] + all.subrange(at2 + 1, at2 + 9));
            },
        }
        if matching {
            assert(at3 == at2 + optional_bytes(x.threshold).len());
            lemma_starts_split(all, at3, counts_bytes(x.edges, x.triangles, x.bars), x.digest);
        }
    }
    let counts = decode_record_counts(
        reader,
        limits,
        Ghost(if matching { Some((x.edges, x.triangles, x.bars)) } else { None }),
    )?;
    let ghost at4 = reader.at();
    let graph_digest = reader.array32()?;
    let ghost at5 = reader.at();
    let header = DecodedHeader { vertex_count, threshold, modulus, graph_digest, counts };
    proof {
        lemma_read_consumed(all, at1, 4);
        lemma_read_consumed(all, at1 + 4, 8);
        assert(all.subrange(at0, at5) =~= all.subrange(at0, at1) + (all.subrange(at1, at1 + 4) + (
            all.subrange(at1 + 4, at2) + (all.subrange(at2, at3) + (all.subrange(at3, at4)
            + all.subrange(at4, at5))))));
        if matching {
            assert(graph_digest@ == x.digest);
            assert(decoded_view(header) == x);
        }
    }
    Ok(header)
}


proof fn lemma_terms_bytes_concat(first: Seq<CertificateTerm>, second: Seq<CertificateTerm>)
    ensures
        terms_bytes(first + second) == terms_bytes(first) + terms_bytes(second),
    decreases second.len(),
{
    if second.len() == 0 {
        assert(first + second =~= first);
        assert(terms_bytes(first) + terms_bytes(second) =~= terms_bytes(first));
    } else {
        lemma_terms_bytes_concat(first, second.drop_last());
        assert((first + second).drop_last() =~= first + second.drop_last());
        assert((first + second).last() == second.last());
        let t = second.last();
        assert(terms_bytes(first) + terms_bytes(second) =~= terms_bytes(first) + terms_bytes(
            second.drop_last(),
        ) + be_bytes(t.index as nat, 8) + be_bytes(t.coefficient as nat, 4));
    }
}

proof fn lemma_columns_bytes_concat(
    first: Seq<Seq<CertificateTerm>>,
    second: Seq<Seq<CertificateTerm>>,
)
    ensures
        columns_bytes(first + second) == columns_bytes(first) + columns_bytes(second),
    decreases second.len(),
{
    if second.len() == 0 {
        assert(first + second =~= first);
        assert(columns_bytes(first) + columns_bytes(second) =~= columns_bytes(first));
    } else {
        lemma_columns_bytes_concat(first, second.drop_last());
        assert((first + second).drop_last() =~= first + second.drop_last());
        assert((first + second).last() == second.last());
        assert(columns_bytes(first) + columns_bytes(second) =~= columns_bytes(first) + columns_bytes(
            second.drop_last(),
        ) + column_bytes(second.last()));
    }
}

proof fn lemma_bars_bytes_concat(first: Seq<Bar>, second: Seq<Bar>)
    ensures
        bars_bytes(first + second) == bars_bytes(first) + bars_bytes(second),
    decreases second.len(),
{
    if second.len() == 0 {
        assert(first + second =~= first);
        assert(bars_bytes(first) + bars_bytes(second) =~= bars_bytes(first));
    } else {
        lemma_bars_bytes_concat(first, second.drop_last());
        assert((first + second).drop_last() =~= first + second.drop_last());
        assert((first + second).last() == second.last());
        assert(bars_bytes(first) + bars_bytes(second) =~= bars_bytes(first) + bars_bytes(
            second.drop_last(),
        ) + bar_bytes(second.last()));
    }
}

/// The bytes of the items from `k` on start with item `k`.
proof fn lemma_terms_from(terms: Seq<CertificateTerm>, k: int)
    requires
        0 <= k < terms.len(),
    ensures
        terms_bytes(terms.skip(k)) == (be_bytes(terms[k].index as nat, 8) + be_bytes(
            terms[k].coefficient as nat,
            4,
        )) + terms_bytes(terms.skip(k + 1)),
{
    assert(terms.skip(k) =~= seq![terms[k]] + terms.skip(k + 1));
    lemma_terms_bytes_concat(seq![terms[k]], terms.skip(k + 1));
    assert(seq![terms[k]].drop_last() =~= Seq::<CertificateTerm>::empty());
    assert(seq![terms[k]].last() == terms[k]);
    assert(terms_bytes(Seq::<CertificateTerm>::empty()) == Seq::<u8>::empty());
    assert(Seq::<u8>::empty() + be_bytes(terms[k].index as nat, 8) =~= be_bytes(terms[k].index as nat, 8));
    assert(terms_bytes(seq![terms[k]]) =~= be_bytes(terms[k].index as nat, 8) + be_bytes(
        terms[k].coefficient as nat,
        4,
    ));
}

proof fn lemma_columns_from(columns: Seq<Seq<CertificateTerm>>, k: int)
    requires
        0 <= k < columns.len(),
    ensures
        columns_bytes(columns.skip(k)) == column_bytes(columns[k]) + columns_bytes(
            columns.skip(k + 1),
        ),
{
    assert(columns.skip(k) =~= seq![columns[k]] + columns.skip(k + 1));
    lemma_columns_bytes_concat(seq![columns[k]], columns.skip(k + 1));
    assert(seq![columns[k]].drop_last() =~= Seq::<Seq<CertificateTerm>>::empty());
    assert(seq![columns[k]].last() == columns[k]);
    assert(columns_bytes(Seq::<Seq<CertificateTerm>>::empty()) == Seq::<u8>::empty());
    assert(Seq::<u8>::empty() + column_bytes(columns[k]) =~= column_bytes(columns[k]));
    assert(columns_bytes(seq![columns[k]]) =~= column_bytes(columns[k]));
}

proof fn lemma_bars_from(bars: Seq<Bar>, k: int)
    requires
        0 <= k < bars.len(),
    ensures
        bars_bytes(bars.skip(k)) == bar_bytes(bars[k]) + bars_bytes(bars.skip(k + 1)),
{
    assert(bars.skip(k) =~= seq![bars[k]] + bars.skip(k + 1));
    lemma_bars_bytes_concat(seq![bars[k]], bars.skip(k + 1));
    assert(seq![bars[k]].drop_last() =~= Seq::<Bar>::empty());
    assert(seq![bars[k]].last() == bars[k]);
    assert(bars_bytes(Seq::<Bar>::empty()) == Seq::<u8>::empty());
    assert(Seq::<u8>::empty() + bar_bytes(bars[k]) =~= bar_bytes(bars[k]));
    assert(bars_bytes(seq![bars[k]]) =~= bar_bytes(bars[k]));
}

proof fn lemma_terms_bytes_len(terms: Seq<CertificateTerm>)
    ensures
        terms_bytes(terms).len() == 12 * terms.len(),
    decreases terms.len(),
{
    if terms.len() > 0 {
        lemma_terms_bytes_len(terms.drop_last());
        lemma_be_bytes_len(terms.last().index as nat, 8);
        lemma_be_bytes_len(terms.last().coefficient as nat, 4);
    }
}

proof fn lemma_columns_bytes_len(columns: Seq<Seq<CertificateTerm>>)
    ensures
        columns_bytes(columns).len() == 8 * columns.len() + 12 * terms_total(columns),
    decreases columns.len(),
{
    if columns.len() > 0 {
        lemma_columns_bytes_len(columns.drop_last());
        lemma_be_bytes_len(columns.last().len(), 8);
        lemma_terms_bytes_len(columns.last());
    }
}

proof fn lemma_bars_bytes_len(bars: Seq<Bar>)
    ensures
        bars_bytes(bars).len() == 24 * bars.len(),
    decreases bars.len(),
{
    if bars.len() > 0 {
        lemma_bars_bytes_len(bars.drop_last());
        lemma_be_bytes_len(bars.last().dim as nat, 8);
        lemma_be_bytes_len(bars.last().birth as nat, 8);
        lemma_be_bytes_len(bars.last().death as nat, 8);
    }
}

/// Valid change columns are nonempty, so they hold at least one term each.
proof fn lemma_terms_at_least_columns(columns: Seq<Seq<CertificateTerm>>, p: nat)
    requires
        valid_change_columns(columns, p),
    ensures
        terms_total(columns) >= columns.len(),
    decreases columns.len(),
{
    if columns.len() > 0 {
        let rest = columns.drop_last();
        assert(valid_change_column(columns[columns.len() - 1], (columns.len() - 1) as nat, p));
        assert forall|j: int| 0 <= j < rest.len() implies valid_change_column(
            #[trigger] rest[j],
            j as nat,
            p,
        ) by {
            assert(rest[j] == columns[j]);
        }
        lemma_terms_at_least_columns(rest, p);
    }
}


/// The bytes of one term.
pub open spec fn term_bytes(term: CertificateTerm) -> Seq<u8> {
    be_bytes(term.index as nat, 8) + be_bytes(term.coefficient as nat, 4)
}

/// Read one term: an eight-byte position and a four-byte coefficient.
fn decode_term(reader: &mut Reader, expected: Ghost<Option<CertificateTerm>>) -> (result: Result<
    CertificateTerm,
    CertificateError,
>)
    requires
        old(reader).wf(),
    ensures
        final(reader).wf(),
        final(reader).all() == old(reader).all(),
        result matches Ok(term) ==> old(reader).at() <= final(reader).at() && final(reader).all().subrange(
            old(reader).at(),
            final(reader).at(),
        ) == term_bytes(term),
        (expected@ is Some && starts_with(
            old(reader).all(),
            old(reader).at(),
            term_bytes(expected@.unwrap()),
        )) ==> (result == Ok::<CertificateTerm, CertificateError>(expected@.unwrap()) && final(reader).at() == old(reader).at() + 12),
{
    let ghost all = reader.all();
    let ghost at0 = reader.at();
    proof {
        reader.lemma_bounds();
        lemma_small_powers();
        if expected@ is Some && starts_with(all, at0, term_bytes(expected@.unwrap())) {
            let x = expected@.unwrap();
            lemma_read_expected(all, at0, x.index as nat, 8, be_bytes(x.coefficient as nat, 4));
            assert(be_bytes(x.coefficient as nat, 4) + Seq::<u8>::empty() =~= be_bytes(x.coefficient as nat, 4));
            lemma_read_expected(all, at0 + 8, x.coefficient as nat, 4, Seq::<u8>::empty());
        }
    }
    let index = reader.usize()?;
    let coefficient = reader.u32()?;
    proof {
        lemma_read_consumed(all, at0, 8);
        lemma_read_consumed(all, at0 + 8, 4);
        assert(all.subrange(at0, at0 + 12) =~= all.subrange(at0, at0 + 8) + all.subrange(at0 + 8, at0 + 12));
    }
    Ok(CertificateTerm { index, coefficient })
}

/// Read one change column: its term count, charged against the running
/// term total, then its terms.
fn decode_column(
    reader: &mut Reader,
    column_index: usize,
    max_terms: usize,
    total_terms: &mut usize,
    expected: Ghost<Option<Seq<CertificateTerm>>>,
) -> (result: Result<ChangeColumn, CertificateError>)
    requires
        old(reader).wf(),
    ensures
        final(reader).wf(),
        final(reader).all() == old(reader).all(),
        result matches Ok(column) ==> old(reader).at() <= final(reader).at() && final(reader).all().subrange(old(reader).at(), final(reader).at()) == column_bytes(column@),
        (expected@ is Some && starts_with(
            old(reader).all(),
            old(reader).at(),
            column_bytes(expected@.unwrap()),
        ) && *old(total_terms) + expected@.unwrap().len() <= max_terms) ==> (result matches Ok(
            column,
        ) && column@ == expected@.unwrap() && final(reader).at() == old(reader).at()
            + column_bytes(expected@.unwrap()).len() && *final(total_terms) == *old(total_terms)
            + expected@.unwrap().len()),
{
    let ghost all = reader.all();
    let ghost at0 = reader.at();
    let ghost matching = expected@ is Some && starts_with(all, at0, column_bytes(expected@.unwrap()))
        && *total_terms + expected@.unwrap().len() <= max_terms;
    let ghost x = expected@.unwrap();
    proof {
        reader.lemma_bounds();
        lemma_small_powers();
        if matching {
            lemma_read_expected(all, at0, x.len(), 8, terms_bytes(x));
            lemma_terms_bytes_len(x);
            assert(x.skip(0) =~= x);
        }
    }
    let term_count = reader.usize()?;
    let counted = super::matrix::add_term_count(total_terms, term_count, max_terms);
    if counted.is_err() {
        return Err(counted.unwrap_err());
    }
    let remaining = reader.remaining();
    let bytes = match term_count.checked_mul(12) {
        None => {
            return Err(CertificateError::new(literal("term bytes overflow usize")));
        },
        Some(bytes) => bytes,
    };
    if bytes > remaining {
        return Err(
            CertificateError::new(
                with_number("column ", column_index, " terms exceed the remaining bytes"),
            ),
        );
    }
    let ghost at1 = reader.at();
    let mut terms: Vec<CertificateTerm> = Vec::new();
    let mut k: usize = 0;
    proof {
        lemma_read_consumed(all, at0, 8);
        assert(terms@ =~= Seq::<CertificateTerm>::empty());
    }
    while k < term_count
        invariant
            reader.wf(),
            reader.all() == all,
            all == old(reader).all(),
            at0 == old(reader).at(),
            x == expected@.unwrap(),
            matching == (expected@ is Some && starts_with(all, at0, column_bytes(x)) && *old(total_terms) + x.len() <= max_terms),
            *total_terms == *old(total_terms) + term_count,
            0 <= at0,
            at1 == at0 + 8,
            at0 <= at1 <= reader.at(),
            k <= term_count,
            terms@.len() == k,
            all.subrange(at0, at1) == be_bytes(term_count as nat, 8),
            all.subrange(at1, reader.at()) == terms_bytes(terms@),
            matching ==> term_count == x.len() && terms@ == x.take(k as int) && starts_with(
                all,
                reader.at(),
                terms_bytes(x.skip(k as int)),
            ),
        decreases term_count - k,
    {
        let ghost at_k = reader.at();
        proof {
            if matching {
                lemma_terms_from(x, k as int);
                lemma_starts_split(all, at_k, term_bytes(x[k as int]), terms_bytes(x.skip(k + 1)));
            }
        }
        let term = decode_term(reader, Ghost(if matching { Some(x[k as int]) } else { None }))?;
        let ghost before = terms@;
        terms.push(term);
        proof {
            reader.lemma_bounds();
            lemma_consumed_join(all, at1, at_k, reader.at());
            assert(terms@.drop_last() =~= before);
            assert(terms@.last() == term);
            assert(terms_bytes(terms@) =~= terms_bytes(before) + term_bytes(term));
            if matching {
                assert(terms@ =~= x.take(k + 1));
            }
        }
        k += 1;
    }
    proof {
        reader.lemma_bounds();
        lemma_consumed_join(all, at0, at1, reader.at());
        if matching {
            assert(x.take(x.len() as int) =~= x);
            lemma_terms_bytes_len(x);
        }
    }
    Ok(ChangeColumn { terms })
}


/// Read `count` change columns, charging their terms against the running
/// total, then check them as change columns over `modulus`.
fn decode_columns(
    reader: &mut Reader,
    count: usize,
    modulus: u32,
    max_terms: usize,
    total_terms: &mut usize,
    expected: Ghost<Option<Seq<Seq<CertificateTerm>>>>,
) -> (result: Result<Vec<ChangeColumn>, CertificateError>)
    requires
        old(reader).wf(),
    ensures
        final(reader).wf(),
        final(reader).all() == old(reader).all(),
        result matches Ok(columns) ==> columns.len() == count && old(reader).at() <= final(reader).at()
            && final(reader).all().subrange(old(reader).at(), final(reader).at()) == columns_bytes(
            change_views(columns@),
        ),
        (expected@ is Some && expected@.unwrap().len() == count && starts_with(
            old(reader).all(),
            old(reader).at(),
            columns_bytes(expected@.unwrap()),
        ) && valid_change_columns(expected@.unwrap(), modulus as nat) && *old(total_terms)
            + terms_total(expected@.unwrap()) <= max_terms) ==> (result matches Ok(columns)
            && change_views(columns@) == expected@.unwrap() && final(reader).at() == old(reader).at()
            + columns_bytes(expected@.unwrap()).len() && *final(total_terms) == *old(total_terms)
            + terms_total(expected@.unwrap())),
{
    let ghost all = reader.all();
    let ghost at0 = reader.at();
    let ghost x = expected@.unwrap();
    let ghost matching = expected@ is Some && x.len() == count && starts_with(all, at0, columns_bytes(x))
        && valid_change_columns(x, modulus as nat) && *total_terms + terms_total(x) <= max_terms;
    let ghost start_total = *total_terms;
    let mut columns: Vec<ChangeColumn> = Vec::new();
    let mut column_index: usize = 0;
    proof {
        reader.lemma_bounds();
        assert(x.skip(0) =~= x);
        assert(x.take(0) =~= Seq::<Seq<CertificateTerm>>::empty());
        assert(change_views(columns@) =~= Seq::<Seq<CertificateTerm>>::empty());
        assert(all.subrange(at0, at0) =~= Seq::<u8>::empty());
    }
    while column_index < count
        invariant
            reader.wf(),
            reader.all() == all,
            all == old(reader).all(),
            at0 == old(reader).at(),
            0 <= at0 <= reader.at(),
            x == expected@.unwrap(),
            start_total == *old(total_terms),
            matching == (expected@ is Some && x.len() == count && starts_with(all, at0, columns_bytes(x))
                && valid_change_columns(x, modulus as nat) && start_total + terms_total(x)
                <= max_terms),
            column_index <= count,
            columns.len() == column_index,
            all.subrange(at0, reader.at()) == columns_bytes(change_views(columns@)),
            matching ==> change_views(columns@) == x.take(column_index as int) && starts_with(
                all,
                reader.at(),
                columns_bytes(x.skip(column_index as int)),
            ) && *total_terms == start_total + terms_total(x.take(column_index as int)),
        decreases count - column_index,
    {
        let ghost at_k = reader.at();
        proof {
            if matching {
                lemma_columns_from(x, column_index as int);
                lemma_starts_split(all, at_k, column_bytes(x[column_index as int]), columns_bytes(x.skip(column_index + 1)));
                lemma_terms_total_prefix(x, column_index as int);
                lemma_terms_total_monotone(x, column_index + 1);
            }
        }
        let column = decode_column(
            reader,
            column_index,
            max_terms,
            total_terms,
            Ghost(if matching { Some(x[column_index as int]) } else { None }),
        )?;
        let ghost before = columns@;
        columns.push(column);
        proof {
            reader.lemma_bounds();
            lemma_consumed_join(all, at0, at_k, reader.at());
            assert(change_views(columns@) =~= change_views(before).push(column@));
            assert(change_views(columns@).drop_last() =~= change_views(before));
            if matching {
                assert(change_views(columns@) =~= x.take(column_index + 1));
            }
        }
        column_index += 1;
    }
    proof {
        if matching {
            assert(x.take(count as int) =~= x);
            lemma_columns_bytes_len(x);
        }
    }
    let mut checked: usize = 0;
    let valid = check_change_columns("decoded", columns.as_slice(), modulus, max_terms, &mut checked);
    if valid.is_err() {
        return Err(valid.unwrap_err());
    }
    Ok(columns)
}

/// Read `count` intervals: dimension, birth bits, and death bits.
fn decode_bars(reader: &mut Reader, count: usize, expected: Ghost<Option<Seq<Bar>>>) -> (result:
    Result<Vec<Bar>, CertificateError>)
    requires
        old(reader).wf(),
    ensures
        final(reader).wf(),
        final(reader).all() == old(reader).all(),
        result matches Ok(bars) ==> bars.len() == count && old(reader).at() <= final(reader).at()
            && final(reader).all().subrange(old(reader).at(), final(reader).at()) == bars_bytes(bars@),
        (expected@ is Some && expected@.unwrap().len() == count && starts_with(
            old(reader).all(),
            old(reader).at(),
            bars_bytes(expected@.unwrap()),
        )) ==> (result matches Ok(bars) && bars@ == expected@.unwrap() && final(reader).at() == old(reader).at()
            + bars_bytes(expected@.unwrap()).len()),
{
    let ghost all = reader.all();
    let ghost at0 = reader.at();
    let ghost x = expected@.unwrap();
    let ghost matching = expected@ is Some && x.len() == count && starts_with(all, at0, bars_bytes(x));
    let mut bars: Vec<Bar> = Vec::new();
    let mut index: usize = 0;
    proof {
        reader.lemma_bounds();
        lemma_small_powers();
        assert(x.skip(0) =~= x);
        assert(bars@ =~= Seq::<Bar>::empty());
        assert(all.subrange(at0, at0) =~= Seq::<u8>::empty());
    }
    while index < count
        invariant
            reader.wf(),
            reader.all() == all,
            all == old(reader).all(),
            at0 == old(reader).at(),
            0 <= at0 <= reader.at(),
            x == expected@.unwrap(),
            matching == (expected@ is Some && x.len() == count && starts_with(all, at0, bars_bytes(x))),
            index <= count,
            bars.len() == index,
            all.subrange(at0, reader.at()) == bars_bytes(bars@),
            matching ==> bars@ == x.take(index as int) && starts_with(
                all,
                reader.at(),
                bars_bytes(x.skip(index as int)),
            ),
        decreases count - index,
    {
        let ghost at_k = reader.at();
        proof {
            lemma_small_powers();
            if matching {
                let b = x[index as int];
                lemma_bars_from(x, index as int);
                assert(bar_bytes(b) + bars_bytes(x.skip(index + 1)) =~= be_bytes(b.dim as nat, 8) + (be_bytes(b.birth as nat, 8) + (be_bytes(b.death as nat, 8) + bars_bytes(x.skip(index + 1)))));
                lemma_read_expected(all, at_k, b.dim as nat, 8, be_bytes(b.birth as nat, 8) + (be_bytes(b.death as nat, 8) + bars_bytes(x.skip(index + 1))));
                lemma_read_expected(all, at_k + 8, b.birth as nat, 8, be_bytes(b.death as nat, 8) + bars_bytes(x.skip(index + 1)));
                lemma_read_expected(all, at_k + 16, b.death as nat, 8, bars_bytes(x.skip(index + 1)));
            }
        }
        let dim = reader.usize()?;
        let birth = reader.u64()?;
        let death = reader.u64()?;
        let bar = Bar { dim, birth, death };
        let ghost before = bars@;
        bars.push(bar);
        proof {
            reader.lemma_bounds();
            lemma_read_consumed(all, at_k, 8);
            lemma_read_consumed(all, at_k + 8, 8);
            lemma_read_consumed(all, at_k + 16, 8);
            assert(all.subrange(at_k, at_k + 24) =~= bar_bytes(bar));
            lemma_consumed_join(all, at0, at_k, reader.at());
            assert(bars@.drop_last() =~= before);
            assert(bars@.last() == bar);
            if matching {
                assert(bars@ =~= x.take(index + 1));
            }
        }
        index += 1;
    }
    proof {
        if matching {
            assert(x.take(count as int) =~= x);
            lemma_bars_bytes_len(x);
        }
    }
    Ok(bars)
}

/// The record counts need at least 20 bytes per change column and 24
/// bytes per interval.
fn check_minimum_record_bytes(reader: &Reader, counts: RecordCounts) -> (result: Result<
    (),
    CertificateError,
>)
    requires
        reader.wf(),
    ensures
        result is Ok <==> (counts.edges + counts.triangles) * 20 + counts.bars * 24 <= reader.all().len()
            - reader.at(),
{
    let edges = counts.edges;
    let triangles = counts.triangles;
    let bars = counts.bars;
    proof {
        reader.lemma_bounds();
    }
    let remaining = reader.remaining();
    let columns = match edges.checked_add(triangles) {
        None => {
            return Err(CertificateError::new(literal("minimum record bytes overflow usize")));
        },
        Some(columns) => columns,
    };
    let column_bytes = match columns.checked_mul(20) {
        None => {
            return Err(CertificateError::new(literal("minimum record bytes overflow usize")));
        },
        Some(bytes) => bytes,
    };
    let bar_bytes = match bars.checked_mul(24) {
        None => {
            return Err(CertificateError::new(literal("minimum record bytes overflow usize")));
        },
        Some(bytes) => bytes,
    };
    let minimum = match column_bytes.checked_add(bar_bytes) {
        None => {
            return Err(CertificateError::new(literal("minimum record bytes overflow usize")));
        },
        Some(minimum) => minimum,
    };
    if minimum > remaining {
        return Err(
            CertificateError::new(
                with_numbers(
                    "record counts need at least ",
                    minimum,
                    " bytes, only ",
                    remaining,
                    " remain",
                ),
            ),
        );
    }
    Ok(())
}

/// Refuse bytes after the last record.
fn check_no_trailing_bytes(reader: &Reader) -> (result: Result<(), CertificateError>)
    requires
        reader.wf(),
    ensures
        result is Ok <==> reader.at() == reader.all().len(),
{
    proof {
        reader.lemma_bounds();
    }
    let remaining = reader.remaining();
    if remaining != 0 {
        return Err(
            CertificateError::new(with_number("", remaining, " trailing bytes after the envelope")),
        );
    }
    Ok(())
}


/// A view a certificate value can hold: a 32-byte digest.
pub open spec fn representable(certificate: CertificateView) -> bool {
    certificate.graph_digest.len() == 32
}

/// Some representable certificate valid under `limits` has these bytes
/// as its encoding.
pub open spec fn encodes_valid(bytes: Seq<u8>, limits: CertificateLimits) -> bool {
    exists|certificate: CertificateView|
        representable(certificate) && valid_envelope(certificate, limits) && bytes
            == #[trigger] encoding(certificate)
}

impl ReductionCertificate {
    /// Decode and structurally validate a bounded `HOLOSRED` envelope.
    pub fn decode(bytes: &[u8], limits: CertificateLimits) -> (result: Result<
        ReductionCertificate,
        CertificateError,
    >)
        ensures
            result matches Ok(certificate) ==> valid_envelope(certificate@, limits) && bytes@
                == encoding(certificate@) && bytes@.len() <= limits.max_bytes,
            encodes_valid(bytes@, limits) && bytes@.len() <= limits.max_bytes ==> result is Ok,
    {
        let size = check_envelope_size(bytes, limits);
        if size.is_err() {
            return Err(size.unwrap_err());
        }
        let ghost target: Option<CertificateView> = if encodes_valid(bytes@, limits) {
            Some(
                choose|certificate: CertificateView|
                    representable(certificate) && valid_envelope(certificate, limits) && bytes@
                        == #[trigger] encoding(certificate),
            )
        } else {
            None
        };
        let ghost v = target.unwrap();
        let mut reader = Reader::new(bytes);
        let ghost all = bytes@;
        proof {
            if target is Some {
                assert(all.subrange(0, all.len() as int) =~= all);
                lemma_starts_split(all, 0, header_layout(header_view(v)), columns_bytes(v.edge_columns) + (
                    columns_bytes(v.triangle_columns) + bars_bytes(v.bars)));
            }
        }
        let header = decode_header(
            &mut reader,
            limits,
            Ghost(if target is Some { Some(header_view(v)) } else { None }),
        )?;
        let ghost at_h = reader.at();
        proof {
            reader.lemma_bounds();
            if target is Some {
                lemma_starts_split(all, at_h, columns_bytes(v.edge_columns), columns_bytes(v.triangle_columns) + bars_bytes(v.bars));
                lemma_columns_bytes_len(v.edge_columns);
                lemma_columns_bytes_len(v.triangle_columns);
                lemma_bars_bytes_len(v.bars);
                lemma_terms_at_least_columns(v.edge_columns, v.modulus as nat);
                lemma_terms_at_least_columns(v.triangle_columns, v.modulus as nat);
            }
        }
        let minimum = check_minimum_record_bytes(&reader, header.counts);
        if minimum.is_err() {
            return Err(minimum.unwrap_err());
        }
        let mut total_terms: usize = 0;
        let edge_columns = decode_columns(
            &mut reader,
            header.counts.edges,
            header.modulus,
            limits.max_terms,
            &mut total_terms,
            Ghost(if target is Some { Some(v.edge_columns) } else { None }),
        )?;
        let ghost at_e = reader.at();
        proof {
            reader.lemma_bounds();
            if target is Some {
                lemma_starts_split(all, at_e, columns_bytes(v.triangle_columns), bars_bytes(v.bars));
            }
        }
        let triangle_columns = decode_columns(
            &mut reader,
            header.counts.triangles,
            header.modulus,
            limits.max_terms,
            &mut total_terms,
            Ghost(if target is Some { Some(v.triangle_columns) } else { None }),
        )?;
        let ghost at_t = reader.at();
        let bars = decode_bars(
            &mut reader,
            header.counts.bars,
            Ghost(if target is Some { Some(v.bars) } else { None }),
        )?;
        let ghost at_b = reader.at();
        let trailing = check_no_trailing_bytes(&reader);
        if trailing.is_err() {
            return Err(trailing.unwrap_err());
        }
        let certificate = ReductionCertificate {
            vertex_count: header.vertex_count,
            threshold: header.threshold,
            modulus: header.modulus,
            graph_digest: header.graph_digest,
            edge_columns,
            triangle_columns,
            diagram: Diagram { bars },
        };
        proof {
            certificate.lemma_view();
            reader.lemma_bounds();
            lemma_consumed_join(all, 0, at_h, at_e);
            lemma_consumed_join(all, at_e, at_t, at_b);
            lemma_consumed_join(all, at_h, at_e, at_b);
            lemma_consumed_join(all, 0, at_h, at_b);
            assert(all.subrange(0, at_b) =~= all);
            assert(header_view(certificate@) == decoded_view(header));
            assert(all =~= encoding(certificate@));
            if target is Some {
                assert(certificate@ == v);
            }
        }
        let checked = certificate.check_envelope(limits);
        if checked.is_err() {
            return Err(checked.unwrap_err());
        }
        Ok(certificate)
    }
}


/// Round trip: the bytes that `encode` writes for a certificate that is
/// valid under `limits` are bytes that `decode` accepts under `limits`
/// when they fit its byte limit, and what it returns encodes to the same
/// bytes.
pub proof fn lemma_wire_roundtrip(certificate: CertificateView, limits: CertificateLimits)
    requires
        representable(certificate),
        valid_envelope(certificate, limits),
    ensures
        encodes_valid(encoding(certificate), limits),
{
    assert(representable(certificate) && valid_envelope(certificate, limits) && encoding(certificate)
        == encoding(certificate));
}

impl ReductionCertificate {
    /// Every certificate value holds a 32-byte digest.
    pub proof fn lemma_representable(&self)
        ensures
            representable(self@),
    {
        self.lemma_view();
    }
}

} // verus!
