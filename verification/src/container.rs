//! The file container: a fixed magic prefix, a header, then sections read
//! until the input is exhausted — genuine end of data, not a sentinel.

use vstd::prelude::*;
use crate::bytes::{
    append_bytes, copy_range, le_bytes, le_u16_at, le_u32_at, lemma_le_bytes_len,
    lemma_le_round_trip, lemma_pow256_values, lemma_split_at, read_u16_le, read_u32_le,
    write_u16_le, write_u32_le,
};
use crate::err::DecodeError;
use crate::section::{
    lemma_read_section_at, read_section, spec_encode_section, spec_read_section, write_section,
    Section, SectionV,
};

verus! {

/// The five magic bytes that open every file.
pub open spec fn magic_bytes() -> Seq<u8> {
    seq![0x59u8, 0x55u8, 0x4Bu8, 0x41u8, 0x52u8]
}

/// Spec-level header.
#[verifier::ext_equal]
pub struct RbrHeaderV {
    pub header_length: u32,
    pub data: u16,
    pub data2: Seq<u8>,
}

/// Spec-level file.
#[verifier::ext_equal]
pub struct FileV {
    pub header: RbrHeaderV,
    pub sections: Seq<SectionV>,
}

/// The file header: the magic bytes, a 32-bit length, a 16-bit field, and
/// that many further header bytes, carried without interpretation.
#[derive(Debug, Clone)]
pub struct RbrHeader {
    pub header_length: u32,
    pub data: u16,
    pub data2: Vec<u8>,
}

/// One whole file: a header and the sections that follow it to the end of
/// the input.
#[derive(Debug, Clone)]
pub struct RbrFile {
    pub header: RbrHeader,
    pub sections: Vec<Section>,
}

/// The sections of a decoded sequence, one view per element.
pub open spec fn deep_sections(s: Seq<Section>) -> Seq<SectionV> {
    s.map_values(|x: Section| x@)
}

impl View for RbrHeader {
    type V = RbrHeaderV;

    open spec fn view(&self) -> RbrHeaderV {
        RbrHeaderV {
            header_length: self.header_length,
            data: self.data,
            data2: self.data2@,
        }
    }
}

impl View for RbrFile {
    type V = FileV;

    open spec fn view(&self) -> FileV {
        FileV { header: self.header@, sections: deep_sections(self.sections@) }
    }
}

impl RbrHeaderV {
    /// The declared header length counts exactly the trailing header bytes.
    pub open spec fn wf(self) -> bool {
        self.data2.len() == self.header_length
    }
}

impl FileV {
    /// The header is well-formed and so is every section.
    pub open spec fn wf(self) -> bool {
        &&& self.header.wf()
        &&& forall|i: int| 0 <= i < self.sections.len() ==> (#[trigger] self.sections[i]).wf()
    }
}

/// The wire form of the header: magic, length, 16-bit field, header bytes.
pub open spec fn spec_encode_header(h: RbrHeaderV) -> Seq<u8> {
    magic_bytes() + le_bytes(h.header_length as nat, 4) + le_bytes(h.data as nat, 2) + h.data2
}

/// What reading the header yields. Any shortfall or mismatch — missing
/// magic, truncated fields, fewer header bytes than declared — is
/// `InvalidHeader`.
pub open spec fn spec_read_header(b: Seq<u8>) -> Result<(RbrHeaderV, int), DecodeError> {
    if b.len() < 11 {
        Err(DecodeError::InvalidHeader)
    } else if b.subrange(0, 5) != magic_bytes() {
        Err(DecodeError::InvalidHeader)
    } else {
        let hl = le_u32_at(b, 5);
        if 11 + hl > b.len() {
            Err(DecodeError::InvalidHeader)
        } else {
            Ok((
                RbrHeaderV {
                    header_length: hl,
                    data: le_u16_at(b, 9),
                    data2: b.subrange(11, 11 + hl as int),
                },
                11 + hl as int,
            ))
        }
    }
}

/// The wire form of a section sequence: each section's encoding, in order.
pub open spec fn spec_encode_sections(ss: Seq<SectionV>) -> Seq<u8>
    decreases ss.len(),
{
    if ss.len() == 0 {
        Seq::<u8>::empty()
    } else {
        spec_encode_section(ss[0]) + spec_encode_sections(ss.skip(1))
    }
}

/// Encoding distributes over concatenation of section sequences.
pub proof fn lemma_encode_sections_concat(a: Seq<SectionV>, c: Seq<SectionV>)
    ensures
        spec_encode_sections(a + c) == spec_encode_sections(a) + spec_encode_sections(c),
    decreases a.len(),
{
    if a.len() == 0 {
        assert(a + c =~= c);
        assert(Seq::<u8>::empty() + spec_encode_sections(c) =~= spec_encode_sections(c));
        assert(spec_encode_sections(a) == Seq::<u8>::empty());
    } else {
        assert((a + c).skip(1) =~= a.skip(1) + c);
        lemma_encode_sections_concat(a.skip(1), c);
        assert((a + c)[0] == a[0]);
        assert(spec_encode_section(a[0]) + (spec_encode_sections(a.skip(1))
            + spec_encode_sections(c)) =~= (spec_encode_section(a[0]) + spec_encode_sections(
            a.skip(1),
        )) + spec_encode_sections(c));
    }
}

/// The encoding of a single section as a sequence.
pub proof fn lemma_encode_sections_singleton(s: SectionV)
    ensures
        spec_encode_sections(seq![s]) == spec_encode_section(s),
{
    assert(seq![s].skip(1) =~= Seq::<SectionV>::empty());
    assert(spec_encode_sections(seq![s].skip(1)) == Seq::<u8>::empty());
    assert(spec_encode_section(s) + Seq::<u8>::empty() =~= spec_encode_section(s));
}

/// What reading sections from `pos` to the end of the input yields.
pub open spec fn spec_read_sections(b: Seq<u8>, pos: int) -> Result<Seq<SectionV>, DecodeError>
    decreases b.len() - pos,
{
    if pos >= b.len() {
        Ok(Seq::<SectionV>::empty())
    } else {
        match spec_read_section(b, pos) {
            Err(e) => Err(e),
            Ok((s, end)) => if end <= pos || end > b.len() {
                Err(DecodeError::UnexpectedEof)
            } else {
                match spec_read_sections(b, end) {
                    Err(e) => Err(e),
                    Ok(ss) => Ok(seq![s] + ss),
                }
            },
        }
    }
}

/// Prefix decoded sections onto a pending read result.
pub open spec fn prepend_sections(
    pre: Seq<SectionV>,
    r: Result<Seq<SectionV>, DecodeError>,
) -> Result<Seq<SectionV>, DecodeError> {
    match r {
        Err(e) => Err(e),
        Ok(ss) => Ok(pre + ss),
    }
}

/// The wire form of a whole file.
pub open spec fn spec_encode_file(f: FileV) -> Seq<u8> {
    spec_encode_header(f.header) + spec_encode_sections(f.sections)
}

/// What reading a whole file yields: the header, then sections until the
/// input is exhausted.
pub open spec fn spec_read_file(b: Seq<u8>) -> Result<FileV, DecodeError> {
    match spec_read_header(b) {
        Err(e) => Err(e),
        Ok((h, p)) => match spec_read_sections(b, p) {
            Err(e) => Err(e),
            Ok(ss) => Ok(FileV { header: h, sections: ss }),
        },
    }
}

/// Read the header from the start of `b`.
pub fn read_header(b: &Vec<u8>) -> (r: Result<(RbrHeader, usize), DecodeError>)
    ensures
        (match r {
            Ok(p) => spec_read_header(b@) == Ok::<(RbrHeaderV, int), DecodeError>((
                p.0@,
                p.1 as int,
            )) && p.0@.wf() && p.1 <= b@.len(),
            Err(e) => spec_read_header(b@) == Err::<(RbrHeaderV, int), DecodeError>(e),
        }),
{
    let n = b.len();
    if n < 11 {
        return Err(DecodeError::InvalidHeader);
    }
    if !(b[0] == 0x59 && b[1] == 0x55 && b[2] == 0x4B && b[3] == 0x41 && b[4] == 0x52) {
        proof {
            assert(b@.subrange(0, 5)[0] == b@[0]);
            assert(b@.subrange(0, 5)[1] == b@[1]);
            assert(b@.subrange(0, 5)[2] == b@[2]);
            assert(b@.subrange(0, 5)[3] == b@[3]);
            assert(b@.subrange(0, 5)[4] == b@[4]);
        }
        return Err(DecodeError::InvalidHeader);
    }
    proof {
        assert(b@.subrange(0, 5) =~= magic_bytes());
    }
    let header_length = read_u32_le(b, 5);
    if header_length as usize > n - 11 {
        return Err(DecodeError::InvalidHeader);
    }
    let data = read_u16_le(b, 9);
    let data2 = copy_range(b, 11, 11 + header_length as usize);
    Ok((RbrHeader { header_length, data, data2 }, 11 + header_length as usize))
}

/// Append the wire form of `h` to `out`.
pub fn write_header(out: &mut Vec<u8>, h: &RbrHeader)
    ensures
        final(out)@ == old(out)@ + spec_encode_header(h@),
{
    let ghost o0 = out@;
    out.push(0x59);
    out.push(0x55);
    out.push(0x4B);
    out.push(0x41);
    out.push(0x52);
    proof {
        assert(out@ =~= o0 + magic_bytes());
    }
    write_u32_le(out, h.header_length);
    write_u16_le(out, h.data);
    append_bytes(out, &h.data2);
    proof {
        assert(out@ =~= o0 + spec_encode_header(h@));
    }
}

/// One decoded section extends the prefix while the pending suffix moves
/// past it.
proof fn lemma_sections_step(
    b: Seq<u8>,
    start: int,
    pos: int,
    pre: Seq<SectionV>,
    s: SectionV,
    end: int,
)
    requires
        spec_read_section(b, pos) == Ok::<(SectionV, int), DecodeError>((s, end)),
        0 <= pos < end <= b.len(),
        prepend_sections(pre, spec_read_sections(b, pos)) == spec_read_sections(b, start),
    ensures
        prepend_sections(pre + seq![s], spec_read_sections(b, end)) == spec_read_sections(
            b,
            start,
        ),
{
    let rest = spec_read_sections(b, end);
    assert(spec_read_sections(b, pos) == prepend_sections(seq![s], rest));
    match rest {
        Ok(ss) => {
            assert(pre + (seq![s] + ss) =~= (pre + seq![s]) + ss);
        },
        Err(_) => {},
    }
}

/// Read one whole file from `b`: header, then sections until the end of
/// the input.
#[verifier::rlimit(100)]
pub fn read_file(b: &Vec<u8>) -> (r: Result<RbrFile, DecodeError>)
    ensures
        (match r {
            Ok(f) => spec_read_file(b@) == Ok::<FileV, DecodeError>(f@) && f@.wf(),
            Err(e) => spec_read_file(b@) == Err::<FileV, DecodeError>(e),
        }),
{
    let n = b.len();
    let (header, start) = match read_header(b) {
        Err(e) => {
            return Err(e);
        },
        Ok(x) => x,
    };
    let mut sections: Vec<Section> = Vec::new();
    let mut pos = start;
    proof {
        assert(deep_sections(sections@) =~= Seq::<SectionV>::empty());
        match spec_read_sections(b@, pos as int) {
            Ok(ss) => {
                assert(Seq::<SectionV>::empty() + ss =~= ss);
            },
            Err(_) => {},
        }
    }
    while pos < n
        invariant
            pos <= n,
            n == b@.len(),
            spec_read_header(b@) == Ok::<(RbrHeaderV, int), DecodeError>((
                header@,
                start as int,
            )),
            header@.wf(),
            prepend_sections(deep_sections(sections@), spec_read_sections(b@, pos as int))
                == spec_read_sections(b@, start as int),
            forall|i: int| 0 <= i < sections@.len() ==> (#[trigger] sections@[i])@.wf(),
        decreases n - pos,
    {
        match read_section(b, pos) {
            Err(e) => {
                return Err(e);
            },
            Ok((s, end)) => {
                proof {
                    lemma_sections_step(
                        b@,
                        start as int,
                        pos as int,
                        deep_sections(sections@),
                        s@,
                        end as int,
                    );
                    assert(deep_sections(sections@.push(s)) =~= deep_sections(sections@).push(s@));
                    assert(deep_sections(sections@).push(s@) =~= deep_sections(sections@)
                        + seq![s@]);
                }
                sections.push(s);
                pos = end;
            },
        }
    }
    proof {
        assert(spec_read_sections(b@, pos as int) == Ok::<Seq<SectionV>, DecodeError>(
            Seq::<SectionV>::empty(),
        ));
        assert(deep_sections(sections@) + Seq::<SectionV>::empty() =~= deep_sections(sections@));
        assert forall|i: int|
            0 <= i < deep_sections(sections@).len() implies (#[trigger] deep_sections(
            sections@,
        )[i]).wf() by {
            assert(deep_sections(sections@)[i] == sections@[i]@);
        }
    }
    Ok(RbrFile { header, sections })
}

/// Append the wire form of `f` to `out`.
pub fn write_file(out: &mut Vec<u8>, f: &RbrFile)
    requires
        f@.wf(),
    ensures
        final(out)@ == old(out)@ + spec_encode_file(f@),
{
    let ghost o0 = out@;
    write_header(out, &f.header);
    let ghost o1 = out@;
    let n = f.sections.len();
    let mut k: usize = 0;
    proof {
        assert(deep_sections(f.sections@).take(0) =~= Seq::<SectionV>::empty());
        assert(o1 + Seq::<u8>::empty() =~= o1);
        assert forall|i: int| 0 <= i < f.sections@.len() implies (#[trigger] f.sections@[i])@.wf() by {
            assert(deep_sections(f.sections@)[i] == f.sections@[i]@);
            assert(f@.sections[i].wf());
        }
    }
    while k < n
        invariant
            k <= n,
            n == f.sections@.len(),
            out@ == o1 + spec_encode_sections(deep_sections(f.sections@).take(k as int)),
            forall|i: int| 0 <= i < f.sections@.len() ==> (#[trigger] f.sections@[i])@.wf(),
        decreases n - k,
    {
        let ghost ss = deep_sections(f.sections@);
        proof {
            assert(f.sections@[k as int]@ == ss[k as int]);
            assert(ss[k as int].wf());
        }
        write_section(out, &f.sections[k]);
        proof {
            assert(ss.take(k as int + 1) =~= ss.take(k as int) + seq![ss[k as int]]);
            lemma_encode_sections_concat(ss.take(k as int), seq![ss[k as int]]);
            lemma_encode_sections_singleton(ss[k as int]);
            assert((o1 + spec_encode_sections(ss.take(k as int))) + spec_encode_section(
                ss[k as int],
            ) =~= o1 + (spec_encode_sections(ss.take(k as int)) + spec_encode_section(
                ss[k as int],
            )));
        }
        k = k + 1;
    }
    proof {
        assert(deep_sections(f.sections@).take(n as int) =~= deep_sections(f.sections@));
        assert((o0 + spec_encode_header(f.header@)) + spec_encode_sections(
            deep_sections(f.sections@),
        ) =~= o0 + spec_encode_file(f@));
    }
}

/// Reading the header of bytes that begin with the wire form of a
/// well-formed header yields exactly that header.
pub proof fn lemma_read_header_prefix(b: Seq<u8>, h: RbrHeaderV)
    requires
        h.wf(),
        spec_encode_header(h).len() <= b.len(),
        b.subrange(0, spec_encode_header(h).len() as int) == spec_encode_header(h),
    ensures
        spec_read_header(b) == Ok::<(RbrHeaderV, int), DecodeError>((
            h,
            spec_encode_header(h).len() as int,
        )),
{
    lemma_pow256_values();
    let pm = magic_bytes();
    let pl = le_bytes(h.header_length as nat, 4);
    let pd = le_bytes(h.data as nat, 2);
    lemma_le_bytes_len(h.header_length as nat, 4);
    lemma_le_bytes_len(h.data as nat, 2);
    assert(spec_encode_header(h) =~= pm + (pl + (pd + h.data2)));
    lemma_split_at(b, 0, pm, pl + (pd + h.data2));
    lemma_split_at(b, 5, pl, pd + h.data2);
    lemma_split_at(b, 9, pd, h.data2);
    lemma_le_round_trip(h.header_length as nat, 4);
    lemma_le_round_trip(h.data as nat, 2);
}

/// Reading sections at a position where the wire form of well-formed
/// sections runs exactly to the end of the input yields those sections.
pub proof fn lemma_read_sections_at(b: Seq<u8>, pos: int, ss: Seq<SectionV>)
    requires
        0 <= pos,
        forall|i: int| 0 <= i < ss.len() ==> (#[trigger] ss[i]).wf(),
        pos + spec_encode_sections(ss).len() == b.len(),
        b.subrange(pos, pos + spec_encode_sections(ss).len()) == spec_encode_sections(ss),
    ensures
        spec_read_sections(b, pos) == Ok::<Seq<SectionV>, DecodeError>(ss),
    decreases ss.len(),
{
    if ss.len() == 0 {
        assert(spec_encode_sections(ss) == Seq::<u8>::empty());
        assert(ss =~= Seq::<SectionV>::empty());
    } else {
        let head = spec_encode_section(ss[0]);
        let tail = spec_encode_sections(ss.skip(1));
        assert(spec_encode_sections(ss) == head + tail);
        lemma_split_at(b, pos, head, tail);
        assert(ss[0].wf());
        lemma_read_section_at(b, pos, ss[0]);
        assert(head.len() >= 6) by {
            lemma_le_bytes_len(
                (le_bytes(ss[0].data as nat, 16) + crate::section::spec_encode_section_data(
                    ss[0].section_data,
                ) + ss[0].unparsed_bytes).len() as nat,
                4,
            );
        }
        assert(forall|i: int| 0 <= i < ss.skip(1).len() ==> ss.skip(1)[i] == ss[i + 1]);
        lemma_read_sections_at(b, pos + head.len() as int, ss.skip(1));
        assert(seq![ss[0]] + ss.skip(1) =~= ss);
    }
}

/// Law: a well-formed file survives the byte round trip. Decoding its
/// encoding yields it back exactly, every section included, so re-encoding
/// reproduces the same bytes.
pub proof fn lemma_file_round_trip(f: FileV)
    requires
        f.wf(),
    ensures
        spec_read_file(spec_encode_file(f)) == Ok::<FileV, DecodeError>(f),
{
    let enc = spec_encode_file(f);
    let ph = spec_encode_header(f.header);
    let ps = spec_encode_sections(f.sections);
    assert(enc.subrange(0, enc.len() as int) =~= enc);
    lemma_split_at(enc, 0, ph, ps);
    assert(enc.subrange(0, ph.len() as int) == ph);
    lemma_read_header_prefix(enc, f.header);
    lemma_read_sections_at(enc, ph.len() as int, f.sections);
}

} // verus!
