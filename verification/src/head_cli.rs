//! The prefix selector itself: options, the line-mode and byte-mode
//! emitters, the multi-source header policy, and the run over all sources.
//!
//! A run takes each source's full bytes as a plain value; opening files and
//! reading standard input stay outside the library. A signed limit is
//! resolved per source (non-negative: take the first that many units;
//! negative: drop that many units from the end), and the selected prefix of
//! every source is concatenated, each preceded by a name header when more
//! than one file is named.
use vstd::prelude::*;

use crate::limit::effective_count;
use crate::limit::spec_effective_count;
use crate::lines::lemma_u8_vec_deep_view;
use crate::lines::spec_lines;
use crate::lines::split_lines;
use crate::lines::NL;

verus! {

/// Whether a byte sequence is valid UTF-8, as the standard library's
/// decoder judges it; a property of the bytes alone.
pub uninterp spec fn utf8_decodable(bytes: Seq<u8>) -> bool;

/// Relies on core::str::from_utf8: it returns `Ok` exactly when the bytes
/// are valid UTF-8, a property of the bytes alone.
#[verifier::external_body]
fn is_utf8(bytes: &Vec<u8>) -> (r: bool)
    ensures
        r == utf8_decodable(bytes@),
{
    core::str::from_utf8(bytes.as_slice()).is_ok()
}

/// The bytes emitted for the first `count` lines: each decodable line
/// followed by one newline; a line that does not decode is skipped
/// silently, though it still uses up one counted slot.
pub open spec fn spec_emit_lines(ls: Seq<Seq<u8>>, count: int) -> Seq<u8>
    decreases count,
{
    if count <= 0 || ls.len() == 0 {
        Seq::empty()
    } else {
        (if utf8_decodable(ls[0]) {
            ls[0].push(NL)
        } else {
            Seq::<u8>::empty()
        }) + spec_emit_lines(ls.skip(1), count - 1)
    }
}

/// Line-mode output for one source: resolve the signed limit against the
/// source's line count, then emit that many lines.
pub open spec fn spec_head_lines(content: Seq<u8>, requested: int) -> Seq<u8> {
    let ls = spec_lines(content);
    spec_emit_lines(ls, spec_effective_count(requested, ls.len()) as int)
}

/// Byte-mode output for one source: the prefix of the source's bytes whose
/// length the signed limit resolves to.
pub open spec fn spec_head_bytes(content: Seq<u8>, requested: int) -> Seq<u8> {
    content.take(spec_effective_count(requested, content.len()) as int)
}

/// The header line printed before a source when more than one file is
/// named: the bytes of `==> `, the name, and ` <==` with a final newline,
/// preceded by a blank separator line for every source after the first.
pub open spec fn spec_header(name: Seq<u8>, first: bool) -> Seq<u8> {
    let h = seq![61u8, 61u8, 62u8, 32u8] + name + seq![32u8, 60u8, 61u8, 61u8, NL];
    if first {
        h
    } else {
        seq![NL] + h
    }
}

/// Emit at most the first `requested` lines of the source (all but the
/// last `|requested|` when negative), each followed by one newline, with
/// undecodable lines skipped.
pub fn head_lines(content: &Vec<u8>, requested: i64) -> (out: Vec<u8>)
    ensures
        out@ == spec_head_lines(content@, requested as int),
{
    broadcast use lemma_u8_vec_deep_view;

    let lines = split_lines(content);
    let count = effective_count(requested, lines.len());
    let ghost dv = lines.deep_view();
    let mut out: Vec<u8> = Vec::new();
    let mut k: usize = 0;
    assert(dv.skip(0) =~~= dv);
    while k < count
        invariant
            k <= count,
            count <= dv.len(),
            dv == lines.deep_view(),
            dv == spec_lines(content@),
            count == spec_effective_count(requested as int, dv.len()),
            spec_emit_lines(dv, count as int) == out@ + spec_emit_lines(
                dv.skip(k as int),
                count - k,
            ),
        decreases count - k,
    {
        let ghost tail = dv.skip(k as int);
        let ghost piece = if utf8_decodable(dv[k as int]) {
            dv[k as int].push(NL)
        } else {
            Seq::<u8>::empty()
        };
        proof {
            assert(tail.len() > 0);
            assert(tail[0] == dv[k as int]);
            assert(tail.skip(1) =~~= dv.skip(k + 1));
            assert(lines@[k as int].deep_view() == dv[k as int]);
            assert(spec_emit_lines(tail, count - k) == piece + spec_emit_lines(
                tail.skip(1),
                count - k - 1,
            ));
        }
        let ghost out0 = out@;
        let line = &lines[k];
        assert(line@ == dv[k as int]);
        if is_utf8(line) {
            let mut j: usize = 0;
            while j < line.len()
                invariant
                    j <= line@.len(),
                    out@ == out0 + line@.take(j as int),
                decreases line@.len() - j,
            {
                out.push(line[j]);
                assert(out@ =~= out0 + line@.take(j + 1));
                j = j + 1;
            }
            out.push(NL);
            assert(line@.take(line@.len() as int) =~= line@);
            assert(piece == line@.push(NL));
            assert(out@ =~= out0 + piece);
        } else {
            assert(piece =~= Seq::<u8>::empty());
            assert(out@ =~= out0 + piece);
        }
        proof {
            assert(out@ + spec_emit_lines(dv.skip(k + 1), count - k - 1) =~= out0
                + spec_emit_lines(tail, count - k));
            assert(spec_emit_lines(dv, count as int) =~= out@ + spec_emit_lines(
                dv.skip(k + 1),
                count - k - 1,
            ));
        }
        k = k + 1;
    }
    proof {
        assert(spec_emit_lines(dv.skip(count as int), 0) =~= Seq::<u8>::empty());
        assert(out@ =~= spec_emit_lines(dv, count as int));
    }
    out
}

/// Emit the prefix of the source's bytes that the signed limit resolves
/// to: the first `requested` bytes (at most all of them), or all but the
/// last `|requested|` when negative.
pub fn head_bytes(content: &Vec<u8>, requested: i64) -> (out: Vec<u8>)
    ensures
        out@ == spec_head_bytes(content@, requested as int),
{
    let count = effective_count(requested, content.len());
    let mut out: Vec<u8> = Vec::new();
    let mut j: usize = 0;
    assert(out@ =~= content@.take(0));
    while j < count
        invariant
            j <= count,
            count <= content@.len(),
            count == spec_effective_count(requested as int, content@.len()),
            out@ == content@.take(j as int),
        decreases count - j,
    {
        out.push(content[j]);
        assert(out@ =~= content@.take(j + 1));
        j = j + 1;
    }
    out
}

/// Build the header line for a named source.
pub fn header(name: &Vec<u8>, first: bool) -> (h: Vec<u8>)
    ensures
        h@ == spec_header(name@, first),
{
    let mut h: Vec<u8> = Vec::new();
    if !first {
        h.push(NL);
    }
    h.push(61);
    h.push(61);
    h.push(62);
    h.push(32);
    let ghost pre = h@;
    let mut j: usize = 0;
    assert(h@ =~= pre + name@.take(0));
    while j < name.len()
        invariant
            j <= name@.len(),
            h@ == pre + name@.take(j as int),
        decreases name@.len() - j,
    {
        h.push(name[j]);
        assert(h@ =~= pre + name@.take(j + 1));
        j = j + 1;
    }
    assert(name@.take(name@.len() as int) =~= name@);
    h.push(32);
    h.push(60);
    h.push(61);
    h.push(61);
    h.push(NL);
    assert(h@ =~= spec_header(name@, first));
    h
}

/// The resolved options of one invocation: a signed line limit, an optional
/// signed byte limit that takes precedence, and the named sources.
pub struct HeadCli {
    /// Signed line count; non-negative takes the first that many lines,
    /// negative drops that many from the end. Ignored when a byte count is
    /// given.
    pub number_of_lines: i64,
    /// Signed byte count; when present, byte mode is in effect.
    pub number_of_bytes: Option<i8>,
    /// The names of the sources to read, as bytes; empty means one unnamed
    /// source (standard input).
    pub files: Vec<Vec<u8>>,
}

impl HeadCli {
    /// The output owed for one source's bytes under these options: byte
    /// mode when a byte count is present, line mode otherwise.
    pub open spec fn spec_source_output(&self, content: Seq<u8>) -> Seq<u8> {
        match self.number_of_bytes {
            Option::Some(b) => spec_head_bytes(content, b as int),
            Option::None => spec_head_lines(content, self.number_of_lines as int),
        }
    }

    /// How many sources one run consumes: one per named file, or a single
    /// unnamed source when no file is named.
    pub open spec fn spec_source_count(&self) -> int {
        if self.files@.len() == 0 {
            1
        } else {
            self.files@.len() as int
        }
    }

    /// The output from source `i` onward: a name header when more than one
    /// file is named (with a blank separator line before every header but
    /// the first), then the source's selected prefix, then the rest.
    pub open spec fn spec_output_from(&self, sources: Seq<Seq<u8>>, i: int) -> Seq<u8>
        decreases sources.len() - i,
    {
        if i < 0 || i >= sources.len() {
            Seq::empty()
        } else {
            (if self.files@.len() > 1 {
                spec_header(self.files.deep_view()[i], i == 0)
            } else {
                Seq::<u8>::empty()
            }) + self.spec_source_output(sources[i]) + self.spec_output_from(sources, i + 1)
        }
    }

    /// The whole output of one run over the given sources' bytes.
    pub open spec fn spec_output(&self, sources: Seq<Seq<u8>>) -> Seq<u8> {
        self.spec_output_from(sources, 0)
    }

    /// One run: for each source in order, emit its header (when more than
    /// one file is named) and its selected prefix. `sources` holds the full
    /// bytes of each source, in the order of `files` (a single entry when
    /// no file is named).
    pub fn run(&self, sources: &Vec<Vec<u8>>) -> (out: Vec<u8>)
        requires
            sources@.len() == self.spec_source_count(),
        ensures
            out@ == self.spec_output(sources.deep_view()),
    {
        broadcast use lemma_u8_vec_deep_view;

        let ghost sv = sources.deep_view();
        let mut out: Vec<u8> = Vec::new();
        let mut k: usize = 0;
        while k < sources.len()
            invariant
                k <= sources@.len(),
                sv == sources.deep_view(),
                sources@.len() == self.spec_source_count(),
                self.spec_output(sv) == out@ + self.spec_output_from(sv, k as int),
            decreases sources@.len() - k,
        {
            let ghost out0 = out@;
            let ghost head_part = if self.files@.len() > 1 {
                spec_header(self.files.deep_view()[k as int], k == 0)
            } else {
                Seq::<u8>::empty()
            };
            if self.files.len() > 1 {
                assert(self.files@.len() == sources@.len());
                let mut h = header(&self.files[k], k == 0);
                proof {
                    assert(self.files@[k as int].deep_view() == self.files.deep_view()[k as int]);
                }
                out.append(&mut h);
            }
            assert(out@ == out0 + head_part);
            proof {
                assert(sources@[k as int].deep_view() == sv[k as int]);
            }
            let src = &sources[k];
            assert(src@ == sv[k as int]);
            let mut piece = match self.number_of_bytes {
                Option::Some(b) => {
                    let p = head_bytes(src, b as i64);
                    assert(p@ == spec_head_bytes(sv[k as int], b as int));
                    assert(self.spec_source_output(sv[k as int]) == spec_head_bytes(
                        sv[k as int],
                        b as int,
                    ));
                    assert(p@ == self.spec_source_output(sv[k as int]));
                    p
                },
                Option::None => {
                    let p = head_lines(src, self.number_of_lines);
                    assert(p@ == spec_head_lines(sv[k as int], self.number_of_lines as int));
                    assert(self.spec_source_output(sv[k as int]) == spec_head_lines(
                        sv[k as int],
                        self.number_of_lines as int,
                    ));
                    assert(p@ == self.spec_source_output(sv[k as int]));
                    p
                },
            };
            assert(piece@ == self.spec_source_output(sv[k as int]));
            out.append(&mut piece);
            proof {
                assert(self.spec_output_from(sv, k as int) == head_part + self.spec_source_output(
                    sv[k as int],
                ) + self.spec_output_from(sv, k + 1));
                assert(self.spec_output(sv) =~= out@ + self.spec_output_from(sv, k + 1));
            }
            k = k + 1;
        }
        proof {
            assert(self.spec_output_from(sv, k as int) =~= Seq::<u8>::empty());
            assert(out@ =~= self.spec_output(sv));
        }
        out
    }
}

} // verus!
