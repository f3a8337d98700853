//! The laws of the prefix selector, stated and proved over the
//! specification model: what line mode and byte mode emit for non-negative
//! and negative limits, that a run is a function of its options and source
//! bytes alone, and the multi-source header layout.
use vstd::prelude::*;

use crate::head_cli::spec_emit_lines;
use crate::head_cli::spec_head_bytes;
use crate::head_cli::spec_head_lines;
use crate::head_cli::spec_header;
use crate::head_cli::utf8_decodable;
use crate::head_cli::HeadCli;
use crate::limit::spec_effective_count;
use crate::lines::lemma_lines_split_at_first_nl;
use crate::lines::spec_lines;
use crate::lines::spec_strip_cr;
use crate::lines::CR;
use crate::lines::NL;

verus! {

/// The bytes of the given lines joined back into a text: each line followed
/// by exactly one newline.
pub open spec fn spec_join_lines(ls: Seq<Seq<u8>>) -> Seq<u8>
    decreases ls.len(),
{
    if ls.len() == 0 {
        Seq::empty()
    } else {
        ls[0].push(NL) + spec_join_lines(ls.skip(1))
    }
}

/// Emitting `n` lines that all decode emits exactly the first `n` lines,
/// joined with one newline each.
proof fn lemma_emit_all_decodable(ls: Seq<Seq<u8>>, n: int)
    requires
        0 <= n <= ls.len(),
        forall|i: int| 0 <= i < n ==> utf8_decodable(#[trigger] ls[i]),
    ensures
        spec_emit_lines(ls, n) == spec_join_lines(ls.take(n)),
    decreases n,
{
    if n == 0 {
        assert(ls.take(0) =~~= Seq::<Seq<u8>>::empty());
    } else {
        assert forall|i: int| 0 <= i < n - 1 implies utf8_decodable(#[trigger] ls.skip(1)[i]) by {
            assert(ls.skip(1)[i] == ls[i + 1]);
        }
        lemma_emit_all_decodable(ls.skip(1), n - 1);
        assert(ls.take(n)[0] == ls[0]);
        assert(ls.take(n).skip(1) =~~= ls.skip(1).take(n - 1));
        assert(spec_join_lines(ls.take(n)) == ls[0].push(NL) + spec_join_lines(
            ls.skip(1).take(n - 1),
        ));
        assert(spec_emit_lines(ls, n) == ls[0].push(NL) + spec_emit_lines(ls.skip(1), n - 1));
    }
}

/// For a non-negative request `n` over a source whose first min(n, L)
/// lines all decode, line-mode output is exactly those min(n, L) lines in
/// order, each followed by one newline.
pub proof fn lemma_head_lines_take_first(content: Seq<u8>, n: int)
    requires
        n >= 0,
        forall|i: int|
            0 <= i < n && i < spec_lines(content).len() ==> utf8_decodable(
                #[trigger] spec_lines(content)[i],
            ),
    ensures
        spec_head_lines(content, n) == spec_join_lines(
            spec_lines(content).take(
                if n <= spec_lines(content).len() {
                    n
                } else {
                    spec_lines(content).len() as int
                },
            ),
        ),
{
    let ls = spec_lines(content);
    let m = if n <= ls.len() {
        n
    } else {
        ls.len() as int
    };
    assert(spec_effective_count(n, ls.len()) == m);
    lemma_emit_all_decodable(ls, m);
}

/// For a negative request `n` with |n| at most the line count L, over a
/// source whose first L - |n| lines all decode, line-mode output is exactly
/// the first L - |n| lines in order, each followed by one newline.
pub proof fn lemma_head_lines_drop_last(content: Seq<u8>, n: int)
    requires
        n < 0,
        -n <= spec_lines(content).len(),
        forall|i: int|
            0 <= i < spec_lines(content).len() + n ==> utf8_decodable(
                #[trigger] spec_lines(content)[i],
            ),
    ensures
        spec_head_lines(content, n) == spec_join_lines(
            spec_lines(content).take(spec_lines(content).len() + n),
        ),
{
    let ls = spec_lines(content);
    let m = ls.len() + n;
    assert(spec_effective_count(n, ls.len()) == m);
    lemma_emit_all_decodable(ls, m);
}

/// For a negative request whose magnitude exceeds the line count, line-mode
/// output is empty.
pub proof fn lemma_head_lines_drop_all(content: Seq<u8>, n: int)
    requires
        n < 0,
        -n > spec_lines(content).len(),
    ensures
        spec_head_lines(content, n) == Seq::<u8>::empty(),
{
    let ls = spec_lines(content);
    assert(spec_effective_count(n, ls.len()) == 0);
    assert(spec_emit_lines(ls, 0) == Seq::<u8>::empty());
}

/// For a non-negative request `n` over a source of B bytes, byte-mode
/// output is the first min(n, B) bytes, byte for byte.
pub proof fn lemma_head_bytes_take_first(content: Seq<u8>, n: int)
    requires
        n >= 0,
    ensures
        spec_head_bytes(content, n) == content.take(
            if n <= content.len() {
                n
            } else {
                content.len() as int
            },
        ),
{
}

/// For a negative request `n` with |n| at most the byte count B, byte-mode
/// output is exactly the first B - |n| bytes.
pub proof fn lemma_head_bytes_drop_last(content: Seq<u8>, n: int)
    requires
        n < 0,
        -n <= content.len(),
    ensures
        spec_head_bytes(content, n) == content.take(content.len() + n),
{
}

/// For a negative request whose magnitude exceeds the byte count, byte-mode
/// output is empty.
pub proof fn lemma_head_bytes_drop_all(content: Seq<u8>, n: int)
    requires
        n < 0,
        -n > content.len(),
    ensures
        spec_head_bytes(content, n) == Seq::<u8>::empty(),
{
    assert(content.take(0) =~= Seq::<u8>::empty());
}

proof fn lemma_output_congruent_from(a: &HeadCli, b: &HeadCli, sources: Seq<Seq<u8>>, i: int)
    requires
        a.number_of_lines == b.number_of_lines,
        a.number_of_bytes == b.number_of_bytes,
        a.files.deep_view() == b.files.deep_view(),
    ensures
        a.spec_output_from(sources, i) == b.spec_output_from(sources, i),
    decreases sources.len() - i,
{
    assert(a.files@.len() == a.files.deep_view().len());
    assert(b.files@.len() == b.files.deep_view().len());
    if 0 <= i < sources.len() {
        lemma_output_congruent_from(a, b, sources, i + 1);
        assert(a.spec_source_output(sources[i]) == b.spec_source_output(sources[i]));
    }
}

/// Running twice with identical arguments over unchanged sources yields
/// identical output: the output is a function of the resolved options and
/// the sources' bytes alone.
pub proof fn lemma_run_deterministic(a: &HeadCli, b: &HeadCli, sources: Seq<Seq<u8>>)
    requires
        a.number_of_lines == b.number_of_lines,
        a.number_of_bytes == b.number_of_bytes,
        a.files.deep_view() == b.files.deep_view(),
    ensures
        a.spec_output(sources) == b.spec_output(sources),
{
    lemma_output_congruent_from(a, b, sources, 0);
}

/// With a single source (one named file, or none), no header is printed:
/// the output is the source's selected prefix alone.
pub proof fn lemma_single_source_output(opts: &HeadCli, a: Seq<u8>)
    requires
        opts.files@.len() <= 1,
    ensures
        opts.spec_output(seq![a]) == opts.spec_source_output(a),
{
    let sv = seq![a];
    assert(opts.spec_output_from(sv, 1) =~= Seq::<u8>::empty());
    assert(opts.spec_output(sv) =~= Seq::<u8>::empty() + opts.spec_source_output(sv[0])
        + Seq::<u8>::empty());
    assert(Seq::<u8>::empty() + opts.spec_source_output(a) + Seq::<u8>::empty()
        =~= opts.spec_source_output(a));
}

/// With exactly two named sources A and B, the output is A's header, A's
/// selected prefix, then B's header preceded by one blank separator line,
/// and B's selected prefix; only the first header lacks the separator.
pub proof fn lemma_two_source_output(opts: &HeadCli, a: Seq<u8>, b: Seq<u8>)
    requires
        opts.files@.len() == 2,
    ensures
        opts.spec_output(seq![a, b]) == spec_header(opts.files.deep_view()[0], true)
            + opts.spec_source_output(a) + spec_header(opts.files.deep_view()[1], false)
            + opts.spec_source_output(b),
{
    let sv = seq![a, b];
    assert(sv[0] == a);
    assert(sv[1] == b);
    assert(opts.spec_output_from(sv, 2) =~= Seq::<u8>::empty());
    assert(opts.spec_output_from(sv, 1) == spec_header(opts.files.deep_view()[1], false)
        + opts.spec_source_output(b) + Seq::<u8>::empty());
    assert(opts.spec_output(sv) =~= spec_header(opts.files.deep_view()[0], true)
        + opts.spec_source_output(a) + spec_header(opts.files.deep_view()[1], false)
        + opts.spec_source_output(b));
}

/// No line produced by splitting holds a newline byte.
pub proof fn lemma_lines_no_nl_inside(s: Seq<u8>)
    ensures
        forall|i: int, j: int|
            0 <= i < spec_lines(s).len() && 0 <= j < spec_lines(s)[i].len() ==> spec_lines(
                s,
            )[i][j] != NL,
    decreases s.len(),
{
    if s.len() == 0 {
    } else if s[0] == NL {
        lemma_lines_no_nl_inside(s.skip(1));
        assert forall|i: int, j: int|
            0 <= i < spec_lines(s).len() && 0 <= j < spec_lines(s)[i].len() implies spec_lines(
            s,
        )[i][j] != NL by {
            if i > 0 {
                assert(spec_lines(s)[i] == spec_lines(s.skip(1))[i - 1]);
            }
        }
    } else if s[0] == CR && s.len() >= 2 && s[1] == NL {
        lemma_lines_no_nl_inside(s.skip(2));
        assert forall|i: int, j: int|
            0 <= i < spec_lines(s).len() && 0 <= j < spec_lines(s)[i].len() implies spec_lines(
            s,
        )[i][j] != NL by {
            if i > 0 {
                assert(spec_lines(s)[i] == spec_lines(s.skip(2))[i - 1]);
            }
        }
    } else {
        lemma_lines_no_nl_inside(s.skip(1));
        let rest = spec_lines(s.skip(1));
        assert forall|i: int, j: int|
            0 <= i < spec_lines(s).len() && 0 <= j < spec_lines(s)[i].len() implies spec_lines(
            s,
        )[i][j] != NL by {
            if rest.len() == 0 {
                assert(spec_lines(s)[i] == s.take(1));
                assert(s.take(1)[j] == s[0]);
            } else {
                if i == 0 {
                    assert(spec_lines(s)[0] == s.take(1) + rest[0]);
                    if j == 0 {
                        assert((s.take(1) + rest[0])[0] == s[0]);
                    } else {
                        assert((s.take(1) + rest[0])[j] == rest[0][j - 1]);
                    }
                } else {
                    assert(spec_lines(s)[i] == rest.skip(1)[i - 1]);
                    assert(rest.skip(1)[i - 1] == rest[i]);
                }
            }
        }
    }
}

/// Joining lines that hold no newline and do not end in a carriage return,
/// then splitting again, returns exactly those lines: one newline is
/// printed per line and none is duplicated.
pub proof fn lemma_lines_of_join(ls: Seq<Seq<u8>>)
    requires
        forall|i: int, j: int| 0 <= i < ls.len() && 0 <= j < ls[i].len() ==> ls[i][j] != NL,
        forall|i: int| 0 <= i < ls.len() ==> (ls[i].len() == 0 || (#[trigger] ls[i]).last() != CR),
    ensures
        spec_lines(spec_join_lines(ls)) == ls,
    decreases ls.len(),
{
    if ls.len() == 0 {
        assert(spec_join_lines(ls) =~= Seq::<u8>::empty());
    } else {
        let s = spec_join_lines(ls);
        let l0 = ls[0];
        let len0 = l0.len() as int;
        assert(s == l0.push(NL) + spec_join_lines(ls.skip(1)));
        assert(s[len0] == NL) by {
            assert(l0.push(NL)[len0] == NL);
        }
        assert forall|j: int| 0 <= j < len0 implies s[j] != NL by {
            assert(s[j] == l0.push(NL)[j]);
            assert(l0.push(NL)[j] == l0[j]);
        }
        lemma_lines_split_at_first_nl(s, len0);
        assert(s.take(len0) =~= l0);
        assert(spec_strip_cr(l0) == l0);
        assert(s.skip(len0 + 1) =~= spec_join_lines(ls.skip(1)));
        assert forall|i: int, j: int|
            0 <= i < ls.skip(1).len() && 0 <= j < ls.skip(1)[i].len() implies ls.skip(
            1,
        )[i][j] != NL by {
            assert(ls.skip(1)[i] == ls[i + 1]);
        }
        assert forall|i: int| 0 <= i < ls.skip(1).len() implies (ls.skip(1)[i].len() == 0 || (
        #[trigger] ls.skip(1)[i]).last() != CR) by {
            assert(ls.skip(1)[i] == ls[i + 1]);
        }
        lemma_lines_of_join(ls.skip(1));
        assert(spec_lines(s) =~~= ls);
    }
}

/// Joining a prefix of a source's lines and splitting again returns exactly
/// that prefix, provided none of those lines ends in a carriage return.
proof fn lemma_join_take_splits(content: Seq<u8>, m: int)
    requires
        0 <= m <= spec_lines(content).len(),
        forall|i: int|
            0 <= i < m ==> (spec_lines(content)[i].len() == 0 || (#[trigger] spec_lines(
                content,
            )[i]).last() != CR),
    ensures
        spec_lines(spec_join_lines(spec_lines(content).take(m))) == spec_lines(content).take(m),
{
    let ls = spec_lines(content);
    lemma_lines_no_nl_inside(content);
    assert forall|i: int, j: int|
        0 <= i < ls.take(m).len() && 0 <= j < ls.take(m)[i].len() implies ls.take(
        m,
    )[i][j] != NL by {
        assert(ls.take(m)[i] == ls[i]);
    }
    assert forall|i: int| 0 <= i < ls.take(m).len() implies (ls.take(m)[i].len() == 0 || (
    #[trigger] ls.take(m)[i]).last() != CR) by {
        assert(ls.take(m)[i] == ls[i]);
    }
    lemma_lines_of_join(ls.take(m));
}

/// For a non-negative request `n` over a source whose first min(n, L) lines
/// all decode and do not end in a carriage return, line-mode output splits
/// back into exactly min(n, L) lines: the source's first min(n, L) lines.
pub proof fn lemma_head_lines_line_count(content: Seq<u8>, n: int)
    requires
        n >= 0,
        forall|i: int|
            0 <= i < n && i < spec_lines(content).len() ==> utf8_decodable(
                #[trigger] spec_lines(content)[i],
            ),
        forall|i: int|
            0 <= i < n && i < spec_lines(content).len() ==> (spec_lines(content)[i].len() == 0 || (
            #[trigger] spec_lines(content)[i]).last() != CR),
    ensures
        spec_lines(spec_head_lines(content, n)) == spec_lines(content).take(
            if n <= spec_lines(content).len() {
                n
            } else {
                spec_lines(content).len() as int
            },
        ),
        spec_lines(spec_head_lines(content, n)).len() == if n <= spec_lines(content).len() {
            n
        } else {
            spec_lines(content).len() as int
        },
{
    let ls = spec_lines(content);
    let m = if n <= ls.len() {
        n
    } else {
        ls.len() as int
    };
    lemma_head_lines_take_first(content, n);
    lemma_join_take_splits(content, m);
}

/// For a negative request `n` with |n| at most the line count L, over a
/// source whose first L - |n| lines all decode and do not end in a carriage
/// return, line-mode output splits back into exactly L - |n| lines: the
/// source's first L - |n| lines in order.
pub proof fn lemma_head_lines_drop_last_line_count(content: Seq<u8>, n: int)
    requires
        n < 0,
        -n <= spec_lines(content).len(),
        forall|i: int|
            0 <= i < spec_lines(content).len() + n ==> utf8_decodable(
                #[trigger] spec_lines(content)[i],
            ),
        forall|i: int|
            0 <= i < spec_lines(content).len() + n ==> (spec_lines(content)[i].len() == 0 || (
            #[trigger] spec_lines(content)[i]).last() != CR),
    ensures
        spec_lines(spec_head_lines(content, n)) == spec_lines(content).take(
            spec_lines(content).len() + n,
        ),
        spec_lines(spec_head_lines(content, n)).len() == spec_lines(content).len() + n,
{
    lemma_head_lines_drop_last(content, n);
    lemma_join_take_splits(content, spec_lines(content).len() + n);
}

} // verus!
