//! Splitting a source's bytes into lines, the way a buffered text reader
//! does: a line is a maximal run of bytes up to a newline byte, and a
//! carriage return standing directly before that newline is stripped. A
//! final run without a terminator still forms a line.
use vstd::prelude::*;

verus! {

/// The newline byte, the line terminator.
pub const NL: u8 = 10;

/// The carriage-return byte, stripped when it stands directly before a
/// newline.
pub const CR: u8 = 13;

/// A line with a trailing carriage return removed; the form a line takes
/// when its terminator was a carriage return followed by a newline.
pub open spec fn spec_strip_cr(l: Seq<u8>) -> Seq<u8> {
    if l.len() > 0 && l.last() == CR {
        l.drop_last()
    } else {
        l
    }
}

/// The lines of a byte sequence: split at each newline, strip a carriage
/// return standing directly before a newline, and keep an unterminated
/// final run as a line of its own.
pub open spec fn spec_lines(s: Seq<u8>) -> Seq<Seq<u8>>
    decreases s.len(),
{
    if s.len() == 0 {
        Seq::empty()
    } else if s[0] == NL {
        seq![Seq::<u8>::empty()] + spec_lines(s.skip(1))
    } else if s[0] == CR && s.len() >= 2 && s[1] == NL {
        seq![Seq::<u8>::empty()] + spec_lines(s.skip(2))
    } else {
        let rest = spec_lines(s.skip(1));
        if rest.len() == 0 {
            seq![s.take(1)]
        } else {
            seq![s.take(1) + rest[0]] + rest.skip(1)
        }
    }
}

/// The deep view of a byte vector is its plain view.
pub broadcast proof fn lemma_u8_vec_deep_view(v: Vec<u8>)
    ensures
        #[trigger] v.deep_view() == v@,
{
    assert(v.deep_view() =~= v@);
}

/// A sequence whose first newline stands at `i` splits into the line before
/// it (with a trailing carriage return stripped) and the lines of what
/// follows the newline.
pub proof fn lemma_lines_split_at_first_nl(s: Seq<u8>, i: int)
    requires
        0 <= i < s.len(),
        s[i] == NL,
        forall|j: int| 0 <= j < i ==> s[j] != NL,
    ensures
        spec_lines(s) == seq![spec_strip_cr(s.take(i))] + spec_lines(s.skip(i + 1)),
    decreases i,
{
    if i == 0 {
        assert(s.take(0) =~= Seq::<u8>::empty());
        assert(spec_lines(s) =~~= seq![spec_strip_cr(s.take(0))] + spec_lines(s.skip(1)));
    } else if i == 1 && s[0] == CR {
        assert(s.len() >= 2 && s[1] == NL);
        assert(s.take(1).last() == CR);
        assert(spec_strip_cr(s.take(1)) =~= Seq::<u8>::empty());
        assert(spec_lines(s) =~~= seq![spec_strip_cr(s.take(1))] + spec_lines(s.skip(2)));
    } else {
        let t = s.skip(1);
        assert(t[i - 1] == NL);
        assert(forall|j: int| 0 <= j < i - 1 ==> t[j] != NL);
        lemma_lines_split_at_first_nl(t, i - 1);
        assert(!(s[0] == CR && s.len() >= 2 && s[1] == NL)) by {
            if s.len() >= 2 && s[1] == NL {
                assert(i == 1);
                assert(s[0] != CR);
            }
        }
        let rest = spec_lines(t);
        assert(rest == seq![spec_strip_cr(t.take(i - 1))] + spec_lines(t.skip(i)));
        assert(rest.len() > 0);
        assert(rest[0] == spec_strip_cr(t.take(i - 1)));
        assert(rest.skip(1) =~~= spec_lines(t.skip(i)));
        assert(t.skip(i) =~= s.skip(i + 1));
        assert(s.take(1) + spec_strip_cr(t.take(i - 1)) == spec_strip_cr(s.take(i))) by {
            if i == 1 {
                assert(s[0] != CR);
                assert(t.take(0) =~= Seq::<u8>::empty());
                assert(s.take(1) + spec_strip_cr(t.take(0)) =~= s.take(1));
            } else {
                assert(t.take(i - 1).len() > 0);
                assert(t.take(i - 1).last() == s[i - 1]);
                assert(s.take(i).last() == s[i - 1]);
                if s[i - 1] == CR {
                    assert(s.take(1) + t.take(i - 1).drop_last() =~= s.take(i).drop_last());
                } else {
                    assert(s.take(1) + t.take(i - 1) =~= s.take(i));
                }
            }
        }
        assert(spec_lines(s) =~~= seq![spec_strip_cr(s.take(i))] + spec_lines(s.skip(i + 1)));
    }
}

/// A sequence without a newline is one single line (or none, when empty).
pub proof fn lemma_lines_no_nl(s: Seq<u8>)
    requires
        forall|j: int| 0 <= j < s.len() ==> s[j] != NL,
    ensures
        spec_lines(s) == if s.len() == 0 {
            Seq::<Seq<u8>>::empty()
        } else {
            seq![s]
        },
    decreases s.len(),
{
    if s.len() == 0 {
    } else {
        let t = s.skip(1);
        lemma_lines_no_nl(t);
        if s.len() == 1 {
            assert(s.take(1) =~= s);
            assert(spec_lines(s) =~~= seq![s]);
        } else {
            assert(s[1] != NL);
            assert(s.take(1) + t =~= s);
            assert((seq![s.take(1) + t]).skip(1) =~~= Seq::<Seq<u8>>::empty());
            assert(spec_lines(s) =~~= seq![s]);
        }
    }
}

/// Split a source's bytes into its lines.
pub fn split_lines(content: &Vec<u8>) -> (lines: Vec<Vec<u8>>)
    ensures
        lines.deep_view() == spec_lines(content@),
{
    broadcast use lemma_u8_vec_deep_view;

    let mut lines: Vec<Vec<u8>> = Vec::new();
    let mut pos: usize = 0;
    assert(lines.deep_view() =~~= Seq::<Seq<u8>>::empty());
    assert(content@.skip(0) =~= content@);
    while pos < content.len()
        invariant
            pos <= content@.len(),
            spec_lines(content@) == lines.deep_view() + spec_lines(content@.skip(pos as int)),
        decreases content@.len() - pos,
    {
        let ghost prev_dv = lines.deep_view();
        let ghost rem = content@.skip(pos as int);
        let mut i: usize = pos;
        let mut line: Vec<u8> = Vec::new();
        assert(line@ =~= content@.subrange(pos as int, pos as int));
        while i < content.len() && content[i] != NL
            invariant
                pos <= i <= content@.len(),
                line@ == content@.subrange(pos as int, i as int),
                forall|j: int| pos <= j < i ==> content@[j] != NL,
            decreases content@.len() - i,
        {
            let b = content[i];
            line.push(b);
            assert(line@ =~= content@.subrange(pos as int, i + 1));
            i = i + 1;
        }
        if i == content.len() {
            proof {
                lemma_lines_no_nl(rem);
                assert(rem =~= content@.subrange(pos as int, i as int));
            }
            let ghost line_view = line@;
            lines.push(line);
            proof {
                assert(lines.deep_view() =~~= prev_dv + seq![line_view]);
                assert(content@.skip(i as int) =~= Seq::<u8>::empty());
                assert(spec_lines(content@) =~~= lines.deep_view() + spec_lines(
                    content@.skip(i as int),
                ));
            }
            pos = i;
        } else {
            proof {
                assert(content@[i as int] == NL);
                assert(rem[i - pos] == NL);
                assert(forall|j: int| 0 <= j < i - pos ==> rem[j] != NL);
                lemma_lines_split_at_first_nl(rem, i - pos);
                assert(rem.take(i - pos) =~= content@.subrange(pos as int, i as int));
                assert(rem.skip(i - pos + 1) =~= content@.skip(i + 1));
            }
            if line.len() > 0 && line[line.len() - 1] == CR {
                let ghost unstripped = line@;
                line.pop();
                assert(line@ == unstripped.drop_last());
                assert(line@ == spec_strip_cr(content@.subrange(pos as int, i as int)));
            } else {
                assert(line@ == spec_strip_cr(content@.subrange(pos as int, i as int)));
            }
            let ghost line_view = line@;
            lines.push(line);
            proof {
                assert(lines.deep_view() =~~= prev_dv + seq![line_view]);
                assert(spec_lines(content@) =~~= lines.deep_view() + spec_lines(
                    content@.skip(i + 1),
                ));
            }
            pos = i + 1;
        }
    }
    proof {
        assert(content@.skip(pos as int) =~= Seq::<u8>::empty());
        assert(spec_lines(content@) =~~= lines.deep_view());
    }
    lines
}

} // verus!
