//! Splitting byte strings on a separator.
//!
//! One verified splitter serves the row-delimited source (lines, then
//! comma-separated cells) and the query text (space-separated tokens,
//! dot-separated column references).

use vstd::prelude::*;

verus! {

/// The segments of `b` between occurrences of `sep`.
///
/// Always at least one segment; `n + 1` segments for `n` separators, so
/// adjacent separators and separators at either end yield empty segments.
pub open spec fn split_spec(b: Seq<u8>, sep: u8) -> Seq<Seq<u8>>
    decreases b.len(),
{
    if b.len() == 0 {
        seq![Seq::<u8>::empty()]
    } else if b[0] == sep {
        seq![Seq::<u8>::empty()] + split_spec(b.skip(1), sep)
    } else {
        let rest = split_spec(b.skip(1), sep);
        seq![seq![b[0]] + rest[0]] + rest.skip(1)
    }
}

/// A split always has at least one segment.
pub proof fn lemma_split_nonempty(b: Seq<u8>, sep: u8)
    ensures
        split_spec(b, sep).len() >= 1,
    decreases b.len(),
{
    if b.len() != 0 {
        lemma_split_nonempty(b.skip(1), sep);
    }
}

/// No segment is longer than the split input.
pub proof fn lemma_split_seg_len(b: Seq<u8>, sep: u8)
    ensures
        forall|k: int|
            0 <= k < split_spec(b, sep).len() ==> (#[trigger] split_spec(b, sep)[k]).len()
                <= b.len(),
    decreases b.len(),
{
    if b.len() == 0 {
    } else {
        lemma_split_seg_len(b.skip(1), sep);
        let rest = split_spec(b.skip(1), sep);
        lemma_split_nonempty(b.skip(1), sep);
        if b[0] == sep {
            assert forall|k: int|
                0 <= k < split_spec(b, sep).len() implies (#[trigger] split_spec(b, sep)[k]).len()
                <= b.len() by {
                if k > 0 {
                    assert(split_spec(b, sep)[k] == rest[k - 1]);
                }
            }
        } else {
            assert forall|k: int|
                0 <= k < split_spec(b, sep).len() implies (#[trigger] split_spec(b, sep)[k]).len()
                <= b.len() by {
                if k == 0 {
                    assert(split_spec(b, sep)[0] == seq![b[0]] + rest[0]);
                    assert(rest[0].len() <= b.skip(1).len());
                } else {
                    assert(split_spec(b, sep)[k] == rest.skip(1)[k - 1]);
                    assert(rest.skip(1)[k - 1] == rest[k]);
                }
            }
        }
    }
}

/// A split has at most one segment more than the input has bytes.
pub proof fn lemma_split_count(b: Seq<u8>, sep: u8)
    ensures
        split_spec(b, sep).len() <= b.len() + 1,
    decreases b.len(),
{
    if b.len() > 0 {
        lemma_split_count(b.skip(1), sep);
    }
}

/// Split a byte vector on a separator.
pub fn split_bytes(b: &Vec<u8>, sep: u8) -> (out: Vec<Vec<u8>>)
    ensures
        out.deep_view() == split_spec(b@, sep),
{
    let ghost whole = b@;
    let mut out: Vec<Vec<u8>> = Vec::new();
    let mut cur: Vec<u8> = Vec::new();
    let mut i: usize = 0;
    proof {
        lemma_split_nonempty(b@, sep);
        assert(b@.skip(0) =~= b@);
    }
    while i < b.len()
        invariant
            i <= b.len(),
            split_spec(b@.skip(i as int), sep).len() >= 1,
            split_spec(b@, sep) =~~= out.deep_view().push(
                cur@ + split_spec(b@.skip(i as int), sep)[0],
            ) + split_spec(b@.skip(i as int), sep).skip(1),
        decreases b.len() - i,
    {
        proof {
            assert(b@.skip(i as int)[0] == b@[i as int]);
            assert(b@.skip(i as int).skip(1) =~= b@.skip(i + 1 as int));
            lemma_split_nonempty(b@.skip(i + 1 as int), sep);
        }
        if b[i] == sep {
            let ghost old_out = out.deep_view();
            let ghost old_cur = cur@;
            out.push(cur);
            cur = Vec::new();
            proof {
                assert(out.deep_view() =~~= old_out.push(old_cur));
                assert(split_spec(b@.skip(i as int), sep) =~= seq![Seq::<u8>::empty()]
                    + split_spec(b@.skip(i + 1 as int), sep));
                assert(old_cur + split_spec(b@.skip(i as int), sep)[0] =~= old_cur);
                assert(split_spec(b@.skip(i as int), sep).skip(1) =~= split_spec(
                    b@.skip(i + 1 as int),
                    sep,
                ));
                assert(split_spec(b@, sep) =~~= out.deep_view().push(
                    cur@ + split_spec(b@.skip(i + 1 as int), sep)[0],
                ) + split_spec(b@.skip(i + 1 as int), sep).skip(1));
            }
        } else {
            let ghost old_cur = cur@;
            cur.push(b[i]);
            proof {
                let rest = split_spec(b@.skip(i + 1 as int), sep);
                assert(split_spec(b@.skip(i as int), sep) =~= seq![
                    seq![b@[i as int]] + rest[0],
                ] + rest.skip(1));
                assert(cur@ =~= old_cur.push(b@[i as int]));
                assert(cur@ + rest[0] =~= old_cur + (seq![b@[i as int]] + rest[0]));
                assert(split_spec(b@, sep) =~~= out.deep_view().push(cur@ + rest[0]) + rest.skip(
                    1,
                ));
            }
        }
        i = i + 1;
    }
    proof {
        assert(b@.skip(b@.len() as int) =~= Seq::<u8>::empty());
        assert(split_spec(b@.skip(i as int), sep) =~= seq![Seq::<u8>::empty()]);
        assert(cur@ + Seq::<u8>::empty() =~= cur@);
    }
    let ghost old_out = out.deep_view();
    let ghost last = cur@;
    out.push(cur);
    proof {
        assert(out.deep_view() =~~= old_out.push(last));
        assert(out.deep_view() =~~= split_spec(b@, sep));
    }
    out
}

} // verus!
