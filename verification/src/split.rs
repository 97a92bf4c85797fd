//! Splitting a fortune file's text into quote entries on the delimiter
//! line `"\n%\n"`, with the round-trip law relating splitting and joining.

use vstd::prelude::*;

verus! {

/// The views of a sequence of byte vectors.
pub open spec fn views_of(vs: Seq<Vec<u8>>) -> Seq<Seq<u8>> {
    vs.map_values(|v: Vec<u8>| v@)
}

/// The quote delimiter, as bytes: newline, `%`, newline.
pub open spec fn delim() -> Seq<u8> {
    seq![10u8, 37u8, 10u8]
}

/// The delimiter occurs in `c` at position `i`.
pub open spec fn is_delim_at(c: Seq<u8>, i: int) -> bool {
    &&& 0 <= i
    &&& i + 3 <= c.len()
    &&& c[i] == 10u8
    &&& c[i + 1] == 37u8
    &&& c[i + 2] == 10u8
}

/// The entries of `c`, split on the delimiter: a text always has at least
/// one entry, and text with no delimiter is a single entry.
pub open spec fn split_spec(c: Seq<u8>) -> Seq<Seq<u8>>
    decreases c.len(),
{
    if c.len() >= 3 && c[0] == 10u8 && c[1] == 37u8 && c[2] == 10u8 {
        seq![Seq::<u8>::empty()] + split_spec(c.skip(3))
    } else if c.len() == 0 {
        seq![Seq::<u8>::empty()]
    } else {
        let rest = split_spec(c.skip(1));
        seq![seq![c[0]] + rest[0]] + rest.skip(1)
    }
}

/// The entries rejoined with the delimiter between each pair.
pub open spec fn join_spec(ss: Seq<Seq<u8>>) -> Seq<u8>
    decreases ss.len(),
{
    if ss.len() == 0 {
        Seq::<u8>::empty()
    } else if ss.len() == 1 {
        ss[0]
    } else {
        ss[0] + delim() + join_spec(ss.skip(1))
    }
}

/// Splitting always yields at least one entry.
pub proof fn lemma_split_len(c: Seq<u8>)
    ensures
        split_spec(c).len() >= 1,
    decreases c.len(),
{
    if c.len() >= 3 && c[0] == 10u8 && c[1] == 37u8 && c[2] == 10u8 {
        lemma_split_len(c.skip(3));
    } else if c.len() == 0 {
    } else {
        lemma_split_len(c.skip(1));
    }
}

/// Rejoining the entries with the delimiter reproduces the text exactly.
pub proof fn lemma_split_join(c: Seq<u8>)
    ensures
        join_spec(split_spec(c)) == c,
    decreases c.len(),
{
    if c.len() >= 3 && c[0] == 10u8 && c[1] == 37u8 && c[2] == 10u8 {
        lemma_split_join(c.skip(3));
        lemma_split_len(c.skip(3));
        let rest = split_spec(c.skip(3));
        let s = seq![Seq::<u8>::empty()] + rest;
        assert(s.skip(1) =~= rest);
        if rest.len() == 1 {
            assert(join_spec(s) == s[0] + delim() + join_spec(rest));
        }
        assert(Seq::<u8>::empty() + delim() + c.skip(3) =~= c);
    } else if c.len() == 0 {
    } else {
        lemma_split_join(c.skip(1));
        lemma_split_len(c.skip(1));
        let rest = split_spec(c.skip(1));
        let s = seq![seq![c[0]] + rest[0]] + rest.skip(1);
        if rest.len() == 1 {
            assert(join_spec(rest) == rest[0]);
            assert(s.len() == 1);
            assert(join_spec(s) == seq![c[0]] + rest[0]);
            assert(seq![c[0]] + c.skip(1) =~= c);
        } else {
            assert(s.skip(1) =~= rest.skip(1));
            assert(join_spec(s) == s[0] + delim() + join_spec(rest.skip(1)));
            assert(join_spec(rest) == rest[0] + delim() + join_spec(rest.skip(1)));
            assert(seq![c[0]] + (rest[0] + delim() + join_spec(rest.skip(1))) =~= c);
            assert(seq![c[0]] + rest[0] + delim() + join_spec(rest.skip(1)) =~= seq![c[0]] + (
            rest[0] + delim() + join_spec(rest.skip(1))));
        }
    }
}

/// A text with no delimiter occurrence splits into exactly one entry: itself.
pub proof fn lemma_split_no_delim(c: Seq<u8>)
    requires
        forall|i: int| !is_delim_at(c, i),
    ensures
        split_spec(c) == seq![c],
    decreases c.len(),
{
    if c.len() == 0 {
        assert(split_spec(c) =~~= seq![c]);
    } else {
        assert(!is_delim_at(c, 0));
        assert forall|i: int| !is_delim_at(c.skip(1), i) by {
            if is_delim_at(c.skip(1), i) {
                assert(c.skip(1)[i] == c[i + 1]);
                assert(c.skip(1)[i + 1] == c[i + 2]);
                assert(c.skip(1)[i + 2] == c[i + 3]);
                assert(is_delim_at(c, i + 1));
            }
        }
        lemma_split_no_delim(c.skip(1));
        let rest = split_spec(c.skip(1));
        assert(rest == seq![c.skip(1)]);
        assert(split_spec(c) =~~= seq![c]);
    }
}

/// The split of the unread tail, with `p` still to be prepended to its
/// first entry.
spec fn prepend_first(p: Seq<u8>, ss: Seq<Seq<u8>>) -> Seq<Seq<u8>> {
    seq![p + ss[0]] + ss.skip(1)
}

proof fn lemma_split_step_delim(c: Seq<u8>, i: int)
    requires
        is_delim_at(c, i),
    ensures
        split_spec(c.skip(i)) == seq![Seq::<u8>::empty()] + split_spec(c.skip(i + 3)),
{
    assert(c.skip(i)[0] == c[i]);
    assert(c.skip(i)[1] == c[i + 1]);
    assert(c.skip(i)[2] == c[i + 2]);
    assert(c.skip(i).skip(3) =~= c.skip(i + 3));
}

proof fn lemma_split_step_byte(c: Seq<u8>, i: int)
    requires
        0 <= i < c.len(),
        !is_delim_at(c, i),
    ensures
        split_spec(c.skip(i)) == seq![seq![c[i]] + split_spec(c.skip(i + 1))[0]] + split_spec(
            c.skip(i + 1),
        ).skip(1),
{
    assert(c.skip(i)[0] == c[i]);
    assert(c.skip(i).len() >= 3 ==> c.skip(i)[1] == c[i + 1] && c.skip(i)[2] == c[i + 2]);
    assert(c.skip(i).skip(1) =~= c.skip(i + 1));
}

/// Partition the text into quote entries on the delimiter `"\n%\n"`:
/// no trimming, no deduplication, order kept.
pub fn split_quotes(content: &Vec<u8>) -> (r: Vec<Vec<u8>>)
    ensures
        views_of(r@) == split_spec(content@),
{
    let n = content.len();
    let mut res: Vec<Vec<u8>> = Vec::new();
    let mut cur: Vec<u8> = Vec::new();
    let mut i: usize = 0;
    proof {
        lemma_split_len(content@);
        assert(content@.skip(0) =~= content@);
        assert(views_of(res@) + prepend_first(cur@, split_spec(content@)) =~~= split_spec(
            content@,
        ));
        assert(views_of(res@) + prepend_first(cur@, split_spec(content@.skip(0))) == split_spec(
            content@,
        ));
    }
    while i < n
        invariant
            n == content@.len(),
            i <= n,
            split_spec(content@) == views_of(res@) + prepend_first(
                cur@,
                split_spec(content@.skip(i as int)),
            ),
        decreases n - i,
    {
        let ghost res0 = res@;
        let ghost cur0 = cur@;
        if n - i >= 3 && content[i] == 10u8 && content[i + 1] == 37u8 && content[i + 2] == 10u8 {
            proof {
                lemma_split_step_delim(content@, i as int);
                lemma_split_len(content@.skip(i as int + 3));
            }
            res.push(cur);
            cur = Vec::new();
            i = i + 3;
            proof {
                let tail = split_spec(content@.skip(i as int));
                assert(views_of(res@) =~= views_of(res0).push(cur0));
                assert(views_of(res@) + prepend_first(cur@, tail) =~~= views_of(res0)
                    + prepend_first(cur0, seq![Seq::<u8>::empty()] + tail));
            }
        } else {
            proof {
                lemma_split_step_byte(content@, i as int);
                lemma_split_len(content@.skip(i as int + 1));
            }
            cur.push(content[i]);
            i = i + 1;
            proof {
                let tail = split_spec(content@.skip(i as int));
                assert((seq![seq![content@[i - 1]] + tail[0]] + tail.skip(1)).skip(1) =~= tail.skip(
                    1,
                ));
                assert(views_of(res@) + prepend_first(cur@, tail) =~~= views_of(res0)
                    + prepend_first(cur0, seq![seq![content@[i - 1]] + tail[0]] + tail.skip(1)));
            }
        }
    }
    proof {
        assert(content@.skip(n as int) =~= Seq::<u8>::empty());
        let tail = split_spec(content@.skip(n as int));
        assert(prepend_first(cur@, tail) =~~= seq![cur@]);
    }
    let ghost res1 = res@;
    let ghost cur1 = cur@;
    res.push(cur);
    proof {
        assert(views_of(res@) =~= views_of(res1).push(cur1));
        assert(views_of(res@) =~~= views_of(res1) + seq![cur1]);
    }
    res
}

/// Copy a byte vector.
pub(crate) fn copy_bytes(v: &Vec<u8>) -> (r: Vec<u8>)
    ensures
        r@ == v@,
{
    let mut r: Vec<u8> = Vec::new();
    let mut i: usize = 0;
    while i < v.len()
        invariant
            i <= v@.len(),
            r@ == v@.take(i as int),
        decreases v@.len() - i,
    {
        r.push(v[i]);
        proof {
            assert(r@ =~= v@.take(i + 1));
        }
        i = i + 1;
    }
    proof {
        assert(v@.take(v@.len() as int) =~= v@);
    }
    r
}

} // verus!
