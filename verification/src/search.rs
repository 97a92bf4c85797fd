//! Scanning every file's quote entries for a plain-text or a regex pattern,
//! with optional case-insensitivity, match highlighting, and early exit on
//! the first match.

use vstd::prelude::*;

use crate::decode::{decode_utf8, decoded_all, utf8_repair};
use crate::fortune::{all_entries, lemma_all_entries_concat};
use crate::split::{copy_bytes, split_quotes, split_spec, views_of};

verus! {

// ----- containment of one byte sequence in another -----

/// The needle occurs in the haystack at position `i`.
pub open spec fn match_at(hay: Seq<u8>, needle: Seq<u8>, i: int) -> bool {
    &&& 0 <= i
    &&& i + needle.len() <= hay.len()
    &&& hay.subrange(i, i + needle.len()) == needle
}

/// The needle occurs somewhere in the haystack.
pub open spec fn contains_seq(hay: Seq<u8>, needle: Seq<u8>) -> bool {
    exists|i: int| match_at(hay, needle, i)
}

/// `i` is the leftmost occurrence of the needle.
pub open spec fn first_match_at(hay: Seq<u8>, needle: Seq<u8>, i: int) -> bool {
    match_at(hay, needle, i) && forall|j: int| 0 <= j < i ==> !match_at(hay, needle, j)
}

/// The leftmost occurrence position of the needle.
pub open spec fn first_match(hay: Seq<u8>, needle: Seq<u8>) -> int {
    choose|i: int| first_match_at(hay, needle, i)
}

proof fn lemma_first_match_unique(hay: Seq<u8>, needle: Seq<u8>, a: int, b: int)
    requires
        first_match_at(hay, needle, a),
        first_match_at(hay, needle, b),
    ensures
        a == b,
{
    if a < b {
        assert(!match_at(hay, needle, a));
    } else if b < a {
        assert(!match_at(hay, needle, b));
    }
}

fn match_here(hay: &Vec<u8>, needle: &Vec<u8>, i: usize) -> (r: bool)
    requires
        i + needle@.len() <= hay@.len(),
    ensures
        r == match_at(hay@, needle@, i as int),
{
    let n = needle.len();
    let hlen = hay.len();
    let mut m: usize = 0;
    while m < n
        invariant
            n == needle@.len(),
            hlen == hay@.len(),
            i + n <= hlen,
            i + n <= hay@.len(),
            m <= n,
            forall|t: int| 0 <= t < m ==> hay@[i + t] == needle@[t],
        decreases n - m,
    {
        if hay[i + m] != needle[m] {
            proof {
                let sub = hay@.subrange(i as int, i + needle@.len());
                assert(sub[m as int] == hay@[i + m]);
                assert(!match_at(hay@, needle@, i as int));
            }
            return false;
        }
        m = m + 1;
    }
    proof {
        assert(hay@.subrange(i as int, i + needle@.len()) =~= needle@);
    }
    true
}

/// Find the leftmost occurrence of `needle` in `hay`, if there is one.
fn find_first(hay: &Vec<u8>, needle: &Vec<u8>) -> (r: Option<usize>)
    ensures
        r matches Some(p) ==> first_match_at(hay@, needle@, p as int),
        r is None ==> !contains_seq(hay@, needle@),
{
    if needle.len() == 0 {
        proof {
            assert(hay@.subrange(0, 0) =~= needle@);
        }
        return Some(0);
    }
    if needle.len() > hay.len() {
        proof {
            assert forall|j: int| !match_at(hay@, needle@, j) by {
                if match_at(hay@, needle@, j) {
                    assert(j + needle@.len() <= hay@.len());
                }
            }
        }
        return None;
    }
    let hlen = hay.len();
    let end = hlen - needle.len();
    let mut i: usize = 0;
    while i <= end
        invariant
            hlen == hay@.len(),
            1 <= needle@.len() <= hay@.len(),
            end == hay@.len() - needle@.len(),
            i <= end + 1,
            forall|j: int| 0 <= j < i ==> !match_at(hay@, needle@, j),
        decreases end + 1 - i,
    {
        if match_here(hay, needle, i) {
            return Some(i);
        }
        i = i + 1;
    }
    proof {
        assert forall|j: int| !match_at(hay@, needle@, j) by {
            if match_at(hay@, needle@, j) {
                assert(j + needle@.len() <= hay@.len());
                assert(0 <= j < i);
            }
        }
    }
    None
}

// ----- case folding -----

/// The lower-cased form of UTF-8 text, as bytes; a function of the input
/// bytes alone.
pub uninterp spec fn lower_of(s: Seq<u8>) -> Seq<u8>;

/// Relies on str::to_lowercase, applied to a lossy view of the bytes as
/// text: the result depends on the input bytes alone.
#[verifier::external_body]
fn lower_bytes(s: &Vec<u8>) -> (r: Vec<u8>)
    ensures
        r@ == lower_of(s@),
{
    String::from_utf8_lossy(s.as_slice()).to_lowercase().into_bytes()
}

/// The comparison form of text: lower-cased when the search is
/// case-insensitive, the text itself otherwise.
pub open spec fn cmp_form(s: Seq<u8>, insensitive: bool) -> Seq<u8> {
    if insensitive {
        lower_of(s)
    } else {
        s
    }
}

/// A quote entry matches a literal pattern when its comparison form
/// contains the pattern's comparison form.
pub open spec fn entry_matches(entry: Seq<u8>, pattern: Seq<u8>, insensitive: bool) -> bool {
    contains_seq(cmp_form(entry, insensitive), cmp_form(pattern, insensitive))
}

// ----- output blocks -----

/// The bytes of the red highlight escape code, `color(Colors::Red)`.
pub open spec fn red_marker() -> Seq<u8> {
    seq![27u8, 91u8, 49u8, 59u8, 57u8, 49u8, 109u8]
}

/// The bytes of the reset escape code, `color(Colors::End)`.
pub open spec fn end_marker() -> Seq<u8> {
    seq![27u8, 91u8, 48u8, 109u8]
}

/// The delimiter marker line appended after each printed match: newline
/// then `%`.
pub open spec fn tail_marker() -> Seq<u8> {
    seq![10u8, 37u8]
}

/// One printed match of the literal search: the entry followed by the
/// delimiter marker line. When highlighting, the matched original-case
/// bytes are wrapped in the color markers, located by the leftmost match in
/// the comparison forms and sliced with the pattern's own length; when that
/// slice would overrun the entry, the entry is printed unchanged.
pub open spec fn entry_block(entry: Seq<u8>, pattern: Seq<u8>, insensitive: bool, highlight: bool) -> Seq<u8> {
    if highlight {
        let p = first_match(cmp_form(entry, insensitive), cmp_form(pattern, insensitive));
        if 0 <= p && p + pattern.len() <= entry.len() {
            entry.subrange(0, p) + red_marker() + entry.subrange(p, p + pattern.len())
                + end_marker() + entry.subrange(p + pattern.len(), entry.len() as int)
                + tail_marker()
        } else {
            entry + tail_marker()
        }
    } else {
        entry + tail_marker()
    }
}

/// The blocks that a scan emits for the given entries, in order: one block
/// for each entry that the per-entry rule maps to a block.
pub open spec fn blocks_of(entries: Seq<Seq<u8>>, f: spec_fn(Seq<u8>) -> Option<Seq<u8>>) -> Seq<
    Seq<u8>,
>
    decreases entries.len(),
{
    if entries.len() == 0 {
        Seq::<Seq<u8>>::empty()
    } else {
        (match f(entries[0]) {
            Option::Some(b) => seq![b],
            Option::None => Seq::<Seq<u8>>::empty(),
        }) + blocks_of(entries.skip(1), f)
    }
}

/// The per-entry rule of the literal search.
pub open spec fn lit_block_fn(pattern: Seq<u8>, insensitive: bool, highlight: bool) -> spec_fn(
    Seq<u8>,
) -> Option<Seq<u8>> {
    |entry: Seq<u8>|
        if entry_matches(entry, pattern, insensitive) {
            Option::Some(entry_block(entry, pattern, insensitive, highlight))
        } else {
            Option::None
        }
}

/// What remains of the scan's outputs under the first-only flag.
pub open spec fn truncated(outs: Seq<Seq<u8>>, only_one: bool) -> Seq<Seq<u8>> {
    if only_one && outs.len() > 0 {
        seq![outs[0]]
    } else {
        outs
    }
}

proof fn lemma_blocks_concat(a: Seq<Seq<u8>>, b: Seq<Seq<u8>>, f: spec_fn(Seq<u8>) -> Option<
    Seq<u8>,
>)
    ensures
        blocks_of(a + b, f) == blocks_of(a, f) + blocks_of(b, f),
    decreases a.len(),
{
    if a.len() == 0 {
        assert(a + b =~= b);
        assert(blocks_of(a, f) + blocks_of(b, f) =~~= blocks_of(b, f));
    } else {
        lemma_blocks_concat(a.skip(1), b, f);
        assert((a + b).skip(1) =~= a.skip(1) + b);
        assert((a + b)[0] == a[0]);
        let head = match f(a[0]) {
            Option::Some(x) => seq![x],
            Option::None => Seq::<Seq<u8>>::empty(),
        };
        assert(head + (blocks_of(a.skip(1), f) + blocks_of(b, f)) =~~= (head + blocks_of(
            a.skip(1),
            f,
        )) + blocks_of(b, f));
    }
}

proof fn lemma_blocks_single(e: Seq<u8>, f: spec_fn(Seq<u8>) -> Option<Seq<u8>>)
    ensures
        f(e) matches Option::Some(b) ==> blocks_of(seq![e], f) == seq![b],
        f(e) is None ==> blocks_of(seq![e], f) == Seq::<Seq<u8>>::empty(),
{
    assert(seq![e].skip(1) =~= Seq::<Seq<u8>>::empty());
    assert(blocks_of(Seq::<Seq<u8>>::empty(), f) =~~= Seq::<Seq<u8>>::empty());
    if f(e) is Some {
        assert(blocks_of(seq![e], f) =~~= seq![f(e)->Some_0]);
    } else {
        assert(blocks_of(seq![e], f) =~~= Seq::<Seq<u8>>::empty());
    }
}

/// One file's entries appended to a processed prefix of the corpus.
proof fn lemma_entries_snoc(dc: Seq<Seq<u8>>, fi: int)
    requires
        0 <= fi < dc.len(),
    ensures
        all_entries(dc.take(fi + 1)) == all_entries(dc.take(fi)) + split_spec(dc[fi]),
{
    assert(dc.take(fi + 1) =~= dc.take(fi) + seq![dc[fi]]);
    lemma_all_entries_concat(dc.take(fi), seq![dc[fi]]);
    assert(seq![dc[fi]].skip(1) =~= Seq::<Seq<u8>>::empty());
    assert(all_entries(Seq::<Seq<u8>>::empty()) =~~= Seq::<Seq<u8>>::empty());
    assert(all_entries(seq![dc[fi]]) =~~= split_spec(dc[fi]));
}

/// When everything scanned before file `fi`, entry `ei` produced no block
/// and that entry produces block `b`, then `b` is the first block of the
/// whole scan.
proof fn lemma_first_block(
    dc: Seq<Seq<u8>>,
    fi: int,
    ei: int,
    f: spec_fn(Seq<u8>) -> Option<Seq<u8>>,
    b: Seq<u8>,
)
    requires
        0 <= fi < dc.len(),
        0 <= ei < split_spec(dc[fi]).len(),
        blocks_of(all_entries(dc.take(fi)) + split_spec(dc[fi]).take(ei), f) == Seq::<
            Seq<u8>,
        >::empty(),
        f(split_spec(dc[fi])[ei]) == Option::Some(b),
    ensures
        blocks_of(all_entries(dc), f).len() > 0,
        blocks_of(all_entries(dc), f)[0] == b,
{
    let es = split_spec(dc[fi]);
    let pre = all_entries(dc.take(fi));
    let rest = all_entries(dc.skip(fi + 1));
    assert(dc =~= (dc.take(fi) + seq![dc[fi]]) + dc.skip(fi + 1));
    lemma_all_entries_concat(dc.take(fi) + seq![dc[fi]], dc.skip(fi + 1));
    lemma_all_entries_concat(dc.take(fi), seq![dc[fi]]);
    assert(seq![dc[fi]].skip(1) =~= Seq::<Seq<u8>>::empty());
    assert(all_entries(Seq::<Seq<u8>>::empty()) =~~= Seq::<Seq<u8>>::empty());
    assert(all_entries(seq![dc[fi]]) =~~= es);
    assert(all_entries(dc) == (pre + es) + rest);
    assert((pre + es) + rest =~~= ((pre + es.take(ei)) + seq![es[ei]]) + (es.skip(ei + 1) + rest));
    lemma_blocks_concat((pre + es.take(ei)) + seq![es[ei]], es.skip(ei + 1) + rest, f);
    lemma_blocks_concat(pre + es.take(ei), seq![es[ei]], f);
    lemma_blocks_single(es[ei], f);
    assert(blocks_of(all_entries(dc), f) == seq![b] + blocks_of(es.skip(ei + 1) + rest, f));
}

fn plain_block(entry: &Vec<u8>) -> (r: Vec<u8>)
    ensures
        r@ == entry@ + tail_marker(),
{
    let mut out = copy_bytes(entry);
    out.push(10u8);
    out.push(37u8);
    proof {
        assert(out@ =~= entry@ + tail_marker());
    }
    out
}

fn extend_range(out: Vec<u8>, src: &Vec<u8>, start: usize, end: usize) -> (r: Vec<u8>)
    requires
        start <= end <= src@.len(),
    ensures
        r@ == out@ + src@.subrange(start as int, end as int),
{
    let mut r = out;
    let ghost r0 = r@;
    let mut t = start;
    while t < end
        invariant
            start <= t <= end <= src@.len(),
            r@ == r0 + src@.subrange(start as int, t as int),
        decreases end - t,
    {
        r.push(src[t]);
        proof {
            assert(r0 + src@.subrange(start as int, t + 1) =~= (r0 + src@.subrange(
                start as int,
                t as int,
            )).push(src@[t as int]));
        }
        t = t + 1;
    }
    r
}

fn make_block(
    entry: &Vec<u8>,
    p: usize,
    pat_len: usize,
    highlight: bool,
    Ghost(pattern): Ghost<Seq<u8>>,
    Ghost(insensitive): Ghost<bool>,
) -> (r: Vec<u8>)
    requires
        pattern.len() == pat_len,
        first_match_at(cmp_form(entry@, insensitive), cmp_form(pattern, insensitive), p as int),
    ensures
        r@ == entry_block(entry@, pattern, insensitive, highlight),
{
    proof {
        let fm = first_match(cmp_form(entry@, insensitive), cmp_form(pattern, insensitive));
        assert(first_match_at(cmp_form(entry@, insensitive), cmp_form(pattern, insensitive), fm));
        lemma_first_match_unique(
            cmp_form(entry@, insensitive),
            cmp_form(pattern, insensitive),
            fm,
            p as int,
        );
    }
    if highlight && pat_len <= entry.len() && p <= entry.len() - pat_len {
        let mut out: Vec<u8> = Vec::new();
        out = extend_range(out, entry, 0, p);
        out.push(27u8);
        out.push(91u8);
        out.push(49u8);
        out.push(59u8);
        out.push(57u8);
        out.push(49u8);
        out.push(109u8);
        out = extend_range(out, entry, p, p + pat_len);
        out.push(27u8);
        out.push(91u8);
        out.push(48u8);
        out.push(109u8);
        out = extend_range(out, entry, p + pat_len, entry.len());
        out.push(10u8);
        out.push(37u8);
        proof {
            assert(out@ =~= entry@.subrange(0, p as int) + red_marker() + entry@.subrange(
                p as int,
                p + pat_len,
            ) + end_marker() + entry@.subrange(p + pat_len, entry@.len() as int) + tail_marker());
        }
        out
    } else {
        proof {
            assert(entry@.subrange(0, entry@.len() as int) =~= entry@);
        }
        plain_block(entry)
    }
}

/// Literal search: decode and split every file, and emit, in corpus order,
/// each entry whose comparison form contains the pattern's comparison form
/// (lower-cased forms when `insensitive`), highlighted when `show_colors`;
/// when `only_one`, the scan stops at the first match.
pub fn search_fortune(
    raws: &Vec<Vec<u8>>,
    pattern: &Vec<u8>,
    insensitive: bool,
    show_colors: bool,
    only_one: bool,
) -> (r: Vec<Vec<u8>>)
    ensures
        views_of(r@) == truncated(
            blocks_of(
                all_entries(decoded_all(views_of(raws@))),
                lit_block_fn(pattern@, insensitive, show_colors),
            ),
            only_one,
        ),
{
    let ghost rs = views_of(raws@);
    let ghost dc = decoded_all(rs);
    let ghost f = lit_block_fn(pattern@, insensitive, show_colors);
    let pattern_mod = if insensitive {
        lower_bytes(pattern)
    } else {
        copy_bytes(pattern)
    };
    let mut res: Vec<Vec<u8>> = Vec::new();
    let mut fi: usize = 0;
    proof {
        assert(dc.take(0) =~= Seq::<Seq<u8>>::empty());
        assert(views_of(res@) =~= blocks_of(all_entries(dc.take(0)), f));
    }
    while fi < raws.len()
        invariant
            fi <= raws@.len(),
            rs == views_of(raws@),
            dc == decoded_all(rs),
            f == lit_block_fn(pattern@, insensitive, show_colors),
            pattern_mod@ == cmp_form(pattern@, insensitive),
            views_of(res@) == blocks_of(all_entries(dc.take(fi as int)), f),
            only_one ==> res@.len() == 0,
        decreases raws@.len() - fi,
    {
        let content = decode_utf8(&raws[fi]);
        let entries = split_quotes(&content);
        proof {
            assert(rs[fi as int] == raws@[fi as int]@);
            assert(dc[fi as int] == utf8_repair(rs[fi as int]));
        }
        let ghost es = split_spec(dc[fi as int]);
        let mut ei: usize = 0;
        proof {
            assert(es.take(0) =~= Seq::<Seq<u8>>::empty());
            assert(all_entries(dc.take(fi as int)) + es.take(0) =~~= all_entries(
                dc.take(fi as int),
            ));
        }
        while ei < entries.len()
            invariant
                ei <= entries@.len(),
                fi < raws@.len(),
                rs == views_of(raws@),
                dc == decoded_all(rs),
                f == lit_block_fn(pattern@, insensitive, show_colors),
                pattern_mod@ == cmp_form(pattern@, insensitive),
                views_of(entries@) == es,
                es == split_spec(dc[fi as int]),
                views_of(res@) == blocks_of(
                    all_entries(dc.take(fi as int)) + es.take(ei as int),
                    f,
                ),
                only_one ==> res@.len() == 0,
            decreases entries@.len() - ei,
        {
            let ghost res0 = res@;
            let entry = &entries[ei];
            proof {
                assert(views_of(entries@)[ei as int] == entries@[ei as int]@);
            }
            let entry_mod = if insensitive {
                lower_bytes(entry)
            } else {
                copy_bytes(entry)
            };
            match find_first(&entry_mod, &pattern_mod) {
                Some(p) => {
                    proof {
                        assert(match_at(entry_mod@, pattern_mod@, p as int));
                        assert(entry_matches(es[ei as int], pattern@, insensitive));
                    }
                    let block = make_block(
                        entry,
                        p,
                        pattern.len(),
                        show_colors,
                        Ghost(pattern@),
                        Ghost(insensitive),
                    );
                    proof {
                        assert(f(es[ei as int]) == Option::Some(block@));
                    }
                    res.push(block);
                    proof {
                        assert(views_of(res@) =~= views_of(res0).push(block@));
                        assert((all_entries(dc.take(fi as int)) + es.take(ei as int)) + seq![
                            es[ei as int],
                        ] =~~= all_entries(dc.take(fi as int)) + es.take(ei + 1));
                        lemma_blocks_concat(
                            all_entries(dc.take(fi as int)) + es.take(ei as int),
                            seq![es[ei as int]],
                            f,
                        );
                        lemma_blocks_single(es[ei as int], f);
                        assert(views_of(res@) =~~= blocks_of(
                            all_entries(dc.take(fi as int)) + es.take(ei + 1),
                            f,
                        ));
                    }
                    if only_one {
                        proof {
                            lemma_first_block(dc, fi as int, ei as int, f, block@);
                            assert(views_of(res@) =~~= truncated(
                                blocks_of(all_entries(dc), f),
                                only_one,
                            ));
                            assert(dc.take(dc.len() as int) =~= dc);
                        }
                        return res;
                    }
                },
                None => {
                    proof {
                        assert(!entry_matches(es[ei as int], pattern@, insensitive));
                        assert(f(es[ei as int]) is None);
                        assert((all_entries(dc.take(fi as int)) + es.take(ei as int)) + seq![
                            es[ei as int],
                        ] =~~= all_entries(dc.take(fi as int)) + es.take(ei + 1));
                        lemma_blocks_concat(
                            all_entries(dc.take(fi as int)) + es.take(ei as int),
                            seq![es[ei as int]],
                            f,
                        );
                        lemma_blocks_single(es[ei as int], f);
                        assert(views_of(res@) =~~= blocks_of(
                            all_entries(dc.take(fi as int)) + es.take(ei + 1),
                            f,
                        ));
                    }
                },
            }
            ei = ei + 1;
        }
        fi = fi + 1;
        proof {
            assert(es.take(es.len() as int) =~= es);
            lemma_entries_snoc(dc, fi - 1);
        }
    }
    proof {
        assert(dc.take(dc.len() as int) =~= dc);
        if only_one {
            assert(blocks_of(all_entries(dc), f).len() == views_of(res@).len());
        }
    }
    res
}

// ----- regex search -----

/// Whether the byte text compiles as a regular expression.
pub uninterp spec fn regex_ok(pattern: Seq<u8>) -> bool;

/// Whether the regular expression of `pattern` matches within `text`.
pub uninterp spec fn regex_matches(pattern: Seq<u8>, text: Seq<u8>) -> bool;

/// Relies on regex::Regex::new and regex::Regex::is_match, applied to lossy
/// views of the bytes as text: whether the pattern compiles, and whether it
/// matches within the text, each depend on the given bytes alone.
#[verifier::external_body]
fn regex_match(pattern: &Vec<u8>, text: &Vec<u8>) -> (r: Option<bool>)
    ensures
        r is Some <==> regex_ok(pattern@),
        r matches Some(b) ==> b == regex_matches(pattern@, text@),
{
    match regex::Regex::new(&String::from_utf8_lossy(pattern.as_slice())) {
        Ok(re) => Some(re.is_match(&String::from_utf8_lossy(text.as_slice()))),
        Err(_) => None,
    }
}

/// The per-entry rule of the regex search: the compiled (already
/// comparison-form) pattern is tested against the entry's comparison form,
/// and a matching entry is emitted unchanged.
pub open spec fn regex_block_fn(cpattern: Seq<u8>, insensitive: bool) -> spec_fn(Seq<u8>) -> Option<
    Seq<u8>,
> {
    |entry: Seq<u8>|
        if regex_matches(cpattern, cmp_form(entry, insensitive)) {
            Option::Some(entry + tail_marker())
        } else {
            Option::None
        }
}

/// Regex search: the pattern itself is lower-cased first when `insensitive`
/// (so character classes are lower-cased too, deliberately); a pattern that
/// does not compile is an error before any file is scanned; each matching
/// entry is emitted unchanged, and `only_one` stops the scan at the first.
pub fn search_fortune_regex(
    raws: &Vec<Vec<u8>>,
    pattern: &Vec<u8>,
    insensitive: bool,
    only_one: bool,
) -> (r: Result<Vec<Vec<u8>>, ()>)
    ensures
        r is Err <==> !regex_ok(cmp_form(pattern@, insensitive)),
        r matches Ok(outs) ==> views_of(outs@) == truncated(
            blocks_of(
                all_entries(decoded_all(views_of(raws@))),
                regex_block_fn(cmp_form(pattern@, insensitive), insensitive),
            ),
            only_one,
        ),
{
    let ghost rs = views_of(raws@);
    let ghost dc = decoded_all(rs);
    let ghost f = regex_block_fn(cmp_form(pattern@, insensitive), insensitive);
    let pattern_mod = if insensitive {
        lower_bytes(pattern)
    } else {
        copy_bytes(pattern)
    };
    let probe: Vec<u8> = Vec::new();
    match regex_match(&pattern_mod, &probe) {
        None => {
            return Err(());
        },
        Some(_) => {},
    }
    let mut res: Vec<Vec<u8>> = Vec::new();
    let mut fi: usize = 0;
    proof {
        assert(dc.take(0) =~= Seq::<Seq<u8>>::empty());
        assert(views_of(res@) =~= blocks_of(all_entries(dc.take(0)), f));
    }
    while fi < raws.len()
        invariant
            fi <= raws@.len(),
            rs == views_of(raws@),
            dc == decoded_all(rs),
            f == regex_block_fn(cmp_form(pattern@, insensitive), insensitive),
            pattern_mod@ == cmp_form(pattern@, insensitive),
            regex_ok(pattern_mod@),
            views_of(res@) == blocks_of(all_entries(dc.take(fi as int)), f),
            only_one ==> res@.len() == 0,
        decreases raws@.len() - fi,
    {
        let content = decode_utf8(&raws[fi]);
        let entries = split_quotes(&content);
        proof {
            assert(rs[fi as int] == raws@[fi as int]@);
            assert(dc[fi as int] == utf8_repair(rs[fi as int]));
        }
        let ghost es = split_spec(dc[fi as int]);
        let mut ei: usize = 0;
        proof {
            assert(es.take(0) =~= Seq::<Seq<u8>>::empty());
            assert(all_entries(dc.take(fi as int)) + es.take(0) =~~= all_entries(
                dc.take(fi as int),
            ));
        }
        while ei < entries.len()
            invariant
                ei <= entries@.len(),
                fi < raws@.len(),
                rs == views_of(raws@),
                dc == decoded_all(rs),
                f == regex_block_fn(cmp_form(pattern@, insensitive), insensitive),
                pattern_mod@ == cmp_form(pattern@, insensitive),
                regex_ok(pattern_mod@),
                views_of(entries@) == es,
                es == split_spec(dc[fi as int]),
                views_of(res@) == blocks_of(
                    all_entries(dc.take(fi as int)) + es.take(ei as int),
                    f,
                ),
                only_one ==> res@.len() == 0,
            decreases entries@.len() - ei,
        {
            let ghost res0 = res@;
            let entry = &entries[ei];
            proof {
                assert(views_of(entries@)[ei as int] == entries@[ei as int]@);
            }
            let entry_mod = if insensitive {
                lower_bytes(entry)
            } else {
                copy_bytes(entry)
            };
            let matched = match regex_match(&pattern_mod, &entry_mod) {
                Some(b) => b,
                None => {
                    proof {
                        assert(false);
                    }
                    false
                },
            };
            if matched {
                let block = plain_block(entry);
                proof {
                    assert(f(es[ei as int]) == Option::Some(block@));
                }
                res.push(block);
                proof {
                    assert(views_of(res@) =~= views_of(res0).push(block@));
                    assert((all_entries(dc.take(fi as int)) + es.take(ei as int)) + seq![
                        es[ei as int],
                    ] =~~= all_entries(dc.take(fi as int)) + es.take(ei + 1));
                    lemma_blocks_concat(
                        all_entries(dc.take(fi as int)) + es.take(ei as int),
                        seq![es[ei as int]],
                        f,
                    );
                    lemma_blocks_single(es[ei as int], f);
                    assert(views_of(res@) =~~= blocks_of(
                        all_entries(dc.take(fi as int)) + es.take(ei + 1),
                        f,
                    ));
                }
                if only_one {
                    proof {
                        lemma_first_block(dc, fi as int, ei as int, f, block@);
                        assert(views_of(res@) =~~= truncated(
                            blocks_of(all_entries(dc), f),
                            only_one,
                        ));
                    }
                    return Ok(res);
                }
            } else {
                proof {
                    assert(f(es[ei as int]) is None);
                    assert((all_entries(dc.take(fi as int)) + es.take(ei as int)) + seq![
                        es[ei as int],
                    ] =~~= all_entries(dc.take(fi as int)) + es.take(ei + 1));
                    lemma_blocks_concat(
                        all_entries(dc.take(fi as int)) + es.take(ei as int),
                        seq![es[ei as int]],
                        f,
                    );
                    lemma_blocks_single(es[ei as int], f);
                    assert(views_of(res@) =~~= blocks_of(
                        all_entries(dc.take(fi as int)) + es.take(ei + 1),
                        f,
                    ));
                }
            }
            ei = ei + 1;
        }
        fi = fi + 1;
        proof {
            assert(es.take(es.len() as int) =~= es);
            lemma_entries_snoc(dc, fi - 1);
        }
    }
    proof {
        assert(dc.take(dc.len() as int) =~= dc);
        if only_one {
            assert(blocks_of(all_entries(dc), f).len() == views_of(res@).len());
        }
    }
    Ok(res)
}

} // verus!
