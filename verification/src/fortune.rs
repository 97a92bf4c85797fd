//! Picking a random quote from one file or from the whole corpus, with the
//! backward-scan fallback for degenerate entries.

use vstd::prelude::*;

use crate::decode::{decode_utf8, decoded_all, utf8_repair};
use crate::randnum::get_rand_value;
use crate::split::{copy_bytes, lemma_split_len, split_quotes, split_spec, views_of};

verus! {

/// The entry that the backward scan yields when indices `j, j-1, ..., 1` are
/// still to be examined: the nearest-to-the-end entry among those with more
/// than one byte, else entry 0 whatever its content.
pub open spec fn backward_from(qs: Seq<Seq<u8>>, j: int) -> Seq<u8>
    decreases j,
{
    if j <= 0 {
        qs[0]
    } else if qs[j].len() > 1 {
        qs[j]
    } else {
        backward_from(qs, j - 1)
    }
}

/// What picking entry `k` returns: the entry itself when it has real
/// content, else the backward-scan fallback over the whole sequence.
pub open spec fn pick_spec(qs: Seq<Seq<u8>>, k: int) -> Seq<u8> {
    if qs[k].len() > 1 {
        qs[k]
    } else {
        backward_from(qs, qs.len() - 1)
    }
}

/// Select entry `k` of the quotes; if it is degenerate (at most one byte),
/// walk backward from the end to the nearest entry with real content, and
/// fall back to entry 0 when none exists.
pub fn pick_entry(quotes: &Vec<Vec<u8>>, k: usize) -> (r: Vec<u8>)
    requires
        k < quotes@.len(),
    ensures
        r@ == pick_spec(views_of(quotes@), k as int),
{
    let ghost qs = views_of(quotes@);
    proof {
        assert(qs[k as int] == quotes@[k as int]@);
    }
    if quotes[k].len() > 1 {
        copy_bytes(&quotes[k])
    } else {
        let mut j: usize = quotes.len() - 1;
        while j > 0
            invariant
                j < quotes@.len(),
                k < quotes@.len(),
                qs == views_of(quotes@),
                qs[k as int].len() <= 1,
                backward_from(qs, qs.len() - 1) == backward_from(qs, j as int),
            decreases j,
        {
            if quotes[j].len() > 1 {
                proof {
                    assert(qs[j as int] == quotes@[j as int]@);
                    assert(qs[k as int] == quotes@[k as int]@);
                    assert(backward_from(qs, j as int) == qs[j as int]);
                }
                return copy_bytes(&quotes[j]);
            }
            j = j - 1;
        }
        copy_bytes(&quotes[0])
    }
}

/// Pick a quote uniformly at random from one file's raw bytes: decode,
/// split, choose a random entry, and repair a degenerate choice by the
/// backward scan.
pub fn get_rand_fortune(raw: &Vec<u8>) -> (r: Vec<u8>)
    ensures
        exists|k: int|
            0 <= k < split_spec(utf8_repair(raw@)).len() && r@ == pick_spec(
                split_spec(utf8_repair(raw@)),
                k,
            ),
{
    let content = decode_utf8(raw);
    let quotes = split_quotes(&content);
    proof {
        lemma_split_len(utf8_repair(raw@));
    }
    let k = get_rand_value(quotes.len());
    pick_entry(&quotes, k)
}

/// All quote entries of all file contents, in file order.
pub open spec fn all_entries(cs: Seq<Seq<u8>>) -> Seq<Seq<u8>>
    decreases cs.len(),
{
    if cs.len() == 0 {
        Seq::<Seq<u8>>::empty()
    } else {
        split_spec(cs[0]) + all_entries(cs.skip(1))
    }
}

/// Splitting distributes over concatenation of file sequences.
pub proof fn lemma_all_entries_concat(a: Seq<Seq<u8>>, b: Seq<Seq<u8>>)
    ensures
        all_entries(a + b) == all_entries(a) + all_entries(b),
    decreases a.len(),
{
    if a.len() == 0 {
        assert(a + b =~= b);
        assert(all_entries(a) + all_entries(b) =~~= all_entries(b));
    } else {
        lemma_all_entries_concat(a.skip(1), b);
        assert((a + b).skip(1) =~= a.skip(1) + b);
        assert((a + b)[0] == a[0]);
        assert(split_spec(a[0]) + (all_entries(a.skip(1)) + all_entries(b)) =~~= (split_spec(a[0])
            + all_entries(a.skip(1))) + all_entries(b));
    }
}

/// A non-empty corpus has at least one entry.
pub proof fn lemma_all_entries_len(cs: Seq<Seq<u8>>)
    requires
        cs.len() > 0,
    ensures
        all_entries(cs).len() >= 1,
{
    lemma_split_len(cs[0]);
}

/// Collect every file's quote entries into one sequence, in file order.
pub fn split_all(contents: &Vec<Vec<u8>>) -> (r: Vec<Vec<u8>>)
    ensures
        views_of(r@) == all_entries(views_of(contents@)),
{
    let ghost cs = views_of(contents@);
    let mut res: Vec<Vec<u8>> = Vec::new();
    let mut i: usize = 0;
    proof {
        assert(cs.take(0) =~= Seq::<Seq<u8>>::empty());
        assert(views_of(res@) =~= all_entries(cs.take(0)));
    }
    while i < contents.len()
        invariant
            i <= contents@.len(),
            cs == views_of(contents@),
            views_of(res@) == all_entries(cs.take(i as int)),
        decreases contents@.len() - i,
    {
        let ghost res0 = res@;
        let mut qs = split_quotes(&contents[i]);
        let ghost qs0 = qs@;
        res.append(&mut qs);
        i = i + 1;
        proof {
            assert(cs.take(i as int) =~= cs.take(i - 1) + seq![cs[i - 1]]);
            lemma_all_entries_concat(cs.take(i - 1), seq![cs[i - 1]]);
            assert(seq![cs[i - 1]].skip(1) =~= Seq::<Seq<u8>>::empty());
            assert(all_entries(Seq::<Seq<u8>>::empty()) =~~= Seq::<Seq<u8>>::empty());
            assert(all_entries(seq![cs[i - 1]]) =~~= split_spec(cs[i - 1]));
            assert(views_of(res@) =~~= views_of(res0) + views_of(qs0));
        }
    }
    proof {
        assert(cs.take(cs.len() as int) =~= cs);
    }
    res
}

/// The message returned when no file in the corpus has real content.
pub open spec fn no_quote_msg() -> Seq<u8> {
    seq![
        79u8, 111u8, 112u8, 115u8, 44u8, 32u8, 110u8, 111u8, 32u8, 113u8, 117u8, 111u8, 116u8,
        101u8, 46u8, 32u8, 65u8, 114u8, 101u8, 32u8, 102u8, 111u8, 114u8, 116u8, 117u8, 110u8,
        101u8, 32u8, 99u8, 111u8, 111u8, 107u8, 105u8, 101u8, 115u8, 32u8, 101u8, 109u8, 112u8,
        116u8, 121u8, 63u8,
    ]
}

fn no_quote_message() -> (r: Vec<u8>)
    ensures
        r@ == no_quote_msg(),
{
    let r: Vec<u8> = vec![
        79u8, 111u8, 112u8, 115u8, 44u8, 32u8, 110u8, 111u8, 32u8, 113u8, 117u8, 111u8, 116u8,
        101u8, 46u8, 32u8, 65u8, 114u8, 101u8, 32u8, 102u8, 111u8, 114u8, 116u8, 117u8, 110u8,
        101u8, 32u8, 99u8, 111u8, 111u8, 107u8, 105u8, 101u8, 115u8, 32u8, 101u8, 109u8, 112u8,
        116u8, 121u8, 63u8,
    ];
    proof {
        assert(r@ =~= no_quote_msg());
    }
    r
}

/// The file-level fallback when the picked corpus-wide entry is degenerate:
/// the nearest-to-the-end whole file content with more than one byte (file 0
/// is never examined by the scan); else file 0's content when it has real
/// content; else a fixed message.
pub open spec fn all_fallback(cs: Seq<Seq<u8>>) -> Seq<u8> {
    if exists|j: int| 1 <= j < cs.len() && cs[j].len() > 1 {
        backward_from(cs, cs.len() - 1)
    } else if cs[0].len() <= 1 {
        no_quote_msg()
    } else {
        cs[0]
    }
}

/// What picking corpus-wide entry `k` returns: the entry itself when it has
/// real content, else the file-level fallback.
pub open spec fn pick_all_spec(cs: Seq<Seq<u8>>, k: int) -> Seq<u8> {
    if all_entries(cs)[k].len() > 1 {
        all_entries(cs)[k]
    } else {
        all_fallback(cs)
    }
}

/// Select entry `k` of the corpus-wide entry sequence; on a degenerate
/// entry, fall back at whole-file granularity rather than entry
/// granularity.
pub fn pick_entry_from_all(contents: &Vec<Vec<u8>>, k: usize) -> (r: Vec<u8>)
    requires
        contents@.len() > 0,
        k < all_entries(views_of(contents@)).len(),
    ensures
        r@ == pick_all_spec(views_of(contents@), k as int),
{
    let ghost cs = views_of(contents@);
    let entries = split_all(contents);
    proof {
        assert(all_entries(cs)[k as int] == views_of(entries@)[k as int]);
        assert(views_of(entries@)[k as int] == entries@[k as int]@);
    }
    if entries[k].len() > 1 {
        copy_bytes(&entries[k])
    } else {
        let mut j: usize = contents.len() - 1;
        while j > 0
            invariant
                j < contents@.len(),
                k < all_entries(cs).len(),
                cs == views_of(contents@),
                all_entries(cs)[k as int].len() <= 1,
                backward_from(cs, cs.len() - 1) == backward_from(cs, j as int),
                forall|j2: int| j < j2 < cs.len() ==> cs[j2].len() <= 1,
            decreases j,
        {
            if contents[j].len() > 1 {
                proof {
                    assert(cs[j as int] == contents@[j as int]@);
                    assert(1 <= j < cs.len() && cs[j as int].len() > 1);
                    assert(backward_from(cs, j as int) == cs[j as int]);
                }
                return copy_bytes(&contents[j]);
            }
            j = j - 1;
        }
        proof {
            assert(forall|j2: int| 1 <= j2 < cs.len() ==> cs[j2].len() <= 1);
        }
        if contents[0].len() <= 1 {
            no_quote_message()
        } else {
            copy_bytes(&contents[0])
        }
    }
}

/// Pick a quote uniformly at random from the corpus-wide entry sequence of
/// all the files' raw bytes, decoded and split in file order.
pub fn get_rand_fortune_from_all(raws: &Vec<Vec<u8>>) -> (r: Vec<u8>)
    requires
        raws@.len() > 0,
    ensures
        exists|k: int|
            0 <= k < all_entries(decoded_all(views_of(raws@))).len() && r@ == pick_all_spec(
                decoded_all(views_of(raws@)),
                k,
            ),
{
    let contents = decode_all(raws);
    let entries = split_all(&contents);
    proof {
        lemma_all_entries_len(views_of(contents@));
    }
    let k = get_rand_value(entries.len());
    pick_entry_from_all(&contents, k)
}

/// Decode every file's raw bytes.
pub fn decode_all(raws: &Vec<Vec<u8>>) -> (r: Vec<Vec<u8>>)
    ensures
        views_of(r@) == decoded_all(views_of(raws@)),
{
    let ghost rs = views_of(raws@);
    let mut res: Vec<Vec<u8>> = Vec::new();
    let mut i: usize = 0;
    while i < raws.len()
        invariant
            i <= raws@.len(),
            rs == views_of(raws@),
            views_of(res@) == decoded_all(rs.take(i as int)),
        decreases raws@.len() - i,
    {
        let ghost res0 = res@;
        let content = decode_utf8(&raws[i]);
        res.push(content);
        i = i + 1;
        proof {
            assert(views_of(res0).len() == res0.len());
            assert(decoded_all(rs.take(i - 1)).len() == i - 1);
            assert(res@.len() == i);
            assert forall|t: int| 0 <= t < i implies views_of(res@)[t] == decoded_all(
                rs.take(i as int),
            )[t] by {
                assert(views_of(res@)[t] == res@[t]@);
                assert(decoded_all(rs.take(i as int))[t] == utf8_repair(rs.take(i as int)[t]));
                if t < i - 1 {
                    assert(views_of(res0)[t] == res0[t]@);
                    assert(decoded_all(rs.take(i - 1))[t] == utf8_repair(rs.take(i - 1)[t]));
                }
            }
            assert(views_of(res@) =~= decoded_all(rs.take(i as int)));
        }
    }
    proof {
        assert(rs.take(rs.len() as int) =~= rs);
    }
    res
}

/// Pick one file path uniformly at random from the listing; an empty
/// listing is an error.
pub fn get_rand_file(files: &Vec<String>) -> (r: Result<String, ()>)
    ensures
        r is Err <==> files@.len() == 0,
        r matches Ok(f) ==> exists|i: int| 0 <= i < files@.len() && f@ == files@[i]@,
{
    if files.len() == 0 {
        Err(())
    } else {
        let k = get_rand_value(files.len());
        Ok(files[k].clone())
    }
}

/// The corpus directory: a caller-supplied override, else the fixed
/// default directory name.
pub fn get_fortunes_dir(dir_override: Option<String>) -> (r: String)
    ensures
        r@ == match dir_override {
            Option::Some(s) => s@,
            Option::None => "fortunes"@,
        },
{
    match dir_override {
        Option::Some(s) => s,
        Option::None => "fortunes".to_owned(),
    }
}

proof fn lemma_backward_all_degenerate(qs: Seq<Seq<u8>>, j: int)
    requires
        j < qs.len(),
        forall|j2: int| 1 <= j2 < qs.len() ==> qs[j2].len() <= 1,
    ensures
        backward_from(qs, j) == qs[0],
    decreases j,
{
    if j <= 0 {
    } else {
        assert(qs[j].len() <= 1);
        lemma_backward_all_degenerate(qs, j - 1);
    }
}

/// When every entry after the first is degenerate and the first is not, the
/// backward scan terminates at the first entry: any pick returns it.
pub proof fn lemma_fallback_reaches_first(qs: Seq<Seq<u8>>)
    requires
        qs.len() >= 1,
        qs[0].len() > 1,
        forall|j: int| 1 <= j < qs.len() ==> qs[j].len() <= 1,
    ensures
        forall|k: int| 0 <= k < qs.len() ==> pick_spec(qs, k) == qs[0],
{
    lemma_backward_all_degenerate(qs, qs.len() - 1);
    assert forall|k: int| 0 <= k < qs.len() implies pick_spec(qs, k) == qs[0] by {
        if k >= 1 {
            assert(qs[k].len() <= 1);
        }
    }
}

} // verus!
