//! Row parsing for the text loader: the decimal number tokens of one line of
//! text, one matrix row per line. Extracting the digit runs is delegated to
//! the regex engine; turning each run into a weight is verified decimal
//! arithmetic with an explicit overflow refusal.

use vstd::prelude::*;

verus! {

/// The maximal runs of ASCII decimal digits in the text, in order of
/// appearance, each as its bytes. What this is on given characters only the
/// regex engine decides; the contracts below carry the name through.
pub uninterp spec fn digit_runs_of(s: Seq<char>) -> Seq<Seq<u8>>;

/// Every byte is an ASCII decimal digit.
pub open spec fn all_digits(s: Seq<u8>) -> bool {
    forall|k: int| 0 <= k < s.len() ==> 48 <= #[trigger] s[k] <= 57
}

/// The number the digit bytes spell in decimal.
pub open spec fn dec_val(s: Seq<u8>) -> int
    decreases s.len(),
{
    if s.len() == 0 {
        0
    } else {
        dec_val(s.drop_last()) * 10 + (s.last() - 48)
    }
}

/// Relies on regex::Regex::new and Regex::find_iter: with the pattern of one
/// or more ASCII digits, the iterator yields the successive non-overlapping —
/// hence maximal — digit runs of the line, in order; every match is a
/// non-empty run of bytes '0' through '9'.
#[verifier::external_body]
fn digit_runs(s: &str) -> (r: Vec<Vec<u8>>)
    ensures
        r@.map_values(|t: Vec<u8>| t@) == digit_runs_of(s@),
        forall|i: int|
            0 <= i < r@.len() ==> (#[trigger] r@[i]@.len() >= 1 && all_digits(r@[i]@)),
{
    let re = regex::Regex::new(r"[0-9]+").unwrap();
    re.find_iter(s).map(|m| m.as_str().as_bytes().to_vec()).collect()
}

/// A digit string's value only grows as more digits are read.
proof fn lemma_dec_val_prefix(s: Seq<u8>, i: int)
    requires
        all_digits(s),
        0 <= i <= s.len(),
    ensures
        0 <= dec_val(s.take(i)) <= dec_val(s),
    decreases s.len() - i,
{
    if i == s.len() {
        assert(s.take(i) =~= s);
        lemma_dec_val_nonneg(s);
    } else {
        lemma_dec_val_prefix(s, i + 1);
        let t = s.take(i + 1);
        assert(t.drop_last() =~= s.take(i));
        assert(dec_val(t) == dec_val(s.take(i)) * 10 + (s[i] - 48));
        lemma_dec_val_nonneg(s.take(i));
    }
}

/// A digit string spells a non-negative number.
proof fn lemma_dec_val_nonneg(s: Seq<u8>)
    requires
        all_digits(s),
    ensures
        dec_val(s) >= 0,
    decreases s.len(),
{
    if s.len() > 0 {
        assert(all_digits(s.drop_last()));
        lemma_dec_val_nonneg(s.drop_last());
    }
}

/// Reads a run of decimal digits as a weight; `None` exactly when the number
/// does not fit the weight type.
pub fn parse_digits(run: &Vec<u8>) -> (r: Option<u64>)
    requires
        all_digits(run@),
    ensures
        r is Some <==> dec_val(run@) <= u64::MAX,
        r matches Some(v) ==> v as int == dec_val(run@),
{
    let mut acc: u64 = 0;
    let mut k: usize = 0;
    while k < run.len()
        invariant
            0 <= k <= run@.len(),
            all_digits(run@),
            acc as int == dec_val(run@.take(k as int)),
        decreases run@.len() - k,
    {
        let d = run[k] - 48;
        proof {
            let t = run@.take(k + 1);
            assert(t.drop_last() =~= run@.take(k as int));
            assert(dec_val(t) == (acc as int) * 10 + (d as int));
            vstd::arithmetic::div_mod::lemma_fundamental_div_mod(
                (u64::MAX - d) as int,
                10,
            );
        }
        if acc > (u64::MAX - (d as u64)) / 10 {
            proof {
                assert(dec_val(run@.take(k + 1)) > u64::MAX);
                lemma_dec_val_prefix(run@, k + 1);
            }
            return None;
        }
        acc = acc * 10 + (d as u64);
        k = k + 1;
    }
    proof {
        assert(run@.take(run@.len() as int) =~= run@);
    }
    Some(acc)
}

/// Parses one line of the matrix text: its decimal number tokens, in order.
/// `None` exactly when some token does not fit the weight type.
pub fn parse_row(line: &str) -> (r: Option<Vec<u64>>)
    ensures
        r is Some <==> (forall|i: int|
            0 <= i < digit_runs_of(line@).len() ==> dec_val(
                #[trigger] digit_runs_of(line@)[i],
            ) <= u64::MAX),
        r matches Some(v) ==> {
            &&& v@.len() == digit_runs_of(line@).len()
            &&& forall|i: int|
                0 <= i < v@.len() ==> #[trigger] v@[i] as int == dec_val(digit_runs_of(line@)[i])
        },
{
    let runs = digit_runs(line);
    let ghost dr = digit_runs_of(line@);
    proof {
        assert(runs@.map_values(|t: Vec<u8>| t@).len() == dr.len());
        assert(forall|i: int|
            0 <= i < runs@.len() ==> #[trigger] dr[i] == runs@.map_values(|t: Vec<u8>| t@)[i]);
    }
    let mut out: Vec<u64> = Vec::new();
    let mut i: usize = 0;
    while i < runs.len()
        invariant
            0 <= i <= runs@.len(),
            dr == digit_runs_of(line@),
            dr.len() == runs@.len(),
            forall|j: int| 0 <= j < runs@.len() ==> #[trigger] runs@[j]@ == dr[j],
            forall|j: int|
                0 <= j < runs@.len() ==> (#[trigger] runs@[j]@.len() >= 1 && all_digits(runs@[j]@)),
            out@.len() == i,
            forall|j: int| 0 <= j < i ==> #[trigger] out@[j] as int == dec_val(dr[j]),
            forall|j: int| 0 <= j < i ==> dec_val(#[trigger] dr[j]) <= u64::MAX,
        decreases runs@.len() - i,
    {
        let v = match parse_digits(&runs[i]) {
            Some(v) => v,
            None => {
                assert(dec_val(dr[i as int]) > u64::MAX);
                return None;
            },
        };
        out.push(v);
        i = i + 1;
    }
    Some(out)
}

} // verus!
