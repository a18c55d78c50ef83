//! Snapshot file descriptors: extracting the capture timestamp from a
//! file name, ordering descriptors chronologically, and selecting a
//! subsequence of files to process.
//!
//! A file name encodes an integer Unix timestamp as the token after the
//! first `_` or `.` of its base name; a name from which no timestamp can
//! be read yields no descriptor and is skipped by the caller.

use vstd::prelude::*;
use vstd::multiset::Multiset;
use crate::classify::first_index_of;
use crate::classify::lemma_first_index_of;

verus! {

/// One snapshot file: its path and the capture timestamp read from the
/// file name, the sole identity used for ordering and merge correlation.
#[derive(Debug)]
pub struct FileMetadata {
    pub filepath: String,
    pub timestamp: i64,
}

#[verifier::ext_equal]
pub struct FileMetadataV {
    pub filepath: Seq<char>,
    pub timestamp: i64,
}

impl View for FileMetadata {
    type V = FileMetadataV;

    open spec fn view(&self) -> FileMetadataV {
        FileMetadataV { filepath: self.filepath@, timestamp: self.timestamp }
    }
}

/// Index right after the last `/`, or `0` for a name without one.
pub open spec fn basename_start(s: Seq<char>) -> int
    decreases s.len(),
{
    if s.len() == 0 {
        0
    } else if s.last() == '/' {
        s.len() as int
    } else {
        basename_start(s.drop_last())
    }
}

pub proof fn lemma_basename_start(s: Seq<char>)
    ensures
        0 <= basename_start(s) <= s.len(),
        forall|j: int| basename_start(s) <= j < s.len() ==> s[j] != '/',
    decreases s.len(),
{
    if s.len() > 0 && s.last() != '/' {
        lemma_basename_start(s.drop_last());
        assert forall|j: int| basename_start(s) <= j < s.len() implies s[j] != '/' by {
            if j < s.len() - 1 {
                assert(s.drop_last()[j] == s[j]);
            }
        }
    }
}

/// A token separator of the file-name convention.
pub open spec fn is_delim(c: char) -> bool {
    c == '_' || c == '.'
}

/// Index of the first `_` or `.`, or the length when there is none.
pub open spec fn first_delim(s: Seq<char>) -> int {
    if first_index_of(s, '_') <= first_index_of(s, '.') {
        first_index_of(s, '_')
    } else {
        first_index_of(s, '.')
    }
}

pub proof fn lemma_first_delim(s: Seq<char>)
    ensures
        0 <= first_delim(s) <= s.len(),
        first_delim(s) < s.len() ==> is_delim(s[first_delim(s)]),
        forall|j: int| 0 <= j < first_delim(s) ==> !is_delim(#[trigger] s[j]),
{
    lemma_first_index_of(s, '_');
    lemma_first_index_of(s, '.');
}

/// The second `_`/`.`-delimited token of the base name, or `None` for a
/// base name with no separator at all.
pub open spec fn second_token(s: Seq<char>) -> Option<Seq<char>> {
    let b = s.skip(basename_start(s));
    let i = first_delim(b);
    if i == b.len() {
        None
    } else {
        let rest = b.skip(i + 1);
        Some(rest.take(first_delim(rest)))
    }
}

/// A decimal digit.
pub open spec fn is_digit(c: char) -> bool {
    48 <= c as int <= 57
}

pub open spec fn all_digits(s: Seq<char>) -> bool {
    s.len() > 0 && forall|i: int| 0 <= i < s.len() ==> is_digit(#[trigger] s[i])
}

/// Value of a digit string, most significant digit first.
pub open spec fn digits_val(s: Seq<char>) -> int
    decreases s.len(),
{
    if s.len() == 0 {
        0
    } else {
        digits_val(s.drop_last()) * 10 + (s.last() as int - 48)
    }
}

/// The signed 64-bit integer a token denotes: an optional sign followed
/// by digits, rejected when empty, malformed or out of range.
pub open spec fn spec_parse_i64(s: Seq<char>) -> Option<i64> {
    if s.len() == 0 {
        None
    } else if s[0] == '-' {
        let t = s.drop_first();
        if all_digits(t) && digits_val(t) <= 0x8000000000000000 {
            Some((-digits_val(t)) as i64)
        } else {
            None
        }
    } else if s[0] == '+' {
        let t = s.drop_first();
        if all_digits(t) && digits_val(t) <= 0x7fffffffffffffff {
            Some(digits_val(t) as i64)
        } else {
            None
        }
    } else {
        if all_digits(s) && digits_val(s) <= 0x7fffffffffffffff {
            Some(digits_val(s) as i64)
        } else {
            None
        }
    }
}

/// The timestamp a file path encodes, when it encodes one.
pub open spec fn spec_file_timestamp(path: Seq<char>) -> Option<i64> {
    match second_token(path) {
        None => None,
        Some(tok) => spec_parse_i64(tok),
    }
}

proof fn lemma_digits_val_nonneg(s: Seq<char>)
    requires
        forall|i: int| 0 <= i < s.len() ==> is_digit(#[trigger] s[i]),
    ensures
        digits_val(s) >= 0,
    decreases s.len(),
{
    if s.len() > 0 {
        assert(forall|i: int| 0 <= i < s.len() - 1 ==> is_digit(#[trigger] s.drop_last()[i]));
        lemma_digits_val_nonneg(s.drop_last());
    }
}

proof fn lemma_digits_val_prefix_le(s: Seq<char>, i: int)
    requires
        0 <= i <= s.len(),
        forall|j: int| 0 <= j < s.len() ==> is_digit(#[trigger] s[j]),
    ensures
        digits_val(s.take(i)) <= digits_val(s),
    decreases s.len(),
{
    if i == s.len() {
        assert(s.take(i) =~= s);
    } else {
        assert(s.take(i) =~= s.drop_last().take(i));
        assert(forall|j: int| 0 <= j < s.len() - 1 ==> is_digit(#[trigger] s.drop_last()[j]));
        lemma_digits_val_prefix_le(s.drop_last(), i);
        lemma_digits_val_nonneg(s.drop_last());
    }
}

/// Index of the first `_` or `.` at or after `i`, as the index of the
/// first separator of the whole string.
fn first_delim_from(s: &str, i: usize) -> (r: usize)
    requires
        i <= s@.len(),
        forall|j: int| 0 <= j < i ==> !is_delim(#[trigger] s@[j]),
    ensures
        r as int == first_delim(s@),
    decreases s@.len() - i,
{
    proof {
        lemma_first_delim(s@);
    }
    let len = s.unicode_len();
    if i == len {
        proof {
            let fi = first_delim(s@);
            if fi < s@.len() {
                assert(is_delim(s@[fi]));
                assert(!is_delim(s@[fi]));
            }
        }
        len
    } else {
        let c = s.get_char(i);
        if c == '_' || c == '.' {
            proof {
                let fi = first_delim(s@);
                if fi < i as int {
                    assert(!is_delim(s@[fi]));
                    assert(is_delim(s@[fi]));
                }
                if fi > i as int {
                    assert(!is_delim(s@[i as int]));
                }
            }
            i
        } else {
            first_delim_from(s, i + 1)
        }
    }
}

/// Index right after the last `/`, scanning from the end.
fn basename_start_exec(s: &str) -> (r: usize)
    ensures
        r as int == basename_start(s@),
{
    let len = s.unicode_len();
    let mut i: usize = len;
    proof {
        assert(s@.take(len as int) =~= s@);
    }
    while i > 0
        invariant
            0 <= i <= len,
            len == s@.len(),
            basename_start(s@) == basename_start(s@.take(i as int)),
            forall|j: int| i <= j < len ==> s@[j] != '/',
        decreases i,
    {
        proof {
            assert(s@.take(i as int).last() == s@[i - 1]);
            assert(s@.take(i as int).drop_last() =~= s@.take(i - 1));
        }
        if s.get_char(i - 1) == '/' {
            proof {
                assert(basename_start(s@.take(i as int)) == i as int);
            }
            return i;
        }
        i -= 1;
    }
    proof {
        assert(s@.take(0) =~= Seq::<char>::empty());
    }
    0
}

/// Parses a signed decimal 64-bit integer from a token.
pub fn parse_i64(s: &str) -> (r: Option<i64>)
    ensures
        r == spec_parse_i64(s@),
{
    let len = s.unicode_len();
    if len == 0 {
        return None;
    }
    let c0 = s.get_char(0);
    let neg = c0 == '-';
    let plus = c0 == '+';
    let start: usize = if neg || plus {
        1
    } else {
        0
    };
    let ghost t = if start == 1 {
        s@.drop_first()
    } else {
        s@
    };
    proof {
        assert(t =~= s@.subrange(start as int, len as int));
    }
    if start == len {
        // a bare sign has no digits
        proof {
            assert(neg || plus);
            assert(t.len() == 0);
            assert(!all_digits(t));
        }
        return None;
    }
    let limit: u64 = if neg {
        0x8000000000000000
    } else {
        0x7fffffffffffffff
    };
    let mut acc: u64 = 0;
    let mut i: usize = start;
    while i < len
        invariant
            start <= i <= len,
            len == s@.len(),
            start == 0 || start == 1,
            start < len,
            t == s@.subrange(start as int, len as int),
            forall|j: int| start <= j < i ==> is_digit(#[trigger] s@[j]),
            acc as int == digits_val(s@.subrange(start as int, i as int)),
            acc <= limit,
            limit == if neg {
                0x8000000000000000u64
            } else {
                0x7fffffffffffffffu64
            },
            neg == (s@[0] == '-'),
            plus == (s@[0] == '+'),
            start == if neg || plus {
                1int
            } else {
                0int
            },
        decreases len - i,
    {
        let c = s.get_char(i);
        let d = c as u32;
        if d < 48 || d > 57 {
            proof {
                assert(!is_digit(s@[i as int]));
                assert(0 <= i - start < t.len());
                assert(t[i - start] == s@[i as int]);
                assert(!all_digits(t));
            }
            return None;
        }
        proof {
            assert(s@.subrange(start as int, i + 1).drop_last() =~= s@.subrange(
                start as int,
                i as int,
            ));
            assert(s@.subrange(start as int, i + 1).last() == s@[i as int]);
        }
        let dv = (d - 48) as u64;
        if acc > (limit - dv) / 10 {
            proof {
                // the value through this digit already exceeds the limit,
                // so the full token's value does too
                let partial = digits_val(s@.subrange(start as int, i + 1));
                assert(partial == acc * 10 + dv);
                assert(acc * 10 + dv > limit) by {
                    let x = (limit - dv) as int;
                    vstd::arithmetic::div_mod::lemma_fundamental_div_mod(x, 10);
                    vstd::arithmetic::div_mod::lemma_mod_division_less_than_divisor(x, 10);
                    assert(acc >= x / 10 + 1);
                    assert(acc * 10 >= (x / 10 + 1) * 10) by (nonlinear_arith)
                        requires acc >= x / 10 + 1,
                    ;
                    assert((x / 10 + 1) * 10 == (x / 10) * 10 + 10);
                    assert((x / 10) * 10 + 10 > x);
                }
                assert(forall|j: int| 0 <= j < t.len() ==> t[j] == s@[start + j]);
                if all_digits(t) {
                    assert(t.take(i + 1 - start) =~= s@.subrange(start as int, i + 1));
                    lemma_digits_val_prefix_le(t, i + 1 - start);
                    assert(digits_val(t) > limit);
                }
                assert(s@.drop_first() =~= s@.subrange(1, s@.len() as int));
                if neg || plus {
                    assert(t == s@.drop_first());
                } else {
                    assert(t =~= s@);
                }
                assert(spec_parse_i64(s@) is None);
            }
            return None;
        }
        acc = acc * 10 + dv;
        i += 1;
    }
    proof {
        assert(t =~= s@.subrange(start as int, len as int));
        assert(forall|j: int| 0 <= j < t.len() ==> t[j] == s@[start + j]);
        assert(all_digits(t));
        assert(acc as int == digits_val(t));
    }
    if neg {
        if acc >= 0x8000000000000000 {
            proof {
                assert(acc == 0x8000000000000000);
            }
            Some(i64::MIN)
        } else {
            Some(-(acc as i64))
        }
    } else {
        Some(acc as i64)
    }
}

impl FileMetadata {
    /// Reads the capture timestamp out of a path: the token after the
    /// first `_` or `.` of the base name, parsed as a signed decimal.
    /// A path carrying no such token yields no descriptor.
    pub fn path_to_file_metadata(path: &str) -> (r: Option<FileMetadata>)
        ensures
            r is Some <==> spec_file_timestamp(path@) is Some,
            r matches Some(fm) ==> fm.filepath@ == path@ && Some(fm.timestamp)
                == spec_file_timestamp(path@),
    {
        let len = path.unicode_len();
        let bstart = basename_start_exec(path);
        proof {
            lemma_basename_start(path@);
        }
        let base = path.substring_char(bstart, len);
        proof {
            assert(base@ =~= path@.skip(basename_start(path@)));
        }
        let blen = base.unicode_len();
        let i1 = first_delim_from(base, 0);
        proof {
            lemma_first_delim(base@);
        }
        if i1 == blen {
            proof {
                assert(second_token(path@) is None);
            }
            return None;
        }
        let rest = base.substring_char(i1 + 1, blen);
        proof {
            assert(rest@ =~= base@.skip(i1 + 1));
        }
        let i2 = first_delim_from(rest, 0);
        proof {
            lemma_first_delim(rest@);
        }
        let tok = rest.substring_char(0, i2);
        proof {
            assert(tok@ =~= rest@.take(first_delim(rest@)));
            assert(second_token(path@) == Some(tok@));
        }
        match parse_i64(tok) {
            None => None,
            Some(ts) => Some(FileMetadata { filepath: path.to_owned(), timestamp: ts }),
        }
    }
}

/// Nondecreasing by timestamp.
pub open spec fn files_sorted(s: Seq<FileMetadataV>) -> bool {
    forall|i: int, j: int| 0 <= i <= j < s.len() ==> s[i].timestamp <= s[j].timestamp
}

/// Sorts file descriptors by timestamp; the output is a permutation of
/// the input.
pub fn sort_files(files: Vec<FileMetadata>) -> (r: Vec<FileMetadata>)
    ensures
        files_sorted(r@.map_values(|x: FileMetadata| x@)),
        r@.map_values(|x: FileMetadata| x@).to_multiset() == files@.map_values(
            |x: FileMetadata| x@,
        ).to_multiset(),
{
    broadcast use vstd::seq_lib::group_to_multiset_ensures;

    let ghost orig = files@.map_values(|x: FileMetadata| x@);
    let mut rest = files;
    let mut out: Vec<FileMetadata> = Vec::new();
    while rest.len() > 0
        invariant
            out@.map_values(|x: FileMetadata| x@).to_multiset().add(
                rest@.map_values(|x: FileMetadata| x@).to_multiset(),
            ) =~= orig.to_multiset(),
            files_sorted(out@.map_values(|x: FileMetadata| x@)),
            forall|a: int, b: int|
                0 <= a < out@.len() && 0 <= b < rest@.len() ==> (#[trigger] out@[a])@.timestamp
                    <= (#[trigger] rest@[b])@.timestamp,
        decreases rest.len(),
    {
        let ghost rv = rest@.map_values(|x: FileMetadata| x@);
        let ghost ov = out@.map_values(|x: FileMetadata| x@);
        let n = rest.len();
        let mut mi: usize = 0;
        let mut k: usize = 1;
        while k < n
            invariant
                0 <= mi < k <= n,
                n == rest.len(),
                rv == rest@.map_values(|x: FileMetadata| x@),
                forall|j: int| 0 <= j < k ==> rv[mi as int].timestamp <= rv[j].timestamp,
            decreases n - k,
        {
            if rest[k].timestamp < rest[mi].timestamp {
                mi = k;
            }
            k += 1;
        }
        let x = rest.remove(mi);
        out.push(x);
        proof {
            rv.to_multiset_ensures();
            ov.to_multiset_ensures();
            assert(rv[mi as int] == x@);
            assert(rv.contains(x@));
            assert(rest@.map_values(|x: FileMetadata| x@) =~= rv.remove(mi as int));
            assert(out@.map_values(|x: FileMetadata| x@) =~= ov.push(x@));
            vstd::seq_lib::to_multiset_remove(rv, mi as int);
            vstd::seq_lib::to_multiset_build(ov, x@);
            assert(rv.to_multiset().count(x@) > 0);
            assert(ov.to_multiset().insert(x@).add(rv.to_multiset().remove(x@)) =~= ov.to_multiset()
                .add(rv.to_multiset()));
            assert forall|a: int, b: int|
                0 <= a < out@.len() && 0 <= b < rest@.len() implies (#[trigger] out@[a])@.timestamp
                <= (#[trigger] rest@[b])@.timestamp by {
                assert(out@[a]@ == ov.push(x@)[a]);
                assert(rest@[b]@ == rv.remove(mi as int)[b]);
                let rr = rv.remove(mi as int);
                assert(rr[b] == if b < mi as int {
                    rv[b]
                } else {
                    rv[b + 1]
                });
                if a < ov.len() {
                    assert(ov[a] == out@[a]@);
                } else {
                    assert(ov.push(x@)[a] == x@);
                }
            }
        }
    }
    proof {
        assert(rest@.map_values(|x: FileMetadata| x@).to_multiset() =~= Multiset::empty());
        assert(out@.map_values(|x: FileMetadata| x@).to_multiset().add(
            Multiset::<FileMetadataV>::empty(),
        ) =~= out@.map_values(|x: FileMetadata| x@).to_multiset());
    }
    out
}

/// Why a requested time window could not be applied.
#[derive(Debug, PartialEq, Eq, Clone, Copy)]
pub enum WindowError {
    StartNotFound,
    StopNotFound,
    InvalidWindow,
}

/// Index of the first descriptor with the exact timestamp, or `-1`.
pub open spec fn first_ts_pos(fs: Seq<FileMetadataV>, t: i64) -> int
    decreases fs.len(),
{
    if fs.len() == 0 {
        -1
    } else if fs[0].timestamp == t {
        0
    } else {
        let r = first_ts_pos(fs.drop_first(), t);
        if r == -1 {
            -1
        } else {
            1 + r
        }
    }
}

pub proof fn lemma_first_ts_pos(fs: Seq<FileMetadataV>, t: i64)
    ensures
        first_ts_pos(fs, t) == -1 <==> (forall|j: int| 0 <= j < fs.len()
            ==> (#[trigger] fs[j]).timestamp != t),
        first_ts_pos(fs, t) != -1 ==> 0 <= first_ts_pos(fs, t) < fs.len()
            && fs[first_ts_pos(fs, t)].timestamp == t
            && (forall|j: int| 0 <= j < first_ts_pos(fs, t) ==> (#[trigger] fs[j]).timestamp != t),
    decreases fs.len(),
{
    if fs.len() == 0 {
    } else if fs[0].timestamp == t {
    } else {
        lemma_first_ts_pos(fs.drop_first(), t);
        let r = first_ts_pos(fs.drop_first(), t);
        if r == -1 {
            assert forall|j: int| 0 <= j < fs.len() implies (#[trigger] fs[j]).timestamp != t by {
                if j > 0 {
                    assert(fs.drop_first()[j - 1].timestamp != t);
                }
            }
        } else {
            assert(fs.drop_first()[r].timestamp == t);
            assert forall|j: int| 0 <= j < first_ts_pos(fs, t) implies (#[trigger] fs[j]).timestamp
                != t by {
                if j > 0 {
                    assert(fs.drop_first()[j - 1].timestamp != t);
                }
            }
        }
    }
}

/// Finds the index of the first descriptor carrying timestamp `t`.
fn find_ts_index(files: &Vec<FileMetadata>, t: i64) -> (r: Option<usize>)
    ensures
        r is None <==> first_ts_pos(files@.map_values(|x: FileMetadata| x@), t) == -1,
        r matches Some(i) ==> i as int == first_ts_pos(files@.map_values(|x: FileMetadata| x@), t),
{
    let ghost fv = files@.map_values(|x: FileMetadata| x@);
    let n = files.len();
    let mut i: usize = 0;
    while i < n
        invariant
            0 <= i <= n,
            n == files.len(),
            fv == files@.map_values(|x: FileMetadata| x@),
            forall|j: int| 0 <= j < i ==> (#[trigger] fv[j]).timestamp != t,
        decreases n - i,
    {
        if files[i].timestamp == t {
            proof {
                lemma_first_ts_pos(fv, t);
                let f = first_ts_pos(fv, t);
                assert(fv[i as int].timestamp == t);
                if f == -1 {
                    assert(false);
                } else if f < i as int {
                    assert(fv[f].timestamp != t);
                } else if f > i as int {
                    assert(fv[i as int].timestamp != t);
                }
            }
            return Some(i);
        }
        i += 1;
    }
    proof {
        lemma_first_ts_pos(fv, t);
        let f = first_ts_pos(fv, t);
        if f != -1 {
            assert(fv[f].timestamp != t);
        }
    }
    None
}

/// The effective end of the window: the requested stop, or the last
/// file's timestamp when none was requested.
pub open spec fn effective_stop(fs: Seq<FileMetadataV>, stop: Option<i64>) -> i64 {
    match stop {
        Some(t) => t,
        None => fs.last().timestamp,
    }
}

/// Cuts the sorted file list to the window from the file carrying
/// exactly `start_timestamp` through the file carrying exactly the
/// effective stop, both inclusive, as an index pair.  A timestamp absent
/// from the list, or an empty window, is an error reported before any
/// parsing work starts.
pub fn cut_start_stop_timestamp(
    files: &Vec<FileMetadata>,
    start_timestamp: i64,
    stop_timestamp: Option<i64>,
) -> (r: Result<(usize, usize), WindowError>)
    requires
        files@.len() > 0,
    ensures
        ({
            let fv = files@.map_values(|x: FileMetadata| x@);
            let si = first_ts_pos(fv, start_timestamp);
            let final_ts = effective_stop(fv, stop_timestamp);
            let ei = first_ts_pos(fv, final_ts);
            &&& r == Err::<(usize, usize), WindowError>(WindowError::StartNotFound) <==> si == -1
            &&& si != -1 && start_timestamp >= final_ts ==> r == Err::<
                (usize, usize),
                WindowError,
            >(WindowError::InvalidWindow)
            &&& si != -1 && start_timestamp < final_ts && ei == -1 ==> r == Err::<
                (usize, usize),
                WindowError,
            >(WindowError::StopNotFound)
            &&& si != -1 && start_timestamp < final_ts && ei != -1 ==> r == Ok::<
                (usize, usize),
                WindowError,
            >((si as usize, ei as usize))
        }),
{
    let ghost fv = files@.map_values(|x: FileMetadata| x@);
    let start_idx = match find_ts_index(files, start_timestamp) {
        Some(i) => i,
        None => {
            return Err(WindowError::StartNotFound);
        },
    };
    let final_timestamp = match stop_timestamp {
        Some(t) => t,
        None => files[files.len() - 1].timestamp,
    };
    proof {
        assert(fv.last() == files@[files@.len() - 1]@);
    }
    if start_timestamp >= final_timestamp {
        return Err(WindowError::InvalidWindow);
    }
    let stop_idx = match find_ts_index(files, final_timestamp) {
        Some(i) => i,
        None => {
            return Err(WindowError::StopNotFound);
        },
    };
    Ok((start_idx, stop_idx))
}

/// The unit in which elapsed time between selected files is measured.
#[derive(Debug, Clone, Copy, PartialEq, Eq)]
pub enum StepUnit {
    All,
    Hour,
    Day,
}

/// Elapsed whole units of a nonnegative span of seconds; the `All` unit
/// collapses every span to zero, so that every file qualifies.
pub open spec fn step_units(u: StepUnit, secs: int) -> int {
    match u {
        StepUnit::All => 0,
        StepUnit::Hour => secs / 3600,
        StepUnit::Day => secs / 86400,
    }
}

/// The indices the step selection picks from position `i` on, given the
/// timestamp of the last selected file.
pub open spec fn step_select_rec(
    ts: Seq<i64>,
    step: int,
    u: StepUnit,
    i: int,
    last: i64,
) -> Seq<usize>
    decreases ts.len() - i,
{
    if i < 0 || i >= ts.len() {
        Seq::empty()
    } else if step_units(u, ts[i] - last) >= step {
        seq![i as usize] + step_select_rec(ts, step, u, i + 1, ts[i])
    } else {
        step_select_rec(ts, step, u, i + 1, last)
    }
}

/// The selection over the whole list: the first file, then every file at
/// least `step` units after the last selected one.
pub open spec fn spec_step_selection(ts: Seq<i64>, step: int, u: StepUnit) -> Seq<usize> {
    seq![0usize] + step_select_rec(ts, step, u, 0, ts[0])
}

/// Selects file indices a time step apart: the first file always, then
/// each file whose elapsed time since the last selected one reaches
/// `step` units.
pub fn get_by_unit_step(files: &Vec<FileMetadata>, step: i64, unit: StepUnit) -> (r: Vec<usize>)
    requires
        files@.len() > 0,
        forall|q: int| 0 <= q < files@.len() ==> 0 <= (#[trigger] files@[q])@.timestamp,
        forall|a: int, b: int| 0 <= a <= b < files@.len() ==> (#[trigger] files@[a])@.timestamp
            <= (#[trigger] files@[b])@.timestamp,
    ensures
        r@ == spec_step_selection(
            files@.map_values(|x: FileMetadata| x@.timestamp),
            step as int,
            unit,
        ),
{
    let ghost ts = files@.map_values(|x: FileMetadata| x@.timestamp);
    let mut out: Vec<usize> = Vec::new();
    out.push(0);
    let mut last: i64 = files[0].timestamp;
    proof {
        assert(ts[0] == files@[0]@.timestamp);
    }
    let n = files.len();
    let mut i: usize = 0;
    while i < n
        invariant
            0 <= i <= n,
            n == files.len(),
            ts == files@.map_values(|x: FileMetadata| x@.timestamp),
            forall|q: int| 0 <= q < ts.len() ==> 0 <= #[trigger] ts[q],
            forall|a: int, b: int| 0 <= a <= b < ts.len() ==> #[trigger] ts[a] <= #[trigger] ts[b],
            exists|q: int| 0 <= q < ts.len() && last == ts[q] && (i > 0 ==> q < i),
            i == 0 ==> last == ts[0],
            seq![0usize] + step_select_rec(ts, step as int, unit, 0, ts[0]) == out@
                + step_select_rec(ts, step as int, unit, i as int, last),
        decreases n - i,
    {
        let f = &files[i];
        proof {
            assert(ts[i as int] == f@.timestamp);
        }
        let diff = f.timestamp - last;
        proof {
            if i == 0 {
            } else {
                let q = choose|q: int| 0 <= q < ts.len() && last == ts[q] && q < i;
                assert(ts[q] <= ts[i as int]);
            }
        }
        let units: i64 = match unit {
            StepUnit::All => 0,
            StepUnit::Hour => (((diff as u64) / 3600) as i64),
            StepUnit::Day => (((diff as u64) / 86400) as i64),
        };
        proof {
            assert(units as int == step_units(unit, ts[i as int] - last));
        }
        if units >= step {
            out.push(i);
            last = f.timestamp;
            proof {
                assert(out@ =~= (out@.drop_last()).push(i as usize));
                assert((out@.drop_last()) + (seq![i as usize] + step_select_rec(
                    ts,
                    step as int,
                    unit,
                    i + 1,
                    ts[i as int],
                )) =~= out@ + step_select_rec(ts, step as int, unit, i + 1, ts[i as int]));
            }
        }
        i += 1;
    }
    out
}

/// Every `step`-th index of the file list, starting at the first.
pub fn get_by_files_step(files: &Vec<FileMetadata>, step: i64) -> (r: Vec<usize>)
    requires
        1 <= step <= 0x7fffffff,
    ensures
        forall|q: int| 0 <= q < r@.len() ==> (#[trigger] r@[q]) as int == q * step,
        forall|q: int| 0 <= q < r@.len() ==> (#[trigger] r@[q]) < files@.len(),
        files@.len() <= r@.len() * step,
{
    let mut out: Vec<usize> = Vec::new();
    let n = files.len();
    let step_u = step as usize;
    let mut i: usize = 0;
    proof {
        assert(0int * step == 0) by (nonlinear_arith);
    }
    while i < n
        invariant
            step_u == step,
            1 <= step_u,
            n == files.len(),
            i as int == out@.len() * step,
            forall|q: int| 0 <= q < out@.len() ==> (#[trigger] out@[q]) as int == q * step,
            forall|q: int| 0 <= q < out@.len() ==> (#[trigger] out@[q]) < n,
        decreases n - i,
    {
        let ghost olen = out@.len() as int;
        out.push(i);
        proof {
            assert(out@[olen] == i as usize);
            assert((olen + 1) * step == olen * step + step) by (nonlinear_arith);
        }
        if n - i <= step_u {
            proof {
                assert(n <= out@.len() * step);
            }
            return out;
        }
        i += step_u;
    }
    out
}

/// The referenced elements of `vec`, in index order.
pub fn get_vec_values_from_idxs<'a, T>(vec: &'a Vec<T>, idxs: &Vec<usize>) -> (r: Vec<&'a T>)
    requires
        forall|q: int| 0 <= q < idxs@.len() ==> (#[trigger] idxs@[q]) < vec@.len(),
    ensures
        r@.len() == idxs@.len(),
        forall|q: int| 0 <= q < r@.len() ==> (#[trigger] r@[q]) == vec@[idxs@[q] as int],
{
    let mut out: Vec<&'a T> = Vec::new();
    let n = idxs.len();
    let mut i: usize = 0;
    while i < n
        invariant
            0 <= i <= n,
            n == idxs.len(),
            forall|q: int| 0 <= q < idxs@.len() ==> (#[trigger] idxs@[q]) < vec@.len(),
            out@.len() == i,
            forall|q: int| 0 <= q < i ==> (#[trigger] out@[q]) == vec@[idxs@[q] as int],
        decreases n - i,
    {
        let idx = idxs[i];
        out.push(&vec[idx]);
        i += 1;
    }
    out
}

/// The descriptors whose timestamp lies in `[lo, hi]`, in order.
pub open spec fn files_in_range(fs: Seq<FileMetadataV>, lo: i64, hi: i64) -> Seq<FileMetadataV>
    decreases fs.len(),
{
    if fs.len() == 0 {
        Seq::empty()
    } else {
        files_in_range(fs.drop_last(), lo, hi)
            + if lo <= fs.last().timestamp <= hi {
                seq![fs.last()]
            } else {
                Seq::empty()
            }
    }
}

/// Keeps the files captured inside the inclusive timestamp window.
pub fn filter_files_by_timestamp(files: &Vec<FileMetadata>, lo: i64, hi: i64) -> (r: Vec<
    FileMetadata,
>)
    ensures
        r@.map_values(|x: FileMetadata| x@) == files_in_range(
            files@.map_values(|x: FileMetadata| x@),
            lo,
            hi,
        ),
{
    let ghost fv = files@.map_values(|x: FileMetadata| x@);
    let mut out: Vec<FileMetadata> = Vec::new();
    let n = files.len();
    let mut i: usize = 0;
    while i < n
        invariant
            0 <= i <= n,
            n == files.len(),
            fv == files@.map_values(|x: FileMetadata| x@),
            out@.map_values(|x: FileMetadata| x@) == files_in_range(fv.take(i as int), lo, hi),
        decreases n - i,
    {
        let f = &files[i];
        proof {
            assert(fv.take(i + 1).drop_last() =~= fv.take(i as int));
            assert(fv.take(i + 1).last() == fv[i as int]);
            assert(fv[i as int] == f@);
        }
        let ghost pre = out@;
        if lo <= f.timestamp && f.timestamp <= hi {
            out.push(FileMetadata { filepath: f.filepath.clone(), timestamp: f.timestamp });
            proof {
                assert(out@.map_values(|x: FileMetadata| x@) =~~= pre.map_values(
                    |x: FileMetadata| x@,
                ) + seq![f@]);
            }
        } else {
            proof {
                assert(files_in_range(fv.take(i as int), lo, hi) + Seq::<FileMetadataV>::empty()
                    =~= files_in_range(fv.take(i as int), lo, hi));
            }
        }
        i += 1;
    }
    proof {
        assert(fv.take(n as int) =~= fv);
    }
    out
}

} // verus!
