use vstd::prelude::*;
use crate::process::ProcessOutcome;
use crate::text::{
    lemma_lines_of_joined_texts, NEWLINE,
    copy_range, has_prefix, lines, parse_i32, parse_i32_bytes, second_word, split_lines,
    starts_with, views, words,
};

verus! {

/// The text `"Hash "` that opens a line naming a hash in the index output.
pub open spec fn hash_marker() -> Seq<u8> {
    seq![72u8, 97u8, 115u8, 104u8, 32u8]
}

/// The text `"diff -x"` that opens a line of the diff output naming the
/// compared files.
pub open spec fn diff_marker() -> Seq<u8> {
    seq![100u8, 105u8, 102u8, 102u8, 32u8, 45u8, 120u8]
}

/// Where the hash on a hash line ends: the hash takes the bytes from 5 up to 37.
pub const HASH_END: usize = 37;

pub open spec fn is_hash_line(l: Seq<u8>) -> bool {
    starts_with(l, hash_marker())
}

/// The hash that a hash line names.
pub open spec fn hash_of(l: Seq<u8>) -> Seq<u8> {
    l.subrange(5, HASH_END as int)
}

/// The hash in effect at line `j`: that of the last hash line before it,
/// or the empty text when there is none.
pub open spec fn key_before(ls: Seq<Seq<u8>>, j: int) -> Seq<u8>
    decreases j,
{
    if j <= 0 {
        seq![]
    } else if is_hash_line(ls[j - 1]) {
        hash_of(ls[j - 1])
    } else {
        key_before(ls, j - 1)
    }
}

/// The lines among the first `n` that are filed under the hash `k`: those
/// that are no hash line and stand under `k`, in their order.
pub open spec fn entries(ls: Seq<Seq<u8>>, n: int, k: Seq<u8>) -> Seq<Seq<u8>>
    decreases n,
{
    if n <= 0 {
        seq![]
    } else if !is_hash_line(ls[n - 1]) && key_before(ls, n - 1) == k {
        entries(ls, n - 1, k).push(ls[n - 1])
    } else {
        entries(ls, n - 1, k)
    }
}

/// Each of the first `n` lines that is a hash line is long enough to hold a hash.
pub open spec fn hashes_complete(ls: Seq<Seq<u8>>, n: int) -> bool {
    forall|j: int| 0 <= j < n && is_hash_line(#[trigger] ls[j]) ==> ls[j].len() >= HASH_END
}

/// An index as plain values: each hash with the lines filed under it.
pub open spec fn index_view(ix: Seq<(Vec<u8>, Vec<Vec<u8>>)>) -> Seq<(Seq<u8>, Seq<Seq<u8>>)> {
    ix.map_values(|e: (Vec<u8>, Vec<Vec<u8>>)| (e.0@, views(e.1@)))
}

/// `iv` files the first `n` lines of `ls` by hash: no hash stands twice,
/// each hash holds exactly the lines filed under it, and each hash under
/// which some line is filed stands in it.
pub open spec fn indexes(iv: Seq<(Seq<u8>, Seq<Seq<u8>>)>, ls: Seq<Seq<u8>>, n: int) -> bool {
    &&& forall|a: int, b: int| 0 <= a < b < iv.len() ==> #[trigger] iv[a].0 != #[trigger] iv[b].0
    &&& forall|a: int| 0 <= a < iv.len() ==> #[trigger] iv[a].1 == entries(ls, n, iv[a].0)
    &&& forall|a: int| 0 <= a < iv.len() ==> (#[trigger] iv[a].1).len() > 0
    &&& forall|k: Seq<u8>|
        #![trigger entries(ls, n, k)]
        entries(ls, n, k).len() > 0 ==> exists|a: int| 0 <= a < iv.len() && iv[a].0 == k
}

fn bytes_equal(a: &[u8], b: &[u8]) -> (r: bool)
    ensures
        r == (a@ == b@),
{
    if a.len() != b.len() {
        return false;
    }
    let mut k: usize = 0;
    while k < a.len()
        invariant
            k <= a@.len() == b@.len(),
            forall|j: int| 0 <= j < k ==> a@[j] == b@[j],
        decreases a@.len() - k,
    {
        if a[k] != b[k] {
            return false;
        }
        k = k + 1;
    }
    assert(a@ =~= b@);
    true
}

/// Finds the place of the hash `k` in `ix`.
fn find_key(ix: &Vec<(Vec<u8>, Vec<Vec<u8>>)>, k: &[u8]) -> (r: Option<usize>)
    ensures
        r matches Some(a) ==> a < ix@.len() && ix@[a as int].0@ == k@,
        r is None ==> forall|b: int| 0 <= b < ix@.len() ==> ix@[b].0@ != k@,
{
    let mut a: usize = 0;
    while a < ix.len()
        invariant
            a <= ix@.len(),
            forall|b: int| 0 <= b < a ==> ix@[b].0@ != k@,
        decreases ix@.len() - a,
    {
        if bytes_equal(ix[a].0.as_slice(), k) {
            return Some(a);
        }
        a = a + 1;
    }
    None
}

proof fn lemma_entries_other_line(ls: Seq<Seq<u8>>, n: int, k: Seq<u8>)
    requires
        0 <= n < ls.len(),
        is_hash_line(ls[n]) || key_before(ls, n) != k,
    ensures
        entries(ls, n + 1, k) == entries(ls, n, k),
{
}

/// `r` is what the index output `stdout` files: `None` where a hash line is
/// too short to hold a hash, else each hash with the lines filed under it.
pub open spec fn index_of(stdout: Seq<u8>, r: Option<Vec<(Vec<u8>, Vec<Vec<u8>>)>>) -> bool {
    &&& r is None <==> !hashes_complete(lines(stdout), lines(stdout).len() as int)
    &&& r matches Some(ix) ==> indexes(index_view(ix@), lines(stdout), lines(stdout).len() as int)
}

/// Files the lines of the index output `stdout` by the hash lines that
/// stand above them. It gives `None` where a hash line is too short to
/// hold a hash.
pub fn parse_index(stdout: &[u8]) -> (r: Option<Vec<(Vec<u8>, Vec<Vec<u8>>)>>)
    ensures
        index_of(stdout@, r),
{
    let ls = split_lines(stdout);
    let ghost gl = lines(stdout@);
    assert(views(ls@).len() == ls@.len());
    let marker: [u8; 5] = [72u8, 97u8, 115u8, 104u8, 32u8];
    assert(marker@ =~= hash_marker());
    let mut ix: Vec<(Vec<u8>, Vec<Vec<u8>>)> = Vec::new();
    let mut cur: Vec<u8> = Vec::new();
    let mut i: usize = 0;
    while i < ls.len()
        invariant
            gl == lines(stdout@),
            views(ls@) == gl,
            gl.len() == ls@.len(),
            marker@ == hash_marker(),
            i <= ls@.len(),
            cur@ == key_before(gl, i as int),
            hashes_complete(gl, i as int),
            indexes(index_view(ix@), gl, i as int),
        decreases ls@.len() - i,
    {
        let ghost old_iv = index_view(ix@);
        assert(gl[i as int] == ls@[i as int]@);
        let line = &ls[i];
        if has_prefix(line.as_slice(), marker.as_slice()) {
            if line.len() < HASH_END {
                assert(!hashes_complete(gl, gl.len() as int));
                return None;
            }
            cur = copy_range(line.as_slice(), 5, HASH_END);
            proof {
                assert forall|k: Seq<u8>| #[trigger] entries(gl, i + 1, k) == entries(gl, i as int, k) by {
                    lemma_entries_other_line(gl, i as int, k);
                }
                assert(index_view(ix@) =~= old_iv);
            }
        } else {
            let ghost old_ix = ix@;
            let copied = copy_range(line.as_slice(), 0, line.len());
            assert(copied@ =~= gl[i as int]);
            proof {
                assert forall|k: Seq<u8>| k != cur@ implies #[trigger] entries(gl, i + 1, k) == entries(
                    gl,
                    i as int,
                    k,
                ) by {
                    lemma_entries_other_line(gl, i as int, k);
                }
                assert(entries(gl, i + 1, cur@) == entries(gl, i as int, cur@).push(gl[i as int]));
            }
            match find_key(&ix, cur.as_slice()) {
                Some(a) => {
                    let mut entry = ix.remove(a);
                    entry.1.push(copied);
                    ix.insert(a, entry);
                    proof {
                        assert(ix@ =~= old_ix.update(a as int, ix@[a as int]));
                        assert(views(ix@[a as int].1@) =~= views(old_ix[a as int].1@).push(gl[i as int]));
                        let iv = index_view(ix@);
                        assert(iv.len() == old_iv.len());
                        assert forall|b: int| 0 <= b < iv.len() && b != a implies #[trigger] iv[b] == old_iv[b] by {}
                        assert(iv[a as int].0 == cur@);
                        assert(old_iv[a as int].0 == cur@);
                        assert forall|b: int| 0 <= b < iv.len() implies #[trigger] iv[b].1 == entries(gl, i + 1, iv[b].0) by {
                            if b == a {
                                assert(old_iv[b].1 == entries(gl, i as int, cur@));
                                assert(old_iv[b].1 == views(old_ix[b].1@));
                            } else {
                                assert(old_iv[b].0 != old_iv[a as int].0);
                                assert(entries(gl, i + 1, old_iv[b].0) == entries(gl, i as int, old_iv[b].0));
                            }
                        }
                        assert forall|b: int| 0 <= b < iv.len() implies (#[trigger] iv[b].1).len() > 0 by {
                            if b != a {
                                assert(old_iv[b].1.len() > 0);
                            }
                        }
                        assert forall|c: int, b: int| 0 <= c < b < iv.len() implies #[trigger] iv[c].0 != #[trigger] iv[b].0 by {
                            assert(old_iv[c].0 != old_iv[b].0);
                        }
                        assert forall|k: Seq<u8>| #[trigger] entries(gl, i + 1, k).len() > 0 implies exists|c: int| 0 <= c < iv.len() && iv[c].0 == k by {
                            if k == cur@ {
                                assert(iv[a as int].0 == k);
                            } else {
                                assert(entries(gl, i as int, k).len() > 0);
                                let c = choose|c: int| 0 <= c < old_iv.len() && old_iv[c].0 == k;
                                assert(iv[c].0 == k);
                            }
                        }
                        assert(indexes(iv, gl, i + 1));
                    }
                },
                None => {
                    let key = copy_range(cur.as_slice(), 0, cur.len());
                    assert(key@ =~= cur@);
                    let mut filed: Vec<Vec<u8>> = Vec::new();
                    filed.push(copied);
                    ix.push((key, filed));
                    proof {
                        if entries(gl, i as int, cur@).len() > 0 {
                            let c = choose|c: int| 0 <= c < old_iv.len() && old_iv[c].0 == cur@;
                            assert(old_ix[c].0@ == cur@);
                        }
                        assert(entries(gl, i as int, cur@) =~= Seq::<Seq<u8>>::empty());
                        let iv = index_view(ix@);
                        assert(views(filed@) =~= seq![gl[i as int]]);
                        assert(ix@ == old_ix.push((key, filed)));
                        assert(iv =~= old_iv.push((cur@, seq![gl[i as int]])));
                        assert forall|b: int| 0 <= b < iv.len() implies #[trigger] iv[b].1 == entries(gl, i + 1, iv[b].0) by {
                            if b < old_iv.len() {
                                assert(old_ix[b].0@ != cur@);
                                assert(entries(gl, i + 1, old_iv[b].0) == entries(gl, i as int, old_iv[b].0));
                            }
                        }
                        assert forall|k: Seq<u8>| #[trigger] entries(gl, i + 1, k).len() > 0 implies exists|c: int| 0 <= c < iv.len() && iv[c].0 == k by {
                            if k == cur@ {
                                assert(iv[old_iv.len() as int].0 == k);
                            } else {
                                assert(entries(gl, i as int, k).len() > 0);
                                let c = choose|c: int| 0 <= c < old_iv.len() && old_iv[c].0 == k;
                                assert(iv[c].0 == k);
                            }
                        }
                        assert forall|a: int, b: int| 0 <= a < b < iv.len() implies #[trigger] iv[a].0 != #[trigger] iv[b].0 by {
                            if b == old_iv.len() {
                                assert(old_ix[a].0@ != cur@);
                            }
                        }
                        assert(indexes(iv, gl, i + 1));
                    }
                },
            }
        }
        i = i + 1;
    }
    Some(ix)
}

/// The total that the diff output's lines `ls` from `i` on add to
/// `counter`, with `skip` lines still to pass over. A line that names the
/// compared files is passed over; any other line must hold a number as its
/// second word: it adds that number and passes over as many lines after it.
/// `None` where such a line has no second word, the word is no `i32`, or the
/// total leaves the range of an `i32`.
pub open spec fn diff_fold(ls: Seq<Seq<u8>>, i: int, skip: int, counter: int) -> Option<int>
    decreases ls.len() - i,
{
    if i < 0 || i >= ls.len() {
        Some(counter)
    } else if skip > 0 {
        diff_fold(ls, i + 1, skip - 1, counter)
    } else if starts_with(ls[i], diff_marker()) {
        diff_fold(ls, i + 1, skip, counter)
    } else if words(ls[i]).len() < 2 {
        None
    } else {
        match parse_i32(words(ls[i])[1]) {
            None => None,
            Some(d) => {
                if counter + d < i32::MIN || counter + d > i32::MAX {
                    None
                } else {
                    diff_fold(ls, i + 1, d as int, counter + d)
                }
            },
        }
    }
}

/// The number of differing lines that the output `s` of `diff -n` reports.
pub open spec fn diff_total(s: Seq<u8>) -> Option<int> {
    diff_fold(lines(s), 0, 0, 0)
}

/// Adds up the numbers of differing lines that the output of `diff -n`
/// reports; `None` where the output does not have the form that the count
/// needs (see `diff_fold`).
pub fn count_diff_lines(output: &[u8]) -> (r: Option<i32>)
    ensures
        match diff_total(output@) {
            Some(n) => r == Some(n as i32),
            None => r is None,
        },
{
    let ls = split_lines(output);
    let ghost gl = lines(output@);
    assert(views(ls@).len() == ls@.len());
    let marker: [u8; 7] = [100u8, 105u8, 102u8, 102u8, 32u8, 45u8, 120u8];
    assert(marker@ =~= diff_marker());
    let mut counter: i32 = 0;
    let mut skip: i32 = 0;
    let mut i: usize = 0;
    while i < ls.len()
        invariant
            gl == lines(output@),
            views(ls@) == gl,
            gl.len() == ls@.len(),
            marker@ == diff_marker(),
            i <= ls@.len(),
            diff_fold(gl, i as int, skip as int, counter as int) == diff_total(output@),
        decreases ls@.len() - i,
    {
        assert(gl[i as int] == ls@[i as int]@);
        let line = ls[i].as_slice();
        if skip > 0 {
            skip = skip - 1;
        } else if has_prefix(line, marker.as_slice()) {
        } else {
            match second_word(line) {
                None => {
                    return None;
                },
                Some((a, b)) => {
                    let word = copy_range(line, a, b);
                    match parse_i32_bytes(word.as_slice()) {
                        None => {
                            return None;
                        },
                        Some(d) => {
                            let total: i64 = counter as i64 + d as i64;
                            if total < -2147483648 || total > 2147483647 {
                                return None;
                            }
                            counter = total as i32;
                            skip = d;
                        },
                    }
                },
            }
        }
        i = i + 1;
    }
    Some(counter)
}

/// Whether the hashing script did its work: it started and wrote nothing
/// to its standard error.
pub open spec fn script_clean(outcome: ProcessOutcome) -> bool {
    outcome matches ProcessOutcome::Exited { stderr, .. } && stderr@.len() == 0
}

/// Judges a run of the script that generates the hashes of a program.
pub fn hashes_generated(outcome: &ProcessOutcome) -> (r: Result<(), ()>)
    ensures
        r is Ok <==> script_clean(*outcome),
{
    match outcome {
        ProcessOutcome::SpawnFailed(_) => Err(()),
        ProcessOutcome::Exited { success: _, stdout: _, stderr } => {
            if stderr.len() == 0 {
                Ok(())
            } else {
                Err(())
            }
        },
    }
}

/// Judges a run of the script that compares the hashes of two programs: on
/// success, what it wrote, which holds the likeness of the two.
pub fn comparison_output(outcome: ProcessOutcome) -> (r: Option<Vec<u8>>)
    ensures
        script_clean(outcome) ==> r == Some(outcome->stdout),
        !script_clean(outcome) ==> r is None,
{
    match outcome {
        ProcessOutcome::SpawnFailed(_) => None,
        ProcessOutcome::Exited { success: _, stdout, stderr } => {
            if stderr.len() == 0 {
                Some(stdout)
            } else {
                None
            }
        },
    }
}

/// Judges a run of the script that adds hashes to the index: an error where
/// it did not start or did not end with success, else the index that its
/// output files (see `index_of`).
pub fn index_result(outcome: &ProcessOutcome) -> (r: Result<Option<Vec<(Vec<u8>, Vec<Vec<u8>>)>>, ()>)
    ensures
        match *outcome {
            ProcessOutcome::SpawnFailed(_) => r is Err,
            ProcessOutcome::Exited { success, stdout, .. } => if success {
                r matches Ok(x) && index_of(stdout@, x)
            } else {
                r is Err
            },
        },
{
    match outcome {
        ProcessOutcome::SpawnFailed(_) => Err(()),
        ProcessOutcome::Exited { success, stdout, stderr: _ } => {
            if *success {
                Ok(parse_index(stdout.as_slice()))
            } else {
                Err(())
            }
        },
    }
}

/// The number of lines still to pass over once the diff output's lines
/// `ls` from `i` on are read, starting with `skip` to pass over.
pub open spec fn pending_skip(ls: Seq<Seq<u8>>, i: int, skip: int) -> int
    decreases ls.len() - i,
{
    if i < 0 || i >= ls.len() {
        skip
    } else if skip > 0 {
        pending_skip(ls, i + 1, skip - 1)
    } else if starts_with(ls[i], diff_marker()) {
        pending_skip(ls, i + 1, skip)
    } else if words(ls[i]).len() < 2 {
        skip
    } else {
        match parse_i32(words(ls[i])[1]) {
            None => skip,
            Some(d) => pending_skip(ls, i + 1, d as int),
        }
    }
}

proof fn lemma_diff_fold_shift(la: Seq<Seq<u8>>, lb: Seq<Seq<u8>>, j: int, skip: int, counter: int)
    requires
        0 <= j <= lb.len(),
    ensures
        diff_fold(la + lb, la.len() + j, skip, counter) == diff_fold(lb, j, skip, counter),
    decreases lb.len() - j,
{
    let k = la.len() + j;
    if j < lb.len() {
        assert((la + lb)[k] == lb[j]);
        if skip > 0 {
            lemma_diff_fold_shift(la, lb, j + 1, skip - 1, counter);
        } else if starts_with(lb[j], diff_marker()) {
            lemma_diff_fold_shift(la, lb, j + 1, skip, counter);
        } else if words(lb[j]).len() >= 2 {
            match parse_i32(words(lb[j])[1]) {
                Some(d) => {
                    lemma_diff_fold_shift(la, lb, j + 1, d as int, counter + d);
                },
                None => {},
            }
        }
        assert(k + 1 == la.len() + (j + 1));
    }
}

proof fn lemma_diff_fold_nonpositive_skip(ls: Seq<Seq<u8>>, i: int, s1: int, s2: int, counter: int)
    requires
        0 <= i <= ls.len(),
        s1 <= 0,
        s2 <= 0,
    ensures
        diff_fold(ls, i, s1, counter) == diff_fold(ls, i, s2, counter),
    decreases ls.len() - i,
{
    if i < ls.len() && starts_with(ls[i], diff_marker()) {
        lemma_diff_fold_nonpositive_skip(ls, i + 1, s1, s2, counter);
    }
}

proof fn lemma_diff_fold_offset(ls: Seq<Seq<u8>>, i: int, skip: int, c1: int, c2: int)
    requires
        0 <= i <= ls.len(),
        diff_fold(ls, i, skip, c1) is Some,
        diff_fold(ls, i, skip, c2) is Some,
    ensures
        diff_fold(ls, i, skip, c1)->0 - c1 == diff_fold(ls, i, skip, c2)->0 - c2,
    decreases ls.len() - i,
{
    if i < ls.len() {
        if skip > 0 {
            lemma_diff_fold_offset(ls, i + 1, skip - 1, c1, c2);
        } else if starts_with(ls[i], diff_marker()) {
            lemma_diff_fold_offset(ls, i + 1, skip, c1, c2);
        } else {
            let d = parse_i32(words(ls[i])[1])->0;
            lemma_diff_fold_offset(ls, i + 1, d as int, c1 + d, c2 + d);
        }
    }
}

proof fn lemma_diff_fold_split(la: Seq<Seq<u8>>, lb: Seq<Seq<u8>>, i: int, skip: int, counter: int)
    requires
        0 <= i <= la.len(),
    ensures
        diff_fold(la, i, skip, counter) matches Some(t) ==> diff_fold(la + lb, i, skip, counter)
            == diff_fold(lb, 0, pending_skip(la, i, skip), t),
    decreases la.len() - i,
{
    if i == la.len() {
        lemma_diff_fold_shift(la, lb, 0, skip, counter);
    } else {
        assert((la + lb)[i] == la[i]);
        if skip > 0 {
            lemma_diff_fold_split(la, lb, i + 1, skip - 1, counter);
        } else if starts_with(la[i], diff_marker()) {
            lemma_diff_fold_split(la, lb, i + 1, skip, counter);
        } else if words(la[i]).len() >= 2 {
            match parse_i32(words(la[i])[1]) {
                Some(d) => {
                    lemma_diff_fold_split(la, lb, i + 1, d as int, counter + d);
                },
                None => {},
            }
        }
    }
}

/// A line that names the compared files never changes the running total:
/// the output with such a line put in front counts the same, whatever the
/// total so far.
pub proof fn lemma_file_header_keeps_total(header: Seq<u8>, ls: Seq<Seq<u8>>, counter: int)
    requires
        starts_with(header, diff_marker()),
    ensures
        diff_fold(seq![header] + ls, 0, 0, counter) == diff_fold(ls, 0, 0, counter),
{
    assert((seq![header] + ls)[0] == header);
    lemma_diff_fold_shift(seq![header], ls, 0, 0, counter);
}

/// The count adds up over files: the lines of one diff output whose
/// changed lines are all passed, followed by those of a second one that
/// opens with the line naming its files, count the sum of the two counts.
pub proof fn lemma_diff_counts_add_up(la: Seq<Seq<u8>>, lb: Seq<Seq<u8>>)
    requires
        lb.len() > 0,
        starts_with(lb[0], diff_marker()),
        pending_skip(la, 0, 0) <= 0,
        diff_fold(la, 0, 0, 0) is Some,
        diff_fold(lb, 0, 0, 0) is Some,
        diff_fold(la + lb, 0, 0, 0) is Some,
    ensures
        diff_fold(la + lb, 0, 0, 0)->0 == diff_fold(la, 0, 0, 0)->0 + diff_fold(lb, 0, 0, 0)->0,
{
    let ta = diff_fold(la, 0, 0, 0)->0;
    let p = pending_skip(la, 0, 0);
    lemma_diff_fold_split(la, lb, 0, 0, 0);
    assert(diff_fold(lb, 0, p, ta) == diff_fold(lb, 1, p, ta));
    lemma_diff_fold_nonpositive_skip(lb, 1, p, 0, ta);
    assert(diff_fold(lb, 0, 0, 0) == diff_fold(lb, 1, 0, 0));
    lemma_diff_fold_offset(lb, 1, 0, ta, 0);
}

/// A run of a script is judged by its standard error alone: with anything
/// written there it failed, whatever its exit status; with nothing written
/// there it succeeded, whatever its exit status and output; and a script
/// that did not start failed.
pub proof fn lemma_script_judged_by_stderr(
    success: bool,
    stdout: Vec<u8>,
    stderr: Vec<u8>,
    other_success: bool,
    other_stdout: Vec<u8>,
    reason: String,
)
    ensures
        stderr@.len() > 0 ==> !script_clean((ProcessOutcome::Exited { success, stdout, stderr })),
        stderr@.len() == 0 ==> script_clean((ProcessOutcome::Exited { success, stdout, stderr })),
        script_clean((ProcessOutcome::Exited { success, stdout, stderr })) == script_clean(
            (ProcessOutcome::Exited { success: other_success, stdout: other_stdout, stderr }),
        ),
        !script_clean(ProcessOutcome::SpawnFailed(reason)),
{
}

/// The count adds up over files, for the outputs themselves: an output that
/// ends with a line feed and whose changed lines are all passed, followed by
/// a second output that opens with the line naming its files, counts the sum
/// of the two counts.
pub proof fn lemma_diff_totals_add_up(a: Seq<u8>, b: Seq<u8>)
    requires
        a.len() == 0 || a.last() == NEWLINE,
        lines(b).len() > 0,
        starts_with(lines(b)[0], diff_marker()),
        pending_skip(lines(a), 0, 0) <= 0,
        diff_total(a) is Some,
        diff_total(b) is Some,
        diff_total(a + b) is Some,
    ensures
        diff_total(a + b)->0 == diff_total(a)->0 + diff_total(b)->0,
{
    lemma_lines_of_joined_texts(a, b);
    lemma_diff_counts_add_up(lines(a), lines(b));
}

/// A line is filed under the hash of the nearest hash line above it.
pub proof fn lemma_key_is_nearest_hash(ls: Seq<Seq<u8>>, i: int, j: int)
    requires
        0 <= i < j <= ls.len(),
        is_hash_line(ls[i]),
        forall|k: int| i < k < j ==> !is_hash_line(#[trigger] ls[k]),
    ensures
        key_before(ls, j) == hash_of(ls[i]),
    decreases j - i,
{
    if j - 1 > i {
        lemma_key_is_nearest_hash(ls, i, j - 1);
    }
}

/// A line with no hash line above it is filed under the empty text.
pub proof fn lemma_key_without_hash_above(ls: Seq<Seq<u8>>, j: int)
    requires
        0 <= j <= ls.len(),
        forall|k: int| 0 <= k < j ==> !is_hash_line(#[trigger] ls[k]),
    ensures
        key_before(ls, j) == Seq::<u8>::empty(),
    decreases j,
{
    if j > 0 {
        lemma_key_without_hash_above(ls, j - 1);
    }
}

/// Every line that is no hash line is filed under the hash in effect at it,
/// and only lines that are no hash line and stand under `k` are filed
/// under `k`.
pub proof fn lemma_entries_are_the_lines_under(ls: Seq<Seq<u8>>, n: int, k: Seq<u8>)
    requires
        0 <= n <= ls.len(),
    ensures
        forall|j: int| 0 <= j < n && !is_hash_line(ls[j]) ==> #[trigger] entries(ls, n, key_before(ls, j)).contains(ls[j]),
        forall|x: Seq<u8>| #[trigger] entries(ls, n, k).contains(x) ==> exists|j: int|
            0 <= j < n && ls[j] == x && !is_hash_line(ls[j]) && key_before(ls, j) == k,
    decreases n,
{
    if n > 0 {
        lemma_entries_are_the_lines_under(ls, n - 1, k);
        assert forall|j: int| 0 <= j < n && !is_hash_line(ls[j]) implies #[trigger] entries(ls, n, key_before(ls, j)).contains(ls[j]) by {
            let kj = key_before(ls, j);
            lemma_entries_are_the_lines_under(ls, n - 1, kj);
            let prev = entries(ls, n - 1, kj);
            if j < n - 1 {
                assert(prev.contains(ls[j]));
                let w = choose|w: int| 0 <= w < prev.len() && prev[w] == ls[j];
                if !is_hash_line(ls[n - 1]) && key_before(ls, n - 1) == kj {
                    assert(prev.push(ls[n - 1])[w] == ls[j]);
                }
            } else {
                assert(prev.push(ls[n - 1])[prev.len() as int] == ls[j]);
            }
        }
        let prev = entries(ls, n - 1, k);
        assert forall|x: Seq<u8>| #[trigger] entries(ls, n, k).contains(x) implies exists|j: int|
            0 <= j < n && ls[j] == x && !is_hash_line(ls[j]) && key_before(ls, j) == k by {
            if !is_hash_line(ls[n - 1]) && key_before(ls, n - 1) == k {
                let full = prev.push(ls[n - 1]);
                let w = choose|w: int| 0 <= w < full.len() && #[trigger] full[w] == x;
                if w < prev.len() {
                    assert(full[w] == prev[w]);
                    assert(prev.contains(x));
                } else {
                    assert(ls[n - 1] == x);
                }
            } else {
                assert(prev.contains(x));
            }
        }
    }
}

} // verus!
