use vstd::prelude::*;
use crate::github::RepoState;
use crate::program::RunnerError;
use crate::text::{trim, trimmed_equal};

verus! {

/// Why a student's program did not pass the lab.
#[derive(Debug, Clone, PartialEq, Eq)]
pub enum LabError {
    /// Contains the number of the test where the program failed.
    WrongAnswer(usize),
    /// Contains the number of the test where the program failed.
    TimeLimit(usize),
    /// Contains the number of the test where the program failed, and the error.
    RuntimeError(usize, RunnerError),
    /// Contains the error of the build.
    BuildError(RunnerError),
}

/// The verdict on test `test_num`: over its time limit, a runtime error, or
/// an answer that does or does not agree with the expected one once leading
/// and trailing white space is taken away from both.
pub open spec fn verdict(
    test_num: usize,
    timed_out: bool,
    output: Result<String, RunnerError>,
    expected: Seq<char>,
) -> Result<(), LabError> {
    if timed_out {
        Err(LabError::TimeLimit(test_num))
    } else {
        match output {
            Ok(out) => if trim(out@) == trim(expected) {
                Ok(())
            } else {
                Err(LabError::WrongAnswer(test_num))
            },
            Err(e) => Err(LabError::RuntimeError(test_num, e)),
        }
    }
}

/// Judges one test, given whether the program went over the test's time
/// limit, what the run came to, and the expected output.
pub fn test_verdict(
    test_num: usize,
    timed_out: bool,
    output: Result<String, RunnerError>,
    expected: &str,
) -> (r: Result<(), LabError>)
    ensures
        r == verdict(test_num, timed_out, output, expected@),
{
    if timed_out {
        return Err(LabError::TimeLimit(test_num));
    }
    match output {
        Ok(out) => {
            if trimmed_equal(out.as_str(), expected) {
                Ok(())
            } else {
                Err(LabError::WrongAnswer(test_num))
            }
        },
        Err(e) => Err(LabError::RuntimeError(test_num, e)),
    }
}

/// What comes next in the check of a student's program.
#[derive(Debug, PartialEq, Eq)]
pub enum CheckAction {
    /// Run the test with this number.
    RunTest(usize),
    /// The check is over, with this result.
    Finish(Result<(), LabError>),
}

/// What comes after the build: the build's error ends the check; otherwise
/// the first test runs, or the check passes where there is no test.
pub open spec fn action_after_build(build: Result<(), RunnerError>, n_tests: nat) -> CheckAction {
    match build {
        Err(e) => CheckAction::Finish(Err(LabError::BuildError(e))),
        Ok(_) => if n_tests == 0 {
            CheckAction::Finish(Ok(()))
        } else {
            CheckAction::RunTest(0)
        },
    }
}

/// What comes after test `test_num`: its failure ends the check; otherwise
/// the next test runs, or the check passes after the last one.
pub open spec fn action_after_test(test_num: nat, n_tests: nat, v: Result<(), LabError>) -> CheckAction {
    match v {
        Err(e) => CheckAction::Finish(Err(e)),
        Ok(_) => if test_num + 1 < n_tests {
            CheckAction::RunTest((test_num + 1) as usize)
        } else {
            CheckAction::Finish(Ok(()))
        },
    }
}

/// Decides what comes after the build of a program that has `n_tests` tests.
pub fn after_build(build: Result<(), RunnerError>, n_tests: usize) -> (a: CheckAction)
    ensures
        a == action_after_build(build, n_tests as nat),
{
    match build {
        Err(e) => CheckAction::Finish(Err(LabError::BuildError(e))),
        Ok(_) => if n_tests == 0 {
            CheckAction::Finish(Ok(()))
        } else {
            CheckAction::RunTest(0)
        },
    }
}

/// Decides what comes after test `test_num` of `n_tests` gave the verdict `v`.
pub fn after_test(test_num: usize, n_tests: usize, v: Result<(), LabError>) -> (a: CheckAction)
    requires
        test_num < n_tests,
    ensures
        a == action_after_test(test_num as nat, n_tests as nat, v),
{
    match v {
        Err(e) => CheckAction::Finish(Err(e)),
        Ok(_) => if test_num + 1 < n_tests {
            CheckAction::RunTest(test_num + 1)
        } else {
            CheckAction::Finish(Ok(()))
        },
    }
}

/// The verdict of the first failed test from `i` on, or success where none failed.
pub open spec fn first_failure(vs: Seq<Result<(), LabError>>, i: int) -> Result<(), LabError>
    decreases vs.len() - i,
{
    if i < 0 || i >= vs.len() {
        Ok(())
    } else if vs[i] is Err {
        vs[i]
    } else {
        first_failure(vs, i + 1)
    }
}

/// Where a check that runs test `i` ends, when test `j` gives the verdict
/// `vs[j]`: the steps of `action_after_test`, followed one by one.
pub open spec fn run_from(vs: Seq<Result<(), LabError>>, i: int) -> Result<(), LabError>
    decreases vs.len() - i,
{
    if i < 0 || i >= vs.len() {
        Ok(())
    } else {
        match action_after_test(i as nat, vs.len(), vs[i]) {
            CheckAction::RunTest(j) => if j > i {
                run_from(vs, j as int)
            } else {
                Ok(())
            },
            CheckAction::Finish(r) => r,
        }
    }
}

/// Where a check ends whose build came to `build` and whose tests give the
/// verdicts `vs`.
pub open spec fn run_check(build: Result<(), RunnerError>, vs: Seq<Result<(), LabError>>) -> Result<
    (),
    LabError,
> {
    match action_after_build(build, vs.len()) {
        CheckAction::RunTest(j) => run_from(vs, j as int),
        CheckAction::Finish(r) => r,
    }
}

proof fn lemma_run_from_first_failure(vs: Seq<Result<(), LabError>>, i: int)
    requires
        0 <= i <= vs.len(),
        vs.len() <= usize::MAX,
    ensures
        run_from(vs, i) == first_failure(vs, i),
    decreases vs.len() - i,
{
    if i < vs.len() {
        lemma_run_from_first_failure(vs, i + 1);
    }
}

/// A check ends with the build's error where the build fails; otherwise with
/// the verdict of the first test that fails, and no later test is run; and
/// it passes where every test passes.
pub proof fn lemma_check_reports_first_failure(
    build: Result<(), RunnerError>,
    vs: Seq<Result<(), LabError>>,
)
    requires
        vs.len() <= usize::MAX,
    ensures
        run_check(build, vs) == match build {
            Err(e) => Err(LabError::BuildError(e)),
            Ok(_) => first_failure(vs, 0),
        },
{
    lemma_run_from_first_failure(vs, 0);
}

/// The texts of a sequence of strings.
pub open spec fn texts(v: Seq<String>) -> Seq<Seq<char>> {
    v.map_values(|s: String| s@)
}

/// The first `n` students of `all` whose names stand in `names`, in their order.
pub open spec fn chosen(all: Seq<Seq<char>>, names: Seq<Seq<char>>, n: int) -> Seq<Seq<char>>
    decreases n,
{
    if n <= 0 {
        seq![]
    } else if names.contains(all[n - 1]) {
        chosen(all, names, n - 1).push(all[n - 1])
    } else {
        chosen(all, names, n - 1)
    }
}

/// Tells whether `name` stands in `names`.
pub fn has_name(names: &Vec<String>, name: &String) -> (r: bool)
    ensures
        r == texts(names@).contains(name@),
{
    let mut j: usize = 0;
    while j < names.len()
        invariant
            j <= names@.len(),
            forall|k: int| 0 <= k < j ==> names@[k]@ != name@,
        decreases names@.len() - j,
    {
        if names[j].eq(name) {
            assert(texts(names@)[j as int] == name@);
            return true;
        }
        j = j + 1;
    }
    proof {
        if texts(names@).contains(name@) {
            let k = choose|k: int| 0 <= k < texts(names@).len() && texts(names@)[k] == name@;
            assert(names@[k]@ == name@);
        }
    }
    false
}

/// The students of `all` (in that order) whose names stand in `names`: those
/// whose programs are checked.
pub fn select_students(all: &Vec<String>, names: &Vec<String>) -> (r: Vec<String>)
    ensures
        texts(r@) == chosen(texts(all@), texts(names@), all@.len() as int),
{
    let mut r: Vec<String> = Vec::new();
    let mut i: usize = 0;
    while i < all.len()
        invariant
            i <= all@.len(),
            texts(r@) == chosen(texts(all@), texts(names@), i as int),
        decreases all@.len() - i,
    {
        let ghost before = r@;
        assert(texts(all@)[i as int] == all@[i as int]@);
        if has_name(names, &all[i]) {
            r.push(all[i].clone());
            assert(texts(r@) =~= texts(before).push(all@[i as int]@));
        }
        i = i + 1;
    }
    r
}

/// The place of the first failed download from `i` on, if any.
pub open spec fn first_error<E>(st: Seq<Result<RepoState, E>>, i: int) -> Option<int>
    decreases st.len() - i,
{
    if i < 0 || i >= st.len() {
        None
    } else if st[i] is Err {
        Some(i)
    } else {
        first_error(st, i + 1)
    }
}

/// The first `n` names whose repositories were updated.
pub open spec fn updated<E>(names: Seq<Seq<char>>, st: Seq<Result<RepoState, E>>, n: int) -> Seq<
    Seq<char>,
>
    decreases n,
{
    if n <= 0 {
        seq![]
    } else if st[n - 1] == Ok::<RepoState, E>(RepoState::Updated) {
        updated(names, st, n - 1).push(names[n - 1])
    } else {
        updated(names, st, n - 1)
    }
}

proof fn lemma_first_error_none<E>(st: Seq<Result<RepoState, E>>, i: int, k: int)
    requires
        0 <= i <= k < st.len(),
        first_error(st, i) is None,
    ensures
        st[k] is Ok,
    decreases k - i,
{
    if i < k {
        lemma_first_error_none(st, i + 1, k);
    }
}

/// Given the names of the students and what became of their downloads, in
/// the same order: the first failed download's error, or else the names of
/// the students whose repositories changed.
pub fn updated_students<E>(names: &Vec<String>, outcomes: Vec<Result<RepoState, E>>) -> (r: Result<
    Vec<String>,
    E,
>)
    requires
        names@.len() == outcomes@.len(),
    ensures
        match first_error(outcomes@, 0) {
            Some(k) => r is Err && outcomes@[k] == Err::<RepoState, E>(r->Err_0),
            None => r matches Ok(v) && texts(v@) == updated(texts(names@), outcomes@, names@.len() as int),
        },
{
    let mut states = outcomes;
    let ghost st = states@;
    let mut i: usize = 0;
    while i < states.len()
        invariant
            i <= states@.len(),
            states@ == st,
            st == outcomes@,
            first_error(st, 0) == first_error(st, i as int),
        decreases states@.len() - i,
    {
        let failed = match &states[i] {
            Err(_) => true,
            Ok(_) => false,
        };
        if failed {
            assert(st[i as int] is Err);
            assert(first_error(st, i as int) == Some(i as int));
            let e = states.remove(i);
            assert(e == st[i as int]);
            match e {
                Err(e) => {
                    return Err(e);
                },
                Ok(_) => {
                    proof {
                        assert(false);
                    }
                },
            }
        }
        i = i + 1;
    }
    let mut r: Vec<String> = Vec::new();
    let mut j: usize = 0;
    while j < names.len()
        invariant
            j <= names@.len() == st.len(),
            states@ == st,
            st == outcomes@,
            first_error(st, 0) is None,
            texts(r@) == updated(texts(names@), st, j as int),
        decreases names@.len() - j,
    {
        let ghost before = r@;
        proof {
            lemma_first_error_none(st, 0, j as int);
        }
        assert(texts(names@)[j as int] == names@[j as int]@);
        let fresh = match &states[j] {
            Ok(RepoState::Updated) => true,
            _ => false,
        };
        if fresh {
            r.push(names[j].clone());
            assert(texts(r@) =~= texts(before).push(names@[j as int]@));
        }
        j = j + 1;
    }
    Ok(r)
}

/// A test passes exactly when the answer, without its leading and trailing
/// white space, is the expected output without its own: a run that ended in
/// time with any other answer is a wrong answer on that test.
pub proof fn lemma_verdict_on_answer(test_num: usize, out: String, expected: Seq<char>)
    ensures
        verdict(test_num, false, Ok(out), expected) is Ok <==> trim(out@) == trim(expected),
        trim(out@) != trim(expected) ==> verdict(test_num, false, Ok(out), expected) == Err::<
            (),
            LabError,
        >(LabError::WrongAnswer(test_num)),
{
}

/// Judging is symmetric in the answer and the expected output: an answer
/// passes against an expected output exactly when, the other way round,
/// the expected output passes against the answer.
pub proof fn lemma_verdict_symmetric(test_num: usize, a: String, b: String)
    ensures
        verdict(test_num, false, Ok(a), b@) is Ok <==> verdict(test_num, false, Ok(b), a@) is Ok,
{
}

/// A test passes only when the run ended in time and gave an answer.
pub proof fn lemma_pass_needs_answer_in_time(
    test_num: usize,
    timed_out: bool,
    output: Result<String, RunnerError>,
    expected: Seq<char>,
)
    ensures
        verdict(test_num, timed_out, output, expected) is Ok ==> !timed_out && output is Ok,
{
}

/// Whether a name stands among the names asked for.
pub open spec fn asked(names: Seq<Seq<char>>) -> spec_fn(Seq<char>) -> bool {
    |s: Seq<char>| names.contains(s)
}

/// The students chosen are exactly those of the lab whose own names were
/// asked for, in the lab's order.
pub proof fn lemma_chosen_are_asked(all: Seq<Seq<char>>, names: Seq<Seq<char>>, n: int)
    requires
        0 <= n <= all.len(),
    ensures
        chosen(all, names, n) == all.take(n).filter(asked(names)),
    decreases n,
{
    reveal(Seq::filter);
    if n > 0 {
        lemma_chosen_are_asked(all, names, n - 1);
        let t = all.take(n);
        assert(t.drop_last() =~= all.take(n - 1));
        assert(t.last() == all[n - 1]);
        assert(asked(names)(all[n - 1]) == names.contains(all[n - 1]));
        assert(t.filter(asked(names)) == if asked(names)(t.last()) {
            t.drop_last().filter(asked(names)).push(t.last())
        } else {
            t.drop_last().filter(asked(names))
        });
    } else {
        assert(all.take(0) =~= Seq::<Seq<char>>::empty());
    }
}

/// Every chosen student was asked for and belongs to the lab, and every
/// student of the lab who was asked for is chosen.
pub proof fn lemma_chosen_members(all: Seq<Seq<char>>, names: Seq<Seq<char>>)
    ensures
        forall|s: Seq<char>| #[trigger] chosen(all, names, all.len() as int).contains(s) <==> (
        all.contains(s) && names.contains(s)),
{
    lemma_chosen_are_asked(all, names, all.len() as int);
    assert(all.take(all.len() as int) =~= all);
    assert forall|s: Seq<char>| #[trigger] chosen(all, names, all.len() as int).contains(s) <==> (
    all.contains(s) && names.contains(s)) by {
        let f = all.filter(asked(names));
        if f.contains(s) {
            let k = choose|k: int| 0 <= k < f.len() && f[k] == s;
            all.lemma_filter_pred(asked(names), k);
            all.lemma_filter_contains_rev(asked(names), s);
        }
        if all.contains(s) && names.contains(s) {
            all.lemma_filter_contains_rev(asked(names), s);
        }
    }
}

/// The positions `0..n`.
pub open spec fn positions(n: int) -> Seq<int> {
    Seq::new(n as nat, |i: int| i)
}

/// Whether the download at position `i` brought new commits.
pub open spec fn brought_update<E>(st: Seq<Result<RepoState, E>>) -> spec_fn(int) -> bool {
    |i: int| st[i] == Ok::<RepoState, E>(RepoState::Updated)
}

/// The name at each position.
pub open spec fn name_at(names: Seq<Seq<char>>) -> spec_fn(int) -> Seq<char> {
    |i: int| names[i]
}

/// With no failed download, the students found changed are exactly those
/// whose own download, at the same position, brought new commits, in order.
pub proof fn lemma_updated_by_own_download<E>(
    names: Seq<Seq<char>>,
    st: Seq<Result<RepoState, E>>,
    n: int,
)
    requires
        0 <= n <= names.len(),
        n <= st.len(),
    ensures
        updated(names, st, n) == positions(n).filter(brought_update(st)).map_values(name_at(names)),
    decreases n,
{
    reveal(Seq::filter);
    if n > 0 {
        lemma_updated_by_own_download(names, st, n - 1);
        let t = positions(n);
        assert(t.drop_last() =~= positions(n - 1));
        assert(t.last() == n - 1);
        assert(brought_update(st)(n - 1) == (st[n - 1] == Ok::<RepoState, E>(RepoState::Updated)));
        assert(t.filter(brought_update(st)) == if brought_update(st)(t.last()) {
            t.drop_last().filter(brought_update(st)).push(t.last())
        } else {
            t.drop_last().filter(brought_update(st))
        });
        let prev = positions(n - 1).filter(brought_update(st));
        assert(prev.push(n - 1).map_values(name_at(names)) =~= prev.map_values(name_at(names)).push(
            names[n - 1],
        ));
    } else {
        assert(positions(0) =~= Seq::<int>::empty());
        assert(positions(0).filter(brought_update(st)).map_values(name_at(names)) =~= Seq::<
            Seq<char>,
        >::empty());
    }
}

} // verus!
